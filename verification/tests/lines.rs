use tmpl::lines::{join_lines, split_lines};

fn strings(v: &[&str]) -> Vec<String> {
    v.iter().map(|s| s.to_string()).collect()
}

#[test]
fn split_lines_agrees_with_str_lines() {
    let cases = [
        "",
        "a",
        "a\n",
        "a\nb",
        "a\r\nb\r\n",
        "a\r",
        "a\r\n",
        "\n",
        "\n\n",
        "\r\n",
        "a\n\nb",
        "a\rb\n",
        "foo\nbar\n\r\nbaz\r",
        "// tmpl:greet\nfn main() {}\n",
    ];
    for s in cases {
        let want: Vec<String> = s.lines().map(|l| l.to_string()).collect();
        assert_eq!(split_lines(s), want, "{:?}", s);
    }
}

#[test]
fn split_lines_exact_values() {
    assert_eq!(split_lines(""), strings(&[]));
    assert_eq!(split_lines("a\nb"), strings(&["a", "b"]));
    assert_eq!(split_lines("a\nb\n"), strings(&["a", "b"]));
    assert_eq!(split_lines("a\r\nb"), strings(&["a", "b"]));
    assert_eq!(split_lines("a\n\n"), strings(&["a", ""]));
    assert_eq!(split_lines("last\r"), strings(&["last\r"]));
}

#[test]
fn join_lines_ends_every_line() {
    assert_eq!(join_lines(&strings(&[])), "");
    assert_eq!(join_lines(&strings(&["a"])), "a\n");
    assert_eq!(join_lines(&strings(&["a", "", "b"])), "a\n\nb\n");
}

#[test]
fn joining_the_lines_of_a_file_adds_the_missing_terminator() {
    assert_eq!(join_lines(&split_lines("a\nb")), "a\nb\n");
    assert_eq!(join_lines(&split_lines("a\nb\n")), "a\nb\n");
    assert_eq!(join_lines(&split_lines("a\r\nb\r\n")), "a\nb\n");
}

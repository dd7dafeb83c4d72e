use tmpl::edit::{
    replace_all, split_at_each, token, trimmed, trimmed_end_of, trimmed_start_of,
};

fn cs(s: &str) -> Vec<char> {
    s.chars().collect()
}

fn st(v: &[char]) -> String {
    v.iter().collect()
}

#[test]
fn replace_all_agrees_with_str_replace() {
    let cases = [
        ("abcabc", "bc", "X"),
        ("aaa", "aa", "b"),
        ("aaaa", "aa", "b"),
        ("abc", "", "-"),
        ("", "", "x"),
        ("", "a", "x"),
        ("abc", "abc", ""),
        ("abc", "d", "x"),
        ("src/main.rs", "src", "lib"),
        ("a/b/a", "a", "aa"),
    ];
    for (hay, from, to) in cases {
        assert_eq!(
            st(&replace_all(&cs(hay), &cs(from), &cs(to))),
            hay.replace(from, to),
            "{:?} {:?} {:?}",
            hay,
            from,
            to
        );
    }
}

#[test]
fn replace_all_exact_values() {
    assert_eq!(st(&replace_all(&cs("abcabc"), &cs("bc"), &cs("X"))), "aXaX");
    assert_eq!(st(&replace_all(&cs("aaa"), &cs("aa"), &cs("b"))), "ba");
    assert_eq!(st(&replace_all(&cs("abc"), &cs(""), &cs("-"))), "-a-b-c-");
    assert_eq!(st(&replace_all(&cs(""), &cs(""), &cs("x"))), "x");
}

#[test]
fn trimmed_agrees_with_str_trim() {
    for s in ["", " ", "  a b  ", "a", "\t\r\n x \u{00A0}", "\u{3000}x\u{2003}", "x  "] {
        assert_eq!(st(&trimmed(&cs(s))), s.trim(), "{:?}", s);
    }
}

#[test]
fn trimmed_runs_of_one_character() {
    for s in ["", "a", "a.", "a...", "...", ".a.b..", "a.b"] {
        assert_eq!(st(&trimmed_end_of(&cs(s), '.')), s.trim_end_matches('.'), "{:?}", s);
    }
    for s in ["", "a", "/a", "///a/b", "///", "a/"] {
        assert_eq!(st(&trimmed_start_of(&cs(s), '/')), s.trim_start_matches('/'), "{:?}", s);
    }
}

#[test]
fn token_is_text_before_first_whitespace() {
    assert_eq!(st(&token(&cs("append here"))), "append");
    assert_eq!(st(&token(&cs("append"))), "append");
    assert_eq!(st(&token(&cs(""))), "");
    assert_eq!(st(&token(&cs(" x"))), "");
    assert_eq!(st(&token(&cs("a\tb"))), "a");
    for s in ["a b c", "abc", "x\u{00A0}y"] {
        assert_eq!(st(&token(&cs(s))), s.split_whitespace().next().unwrap());
    }
}

#[test]
fn split_agrees_with_str_split() {
    for s in ["", ":", "a", "a:b", ":a", "a:", "a::b", "::", " :append:x=1 "] {
        let got: Vec<String> = split_at_each(&cs(s), ':').iter().map(|p| st(p)).collect();
        let want: Vec<String> = s.split(':').map(|p| p.to_string()).collect();
        assert_eq!(got, want, "{:?}", s);
    }
}

#[test]
fn split_has_one_piece_more_than_separators() {
    assert_eq!(split_at_each(&cs(""), ':').len(), 1);
    assert_eq!(split_at_each(&cs("abc"), ':').len(), 1);
    assert_eq!(split_at_each(&cs("a:b:c"), ':').len(), 3);
    assert_eq!(split_at_each(&cs(":::"), ':').len(), 4);
}

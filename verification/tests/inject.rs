use tmpl::error::Error;
use tmpl::inject::{inject_chunk, inject_lines};

fn strings(v: &[&str]) -> Vec<String> {
    v.iter().map(|s| s.to_string()).collect()
}

#[test]
fn default_mode_is_prepend() {
    let out = inject_lines("Hello", "greeting", &strings(&["// tmpl:greeting"])).unwrap();
    assert_eq!(out, strings(&["Hello", "// tmpl:greeting"]));
}

#[test]
fn append_mode_puts_fragment_after_marker() {
    let out = inject_lines("Hello", "greeting", &strings(&["// tmpl:greeting :append"])).unwrap();
    assert_eq!(out, strings(&["// tmpl:greeting :append", "Hello"]));
}

#[test]
fn marker_followed_by_colon_is_copied_unchanged() {
    let out = inject_lines("Hello", "greeting", &strings(&["// tmpl:greeting:append"])).unwrap();
    assert_eq!(out, strings(&["// tmpl:greeting:append"]));
}

#[test]
fn insert_mode_is_refused() {
    let r = inject_lines("Hello", "greeting", &strings(&["a", "// tmpl:greeting :insert", "b"]));
    assert_eq!(r, Err(Error::UnsupportedInsertionMode));
    let r = inject_chunk("Hello", "greeting", "// tmpl:greeting :insert\n");
    assert_eq!(r, Err(Error::UnsupportedInsertionMode));
}

#[test]
fn lines_without_marker_are_copied() {
    let lines = strings(&["fn main() {", "    // tmpl:other", "}"]);
    assert_eq!(inject_lines("Hello", "greeting", &lines).unwrap(), lines);
}

#[test]
fn missing_marker_is_a_silent_no_op() {
    assert_eq!(inject_chunk("Hello", "greeting", "a\nb\n").unwrap(), "a\nb\n");
    assert_eq!(inject_chunk("Hello", "greeting", "").unwrap(), "");
}

#[test]
fn longer_identifier_gets_no_fragment() {
    let lines = strings(&["// tmpl:greetings", "// tmpl:greeting"]);
    assert_eq!(
        inject_lines("Hello", "greeting", &lines).unwrap(),
        strings(&["// tmpl:greetings", "Hello", "// tmpl:greeting"])
    );
}

#[test]
fn every_marker_line_gets_the_fragment() {
    let lines = strings(&["// tmpl:x", "mid", "// tmpl:x :append", "end"]);
    assert_eq!(
        inject_lines("F", "x", &lines).unwrap(),
        strings(&["F", "// tmpl:x", "mid", "// tmpl:x :append", "F", "end"])
    );
}

#[test]
fn content_gets_one_terminator_per_line() {
    let out = inject_chunk("Hello", "greeting", "a\n// tmpl:greeting").unwrap();
    assert_eq!(out, "a\nHello\n// tmpl:greeting\n");
}

#[test]
fn content_without_final_newline_gains_one() {
    assert_eq!(inject_chunk("F", "x", "a\nb").unwrap(), "a\nb\n");
}

#[test]
fn fragment_of_several_lines_is_one_block() {
    let out = inject_chunk("one\ntwo", "x", "top\n// tmpl:x\n").unwrap();
    assert_eq!(out, "top\none\ntwo\n// tmpl:x\n");
    let out = inject_chunk("one\n", "x", "// tmpl:x :append\n").unwrap();
    assert_eq!(out, "// tmpl:x :append\none\n\n");
}

#[test]
fn carriage_returns_before_line_feeds_are_dropped() {
    let out = inject_chunk("F", "x", "a\r\n// tmpl:x\r\n").unwrap();
    assert_eq!(out, "a\nF\n// tmpl:x\n");
}

#[test]
fn injecting_twice_inserts_twice() {
    let once = inject_chunk("// injected", "greet", "// tmpl:greet\n").unwrap();
    assert_eq!(once, "// injected\n// tmpl:greet\n");
    let twice = inject_chunk("// injected", "greet", &once).unwrap();
    assert_eq!(twice, "// injected\n// injected\n// tmpl:greet\n");
    assert_ne!(once, twice);
}

#[test]
fn injecting_twice_into_lines_inserts_twice() {
    let lines = strings(&["// tmpl:x :append", "rest"]);
    let once = inject_lines("F", "x", &lines).unwrap();
    let twice = inject_lines("F", "x", &once).unwrap();
    assert_eq!(once, strings(&["// tmpl:x :append", "F", "rest"]));
    assert_eq!(twice, strings(&["// tmpl:x :append", "F", "F", "rest"]));
}

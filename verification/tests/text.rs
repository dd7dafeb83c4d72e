use tmpl::text::{
    append, copy_range, ends_with, find, find_char, has, matches_at, rfind, rfind_char, same,
    starts_with, to_chars, to_string, whitespace,
};

fn chars(s: &str) -> Vec<char> {
    s.chars().collect()
}

#[test]
fn chars_and_strings_round_trip() {
    for s in ["", "a", "héllo wörld", "tmpl:x", "日本語\n"] {
        assert_eq!(to_chars(s), chars(s));
        assert_eq!(to_string(&chars(s)), s);
    }
}

#[test]
fn whitespace_agrees_with_std_on_every_char() {
    let mut n: u32 = 0;
    while n <= 0x10FFFF {
        if let Some(c) = char::from_u32(n) {
            assert_eq!(whitespace(c), c.is_whitespace(), "U+{:04X}", n);
        }
        n += 1;
    }
}

#[test]
fn whitespace_on_named_characters() {
    assert!(whitespace(' '));
    assert!(whitespace('\t'));
    assert!(whitespace('\r'));
    assert!(whitespace('\u{00A0}'));
    assert!(whitespace('\u{3000}'));
    assert!(!whitespace(':'));
    assert!(!whitespace('a'));
    assert!(!whitespace('\u{200B}'));
}

#[test]
fn copy_range_and_append() {
    let s = chars("abcdef");
    assert_eq!(copy_range(&s, 2, 4), chars("cd"));
    assert_eq!(copy_range(&s, 3, 3), chars(""));
    let mut out = chars("ab");
    append(&mut out, &chars("cd"));
    assert_eq!(out, chars("abcd"));
}

#[test]
fn same_compares_contents() {
    assert!(same(&chars("abc"), &chars("abc")));
    assert!(!same(&chars("abc"), &chars("abd")));
    assert!(!same(&chars("abc"), &chars("ab")));
    assert!(same(&chars(""), &chars("")));
}

#[test]
fn matches_at_checks_one_position() {
    let hay = chars("abcabc");
    assert!(matches_at(&hay, &chars("bc"), 1));
    assert!(matches_at(&hay, &chars("bc"), 4));
    assert!(!matches_at(&hay, &chars("bc"), 0));
    assert!(!matches_at(&hay, &chars("bc"), 5));
    assert!(!matches_at(&hay, &chars("bc"), 99));
    assert!(matches_at(&hay, &chars(""), 6));
    assert!(!matches_at(&hay, &chars(""), 7));
}

#[test]
fn find_agrees_with_str_find() {
    let cases = [
        ("abcabc", "bc"),
        ("abcabc", "abc"),
        ("abcabc", "c"),
        ("abcabc", "x"),
        ("abc", ""),
        ("", ""),
        ("", "a"),
        ("ab", "abc"),
        ("// tmpl:foobar tmpl:foo", "tmpl:foo"),
    ];
    for (hay, needle) in cases {
        let h = chars(hay);
        let n = chars(needle);
        assert_eq!(find(&h, &n), hay.find(needle), "find {:?} {:?}", hay, needle);
        assert_eq!(rfind(&h, &n), hay.rfind(needle), "rfind {:?} {:?}", hay, needle);
        assert_eq!(has(&h, &n), hay.contains(needle));
        assert_eq!(starts_with(&h, &n), hay.starts_with(needle));
        assert_eq!(ends_with(&h, &n), hay.ends_with(needle));
    }
}

#[test]
fn find_counts_characters_not_bytes() {
    assert_eq!(find(&chars("héllo"), &chars("llo")), Some(2));
    assert_eq!(rfind(&chars("ééé"), &chars("é")), Some(2));
}

#[test]
fn find_char_first_and_last() {
    let s = chars("a.b.c");
    assert_eq!(find_char(&s, '.'), Some(1));
    assert_eq!(rfind_char(&s, '.'), Some(3));
    assert_eq!(find_char(&s, '/'), None);
    assert_eq!(rfind_char(&s, '/'), None);
}

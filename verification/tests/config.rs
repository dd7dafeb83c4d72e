use tmpl::config::{strip_dashes, Context};

fn strings(v: &[&str]) -> Vec<String> {
    v.iter().map(|s| s.to_string()).collect()
}

#[test]
fn empty_context_has_no_values() {
    let ctx = Context::new();
    assert_eq!(ctx.get("name"), None);
}

#[test]
fn insert_sets_and_replaces() {
    let mut ctx = Context::new();
    ctx.insert("name", "world");
    ctx.insert("other", "x");
    assert_eq!(ctx.get("name"), Some("world".to_string()));
    ctx.insert("name", "there");
    assert_eq!(ctx.get("name"), Some("there".to_string()));
    assert_eq!(ctx.get("other"), Some("x".to_string()));
    assert_eq!(ctx.get("missing"), None);
}

#[test]
fn merge_prefers_the_overrides() {
    let mut base = Context::new();
    base.insert("name", "config");
    base.insert("only_base", "b");
    let mut over = Context::new();
    over.insert("name", "cli");
    over.insert("only_cli", "c");
    let merged = Context::merge(&base, &over);
    assert_eq!(merged.get("name"), Some("cli".to_string()));
    assert_eq!(merged.get("only_base"), Some("b".to_string()));
    assert_eq!(merged.get("only_cli"), Some("c".to_string()));
    assert_eq!(merged.get("nobody"), None);
}

#[test]
fn merge_with_empty_sides() {
    let mut base = Context::new();
    base.insert("a", "1");
    let empty = Context::new();
    assert_eq!(Context::merge(&base, &empty).get("a"), Some("1".to_string()));
    assert_eq!(Context::merge(&empty, &base).get("a"), Some("1".to_string()));
    assert_eq!(Context::merge(&empty, &empty).get("a"), None);
}

#[test]
fn pairs_from_a_command_line() {
    let ctx = Context::from_pairs(&strings(&["--name", "world", "--lang", "rust"]));
    assert_eq!(ctx.get("name"), Some("world".to_string()));
    assert_eq!(ctx.get("lang"), Some("rust".to_string()));
    assert_eq!(ctx.get("--name"), None);
}

#[test]
fn later_pair_wins_for_one_key() {
    let ctx = Context::from_pairs(&strings(&["--k", "1", "k", "2"]));
    assert_eq!(ctx.get("k"), Some("2".to_string()));
}

#[test]
fn no_pairs_no_values() {
    let ctx = Context::from_pairs(&strings(&[]));
    assert_eq!(ctx.get("k"), None);
}

#[test]
fn values_keep_their_dashes() {
    let ctx = Context::from_pairs(&strings(&["--flag", "--value"]));
    assert_eq!(ctx.get("flag"), Some("--value".to_string()));
}

#[test]
fn dashes_are_stripped_in_pairs() {
    for s in ["", "name", "-name", "--name", "---name", "----name", "--", "---", "na--me"] {
        assert_eq!(strip_dashes(s), s.trim_start_matches("--"), "{:?}", s);
    }
    assert_eq!(strip_dashes("--name"), "name");
    assert_eq!(strip_dashes("---name"), "-name");
    assert_eq!(strip_dashes("----name"), "name");
}

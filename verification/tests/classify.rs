use tmpl::classify::{chunk_fragment, classify, full_template, FileKind};

#[test]
fn template_suffix_makes_a_full_template() {
    assert_eq!(classify("root/a.tmpl"), vec![FileKind::FullTemplate]);
    assert_eq!(classify("a.tmpl"), vec![FileKind::FullTemplate]);
    assert_eq!(classify("root/sub/main.rs.tmpl"), vec![FileKind::FullTemplate]);
}

#[test]
fn fragment_names_make_a_chunk_fragment() {
    assert_eq!(classify("root/a.tmpl_greet"), vec![FileKind::ChunkFragment]);
    assert_eq!(classify("root/base.txt.tmpl.id"), vec![FileKind::ChunkFragment]);
    assert_eq!(classify("base.tmpl_id"), vec![FileKind::ChunkFragment]);
}

#[test]
fn other_files_are_ignored() {
    assert_eq!(classify("root/readme.md"), vec![FileKind::Ignored]);
    assert_eq!(classify("root/tmpl.yaml"), vec![FileKind::Ignored]);
    assert_eq!(classify("root/.tmpl"), vec![FileKind::Ignored]);
    assert_eq!(classify("root/tmpl"), vec![FileKind::Ignored]);
    assert_eq!(classify("root/a.tmplx"), vec![FileKind::Ignored]);
    assert_eq!(classify(""), vec![FileKind::Ignored]);
}

#[test]
fn file_matching_both_rules_goes_both_ways() {
    assert_eq!(
        classify("root/a.tmpl_x.tmpl"),
        vec![FileKind::FullTemplate, FileKind::ChunkFragment]
    );
    assert_eq!(
        classify("root/a.tmpl.b.tmpl"),
        vec![FileKind::FullTemplate, FileKind::ChunkFragment]
    );
}

#[test]
fn only_the_file_name_counts() {
    assert_eq!(classify("root/x.tmpl/readme.md"), vec![FileKind::Ignored]);
    assert_eq!(classify("root/a.tmpl_dir/readme.md"), vec![FileKind::Ignored]);
    assert_eq!(classify("root/x.tmpl.d/a.tmpl"), vec![FileKind::FullTemplate]);
}

#[test]
fn the_two_tests_apart() {
    assert!(full_template("a.tmpl"));
    assert!(!full_template("a.tmpl_x"));
    assert!(!full_template(".tmpl"));
    assert!(full_template("..tmpl"));
    assert!(chunk_fragment("a.tmpl_x"));
    assert!(chunk_fragment("a.tmpl.x"));
    assert!(chunk_fragment("xtmpl_"));
    assert!(!chunk_fragment("a.tmpl"));
    assert!(chunk_fragment("a.tmpl."));
}

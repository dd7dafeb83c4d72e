use tmpl::classify::{classify, FileKind};
use tmpl::config::{Config, Context, PathRewrite};
use tmpl::engine::{prepare_chunk, process_chunk, process_file, ChunkPlan, FileOutput};
use tmpl::error::Error;

fn context(pairs: &[(&str, &str)]) -> Context {
    let mut ctx = Context::new();
    for (k, v) in pairs {
        ctx.insert(k, v);
    }
    ctx
}

fn config(rules: &[(&str, &str)]) -> Config {
    Config {
        path_rewrites: rules
            .iter()
            .map(|(a, b)| PathRewrite { from: a.to_string(), to: b.to_string() })
            .collect(),
        args: Context::new(),
    }
}

#[test]
fn full_template_is_rendered_to_its_output() {
    let ctx = context(&[("name", "world")]);
    assert_eq!(classify("root/a.tmpl"), vec![FileKind::FullTemplate]);
    let out = process_file("root/a.tmpl", "Hi {{name}}", &ctx, &config(&[]), "root", "out");
    assert_eq!(out, Ok(FileOutput { path: "out/a".to_string(), content: "Hi world".to_string() }));
}

#[test]
fn fragment_is_injected_before_its_marker() {
    let ctx = context(&[("name", "world")]);
    let cfg = config(&[]);
    let written =
        process_file("root/a.tmpl", "Hi {{name}}\n// tmpl:greet\n", &ctx, &cfg, "root", "out")
            .unwrap();
    assert_eq!(written.path, "out/a");
    assert_eq!(classify("root/a.tmpl_greet"), vec![FileKind::ChunkFragment]);
    let plan = prepare_chunk("root/a.tmpl_greet", "// injected", &ctx, &cfg, "root", "out").unwrap();
    assert_eq!(
        plan,
        ChunkPlan {
            target_path: "out/a".to_string(),
            chunk_id: "greet".to_string(),
            fragment: "// injected".to_string(),
        }
    );
    let out = process_chunk(&plan, Some(&written.content)).unwrap();
    assert_eq!(out.path, "out/a");
    assert_eq!(out.content, "Hi world\n// injected\n// tmpl:greet\n");
}

#[test]
fn fragment_is_rendered_over_the_context() {
    let ctx = context(&[("who", "me")]);
    let plan = prepare_chunk("r/x.tmpl.c", "by {{who}}", &ctx, &config(&[]), "r", "o").unwrap();
    assert_eq!(plan.fragment, "by me");
    assert_eq!(plan.chunk_id, "c");
    assert_eq!(plan.target_path, "o/x");
}

#[test]
fn missing_target_fails_the_run() {
    let plan = ChunkPlan {
        target_path: "out/a".to_string(),
        chunk_id: "greet".to_string(),
        fragment: "x".to_string(),
    };
    assert_eq!(process_chunk(&plan, None), Err(Error::TargetNotFound));
}

#[test]
fn insert_mode_in_the_target_fails_the_run() {
    let plan = ChunkPlan {
        target_path: "out/a".to_string(),
        chunk_id: "greet".to_string(),
        fragment: "x".to_string(),
    };
    assert_eq!(
        process_chunk(&plan, Some("// tmpl:greet :insert\n")),
        Err(Error::UnsupportedInsertionMode)
    );
}

#[test]
fn target_without_marker_is_rewritten_unchanged() {
    let plan = ChunkPlan {
        target_path: "out/a".to_string(),
        chunk_id: "greet".to_string(),
        fragment: "x".to_string(),
    };
    assert_eq!(
        process_chunk(&plan, Some("one\ntwo\n")),
        Ok(FileOutput { path: "out/a".to_string(), content: "one\ntwo\n".to_string() })
    );
}

#[test]
fn malformed_template_fails_before_anything_else() {
    let ctx = Context::new();
    let cfg = config(&[]);
    let r = process_file("root/a.tmpl", "{{#if}}", &ctx, &cfg, "root", "out");
    assert!(matches!(r, Err(Error::Render(_))));
    let r = prepare_chunk("root/not_a_fragment", "{{#if}}", &ctx, &cfg, "root", "out");
    assert!(matches!(r, Err(Error::Render(_))));
}

#[test]
fn fragment_with_an_invalid_name() {
    let r = prepare_chunk("root/a.txt", "x", &Context::new(), &config(&[]), "root", "out");
    assert_eq!(r, Err(Error::InvalidChunkName));
}

#[test]
fn rewrites_apply_to_templates_and_fragments_alike() {
    let ctx = context(&[("pkg", "demo")]);
    let cfg = config(&[("__pkg__", "{{pkg}}")]);
    let file = process_file("t/__pkg__/lib.rs.tmpl", "", &ctx, &cfg, "t", "gen").unwrap();
    let plan = prepare_chunk("t/__pkg__/lib.rs.tmpl_mods", "mod a;", &ctx, &cfg, "t", "gen").unwrap();
    assert_eq!(file.path, "gen/demo/lib.rs");
    assert_eq!(plan.target_path, file.path);
}

#[test]
fn file_of_both_kinds_is_processed_both_ways() {
    let ctx = context(&[]);
    let cfg = config(&[]);
    let path = "root/a.tmpl_x.tmpl";
    assert_eq!(classify(path), vec![FileKind::FullTemplate, FileKind::ChunkFragment]);
    let file = process_file(path, "body", &ctx, &cfg, "root", "out").unwrap();
    assert_eq!(file.path, "out/a.tmpl_x");
    let plan = prepare_chunk(path, "body", &ctx, &cfg, "root", "out").unwrap();
    assert_eq!(plan.chunk_id, "x.tmpl");
    assert_eq!(plan.target_path, "out/a");
}

#[test]
fn overrides_win_in_the_run_context() {
    let mut cfg = config(&[]);
    cfg.args.insert("name", "config");
    let overrides = Context::from_pairs(&vec!["--name".to_string(), "cli".to_string()]);
    let ctx = Context::merge(&cfg.args, &overrides);
    let out = process_file("root/a.tmpl", "Hi {{name}}", &ctx, &cfg, "root", "out").unwrap();
    assert_eq!(out.content, "Hi cli");
}

#[test]
fn template_without_expressions_is_written_as_it_is() {
    let cfg = config(&[("src", "lib")]);
    for text in ["", "no newline at the end", "one\ntwo\n", "a { b }\r\n"] {
        for ctx in [context(&[]), context(&[("name", "world")])] {
            let out = process_file("root/src/a.txt.tmpl", text, &ctx, &cfg, "root", "out").unwrap();
            assert_eq!(out.content, text);
            assert_eq!(out.path, "out/lib/a.txt");
        }
    }
}

#[test]
fn template_that_includes_itself_fails_the_run() {
    let template = "{{#*inline \"a\"}}{{> a}}{{/inline}}{{> a}}";
    let r = process_file("root/a.tmpl", template, &Context::new(), &config(&[]), "root", "out");
    assert!(matches!(r, Err(Error::Render(_))));
    let r = prepare_chunk("root/a.tmpl_x", template, &Context::new(), &config(&[]), "root", "out");
    assert!(matches!(r, Err(Error::Render(_))));
}

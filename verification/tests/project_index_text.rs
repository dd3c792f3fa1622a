use memoryroam::application::parse_node_id;
use memoryroam::domain::KernelError;
use memoryroam::project_index::{
    join_relative_path, normalize_ignore_pattern, render_index_block, upsert_index_block, usage,
    IndexState, BEGIN_MARKER, END_MARKER,
};

#[test]
fn relative_paths_join_under_the_root() {
    assert_eq!(join_relative_path(".", "crates"), "crates");
    assert_eq!(join_relative_path("crates", "cli"), "crates/cli");
}

#[test]
fn ignore_patterns_follow_gitignore_scoping() {
    assert_eq!(normalize_ignore_pattern("", "target"), Some(String::from("**/target")));
    assert_eq!(normalize_ignore_pattern("", "/target"), Some(String::from("target")));
    assert_eq!(normalize_ignore_pattern("", "docs/build/"), Some(String::from("docs/build/")));
    assert_eq!(normalize_ignore_pattern("", "dist/"), Some(String::from("**/dist/")));
    assert_eq!(normalize_ignore_pattern("crates", "out"), Some(String::from("crates/**/out")));
    assert_eq!(normalize_ignore_pattern("crates", "/out"), Some(String::from("crates/out")));
    assert_eq!(normalize_ignore_pattern("", "\\#literal"), Some(String::from("**/literal")));
    assert_eq!(normalize_ignore_pattern("", "\\!bang"), Some(String::from("**/bang")));
    assert_eq!(normalize_ignore_pattern("", "  # comment"), None);
    assert_eq!(normalize_ignore_pattern("", "!keep.txt"), None);
    assert_eq!(normalize_ignore_pattern("", "   "), None);
    assert_eq!(normalize_ignore_pattern("", "/"), None);
}

#[test]
fn index_block_lists_exclusions_and_entries() {
    let state = IndexState {
        entries: vec![
            (String::from("."), vec![String::from("README.md"), String::from("src/")]),
            (String::from("src"), vec![String::from("lib.rs")]),
        ],
        exclude_dirs: vec![String::from("**/target/")],
        exclude_files: vec![],
    };
    let block = render_index_block(&state);
    let expected = format!(
        "{BEGIN_MARKER}\n```text\n[Project Index]|root:.\n|IMPORTANT: Prefer retrieval-led reasoning over pre-training-led reasoning for repository-specific behavior, structure, and APIs.\n|exclude_dirs:{{**/target/}}\n|exclude_files:{{}}\n|.:{{README.md,src/}}\n|src:{{lib.rs}}\n```\n{END_MARKER}\n"
    );
    assert_eq!(block, expected);
}

#[test]
fn upsert_appends_replaces_and_refuses() {
    let block = format!("{BEGIN_MARKER}\nnew\n{END_MARKER}\n");
    assert_eq!(upsert_index_block("", &block).expect("empty file"), block);
    assert_eq!(
        upsert_index_block("# Notes\n", &block).expect("append"),
        format!("# Notes\n\n\n{block}")
    );
    assert_eq!(
        upsert_index_block("# Notes\n\n", &block).expect("append"),
        format!("# Notes\n\n{block}")
    );
    let current = format!("intro\n{BEGIN_MARKER}\nold\n{END_MARKER}\n\n\ntail\n");
    assert_eq!(
        upsert_index_block(&current, &block).expect("replace"),
        format!("intro\n{block}tail\n")
    );
    let reversed = format!("{END_MARKER}\n{BEGIN_MARKER}\n");
    assert_eq!(
        upsert_index_block(&reversed, &block).expect_err("order"),
        "AGENTS.md index markers are out of order"
    );
    let doubled = format!("{BEGIN_MARKER}\n{BEGIN_MARKER}\n{END_MARKER}\n");
    assert_eq!(
        upsert_index_block(&doubled, &block).expect_err("twice"),
        "AGENTS.md index markers must appear at most once each"
    );
    let lonely = format!("{BEGIN_MARKER}\n");
    assert!(upsert_index_block(&lonely, &block).is_err());
}

#[test]
fn usage_names_the_actions() {
    assert_eq!(usage(), "usage: cargo xtask agents-md-index [update|check|print]");
}

#[test]
fn command_line_ids_must_be_positive() {
    assert_eq!(parse_node_id(5).expect("positive").value(), 5);
    assert!(matches!(parse_node_id(0), Err(KernelError::Input(_))));
    assert!(matches!(parse_node_id(-1), Err(KernelError::Input(_))));
}

#[test]
fn placing_the_rendered_block_twice_changes_nothing() {
    let state = IndexState {
        entries: vec![(String::from("."), vec![String::from("README.md")])],
        exclude_dirs: vec![String::from("**/target/")],
        exclude_files: vec![],
    };
    let block = render_index_block(&state);
    for current in [
        String::from(""),
        String::from("# Notes\n"),
        format!("intro\n{BEGIN_MARKER}\nold\n{END_MARKER}\n\n\ntail\n"),
    ] {
        let once = upsert_index_block(&current, &block).expect("first placement");
        let twice = upsert_index_block(&once, &block).expect("second placement");
        assert_eq!(twice, once);
    }
}

use memoryroam::project_index::render_index_block;
use memoryroam::scan::{
    build_directory_entries, collect_index_state, collect_repo_ignore_patterns, contains_text,
    ignored_paths_from_run, insert_text, nul_separated_texts, parse_ignored_paths, text_less, walk_step, walks_into,
    PathProbe, WalkStep,
};
use std::path::PathBuf;

fn strings(items: &[&str]) -> Vec<String> {
    items.iter().map(|s| String::from(*s)).collect()
}

fn value_of(block: &str, key: &str) -> String {
    for line in block.lines() {
        if let Some(content) = line.strip_prefix('|') {
            if let Some((k, v)) = content.split_once(":{") {
                if k == key {
                    return v.strip_suffix('}').expect("closing brace").to_owned();
                }
            }
        }
    }
    panic!("missing block entry for {key}");
}

#[test]
fn texts_sort_in_string_order() {
    assert!(text_less("a", "b"));
    assert!(text_less("a", "ab"));
    assert!(!text_less("ab", "a"));
    assert!(!text_less("same", "same"));
    assert!(text_less(".gitignore", "visible.txt"));
    assert!(text_less("Zeta", "alpha"));
    assert!(text_less("dist/", "dist0"));
    let mut words = vec!["é", "z", "a", "ab", "B"];
    words.sort();
    for pair in words.windows(2) {
        assert!(text_less(pair[0], pair[1]));
    }
}

#[test]
fn inserted_texts_stay_sorted_without_repeats() {
    let mut set: Vec<String> = Vec::new();
    for item in ["pear", "apple", "fig", "apple", "banana", "pear"] {
        insert_text(&mut set, String::from(item));
    }
    assert_eq!(set, strings(&["apple", "banana", "fig", "pear"]));
    assert!(contains_text(&set, "fig"));
    assert!(!contains_text(&set, "grape"));
}

#[test]
fn directory_entries_list_every_directory_on_the_way() {
    let entries = build_directory_entries(&strings(&[
        "visible.txt",
        "crates/cli/src/main.rs",
        ".gitignore",
        "crates/cli/Cargo.toml",
        "crates/domain/src/lib.rs",
    ]));
    let expected: Vec<(String, Vec<String>)> = vec![
        (String::from("."), strings(&[".gitignore", "crates/", "visible.txt"])),
        (String::from("crates"), strings(&["cli/", "domain/"])),
        (String::from("crates/cli"), strings(&["Cargo.toml", "src/"])),
        (String::from("crates/cli/src"), strings(&["main.rs"])),
        (String::from("crates/domain"), strings(&["src/"])),
        (String::from("crates/domain/src"), strings(&["lib.rs"])),
    ];
    assert_eq!(entries, expected);
}

#[test]
fn directory_entries_of_nothing_list_the_root_alone() {
    let entries = build_directory_entries(&[]);
    assert_eq!(entries, vec![(String::from("."), Vec::<String>::new())]);
}

#[test]
fn repo_patterns_keep_the_scope_of_each_gitignore() {
    let patterns = collect_repo_ignore_patterns(&[
        (String::from(".gitignore"), String::from("target/\nfoo\n# comment\n\n!keep.txt\n")),
        (String::from("nested/.gitignore"), String::from("foo\r\n/build/\nlogs/*.log\n")),
        (String::from("other/.gitignore"), String::from("target/\n")),
    ]);
    assert_eq!(
        patterns.exclude_dirs,
        strings(&["**/target/", "nested/build/", "other/**/target/"])
    );
    assert_eq!(patterns.exclude_files, strings(&["**/foo", "nested/**/foo", "nested/logs/*.log"]));
}

#[test]
fn index_state_renders_the_ignored_layout() {
    let state = collect_index_state(
        &strings(&[".gitignore", "visible.txt"]),
        &[(String::from(".gitignore"), String::from("ignored-dir/\nignored-file.txt\n"))],
    );
    let block = render_index_block(&state);
    assert_eq!(value_of(&block, "exclude_dirs"), "**/ignored-dir/");
    assert_eq!(value_of(&block, "exclude_files"), "**/ignored-file.txt");
    assert_eq!(value_of(&block, "."), ".gitignore,visible.txt");
    assert!(!block.contains("|ignored-dir:{nested.txt}"));
}

#[test]
fn index_state_keeps_visible_files_inside_ignored_directories() {
    let state = collect_index_state(
        &strings(&[".gitignore", "dist/keep.txt"]),
        &[(String::from(".gitignore"), String::from("dist/*\n!dist/keep.txt\n"))],
    );
    let block = render_index_block(&state);
    assert_eq!(value_of(&block, "exclude_files"), "dist/*");
    assert_eq!(value_of(&block, "exclude_dirs"), "");
    assert_eq!(value_of(&block, "."), ".gitignore,dist/");
    assert_eq!(value_of(&block, "dist"), "keep.txt");
}

#[test]
fn index_state_of_a_nested_gitignore_scopes_plain_names() {
    let state = collect_index_state(
        &strings(&["nested/.gitignore"]),
        &[(String::from("nested/.gitignore"), String::from("foo\n"))],
    );
    let block = render_index_block(&state);
    assert_eq!(value_of(&block, "exclude_dirs"), "");
    assert_eq!(value_of(&block, "exclude_files"), "nested/**/foo");
    assert_eq!(value_of(&block, "."), "nested/");
    assert_eq!(value_of(&block, "nested"), ".gitignore");
}

#[test]
fn nul_separated_output_drops_empty_fields() {
    let texts = nul_separated_texts(b"a.txt\0\0dir/b.txt\0").expect("valid output");
    assert_eq!(texts, strings(&["a.txt", "dir/b.txt"]));
    assert_eq!(nul_separated_texts(b"").expect("empty output"), Vec::<String>::new());
    assert_eq!(nul_separated_texts(b"last").expect("no final NUL"), strings(&["last"]));
}

#[test]
fn nul_separated_output_must_be_utf8() {
    let error = nul_separated_texts(b"ok\0bad\xff\0").expect_err("invalid UTF-8");
    assert!(error.starts_with("git output was not valid UTF-8: "));
    assert!(error.len() > "git output was not valid UTF-8: ".len());
}

#[test]
fn check_ignore_output_lists_ignored_paths() {
    let output = b".gitignore\x001\x00ignored-dir/\x00ignored-dir/\x00\
.gitignore\x002\x00ignored-file.txt\x00ignored-file.txt\x00\
.gitignore\x003\x00!keep.txt\x00keep.txt\x00\
.gitignore\x001\x00ignored-dir/\x00ignored-dir/\x00";
    let ignored = parse_ignored_paths(output).expect("well-formed output");
    assert_eq!(ignored, strings(&["ignored-dir/", "ignored-file.txt"]));
    assert_eq!(parse_ignored_paths(b"").expect("nothing ignored"), Vec::<String>::new());
}

#[test]
fn check_ignore_output_needs_groups_of_four() {
    let error = parse_ignored_paths(b"a\0b\0c\0").expect_err("three fields");
    assert_eq!(error, "git check-ignore output had an unexpected number of fields");
    let error = parse_ignored_paths(b"a\0\xc3\0c\0d\0").expect_err("not UTF-8");
    assert!(error.starts_with("git output was not valid UTF-8: "));
}

#[test]
fn check_ignore_exit_status_decides_between_output_and_failure() {
    let output = b".gitignore\x001\x00target/\x00target/\x00";
    let failure = String::from("git command failed");
    assert_eq!(
        ignored_paths_from_run(Some(0), output, failure.clone()).expect("ignored paths"),
        strings(&["target/"])
    );
    assert_eq!(
        ignored_paths_from_run(Some(1), b"", failure.clone()).expect("nothing ignored"),
        Vec::<String>::new()
    );
    assert_eq!(
        ignored_paths_from_run(Some(128), output, failure.clone()).expect_err("git failed"),
        failure
    );
    assert_eq!(ignored_paths_from_run(None, output, failure.clone()).expect_err("killed"), failure);
}

#[test]
fn probes_name_directories_with_a_slash() {
    let dir = PathProbe::directory(String::from("crates/cli"), PathBuf::from("/w/crates/cli"));
    assert_eq!(dir.git_path(), "crates/cli/");
    assert_eq!(dir.relative_path, "crates/cli");
    assert!(dir.is_dir);
    assert_eq!(dir.absolute_path, Some(PathBuf::from("/w/crates/cli")));
    let file = PathProbe::file(String::from("crates/cli/Cargo.toml"));
    assert_eq!(file.git_path(), "crates/cli/Cargo.toml");
    assert!(!file.is_dir);
    assert_eq!(file.absolute_path, None);
}

#[test]
fn walk_steps_follow_what_git_answered() {
    let dir = PathProbe::directory(String::from("dist"), PathBuf::from("/w/dist"));
    assert_eq!(walk_step(&dir, false, false), WalkStep::Descend);
    assert_eq!(walk_step(&dir, true, true), WalkStep::Descend);
    assert_eq!(walk_step(&dir, true, false), WalkStep::Skip);
    let ignore_file = PathProbe::file(String::from("nested/.gitignore"));
    assert_eq!(walk_step(&ignore_file, false, false), WalkStep::KeepIgnoreFile);
    assert_eq!(walk_step(&ignore_file, true, true), WalkStep::Skip);
    let plain = PathProbe::file(String::from("nested/notes.gitignore"));
    assert_eq!(walk_step(&plain, false, false), WalkStep::Keep);
    assert!(!walks_into(".", ".git"));
    assert!(walks_into("nested", ".git"));
    assert!(walks_into(".", "src"));
}

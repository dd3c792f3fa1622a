use memoryroam::application::{
    piped_content, BacklinkLine, ChildContextLine, DayView, NoteResult, ReadContextView,
    RootApplyResult, RootCreateResult,
};
use memoryroam::domain::{KernelError, NodeId, NodeLine};
use memoryroam::output::{
    format_day_view, format_note_result, format_read_context, format_root_apply_result,
    format_root_create_result,
};

fn line(id: i64, text: &str) -> NodeLine {
    NodeLine {
        id: NodeId::new(id).expect("valid test id"),
        rendered_content: String::from(text),
    }
}

#[test]
fn note_results_print_the_date_and_the_new_entry() {
    let result = NoteResult {
        note_date: String::from("2026-04-11"),
        node: line(12, "- first item"),
    };
    assert_eq!(format_note_result(&result), "2026-04-11\n+[12] - first item\n");
}

#[test]
fn day_views_list_entries() {
    let view = DayView {
        note_date: String::from("2026-04-11"),
        entries: vec![line(2, "Check issue 7 scope"), line(3, "Design the interaction flow")],
    };
    assert_eq!(
        format_day_view(&view, true, "notes.sqlite3"),
        "2026-04-11\n\n-[2] Check issue 7 scope\n-[3] Design the interaction flow\n"
    );
}

#[test]
fn empty_days_hint_at_notes_only_for_today() {
    let view = DayView {
        note_date: String::from("2026-04-11"),
        entries: Vec::new(),
    };
    let today = format_day_view(&view, true, "/tmp/notes with spaces.sqlite3");
    assert_eq!(
        today,
        "2026-04-11\n\nempty\ndatabase path: /tmp/notes with spaces.sqlite3\nuse: memoryroam --db <database-path> note \"...\"\n"
    );
    let earlier = format_day_view(&view, false, "notes.sqlite3");
    assert_eq!(earlier, "2026-04-11\n\nempty\n");
    assert!(!earlier.contains("use: memoryroam note"));
}

#[test]
fn root_results_print_the_root_and_its_matches() {
    let result = RootCreateResult {
        root: line(4, "Software engineering"),
        matches: vec![line(2, "Software engineering is a branch of engineering")],
        hidden_match_count: 3,
    };
    assert_eq!(
        format_root_create_result(&result),
        "root [4] Software engineering\n\nmatches:\n-[2] Software engineering is a branch of engineering\n...3 more matches...\n"
    );
    let none_hidden = RootCreateResult {
        root: line(4, "- topic"),
        matches: Vec::new(),
        hidden_match_count: 0,
    };
    assert_eq!(format_root_create_result(&none_hidden), "root [4] - topic\n\nmatches:\n");
    let applied = RootApplyResult {
        updated_nodes: vec![line(2, "{{4::Software engineering}} started in xx year")],
    };
    assert_eq!(
        format_root_apply_result(&applied),
        "updated:\n-[2] {{4::Software engineering}} started in xx year\n"
    );
}

#[test]
fn read_contexts_use_structural_markers() {
    let view = ReadContextView {
        prev_hidden_count: 1,
        prev_siblings: vec![line(1, "Previous sibling")],
        current: line(2, "Current node"),
        backlinks: vec![BacklinkLine { source: line(7, "See {{2::>Current node}}") }],
        hidden_backlink_count: 2,
        children: vec![ChildContextLine {
            node: line(5, "Child"),
            backlinks: vec![BacklinkLine { source: line(8, "Mentions child") }],
            hidden_backlink_count: 1,
        }],
        hidden_child_count: 4,
        next_siblings: vec![line(3, "Next sibling")],
        next_hidden_count: 6,
    };
    assert_eq!(
        format_read_context(&view),
        "...prev 1 sibling hiding...\n-[1] Previous sibling\n=[2] Current node\n>[bl:7] See {{2::>Current node}}\n...2 backlinks hiding...\n--[5] Child\n>>[bl:8] Mentions child\n...1 child backlinks hiding...\n...4 children hiding...\n-[3] Next sibling\n...next 6 sibling hiding...\n"
    );
    let plain = ReadContextView {
        prev_hidden_count: 0,
        prev_siblings: Vec::new(),
        current: line(2, "Current node"),
        backlinks: Vec::new(),
        hidden_backlink_count: 0,
        children: Vec::new(),
        hidden_child_count: 0,
        next_siblings: Vec::new(),
        next_hidden_count: 0,
    };
    assert_eq!(format_read_context(&plain), "=[2] Current node\n");
}

#[test]
fn piped_content_drops_one_line_break() {
    assert_eq!(piped_content("note\n").expect("content"), "note");
    assert_eq!(piped_content("note\r\n").expect("content"), "note");
    assert_eq!(piped_content("note\n\n").expect("content"), "note\n");
    assert_eq!(piped_content("note\r").expect("content"), "note\r");
    assert_eq!(piped_content("\n").expect("content"), "");
    assert_eq!(
        piped_content(""),
        Err(KernelError::Input(String::from(
            "content must be provided as an argument or via stdin"
        )))
    );
}

use memoryroam::domain::{
    AliasText, AliasTextError, ContentLine, ContentLineError, KernelError, KnowledgeBaseSummary,
    LookupKey, LookupKeyError, NodeContent, NodeContentError, NodeId, NodeIdError, Placement,
};

#[test]
fn node_content_accepts_single_line_text() {
    let content =
        NodeContent::parse("Single line note").expect("single line content should parse");

    assert_eq!(content.as_str(), "Single line note");
}

#[test]
fn node_content_rejects_blank_text() {
    let error = NodeContent::parse("   ").expect_err("blank content should fail");

    assert_eq!(error, NodeContentError::Empty);
}

#[test]
fn node_content_rejects_multiline_text() {
    let error = NodeContent::parse("first line\nsecond line")
        .expect_err("multiline content should fail");

    assert_eq!(error, NodeContentError::Multiline);
}

#[test]
fn node_content_error_messages() {
    assert_eq!(NodeContentError::Empty.message(), "node content cannot be empty");
    assert_eq!(
        NodeContentError::Multiline.message(),
        "node content must stay on one line"
    );
}

#[test]
fn node_ids_are_positive() {
    assert_eq!(NodeId::new(7).expect("positive id").value(), 7);
    assert_eq!(NodeId::new(0), Err(NodeIdError::NotPositive));
    assert_eq!(NodeId::new(-3), Err(NodeIdError::NotPositive));
    let a = NodeId::new(4).expect("positive id");
    let b = NodeId::new(4).expect("positive id");
    assert!(a.same(&b));
    assert!(!a.same(&NodeId::new(5).expect("positive id")));
}

#[test]
fn content_line_rejects_blank_and_multiline_text() {
    assert_eq!(
        ContentLine::parse(" \t ").expect_err("blank"),
        ContentLineError::Empty
    );
    assert_eq!(
        ContentLine::parse("a\nb").expect_err("two lines"),
        ContentLineError::Multiline
    );
    assert_eq!(
        ContentLine::parse("a\rb").expect_err("carriage return"),
        ContentLineError::Multiline
    );
    assert_eq!(ContentLine::parse("  padded ").expect("valid").as_str(), "  padded ");
}

#[test]
fn lookup_keys_are_trimmed_and_checked() {
    assert_eq!(LookupKey::new("  Topic  ").expect("valid key").as_str(), "Topic");
    assert_eq!(LookupKey::new("   ").expect_err("blank"), LookupKeyError::Empty);
    assert_eq!(LookupKey::new(" 2026 ").expect_err("numeric"), LookupKeyError::Numeric);
    assert_eq!(
        LookupKey::new("std::fmt").expect_err("reserved"),
        LookupKeyError::ReservedSyntax
    );
    assert_eq!(
        LookupKey::new("a {b").expect_err("reserved"),
        LookupKeyError::ReservedSyntax
    );
}

#[test]
fn lookup_key_normalization_is_idempotent() {
    let once = LookupKey::new("  Rust   notes ").expect("valid key");
    let twice = LookupKey::new(once.as_str()).expect("valid key");
    assert_eq!(once.as_str(), "Rust   notes");
    assert_eq!(twice.as_str(), once.as_str());
    assert!(once.same(&twice));
}

#[test]
fn lookup_key_from_content_trims_content() {
    let content = ContentLine::parse("  Topic ").expect("valid content");
    assert_eq!(LookupKey::from_content(&content).as_str(), "Topic");
}

#[test]
fn aliases_reject_blank_and_multiline_text() {
    assert_eq!(AliasText::new("topic").expect("alias").as_str(), "topic");
    assert_eq!(AliasText::new("  ").expect_err("blank"), AliasTextError::Empty);
    assert_eq!(
        AliasText::new("a\nb").expect_err("two lines"),
        AliasTextError::Multiline
    );
    let alias = AliasText::new("  Rust ").expect("alias");
    assert_eq!(LookupKey::from_alias(&alias).expect("key").as_str(), "Rust");
    let numeric = AliasText::new("42").expect("alias");
    assert_eq!(
        LookupKey::from_alias(&numeric).expect_err("numeric"),
        LookupKeyError::Numeric
    );
}

#[test]
fn kernel_error_messages() {
    let id = NodeId::new(12).expect("positive id");
    assert_eq!(
        KernelError::NotFound { entity: "node", id }.message(),
        "node 12 not found"
    );
    assert_eq!(
        KernelError::LookupMiss(String::from("Topic")).message(),
        "lookup `Topic` did not match any node"
    );
    assert_eq!(
        KernelError::LookupAmbiguous(String::from("Topic")).message(),
        "lookup `Topic` matched more than one node"
    );
    assert_eq!(KernelError::Input(String::from("bad")).message(), "bad");
}

#[test]
fn summary_keeps_its_counts() {
    let summary = KnowledgeBaseSummary::new(3, 10);
    assert_eq!(summary.top_level_nodes, 3);
    assert_eq!(summary.total_nodes, 10);
}

#[test]
fn placements_name_their_target() {
    let id = NodeId::new(9).expect("positive id");
    assert_eq!(Placement::After(id).target_id(), Some(id));
    assert_eq!(Placement::TopLevelFirst.target_id(), None);
    assert!(Placement::TopLevelLast.is_top_level());
    assert!(!Placement::LastChildOf(id).is_top_level());
}

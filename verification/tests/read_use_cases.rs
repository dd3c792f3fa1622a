use std::collections::BTreeMap;

use memoryroam::canonical::render_storage_content;
use memoryroam::domain::{
    AliasText, ContentLine, DailyNoteRecord, IncomingLinkRecord, KernelError, KernelResult,
    LookupCandidate, LookupKey, NodeId, StoredNode,
};
use memoryroam::read::{
    list_aliases, list_children, list_top_level, node_path_of, read_node, render_incoming_links,
    render_node_line,
    render_node_lines,
};
use memoryroam::repository::ReadRepository;

struct FakeRepository {
    nodes: BTreeMap<NodeId, StoredNode>,
    aliases: BTreeMap<NodeId, Vec<AliasText>>,
    incoming_links: BTreeMap<NodeId, Vec<IncomingLinkRecord>>,
}

impl FakeRepository {
    fn new(nodes: Vec<StoredNode>) -> Self {
        Self {
            nodes: nodes.into_iter().map(|node| (node.id, node)).collect(),
            aliases: BTreeMap::new(),
            incoming_links: BTreeMap::new(),
        }
    }
}

impl ReadRepository for FakeRepository {
    fn get_node(&self, node_id: NodeId) -> KernelResult<Option<StoredNode>> {
        Ok(self.nodes.get(&node_id).cloned())
    }

    fn list_children(&self, parent_id: Option<NodeId>) -> KernelResult<Vec<StoredNode>> {
        Ok(self
            .nodes
            .values()
            .filter(|node| node.parent_id == parent_id)
            .cloned()
            .collect())
    }

    fn list_outgoing_links(&self, _node_id: NodeId) -> KernelResult<Vec<NodeId>> {
        Ok(Vec::new())
    }

    fn list_incoming_links(&self, node_id: NodeId) -> KernelResult<Vec<IncomingLinkRecord>> {
        Ok(self
            .incoming_links
            .get(&node_id)
            .cloned()
            .unwrap_or_default())
    }

    fn list_aliases(&self, node_id: NodeId) -> KernelResult<Vec<AliasText>> {
        Ok(self.aliases.get(&node_id).cloned().unwrap_or_default())
    }

    fn lookup_candidates(&self, _key: &LookupKey) -> KernelResult<Vec<LookupCandidate>> {
        Ok(Vec::new())
    }

    fn node_path(&self, node_id: NodeId) -> KernelResult<String> {
        Ok(format!("path:{}", node_id.value()))
    }

    fn find_daily_note(&self, _note_date: &str) -> KernelResult<Option<DailyNoteRecord>> {
        Ok(None)
    }

    fn list_daily_notes(&self) -> KernelResult<Vec<DailyNoteRecord>> {
        Ok(Vec::new())
    }

    fn is_daily_note_node(&self, _node_id: NodeId) -> KernelResult<bool> {
        Ok(false)
    }

    fn is_root_node(&self, _node_id: NodeId) -> KernelResult<bool> {
        Ok(false)
    }

    fn list_root_nodes(&self) -> KernelResult<Vec<StoredNode>> {
        Ok(self
            .nodes
            .values()
            .filter(|node| node.parent_id.is_none())
            .cloned()
            .collect())
    }

    fn find_root_node_by_content(&self, _content: &ContentLine) -> KernelResult<Option<StoredNode>> {
        Ok(None)
    }

    fn search_text_matches(&self, needle: &str) -> KernelResult<Vec<StoredNode>> {
        Ok(self
            .nodes
            .values()
            .filter(|node| node.content.as_str().contains(needle))
            .cloned()
            .collect())
    }
}

fn node(id: i64, content: &str, parent: Option<i64>) -> StoredNode {
    StoredNode {
        id: NodeId::new(id).expect("valid test id"),
        content: ContentLine::parse(content).expect("valid content"),
        parent_id: parent.map(|p| NodeId::new(p).expect("valid test id")),
        first_child_id: None,
        last_child_id: None,
        prev_sibling_id: None,
        next_sibling_id: None,
    }
}

#[test]
fn read_node_returns_rendered_context_and_incoming_links() {
    let node_id = NodeId::new(1).expect("valid test id");
    let parent_id = NodeId::new(2).expect("valid test id");
    let source_id = NodeId::new(3).expect("valid test id");

    let node = StoredNode {
        id: node_id,
        content: ContentLine::parse("Current").expect("valid content"),
        parent_id: Some(parent_id),
        first_child_id: None,
        last_child_id: None,
        prev_sibling_id: None,
        next_sibling_id: None,
    };
    let parent = StoredNode {
        id: parent_id,
        content: ContentLine::parse("Parent").expect("valid content"),
        parent_id: None,
        first_child_id: Some(node_id),
        last_child_id: Some(node_id),
        prev_sibling_id: None,
        next_sibling_id: None,
    };
    let source = StoredNode {
        id: source_id,
        content: ContentLine::parse("Source {{1}}").expect("valid content"),
        parent_id: None,
        first_child_id: None,
        last_child_id: None,
        prev_sibling_id: None,
        next_sibling_id: None,
    };

    let mut repository = FakeRepository::new(vec![node, parent, source]);
    repository.incoming_links.insert(
        node_id,
        vec![IncomingLinkRecord {
            source_node_id: source_id,
            source_content: ContentLine::parse("Source {{1}}").expect("valid content"),
            ordinal: 1,
            path: String::from("Parent > Source"),
        }],
    );

    let view = read_node(&repository, node_id).expect("read should succeed");

    assert_eq!(view.node.rendered_content, "Current");
    assert_eq!(
        view.parent.expect("parent should exist").rendered_content,
        "Parent"
    );
    assert_eq!(view.incoming_links.len(), 1);
    assert_eq!(
        view.incoming_links[0].source.rendered_content,
        "Source {{1::>Current}}"
    );
}

#[test]
fn read_node_reports_missing_nodes() {
    let repository = FakeRepository::new(vec![node(1, "One", None)]);
    let error = read_node(&repository, NodeId::new(5).expect("valid test id"))
        .expect_err("missing node");
    assert!(matches!(error, KernelError::NotFound { entity: "node", .. }));
}

#[test]
fn read_node_reports_dangling_structure_as_corruption() {
    let mut dangling = node(1, "One", None);
    dangling.next_sibling_id = Some(NodeId::new(9).expect("valid test id"));
    let repository = FakeRepository::new(vec![dangling]);
    let error = read_node(&repository, NodeId::new(1).expect("valid test id"))
        .expect_err("missing sibling");
    assert!(matches!(error, KernelError::StorageCorruption(_)));
}

#[test]
fn rendering_expands_unlabelled_links_with_escaped_previews() {
    let repository = FakeRepository::new(vec![
        node(1, "Target }} text", None),
        node(2, "Plain", None),
    ]);
    let content = ContentLine::parse("See {{1}} and {{2::label}} and {{ 2 }}").expect("valid");
    let rendered = render_storage_content(&repository, &content).expect("render");
    assert_eq!(
        rendered,
        "See {{1::>Target } } text}} and {{2::label}} and {{2::>Plain}}"
    );
}

#[test]
fn rendering_rejects_lookup_tokens_in_stored_content() {
    let repository = FakeRepository::new(vec![node(1, "Topic", None)]);
    let content = ContentLine::parse("See {{Topic}}").expect("valid");
    let error = render_storage_content(&repository, &content).expect_err("lookup in storage");
    assert!(matches!(error, KernelError::StorageCorruption(_)));
    let broken = ContentLine::parse("See {{1").expect("valid");
    let error = render_storage_content(&repository, &broken).expect_err("unclosed");
    assert!(matches!(error, KernelError::StorageCorruption(_)));
}

#[test]
fn rendering_plain_text_gives_it_back() {
    let repository = FakeRepository::new(vec![]);
    let content = ContentLine::parse("Just text } here").expect("valid");
    assert_eq!(
        render_storage_content(&repository, &content).expect("render"),
        "Just text } here"
    );
}

#[test]
fn listings_render_every_node() {
    let repository = FakeRepository::new(vec![
        node(1, "Top", None),
        node(2, "Child {{1}}", Some(1)),
        node(3, "Other top", None),
    ]);
    let top = list_top_level(&repository).expect("top level");
    assert_eq!(top.len(), 2);
    assert_eq!(top[0].rendered_content, "Top");
    let children = list_children(&repository, NodeId::new(1).expect("valid test id"))
        .expect("children");
    assert_eq!(children.len(), 1);
    assert_eq!(children[0].rendered_content, "Child {{1::>Top}}");
}

#[test]
fn list_aliases_requires_an_existing_node() {
    let mut repository = FakeRepository::new(vec![node(1, "Top", None)]);
    repository.aliases.insert(
        NodeId::new(1).expect("valid test id"),
        vec![AliasText::new("t").expect("alias")],
    );
    let aliases = list_aliases(&repository, NodeId::new(1).expect("valid test id"))
        .expect("aliases");
    assert_eq!(aliases.len(), 1);
    let error = list_aliases(&repository, NodeId::new(2).expect("valid test id"))
        .expect_err("missing node");
    assert!(matches!(error, KernelError::NotFound { .. }));
}

#[test]
fn node_paths_run_from_the_top_level_ancestor_down() {
    let repository = FakeRepository::new(vec![
        node(1, "Projects", None),
        node(2, "Kernel", Some(1)),
        node(3, "See {{1}}", Some(2)),
    ]);
    let path = node_path_of(&repository, NodeId::new(3).expect("id")).expect("path");
    assert_eq!(path, "Projects > Kernel > See {{1::>Projects}}");
    assert_eq!(
        node_path_of(&repository, NodeId::new(1).expect("id")).expect("path"),
        "Projects"
    );
}

#[test]
fn node_paths_report_missing_ancestors() {
    let repository = FakeRepository::new(vec![node(2, "Orphan", Some(9))]);
    assert!(matches!(
        node_path_of(&repository, NodeId::new(2).expect("id")),
        Err(KernelError::StorageCorruption(_))
    ));
    assert!(node_path_of(&repository, NodeId::new(7).expect("id")).is_err());
}

#[test]
fn plain_node_lines_render_as_stored() {
    let nodes = vec![node(1, "Plain text", None), node(2, "Labelled {{1::Plain}}", None)];
    let repository = FakeRepository::new(nodes.clone());
    let lines = render_node_lines(&repository, &nodes).expect("plain nodes render");
    assert_eq!(lines.len(), 2);
    assert_eq!(lines[0].rendered_content, "Plain text");
    assert_eq!(lines[1].id, NodeId::new(2).expect("valid test id"));
    assert!(render_node_lines(&repository, &Vec::new()).expect("nothing to render").is_empty());
}

#[test]
fn stored_lookup_tokens_are_corruption_when_rendered() {
    let nodes = vec![node(1, "Plain", None), node(2, "Ref {{Plain}}", None)];
    let repository = FakeRepository::new(nodes.clone());
    let error = render_node_line(&repository, &nodes[1]).expect_err("lookups are never stored");
    assert!(matches!(error, KernelError::StorageCorruption(_)));
    let error = render_node_lines(&repository, &nodes).expect_err("one corrupt line fails all");
    assert!(matches!(error, KernelError::StorageCorruption(_)));
}

#[test]
fn incoming_links_render_in_order_with_their_details() {
    let nodes = vec![node(1, "Current", None), node(3, "Source {{1}}", None)];
    let repository = FakeRepository::new(nodes);
    let records = vec![IncomingLinkRecord {
        source_node_id: NodeId::new(3).expect("valid test id"),
        source_content: ContentLine::parse("Source {{1}}").expect("valid content"),
        ordinal: 1,
        path: String::from("Source"),
    }];
    let views = render_incoming_links(&repository, &records).expect("links render");
    assert_eq!(views.len(), 1);
    assert_eq!(views[0].source.id, NodeId::new(3).expect("valid test id"));
    assert_eq!(views[0].source.rendered_content, "Source {{1::>Current}}");
    assert_eq!(views[0].ordinal, 1);
    assert_eq!(views[0].path, "Source");
}

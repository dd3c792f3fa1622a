use std::collections::{BTreeMap, BTreeSet};

use memoryroam::batch::{BatchCreateRepository, BatchLookups};
use memoryroam::canonical::canonicalize_content;
use memoryroam::domain::{
    AliasText, ContentLine, DailyNoteRecord, DeleteMode, IncomingLinkRecord, KernelError,
    KernelResult, LookupCandidate, LookupKey, NewNodeRecord, NodeId, NodeUpdateRecord, Placement,
    StoredNode,
};
use memoryroam::repository::{ReadRepository, WriteRepository};
use memoryroam::links::{ensure_no_link_cycle, link_path_exists};
use memoryroam::canonical::resolve_lookup;
use memoryroam::write::{create_nodes, move_node, prepare_create, update_node, update_nodes};

#[derive(Default)]
struct FakeRepository {
    existing: BTreeMap<NodeId, StoredNode>,
    aliases: BTreeMap<String, Vec<NodeId>>,
    outgoing: BTreeMap<NodeId, Vec<NodeId>>,
    root_nodes: BTreeSet<NodeId>,
    created: Vec<NewNodeRecord>,
    updated: Vec<(NodeId, ContentLine, LookupKey, Vec<NodeId>)>,
    next_created_id: i64,
}

impl ReadRepository for FakeRepository {
    fn get_node(&self, node_id: NodeId) -> KernelResult<Option<StoredNode>> {
        Ok(self.existing.get(&node_id).cloned())
    }

    fn list_children(&self, _parent_id: Option<NodeId>) -> KernelResult<Vec<StoredNode>> {
        Ok(Vec::new())
    }

    fn list_outgoing_links(&self, node_id: NodeId) -> KernelResult<Vec<NodeId>> {
        Ok(self.outgoing.get(&node_id).cloned().unwrap_or_default())
    }

    fn list_incoming_links(&self, _node_id: NodeId) -> KernelResult<Vec<IncomingLinkRecord>> {
        Ok(Vec::new())
    }

    fn list_aliases(&self, node_id: NodeId) -> KernelResult<Vec<AliasText>> {
        Ok(self
            .aliases
            .iter()
            .filter(|(_, node_ids)| node_ids.contains(&node_id))
            .map(|(alias, _)| AliasText::new(alias).expect("alias should parse"))
            .collect())
    }

    fn lookup_candidates(&self, key: &LookupKey) -> KernelResult<Vec<LookupCandidate>> {
        let mut ids = self.aliases.get(key.as_str()).cloned().unwrap_or_default();
        for (node_id, node) in &self.existing {
            if node.content.as_str().trim() == key.as_str() {
                ids.push(*node_id);
            }
        }
        ids.sort();
        ids.dedup();
        Ok(ids
            .into_iter()
            .map(|node_id| LookupCandidate {
                node_id,
                content: self
                    .existing
                    .get(&node_id)
                    .expect("candidate should exist")
                    .content
                    .clone(),
                path: format!("path:{}", node_id.value()),
            })
            .collect())
    }

    fn node_path(&self, node_id: NodeId) -> KernelResult<String> {
        Ok(format!("path:{}", node_id.value()))
    }

    fn find_daily_note(&self, _note_date: &str) -> KernelResult<Option<DailyNoteRecord>> {
        Ok(None)
    }

    fn list_daily_notes(&self) -> KernelResult<Vec<DailyNoteRecord>> {
        Ok(Vec::new())
    }

    fn is_daily_note_node(&self, _node_id: NodeId) -> KernelResult<bool> {
        Ok(false)
    }

    fn is_root_node(&self, node_id: NodeId) -> KernelResult<bool> {
        Ok(self.root_nodes.contains(&node_id))
    }

    fn list_root_nodes(&self) -> KernelResult<Vec<StoredNode>> {
        Ok(self
            .root_nodes
            .iter()
            .filter_map(|node_id| self.existing.get(node_id).cloned())
            .collect())
    }

    fn find_root_node_by_content(&self, content: &ContentLine) -> KernelResult<Option<StoredNode>> {
        let normalized = content.as_str().trim();
        Ok(self.root_nodes.iter().find_map(|node_id| {
            self.existing
                .get(node_id)
                .filter(|node| node.content.as_str().trim() == normalized)
                .cloned()
        }))
    }

    fn search_text_matches(&self, _needle: &str) -> KernelResult<Vec<StoredNode>> {
        Ok(Vec::new())
    }
}

impl WriteRepository for FakeRepository {
    fn init_schema(&mut self) -> KernelResult<()> {
        Ok(())
    }

    fn create_nodes_from_lines(
        &mut self,
        placement: Placement,
        lines: &[ContentLine],
        aliases: &[AliasText],
    ) -> KernelResult<Vec<NodeId>> {
        let mut created_ids = Vec::with_capacity(lines.len());
        let mut next_placement = placement;

        for (index, line) in lines.iter().enumerate() {
            let canonical = canonicalize_content(self, line)?;
            let node = NewNodeRecord {
                content: canonical.content,
                lookup_key: canonical.lookup_key,
                outgoing_links: canonical.outgoing_links,
                aliases: if index == 0 { aliases.to_vec() } else { Vec::new() },
            };
            let node_id = self
                .create_nodes(next_placement, &[node])?
                .into_iter()
                .next()
                .expect("fake repository should create one node");
            created_ids.push(node_id);
            next_placement = Placement::After(node_id);
        }

        Ok(created_ids)
    }

    fn create_nodes(
        &mut self,
        _placement: Placement,
        nodes: &[NewNodeRecord],
    ) -> KernelResult<Vec<NodeId>> {
        self.created.extend_from_slice(nodes);
        let mut created_ids = Vec::with_capacity(nodes.len());
        for node in nodes {
            self.next_created_id += 1;
            let node_id = NodeId::new(self.next_created_id).expect("valid test id");
            self.existing.insert(
                node_id,
                StoredNode {
                    id: node_id,
                    content: node.content.clone(),
                    parent_id: None,
                    first_child_id: None,
                    last_child_id: None,
                    prev_sibling_id: None,
                    next_sibling_id: None,
                },
            );
            self.aliases
                .entry(node.lookup_key.as_str().to_owned())
                .or_default()
                .push(node_id);
            for alias in &node.aliases {
                let lookup_key = LookupKey::from_alias(alias)
                    .map_err(|error| KernelError::Input(error.message()))?;
                self.aliases
                    .entry(lookup_key.as_str().to_owned())
                    .or_default()
                    .push(node_id);
            }
            self.outgoing.insert(node_id, node.outgoing_links.clone());
            created_ids.push(node_id);
        }
        Ok(created_ids)
    }

    fn update_node_contents(&mut self, updates: &[NodeUpdateRecord]) -> KernelResult<()> {
        for update in updates {
            self.outgoing
                .insert(update.node_id, update.outgoing_links.clone());
            self.updated.push((
                update.node_id,
                update.content.clone(),
                update.lookup_key.clone(),
                update.outgoing_links.clone(),
            ));
        }
        Ok(())
    }

    fn move_node(&mut self, _node_id: NodeId, _placement: Placement) -> KernelResult<()> {
        Ok(())
    }

    fn delete_node(&mut self, node_id: NodeId, _mode: DeleteMode) -> KernelResult<()> {
        self.existing.remove(&node_id);
        self.outgoing.remove(&node_id);
        Ok(())
    }

    fn add_aliases(&mut self, _node_id: NodeId, _aliases: &[AliasText]) -> KernelResult<()> {
        Ok(())
    }

    fn remove_alias(&mut self, _node_id: NodeId, _alias: &AliasText) -> KernelResult<()> {
        Ok(())
    }

    fn create_root_node(&mut self, node: &NewNodeRecord) -> KernelResult<NodeId> {
        let node_id = self
            .create_nodes(Placement::TopLevelLast, std::slice::from_ref(node))
            .map(|mut ids| ids.remove(0))?;
        self.root_nodes.insert(node_id);
        Ok(node_id)
    }

    fn create_daily_note_node(&mut self, note_date: &str) -> KernelResult<NodeId> {
        let content =
            ContentLine::parse(note_date).map_err(|error| KernelError::Input(error.message()))?;
        let lookup_key = LookupKey::from_content(&content);
        let node = NewNodeRecord {
            content,
            lookup_key,
            outgoing_links: Vec::new(),
            aliases: Vec::new(),
        };
        self.create_nodes(Placement::TopLevelLast, &[node])
            .map(|mut ids| ids.remove(0))
    }
}

fn stored_node(id: i64, content: &str) -> StoredNode {
    StoredNode {
        id: NodeId::new(id).expect("valid test id"),
        content: ContentLine::parse(content).expect("valid content"),
        parent_id: None,
        first_child_id: None,
        last_child_id: None,
        prev_sibling_id: None,
        next_sibling_id: None,
    }
}

#[test]
fn create_nodes_rejects_aliases_for_multiline_input() {
    let mut repository = FakeRepository::default();

    let error = create_nodes(
        &mut repository,
        "one\ntwo",
        &[String::from("alias")],
        Placement::TopLevelLast,
    )
    .expect_err("multiline create with aliases should fail");

    assert!(matches!(error, KernelError::Input(_)));
}

#[test]
fn create_nodes_rejects_link_bearing_top_level_roots() {
    let mut repository = FakeRepository::default();

    let error = create_nodes(&mut repository, "Ref {{Topic}}", &[], Placement::TopLevelLast)
        .expect_err("top-level root should reject link-bearing text");

    assert!(matches!(error, KernelError::Input(_)));
}

#[test]
fn update_node_canonicalizes_lookup_tokens_before_persisting() {
    let mut repository = FakeRepository::default();
    let target = stored_node(7, "Topic");
    repository.existing.insert(target.id, target);
    repository
        .aliases
        .insert(String::from("Topic"), vec![NodeId::new(7).expect("valid test id")]);

    update_node(
        &mut repository,
        NodeId::new(1).expect("valid test id"),
        "See {{Topic}}",
    )
    .expect("update should succeed");

    assert_eq!(repository.updated.len(), 1);
    assert_eq!(repository.updated[0].1.as_str(), "See {{7::Topic}}");
}

#[test]
fn create_nodes_allows_later_lines_to_reference_earlier_lines() {
    let mut repository = FakeRepository::default();
    let parent_id = NodeId::new(10).expect("valid test id");
    repository
        .existing
        .insert(parent_id, stored_node(10, "Parent"));

    let created_ids = create_nodes(
        &mut repository,
        "Topic\nSee {{Topic}}",
        &[],
        Placement::LastChildOf(parent_id),
    )
    .expect("multiline create should allow later lines to reference earlier ones");

    assert_eq!(created_ids.len(), 2);
    assert_eq!(repository.created.len(), 2);
    assert_eq!(repository.created[1].content.as_str(), "See {{1::Topic}}");
}

#[test]
fn update_node_rejects_self_referential_links() {
    let mut repository = FakeRepository::default();
    let node_id = NodeId::new(1).expect("valid test id");
    repository.existing.insert(
        node_id,
        StoredNode {
            id: node_id,
            content: ContentLine::parse("Topic").expect("valid content"),
            parent_id: None,
            first_child_id: None,
            last_child_id: None,
            prev_sibling_id: None,
            next_sibling_id: None,
        },
    );
    repository.aliases.insert(String::from("Topic"), vec![node_id]);

    let error = update_node(&mut repository, node_id, "See {{Topic}}")
        .expect_err("self-referential updates should fail");

    assert!(matches!(error, KernelError::Constraint(_)));
}

#[test]
fn update_node_rejects_indirect_link_cycles() {
    let mut repository = FakeRepository::default();
    let first_id = NodeId::new(1).expect("valid test id");
    let second_id = NodeId::new(2).expect("valid test id");

    repository.existing.insert(first_id, stored_node(1, "First"));
    repository.existing.insert(second_id, stored_node(2, "Second"));
    repository.aliases.insert(String::from("First"), vec![first_id]);
    repository.aliases.insert(String::from("Second"), vec![second_id]);
    repository.outgoing.insert(first_id, vec![second_id]);

    let error = update_node(&mut repository, second_id, "Back {{First}}")
        .expect_err("indirect cycles should be rejected");

    assert!(matches!(error, KernelError::Constraint(_)));
}

#[test]
fn update_node_rejects_duplicate_root_lookup_keys() {
    let mut repository = FakeRepository::default();
    let first_id = NodeId::new(1).expect("valid test id");
    let second_id = NodeId::new(2).expect("valid test id");
    repository.existing.insert(first_id, stored_node(1, "Topic"));
    repository.existing.insert(second_id, stored_node(2, "Other"));
    repository.root_nodes.insert(first_id);
    repository.root_nodes.insert(second_id);
    assert!(repository
        .is_root_node(second_id)
        .expect("root state should load"));
    assert_eq!(
        repository
            .list_root_nodes()
            .expect("root nodes should load")
            .len(),
        2
    );

    let error = update_node(&mut repository, second_id, "Topic").expect_err("update should fail");
    assert!(matches!(error, KernelError::Constraint(_)));
}

#[test]
fn update_node_rejects_link_bearing_root_content() {
    let mut repository = FakeRepository::default();
    let root_id = NodeId::new(1).expect("valid test id");
    let target_id = NodeId::new(2).expect("valid test id");
    repository.existing.insert(root_id, stored_node(1, "Root"));
    repository.existing.insert(target_id, stored_node(2, "Target"));
    repository.root_nodes.insert(root_id);
    repository.aliases.insert(String::from("Target"), vec![target_id]);
    assert!(repository
        .is_root_node(root_id)
        .expect("root state should load"));

    let error =
        update_node(&mut repository, root_id, "Ref {{Target}}").expect_err("update should fail");
    assert!(matches!(error, KernelError::Input(_)));
}

#[test]
fn update_nodes_rejects_link_bearing_root_content() {
    let mut repository = FakeRepository::default();
    let root_id = NodeId::new(1).expect("valid test id");
    let target_id = NodeId::new(2).expect("valid test id");
    repository.existing.insert(root_id, stored_node(1, "Root"));
    repository.existing.insert(target_id, stored_node(2, "Target"));
    repository.root_nodes.insert(root_id);
    repository.aliases.insert(String::from("Target"), vec![target_id]);

    let error = update_nodes(&mut repository, &[(root_id, String::from("Ref {{Target}}"))])
        .expect_err("batch update should fail");
    assert!(matches!(error, KernelError::Input(_)));
}

#[test]
fn update_nodes_can_reference_earlier_renames_in_the_same_batch() {
    let mut repository = FakeRepository::default();
    let renamed_id = NodeId::new(1).expect("valid test id");
    let dependent_id = NodeId::new(2).expect("valid test id");
    repository.existing.insert(renamed_id, stored_node(1, "Alpha"));
    repository
        .existing
        .insert(dependent_id, stored_node(2, "See {{Alpha}}"));

    update_nodes(
        &mut repository,
        &[
            (renamed_id, String::from("Beta")),
            (dependent_id, String::from("See {{Beta}}")),
        ],
    )
    .expect("batch update should succeed");

    assert_eq!(repository.updated.len(), 2);
    assert_eq!(repository.updated[0].1.as_str(), "Beta");
    assert_eq!(repository.updated[1].1.as_str(), "See {{1::Beta}}");
}

#[test]
fn update_nodes_keep_existing_aliases_visible_for_pending_nodes() {
    let mut repository = FakeRepository::default();
    let aliased_id = NodeId::new(1).expect("valid test id");
    let dependent_id = NodeId::new(2).expect("valid test id");
    repository.existing.insert(aliased_id, stored_node(1, "Old"));
    repository
        .existing
        .insert(dependent_id, stored_node(2, "See {{topic}}"));
    repository.aliases.insert(String::from("topic"), vec![aliased_id]);

    update_nodes(
        &mut repository,
        &[
            (aliased_id, String::from("New")),
            (dependent_id, String::from("See {{topic}}")),
        ],
    )
    .expect("batch update should preserve alias lookups");

    assert_eq!(repository.updated.len(), 2);
    assert_eq!(repository.updated[0].1.as_str(), "New");
    assert_eq!(repository.updated[1].1.as_str(), "See {{1::topic}}");
}

#[test]
fn update_nodes_allow_root_name_swaps() {
    let mut repository = FakeRepository::default();
    let first_id = NodeId::new(1).expect("valid test id");
    let second_id = NodeId::new(2).expect("valid test id");
    repository.existing.insert(first_id, stored_node(1, "Alpha"));
    repository.existing.insert(second_id, stored_node(2, "Beta"));
    repository.root_nodes.insert(first_id);
    repository.root_nodes.insert(second_id);

    update_nodes(
        &mut repository,
        &[
            (first_id, String::from("Beta")),
            (second_id, String::from("Alpha")),
        ],
    )
    .expect("root swap should succeed");

    assert_eq!(repository.updated.len(), 2);
    assert_eq!(repository.updated[0].1.as_str(), "Beta");
    assert_eq!(repository.updated[1].1.as_str(), "Alpha");
}

#[test]
fn update_node_rejects_numeric_root_content() {
    let mut repository = FakeRepository::default();
    let root_id = NodeId::new(1).expect("valid test id");
    repository.existing.insert(root_id, stored_node(1, "Root"));
    repository.root_nodes.insert(root_id);

    let error = update_node(&mut repository, root_id, "2026").expect_err("update should fail");
    assert!(matches!(error, KernelError::Input(_)));
}

#[test]
fn update_node_rejects_double_colon_root_content() {
    let mut repository = FakeRepository::default();
    let root_id = NodeId::new(1).expect("valid test id");
    repository.existing.insert(root_id, stored_node(1, "Root"));
    repository.root_nodes.insert(root_id);

    let error =
        update_node(&mut repository, root_id, "std::fmt").expect_err("update should fail");
    assert!(matches!(error, KernelError::Input(_)));
}

#[test]
fn move_node_rejects_moving_roots_out_of_top_level() {
    let mut repository = FakeRepository::default();
    let root_id = NodeId::new(1).expect("valid test id");
    let parent_id = NodeId::new(2).expect("valid test id");
    repository.existing.insert(root_id, stored_node(1, "Root"));
    repository.existing.insert(parent_id, stored_node(2, "Parent"));
    repository.root_nodes.insert(root_id);

    let error = move_node(&mut repository, root_id, Placement::LastChildOf(parent_id))
        .expect_err("root move should fail");
    assert!(matches!(error, KernelError::Constraint(_)));
}

#[test]
fn move_node_allows_reordering_roots_around_other_roots() {
    let mut repository = FakeRepository::default();
    let first_id = NodeId::new(1).expect("valid test id");
    let second_id = NodeId::new(2).expect("valid test id");
    repository.existing.insert(first_id, stored_node(1, "First"));
    repository.existing.insert(second_id, stored_node(2, "Second"));
    repository.root_nodes.insert(first_id);
    repository.root_nodes.insert(second_id);

    move_node(&mut repository, first_id, Placement::After(second_id))
        .expect("root reorder should succeed");
}

#[test]
fn batch_lookups_prefer_nodes_created_earlier_in_the_batch() {
    let mut repository = FakeRepository::default();
    repository.existing.insert(NodeId::new(1).expect("id"), stored_node(1, "Topic"));
    repository.existing.insert(NodeId::new(2).expect("id"), stored_node(2, "Topic"));
    let two = NodeId::new(2).expect("id");

    let mut batch = BatchLookups::new();
    batch
        .record_created(
            two,
            &ContentLine::parse("Topic").expect("content"),
            &[AliasText::new("Other").expect("alias")],
        )
        .expect("content and alias keys");
    assert_eq!(batch.preferred(&LookupKey::new("Topic").expect("key")), Some(vec![two]));
    assert_eq!(batch.preferred(&LookupKey::new("Other").expect("key")), Some(vec![two]));
    assert_eq!(batch.preferred(&LookupKey::new("Missing").expect("key")), None);

    let overlay = BatchCreateRepository {
        base: &repository,
        preferred: &batch,
    };
    let line = ContentLine::parse("See {{Topic}}").expect("content");
    let canonical = canonicalize_content(&overlay, &line).expect("the batch node answers");
    assert_eq!(canonical.outgoing_links, vec![two]);
    assert_eq!(canonical.content.as_str(), "See {{2::Topic}}");
    assert!(matches!(
        canonicalize_content(&repository, &line),
        Err(KernelError::LookupAmbiguous(_))
    ));
}

#[test]
fn batch_lookups_refuse_aliases_without_a_key() {
    let mut batch = BatchLookups::new();
    let error = batch
        .record_created(
            NodeId::new(3).expect("id"),
            &ContentLine::parse("Note").expect("content"),
            &[AliasText::new("42").expect("alias text")],
        )
        .expect_err("numeric alias has no lookup key");
    assert!(matches!(error, KernelError::Input(_)));
    assert_eq!(
        batch.preferred(&LookupKey::new("Note").expect("key")),
        Some(vec![NodeId::new(3).expect("id")])
    );
}

#[test]
fn update_nodes_with_no_updates_writes_nothing() {
    let mut repository = FakeRepository::default();
    repository.existing.insert(NodeId::new(1).expect("valid test id"), stored_node(1, "Kept"));

    update_nodes(&mut repository, &[]).expect("an empty batch succeeds");
    assert!(repository.updated.is_empty());
}

#[test]
fn update_nodes_refuses_a_node_updated_twice_without_writing() {
    let mut repository = FakeRepository::default();
    let node_id = NodeId::new(1).expect("valid test id");
    repository.existing.insert(node_id, stored_node(1, "Start"));

    let error = update_nodes(
        &mut repository,
        &[(node_id, String::from("First")), (node_id, String::from("Second"))],
    )
    .expect_err("a node may be updated once per batch");
    assert!(matches!(error, KernelError::Input(_)));
    assert!(repository.updated.is_empty());
}

#[test]
fn refused_root_update_writes_nothing() {
    let mut repository = FakeRepository::default();
    let first_id = NodeId::new(1).expect("valid test id");
    let second_id = NodeId::new(2).expect("valid test id");
    repository.existing.insert(first_id, stored_node(1, "Topic"));
    repository.existing.insert(second_id, stored_node(2, "Other"));
    repository.root_nodes.insert(first_id);
    repository.root_nodes.insert(second_id);

    update_node(&mut repository, second_id, "Topic").expect_err("duplicate root text");
    assert!(repository.updated.is_empty());
}

#[test]
fn link_paths_from_no_links_find_nothing() {
    let repository = FakeRepository::default();
    let node_id = NodeId::new(1).expect("valid test id");
    assert!(!link_path_exists(&repository, node_id, &Vec::new()).expect("no reads needed"));
    assert!(ensure_no_link_cycle(&repository, node_id, &Vec::new()).is_ok());
}

#[test]
fn a_link_straight_back_is_a_cycle() {
    let repository = FakeRepository::default();
    let node_id = NodeId::new(1).expect("valid test id");
    assert!(link_path_exists(&repository, node_id, &vec![node_id]).expect("no reads needed"));
    let error = ensure_no_link_cycle(&repository, node_id, &vec![node_id])
        .expect_err("a link back to the node is a cycle");
    assert!(matches!(error, KernelError::Constraint(_)));
}

fn candidate(id: i64, content: &str) -> LookupCandidate {
    LookupCandidate {
        node_id: NodeId::new(id).expect("valid test id"),
        content: ContentLine::parse(content).expect("valid content"),
        path: format!("path:{id}"),
    }
}

#[test]
fn a_lookup_binds_to_its_only_candidate() {
    let key = LookupKey::new("Topic").expect("valid key");
    let resolved = resolve_lookup(&key, &vec![candidate(7, "Topic")]).expect("one candidate");
    assert_eq!(resolved, NodeId::new(7).expect("valid test id"));
}

#[test]
fn a_lookup_without_candidates_misses() {
    let key = LookupKey::new("Topic").expect("valid key");
    let error = resolve_lookup(&key, &Vec::new()).expect_err("no candidate");
    assert_eq!(error, KernelError::LookupMiss(String::from("Topic")));
}

#[test]
fn a_lookup_with_several_candidates_is_ambiguous() {
    let key = LookupKey::new("Topic").expect("valid key");
    let error = resolve_lookup(&key, &vec![candidate(1, "Topic"), candidate(2, "Topic")])
        .expect_err("two candidates");
    assert_eq!(error, KernelError::LookupAmbiguous(String::from("Topic")));
}

#[test]
fn create_input_is_prepared_line_by_line() {
    let parent = NodeId::new(10).expect("valid test id");
    let (placement, lines, aliases) =
        prepare_create("Topic\nSee {{Topic}}", &[], Placement::LastChildOf(parent))
            .expect("two valid lines");
    assert_eq!(placement, Placement::LastChildOf(parent));
    assert_eq!(lines.len(), 2);
    assert_eq!(lines[0].as_str(), "Topic");
    assert_eq!(lines[1].as_str(), "See {{Topic}}");
    assert!(aliases.is_empty());

    let (_, lines, aliases) =
        prepare_create("  Root  ", &[String::from("Alias")], Placement::TopLevelLast)
            .expect("one root line with an alias");
    assert_eq!(lines[0].as_str(), "Root");
    assert_eq!(aliases[0].as_str(), "Alias");

    let error = prepare_create("One\nTwo", &[String::from("Alias")], Placement::TopLevelLast)
        .expect_err("aliases need a single line");
    assert!(matches!(error, KernelError::Input(_)));
}

#[test]
fn created_lines_land_under_the_placement() {
    let mut repository = FakeRepository::default();
    repository.existing.insert(NodeId::new(10).expect("valid test id"), stored_node(10, "Parent"));
    let ids = create_nodes(
        &mut repository,
        "Topic\nSee {{Topic}}",
        &[],
        Placement::LastChildOf(NodeId::new(10).expect("valid test id")),
    )
    .expect("create should succeed");
    assert_eq!(ids.len(), 2);
}

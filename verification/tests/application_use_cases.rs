use std::collections::{BTreeMap, BTreeSet};

use memoryroam::application::{
    apply_root_link, check_note_date, create_root, estimate_tokens, note_today, open_day, read_node_context,
    rewrite_text_fragments,
};
use memoryroam::canonical::{canonicalize_content, render_storage_content};
use memoryroam::syntax::{link_to_storage, parse_content, ContentFragment, ParsedLink};
use memoryroam::domain::{
    AliasText, ContentLine, DailyNoteRecord, DeleteMode, IncomingLinkRecord, KernelError,
    KernelResult, LookupCandidate, LookupKey, NewNodeRecord, NodeId, NodeUpdateRecord, Placement,
    StoredNode,
};
use memoryroam::output::{
    format_day_view, format_note_result, format_read_context, format_root_apply_result,
    format_root_create_result,
};
use memoryroam::read::node_path_of;
use memoryroam::repository::{ReadRepository, WriteRepository};
use memoryroam::structure::{check_placement_kind, plan_cascade_delete, CascadeStart};
use memoryroam::write::{add_aliases, delete_node, update_node};

/// An in-memory repository with parent/sibling chains, roots and daily notes.
#[derive(Default)]
struct MemoryRepository {
    nodes: BTreeMap<NodeId, StoredNode>,
    outgoing: BTreeMap<NodeId, Vec<NodeId>>,
    aliases: BTreeMap<String, Vec<NodeId>>,
    roots: BTreeSet<NodeId>,
    daily: Vec<DailyNoteRecord>,
    next_id: i64,
}

fn id(value: i64) -> NodeId {
    NodeId::new(value).expect("valid test id")
}

impl MemoryRepository {
    fn add(&mut self, content: &str, parent: Option<NodeId>) -> NodeId {
        self.next_id += 1;
        let node_id = id(self.next_id);
        let mut node = StoredNode {
            id: node_id,
            content: ContentLine::parse(content).expect("valid content"),
            parent_id: parent,
            first_child_id: None,
            last_child_id: None,
            prev_sibling_id: None,
            next_sibling_id: None,
        };
        if let Some(parent_id) = parent {
            let parent_node = self.nodes.get_mut(&parent_id).expect("parent exists");
            match parent_node.last_child_id {
                Some(last) => {
                    parent_node.last_child_id = Some(node_id);
                    node.prev_sibling_id = Some(last);
                    self.nodes.get_mut(&last).expect("last child").next_sibling_id = Some(node_id);
                }
                None => {
                    parent_node.first_child_id = Some(node_id);
                    parent_node.last_child_id = Some(node_id);
                }
            }
        }
        self.nodes.insert(node_id, node);
        node_id
    }

    fn content(&self, node_id: NodeId) -> String {
        self.nodes[&node_id].content.as_str().to_owned()
    }
}

impl ReadRepository for MemoryRepository {
    fn get_node(&self, node_id: NodeId) -> KernelResult<Option<StoredNode>> {
        Ok(self.nodes.get(&node_id).cloned())
    }

    fn list_children(&self, parent_id: Option<NodeId>) -> KernelResult<Vec<StoredNode>> {
        match parent_id {
            None => Ok(self
                .nodes
                .values()
                .filter(|node| node.parent_id.is_none())
                .cloned()
                .collect()),
            Some(parent_id) => {
                let mut children = Vec::new();
                let mut current = self.nodes[&parent_id].first_child_id;
                while let Some(child_id) = current {
                    let child = self.nodes[&child_id].clone();
                    current = child.next_sibling_id;
                    children.push(child);
                }
                Ok(children)
            }
        }
    }

    fn list_outgoing_links(&self, node_id: NodeId) -> KernelResult<Vec<NodeId>> {
        Ok(self.outgoing.get(&node_id).cloned().unwrap_or_default())
    }

    fn list_incoming_links(&self, node_id: NodeId) -> KernelResult<Vec<IncomingLinkRecord>> {
        Ok(self
            .outgoing
            .iter()
            .filter(|(_, targets)| targets.contains(&node_id))
            .map(|(source, _)| IncomingLinkRecord {
                source_node_id: *source,
                source_content: self.nodes[source].content.clone(),
                ordinal: 1,
                path: format!("path:{}", source.value()),
            })
            .collect())
    }

    fn list_aliases(&self, node_id: NodeId) -> KernelResult<Vec<AliasText>> {
        Ok(self
            .aliases
            .iter()
            .filter(|(_, ids)| ids.contains(&node_id))
            .map(|(alias, _)| AliasText::new(alias).expect("alias"))
            .collect())
    }

    fn lookup_candidates(&self, key: &LookupKey) -> KernelResult<Vec<LookupCandidate>> {
        let mut ids = self.aliases.get(key.as_str()).cloned().unwrap_or_default();
        for (node_id, node) in &self.nodes {
            if node.content.as_str().trim() == key.as_str() {
                ids.push(*node_id);
            }
        }
        ids.sort();
        ids.dedup();
        Ok(ids
            .into_iter()
            .map(|node_id| LookupCandidate {
                node_id,
                content: self.nodes[&node_id].content.clone(),
                path: format!("path:{}", node_id.value()),
            })
            .collect())
    }

    fn node_path(&self, node_id: NodeId) -> KernelResult<String> {
        Ok(format!("path:{}", node_id.value()))
    }

    fn find_daily_note(&self, note_date: &str) -> KernelResult<Option<DailyNoteRecord>> {
        Ok(self
            .daily
            .iter()
            .find(|record| record.note_date == note_date)
            .cloned())
    }

    fn list_daily_notes(&self) -> KernelResult<Vec<DailyNoteRecord>> {
        let mut days = self.daily.clone();
        days.sort_by(|a, b| a.note_date.cmp(&b.note_date));
        Ok(days)
    }

    fn is_daily_note_node(&self, node_id: NodeId) -> KernelResult<bool> {
        Ok(self.daily.iter().any(|record| record.node_id == node_id))
    }

    fn is_root_node(&self, node_id: NodeId) -> KernelResult<bool> {
        Ok(self.roots.contains(&node_id))
    }

    fn list_root_nodes(&self) -> KernelResult<Vec<StoredNode>> {
        Ok(self
            .roots
            .iter()
            .map(|node_id| self.nodes[node_id].clone())
            .collect())
    }

    fn find_root_node_by_content(&self, content: &ContentLine) -> KernelResult<Option<StoredNode>> {
        let wanted = content.as_str().trim();
        Ok(self
            .roots
            .iter()
            .map(|node_id| &self.nodes[node_id])
            .find(|node| node.content.as_str().trim() == wanted)
            .cloned())
    }

    fn search_text_matches(&self, needle: &str) -> KernelResult<Vec<StoredNode>> {
        Ok(self
            .nodes
            .values()
            .filter(|node| !self.roots.contains(&node.id))
            .filter(|node| !self.daily.iter().any(|record| record.node_id == node.id))
            .filter(|node| node.content.as_str().contains(needle))
            .cloned()
            .collect())
    }
}

impl WriteRepository for MemoryRepository {
    fn init_schema(&mut self) -> KernelResult<()> {
        Ok(())
    }

    fn create_nodes_from_lines(
        &mut self,
        placement: Placement,
        lines: &[ContentLine],
        _aliases: &[AliasText],
    ) -> KernelResult<Vec<NodeId>> {
        let mut ids = Vec::new();
        for line in lines {
            let canonical = canonicalize_content(self, line)?;
            let record = NewNodeRecord {
                content: canonical.content,
                lookup_key: canonical.lookup_key,
                outgoing_links: canonical.outgoing_links,
                aliases: Vec::new(),
            };
            ids.extend(self.create_nodes(placement, &[record])?);
        }
        Ok(ids)
    }

    fn create_nodes(
        &mut self,
        placement: Placement,
        nodes: &[NewNodeRecord],
    ) -> KernelResult<Vec<NodeId>> {
        let parent = match placement {
            Placement::LastChildOf(parent_id) => Some(parent_id),
            _ => None,
        };
        let mut ids = Vec::new();
        for record in nodes {
            let node_id = self.add(record.content.as_str(), parent);
            self.outgoing.insert(node_id, record.outgoing_links.clone());
            ids.push(node_id);
        }
        Ok(ids)
    }

    fn update_node_contents(&mut self, updates: &[NodeUpdateRecord]) -> KernelResult<()> {
        for update in updates {
            self.nodes.get_mut(&update.node_id).expect("node exists").content =
                update.content.clone();
            self.outgoing
                .insert(update.node_id, update.outgoing_links.clone());
        }
        Ok(())
    }

    fn move_node(&mut self, _node_id: NodeId, _placement: Placement) -> KernelResult<()> {
        Ok(())
    }

    fn delete_node(&mut self, node_id: NodeId, _mode: DeleteMode) -> KernelResult<()> {
        self.nodes.remove(&node_id);
        Ok(())
    }

    fn add_aliases(&mut self, _node_id: NodeId, _aliases: &[AliasText]) -> KernelResult<()> {
        Ok(())
    }

    fn remove_alias(&mut self, _node_id: NodeId, _alias: &AliasText) -> KernelResult<()> {
        Ok(())
    }

    fn create_root_node(&mut self, node: &NewNodeRecord) -> KernelResult<NodeId> {
        let node_id = self.add(node.content.as_str(), None);
        self.roots.insert(node_id);
        Ok(node_id)
    }

    fn create_daily_note_node(&mut self, note_date: &str) -> KernelResult<NodeId> {
        let node_id = self.add(note_date, None);
        self.daily.push(DailyNoteRecord {
            note_date: note_date.to_owned(),
            node_id,
        });
        Ok(node_id)
    }
}

#[test]
fn rewrite_text_fragments_updates_plain_text_without_touching_links() {
    let content = ContentLine::parse("Software engineering and {{12::Software engineering}}")
        .expect("content should parse");

    let rewritten = rewrite_text_fragments(
        &content,
        "Software engineering",
        NodeId::new(99).expect("valid test id"),
    )
    .expect("rewrite should succeed")
    .expect("rewrite should change text");

    assert_eq!(
        rewritten,
        "{{99::Software engineering}} and {{12::Software engineering}}"
    );
}

#[test]
fn rewrite_text_fragments_reports_untouched_content() {
    let content = ContentLine::parse("Only {{3::Rust}} here").expect("content");
    assert_eq!(
        rewrite_text_fragments(&content, "Rust", id(9)).expect("rewrite"),
        None
    );
    let content = ContentLine::parse("Rust, Rust and {{4}}").expect("content");
    assert_eq!(
        rewrite_text_fragments(&content, "Rust", id(9)).expect("rewrite"),
        Some(String::from("{{9::Rust}}, {{9::Rust}} and {{4}}"))
    );
}

#[test]
fn rewrite_text_fragments_rejects_unparsable_content() {
    let content = ContentLine::parse("Rust {{ unclosed").expect("content");
    let error = rewrite_text_fragments(&content, "Rust", id(9)).expect_err("broken link");
    assert!(matches!(error, KernelError::Storage(_)));
}

#[test]
fn token_estimate_counts_ascii_in_groups_of_three() {
    assert_eq!(estimate_tokens(""), 8);
    assert_eq!(estimate_tokens("abc"), 9);
    assert_eq!(estimate_tokens("abcd"), 10);
    assert_eq!(estimate_tokens("éü"), 10);
    assert_eq!(estimate_tokens("aé"), 10);
}

#[test]
fn note_today_creates_the_daily_note_once() {
    let mut repository = MemoryRepository::default();
    let first = note_today(&mut repository, "2026-03-01", "First entry").expect("note");
    let second = note_today(&mut repository, "2026-03-01", "Second entry").expect("note");
    assert_eq!(first.note_date, "2026-03-01");
    assert_eq!(first.node.rendered_content, "First entry");
    assert_eq!(second.node.rendered_content, "Second entry");
    assert_eq!(repository.daily.len(), 1);

    let day = open_day(&repository, "2026-03-01").expect("day");
    assert_eq!(day.note_date, "2026-03-01");
    let entries: Vec<&str> = day
        .entries
        .iter()
        .map(|line| line.rendered_content.as_str())
        .collect();
    assert_eq!(entries, vec!["First entry", "Second entry"]);
}

#[test]
fn note_today_rejects_blank_content() {
    let mut repository = MemoryRepository::default();
    let error = note_today(&mut repository, "2026-03-01", "   ").expect_err("blank");
    assert!(matches!(error, KernelError::Input(_)));
}

#[test]
fn open_day_without_a_note_is_empty() {
    let repository = MemoryRepository::default();
    let day = open_day(&repository, "2026-01-01").expect("day");
    assert_eq!(day.note_date, "2026-01-01");
    assert!(day.entries.is_empty());
}

#[test]
fn create_root_lists_matches_by_rank_then_id() {
    let mut repository = MemoryRepository::default();
    let holder = repository.add("Holder", None);
    let contains = repository.add("I like Rust", Some(holder));
    let starts = repository.add("Rust is great", Some(holder));
    let exact = repository.add("Rust", Some(holder));
    repository.add("Linked {{3::Rust}}", Some(holder));
    repository.add("Nothing here", Some(holder));

    let result = create_root(&mut repository, "Rust").expect("root");
    assert_eq!(result.root.rendered_content, "Rust");
    assert!(repository.roots.contains(&result.root.id));
    let ids: Vec<NodeId> = result.matches.iter().map(|line| line.id).collect();
    assert_eq!(ids, vec![exact, starts, contains]);
    assert_eq!(result.hidden_match_count, 0);

    let again = create_root(&mut repository, " Rust ").expect("existing root");
    assert_eq!(again.root.id, result.root.id);
}

#[test]
fn create_root_hides_matches_beyond_the_limit() {
    let mut repository = MemoryRepository::default();
    let holder = repository.add("Holder", None);
    for index in 0..55 {
        repository.add(&format!("topic {index}"), Some(holder));
    }
    let result = create_root(&mut repository, "topic").expect("root");
    assert_eq!(result.matches.len(), 50);
    assert_eq!(result.hidden_match_count, 5);
}

#[test]
fn create_root_rejects_multiline_content() {
    let mut repository = MemoryRepository::default();
    let error = create_root(&mut repository, "a\nb").expect_err("multiline");
    assert!(matches!(error, KernelError::Input(_)));
}

#[test]
fn apply_root_link_rewrites_selected_nodes() {
    let mut repository = MemoryRepository::default();
    let holder = repository.add("Holder", None);
    let first = repository.add("Learning Rust today", Some(holder));
    let second = repository.add("Rust and {{1}}", Some(holder));
    let root = create_root(&mut repository, "Rust").expect("root").root.id;

    let result = apply_root_link(&mut repository, root, None, &[first, second]).expect("apply");
    assert_eq!(result.updated_nodes.len(), 2);
    assert_eq!(result.updated_nodes[0].id, first);
    assert_eq!(
        repository.content(first),
        format!("Learning {{{{{}::Rust}}}} today", root.value())
    );
    assert_eq!(
        repository.content(second),
        format!("{{{{{}::Rust}}}} and {{{{1}}}}", root.value())
    );
    assert_eq!(repository.outgoing[&first], vec![root]);
}

#[test]
fn apply_root_link_reports_each_refusal() {
    let mut repository = MemoryRepository::default();
    let holder = repository.add("Holder", None);
    let plain = repository.add("Nothing relevant", Some(holder));
    let root = create_root(&mut repository, "Rust").expect("root").root.id;
    let day = repository
        .create_daily_note_node("2026-03-01")
        .expect("daily note");

    let error = apply_root_link(&mut repository, root, Some(""), &[plain]).expect_err("empty");
    assert!(matches!(error, KernelError::Input(_)));
    let error =
        apply_root_link(&mut repository, root, Some("a\nb"), &[plain]).expect_err("two lines");
    assert!(matches!(error, KernelError::Input(_)));
    let error = apply_root_link(&mut repository, holder, None, &[plain]).expect_err("not root");
    assert!(matches!(error, KernelError::Constraint(_)));
    let error = apply_root_link(&mut repository, id(99), None, &[plain]).expect_err("missing");
    assert!(matches!(error, KernelError::NotFound { .. }));
    let error = apply_root_link(&mut repository, root, None, &[plain]).expect_err("no match");
    assert!(matches!(error, KernelError::Constraint(_)));
    let error = apply_root_link(&mut repository, root, None, &[day]).expect_err("daily note");
    assert!(matches!(error, KernelError::Constraint(_)));
    let error =
        apply_root_link(&mut repository, root, None, &[id(77)]).expect_err("missing target");
    assert!(matches!(error, KernelError::NotFound { .. }));
}

#[test]
fn read_node_context_shows_everything_within_budget() {
    let mut repository = MemoryRepository::default();
    let parent = repository.add("Parent", None);
    let before = repository.add("Before", Some(parent));
    let current = repository.add("Current", Some(parent));
    let after = repository.add("After", Some(parent));
    let child = repository.add("Child", Some(current));
    let source = repository.add("Source {{3}}", Some(parent));
    repository.outgoing.insert(source, vec![current]);

    let view = read_node_context(&repository, current, 10_000).expect("context");
    assert_eq!(view.current.rendered_content, "Current");
    assert_eq!(view.prev_siblings.len(), 1);
    assert_eq!(view.prev_siblings[0].id, before);
    assert_eq!(view.next_siblings.len(), 2);
    assert_eq!(view.next_siblings[0].id, after);
    assert_eq!(view.backlinks.len(), 1);
    assert_eq!(view.backlinks[0].source.rendered_content, "Source {{3::>Current}}");
    assert_eq!(view.children.len(), 1);
    assert_eq!(view.children[0].node.id, child);
    assert_eq!(view.prev_hidden_count, 0);
    assert_eq!(view.next_hidden_count, 0);
    assert_eq!(view.hidden_child_count, 0);
}

#[test]
fn read_node_context_keeps_to_the_soft_limit() {
    let mut repository = MemoryRepository::default();
    let parent = repository.add("Parent", None);
    let long_text = "x".repeat(600);
    let mut siblings = Vec::new();
    for _ in 0..3 {
        siblings.push(repository.add(&long_text, Some(parent)));
    }
    let current = repository.add("Current", Some(parent));
    for _ in 0..3 {
        repository.add(&long_text, Some(parent));
    }
    for _ in 0..4 {
        repository.add(&long_text, Some(current));
    }

    let view = read_node_context(&repository, current, 0).expect("context");
    let line_cost = estimate_tokens(&long_text) + 8;
    let mut used = estimate_tokens("Current") + 8;
    used += line_cost * (view.prev_siblings.len() + view.next_siblings.len());
    used += line_cost * view.children.len();
    assert!(used <= 300);
    assert_eq!(view.prev_siblings.len(), 1);
    assert_eq!(view.prev_siblings[0].id, siblings[2]);
    assert_eq!(view.prev_hidden_count, 2);
    assert_eq!(view.next_siblings.len(), 0);
    assert_eq!(view.next_hidden_count, 3);
    assert_eq!(view.children.len(), 0);
    assert_eq!(view.hidden_child_count, 4);
}

#[test]
fn read_node_context_walks_daily_notes_as_siblings() {
    let mut repository = MemoryRepository::default();
    let first = repository.create_daily_note_node("2026-03-01").expect("day");
    let second = repository.create_daily_note_node("2026-03-02").expect("day");
    let third = repository.create_daily_note_node("2026-03-03").expect("day");

    let view = read_node_context(&repository, second, 1_000).expect("context");
    assert_eq!(view.prev_siblings.len(), 1);
    assert_eq!(view.prev_siblings[0].id, first);
    assert_eq!(view.next_siblings.len(), 1);
    assert_eq!(view.next_siblings[0].id, third);
}

#[test]
fn read_node_context_reports_missing_nodes() {
    let repository = MemoryRepository::default();
    let error = read_node_context(&repository, id(4), 100).expect_err("missing");
    assert!(matches!(error, KernelError::NotFound { .. }));
}

#[test]
fn note_dates_must_be_calendar_dates() {
    assert!(check_note_date("2026-04-11").is_ok());
    assert!(check_note_date("2024-02-29").is_ok());
    assert!(check_note_date("2000-02-29").is_ok());
    let error = check_note_date("2026-99-99").expect_err("invalid");
    assert!(error.message().contains("invalid day date"));
    assert!(check_note_date("2023-02-29").is_err());
    assert!(check_note_date("1900-02-29").is_err());
    assert!(check_note_date("2026-04-31").is_err());
    assert!(check_note_date("2026-4-1").is_err());
    assert!(check_note_date("2026/04/01").is_err());
}

#[test]
fn failed_note_leaves_no_daily_note() {
    let mut repository = MemoryRepository::default();
    let error =
        note_today(&mut repository, "2026-03-01", "See {{Missing}}").expect_err("lookup miss");
    assert_eq!(error.message(), "lookup `Missing` did not match any node");
    assert!(repository.daily.is_empty());
    let day = open_day(&repository, "2026-03-01").expect("day");
    assert!(day.entries.is_empty());
}

fn print_fragments(fragments: &[ContentFragment]) -> String {
    fragments
        .iter()
        .map(|fragment| match fragment {
            ContentFragment::Text(text) => text.clone(),
            ContentFragment::Link(link) => link_to_storage(link),
        })
        .collect()
}

#[test]
fn printing_parsed_content_reads_back_the_same() {
    let content = ContentLine::parse("a {{ 3 }} b {{4::x}} c {{Topic}}").expect("content");
    let fragments = parse_content(&content).expect("parse");
    let printed = print_fragments(&fragments);
    assert_eq!(printed, "a {{3}} b {{4::x}} c {{Topic}}");
    let again = parse_content(&ContentLine::parse(&printed).expect("content")).expect("parse");
    assert_eq!(again.len(), fragments.len());
    assert!(matches!(&again[1], ContentFragment::Link(ParsedLink::ById(link)) if link.value() == 3));
    assert!(matches!(&fragments[1], ContentFragment::Link(ParsedLink::ByNumericToken(link)) if link.value() == 3));
    assert_eq!(again[2], fragments[2]);
    assert_eq!(again[3], fragments[3]);
    assert_eq!(again[5], fragments[5]);
}

#[test]
fn canonical_content_is_stable() {
    let mut repository = MemoryRepository::default();
    let topic = repository.add("Topic", None);
    let content =
        ContentLine::parse("See {{ Topic }} and {{ 1 }} and {{1::x}}").expect("content");
    let first = canonicalize_content(&repository, &content).expect("canonical");
    assert_eq!(first.content.as_str(), "See {{1::Topic}} and {{1}} and {{1::x}}");
    assert_eq!(first.outgoing_links, vec![topic, topic, topic]);
    assert_eq!(first.lookup_key.as_str(), "See {{1::Topic}} and {{1}} and {{1::x}}");
    let second = canonicalize_content(&repository, &first.content).expect("canonical again");
    assert_eq!(second.content.as_str(), first.content.as_str());
    let fragments = parse_content(&second.content).expect("parse");
    assert!(fragments
        .iter()
        .all(|fragment| !matches!(fragment, ContentFragment::Link(ParsedLink::ByLookup(_)))));
}

#[test]
fn canonicalization_reports_lookup_failures() {
    let mut repository = MemoryRepository::default();
    repository.add("Twin", None);
    repository.add("Twin", None);
    let missing = ContentLine::parse("See {{Nobody}}").expect("content");
    assert!(matches!(
        canonicalize_content(&repository, &missing),
        Err(KernelError::LookupMiss(_))
    ));
    let ambiguous = ContentLine::parse("See {{Twin}}").expect("content");
    assert!(matches!(
        canonicalize_content(&repository, &ambiguous),
        Err(KernelError::LookupAmbiguous(_))
    ));
    let broken = ContentLine::parse("See {{1::}}").expect("content");
    assert!(matches!(
        canonicalize_content(&repository, &broken),
        Err(KernelError::Input(_))
    ));
}

#[test]
fn rendered_content_reads_back_with_labelled_links() {
    let mut repository = MemoryRepository::default();
    repository.add("x }} y }", None);
    let content = ContentLine::parse("See {{1}} now").expect("content");
    let rendered = render_storage_content(&repository, &content).expect("render");
    assert_eq!(rendered, "See {{1::>x } } y } }} now");
    let fragments = parse_content(&ContentLine::parse(&rendered).expect("content")).expect("parse");
    assert_eq!(fragments.len(), 3);
    match &fragments[1] {
        ContentFragment::Link(ParsedLink::ByIdWithLabel(link, label)) => {
            assert_eq!(link.value(), 1);
            assert_eq!(label.as_str(), ">x } } y } ");
        }
        other => panic!("unexpected fragment {other:?}"),
    }
}

const TODAY: &str = "2026-04-11";

#[test]
fn cli_note_and_day_show_today_entries() {
    let mut repository = MemoryRepository::default();
    let first = note_today(&mut repository, TODAY, "Check issue 7 scope").expect("note");
    let second = note_today(&mut repository, TODAY, "Design the interaction flow").expect("note");
    let first_id = first.node.id.value();
    let second_id = second.node.id.value();
    assert!(format_note_result(&first).contains(&format!("+[{first_id}] Check issue 7 scope")));

    let day = open_day(&repository, TODAY).expect("day");
    let printed = format_day_view(&day, true, "notes.sqlite3");
    assert!(printed.contains(&format!("-[{first_id}] Check issue 7 scope")));
    assert!(printed.contains(&format!("-[{second_id}] Design the interaction flow")));
}

#[test]
fn cli_empty_today_hint_preserves_selected_database() {
    let repository = MemoryRepository::default();
    let database_path = "/tmp/workspace/notes.sqlite3";
    let day = open_day(&repository, TODAY).expect("day");
    let printed = format_day_view(&day, true, database_path);
    assert!(printed.contains(&format!("database path: {database_path}")));
    assert!(printed.contains("use: memoryroam --db <database-path> note \"...\""));
}

#[test]
fn cli_empty_today_hint_quotes_database_paths_with_spaces() {
    let repository = MemoryRepository::default();
    let database_path = "/tmp/workspace/notes with spaces.sqlite3";
    let day = open_day(&repository, TODAY).expect("day");
    let printed = format_day_view(&day, true, database_path);
    assert!(printed.contains(&format!("database path: {database_path}")));
    assert!(printed.contains("use: memoryroam --db <database-path> note \"...\""));
}

#[test]
fn cli_root_create_and_apply_rewrite_selected_nodes() {
    let mut repository = MemoryRepository::default();
    let first = note_today(
        &mut repository,
        TODAY,
        "Software engineering is an engineering discipline",
    )
    .expect("note");
    let second =
        note_today(&mut repository, TODAY, "Software engineering started in xx year").expect("note");
    let first_id = first.node.id;
    let second_id = second.node.id;

    let root = create_root(&mut repository, "Software engineering").expect("root");
    assert!(format_root_create_result(&root).starts_with("root ["));
    let root_id = root.root.id;

    let applied =
        apply_root_link(&mut repository, root_id, None, &[first_id, second_id]).expect("apply");
    let printed = format_root_apply_result(&applied);
    let (f, s, r) = (first_id.value(), second_id.value(), root_id.value());
    assert!(printed.contains(&format!(
        "-[{f}] {{{{{r}::Software engineering}}}} is an engineering discipline"
    )));
    assert!(printed.contains(&format!(
        "-[{s}] {{{{{r}::Software engineering}}}} started in xx year"
    )));
}

#[test]
fn cli_read_uses_structural_markers_instead_of_field_labels() {
    let mut repository = MemoryRepository::default();
    let first = note_today(&mut repository, TODAY, "Previous sibling").expect("note");
    let current = note_today(&mut repository, TODAY, "Current node").expect("note");
    let next = note_today(&mut repository, TODAY, "Next sibling").expect("note");

    let view = read_node_context(&repository, current.node.id, 5500).expect("read");
    let printed = format_read_context(&view);
    assert!(printed.contains(&format!("-[{}] Previous sibling", first.node.id.value())));
    assert!(printed.contains(&format!("=[{}] Current node", current.node.id.value())));
    assert!(printed.contains(&format!("-[{}] Next sibling", next.node.id.value())));
    assert!(!printed.contains("Content:"));
}

#[test]
fn cli_failed_note_does_not_leave_an_empty_daily_note() {
    let mut repository = MemoryRepository::default();
    let error = note_today(&mut repository, TODAY, "See {{Missing}}").expect_err("lookup miss");
    assert!(error.message().contains("lookup `Missing` did not match any node"));
    let day = open_day(&repository, TODAY).expect("day");
    assert!(format_day_view(&day, true, "notes.sqlite3").contains("empty"));
}

#[test]
fn cli_day_rejects_invalid_dates() {
    let error = check_note_date("2026-99-99").expect_err("not a date");
    assert!(error.message().contains("invalid day date"));
}

#[test]
fn cli_empty_historical_day_does_not_suggest_note_command() {
    let repository = MemoryRepository::default();
    let day = open_day(&repository, "2026-04-11").expect("day");
    let printed = format_day_view(&day, false, "notes.sqlite3");
    assert!(printed.contains("empty"));
    assert!(!printed.contains("use: memoryroam note"));
}

#[test]
fn cli_accepts_text_arguments_that_start_with_a_dash() {
    let mut repository = MemoryRepository::default();
    let noted = note_today(&mut repository, TODAY, "- first item").expect("note");
    assert!(format_note_result(&noted).contains("- first item"));
    let root = create_root(&mut repository, "- topic").expect("root");
    assert!(format_root_create_result(&root).contains("root ["));
}

#[test]
fn daily_note_nodes_are_immutable() {
    let mut repository = MemoryRepository::default();
    let day_node_id = repository.create_daily_note_node(TODAY).expect("daily note");

    let update_error = update_node(&mut repository, day_node_id, "2026-04-12").expect_err("update");
    assert!(matches!(update_error, KernelError::Constraint(_)));
    let alias_error =
        add_aliases(&mut repository, day_node_id, &[String::from("today")]).expect_err("alias");
    assert!(matches!(alias_error, KernelError::Constraint(_)));
    let delete_error =
        delete_node(&mut repository, day_node_id, DeleteMode::Cascade).expect_err("delete");
    assert!(matches!(delete_error, KernelError::Constraint(_)));
}

#[test]
fn node_path_uses_rendered_content() {
    let mut repository = MemoryRepository::default();
    let parent_id = repository.create_daily_note_node(TODAY).expect("daily note");
    assert!(check_placement_kind(Placement::TopLevelLast).is_err());
    let child_id = repository.add("Child {{1}}", Some(parent_id));
    assert_eq!(
        node_path_of(&repository, child_id).expect("path"),
        "2026-04-11 > Child {{1::>2026-04-11}}"
    );
}

#[test]
fn delete_rejects_referenced_node() {
    let mut repository = MemoryRepository::default();
    let root = NewNodeRecord {
        content: ContentLine::parse("Topic").expect("content"),
        lookup_key: LookupKey::new("Topic").expect("key"),
        outgoing_links: Vec::new(),
        aliases: Vec::new(),
    };
    let root_id = repository.create_root_node(&root).expect("root");
    let day_node_id = repository.create_daily_note_node(TODAY).expect("daily note");
    let source = repository.add(&format!("Ref {{{{{}}}}}", root_id.value()), Some(day_node_id));
    let root_node = repository.get_node(root_id).expect("read").expect("root exists");
    let error = plan_cascade_delete(&root_node, true, Some((root_id, source))).expect_err("refused");
    assert!(matches!(error, KernelError::Constraint(_)));
}

#[test]
fn cascade_delete_allows_internal_subtree_references() {
    let mut repository = MemoryRepository::default();
    let root = NewNodeRecord {
        content: ContentLine::parse("Root").expect("content"),
        lookup_key: LookupKey::new("Root").expect("key"),
        outgoing_links: Vec::new(),
        aliases: Vec::new(),
    };
    let root_id = repository.create_root_node(&root).expect("root");
    repository.add("Child {{1}}", Some(root_id));
    let root_node = repository.get_node(root_id).expect("read").expect("root exists");
    assert_eq!(plan_cascade_delete(&root_node, true, None), Ok(CascadeStart::DropRoot));
}

#[test]
fn invalid_day_dates_are_named_in_the_error() {
    let error = check_note_date("2026-02-30").expect_err("February has no 30th");
    assert_eq!(error, KernelError::Input(String::from("invalid day date: 2026-02-30")));
}

//! The repository contracts that storage backends implement.
//!
//! A repository is a state that the read methods report on and the write
//! methods change. The spec functions name parts of that state (the stored
//! nodes, the link targets, aliases, incoming links, daily notes, text
//! matches, root and daily note nodes), so that the same question gets the
//! same answer as long as the repository is not changed. Every method may
//! fail: a read only with a storage error, and a failed write leaves the
//! state as it was. What holds of a successful answer is stated per method.
use vstd::prelude::*;
use crate::text::trim;
use crate::domain::{
    AliasText, ContentLine, DailyNoteRecord, DeleteMode, IncomingLinkRecord, KernelError, KernelResult,
    LookupCandidate, LookupKey, NewNodeRecord, NodeId, NodeUpdateRecord, Placement, StoredNode,
};

verus! {

/// The link targets of `id` after `updates` are applied over `prior`, the
/// targets before: the last update of `id` wins.
pub open spec fn updated_links(
    updates: Seq<NodeUpdateRecord>,
    id: NodeId,
    prior: Seq<NodeId>,
) -> Seq<NodeId>
    decreases updates.len(),
{
    if updates.len() == 0 {
        prior
    } else if updates.last().node_id == id {
        updates.last().outgoing_links@
    } else {
        updated_links(updates.drop_last(), id, prior)
    }
}

/// The stored node `id` after `updates` are applied over `prior`: an
/// existing node takes the content of the last update of it.
pub open spec fn updated_node(
    updates: Seq<NodeUpdateRecord>,
    id: NodeId,
    prior: Option<StoredNode>,
) -> Option<StoredNode>
    decreases updates.len(),
{
    if updates.len() == 0 {
        prior
    } else if updates.last().node_id == id {
        match prior {
            Some(n) => Some(StoredNode { content: updates.last().content, ..n }),
            None => None,
        }
    } else {
        updated_node(updates.drop_last(), id, prior)
    }
}

/// An error of a read: the store failed, holds corrupt data, or lacks
/// something the read needs.
pub open spec fn read_failure(e: KernelError) -> bool {
    e is Storage || e is StorageCorruption || e is NotFound
}

/// An error of the store itself: it failed, or holds corrupt data.
pub open spec fn store_failure(e: KernelError) -> bool {
    e is Storage || e is StorageCorruption
}

/// `r` is the refusal for a missing node `id`, unless the store failed
/// while reading it.
pub open spec fn missing_node<T>(r: KernelResult<T>, id: NodeId) -> bool {
    r matches Err(e) && (e == KernelError::NotFound { entity: "node", id } || store_failure(e))
}

/// `r` is a refusal of kind `k`, unless a read of the store failed first.
pub open spec fn refused_as<T>(r: KernelResult<T>, k: crate::domain::Failure) -> bool {
    r matches Err(e) && (crate::domain::failure_of(e) == k || read_failure(e))
}

/// Some alias has lookup key `key`.
pub open spec fn alias_has_key(aliases: Seq<AliasText>, key: Seq<char>) -> bool {
    exists|i: int|
        0 <= i < aliases.len() && (crate::domain::lookup_key_of((#[trigger] aliases[i])@) matches Ok(
            t,
        ) && t == key)
}

/// Some candidate is for node `id`.
pub open spec fn has_candidate(candidates: Seq<LookupCandidate>, id: NodeId) -> bool {
    exists|i: int| 0 <= i < candidates.len() && (#[trigger] candidates[i]).node_id == id
}

/// Some function of a backend's state that the proofs know nothing of.
///
/// The model functions of `ReadRepository` default to it: a backend written
/// outside Verus cannot define them, and its answers are then tied to an
/// unknown function of its state rather than to a constant.
pub open spec fn unseen<S, A, B>(state: S, arg: A) -> B {
    (choose|f: spec_fn(S, A) -> B| #[trigger] f(state, arg) == f(state, arg))(state, arg)
}

/// `nodes` are the stored nodes with parent `parent`, each once and none
/// left out: for a parent node, its child chain from its first child along
/// the next-sibling links; at the top level, the roots before the others.
pub open spec fn child_chain<R: ReadRepository>(
    repository: &R,
    parent: Option<NodeId>,
    nodes: Seq<StoredNode>,
) -> bool {
    &&& forall|k: int|
        0 <= k < nodes.len() ==> repository.spec_node((#[trigger] nodes[k]).id) == Some(nodes[k])
            && nodes[k].parent_id == parent
    &&& forall|j: int, k: int| 0 <= j < k < nodes.len() ==> nodes[j].id != nodes[k].id
    &&& forall|x: NodeId|
        (#[trigger] repository.spec_node(x) matches Some(n) && n.parent_id == parent) ==> exists|
            k: int,
        | 0 <= k < nodes.len() && nodes[k].id == x
    &&& match parent {
        Some(p) => {
            &&& nodes.len() > 0 ==> (repository.spec_node(p) matches Some(pn) && pn.first_child_id
                == Some(nodes[0].id))
            &&& forall|k: int|
                0 <= k < nodes.len() - 1 ==> (#[trigger] nodes[k]).next_sibling_id == Some(
                    nodes[k + 1].id,
                )
            &&& nodes.len() > 0 ==> nodes.last().next_sibling_id is None
        },
        None => top_level_order(
            nodes,
            repository.spec_root_order(),
            repository.spec_daily_notes(),
        ),
    }
}

/// The top-level nodes: the roots in root order, then the daily notes in
/// date order.
pub open spec fn top_level_order(
    nodes: Seq<StoredNode>,
    roots: Seq<NodeId>,
    days: Seq<DailyNoteRecord>,
) -> bool {
    &&& nodes.len() == roots.len() + days.len()
    &&& forall|k: int| 0 <= k < roots.len() ==> (#[trigger] nodes[k]).id == roots[k]
    &&& forall|k: int|
        0 <= k < days.len() ==> nodes[roots.len() + k].id == (#[trigger] days[k]).node_id
}

/// Read access to stored nodes, links, aliases, root nodes and daily notes.
pub trait ReadRepository {
    /// The stored node with this id, as `get_node` reports it.
    closed spec fn spec_node(&self, node_id: NodeId) -> Option<StoredNode> {
        unseen(self, node_id)
    }

    /// The targets of a node's links, in order of appearance: the link
    /// graph that `list_outgoing_links` reports.
    closed spec fn spec_outgoing(&self, node_id: NodeId) -> Seq<NodeId> {
        unseen(self, node_id)
    }

    /// The aliases that `list_aliases` reports.
    closed spec fn spec_aliases(&self, node_id: NodeId) -> Seq<AliasText> {
        unseen(self, node_id)
    }

    /// The links that point at a node, as `list_incoming_links` reports them.
    closed spec fn spec_incoming(&self, node_id: NodeId) -> Seq<IncomingLinkRecord> {
        unseen(self, node_id)
    }

    /// The node of the daily note of a date, if the date has one.
    closed spec fn spec_daily_note(&self, note_date: Seq<char>) -> Option<NodeId> {
        unseen(self, note_date)
    }

    /// The ordinary nodes whose content holds a text, as
    /// `search_text_matches` reports them.
    closed spec fn spec_text_matches(&self, needle: Seq<char>) -> Seq<StoredNode> {
        unseen(self, needle)
    }

    /// Whether the store's schema is in place, so that its reads and writes
    /// can run.
    closed spec fn spec_initialized(&self) -> bool {
        unseen(self, 0int)
    }

    /// Whether node `x` answers lookups of `key`: a stored node that is no
    /// daily note, whose trimmed content or one of whose aliases has that
    /// key. Views over a store may answer otherwise.
    closed spec fn spec_answers(&self, x: NodeId, key: Seq<char>) -> bool {
        &&& self.spec_node(x) matches Some(n)
        &&& !self.spec_is_daily_note(x)
        &&& (trim(n.content@) == key || alias_has_key(self.spec_aliases(x), key))
    }

    /// The root nodes in root order, as `list_root_nodes` reports them.
    closed spec fn spec_root_order(&self) -> Seq<NodeId> {
        unseen(self, 1int)
    }

    /// The daily notes in date order, as `list_daily_notes` reports them.
    closed spec fn spec_daily_notes(&self) -> Seq<DailyNoteRecord> {
        unseen(self, 2int)
    }

    /// The daily note nodes that `is_daily_note_node` reports.
    closed spec fn spec_is_daily_note(&self, node_id: NodeId) -> bool {
        unseen(self, node_id)
    }

    /// The root nodes that `is_root_node` reports.
    closed spec fn spec_is_root(&self, node_id: NodeId) -> bool {
        unseen(self, node_id)
    }

    /// The node with this id, if there is one. Reading a node fails only
    /// when the store does.
    fn get_node(&self, node_id: NodeId) -> (r: KernelResult<Option<StoredNode>>)
        ensures
            r matches Err(e) ==> store_failure(e),
            r matches Ok(found) ==> found == self.spec_node(node_id),
            r matches Ok(Some(node)) ==> node.id == node_id,
    ;

    /// The children of a node in sibling order, or the top-level nodes for
    /// `None` (roots first): every stored node with that parent, once.
    fn list_children(&self, parent_id: Option<NodeId>) -> (r: KernelResult<Vec<StoredNode>>)
        ensures
            r matches Err(e) ==> read_failure(e),
            r matches Ok(nodes) ==> forall|k: int|
                0 <= k < nodes@.len() ==> self.spec_node((#[trigger] nodes@[k]).id) == Some(
                    nodes@[k],
                ) && nodes@[k].parent_id == parent_id,
            r matches Ok(nodes) ==> forall|j: int, k: int|
                0 <= j < k < nodes@.len() ==> nodes@[j].id != nodes@[k].id,
            r matches Ok(nodes) ==> forall|x: NodeId|
                (#[trigger] self.spec_node(x) matches Some(n) && n.parent_id == parent_id) ==> exists|
                    k: int,
                | 0 <= k < nodes@.len() && nodes@[k].id == x,
            r matches Ok(nodes) ==> match parent_id {
                Some(p) => {
                    &&& nodes@.len() > 0 ==> (self.spec_node(p) matches Some(pn)
                        && pn.first_child_id == Some(nodes@[0].id))
                    &&& forall|k: int|
                        0 <= k < nodes@.len() - 1 ==> (#[trigger] nodes@[k]).next_sibling_id
                            == Some(nodes@[k + 1].id)
                    &&& nodes@.len() > 0 ==> nodes@.last().next_sibling_id is None
                },
                None => top_level_order(nodes@, self.spec_root_order(), self.spec_daily_notes()),
            },
    ;

    /// The targets of a node's links, in order of appearance.
    fn list_outgoing_links(&self, node_id: NodeId) -> (r: KernelResult<Vec<NodeId>>)
        ensures
            r matches Err(e) ==> read_failure(e),
            r matches Ok(ids) ==> ids@ == self.spec_outgoing(node_id),
    ;

    /// The links that point at a node.
    fn list_incoming_links(&self, node_id: NodeId) -> (r: KernelResult<Vec<IncomingLinkRecord>>)
        ensures
            r matches Err(e) ==> read_failure(e),
            r matches Ok(links) ==> links@ == self.spec_incoming(node_id),
    ;

    /// The aliases of a node.
    fn list_aliases(&self, node_id: NodeId) -> (r: KernelResult<Vec<AliasText>>)
        ensures
            r matches Err(e) ==> read_failure(e),
            r matches Ok(aliases) ==> aliases@ == self.spec_aliases(node_id),
    ;

    /// The nodes whose content or an alias has this lookup key: a node is
    /// a candidate exactly when it answers the key.
    fn lookup_candidates(&self, key: &LookupKey) -> (r: KernelResult<Vec<LookupCandidate>>)
        ensures
            r matches Err(e) ==> read_failure(e),
            r matches Ok(v) ==> forall|x: NodeId|
                #[trigger] self.spec_answers(x, key@) <==> has_candidate(v@, x),
    ;

    /// The rendered contents from the top-level ancestor down to the node.
    fn node_path(&self, node_id: NodeId) -> (r: KernelResult<String>)
        ensures
            r matches Err(e) ==> read_failure(e),
    ;

    /// The daily note of a date, if it exists.
    fn find_daily_note(&self, note_date: &str) -> (r: KernelResult<Option<DailyNoteRecord>>)
        ensures
            r matches Err(e) ==> read_failure(e),
            r matches Ok(found) ==> match found {
                Some(record) => self.spec_daily_note(note_date@) == Some(record.node_id),
                None => self.spec_daily_note(note_date@) is None,
            },
    ;

    /// All daily notes, by date.
    fn list_daily_notes(&self) -> (r: KernelResult<Vec<DailyNoteRecord>>)
        ensures
            r matches Err(e) ==> read_failure(e),
            r matches Ok(days) ==> days@ == self.spec_daily_notes(),
    ;

    /// Whether a node is the top-level node of a daily note.
    fn is_daily_note_node(&self, node_id: NodeId) -> (r: KernelResult<bool>)
        ensures
            r matches Err(e) ==> read_failure(e),
            r matches Ok(b) ==> b == self.spec_is_daily_note(node_id),
    ;

    /// Whether a node is a root node.
    fn is_root_node(&self, node_id: NodeId) -> (r: KernelResult<bool>)
        ensures
            r matches Err(e) ==> read_failure(e),
            r matches Ok(b) ==> b == self.spec_is_root(node_id),
    ;

    /// All root nodes, in root order: stored roots, every stored root among
    /// them.
    fn list_root_nodes(&self) -> (r: KernelResult<Vec<StoredNode>>)
        ensures
            r matches Err(e) ==> read_failure(e),
            r matches Ok(roots) ==> forall|k: int|
                0 <= k < roots@.len() ==> self.spec_node((#[trigger] roots@[k]).id) == Some(
                    roots@[k],
                ) && self.spec_is_root(roots@[k].id),
            r matches Ok(roots) ==> forall|x: NodeId|
                #[trigger] self.spec_is_root(x) && self.spec_node(x) is Some ==> exists|k: int|
                    0 <= k < roots@.len() && roots@[k].id == x,
            r matches Ok(roots) ==> roots@.len() == self.spec_root_order().len() && forall|k: int|
                0 <= k < roots@.len() ==> (#[trigger] roots@[k]).id == self.spec_root_order()[k],
    ;

    /// The root node whose trimmed content equals the trimmed `content`.
    fn find_root_node_by_content(&self, content: &ContentLine) -> (r: KernelResult<
        Option<StoredNode>,
    >)
        ensures
            r matches Err(e) ==> read_failure(e),
            r matches Ok(Some(n)) ==> self.spec_node(n.id) == Some(n) && self.spec_is_root(n.id)
                && trim(n.content@) == trim(content@),
            r matches Ok(None) ==> forall|x: NodeId|
                #[trigger] self.spec_is_root(x) && self.spec_node(x) is Some ==> trim(
                    self.spec_node(x)->0.content@,
                ) != trim(content@),
    ;

    /// Ordinary nodes (no roots, no daily notes) whose content holds `needle`.
    fn search_text_matches(&self, needle: &str) -> (r: KernelResult<Vec<StoredNode>>)
        ensures
            r matches Err(e) ==> read_failure(e),
            r matches Ok(nodes) ==> nodes@ == self.spec_text_matches(needle@),
    ;
}

/// `x` is a stored node below `ancestor`, which its parent reaches by at
/// most `depth` steps up the parent links.
pub open spec fn below_within<R: ReadRepository + ?Sized>(
    repository: &R,
    x: NodeId,
    ancestor: NodeId,
    depth: nat,
) -> bool
    decreases depth,
{
    repository.spec_node(x) matches Some(n) && match n.parent_id {
        Some(p) => p == ancestor || (depth > 0 && below_within(
            repository,
            p,
            ancestor,
            (depth - 1) as nat,
        )),
        None => false,
    }
}

/// `x` is a stored node in the subtree under `ancestor`.
pub open spec fn below<R: ReadRepository + ?Sized>(repository: &R, x: NodeId, ancestor: NodeId) -> bool {
    exists|depth: nat| #[trigger] below_within(repository, x, ancestor, depth)
}

/// Two states of a store that answer every question alike.
pub open spec fn same_store<R: ReadRepository + ?Sized>(a: &R, b: &R) -> bool {
    &&& forall|x: NodeId| #[trigger] a.spec_node(x) == b.spec_node(x)
    &&& forall|x: NodeId| #[trigger] a.spec_outgoing(x) == b.spec_outgoing(x)
    &&& forall|x: NodeId| #[trigger] a.spec_aliases(x) == b.spec_aliases(x)
    &&& forall|x: NodeId| #[trigger] a.spec_incoming(x) == b.spec_incoming(x)
    &&& forall|x: NodeId| #[trigger] a.spec_is_root(x) == b.spec_is_root(x)
    &&& forall|x: NodeId| #[trigger] a.spec_is_daily_note(x) == b.spec_is_daily_note(x)
    &&& forall|d: Seq<char>| #[trigger] a.spec_daily_note(d) == b.spec_daily_note(d)
    &&& forall|d: Seq<char>| #[trigger] a.spec_text_matches(d) == b.spec_text_matches(d)
    &&& a.spec_initialized() == b.spec_initialized()
    &&& a.spec_root_order() == b.spec_root_order()
    &&& a.spec_daily_notes() == b.spec_daily_notes()
}

/// The texts of some content lines.
pub open spec fn line_texts(lines: Seq<ContentLine>) -> Seq<Seq<char>> {
    lines.map_values(|l: ContentLine| l@)
}

/// The texts of some aliases.
pub open spec fn alias_texts(aliases: Seq<AliasText>) -> Seq<Seq<char>> {
    aliases.map_values(|a: AliasText| a@)
}

/// The parent a placement puts nodes under, in store `s`: none at the top
/// level, the target for a child placement, the target's parent beside it.
pub open spec fn placement_parent<R: ReadRepository + ?Sized>(s: &R, placement: Placement) -> Option<NodeId> {
    match placement {
        Placement::TopLevelFirst | Placement::TopLevelLast => None,
        Placement::FirstChildOf(p) | Placement::LastChildOf(p) => Some(p),
        Placement::Before(t) | Placement::After(t) => match s.spec_node(t) {
            Some(n) => n.parent_id,
            None => None,
        },
    }
}

/// In `after`, the new nodes `ids` form one sibling chain in order; placed
/// as the last (first) children of a node, the chain follows (precedes) the
/// children that node had in `before`.
pub open spec fn placed_chain<R: ReadRepository + ?Sized>(
    before: &R,
    after: &R,
    placement: Placement,
    ids: Seq<NodeId>,
) -> bool {
    &&& forall|k: int|
        0 <= k < ids.len() - 1 ==> (after.spec_node(#[trigger] ids[k]) matches Some(n)
            && n.next_sibling_id == Some(ids[k + 1]))
    &&& forall|k: int|
        0 < k < ids.len() ==> (after.spec_node(#[trigger] ids[k]) matches Some(n)
            && n.prev_sibling_id == Some(ids[k - 1]))
    &&& match placement {
        Placement::LastChildOf(p) => ids.len() > 0 ==> {
            &&& (after.spec_node(p) matches Some(pn) && pn.last_child_id == Some(ids.last()))
            &&& (after.spec_node(ids.last()) matches Some(n) && n.next_sibling_id is None)
            &&& (after.spec_node(ids[0]) matches Some(n) && n.prev_sibling_id == match before.spec_node(p) {
                Some(pn) => pn.last_child_id,
                None => None,
            })
        },
        Placement::FirstChildOf(p) => ids.len() > 0 ==> {
            &&& (after.spec_node(p) matches Some(pn) && pn.first_child_id == Some(ids[0]))
            &&& (after.spec_node(ids[0]) matches Some(n) && n.prev_sibling_id is None)
            &&& (after.spec_node(ids.last()) matches Some(n) && n.next_sibling_id == match before.spec_node(p) {
                Some(pn) => pn.first_child_id,
                None => None,
            })
        },
        _ => true,
    }
}

/// The nodes a batch create made before its `k`-th line, each under the
/// lookup key of the text it holds in `after`, and the first of them also
/// under the key of each alias text.
pub open spec fn created_keys<R: ReadRepository + ?Sized>(
    after: &R,
    ids: Seq<NodeId>,
    aliases: Seq<Seq<char>>,
    k: int,
) -> Seq<(NodeId, Seq<char>)> {
    Seq::new(k as nat, |j: int| (ids[j], trim(after.spec_node(ids[j])->0.content@))) + if k > 0 {
        aliases.map_values(|a: Seq<char>| (ids[0], crate::domain::lookup_key_of(a)->Ok_0))
    } else {
        Seq::empty()
    }
}

/// Node `x` answers lookups of `key` during a batch create: when nodes the
/// batch created are under the key, those nodes; otherwise as in
/// `repository`.
pub open spec fn answers_in_batch<R: ReadRepository + ?Sized>(
    repository: &R,
    created: Seq<(NodeId, Seq<char>)>,
    x: NodeId,
    key: Seq<char>,
) -> bool {
    if exists|j: int| 0 <= j < created.len() && (#[trigger] created[j]).1 == key {
        exists|j: int| 0 <= j < created.len() && #[trigger] created[j] == (x, key)
    } else {
        repository.spec_answers(x, key)
    }
}

/// Each lookup link is bound to the only node that answers its key during a
/// batch create that made `created`.
pub open spec fn bound_in_batch<R: ReadRepository + ?Sized>(
    repository: &R,
    created: Seq<(NodeId, Seq<char>)>,
    links: Seq<crate::syntax::LinkSpec>,
    ids: Seq<NodeId>,
) -> bool {
    forall|n: int|
        0 <= n < links.len() ==> match #[trigger] links[n] {
            crate::syntax::LinkSpec::ByLookup(k) => n < ids.len() && answers_in_batch(
                repository,
                created,
                ids[n],
                k,
            ) && forall|y: NodeId|
                #[trigger] answers_in_batch(repository, created, y, k) ==> y == ids[n],
            _ => true,
        }
}

/// The lines `texts` of a batch create, made into the nodes `ids`, have
/// their lookups bound as a batch create binds them, each line after the
/// nodes of the lines before it.
pub open spec fn lines_bound_in_batch<R: ReadRepository + ?Sized>(
    before: &R,
    after: &R,
    texts: Seq<Seq<char>>,
    ids: Seq<NodeId>,
    aliases: Seq<Seq<char>>,
) -> bool {
    forall|k: int|
        0 <= k < ids.len() ==> crate::syntax::parse_spec(texts[k]) is Ok && bound_in_batch(
            before,
            created_keys(after, ids, aliases, k),
            crate::syntax::links_of(crate::syntax::parse_spec(texts[k])->Ok_0),
            after.spec_outgoing(#[trigger] ids[k]),
        )
}

/// Write access; every write is atomic at the repository boundary: a
/// write that fails leaves the store as it was.
pub trait WriteRepository: ReadRepository {
    /// Prepares the storage schema; a store whose schema is in place is
    /// left as it is.
    fn init_schema(&mut self) -> (r: KernelResult<()>)
        ensures
            r is Err ==> same_store(final(self), old(self)),
            r is Ok ==> final(self).spec_initialized(),
            r is Ok && old(self).spec_initialized() ==> same_store(final(self), old(self)),
    ;

    /// Creates one node per line, in order, resolving lookups of later lines
    /// against earlier ones: a key that nodes made before a line answer (by
    /// their text, or the first node by an alias) is bound among those
    /// nodes, any other key as in the store before. The first node gets the
    /// aliases. Each new node holds the canonical form of its line and
    /// stands under the placement's parent, the nodes in line order as one
    /// sibling chain.
    fn create_nodes_from_lines(
        &mut self,
        placement: Placement,
        lines: &[ContentLine],
        aliases: &[AliasText],
    ) -> (r: KernelResult<Vec<NodeId>>)
        ensures
            r is Err ==> same_store(final(self), old(self)),
            r matches Ok(ids) ==> ids@.len() == lines@.len(),
            r matches Ok(ids) ==> forall|j: int, k: int|
                0 <= j < k < ids@.len() ==> ids@[j] != ids@[k],
            r matches Ok(ids) ==> forall|k: int|
                0 <= k < ids@.len() ==> {
                    &&& old(self).spec_node(#[trigger] ids@[k]) is None
                    &&& final(self).spec_node(ids@[k]) matches Some(n)
                    &&& n.id == ids@[k]
                    &&& n.parent_id == placement_parent(old(self), placement)
                    &&& crate::write::canonical_update(
                        lines@[k]@,
                        false,
                        n.content@,
                        final(self).spec_outgoing(ids@[k]),
                    )
                },
            r matches Ok(ids) ==> forall|t: Seq<char>|
                alias_texts(aliases@).contains(t) ==> alias_texts(
                    final(self).spec_aliases(ids@[0]),
                ).contains(t),
            r matches Ok(ids) ==> placed_chain(old(self), final(self), placement, ids@),
            r matches Ok(ids) ==> lines_bound_in_batch(
                old(self),
                final(self),
                line_texts(lines@),
                ids@,
                alias_texts(aliases@),
            ),
    ;

    /// Creates the nodes as one sibling chain at `placement`, in order, each
    /// with its record's content and links; a chain placed as the last
    /// (first) children of a node follows (precedes) its old children.
    /// Daily notes stay as they were.
    fn create_nodes(&mut self, placement: Placement, nodes: &[NewNodeRecord]) -> (r: KernelResult<
        Vec<NodeId>,
    >)
        ensures
            r is Err ==> same_store(final(self), old(self)),
            r matches Ok(ids) ==> ids@.len() == nodes@.len(),
            r matches Ok(ids) ==> forall|k: int|
                0 <= k < ids@.len() ==> {
                    &&& old(self).spec_node(#[trigger] ids@[k]) is None
                    &&& final(self).spec_node(ids@[k]) matches Some(n)
                    &&& n.parent_id == placement_parent(old(self), placement)
                    &&& n.content == nodes@[k].content
                    &&& final(self).spec_outgoing(ids@[k]) == nodes@[k].outgoing_links@
                },
            r matches Ok(ids) ==> placed_chain(old(self), final(self), placement, ids@),
            r is Ok ==> forall|d: Seq<char>|
                #[trigger] final(self).spec_daily_note(d) == old(self).spec_daily_note(d),
    ;

    /// Replaces the content and the links of existing nodes; the links of
    /// other nodes stay as they were.
    fn update_node_contents(&mut self, updates: &[NodeUpdateRecord]) -> (r: KernelResult<()>)
        ensures
            r is Err ==> same_store(final(self), old(self)),
            r is Ok ==> forall|id: NodeId|
                #[trigger] final(self).spec_outgoing(id) == updated_links(
                    updates@,
                    id,
                    old(self).spec_outgoing(id),
                ),
            r is Ok ==> forall|id: NodeId|
                #[trigger] final(self).spec_node(id) == updated_node(
                    updates@,
                    id,
                    old(self).spec_node(id),
                ),
            r is Ok ==> forall|id: NodeId|
                #[trigger] final(self).spec_is_root(id) == old(self).spec_is_root(id),
    ;

    /// Moves a node to `placement`; no node is created or removed.
    fn move_node(&mut self, node_id: NodeId, placement: Placement) -> (r: KernelResult<()>)
        ensures
            r is Err ==> same_store(final(self), old(self)),
            r is Ok ==> (final(self).spec_node(node_id) matches Some(n) && n.parent_id
                == placement_parent(old(self), placement)),
            r is Ok && placement is FirstChildOf ==> (final(self).spec_node(node_id) matches Some(
                n,
            ) && n.prev_sibling_id is None),
            r is Ok && placement is LastChildOf ==> (final(self).spec_node(node_id) matches Some(
                n,
            ) && n.next_sibling_id is None),
            r is Ok ==> match placement {
                Placement::Before(t) => (old(self).spec_node(t) matches Some(tn) && tn.parent_id is Some)
                    ==> (final(self).spec_node(node_id) matches Some(n) && n.next_sibling_id == Some(t)),
                Placement::After(t) => (old(self).spec_node(t) matches Some(tn) && tn.parent_id is Some)
                    ==> (final(self).spec_node(node_id) matches Some(n) && n.prev_sibling_id == Some(t)),
                _ => true,
            },
            r is Ok ==> forall|x: NodeId|
                (#[trigger] final(self).spec_node(x) is Some) == (old(self).spec_node(x) is Some),
    ;

    /// Deletes a node. `Cascade` removes its whole subtree with it;
    /// `Reparent` keeps its children, under the placement's parent.
    fn delete_node(&mut self, node_id: NodeId, mode: DeleteMode) -> (r: KernelResult<()>)
        ensures
            r is Err ==> same_store(final(self), old(self)),
            r is Ok ==> final(self).spec_node(node_id) is None,
            r is Ok && mode is Cascade ==> forall|x: NodeId|
                #[trigger] below(old(self), x, node_id) ==> final(self).spec_node(x) is None,
            r is Ok ==> match mode {
                DeleteMode::Reparent(p) => forall|x: NodeId|
                    (#[trigger] old(self).spec_node(x) matches Some(n) && n.parent_id == Some(
                        node_id,
                    )) ==> (final(self).spec_node(x) matches Some(m) && m.parent_id
                        == placement_parent(old(self), p)),
                DeleteMode::Cascade => true,
            },
    ;

    /// Adds aliases to a node: afterwards it has its old aliases and these.
    fn add_aliases(&mut self, node_id: NodeId, aliases: &[AliasText]) -> (r: KernelResult<()>)
        ensures
            r is Err ==> same_store(final(self), old(self)),
            r is Ok ==> forall|t: Seq<char>|
                #[trigger] alias_texts(final(self).spec_aliases(node_id)).contains(t) <==> (
                alias_texts(old(self).spec_aliases(node_id)).contains(t) || alias_texts(
                    aliases@,
                ).contains(t)),
    ;

    /// Removes the aliases of a node that have the alias's lookup key.
    fn remove_alias(&mut self, node_id: NodeId, alias: &AliasText) -> (r: KernelResult<()>)
        ensures
            r is Err ==> same_store(final(self), old(self)),
            r is Ok ==> forall|t: Seq<char>|
                #[trigger] alias_texts(final(self).spec_aliases(node_id)).contains(t) <==> (
                alias_texts(old(self).spec_aliases(node_id)).contains(t) && crate::domain::lookup_key_of(t)
                    != crate::domain::lookup_key_of(alias@)),
    ;

    /// Creates a top-level root node with the record's content.
    fn create_root_node(&mut self, node: &NewNodeRecord) -> (r: KernelResult<NodeId>)
        ensures
            r is Err ==> same_store(final(self), old(self)),
            r matches Ok(id) ==> final(self).spec_is_root(id) && final(self).spec_node(id) is Some
                && final(self).spec_node(id)->0.content == node.content,
            r matches Ok(id) ==> old(self).spec_node(id) is None && final(self).spec_node(id)->0.parent_id
                is None,
    ;

    /// Creates the top-level node of a daily note, with no children yet.
    fn create_daily_note_node(&mut self, note_date: &str) -> (r: KernelResult<NodeId>)
        ensures
            r is Err ==> same_store(final(self), old(self)),
            r matches Ok(id) ==> {
                &&& old(self).spec_node(id) is None
                &&& final(self).spec_node(id) matches Some(n)
                &&& n.parent_id is None
                &&& n.first_child_id is None
                &&& n.last_child_id is None
                &&& final(self).spec_daily_note(note_date@) == Some(id)
                &&& final(self).spec_is_daily_note(id)
            },
    ;
}

} // verus!

//! Lookups during a batch create: the nodes created so far in the batch
//! answer the lookups of their content and alias keys before anything else,
//! so a later line can link to an earlier one by its text.
use vstd::prelude::*;
use crate::domain::{
    clone_ids, lookup_key_of, message_with_id, AliasText, ContentLine, DailyNoteRecord, IncomingLinkRecord,
    KernelError, KernelResult, LookupCandidate, LookupKey, NodeId, StoredNode,
};
use crate::repository::{has_candidate, read_failure, ReadRepository};
use crate::text::trim;

verus! {

/// The nodes created so far in a batch, under each lookup key they answer,
/// in creation order.
pub struct BatchLookups {
    entries: Vec<(LookupKey, Vec<NodeId>)>,
}

/// The ids recorded under `key` in `entries`, when there are any.
pub open spec fn recorded(entries: Seq<(LookupKey, Vec<NodeId>)>, key: Seq<char>) -> Option<
    Seq<NodeId>,
>
    decreases entries.len(),
{
    if entries.len() == 0 {
        None
    } else if entries.last().0@ == key {
        Some(entries.last().1@)
    } else {
        recorded(entries.drop_last(), key)
    }
}

proof fn lemma_recorded_update(
    entries: Seq<(LookupKey, Vec<NodeId>)>,
    i: int,
    item: (LookupKey, Vec<NodeId>),
    key: Seq<char>,
)
    requires
        0 <= i < entries.len(),
        item.0@ == entries[i].0@,
        forall|j: int| 0 <= j < entries.len() && j != i ==> (#[trigger] entries[j]).0@ != entries[i].0@,
    ensures
        recorded(entries.update(i, item), key) == (if key == item.0@ {
            Some(item.1@)
        } else {
            recorded(entries, key)
        }),
    decreases entries.len(),
{
    let u = entries.update(i, item);
    if i == entries.len() - 1 {
        assert(u.drop_last() =~= entries.drop_last());
    } else {
        assert(u.drop_last() =~= entries.drop_last().update(i, item));
        assert forall|j: int|
            0 <= j < entries.drop_last().len() && j != i implies (#[trigger] entries.drop_last()[j]).0@
            != entries.drop_last()[i].0@ by {
            assert(entries.drop_last()[j] == entries[j]);
        }
        lemma_recorded_update(entries.drop_last(), i, item, key);
        if key == item.0@ {
            assert(entries.last().0@ != entries[i].0@);
        }
    }
}

proof fn lemma_recorded_absent(entries: Seq<(LookupKey, Vec<NodeId>)>, key: Seq<char>)
    requires
        forall|j: int| 0 <= j < entries.len() ==> (#[trigger] entries[j]).0@ != key,
    ensures
        recorded(entries, key) is None,
    decreases entries.len(),
{
    if entries.len() > 0 {
        assert forall|j: int| 0 <= j < entries.drop_last().len() implies (
        #[trigger] entries.drop_last()[j]).0@ != key by {
            assert(entries.drop_last()[j] == entries[j]);
        }
        lemma_recorded_absent(entries.drop_last(), key);
    }
}

proof fn lemma_recorded_found(entries: Seq<(LookupKey, Vec<NodeId>)>, i: int)
    requires
        0 <= i < entries.len(),
        forall|j: int| 0 <= j < entries.len() && j != i ==> (#[trigger] entries[j]).0@ != entries[i].0@,
    ensures
        recorded(entries, entries[i].0@) == Some(entries[i].1@),
    decreases entries.len(),
{
    if i < entries.len() - 1 {
        assert forall|j: int|
            0 <= j < entries.drop_last().len() && j != i implies (#[trigger] entries.drop_last()[j]).0@
            != entries.drop_last()[i].0@ by {
            assert(entries.drop_last()[j] == entries[j]);
        }
        lemma_recorded_found(entries.drop_last(), i);
    }
}

/// No key appears twice.
pub open spec fn distinct_keys(entries: Seq<(LookupKey, Vec<NodeId>)>) -> bool {
    forall|i: int, j: int|
        0 <= i < j < entries.len() ==> (#[trigger] entries[i]).0@ != (#[trigger] entries[j]).0@
}

/// Appends `node_id` to the ids of `key`.
fn record_in(entries: &mut Vec<(LookupKey, Vec<NodeId>)>, key: LookupKey, node_id: NodeId)
    requires
        distinct_keys(old(entries)@),
    ensures
        distinct_keys(final(entries)@),
        recorded(final(entries)@, key@) == Some(
            match recorded(old(entries)@, key@) {
                Some(ids) => ids,
                None => Seq::<NodeId>::empty(),
            }.push(node_id),
        ),
        forall|other: Seq<char>|
            other != key@ ==> #[trigger] recorded(final(entries)@, other) == recorded(
                old(entries)@,
                other,
            ),
{
    let mut k: usize = 0;
    while k < entries.len()
        invariant
            k <= entries@.len(),
            distinct_keys(entries@),
            *entries == *old(entries),
            forall|j: int| 0 <= j < k ==> (#[trigger] entries@[j]).0@ != key@,
        decreases entries.len() - k,
    {
        if entries[k].0.same(&key) {
            let ghost before = entries@;
            proof {
                assert forall|j: int| 0 <= j < before.len() && j != k implies (
                #[trigger] before[j]).0@ != before[k as int].0@ by {
                    if j < k {
                        assert(before[j].0@ != before[k as int].0@);
                    } else {
                        assert(before[k as int].0@ != before[j].0@);
                    }
                }
                lemma_recorded_found(before, k as int);
            }
            let (entry_key, mut ids) = entries.remove(k);
            ids.push(node_id);
            let item = (entry_key, ids);
            entries.insert(k, item);
            proof {
                assert(entries@ =~= before.update(k as int, item));
                assert(item.1@ == before[k as int].1@.push(node_id));
                assert forall|other: Seq<char>| #[trigger] recorded(entries@, other) == (
                if other == item.0@ {
                    Some(item.1@)
                } else {
                    recorded(before, other)
                }) by {
                    lemma_recorded_update(before, k as int, item, other);
                }
                assert forall|i: int, j: int| 0 <= i < j < entries@.len() implies (
                #[trigger] entries@[i]).0@ != (#[trigger] entries@[j]).0@ by {
                    assert(entries@[i].0@ == before[i].0@);
                    assert(entries@[j].0@ == before[j].0@);
                }
            }
            return;
        }
        k = k + 1;
    }
    let ghost before = entries@;
    proof {
        lemma_recorded_absent(before, key@);
    }
    let mut ids: Vec<NodeId> = Vec::new();
    ids.push(node_id);
    entries.push((key, ids));
    proof {
        assert(entries@.drop_last() =~= before);
        assert forall|other: Seq<char>| other != key@ implies #[trigger] recorded(entries@, other)
            == recorded(before, other) by {}
        assert forall|i: int, j: int| 0 <= i < j < entries@.len() implies (
        #[trigger] entries@[i]).0@ != (#[trigger] entries@[j]).0@ by {
            assert(entries@[i] == before[i]);
            if j < before.len() {
                assert(entries@[j] == before[j]);
            }
        }
        assert(Seq::<NodeId>::empty().push(node_id) =~= ids@);
    }
}

impl BatchLookups {
    #[verifier::type_invariant]
    spec fn well_formed(self) -> bool {
        distinct_keys(self.entries@)
    }

    /// The ids recorded under `key`, in creation order.
    pub closed spec fn ids_for(&self, key: Seq<char>) -> Option<Seq<NodeId>> {
        recorded(self.entries@, key)
    }

    /// Nothing recorded yet.
    pub fn new() -> (r: BatchLookups)
        ensures
            forall|key: Seq<char>| #[trigger] r.ids_for(key) is None,
    {
        BatchLookups { entries: Vec::new() }
    }

    /// Records that `node_id` answers lookups of `key`, after the nodes
    /// recorded before it.
    pub fn record(&mut self, key: LookupKey, node_id: NodeId)
        ensures
            final(self).ids_for(key@) == Some(
                match old(self).ids_for(key@) {
                    Some(ids) => ids,
                    None => Seq::<NodeId>::empty(),
                }.push(node_id),
            ),
            forall|other: Seq<char>|
                other != key@ ==> #[trigger] final(self).ids_for(other) == old(self).ids_for(other),
    {
        proof {
            use_type_invariant(&*self);
        }
        let mut entries: Vec<(LookupKey, Vec<NodeId>)> = Vec::new();
        std::mem::swap(&mut entries, &mut self.entries);
        record_in(&mut entries, key, node_id);
        self.entries = entries;
    }

    /// The nodes of the batch that answer lookups of `key`, if any.
    pub fn preferred(&self, key: &LookupKey) -> (r: Option<Vec<NodeId>>)
        ensures
            match (r, self.ids_for(key@)) {
                (Some(v), Some(ids)) => v@ == ids,
                (None, None) => true,
                _ => false,
            },
    {
        proof {
            use_type_invariant(self);
        }
        let mut k: usize = 0;
        while k < self.entries.len()
            invariant
                k <= self.entries@.len(),
                distinct_keys(self.entries@),
                forall|j: int| 0 <= j < k ==> (#[trigger] self.entries@[j]).0@ != key@,
            decreases self.entries.len() - k,
        {
            if self.entries[k].0.same(key) {
                proof {
                    assert forall|j: int| 0 <= j < self.entries@.len() && j != k implies (
                    #[trigger] self.entries@[j]).0@ != self.entries@[k as int].0@ by {
                        if j < k {
                            assert(self.entries@[j].0@ != key@);
                        } else {
                            assert(self.entries@[k as int].0@ != self.entries@[j].0@);
                        }
                    }
                    lemma_recorded_found(self.entries@, k as int);
                }
                return Some(clone_ids(&self.entries[k].1));
            }
            k = k + 1;
        }
        proof {
            lemma_recorded_absent(self.entries@, key@);
        }
        None
    }

    /// Records a node created in the batch under the key of its content
    /// and then under the key of each alias, in order; an alias without a
    /// lookup key is refused as input.
    pub fn record_created(&mut self, node_id: NodeId, content: &ContentLine, aliases: &[AliasText]) -> (r:
        KernelResult<()>)
        ensures
            r is Ok <==> forall|i: int| 0 <= i < aliases@.len() ==> lookup_key_of((#[trigger] aliases@[i])@) is Ok,
            r is Err ==> r matches Err(KernelError::Input(_)),
            r is Ok ==> forall|key: Seq<char>|
                #[trigger] final(self).ids_for(key) == recorded_after(
                    old(self).ids_for(key),
                    key,
                    node_id,
                    trim(content@),
                    aliases@,
                ),
    {
        let content_key = LookupKey::from_content(content);
        self.record(content_key, node_id);
        proof {
            assert forall|key: Seq<char>| #[trigger] self.ids_for(key) == added_under(
                old(self).ids_for(key),
                key,
                node_id,
                trim(content@),
            ) by {}
        }
        let mut k: usize = 0;
        while k < aliases.len()
            invariant
                k <= aliases@.len(),
                forall|i: int| 0 <= i < k ==> lookup_key_of((#[trigger] aliases@[i])@) is Ok,
                forall|key: Seq<char>|
                    #[trigger] self.ids_for(key) == recorded_after(
                        old(self).ids_for(key),
                        key,
                        node_id,
                        trim(content@),
                        aliases@.take(k as int),
                    ),
            decreases aliases.len() - k,
        {
            let key = match LookupKey::from_alias(&aliases[k]) {
                Ok(key) => key,
                Err(e) => {
                    return Err(KernelError::Input(e.message()));
                },
            };
            self.record(key, node_id);
            proof {
                assert(aliases@.take(k + 1).drop_last() =~= aliases@.take(k as int));
                assert(aliases@.take(k + 1).last() == aliases@[k as int]);
            }
            k = k + 1;
        }
        assert(aliases@.take(k as int) =~= aliases@);
        Ok(())
    }
}

/// `ids` with `node_id` added when `key` is `under`.
pub open spec fn added_under(
    ids: Option<Seq<NodeId>>,
    key: Seq<char>,
    node_id: NodeId,
    under: Seq<char>,
) -> Option<Seq<NodeId>> {
    if key == under {
        Some(
            match ids {
                Some(s) => s,
                None => Seq::<NodeId>::empty(),
            }.push(node_id),
        )
    } else {
        ids
    }
}

/// The ids under `key` once a node is recorded under its content key and
/// then under the key of each alias.
pub open spec fn recorded_after(
    ids: Option<Seq<NodeId>>,
    key: Seq<char>,
    node_id: NodeId,
    content_key: Seq<char>,
    aliases: Seq<AliasText>,
) -> Option<Seq<NodeId>>
    decreases aliases.len(),
{
    if aliases.len() == 0 {
        added_under(ids, key, node_id, content_key)
    } else {
        added_under(
            recorded_after(ids, key, node_id, content_key, aliases.drop_last()),
            key,
            node_id,
            lookup_key_of(aliases.last()@)->Ok_0,
        )
    }
}

/// A repository view during a batch create: lookups of a key that nodes
/// of the batch answer see those nodes, in creation order; everything else
/// reads the base repository.
pub struct BatchCreateRepository<'a, R> {
    pub base: &'a R,
    pub preferred: &'a BatchLookups,
}

impl<'a, R: ReadRepository> BatchCreateRepository<'a, R> {
    /// The candidates for the batch nodes `ids`: each stored node with its
    /// path.
    fn candidates_for(&self, ids: &Vec<NodeId>) -> (r: KernelResult<Vec<LookupCandidate>>)
        ensures
            r matches Ok(v) ==> v@.len() == ids@.len() && forall|i: int|
                0 <= i < ids@.len() ==> (#[trigger] v@[i]).node_id == ids@[i] && (
                self.base.spec_node(ids@[i]) matches Some(n) && v@[i].content == n.content),
            (exists|i: int| 0 <= i < ids@.len() && self.base.spec_node(#[trigger] ids@[i]) is None)
                ==> r is Err,
            ids@.len() == 0 ==> (r matches Ok(v) && v@.len() == 0),
            r matches Err(e) ==> read_failure(e),
    {
        let mut candidates: Vec<LookupCandidate> = Vec::new();
        let mut k: usize = 0;
        while k < ids.len()
            invariant
                k <= ids@.len(),
                candidates@.len() == k,
                forall|i: int|
                    0 <= i < k ==> (#[trigger] candidates@[i]).node_id == ids@[i] && (
                    self.base.spec_node(ids@[i]) matches Some(n) && candidates@[i].content
                        == n.content),
            decreases ids.len() - k,
        {
            let node_id = ids[k];
            let node = match self.base.get_node(node_id) {
                Ok(Some(n)) => n,
                Ok(None) => {
                    return Err(
                        KernelError::StorageCorruption(
                            message_with_id("missing batch-created node ", node_id, ""),
                        ),
                    );
                },
                Err(e) => {
                    return Err(e);
                },
            };
            let path = match self.base.node_path(node_id) {
                Ok(p) => p,
                Err(e) => {
                    return Err(e);
                },
            };
            let ghost before = candidates@;
            candidates.push(LookupCandidate { node_id, content: node.content, path });
            proof {
                assert forall|i: int| 0 <= i < k + 1 implies (#[trigger] candidates@[i]).node_id
                    == ids@[i] && (self.base.spec_node(ids@[i]) matches Some(n)
                    && candidates@[i].content == n.content) by {
                    if i < k {
                        assert(candidates@[i] == before[i]);
                    }
                }
            }
            k = k + 1;
        }
        assert forall|i: int| 0 <= i < ids@.len() implies self.base.spec_node(
            #[trigger] ids@[i],
        ) is Some by {
            assert(candidates@[i].node_id == ids@[i]);
        }
        Ok(candidates)
    }
}

impl<'a, R: ReadRepository> ReadRepository for BatchCreateRepository<'a, R> {
    closed spec fn spec_node(&self, node_id: NodeId) -> Option<StoredNode> {
        self.base.spec_node(node_id)
    }

    closed spec fn spec_outgoing(&self, node_id: NodeId) -> Seq<NodeId> {
        self.base.spec_outgoing(node_id)
    }

    closed spec fn spec_aliases(&self, node_id: NodeId) -> Seq<AliasText> {
        self.base.spec_aliases(node_id)
    }

    closed spec fn spec_incoming(&self, node_id: NodeId) -> Seq<IncomingLinkRecord> {
        self.base.spec_incoming(node_id)
    }

    closed spec fn spec_daily_note(&self, note_date: Seq<char>) -> Option<NodeId> {
        self.base.spec_daily_note(note_date)
    }

    closed spec fn spec_text_matches(&self, needle: Seq<char>) -> Seq<StoredNode> {
        self.base.spec_text_matches(needle)
    }

    closed spec fn spec_root_order(&self) -> Seq<NodeId> {
        self.base.spec_root_order()
    }

    closed spec fn spec_daily_notes(&self) -> Seq<DailyNoteRecord> {
        self.base.spec_daily_notes()
    }

    /// The batch nodes recorded under a key answer it; other keys are
    /// answered by the base.
    closed spec fn spec_answers(&self, x: NodeId, key: Seq<char>) -> bool {
        match self.preferred.ids_for(key) {
            Some(ids) => ids.contains(x),
            None => self.base.spec_answers(x, key),
        }
    }

    closed spec fn spec_is_daily_note(&self, node_id: NodeId) -> bool {
        self.base.spec_is_daily_note(node_id)
    }

    closed spec fn spec_is_root(&self, node_id: NodeId) -> bool {
        self.base.spec_is_root(node_id)
    }

    fn get_node(&self, node_id: NodeId) -> (r: KernelResult<Option<StoredNode>>) {
        self.base.get_node(node_id)
    }

    fn list_children(&self, parent_id: Option<NodeId>) -> (r: KernelResult<Vec<StoredNode>>) {
        self.base.list_children(parent_id)
    }

    fn list_outgoing_links(&self, node_id: NodeId) -> (r: KernelResult<Vec<NodeId>>) {
        self.base.list_outgoing_links(node_id)
    }

    fn list_incoming_links(&self, node_id: NodeId) -> (r: KernelResult<Vec<IncomingLinkRecord>>) {
        self.base.list_incoming_links(node_id)
    }

    fn list_aliases(&self, node_id: NodeId) -> (r: KernelResult<Vec<AliasText>>) {
        self.base.list_aliases(node_id)
    }

    fn lookup_candidates(&self, key: &LookupKey) -> (r: KernelResult<Vec<LookupCandidate>>)
        ensures
            self.preferred.ids_for(key@) matches Some(ids) ==> (r matches Ok(v) ==> v@.len()
                == ids.len() && forall|i: int|
                0 <= i < ids.len() ==> (#[trigger] v@[i]).node_id == ids[i] && (self.base.spec_node(
                    ids[i],
                ) matches Some(n) && v@[i].content == n.content)),
            self.preferred.ids_for(key@) matches Some(ids) ==> ((exists|i: int|
                0 <= i < ids.len() && self.base.spec_node(#[trigger] ids[i]) is None) ==> r is Err),
    {
        match self.preferred.preferred(key) {
            Some(ids) => {
                let r = self.candidates_for(&ids);
                proof {
                    if r is Ok {
                        let v = r->Ok_0;
                        assert forall|x: NodeId| #[trigger] self.spec_answers(x, key@) <==> has_candidate(
                            v@,
                            x,
                        ) by {
                            if ids@.contains(x) {
                                let i = choose|i: int| 0 <= i < ids@.len() && ids@[i] == x;
                                assert(v@[i].node_id == ids@[i]);
                            }
                            if has_candidate(v@, x) {
                                let i = choose|i: int| 0 <= i < v@.len() && (#[trigger] v@[i]).node_id == x;
                                assert(v@[i].node_id == ids@[i]);
                            }
                        }
                    }
                }
                r
            },
            None => self.base.lookup_candidates(key),
        }
    }

    fn node_path(&self, node_id: NodeId) -> KernelResult<String> {
        self.base.node_path(node_id)
    }

    fn find_daily_note(&self, note_date: &str) -> (r: KernelResult<Option<DailyNoteRecord>>) {
        self.base.find_daily_note(note_date)
    }

    fn list_daily_notes(&self) -> (r: KernelResult<Vec<DailyNoteRecord>>) {
        self.base.list_daily_notes()
    }

    fn is_daily_note_node(&self, node_id: NodeId) -> (r: KernelResult<bool>) {
        self.base.is_daily_note_node(node_id)
    }

    fn is_root_node(&self, node_id: NodeId) -> (r: KernelResult<bool>) {
        self.base.is_root_node(node_id)
    }

    fn list_root_nodes(&self) -> (r: KernelResult<Vec<StoredNode>>) {
        self.base.list_root_nodes()
    }

    fn find_root_node_by_content(&self, content: &ContentLine) -> (r: KernelResult<
        Option<StoredNode>,
    >) {
        self.base.find_root_node_by_content(content)
    }

    fn search_text_matches(&self, needle: &str) -> (r: KernelResult<Vec<StoredNode>>) {
        self.base.search_text_matches(needle)
    }
}

} // verus!

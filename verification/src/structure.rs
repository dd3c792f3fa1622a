//! The sibling-chain rewiring that a store performs when it moves, inserts
//! or removes nodes under a parent.
//!
//! Every child list is a doubly linked chain: a parent names its first and
//! last child, and each child its previous and next sibling. The planners
//! below decide, from the nodes a store has read, which links to rewrite;
//! the store writes them in order.
use vstd::prelude::*;
use crate::text::{chars_to_string, decimal, push_all, push_decimal, to_chars};
use crate::domain::{
    fails_with, message_with_id, Failure, KernelError, KernelResult, NodeId, Placement,
    StoredNode,
};

verus! {

/// One structural write.
#[derive(Debug, Clone, Copy, PartialEq, Eq, Structural)]
pub enum ChainWrite {
    /// Sets the parent of every node of the chain from `first` to `last`.
    SetParentAlong { first: NodeId, last: NodeId, parent: Option<NodeId> },
    /// Sets a node's previous sibling.
    SetPrev { node: NodeId, prev: Option<NodeId> },
    /// Sets a node's next sibling.
    SetNext { node: NodeId, next: Option<NodeId> },
    /// Sets the first and last child of a parent.
    SetBounds { parent: NodeId, first: Option<NodeId>, last: Option<NodeId> },
    /// Takes a node out of every chain: no parent, no siblings.
    Clear { node: NodeId },
}

/// The chain fields of one node.
pub struct ChainLinks {
    pub first: Option<NodeId>,
    pub last: Option<NodeId>,
    pub prev: Option<NodeId>,
    pub next: Option<NodeId>,
}

/// A write applied to the chain fields of a store. Parents are not part of
/// this model.
pub open spec fn apply_write(m: Map<NodeId, ChainLinks>, w: ChainWrite) -> Map<NodeId, ChainLinks> {
    match w {
        ChainWrite::SetParentAlong { .. } => m,
        ChainWrite::SetPrev { node, prev } => m.insert(node, ChainLinks { prev, ..m[node] }),
        ChainWrite::SetNext { node, next } => m.insert(node, ChainLinks { next, ..m[node] }),
        ChainWrite::SetBounds { parent, first, last } => m.insert(
            parent,
            ChainLinks { first, last, ..m[parent] },
        ),
        ChainWrite::Clear { node } => m.insert(
            node,
            ChainLinks { prev: None, next: None, ..m[node] },
        ),
    }
}

pub open spec fn apply_writes(m: Map<NodeId, ChainLinks>, ws: Seq<ChainWrite>) -> Map<
    NodeId,
    ChainLinks,
>
    decreases ws.len(),
{
    if ws.len() == 0 {
        m
    } else {
        apply_write(apply_writes(m, ws.drop_last()), ws.last())
    }
}

// ---------------------------------------------------------------------------
// Detaching a node from its parent's chain
// ---------------------------------------------------------------------------

/// The writes that take `node` out of the chain of `parent`.
pub open spec fn detach_writes(node: StoredNode, parent: StoredNode) -> Seq<ChainWrite> {
    let new_first = if node.prev_sibling_id is None {
        node.next_sibling_id
    } else {
        parent.first_child_id
    };
    let new_last = if node.next_sibling_id is None {
        node.prev_sibling_id
    } else {
        parent.last_child_id
    };
    let bridge_prev: Seq<ChainWrite> = match node.prev_sibling_id {
        Some(p) => seq![ChainWrite::SetNext { node: p, next: node.next_sibling_id }],
        None => seq![],
    };
    let bridge_next: Seq<ChainWrite> = match node.next_sibling_id {
        Some(n) => seq![ChainWrite::SetPrev { node: n, prev: node.prev_sibling_id }],
        None => seq![],
    };
    bridge_prev + bridge_next + seq![
        ChainWrite::SetBounds { parent: parent.id, first: new_first, last: new_last },
        ChainWrite::Clear { node: node.id },
    ]
}

/// Plans taking `node` out of its parent's chain; `parent` is what the
/// store read for the node's parent.
///
/// A top-level node has no chain to leave; a parent that cannot be read is
/// corrupt storage.
pub fn plan_detach(node: &StoredNode, parent: Option<&StoredNode>) -> (r: KernelResult<
    Vec<ChainWrite>,
>)
    ensures
        node.parent_id is None ==> fails_with(r, Failure::Constraint),
        node.parent_id is Some && parent is None ==> fails_with(r, Failure::StorageCorruption),
        node.parent_id is Some ==> (parent matches Some(p) ==> (r matches Ok(ws) && ws@
            == detach_writes(*node, *p))),
{
    let parent_id = match node.parent_id {
        Some(id) => id,
        None => {
            return Err(
                KernelError::Constraint(
                    message_with_id("top-level node ", node.id, " cannot be detached"),
                ),
            );
        },
    };
    let parent = match parent {
        Some(p) => p,
        None => {
            return Err(
                KernelError::StorageCorruption(
                    message_with_id(
                        message_with_id("missing parent node ", parent_id, " while detaching ").as_str(),
                        node.id,
                        "",
                    ),
                ),
            );
        },
    };
    let new_first = if node.prev_sibling_id.is_none() {
        node.next_sibling_id
    } else {
        parent.first_child_id
    };
    let new_last = if node.next_sibling_id.is_none() {
        node.prev_sibling_id
    } else {
        parent.last_child_id
    };
    let mut writes: Vec<ChainWrite> = Vec::new();
    if let Some(p) = node.prev_sibling_id {
        writes.push(ChainWrite::SetNext { node: p, next: node.next_sibling_id });
    }
    if let Some(n) = node.next_sibling_id {
        writes.push(ChainWrite::SetPrev { node: n, prev: node.prev_sibling_id });
    }
    writes.push(ChainWrite::SetBounds { parent: parent.id, first: new_first, last: new_last });
    writes.push(ChainWrite::Clear { node: node.id });
    assert(writes@ =~= detach_writes(*node, *parent));
    Ok(writes)
}

// ---------------------------------------------------------------------------
// Attaching a chain at a placement
// ---------------------------------------------------------------------------

/// The writes that splice the chain `first..last` in at `placement`, given
/// the placement's target and, for sibling placements, the target's parent.
pub open spec fn attach_writes(
    first: NodeId,
    last: NodeId,
    placement: Placement,
    target: StoredNode,
    parent: StoredNode,
) -> Seq<ChainWrite> {
    match placement {
        Placement::Before(target_id) => seq![
            ChainWrite::SetParentAlong { first, last, parent: Some(parent.id) },
            ChainWrite::SetPrev { node: first, prev: target.prev_sibling_id },
            ChainWrite::SetNext { node: last, next: Some(target_id) },
        ] + match target.prev_sibling_id {
            Some(p) => seq![ChainWrite::SetNext { node: p, next: Some(first) }],
            None => seq![
                ChainWrite::SetBounds {
                    parent: parent.id,
                    first: Some(first),
                    last: parent.last_child_id,
                },
            ],
        } + seq![ChainWrite::SetPrev { node: target_id, prev: Some(last) }],
        Placement::After(target_id) => seq![
            ChainWrite::SetParentAlong { first, last, parent: Some(parent.id) },
            ChainWrite::SetPrev { node: first, prev: Some(target_id) },
            ChainWrite::SetNext { node: last, next: target.next_sibling_id },
        ] + match target.next_sibling_id {
            Some(n) => seq![ChainWrite::SetPrev { node: n, prev: Some(last) }],
            None => seq![
                ChainWrite::SetBounds {
                    parent: parent.id,
                    first: parent.first_child_id,
                    last: Some(last),
                },
            ],
        } + seq![ChainWrite::SetNext { node: target_id, next: Some(first) }],
        Placement::FirstChildOf(parent_id) => seq![
            ChainWrite::SetParentAlong { first, last, parent: Some(parent_id) },
            ChainWrite::SetPrev { node: first, prev: None },
            ChainWrite::SetNext { node: last, next: target.first_child_id },
        ] + match target.first_child_id {
            Some(old_first) => seq![
                ChainWrite::SetPrev { node: old_first, prev: Some(last) },
                ChainWrite::SetNext { node: last, next: Some(old_first) },
            ],
            None => seq![],
        } + seq![
            ChainWrite::SetBounds {
                parent: parent_id,
                first: Some(first),
                last: match target.last_child_id {
                    Some(l) => Some(l),
                    None => Some(last),
                },
            },
        ],
        Placement::LastChildOf(parent_id) => seq![
            ChainWrite::SetParentAlong { first, last, parent: Some(parent_id) },
            ChainWrite::SetNext { node: last, next: None },
            ChainWrite::SetPrev { node: first, prev: target.last_child_id },
        ] + match target.last_child_id {
            Some(old_last) => seq![
                ChainWrite::SetNext { node: old_last, next: Some(first) },
                ChainWrite::SetPrev { node: first, prev: Some(old_last) },
            ],
            None => seq![],
        } + seq![
            ChainWrite::SetBounds {
                parent: parent_id,
                first: match target.first_child_id {
                    Some(f) => Some(f),
                    None => Some(first),
                },
                last: Some(last),
            },
        ],
        _ => seq![],
    }
}

/// A sibling placement at the edge of its chain needs the target's parent.
pub open spec fn needs_parent(placement: Placement, target: StoredNode) -> bool {
    match placement {
        Placement::Before(_) => target.prev_sibling_id is None,
        Placement::After(_) => target.next_sibling_id is None,
        _ => false,
    }
}

/// Plans splicing the chain `first..last` in at `placement`. `target` is
/// what the store read for the placement's target; `target_parent` what it
/// read for the target's parent.
///
/// Top-level placements are refused; a missing target is not found; a
/// sibling placement next to a top-level node is refused; a parent that the
/// splice needs but cannot be read is corrupt storage.
pub fn plan_attach(
    first: NodeId,
    last: NodeId,
    placement: Placement,
    target: Option<&StoredNode>,
    target_parent: Option<&StoredNode>,
) -> (r: KernelResult<Vec<ChainWrite>>)
    ensures
        (placement is TopLevelFirst || placement is TopLevelLast) ==> fails_with(r, Failure::Input),
        !(placement is TopLevelFirst || placement is TopLevelLast) && target is None ==> fails_with(r, Failure::NotFound),
        !(placement is TopLevelFirst || placement is TopLevelLast) ==> (target matches Some(t) ==> {
            let sibling = placement is Before || placement is After;
            &&& (sibling && t.parent_id is None) ==> fails_with(r, Failure::Constraint)
            &&& (sibling && t.parent_id is Some && needs_parent(placement, *t)
                && target_parent is None) ==> fails_with(r, Failure::StorageCorruption)
            &&& (sibling && t.parent_id is Some) ==> (target_parent matches Some(p) ==> (p.id
                == t.parent_id->0 ==> (r matches Ok(ws) && ws@ == attach_writes(
                first,
                last,
                placement,
                *t,
                *p,
            ))))
            &&& (sibling && t.parent_id is Some && !needs_parent(placement, *t)) ==> (r matches Ok(
                ws,
            ) && ws@ == attach_writes(
                first,
                last,
                placement,
                *t,
                StoredNode { id: t.parent_id->0, ..*t },
            ))
            &&& !sibling ==> (r matches Ok(ws) && ws@ == attach_writes(
                first,
                last,
                placement,
                *t,
                *t,
            ))
        }),
{
    let target_id = match placement.target_id() {
        Some(id) => id,
        None => {
            return Err(KernelError::Input("top-level placement is not supported".to_owned()));
        },
    };
    let target = match target {
        Some(t) => t,
        None => {
            return Err(KernelError::NotFound { entity: "node", id: target_id });
        },
    };
    let mut writes: Vec<ChainWrite> = Vec::new();
    match placement {
        Placement::Before(_) | Placement::After(_) => {
            let parent_id = match target.parent_id {
                Some(id) => id,
                None => {
                    return Err(
                        KernelError::Constraint(
                            message_with_id(
                                "top-level node ",
                                target_id,
                                " cannot participate in sibling placement",
                            ),
                        ),
                    );
                },
            };
            let before = match placement {
                Placement::Before(_) => true,
                _ => false,
            };
            writes.push(ChainWrite::SetParentAlong { first, last, parent: Some(parent_id) });
            if before {
                writes.push(ChainWrite::SetPrev { node: first, prev: target.prev_sibling_id });
                writes.push(ChainWrite::SetNext { node: last, next: Some(target_id) });
                match target.prev_sibling_id {
                    Some(p) => {
                        writes.push(ChainWrite::SetNext { node: p, next: Some(first) });
                    },
                    None => {
                        let current_last = match target_parent {
                            Some(parent) => parent.last_child_id,
                            None => {
                                return Err(
                                    KernelError::StorageCorruption(
                                        message_with_id("missing parent node ", parent_id, ""),
                                    ),
                                );
                            },
                        };
                        writes.push(
                            ChainWrite::SetBounds {
                                parent: parent_id,
                                first: Some(first),
                                last: current_last,
                            },
                        );
                    },
                }
                writes.push(ChainWrite::SetPrev { node: target_id, prev: Some(last) });
            } else {
                writes.push(ChainWrite::SetPrev { node: first, prev: Some(target_id) });
                writes.push(ChainWrite::SetNext { node: last, next: target.next_sibling_id });
                match target.next_sibling_id {
                    Some(n) => {
                        writes.push(ChainWrite::SetPrev { node: n, prev: Some(last) });
                    },
                    None => {
                        let current_first = match target_parent {
                            Some(parent) => parent.first_child_id,
                            None => {
                                return Err(
                                    KernelError::StorageCorruption(
                                        message_with_id("missing parent node ", parent_id, ""),
                                    ),
                                );
                            },
                        };
                        writes.push(
                            ChainWrite::SetBounds {
                                parent: parent_id,
                                first: current_first,
                                last: Some(last),
                            },
                        );
                    },
                }
                writes.push(ChainWrite::SetNext { node: target_id, next: Some(first) });
            }
        },
        Placement::FirstChildOf(_) => {
            writes.push(ChainWrite::SetParentAlong { first, last, parent: Some(target_id) });
            writes.push(ChainWrite::SetPrev { node: first, prev: None });
            writes.push(ChainWrite::SetNext { node: last, next: target.first_child_id });
            if let Some(old_first) = target.first_child_id {
                writes.push(ChainWrite::SetPrev { node: old_first, prev: Some(last) });
                writes.push(ChainWrite::SetNext { node: last, next: Some(old_first) });
            }
            let new_last = match target.last_child_id {
                Some(l) => Some(l),
                None => Some(last),
            };
            writes.push(
                ChainWrite::SetBounds { parent: target_id, first: Some(first), last: new_last },
            );
        },
        _ => {
            writes.push(ChainWrite::SetParentAlong { first, last, parent: Some(target_id) });
            writes.push(ChainWrite::SetNext { node: last, next: None });
            writes.push(ChainWrite::SetPrev { node: first, prev: target.last_child_id });
            if let Some(old_last) = target.last_child_id {
                writes.push(ChainWrite::SetNext { node: old_last, next: Some(first) });
                writes.push(ChainWrite::SetPrev { node: first, prev: Some(old_last) });
            }
            let new_first = match target.first_child_id {
                Some(f) => Some(f),
                None => Some(first),
            };
            writes.push(
                ChainWrite::SetBounds { parent: target_id, first: new_first, last: Some(last) },
            );
        },
    }
    proof {
        let t = *target;
        match placement {
            Placement::Before(_) | Placement::After(_) => {
                let pid = t.parent_id->0;
                let stand_in = StoredNode { id: pid, ..t };
                if let Some(p) = target_parent {
                    if p.id == pid {
                        assert(writes@ =~= attach_writes(first, last, placement, t, *p));
                    }
                    if !needs_parent(placement, t) {
                        assert(writes@ =~= attach_writes(first, last, placement, t, stand_in));
                    }
                } else {
                    assert(writes@ =~= attach_writes(first, last, placement, t, stand_in));
                }
            },
            _ => {
                assert(writes@ =~= attach_writes(first, last, placement, t, t));
            },
        }
    }
    Ok(writes)
}

// ---------------------------------------------------------------------------
// What the planned writes do to the chains
// ---------------------------------------------------------------------------

/// Detaching bridges the gap: the neighbours of the node point at each
/// other, the parent's bounds skip the node when it was first or last, and
/// the node keeps no siblings.
pub proof fn law_detach_bridges(m: Map<NodeId, ChainLinks>, node: StoredNode, parent: StoredNode)
    requires
        node.id != parent.id,
        node.prev_sibling_id != Some(node.id),
        node.next_sibling_id != Some(node.id),
        node.prev_sibling_id != Some(parent.id),
        node.next_sibling_id != Some(parent.id),
        node.prev_sibling_id is Some ==> node.prev_sibling_id != node.next_sibling_id,
    ensures
        ({
            let after = apply_writes(m, detach_writes(node, parent));
            &&& node.prev_sibling_id matches Some(p) ==> after[p].next == node.next_sibling_id
            &&& node.next_sibling_id matches Some(n) ==> after[n].prev == node.prev_sibling_id
            &&& after[parent.id].first == (if node.prev_sibling_id is None {
                node.next_sibling_id
            } else {
                parent.first_child_id
            })
            &&& after[parent.id].last == (if node.next_sibling_id is None {
                node.prev_sibling_id
            } else {
                parent.last_child_id
            })
            &&& after[node.id].prev is None
            &&& after[node.id].next is None
        }),
{
    reveal_with_fuel(apply_writes, 5);
    let ws = detach_writes(node, parent);
    let after = apply_writes(m, ws);
    assert(ws.len() <= 4);
}

/// `c` is the child chain of `parent` in the chain fields `m`: the parent's
/// bounds are its ends, each node links to its neighbours in `c`, no node
/// occurs twice, and the parent is not in it.
pub open spec fn chain_is(m: Map<NodeId, ChainLinks>, parent: NodeId, c: Seq<NodeId>) -> bool {
    &&& m[parent].first == (if c.len() == 0 {
        None
    } else {
        Some(c[0])
    })
    &&& m[parent].last == (if c.len() == 0 {
        None
    } else {
        Some(c.last())
    })
    &&& forall|k: int|
        0 <= k < c.len() ==> m[#[trigger] c[k]].prev == (if k == 0 {
            None
        } else {
            Some(c[k - 1])
        }) && m[c[k]].next == (if k == c.len() - 1 {
            None
        } else {
            Some(c[k + 1])
        })
    &&& forall|j: int, k: int| 0 <= j < k < c.len() ==> c[j] != c[k]
    &&& !c.contains(parent)
}

/// Detaching changes the links of the node, its neighbours and the parent
/// only.
#[verifier::spinoff_prover]
proof fn lemma_detach_frame(m: Map<NodeId, ChainLinks>, node: StoredNode, parent: StoredNode)
    requires
        node.id != parent.id,
        node.prev_sibling_id != Some(node.id),
        node.next_sibling_id != Some(node.id),
        node.prev_sibling_id != Some(parent.id),
        node.next_sibling_id != Some(parent.id),
        node.prev_sibling_id is Some ==> node.prev_sibling_id != node.next_sibling_id,
    ensures
        forall|x: NodeId|
            x != node.id && x != parent.id && Some(x) != node.prev_sibling_id && Some(x)
                != node.next_sibling_id ==> #[trigger] apply_writes(m, detach_writes(node, parent))[x]
                == m[x],
        node.prev_sibling_id matches Some(p) ==> apply_writes(m, detach_writes(node, parent))[p]
            == (ChainLinks { next: node.next_sibling_id, ..m[p] }),
        node.next_sibling_id matches Some(x) ==> apply_writes(m, detach_writes(node, parent))[x]
            == (ChainLinks { prev: node.prev_sibling_id, ..m[x] }),
{
    reveal_with_fuel(apply_writes, 5);
    let ws = detach_writes(node, parent);
    assert(ws.len() <= 4);
}

/// One entry of the chain after a detach links to its new neighbours.
#[verifier::spinoff_prover]
proof fn lemma_detach_entry(
    m: Map<NodeId, ChainLinks>,
    after: Map<NodeId, ChainLinks>,
    node: StoredNode,
    parent: StoredNode,
    c: Seq<NodeId>,
    i: int,
    k: int,
)
    requires
        chain_is(m, parent.id, c),
        0 <= i < c.len(),
        c[i] == node.id,
        node.prev_sibling_id == m[node.id].prev,
        node.next_sibling_id == m[node.id].next,
        node.prev_sibling_id matches Some(p) ==> after[p] == (ChainLinks {
            next: node.next_sibling_id,
            ..m[p]
        }),
        node.next_sibling_id matches Some(x) ==> after[x] == (ChainLinks {
            prev: node.prev_sibling_id,
            ..m[x]
        }),
        forall|x: NodeId|
            x != node.id && x != parent.id && Some(x) != node.prev_sibling_id && Some(x)
                != node.next_sibling_id ==> #[trigger] after[x] == m[x],
        0 <= k < c.len() - 1,
    ensures
        ({
            let c2 = c.remove(i);
            &&& after[c2[k]].prev == (if k == 0 {
                None
            } else {
                Some(c2[k - 1])
            })
            &&& after[c2[k]].next == (if k == c2.len() - 1 {
                None
            } else {
                Some(c2[k + 1])
            })
        }),
{
    let c2 = c.remove(i);
    let n = c.len();
    assert(m[c[i]].prev == (if i == 0 { None } else { Some(c[i - 1]) }));
    assert(m[c[i]].next == (if i == n - 1 { None } else { Some(c[i + 1]) }));

    let j = if k < i { k } else { k + 1 };
    assert(c2[k] == c[j]);
    assert(c.contains(c[j]));
    assert(c[j] != parent.id);
    assert(c[j] != node.id) by {
        assert(j != i);
    }
    if k > 0 {
        let jp = if k - 1 < i { k - 1 } else { k };
        assert(c2[k - 1] == c[jp]);
    }
    if k < c2.len() - 1 {
        let jn = if k + 1 < i { k + 1 } else { k + 2 };
        assert(c2[k + 1] == c[jn]);
    }
    if j == i - 1 {
        assert(Some(c[j]) == node.prev_sibling_id);
        if i < n - 1 {
            assert(Some(c[i + 1]) != node.prev_sibling_id);
        }
    } else if j == i + 1 {
        assert(Some(c[j]) == node.next_sibling_id);
    } else {
        if i > 0 {
            assert(Some(c[j]) != node.prev_sibling_id);
        }
        if i < n - 1 {
            assert(Some(c[j]) != node.next_sibling_id);
        }
        assert(after[c[j]] == m[c[j]]);
    }
}

/// Detaching a node from its parent's chain leaves the chain without it:
/// the parent's child list loses exactly that node, and the node keeps no
/// siblings.
#[verifier::spinoff_prover]
#[verifier::rlimit(40)]
pub proof fn law_detach_removes(
    m: Map<NodeId, ChainLinks>,
    node: StoredNode,
    parent: StoredNode,
    c: Seq<NodeId>,
    i: int,
)
    requires
        chain_is(m, parent.id, c),
        0 <= i < c.len(),
        c[i] == node.id,
        node.prev_sibling_id == m[node.id].prev,
        node.next_sibling_id == m[node.id].next,
        parent.first_child_id == m[parent.id].first,
        parent.last_child_id == m[parent.id].last,
    ensures
        chain_is(apply_writes(m, detach_writes(node, parent)), parent.id, c.remove(i)),
        apply_writes(m, detach_writes(node, parent))[node.id].prev is None,
        apply_writes(m, detach_writes(node, parent))[node.id].next is None,
{
    let ws = detach_writes(node, parent);
    let after = apply_writes(m, ws);
    let c2 = c.remove(i);
    let n = c.len();
    assert(m[c[i]].prev == node.prev_sibling_id);
    assert(c.contains(c[i]));
    if i > 0 {
        assert(c.contains(c[i - 1]));
        assert(c[i - 1] != c[i]);
    }
    if i < n - 1 {
        assert(c.contains(c[i + 1]));
        assert(c[i + 1] != c[i]);
    }
    if 0 < i < n - 1 {
        assert(c[i - 1] != c[i + 1]);
    }
    law_detach_bridges(m, node, parent);
    lemma_detach_frame(m, node, parent);
    assert forall|k: int| 0 <= k < c2.len() implies after[#[trigger] c2[k]].prev == (if k == 0 {
        None
    } else {
        Some(c2[k - 1])
    }) && after[c2[k]].next == (if k == c2.len() - 1 {
        None
    } else {
        Some(c2[k + 1])
    }) by {
        lemma_detach_entry(m, after, node, parent, c, i, k);
    }
    assert forall|a: int, b: int| 0 <= a < b < c2.len() implies c2[a] != c2[b] by {
        let ja = if a < i { a } else { a + 1 };
        let jb = if b < i { b } else { b + 1 };
        assert(c2[a] == c[ja] && c2[b] == c[jb]);
    }
    assert(!c2.contains(parent.id)) by {
        if c2.contains(parent.id) {
            let k = choose|k: int| 0 <= k < c2.len() && c2[k] == parent.id;
            let j = if k < i { k } else { k + 1 };
            assert(c2[k] == c[j]);
            assert(c.contains(c[j]));
        }
    }
    if c2.len() > 0 {
        if i == 0 {
            assert(c2[0] == c[1]);
        } else {
            assert(c2[0] == c[0]);
        }
        if i == n - 1 {
            assert(c2.last() == c[n - 2]);
        } else {
            assert(c2.last() == c[n - 1]);
        }
    }
}

/// `s` is a chain segment in the chain fields `m`: its nodes are distinct
/// and each links to the next one and back.
pub open spec fn seg_linked(m: Map<NodeId, ChainLinks>, s: Seq<NodeId>) -> bool {
    &&& s.len() > 0
    &&& forall|j: int, k: int| 0 <= j < k < s.len() ==> s[j] != s[k]
    &&& forall|k: int|
        0 <= k < s.len() - 1 ==> m[#[trigger] s[k]].next == Some(s[k + 1]) && m[s[k + 1]].prev
            == Some(s[k])
}

/// `after` is `m` with the segment `s` linked in at position `j` of the
/// chain `c` of `parent`: its ends point at their new neighbours and its
/// inside as before, the neighbours point at its ends, the parent's bounds
/// move where the segment becomes first or last, and every other node is
/// as it was.
pub open spec fn linked_in(
    m: Map<NodeId, ChainLinks>,
    after: Map<NodeId, ChainLinks>,
    parent: NodeId,
    c: Seq<NodeId>,
    s: Seq<NodeId>,
    j: int,
) -> bool {
    let n = c.len() as int;
    &&& 0 <= j <= n
    &&& forall|k: int|
        0 <= k < s.len() ==> after[#[trigger] s[k]].prev == (if k == 0 {
            if j == 0 {
                None
            } else {
                Some(c[j - 1])
            }
        } else {
            Some(s[k - 1])
        }) && after[s[k]].next == (if k == s.len() - 1 {
            if j == n {
                None
            } else {
                Some(c[j])
            }
        } else {
            Some(s[k + 1])
        })
    &&& j > 0 ==> after[c[j - 1]] == (ChainLinks { next: Some(s[0]), ..m[c[j - 1]] })
    &&& j < n ==> after[c[j]] == (ChainLinks { prev: Some(s.last()), ..m[c[j]] })
    &&& after[parent].first == (if j == 0 { Some(s[0]) } else { m[parent].first })
    &&& after[parent].last == (if j == n { Some(s.last()) } else { m[parent].last })
    &&& forall|x: NodeId|
        !s.contains(x) && x != parent && (j > 0 ==> x != c[j - 1]) && (j < n ==> x != c[j])
            ==> #[trigger] after[x] == m[x]
}

/// One entry of a chain with a segment linked in links to its neighbours.
#[verifier::spinoff_prover]
proof fn lemma_linked_in_entry(
    m: Map<NodeId, ChainLinks>,
    after: Map<NodeId, ChainLinks>,
    parent: NodeId,
    c: Seq<NodeId>,
    s: Seq<NodeId>,
    j: int,
    k: int,
)
    requires
        chain_is(m, parent, c),
        s.len() > 0,
        forall|x: NodeId| s.contains(x) ==> !c.contains(x) && x != parent,
        linked_in(m, after, parent, c, s, j),
        0 <= k < c.len() + s.len(),
    ensures
        ({
            let c2 = c.subrange(0, j) + s + c.subrange(j, c.len() as int);
            &&& after[c2[k]].prev == (if k == 0 {
                None
            } else {
                Some(c2[k - 1])
            })
            &&& after[c2[k]].next == (if k == c2.len() - 1 {
                None
            } else {
                Some(c2[k + 1])
            })
        }),
{
    let n = c.len() as int;
    let ls = s.len() as int;
    let c2 = c.subrange(0, j) + s + c.subrange(j, n);
    assert(c2.len() == n + ls);
    assert forall|q: int| 0 <= q < j implies #[trigger] c2[q] == c[q] by {}
    assert forall|q: int| j <= q < j + ls implies #[trigger] c2[q] == s[q - j] by {}
    assert forall|q: int| j + ls <= q < n + ls implies #[trigger] c2[q] == c[q - ls] by {}
    if j <= k < j + ls {
        let a = k - j;
        assert(c2[k] == s[a]);
        if k > 0 {
            if a > 0 {
                assert(c2[k - 1] == s[a - 1]);
            } else {
                assert(c2[k - 1] == c[j - 1]);
            }
        }
        if k < n + ls - 1 {
            if a < ls - 1 {
                assert(c2[k + 1] == s[a + 1]);
            } else {
                assert(c2[k + 1] == c[j]);
            }
        }
    } else {
        let q = if k < j { k } else { k - ls };
        assert(c2[k] == c[q]);
        assert(c.contains(c[q]));
        assert(!s.contains(c[q]));
        assert(c[q] != parent);
        if k > 0 {
            if k - 1 < j {
                assert(c2[k - 1] == c[k - 1]);
            } else if k - 1 < j + ls {
                assert(c2[k - 1] == s[ls - 1]);
                assert(s.last() == s[ls - 1]);
            } else {
                assert(c2[k - 1] == c[k - 1 - ls]);
            }
        }
        if k < n + ls - 1 {
            if k + 1 < j {
                assert(c2[k + 1] == c[k + 1]);
            } else if k + 1 < j + ls {
                assert(c2[k + 1] == s[0]);
            } else {
                assert(c2[k + 1] == c[k + 1 - ls]);
            }
        }
        if j > 0 && q == j - 1 {
            assert(after[c[q]] == (ChainLinks { next: Some(s[0]), ..m[c[q]] }));
            if j < n {
                assert(c[q] != c[j]);
            }
        } else if j < n && q == j {
            assert(after[c[q]] == (ChainLinks { prev: Some(s.last()), ..m[c[q]] }));
            if j > 0 {
                assert(c[q] != c[j - 1]);
            }
        } else {
            if j > 0 {
                assert(c[q] != c[j - 1]);
            }
            if j < n {
                assert(c[q] != c[j]);
            }
            assert(after[c[q]] == m[c[q]]);
        }
    }
}

/// Linking a segment in at a position of a chain inserts it there.
#[verifier::spinoff_prover]
#[verifier::rlimit(40)]
proof fn lemma_linked_in_chain(
    m: Map<NodeId, ChainLinks>,
    after: Map<NodeId, ChainLinks>,
    parent: NodeId,
    c: Seq<NodeId>,
    s: Seq<NodeId>,
    j: int,
)
    requires
        chain_is(m, parent, c),
        seg_linked(m, s),
        forall|x: NodeId| s.contains(x) ==> !c.contains(x) && x != parent,
        linked_in(m, after, parent, c, s, j),
    ensures
        chain_is(after, parent, c.subrange(0, j) + s + c.subrange(j, c.len() as int)),
{
    let n = c.len() as int;
    let ls = s.len() as int;
    let c2 = c.subrange(0, j) + s + c.subrange(j, n);
    assert(c2.len() == n + ls);
    assert forall|k: int| 0 <= k < c2.len() implies after[#[trigger] c2[k]].prev == (if k == 0 {
        None
    } else {
        Some(c2[k - 1])
    }) && after[c2[k]].next == (if k == c2.len() - 1 {
        None
    } else {
        Some(c2[k + 1])
    }) by {
        lemma_linked_in_entry(m, after, parent, c, s, j, k);
    }
    assert forall|q: int| 0 <= q < j implies #[trigger] c2[q] == c[q] by {}
    assert forall|q: int| j <= q < j + ls implies #[trigger] c2[q] == s[q - j] by {}
    assert forall|q: int| j + ls <= q < n + ls implies #[trigger] c2[q] == c[q - ls] by {}
    assert forall|a: int, b: int| 0 <= a < b < c2.len() implies c2[a] != c2[b] by {
        let in_a = j <= a < j + ls;
        let in_b = j <= b < j + ls;
        if in_a && in_b {
            assert(c2[a] == s[a - j] && c2[b] == s[b - j]);
        } else if in_a {
            let qb = if b < j { b } else { b - ls };
            assert(c2[b] == c[qb] && c.contains(c[qb]));
            assert(c2[a] == s[a - j] && s.contains(s[a - j]));
        } else if in_b {
            let qa = if a < j { a } else { a - ls };
            assert(c2[a] == c[qa] && c.contains(c[qa]));
            assert(c2[b] == s[b - j] && s.contains(s[b - j]));
        } else {
            let qa = if a < j { a } else { a - ls };
            let qb = if b < j { b } else { b - ls };
            assert(c2[a] == c[qa] && c2[b] == c[qb]);
        }
    }
    assert(!c2.contains(parent)) by {
        if c2.contains(parent) {
            let k = choose|k: int| 0 <= k < c2.len() && c2[k] == parent;
            if j <= k < j + ls {
                assert(c2[k] == s[k - j] && s.contains(s[k - j]));
            } else {
                let q = if k < j { k } else { k - ls };
                assert(c2[k] == c[q] && c.contains(c[q]));
            }
        }
    }
    if j == 0 {
        assert(c2[0] == s[0]);
    } else {
        assert(c2[0] == c[0]);
    }
    assert(c2.last() == c2[n + ls - 1]);
    if j == n {
        assert(c2[n + ls - 1] == s[ls - 1]);
    } else {
        assert(c2[n + ls - 1] == c[n - 1]);
    }
}

/// Where a splice puts its segment in the chain `c`, when the target of a
/// sibling placement stands at position `i`.
pub open spec fn attach_index(placement: Placement, c: Seq<NodeId>, i: int) -> int {
    match placement {
        Placement::Before(_) => i,
        Placement::After(_) => i + 1,
        Placement::FirstChildOf(_) => 0,
        _ => c.len() as int,
    }
}

/// The chain fields `target` and `parent` report agree with `m`, and the
/// target stands at position `i` of `c` for a sibling placement; a child
/// placement is relative to the parent itself.
pub open spec fn attach_frame(
    m: Map<NodeId, ChainLinks>,
    placement: Placement,
    target: StoredNode,
    parent: StoredNode,
    c: Seq<NodeId>,
    i: int,
) -> bool {
    &&& parent.first_child_id == m[parent.id].first
    &&& parent.last_child_id == m[parent.id].last
    &&& match placement {
        Placement::Before(t) | Placement::After(t) => {
            &&& 0 <= i < c.len()
            &&& c[i] == t
            &&& target.id == t
            &&& target.prev_sibling_id == m[t].prev
            &&& target.next_sibling_id == m[t].next
        },
        Placement::FirstChildOf(p) | Placement::LastChildOf(p) => p == parent.id && target == parent,
        _ => false,
    }
}

#[verifier::spinoff_prover]
proof fn lemma_attach_before_links(
    m: Map<NodeId, ChainLinks>,
    s: Seq<NodeId>,
    placement: Placement,
    target: StoredNode,
    parent: StoredNode,
    c: Seq<NodeId>,
    i: int,
)
    requires
        chain_is(m, parent.id, c),
        seg_linked(m, s),
        forall|x: NodeId| s.contains(x) ==> !c.contains(x) && x != parent.id,
        attach_frame(m, placement, target, parent, c, i),
        placement is Before,
    ensures
        linked_in(
            m,
            apply_writes(m, attach_writes(s[0], s.last(), placement, target, parent)),
            parent.id,
            c,
            s,
            attach_index(placement, c, i),
        ),
{
    reveal_with_fuel(apply_writes, 8);
    let first = s[0];
    let last = s.last();
    let ws = attach_writes(first, last, placement, target, parent);
    let after = apply_writes(m, ws);
    let n = c.len() as int;
    let ls = s.len() as int;
    assert(s.contains(first) && s.contains(last));
    assert(last == s[ls - 1]);
    assert(c.contains(c[i]));
    assert(m[c[i]].prev == target.prev_sibling_id);
    if i > 0 {
        assert(c.contains(c[i - 1]));
        assert(c[i - 1] != c[i]);
        assert(target.prev_sibling_id == Some(c[i - 1]));
    } else {
        assert(target.prev_sibling_id is None);
        assert(parent.first_child_id == Some(c[0]));
    }
    assert(ws.len() <= 6);
    assert forall|k: int| 0 <= k < ls implies after[#[trigger] s[k]].prev == (if k == 0 {
        if attach_index(placement, c, i) == 0 {
            None
        } else {
            Some(c[attach_index(placement, c, i) - 1])
        }
    } else {
        Some(s[k - 1])
    }) && after[s[k]].next == (if k == s.len() - 1 {
        if attach_index(placement, c, i) == n {
            None
        } else {
            Some(c[attach_index(placement, c, i)])
        }
    } else {
        Some(s[k + 1])
    }) by {
        assert(s.contains(s[k]));
        if 0 < k {
            assert(s[k] != first);
            assert(m[s[k - 1]].next == Some(s[k]) && m[s[k]].prev == Some(s[k - 1]));
        }
        if k < ls - 1 {
            assert(s[k] != last);
            assert(m[s[k]].next == Some(s[k + 1]));
        }
    }
}

#[verifier::spinoff_prover]
proof fn lemma_attach_after_links(
    m: Map<NodeId, ChainLinks>,
    s: Seq<NodeId>,
    placement: Placement,
    target: StoredNode,
    parent: StoredNode,
    c: Seq<NodeId>,
    i: int,
)
    requires
        chain_is(m, parent.id, c),
        seg_linked(m, s),
        forall|x: NodeId| s.contains(x) ==> !c.contains(x) && x != parent.id,
        attach_frame(m, placement, target, parent, c, i),
        placement is After,
    ensures
        linked_in(
            m,
            apply_writes(m, attach_writes(s[0], s.last(), placement, target, parent)),
            parent.id,
            c,
            s,
            attach_index(placement, c, i),
        ),
{
    reveal_with_fuel(apply_writes, 8);
    let first = s[0];
    let last = s.last();
    let ws = attach_writes(first, last, placement, target, parent);
    let after = apply_writes(m, ws);
    let n = c.len() as int;
    let ls = s.len() as int;
    assert(s.contains(first) && s.contains(last));
    assert(last == s[ls - 1]);
    assert(c.contains(c[i]));
    assert(m[c[i]].next == target.next_sibling_id);
    if i < n - 1 {
        assert(c.contains(c[i + 1]));
        assert(c[i + 1] != c[i]);
        assert(target.next_sibling_id == Some(c[i + 1]));
    } else {
        assert(target.next_sibling_id is None);
        assert(parent.last_child_id == Some(c[n - 1]));
    }
    assert(ws.len() <= 6);
    assert forall|k: int| 0 <= k < ls implies after[#[trigger] s[k]].prev == (if k == 0 {
        if attach_index(placement, c, i) == 0 {
            None
        } else {
            Some(c[attach_index(placement, c, i) - 1])
        }
    } else {
        Some(s[k - 1])
    }) && after[s[k]].next == (if k == s.len() - 1 {
        if attach_index(placement, c, i) == n {
            None
        } else {
            Some(c[attach_index(placement, c, i)])
        }
    } else {
        Some(s[k + 1])
    }) by {
        assert(s.contains(s[k]));
        if 0 < k {
            assert(s[k] != first);
            assert(m[s[k - 1]].next == Some(s[k]) && m[s[k]].prev == Some(s[k - 1]));
        }
        if k < ls - 1 {
            assert(s[k] != last);
            assert(m[s[k]].next == Some(s[k + 1]));
        }
    }
}

#[verifier::spinoff_prover]
proof fn lemma_attach_first_links(
    m: Map<NodeId, ChainLinks>,
    s: Seq<NodeId>,
    placement: Placement,
    target: StoredNode,
    parent: StoredNode,
    c: Seq<NodeId>,
    i: int,
)
    requires
        chain_is(m, parent.id, c),
        seg_linked(m, s),
        forall|x: NodeId| s.contains(x) ==> !c.contains(x) && x != parent.id,
        attach_frame(m, placement, target, parent, c, i),
        placement is FirstChildOf,
    ensures
        linked_in(
            m,
            apply_writes(m, attach_writes(s[0], s.last(), placement, target, parent)),
            parent.id,
            c,
            s,
            attach_index(placement, c, i),
        ),
{
    reveal_with_fuel(apply_writes, 8);
    let first = s[0];
    let last = s.last();
    let ws = attach_writes(first, last, placement, target, parent);
    let after = apply_writes(m, ws);
    let n = c.len() as int;
    let ls = s.len() as int;
    assert(s.contains(first) && s.contains(last));
    assert(last == s[ls - 1]);
    if n > 0 {
        assert(c.contains(c[0]));
        if n > 1 {
            assert(c[0] != c[n - 1]);
        }
    }
    assert(ws.len() <= 6);
    assert forall|k: int| 0 <= k < ls implies after[#[trigger] s[k]].prev == (if k == 0 {
        if attach_index(placement, c, i) == 0 {
            None
        } else {
            Some(c[attach_index(placement, c, i) - 1])
        }
    } else {
        Some(s[k - 1])
    }) && after[s[k]].next == (if k == s.len() - 1 {
        if attach_index(placement, c, i) == n {
            None
        } else {
            Some(c[attach_index(placement, c, i)])
        }
    } else {
        Some(s[k + 1])
    }) by {
        assert(s.contains(s[k]));
        if 0 < k {
            assert(s[k] != first);
            assert(m[s[k - 1]].next == Some(s[k]) && m[s[k]].prev == Some(s[k - 1]));
        }
        if k < ls - 1 {
            assert(s[k] != last);
            assert(m[s[k]].next == Some(s[k + 1]));
        }
    }
}

#[verifier::spinoff_prover]
proof fn lemma_attach_last_links(
    m: Map<NodeId, ChainLinks>,
    s: Seq<NodeId>,
    placement: Placement,
    target: StoredNode,
    parent: StoredNode,
    c: Seq<NodeId>,
    i: int,
)
    requires
        chain_is(m, parent.id, c),
        seg_linked(m, s),
        forall|x: NodeId| s.contains(x) ==> !c.contains(x) && x != parent.id,
        attach_frame(m, placement, target, parent, c, i),
        placement is LastChildOf,
    ensures
        linked_in(
            m,
            apply_writes(m, attach_writes(s[0], s.last(), placement, target, parent)),
            parent.id,
            c,
            s,
            attach_index(placement, c, i),
        ),
{
    reveal_with_fuel(apply_writes, 8);
    let first = s[0];
    let last = s.last();
    let ws = attach_writes(first, last, placement, target, parent);
    let after = apply_writes(m, ws);
    let n = c.len() as int;
    let ls = s.len() as int;
    assert(s.contains(first) && s.contains(last));
    assert(last == s[ls - 1]);
    if n > 0 {
        assert(c.contains(c[n - 1]));
    }
    assert(ws.len() <= 6);
    assert forall|k: int| 0 <= k < ls implies after[#[trigger] s[k]].prev == (if k == 0 {
        if attach_index(placement, c, i) == 0 {
            None
        } else {
            Some(c[attach_index(placement, c, i) - 1])
        }
    } else {
        Some(s[k - 1])
    }) && after[s[k]].next == (if k == s.len() - 1 {
        if attach_index(placement, c, i) == n {
            None
        } else {
            Some(c[attach_index(placement, c, i)])
        }
    } else {
        Some(s[k + 1])
    }) by {
        assert(s.contains(s[k]));
        if 0 < k {
            assert(s[k] != first);
            assert(m[s[k - 1]].next == Some(s[k]) && m[s[k]].prev == Some(s[k - 1]));
        }
        if k < ls - 1 {
            assert(s[k] != last);
            assert(m[s[k]].next == Some(s[k + 1]));
        }
    }
}

/// The parent an attach puts a chain under: the target for a child
/// placement, the target's parent beside it.
pub open spec fn attach_parent(placement: Placement, parent: StoredNode) -> Option<NodeId> {
    match placement {
        Placement::FirstChildOf(p) | Placement::LastChildOf(p) => Some(p),
        Placement::Before(_) | Placement::After(_) => Some(parent.id),
        _ => None,
    }
}

/// An attach first puts every node of the chain from `first` to `last`
/// under the placement's parent, and sets no other parent.
pub proof fn law_attach_sets_parent(
    first: NodeId,
    last: NodeId,
    placement: Placement,
    target: StoredNode,
    parent: StoredNode,
)
    requires
        !(placement is TopLevelFirst || placement is TopLevelLast),
    ensures
        attach_writes(first, last, placement, target, parent).len() > 0,
        attach_writes(first, last, placement, target, parent)[0] == (ChainWrite::SetParentAlong {
            first,
            last,
            parent: attach_parent(placement, parent),
        }),
        forall|k: int|
            1 <= k < attach_writes(first, last, placement, target, parent).len() ==> !(
            #[trigger] attach_writes(first, last, placement, target, parent)[k] is SetParentAlong),
{
}

/// A detach takes the node out of its parent: its last write clears the
/// node's parent and siblings, and no write sets a parent.
pub proof fn law_detach_clears_parent(node: StoredNode, parent: StoredNode)
    ensures
        detach_writes(node, parent).len() > 0,
        detach_writes(node, parent).last() == (ChainWrite::Clear { node: node.id }),
        forall|k: int|
            0 <= k < detach_writes(node, parent).len() ==> !(
            #[trigger] detach_writes(node, parent)[k] is SetParentAlong),
{
}

/// Splicing a chain segment in next to a target, or as the first or last
/// children, inserts it into the parent's child list at that place: before
/// the target, after it, at the front or at the end.
pub proof fn law_attach_inserts(
    m: Map<NodeId, ChainLinks>,
    s: Seq<NodeId>,
    placement: Placement,
    target: StoredNode,
    parent: StoredNode,
    c: Seq<NodeId>,
    i: int,
)
    requires
        chain_is(m, parent.id, c),
        seg_linked(m, s),
        forall|x: NodeId| s.contains(x) ==> !c.contains(x) && x != parent.id,
        attach_frame(m, placement, target, parent, c, i),
    ensures
        ({
            let j = attach_index(placement, c, i);
            chain_is(
                apply_writes(m, attach_writes(s[0], s.last(), placement, target, parent)),
                parent.id,
                c.subrange(0, j) + s + c.subrange(j, c.len() as int),
            )
        }),
{
    match placement {
        Placement::Before(_) => lemma_attach_before_links(m, s, placement, target, parent, c, i),
        Placement::After(_) => lemma_attach_after_links(m, s, placement, target, parent, c, i),
        Placement::FirstChildOf(_) => lemma_attach_first_links(m, s, placement, target, parent, c, i),
        Placement::LastChildOf(_) => lemma_attach_last_links(m, s, placement, target, parent, c, i),
        _ => {},
    }
    lemma_linked_in_chain(
        m,
        apply_writes(m, attach_writes(s[0], s.last(), placement, target, parent)),
        parent.id,
        c,
        s,
        attach_index(placement, c, i),
    );
}

/// The neighbours a splice at `placement` links the chain `first..last` to.
pub open spec fn spliced(
    after: Map<NodeId, ChainLinks>,
    first: NodeId,
    last: NodeId,
    placement: Placement,
    target: StoredNode,
    parent: StoredNode,
) -> bool {
    match placement {
        Placement::Before(t) => {
            &&& after[first].prev == target.prev_sibling_id
            &&& after[last].next == Some(t)
            &&& after[t].prev == Some(last)
            &&& target.prev_sibling_id matches Some(p) ==> after[p].next == Some(first)
            &&& target.prev_sibling_id is None ==> after[parent.id].first == Some(first)
                && after[parent.id].last == parent.last_child_id
        },
        Placement::After(t) => {
            &&& after[first].prev == Some(t)
            &&& after[last].next == target.next_sibling_id
            &&& after[t].next == Some(first)
            &&& target.next_sibling_id matches Some(n) ==> after[n].prev == Some(last)
            &&& target.next_sibling_id is None ==> after[parent.id].last == Some(last)
                && after[parent.id].first == parent.first_child_id
        },
        Placement::FirstChildOf(p) => {
            &&& after[first].prev is None
            &&& after[last].next == target.first_child_id
            &&& target.first_child_id matches Some(f) ==> after[f].prev == Some(last)
            &&& after[p].first == Some(first)
            &&& after[p].last == (if target.last_child_id is Some {
                target.last_child_id
            } else {
                Some(last)
            })
        },
        Placement::LastChildOf(p) => {
            &&& after[last].next is None
            &&& after[first].prev == target.last_child_id
            &&& target.last_child_id matches Some(l) ==> after[l].next == Some(first)
            &&& after[p].last == Some(last)
            &&& after[p].first == (if target.first_child_id is Some {
                target.first_child_id
            } else {
                Some(first)
            })
        },
        _ => true,
    }
}

/// The nodes a splice touches besides the chain: the target, the target's
/// neighbour on the splice side, and the parent.
pub open spec fn splice_neighbours(placement: Placement, target: StoredNode, parent: StoredNode) -> Seq<
    NodeId,
> {
    match placement {
        Placement::Before(t) => match target.prev_sibling_id {
            Some(p) => seq![t, p, parent.id],
            None => seq![t, parent.id],
        },
        Placement::After(t) => match target.next_sibling_id {
            Some(n) => seq![t, n, parent.id],
            None => seq![t, parent.id],
        },
        Placement::FirstChildOf(p) => match target.first_child_id {
            Some(f) => seq![p, f],
            None => seq![p],
        },
        Placement::LastChildOf(p) => match target.last_child_id {
            Some(l) => seq![p, l],
            None => seq![p],
        },
        _ => seq![],
    }
}

/// Splicing links the chain's ends to their new neighbours and updates the
/// parent's bounds where the chain becomes first or last, provided the
/// chain does not contain its own neighbours.
pub proof fn law_attach_splices(
    m: Map<NodeId, ChainLinks>,
    first: NodeId,
    last: NodeId,
    placement: Placement,
    target: StoredNode,
    parent: StoredNode,
)
    requires
        placement.spec_target_id() == Some(target.id),
        forall|i: int|
            0 <= i < splice_neighbours(placement, target, parent).len() ==> first
                != #[trigger] splice_neighbours(placement, target, parent)[i] && last
                != splice_neighbours(placement, target, parent)[i],
        forall|i: int, j: int|
            0 <= i < j < splice_neighbours(placement, target, parent).len() ==> #[trigger] splice_neighbours(
                placement,
                target,
                parent,
            )[i] != #[trigger] splice_neighbours(placement, target, parent)[j],
    ensures
        spliced(
            apply_writes(m, attach_writes(first, last, placement, target, parent)),
            first,
            last,
            placement,
            target,
            parent,
        ),
{
    reveal_with_fuel(apply_writes, 8);
    let nb = splice_neighbours(placement, target, parent);
    match placement {
        Placement::Before(t) => {
            assert(first != nb[0] && last != nb[0]);
            if target.prev_sibling_id is Some {
                assert(nb[0] != nb[1] && nb[1] != nb[2] && nb[0] != nb[2]);
                assert(first != nb[1] && last != nb[1] && first != nb[2]);
            } else {
                assert(nb[0] != nb[1] && first != nb[1] && last != nb[1]);
            }
        },
        Placement::After(t) => {
            assert(first != nb[0] && last != nb[0]);
            if target.next_sibling_id is Some {
                assert(nb[0] != nb[1] && nb[1] != nb[2] && nb[0] != nb[2]);
                assert(first != nb[1] && last != nb[1] && last != nb[2]);
            } else {
                assert(nb[0] != nb[1] && first != nb[1] && last != nb[1]);
            }
        },
        Placement::FirstChildOf(p) => {
            assert(first != nb[0] && last != nb[0]);
            if target.first_child_id is Some {
                assert(nb[0] != nb[1] && first != nb[1] && last != nb[1]);
            }
        },
        Placement::LastChildOf(p) => {
            assert(first != nb[0] && last != nb[0]);
            if target.last_child_id is Some {
                assert(nb[0] != nb[1] && first != nb[1] && last != nb[1]);
            }
        },
        _ => {},
    }
}

// ---------------------------------------------------------------------------
// Checks before a move or a delete
// ---------------------------------------------------------------------------

/// `first`, the id `a`, `second`, the id `b`, and `third`, as one message.
pub open spec fn two_id_message(
    first: Seq<char>,
    a: NodeId,
    second: Seq<char>,
    b: NodeId,
    third: Seq<char>,
) -> Seq<char> {
    first + decimal(a@ as nat) + second + decimal(b@ as nat) + third
}

fn two_id_text(first: &str, a: NodeId, second: &str, b: NodeId, third: &str) -> (r: String)
    ensures
        r@ == two_id_message(first@, a, second@, b, third@),
{
    let mut out = to_chars(first);
    push_decimal(&mut out, a.value() as u64);
    push_all(&mut out, to_chars(second).as_slice());
    push_decimal(&mut out, b.value() as u64);
    push_all(&mut out, to_chars(third).as_slice());
    chars_to_string(out.as_slice())
}

/// A placement must name a node to go next to or under.
pub fn check_placement_kind(placement: Placement) -> (r: KernelResult<()>)
    ensures
        placement.spec_target_id() is None <==> r is Err,
        r is Err ==> (r matches Err(KernelError::Input(m)) && m@
            == "top-level placement is not supported"@),
{
    if placement.is_top_level() {
        return Err(KernelError::Input("top-level placement is not supported".to_owned()));
    }
    Ok(())
}

/// The node a placement names cannot be the moving node itself, nor lie
/// below it; `target_inside` says whether it lies in the moving node's
/// subtree.
pub fn check_placement_target(target: NodeId, moving: Option<NodeId>, target_inside: bool) -> (r:
    KernelResult<()>)
    ensures
        moving == Some(target) ==> (r matches Err(KernelError::Constraint(m)) && m@ == "node "@
            + decimal(target@ as nat) + " cannot target itself"@),
        moving matches Some(n) ==> (n != target && target_inside ==> (r matches Err(
            KernelError::Constraint(m),
        ) && m@ == "cannot place node "@ + decimal(n@ as nat) + " inside its own subtree"@)),
        r is Ok <==> (moving is None || (moving != Some(target) && !target_inside)),
{
    match moving {
        None => Ok(()),
        Some(n) => {
            if n.same(&target) {
                return Err(
                    KernelError::Constraint(message_with_id("node ", target, " cannot target itself")),
                );
            }
            if target_inside {
                return Err(
                    KernelError::Constraint(
                        message_with_id("cannot place node ", n, " inside its own subtree"),
                    ),
                );
            }
            Ok(())
        },
    }
}

/// How a cascade delete takes its node out of the structure before the
/// subtree goes.
#[derive(Debug, Clone, Copy, PartialEq, Eq, Structural)]
pub enum CascadeStart {
    /// Leave the parent's chain.
    Detach,
    /// Stop being a root node.
    DropRoot,
}

/// Decides how a cascade delete of `node` starts. `external_reference`
/// is a link into the subtree from outside it, as (target, source).
///
/// A subtree that is still referenced from outside stays; a child leaves
/// its parent's chain, a root its root entry; another top-level node
/// cannot be deleted.
pub fn plan_cascade_delete(
    node: &StoredNode,
    is_root: bool,
    external_reference: Option<(NodeId, NodeId)>,
) -> (r: KernelResult<CascadeStart>)
    ensures
        external_reference matches Some((target, source)) ==> (r matches Err(
            KernelError::Constraint(m),
        ) && m@ == two_id_message(
            "cannot cascade-delete subtree rooted at "@,
            node.id,
            ": node "@,
            source,
            " still references node "@,
        ) + decimal(target@ as nat)),
        external_reference is None && node.parent_id is Some ==> r == Ok::<
            CascadeStart,
            KernelError,
        >(CascadeStart::Detach),
        external_reference is None && node.parent_id is None && is_root ==> r == Ok::<
            CascadeStart,
            KernelError,
        >(CascadeStart::DropRoot),
        external_reference is None && node.parent_id is None && !is_root ==> (r matches Err(
            KernelError::Constraint(m),
        ) && m@ == "top-level node "@ + decimal(node.id@ as nat) + " cannot be deleted"@),
{
    if let Some((target, source)) = external_reference {
        let head = two_id_text(
            "cannot cascade-delete subtree rooted at ",
            node.id,
            ": node ",
            source,
            " still references node ",
        );
        let mut out = to_chars(head.as_str());
        push_decimal(&mut out, target.value() as u64);
        return Err(KernelError::Constraint(chars_to_string(out.as_slice())));
    }
    if node.parent_id.is_some() {
        Ok(CascadeStart::Detach)
    } else if is_root {
        Ok(CascadeStart::DropRoot)
    } else {
        let m = message_with_id("top-level node ", node.id, " cannot be deleted");
        Err(KernelError::Constraint(m))
    }
}

/// Checks that `node` may be deleted with its children moved elsewhere:
/// it must have a parent, and nothing may link to it (`incoming_source` is
/// a node that does).
pub fn check_reparent_delete(node: &StoredNode, incoming_source: Option<NodeId>) -> (r: KernelResult<
    (),
>)
    ensures
        node.parent_id is None ==> (r matches Err(KernelError::Constraint(m)) && m@
            == "top-level node "@ + decimal(node.id@ as nat) + " cannot be reparent-deleted"@),
        incoming_source matches Some(s) ==> (node.parent_id is Some ==> (r matches Err(
            KernelError::Constraint(m),
        ) && m@ == two_id_message("node "@, node.id, " is still referenced by node "@, s, ""@))),
        r is Ok <==> node.parent_id is Some && incoming_source is None,
{
    if node.parent_id.is_none() {
        return Err(
            KernelError::Constraint(
                message_with_id("top-level node ", node.id, " cannot be reparent-deleted"),
            ),
        );
    }
    if let Some(source) = incoming_source {
        return Err(
            KernelError::Constraint(
                two_id_text("node ", node.id, " is still referenced by node ", source, ""),
            ),
        );
    }
    Ok(())
}

/// The children of a deleted node cannot move into its own subtree.
pub fn check_reparent_target(node_id: NodeId, target_inside: bool) -> (r: KernelResult<()>)
    ensures
        target_inside ==> (r matches Err(KernelError::Constraint(m)) && m@
            == "cannot reparent children of "@ + decimal(node_id@ as nat) + " into its own subtree"@),
        !target_inside ==> r is Ok,
{
    if target_inside {
        return Err(
            KernelError::Constraint(
                message_with_id("cannot reparent children of ", node_id, " into its own subtree"),
            ),
        );
    }
    Ok(())
}

} // verus!

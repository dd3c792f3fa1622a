//! The link graph: paths, reachability, and the check that a node does not
//! lie on a link cycle.
use vstd::prelude::*;
use crate::domain::{clone_ids, contains_id, KernelError, KernelResult, NodeId};
use crate::repository::{read_failure, refused_as, ReadRepository};

verus! {

/// A link graph: the targets of each node's links.
pub type LinkGraph = spec_fn(NodeId) -> Seq<NodeId>;

/// The link graph that a repository holds.
pub open spec fn link_graph<R: ReadRepository>(repository: &R) -> LinkGraph {
    |id: NodeId| repository.spec_outgoing(id)
}

/// `path` follows links of `g` from its first node to its last.
pub open spec fn is_link_path(g: LinkGraph, path: Seq<NodeId>) -> bool {
    &&& path.len() > 0
    &&& forall|i: int| 0 <= i < path.len() - 1 ==> #[trigger] g(path[i]).contains(path[i + 1])
}

/// Some link path of `g` starts at one of `starts` and ends at `target`.
pub open spec fn reaches(g: LinkGraph, starts: Seq<NodeId>, target: NodeId) -> bool {
    exists|path: Seq<NodeId>|
        #![trigger is_link_path(g, path)]
        is_link_path(g, path) && starts.contains(path[0]) && path.last() == target
}

/// `node` lies on a link cycle of `g`: it reaches itself through its links.
pub open spec fn on_cycle(g: LinkGraph, node: NodeId) -> bool {
    reaches(g, g(node), node)
}

pub proof fn lemma_reaches_start(g: LinkGraph, starts: Seq<NodeId>, x: NodeId)
    requires
        starts.contains(x),
    ensures
        reaches(g, starts, x),
{
    let path = seq![x];
    assert(is_link_path(g, path));
}

pub proof fn lemma_reaches_extend(g: LinkGraph, starts: Seq<NodeId>, v: NodeId, w: NodeId)
    requires
        reaches(g, starts, v),
        g(v).contains(w),
    ensures
        reaches(g, starts, w),
{
    let path = choose|path: Seq<NodeId>|
        #![trigger is_link_path(g, path)]
        is_link_path(g, path) && starts.contains(path[0]) && path.last() == v;
    let p2 = path.push(w);
    assert forall|i: int| 0 <= i < p2.len() - 1 implies #[trigger] g(p2[i]).contains(p2[i + 1]) by {
        if i < path.len() - 1 {
            assert(p2[i] == path[i] && p2[i + 1] == path[i + 1]);
        } else {
            assert(p2[i] == v && p2[i + 1] == w);
        }
    }
    assert(is_link_path(g, p2));
}

proof fn lemma_path_stays_closed(g: LinkGraph, path: Seq<NodeId>, closed: Seq<NodeId>, i: int)
    requires
        is_link_path(g, path),
        0 <= i < path.len(),
        closed.contains(path[0]),
        forall|v: NodeId, w: NodeId|
            closed.contains(v) && #[trigger] g(v).contains(w) ==> closed.contains(w),
    ensures
        closed.contains(path[i]),
    decreases i,
{
    if i > 0 {
        lemma_path_stays_closed(g, path, closed, i - 1);
        let j = i - 1;
        assert(0 <= j < path.len() - 1);
        assert(g(path[j]).contains(path[j + 1]));
    }
}

/// A set of nodes that holds the starts, holds every target of its members'
/// links, and misses `target`, shows that `target` is unreachable.
pub proof fn lemma_closed_set_blocks(
    g: LinkGraph,
    starts: Seq<NodeId>,
    closed: Seq<NodeId>,
    target: NodeId,
)
    requires
        forall|x: NodeId| starts.contains(x) ==> closed.contains(x),
        forall|v: NodeId, w: NodeId|
            closed.contains(v) && #[trigger] g(v).contains(w) ==> closed.contains(w),
        !closed.contains(target),
    ensures
        !reaches(g, starts, target),
{
    if reaches(g, starts, target) {
        let path = choose|path: Seq<NodeId>|
            #![trigger is_link_path(g, path)]
            is_link_path(g, path) && starts.contains(path[0]) && path.last() == target;
        lemma_path_stays_closed(g, path, closed, path.len() - 1);
        assert(closed.contains(path.last()));
    }
}

/// Whether some link path from `outgoing_links` leads to `node_id`.
///
/// Follows links breadth-first; only a failing repository read makes it fail.
pub fn link_path_exists<R: ReadRepository>(
    repository: &R,
    node_id: NodeId,
    outgoing_links: &Vec<NodeId>,
) -> (r: KernelResult<bool>)
    ensures
        r matches Ok(found) ==> found == reaches(link_graph(repository), outgoing_links@, node_id),
        outgoing_links@.len() == 0 ==> (r matches Ok(found) && !found),
        outgoing_links@.len() > 0 && outgoing_links@[0] == node_id ==> (r matches Ok(found)
            && found),
        r matches Err(e) ==> read_failure(e),
{
    let ghost g = link_graph(repository);
    let mut queue = clone_ids(outgoing_links);
    let mut head: usize = 0;
    let mut visited: Vec<NodeId> = Vec::new();
    proof {
        assert forall|i: int| 0 <= i < queue@.len() implies reaches(
            g,
            outgoing_links@,
            #[trigger] queue@[i],
        ) by {
            lemma_reaches_start(g, outgoing_links@, queue@[i]);
        }
    }
    while head < queue.len()
        invariant
            g == link_graph(repository),
            head <= queue.len(),
            outgoing_links@.len() <= queue@.len(),
            forall|i: int| 0 <= i < outgoing_links@.len() ==> queue@[i] == outgoing_links@[i],
            forall|i: int| 0 <= i < head ==> visited@.contains(#[trigger] queue@[i]),
            forall|v: NodeId, w: NodeId|
                visited@.contains(v) && #[trigger] g(v).contains(w) ==> queue@.contains(w),
            !visited@.contains(node_id),
            forall|i: int| 0 <= i < queue@.len() ==> reaches(g, outgoing_links@, #[trigger] queue@[i]),
            outgoing_links@.len() == 0 ==> queue@.len() == 0,
            head == 0 ==> visited@.len() == 0,
        decreases usize::MAX - head,
    {
        let current = queue[head];
        head = head + 1;
        if contains_id(&visited, current) {
            continue;
        }
        let ghost before_visited = visited@;
        visited.push(current);
        if current.same(&node_id) {
            return Ok(true);
        }
        let next = match repository.list_outgoing_links(current) {
            Ok(ids) => ids,
            Err(e) => {
                return Err(e);
            },
        };
        let ghost before_queue = queue@;
        assert(visited@ == before_visited.push(current));
        assert(forall|i: int| 0 <= i < head - 1 ==> before_visited.contains(#[trigger] before_queue[i]));
        let mut k: usize = 0;
        while k < next.len()
            invariant
                g == link_graph(repository),
                next@ == g(current),
                head <= before_queue.len(),
                queue@.len() == before_queue.len() + k,
                k <= next.len(),
                forall|i: int| 0 <= i < before_queue.len() ==> queue@[i] == before_queue[i],
                forall|i: int| 0 <= i < k ==> queue@[before_queue.len() + i] == next@[i],
                reaches(g, outgoing_links@, current),
                forall|i: int| 0 <= i < queue@.len() ==> reaches(g, outgoing_links@, #[trigger] queue@[i]),
                outgoing_links@.len() > 0,
                head >= 1,
            decreases next.len() - k,
        {
            proof {
                assert(g(current).contains(next@[k as int]));
                lemma_reaches_extend(g, outgoing_links@, current, next@[k as int]);
            }
            queue.push(next[k]);
            k = k + 1;
        }
        proof {
            assert forall|i: int| 0 <= i < head implies visited@.contains(#[trigger] queue@[i]) by {
                if i < head - 1 {
                    assert(queue@[i] == before_queue[i]);
                    assert(before_visited.contains(before_queue[i]));
                    let j = choose|j: int|
                        0 <= j < before_visited.len() && before_visited[j] == before_queue[i];
                    assert(visited@[j] == before_visited[j]);
                } else {
                    assert(queue@[i] == current);
                    assert(visited@[visited@.len() - 1] == current);
                }
            }
            assert forall|v: NodeId, w: NodeId|
                visited@.contains(v) && #[trigger] g(v).contains(w) implies queue@.contains(w) by {
                if v == current {
                    let j = choose|j: int| 0 <= j < next@.len() && next@[j] == w;
                    assert(queue@[before_queue.len() + j] == w);
                } else {
                    assert(before_visited.contains(v));
                    assert(before_queue.contains(w));
                    let j = choose|j: int| 0 <= j < before_queue.len() && before_queue[j] == w;
                    assert(queue@[j] == w);
                }
            }
            assert(!visited@.contains(node_id)) by {
                if visited@.contains(node_id) {
                    let j = choose|j: int| 0 <= j < visited@.len() && visited@[j] == node_id;
                    if j < before_visited.len() {
                        assert(before_visited[j] == node_id);
                    }
                }
            }
        }
    }
    proof {
        assert forall|x: NodeId| outgoing_links@.contains(x) implies visited@.contains(x) by {
            let j = choose|j: int| 0 <= j < outgoing_links@.len() && outgoing_links@[j] == x;
            assert(queue@[j] == x);
        }
        assert forall|v: NodeId, w: NodeId|
            visited@.contains(v) && #[trigger] g(v).contains(w) implies visited@.contains(w) by {
            assert(queue@.contains(w));
            let j = choose|j: int| 0 <= j < queue@.len() && queue@[j] == w;
            assert(visited@.contains(queue@[j]));
        }
        lemma_closed_set_blocks(g, outgoing_links@, visited@, node_id);
    }
    Ok(false)
}

/// Rejects links whose targets lead back to `node_id`: fails with a
/// constraint error when some link path from `outgoing_links` reaches it.
pub fn ensure_no_link_cycle<R: ReadRepository>(
    repository: &R,
    node_id: NodeId,
    outgoing_links: &Vec<NodeId>,
) -> (r: KernelResult<()>)
    ensures
        r is Ok ==> !reaches(link_graph(repository), outgoing_links@, node_id),
        outgoing_links@.len() == 0 ==> r is Ok,
        outgoing_links@.len() > 0 && outgoing_links@[0] == node_id ==> r matches Err(
            KernelError::Constraint(_),
        ),
        reaches(link_graph(repository), outgoing_links@, node_id) ==> refused_as(
            r,
            crate::domain::Failure::Constraint,
        ),
        r matches Err(e) ==> e is Constraint || read_failure(e),
{
    match link_path_exists(repository, node_id, outgoing_links) {
        Ok(true) => Err(
            KernelError::Constraint(
                crate::domain::message_with_id(
                    "node ",
                    node_id,
                    " cannot participate in a link cycle",
                ),
            ),
        ),
        Ok(false) => Ok(()),
        Err(e) => Err(e),
    }
}

/// `g` with the link targets of `updates` laid over it.
pub open spec fn overlay_graph(g: LinkGraph, updates: Seq<crate::domain::NodeUpdateRecord>) -> LinkGraph {
    |id: NodeId| crate::repository::updated_links(updates, id, g(id))
}

/// A path whose nodes before its last one all have the same targets in two
/// graphs is a path of both.
proof fn lemma_path_transfer(g1: LinkGraph, g2: LinkGraph, path: Seq<NodeId>)
    requires
        is_link_path(g1, path),
        forall|i: int| 0 <= i < path.len() - 1 ==> g1(#[trigger] path[i]) == g2(path[i]),
    ensures
        is_link_path(g2, path),
{
    assert forall|i: int| 0 <= i < path.len() - 1 implies #[trigger] g2(path[i]).contains(
        path[i + 1],
    ) by {
        assert(g1(path[i]).contains(path[i + 1]));
        assert(g1(path[i]) == g2(path[i]));
    }
}

/// A prefix of a link path is a link path.
proof fn lemma_path_prefix(g: LinkGraph, path: Seq<NodeId>, n: int)
    requires
        is_link_path(g, path),
        1 <= n <= path.len(),
    ensures
        is_link_path(g, path.subrange(0, n)),
{
    let p = path.subrange(0, n);
    assert forall|i: int| 0 <= i < p.len() - 1 implies #[trigger] g(p[i]).contains(p[i + 1]) by {
        assert(p[i] == path[i] && p[i + 1] == path[i + 1]);
        assert(g(path[i]).contains(path[i + 1]));
    }
}

/// Changing the targets of `u` alone cannot create a path to `u` that did not exist.
pub proof fn lemma_first_hit(g_old: LinkGraph, g_new: LinkGraph, starts: Seq<NodeId>, u: NodeId)
    requires
        forall|x: NodeId| x != u ==> #[trigger] g_new(x) == g_old(x),
        reaches(g_new, starts, u),
    ensures
        reaches(g_old, starts, u),
{
    let path = choose|path: Seq<NodeId>|
        #![trigger is_link_path(g_new, path)]
        is_link_path(g_new, path) && starts.contains(path[0]) && path.last() == u;
    assert(path[path.len() - 1] == u);
    let a = lemma_first_occurrence(path, u);
    let p = path.subrange(0, a + 1);
    lemma_path_prefix(g_new, path, a + 1);
    assert forall|i: int| 0 <= i < p.len() - 1 implies g_new(#[trigger] p[i]) == g_old(p[i]) by {
        assert(p[i] == path[i]);
        assert(path[i] != u);
    }
    lemma_path_transfer(g_new, g_old, p);
    assert(is_link_path(g_old, p) && starts.contains(p[0]) && p.last() == u);
}

/// Some position of a sequence holds the first occurrence of a value it contains.
proof fn lemma_first_occurrence(s: Seq<NodeId>, x: NodeId) -> (a: int)
    requires
        s.contains(x),
    ensures
        0 <= a < s.len(),
        s[a] == x,
        forall|b: int| 0 <= b < a ==> s[b] != x,
    decreases s.len(),
{
    if s[0] == x {
        0
    } else {
        assert(s.drop_first().contains(x)) by {
            let j = choose|j: int| 0 <= j < s.len() && s[j] == x;
            assert(s.drop_first()[j - 1] == x);
        }
        let a = lemma_first_occurrence(s.drop_first(), x);
        assert forall|b: int| 0 <= b < a + 1 implies s[b] != x by {
            if b > 0 {
                assert(s[b] == s.drop_first()[b - 1]);
            }
        }
        a + 1
    }
}

/// Giving `u` new targets that do not lead back to `u` keeps every other
/// node `v` off cycles, when `v` was off cycles before.
pub proof fn lemma_cycle_free_extends(
    g_old: LinkGraph,
    g_new: LinkGraph,
    u: NodeId,
    v: NodeId,
)
    requires
        forall|x: NodeId| x != u ==> #[trigger] g_new(x) == g_old(x),
        v != u,
        !reaches(g_old, g_old(v), v),
        !reaches(g_new, g_new(u), u),
    ensures
        !reaches(g_new, g_new(v), v),
{
    if reaches(g_new, g_new(v), v) {
        let path = choose|path: Seq<NodeId>|
            #![trigger is_link_path(g_new, path)]
            is_link_path(g_new, path) && g_new(v).contains(path[0]) && path.last() == v;
        if path.contains(u) {
            let a = lemma_first_occurrence(path, u);
            assert(a < path.len() - 1);
            let tail = path.subrange(a + 1, path.len() as int);
            let front = path.subrange(0, a + 1);
            let q = tail + front;
            assert(g_new(path[a]).contains(path[a + 1]));
            assert forall|i: int| 0 <= i < q.len() - 1 implies #[trigger] g_new(q[i]).contains(
                q[i + 1],
            ) by {
                if i < tail.len() - 1 {
                    assert(q[i] == path[a + 1 + i] && q[i + 1] == path[a + 2 + i]);
                    assert(g_new(path[a + 1 + i]).contains(path[a + 1 + i + 1]));
                } else if i == tail.len() - 1 {
                    assert(q[i] == v && q[i + 1] == path[0]);
                } else {
                    let j = i - tail.len();
                    assert(q[i] == path[j] && q[i + 1] == path[j + 1]);
                    assert(g_new(path[j]).contains(path[j + 1]));
                }
            }
            assert(is_link_path(g_new, q) && g_new(u).contains(q[0]) && q.last() == u);
        } else {
            assert forall|i: int| 0 <= i < path.len() - 1 implies g_new(#[trigger] path[i])
                == g_old(path[i]) by {
                if path[i] == u {
                    assert(path.contains(u));
                }
            }
            lemma_path_transfer(g_new, g_old, path);
            assert(is_link_path(g_old, path) && g_old(v).contains(path[0]) && path.last() == v);
        }
    }
}

/// Changing the links of some nodes, each left on no cycle, makes no node
/// lie on a cycle that did not lie on one before: a graph without cycles
/// stays without cycles.
pub proof fn lemma_no_new_cycles(g_old: LinkGraph, g_new: LinkGraph, x: NodeId)
    requires
        forall|y: NodeId| #[trigger] g_new(y) != g_old(y) ==> !on_cycle(g_new, y),
        on_cycle(g_new, x),
    ensures
        on_cycle(g_old, x),
{
    let p = choose|path: Seq<NodeId>|
        #![trigger is_link_path(g_new, path)]
        is_link_path(g_new, path) && g_new(x).contains(path[0]) && path.last() == x;
    let q = seq![x] + p;
    assert forall|k: int| 0 <= k < q.len() - 1 implies #[trigger] g_new(q[k]).contains(q[k + 1]) by {
        if k == 0 {
            assert(q[0] == x && q[1] == p[0]);
        } else {
            assert(q[k] == p[k - 1] && q[k + 1] == p[k]);
            assert(g_new(p[k - 1]).contains(p[k - 1 + 1]));
        }
    }
    assert(q.last() == x) by {
        assert(q.last() == p.last());
    }
    if exists|i: int| 0 <= i < q.len() - 1 && g_new(#[trigger] q[i]) != g_old(q[i]) {
        let i = choose|i: int| 0 <= i < q.len() - 1 && g_new(#[trigger] q[i]) != g_old(q[i]);
        let u = q[i];
        let r = q.subrange(i + 1, q.len() as int) + q.subrange(1, i + 1);
        let n1 = q.len() - (i + 1);
        assert(n1 >= 1);
        assert forall|k: int| 0 <= k < r.len() - 1 implies #[trigger] g_new(r[k]).contains(r[k + 1]) by {
            if k < n1 - 1 {
                assert(r[k] == q[i + 1 + k] && r[k + 1] == q[i + 1 + k + 1]);
            } else if k == n1 - 1 {
                assert(r[k] == q[q.len() - 1]);
                assert(q[q.len() - 1] == q[0]);
                assert(r[k + 1] == q[1]);
            } else {
                assert(r[k] == q[k - n1 + 1] && r[k + 1] == q[k - n1 + 2]);
            }
        }
        assert(is_link_path(g_new, r));
        assert(r[0] == q[i + 1]);
        assert(g_new(u).contains(r[0]));
        assert(r.last() == u) by {
            if i == 0 {
                assert(r.last() == q[q.len() - 1]);
            } else {
                assert(r.last() == q[i]);
            }
        }
        assert(on_cycle(g_new, u));
        assert(!on_cycle(g_new, u));
    } else {
        assert forall|k: int| 0 <= k < q.len() - 1 implies g_new(#[trigger] q[k]) == g_old(q[k]) by {}
        lemma_path_transfer(g_new, g_old, q);
        let p2 = q.drop_first();
        assert forall|k: int| 0 <= k < p2.len() - 1 implies #[trigger] g_old(p2[k]).contains(p2[k + 1]) by {
            assert(p2[k] == q[k + 1] && p2[k + 1] == q[k + 2]);
            assert(g_old(q[k + 1]).contains(q[k + 1 + 1]));
        }
        assert(is_link_path(g_old, p2));
        assert(g_new(q[0]) == g_old(q[0]));
        assert(g_old(x).contains(p2[0]));
        assert(p2.last() == x);
    }
}

} // verus!

//! Read-only use cases that return rendered read models.
use vstd::prelude::*;
use crate::domain::{
    message_with_id, AliasText, IncomingLinkRecord, IncomingLinkView, KernelError,
    KernelResult,
    NodeId, NodeLine, ReadNodeView, StoredNode,
};
use crate::canonical::{
    render_storage_content, renders_alone, renders_as, renders_in, stored_corrupt,
};
use crate::text::{chars_to_string, to_chars};
use crate::repository::{child_chain, missing_node, ReadRepository};

verus! {

/// A node line shows a node: its id, and a rendering of its content.
pub open spec fn shows(line: NodeLine, node: StoredNode) -> bool {
    line.id == node.id && renders_as(node.content@, line.rendered_content@)
}

/// A related line is present exactly when the related id is, and names it.
pub open spec fn related(id: Option<NodeId>, line: Option<NodeLine>) -> bool {
    match (id, line) {
        (None, None) => true,
        (Some(i), Some(l)) => l.id == i,
        _ => false,
    }
}

/// A related line is present exactly when the related id is, and shows the
/// stored node of that id.
pub open spec fn related_shown<R: ReadRepository>(
    repository: &R,
    id: Option<NodeId>,
    line: Option<NodeLine>,
) -> bool {
    match (id, line) {
        (None, None) => true,
        (Some(i), Some(l)) => repository.spec_node(i) matches Some(n) && shows(l, n),
        _ => false,
    }
}

/// Each line shows the node at its position.
pub open spec fn all_show(lines: Seq<NodeLine>, nodes: Seq<StoredNode>) -> bool {
    lines.len() == nodes.len() && forall|i: int|
        0 <= i < nodes.len() ==> shows(#[trigger] lines[i], nodes[i])
}

/// Renders one stored node.
pub fn render_node_line<R: ReadRepository>(repository: &R, node: &StoredNode) -> (r: KernelResult<
    NodeLine,
>)
    ensures
        r matches Ok(line) ==> shows(line, *node),
        r matches Ok(line) ==> renders_in(repository, node.content@, line.rendered_content@),
        renders_alone(node.content@) ==> r is Ok,
        stored_corrupt(node.content@) ==> r matches Err(KernelError::StorageCorruption(_)),
{
    match render_storage_content(repository, &node.content) {
        Ok(rendered_content) => Ok(NodeLine { id: node.id, rendered_content }),
        Err(e) => Err(e),
    }
}

/// Renders every node of a list, in order.
pub fn render_node_lines<R: ReadRepository>(repository: &R, nodes: &Vec<StoredNode>) -> (r:
    KernelResult<Vec<NodeLine>>)
    ensures
        r matches Ok(lines) ==> lines@.len() == nodes@.len() && forall|i: int|
            0 <= i < nodes@.len() ==> shows(#[trigger] lines@[i], nodes@[i]),
        r matches Ok(lines) ==> forall|i: int|
            0 <= i < nodes@.len() ==> renders_in(
                repository,
                nodes@[i].content@,
                (#[trigger] lines@[i]).rendered_content@,
            ),
        (forall|i: int| 0 <= i < nodes@.len() ==> renders_alone((#[trigger] nodes@[i]).content@))
            ==> r is Ok,
        (exists|i: int| 0 <= i < nodes@.len() && stored_corrupt((#[trigger] nodes@[i]).content@))
            ==> r is Err,
{
    let mut lines: Vec<NodeLine> = Vec::new();
    let mut k: usize = 0;
    while k < nodes.len()
        invariant
            k <= nodes.len(),
            lines@.len() == k,
            forall|i: int| 0 <= i < k ==> shows(#[trigger] lines@[i], nodes@[i]),
            forall|i: int|
                0 <= i < k ==> renders_in(
                    repository,
                    nodes@[i].content@,
                    (#[trigger] lines@[i]).rendered_content@,
                ),
            forall|i: int| 0 <= i < k ==> !stored_corrupt((#[trigger] nodes@[i]).content@),
        decreases nodes.len() - k,
    {
        match render_node_line(repository, &nodes[k]) {
            Ok(line) => lines.push(line),
            Err(e) => {
                return Err(e);
            },
        }
        k = k + 1;
    }
    Ok(lines)
}

/// Renders the node a structural link points at, if there is one.
pub fn load_related_node_line<R: ReadRepository>(
    repository: &R,
    node_id: Option<NodeId>,
) -> (r: KernelResult<Option<NodeLine>>)
    ensures
        node_id is None ==> r == Ok::<Option<NodeLine>, KernelError>(None),
        r matches Ok(line) ==> related(node_id, line) && related_shown(repository, node_id, line),
        node_id matches Some(i) && repository.spec_node(i) is None ==> r is Err,
{
    let id = match node_id {
        None => {
            return Ok(None);
        },
        Some(id) => id,
    };
    let node = match repository.get_node(id) {
        Ok(Some(n)) => n,
        Ok(None) => {
            return Err(
                KernelError::StorageCorruption(message_with_id("missing related node ", id, "")),
            );
        },
        Err(e) => {
            return Err(e);
        },
    };
    match render_node_line(repository, &node) {
        Ok(line) => Ok(Some(line)),
        Err(e) => Err(e),
    }
}

/// Each view shows the record at its position: the source node, its
/// content rendered, and the link's ordinal and path.
pub open spec fn incoming_shown(views: Seq<IncomingLinkView>, records: Seq<IncomingLinkRecord>) -> bool {
    &&& views.len() == records.len()
    &&& forall|i: int|
        0 <= i < records.len() ==> {
            &&& (#[trigger] views[i]).source.id == records[i].source_node_id
            &&& renders_as(records[i].source_content@, views[i].source.rendered_content@)
            &&& views[i].ordinal == records[i].ordinal
            &&& views[i].path@ == records[i].path@
        }
}

/// Each view's source content is rendered as read from `repository`.
pub open spec fn incoming_rendered_in<R: ReadRepository>(
    repository: &R,
    views: Seq<IncomingLinkView>,
    records: Seq<IncomingLinkRecord>,
) -> bool {
    forall|i: int|
        0 <= i < views.len() && i < records.len() ==> renders_in(
            repository,
            records[i].source_content@,
            (#[trigger] views[i]).source.rendered_content@,
        )
}

/// Renders the links that point at a node, in the order given.
pub fn render_incoming_links<R: ReadRepository>(
    repository: &R,
    incoming: &Vec<IncomingLinkRecord>,
) -> (r: KernelResult<Vec<IncomingLinkView>>)
    ensures
        r matches Ok(views) ==> incoming_shown(views@, incoming@),
        r matches Ok(views) ==> incoming_rendered_in(repository, views@, incoming@),
        (forall|i: int|
            0 <= i < incoming@.len() ==> renders_alone((#[trigger] incoming@[i]).source_content@))
            ==> r is Ok,
        (exists|i: int|
            0 <= i < incoming@.len() && stored_corrupt((#[trigger] incoming@[i]).source_content@))
            ==> r is Err,
{
    let mut views: Vec<IncomingLinkView> = Vec::new();
    let mut k: usize = 0;
    while k < incoming.len()
        invariant
            k <= incoming.len(),
            views@.len() == k,
            forall|i: int|
                0 <= i < k ==> {
                    &&& (#[trigger] views@[i]).source.id == incoming@[i].source_node_id
                    &&& renders_as(incoming@[i].source_content@, views@[i].source.rendered_content@)
                    &&& views@[i].ordinal == incoming@[i].ordinal
                    &&& views@[i].path@ == incoming@[i].path@
                },
            forall|i: int| 0 <= i < k ==> !stored_corrupt((#[trigger] incoming@[i]).source_content@),
            forall|i: int|
                0 <= i < k ==> renders_in(
                    repository,
                    incoming@[i].source_content@,
                    (#[trigger] views@[i]).source.rendered_content@,
                ),
        decreases incoming.len() - k,
    {
        let record = &incoming[k];
        let rendered_content = match render_storage_content(repository, &record.source_content) {
            Ok(c) => c,
            Err(e) => {
                return Err(e);
            },
        };
        let ghost before = views@;
        views.push(
            IncomingLinkView {
                source: NodeLine { id: record.source_node_id, rendered_content },
                ordinal: record.ordinal,
                path: copy_text(&record.path),
            },
        );
        assert forall|i: int| 0 <= i < k + 1 implies {
            &&& (#[trigger] views@[i]).source.id == incoming@[i].source_node_id
            &&& renders_as(incoming@[i].source_content@, views@[i].source.rendered_content@)
            &&& views@[i].ordinal == incoming@[i].ordinal
            &&& views@[i].path@ == incoming@[i].path@
        } by {
            if i < k {
                assert(views@[i] == before[i]);
            }
        }
        assert forall|i: int| 0 <= i < k + 1 implies renders_in(
            repository,
            incoming@[i].source_content@,
            (#[trigger] views@[i]).source.rendered_content@,
        ) by {
            if i < k {
                assert(views@[i] == before[i]);
            }
        }
        k = k + 1;
    }
    Ok(views)
}

fn copy_text(s: &String) -> (r: String)
    ensures
        r@ == s@,
{
    let chars = to_chars(s.as_str());
    chars_to_string(chars.as_slice())
}

/// Builds the rendered read view for one node: the node, its parent and
/// siblings, its children, and the links that point at it.
pub fn read_node<R: ReadRepository>(repository: &R, node_id: NodeId) -> (r: KernelResult<
    ReadNodeView,
>)
    ensures
        r matches Ok(view) ==> {
            &&& view.node.id == node_id
            &&& repository.spec_node(node_id) matches Some(node)
            &&& shows(view.node, node)
            &&& related_shown(repository, node.parent_id, view.parent)
            &&& related_shown(repository, node.prev_sibling_id, view.prev_sibling)
            &&& related_shown(repository, node.next_sibling_id, view.next_sibling)
            &&& exists|kids: Seq<StoredNode>|
                #[trigger] all_show(view.children@, kids) && child_chain(
                    repository,
                    Some(node_id),
                    kids,
                ) && forall|i: int|
                    0 <= i < kids.len() ==> renders_in(
                        repository,
                        kids[i].content@,
                        (#[trigger] view.children@[i]).rendered_content@,
                    )
            &&& incoming_shown(view.incoming_links@, repository.spec_incoming(node_id))
            &&& incoming_rendered_in(repository, view.incoming_links@, repository.spec_incoming(node_id))
            &&& renders_in(repository, node.content@, view.node.rendered_content@)
        },
        repository.spec_node(node_id) is None ==> missing_node(r, node_id),
{
    let node = match repository.get_node(node_id) {
        Ok(Some(n)) => n,
        Ok(None) => {
            return Err(KernelError::NotFound { entity: "node", id: node_id });
        },
        Err(e) => {
            return Err(e);
        },
    };
    let node_line = match render_node_line(repository, &node) {
        Ok(l) => l,
        Err(e) => {
            return Err(e);
        },
    };
    let parent = match load_related_node_line(repository, node.parent_id) {
        Ok(l) => l,
        Err(e) => {
            return Err(e);
        },
    };
    let prev_sibling = match load_related_node_line(repository, node.prev_sibling_id) {
        Ok(l) => l,
        Err(e) => {
            return Err(e);
        },
    };
    let next_sibling = match load_related_node_line(repository, node.next_sibling_id) {
        Ok(l) => l,
        Err(e) => {
            return Err(e);
        },
    };
    let child_nodes = match repository.list_children(Some(node_id)) {
        Ok(c) => c,
        Err(e) => {
            return Err(e);
        },
    };
    let children = match render_node_lines(repository, &child_nodes) {
        Ok(c) => c,
        Err(e) => {
            return Err(e);
        },
    };
    let incoming = match repository.list_incoming_links(node_id) {
        Ok(i) => i,
        Err(e) => {
            return Err(e);
        },
    };
    let incoming_links = match render_incoming_links(repository, &incoming) {
        Ok(v) => v,
        Err(e) => {
            return Err(e);
        },
    };
    let view = ReadNodeView {
        node: node_line,
        parent,
        prev_sibling,
        next_sibling,
        children,
        incoming_links,
    };
    assert(shows(view.node, node));
    assert(all_show(view.children@, child_nodes@));
    assert(child_chain(repository, Some(node_id), child_nodes@));
    Ok(view)
}

/// Lists rendered top-level nodes in sibling-chain order.
pub fn list_top_level<R: ReadRepository>(repository: &R) -> (r: KernelResult<Vec<NodeLine>>)
    ensures
        r matches Ok(lines) ==> exists|nodes: Seq<StoredNode>|
            #[trigger] all_show(lines@, nodes) && child_chain(repository, None, nodes) && forall|
                i: int,
            |
                0 <= i < nodes.len() ==> renders_in(
                    repository,
                    nodes[i].content@,
                    (#[trigger] lines@[i]).rendered_content@,
                ),
{
    match repository.list_children(None) {
        Ok(nodes) => {
            let r = render_node_lines(repository, &nodes);
            assert(r matches Ok(lines) ==> all_show(lines@, nodes@));
            r
        },
        Err(e) => Err(e),
    }
}

/// Lists rendered direct children for one parent node.
pub fn list_children<R: ReadRepository>(repository: &R, parent_id: NodeId) -> (r: KernelResult<
    Vec<NodeLine>,
>)
    ensures
        r matches Ok(lines) ==> exists|nodes: Seq<StoredNode>|
            #[trigger] all_show(lines@, nodes) && child_chain(repository, Some(parent_id), nodes) && forall|
                i: int,
            |
                0 <= i < nodes.len() ==> renders_in(
                    repository,
                    nodes[i].content@,
                    (#[trigger] lines@[i]).rendered_content@,
                ),
{
    match repository.list_children(Some(parent_id)) {
        Ok(nodes) => {
            let r = render_node_lines(repository, &nodes);
            assert(r matches Ok(lines) ==> all_show(lines@, nodes@));
            r
        },
        Err(e) => Err(e),
    }
}

/// Lists aliases for one node after confirming that the node exists.
pub fn list_aliases<R: ReadRepository>(repository: &R, node_id: NodeId) -> (r: KernelResult<
    Vec<AliasText>,
>)
    ensures
        repository.spec_node(node_id) is None ==> missing_node(r, node_id),
        r matches Ok(aliases) ==> aliases@ == repository.spec_aliases(node_id),
{
    match repository.get_node(node_id) {
        Ok(Some(_)) => {},
        Ok(None) => {
            return Err(KernelError::NotFound { entity: "node", id: node_id });
        },
        Err(e) => {
            return Err(e);
        },
    }
    repository.list_aliases(node_id)
}

/// `v` is the stored node `start` followed by its ancestors up to a
/// top-level node.
pub open spec fn ancestor_chain<R: ReadRepository>(
    repository: &R,
    start: NodeId,
    v: Seq<StoredNode>,
) -> bool {
    &&& v.len() > 0
    &&& v[0].id == start
    &&& forall|k: int| 0 <= k < v.len() ==> repository.spec_node((#[trigger] v[k]).id) == Some(v[k])
    &&& forall|k: int| 0 <= k < v.len() - 1 ==> (#[trigger] v[k]).parent_id == Some(v[k + 1].id)
    &&& v.last().parent_id is None
}

/// The segments from the last to the first, separated by ` > `.
pub open spec fn path_text(segments: Seq<Seq<char>>) -> Seq<char>
    decreases segments.len(),
{
    if segments.len() == 0 {
        seq![]
    } else if segments.len() == 1 {
        segments[0]
    } else {
        path_text(segments.drop_first()) + " > "@ + segments[0]
    }
}

/// The rendered contents from the top-level ancestor down to the node,
/// separated by ` > `.
pub fn node_path_of<R: ReadRepository>(repository: &R, node_id: NodeId) -> (r: KernelResult<
    String,
>)
    ensures
        r matches Ok(s) ==> exists|v: Seq<StoredNode>, segments: Seq<Seq<char>>|
            #![trigger ancestor_chain(repository, node_id, v), path_text(segments)]
            ancestor_chain(repository, node_id, v) && segments.len() == v.len() && (forall|k: int|
                0 <= k < v.len() ==> renders_as((#[trigger] v[k]).content@, segments[k])) && s@
                == path_text(segments),
        repository.spec_node(node_id) is None ==> r is Err,
{
    let mut chain: Vec<StoredNode> = Vec::new();
    let mut segments: Vec<String> = Vec::new();
    let mut current = Some(node_id);
    loop
        invariant
            chain@.len() == segments@.len(),
            chain@.len() == 0 ==> current == Some(node_id),
            chain@.len() > 0 ==> chain@[0].id == node_id && current == chain@.last().parent_id,
            forall|k: int|
                0 <= k < chain@.len() ==> repository.spec_node((#[trigger] chain@[k]).id) == Some(
                    chain@[k],
                ),
            forall|k: int|
                0 <= k < chain@.len() - 1 ==> (#[trigger] chain@[k]).parent_id == Some(
                    chain@[k + 1].id,
                ),
            forall|k: int|
                0 <= k < chain@.len() ==> renders_as(
                    (#[trigger] chain@[k]).content@,
                    segments@[k]@,
                ),
        ensures
            current is None,
            chain@.len() == segments@.len(),
            chain@.len() > 0 && chain@[0].id == node_id && chain@.last().parent_id is None,
            forall|k: int|
                0 <= k < chain@.len() ==> repository.spec_node((#[trigger] chain@[k]).id) == Some(
                    chain@[k],
                ),
            forall|k: int|
                0 <= k < chain@.len() - 1 ==> (#[trigger] chain@[k]).parent_id == Some(
                    chain@[k + 1].id,
                ),
            forall|k: int|
                0 <= k < chain@.len() ==> renders_as(
                    (#[trigger] chain@[k]).content@,
                    segments@[k]@,
                ),
        decreases usize::MAX - chain@.len(),
    {
        let current_id = match current {
            None => {
                break ;
            },
            Some(id) => id,
        };
        if chain.len() == usize::MAX {
            return Err(
                KernelError::StorageCorruption(
                    message_with_id("ancestors of node ", node_id, " do not end"),
                ),
            );
        }
        let node = match repository.get_node(current_id) {
            Ok(Some(n)) => n,
            Ok(None) => {
                return Err(
                    KernelError::StorageCorruption(
                        message_with_id("missing node ", current_id, " while computing path"),
                    ),
                );
            },
            Err(e) => {
                return Err(e);
            },
        };
        let rendered = match render_storage_content(repository, &node.content) {
            Ok(out) => out,
            Err(e) => {
                return Err(e);
            },
        };
        current = node.parent_id;
        let ghost before = chain@;
        let ghost before_segments = segments@;
        chain.push(node);
        segments.push(rendered);
        proof {
            assert forall|k: int| 0 <= k < chain@.len() - 1 implies (#[trigger] chain@[k]).parent_id
                == Some(chain@[k + 1].id) by {
                if k < before.len() - 1 {
                    assert(chain@[k] == before[k] && chain@[k + 1] == before[k + 1]);
                } else {
                    assert(chain@[k] == before.last());
                }
            }
            assert forall|k: int| 0 <= k < chain@.len() implies renders_as(
                (#[trigger] chain@[k]).content@,
                segments@[k]@,
            ) by {
                if k < before.len() {
                    assert(chain@[k] == before[k] && segments@[k] == before_segments[k]);
                }
            }
        }
    }
    let ghost segs = segments@.map_values(|t: String| t@);
    let mut out: Vec<char> = Vec::new();
    let mut k: usize = segments.len();
    while k > 0
        invariant
            k <= segments@.len(),
            segs == segments@.map_values(|t: String| t@),
            out@ == path_text(segs.skip(k as int)),
        decreases k,
    {
        k = k - 1;
        if k + 1 < segments.len() {
            crate::text::push_all(&mut out, to_chars(" > ").as_slice());
        }
        crate::text::push_all(&mut out, to_chars(segments[k].as_str()).as_slice());
        proof {
            reveal_strlit(" > ");
            let t = segs.skip(k as int);
            assert(t.drop_first() =~= segs.skip(k + 1));
            assert(t[0] == segments@[k as int]@);
            if k + 1 < segments@.len() {
                assert(out@ =~= path_text(segs.skip(k + 1)) + " > "@ + t[0]);
            } else {
                assert(segs.skip(k + 1).len() == 0);
                assert(out@ =~= t[0]);
            }
        }
    }
    proof {
        assert(segs.skip(0) =~= segs);
        assert(ancestor_chain(repository, node_id, chain@));
        assert forall|j: int| 0 <= j < chain@.len() implies renders_as(
            (#[trigger] chain@[j]).content@,
            segs[j],
        ) by {}
    }
    Ok(chars_to_string(out.as_slice()))
}

} // verus!

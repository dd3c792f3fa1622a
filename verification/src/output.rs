//! The plain text the command prints for each result, line by line.
use vstd::prelude::*;
use crate::application::{
    BacklinkLine, ChildContextLine, DayView, NoteResult, ReadContextView, RootApplyResult,
    RootCreateResult,
};
use crate::domain::{NodeId, NodeLine};
use crate::text::{chars_to_string, decimal, push_all, push_decimal, to_chars};

verus! {

/// A line of text and its line feed.
pub open spec fn line(t: Seq<char>) -> Seq<char> {
    t + seq!['\n']
}

/// `marker[id] text`, as one line.
pub open spec fn node_text(marker: Seq<char>, id: NodeId, text: Seq<char>) -> Seq<char> {
    line(marker + seq!['['] + decimal(id@ as nat) + seq![']', ' '] + text)
}

/// One `marker[id] text` line per node line, in order.
pub open spec fn node_texts(marker: Seq<char>, lines: Seq<NodeLine>) -> Seq<char>
    decreases lines.len(),
{
    if lines.len() == 0 {
        seq![]
    } else {
        node_texts(marker, lines.drop_last()) + node_text(
            marker,
            lines.last().id,
            lines.last().rendered_content@,
        )
    }
}

/// One `marker[bl:id] text` line per backlink, in order.
pub open spec fn backlink_texts(marker: Seq<char>, links: Seq<BacklinkLine>) -> Seq<char>
    decreases links.len(),
{
    if links.len() == 0 {
        seq![]
    } else {
        backlink_texts(marker, links.drop_last()) + line(
            marker + "[bl:"@ + decimal(links.last().source.id@ as nat) + seq![']', ' ']
                + links.last().source.rendered_content@,
        )
    }
}

/// `before` + count + `after` as one line when the count is not zero.
pub open spec fn count_line(count: usize, before: Seq<char>, after: Seq<char>) -> Seq<char> {
    if count > 0 {
        line(before + decimal(count as nat) + after)
    } else {
        seq![]
    }
}

/// A child with its backlinks and the count of those hidden.
pub open spec fn child_text(c: ChildContextLine) -> Seq<char> {
    node_text("--"@, c.node.id, c.node.rendered_content@) + backlink_texts(">>"@, c.backlinks@)
        + count_line(c.hidden_backlink_count, "..."@, " child backlinks hiding..."@)
}

pub open spec fn children_text(children: Seq<ChildContextLine>) -> Seq<char>
    decreases children.len(),
{
    if children.len() == 0 {
        seq![]
    } else {
        children_text(children.drop_last()) + child_text(children.last())
    }
}

/// What `note` prints.
pub open spec fn note_text(r: NoteResult) -> Seq<char> {
    line(r.note_date@) + node_text("+"@, r.node.id, r.node.rendered_content@)
}

/// What `day` prints; an empty day of today says where notes go.
pub open spec fn day_text(v: DayView, is_today: bool, database_path: Seq<char>) -> Seq<char> {
    line(v.note_date@) + line(seq![]) + if v.entries@.len() == 0 {
        line("empty"@) + if is_today {
            line("database path: "@ + database_path) + line(
                "use: memoryroam --db <database-path> note \"...\""@,
            )
        } else {
            seq![]
        }
    } else {
        node_texts("-"@, v.entries@)
    }
}

/// What `root create` prints.
pub open spec fn root_create_text(r: RootCreateResult) -> Seq<char> {
    line("root ["@ + decimal(r.root.id@ as nat) + seq![']', ' '] + r.root.rendered_content@) + line(
        seq![],
    ) + line("matches:"@) + node_texts("-"@, r.matches@) + count_line(
        r.hidden_match_count,
        "..."@,
        " more matches..."@,
    )
}

/// What `root apply` prints.
pub open spec fn root_apply_text(r: RootApplyResult) -> Seq<char> {
    line("updated:"@) + node_texts("-"@, r.updated_nodes@)
}

/// What `read` prints: hidden previous siblings, the previous siblings,
/// the node, its backlinks, its children, the next siblings, and the
/// counts of what is hidden.
pub open spec fn read_text(v: ReadContextView) -> Seq<char> {
    count_line(v.prev_hidden_count, "...prev "@, " sibling hiding..."@) + node_texts(
        "-"@,
        v.prev_siblings@,
    ) + node_text("="@, v.current.id, v.current.rendered_content@) + backlink_texts(
        ">"@,
        v.backlinks@,
    ) + count_line(v.hidden_backlink_count, "..."@, " backlinks hiding..."@) + children_text(
        v.children@,
    ) + count_line(v.hidden_child_count, "..."@, " children hiding..."@) + node_texts(
        "-"@,
        v.next_siblings@,
    ) + count_line(v.next_hidden_count, "...next "@, " sibling hiding..."@)
}

fn push_str(out: &mut Vec<char>, s: &str)
    ensures
        final(out)@ == old(out)@ + s@,
{
    let chars = to_chars(s);
    push_all(out, chars.as_slice());
}

fn push_line_end(out: &mut Vec<char>)
    ensures
        final(out)@ == old(out)@ + seq!['\n'],
{
    out.push('\n');
}

fn push_node_text(out: &mut Vec<char>, marker: &str, id: NodeId, text: &str)
    ensures
        final(out)@ == old(out)@ + node_text(marker@, id, text@),
{
    push_str(out, marker);
    out.push('[');
    push_decimal(out, id.value() as u64);
    out.push(']');
    out.push(' ');
    push_str(out, text);
    out.push('\n');
    assert(out@ =~= old(out)@ + node_text(marker@, id, text@));
}

fn push_node_texts(out: &mut Vec<char>, marker: &str, lines: &Vec<NodeLine>)
    ensures
        final(out)@ == old(out)@ + node_texts(marker@, lines@),
{
    let mut k: usize = 0;
    while k < lines.len()
        invariant
            k <= lines@.len(),
            out@ == old(out)@ + node_texts(marker@, lines@.take(k as int)),
        decreases lines.len() - k,
    {
        push_node_text(out, marker, lines[k].id, lines[k].rendered_content.as_str());
        assert(lines@.take(k + 1).drop_last() =~= lines@.take(k as int));
        k = k + 1;
    }
    assert(lines@.take(k as int) =~= lines@);
}

fn push_backlink_texts(out: &mut Vec<char>, marker: &str, links: &Vec<BacklinkLine>)
    ensures
        final(out)@ == old(out)@ + backlink_texts(marker@, links@),
{
    let mut k: usize = 0;
    while k < links.len()
        invariant
            k <= links@.len(),
            out@ == old(out)@ + backlink_texts(marker@, links@.take(k as int)),
        decreases links.len() - k,
    {
        let ghost before = out@;
        push_str(out, marker);
        push_str(out, "[bl:");
        push_decimal(out, links[k].source.id.value() as u64);
        out.push(']');
        out.push(' ');
        push_str(out, links[k].source.rendered_content.as_str());
        out.push('\n');
        proof {
            assert(links@.take(k + 1).drop_last() =~= links@.take(k as int));
            assert(links@.take(k + 1).last() == links@[k as int]);
            assert(out@ =~= before + line(
                marker@ + "[bl:"@ + decimal(links@[k as int].source.id@ as nat) + seq![']', ' ']
                    + links@[k as int].source.rendered_content@,
            ));
        }
        k = k + 1;
    }
    assert(links@.take(k as int) =~= links@);
}

fn push_count_line(out: &mut Vec<char>, count: usize, before: &str, after: &str)
    ensures
        final(out)@ == old(out)@ + count_line(count, before@, after@),
{
    if count > 0 {
        push_str(out, before);
        push_decimal(out, count as u64);
        push_str(out, after);
        out.push('\n');
        assert(out@ =~= old(out)@ + count_line(count, before@, after@));
    } else {
        assert(out@ =~= old(out)@ + count_line(count, before@, after@));
    }
}

/// The text `note` prints.
pub fn format_note_result(result: &NoteResult) -> (r: String)
    ensures
        r@ == note_text(*result),
{
    let mut out = to_chars(result.note_date.as_str());
    push_line_end(&mut out);
    push_node_text(&mut out, "+", result.node.id, result.node.rendered_content.as_str());
    assert(out@ =~= note_text(*result));
    chars_to_string(out.as_slice())
}

/// The text `day` prints.
pub fn format_day_view(view: &DayView, is_today: bool, database_path: &str) -> (r: String)
    ensures
        r@ == day_text(*view, is_today, database_path@),
{
    let mut out = to_chars(view.note_date.as_str());
    push_line_end(&mut out);
    push_line_end(&mut out);
    let ghost head = out@;
    if view.entries.len() == 0 {
        push_str(&mut out, "empty");
        push_line_end(&mut out);
        if is_today {
            push_str(&mut out, "database path: ");
            push_str(&mut out, database_path);
            push_line_end(&mut out);
            push_str(&mut out, "use: memoryroam --db <database-path> note \"...\"");
            push_line_end(&mut out);
        }
    } else {
        push_node_texts(&mut out, "-", &view.entries);
    }
    proof {
        reveal_strlit("");
    }
    assert(out@ =~= day_text(*view, is_today, database_path@));
    chars_to_string(out.as_slice())
}

/// The text `root create` prints.
pub fn format_root_create_result(result: &RootCreateResult) -> (r: String)
    ensures
        r@ == root_create_text(*result),
{
    let mut out = to_chars("root [");
    push_decimal(&mut out, result.root.id.value() as u64);
    out.push(']');
    out.push(' ');
    push_str(&mut out, result.root.rendered_content.as_str());
    push_line_end(&mut out);
    push_line_end(&mut out);
    push_str(&mut out, "matches:");
    push_line_end(&mut out);
    push_node_texts(&mut out, "-", &result.matches);
    push_count_line(&mut out, result.hidden_match_count, "...", " more matches...");
    assert(out@ =~= root_create_text(*result));
    chars_to_string(out.as_slice())
}

/// The text `root apply` prints.
pub fn format_root_apply_result(result: &RootApplyResult) -> (r: String)
    ensures
        r@ == root_apply_text(*result),
{
    let mut out = to_chars("updated:");
    push_line_end(&mut out);
    push_node_texts(&mut out, "-", &result.updated_nodes);
    assert(out@ =~= root_apply_text(*result));
    chars_to_string(out.as_slice())
}

/// The text `read` prints.
pub fn format_read_context(view: &ReadContextView) -> (r: String)
    ensures
        r@ == read_text(*view),
{
    let mut out: Vec<char> = Vec::new();
    push_count_line(&mut out, view.prev_hidden_count, "...prev ", " sibling hiding...");
    push_node_texts(&mut out, "-", &view.prev_siblings);
    push_node_text(&mut out, "=", view.current.id, view.current.rendered_content.as_str());
    push_backlink_texts(&mut out, ">", &view.backlinks);
    push_count_line(&mut out, view.hidden_backlink_count, "...", " backlinks hiding...");
    let ghost before_children = out@;
    let mut k: usize = 0;
    while k < view.children.len()
        invariant
            k <= view.children@.len(),
            out@ == before_children + children_text(view.children@.take(k as int)),
        decreases view.children.len() - k,
    {
        let child = &view.children[k];
        let ghost start = out@;
        push_node_text(&mut out, "--", child.node.id, child.node.rendered_content.as_str());
        push_backlink_texts(&mut out, ">>", &child.backlinks);
        push_count_line(
            &mut out,
            child.hidden_backlink_count,
            "...",
            " child backlinks hiding...",
        );
        proof {
            assert(view.children@.take(k + 1).drop_last() =~= view.children@.take(k as int));
            assert(view.children@.take(k + 1).last() == view.children@[k as int]);
            assert(out@ =~= start + child_text(view.children@[k as int]));
        }
        k = k + 1;
    }
    assert(view.children@.take(k as int) =~= view.children@);
    push_count_line(&mut out, view.hidden_child_count, "...", " children hiding...");
    push_node_texts(&mut out, "-", &view.next_siblings);
    push_count_line(&mut out, view.next_hidden_count, "...next ", " sibling hiding...");
    assert(out@ =~= read_text(*view));
    chars_to_string(out.as_slice())
}

} // verus!

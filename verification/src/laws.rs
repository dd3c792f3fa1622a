//! Properties of the note syntax that hold across parsing, canonical
//! storage and rendering, and of the use cases built on it: the calendar
//! of daily notes, the order of root matches, root apply and what `read`
//! shows.
use vstd::prelude::*;
use crate::domain::{lookup_key_of, LookupKeyError};
use crate::syntax::{fragments_text, links_of, parse_spec, FragmentSpec, LinkSyntaxError};
use crate::canonical::{canonical_text, has_lookup, has_unlabelled, ids_fit, renders_as, resolve};
use crate::printing::{
    lemma_links_of_members, lemma_parse_printable, lemma_print_parse, lemma_rendered_at,
    lemma_render_text_prints, lemma_resolve_identity, lemma_resolved_printable, lemma_link_count_at,
    lemma_printable_by_shape, lemma_preview_label_valid, link_count, normalized, printable_link, rendered_fragments,
};

use crate::application::{
    apply_needle, apply_node_ok, ascii_count, token_estimate, apply_refused, apply_text_ok, daily_neighbors, days_in_month,
    first_unfit, match_precedes, mentions, DayView, ReadContextView, RootApplyResult,
    RootCreateResult,
};
use crate::text::decimal;
use crate::domain::{DailyNoteRecord, NodeId, NodeLine, StoredNode};
use crate::output::{
    count_line, day_text, line, node_text, node_texts, read_text, root_apply_text, root_create_text,
};
use crate::repository::ReadRepository;
use crate::text::starts_with;

verus! {

/// Lookup normalization is idempotent: a normalized key normalizes to itself.
pub proof fn law_lookup_normalization_idempotent(raw: Seq<char>)
    ensures
        lookup_key_of(raw) matches Ok(k) ==> lookup_key_of(k) == Ok::<Seq<char>, LookupKeyError>(k),
{
    if let Ok(k) = lookup_key_of(raw) {
        crate::domain::lemma_trim_idempotent(raw);
    }
}

/// Printing parsed content and parsing the print again gives the same
/// fragments, with numeric tokens read as the plain id links they print as.
pub proof fn law_print_parse_roundtrip(s: Seq<char>)
    ensures
        parse_spec(s) matches Ok(fs) ==> parse_spec(fragments_text(normalized(fs))) == Ok::<
            Seq<FragmentSpec>,
            LinkSyntaxError,
        >(normalized(fs)),
{
    lemma_parse_printable(s, 0);
    if let Ok(fs) = parse_spec(s) {
        lemma_print_parse(normalized(fs));
    }
}

/// Canonical content is stable: when every link of parsed content is bound
/// to a valid node id, the canonical text parses back to the resolved
/// fragments, holds no lookup token, and canonicalizing it again, whatever
/// ids its links are bound to, gives the same text.
pub proof fn law_canonical_form_is_stable(s: Seq<char>, ids: Seq<int>)
    requires
        parse_spec(s) is Ok,
        ids_fit(links_of(parse_spec(s)->Ok_0), ids),
        forall|n: int| 0 <= n < ids.len() ==> 1 <= #[trigger] ids[n] <= 0x7fff_ffff_ffff_ffff,
    ensures
        ({
            let fs = parse_spec(s)->Ok_0;
            let c = canonical_text(fs, ids);
            &&& parse_spec(c) == Ok::<Seq<FragmentSpec>, LinkSyntaxError>(resolve(fs, ids))
            &&& !has_lookup(links_of(resolve(fs, ids)))
            &&& forall|again: Seq<int>| #[trigger] canonical_text(resolve(fs, ids), again) == c
        }),
{
    let fs = parse_spec(s)->Ok_0;
    let r = resolve(fs, ids);
    lemma_resolved_printable(s, ids);
    lemma_print_parse(r);
    lemma_links_of_members(r);
    assert(!has_lookup(links_of(r))) by {
        if has_lookup(links_of(r)) {
            let n = choose|n: int| 0 <= n < links_of(r).len() && #[trigger] links_of(r)[n] is ByLookup;
            let i = choose|i: int| 0 <= i < r.len() && #[trigger] r[i] == FragmentSpec::Link(links_of(r)[n]);
        }
    }
    assert forall|again: Seq<int>| #[trigger] canonical_text(r, again) == canonical_text(fs, ids) by {
        lemma_resolve_identity(r, again);
    }
}

/// Rendered content is valid note text: it parses, and every unlabelled
/// link has become a labelled one whose label is the escaped preview.
pub proof fn law_rendered_text_parses(s: Seq<char>, out: Seq<char>)
    requires
        renders_as(s, out),
    ensures
        parse_spec(out) matches Ok(gs) && !has_unlabelled(links_of(gs)),
{
    let fs = parse_spec(s)->Ok_0;
    let previews = choose|previews: Seq<Seq<char>>|
        {
            &&& previews.len() == links_of(fs).len()
            &&& forall|n: int|
                0 <= n < previews.len() ==> (links_of(fs)[n] is ById || links_of(fs)[n] is ByNumericToken)
                    ==> crate::domain::valid_content_line(#[trigger] previews[n])
            &&& out == crate::canonical::render_text(fs, previews)
        };
    let gs = rendered_fragments(fs, previews);
    lemma_parse_printable(s, 0);
    crate::syntax::lemma_parse_links_wf(s, 0);
    lemma_rendered_at(fs, previews);
    assert forall|i: int| 0 <= i < gs.len() implies (#[trigger] gs[i] matches FragmentSpec::Link(l) ==> (printable_link(l)
        && !(l is ById) && !(l is ByNumericToken))) by {
        if let FragmentSpec::Link(l) = fs[i] {
            assert(crate::syntax::link_wf(l));
            lemma_link_count_at(fs, i);
            let p = previews[link_count(fs, i)];
            if l is ById || l is ByNumericToken {
                assert(crate::domain::valid_content_line(p));
                lemma_preview_label_valid(p);
            } else if let crate::syntax::LinkSpec::ByLookup(k) = l {
            }
        }
    }
    lemma_printable_by_shape(fs, gs);
    lemma_print_parse(gs);
    lemma_render_text_prints(fs, previews);
    lemma_links_of_members(gs);
    assert(!has_unlabelled(links_of(gs))) by {
        if has_unlabelled(links_of(gs)) {
            let n = choose|n: int|
                0 <= n < links_of(gs).len() && (#[trigger] links_of(gs)[n] is ById || links_of(gs)[n] is ByNumericToken);
            let i = choose|i: int| 0 <= i < gs.len() && #[trigger] gs[i] == FragmentSpec::Link(links_of(gs)[n]);
        }
    }
}

// ---------------------------------------------------------------------------
// Use cases
// ---------------------------------------------------------------------------

/// The months have their calendar lengths: 31 days in January, March, May,
/// July, August, October and December, 30 in April, June, September and
/// November, and 29 in February of a leap year (every fourth year, but not
/// a century unless it divides by 400), 28 otherwise.
pub proof fn law_month_lengths(year: int, month: int)
    requires
        1 <= month <= 12,
    ensures
        (month == 1 || month == 3 || month == 5 || month == 7 || month == 8 || month == 10
            || month == 12) ==> days_in_month(year, month) == 31,
        (month == 4 || month == 6 || month == 9 || month == 11) ==> days_in_month(year, month)
            == 30,
        month == 2 ==> days_in_month(year, month) == if (year % 4 == 0 && year % 100 != 0) || year
            % 400 == 0 {
            29int
        } else {
            28int
        },
{
}

/// All-ASCII text counts each of its characters as ASCII; text without
/// ASCII counts none.
proof fn lemma_ascii_count_extremes(s: Seq<char>)
    ensures
        (forall|i: int| 0 <= i < s.len() ==> (#[trigger] s[i] as u32) < 128) ==> ascii_count(s)
            == s.len(),
        (forall|i: int| 0 <= i < s.len() ==> (#[trigger] s[i] as u32) >= 128) ==> ascii_count(s)
            == 0,
    decreases s.len(),
{
    if s.len() > 0 {
        lemma_ascii_count_extremes(s.drop_last());
        if forall|i: int| 0 <= i < s.len() ==> (#[trigger] s[i] as u32) < 128 {
            assert forall|i: int| 0 <= i < s.drop_last().len() implies (#[trigger] s.drop_last()[i]
                as u32) < 128 by {
                assert(s.drop_last()[i] == s[i]);
            }
            assert((s[s.len() - 1] as u32) < 128);
        }
        if forall|i: int| 0 <= i < s.len() ==> (#[trigger] s[i] as u32) >= 128 {
            assert forall|i: int| 0 <= i < s.drop_last().len() implies (#[trigger] s.drop_last()[i]
                as u32) >= 128 by {
                assert(s.drop_last()[i] == s[i]);
            }
            assert((s[s.len() - 1] as u32) >= 128);
        }
    }
}

/// The token estimate of a text is 8 plus one token per started group of
/// three ASCII characters and one per other character: all-ASCII text of
/// length n costs 8 + ceil(n / 3), text without ASCII costs 8 + its length.
pub proof fn law_token_estimate(s: Seq<char>)
    ensures
        (forall|i: int| 0 <= i < s.len() ==> (#[trigger] s[i] as u32) < 128) ==> token_estimate(s)
            == 8 + (s.len() + 2) / 3,
        (forall|i: int| 0 <= i < s.len() ==> (#[trigger] s[i] as u32) >= 128) ==> token_estimate(s)
            == 8 + s.len(),
{
    lemma_ascii_count_extremes(s);
}

/// Root matches come exact match first, then the other prefix matches, then
/// the rest; within each group the smaller id comes first.
pub proof fn law_match_order(a: StoredNode, b: StoredNode, needle: Seq<char>)
    ensures
        a.content@ == needle && b.content@ != needle ==> match_precedes(a, b, needle)
            && !match_precedes(b, a, needle),
        starts_with(a.content@, needle) && !starts_with(b.content@, needle) ==> match_precedes(
            a,
            b,
            needle,
        ) && !match_precedes(b, a, needle),
        (a.content@ == needle) == (b.content@ == needle) && starts_with(a.content@, needle)
            == starts_with(b.content@, needle) && a.id@ < b.id@ ==> match_precedes(a, b, needle)
            && !match_precedes(b, a, needle),
{
    if a.content@ == needle {
        assert(needle.subrange(0, needle.len() as int) =~= needle);
    }
    if b.content@ == needle {
        assert(needle.subrange(0, needle.len() as int) =~= needle);
    }
}

/// The earlier neighbours of a daily note are offered nearest first: the
/// first is the day just before it, and each further one is the day just
/// before the one offered before it.
pub proof fn law_daily_neighbors_nearest_first(
    days: Seq<DailyNoteRecord>,
    p: int,
    node_id: NodeId,
    prev: Seq<StoredNode>,
    next: Seq<StoredNode>,
)
    requires
        daily_neighbors(days, p, node_id, prev, next),
    ensures
        p > 0 ==> prev.len() > 0 && prev[0].id == days[p - 1].node_id,
        forall|k: int|
            #![trigger prev[k]]
            0 < k < prev.len() ==> exists|i: int|
                #![trigger days[i]]
                0 < i < days.len() && days[i].node_id == prev[k - 1].id && days[i - 1].node_id
                    == prev[k].id,
        next.len() > 0 ==> next[0].id == days[p + 1].node_id,
        forall|k: int|
            #![trigger next[k]]
            0 < k < next.len() ==> exists|i: int|
                #![trigger days[i]]
                0 < i < days.len() && days[i - 1].node_id == next[k - 1].id && days[i].node_id
                    == next[k].id,
{
    assert forall|k: int| #![trigger next[k]] 0 < k < next.len() implies exists|i: int|
        #![trigger days[i]]
        0 < i < days.len() && days[i - 1].node_id == next[k - 1].id && days[i].node_id
            == next[k].id by {
        let i = p + 1 + k;
        assert(next[k - 1].id == days[p + 1 + (k - 1)].node_id);
        assert(days[i].node_id == next[k].id);
    }
    assert forall|k: int| #![trigger prev[k]] 0 < k < prev.len() implies exists|i: int|
        #![trigger days[i]]
        0 < i < days.len() && days[i].node_id == prev[k - 1].id && days[i - 1].node_id
            == prev[k].id by {
        let i = p - k;
        assert(prev[k - 1].id == days[p - 1 - (k - 1)].node_id);
        assert(prev[k].id == days[p - 1 - k].node_id);
        assert(days[i - 1].node_id == prev[k].id);
        assert(days[i].node_id == prev[k - 1].id);
    }
}

/// Root apply refuses a target text only when it is empty or breaks the
/// line: with a root, and selected notes that are stored, are no daily
/// notes and mention the text in their plain text, any non-empty
/// single-line text (of any length) passes every check before the write.
pub proof fn law_root_apply_accepts_single_line_text<R: ReadRepository>(
    repository: &R,
    root_id: NodeId,
    target_text: Option<&str>,
    node_ids: Seq<NodeId>,
)
    requires
        repository.spec_node(root_id) is Some,
        repository.spec_is_root(root_id),
        apply_needle(target_text, repository.spec_node(root_id)->0).len() > 0,
        forall|i: int|
            0 <= i < apply_needle(target_text, repository.spec_node(root_id)->0).len() ==> {
                let c = #[trigger] apply_needle(target_text, repository.spec_node(root_id)->0)[i];
                c != '\n' && c != '\r'
            },
        forall|k: int|
            0 <= k < node_ids.len() ==> {
                &&& !repository.spec_is_daily_note(#[trigger] node_ids[k])
                &&& (repository.spec_node(node_ids[k]) matches Some(n) && mentions(
                    n.content@,
                    apply_needle(target_text, repository.spec_node(root_id)->0),
                ))
            },
    ensures
        apply_text_ok(apply_needle(target_text, repository.spec_node(root_id)->0)),
        !apply_refused(repository, root_id, target_text, node_ids),
        forall|k: int|
            !#[trigger] first_unfit(
                repository,
                node_ids,
                apply_needle(target_text, repository.spec_node(root_id)->0),
                k,
            ),
{
    let needle = apply_needle(target_text, repository.spec_node(root_id)->0);
    assert(!crate::text::has_char(needle, '\n'));
    assert(!crate::text::has_char(needle, '\r'));
    assert forall|k: int| !#[trigger] first_unfit(repository, node_ids, needle, k) by {
        if 0 <= k < node_ids.len() {
            assert(apply_node_ok(repository, node_ids[k], needle));
        }
    }
}

/// The lines of some nodes, written one after another in their order.
proof fn lemma_node_texts_in_order(marker: Seq<char>, lines: Seq<NodeLine>)
    ensures
        node_texts(marker, lines) == Seq::new(
            lines.len(),
            |i: int| node_text(marker, lines[i].id, lines[i].rendered_content@),
        ).flatten(),
    decreases lines.len(),
{
    let all = Seq::new(
        lines.len(),
        |i: int| node_text(marker, lines[i].id, lines[i].rendered_content@),
    );
    all.lemma_flatten_and_flatten_alt_are_equivalent();
    if lines.len() > 0 {
        let front = lines.drop_last();
        lemma_node_texts_in_order(marker, front);
        let shorter = Seq::new(
            front.len(),
            |i: int| node_text(marker, front[i].id, front[i].rendered_content@),
        );
        shorter.lemma_flatten_and_flatten_alt_are_equivalent();
        assert(all.drop_last() =~= shorter);
    }
}

/// `read` ends with one `-[id] text` line for each next sibling in the
/// order of the view, the nearest first, and then the line of hidden later
/// siblings.
pub proof fn law_read_prints_next_siblings_in_order(v: ReadContextView)
    ensures
        ({
            let tail = Seq::new(
                v.next_siblings@.len(),
                |i: int|
                    node_text("-"@, v.next_siblings@[i].id, v.next_siblings@[i].rendered_content@),
            ).flatten() + count_line(v.next_hidden_count, "...next "@, " sibling hiding..."@);
            let out = read_text(v);
            tail.len() <= out.len() && out.subrange(out.len() - tail.len(), out.len() as int)
                == tail
        }),
{
    lemma_node_texts_in_order("-"@, v.next_siblings@);
    let out = read_text(v);
    let tail = node_texts("-"@, v.next_siblings@) + count_line(
        v.next_hidden_count,
        "...next "@,
        " sibling hiding..."@,
    );
    let front = out.subrange(0, out.len() - tail.len());
    assert(out =~= front + tail);
    assert(out.subrange(out.len() - tail.len(), out.len() as int) =~= tail);
}

/// `day` lists the entries of a day that has some, one `-[id] text` line
/// each, in the order of the view, after the date and a blank line.
pub proof fn law_day_lists_entries_in_order(v: DayView, is_today: bool, database_path: Seq<char>)
    requires
        v.entries@.len() > 0,
    ensures
        day_text(v, is_today, database_path) == line(v.note_date@) + line(seq![]) + Seq::new(
            v.entries@.len(),
            |i: int| node_text("-"@, v.entries@[i].id, v.entries@[i].rendered_content@),
        ).flatten(),
{
    lemma_node_texts_in_order("-"@, v.entries@);
}

/// `root apply` lists the updated notes, one `-[id] text` line each, in the
/// order of the result, after an `updated:` line.
pub proof fn law_root_apply_lists_updates_in_order(r: RootApplyResult)
    ensures
        root_apply_text(r) == line("updated:"@) + Seq::new(
            r.updated_nodes@.len(),
            |i: int| node_text("-"@, r.updated_nodes@[i].id, r.updated_nodes@[i].rendered_content@),
        ).flatten(),
{
    lemma_node_texts_in_order("-"@, r.updated_nodes@);
}

/// `root create` lists the matches, one `-[id] text` line each, in the order
/// of the result, after the root, a blank line and a `matches:` line, and
/// ends with the count of the matches not shown.
pub proof fn law_root_create_lists_matches_in_order(r: RootCreateResult)
    ensures
        root_create_text(r) == line(
            "root ["@ + decimal(r.root.id@ as nat) + seq![']', ' '] + r.root.rendered_content@,
        ) + line(seq![]) + line("matches:"@) + Seq::new(
            r.matches@.len(),
            |i: int| node_text("-"@, r.matches@[i].id, r.matches@[i].rendered_content@),
        ).flatten() + count_line(r.hidden_match_count, "..."@, " more matches..."@),
{
    lemma_node_texts_in_order("-"@, r.matches@);
}

/// `read` prints the line of hidden earlier siblings, then one `-[id] text`
/// line for each previous sibling in the order of the view, the nearest
/// last, and then the node itself.
pub proof fn law_read_prints_previous_siblings_in_order(v: ReadContextView)
    ensures
        ({
            let shown = count_line(v.prev_hidden_count, "...prev "@, " sibling hiding..."@)
                + Seq::new(
                v.prev_siblings@.len(),
                |i: int|
                    node_text("-"@, v.prev_siblings@[i].id, v.prev_siblings@[i].rendered_content@),
            ).flatten() + node_text("="@, v.current.id, v.current.rendered_content@);
            shown.len() <= read_text(v).len() && read_text(v).subrange(0, shown.len() as int)
                == shown
        }),
{
    lemma_node_texts_in_order("-"@, v.prev_siblings@);
    let head = count_line(v.prev_hidden_count, "...prev "@, " sibling hiding..."@);
    let prevs = node_texts("-"@, v.prev_siblings@);
    let current = node_text("="@, v.current.id, v.current.rendered_content@);
    let shown = head + prevs + current;
    let rest = read_text(v).subrange(shown.len() as int, read_text(v).len() as int);
    assert(read_text(v) =~= shown + rest);
    assert(read_text(v).subrange(0, shown.len() as int) =~= shown);
}

} // verus!

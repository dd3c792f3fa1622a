//! Use cases that combine reads and writes: daily notes, root nodes and the
//! budgeted read context.
use vstd::prelude::*;
use crate::text::{
    all_digits, chars_eq, chars_to_string, contains, contains_exec, decimal, digit_value, digits_value,
    has_char, is_digit, matches_at, push_all,
    push_decimal, replace_all, replace_all_exec, starts_with, to_chars, trim,
};
use crate::domain::{
    fails_with, has_char_exec, id_values, message_with_id, message_with_text, valid_content_line, ContentLine, DailyNoteRecord,
    Failure, IncomingLinkRecord, KernelError, KernelResult, NewNodeRecord, NodeId, NodeLine,
    Placement, StoredNode,
};
use crate::repository::{ReadRepository, WriteRepository};
use crate::canonical::{render_storage_content, renders_alone, renders_as};
use crate::links::{link_graph, on_cycle};
use crate::write::{root_keys_distinct, rewritten, update_nodes};
use crate::read::{all_show, render_node_line, render_node_lines, shows};
use crate::repository::{child_chain, missing_node, read_failure, refused_as};
use crate::canonical::{
    canonical_text, canonicalize_content, has_lookup, ids_fit, lookup_unsettled, lookups_bound,
};
use crate::syntax::{
    close_delim, fragment_views, label_sep, link_text, links_of, open_delim, parse_content, parse_spec,
    push_link_text, ContentFragment, FragmentSpec, LinkSyntaxError,
};

verus! {

/// The result of adding an entry to a daily note.
#[derive(Debug, PartialEq, Eq)]
pub struct NoteResult {
    pub note_date: String,
    pub node: NodeLine,
}

/// The entries of one daily note.
#[derive(Debug, PartialEq, Eq)]
pub struct DayView {
    pub note_date: String,
    pub entries: Vec<NodeLine>,
}

/// A root node and the nodes whose plain text mentions it.
#[derive(Debug, PartialEq, Eq)]
pub struct RootCreateResult {
    pub root: NodeLine,
    pub matches: Vec<NodeLine>,
    pub hidden_match_count: usize,
}

/// The nodes rewritten to link a root node.
#[derive(Debug, PartialEq, Eq)]
pub struct RootApplyResult {
    pub updated_nodes: Vec<NodeLine>,
}

/// A node that links to the node being read.
#[derive(Debug, PartialEq, Eq)]
pub struct BacklinkLine {
    pub source: NodeLine,
}

/// A child of the node being read, with the links that point at it.
#[derive(Debug, PartialEq, Eq)]
pub struct ChildContextLine {
    pub node: NodeLine,
    pub backlinks: Vec<BacklinkLine>,
    pub hidden_backlink_count: usize,
}

/// A node with as much of its surroundings as a token budget allows.
#[derive(Debug, PartialEq, Eq)]
pub struct ReadContextView {
    pub prev_hidden_count: usize,
    pub prev_siblings: Vec<NodeLine>,
    pub current: NodeLine,
    pub backlinks: Vec<BacklinkLine>,
    pub hidden_backlink_count: usize,
    pub children: Vec<ChildContextLine>,
    pub hidden_child_count: usize,
    pub next_siblings: Vec<NodeLine>,
    pub next_hidden_count: usize,
}

// ---------------------------------------------------------------------------
// Token estimate
// ---------------------------------------------------------------------------

pub open spec fn ascii_count(s: Seq<char>) -> nat
    decreases s.len(),
{
    if s.len() == 0 {
        0
    } else {
        ascii_count(s.drop_last()) + if (s.last() as u32) < 128 {
            1nat
        } else {
            0nat
        }
    }
}

/// The token estimate of a text: 8, plus one per non-ASCII character, plus
/// one per started group of three ASCII characters.
pub open spec fn token_estimate(s: Seq<char>) -> nat {
    8 + (s.len() - ascii_count(s)) as nat + (ascii_count(s) + 2) as nat / 3
}

/// What one displayed line costs: its estimate and 8 more.
pub open spec fn line_cost(s: Seq<char>) -> nat {
    token_estimate(s) + 8
}

proof fn lemma_ascii_count_bound(s: Seq<char>)
    ensures
        ascii_count(s) <= s.len(),
    decreases s.len(),
{
    if s.len() > 0 {
        lemma_ascii_count_bound(s.drop_last());
    }
}

/// Computes `token_estimate`, saturating at `usize::MAX`.
pub fn estimate_tokens(text: &str) -> (r: usize)
    ensures
        token_estimate(text@) <= usize::MAX ==> r == token_estimate(text@),
        token_estimate(text@) > usize::MAX ==> r == usize::MAX,
{
    let chars = to_chars(text);
    let mut ascii: usize = 0;
    let mut other: usize = 0;
    let mut k: usize = 0;
    while k < chars.len()
        invariant
            k <= chars.len(),
            chars@ == text@,
            ascii == ascii_count(chars@.take(k as int)),
            other == k - ascii_count(chars@.take(k as int)),
        decreases chars.len() - k,
    {
        proof {
            assert(chars@.take(k + 1).drop_last() =~= chars@.take(k as int));
            lemma_ascii_count_bound(chars@.take(k as int));
        }
        if (chars[k] as u32) < 128 {
            ascii = ascii + 1;
        } else {
            other = other + 1;
        }
        k = k + 1;
    }
    proof {
        assert(chars@.take(k as int) =~= text@);
        lemma_ascii_count_bound(text@);
    }
    let groups = ascii / 3 + if ascii % 3 == 0 {
        0
    } else {
        1
    };
    assert(groups == (ascii + 2) / 3);
    8usize.saturating_add(other).saturating_add(groups)
}

/// Whether a line of `text` fits when `used` tokens are spent of `limit`.
fn fits_budget(used: usize, text: &str, limit: usize) -> (r: bool)
    ensures
        r == (used + line_cost(text@) <= limit),
{
    let estimate = estimate_tokens(text);
    if estimate > usize::MAX - 8 {
        return false;
    }
    let cost = estimate + 8;
    used <= limit && cost <= limit - used
}

// ---------------------------------------------------------------------------
// Plain-text matches and their rewrite into root links
// ---------------------------------------------------------------------------

/// A fragment is text that holds `needle`.
pub open spec fn plain_hit(f: FragmentSpec, needle: Seq<char>) -> bool {
    match f {
        FragmentSpec::Text(t) => contains(t, needle),
        FragmentSpec::Link(_) => false,
    }
}

pub open spec fn any_plain_hit(fs: Seq<FragmentSpec>, needle: Seq<char>) -> bool {
    exists|i: int| 0 <= i < fs.len() && #[trigger] plain_hit(fs[i], needle)
}

/// Stored content whose plain text (outside link tokens) holds `needle`.
pub open spec fn plain_match(content: Seq<char>, needle: Seq<char>) -> bool {
    parse_spec(content) matches Ok(fs) && any_plain_hit(fs, needle)
}

/// Whether the plain text of stored content holds `needle`.
fn plain_text_contains(content: &crate::domain::ContentLine, needle: &str) -> (r: KernelResult<bool>)
    ensures
        parse_spec(content@) is Err ==> fails_with(r, Failure::Storage),
        parse_spec(content@) matches Ok(fs) ==> r == Ok::<bool, KernelError>(
            any_plain_hit(fs, needle@),
        ),
{
    let fragments = match parse_content(content) {
        Ok(f) => f,
        Err(e) => {
            return Err(KernelError::Storage(e.message()));
        },
    };
    let ghost fs = fragment_views(fragments@);
    let n = to_chars(needle);
    let mut k: usize = 0;
    while k < fragments.len()
        invariant
            k <= fragments.len(),
            fs == fragment_views(fragments@),
            parse_spec(content@) == Ok::<Seq<FragmentSpec>, LinkSyntaxError>(fs),
            n@ == needle@,
            forall|i: int| 0 <= i < k ==> !plain_hit(#[trigger] fs[i], needle@),
        decreases fragments.len() - k,
    {
        match &fragments[k] {
            ContentFragment::Text(t) => {
                let tc = to_chars(t.as_str());
                if contains_exec(tc.as_slice(), n.as_slice()) {
                    assert(plain_hit(fs[k as int], needle@));
                    return Ok(true);
                }
            },
            ContentFragment::Link(_) => {},
        }
        k = k + 1;
    }
    Ok(false)
}

/// The storage token `{{root::needle}}` that names a root node.
pub open spec fn root_token(root_id: int, needle: Seq<char>) -> Seq<char> {
    open_delim() + decimal(root_id as nat) + label_sep() + needle + close_delim()
}

/// A fragment after the rewrite: text with every `needle` replaced, links as stored.
pub open spec fn rewritten_fragment(f: FragmentSpec, needle: Seq<char>, with: Seq<char>) -> Seq<
    char,
> {
    match f {
        FragmentSpec::Text(t) => if contains(t, needle) {
            replace_all(t, needle, with)
        } else {
            t
        },
        FragmentSpec::Link(l) => link_text(l),
    }
}

pub open spec fn rewritten_text(fs: Seq<FragmentSpec>, needle: Seq<char>, with: Seq<char>) -> Seq<
    char,
>
    decreases fs.len(),
{
    if fs.len() == 0 {
        seq![]
    } else {
        rewritten_text(fs.drop_last(), needle, with) + rewritten_fragment(fs.last(), needle, with)
    }
}

/// Rewrites every occurrence of `needle` in the plain text of `content` into
/// a labelled link `{{root_id::needle}}`; link tokens keep their storage form.
///
/// `None` when no plain text holds `needle`; an error when the stored
/// content does not parse.
pub fn rewrite_text_fragments(content: &crate::domain::ContentLine, needle: &str, root_id: NodeId) -> (r:
    KernelResult<Option<String>>)
    ensures
        parse_spec(content@) is Err ==> fails_with(r, Failure::Storage),
        parse_spec(content@) matches Ok(fs) ==> {
            &&& !any_plain_hit(fs, needle@) ==> r == Ok::<Option<String>, KernelError>(None)
            &&& any_plain_hit(fs, needle@) ==> (r matches Ok(Some(s)) && s@ == rewritten_text(
                fs,
                needle@,
                root_token(root_id@, needle@),
            ))
        },
{
    let fragments = match parse_content(content) {
        Ok(f) => f,
        Err(e) => {
            return Err(KernelError::Storage(e.message()));
        },
    };
    let ghost fs = fragment_views(fragments@);
    let n = to_chars(needle);
    let mut replacement: Vec<char> = Vec::new();
    replacement.push('{');
    replacement.push('{');
    let v = root_id.value();
    push_decimal(&mut replacement, v as u64);
    replacement.push(':');
    replacement.push(':');
    push_all(&mut replacement, n.as_slice());
    replacement.push('}');
    replacement.push('}');
    let ghost with = root_token(root_id@, needle@);
    assert(replacement@ =~= with);
    let mut changed = false;
    let mut out: Vec<char> = Vec::new();
    let mut k: usize = 0;
    while k < fragments.len()
        invariant
            k <= fragments.len(),
            fs == fragment_views(fragments@),
            parse_spec(content@) == Ok::<Seq<FragmentSpec>, LinkSyntaxError>(fs),
            n@ == needle@,
            replacement@ == with,
            out@ == rewritten_text(fs.take(k as int), needle@, with),
            changed == any_plain_hit(fs.take(k as int), needle@),
        decreases fragments.len() - k,
    {
        let ghost before = fs.take(k as int);
        assert(fs.take(k + 1).drop_last() =~= before);
        assert(fs.take(k + 1).last() == fs[k as int]);
        match &fragments[k] {
            ContentFragment::Text(t) => {
                let tc = to_chars(t.as_str());
                if contains_exec(tc.as_slice(), n.as_slice()) {
                    let replaced = replace_all_exec(tc.as_slice(), n.as_slice(), replacement.as_slice());
                    push_all(&mut out, replaced.as_slice());
                    changed = true;
                    assert(plain_hit(fs.take(k + 1)[k as int], needle@));
                } else {
                    push_all(&mut out, tc.as_slice());
                    assert forall|i: int|
                        0 <= i < k + 1 && #[trigger] plain_hit(fs.take(k + 1)[i], needle@) implies 0 <= i < k
                        && plain_hit(before[i], needle@) by {}
                }
            },
            ContentFragment::Link(link) => {
                push_link_text(&mut out, link);
                assert forall|i: int|
                    0 <= i < k + 1 && #[trigger] plain_hit(fs.take(k + 1)[i], needle@) implies 0 <= i < k
                    && plain_hit(before[i], needle@) by {}
            },
        }
        proof {
            if changed && !any_plain_hit(before, needle@) {
                assert(plain_hit(fs.take(k + 1)[k as int], needle@));
            }
            if any_plain_hit(before, needle@) {
                let i = choose|i: int| 0 <= i < before.len() && #[trigger] plain_hit(before[i], needle@);
                assert(plain_hit(fs.take(k + 1)[i], needle@));
            }
        }
        k = k + 1;
    }
    assert(fs.take(k as int) =~= fs);
    if changed {
        Ok(Some(chars_to_string(out.as_slice())))
    } else {
        Ok(None)
    }
}

// ---------------------------------------------------------------------------
// Ordering of root matches
// ---------------------------------------------------------------------------

/// How closely stored content matches a root's text: 0 when equal, 1 when
/// it starts with it, 2 otherwise.
pub open spec fn match_rank(content: Seq<char>, needle: Seq<char>) -> nat {
    if content == needle {
        0
    } else if starts_with(content, needle) {
        1
    } else {
        2
    }
}

/// `a` comes no later than `b`: by rank, then by id.
pub open spec fn match_precedes(a: StoredNode, b: StoredNode, needle: Seq<char>) -> bool {
    let ra = match_rank(a.content@, needle);
    let rb = match_rank(b.content@, needle);
    ra < rb || (ra == rb && a.id@ <= b.id@)
}

pub open spec fn matches_sorted(s: Seq<StoredNode>, needle: Seq<char>) -> bool {
    forall|i: int, j: int|
        0 <= i < j < s.len() ==> match_precedes(#[trigger] s[i], #[trigger] s[j], needle)
}

/// The nodes of `s` whose plain text holds `needle`, in order.
pub open spec fn plain_matches_of(s: Seq<StoredNode>, needle: Seq<char>) -> Seq<StoredNode>
    decreases s.len(),
{
    if s.len() == 0 {
        seq![]
    } else if plain_match(s.last().content@, needle) {
        plain_matches_of(s.drop_last(), needle).push(s.last())
    } else {
        plain_matches_of(s.drop_last(), needle)
    }
}

fn rank_of(content: &crate::domain::ContentLine, needle: &Vec<char>) -> (r: u8)
    ensures
        r == match_rank(content@, needle@),
{
    let c = content.chars();
    if chars_eq(c.as_slice(), needle.as_slice()) {
        0
    } else if matches_at(c.as_slice(), needle.as_slice(), 0) {
        1
    } else {
        2
    }
}

fn precedes_exec(a: &StoredNode, b: &StoredNode, needle: &Vec<char>) -> (r: bool)
    ensures
        r == match_precedes(*a, *b, needle@),
{
    let ra = rank_of(&a.content, needle);
    let rb = rank_of(&b.content, needle);
    ra < rb || (ra == rb && a.id.value() <= b.id.value())
}

/// Keeps the nodes whose plain text holds `needle`; a node whose content
/// does not parse is left out.
fn keep_plain_matches(nodes: Vec<StoredNode>, needle: &str) -> (r: Vec<StoredNode>)
    ensures
        r@ == plain_matches_of(nodes@, needle@),
{
    let mut out: Vec<StoredNode> = Vec::new();
    let mut k: usize = 0;
    while k < nodes.len()
        invariant
            k <= nodes.len(),
            out@ == plain_matches_of(nodes@.take(k as int), needle@),
        decreases nodes.len() - k,
    {
        assert(nodes@.take(k + 1).drop_last() =~= nodes@.take(k as int));
        let keep = match plain_text_contains(&nodes[k].content, needle) {
            Ok(b) => b,
            Err(_) => false,
        };
        if keep {
            out.push(nodes[k].clone());
        }
        k = k + 1;
    }
    assert(nodes@.take(k as int) =~= nodes@);
    out
}

/// Sorts matches by rank, then id; equal keys keep their order.
fn sort_matches(nodes: Vec<StoredNode>, needle: &Vec<char>) -> (r: Vec<StoredNode>)
    ensures
        r@.to_multiset() == nodes@.to_multiset(),
        matches_sorted(r@, needle@),
{
    broadcast use vstd::seq_lib::group_to_multiset_ensures;
    let mut out: Vec<StoredNode> = Vec::new();
    let mut k: usize = 0;
    while k < nodes.len()
        invariant
            k <= nodes.len(),
            out@.to_multiset() == nodes@.take(k as int).to_multiset(),
            matches_sorted(out@, needle@),
        decreases nodes.len() - k,
    {
        let x = nodes[k].clone();
        let mut pos: usize = 0;
        while pos < out.len() && precedes_exec(&out[pos], &x, needle)
            invariant
                pos <= out.len(),
                matches_sorted(out@, needle@),
                forall|i: int| 0 <= i < pos ==> match_precedes(#[trigger] out@[i], x, needle@),
            decreases out.len() - pos,
        {
            pos = pos + 1;
        }
        let ghost before = out@;
        out.insert(pos, x);
        proof {
            assert(out@ == before.insert(pos as int, x));
            vstd::seq_lib::to_multiset_insert(before, pos as int, x);
            assert(nodes@.take(k + 1) =~= nodes@.take(k as int).push(nodes@[k as int]));
            vstd::seq_lib::to_multiset_build(nodes@.take(k as int), nodes@[k as int]);
            assert forall|i: int, j: int| 0 <= i < j < out@.len() implies match_precedes(
                #[trigger] out@[i],
                #[trigger] out@[j],
                needle@,
            ) by {
                if pos < before.len() {
                    assert(!match_precedes(before[pos as int], x, needle@));
                }
                if i < pos && j > pos {
                    assert(match_precedes(before[i], x, needle@));
                    assert(match_precedes(x, before[j - 1], needle@));
                } else if i == pos && j > pos {
                    assert(match_precedes(before[pos as int], before[j - 1], needle@) || j - 1 == pos);
                }
            }
        }
        k = k + 1;
    }
    assert(nodes@.take(k as int) =~= nodes@);
    out
}

// ---------------------------------------------------------------------------
// Structural neighbours
// ---------------------------------------------------------------------------

/// The sibling a node points at: the previous one going `backward`, else the next.
pub open spec fn sibling_step(n: StoredNode, backward: bool) -> Option<NodeId> {
    if backward {
        n.prev_sibling_id
    } else {
        n.next_sibling_id
    }
}

/// `v` is the whole sibling chain that starts at `start` and follows `sibling_step`.
pub open spec fn sibling_chain(start: Option<NodeId>, v: Seq<StoredNode>, backward: bool) -> bool {
    &&& (v.len() == 0 <==> start is None)
    &&& v.len() > 0 ==> start == Some(v[0].id)
    &&& forall|k: int|
        0 < k < v.len() ==> Some(#[trigger] v[k].id) == sibling_step(v[k - 1], backward)
    &&& v.len() > 0 ==> sibling_step(v.last(), backward) is None
}

/// Each node of `v` is the stored node of its id.
pub open spec fn stored_nodes<R: ReadRepository>(repository: &R, v: Seq<StoredNode>) -> bool {
    forall|k: int| 0 <= k < v.len() ==> repository.spec_node((#[trigger] v[k]).id) == Some(v[k])
}

fn follow_siblings<R: ReadRepository>(
    repository: &R,
    start: Option<NodeId>,
    backward: bool,
) -> (r: KernelResult<Vec<StoredNode>>)
    ensures
        r matches Ok(v) ==> sibling_chain(start, v@, backward) && stored_nodes(repository, v@),
        start is None ==> (r matches Ok(v) && v@.len() == 0),
{
    let mut siblings: Vec<StoredNode> = Vec::new();
    let mut current = start;
    loop
        invariant
            siblings@.len() == 0 ==> current == start,
            start is None ==> siblings@.len() == 0,
            siblings@.len() > 0 ==> start == Some(siblings@[0].id),
            siblings@.len() > 0 ==> current == sibling_step(siblings@.last(), backward),
            forall|k: int|
                0 < k < siblings@.len() ==> Some(#[trigger] siblings@[k].id) == sibling_step(
                    siblings@[k - 1],
                    backward,
                ),
            stored_nodes(repository, siblings@),
        decreases usize::MAX - siblings@.len(),
    {
        let node_id = match current {
            None => {
                return Ok(siblings);
            },
            Some(id) => id,
        };
        if siblings.len() == usize::MAX {
            return Err(
                KernelError::StorageCorruption(
                    message_with_id("sibling chain does not end after node ", node_id, ""),
                ),
            );
        }
        let sibling = match repository.get_node(node_id) {
            Ok(Some(n)) => n,
            Ok(None) => {
                return Err(
                    KernelError::StorageCorruption(
                        message_with_id("missing sibling node ", node_id, ""),
                    ),
                );
            },
            Err(e) => {
                return Err(e);
            },
        };
        current = if backward {
            sibling.prev_sibling_id
        } else {
            sibling.next_sibling_id
        };
        siblings.push(sibling);
    }
}

/// The previous siblings of a node, nearest first.
fn collect_previous_siblings<R: ReadRepository>(repository: &R, node: &StoredNode) -> (r:
    KernelResult<Vec<StoredNode>>)
    ensures
        r matches Ok(v) ==> sibling_chain(node.prev_sibling_id, v@, true) && stored_nodes(
            repository,
            v@,
        ),
        node.prev_sibling_id is None ==> (r matches Ok(v) && v@.len() == 0),
{
    follow_siblings(repository, node.prev_sibling_id, true)
}

/// The next siblings of a node, nearest first.
fn collect_next_siblings<R: ReadRepository>(repository: &R, node: &StoredNode) -> (r:
    KernelResult<Vec<StoredNode>>)
    ensures
        r matches Ok(v) ==> sibling_chain(node.next_sibling_id, v@, false) && stored_nodes(
            repository,
            v@,
        ),
        node.next_sibling_id is None ==> (r matches Ok(v) && v@.len() == 0),
{
    follow_siblings(repository, node.next_sibling_id, false)
}

/// `prev` and `next` are the daily notes before and after position `p` of
/// the date-ordered list `days`, nearest first; `p` is the first position of
/// `node_id`.
pub open spec fn daily_neighbors(
    days: Seq<DailyNoteRecord>,
    p: int,
    node_id: NodeId,
    prev: Seq<StoredNode>,
    next: Seq<StoredNode>,
) -> bool {
    &&& 0 <= p < days.len()
    &&& days[p].node_id == node_id
    &&& forall|q: int| 0 <= q < p ==> (#[trigger] days[q]).node_id != node_id
    &&& prev.len() == p
    &&& next.len() == days.len() - p - 1
    &&& forall|k: int| 0 <= k < p ==> (#[trigger] prev[k]).id == days[p - 1 - k].node_id
    &&& forall|k: int| 0 <= k < next.len() ==> (#[trigger] next[k]).id == days[p + 1 + k].node_id
}

fn load_daily_note_node<R: ReadRepository>(repository: &R, node_id: NodeId) -> (r: KernelResult<
    StoredNode,
>)
    ensures
        r matches Ok(n) ==> n.id == node_id && repository.spec_node(node_id) == Some(n),
        repository.spec_node(node_id) is None ==> r is Err,
{
    match repository.get_node(node_id) {
        Ok(Some(n)) => Ok(n),
        Ok(None) => Err(
            KernelError::StorageCorruption(message_with_id("missing daily note node ", node_id, "")),
        ),
        Err(e) => Err(e),
    }
}

/// The daily notes before and after a daily note node, nearest first.
fn daily_note_neighbors<R: ReadRepository>(repository: &R, node_id: NodeId) -> (r: KernelResult<
    (Vec<StoredNode>, Vec<StoredNode>),
>)
    ensures
        r matches Ok(pair) ==> exists|days: Seq<DailyNoteRecord>, p: int|
            #[trigger] daily_neighbors(days, p, node_id, pair.0@, pair.1@),
        r matches Ok(pair) ==> exists|p: int|
            #[trigger] daily_neighbors(repository.spec_daily_notes(), p, node_id, pair.0@, pair.1@),
        r matches Ok(pair) ==> stored_nodes(repository, pair.0@) && stored_nodes(
            repository,
            pair.1@,
        ),
{
    let days = match repository.list_daily_notes() {
        Ok(d) => d,
        Err(e) => {
            return Err(e);
        },
    };
    let mut p: usize = 0;
    while p < days.len() && !days[p].node_id.same(&node_id)
        invariant
            p <= days.len(),
            forall|q: int| 0 <= q < p ==> (#[trigger] days@[q]).node_id != node_id,
        decreases days.len() - p,
    {
        p = p + 1;
    }
    if p == days.len() {
        return Err(
            KernelError::StorageCorruption(
                message_with_id("missing daily note membership for node ", node_id, ""),
            ),
        );
    }
    let mut previous: Vec<StoredNode> = Vec::new();
    let mut i: usize = p;
    while i > 0
        invariant
            i <= p < days.len(),
            previous@.len() == p - i,
            forall|k: int|
                0 <= k < previous@.len() ==> (#[trigger] previous@[k]).id == days@[p - 1 - k].node_id,
            stored_nodes(repository, previous@),
        decreases i,
    {
        i = i - 1;
        match load_daily_note_node(repository, days[i].node_id) {
            Ok(n) => previous.push(n),
            Err(e) => {
                return Err(e);
            },
        }
    }
    let mut next: Vec<StoredNode> = Vec::new();
    let mut j: usize = p + 1;
    while j < days.len()
        invariant
            p < j <= days.len(),
            next@.len() == j - p - 1,
            forall|k: int|
                0 <= k < next@.len() ==> (#[trigger] next@[k]).id == days@[p + 1 + k].node_id,
            stored_nodes(repository, next@),
        decreases days.len() - j,
    {
        match load_daily_note_node(repository, days[j].node_id) {
            Ok(n) => next.push(n),
            Err(e) => {
                return Err(e);
            },
        }
        j = j + 1;
    }
    let pair = (previous, next);
    assert(daily_neighbors(days@, p as int, node_id, pair.0@, pair.1@));
    assert(exists|d: Seq<DailyNoteRecord>, q: int|
        #[trigger] daily_neighbors(d, q, node_id, pair.0@, pair.1@));
    assert(days@ == repository.spec_daily_notes());
    assert(exists|q: int| #[trigger] daily_neighbors(repository.spec_daily_notes(), q, node_id, pair.0@, pair.1@));
    let r: KernelResult<(Vec<StoredNode>, Vec<StoredNode>)> = Ok(pair);
    assert(r matches Ok(found) && found.0@ == pair.0@ && found.1@ == pair.1@);
    r
}

// ---------------------------------------------------------------------------
// Budgeted selection
// ---------------------------------------------------------------------------

/// What a list of displayed lines costs.
pub open spec fn lines_cost(s: Seq<NodeLine>) -> nat
    decreases s.len(),
{
    if s.len() == 0 {
        0
    } else {
        lines_cost(s.drop_last()) + line_cost(s.last().rendered_content@)
    }
}

pub open spec fn backlink_sources(s: Seq<BacklinkLine>) -> Seq<NodeLine> {
    s.map_values(|b: BacklinkLine| b.source)
}

pub open spec fn backlinks_cost(s: Seq<BacklinkLine>) -> nat {
    lines_cost(backlink_sources(s))
}

/// A displayed child costs its own line and its backlinks.
pub open spec fn child_cost(c: ChildContextLine) -> nat {
    line_cost(c.node.rendered_content@) + backlinks_cost(c.backlinks@)
}

pub open spec fn children_cost(s: Seq<ChildContextLine>) -> nat
    decreases s.len(),
{
    if s.len() == 0 {
        0
    } else {
        children_cost(s.drop_last()) + child_cost(s.last())
    }
}

proof fn lemma_lines_cost_prepend(x: NodeLine, s: Seq<NodeLine>)
    ensures
        lines_cost(seq![x] + s) == line_cost(x.rendered_content@) + lines_cost(s),
    decreases s.len(),
{
    if s.len() > 0 {
        lemma_lines_cost_prepend(x, s.drop_last());
        assert((seq![x] + s).drop_last() =~= seq![x] + s.drop_last());
    } else {
        assert((seq![x] + s).drop_last() =~= s);
    }
}

proof fn lemma_backlinks_cost_push(s: Seq<BacklinkLine>, b: BacklinkLine)
    ensures
        backlinks_cost(s.push(b)) == backlinks_cost(s) + line_cost(b.source.rendered_content@),
{
    assert(backlink_sources(s.push(b)) =~= backlink_sources(s).push(b.source));
    assert(backlink_sources(s.push(b)).drop_last() =~= backlink_sources(s));
}

/// The backlinks chosen from `incoming` with `used` of `limit` tokens spent:
/// a prefix of them, each rendered, ending where the next one would not fit.
pub open spec fn backlinks_chosen(
    incoming: Seq<IncomingLinkRecord>,
    used: nat,
    limit: nat,
    lines: Seq<BacklinkLine>,
    hidden: nat,
    used_after: nat,
) -> bool {
    &&& lines.len() <= incoming.len()
    &&& hidden == incoming.len() - lines.len()
    &&& forall|i: int|
        0 <= i < lines.len() ==> (#[trigger] lines[i]).source.id == incoming[i].source_node_id
            && renders_as(incoming[i].source_content@, lines[i].source.rendered_content@)
    &&& used_after == used + backlinks_cost(lines)
    &&& lines.len() > 0 ==> used_after <= limit
    &&& lines.len() < incoming.len() ==> exists|out: Seq<char>|
        #[trigger] renders_as(incoming[lines.len() as int].source_content@, out) && used_after
            + line_cost(out) > limit
}

fn choose_backlinks<R: ReadRepository>(
    repository: &R,
    incoming_links: &Vec<IncomingLinkRecord>,
    used_tokens: usize,
    soft_limit: usize,
) -> (r: KernelResult<(Vec<BacklinkLine>, usize, usize)>)
    ensures
        r matches Ok(t) ==> backlinks_chosen(
            incoming_links@,
            used_tokens as nat,
            soft_limit as nat,
            t.0@,
            t.1 as nat,
            t.2 as nat,
        ),
        (forall|i: int|
            0 <= i < incoming_links@.len() ==> renders_alone(
                (#[trigger] incoming_links@[i]).source_content@,
            )) ==> r is Ok,
{
    let mut backlinks: Vec<BacklinkLine> = Vec::new();
    let mut used = used_tokens;
    let mut k: usize = 0;
    assert(backlink_sources(backlinks@) =~= Seq::<NodeLine>::empty());
    while k < incoming_links.len()
        invariant
            k <= incoming_links.len(),
            backlinks@.len() == k,
            forall|i: int|
                0 <= i < k ==> (#[trigger] backlinks@[i]).source.id == incoming_links@[i].source_node_id
                    && renders_as(
                    incoming_links@[i].source_content@,
                    backlinks@[i].source.rendered_content@,
                ),
            used == used_tokens + backlinks_cost(backlinks@),
            k > 0 ==> used <= soft_limit,
        decreases incoming_links.len() - k,
    {
        let incoming = &incoming_links[k];
        let rendered = match render_storage_content(repository, &incoming.source_content) {
            Ok(out) => out,
            Err(e) => {
                return Err(e);
            },
        };
        if !fits_budget(used, rendered.as_str(), soft_limit) {
            let hidden = incoming_links.len() - backlinks.len();
            let t = (backlinks, hidden, used);
            assert(renders_as(incoming_links@[k as int].source_content@, rendered@));
            assert(backlinks_chosen(
                incoming_links@,
                used_tokens as nat,
                soft_limit as nat,
                t.0@,
                t.1 as nat,
                t.2 as nat,
            ));
            return Ok(t);
        }
        let ghost before = backlinks@;
        let line = BacklinkLine {
            source: NodeLine { id: incoming.source_node_id, rendered_content: rendered },
        };
        proof {
            lemma_backlinks_cost_push(before, line);
        }
        used = used + (estimate_tokens(line.source.rendered_content.as_str()) + 8);
        backlinks.push(line);
        k = k + 1;
    }
    let hidden = incoming_links.len() - backlinks.len();
    Ok((backlinks, hidden, used))
}

/// The children chosen from `child_nodes`: a prefix of them, each with its
/// chosen backlinks, ending where the next child line would not fit.
pub open spec fn children_chosen(
    child_nodes: Seq<StoredNode>,
    used: nat,
    limit: nat,
    children: Seq<ChildContextLine>,
    hidden: nat,
    used_after: nat,
) -> bool {
    &&& children.len() <= child_nodes.len()
    &&& hidden == child_nodes.len() - children.len()
    &&& forall|i: int|
        0 <= i < children.len() ==> shows((#[trigger] children[i]).node, child_nodes[i])
    &&& used_after == used + children_cost(children)
    &&& children.len() > 0 ==> used_after <= limit
    &&& children.len() < child_nodes.len() ==> exists|out: Seq<char>|
        #[trigger] renders_as(child_nodes[children.len() as int].content@, out) && used_after
            + line_cost(out) > limit
}

fn choose_children<R: ReadRepository>(
    repository: &R,
    child_nodes: &Vec<StoredNode>,
    used_tokens: usize,
    soft_limit: usize,
) -> (r: KernelResult<(Vec<ChildContextLine>, usize, usize)>)
    ensures
        r matches Ok(t) ==> children_chosen(
            child_nodes@,
            used_tokens as nat,
            soft_limit as nat,
            t.0@,
            t.1 as nat,
            t.2 as nat,
        ),
        child_nodes@.len() == 0 ==> (r matches Ok(t) && t.0@.len() == 0 && t.1 == 0 && t.2
            == used_tokens),
        r matches Ok(t) ==> forall|i: int|
            0 <= i < t.0@.len() ==> backlinks_listed(
                repository.spec_incoming(child_nodes@[i].id),
                (#[trigger] t.0@[i]).backlinks@,
                t.0@[i].hidden_backlink_count as nat,
            ),
        child_nodes@.len() > 0 && used_tokens >= soft_limit && renders_alone(
            child_nodes@[0].content@,
        ) ==> (r matches Ok(t) && t.0@.len() == 0 && t.1 == child_nodes@.len() && t.2
            == used_tokens),
{
    let mut children: Vec<ChildContextLine> = Vec::new();
    let mut used = used_tokens;
    let mut k: usize = 0;
    while k < child_nodes.len()
        invariant
            k <= child_nodes.len(),
            children@.len() == k,
            forall|i: int| 0 <= i < k ==> shows((#[trigger] children@[i]).node, child_nodes@[i]),
            used == used_tokens + children_cost(children@),
            k > 0 ==> used <= soft_limit,
            child_nodes@.len() > 0 && used_tokens >= soft_limit && renders_alone(
                child_nodes@[0].content@,
            ) ==> k == 0,
            forall|i: int|
                0 <= i < k ==> backlinks_listed(
                    repository.spec_incoming(child_nodes@[i].id),
                    (#[trigger] children@[i]).backlinks@,
                    children@[i].hidden_backlink_count as nat,
                ),
        decreases child_nodes.len() - k,
    {
        let child = &child_nodes[k];
        let child_line = match render_node_line(repository, child) {
            Ok(l) => l,
            Err(e) => {
                return Err(e);
            },
        };
        if !fits_budget(used, child_line.rendered_content.as_str(), soft_limit) {
            let hidden = child_nodes.len() - children.len();
            let t = (children, hidden, used);
            assert(renders_as(child_nodes@[k as int].content@, child_line.rendered_content@));
            assert(children_chosen(
                child_nodes@,
                used_tokens as nat,
                soft_limit as nat,
                t.0@,
                t.1 as nat,
                t.2 as nat,
            ));
            return Ok(t);
        }
        let used_with_line = used + (estimate_tokens(child_line.rendered_content.as_str()) + 8);
        let incoming_links = match repository.list_incoming_links(child.id) {
            Ok(l) => l,
            Err(e) => {
                return Err(e);
            },
        };
        let (backlinks, hidden_backlink_count, used_after_backlinks) = match choose_backlinks(
            repository,
            &incoming_links,
            used_with_line,
            soft_limit,
        ) {
            Ok(t) => t,
            Err(e) => {
                return Err(e);
            },
        };
        let ghost before = children@;
        used = used_after_backlinks;
        children.push(
            ChildContextLine { node: child_line, backlinks, hidden_backlink_count },
        );
        assert(children@.drop_last() =~= before);
        assert forall|i: int| 0 <= i < k + 1 implies backlinks_listed(
            repository.spec_incoming(child_nodes@[i].id),
            (#[trigger] children@[i]).backlinks@,
            children@[i].hidden_backlink_count as nat,
        ) by {
            if i < k {
                assert(children@[i] == before[i]);
            }
        }
        k = k + 1;
    }
    let hidden = child_nodes.len() - children.len();
    Ok((children, hidden, used))
}

/// `idx` maps each line to the candidate it shows: ascending or descending
/// positions, without repeats.
pub open spec fn picks(idx: Seq<int>, lines: Seq<NodeLine>, nodes: Seq<StoredNode>, ascending: bool) -> bool {
    &&& idx.len() == lines.len()
    &&& forall|k: int|
        0 <= k < idx.len() ==> 0 <= #[trigger] idx[k] < nodes.len() && shows(lines[k], nodes[idx[k]])
    &&& forall|a: int, b: int|
        0 <= a < b < idx.len() ==> if ascending {
            #[trigger] idx[a] < #[trigger] idx[b]
        } else {
            idx[a] > idx[b]
        }
}

/// A candidate left out would not have fitted: with `used` tokens spent,
/// a rendering of it would pass `limit`.
pub open spec fn left_out_wont_fit(idx: Seq<int>, nodes: Seq<StoredNode>, used: nat, limit: nat) -> bool {
    forall|i: int|
        0 <= i < nodes.len() && !idx.contains(i) ==> exists|out: Seq<char>|
            #[trigger] renders_as(nodes[i].content@, out) && used + line_cost(out) > limit
}

/// The lines show some of the candidates, in candidate order when
/// `ascending`, in reverse candidate order otherwise; each candidate left
/// out would not fit with `used` of `limit` tokens spent.
pub open spec fn picked_from(
    lines: Seq<NodeLine>,
    nodes: Seq<StoredNode>,
    ascending: bool,
    used: nat,
    limit: nat,
) -> bool {
    exists|idx: Seq<int>|
        #[trigger] picks(idx, lines, nodes, ascending) && left_out_wont_fit(idx, nodes, used, limit)
}

struct SiblingSelection {
    prev_siblings: Vec<NodeLine>,
    prev_hidden_count: usize,
    next_siblings: Vec<NodeLine>,
    next_hidden_count: usize,
    used_tokens: usize,
}

/// Siblings are offered nearest first, alternating previous and next; each
/// is shown if it fits. Previous siblings are returned in document order.
fn choose_siblings<R: ReadRepository>(
    repository: &R,
    prev_candidates: Vec<StoredNode>,
    next_candidates: Vec<StoredNode>,
    used_tokens: usize,
    soft_limit: usize,
) -> (r: KernelResult<SiblingSelection>)
    ensures
        r matches Ok(sel) ==> {
            &&& picked_from(
                sel.prev_siblings@,
                prev_candidates@,
                false,
                sel.used_tokens as nat,
                soft_limit as nat,
            )
            &&& picked_from(
                sel.next_siblings@,
                next_candidates@,
                true,
                sel.used_tokens as nat,
                soft_limit as nat,
            )
            &&& sel.prev_siblings@.len() <= prev_candidates@.len()
            &&& sel.next_siblings@.len() <= next_candidates@.len()
            &&& sel.prev_hidden_count == prev_candidates@.len() - sel.prev_siblings@.len()
            &&& sel.next_hidden_count == next_candidates@.len() - sel.next_siblings@.len()
            &&& sel.used_tokens == used_tokens + lines_cost(sel.prev_siblings@) + lines_cost(
                sel.next_siblings@,
            )
            &&& sel.prev_siblings@.len() + sel.next_siblings@.len() > 0 ==> sel.used_tokens
                <= soft_limit
        },
        (forall|i: int|
            0 <= i < prev_candidates@.len() ==> renders_alone(
                (#[trigger] prev_candidates@[i]).content@,
            )) && (forall|i: int|
            0 <= i < next_candidates@.len() ==> renders_alone(
                (#[trigger] next_candidates@[i]).content@,
            )) ==> r is Ok,
{
    let mut chosen_prev: Vec<NodeLine> = Vec::new();
    let mut chosen_next: Vec<NodeLine> = Vec::new();
    let ghost mut pidx: Seq<int> = seq![];
    let ghost mut nidx: Seq<int> = seq![];
    let mut used = used_tokens;
    let max_len = if prev_candidates.len() >= next_candidates.len() {
        prev_candidates.len()
    } else {
        next_candidates.len()
    };
    let mut index: usize = 0;
    while index < max_len
        invariant
            index <= max_len,
            max_len == prev_candidates@.len() || max_len == next_candidates@.len(),
            prev_candidates@.len() <= max_len,
            next_candidates@.len() <= max_len,
            chosen_prev@.len() <= index,
            chosen_next@.len() <= index,
            chosen_prev@.len() <= prev_candidates@.len(),
            chosen_next@.len() <= next_candidates@.len(),
            picks(pidx, chosen_prev@, prev_candidates@, false),
            picks(nidx, chosen_next@, next_candidates@, true),
            forall|k: int| 0 <= k < pidx.len() ==> #[trigger] pidx[k] < index,
            forall|k: int| 0 <= k < nidx.len() ==> #[trigger] nidx[k] < index,
            forall|i: int|
                0 <= i < prev_candidates@.len() && i < index && !pidx.contains(i) ==> exists|
                    out: Seq<char>,
                |
                    #[trigger] renders_as(prev_candidates@[i].content@, out) && used + line_cost(out)
                        > soft_limit,
            forall|i: int|
                0 <= i < next_candidates@.len() && i < index && !nidx.contains(i) ==> exists|
                    out: Seq<char>,
                |
                    #[trigger] renders_as(next_candidates@[i].content@, out) && used + line_cost(out)
                        > soft_limit,
            used == used_tokens + lines_cost(chosen_prev@) + lines_cost(chosen_next@),
            chosen_prev@.len() + chosen_next@.len() > 0 ==> used <= soft_limit,
        decreases max_len - index,
    {
        let ghost used0 = used;
        let ghost pidx0 = pidx;
        let ghost nidx0 = nidx;
        if index < prev_candidates.len() {
            let line = match render_node_line(repository, &prev_candidates[index]) {
                Ok(l) => l,
                Err(e) => {
                    return Err(e);
                },
            };
            assert(renders_as(prev_candidates@[index as int].content@, line.rendered_content@));
            if !fits_budget(used, line.rendered_content.as_str(), soft_limit) {
                assert(!pidx.contains(index as int)) by {
                    if pidx.contains(index as int) {
                        let k = choose|k: int| 0 <= k < pidx.len() && pidx[k] == index;
                        assert(pidx[k] < index);
                    }
                }
            }
            if fits_budget(used, line.rendered_content.as_str(), soft_limit) {
                used = used + (estimate_tokens(line.rendered_content.as_str()) + 8);
                let ghost before = chosen_prev@;
                proof {
                    lemma_lines_cost_prepend(line, before);
                    pidx = seq![index as int] + pidx;
                }
                chosen_prev.insert(0, line);
                assert(chosen_prev@ =~= seq![line] + before);
                assert(picks(pidx, chosen_prev@, prev_candidates@, false)) by {
                    assert forall|k: int| 0 <= k < pidx.len() implies 0 <= #[trigger] pidx[k]
                        < prev_candidates@.len() && shows(
                        chosen_prev@[k],
                        prev_candidates@[pidx[k]],
                    ) by {
                        if k > 0 {
                            assert(pidx[k] == pidx.drop_first()[k - 1]);
                        }
                    }
                }
            }
        }
        if index < next_candidates.len() {
            let line = match render_node_line(repository, &next_candidates[index]) {
                Ok(l) => l,
                Err(e) => {
                    return Err(e);
                },
            };
            assert(renders_as(next_candidates@[index as int].content@, line.rendered_content@));
            if !fits_budget(used, line.rendered_content.as_str(), soft_limit) {
                assert(!nidx.contains(index as int)) by {
                    if nidx.contains(index as int) {
                        let k = choose|k: int| 0 <= k < nidx.len() && nidx[k] == index;
                        assert(nidx[k] < index);
                    }
                }
            }
            if fits_budget(used, line.rendered_content.as_str(), soft_limit) {
                used = used + (estimate_tokens(line.rendered_content.as_str()) + 8);
                let ghost before = chosen_next@;
                proof {
                    nidx = nidx.push(index as int);
                }
                chosen_next.push(line);
                assert(chosen_next@.drop_last() =~= before);
            }
        }
        proof {
            assert(used >= used0);
            assert forall|i: int|
                0 <= i < prev_candidates@.len() && i < index + 1 && !pidx.contains(i) implies exists|
                out: Seq<char>,
            |
                #[trigger] renders_as(prev_candidates@[i].content@, out) && used + line_cost(out)
                    > soft_limit by {
                if i < index {
                    assert(!pidx0.contains(i)) by {
                        if pidx0.contains(i) {
                            let k = choose|k: int| 0 <= k < pidx0.len() && pidx0[k] == i;
                            if pidx != pidx0 {
                                assert(pidx[k + 1] == pidx0[k]);
                            }
                        }
                    }
                    let out = choose|out: Seq<char>|
                        #[trigger] renders_as(prev_candidates@[i].content@, out) && used0
                            + line_cost(out) > soft_limit;
                    assert(renders_as(prev_candidates@[i].content@, out));
                } else {
                    assert(pidx == pidx0) by {
                        if pidx != pidx0 {
                            assert(pidx[0] == index);
                        }
                    }
                }
            }
            assert forall|i: int|
                0 <= i < next_candidates@.len() && i < index + 1 && !nidx.contains(i) implies exists|
                out: Seq<char>,
            |
                #[trigger] renders_as(next_candidates@[i].content@, out) && used + line_cost(out)
                    > soft_limit by {
                if i < index {
                    assert(!nidx0.contains(i)) by {
                        if nidx0.contains(i) {
                            let k = choose|k: int| 0 <= k < nidx0.len() && nidx0[k] == i;
                            if nidx != nidx0 {
                                assert(nidx[k] == nidx0[k]);
                            }
                        }
                    }
                    let out = choose|out: Seq<char>|
                        #[trigger] renders_as(next_candidates@[i].content@, out) && used0
                            + line_cost(out) > soft_limit;
                    assert(renders_as(next_candidates@[i].content@, out));
                } else {
                    assert(nidx == nidx0) by {
                        if nidx != nidx0 {
                            assert(nidx.last() == index);
                        }
                    }
                }
            }
        }
        index = index + 1;
    }
    let prev_hidden_count = prev_candidates.len() - chosen_prev.len();
    let next_hidden_count = next_candidates.len() - chosen_next.len();
    assert(picks(pidx, chosen_prev@, prev_candidates@, false));
    assert(picks(nidx, chosen_next@, next_candidates@, true));
    assert(left_out_wont_fit(pidx, prev_candidates@, used as nat, soft_limit as nat));
    assert(left_out_wont_fit(nidx, next_candidates@, used as nat, soft_limit as nat));
    Ok(SiblingSelection {
        prev_siblings: chosen_prev,
        prev_hidden_count,
        next_siblings: chosen_next,
        next_hidden_count,
        used_tokens: used,
    })
}

// ---------------------------------------------------------------------------
// Use cases
// ---------------------------------------------------------------------------

/// How many matches `create_root` shows.
pub const DEFAULT_MATCH_LIMIT: usize = 50;

/// Validates and canonicalizes raw content into a node to create, without aliases.
fn build_new_node<R: ReadRepository>(repository: &R, raw_content: &str) -> (r: KernelResult<
    NewNodeRecord,
>)
    ensures
        !valid_content_line(raw_content@) ==> fails_with(r, Failure::Input),
        valid_content_line(raw_content@) && parse_spec(raw_content@) is Err ==> fails_with(
            r,
            Failure::Input,
        ),
        valid_content_line(raw_content@) ==> (parse_spec(raw_content@) matches Ok(fs) ==> {
            &&& r matches Ok(n) ==> {
                &&& n.aliases@.len() == 0
                &&& ids_fit(links_of(fs), id_values(n.outgoing_links@))
                &&& n.content@ == canonical_text(fs, id_values(n.outgoing_links@))
                &&& n.lookup_key@ == trim(n.content@)
            }
            &&& r matches Ok(n) ==> lookups_bound(repository, links_of(fs), n.outgoing_links@)
            &&& !has_lookup(links_of(fs)) ==> r is Ok
            &&& lookup_unsettled(repository, links_of(fs)) ==> r is Err
        }),
{
    let content = match ContentLine::parse(raw_content) {
        Ok(c) => c,
        Err(e) => {
            return Err(KernelError::Input(e.message()));
        },
    };
    let canonical = match canonicalize_content(repository, &content) {
        Ok(c) => c,
        Err(e) => {
            return Err(e);
        },
    };
    Ok(
        NewNodeRecord {
            content: canonical.content,
            lookup_key: canonical.lookup_key,
            outgoing_links: canonical.outgoing_links,
            aliases: Vec::new(),
        },
    )
}

/// A note result for `note_date` that shows a stored node.
pub open spec fn noted(res: NoteResult, note_date: Seq<char>) -> bool {
    &&& res.note_date@ == note_date
    &&& exists|node: StoredNode| #[trigger] shows(res.node, node)
}

/// A day view for `note_date` whose entries show stored nodes.
pub open spec fn day_shown(view: DayView, note_date: Seq<char>) -> bool {
    &&& view.note_date@ == note_date
    &&& exists|nodes: Seq<StoredNode>| #[trigger] all_show(view.entries@, nodes)
}

/// Appends an entry to the daily note of `note_date`, creating the daily
/// note when there is none. The entry is validated and canonicalized
/// first, so a refused entry leaves no new daily note behind.
pub fn note_today<R: WriteRepository>(repository: &mut R, note_date: &str, raw_content: &str) -> (r:
    KernelResult<NoteResult>)
    ensures
        (!valid_content_line(raw_content@) || parse_spec(raw_content@) is Err || (parse_spec(
            raw_content@,
        ) matches Ok(fs) && lookup_unsettled(old(repository), links_of(fs)))) ==> (r is Err
            && *final(repository) == *old(repository)),
        r matches Ok(res) ==> (parse_spec(raw_content@) matches Ok(fs) && final(repository).spec_node(
            res.node.id,
        ) matches Some(n) && n.content@ == canonical_text(
            fs,
            id_values(final(repository).spec_outgoing(res.node.id)),
        ) && ids_fit(links_of(fs), id_values(final(repository).spec_outgoing(res.node.id)))
            && lookups_bound(old(repository), links_of(fs), final(repository).spec_outgoing(res.node.id))),
        r matches Ok(res) ==> (final(repository).spec_daily_note(note_date@) matches Some(day)
            && final(repository).spec_node(day) matches Some(dn) && dn.last_child_id == Some(
            res.node.id,
        )),
        r matches Ok(res) ==> (final(repository).spec_node(res.node.id) matches Some(n)
            && n.next_sibling_id is None && n.prev_sibling_id == match old(repository).spec_daily_note(
            note_date@,
        ) {
            Some(day) => match old(repository).spec_node(day) {
                Some(dn) => dn.last_child_id,
                None => None,
            },
            None => None,
        }),
        !valid_content_line(raw_content@) ==> fails_with(r, Failure::Input),
        valid_content_line(raw_content@) && parse_spec(raw_content@) is Err ==> fails_with(
            r,
            Failure::Input,
        ),
        r matches Ok(res) ==> noted(res, note_date@),
        r matches Ok(res) ==> (final(repository).spec_node(res.node.id) matches Some(n) && shows(
            res.node,
            n,
        )),
        (!valid_content_line(raw_content@) || parse_spec(raw_content@) is Err) ==> *final(repository)
            == *old(repository),
        r matches Ok(res) ==> match old(repository).spec_daily_note(note_date@) {
            Some(day) => final(repository).spec_node(res.node.id) matches Some(n) && n.parent_id
                == Some(day),
            None => final(repository).spec_node(res.node.id) matches Some(n) && n.parent_id
                matches Some(day) && old(repository).spec_node(day) is None,
        },
{
    let node = match build_new_node(&*repository, raw_content) {
        Ok(n) => n,
        Err(e) => {
            return Err(e);
        },
    };
    let ghost start = *repository;
    let note_node_id = match repository.find_daily_note(note_date) {
        Ok(Some(record)) => record.node_id,
        Ok(None) => match repository.create_daily_note_node(note_date) {
            Ok(id) => id,
            Err(e) => {
                return Err(e);
            },
        },
        Err(e) => {
            return Err(e);
        },
    };
    assert(match start.spec_daily_note(note_date@) {
        Some(day) => note_node_id == day,
        None => start.spec_node(note_node_id) is None,
    });
    let ghost before_create = *repository;
    let nodes = vec![node];
    let ids = match repository.create_nodes(Placement::LastChildOf(note_node_id), nodes.as_slice()) {
        Ok(ids) => ids,
        Err(e) => {
            return Err(e);
        },
    };
    let node_id = ids[0];
    assert(repository.spec_node(node_id) matches Some(n) && n.parent_id == Some(note_node_id));
    assert(before_create.spec_node(node_id) is None);
    let created = match repository.get_node(node_id) {
        Ok(Some(n)) => n,
        Ok(None) => {
            return Err(
                KernelError::StorageCorruption(message_with_id("missing created node ", node_id, "")),
            );
        },
        Err(e) => {
            return Err(e);
        },
    };
    let line = match render_node_line(&*repository, &created) {
        Ok(l) => l,
        Err(e) => {
            return Err(e);
        },
    };
    let date = copy_str(note_date);
    let res = NoteResult { note_date: date, node: line };
    assert(shows(res.node, created));
    assert(noted(res, note_date@));
    Ok(res)
}

// ---------------------------------------------------------------------------
// Daily note dates
// ---------------------------------------------------------------------------

pub open spec fn is_leap_year(y: int) -> bool {
    (y % 4 == 0 && y % 100 != 0) || y % 400 == 0
}

pub open spec fn days_in_month(y: int, m: int) -> int {
    if m == 2 {
        if is_leap_year(y) {
            29
        } else {
            28
        }
    } else if m == 4 || m == 6 || m == 9 || m == 11 {
        30
    } else {
        31
    }
}

/// A `YYYY-MM-DD` date of the Gregorian calendar.
pub open spec fn is_calendar_date(s: Seq<char>) -> bool {
    &&& s.len() == 10
    &&& s[4] == '-'
    &&& s[7] == '-'
    &&& all_digits(s.subrange(0, 4))
    &&& all_digits(s.subrange(5, 7))
    &&& all_digits(s.subrange(8, 10))
    &&& 1 <= digits_value(s.subrange(5, 7)) <= 12
    &&& 1 <= digits_value(s.subrange(8, 10)) <= days_in_month(
        digits_value(s.subrange(0, 4)) as int,
        digits_value(s.subrange(5, 7)) as int,
    )
}

/// `10^n` for the widths of date fields.
pub open spec fn small_power_of_ten(n: nat) -> nat {
    if n == 0 {
        1
    } else if n == 1 {
        10
    } else if n == 2 {
        100
    } else if n == 3 {
        1000
    } else {
        10000
    }
}

fn digit_at(s: &Vec<char>, i: usize) -> (r: Option<u32>)
    requires
        i < s@.len(),
    ensures
        r is Some <==> is_digit(s@[i as int]),
        r matches Some(d) ==> d == digit_value(s@[i as int]) && d < 10,
{
    let c = s[i];
    if '0' <= c && c <= '9' {
        Some((c as u32) - ('0' as u32))
    } else {
        None
    }
}

/// The number written by the digits `s[from..to]`, if they are all digits.
fn digits_at(s: &Vec<char>, from: usize, to: usize) -> (r: Option<u32>)
    requires
        from <= to <= s@.len(),
        to - from <= 4,
    ensures
        r is Some <==> all_digits(s@.subrange(from as int, to as int)),
        r matches Some(v) ==> v == digits_value(s@.subrange(from as int, to as int)),
{
    let mut v: u32 = 0;
    let mut k: usize = from;
    while k < to
        invariant
            from <= k <= to <= s@.len(),
            to - from <= 4,
            all_digits(s@.subrange(from as int, k as int)),
            v == digits_value(s@.subrange(from as int, k as int)),
            v < small_power_of_ten((k - from) as nat),
        decreases to - k,
    {
        let ghost prefix = s@.subrange(from as int, k + 1);
        assert(prefix.drop_last() =~= s@.subrange(from as int, k as int));
        match digit_at(s, k) {
            Some(d) => {
                v = v * 10 + d;
            },
            None => {
                assert(!is_digit(s@.subrange(from as int, to as int)[k - from]));
                return None;
            },
        }
        k = k + 1;
        assert(all_digits(s@.subrange(from as int, k as int))) by {
            assert forall|i: int| 0 <= i < k - from implies is_digit(
                #[trigger] s@.subrange(from as int, k as int)[i],
            ) by {
                if i < k - 1 - from {
                    assert(s@.subrange(from as int, k as int)[i] == s@.subrange(
                        from as int,
                        k - 1,
                    )[i]);
                }
            }
        }
    }
    Some(v)
}

/// Piped input without its final line break (`\n` or `\r\n`).
pub open spec fn without_line_end(s: Seq<char>) -> Seq<char> {
    let t = if s.len() > 0 && s.last() == '\n' {
        s.drop_last()
    } else {
        s
    };
    if s.len() > 0 && s.last() == '\n' && t.len() > 0 && t.last() == '\r' {
        t.drop_last()
    } else {
        t
    }
}

/// The content a note reads from piped input: refused when nothing was
/// piped, else the input without its final line break.
pub fn piped_content(buffer: &str) -> (r: KernelResult<String>)
    ensures
        buffer@.len() == 0 ==> (r matches Err(KernelError::Input(m)) && m@
            == "content must be provided as an argument or via stdin"@),
        buffer@.len() > 0 ==> (r matches Ok(c) && c@ == without_line_end(buffer@)),
{
    let mut chars = to_chars(buffer);
    if chars.len() == 0 {
        return Err(
            KernelError::Input("content must be provided as an argument or via stdin".to_owned()),
        );
    }
    let ghost s = chars@;
    if chars[chars.len() - 1] == '\n' {
        chars.pop();
        if chars.len() > 0 && chars[chars.len() - 1] == '\r' {
            chars.pop();
        }
    }
    proof {
        let t = if s.len() > 0 && s.last() == '\n' {
            s.drop_last()
        } else {
            s
        };
        assert(s.drop_last() =~= s.take(s.len() - 1));
        assert(t.drop_last() =~= t.take(t.len() - 1));
    }
    assert(chars@ =~= without_line_end(buffer@));
    Ok(chars_to_string(chars.as_slice()))
}

/// Accepts a daily note date: a real `YYYY-MM-DD` calendar date.
pub fn check_note_date(note_date: &str) -> (r: KernelResult<()>)
    ensures
        is_calendar_date(note_date@) ==> r is Ok,
        !is_calendar_date(note_date@) ==> fails_with(r, Failure::Input),
        !is_calendar_date(note_date@) ==> (r matches Err(KernelError::Input(m)) && m@
            == "invalid day date: "@ + note_date@),
{
    let s = to_chars(note_date);
    let valid = if s.len() != 10 || s[4] != '-' || s[7] != '-' {
        false
    } else {
        match (digits_at(&s, 0, 4), digits_at(&s, 5, 7), digits_at(&s, 8, 10)) {
            (Some(y), Some(m), Some(d)) => {
                let leap = (y % 4 == 0 && y % 100 != 0) || y % 400 == 0;
                let limit = if m == 2 {
                    if leap {
                        29
                    } else {
                        28
                    }
                } else if m == 4 || m == 6 || m == 9 || m == 11 {
                    30
                } else {
                    31
                };
                1 <= m && m <= 12 && 1 <= d && d <= limit
            },
            _ => false,
        }
    };
    if valid {
        Ok(())
    } else {
        let message = message_with_text("invalid day date: ", note_date, "");
        proof {
            reveal_strlit("");
            assert(message@ =~= "invalid day date: "@ + note_date@);
        }
        Err(KernelError::Input(message))
    }
}

fn copy_str(s: &str) -> (r: String)
    ensures
        r@ == s@,
{
    let chars = to_chars(s);
    chars_to_string(chars.as_slice())
}

/// `lines` show the children of the daily note of `note_date`, in child
/// order and none left out; there are none when the date has no note.
pub open spec fn day_entries<R: ReadRepository>(
    repository: &R,
    note_date: Seq<char>,
    lines: Seq<NodeLine>,
) -> bool {
    match repository.spec_daily_note(note_date) {
        None => lines.len() == 0,
        Some(day) => exists|kids: Seq<StoredNode>|
            #[trigger] all_show(lines, kids) && child_chain(repository, Some(day), kids),
    }
}

/// The rendered entries of the daily note of `note_date`, in child order;
/// none when the day has no note.
pub fn open_day<R: ReadRepository>(repository: &R, note_date: &str) -> (r: KernelResult<DayView>)
    ensures
        r matches Ok(view) ==> day_shown(view, note_date@),
        r matches Ok(view) ==> day_entries(repository, note_date@, view.entries@),
{
    let found = match repository.find_daily_note(note_date) {
        Ok(f) => f,
        Err(e) => {
            return Err(e);
        },
    };
    let entries = match found {
        Some(record) => match crate::read::list_children(repository, record.node_id) {
            Ok(lines) => {
                assert(day_entries(repository, note_date@, lines@)) by {
                    assert(repository.spec_daily_note(note_date@) == Some(record.node_id));
                }
                lines
            },
            Err(e) => {
                return Err(e);
            },
        },
        None => {
            let lines: Vec<NodeLine> = Vec::new();
            assert(all_show(lines@, Seq::<StoredNode>::empty()));
            assert(day_entries(repository, note_date@, lines@));
            lines
        },
    };
    let ghost shown = entries@;
    let view = DayView { note_date: copy_str(note_date), entries };
    assert(view.entries@ == shown);
    assert(day_shown(view, note_date@));
    Ok(view)
}

proof fn lemma_plain_matches_of(s: Seq<StoredNode>, needle: Seq<char>)
    ensures
        forall|k: int|
            0 <= k < plain_matches_of(s, needle).len() ==> plain_match(
                (#[trigger] plain_matches_of(s, needle)[k]).content@,
                needle,
            ),
    decreases s.len(),
{
    if s.len() > 0 {
        lemma_plain_matches_of(s.drop_last(), needle);
    }
}

/// `lines` show the first matches of `all`, the nodes whose plain text holds
/// `needle` sorted by rank and id; `hidden` counts the rest.
pub open spec fn match_listing(
    all: Seq<StoredNode>,
    needle: Seq<char>,
    lines: Seq<NodeLine>,
    hidden: nat,
) -> bool {
    &&& matches_sorted(all, needle)
    &&& forall|k: int| 0 <= k < all.len() ==> plain_match((#[trigger] all[k]).content@, needle)
    &&& lines.len() == (if all.len() <= DEFAULT_MATCH_LIMIT {
        all.len()
    } else {
        DEFAULT_MATCH_LIMIT as nat
    })
    &&& hidden == all.len() - lines.len()
    &&& forall|k: int| 0 <= k < lines.len() ==> shows(#[trigger] lines[k], all[k])
}

/// No root of the store has the trimmed text of `text`.
pub open spec fn no_root_named<R: ReadRepository>(repository: &R, text: Seq<char>) -> bool {
    forall|x: NodeId|
        #[trigger] repository.spec_is_root(x) && repository.spec_node(x) is Some ==> trim(
            repository.spec_node(x)->0.content@,
        ) != trim(text)
}

/// A root shown with its listed matches.
pub open spec fn root_listed(res: RootCreateResult, needle: Seq<char>) -> bool {
    &&& exists|root: StoredNode| #[trigger] shows(res.root, root)
    &&& exists|all: Seq<StoredNode>|
        #[trigger] match_listing(all, needle, res.matches@, res.hidden_match_count as nat)
}

/// Finds the root node whose content matches `raw_content`, creating it when
/// there is none, and lists the nodes whose plain text mentions it.
pub fn create_root<R: WriteRepository>(repository: &mut R, raw_content: &str) -> (r: KernelResult<
    RootCreateResult,
>)
    ensures
        !valid_content_line(raw_content@) ==> fails_with(r, Failure::Input),
        r matches Ok(res) ==> root_listed(res, raw_content@),
        r matches Ok(res) ==> (final(repository).spec_node(res.root.id) matches Some(n) && shows(
            res.root,
            n,
        )),
        r matches Ok(res) ==> final(repository).spec_is_root(res.root.id),
        r matches Ok(res) ==> (old(repository).spec_is_root(res.root.id) && (old(repository).spec_node(res.root.id) matches Some(n) && trim(n.content@) == trim(raw_content@)))
            || (no_root_named(old(repository), raw_content@) && old(repository).spec_node(
            res.root.id,
        ) is None),
        !valid_content_line(raw_content@) ==> *final(repository) == *old(repository),
        !no_root_named(old(repository), raw_content@) ==> *final(repository) == *old(repository),
        r matches Ok(res) ==> exists|all: Seq<StoredNode>|
            #[trigger] match_listing(all, raw_content@, res.matches@, res.hidden_match_count as nat)
                && all.to_multiset() == plain_matches_of(
                final(repository).spec_text_matches(raw_content@),
                raw_content@,
            ).to_multiset(),
{
    let ghost start = *repository;
    let content = match ContentLine::parse(raw_content) {
        Ok(c) => c,
        Err(e) => {
            return Err(KernelError::Input(e.message()));
        },
    };
    let root = match repository.find_root_node_by_content(&content) {
        Ok(Some(n)) => n,
        Ok(None) => {
            let node = match build_new_node(&*repository, raw_content) {
                Ok(n) => n,
                Err(e) => {
                    return Err(e);
                },
            };
            let node_id = match repository.create_root_node(&node) {
                Ok(id) => id,
                Err(e) => {
                    return Err(e);
                },
            };
            match repository.get_node(node_id) {
                Ok(Some(n)) => n,
                Ok(None) => {
                    return Err(
                        KernelError::StorageCorruption(
                            message_with_id("missing created root node ", node_id, ""),
                        ),
                    );
                },
                Err(e) => {
                    return Err(e);
                },
            }
        },
        Err(e) => {
            return Err(e);
        },
    };
    let root_line = match render_node_line(&*repository, &root) {
        Ok(l) => l,
        Err(e) => {
            return Err(e);
        },
    };
    let found = match repository.search_text_matches(content.as_str()) {
        Ok(f) => f,
        Err(e) => {
            return Err(e);
        },
    };
    let needle = content.chars();
    let kept = keep_plain_matches(found, content.as_str());
    let sorted = sort_matches(kept, &needle);
    proof {
        broadcast use vstd::seq_lib::group_to_multiset_ensures;
        lemma_plain_matches_of(found@, raw_content@);
        assert forall|k: int| 0 <= k < sorted@.len() implies plain_match(
            (#[trigger] sorted@[k]).content@,
            raw_content@,
        ) by {
            assert(sorted@.contains(sorted@[k]));
            assert(kept@.to_multiset().count(sorted@[k]) > 0);
            assert(kept@.contains(sorted@[k]));
        }
    }
    let limit = if sorted.len() <= DEFAULT_MATCH_LIMIT {
        sorted.len()
    } else {
        DEFAULT_MATCH_LIMIT
    };
    let mut matches: Vec<NodeLine> = Vec::new();
    let mut k: usize = 0;
    while k < limit
        invariant
            k <= limit <= sorted@.len(),
            valid_content_line(raw_content@),
            matches@.len() == k,
            !no_root_named(old(repository), raw_content@) ==> *repository == *old(repository),
            forall|i: int| 0 <= i < k ==> shows(#[trigger] matches@[i], sorted@[i]),
        decreases limit - k,
    {
        match render_node_line(&*repository, &sorted[k]) {
            Ok(line) => matches.push(line),
            Err(e) => {
                return Err(e);
            },
        }
        k = k + 1;
    }
    let hidden_match_count = sorted.len() - limit;
    let res = RootCreateResult { root: root_line, matches, hidden_match_count };
    assert(shows(res.root, root));
    assert(match_listing(sorted@, raw_content@, res.matches@, res.hidden_match_count as nat));
    assert(root_listed(res, raw_content@));
    assert(sorted@.to_multiset() == plain_matches_of(
        repository.spec_text_matches(raw_content@),
        raw_content@,
    ).to_multiset());
    Ok(res)
}

/// Text a root link may replace: not empty and on one line.
pub open spec fn apply_text_ok(t: Seq<char>) -> bool {
    t.len() > 0 && !has_char(t, '\n') && !has_char(t, '\r')
}

/// The updated nodes, rendered, one per requested id and in the same order.
pub open spec fn applied(res: RootApplyResult, node_ids: Seq<NodeId>) -> bool {
    &&& res.updated_nodes@.len() == node_ids.len()
    &&& forall|k: int|
        0 <= k < node_ids.len() ==> (#[trigger] res.updated_nodes@[k]).id == node_ids[k]
            && shows_some(res.updated_nodes@[k])
}

/// The line shows some stored node.
pub open spec fn shows_some(line: NodeLine) -> bool {
    exists|node: StoredNode| #[trigger] shows(line, node)
}

/// The text a root link replaces: `target_text` when given, else the
/// root's own content.
pub open spec fn apply_needle(target_text: Option<&str>, root: StoredNode) -> Seq<char> {
    match target_text {
        Some(t) => t@,
        None => root.content@,
    }
}

/// Stored text with a plain-text occurrence of `needle`.
pub open spec fn mentions(content: Seq<char>, needle: Seq<char>) -> bool {
    parse_spec(content) matches Ok(fs) && any_plain_hit(fs, needle)
}

/// Stored text with every plain-text `needle` turned into a link to `root_id`.
pub open spec fn linked_text(content: Seq<char>, needle: Seq<char>, root_id: NodeId) -> Seq<char> {
    match parse_spec(content) {
        Ok(fs) => rewritten_text(fs, needle, root_token(root_id@, needle)),
        Err(_) => seq![],
    }
}

/// A root link that is refused before anything is written: the root is
/// missing or no root, the given text is no single line, or a node is a
/// daily note node.
pub open spec fn apply_refused<R: ReadRepository>(
    repository: &R,
    root_id: NodeId,
    target_text: Option<&str>,
    node_ids: Seq<NodeId>,
) -> bool {
    ||| repository.spec_node(root_id) is None
    ||| !repository.spec_is_root(root_id)
    ||| target_text matches Some(t) && !apply_text_ok(t@)
    ||| exists|k: int| 0 <= k < node_ids.len() && repository.spec_is_daily_note(#[trigger] node_ids[k])
}

/// Node `x` can take a link to the root: it is stored, is no daily note
/// node, and its plain text holds `needle`.
pub open spec fn apply_node_ok<R: ReadRepository>(repository: &R, x: NodeId, needle: Seq<char>) -> bool {
    &&& !repository.spec_is_daily_note(x)
    &&& repository.spec_node(x) matches Some(n) && mentions(n.content@, needle)
}

/// `node_ids[k]` is the first of the nodes that cannot take the link.
pub open spec fn first_unfit<R: ReadRepository>(
    repository: &R,
    node_ids: Seq<NodeId>,
    needle: Seq<char>,
    k: int,
) -> bool {
    &&& 0 <= k < node_ids.len()
    &&& forall|i: int| 0 <= i < k ==> apply_node_ok(repository, #[trigger] node_ids[i], needle)
    &&& !apply_node_ok(repository, node_ids[k], needle)
}

/// Turns every plain-text occurrence of the root's text (or `target_text`)
/// in the given nodes into a labelled link to the root, and writes all of
/// them as one batch.
pub fn apply_root_link<R: WriteRepository>(
    repository: &mut R,
    root_id: NodeId,
    target_text: Option<&str>,
    node_ids: &[NodeId],
) -> (r: KernelResult<RootApplyResult>)
    ensures
        target_text matches Some(t) && !apply_text_ok(t@) ==> r is Err,
        r matches Ok(res) ==> applied(res, node_ids@),
        r is Ok ==> forall|k: int|
            0 <= k < node_ids@.len() ==> !on_cycle(
                link_graph(final(repository)),
                #[trigger] node_ids@[k],
            ),
        r is Ok ==> forall|j: int, k: int|
            0 <= j < k < node_ids@.len() ==> node_ids@[j] != node_ids@[k],
        r is Ok ==> old(repository).spec_is_root(root_id),
        r is Ok ==> forall|k: int|
            0 <= k < node_ids@.len() ==> !old(repository).spec_is_daily_note(
                #[trigger] node_ids@[k],
            ),
        old(repository).spec_node(root_id) is None ==> r is Err,
        r matches Ok(res) ==> forall|k: int|
            0 <= k < node_ids@.len() ==> (final(repository).spec_node(node_ids@[k]) matches Some(m)
                && shows(#[trigger] res.updated_nodes@[k], m)),
        r is Ok ==> {
            &&& old(repository).spec_node(root_id) matches Some(root)
            &&& forall|k: int|
                0 <= k < node_ids@.len() ==> {
                    &&& old(repository).spec_node(#[trigger] node_ids@[k]) matches Some(n)
                    &&& mentions(n.content@, apply_needle(target_text, root))
                    &&& rewritten(
                        Some(n),
                        final(repository).spec_node(node_ids@[k]),
                        linked_text(n.content@, apply_needle(target_text, root), root_id),
                        old(repository).spec_is_root(node_ids@[k]),
                        final(repository).spec_outgoing(node_ids@[k]),
                    )
                }
        },
        r is Ok ==> forall|x: NodeId|
            (forall|k: int| 0 <= k < node_ids@.len() ==> #[trigger] node_ids@[k] != x) ==> (
            #[trigger] final(repository).spec_node(x) == old(repository).spec_node(x)),
        r is Ok && node_ids@.len() > 0 ==> root_keys_distinct(final(repository)),
        apply_refused(old(repository), root_id, target_text, node_ids@) ==> r is Err && *final(repository) == *old(repository),
        old(repository).spec_node(root_id) is None ==> missing_node(r, root_id),
        old(repository).spec_node(root_id) is Some && !old(repository).spec_is_root(root_id)
            ==> refused_as(r, Failure::Constraint),
        old(repository).spec_node(root_id) is Some && old(repository).spec_is_root(root_id) && (
        target_text matches Some(t) && !apply_text_ok(t@)) ==> refused_as(r, Failure::Input),
        forall|k: int|
            (old(repository).spec_node(root_id) is Some && old(repository).spec_is_root(root_id)
                && apply_text_ok(apply_needle(target_text, old(repository).spec_node(root_id)->0))
                && #[trigger] first_unfit(
                old(repository),
                node_ids@,
                apply_needle(target_text, old(repository).spec_node(root_id)->0),
                k,
            )) ==> {
                &&& r is Err && *final(repository) == *old(repository)
                &&& old(repository).spec_is_daily_note(node_ids@[k]) ==> refused_as(
                    r,
                    Failure::Constraint,
                )
                &&& !old(repository).spec_is_daily_note(node_ids@[k]) && old(repository).spec_node(
                    node_ids@[k],
                ) is None ==> (r matches Err(e) && (e == KernelError::NotFound {
                    entity: "node",
                    id: node_ids@[k],
                } || read_failure(e)))
                &&& !old(repository).spec_is_daily_note(node_ids@[k]) && (old(repository).spec_node(
                    node_ids@[k],
                ) matches Some(n) && parse_spec(n.content@) is Ok) ==> refused_as(
                    r,
                    Failure::Constraint,
                )
            },
{
    let root = match repository.get_node(root_id) {
        Ok(Some(n)) => n,
        Ok(None) => {
            return Err(KernelError::NotFound { entity: "node", id: root_id });
        },
        Err(e) => {
            return Err(e);
        },
    };
    match repository.is_root_node(root_id) {
        Ok(true) => {},
        Ok(false) => {
            return Err(
                KernelError::Constraint(message_with_id("node ", root_id, " is not a root node")),
            );
        },
        Err(e) => {
            return Err(e);
        },
    }
    let target: Vec<char> = match target_text {
        Some(t) => to_chars(t),
        None => root.content.chars(),
    };
    if target.len() == 0 || has_char_exec(target.as_slice(), '\n') || has_char_exec(
        target.as_slice(),
        '\r',
    ) {
        return Err(KernelError::Input("root apply text must be a non-empty single line".to_owned()));
    }
    let needle = chars_to_string(target.as_slice());
    let mut updates: Vec<(NodeId, String)> = Vec::new();
    let mut k: usize = 0;
    while k < node_ids.len()
        invariant
            k <= node_ids@.len(),
            updates@.len() == k,
            forall|i: int| 0 <= i < k ==> (#[trigger] updates@[i]).0 == node_ids@[i],
            forall|i: int| 0 <= i < k ==> !repository.spec_is_daily_note(#[trigger] node_ids@[i]),
            forall|i: int| 0 <= i < k ==> apply_node_ok(&*repository, #[trigger] node_ids@[i], needle@),
            *repository == *old(repository),
            old(repository).spec_is_root(root_id),
            apply_text_ok(needle@),
            repository.spec_node(root_id) == Some(root),
            needle@ == apply_needle(target_text, root),
            target_text matches Some(t) ==> apply_text_ok(t@),
            forall|i: int|
                0 <= i < k ==> {
                    &&& repository.spec_node(#[trigger] node_ids@[i]) matches Some(n)
                    &&& mentions(n.content@, needle@)
                    &&& updates@[i].1@ == linked_text(n.content@, needle@, root_id)
                },
        decreases node_ids.len() - k,
    {
        let node_id = node_ids[k];
        match repository.is_daily_note_node(node_id) {
            Ok(false) => {},
            Ok(true) => {
                return Err(
                    KernelError::Constraint("daily note date nodes are immutable".to_owned()),
                );
            },
            Err(e) => {
                return Err(e);
            },
        }
        let node = match repository.get_node(node_id) {
            Ok(Some(n)) => n,
            Ok(None) => {
                return Err(KernelError::NotFound { entity: "node", id: node_id });
            },
            Err(e) => {
                return Err(e);
            },
        };
        let rewritten = match rewrite_text_fragments(&node.content, needle.as_str(), root_id) {
            Ok(Some(t)) => t,
            Ok(None) => {
                return Err(
                    KernelError::Constraint(
                        message_with_id("target text not found in node ", node_id, ""),
                    ),
                );
            },
            Err(e) => {
                return Err(e);
            },
        };
        updates.push((node_id, rewritten));
        k = k + 1;
    }
    let ghost pre = *repository;
    match update_nodes(repository, updates.as_slice()) {
        Ok(()) => {},
        Err(e) => {
            return Err(e);
        },
    }
    let ghost written = link_graph(&*repository);
    let ghost post = *repository;
    assert forall|i: int| 0 <= i < node_ids@.len() implies {
        &&& pre.spec_node(#[trigger] node_ids@[i]) matches Some(n)
        &&& mentions(n.content@, needle@)
        &&& rewritten(
            Some(n),
            post.spec_node(node_ids@[i]),
            linked_text(n.content@, needle@, root_id),
            pre.spec_is_root(node_ids@[i]),
            post.spec_outgoing(node_ids@[i]),
        )
    } by {
        assert(updates@[i].0 == node_ids@[i]);
    }
    assert forall|x: NodeId|
        (forall|i: int| 0 <= i < node_ids@.len() ==> #[trigger] node_ids@[i] != x) implies (
        #[trigger] post.spec_node(x) == pre.spec_node(x)) by {
        assert forall|i: int| 0 <= i < updates@.len() implies #[trigger] updates@[i].0 != x by {
            assert(updates@[i].0 == node_ids@[i]);
        }
    }
    assert(forall|i: int| 0 <= i < node_ids@.len() ==> !on_cycle(written, #[trigger] node_ids@[i])) by {
        assert forall|i: int| 0 <= i < node_ids@.len() implies !on_cycle(written, #[trigger] node_ids@[i]) by {
            assert(updates@[i].0 == node_ids@[i]);
        }
    }
    assert(forall|a: int, b: int| 0 <= a < b < node_ids@.len() ==> node_ids@[a] != node_ids@[b]) by {
        assert forall|a: int, b: int| 0 <= a < b < node_ids@.len() implies node_ids@[a] != node_ids@[b] by {
            assert(updates@[a].0 == node_ids@[a]);
            assert(updates@[b].0 == node_ids@[b]);
        }
    }
    assert forall|k: int| !#[trigger] first_unfit(old(repository), node_ids@, needle@, k) by {
        if 0 <= k < node_ids@.len() {
            assert(apply_node_ok(old(repository), node_ids@[k], needle@));
        }
    }
    let mut updated_nodes: Vec<NodeLine> = Vec::new();
    let mut j: usize = 0;
    while j < node_ids.len()
        invariant
            j <= node_ids@.len(),
            link_graph(&*repository) == written,
            forall|i: int| 0 <= i < node_ids@.len() ==> !on_cycle(written, #[trigger] node_ids@[i]),
            forall|a: int, b: int| 0 <= a < b < node_ids@.len() ==> node_ids@[a] != node_ids@[b],
            updated_nodes@.len() == j,
            forall|i: int|
                0 <= i < j ==> (#[trigger] updated_nodes@[i]).id == node_ids@[i] && shows_some(
                    updated_nodes@[i],
                ),
            forall|i: int|
                0 <= i < j ==> shows(
                    #[trigger] updated_nodes@[i],
                    repository.spec_node(node_ids@[i]).unwrap(),
                ),
            forall|i: int| 0 <= i < j ==> (#[trigger] repository.spec_node(node_ids@[i])) is Some,
            *repository == post,
            !apply_refused(old(repository), root_id, target_text, node_ids@),
            forall|k: int| !#[trigger] first_unfit(old(repository), node_ids@, needle@, k),
            needle@ == apply_needle(target_text, old(repository).spec_node(root_id)->0),
        decreases node_ids.len() - j,
    {
        let node_id = node_ids[j];
        let node = match repository.get_node(node_id) {
            Ok(Some(n)) => n,
            Ok(None) => {
                return Err(
                    KernelError::StorageCorruption(
                        message_with_id("missing updated node ", node_id, ""),
                    ),
                );
            },
            Err(e) => {
                return Err(e);
            },
        };
        let line = match render_node_line(&*repository, &node) {
            Ok(l) => l,
            Err(e) => {
                return Err(e);
            },
        };
        assert(shows(line, node));
        assert(shows_some(line));
        let ghost before = updated_nodes@;
        updated_nodes.push(line);
        assert forall|i: int| 0 <= i < j + 1 implies repository.spec_node(node_ids@[i]) is Some
            && shows(
            #[trigger] updated_nodes@[i],
            repository.spec_node(node_ids@[i]).unwrap(),
        ) by {
            if i < j {
                assert(updated_nodes@[i] == before[i]);
            }
        }
        j = j + 1;
    }
    let res = RootApplyResult { updated_nodes };
    assert(applied(res, node_ids@));
    Ok(res)
}

/// The soft token limit of a read: the budget and 300 more, at most `usize::MAX`.
pub open spec fn soft_limit_of(budget: usize) -> nat {
    if budget + 300 <= usize::MAX {
        (budget + 300) as nat
    } else {
        usize::MAX as nat
    }
}

/// What everything a read context displays costs.
pub open spec fn context_cost(v: ReadContextView) -> nat {
    line_cost(v.current.rendered_content@) + lines_cost(v.prev_siblings@) + lines_cost(
        v.next_siblings@,
    ) + backlinks_cost(v.backlinks@) + children_cost(v.children@)
}

/// The context shows something besides the node itself.
pub open spec fn context_extends(v: ReadContextView) -> bool {
    v.prev_siblings@.len() + v.next_siblings@.len() + v.backlinks@.len() + v.children@.len() > 0
}

/// The candidates for sibling context: the neighbouring daily notes of a
/// daily note, the sibling chains of a child node, and none for another
/// top-level node.
pub open spec fn sibling_candidates(
    node: StoredNode,
    is_daily: bool,
    prevs: Seq<StoredNode>,
    nexts: Seq<StoredNode>,
) -> bool {
    if is_daily {
        exists|days: Seq<DailyNoteRecord>, p: int|
            #[trigger] daily_neighbors(days, p, node.id, prevs, nexts)
    } else if node.parent_id is Some {
        sibling_chain(node.prev_sibling_id, prevs, true) && sibling_chain(
            node.next_sibling_id,
            nexts,
            false,
        )
    } else {
        prevs.len() == 0 && nexts.len() == 0
    }
}

/// The lines show the first `lines.len()` incoming links; `hidden` counts the rest.
pub open spec fn backlinks_listed(
    incoming: Seq<IncomingLinkRecord>,
    lines: Seq<BacklinkLine>,
    hidden: nat,
) -> bool {
    &&& lines.len() <= incoming.len()
    &&& hidden == incoming.len() - lines.len()
    &&& forall|i: int|
        0 <= i < lines.len() ==> (#[trigger] lines[i]).source.id == incoming[i].source_node_id
            && renders_as(incoming[i].source_content@, lines[i].source.rendered_content@)
}

/// The children lines show the first children; `hidden` counts the rest.
pub open spec fn children_listed(
    kids: Seq<StoredNode>,
    children: Seq<ChildContextLine>,
    hidden: nat,
) -> bool {
    &&& children.len() <= kids.len()
    &&& hidden == kids.len() - children.len()
    &&& forall|i: int| 0 <= i < children.len() ==> shows((#[trigger] children[i]).node, kids[i])
}

/// `v` is the context of `node` drawn from these candidates, incoming links
/// and children; no sibling left out would fit beside it within `limit`.
pub open spec fn context_of(
    v: ReadContextView,
    is_daily: bool,
    node: StoredNode,
    prevs: Seq<StoredNode>,
    nexts: Seq<StoredNode>,
    incoming: Seq<IncomingLinkRecord>,
    kids: Seq<StoredNode>,
    limit: nat,
) -> bool {
    &&& shows(v.current, node)
    &&& sibling_candidates(node, is_daily, prevs, nexts)
    &&& picked_from(v.prev_siblings@, prevs, false, context_cost(v), limit)
    &&& v.prev_siblings@.len() <= prevs.len()
    &&& v.prev_hidden_count == prevs.len() - v.prev_siblings@.len()
    &&& picked_from(v.next_siblings@, nexts, true, context_cost(v), limit)
    &&& v.next_siblings@.len() <= nexts.len()
    &&& v.next_hidden_count == nexts.len() - v.next_siblings@.len()
    &&& backlinks_listed(incoming, v.backlinks@, v.hidden_backlink_count as nat)
    &&& children_listed(kids, v.children@, v.hidden_child_count as nat)
}

proof fn lemma_picked_from_monotone(
    lines: Seq<NodeLine>,
    nodes: Seq<StoredNode>,
    ascending: bool,
    used: nat,
    more: nat,
    limit: nat,
)
    requires
        picked_from(lines, nodes, ascending, used, limit),
        used <= more,
    ensures
        picked_from(lines, nodes, ascending, more, limit),
{
    let idx = choose|idx: Seq<int>|
        #[trigger] picks(idx, lines, nodes, ascending) && left_out_wont_fit(idx, nodes, used, limit);
    assert forall|i: int| 0 <= i < nodes.len() && !idx.contains(i) implies exists|out: Seq<char>|
        #[trigger] renders_as(nodes[i].content@, out) && more + line_cost(out) > limit by {
        let out = choose|out: Seq<char>|
            #[trigger] renders_as(nodes[i].content@, out) && used + line_cost(out) > limit;
        assert(renders_as(nodes[i].content@, out));
    }
    assert(picks(idx, lines, nodes, ascending) && left_out_wont_fit(idx, nodes, more, limit));
}

/// A read context of the stored node `node_id` that keeps to the soft limit
/// of `budget` whenever it shows more than the node itself.
pub open spec fn context_read<R: ReadRepository>(
    repository: &R,
    v: ReadContextView,
    node_id: NodeId,
    budget: usize,
) -> bool {
    &&& v.current.id == node_id
    &&& exists|
        node: StoredNode,
        prevs: Seq<StoredNode>,
        nexts: Seq<StoredNode>,
        incoming: Seq<IncomingLinkRecord>,
        kids: Seq<StoredNode>,
    |
        {
            &&& #[trigger] context_of(
                v,
                repository.spec_is_daily_note(node_id),
                node,
                prevs,
                nexts,
                incoming,
                kids,
                soft_limit_of(budget),
            )
            &&& repository.spec_node(node_id) == Some(node)
            &&& stored_nodes(repository, prevs)
            &&& stored_nodes(repository, nexts)
            &&& child_chain(repository, Some(node_id), kids)
            &&& incoming == repository.spec_incoming(node_id)
            &&& repository.spec_is_daily_note(node_id) ==> exists|p: int|
                #[trigger] daily_neighbors(repository.spec_daily_notes(), p, node_id, prevs, nexts)
            &&& v.backlinks@.len() < incoming.len() ==> exists|out: Seq<char>|
                #[trigger] renders_as(incoming[v.backlinks@.len() as int].source_content@, out)
                    && context_cost(v) + line_cost(out) > soft_limit_of(budget)
            &&& v.children@.len() < kids.len() ==> exists|out: Seq<char>|
                #[trigger] renders_as(kids[v.children@.len() as int].content@, out)
                    && context_cost(v) + line_cost(out) > soft_limit_of(budget)
        }
    &&& forall|i: int|
        0 <= i < v.children@.len() ==> backlinks_listed(
            repository.spec_incoming((#[trigger] v.children@[i]).node.id),
            v.children@[i].backlinks@,
            v.children@[i].hidden_backlink_count as nat,
        )
    &&& context_extends(v) ==> context_cost(v) <= soft_limit_of(budget)
}

proof fn lemma_costs_positive(lines: Seq<NodeLine>, bls: Seq<BacklinkLine>, kids: Seq<ChildContextLine>)
    ensures
        lines.len() > 0 ==> lines_cost(lines) >= 16,
        bls.len() > 0 ==> backlinks_cost(bls) >= 16,
        kids.len() > 0 ==> children_cost(kids) >= 16,
{
    assert(backlink_sources(bls).len() == bls.len());
}

/// Reads a node with its sibling, backlink and child context, within a
/// token budget: siblings first, nearest first and alternating sides, then
/// backlinks, then children each with their backlinks, as long as the soft
/// limit (the budget and 300 more) holds.
pub fn read_node_context<R: ReadRepository>(
    repository: &R,
    node_id: NodeId,
    budget_target: usize,
) -> (r: KernelResult<ReadContextView>)
    ensures
        r matches Ok(v) ==> context_read(repository, v, node_id, budget_target),
        repository.spec_node(node_id) is None ==> missing_node(r, node_id),
{
    let node = match repository.get_node(node_id) {
        Ok(Some(n)) => n,
        Ok(None) => {
            return Err(KernelError::NotFound { entity: "node", id: node_id });
        },
        Err(e) => {
            return Err(e);
        },
    };
    let current = match render_node_line(repository, &node) {
        Ok(l) => l,
        Err(e) => {
            return Err(e);
        },
    };
    let current_tokens = estimate_tokens(current.rendered_content.as_str()).saturating_add(8);
    let soft_limit = budget_target.saturating_add(300);
    let is_daily = match repository.is_daily_note_node(node_id) {
        Ok(b) => b,
        Err(e) => {
            return Err(e);
        },
    };
    let (prev_candidates, next_candidates) = if is_daily {
        match daily_note_neighbors(repository, node_id) {
            Ok(pair) => pair,
            Err(e) => {
                return Err(e);
            },
        }
    } else if node.parent_id.is_some() {
        let prev = match collect_previous_siblings(repository, &node) {
            Ok(v) => v,
            Err(e) => {
                return Err(e);
            },
        };
        let next = match collect_next_siblings(repository, &node) {
            Ok(v) => v,
            Err(e) => {
                return Err(e);
            },
        };
        (prev, next)
    } else {
        (Vec::new(), Vec::new())
    };
    let ghost prevs = prev_candidates@;
    let ghost nexts = next_candidates@;
    assert(sibling_candidates(node, is_daily, prevs, nexts));
    let sel = match choose_siblings(
        repository,
        prev_candidates,
        next_candidates,
        current_tokens,
        soft_limit,
    ) {
        Ok(s) => s,
        Err(e) => {
            return Err(e);
        },
    };
    let ghost sel_used = sel.used_tokens as nat;
    assert(current_tokens <= line_cost(current.rendered_content@));
    let incoming_links = match repository.list_incoming_links(node_id) {
        Ok(l) => l,
        Err(e) => {
            return Err(e);
        },
    };
    let (backlinks, hidden_backlink_count, used_after_backlinks) = match choose_backlinks(
        repository,
        &incoming_links,
        sel.used_tokens,
        soft_limit,
    ) {
        Ok(t) => t,
        Err(e) => {
            return Err(e);
        },
    };
    let child_nodes = match repository.list_children(Some(node_id)) {
        Ok(c) => c,
        Err(e) => {
            return Err(e);
        },
    };
    let (children, hidden_child_count, used_after_children) = match choose_children(
        repository,
        &child_nodes,
        used_after_backlinks,
        soft_limit,
    ) {
        Ok(t) => t,
        Err(e) => {
            return Err(e);
        },
    };
    let view = ReadContextView {
        prev_hidden_count: sel.prev_hidden_count,
        prev_siblings: sel.prev_siblings,
        current,
        backlinks,
        hidden_backlink_count,
        children,
        hidden_child_count,
        next_siblings: sel.next_siblings,
        next_hidden_count: sel.next_hidden_count,
    };
    proof {
        lemma_costs_positive(view.prev_siblings@, view.backlinks@, view.children@);
        lemma_costs_positive(view.next_siblings@, view.backlinks@, view.children@);
        assert(context_cost(view) >= sel_used);
        lemma_picked_from_monotone(
            view.prev_siblings@,
            prevs,
            false,
            sel_used,
            context_cost(view),
            soft_limit as nat,
        );
        lemma_picked_from_monotone(
            view.next_siblings@,
            nexts,
            true,
            sel_used,
            context_cost(view),
            soft_limit as nat,
        );
        assert(soft_limit as nat == soft_limit_of(budget_target));
        assert(context_cost(view) >= used_after_backlinks);
        assert(context_cost(view) >= used_after_children);
        if view.backlinks@.len() < incoming_links@.len() {
            let out = choose|out: Seq<char>|
                #[trigger] renders_as(incoming_links@[view.backlinks@.len() as int].source_content@, out)
                    && used_after_backlinks + line_cost(out) > soft_limit;
            assert(renders_as(incoming_links@[view.backlinks@.len() as int].source_content@, out));
        }
        if view.children@.len() < child_nodes@.len() {
            let out = choose|out: Seq<char>|
                #[trigger] renders_as(child_nodes@[view.children@.len() as int].content@, out)
                    && used_after_children + line_cost(out) > soft_limit;
            assert(renders_as(child_nodes@[view.children@.len() as int].content@, out));
        }
        assert(context_of(
            view,
            is_daily,
            node,
            prevs,
            nexts,
            incoming_links@,
            child_nodes@,
            soft_limit_of(budget_target),
        ));
        if context_extends(view) {
            assert(used_after_children <= soft_limit);
            assert(context_cost(view) == used_after_children);
        }
        assert(context_read(repository, view, node_id, budget_target));
    }
    Ok(view)
}

/// Reads a node id given on the command line.
pub fn parse_node_id(value: i64) -> (r: KernelResult<NodeId>)
    ensures
        value > 0 ==> (r matches Ok(id) && id@ == value),
        value <= 0 ==> fails_with(r, Failure::Input),
{
    match NodeId::new(value) {
        Ok(id) => Ok(id),
        Err(e) => Err(KernelError::Input(e.message())),
    }
}

} // verus!

//! Write use cases: input validation and write-side invariants checked
//! before the storage backend is asked to persist anything.
use vstd::prelude::*;
use crate::text::{
    chars_to_string, contains, contains_exec, find_from, find_from_exec, slice_chars, to_chars,
    trim, trim_chars,
};
use crate::domain::{
    clone_ids, contains_id, fails_with, id_values, lookup_key_of, message_with_id, valid_content_line,
    AliasText, ContentLine, DailyNoteRecord, DeleteMode, Failure, IncomingLinkRecord,
    KernelError, KernelResult, LookupCandidate, LookupKey, NodeId, NodeUpdateRecord, Placement,
    StoredNode,
};
use crate::links::{
    ensure_no_link_cycle, lemma_cycle_free_extends, lemma_first_hit, lemma_no_new_cycles, link_graph,
    on_cycle,
    overlay_graph, reaches, };
use crate::repository::{
    alias_has_key, alias_texts, below, line_texts, lines_bound_in_batch, placed_chain, has_candidate, top_level_order, child_chain, placement_parent, read_failure, refused_as, same_store,
    updated_links, updated_node,
};
use crate::canonical::{
    canonical_text, canonicalize_content, ids_fit, lookups_bound, uniquely_answered,
};
use crate::syntax::{
    close_delim, has_link, links_of, open_delim, parse_chars, parse_spec, ContentFragment,
    FragmentSpec, LinkSpec,
};
use crate::repository::{ReadRepository, WriteRepository};

verus! {

// ---------------------------------------------------------------------------
// Lines of multi-line input
// ---------------------------------------------------------------------------

pub open spec fn strip_cr(t: Seq<char>) -> Seq<char> {
    if t.len() > 0 && t.last() == '\r' {
        t.drop_last()
    } else {
        t
    }
}

/// The lines of `s` from position `i` on, as `str::lines` yields them:
/// split at `\n`, a `\r` right before a `\n` dropped, no empty line after a
/// final `\n`.
pub open spec fn lines_from(s: Seq<char>, i: int) -> Seq<Seq<char>>
    decreases s.len() - i,
{
    if i < 0 || i >= s.len() {
        seq![]
    } else {
        match find_from(s, seq!['\n'], i) {
            None => seq![s.subrange(i, s.len() as int)],
            Some(j) => {
                proof {
                    crate::syntax::lemma_find_from_bounds(s, seq!['\n'], i);
                }
                seq![strip_cr(s.subrange(i, j))] + lines_from(s, j + 1)
            },
        }
    }
}

pub open spec fn split_lines(s: Seq<char>) -> Seq<Seq<char>> {
    lines_from(s, 0)
}

/// Computes `split_lines`.
pub fn split_lines_exec(s: &Vec<char>) -> (r: Vec<Vec<char>>)
    ensures
        r@.len() == split_lines(s@).len(),
        forall|n: int| 0 <= n < r@.len() ==> #[trigger] r@[n]@ == split_lines(s@)[n],
{
    let mut out: Vec<Vec<char>> = Vec::new();
    let mut i: usize = 0;
    let nl = vec!['\n'];
    let ghost mut done: Seq<Seq<char>> = seq![];
    while i < s.len()
        invariant
            i <= s.len(),
            nl@ == seq!['\n'],
            out@.len() == done.len(),
            forall|n: int| 0 <= n < out@.len() ==> #[trigger] out@[n]@ == done[n],
            done + lines_from(s@, i as int) == split_lines(s@),
        decreases s.len() - i,
    {
        match find_from_exec(s.as_slice(), nl.as_slice(), i) {
            None => {
                let piece = slice_chars(s, i, s.len());
                proof {
                    assert(lines_from(s@, i as int) == seq![s@.subrange(i as int, s@.len() as int)]);
                    done = done.push(piece@);
                    assert(done =~= split_lines(s@));
                }
                out.push(piece);
                i = s.len();
            },
            Some(j) => {
                proof {
                    crate::syntax::lemma_find_from_bounds(s@, seq!['\n'], i as int);
                }
                let mut piece = slice_chars(s, i, j);
                if piece.len() > 0 && piece[piece.len() - 1] == '\r' {
                    piece.pop();
                }
                proof {
                    assert(piece@ =~= strip_cr(s@.subrange(i as int, j as int)));
                    let old_done = done;
                    done = done.push(piece@);
                    assert(old_done + lines_from(s@, i as int) =~= done + lines_from(
                        s@,
                        j + 1,
                    ));
                }
                out.push(piece);
                i = j + 1;
            },
        }
    }
    proof {
        assert(done + lines_from(s@, i as int) =~= done);
    }
    out
}

// ---------------------------------------------------------------------------
// Checks on root text
// ---------------------------------------------------------------------------

/// Why text cannot name a root node, if it cannot: it must parse, hold no
/// link, no raw `{{` or `}}`, and be usable as a lookup key.
pub open spec fn root_text_failure(t: Seq<char>) -> Option<Failure> {
    match parse_spec(t) {
        Err(_) => Some(Failure::Storage),
        Ok(fs) => if has_link(fs) {
            Some(Failure::Input)
        } else if contains(t, open_delim()) || contains(t, close_delim()) {
            Some(Failure::Input)
        } else if lookup_key_of(t) is Err {
            Some(Failure::Input)
        } else {
            None
        },
    }
}

/// Trims root text and checks it is valid single-line content.
pub fn normalize_root_content(raw_content: &str) -> (r: KernelResult<ContentLine>)
    ensures
        valid_content_line(trim(raw_content@)) ==> (r matches Ok(c) && c@ == trim(
            raw_content@,
        )),
        !valid_content_line(trim(raw_content@)) ==> fails_with(r, Failure::Input),
{
    let chars = to_chars(raw_content);
    let t = trim_chars(&chars);
    let s = chars_to_string(t.as_slice());
    match ContentLine::parse(s.as_str()) {
        Ok(c) => Ok(c),
        Err(e) => Err(KernelError::Input(e.message())),
    }
}

/// Root content may not hold links.
pub fn ensure_plain_text_root(content: &ContentLine) -> (r: KernelResult<()>)
    ensures
        match parse_spec(content@) {
            Err(_) => fails_with(r, Failure::Storage),
            Ok(fs) => if has_link(fs) {
                fails_with(r, Failure::Input)
            } else {
                r is Ok
            },
        },
{
    let chars = content.chars();
    let fragments = match parse_chars(&chars) {
        Ok(f) => f,
        Err(e) => {
            return Err(KernelError::Storage(e.message()));
        },
    };
    let ghost fs = crate::syntax::fragment_views(fragments@);
    let mut k: usize = 0;
    while k < fragments.len()
        invariant
            k <= fragments.len(),
            fs == crate::syntax::fragment_views(fragments@),
            chars@ == content@,
            parse_spec(chars@) == Ok::<Seq<FragmentSpec>, crate::syntax::LinkSyntaxError>(fs),
            forall|n: int| 0 <= n < k ==> !(#[trigger] fs[n] is Link),
        decreases fragments.len() - k,
    {
        if let ContentFragment::Link(_) = &fragments[k] {
            assert(fs[k as int] is Link);
            return Err(KernelError::Input("root content cannot contain links".to_owned()));
        }
        k = k + 1;
    }
    Ok(())
}

/// Root text may not hold raw link delimiters.
pub fn ensure_safe_root_label_text(text: &str) -> (r: KernelResult<()>)
    ensures
        (contains(text@, open_delim()) || contains(text@, close_delim())) ==> fails_with(
            r,
            Failure::Input,
        ),
        !(contains(text@, open_delim()) || contains(text@, close_delim())) ==> r is Ok,
{
    let chars = to_chars(text);
    let open = vec!['{', '{'];
    let close = vec!['}', '}'];
    if contains_exec(chars.as_slice(), open.as_slice()) || contains_exec(
        chars.as_slice(),
        close.as_slice(),
    ) {
        return Err(KernelError::Input("root text cannot contain raw link delimiters".to_owned()));
    }
    Ok(())
}

/// Root text must be usable as a lookup key.
pub fn ensure_referenceable_root_text(content: &ContentLine) -> (r: KernelResult<()>)
    ensures
        lookup_key_of(content@) is Err ==> fails_with(r, Failure::Input),
        lookup_key_of(content@) is Ok ==> r is Ok,
{
    match LookupKey::new(content.as_str()) {
        Ok(_) => Ok(()),
        Err(e) => Err(KernelError::Input(e.message())),
    }
}

/// Runs the three root checks in order.
pub fn check_root_text(content: &ContentLine) -> (r: KernelResult<()>)
    ensures
        match root_text_failure(content@) {
            Some(k) => fails_with(r, k),
            None => r is Ok,
        },
{
    match ensure_plain_text_root(content) {
        Ok(()) => {},
        Err(e) => {
            return Err(e);
        },
    }
    match ensure_safe_root_label_text(content.as_str()) {
        Ok(()) => {},
        Err(e) => {
            return Err(e);
        },
    }
    ensure_referenceable_root_text(content)
}

// ---------------------------------------------------------------------------
// Creating nodes
// ---------------------------------------------------------------------------

/// Why one input line is refused, if it is: top-level lines are trimmed and
/// must name a root; other lines must be valid content.
pub open spec fn line_failure(line: Seq<char>, top_level: bool) -> Option<Failure> {
    if top_level {
        if !valid_content_line(trim(line)) {
            Some(Failure::Input)
        } else {
            root_text_failure(trim(line))
        }
    } else if valid_content_line(line) {
        None
    } else {
        Some(Failure::Input)
    }
}

/// The refusal of the first refused line.
pub open spec fn first_line_failure(lines: Seq<Seq<char>>, top_level: bool) -> Option<Failure>
    decreases lines.len(),
{
    if lines.len() == 0 {
        None
    } else {
        match line_failure(lines[0], top_level) {
            Some(k) => Some(k),
            None => first_line_failure(lines.drop_first(), top_level),
        }
    }
}

pub open spec fn all_aliases_valid(values: Seq<String>) -> bool {
    forall|n: int| 0 <= n < values.len() ==> valid_content_line(#[trigger] values[n]@)
}

/// Validates one input line.
pub fn check_line(line: &Vec<char>, top_level: bool) -> (r: KernelResult<ContentLine>)
    ensures
        match line_failure(line@, top_level) {
            Some(k) => fails_with(r, k),
            None => r matches Ok(c) && c@ == (if top_level {
                trim(line@)
            } else {
                line@
            }),
        },
{
    let s = chars_to_string(line.as_slice());
    if top_level {
        let content = match normalize_root_content(s.as_str()) {
            Ok(c) => c,
            Err(e) => {
                return Err(e);
            },
        };
        match check_root_text(&content) {
            Ok(()) => Ok(content),
            Err(e) => Err(e),
        }
    } else {
        match ContentLine::parse(s.as_str()) {
            Ok(c) => Ok(c),
            Err(e) => Err(KernelError::Input(e.message())),
        }
    }
}

/// The texts of some strings.
pub open spec fn string_texts(values: Seq<String>) -> Seq<Seq<char>> {
    values.map_values(|v: String| v@)
}

/// Validates alias input.
pub fn parse_aliases(values: &[String]) -> (r: KernelResult<Vec<AliasText>>)
    ensures
        all_aliases_valid(values@) ==> (r matches Ok(a) && a@.len() == values@.len() && forall|
            n: int,
        |
            0 <= n < a@.len() ==> #[trigger] a@[n]@ == values@[n]@),
        !all_aliases_valid(values@) ==> fails_with(r, Failure::Input),
{
    let mut out: Vec<AliasText> = Vec::new();
    let mut k: usize = 0;
    while k < values.len()
        invariant
            k <= values.len(),
            out@.len() == k,
            forall|n: int| 0 <= n < k ==> valid_content_line(#[trigger] values@[n]@),
            forall|n: int| 0 <= n < k ==> #[trigger] out@[n]@ == values@[n]@,
        decreases values.len() - k,
    {
        match AliasText::new(values[k].as_str()) {
            Ok(a) => {
                out.push(a);
            },
            Err(e) => {
                return Err(KernelError::Input(e.message()));
            },
        }
        k = k + 1;
    }
    Ok(out)
}

/// The text a line is stored from: trimmed when it makes a root.
pub open spec fn line_text(line: Seq<char>, top_level: bool) -> Seq<char> {
    if top_level {
        trim(line)
    } else {
        line
    }
}

/// Create input that is accepted: every line valid, at least one line, and
/// aliases only with a single line, each valid.
pub open spec fn create_input_ok(lines: Seq<Seq<char>>, alias_values: Seq<String>, top_level: bool) -> bool {
    &&& first_line_failure(lines, top_level) is None
    &&& lines.len() >= 1
    &&& !(lines.len() > 1 && alias_values.len() > 0)
    &&& all_aliases_valid(alias_values)
}

/// Validates user create input and prepares what the store is asked to
/// create: the placement, one content line per input line, and the aliases.
///
/// The input is split into lines; each line is validated (top-level
/// placements make root nodes, so their lines are trimmed and checked as
/// root text). There must be at least one line, and aliases only go with a
/// single line.
pub fn prepare_create(raw_input: &str, alias_values: &[String], placement: Placement) -> (r:
    KernelResult<(Placement, Vec<ContentLine>, Vec<AliasText>)>)
    ensures
        ({
            let lines = split_lines(raw_input@);
            let top = placement is TopLevelFirst || placement is TopLevelLast;
            &&& (first_line_failure(lines, top) matches Some(k) ==> fails_with(r, k))
            &&& (first_line_failure(lines, top) is None && lines.len() == 0 ==> fails_with(
                r,
                Failure::Input,
            ))
            &&& (first_line_failure(lines, top) is None && lines.len() > 1 && alias_values@.len()
                > 0 ==> fails_with(r, Failure::Input))
            &&& (first_line_failure(lines, top) is None && lines.len() >= 1 && !(lines.len() > 1
                && alias_values@.len() > 0) && !all_aliases_valid(alias_values@) ==> fails_with(
                r,
                Failure::Input,
            ))
            &&& (r is Ok <==> create_input_ok(lines, alias_values@, top))
            &&& (r matches Ok(t) ==> {
                &&& t.0 == placement
                &&& t.1@.len() == lines.len()
                &&& forall|k: int| 0 <= k < lines.len() ==> (#[trigger] t.1@[k])@ == line_text(lines[k], top)
                &&& alias_texts(t.2@) == string_texts(alias_values@)
            })
        }),
{
    let top = placement.is_top_level();
    let chars = to_chars(raw_input);
    let pieces = split_lines_exec(&chars);
    let ghost ls = split_lines(raw_input@);
    let mut lines: Vec<ContentLine> = Vec::new();
    let mut m: usize = 0;
    assert(ls.skip(0) =~= ls);
    while m < pieces.len()
        invariant
            m <= pieces.len() == ls.len(),
            chars@ == raw_input@,
            ls == split_lines(chars@),
            top == (placement is TopLevelFirst || placement is TopLevelLast),
            forall|n: int| 0 <= n < pieces@.len() ==> #[trigger] pieces@[n]@ == ls[n],
            first_line_failure(ls, top) == first_line_failure(ls.skip(m as int), top),
            lines@.len() == m,
            forall|n: int| 0 <= n < m ==> (#[trigger] lines@[n])@ == line_text(ls[n], top),
        decreases pieces.len() - m,
    {
        assert(ls.skip(m as int).drop_first() =~= ls.skip(m + 1));
        assert(ls.skip(m as int)[0] == ls[m as int]);
        match check_line(&pieces[m], top) {
            Ok(c) => {
                lines.push(c);
            },
            Err(e) => {
                proof {
                    let rest = ls.skip(m as int);
                    assert(rest[0] == ls[m as int]);
                    assert(first_line_failure(rest, top) == line_failure(ls[m as int], top));
                }
                return Err(e);
            },
        }
        m = m + 1;
    }
    assert(ls.skip(m as int) =~= Seq::<Seq<char>>::empty());
    if lines.len() == 0 {
        return Err(KernelError::Input("create input must contain at least one line".to_owned()));
    }
    if lines.len() > 1 && alias_values.len() > 0 {
        return Err(
            KernelError::Input("aliases can only be provided when creating a single node".to_owned()),
        );
    }
    let aliases = match parse_aliases(alias_values) {
        Ok(a) => a,
        Err(e) => {
            return Err(e);
        },
    };
    assert(alias_texts(aliases@) =~= string_texts(alias_values@));
    Ok((placement, lines, aliases))
}

/// Validates user create input and has the store create the nodes: one per
/// line, under the placement's parent as one sibling chain in line order,
/// each holding the canonical form of its line, the first with the aliases.
/// A refused or failed create leaves the store as it was.
pub fn create_nodes<R: WriteRepository>(
    repository: &mut R,
    raw_input: &str,
    alias_values: &[String],
    placement: Placement,
) -> (r: KernelResult<Vec<NodeId>>)
    ensures
        ({
            let lines = split_lines(raw_input@);
            let top = placement is TopLevelFirst || placement is TopLevelLast;
            &&& (first_line_failure(lines, top) matches Some(k) ==> fails_with(r, k))
            &&& (first_line_failure(lines, top) is None && lines.len() == 0 ==> fails_with(
                r,
                Failure::Input,
            ))
            &&& (first_line_failure(lines, top) is None && lines.len() > 1 && alias_values@.len()
                > 0 ==> fails_with(r, Failure::Input))
            &&& (first_line_failure(lines, top) is None && lines.len() >= 1 && !(lines.len() > 1
                && alias_values@.len() > 0) && !all_aliases_valid(alias_values@) ==> fails_with(
                r,
                Failure::Input,
            ))
            &&& (!create_input_ok(lines, alias_values@, top) ==> *final(repository) == *old(repository))
            &&& (r is Err ==> same_store(final(repository), old(repository)))
            &&& (r matches Ok(ids) ==> {
                &&& create_input_ok(lines, alias_values@, top)
                &&& ids@.len() == lines.len()
                &&& forall|k: int|
                    0 <= k < ids@.len() ==> {
                        &&& old(repository).spec_node(#[trigger] ids@[k]) is None
                        &&& final(repository).spec_node(ids@[k]) matches Some(n)
                        &&& n.parent_id == placement_parent(old(repository), placement)
                        &&& canonical_update(
                            line_text(lines[k], top),
                            false,
                            n.content@,
                            final(repository).spec_outgoing(ids@[k]),
                        )
                    }
                &&& forall|t: Seq<char>|
                    string_texts(alias_values@).contains(t) ==> alias_texts(
                        final(repository).spec_aliases(ids@[0]),
                    ).contains(t)
                &&& placed_chain(old(repository), final(repository), placement, ids@)
                &&& lines_bound_in_batch(
                    old(repository),
                    final(repository),
                    lines.map_values(|line: Seq<char>| line_text(line, top)),
                    ids@,
                    string_texts(alias_values@),
                )
            })
        }),
{
    let (target, lines, aliases) = match prepare_create(raw_input, alias_values, placement) {
        Ok(t) => t,
        Err(e) => {
            return Err(e);
        },
    };
    let ghost ls = split_lines(raw_input@);
    let ghost top = placement is TopLevelFirst || placement is TopLevelLast;
    let r = repository.create_nodes_from_lines(target, lines.as_slice(), aliases.as_slice());
    proof {
        if r is Ok {
            assert forall|k: int| 0 <= k < lines@.len() implies lines@[k]@ == line_text(ls[k], top) by {
                assert((lines@[k])@ == line_text(ls[k], top));
            }
            assert(line_texts(lines@) =~= ls.map_values(|line: Seq<char>| line_text(line, top)));
            assert(alias_texts(aliases@) == string_texts(alias_values@));
        }
    }
    r
}

/// Initializes the target repository schema: afterwards the schema is in
/// place; a store that had it is left as it was, and a failed init changes
/// nothing.
pub fn init<R: WriteRepository>(repository: &mut R) -> (r: KernelResult<()>)
    ensures
        r is Err ==> same_store(final(repository), old(repository)),
        r is Ok ==> final(repository).spec_initialized(),
        r is Ok && old(repository).spec_initialized() ==> same_store(final(repository), old(repository)),
{
    repository.init_schema()
}

/// Builds a normalized lookup key from raw user input.
pub fn create_lookup_key(raw_value: &str) -> (r: KernelResult<LookupKey>)
    ensures
        match lookup_key_of(raw_value@) {
            Ok(t) => r matches Ok(k) && k@ == t,
            Err(_) => fails_with(r, Failure::Input),
        },
{
    match LookupKey::new(raw_value) {
        Ok(k) => Ok(k),
        Err(e) => Err(KernelError::Input(e.message())),
    }
}

// ---------------------------------------------------------------------------
// Moves, deletes and aliases
// ---------------------------------------------------------------------------

/// Moves a node; daily note nodes never move and root nodes stay at the
/// top level (a root may only be placed relative to another root).
pub fn move_node<R: WriteRepository>(
    repository: &mut R,
    node_id: NodeId,
    placement: Placement,
) -> (r: KernelResult<()>)
    ensures
        old(repository).spec_is_daily_note(node_id) ==> r is Err && *final(repository) == *old(repository),
        (old(repository).spec_is_root(node_id) && !(placement is TopLevelFirst
            || placement is TopLevelLast) && !old(repository).spec_is_root(
            placement.spec_target_id()->0,
        )) ==> r is Err && *final(repository) == *old(repository),
        old(repository).spec_is_daily_note(node_id) ==> refused_as(r, Failure::Constraint),
        (old(repository).spec_is_root(node_id) && !(placement is TopLevelFirst
            || placement is TopLevelLast) && !old(repository).spec_is_root(
            placement.spec_target_id()->0,
        )) ==> refused_as(r, Failure::Constraint),
        r is Err ==> same_store(final(repository), old(repository)),
        r is Ok ==> (final(repository).spec_node(node_id) matches Some(n) && n.parent_id
            == placement_parent(old(repository), placement)),
        r is Ok && placement is FirstChildOf ==> (final(repository).spec_node(node_id) matches Some(
            n,
        ) && n.prev_sibling_id is None),
        r is Ok && placement is LastChildOf ==> (final(repository).spec_node(node_id) matches Some(
            n,
        ) && n.next_sibling_id is None),
        r is Ok ==> match placement {
            Placement::Before(t) => (old(repository).spec_node(t) matches Some(tn) && tn.parent_id is Some)
                ==> (final(repository).spec_node(node_id) matches Some(n) && n.next_sibling_id == Some(t)),
            Placement::After(t) => (old(repository).spec_node(t) matches Some(tn) && tn.parent_id is Some)
                ==> (final(repository).spec_node(node_id) matches Some(n) && n.prev_sibling_id == Some(t)),
            _ => true,
        },
        r is Ok ==> forall|x: NodeId|
            (#[trigger] final(repository).spec_node(x) is Some) == (old(repository).spec_node(x) is Some),
{
    match repository.is_daily_note_node(node_id) {
        Ok(true) => {
            return Err(KernelError::Constraint("daily note date nodes are immutable".to_owned()));
        },
        Ok(false) => {},
        Err(e) => {
            return Err(e);
        },
    }
    let is_root = match repository.is_root_node(node_id) {
        Ok(b) => b,
        Err(e) => {
            return Err(e);
        },
    };
    if is_root && !placement.is_top_level() {
        let target_is_root = match placement.target_id() {
            Some(target_id) => match repository.is_root_node(target_id) {
                Ok(b) => b,
                Err(e) => {
                    return Err(e);
                },
            },
            None => false,
        };
        if !target_is_root {
            return Err(
                KernelError::Constraint("root nodes must remain at the top level".to_owned()),
            );
        }
    }
    repository.move_node(node_id, placement)
}

/// Deletes a node unless it is a daily note node; a cascade takes its whole
/// subtree with it.
pub fn delete_node<R: WriteRepository>(
    repository: &mut R,
    node_id: NodeId,
    mode: DeleteMode,
) -> (r: KernelResult<()>)
    ensures
        old(repository).spec_is_daily_note(node_id) ==> r is Err && *final(repository) == *old(repository),
        r is Err ==> same_store(final(repository), old(repository)),
        r is Ok ==> final(repository).spec_node(node_id) is None,
        old(repository).spec_is_daily_note(node_id) ==> refused_as(r, Failure::Constraint),
        r is Ok && mode is Cascade ==> forall|x: NodeId|
            #[trigger] below(old(repository), x, node_id) ==> final(repository).spec_node(x) is None,
        r is Ok ==> match mode {
            DeleteMode::Reparent(p) => forall|x: NodeId|
                (#[trigger] old(repository).spec_node(x) matches Some(n) && n.parent_id == Some(
                    node_id,
                )) ==> (final(repository).spec_node(x) matches Some(m) && m.parent_id
                    == placement_parent(old(repository), p)),
            DeleteMode::Cascade => true,
        },
{
    match repository.is_daily_note_node(node_id) {
        Ok(true) => {
            return Err(KernelError::Constraint("daily note date nodes are immutable".to_owned()));
        },
        Ok(false) => {},
        Err(e) => {
            return Err(e);
        },
    }
    repository.delete_node(node_id, mode)
}

/// Validates alias input and adds aliases to one node.
pub fn add_aliases<R: WriteRepository>(
    repository: &mut R,
    node_id: NodeId,
    raw_aliases: &[String],
) -> (r: KernelResult<()>)
    ensures
        old(repository).spec_is_daily_note(node_id) ==> r is Err && *final(repository) == *old(repository),
        r is Ok ==> raw_aliases@.len() > 0 && all_aliases_valid(raw_aliases@),
        !(raw_aliases@.len() > 0 && all_aliases_valid(raw_aliases@)) ==> *final(repository)
            == *old(repository),
        old(repository).spec_is_daily_note(node_id) ==> refused_as(r, Failure::Constraint),
        !old(repository).spec_is_daily_note(node_id) && !(raw_aliases@.len() > 0
            && all_aliases_valid(raw_aliases@)) ==> refused_as(r, Failure::Input),
        r is Err ==> same_store(final(repository), old(repository)),
        r is Ok ==> forall|t: Seq<char>|
            #[trigger] alias_texts(final(repository).spec_aliases(node_id)).contains(t) <==> (
            alias_texts(old(repository).spec_aliases(node_id)).contains(t) || string_texts(
                raw_aliases@,
            ).contains(t)),
{
    match repository.is_daily_note_node(node_id) {
        Ok(true) => {
            return Err(
                KernelError::Constraint("daily note date nodes cannot have aliases".to_owned()),
            );
        },
        Ok(false) => {},
        Err(e) => {
            return Err(e);
        },
    }
    if raw_aliases.len() == 0 {
        return Err(KernelError::Input("alias add requires at least one alias".to_owned()));
    }
    let aliases = match parse_aliases(raw_aliases) {
        Ok(a) => a,
        Err(e) => {
            return Err(e);
        },
    };
    assert(alias_texts(aliases@) =~= string_texts(raw_aliases@));
    repository.add_aliases(node_id, aliases.as_slice())
}

/// Validates alias input and removes one alias from one node.
pub fn remove_alias<R: WriteRepository>(
    repository: &mut R,
    node_id: NodeId,
    raw_alias: &str,
) -> (r: KernelResult<()>)
    ensures
        old(repository).spec_is_daily_note(node_id) ==> r is Err && *final(repository) == *old(repository),
        r is Ok ==> valid_content_line(raw_alias@),
        !valid_content_line(raw_alias@) ==> *final(repository) == *old(repository),
        old(repository).spec_is_daily_note(node_id) ==> refused_as(r, Failure::Constraint),
        !old(repository).spec_is_daily_note(node_id) && !valid_content_line(raw_alias@)
            ==> refused_as(r, Failure::Input),
        r is Err ==> same_store(final(repository), old(repository)),
        r is Ok ==> forall|t: Seq<char>|
            #[trigger] alias_texts(final(repository).spec_aliases(node_id)).contains(t) <==> (
            alias_texts(old(repository).spec_aliases(node_id)).contains(t) && lookup_key_of(t)
                != lookup_key_of(raw_alias@)),
{
    match repository.is_daily_note_node(node_id) {
        Ok(true) => {
            return Err(
                KernelError::Constraint("daily note date nodes cannot have aliases".to_owned()),
            );
        },
        Ok(false) => {},
        Err(e) => {
            return Err(e);
        },
    }
    let alias = match AliasText::new(raw_alias) {
        Ok(a) => a,
        Err(e) => {
            return Err(KernelError::Input(e.message()));
        },
    };
    repository.remove_alias(node_id, &alias)
}

// ---------------------------------------------------------------------------
// Updates not yet written
// ---------------------------------------------------------------------------

proof fn lemma_updated_links_take(s: Seq<NodeUpdateRecord>, j: int, id: NodeId, p: Seq<NodeId>)
    requires
        0 <= j <= s.len(),
        forall|k: int| j <= k < s.len() ==> (#[trigger] s[k]).node_id != id,
    ensures
        updated_links(s, id, p) == updated_links(s.take(j), id, p),
    decreases s.len() - j,
{
    if j == s.len() {
        assert(s.take(j) =~= s);
    } else {
        let t = s.drop_last();
        assert forall|k: int| j <= k < t.len() implies (#[trigger] t[k]).node_id != id by {
            assert(t[k] == s[k]);
        }
        lemma_updated_links_take(t, j, id, p);
        assert(t.take(j) =~= s.take(j));
    }
}

proof fn lemma_updated_node_take(
    s: Seq<NodeUpdateRecord>,
    j: int,
    id: NodeId,
    p: Option<StoredNode>,
)
    requires
        0 <= j <= s.len(),
        forall|k: int| j <= k < s.len() ==> (#[trigger] s[k]).node_id != id,
    ensures
        updated_node(s, id, p) == updated_node(s.take(j), id, p),
    decreases s.len() - j,
{
    if j == s.len() {
        assert(s.take(j) =~= s);
    } else {
        let t = s.drop_last();
        assert forall|k: int| j <= k < t.len() implies (#[trigger] t[k]).node_id != id by {
            assert(t[k] == s[k]);
        }
        lemma_updated_node_take(t, j, id, p);
        assert(t.take(j) =~= s.take(j));
    }
}

proof fn lemma_updated_node_keeps(s: Seq<NodeUpdateRecord>, id: NodeId, n: StoredNode)
    ensures
        updated_node(s, id, Some(n)) matches Some(m) && m == (StoredNode { content: m.content, ..n }),
    decreases s.len(),
{
    if s.len() > 0 {
        lemma_updated_node_keeps(s.drop_last(), id, n);
    }
}

proof fn lemma_updated_node_absent(s: Seq<NodeUpdateRecord>, id: NodeId)
    ensures
        updated_node(s, id, None) == None::<StoredNode>,
    decreases s.len(),
{
    if s.len() > 0 {
        lemma_updated_node_absent(s.drop_last(), id);
    }
}

/// Where the update of `id` stands in `pending`, searching from the end.
fn find_pending(pending: &Vec<NodeUpdateRecord>, id: NodeId) -> (r: Option<usize>)
    ensures
        match r {
            Some(i) => i < pending@.len() && pending@[i as int].node_id == id && (forall|
                p: Seq<NodeId>,
            | updated_links(pending@, id, p) == pending@[i as int].outgoing_links@) && (forall|
                n: StoredNode,
            |
                #[trigger] updated_node(pending@, id, Some(n)) == Some(
                    StoredNode { content: pending@[i as int].content, ..n },
                )),
            None => (forall|p: Seq<NodeId>| updated_links(pending@, id, p) == p) && (forall|
                n: Option<StoredNode>,
            | #[trigger] updated_node(pending@, id, n) == n) && (forall|k: int|
                0 <= k < pending@.len() ==> (#[trigger] pending@[k]).node_id != id),
        },
{
    let mut j = pending.len();
    while j > 0
        invariant
            j <= pending@.len(),
            forall|k: int| j <= k < pending@.len() ==> (#[trigger] pending@[k]).node_id != id,
        decreases j,
    {
        if pending[j - 1].node_id.same(&id) {
            proof {
                assert forall|p: Seq<NodeId>| updated_links(pending@, id, p)
                    == pending@[j - 1].outgoing_links@ by {
                    lemma_updated_links_take(pending@, j as int, id, p);
                    assert(pending@.take(j as int).last() == pending@[j - 1]);
                }
                assert forall|n: StoredNode| #[trigger] updated_node(pending@, id, Some(n)) == Some(
                    StoredNode { content: pending@[j - 1].content, ..n },
                ) by {
                    lemma_updated_node_take(pending@, j as int, id, Some(n));
                    assert(pending@.take(j as int).last() == pending@[j - 1]);
                }
            }
            return Some(j - 1);
        }
        j = j - 1;
    }
    proof {
        assert forall|p: Seq<NodeId>| updated_links(pending@, id, p) == p by {
            lemma_updated_links_take(pending@, 0, id, p);
        }
        assert forall|n: Option<StoredNode>| #[trigger] updated_node(pending@, id, n) == n by {
            lemma_updated_node_take(pending@, 0, id, n);
        }
    }
    None
}


/// Orders candidates by node id (stable): the same candidates, sorted.
fn sort_candidates(v: Vec<LookupCandidate>) -> (r: Vec<LookupCandidate>)
    ensures
        r@.len() == v@.len(),
        forall|i: int, j: int|
            0 <= i <= j < r@.len() ==> r@[i].node_id@ <= r@[j].node_id@,
        forall|i: int| 0 <= i < v@.len() ==> r@.contains(#[trigger] v@[i]),
        forall|i: int| 0 <= i < r@.len() ==> v@.contains(#[trigger] r@[i]),
{
    let mut sorted: Vec<LookupCandidate> = Vec::new();
    let mut k: usize = 0;
    while k < v.len()
        invariant
            k <= v.len(),
            sorted@.len() == k,
            forall|i: int, j: int|
                0 <= i <= j < sorted@.len() ==> sorted@[i].node_id@ <= sorted@[j].node_id@,
            forall|i: int| 0 <= i < k ==> sorted@.contains(#[trigger] v@[i]),
            forall|i: int| 0 <= i < sorted@.len() ==> v@.contains(#[trigger] sorted@[i]),
        decreases v.len() - k,
    {
        let item = v[k].clone();
        let key = item.node_id.value();
        let mut pos = sorted.len();
        while pos > 0 && sorted[pos - 1].node_id.value() > key
            invariant
                pos <= sorted@.len(),
                forall|i: int| pos <= i < sorted@.len() ==> sorted@[i].node_id@ > key,
            decreases pos,
        {
            pos = pos - 1;
        }
        let ghost before = sorted@;
        sorted.insert(pos, item);
        proof {
            assert forall|i: int, j: int|
                0 <= i <= j < sorted@.len() implies sorted@[i].node_id@ <= sorted@[j].node_id@ by {
                if i < pos && j < pos {
                    assert(sorted@[i] == before[i] && sorted@[j] == before[j]);
                } else if i < pos && j == pos {
                    assert(sorted@[i] == before[i]);
                    assert(before[pos - 1].node_id@ <= key);
                    assert(before[i].node_id@ <= before[pos - 1].node_id@);
                } else if i < pos {
                    assert(sorted@[i] == before[i] && sorted@[j] == before[j - 1]);
                } else if i == pos && j > pos {
                    assert(sorted@[j] == before[j - 1]);
                } else if i > pos {
                    assert(sorted@[i] == before[i - 1] && sorted@[j] == before[j - 1]);
                }
            }
            assert forall|i: int| 0 <= i < k + 1 implies sorted@.contains(#[trigger] v@[i]) by {
                if i < k {
                    let w = choose|w: int| 0 <= w < before.len() && before[w] == v@[i];
                    if w < pos {
                        assert(sorted@[w] == v@[i]);
                    } else {
                        assert(sorted@[w + 1] == v@[i]);
                    }
                } else {
                    assert(sorted@[pos as int] == v@[i]);
                }
            }
            assert forall|i: int| 0 <= i < sorted@.len() implies v@.contains(#[trigger] sorted@[i]) by {
                if i < pos {
                    assert(sorted@[i] == before[i]);
                    assert(v@.contains(before[i]));
                } else if i == pos {
                    assert(sorted@[i] == v@[k as int]);
                } else {
                    assert(sorted@[i] == before[i - 1]);
                    assert(v@.contains(before[i - 1]));
                }
            }
        }
        k = k + 1;
    }
    sorted
}

/// Node `x` has an update among `pending`.
pub open spec fn has_update(pending: Seq<NodeUpdateRecord>, x: NodeId) -> bool {
    exists|j: int| 0 <= j < pending.len() && (#[trigger] pending[j]).node_id == x
}

/// Some update of node `x` among `pending` has lookup key `key`.
pub open spec fn update_has_key(pending: Seq<NodeUpdateRecord>, x: NodeId, key: Seq<char>) -> bool {
    exists|j: int|
        0 <= j < pending.len() && (#[trigger] pending[j]).node_id == x && pending[j].lookup_key@ == key
}

/// Each pending update as its node and the lookup key it gives the node.
pub open spec fn renamed_keys(pending: Seq<NodeUpdateRecord>) -> Seq<(NodeId, Seq<char>)> {
    pending.map_values(|u: NodeUpdateRecord| (u.node_id, u.lookup_key@))
}

/// Node `x` answers lookups of `key` in `repository` once the nodes of
/// `renamed` take their new lookup keys: a renamed node by a new key, or by
/// an alias it answers with; any other node as before.
pub open spec fn answers_after<R: ReadRepository>(
    repository: &R,
    renamed: Seq<(NodeId, Seq<char>)>,
    x: NodeId,
    key: Seq<char>,
) -> bool {
    if exists|j: int| 0 <= j < renamed.len() && (#[trigger] renamed[j]).0 == x {
        (repository.spec_answers(x, key) && alias_has_key(repository.spec_aliases(x), key))
            || exists|j: int| 0 <= j < renamed.len() && #[trigger] renamed[j] == (x, key)
    } else {
        repository.spec_answers(x, key)
    }
}

/// Each lookup link is bound to the only node that answers its key once the
/// nodes of `renamed` take their new lookup keys.
pub open spec fn bound_after<R: ReadRepository>(
    repository: &R,
    renamed: Seq<(NodeId, Seq<char>)>,
    links: Seq<LinkSpec>,
    ids: Seq<NodeId>,
) -> bool {
    forall|n: int|
        0 <= n < links.len() ==> match #[trigger] links[n] {
            LinkSpec::ByLookup(k) => n < ids.len() && answers_after(repository, renamed, ids[n], k)
                && forall|y: NodeId| #[trigger] answers_after(repository, renamed, y, k) ==> y == ids[n],
            _ => true,
        }
}

/// The lookup key an update with text `raw` gives its node: that of the
/// text in canonical form, with links `links`.
pub open spec fn update_key(raw: Seq<char>, is_root: bool, links: Seq<NodeId>) -> Seq<char> {
    trim(canonical_text(parse_spec(line_text(raw, is_root))->Ok_0, id_values(links)))
}

/// The updates before the `k`-th, each as its node and the lookup key it
/// gives the node, the links being those the node has in `after`.
pub open spec fn renamed_before<R: ReadRepository>(
    before: &R,
    after: &R,
    updates: Seq<(NodeId, String)>,
    k: int,
) -> Seq<(NodeId, Seq<char>)> {
    Seq::new(
        k as nat,
        |j: int|
            (
                updates[j].0,
                update_key(updates[j].1@, before.spec_is_root(updates[j].0), after.spec_outgoing(updates[j].0)),
            ),
    )
}

/// A candidate for a node that has a pending update carries the content of
/// an update of that node.
pub open spec fn takes_pending_content(pending: Seq<NodeUpdateRecord>, c: LookupCandidate) -> bool {
    (exists|j: int| 0 <= j < pending.len() && (#[trigger] pending[j]).node_id == c.node_id) ==> (
    exists|m: int|
        0 <= m < pending.len() && (#[trigger] pending[m]).node_id == c.node_id && pending[m].content
            == c.content)
}

/// A repository view with pending updates laid over a base repository,
/// used to validate a batch of updates before any of them is written.
struct PendingUpdateRepository<'a, R> {
    base: &'a R,
    pending: &'a Vec<NodeUpdateRecord>,
}

impl<'a, R: ReadRepository> PendingUpdateRepository<'a, R> {
    /// The pending updates, in the order they were validated.
    pub closed spec fn updates(&self) -> Seq<NodeUpdateRecord> {
        self.pending@
    }

    /// The base's child list with pending content is the child list of this
    /// view: pending updates change content only.
    proof fn lemma_pending_chain(&self, parent: Option<NodeId>, bc: Seq<StoredNode>, out: Seq<StoredNode>)
        requires
            child_chain(self.base, parent, bc),
            out.len() == bc.len(),
            forall|i: int|
                0 <= i < bc.len() ==> updated_node(self.pending@, (#[trigger] out[i]).id, self.base.spec_node(out[i].id))
                    == Some(out[i]) && out[i] == (StoredNode { content: out[i].content, ..bc[i] }),
        ensures
            forall|k: int|
                0 <= k < out.len() ==> updated_node(self.pending@, (#[trigger] out[k]).id, self.base.spec_node(out[k].id))
                    == Some(out[k]) && out[k].parent_id == parent,
            forall|j: int, k: int| 0 <= j < k < out.len() ==> out[j].id != out[k].id,
            forall|x: NodeId|
                (#[trigger] updated_node(self.pending@, x, self.base.spec_node(x)) matches Some(n)
                    && n.parent_id == parent) ==> exists|k: int| 0 <= k < out.len() && out[k].id == x,
            match parent {
                Some(p) => {
                    &&& out.len() > 0 ==> (updated_node(self.pending@, p, self.base.spec_node(p)) matches Some(pn)
                        && pn.first_child_id == Some(out[0].id))
                    &&& forall|k: int|
                        0 <= k < out.len() - 1 ==> (#[trigger] out[k]).next_sibling_id == Some(out[k + 1].id)
                    &&& out.len() > 0 ==> out.last().next_sibling_id is None
                },
                None => top_level_order(out, self.base.spec_root_order(), self.base.spec_daily_notes()),
            },
    {
        assert forall|k: int| 0 <= k < out.len() implies #[trigger] out[k].id == bc[k].id && out[k].parent_id
            == bc[k].parent_id && out[k].next_sibling_id == bc[k].next_sibling_id by {
            assert(out[k] == (StoredNode { content: out[k].content, ..bc[k] }));
        }
        assert forall|x: NodeId|
            (#[trigger] updated_node(self.pending@, x, self.base.spec_node(x)) matches Some(n)
                && n.parent_id == parent) implies exists|k: int| 0 <= k < out.len() && out[k].id == x by {
            match self.base.spec_node(x) {
                Some(m) => {
                    lemma_updated_node_keeps(self.pending@, x, m);
                    assert(self.base.spec_node(x) matches Some(mm) && mm.parent_id == parent);
                    let k = choose|k: int| 0 <= k < bc.len() && bc[k].id == x;
                    assert(out[k].id == bc[k].id);
                },
                None => {
                    lemma_updated_node_absent(self.pending@, x);
                },
            }
        }
        if let Some(p) = parent {
            if out.len() > 0 {
                match self.base.spec_node(p) {
                    Some(m) => {
                        lemma_updated_node_keeps(self.pending@, p, m);
                    },
                    None => {},
                }
            }
            assert forall|k: int| 0 <= k < out.len() - 1 implies (#[trigger] out[k]).next_sibling_id
                == Some(out[k + 1].id) by {
                assert(out[k].next_sibling_id == bc[k].next_sibling_id);
                assert(out[k + 1].id == bc[k + 1].id);
                assert(bc[k].next_sibling_id == Some(bc[k + 1].id));
            }
            if out.len() > 0 {
                assert(out.last().next_sibling_id == bc.last().next_sibling_id) by {
                    assert(out.last() == out[out.len() - 1]);
                    assert(bc.last() == bc[bc.len() - 1]);
                }
            }
        } else {
            let roots = self.base.spec_root_order();
            let days = self.base.spec_daily_notes();
            assert(top_level_order(bc, roots, days));
            assert forall|k: int| 0 <= k < roots.len() implies (#[trigger] out[k]).id == roots[k] by {
                assert(out[k].id == bc[k].id);
            }
            assert forall|k: int| 0 <= k < days.len() implies out[roots.len() + k].id == (
            #[trigger] days[k]).node_id by {
                assert(out[roots.len() + k].id == bc[roots.len() + k].id);
            }
        }
        assert forall|j: int, k: int| 0 <= j < k < out.len() implies out[j].id != out[k].id by {
            assert(out[j].id == bc[j].id && out[k].id == bc[k].id);
        }
    }

    /// Whether an alias of the node has the lookup key.
    fn alias_matches(&self, node_id: NodeId, key: &LookupKey) -> (r: KernelResult<bool>)
        ensures
            r matches Ok(b) ==> b == alias_has_key(self.base.spec_aliases(node_id), key@),
            r matches Err(e) ==> read_failure(e),
    {
        let aliases = match self.base.list_aliases(node_id) {
            Ok(a) => a,
            Err(e) => {
                return Err(e);
            },
        };
        let mut k: usize = 0;
        while k < aliases.len()
            invariant
                k <= aliases.len(),
                aliases@ == self.base.spec_aliases(node_id),
                forall|i: int|
                    0 <= i < k ==> !(lookup_key_of((#[trigger] aliases@[i])@) matches Ok(t) && t
                        == key@),
            decreases aliases.len() - k,
        {
            if let Ok(alias_key) = LookupKey::from_alias(&aliases[k]) {
                if alias_key.same(key) {
                    assert(lookup_key_of(aliases@[k as int]@) matches Ok(t) && t == key@);
                    return Ok(true);
                }
            }
            k = k + 1;
        }
        Ok(false)
    }
}

/// A lookup bound in the pending view is bound once the pending nodes take
/// their new lookup keys.
proof fn lemma_pending_bound<'a, R: ReadRepository>(
    v: &PendingUpdateRepository<'a, R>,
    links: Seq<LinkSpec>,
    ids: Seq<NodeId>,
)
    requires
        lookups_bound(v, links, ids),
    ensures
        bound_after(v.base, renamed_keys(v.pending@), links, ids),
{
    let rk = renamed_keys(v.pending@);
    assert forall|x: NodeId, key: Seq<char>|
        #![trigger v.spec_answers(x, key)]
        #![trigger answers_after(v.base, rk, x, key)]
        v.spec_answers(x, key) == answers_after(v.base, rk, x, key) by {
        if has_update(v.pending@, x) {
            let j = choose|j: int| 0 <= j < v.pending@.len() && (#[trigger] v.pending@[j]).node_id == x;
            assert(rk[j].0 == x);
        }
        if exists|j: int| 0 <= j < rk.len() && (#[trigger] rk[j]).0 == x {
            let j = choose|j: int| 0 <= j < rk.len() && (#[trigger] rk[j]).0 == x;
            assert(v.pending@[j].node_id == x);
        }
        if update_has_key(v.pending@, x, key) {
            let j = choose|j: int|
                0 <= j < v.pending@.len() && (#[trigger] v.pending@[j]).node_id == x
                    && v.pending@[j].lookup_key@ == key;
            assert(rk[j] == (x, key));
        }
        if exists|j: int| 0 <= j < rk.len() && #[trigger] rk[j] == (x, key) {
            let j = choose|j: int| 0 <= j < rk.len() && #[trigger] rk[j] == (x, key);
            assert(v.pending@[j].node_id == x && v.pending@[j].lookup_key@ == key);
        }
    }
    assert forall|n: int| 0 <= n < links.len() implies match #[trigger] links[n] {
        LinkSpec::ByLookup(k) => n < ids.len() && answers_after(v.base, rk, ids[n], k) && forall|
            y: NodeId,
        | #[trigger] answers_after(v.base, rk, y, k) ==> y == ids[n],
        _ => true,
    } by {
        match links[n] {
            LinkSpec::ByLookup(k) => {
                assert(v.spec_answers(ids[n], k));
            },
            _ => {},
        }
    }
}

impl<'a, R: ReadRepository> ReadRepository for PendingUpdateRepository<'a, R> {
    closed spec fn spec_outgoing(&self, node_id: NodeId) -> Seq<NodeId> {
        updated_links(self.pending@, node_id, self.base.spec_outgoing(node_id))
    }

    closed spec fn spec_node(&self, node_id: NodeId) -> Option<StoredNode> {
        updated_node(self.pending@, node_id, self.base.spec_node(node_id))
    }

    closed spec fn spec_aliases(&self, node_id: NodeId) -> Seq<AliasText> {
        self.base.spec_aliases(node_id)
    }

    /// A node with a pending update answers a key when an update of it has
    /// that key, or when it answers the key in the base by an alias; other
    /// nodes answer as in the base.
    closed spec fn spec_answers(&self, x: NodeId, key: Seq<char>) -> bool {
        if has_update(self.pending@, x) {
            (self.base.spec_answers(x, key) && alias_has_key(self.base.spec_aliases(x), key))
                || update_has_key(self.pending@, x, key)
        } else {
            self.base.spec_answers(x, key)
        }
    }

    closed spec fn spec_incoming(&self, node_id: NodeId) -> Seq<IncomingLinkRecord> {
        self.base.spec_incoming(node_id)
    }

    closed spec fn spec_daily_note(&self, note_date: Seq<char>) -> Option<NodeId> {
        self.base.spec_daily_note(note_date)
    }

    closed spec fn spec_text_matches(&self, needle: Seq<char>) -> Seq<StoredNode> {
        self.base.spec_text_matches(needle)
    }

    closed spec fn spec_root_order(&self) -> Seq<NodeId> {
        self.base.spec_root_order()
    }

    closed spec fn spec_daily_notes(&self) -> Seq<DailyNoteRecord> {
        self.base.spec_daily_notes()
    }

    fn get_node(&self, node_id: NodeId) -> (r: KernelResult<Option<StoredNode>>) {
        let mut node = match self.base.get_node(node_id) {
            Ok(Some(n)) => n,
            Ok(None) => {
                proof {
                    lemma_updated_node_absent(self.pending@, node_id);
                }
                return Ok(None);
            },
            Err(e) => {
                return Err(e);
            },
        };
        if let Some(i) = find_pending(self.pending, node_id) {
            node.content = self.pending[i].content.clone();
        }
        Ok(Some(node))
    }

    #[verifier::rlimit(40)]
    fn list_children(&self, parent_id: Option<NodeId>) -> (r: KernelResult<Vec<StoredNode>>) {
        let base_children = match self.base.list_children(parent_id) {
            Ok(c) => c,
            Err(e) => {
                return Err(e);
            },
        };
        let ghost bc = base_children@;
        assert(child_chain(self.base, parent_id, bc));
        let mut out: Vec<StoredNode> = Vec::new();
        let mut k: usize = 0;
        while k < base_children.len()
            invariant
                k <= base_children.len(),
                bc == base_children@,
                out@.len() == k,
                forall|i: int|
                    0 <= i < bc.len() ==> self.base.spec_node((#[trigger] bc[i]).id) == Some(bc[i]),
                forall|i: int|
                    0 <= i < k ==> self.spec_node((#[trigger] out@[i]).id) == Some(out@[i])
                        && out@[i] == (StoredNode { content: out@[i].content, ..bc[i] }),
            decreases base_children.len() - k,
        {
            let id = base_children[k].id;
            proof {
                lemma_updated_node_keeps(self.pending@, id, bc[k as int]);
            }
            match self.get_node(id) {
                Ok(Some(n)) => {
                    let ghost before = out@;
                    out.push(n);
                    assert forall|i: int| 0 <= i < k + 1 implies self.spec_node(
                        (#[trigger] out@[i]).id,
                    ) == Some(out@[i]) && out@[i] == (StoredNode {
                        content: out@[i].content,
                        ..bc[i]
                    }) by {
                        if i < k {
                            assert(out@[i] == before[i]);
                        }
                    }
                },
                Ok(None) => {
                    return Err(
                        KernelError::StorageCorruption(
                            message_with_id("missing pending child node ", id, ""),
                        ),
                    );
                },
                Err(e) => {
                    return Err(e);
                },
            }
            k = k + 1;
        }
        proof {
            self.lemma_pending_chain(parent_id, bc, out@);
        }
        Ok(out)
    }

    fn list_outgoing_links(&self, node_id: NodeId) -> (r: KernelResult<Vec<NodeId>>)
        ensures
            (exists|j: int|
                0 <= j < self.updates().len() && (#[trigger] self.updates()[j]).node_id == node_id)
                ==> r is Ok,
    {
        match find_pending(self.pending, node_id) {
            Some(i) => Ok(clone_ids(&self.pending[i].outgoing_links)),
            None => self.base.list_outgoing_links(node_id),
        }
    }

    fn list_incoming_links(&self, node_id: NodeId) -> (r: KernelResult<Vec<IncomingLinkRecord>>) {
        self.base.list_incoming_links(node_id)
    }

    fn list_aliases(&self, node_id: NodeId) -> (r: KernelResult<Vec<AliasText>>) {
        self.base.list_aliases(node_id)
    }

    fn lookup_candidates(&self, key: &LookupKey) -> (r: KernelResult<Vec<LookupCandidate>>)
        ensures
            r matches Ok(v) ==> forall|i: int, j: int|
                0 <= i <= j < v@.len() ==> v@[i].node_id@ <= v@[j].node_id@,
            r matches Ok(v) ==> forall|j: int|
                0 <= j < self.updates().len() && (#[trigger] self.updates()[j]).lookup_key@
                    == key@ ==> has_candidate(v@, self.updates()[j].node_id),
            r matches Ok(v) ==> forall|i: int|
                0 <= i < v@.len() ==> takes_pending_content(self.updates(), #[trigger] v@[i]),
    {
        let base_candidates = match self.base.lookup_candidates(key) {
            Ok(c) => c,
            Err(e) => {
                return Err(e);
            },
        };
        let ghost bc = base_candidates@;
        let mut candidates: Vec<LookupCandidate> = Vec::new();
        let mut k: usize = 0;
        while k < base_candidates.len()
            invariant
                k <= base_candidates.len(),
                bc == base_candidates@,
                forall|i: int|
                    0 <= i < candidates@.len() ==> takes_pending_content(
                        self.pending@,
                        #[trigger] candidates@[i],
                    ),
                forall|x: NodeId|
                    #[trigger] has_candidate(candidates@, x) ==> has_candidate(bc, x) && (
                    !has_update(self.pending@, x) || alias_has_key(self.base.spec_aliases(x), key@)
                        || update_has_key(self.pending@, x, key@)),
                forall|i: int|
                    0 <= i < k ==> (!has_update(self.pending@, (#[trigger] bc[i]).node_id)
                        || alias_has_key(self.base.spec_aliases(bc[i].node_id), key@))
                        ==> has_candidate(candidates@, bc[i].node_id),
            decreases base_candidates.len() - k,
        {
            let candidate = &base_candidates[k];
            let ghost before = candidates@;
            let ghost id = bc[k as int].node_id;
            match find_pending(self.pending, candidate.node_id) {
                None => {
                    let c = candidate.clone();
                    candidates.push(c);
                    assert(!has_update(self.pending@, id));
                },
                Some(i) => {
                    let update = &self.pending[i];
                    let alias_matches = match self.alias_matches(candidate.node_id, key) {
                        Ok(b) => b,
                        Err(e) => {
                            return Err(e);
                        },
                    };
                    let updated_content_matches = update.lookup_key.same(key);
                    assert(self.pending@[i as int].node_id == id);
                    if alias_matches || updated_content_matches {
                        candidates.push(
                            LookupCandidate {
                                node_id: candidate.node_id,
                                content: update.content.clone(),
                                path: candidate.path.clone(),
                            },
                        );
                        assert(self.pending@[i as int].node_id == candidates@[before.len() as int].node_id);
                    }
                },
            }
            assert forall|i: int| 0 <= i < candidates@.len() implies takes_pending_content(
                self.pending@,
                #[trigger] candidates@[i],
            ) by {
                if i < before.len() {
                    assert(candidates@[i] == before[i]);
                }
            }
            assert forall|x: NodeId| #[trigger] has_candidate(candidates@, x) implies has_candidate(bc, x)
                && (!has_update(self.pending@, x) || alias_has_key(self.base.spec_aliases(x), key@)
                || update_has_key(self.pending@, x, key@)) by {
                let w = choose|w: int| 0 <= w < candidates@.len() && (#[trigger] candidates@[w]).node_id == x;
                if w < before.len() {
                    assert(candidates@[w] == before[w]);
                    assert(has_candidate(before, x));
                } else {
                    assert(x == id);
                    assert(bc[k as int].node_id == x);
                }
            }
            assert forall|i: int|
                0 <= i < k + 1 && (!has_update(self.pending@, (#[trigger] bc[i]).node_id)
                    || alias_has_key(self.base.spec_aliases(bc[i].node_id), key@)) implies has_candidate(
                candidates@,
                bc[i].node_id,
            ) by {
                if i < k {
                    let w = choose|w: int| 0 <= w < before.len() && (#[trigger] before[w]).node_id == bc[i].node_id;
                    assert(candidates@[w] == before[w]);
                } else {
                    assert(candidates@[before.len() as int].node_id == id);
                }
            }
            k = k + 1;
        }
        let ghost first = candidates@;
        let mut j: usize = 0;
        while j < self.pending.len()
            invariant
                j <= self.pending@.len(),
                forall|i: int|
                    0 <= i < candidates@.len() ==> takes_pending_content(
                        self.pending@,
                        #[trigger] candidates@[i],
                    ),
                forall|jj: int|
                    0 <= jj < j && (#[trigger] self.pending@[jj]).lookup_key@ == key@
                        ==> has_candidate(candidates@, self.pending@[jj].node_id),
                forall|x: NodeId|
                    #[trigger] has_candidate(candidates@, x) <==> (has_candidate(first, x) || exists|
                        jj: int,
                    |
                        0 <= jj < j && (#[trigger] self.pending@[jj]).node_id == x
                            && self.pending@[jj].lookup_key@ == key@),
            decreases self.pending@.len() - j,
        {
            let update = &self.pending[j];
            let mut present = false;
            let mut c: usize = 0;
            while c < candidates.len()
                invariant
                    c <= candidates.len(),
                    present == exists|c2: int|
                        0 <= c2 < c && (#[trigger] candidates@[c2]).node_id == update.node_id,
                decreases candidates.len() - c,
            {
                if candidates[c].node_id.same(&update.node_id) {
                    present = true;
                }
                c = c + 1;
            }
            let ghost before = candidates@;
            if !present && update.lookup_key.same(key) {
                let path = match self.node_path(update.node_id) {
                    Ok(p) => p,
                    Err(e) => {
                        return Err(e);
                    },
                };
                candidates.push(
                    LookupCandidate {
                        node_id: update.node_id,
                        content: update.content.clone(),
                        path,
                    },
                );
                assert(self.pending@[j as int].node_id == candidates@[before.len() as int].node_id);
            }
            assert forall|i: int| 0 <= i < candidates@.len() implies takes_pending_content(
                self.pending@,
                #[trigger] candidates@[i],
            ) by {
                if i < before.len() {
                    assert(candidates@[i] == before[i]);
                }
            }
            assert forall|jj: int|
                0 <= jj < j + 1 && (#[trigger] self.pending@[jj]).lookup_key@ == key@ implies has_candidate(
                candidates@,
                self.pending@[jj].node_id,
            ) by {
                if jj < j {
                    let i = choose|i: int|
                        0 <= i < before.len() && before[i].node_id == self.pending@[jj].node_id;
                    assert(candidates@[i] == before[i]);
                } else if present {
                    let i = choose|i: int|
                        0 <= i < before.len() && (#[trigger] before[i]).node_id == update.node_id;
                    assert(candidates@[i] == before[i]);
                } else {
                    assert(candidates@[before.len() as int].node_id == update.node_id);
                }
            }
            assert forall|x: NodeId| #[trigger] has_candidate(candidates@, x) <==> (has_candidate(first, x)
                || exists|jj: int|
                0 <= jj < j + 1 && (#[trigger] self.pending@[jj]).node_id == x
                    && self.pending@[jj].lookup_key@ == key@) by {
                if has_candidate(candidates@, x) {
                    let w = choose|w: int| 0 <= w < candidates@.len() && (#[trigger] candidates@[w]).node_id == x;
                    if w < before.len() {
                        assert(candidates@[w] == before[w]);
                        assert(has_candidate(before, x));
                    } else {
                        assert(self.pending@[j as int].node_id == x);
                    }
                }
                if has_candidate(before, x) {
                    let w = choose|w: int| 0 <= w < before.len() && (#[trigger] before[w]).node_id == x;
                    assert(candidates@[w] == before[w]);
                }
                if exists|jj: int|
                    0 <= jj < j + 1 && (#[trigger] self.pending@[jj]).node_id == x
                        && self.pending@[jj].lookup_key@ == key@ {
                    let jj = choose|jj: int|
                        0 <= jj < j + 1 && (#[trigger] self.pending@[jj]).node_id == x
                            && self.pending@[jj].lookup_key@ == key@;
                    if jj == j {
                        assert(has_candidate(candidates@, self.pending@[jj].node_id));
                    }
                }
            }
            j = j + 1;
        }
        let sorted = sort_candidates(candidates);
        proof {
            assert forall|jj: int|
                0 <= jj < self.updates().len() && (#[trigger] self.updates()[jj]).lookup_key@ == key@
                    implies has_candidate(sorted@, self.updates()[jj].node_id) by {
                assert(self.updates()[jj] == self.pending@[jj]);
                let i = choose|i: int|
                    0 <= i < candidates@.len() && candidates@[i].node_id == self.pending@[jj].node_id;
                assert(sorted@.contains(candidates@[i]));
                let w = choose|w: int| 0 <= w < sorted@.len() && sorted@[w] == candidates@[i];
                assert(sorted@[w].node_id == self.pending@[jj].node_id);
            }
            assert forall|i: int| 0 <= i < sorted@.len() implies takes_pending_content(
                self.pending@,
                #[trigger] sorted@[i],
            ) by {
                assert(candidates@.contains(sorted@[i]));
                let w = choose|w: int| 0 <= w < candidates@.len() && candidates@[w] == sorted@[i];
                assert(takes_pending_content(self.pending@, candidates@[w]));
            }
            assert forall|x: NodeId| #[trigger] has_candidate(sorted@, x) <==> has_candidate(candidates@, x) by {
                if has_candidate(sorted@, x) {
                    let w = choose|w: int| 0 <= w < sorted@.len() && (#[trigger] sorted@[w]).node_id == x;
                    assert(candidates@.contains(sorted@[w]));
                    let v = choose|v: int| 0 <= v < candidates@.len() && candidates@[v] == sorted@[w];
                    assert(candidates@[v].node_id == x);
                }
                if has_candidate(candidates@, x) {
                    let w = choose|w: int| 0 <= w < candidates@.len() && (#[trigger] candidates@[w]).node_id == x;
                    assert(sorted@.contains(candidates@[w]));
                    let v = choose|v: int| 0 <= v < sorted@.len() && sorted@[v] == candidates@[w];
                    assert(sorted@[v].node_id == x);
                }
            }
            assert forall|x: NodeId| #[trigger] self.spec_answers(x, key@) <==> has_candidate(sorted@, x) by {
                assert(self.base.spec_answers(x, key@) <==> has_candidate(bc, x));
                if has_candidate(bc, x) {
                    let i = choose|i: int| 0 <= i < bc.len() && (#[trigger] bc[i]).node_id == x;
                    assert(bc[i].node_id == x);
                }
                if update_has_key(self.pending@, x, key@) {
                    let jj = choose|jj: int|
                        0 <= jj < self.pending@.len() && (#[trigger] self.pending@[jj]).node_id == x
                            && self.pending@[jj].lookup_key@ == key@;
                    assert(self.pending@[jj].node_id == x);
                }
                if exists|jj: int|
                    0 <= jj < self.pending@.len() && (#[trigger] self.pending@[jj]).node_id == x
                        && self.pending@[jj].lookup_key@ == key@ {
                    assert(update_has_key(self.pending@, x, key@));
                    assert(has_update(self.pending@, x));
                }
            }
        }
        Ok(sorted)
    }

    fn node_path(&self, node_id: NodeId) -> KernelResult<String> {
        self.base.node_path(node_id)
    }

    fn find_daily_note(&self, note_date: &str) -> (r: KernelResult<Option<DailyNoteRecord>>) {
        self.base.find_daily_note(note_date)
    }

    fn list_daily_notes(&self) -> (r: KernelResult<Vec<DailyNoteRecord>>) {
        self.base.list_daily_notes()
    }

    fn is_daily_note_node(&self, node_id: NodeId) -> KernelResult<bool> {
        self.base.is_daily_note_node(node_id)
    }

    fn is_root_node(&self, node_id: NodeId) -> KernelResult<bool> {
        self.base.is_root_node(node_id)
    }

    closed spec fn spec_is_daily_note(&self, node_id: NodeId) -> bool {
        self.base.spec_is_daily_note(node_id)
    }

    closed spec fn spec_is_root(&self, node_id: NodeId) -> bool {
        self.base.spec_is_root(node_id)
    }

    fn list_root_nodes(&self) -> (r: KernelResult<Vec<StoredNode>>) {
        let roots = match self.base.list_root_nodes() {
            Ok(r) => r,
            Err(e) => {
                return Err(e);
            },
        };
        let mut out: Vec<StoredNode> = Vec::new();
        let mut k: usize = 0;
        while k < roots.len()
            invariant
                k <= roots.len(),
                out@.len() == k,
                forall|i: int|
                    0 <= i < roots@.len() ==> self.base.spec_is_root((#[trigger] roots@[i]).id),
                forall|i: int|
                    0 <= i < k ==> self.spec_node((#[trigger] out@[i]).id) == Some(out@[i])
                        && self.spec_is_root(out@[i].id) && out@[i].id == roots@[i].id,
            decreases roots.len() - k,
        {
            let id = roots[k].id;
            match self.get_node(id) {
                Ok(Some(n)) => {
                    let ghost before = out@;
                    out.push(n);
                    assert forall|i: int| 0 <= i < k + 1 implies self.spec_node(
                        (#[trigger] out@[i]).id,
                    ) == Some(out@[i]) && self.spec_is_root(out@[i].id) && out@[i].id
                        == roots@[i].id by {
                        if i < k {
                            assert(out@[i] == before[i]);
                        }
                    }
                },
                Ok(None) => {
                    return Err(
                        KernelError::StorageCorruption(
                            message_with_id("missing pending root node ", id, ""),
                        ),
                    );
                },
                Err(e) => {
                    return Err(e);
                },
            }
            k = k + 1;
        }
        proof {
            assert forall|x: NodeId| #[trigger]
                self.spec_is_root(x) && self.spec_node(x) is Some implies exists|i: int|
                0 <= i < out@.len() && out@[i].id == x by {
                if self.base.spec_node(x) is None {
                    lemma_updated_node_absent(self.pending@, x);
                }
                let i = choose|i: int| 0 <= i < roots@.len() && roots@[i].id == x;
                assert(out@[i].id == roots@[i].id);
            }
        }
        Ok(out)
    }

    fn find_root_node_by_content(&self, content: &ContentLine) -> (r: KernelResult<
        Option<StoredNode>,
    >) {
        let wanted = trim_chars(&content.chars());
        let roots = match self.list_root_nodes() {
            Ok(r) => r,
            Err(e) => {
                return Err(e);
            },
        };
        let mut k: usize = 0;
        while k < roots.len()
            invariant
                k <= roots.len(),
                wanted@ == trim(content@),
                forall|i: int|
                    0 <= i < roots@.len() ==> self.spec_node((#[trigger] roots@[i]).id) == Some(
                        roots@[i],
                    ) && self.spec_is_root(roots@[i].id),
                forall|i: int| 0 <= i < k ==> trim((#[trigger] roots@[i]).content@) != wanted@,
            decreases roots.len() - k,
        {
            let t = trim_chars(&roots[k].content.chars());
            if crate::text::chars_eq(t.as_slice(), wanted.as_slice()) {
                assert(t@ == wanted@);
                return Ok(Some(roots[k].clone()));
            }
            k = k + 1;
        }
        assert forall|x: NodeId|
            #[trigger] self.spec_is_root(x) && self.spec_node(x) is Some implies trim(
                self.spec_node(x)->0.content@,
            ) != trim(content@) by {
            let i = choose|i: int| 0 <= i < roots@.len() && roots@[i].id == x;
            assert(self.spec_node(roots@[i].id) == Some(roots@[i]));
            assert(trim(roots@[i].content@) != wanted@);
        }
        Ok(None)
    }

    fn search_text_matches(&self, needle: &str) -> (r: KernelResult<Vec<StoredNode>>) {
        self.base.search_text_matches(needle)
    }
}

// ---------------------------------------------------------------------------
// Updating nodes
// ---------------------------------------------------------------------------

/// No root other than `node_id` has the lookup text `key`.
pub open spec fn key_unclaimed<R: ReadRepository>(repository: &R, node_id: NodeId, key: Seq<char>) -> bool {
    forall|x: NodeId|
        x != node_id && #[trigger] repository.spec_is_root(x) && repository.spec_node(x) is Some
            ==> trim(repository.spec_node(x)->0.content@) != key
}

/// Updated text is acceptable: a root's trimmed text is valid content that
/// can name a root; other text is valid content as given.
pub open spec fn update_text_ok(raw: Seq<char>, is_root: bool) -> bool {
    if is_root {
        valid_content_line(trim(raw))
    } else {
        valid_content_line(raw)
    }
}

/// `stored` is what an update with text `raw` writes: the text (trimmed for
/// a root) in canonical form, its links resolved to `links`.
pub open spec fn canonical_update(
    raw: Seq<char>,
    is_root: bool,
    stored: Seq<char>,
    links: Seq<NodeId>,
) -> bool {
    let text = if is_root {
        trim(raw)
    } else {
        raw
    };
    &&& parse_spec(text) matches Ok(fs)
    &&& ids_fit(links_of(fs), id_values(links))
    &&& stored == canonical_text(fs, id_values(links))
}

/// A stored node `before` becomes `after` under an update with text `raw`:
/// only its content changes, to the canonical form of the text with links
/// `links`; a node that did not exist still does not.
pub open spec fn rewritten(
    before: Option<StoredNode>,
    after: Option<StoredNode>,
    raw: Seq<char>,
    is_root: bool,
    links: Seq<NodeId>,
) -> bool {
    match before {
        Some(n) => after matches Some(m) && m == (StoredNode { content: m.content, ..n })
            && canonical_update(raw, is_root, m.content@, links),
        None => after is None,
    }
}

/// Root content is trimmed; other content must be valid as given.
fn prepare_updated_content<R: ReadRepository>(
    repository: &R,
    node_id: NodeId,
    raw_content: &str,
) -> (r: KernelResult<ContentLine>)
    ensures
        r matches Ok(c) ==> update_text_ok(raw_content@, repository.spec_is_root(node_id)) && c@
            == (if repository.spec_is_root(node_id) {
            trim(raw_content@)
        } else {
            raw_content@
        }),
        !update_text_ok(raw_content@, repository.spec_is_root(node_id)) ==> refused_as(
            r,
            Failure::Input,
        ),
        update_text_ok(raw_content@, repository.spec_is_root(node_id)) ==> (r matches Err(e)
            ==> read_failure(e)),
{
    let is_root = match repository.is_root_node(node_id) {
        Ok(b) => b,
        Err(e) => {
            return Err(e);
        },
    };
    if is_root {
        return normalize_root_content(raw_content);
    }
    match ContentLine::parse(raw_content) {
        Ok(c) => Ok(c),
        Err(e) => Err(KernelError::Input(e.message())),
    }
}

/// Root content must be plain, delimiter-free, referenceable text.
fn validate_root_shape<R: ReadRepository>(
    repository: &R,
    node_id: NodeId,
    raw_line: &ContentLine,
) -> (r: KernelResult<()>)
    ensures
        r is Ok ==> (repository.spec_is_root(node_id) ==> root_text_failure(raw_line@) is None),
        match root_text_failure(raw_line@) {
            Some(k) => repository.spec_is_root(node_id) ==> refused_as(r, k),
            None => r matches Err(e) ==> read_failure(e),
        },
{
    let is_root = match repository.is_root_node(node_id) {
        Ok(b) => b,
        Err(e) => {
            return Err(e);
        },
    };
    if !is_root {
        return Ok(());
    }
    check_root_text(raw_line)
}

/// Daily note nodes are immutable; a root keeps its shape and a lookup key
/// that no other root has.
fn validate_root_update<R: ReadRepository>(
    repository: &R,
    node_id: NodeId,
    raw_line: &ContentLine,
) -> (r: KernelResult<Option<String>>)
    ensures
        repository.spec_is_daily_note(node_id) ==> r is Err,
        r is Ok ==> (repository.spec_is_root(node_id) ==> root_text_failure(raw_line@) is None),
        r is Ok ==> (repository.spec_is_root(node_id) ==> key_unclaimed(
            repository,
            node_id,
            trim(raw_line@),
        )),
        repository.spec_is_daily_note(node_id) ==> refused_as(r, Failure::Constraint),
        match root_text_failure(raw_line@) {
            Some(k) => !repository.spec_is_daily_note(node_id) && repository.spec_is_root(node_id)
                ==> refused_as(r, k),
            None => true,
        },
        !repository.spec_is_daily_note(node_id) && repository.spec_is_root(node_id)
            && root_text_failure(raw_line@) is None && !key_unclaimed(
            repository,
            node_id,
            trim(raw_line@),
        ) ==> refused_as(r, Failure::Constraint),
        !repository.spec_is_daily_note(node_id) && (repository.spec_is_root(node_id) ==> (
        root_text_failure(raw_line@) is None && key_unclaimed(repository, node_id, trim(raw_line@))))
            ==> (r matches Err(e) ==> read_failure(e)),
{
    match repository.is_daily_note_node(node_id) {
        Ok(true) => {
            return Err(KernelError::Constraint("daily note date nodes are immutable".to_owned()));
        },
        Ok(false) => {},
        Err(e) => {
            return Err(e);
        },
    }
    let is_root = match repository.is_root_node(node_id) {
        Ok(b) => b,
        Err(e) => {
            return Err(e);
        },
    };
    if !is_root {
        return Ok(None);
    }
    match validate_root_shape(repository, node_id, raw_line) {
        Ok(()) => {},
        Err(e) => {
            return Err(e);
        },
    }
    let normalized = trim_chars(&raw_line.chars());
    let roots = match repository.list_root_nodes() {
        Ok(r) => r,
        Err(e) => {
            return Err(e);
        },
    };
    let mut k: usize = 0;
    while k < roots.len()
        invariant
            k <= roots.len(),
            normalized@ == trim(raw_line@),
            forall|i: int|
                0 <= i < k ==> (#[trigger] roots@[i]).id != node_id ==> trim(roots@[i].content@)
                    != normalized@,
            repository.spec_is_root(node_id),
            !repository.spec_is_daily_note(node_id),
            root_text_failure(raw_line@) is None,
            forall|i: int|
                0 <= i < roots@.len() ==> repository.spec_node((#[trigger] roots@[i]).id) == Some(
                    roots@[i],
                ) && repository.spec_is_root(roots@[i].id),
        decreases roots.len() - k,
    {
        let other = trim_chars(&roots[k].content.chars());
        if !roots[k].id.same(&node_id) && crate::text::chars_eq(
            other.as_slice(),
            normalized.as_slice(),
        ) {
            assert(!key_unclaimed(repository, node_id, trim(raw_line@))) by {
                let x = roots@[k as int].id;
                assert(repository.spec_node(x) == Some(roots@[k as int]));
            }
            return Err(KernelError::Constraint("root lookup keys must stay unique".to_owned()));
        }
        k = k + 1;
    }
    proof {
        assert forall|x: NodeId|
            x != node_id && #[trigger] repository.spec_is_root(x) && repository.spec_node(
                x,
            ) is Some implies trim(repository.spec_node(x)->0.content@) != trim(raw_line@) by {
            let i = choose|i: int| 0 <= i < roots@.len() && roots@[i].id == x;
            assert(repository.spec_node(roots@[i].id) == Some(roots@[i]));
        }
    }
    Ok(Some(chars_to_string(normalized.as_slice())))
}

/// No two roots share a lookup text.
pub open spec fn root_keys_distinct<R: ReadRepository>(repository: &R) -> bool {
    forall|x: NodeId, y: NodeId|
        #![trigger repository.spec_is_root(x), repository.spec_is_root(y)]
        x != y && repository.spec_is_root(x) && repository.spec_is_root(y) && repository.spec_node(
            x,
        ) is Some && repository.spec_node(y) is Some ==> trim(repository.spec_node(x)->0.content@)
            != trim(repository.spec_node(y)->0.content@)
}

/// No two roots may share a lookup key.
fn ensure_unique_root_lookup_keys<R: ReadRepository>(repository: &R) -> (r: KernelResult<()>)
    ensures
        r is Ok ==> root_keys_distinct(repository),
{
    let roots = match repository.list_root_nodes() {
        Ok(r) => r,
        Err(e) => {
            return Err(e);
        },
    };
    let mut seen: Vec<Vec<char>> = Vec::new();
    let mut k: usize = 0;
    while k < roots.len()
        invariant
            k <= roots.len(),
            seen@.len() == k,
            forall|i: int| 0 <= i < k ==> (#[trigger] seen@[i])@ == trim(roots@[i].content@),
            forall|i: int, j: int|
                0 <= i < j < k ==> (#[trigger] seen@[i])@ != (#[trigger] seen@[j])@,
        decreases roots.len() - k,
    {
        let normalized = trim_chars(&roots[k].content.chars());
        let mut j: usize = 0;
        while j < seen.len()
            invariant
                j <= seen.len(),
                forall|i: int| 0 <= i < j ==> (#[trigger] seen@[i])@ != normalized@,
            decreases seen.len() - j,
        {
            if crate::text::chars_eq(seen[j].as_slice(), normalized.as_slice()) {
                return Err(KernelError::Constraint("root lookup keys must stay unique".to_owned()));
            }
            j = j + 1;
        }
        let ghost before = seen@;
        seen.push(normalized);
        proof {
            assert forall|i: int| 0 <= i < k + 1 implies (#[trigger] seen@[i])@ == trim(
                roots@[i].content@,
            ) by {
                if i < k {
                    assert(seen@[i] == before[i]);
                }
            }
            assert forall|i: int, j: int| 0 <= i < j < k + 1 implies (#[trigger] seen@[i])@ != (
            #[trigger] seen@[j])@ by {
                assert(seen@[i] == before[i]);
                if j < k {
                    assert(seen@[j] == before[j]);
                }
            }
        }
        k = k + 1;
    }
    proof {
        assert forall|x: NodeId, y: NodeId|
            #![trigger repository.spec_is_root(x), repository.spec_is_root(y)]
            x != y && repository.spec_is_root(x) && repository.spec_is_root(y)
                && repository.spec_node(x) is Some && repository.spec_node(y) is Some implies trim(
            repository.spec_node(x)->0.content@,
        ) != trim(repository.spec_node(y)->0.content@) by {
            let i = choose|i: int| 0 <= i < roots@.len() && roots@[i].id == x;
            let j = choose|j: int| 0 <= j < roots@.len() && roots@[j].id == y;
            assert(repository.spec_node(roots@[i].id) == Some(roots@[i]));
            assert(repository.spec_node(roots@[j].id) == Some(roots@[j]));
            assert(seen@[i]@ == trim(roots@[i].content@));
            assert(seen@[j]@ == trim(roots@[j].content@));
            if i < j {
                assert(seen@[i]@ != seen@[j]@);
            } else {
                assert(seen@[j]@ != seen@[i]@);
            }
        }
    }
    Ok(())
}

/// What an update of `node_id` to `raw` must meet before anything is
/// written: the node is no daily note node, the text is acceptable, and a
/// root keeps its shape and a lookup text that no other root has.
pub open spec fn update_admissible<R: ReadRepository>(
    repository: &R,
    node_id: NodeId,
    raw: Seq<char>,
) -> bool {
    &&& !repository.spec_is_daily_note(node_id)
    &&& update_text_ok(raw, repository.spec_is_root(node_id))
    &&& repository.spec_is_root(node_id) ==> root_text_failure(trim(raw)) is None && key_unclaimed(
        repository,
        node_id,
        trim(raw),
    )
}

/// The text `raw` of an update of `node_id`, with its links bound in
/// `repository` to `ids`, makes the node reach itself: it links to itself,
/// or to a node from which the stored links lead back to it.
pub open spec fn binds_into_cycle<R: ReadRepository>(
    repository: &R,
    node_id: NodeId,
    raw: Seq<char>,
    ids: Seq<NodeId>,
) -> bool {
    let text = line_text(raw, repository.spec_is_root(node_id));
    &&& parse_spec(text) is Ok
    &&& ids_fit(links_of(parse_spec(text)->Ok_0), id_values(ids))
    &&& lookups_bound(repository, links_of(parse_spec(text)->Ok_0), ids)
    &&& reaches(link_graph(repository), ids, node_id)
}

/// Validates and canonicalizes one node update, then writes it. An update
/// whose links would lead back to the node is refused as a constraint,
/// unless a read fails or the store reports a lookup's node more than once.
///
/// Daily note nodes are refused, roots keep their shape and unique key, and
/// the new links may not lead back to the node: after a successful update the
/// node lies on no link cycle.
pub fn update_node<R: WriteRepository>(
    repository: &mut R,
    node_id: NodeId,
    raw_content: &str,
) -> (r: KernelResult<()>)
    ensures
        old(repository).spec_is_daily_note(node_id) ==> r is Err,
        !update_admissible(old(repository), node_id, raw_content@) ==> r is Err && *final(repository) == *old(repository),
        r is Err ==> same_store(final(repository), old(repository)),
        !update_text_ok(raw_content@, old(repository).spec_is_root(node_id)) ==> refused_as(
            r,
            Failure::Input,
        ),
        update_text_ok(raw_content@, old(repository).spec_is_root(node_id)) && old(repository).spec_is_daily_note(node_id) ==> refused_as(r, Failure::Constraint),
        match root_text_failure(trim(raw_content@)) {
            Some(k) => update_text_ok(raw_content@, old(repository).spec_is_root(node_id)) && !old(repository).spec_is_daily_note(
                node_id,
            ) && old(repository).spec_is_root(node_id) ==> refused_as(r, k),
            None => true,
        },
        update_text_ok(raw_content@, old(repository).spec_is_root(node_id)) && !old(repository).spec_is_daily_note(node_id) && old(repository).spec_is_root(node_id) && root_text_failure(
            trim(raw_content@),
        ) is None && !key_unclaimed(old(repository), node_id, trim(raw_content@)) ==> refused_as(
            r,
            Failure::Constraint,
        ),
        r is Ok ==> update_text_ok(raw_content@, old(repository).spec_is_root(node_id)),
        r is Ok ==> (parse_spec(line_text(raw_content@, old(repository).spec_is_root(node_id)))
            matches Ok(fs) && lookups_bound(
            old(repository),
            links_of(fs),
            final(repository).spec_outgoing(node_id),
        )),
        (parse_spec(line_text(raw_content@, old(repository).spec_is_root(node_id))) matches Ok(fs)
            && exists|n: int|
            0 <= n < links_of(fs).len() && (#[trigger] links_of(fs)[n] matches LinkSpec::ByLookup(
                k,
            ) && !uniquely_answered(old(repository), k))) ==> r is Err,
        r is Ok ==> (old(repository).spec_is_root(node_id) ==> root_text_failure(
            trim(raw_content@),
        ) is None),
        r is Ok ==> !on_cycle(link_graph(final(repository)), node_id),
        r is Ok ==> (old(repository).spec_is_root(node_id) ==> key_unclaimed(
            old(repository),
            node_id,
            trim(raw_content@),
        )),
        r is Ok ==> rewritten(
            old(repository).spec_node(node_id),
            final(repository).spec_node(node_id),
            raw_content@,
            old(repository).spec_is_root(node_id),
            final(repository).spec_outgoing(node_id),
        ),
        r is Ok ==> forall|x: NodeId|
            x != node_id ==> #[trigger] final(repository).spec_node(x) == old(repository).spec_node(x),
        r is Ok ==> forall|x: NodeId|
            x != node_id ==> #[trigger] final(repository).spec_outgoing(x) == old(repository).spec_outgoing(x),
        forall|ids: Seq<NodeId>|
            update_admissible(old(repository), node_id, raw_content@) && #[trigger] binds_into_cycle(
                old(repository),
                node_id,
                raw_content@,
                ids,
            ) ==> (r matches Err(e) && (e is Constraint || e is LookupAmbiguous || read_failure(e))),
{
    let raw_line = match prepare_updated_content(&*repository, node_id, raw_content) {
        Ok(c) => c,
        Err(e) => {
            return Err(e);
        },
    };
    proof {
        crate::domain::lemma_trim_idempotent(raw_content@);
    }
    match validate_root_update(&*repository, node_id, &raw_line) {
        Ok(_) => {},
        Err(e) => {
            return Err(e);
        },
    }
    let canonical = match canonicalize_content(&*repository, &raw_line) {
        Ok(c) => c,
        Err(e) => {
            proof {
                assert forall|ids: Seq<NodeId>|
                    update_admissible(old(repository), node_id, raw_content@) && #[trigger] binds_into_cycle(
                        old(repository),
                        node_id,
                        raw_content@,
                        ids,
                    ) implies (e is Constraint || e is LookupAmbiguous || read_failure(e)) by {
                    if let KernelError::LookupMiss(k) = e {
                        let links = links_of(parse_spec(raw_line@)->Ok_0);
                        let n = choose|n: int| 0 <= n < links.len() && links[n] == LinkSpec::ByLookup(k@);
                        assert(links[n] == LinkSpec::ByLookup(k@));
                        assert(repository.spec_answers(ids[n], k@));
                    }
                }
            }
            return Err(e);
        },
    };
    proof {
        assert forall|ids: Seq<NodeId>|
            #[trigger] binds_into_cycle(old(repository), node_id, raw_content@, ids) implies reaches(
            link_graph(&*repository),
            canonical.outgoing_links@,
            node_id,
        ) by {
            crate::canonical::lemma_bound_ids_unique(
                &*repository,
                links_of(parse_spec(raw_line@)->Ok_0),
                ids,
                canonical.outgoing_links@,
            );
        }
    }
    if contains_id(&canonical.outgoing_links, node_id) {
        return Err(
            KernelError::Constraint(message_with_id("node ", node_id, " cannot link to itself")),
        );
    }
    match ensure_no_link_cycle(&*repository, node_id, &canonical.outgoing_links) {
        Ok(()) => {},
        Err(e) => {
            return Err(e);
        },
    }
    let ghost g_old = link_graph(&*repository);
    let ghost pre = *repository;
    let ghost links = canonical.outgoing_links@;
    let record = NodeUpdateRecord {
        node_id,
        content: canonical.content,
        lookup_key: canonical.lookup_key,
        outgoing_links: canonical.outgoing_links,
    };
    let records = vec![record];
    let result = repository.update_node_contents(records.as_slice());
    proof {
        if result is Ok {
            let g_new = link_graph(&*repository);
            assert(records@.len() == 1 && records@[0].node_id == node_id);
            assert(records@.drop_last() =~= Seq::<NodeUpdateRecord>::empty());
            assert forall|x: NodeId| x != node_id implies #[trigger] g_new(x) == g_old(x) by {
                assert(g_new(x) == repository.spec_outgoing(x));
                assert(repository.spec_outgoing(x) == updated_links(records@, x, g_old(x)));
                assert(updated_links(records@.drop_last(), x, g_old(x)) == g_old(x));
                assert(records@.last().node_id != x);
            }
            assert(g_new(node_id) == repository.spec_outgoing(node_id));
            assert(g_new(node_id) == links);
            assert forall|x: NodeId| x != node_id implies #[trigger] repository.spec_node(x)
                == pre.spec_node(x) by {
                assert(records@.last().node_id != x);
                assert(updated_node(records@.drop_last(), x, pre.spec_node(x)) == pre.spec_node(x));
            }
            assert forall|x: NodeId| x != node_id implies #[trigger] repository.spec_outgoing(x)
                == pre.spec_outgoing(x) by {
                assert(records@.last().node_id != x);
                assert(updated_links(records@.drop_last(), x, pre.spec_outgoing(x))
                    == pre.spec_outgoing(x));
            }
            if reaches(g_new, links, node_id) {
                lemma_first_hit(g_old, g_new, links, node_id);
            }
        }
    }
    result
}

/// What a batch of updates must meet before anything is written: each node
/// is updated once, with acceptable text, and a root keeps its shape.
pub open spec fn batch_admissible<R: ReadRepository>(
    repository: &R,
    updates: Seq<(NodeId, String)>,
) -> bool {
    &&& forall|j: int, k: int| 0 <= j < k < updates.len() ==> updates[j].0 != updates[k].0
    &&& forall|k: int|
        0 <= k < updates.len() ==> update_text_ok(
            updates[k].1@,
            repository.spec_is_root(#[trigger] updates[k].0),
        )
    &&& forall|k: int|
        0 <= k < updates.len() ==> (repository.spec_is_root(#[trigger] updates[k].0)
            ==> root_text_failure(trim(updates[k].1@)) is None)
}

/// Validates and canonicalizes several updates and writes them together.
///
/// Each update is validated against the earlier ones of the batch, so later
/// lines may refer to nodes renamed earlier. A node may be updated only
/// once; after a successful batch no updated node lies on a link cycle.
#[verifier::rlimit(60)]
pub fn update_nodes<R: WriteRepository>(
    repository: &mut R,
    updates: &[(NodeId, String)],
) -> (r: KernelResult<()>)
    ensures
        r is Ok ==> forall|k: int|
            0 <= k < updates@.len() ==> !on_cycle(
                link_graph(final(repository)),
                #[trigger] updates@[k].0,
            ),
        r is Ok ==> forall|j: int, k: int|
            0 <= j < k < updates@.len() ==> updates@[j].0 != updates@[k].0,
        r is Ok ==> forall|k: int|
            0 <= k < updates@.len() ==> update_text_ok(
                updates@[k].1@,
                old(repository).spec_is_root(#[trigger] updates@[k].0),
            ),
        r is Ok ==> forall|k: int|
            0 <= k < updates@.len() ==> (old(repository).spec_is_root(#[trigger] updates@[k].0)
                ==> root_text_failure(trim(updates@[k].1@)) is None),
        r is Ok ==> forall|k: int|
            0 <= k < updates@.len() ==> rewritten(
                old(repository).spec_node(#[trigger] updates@[k].0),
                final(repository).spec_node(updates@[k].0),
                updates@[k].1@,
                old(repository).spec_is_root(updates@[k].0),
                final(repository).spec_outgoing(updates@[k].0),
            ),
        r is Ok ==> forall|x: NodeId|
            (forall|k: int| 0 <= k < updates@.len() ==> #[trigger] updates@[k].0 != x) ==> (
            #[trigger] final(repository).spec_node(x) == old(repository).spec_node(x)
                && final(repository).spec_outgoing(x) == old(repository).spec_outgoing(x)),
        r is Ok && updates@.len() > 0 ==> root_keys_distinct(final(repository)),
        updates@.len() == 0 ==> r is Ok && *final(repository) == *old(repository),
        !batch_admissible(old(repository), updates@) ==> r is Err && *final(repository) == *old(repository),
        r is Err ==> same_store(final(repository), old(repository)),
        r is Ok && (forall|x: NodeId| !on_cycle(link_graph(old(repository)), x)) ==> forall|x: NodeId|
            !on_cycle(link_graph(final(repository)), x),
        r is Ok ==> forall|k: int|
            0 <= k < updates@.len() ==> (parse_spec(
                line_text(updates@[k].1@, old(repository).spec_is_root(#[trigger] updates@[k].0)),
            ) matches Ok(fs) && bound_after(
                old(repository),
                renamed_before(old(repository), final(repository), updates@, k),
                links_of(fs),
                final(repository).spec_outgoing(updates@[k].0),
            )),
        updates@.len() > 0 && !update_text_ok(
            updates@[0].1@,
            old(repository).spec_is_root(updates@[0].0),
        ) ==> refused_as(r, Failure::Input),
        updates@.len() > 0 && update_text_ok(
            updates@[0].1@,
            old(repository).spec_is_root(updates@[0].0),
        ) && old(repository).spec_is_root(updates@[0].0) ==> match root_text_failure(
            trim(updates@[0].1@),
        ) {
            Some(k) => refused_as(r, k),
            None => true,
        },
{
    if updates.len() == 0 {
        return Ok(());
    }
    let ghost g_base = link_graph(&*repository);
    let mut canonical_updates: Vec<NodeUpdateRecord> = Vec::new();
    let mut k: usize = 0;
    while k < updates.len()
        invariant
            k <= updates@.len(),
            g_base == link_graph(&*repository),
            canonical_updates@.len() == k,
            forall|j: int| 0 <= j < k ==> (#[trigger] canonical_updates@[j]).node_id == updates@[j].0,
            forall|a: int, b: int|
                0 <= a < b < k ==> canonical_updates@[a].node_id != canonical_updates@[b].node_id,
            forall|j: int|
                0 <= j < k ==> !on_cycle(
                    overlay_graph(g_base, canonical_updates@),
                    #[trigger] canonical_updates@[j].node_id,
                ),
            forall|j: int|
                0 <= j < k ==> update_text_ok(
                    updates@[j].1@,
                    old(repository).spec_is_root(#[trigger] updates@[j].0),
                ),
            forall|j: int|
                0 <= j < k ==> (old(repository).spec_is_root(#[trigger] updates@[j].0)
                    ==> root_text_failure(trim(updates@[j].1@)) is None),
            forall|j: int|
                0 <= j < k ==> canonical_update(
                    updates@[j].1@,
                    old(repository).spec_is_root(updates@[j].0),
                    (#[trigger] canonical_updates@[j]).content@,
                    canonical_updates@[j].outgoing_links@,
                ),
            forall|j: int|
                0 <= j < k ==> (#[trigger] canonical_updates@[j]).lookup_key@ == trim(
                    canonical_updates@[j].content@,
                ),
            forall|j: int|
                0 <= j < k ==> (parse_spec(
                    line_text(updates@[j].1@, old(repository).spec_is_root(#[trigger] updates@[j].0)),
                ) matches Ok(fs) && bound_after(
                    old(repository),
                    renamed_keys(canonical_updates@.take(j)),
                    links_of(fs),
                    canonical_updates@[j].outgoing_links@,
                )),
            *repository == *old(repository),
        decreases updates@.len() - k,
    {
        let node_id = updates[k].0;
        let raw_content = &updates[k].1;
        let mut seen = false;
        let mut s: usize = 0;
        while s < canonical_updates.len()
            invariant
                s <= canonical_updates.len(),
                seen ==> canonical_updates@.len() > 0,
                !seen ==> forall|j: int| 0 <= j < s ==> canonical_updates@[j].node_id != node_id,
            decreases canonical_updates.len() - s,
        {
            if canonical_updates[s].node_id.same(&node_id) {
                seen = true;
            }
            s = s + 1;
        }
        if seen {
            return Err(
                KernelError::Input(message_with_id("node ", node_id, " was updated more than once")),
            );
        }
        let validation_repository = PendingUpdateRepository {
            base: &*repository,
            pending: &canonical_updates,
        };
        let content = match prepare_updated_content(&validation_repository, node_id, raw_content.as_str()) {
            Ok(c) => c,
            Err(e) => {
                return Err(e);
            },
        };
        match validate_root_shape(&validation_repository, node_id, &content) {
            Ok(()) => {},
            Err(e) => {
                return Err(e);
            },
        }
        let canonical = match canonicalize_content(&validation_repository, &content) {
            Ok(c) => c,
            Err(e) => {
                return Err(e);
            },
        };
        let ghost fs_k = parse_spec(content@)->Ok_0;
        proof {
            lemma_pending_bound(&validation_repository, links_of(fs_k), canonical.outgoing_links@);
            assert(validation_repository.pending@ == canonical_updates@);
        }
        if contains_id(&canonical.outgoing_links, node_id) {
            return Err(
                KernelError::Constraint(message_with_id("node ", node_id, " cannot link to itself")),
            );
        }
        let ghost before = canonical_updates@;
        let update = NodeUpdateRecord {
            node_id,
            content: canonical.content,
            lookup_key: canonical.lookup_key,
            outgoing_links: canonical.outgoing_links,
        };
        let links = clone_ids(&update.outgoing_links);
        canonical_updates.push(update);
        let cycle_repository = PendingUpdateRepository {
            base: &*repository,
            pending: &canonical_updates,
        };
        match ensure_no_link_cycle(&cycle_repository, node_id, &links) {
            Ok(()) => {},
            Err(e) => {
                return Err(e);
            },
        }
        proof {
            let g_old = overlay_graph(g_base, before);
            let g_new = overlay_graph(g_base, canonical_updates@);
            assert(canonical_updates@.drop_last() =~= before);
            assert(link_graph(&cycle_repository) =~= g_new);
            assert forall|x: NodeId| x != node_id implies #[trigger] g_new(x) == g_old(x) by {}
            assert(g_new(node_id) == links@);
            assert forall|j: int|
                0 <= j < k + 1 implies !on_cycle(g_new, #[trigger] canonical_updates@[j].node_id) by {
                if j < k {
                    assert(canonical_updates@[j] == before[j]);
                    lemma_cycle_free_extends(g_old, g_new, node_id, before[j].node_id);
                }
            }
            assert forall|j: int| 0 <= j < k + 1 implies (parse_spec(
                line_text(updates@[j].1@, old(repository).spec_is_root(#[trigger] updates@[j].0)),
            ) matches Ok(fs) && bound_after(
                old(repository),
                renamed_keys(canonical_updates@.take(j)),
                links_of(fs),
                canonical_updates@[j].outgoing_links@,
            )) by {
                if j < k {
                    assert(canonical_updates@.take(j) =~= before.take(j));
                    assert(canonical_updates@[j] == before[j]);
                } else {
                    assert(canonical_updates@.take(j) =~= before);
                }
            }
        }
        k = k + 1;
    }
    let final_repository = PendingUpdateRepository {
        base: &*repository,
        pending: &canonical_updates,
    };
    match ensure_unique_root_lookup_keys(&final_repository) {
        Ok(()) => {},
        Err(e) => {
            return Err(e);
        },
    }
    let ghost planned = canonical_updates@;
    let ghost pre = *repository;
    assert(root_keys_distinct(&final_repository));
    assert(batch_admissible(&pre, updates@)) by {
        assert forall|j: int, k: int| 0 <= j < k < updates@.len() implies updates@[j].0
            != updates@[k].0 by {
            assert(planned[j].node_id == updates@[j].0);
            assert(planned[k].node_id == updates@[k].0);
        }
    }
    let result = repository.update_node_contents(canonical_updates.as_slice());
    proof {
        if result is Ok {
            assert(root_keys_distinct(&*repository)) by {
                assert forall|x: NodeId, y: NodeId|
                    #![trigger repository.spec_is_root(x), repository.spec_is_root(y)]
                    x != y && repository.spec_is_root(x) && repository.spec_is_root(y)
                        && repository.spec_node(x) is Some && repository.spec_node(y)
                        is Some implies trim(repository.spec_node(x)->0.content@) != trim(
                    repository.spec_node(y)->0.content@,
                ) by {
                    assert(repository.spec_node(x) == final_repository.spec_node(x));
                    assert(repository.spec_node(y) == final_repository.spec_node(y));
                    assert(final_repository.spec_is_root(x) && final_repository.spec_is_root(y));
                }
            }
            assert forall|k: int| 0 <= k < updates@.len() implies rewritten(
                pre.spec_node(#[trigger] updates@[k].0),
                repository.spec_node(updates@[k].0),
                updates@[k].1@,
                pre.spec_is_root(updates@[k].0),
                repository.spec_outgoing(updates@[k].0),
            ) by {
                let id = updates@[k].0;
                assert(planned[k].node_id == id);
                assert forall|j: int| k + 1 <= j < planned.len() implies (
                #[trigger] planned[j]).node_id != id by {
                    assert(planned[j].node_id == updates@[j].0);
                }
                lemma_updated_node_take(planned, k + 1, id, pre.spec_node(id));
                lemma_updated_links_take(planned, k + 1, id, pre.spec_outgoing(id));
                assert(planned.take(k + 1).last() == planned[k]);
                assert(repository.spec_node(id) == updated_node(planned, id, pre.spec_node(id)));
                assert(repository.spec_outgoing(id) == updated_links(
                    planned,
                    id,
                    pre.spec_outgoing(id),
                ));
            }
            assert forall|x: NodeId|
                (forall|k: int| 0 <= k < updates@.len() ==> #[trigger] updates@[k].0 != x) implies (
            #[trigger] repository.spec_node(x) == pre.spec_node(x) && repository.spec_outgoing(x)
                == pre.spec_outgoing(x)) by {
                assert forall|j: int| 0 <= j < planned.len() implies (
                #[trigger] planned[j]).node_id != x by {
                    assert(planned[j].node_id == updates@[j].0);
                }
                lemma_updated_node_take(planned, 0, x, pre.spec_node(x));
                lemma_updated_links_take(planned, 0, x, pre.spec_outgoing(x));
                assert(repository.spec_node(x) == updated_node(planned, x, pre.spec_node(x)));
                assert(repository.spec_outgoing(x) == updated_links(
                    planned,
                    x,
                    pre.spec_outgoing(x),
                ));
            }
            let g_final = link_graph(&*repository);
            assert(g_final =~= overlay_graph(g_base, planned));
            assert forall|k: int| 0 <= k < updates@.len() implies !on_cycle(
                g_final,
                #[trigger] updates@[k].0,
            ) by {
                assert(planned[k].node_id == updates@[k].0);
            }
            assert forall|j: int, k: int|
                0 <= j < k < updates@.len() implies updates@[j].0 != updates@[k].0 by {
                assert(planned[j].node_id == updates@[j].0);
                assert(planned[k].node_id == updates@[k].0);
            }
            if forall|x: NodeId| !on_cycle(g_base, x) {
                assert forall|y: NodeId| #[trigger] g_final(y) != g_base(y) implies !on_cycle(
                    g_final,
                    y,
                ) by {
                    if forall|k: int| 0 <= k < updates@.len() ==> #[trigger] updates@[k].0 != y {
                        assert forall|j: int| 0 <= j < planned.len() implies (
                        #[trigger] planned[j]).node_id != y by {
                            assert(planned[j].node_id == updates@[j].0);
                        }
                        lemma_updated_links_take(planned, 0, y, pre.spec_outgoing(y));
                        assert(repository.spec_outgoing(y) == updated_links(
                            planned,
                            y,
                            pre.spec_outgoing(y),
                        ));
                    } else {
                        let k = choose|k: int| 0 <= k < updates@.len() && #[trigger] updates@[k].0 == y;
                        assert(!on_cycle(g_final, updates@[k].0));
                    }
                }
                assert forall|x: NodeId| !on_cycle(g_final, x) by {
                    if on_cycle(g_final, x) {
                        lemma_no_new_cycles(g_base, g_final, x);
                    }
                }
            }
            assert forall|k: int| 0 <= k < updates@.len() implies #[trigger] repository.spec_outgoing(
                updates@[k].0,
            ) == planned[k].outgoing_links@ by {
                let id = updates@[k].0;
                assert(planned[k].node_id == id);
                assert forall|j: int| k + 1 <= j < planned.len() implies (
                #[trigger] planned[j]).node_id != id by {
                    assert(planned[j].node_id == updates@[j].0);
                }
                lemma_updated_links_take(planned, k + 1, id, pre.spec_outgoing(id));
                assert(planned.take(k + 1).last() == planned[k]);
            }
            assert forall|k: int| 0 <= k < updates@.len() implies (parse_spec(
                line_text(updates@[k].1@, pre.spec_is_root(#[trigger] updates@[k].0)),
            ) matches Ok(fs) && bound_after(
                &pre,
                renamed_before(&pre, &*repository, updates@, k),
                links_of(fs),
                repository.spec_outgoing(updates@[k].0),
            )) by {
                assert(renamed_keys(planned.take(k)) =~= renamed_before(&pre, &*repository, updates@, k)) by {
                    assert forall|j: int| 0 <= j < k implies #[trigger] renamed_keys(planned.take(k))[j]
                        == renamed_before(&pre, &*repository, updates@, k)[j] by {
                        assert(planned[j].node_id == updates@[j].0);
                        assert(repository.spec_outgoing(updates@[j].0) == planned[j].outgoing_links@);
                        assert(planned.take(k)[j] == planned[j]);
                    }
                }
                assert(repository.spec_outgoing(updates@[k].0) == planned[k].outgoing_links@);
            }
        }
    }
    result
}

} // verus!

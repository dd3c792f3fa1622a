//! The project index block that the maintenance tool keeps in `AGENTS.md`:
//! its text, where it goes in the file, and the ignore patterns it lists.
//!
//! Walking the working tree and asking git which paths are ignored is the
//! tool's own input; these functions compute on what it gathered.
use vstd::prelude::*;
use crate::text::{
    chars_eq, chars_to_string, find_from, find_from_exec, occurs_at, has_char, push_all, starts_with,
    to_chars, trim, trim_chars,
};

verus! {

pub const BEGIN_MARKER: &'static str = "<!-- BEGIN AGENTS_MD_PROJECT_INDEX -->";

pub const END_MARKER: &'static str = "<!-- END AGENTS_MD_PROJECT_INDEX -->";

pub const GUIDANCE_LINE: &'static str = "|IMPORTANT: Prefer retrieval-led reasoning over pre-training-led reasoning for repository-specific behavior, structure, and APIs.";

/// The usage line of the index tool.
pub fn usage() -> (r: String)
    ensures
        r@ == "usage: cargo xtask agents-md-index [update|check|print]"@,
{
    "usage: cargo xtask agents-md-index [update|check|print]".to_owned()
}

fn push_str(out: &mut Vec<char>, s: &str)
    ensures
        final(out)@ == old(out)@ + s@,
{
    let chars = to_chars(s);
    push_all(out, chars.as_slice());
}

// ---------------------------------------------------------------------------
// Relative paths
// ---------------------------------------------------------------------------

/// `child` under `parent`, where `.` is the workspace root.
pub open spec fn joined_path(parent: Seq<char>, child: Seq<char>) -> Seq<char> {
    if parent == seq!['.'] {
        child
    } else {
        parent + seq!['/'] + child
    }
}

pub fn join_relative_path(parent: &str, child: &str) -> (r: String)
    ensures
        r@ == joined_path(parent@, child@),
{
    let p = to_chars(parent);
    let dot = vec!['.'];
    if chars_eq(p.as_slice(), dot.as_slice()) {
        assert(dot@ =~= seq!['.']);
        return chars_to_string(to_chars(child).as_slice());
    }
    assert(dot@ =~= seq!['.']);
    let mut out = p;
    out.push('/');
    push_str(&mut out, child);
    assert(out@ =~= parent@ + seq!['/'] + child@);
    chars_to_string(out.as_slice())
}

// ---------------------------------------------------------------------------
// Ignore patterns
// ---------------------------------------------------------------------------

/// The text with every trailing `/` removed.
pub open spec fn trim_end_slashes(s: Seq<char>) -> Seq<char>
    decreases s.len(),
{
    if s.len() > 0 && s.last() == '/' {
        trim_end_slashes(s.drop_last())
    } else {
        s
    }
}

/// A `.gitignore` line with its escapes resolved, or `None` for a blank
/// line, a negation or a comment.
pub open spec fn unescaped_pattern(line: Seq<char>) -> Option<Seq<char>> {
    let t = trim(line);
    if t.len() == 0 || t[0] == '!' {
        None
    } else if starts_with(t, seq!['\\', '#']) || starts_with(t, seq!['\\', '!']) {
        Some(t.subrange(2, t.len() as int))
    } else if t[0] == '#' {
        None
    } else {
        Some(t)
    }
}

/// The workspace-relative glob that a `.gitignore` line in directory
/// `parent` stands for: anchored or path-like patterns apply under the
/// directory itself, bare names anywhere below it.
pub open spec fn ignore_pattern(parent: Seq<char>, line: Seq<char>) -> Option<Seq<char>> {
    match unescaped_pattern(line) {
        None => None,
        Some(u) => {
            let anchored = u.len() > 0 && u[0] == '/';
            let normalized = if anchored {
                u.drop_first()
            } else {
                u
            };
            if normalized.len() == 0 {
                None
            } else {
                let located = anchored || has_char(trim_end_slashes(normalized), '/');
                if parent.len() == 0 {
                    if located {
                        Some(normalized)
                    } else {
                        Some(seq!['*', '*', '/'] + normalized)
                    }
                } else if located {
                    Some(parent + seq!['/'] + normalized)
                } else {
                    Some(parent + seq!['/', '*', '*', '/'] + normalized)
                }
            }
        },
    }
}

fn trim_end_slashes_exec(s: &Vec<char>) -> (r: Vec<char>)
    ensures
        r@ == trim_end_slashes(s@),
{
    let mut n = s.len();
    assert(s@.subrange(0, n as int) =~= s@);
    while n > 0 && s[n - 1] == '/'
        invariant
            n <= s.len(),
            trim_end_slashes(s@.subrange(0, n as int)) == trim_end_slashes(s@),
        decreases n,
    {
        assert(s@.subrange(0, n as int).drop_last() =~= s@.subrange(0, n - 1));
        n = n - 1;
    }
    let r = crate::text::slice_chars(s, 0, n);
    assert(r@ == s@.subrange(0, n as int));
    r
}

/// Reads one `.gitignore` line of directory `parent` (empty for the
/// workspace root) as a workspace-relative pattern.
pub fn normalize_ignore_pattern(parent: &str, line: &str) -> (r: Option<String>)
    ensures
        match (r, ignore_pattern(parent@, line@)) {
            (Some(p), Some(q)) => p@ == q,
            (None, None) => true,
            _ => false,
        },
{
    let t = trim_chars(&to_chars(line));
    if t.len() == 0 || t[0] == '!' {
        return None;
    }
    let escaped = t.len() >= 2 && t[0] == '\\' && (t[1] == '#' || t[1] == '!');
    proof {
        assert(starts_with(t@, seq!['\\', '#']) == (t@.len() >= 2 && t@[0] == '\\' && t@[1]
            == '#')) by {
            if t@.len() >= 2 {
                assert(t@.subrange(0, 2)[0] == t@[0]);
                assert(t@.subrange(0, 2)[1] == t@[1]);
                if t@[0] == '\\' && t@[1] == '#' {
                    assert(t@.subrange(0, 2) =~= seq!['\\', '#']);
                }
            }
        }
        assert(starts_with(t@, seq!['\\', '!']) == (t@.len() >= 2 && t@[0] == '\\' && t@[1]
            == '!')) by {
            if t@.len() >= 2 {
                assert(t@.subrange(0, 2)[0] == t@[0]);
                assert(t@.subrange(0, 2)[1] == t@[1]);
                if t@[0] == '\\' && t@[1] == '!' {
                    assert(t@.subrange(0, 2) =~= seq!['\\', '!']);
                }
            }
        }
    }
    let unescaped = if escaped {
        crate::text::slice_chars(&t, 2, t.len())
    } else if t[0] == '#' {
        return None;
    } else {
        t
    };
    let anchored = unescaped.len() > 0 && unescaped[0] == '/';
    let normalized = if anchored {
        crate::text::slice_chars(&unescaped, 1, unescaped.len())
    } else {
        unescaped
    };
    proof {
        if anchored {
            assert(normalized@ =~= unescaped@.drop_first());
        }
    }
    if normalized.len() == 0 {
        return None;
    }
    let located = anchored || crate::domain::has_char_exec(
        trim_end_slashes_exec(&normalized).as_slice(),
        '/',
    );
    let mut out: Vec<char> = Vec::new();
    let parent_chars = to_chars(parent);
    if parent_chars.len() == 0 {
        if !located {
            push_str(&mut out, "**/");
        }
    } else {
        push_all(&mut out, parent_chars.as_slice());
        if located {
            out.push('/');
        } else {
            push_str(&mut out, "/**/");
        }
    }
    push_all(&mut out, normalized.as_slice());
    proof {
        reveal_strlit("**/");
        reveal_strlit("/**/");
        let q = ignore_pattern(parent@, line@)->0;
        if parent@.len() == 0 {
            if located {
                assert(out@ =~= normalized@);
            } else {
                assert(out@ =~= seq!['*', '*', '/'] + normalized@);
            }
        } else if located {
            assert(out@ =~= parent@ + seq!['/'] + normalized@);
        } else {
            assert(out@ =~= parent@ + seq!['/', '*', '*', '/'] + normalized@);
        }
    }
    Some(chars_to_string(out.as_slice()))
}

// ---------------------------------------------------------------------------
// The index block
// ---------------------------------------------------------------------------

/// What the tool gathered: each directory with its listed children, in path
/// order, and the excluded directories and files.
pub struct IndexState {
    pub entries: Vec<(String, Vec<String>)>,
    pub exclude_dirs: Vec<String>,
    pub exclude_files: Vec<String>,
}

/// The items separated by commas.
pub open spec fn comma_joined(items: Seq<String>) -> Seq<char>
    decreases items.len(),
{
    if items.len() == 0 {
        seq![]
    } else if items.len() == 1 {
        items[0]@
    } else {
        comma_joined(items.drop_last()) + seq![','] + items.last()@
    }
}

/// `|name:{a,b}` and a line break.
pub open spec fn index_line(name: Seq<char>, items: Seq<String>) -> Seq<char> {
    seq!['|'] + name + seq![':', '{'] + comma_joined(items) + seq!['}', '\n']
}

pub open spec fn entry_lines(entries: Seq<(String, Vec<String>)>) -> Seq<char>
    decreases entries.len(),
{
    if entries.len() == 0 {
        seq![]
    } else {
        entry_lines(entries.drop_last()) + index_line(entries.last().0@, entries.last().1@)
    }
}

/// The whole block, markers included.
pub open spec fn index_block(state: IndexState) -> Seq<char> {
    BEGIN_MARKER@ + seq!['\n'] + "```text\n"@ + "[Project Index]|root:.\n"@ + GUIDANCE_LINE@ + seq![
        '\n',
    ] + index_line("exclude_dirs"@, state.exclude_dirs@) + index_line(
        "exclude_files"@,
        state.exclude_files@,
    ) + entry_lines(state.entries@) + "```\n"@ + END_MARKER@ + seq!['\n']
}

fn push_joined(out: &mut Vec<char>, items: &Vec<String>)
    ensures
        final(out)@ == old(out)@ + comma_joined(items@),
{
    let mut k: usize = 0;
    while k < items.len()
        invariant
            k <= items.len(),
            out@ == old(out)@ + comma_joined(items@.take(k as int)),
        decreases items.len() - k,
    {
        let ghost before = out@;
        if k > 0 {
            out.push(',');
        }
        push_str(out, items[k].as_str());
        proof {
            let t = items@.take(k + 1);
            assert(t.drop_last() =~= items@.take(k as int));
            if k == 0 {
                assert(comma_joined(items@.take(0)) =~= Seq::<char>::empty());
                assert(out@ =~= old(out)@ + comma_joined(t));
            } else {
                assert(out@ =~= old(out)@ + comma_joined(t));
            }
        }
        k = k + 1;
    }
    assert(items@.take(k as int) =~= items@);
}

fn push_index_line(out: &mut Vec<char>, name: &str, items: &Vec<String>)
    ensures
        final(out)@ == old(out)@ + index_line(name@, items@),
{
    out.push('|');
    push_str(out, name);
    out.push(':');
    out.push('{');
    push_joined(out, items);
    out.push('}');
    out.push('\n');
    assert(out@ =~= old(out)@ + index_line(name@, items@));
}

/// The index block for what the tool gathered.
pub fn render_index_block(state: &IndexState) -> (r: String)
    ensures
        r@ == index_block(*state),
{
    let mut out: Vec<char> = Vec::new();
    push_str(&mut out, BEGIN_MARKER);
    out.push('\n');
    push_str(&mut out, "```text\n");
    push_str(&mut out, "[Project Index]|root:.\n");
    push_str(&mut out, GUIDANCE_LINE);
    out.push('\n');
    push_index_line(&mut out, "exclude_dirs", &state.exclude_dirs);
    push_index_line(&mut out, "exclude_files", &state.exclude_files);
    let ghost head = out@;
    let mut k: usize = 0;
    while k < state.entries.len()
        invariant
            k <= state.entries@.len(),
            out@ == head + entry_lines(state.entries@.take(k as int)),
        decreases state.entries@.len() - k,
    {
        let ghost before = out@;
        let entry = &state.entries[k];
        push_index_line(&mut out, entry.0.as_str(), &entry.1);
        assert(state.entries@.take(k + 1).drop_last() =~= state.entries@.take(k as int));
        k = k + 1;
    }
    assert(state.entries@.take(k as int) =~= state.entries@);
    push_str(&mut out, "```\n");
    push_str(&mut out, END_MARKER);
    out.push('\n');
    assert(out@ =~= index_block(*state));
    chars_to_string(out.as_slice())
}

// ---------------------------------------------------------------------------
// Placing the block in AGENTS.md
// ---------------------------------------------------------------------------

/// The text with its leading line feeds removed.
pub open spec fn trim_start_newlines(s: Seq<char>) -> Seq<char>
    decreases s.len(),
{
    if s.len() > 0 && s[0] == '\n' {
        trim_start_newlines(s.drop_first())
    } else {
        s
    }
}

/// The only position of `marker` in `s`, if it occurs exactly once.
pub open spec fn sole_position(s: Seq<char>, marker: Seq<char>) -> Option<int> {
    match find_from(s, marker, 0) {
        Some(i) => if find_from(s, marker, i + 1) is None {
            Some(i)
        } else {
            None
        },
        None => None,
    }
}

/// `AGENTS.md` with the block put in place: appended after a blank line
/// when the file has no markers, put between the prefix before the begin
/// marker and what follows the end marker when each occurs once in order,
/// refused otherwise.
pub open spec fn upserted(current: Seq<char>, block: Seq<char>) -> Result<Seq<char>, Seq<char>> {
    let b = find_from(current, BEGIN_MARKER@, 0);
    let e = find_from(current, END_MARKER@, 0);
    if b is None && e is None {
        let separated = current.len() == 0 || (current.len() >= 2 && current[current.len() - 2]
            == '\n' && current.last() == '\n');
        Ok(current + (if separated {
            seq![]
        } else {
            seq!['\n', '\n']
        }) + block)
    } else {
        match (sole_position(current, BEGIN_MARKER@), sole_position(current, END_MARKER@)) {
            (Some(bi), Some(ei)) => if bi > ei {
                Err("AGENTS.md index markers are out of order"@)
            } else {
                Ok(
                    current.subrange(0, bi) + block + trim_start_newlines(
                        current.subrange(ei + END_MARKER@.len(), current.len() as int),
                    ),
                )
            },
            _ => Err("AGENTS.md index markers must appear at most once each"@),
        }
    }
}

fn sole_position_exec(s: &Vec<char>, marker: &Vec<char>) -> (r: (Option<usize>, bool))
    ensures
        r.0 matches Some(i) ==> find_from(s@, marker@, 0) == Some(i as int),
        r.0 is None <==> find_from(s@, marker@, 0) is None,
        r.1 == sole_position(s@, marker@) is Some,
        r.1 ==> sole_position(s@, marker@) == Some(r.0->0 as int),
{
    match find_from_exec(s.as_slice(), marker.as_slice(), 0) {
        None => (None, false),
        Some(i) => {
            proof {
                crate::syntax::lemma_find_from_bounds(s@, marker@, 0);
            }
            if i < s.len() {
                let again = find_from_exec(s.as_slice(), marker.as_slice(), i + 1);
                (Some(i), again.is_none())
            } else {
                (Some(i), true)
            }
        },
    }
}

fn trim_start_newlines_exec(s: &Vec<char>, from: usize) -> (r: Vec<char>)
    requires
        from <= s@.len(),
    ensures
        r@ == trim_start_newlines(s@.subrange(from as int, s@.len() as int)),
{
    let mut i = from;
    while i < s.len() && s[i] == '\n'
        invariant
            from <= i <= s@.len(),
            trim_start_newlines(s@.subrange(i as int, s@.len() as int)) == trim_start_newlines(
                s@.subrange(from as int, s@.len() as int),
            ),
        decreases s.len() - i,
    {
        assert(s@.subrange(i as int, s@.len() as int).drop_first() =~= s@.subrange(
            i + 1,
            s@.len() as int,
        ));
        i = i + 1;
    }
    crate::text::slice_chars(s, i, s.len())
}

/// Puts the rendered block in place in the text of `AGENTS.md`.
pub fn upsert_index_block(current: &str, rendered_block: &str) -> (r: Result<String, String>)
    ensures
        match (r, upserted(current@, rendered_block@)) {
            (Ok(a), Ok(b)) => a@ == b,
            (Err(a), Err(b)) => a@ == b,
            _ => false,
        },
{
    let c = to_chars(current);
    let begin = to_chars(BEGIN_MARKER);
    let end = to_chars(END_MARKER);
    let (b, b_sole) = sole_position_exec(&c, &begin);
    let (e, e_sole) = sole_position_exec(&c, &end);
    if b.is_none() && e.is_none() {
        let n = c.len();
        let separated = n == 0 || (n >= 2 && c[n - 2] == '\n' && c[n - 1] == '\n');
        let mut out = c;
        if !separated {
            out.push('\n');
            out.push('\n');
        }
        push_str(&mut out, rendered_block);
        proof {
            if separated {
                assert(out@ =~= current@ + Seq::<char>::empty() + rendered_block@);
            } else {
                assert(out@ =~= current@ + seq!['\n', '\n'] + rendered_block@);
            }
        }
        return Ok(chars_to_string(out.as_slice()));
    }
    if !(b_sole && e_sole) {
        return Err("AGENTS.md index markers must appear at most once each".to_owned());
    }
    let bi = b.unwrap();
    let ei = e.unwrap();
    if bi > ei {
        return Err("AGENTS.md index markers are out of order".to_owned());
    }
    proof {
        crate::syntax::lemma_find_from_bounds(c@, end@, 0);
        assert(occurs_at(c@, end@, ei as int));
    }
    assert(ei + end.len() <= c.len());
    let mut out = crate::text::slice_chars(&c, 0, bi);
    push_str(&mut out, rendered_block);
    let rest = trim_start_newlines_exec(&c, ei + end.len());
    push_all(&mut out, rest.as_slice());
    Ok(chars_to_string(out.as_slice()))
}

// ---------------------------------------------------------------------------
// Placing the block again
// ---------------------------------------------------------------------------

/// A block fit to be put in place: it starts with the begin marker, ends
/// with the end marker and a line feed, and holds each marker once.
pub open spec fn placeable(block: Seq<char>) -> bool {
    &&& block.len() >= END_MARKER@.len() + 1
    &&& occurs_at(block, BEGIN_MARKER@, 0)
    &&& occurs_at(block, END_MARKER@, block.len() - END_MARKER@.len() - 1)
    &&& block.last() == '\n'
    &&& forall|k: int| k != 0 ==> !occurs_at(block, BEGIN_MARKER@, k)
    &&& forall|k: int|
        k != block.len() - END_MARKER@.len() - 1 ==> !occurs_at(block, END_MARKER@, k)
}

/// `m` occurs nowhere in `s`.
pub open spec fn free_of(s: Seq<char>, m: Seq<char>) -> bool {
    forall|k: int| !#[trigger] occurs_at(s, m, k)
}

/// Where a marker stands in a placeable block.
pub open spec fn marker_position(block: Seq<char>, m: Seq<char>) -> int {
    if m == BEGIN_MARKER@ {
        0
    } else {
        block.len() - END_MARKER@.len() - 1
    }
}

proof fn lemma_marker_chars()
    ensures
        BEGIN_MARKER@.len() == END_MARKER@.len() + 2,
        END_MARKER@.len() > 5,
        BEGIN_MARKER@ != END_MARKER@,
        BEGIN_MARKER@[0] == '<',
        END_MARKER@[0] == '<',
        forall|t: int| 0 < t < BEGIN_MARKER@.len() ==> BEGIN_MARKER@[t] != '<',
        forall|t: int| 0 < t < END_MARKER@.len() ==> END_MARKER@[t] != '<',
        forall|t: int| 0 <= t < BEGIN_MARKER@.len() ==> BEGIN_MARKER@[t] != '\n',
        forall|t: int| 0 <= t < END_MARKER@.len() ==> END_MARKER@[t] != '\n',
        BEGIN_MARKER@[5] != END_MARKER@[5],
{
    reveal_strlit("<!-- BEGIN AGENTS_MD_PROJECT_INDEX -->");
    reveal_strlit("<!-- END AGENTS_MD_PROJECT_INDEX -->");
}

proof fn lemma_free_finds_none(s: Seq<char>, m: Seq<char>, from: int)
    requires
        0 <= from,
        forall|k: int| from <= k ==> !#[trigger] occurs_at(s, m, k),
    ensures
        find_from(s, m, from) is None,
    decreases s.len() + 1 - from,
{
    if from + m.len() <= s.len() {
        assert(!occurs_at(s, m, from));
        lemma_free_finds_none(s, m, from + 1);
    }
}

proof fn lemma_sole_occurrence(s: Seq<char>, m: Seq<char>, i: int)
    requires
        occurs_at(s, m, i),
        forall|k: int| k != i ==> !#[trigger] occurs_at(s, m, k),
    ensures
        find_from(s, m, 0) == Some(i),
        sole_position(s, m) == Some(i),
{
    crate::printing::lemma_find_from_first(s, m, 0, i);
    lemma_free_finds_none(s, m, i + 1);
}

/// Line feeds after text free of a marker without line feeds leave it free.
proof fn lemma_free_with_newlines(a: Seq<char>, b: Seq<char>, m: Seq<char>)
    requires
        m.len() > 0,
        free_of(a, m),
        forall|j: int| 0 <= j < b.len() ==> b[j] == '\n',
        forall|t: int| 0 <= t < m.len() ==> m[t] != '\n',
    ensures
        free_of(a + b, m),
{
    assert forall|k: int| !#[trigger] occurs_at(a + b, m, k) by {
        if occurs_at(a + b, m, k) {
            if k + m.len() <= a.len() {
                assert(a.subrange(k, k + m.len()) =~= (a + b).subrange(k, k + m.len()));
                assert(occurs_at(a, m, k));
            } else {
                let last = k + m.len() - 1;
                assert((a + b).subrange(k, k + m.len())[m.len() - 1] == (a + b)[last]);
                assert((a + b)[last] == b[last - a.len()]);
            }
        }
    }
}

/// A piece of `s` holds a marker only where `s` does.
proof fn lemma_free_piece(s: Seq<char>, m: Seq<char>, from: int, to: int)
    requires
        0 <= from <= to <= s.len(),
        forall|k: int| from <= k && k + m.len() <= to ==> !#[trigger] occurs_at(s, m, k),
    ensures
        free_of(s.subrange(from, to), m),
{
    assert forall|k: int| !#[trigger] occurs_at(s.subrange(from, to), m, k) by {
        if occurs_at(s.subrange(from, to), m, k) {
            assert(s.subrange(from + k, from + k + m.len()) =~= s.subrange(from, to).subrange(
                k,
                k + m.len(),
            ));
            assert(occurs_at(s, m, from + k));
        }
    }
}

/// In a placeable block between marker-free text, each marker stands only
/// where the block has it.
proof fn lemma_framed(p: Seq<char>, block: Seq<char>, s: Seq<char>, m: Seq<char>)
    requires
        placeable(block),
        m == BEGIN_MARKER@ || m == END_MARKER@,
        free_of(p, m),
        free_of(s, m),
    ensures
        forall|k: int|
            #[trigger] occurs_at(p + block + s, m, k) <==> k == p.len() + marker_position(block, m),
{
    lemma_marker_chars();
    let r = p + block + s;
    let pos = marker_position(block, m);
    let eb = block.len() - END_MARKER@.len() - 1;
    assert(occurs_at(block, m, pos));
    assert(r.subrange(p.len() + pos, p.len() + pos + m.len()) =~= block.subrange(
        pos,
        pos + m.len(),
    ));
    assert forall|k: int| #[trigger] occurs_at(r, m, k) implies k == p.len() + pos by {
        let w = r.subrange(k, k + m.len());
        assert(w == m);
        if k + m.len() <= p.len() {
            assert(p.subrange(k, k + m.len()) =~= w);
            assert(occurs_at(p, m, k));
        } else if k < p.len() {
            let t = p.len() - k;
            assert(w[t] == r[p.len() as int]);
            assert(r[p.len() as int] == block[0]);
            assert(block[0] == block.subrange(0, BEGIN_MARKER@.len() as int)[0]);
        } else if k + m.len() <= p.len() + block.len() {
            assert(block.subrange(k - p.len(), k - p.len() + m.len()) =~= w);
            assert(occurs_at(block, m, k - p.len()));
        } else if k < p.len() + block.len() {
            let t0 = k - p.len();
            assert(w[0] == r[k]);
            assert(r[k] == block[t0]);
            assert(block.subrange(eb, eb + END_MARKER@.len() as int) == END_MARKER@);
            if t0 == block.len() - 1 {
            } else if t0 > eb {
                assert(block[t0] == block.subrange(eb, eb + END_MARKER@.len() as int)[t0 - eb]);
            } else {
                assert(m == BEGIN_MARKER@);
                assert(t0 == eb);
                assert(w[5] == r[k + 5]);
                assert(r[k + 5] == block[eb + 5]);
                assert(block[eb + 5] == block.subrange(eb, eb + END_MARKER@.len() as int)[5]);
            }
        } else {
            assert(s.subrange(k - p.len() - block.len(), k - p.len() - block.len() + m.len())
                =~= w);
            assert(occurs_at(s, m, k - p.len() - block.len()));
        }
    }
}

proof fn lemma_trim_suffix(x: Seq<char>) -> (d: int)
    ensures
        0 <= d <= x.len(),
        trim_start_newlines(x) == x.subrange(d, x.len() as int),
        trim_start_newlines(x).len() == 0 || trim_start_newlines(x)[0] != '\n',
    decreases x.len(),
{
    if x.len() > 0 && x[0] == '\n' {
        let d = lemma_trim_suffix(x.drop_first());
        assert(x.drop_first().subrange(d, x.drop_first().len() as int) =~= x.subrange(
            d + 1,
            x.len() as int,
        ));
        d + 1
    } else {
        assert(x.subrange(0, x.len() as int) =~= x);
        0
    }
}

/// Putting a placeable block in place twice gives what putting it once
/// gave: once the tool has updated `AGENTS.md`, a check finds it current.
pub proof fn law_upsert_is_idempotent(current: Seq<char>, block: Seq<char>)
    requires
        placeable(block),
        upserted(current, block) is Ok,
    ensures
        upserted(upserted(current, block)->Ok_0, block) == upserted(current, block),
{
    lemma_marker_chars();
    let begin = BEGIN_MARKER@;
    let end = END_MARKER@;
    let eb = block.len() - end.len() - 1;
    let b = find_from(current, begin, 0);
    let e = find_from(current, end, 0);
    let mut p: Seq<char> = seq![];
    let mut s: Seq<char> = seq![];
    if b is None && e is None {
        crate::printing::lemma_find_from_none(current, begin, 0);
        crate::printing::lemma_find_from_none(current, end, 0);
        let separated = current.len() == 0 || (current.len() >= 2 && current[current.len() - 2]
            == '\n' && current.last() == '\n');
        let sep: Seq<char> = if separated {
            seq![]
        } else {
            seq!['\n', '\n']
        };
        assert(free_of(current, begin));
        assert(free_of(current, end));
        lemma_free_with_newlines(current, sep, begin);
        lemma_free_with_newlines(current, sep, end);
        p = current + sep;
        assert(upserted(current, block) == Ok::<Seq<char>, Seq<char>>(p + block));
        assert(p + block == p + block + s);
    } else {
        let bi = sole_position(current, begin)->0;
        let ei = sole_position(current, end)->0;
        crate::syntax::lemma_find_from_bounds(current, begin, 0);
        crate::syntax::lemma_find_from_bounds(current, end, 0);
        crate::printing::lemma_find_from_none(current, begin, bi + 1);
        crate::printing::lemma_find_from_none(current, end, ei + 1);
        let q = ei + end.len();
        let rest = current.subrange(q, current.len() as int);
        let d = lemma_trim_suffix(rest);
        assert(rest.subrange(d, rest.len() as int) =~= current.subrange(q + d, current.len() as int));
        lemma_free_piece(current, begin, 0, bi);
        lemma_free_piece(current, end, 0, bi);
        lemma_free_piece(current, begin, q + d, current.len() as int);
        lemma_free_piece(current, end, q + d, current.len() as int);
        p = current.subrange(0, bi);
        s = trim_start_newlines(rest);
    }
    assert(upserted(current, block) == Ok::<Seq<char>, Seq<char>>(p + block + s));
    assert(s.len() == 0 || s[0] != '\n') by {
        if !(b is None && e is None) {
            let rest = current.subrange(
                sole_position(current, END_MARKER@)->0 + END_MARKER@.len(),
                current.len() as int,
            );
            let d = lemma_trim_suffix(rest);
        }
    }
    lemma_framed(p, block, s, begin);
    lemma_framed(p, block, s, end);
    let r = p + block + s;
    lemma_sole_occurrence(r, begin, p.len() as int);
    lemma_sole_occurrence(r, end, p.len() + eb);
    assert(r.subrange(0, p.len() as int) =~= p);
    assert(r.subrange(p.len() + eb + end.len(), r.len() as int) =~= seq!['\n'] + s);
    assert((seq!['\n'] + s).drop_first() =~= s);
    assert(trim_start_newlines(s) == s);
}

/// No text of the state holds a `<`.
pub open spec fn state_without_angle(state: IndexState) -> bool {
    &&& forall|i: int|
        0 <= i < state.exclude_dirs@.len() ==> !has_char(#[trigger] state.exclude_dirs@[i]@, '<')
    &&& forall|i: int|
        0 <= i < state.exclude_files@.len() ==> !has_char(#[trigger] state.exclude_files@[i]@, '<')
    &&& forall|i: int|
        0 <= i < state.entries@.len() ==> !has_char((#[trigger] state.entries@[i]).0@, '<')
            && forall|j: int|
            0 <= j < state.entries@[i].1@.len() ==> !has_char(
                #[trigger] state.entries@[i].1@[j]@,
                '<',
            )
}

proof fn lemma_has_char_concat(a: Seq<char>, b: Seq<char>, c: char)
    ensures
        has_char(a + b, c) == (has_char(a, c) || has_char(b, c)),
{
    if has_char(a + b, c) {
        let i = choose|i: int| 0 <= i < (a + b).len() && (a + b)[i] == c;
        if i < a.len() {
            assert(a[i] == c);
        } else {
            assert(b[i - a.len()] == c);
        }
    }
    if has_char(a, c) {
        let i = choose|i: int| 0 <= i < a.len() && a[i] == c;
        assert((a + b)[i] == c);
    }
    if has_char(b, c) {
        let i = choose|i: int| 0 <= i < b.len() && b[i] == c;
        assert((a + b)[a.len() + i] == c);
    }
}

proof fn lemma_joined_without(items: Seq<String>)
    requires
        forall|i: int| 0 <= i < items.len() ==> !has_char(#[trigger] items[i]@, '<'),
    ensures
        !has_char(comma_joined(items), '<'),
    decreases items.len(),
{
    if items.len() == 1 {
        assert(!has_char(items[0]@, '<'));
    } else if items.len() > 1 {
        assert forall|i: int| 0 <= i < items.drop_last().len() implies !has_char(
            #[trigger] items.drop_last()[i]@,
            '<',
        ) by {
            assert(items.drop_last()[i] == items[i]);
        }
        lemma_joined_without(items.drop_last());
        lemma_has_char_concat(comma_joined(items.drop_last()), seq![','], '<');
        lemma_has_char_concat(comma_joined(items.drop_last()) + seq![','], items.last()@, '<');
        assert(!has_char(items.last()@, '<'));
        assert(!has_char(seq![','], '<'));
    }
}

proof fn lemma_line_without(name: Seq<char>, items: Seq<String>)
    requires
        !has_char(name, '<'),
        forall|i: int| 0 <= i < items.len() ==> !has_char(#[trigger] items[i]@, '<'),
    ensures
        !has_char(index_line(name, items), '<'),
{
    lemma_joined_without(items);
    let j = comma_joined(items);
    lemma_has_char_concat(seq!['|'], name, '<');
    lemma_has_char_concat(seq!['|'] + name, seq![':', '{'], '<');
    lemma_has_char_concat(seq!['|'] + name + seq![':', '{'], j, '<');
    lemma_has_char_concat(seq!['|'] + name + seq![':', '{'] + j, seq!['}', '\n'], '<');
    assert(!has_char(seq!['|'], '<'));
    assert(!has_char(seq![':', '{'], '<'));
    assert(!has_char(seq!['}', '\n'], '<'));
}

proof fn lemma_entries_without(entries: Seq<(String, Vec<String>)>)
    requires
        forall|i: int|
            0 <= i < entries.len() ==> !has_char((#[trigger] entries[i]).0@, '<') && forall|j: int|
                0 <= j < entries[i].1@.len() ==> !has_char(#[trigger] entries[i].1@[j]@, '<'),
    ensures
        !has_char(entry_lines(entries), '<'),
    decreases entries.len(),
{
    if entries.len() > 0 {
        assert forall|i: int| 0 <= i < entries.drop_last().len() implies !has_char(
            (#[trigger] entries.drop_last()[i]).0@,
            '<',
        ) && forall|j: int|
            0 <= j < entries.drop_last()[i].1@.len() ==> !has_char(
                #[trigger] entries.drop_last()[i].1@[j]@,
                '<',
            ) by {
            assert(entries.drop_last()[i] == entries[i]);
        }
        lemma_entries_without(entries.drop_last());
        let last = entries.last();
        assert(last == entries[entries.len() - 1]);
        lemma_line_without(last.0@, last.1@);
        lemma_has_char_concat(entry_lines(entries.drop_last()), index_line(last.0@, last.1@), '<');
    }
}

/// A rendered index block whose texts hold no `<` can be put in place:
/// its markers stand only at its start and its end.
pub proof fn lemma_rendered_block_placeable(state: IndexState)
    requires
        state_without_angle(state),
    ensures
        placeable(index_block(state)),
{
    lemma_marker_chars();
    reveal_strlit("```text\n");
    reveal_strlit("[Project Index]|root:.\n");
    reveal_strlit("|IMPORTANT: Prefer retrieval-led reasoning over pre-training-led reasoning for repository-specific behavior, structure, and APIs.");
    reveal_strlit("exclude_dirs");
    reveal_strlit("exclude_files");
    reveal_strlit("```\n");
    let begin = BEGIN_MARKER@;
    let end = END_MARKER@;
    let dirs = index_line("exclude_dirs"@, state.exclude_dirs@);
    let files = index_line("exclude_files"@, state.exclude_files@);
    let entries = entry_lines(state.entries@);
    let mid = seq!['\n'] + "```text\n"@ + "[Project Index]|root:.\n"@ + GUIDANCE_LINE@ + seq!['\n']
        + dirs + files + entries + "```\n"@;
    let block = index_block(state);
    assert(block =~= begin + mid + end + seq!['\n']);
    assert(!has_char("exclude_dirs"@, '<'));
    assert(!has_char("exclude_files"@, '<'));
    lemma_line_without("exclude_dirs"@, state.exclude_dirs@);
    lemma_line_without("exclude_files"@, state.exclude_files@);
    lemma_entries_without(state.entries@);
    assert(!has_char(seq!['\n'] + "```text\n"@ + "[Project Index]|root:.\n"@ + GUIDANCE_LINE@
        + seq!['\n'], '<')) by {
        assert(forall|i: int|
            0 <= i < GUIDANCE_LINE@.len() ==> GUIDANCE_LINE@[i] != '<');
        lemma_has_char_concat(seq!['\n'], "```text\n"@, '<');
        lemma_has_char_concat(seq!['\n'] + "```text\n"@, "[Project Index]|root:.\n"@, '<');
        lemma_has_char_concat(
            seq!['\n'] + "```text\n"@ + "[Project Index]|root:.\n"@,
            GUIDANCE_LINE@,
            '<',
        );
        lemma_has_char_concat(
            seq!['\n'] + "```text\n"@ + "[Project Index]|root:.\n"@ + GUIDANCE_LINE@,
            seq!['\n'],
            '<',
        );
    }
    let head = seq!['\n'] + "```text\n"@ + "[Project Index]|root:.\n"@ + GUIDANCE_LINE@ + seq![
        '\n',
    ];
    lemma_has_char_concat(head, dirs, '<');
    lemma_has_char_concat(head + dirs, files, '<');
    lemma_has_char_concat(head + dirs + files, entries, '<');
    lemma_has_char_concat(head + dirs + files + entries, "```\n"@, '<');
    assert(!has_char("```\n"@, '<'));
    assert(mid =~= head + dirs + files + entries + "```\n"@);
    assert(!has_char(mid, '<'));
    let eb = block.len() - end.len() - 1;
    assert(eb == begin.len() + mid.len());
    assert(block.subrange(0, begin.len() as int) =~= begin);
    assert(block.subrange(eb, eb + end.len()) =~= end);
    // a marker can only start where the block has a `<`
    assert forall|k: int, m: Seq<char>|
        (m == begin || m == end) && #[trigger] occurs_at(block, m, k) implies (k == 0 && m == begin)
        || (k == eb && m == end) by {
        assert(block.subrange(k, k + m.len())[0] == block[k]);
        assert(block[k] == '<');
        if 0 < k < begin.len() {
            assert(block[k] == begin[k]);
        } else if begin.len() <= k < eb {
            assert(block[k] == mid[k - begin.len()]);
        } else if eb < k < eb + end.len() {
            assert(block[k] == end[k - eb]);
        } else if k == block.len() - 1 {
        } else if k == 0 {
            if m == end {
                assert(block.subrange(k, k + m.len())[5] == block[5]);
                assert(block[5] == begin[5]);
            }
        } else {
            assert(k == eb);
            if m == begin {
                assert(eb + begin.len() > block.len());
            }
        }
    }
}

} // verus!

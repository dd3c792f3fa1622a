//! What the index tool makes of the working tree it walked: ordered sets of
//! paths, the listing of each directory, the ignore patterns of the
//! `.gitignore` files it found, and the answers of `git`.
//!
//! Reading directories and files and running `git` is the tool's own input;
//! these functions compute on what it gathered.
use vstd::prelude::*;
use crate::text::{chars_eq, chars_to_string, to_chars};
use crate::project_index::{
    ignore_pattern, join_relative_path, joined_path, normalize_ignore_pattern, IndexState,
};
use std::path::PathBuf;
use crate::write::{split_lines, split_lines_exec};
use vstd::utf8::{decode_utf8, valid_utf8};

verus! {

// ---------------------------------------------------------------------------
// The order of texts
// ---------------------------------------------------------------------------

/// `a` comes before `b`: compared character by character, a proper prefix
/// first. On UTF-8 text this is the byte order in which `String`s sort.
pub open spec fn text_lt(a: Seq<char>, b: Seq<char>) -> bool
    decreases a.len(),
{
    if a.len() == 0 {
        b.len() > 0
    } else if b.len() == 0 {
        false
    } else if a[0] != b[0] {
        (a[0] as u32) < (b[0] as u32)
    } else {
        text_lt(a.drop_first(), b.drop_first())
    }
}

pub proof fn lemma_text_lt_irreflexive(a: Seq<char>)
    ensures
        !text_lt(a, a),
    decreases a.len(),
{
    if a.len() > 0 {
        lemma_text_lt_irreflexive(a.drop_first());
    }
}

pub proof fn lemma_text_lt_total(a: Seq<char>, b: Seq<char>)
    ensures
        a != b ==> text_lt(a, b) || text_lt(b, a),
        !(text_lt(a, b) && text_lt(b, a)),
    decreases a.len(),
{
    if a.len() > 0 && b.len() > 0 {
        if a[0] == b[0] {
            lemma_text_lt_total(a.drop_first(), b.drop_first());
            if a != b {
                assert(a.drop_first() != b.drop_first()) by {
                    if a.drop_first() == b.drop_first() {
                        assert(a =~= seq![a[0]] + a.drop_first());
                        assert(b =~= seq![b[0]] + b.drop_first());
                    }
                }
            }
        } else {
            vstd::utf8::char_u32_cast(a[0], a[0] as u32);
            vstd::utf8::char_u32_cast(b[0], b[0] as u32);
        }
    } else if a.len() == 0 && b.len() == 0 {
        assert(a =~= b);
    }
}

pub proof fn lemma_text_lt_transitive(a: Seq<char>, b: Seq<char>, c: Seq<char>)
    requires
        text_lt(a, b),
        text_lt(b, c),
    ensures
        text_lt(a, c),
    decreases a.len(),
{
    if a.len() > 0 && b.len() > 0 && c.len() > 0 {
        if a[0] == b[0] && b[0] == c[0] {
            lemma_text_lt_transitive(a.drop_first(), b.drop_first(), c.drop_first());
        }
    }
}

proof fn lemma_text_lt_skip(a: Seq<char>, b: Seq<char>, i: int)
    requires
        0 <= i <= a.len(),
        i <= b.len(),
        a.take(i) == b.take(i),
    ensures
        text_lt(a, b) == text_lt(a.skip(i), b.skip(i)),
    decreases i,
{
    if i > 0 {
        assert(a[0] == a.take(i)[0]);
        assert(b[0] == b.take(i)[0]);
        assert(a.drop_first().take(i - 1) =~= a.take(i).drop_first());
        assert(b.drop_first().take(i - 1) =~= b.take(i).drop_first());
        lemma_text_lt_skip(a.drop_first(), b.drop_first(), i - 1);
        assert(a.drop_first().skip(i - 1) =~= a.skip(i));
        assert(b.drop_first().skip(i - 1) =~= b.skip(i));
    } else {
        assert(a.skip(0) =~= a);
        assert(b.skip(0) =~= b);
    }
}

/// Whether `a` comes before `b`.
pub fn text_less(a: &str, b: &str) -> (r: bool)
    ensures
        r == text_lt(a@, b@),
{
    let x = to_chars(a);
    let y = to_chars(b);
    let mut i: usize = 0;
    assert(x@.skip(0) =~= x@ && y@.skip(0) =~= y@);
    while i < x.len() && i < y.len() && x[i] == y[i]
        invariant
            i <= x@.len(),
            i <= y@.len(),
            x@.take(i as int) == y@.take(i as int),
            text_lt(x@, y@) == text_lt(x@.skip(i as int), y@.skip(i as int)),
        decreases x.len() - i,
    {
        proof {
            assert(x@.take(i + 1) =~= x@.take(i as int).push(x@[i as int]));
            assert(y@.take(i + 1) =~= y@.take(i as int).push(y@[i as int]));
            lemma_text_lt_skip(x@, y@, i + 1);
        }
        i = i + 1;
    }
    let ghost xs = x@.skip(i as int);
    let ghost ys = y@.skip(i as int);
    if i == x.len() {
        i < y.len()
    } else if i == y.len() {
        false
    } else {
        assert(xs[0] == x@[i as int] && ys[0] == y@[i as int]);
        (x[i] as u32) < (y[i] as u32)
    }
}

// ---------------------------------------------------------------------------
// Ordered sets of texts
// ---------------------------------------------------------------------------

/// The texts of a list of strings.
pub open spec fn texts(v: Seq<String>) -> Set<Seq<char>> {
    Set::new(|t: Seq<char>| exists|i: int| 0 <= i < v.len() && v[i]@ == t)
}

/// Strictly ascending: sorted, and no text twice.
pub open spec fn ascending(v: Seq<String>) -> bool {
    forall|i: int, j: int| 0 <= i < j < v.len() ==> text_lt(#[trigger] v[i]@, #[trigger] v[j]@)
}

/// Adds `item` to the ascending list `set`, where it is not already.
pub fn insert_text(set: &mut Vec<String>, item: String)
    requires
        ascending(old(set)@),
    ensures
        ascending(final(set)@),
        texts(final(set)@) == texts(old(set)@).insert(item@),
{
    let mut k: usize = 0;
    while k < set.len() && text_less(set[k].as_str(), item.as_str())
        invariant
            k <= set@.len(),
            forall|i: int| 0 <= i < k ==> text_lt(#[trigger] set@[i]@, item@),
        decreases set.len() - k,
    {
        k = k + 1;
    }
    if k < set.len() && chars_eq(to_chars(set[k].as_str()).as_slice(), to_chars(item.as_str()).as_slice()) {
        assert(texts(set@).insert(item@) =~= texts(set@));
        return;
    }
    let ghost before = set@;
    proof {
        if k < before.len() {
            lemma_text_lt_total(before[k as int]@, item@);
        }
    }
    set.insert(k, item);
    proof {
        assert forall|i: int, j: int| 0 <= i < j < set@.len() implies text_lt(
            #[trigger] set@[i]@,
            #[trigger] set@[j]@,
        ) by {
            if j < k {
                assert(set@[i] == before[i] && set@[j] == before[j]);
            } else if j == k {
                assert(set@[i] == before[i]);
            } else if i < k {
                assert(set@[i] == before[i] && set@[j] == before[j - 1]);
                lemma_text_lt_transitive(before[i]@, item@, before[k as int]@);
                if j - 1 > k {
                    lemma_text_lt_transitive(before[i]@, before[k as int]@, before[j - 1]@);
                }
            } else if i == k {
                assert(set@[j] == before[j - 1]);
                if j - 1 > k {
                    lemma_text_lt_transitive(item@, before[k as int]@, before[j - 1]@);
                }
            } else {
                assert(set@[i] == before[i - 1] && set@[j] == before[j - 1]);
            }
        }
        assert forall|t: Seq<char>| texts(set@).contains(t) == texts(before).insert(item@).contains(
            t,
        ) by {
            if texts(before).contains(t) {
                let i = choose|i: int| 0 <= i < before.len() && before[i]@ == t;
                if i < k {
                    assert(set@[i] == before[i]);
                } else {
                    assert(set@[i + 1] == before[i]);
                }
            }
            if t == item@ {
                assert(set@[k as int]@ == t);
            }
            if texts(set@).contains(t) {
                let i = choose|i: int| 0 <= i < set@.len() && set@[i]@ == t;
                if i < k {
                    assert(set@[i] == before[i]);
                } else if i > k {
                    assert(set@[i] == before[i - 1]);
                }
            }
        }
        assert(texts(set@) =~= texts(before).insert(item@));
    }
}

// ---------------------------------------------------------------------------
// Directory listings
// ---------------------------------------------------------------------------

/// The components of a relative path, split at every `/`.
pub open spec fn path_components(s: Seq<char>) -> Seq<Seq<char>>
    decreases s.len(),
{
    if s.len() == 0 {
        seq![seq![]]
    } else if s.last() == '/' {
        path_components(s.drop_last()).push(seq![])
    } else {
        let c = path_components(s.drop_last());
        c.update(c.len() - 1, c.last().push(s.last()))
    }
}

proof fn lemma_path_components_len(s: Seq<char>)
    ensures
        path_components(s).len() >= 1,
    decreases s.len(),
{
    if s.len() > 0 {
        lemma_path_components_len(s.drop_last());
    }
}

/// Splits a relative path at every `/`.
fn split_components(path: &str) -> (r: Vec<String>)
    ensures
        r@.len() == path_components(path@).len(),
        forall|n: int| 0 <= n < r@.len() ==> #[trigger] r@[n]@ == path_components(path@)[n],
{
    let chars = to_chars(path);
    let mut done: Vec<String> = Vec::new();
    let mut current: Vec<char> = Vec::new();
    let mut i: usize = 0;
    assert(chars@.take(0) =~= Seq::<char>::empty());
    while i < chars.len()
        invariant
            i <= chars@.len(),
            chars@ == path@,
            done@.len() + 1 == path_components(chars@.take(i as int)).len(),
            forall|n: int|
                0 <= n < done@.len() ==> #[trigger] done@[n]@ == path_components(
                    chars@.take(i as int),
                )[n],
            current@ == path_components(chars@.take(i as int)).last(),
        decreases chars.len() - i,
    {
        let ghost prefix = chars@.take(i as int);
        proof {
            lemma_path_components_len(prefix);
            assert(chars@.take(i + 1).drop_last() =~= prefix);
            assert(chars@.take(i + 1).last() == chars@[i as int]);
        }
        if chars[i] == '/' {
            let ghost before = done@;
            done.push(chars_to_string(current.as_slice()));
            current = Vec::new();
            proof {
                assert forall|n: int| 0 <= n < done@.len() implies #[trigger] done@[n]@
                    == path_components(chars@.take(i + 1))[n] by {
                    if n < before.len() {
                        assert(done@[n] == before[n]);
                    }
                }
                assert(current@ =~= path_components(chars@.take(i + 1)).last());
            }
        } else {
            current.push(chars[i]);
        }
        i = i + 1;
    }
    assert(chars@.take(i as int) =~= path@);
    let ghost before = done@;
    done.push(chars_to_string(current.as_slice()));
    proof {
        assert forall|n: int| 0 <= n < done@.len() implies #[trigger] done@[n]@ == path_components(
            path@,
        )[n] by {
            if n < before.len() {
                assert(done@[n] == before[n]);
            }
        }
    }
    done
}

/// The children listed for `dir`: none when it is not listed yet.
pub open spec fn listed(m: Map<Seq<char>, Set<Seq<char>>>, dir: Seq<char>) -> Set<Seq<char>> {
    if m.dom().contains(dir) {
        m[dir]
    } else {
        Set::empty()
    }
}

/// The listing with `dir` in it.
pub open spec fn with_dir(m: Map<Seq<char>, Set<Seq<char>>>, dir: Seq<char>) -> Map<
    Seq<char>,
    Set<Seq<char>>,
> {
    m.insert(dir, listed(m, dir))
}

/// The listing with `child` listed under `dir`.
pub open spec fn with_child(
    m: Map<Seq<char>, Set<Seq<char>>>,
    dir: Seq<char>,
    child: Seq<char>,
) -> Map<Seq<char>, Set<Seq<char>>> {
    m.insert(dir, listed(m, dir).insert(child))
}

/// The listing after a file whose path below `dir` has components `comps`
/// is recorded: each directory on the way is listed, with a `/` after its
/// name, under its parent, and the file under the last one.
pub open spec fn record_components(
    m: Map<Seq<char>, Set<Seq<char>>>,
    dir: Seq<char>,
    comps: Seq<Seq<char>>,
) -> Map<Seq<char>, Set<Seq<char>>>
    decreases comps.len(),
{
    if comps.len() == 0 {
        m
    } else if comps.len() == 1 {
        with_child(m, dir, comps[0])
    } else {
        let next = joined_path(dir, comps[0]);
        record_components(
            with_dir(with_child(m, dir, comps[0] + seq!['/']), next),
            next,
            comps.drop_first(),
        )
    }
}

/// The listing of every directory that holds a visible file, from the
/// workspace root `.` down.
pub open spec fn directory_listing(files: Seq<String>) -> Map<Seq<char>, Set<Seq<char>>>
    decreases files.len(),
{
    if files.len() == 0 {
        Map::empty().insert(seq!['.'], Set::empty())
    } else {
        record_components(
            directory_listing(files.drop_last()),
            seq!['.'],
            path_components(files.last()@),
        )
    }
}

/// The directory that holds a file whose path below `dir` has components
/// `comps`.
pub open spec fn holding_dir(dir: Seq<char>, comps: Seq<Seq<char>>) -> Seq<char>
    decreases comps.len(),
{
    if comps.len() <= 1 {
        dir
    } else {
        holding_dir(joined_path(dir, comps[0]), comps.drop_first())
    }
}

proof fn lemma_record_keeps(
    m: Map<Seq<char>, Set<Seq<char>>>,
    dir: Seq<char>,
    comps: Seq<Seq<char>>,
    d: Seq<char>,
    x: Seq<char>,
)
    requires
        listed(m, d).contains(x),
    ensures
        listed(record_components(m, dir, comps), d).contains(x),
    decreases comps.len(),
{
    if comps.len() >= 2 {
        let next = joined_path(dir, comps[0]);
        let m2 = with_dir(with_child(m, dir, comps[0] + seq!['/']), next);
        assert(listed(m2, d).contains(x));
        lemma_record_keeps(m2, next, comps.drop_first(), d, x);
    }
}

proof fn lemma_record_lists_file(
    m: Map<Seq<char>, Set<Seq<char>>>,
    dir: Seq<char>,
    comps: Seq<Seq<char>>,
)
    requires
        comps.len() >= 1,
    ensures
        listed(record_components(m, dir, comps), holding_dir(dir, comps)).contains(comps.last()),
    decreases comps.len(),
{
    if comps.len() >= 2 {
        let next = joined_path(dir, comps[0]);
        let m2 = with_dir(with_child(m, dir, comps[0] + seq!['/']), next);
        lemma_record_lists_file(m2, next, comps.drop_first());
        assert(comps.drop_first().last() == comps.last());
    }
}

/// Every visible file is listed, by its name, under the directory that
/// holds it: the index leaves no visible file out.
pub proof fn law_visible_files_are_listed(files: Seq<String>, i: int)
    requires
        0 <= i < files.len(),
    ensures
        listed(
            directory_listing(files),
            holding_dir(seq!['.'], path_components(files[i]@)),
        ).contains(path_components(files[i]@).last()),
    decreases files.len(),
{
    lemma_path_components_len(files[i]@);
    let pc = path_components(files[i]@);
    if i == files.len() - 1 {
        lemma_record_lists_file(directory_listing(files.drop_last()), seq!['.'], pc);
    } else {
        law_visible_files_are_listed(files.drop_last(), i);
        assert(files.drop_last()[i] == files[i]);
        lemma_record_keeps(
            directory_listing(files.drop_last()),
            seq!['.'],
            path_components(files.last()@),
            holding_dir(seq!['.'], pc),
            pc.last(),
        );
    }
}

/// `e` holds the listing `m`: one entry per directory, in path order, each
/// with its children in order.
pub open spec fn lists(e: Seq<(String, Vec<String>)>, m: Map<Seq<char>, Set<Seq<char>>>) -> bool {
    &&& forall|i: int, j: int|
        0 <= i < j < e.len() ==> text_lt((#[trigger] e[i]).0@, (#[trigger] e[j]).0@)
    &&& forall|i: int|
        0 <= i < e.len() ==> ascending((#[trigger] e[i]).1@) && m.dom().contains(e[i].0@) && m[e[i].0@]
            == texts(e[i].1@)
    &&& forall|d: Seq<char>|
        #[trigger] m.dom().contains(d) ==> exists|i: int| 0 <= i < e.len() && e[i].0@ == d
}

/// Lists `dir`, and `child` under it when there is one.
fn add_entry(
    entries: &mut Vec<(String, Vec<String>)>,
    dir: &str,
    child: Option<String>,
    Ghost(m): Ghost<Map<Seq<char>, Set<Seq<char>>>>,
)
    requires
        lists(old(entries)@, m),
    ensures
        lists(
            final(entries)@,
            match child {
                Some(c) => with_child(m, dir@, c@),
                None => with_dir(m, dir@),
            },
        ),
{
    let ghost m2 = if child is Some {
        with_child(m, dir@, child->0@)
    } else {
        with_dir(m, dir@)
    };
    let mut k: usize = 0;
    while k < entries.len() && text_less(entries[k].0.as_str(), dir)
        invariant
            k <= entries@.len(),
            forall|i: int| 0 <= i < k ==> text_lt((#[trigger] entries@[i]).0@, dir@),
        decreases entries.len() - k,
    {
        k = k + 1;
    }
    let found = k < entries.len() && chars_eq(
        to_chars(entries[k].0.as_str()).as_slice(),
        to_chars(dir).as_slice(),
    );
    let ghost before = entries@;
    if found {
        let (key, mut kids) = entries.remove(k);
        let ghost old_kids = kids@;
        assert(m[dir@] == texts(old_kids));
        match child {
            Some(c) => insert_text(&mut kids, c),
            None => {},
        }
        assert(texts(kids@) == m2[dir@]);
        entries.insert(k, (key, kids));
        proof {
            assert(entries@ =~= before.update(k as int, (key, kids)));
            assert(m2.dom() =~= m.dom());
            assert forall|i: int| 0 <= i < entries@.len() implies ascending(
                (#[trigger] entries@[i]).1@,
            ) && m2.dom().contains(entries@[i].0@) && m2[entries@[i].0@] == texts(
                entries@[i].1@,
            ) by {
                if i != k {
                    assert(entries@[i] == before[i]);
                    assert(before[i].0@ != dir@) by {
                        if i < k {
                            lemma_text_lt_irreflexive(dir@);
                        } else {
                            lemma_text_lt_irreflexive(dir@);
                        }
                    }
                }
            }
            assert forall|d: Seq<char>| #[trigger] m2.dom().contains(d) implies exists|i: int|
                0 <= i < entries@.len() && entries@[i].0@ == d by {
                let i = choose|i: int| 0 <= i < before.len() && before[i].0@ == d;
                assert(entries@[i].0@ == before[i].0@);
            }
        }
    } else {
        let kids: Vec<String> = match child {
            Some(c) => {
                let mut v: Vec<String> = Vec::new();
                v.push(c);
                v
            },
            None => Vec::new(),
        };
        proof {
            assert(!m.dom().contains(dir@)) by {
                if m.dom().contains(dir@) {
                    let i = choose|i: int| 0 <= i < before.len() && before[i].0@ == dir@;
                    if i < k {
                        lemma_text_lt_irreflexive(dir@);
                    } else if i > k {
                        lemma_text_lt_total(before[k as int].0@, dir@);
                        lemma_text_lt_transitive(dir@, before[k as int].0@, before[i].0@);
                        lemma_text_lt_irreflexive(dir@);
                    }
                }
            }
            if child is Some {
                assert(texts(kids@) =~= Set::<Seq<char>>::empty().insert(child->0@)) by {
                    assert(kids@[0] == child->0);
                }
            } else {
                assert(texts(kids@) =~= Set::<Seq<char>>::empty());
            }
            if k < before.len() {
                lemma_text_lt_total(before[k as int].0@, dir@);
            }
        }
        let key = chars_to_string(to_chars(dir).as_slice());
        entries.insert(k, (key, kids));
        proof {
            assert forall|i: int, j: int| 0 <= i < j < entries@.len() implies text_lt(
                (#[trigger] entries@[i]).0@,
                (#[trigger] entries@[j]).0@,
            ) by {
                if j < k {
                    assert(entries@[i] == before[i] && entries@[j] == before[j]);
                } else if j == k {
                    assert(entries@[i] == before[i]);
                } else if i < k {
                    assert(entries@[i] == before[i] && entries@[j] == before[j - 1]);
                    lemma_text_lt_transitive(before[i].0@, dir@, before[k as int].0@);
                    if j - 1 > k {
                        lemma_text_lt_transitive(before[i].0@, before[k as int].0@, before[j - 1].0@);
                    }
                } else if i == k {
                    assert(entries@[j] == before[j - 1]);
                    if j - 1 > k {
                        lemma_text_lt_transitive(dir@, before[k as int].0@, before[j - 1].0@);
                    }
                } else {
                    assert(entries@[i] == before[i - 1] && entries@[j] == before[j - 1]);
                }
            }
            assert forall|i: int| 0 <= i < entries@.len() implies ascending(
                (#[trigger] entries@[i]).1@,
            ) && m2.dom().contains(entries@[i].0@) && m2[entries@[i].0@] == texts(
                entries@[i].1@,
            ) by {
                if i < k {
                    assert(entries@[i] == before[i]);
                    lemma_text_lt_irreflexive(dir@);
                } else if i > k {
                    assert(entries@[i] == before[i - 1]);
                    assert(before[i - 1].0@ != dir@);
                }
            }
            assert forall|d: Seq<char>| #[trigger] m2.dom().contains(d) implies exists|i: int|
                0 <= i < entries@.len() && entries@[i].0@ == d by {
                if d == dir@ {
                    assert(entries@[k as int].0@ == d);
                } else {
                    let i = choose|i: int| 0 <= i < before.len() && before[i].0@ == d;
                    if i < k {
                        assert(entries@[i] == before[i]);
                    } else {
                        assert(entries@[i + 1] == before[i]);
                    }
                }
            }
        }
    }
}

/// The listing of each directory that holds a visible file: `.` first
/// among equals, each directory with its files and, with a `/` after the
/// name, its subdirectories, all in path order.
pub fn build_directory_entries(visible_files: &[String]) -> (r: Vec<(String, Vec<String>)>)
    ensures
        lists(r@, directory_listing(visible_files@)),
{
    let mut entries: Vec<(String, Vec<String>)> = Vec::new();
    let ghost mut m: Map<Seq<char>, Set<Seq<char>>> = Map::empty();
    add_entry(&mut entries, ".", None, Ghost(m));
    proof {
        reveal_strlit(".");
        assert("."@ =~= seq!['.']);
        m = with_dir(m, "."@);
        assert(visible_files@.take(0).len() == 0);
        assert(m =~= directory_listing(visible_files@.take(0)));
    }
    let mut f: usize = 0;
    while f < visible_files.len()
        invariant
            f <= visible_files@.len(),
            m == directory_listing(visible_files@.take(f as int)),
            lists(entries@, m),
        decreases visible_files.len() - f,
    {
        let comps = split_components(visible_files[f].as_str());
        let ghost pc = path_components(visible_files@[f as int]@);
        let ghost target = record_components(m, seq!['.'], pc);
        proof {
            lemma_path_components_len(visible_files@[f as int]@);
            assert(visible_files@.take(f + 1).drop_last() =~= visible_files@.take(f as int));
            assert(pc.skip(0) =~= pc);
        }
        let dot = vec!['.'];
        assert(dot@ =~= seq!['.']);
        let mut parent = chars_to_string(dot.as_slice());
        let mut j: usize = 0;
        while j < comps.len() - 1
            invariant
                comps@.len() == pc.len() >= 1,
                forall|n: int| 0 <= n < comps@.len() ==> #[trigger] comps@[n]@ == pc[n],
                j < comps@.len(),
                lists(entries@, m),
                record_components(m, parent@, pc.skip(j as int)) == target,
            decreases comps.len() - j,
        {
            let mut child: Vec<char> = to_chars(comps[j].as_str());
            child.push('/');
            let child = chars_to_string(child.as_slice());
            assert(child@ =~= pc[j as int] + seq!['/']);
            add_entry(&mut entries, parent.as_str(), Some(child), Ghost(m));
            let next = join_relative_path(parent.as_str(), comps[j].as_str());
            proof {
                m = with_child(m, parent@, pc[j as int] + seq!['/']);
            }
            add_entry(&mut entries, next.as_str(), None, Ghost(m));
            proof {
                m = with_dir(m, next@);
                assert(pc.skip(j as int).drop_first() =~= pc.skip(j + 1));
                assert(pc.skip(j as int)[0] == pc[j as int]);
            }
            parent = next;
            j = j + 1;
        }
        let last = chars_to_string(to_chars(comps[j].as_str()).as_slice());
        add_entry(&mut entries, parent.as_str(), Some(last), Ghost(m));
        proof {
            assert(pc.skip(j as int) =~= seq![pc[j as int]]);
            m = with_child(m, parent@, pc[j as int]);
        }
        f = f + 1;
    }
    assert(visible_files@.take(f as int) =~= visible_files@);
    entries
}

// ---------------------------------------------------------------------------
// Ignore patterns of the repository
// ---------------------------------------------------------------------------

/// The directory part of a relative path the walk produced: the text before
/// its last `/`, empty when it has none.
pub open spec fn parent_dir(p: Seq<char>) -> Seq<char>
    decreases p.len(),
{
    if p.len() == 0 {
        seq![]
    } else if p.last() == '/' {
        p.drop_last()
    } else {
        parent_dir(p.drop_last())
    }
}

fn parent_dir_exec(p: &str) -> (r: String)
    ensures
        r@ == parent_dir(p@),
{
    let chars = to_chars(p);
    let mut n = chars.len();
    assert(chars@.take(n as int) =~= chars@);
    while n > 0 && chars[n - 1] != '/'
        invariant
            n <= chars@.len(),
            parent_dir(chars@.take(n as int)) == parent_dir(p@),
            chars@ == p@,
        decreases n,
    {
        assert(chars@.take(n as int).drop_last() =~= chars@.take(n - 1));
        n = n - 1;
    }
    if n == 0 {
        assert(chars@.take(0).len() == 0);
        return chars_to_string(Vec::<char>::new().as_slice());
    }
    assert(chars@.take(n as int).drop_last() =~= chars@.take(n - 1));
    chars_to_string(crate::text::slice_chars(&chars, 0, n - 1).as_slice())
}

/// A pattern for directories only ends with `/`.
pub open spec fn names_dirs(p: Seq<char>) -> bool {
    p.len() > 0 && p.last() == '/'
}

/// The patterns that the first `n` lines of a `.gitignore` file in
/// directory `parent` stand for.
pub open spec fn patterns_in(parent: Seq<char>, lines: Seq<Seq<char>>) -> Set<Seq<char>> {
    Set::new(
        |p: Seq<char>| exists|i: int| 0 <= i < lines.len() && ignore_pattern(parent, lines[i]) == Some(p),
    )
}

/// The patterns of all `.gitignore` files, given as path and content.
pub open spec fn repo_patterns(files: Seq<(String, String)>) -> Set<Seq<char>>
    decreases files.len(),
{
    if files.len() == 0 {
        Set::empty()
    } else {
        repo_patterns(files.drop_last()) + patterns_in(
            parent_dir(files.last().0@),
            split_lines(files.last().1@),
        )
    }
}

/// The ignore patterns of the repository, directories apart from files.
pub struct IgnorePatterns {
    pub exclude_dirs: Vec<String>,
    pub exclude_files: Vec<String>,
}

/// Sorts every pattern of the `.gitignore` files (path and content of
/// each) into the directory or the file patterns, each in path order.
pub fn collect_repo_ignore_patterns(gitignore_files: &[(String, String)]) -> (r: IgnorePatterns)
    ensures
        ascending(r.exclude_dirs@),
        ascending(r.exclude_files@),
        texts(r.exclude_dirs@) == repo_patterns(gitignore_files@).filter(|p: Seq<char>| names_dirs(p)),
        texts(r.exclude_files@) == repo_patterns(gitignore_files@).filter(
            |p: Seq<char>| !names_dirs(p),
        ),
{
    let mut dirs: Vec<String> = Vec::new();
    let mut files: Vec<String> = Vec::new();
    let mut f: usize = 0;
    assert(texts(dirs@) =~= Set::<Seq<char>>::empty());
    assert(texts(files@) =~= Set::<Seq<char>>::empty());
    assert(repo_patterns(gitignore_files@.take(0)) =~= Set::<Seq<char>>::empty());
    while f < gitignore_files.len()
        invariant
            f <= gitignore_files@.len(),
            ascending(dirs@),
            ascending(files@),
            texts(dirs@) == repo_patterns(gitignore_files@.take(f as int)).filter(
                |p: Seq<char>| names_dirs(p),
            ),
            texts(files@) == repo_patterns(gitignore_files@.take(f as int)).filter(
                |p: Seq<char>| !names_dirs(p),
            ),
        decreases gitignore_files.len() - f,
    {
        let parent = parent_dir_exec(gitignore_files[f].0.as_str());
        let lines = split_lines_exec(&to_chars(gitignore_files[f].1.as_str()));
        let ghost lv = split_lines(gitignore_files@[f as int].1@);
        let ghost earlier = repo_patterns(gitignore_files@.take(f as int));
        proof {
            assert(gitignore_files@.take(f + 1).drop_last() =~= gitignore_files@.take(f as int));
            assert(patterns_in(parent@, lv.take(0)) =~= Set::<Seq<char>>::empty());
            assert(earlier + patterns_in(parent@, lv.take(0)) =~= earlier);
        }
        let mut l: usize = 0;
        while l < lines.len()
            invariant
                l <= lines@.len(),
                lines@.len() == lv.len(),
                forall|n: int| 0 <= n < lines@.len() ==> #[trigger] lines@[n]@ == lv[n],
                ascending(dirs@),
                ascending(files@),
                texts(dirs@) == (earlier + patterns_in(parent@, lv.take(l as int))).filter(
                    |p: Seq<char>| names_dirs(p),
                ),
                texts(files@) == (earlier + patterns_in(parent@, lv.take(l as int))).filter(
                    |p: Seq<char>| !names_dirs(p),
                ),
            decreases lines.len() - l,
        {
            let line = chars_to_string(lines[l].as_slice());
            let found = normalize_ignore_pattern(parent.as_str(), line.as_str());
            let ghost prev_lines = lv.take(l as int);
            let ghost next_lines = lv.take(l + 1);
            let ghost old_all = earlier + patterns_in(parent@, prev_lines);
            let ghost new_all = earlier + patterns_in(parent@, next_lines);
            proof {
                assert forall|i: int| 0 <= i < l implies #[trigger] next_lines[i] == prev_lines[i] by {}
                assert(next_lines[l as int] == lv[l as int]);
            }
            match found {
                None => {
                    assert(new_all =~= old_all) by {
                        assert forall|p: Seq<char>| new_all.contains(p) implies old_all.contains(p) by {
                            if patterns_in(parent@, next_lines).contains(p) && !earlier.contains(p) {
                                let i = choose|i: int|
                                    0 <= i < next_lines.len() && ignore_pattern(
                                        parent@,
                                        #[trigger] next_lines[i],
                                    ) == Some(p);
                                assert(i < l);
                                assert(next_lines[i] == prev_lines[i]);
                            }
                        }
                        assert forall|p: Seq<char>| old_all.contains(p) implies new_all.contains(p) by {
                            if patterns_in(parent@, prev_lines).contains(p) && !earlier.contains(p) {
                                let i = choose|i: int|
                                    0 <= i < prev_lines.len() && ignore_pattern(
                                        parent@,
                                        #[trigger] prev_lines[i],
                                    ) == Some(p);
                                assert(next_lines[i] == prev_lines[i]);
                            }
                        }
                    }
                },
                Some(pattern) => {
                    let ghost pv = pattern@;
                    assert(new_all =~= old_all.insert(pv)) by {
                        assert forall|p: Seq<char>| new_all.contains(p) implies old_all.insert(
                            pv,
                        ).contains(p) by {
                            if patterns_in(parent@, next_lines).contains(p) && !earlier.contains(p) {
                                let i = choose|i: int|
                                    0 <= i < next_lines.len() && ignore_pattern(
                                        parent@,
                                        #[trigger] next_lines[i],
                                    ) == Some(p);
                                if i < l {
                                    assert(next_lines[i] == prev_lines[i]);
                                }
                            }
                        }
                        assert forall|p: Seq<char>| old_all.insert(pv).contains(p) implies new_all.contains(
                            p,
                        ) by {
                            if p == pv {
                                assert(ignore_pattern(parent@, next_lines[l as int]) == Some(p));
                            } else if patterns_in(parent@, prev_lines).contains(p) && !earlier.contains(
                                p,
                            ) {
                                let i = choose|i: int|
                                    0 <= i < prev_lines.len() && ignore_pattern(
                                        parent@,
                                        #[trigger] prev_lines[i],
                                    ) == Some(p);
                                assert(next_lines[i] == prev_lines[i]);
                            }
                        }
                    }
                    let chars = to_chars(pattern.as_str());
                    if chars.len() > 0 && chars[chars.len() - 1] == '/' {
                        insert_text(&mut dirs, pattern);
                        assert(old_all.filter(|p: Seq<char>| !names_dirs(p)) =~= new_all.filter(
                            |p: Seq<char>| !names_dirs(p),
                        ));
                        assert(texts(dirs@) =~= new_all.filter(|p: Seq<char>| names_dirs(p)));
                    } else {
                        insert_text(&mut files, pattern);
                        assert(old_all.filter(|p: Seq<char>| names_dirs(p)) =~= new_all.filter(
                            |p: Seq<char>| names_dirs(p),
                        ));
                        assert(texts(files@) =~= new_all.filter(|p: Seq<char>| !names_dirs(p)));
                    }
                },
            }
            l = l + 1;
        }
        proof {
            assert(lv.take(l as int) =~= lv);
        }
        f = f + 1;
    }
    assert(gitignore_files@.take(f as int) =~= gitignore_files@);
    IgnorePatterns { exclude_dirs: dirs, exclude_files: files }
}

// ---------------------------------------------------------------------------
// What git answers
// ---------------------------------------------------------------------------

/// How the error of `String::from_utf8` on these bytes displays.
pub uninterp spec fn utf8_error_text(bytes: Seq<u8>) -> Seq<char>;

/// Calls `String::from_utf8`: the text of valid UTF-8 bytes, or how the
/// error displays. The claim: it succeeds exactly on valid UTF-8, with the
/// characters the bytes encode.
#[verifier::external_body]
fn utf8_text(bytes: &[u8]) -> (r: Result<String, String>)
    ensures
        r is Ok <==> valid_utf8(bytes@),
        r matches Ok(s) ==> s@ == decode_utf8(bytes@),
        r matches Err(e) ==> e@ == utf8_error_text(bytes@),
{
    match String::from_utf8(bytes.to_vec()) {
        Ok(s) => Ok(s),
        Err(error) => Err(error.to_string()),
    }
}

/// The fields of `b` between NUL bytes, empty ones included.
pub open spec fn nul_split(b: Seq<u8>) -> Seq<Seq<u8>>
    decreases b.len(),
{
    if b.len() == 0 {
        seq![seq![]]
    } else if b.last() == 0 {
        nul_split(b.drop_last()).push(seq![])
    } else {
        let f = nul_split(b.drop_last());
        f.update(f.len() - 1, f.last().push(b.last()))
    }
}

proof fn lemma_nul_split_len(b: Seq<u8>)
    ensures
        nul_split(b).len() >= 1,
    decreases b.len(),
{
    if b.len() > 0 {
        lemma_nul_split_len(b.drop_last());
    }
}

/// The fields that are not empty.
pub open spec fn nonempty_fields(fs: Seq<Seq<u8>>) -> Seq<Seq<u8>>
    decreases fs.len(),
{
    if fs.len() == 0 {
        seq![]
    } else if fs.last().len() > 0 {
        nonempty_fields(fs.drop_last()).push(fs.last())
    } else {
        nonempty_fields(fs.drop_last())
    }
}

/// The message for output that is not UTF-8.
pub open spec fn not_utf8_message(field: Seq<u8>) -> Seq<char> {
    "git output was not valid UTF-8: "@ + utf8_error_text(field)
}

/// The fields read as text, or the message about the first that is not
/// UTF-8.
pub open spec fn decoded_fields(fs: Seq<Seq<u8>>) -> Result<Seq<Seq<char>>, Seq<char>>
    decreases fs.len(),
{
    if fs.len() == 0 {
        Ok(seq![])
    } else {
        match decoded_fields(fs.drop_last()) {
            Err(e) => Err(e),
            Ok(ts) => if valid_utf8(fs.last()) {
                Ok(ts.push(decode_utf8(fs.last())))
            } else {
                Err(not_utf8_message(fs.last()))
            },
        }
    }
}

/// The texts of NUL-separated output, as `git ... -z` prints them.
pub open spec fn nul_texts(output: Seq<u8>) -> Result<Seq<Seq<char>>, Seq<char>> {
    decoded_fields(nonempty_fields(nul_split(output)))
}

/// Splits `-z` output of `git` at NUL bytes, drops empty fields and reads
/// the rest as UTF-8.
pub fn nul_separated_texts(output: &[u8]) -> (r: Result<Vec<String>, String>)
    ensures
        match (r, nul_texts(output@)) {
            (Ok(v), Ok(ts)) => v@.len() == ts.len() && forall|n: int|
                0 <= n < ts.len() ==> #[trigger] v@[n]@ == ts[n],
            (Err(e), Err(m)) => e@ == m,
            _ => false,
        },
{
    let mut fields: Vec<Vec<u8>> = Vec::new();
    let mut current: Vec<u8> = Vec::new();
    let mut i: usize = 0;
    assert(output@.take(0) =~= Seq::<u8>::empty());
    while i < output.len()
        invariant
            i <= output@.len(),
            fields@.len() == nonempty_fields(nul_split(output@.take(i as int)).drop_last()).len(),
            forall|n: int|
                0 <= n < fields@.len() ==> #[trigger] fields@[n]@ == nonempty_fields(
                    nul_split(output@.take(i as int)).drop_last(),
                )[n],
            current@ == nul_split(output@.take(i as int)).last(),
        decreases output.len() - i,
    {
        let ghost prefix = output@.take(i as int);
        let ghost split = nul_split(prefix);
        proof {
            lemma_nul_split_len(prefix);
            assert(output@.take(i + 1).drop_last() =~= prefix);
            assert(output@.take(i + 1).last() == output@[i as int]);
        }
        if output[i] == 0 {
            proof {
                assert(nul_split(output@.take(i + 1)).drop_last() =~= split);
                assert(split =~= split.drop_last().push(split.last()));
            }
            if current.len() > 0 {
                let ghost before = fields@;
                fields.push(current);
                proof {
                    assert forall|n: int| 0 <= n < fields@.len() implies #[trigger] fields@[n]@
                        == nonempty_fields(split)[n] by {
                        if n < before.len() {
                            assert(fields@[n] == before[n]);
                        }
                    }
                }
            }
            current = Vec::new();
            proof {
                assert(current@ =~= nul_split(output@.take(i + 1)).last());
            }
        } else {
            proof {
                let next = nul_split(output@.take(i + 1));
                assert(next.drop_last() =~= split.drop_last());
            }
            current.push(output[i]);
        }
        i = i + 1;
    }
    assert(output@.take(i as int) =~= output@);
    proof {
        lemma_nul_split_len(output@);
        let split = nul_split(output@);
        assert(split =~= split.drop_last().push(split.last()));
    }
    if current.len() > 0 {
        let ghost before = fields@;
        fields.push(current);
        proof {
            assert forall|n: int| 0 <= n < fields@.len() implies #[trigger] fields@[n]@
                == nonempty_fields(nul_split(output@))[n] by {
                if n < before.len() {
                    assert(fields@[n] == before[n]);
                }
            }
        }
    }
    let ghost fs = nonempty_fields(nul_split(output@));
    let mut texts_out: Vec<String> = Vec::new();
    let mut k: usize = 0;
    assert(fs.take(0) =~= Seq::<Seq<u8>>::empty());
    while k < fields.len()
        invariant
            k <= fields@.len(),
            fs == nonempty_fields(nul_split(output@)),
            fields@.len() == fs.len(),
            forall|n: int| 0 <= n < fields@.len() ==> #[trigger] fields@[n]@ == fs[n],
            decoded_fields(fs.take(k as int)) matches Ok(ts) && texts_out@.len() == ts.len()
                && forall|n: int| 0 <= n < ts.len() ==> #[trigger] texts_out@[n]@ == ts[n],
        decreases fields.len() - k,
    {
        proof {
            assert(fs.take(k + 1).drop_last() =~= fs.take(k as int));
            assert(fs.take(k + 1).last() == fs[k as int]);
        }
        match utf8_text(fields[k].as_slice()) {
            Ok(t) => {
                let ghost before = texts_out@;
                texts_out.push(t);
                proof {
                    let ts = decoded_fields(fs.take(k + 1))->Ok_0;
                    assert forall|n: int| 0 <= n < ts.len() implies #[trigger] texts_out@[n]@
                        == ts[n] by {
                        if n < before.len() {
                            assert(texts_out@[n] == before[n]);
                        }
                    }
                }
            },
            Err(e) => {
                proof {
                    lemma_decoded_fields_err(fs, k as int + 1);
                }
                let mut message = to_chars("git output was not valid UTF-8: ");
                crate::text::push_all(&mut message, to_chars(e.as_str()).as_slice());
                proof {
                    assert(decoded_fields(fs.take(k as int)) is Ok);
                    assert(!valid_utf8(fs[k as int]));
                    assert(decoded_fields(fs.take(k + 1)) == Err::<Seq<Seq<char>>, Seq<char>>(
                        not_utf8_message(fs[k as int]),
                    ));
                    assert(message@ == not_utf8_message(fs[k as int]));
                    assert(nul_texts(output@) == decoded_fields(fs));
                }
                return Err(chars_to_string(message.as_slice()));
            },
        }
        k = k + 1;
    }
    assert(fs.take(k as int) =~= fs);
    Ok(texts_out)
}

/// Once a prefix of the fields fails to decode, all of them fail the same way.
proof fn lemma_decoded_fields_err(fs: Seq<Seq<u8>>, j: int)
    requires
        0 <= j <= fs.len(),
        decoded_fields(fs.take(j)) is Err,
    ensures
        decoded_fields(fs) == decoded_fields(fs.take(j)),
    decreases fs.len() - j,
{
    if j == fs.len() {
        assert(fs.take(j) =~= fs);
    } else {
        assert(fs.take(j + 1).drop_last() =~= fs.take(j));
        lemma_decoded_fields_err(fs, j + 1);
    }
}

/// The paths that `git check-ignore -v` reports as ignored in its fields:
/// the fourth of each group of four, unless the pattern (the third) is a
/// negation.
pub open spec fn ignored_paths(fields: Seq<Seq<char>>) -> Set<Seq<char>> {
    Set::new(
        |p: Seq<char>|
            exists|k: int|
                0 <= k < fields.len() && k % 4 == 3 && !(fields[k - 1].len() > 0 && fields[k
                    - 1][0] == '!') && #[trigger] fields[k] == p,
    )
}

proof fn lemma_ignored_paths_step(fs: Seq<Seq<char>>, c: int)
    requires
        0 <= c,
        c + 4 <= fs.len(),
        c % 4 == 0,
    ensures
        ignored_paths(fs.take(c + 4)) == (if fs[c + 2].len() > 0 && fs[c + 2][0] == '!' {
            ignored_paths(fs.take(c))
        } else {
            ignored_paths(fs.take(c)).insert(fs[c + 3])
        }),
{
    let t0 = fs.take(c);
    let t4 = fs.take(c + 4);
    let before = ignored_paths(t0);
    let after = ignored_paths(t4);
    let negated = fs[c + 2].len() > 0 && fs[c + 2][0] == '!';
    assert forall|k: int| 0 <= k < c implies #[trigger] t4[k] == t0[k] by {}
    let goal = if negated {
        before
    } else {
        before.insert(fs[c + 3])
    };
    assert forall|p: Seq<char>| after.contains(p) implies goal.contains(p) by {
        let k = choose|k: int|
            0 <= k < t4.len() && k % 4 == 3 && !(t4[k - 1].len() > 0 && t4[k - 1][0] == '!')
                && #[trigger] t4[k] == p;
        if k < c {
            assert(t4[k - 1] == t0[k - 1]);
        } else {
            assert(k == c + 3) by (nonlinear_arith)
                requires
                    c % 4 == 0,
                    c <= k < c + 4,
                    k % 4 == 3,
            ;
        }
    }
    assert forall|p: Seq<char>| goal.contains(p) implies after.contains(p) by {
        if !negated && p == fs[c + 3] {
            assert((c + 3) % 4 == 3) by (nonlinear_arith)
                requires
                    c % 4 == 0,
            ;
            assert(t4[c + 3] == p && t4[c + 2] == fs[c + 2]);
        } else {
            let k = choose|k: int|
                0 <= k < t0.len() && k % 4 == 3 && !(t0[k - 1].len() > 0 && t0[k - 1][0] == '!')
                    && #[trigger] t0[k] == p;
            assert(t4[k] == t0[k] && t4[k - 1] == t0[k - 1]);
        }
    }
    assert(after =~= goal);
}

/// `r` is what the output of `git check-ignore --stdin -z -v` says: the
/// paths it found ignored, in path order, or why the output is unreadable.
pub open spec fn read_ignored(output: Seq<u8>, r: Result<Vec<String>, String>) -> bool {
    match (r, nul_texts(output)) {
        (Ok(v), Ok(fs)) => fs.len() % 4 == 0 && ascending(v@) && texts(v@) == ignored_paths(fs),
        (Err(e), Ok(fs)) => fs.len() % 4 != 0 && e@
            == "git check-ignore output had an unexpected number of fields"@,
        (Err(e), Err(m)) => e@ == m,
        _ => false,
    }
}

/// Reads the output of `git check-ignore --stdin -z -v`: the paths it found
/// ignored, in path order.
pub fn parse_ignored_paths(output: &[u8]) -> (r: Result<Vec<String>, String>)
    ensures
        read_ignored(output@, r),
{
    let fields = match nul_separated_texts(output) {
        Ok(f) => f,
        Err(e) => {
            return Err(e);
        },
    };
    let ghost fs = nul_texts(output@)->Ok_0;
    if fields.len() % 4 != 0 {
        return Err("git check-ignore output had an unexpected number of fields".to_owned());
    }
    let mut matches: Vec<String> = Vec::new();
    let mut c: usize = 0;
    assert(texts(matches@) =~= Set::<Seq<char>>::empty());
    while c < fields.len()
        invariant
            c <= fields@.len(),
            c % 4 == 0,
            fields@.len() % 4 == 0,
            fields@.len() == fs.len(),
            forall|n: int| 0 <= n < fs.len() ==> #[trigger] fields@[n]@ == fs[n],
            ascending(matches@),
            texts(matches@) == ignored_paths(fs.take(c as int)),
        decreases fields.len() - c,
    {
        let pattern = to_chars(fields[c + 2].as_str());
        let negated = pattern.len() > 0 && pattern[0] == '!';
        proof {
            lemma_ignored_paths_step(fs, c as int);
        }
        if !negated {
            let path = chars_to_string(to_chars(fields[c + 3].as_str()).as_slice());
            insert_text(&mut matches, path);
        }
        c = c + 4;
    }
    assert(fs.take(c as int) =~= fs);
    Ok(matches)
}

/// `git check-ignore` exits with 0 when it found some path ignored and with
/// 1 when it found none; any other end is a failure of the command.
pub open spec fn check_ignore_ran(exit_code: Option<i32>) -> bool {
    exit_code == Some(0i32) || exit_code == Some(1i32)
}

/// What a run of `git check-ignore --stdin -z -v` yields: the ignored paths
/// its output names when it ran through, else `failure`.
pub fn ignored_paths_from_run(exit_code: Option<i32>, output: &[u8], failure: String) -> (r: Result<
    Vec<String>,
    String,
>)
    ensures
        !check_ignore_ran(exit_code) ==> r == Err::<Vec<String>, String>(failure),
        check_ignore_ran(exit_code) ==> read_ignored(output@, r),
{
    let ran = match exit_code {
        Some(code) => code == 0 || code == 1,
        None => false,
    };
    if !ran {
        return Err(failure);
    }
    parse_ignored_paths(output)
}

// ---------------------------------------------------------------------------
// Walking the working tree
// ---------------------------------------------------------------------------

#[verifier::external_type_specification]
#[verifier::external_body]
pub struct ExPathBuf(PathBuf);

/// An entry of the working tree to ask git about: its workspace-relative
/// path, the path git is asked about (with a `/` after a directory), and
/// for a directory where it is on disk.
pub struct PathProbe {
    pub relative_path: String,
    pub git_path: String,
    pub absolute_path: Option<PathBuf>,
    pub is_dir: bool,
}

impl PathProbe {
    /// A directory entry.
    pub fn directory(relative_path: String, absolute_path: PathBuf) -> (r: PathProbe)
        ensures
            r.relative_path@ == relative_path@,
            r.git_path@ == relative_path@ + seq!['/'],
            r.absolute_path == Some(absolute_path),
            r.is_dir,
    {
        let mut git_path = to_chars(relative_path.as_str());
        git_path.push('/');
        PathProbe {
            git_path: chars_to_string(git_path.as_slice()),
            relative_path,
            absolute_path: Some(absolute_path),
            is_dir: true,
        }
    }

    /// A file entry.
    pub fn file(relative_path: String) -> (r: PathProbe)
        ensures
            r.relative_path@ == relative_path@,
            r.git_path@ == relative_path@,
            r.absolute_path is None,
            !r.is_dir,
    {
        PathProbe {
            git_path: chars_to_string(to_chars(relative_path.as_str()).as_slice()),
            relative_path,
            absolute_path: None,
            is_dir: false,
        }
    }

    /// The path git is asked about.
    pub fn git_path(&self) -> (r: &str)
        ensures
            r@ == self.git_path@,
    {
        self.git_path.as_str()
    }
}

/// Whether `item` is one of the texts of `set`.
pub fn contains_text(set: &Vec<String>, item: &str) -> (r: bool)
    ensures
        r == texts(set@).contains(item@),
{
    let wanted = to_chars(item);
    let mut k: usize = 0;
    while k < set.len()
        invariant
            k <= set@.len(),
            wanted@ == item@,
            forall|i: int| 0 <= i < k ==> (#[trigger] set@[i])@ != item@,
        decreases set.len() - k,
    {
        if chars_eq(to_chars(set[k].as_str()).as_slice(), wanted.as_slice()) {
            return true;
        }
        k = k + 1;
    }
    false
}

/// The last component of a relative path the walk produced.
pub open spec fn file_name(p: Seq<char>) -> Seq<char>
    decreases p.len(),
{
    if p.len() == 0 {
        seq![]
    } else if p.last() == '/' {
        seq![]
    } else {
        file_name(p.drop_last()).push(p.last())
    }
}

fn file_name_exec(p: &str) -> (r: Vec<char>)
    ensures
        r@ == file_name(p@),
{
    let chars = to_chars(p);
    let mut n = chars.len();
    assert(chars@.take(n as int) =~= chars@);
    assert(chars@.subrange(n as int, n as int) =~= Seq::<char>::empty());
    assert(file_name(p@) =~= file_name(chars@.take(n as int)) + chars@.subrange(n as int, n as int));
    while n > 0 && chars[n - 1] != '/'
        invariant
            n <= chars@.len(),
            chars@ == p@,
            file_name(p@) == file_name(chars@.take(n as int)) + chars@.subrange(
                n as int,
                chars@.len() as int,
            ),
        decreases n,
    {
        proof {
            let t = chars@.take(n as int);
            assert(t.drop_last() =~= chars@.take(n - 1));
            assert(chars@.subrange(n - 1, chars@.len() as int) =~= seq![t.last()]
                + chars@.subrange(n as int, chars@.len() as int));
        }
        n = n - 1;
    }
    proof {
        assert(file_name(chars@.take(n as int)) =~= Seq::<char>::empty());
    }
    crate::text::slice_chars(&chars, n, chars.len())
}

/// What the walk does with an entry once git has answered.
#[derive(Debug, Clone, Copy, PartialEq, Eq)]
pub enum WalkStep {
    /// Leave it out.
    Skip,
    /// Walk into the directory.
    Descend,
    /// A visible file.
    Keep,
    /// A visible `.gitignore` file, whose patterns are read too.
    KeepIgnoreFile,
}

/// The step the walk takes for `probe`: an ignored directory is walked
/// only when git still lists something visible below it, an ignored file
/// is left out, and a visible file named `.gitignore` is read for patterns.
/// `visible_below` is only consulted for an ignored directory.
pub fn walk_step(probe: &PathProbe, ignored: bool, visible_below: bool) -> (r: WalkStep)
    ensures
        probe.is_dir ==> r == (if ignored && !visible_below {
            WalkStep::Skip
        } else {
            WalkStep::Descend
        }),
        !probe.is_dir ==> r == (if ignored {
            WalkStep::Skip
        } else if file_name(probe.relative_path@) == ".gitignore"@ {
            WalkStep::KeepIgnoreFile
        } else {
            WalkStep::Keep
        }),
{
    if probe.is_dir {
        if ignored && !visible_below {
            return WalkStep::Skip;
        }
        return WalkStep::Descend;
    }
    if ignored {
        return WalkStep::Skip;
    }
    let name = file_name_exec(probe.relative_path.as_str());
    let marker = to_chars(".gitignore");
    if chars_eq(name.as_slice(), marker.as_slice()) {
        WalkStep::KeepIgnoreFile
    } else {
        WalkStep::Keep
    }
}

/// The entries the walk looks at in a directory: everything but git's own
/// `.git` at the workspace root.
pub fn walks_into(relative_dir: &str, name: &str) -> (r: bool)
    ensures
        r == !(relative_dir@ == "."@ && name@ == ".git"@),
{
    let dot = to_chars(".");
    let git = to_chars(".git");
    !(chars_eq(to_chars(relative_dir).as_slice(), dot.as_slice()) && chars_eq(
        to_chars(name).as_slice(),
        git.as_slice(),
    ))
}

/// The index state for what the walk found: the listing of the visible
/// files and the patterns of the `.gitignore` files (path and content).
pub fn collect_index_state(visible_files: &[String], gitignore_files: &[(String, String)]) -> (r:
    IndexState)
    ensures
        lists(r.entries@, directory_listing(visible_files@)),
        ascending(r.exclude_dirs@),
        ascending(r.exclude_files@),
        texts(r.exclude_dirs@) == repo_patterns(gitignore_files@).filter(|p: Seq<char>| names_dirs(p)),
        texts(r.exclude_files@) == repo_patterns(gitignore_files@).filter(
            |p: Seq<char>| !names_dirs(p),
        ),
{
    let patterns = collect_repo_ignore_patterns(gitignore_files);
    IndexState {
        entries: build_directory_entries(visible_files),
        exclude_dirs: patterns.exclude_dirs,
        exclude_files: patterns.exclude_files,
    }
}

} // verus!

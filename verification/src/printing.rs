//! Printing fragments back to text, and reading the text again.
//!
//! `fragments_text` prints a fragment list; `printable` says when that
//! print parses back to the same list. Parsed content is printable once its
//! numeric tokens are written as plain id links.
use vstd::prelude::*;
use crate::text::{
    all_digits, contains, decimal, digit_char, digit_value, digits_value, find_from, is_digit,
    occurs_at, };
use crate::domain::{lookup_key_of, LookupKeyError};
use crate::syntax::{
    links_of, classify_body, close_delim, fragment_text, fragments_text, id_in_range, label_sep, link_text,
    open_delim, parse_from, parse_spec, valid_label, FragmentSpec, LinkSpec,
};

verus! {

// ---------------------------------------------------------------------------
// Searching in a suffix
// ---------------------------------------------------------------------------

/// Searching `s` from `from` is searching its suffix from `i` on, shifted.
pub proof fn lemma_find_from_shift(s: Seq<char>, needle: Seq<char>, i: int, from: int)
    requires
        0 <= i <= from,
        i <= s.len(),
    ensures
        find_from(s, needle, from) == match find_from(
            s.subrange(i, s.len() as int),
            needle,
            from - i,
        ) {
            Some(j) => Some(j + i),
            None => None::<int>,
        },
    decreases s.len() + 1 - from,
{
    let t = s.subrange(i, s.len() as int);
    if from + needle.len() > s.len() {
    } else {
        assert(occurs_at(s, needle, from) == occurs_at(t, needle, from - i)) by {
            assert(s.subrange(from, from + needle.len()) =~= t.subrange(
                from - i,
                from - i + needle.len(),
            ));
        }
        if !occurs_at(s, needle, from) {
            lemma_find_from_shift(s, needle, i, from + 1);
        }
    }
}

/// Parsing from position `i` is parsing the suffix that starts there.
pub proof fn lemma_parse_from_suffix(s: Seq<char>, i: int)
    requires
        0 <= i <= s.len(),
    ensures
        parse_from(s, i) == parse_from(s.subrange(i, s.len() as int), 0),
    decreases s.len() - i,
{
    let t = s.subrange(i, s.len() as int);
    if i >= s.len() {
    } else {
        lemma_find_from_shift(s, open_delim(), i, i);
        match find_from(s, open_delim(), i) {
            None => {
                assert(t.subrange(0, t.len() as int) =~= s.subrange(i, s.len() as int));
            },
            Some(j) => {
                crate::syntax::lemma_find_from_bounds(s, open_delim(), i);
                lemma_find_from_shift(s, close_delim(), i, j + 2);
                match find_from(s, close_delim(), j + 2) {
                    None => {},
                    Some(k) => {
                        crate::syntax::lemma_find_from_bounds(s, close_delim(), j + 2);
                        assert(t.subrange(j - i + 2, k - i) =~= s.subrange(j + 2, k));
                        assert(t.subrange(0, j - i) =~= s.subrange(i, j));
                        lemma_parse_from_suffix(s, k + 2);
                        lemma_parse_from_suffix(t, k - i + 2);
                        assert(t.subrange(k - i + 2, t.len() as int) =~= s.subrange(
                            k + 2,
                            s.len() as int,
                        ));
                    },
                }
            },
        }
    }
}

/// With no occurrence found, `needle` occurs nowhere from `from` on.
pub proof fn lemma_find_from_none(s: Seq<char>, needle: Seq<char>, from: int)
    requires
        0 <= from,
        find_from(s, needle, from) is None,
    ensures
        forall|k: int| from <= k ==> !occurs_at(s, needle, k),
    decreases s.len() + 1 - from,
{
    if from + needle.len() <= s.len() {
        lemma_find_from_none(s, needle, from + 1);
    }
}

/// The first occurrence at or after `from` is at `j` when it occurs there
/// and nowhere in between.
pub proof fn lemma_find_from_first(s: Seq<char>, needle: Seq<char>, from: int, j: int)
    requires
        0 <= from <= j,
        occurs_at(s, needle, j),
        forall|k: int| from <= k < j ==> !occurs_at(s, needle, k),
    ensures
        find_from(s, needle, from) == Some(j),
    decreases j - from,
{
    if from < j {
        lemma_find_from_first(s, needle, from + 1, j);
    }
}

// ---------------------------------------------------------------------------
// Link bodies
// ---------------------------------------------------------------------------

/// The number that decimal notation writes.
pub proof fn lemma_decimal_value(v: nat)
    ensures
        digits_value(decimal(v)) == v,
        all_digits(decimal(v)),
        decimal(v).len() > 0,
    decreases v,
{
    crate::canonical::lemma_decimal_digits(v);
    if v >= 10 {
        lemma_decimal_value(v / 10);
        let d = decimal(v);
        assert(d.drop_last() =~= decimal(v / 10));
        assert(d.last() == digit_char(v % 10));
        lemma_digit_char_value(v % 10);
        assert(digits_value(d) == digits_value(decimal(v / 10)) * 10 + digit_value(d.last()));
        assert((v / 10) * 10 + v % 10 == v);
    } else {
        lemma_digit_char_value(v);
        let d = decimal(v);
        assert(d.drop_last() =~= Seq::<char>::empty());
        assert(digits_value(d) == digits_value(d.drop_last()) * 10 + digit_value(d.last()));
    }
}

proof fn lemma_digit_char_value(d: nat)
    requires
        d < 10,
    ensures
        digit_value(digit_char(d)) == d,
        is_digit(digit_char(d)),
{
}

/// What stands between a link's `{{` and `}}`.
pub open spec fn link_body(l: LinkSpec) -> Seq<char> {
    match l {
        LinkSpec::ById(id) => decimal(id as nat),
        LinkSpec::ByNumericToken(id) => decimal(id as nat),
        LinkSpec::ByLookup(k) => k,
        LinkSpec::ByIdWithLabel(id, label) => decimal(id as nat) + label_sep() + label,
    }
}

/// A link whose storage text reads back as the same link. A numeric token
/// prints as a plain id link, so it is not one.
pub open spec fn printable_link(l: LinkSpec) -> bool {
    match l {
        LinkSpec::ById(id) => id >= 1 && id_in_range(id as nat),
        LinkSpec::ByNumericToken(_) => false,
        LinkSpec::ByLookup(k) => lookup_key_of(k) == Ok::<Seq<char>, LookupKeyError>(k),
        LinkSpec::ByIdWithLabel(id, label) => id >= 1 && id_in_range(id as nat) && valid_label(
            label,
        ),
    }
}

pub proof fn lemma_link_text_body(l: LinkSpec)
    ensures
        link_text(l) == open_delim() + link_body(l) + close_delim(),
{
    assert(link_text(l) =~= open_delim() + link_body(l) + close_delim());
}

proof fn lemma_digits_have_no_colon(d: Seq<char>, k: int)
    requires
        all_digits(d),
        0 <= k < d.len(),
    ensures
        d[k] != ':',
        d[k] != '}',
        d[k] != '{',
{
    assert(is_digit(d[k]));
}

/// A printable link's body does not end its token early: it is not empty,
/// holds no `}}` and does not end with `}`.
pub proof fn lemma_body_closes(l: LinkSpec)
    requires
        printable_link(l),
    ensures
        link_body(l).len() > 0,
        link_body(l).last() != '}',
        forall|k: int| !#[trigger] occurs_at(link_body(l), close_delim(), k),
{
    let b = link_body(l);
    match l {
        LinkSpec::ById(id) => {
            lemma_decimal_value(id as nat);
            lemma_digits_have_no_colon(b, b.len() - 1);
            assert forall|k: int| !#[trigger] occurs_at(b, close_delim(), k) by {
                if occurs_at(b, close_delim(), k) {
                    assert(b.subrange(k, k + 2)[0] == b[k]);
                    lemma_digits_have_no_colon(b, k);
                }
            }
        },
        LinkSpec::ByNumericToken(_) => {},
        LinkSpec::ByLookup(k) => {
            crate::domain::lemma_trim_empty(k);
            assert(!crate::text::has_char(k, '}'));
            assert forall|m: int| !#[trigger] occurs_at(b, close_delim(), m) by {
                if occurs_at(b, close_delim(), m) {
                    assert(b.subrange(m, m + 2)[0] == b[m]);
                }
            }
        },
        LinkSpec::ByIdWithLabel(id, label) => {
            lemma_decimal_value(id as nat);
            let d = decimal(id as nat);
            crate::domain::lemma_trim_empty(label);
            assert(label.len() > 0) by {
                if label.len() == 0 {
                    assert(crate::text::all_ws(label));
                }
            }
            assert(b.last() == label.last());
            lemma_find_from_none(label, close_delim(), 0);
            assert forall|k: int| !#[trigger] occurs_at(b, close_delim(), k) by {
                if occurs_at(b, close_delim(), k) {
                    assert(b.subrange(k, k + 2)[0] == b[k]);
                    assert(b.subrange(k, k + 2)[1] == b[k + 1]);
                    if k < d.len() {
                        lemma_digits_have_no_colon(d, k);
                        assert(b[k] == d[k]);
                    } else if k < d.len() + 2 {
                        assert(b[k] == ':');
                    } else {
                        let m = k - d.len() - 2;
                        assert(b[k] == label[m]);
                        assert(b[k + 1] == label[m + 1]);
                        assert(label.subrange(m, m + 2) =~= close_delim());
                        assert(occurs_at(label, close_delim(), m));
                    }
                }
            }
        },
    }
}

/// A printable link's body reads back as the link.
pub proof fn lemma_classify_body(l: LinkSpec)
    requires
        printable_link(l),
    ensures
        classify_body(link_body(l)) == Some(l),
{
    let b = link_body(l);
    match l {
        LinkSpec::ById(id) => {
            lemma_decimal_value(id as nat);
            assert forall|k: int| 0 <= k implies !occurs_at(b, label_sep(), k) by {
                if occurs_at(b, label_sep(), k) {
                    assert(b.subrange(k, k + 2)[0] == b[k]);
                    lemma_digits_have_no_colon(b, k);
                }
            }
            crate::syntax::lemma_find_from_bounds(b, label_sep(), 0);
            assert(find_from(b, label_sep(), 0) is None) by {
                if let Some(j) = find_from(b, label_sep(), 0) {
                    assert(occurs_at(b, label_sep(), j));
                }
            }
            assert(b.len() > 0 && all_digits(b));
            assert(digits_value(b) == id);
        },
        LinkSpec::ByNumericToken(_) => {},
        LinkSpec::ByLookup(k) => {
            crate::domain::lemma_trim_empty(k);
            crate::domain::lemma_trim_idempotent(k);
            assert(!contains(k, label_sep()));
            assert(find_from(b, label_sep(), 0) is None);
        },
        LinkSpec::ByIdWithLabel(id, label) => {
            lemma_decimal_value(id as nat);
            let d = decimal(id as nat);
            assert(occurs_at(b, label_sep(), d.len() as int)) by {
                assert(b.subrange(d.len() as int, d.len() as int + 2) =~= label_sep());
            }
            assert forall|k: int| 0 <= k < d.len() implies !occurs_at(b, label_sep(), k) by {
                if occurs_at(b, label_sep(), k) {
                    assert(b.subrange(k, k + 2)[0] == b[k]);
                    assert(b[k] == d[k]);
                    lemma_digits_have_no_colon(d, k);
                }
            }
            lemma_find_from_first(b, label_sep(), 0, d.len() as int);
            assert(b.subrange(0, d.len() as int) =~= d);
            assert(b.subrange(d.len() as int + 2, b.len() as int) =~= label);
        },
    }
}

/// A text that opens with a printable link: the token is found at once and
/// closes right after its body.
pub proof fn lemma_link_first(l: LinkSpec, rest: Seq<char>)
    requires
        printable_link(l),
    ensures
        ({
            let s = link_text(l) + rest;
            let b = link_body(l);
            &&& find_from(s, open_delim(), 0) == Some(0int)
            &&& find_from(s, close_delim(), 2) == Some(2 + b.len() as int)
            &&& s.subrange(2, 2 + b.len() as int) == b
            &&& s.subrange(4 + b.len() as int, s.len() as int) == rest
        }),
{
    let s = link_text(l) + rest;
    let b = link_body(l);
    lemma_link_text_body(l);
    lemma_body_closes(l);
    assert(occurs_at(s, open_delim(), 0)) by {
        assert(s.subrange(0, 2) =~= open_delim());
    }
    assert(occurs_at(s, close_delim(), 2 + b.len() as int)) by {
        assert(s.subrange(2 + b.len() as int, 4 + b.len() as int) =~= close_delim());
    }
    assert forall|k: int| 2 <= k < 2 + b.len() as int implies !occurs_at(s, close_delim(), k) by {
        if occurs_at(s, close_delim(), k) {
            assert(s.subrange(k, k + 2)[0] == s[k]);
            assert(s.subrange(k, k + 2)[1] == s[k + 1]);
            assert(s[k] == b[k - 2]);
            if k + 1 < 2 + b.len() as int {
                assert(s[k + 1] == b[k - 1]);
                assert(b.subrange(k - 2, k) =~= close_delim());
                assert(occurs_at(b, close_delim(), k - 2));
            }
        }
    }
    lemma_find_from_first(s, close_delim(), 2, 2 + b.len() as int);
    assert(s.subrange(2, 2 + b.len() as int) =~= b);
    assert(s.subrange(4 + b.len() as int, s.len() as int) =~= rest);
}

// ---------------------------------------------------------------------------
// Printable fragment lists
// ---------------------------------------------------------------------------

/// Fragment `i` prints so that it reads back: a text is not empty, holds no
/// `{{`, and before a link does not end with `{`; a text is never followed
/// by another text; a link is printable.
pub open spec fn printable_at(fs: Seq<FragmentSpec>, i: int) -> bool {
    match fs[i] {
        FragmentSpec::Text(t) => t.len() > 0 && !contains(t, open_delim()) && (i + 1 < fs.len()
            ==> (fs[i + 1] is Link && t.last() != '{')),
        FragmentSpec::Link(l) => printable_link(l),
    }
}

pub open spec fn printable(fs: Seq<FragmentSpec>) -> bool {
    forall|i: int| 0 <= i < fs.len() ==> #[trigger] printable_at(fs, i)
}

pub proof fn lemma_fragments_text_prepend(f: FragmentSpec, fs: Seq<FragmentSpec>)
    ensures
        fragments_text(seq![f] + fs) == fragment_text(f) + fragments_text(fs),
    decreases fs.len(),
{
    if fs.len() > 0 {
        lemma_fragments_text_prepend(f, fs.drop_last());
        assert((seq![f] + fs).drop_last() =~= seq![f] + fs.drop_last());
        assert(fragment_text(f) + fragments_text(fs) =~= fragment_text(f) + fragments_text(
            fs.drop_last(),
        ) + fragment_text(fs.last()));
    } else {
        assert((seq![f] + fs).drop_last() =~= Seq::<FragmentSpec>::empty());
        assert(fragment_text(f) + fragments_text(fs) =~= fragment_text(f));
        assert(fragments_text(Seq::<FragmentSpec>::empty()) + fragment_text(f) =~= fragment_text(
            f,
        ));
    }
}

proof fn lemma_printable_drop_first(fs: Seq<FragmentSpec>)
    requires
        printable(fs),
        fs.len() > 0,
    ensures
        printable(fs.drop_first()),
{
    let r = fs.drop_first();
    assert forall|i: int| 0 <= i < r.len() implies #[trigger] printable_at(r, i) by {
        assert(printable_at(fs, i + 1));
        assert(r[i] == fs[i + 1]);
        if i + 1 < r.len() {
            assert(r[i + 1] == fs[i + 2]);
        }
    }
}

/// A printable link followed by text that parses.
proof fn lemma_parse_link_then(l: LinkSpec, r: Seq<char>, rest: Seq<FragmentSpec>)
    requires
        printable_link(l),
        parse_spec(r) == Ok::<Seq<FragmentSpec>, crate::syntax::LinkSyntaxError>(rest),
    ensures
        parse_spec(link_text(l) + r) == Ok::<Seq<FragmentSpec>, crate::syntax::LinkSyntaxError>(
            seq![FragmentSpec::Link(l)] + rest,
        ),
{
    let s = link_text(l) + r;
    lemma_link_first(l, r);
    lemma_classify_body(l);
    let b = link_body(l);
    lemma_parse_from_suffix(s, 4 + b.len() as int);
    assert(seq![] + seq![FragmentSpec::Link(l)] + rest =~= seq![FragmentSpec::Link(l)] + rest);
}

/// A lone text without `{{` parses as itself.
proof fn lemma_parse_lone_text(t: Seq<char>)
    requires
        t.len() > 0,
        !contains(t, open_delim()),
    ensures
        parse_spec(t) == Ok::<Seq<FragmentSpec>, crate::syntax::LinkSyntaxError>(
            seq![FragmentSpec::Text(t)],
        ),
{
    crate::syntax::lemma_find_from_bounds(t, open_delim(), 0);
    assert(t.subrange(0, t.len() as int) =~= t);
}

/// A text, then a printable link, then text that parses.
proof fn lemma_parse_text_link_then(t: Seq<char>, l: LinkSpec, r: Seq<char>, rest: Seq<FragmentSpec>)
    requires
        t.len() > 0,
        !contains(t, open_delim()),
        t.last() != '{',
        printable_link(l),
        parse_spec(r) == Ok::<Seq<FragmentSpec>, crate::syntax::LinkSyntaxError>(rest),
    ensures
        parse_spec(t + (link_text(l) + r)) == Ok::<Seq<FragmentSpec>, crate::syntax::LinkSyntaxError>(
            seq![FragmentSpec::Text(t), FragmentSpec::Link(l)] + rest,
        ),
{
    let tail = link_text(l) + r;
    let s = t + tail;
    lemma_link_first(l, r);
    lemma_classify_body(l);
    lemma_find_from_none_of_contains(t);
    let b = link_body(l);
    let n = t.len() as int;
    assert(occurs_at(s, open_delim(), n)) by {
        assert(s.subrange(n, n + 2) =~= tail.subrange(0, 2));
        assert(tail.subrange(0, 2) =~= open_delim()) by {
            crate::syntax::lemma_find_from_bounds(tail, open_delim(), 0);
        }
    }
    assert forall|k: int| 0 <= k < n implies !occurs_at(s, open_delim(), k) by {
        if occurs_at(s, open_delim(), k) {
            assert(s.subrange(k, k + 2)[0] == s[k]);
            assert(s.subrange(k, k + 2)[1] == s[k + 1]);
            if k + 1 < n {
                assert(t.subrange(k, k + 2) =~= open_delim());
                assert(occurs_at(t, open_delim(), k));
            } else {
                assert(s[k] == t.last());
            }
        }
    }
    lemma_find_from_first(s, open_delim(), 0, n);
    assert(s.subrange(n, s.len() as int) =~= tail);
    lemma_find_from_shift(s, close_delim(), n, n + 2);
    assert(s.subrange(n + 2, n + 2 + b.len() as int) =~= tail.subrange(2, 2 + b.len() as int));
    lemma_parse_from_suffix(s, n + 4 + b.len() as int);
    assert(s.subrange(n + 4 + b.len() as int, s.len() as int) =~= tail.subrange(
        4 + b.len() as int,
        tail.len() as int,
    ));
    assert(s.subrange(0, n) =~= t);
    assert(seq![FragmentSpec::Text(t)] + seq![FragmentSpec::Link(l)] + rest =~= seq![
        FragmentSpec::Text(t),
        FragmentSpec::Link(l),
    ] + rest);
}

/// Printing a printable fragment list and parsing the text gives the list back.
pub proof fn lemma_print_parse(fs: Seq<FragmentSpec>)
    requires
        printable(fs),
    ensures
        parse_spec(fragments_text(fs)) == Ok::<Seq<FragmentSpec>, crate::syntax::LinkSyntaxError>(
            fs,
        ),
    decreases fs.len(),
{
    if fs.len() == 0 {
        assert(fs =~= Seq::<FragmentSpec>::empty());
        assert(fragments_text(fs) =~= Seq::<char>::empty());
        return;
    }
    let rest = fs.drop_first();
    assert(fs =~= seq![fs[0]] + rest);
    lemma_fragments_text_prepend(fs[0], rest);
    lemma_printable_drop_first(fs);
    assert(printable_at(fs, 0));
    match fs[0] {
        FragmentSpec::Link(l) => {
            lemma_print_parse(rest);
            lemma_parse_link_then(l, fragments_text(rest), rest);
        },
        FragmentSpec::Text(t) => {
            if fs.len() == 1 {
                assert(rest =~= Seq::<FragmentSpec>::empty());
                assert(t + fragments_text(rest) =~= t);
                lemma_parse_lone_text(t);
            } else {
                assert(printable_at(fs, 1));
                let l = fs[1]->Link_0;
                let rest2 = rest.drop_first();
                assert(rest =~= seq![fs[1]] + rest2);
                lemma_fragments_text_prepend(fs[1], rest2);
                lemma_printable_drop_first(rest);
                lemma_print_parse(rest2);
                lemma_parse_text_link_then(t, l, fragments_text(rest2), rest2);
                assert(seq![FragmentSpec::Text(t), FragmentSpec::Link(l)] + rest2 =~= fs);
            }
        },
    }
}

proof fn lemma_find_from_none_of_contains(t: Seq<char>)
    requires
        !contains(t, open_delim()),
    ensures
        forall|k: int| 0 <= k ==> !#[trigger] occurs_at(t, open_delim(), k),
{
    lemma_find_from_none(t, open_delim(), 0);
}

// ---------------------------------------------------------------------------
// Parsed content is printable
// ---------------------------------------------------------------------------

/// A numeric token read as the plain id link it prints as.
pub open spec fn normalized_link(l: LinkSpec) -> LinkSpec {
    match l {
        LinkSpec::ByNumericToken(id) => LinkSpec::ById(id),
        _ => l,
    }
}

pub open spec fn normalized_fragment(f: FragmentSpec) -> FragmentSpec {
    match f {
        FragmentSpec::Link(l) => FragmentSpec::Link(normalized_link(l)),
        FragmentSpec::Text(t) => FragmentSpec::Text(t),
    }
}

/// Fragments with every numeric token read as a plain id link.
pub open spec fn normalized(fs: Seq<FragmentSpec>) -> Seq<FragmentSpec> {
    fs.map_values(|f: FragmentSpec| normalized_fragment(f))
}

proof fn lemma_printable_prepend_link(l: LinkSpec, rest: Seq<FragmentSpec>)
    requires
        printable_link(l),
        printable(rest),
    ensures
        printable(seq![FragmentSpec::Link(l)] + rest),
{
    let fs = seq![FragmentSpec::Link(l)] + rest;
    assert forall|i: int| 0 <= i < fs.len() implies #[trigger] printable_at(fs, i) by {
        if i > 0 {
            assert(printable_at(rest, i - 1));
            assert(fs[i] == rest[i - 1]);
            if i + 1 < fs.len() {
                assert(fs[i + 1] == rest[i]);
            }
        }
    }
}

proof fn lemma_printable_prepend_text(t: Seq<char>, rest: Seq<FragmentSpec>)
    requires
        t.len() > 0,
        !contains(t, open_delim()),
        rest.len() > 0 ==> (rest[0] is Link && t.last() != '{'),
        printable(rest),
    ensures
        printable(seq![FragmentSpec::Text(t)] + rest),
{
    let fs = seq![FragmentSpec::Text(t)] + rest;
    assert forall|i: int| 0 <= i < fs.len() implies #[trigger] printable_at(fs, i) by {
        if i > 0 {
            assert(printable_at(rest, i - 1));
            assert(fs[i] == rest[i - 1]);
            if i + 1 < fs.len() {
                assert(fs[i + 1] == rest[i]);
            }
        } else if fs.len() > 1 {
            assert(fs[1] == rest[0]);
        }
    }
}

proof fn lemma_wf_link_printable(l: LinkSpec)
    requires
        crate::syntax::link_wf(l),
    ensures
        printable_link(normalized_link(l)),
{
}

/// What parsing yields, read with numeric tokens as id links, is printable.
pub proof fn lemma_parse_printable(s: Seq<char>, i: int)
    requires
        0 <= i,
    ensures
        parse_from(s, i) matches Ok(fs) ==> printable(normalized(fs)),
    decreases s.len() - i,
{
    if i >= s.len() {
        assert(normalized(Seq::<FragmentSpec>::empty()) =~= Seq::<FragmentSpec>::empty());
        return;
    }
    crate::syntax::lemma_find_from_bounds(s, open_delim(), i);
    match find_from(s, open_delim(), i) {
        None => {
            let t = s.subrange(i, s.len() as int);
            lemma_find_from_none(s, open_delim(), i);
            assert(!contains(t, open_delim())) by {
                if contains(t, open_delim()) {
                    crate::syntax::lemma_find_from_bounds(t, open_delim(), 0);
                    let m = find_from(t, open_delim(), 0)->0;
                    assert(s.subrange(i + m, i + m + 2) =~= t.subrange(m, m + 2));
                    assert(occurs_at(s, open_delim(), i + m));
                }
            }
            assert(normalized(seq![FragmentSpec::Text(t)]) =~= seq![FragmentSpec::Text(t)]);
            lemma_printable_prepend_text(t, Seq::<FragmentSpec>::empty());
            assert(seq![FragmentSpec::Text(t)] + Seq::<FragmentSpec>::empty() =~= seq![
                FragmentSpec::Text(t),
            ]);
        },
        Some(j) => {
            crate::syntax::lemma_find_from_bounds(s, close_delim(), j + 2);
            match find_from(s, close_delim(), j + 2) {
                None => {},
                Some(k) => {
                    crate::syntax::lemma_classify_wf(s.subrange(j + 2, k));
                    lemma_parse_printable(s, k + 2);
                    match classify_body(s.subrange(j + 2, k)) {
                        None => {},
                        Some(link) => {
                            if let Ok(rest) = parse_from(s, k + 2) {
                                let nrest = normalized(rest);
                                let nl = normalized_link(link);
                                lemma_wf_link_printable(link);
                                lemma_printable_prepend_link(nl, nrest);
                                let tail = seq![FragmentSpec::Link(nl)] + nrest;
                                if j > i {
                                    let t = s.subrange(i, j);
                                    assert(!contains(t, open_delim())) by {
                                        if contains(t, open_delim()) {
                                            crate::syntax::lemma_find_from_bounds(
                                                t,
                                                open_delim(),
                                                0,
                                            );
                                            let m = find_from(t, open_delim(), 0)->0;
                                            assert(s.subrange(i + m, i + m + 2) =~= t.subrange(
                                                m,
                                                m + 2,
                                            ));
                                            assert(occurs_at(s, open_delim(), i + m));
                                        }
                                    }
                                    assert(t.last() != '{') by {
                                        if t.last() == '{' {
                                            assert(s.subrange(j - 1, j + 1) =~= open_delim()) by {
                                                assert(s.subrange(j, j + 2) =~= open_delim());
                                            }
                                            assert(occurs_at(s, open_delim(), j - 1));
                                        }
                                    }
                                    lemma_printable_prepend_text(t, tail);
                                    assert(normalized(
                                        seq![FragmentSpec::Text(t)] + seq![FragmentSpec::Link(link)]
                                            + rest,
                                    ) =~= seq![FragmentSpec::Text(t)] + tail);
                                } else {
                                    assert(normalized(
                                        Seq::<FragmentSpec>::empty() + seq![
                                            FragmentSpec::Link(link),
                                        ] + rest,
                                    ) =~= tail);
                                }
                            }
                        },
                    }
                },
            }
        },
    }
}

// ---------------------------------------------------------------------------
// Fragment lists that keep the texts and replace the links
// ---------------------------------------------------------------------------

/// How many links come before fragment `i`.
pub open spec fn link_count(fs: Seq<FragmentSpec>, i: int) -> int {
    links_of(fs.take(i)).len() as int
}

pub proof fn lemma_link_count_at(fs: Seq<FragmentSpec>, i: int)
    requires
        0 <= i < fs.len(),
        fs[i] is Link,
    ensures
        0 <= link_count(fs, i) < links_of(fs).len(),
        links_of(fs)[link_count(fs, i)] == fs[i]->Link_0,
    decreases fs.len(),
{
    if i < fs.len() - 1 {
        lemma_link_count_at(fs.drop_last(), i);
        assert(fs.drop_last().take(i) =~= fs.take(i));
        assert(fs.drop_last()[i] == fs[i]);
    } else {
        assert(fs.drop_last() =~= fs.take(i));
    }
}

/// `gs` keeps every text of `fs` in place and puts a link where `fs` has one.
pub open spec fn same_shape(fs: Seq<FragmentSpec>, gs: Seq<FragmentSpec>) -> bool {
    &&& gs.len() == fs.len()
    &&& forall|i: int|
        0 <= i < fs.len() ==> match fs[i] {
            FragmentSpec::Text(t) => #[trigger] gs[i] == FragmentSpec::Text(t),
            FragmentSpec::Link(_) => gs[i] is Link,
        }
}

/// Texts kept in place and printable links make a printable list, when
/// the original list was printable once normalized.
pub proof fn lemma_printable_by_shape(fs: Seq<FragmentSpec>, gs: Seq<FragmentSpec>)
    requires
        printable(normalized(fs)),
        same_shape(fs, gs),
        forall|i: int| 0 <= i < gs.len() ==> (#[trigger] gs[i] matches FragmentSpec::Link(l) ==> printable_link(l)),
    ensures
        printable(gs),
{
    let nf = normalized(fs);
    assert forall|i: int| 0 <= i < gs.len() implies #[trigger] printable_at(gs, i) by {
        assert(printable_at(nf, i));
        assert(nf[i] == normalized_fragment(fs[i]));
        if i + 1 < gs.len() {
            assert(nf[i + 1] == normalized_fragment(fs[i + 1]));
            if fs[i + 1] is Link {
                assert(gs[i + 1] is Link);
            }
        }
    }
}

pub proof fn lemma_resolve_at(fs: Seq<FragmentSpec>, ids: Seq<int>)
    requires
        ids.len() == links_of(fs).len(),
    ensures
        same_shape(fs, crate::canonical::resolve(fs, ids)),
        forall|i: int|
            0 <= i < fs.len() ==> (fs[i] matches FragmentSpec::Link(l) ==> #[trigger] crate::canonical::resolve(fs, ids)[i]
                == FragmentSpec::Link(crate::canonical::resolved_link(l, ids[link_count(fs, i)]))),
    decreases fs.len(),
{
    let r = crate::canonical::resolve(fs, ids);
    if fs.len() == 0 {
        return;
    }
    let dl = fs.drop_last();
    match fs.last() {
        FragmentSpec::Text(t) => {
            assert(links_of(fs) == links_of(dl));
            lemma_resolve_at(dl, ids);
            assert forall|i: int| 0 <= i < fs.len() - 1 implies fs[i] == dl[i] && fs.take(i) =~= dl.take(i) by {}
        },
        FragmentSpec::Link(l) => {
            assert(links_of(fs) == links_of(dl).push(l));
            lemma_resolve_at(dl, ids.drop_last());
            assert forall|i: int| 0 <= i < fs.len() - 1 implies fs[i] == dl[i] && fs.take(i) =~= dl.take(i) by {}
            assert(fs.take(fs.len() - 1) =~= dl);
            assert forall|i: int| 0 <= i < fs.len() - 1 && fs[i] is Link implies link_count(fs, i) < ids.len() - 1 by {
                lemma_link_count_at(dl, i);
                assert(dl.take(i) =~= fs.take(i));
            }
        },
    }
}

// ---------------------------------------------------------------------------
// Escaped previews
// ---------------------------------------------------------------------------

/// An escaped preview keeps its first character, ends in no `}`, holds
/// neither `{{` nor `}}`, and adds nothing but spaces.
pub proof fn lemma_escape_preview(p: Seq<char>)
    ensures
        ({
            let e = crate::canonical::escape_preview(p);
            &&& (e.len() == 0 <==> p.len() == 0)
            &&& p.len() > 0 ==> e[0] == p[0]
            &&& e.len() > 0 ==> e.last() != '}'
            &&& forall|k: int| !#[trigger] occurs_at(e, open_delim(), k)
            &&& forall|k: int| !#[trigger] occurs_at(e, close_delim(), k)
            &&& forall|k: int| 0 <= k < e.len() ==> (#[trigger] e[k] == ' ' || crate::text::has_char(p, e[k]))
        }),
    decreases p.len(),
{
    let e = crate::canonical::escape_preview(p);
    if p.len() == 0 {
        return;
    }
    if p.len() == 1 {
        assert forall|k: int| !#[trigger] occurs_at(e, open_delim(), k) by {
            if occurs_at(e, open_delim(), k) {
                assert(e.subrange(k, k + 2)[1] == e[k + 1]);
                assert(e.subrange(k, k + 2)[0] == e[k]);
            }
        }
        assert forall|k: int| !#[trigger] occurs_at(e, close_delim(), k) by {
            if occurs_at(e, close_delim(), k) {
                assert(e.subrange(k, k + 2)[1] == e[k + 1]);
            }
        }
        assert forall|k: int| 0 <= k < e.len() implies (#[trigger] e[k] == ' ' || crate::text::has_char(p, e[k])) by {
            if e[k] != ' ' {
                assert(e[k] == p[0]);
            }
        }
        return;
    }
    let rest = p.drop_first();
    lemma_escape_preview(rest);
    let er = crate::canonical::escape_preview(rest);
    let doubled = (p[0] == '{' && p[1] == '{') || (p[0] == '}' && p[1] == '}');
    let head: Seq<char> = if doubled {
        seq![p[0], ' ']
    } else {
        seq![p[0]]
    };
    assert(e == head + er);
    assert(er[0] == p[1]);
    assert forall|k: int| !#[trigger] occurs_at(e, open_delim(), k) by {
        if occurs_at(e, open_delim(), k) {
            assert(e.subrange(k, k + 2)[0] == e[k]);
            assert(e.subrange(k, k + 2)[1] == e[k + 1]);
            if k >= head.len() {
                assert(er.subrange(k - head.len(), k - head.len() + 2) =~= e.subrange(k, k + 2));
                assert(occurs_at(er, open_delim(), k - head.len()));
            }
        }
    }
    assert forall|k: int| !#[trigger] occurs_at(e, close_delim(), k) by {
        if occurs_at(e, close_delim(), k) {
            assert(e.subrange(k, k + 2)[0] == e[k]);
            assert(e.subrange(k, k + 2)[1] == e[k + 1]);
            if k >= head.len() {
                assert(er.subrange(k - head.len(), k - head.len() + 2) =~= e.subrange(k, k + 2));
                assert(occurs_at(er, close_delim(), k - head.len()));
            }
        }
    }
    assert forall|k: int| 0 <= k < e.len() implies (#[trigger] e[k] == ' ' || crate::text::has_char(p, e[k])) by {
        if k >= head.len() {
            assert(e[k] == er[k - head.len()]);
            if er[k - head.len()] != ' ' {
                let m = choose|m: int| 0 <= m < rest.len() && rest[m] == er[k - head.len()];
                assert(p[m + 1] == rest[m]);
            }
        } else if e[k] != ' ' {
            assert(e[k] == p[0]);
        }
    }
}

/// The label a rendered unlabelled link carries.
pub open spec fn preview_label(p: Seq<char>) -> Seq<char> {
    seq!['>'] + crate::canonical::escape_preview(p)
}

pub proof fn lemma_preview_label_valid(p: Seq<char>)
    requires
        crate::domain::is_single_line(p),
    ensures
        valid_label(preview_label(p)),
{
    let e = crate::canonical::escape_preview(p);
    let l = preview_label(p);
    lemma_escape_preview(p);
    assert(!crate::text::is_ws(l[0]));
    assert(!crate::text::all_ws(l));
    assert forall|k: int| !#[trigger] occurs_at(l, open_delim(), k) by {
        if occurs_at(l, open_delim(), k) {
            assert(l.subrange(k, k + 2)[0] == l[k]);
            if k >= 1 {
                assert(e.subrange(k - 1, k + 1) =~= l.subrange(k, k + 2));
                assert(occurs_at(e, open_delim(), k - 1));
            }
        }
    }
    assert forall|k: int| !#[trigger] occurs_at(l, close_delim(), k) by {
        if occurs_at(l, close_delim(), k) {
            assert(l.subrange(k, k + 2)[0] == l[k]);
            if k >= 1 {
                assert(e.subrange(k - 1, k + 1) =~= l.subrange(k, k + 2));
                assert(occurs_at(e, close_delim(), k - 1));
            }
        }
    }
    if contains(l, open_delim()) {
        crate::syntax::lemma_find_from_bounds(l, open_delim(), 0);
    }
    if contains(l, close_delim()) {
        crate::syntax::lemma_find_from_bounds(l, close_delim(), 0);
    }
    if e.len() > 0 {
        assert(l.last() == e.last());
    }
    assert forall|k: int| 0 <= k < l.len() implies l[k] != '\n' && l[k] != '\r' by {
        if k >= 1 {
            assert(l[k] == e[k - 1]);
            if e[k - 1] != ' ' {
                assert(crate::text::has_char(p, e[k - 1]));
            }
        }
    }
}

/// Every link of `links_of(fs)` is the link of some fragment of `fs`.
pub proof fn lemma_links_of_members(fs: Seq<FragmentSpec>)
    ensures
        forall|n: int|
            0 <= n < links_of(fs).len() ==> exists|i: int|
                0 <= i < fs.len() && #[trigger] fs[i] == FragmentSpec::Link(#[trigger] links_of(fs)[n]),
    decreases fs.len(),
{
    if fs.len() > 0 {
        let dl = fs.drop_last();
        lemma_links_of_members(dl);
        assert forall|n: int| 0 <= n < links_of(fs).len() implies exists|i: int|
            0 <= i < fs.len() && #[trigger] fs[i] == FragmentSpec::Link(#[trigger] links_of(fs)[n]) by {
            if n < links_of(dl).len() {
                let i = choose|i: int| 0 <= i < dl.len() && #[trigger] dl[i] == FragmentSpec::Link(links_of(dl)[n]);
                assert(fs[i] == dl[i]);
                assert(links_of(fs)[n] == links_of(dl)[n]);
            } else {
                assert(fs[fs.len() - 1] == fs.last());
            }
        }
    }
}

// ---------------------------------------------------------------------------
// Canonical content reads back as its resolved fragments
// ---------------------------------------------------------------------------

/// Fragments with no lookup and no numeric token resolve to themselves.
pub proof fn lemma_resolve_identity(gs: Seq<FragmentSpec>, ids: Seq<int>)
    requires
        forall|i: int|
            0 <= i < gs.len() ==> (#[trigger] gs[i] matches FragmentSpec::Link(l) ==> (l is ById
                || l is ByIdWithLabel)),
    ensures
        crate::canonical::resolve(gs, ids) == gs,
    decreases gs.len(),
{
    if gs.len() > 0 {
        let dl = gs.drop_last();
        assert forall|i: int| 0 <= i < dl.len() implies (#[trigger] dl[i] matches FragmentSpec::Link(l) ==> (l is ById
            || l is ByIdWithLabel)) by {
            assert(dl[i] == gs[i]);
        }
        lemma_resolve_identity(dl, ids);
        lemma_resolve_identity(dl, ids.drop_last());
        assert(gs[gs.len() - 1] == gs.last());
        assert(dl.push(gs.last()) =~= gs);
    }
}

/// Resolving parsed content with in-range targets gives printable fragments
/// without lookups or numeric tokens.
pub proof fn lemma_resolved_printable(s: Seq<char>, ids: Seq<int>)
    requires
        parse_spec(s) is Ok,
        crate::canonical::ids_fit(links_of(parse_spec(s)->Ok_0), ids),
        forall|n: int| 0 <= n < ids.len() ==> 1 <= #[trigger] ids[n] <= 0x7fff_ffff_ffff_ffff,
    ensures
        ({
            let r = crate::canonical::resolve(parse_spec(s)->Ok_0, ids);
            &&& printable(r)
            &&& forall|i: int|
                0 <= i < r.len() ==> (#[trigger] r[i] matches FragmentSpec::Link(l) ==> (l is ById
                    || l is ByIdWithLabel))
        }),
{
    let fs = parse_spec(s)->Ok_0;
    let r = crate::canonical::resolve(fs, ids);
    lemma_parse_printable(s, 0);
    crate::syntax::lemma_parse_links_wf(s, 0);
    lemma_resolve_at(fs, ids);
    assert forall|i: int| 0 <= i < r.len() implies (#[trigger] r[i] matches FragmentSpec::Link(l) ==> (printable_link(l)
        && (l is ById || l is ByIdWithLabel))) by {
        if let FragmentSpec::Link(l) = fs[i] {
            assert(crate::syntax::link_wf(l));
            lemma_link_count_at(fs, i);
            let x = ids[link_count(fs, i)];
            if let LinkSpec::ByLookup(k) = l {
                crate::syntax::lemma_key_is_label(k);
            }
        }
    }
    lemma_printable_by_shape(fs, r);
}

// ---------------------------------------------------------------------------
// Rendered content reads back with every unlabelled link labelled
// ---------------------------------------------------------------------------

/// How a link reads back after rendering, given its preview.
pub open spec fn displayed_link(l: LinkSpec, p: Seq<char>) -> LinkSpec {
    match l {
        LinkSpec::ById(id) => LinkSpec::ByIdWithLabel(id, preview_label(p)),
        LinkSpec::ByNumericToken(id) => LinkSpec::ByIdWithLabel(id, preview_label(p)),
        _ => l,
    }
}

/// The fragments that rendered content reads back as.
pub open spec fn rendered_fragments(fs: Seq<FragmentSpec>, previews: Seq<Seq<char>>) -> Seq<
    FragmentSpec,
>
    decreases fs.len(),
{
    if fs.len() == 0 {
        seq![]
    } else {
        match fs.last() {
            FragmentSpec::Text(t) => rendered_fragments(fs.drop_last(), previews).push(
                FragmentSpec::Text(t),
            ),
            FragmentSpec::Link(l) => rendered_fragments(fs.drop_last(), previews.drop_last()).push(
                FragmentSpec::Link(displayed_link(l, previews.last())),
            ),
        }
    }
}

pub proof fn lemma_render_text_prints(fs: Seq<FragmentSpec>, previews: Seq<Seq<char>>)
    ensures
        crate::canonical::render_text(fs, previews) == fragments_text(
            rendered_fragments(fs, previews),
        ),
    decreases fs.len(),
{
    if fs.len() > 0 {
        let dl = fs.drop_last();
        match fs.last() {
            FragmentSpec::Text(t) => {
                lemma_render_text_prints(dl, previews);
                let g = rendered_fragments(dl, previews).push(FragmentSpec::Text(t));
                assert(g.drop_last() =~= rendered_fragments(dl, previews));
            },
            FragmentSpec::Link(l) => {
                lemma_render_text_prints(dl, previews.drop_last());
                let d = displayed_link(l, previews.last());
                let g = rendered_fragments(dl, previews.drop_last()).push(FragmentSpec::Link(d));
                assert(g.drop_last() =~= rendered_fragments(dl, previews.drop_last()));
                assert(crate::canonical::rendered_link(l, previews.last()) =~= link_text(d));
            },
        }
    }
}

pub proof fn lemma_rendered_at(fs: Seq<FragmentSpec>, previews: Seq<Seq<char>>)
    requires
        previews.len() == links_of(fs).len(),
    ensures
        same_shape(fs, rendered_fragments(fs, previews)),
        forall|i: int|
            0 <= i < fs.len() ==> (fs[i] matches FragmentSpec::Link(l) ==> #[trigger] rendered_fragments(fs, previews)[i]
                == FragmentSpec::Link(displayed_link(l, previews[link_count(fs, i)]))),
    decreases fs.len(),
{
    if fs.len() == 0 {
        return;
    }
    let dl = fs.drop_last();
    match fs.last() {
        FragmentSpec::Text(t) => {
            assert(links_of(fs) == links_of(dl));
            lemma_rendered_at(dl, previews);
            assert forall|i: int| 0 <= i < fs.len() - 1 implies fs[i] == dl[i] && fs.take(i) =~= dl.take(i) by {}
        },
        FragmentSpec::Link(l) => {
            assert(links_of(fs) == links_of(dl).push(l));
            lemma_rendered_at(dl, previews.drop_last());
            assert forall|i: int| 0 <= i < fs.len() - 1 implies fs[i] == dl[i] && fs.take(i) =~= dl.take(i) by {}
            assert(fs.take(fs.len() - 1) =~= dl);
            assert forall|i: int| 0 <= i < fs.len() - 1 && fs[i] is Link implies link_count(fs, i) < previews.len() - 1 by {
                lemma_link_count_at(dl, i);
                assert(dl.take(i) =~= fs.take(i));
            }
        },
    }
}

} // verus!

//! Canonical storage form and display rendering of node content.
//!
//! Canonicalization binds every lookup token to the one node it names and
//! stores it as `{{id::key}}`; numeric tokens become `{{id}}`. Rendering shows
//! an unlabelled link `{{id}}` as `{{id::>preview}}`, where the preview is the
//! target's content with its braces kept from forming token delimiters.
use vstd::prelude::*;
use crate::text::{
    chars_to_string, decimal, has_char, is_ws, push_all, push_decimal, to_chars, trim,
};
use crate::domain::{
    id_values, is_single_line, message_with_id, valid_content_line,
    CanonicalizedContent, ContentLine, KernelError, KernelResult, LookupCandidate, LookupKey, NodeId,
};
use crate::syntax::{
    close_delim, fragment_text, fragment_views, fragments_text, has_link, link_text, links_of, open_delim, parse_chars, parse_from, parse_spec, push_link_text,
    ContentFragment, FragmentSpec, LinkSpec, ParsedLink,
};
use crate::repository::{has_candidate, read_failure, ReadRepository};

verus! {

// ---------------------------------------------------------------------------
// Facts about parsed content
// ---------------------------------------------------------------------------

pub open spec fn texts_single_line(fs: Seq<FragmentSpec>) -> bool {
    forall|n: int|
        0 <= n < fs.len() ==> (#[trigger] fs[n] matches FragmentSpec::Text(t) ==> is_single_line(t))
}

/// The text pieces of parsed single-line content are single-line.
pub proof fn lemma_parse_texts_single_line(s: Seq<char>, i: int)
    requires
        is_single_line(s),
    ensures
        parse_from(s, i) matches Ok(fs) ==> texts_single_line(fs),
    decreases s.len() - i,
{
    if i < 0 || i >= s.len() {
    } else {
        crate::syntax::lemma_find_from_bounds(s, open_delim(), i);
        match crate::text::find_from(s, open_delim(), i) {
            None => {
                let t = s.subrange(i, s.len() as int);
                assert forall|k: int| 0 <= k < t.len() implies t[k] != '\n' && t[k] != '\r' by {
                    assert(t[k] == s[i + k]);
                }
            },
            Some(j) => {
                crate::syntax::lemma_find_from_bounds(s, close_delim(), j + 2);
                match crate::text::find_from(s, close_delim(), j + 2) {
                    None => {},
                    Some(k) => {
                        lemma_parse_texts_single_line(s, k + 2);
                        if let Ok(fs) = parse_from(s, i) {
                            let t = s.subrange(i, j);
                            assert forall|m: int| 0 <= m < t.len() implies t[m] != '\n' && t[m]
                                != '\r' by {
                                assert(t[m] == s[i + m]);
                            }
                        }
                    },
                }
            },
        }
    }
}

/// Parsed non-empty content without links is one text piece: the content.
pub proof fn lemma_parse_without_links(s: Seq<char>, i: int)
    requires
        0 <= i < s.len(),
    ensures
        parse_from(s, i) matches Ok(fs) ==> (!has_link(fs) ==> fs == seq![
            FragmentSpec::Text(s.subrange(i, s.len() as int)),
        ]),
{
    match crate::text::find_from(s, open_delim(), i) {
        None => {},
        Some(j) => {
            if let Ok(fs) = parse_from(s, i) {
                let head: Seq<FragmentSpec> = if j > i {
                    seq![FragmentSpec::Text(s.subrange(i, j))]
                } else {
                    seq![]
                };
                assert(fs[head.len() as int] is Link);
            }
        },
    }
}

pub proof fn lemma_links_of_take(fs: Seq<FragmentSpec>, m: int)
    requires
        0 <= m < fs.len(),
    ensures
        links_of(fs.take(m + 1)) == match fs[m] {
            FragmentSpec::Link(l) => links_of(fs.take(m)).push(l),
            FragmentSpec::Text(_) => links_of(fs.take(m)),
        },
{
    assert(fs.take(m + 1).drop_last() =~= fs.take(m));
}

pub proof fn lemma_fragments_text_push(fs: Seq<FragmentSpec>, f: FragmentSpec)
    ensures
        fragments_text(fs.push(f)) == fragments_text(fs) + fragment_text(f),
{
    assert(fs.push(f).drop_last() =~= fs);
}

pub proof fn lemma_has_link_take(fs: Seq<FragmentSpec>)
    ensures
        has_link(fs) == (links_of(fs).len() > 0),
    decreases fs.len(),
{
    if fs.len() > 0 {
        lemma_has_link_take(fs.drop_last());
        if has_link(fs.drop_last()) {
            let n = choose|n: int| 0 <= n < fs.drop_last().len() && fs.drop_last()[n] is Link;
            assert(fs[n] is Link);
        }
        if has_link(fs) {
            let n = choose|n: int| 0 <= n < fs.len() && fs[n] is Link;
            if n < fs.len() - 1 {
                assert(fs.drop_last()[n] is Link);
            }
        }
    }
}

/// The links of a prefix of the fragments are a prefix of all the links.
pub proof fn lemma_links_prefix(fs: Seq<FragmentSpec>, a: int)
    requires
        0 <= a <= fs.len(),
    ensures
        links_of(fs.take(a)).len() <= links_of(fs).len(),
        forall|n: int|
            0 <= n < links_of(fs.take(a)).len() ==> #[trigger] links_of(fs.take(a))[n]
                == links_of(fs)[n],
    decreases fs.len() - a,
{
    if a == fs.len() {
        assert(fs.take(a) =~= fs);
    } else {
        lemma_links_prefix(fs, a + 1);
        lemma_links_of_take(fs, a);
        assert forall|n: int|
            0 <= n < links_of(fs.take(a)).len() implies #[trigger] links_of(fs.take(a))[n]
                == links_of(fs)[n] by {
            assert(links_of(fs.take(a))[n] == links_of(fs.take(a + 1))[n]);
        }
    }
}

/// The link of the `m`-th fragment is the next link after those of the prefix.
pub proof fn lemma_link_fragment(fs: Seq<FragmentSpec>, m: int)
    requires
        0 <= m < fs.len(),
        fs[m] is Link,
    ensures
        links_of(fs.take(m)).len() < links_of(fs).len(),
        links_of(fs)[links_of(fs.take(m)).len() as int] == fs[m]->Link_0,
{
    lemma_links_of_take(fs, m);
    lemma_links_prefix(fs, m + 1);
    let n = links_of(fs.take(m)).len() as int;
    assert(links_of(fs.take(m + 1))[n] == links_of(fs)[n]);
}

/// A lookup fragment makes the fragment list hold a lookup link.
pub proof fn lemma_lookup_fragment(fs: Seq<FragmentSpec>, m: int)
    requires
        0 <= m < fs.len(),
        fs[m] matches FragmentSpec::Link(l) && l is ByLookup,
    ensures
        has_lookup(links_of(fs)),
{
    lemma_links_of_take(fs, m);
    lemma_links_prefix(fs, m + 1);
    let n = links_of(fs.take(m + 1)).len() - 1;
    assert(links_of(fs.take(m + 1))[n] == links_of(fs)[n]);
    assert(links_of(fs)[n] is ByLookup);
}

/// The link of fragment `m` is the link after those of the fragments
/// before it.
pub proof fn lemma_link_position(fs: Seq<FragmentSpec>, m: int)
    requires
        0 <= m < fs.len(),
        fs[m] is Link,
    ensures
        links_of(fs.take(m)).len() < links_of(fs).len(),
        fs[m] matches FragmentSpec::Link(l) && links_of(fs)[links_of(fs.take(m)).len() as int] == l,
{
    lemma_links_of_take(fs, m);
    lemma_links_prefix(fs, m + 1);
    let n = links_of(fs.take(m)).len() as int;
    assert(links_of(fs.take(m + 1))[n] == links_of(fs)[n]);
}

// ---------------------------------------------------------------------------
// Canonical form
// ---------------------------------------------------------------------------

/// The id a non-lookup link names.
pub open spec fn link_id(l: LinkSpec) -> int {
    match l {
        LinkSpec::ById(id) => id,
        LinkSpec::ByNumericToken(id) => id,
        LinkSpec::ByIdWithLabel(id, _) => id,
        LinkSpec::ByLookup(_) => 0,
    }
}

/// A link in canonical storage form, given the id it resolves to.
pub open spec fn resolved_link(l: LinkSpec, id: int) -> LinkSpec {
    match l {
        LinkSpec::ById(x) => LinkSpec::ById(x),
        LinkSpec::ByNumericToken(x) => LinkSpec::ById(x),
        LinkSpec::ByLookup(k) => LinkSpec::ByIdWithLabel(id, k),
        LinkSpec::ByIdWithLabel(x, label) => LinkSpec::ByIdWithLabel(x, label),
    }
}

/// The fragments with their `n`-th link bound to `ids[n]`.
pub open spec fn resolve(fs: Seq<FragmentSpec>, ids: Seq<int>) -> Seq<FragmentSpec>
    decreases fs.len(),
{
    if fs.len() == 0 {
        seq![]
    } else {
        match fs.last() {
            FragmentSpec::Text(t) => resolve(fs.drop_last(), ids).push(FragmentSpec::Text(t)),
            FragmentSpec::Link(l) => resolve(fs.drop_last(), ids.drop_last()).push(
                FragmentSpec::Link(resolved_link(l, ids.last())),
            ),
        }
    }
}

/// `ids` gives one target per link, and the target a non-lookup link names.
pub open spec fn ids_fit(links: Seq<LinkSpec>, ids: Seq<int>) -> bool {
    &&& ids.len() == links.len()
    &&& forall|n: int|
        0 <= n < links.len() ==> (!(#[trigger] links[n] is ByLookup) ==> ids[n] == link_id(
            links[n],
        ))
}

pub open spec fn has_lookup(links: Seq<LinkSpec>) -> bool {
    exists|n: int| 0 <= n < links.len() && #[trigger] links[n] is ByLookup
}

/// The canonical storage text of content whose links resolve to `ids`.
pub open spec fn canonical_text(fs: Seq<FragmentSpec>, ids: Seq<int>) -> Seq<char> {
    fragments_text(resolve(fs, ids))
}

proof fn lemma_resolve_step(fs: Seq<FragmentSpec>, m: int, ids: Seq<int>, x: int)
    requires
        0 <= m < fs.len(),
    ensures
        fs[m] matches FragmentSpec::Text(t) ==> resolve(fs.take(m + 1), ids) == resolve(
            fs.take(m),
            ids,
        ).push(FragmentSpec::Text(t)),
        fs[m] matches FragmentSpec::Link(l) ==> resolve(fs.take(m + 1), ids.push(x)) == resolve(
            fs.take(m),
            ids,
        ).push(FragmentSpec::Link(resolved_link(l, x))),
{
    assert(fs.take(m + 1).drop_last() =~= fs.take(m));
    assert(ids.push(x).drop_last() =~= ids);
}

proof fn lemma_link_text_single_line(l: LinkSpec, x: int)
    requires
        l matches LinkSpec::ByLookup(k) ==> crate::domain::lookup_key_of(k) is Ok && trim(k)
            == k,
        l matches LinkSpec::ByIdWithLabel(_, lab) ==> crate::syntax::valid_label(lab),
    ensures
        is_single_line(link_text(resolved_link(l, x))),
        link_text(resolved_link(l, x))[0] == '{',
{
    let r = resolved_link(l, x);
    let t = link_text(r);
    let d = match r {
        LinkSpec::ById(id) => decimal(id as nat),
        LinkSpec::ByNumericToken(id) => decimal(id as nat),
        LinkSpec::ByLookup(k) => k,
        LinkSpec::ByIdWithLabel(id, _) => decimal(id as nat),
    };
    lemma_decimal_digits(match r {
        LinkSpec::ById(id) => id as nat,
        LinkSpec::ByNumericToken(id) => id as nat,
        LinkSpec::ByIdWithLabel(id, _) => id as nat,
        LinkSpec::ByLookup(_) => 0,
    });
    assert forall|k: int| 0 <= k < t.len() implies t[k] != '\n' && t[k] != '\r' by {
        match r {
            LinkSpec::ByIdWithLabel(id, lab) => {
                let lk = match l {
                    LinkSpec::ByLookup(key) => key,
                    LinkSpec::ByIdWithLabel(_, lb) => lb,
                    _ => lab,
                };
                assert(lab == lk);
                if 2 + decimal(id as nat).len() + 2 <= k < 2 + decimal(id as nat).len() + 2
                    + lab.len() {
                    assert(t[k] == lab[k - (2 + decimal(id as nat).len() + 2)]);
                } else if 2 <= k < 2 + decimal(id as nat).len() {
                    assert(t[k] == decimal(id as nat)[k - 2]);
                }
            },
            LinkSpec::ById(id) => {
                if 2 <= k < 2 + decimal(id as nat).len() {
                    assert(t[k] == decimal(id as nat)[k - 2]);
                }
            },
            _ => {},
        }
    }
}

/// Decimal notation uses digits only.
pub proof fn lemma_decimal_digits(v: nat)
    ensures
        crate::text::all_digits(decimal(v)),
        decimal(v).len() > 0,
    decreases v,
{
    if v >= 10 {
        lemma_decimal_digits(v / 10);
    }
}

/// Exactly one node answers lookups of `key` in `repository`.
pub open spec fn uniquely_answered<R: ReadRepository>(repository: &R, key: Seq<char>) -> bool {
    exists|x: NodeId|
        #[trigger] repository.spec_answers(x, key) && forall|y: NodeId|
            #[trigger] repository.spec_answers(y, key) ==> y == x
}

/// Some lookup link among `links` has no single node answering its key in
/// `repository`.
pub open spec fn lookup_unsettled<R: ReadRepository>(repository: &R, links: Seq<LinkSpec>) -> bool {
    exists|n: int|
        0 <= n < links.len() && (#[trigger] links[n] matches LinkSpec::ByLookup(k)
            && !uniquely_answered(repository, k))
}

/// `key` is the key of a lookup link among `links` that no node answers in
/// `repository`.
pub open spec fn lookup_missed<R: ReadRepository>(repository: &R, links: Seq<LinkSpec>, key: Seq<char>) -> bool {
    &&& links.contains(LinkSpec::ByLookup(key))
    &&& forall|x: NodeId| !#[trigger] repository.spec_answers(x, key)
}

/// `key` is the key of a lookup link among `links` that some node answers
/// in `repository`.
pub open spec fn lookup_answered<R: ReadRepository>(repository: &R, links: Seq<LinkSpec>, key: Seq<char>) -> bool {
    &&& links.contains(LinkSpec::ByLookup(key))
    &&& exists|x: NodeId| #[trigger] repository.spec_answers(x, key)
}

/// Each lookup link is bound to the only node that answers its key in
/// `repository`.
pub open spec fn lookups_bound<R: ReadRepository>(
    repository: &R,
    links: Seq<LinkSpec>,
    ids: Seq<NodeId>,
) -> bool {
    forall|n: int|
        0 <= n < links.len() ==> match #[trigger] links[n] {
            LinkSpec::ByLookup(k) => n < ids.len() && repository.spec_answers(ids[n], k) && forall|
                y: NodeId,
            | #[trigger] repository.spec_answers(y, k) ==> y == ids[n],
            _ => true,
        }
}

/// The links of some content fix the ids they are bound to: the id a
/// non-lookup link names, the only node answering a lookup.
pub proof fn lemma_bound_ids_unique<R: ReadRepository>(
    repository: &R,
    links: Seq<LinkSpec>,
    a: Seq<NodeId>,
    b: Seq<NodeId>,
)
    requires
        ids_fit(links, id_values(a)),
        lookups_bound(repository, links, a),
        ids_fit(links, id_values(b)),
        lookups_bound(repository, links, b),
    ensures
        a == b,
{
    assert forall|n: int| 0 <= n < a.len() implies a[n] == b[n] by {
        crate::domain::lemma_node_id_view_injective(a[n], b[n]);
        match links[n] {
            LinkSpec::ByLookup(k) => {
                assert(repository.spec_answers(b[n], k));
            },
            _ => {
                assert(id_values(a)[n] == id_values(b)[n]);
            },
        }
    }
    assert(a =~= b);
}

/// Binds a lookup to the node that answers it: the one candidate the store
/// reports for the key; none is a miss, several are ambiguous.
pub fn resolve_lookup(key: &LookupKey, candidates: &Vec<LookupCandidate>) -> (r: KernelResult<NodeId>)
    ensures
        candidates@.len() == 1 ==> r == Ok::<NodeId, KernelError>(candidates@[0].node_id),
        candidates@.len() == 0 ==> (r matches Err(KernelError::LookupMiss(k)) && k@ == key@),
        candidates@.len() > 1 ==> (r matches Err(KernelError::LookupAmbiguous(k)) && k@ == key@),
{
    if candidates.len() == 0 {
        return Err(KernelError::LookupMiss(copy_key(key)));
    }
    if candidates.len() > 1 {
        return Err(KernelError::LookupAmbiguous(copy_key(key)));
    }
    Ok(candidates[0].node_id)
}

fn copy_key(key: &LookupKey) -> (r: String)
    ensures
        r@ == key@,
{
    let chars = crate::text::to_chars(key.as_str());
    crate::text::chars_to_string(chars.as_slice())
}

/// Rewrites content into canonical storage form.
///
/// Every lookup token is resolved through `lookup_candidates` and must name
/// exactly one node; the result binds it as `{{id::key}}`, rewrites numeric
/// tokens to `{{id}}`, and keeps text and labelled links as they are.
pub fn canonicalize_content<R: ReadRepository>(repository: &R, content: &ContentLine) -> (r:
    KernelResult<CanonicalizedContent>)
    ensures
        parse_spec(content@) is Err ==> r matches Err(KernelError::Input(_)),
        parse_spec(content@) matches Ok(fs) ==> {
            &&& r matches Ok(c) ==> {
                &&& ids_fit(links_of(fs), id_values(c.outgoing_links@))
                &&& lookups_bound(repository, links_of(fs), c.outgoing_links@)
                &&& c.content@ == canonical_text(fs, id_values(c.outgoing_links@))
                &&& c.lookup_key@ == trim(c.content@)
            }
            &&& !has_lookup(links_of(fs)) ==> r is Ok
            &&& (exists|n: int|
                0 <= n < links_of(fs).len() && (#[trigger] links_of(fs)[n] matches LinkSpec::ByLookup(
                    k,
                ) && !uniquely_answered(repository, k))) ==> r is Err
        },
        r matches Err(e) ==> match e {
            KernelError::Input(_) => parse_spec(content@) is Err,
            KernelError::LookupMiss(k) => parse_spec(content@) matches Ok(fs) && lookup_missed(
                repository,
                links_of(fs),
                k@,
            ),
            KernelError::LookupAmbiguous(k) => parse_spec(content@) matches Ok(fs)
                && lookup_answered(repository, links_of(fs), k@),
            _ => read_failure(e),
        },
{
    let chars = content.chars();
    let fragments = match parse_chars(&chars) {
        Ok(f) => f,
        Err(e) => {
            return Err(KernelError::Input(e.message()));
        },
    };
    let ghost fs = fragment_views(fragments@);
    let mut out: Vec<char> = Vec::new();
    let mut ids: Vec<NodeId> = Vec::new();
    let mut m: usize = 0;
    proof {
        lemma_parse_texts_single_line(chars@, 0);
        assert(fs.take(0) =~= Seq::<FragmentSpec>::empty());
        assert(out@ =~= fragments_text(resolve(fs.take(0), id_values(ids@))));
    }
    while m < fragments.len()
        invariant
            m <= fragments.len(),
            fs == fragment_views(fragments@),
            parse_spec(chars@) == Ok::<Seq<FragmentSpec>, crate::syntax::LinkSyntaxError>(fs),
            chars@ == content@,
            valid_content_line(content@),
            texts_single_line(fs),
            out@ == fragments_text(resolve(fs.take(m as int), id_values(ids@))),
            ids_fit(links_of(fs.take(m as int)), id_values(ids@)),
            lookups_bound(repository, links_of(fs.take(m as int)), ids@),
            is_single_line(out@),
            ids@.len() > 0 ==> has_char(out@, '{'),
            !has_lookup(links_of(fs)) ==> true,
        decreases fragments.len() - m,
    {
        let ghost before_out = out@;
        let ghost before_ids = id_values(ids@);
        proof {
            lemma_links_of_take(fs, m as int);
        }
        match &fragments[m] {
            ContentFragment::Text(t) => {
                let tc = to_chars(t.as_str());
                push_all(&mut out, tc.as_slice());
                proof {
                    lemma_resolve_step(fs, m as int, before_ids, 0);
                    lemma_fragments_text_push(
                        resolve(fs.take(m as int), before_ids),
                        FragmentSpec::Text(t@),
                    );
                    assert(fs[m as int] == FragmentSpec::Text(t@));
                    assert forall|k: int| 0 <= k < out@.len() implies out@[k] != '\n' && out@[k]
                        != '\r' by {
                        if k >= before_out.len() {
                            assert(out@[k] == t@[k - before_out.len()]);
                        } else {
                            assert(out@[k] == before_out[k]);
                        }
                    }
                    if ids@.len() > 0 {
                        let w = choose|w: int| 0 <= w < before_out.len() && before_out[w] == '{';
                        assert(out@[w] == '{');
                    }
                }
            },
            ContentFragment::Link(link) => {
                let target: NodeId = match link {
                    ParsedLink::ById(id) => *id,
                    ParsedLink::ByNumericToken(id) => *id,
                    ParsedLink::ByIdWithLabel(id, _) => *id,
                    ParsedLink::ByLookup(key) => {
                        proof {
                            assert(fs[m as int] == FragmentSpec::Link(link@));
                            lemma_lookup_fragment(fs, m as int);
                        }
                        let candidates = match repository.lookup_candidates(key) {
                            Ok(c) => c,
                            Err(e) => {
                                return Err(e);
                            },
                        };
                        match resolve_lookup(key, &candidates) {
                            Ok(id) => {
                                assert forall|y: NodeId| #[trigger] repository.spec_answers(y, key@)
                                    <==> y == id by {
                                    if has_candidate(candidates@, y) {
                                        let w = choose|w: int|
                                            0 <= w < candidates@.len()
                                                && (#[trigger] candidates@[w]).node_id == y;
                                        assert(w == 0);
                                    }
                                    if y == id {
                                        assert(candidates@[0].node_id == y);
                                    }
                                }
                                id
                            },
                            Err(e) => {
                                proof {
                                    lemma_link_position(fs, m as int);
                                    let n = links_of(fs.take(m as int)).len() as int;
                                    assert(links_of(fs)[n] == LinkSpec::ByLookup(key@));
                                    if candidates@.len() > 0 {
                                        assert(has_candidate(candidates@, candidates@[0].node_id));
                                        assert(repository.spec_answers(candidates@[0].node_id, key@));
                                    }
                                }
                                return Err(e);
                            },
                        }
                    },
                };
                let resolved = match link {
                    ParsedLink::ById(id) => ParsedLink::ById(*id),
                    ParsedLink::ByNumericToken(id) => ParsedLink::ById(*id),
                    ParsedLink::ByIdWithLabel(id, label) => ParsedLink::ByIdWithLabel(
                        *id,
                        label.clone(),
                    ),
                    ParsedLink::ByLookup(key) => {
                        let kc = key.chars();
                        proof {
                            assert(fs[m as int] == FragmentSpec::Link(link@));
                            crate::syntax::lemma_parse_links_wf(chars@, 0);
                            crate::syntax::lemma_key_is_label(key@);
                        }
                        ParsedLink::ByIdWithLabel(target, crate::syntax::LinkLabel::from_chars(&kc))
                    },
                };
                push_link_text(&mut out, &resolved);
                ids.push(target);
                proof {
                    let l = link@;
                    assert(fs[m as int] == FragmentSpec::Link(l));
                    assert(id_values(ids@) =~= before_ids.push(target@));
                    assert(resolved@ == resolved_link(l, target@));
                    lemma_resolve_step(fs, m as int, before_ids, target@);
                    lemma_fragments_text_push(
                        resolve(fs.take(m as int), before_ids),
                        FragmentSpec::Link(resolved_link(l, target@)),
                    );
                    crate::syntax::lemma_parse_links_wf(chars@, 0);
                    lemma_link_text_single_line(l, target@);
                    let lt = link_text(resolved_link(l, target@));
                    assert forall|k: int| 0 <= k < out@.len() implies out@[k] != '\n' && out@[k]
                        != '\r' by {
                        if k >= before_out.len() {
                            assert(out@[k] == lt[k - before_out.len()]);
                        } else {
                            assert(out@[k] == before_out[k]);
                        }
                    }
                    assert(out@[before_out.len() as int] == '{');
                    let links_m1 = links_of(fs.take(m + 1));
                    assert forall|n: int|
                        0 <= n < links_m1.len() && !(#[trigger] links_m1[n] is ByLookup) implies id_values(
                        ids@,
                    )[n] == link_id(links_m1[n]) by {
                        if n < links_m1.len() - 1 {
                            assert(links_m1[n] == links_of(fs.take(m as int))[n]);
                        }
                    }
                    assert forall|n: int| 0 <= n < links_m1.len() implies match #[trigger] links_m1[n] {
                        LinkSpec::ByLookup(k) => n < ids@.len() && repository.spec_answers(ids@[n], k)
                            && forall|y: NodeId| #[trigger] repository.spec_answers(y, k) ==> y == ids@[n],
                        _ => true,
                    } by {
                        if n < links_m1.len() - 1 {
                            assert(links_m1[n] == links_of(fs.take(m as int))[n]);
                            assert(ids@[n] == ids@.drop_last()[n]);
                        } else {
                            assert(links_m1[n] == l);
                            assert(ids@[n] == target);
                        }
                    }
                }
            },
        }
        m = m + 1;
    }
    proof {
        assert(fs.take(fs.len() as int) =~= fs);
        lemma_has_link_take(fs);
        if ids@.len() == 0 {
            lemma_parse_without_links(chars@, 0);
            assert(fs.drop_last() =~= Seq::<FragmentSpec>::empty());
            reveal_with_fuel(resolve, 2);
            assert(resolve(fs, id_values(ids@)) =~= fs);
            assert(chars@.subrange(0, chars@.len() as int) =~= chars@);
            reveal_with_fuel(fragments_text, 2);
            assert(out@ =~= chars@);
        } else {
            let w = choose|w: int| 0 <= w < out@.len() && out@[w] == '{';
            assert(!is_ws(out@[w]));
        }
    }
    let line = ContentLine::from_chars(&out);
    let key = LookupKey::from_content(&line);
    Ok(CanonicalizedContent { content: line, lookup_key: key, outgoing_links: ids })
}

// ---------------------------------------------------------------------------
// Rendering
// ---------------------------------------------------------------------------

/// A preview with a space placed inside every `{{` and `}}` and after a final
/// `}`, so that it cannot open or close a token.
pub open spec fn escape_preview(p: Seq<char>) -> Seq<char>
    decreases p.len(),
{
    if p.len() == 0 {
        seq![]
    } else if p.len() == 1 {
        if p[0] == '}' {
            seq!['}', ' ']
        } else {
            seq![p[0]]
        }
    } else if (p[0] == '{' && p[1] == '{') || (p[0] == '}' && p[1] == '}') {
        seq![p[0], ' '] + escape_preview(p.drop_first())
    } else {
        seq![p[0]] + escape_preview(p.drop_first())
    }
}

pub open spec fn preview_marker() -> Seq<char> {
    seq![':', ':', '>']
}

/// How a link is displayed, given the content of the node it names.
pub open spec fn rendered_link(l: LinkSpec, preview: Seq<char>) -> Seq<char> {
    match l {
        LinkSpec::ById(id) => open_delim() + decimal(id as nat) + preview_marker()
            + escape_preview(preview) + close_delim(),
        LinkSpec::ByNumericToken(id) => open_delim() + decimal(id as nat) + preview_marker()
            + escape_preview(preview) + close_delim(),
        _ => link_text(l),
    }
}

/// Displayed content: text as is, unlabelled links expanded with the
/// `n`-th link's target content `previews[n]`, labelled links as stored.
pub open spec fn render_text(fs: Seq<FragmentSpec>, previews: Seq<Seq<char>>) -> Seq<char>
    decreases fs.len(),
{
    if fs.len() == 0 {
        seq![]
    } else {
        match fs.last() {
            FragmentSpec::Text(t) => render_text(fs.drop_last(), previews) + t,
            FragmentSpec::Link(l) => render_text(fs.drop_last(), previews.drop_last())
                + rendered_link(l, previews.last()),
        }
    }
}

pub open spec fn has_unlabelled(links: Seq<LinkSpec>) -> bool {
    exists|n: int|
        0 <= n < links.len() && (#[trigger] links[n] is ById || links[n] is ByNumericToken)
}

/// Stored text `s` shows as it is: it parses and holds neither a lookup nor
/// a link whose display needs the target's content.
pub open spec fn renders_alone(s: Seq<char>) -> bool {
    parse_spec(s) matches Ok(fs) && !has_lookup(links_of(fs)) && !has_unlabelled(links_of(fs))
}

/// Stored text `s` is corrupt: it does not parse, or holds a lookup.
pub open spec fn stored_corrupt(s: Seq<char>) -> bool {
    parse_spec(s) is Err || (parse_spec(s) matches Ok(fs) && has_lookup(links_of(fs)))
}

/// `p` is the stored content of the node with id `id` in `repository`.
pub open spec fn preview_from<R: ReadRepository>(repository: &R, id: int, p: Seq<char>) -> bool {
    exists|x: NodeId| x@ == id && (#[trigger] repository.spec_node(x) matches Some(t) && t.content@ == p)
}

/// Each unlabelled link's preview is the stored content of its target in
/// `repository`.
pub open spec fn previews_stored<R: ReadRepository>(
    repository: &R,
    links: Seq<LinkSpec>,
    previews: Seq<Seq<char>>,
) -> bool {
    &&& previews.len() == links.len()
    &&& forall|n: int|
        0 <= n < links.len() ==> (links[n] is ById || links[n] is ByNumericToken) ==> preview_from(
            repository,
            link_id(links[n]),
            #[trigger] previews[n],
        )
}

/// `out` displays stored text `s` as read from `repository`: each
/// unlabelled link shows its target's stored content, escaped.
pub open spec fn renders_in<R: ReadRepository>(repository: &R, s: Seq<char>, out: Seq<char>) -> bool {
    parse_spec(s) matches Ok(fs) && exists|previews: Seq<Seq<char>>|
        #![trigger render_text(fs, previews)]
        previews_stored(repository, links_of(fs), previews) && out == render_text(fs, previews)
}

/// `out` displays content `s` for some choice of single-line target contents.
pub open spec fn renders_as(s: Seq<char>, out: Seq<char>) -> bool {
    parse_spec(s) matches Ok(fs) && exists|previews: Seq<Seq<char>>|
        #![trigger render_text(fs, previews)]
        {
            &&& previews.len() == links_of(fs).len()
            &&& forall|n: int|
                0 <= n < previews.len() ==> (links_of(fs)[n] is ById || links_of(fs)[n] is ByNumericToken)
                    ==> valid_content_line(#[trigger] previews[n])
            &&& out == render_text(fs, previews)
        }
}

/// Computes `escape_preview`.
pub fn escape_preview_exec(p: &Vec<char>) -> (r: Vec<char>)
    ensures
        r@ == escape_preview(p@),
{
    let mut out: Vec<char> = Vec::new();
    let mut k: usize = 0;
    let n = p.len();
    assert(p@.subrange(0, n as int) =~= p@);
    while k < n
        invariant
            k <= n == p.len(),
            out@ + escape_preview(p@.subrange(k as int, n as int)) == escape_preview(p@),
        decreases n - k,
    {
        let ghost rest = p@.subrange(k as int, n as int);
        assert(rest.drop_first() =~= p@.subrange(k + 1, n as int));
        let c = p[k];
        out.push(c);
        if k + 1 < n {
            let d = p[k + 1];
            assert(rest[1] == d);
            if (c == '{' && d == '{') || (c == '}' && d == '}') {
                out.push(' ');
            }
        } else if c == '}' {
            out.push(' ');
        }
        k = k + 1;
        assert(out@ + escape_preview(p@.subrange(k as int, n as int)) =~= escape_preview(p@));
    }
    assert(p@.subrange(n as int, n as int) =~= Seq::<char>::empty());
    assert(out@ + Seq::<char>::empty() =~= out@);
    out
}

proof fn lemma_render_step(
    fs: Seq<FragmentSpec>,
    m: int,
    previews: Seq<Seq<char>>,
    p: Seq<char>,
)
    requires
        0 <= m < fs.len(),
    ensures
        fs[m] matches FragmentSpec::Text(t) ==> render_text(fs.take(m + 1), previews)
            == render_text(fs.take(m), previews) + t,
        fs[m] matches FragmentSpec::Link(l) ==> render_text(fs.take(m + 1), previews.push(p))
            == render_text(fs.take(m), previews) + rendered_link(l, p),
{
    assert(fs.take(m + 1).drop_last() =~= fs.take(m));
    assert(previews.push(p).drop_last() =~= previews);
}

/// Displayed content equals stored content when every link is labelled.
pub proof fn lemma_render_labelled(fs: Seq<FragmentSpec>, previews: Seq<Seq<char>>)
    requires
        !has_unlabelled(links_of(fs)),
        !has_lookup(links_of(fs)),
    ensures
        render_text(fs, previews) == fragments_text(fs),
    decreases fs.len(),
{
    if fs.len() > 0 {
        let init = fs.drop_last();
        assert(fs.take(fs.len() - 1) =~= init);
        lemma_links_prefix(fs, fs.len() - 1);
        assert(!has_unlabelled(links_of(init))) by {
            if has_unlabelled(links_of(init)) {
                let n = choose|n: int|
                    0 <= n < links_of(init).len() && (#[trigger] links_of(init)[n] is ById
                        || links_of(init)[n] is ByNumericToken);
                assert(links_of(init)[n] == links_of(fs)[n]);
            }
        }
        assert(!has_lookup(links_of(init))) by {
            if has_lookup(links_of(init)) {
                let n = choose|n: int|
                    0 <= n < links_of(init).len() && #[trigger] links_of(init)[n] is ByLookup;
                assert(links_of(init)[n] == links_of(fs)[n]);
            }
        }
        match fs.last() {
            FragmentSpec::Text(t) => {
                lemma_render_labelled(init, previews);
            },
            FragmentSpec::Link(l) => {
                lemma_render_labelled(init, previews.drop_last());
                let n = links_of(fs).len() - 1;
                assert(links_of(fs)[n] == l);
            },
        }
    }
}

/// Renders stored content for display.
///
/// Stored content must parse and hold no lookup token; every unlabelled link
/// `{{id}}` is shown as `{{id::>preview}}` with the target's content as preview.
pub fn render_storage_content<R: ReadRepository>(repository: &R, content: &ContentLine) -> (r:
    KernelResult<String>)
    ensures
        parse_spec(content@) is Err ==> r matches Err(KernelError::StorageCorruption(_)),
        parse_spec(content@) matches Ok(fs) ==> {
            &&& (has_lookup(links_of(fs)) ==> (r matches Err(KernelError::StorageCorruption(_))))
            &&& (r matches Ok(out) ==> renders_as(content@, out@))
            &&& (r matches Ok(out) ==> renders_in(repository, content@, out@))
            &&& ((!has_lookup(links_of(fs)) && !has_unlabelled(links_of(fs))) ==> (r matches Ok(
                out,
            ) && out@ == fragments_text(fs)))
            &&& (links_of(fs).len() == 0 ==> (r matches Ok(out) && out@ == content@))
        },
{
    let chars = content.chars();
    let fragments = match parse_chars(&chars) {
        Ok(f) => f,
        Err(e) => {
            return Err(KernelError::StorageCorruption(e.message()));
        },
    };
    let ghost fs = fragment_views(fragments@);
    let mut m: usize = 0;
    assert(fs.take(0) =~= Seq::<FragmentSpec>::empty());
    while m < fragments.len()
        invariant
            m <= fragments.len(),
            fs == fragment_views(fragments@),
            chars@ == content@,
            parse_spec(chars@) == Ok::<Seq<FragmentSpec>, crate::syntax::LinkSyntaxError>(fs),
            !has_lookup(links_of(fs.take(m as int))),
        decreases fragments.len() - m,
    {
        proof {
            lemma_links_of_take(fs, m as int);
        }
        if let ContentFragment::Link(ParsedLink::ByLookup(_)) = &fragments[m] {
            proof {
                lemma_lookup_fragment(fs, m as int);
            }
            return Err(
                KernelError::StorageCorruption(
                    "stored content holds an unresolved lookup token".to_owned(),
                ),
            );
        }
        proof {
            let lm = links_of(fs.take(m + 1));
            if has_lookup(lm) {
                let n = choose|n: int| 0 <= n < lm.len() && #[trigger] lm[n] is ByLookup;
                if n < links_of(fs.take(m as int)).len() {
                    assert(lm[n] == links_of(fs.take(m as int))[n]);
                }
            }
        }
        m = m + 1;
    }
    assert(fs.take(fs.len() as int) =~= fs);
    let mut out: Vec<char> = Vec::new();
    let ghost mut previews: Seq<Seq<char>> = seq![];
    let mut k: usize = 0;
    assert(out@ =~= render_text(fs.take(0), previews));
    while k < fragments.len()
        invariant
            k <= fragments.len(),
            fs == fragment_views(fragments@),
            chars@ == content@,
            parse_spec(chars@) == Ok::<Seq<FragmentSpec>, crate::syntax::LinkSyntaxError>(fs),
            !has_lookup(links_of(fs)),
            previews.len() == links_of(fs.take(k as int)).len(),
            forall|n: int|
                0 <= n < previews.len() ==> (links_of(fs)[n] is ById || links_of(fs)[n] is ByNumericToken)
                    ==> valid_content_line(#[trigger] previews[n]),
            forall|n: int|
                0 <= n < previews.len() ==> (links_of(fs)[n] is ById || links_of(fs)[n] is ByNumericToken)
                    ==> preview_from(repository, link_id(links_of(fs)[n]), #[trigger] previews[n]),
            out@ == render_text(fs.take(k as int), previews),
        decreases fragments.len() - k,
    {
        proof {
            lemma_links_of_take(fs, k as int);
        }
        let ghost before = out@;
        match &fragments[k] {
            ContentFragment::Text(t) => {
                let tc = to_chars(t.as_str());
                push_all(&mut out, tc.as_slice());
                proof {
                    assert(fs[k as int] == FragmentSpec::Text(t@));
                    lemma_render_step(fs, k as int, previews, seq![]);
                }
            },
            ContentFragment::Link(link) => {
                let ghost l = link@;
                proof {
                    assert(fs[k as int] == FragmentSpec::Link(l));
                }
                match link {
                    ParsedLink::ById(id) | ParsedLink::ByNumericToken(id) => {
                        proof {
                            lemma_link_fragment(fs, k as int);
                            let n = links_of(fs.take(k as int)).len() as int;
                            assert(links_of(fs)[n] is ById || links_of(fs)[n] is ByNumericToken);
                        }
                        let target = match repository.get_node(*id) {
                            Ok(Some(node)) => node,
                            Ok(None) => {
                                return Err(
                                    KernelError::StorageCorruption(
                                        message_with_id("missing link target ", *id, ""),
                                    ),
                                );
                            },
                            Err(e) => {
                                return Err(e);
                            },
                        };
                        let preview = target.content.chars();
                        let escaped = escape_preview_exec(&preview);
                        out.push('{');
                        out.push('{');
                        let v = id.value();
                        push_decimal(&mut out, v as u64);
                        out.push(':');
                        out.push(':');
                        out.push('>');
                        push_all(&mut out, escaped.as_slice());
                        out.push('}');
                        out.push('}');
                        proof {
                            assert(out@ =~= before + rendered_link(l, preview@));
                            lemma_render_step(fs, k as int, previews, preview@);
                            let ghost old_previews = previews;
                            previews = previews.push(preview@);
                            let n0 = old_previews.len() as int;
                            assert(links_of(fs)[n0] == l);
                            assert forall|n: int|
                                0 <= n < previews.len() && (links_of(fs)[n] is ById
                                    || links_of(fs)[n] is ByNumericToken) implies preview_from(
                                repository,
                                link_id(links_of(fs)[n]),
                                #[trigger] previews[n],
                            ) by {
                                if n < n0 {
                                    assert(previews[n] == old_previews[n]);
                                } else {
                                    assert(previews[n] == preview@);
                                    assert(repository.spec_node(*id) == Some(target));
                                    assert(id@ == link_id(l));
                                }
                            }
                        }
                    },
                    ParsedLink::ByIdWithLabel(_, _) => {
                        proof {
                            lemma_link_fragment(fs, k as int);
                        }
                        push_link_text(&mut out, link);
                        proof {
                            lemma_render_step(fs, k as int, previews, seq![]);
                            assert(previews.push(seq![]).drop_last() =~= previews);
                            let ghost old_previews = previews;
                            previews = previews.push(seq![]);
                            let n0 = old_previews.len() as int;
                            assert(links_of(fs)[n0] == l);
                            assert forall|n: int|
                                0 <= n < previews.len() && (links_of(fs)[n] is ById
                                    || links_of(fs)[n] is ByNumericToken) implies preview_from(
                                repository,
                                link_id(links_of(fs)[n]),
                                #[trigger] previews[n],
                            ) by {
                                if n < n0 {
                                    assert(previews[n] == old_previews[n]);
                                }
                            }
                        }
                    },
                    ParsedLink::ByLookup(_) => {
                        proof {
                            lemma_lookup_fragment(fs, k as int);
                        }
                        return Err(
                            KernelError::StorageCorruption(
                                "stored content holds an unresolved lookup token".to_owned(),
                            ),
                        );
                    },
                }
            },
        }
        k = k + 1;
    }
    proof {
        assert(fs.take(fs.len() as int) =~= fs);
        if !has_unlabelled(links_of(fs)) {
            lemma_render_labelled(fs, previews);
        }
        if links_of(fs).len() == 0 {
            lemma_has_link_take(fs);
            assert(!has_unlabelled(links_of(fs)));
            lemma_render_labelled(fs, previews);
            lemma_parse_without_links(chars@, 0);
            reveal_with_fuel(fragments_text, 2);
            assert(chars@.subrange(0, chars@.len() as int) =~= chars@);
            assert(fs.drop_last() =~= Seq::<FragmentSpec>::empty());
        }
    }
    proof {
        assert(out@ == render_text(fs, previews));
        assert(renders_as(content@, out@));
        assert forall|n: int|
            0 <= n < links_of(fs).len() && (#[trigger] links_of(fs)[n] is ById
                || links_of(fs)[n] is ByNumericToken) implies preview_from(
                                repository,
                                link_id(links_of(fs)[n]),
                                #[trigger] previews[n],
                            ) by {
            assert(previews.len() == links_of(fs).len());
        }
        assert(previews_stored(repository, links_of(fs), previews));
        assert(renders_in(repository, content@, out@));
    }
    let s = chars_to_string(out.as_slice());
    Ok(s)
}

} // verus!

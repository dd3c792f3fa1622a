//! The `{{...}}` link syntax of node content.
//!
//! Content is read left to right. `{{` opens a link token that runs to the
//! next `}}`; the text between tokens is plain text. A token body is one of
//!
//! - `12` — a link by id,
//! - ` 12 ` — a numeric token (an id with surrounding whitespace),
//! - `12::label` — a labelled link by id,
//! - anything else — a lookup by key, resolved against content and aliases.
//!
//! `parse_from` states the grammar; `parse_chars` computes it.
use vstd::prelude::*;
use crate::text::{
    all_digits, all_digits_exec, all_ws, chars_to_string, contains, contains_exec, decimal,
    digits_value, digits_value_bounded, find_from, find_from_exec, occurs_at, push_all,
    push_decimal, slice_chars, trim, trim_bounds, trim_chars,
};
use crate::domain::{
    is_single_line, is_single_line_exec, lookup_key_check, lookup_key_of, LookupKey, NodeId,
    ContentLine,
};

verus! {

pub open spec fn open_delim() -> Seq<char> {
    seq!['{', '{']
}

pub open spec fn close_delim() -> Seq<char> {
    seq!['}', '}']
}

pub open spec fn label_sep() -> Seq<char> {
    seq![':', ':']
}

/// Ids that a token may name: the positive values of `i64`.
pub open spec fn id_in_range(v: nat) -> bool {
    1 <= v && v <= 0x7fff_ffff_ffff_ffff
}

/// Text allowed as a link label: not blank, one line, and unable to end
/// or open a token early.
pub open spec fn valid_label(l: Seq<char>) -> bool {
    &&& !all_ws(l)
    &&& !contains(l, open_delim())
    &&& !contains(l, close_delim())
    &&& l.last() != '}'
    &&& is_single_line(l)
}

/// A link, as a mathematical value.
pub enum LinkSpec {
    ById(int),
    ByNumericToken(int),
    ByLookup(Seq<char>),
    ByIdWithLabel(int, Seq<char>),
}

/// A piece of parsed content, as a mathematical value.
pub enum FragmentSpec {
    Text(Seq<char>),
    Link(LinkSpec),
}

#[derive(Debug, Clone, Copy, PartialEq, Eq, Structural)]
pub enum LinkSyntaxError {
    /// `{{` without a later `}}`.
    UnclosedLink,
    /// A token body that is no id, label or lookup key.
    InvalidLink,
}

impl LinkSyntaxError {
    pub fn message(&self) -> (r: String)
        ensures
            *self is UnclosedLink ==> r@ == "link token is missing its closing `}}`"@,
            *self is InvalidLink ==> r@ == "link token is not a valid id, label or lookup"@,
    {
        match self {
            LinkSyntaxError::UnclosedLink => "link token is missing its closing `}}`".to_owned(),
            LinkSyntaxError::InvalidLink => "link token is not a valid id, label or lookup".to_owned(),
        }
    }
}

/// What a token body denotes, or `None` when it denotes nothing.
pub open spec fn classify_body(body: Seq<char>) -> Option<LinkSpec> {
    match find_from(body, label_sep(), 0) {
        Some(p) => {
            let id_part = body.subrange(0, p);
            let label = body.subrange(p + 2, body.len() as int);
            if id_part.len() > 0 && all_digits(id_part) && id_in_range(digits_value(id_part))
                && valid_label(label) {
                Some(LinkSpec::ByIdWithLabel(digits_value(id_part) as int, label))
            } else {
                None
            }
        },
        None => {
            if body.len() > 0 && all_digits(body) {
                if id_in_range(digits_value(body)) {
                    Some(LinkSpec::ById(digits_value(body) as int))
                } else {
                    None
                }
            } else if trim(body).len() > 0 && all_digits(trim(body)) {
                if id_in_range(digits_value(trim(body))) {
                    Some(LinkSpec::ByNumericToken(digits_value(trim(body)) as int))
                } else {
                    None
                }
            } else {
                match lookup_key_of(body) {
                    Ok(k) => Some(LinkSpec::ByLookup(k)),
                    Err(_) => None,
                }
            }
        },
    }
}

pub proof fn lemma_find_from_bounds(s: Seq<char>, needle: Seq<char>, from: int)
    ensures
        find_from(s, needle, from) matches Some(j) ==> from <= j && occurs_at(s, needle, j),
        find_from(s, needle, from) matches Some(j) ==> forall|k: int|
            from <= k < j ==> !occurs_at(s, needle, k),
    decreases s.len() + 1 - from,
{
    if from < 0 || from + needle.len() > s.len() {
    } else if occurs_at(s, needle, from) {
    } else {
        lemma_find_from_bounds(s, needle, from + 1);
    }
}

/// The fragments of `s` from position `i` on.
pub open spec fn parse_from(s: Seq<char>, i: int) -> Result<Seq<FragmentSpec>, LinkSyntaxError>
    decreases s.len() - i,
{
    if i < 0 || i >= s.len() {
        Ok(seq![])
    } else {
        match find_from(s, open_delim(), i) {
            None => Ok(seq![FragmentSpec::Text(s.subrange(i, s.len() as int))]),
            Some(j) => match find_from(s, close_delim(), j + 2) {
                None => Err(LinkSyntaxError::UnclosedLink),
                Some(k) => match classify_body(s.subrange(j + 2, k)) {
                    None => Err(LinkSyntaxError::InvalidLink),
                    Some(link) => {
                        proof {
                            lemma_find_from_bounds(s, open_delim(), i);
                            lemma_find_from_bounds(s, close_delim(), j + 2);
                        }
                        match parse_from(s, k + 2) {
                            Err(e) => Err(e),
                            Ok(rest) => Ok(
                                (if j > i {
                                    seq![FragmentSpec::Text(s.subrange(i, j))]
                                } else {
                                    seq![]
                                }) + seq![FragmentSpec::Link(link)] + rest,
                            ),
                        }
                    },
                },
            },
        }
    }
}

/// The fragments of a whole text.
pub open spec fn parse_spec(s: Seq<char>) -> Result<Seq<FragmentSpec>, LinkSyntaxError> {
    parse_from(s, 0)
}

/// The storage text of a link.
pub open spec fn link_text(l: LinkSpec) -> Seq<char> {
    match l {
        LinkSpec::ById(id) => open_delim() + decimal(id as nat) + close_delim(),
        LinkSpec::ByNumericToken(id) => open_delim() + decimal(id as nat) + close_delim(),
        LinkSpec::ByLookup(k) => open_delim() + k + close_delim(),
        LinkSpec::ByIdWithLabel(id, label) => open_delim() + decimal(id as nat) + label_sep()
            + label + close_delim(),
    }
}

pub open spec fn fragment_text(f: FragmentSpec) -> Seq<char> {
    match f {
        FragmentSpec::Text(t) => t,
        FragmentSpec::Link(l) => link_text(l),
    }
}

/// The storage text of a list of fragments: their texts, in order.
pub open spec fn fragments_text(fs: Seq<FragmentSpec>) -> Seq<char>
    decreases fs.len(),
{
    if fs.len() == 0 {
        seq![]
    } else {
        fragments_text(fs.drop_last()) + fragment_text(fs.last())
    }
}

/// The link of a fragment list's `i`-th link fragment, in order of appearance.
pub open spec fn links_of(fs: Seq<FragmentSpec>) -> Seq<LinkSpec>
    decreases fs.len(),
{
    if fs.len() == 0 {
        seq![]
    } else {
        match fs.last() {
            FragmentSpec::Link(l) => links_of(fs.drop_last()).push(l),
            FragmentSpec::Text(_) => links_of(fs.drop_last()),
        }
    }
}

/// Some fragment is a link.
pub open spec fn has_link(fs: Seq<FragmentSpec>) -> bool {
    exists|i: int| 0 <= i < fs.len() && fs[i] is Link
}

/// A label of a labelled link: text that cannot disturb the token around it.
#[derive(Debug, PartialEq, Eq)]
pub struct LinkLabel {
    text: String,
}

impl View for LinkLabel {
    type V = Seq<char>;

    closed spec fn view(&self) -> Seq<char> {
        self.text@
    }
}

impl LinkLabel {
    #[verifier::type_invariant]
    spec fn well_formed(self) -> bool {
        valid_label(self.text@)
    }

    pub(crate) fn from_chars(chars: &Vec<char>) -> (r: LinkLabel)
        requires
            valid_label(chars@),
        ensures
            r@ == chars@,
    {
        LinkLabel { text: chars_to_string(chars.as_slice()) }
    }

    pub fn as_str(&self) -> (r: &str)
        ensures
            r@ == self@,
            valid_label(self@),
    {
        proof {
            use_type_invariant(self);
        }
        self.text.as_str()
    }
}

impl Clone for LinkLabel {
    fn clone(&self) -> (r: Self)
        ensures
            r == *self,
    {
        proof {
            use_type_invariant(self);
        }
        LinkLabel { text: self.text.clone() }
    }
}

/// A link token of node content.
#[derive(Debug, PartialEq, Eq)]
pub enum ParsedLink {
    ById(NodeId),
    ByNumericToken(NodeId),
    ByLookup(LookupKey),
    ByIdWithLabel(NodeId, LinkLabel),
}

impl View for ParsedLink {
    type V = LinkSpec;

    open spec fn view(&self) -> LinkSpec {
        match self {
            ParsedLink::ById(id) => LinkSpec::ById(id@),
            ParsedLink::ByNumericToken(id) => LinkSpec::ByNumericToken(id@),
            ParsedLink::ByLookup(k) => LinkSpec::ByLookup(k@),
            ParsedLink::ByIdWithLabel(id, label) => LinkSpec::ByIdWithLabel(id@, label@),
        }
    }
}

impl Clone for ParsedLink {
    fn clone(&self) -> (r: Self)
        ensures
            r == *self,
    {
        match self {
            ParsedLink::ById(id) => ParsedLink::ById(*id),
            ParsedLink::ByNumericToken(id) => ParsedLink::ByNumericToken(*id),
            ParsedLink::ByLookup(k) => ParsedLink::ByLookup(k.clone()),
            ParsedLink::ByIdWithLabel(id, label) => ParsedLink::ByIdWithLabel(*id, label.clone()),
        }
    }
}

/// A piece of node content: plain text or a link token.
#[derive(Debug, PartialEq, Eq)]
pub enum ContentFragment {
    Text(String),
    Link(ParsedLink),
}

impl View for ContentFragment {
    type V = FragmentSpec;

    open spec fn view(&self) -> FragmentSpec {
        match self {
            ContentFragment::Text(t) => FragmentSpec::Text(t@),
            ContentFragment::Link(l) => FragmentSpec::Link(l@),
        }
    }
}

pub open spec fn fragment_views(fs: Seq<ContentFragment>) -> Seq<FragmentSpec> {
    fs.map_values(|f: ContentFragment| f@)
}

pub fn valid_label_exec(l: &Vec<char>) -> (r: bool)
    ensures
        r == valid_label(l@),
{
    let (a, b) = trim_bounds(l);
    if a == b {
        return false;
    }
    let open = vec!['{', '{'];
    let close = vec!['}', '}'];
    if contains_exec(l.as_slice(), open.as_slice()) || contains_exec(
        l.as_slice(),
        close.as_slice(),
    ) {
        return false;
    }
    if l[l.len() - 1] == '}' {
        return false;
    }
    is_single_line_exec(l.as_slice())
}

/// The id written by a run of digits, when it is a valid id.
fn digits_id(d: &Vec<char>) -> (r: Option<NodeId>)
    requires
        all_digits(d@),
    ensures
        match r {
            Some(id) => id_in_range(digits_value(d@)) && id@ == digits_value(d@),
            None => !id_in_range(digits_value(d@)),
        },
{
    match digits_value_bounded(d.as_slice(), 0x7fff_ffff_ffff_ffffu64) {
        Some(v) => {
            if v == 0 {
                None
            } else {
                match NodeId::new(v as i64) {
                    Ok(id) => Some(id),
                    Err(_) => None,
                }
            }
        },
        None => None,
    }
}

/// Computes `classify_body`.
pub fn classify_body_exec(body: &Vec<char>) -> (r: Option<ParsedLink>)
    ensures
        match (r, classify_body(body@)) {
            (Some(l), Some(ls)) => l@ == ls,
            (None, None) => true,
            _ => false,
        },
{
    let sep = vec![':', ':'];
    match find_from_exec(body.as_slice(), sep.as_slice(), 0) {
        Some(p) => {
            proof {
                lemma_find_from_bounds(body@, label_sep(), 0);
            }
            let id_part = slice_chars(body, 0, p);
            let label = slice_chars(body, p + 2, body.len());
            if id_part.len() == 0 || !all_digits_exec(id_part.as_slice()) {
                return None;
            }
            match digits_id(&id_part) {
                None => None,
                Some(id) => {
                    if valid_label_exec(&label) {
                        Some(ParsedLink::ByIdWithLabel(id, LinkLabel::from_chars(&label)))
                    } else {
                        None
                    }
                },
            }
        },
        None => {
            if body.len() > 0 && all_digits_exec(body.as_slice()) {
                return match digits_id(body) {
                    Some(id) => Some(ParsedLink::ById(id)),
                    None => None,
                };
            }
            let t = trim_chars(body);
            if t.len() > 0 && all_digits_exec(t.as_slice()) {
                return match digits_id(&t) {
                    Some(id) => Some(ParsedLink::ByNumericToken(id)),
                    None => None,
                };
            }
            match lookup_key_check(body) {
                Ok(k) => {
                    proof {
                        crate::domain::lemma_trim_idempotent(body@);
                    }
                    Some(ParsedLink::ByLookup(LookupKey::from_checked(&k)))
                },
                Err(_) => None,
            }
        },
    }
}

/// Computes `parse_spec`.
pub fn parse_chars(s: &Vec<char>) -> (r: Result<Vec<ContentFragment>, LinkSyntaxError>)
    ensures
        match (r, parse_spec(s@)) {
            (Ok(v), Ok(f)) => fragment_views(v@) == f,
            (Err(e1), Err(e2)) => e1 == e2,
            _ => false,
        },
{
    let mut out: Vec<ContentFragment> = Vec::new();
    let mut i: usize = 0;
    let open = vec!['{', '{'];
    let close = vec!['}', '}'];
    assert(fragment_views(out@) =~= Seq::<FragmentSpec>::empty());
    loop
        invariant
            i <= s.len(),
            open@ == open_delim(),
            close@ == close_delim(),
            match parse_from(s@, i as int) {
                Ok(rest) => parse_spec(s@) == Ok::<Seq<FragmentSpec>, LinkSyntaxError>(
                    fragment_views(out@) + rest,
                ),
                Err(e) => parse_spec(s@) == Err::<Seq<FragmentSpec>, LinkSyntaxError>(e),
            },
        decreases s.len() - i,
    {
        if i >= s.len() {
            assert(fragment_views(out@) + Seq::<FragmentSpec>::empty() =~= fragment_views(out@));
            return Ok(out);
        }
        match find_from_exec(s.as_slice(), open.as_slice(), i) {
            None => {
                let t = slice_chars(s, i, s.len());
                let ghost before = out@;
                out.push(ContentFragment::Text(chars_to_string(t.as_slice())));
                assert(fragment_views(out@) =~= fragment_views(before) + seq![
                    FragmentSpec::Text(s@.subrange(i as int, s@.len() as int)),
                ]);
                return Ok(out);
            },
            Some(j) => {
                proof {
                    lemma_find_from_bounds(s@, open_delim(), i as int);
                }
                match find_from_exec(s.as_slice(), close.as_slice(), j + 2) {
                    None => {
                        return Err(LinkSyntaxError::UnclosedLink);
                    },
                    Some(k) => {
                        proof {
                            lemma_find_from_bounds(s@, close_delim(), j + 2);
                        }
                        let body = slice_chars(s, j + 2, k);
                        match classify_body_exec(&body) {
                            None => {
                                return Err(LinkSyntaxError::InvalidLink);
                            },
                            Some(link) => {
                                let ghost before = out@;
                                let ghost link_view = link@;
                                if j > i {
                                    let t = slice_chars(s, i, j);
                                    out.push(ContentFragment::Text(chars_to_string(t.as_slice())));
                                }
                                out.push(ContentFragment::Link(link));
                                let ghost head: Seq<FragmentSpec> = if j > i {
                                    seq![FragmentSpec::Text(s@.subrange(i as int, j as int))]
                                } else {
                                    seq![]
                                };
                                assert(fragment_views(out@) =~= fragment_views(before) + head
                                    + seq![FragmentSpec::Link(link_view)]);
                                i = k + 2;
                                proof {
                                    match parse_from(s@, i as int) {
                                        Ok(rest) => {
                                            assert(fragment_views(before) + (head + seq![
                                                FragmentSpec::Link(link_view),
                                            ] + rest) =~= fragment_views(out@) + rest);
                                        },
                                        Err(e) => {},
                                    }
                                }
                            },
                        }
                    },
                }
            },
        }
    }
}

/// Splits node content into plain text and link tokens.
pub fn parse_content(content: &ContentLine) -> (r: Result<Vec<ContentFragment>, LinkSyntaxError>)
    ensures
        match (r, parse_spec(content@)) {
            (Ok(v), Ok(f)) => fragment_views(v@) == f,
            (Err(e1), Err(e2)) => e1 == e2,
            _ => false,
        },
{
    let chars = content.chars();
    parse_chars(&chars)
}

/// Appends the storage text of a link.
pub fn push_link_text(out: &mut Vec<char>, link: &ParsedLink)
    ensures
        final(out)@ == old(out)@ + link_text(link@),
{
    out.push('{');
    out.push('{');
    match link {
        ParsedLink::ById(id) | ParsedLink::ByNumericToken(id) => {
            let v = id.value();
            push_decimal(out, v as u64);
        },
        ParsedLink::ByLookup(k) => {
            let kc = k.chars();
            push_all(out, kc.as_slice());
        },
        ParsedLink::ByIdWithLabel(id, label) => {
            let v = id.value();
            push_decimal(out, v as u64);
            out.push(':');
            out.push(':');
            let lc = crate::text::to_chars(label.as_str());
            push_all(out, lc.as_slice());
        },
    }
    out.push('}');
    out.push('}');
    proof {
        assert(out@ =~= old(out)@ + link_text(link@));
    }
}

/// The storage text of one link: `{{id}}`, `{{key}}` or `{{id::label}}`.
pub fn link_to_storage(link: &ParsedLink) -> (r: String)
    ensures
        r@ == link_text(link@),
{
    let mut out: Vec<char> = Vec::new();
    push_link_text(&mut out, link);
    assert(out@ =~= link_text(link@));
    chars_to_string(out.as_slice())
}

/// What a parsed link always satisfies.
pub open spec fn link_wf(l: LinkSpec) -> bool {
    match l {
        LinkSpec::ById(id) => id_in_range(id as nat) && id >= 1,
        LinkSpec::ByNumericToken(id) => id_in_range(id as nat) && id >= 1,
        LinkSpec::ByLookup(k) => lookup_key_of(k) == Ok::<Seq<char>, crate::domain::LookupKeyError>(
            k,
        ),
        LinkSpec::ByIdWithLabel(id, label) => id_in_range(id as nat) && id >= 1 && valid_label(
            label,
        ),
    }
}

pub open spec fn links_wf(fs: Seq<FragmentSpec>) -> bool {
    forall|n: int|
        0 <= n < fs.len() ==> (#[trigger] fs[n] matches FragmentSpec::Link(l) ==> link_wf(l))
}

pub proof fn lemma_classify_wf(body: Seq<char>)
    ensures
        classify_body(body) matches Some(l) ==> link_wf(l),
{
    if let Some(l) = classify_body(body) {
        if let LinkSpec::ByLookup(k) = l {
            crate::domain::lemma_trim_idempotent(body);
        }
    }
}

/// Every link that parsing yields is well formed.
pub proof fn lemma_parse_links_wf(s: Seq<char>, i: int)
    ensures
        parse_from(s, i) matches Ok(fs) ==> links_wf(fs),
    decreases s.len() - i,
{
    if i < 0 || i >= s.len() {
    } else {
        lemma_find_from_bounds(s, open_delim(), i);
        match find_from(s, open_delim(), i) {
            None => {},
            Some(j) => {
                lemma_find_from_bounds(s, close_delim(), j + 2);
                match find_from(s, close_delim(), j + 2) {
                    None => {},
                    Some(k) => {
                        lemma_classify_wf(s.subrange(j + 2, k));
                        lemma_parse_links_wf(s, k + 2);
                    },
                }
            },
        }
    }
}

pub proof fn lemma_contains_has_first(s: Seq<char>, needle: Seq<char>)
    requires
        needle.len() > 0,
        contains(s, needle),
    ensures
        crate::text::has_char(s, needle[0]),
{
    lemma_find_from_bounds(s, needle, 0);
    let j = find_from(s, needle, 0)->0;
    assert(s.subrange(j, j + needle.len())[0] == s[j]);
}

/// A normalized lookup key is also a valid label.
pub proof fn lemma_key_is_label(k: Seq<char>)
    requires
        lookup_key_of(k) == Ok::<Seq<char>, crate::domain::LookupKeyError>(k),
    ensures
        valid_label(k),
{
    crate::domain::lemma_trim_empty(k);
    if contains(k, open_delim()) {
        lemma_contains_has_first(k, open_delim());
    }
    if contains(k, close_delim()) {
        lemma_contains_has_first(k, close_delim());
    }
    if k.last() == '}' {
        assert(crate::text::has_char(k, '}'));
    }
}

} // verus!

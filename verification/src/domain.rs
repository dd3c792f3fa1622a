//! Core value types of the note kernel: node identifiers, validated
//! single-line text, lookup keys, aliases, records exchanged with a
//! repository, rendered read models and the shared error type.
use vstd::prelude::*;
use crate::text::{
    all_digits, all_digits_exec, all_ws, chars_to_string, contains, contains_exec, has_char, is_ws,
    to_chars, trim, trim_bounds, trim_chars, trim_end, trim_start, decimal, push_decimal, push_all,
};

verus! {

// ---------------------------------------------------------------------------
// Node identifiers
// ---------------------------------------------------------------------------

/// A positive, externally visible note identifier.
#[derive(Debug, Clone, Copy, PartialEq, Eq, Structural, PartialOrd, Ord, Hash)]
pub struct NodeId {
    value: i64,
}

#[derive(Debug, Clone, Copy, PartialEq, Eq, Structural)]
pub enum NodeIdError {
    NotPositive,
}

impl View for NodeId {
    type V = int;

    closed spec fn view(&self) -> int {
        self.value as int
    }
}

/// Two node ids with the same value are the same id.
pub proof fn lemma_node_id_view_injective(a: NodeId, b: NodeId)
    ensures
        a@ == b@ ==> a == b,
{
}

impl NodeId {
    #[verifier::type_invariant]
    spec fn positive(self) -> bool {
        self.value > 0
    }

    /// Accepts exactly the positive values.
    pub fn new(value: i64) -> (r: Result<NodeId, NodeIdError>)
        ensures
            value > 0 ==> (r matches Ok(id) && id@ == value),
            value <= 0 ==> r == Err::<NodeId, NodeIdError>(NodeIdError::NotPositive),
    {
        if value > 0 {
            Ok(NodeId { value })
        } else {
            Err(NodeIdError::NotPositive)
        }
    }

    pub fn value(&self) -> (r: i64)
        ensures
            r == self@,
            r > 0,
    {
        proof {
            use_type_invariant(self);
        }
        self.value
    }

    pub fn same(&self, other: &NodeId) -> (r: bool)
        ensures
            r == (*self == *other),
            r == (self@ == other@),
    {
        self.value == other.value
    }
}

impl NodeIdError {
    pub fn message(&self) -> (r: String)
        ensures
            r@ == "node ids must be positive integers"@,
    {
        "node ids must be positive integers".to_owned()
    }
}

/// The identifiers of a list of ids, as numbers.
pub open spec fn id_values(ids: Seq<NodeId>) -> Seq<int> {
    ids.map_values(|id: NodeId| id@)
}

pub fn contains_id(ids: &Vec<NodeId>, id: NodeId) -> (r: bool)
    ensures
        r == ids@.contains(id),
{
    let mut k: usize = 0;
    while k < ids.len()
        invariant
            k <= ids.len(),
            forall|i: int| 0 <= i < k ==> ids@[i] != id,
        decreases ids.len() - k,
    {
        if ids[k].same(&id) {
            return true;
        }
        k = k + 1;
    }
    false
}

// ---------------------------------------------------------------------------
// Single-line text
// ---------------------------------------------------------------------------

pub open spec fn is_single_line(s: Seq<char>) -> bool {
    !has_char(s, '\n') && !has_char(s, '\r')
}

pub fn is_single_line_exec(s: &[char]) -> (r: bool)
    ensures
        r == is_single_line(s@),
{
    let mut k: usize = 0;
    while k < s.len()
        invariant
            k <= s.len(),
            forall|i: int| 0 <= i < k ==> s@[i] != '\n' && s@[i] != '\r',
        decreases s.len() - k,
    {
        if s[k] == '\n' || s[k] == '\r' {
            return false;
        }
        k = k + 1;
    }
    true
}

pub fn has_char_exec(s: &[char], c: char) -> (r: bool)
    ensures
        r == has_char(s@, c),
{
    let mut k: usize = 0;
    while k < s.len()
        invariant
            k <= s.len(),
            forall|i: int| 0 <= i < k ==> s@[i] != c,
        decreases s.len() - k,
    {
        if s[k] == c {
            return true;
        }
        k = k + 1;
    }
    false
}

/// Content accepted for a stored node: not blank, on one line.
pub open spec fn valid_content_line(s: Seq<char>) -> bool {
    !all_ws(s) && is_single_line(s)
}

#[derive(Debug, Clone, Copy, PartialEq, Eq, Structural)]
pub enum ContentLineError {
    Empty,
    Multiline,
}

impl ContentLineError {
    pub fn message(&self) -> (r: String)
        ensures
            *self is Empty ==> r@ == "content cannot be empty"@,
            *self is Multiline ==> r@ == "content must stay on one line"@,
    {
        match self {
            ContentLineError::Empty => "content cannot be empty".to_owned(),
            ContentLineError::Multiline => "content must stay on one line".to_owned(),
        }
    }
}

/// Validated single-line node content.
#[derive(Debug, PartialEq, Eq)]
pub struct ContentLine {
    text: String,
}

impl View for ContentLine {
    type V = Seq<char>;

    closed spec fn view(&self) -> Seq<char> {
        self.text@
    }
}

impl ContentLine {
    #[verifier::type_invariant]
    spec fn well_formed(self) -> bool {
        valid_content_line(self.text@)
    }

    /// Accepts text that is not blank and holds no line break.
    pub fn parse(value: &str) -> (r: Result<ContentLine, ContentLineError>)
        ensures
            valid_content_line(value@) ==> (r matches Ok(line) && line@ == value@),
            all_ws(value@) ==> r == Err::<ContentLine, ContentLineError>(ContentLineError::Empty),
            !all_ws(value@) && !is_single_line(value@) ==> r == Err::<
                ContentLine,
                ContentLineError,
            >(ContentLineError::Multiline),
    {
        let chars = to_chars(value);
        let (start, end) = trim_bounds(&chars);
        if start == end {
            return Err(ContentLineError::Empty);
        }
        if !is_single_line_exec(&chars) {
            return Err(ContentLineError::Multiline);
        }
        Ok(ContentLine { text: value.to_owned() })
    }

    pub(crate) fn from_chars(chars: &Vec<char>) -> (r: ContentLine)
        requires
            valid_content_line(chars@),
        ensures
            r@ == chars@,
    {
        ContentLine { text: chars_to_string(chars.as_slice()) }
    }

    pub fn as_str(&self) -> (r: &str)
        ensures
            r@ == self@,
            valid_content_line(self@),
    {
        proof {
            use_type_invariant(self);
        }
        self.text.as_str()
    }

    pub fn chars(&self) -> (r: Vec<char>)
        ensures
            r@ == self@,
            valid_content_line(self@),
    {
        proof {
            use_type_invariant(self);
        }
        to_chars(self.text.as_str())
    }
}

impl Clone for ContentLine {
    fn clone(&self) -> (r: Self)
        ensures
            r == *self,
    {
        proof {
            use_type_invariant(self);
        }
        ContentLine { text: self.text.clone() }
    }
}

// ---------------------------------------------------------------------------
// The original single-line node text type and summary counts
// ---------------------------------------------------------------------------

/// Content accepted by `NodeContent::parse`: not blank and without `\n`.
pub open spec fn valid_node_content(s: Seq<char>) -> bool {
    !all_ws(s) && !has_char(s, '\n')
}

#[derive(Debug, Clone, Copy, PartialEq, Eq, Structural)]
pub enum NodeContentError {
    Empty,
    Multiline,
}

impl NodeContentError {
    pub fn message(&self) -> (r: String)
        ensures
            *self is Empty ==> r@ == "node content cannot be empty"@,
            *self is Multiline ==> r@ == "node content must stay on one line"@,
    {
        match self {
            NodeContentError::Empty => "node content cannot be empty".to_owned(),
            NodeContentError::Multiline => "node content must stay on one line".to_owned(),
        }
    }
}

/// Single-line node text.
#[derive(Debug, PartialEq, Eq)]
pub struct NodeContent {
    text: String,
}

impl View for NodeContent {
    type V = Seq<char>;

    closed spec fn view(&self) -> Seq<char> {
        self.text@
    }
}

impl NodeContent {
    #[verifier::type_invariant]
    spec fn well_formed(self) -> bool {
        valid_node_content(self.text@)
    }

    /// Rejects blank text first, then text holding a line feed.
    pub fn parse(value: &str) -> (r: Result<NodeContent, NodeContentError>)
        ensures
            valid_node_content(value@) ==> (r matches Ok(c) && c@ == value@),
            all_ws(value@) ==> r == Err::<NodeContent, NodeContentError>(NodeContentError::Empty),
            !all_ws(value@) && has_char(value@, '\n') ==> r == Err::<
                NodeContent,
                NodeContentError,
            >(NodeContentError::Multiline),
    {
        let chars = to_chars(value);
        let (start, end) = trim_bounds(&chars);
        if start == end {
            return Err(NodeContentError::Empty);
        }
        if has_char_exec(&chars, '\n') {
            return Err(NodeContentError::Multiline);
        }
        Ok(NodeContent { text: value.to_owned() })
    }

    pub fn as_str(&self) -> (r: &str)
        ensures
            r@ == self@,
            valid_node_content(self@),
    {
        proof {
            use_type_invariant(self);
        }
        self.text.as_str()
    }
}

impl Clone for NodeContent {
    fn clone(&self) -> (r: Self)
        ensures
            r == *self,
    {
        proof {
            use_type_invariant(self);
        }
        NodeContent { text: self.text.clone() }
    }
}

/// Counts of top-level and of all nodes.
#[derive(Debug, Clone, Copy, PartialEq, Eq, Structural)]
pub struct KnowledgeBaseSummary {
    pub top_level_nodes: usize,
    pub total_nodes: usize,
}

impl KnowledgeBaseSummary {
    pub fn new(top_level_nodes: usize, total_nodes: usize) -> (r: Self)
        ensures
            r.top_level_nodes == top_level_nodes,
            r.total_nodes == total_nodes,
    {
        KnowledgeBaseSummary { top_level_nodes, total_nodes }
    }
}

// ---------------------------------------------------------------------------
// Lookup keys and aliases
// ---------------------------------------------------------------------------

#[derive(Debug, Clone, Copy, PartialEq, Eq, Structural)]
pub enum LookupKeyError {
    Empty,
    Numeric,
    ReservedSyntax,
}

impl LookupKeyError {
    pub fn message(&self) -> (r: String)
        ensures
            *self is Empty ==> r@ == "lookup key cannot be empty"@,
            *self is Numeric ==> r@ == "lookup key cannot be purely numeric"@,
            *self is ReservedSyntax ==> r@ == "lookup key cannot contain reserved link syntax"@,
    {
        match self {
            LookupKeyError::Empty => "lookup key cannot be empty".to_owned(),
            LookupKeyError::Numeric => "lookup key cannot be purely numeric".to_owned(),
            LookupKeyError::ReservedSyntax => "lookup key cannot contain reserved link syntax".to_owned(),
        }
    }
}

/// Text that a lookup key may not contain: `::`, braces or line breaks.
pub open spec fn has_reserved_syntax(s: Seq<char>) -> bool {
    contains(s, seq![':', ':']) || has_char(s, '{') || has_char(s, '}') || !is_single_line(s)
}

/// How raw lookup text is normalized: trimmed, then refused when empty,
/// purely numeric, or holding reserved syntax.
pub open spec fn lookup_key_of(raw: Seq<char>) -> Result<Seq<char>, LookupKeyError> {
    let t = trim(raw);
    if t.len() == 0 {
        Err(LookupKeyError::Empty)
    } else if all_digits(t) {
        Err(LookupKeyError::Numeric)
    } else if has_reserved_syntax(t) {
        Err(LookupKeyError::ReservedSyntax)
    } else {
        Ok(t)
    }
}

pub fn lookup_key_check(raw: &Vec<char>) -> (r: Result<Vec<char>, LookupKeyError>)
    ensures
        match (r, lookup_key_of(raw@)) {
            (Ok(v), Ok(t)) => v@ == t,
            (Err(e1), Err(e2)) => e1 == e2,
            _ => false,
        },
{
    let t = trim_chars(raw);
    if t.len() == 0 {
        return Err(LookupKeyError::Empty);
    }
    if all_digits_exec(t.as_slice()) {
        return Err(LookupKeyError::Numeric);
    }
    let colons = vec![':', ':'];
    if contains_exec(t.as_slice(), colons.as_slice()) || has_char_exec(t.as_slice(), '{')
        || has_char_exec(t.as_slice(), '}') || !is_single_line_exec(t.as_slice()) {
        return Err(LookupKeyError::ReservedSyntax);
    }
    Ok(t)
}

/// A normalized key under which node content and aliases are looked up.
#[derive(Debug, PartialEq, Eq, PartialOrd, Ord, Hash)]
pub struct LookupKey {
    text: String,
}

impl View for LookupKey {
    type V = Seq<char>;

    closed spec fn view(&self) -> Seq<char> {
        self.text@
    }
}

impl LookupKey {
    #[verifier::type_invariant]
    spec fn well_formed(self) -> bool {
        self.text@.len() > 0 && trim(self.text@) == self.text@
    }

    /// Normalizes raw lookup text; see `lookup_key_of`.
    pub fn new(raw: &str) -> (r: Result<LookupKey, LookupKeyError>)
        ensures
            match (r, lookup_key_of(raw@)) {
                (Ok(k), Ok(t)) => k@ == t,
                (Err(e1), Err(e2)) => e1 == e2,
                _ => false,
            },
    {
        let chars = to_chars(raw);
        match lookup_key_check(&chars) {
            Ok(t) => {
                proof {
                    lemma_trim_idempotent(chars@);
                }
                Ok(LookupKey { text: chars_to_string(t.as_slice()) })
            },
            Err(e) => Err(e),
        }
    }

    pub(crate) fn from_checked(chars: &Vec<char>) -> (r: LookupKey)
        requires
            lookup_key_of(chars@) is Ok,
            trim(chars@) == chars@,
        ensures
            r@ == chars@,
    {
        LookupKey { text: chars_to_string(chars.as_slice()) }
    }

    /// The key under which a node's content is found: the content, trimmed.
    pub fn from_content(content: &ContentLine) -> (r: LookupKey)
        ensures
            r@ == trim(content@),
    {
        let chars = content.chars();
        let t = trim_chars(&chars);
        proof {
            lemma_trim_idempotent(chars@);
            lemma_trim_empty(chars@);
        }
        LookupKey { text: chars_to_string(t.as_slice()) }
    }

    /// The key under which an alias is found; aliases follow the lookup rules.
    pub fn from_alias(alias: &AliasText) -> (r: Result<LookupKey, LookupKeyError>)
        ensures
            match (r, lookup_key_of(alias@)) {
                (Ok(k), Ok(t)) => k@ == t,
                (Err(e1), Err(e2)) => e1 == e2,
                _ => false,
            },
    {
        LookupKey::new(alias.as_str())
    }

    pub fn as_str(&self) -> (r: &str)
        ensures
            r@ == self@,
            self@.len() > 0,
            trim(self@) == self@,
    {
        proof {
            use_type_invariant(self);
        }
        self.text.as_str()
    }

    pub fn chars(&self) -> (r: Vec<char>)
        ensures
            r@ == self@,
    {
        to_chars(self.text.as_str())
    }

    pub fn same(&self, other: &LookupKey) -> (r: bool)
        ensures
            r == (self@ == other@),
    {
        self.text == other.text
    }
}

impl Clone for LookupKey {
    fn clone(&self) -> (r: Self)
        ensures
            r == *self,
    {
        proof {
            use_type_invariant(self);
        }
        LookupKey { text: self.text.clone() }
    }
}

pub proof fn lemma_trim_start_idempotent(s: Seq<char>)
    ensures
        trim_start(trim_start(s)) == trim_start(s),
        trim_start(s).len() == 0 || !is_ws(trim_start(s)[0]),
    decreases s.len(),
{
    if s.len() > 0 && is_ws(s[0]) {
        lemma_trim_start_idempotent(s.drop_first());
    }
}

pub proof fn lemma_trim_end_keeps_first(s: Seq<char>)
    requires
        s.len() == 0 || !is_ws(s[0]),
    ensures
        trim_end(s).len() == 0 || !is_ws(trim_end(s)[0]),
        trim_end(s).len() == 0 || !is_ws(trim_end(s).last()),
        trim_end(s).len() <= s.len(),
        trim_end(s) == s.subrange(0, trim_end(s).len() as int),
    decreases s.len(),
{
    if s.len() > 0 && is_ws(s.last()) {
        lemma_trim_end_keeps_first(s.drop_last());
        let t = trim_end(s.drop_last());
        assert(t =~= s.subrange(0, t.len() as int));
        if t.len() > 0 {
            assert(t[0] == s[0]);
        }
    } else {
        assert(s.subrange(0, s.len() as int) =~= s);
    }
}

pub proof fn lemma_trim_end_noop(s: Seq<char>)
    requires
        s.len() == 0 || !is_ws(s.last()),
    ensures
        trim_end(s) == s,
{
}

pub proof fn lemma_trim_start_noop(s: Seq<char>)
    requires
        s.len() == 0 || !is_ws(s[0]),
    ensures
        trim_start(s) == s,
{
}

/// Trimming twice changes nothing more.
pub proof fn lemma_trim_idempotent(s: Seq<char>)
    ensures
        trim(trim(s)) == trim(s),
{
    lemma_trim_start_idempotent(s);
    let a = trim_start(s);
    lemma_trim_end_keeps_first(a);
    let b = trim_end(a);
    lemma_trim_start_noop(b);
    lemma_trim_end_noop(b);
}

/// Trimmed content that is not blank is not empty.
pub proof fn lemma_trim_empty(s: Seq<char>)
    ensures
        (trim(s).len() == 0) == all_ws(s),
    decreases s.len(),
{
    lemma_trim_start_all_ws(s);
    lemma_trim_end_all_ws(trim_start(s));
}

proof fn lemma_trim_start_all_ws(s: Seq<char>)
    ensures
        all_ws(s) == all_ws(trim_start(s)),
        trim_start(s).len() == 0 || !is_ws(trim_start(s)[0]),
    decreases s.len(),
{
    if s.len() > 0 && is_ws(s[0]) {
        lemma_trim_start_all_ws(s.drop_first());
        if all_ws(s.drop_first()) {
            assert forall|i: int| 0 <= i < s.len() implies is_ws(#[trigger] s[i]) by {
                if i > 0 {
                    assert(s[i] == s.drop_first()[i - 1]);
                }
            }
        }
        if all_ws(s) {
            assert forall|i: int| 0 <= i < s.drop_first().len() implies is_ws(
                #[trigger] s.drop_first()[i],
            ) by {
                assert(s.drop_first()[i] == s[i + 1]);
            }
        }
    }
}

proof fn lemma_trim_end_all_ws(s: Seq<char>)
    requires
        s.len() == 0 || !is_ws(s[0]),
    ensures
        (trim_end(s).len() == 0) == all_ws(s),
    decreases s.len(),
{
    if s.len() > 0 && is_ws(s.last()) {
        if s.len() == 1 {
            assert(is_ws(s[0]));
        } else {
            assert(s.drop_last()[0] == s[0]);
            lemma_trim_end_all_ws(s.drop_last());
            assert(!is_ws(s[0]));
        }
    } else if s.len() > 0 {
        assert(!is_ws(s[0]));
    }
}

#[derive(Debug, Clone, Copy, PartialEq, Eq, Structural)]
pub enum AliasTextError {
    Empty,
    Multiline,
}

impl AliasTextError {
    pub fn message(&self) -> (r: String)
        ensures
            *self is Empty ==> r@ == "alias cannot be empty"@,
            *self is Multiline ==> r@ == "alias must stay on one line"@,
    {
        match self {
            AliasTextError::Empty => "alias cannot be empty".to_owned(),
            AliasTextError::Multiline => "alias must stay on one line".to_owned(),
        }
    }
}

/// Alias text as written by the user: not blank, on one line.
#[derive(Debug, PartialEq, Eq)]
pub struct AliasText {
    text: String,
}

impl View for AliasText {
    type V = Seq<char>;

    closed spec fn view(&self) -> Seq<char> {
        self.text@
    }
}

impl AliasText {
    #[verifier::type_invariant]
    spec fn well_formed(self) -> bool {
        valid_content_line(self.text@)
    }

    pub fn new(value: &str) -> (r: Result<AliasText, AliasTextError>)
        ensures
            valid_content_line(value@) ==> (r matches Ok(a) && a@ == value@),
            all_ws(value@) ==> r == Err::<AliasText, AliasTextError>(AliasTextError::Empty),
            !all_ws(value@) && !is_single_line(value@) ==> r == Err::<
                AliasText,
                AliasTextError,
            >(AliasTextError::Multiline),
    {
        let chars = to_chars(value);
        let (start, end) = trim_bounds(&chars);
        if start == end {
            return Err(AliasTextError::Empty);
        }
        if !is_single_line_exec(&chars) {
            return Err(AliasTextError::Multiline);
        }
        Ok(AliasText { text: value.to_owned() })
    }

    pub fn as_str(&self) -> (r: &str)
        ensures
            r@ == self@,
            valid_content_line(self@),
    {
        proof {
            use_type_invariant(self);
        }
        self.text.as_str()
    }
}

impl Clone for AliasText {
    fn clone(&self) -> (r: Self)
        ensures
            r == *self,
    {
        proof {
            use_type_invariant(self);
        }
        AliasText { text: self.text.clone() }
    }
}

// ---------------------------------------------------------------------------
// Errors
// ---------------------------------------------------------------------------

/// The kernel's error type.
///
/// User-input problems are `Input` or `Constraint`, missing entities
/// `NotFound`, lookup resolution failures `LookupMiss` or `LookupAmbiguous`,
/// backend failures `Storage` and invalid stored data `StorageCorruption`.
#[derive(Debug, PartialEq, Eq)]
pub enum KernelError {
    Input(String),
    Constraint(String),
    NotFound { entity: &'static str, id: NodeId },
    LookupMiss(String),
    LookupAmbiguous(String),
    Storage(String),
    StorageCorruption(String),
}

pub type KernelResult<T> = Result<T, KernelError>;

/// The kind of a `KernelError`, without its details.
pub enum Failure {
    Input,
    Constraint,
    NotFound,
    LookupMiss,
    LookupAmbiguous,
    Storage,
    StorageCorruption,
}

pub open spec fn failure_of(e: KernelError) -> Failure {
    match e {
        KernelError::Input(_) => Failure::Input,
        KernelError::Constraint(_) => Failure::Constraint,
        KernelError::NotFound { .. } => Failure::NotFound,
        KernelError::LookupMiss(_) => Failure::LookupMiss,
        KernelError::LookupAmbiguous(_) => Failure::LookupAmbiguous,
        KernelError::Storage(_) => Failure::Storage,
        KernelError::StorageCorruption(_) => Failure::StorageCorruption,
    }
}

/// `r` failed, with an error of kind `k`.
pub open spec fn fails_with<T>(r: KernelResult<T>, k: Failure) -> bool {
    r matches Err(e) && failure_of(e) == k
}

/// `prefix`, the decimal id and `suffix`, as one message.
pub fn message_with_id(prefix: &str, id: NodeId, suffix: &str) -> (r: String)
    ensures
        r@ == prefix@ + decimal(id@ as nat) + suffix@,
{
    let mut out = to_chars(prefix);
    let v = id.value();
    push_decimal(&mut out, v as u64);
    let tail = to_chars(suffix);
    push_all(&mut out, tail.as_slice());
    chars_to_string(out.as_slice())
}

/// `prefix`, `middle` and `suffix`, as one message.
pub fn message_with_text(prefix: &str, middle: &str, suffix: &str) -> (r: String)
    ensures
        r@ == prefix@ + middle@ + suffix@,
{
    let mut out = to_chars(prefix);
    let m = to_chars(middle);
    push_all(&mut out, m.as_slice());
    let tail = to_chars(suffix);
    push_all(&mut out, tail.as_slice());
    chars_to_string(out.as_slice())
}

impl KernelError {
    /// The error as one line of text.
    pub fn message(&self) -> (r: String)
        ensures
            match self {
                KernelError::Input(m) => r@ == m@,
                KernelError::Constraint(m) => r@ == m@,
                KernelError::NotFound { entity, id } => r@ == entity@ + " "@ + decimal(
                    id@ as nat,
                ) + " not found"@,
                KernelError::LookupMiss(key) => r@ == "lookup `"@ + key@
                    + "` did not match any node"@,
                KernelError::LookupAmbiguous(key) => r@ == "lookup `"@ + key@
                    + "` matched more than one node"@,
                KernelError::Storage(m) => r@ == m@,
                KernelError::StorageCorruption(m) => r@ == m@,
            },
    {
        match self {
            KernelError::Input(m) => m.clone(),
            KernelError::Constraint(m) => m.clone(),
            KernelError::NotFound { entity, id } => {
                let prefix = message_with_text(entity, " ", "");
                let r = message_with_id(prefix.as_str(), *id, " not found");
                proof {
                    reveal_strlit("");
                    assert(r@ =~= entity@ + " "@ + decimal(id@ as nat) + " not found"@);
                }
                r
            },
            KernelError::LookupMiss(key) => message_with_text(
                "lookup `",
                key.as_str(),
                "` did not match any node",
            ),
            KernelError::LookupAmbiguous(key) => message_with_text(
                "lookup `",
                key.as_str(),
                "` matched more than one node",
            ),
            KernelError::Storage(m) => m.clone(),
            KernelError::StorageCorruption(m) => m.clone(),
        }
    }
}

// ---------------------------------------------------------------------------
// Records exchanged with a repository
// ---------------------------------------------------------------------------

/// Where a node goes in the tree.
#[derive(Debug, Clone, Copy, PartialEq, Eq, Structural)]
pub enum Placement {
    TopLevelFirst,
    TopLevelLast,
    Before(NodeId),
    After(NodeId),
    FirstChildOf(NodeId),
    LastChildOf(NodeId),
}

impl Placement {
    pub open spec fn spec_target_id(self) -> Option<NodeId> {
        match self {
            Placement::TopLevelFirst | Placement::TopLevelLast => None,
            Placement::Before(id) | Placement::After(id) | Placement::FirstChildOf(id)
            | Placement::LastChildOf(id) => Some(id),
        }
    }

    /// The node a placement is relative to, if any.
    pub fn target_id(&self) -> (r: Option<NodeId>)
        ensures
            r == self.spec_target_id(),
    {
        match self {
            Placement::TopLevelFirst | Placement::TopLevelLast => None,
            Placement::Before(id) | Placement::After(id) | Placement::FirstChildOf(id)
            | Placement::LastChildOf(id) => Some(*id),
        }
    }

    pub fn is_top_level(&self) -> (r: bool)
        ensures
            r == (*self is TopLevelFirst || *self is TopLevelLast),
    {
        match self {
            Placement::TopLevelFirst | Placement::TopLevelLast => true,
            _ => false,
        }
    }
}

/// How a delete treats the children of the deleted node.
#[derive(Debug, Clone, Copy, PartialEq, Eq, Structural)]
pub enum DeleteMode {
    Cascade,
    Reparent(Placement),
}

/// A stored node and its structural neighbours.
#[derive(Debug, PartialEq, Eq)]
pub struct StoredNode {
    pub id: NodeId,
    pub content: ContentLine,
    pub parent_id: Option<NodeId>,
    pub first_child_id: Option<NodeId>,
    pub last_child_id: Option<NodeId>,
    pub prev_sibling_id: Option<NodeId>,
    pub next_sibling_id: Option<NodeId>,
}

impl Clone for StoredNode {
    fn clone(&self) -> (r: Self)
        ensures
            r == *self,
    {
        StoredNode {
            id: self.id,
            content: self.content.clone(),
            parent_id: self.parent_id,
            first_child_id: self.first_child_id,
            last_child_id: self.last_child_id,
            prev_sibling_id: self.prev_sibling_id,
            next_sibling_id: self.next_sibling_id,
        }
    }
}

/// A daily note: its `YYYY-MM-DD` date and its node.
#[derive(Debug, PartialEq, Eq)]
pub struct DailyNoteRecord {
    pub note_date: String,
    pub node_id: NodeId,
}

impl Clone for DailyNoteRecord {
    fn clone(&self) -> (r: Self)
        ensures
            r == *self,
    {
        DailyNoteRecord { note_date: self.note_date.clone(), node_id: self.node_id }
    }
}

/// A link that points at a node, seen from its source.
#[derive(Debug, PartialEq, Eq)]
pub struct IncomingLinkRecord {
    pub source_node_id: NodeId,
    pub source_content: ContentLine,
    pub ordinal: i64,
    pub path: String,
}

impl Clone for IncomingLinkRecord {
    fn clone(&self) -> (r: Self)
        ensures
            r == *self,
    {
        IncomingLinkRecord {
            source_node_id: self.source_node_id,
            source_content: self.source_content.clone(),
            ordinal: self.ordinal,
            path: self.path.clone(),
        }
    }
}

/// A node whose content or an alias matches a lookup key.
#[derive(Debug, PartialEq, Eq)]
pub struct LookupCandidate {
    pub node_id: NodeId,
    pub content: ContentLine,
    pub path: String,
}

impl Clone for LookupCandidate {
    fn clone(&self) -> (r: Self)
        ensures
            r == *self,
    {
        LookupCandidate {
            node_id: self.node_id,
            content: self.content.clone(),
            path: self.path.clone(),
        }
    }
}

pub fn clone_ids(ids: &Vec<NodeId>) -> (r: Vec<NodeId>)
    ensures
        r@ == ids@,
{
    let mut r: Vec<NodeId> = Vec::new();
    let mut k: usize = 0;
    while k < ids.len()
        invariant
            k <= ids.len(),
            r@ == ids@.subrange(0, k as int),
        decreases ids.len() - k,
    {
        r.push(ids[k]);
        k = k + 1;
        assert(r@ =~= ids@.subrange(0, k as int));
    }
    assert(ids@.subrange(0, ids@.len() as int) =~= ids@);
    r
}

pub fn clone_aliases(aliases: &[AliasText]) -> (r: Vec<AliasText>)
    ensures
        r@ == aliases@,
{
    let mut r: Vec<AliasText> = Vec::new();
    let mut k: usize = 0;
    while k < aliases.len()
        invariant
            k <= aliases.len(),
            r@ == aliases@.subrange(0, k as int),
        decreases aliases.len() - k,
    {
        r.push(aliases[k].clone());
        k = k + 1;
        assert(r@ =~= aliases@.subrange(0, k as int));
    }
    assert(aliases@.subrange(0, aliases@.len() as int) =~= aliases@);
    r
}

/// A node to be created.
#[derive(Debug, PartialEq, Eq)]
pub struct NewNodeRecord {
    pub content: ContentLine,
    pub lookup_key: LookupKey,
    pub outgoing_links: Vec<NodeId>,
    pub aliases: Vec<AliasText>,
}

impl Clone for NewNodeRecord {
    fn clone(&self) -> (r: Self)
        ensures
            r.content == self.content,
            r.lookup_key == self.lookup_key,
            r.outgoing_links@ == self.outgoing_links@,
            r.aliases@ == self.aliases@,
    {
        NewNodeRecord {
            content: self.content.clone(),
            lookup_key: self.lookup_key.clone(),
            outgoing_links: clone_ids(&self.outgoing_links),
            aliases: clone_aliases(self.aliases.as_slice()),
        }
    }
}

/// New canonical content for an existing node.
#[derive(Debug, PartialEq, Eq)]
pub struct NodeUpdateRecord {
    pub node_id: NodeId,
    pub content: ContentLine,
    pub lookup_key: LookupKey,
    pub outgoing_links: Vec<NodeId>,
}

impl Clone for NodeUpdateRecord {
    fn clone(&self) -> (r: Self)
        ensures
            r.node_id == self.node_id,
            r.content == self.content,
            r.lookup_key == self.lookup_key,
            r.outgoing_links@ == self.outgoing_links@,
    {
        NodeUpdateRecord {
            node_id: self.node_id,
            content: self.content.clone(),
            lookup_key: self.lookup_key.clone(),
            outgoing_links: clone_ids(&self.outgoing_links),
        }
    }
}

/// Content rewritten to canonical storage form, with its lookup key and the
/// ids it links to, in order of appearance.
#[derive(Debug, PartialEq, Eq)]
pub struct CanonicalizedContent {
    pub content: ContentLine,
    pub lookup_key: LookupKey,
    pub outgoing_links: Vec<NodeId>,
}

// ---------------------------------------------------------------------------
// Rendered read models
// ---------------------------------------------------------------------------

/// A node id with its rendered content.
#[derive(Debug, PartialEq, Eq)]
pub struct NodeLine {
    pub id: NodeId,
    pub rendered_content: String,
}

impl Clone for NodeLine {
    fn clone(&self) -> (r: Self)
        ensures
            r == *self,
    {
        NodeLine { id: self.id, rendered_content: self.rendered_content.clone() }
    }
}

/// An incoming link with its rendered source.
#[derive(Debug, PartialEq, Eq)]
pub struct IncomingLinkView {
    pub source: NodeLine,
    pub ordinal: i64,
    pub path: String,
}

/// One node with its direct structure and incoming links, rendered.
#[derive(Debug, PartialEq, Eq)]
pub struct ReadNodeView {
    pub node: NodeLine,
    pub parent: Option<NodeLine>,
    pub prev_sibling: Option<NodeLine>,
    pub next_sibling: Option<NodeLine>,
    pub children: Vec<NodeLine>,
    pub incoming_links: Vec<IncomingLinkView>,
}

} // verus!

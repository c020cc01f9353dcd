//! Pointer operations and the walk path they are matched against.

use vstd::prelude::*;

use crate::number::{canonical, decimal, decimal_value, lemma_canonical_unique, lemma_decimal_round_trip, parse_digits};
use crate::text::{same_text, to_chars};

verus! {

/// Kind of pointer operation.
#[derive(Clone, Copy, Debug, PartialEq, Eq, Structural)]
pub enum OpKind {
    /// Insert the last token (overwrite existing object keys; insert/append on arrays).
    Add,
    /// Overwrite if the pointer exists; skip if missing.
    Replace,
    /// Omit if present; skip if missing.
    Remove,
    /// Copy the pointer's JSON into context; the body is unchanged.
    Extract,
}

impl OpKind {
    pub open spec fn mutating(self) -> bool {
        self != OpKind::Extract
    }

    /// Whether this operation mutates the serialized body.
    pub fn is_mutating(self) -> (r: bool)
        ensures
            r == self.mutating(),
    {
        !matches!(self, OpKind::Extract)
    }
}

/// Where an extracted JSON span is written.
#[derive(Debug)]
pub enum ExtractDest {
    /// A metadata key.
    Metadata(String),
    /// A structured-metadata namespace and key.
    Structured { namespace: String, key: String },
}

/// Where an add/replace value comes from.
#[derive(Debug)]
pub enum ValueSource {
    /// JSON bytes given in the configuration.
    Static(Vec<u8>),
    /// A metadata key; its text is injected as a JSON string.
    Metadata(String),
    /// A structured-metadata namespace and key; injected as JSON.
    Structured { namespace: String, key: String },
}

/// One compiled pointer operation.
#[derive(Debug)]
pub struct CompiledOp {
    /// Original pointer text.
    pub pointer: String,
    /// Decoded pointer tokens (empty for the document root).
    pub tokens: Vec<String>,
    pub kind: OpKind,
    /// Value to inject; `None` for remove, extract and static values.
    pub source: Option<ValueSource>,
    /// Extract destination.
    pub dest: Option<ExtractDest>,
    /// Static JSON payload.
    pub static_payload: Option<Vec<u8>>,
    /// JSON-quoted last pointer token.
    pub encoded_last_token: Option<Vec<u8>>,
}

/// The texts that a sequence of strings holds.
pub open spec fn texts(v: Seq<String>) -> Seq<Seq<char>> {
    v.map_values(|s: String| s@)
}

/// The destination of an extract, as mathematical data.
pub enum Dest {
    Metadata(Seq<char>),
    Structured(Seq<char>, Seq<char>),
}

/// The source of a value, as mathematical data.
pub enum Source {
    Static(Seq<u8>),
    Metadata(Seq<char>),
    Structured(Seq<char>, Seq<char>),
}

/// A compiled operation as mathematical data.
pub struct Op {
    pub tokens: Seq<Seq<char>>,
    pub kind: OpKind,
    pub source: Option<Source>,
    pub dest: Option<Dest>,
    pub payload: Option<Seq<u8>>,
    pub encoded: Option<Seq<u8>>,
}

impl ExtractDest {
    pub open spec fn model(self) -> Dest {
        match self {
            ExtractDest::Metadata(k) => Dest::Metadata(k@),
            ExtractDest::Structured { namespace, key } => Dest::Structured(namespace@, key@),
        }
    }
}

impl ValueSource {
    pub open spec fn model(self) -> Source {
        match self {
            ValueSource::Static(b) => Source::Static(b@),
            ValueSource::Metadata(k) => Source::Metadata(k@),
            ValueSource::Structured { namespace, key } => Source::Structured(namespace@, key@),
        }
    }
}

pub open spec fn bytes_of(v: Option<Vec<u8>>) -> Option<Seq<u8>> {
    match v {
        Some(b) => Some(b@),
        None => None,
    }
}

impl CompiledOp {
    pub open spec fn model(self) -> Op {
        Op {
            tokens: texts(self.tokens@),
            kind: self.kind,
            source: match self.source {
                Some(s) => Some(s.model()),
                None => None,
            },
            dest: match self.dest {
                Some(d) => Some(d.model()),
                None => None,
            },
            payload: bytes_of(self.static_payload),
            encoded: bytes_of(self.encoded_last_token),
        }
    }
}

/// Whether a token is the append token.
fn is_dash(token: &str) -> (r: bool)
    ensures
        r == (token@ == dash()),
{
    let r = same_text(token, "-");
    proof {
        reveal_strlit("-");
        assert("-"@ =~= dash());
    }
    r
}

impl CompiledOp {
    /// Whether this operation appends to an array.
    pub fn is_append(&self) -> (r: bool)
        ensures
            r == self.model().appends(),
    {
        let n: usize = self.tokens.len();
        if n == 0 {
            return false;
        }
        assert(self.model().tokens[n - 1] == self.tokens@[n - 1]@);
        self.kind == OpKind::Add && is_dash(self.tokens[n - 1].as_str())
    }
}

pub open spec fn models(ops: Seq<CompiledOp>) -> Seq<Op> {
    ops.map_values(|op: CompiledOp| op.model())
}

/// The token that names the position behind the last array element.
pub open spec fn dash() -> Seq<char> {
    seq!['-']
}

impl Op {
    /// Whether this operation appends to an array: an add whose last token is `-`.
    pub open spec fn appends(self) -> bool {
        self.kind == OpKind::Add && self.tokens.len() > 0 && self.tokens.last() == dash()
    }

    /// The number of leading tokens that name a place in the document.
    pub open spec fn place_len(self) -> nat {
        if self.appends() {
            (self.tokens.len() - 1) as nat
        } else {
            self.tokens.len()
        }
    }

    /// Whether this operation mutates the value at `place`.
    pub open spec fn mutates(self, place: Seq<Seq<char>>) -> bool {
        self.kind.mutating() && !self.appends() && self.tokens == place
    }

    /// Whether this operation extracts the value at `place`.
    pub open spec fn extracts(self, place: Seq<Seq<char>>) -> bool {
        self.kind == OpKind::Extract && self.tokens == place
    }

    /// Whether this operation appends to the array at `place`.
    pub open spec fn appends_to(self, place: Seq<Seq<char>>) -> bool {
        self.appends() && self.tokens.drop_last() == place
    }

    /// Whether the place of this operation is `place` or lies below it.
    pub open spec fn reaches(self, place: Seq<Seq<char>>) -> bool {
        place.len() <= self.place_len() && self.tokens.take(place.len() as int) == place
    }
}

/// The last operation that mutates the value at `place`.
pub open spec fn mutate_op(ops: Seq<Op>, place: Seq<Seq<char>>) -> Option<int>
    decreases ops.len(),
{
    if ops.len() == 0 {
        None
    } else if ops.last().mutates(place) {
        Some(ops.len() - 1)
    } else {
        mutate_op(ops.drop_last(), place)
    }
}

/// The last operation that extracts the value at `place`.
pub open spec fn extract_op(ops: Seq<Op>, place: Seq<Seq<char>>) -> Option<int>
    decreases ops.len(),
{
    if ops.len() == 0 {
        None
    } else if ops.last().extracts(place) {
        Some(ops.len() - 1)
    } else {
        extract_op(ops.drop_last(), place)
    }
}

/// The last operation that appends to the array at `place`.
pub open spec fn append_op(ops: Seq<Op>, place: Seq<Seq<char>>) -> Option<int>
    decreases ops.len(),
{
    if ops.len() == 0 {
        None
    } else if ops.last().appends_to(place) {
        Some(ops.len() - 1)
    } else {
        append_op(ops.drop_last(), place)
    }
}

/// Whether any operation has its place at or below `place`.
pub open spec fn touches(ops: Seq<Op>, place: Seq<Seq<char>>) -> bool {
    exists|j: int| 0 <= j < ops.len() && #[trigger] ops[j].reaches(place)
}

/// The array index that a token writes: digits without leading zeros.
pub open spec fn token_index(t: Seq<char>) -> Option<int> {
    if canonical(t) && decimal_value(t) <= usize::MAX {
        Some(decimal_value(t) as int)
    } else {
        None
    }
}

/// An array index as a pointer token: digits without leading zeros.
pub fn array_index(token: &str) -> (r: Option<usize>)
    ensures
        match r {
            Some(n) => token_index(token@) == Some(n as int),
            None => token_index(token@) is None,
        },
{
    let chars = to_chars(token);
    if chars.len() == 0 || (chars[0] == '0' && chars.len() > 1) {
        return None;
    }
    assert(chars@.skip(0) =~= token@);
    match parse_digits(&chars, 0, usize::MAX as u64) {
        Some(n) => Some(n as usize),
        None => None,
    }
}

/// Two tokens that write the same array index are the same token.
pub proof fn lemma_token_index_unique(a: Seq<char>, b: Seq<char>)
    requires
        token_index(a) is Some,
        token_index(a) == token_index(b),
    ensures
        a == b,
{
    lemma_canonical_unique(a, b);
}

/// One segment of the walk path.
#[derive(Debug)]
pub enum PathToken {
    /// Object member key, decoded.
    Key(String),
    /// Array index.
    Index(usize),
}

/// One segment of the walk path as mathematical data.
pub enum Segment {
    Key(Seq<char>),
    Index(int),
}

impl PathToken {
    pub open spec fn model(self) -> Segment {
        match self {
            PathToken::Key(k) => Segment::Key(k@),
            PathToken::Index(n) => Segment::Index(n as int),
        }
    }
}

/// Whether the pointer token `t` selects the segment `seg`.
pub open spec fn selects(t: Seq<char>, seg: Segment) -> bool {
    match seg {
        Segment::Key(k) => t == k,
        Segment::Index(n) => token_index(t) == Some(n),
    }
}

/// Whether the pointer tokens `place` name the walk path `path`.
pub open spec fn names(place: Seq<Seq<char>>, path: Seq<Segment>) -> bool {
    place.len() == path.len() && forall|i: int|
        0 <= i < place.len() ==> selects(#[trigger] place[i], path[i])
}

/// A walk path is named by at most one token sequence.
pub proof fn lemma_names_unique(a: Seq<Seq<char>>, b: Seq<Seq<char>>, path: Seq<Segment>)
    requires
        names(a, path),
        names(b, path),
    ensures
        a == b,
{
    assert forall|i: int| 0 <= i < a.len() implies a[i] == b[i] by {
        assert(selects(a[i], path[i]));
        assert(selects(b[i], path[i]));
        if let Segment::Index(n) = path[i] {
            lemma_token_index_unique(a[i], b[i]);
        }
    }
    assert(a =~= b);
}

pub open spec fn segments(path: Seq<PathToken>) -> Seq<Segment> {
    path.map_values(|t: PathToken| t.model())
}

/// Whether a walk path equals decoded pointer tokens.
pub fn path_eq_tokens(path: &[PathToken], tokens: &[String]) -> (r: bool)
    ensures
        r == names(texts(tokens@), segments(path@)),
{
    if path.len() != tokens.len() {
        return false;
    }
    let ghost place = texts(tokens@);
    let ghost segs = segments(path@);
    let mut i: usize = 0;
    while i < path.len()
        invariant
            path@.len() == tokens@.len(),
            i <= path@.len(),
            place == texts(tokens@),
            segs == segments(path@),
            forall|k: int| 0 <= k < i ==> selects(#[trigger] place[k], segs[k]),
        decreases path@.len() - i,
    {
        let ok = match &path[i] {
            PathToken::Key(key) => same_text(key.as_str(), tokens[i].as_str()),
            PathToken::Index(idx) => match array_index(tokens[i].as_str()) {
                Some(n) => n == *idx,
                None => false,
            },
        };
        assert(ok == selects(place[i as int], segs[i as int]));
        if !ok {
            return false;
        }
        i = i + 1;
    }
    true
}

/// The token sequence that names a walk path.
pub open spec fn place_of(path: Seq<Segment>) -> Seq<Seq<char>> {
    path.map_values(
        |seg: Segment|
            match seg {
                Segment::Key(k) => k,
                Segment::Index(n) => decimal(n as nat),
            },
    )
}

/// The index `n` is what its decimal digits write.
pub proof fn lemma_token_of_index(n: usize)
    ensures
        token_index(decimal(n as nat)) == Some(n as int),
{
    lemma_decimal_round_trip(n as nat);
}

/// `place_of` gives the one token sequence that names a walk path.
pub proof fn lemma_place_names(place: Seq<Seq<char>>, path: Seq<PathToken>)
    ensures
        names(place, segments(path)) <==> place == place_of(segments(path)),
{
    let segs = segments(path);
    let p = place_of(segs);
    assert forall|i: int| 0 <= i < p.len() implies selects(#[trigger] p[i], segs[i]) by {
        if let PathToken::Index(n) = path[i] {
            lemma_token_of_index(n);
        }
    }
    if names(place, segs) {
        lemma_names_unique(place, p, segs);
    }
}

} // verus!

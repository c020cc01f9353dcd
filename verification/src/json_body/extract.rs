//! Extraction that reads no further than it has to.
//!
//! The document is walked once, without an output, until every extract has been
//! captured. What stands behind that place is not looked at.

use vstd::prelude::*;
use vstd::slice::{slice_subrange, slice_to_vec};

use crate::json_body::error::{RewriteError, MAX_JSON_DEPTH};
use crate::json_body::ops::{texts, Dest, ExtractDest};
use crate::json_body::rewrite::{contains_text, parse_string};
use crate::json_body::scan::{bom_len, bump_depth, byte_at, colon_end, expect_byte, lemma_next_item, lemma_string_end, lemma_value_end, lemma_ws_end, next_item, read_separator, skip_bom, skip_value, skip_ws, string_end, value_end, ws_end, Next, Step};
use crate::json_body::walk::key_text;
use crate::number::{decimal, decimal_text};
use crate::text::same_text;

verus! {

/// A pointer whose value is captured, and where the value goes.
#[derive(Debug)]
pub struct ExtractOp {
    /// Decoded pointer tokens (empty for the document root).
    pub tokens: Vec<String>,
    /// Where the value goes.
    pub dest: ExtractDest,
}

/// A captured value.
#[derive(Debug)]
pub struct ExtractedValue {
    /// Where the value goes.
    pub dest: ExtractDest,
    /// The value's source bytes.
    pub json: Vec<u8>,
}

/// An extract as mathematical data.
pub ghost struct Wanted {
    /// The decoded pointer tokens.
    pub place: Seq<Seq<char>>,
    /// Where the value goes.
    pub dest: Dest,
}

impl ExtractOp {
    /// The extract as mathematical data.
    pub open spec fn model(self) -> Wanted {
        Wanted { place: texts(self.tokens@), dest: self.dest.model() }
    }
}

/// Extracts as mathematical data.
pub open spec fn wants(ops: Seq<ExtractOp>) -> Seq<Wanted> {
    ops.map_values(|op: ExtractOp| op.model())
}

/// Captured values as mathematical data.
pub open spec fn captured(values: Seq<ExtractedValue>) -> Seq<(Dest, Seq<u8>)> {
    values.map_values(|v: ExtractedValue| (v.dest.model(), v.json@))
}

/// What has been captured so far, and for which extracts.
#[verifier::ext_equal]
pub ghost struct Found {
    /// The captures, in the order in which they were found.
    pub captures: Seq<(Dest, Seq<u8>)>,
    /// Which extracts have their capture.
    pub satisfied: Seq<bool>,
}

/// The first extract from `j` on that names `place` and has no capture yet.
pub open spec fn open_want(ops: Seq<Wanted>, satisfied: Seq<bool>, place: Seq<Seq<char>>, j: int) -> Option<
    int,
>
    decreases ops.len() - j,
{
    if !(0 <= j < ops.len()) {
        None
    } else if !satisfied[j] && ops[j].place == place {
        Some(j)
    } else {
        open_want(ops, satisfied, place, j + 1)
    }
}

/// The value `json` at `place` goes to the first extract that waits for it.
pub open spec fn grab(ops: Seq<Wanted>, place: Seq<Seq<char>>, json: Seq<u8>, f: Found) -> Found {
    match open_want(ops, f.satisfied, place, 0) {
        Some(j) => Found {
            captures: f.captures.push((ops[j].dest, json)),
            satisfied: f.satisfied.update(j, true),
        },
        None => f,
    }
}

/// Whether every extract has its capture.
pub open spec fn complete(f: Found) -> bool {
    forall|j: int| 0 <= j < f.satisfied.len() ==> f.satisfied[j]
}

/// The walk over the value at `i`: the position behind it, or `None` where the
/// walk ended because every extract has its capture.
pub open spec fn take_value(
    ops: Seq<Wanted>,
    s: Seq<u8>,
    i: int,
    place: Seq<Seq<char>>,
    depth: int,
    f: Found,
) -> Result<(Option<int>, Found), RewriteError>
    decreases s.len() - i, 0int,
{
    let k = ws_end(s, i);
    proof {
        lemma_ws_end(s, i);
    }
    let walked = if byte_at(s, k) == Some(0x7Bu8) {
        if depth + 1 > MAX_JSON_DEPTH {
            Err(RewriteError::Depth)
        } else {
            take_members(ops, s, k + 1, place, depth + 1, true, Seq::empty(), f)
        }
    } else if byte_at(s, k) == Some(0x5Bu8) {
        if depth + 1 > MAX_JSON_DEPTH {
            Err(RewriteError::Depth)
        } else {
            take_elements(ops, s, k + 1, place, depth + 1, 0, f)
        }
    } else {
        match value_end(s, k, depth) {
            Err(err) => Err(err),
            Ok(e) => Ok((Some(e), f)),
        }
    };
    match walked {
        Err(err) => Err(err),
        Ok((None, n)) => Ok((None, n)),
        Ok((Some(e), n)) => {
            let m = grab(ops, place, s.subrange(k, e), n);
            if complete(m) {
                Ok((None, m))
            } else {
                Ok((Some(e), m))
            }
        },
    }
}

/// The walk over the remaining members of the object at `place`. Of members with
/// one key only the first counts.
pub open spec fn take_members(
    ops: Seq<Wanted>,
    s: Seq<u8>,
    i: int,
    place: Seq<Seq<char>>,
    depth: int,
    first: bool,
    seen: Seq<Seq<char>>,
    f: Found,
) -> Result<(Option<int>, Found), RewriteError>
    decreases s.len() - i, 2int,
{
    proof {
        lemma_next_item(s, i, first, 0x7D);
    }
    match next_item(s, i, first, 0x7D) {
        Next::Bad => Err(RewriteError::InvalidJson),
        Next::Close(e) => Ok((Some(e), f)),
        Next::Item(q) => {
            proof {
                lemma_string_end(s, q);
            }
            match string_end(s, q) {
                None => Err(RewriteError::InvalidJson),
                Some(e) => {
                    proof {
                        lemma_ws_end(s, e);
                    }
                    match (key_text(s.subrange(q, e)), colon_end(s, e)) {
                        (Some(key), Some(c)) => {
                            match take_member(ops, s, c, key, place, depth, seen, f) {
                                Err(err) => Err(err),
                                Ok((None, n)) => Ok((None, n)),
                                Ok((Some(v), n)) => if c < v <= s.len() {
                                    take_members(
                                        ops,
                                        s,
                                        v,
                                        place,
                                        depth,
                                        false,
                                        with_key(seen, key),
                                        n,
                                    )
                                } else {
                                    Err(RewriteError::InvalidJson)
                                },
                            }
                        },
                        _ => Err(RewriteError::InvalidJson),
                    }
                },
            }
        },
    }
}

/// The keys met so far, with one more.
pub open spec fn with_key(seen: Seq<Seq<char>>, key: Seq<char>) -> Seq<Seq<char>> {
    if seen.contains(key) {
        seen
    } else {
        seen.push(key)
    }
}

/// The walk over one member, whose value stands behind `c`.
pub open spec fn take_member(
    ops: Seq<Wanted>,
    s: Seq<u8>,
    c: int,
    key: Seq<char>,
    place: Seq<Seq<char>>,
    depth: int,
    seen: Seq<Seq<char>>,
    f: Found,
) -> Result<(Option<int>, Found), RewriteError>
    decreases s.len() - c, 1int,
{
    if seen.contains(key) {
        match value_end(s, c, depth) {
            Err(err) => Err(err),
            Ok(v) => Ok((Some(v), f)),
        }
    } else {
        take_value(ops, s, c, place.push(key), depth, f)
    }
}

/// The walk over the remaining elements of the array at `place`, from index `idx` on.
pub open spec fn take_elements(
    ops: Seq<Wanted>,
    s: Seq<u8>,
    i: int,
    place: Seq<Seq<char>>,
    depth: int,
    idx: int,
    f: Found,
) -> Result<(Option<int>, Found), RewriteError>
    decreases s.len() - i, 2int,
{
    proof {
        lemma_next_item(s, i, idx == 0, 0x5D);
    }
    match next_item(s, i, idx == 0, 0x5D) {
        Next::Bad => Err(RewriteError::InvalidJson),
        Next::Close(e) => Ok((Some(e), f)),
        Next::Item(q) => match take_value(ops, s, q, place.push(decimal(idx as nat)), depth, f) {
            Err(err) => Err(err),
            Ok((None, n)) => Ok((None, n)),
            Ok((Some(v), n)) => if q < v <= s.len() {
                take_elements(ops, s, v, place, depth, idx + 1, n)
            } else {
                Err(RewriteError::InvalidJson)
            },
        },
    }
}

/// The walk before anything is read.
pub open spec fn nothing_found(ops: Seq<Wanted>) -> Found {
    Found { captures: Seq::empty(), satisfied: Seq::new(ops.len(), |j: int| false) }
}

/// The captures from the document `s`, in the order in which they are found.
pub open spec fn take_document(ops: Seq<Wanted>, s: Seq<u8>) -> Result<
    Seq<(Dest, Seq<u8>)>,
    RewriteError,
> {
    let i = ws_end(s, bom_len(s));
    if ops.len() == 0 {
        Ok(Seq::empty())
    } else if i >= s.len() {
        Err(RewriteError::InvalidJson)
    } else {
        match take_value(ops, s, i, Seq::empty(), 0, nothing_found(ops)) {
            Err(err) => Err(err),
            Ok((_, f)) => Ok(f.captures),
        }
    }
}

/// The number of extracts that have their capture.
pub open spec fn served(satisfied: Seq<bool>) -> nat
    decreases satisfied.len(),
{
    if satisfied.len() == 0 {
        0
    } else {
        served(satisfied.drop_last()) + (if satisfied.last() {
            1nat
        } else {
            0nat
        })
    }
}

proof fn lemma_served(satisfied: Seq<bool>, j: int)
    ensures
        served(satisfied) <= satisfied.len(),
        0 <= j < satisfied.len() && !satisfied[j] ==> served(satisfied.update(j, true)) == served(
            satisfied,
        ) + 1,
    decreases satisfied.len(),
{
    if satisfied.len() > 0 {
        lemma_served(satisfied.drop_last(), j);
        if 0 <= j < satisfied.len() {
            let after = satisfied.update(j, true);
            if j < satisfied.len() - 1 {
                assert(after.drop_last() =~= satisfied.drop_last().update(j, true));
            } else {
                assert(after.drop_last() =~= satisfied.drop_last());
            }
        }
    }
}

proof fn lemma_served_none(n: nat)
    ensures
        served(Seq::new(n, |j: int| false)) == 0,
    decreases n,
{
    if n > 0 {
        lemma_served_none((n - 1) as nat);
        assert(Seq::new(n, |j: int| false).drop_last() =~= Seq::new((n - 1) as nat, |j: int| false));
    }
}

/// Whether `dest` is where an extract sends its value.
pub open spec fn is_wanted(ops: Seq<Wanted>, dest: Dest) -> bool {
    exists|j: int| 0 <= j < ops.len() && (#[trigger] ops[j]).dest == dest
}

/// There is one capture for each extract that is marked, and each goes where an
/// extract sends it.
pub open spec fn accounted(ops: Seq<Wanted>, f: Found) -> bool {
    &&& f.satisfied.len() == ops.len()
    &&& f.captures.len() == served(f.satisfied)
    &&& forall|k: int| 0 <= k < f.captures.len() ==> is_wanted(ops, (#[trigger] f.captures[k]).0)
}

proof fn lemma_open_want(ops: Seq<Wanted>, satisfied: Seq<bool>, place: Seq<Seq<char>>, j: int)
    requires
        0 <= j,
    ensures
        open_want(ops, satisfied, place, j) matches Some(m) ==> j <= m < ops.len() && !satisfied[m]
            && ops[m].place == place,
    decreases ops.len() - j,
{
    if j < ops.len() {
        lemma_open_want(ops, satisfied, place, j + 1);
    }
}

proof fn lemma_grab(ops: Seq<Wanted>, place: Seq<Seq<char>>, json: Seq<u8>, f: Found)
    requires
        accounted(ops, f),
    ensures
        accounted(ops, grab(ops, place, json, f)),
{
    lemma_open_want(ops, f.satisfied, place, 0);
    if let Some(j) = open_want(ops, f.satisfied, place, 0) {
        lemma_served(f.satisfied, j);
        assert(is_wanted(ops, ops[j].dest));
    }
}

/// Each extract gets at most one capture, and each capture goes where an extract
/// sends it.
pub proof fn law_one_capture_each(ops: Seq<Wanted>, s: Seq<u8>)
    ensures
        take_document(ops, s) matches Ok(captures) ==> {
            &&& captures.len() <= ops.len()
            &&& forall|k: int|
                0 <= k < captures.len() ==> is_wanted(ops, (#[trigger] captures[k]).0)
        },
{
    let i = ws_end(s, bom_len(s));
    let f = nothing_found(ops);
    lemma_served_none(ops.len());
    lemma_take_value(ops, s, i, Seq::empty(), 0, f);
    if let Ok((_, n)) = take_value(ops, s, i, Seq::empty(), 0, f) {
        lemma_served(n.satisfied, 0);
    }
}

/// A walk that has not ended ends a value inside the text, and its captures stay
/// accounted for.
proof fn lemma_take_value(
    ops: Seq<Wanted>,
    s: Seq<u8>,
    i: int,
    place: Seq<Seq<char>>,
    depth: int,
    f: Found,
)
    ensures
        take_value(ops, s, i, place, depth, f) matches Ok((Some(e), _)) ==> i < e <= s.len(),
        accounted(ops, f) ==> (take_value(ops, s, i, place, depth, f) matches Ok((_, n)) ==> accounted(ops, n)),
    decreases s.len() - i, 0int,
{
    let k = ws_end(s, i);
    lemma_ws_end(s, i);
    lemma_value_end(s, k, depth);
    let walked = if byte_at(s, k) == Some(0x7Bu8) {
        lemma_take_members(ops, s, k + 1, place, depth + 1, true, Seq::empty(), f);
        take_members(ops, s, k + 1, place, depth + 1, true, Seq::empty(), f)
    } else if byte_at(s, k) == Some(0x5Bu8) {
        lemma_take_elements(ops, s, k + 1, place, depth + 1, 0, f);
        take_elements(ops, s, k + 1, place, depth + 1, 0, f)
    } else {
        match value_end(s, k, depth) {
            Err(err) => Err(err),
            Ok(e) => Ok((Some(e), f)),
        }
    };
    if let Ok((Some(e), n)) = walked {
        if accounted(ops, n) {
            lemma_grab(ops, place, s.subrange(k, e), n);
        }
    }
}

proof fn lemma_take_members(
    ops: Seq<Wanted>,
    s: Seq<u8>,
    i: int,
    place: Seq<Seq<char>>,
    depth: int,
    first: bool,
    seen: Seq<Seq<char>>,
    f: Found,
)
    ensures
        take_members(ops, s, i, place, depth, first, seen, f) matches Ok((Some(e), _)) ==> i < e
            <= s.len(),
        accounted(ops, f) ==> (take_members(ops, s, i, place, depth, first, seen, f) matches Ok((_, n)) ==> accounted(ops, n)),
    decreases s.len() - i, 2int,
{
    lemma_next_item(s, i, first, 0x7D);
    if let Next::Item(q) = next_item(s, i, first, 0x7D) {
        lemma_string_end(s, q);
        if let Some(e) = string_end(s, q) {
            lemma_ws_end(s, e);
            if let (Some(key), Some(c)) = (key_text(s.subrange(q, e)), colon_end(s, e)) {
                lemma_take_value(ops, s, c, place.push(key), depth, f);
                if let Ok((Some(v), n)) = take_member(ops, s, c, key, place, depth, seen, f) {
                    if c < v <= s.len() {
                        lemma_take_members(ops, s, v, place, depth, false, with_key(seen, key), n);
                    }
                }
            }
        }
    }
}

proof fn lemma_take_elements(
    ops: Seq<Wanted>,
    s: Seq<u8>,
    i: int,
    place: Seq<Seq<char>>,
    depth: int,
    idx: int,
    f: Found,
)
    ensures
        take_elements(ops, s, i, place, depth, idx, f) matches Ok((Some(e), _)) ==> i < e
            <= s.len(),
        accounted(ops, f) ==> (take_elements(ops, s, i, place, depth, idx, f) matches Ok((_, n)) ==> accounted(ops, n)),
    decreases s.len() - i, 2int,
{
    lemma_next_item(s, i, idx == 0, 0x5D);
    if let Next::Item(q) = next_item(s, i, idx == 0, 0x5D) {
        lemma_take_value(ops, s, q, place.push(decimal(idx as nat)), depth, f);
        if let Ok((Some(v), n)) = take_value(ops, s, q, place.push(decimal(idx as nat)), depth, f) {
            if q < v <= s.len() {
                lemma_take_elements(ops, s, v, place, depth, idx + 1, n);
            }
        }
    }
}

/// The walk of an extraction.
struct ExtractWalker<'a> {
    input: &'a [u8],
    ops: &'a [ExtractOp],
    path: Vec<String>,
    captures: Vec<ExtractedValue>,
    satisfied: Vec<bool>,
}

/// The outcome of an executable step as the walk states it.
spec fn outcome(r: Result<Option<usize>, RewriteError>, f: Found) -> Result<
    (Option<int>, Found),
    RewriteError,
> {
    match r {
        Err(err) => Err(err),
        Ok(None) => Ok((None, f)),
        Ok(Some(e)) => Ok((Some(e as int), f)),
    }
}

fn same_path(a: &Vec<String>, b: &Vec<String>) -> (r: bool)
    ensures
        r == (texts(a@) == texts(b@)),
{
    if a.len() != b.len() {
        assert(texts(a@).len() != texts(b@).len());
        return false;
    }
    let n: usize = a.len();
    let mut i: usize = 0;
    while i < n
        invariant
            n == a@.len(),
            n == b@.len(),
            i <= n,
            forall|k: int| 0 <= k < i ==> a@[k]@ == b@[k]@,
        decreases n - i,
    {
        if !same_text(a[i].as_str(), b[i].as_str()) {
            assert(texts(a@)[i as int] != texts(b@)[i as int]);
            return false;
        }
        i = i + 1;
    }
    assert(texts(a@) =~= texts(b@));
    true
}

impl ExtractDest {
    /// A copy of the destination.
    pub fn copy(&self) -> (r: Self)
        ensures
            r.model() == self.model(),
    {
        match self {
            ExtractDest::Metadata(key) => ExtractDest::Metadata(key.clone()),
            ExtractDest::Structured { namespace, key } => ExtractDest::Structured {
                namespace: namespace.clone(),
                key: key.clone(),
            },
        }
    }
}

impl<'a> ExtractWalker<'a> {
    spec fn found(self) -> Found {
        Found { captures: captured(self.captures@), satisfied: self.satisfied@ }
    }

    spec fn wf(self) -> bool {
        self.satisfied@.len() == self.ops@.len()
    }

    /// What a step leaves alone.
    spec fn keeps(self, before: Self) -> bool {
        &&& self.wf()
        &&& self.ops@ == before.ops@
        &&& self.input@ == before.input@
    }

    /// Whether every extract has its capture.
    fn all_satisfied(&self) -> (r: bool)
        ensures
            r == complete(self.found()),
    {
        let n: usize = self.satisfied.len();
        let mut i: usize = 0;
        while i < n
            invariant
                n == self.satisfied@.len(),
                i <= n,
                forall|k: int| 0 <= k < i ==> self.satisfied@[k],
            decreases n - i,
        {
            if !self.satisfied[i] {
                assert(!self.found().satisfied[i as int]);
                return false;
            }
            i = i + 1;
        }
        true
    }

    /// Give `input[start..end]` to the first extract that waits for the current
    /// path. The answer says whether every extract has its capture now.
    fn try_capture(&mut self, start: usize, end: usize) -> (r: bool)
        requires
            old(self).wf(),
            start <= end <= old(self).input@.len(),
        ensures
            final(self).keeps(*old(self)),
            final(self).path@ == old(self).path@,
            final(self).found() == grab(
                wants(old(self).ops@),
                texts(old(self).path@),
                old(self).input@.subrange(start as int, end as int),
                old(self).found(),
            ),
            r == complete(final(self).found()),
    {
        let ghost all = wants(self.ops@);
        let ghost place = texts(self.path@);
        let n: usize = self.ops.len();
        let mut i: usize = 0;
        while i < n
            invariant_except_break
                *self == *old(self),
                open_want(all, self.satisfied@, place, 0) == open_want(
                    all,
                    self.satisfied@,
                    place,
                    i as int,
                ),
            invariant
                n == old(self).ops@.len(),
                all == wants(old(self).ops@),
                place == texts(old(self).path@),
                old(self).wf(),
                start <= end <= old(self).input@.len(),
                i <= n,
            ensures
                self.keeps(*old(self)),
                self.path@ == old(self).path@,
                self.found() == grab(
                    all,
                    place,
                    old(self).input@.subrange(start as int, end as int),
                    old(self).found(),
                ),
            decreases n - i,
        {
            let op: &ExtractOp = &self.ops[i];
            assert(all[i as int] == op.model());
            if !self.satisfied[i] && same_path(&op.tokens, &self.path) {
                let json = slice_to_vec(slice_subrange(self.input, start, end));
                let value = ExtractedValue { dest: op.dest.copy(), json };
                self.captures.push(value);
                self.satisfied.set(i, true);
                assert(captured(self.captures@) =~= captured(old(self).captures@).push(
                    (all[i as int].dest, json@),
                ));
                break;
            }
            i = i + 1;
        }
        self.all_satisfied()
    }

    /// Walk the value at `i`, which stands at the current path.
    fn extract_value(&mut self, i: usize, depth: u32) -> (r: Result<Option<usize>, RewriteError>)
        requires
            old(self).wf(),
            i <= old(self).input@.len(),
        ensures
            match r {
                Err(err) => take_value(
                    wants(old(self).ops@),
                    old(self).input@,
                    i as int,
                    texts(old(self).path@),
                    depth as int,
                    old(self).found(),
                ) == Err::<(Option<int>, Found), RewriteError>(err),
                Ok(_) => outcome(r, final(self).found()) == take_value(
                    wants(old(self).ops@),
                    old(self).input@,
                    i as int,
                    texts(old(self).path@),
                    depth as int,
                    old(self).found(),
                ),
            },
            r is Ok ==> final(self).keeps(*old(self)),
            r matches Ok(Some(e)) ==> i < e <= old(self).input@.len() && final(self).path@ == old(
                self,
            ).path@,
        decreases old(self).input@.len() - i, 0int,
    {
        proof {
            lemma_take_value(
                wants(self.ops@),
                self.input@,
                i as int,
                texts(self.path@),
                depth as int,
                self.found(),
            );
        }
        let input = self.input;
        let k = skip_ws(input, i);
        let step: Option<usize> = if k < input.len() && input[k] == 0x7B {
            let inner: u32 = bump_depth(depth)?;
            self.extract_object(k + 1, inner)?
        } else if k < input.len() && input[k] == 0x5B {
            let inner: u32 = bump_depth(depth)?;
            self.extract_array(k + 1, inner)?
        } else {
            Some(skip_value(input, k, depth)?)
        };
        match step {
            None => Ok(None),
            Some(e) => {
                if self.try_capture(k, e) {
                    Ok(None)
                } else {
                    Ok(Some(e))
                }
            },
        }
    }

    /// Walk the members of the object at the current path, behind its opening brace.
    fn extract_object(&mut self, i: usize, depth: u32) -> (r: Result<Option<usize>, RewriteError>)
        requires
            old(self).wf(),
            i <= old(self).input@.len(),
        ensures
            match r {
                Err(err) => take_members(
                    wants(old(self).ops@),
                    old(self).input@,
                    i as int,
                    texts(old(self).path@),
                    depth as int,
                    true,
                    Seq::empty(),
                    old(self).found(),
                ) == Err::<(Option<int>, Found), RewriteError>(err),
                Ok(_) => outcome(r, final(self).found()) == take_members(
                    wants(old(self).ops@),
                    old(self).input@,
                    i as int,
                    texts(old(self).path@),
                    depth as int,
                    true,
                    Seq::empty(),
                    old(self).found(),
                ),
            },
            r is Ok ==> final(self).keeps(*old(self)),
            r matches Ok(Some(e)) ==> i < e <= old(self).input@.len() && final(self).path@ == old(
                self,
            ).path@,
        decreases old(self).input@.len() - i, 2int,
    {
        let ghost all = wants(self.ops@);
        let ghost place = texts(self.path@);
        let input = self.input;
        let mut pos: usize = i;
        let mut first: bool = true;
        let mut seen: Vec<String> = Vec::new();
        assert(texts(seen@) =~= Seq::<Seq<char>>::empty());
        loop
            invariant
                all == wants(old(self).ops@),
                place == texts(old(self).path@),
                input@ == old(self).input@,
                self.keeps(*old(self)),
                self.path@ == old(self).path@,
                i <= pos <= input@.len(),
                take_members(
                    all,
                    input@,
                    i as int,
                    place,
                    depth as int,
                    true,
                    Seq::empty(),
                    old(self).found(),
                ) == take_members(
                    all,
                    input@,
                    pos as int,
                    place,
                    depth as int,
                    first,
                    texts(seen@),
                    self.found(),
                ),
            decreases input@.len() - pos,
        {
            match read_separator(input, pos, first, 0x7D)? {
                Step::Close(e) => {
                    return Ok(Some(e));
                },
                Step::Item(q) => {
                    let (e, key) = parse_string(input, q)?;
                    proof {
                        lemma_string_end(input@, q as int);
                    }
                    let c = expect_byte(input, skip_ws(input, e), 0x3A)?;
                    let ghost before = seen@;
                    assert(key_text(input@.subrange(q as int, e as int)) == Some(key@));
                    assert(colon_end(input@, e as int) == Some(c as int));
                    // The step that the walk takes from here.
                    let ghost member = take_member(
                        all,
                        input@,
                        c as int,
                        key@,
                        place,
                        depth as int,
                        texts(before),
                        self.found(),
                    );
                    if contains_text(&seen, key.as_str()) {
                        let v = skip_value(input, c, depth)?;
                        pos = v;
                    } else {
                        seen.push(key.clone());
                        assert(texts(seen@) =~= texts(before).push(key@));
                        let ghost path = self.path@;
                        self.path.push(key);
                        assert(texts(self.path@) =~= place.push(key@));
                        match self.extract_value(c, depth)? {
                            None => {
                                return Ok(None);
                            },
                            Some(v) => {
                                self.path.pop();
                                assert(self.path@ =~= path);
                                pos = v;
                            },
                        }
                    }
                    first = false;
                },
            }
        }
    }

    /// Walk the elements of the array at the current path, behind its opening bracket.
    fn extract_array(&mut self, i: usize, depth: u32) -> (r: Result<Option<usize>, RewriteError>)
        requires
            old(self).wf(),
            i <= old(self).input@.len(),
        ensures
            match r {
                Err(err) => take_elements(
                    wants(old(self).ops@),
                    old(self).input@,
                    i as int,
                    texts(old(self).path@),
                    depth as int,
                    0,
                    old(self).found(),
                ) == Err::<(Option<int>, Found), RewriteError>(err),
                Ok(_) => outcome(r, final(self).found()) == take_elements(
                    wants(old(self).ops@),
                    old(self).input@,
                    i as int,
                    texts(old(self).path@),
                    depth as int,
                    0,
                    old(self).found(),
                ),
            },
            r is Ok ==> final(self).keeps(*old(self)),
            r matches Ok(Some(e)) ==> i < e <= old(self).input@.len() && final(self).path@ == old(
                self,
            ).path@,
        decreases old(self).input@.len() - i, 2int,
    {
        let ghost all = wants(self.ops@);
        let ghost place = texts(self.path@);
        let input = self.input;
        let mut pos: usize = i;
        let mut idx: usize = 0;
        loop
            invariant
                all == wants(old(self).ops@),
                place == texts(old(self).path@),
                input@ == old(self).input@,
                self.keeps(*old(self)),
                self.path@ == old(self).path@,
                i + idx <= pos <= input@.len(),
                take_elements(
                    all,
                    input@,
                    i as int,
                    place,
                    depth as int,
                    0,
                    old(self).found(),
                ) == take_elements(
                    all,
                    input@,
                    pos as int,
                    place,
                    depth as int,
                    idx as int,
                    self.found(),
                ),
            decreases input@.len() - pos,
        {
            match read_separator(input, pos, idx == 0, 0x5D)? {
                Step::Close(e) => {
                    return Ok(Some(e));
                },
                Step::Item(q) => {
                    let ghost path = self.path@;
                    let token = decimal_text(idx as u64);
                    self.path.push(token);
                    assert(texts(self.path@) =~= place.push(decimal(idx as nat)));
                    match self.extract_value(q, depth)? {
                        None => {
                            return Ok(None);
                        },
                        Some(v) => {
                            self.path.pop();
                            assert(self.path@ =~= path);
                            pos = v;
                        },
                    }
                    idx = idx + 1;
                },
            }
        }
    }
}

/// Walk `input` and capture the JSON of each extract. A pointer that is missing
/// has no capture, and the walk stops once every extract has one.
pub fn extract(input: &[u8], ops: &[ExtractOp]) -> (r: Result<Vec<ExtractedValue>, RewriteError>)
    ensures
        match r {
            Ok(values) => take_document(wants(ops@), input@) == Ok::<
                Seq<(Dest, Seq<u8>)>,
                RewriteError,
            >(captured(values@)),
            Err(err) => take_document(wants(ops@), input@) == Err::<
                Seq<(Dest, Seq<u8>)>,
                RewriteError,
            >(err),
        },
{
    if ops.len() == 0 {
        let none: Vec<ExtractedValue> = Vec::new();
        assert(captured(none@) =~= Seq::<(Dest, Seq<u8>)>::empty());
        return Ok(none);
    }
    let mut satisfied: Vec<bool> = Vec::new();
    let n: usize = ops.len();
    let mut i: usize = 0;
    while i < n
        invariant
            n == ops@.len(),
            i <= n,
            satisfied@ == Seq::new(i as nat, |j: int| false),
        decreases n - i,
    {
        satisfied.push(false);
        i = i + 1;
        assert(satisfied@ =~= Seq::new(i as nat, |j: int| false));
    }
    let mut walker = ExtractWalker {
        input,
        ops,
        path: Vec::new(),
        captures: Vec::new(),
        satisfied,
    };
    assert(walker.found() =~= nothing_found(wants(ops@)));
    assert(texts(walker.path@) =~= Seq::<Seq<char>>::empty());
    let start = skip_ws(input, skip_bom(input));
    if start >= input.len() {
        return Err(RewriteError::InvalidJson);
    }
    walker.extract_value(start, 0)?;
    let ExtractWalker { input: _, ops: _, path: _, captures, satisfied: _ } = walker;
    Ok(captures)
}

} // verus!

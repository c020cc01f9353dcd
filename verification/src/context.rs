//! Request-scoped metadata that filters share.

use vstd::prelude::*;

use crate::json_body::grammar::is_value;
use crate::json_text::{compact_json, json_compact};
use crate::text::same_text;

verus! {

/// Longest metadata value, in bytes, that a context keeps.
pub const MAX_METADATA_VALUE_BYTES: usize = 256;

/// Texts by key.
pub struct MetaMap {
    entries: Vec<(String, String)>,
}

/// The map that a list of entries writes: a later entry replaces an earlier one.
spec fn meta_of(entries: Seq<(String, String)>) -> Map<Seq<char>, Seq<char>>
    decreases entries.len(),
{
    if entries.len() == 0 {
        Map::empty()
    } else {
        meta_of(entries.drop_last()).insert(meta_key(entries.last()), entries.last().1@)
    }
}

spec fn meta_key(entry: (String, String)) -> Seq<char> {
    entry.0@
}

impl View for MetaMap {
    type V = Map<Seq<char>, Seq<char>>;

    closed spec fn view(&self) -> Map<Seq<char>, Seq<char>> {
        meta_of(self.entries@)
    }
}

proof fn lemma_meta_skip(entries: Seq<(String, String)>, key: Seq<char>, n: int)
    requires
        0 <= n <= entries.len(),
        forall|i: int| n <= i < entries.len() ==> meta_key(#[trigger] entries[i]) != key,
    ensures
        meta_of(entries).contains_key(key) == meta_of(entries.take(n)).contains_key(key),
        meta_of(entries).contains_key(key) ==> meta_of(entries)[key] == meta_of(
            entries.take(n),
        )[key],
    decreases entries.len() - n,
{
    if n < entries.len() {
        let m = entries.len() - 1;
        assert(meta_key(entries[m]) != key);
        let short = entries.drop_last();
        assert forall|i: int| n <= i < short.len() implies meta_key(#[trigger] short[i]) != key by {
            assert(short[i] == entries[i]);
        }
        lemma_meta_skip(short, key, n);
        assert(short.take(n) =~= entries.take(n));
    } else {
        assert(entries.take(n) =~= entries);
    }
}

proof fn lemma_meta_key(entries: Seq<(String, String)>, i: int)
    requires
        0 <= i < entries.len(),
    ensures
        meta_of(entries).contains_key(meta_key(entries[i])),
    decreases entries.len(),
{
    if i < entries.len() - 1 {
        lemma_meta_key(entries.drop_last(), i);
        assert(entries.drop_last()[i] == entries[i]);
    }
}

proof fn lemma_meta_from(entries: Seq<(String, String)>, key: Seq<char>)
    ensures
        meta_of(entries).contains_key(key) ==> exists|i: int|
            0 <= i < entries.len() && meta_key(#[trigger] entries[i]) == key,
    decreases entries.len(),
{
    if entries.len() > 0 && meta_of(entries).contains_key(key) {
        let last = entries.len() - 1;
        if meta_key(entries[last]) != key {
            let short = entries.drop_last();
            lemma_meta_from(short, key);
            let i = choose|i: int| 0 <= i < short.len() && meta_key(#[trigger] short[i]) == key;
            assert(meta_key(entries[i]) == key);
        }
    }
}

impl MetaMap {
    /// An empty map.
    pub fn new() -> (r: Self)
        ensures
            r@ == Map::<Seq<char>, Seq<char>>::empty(),
    {
        MetaMap { entries: Vec::new() }
    }

    /// Set the text at `key`.
    pub fn insert(&mut self, key: String, value: String)
        ensures
            final(self)@ == old(self)@.insert(key@, value@),
    {
        let ghost before = self.entries@;
        self.entries.push((key, value));
        assert(self.entries@.drop_last() =~= before);
    }

    /// Look up the text at `key`.
    pub fn get(&self, key: &str) -> (r: Option<&String>)
        ensures
            match r {
                Some(v) => self@.contains_key(key@) && self@[key@] == v@,
                None => !self@.contains_key(key@),
            },
    {
        let mut n: usize = self.entries.len();
        while n > 0
            invariant
                n <= self.entries@.len(),
                forall|i: int|
                    n <= i < self.entries@.len() ==> meta_key(#[trigger] self.entries@[i]) != key@,
            decreases n,
        {
            if same_text(self.entries[n - 1].0.as_str(), key) {
                proof {
                    lemma_meta_skip(self.entries@, key@, n as int);
                    let short = self.entries@.take(n as int);
                    assert(short.last() == self.entries@[n - 1]);
                }
                return Some(&self.entries[n - 1].1);
            }
            n = n - 1;
        }
        proof {
            lemma_meta_skip(self.entries@, key@, 0);
            assert(self.entries@.take(0) =~= Seq::<(String, String)>::empty());
        }
        None
    }
}

/// JSON texts by namespace and key.
pub struct StructuredMap {
    entries: Vec<((String, String), Vec<u8>)>,
}

/// The map that a list of entries writes: a later entry replaces an earlier one.
spec fn structured_of(entries: Seq<((String, String), Vec<u8>)>) -> Map<(Seq<char>, Seq<char>), Seq<u8>>
    decreases entries.len(),
{
    if entries.len() == 0 {
        Map::empty()
    } else {
        structured_of(entries.drop_last()).insert(structured_key(entries.last()), entries.last().1@)
    }
}

spec fn structured_key(entry: ((String, String), Vec<u8>)) -> (Seq<char>, Seq<char>) {
    (entry.0.0@, entry.0.1@)
}

impl View for StructuredMap {
    type V = Map<(Seq<char>, Seq<char>), Seq<u8>>;

    closed spec fn view(&self) -> Map<(Seq<char>, Seq<char>), Seq<u8>> {
        structured_of(self.entries@)
    }
}

proof fn lemma_structured_skip(entries: Seq<((String, String), Vec<u8>)>, key: (Seq<char>, Seq<char>), n: int)
    requires
        0 <= n <= entries.len(),
        forall|i: int| n <= i < entries.len() ==> structured_key(#[trigger] entries[i]) != key,
    ensures
        structured_of(entries).contains_key(key) == structured_of(entries.take(n)).contains_key(key),
        structured_of(entries).contains_key(key) ==> structured_of(entries)[key] == structured_of(
            entries.take(n),
        )[key],
    decreases entries.len() - n,
{
    if n < entries.len() {
        let m = entries.len() - 1;
        assert(structured_key(entries[m]) != key);
        let short = entries.drop_last();
        assert forall|i: int| n <= i < short.len() implies structured_key(#[trigger] short[i]) != key by {
            assert(short[i] == entries[i]);
        }
        lemma_structured_skip(short, key, n);
        assert(short.take(n) =~= entries.take(n));
    } else {
        assert(entries.take(n) =~= entries);
    }
}

proof fn lemma_structured_key(entries: Seq<((String, String), Vec<u8>)>, i: int)
    requires
        0 <= i < entries.len(),
    ensures
        structured_of(entries).contains_key(structured_key(entries[i])),
    decreases entries.len(),
{
    if i < entries.len() - 1 {
        lemma_structured_key(entries.drop_last(), i);
        assert(entries.drop_last()[i] == entries[i]);
    }
}

proof fn lemma_structured_from(entries: Seq<((String, String), Vec<u8>)>, key: (Seq<char>, Seq<char>))
    ensures
        structured_of(entries).contains_key(key) ==> exists|i: int|
            0 <= i < entries.len() && structured_key(#[trigger] entries[i]) == key,
    decreases entries.len(),
{
    if entries.len() > 0 && structured_of(entries).contains_key(key) {
        let last = entries.len() - 1;
        if structured_key(entries[last]) != key {
            let short = entries.drop_last();
            lemma_structured_from(short, key);
            let i = choose|i: int| 0 <= i < short.len() && structured_key(#[trigger] short[i]) == key;
            assert(structured_key(entries[i]) == key);
        }
    }
}

impl StructuredMap {
    /// An empty map.
    pub fn new() -> (r: Self)
        ensures
            r@ == Map::<(Seq<char>, Seq<char>), Seq<u8>>::empty(),
    {
        StructuredMap { entries: Vec::new() }
    }

    /// Set the JSON text at `namespace` and `key`.
    pub fn insert(&mut self, namespace: String, key: String, json: Vec<u8>)
        ensures
            final(self)@ == old(self)@.insert((namespace@, key@), json@),
    {
        let ghost before = self.entries@;
        self.entries.push(((namespace, key), json));
        assert(self.entries@.drop_last() =~= before);
    }

    /// Look up the JSON text at `namespace` and `key`.
    pub fn get(&self, namespace: &str, key: &str) -> (r: Option<&Vec<u8>>)
        ensures
            match r {
                Some(v) => self@.contains_key((namespace@, key@)) && self@[(namespace@, key@)] == v@,
                None => !self@.contains_key((namespace@, key@)),
            },
    {
        let mut n: usize = self.entries.len();
        while n > 0
            invariant
                n <= self.entries@.len(),
                forall|i: int|
                    n <= i < self.entries@.len() ==> structured_key(#[trigger] self.entries@[i]) != (namespace@, key@),
            decreases n,
        {
            if same_text(self.entries[n - 1].0.0.as_str(), namespace) && same_text(
                self.entries[n - 1].0.1.as_str(),
                key,
            ) {
                proof {
                    lemma_structured_skip(self.entries@, (namespace@, key@), n as int);
                    let short = self.entries@.take(n as int);
                    assert(short.last() == self.entries@[n - 1]);
                }
                return Some(&self.entries[n - 1].1);
            }
            n = n - 1;
        }
        proof {
            lemma_structured_skip(self.entries@, (namespace@, key@), 0);
            assert(self.entries@.take(0) =~= Seq::<((String, String), Vec<u8>)>::empty());
        }
        None
    }
}

/// Metadata of one request.
pub struct FilterContext {
    /// Short texts.
    pub metadata: MetaMap,
    /// JSON values as compact text.
    pub structured: StructuredMap,
}

/// Whether a context keeps the metadata value `v`.
pub open spec fn keeps(v: Seq<char>) -> bool {
    vstd::utf8::encode_utf8(v).len() <= MAX_METADATA_VALUE_BYTES
}

/// `base` with the entries of `extra` that a context keeps.
pub open spec fn overlaid(
    base: Map<Seq<char>, Seq<char>>,
    extra: Map<Seq<char>, Seq<char>>,
) -> Map<Seq<char>, Seq<char>> {
    Map::new(
        |k: Seq<char>| base.contains_key(k) || (extra.contains_key(k) && keeps(extra[k])),
        |k: Seq<char>|
            if extra.contains_key(k) && keeps(extra[k]) {
                extra[k]
            } else {
                base[k]
            },
    )
}

/// Whether structured metadata is JSON throughout.
pub open spec fn holds_json(m: Map<(Seq<char>, Seq<char>), Seq<u8>>) -> bool {
    forall|k: (Seq<char>, Seq<char>)| #[trigger] m.contains_key(k) ==> is_value(m[k])
}

/// `base` with the values of `extra` that are JSON, in compact form.
pub open spec fn overlaid_json(
    base: Map<(Seq<char>, Seq<char>), Seq<u8>>,
    extra: Map<(Seq<char>, Seq<char>), Seq<u8>>,
) -> Map<(Seq<char>, Seq<char>), Seq<u8>> {
    Map::new(
        |k: (Seq<char>, Seq<char>)|
            base.contains_key(k) || (extra.contains_key(k) && json_compact(extra[k]) is Some),
        |k: (Seq<char>, Seq<char>)|
            if extra.contains_key(k) && json_compact(extra[k]) is Some {
                json_compact(extra[k])->0
            } else {
                base[k]
            },
    )
}

impl FilterContext {
    /// A context without metadata.
    pub fn new() -> (r: Self)
        ensures
            r.metadata@ == Map::<Seq<char>, Seq<char>>::empty(),
            r.structured@ == Map::<(Seq<char>, Seq<char>), Seq<u8>>::empty(),
    {
        FilterContext { metadata: MetaMap::new(), structured: StructuredMap::new() }
    }

    /// The metadata text at `key`.
    pub fn get_metadata(&self, key: &str) -> (r: Option<&String>)
        ensures
            match r {
                Some(v) => self.metadata@.contains_key(key@) && self.metadata@[key@] == v@,
                None => !self.metadata@.contains_key(key@),
            },
    {
        self.metadata.get(key)
    }

    /// Set metadata; a value that is too long is dropped.
    pub fn set_metadata(&mut self, key: String, value: String)
        ensures
            final(self).metadata@ == (if keeps(value@) {
                old(self).metadata@.insert(key@, value@)
            } else {
                old(self).metadata@
            }),
            final(self).structured@ == old(self).structured@,
    {
        if value.as_str().as_bytes().len() <= MAX_METADATA_VALUE_BYTES {
            self.metadata.insert(key, value);
        }
    }

    /// The JSON text at `namespace` and `key`.
    pub fn get_structured_metadata(&self, namespace: &str, key: &str) -> (r: Option<&Vec<u8>>)
        ensures
            match r {
                Some(v) => self.structured@.contains_key((namespace@, key@)) && self.structured@[(
                    namespace@,
                    key@,
                )] == v@,
                None => !self.structured@.contains_key((namespace@, key@)),
            },
    {
        self.structured.get(namespace, key)
    }

    /// Set the compact JSON text at `namespace` and `key`.
    pub fn set_structured_metadata(&mut self, namespace: String, key: String, json: Vec<u8>)
        ensures
            final(self).structured@ == old(self).structured@.insert((namespace@, key@), json@),
            final(self).metadata@ == old(self).metadata@,
    {
        self.structured.insert(namespace, key, json);
    }

    /// Take over the texts of `extra`, as by setting each of them.
    pub fn absorb_metadata(&mut self, extra: &MetaMap)
        ensures
            final(self).metadata@ == overlaid(old(self).metadata@, extra@),
            final(self).structured@ == old(self).structured@,
    {
        let mut i: usize = 0;
        while i < extra.entries.len()
            invariant
                i <= extra.entries@.len(),
                self.structured@ == old(self).structured@,
                forall|k: Seq<char>| #[trigger] self.metadata@.contains_key(k) == (
                old(self).metadata@.contains_key(k) || (seen(extra.entries@, k, i as int) && keeps(
                    extra@[k],
                ))),
                forall|k: Seq<char>| #[trigger] self.metadata@.contains_key(k) ==> self.metadata@[k] == (
                if seen(extra.entries@, k, i as int) && keeps(extra@[k]) {
                    extra@[k]
                } else {
                    old(self).metadata@[k]
                }),
            decreases extra.entries@.len() - i,
        {
            let ghost before = self.metadata@;
            let key: &String = &extra.entries[i].0;
            proof {
                lemma_meta_key(extra.entries@, i as int);
            }
            match extra.get(key.as_str()) {
                Some(value) => {
                    self.set_metadata(key.clone(), value.clone());
                },
                None => {},
            }
            proof {
                assert forall|k: Seq<char>| seen(extra.entries@, k, i + 1) == (seen(
                    extra.entries@,
                    k,
                    i as int,
                ) || k == key@) by {
                    lemma_seen(extra.entries@, k, i as int);
                }
            }
            i = i + 1;
        }
        proof {
            assert forall|k: Seq<char>| seen(extra.entries@, k, i as int) == extra@.contains_key(k) by {
                lemma_meta_from(extra.entries@, k);
                if seen(extra.entries@, k, i as int) {
                    let j = choose|j: int| 0 <= j < i && meta_key(#[trigger] extra.entries@[j]) == k;
                    lemma_meta_key(extra.entries@, j);
                }
            }
            assert(self.metadata@ =~= overlaid(old(self).metadata@, extra@));
        }
    }

    /// Take over the JSON values of `extra`, as by setting each of them.
    pub fn absorb_structured(&mut self, extra: &StructuredMap)
        ensures
            final(self).structured@ == overlaid_json(old(self).structured@, extra@),
            final(self).metadata@ == old(self).metadata@,
            holds_json(old(self).structured@) ==> holds_json(final(self).structured@),
    {
        let mut i: usize = 0;
        while i < extra.entries.len()
            invariant
                i <= extra.entries@.len(),
                self.metadata@ == old(self).metadata@,
                forall|k: (Seq<char>, Seq<char>)| #[trigger] self.structured@.contains_key(k) == (
                old(self).structured@.contains_key(k) || (seen_json(extra.entries@, k, i as int) && json_compact(
                    extra@[k],
                ) is Some)),
                forall|k: (Seq<char>, Seq<char>)| #[trigger] self.structured@.contains_key(k) ==> self.structured@[k] == (
                if seen_json(extra.entries@, k, i as int) && json_compact(extra@[k]) is Some {
                    json_compact(extra@[k])->0
                } else {
                    old(self).structured@[k]
                }),
                holds_json(old(self).structured@) ==> holds_json(self.structured@),
            decreases extra.entries@.len() - i,
        {
            let ghost before = self.structured@;
            let key: &(String, String) = &extra.entries[i].0;
            proof {
                lemma_structured_key(extra.entries@, i as int);
            }
            match extra.get(key.0.as_str(), key.1.as_str()) {
                Some(json) => {
                    if let Some(compact) = compact_json(json) {
                        self.set_structured_metadata(key.0.clone(), key.1.clone(), compact);
                    }
                },
                None => {},
            }
            proof {
                assert forall|k: (Seq<char>, Seq<char>)| seen_json(extra.entries@, k, i + 1) == (seen_json(
                    extra.entries@,
                    k,
                    i as int,
                ) || k == (key.0@, key.1@)) by {
                    lemma_seen_json(extra.entries@, k, i as int);
                }
            }
            i = i + 1;
        }
        proof {
            assert forall|k: (Seq<char>, Seq<char>)| seen_json(extra.entries@, k, i as int) == extra@.contains_key(k) by {
                lemma_structured_from(extra.entries@, k);
                if seen_json(extra.entries@, k, i as int) {
                    let j = choose|j: int| 0 <= j < i && structured_key(#[trigger] extra.entries@[j]) == k;
                    lemma_structured_key(extra.entries@, j);
                }
            }
            assert(self.structured@ =~= overlaid_json(old(self).structured@, extra@));
        }
    }
}

/// Whether one of the first `n` entries has the key `k`.
spec fn seen(entries: Seq<(String, String)>, k: Seq<char>, n: int) -> bool {
    exists|j: int| 0 <= j < n && meta_key(#[trigger] entries[j]) == k
}

proof fn lemma_seen(entries: Seq<(String, String)>, k: Seq<char>, n: int)
    requires
        0 <= n < entries.len(),
    ensures
        seen(entries, k, n + 1) == (seen(entries, k, n) || k == meta_key(entries[n])),
{
    if seen(entries, k, n) {
        let j = choose|j: int| 0 <= j < n && meta_key(#[trigger] entries[j]) == k;
        assert(0 <= j < n + 1);
    }
    if k == meta_key(entries[n]) {
        assert(seen(entries, k, n + 1));
    }
}

/// Whether one of the first `n` entries has the key `k`.
spec fn seen_json(entries: Seq<((String, String), Vec<u8>)>, k: (Seq<char>, Seq<char>), n: int) -> bool {
    exists|j: int| 0 <= j < n && structured_key(#[trigger] entries[j]) == k
}

proof fn lemma_seen_json(entries: Seq<((String, String), Vec<u8>)>, k: (Seq<char>, Seq<char>), n: int)
    requires
        0 <= n < entries.len(),
    ensures
        seen_json(entries, k, n + 1) == (seen_json(entries, k, n) || k == structured_key(entries[n])),
{
    if seen_json(entries, k, n) {
        let j = choose|j: int| 0 <= j < n && structured_key(#[trigger] entries[j]) == k;
        assert(0 <= j < n + 1);
    }
    if k == structured_key(entries[n]) {
        assert(seen_json(entries, k, n + 1));
    }
}

} // verus!

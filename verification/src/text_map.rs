//! Texts by key, in the order in which the keys were first set.

use vstd::prelude::*;

use crate::text::same_text;

verus! {

/// Texts by key. No key occurs twice.
#[derive(Debug)]
pub struct TextMap {
    entries: Vec<(String, String)>,
}

/// The entries as mathematical data.
pub open spec fn pair_views(entries: Seq<(String, String)>) -> Seq<(Seq<char>, Seq<char>)> {
    entries.map_values(|e: (String, String)| (e.0@, e.1@))
}

/// No two entries have the same key.
pub open spec fn distinct_keys(entries: Seq<(Seq<char>, Seq<char>)>) -> bool {
    forall|i: int, j: int|
        0 <= i < j < entries.len() ==> (#[trigger] entries[i]).0 != (#[trigger] entries[j]).0
}

/// The map that entries with distinct keys write.
pub open spec fn map_of(entries: Seq<(Seq<char>, Seq<char>)>) -> Map<Seq<char>, Seq<char>>
    decreases entries.len(),
{
    if entries.len() == 0 {
        Map::empty()
    } else {
        map_of(entries.drop_last()).insert(entries.last().0, entries.last().1)
    }
}

pub proof fn lemma_map_of(entries: Seq<(Seq<char>, Seq<char>)>)
    requires
        distinct_keys(entries),
    ensures
        forall|i: int|
            0 <= i < entries.len() ==> map_of(entries).contains_key((#[trigger] entries[i]).0)
                && map_of(entries)[entries[i].0] == entries[i].1,
        forall|k: Seq<char>| #[trigger]
            map_of(entries).contains_key(k) ==> exists|i: int|
                0 <= i < entries.len() && (#[trigger] entries[i]).0 == k,
        map_of(entries).dom().finite(),
        map_of(entries).dom().len() == entries.len(),
    decreases entries.len(),
{
    if entries.len() > 0 {
        let short = entries.drop_last();
        assert forall|i: int, j: int| 0 <= i < j < short.len() implies (#[trigger] short[i]).0 != (
        #[trigger] short[j]).0 by {
            assert(short[i] == entries[i] && short[j] == entries[j]);
        }
        lemma_map_of(short);
        let last = entries.last();
        let m = map_of(short);
        if m.contains_key(last.0) {
            let i = choose|i: int| 0 <= i < short.len() && (#[trigger] short[i]).0 == last.0;
            assert(entries[i].0 != entries[entries.len() - 1].0);
        }
        assert forall|i: int| 0 <= i < entries.len() implies map_of(entries).contains_key(
            (#[trigger] entries[i]).0,
        ) && map_of(entries)[entries[i].0] == entries[i].1 by {
            if i < short.len() {
                assert(entries[i] == short[i]);
            }
        }
        assert forall|k: Seq<char>| #[trigger] map_of(entries).contains_key(k) implies exists|i: int|
            0 <= i < entries.len() && (#[trigger] entries[i]).0 == k by {
            if k == last.0 {
                assert(entries[entries.len() - 1].0 == k);
            } else {
                assert(m.contains_key(k));
                let i = choose|i: int| 0 <= i < short.len() && (#[trigger] short[i]).0 == k;
                assert(entries[i].0 == k);
            }
        }
        assert(map_of(entries).dom() =~= m.dom().insert(last.0));
    }
}

impl View for TextMap {
    type V = Map<Seq<char>, Seq<char>>;

    closed spec fn view(&self) -> Map<Seq<char>, Seq<char>> {
        map_of(pair_views(self.entries@))
    }
}

impl TextMap {
    #[verifier::type_invariant]
    spec fn wf(self) -> bool {
        distinct_keys(pair_views(self.entries@))
    }

    /// The entries in order.
    pub closed spec fn listed(self) -> Seq<(Seq<char>, Seq<char>)> {
        pair_views(self.entries@)
    }

    /// An empty map.
    pub fn new() -> (r: Self)
        ensures
            r@ == Map::<Seq<char>, Seq<char>>::empty(),
            r.listed() == Seq::<(Seq<char>, Seq<char>)>::empty(),
    {
        let entries: Vec<(String, String)> = Vec::new();
        assert(pair_views(entries@) =~= Seq::<(Seq<char>, Seq<char>)>::empty());
        TextMap { entries }
    }

    fn position(&self, key: &str) -> (r: Option<usize>)
        ensures
            match r {
                Some(i) => i < self.entries@.len() && self.entries@[i as int].0@ == key@,
                None => forall|i: int|
                    0 <= i < self.entries@.len() ==> (#[trigger] self.entries@[i]).0@ != key@,
            },
    {
        let mut i: usize = 0;
        while i < self.entries.len()
            invariant
                i <= self.entries@.len(),
                forall|k: int| 0 <= k < i ==> (#[trigger] self.entries@[k]).0@ != key@,
            decreases self.entries@.len() - i,
        {
            if same_text(self.entries[i].0.as_str(), key) {
                return Some(i);
            }
            i = i + 1;
        }
        None
    }

    /// Set the text at `key`.
    pub fn insert(&mut self, key: String, value: String)
        ensures
            final(self)@ == old(self)@.insert(key@, value@),
    {
        proof {
            use_type_invariant(&*self);
        }
        let found = self.position(key.as_str());
        let mut entries: Vec<(String, String)> = Vec::new();
        let ghost before = pair_views(self.entries@);
        let ghost pair = (key@, value@);
        assert(pair_views(entries@) =~= Seq::<(Seq<char>, Seq<char>)>::empty());
        std::mem::swap(&mut entries, &mut self.entries);
        let ghost names = entries@;
        match found {
            Some(i) => {
                assert(before[i as int].0 == key@);
                entries.set(i, (key, value));
                proof {
                    let after = pair_views(entries@);
                    assert(after =~= before.update(i as int, pair));
                    lemma_map_of(before);
                    assert forall|a: int, b: int| 0 <= a < b < after.len() implies (
                    #[trigger] after[a]).0 != (#[trigger] after[b]).0 by {
                        assert(before[a].0 != before[b].0);
                    }
                    lemma_map_of(after);
                    assert(map_of(after) =~= map_of(before).insert(key@, value@)) by {
                        assert forall|k: Seq<char>| #[trigger] map_of(after).contains_key(k)
                            <==> map_of(before).insert(key@, value@).contains_key(k) by {
                            if map_of(after).contains_key(k) {
                                let j = choose|j: int| 0 <= j < after.len() && (#[trigger] after[j]).0 == k;
                                assert(before[j].0 == k);
                            }
                            if map_of(before).contains_key(k) {
                                let j = choose|j: int| 0 <= j < before.len() && (#[trigger] before[j]).0 == k;
                                assert(after[j].0 == k);
                            }
                            assert(after[i as int].0 == key@);
                        }
                        assert forall|k: Seq<char>| #[trigger] map_of(after).contains_key(k) implies map_of(
                            after,
                        )[k] == map_of(before).insert(key@, value@)[k] by {
                            let j = choose|j: int| 0 <= j < after.len() && (#[trigger] after[j]).0 == k;
                            assert(map_of(after)[k] == after[j].1);
                            assert(before[j].0 == k);
                            assert(map_of(before)[k] == before[j].1);
                            if j != i {
                                assert(before[i as int].0 != before[j].0);
                            }
                        }
                    }
                }
            },
            None => {
                entries.push((key, value));
                proof {
                    let after = pair_views(entries@);
                    assert(after =~= before.push(pair));
                    assert(after.drop_last() =~= before);
                    assert forall|a: int, b: int| 0 <= a < b < after.len() implies (
                    #[trigger] after[a]).0 != (#[trigger] after[b]).0 by {
                        if b < before.len() {
                            assert(before[a].0 != before[b].0);
                        } else {
                            assert(names[a].0@ != key@);
                        }
                    }
                }
            },
        }
        self.entries = entries;
    }

    /// The text at `key`.
    pub fn get(&self, key: &str) -> (r: Option<&String>)
        ensures
            match r {
                Some(v) => self@.contains_key(key@) && self@[key@] == v@,
                None => !self@.contains_key(key@),
            },
    {
        proof {
            use_type_invariant(self);
            lemma_map_of(pair_views(self.entries@));
        }
        match self.position(key) {
            Some(i) => {
                assert(pair_views(self.entries@)[i as int].0 == key@);
                Some(&self.entries[i].1)
            },
            None => {
                proof {
                    if self@.contains_key(key@) {
                        let all = pair_views(self.entries@);
                        let i = choose|i: int| 0 <= i < all.len() && (#[trigger] all[i]).0 == key@;
                        assert(self.entries@[i].0@ == key@);
                    }
                }
                None
            },
        }
    }

    /// The number of keys. Each key is that of one entry.
    pub fn len(&self) -> (r: usize)
        ensures
            r == self@.dom().len(),
            r == self.listed().len(),
            self@.dom().finite(),
            distinct_keys(self.listed()),
            forall|i: int|
                0 <= i < self.listed().len() ==> self@.contains_key((#[trigger] self.listed()[i]).0)
                    && self@[self.listed()[i].0] == self.listed()[i].1,
            forall|k: Seq<char>| #[trigger]
                self@.contains_key(k) ==> exists|i: int|
                    0 <= i < self.listed().len() && (#[trigger] self.listed()[i]).0 == k,
    {
        proof {
            use_type_invariant(self);
            lemma_map_of(self.listed());
            assert(self@ == map_of(self.listed()));
        }
        self.entries.len()
    }

    /// A copy of this map.
    pub fn copy(&self) -> (r: Self)
        ensures
            r@ == self@,
    {
        proof {
            use_type_invariant(self);
        }
        let mut entries: Vec<(String, String)> = Vec::new();
        let mut i: usize = 0;
        while i < self.entries.len()
            invariant
                i <= self.entries@.len(),
                entries@ == self.entries@.take(i as int),
            decreases self.entries@.len() - i,
        {
            entries.push((self.entries[i].0.clone(), self.entries[i].1.clone()));
            i = i + 1;
        }
        assert(entries@ =~= self.entries@);
        TextMap { entries }
    }

    /// The key and the text of the entry at `i`, in the order of
    /// [`TextMap::listed`].
    pub fn entry(&self, i: usize) -> (r: (&str, &str))
        requires
            i < self.listed().len(),
        ensures
            (r.0@, r.1@) == self.listed()[i as int],
    {
        (self.entries[i].0.as_str(), self.entries[i].1.as_str())
    }
}

} // verus!

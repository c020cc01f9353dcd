//! Query strings: pieces between `&`, each a key and a value.

use vstd::prelude::*;

use crate::text::{before_char, split, split_at_char, split_once, split_text};
use crate::text_map::TextMap;

verus! {

/// A piece of a query as a key and a value. A piece without `=` has the empty
/// value.
pub open spec fn query_pair(piece: Seq<char>) -> (Seq<char>, Seq<char>) {
    match split_once(piece, '=') {
        Some(pair) => pair,
        None => (piece, Seq::empty()),
    }
}

/// A piece of a query as a key and a value.
pub fn split_pair(piece: &str) -> (r: (String, String))
    ensures
        (r.0@, r.1@) == query_pair(piece@),
{
    match split_at_char(piece, '=') {
        Some(pair) => pair,
        None => {
            let empty = String::new();
            assert(empty@ =~= Seq::<char>::empty());
            (piece.to_owned(), empty)
        },
    }
}

/// The values by key of the first `n` pieces. Empty pieces do not count, and
/// the last value of a key stays.
pub open spec fn pairs_of(pieces: Seq<Seq<char>>, n: int) -> Map<Seq<char>, Seq<char>>
    decreases n,
{
    if n <= 0 {
        Map::empty()
    } else if pieces[n - 1].len() == 0 {
        pairs_of(pieces, n - 1)
    } else {
        pairs_of(pieces, n - 1).insert(
            query_pair(pieces[n - 1]).0,
            query_pair(pieces[n - 1]).1,
        )
    }
}

/// The values of a query by key.
pub open spec fn query_map(query: Seq<char>) -> Map<Seq<char>, Seq<char>> {
    pairs_of(split(query, '&'), split(query, '&').len() as int)
}

/// The values of a query by key.
pub fn parse_query_pairs(query: &str) -> (r: TextMap)
    ensures
        r@ == query_map(query@),
{
    let pieces = split_text(query, '&');
    let ghost all = split(query@, '&');
    let mut map = TextMap::new();
    let mut i: usize = 0;
    while i < pieces.len()
        invariant
            i <= pieces@.len(),
            all == split(query@, '&'),
            pieces@.map_values(|t: String| t@) == all,
            map@ == pairs_of(all, i as int),
        decreases pieces@.len() - i,
    {
        assert(all[i as int] == pieces@[i as int]@);
        if !pieces[i].as_str().is_empty() {
            let (key, value) = split_pair(pieces[i].as_str());
            map.insert(key, value);
        }
        i = i + 1;
    }
    map
}

/// The key of a piece: what stands before its first `=`.
pub fn piece_key(piece: &str) -> (r: String)
    ensures
        r@ == query_pair(piece@).0,
{
    let r = before_char(piece, '=');
    r
}

} // verus!

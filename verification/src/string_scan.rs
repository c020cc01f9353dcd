//! Search for the bytes that end or interrupt a run of plain JSON string bytes.

use vstd::prelude::*;

verus! {

/// A byte that cannot stand for itself inside a JSON string: the closing quote,
/// the escape character, or a raw control byte.
pub open spec fn is_special(b: u8) -> bool {
    b == 0x22 || b == 0x5C || b < 0x20
}

/// The first special byte of `input` at or after `from`, with its position.
pub fn find_special(input: &[u8], from: usize) -> (r: Option<(usize, u8)>)
    ensures
        match r {
            Some((at, b)) => {
                &&& from <= at < input@.len()
                &&& b == input@[at as int]
                &&& is_special(b)
                &&& forall|k: int| from <= k < at ==> !is_special(#[trigger] input@[k])
            },
            None => forall|k: int| from <= k < input@.len() ==> !is_special(#[trigger] input@[k]),
        },
{
    let mut i: usize = from;
    while i < input.len()
        invariant
            from <= i,
            forall|k: int| from <= k < i && k < input@.len() ==> !is_special(#[trigger] input@[k]),
        decreases input@.len() - i,
    {
        let b: u8 = input[i];
        if b == 0x22 || b == 0x5C || b < 0x20 {
            return Some((i, b));
        }
        i = i + 1;
    }
    None
}

/// The position of the first special byte of `haystack`.
pub fn find(haystack: &[u8]) -> (r: Option<usize>)
    ensures
        match r {
            Some(at) => {
                &&& at < haystack@.len()
                &&& is_special(haystack@[at as int])
                &&& forall|k: int| 0 <= k < at ==> !is_special(#[trigger] haystack@[k])
            },
            None => forall|k: int| 0 <= k < haystack@.len() ==> !is_special(#[trigger] haystack@[k]),
        },
{
    match find_special(haystack, 0) {
        Some((at, _)) => Some(at),
        None => None,
    }
}

} // verus!

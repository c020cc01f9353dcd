//! Where the head of an HTTP message ends.

use vstd::prelude::*;

verus! {

/// Whether a blank line ends just before `end`.
pub open spec fn ends_head(buf: Seq<u8>, end: int) -> bool {
    &&& 4 <= end <= buf.len()
    &&& buf[end - 4] == 13
    &&& buf[end - 3] == 10
    &&& buf[end - 2] == 13
    &&& buf[end - 1] == 10
}

/// The first end of a head that is no earlier than `end`.
pub open spec fn head_end_from(buf: Seq<u8>, end: int) -> Option<int>
    decreases buf.len() + 1 - end,
{
    if end > buf.len() {
        None
    } else if ends_head(buf, end) {
        Some(end)
    } else {
        head_end_from(buf, end + 1)
    }
}

/// The place behind the first blank line.
pub open spec fn head_end(buf: Seq<u8>) -> Option<int> {
    head_end_from(buf, 4)
}

/// The number of bytes behind the head, or 0 where the head has no end yet.
pub open spec fn body_len(buf: Seq<u8>) -> int {
    match head_end(buf) {
        Some(end) => buf.len() - end,
        None => 0,
    }
}

/// The place found is the first that ends a head, and where none is found no
/// place ends one.
pub proof fn lemma_head_end(buf: Seq<u8>, from: int)
    ensures
        match head_end_from(buf, from) {
            Some(end) => from <= end && ends_head(buf, end) && forall|k: int|
                from <= k < end ==> !ends_head(buf, k),
            None => forall|k: int| from <= k ==> !ends_head(buf, k),
        },
    decreases buf.len() + 1 - from,
{
    if from <= buf.len() && !ends_head(buf, from) {
        lemma_head_end(buf, from + 1);
    }
}

proof fn lemma_same_head(buf: Seq<u8>, more: Seq<u8>, from: int)
    requires
        head_end_from(buf, from) is Some,
    ensures
        head_end_from(buf + more, from) == head_end_from(buf, from),
    decreases buf.len() + 1 - from,
{
    let all = buf + more;
    assert(ends_head(all, from) == ends_head(buf, from));
    if !ends_head(buf, from) {
        lemma_same_head(buf, more, from + 1);
    }
}

/// What arrives later does not move the end of a head that is complete.
pub proof fn law_head_stays(buf: Seq<u8>, more: Seq<u8>)
    requires
        head_end(buf) is Some,
    ensures
        head_end(buf + more) == head_end(buf),
        body_len(buf + more) == body_len(buf) + more.len(),
{
    lemma_same_head(buf, more, 4);
}

/// The place behind the first blank line.
pub fn find_header_end(buf: &[u8]) -> (r: Option<usize>)
    ensures
        match r {
            Some(end) => head_end(buf@) == Some(end as int) && ends_head(buf@, end as int),
            None => head_end(buf@) is None,
        },
{
    let n: usize = buf.len();
    if n < 4 {
        return None;
    }
    let mut i: usize = 0;
    while i <= n - 4
        invariant
            n == buf@.len(),
            4 <= n,
            i <= n - 3,
            head_end(buf@) == head_end_from(buf@, i + 4),
        decreases n - i,
    {
        if buf[i] == 13 && buf[i + 1] == 10 && buf[i + 2] == 13 && buf[i + 3] == 10 {
            return Some(i + 4);
        }
        i = i + 1;
    }
    None
}

} // verus!

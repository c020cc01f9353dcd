//! Recognition of IP address texts.

use vstd::prelude::*;

use crate::number::{canonical, decimal_value, parse_digits};
use crate::text::{split, split_text, text_of, to_chars};

verus! {

pub open spec fn is_hex(c: char) -> bool {
    '0' <= c <= '9' || 'a' <= c <= 'f' || 'A' <= c <= 'F'
}

/// A decimal number from 0 to 255 without leading zeros.
pub open spec fn is_octet(p: Seq<char>) -> bool {
    canonical(p) && decimal_value(p) <= 255
}

/// Four octets with dots between them.
pub open spec fn is_ipv4(s: Seq<char>) -> bool {
    let parts = split(s, '.');
    parts.len() == 4 && forall|i: int| 0 <= i < 4 ==> is_octet(#[trigger] parts[i])
}

/// One to four hexadecimal digits.
pub open spec fn is_group(p: Seq<char>) -> bool {
    1 <= p.len() <= 4 && forall|i: int| 0 <= i < p.len() ==> is_hex(#[trigger] p[i])
}

/// The number of 16-bit groups that `s` writes with colons between them; the
/// last piece may be an IPv4 address, which counts for two, where `tail` allows it.
pub open spec fn group_count(s: Seq<char>, tail: bool) -> Option<int> {
    if s.len() == 0 {
        Some(0)
    } else {
        let parts = split(s, ':');
        let last = parts.len() - 1;
        if !(forall|i: int| 0 <= i < last ==> is_group(#[trigger] parts[i])) {
            None
        } else if is_group(parts[last]) {
            Some(parts.len() as int)
        } else if tail && is_ipv4(parts[last]) {
            Some(parts.len() as int + 1)
        } else {
            None
        }
    }
}

/// Groups before and behind a `::` at `k` leave at least one group out.
pub open spec fn abbreviated_at(s: Seq<char>, k: int) -> bool {
    &&& 0 <= k
    &&& k + 2 <= s.len()
    &&& s[k] == ':'
    &&& s[k + 1] == ':'
    &&& group_count(s.take(k), false) matches Some(a)
    &&& group_count(s.skip(k + 2), true) matches Some(b)
    &&& a + b <= 7
}

/// Eight groups, or fewer with one `::` in place of those left out.
pub open spec fn is_ipv6(s: Seq<char>) -> bool {
    group_count(s, true) == Some(8int) || exists|k: int| abbreviated_at(s, k)
}

/// An IPv4 or IPv6 address.
pub open spec fn is_ip(s: Seq<char>) -> bool {
    is_ipv4(s) || is_ipv6(s)
}

fn octet(p: &str) -> (r: bool)
    ensures
        r == is_octet(p@),
{
    let chars = to_chars(p);
    if chars.len() == 0 || (chars[0] == '0' && chars.len() > 1) {
        return false;
    }
    assert(chars@.skip(0) =~= p@);
    parse_digits(chars.as_slice(), 0, 255).is_some()
}

fn group(p: &str) -> (r: bool)
    ensures
        r == is_group(p@),
{
    let chars = to_chars(p);
    if chars.len() == 0 || chars.len() > 4 {
        return false;
    }
    let mut i: usize = 0;
    while i < chars.len()
        invariant
            chars@ == p@,
            i <= chars@.len(),
            forall|k: int| 0 <= k < i ==> is_hex(#[trigger] p@[k]),
        decreases chars@.len() - i,
    {
        let c: char = chars[i];
        if !(('0' <= c && c <= '9') || ('a' <= c && c <= 'f') || ('A' <= c && c <= 'F')) {
            assert(!is_hex(p@[i as int]));
            return false;
        }
        i = i + 1;
    }
    true
}

/// Whether `s` is an IPv4 address.
pub fn ipv4(s: &str) -> (r: bool)
    ensures
        r == is_ipv4(s@),
{
    let parts = split_text(s, '.');
    let ghost all = split(s@, '.');
    if parts.len() != 4 {
        return false;
    }
    let mut i: usize = 0;
    while i < 4
        invariant
            parts@.len() == 4,
            all == split(s@, '.'),
            parts@.map_values(|t: String| t@) == all,
            i <= 4,
            forall|k: int| 0 <= k < i ==> is_octet(#[trigger] all[k]),
        decreases 4 - i,
    {
        assert(all[i as int] == parts@[i as int]@);
        if !octet(parts[i].as_str()) {
            return false;
        }
        i = i + 1;
    }
    true
}

/// The number of 16-bit groups that `s` writes.
fn count_groups(s: &str, tail: bool) -> (r: Option<u128>)
    ensures
        match r {
            Some(n) => group_count(s@, tail) == Some(n as int),
            None => group_count(s@, tail) is None,
        },
{
    if s.is_empty() {
        return Some(0);
    }
    let parts = split_text(s, ':');
    let ghost all = split(s@, ':');
    let n: usize = parts.len();
    let mut i: usize = 0;
    while i < n - 1
        invariant
            n == parts@.len(),
            n >= 1,
            s@.len() > 0,
            all == split(s@, ':'),
            parts@.map_values(|t: String| t@) == all,
            i <= n - 1,
            forall|k: int| 0 <= k < i ==> is_group(#[trigger] all[k]),
        decreases n - i,
    {
        assert(all[i as int] == parts@[i as int]@);
        if !group(parts[i].as_str()) {
            return None;
        }
        i = i + 1;
    }
    assert(all[n - 1] == parts@[n - 1]@);
    if group(parts[n - 1].as_str()) {
        Some(n as u128)
    } else if tail && ipv4(parts[n - 1].as_str()) {
        Some(n as u128 + 1)
    } else {
        None
    }
}

/// Whether `s` is an IPv6 address.
pub fn ipv6(s: &str) -> (r: bool)
    ensures
        r == is_ipv6(s@),
{
    if let Some(n) = count_groups(s, true) {
        if n == 8 {
            return true;
        }
    }
    let chars = to_chars(s);
    let n: usize = chars.len();
    let mut k: usize = 0;
    while k < n
        invariant
            n == chars@.len(),
            chars@ == s@,
            k <= n,
            group_count(s@, true) != Some(8int),
            forall|j: int| 0 <= j < k ==> !abbreviated_at(s@, j),
        decreases n - k,
    {
        if k + 1 < n && chars[k] == ':' && chars[k + 1] == ':' {
            let head = text_of(chars.as_slice(), 0, k);
            let rest = text_of(chars.as_slice(), k + 2, n);
            assert(rest@ =~= s@.skip(k + 2));
            assert(head@ =~= s@.take(k as int));
            if let (Some(a), Some(b)) = (
                count_groups(head.as_str(), false),
                count_groups(rest.as_str(), true),
            ) {
                if a <= 7 && b <= 7 - a {
                    assert(abbreviated_at(s@, k as int));
                    return true;
                }
            }
        }
        k = k + 1;
    }
    false
}

/// Whether `s` is an IP address.
pub fn ip_address(s: &str) -> (r: bool)
    ensures
        r == is_ip(s@),
{
    ipv4(s) || ipv6(s)
}

} // verus!

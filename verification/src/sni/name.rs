//! Which texts are acceptable as configured TLS server names.

use vstd::prelude::*;

use crate::ip::{ip_address, is_ip};
use crate::text::{has_char, split, split_text, strip_prefix, stripped, to_chars};

verus! {

/// Longest DNS label.
pub const MAX_LABEL_LEN: usize = 63;

/// Why a text is not acceptable as a server name.
#[derive(Clone, Copy, Debug, PartialEq, Eq, Structural)]
pub enum SniNameError {
    /// The name is empty.
    Empty,
    /// The name is `*` alone.
    BareWildcard,
    /// A `*` stands elsewhere than as the whole first label.
    InvalidWildcard,
    /// The name is an IP address.
    IpAddress,
    /// A label is empty.
    EmptyLabel,
    /// A label is longer than 63 characters.
    LabelTooLong,
    /// A label holds something else than letters, digits and hyphens.
    InvalidCharacters,
    /// A label starts or ends with a hyphen.
    Hyphen,
    /// A wildcard covers too little of the name.
    WildcardTooShallow,
}

impl SniNameError {
    pub open spec fn text(self) -> Seq<char> {
        match self {
            SniNameError::Empty => "must not be empty"@,
            SniNameError::BareWildcard => "bare wildcard '*' is not allowed"@,
            SniNameError::InvalidWildcard => "invalid wildcard pattern; use '*.domain'"@,
            SniNameError::IpAddress => "must not be an IP address"@,
            SniNameError::EmptyLabel => "contains an empty label"@,
            SniNameError::LabelTooLong => "label exceeds 63 characters"@,
            SniNameError::InvalidCharacters => "label contains invalid characters"@,
            SniNameError::Hyphen => "label must not start or end with a hyphen"@,
            SniNameError::WildcardTooShallow => "wildcard must have at least 3 labels"@,
        }
    }

    /// The reason in words.
    pub fn message(&self) -> (r: &'static str)
        ensures
            r@ == self.text(),
    {
        match self {
            SniNameError::Empty => "must not be empty",
            SniNameError::BareWildcard => "bare wildcard '*' is not allowed",
            SniNameError::InvalidWildcard => "invalid wildcard pattern; use '*.domain'",
            SniNameError::IpAddress => "must not be an IP address",
            SniNameError::EmptyLabel => "contains an empty label",
            SniNameError::LabelTooLong => "label exceeds 63 characters",
            SniNameError::InvalidCharacters => "label contains invalid characters",
            SniNameError::Hyphen => "label must not start or end with a hyphen",
            SniNameError::WildcardTooShallow => "wildcard must have at least 3 labels",
        }
    }
}

pub open spec fn is_label_char(c: char) -> bool {
    'a' <= c <= 'z' || 'A' <= c <= 'Z' || '0' <= c <= '9' || c == '-'
}

/// What is wrong with a label.
pub open spec fn label_error(label: Seq<char>) -> Option<SniNameError> {
    if label.len() == 0 {
        Some(SniNameError::EmptyLabel)
    } else if label.len() > MAX_LABEL_LEN {
        Some(SniNameError::LabelTooLong)
    } else if exists|i: int| 0 <= i < label.len() && !is_label_char(#[trigger] label[i]) {
        Some(SniNameError::InvalidCharacters)
    } else if label[0] == '-' || label.last() == '-' {
        Some(SniNameError::Hyphen)
    } else {
        None
    }
}

/// What is wrong with the first label that is not acceptable, from label `i` on.
pub open spec fn labels_error(labels: Seq<Seq<char>>, i: int) -> Option<SniNameError>
    decreases labels.len() - i,
{
    if !(0 <= i < labels.len()) {
        None
    } else if label_error(labels[i]) is Some {
        label_error(labels[i])
    } else {
        labels_error(labels, i + 1)
    }
}

pub open spec fn star_dot() -> Seq<char> {
    seq!['*', '.']
}

/// The part of a pattern behind a leading `*.`, or all of it.
pub open spec fn behind_star(p: Seq<char>) -> Seq<char> {
    match stripped(p, star_dot()) {
        Some(rest) => rest,
        None => p,
    }
}

/// What is wrong with a server name pattern.
pub open spec fn name_error(p: Seq<char>) -> Option<SniNameError> {
    if p.len() == 0 {
        Some(SniNameError::Empty)
    } else if p == seq!['*'] {
        Some(SniNameError::BareWildcard)
    } else if behind_star(p).contains('*') {
        Some(SniNameError::InvalidWildcard)
    } else if is_ip(p) {
        Some(SniNameError::IpAddress)
    } else {
        labels_error(split(behind_star(p), '.'), 0)
    }
}

fn check_label(label: &str) -> (r: Result<(), SniNameError>)
    ensures
        match label_error(label@) {
            Some(err) => r == Err::<(), SniNameError>(err),
            None => r is Ok,
        },
{
    let chars = to_chars(label);
    let n: usize = chars.len();
    if n == 0 {
        return Err(SniNameError::EmptyLabel);
    }
    if n > MAX_LABEL_LEN {
        return Err(SniNameError::LabelTooLong);
    }
    let mut i: usize = 0;
    while i < n
        invariant
            chars@ == label@,
            n == chars@.len(),
            0 < n <= MAX_LABEL_LEN,
            i <= n,
            forall|k: int| 0 <= k < i ==> is_label_char(#[trigger] label@[k]),
        decreases n - i,
    {
        let c: char = chars[i];
        if !(('a' <= c && c <= 'z') || ('A' <= c && c <= 'Z') || ('0' <= c && c <= '9') || c == '-') {
            assert(!is_label_char(label@[i as int]));
            return Err(SniNameError::InvalidCharacters);
        }
        i = i + 1;
    }
    if chars[0] == '-' || chars[n - 1] == '-' {
        return Err(SniNameError::Hyphen);
    }
    Ok(())
}

/// Check a server name pattern.
pub fn validate(pattern: &str) -> (r: Result<(), SniNameError>)
    ensures
        match name_error(pattern@) {
            Some(err) => r == Err::<(), SniNameError>(err),
            None => r is Ok,
        },
{
    let chars = to_chars(pattern);
    if chars.len() == 0 {
        return Err(SniNameError::Empty);
    }
    if chars.len() == 1 && chars[0] == '*' {
        assert(pattern@ =~= seq!['*']);
        return Err(SniNameError::BareWildcard);
    }
    proof {
        reveal_strlit("*.");
        assert("*."@ =~= star_dot());
        if pattern@ == seq!['*'] {
            assert(chars@[0] == '*');
        }
    }
    let rest: String = match strip_prefix(pattern, "*.") {
        Some(rest) => rest,
        None => pattern.to_owned(),
    };
    if has_char(rest.as_str(), '*') {
        return Err(SniNameError::InvalidWildcard);
    }
    if ip_address(pattern) {
        return Err(SniNameError::IpAddress);
    }
    let labels = split_text(rest.as_str(), '.');
    let ghost all = split(rest@, '.');
    let mut i: usize = 0;
    while i < labels.len()
        invariant
            i <= labels@.len(),
            labels@.map_values(|t: String| t@) == all,
            labels_error(all, 0) == labels_error(all, i as int),
            name_error(pattern@) == labels_error(all, 0),
        decreases labels@.len() - i,
    {
        assert(all[i as int] == labels@[i as int]@);
        check_label(labels[i].as_str())?;
        i = i + 1;
    }
    Ok(())
}

} // verus!

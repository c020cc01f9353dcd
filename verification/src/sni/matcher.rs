//! Wildcard-aware matching of TLS server names, shared by certificate
//! selection and routing.
//!
//! Exact names win over wildcards. Matching ignores ASCII case and one
//! trailing dot of the looked-up name. What a wildcard covers is a policy of
//! the caller.

use vstd::prelude::*;

use crate::sni::name::{behind_star, name_error, star_dot, validate, SniNameError};
use crate::text::{concat, copy_text, copy_texts, concat3, ends_with, find, lemma_find_from, lower, lower_char, lower_text, same_text, split, split_at_char, split_once, split_text, starts_with, strip_prefix, text_of, to_chars, views};

verus! {

/// How a wildcard pattern matches a name.
#[derive(Clone, Copy, Debug, PartialEq, Eq, Structural)]
pub enum WildcardMatch {
    /// A wildcard matches exactly one leftmost label, and a wildcard pattern
    /// has at least three labels.
    SingleLabel,
    /// A wildcard matches any number of leading labels, the longest configured
    /// suffix winning.
    Suffix,
}

/// Why building an [`SniMatcher`] failed.
#[derive(Debug)]
pub enum SniMatcherError {
    /// A pattern is not acceptable under the policy.
    InvalidPattern { pattern: String, source: SniNameError },
    /// The same pattern was configured more than once.
    DuplicatePattern { pattern: String },
}

impl SniMatcherError {
    pub open spec fn text(self) -> Seq<char> {
        match self {
            SniMatcherError::InvalidPattern { pattern, source } => "server name '"@ + pattern@ + "': "@
                + source.text(),
            SniMatcherError::DuplicatePattern { pattern } => "duplicate server name '"@ + pattern@ + "'"@,
        }
    }

    /// The message of this error.
    pub fn message(&self) -> (r: String)
        ensures
            r@ == self.text(),
    {
        match self {
            SniMatcherError::InvalidPattern { pattern, source } => {
                let mut out = concat3("server name '", pattern.as_str(), "': ");
                out.append(source.message());
                out
            },
            SniMatcherError::DuplicatePattern { pattern } => concat3(
                "duplicate server name '",
                pattern.as_str(),
                "'",
            ),
        }
    }
}

/// Whether a pattern is a wildcard.
pub open spec fn is_wildcard(p: Seq<char>) -> bool {
    star_dot().is_prefix_of(p)
}

/// What is wrong with a pattern under a policy.
pub open spec fn pattern_error(p: Seq<char>, policy: WildcardMatch) -> Option<SniNameError> {
    if name_error(p) is Some {
        name_error(p)
    } else if policy == WildcardMatch::SingleLabel && is_wildcard(p) && split(p, '.').len() < 3 {
        Some(SniNameError::WildcardTooShallow)
    } else {
        None
    }
}

/// Check a pattern under a wildcard policy.
pub fn validate_pattern(pattern: &str, policy: WildcardMatch) -> (r: Result<(), SniNameError>)
    ensures
        match pattern_error(pattern@, policy) {
            Some(err) => r == Err::<(), SniNameError>(err),
            None => r is Ok,
        },
{
    validate(pattern)?;
    proof {
        reveal_strlit("*.");
        assert("*."@ =~= star_dot());
    }
    if policy == WildcardMatch::SingleLabel && starts_with(pattern, "*.") {
        let labels = split_text(pattern, '.');
        assert(labels@.len() == split(pattern@, '.').len()) by {
            assert(labels@.map_values(|t: String| t@).len() == labels@.len());
        }
        if labels.len() < 3 {
            return Err(SniNameError::WildcardTooShallow);
        }
    }
    Ok(())
}

/// The name that is looked up: in lowercase, without one trailing dot.
pub open spec fn looked_up(sni: Seq<char>) -> Seq<char> {
    if sni.len() > 0 && sni.last() == '.' {
        lower(sni.drop_last())
    } else {
        lower(sni)
    }
}

/// Whether the wildcard for `suffix` covers `name`.
pub open spec fn covers(suffix: Seq<char>, policy: WildcardMatch, name: Seq<char>) -> bool {
    match policy {
        WildcardMatch::SingleLabel => split_once(name, '.') matches Some((label, rest)) && label.len() > 0
            && rest == suffix,
        WildcardMatch::Suffix => name.len() > suffix.len() + 1 && (seq!['.'] + suffix).is_suffix_of(
            name,
        ),
    }
}

/// Whether the lowercase pattern `p` matches the lowercase name `name`.
pub open spec fn pattern_matches(p: Seq<char>, policy: WildcardMatch, name: Seq<char>) -> bool {
    if is_wildcard(p) {
        covers(behind_star(p), policy, name)
    } else {
        p == name
    }
}

/// Pattern `p` wins over pattern `q` where both match: an exact pattern wins,
/// and so does a longer wildcard.
pub open spec fn wins(p: Seq<char>, q: Seq<char>) -> bool {
    !is_wildcard(p) || (is_wildcard(q) && q.len() <= p.len())
}

/// Entry `i` is the answer for `name`.
pub open spec fn answers<V>(
    entries: Seq<(Seq<char>, V)>,
    policy: WildcardMatch,
    name: Seq<char>,
    i: int,
) -> bool {
    &&& 0 <= i < entries.len()
    &&& pattern_matches(entries[i].0, policy, name)
    &&& forall|j: int|
        0 <= j < entries.len() && pattern_matches((#[trigger] entries[j]).0, policy, name) ==> wins(
            entries[i].0,
            entries[j].0,
        )
}

/// No entry matches `name`.
pub open spec fn unmatched<V>(
    entries: Seq<(Seq<char>, V)>,
    policy: WildcardMatch,
    name: Seq<char>,
) -> bool {
    forall|i: int|
        0 <= i < entries.len() ==> !pattern_matches((#[trigger] entries[i]).0, policy, name)
}

/// Whether `value` is the value of the entry that is the answer for `name`, if
/// there is one.
pub open spec fn resolves<V>(
    entries: Seq<(Seq<char>, V)>,
    policy: WildcardMatch,
    name: Seq<char>,
    value: Option<V>,
) -> bool {
    match value {
        Some(v) => exists|i: int| #[trigger] answers(entries, policy, name, i) && v == entries[i].1,
        None => unmatched(entries, policy, name),
    }
}

/// No two entries have the same pattern.
pub open spec fn distinct<V>(entries: Seq<(Seq<char>, V)>) -> bool {
    forall|i: int, j: int|
        0 <= i < j < entries.len() ==> (#[trigger] entries[i]).0 != (#[trigger] entries[j]).0
}

/// Resolves a server name to an associated value.
pub struct SniMatcher<V> {
    /// Exact names, in lowercase.
    exact: Vec<(String, V)>,
    /// Wildcards by what follows `*.`, the longest first.
    wildcard: Vec<(String, V)>,
    /// The wildcard patterns as written, in the order of the wildcards.
    written: Vec<String>,
    policy: WildcardMatch,
    /// The configured entries in order, patterns in lowercase.
    listed: Ghost<Seq<(Seq<char>, V)>>,
    /// The configured patterns in order, as written.
    given: Ghost<Seq<Seq<char>>>,
}

spec fn exact_entries<V>(list: Seq<(String, V)>) -> Seq<(Seq<char>, V)> {
    list.map_values(|e: (String, V)| (e.0@, e.1))
}

spec fn wildcard_entries<V>(list: Seq<(String, V)>) -> Seq<(Seq<char>, V)> {
    list.map_values(|e: (String, V)| (star_dot() + e.0@, e.1))
}

/// The wildcard list is ordered from the longest to the shortest.
spec fn longest_first<V>(list: Seq<(String, V)>) -> bool {
    forall|i: int, j: int|
        0 <= i < j < list.len() ==> (#[trigger] list[j]).0@.len() <= (#[trigger] list[i]).0@.len()
}

/// No two entries of a list have the same name.
spec fn distinct_names<V>(list: Seq<(String, V)>) -> bool {
    forall|i: int, j: int|
        0 <= i < j < list.len() ==> (#[trigger] list[i]).0@ != (#[trigger] list[j]).0@
}

spec fn indexed<V>(
    exact: Seq<(String, V)>,
    wildcard: Seq<(String, V)>,
    listed: Seq<(Seq<char>, V)>,
) -> bool {
    &&& forall|x: (Seq<char>, V)|
        #[trigger] listed.contains(x) <==> exact_entries(exact).contains(x) || wildcard_entries(
            wildcard,
        ).contains(x)
    &&& forall|i: int| 0 <= i < exact.len() ==> !is_wildcard((#[trigger] exact[i]).0@)
    &&& longest_first(wildcard)
    &&& distinct_names(exact)
    &&& distinct_names(wildcard)
    &&& distinct(listed)
}

/// The wildcards are kept as they were written.
spec fn rendered<V>(
    wildcard: Seq<(String, V)>,
    written: Seq<String>,
    listed: Seq<(Seq<char>, V)>,
    given: Seq<Seq<char>>,
) -> bool {
    &&& written.len() == wildcard.len()
    &&& given.len() == listed.len()
    &&& forall|k: int|
        0 <= k < written.len() ==> lower((#[trigger] written[k])@) == star_dot() + wildcard[k].0@
    &&& forall|i: int| 0 <= i < given.len() ==> lower(#[trigger] given[i]) == listed[i].0
    &&& forall|p: Seq<char>| #[trigger] views(written).contains(p) <==> given.contains(p) && is_wildcard(p)
}

proof fn lemma_wildcard_lower(p: Seq<char>)
    ensures
        is_wildcard(lower(p)) == is_wildcard(p),
{
    if p.len() >= 2 {
        if is_wildcard(p) {
            assert(p.take(2)[0] == '*' && p.take(2)[1] == '.');
            assert(lower(p).take(2) =~= star_dot());
        }
        if is_wildcard(lower(p)) {
            assert(lower(p).take(2)[0] == star_dot()[0] && lower(p).take(2)[1] == star_dot()[1]);
            assert(lower_char(p[0]) == '*' && lower_char(p[1]) == '.');
            assert(p.take(2) =~= star_dot());
        }
    }
}

impl<V> SniMatcher<V> {
    /// The configured patterns in order, as written.
    pub closed spec fn patterns(self) -> Seq<Seq<char>> {
        self.given@
    }

    /// The configured entries in order, patterns in lowercase.
    pub closed spec fn entries(self) -> Seq<(Seq<char>, V)> {
        self.listed@
    }

    pub closed spec fn policy(self) -> WildcardMatch {
        self.policy
    }

    pub closed spec fn wf(self) -> bool {
        indexed(self.exact@, self.wildcard@, self.listed@) && rendered(
            self.wildcard@,
            self.written@,
            self.listed@,
            self.given@,
        )
    }
}

/// The entries as they are listed: patterns in lowercase.
pub open spec fn lowered<V>(entries: Seq<(String, V)>) -> Seq<(Seq<char>, V)> {
    entries.map_values(|e: (String, V)| (lower(e.0@), e.1))
}

/// The patterns of entries.
pub open spec fn as_written<V>(entries: Seq<(String, V)>) -> Seq<Seq<char>> {
    entries.map_values(|e: (String, V)| e.0@)
}

/// The error of the entry at `i`, when those before it are accepted.
pub open spec fn entry_error<V>(entries: Seq<(String, V)>, policy: WildcardMatch, i: int) -> Option<
    SniMatcherError,
> {
    if pattern_error(entries[i].0@, policy) is Some {
        Some(
            SniMatcherError::InvalidPattern {
                pattern: entries[i].0,
                source: pattern_error(entries[i].0@, policy)->0,
            },
        )
    } else if exists|j: int| 0 <= j < i && lower((#[trigger] entries[j]).0@) == lower(entries[i].0@) {
        Some(SniMatcherError::DuplicatePattern { pattern: entries[i].0 })
    } else {
        None
    }
}

/// The error of the first entry that is refused, from entry `i` on.
pub open spec fn build_error<V>(entries: Seq<(String, V)>, policy: WildcardMatch, i: int) -> Option<
    SniMatcherError,
>
    decreases entries.len() - i,
{
    if !(0 <= i < entries.len()) {
        None
    } else if entry_error(entries, policy, i) is Some {
        entry_error(entries, policy, i)
    } else {
        build_error(entries, policy, i + 1)
    }
}

/// The position of the entry named `name`.
fn find_entry<V>(list: &Vec<(String, V)>, name: &str) -> (r: Option<usize>)
    ensures
        match r {
            Some(i) => i < list@.len() && list@[i as int].0@ == name@,
            None => forall|i: int| 0 <= i < list@.len() ==> (#[trigger] list@[i]).0@ != name@,
        },
{
    let mut i: usize = 0;
    while i < list.len()
        invariant
            i <= list@.len(),
            forall|k: int| 0 <= k < i ==> (#[trigger] list@[k]).0@ != name@,
        decreases list@.len() - i,
    {
        if same_text(list[i].0.as_str(), name) {
            return Some(i);
        }
        i = i + 1;
    }
    None
}

proof fn lemma_push_contains<A>(s: Seq<A>, x: A)
    ensures
        forall|y: A| #[trigger] s.push(x).contains(y) <==> s.contains(y) || y == x,
{
    let t = s.push(x);
    assert forall|y: A| #[trigger] t.contains(y) <==> s.contains(y) || y == x by {
        if s.contains(y) {
            let i = s.index_of(y);
            assert(t[i] == y);
        }
        assert(t[s.len() as int] == x);
        if t.contains(y) {
            let i = t.index_of(y);
            if i < s.len() {
                assert(s[i] == y);
            }
        }
    }
}

proof fn lemma_insert_contains<A>(s: Seq<A>, at: int, x: A)
    requires
        0 <= at <= s.len(),
    ensures
        forall|y: A| #[trigger] s.insert(at, x).contains(y) <==> s.contains(y) || y == x,
{
    let t = s.insert(at, x);
    assert forall|y: A| #[trigger] t.contains(y) <==> s.contains(y) || y == x by {
        if s.contains(y) {
            let i = s.index_of(y);
            assert(t[if i < at { i } else { i + 1 }] == y);
        }
        assert(t[at] == x);
        if t.contains(y) {
            let i = t.index_of(y);
            if i < at {
                assert(s[i] == y);
            } else if i > at {
                assert(s[i - 1] == y);
            }
        }
    }
}

/// The place of a suffix in the list of wildcards: behind those that are not
/// shorter.
fn place<V>(list: &Vec<(String, V)>, suffix: &str) -> (r: usize)
    requires
        longest_first(list@),
    ensures
        r <= list@.len(),
        forall|i: int| 0 <= i < r ==> (#[trigger] list@[i]).0@.len() >= suffix@.len(),
        forall|i: int| r <= i < list@.len() ==> (#[trigger] list@[i]).0@.len() < suffix@.len(),
{
    let len: usize = to_chars(suffix).len();
    let mut i: usize = 0;
    while i < list.len()
        invariant
            i <= list@.len(),
            len == suffix@.len(),
            longest_first(list@),
            forall|k: int| 0 <= k < i ==> (#[trigger] list@[k]).0@.len() >= suffix@.len(),
        decreases list@.len() - i,
    {
        let n: usize = to_chars(list[i].0.as_str()).len();
        if n < len {
            assert forall|k: int| i <= k < list@.len() implies (#[trigger] list@[k]).0@.len()
                < suffix@.len() by {
                assert(list@[k].0@.len() <= list@[i as int].0@.len());
            }
            return i;
        }
        i = i + 1;
    }
    i
}

impl<V> SniMatcher<V> {
    /// Add one entry.
    fn insert(&mut self, pattern: String, value: V) -> (r: Result<(), SniMatcherError>)
        requires
            old(self).wf(),
        ensures
            final(self).policy() == old(self).policy(),
            match pattern_error(pattern@, old(self).policy()) {
                Some(source) => r == Err::<(), SniMatcherError>(
                    SniMatcherError::InvalidPattern { pattern, source },
                ),
                None => if exists|j: int|
                    0 <= j < old(self).entries().len() && (#[trigger] old(self).entries()[j]).0
                        == lower(pattern@) {
                    r == Err::<(), SniMatcherError>(SniMatcherError::DuplicatePattern { pattern })
                } else {
                    &&& r is Ok
                    &&& final(self).wf()
                    &&& final(self).entries() == old(self).entries().push((lower(pattern@), value))
                    &&& final(self).patterns() == old(self).patterns().push(pattern@)
                },
            },
    {
        match validate_pattern(pattern.as_str(), self.policy) {
            Ok(()) => {},
            Err(source) => {
                return Err(SniMatcherError::InvalidPattern { pattern, source });
            },
        }
        let name = lower_text(pattern.as_str());
        let ghost entry = (lower(pattern@), value);
        let ghost exact0 = self.exact@;
        let ghost wildcard0 = self.wildcard@;
        let ghost listed0 = self.entries();
        let ghost written0 = self.written@;
        let ghost given0 = self.patterns();
        proof {
            lemma_wildcard_lower(pattern@);
            lemma_push_contains(given0, pattern@);
            reveal_strlit("*.");
            assert("*."@ =~= star_dot());
            lemma_push_contains(listed0, entry);
        }
        match strip_prefix(name.as_str(), "*.") {
            None => {
                match find_entry(&self.exact, name.as_str()) {
                    Some(k) => {
                        proof {
                            let x = exact_entries(exact0)[k as int];
                            assert(exact_entries(exact0).contains(x));
                            assert(listed0.contains(x));
                            let j = listed0.index_of(x);
                            assert(listed0[j].0 == lower(pattern@));
                        }
                        return Err(SniMatcherError::DuplicatePattern { pattern });
                    },
                    None => {},
                }
                proof {
                    assert forall|j: int| 0 <= j < listed0.len() implies (#[trigger] listed0[j]).0
                        != lower(pattern@) by {
                        let x = listed0[j];
                        assert(listed0.contains(x));
                        if exact_entries(exact0).contains(x) {
                            let k = exact_entries(exact0).index_of(x);
                            assert(exact0[k].0@ == x.0);
                        } else {
                            let k = wildcard_entries(wildcard0).index_of(x);
                            assert(x.0 == star_dot() + wildcard0[k].0@);
                            assert(star_dot().is_prefix_of(x.0));
                        }
                    }
                }
                self.exact.push((name, value));
                self.listed = Ghost(self.listed@.push((lower(pattern@), value)));
                self.given = Ghost(self.given@.push(pattern@));
                proof {
                    lemma_push_contains(exact_entries(exact0), entry);
                    assert(exact_entries(self.exact@) =~= exact_entries(exact0).push(entry));
                }
            },
            Some(suffix) => {
                match find_entry(&self.wildcard, suffix.as_str()) {
                    Some(k) => {
                        proof {
                            let x = wildcard_entries(wildcard0)[k as int];
                            assert(wildcard_entries(wildcard0).contains(x));
                            assert(listed0.contains(x));
                            let j = listed0.index_of(x);
                            assert(star_dot() + suffix@ =~= lower(pattern@));
                            assert(listed0[j].0 == lower(pattern@));
                        }
                        return Err(SniMatcherError::DuplicatePattern { pattern });
                    },
                    None => {},
                }
                proof {
                    assert(star_dot() + suffix@ =~= lower(pattern@));
                    assert forall|j: int| 0 <= j < listed0.len() implies (#[trigger] listed0[j]).0
                        != lower(pattern@) by {
                        let x = listed0[j];
                        assert(listed0.contains(x));
                        if exact_entries(exact0).contains(x) {
                            let k = exact_entries(exact0).index_of(x);
                            assert(exact0[k].0@ == x.0);
                        } else {
                            let k = wildcard_entries(wildcard0).index_of(x);
                            assert(x.0 == star_dot() + wildcard0[k].0@);
                            assert(x.0.skip(2) =~= wildcard0[k].0@);
                            assert(lower(pattern@).skip(2) =~= suffix@);
                        }
                    }
                }
                let at: usize = place(&self.wildcard, suffix.as_str());
                self.wildcard.insert(at, (suffix, value));
                self.listed = Ghost(self.listed@.push((lower(pattern@), value)));
                self.given = Ghost(self.given@.push(pattern@));
                self.written.insert(at, pattern);
                proof {
                    lemma_insert_contains(views(written0), at as int, pattern@);
                    assert(views(self.written@) =~= views(written0).insert(at as int, pattern@));
                    assert(star_dot().is_prefix_of(lower(pattern@)));
                    assert forall|k: int| 0 <= k < self.written@.len() implies lower(
                        (#[trigger] self.written@[k])@,
                    ) == star_dot() + self.wildcard@[k].0@ by {
                        if k < at {
                            assert(self.written@[k] == written0[k]);
                        } else if k > at {
                            assert(self.written@[k] == written0[k - 1]);
                        }
                    }
                    lemma_insert_contains(wildcard_entries(wildcard0), at as int, entry);
                    assert(wildcard_entries(self.wildcard@) =~= wildcard_entries(wildcard0).insert(
                        at as int,
                        entry,
                    ));
                }
            },
        }
        Ok(())
    }

    /// Build a matcher from `(pattern, value)` entries under `policy`.
    ///
    /// The first entry whose pattern is not acceptable, or repeats an earlier
    /// one but for letter case, is the error.
    pub fn build(entries: Vec<(String, V)>, policy: WildcardMatch) -> (r: Result<
        Self,
        SniMatcherError,
    >)
        ensures
            match build_error(entries@, policy, 0) {
                Some(err) => r == Err::<Self, SniMatcherError>(err),
                None => {
                    &&& r is Ok
                    &&& r->Ok_0.wf()
                    &&& r->Ok_0.policy() == policy
                    &&& r->Ok_0.entries() == lowered(entries@)
                    &&& r->Ok_0.patterns() == as_written(entries@)
                },
            },
    {
        let mut matcher = SniMatcher {
            exact: Vec::new(),
            wildcard: Vec::new(),
            written: Vec::new(),
            policy,
            listed: Ghost(Seq::empty()),
            given: Ghost(Seq::empty()),
        };
        assert(views(matcher.written@) =~= Seq::<Seq<char>>::empty());
        for entry in it: entries
            invariant
                it.seq() == entries@,
                matcher.wf(),
                matcher.policy() == policy,
                matcher.entries() == lowered(entries@.take(it.index() as int)),
                matcher.patterns() == as_written(entries@.take(it.index() as int)),
                build_error(entries@, policy, 0) == build_error(entries@, policy, it.index() as int),
        {
            let ghost i = it.index() as int;
            let ghost known = matcher.entries();
            assert(entry == entries@[i]);
            assert(forall|j: int| 0 <= j < i ==> (#[trigger] known[j]).0 == lower(entries@[j].0@));
            proof {
                if exists|j: int| 0 <= j < known.len() && (#[trigger] known[j]).0 == lower(entry.0@) {
                    let j = choose|j: int| 0 <= j < known.len() && (#[trigger] known[j]).0 == lower(entry.0@);
                    assert(lower(entries@[j].0@) == lower(entries@[i].0@));
                }
                if exists|j: int| 0 <= j < i && lower((#[trigger] entries@[j]).0@) == lower(entries@[i].0@) {
                    let j = choose|j: int| 0 <= j < i && lower((#[trigger] entries@[j]).0@) == lower(entries@[i].0@);
                    assert(known[j].0 == lower(entry.0@));
                }
            }
            let (pattern, value) = entry;
            matcher.insert(pattern, value)?;
            assert(matcher.entries() =~= lowered(entries@.take(i + 1)));
            assert(matcher.patterns() =~= as_written(entries@.take(i + 1)));
        }
        Ok(matcher)
    }

    /// The value of the pattern that matches `sni` best.
    ///
    /// Exact names win over wildcards, and longer wildcards over shorter ones.
    /// Letter case and one trailing dot are ignored.
    pub fn lookup(&self, sni: &str) -> (r: Option<&V>)
        requires
            self.wf(),
        ensures
            resolves(
                self.entries(),
                self.policy(),
                looked_up(sni@),
                match r {
                    Some(v) => Some(*v),
                    None => None,
                },
            ),
    {
        let chars = to_chars(sni);
        let n: usize = chars.len();
        let name: String = if n > 0 && chars[n - 1] == '.' {
            let cut = text_of(&chars, 0, n - 1);
            assert(cut@ =~= sni@.drop_last());
            lower_text(cut.as_str())
        } else {
            lower_text(sni)
        };
        let ghost listed = self.entries();
        match find_entry(&self.exact, name.as_str()) {
            Some(k) => {
                proof {
                    let x = exact_entries(self.exact@)[k as int];
                    assert(exact_entries(self.exact@).contains(x));
                    assert(listed.contains(x));
                    let i = listed.index_of(x);
                    assert(name@ == looked_up(sni@));
                    assert(listed[i] == x);
                    assert(answers(self.entries(), self.policy(), looked_up(sni@), i));
                }
                return Some(&self.exact[k].1);
            },
            None => {},
        }
        proof {
            assert forall|i: int| 0 <= i < listed.len() && !is_wildcard((#[trigger] listed[i]).0) implies
                listed[i].0 != name@ by {
                let x = listed[i];
                assert(listed.contains(x));
                if exact_entries(self.exact@).contains(x) {
                    let k = exact_entries(self.exact@).index_of(x);
                    assert(self.exact@[k].0@ == x.0);
                } else {
                    let k = wildcard_entries(self.wildcard@).index_of(x);
                    assert(x.0 == star_dot() + self.wildcard@[k].0@);
                    assert(star_dot().is_prefix_of(x.0));
                }
            }
        }
        let found = self.find_wildcard(name.as_str());
        match found {
            Some(k) => {
                proof {
                    let x = wildcard_entries(self.wildcard@)[k as int];
                    assert(wildcard_entries(self.wildcard@).contains(x));
                    assert(listed.contains(x));
                    let i = listed.index_of(x);
                    assert(x.0 == star_dot() + self.wildcard@[k as int].0@);
                    assert(x.0.skip(2) =~= self.wildcard@[k as int].0@);
                    assert forall|j: int|
                        0 <= j < listed.len() && pattern_matches(
                            (#[trigger] listed[j]).0,
                            self.policy,
                            name@,
                        ) implies wins(listed[i].0, listed[j].0) by {
                        self.lemma_wildcard_place(j);
                    }
                    assert(name@ == looked_up(sni@));
                    assert(listed[i] == x);
                    assert(answers(self.entries(), self.policy(), looked_up(sni@), i));
                }
                Some(&self.wildcard[k].1)
            },
            None => {
                proof {
                    assert forall|j: int| 0 <= j < listed.len() implies !pattern_matches(
                        (#[trigger] listed[j]).0,
                        self.policy,
                        name@,
                    ) by {
                        if is_wildcard(listed[j].0) {
                            self.lemma_wildcard_place(j);
                        }
                    }
                }
                None
            },
        }
    }

    /// A wildcard that is listed stands in the list of wildcards.
    proof fn lemma_wildcard_place(self, j: int)
        requires
            self.wf(),
            0 <= j < self.listed@.len(),
            is_wildcard(self.listed@[j].0),
        ensures
            exists|k: int|
                0 <= k < self.wildcard@.len() && (#[trigger] self.wildcard@[k]).0@ == behind_star(
                    self.listed@[j].0,
                ) && self.listed@[j].0.len() == self.wildcard@[k].0@.len() + 2,
    {
        let x = self.listed@[j];
        assert(self.listed@.contains(x));
        if exact_entries(self.exact@).contains(x) {
            let k = exact_entries(self.exact@).index_of(x);
            assert(self.exact@[k].0@ == x.0);
        } else {
            let k = wildcard_entries(self.wildcard@).index_of(x);
            assert(x.0 == star_dot() + self.wildcard@[k].0@);
            assert(x.0.skip(2) =~= self.wildcard@[k].0@);
            assert(self.wildcard@[k].0@ == behind_star(x.0));
        }
    }

    /// The first wildcard that covers a name.
    fn find_wildcard(&self, name: &str) -> (r: Option<usize>)
        requires
            self.wf(),
        ensures
            match r {
                Some(k) => {
                    &&& k < self.wildcard@.len()
                    &&& covers(self.wildcard@[k as int].0@, self.policy, name@)
                    &&& forall|j: int|
                        0 <= j < self.wildcard@.len() && covers(
                            (#[trigger] self.wildcard@[j]).0@,
                            self.policy,
                            name@,
                        ) ==> self.wildcard@[j].0@.len() <= self.wildcard@[k as int].0@.len()
                },
                None => forall|j: int|
                    0 <= j < self.wildcard@.len() ==> !covers(
                        (#[trigger] self.wildcard@[j]).0@,
                        self.policy,
                        name@,
                    ),
            },
    {
        match self.policy {
            WildcardMatch::SingleLabel => match split_at_char(name, '.') {
                None => None,
                Some((label, rest)) => {
                    if to_chars(label.as_str()).len() == 0 {
                        None
                    } else {
                        find_entry(&self.wildcard, rest.as_str())
                    }
                },
            },
            WildcardMatch::Suffix => {
                let len: usize = to_chars(name).len();
                let mut i: usize = 0;
                while i < self.wildcard.len()
                    invariant
                        i <= self.wildcard@.len(),
                        len == name@.len(),
                        longest_first(self.wildcard@),
                        self.policy == WildcardMatch::Suffix,
                        forall|j: int|
                            0 <= j < i ==> !covers(
                                (#[trigger] self.wildcard@[j]).0@,
                                self.policy,
                                name@,
                            ),
                    decreases self.wildcard@.len() - i,
                {
                    proof {
                        reveal_strlit(".");
                        assert("."@ =~= seq!['.']);
                    }
                    let dotted = concat(".", self.wildcard[i].0.as_str());
                    let stored: usize = to_chars(dotted.as_str()).len();
                    if len > stored && ends_with(name, dotted.as_str()) {
                        return Some(i);
                    }
                    i = i + 1;
                }
                None
            },
        }
    }

    /// The configured exact names, in lowercase.
    pub fn exact_names(&self) -> (r: Vec<String>)
        requires
            self.wf(),
        ensures
            views(r@).no_duplicates(),
            forall|p: Seq<char>|
                #[trigger] views(r@).contains(p) <==> exists|i: int|
                    0 <= i < self.entries().len() && (#[trigger] self.entries()[i]).0 == p
                        && !is_wildcard(p),
    {
        let mut out: Vec<String> = Vec::new();
        let mut i: usize = 0;
        while i < self.exact.len()
            invariant
                i <= self.exact@.len(),
                out@.len() == i,
                forall|k: int| 0 <= k < i ==> (#[trigger] out@[k])@ == self.exact@[k].0@,
            decreases self.exact@.len() - i,
        {
            out.push(copy_text(self.exact[i].0.as_str()));
            i = i + 1;
        }
        proof {
            let names = views(out@);
            assert forall|p: Seq<char>| #[trigger] names.contains(p) <==> exists|i: int|
                0 <= i < self.entries().len() && (#[trigger] self.entries()[i]).0 == p && !is_wildcard(p) by {
                if names.contains(p) {
                    let k = names.index_of(p);
                    let x = exact_entries(self.exact@)[k];
                    assert(exact_entries(self.exact@).contains(x));
                    assert(self.entries().contains(x));
                    let i = self.entries().index_of(x);
                    assert(self.entries()[i].0 == p);
                    assert(!is_wildcard(self.exact@[k].0@));
                }
                if exists|i: int|
                    0 <= i < self.entries().len() && (#[trigger] self.entries()[i]).0 == p && !is_wildcard(p) {
                    let i = choose|i: int|
                        0 <= i < self.entries().len() && (#[trigger] self.entries()[i]).0 == p && !is_wildcard(p);
                    let x = self.entries()[i];
                    assert(self.entries().contains(x));
                    if wildcard_entries(self.wildcard@).contains(x) {
                        let k = wildcard_entries(self.wildcard@).index_of(x);
                        assert(star_dot().is_prefix_of(star_dot() + self.wildcard@[k].0@));
                    }
                    let k = exact_entries(self.exact@).index_of(x);
                    assert(names[k] == p);
                }
            }
        }
        out
    }

    /// The configured wildcard patterns, as written. Under
    /// [`WildcardMatch::Suffix`] the longest comes first.
    pub fn wildcard_patterns(&self) -> (r: Vec<String>)
        requires
            self.wf(),
        ensures
            views(r@).no_duplicates(),
            forall|p: Seq<char>|
                #[trigger] views(r@).contains(p) <==> self.patterns().contains(p) && is_wildcard(p),
            forall|i: int, j: int|
                0 <= i < j < r@.len() ==> (#[trigger] r@[j])@.len() <= (#[trigger] r@[i])@.len(),
    {
        let out = copy_texts(&self.written);
        proof {
            let names = views(out@);
            assert(out@ == self.written@);
            assert forall|a: int, b: int| 0 <= a < b < names.len() implies names[a] != names[b] by {
                assert(lower(self.written@[a]@).skip(2) =~= self.wildcard@[a].0@);
                assert(lower(self.written@[b]@).skip(2) =~= self.wildcard@[b].0@);
            }
            assert forall|a: int, b: int| 0 <= a < b < out@.len() implies (#[trigger] out@[b])@.len() <= (
            #[trigger] out@[a])@.len() by {
                assert(lower(self.written@[a]@).len() == self.wildcard@[a].0@.len() + 2);
                assert(lower(self.written@[b]@).len() == self.wildcard@[b].0@.len() + 2);
            }
        }
        out
    }

    /// The patterns of a matcher are all different.
    pub proof fn law_patterns_distinct(self)
        requires
            self.wf(),
        ensures
            distinct(self.entries()),
    {
    }
}

/// At most one entry is the answer for a name.
pub proof fn law_answer_unique<V>(
    entries: Seq<(Seq<char>, V)>,
    policy: WildcardMatch,
    name: Seq<char>,
    i: int,
    j: int,
)
    requires
        distinct(entries),
        answers(entries, policy, name, i),
        answers(entries, policy, name, j),
    ensures
        i == j,
{
    let p = entries[i].0;
    let q = entries[j].0;
    assert(wins(p, q) && wins(q, p));
    if is_wildcard(p) {
        assert(p.len() == q.len());
        let a = behind_star(p);
        let b = behind_star(q);
        match policy {
            WildcardMatch::SingleLabel => {
                assert(a == b);
            },
            WildcardMatch::Suffix => {
                let x = seq!['.'] + a;
                let y = seq!['.'] + b;
                assert(x =~= y);
                assert(a =~= x.skip(1));
                assert(b =~= y.skip(1));
            },
        }
        assert(p =~= star_dot() + a);
        assert(q =~= star_dot() + b);
    }
}

/// An entry whose pattern is the name itself is the answer, whatever wildcards
/// there are.
pub proof fn law_exact_wins<V>(
    entries: Seq<(Seq<char>, V)>,
    policy: WildcardMatch,
    name: Seq<char>,
    i: int,
)
    requires
        0 <= i < entries.len(),
        entries[i].0 == name,
        !is_wildcard(name),
    ensures
        answers(entries, policy, name, i),
{
}

/// Letter case and one trailing dot of the name that is looked up make no
/// difference.
pub proof fn law_lookup_folds(a: Seq<char>, b: Seq<char>)
    requires
        lower(a) == lower(b),
    ensures
        looked_up(a) == looked_up(b),
        a.len() > 0 && a.last() != '.' ==> looked_up(a.push('.')) == looked_up(a),
{
    assert(lower(a).len() == a.len() && lower(b).len() == b.len());
    if a.len() > 0 {
        let x = a.last();
        let y = b.last();
        assert(lower(a)[a.len() - 1] == lower_char(x));
        assert(lower(b)[a.len() - 1] == lower_char(y));
        assert(x == '.' <==> y == '.');
        assert(lower(a).drop_last() =~= lower(a.drop_last()));
        assert(lower(b).drop_last() =~= lower(b.drop_last()));
    }
    assert(a.push('.').drop_last() =~= a);
}

/// A single-label wildcard covers a name only where exactly one label, which is
/// not empty, stands before its suffix.
pub proof fn law_single_label(suffix: Seq<char>, name: Seq<char>)
    ensures
        covers(suffix, WildcardMatch::SingleLabel, name) <==> exists|label: Seq<char>|
            #![trigger label + seq!['.']]
            label.len() > 0 && !label.contains('.') && name == label + seq!['.'] + suffix,
{
    lemma_find_from(name, '.', 0);
    if covers(suffix, WildcardMatch::SingleLabel, name) {
        let (label, rest) = split_once(name, '.')->0;
        assert(name =~= label + seq!['.'] + suffix);
        assert(!label.contains('.'));
    }
    if exists|label: Seq<char>|
        #![trigger label + seq!['.']]
        label.len() > 0 && !label.contains('.') && name == label + seq!['.'] + suffix {
        let label = choose|label: Seq<char>|
            #![trigger label + seq!['.']]
            label.len() > 0 && !label.contains('.') && name == label + seq!['.'] + suffix;
        assert(name[label.len() as int] == '.');
        let k = find(name, '.')->0;
        if k < label.len() {
            assert(label[k] == '.');
            assert(label.contains('.'));
        }
        assert(k == label.len());
        assert(name.take(k) =~= label);
        assert(name.skip(k + 1) =~= suffix);
    }
}

/// A suffix wildcard covers every name that a single-label wildcard covers.
pub proof fn law_suffix_covers_more(suffix: Seq<char>, name: Seq<char>)
    requires
        covers(suffix, WildcardMatch::SingleLabel, name),
    ensures
        covers(suffix, WildcardMatch::Suffix, name),
{
    lemma_find_from(name, '.', 0);
    let (label, rest) = split_once(name, '.')->0;
    assert(name =~= label + (seq!['.'] + suffix));
    assert(name.subrange(label.len() as int, name.len() as int) =~= seq!['.'] + suffix);
}

} // verus!

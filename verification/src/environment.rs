//! Environment variables as a table of values.

use vstd::prelude::*;

use crate::text::same_text;

verus! {

/// Values of environment variables, or why they cannot be read.
pub struct Environment {
    entries: Vec<(String, Result<String, String>)>,
}

/// Why a variable that is not there cannot be read.
pub open spec fn absent() -> Seq<char> {
    "environment variable not found"@
}

/// A value or a reason as mathematical data.
pub open spec fn reading(value: Result<String, String>) -> Result<Seq<char>, Seq<char>> {
    match value {
        Ok(v) => Ok(v@),
        Err(e) => Err(e@),
    }
}

/// What the first `n` entries say of a variable: the last one counts.
spec fn value_in(entries: Seq<(String, Result<String, String>)>, name: Seq<char>, n: int) -> Result<
    Seq<char>,
    Seq<char>,
>
    decreases n,
{
    if n <= 0 {
        Err(absent())
    } else if entries[n - 1].0@ == name {
        reading(entries[n - 1].1)
    } else {
        value_in(entries, name, n - 1)
    }
}

proof fn lemma_value_push(
    entries: Seq<(String, Result<String, String>)>,
    more: (String, Result<String, String>),
    name: Seq<char>,
    n: int,
)
    requires
        0 <= n <= entries.len(),
    ensures
        value_in(entries.push(more), name, n) == value_in(entries, name, n),
    decreases n,
{
    if n > 0 {
        lemma_value_push(entries, more, name, n - 1);
    }
}

impl Environment {
    /// What a variable reads as.
    pub closed spec fn value(self, name: Seq<char>) -> Result<Seq<char>, Seq<char>> {
        value_in(self.entries@, name, self.entries@.len() as int)
    }

    /// An environment without variables.
    pub fn new() -> (r: Self)
        ensures
            forall|name: Seq<char>| #[trigger]
                r.value(name) == Err::<Seq<char>, Seq<char>>(absent()),
    {
        Environment { entries: Vec::new() }
    }

    /// Set what a variable reads as.
    pub fn set(&mut self, name: String, value: Result<String, String>)
        ensures
            forall|n: Seq<char>| #[trigger]
                final(self).value(n) == (if n == name@ {
                    reading(value)
                } else {
                    old(self).value(n)
                }),
    {
        let ghost before = self.entries@;
        self.entries.push((name, value));
        assert forall|n: Seq<char>| #[trigger] self.value(n) == (if n == name@ {
            reading(value)
        } else {
            value_in(before, n, before.len() as int)
        }) by {
            lemma_value_push(before, (name, value), n, before.len() as int);
        }
    }

    /// Read a variable.
    pub fn var(&self, name: &str) -> (r: Result<String, String>)
        ensures
            reading(r) == self.value(name@),
    {
        let mut n: usize = self.entries.len();
        while n > 0
            invariant
                n <= self.entries@.len(),
                self.value(name@) == value_in(self.entries@, name@, n as int),
            decreases n,
        {
            if same_text(self.entries[n - 1].0.as_str(), name) {
                return match &self.entries[n - 1].1 {
                    Ok(v) => Ok(v.clone()),
                    Err(e) => Err(e.clone()),
                };
            }
            n = n - 1;
        }
        Err("environment variable not found".to_owned())
    }
}

} // verus!

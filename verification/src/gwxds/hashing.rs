//! Hashes of texts, for telling listeners apart and for naming them.

use std::collections::hash_map::DefaultHasher;
use std::hash::Hasher;

use vstd::prelude::*;
use vstd::std_specs::hash::DefaultHasherAdditionalSpecFns;
use vstd::utf8::encode_utf8;

use crate::number::{digit, hex_digit};

verus! {

/// What a hasher is given for texts: the bytes of each, and a byte that no text
/// holds.
pub open spec fn writes(texts: Seq<Seq<char>>) -> Seq<Seq<u8>>
    decreases texts.len(),
{
    if texts.len() == 0 {
        Seq::empty()
    } else {
        writes(texts.drop_last()).push(encode_utf8(texts.last())).push(seq![0xffu8])
    }
}

/// The hash of a list of texts.
pub open spec fn text_hash(texts: Seq<Seq<char>>) -> u64 {
    DefaultHasher::spec_finish(writes(texts))
}

/// Hashes a list of texts, one after the other.
pub struct TextHasher {
    hasher: DefaultHasher,
    given: Ghost<Seq<Seq<char>>>,
}

impl TextHasher {
    /// The texts that were added.
    pub closed spec fn texts(self) -> Seq<Seq<char>> {
        self.given@
    }

    pub closed spec fn wf(self) -> bool {
        self.hasher@ == writes(self.given@)
    }

    /// A hasher without texts.
    pub fn new() -> (r: Self)
        ensures
            r.wf(),
            r.texts() == Seq::<Seq<char>>::empty(),
    {
        TextHasher { hasher: DefaultHasher::new(), given: Ghost(Seq::empty()) }
    }

    /// Add a text.
    pub fn push(&mut self, text: &str)
        requires
            old(self).wf(),
        ensures
            final(self).wf(),
            final(self).texts() == old(self).texts().push(text@),
    {
        let end: Vec<u8> = vec![0xffu8];
        assert(end@ =~= seq![0xffu8]);
        let ghost before = self.given@;
        self.hasher.write(text.as_bytes());
        self.hasher.write(end.as_slice());
        self.given = Ghost(self.given@.push(text@));
        assert(before.push(text@).drop_last() =~= before);
    }

    /// The hash of the texts that were added.
    pub fn finish(&self) -> (r: u64)
        requires
            self.wf(),
        ensures
            r == text_hash(self.texts()),
    {
        self.hasher.finish()
    }
}

/// The last `width` hexadecimal digits of a number.
pub open spec fn hex_text(n: nat, width: nat) -> Seq<char>
    decreases width,
{
    if width == 0 {
        Seq::empty()
    } else {
        hex_text(n / 16, (width - 1) as nat).push(digit((n % 16) as u8))
    }
}

/// Append the last `width` hexadecimal digits of a number.
pub fn push_hex(out: &mut String, n: u64, width: u64)
    ensures
        final(out)@ == old(out)@ + hex_text(n as nat, width as nat),
    decreases width,
{
    if width > 0 {
        push_hex(out, n / 16, width - 1);
        let ghost before = out@;
        out.push(hex_digit((n % 16) as u8));
        assert(out@ =~= old(out)@ + hex_text(n as nat, width as nat));
    } else {
        assert(out@ + Seq::<char>::empty() =~= out@);
    }
}

} // verus!

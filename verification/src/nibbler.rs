//! Reading a byte string four bits at a time.

use vstd::prelude::*;

verus! {

/// The `i`-th half-byte of `bytes`: the high half of a byte comes before its
/// low half, and bytes come in their own order.
pub open spec fn nibble_at(bytes: Seq<u8>, i: int) -> u8
    recommends
        0 <= i < 2 * bytes.len(),
{
    if i % 2 == 0 {
        bytes[i / 2] / 16
    } else {
        bytes[i / 2] % 16
    }
}

/// A cursor over the half-bytes of a borrowed byte string.
pub struct Nibbler<'a> {
    bytes: &'a [u8],
    index: usize,
    low: bool,
}

impl<'a> Nibbler<'a> {
    #[verifier::type_invariant]
    spec fn in_range(self) -> bool {
        &&& self.index <= self.bytes@.len()
        &&& self.low ==> self.index < self.bytes@.len()
    }

    /// The byte string being read.
    pub closed spec fn source(self) -> Seq<u8> {
        self.bytes@
    }

    /// How many half-bytes have been handed out so far.
    pub closed spec fn consumed(self) -> nat {
        (2 * self.index + if self.low { 1int } else { 0int }) as nat
    }

    /// A cursor standing before the first half-byte of `bytes`.
    pub fn new(bytes: &'a [u8]) -> (cursor: Self)
        ensures
            cursor.source() == bytes@,
            cursor.consumed() == 0,
    {
        Nibbler { bytes, index: 0, low: false }
    }

    /// Hands out the next half-byte, or `None` once all `2 * len` of them
    /// have been read; a spent cursor stays spent.
    pub fn next(&mut self) -> (out: Option<u8>)
        ensures
            final(self).source() == old(self).source(),
            old(self).consumed() <= 2 * old(self).source().len(),
            old(self).consumed() < 2 * old(self).source().len() ==> ({
                &&& out == Some(nibble_at(old(self).source(), old(self).consumed() as int))
                &&& final(self).consumed() == old(self).consumed() + 1
            }),
            old(self).consumed() == 2 * old(self).source().len() ==> ({
                &&& out is None
                &&& final(self).consumed() == old(self).consumed()
            }),
    {
        proof {
            use_type_invariant(&*self);
        }
        if self.index >= self.bytes.len() {
            return None;
        }
        let byte: u8 = self.bytes[self.index];
        if self.low {
            *self = Nibbler { bytes: self.bytes, index: self.index + 1, low: false };
            Some(byte % 16)
        } else {
            *self = Nibbler { bytes: self.bytes, index: self.index, low: true };
            Some(byte / 16)
        }
    }
}

} // verus!

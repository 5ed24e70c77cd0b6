//! Single bits of a byte, for reading and for writing.
use std::marker::PhantomData;
use std::ops::Deref;
use vstd::prelude::*;
use vstd::std_specs::cmp::PartialEqSpecImpl;

verus! {

/// Bit `idx` of `byte`, counted from the least significant.
pub open spec fn bit_of(byte: u8, idx: u8) -> bool {
    byte & (1u8 << idx) != 0
}

/// `byte` with bit `idx` set to `bit`.
pub open spec fn with_bit(byte: u8, idx: u8, bit: bool) -> u8 {
    if bit {
        byte | (1u8 << idx)
    } else {
        byte & !(1u8 << idx)
    }
}

/// Writing a bit makes it read as written and leaves the other seven.
pub proof fn lemma_with_bit(byte: u8, idx: u8, bit: bool, other: u8)
    requires
        idx < 8,
        other < 8,
    ensures
        bit_of(with_bit(byte, idx, bit), idx) == bit,
        other != idx ==> bit_of(with_bit(byte, idx, bit), other) == bit_of(byte, other),
{
    assert(bit_of(with_bit(byte, idx, bit), idx) == bit) by (bit_vector)
        requires
            idx < 8,
    ;
    assert(other != idx ==> bit_of(with_bit(byte, idx, bit), other) == bit_of(byte, other))
        by (bit_vector)
        requires
            idx < 8,
            other < 8,
    ;
}

/// One bit of a byte, read when the reference was made.
#[derive(Debug, Clone, Copy)]
pub struct BitRef<'a> {
    bit: bool,
    phantom: PhantomData<&'a u8>,
}

/// One bit of a byte, open for writing. What is written goes through to the
/// byte at once.
#[derive(Debug)]
pub struct BitMut<'a> {
    bit: bool,
    source: &'a mut u8,
    /// In `[0, 8)`.
    idx: u8,
}

impl<'a> BitRef<'a> {
    /// The bit.
    pub closed spec fn value(&self) -> bool {
        self.bit
    }

    /// Bit `idx` of `source`.
    pub fn new(source: &'a u8, idx: u8) -> (bit: Self)
        requires
            idx < 8,
        ensures
            bit.value() == bit_of(*source, idx),
    {
        Self::new_unchecked(source, idx)
    }

    /// Bit `idx` of `source`, for callers that know `idx` to be below 8.
    pub fn new_unchecked(source: &'a u8, idx: u8) -> (bit: Self)
        requires
            idx < 8,
        ensures
            bit.value() == bit_of(*source, idx),
    {
        Self { bit: (*source & (1u8 << idx)) != 0, phantom: PhantomData }
    }
}

impl<'a> Deref for BitRef<'a> {
    type Target = bool;

    fn deref(&self) -> (bit: &bool)
        ensures
            *bit == self.value(),
    {
        &self.bit
    }
}

impl<'a> BitMut<'a> {
    /// The bit as it stands.
    pub closed spec fn value(&self) -> bool {
        self.bit
    }

    /// Which bit of the byte this is.
    pub closed spec fn index(&self) -> u8 {
        self.idx
    }

    /// The byte that the bit belongs to.
    pub closed spec fn target(&self) -> &'a mut u8 {
        self.source
    }

    /// The bit read agrees with the byte, and its index is a bit's.
    pub closed spec fn wf(&self) -> bool {
        self.idx < 8 && self.bit == bit_of(*self.source, self.idx)
    }

    /// Bit `idx` of `source`, for writing.
    pub fn new(source: &'a mut u8, idx: u8) -> (bit: Self)
        requires
            idx < 8,
        ensures
            bit.wf(),
            bit.index() == idx,
            *bit.target() == *old(source),
            *final(bit.target()) == *final(source),
            bit.value() == bit_of(*old(source), idx),
    {
        Self::new_unchecked(source, idx)
    }

    /// Bit `idx` of `source`, for writing, for callers that know `idx` to be
    /// below 8.
    pub fn new_unchecked(source: &'a mut u8, idx: u8) -> (bit: Self)
        requires
            idx < 8,
        ensures
            bit.wf(),
            bit.index() == idx,
            *bit.target() == *old(source),
            *final(bit.target()) == *final(source),
            bit.value() == bit_of(*old(source), idx),
    {
        let bit = (*source & (1u8 << idx)) != 0;
        Self { bit, source, idx }
    }

    /// Once nothing more will be written through it, the byte is as the
    /// bit leaves it.
    pub proof fn lemma_settled(bit: Self)
        requires
            has_resolved(bit),
        ensures
            *final(bit.target()) == *bit.target(),
    {
    }

    /// Reads the bit.
    pub fn get(&self) -> (bit: bool)
        ensures
            bit == self.value(),
    {
        self.bit
    }

    /// Writes the bit, in the byte too; the byte's other bits stay.
    pub fn set(&mut self, bit: bool)
        requires
            old(self).wf(),
        ensures
            final(self).wf(),
            final(self).value() == bit,
            final(self).index() == old(self).index(),
            *final(self).target() == with_bit(*old(self).target(), old(self).index(), bit),
            *final(final(self).target()) == *final(old(self).target()),
    {
        proof {
            lemma_with_bit(*self.source, self.idx, bit, self.idx);
        }
        self.bit = bit;
        if bit {
            *self.source = *self.source | (1u8 << self.idx);
        } else {
            *self.source = *self.source & !(1u8 << self.idx);
        }
    }
}

impl<'a> Deref for BitMut<'a> {
    type Target = bool;

    fn deref(&self) -> (bit: &bool)
        ensures
            *bit == self.value(),
    {
        &self.bit
    }
}

impl<'a> PartialEq for BitRef<'a> {
    fn eq(&self, other: &Self) -> (same: bool) {
        self.bit == other.bit
    }
}

impl<'a> PartialEqSpecImpl for BitRef<'a> {
    open spec fn obeys_eq_spec() -> bool {
        true
    }

    open spec fn eq_spec(&self, other: &Self) -> bool {
        self.value() == other.value()
    }
}

impl<'a> Eq for BitRef<'a> {

}

impl<'a> PartialEq<bool> for BitRef<'a> {
    fn eq(&self, other: &bool) -> (same: bool) {
        self.bit == *other
    }
}

impl<'a> PartialEqSpecImpl<bool> for BitRef<'a> {
    open spec fn obeys_eq_spec() -> bool {
        true
    }

    open spec fn eq_spec(&self, other: &bool) -> bool {
        self.value() == *other
    }
}

impl<'a> PartialEq for BitMut<'a> {
    fn eq(&self, other: &Self) -> (same: bool) {
        self.bit == other.bit && *self.source == *other.source && self.idx == other.idx
    }
}

impl<'a> PartialEqSpecImpl for BitMut<'a> {
    open spec fn obeys_eq_spec() -> bool {
        true
    }

    open spec fn eq_spec(&self, other: &Self) -> bool {
        self.value() == other.value() && *self.target() == *other.target() && self.index()
            == other.index()
    }
}

impl<'a> Eq for BitMut<'a> {

}

impl<'a> PartialEq<bool> for BitMut<'a> {
    fn eq(&self, other: &bool) -> (same: bool) {
        self.bit == *other
    }
}

impl<'a> PartialEqSpecImpl<bool> for BitMut<'a> {
    open spec fn obeys_eq_spec() -> bool {
        true
    }

    open spec fn eq_spec(&self, other: &bool) -> bool {
        self.value() == *other
    }
}

} // verus!

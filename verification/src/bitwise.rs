//! Selecting one bit position out of a slice of integers.
use vstd::arithmetic::power2::pow2;
use vstd::prelude::*;

verus! {

/// An unsigned primitive integer that can act as a bitmask.
pub trait Bitwise: Sized + Copy {
    /// The bit width of the type.
    spec fn width() -> nat;

    /// Whether bit `offset` of the value is set, i.e. `floor(value / 2^offset)` is odd.
    spec fn bit_is_set(self, offset: nat) -> bool;

    /// Tests bit `offset`, as `(value >> offset) & 1 != 0`.
    fn test_bit(self, offset: usize) -> (b: bool)
        requires
            offset < Self::width(),
        ensures
            b == self.bit_is_set(offset as nat),
    ;
}

impl Bitwise for u8 {
    open spec fn width() -> nat {
        8
    }

    open spec fn bit_is_set(self, offset: nat) -> bool {
        (self as nat / pow2(offset)) % 2 == 1
    }

    fn test_bit(self, offset: usize) -> (b: bool) {
        let o = offset as u8;
        let shifted = self >> o;
        proof {
            vstd::bits::lemma_u8_shr_is_div(self, o);
            assert((shifted & 1 != 0) <==> shifted % 2 == 1) by (bit_vector);
        }
        shifted & 1 != 0
    }
}

impl Bitwise for u16 {
    open spec fn width() -> nat {
        16
    }

    open spec fn bit_is_set(self, offset: nat) -> bool {
        (self as nat / pow2(offset)) % 2 == 1
    }

    fn test_bit(self, offset: usize) -> (b: bool) {
        let o = offset as u16;
        let shifted = self >> o;
        proof {
            vstd::bits::lemma_u16_shr_is_div(self, o);
            assert((shifted & 1 != 0) <==> shifted % 2 == 1) by (bit_vector);
        }
        shifted & 1 != 0
    }
}

impl Bitwise for u32 {
    open spec fn width() -> nat {
        32
    }

    open spec fn bit_is_set(self, offset: nat) -> bool {
        (self as nat / pow2(offset)) % 2 == 1
    }

    fn test_bit(self, offset: usize) -> (b: bool) {
        let o = offset as u32;
        let shifted = self >> o;
        proof {
            vstd::bits::lemma_u32_shr_is_div(self, o);
            assert((shifted & 1 != 0) <==> shifted % 2 == 1) by (bit_vector);
        }
        shifted & 1 != 0
    }
}

impl Bitwise for u64 {
    open spec fn width() -> nat {
        64
    }

    open spec fn bit_is_set(self, offset: nat) -> bool {
        (self as nat / pow2(offset)) % 2 == 1
    }

    fn test_bit(self, offset: usize) -> (b: bool) {
        let o = offset as u64;
        let shifted = self >> o;
        proof {
            vstd::bits::lemma_u64_shr_is_div(self, o);
            assert((shifted & 1 != 0) <==> shifted % 2 == 1) by (bit_vector);
        }
        shifted & 1 != 0
    }
}

impl Bitwise for u128 {
    open spec fn width() -> nat {
        128
    }

    open spec fn bit_is_set(self, offset: nat) -> bool {
        (self as nat / pow2(offset)) % 2 == 1
    }

    fn test_bit(self, offset: usize) -> (b: bool) {
        let o = offset as u128;
        let shifted = self >> o;
        proof {
            vstd::bits::lemma_u128_shr_is_div(self, o);
            assert((shifted & 1 != 0) <==> shifted % 2 == 1) by (bit_vector);
        }
        shifted & 1 != 0
    }
}

impl Bitwise for i8 {
    open spec fn width() -> nat {
        8
    }

    /// Bits of the two's complement representation.
    open spec fn bit_is_set(self, offset: nat) -> bool {
        ((self as u8) as nat / pow2(offset)) % 2 == 1
    }

    fn test_bit(self, offset: usize) -> (b: bool) {
        (self as u8).test_bit(offset)
    }
}

impl Bitwise for i16 {
    open spec fn width() -> nat {
        16
    }

    /// Bits of the two's complement representation.
    open spec fn bit_is_set(self, offset: nat) -> bool {
        ((self as u16) as nat / pow2(offset)) % 2 == 1
    }

    fn test_bit(self, offset: usize) -> (b: bool) {
        (self as u16).test_bit(offset)
    }
}

impl Bitwise for i32 {
    open spec fn width() -> nat {
        32
    }

    /// Bits of the two's complement representation.
    open spec fn bit_is_set(self, offset: nat) -> bool {
        ((self as u32) as nat / pow2(offset)) % 2 == 1
    }

    fn test_bit(self, offset: usize) -> (b: bool) {
        (self as u32).test_bit(offset)
    }
}

impl Bitwise for i64 {
    open spec fn width() -> nat {
        64
    }

    /// Bits of the two's complement representation.
    open spec fn bit_is_set(self, offset: nat) -> bool {
        ((self as u64) as nat / pow2(offset)) % 2 == 1
    }

    fn test_bit(self, offset: usize) -> (b: bool) {
        (self as u64).test_bit(offset)
    }
}

impl Bitwise for i128 {
    open spec fn width() -> nat {
        128
    }

    /// Bits of the two's complement representation.
    open spec fn bit_is_set(self, offset: nat) -> bool {
        ((self as u128) as nat / pow2(offset)) % 2 == 1
    }

    fn test_bit(self, offset: usize) -> (b: bool) {
        (self as u128).test_bit(offset)
    }
}

/// An adaptor that wraps a slice of integers and presents a random access sequence of bits at a
/// given offset: element `i` of the sequence is bit `bit_offset` of the `i`-th integer.
pub struct BitSelector<'a, B: Bitwise> {
    bit_offset: usize,
    slice: &'a [B],
}

impl<'a, B: Bitwise> BitSelector<'a, B> {
    /// The bit position this selector reads.
    pub closed spec fn offset(&self) -> nat {
        self.bit_offset as nat
    }

    /// The integers this selector reads from.
    pub closed spec fn words(&self) -> Seq<B> {
        self.slice@
    }

    /// The selected bits, one per integer.
    pub open spec fn bits(&self) -> Seq<bool> {
        Seq::new(self.words().len(), |i: int| self.words()[i].bit_is_set(self.offset()))
    }

    pub fn new(bit_offset: usize, slice: &'a [B]) -> (s: Self)
        ensures
            s.offset() == bit_offset,
            s.words() == slice@,
    {
        BitSelector { bit_offset, slice }
    }

    /// The number of selected bits, one per integer.
    pub fn len(&self) -> (n: usize)
        ensures
            n == self.words().len(),
    {
        self.slice.len()
    }

    /// Bit `bit_offset` of integer `index`.
    pub fn get(&self, index: usize) -> (b: bool)
        requires
            index < self.words().len(),
            self.offset() < B::width(),
        ensures
            b == self.bits()[index as int],
    {
        self.slice[index].test_bit(self.bit_offset)
    }
}

} // verus!

//! The floors of the tower that have names, and packed vectors of their elements.

use vstd::arithmetic::div_mod::lemma_div_denominator;
use vstd::arithmetic::power2::{lemma2_to64, lemma_pow2_adds, lemma_pow2_pos, pow2};
use vstd::bits::lemma_u32_shr_is_div;
use vstd::prelude::*;

use crate::bits::bit;
use crate::extension::{ExtensionField, PackedExtensionField};
use crate::field::BinaryField;
use crate::packed::{Packed, PackedField};
use crate::tower::{BinaryField1b, Quadratic};

verus! {

/// The field of 4 elements.
pub type BinaryField2b = Quadratic<BinaryField1b>;

/// The field of 16 elements.
pub type BinaryField4b = Quadratic<BinaryField2b>;

/// The field of 256 elements.
pub type BinaryField8b = Quadratic<BinaryField4b>;

/// The field of `2^16` elements.
pub type BinaryField16b = Quadratic<BinaryField8b>;

/// The field of `2^32` elements.
pub type BinaryField32b = Quadratic<BinaryField16b>;

/// 16 elements of the field of 256 elements.
pub type PackedBinaryField16x8b = Packed<BinaryField8b, 16>;

/// 8 elements of the field of `2^16` elements.
pub type PackedBinaryField8x16b = Packed<BinaryField16b, 8>;

/// 4 elements of the field of `2^32` elements.
pub type PackedBinaryField4x32b = Packed<BinaryField32b, 4>;

/// The digits of a shifted number.
proof fn lemma_shifted_bits(value: u32, h: u32, i: nat)
    requires
        h < 32,
    ensures
        bit((value >> h) as nat, i) == bit(value as nat, i + h as nat),
{
    lemma_u32_shr_is_div(value, h);
    lemma_pow2_pos(h as nat);
    lemma_pow2_pos(i);
    lemma_pow2_adds(h as nat, i);
    lemma_div_denominator(value as int, pow2(h as nat) as int, pow2(i) as int);
}

/// The element whose coordinate is the lowest digit of `value`.
fn field_1b(value: u32) -> (r: BinaryField1b)
    ensures
        r.coordinate(0) == bit(value as nat, 0),
{
    proof {
        lemma2_to64();
        assert((value & 1 == 1) == (value % 2 == 1)) by (bit_vector);
    }
    BinaryField1b { bit: value & 1 == 1 }
}

/// The element whose coordinates are the lowest 2 digits of `value`.
fn field_2b(value: u32) -> (r: BinaryField2b)
    ensures
        forall|i: nat| i < 2 ==> #[trigger] r.coordinate(i) == bit(value as nat, i),
{
    let r = Quadratic { lo: field_1b(value), hi: field_1b(value >> 1) };
    proof {
        lemma_shifted_bits(value, 1, 0);
        assert(r.coordinate(0) == r.lo.coordinate(0));
        assert(r.coordinate(1) == r.hi.coordinate(0));
    }
    r
}

/// The element whose coordinates are the lowest 4 digits of `value`.
fn field_4b(value: u32) -> (r: BinaryField4b)
    ensures
        forall|i: nat| i < 4 ==> #[trigger] r.coordinate(i) == bit(value as nat, i),
{
    let r = Quadratic { lo: field_2b(value), hi: field_2b(value >> 2) };
    proof {
        assert forall|i: nat| i < 4 implies #[trigger] r.coordinate(i) == bit(value as nat, i) by {
            if i >= 2 {
                lemma_shifted_bits(value, 2, (i - 2) as nat);
                assert(r.coordinate(i) == r.hi.coordinate((i - 2) as nat));
            } else {
                assert(r.coordinate(i) == r.lo.coordinate(i));
            }
        }
    }
    r
}

/// The element whose coordinates are the lowest 8 digits of `value`.
fn field_8b(value: u32) -> (r: BinaryField8b)
    ensures
        forall|i: nat| i < 8 ==> #[trigger] r.coordinate(i) == bit(value as nat, i),
{
    let r = Quadratic { lo: field_4b(value), hi: field_4b(value >> 4) };
    proof {
        assert forall|i: nat| i < 8 implies #[trigger] r.coordinate(i) == bit(value as nat, i) by {
            if i >= 4 {
                lemma_shifted_bits(value, 4, (i - 4) as nat);
                assert(r.coordinate(i) == r.hi.coordinate((i - 4) as nat));
            } else {
                assert(r.coordinate(i) == r.lo.coordinate(i));
            }
        }
    }
    r
}

/// The element whose coordinates are the lowest 16 digits of `value`.
fn field_16b(value: u32) -> (r: BinaryField16b)
    ensures
        forall|i: nat| i < 16 ==> #[trigger] r.coordinate(i) == bit(value as nat, i),
{
    let r = Quadratic { lo: field_8b(value), hi: field_8b(value >> 8) };
    proof {
        assert forall|i: nat| i < 16 implies #[trigger] r.coordinate(i) == bit(value as nat, i) by {
            if i >= 8 {
                lemma_shifted_bits(value, 8, (i - 8) as nat);
                assert(r.coordinate(i) == r.hi.coordinate((i - 8) as nat));
            } else {
                assert(r.coordinate(i) == r.lo.coordinate(i));
            }
        }
    }
    r
}

impl Quadratic<BinaryField4b> {
    /// The element whose coordinates are the binary digits of `value`.
    pub fn new(value: u8) -> (r: Self)
        ensures
            forall|i: nat| i < 8 ==> #[trigger] r.coordinate(i) == bit(value as nat, i),
    {
        field_8b(value as u32)
    }
}

impl Quadratic<BinaryField8b> {
    /// The element whose coordinates are the binary digits of `value`.
    pub fn new(value: u16) -> (r: Self)
        ensures
            forall|i: nat| i < 16 ==> #[trigger] r.coordinate(i) == bit(value as nat, i),
    {
        field_16b(value as u32)
    }
}

impl Quadratic<BinaryField16b> {
    /// The element whose coordinates are the binary digits of `value`.
    pub fn new(value: u32) -> (r: Self)
        ensures
            forall|i: nat| i < 32 ==> #[trigger] r.coordinate(i) == bit(value as nat, i),
    {
        let r = Quadratic { lo: field_16b(value), hi: field_16b(value >> 16) };
        proof {
            assert forall|i: nat| i < 32 implies #[trigger] r.coordinate(i) == bit(
                value as nat,
                i,
            ) by {
                if i >= 16 {
                    lemma_shifted_bits(value, 16, (i - 16) as nat);
                    assert(r.coordinate(i) == r.hi.coordinate((i - 16) as nat));
                } else {
                    assert(r.coordinate(i) == r.lo.coordinate(i));
                }
            }
        }
        r
    }
}

/// Four elements of four coefficients are sixteen elements.
impl PackedExtensionField<PackedBinaryField16x8b> for PackedBinaryField4x32b {
    open spec fn spec_bases() -> nat {
        1
    }

    proof fn bases_match_lanes() {
        assert(<PackedBinaryField4x32b as PackedField>::spec_width() == 4);
        assert(<PackedBinaryField16x8b as PackedField>::spec_width() == 16);
        assert(<BinaryField32b as ExtensionField<BinaryField8b>>::spec_degree() == 4);
    }

    fn bases() -> (r: usize) {
        1
    }
}

/// Four elements of two coefficients are eight elements.
impl PackedExtensionField<PackedBinaryField8x16b> for PackedBinaryField4x32b {
    open spec fn spec_bases() -> nat {
        1
    }

    proof fn bases_match_lanes() {
        assert(<PackedBinaryField4x32b as PackedField>::spec_width() == 4);
        assert(<PackedBinaryField8x16b as PackedField>::spec_width() == 8);
        assert(<BinaryField32b as ExtensionField<BinaryField16b>>::spec_degree() == 2);
    }

    fn bases() -> (r: usize) {
        1
    }
}

/// Eight elements of two coefficients are sixteen elements.
impl PackedExtensionField<PackedBinaryField16x8b> for PackedBinaryField8x16b {
    open spec fn spec_bases() -> nat {
        1
    }

    proof fn bases_match_lanes() {
        assert(<PackedBinaryField8x16b as PackedField>::spec_width() == 8);
        assert(<PackedBinaryField16x8b as PackedField>::spec_width() == 16);
        assert(<BinaryField16b as ExtensionField<BinaryField8b>>::spec_degree() == 2);
    }

    fn bases() -> (r: usize) {
        1
    }
}

} // verus!

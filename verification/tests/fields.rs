use additive_ntt::binary_field::{
    BinaryField16b, BinaryField32b, BinaryField8b, PackedBinaryField16x8b,
};
use additive_ntt::extension::{cast_from_bases, cast_to_bases, ExtensionField};
use additive_ntt::field::BinaryField;
use additive_ntt::packed::{pack_scalars, unpack_scalars, Packed, PackedField};
use additive_ntt::tower::{BinaryField1b, TowerField};

fn b8(value: u8) -> BinaryField8b {
    BinaryField8b::new(value)
}

fn b32(value: u32) -> BinaryField32b {
    BinaryField32b::new(value)
}

#[test]
fn addition_is_exclusive_or() {
    assert_eq!(b8(0x5a).add(b8(0x0f)), b8(0x55));
    assert_eq!(b8(0x5a).add(b8(0x5a)), BinaryField8b::zero());
    assert!(b8(0).is_zero());
    assert!(!b8(0x80).is_zero());
    assert_eq!(b8(1), BinaryField8b::one());
}

#[test]
fn adjoined_roots_satisfy_their_equations() {
    // X^2 = X + 1, Y^2 = XY + 1, Z^2 = YZ + 1
    assert_eq!(b8(0x02).square(), b8(0x03));
    assert_eq!(b8(0x04).square(), b8(0x09));
    assert_eq!(b8(0x10).square(), b8(0x41));
    assert_eq!(BinaryField16b::new(0x0100).square(), BinaryField16b::new(0x1001));
    assert_eq!(b32(0x0001_0000).square(), b32(0x0100_0001));
    assert_eq!(BinaryField8b::alpha(), b8(0x10));
    assert_eq!(b8(0x02).mul(b8(0x03)), b8(0x01));
    assert_eq!(b8(0x04).mul(b8(0x05)), b8(0x0d));
}

#[test]
fn inverses_multiply_to_one() {
    assert_eq!(b8(0).invert(), None);
    assert_eq!(b8(2).invert(), Some(b8(3)));
    assert_eq!(BinaryField1b { bit: true }.invert(), Some(BinaryField1b { bit: true }));
    for value in 1..=255u8 {
        let inverse = b8(value).invert().unwrap();
        assert_eq!(b8(value).mul(inverse), BinaryField8b::one());
    }
    for value in [1u32, 2, 3, 0x8000_0000, 0xdead_beef, 0xffff_ffff] {
        let inverse = b32(value).invert().unwrap();
        assert_eq!(b32(value).mul(inverse), BinaryField32b::one());
    }
}

#[test]
fn multiplication_is_associative_and_distributive() {
    for a in [1u8, 2, 0x1d, 0x80, 0xff] {
        for b in [0u8, 3, 0x2a, 0x91] {
            for c in [7u8, 0x40, 0xc3] {
                assert_eq!(b8(a).mul(b8(b)).mul(b8(c)), b8(a).mul(b8(b).mul(b8(c))));
                assert_eq!(
                    b8(a).mul(b8(b).add(b8(c))),
                    b8(a).mul(b8(b)).add(b8(a).mul(b8(c)))
                );
                assert_eq!(b8(a).mul(b8(b)), b8(b).mul(b8(a)));
            }
        }
    }
}

#[test]
fn basis_vectors_are_single_digits() {
    assert_eq!(BinaryField8b::n_bits(), 8);
    assert_eq!(BinaryField16b::n_bits(), 16);
    assert_eq!(BinaryField32b::n_bits(), 32);
    for i in 0..8 {
        assert_eq!(BinaryField8b::basis(i), Some(b8(1 << i)));
    }
    assert_eq!(BinaryField8b::basis(8), None);
    assert_eq!(BinaryField32b::basis(31), Some(b32(0x8000_0000)));
    assert_eq!(BinaryField32b::basis(32), None);
    assert_eq!(BinaryField8b::basis(usize::MAX), None);
}

#[test]
fn coefficients_over_subfields_are_groups_of_digits() {
    let x = b32(0x1234_5678);
    assert_eq!(<BinaryField32b as ExtensionField<BinaryField8b>>::degree(), 4);
    assert_eq!(<BinaryField32b as ExtensionField<BinaryField16b>>::degree(), 2);
    assert_eq!(<BinaryField32b as ExtensionField<BinaryField32b>>::degree(), 1);
    let bytes: Vec<BinaryField8b> = (0..4).map(|d| x.coefficient(d)).collect();
    assert_eq!(bytes, vec![b8(0x78), b8(0x56), b8(0x34), b8(0x12)]);
    let halves: Vec<BinaryField16b> = (0..2).map(|d| x.coefficient(d)).collect();
    assert_eq!(halves, vec![BinaryField16b::new(0x5678), BinaryField16b::new(0x1234)]);
    assert_eq!(BinaryField32b::from_coefficients(&bytes), x);
    assert_eq!(BinaryField32b::from_coefficients(&halves), x);
    assert_eq!(BinaryField32b::from_coefficients(&[x]), x);
    // Multiplication by an element of the subfield acts on each coefficient.
    let scaled: Vec<BinaryField8b> = bytes.iter().map(|byte| byte.mul(b8(0x53))).collect();
    assert_eq!(BinaryField32b::from_coefficients(&scaled), x.mul(b32(0x53)));
}

fn packed(values: [u8; 16]) -> PackedBinaryField16x8b {
    Packed { scalars: values.map(b8) }
}

#[test]
fn lanes_are_independent() {
    let mut a = PackedBinaryField16x8b::zeros();
    a.set(3, b8(7));
    assert_eq!(a.get(3), b8(7));
    assert_eq!(a.get(4), b8(0));
    let twice = a.add_lanes(a);
    assert_eq!(twice, PackedBinaryField16x8b::zeros());
    assert_eq!(a.scale(b8(2)).get(3), b8(7).mul(b8(2)));
    assert_eq!(a.mul_lanes(a).get(3), b8(7).square());
    assert_eq!(PackedBinaryField16x8b::width(), 16);
    assert_eq!(BinaryField8b::width(), 1);
}

#[test]
fn interleaving_transposes_blocks() {
    let a = packed([0, 1, 2, 3, 4, 5, 6, 7, 8, 9, 10, 11, 12, 13, 14, 15]);
    let b = packed([16, 17, 18, 19, 20, 21, 22, 23, 24, 25, 26, 27, 28, 29, 30, 31]);
    let (c, d) = a.interleave(b, 0);
    assert_eq!(c, packed([0, 16, 2, 18, 4, 20, 6, 22, 8, 24, 10, 26, 12, 28, 14, 30]));
    assert_eq!(d, packed([1, 17, 3, 19, 5, 21, 7, 23, 9, 25, 11, 27, 13, 29, 15, 31]));
    let (c, d) = a.interleave(b, 2);
    assert_eq!(c, packed([0, 1, 2, 3, 16, 17, 18, 19, 8, 9, 10, 11, 24, 25, 26, 27]));
    assert_eq!(d, packed([4, 5, 6, 7, 20, 21, 22, 23, 12, 13, 14, 15, 28, 29, 30, 31]));
    assert_eq!(c.interleave(d, 2), (a, b));
}

#[test]
fn packing_keeps_the_order() {
    let a = packed([0, 1, 2, 3, 4, 5, 6, 7, 8, 9, 10, 11, 12, 13, 14, 15]);
    let scalars = unpack_scalars(&[a, a]);
    assert_eq!(scalars.len(), 32);
    assert_eq!(scalars[17], b8(1));
    let mut data = [PackedBinaryField16x8b::zeros(); 2];
    pack_scalars(&mut data, &scalars);
    assert_eq!(data, [a, a]);
}

#[test]
fn casting_to_bases_keeps_the_order() {
    type Wide = additive_ntt::binary_field::PackedBinaryField4x32b;
    let element: Wide =
        Packed { scalars: [b32(0x0302_0100), b32(0x0706_0504), b32(0x0b0a_0908), b32(0x0f0e_0d0c)] };
    let bases: Vec<PackedBinaryField16x8b> = cast_to_bases(&[element]);
    assert_eq!(bases, vec![packed([0, 1, 2, 3, 4, 5, 6, 7, 8, 9, 10, 11, 12, 13, 14, 15])]);
    let mut back = [Wide::zeros()];
    cast_from_bases(&mut back, &bases);
    assert_eq!(back, [element]);
}

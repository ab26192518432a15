use additive_ntt::additive_ntt::extension_log_batch_size;
use additive_ntt::binary_field::{
    BinaryField32b, BinaryField8b, PackedBinaryField16x8b, PackedBinaryField4x32b,
};
use additive_ntt::bits::{count_bits, exact_log2, join_bits, power_of_two, test_bit};
use additive_ntt::extension::ExtensionField;
use additive_ntt::field::BinaryField;
use additive_ntt::packed::{pack_scalars, unpack_scalars, Packed, PackedField};
use additive_ntt::params::{check_batch_transform_inputs, NTTParams};
use additive_ntt::subspace::{precompute_subspace_evals, subset_sum, subspace_map};
use additive_ntt::{AdditiveNTT, AdditiveNTTWithOTFCompute, AdditiveNTTWithPrecompute, Error};
use rand::rngs::StdRng;
use rand::{Rng, SeedableRng};

type Otf = AdditiveNTTWithOTFCompute<BinaryField8b>;
type Pre = AdditiveNTTWithPrecompute<BinaryField8b>;

fn b8(value: u8) -> BinaryField8b {
    BinaryField8b::new(value)
}

fn random_scalars(seed: u64, len: usize) -> Vec<BinaryField8b> {
    let mut rng = StdRng::seed_from_u64(seed);
    (0..len).map(|_| b8(rng.gen())).collect()
}

/// The point of the domain with the given index: in the tower its digits are its coordinates.
fn point(index: usize) -> BinaryField8b {
    b8(index as u8)
}

/// `W_i` as the product over its roots.
fn vanishing(i: usize, x: BinaryField8b) -> BinaryField8b {
    (0..1usize << i).fold(BinaryField8b::one(), |acc, u| acc.mul(x.add(point(u))))
}

fn normalized(i: usize, x: BinaryField8b) -> BinaryField8b {
    vanishing(i, x).mul(vanishing(i, point(1 << i)).invert().unwrap())
}

/// The value of a polynomial given in the novel basis.
fn evaluate(coefficients: &[BinaryField8b], x: BinaryField8b) -> BinaryField8b {
    let mut total = BinaryField8b::zero();
    for (m, coefficient) in coefficients.iter().enumerate() {
        let mut term = *coefficient;
        for i in 0..8 {
            if (m >> i) & 1 != 0 {
                term = term.mul(normalized(i, x));
            }
        }
        total = total.add(term);
    }
    total
}

#[test]
fn subspace_evaluations_are_those_of_the_polynomials() {
    let otf = Otf::new(8).unwrap();
    let pre = Pre::new(8).unwrap();
    assert_eq!(otf.get_subspace_eval(0, 1), b8(2));
    assert_eq!(otf.get_subspace_eval(1, 2), b8(0x0d));
    assert_eq!(otf.get_subspace_eval(3, 3), b8(1));
    assert_eq!(otf.get_subspace_eval(3, 2), b8(0));
    for i in 0..8 {
        for j in 0..8 {
            let expected = normalized(i, point(1 << j));
            assert_eq!(otf.get_subspace_eval(i, j), expected);
            assert_eq!(pre.get_subspace_eval(i, j), expected);
        }
    }
}

#[test]
fn tables_of_subspace_evaluations() {
    assert_eq!(
        precompute_subspace_evals::<BinaryField8b>(3),
        Ok(vec![vec![b8(2), b8(4)], vec![b8(0x0d)], vec![]])
    );
    assert_eq!(precompute_subspace_evals::<BinaryField8b>(0), Ok(vec![vec![]]));
    assert_eq!(
        precompute_subspace_evals::<BinaryField8b>(9),
        Err(Error::FieldTooSmall { log_domain_size: 9 })
    );
    assert_eq!(subspace_map(b8(4), b8(1)), b8(0x0d));
}

#[test]
fn subset_sums_follow_the_digits() {
    let values = [b8(1), b8(2), b8(4), b8(8)];
    assert_eq!(subset_sum(&values, 4, 0b1010), b8(0b1010));
    assert_eq!(subset_sum(&values, 2, 0b1011), b8(0b0011));
    assert_eq!(subset_sum(&values, 0, 0b1011), b8(0));
    assert_eq!(subset_sum(&values, 60, 0b0101), b8(0b0101));
}

#[test]
fn two_coefficients_by_hand() {
    let otf = Otf::new(8).unwrap();
    let mut data = vec![b8(1), b8(2)];
    otf.forward_transform(&mut data, 0, 0).unwrap();
    assert_eq!(data, vec![b8(1), b8(3)]);
    let mut data = vec![b8(1), b8(2)];
    otf.forward_transform(&mut data, 1, 0).unwrap();
    assert_eq!(data, vec![b8(2), b8(0)]);
    otf.inverse_transform(&mut data, 1, 0).unwrap();
    assert_eq!(data, vec![b8(1), b8(2)]);
}

#[test]
fn forward_transforms_evaluate_the_polynomial() {
    let otf = Otf::new(8).unwrap();
    let pre = Pre::new(8).unwrap();
    for log_n in 0..6 {
        let n = 1usize << log_n;
        let coefficients = random_scalars(log_n as u64, n);
        for coset in 0..(256 / n).min(4) {
            let expected: Vec<BinaryField8b> =
                (0..n).map(|e| evaluate(&coefficients, point(coset * n + e))).collect();
            let mut data = coefficients.clone();
            otf.forward_transform(&mut data, coset as u32, 0).unwrap();
            assert_eq!(data, expected);
            let mut data = coefficients.clone();
            pre.forward_transform(&mut data, coset as u32, 0).unwrap();
            assert_eq!(data, expected);
            pre.inverse_transform(&mut data, coset as u32, 0).unwrap();
            assert_eq!(data, coefficients);
        }
    }
}

#[test]
fn columns_of_a_batch_are_transformed_independently() {
    let otf = Otf::new(8).unwrap();
    let pre = Pre::new(8).unwrap();
    for log_batch in 0..6 {
        let columns = 1usize << log_batch;
        let before: Vec<PackedBinaryField16x8b> = {
            let mut data = vec![PackedBinaryField16x8b::zeros(); 4];
            pack_scalars(&mut data, &random_scalars(7, 64));
            data
        };
        let scalars = unpack_scalars(&before);
        let mut after = before.clone();
        otf.forward_transform(&mut after, 1, log_batch).unwrap();
        let mut after_2 = before.clone();
        pre.forward_transform(&mut after_2, 1, log_batch).unwrap();
        assert_eq!(after, after_2);
        let result = unpack_scalars(&after);
        for c in 0..columns {
            let mut column: Vec<BinaryField8b> =
                scalars.iter().skip(c).step_by(columns).copied().collect();
            otf.forward_transform(&mut column, 1, 0).unwrap();
            let got: Vec<BinaryField8b> =
                result.iter().skip(c).step_by(columns).copied().collect();
            assert_eq!(got, column);
        }
        pre.inverse_transform(&mut after, 1, log_batch).unwrap();
        assert_eq!(after, before);
        otf.inverse_transform(&mut after_2, 1, log_batch).unwrap();
        assert_eq!(after_2, before);
    }
}

#[test]
fn packing_does_not_matter() {
    let pre = Pre::new(8).unwrap();
    let scalars = random_scalars(3, 16);
    let mut single = vec![PackedBinaryField16x8b::zeros()];
    pack_scalars(&mut single, &scalars);
    let mut halves = vec![Packed::<BinaryField8b, 8>::zeros(); 2];
    pack_scalars(&mut halves, &scalars);
    let mut flat = scalars.clone();
    pre.forward_transform(&mut single, 5, 1).unwrap();
    pre.forward_transform(&mut halves, 5, 1).unwrap();
    pre.forward_transform(&mut flat, 5, 1).unwrap();
    assert_eq!(unpack_scalars(&single), flat);
    assert_eq!(unpack_scalars(&halves), flat);
    pre.inverse_transform(&mut single, 5, 1).unwrap();
    assert_eq!(unpack_scalars(&single), scalars);
    pre.inverse_transform(&mut halves, 5, 1).unwrap();
    assert_eq!(unpack_scalars(&halves), scalars);
}

#[test]
fn packing_does_not_matter_to_errors() {
    let otf = Otf::new(4).unwrap();
    let pre = Pre::new(4).unwrap();
    for (len, coset, log_batch, error) in [
        (3, 0, 0, Error::PowerOfTwoLengthRequired),
        (2, 0, 6, Error::BatchTooLarge),
        (2, 0, 0, Error::DomainTooSmall { log_required_domain_size: 5 }),
        (1, 3, 1, Error::DomainTooSmall { log_required_domain_size: 5 }),
    ] {
        let mut packed = vec![PackedBinaryField16x8b::zeros(); len];
        let mut flat = unpack_scalars(&packed);
        assert_eq!(otf.forward_transform(&mut packed, coset, log_batch), Err(error));
        assert_eq!(otf.forward_transform(&mut flat, coset, log_batch), Err(error));
        assert_eq!(pre.inverse_transform(&mut packed, coset, log_batch), Err(error));
        assert_eq!(pre.inverse_transform(&mut flat, coset, log_batch), Err(error));
    }
}

#[test]
fn twiddle_vectors_agree() {
    let otf = Otf::new(8).unwrap();
    let pre = Pre::new(8).unwrap();
    let row = random_scalars(21, 5);
    let table: Vec<BinaryField8b> = (0..32).map(|m| subset_sum(&row, 5, m)).collect();
    for log_blocks_count in 0..4 {
        let log_block_len = 3 - log_blocks_count;
        for init in (0..32).step_by(2 << log_blocks_count) {
            let looked_up: PackedBinaryField16x8b =
                pre.calculate_twiddle(&table, log_blocks_count, log_block_len, init);
            let derived: PackedBinaryField16x8b =
                otf.calculate_twiddle(&row, log_blocks_count, log_block_len, table[init]);
            assert_eq!(looked_up, derived);
        }
    }
}

#[test]
fn twiddle_vectors_by_hand() {
    let otf = Otf::new(8).unwrap();
    let pre = Pre::new(8).unwrap();
    let lanes = |p: Packed<BinaryField8b, 8>| p.scalars.to_vec();
    let values = |v: [u8; 8]| v.map(b8).to_vec();
    let row = [b8(1), b8(2), b8(4)];
    assert_eq!(
        lanes(otf.calculate_twiddle(&row, 1, 1, b8(0x10))),
        values([0x10, 0x10, 0x12, 0x12, 0x11, 0x11, 0x13, 0x13])
    );
    // Lanes behind the blocks are zero.
    assert_eq!(
        lanes(otf.calculate_twiddle(&row, 1, 0, b8(0x10))),
        values([0x10, 0x12, 0x11, 0x13, 0, 0, 0, 0])
    );
    let table: Vec<BinaryField8b> = (0x20..0x28).map(b8).collect();
    assert_eq!(
        lanes(pre.calculate_twiddle(&table, 1, 1, 4)),
        values([0x24, 0x24, 0x26, 0x26, 0x25, 0x25, 0x27, 0x27])
    );
    assert_eq!(
        lanes(pre.calculate_twiddle(&table, 1, 0, 4)),
        values([0x24, 0x26, 0x25, 0x27, 0, 0, 0, 0])
    );
    // The digits of the block are joined to those of the index.
    assert_eq!(
        lanes(pre.calculate_twiddle(&table, 1, 1, 5)),
        values([0x25, 0x25, 0x27, 0x27, 0x25, 0x25, 0x27, 0x27])
    );
}

#[test]
fn size_of_the_domain_does_not_matter() {
    let small = Otf::new(5).unwrap();
    let large = Pre::new(8).unwrap();
    let mut a = random_scalars(11, 8);
    let mut b = a.clone();
    small.forward_transform(&mut a, 3, 0).unwrap();
    large.forward_transform(&mut b, 3, 0).unwrap();
    assert_eq!(a, b);
    small.inverse_transform(&mut a, 2, 0).unwrap();
    large.inverse_transform(&mut b, 2, 0).unwrap();
    assert_eq!(a, b);
}

#[test]
fn transforms_are_linear() {
    let otf = Otf::new(8).unwrap();
    let mut a = random_scalars(1, 16);
    let mut b = random_scalars(2, 16);
    let mut sum: Vec<BinaryField8b> = a.iter().zip(&b).map(|(x, y)| x.add(*y)).collect();
    let mut scaled: Vec<BinaryField8b> = a.iter().map(|x| b8(0x5d).mul(*x)).collect();
    otf.forward_transform(&mut a, 2, 0).unwrap();
    otf.forward_transform(&mut b, 2, 0).unwrap();
    otf.forward_transform(&mut sum, 2, 0).unwrap();
    otf.forward_transform(&mut scaled, 2, 0).unwrap();
    for p in 0..16 {
        assert_eq!(sum[p], a[p].add(b[p]));
        assert_eq!(scaled[p], b8(0x5d).mul(a[p]));
    }
}

#[test]
fn cosets_tile_the_domain() {
    let otf = Otf::new(8).unwrap();
    let coefficients = random_scalars(4, 8);
    let mut padded = coefficients.clone();
    padded.resize(16, BinaryField8b::zero());
    otf.forward_transform(&mut padded, 3, 0).unwrap();
    let mut low = coefficients.clone();
    otf.forward_transform(&mut low, 6, 0).unwrap();
    let mut high = coefficients;
    otf.forward_transform(&mut high, 7, 0).unwrap();
    assert_eq!(padded[..8], low[..]);
    assert_eq!(padded[8..], high[..]);
}

#[test]
fn roots_of_subspace_polynomials() {
    for i in 0..5 {
        for t in 0..256 {
            assert_eq!(normalized(i, point(t)).is_zero(), t < 1 << i);
        }
    }
}

#[test]
fn interpolation_is_unique() {
    let otf = Otf::new(8).unwrap();
    let mut seen = Vec::new();
    for value in 0..256usize {
        let mut data = vec![b8(value as u8), b8((value >> 3) as u8)];
        otf.inverse_transform(&mut data, 9, 0).unwrap();
        assert!(!seen.contains(&data));
        seen.push(data);
    }
}

#[test]
fn extension_transforms_evaluate_over_the_extension() {
    let mut rng = StdRng::seed_from_u64(5);
    let otf = Otf::new(8).unwrap();
    let coefficients: Vec<BinaryField32b> =
        (0..4).map(|_| BinaryField32b::new(rng.gen())).collect();
    let mut data = coefficients.clone();
    AdditiveNTT::<BinaryField8b>::forward_transform_ext(&otf, &mut data, 2).unwrap();
    for e in 0..4 {
        for d in 0..4 {
            let part: Vec<BinaryField8b> = coefficients.iter().map(|c| c.coefficient(d)).collect();
            let got: BinaryField8b = data[e].coefficient(d);
            assert_eq!(got, evaluate(&part, point(2 * 4 + e)));
        }
    }
    let pre = Pre::new(5).unwrap();
    let mut data_2 = coefficients.clone();
    AdditiveNTT::<BinaryField8b>::forward_transform_ext(&pre, &mut data_2, 2).unwrap();
    assert_eq!(data_2, data);
    AdditiveNTT::<BinaryField8b>::inverse_transform_ext(&otf, &mut data, 2).unwrap();
    assert_eq!(data, coefficients);
    AdditiveNTT::<BinaryField8b>::inverse_transform_ext(&pre, &mut data_2, 2).unwrap();
    assert_eq!(data_2, coefficients);
}

#[test]
fn extension_transforms_report_errors() {
    let otf = Otf::new(3).unwrap();
    let element: PackedBinaryField4x32b = Packed {
        scalars: [
            BinaryField32b::new(1),
            BinaryField32b::new(2),
            BinaryField32b::new(3),
            BinaryField32b::new(4),
        ],
    };
    let mut data = vec![element; 4];
    assert_eq!(
        AdditiveNTT::<PackedBinaryField16x8b>::forward_transform_ext(&otf, &mut data, 0),
        Err(Error::DomainTooSmall { log_required_domain_size: 4 })
    );
    assert_eq!(data, vec![element; 4]);
    let mut data = vec![element; 3];
    assert_eq!(
        AdditiveNTT::<PackedBinaryField16x8b>::inverse_transform_ext(&otf, &mut data, 0),
        Err(Error::PowerOfTwoLengthRequired)
    );
    let mut data: Vec<PackedBinaryField4x32b> = vec![];
    assert_eq!(
        AdditiveNTT::<PackedBinaryField16x8b>::inverse_transform_ext(&otf, &mut data, 9),
        Ok(())
    );
}

#[test]
fn batch_sizes_of_extensions() {
    assert_eq!(extension_log_batch_size(1), Ok(0));
    assert_eq!(extension_log_batch_size(4), Ok(2));
    assert_eq!(extension_log_batch_size(1 << 20), Ok(20));
    assert_eq!(extension_log_batch_size(0), Err(Error::PowerOfTwoExtensionDegreeRequired));
    assert_eq!(extension_log_batch_size(3), Err(Error::PowerOfTwoExtensionDegreeRequired));
    assert_eq!(extension_log_batch_size(12), Err(Error::PowerOfTwoExtensionDegreeRequired));
}

#[test]
fn constructors_need_a_large_enough_field() {
    assert!(Otf::new(8).is_ok());
    assert!(Otf::new(0).is_ok());
    assert!(Pre::new(0).is_ok());
    assert_eq!(Otf::new(9).err(), Some(Error::FieldTooSmall { log_domain_size: 9 }));
    assert_eq!(Pre::new(9).err(), Some(Error::FieldTooSmall { log_domain_size: 9 }));
    assert_eq!(
        Pre::new(usize::MAX).err(),
        Some(Error::FieldTooSmall { log_domain_size: usize::MAX })
    );
}

#[test]
fn transforms_report_errors_and_leave_the_data() {
    let otf = Otf::new(4).unwrap();
    let pre = Pre::new(4).unwrap();
    let cases = [
        (3, 0, 0, Error::PowerOfTwoLengthRequired),
        (4, 0, 3, Error::BatchTooLarge),
        (32, 0, 0, Error::DomainTooSmall { log_required_domain_size: 5 }),
        (8, 2, 0, Error::DomainTooSmall { log_required_domain_size: 5 }),
        (2, u32::MAX, 0, Error::DomainTooSmall { log_required_domain_size: 33 }),
    ];
    for (len, coset, log_batch, error) in cases {
        let before = random_scalars(len as u64, len);
        let mut data = before.clone();
        assert_eq!(otf.forward_transform(&mut data, coset, log_batch), Err(error));
        assert_eq!(otf.inverse_transform(&mut data, coset, log_batch), Err(error));
        assert_eq!(pre.forward_transform(&mut data, coset, log_batch), Err(error));
        assert_eq!(pre.inverse_transform(&mut data, coset, log_batch), Err(error));
        assert_eq!(data, before);
    }
    let mut odd = vec![Packed::<BinaryField8b, 3>::zeros(); 2];
    assert_eq!(
        otf.forward_transform(&mut odd, 0, 0),
        Err(Error::PackingWidthMustDivideDimension)
    );
    // The lanes of a single packed element count as its length.
    assert_eq!(otf.forward_transform(&mut odd[..1], 0, 0), Err(Error::PowerOfTwoLengthRequired));
}

#[test]
fn at_most_one_scalar_is_left_as_it_is() {
    let otf = Otf::new(2).unwrap();
    let mut empty: Vec<BinaryField8b> = vec![];
    assert_eq!(otf.forward_transform(&mut empty, u32::MAX, 100), Ok(()));
    assert_eq!(otf.inverse_transform(&mut empty, u32::MAX, 100), Ok(()));
    let mut one = vec![b8(0x77)];
    assert_eq!(otf.forward_transform(&mut one, u32::MAX, 100), Ok(()));
    assert_eq!(otf.inverse_transform(&mut one, u32::MAX, 100), Ok(()));
    assert_eq!(one, vec![b8(0x77)]);
}

#[test]
fn whole_batches_of_constants_are_left_as_they_are() {
    let otf = Otf::new(8).unwrap();
    let before = random_scalars(8, 16);
    let mut data = before.clone();
    otf.forward_transform(&mut data, 200, 4).unwrap();
    assert_eq!(data, before);
}

#[test]
fn sizes_of_accepted_transforms() {
    let data = vec![PackedBinaryField16x8b::zeros(); 4];
    assert_eq!(
        check_batch_transform_inputs(9, &data, 5, 0),
        Ok(NTTParams { log_n: 6, log_w: 4, coset_bits: 3 })
    );
    assert_eq!(
        check_batch_transform_inputs(8, &data, 5, 0),
        Err(Error::DomainTooSmall { log_required_domain_size: 9 })
    );
    assert_eq!(
        check_batch_transform_inputs(0, &data, 0, 6),
        Ok(NTTParams { log_n: 0, log_w: 4, coset_bits: 0 })
    );
    assert_eq!(check_batch_transform_inputs(8, &data, 0, 7), Err(Error::BatchTooLarge));
    assert_eq!(
        check_batch_transform_inputs(8, &data[..0], 0, 0),
        Err(Error::PowerOfTwoLengthRequired)
    );
    let narrow = vec![Packed::<BinaryField8b, 6>::zeros(); 2];
    assert_eq!(
        check_batch_transform_inputs(8, &narrow, 0, 0),
        Err(Error::PackingWidthMustDivideDimension)
    );
}

#[test]
fn digits_and_powers() {
    assert_eq!(power_of_two(0), 1);
    assert_eq!(power_of_two(10), 1024);
    assert_eq!(join_bits(0b101, 3, 0b011), 0b101011);
    assert!(test_bit(0b100, 2));
    assert!(!test_bit(0b100, 1));
    assert_eq!(exact_log2(1), Some(0));
    assert_eq!(exact_log2(64), Some(6));
    assert_eq!(exact_log2(0), None);
    assert_eq!(exact_log2(96), None);
    assert_eq!(exact_log2(1 << 63), Some(63));
    assert_eq!(count_bits(0), 0);
    assert_eq!(count_bits(1), 1);
    assert_eq!(count_bits(5), 3);
    assert_eq!(count_bits(u32::MAX), 32);
}

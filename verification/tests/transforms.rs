use additive_ntt::binary_field::{
    BinaryField16b, BinaryField32b, BinaryField8b, PackedBinaryField16x8b, PackedBinaryField4x32b,
    PackedBinaryField8x16b,
};
use additive_ntt::extension::ExtensionField;
use additive_ntt::field::BinaryField;
use additive_ntt::packed::{unpack_scalars, PackedField};
use additive_ntt::{AdditiveNTT, AdditiveNTTWithOTFCompute, AdditiveNTTWithPrecompute, Error};
use rand::rngs::StdRng;
use rand::{Rng, SeedableRng};
use std::fmt::Debug;

/// Transforms of scalars that go through the stages one by one.
trait SimpleAdditiveNTT<F: BinaryField> {
    fn dimensions(&self) -> usize;

    fn eval(&self, i: usize, j: usize) -> F;

    /// The twiddle factor of block `index` of stage `i`.
    fn twiddle(&self, i: usize, index: usize) -> F {
        let mut total = F::zero();
        for b in 0..usize::BITS as usize {
            if (index >> b) & 1 != 0 {
                total = total.add(self.eval(i, i + 1 + b));
            }
        }
        total
    }

    fn check(&self, n: usize, coset: u32) -> Result<usize, Error> {
        assert!(n.is_power_of_two());
        let log_n = n.trailing_zeros() as usize;
        let coset_bits = 32 - coset.leading_zeros() as usize;
        if log_n + coset_bits > self.dimensions() {
            return Err(Error::DomainTooSmall { log_required_domain_size: log_n + coset_bits });
        }
        Ok(log_n)
    }

    fn forward_transform_simple<FF: ExtensionField<F>>(
        &self,
        data: &mut [FF],
        coset: u32,
    ) -> Result<(), Error> {
        let log_n = self.check(data.len(), coset)?;
        for i in (0..log_n).rev() {
            for j in 0..1 << (log_n - 1 - i) {
                let t: FF = embed(self.twiddle(i, (coset as usize) << (log_n - 1 - i) | j));
                for k in 0..1 << i {
                    let idx0 = j << (i + 1) | k;
                    let idx1 = idx0 | 1 << i;
                    data[idx0] = data[idx0].add(data[idx1].mul(t));
                    data[idx1] = data[idx1].add(data[idx0]);
                }
            }
        }
        Ok(())
    }

    fn inverse_transform_simple<FF: ExtensionField<F>>(
        &self,
        data: &mut [FF],
        coset: u32,
    ) -> Result<(), Error> {
        let log_n = self.check(data.len(), coset)?;
        for i in 0..log_n {
            for j in 0..1 << (log_n - 1 - i) {
                let t: FF = embed(self.twiddle(i, (coset as usize) << (log_n - 1 - i) | j));
                for k in 0..1 << i {
                    let idx0 = j << (i + 1) | k;
                    let idx1 = idx0 | 1 << i;
                    data[idx1] = data[idx1].add(data[idx0]);
                    data[idx0] = data[idx0].add(data[idx1].mul(t));
                }
            }
        }
        Ok(())
    }
}

/// An element of the subfield as an element of the extension.
fn embed<F: BinaryField, FF: ExtensionField<F>>(x: F) -> FF {
    let mut coefficients = vec![F::zero(); FF::degree()];
    coefficients[0] = x;
    FF::from_coefficients(&coefficients)
}

struct Otf<F: BinaryField>(AdditiveNTTWithOTFCompute<F>, usize);

struct Precomputed<F: BinaryField>(AdditiveNTTWithPrecompute<F>, usize);

impl<F: BinaryField> SimpleAdditiveNTT<F> for Otf<F> {
    fn dimensions(&self) -> usize {
        self.1
    }

    fn eval(&self, i: usize, j: usize) -> F {
        self.0.get_subspace_eval(i, j)
    }
}

impl<F: BinaryField> SimpleAdditiveNTT<F> for Precomputed<F> {
    fn dimensions(&self) -> usize {
        self.1
    }

    fn eval(&self, i: usize, j: usize) -> F {
        self.0.get_subspace_eval(i, j)
    }
}

fn otf<F: BinaryField + Debug>(log_domain_size: usize) -> Otf<F> {
    Otf(AdditiveNTTWithOTFCompute::new(log_domain_size).unwrap(), log_domain_size)
}

fn precomputed<F: BinaryField + Debug>(log_domain_size: usize) -> Precomputed<F> {
    Precomputed(AdditiveNTTWithPrecompute::new(log_domain_size).unwrap(), log_domain_size)
}

fn counting_data() -> Vec<BinaryField8b> {
    (0..1 << 6).map(|i| BinaryField8b::new(i as u8)).collect()
}

fn random_8b(rng: &mut StdRng) -> BinaryField8b {
    BinaryField8b::new(rng.gen())
}

fn random_16b(rng: &mut StdRng) -> BinaryField16b {
    BinaryField16b::new(rng.gen())
}

fn random_32b(rng: &mut StdRng) -> BinaryField32b {
    BinaryField32b::new(rng.gen())
}

fn random_packed<P: PackedField>(
    rng: &mut StdRng,
    scalar: fn(&mut StdRng) -> P::Scalar,
    len: usize,
) -> Vec<P> {
    let mut data = Vec::new();
    for _ in 0..len {
        let mut element = P::zeros();
        for l in 0..P::width() {
            element.set(l, scalar(rng));
        }
        data.push(element);
    }
    data
}

#[test]
fn test_additive_ntt_fails_with_field_too_small() {
    assert!(matches!(
        <AdditiveNTTWithOTFCompute<BinaryField8b>>::new(10),
        Err(Error::FieldTooSmall { log_domain_size: 10 })
    ));
}

#[test]
fn test_additive_ntt_transform() {
    let ntt = otf::<BinaryField8b>(8);
    let data = counting_data();

    let mut result = data.clone();
    for coset in 0..4 {
        ntt.inverse_transform_simple(&mut result, coset).unwrap();
        ntt.forward_transform_simple(&mut result, coset).unwrap();
        assert_eq!(result, data);
    }

    for coset in 0..4 {
        ntt.0.inverse_transform(&mut result, coset, 0).unwrap();
        assert_ne!(result, data);
        ntt.0.forward_transform(&mut result, coset, 0).unwrap();
        assert_eq!(result, data);
    }
}

#[test]
fn test_additive_ntt_with_precompute_matches() {
    let ntt = otf::<BinaryField8b>(8);
    let ntt_with_precompute = precomputed::<BinaryField8b>(8);
    let data = counting_data();

    let mut result1 = data.clone();
    let mut result2 = data.clone();
    let mut result3 = data.clone();
    let mut result4 = data;
    for coset in 0..4 {
        ntt.inverse_transform_simple(&mut result1, coset).unwrap();
        ntt_with_precompute.inverse_transform_simple(&mut result2, coset).unwrap();
        assert_eq!(result1, result2);
        ntt.0.inverse_transform(&mut result3, coset, 0).unwrap();
        ntt_with_precompute.0.inverse_transform(&mut result4, coset, 0).unwrap();
        assert_eq!(result1, result3);
        assert_eq!(result1, result4);

        ntt.forward_transform_simple(&mut result1, coset).unwrap();
        ntt_with_precompute.forward_transform_simple(&mut result2, coset).unwrap();
        assert_eq!(result1, result2);
        ntt.0.forward_transform(&mut result3, coset, 0).unwrap();
        ntt_with_precompute.0.forward_transform(&mut result4, coset, 0).unwrap();
        assert_eq!(result1, result3);
        assert_eq!(result1, result4);
    }
}

#[test]
fn test_additive_ntt_transform_over_larger_field() {
    let mut rng = StdRng::seed_from_u64(0);

    let ntt = otf::<BinaryField8b>(8);
    let data: Vec<BinaryField32b> = (0..1 << 6).map(|_| random_32b(&mut rng)).collect();

    let mut result = data.clone();
    for coset in 0..4 {
        ntt.inverse_transform_simple(&mut result, coset).unwrap();
        ntt.forward_transform_simple(&mut result, coset).unwrap();
        assert_eq!(result, data);
    }

    for coset in 0..4 {
        AdditiveNTT::<BinaryField8b>::inverse_transform_ext(&ntt.0, &mut result, coset).unwrap();
        AdditiveNTT::<BinaryField8b>::forward_transform_ext(&ntt.0, &mut result, coset).unwrap();
        assert_eq!(result, data);
    }
}

#[test]
fn test_packed_ntt_on_scalars() {
    type Packed = PackedBinaryField16x8b;

    let mut rng = StdRng::seed_from_u64(0);

    let ntt = otf::<BinaryField8b>(8);
    let mut data_copy: Vec<Packed> = random_packed(&mut rng, random_8b, 1 << 2);
    let mut data = unpack_scalars(&data_copy);

    ntt.inverse_transform_simple::<BinaryField8b>(&mut data, 2).unwrap();
    AdditiveNTT::<Packed>::inverse_transform_ext(&ntt.0, &mut data_copy, 2).unwrap();
    assert_eq!(data, unpack_scalars(&data_copy));

    ntt.forward_transform_simple::<BinaryField8b>(&mut data, 3).unwrap();
    AdditiveNTT::<Packed>::forward_transform_ext(&ntt.0, &mut data_copy, 3).unwrap();
    assert_eq!(data, unpack_scalars(&data_copy));
}

fn check_packed_ntt_on_scalars_with_message_size_one<P, NTT, S>(
    ntt: &NTT,
    simple: &S,
    scalar: fn(&mut StdRng) -> P::Scalar,
) where
    P: PackedField,
    P::Scalar: Debug + PartialEq,
    NTT: AdditiveNTT<P>,
    S: SimpleAdditiveNTT<P::Scalar>,
{
    let mut rng = StdRng::seed_from_u64(0);

    let mut data_copy: Vec<P> = random_packed(&mut rng, scalar, 1 << 0);
    let mut data = unpack_scalars(&data_copy);

    simple.inverse_transform_simple::<P::Scalar>(&mut data, 2).unwrap();
    AdditiveNTT::<P>::inverse_transform_ext(ntt, &mut data_copy, 2).unwrap();
    assert_eq!(data, unpack_scalars(&data_copy));

    simple.forward_transform_simple::<P::Scalar>(&mut data, 3).unwrap();
    AdditiveNTT::<P>::forward_transform_ext(ntt, &mut data_copy, 3).unwrap();
    assert_eq!(data, unpack_scalars(&data_copy));
}

#[test]
fn test_packed_ntt_with_otf_compute_on_scalars_with_message_size_one() {
    let ntt = otf::<BinaryField32b>(8);
    check_packed_ntt_on_scalars_with_message_size_one::<PackedBinaryField4x32b, _, _>(
        &ntt.0, &ntt, random_32b,
    );
    let ntt = otf::<BinaryField16b>(8);
    check_packed_ntt_on_scalars_with_message_size_one::<PackedBinaryField8x16b, _, _>(
        &ntt.0, &ntt, random_16b,
    );
    let ntt = otf::<BinaryField8b>(8);
    check_packed_ntt_on_scalars_with_message_size_one::<PackedBinaryField16x8b, _, _>(
        &ntt.0, &ntt, random_8b,
    );
    let ntt = otf::<BinaryField32b>(8);
    check_packed_ntt_on_scalars_with_message_size_one::<BinaryField32b, _, _>(
        &ntt.0, &ntt, random_32b,
    );
}

#[test]
fn test_packed_ntt_with_precompute_on_scalars_with_message_size_one() {
    let ntt = precomputed::<BinaryField32b>(8);
    check_packed_ntt_on_scalars_with_message_size_one::<PackedBinaryField4x32b, _, _>(
        &ntt.0, &ntt, random_32b,
    );
    let ntt = precomputed::<BinaryField16b>(8);
    check_packed_ntt_on_scalars_with_message_size_one::<PackedBinaryField8x16b, _, _>(
        &ntt.0, &ntt, random_16b,
    );
    let ntt = precomputed::<BinaryField8b>(8);
    check_packed_ntt_on_scalars_with_message_size_one::<PackedBinaryField16x8b, _, _>(
        &ntt.0, &ntt, random_8b,
    );
    let ntt = precomputed::<BinaryField32b>(8);
    check_packed_ntt_on_scalars_with_message_size_one::<BinaryField32b, _, _>(
        &ntt.0, &ntt, random_32b,
    );
}

#[test]
fn test_packed_ntt_over_larger_field() {
    type Packed = PackedBinaryField4x32b;

    let mut rng = StdRng::seed_from_u64(0);

    let ntt = otf::<BinaryField8b>(8);
    let ntt_with_precompute = precomputed::<BinaryField8b>(8);
    let mut data_copy: Vec<Packed> = random_packed(&mut rng, random_32b, 1 << 4);
    let mut data_copy_2 = data_copy.clone();
    let mut data = unpack_scalars(&data_copy);

    ntt.inverse_transform_simple(&mut data, 2).unwrap();
    AdditiveNTT::<PackedBinaryField16x8b>::inverse_transform_ext(&ntt.0, &mut data_copy, 2)
        .unwrap();
    AdditiveNTT::<PackedBinaryField16x8b>::inverse_transform_ext(
        &ntt_with_precompute.0,
        &mut data_copy_2,
        2,
    )
    .unwrap();
    assert_eq!(data, unpack_scalars(&data_copy));
    assert_eq!(data, unpack_scalars(&data_copy_2));

    ntt.forward_transform_simple(&mut data, 3).unwrap();
    AdditiveNTT::<PackedBinaryField16x8b>::forward_transform_ext(&ntt.0, &mut data_copy, 3)
        .unwrap();
    AdditiveNTT::<PackedBinaryField16x8b>::forward_transform_ext(
        &ntt_with_precompute.0,
        &mut data_copy_2,
        3,
    )
    .unwrap();
    assert_eq!(data, unpack_scalars(&data_copy));
    assert_eq!(data, unpack_scalars(&data_copy_2));
}

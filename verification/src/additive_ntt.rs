//! The interface of the additive transforms.

use vstd::arithmetic::power2::pow2;
use vstd::prelude::*;

use crate::bits::{exact_log2, is_power_of_two, lemma_log2_of_power, lemma_small_exponent, log2};
use crate::error::Error;
use crate::extension::{
    cast_from_bases, cast_to_bases, extension_values, lemma_batch_is_extension,
    lemma_same_coefficients, ExtensionField, PackedExtensionField,
};
use crate::field::BinaryField;
use crate::packed::{lemma_scalars_determine, scalars, PackedField};
use crate::transform::{
    forward_result, inverse_result, is_trivial, transform_error, transform_fits,
};

verus! {

/// `p3_util::log2_strict_usize` computes the binary logarithm of a power of two: the result is the
/// exponent `r` with `2^r == n`. It panics on any other number, so those are left out.
pub assume_specification[ p3_util::log2_strict_usize ](n: usize) -> (r: usize)
    requires
        is_power_of_two(n as nat),
    ensures
        pow2(r as nat) == n,
;

/// The batch size with which a transform over an extension of the given degree runs; an error
/// unless the degree is a power of two.
pub fn extension_log_batch_size(degree: usize) -> (r: Result<usize, Error>)
    ensures
        r == if is_power_of_two(degree as nat) {
            Ok::<usize, Error>(log2(degree as nat) as usize)
        } else {
            Err::<usize, Error>(Error::PowerOfTwoExtensionDegreeRequired)
        },
        r matches Ok(k) ==> k == log2(degree as nat) && k < usize::BITS,
{
    if exact_log2(degree).is_none() {
        return Err(Error::PowerOfTwoExtensionDegreeRequired);
    }
    let k = p3_util::log2_strict_usize(degree);
    proof {
        lemma_log2_of_power(k as nat);
        lemma_small_exponent(k as nat);
    }
    Ok(k)
}

/// What a forward transform over an extension field does.
pub open spec fn forward_extension_result<P: PackedField, PE: PackedExtensionField<P>>(
    log_domain_size: nat,
    before: Seq<PE>,
    after: Seq<PE>,
    coset: nat,
    result: Result<(), Error>,
) -> bool where PE::Scalar: ExtensionField<P::Scalar> {
    match extension_error::<P, PE>(log_domain_size, before.len(), coset) {
        Some(error) => result == Err::<(), Error>(error) && after == before,
        None => {
            &&& result == Ok::<(), Error>(())
            &&& after.len() == before.len()
            &&& if is_trivial(before.len() * PE::spec_bases(), P::spec_width()) {
                after == before
            } else {
                scalars(after) == extension_values::<P::Scalar, PE::Scalar>(scalars(before), coset)
            }
        },
    }
}

/// What an inverse transform over an extension field does.
pub open spec fn inverse_extension_result<P: PackedField, PE: PackedExtensionField<P>>(
    log_domain_size: nat,
    before: Seq<PE>,
    after: Seq<PE>,
    coset: nat,
    result: Result<(), Error>,
) -> bool where PE::Scalar: ExtensionField<P::Scalar> {
    match extension_error::<P, PE>(log_domain_size, before.len(), coset) {
        Some(error) => result == Err::<(), Error>(error) && after == before,
        None => {
            &&& result == Ok::<(), Error>(())
            &&& after.len() == before.len()
            &&& if is_trivial(before.len() * PE::spec_bases(), P::spec_width()) {
                after == before
            } else {
                extension_values::<P::Scalar, PE::Scalar>(scalars(after), coset) == scalars(before)
            }
        },
    }
}

/// What is wrong with the arguments of a transform over an extension field, if anything is. The
/// coefficients over the subfield are transformed as a batch.
pub open spec fn extension_error<P: PackedField, PE: PackedExtensionField<P>>(
    log_domain_size: nat,
    len: nat,
    coset: nat,
) -> Option<Error> where PE::Scalar: ExtensionField<P::Scalar> {
    let degree = <PE::Scalar as ExtensionField<P::Scalar>>::spec_degree();
    if !is_power_of_two(degree) {
        Some(Error::PowerOfTwoExtensionDegreeRequired)
    } else {
        transform_error(
            log_domain_size,
            len * PE::spec_bases(),
            P::spec_width(),
            coset,
            log2(degree),
        )
    }
}

/// The number of coefficients and of packed vectors over the subfield fit in a `usize`.
pub open spec fn extension_fits<P: PackedField, PE: PackedExtensionField<P>>(len: nat) -> bool where
    PE::Scalar: ExtensionField<P::Scalar>,
 {
    &&& len * PE::spec_width() * <PE::Scalar as ExtensionField<P::Scalar>>::spec_degree()
        <= usize::MAX
    &&& len * PE::spec_bases() <= usize::MAX
}

/// The packed vectors over the subfield have as many scalars as there are coefficients.
proof fn lemma_base_count<P: PackedField, PE: PackedExtensionField<P>>(len: nat) where
    PE::Scalar: ExtensionField<P::Scalar>,

    requires
        extension_fits::<P, PE>(len),
    ensures
        (len * PE::spec_bases()) * P::spec_width() <= usize::MAX,
{
    PE::bases_match_lanes();
    let (l, b, w) = (len as int, PE::spec_bases() as int, P::spec_width() as int);
    let we = PE::spec_width() as int;
    let g = <PE::Scalar as ExtensionField<P::Scalar>>::spec_degree() as int;
    assert((l * b) * w == l * we * g) by (nonlinear_arith)
        requires
            b * w == we * g,
    ;
}

/// The additive number-theoretic transform between the coefficients of polynomials in the novel
/// basis and their values on a coset of the domain.
pub trait AdditiveNTT<P: PackedField> {
    /// The number of dimensions of the domain.
    spec fn domain_dimensions(&self) -> nat;

    /// Forward transformation of a batch of inputs.
    ///
    /// Input is the vector of polynomial coefficients in novel basis, output is in Lagrange basis.
    /// The batched inputs are interleaved.
    fn forward_transform(&self, data: &mut [P], coset: u32, log_batch_size: usize) -> (r: Result<
        (),
        Error,
    >)
        requires
            transform_fits(old(data)@.len(), P::spec_width(), log_batch_size as nat),
        ensures
            self.domain_dimensions() <= <P::Scalar as BinaryField>::spec_n_bits(),
            forward_result(
                self.domain_dimensions(),
                old(data)@,
                final(data)@,
                coset as nat,
                log_batch_size as nat,
                r,
            ),
    ;

    /// Inverse transformation of a batch of inputs.
    ///
    /// Input is the vector of polynomial values in Lagrange basis, output is in novel basis. The
    /// batched inputs are interleaved.
    fn inverse_transform(&self, data: &mut [P], coset: u32, log_batch_size: usize) -> (r: Result<
        (),
        Error,
    >)
        requires
            transform_fits(old(data)@.len(), P::spec_width(), log_batch_size as nat),
        ensures
            self.domain_dimensions() <= <P::Scalar as BinaryField>::spec_n_bits(),
            inverse_result(
                self.domain_dimensions(),
                old(data)@,
                final(data)@,
                coset as nat,
                log_batch_size as nat,
                r,
            ),
    ;

    /// Forward transformation of a polynomial with coefficients in an extension field.
    fn forward_transform_ext<PE: PackedExtensionField<P>>(&self, data: &mut [PE], coset: u32) -> (r:
        Result<(), Error>) where PE::Scalar: ExtensionField<P::Scalar>
        requires
            extension_fits::<P, PE>(old(data)@.len()),
        ensures
            r is Ok ==> self.domain_dimensions() <= <P::Scalar as BinaryField>::spec_n_bits(),
            forward_extension_result::<P, PE>(
                self.domain_dimensions(),
                old(data)@,
                final(data)@,
                coset as nat,
                r,
            ),
    {
        let degree = <PE::Scalar as ExtensionField<P::Scalar>>::degree();
        let log_batch_size = match extension_log_batch_size(degree) {
            Ok(log_batch_size) => log_batch_size,
            Err(error) => return Err(error),
        };
        let ghost before = data@;
        let mut bases: Vec<P> = cast_to_bases(data);
        let ghost base_before = bases@;
        proof {
            lemma_base_count::<P, PE>(before.len());
        }
        let r = self.forward_transform(bases.as_mut_slice(), coset, log_batch_size);
        if r.is_ok() {
            cast_from_bases(data, bases.as_slice());
            proof {
                let (x, y) = (scalars(before), scalars(data@));
                lemma_batch_is_extension::<P::Scalar, PE::Scalar>(x, coset as nat);
                if is_trivial(base_before.len(), P::spec_width()) {
                    lemma_same_coefficients::<P::Scalar, PE::Scalar>(y, x);
                    lemma_scalars_determine(data@, before);
                } else {
                    lemma_same_coefficients::<P::Scalar, PE::Scalar>(
                        y,
                        extension_values::<P::Scalar, PE::Scalar>(x, coset as nat),
                    );
                }
            }
        }
        r
    }

    /// Inverse transformation to a polynomial with coefficients in an extension field.
    fn inverse_transform_ext<PE: PackedExtensionField<P>>(&self, data: &mut [PE], coset: u32) -> (r:
        Result<(), Error>) where PE::Scalar: ExtensionField<P::Scalar>
        requires
            extension_fits::<P, PE>(old(data)@.len()),
        ensures
            r is Ok ==> self.domain_dimensions() <= <P::Scalar as BinaryField>::spec_n_bits(),
            inverse_extension_result::<P, PE>(
                self.domain_dimensions(),
                old(data)@,
                final(data)@,
                coset as nat,
                r,
            ),
    {
        let degree = <PE::Scalar as ExtensionField<P::Scalar>>::degree();
        let log_batch_size = match extension_log_batch_size(degree) {
            Ok(log_batch_size) => log_batch_size,
            Err(error) => return Err(error),
        };
        let ghost before = data@;
        let mut bases: Vec<P> = cast_to_bases(data);
        let ghost base_before = bases@;
        proof {
            lemma_base_count::<P, PE>(before.len());
        }
        let r = self.inverse_transform(bases.as_mut_slice(), coset, log_batch_size);
        if r.is_ok() {
            cast_from_bases(data, bases.as_slice());
            proof {
                let (x, y) = (scalars(before), scalars(data@));
                lemma_batch_is_extension::<P::Scalar, PE::Scalar>(y, coset as nat);
                if is_trivial(base_before.len(), P::spec_width()) {
                    lemma_same_coefficients::<P::Scalar, PE::Scalar>(y, x);
                    lemma_scalars_determine(data@, before);
                } else {
                    lemma_same_coefficients::<P::Scalar, PE::Scalar>(
                        extension_values::<P::Scalar, PE::Scalar>(y, coset as nat),
                        x,
                    );
                }
            }
        }
        r
    }
}

} // verus!

//! Which arguments the transforms accept, and the sizes that follow from them.

use vstd::arithmetic::div_mod::lemma_div_by_multiple;
use vstd::arithmetic::power2::{lemma2_to64, lemma_pow2_adds, lemma_pow2_pos, pow2};
use vstd::bits::lemma_usize_shr_is_div;
use vstd::prelude::*;

use crate::bits::{
    bit_length, count_bits, exact_log2, is_power_of_two, lemma_exponent_below, lemma_log2_of_power,
    lemma_small_exponent, log2,
};
use crate::error::Error;
use crate::packed::PackedField;

verus! {

/// The sizes of a transform.
#[derive(Clone, Copy, Debug, PartialEq, Eq, Structural)]
pub struct NTTParams {
    /// The binary logarithm of the number of rows: the coefficients of each polynomial.
    pub log_n: usize,
    /// The binary logarithm of the number of lanes of a packed element.
    pub log_w: usize,
    /// The number of binary digits of the coset.
    pub coset_bits: usize,
}

/// The number of rows of a batch of `2^log_batch` interleaved columns.
pub open spec fn rows(len: nat, width: nat, log_batch: nat) -> nat {
    (len * width) / pow2(log_batch)
}

/// The number of dimensions that the domain needs for a transform.
pub open spec fn required_dimensions(len: nat, width: nat, coset: nat, log_batch: nat) -> nat {
    log2(rows(len, width, log_batch)) + bit_length(coset)
}

/// What is wrong with a transform of `len` packed elements of `width` lanes, if anything is.
pub open spec fn batch_error(
    log_domain_size: nat,
    len: nat,
    width: nat,
    coset: nat,
    log_batch: nat,
) -> Option<Error> {
    if !is_power_of_two(len) {
        Some(Error::PowerOfTwoLengthRequired)
    } else if !is_power_of_two(width) {
        Some(Error::PackingWidthMustDivideDimension)
    } else if rows(len, width, log_batch) == 0 {
        Some(Error::BatchTooLarge)
    } else if required_dimensions(len, width, coset, log_batch) > log_domain_size {
        Some(
            Error::DomainTooSmall {
                log_required_domain_size: required_dimensions(
                    len,
                    width,
                    coset,
                    log_batch,
                ) as usize,
            },
        )
    } else {
        None
    }
}

/// The sizes of an accepted transform.
pub open spec fn batch_params(len: nat, width: nat, coset: nat, log_batch: nat) -> NTTParams {
    NTTParams {
        log_n: log2(rows(len, width, log_batch)) as usize,
        log_w: log2(width) as usize,
        coset_bits: bit_length(coset) as usize,
    }
}

/// Where the lengths are powers of two, the number of scalars and the shift by the batch size stay
/// within the machine's integers.
pub open spec fn batch_fits(len: nat, width: nat, log_batch: nat) -> bool {
    is_power_of_two(len) && is_power_of_two(width) ==> {
        &&& len * width <= usize::MAX
        &&& log_batch < usize::BITS
    }
}

/// The sizes of an accepted transform, related to each other.
pub open spec fn consistent(
    params: NTTParams,
    log_domain_size: nat,
    len: nat,
    width: nat,
    coset: nat,
    log_batch: nat,
) -> bool {
    &&& len == pow2(log2(len))
    &&& width == pow2(params.log_w as nat)
    &&& log2(len) + params.log_w == params.log_n + log_batch
    &&& len * width == pow2(params.log_n as nat) * pow2(log_batch)
    &&& len * width <= usize::MAX
    &&& params.log_n + log_batch < usize::BITS
    &&& coset < pow2(params.coset_bits as nat)
    &&& params.coset_bits <= 32
    &&& params.log_n + params.coset_bits <= log_domain_size
}

/// The product of two powers of two.
pub proof fn lemma_scalar_count(len: nat, width: nat)
    requires
        is_power_of_two(len),
        is_power_of_two(width),
    ensures
        len * width == pow2(log2(len) + log2(width)),
        log2(len * width) == log2(len) + log2(width),
        is_power_of_two(len * width),
{
    lemma_pow2_adds(log2(len), log2(width));
    lemma_log2_of_power(log2(len) + log2(width));
}

/// The number of rows is a power of two, unless the batch is too large.
proof fn lemma_rows(total: nat, log_batch: nat)
    ensures
        log_batch <= total ==> pow2(total) / pow2(log_batch) == pow2((total - log_batch) as nat),
        log_batch > total ==> pow2(total) / pow2(log_batch) == 0,
{
    lemma_pow2_pos(log_batch);
    lemma_pow2_pos(total);
    if log_batch <= total {
        let d = (total - log_batch) as nat;
        lemma_pow2_adds(d, log_batch);
        lemma_div_by_multiple(pow2(d) as int, pow2(log_batch) as int);
    } else {
        vstd::arithmetic::power2::lemma_pow2_strictly_increases(total, log_batch);
        vstd::arithmetic::div_mod::lemma_basic_div(pow2(total) as int, pow2(log_batch) as int);
    }
}

/// The sizes of an accepted transform fit together.
pub proof fn lemma_consistent(
    log_domain_size: nat,
    len: nat,
    width: nat,
    coset: u32,
    log_batch: nat,
)
    requires
        batch_fits(len, width, log_batch),
        batch_error(log_domain_size, len, width, coset as nat, log_batch) is None,
    ensures
        consistent(
            batch_params(len, width, coset as nat, log_batch),
            log_domain_size,
            len,
            width,
            coset as nat,
            log_batch,
        ),
        rows(len, width, log_batch) == pow2(
            batch_params(len, width, coset as nat, log_batch).log_n as nat,
        ),
{
    let total = log2(len) + log2(width);
    lemma_scalar_count(len, width);
    lemma_rows(total, log_batch);
    lemma_small_exponent(total);
    let log_n = (total - log_batch) as nat;
    lemma_log2_of_power(log_n);
    lemma_pow2_adds(log_n, log_batch);
    crate::bits::lemma_bit_length_bounds(coset as nat);
    assert(bit_length(coset as nat) <= 32) by {
        lemma2_to64();
        if coset > 0 {
            lemma_exponent_below((bit_length(coset as nat) - 1) as nat, 32);
        }
    }
}

/// Checks the arguments of a transform and works out its sizes.
pub fn check_batch_transform_inputs<PB: PackedField>(
    log_domain_size: usize,
    data: &[PB],
    coset: u32,
    log_batch_size: usize,
) -> (r: Result<NTTParams, Error>)
    requires
        batch_fits(data@.len(), PB::spec_width(), log_batch_size as nat),
    ensures
        r == match batch_error(
            log_domain_size as nat,
            data@.len(),
            PB::spec_width(),
            coset as nat,
            log_batch_size as nat,
        ) {
            Some(error) => Err::<NTTParams, Error>(error),
            None => Ok::<NTTParams, Error>(
                batch_params(
                    data@.len(),
                    PB::spec_width(),
                    coset as nat,
                    log_batch_size as nat,
                ),
            ),
        },
{
    let width = PB::width();
    let len = data.len();
    if exact_log2(len).is_none() {
        return Err(Error::PowerOfTwoLengthRequired);
    }
    let log_w = match exact_log2(width) {
        Some(log_w) => log_w,
        None => return Err(Error::PackingWidthMustDivideDimension),
    };
    let n = (len * width) >> log_batch_size;
    proof {
        lemma_usize_shr_is_div((len * width) as usize, log_batch_size);
        lemma_scalar_count(len as nat, width as nat);
        lemma_rows(log2(len as nat) + log2(width as nat), log_batch_size as nat);
    }
    if n == 0 {
        return Err(Error::BatchTooLarge);
    }
    proof {
        let total = log2(len as nat) + log2(width as nat);
        lemma_log2_of_power((total - log_batch_size) as nat);
    }
    let log_n = exact_log2(n).unwrap();
    let coset_bits = count_bits(coset);
    if log_n + coset_bits > log_domain_size {
        return Err(Error::DomainTooSmall { log_required_domain_size: log_n + coset_bits });
    }
    Ok(NTTParams { log_n, log_w, coset_bits })
}

} // verus!

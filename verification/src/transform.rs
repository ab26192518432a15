//! The order in which a transform runs its stages.

use vstd::arithmetic::div_mod::lemma_fundamental_div_mod_converse;
use vstd::arithmetic::power2::{lemma_pow2_adds, lemma_pow2_pos, lemma_pow2_unfold, pow2};
use vstd::prelude::*;

use crate::error::Error;
use crate::field::BinaryField;
use crate::novel::{
    descend, half_block, lagrange_values, lemma_network_evaluates, lemma_stage_inverts, stage,
    stage_offset,
};
use crate::packed::{pack_scalars, scalars, unpack_scalars, PackedField};
use crate::params::{
    batch_error, batch_fits, check_batch_transform_inputs, consistent, lemma_consistent, NTTParams,
};

verus! {

/// A way to run single stages of a transform.
pub trait Stages<F: BinaryField> {
    /// The number of dimensions of the domain.
    spec fn dimensions(&self) -> nat;

    /// The number of dimensions of the domain.
    fn log_domain_size(&self) -> (r: usize)
        ensures
            r == self.dimensions(),
            r <= F::spec_n_bits(),
    ;

    /// Stage `i` where its butterflies act on whole packed elements.
    fn wide_stage<P: PackedField<Scalar = F>>(
        &self,
        forward: bool,
        data: &mut [P],
        params: NTTParams,
        coset: u32,
        log_b: usize,
        i: usize,
    )
        requires
            consistent(
                params,
                self.dimensions(),
                old(data)@.len(),
                P::spec_width(),
                coset as nat,
                log_b as nat,
            ),
            i < params.log_n,
            i + log_b >= params.log_w,
        ensures
            final(data)@.len() == old(data)@.len(),
            scalars(final(data)@) == stage(
                forward,
                i as nat,
                log_b as nat,
                stage_offset(params.log_n as nat, coset as nat, i as nat),
                scalars(old(data)@),
            ),
    ;

    /// Stage `i` where its butterflies act between the lanes of packed elements.
    fn narrow_stage<P: PackedField<Scalar = F>>(
        &self,
        forward: bool,
        data: &mut [P],
        params: NTTParams,
        coset: u32,
        log_b: usize,
        i: usize,
    )
        requires
            consistent(
                params,
                self.dimensions(),
                old(data)@.len(),
                P::spec_width(),
                coset as nat,
                log_b as nat,
            ),
            2 <= old(data)@.len(),
            i + log_b < params.log_w,
        ensures
            final(data)@.len() == old(data)@.len(),
            scalars(final(data)@) == stage(
                forward,
                i as nat,
                log_b as nat,
                stage_offset(params.log_n as nat, coset as nat, i as nat),
                scalars(old(data)@),
            ),
    ;
}

/// Whether there is at most one scalar, which every transform leaves as it is.
pub open spec fn is_trivial(len: nat, width: nat) -> bool {
    len == 0 || (len == 1 && width <= 1)
}

/// What is wrong with the arguments of a transform, if anything is. A single packed element is
/// taken apart into its scalars.
pub open spec fn transform_error(
    log_domain_size: nat,
    len: nat,
    width: nat,
    coset: nat,
    log_batch: nat,
) -> Option<Error> {
    if is_trivial(len, width) {
        None
    } else if len == 1 {
        batch_error(log_domain_size, width, 1, coset, log_batch)
    } else {
        batch_error(log_domain_size, len, width, coset, log_batch)
    }
}

/// The number of scalars and the shift by the batch size stay within the machine's integers.
pub open spec fn transform_fits(len: nat, width: nat, log_batch: nat) -> bool {
    if is_trivial(len, width) {
        true
    } else if len == 1 {
        batch_fits(width, 1, log_batch)
    } else {
        batch_fits(len, width, log_batch)
    }
}

/// What a forward transform does: coefficients in the novel basis become values on the coset.
pub open spec fn forward_result<P: PackedField>(
    log_domain_size: nat,
    before: Seq<P>,
    after: Seq<P>,
    coset: nat,
    log_batch: nat,
    result: Result<(), Error>,
) -> bool {
    match transform_error(log_domain_size, before.len(), P::spec_width(), coset, log_batch) {
        Some(error) => result == Err::<(), Error>(error) && after == before,
        None => {
            &&& result == Ok::<(), Error>(())
            &&& after.len() == before.len()
            &&& if is_trivial(before.len(), P::spec_width()) {
                after == before
            } else {
                scalars(after) == lagrange_values(scalars(before), log_batch, coset)
            }
        },
    }
}

/// What an inverse transform does: values on the coset become coefficients in the novel basis.
pub open spec fn inverse_result<P: PackedField>(
    log_domain_size: nat,
    before: Seq<P>,
    after: Seq<P>,
    coset: nat,
    log_batch: nat,
    result: Result<(), Error>,
) -> bool {
    match transform_error(log_domain_size, before.len(), P::spec_width(), coset, log_batch) {
        Some(error) => result == Err::<(), Error>(error) && after == before,
        None => {
            &&& result == Ok::<(), Error>(())
            &&& after.len() == before.len()
            &&& if is_trivial(before.len(), P::spec_width()) {
                after == before
            } else {
                lagrange_values(scalars(after), log_batch, coset) == scalars(before)
            }
        },
    }
}

/// The scalars fill whole blocks of every stage.
pub proof fn lemma_whole_blocks(log_n: nat, log_batch: nat, i: nat)
    requires
        i < log_n,
    ensures
        (pow2(log_n) * pow2(log_batch)) as int % (2 * half_block(i, log_batch) as int) == 0,
{
    let d = (log_n - 1 - i) as nat;
    lemma_pow2_adds(log_n, log_batch);
    lemma_pow2_unfold(i + log_batch + 1);
    lemma_pow2_adds(d, i + log_batch + 1);
    lemma_pow2_pos(i + log_batch);
    lemma_fundamental_div_mod_converse(
        (pow2(log_n) * pow2(log_batch)) as int,
        2 * half_block(i, log_batch) as int,
        pow2(d) as int,
        0,
    );
}

/// The forward transform of more than one packed element.
fn forward_blocks<F: BinaryField, P: PackedField<Scalar = F>, S: Stages<F>>(
    ntt: &S,
    data: &mut [P],
    coset: u32,
    log_b: usize,
) -> (r: Result<(), Error>)
    requires
        2 <= old(data)@.len(),
        batch_fits(old(data)@.len(), P::spec_width(), log_b as nat),
    ensures
        final(data)@.len() == old(data)@.len(),
        match batch_error(
            ntt.dimensions(),
            old(data)@.len(),
            P::spec_width(),
            coset as nat,
            log_b as nat,
        ) {
            Some(error) => r == Err::<(), Error>(error) && final(data)@ == old(data)@,
            None => r == Ok::<(), Error>(()) && scalars(final(data)@) == lagrange_values(
                scalars(old(data)@),
                log_b as nat,
                coset as nat,
            ),
        },
{
    let log_domain_size = ntt.log_domain_size();
    let params = match check_batch_transform_inputs(log_domain_size, data, coset, log_b) {
        Ok(params) => params,
        Err(error) => return Err(error),
    };
    let log_n = params.log_n;
    // The stage below which the butterflies are contained within packed elements.
    let cutoff = if params.log_w > log_b {
        params.log_w - log_b
    } else {
        0
    };
    let ghost x = scalars(data@);
    let ghost len = data@.len();
    let ghost values = descend(log_n as nat, log_n as nat, log_b as nat, coset as nat, x);
    proof {
        lemma_consistent(
            log_domain_size as nat,
            len,
            P::spec_width(),
            coset,
            log_b as nat,
        );
        lemma_network_evaluates(log_n as nat, log_b as nat, coset as nat, x);
    }
    let mut i: usize = log_n;
    while i > 0
        invariant
            i <= log_n,
            log_n == params.log_n,
            cutoff == if params.log_w > log_b {
                params.log_w - log_b
            } else {
                0
            },
            2 <= len,
            data@.len() == len,
            consistent(
                params,
                ntt.dimensions(),
                len,
                P::spec_width(),
                coset as nat,
                log_b as nat,
            ),
            descend(i as nat, log_n as nat, log_b as nat, coset as nat, scalars(data@)) == values,
        decreases i,
    {
        i = i - 1;
        if i >= cutoff {
            ntt.wide_stage(true, data, params, coset, log_b, i);
        } else {
            ntt.narrow_stage(true, data, params, coset, log_b, i);
        }
    }
    Ok(())
}

/// The inverse transform of more than one packed element.
fn inverse_blocks<F: BinaryField, P: PackedField<Scalar = F>, S: Stages<F>>(
    ntt: &S,
    data: &mut [P],
    coset: u32,
    log_b: usize,
) -> (r: Result<(), Error>)
    requires
        2 <= old(data)@.len(),
        batch_fits(old(data)@.len(), P::spec_width(), log_b as nat),
    ensures
        final(data)@.len() == old(data)@.len(),
        match batch_error(
            ntt.dimensions(),
            old(data)@.len(),
            P::spec_width(),
            coset as nat,
            log_b as nat,
        ) {
            Some(error) => r == Err::<(), Error>(error) && final(data)@ == old(data)@,
            None => r == Ok::<(), Error>(()) && lagrange_values(
                scalars(final(data)@),
                log_b as nat,
                coset as nat,
            ) == scalars(old(data)@),
        },
{
    let log_domain_size = ntt.log_domain_size();
    let params = match check_batch_transform_inputs(log_domain_size, data, coset, log_b) {
        Ok(params) => params,
        Err(error) => return Err(error),
    };
    let log_n = params.log_n;
    // The stage below which the butterflies are contained within packed elements.
    let cutoff = if params.log_w > log_b {
        params.log_w - log_b
    } else {
        0
    };
    let ghost values = scalars(data@);
    let ghost len = data@.len();
    proof {
        lemma_consistent(
            log_domain_size as nat,
            len,
            P::spec_width(),
            coset,
            log_b as nat,
        );
    }
    let mut i: usize = 0;
    while i < log_n
        invariant
            i <= log_n,
            log_n == params.log_n,
            cutoff == if params.log_w > log_b {
                params.log_w - log_b
            } else {
                0
            },
            2 <= len,
            data@.len() == len,
            consistent(
                params,
                ntt.dimensions(),
                len,
                P::spec_width(),
                coset as nat,
                log_b as nat,
            ),
            descend(i as nat, log_n as nat, log_b as nat, coset as nat, scalars(data@)) == values,
        decreases log_n - i,
    {
        proof {
            lemma_whole_blocks(log_n as nat, log_b as nat, i as nat);
            lemma_stage_inverts(
                false,
                i as nat,
                log_b as nat,
                stage_offset(log_n as nat, coset as nat, i as nat),
                scalars(data@),
            );
        }
        if i < cutoff {
            ntt.narrow_stage(false, data, params, coset, log_b, i);
        } else {
            ntt.wide_stage(false, data, params, coset, log_b, i);
        }
        i = i + 1;
    }
    proof {
        lemma_network_evaluates(log_n as nat, log_b as nat, coset as nat, scalars(data@));
    }
    Ok(())
}

/// The forward transform.
pub fn forward<F: BinaryField, P: PackedField<Scalar = F>, S: Stages<F>>(
    ntt: &S,
    data: &mut [P],
    coset: u32,
    log_batch_size: usize,
) -> (r: Result<(), Error>)
    requires
        transform_fits(old(data)@.len(), P::spec_width(), log_batch_size as nat),
    ensures
        forward_result(
            ntt.dimensions(),
            old(data)@,
            final(data)@,
            coset as nat,
            log_batch_size as nat,
            r,
        ),
{
    let len = data.len();
    let width = P::width();
    if len == 0 || (len == 1 && width <= 1) {
        return Ok(());
    }
    if len > 1 {
        return forward_blocks(ntt, data, coset, log_batch_size);
    }
    // The lanes of a single packed element have no other element to be interleaved with, so they
    // are transformed one by one.
    let mut unpacked: Vec<F> = unpack_scalars(data);
    proof {
        lemma_scalars_of_scalars(unpacked@);
    }
    let r = forward_blocks(ntt, unpacked.as_mut_slice(), coset, log_batch_size);
    proof {
        lemma_scalars_of_scalars(unpacked@);
    }
    if r.is_ok() {
        pack_scalars(data, unpacked.as_slice());
    }
    r
}

/// The inverse transform.
pub fn inverse<F: BinaryField, P: PackedField<Scalar = F>, S: Stages<F>>(
    ntt: &S,
    data: &mut [P],
    coset: u32,
    log_batch_size: usize,
) -> (r: Result<(), Error>)
    requires
        transform_fits(old(data)@.len(), P::spec_width(), log_batch_size as nat),
    ensures
        inverse_result(
            ntt.dimensions(),
            old(data)@,
            final(data)@,
            coset as nat,
            log_batch_size as nat,
            r,
        ),
{
    let len = data.len();
    let width = P::width();
    if len == 0 || (len == 1 && width <= 1) {
        return Ok(());
    }
    if len > 1 {
        return inverse_blocks(ntt, data, coset, log_batch_size);
    }
    let mut unpacked: Vec<F> = unpack_scalars(data);
    proof {
        lemma_scalars_of_scalars(unpacked@);
    }
    let r = inverse_blocks(ntt, unpacked.as_mut_slice(), coset, log_batch_size);
    proof {
        lemma_scalars_of_scalars(unpacked@);
    }
    if r.is_ok() {
        pack_scalars(data, unpacked.as_slice());
    }
    r
}

/// Field elements are their own scalars.
pub proof fn lemma_scalars_of_scalars<F: BinaryField>(x: Seq<F>)
    ensures
        scalars::<F>(x) == x,
{
    let y = scalars::<F>(x);
    assert(<F as PackedField>::spec_width() == 1);
    assert(y.len() == x.len()) by (nonlinear_arith)
        requires
            y.len() == x.len() * <F as PackedField>::spec_width(),
            <F as PackedField>::spec_width() == 1,
    ;
    assert forall|p: int| 0 <= p < x.len() implies y[p] == x[p] by {
        assert(<F as PackedField>::lanes(x[p]) =~= seq![x[p]]);
    }
    assert(y =~= x);
}

} // verus!

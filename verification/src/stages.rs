//! The geometry of the stages of a transform.

use vstd::arithmetic::div_mod::lemma_fundamental_div_mod_converse;
use vstd::arithmetic::power2::{
    lemma_pow2_adds, lemma_pow2_pos, lemma_pow2_unfold, pow2,
};
use vstd::prelude::*;

use crate::bits::log2;
use crate::field::{group_coordinates, lemma_same, lemma_sum_cancels, BinaryField};
use crate::novel::{half_block, stage, stage_offset, stage_prefix, twiddle};
use crate::packed::lemma_lane_of_scalar;
use crate::params::{consistent, NTTParams};
use crate::subspace::{
    combination, lemma_combination_splits, lemma_normalized, normalized, select,
};

verus! {

/// Before the first block a stage has changed nothing.
pub proof fn lemma_no_blocks<F: BinaryField>(
    forward: bool,
    i: nat,
    log_batch: nat,
    offset: nat,
    x: Seq<F>,
)
    ensures
        stage_prefix(forward, i, log_batch, offset, 0, x) == x,
{
    lemma_pow2_pos(i + log_batch);
    let h = half_block(i, log_batch) as int;
    let y = stage_prefix(forward, i, log_batch, offset, 0, x);
    assert forall|p: int| 0 <= p < x.len() implies y[p] == x[p] by {
        vstd::arithmetic::div_mod::lemma_div_pos_is_pos(p, 2 * h);
    }
    assert(y =~= x);
}

/// After the last block a stage is complete.
pub proof fn lemma_stage_complete<F: BinaryField>(
    forward: bool,
    i: nat,
    log_batch: nat,
    offset: nat,
    blocks: nat,
    x: Seq<F>,
)
    requires
        x.len() == blocks * (2 * half_block(i, log_batch)),
    ensures
        stage_prefix(forward, i, log_batch, offset, blocks, x) == stage(
            forward,
            i,
            log_batch,
            offset,
            x,
        ),
        x.len() as int % (2 * half_block(i, log_batch) as int) == 0,
{
    lemma_pow2_pos(i + log_batch);
    let h = half_block(i, log_batch) as int;
    let y = stage_prefix(forward, i, log_batch, offset, blocks, x);
    let z = stage(forward, i, log_batch, offset, x);
    assert forall|p: int| 0 <= p < x.len() implies y[p] == z[p] by {
        lemma_lane_of_scalar(blocks as int, 2 * h, p);
    }
    lemma_fundamental_div_mod_converse(x.len() as int, 2 * h, blocks as int, 0);
    assert(y =~= z);
}

/// How a stage that acts on whole packed elements is cut into blocks.
pub proof fn lemma_wide_geometry(
    params: NTTParams,
    log_domain_size: nat,
    len: nat,
    width: nat,
    coset: nat,
    log_batch: nat,
    i: nat,
)
    requires
        consistent(params, log_domain_size, len, width, coset, log_batch),
        i < params.log_n,
        i + log_batch >= params.log_w,
    ensures
        ({
            let half = pow2((i + log_batch - params.log_w) as nat);
            let blocks = pow2((params.log_n - 1 - i) as nat);
            &&& 0 < half
            &&& half * width == half_block(i, log_batch)
            &&& len == blocks * (2 * half)
            &&& len * width == blocks * (2 * half_block(i, log_batch))
        }),
{
    let half = pow2((i + log_batch - params.log_w) as nat);
    let blocks = pow2((params.log_n - 1 - i) as nat);
    lemma_pow2_pos((i + log_batch - params.log_w) as nat);
    lemma_pow2_adds((i + log_batch - params.log_w) as nat, params.log_w as nat);
    lemma_pow2_unfold((i + log_batch - params.log_w + 1) as nat);
    lemma_pow2_adds(
        (params.log_n - 1 - i) as nat,
        (i + log_batch - params.log_w + 1) as nat,
    );
    assert(len * width == blocks * (2 * (half * width))) by (nonlinear_arith)
        requires
            len == blocks * (2 * half),
    ;
}

/// How a stage that acts within packed elements is cut into blocks.
pub proof fn lemma_narrow_geometry(
    params: NTTParams,
    log_domain_size: nat,
    len: nat,
    width: nat,
    coset: nat,
    log_batch: nat,
    i: nat,
)
    requires
        consistent(params, log_domain_size, len, width, coset, log_batch),
        i + log_batch < params.log_w,
        2 <= len,
    ensures
        ({
            let cutoff = params.log_w - log_batch;
            let blocks = pow2((cutoff - i - 1) as nat);
            let pairs = pow2((params.log_n - 1 - cutoff) as nat);
            &&& cutoff < params.log_n
            &&& 0 < blocks
            &&& width == blocks * (2 * half_block(i, log_batch))
            &&& len == 2 * pairs
            &&& len * width == ((2 * pairs) * blocks) * (2 * half_block(i, log_batch))
        }),
{
    let cutoff = (params.log_w - log_batch) as nat;
    let blocks = pow2((cutoff - i - 1) as nat);
    vstd::arithmetic::power2::lemma2_to64();
    assert(log2(len) >= 1);
    let pairs = pow2((params.log_n - 1 - cutoff) as nat);
    lemma_pow2_pos((cutoff - i - 1) as nat);
    lemma_pow2_unfold(i + log_batch + 1);
    lemma_pow2_adds((cutoff - i - 1) as nat, i + log_batch + 1);
    lemma_pow2_unfold(log2(len));
    let h2 = 2 * half_block(i, log_batch);
    assert(len * width == ((2 * pairs) * blocks) * h2) by (nonlinear_arith)
        requires
            len == 2 * pairs,
            width == blocks * h2,
    ;
}

/// The twiddle factor of a block within a pair of packed elements, in parts.
pub proof fn lemma_pair_twiddle<F: BinaryField>(
    i: nat,
    log_n: nat,
    cutoff: nat,
    coset: nat,
    j: nat,
    second: bool,
    k: nat,
)
    requires
        i < cutoff < log_n,
        j < pow2((log_n - 1 - cutoff) as nat),
        k < pow2((cutoff - i - 1) as nat),
    ensures
        twiddle::<F>(
            i,
            pair_index(i, log_n, cutoff, coset, j, second, k),
        ) == normalized(i, combination::<F>(cutoff + 1, j)).sum(
            normalized(i, combination::<F>(log_n, coset)),
        ).sum(
            normalized(i, combination::<F>(i + 1, k)).sum(
                select(second, normalized(i, F::spec_basis(cutoff))),
            ),
        ),
{
    broadcast use group_coordinates;

    let zero = F::spec_zero();
    let blocks = pow2((cutoff - i - 1) as nat);
    let pairs = pow2((log_n - 1 - cutoff) as nat);
    let e: nat = if second {
        1
    } else {
        0
    };
    let outer = coset * pairs + j;
    let high = 2 * outer + e;
    lemma_pow2_unfold((cutoff - i) as nat);
    lemma_pow2_adds((cutoff - i) as nat, (log_n - 1 - cutoff) as nat);
    let index = pair_index(i, log_n, cutoff, coset, j, second, k);
    assert(index == high * blocks + k) by (nonlinear_arith)
        requires
            index == coset * ((2 * blocks) * pairs) + (2 * j + e) * blocks + k,
            high == 2 * (coset * pairs + j) + e,
    ;
    lemma_combination_splits::<F>(i + 1, (cutoff - i - 1) as nat, high, k);
    let head = select(second, F::spec_basis(cutoff));
    let rest = combination::<F>(cutoff + 1, outer);
    assert(high / 2 == outer && high % 2 == e);
    lemma_sum_cancels(zero, zero);
    if high == 0 {
        assert(combination::<F>(cutoff + 1, 0) == zero);
    }
    assert(combination::<F>(cutoff, high) == head.sum(rest));
    lemma_combination_splits::<F>(cutoff + 1, (log_n - 1 - cutoff) as nat, coset, j);
    let (cj, cc) = (combination::<F>(cutoff + 1, j), combination::<F>(log_n, coset));
    let ck = combination::<F>(i + 1, k);
    lemma_normalized(i, ck, head.sum(rest));
    lemma_normalized(i, head, rest);
    lemma_normalized(i, cj, cc);
    let (nj, nc, nk) = (normalized(i, cj), normalized(i, cc), normalized(i, ck));
    let nh = select(second, normalized(i, F::spec_basis(cutoff)));
    assert(nh == normalized(i, head));
    lemma_same(nk.sum(nh.sum(nj.sum(nc))), nj.sum(nc).sum(nk.sum(nh)));
}

/// The index of the twiddle factor of block `k` of either element of pair `j`.
pub open spec fn pair_index(
    i: nat,
    log_n: nat,
    cutoff: nat,
    coset: nat,
    j: nat,
    second: bool,
    k: nat,
) -> nat {
    let blocks = pow2((cutoff - i - 1) as nat);
    stage_offset(log_n, coset, i) + (2 * j + if second {
        1nat
    } else {
        0nat
    }) * blocks + k
}

} // verus!

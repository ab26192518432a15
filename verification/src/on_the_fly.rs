//! The transform that derives its twiddle factors while it runs.

use vstd::arithmetic::div_mod::lemma_fundamental_div_mod_converse;
use vstd::arithmetic::power2::{lemma_pow2_adds, lemma_pow2_pos, lemma_pow2_unfold, pow2};
use vstd::bits::lemma_usize_pow2_no_overflow;
use vstd::prelude::*;
use vstd::slice::slice_subrange;

use crate::additive_ntt::AdditiveNTT;
use crate::bits::power_of_two;
use crate::blocks::{butterfly_block, butterfly_pair, lemma_block_step, lemma_pair_step};
use crate::error::Error;
use crate::field::{lemma_sum_cancels, BinaryField};
use crate::novel::{
    half_block, lemma_block_position, stage_offset, stage_prefix, twiddle,
};
use crate::packed::{scalars, PackedField};
use crate::params::NTTParams;
use crate::stages::{
    lemma_narrow_geometry, lemma_no_blocks, lemma_pair_twiddle, lemma_stage_complete,
    lemma_wide_geometry,
};
use crate::subspace::{
    combination, is_evals_row, is_evals_table, lemma_combination_splits, lemma_evals_table_size,
    lemma_normalized, lemma_selected_sum_is_normalized, normalized, precompute_subspace_evals,
    selected_sum, subset_sum, total_len,
};
use crate::transform::{forward, inverse, Stages};

verus! {

/// An additive transform that computes its twiddle factors on the fly to reduce its memory
/// footprint.
///
/// It keeps `k * (k - 1) / 2` field elements for a domain of `2^k` points.
#[derive(Debug)]
pub struct AdditiveNTTWithOTFCompute<F: BinaryField> {
    log_domain_size: usize,
    s_evals: Vec<Vec<F>>,
}

impl<F: BinaryField> AdditiveNTTWithOTFCompute<F> {
    /// The number of dimensions of the domain.
    pub closed spec fn log_domain(&self) -> nat {
        self.log_domain_size as nat
    }

    /// The number of field elements that are kept.
    pub closed spec fn constants(&self) -> nat {
        total_len(self.s_evals@)
    }

    #[verifier::type_invariant]
    spec fn valid(&self) -> bool {
        &&& self.log_domain_size <= F::spec_n_bits()
        &&& is_evals_table(self.s_evals@, self.log_domain_size as nat)
    }

    /// The transform for the domain that the first `log_domain_size` basis vectors span.
    pub fn new(log_domain_size: usize) -> (r: Result<Self, Error>)
        ensures
            log_domain_size <= F::spec_n_bits() ==> r is Ok,
            log_domain_size > F::spec_n_bits() ==> r == Err::<Self, Error>(
                Error::FieldTooSmall { log_domain_size },
            ),
            r matches Ok(ntt) ==> ntt.log_domain() == log_domain_size,
            r matches Ok(ntt) ==> AdditiveNTT::<F>::domain_dimensions(&ntt) == log_domain_size,
            r matches Ok(ntt) ==> 2 * ntt.constants() == log_domain_size * (log_domain_size - 1),
    {
        match precompute_subspace_evals(log_domain_size) {
            Ok(s_evals) => {
                proof {
                    let l = log_domain_size as nat;
                    lemma_evals_table_size(s_evals@, l, s_evals@.len());
                    assert(s_evals@.take(s_evals@.len() as int) =~= s_evals@);
                    assert(2 * l - 1 - l == l - 1);
                }
                Ok(AdditiveNTTWithOTFCompute { log_domain_size, s_evals })
            },
            Err(error) => Err(error),
        }
    }

    /// The value of the `i`-th normalized subspace polynomial at the `j`-th basis vector.
    pub fn get_subspace_eval(&self, i: usize, j: usize) -> (r: F)
        requires
            i < self.log_domain(),
            j < self.log_domain(),
        ensures
            r == normalized(i as nat, F::spec_basis(j as nat)),
    {
        proof {
            use_type_invariant(self);
            lemma_normalized(i as nat, F::spec_zero(), F::spec_zero());
            assert(is_evals_row(self.s_evals@[i as int]@, i as int, self.log_domain_size as nat));
        }
        if j < i {
            F::zero()
        } else if j == i {
            F::one()
        } else {
            self.s_evals[i][j - i - 1]
        }
    }

    /// The twiddle factors of an interleaved pair of packed elements: in each run of
    /// `2^(log_block_len + 1)` lanes, first that of the first element, then that of the second. Lanes
    /// behind the blocks are zero.
    pub fn calculate_twiddle<P: PackedField<Scalar = F>>(
        &self,
        s_evals_i: &[F],
        log_blocks_count: usize,
        log_block_len: usize,
        initial_twiddle: F,
    ) -> (r: P)
        requires
            log_blocks_count < s_evals_i@.len(),
            log_blocks_count + log_block_len + 1 < usize::BITS,
            pow2(log_blocks_count as nat) * (2 * pow2(log_block_len as nat)) <= P::spec_width(),
        ensures
            is_otf_twiddle(
                r,
                s_evals_i@,
                log_blocks_count as nat,
                log_block_len as nat,
                initial_twiddle,
            ),
    {
        let blocks = power_of_two(log_blocks_count);
        let h = power_of_two(log_block_len);
        let mut twiddle = P::zeros();
        let mut k: usize = 0;
        let ghost width = P::spec_width();
        let ghost used = pow2(log_blocks_count as nat) * (2 * pow2(log_block_len as nat));
        proof {
            lemma_pow2_pos(log_block_len as nat);
            lemma_pow2_unfold((log_block_len + 1) as nat);
            lemma_pow2_adds(log_blocks_count as nat, (log_block_len + 1) as nat);
            lemma_usize_pow2_no_overflow((log_blocks_count + log_block_len + 1) as nat);
        }
        while k < blocks
            invariant
                used <= usize::MAX,
                used <= width,
                k <= blocks,
                0 < h,
                blocks == pow2(log_blocks_count as nat),
                h == pow2(log_block_len as nat),
                width == P::spec_width(),
                used == blocks * (2 * h),
                log_blocks_count < s_evals_i@.len(),
                log_blocks_count < usize::BITS,
                forall|l: int|
                    0 <= l < k * (2 * h) ==> #[trigger] twiddle.lanes()[l] == otf_lane(
                        s_evals_i@,
                        log_blocks_count as nat,
                        h as int,
                        initial_twiddle,
                        l,
                    ),
                forall|l: int|
                    k * (2 * h) <= l < width ==> #[trigger] twiddle.lanes()[l] == F::spec_zero(),
            decreases blocks - k,
        {
            let subblock_twiddle_0 = subset_sum(s_evals_i, log_blocks_count, k);
            let subblock_twiddle_1 = subblock_twiddle_0.add(s_evals_i[log_blocks_count]);
            assert(k * (2 * h) + 2 * h <= used) by (nonlinear_arith)
                requires
                    k + 1 <= blocks,
                    used == blocks * (2 * h),
            ;
            let start = k * (2 * h);
            let mut l: usize = 0;
            while l < h
                invariant
                    used <= usize::MAX,
                    used <= width,
                    l <= h,
                    0 < h,
                    h == pow2(log_block_len as nat),
                    width == P::spec_width(),
                    start == k * (2 * h),
                    start + 2 * h <= used,
                    subblock_twiddle_0 == selected_sum(
                        s_evals_i@,
                        log_blocks_count as nat,
                        k as nat,
                    ),
                    subblock_twiddle_1 == subblock_twiddle_0.sum(
                        s_evals_i@[log_blocks_count as int],
                    ),
                    forall|m: int|
                        (0 <= m < start + l || start + h <= m < start + h + l)
                            ==> #[trigger] twiddle.lanes()[m] == otf_lane(
                            s_evals_i@,
                            log_blocks_count as nat,
                            h as int,
                            initial_twiddle,
                            m,
                        ),
                    forall|m: int|
                        (start + l <= m < start + h || start + h + l <= m < width)
                            ==> #[trigger] twiddle.lanes()[m] == F::spec_zero(),
                decreases h - l,
            {
                let idx0 = start + l;
                let idx1 = start + h + l;
                proof {
                    twiddle.lanes_match_width();
                    lemma_block_position(k as int, h as int, l as int);
                    lemma_block_position(k as int, h as int, h + l);
                }
                twiddle.set(idx0, initial_twiddle.add(subblock_twiddle_0));
                twiddle.set(idx1, initial_twiddle.add(subblock_twiddle_1));
                l = l + 1;
            }
            assert((k + 1) * (2 * h) == start + 2 * h) by (nonlinear_arith)
                requires
                    start == k * (2 * h),
            ;
            k = k + 1;
        }
        twiddle
    }
}

/// The twiddle factors of an interleaved pair in the lanes that its blocks fill, zero in the others.
pub open spec fn is_otf_twiddle<P: PackedField>(
    r: P,
    s_evals_i: Seq<P::Scalar>,
    log_blocks_count: nat,
    log_block_len: nat,
    initial_twiddle: P::Scalar,
) -> bool {
    let h = pow2(log_block_len) as int;
    forall|l: int|
        0 <= l < P::spec_width() ==> #[trigger] r.lanes()[l] == if l < pow2(log_blocks_count) * (2
            * h) {
            otf_lane(s_evals_i, log_blocks_count, h, initial_twiddle, l)
        } else {
            P::Scalar::spec_zero()
        }
}

/// The twiddle factor that belongs into lane `l`.
pub open spec fn otf_lane<F: BinaryField>(
    s_evals_i: Seq<F>,
    log_blocks_count: nat,
    h: int,
    initial_twiddle: F,
    l: int,
) -> F {
    let sub = selected_sum(s_evals_i, log_blocks_count, (l / (2 * h)) as nat);
    if l % (2 * h) < h {
        initial_twiddle.sum(sub)
    } else {
        initial_twiddle.sum(sub.sum(s_evals_i[log_blocks_count as int]))
    }
}

impl<F: BinaryField> Stages<F> for AdditiveNTTWithOTFCompute<F> {
    open spec fn dimensions(&self) -> nat {
        self.log_domain()
    }

    fn log_domain_size(&self) -> (r: usize) {
        proof {
            use_type_invariant(self);
        }
        self.log_domain_size
    }

    /// Stage `i` where its butterflies act on whole packed elements.
    fn wide_stage<P: PackedField<Scalar = F>>(
        &self,
        forward: bool,
        data: &mut [P],
        params: NTTParams,
        coset: u32,
        log_b: usize,
        i: usize,
    ) {
        proof {
            use_type_invariant(self);
        }
        let log_n = params.log_n;
        let ghost offset = stage_offset(log_n as nat, coset as nat, i as nat);
        let ghost x = scalars(data@);
        let ghost len = data@.len();
        let s_evals_i = self.s_evals[i].as_slice();
        assert(is_evals_row(s_evals_i@, i as int, self.log_domain()));
        let log_blocks = log_n - 1 - i;
        let tail = slice_subrange(s_evals_i, log_blocks, s_evals_i.len());
        let coset_twiddle = subset_sum(tail, params.coset_bits, coset as usize);
        let blocks = power_of_two(log_blocks);
        let half = power_of_two(i + log_b - params.log_w);
        proof {
            lemma_wide_geometry(
                params,
                self.log_domain(),
                len,
                P::spec_width(),
                coset as nat,
                log_b as nat,
                i as nat,
            );
            lemma_selected_sum_is_normalized(
                tail@,
                i as nat,
                log_n as nat,
                params.coset_bits as nat,
                coset as nat,
            );
            lemma_no_blocks(forward, i as nat, log_b as nat, offset, x);
        }
        let mut j: usize = 0;
        while j < blocks
            invariant
                j <= blocks,
                blocks == pow2(log_blocks as nat),
                log_blocks == log_n - 1 - i,
                i < log_n,
                log_blocks <= s_evals_i@.len(),
                log_blocks < usize::BITS,
                0 < half,
                half * P::spec_width() == half_block(i as nat, log_b as nat),
                len == blocks * (2 * half),
                data@.len() == len,
                x.len() == len * P::spec_width(),
                is_evals_row(s_evals_i@, i as int, self.log_domain()),
                offset == stage_offset(log_n as nat, coset as nat, i as nat),
                coset_twiddle == normalized(i as nat, combination::<F>(log_n as nat, coset as nat)),
                scalars(data@) == stage_prefix(
                    forward,
                    i as nat,
                    log_b as nat,
                    offset,
                    j as nat,
                    x,
                ),
            decreases blocks - j,
        {
            let block_twiddle = subset_sum(s_evals_i, log_blocks, j);
            let t = block_twiddle.add(coset_twiddle);
            let ghost before = data@;
            proof {
                lemma_selected_sum_is_normalized(
                    s_evals_i@,
                    i as nat,
                    (i + 1) as nat,
                    log_blocks as nat,
                    j as nat,
                );
                lemma_combination_splits::<F>(
                    (i + 1) as nat,
                    log_blocks as nat,
                    coset as nat,
                    j as nat,
                );
                lemma_normalized(
                    i as nat,
                    combination::<F>((i + 1) as nat, j as nat),
                    combination::<F>(log_n as nat, coset as nat),
                );
                assert(t == twiddle::<F>(i as nat, offset + j as nat));
                assert(j * (2 * half) + 2 * half <= len) by (nonlinear_arith)
                    requires
                        j + 1 <= blocks,
                        len == blocks * (2 * half),
                ;
            }
            assert(data@.len() == data.len());
            butterfly_block(forward, data, j * (2 * half), half, t);
            proof {
                lemma_block_step(
                    forward,
                    i as nat,
                    log_b as nat,
                    offset,
                    j as nat,
                    half as int,
                    x,
                    before,
                    data@,
                );
            }
            j = j + 1;
        }
        proof {
            lemma_stage_complete(forward, i as nat, log_b as nat, offset, blocks as nat, x);
        }
    }

    /// Stage `i` where its butterflies act between the lanes of packed elements.
    fn narrow_stage<P: PackedField<Scalar = F>>(
        &self,
        forward: bool,
        data: &mut [P],
        params: NTTParams,
        coset: u32,
        log_b: usize,
        i: usize,
    ) {
        let log_n = params.log_n;
        let cutoff = params.log_w - log_b;
        let ghost offset = stage_offset(log_n as nat, coset as nat, i as nat);
        let ghost x = scalars(data@);
        let ghost len = data@.len();
        proof {
            use_type_invariant(self);
            lemma_narrow_geometry(
                params,
                self.log_domain(),
                len,
                P::spec_width(),
                coset as nat,
                log_b as nat,
                i as nat,
            );
            lemma_no_blocks(forward, i as nat, log_b as nat, offset, x);
        }
        let s_evals_i = self.s_evals[i].as_slice();
        assert(is_evals_row(s_evals_i@, i as int, self.log_domain()));
        let coset_tail = slice_subrange(s_evals_i, log_n - 1 - i, s_evals_i.len());
        let coset_twiddle = subset_sum(coset_tail, params.coset_bits, coset as usize);
        let pair_tail = slice_subrange(s_evals_i, cutoff - i, s_evals_i.len());
        let log_block_len = i + log_b;
        let log_blocks_count = cutoff - i - 1;
        let log_pairs = log_n - 1 - cutoff;
        let pairs = power_of_two(log_pairs);
        let ghost blocks = pow2(log_blocks_count as nat);
        let ghost h = half_block(i as nat, log_b as nat) as int;
        proof {
            lemma_selected_sum_is_normalized(
                coset_tail@,
                i as nat,
                log_n as nat,
                params.coset_bits as nat,
                coset as nat,
            );
            lemma_pow2_pos(log_block_len as nat);
            lemma_fundamental_div_mod_converse(P::spec_width() as int, 2 * h, blocks as int, 0);
            assert((2 * 0nat) * blocks == 0) by (nonlinear_arith);
            assert(0 < P::spec_width()) by (nonlinear_arith)
                requires
                    P::spec_width() == blocks * (2 * h),
                    0 < blocks,
                    0 < h,
            ;
        }
        let mut j: usize = 0;
        while j < pairs
            invariant
                j <= pairs,
                i < cutoff < log_n,
                log_n <= self.log_domain(),
                cutoff + log_b == params.log_w,
                log_block_len == i + log_b,
                log_blocks_count == cutoff - i - 1,
                log_pairs == log_n - 1 - cutoff,
                log_n + log_b < usize::BITS,
                pairs == pow2(log_pairs as nat),
                blocks == pow2(log_blocks_count as nat),
                h == half_block(i as nat, log_b as nat),
                0 < h,
                0 < blocks,
                P::spec_width() == blocks * (2 * h),
                P::spec_width() as int % (2 * h) == 0,
                0 < P::spec_width(),
                len == 2 * pairs,
                data@.len() == len,
                x.len() == len * P::spec_width(),
                is_evals_row(s_evals_i@, i as int, self.log_domain()),
                pair_tail@ == s_evals_i@.subrange(cutoff - i, s_evals_i@.len() as int),
                offset == stage_offset(log_n as nat, coset as nat, i as nat),
                coset_twiddle == normalized(i as nat, combination::<F>(log_n as nat, coset as nat)),
                scalars(data@) == stage_prefix(
                    forward,
                    i as nat,
                    log_b as nat,
                    offset,
                    (2 * j as nat) * blocks,
                    x,
                ),
            decreases pairs - j,
        {
            let block_twiddle = subset_sum(pair_tail, log_pairs, j);
            let initial = block_twiddle.add(coset_twiddle);
            let twiddles: P = self.calculate_twiddle(
                s_evals_i,
                log_blocks_count,
                log_block_len,
                initial,
            );
            let ghost before = data@;
            proof {
                lemma_selected_sum_is_normalized(
                    pair_tail@,
                    i as nat,
                    (cutoff + 1) as nat,
                    log_pairs as nat,
                    j as nat,
                );
                assert forall|l: int| 0 <= l < P::spec_width() implies #[trigger] twiddles.lanes()[l]
                    == twiddle::<F>(
                    i as nat,
                    (offset + (2 * j + if l % (2 * h) < h {
                        0int
                    } else {
                        1int
                    }) * blocks + l / (2 * h)) as nat,
                ) by {
                    crate::packed::lemma_lane_of_scalar(blocks as int, 2 * h, l);
                    let k = (l / (2 * h)) as nat;
                    let second = !(l % (2 * h) < h);
                    lemma_selected_sum_is_normalized(
                        s_evals_i@,
                        i as nat,
                        (i + 1) as nat,
                        log_blocks_count as nat,
                        k,
                    );
                    lemma_pair_twiddle::<F>(
                        i as nat,
                        log_n as nat,
                        cutoff as nat,
                        coset as nat,
                        j as nat,
                        second,
                        k,
                    );
                    lemma_sum_cancels(
                        selected_sum(s_evals_i@, log_blocks_count as nat, k),
                        F::spec_zero(),
                    );
                }
            }
            butterfly_pair(forward, data, j, log_block_len, twiddles);
            proof {
                lemma_pair_step(
                    forward,
                    i as nat,
                    log_b as nat,
                    offset,
                    j as nat,
                    blocks,
                    twiddles,
                    x,
                    before,
                    data@,
                );
            }
            j = j + 1;
        }
        proof {
            lemma_stage_complete(
                forward,
                i as nat,
                log_b as nat,
                offset,
                (2 * pairs as nat) * blocks,
                x,
            );
        }
    }
}

impl<F: BinaryField, P: PackedField<Scalar = F>> AdditiveNTT<P> for AdditiveNTTWithOTFCompute<F> {
    open spec fn domain_dimensions(&self) -> nat {
        self.log_domain()
    }

    fn forward_transform(&self, data: &mut [P], coset: u32, log_batch_size: usize) -> (r: Result<
        (),
        Error,
    >) {
        proof {
            use_type_invariant(self);
        }
        forward(self, data, coset, log_batch_size)
    }

    fn inverse_transform(&self, data: &mut [P], coset: u32, log_batch_size: usize) -> (r: Result<
        (),
        Error,
    >) {
        proof {
            use_type_invariant(self);
        }
        inverse(self, data, coset, log_batch_size)
    }
}

} // verus!

//! The transform that keeps all of its twiddle factors.

use vstd::arithmetic::div_mod::{
    lemma_fundamental_div_mod, lemma_fundamental_div_mod_converse, lemma_mod_multiples_basic,
};
use vstd::arithmetic::power2::{
    lemma2_to64, lemma_pow2_adds, lemma_pow2_pos, lemma_pow2_unfold, pow2,
};
use vstd::bits::lemma_usize_pow2_no_overflow;
use vstd::prelude::*;

use crate::additive_ntt::AdditiveNTT;
use crate::bits::{join_bits, lemma_or_is_sum, lemma_power_monotone, power_of_two};
use crate::blocks::{butterfly_block, butterfly_pair, lemma_block_step, lemma_pair_step};
use crate::error::Error;
use crate::field::{lemma_sum_cancels, BinaryField};
use crate::novel::{half_block, lemma_block_position, stage_offset, stage_prefix, twiddle};
use crate::packed::{lemma_lane_of_scalar, scalars, PackedField};
use crate::params::NTTParams;
use crate::stages::{
    lemma_narrow_geometry, lemma_no_blocks, lemma_stage_complete, lemma_wide_geometry,
};
use crate::subspace::{
    combination, is_evals_row, is_evals_table, lemma_combination_splits, lemma_normalized,
    normalized, precompute_subspace_evals, total_len,
};
use crate::transform::{forward, inverse, Stages};

verus! {

/// An additive transform with a larger table of precomputed constants.
///
/// It keeps all `2^k - 1` twiddle factors of the stages for a domain of `2^k` points.
#[derive(Debug)]
pub struct AdditiveNTTWithPrecompute<F: BinaryField> {
    log_domain_size: usize,
    s_evals_expanded: Vec<Vec<F>>,
}

/// The number of twiddle factors of stage `i`.
pub open spec fn expanded_len(i: int, log_domain_size: nat) -> nat {
    if i < log_domain_size {
        pow2((log_domain_size - 1 - i) as nat)
    } else {
        1
    }
}

/// Row `i` of the table holds the twiddle factors of stage `i`.
spec fn is_expanded_row<F: BinaryField>(row: Seq<F>, i: int, log_domain_size: nat) -> bool {
    &&& row.len() == expanded_len(i, log_domain_size)
    &&& forall|m: int| 0 <= m < row.len() ==> #[trigger] row[m] == twiddle::<F>(i as nat, m as nat)
}

/// The size of the first `k` rows of a table of twiddle factors.
proof fn lemma_expanded_table_size<F: BinaryField>(
    table: Seq<Vec<F>>,
    log_domain_size: nat,
    k: nat,
)
    requires
        k <= table.len(),
        k <= log_domain_size || log_domain_size == 0 && k == 1,
        forall|i: int|
            0 <= i < table.len() ==> is_expanded_row(#[trigger] table[i]@, i, log_domain_size),
    ensures
        total_len(table.take(k as int)) == if log_domain_size == 0 {
            k as int
        } else {
            pow2(log_domain_size) - pow2((log_domain_size - k) as nat)
        },
    decreases k,
{
    let part = table.take(k as int);
    if k > 0 {
        let j = (k - 1) as nat;
        lemma_expanded_table_size(table, log_domain_size, j);
        assert(part.drop_last() =~= table.take(j as int));
        assert(part.last() == table[j as int]);
        assert(is_expanded_row(table[j as int]@, j as int, log_domain_size));
        if log_domain_size > 0 {
            lemma_pow2_unfold((log_domain_size - j) as nat);
        }
    }
}

/// The twiddle factors of stage `i`, from the values of its subspace polynomial at the basis
/// vectors.
fn expand_row<F: BinaryField>(s_evals_i: &[F], i: Ghost<nat>) -> (r: Vec<F>)
    requires
        s_evals_i@.len() < usize::BITS,
        forall|b: int|
            0 <= b < s_evals_i@.len() ==> #[trigger] s_evals_i@[b] == normalized(
                i@,
                F::spec_basis((i@ + 1 + b) as nat),
            ),
    ensures
        r@.len() == pow2(s_evals_i@.len()),
        forall|m: int| 0 <= m < r@.len() ==> #[trigger] r@[m] == twiddle::<F>(i@, m as nat),
{
    let mut expanded: Vec<F> = Vec::with_capacity(power_of_two(s_evals_i.len()));
    expanded.push(F::zero());
    proof {
        lemma2_to64();
        lemma_normalized(i@, F::spec_zero(), F::spec_zero());
        assert(combination::<F>(i@ + 1, 0) == F::spec_zero());
    }
    let mut b: usize = 0;
    while b < s_evals_i.len()
        invariant
            b <= s_evals_i@.len(),
            s_evals_i@.len() < usize::BITS,
            expanded@.len() == pow2(b as nat),
            forall|k: int|
                0 <= k < s_evals_i@.len() ==> #[trigger] s_evals_i@[k] == normalized(
                    i@,
                    F::spec_basis((i@ + 1 + k) as nat),
                ),
            forall|m: int|
                0 <= m < expanded@.len() ==> #[trigger] expanded@[m] == twiddle::<F>(
                    i@,
                    m as nat,
                ),
        decreases s_evals_i.len() - b,
    {
        let eval = s_evals_i[b];
        let len = expanded.len();
        let ghost lo = i@ + 1 + b as nat;
        proof {
            lemma_pow2_unfold((b + 1) as nat);
            assert(combination::<F>(lo + 1, 0) == F::spec_zero());
            lemma_sum_cancels(F::spec_basis(lo), F::spec_zero());
            assert(combination::<F>(lo, 1) == F::spec_basis(lo));
        }
        let mut k: usize = 0;
        while k < len
            invariant
                k <= len,
                len == pow2(b as nat),
                expanded@.len() == len + k,
                eval == normalized(i@, F::spec_basis(lo)),
                lo == i@ + 1 + b as nat,
                combination::<F>(lo, 1) == F::spec_basis(lo),
                forall|m: int|
                    0 <= m < expanded@.len() ==> #[trigger] expanded@[m] == twiddle::<F>(
                        i@,
                        m as nat,
                    ),
            decreases len - k,
        {
            proof {
                lemma_combination_splits::<F>(i@ + 1, b as nat, 1, k as nat);
                assert(1 * pow2(b as nat) + k as nat == len + k) by (nonlinear_arith)
                    requires
                        len == pow2(b as nat),
                ;
                lemma_normalized(i@, combination::<F>(i@ + 1, k as nat), F::spec_basis(lo));
            }
            expanded.push(expanded[k].add(eval));
            k = k + 1;
        }
        b = b + 1;
    }
    expanded
}

impl<F: BinaryField> AdditiveNTTWithPrecompute<F> {
    /// The number of dimensions of the domain.
    pub closed spec fn log_domain(&self) -> nat {
        self.log_domain_size as nat
    }

    /// The number of field elements that are kept.
    pub closed spec fn constants(&self) -> nat {
        total_len(self.s_evals_expanded@)
    }

    #[verifier::type_invariant]
    spec fn valid(&self) -> bool {
        &&& self.log_domain_size <= F::spec_n_bits()
        &&& self.log_domain_size < usize::BITS
        &&& self.s_evals_expanded@.len() == if self.log_domain_size == 0 {
            1
        } else {
            self.log_domain_size as nat
        }
        &&& forall|i: int|
            0 <= i < self.s_evals_expanded@.len() ==> is_expanded_row(
                #[trigger] self.s_evals_expanded@[i]@,
                i,
                self.log_domain_size as nat,
            )
    }

    /// The transform for the domain that the first `log_domain_size` basis vectors span.
    pub fn new(log_domain_size: usize) -> (r: Result<Self, Error>)
        requires
            log_domain_size <= F::spec_n_bits() ==> log_domain_size < usize::BITS,
        ensures
            log_domain_size <= F::spec_n_bits() ==> r is Ok,
            log_domain_size > F::spec_n_bits() ==> r == Err::<Self, Error>(
                Error::FieldTooSmall { log_domain_size },
            ),
            r matches Ok(ntt) ==> ntt.log_domain() == log_domain_size,
            r matches Ok(ntt) ==> AdditiveNTT::<F>::domain_dimensions(&ntt) == log_domain_size,
            r matches Ok(ntt) ==> ntt.constants() == if log_domain_size == 0 {
                1
            } else {
                pow2(log_domain_size as nat) - 1
            },
    {
        let s_evals: Vec<Vec<F>> = match precompute_subspace_evals(log_domain_size) {
            Ok(s_evals) => s_evals,
            Err(error) => return Err(error),
        };
        let mut s_evals_expanded: Vec<Vec<F>> = Vec::new();
        let mut i: usize = 0;
        proof {
            lemma2_to64();
        }
        while i < s_evals.len()
            invariant
                i <= s_evals@.len(),
                is_evals_table(s_evals@, log_domain_size as nat),
                log_domain_size < usize::BITS,
                pow2(0) == 1,
                s_evals_expanded@.len() == i,
                forall|k: int|
                    0 <= k < i ==> is_expanded_row(
                        #[trigger] s_evals_expanded@[k]@,
                        k,
                        log_domain_size as nat,
                    ),
            decreases s_evals.len() - i,
        {
            assert(is_evals_row(s_evals@[i as int]@, i as int, log_domain_size as nat));
            let expanded = expand_row(s_evals[i].as_slice(), Ghost(i as nat));
            assert(is_expanded_row(expanded@, i as int, log_domain_size as nat));
            s_evals_expanded.push(expanded);
            i = i + 1;
        }
        proof {
            let rows = s_evals_expanded@;
            lemma_expanded_table_size(rows, log_domain_size as nat, rows.len());
            assert(rows.take(rows.len() as int) =~= rows);
        }
        Ok(AdditiveNTTWithPrecompute { log_domain_size, s_evals_expanded })
    }

    /// The value of the `i`-th normalized subspace polynomial at the `j`-th basis vector.
    pub fn get_subspace_eval(&self, i: usize, j: usize) -> (r: F)
        requires
            i < self.log_domain(),
            j < self.log_domain(),
        ensures
            r == normalized(i as nat, F::spec_basis(j as nat)),
    {
        proof {
            use_type_invariant(self);
            lemma_normalized(i as nat, F::spec_zero(), F::spec_zero());
            assert(is_expanded_row(
                self.s_evals_expanded@[i as int]@,
                i as int,
                self.log_domain_size as nat,
            ));
        }
        if j < i {
            F::zero()
        } else if j == i {
            F::one()
        } else {
            let shift = j - i - 1;
            proof {
                vstd::arithmetic::power2::lemma_pow2_strictly_increases(
                    shift as nat,
                    (self.log_domain_size - 1 - i) as nat,
                );
                let m = pow2(shift as nat);
                lemma2_to64();
                lemma_pow2_pos(shift as nat);
                lemma_combination_splits::<F>((i + 1) as nat, shift as nat, 1, 0);
                assert(1 * m + 0 == m) by (nonlinear_arith);
                let lo = j as nat;
                assert(combination::<F>(lo + 1, 0) == F::spec_zero());
                assert(combination::<F>((i + 1) as nat, 0) == F::spec_zero());
                assert(combination::<F>(lo, 1) == F::spec_basis(lo).sum(F::spec_zero()));
                lemma_sum_cancels(F::spec_basis(lo), F::spec_zero());
            }
            self.s_evals_expanded[i][power_of_two(shift)]
        }
    }

    /// The twiddle factors of an interleaved pair of packed elements: in each run of
    /// `2^(log_block_len + 1)` lanes, first that of the first element, then that of the second. Lanes
    /// behind the blocks are zero.
    pub fn calculate_twiddle<P: PackedField<Scalar = F>>(
        &self,
        s_evals_i: &[F],
        log_blocks_count: usize,
        log_block_len: usize,
        evals_index_init_val: usize,
    ) -> (r: P)
        requires
            indices_in_table(s_evals_i@.len(), log_blocks_count as nat, evals_index_init_val),
            log_blocks_count + log_block_len + 1 < usize::BITS,
            pow2(log_blocks_count as nat) * (2 * pow2(log_block_len as nat)) <= P::spec_width(),
        ensures
            is_precomputed_twiddle(
                r,
                s_evals_i@,
                log_blocks_count as nat,
                log_block_len as nat,
                evals_index_init_val,
            ),
    {
        let blocks = power_of_two(log_blocks_count);
        let h = power_of_two(log_block_len);
        let mut twiddle = P::zeros();
        let mut k: usize = 0;
        let ghost width = P::spec_width();
        let ghost used = pow2(log_blocks_count as nat) * (2 * pow2(log_block_len as nat));
        proof {
            lemma_pow2_pos(log_block_len as nat);
            lemma_pow2_unfold((log_block_len + 1) as nat);
            lemma_pow2_adds(log_blocks_count as nat, (log_block_len + 1) as nat);
            lemma_usize_pow2_no_overflow((log_blocks_count + log_block_len + 1) as nat);
        }
        while k < blocks
            invariant
                used <= usize::MAX,
                used <= width,
                k <= blocks,
                0 < h,
                h == pow2(log_block_len as nat),
                width == P::spec_width(),
                used == blocks * (2 * h),
                blocks == pow2(log_blocks_count as nat),
                log_blocks_count < usize::BITS,
                indices_in_table(
                    s_evals_i@.len(),
                    log_blocks_count as nat,
                    evals_index_init_val,
                ),
                forall|l: int|
                    0 <= l < k * (2 * h) ==> #[trigger] twiddle.lanes()[l] == precomputed_lane(
                        s_evals_i@,
                        blocks,
                        h as int,
                        evals_index_init_val,
                        l,
                    ),
                forall|l: int|
                    k * (2 * h) <= l < width ==> #[trigger] twiddle.lanes()[l] == F::spec_zero(),
            decreases blocks - k,
        {
            proof {
                lemma_pow2_pos(log_blocks_count as nat);
                vstd::arithmetic::div_mod::lemma_mod_self_0(blocks as int);
                lemma_or_is_sum(blocks, k, log_blocks_count as nat);
                assert(evals_index_init_val | blocks | k == evals_index_init_val | (blocks | k))
                    by (bit_vector);
                assert((evals_index_init_val | k) < s_evals_i@.len());
            }
            let subblock_twiddle_0 = s_evals_i[evals_index_init_val | k];
            let subblock_twiddle_1 = s_evals_i[evals_index_init_val | blocks | k];
            assert(k * (2 * h) + 2 * h <= used) by (nonlinear_arith)
                requires
                    k + 1 <= blocks,
                    used == blocks * (2 * h),
            ;
            let start = k * (2 * h);
            let mut l: usize = 0;
            while l < h
                invariant
                    used <= usize::MAX,
                    used <= width,
                    l <= h,
                    0 < h,
                    width == P::spec_width(),
                    start == k * (2 * h),
                    start + 2 * h <= used,
                    subblock_twiddle_0 == s_evals_i@[(evals_index_init_val | k) as int],
                    subblock_twiddle_1 == s_evals_i@[(evals_index_init_val | blocks | k) as int],
                    forall|m: int|
                        (0 <= m < start + l || start + h <= m < start + h + l)
                            ==> #[trigger] twiddle.lanes()[m] == precomputed_lane(
                            s_evals_i@,
                            blocks,
                            h as int,
                            evals_index_init_val,
                            m,
                        ),
                    forall|m: int|
                        (start + l <= m < start + h || start + h + l <= m < width)
                            ==> #[trigger] twiddle.lanes()[m] == F::spec_zero(),
                decreases h - l,
            {
                let idx0 = start + l;
                let idx1 = start + h + l;
                proof {
                    twiddle.lanes_match_width();
                    lemma_block_position(k as int, h as int, l as int);
                    lemma_block_position(k as int, h as int, h + l);
                }
                twiddle.set(idx0, subblock_twiddle_0);
                twiddle.set(idx1, subblock_twiddle_1);
                l = l + 1;
            }
            assert((k + 1) * (2 * h) == start + 2 * h) by (nonlinear_arith)
                requires
                    start == k * (2 * h),
            ;
            k = k + 1;
        }
        twiddle
    }
}

/// The table reaches the twiddle factors of `2^(log_blocks_count + 1)` blocks whose indices begin
/// with the digits of `init`.
pub open spec fn indices_in_table(len: nat, log_blocks_count: nat, init: usize) -> bool {
    forall|x: usize| x < 2 * pow2(log_blocks_count) ==> #[trigger] (init | x) < len
}

/// The twiddle factors of an interleaved pair in the lanes that its blocks fill, zero in the others.
pub open spec fn is_precomputed_twiddle<P: PackedField>(
    r: P,
    s_evals_i: Seq<P::Scalar>,
    log_blocks_count: nat,
    log_block_len: nat,
    init: usize,
) -> bool {
    let h = pow2(log_block_len) as int;
    forall|l: int|
        0 <= l < P::spec_width() ==> #[trigger] r.lanes()[l] == if l < pow2(log_blocks_count) * (2
            * h) {
            precomputed_lane(s_evals_i, pow2(log_blocks_count) as usize, h, init, l)
        } else {
            P::Scalar::spec_zero()
        }
}

/// The twiddle factor that belongs into lane `l`.
pub open spec fn precomputed_lane<F>(
    s_evals_i: Seq<F>,
    blocks: usize,
    h: int,
    init: usize,
    l: int,
) -> F {
    let k = (l / (2 * h)) as usize;
    if l % (2 * h) < h {
        s_evals_i[(init | k) as int]
    } else {
        s_evals_i[(init | blocks | k) as int]
    }
}

/// The digits of a block behind those of an aligned index.
pub proof fn lemma_aligned_index(init: usize, log_blocks_count: nat, k: usize)
    requires
        log_blocks_count + 1 < usize::BITS,
        init as int % (2 * pow2(log_blocks_count)) as int == 0,
        k < pow2(log_blocks_count),
    ensures
        init | k == init + k,
        init | (pow2(log_blocks_count) as usize) | k == init + pow2(log_blocks_count) + k,
{
    let c = log_blocks_count;
    lemma_pow2_pos(c);
    lemma_pow2_unfold(c + 1);
    lemma_usize_pow2_no_overflow(c);
    let blocks = pow2(c) as usize;
    lemma_or_is_sum(init, k, c + 1);
    lemma_or_is_sum(init, blocks, c + 1);
    lemma_fundamental_div_mod(init as int, 2 * pow2(c) as int);
    let q = init as int / (2 * pow2(c) as int);
    assert(init + blocks == (2 * q + 1) * pow2(c)) by (nonlinear_arith)
        requires
            init == (2 * pow2(c)) * q,
            blocks == pow2(c),
    ;
    lemma_mod_multiples_basic(2 * q + 1, pow2(c) as int);
    lemma_or_is_sum(init | blocks, k, c);
}

/// An aligned index within a table of `2^n` entries reaches all of its blocks.
pub proof fn lemma_aligned_in_table(n: nat, log_blocks_count: nat, init: usize)
    requires
        log_blocks_count < n < usize::BITS,
        init as int % (2 * pow2(log_blocks_count)) as int == 0,
        init < pow2(n),
    ensures
        indices_in_table(pow2(n), log_blocks_count, init),
        init + 2 * pow2(log_blocks_count) <= pow2(n),
{
    let c = log_blocks_count;
    let d = (n - c - 1) as nat;
    lemma_pow2_unfold(c + 1);
    lemma_pow2_adds(c + 1, d);
    lemma_pow2_pos(c);
    lemma_fundamental_div_mod(init as int, 2 * pow2(c) as int);
    let q = init as int / (2 * pow2(c) as int);
    assert(init + 2 * pow2(c) <= pow2(n)) by (nonlinear_arith)
        requires
            init == (2 * pow2(c)) * q,
            init < pow2(n),
            pow2(n) == (2 * pow2(c)) * pow2(d),
            pow2(c) > 0,
    {
        assert(q < pow2(d));
    }
    assert forall|x: usize| x < 2 * pow2(c) implies #[trigger] (init | x) < pow2(n) by {
        lemma_or_is_sum(init, x, c + 1);
    }
}

/// The twiddle factors of a stage on a coset lie within the table.
proof fn lemma_offset_in_table(log_domain_size: nat, log_n: nat, coset_bits: nat, coset: nat, i: nat)
    requires
        i < log_n,
        log_n + coset_bits <= log_domain_size,
        coset < pow2(coset_bits),
    ensures
        stage_offset(log_n, coset, i) + pow2((log_n - 1 - i) as nat) <= expanded_len(
            i as int,
            log_domain_size,
        ),
{
    let s = (log_n - 1 - i) as nat;
    lemma_pow2_adds(coset_bits, s);
    lemma_power_monotone(coset_bits + s, (log_domain_size - 1 - i) as nat);
    assert(coset * pow2(s) + pow2(s) <= pow2(coset_bits) * pow2(s)) by (nonlinear_arith)
        requires
            coset + 1 <= pow2(coset_bits),
    ;
}

impl<F: BinaryField> Stages<F> for AdditiveNTTWithPrecompute<F> {
    open spec fn dimensions(&self) -> nat {
        self.log_domain()
    }

    fn log_domain_size(&self) -> (r: usize) {
        proof {
            use_type_invariant(self);
        }
        self.log_domain_size
    }

    /// Stage `i` where its butterflies act on whole packed elements.
    fn wide_stage<P: PackedField<Scalar = F>>(
        &self,
        forward: bool,
        data: &mut [P],
        params: NTTParams,
        coset: u32,
        log_b: usize,
        i: usize,
    ) {
        proof {
            use_type_invariant(self);
        }
        let log_n = params.log_n;
        let ghost offset = stage_offset(log_n as nat, coset as nat, i as nat);
        let ghost x = scalars(data@);
        let ghost len = data@.len();
        let s_evals_i = self.s_evals_expanded[i].as_slice();
        assert(is_expanded_row(s_evals_i@, i as int, self.log_domain()));
        assert(s_evals_i@.len() == s_evals_i.len());
        let log_blocks = log_n - 1 - i;
        let blocks = power_of_two(log_blocks);
        let half = power_of_two(i + log_b - params.log_w);
        proof {
            lemma_wide_geometry(
                params,
                self.log_domain(),
                len,
                P::spec_width(),
                coset as nat,
                log_b as nat,
                i as nat,
            );
            lemma_offset_in_table(
                self.log_domain(),
                log_n as nat,
                params.coset_bits as nat,
                coset as nat,
                i as nat,
            );
            lemma_no_blocks(forward, i as nat, log_b as nat, offset, x);
        }
        let mut j: usize = 0;
        while j < blocks
            invariant
                j <= blocks,
                blocks == pow2(log_blocks as nat),
                log_blocks == log_n - 1 - i,
                i < log_n,
                log_blocks < usize::BITS,
                0 < half,
                half * P::spec_width() == half_block(i as nat, log_b as nat),
                len == blocks * (2 * half),
                data@.len() == len,
                x.len() == len * P::spec_width(),
                is_expanded_row(s_evals_i@, i as int, self.log_domain()),
                offset + blocks <= s_evals_i@.len() <= usize::MAX,
                offset == stage_offset(log_n as nat, coset as nat, i as nat),
                scalars(data@) == stage_prefix(
                    forward,
                    i as nat,
                    log_b as nat,
                    offset,
                    j as nat,
                    x,
                ),
            decreases blocks - j,
        {
            let t = s_evals_i[join_bits(coset as usize, log_blocks, j)];
            let ghost before = data@;
            proof {
                assert(t == twiddle::<F>(i as nat, offset + j as nat));
                assert(j * (2 * half) + 2 * half <= len) by (nonlinear_arith)
                    requires
                        j + 1 <= blocks,
                        len == blocks * (2 * half),
                ;
            }
            assert(data@.len() == data.len());
            butterfly_block(forward, data, j * (2 * half), half, t);
            proof {
                lemma_block_step(
                    forward,
                    i as nat,
                    log_b as nat,
                    offset,
                    j as nat,
                    half as int,
                    x,
                    before,
                    data@,
                );
            }
            j = j + 1;
        }
        proof {
            lemma_stage_complete(forward, i as nat, log_b as nat, offset, blocks as nat, x);
        }
    }

    /// Stage `i` where its butterflies act between the lanes of packed elements.
    fn narrow_stage<P: PackedField<Scalar = F>>(
        &self,
        forward: bool,
        data: &mut [P],
        params: NTTParams,
        coset: u32,
        log_b: usize,
        i: usize,
    ) {
        let log_n = params.log_n;
        let cutoff = params.log_w - log_b;
        let ghost offset = stage_offset(log_n as nat, coset as nat, i as nat);
        let ghost x = scalars(data@);
        let ghost len = data@.len();
        proof {
            use_type_invariant(self);
            lemma_narrow_geometry(
                params,
                self.log_domain(),
                len,
                P::spec_width(),
                coset as nat,
                log_b as nat,
                i as nat,
            );
            lemma_offset_in_table(
                self.log_domain(),
                log_n as nat,
                params.coset_bits as nat,
                coset as nat,
                i as nat,
            );
            lemma_no_blocks(forward, i as nat, log_b as nat, offset, x);
        }
        let s_evals_i = self.s_evals_expanded[i].as_slice();
        assert(is_expanded_row(s_evals_i@, i as int, self.log_domain()));
        assert(s_evals_i@.len() == s_evals_i.len());
        let log_block_len = i + log_b;
        let log_blocks_count = cutoff - i - 1;
        let log_pairs = log_n - 1 - cutoff;
        let pairs = power_of_two(log_pairs);
        let ghost blocks = pow2(log_blocks_count as nat);
        let ghost h = half_block(i as nat, log_b as nat) as int;
        proof {
            lemma_pow2_pos(log_block_len as nat);
            lemma_fundamental_div_mod_converse(P::spec_width() as int, 2 * h, blocks as int, 0);
            assert((2 * 0nat) * blocks == 0) by (nonlinear_arith);
            assert(0 < P::spec_width()) by (nonlinear_arith)
                requires
                    P::spec_width() == blocks * (2 * h),
                    0 < blocks,
                    0 < h,
            ;
            lemma_pow2_unfold((cutoff - i) as nat);
            lemma_pow2_adds((cutoff - i) as nat, log_pairs as nat);
        }
        let mut j: usize = 0;
        while j < pairs
            invariant
                j <= pairs,
                i < cutoff < log_n,
                log_n <= self.log_domain(),
                cutoff + log_b == params.log_w,
                log_block_len == i + log_b,
                log_blocks_count == cutoff - i - 1,
                log_pairs == log_n - 1 - cutoff,
                log_n + log_b < usize::BITS,
                pairs == pow2(log_pairs as nat),
                blocks == pow2(log_blocks_count as nat),
                pow2((cutoff - i) as nat) == 2 * blocks,
                pow2((log_n - 1 - i) as nat) == (2 * blocks) * pairs,
                h == half_block(i as nat, log_b as nat),
                0 < h,
                0 < blocks,
                P::spec_width() == blocks * (2 * h),
                P::spec_width() as int % (2 * h) == 0,
                0 < P::spec_width(),
                len == 2 * pairs,
                data@.len() == len,
                x.len() == len * P::spec_width(),
                is_expanded_row(s_evals_i@, i as int, self.log_domain()),
                offset == stage_offset(log_n as nat, coset as nat, i as nat),
                offset + pow2((log_n - 1 - i) as nat) <= s_evals_i@.len() <= usize::MAX,
                scalars(data@) == stage_prefix(
                    forward,
                    i as nat,
                    log_b as nat,
                    offset,
                    (2 * j as nat) * blocks,
                    x,
                ),
            decreases pairs - j,
        {
            proof {
                let c = coset as nat;
                assert(c * ((2 * blocks) * pairs) + j * (2 * blocks) == (c * pairs + j) * (2
                    * blocks)) by (nonlinear_arith);
                assert(j * (2 * blocks) + 2 * blocks <= (2 * blocks) * pairs) by (nonlinear_arith)
                    requires
                        j + 1 <= pairs,
                ;
                assert(c * pairs + j <= (c * pairs + j) * (2 * blocks)) by (nonlinear_arith)
                    requires
                        blocks >= 1,
                        c * pairs + j >= 0,
                ;
            }
            let outer = join_bits(coset as usize, log_pairs, j);
            let evals_index_init_val = join_bits(outer, cutoff - i, 0);
            assert(evals_index_init_val == offset + (2 * j) * blocks) by {
                assert(j * (2 * blocks) == (2 * j) * blocks) by (nonlinear_arith);
            }
            proof {
                let c = log_blocks_count as nat;
                lemma_mod_multiples_basic((coset as int) * pairs + j, 2 * blocks as int);
                lemma_pow2_unfold(c + 1);
                assert forall|x: usize| x < 2 * blocks implies #[trigger] (evals_index_init_val | x)
                    < s_evals_i@.len() by {
                    lemma_or_is_sum(evals_index_init_val, x, c + 1);
                }
            }
            let twiddles: P = self.calculate_twiddle(
                s_evals_i,
                log_blocks_count,
                log_block_len,
                evals_index_init_val,
            );
            let ghost before = data@;
            proof {
                assert forall|l: int| 0 <= l < P::spec_width() implies #[trigger] twiddles.lanes()[l]
                    == twiddle::<F>(
                    i as nat,
                    (offset + (2 * j + if l % (2 * h) < h {
                        0int
                    } else {
                        1int
                    }) * blocks + l / (2 * h)) as nat,
                ) by {
                    lemma_lane_of_scalar(blocks as int, 2 * h, l);
                    lemma_aligned_index(
                        evals_index_init_val,
                        log_blocks_count as nat,
                        (l / (2 * h)) as usize,
                    );
                    assert((2 * j + 1) * blocks == (2 * j) * blocks + blocks) by (nonlinear_arith);
                }
            }
            butterfly_pair(forward, data, j, log_block_len, twiddles);
            proof {
                lemma_pair_step(
                    forward,
                    i as nat,
                    log_b as nat,
                    offset,
                    j as nat,
                    blocks,
                    twiddles,
                    x,
                    before,
                    data@,
                );
            }
            j = j + 1;
        }
        proof {
            lemma_stage_complete(
                forward,
                i as nat,
                log_b as nat,
                offset,
                (2 * pairs as nat) * blocks,
                x,
            );
        }
    }
}

impl<F: BinaryField, P: PackedField<Scalar = F>> AdditiveNTT<P> for AdditiveNTTWithPrecompute<F> {
    open spec fn domain_dimensions(&self) -> nat {
        self.log_domain()
    }

    fn forward_transform(&self, data: &mut [P], coset: u32, log_batch_size: usize) -> (r: Result<
        (),
        Error,
    >) {
        proof {
            use_type_invariant(self);
        }
        forward(self, data, coset, log_batch_size)
    }

    fn inverse_transform(&self, data: &mut [P], coset: u32, log_batch_size: usize) -> (r: Result<
        (),
        Error,
    >) {
        proof {
            use_type_invariant(self);
        }
        inverse(self, data, coset, log_batch_size)
    }
}

} // verus!

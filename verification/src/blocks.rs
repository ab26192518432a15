//! Butterflies on packed data: across packed elements, and between the lanes of one.

use vstd::arithmetic::div_mod::{
    lemma_div_denominator, lemma_fundamental_div_mod, lemma_fundamental_div_mod_converse,
    lemma_mod_breakdown,
};
use vstd::arithmetic::power2::{lemma_pow2_pos, pow2};
use vstd::prelude::*;

use crate::novel::{
    butterfly, half_block, lemma_block_position, lemma_partner, lemma_partner_in_range,
    stage_prefix, twiddle,
};
use crate::packed::{lemma_lane_of_scalar, lemma_scalar_position, scalars, PackedField};

verus! {

/// Lane `l` of packed vector `q` after the block of `2 * half` vectors from `start` on went through
/// the butterfly.
pub open spec fn block_lane<P: PackedField>(
    forward: bool,
    data: Seq<P>,
    start: int,
    half: int,
    t: P::Scalar,
    q: int,
    l: int,
) -> P::Scalar {
    if start <= q < start + half {
        butterfly(forward, data[q].lanes()[l], data[q + half].lanes()[l], t).0
    } else if start + half <= q < start + 2 * half {
        butterfly(forward, data[q - half].lanes()[l], data[q].lanes()[l], t).1
    } else {
        data[q].lanes()[l]
    }
}

/// Sends a block of `2 * half` packed vectors through the butterfly, with one twiddle factor.
pub fn butterfly_block<P: PackedField>(
    forward: bool,
    data: &mut [P],
    start: usize,
    half: usize,
    t: P::Scalar,
)
    requires
        start + 2 * half <= old(data)@.len(),
    ensures
        final(data)@.len() == old(data)@.len(),
        forall|q: int, l: int|
            0 <= q < old(data)@.len() && 0 <= l < P::spec_width() ==> #[trigger] final(data)@[q].lanes()[l] == block_lane(
                forward,
                old(data)@,
                start as int,
                half as int,
                t,
                q,
                l,
            ),
{
    let len = data.len();
    let ghost before = data@;
    let mut k: usize = 0;
    while k < half
        invariant
            k <= half,
            len == before.len(),
            data@.len() == len,
            start + 2 * half <= len,
            forall|q: int|
                0 <= q < len && !(start <= q < start + k) && !(start + half <= q < start + half + k)
                    ==> #[trigger] data@[q] == before[q],
            forall|q: int, l: int|
                0 <= l < P::spec_width() && ((start <= q < start + k) || (start + half <= q < start
                    + half + k)) ==> #[trigger] data@[q].lanes()[l] == block_lane(
                    forward,
                    before,
                    start as int,
                    half as int,
                    t,
                    q,
                    l,
                ),
        decreases half - k,
    {
        let idx0 = start + k;
        let idx1 = start + half + k;
        let u = data[idx0];
        let v = data[idx1];
        if forward {
            let w = u.add_lanes(v.scale(t));
            data[idx0] = w;
            data[idx1] = v.add_lanes(w);
        } else {
            let w = v.add_lanes(u);
            data[idx1] = w;
            data[idx0] = u.add_lanes(w.scale(t));
        }
        k = k + 1;
    }
}

/// A block of packed vectors is a block of the stage.
pub proof fn lemma_block_step<P: PackedField>(
    forward: bool,
    i: nat,
    log_batch: nat,
    offset: nat,
    j: nat,
    half: int,
    x: Seq<P::Scalar>,
    before: Seq<P>,
    after: Seq<P>,
)
    requires
        0 < half,
        half * P::spec_width() == half_block(i, log_batch),
        before.len() == after.len(),
        j * (2 * half) + 2 * half <= before.len(),
        x.len() == before.len() * P::spec_width(),
        scalars(before) == stage_prefix(forward, i, log_batch, offset, j, x),
        forall|q: int, l: int|
            0 <= q < before.len() && 0 <= l < P::spec_width() ==> #[trigger] after[q].lanes()[l]
                == block_lane(
                forward,
                before,
                j * (2 * half),
                half,
                twiddle(i, offset + j),
                q,
                l,
            ),
    ensures
        scalars(after) == stage_prefix(forward, i, log_batch, offset, j + 1, x),
{
    let w = P::spec_width() as int;
    let h = half_block(i, log_batch) as int;
    let start = j * (2 * half);
    let old_x = stage_prefix(forward, i, log_batch, offset, j, x);
    let new_x = stage_prefix(forward, i, log_batch, offset, j + 1, x);
    lemma_pow2_pos(i + log_batch);
    assert forall|p: int| 0 <= p < x.len() implies scalars(after)[p] == new_x[p] by {
        let q = p / w;
        let l = p % w;
        lemma_lane_of_scalar(before.len() as int, w, p);
        assert(scalars(after)[p] == after[q].lanes()[l]);
        assert(scalars(before)[p] == before[q].lanes()[l]);
        // The block of the scalar is the block of its packed vector.
        assert(2 * h == w * (2 * half)) by (nonlinear_arith)
            requires
                h == half * w,
        ;
        lemma_div_denominator(p, w, 2 * half);
        lemma_mod_breakdown(p, w, 2 * half);
        let jj = q / (2 * half);
        let kk = q % (2 * half);
        assert(p / (2 * h) == jj);
        assert(p % (2 * h) == w * kk + l);
        lemma_fundamental_div_mod(q, 2 * half);
        assert(2 * half * jj == jj * (2 * half)) by (nonlinear_arith);
        assert((p % (2 * h) < h) == (kk < half)) by (nonlinear_arith)
            requires
                p % (2 * h) == w * kk + l,
                0 <= l < w,
                h == half * w,
        ;
        assert((jj == j) == (start <= q < start + 2 * half)) by (nonlinear_arith)
            requires
                q == jj * (2 * half) + kk,
                0 <= kk < 2 * half,
                start == j * (2 * half),
        ;
        if jj == j {
            if kk < half {
                lemma_scalar_position(before, q + half, l);
                assert((q + half) * w + l == p + h) by (nonlinear_arith)
                    requires
                        p == q * w + l,
                        h == half * w,
                ;
                lemma_partner(p, h);
                assert(old_x[p + h] == x[p + h]);
            } else {
                lemma_scalar_position(before, q - half, l);
                assert((q - half) * w + l == p - h) by (nonlinear_arith)
                    requires
                        p == q * w + l,
                        h == half * w,
                ;
                lemma_partner(p, h);
                assert(old_x[p - h] == x[p - h]);
            }
            assert(old_x[p] == x[p]);
        }
    }
    assert(scalars(after) =~= new_x);
}

/// The twiddle factor that a lane of either element of an interleaved pair meets.
pub open spec fn pair_twiddle<P: PackedField>(twiddles: P, second: bool, h: int, l: int) -> P::Scalar {
    if second {
        twiddles.lanes()[if l % (2 * h) < h {
            l + h
        } else {
            l
        }]
    } else {
        twiddles.lanes()[if l % (2 * h) < h {
            l
        } else {
            l - h
        }]
    }
}

/// Lane `l` of a packed vector after its blocks of `2 * h` lanes went through the butterfly.
pub open spec fn lane_after<P: PackedField>(forward: bool, a: P, h: int, t: P::Scalar, l: int) -> P::Scalar {
    if l % (2 * h) < h {
        butterfly(forward, a.lanes()[l], a.lanes()[l + h], t).0
    } else {
        butterfly(forward, a.lanes()[l - h], a.lanes()[l], t).1
    }
}

/// Sends the lanes of packed vectors `2 * j` and `2 * j + 1` through the butterfly, in blocks of
/// `2^(log_block_len + 1)` lanes.
pub fn butterfly_pair<P: PackedField>(
    forward: bool,
    data: &mut [P],
    j: usize,
    log_block_len: usize,
    twiddles: P,
)
    requires
        2 * j + 1 < old(data)@.len(),
        log_block_len < usize::BITS,
        0 < P::spec_width(),
        P::spec_width() as int % (2 * pow2(log_block_len as nat) as int) == 0,
    ensures
        final(data)@.len() == old(data)@.len(),
        forall|q: int|
            0 <= q < old(data)@.len() && q != 2 * j && q != 2 * j + 1 ==> #[trigger] final(data)@[q]
                == old(data)@[q],
        forall|l: int|
            0 <= l < P::spec_width() ==> #[trigger] final(data)@[2 * j].lanes()[l] == lane_after(
                forward,
                old(data)@[2 * j],
                pow2(log_block_len as nat) as int,
                pair_twiddle(twiddles, false, pow2(log_block_len as nat) as int, l),
                l,
            ),
        forall|l: int|
            0 <= l < P::spec_width() ==> #[trigger] final(data)@[2 * j + 1].lanes()[l]
                == lane_after(
                forward,
                old(data)@[2 * j + 1],
                pow2(log_block_len as nat) as int,
                pair_twiddle(twiddles, true, pow2(log_block_len as nat) as int, l),
                l,
            ),
{
    let ghost h = pow2(log_block_len as nat) as int;
    let ghost w = P::spec_width() as int;
    assert(2 * j + 1 < data.len());
    let a = data[2 * j];
    let b = data[2 * j + 1];
    let (u, v) = a.interleave(b, log_block_len);
    let (new_u, new_v) = if forward {
        let s = u.add_lanes(v.mul_lanes(twiddles));
        (s, v.add_lanes(s))
    } else {
        let s = v.add_lanes(u);
        (u.add_lanes(s.mul_lanes(twiddles)), s)
    };
    let (new_a, new_b) = new_u.interleave(new_v, log_block_len);
    data[2 * j] = new_a;
    data[2 * j + 1] = new_b;
    proof {
        lemma_pow2_pos(log_block_len as nat);
        assert forall|m: int|
            #![trigger new_u.lanes()[m]]
            #![trigger new_v.lanes()[m]]
            0 <= m < w implies new_u.lanes()[m] == butterfly(
            forward,
            u.lanes()[m],
            v.lanes()[m],
            twiddles.lanes()[m],
        ).0 && new_v.lanes()[m] == butterfly(
            forward,
            u.lanes()[m],
            v.lanes()[m],
            twiddles.lanes()[m],
        ).1 by {}
        assert forall|l: int|
            #![trigger new_a.lanes()[l]]
            #![trigger new_b.lanes()[l]]
            0 <= l < w implies new_a.lanes()[l] == lane_after(
            forward,
            a,
            h,
            pair_twiddle(twiddles, false, h, l),
            l,
        ) && new_b.lanes()[l] == lane_after(forward, b, h, pair_twiddle(twiddles, true, h, l), l) by {
            lemma_partner(l, h);
            if l % (2 * h) < h {
                lemma_partner_in_range(l, h, w);
            }
        }
    }
}

/// A pair of packed vectors is a run of blocks of the stage.
pub proof fn lemma_pair_step<P: PackedField>(
    forward: bool,
    i: nat,
    log_batch: nat,
    offset: nat,
    j: nat,
    blocks: nat,
    twiddles: P,
    x: Seq<P::Scalar>,
    before: Seq<P>,
    after: Seq<P>,
)
    requires
        0 < blocks,
        P::spec_width() == blocks * (2 * half_block(i, log_batch)),
        before.len() == after.len(),
        2 * j + 1 < before.len(),
        x.len() == before.len() * P::spec_width(),
        scalars(before) == stage_prefix(forward, i, log_batch, offset, (2 * j) * blocks, x),
        forall|l: int|
            0 <= l < P::spec_width() ==> #[trigger] twiddles.lanes()[l] == twiddle::<P::Scalar>(
                i,
                (offset + (2 * j + if l % (2 * half_block(i, log_batch) as int) < half_block(
                    i,
                    log_batch,
                ) {
                    0int
                } else {
                    1int
                }) * blocks + l / (2 * half_block(i, log_batch) as int)) as nat,
            ),
        forall|q: int|
            0 <= q < before.len() && q != 2 * j && q != 2 * j + 1 ==> #[trigger] after[q]
                == before[q],
        forall|l: int|
            0 <= l < P::spec_width() ==> #[trigger] after[(2 * j) as int].lanes()[l] == lane_after(
                forward,
                before[(2 * j) as int],
                half_block(i, log_batch) as int,
                pair_twiddle(twiddles, false, half_block(i, log_batch) as int, l),
                l,
            ),
        forall|l: int|
            0 <= l < P::spec_width() ==> #[trigger] after[(2 * j + 1) as int].lanes()[l] == lane_after(
                forward,
                before[(2 * j + 1) as int],
                half_block(i, log_batch) as int,
                pair_twiddle(twiddles, true, half_block(i, log_batch) as int, l),
                l,
            ),
    ensures
        scalars(after) == stage_prefix(forward, i, log_batch, offset, (2 * (j + 1)) * blocks, x),
{
    let w = P::spec_width() as int;
    let h = half_block(i, log_batch) as int;
    let old_x = stage_prefix(forward, i, log_batch, offset, (2 * j) * blocks, x);
    let new_x = stage_prefix(forward, i, log_batch, offset, (2 * (j + 1)) * blocks, x);
    lemma_pow2_pos(i + log_batch);
    assert(w > 0) by (nonlinear_arith)
        requires
            w == blocks * (2 * h),
            blocks > 0,
            h > 0,
    ;
    lemma_fundamental_div_mod_converse(w, 2 * h, blocks as int, 0);
    assert forall|p: int| 0 <= p < x.len() implies scalars(after)[p] == new_x[p] by {
        let q = p / w;
        let l = p % w;
        lemma_lane_of_scalar(before.len() as int, w, p);
        assert(scalars(after)[p] == after[q].lanes()[l]);
        assert(scalars(before)[p] == before[q].lanes()[l]);
        // The block of the scalar, from its packed vector and its lane.
        let m = l / (2 * h);
        let r = l % (2 * h);
        lemma_fundamental_div_mod(l, 2 * h);
        assert(0 <= m < blocks) by (nonlinear_arith)
            requires
                l == 2 * h * m + r,
                0 <= l < blocks * (2 * h),
                0 <= r < 2 * h,
        ;
        let jj = q * blocks + m;
        assert(p == jj * (2 * h) + r) by (nonlinear_arith)
            requires
                p == q * w + l,
                w == blocks * (2 * h),
                l == 2 * h * m + r,
                jj == q * blocks + m,
        ;
        assert(0 <= jj) by (nonlinear_arith)
            requires
                jj == q * blocks + m,
                0 <= q,
                0 <= m,
        ;
        lemma_block_position(jj, h, r);
        assert((jj < (2 * j) * blocks) == (q < 2 * j)) by (nonlinear_arith)
            requires
                jj == q * blocks + m,
                0 <= m < blocks,
        ;
        assert((jj < (2 * (j + 1)) * blocks) == (q < 2 * (j + 1))) by (nonlinear_arith)
            requires
                jj == q * blocks + m,
                0 <= m < blocks,
        ;
        if q == 2 * j || q == 2 * j + 1 {
            assert(old_x[p] == x[p]);
            lemma_partner(p, h);
            lemma_partner(l, h);
            if r < h {
                lemma_partner_in_range(l, h, w);
                lemma_scalar_position(before, q, l + h);
                assert(old_x[p + h] == x[p + h]);
                assert(before[q].lanes()[l + h] == x[p + h]);
                if q == 2 * j {
                    assert(twiddles.lanes()[l] == twiddle::<P::Scalar>(i, (offset + jj) as nat));
                } else {
                    assert(twiddles.lanes()[l + h] == twiddle::<P::Scalar>(
                        i,
                        (offset + jj) as nat,
                    ));
                }
            } else {
                lemma_scalar_position(before, q, l - h);
                assert(old_x[p - h] == x[p - h]);
                assert(before[q].lanes()[l - h] == x[p - h]);
                if q == 2 * j {
                    assert(twiddles.lanes()[l - h] == twiddle::<P::Scalar>(
                        i,
                        (offset + jj) as nat,
                    ));
                } else {
                    assert(twiddles.lanes()[l] == twiddle::<P::Scalar>(i, (offset + jj) as nat));
                }
            }
        }
    }
    assert(scalars(after) =~= new_x);
}

} // verus!

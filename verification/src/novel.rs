//! Polynomials in the novel basis, their values on a coset, and the butterfly network that
//! computes those values.

use vstd::arithmetic::div_mod::{
    lemma_fundamental_div_mod, lemma_fundamental_div_mod_converse,
};
use vstd::arithmetic::power2::{
    lemma2_to64, lemma_pow2_adds, lemma_pow2_pos, lemma_pow2_unfold, pow2,
};
use vstd::prelude::*;

use crate::field::{
    group_coordinates, lemma_distributes_right, lemma_same, lemma_sum_cancels, BinaryField,
};
use crate::subspace::{
    combination, lemma_combination_splits, lemma_normalized, lemma_normalized_in_span, normalized,
    point, select,
};

verus! {

/// The product of the normalized subspace polynomials, from the `lo`-th on, that the binary digits
/// of `m` select.
pub open spec fn basis_product<F: BinaryField>(lo: nat, m: nat, y: F) -> F
    decreases m,
{
    if m == 0 {
        F::spec_one()
    } else {
        basis_factor(m % 2 == 1, lo, y).product(basis_product(lo + 1, m / 2, y))
    }
}

/// A normalized subspace polynomial or one.
pub open spec fn basis_factor<F: BinaryField>(chosen: bool, lo: nat, y: F) -> F {
    if chosen {
        normalized(lo, y)
    } else {
        F::spec_one()
    }
}

/// The `m`-th polynomial of the novel basis at `y`: the product of the normalized subspace
/// polynomials that the binary digits of `m` select. Its degree is `m`.
pub open spec fn novel_basis<F: BinaryField>(m: nat, y: F) -> F {
    basis_product(0, m, y)
}

/// The value at `y` of the polynomial with the given coefficients in the novel basis.
pub open spec fn evaluate<F: BinaryField>(coeffs: Seq<F>, y: F) -> F
    decreases coeffs.len(),
{
    if coeffs.len() == 0 {
        F::spec_zero()
    } else {
        evaluate(coeffs.drop_last(), y).sum(
            coeffs.last().product(novel_basis((coeffs.len() - 1) as nat, y)),
        )
    }
}

/// Rows `start` to `start + len` of column `c` of a batch of `columns` interleaved columns.
pub open spec fn column_part<F>(x: Seq<F>, columns: nat, c: nat, start: nat, len: nat) -> Seq<F> {
    Seq::new(len, |m: int| x[(start + m) * columns + c])
}

/// Column `c` of a batch of `columns` interleaved columns.
pub open spec fn column<F>(x: Seq<F>, columns: nat, c: nat) -> Seq<F> {
    column_part(x, columns, c, 0, x.len() / columns)
}

/// The values that a batch of `2^log_batch` interleaved polynomials takes on a coset.
///
/// Each column of `x` holds the coefficients of one polynomial in the novel basis. Row `e` of the
/// same column of the result is its value at the `e`-th point of the coset: the point of the
/// domain whose index is `e` plus `coset` times the number of rows.
pub open spec fn lagrange_values<F: BinaryField>(x: Seq<F>, log_batch: nat, coset: nat) -> Seq<F> {
    let columns = pow2(log_batch);
    let rows = x.len() / columns;
    Seq::new(
        x.len(),
        |p: int|
            evaluate(
                column(x, columns, p as nat % columns),
                point(coset * rows + p as nat / columns),
            ),
    )
}

/// The twiddle factor of a block of stage `i`.
pub open spec fn twiddle<F: BinaryField>(i: nat, index: nat) -> F {
    normalized(i, combination(i + 1, index))
}

/// One butterfly, or its inverse.
pub open spec fn butterfly<F: BinaryField>(forward: bool, u: F, v: F, t: F) -> (F, F) {
    if forward {
        let w = u.sum(v.product(t));
        (w, v.sum(w))
    } else {
        let w = v.sum(u);
        (u.sum(w.product(t)), w)
    }
}

/// The number of scalars in half a block of stage `i`.
pub open spec fn half_block(i: nat, log_batch: nat) -> nat {
    pow2(i + log_batch)
}

/// Entry `p` after stage `i`. Blocks take consecutive twiddle factors from index `offset` on.
pub open spec fn stage_entry<F: BinaryField>(
    forward: bool,
    i: nat,
    log_batch: nat,
    offset: nat,
    x: Seq<F>,
    p: int,
) -> F {
    let h = half_block(i, log_batch) as int;
    let t = twiddle(i, (offset + p / (2 * h)) as nat);
    if p % (2 * h) < h {
        butterfly(forward, x[p], x[p + h], t).0
    } else {
        butterfly(forward, x[p - h], x[p], t).1
    }
}

/// Stage `i` applied to the first `done` blocks.
pub open spec fn stage_prefix<F: BinaryField>(
    forward: bool,
    i: nat,
    log_batch: nat,
    offset: nat,
    done: nat,
    x: Seq<F>,
) -> Seq<F> {
    Seq::new(
        x.len(),
        |p: int|
            if p / (2 * half_block(i, log_batch) as int) < done {
                stage_entry(forward, i, log_batch, offset, x, p)
            } else {
                x[p]
            },
    )
}

/// Stage `i` applied to all blocks.
pub open spec fn stage<F: BinaryField>(
    forward: bool,
    i: nat,
    log_batch: nat,
    offset: nat,
    x: Seq<F>,
) -> Seq<F> {
    Seq::new(x.len(), |p: int| stage_entry(forward, i, log_batch, offset, x, p))
}

/// The first twiddle factor of stage `i` of a transform of `2^log_n` rows on a coset.
pub open spec fn stage_offset(log_n: nat, coset: nat, i: nat) -> nat {
    coset * pow2((log_n - 1 - i) as nat)
}

/// The forward stages below `s`, from the highest to the lowest.
pub open spec fn descend<F: BinaryField>(
    s: nat,
    log_n: nat,
    log_batch: nat,
    coset: nat,
    x: Seq<F>,
) -> Seq<F>
    decreases s,
{
    if s == 0 {
        x
    } else {
        let i = (s - 1) as nat;
        descend(
            i,
            log_n,
            log_batch,
            coset,
            stage(true, i, log_batch, stage_offset(log_n, coset, i), x),
        )
    }
}

/// A butterfly and its inverse undo each other.
pub proof fn lemma_butterfly_inverts<F: BinaryField>(forward: bool, u: F, v: F, t: F)
    ensures
        ({
            let (a, b) = butterfly(forward, u, v, t);
            butterfly(!forward, a, b, t) == (u, v)
        }),
{
    broadcast use group_coordinates;

    let (a, b) = butterfly(forward, u, v, t);
    let (c, d) = butterfly(!forward, a, b, t);
    if forward {
        lemma_same(d, v);
        lemma_same(c, u);
    } else {
        lemma_same(c, u);
        lemma_same(d, v);
    }
}

/// Where the entries of a block lie.
pub proof fn lemma_block_position(j: int, h: int, k: int)
    requires
        0 <= j,
        0 < h,
        0 <= k < 2 * h,
    ensures
        (j * (2 * h) + k) / (2 * h) == j,
        (j * (2 * h) + k) % (2 * h) == k,
        0 <= j * (2 * h) + k,
{
    lemma_fundamental_div_mod_converse(j * (2 * h) + k, 2 * h, j, k);
    assert(0 <= j * (2 * h)) by (nonlinear_arith)
        requires
            0 <= j,
            0 < h,
    ;
}

/// The two halves of a block lie in the same block.
pub proof fn lemma_partner(p: int, h: int)
    requires
        0 <= p,
        0 < h,
    ensures
        p % (2 * h) < h ==> (p + h) / (2 * h) == p / (2 * h) && (p + h) % (2 * h) == p % (2 * h) + h,
        p % (2 * h) >= h ==> 0 <= p - h && (p - h) / (2 * h) == p / (2 * h) && (p - h) % (2 * h) == p
            % (2 * h) - h,
{
    let q = p / (2 * h);
    let r = p % (2 * h);
    lemma_fundamental_div_mod(p, 2 * h);
    assert(q * (2 * h) == 2 * h * q) by (nonlinear_arith);
    if r < h {
        lemma_block_position(q, h, r + h);
    } else {
        lemma_block_position(q, h, r - h);
    }
}

/// A block that starts inside a sequence of whole blocks ends inside it.
pub proof fn lemma_partner_in_range(p: int, h: int, len: int)
    requires
        0 <= p < len,
        0 < h,
        len % (2 * h) == 0,
        p % (2 * h) < h,
    ensures
        p + h < len,
{
    let q = p / (2 * h);
    let r = p % (2 * h);
    let d = len / (2 * h);
    lemma_fundamental_div_mod(p, 2 * h);
    lemma_fundamental_div_mod(len, 2 * h);
    assert(q < d) by (nonlinear_arith)
        requires
            2 * h * q + r < 2 * h * d,
            r >= 0,
            h > 0,
    ;
    assert(2 * h * q + 2 * h <= 2 * h * d) by (nonlinear_arith)
        requires
            q + 1 <= d,
            h > 0,
    ;
}

/// A stage and its inverse undo each other.
pub proof fn lemma_stage_inverts<F: BinaryField>(
    forward: bool,
    i: nat,
    log_batch: nat,
    offset: nat,
    x: Seq<F>,
)
    requires
        x.len() as int % (2 * half_block(i, log_batch) as int) == 0,
    ensures
        stage(!forward, i, log_batch, offset, stage(forward, i, log_batch, offset, x)) == x,
{
    let h = half_block(i, log_batch) as int;
    lemma_pow2_pos(i + log_batch);
    let y = stage(forward, i, log_batch, offset, x);
    let z = stage(!forward, i, log_batch, offset, y);
    assert forall|p: int| 0 <= p < x.len() implies z[p] == x[p] by {
        let t = twiddle::<F>(i, (offset + p / (2 * h)) as nat);
        lemma_partner(p, h);
        if p % (2 * h) < h {
            lemma_partner_in_range(p, h, x.len() as int);
            lemma_butterfly_inverts(forward, x[p], x[p + h], t);
        } else {
            lemma_butterfly_inverts(forward, x[p - h], x[p], t);
        }
    }
    assert(z =~= x);
}

/// The highest binary digit contributes the last factor of a novel basis polynomial.
proof fn lemma_basis_product_top<F: BinaryField>(lo: nat, s: nat, m: nat, y: F)
    requires
        m < pow2(s),
    ensures
        basis_product(lo, m + pow2(s), y) == basis_product(lo, m, y).product(
            normalized(lo + s, y),
        ),
    decreases s,
{
    lemma2_to64();
    let one = F::spec_one();
    if s == 0 {
        assert(basis_product(lo + 1, 0, y) == one);
        F::product_commutes(one, normalized(lo, y));
    } else {
        let r = (s - 1) as nat;
        lemma_pow2_unfold(s);
        lemma_pow2_pos(r);
        lemma_basis_product_top(lo + 1, r, m / 2, y);
        assert((m + pow2(s)) / 2 == m / 2 + pow2(r));
        let head = basis_factor(m % 2 == 1, lo, y);
        let rest = basis_product(lo + 1, m / 2, y);
        if m == 0 {
            assert(basis_product(lo + 1, 0, y) == one);
            F::product_with_one(one);
        }
        assert(basis_product(lo, m, y) == head.product(rest));
        F::product_associates(head, rest, normalized(lo + s, y));
    }
}

/// A polynomial with `2^(s + 1)` coefficients takes the value of one with `2^s` coefficients, in
/// which the upper half is folded into the lower.
proof fn lemma_fold<F: BinaryField>(s: nat, u: Seq<F>, v: Seq<F>, w: Seq<F>, y: F, k: nat)
    requires
        u.len() == pow2(s),
        v.len() == pow2(s),
        w.len() == pow2(s),
        forall|m: int|
            0 <= m < pow2(s) ==> #[trigger] w[m] == u[m].sum(v[m].product(normalized(s, y))),
        k <= pow2(s),
    ensures
        evaluate(u + v.take(k as int), y).sum(evaluate(u, y)) == evaluate(
            w.take(k as int),
            y,
        ).sum(evaluate(u.take(k as int), y)),
    decreases k,
{
    broadcast use group_coordinates;

    let zero = F::spec_zero();
    if k == 0 {
        assert(u + v.take(0) =~= u);
        assert(evaluate(w.take(0), y) == zero);
        assert(evaluate(u.take(0), y) == zero);
        lemma_sum_cancels(evaluate(u, y), evaluate(u, y));
        lemma_sum_cancels(zero, zero);
    } else {
        let m = (k - 1) as nat;
        lemma_fold(s, u, v, w, y, m);
        let left = u + v.take(k as int);
        assert(left.drop_last() =~= u + v.take(m as int));
        assert(left.last() == v[m as int]);
        assert(w.take(k as int).drop_last() =~= w.take(m as int));
        assert(u.take(k as int).drop_last() =~= u.take(m as int));
        let tau = normalized(s, y);
        let xm = novel_basis(m, y);
        lemma_basis_product_top(0, s, m, y);
        assert(novel_basis((left.len() - 1) as nat, y) == xm.product(tau));
        assert(w[m as int] == u[m as int].sum(v[m as int].product(tau)));
        lemma_distributes_right(u[m as int], v[m as int].product(tau), xm);
        F::product_associates(v[m as int], tau, xm);
        F::product_commutes(tau, xm);
        let vx = v[m as int].product(xm.product(tau));
        let ux = u[m as int].product(xm);
        let a = evaluate(u + v.take(m as int), y);
        let b = evaluate(w.take(m as int), y);
        let c = evaluate(u.take(m as int), y);
        let e = evaluate(u, y);
        assert(a.sum(e) == b.sum(c));
        assert(evaluate(left, y) == a.sum(vx));
        assert(evaluate(w.take(k as int), y) == b.sum(ux.sum(vx)));
        assert(evaluate(u.take(k as int), y) == c.sum(ux));
        lemma_same(a.sum(vx).sum(e), a.sum(e).sum(vx));
        lemma_same(b.sum(c).sum(vx), b.sum(ux.sum(vx)).sum(c.sum(ux)));
    }
}

/// The normalized subspace polynomial of stage `s` at the point of row `r` of a coset: the
/// twiddle factor of the row's block, plus one in the upper half of the block.
proof fn lemma_twiddle_of_row<F: BinaryField>(s: nat, log_n: nat, coset: nat, r: nat)
    requires
        s < log_n,
        s < F::spec_n_bits(),
    ensures
        normalized(s, point::<F>(coset * pow2(log_n) + r)) == select(
            (r / pow2(s)) % 2 == 1,
            F::spec_one(),
        ).sum(
            twiddle(s, stage_offset(log_n, coset, s) + r / pow2(s + 1)),
        ),
{
    let zero = F::spec_zero();
    let b = pow2(s);
    let e = r % b;
    let q = r / b;
    let off = coset * pow2((log_n - 1 - s) as nat);
    lemma_pow2_pos(s);
    lemma_pow2_unfold(s + 1);
    lemma_fundamental_div_mod(r as int, b as int);
    vstd::arithmetic::div_mod::lemma_div_denominator(r as int, b as int, 2);
    assert(r / pow2(s + 1) == q / 2);
    lemma_pow2_adds(s + 1, (log_n - 1 - s) as nat);
    // The index of the point in base 2^s.
    let high = 2 * off + q;
    assert(coset * pow2(log_n) + r == high * b + e) by (nonlinear_arith)
        requires
            pow2(log_n) == (2 * b) * pow2((log_n - 1 - s) as nat),
            off == coset * pow2((log_n - 1 - s) as nat),
            high == 2 * off + q,
            r == b * q + e,
    ;
    lemma_combination_splits::<F>(0, s, high, e);
    lemma_normalized_in_span::<F>(s, 0, e);
    let hp = combination::<F>(s, high);
    lemma_normalized(s, combination::<F>(0, e), hp);
    lemma_sum_cancels(normalized(s, hp), zero);
    assert(normalized(s, point::<F>(coset * pow2(log_n) + r)) == normalized(s, hp));
    // Its lowest digit in that base.
    let head = select(high % 2 == 1, F::spec_basis(s));
    let rest = combination::<F>(s + 1, high / 2);
    lemma_sum_cancels(zero, zero);
    if high == 0 {
        assert(combination::<F>(s + 1, 0) == zero);
    }
    assert(hp == head.sum(rest));
    lemma_normalized(s, head, rest);
    assert(high / 2 == off + q / 2);
    assert(high % 2 == q % 2);
}

/// One stage folds the upper half of each block of rows into the lower.
proof fn lemma_stage_folds<F: BinaryField>(
    s: nat,
    log_n: nat,
    log_batch: nat,
    coset: nat,
    x: Seq<F>,
    r: nat,
    c: nat,
)
    requires
        s < log_n,
        s < F::spec_n_bits(),
        x.len() == pow2(log_n) * pow2(log_batch),
        r < pow2(log_n),
        c < pow2(log_batch),
    ensures
        ({
            let columns = pow2(log_batch);
            let y = point::<F>(coset * pow2(log_n) + r);
            let z = stage(true, s, log_batch, stage_offset(log_n, coset, s), x);
            let small = (r / pow2(s)) * pow2(s);
            let large = (r / pow2(s + 1)) * pow2(s + 1);
            evaluate(column_part(z, columns, c, small, pow2(s)), y) == evaluate(
                column_part(x, columns, c, large, pow2(s + 1)),
                y,
            )
        }),
{
    broadcast use group_coordinates;

    let columns = pow2(log_batch);
    let b = pow2(s);
    let y = point::<F>(coset * pow2(log_n) + r);
    let off = stage_offset(log_n, coset, s);
    let z = stage(true, s, log_batch, off, x);
    let q = r / b;
    let j = r / pow2(s + 1);
    let odd = q % 2 == 1;
    let small = q * b;
    let large = j * pow2(s + 1);
    let t = twiddle::<F>(s, off + j);
    let tau = normalized(s, y);
    let one = F::spec_one();
    let zero = F::spec_zero();
    lemma_twiddle_of_row::<F>(s, log_n, coset, r);
    lemma_pow2_pos(s);
    lemma_pow2_pos(log_batch);
    lemma_pow2_unfold(s + 1);
    lemma_pow2_adds(s, log_batch);
    vstd::arithmetic::div_mod::lemma_div_denominator(r as int, b as int, 2);
    assert(j == q / 2);
    let h = half_block(s, log_batch) as int;
    assert(h == b * columns);
    assert(small == large + if odd {
        b as int
    } else {
        0
    }) by (nonlinear_arith)
        requires
            small == q * b,
            large == (q / 2) * (2 * b),
            odd == (q % 2 == 1),
    ;
    // The block lies within the rows.
    lemma_pow2_adds(s + 1, (log_n - 1 - s) as nat);
    lemma_fundamental_div_mod(r as int, 2 * b as int);
    let blocks = pow2((log_n - 1 - s) as nat);
    assert(j < blocks) by (nonlinear_arith)
        requires
            r == 2 * b * j + r % (2 * b),
            r < 2 * b * blocks,
            b > 0,
    ;
    assert(large + 2 * b <= pow2(log_n)) by (nonlinear_arith)
        requires
            j + 1 <= blocks,
            large == j * (2 * b),
            pow2(log_n) == (2 * b) * blocks,
            b > 0,
    ;
    let u = column_part(x, columns, c, large, b);
    let v = column_part(x, columns, c, large + b, b);
    let w = column_part(z, columns, c, small, b);
    assert forall|m: int| 0 <= m < b implies #[trigger] w[m] == u[m].sum(v[m].product(tau)) by {
        let k = m * columns + c;
        assert(0 <= k < h) by (nonlinear_arith)
            requires
                0 <= m < b,
                0 <= c < columns,
                h == b * columns,
                k == m * columns + c,
        ;
        let pu = (large + m) * columns + c;
        let pv = (large + b + m) * columns + c;
        assert(pu == j * (2 * h) + k && pv == j * (2 * h) + (h + k)) by (nonlinear_arith)
            requires
                large == j * (2 * b),
                h == b * columns,
                k == m * columns + c,
                pu == (large + m) * columns + c,
                pv == (large + b + m) * columns + c,
        ;
        assert(pv < x.len()) by (nonlinear_arith)
            requires
                pv == (large + b + m) * columns + c,
                large + b + m + 1 <= pow2(log_n),
                c < columns,
                x.len() == pow2(log_n) * columns,
        ;
        lemma_block_position(j as int, h, k);
        lemma_block_position(j as int, h, h + k);
        let (uu, vv) = (u[m], v[m]);
        assert(uu == x[pu] && vv == x[pv]);
        F::product_distributes(vv, one, t);
        F::product_with_one(vv);
        lemma_sum_cancels(t, zero);
        if odd {
            assert(w[m] == z[pv]);
            assert(z[pv] == vv.sum(uu.sum(vv.product(t))));
            lemma_same(vv.sum(uu.sum(vv.product(t))), uu.sum(vv.sum(vv.product(t))));
        } else {
            assert(w[m] == z[pu]);
        }
    }
    lemma_fold(s, u, v, w, y, b);
    assert(v.take(b as int) =~= v);
    assert(w.take(b as int) =~= w);
    assert(u.take(b as int) =~= u);
    assert(u + v =~= column_part(x, columns, c, large, pow2(s + 1)));
    lemma_sum_cancels(evaluate(u + v, y), evaluate(u, y));
    lemma_sum_cancels(evaluate(w, y), evaluate(u, y));
}

/// The stages below `s` evaluate each block of `2^s` rows at the points of its rows.
proof fn lemma_descend_evaluates<F: BinaryField>(
    s: nat,
    log_n: nat,
    log_batch: nat,
    coset: nat,
    x: Seq<F>,
    r: nat,
    c: nat,
)
    requires
        s <= log_n,
        s <= F::spec_n_bits(),
        x.len() == pow2(log_n) * pow2(log_batch),
        r < pow2(log_n),
        c < pow2(log_batch),
    ensures
        descend(s, log_n, log_batch, coset, x).len() == x.len(),
        descend(s, log_n, log_batch, coset, x)[(r * pow2(log_batch) + c) as int] == evaluate(
            column_part(x, pow2(log_batch), c, (r / pow2(s)) * pow2(s), pow2(s)),
            point::<F>(coset * pow2(log_n) + r),
        ),
    decreases s,
{
    lemma2_to64();
    if s == 0 {
        let y = point::<F>(coset * pow2(log_n) + r);
        let part = column_part(x, pow2(log_batch), c, r, 1);
        assert(r / 1 == r);
        assert(r * 1 == r);
        assert(part.drop_last() =~= Seq::<F>::empty());
        assert(evaluate(part.drop_last(), y) == F::spec_zero());
        F::product_with_one(part[0]);
        lemma_sum_cancels(part[0], F::spec_zero());
        assert(novel_basis(0, y) == F::spec_one());
    } else {
        let i = (s - 1) as nat;
        let z = stage(true, i, log_batch, stage_offset(log_n, coset, i), x);
        lemma_descend_evaluates(i, log_n, log_batch, coset, z, r, c);
        lemma_stage_folds(i, log_n, log_batch, coset, x, r, c);
    }
}

/// The butterfly network computes the values of the polynomials on the coset.
pub proof fn lemma_network_evaluates<F: BinaryField>(
    log_n: nat,
    log_batch: nat,
    coset: nat,
    x: Seq<F>,
)
    requires
        log_n <= F::spec_n_bits(),
        x.len() == pow2(log_n) * pow2(log_batch),
    ensures
        descend(log_n, log_n, log_batch, coset, x) == lagrange_values(x, log_batch, coset),
{
    let columns = pow2(log_batch);
    let n = pow2(log_n);
    lemma_pow2_pos(log_batch);
    lemma_pow2_pos(log_n);
    lemma_descend_evaluates(log_n, log_n, log_batch, coset, x, 0, 0);
    vstd::arithmetic::div_mod::lemma_div_by_multiple(n as int, columns as int);
    assert(x.len() / columns == n);
    let y = descend(log_n, log_n, log_batch, coset, x);
    let values = lagrange_values(x, log_batch, coset);
    assert forall|p: int| 0 <= p < x.len() implies y[p] == values[p] by {
        let r = (p / columns as int) as nat;
        let c = (p % columns as int) as nat;
        lemma_fundamental_div_mod(p, columns as int);
        assert(0 <= r < n) by (nonlinear_arith)
            requires
                p == columns * r + c,
                0 <= p < n * columns,
                0 <= c < columns,
        ;
        assert(columns * r == r * columns) by (nonlinear_arith);
        lemma_descend_evaluates(log_n, log_n, log_batch, coset, x, r, c);
        vstd::arithmetic::div_mod::lemma_basic_div(r as int, n as int);
        assert((r / n) * n == 0) by (nonlinear_arith)
            requires
                r / n == 0,
        ;
    }
    assert(y =~= values);
}

} // verus!

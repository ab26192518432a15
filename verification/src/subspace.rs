//! Subspace polynomials and the points at which the transforms evaluate.

use vstd::arithmetic::div_mod::{lemma_mod_breakdown, lemma_small_mod};
use vstd::arithmetic::power2::{lemma2_to64, lemma_pow2_pos, lemma_pow2_unfold, pow2};
use vstd::prelude::*;

use crate::bits::{bit, test_bit};
use crate::error::Error;
use crate::field::{
    group_coordinates, lemma_distributes_right, lemma_no_zero_divisors, lemma_product_with_zero,
    lemma_same, lemma_sum_cancels, BinaryField,
};

verus! {

/// The subspace polynomial `W_i` at `x`: the product of `x + u` over all `u` in the span of the
/// first `i` basis vectors. The span of one vector more is the old span and its shift by that vector.
pub open spec fn vanishing<F: BinaryField>(i: nat, x: F) -> F
    decreases i,
{
    if i == 0 {
        x
    } else {
        let j = (i - 1) as nat;
        vanishing(j, x).product(vanishing(j, x.sum(F::spec_basis(j))))
    }
}

/// The normalized subspace polynomial at `x`: `W_i(x)` divided by its value at the `i`-th basis
/// vector.
pub open spec fn normalized<F: BinaryField>(i: nat, x: F) -> F {
    vanishing(i, x).product(vanishing(i, F::spec_basis(i)).inverse())
}

/// The sum of those basis vectors from the `lo`-th on that the binary digits of `t` select.
pub open spec fn combination<F: BinaryField>(lo: nat, t: nat) -> F
    decreases t,
{
    if t == 0 {
        F::spec_zero()
    } else {
        select(t % 2 == 1, F::spec_basis(lo)).sum(combination(lo + 1, t / 2))
    }
}

/// The point of the domain with index `t`.
pub open spec fn point<F: BinaryField>(t: nat) -> F {
    combination(0, t)
}

/// `x` or zero.
pub open spec fn select<F: BinaryField>(chosen: bool, x: F) -> F {
    if chosen {
        x
    } else {
        F::spec_zero()
    }
}

/// The sum of those of the first `n` values that the binary digits of `index` select.
pub open spec fn selected_sum<F: BinaryField>(values: Seq<F>, n: nat, index: nat) -> F
    decreases n,
{
    if n == 0 {
        F::spec_zero()
    } else {
        let top = (n - 1) as nat;
        selected_sum(values, top, index).sum(select(bit(index, top), values[top as int]))
    }
}

/// Subspace polynomials are additive.
pub proof fn lemma_vanishing_additive<F: BinaryField>(i: nat, x: F, y: F)
    ensures
        vanishing(i, x.sum(y)) == vanishing(i, x).sum(vanishing(i, y)),
    decreases i,
{
    broadcast use group_coordinates;

    if i > 0 {
        let j = (i - 1) as nat;
        let b = F::spec_basis(j);
        let (wx, wy, wb) = (vanishing(j, x), vanishing(j, y), vanishing(j, b));
        lemma_vanishing_additive(j, x, y);
        lemma_vanishing_additive(j, x.sum(y), b);
        lemma_vanishing_additive(j, x, b);
        lemma_vanishing_additive(j, y, b);
        let all = wx.sum(wy).sum(wb);
        lemma_distributes_right(wx, wy, all);
        F::product_distributes(wx, wx.sum(wy), wb);
        F::product_distributes(wx, wx, wy);
        F::product_distributes(wy, wx.sum(wy), wb);
        F::product_distributes(wy, wx, wy);
        F::product_distributes(wx, wx, wb);
        F::product_distributes(wy, wy, wb);
        F::product_commutes(wx, wy);
        lemma_same(vanishing(i, x.sum(y)), vanishing(i, x).sum(vanishing(i, y)));
    }
}

/// Each subspace polynomial is a quadratic expression in the one before.
pub proof fn lemma_vanishing_step<F: BinaryField>(i: nat, x: F)
    ensures
        vanishing(i + 1, x) == vanishing(i, x).product(vanishing(i, x)).sum(
            vanishing(i, F::spec_basis(i)).product(vanishing(i, x)),
        ),
{
    let b = F::spec_basis(i);
    let w = vanishing(i, x);
    lemma_vanishing_additive(i, x, b);
    F::product_distributes(w, w, vanishing(i, b));
    F::product_commutes(w, vanishing(i, b));
}

/// A root of `W_i` lies in the span of the first `i` basis vectors.
pub proof fn lemma_root_in_span<F: BinaryField>(i: nat, x: F, j: nat)
    requires
        vanishing(i, x) == F::spec_zero(),
        i <= j < F::spec_n_bits(),
    ensures
        !x.coordinate(j),
    decreases i,
{
    broadcast use group_coordinates;

    if i > 0 {
        let k = (i - 1) as nat;
        let b = F::spec_basis(k);
        lemma_no_zero_divisors(vanishing(k, x), vanishing(k, x.sum(b)));
        if vanishing(k, x) == F::spec_zero() {
            lemma_root_in_span(k, x, j);
        } else {
            lemma_root_in_span(k, x.sum(b), j);
            F::coordinate_of_basis(k, j);
        }
    }
}

/// `W_i` does not vanish at the `i`-th basis vector.
pub proof fn lemma_normalizer_nonzero<F: BinaryField>(i: nat)
    requires
        i < F::spec_n_bits(),
    ensures
        vanishing(i, F::spec_basis(i)) != F::spec_zero(),
{
    if vanishing(i, F::spec_basis(i)) == F::spec_zero() {
        lemma_root_in_span(i, F::spec_basis(i), i);
        F::coordinate_of_basis(i, i);
    }
}

/// Zero is a root of every subspace polynomial.
pub proof fn lemma_vanishing_at_zero<F: BinaryField>(i: nat)
    ensures
        vanishing(i, F::spec_zero()) == F::spec_zero(),
{
    let z = F::spec_zero();
    lemma_sum_cancels(z, z);
    lemma_vanishing_additive(i, z, z);
    lemma_sum_cancels(vanishing(i, z), vanishing(i, z));
}

/// The earlier basis vectors are roots of `W_i`.
pub proof fn lemma_vanishing_on_basis<F: BinaryField>(i: nat, j: nat)
    requires
        j < i,
    ensures
        vanishing(i, F::spec_basis(j)) == F::spec_zero(),
    decreases i,
{
    let k = (i - 1) as nat;
    let b = F::spec_basis(j);
    lemma_product_with_zero(vanishing(k, b));
    lemma_product_with_zero(vanishing(k, b.sum(F::spec_basis(k))));
    if j == k {
        lemma_sum_cancels(b, b);
        lemma_vanishing_at_zero::<F>(k);
    } else {
        lemma_vanishing_on_basis::<F>(k, j);
    }
}

/// Normalized subspace polynomials are additive, zero on the earlier basis vectors and one on
/// their own.
pub proof fn lemma_normalized<F: BinaryField>(i: nat, x: F, y: F)
    ensures
        normalized(i, x.sum(y)) == normalized(i, x).sum(normalized(i, y)),
        normalized(i, F::spec_zero()) == F::spec_zero(),
        forall|j: nat| j < i ==> #[trigger] normalized(i, F::spec_basis(j)) == F::spec_zero(),
        i < F::spec_n_bits() ==> normalized(i, F::spec_basis(i)) == F::spec_one(),
{
    let scale = vanishing(i, F::spec_basis(i)).inverse();
    lemma_vanishing_additive(i, x, y);
    lemma_distributes_right(vanishing(i, x), vanishing(i, y), scale);
    lemma_vanishing_at_zero::<F>(i);
    lemma_product_with_zero(scale);
    assert forall|j: nat| j < i implies #[trigger] normalized(i, F::spec_basis(j))
        == F::spec_zero() by {
        lemma_vanishing_on_basis::<F>(i, j);
    }
    if i < F::spec_n_bits() {
        lemma_normalizer_nonzero::<F>(i);
        F::product_with_inverse(vanishing(i, F::spec_basis(i)));
    }
}

/// The digits of an index can be summed in two parts.
pub proof fn lemma_combination_splits<F: BinaryField>(lo: nat, s: nat, high: nat, low: nat)
    requires
        low < pow2(s),
    ensures
        combination::<F>(lo, high * pow2(s) + low) == combination::<F>(lo, low).sum(
            combination(lo + s, high),
        ),
    decreases s,
{
    broadcast use group_coordinates;

    lemma2_to64();
    let z = F::spec_zero();
    if s == 0 {
        assert(high * 1 == high) by (nonlinear_arith);
        lemma_sum_cancels(combination::<F>(lo, high), z);
    } else {
        let r = (s - 1) as nat;
        lemma_pow2_unfold(s);
        let t = high * pow2(s) + low;
        let hr = high * pow2(r);
        assert(high * pow2(s) == 2 * hr) by (nonlinear_arith)
            requires
                pow2(s) == 2 * pow2(r),
                hr == high * pow2(r),
        ;
        assert(t % 2 == low % 2);
        assert(t / 2 == hr + low / 2);
        lemma_combination_splits::<F>(lo + 1, r, high, low / 2);
        lemma_sum_cancels(z, z);
        let head = select(low % 2 == 1, F::spec_basis(lo));
        let l = combination::<F>(lo + 1, low / 2);
        let h = combination::<F>(lo + s, high);
        if low == 0 {
            assert(combination::<F>(lo + 1, 0) == z);
        }
        assert(combination::<F>(lo, low) == head.sum(l));
        if t == 0 {
            assert(hr + low / 2 == 0);
            assert(high == 0) by (nonlinear_arith)
                requires
                    hr == 0,
                    hr == high * pow2(r),
                    pow2(r) > 0,
            {
                lemma_pow2_pos(r);
            }
        }
        assert(combination::<F>(lo, t) == head.sum(l.sum(h)));
        lemma_same(head.sum(l.sum(h)), head.sum(l).sum(h));
    }
}

/// `W_i` vanishes on every sum of the first `i` basis vectors.
pub proof fn lemma_normalized_in_span<F: BinaryField>(i: nat, lo: nat, t: nat)
    requires
        lo <= i,
        t < pow2((i - lo) as nat),
    ensures
        normalized(i, combination::<F>(lo, t)) == F::spec_zero(),
    decreases t,
{
    let z = F::spec_zero();
    lemma_normalized(i, z, z);
    lemma2_to64();
    if t > 0 {
        let head = select(t % 2 == 1, F::spec_basis(lo));
        lemma_pow2_unfold((i - lo) as nat);
        lemma_normalized_in_span::<F>(i, lo + 1, t / 2);
        lemma_normalized(i, head, combination(lo + 1, t / 2));
        lemma_sum_cancels(z, z);
    }
}

/// Summing selected values of a normalized subspace polynomial evaluates it at the selected point.
pub proof fn lemma_selected_sum_is_normalized<F: BinaryField>(
    values: Seq<F>,
    i: nat,
    lo: nat,
    n: nat,
    index: nat,
)
    requires
        n <= values.len(),
        index < pow2(n),
        forall|b: int|
            0 <= b < n ==> #[trigger] values[b] == normalized(i, F::spec_basis((lo + b) as nat)),
    ensures
        selected_sum(values, n, index) == normalized(i, combination::<F>(lo, index)),
{
    lemma_selected_sum_of_low_digits(values, i, lo, n, index);
    lemma_small_mod(index, pow2(n));
}

/// Only the digits below the number of values take part in a sum.
proof fn lemma_selected_sum_of_low_digits<F: BinaryField>(
    values: Seq<F>,
    i: nat,
    lo: nat,
    n: nat,
    index: nat,
)
    requires
        n <= values.len(),
        forall|b: int|
            0 <= b < n ==> #[trigger] values[b] == normalized(i, F::spec_basis((lo + b) as nat)),
    ensures
        selected_sum(values, n, index) == normalized(
            i,
            combination::<F>(lo, (index as int % pow2(n) as int) as nat),
        ),
    decreases n,
{
    let z = F::spec_zero();
    lemma_normalized(i, z, z);
    lemma2_to64();
    if n > 0 {
        let top = (n - 1) as nat;
        let low = (index as int % pow2(top) as int) as nat;
        let digit = ((index as int / pow2(top) as int) % 2) as nat;
        lemma_selected_sum_of_low_digits(values, i, lo, top, index);
        lemma_pow2_pos(top);
        lemma_pow2_unfold(n);
        lemma_mod_breakdown(index as int, pow2(top) as int, 2);
        assert(digit * pow2(top) == pow2(top) * digit) by (nonlinear_arith);
        lemma_combination_splits::<F>(lo, top, digit, low);
        assert(values[top as int] == normalized(i, F::spec_basis((lo + top) as nat)));
        let b = F::spec_basis(lo + top);
        assert(combination::<F>(lo + top + 1, 0) == z);
        lemma_sum_cancels(b, z);
        assert(combination::<F>(lo + top, 1) == b.sum(z));
        assert(combination::<F>(lo + top, digit) == select(bit(index, top), b));
        lemma_normalized(i, combination(lo, low), select(bit(index, top), b));
    }
}

/// The sum of those of the first `n_bits` values that the binary digits of `index` select.
pub fn subset_sum<F: BinaryField>(values: &[F], n_bits: usize, index: usize) -> (r: F)
    requires
        n_bits <= usize::BITS,
        forall|b: nat| values@.len() <= b < n_bits ==> !#[trigger] bit(index as nat, b),
    ensures
        r == selected_sum(values@, n_bits as nat, index as nat),
{
    let mut total = F::zero();
    let mut b: usize = 0;
    while b < n_bits
        invariant
            b <= n_bits,
            n_bits <= usize::BITS,
            forall|k: nat| values@.len() <= k < n_bits ==> !#[trigger] bit(index as nat, k),
            total == selected_sum(values@, b as nat, index as nat),
        decreases n_bits - b,
    {
        proof {
            lemma_sum_cancels(total, F::spec_zero());
        }
        if test_bit(index, b) {
            total = total.add(values[b]);
        }
        b = b + 1;
    }
    total
}

/// The value of the next subspace polynomial, from that of the last at the same point and at the
/// last basis vector.
pub fn subspace_map<F: BinaryField>(elem: F, constant: F) -> (r: F)
    ensures
        r == elem.product(elem).sum(constant.product(elem)),
{
    elem.square().add(constant.mul(elem))
}

/// Row `i` of the table holds the `i`-th normalized subspace polynomial at the basis vectors
/// behind the `i`-th.
pub open spec fn is_evals_row<F: BinaryField>(row: Seq<F>, i: int, log_domain_size: nat) -> bool {
    &&& row.len() == if i < log_domain_size {
        log_domain_size - 1 - i
    } else {
        0
    }
    &&& forall|j: int|
        0 <= j < row.len() ==> #[trigger] row[j] == normalized(
            i as nat,
            F::spec_basis((i + 1 + j) as nat),
        )
}

/// A row for every dimension of the domain, and at least one.
pub open spec fn is_evals_table<F: BinaryField>(table: Seq<Vec<F>>, log_domain_size: nat) -> bool {
    &&& table.len() == if log_domain_size == 0 {
        1
    } else {
        log_domain_size
    }
    &&& forall|i: int|
        0 <= i < table.len() ==> is_evals_row(#[trigger] table[i]@, i, log_domain_size)
}

/// Whether row `i` holds the values of `W_i` at the basis vectors behind the `i`-th.
spec fn is_raw_row<F: BinaryField>(row: Seq<F>, i: int, log_domain_size: nat) -> bool {
    &&& row.len() == if i < log_domain_size {
        log_domain_size - 1 - i
    } else {
        0
    }
    &&& forall|j: int|
        0 <= j < row.len() ==> #[trigger] row[j] == vanishing(
            i as nat,
            F::spec_basis((i + 1 + j) as nat),
        )
}

/// The table of normalized subspace polynomial values for a domain of `2^log_domain_size` points.
pub fn precompute_subspace_evals<F: BinaryField>(log_domain_size: usize) -> (r: Result<
    Vec<Vec<F>>,
    Error,
>)
    ensures
        F::spec_n_bits() < log_domain_size ==> r == Err::<Vec<Vec<F>>, Error>(
            Error::FieldTooSmall { log_domain_size },
        ),
        F::spec_n_bits() >= log_domain_size ==> r is Ok,
        r matches Ok(table) ==> is_evals_table(table@, log_domain_size as nat),
{
    if F::n_bits() < log_domain_size {
        return Err(Error::FieldTooSmall { log_domain_size });
    }
    // The values of W_0, which is the identity.
    let mut first: Vec<F> = Vec::new();
    let mut i: usize = 1;
    while i < log_domain_size
        invariant
            1 <= i,
            i <= log_domain_size || first@.len() == 0,
            log_domain_size <= F::spec_n_bits(),
            first@.len() == i - 1,
            forall|j: int|
                0 <= j < first@.len() ==> #[trigger] first@[j] == F::spec_basis((1 + j) as nat),
        decreases log_domain_size - i,
    {
        first.push(F::basis(i).unwrap());
        i = i + 1;
    }
    let mut raw: Vec<Vec<F>> = Vec::new();
    // The values of W_i at the i-th basis vector.
    let mut normalization_consts: Vec<F> = Vec::new();
    proof {
        F::basis_starts_with_one();
        assert(is_raw_row(first@, 0, log_domain_size as nat));
    }
    normalization_consts.push(F::one());
    raw.push(first);
    i = 1;
    while i < log_domain_size
        invariant
            1 <= i,
            i <= log_domain_size || i == 1,
            raw@.len() == i,
            normalization_consts@.len() == i,
            forall|k: int|
                0 <= k < i ==> is_raw_row(#[trigger] raw@[k]@, k, log_domain_size as nat),
            forall|k: int|
                0 <= k < i ==> #[trigger] normalization_consts@[k] == vanishing(
                    k as nat,
                    F::spec_basis(k as nat),
                ),
        decreases log_domain_size - i,
    {
        let norm_prev = normalization_consts[i - 1];
        let mut row: Vec<F> = Vec::new();
        let prev = &raw[i - 1];
        let norm = subspace_map(prev[0], norm_prev);
        proof {
            assert(is_raw_row(raw@[i - 1]@, i - 1, log_domain_size as nat));
            lemma_vanishing_step((i - 1) as nat, F::spec_basis(i as nat));
        }
        let mut j: usize = 1;
        while j < prev.len()
            invariant
                1 <= j <= prev@.len(),
                1 <= i,
                row@.len() == j - 1,
                norm_prev == vanishing((i - 1) as nat, F::spec_basis((i - 1) as nat)),
                is_raw_row(prev@, i - 1, log_domain_size as nat),
                forall|k: int|
                    0 <= k < row@.len() ==> #[trigger] row@[k] == vanishing(
                        i as nat,
                        F::spec_basis((i + 1 + k) as nat),
                    ),
            decreases prev.len() - j,
        {
            proof {
                assert(prev@[j as int] == vanishing(
                    (i - 1) as nat,
                    F::spec_basis((i - 1 + 1 + j) as nat),
                ));
                lemma_vanishing_step((i - 1) as nat, F::spec_basis((i + j) as nat));
            }
            row.push(subspace_map(prev[j], norm_prev));
            j = j + 1;
        }
        assert(is_raw_row(row@, i as int, log_domain_size as nat));
        normalization_consts.push(norm);
        raw.push(row);
        i = i + 1;
    }
    let mut table: Vec<Vec<F>> = Vec::new();
    let mut k: usize = 0;
    while k < raw.len()
        invariant
            k <= raw@.len(),
            table@.len() == k,
            raw@.len() == if log_domain_size == 0 {
                1
            } else {
                log_domain_size
            },
            normalization_consts@.len() == raw@.len(),
            log_domain_size <= F::spec_n_bits(),
            0 < F::spec_n_bits(),
            forall|m: int|
                0 <= m < raw@.len() ==> is_raw_row(#[trigger] raw@[m]@, m, log_domain_size as nat),
            forall|m: int|
                0 <= m < raw@.len() ==> #[trigger] normalization_consts@[m] == vanishing(
                    m as nat,
                    F::spec_basis(m as nat),
                ),
            forall|m: int|
                0 <= m < k ==> is_evals_row(#[trigger] table@[m]@, m, log_domain_size as nat),
        decreases raw.len() - k,
    {
        proof {
            lemma_normalizer_nonzero::<F>(k as nat);
            assert(is_raw_row(raw@[k as int]@, k as int, log_domain_size as nat));
        }
        let inv_norm_const = normalization_consts[k].invert().unwrap();
        let raw_row = &raw[k];
        let mut row: Vec<F> = Vec::new();
        let mut j: usize = 0;
        while j < raw_row.len()
            invariant
                j <= raw_row@.len(),
                row@.len() == j,
                inv_norm_const == vanishing(k as nat, F::spec_basis(k as nat)).inverse(),
                is_raw_row(raw_row@, k as int, log_domain_size as nat),
                forall|m: int|
                    0 <= m < row@.len() ==> #[trigger] row@[m] == normalized(
                        k as nat,
                        F::spec_basis((k + 1 + m) as nat),
                    ),
            decreases raw_row.len() - j,
        {
            row.push(raw_row[j].mul(inv_norm_const));
            j = j + 1;
        }
        assert(is_evals_row(row@, k as int, log_domain_size as nat));
        table.push(row);
        k = k + 1;
    }
    Ok(table)
}

/// The number of field elements in a table.
pub open spec fn total_len<F>(table: Seq<Vec<F>>) -> nat
    decreases table.len(),
{
    if table.len() == 0 {
        0
    } else {
        total_len(table.drop_last()) + table.last()@.len()
    }
}

/// The size of the first `k` rows of a table of normalized subspace polynomial values.
pub proof fn lemma_evals_table_size<F: BinaryField>(
    table: Seq<Vec<F>>,
    log_domain_size: nat,
    k: nat,
)
    requires
        is_evals_table(table, log_domain_size),
        k <= table.len(),
    ensures
        2 * total_len(table.take(k as int)) == if log_domain_size == 0 {
            0
        } else {
            k * (2 * log_domain_size - 1 - k)
        },
    decreases k,
{
    let part = table.take(k as int);
    if k > 0 {
        let j = (k - 1) as nat;
        lemma_evals_table_size(table, log_domain_size, j);
        assert(part.drop_last() =~= table.take(j as int));
        assert(part.last() == table[j as int]);
        assert(is_evals_row(table[j as int]@, j as int, log_domain_size));
        assert(j * (2 * log_domain_size - 1 - j) + 2 * (log_domain_size - 1 - j) == k * (2
            * log_domain_size - 1 - k)) by (nonlinear_arith)
            requires
                k == j + 1,
        ;
    }
}

} // verus!

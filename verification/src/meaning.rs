//! What the operations mean, said with sums, products and powers of two alone.

use vstd::arithmetic::div_mod::{
    lemma_basic_div, lemma_div_by_multiple, lemma_fundamental_div_mod_converse,
};
use vstd::arithmetic::power2::{
    lemma2_to64, lemma_pow2_adds, lemma_pow2_pos, lemma_pow2_strictly_increases, lemma_pow2_unfold,
    pow2,
};
use vstd::prelude::*;

use crate::additive_ntt::{
    extension_error, extension_fits, forward_extension_result, inverse_extension_result,
    AdditiveNTT,
};
use crate::bits::{
    bit, bit_length, is_power_of_two, lemma_bit_length_bounds, lemma_bit_length_unique,
    lemma_log2_of_power, lemma_power_monotone, log2,
};
use crate::error::Error;
use crate::extension::{
    coefficient_sequence, evaluate_over, lemma_batch_is_extension, ExtensionField,
    PackedExtensionField,
};
use crate::field::{
    group_coordinates, lemma_product_with_zero, lemma_same, lemma_sum_cancels, BinaryField,
};
use crate::laws::{lemma_coordinates_of_combination, lemma_entry_in_range};
use crate::novel::{
    basis_factor, basis_product, column, evaluate, lagrange_values, lemma_block_position,
    novel_basis,
};
use crate::on_the_fly::{is_otf_twiddle, AdditiveNTTWithOTFCompute};
use crate::packed::{
    lemma_scalar_position, scalars, transposed_lower, transposed_upper, Packed, PackedField,
};
use crate::params::{batch_error, batch_fits, batch_params, NTTParams};
use crate::precomputed::{is_precomputed_twiddle, AdditiveNTTWithPrecompute};
use crate::subspace::{
    combination, is_evals_row, is_evals_table, lemma_combination_splits, lemma_normalized,
    lemma_normalizer_nonzero, normalized, point, selected_sum, total_len, vanishing,
};
use crate::tower::{BinaryField1b, Quadratic, TowerField};
use crate::transform::{
    forward_result, inverse_result, is_trivial, transform_error, transform_fits, Stages,
};

verus! {

/// The powers of two are the numbers `2^k`, and the logarithm undoes the power.
pub proof fn law_powers_of_two(n: nat, k: nat)
    ensures
        is_power_of_two(n) <==> exists|e: nat| pow2(e) == n,
        log2(pow2(k)) == k,
        pow2(k) == n ==> is_power_of_two(n) && log2(n) == k,
{
    lemma_log2_of_power(k);
    if is_power_of_two(n) {
        assert(pow2(log2(n)) == n);
    }
    if exists|e: nat| pow2(e) == n {
        let e = choose|e: nat| pow2(e) == n;
        lemma_log2_of_power(e);
    }
}

/// A number from `2^(c - 1)` up to `2^c` has `c` binary digits; zero has none.
pub proof fn law_binary_length(n: nat, c: nat)
    requires
        c > 0,
        pow2((c - 1) as nat) <= n < pow2(c),
    ensures
        bit_length(n) == c,
        log2(n) == c - 1,
        bit_length(0) == 0,
{
    lemma_bit_length_unique(n, c);
}

/// Digit `i` of a number is what `2^i` counts in it, once all above and below is taken away.
pub proof fn law_binary_digits(i: nat, high: nat, digit: nat, low: nat)
    requires
        digit < 2,
        low < pow2(i),
    ensures
        bit((2 * high + digit) * pow2(i) + low, i) == (digit == 1),
{
    lemma_pow2_pos(i);
    lemma_fundamental_div_mod_converse(
        ((2 * high + digit) * pow2(i) + low) as int,
        pow2(i) as int,
        (2 * high + digit) as int,
        low as int,
    );
}

/// The coordinates of a point of the domain are the binary digits of its index.
pub proof fn law_points_have_their_digits<F: BinaryField>(t: nat, i: nat)
    requires
        t < pow2(F::spec_n_bits()),
    ensures
        point::<F>(t).coordinate(i) == ((t as int / pow2(i) as int) % 2 == 1),
{
    lemma_coordinates_of_combination::<F>(0, F::spec_n_bits(), t, i);
    lemma_pow2_pos(i);
}

/// A first factor can be taken out of a product.
proof fn lemma_product_from<F: BinaryField>(
    factors: Seq<F>,
    start: F,
    multiply: spec_fn(F, F) -> F,
)
    requires
        forall|a: F, b: F| #[trigger] multiply(a, b) == a.product(b),
    ensures
        factors.fold_left(start, multiply) == start.product(
            factors.fold_left(F::spec_one(), multiply),
        ),
    decreases factors.len(),
{
    if factors.len() == 0 {
        F::product_with_one(start);
    } else {
        let rest = factors.drop_last();
        lemma_product_from(rest, start, multiply);
        F::product_associates(start, rest.fold_left(F::spec_one(), multiply), factors.last());
    }
}

/// The subspace polynomial `W_i` is the product of all `x + u`, where `u` goes through the first
/// `2^i` points of the domain.
pub proof fn law_subspace_polynomial_is_a_product<F: BinaryField>(
    i: nat,
    x: F,
    factors: Seq<F>,
    multiply: spec_fn(F, F) -> F,
)
    requires
        i <= F::spec_n_bits(),
        forall|a: F, b: F| #[trigger] multiply(a, b) == a.product(b),
        factors.len() == pow2(i),
        forall|u: int| 0 <= u < factors.len() ==> #[trigger] factors[u] == x.sum(point(u as nat)),
    ensures
        vanishing(i, x) == factors.fold_left(F::spec_one(), multiply),
    decreases i,
{
    broadcast use group_coordinates;

    let (one, z) = (F::spec_one(), F::spec_zero());
    lemma2_to64();
    if i == 0 {
        assert(factors.drop_last().fold_left(one, multiply) == one);
        assert(factors.last() == factors[0]);
        lemma_sum_cancels(x, z);
        F::product_commutes(one, x);
        F::product_with_one(x);
    } else {
        let j = (i - 1) as nat;
        let half = pow2(j) as int;
        let b = F::spec_basis(j);
        lemma_pow2_unfold(i);
        lemma_pow2_pos(j);
        let low = factors.subrange(0, half);
        let high = factors.subrange(half, factors.len() as int);
        assert forall|u: int| 0 <= u < half implies #[trigger] high[u] == x.sum(b).sum(
            point(u as nat),
        ) by {
            assert(high[u] == factors[half + u]);
            lemma_combination_splits::<F>(0, j, 1, u as nat);
            assert(1 * pow2(j) + u as nat == half + u);
            assert(combination::<F>(j + 1, 0) == z);
            assert(combination::<F>(j, 1) == b.sum(z));
            let p = point::<F>(u as nat);
            lemma_same(x.sum(p.sum(b.sum(z))), x.sum(b).sum(p));
        }
        law_subspace_polynomial_is_a_product(j, x, low, multiply);
        law_subspace_polynomial_is_a_product(j, x.sum(b), high, multiply);
        factors.lemma_fold_left_split(one, multiply, half);
        lemma_product_from(high, low.fold_left(one, multiply), multiply);
    }
}

/// The `i`-th normalized subspace polynomial is `W_i` divided by its value at the `i`-th basis
/// vector, which is not zero. It takes the value one there, and the first one is the identity.
pub proof fn law_normalized_is_a_ratio<F: BinaryField>(i: nat, x: F)
    requires
        i < F::spec_n_bits(),
    ensures
        vanishing(i, F::spec_basis(i)) != F::spec_zero(),
        normalized(i, x).product(vanishing(i, F::spec_basis(i))) == vanishing(i, x),
        normalized(i, F::spec_basis(i)) == F::spec_one(),
        normalized(0, x) == x,
        vanishing(0, x) == x,
{
    lemma_ratio(i, x);
    F::basis_starts_with_one();
    lemma_ratio(0, x);
    F::product_with_one(normalized(0, x));
    lemma_normalized(i, x, x);
}

/// Dividing and multiplying again.
proof fn lemma_ratio<F: BinaryField>(i: nat, x: F)
    requires
        i < F::spec_n_bits(),
    ensures
        vanishing(i, F::spec_basis(i)) != F::spec_zero(),
        normalized(i, x).product(vanishing(i, F::spec_basis(i))) == vanishing(i, x),
{
    let norm = vanishing(i, F::spec_basis(i));
    let w = vanishing(i, x);
    lemma_normalizer_nonzero::<F>(i);
    F::product_with_inverse(norm);
    F::product_associates(w, norm.inverse(), norm);
    F::product_commutes(norm.inverse(), norm);
    F::product_with_one(w);
}

/// A higher digit contributes one more factor.
proof fn lemma_basis_product_top<F: BinaryField>(lo: nat, i: nat, m: nat, y: F)
    requires
        m < pow2(i),
    ensures
        basis_product(lo, m + pow2(i), y) == basis_product(lo, m, y).product(
            normalized(lo + i, y),
        ),
    decreases i,
{
    lemma2_to64();
    lemma_pow2_pos(i);
    let one = F::spec_one();
    F::product_with_one(one);
    if i == 0 {
        assert(basis_product(lo + 1, 0, y) == one);
        F::product_commutes(one, normalized(lo, y));
    } else {
        let j = (i - 1) as nat;
        lemma_pow2_unfold(i);
        lemma_basis_product_top(lo + 1, j, m / 2, y);
        let head = basis_factor(m % 2 == 1, lo, y);
        let t = m + pow2(i);
        assert(t % 2 == m % 2);
        assert(t / 2 == m / 2 + pow2(j));
        if m == 0 {
            assert(basis_product(lo + 1, 0, y) == one);
        }
        assert(basis_product(lo, m, y) == head.product(basis_product(lo + 1, m / 2, y)));
        F::product_associates(head, basis_product(lo + 1, m / 2, y), normalized(lo + i, y));
    }
}

/// The first polynomial of the novel basis is constant, and adding the digit `2^i` to a smaller
/// index multiplies by the `i`-th normalized subspace polynomial.
pub proof fn law_novel_basis_multiplies<F: BinaryField>(i: nat, m: nat, y: F)
    requires
        m < pow2(i),
    ensures
        novel_basis(0, y) == F::spec_one(),
        novel_basis(pow2(i), y) == normalized(i, y),
        novel_basis(m + pow2(i), y) == novel_basis(m, y).product(normalized(i, y)),
{
    lemma_pow2_pos(i);
    lemma_basis_product_top(0, i, m, y);
    lemma_basis_product_top(0, i, 0, y);
    F::product_commutes(F::spec_one(), normalized(i, y));
    F::product_with_one(normalized(i, y));
}

/// The value of a polynomial is the sum of its coefficients times the polynomials of the basis.
pub proof fn law_evaluation_is_a_sum<F: BinaryField>(
    coeffs: Seq<F>,
    y: F,
    terms: Seq<F>,
    plus: spec_fn(F, F) -> F,
)
    requires
        forall|a: F, b: F| #[trigger] plus(a, b) == a.sum(b),
        terms.len() == coeffs.len(),
        forall|m: int|
            0 <= m < terms.len() ==> #[trigger] terms[m] == coeffs[m].product(
                novel_basis(m as nat, y),
            ),
    ensures
        evaluate(coeffs, y) == terms.fold_left(F::spec_zero(), plus),
    decreases coeffs.len(),
{
    if coeffs.len() > 0 {
        law_evaluation_is_a_sum(coeffs.drop_last(), y, terms.drop_last(), plus);
        assert(terms.last() == terms[terms.len() - 1]);
    }
}

/// A subset sum is the sum of those values whose position is a one among the digits of the index.
pub proof fn law_subset_sum_is_a_sum<F: BinaryField>(
    values: Seq<F>,
    n: nat,
    index: nat,
    terms: Seq<F>,
    plus: spec_fn(F, F) -> F,
)
    requires
        forall|a: F, b: F| #[trigger] plus(a, b) == a.sum(b),
        terms.len() == n,
        forall|b: int|
            0 <= b < n ==> #[trigger] terms[b] == if (index as int / pow2(b as nat) as int) % 2
                == 1 {
                values[b]
            } else {
                F::spec_zero()
            },
    ensures
        selected_sum(values, n, index) == terms.fold_left(F::spec_zero(), plus),
    decreases n,
{
    if n > 0 {
        let top = (n - 1) as nat;
        law_subset_sum_is_a_sum(values, top, index, terms.drop_last(), plus);
        assert(terms.last() == terms[top as int]);
        lemma_pow2_pos(top);
    }
}

/// The table has a row for each dimension, and entry `j` of row `i`, times `W_i` at the `i`-th
/// basis vector, is `W_i` at the basis vector `j + 1` places behind.
pub proof fn law_table_holds_ratios<F: BinaryField>(
    table: Seq<Vec<F>>,
    log_domain_size: nat,
    i: int,
    j: int,
)
    requires
        0 < log_domain_size <= F::spec_n_bits(),
        is_evals_table(table, log_domain_size),
        0 <= i < log_domain_size,
        0 <= j < log_domain_size - 1 - i,
    ensures
        table.len() == log_domain_size,
        table[i]@.len() == log_domain_size - 1 - i,
        table[i]@[j].product(vanishing(i as nat, F::spec_basis(i as nat))) == vanishing(
            i as nat,
            F::spec_basis((i + 1 + j) as nat),
        ),
        i == 0 ==> table[i]@[j] == F::spec_basis((j + 1) as nat),
{
    assert(is_evals_row(table[i]@, i, log_domain_size));
    law_normalized_is_a_ratio(i as nat, F::spec_basis((i + 1 + j) as nat));
}

/// The last row of a table is empty, and so is the only row for a single point.
pub proof fn law_table_ends_with_an_empty_row<F: BinaryField>(
    table: Seq<Vec<F>>,
    log_domain_size: nat,
)
    requires
        is_evals_table(table, log_domain_size),
    ensures
        table.len() == log_domain_size || (log_domain_size == 0 && table.len() == 1),
        table[table.len() - 1]@.len() == 0,
{
    assert(is_evals_row(table[table.len() - 1]@, table.len() - 1, log_domain_size));
}

/// Where every length is a power of two, the sizes of a batch and the reasons to refuse it follow
/// from the exponents: `2^a` packed elements of `2^w` lanes in `2^b` columns have `2^(a + w - b)`
/// rows, and the digits of the coset count on top of that.
pub proof fn law_input_check(
    log_domain_size: nat,
    a: nat,
    w: nat,
    b: nat,
    c: nat,
    coset: nat,
)
    requires
        coset < pow2(c),
        c == 0 || pow2((c - 1) as nat) <= coset,
    ensures
        batch_error(log_domain_size, pow2(a), pow2(w), coset, b) == if b > a + w {
            Some(Error::BatchTooLarge)
        } else if a + w - b + c > log_domain_size {
            Some(Error::DomainTooSmall { log_required_domain_size: (a + w - b + c) as usize })
        } else {
            None
        },
        b <= a + w ==> batch_params(pow2(a), pow2(w), coset, b) == (NTTParams {
            log_n: (a + w - b) as usize,
            log_w: w as usize,
            coset_bits: c as usize,
        }),
{
    lemma_log2_of_power(a);
    lemma_log2_of_power(w);
    lemma_pow2_pos(a);
    lemma_pow2_pos(w);
    lemma_pow2_adds(a, w);
    lemma_pow2_pos(b);
    lemma_bit_length_unique(coset, c);
    if b <= a + w {
        let d = (a + w - b) as nat;
        lemma_pow2_adds(d, b);
        lemma_div_by_multiple(pow2(d) as int, pow2(b) as int);
        lemma_log2_of_power(d);
        lemma_pow2_pos(d);
    } else {
        lemma_pow2_strictly_increases(a + w, b);
        lemma_basic_div(pow2(a + w) as int, pow2(b) as int);
    }
}

/// A number of packed elements that is no power of two is refused first, then a number of lanes
/// that is none.
pub proof fn law_input_check_of_other_lengths(
    log_domain_size: nat,
    len: nat,
    width: nat,
    b: nat,
    coset: nat,
)
    ensures
        (forall|k: nat| pow2(k) != len) ==> batch_error(log_domain_size, len, width, coset, b)
            == Some(Error::PowerOfTwoLengthRequired),
        (exists|k: nat| pow2(k) == len) && (forall|k: nat| pow2(k) != width) ==> batch_error(
            log_domain_size,
            len,
            width,
            coset,
            b,
        ) == Some(Error::PackingWidthMustDivideDimension),
{
    law_powers_of_two(len, 0);
    law_powers_of_two(width, 0);
}

/// The number of digits of a coset below `2^c`.
proof fn lemma_digits_below(coset: nat, c: nat)
    requires
        coset < pow2(c),
    ensures
        bit_length(coset) <= c,
        coset < pow2(bit_length(coset)),
        bit_length(coset) == 0 || pow2((bit_length(coset) - 1) as nat) <= coset,
        c == 0 || pow2((c - 1) as nat) <= coset ==> bit_length(coset) == c,
{
    lemma_bit_length_bounds(coset);
    lemma2_to64();
    if bit_length(coset) > c {
        lemma_power_monotone(c, (bit_length(coset) - 1) as nat);
    }
    if c == 0 || pow2((c - 1) as nat) <= coset {
        lemma_bit_length_unique(coset, c);
    }
}

/// Whether a transform of `2^a` packed elements of `2^w` lanes is accepted.
proof fn lemma_transform_check(log_domain_size: nat, a: nat, w: nat, b: nat, c: nat, coset: nat)
    requires
        a + w > 0,
        coset < pow2(c),
    ensures
        ({
            let error = transform_error(log_domain_size, pow2(a), pow2(w), coset, b);
            &&& b > a + w ==> error == Some(Error::BatchTooLarge)
            &&& b <= a + w && a + w - b + c <= log_domain_size ==> error is None
            &&& b <= a + w && a + w - b + c > log_domain_size && (c == 0 || pow2((c - 1) as nat)
                <= coset) ==> error == Some(
                Error::DomainTooSmall { log_required_domain_size: (a + w - b + c) as usize },
            )
        }),
{
    let e = bit_length(coset);
    lemma_digits_below(coset, c);
    lemma2_to64();
    if a > 0 {
        lemma_pow2_strictly_increases(0, a);
    }
    if w > 0 {
        lemma_pow2_strictly_increases(0, w);
    }
    if a == 0 {
        law_input_check(log_domain_size, w, 0, b, e, coset);
    } else {
        law_input_check(log_domain_size, a, w, b, e, coset);
    }
}

/// A forward transform of `2^a` packed elements of `2^w` lanes in `2^b` columns on a coset below
/// `2^c` succeeds if the columns fill the data and the rows and digits of the coset fit the domain.
/// Otherwise it is refused and changes nothing.
pub proof fn law_forward_is_accepted<P: PackedField>(
    log_domain_size: nat,
    before: Seq<P>,
    after: Seq<P>,
    coset: nat,
    b: nat,
    result: Result<(), Error>,
    a: nat,
    w: nat,
    c: nat,
)
    requires
        forward_result(log_domain_size, before, after, coset, b, result),
        before.len() == pow2(a),
        P::spec_width() == pow2(w),
        a + w > 0,
        coset < pow2(c),
    ensures
        b <= a + w && a + w - b + c <= log_domain_size ==> result == Ok::<(), Error>(()),
        b > a + w ==> result == Err::<(), Error>(Error::BatchTooLarge),
        b <= a + w && a + w - b + c > log_domain_size && (c == 0 || pow2((c - 1) as nat) <= coset)
            ==> result == Err::<(), Error>(
            Error::DomainTooSmall { log_required_domain_size: (a + w - b + c) as usize },
        ),
        after.len() == before.len(),
        result is Err ==> after == before,
{
    lemma_transform_check(log_domain_size, a, w, b, c, coset);
}

/// An inverse transform is accepted and refused on the same grounds.
pub proof fn law_inverse_is_accepted<P: PackedField>(
    log_domain_size: nat,
    before: Seq<P>,
    after: Seq<P>,
    coset: nat,
    b: nat,
    result: Result<(), Error>,
    a: nat,
    w: nat,
    c: nat,
)
    requires
        inverse_result(log_domain_size, before, after, coset, b, result),
        before.len() == pow2(a),
        P::spec_width() == pow2(w),
        a + w > 0,
        coset < pow2(c),
    ensures
        b <= a + w && a + w - b + c <= log_domain_size ==> result == Ok::<(), Error>(()),
        b > a + w ==> result == Err::<(), Error>(Error::BatchTooLarge),
        b <= a + w && a + w - b + c > log_domain_size && (c == 0 || pow2((c - 1) as nat) <= coset)
            ==> result == Err::<(), Error>(
            Error::DomainTooSmall { log_required_domain_size: (a + w - b + c) as usize },
        ),
        after.len() == before.len(),
        result is Err ==> after == before,
{
    lemma_transform_check(log_domain_size, a, w, b, c, coset);
}

/// Data without scalars and a single scalar are left as they are on any coset and in any batch.
/// Other data whose lengths are no powers of two is refused and left as it is: for its number of
/// packed elements, or of lanes if there is only one element, or else for its packing.
pub proof fn law_transforms_of_other_lengths<P: PackedField>(
    log_domain_size: nat,
    before: Seq<P>,
    after: Seq<P>,
    coset: nat,
    b: nat,
    result: Result<(), Error>,
)
    requires
        forward_result(log_domain_size, before, after, coset, b, result) || inverse_result(
            log_domain_size,
            before,
            after,
            coset,
            b,
            result,
        ),
    ensures
        before.len() == 0 || (before.len() == 1 && P::spec_width() == 1) ==> result == Ok::<
            (),
            Error,
        >(()) && after == before,
        before.len() >= 2 && (forall|k: nat| pow2(k) != before.len()) ==> result == Err::<
            (),
            Error,
        >(Error::PowerOfTwoLengthRequired) && after == before,
        before.len() == 1 && P::spec_width() >= 2 && (forall|k: nat| pow2(k) != P::spec_width())
            ==> result == Err::<(), Error>(Error::PowerOfTwoLengthRequired) && after == before,
        before.len() >= 2 && (exists|k: nat| pow2(k) == before.len()) && (forall|k: nat|
            pow2(k) != P::spec_width()) ==> result == Err::<(), Error>(
            Error::PackingWidthMustDivideDimension,
        ) && after == before,
{
    law_input_check_of_other_lengths(log_domain_size, before.len(), P::spec_width(), b, coset);
    law_input_check_of_other_lengths(log_domain_size, P::spec_width(), 1, b, coset);
}

/// An entry of the values of a batch, as a sum over the scalars of packed data.
proof fn lemma_value_is_a_sum<P: PackedField>(
    data: Seq<P>,
    coset: nat,
    b: nat,
    p: int,
    terms: Seq<P::Scalar>,
    plus: spec_fn(P::Scalar, P::Scalar) -> P::Scalar,
)
    requires
        0 <= p < data.len() * P::spec_width(),
        forall|x: P::Scalar, y: P::Scalar| #[trigger] plus(x, y) == x.sum(y),
        terms.len() == (data.len() * P::spec_width()) as int / pow2(b) as int,
        forall|m: int|
            0 <= m < terms.len() ==> #[trigger] terms[m] == ({
                let s = m * pow2(b) + p % pow2(b) as int;
                let (q, l) = (s / P::spec_width() as int, s % P::spec_width() as int);
                let y = point((coset * terms.len() + p / pow2(b) as int) as nat);
                data[q].lanes()[l].product(novel_basis(m as nat, y))
            }),
    ensures
        lagrange_values(scalars(data), b, coset)[p] == terms.fold_left(
            P::Scalar::spec_zero(),
            plus,
        ),
{
    let x = scalars(data);
    let columns = pow2(b);
    lemma_pow2_pos(b);
    let c = (p % columns as int) as nat;
    let rows = x.len() / columns;
    let y = point::<P::Scalar>(coset * rows + p as nat / columns);
    let col = column(x, columns, c);
    assert forall|m: int| 0 <= m < terms.len() implies #[trigger] terms[m] == col[m].product(
        novel_basis(m as nat, y),
    ) by {
        lemma_entry_in_range(x.len(), columns, m, c as int);
    }
    law_evaluation_is_a_sum(col, y, terms, plus);
}

/// A forward transform turns coefficients into values.
///
/// Scalar `p` lies in column `p % 2^b` and row `p / 2^b`. Afterwards it is the sum of the column's
/// former scalars, each times its polynomial of the novel basis at a point of the domain. The
/// point's index is the row, counted from as many whole columns on as the coset says.
pub proof fn law_forward_gives_values<P: PackedField>(
    log_domain_size: nat,
    before: Seq<P>,
    after: Seq<P>,
    coset: nat,
    b: nat,
    result: Result<(), Error>,
    p: int,
    terms: Seq<P::Scalar>,
    plus: spec_fn(P::Scalar, P::Scalar) -> P::Scalar,
)
    requires
        forward_result(log_domain_size, before, after, coset, b, result),
        result is Ok,
        before.len() * P::spec_width() >= 2,
        0 <= p < before.len() * P::spec_width(),
        forall|x: P::Scalar, y: P::Scalar| #[trigger] plus(x, y) == x.sum(y),
        terms.len() == (before.len() * P::spec_width()) as int / pow2(b) as int,
        forall|m: int|
            0 <= m < terms.len() ==> #[trigger] terms[m] == ({
                let s = m * pow2(b) + p % pow2(b) as int;
                let (q, l) = (s / P::spec_width() as int, s % P::spec_width() as int);
                let y = point((coset * terms.len() + p / pow2(b) as int) as nat);
                before[q].lanes()[l].product(novel_basis(m as nat, y))
            }),
    ensures
        after[p / P::spec_width() as int].lanes()[p % P::spec_width() as int]
            == terms.fold_left(P::Scalar::spec_zero(), plus),
{
    assert(!is_trivial(before.len(), P::spec_width())) by {
        let (n, w) = (before.len() as int, P::spec_width() as int);
        assert(n == 0 ==> n * w == 0) by (nonlinear_arith);
        assert(n == 1 ==> n * w == w) by (nonlinear_arith);
    }
    lemma_value_is_a_sum(before, coset, b, p, terms, plus);
    assert(scalars(after)[p] == after[p / P::spec_width() as int].lanes()[p % P::spec_width() as int]);
}

/// An inverse transform turns values into coefficients: what was scalar `p` is the sum of the new
/// scalars of its column, each times its polynomial of the novel basis at the point of row `p / 2^b`
/// of the coset.
pub proof fn law_inverse_gives_coefficients<P: PackedField>(
    log_domain_size: nat,
    before: Seq<P>,
    after: Seq<P>,
    coset: nat,
    b: nat,
    result: Result<(), Error>,
    p: int,
    terms: Seq<P::Scalar>,
    plus: spec_fn(P::Scalar, P::Scalar) -> P::Scalar,
)
    requires
        inverse_result(log_domain_size, before, after, coset, b, result),
        result is Ok,
        before.len() * P::spec_width() >= 2,
        0 <= p < before.len() * P::spec_width(),
        forall|x: P::Scalar, y: P::Scalar| #[trigger] plus(x, y) == x.sum(y),
        terms.len() == (after.len() * P::spec_width()) as int / pow2(b) as int,
        forall|m: int|
            0 <= m < terms.len() ==> #[trigger] terms[m] == ({
                let s = m * pow2(b) + p % pow2(b) as int;
                let (q, l) = (s / P::spec_width() as int, s % P::spec_width() as int);
                let y = point((coset * terms.len() + p / pow2(b) as int) as nat);
                after[q].lanes()[l].product(novel_basis(m as nat, y))
            }),
    ensures
        before[p / P::spec_width() as int].lanes()[p % P::spec_width() as int]
            == terms.fold_left(P::Scalar::spec_zero(), plus),
{
    assert(!is_trivial(before.len(), P::spec_width())) by {
        let (n, w) = (before.len() as int, P::spec_width() as int);
        assert(n == 0 ==> n * w == 0) by (nonlinear_arith);
        assert(n == 1 ==> n * w == w) by (nonlinear_arith);
    }
    lemma_value_is_a_sum(after, coset, b, p, terms, plus);
    assert(scalars(before)[p] == before[p / P::spec_width() as int].lanes()[p % P::spec_width() as int]);
}

/// A factor of a power of two is a power of two.
proof fn lemma_factors_of_power(x: nat, y: nat, t: nat) -> (k: nat)
    requires
        x * y == pow2(t),
    ensures
        k <= t,
        x == pow2(k),
        y == pow2((t - k) as nat),
    decreases t,
{
    lemma2_to64();
    lemma_pow2_pos(t);
    if t == 0 {
        assert(x == 1 && y == 1) by (nonlinear_arith)
            requires
                x * y == 1,
                x >= 0,
                y >= 0,
        ;
        0
    } else {
        lemma_pow2_unfold(t);
        let (u, v) = (x / 2, y / 2);
        if x % 2 == 0 {
            assert(u * y == pow2((t - 1) as nat)) by (nonlinear_arith)
                requires
                    x == 2 * u,
                    x * y == 2 * pow2((t - 1) as nat),
            ;
            let k = lemma_factors_of_power(u, y, (t - 1) as nat);
            lemma_pow2_unfold(k + 1);
            k + 1
        } else if y % 2 == 0 {
            assert(x * v == pow2((t - 1) as nat)) by (nonlinear_arith)
                requires
                    y == 2 * v,
                    x * y == 2 * pow2((t - 1) as nat),
            ;
            let k = lemma_factors_of_power(x, v, (t - 1) as nat);
            lemma_pow2_unfold((t - k) as nat);
            k
        } else {
            assert(x * y == 2 * (2 * (u * v) + u + v) + 1) by (nonlinear_arith)
                requires
                    x == 2 * u + 1,
                    y == 2 * v + 1,
            ;
            0
        }
    }
}

/// The packed elements over the subfield have as many scalars as there are coefficients.
proof fn lemma_base_total<P: PackedField, PE: PackedExtensionField<P>>(len: nat) where
    PE::Scalar: ExtensionField<P::Scalar>,

    ensures
        (len * PE::spec_bases()) * P::spec_width() == len * PE::spec_width()
            * <PE::Scalar as ExtensionField<P::Scalar>>::spec_degree(),
        len * PE::spec_width() * <PE::Scalar as ExtensionField<P::Scalar>>::spec_degree() >= 2
            ==> !is_trivial(len * PE::spec_bases(), P::spec_width()),
{
    PE::bases_match_lanes();
    let (l, n, w) = (len as int, PE::spec_bases() as int, P::spec_width() as int);
    let we = PE::spec_width() as int;
    let g = <PE::Scalar as ExtensionField<P::Scalar>>::spec_degree() as int;
    assert((l * n) * w == l * we * g) by (nonlinear_arith)
        requires
            n * w == we * g,
    ;
    let count = l * n;
    assert(count == 0 ==> count * w == 0) by (nonlinear_arith);
    assert(count == 1 ==> count * w == w) by (nonlinear_arith);
}

/// Whether a transform of `2^n` elements of an extension of degree `2^d` is accepted.
proof fn lemma_extension_check<P: PackedField, PE: PackedExtensionField<P>>(
    log_domain_size: nat,
    len: nat,
    coset: nat,
    n: nat,
    d: nat,
    c: nat,
) where PE::Scalar: ExtensionField<P::Scalar>
    requires
        <PE::Scalar as ExtensionField<P::Scalar>>::spec_degree() == pow2(d),
        len * PE::spec_width() == pow2(n),
        coset < pow2(c),
    ensures
        ({
            let error = extension_error::<P, PE>(log_domain_size, len, coset);
            &&& n + c <= log_domain_size ==> error is None
            &&& n + d == 0 ==> error is None && is_trivial(
                len * PE::spec_bases(),
                P::spec_width(),
            )
            &&& n + d > 0 && n + c > log_domain_size && (c == 0 || pow2((c - 1) as nat) <= coset)
                ==> error == Some(
                Error::DomainTooSmall { log_required_domain_size: (n + c) as usize },
            )
        }),
{
    lemma_log2_of_power(d);
    lemma_pow2_adds(n, d);
    lemma_base_total::<P, PE>(len);
    let count = len * PE::spec_bases();
    let a = lemma_factors_of_power(count, P::spec_width(), n + d);
    let w = (n + d - a) as nat;
    if n + d > 0 {
        lemma_transform_check(log_domain_size, a, w, d, c, coset);
    } else {
        lemma2_to64();
    }
}

/// The value of a polynomial over an extension is the sum of its coefficients times the
/// polynomials of the basis.
proof fn lemma_evaluation_over_is_a_sum<F: BinaryField, E: ExtensionField<F>>(
    coeffs: Seq<E>,
    y: F,
    terms: Seq<E>,
    plus: spec_fn(E, E) -> E,
)
    requires
        forall|a: E, b: E| #[trigger] plus(a, b) == a.sum(b),
        terms.len() == coeffs.len(),
        forall|m: int|
            0 <= m < terms.len() ==> #[trigger] terms[m] == coeffs[m].product(
                E::embed(novel_basis(m as nat, y)),
            ),
    ensures
        evaluate_over::<F, E>(coeffs, y) == terms.fold_left(E::spec_zero(), plus),
    decreases coeffs.len(),
{
    if coeffs.len() > 0 {
        lemma_evaluation_over_is_a_sum::<F, E>(coeffs.drop_last(), y, terms.drop_last(), plus);
        assert(terms.last() == terms[terms.len() - 1]);
    }
}

/// The degree of an extension is refused if it is no power of two, and only then.
pub proof fn law_extension_degree<P: PackedField, PE: PackedExtensionField<P>>(
    log_domain_size: nat,
    before: Seq<PE>,
    after: Seq<PE>,
    coset: nat,
    result: Result<(), Error>,
) where PE::Scalar: ExtensionField<P::Scalar>
    requires
        forward_extension_result::<P, PE>(log_domain_size, before, after, coset, result)
            || inverse_extension_result::<P, PE>(log_domain_size, before, after, coset, result),
    ensures
        result == Err::<(), Error>(Error::PowerOfTwoExtensionDegreeRequired) <==> (forall|k: nat|
            pow2(k) != <PE::Scalar as ExtensionField<P::Scalar>>::spec_degree()),
        result is Err ==> after == before,
        after.len() == before.len(),
        before.len() == 0 && (exists|k: nat|
            pow2(k) == <PE::Scalar as ExtensionField<P::Scalar>>::spec_degree()) ==> result
            == Ok::<(), Error>(()),
{
    law_powers_of_two(<PE::Scalar as ExtensionField<P::Scalar>>::spec_degree(), 0);
    assert(0 * PE::spec_bases() == 0);
}

/// A forward transform of `2^n` elements of an extension of degree `2^d` on a coset below `2^c`
/// succeeds, whatever the degree, if the rows and digits of the coset fit the domain. Otherwise it is
/// refused and changes nothing.
pub proof fn law_forward_is_accepted_over_extension<P: PackedField, PE: PackedExtensionField<P>>(
    log_domain_size: nat,
    before: Seq<PE>,
    after: Seq<PE>,
    coset: nat,
    result: Result<(), Error>,
    n: nat,
    d: nat,
    c: nat,
) where PE::Scalar: ExtensionField<P::Scalar>
    requires
        forward_extension_result::<P, PE>(log_domain_size, before, after, coset, result),
        <PE::Scalar as ExtensionField<P::Scalar>>::spec_degree() == pow2(d),
        before.len() * PE::spec_width() == pow2(n),
        coset < pow2(c),
    ensures
        n + c <= log_domain_size ==> result == Ok::<(), Error>(()),
        n + d == 0 ==> result == Ok::<(), Error>(()) && after == before,
        n + d > 0 && n + c > log_domain_size && (c == 0 || pow2((c - 1) as nat) <= coset)
            ==> result == Err::<(), Error>(
            Error::DomainTooSmall { log_required_domain_size: (n + c) as usize },
        ),
        after.len() == before.len(),
        result is Err ==> after == before,
{
    lemma_extension_check::<P, PE>(log_domain_size, before.len(), coset, n, d, c);
}

/// An inverse transform over an extension is accepted and refused on the same grounds.
pub proof fn law_inverse_is_accepted_over_extension<P: PackedField, PE: PackedExtensionField<P>>(
    log_domain_size: nat,
    before: Seq<PE>,
    after: Seq<PE>,
    coset: nat,
    result: Result<(), Error>,
    n: nat,
    d: nat,
    c: nat,
) where PE::Scalar: ExtensionField<P::Scalar>
    requires
        inverse_extension_result::<P, PE>(log_domain_size, before, after, coset, result),
        <PE::Scalar as ExtensionField<P::Scalar>>::spec_degree() == pow2(d),
        before.len() * PE::spec_width() == pow2(n),
        coset < pow2(c),
    ensures
        n + c <= log_domain_size ==> result == Ok::<(), Error>(()),
        n + d == 0 ==> result == Ok::<(), Error>(()) && after == before,
        n + d > 0 && n + c > log_domain_size && (c == 0 || pow2((c - 1) as nat) <= coset)
            ==> result == Err::<(), Error>(
            Error::DomainTooSmall { log_required_domain_size: (n + c) as usize },
        ),
        after.len() == before.len(),
        result is Err ==> after == before,
{
    lemma_extension_check::<P, PE>(log_domain_size, before.len(), coset, n, d, c);
}

/// A forward transform over an extension turns coefficients into values: element `e` is afterwards
/// the sum of the former elements, each times its polynomial of the novel basis at point `e` of the
/// coset, which lies in the subfield.
pub proof fn law_forward_gives_values_over_extension<P: PackedField, PE: PackedExtensionField<P>>(
    log_domain_size: nat,
    before: Seq<PE>,
    after: Seq<PE>,
    coset: nat,
    result: Result<(), Error>,
    e: int,
    terms: Seq<PE::Scalar>,
    plus: spec_fn(PE::Scalar, PE::Scalar) -> PE::Scalar,
) where PE::Scalar: ExtensionField<P::Scalar>
    requires
        forward_extension_result::<P, PE>(log_domain_size, before, after, coset, result),
        result is Ok,
        before.len() * PE::spec_width() * <PE::Scalar as ExtensionField<P::Scalar>>::spec_degree()
            >= 2,
        0 <= e < before.len() * PE::spec_width(),
        forall|x: PE::Scalar, y: PE::Scalar| #[trigger] plus(x, y) == x.sum(y),
        terms.len() == before.len() * PE::spec_width(),
        forall|m: int|
            0 <= m < terms.len() ==> #[trigger] terms[m] == ({
                let (q, l) = (m / PE::spec_width() as int, m % PE::spec_width() as int);
                let y = point::<P::Scalar>((coset * terms.len() + e) as nat);
                before[q].lanes()[l].product(
                    <PE::Scalar as ExtensionField<P::Scalar>>::embed(novel_basis(m as nat, y)),
                )
            }),
    ensures
        after[e / PE::spec_width() as int].lanes()[e % PE::spec_width() as int]
            == terms.fold_left(PE::Scalar::spec_zero(), plus),
{
    lemma_base_total::<P, PE>(before.len());
    let y = point::<P::Scalar>((coset * terms.len() + e) as nat);
    lemma_evaluation_over_is_a_sum::<P::Scalar, PE::Scalar>(scalars(before), y, terms, plus);
    assert(scalars(after)[e] == after[e / PE::spec_width() as int].lanes()[e % PE::spec_width() as int]);
}

/// An inverse transform over an extension turns values into coefficients: what was element `e` is the
/// sum of the new elements, each times its polynomial of the novel basis at point `e` of the coset.
pub proof fn law_inverse_gives_coefficients_over_extension<P: PackedField, PE: PackedExtensionField<P>>(
    log_domain_size: nat,
    before: Seq<PE>,
    after: Seq<PE>,
    coset: nat,
    result: Result<(), Error>,
    e: int,
    terms: Seq<PE::Scalar>,
    plus: spec_fn(PE::Scalar, PE::Scalar) -> PE::Scalar,
) where PE::Scalar: ExtensionField<P::Scalar>
    requires
        inverse_extension_result::<P, PE>(log_domain_size, before, after, coset, result),
        result is Ok,
        before.len() * PE::spec_width() * <PE::Scalar as ExtensionField<P::Scalar>>::spec_degree()
            >= 2,
        0 <= e < before.len() * PE::spec_width(),
        forall|x: PE::Scalar, y: PE::Scalar| #[trigger] plus(x, y) == x.sum(y),
        terms.len() == after.len() * PE::spec_width(),
        forall|m: int|
            0 <= m < terms.len() ==> #[trigger] terms[m] == ({
                let (q, l) = (m / PE::spec_width() as int, m % PE::spec_width() as int);
                let y = point::<P::Scalar>((coset * terms.len() + e) as nat);
                after[q].lanes()[l].product(
                    <PE::Scalar as ExtensionField<P::Scalar>>::embed(novel_basis(m as nat, y)),
                )
            }),
    ensures
        before[e / PE::spec_width() as int].lanes()[e % PE::spec_width() as int]
            == terms.fold_left(PE::Scalar::spec_zero(), plus),
{
    lemma_base_total::<P, PE>(before.len());
    let y = point::<P::Scalar>((coset * terms.len() + e) as nat);
    lemma_evaluation_over_is_a_sum::<P::Scalar, PE::Scalar>(scalars(after), y, terms, plus);
    assert(scalars(before)[e] == before[e / PE::spec_width() as int].lanes()[e % PE::spec_width() as int]);
}

/// The embedding of the subfield keeps sums, products and one, and multiplication by an embedded
/// element acts on each coefficient.
pub proof fn law_embedding_keeps_the_operations<F: BinaryField, E: ExtensionField<F>>(
    x: F,
    y: F,
    a: E,
    d: int,
)
    requires
        0 <= d < E::spec_degree(),
    ensures
        E::embed(x.sum(y)) == E::embed(x).sum(E::embed(y)),
        E::embed(x.product(y)) == E::embed(x).product(E::embed(y)),
        E::embed(F::spec_one()) == E::spec_one(),
        a.product(E::embed(x)).coefficients()[d] == a.coefficients()[d].product(x),
        a.coefficients().len() == E::spec_degree(),
{
    let one = E::spec_one();
    assert forall|z: F, k: int| 0 <= k < E::spec_degree() implies #[trigger] E::embed(
        z,
    ).coefficients()[k] == one.coefficients()[k].product(z) by {
        E::coefficients_of_scaling(one, z, k);
        E::product_commutes(one, E::embed(z));
        E::product_with_one(E::embed(z));
    }
    let (ex, ey) = (E::embed(x), E::embed(y));
    assert forall|k: int| 0 <= k < E::spec_degree() implies #[trigger] E::embed(
        x.sum(y),
    ).coefficients()[k] == ex.sum(ey).coefficients()[k] by {
        E::coefficients_of_sum(ex, ey, k);
        F::product_distributes(one.coefficients()[k], x, y);
    }
    E::coefficients_determine(E::embed(x.sum(y)), ex.sum(ey));
    assert forall|k: int| 0 <= k < E::spec_degree() implies #[trigger] E::embed(
        x.product(y),
    ).coefficients()[k] == ex.product(ey).coefficients()[k] by {
        E::coefficients_of_scaling(ex, y, k);
        F::product_associates(one.coefficients()[k], x, y);
    }
    E::coefficients_determine(E::embed(x.product(y)), ex.product(ey));
    assert forall|k: int| 0 <= k < E::spec_degree() implies #[trigger] E::embed(
        F::spec_one(),
    ).coefficients()[k] == one.coefficients()[k] by {
        F::product_with_one(one.coefficients()[k]);
    }
    E::coefficients_determine(E::embed(F::spec_one()), one);
    E::coefficients_of_scaling(a, x, d);
    a.coefficients_match_degree();
}

/// A transform over an extension of degree `2^d` is the transform of the coefficients in `2^d`
/// columns: both are refused for the same reason, and where they are accepted, the coefficients of
/// the values are the values of the coefficients.
pub proof fn law_extension_is_a_batch<P: PackedField, PE: PackedExtensionField<P>>(
    log_domain_size: nat,
    before: Seq<PE>,
    after: Seq<PE>,
    base_before: Seq<P>,
    base_after: Seq<P>,
    coset: nat,
    d: nat,
    first: Result<(), Error>,
    second: Result<(), Error>,
) where PE::Scalar: ExtensionField<P::Scalar>
    requires
        <PE::Scalar as ExtensionField<P::Scalar>>::spec_degree() == pow2(d),
        base_before.len() == before.len() * PE::spec_bases(),
        forward_extension_result::<P, PE>(log_domain_size, before, after, coset, first),
        forward_result(log_domain_size, base_before, base_after, coset, d, second),
        scalars(base_before) == coefficient_sequence::<P::Scalar, PE::Scalar>(scalars(before)),
    ensures
        first == second,
        scalars(base_after) == coefficient_sequence::<P::Scalar, PE::Scalar>(scalars(after)),
{
    lemma_log2_of_power(d);
    law_powers_of_two(pow2(d), d);
    lemma_batch_is_extension::<P::Scalar, PE::Scalar>(scalars(before), coset);
}

/// An inverse transform over an extension of degree `2^d` is refused for the same reason as the
/// inverse transform of the coefficients in `2^d` columns.
pub proof fn law_inverse_extension_is_refused_like_a_batch<
    P: PackedField,
    PE: PackedExtensionField<P>,
>(
    log_domain_size: nat,
    before: Seq<PE>,
    after: Seq<PE>,
    base_before: Seq<P>,
    base_after: Seq<P>,
    coset: nat,
    d: nat,
    first: Result<(), Error>,
    second: Result<(), Error>,
) where PE::Scalar: ExtensionField<P::Scalar>
    requires
        <PE::Scalar as ExtensionField<P::Scalar>>::spec_degree() == pow2(d),
        base_before.len() == before.len() * PE::spec_bases(),
        inverse_extension_result::<P, PE>(log_domain_size, before, after, coset, first),
        inverse_result(log_domain_size, base_before, base_after, coset, d, second),
    ensures
        first == second,
{
    lemma_log2_of_power(d);
    law_powers_of_two(pow2(d), d);
}

/// The transforms see as many dimensions as the structs were made for, however the data is packed.
pub proof fn law_domain_is_the_one_asked_for<F: BinaryField, P: PackedField<Scalar = F>>(
    otf: AdditiveNTTWithOTFCompute<F>,
    precomputed: AdditiveNTTWithPrecompute<F>,
)
    ensures
        <AdditiveNTTWithOTFCompute<F> as AdditiveNTT<P>>::domain_dimensions(&otf)
            == otf.log_domain(),
        <AdditiveNTTWithPrecompute<F> as AdditiveNTT<P>>::domain_dimensions(&precomputed)
            == precomputed.log_domain(),
        <AdditiveNTTWithOTFCompute<F> as Stages<F>>::dimensions(&otf) == otf.log_domain(),
        <AdditiveNTTWithPrecompute<F> as Stages<F>>::dimensions(&precomputed)
            == precomputed.log_domain(),
{
}

/// Every number of scalars that a `usize` can count fits, in batches that a `usize` can be shifted by.
pub proof fn law_machine_sized_data_fits(len: nat, width: nat, log_batch: nat)
    requires
        len * width <= usize::MAX,
        log_batch < usize::BITS,
    ensures
        transform_fits(len, width, log_batch),
        batch_fits(len, width, log_batch),
{
    if len == 1 {
        assert(len * width == width) by (nonlinear_arith)
            requires
                len == 1,
        ;
    }
}

/// The same over an extension.
pub proof fn law_machine_sized_data_fits_over_extension<
    P: PackedField,
    PE: PackedExtensionField<P>,
>(len: nat) where PE::Scalar: ExtensionField<P::Scalar>
    requires
        len * PE::spec_width() * <PE::Scalar as ExtensionField<P::Scalar>>::spec_degree()
            <= usize::MAX,
        P::spec_width() > 0,
    ensures
        extension_fits::<P, PE>(len),
{
    lemma_base_total::<P, PE>(len);
    let (count, w) = (len * PE::spec_bases(), P::spec_width());
    assert(count <= count * w) by (nonlinear_arith)
        requires
            w > 0,
    ;
}

/// The size of a table is the sum of the lengths of its rows.
pub proof fn law_table_size_is_a_sum<F>(table: Seq<Vec<F>>, count: spec_fn(nat, Vec<F>) -> nat)
    requires
        forall|n: nat, row: Vec<F>| #[trigger] count(n, row) == n + row@.len(),
    ensures
        total_len(table) == table.fold_left(0, count),
    decreases table.len(),
{
    if table.len() > 0 {
        law_table_size_is_a_sum(table.drop_last(), count);
    }
}

/// Block `k` of derived twiddle factors takes `2^log_block_len` lanes twice: first the initial
/// twiddle factor and the entries that `k` selects, then also the entry behind them. Lanes behind
/// the blocks are zero.
pub proof fn law_derived_twiddle_lanes<P: PackedField>(
    r: P,
    row: Seq<P::Scalar>,
    log_blocks_count: nat,
    log_block_len: nat,
    initial: P::Scalar,
    k: int,
    l: int,
)
    requires
        is_otf_twiddle(r, row, log_blocks_count, log_block_len, initial),
        pow2(log_blocks_count) * (2 * pow2(log_block_len)) <= P::spec_width(),
        0 <= k < pow2(log_blocks_count),
        0 <= l < pow2(log_block_len),
    ensures
        r.lanes()[k * (2 * pow2(log_block_len)) + l] == initial.sum(
            selected_sum(row, log_blocks_count, k as nat),
        ),
        r.lanes()[k * (2 * pow2(log_block_len)) + pow2(log_block_len) + l] == initial.sum(
            selected_sum(row, log_blocks_count, k as nat).sum(row[log_blocks_count as int]),
        ),
        forall|p: int|
            pow2(log_blocks_count) * (2 * pow2(log_block_len)) <= p < P::spec_width()
                ==> #[trigger] r.lanes()[p] == P::Scalar::spec_zero(),
{
    let h = pow2(log_block_len) as int;
    lemma_block_position(k, h, l);
    lemma_block_position(k, h, h + l);
    lemma_block_in_range(k, h, pow2(log_blocks_count) as int);
}

/// A block lies before the end of the last one.
proof fn lemma_block_in_range(k: int, h: int, blocks: int)
    requires
        0 <= k < blocks,
        0 <= h,
    ensures
        0 <= k * (2 * h),
        k * (2 * h) + 2 * h <= blocks * (2 * h),
{
    assert(0 <= k * (2 * h) && k * (2 * h) + 2 * h <= blocks * (2 * h)) by (nonlinear_arith)
        requires
            0 <= k < blocks,
            0 <= h,
    ;
}

/// Block `k` of looked up twiddle factors takes `2^log_block_len` lanes twice: first the entry whose
/// index joins the digits of the initial index and of `k`, then that with the digit
/// `2^log_blocks_count` as well. Lanes behind the blocks are zero.
pub proof fn law_looked_up_twiddle_lanes<P: PackedField>(
    r: P,
    table: Seq<P::Scalar>,
    log_blocks_count: nat,
    log_block_len: nat,
    init: usize,
    k: usize,
    l: int,
)
    requires
        is_precomputed_twiddle(r, table, log_blocks_count, log_block_len, init),
        pow2(log_blocks_count) * (2 * pow2(log_block_len)) <= P::spec_width(),
        k < pow2(log_blocks_count) <= usize::MAX,
        0 <= l < pow2(log_block_len),
    ensures
        r.lanes()[k * (2 * pow2(log_block_len)) + l] == table[(init | k) as int],
        r.lanes()[k * (2 * pow2(log_block_len)) + pow2(log_block_len) + l] == table[(init | (pow2(
            log_blocks_count,
        ) as usize) | k) as int],
        forall|p: int|
            pow2(log_blocks_count) * (2 * pow2(log_block_len)) <= p < P::spec_width()
                ==> #[trigger] r.lanes()[p] == P::Scalar::spec_zero(),
{
    let h = pow2(log_block_len) as int;
    lemma_block_position(k as int, h, l);
    lemma_block_position(k as int, h, h + l);
    lemma_block_in_range(k as int, h, pow2(log_blocks_count) as int);
}

/// Interleaving transposes the 2x2 matrices of blocks: the diagonal blocks stay, and the second
/// block above changes places with the first block below.
pub proof fn law_interleaving_swaps_blocks<F>(a: Seq<F>, b: Seq<F>, h: int, j: int, l: int)
    requires
        0 <= j,
        0 <= l < h,
    ensures
        transposed_upper(a, b, h, j * (2 * h) + l) == a[j * (2 * h) + l],
        transposed_upper(a, b, h, j * (2 * h) + h + l) == b[j * (2 * h) + l],
        transposed_lower(a, b, h, j * (2 * h) + l) == a[j * (2 * h) + h + l],
        transposed_lower(a, b, h, j * (2 * h) + h + l) == b[j * (2 * h) + h + l],
{
    lemma_block_position(j, h, l);
    lemma_block_position(j, h, h + l);
}

/// The scalars of packed data are its lanes, element by element.
pub proof fn law_scalars_are_lanes<P: PackedField>(data: Seq<P>, q: int, l: int)
    requires
        0 <= q < data.len(),
        0 <= l < P::spec_width(),
    ensures
        scalars(data).len() == data.len() * P::spec_width(),
        scalars(data)[q * P::spec_width() + l] == data[q].lanes()[l],
{
    lemma_scalar_position(data, q, l);
}

/// The coefficients of a sequence are those of its elements, element by element.
pub proof fn law_coefficients_in_order<F: BinaryField, E: ExtensionField<F>>(
    x: Seq<E>,
    e: int,
    d: int,
)
    requires
        0 <= e < x.len(),
        0 <= d < E::spec_degree(),
    ensures
        coefficient_sequence::<F, E>(x).len() == x.len() * E::spec_degree(),
        coefficient_sequence::<F, E>(x)[e * E::spec_degree() + d] == x[e].coefficients()[d],
{
    let deg = E::spec_degree() as int;
    let p = e * deg + d;
    lemma_fundamental_div_mod_converse(p, deg, e, d);
    assert(0 <= p < x.len() * deg) by (nonlinear_arith)
        requires
            0 <= e < x.len(),
            0 <= d < deg,
            p == e * deg + d,
    ;
}

/// A packed vector has the lanes of its array, and a field element is its own lane.
pub proof fn law_lanes_are_the_array<F: BinaryField, const W: usize>(v: Packed<F, W>, x: F)
    ensures
        <Packed<F, W> as PackedField>::spec_width() == W,
        v.lanes() == v.scalars@,
        <F as PackedField>::spec_width() == 1,
        <F as PackedField>::lanes(x) == seq![x],
{
}

/// The operations of the field of two elements.
pub proof fn law_field_of_two_elements(a: BinaryField1b, b: BinaryField1b, i: nat)
    ensures
        BinaryField1b::spec_n_bits() == 1,
        !BinaryField1b::spec_zero().bit,
        BinaryField1b::spec_one().bit,
        a.sum(b).bit == (a.bit != b.bit),
        a.product(b).bit == (a.bit && b.bit),
        a.coordinate(i) == (i == 0 && a.bit),
        BinaryField1b::generator() == BinaryField1b::spec_one(),
{
}

/// Each floor of the tower adjoins a root `X` of `X^2 = aX + 1` to the floor below, where `a` is the
/// root that was adjoined last. Every element is `lo + hi * X`, the floor below keeps its
/// operations, and the coordinates of `lo` come before those of `hi`.
pub proof fn law_tower_floor<F: TowerField>(q: Quadratic<F>, a: F, b: F, i: nat)
    ensures
        ({
            let zero = F::spec_zero();
            let x = Quadratic { lo: zero, hi: F::spec_one() };
            let (ea, eb) = (Quadratic { lo: a, hi: zero }, Quadratic { lo: b, hi: zero });
            let (el, eh) = (Quadratic { lo: q.lo, hi: zero }, Quadratic { lo: q.hi, hi: zero });
            let root = Quadratic { lo: F::generator(), hi: zero };
            &&& x.product(x) == root.product(x).sum(Quadratic::<F>::spec_one())
            &&& q == el.sum(eh.product(x))
            &&& ea.sum(eb) == Quadratic { lo: a.sum(b), hi: zero }
            &&& ea.product(eb) == Quadratic { lo: a.product(b), hi: zero }
            &&& Quadratic::<F>::spec_zero() == Quadratic { lo: zero, hi: zero }
            &&& Quadratic::<F>::spec_one() == Quadratic { lo: F::spec_one(), hi: zero }
            &&& Quadratic::<F>::generator() == x
        }),
        Quadratic::<F>::spec_n_bits() == 2 * F::spec_n_bits(),
        i < F::spec_n_bits() ==> q.coordinate(i) == q.lo.coordinate(i),
        i < F::spec_n_bits() ==> q.coordinate(F::spec_n_bits() + i) == q.hi.coordinate(i),
{
    let (zero, one, g) = (F::spec_zero(), F::spec_one(), F::generator());
    lemma_product_with_zero(zero);
    lemma_product_with_zero(one);
    lemma_product_with_zero(g);
    lemma_product_with_zero(a);
    lemma_product_with_zero(b);
    lemma_product_with_zero(q.hi);
    lemma_sum_cancels(zero, zero);
    lemma_sum_cancels(one, zero);
    lemma_sum_cancels(g, zero);
    lemma_sum_cancels(q.lo, zero);
    lemma_sum_cancels(q.hi, zero);
    lemma_sum_cancels(a.product(b), zero);
    F::product_with_one(one);
    F::product_with_one(g);
    F::product_with_one(q.hi);
    F::product_commutes(one, g);
}

/// The coefficients over the floor itself, the floor below and the floor two below.
pub proof fn law_tower_coefficients<F: TowerField>(x: F, q: Quadratic<F>, r: Quadratic<Quadratic<F>>)
    ensures
        <F as ExtensionField<F>>::spec_degree() == 1,
        <F as ExtensionField<F>>::coefficients(x) == seq![x],
        <Quadratic<F> as ExtensionField<F>>::spec_degree() == 2,
        <Quadratic<F> as ExtensionField<F>>::coefficients(q) == seq![q.lo, q.hi],
        <Quadratic<Quadratic<F>> as ExtensionField<F>>::spec_degree() == 4,
        <Quadratic<Quadratic<F>> as ExtensionField<F>>::coefficients(r) == seq![
            r.lo.lo,
            r.lo.hi,
            r.hi.lo,
            r.hi.hi,
        ],
{
}

} // verus!

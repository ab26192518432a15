//! What holds of the transforms as a whole.

use vstd::arithmetic::div_mod::{
    lemma_basic_div, lemma_div_by_multiple, lemma_div_denominator, lemma_div_of0,
    lemma_fundamental_div_mod, lemma_fundamental_div_mod_converse,
};
use vstd::arithmetic::power2::{
    lemma2_to64, lemma_pow2_adds, lemma_pow2_pos, lemma_pow2_unfold, pow2,
};
use vstd::prelude::*;

use crate::additive_ntt::{
    extension_error, extension_fits, forward_extension_result, inverse_extension_result,
};
use crate::bits::{
    bit, is_power_of_two, lemma_log2_of_power, lemma_power_monotone, lemma_small_exponent, log2,
};
use crate::error::Error;
use crate::extension::{
    coefficient_sequence, extension_values, lemma_batch_is_extension, lemma_same_coefficients,
    ExtensionField, PackedExtensionField,
};
use crate::field::{
    group_coordinates, lemma_distributes_right, lemma_no_zero_divisors, lemma_product_with_zero,
    lemma_same, lemma_sum_cancels, BinaryField,
};
use crate::novel::{
    column, descend, evaluate, lagrange_values, lemma_network_evaluates, lemma_stage_inverts,
    novel_basis, stage, stage_offset,
};
use crate::on_the_fly::is_otf_twiddle;
use crate::packed::{lemma_lane_of_scalar, lemma_scalars_determine, scalars, PackedField};
use crate::params::{batch_params, lemma_consistent, lemma_scalar_count};
use crate::precomputed::{
    indices_in_table, is_precomputed_twiddle, lemma_aligned_in_table, lemma_aligned_index,
};
use crate::subspace::{
    combination, lemma_normalized_in_span, lemma_normalizer_nonzero, lemma_root_in_span,
    normalized, point, select, selected_sum, vanishing,
};
use crate::transform::{
    forward_result, inverse_result, is_trivial, lemma_scalars_of_scalars, lemma_whole_blocks,
    transform_error, transform_fits,
};

verus! {

/// The butterfly network loses nothing.
proof fn lemma_descend_injective<F: BinaryField>(
    s: nat,
    log_n: nat,
    log_batch: nat,
    coset: nat,
    x: Seq<F>,
    y: Seq<F>,
)
    requires
        s <= log_n,
        x.len() == pow2(log_n) * pow2(log_batch),
        y.len() == x.len(),
        descend(s, log_n, log_batch, coset, x) == descend(s, log_n, log_batch, coset, y),
    ensures
        x == y,
    decreases s,
{
    if s > 0 {
        let i = (s - 1) as nat;
        let offset = stage_offset(log_n, coset, i);
        lemma_whole_blocks(log_n, log_batch, i);
        lemma_descend_injective(
            i,
            log_n,
            log_batch,
            coset,
            stage(true, i, log_batch, offset, x),
            stage(true, i, log_batch, offset, y),
        );
        lemma_stage_inverts(true, i, log_batch, offset, x);
        lemma_stage_inverts(true, i, log_batch, offset, y);
    }
}

/// The butterfly network reaches everything.
proof fn lemma_descend_surjective<F: BinaryField>(
    s: nat,
    log_n: nat,
    log_batch: nat,
    coset: nat,
    values: Seq<F>,
) -> (x: Seq<F>)
    requires
        s <= log_n,
        values.len() == pow2(log_n) * pow2(log_batch),
    ensures
        x.len() == values.len(),
        descend(s, log_n, log_batch, coset, x) == values,
    decreases s,
{
    if s > 0 {
        let i = (s - 1) as nat;
        let offset = stage_offset(log_n, coset, i);
        lemma_whole_blocks(log_n, log_batch, i);
        let y = lemma_descend_surjective(i, log_n, log_batch, coset, values);
        lemma_stage_inverts(false, i, log_batch, offset, y);
        stage(false, i, log_batch, offset, y)
    } else {
        values
    }
}

/// A batch of polynomials is determined by its values on any coset.
pub proof fn law_interpolation_is_unique<F: BinaryField>(
    log_n: nat,
    log_batch: nat,
    coset: nat,
    x: Seq<F>,
    y: Seq<F>,
)
    requires
        log_n <= F::spec_n_bits(),
        x.len() == pow2(log_n) * pow2(log_batch),
        y.len() == x.len(),
        lagrange_values(x, log_batch, coset) == lagrange_values(y, log_batch, coset),
    ensures
        x == y,
{
    lemma_network_evaluates(log_n, log_batch, coset, x);
    lemma_network_evaluates(log_n, log_batch, coset, y);
    lemma_descend_injective(log_n, log_n, log_batch, coset, x, y);
}

/// Whatever values are prescribed on a coset, some batch of polynomials takes them.
pub proof fn law_interpolation_exists<F: BinaryField>(
    log_n: nat,
    log_batch: nat,
    coset: nat,
    values: Seq<F>,
)
    requires
        log_n <= F::spec_n_bits(),
        values.len() == pow2(log_n) * pow2(log_batch),
    ensures
        exists|x: Seq<F>|
            x.len() == values.len() && #[trigger] lagrange_values(x, log_batch, coset) == values,
{
    let x = lemma_descend_surjective(log_n, log_n, log_batch, coset, values);
    lemma_network_evaluates(log_n, log_batch, coset, x);
    assert(lagrange_values(x, log_batch, coset) == values);
}

/// Two batches with the same values on a coset are the same, for every shape of data that the
/// transforms accept.
proof fn lemma_accepted_is_unique<P: PackedField>(
    log_domain_size: nat,
    a: Seq<P>,
    b: Seq<P>,
    coset: u32,
    log_batch: nat,
)
    requires
        log_domain_size <= P::Scalar::spec_n_bits(),
        transform_fits(a.len(), P::spec_width(), log_batch),
        transform_error(log_domain_size, a.len(), P::spec_width(), coset as nat, log_batch) is None,
        !is_trivial(a.len(), P::spec_width()),
        a.len() == b.len(),
        lagrange_values(scalars(a), log_batch, coset as nat) == lagrange_values(
            scalars(b),
            log_batch,
            coset as nat,
        ),
    ensures
        a == b,
{
    let (len, width) = if a.len() == 1 {
        (P::spec_width(), 1nat)
    } else {
        (a.len(), P::spec_width())
    };
    lemma_consistent(log_domain_size, len, width, coset, log_batch);
    let log_n = batch_params(len, width, coset as nat, log_batch).log_n as nat;
    assert(scalars(a).len() == len * width) by {
        if a.len() == 1 {
            vstd::arithmetic::mul::lemma_mul_basics(P::spec_width() as int);
        }
    }
    law_interpolation_is_unique(log_n, log_batch, coset as nat, scalars(a), scalars(b));
    lemma_scalars_determine(a, b);
}

/// An inverse transform undoes a forward transform on the same coset.
pub proof fn law_inverse_undoes_forward<P: PackedField>(
    log_domain_size: nat,
    a: Seq<P>,
    b: Seq<P>,
    c: Seq<P>,
    coset: u32,
    log_batch: nat,
    first: Result<(), Error>,
    second: Result<(), Error>,
)
    requires
        log_domain_size <= P::Scalar::spec_n_bits(),
        transform_fits(a.len(), P::spec_width(), log_batch),
        forward_result(log_domain_size, a, b, coset as nat, log_batch, first),
        inverse_result(log_domain_size, b, c, coset as nat, log_batch, second),
    ensures
        second == first,
        c == a,
{
    if first is Ok && !is_trivial(a.len(), P::spec_width()) {
        lemma_accepted_is_unique(log_domain_size, c, a, coset, log_batch);
    }
}

/// A forward transform undoes an inverse transform on the same coset.
pub proof fn law_forward_undoes_inverse<P: PackedField>(
    log_domain_size: nat,
    a: Seq<P>,
    b: Seq<P>,
    c: Seq<P>,
    coset: u32,
    log_batch: nat,
    first: Result<(), Error>,
    second: Result<(), Error>,
)
    requires
        log_domain_size <= P::Scalar::spec_n_bits(),
        transform_fits(a.len(), P::spec_width(), log_batch),
        inverse_result(log_domain_size, a, b, coset as nat, log_batch, first),
        forward_result(log_domain_size, b, c, coset as nat, log_batch, second),
    ensures
        second == first,
        c == a,
{
    if first is Ok && !is_trivial(a.len(), P::spec_width()) {
        lemma_scalars_determine(c, a);
    }
}

/// Forward transforms of the same data agree, whichever transform runs them, and the size of the
/// domain does not matter as long as both accept the arguments.
pub proof fn law_forward_transforms_agree<P: PackedField>(
    first_domain: nat,
    second_domain: nat,
    a: Seq<P>,
    b: Seq<P>,
    c: Seq<P>,
    coset: u32,
    log_batch: nat,
    first: Result<(), Error>,
    second: Result<(), Error>,
)
    requires
        forward_result(first_domain, a, b, coset as nat, log_batch, first),
        forward_result(second_domain, a, c, coset as nat, log_batch, second),
    ensures
        first_domain == second_domain ==> first == second && b == c,
        first is Ok && second is Ok ==> b == c,
{
    if first is Ok && second is Ok {
        if !is_trivial(a.len(), P::spec_width()) {
            lemma_scalars_determine(b, c);
        }
    }
}

/// Inverse transforms of the same data agree, whichever transform runs them, and the size of the
/// domain does not matter as long as both accept the arguments.
pub proof fn law_inverse_transforms_agree<P: PackedField>(
    first_domain: nat,
    second_domain: nat,
    a: Seq<P>,
    b: Seq<P>,
    c: Seq<P>,
    coset: u32,
    log_batch: nat,
    first: Result<(), Error>,
    second: Result<(), Error>,
)
    requires
        first_domain <= P::Scalar::spec_n_bits(),
        transform_fits(a.len(), P::spec_width(), log_batch),
        inverse_result(first_domain, a, b, coset as nat, log_batch, first),
        inverse_result(second_domain, a, c, coset as nat, log_batch, second),
    ensures
        first_domain == second_domain ==> first == second && b == c,
        first is Ok && second is Ok ==> b == c,
{
    if first is Ok && second is Ok {
        if !is_trivial(a.len(), P::spec_width()) {
            lemma_accepted_is_unique(first_domain, b, c, coset, log_batch);
        }
    }
}

/// Packing does not matter: where a forward transform of packed data is accepted, so is a forward
/// transform of the scalars, and it does the same to them. Where the number of lanes is a power of
/// two, both return the same in any case, errors included.
pub proof fn law_forward_ignores_packing<P: PackedField>(
    log_domain_size: nat,
    a: Seq<P>,
    b: Seq<P>,
    y: Seq<P::Scalar>,
    coset: u32,
    log_batch: nat,
    first: Result<(), Error>,
    second: Result<(), Error>,
)
    requires
        forward_result(log_domain_size, a, b, coset as nat, log_batch, first),
        forward_result::<P::Scalar>(
            log_domain_size,
            scalars(a),
            y,
            coset as nat,
            log_batch,
            second,
        ),
    ensures
        first is Ok ==> second is Ok && y == scalars(b),
        is_power_of_two(P::spec_width()) ==> second == first && y == scalars(b),
{
    lemma_scalars_of_scalars(scalars(a));
    lemma_scalars_of_scalars(y);
    lemma_trivial_ignores_packing(a);
    lemma_error_of_scalars(log_domain_size, a, coset as nat, log_batch);
}

/// Packing does not matter to an inverse transform either: where an inverse transform of packed data
/// is accepted, so is one of the scalars, and it does the same to them. Where the number of lanes is
/// a power of two, both return the same in any case, errors included.
pub proof fn law_inverse_ignores_packing<P: PackedField>(
    log_domain_size: nat,
    a: Seq<P>,
    b: Seq<P>,
    y: Seq<P::Scalar>,
    coset: u32,
    log_batch: nat,
    first: Result<(), Error>,
    second: Result<(), Error>,
)
    requires
        log_domain_size <= P::Scalar::spec_n_bits(),
        transform_fits(a.len(), P::spec_width(), log_batch),
        inverse_result(log_domain_size, a, b, coset as nat, log_batch, first),
        inverse_result::<P::Scalar>(
            log_domain_size,
            scalars(a),
            y,
            coset as nat,
            log_batch,
            second,
        ),
    ensures
        first is Ok ==> second is Ok && y == scalars(b),
        is_power_of_two(P::spec_width()) ==> second == first && y == scalars(b),
{
    lemma_scalars_of_scalars(scalars(a));
    lemma_scalars_of_scalars(scalars(b));
    lemma_scalars_of_scalars(y);
    lemma_trivial_ignores_packing(a);
    lemma_error_of_scalars(log_domain_size, a, coset as nat, log_batch);
    assert(<P::Scalar as PackedField>::spec_width() == 1);
    if first is Ok && !is_trivial(a.len(), P::spec_width()) {
        lemma_accepted_is_unique::<P::Scalar>(log_domain_size, y, scalars(b), coset, log_batch);
    }
}

/// Whether there is at most one scalar does not depend on the packing.
proof fn lemma_trivial_ignores_packing<P: PackedField>(a: Seq<P>)
    ensures
        is_trivial(a.len(), P::spec_width()) ==> is_trivial(scalars(a).len(), 1),
        is_trivial(scalars(a).len(), 1) && P::spec_width() > 0 ==> is_trivial(
            a.len(),
            P::spec_width(),
        ),
{
    let (len, w) = (a.len(), P::spec_width());
    assert(len == 0 ==> len * w == 0) by (nonlinear_arith);
    assert(len == 1 ==> len * w == w) by (nonlinear_arith);
    assert(len >= 2 && w > 0 ==> len * w >= 2) by (nonlinear_arith);
}

/// The scalars of accepted data are accepted, and what is wrong with packed data is wrong with its
/// scalars.
proof fn lemma_error_of_scalars<P: PackedField>(
    log_domain_size: nat,
    a: Seq<P>,
    coset: nat,
    log_batch: nat,
)
    ensures
        ({
            let packed = transform_error(log_domain_size, a.len(), P::spec_width(), coset, log_batch);
            let unpacked = transform_error(log_domain_size, scalars(a).len(), 1, coset, log_batch);
            &&& packed is None ==> unpacked is None
            &&& is_power_of_two(P::spec_width()) ==> packed == unpacked
            &&& packed is None && transform_fits(a.len(), P::spec_width(), log_batch)
                ==> transform_fits(scalars(a).len(), 1, log_batch)
        }),
{
    let (len, w) = (a.len(), P::spec_width());
    lemma_trivial_ignores_packing(a);
    lemma2_to64();
    lemma_log2_of_power(0);
    if !is_trivial(len, w) {
        if len == 1 {
            assert(len * w == w) by (nonlinear_arith)
                requires
                    len == 1,
            ;
        } else {
            assert(len * w * 1 == len * w);
            if is_power_of_two(len) && is_power_of_two(w) {
                lemma_scalar_count(len, w);
            } else if is_power_of_two(len * w) && is_power_of_two(w) {
                lemma_power_factor(len, w);
            }
        }
    }
}

/// What makes a power of two a power of two by multiplication is one itself.
proof fn lemma_power_factor(len: nat, w: nat)
    requires
        is_power_of_two(len * w),
        is_power_of_two(w),
    ensures
        is_power_of_two(len),
{
    let (t, e) = (log2(len * w), log2(w));
    assert(len >= 1) by (nonlinear_arith)
        requires
            len * w > 0,
    ;
    assert(len * w >= w) by (nonlinear_arith)
        requires
            len >= 1,
    ;
    if t < e {
        vstd::arithmetic::power2::lemma_pow2_strictly_increases(t, e);
    }
    let d = (t - e) as nat;
    lemma_pow2_adds(d, e);
    assert(len == pow2(d)) by (nonlinear_arith)
        requires
            len * w == pow2(d) * w,
            w > 0,
    ;
    lemma_log2_of_power(d);
}

/// Two polynomials over an extension with the same values on a coset are the same, for every shape
/// of data that the transforms accept.
proof fn lemma_accepted_extension_is_unique<P: PackedField, PE: PackedExtensionField<P>>(
    log_domain_size: nat,
    a: Seq<PE>,
    b: Seq<PE>,
    coset: u32,
) where PE::Scalar: ExtensionField<P::Scalar>
    requires
        log_domain_size <= P::Scalar::spec_n_bits(),
        extension_fits::<P, PE>(a.len()),
        extension_error::<P, PE>(log_domain_size, a.len(), coset as nat) is None,
        !is_trivial(a.len() * PE::spec_bases(), P::spec_width()),
        a.len() == b.len(),
        extension_values::<P::Scalar, PE::Scalar>(scalars(a), coset as nat) == extension_values::<
            P::Scalar,
            PE::Scalar,
        >(scalars(b), coset as nat),
    ensures
        a == b,
{
    let degree = <PE::Scalar as ExtensionField<P::Scalar>>::spec_degree();
    let log_batch = log2(degree);
    let flat_a = coefficient_sequence::<P::Scalar, PE::Scalar>(scalars(a));
    let flat_b = coefficient_sequence::<P::Scalar, PE::Scalar>(scalars(b));
    let count = a.len() * PE::spec_bases();
    PE::bases_match_lanes();
    let (l, n, w) = (a.len() as int, PE::spec_bases() as int, P::spec_width() as int);
    let (we, g) = (PE::spec_width() as int, degree as int);
    assert((l * n) * w == l * we * g) by (nonlinear_arith)
        requires
            n * w == we * g,
    ;
    assert(l >= 1) by (nonlinear_arith)
        requires
            l * n > 0,
            l >= 0,
            n >= 0,
    ;
    assert(we >= 1) by (nonlinear_arith)
        requires
            we * g == n * w,
            n >= 1,
            w >= 1,
            we >= 0,
    ;
    assert(pow2(log_batch) <= usize::MAX) by {
        assert(g <= l * we * g) by (nonlinear_arith)
            requires
                l >= 1,
                we >= 1,
                g >= 0,
        ;
    }
    lemma_small_exponent(log_batch);
    let (len, width) = if count == 1 {
        (P::spec_width(), 1nat)
    } else {
        (count, P::spec_width())
    };
    assert(flat_a.len() == len * width) by {
        if count == 1 {
            vstd::arithmetic::mul::lemma_mul_basics(P::spec_width() as int);
        }
    }
    lemma_consistent(log_domain_size, len, width, coset, log_batch);
    let log_n = batch_params(len, width, coset as nat, log_batch).log_n as nat;
    lemma_batch_is_extension::<P::Scalar, PE::Scalar>(scalars(a), coset as nat);
    lemma_batch_is_extension::<P::Scalar, PE::Scalar>(scalars(b), coset as nat);
    law_interpolation_is_unique(log_n, log_batch, coset as nat, flat_a, flat_b);
    lemma_same_coefficients::<P::Scalar, PE::Scalar>(scalars(a), scalars(b));
    lemma_scalars_determine(a, b);
}

/// Over an extension field too, an inverse transform undoes a forward transform.
pub proof fn law_inverse_undoes_forward_over_extension<
    P: PackedField,
    PE: PackedExtensionField<P>,
>(
    log_domain_size: nat,
    a: Seq<PE>,
    b: Seq<PE>,
    c: Seq<PE>,
    coset: u32,
    first: Result<(), Error>,
    second: Result<(), Error>,
) where PE::Scalar: ExtensionField<P::Scalar>
    requires
        first is Ok ==> log_domain_size <= P::Scalar::spec_n_bits(),
        extension_fits::<P, PE>(a.len()),
        forward_extension_result::<P, PE>(log_domain_size, a, b, coset as nat, first),
        inverse_extension_result::<P, PE>(log_domain_size, b, c, coset as nat, second),
    ensures
        second == first,
        c == a,
{
    if first is Ok && !is_trivial(a.len() * PE::spec_bases(), P::spec_width()) {
        lemma_accepted_extension_is_unique::<P, PE>(log_domain_size, c, a, coset);
    }
}

/// Over an extension field too, a forward transform undoes an inverse transform.
pub proof fn law_forward_undoes_inverse_over_extension<
    P: PackedField,
    PE: PackedExtensionField<P>,
>(
    log_domain_size: nat,
    a: Seq<PE>,
    b: Seq<PE>,
    c: Seq<PE>,
    coset: u32,
    first: Result<(), Error>,
    second: Result<(), Error>,
) where PE::Scalar: ExtensionField<P::Scalar>
    requires
        first is Ok ==> log_domain_size <= P::Scalar::spec_n_bits(),
        extension_fits::<P, PE>(a.len()),
        inverse_extension_result::<P, PE>(log_domain_size, a, b, coset as nat, first),
        forward_extension_result::<P, PE>(log_domain_size, b, c, coset as nat, second),
    ensures
        second == first,
        c == a,
{
    if first is Ok && !is_trivial(a.len() * PE::spec_bases(), P::spec_width()) {
        lemma_scalars_determine(c, a);
    }
}

/// Forward transforms of the same data over an extension field agree, whichever transform runs
/// them, and the size of the domain does not matter as long as both accept the arguments.
pub proof fn law_forward_transforms_agree_over_extension<
    P: PackedField,
    PE: PackedExtensionField<P>,
>(
    first_domain: nat,
    second_domain: nat,
    a: Seq<PE>,
    b: Seq<PE>,
    c: Seq<PE>,
    coset: u32,
    first: Result<(), Error>,
    second: Result<(), Error>,
) where PE::Scalar: ExtensionField<P::Scalar>
    requires
        forward_extension_result::<P, PE>(first_domain, a, b, coset as nat, first),
        forward_extension_result::<P, PE>(second_domain, a, c, coset as nat, second),
    ensures
        first_domain == second_domain ==> first == second && b == c,
        first is Ok && second is Ok ==> b == c,
{
    if first is Ok && second is Ok && !is_trivial(a.len() * PE::spec_bases(), P::spec_width()) {
        lemma_scalars_determine(b, c);
    }
}

/// Inverse transforms of the same data over an extension field agree, whichever transform runs
/// them, and the size of the domain does not matter as long as both accept the arguments.
pub proof fn law_inverse_transforms_agree_over_extension<
    P: PackedField,
    PE: PackedExtensionField<P>,
>(
    first_domain: nat,
    second_domain: nat,
    a: Seq<PE>,
    b: Seq<PE>,
    c: Seq<PE>,
    coset: u32,
    first: Result<(), Error>,
    second: Result<(), Error>,
) where PE::Scalar: ExtensionField<P::Scalar>
    requires
        first is Ok ==> first_domain <= P::Scalar::spec_n_bits(),
        extension_fits::<P, PE>(a.len()),
        inverse_extension_result::<P, PE>(first_domain, a, b, coset as nat, first),
        inverse_extension_result::<P, PE>(second_domain, a, c, coset as nat, second),
    ensures
        first_domain == second_domain ==> first == second && b == c,
        first is Ok && second is Ok ==> b == c,
{
    if first is Ok && second is Ok && !is_trivial(a.len() * PE::spec_bases(), P::spec_width()) {
        lemma_accepted_extension_is_unique::<P, PE>(first_domain, b, c, coset);
    }
}

/// The columns of a batch are transformed independently of each other.
pub proof fn law_columns_are_independent<F: BinaryField>(
    n: nat,
    log_batch: nat,
    coset: nat,
    x: Seq<F>,
    c: nat,
)
    requires
        x.len() == n * pow2(log_batch),
        c < pow2(log_batch),
    ensures
        column(lagrange_values(x, log_batch, coset), pow2(log_batch), c) == lagrange_values(
            column(x, pow2(log_batch), c),
            0,
            coset,
        ),
{
    let columns = pow2(log_batch);
    lemma2_to64();
    lemma_div_by_multiple(n as int, columns as int);
    let col = column(x, columns, c);
    let left = column(lagrange_values(x, log_batch, coset), columns, c);
    let right = lagrange_values(col, 0, coset);
    assert(col.len() == n);
    assert forall|m: int| 0 <= m < n implies left[m] == right[m] by {
        let p = m * columns + c;
        lemma_fundamental_div_mod_converse(p, columns as int, m, c as int);
        assert(0 <= p < x.len()) by (nonlinear_arith)
            requires
                0 <= m < n,
                0 <= c < columns,
                p == m * columns + c,
                x.len() == n * columns,
        ;
        assert(column(col, 1, 0) =~= col);
    }
    assert(left =~= right);
}

/// Evaluation is additive in the coefficients.
proof fn lemma_evaluate_additive<F: BinaryField>(a: Seq<F>, b: Seq<F>, sum: Seq<F>, y: F)
    requires
        a.len() == b.len(),
        sum.len() == a.len(),
        forall|m: int| 0 <= m < a.len() ==> #[trigger] sum[m] == a[m].sum(b[m]),
    ensures
        evaluate(sum, y) == evaluate(a, y).sum(evaluate(b, y)),
    decreases a.len(),
{
    broadcast use group_coordinates;

    if a.len() == 0 {
        lemma_sum_cancels(F::spec_zero(), F::spec_zero());
    } else {
        lemma_evaluate_additive(a.drop_last(), b.drop_last(), sum.drop_last(), y);
        let f = novel_basis((a.len() - 1) as nat, y);
        assert(sum.last() == sum[a.len() - 1]);
        lemma_distributes_right(a.last(), b.last(), f);
        let (ea, eb) = (evaluate(a.drop_last(), y), evaluate(b.drop_last(), y));
        let (ta, tb) = (a.last().product(f), b.last().product(f));
        lemma_same(ea.sum(eb).sum(ta.sum(tb)), ea.sum(ta).sum(eb.sum(tb)));
    }
}

/// Evaluation scales with the coefficients.
proof fn lemma_evaluate_scales<F: BinaryField>(a: Seq<F>, scaled: Seq<F>, s: F, y: F)
    requires
        scaled.len() == a.len(),
        forall|m: int| 0 <= m < a.len() ==> #[trigger] scaled[m] == s.product(a[m]),
    ensures
        evaluate(scaled, y) == s.product(evaluate(a, y)),
    decreases a.len(),
{
    if a.len() == 0 {
        lemma_product_with_zero(s);
    } else {
        lemma_evaluate_scales(a.drop_last(), scaled.drop_last(), s, y);
        let f = novel_basis((a.len() - 1) as nat, y);
        assert(scaled.last() == scaled[a.len() - 1]);
        F::product_associates(s, a.last(), f);
        F::product_distributes(s, evaluate(a.drop_last(), y), a.last().product(f));
    }
}

/// The transform is additive.
pub proof fn law_transform_is_additive<F: BinaryField>(
    log_batch: nat,
    coset: nat,
    a: Seq<F>,
    b: Seq<F>,
    sum: Seq<F>,
)
    requires
        a.len() == b.len(),
        sum.len() == a.len(),
        forall|p: int| 0 <= p < a.len() ==> #[trigger] sum[p] == a[p].sum(b[p]),
    ensures
        forall|p: int|
            0 <= p < a.len() ==> #[trigger] lagrange_values(sum, log_batch, coset)[p]
                == lagrange_values(a, log_batch, coset)[p].sum(
                lagrange_values(b, log_batch, coset)[p],
            ),
{
    let columns = pow2(log_batch);
    let n = a.len() / columns;
    lemma_pow2_pos(log_batch);
    assert forall|p: int| 0 <= p < a.len() implies #[trigger] lagrange_values(
        sum,
        log_batch,
        coset,
    )[p] == lagrange_values(a, log_batch, coset)[p].sum(
        lagrange_values(b, log_batch, coset)[p],
    ) by {
        let c = p as nat % columns;
        let y = point::<F>(coset * n + p as nat / columns);
        let (ca, cb, cs) = (
            column(a, columns, c),
            column(b, columns, c),
            column(sum, columns, c),
        );
        assert forall|m: int| 0 <= m < n implies #[trigger] cs[m] == ca[m].sum(cb[m]) by {
            lemma_entry_in_range(a.len(), columns, m, c as int);
            assert(sum[m * columns + c] == a[m * columns + c].sum(b[m * columns + c]));
        }
        lemma_evaluate_additive(ca, cb, cs, y);
    }
}

/// The transform is linear over the field.
pub proof fn law_transform_scales<F: BinaryField>(
    log_batch: nat,
    coset: nat,
    a: Seq<F>,
    scaled: Seq<F>,
    s: F,
)
    requires
        scaled.len() == a.len(),
        forall|p: int| 0 <= p < a.len() ==> #[trigger] scaled[p] == s.product(a[p]),
    ensures
        forall|p: int|
            0 <= p < a.len() ==> #[trigger] lagrange_values(scaled, log_batch, coset)[p]
                == s.product(lagrange_values(a, log_batch, coset)[p]),
{
    let columns = pow2(log_batch);
    let n = a.len() / columns;
    lemma_pow2_pos(log_batch);
    assert forall|p: int| 0 <= p < a.len() implies #[trigger] lagrange_values(
        scaled,
        log_batch,
        coset,
    )[p] == s.product(lagrange_values(a, log_batch, coset)[p]) by {
        let c = p as nat % columns;
        let y = point::<F>(coset * n + p as nat / columns);
        let (ca, cs) = (column(a, columns, c), column(scaled, columns, c));
        assert forall|m: int| 0 <= m < n implies #[trigger] cs[m] == s.product(ca[m]) by {
            lemma_entry_in_range(a.len(), columns, m, c as int);
            assert(scaled[m * columns + c] == s.product(a[m * columns + c]));
        }
        lemma_evaluate_scales(ca, cs, s, y);
    }
}

/// An entry of a whole row lies within the data.
pub proof fn lemma_entry_in_range(len: nat, columns: nat, m: int, c: int)
    requires
        0 < columns,
        0 <= m < len / columns,
        0 <= c < columns,
    ensures
        0 <= m * columns + c < len,
{
    lemma_fundamental_div_mod(len as int, columns as int);
    let n = len as int / columns as int;
    assert(0 <= m * columns + c < len) by (nonlinear_arith)
        requires
            0 <= m < n,
            0 <= c < columns,
            len == columns * n + len as int % columns as int,
            0 <= len as int % columns as int,
    ;
}

/// The coordinates of a sum of basis vectors are the digits of its index.
pub proof fn lemma_coordinates_of_combination<F: BinaryField>(lo: nat, len: nat, t: nat, i: nat)
    requires
        t < pow2(len),
        lo + len <= F::spec_n_bits(),
    ensures
        combination::<F>(lo, t).coordinate(i) == (i >= lo && bit(t, (i - lo) as nat)),
    decreases len,
{
    broadcast use group_coordinates;

    lemma2_to64();
    if t == 0 {
        if i >= lo {
            lemma_pow2_pos((i - lo) as nat);
            lemma_div_of0(pow2((i - lo) as nat) as int);
        }
    } else {
        lemma_pow2_unfold(len);
        lemma_coordinates_of_combination::<F>(lo + 1, (len - 1) as nat, t / 2, i);
        F::coordinate_of_basis(lo, i);
        let head = select(t % 2 == 1, F::spec_basis(lo));
        let rest = combination::<F>(lo + 1, t / 2);
        assert(combination::<F>(lo, t) == head.sum(rest));
        assert(head.coordinate(i) == (i == lo && t % 2 == 1));
        vstd::arithmetic::div_mod::lemma_div_basics_2(t as int);
        assert(bit(t, 0) == (t % 2 == 1));
        if i > lo {
            let k = (i - lo - 1) as nat;
            lemma_pow2_unfold(k + 1);
            lemma_pow2_pos(k);
            lemma_div_denominator(t as int, 2, pow2(k) as int);
            assert((t / 2) / pow2(k) == t / pow2(k + 1));
        }
    }
}

/// A number is determined by its binary digits.
proof fn lemma_bits_determine(a: nat, b: nat, len: nat)
    requires
        a < pow2(len),
        b < pow2(len),
        forall|i: nat| i < len ==> bit(a, i) == bit(b, i),
    ensures
        a == b,
    decreases len,
{
    lemma2_to64();
    if len > 0 {
        lemma_pow2_unfold(len);
        assert(bit(a, 0) == bit(b, 0));
        let (c, d) = (a / 2, b / 2);
        assert forall|i: nat| i < len - 1 implies bit(c, i) == bit(d, i) by {
            assert(bit(a, i + 1) == bit(b, i + 1));
            lemma_pow2_unfold(i + 1);
            lemma_pow2_pos(i);
            lemma_div_denominator(a as int, 2, pow2(i) as int);
            lemma_div_denominator(b as int, 2, pow2(i) as int);
        }
        lemma_bits_determine(c, d, (len - 1) as nat);
    }
}

/// The points of the domain are distinct.
pub proof fn law_points_are_distinct<F: BinaryField>(s: nat, t: nat)
    requires
        s < pow2(F::spec_n_bits()),
        t < pow2(F::spec_n_bits()),
        s != t,
    ensures
        point::<F>(s) != point::<F>(t),
{
    let len = F::spec_n_bits();
    if point::<F>(s) == point::<F>(t) {
        assert forall|i: nat| i < len implies bit(s, i) == bit(t, i) by {
            lemma_coordinates_of_combination::<F>(0, len, s, i);
            lemma_coordinates_of_combination::<F>(0, len, t, i);
        }
        lemma_bits_determine(s, t, len);
    }
}

/// The `i`-th subspace polynomial vanishes at the first `2^i` points of the domain and nowhere else.
pub proof fn law_subspace_polynomial_roots<F: BinaryField>(i: nat, t: nat)
    requires
        i < F::spec_n_bits(),
        t < pow2(F::spec_n_bits()),
    ensures
        (vanishing(i, point::<F>(t)) == F::spec_zero()) == (t < pow2(i)),
        (normalized(i, point::<F>(t)) == F::spec_zero()) == (t < pow2(i)),
{
    let len = F::spec_n_bits();
    let x = point::<F>(t);
    let norm = vanishing(i, F::spec_basis(i));
    lemma_normalizer_nonzero::<F>(i);
    F::product_with_inverse(norm);
    if norm.inverse() == F::spec_zero() {
        lemma_product_with_zero(norm);
        F::product_with_one(norm);
    }
    if t < pow2(i) {
        lemma_normalized_in_span::<F>(i, 0, t);
        lemma_no_zero_divisors(vanishing(i, x), norm.inverse());
    } else {
        if normalized(i, x) == F::spec_zero() {
            lemma_no_zero_divisors(vanishing(i, x), norm.inverse());
        }
        lemma_product_with_zero(norm.inverse());
        if vanishing(i, x) == F::spec_zero() {
            let low = t % pow2(i);
            lemma_pow2_pos(i);
            lemma_power_monotone(i, len);
            lemma_fundamental_div_mod(t as int, pow2(i) as int);
            vstd::arithmetic::div_mod::lemma_mod_decreases(t, pow2(i));
            assert forall|j: nat| j < len implies bit(t, j) == bit(low, j) by {
                lemma_coordinates_of_combination::<F>(0, len, t, j);
                lemma_low_digits(t, i, j);
                if j >= i {
                    lemma_root_in_span(i, x, j);
                }
            }
            lemma_bits_determine(t, low, len);
        }
    }
}

/// The digits of a remainder.
proof fn lemma_low_digits(t: nat, i: nat, j: nat)
    ensures
        bit(t % pow2(i), j) == (j < i && bit(t, j)),
{
    lemma_pow2_pos(i);
    lemma_pow2_pos(j);
    let low = t % pow2(i);
    if j >= i {
        lemma_power_monotone(i, j);
        lemma_basic_div(low as int, pow2(j) as int);
    } else {
        let d = (i - j) as nat;
        lemma_pow2_adds(j, d);
        lemma_pow2_unfold(d);
        lemma_pow2_pos((d - 1) as nat);
        lemma_fundamental_div_mod(t as int, pow2(i) as int);
        lemma_fundamental_div_mod(low as int, pow2(j) as int);
        let (q, m, r) = (t / pow2(i), low / pow2(j), low % pow2(j));
        let half = pow2((d - 1) as nat);
        assert(t == (2 * (half * q) + m) * pow2(j) + r) by (nonlinear_arith)
            requires
                t == pow2(i) * q + low,
                low == pow2(j) * m + r,
                pow2(i) == pow2(j) * (2 * half),
        ;
        lemma_fundamental_div_mod_converse(
            t as int,
            pow2(j) as int,
            (2 * (half * q) + m) as int,
            r as int,
        );
    }
}

/// The digits from the `s`-th on do not depend on those below.
proof fn lemma_high_digits(high: nat, low: nat, s: nat, j: nat)
    requires
        high as int % pow2(s) as int == 0,
        low < pow2(s),
        s <= j,
    ensures
        bit(high + low, j) == bit(high, j),
{
    let d = (j - s) as nat;
    lemma_pow2_pos(s);
    lemma_pow2_pos(d);
    lemma_pow2_adds(s, d);
    let q = high as int / pow2(s) as int;
    lemma_fundamental_div_mod(high as int, pow2(s) as int);
    vstd::arithmetic::mul::lemma_mul_is_commutative(q, pow2(s) as int);
    lemma_fundamental_div_mod_converse((high + low) as int, pow2(s) as int, q, low as int);
    lemma_div_denominator(high as int, pow2(s) as int, pow2(d) as int);
    lemma_div_denominator((high + low) as int, pow2(s) as int, pow2(d) as int);
}

/// A selected sum depends only on the digits that it looks at.
proof fn lemma_selected_sum_by_digits<F: BinaryField>(values: Seq<F>, n: nat, x: nat, y: nat)
    requires
        forall|j: nat| j < n ==> bit(x, j) == bit(y, j),
    ensures
        selected_sum(values, n, x) == selected_sum(values, n, y),
    decreases n,
{
    if n > 0 {
        lemma_selected_sum_by_digits(values, (n - 1) as nat, x, y);
        assert(bit(x, (n - 1) as nat) == bit(y, (n - 1) as nat));
    }
}

/// Nothing is selected by zero.
proof fn lemma_selected_sum_of_zero<F: BinaryField>(values: Seq<F>, n: nat)
    ensures
        selected_sum(values, n, 0) == F::spec_zero(),
    decreases n,
{
    if n > 0 {
        let top = (n - 1) as nat;
        lemma_selected_sum_of_zero(values, top);
        lemma_pow2_pos(top);
        lemma_div_of0(pow2(top) as int);
        lemma_sum_cancels(F::spec_zero(), F::spec_zero());
    }
}

/// The digits of an index can be summed in two parts.
proof fn lemma_selected_sum_splits<F: BinaryField>(
    values: Seq<F>,
    n: nat,
    s: nat,
    high: nat,
    low: nat,
)
    requires
        s <= n,
        high as int % pow2(s) as int == 0,
        low < pow2(s),
    ensures
        selected_sum(values, n, high + low) == selected_sum(values, n, high).sum(
            selected_sum(values, s, low),
        ),
    decreases n,
{
    broadcast use group_coordinates;

    let part = selected_sum(values, s, low);
    if n == s {
        lemma_pow2_pos(s);
        let q = high as int / pow2(s) as int;
        lemma_fundamental_div_mod(high as int, pow2(s) as int);
        vstd::arithmetic::mul::lemma_mul_is_commutative(q, pow2(s) as int);
        lemma_fundamental_div_mod_converse((high + low) as int, pow2(s) as int, q, low as int);
        assert forall|j: nat| j < s implies bit(high + low, j) == bit(low, j) && bit(high, j)
            == bit(0, j) by {
            lemma_low_digits(high + low, s, j);
            lemma_low_digits(high, s, j);
        }
        lemma_selected_sum_by_digits(values, s, high + low, low);
        lemma_selected_sum_by_digits(values, s, high, 0);
        lemma_selected_sum_of_zero(values, s);
        lemma_sum_cancels(part, F::spec_zero());
    } else {
        let top = (n - 1) as nat;
        lemma_selected_sum_splits(values, top, s, high, low);
        lemma_high_digits(high, low, s, top);
        let rest = selected_sum(values, top, high);
        let head = select(bit(high, top), values[top as int]);
        lemma_same(rest.sum(part).sum(head), rest.sum(head).sum(part));
    }
}

/// Both ways to come by the twiddle factors of an interleaved pair agree.
///
/// Where entry `m` of a table is the sum of those entries of a row that the digits of `m` select, an
/// aligned index reaches all of its blocks within the table, and the vector looked up there is the
/// vector derived from the row and the table's entry at that index.
pub proof fn law_twiddle_vectors_agree<P: PackedField>(
    row: Seq<P::Scalar>,
    table: Seq<P::Scalar>,
    log_blocks_count: nat,
    log_block_len: nat,
    init: usize,
    looked_up: P,
    derived: P,
)
    requires
        log_blocks_count < row.len(),
        table.len() == pow2(row.len()),
        table.len() <= usize::MAX,
        forall|m: int|
            0 <= m < table.len() ==> #[trigger] table[m] == selected_sum(
                row,
                row.len(),
                m as nat,
            ),
        init as int % (2 * pow2(log_blocks_count)) as int == 0,
        init < table.len(),
        is_precomputed_twiddle(looked_up, table, log_blocks_count, log_block_len, init),
        is_otf_twiddle(derived, row, log_blocks_count, log_block_len, table[init as int]),
    ensures
        indices_in_table(table.len(), log_blocks_count, init),
        forall|l: int|
            0 <= l < P::spec_width() ==> #[trigger] looked_up.lanes()[l] == derived.lanes()[l],
        looked_up == derived,
{
    let (c, n) = (log_blocks_count, row.len());
    let h = pow2(log_block_len) as int;
    let blocks = pow2(c);
    lemma_small_exponent(n);
    lemma_pow2_pos(c);
    lemma_pow2_pos(log_block_len);
    lemma_pow2_unfold(c + 1);
    lemma_aligned_in_table(n, c, init);
    assert forall|l: int| 0 <= l < P::spec_width() implies #[trigger] looked_up.lanes()[l]
        == derived.lanes()[l] by {
        if l < blocks * (2 * h) {
            lemma_lane_of_scalar(blocks as int, 2 * h, l);
            let k = l / (2 * h);
            lemma_aligned_index(init, c, k as usize);
            let first = k as nat;
            let second = (blocks + k) as nat;
            // The digit between those of the block and those of the index tells the two apart.
            lemma_basic_div(k, blocks as int);
            lemma_sum_cancels(selected_sum(row, c, first), P::Scalar::spec_zero());
            lemma_selected_sum_splits(row, n, c + 1, init as nat, first);
            lemma_fundamental_div_mod_converse(second as int, blocks as int, 1, k);
            assert forall|j: nat| j < c implies bit(second, j) == bit(first, j) by {
                lemma_low_digits(second, c, j);
            }
            lemma_selected_sum_by_digits(row, c, second, first);
            lemma_selected_sum_splits(row, n, c + 1, init as nat, second);
        }
    }
    looked_up.lanes_match_width();
    derived.lanes_match_width();
    assert(looked_up.lanes() =~= derived.lanes());
    P::lanes_determine(looked_up, derived);
}

/// Zeros behind the coefficients do not change a polynomial.
proof fn lemma_evaluate_padded<F: BinaryField>(a: Seq<F>, padded: Seq<F>, y: F)
    requires
        a.len() <= padded.len(),
        forall|m: int| 0 <= m < a.len() ==> #[trigger] padded[m] == a[m],
        forall|m: int| a.len() <= m < padded.len() ==> #[trigger] padded[m] == F::spec_zero(),
    ensures
        evaluate(padded, y) == evaluate(a, y),
    decreases padded.len(),
{
    if a.len() == padded.len() {
        assert(a =~= padded);
    } else {
        lemma_evaluate_padded(a, padded.drop_last(), y);
        assert(padded.last() == padded[padded.len() - 1]);
        lemma_product_with_zero(novel_basis((padded.len() - 1) as nat, y));
        lemma_sum_cancels(evaluate(a, y), F::spec_zero());
    }
}

/// Cosets tile the domain: with as many zeros behind the coefficients, the transform on a coset
/// gives the values on two consecutive cosets of half the size.
pub proof fn law_cosets_tile_the_domain<F: BinaryField>(
    n: nat,
    log_batch: nat,
    coset: nat,
    x: Seq<F>,
)
    requires
        x.len() == n * pow2(log_batch),
    ensures
        lagrange_values(
            x + Seq::new(x.len(), |p: int| F::spec_zero()),
            log_batch,
            coset,
        ) == lagrange_values(x, log_batch, 2 * coset) + lagrange_values(
            x,
            log_batch,
            2 * coset + 1,
        ),
{
    let columns = pow2(log_batch);
    lemma_pow2_pos(log_batch);
    let padded = x + Seq::new(x.len(), |p: int| F::spec_zero());
    let left = lagrange_values(padded, log_batch, coset);
    let (low, high) = (
        lagrange_values(x, log_batch, 2 * coset),
        lagrange_values(x, log_batch, 2 * coset + 1),
    );
    lemma_div_by_multiple(n as int, columns as int);
    assert(padded.len() == (2 * n) * columns) by (nonlinear_arith)
        requires
            padded.len() == 2 * x.len(),
            x.len() == n * columns,
    ;
    lemma_div_by_multiple((2 * n) as int, columns as int);
    assert forall|p: int| 0 <= p < padded.len() implies left[p] == (low + high)[p] by {
        lemma_lane_of_scalar((2 * n) as int, columns as int, p);
        let r = p / columns as int;
        let c = p % columns as int;
        let y = point::<F>((coset * (2 * n) + r) as nat);
        let (small, large) = (column(x, columns, c as nat), column(padded, columns, c as nat));
        assert forall|m: int| 0 <= m < n implies #[trigger] large[m] == small[m] by {
            lemma_entry_in_range(x.len(), columns, m, c);
        }
        assert forall|m: int| n <= m < 2 * n implies #[trigger] large[m] == F::spec_zero() by {
            lemma_entry_in_range(padded.len(), columns, m, c);
            assert(m * columns + c >= x.len()) by (nonlinear_arith)
                requires
                    m >= n,
                    c >= 0,
                    x.len() == n * columns,
            ;
        }
        lemma_evaluate_padded(small, large, y);
        if r < n {
            assert(p < x.len()) by (nonlinear_arith)
                requires
                    p == r * columns + c,
                    r + 1 <= n,
                    c < columns,
                    x.len() == n * columns,
            ;
            assert(coset * (2 * n) + r == (2 * coset) * n + r) by (nonlinear_arith);
        } else {
            let q = p - x.len();
            assert(q == (r - n) * columns + c) by (nonlinear_arith)
                requires
                    p == r * columns + c,
                    x.len() == n * columns,
                    q == p - x.len(),
            ;
            lemma_fundamental_div_mod_converse(q, columns as int, r - n, c);
            assert(coset * (2 * n) + r == (2 * coset + 1) * n + (r - n)) by (nonlinear_arith);
        }
    }
    assert(left =~= low + high);
}

} // verus!

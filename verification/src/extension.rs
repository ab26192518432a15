//! Extensions of binary fields, and packed vectors of their elements.

use vstd::arithmetic::div_mod::lemma_fundamental_div_mod_converse;
use vstd::prelude::*;

use crate::bits::{is_power_of_two, log2};
use crate::field::{lemma_product_with_zero, lemma_sum_cancels, BinaryField};
use crate::novel::{column, evaluate, lagrange_values, novel_basis};
use crate::packed::{lemma_lane_of_scalar, pack_scalars, scalars, unpack_scalars, PackedField};
use crate::subspace::point;
use crate::tower::{Quadratic, TowerField};

verus! {

/// A field that is a vector space over a subfield `F`.
pub trait ExtensionField<F: BinaryField>: BinaryField {
    /// The dimension over the subfield.
    spec fn spec_degree() -> nat;

    /// The coefficients in a basis over the subfield.
    spec fn coefficients(self) -> Seq<F>;

    /// The element of the subfield as an element of this field.
    spec fn embed(x: F) -> Self;

    /// There are as many coefficients as dimensions.
    proof fn coefficients_match_degree(self)
        ensures
            self.coefficients().len() == Self::spec_degree(),
            Self::spec_degree() > 0,
    ;

    /// Zero has zero coefficients.
    proof fn coefficients_of_zero(d: int)
        requires
            0 <= d < Self::spec_degree(),
        ensures
            Self::spec_zero().coefficients()[d] == F::spec_zero(),
    ;

    /// Coefficients add.
    proof fn coefficients_of_sum(a: Self, b: Self, d: int)
        requires
            0 <= d < Self::spec_degree(),
        ensures
            a.sum(b).coefficients()[d] == a.coefficients()[d].sum(b.coefficients()[d]),
    ;

    /// Coefficients scale with elements of the subfield.
    proof fn coefficients_of_scaling(a: Self, x: F, d: int)
        requires
            0 <= d < Self::spec_degree(),
        ensures
            a.product(Self::embed(x)).coefficients()[d] == a.coefficients()[d].product(x),
    ;

    /// An element is determined by its coefficients.
    proof fn coefficients_determine(a: Self, b: Self)
        requires
            forall|d: int|
                0 <= d < Self::spec_degree() ==> #[trigger] a.coefficients()[d]
                    == b.coefficients()[d],
        ensures
            a == b,
    ;

    /// The dimension over the subfield.
    fn degree() -> (r: usize)
        ensures
            r == Self::spec_degree(),
    ;

    /// The `d`-th coefficient.
    fn coefficient(self, d: usize) -> (r: F)
        requires
            d < Self::spec_degree(),
        ensures
            r == self.coefficients()[d as int],
    ;

    /// The element with the given coefficients.
    fn from_coefficients(values: &[F]) -> (r: Self)
        requires
            values@.len() == Self::spec_degree(),
        ensures
            r.coefficients() == values@,
    ;
}

/// Every field is an extension of itself.
impl<F: BinaryField> ExtensionField<F> for F {
    open spec fn spec_degree() -> nat {
        1
    }

    open spec fn coefficients(self) -> Seq<F> {
        seq![self]
    }

    open spec fn embed(x: F) -> Self {
        x
    }

    proof fn coefficients_match_degree(self) {
    }

    proof fn coefficients_of_zero(d: int) {
    }

    proof fn coefficients_of_sum(a: Self, b: Self, d: int) {
    }

    proof fn coefficients_of_scaling(a: Self, x: F, d: int) {
    }

    proof fn coefficients_determine(a: Self, b: Self) {
        assert(<F as ExtensionField<F>>::coefficients(a)[0] == <F as ExtensionField<F>>::coefficients(b)[0]);
    }

    fn degree() -> (r: usize) {
        1
    }

    fn coefficient(self, d: usize) -> (r: F) {
        self
    }

    fn from_coefficients(values: &[F]) -> (r: Self) {
        assert(values@ =~= seq![values@[0]]);
        values[0]
    }
}

/// The embedding of a floor of the tower into the next.
pub open spec fn raise<F: TowerField>(x: F) -> Quadratic<F> {
    Quadratic { lo: x, hi: F::spec_zero() }
}

/// Multiplication by an element of the floor below acts on both coefficients.
proof fn lemma_product_with_raised<F: TowerField>(a: Quadratic<F>, x: F)
    ensures
        a.product(raise(x)).lo == a.lo.product(x),
        a.product(raise(x)).hi == a.hi.product(x),
{
    let zero = F::spec_zero();
    lemma_product_with_zero(a.lo);
    lemma_product_with_zero(a.hi);
    lemma_product_with_zero(F::generator());
    lemma_sum_cancels(a.lo.product(x), zero);
    lemma_sum_cancels(a.hi.product(x), zero);
}

/// Each floor of the tower is an extension of the one below.
impl<F: TowerField> ExtensionField<F> for Quadratic<F> {
    open spec fn spec_degree() -> nat {
        2
    }

    open spec fn coefficients(self) -> Seq<F> {
        seq![self.lo, self.hi]
    }

    open spec fn embed(x: F) -> Self {
        raise(x)
    }

    proof fn coefficients_match_degree(self) {
    }

    proof fn coefficients_of_zero(d: int) {
    }

    proof fn coefficients_of_sum(a: Self, b: Self, d: int) {
    }

    proof fn coefficients_of_scaling(a: Self, x: F, d: int) {
        lemma_product_with_raised(a, x);
    }

    proof fn coefficients_determine(a: Self, b: Self) {
        assert(<Self as ExtensionField<F>>::coefficients(a)[0] == <Self as ExtensionField<F>>::coefficients(b)[0]);
        assert(<Self as ExtensionField<F>>::coefficients(a)[1] == <Self as ExtensionField<F>>::coefficients(b)[1]);
    }

    fn degree() -> (r: usize) {
        2
    }

    fn coefficient(self, d: usize) -> (r: F) {
        if d == 0 {
            self.lo
        } else {
            self.hi
        }
    }

    fn from_coefficients(values: &[F]) -> (r: Self) {
        assert(values@ =~= seq![values@[0], values@[1]]);
        Quadratic { lo: values[0], hi: values[1] }
    }
}

/// Each floor of the tower is an extension of the one two floors below.
impl<F: TowerField> ExtensionField<F> for Quadratic<Quadratic<F>> {
    open spec fn spec_degree() -> nat {
        4
    }

    open spec fn coefficients(self) -> Seq<F> {
        seq![self.lo.lo, self.lo.hi, self.hi.lo, self.hi.hi]
    }

    open spec fn embed(x: F) -> Self {
        raise(raise(x))
    }

    proof fn coefficients_match_degree(self) {
    }

    proof fn coefficients_of_zero(d: int) {
    }

    proof fn coefficients_of_sum(a: Self, b: Self, d: int) {
    }

    proof fn coefficients_of_scaling(a: Self, x: F, d: int) {
        lemma_product_with_raised(a, raise(x));
        lemma_product_with_raised(a.lo, x);
        lemma_product_with_raised(a.hi, x);
    }

    proof fn coefficients_determine(a: Self, b: Self) {
        assert(<Self as ExtensionField<F>>::coefficients(a)[0] == <Self as ExtensionField<F>>::coefficients(b)[0]);
        assert(<Self as ExtensionField<F>>::coefficients(a)[1] == <Self as ExtensionField<F>>::coefficients(b)[1]);
        assert(<Self as ExtensionField<F>>::coefficients(a)[2] == <Self as ExtensionField<F>>::coefficients(b)[2]);
        assert(<Self as ExtensionField<F>>::coefficients(a)[3] == <Self as ExtensionField<F>>::coefficients(b)[3]);
    }

    fn degree() -> (r: usize) {
        4
    }

    fn coefficient(self, d: usize) -> (r: F) {
        if d == 0 {
            self.lo.lo
        } else if d == 1 {
            self.lo.hi
        } else if d == 2 {
            self.hi.lo
        } else {
            self.hi.hi
        }
    }

    fn from_coefficients(values: &[F]) -> (r: Self) {
        assert(values@ =~= seq![values@[0], values@[1], values@[2], values@[3]]);
        Quadratic {
            lo: Quadratic { lo: values[0], hi: values[1] },
            hi: Quadratic { lo: values[2], hi: values[3] },
        }
    }
}

/// A packed vector whose elements can be taken apart into whole packed vectors over a subfield.
pub trait PackedExtensionField<P: PackedField>: PackedField where
    Self::Scalar: ExtensionField<P::Scalar>,
 {
    /// The number of packed vectors over the subfield in one packed vector.
    spec fn spec_bases() -> nat;

    /// The lanes over the subfield are the coefficients of the lanes.
    proof fn bases_match_lanes()
        ensures
            Self::spec_bases() * P::spec_width() == Self::spec_width() * <Self::Scalar as ExtensionField<P::Scalar>>::spec_degree(),
            Self::spec_bases() > 0,
    ;

    /// The number of packed vectors over the subfield in one packed vector.
    fn bases() -> (r: usize)
        ensures
            r == Self::spec_bases(),
    ;
}

/// Every packed vector is one over its own field.
impl<P: PackedField> PackedExtensionField<P> for P {
    open spec fn spec_bases() -> nat {
        1
    }

    proof fn bases_match_lanes() {
        let degree = <P::Scalar as ExtensionField<P::Scalar>>::spec_degree();
        let width = P::spec_width();
        assert(1 * width == width * degree) by (nonlinear_arith)
            requires
                degree == 1,
        ;
    }

    fn bases() -> (r: usize) {
        1
    }
}

/// An element of the tower is a pair of elements of the floor below.
impl<F: TowerField> PackedExtensionField<F> for Quadratic<F> {
    open spec fn spec_bases() -> nat {
        2
    }

    proof fn bases_match_lanes() {
        assert(<F as PackedField>::spec_width() == 1);
        assert(<Quadratic<F> as PackedField>::spec_width() == 1);
        assert(<Quadratic<F> as ExtensionField<F>>::spec_degree() == 2);
    }

    fn bases() -> (r: usize) {
        2
    }
}

/// An element of the tower is four elements of the floor two below.
impl<F: TowerField> PackedExtensionField<F> for Quadratic<Quadratic<F>> {
    open spec fn spec_bases() -> nat {
        4
    }

    proof fn bases_match_lanes() {
        assert(<F as PackedField>::spec_width() == 1);
        assert(<Quadratic<Quadratic<F>> as PackedField>::spec_width() == 1);
        assert(<Quadratic<Quadratic<F>> as ExtensionField<F>>::spec_degree() == 4);
    }

    fn bases() -> (r: usize) {
        4
    }
}

/// The coefficients over the subfield of all scalars of packed vectors, in order.
pub open spec fn base_scalars<P: PackedField, PE: PackedExtensionField<P>>(data: Seq<PE>) -> Seq<
    P::Scalar,
> where PE::Scalar: ExtensionField<P::Scalar> {
    coefficient_sequence::<P::Scalar, PE::Scalar>(scalars(data))
}

/// The coefficients over the subfield of a sequence of elements, in order.
pub open spec fn coefficient_sequence<F: BinaryField, E: ExtensionField<F>>(x: Seq<E>) -> Seq<F> {
    Seq::new(
        x.len() * E::spec_degree(),
        |p: int| x[p / E::spec_degree() as int].coefficients()[p % E::spec_degree() as int],
    )
}

/// Where coefficient `d` of element `e` lies.
proof fn lemma_coefficient_position<F: BinaryField, E: ExtensionField<F>>(x: Seq<E>, e: int, d: int)
    requires
        0 <= e < x.len(),
        0 <= d < E::spec_degree(),
    ensures
        ({
            let p = e * E::spec_degree() + d;
            &&& 0 <= p < x.len() * E::spec_degree()
            &&& p / E::spec_degree() as int == e
            &&& p % E::spec_degree() as int == d
            &&& coefficient_sequence::<F, E>(x)[p] == x[e].coefficients()[d]
        }),
{
    let deg = E::spec_degree() as int;
    let p = e * deg + d;
    lemma_fundamental_div_mod_converse(p, deg, e, d);
    assert(0 <= p < x.len() * deg) by (nonlinear_arith)
        requires
            0 <= e < x.len(),
            0 <= d < deg,
            p == e * deg + d,
    ;
}

/// Takes packed vectors apart into packed vectors over the subfield.
pub fn cast_to_bases<P: PackedField, PE: PackedExtensionField<P>>(data: &[PE]) -> (r: Vec<P>) where
    PE::Scalar: ExtensionField<P::Scalar>,

    requires
        data@.len() * PE::spec_width() * <PE::Scalar as ExtensionField<P::Scalar>>::spec_degree()
            <= usize::MAX,
        data@.len() * PE::spec_bases() <= usize::MAX,
    ensures
        r@.len() == data@.len() * PE::spec_bases(),
        scalars(r@) == base_scalars::<P, PE>(data@),
{
    let degree = <PE::Scalar as ExtensionField<P::Scalar>>::degree();
    let ghost count = (data@.len() * PE::spec_width()) as int;
    proof {
        PE::Scalar::spec_zero().coefficients_match_degree();
        assert(count <= count * degree) by (nonlinear_arith)
            requires
                degree >= 1,
                count >= 0,
        ;
    }
    let elements = unpack_scalars(data);
    let mut values: Vec<P::Scalar> = Vec::new();
    let mut e: usize = 0;
    while e < elements.len()
        invariant
            e <= elements@.len(),
            degree == <PE::Scalar as ExtensionField<P::Scalar>>::spec_degree(),
            elements@ == scalars(data@),
            values@.len() == e * degree,
            forall|p: int|
                0 <= p < values@.len() ==> #[trigger] values@[p] == base_scalars::<P, PE>(
                    data@,
                )[p],
        decreases elements.len() - e,
    {
        let mut d: usize = 0;
        while d < degree
            invariant
                e < elements@.len(),
                d <= degree,
                degree == <PE::Scalar as ExtensionField<P::Scalar>>::spec_degree(),
                elements@ == scalars(data@),
                values@.len() == e * degree + d,
                forall|p: int|
                    0 <= p < values@.len() ==> #[trigger] values@[p] == base_scalars::<P, PE>(
                        data@,
                    )[p],
            decreases degree - d,
        {
            proof {
                lemma_coefficient_position::<P::Scalar, PE::Scalar>(
                    elements@,
                    e as int,
                    d as int,
                );
            }
            values.push(elements[e].coefficient(d));
            d = d + 1;
        }
        assert(e * degree + degree == (e + 1) * degree) by (nonlinear_arith);
        e = e + 1;
    }
    assert(values@ =~= base_scalars::<P, PE>(data@));
    let bases = PE::bases();
    let mut r: Vec<P> = Vec::new();
    let mut q: usize = 0;
    let len = data.len() * bases;
    while q < len
        invariant
            q <= len,
            r@.len() == q,
        decreases len - q,
    {
        r.push(P::zeros());
        q = q + 1;
    }
    proof {
        PE::bases_match_lanes();
        let (l, b, w) = (data@.len() as int, PE::spec_bases() as int, P::spec_width() as int);
        let (we, g) = (PE::spec_width() as int, degree as int);
        assert((l * b) * w == l * we * g) by (nonlinear_arith)
            requires
                b * w == we * g,
        ;
    }
    pack_scalars(r.as_mut_slice(), values.as_slice());
    r
}

/// Puts packed vectors over the subfield back together.
pub fn cast_from_bases<P: PackedField, PE: PackedExtensionField<P>>(data: &mut [PE], bases: &[P])
where
    PE::Scalar: ExtensionField<P::Scalar>,

    requires
        old(data)@.len() * PE::spec_width() * <PE::Scalar as ExtensionField<P::Scalar>>::spec_degree()
            <= usize::MAX,
        bases@.len() == old(data)@.len() * PE::spec_bases(),
    ensures
        final(data)@.len() == old(data)@.len(),
        base_scalars::<P, PE>(final(data)@) == scalars(bases@),
{
    let degree = <PE::Scalar as ExtensionField<P::Scalar>>::degree();
    let len = data.len();
    let width = PE::width();
    let ghost count = (len * width) as int;
    proof {
        PE::Scalar::spec_zero().coefficients_match_degree();
        assert(count <= count * degree) by (nonlinear_arith)
            requires
                degree >= 1,
                count >= 0,
        ;
        PE::bases_match_lanes();
        let (l, b, w) = (len as int, PE::spec_bases() as int, P::spec_width() as int);
        let (we, g) = (width as int, degree as int);
        assert((l * b) * w == l * we * g) by (nonlinear_arith)
            requires
                b * w == we * g,
        ;
    }
    let values = unpack_scalars(bases);
    let mut elements: Vec<PE::Scalar> = Vec::new();
    let mut e: usize = 0;
    let total = len * width;
    while e < total
        invariant
            e <= total,
            degree == <PE::Scalar as ExtensionField<P::Scalar>>::spec_degree(),
            values@.len() == total * degree,
            total * degree <= usize::MAX,
            elements@.len() == e,
            forall|k: int, d: int|
                0 <= k < e && 0 <= d < degree ==> #[trigger] elements@[k].coefficients()[d]
                    == values@[k * degree + d],
        decreases total - e,
    {
        assert(e * degree + degree <= total * degree) by (nonlinear_arith)
            requires
                e + 1 <= total,
        ;
        let start = e * degree;
        let part = vstd::slice::slice_subrange(values.as_slice(), start, start + degree);
        elements.push(<PE::Scalar as ExtensionField<P::Scalar>>::from_coefficients(part));
        e = e + 1;
    }
    pack_scalars(data, elements.as_slice());
    proof {
        let y = coefficient_sequence::<P::Scalar, PE::Scalar>(elements@);
        assert forall|p: int| 0 <= p < values@.len() implies y[p] == values@[p] by {
            lemma_lane_of_scalar(total as int, degree as int, p);
        }
        assert(y =~= values@);
    }
}

/// The value at a point of the subfield of a polynomial with coefficients in the extension.
pub open spec fn evaluate_over<F: BinaryField, E: ExtensionField<F>>(coeffs: Seq<E>, y: F) -> E
    decreases coeffs.len(),
{
    if coeffs.len() == 0 {
        E::spec_zero()
    } else {
        evaluate_over(coeffs.drop_last(), y).sum(
            coeffs.last().product(E::embed(novel_basis((coeffs.len() - 1) as nat, y))),
        )
    }
}

/// The values on a coset of a polynomial whose coefficients in the novel basis lie in an extension
/// of the field of the points.
pub open spec fn extension_values<F: BinaryField, E: ExtensionField<F>>(
    x: Seq<E>,
    coset: nat,
) -> Seq<E> {
    Seq::new(x.len(), |e: int| evaluate_over(x, point::<F>((coset * x.len() + e) as nat)))
}

/// Evaluation over the extension acts on each coefficient separately.
proof fn lemma_evaluate_over<F: BinaryField, E: ExtensionField<F>>(x: Seq<E>, y: F, d: int)
    requires
        0 <= d < E::spec_degree(),
    ensures
        evaluate_over::<F, E>(x, y).coefficients()[d] == evaluate(
            Seq::new(x.len(), |m: int| x[m].coefficients()[d]),
            y,
        ),
    decreases x.len(),
{
    let part = Seq::new(x.len(), |m: int| x[m].coefficients()[d]);
    if x.len() == 0 {
        E::coefficients_of_zero(d);
    } else {
        let rest = x.drop_last();
        lemma_evaluate_over::<F, E>(rest, y, d);
        assert(part.drop_last() =~= Seq::new(rest.len(), |m: int| rest[m].coefficients()[d]));
        let factor = novel_basis((x.len() - 1) as nat, y);
        E::coefficients_of_scaling(x.last(), factor, d);
        E::coefficients_of_sum(
            evaluate_over::<F, E>(rest, y),
            x.last().product(E::embed(factor)),
            d,
        );
    }
}

/// A batch of the coefficients' polynomials takes the values of the polynomial over the extension.
pub proof fn lemma_batch_is_extension<F: BinaryField, E: ExtensionField<F>>(x: Seq<E>, coset: nat)
    requires
        is_power_of_two(E::spec_degree()),
    ensures
        lagrange_values(
            coefficient_sequence::<F, E>(x),
            log2(E::spec_degree()),
            coset,
        ) == coefficient_sequence::<F, E>(extension_values::<F, E>(x, coset)),
{
    let deg = E::spec_degree();
    let flat = coefficient_sequence::<F, E>(x);
    let left = lagrange_values(flat, log2(deg), coset);
    let ext = extension_values::<F, E>(x, coset);
    let right = coefficient_sequence::<F, E>(ext);
    vstd::arithmetic::div_mod::lemma_div_by_multiple(x.len() as int, deg as int);
    assert(flat.len() / deg == x.len());
    assert forall|p: int| 0 <= p < flat.len() implies left[p] == right[p] by {
        lemma_lane_of_scalar(x.len() as int, deg as int, p);
        let e = p / deg as int;
        let d = p % deg as int;
        let y = point::<F>((coset * x.len() + e) as nat);
        lemma_evaluate_over::<F, E>(x, y, d);
        let part = Seq::new(x.len(), |m: int| x[m].coefficients()[d]);
        let col = column(flat, deg, d as nat);
        assert forall|m: int| 0 <= m < x.len() implies col[m] == part[m] by {
            lemma_coefficient_position::<F, E>(x, m, d);
        }
        assert(col =~= part);
    }
    assert(left =~= right);
}

/// Elements with the same coefficients are equal.
pub proof fn lemma_same_coefficients<F: BinaryField, E: ExtensionField<F>>(x: Seq<E>, y: Seq<E>)
    requires
        x.len() == y.len(),
        coefficient_sequence::<F, E>(x) == coefficient_sequence::<F, E>(y),
    ensures
        x == y,
{
    assert forall|e: int| 0 <= e < x.len() implies x[e] == y[e] by {
        assert forall|d: int| 0 <= d < E::spec_degree() implies #[trigger] x[e].coefficients()[d]
            == y[e].coefficients()[d] by {
            lemma_coefficient_position::<F, E>(x, e, d);
            lemma_coefficient_position::<F, E>(y, e, d);
        }
        E::coefficients_determine(x[e], y[e]);
    }
    assert(x =~= y);
}

} // verus!

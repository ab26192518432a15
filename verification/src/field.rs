//! Finite fields of characteristic two, and the algebra that follows from their laws.

use vstd::prelude::*;

verus! {

/// A finite field of characteristic two with a distinguished basis over the field of two elements.
///
/// The `spec` methods are the mathematical operations, the `proof` methods are the laws that they
/// obey, and the executable methods compute them.
pub trait BinaryField: Sized + Copy {
    /// The additive identity.
    spec fn spec_zero() -> Self;

    /// The multiplicative identity.
    spec fn spec_one() -> Self;

    /// The field's addition.
    spec fn sum(self, other: Self) -> Self;

    /// The field's multiplication.
    spec fn product(self, other: Self) -> Self;

    /// The multiplicative inverse of a nonzero element.
    spec fn inverse(self) -> Self;

    /// The degree over the field of two elements.
    spec fn spec_n_bits() -> nat;

    /// The `i`-th vector of the distinguished basis, for `i` below the degree.
    spec fn spec_basis(i: nat) -> Self;

    /// Whether the `i`-th basis vector occurs in the expansion of the element.
    spec fn coordinate(self, i: nat) -> bool;

    /// Coordinates add without carry.
    proof fn coordinate_of_sum(a: Self, b: Self, i: nat)
        ensures
            a.sum(b).coordinate(i) == (a.coordinate(i) != b.coordinate(i)),
    ;

    /// Zero has no coordinate.
    proof fn coordinate_of_zero(i: nat)
        ensures
            !Self::spec_zero().coordinate(i),
    ;

    /// A basis vector has its own coordinate and no other.
    proof fn coordinate_of_basis(i: nat, j: nat)
        requires
            i < Self::spec_n_bits(),
        ensures
            Self::spec_basis(i).coordinate(j) == (i == j),
    ;

    /// An element is determined by its coordinates.
    proof fn coordinates_determine(a: Self, b: Self)
        requires
            forall|i: nat| i < Self::spec_n_bits() ==> a.coordinate(i) == b.coordinate(i),
        ensures
            a == b,
    ;

    /// The first basis vector is one.
    proof fn basis_starts_with_one()
        ensures
            Self::spec_n_bits() > 0,
            Self::spec_basis(0) == Self::spec_one(),
    ;

    /// Multiplication commutes.
    proof fn product_commutes(a: Self, b: Self)
        ensures
            a.product(b) == b.product(a),
    ;

    /// Multiplication is associative.
    proof fn product_associates(a: Self, b: Self, c: Self)
        ensures
            a.product(b).product(c) == a.product(b.product(c)),
    ;

    /// Multiplication distributes over addition.
    proof fn product_distributes(a: Self, b: Self, c: Self)
        ensures
            a.product(b.sum(c)) == a.product(b).sum(a.product(c)),
    ;

    /// One is neutral for multiplication.
    proof fn product_with_one(a: Self)
        ensures
            a.product(Self::spec_one()) == a,
    ;

    /// A nonzero element times its inverse is one.
    proof fn product_with_inverse(a: Self)
        requires
            a != Self::spec_zero(),
        ensures
            a.product(a.inverse()) == Self::spec_one(),
    ;

    /// The degree over the field of two elements, or the largest `usize` if it is smaller.
    fn n_bits() -> (r: usize)
        ensures
            r == if Self::spec_n_bits() <= usize::MAX {
                Self::spec_n_bits()
            } else {
                usize::MAX as nat
            },
    ;

    /// The additive identity.
    fn zero() -> (r: Self)
        ensures
            r == Self::spec_zero(),
    ;

    /// The multiplicative identity.
    fn one() -> (r: Self)
        ensures
            r == Self::spec_one(),
    ;

    /// Whether the element is the additive identity.
    fn is_zero(self) -> (r: bool)
        ensures
            r == (self == Self::spec_zero()),
    ;

    /// The sum of two elements.
    fn add(self, other: Self) -> (r: Self)
        ensures
            r == self.sum(other),
    ;

    /// The product of two elements.
    fn mul(self, other: Self) -> (r: Self)
        ensures
            r == self.product(other),
    ;

    /// The square of an element.
    fn square(self) -> (r: Self)
        ensures
            r == self.product(self),
    ;

    /// The multiplicative inverse; `None` for zero.
    fn invert(self) -> (r: Option<Self>)
        ensures
            r is None <==> self == Self::spec_zero(),
            r matches Some(x) ==> x == self.inverse(),
    ;

    /// The `i`-th basis vector; `None` from the degree on.
    fn basis(i: usize) -> (r: Option<Self>)
        ensures
            r is None <==> i >= Self::spec_n_bits(),
            r matches Some(x) ==> x == Self::spec_basis(i as nat),
    ;
}

/// Two elements with the same coordinates.
pub open spec fn same<F: BinaryField>(a: F, b: F) -> bool {
    forall|i: nat| i < F::spec_n_bits() ==> a.coordinate(i) == b.coordinate(i)
}

/// Elements with the same coordinates are equal.
pub proof fn lemma_same<F: BinaryField>(a: F, b: F)
    requires
        same(a, b),
    ensures
        a == b,
{
    F::coordinates_determine(a, b);
}

pub broadcast proof fn lemma_coordinate_of_sum<F: BinaryField>(a: F, b: F, i: nat)
    ensures
        #[trigger] a.sum(b).coordinate(i) == (a.coordinate(i) != b.coordinate(i)),
{
    F::coordinate_of_sum(a, b, i);
}

pub broadcast proof fn lemma_coordinate_of_zero<F: BinaryField>(i: nat)
    ensures
        !#[trigger] F::spec_zero().coordinate(i),
{
    F::coordinate_of_zero(i);
}

/// Facts that reduce an equation between sums to the coordinates of its terms.
pub broadcast group group_coordinates {
    lemma_coordinate_of_sum,
    lemma_coordinate_of_zero,
}

/// Adding the same element twice changes nothing.
pub proof fn lemma_sum_cancels<F: BinaryField>(a: F, b: F)
    ensures
        a.sum(b).sum(b) == a,
        b.sum(b) == F::spec_zero(),
        a.sum(F::spec_zero()) == a,
        F::spec_zero().sum(a) == a,
        a.sum(b) == b.sum(a),
{
    broadcast use group_coordinates;

    lemma_same(a.sum(b).sum(b), a);
    lemma_same(b.sum(b), F::spec_zero());
    lemma_same(a.sum(F::spec_zero()), a);
    lemma_same(F::spec_zero().sum(a), a);
    lemma_same(a.sum(b), b.sum(a));
}

/// Multiplication distributes from the right as well.
pub proof fn lemma_distributes_right<F: BinaryField>(a: F, b: F, c: F)
    ensures
        a.sum(b).product(c) == a.product(c).sum(b.product(c)),
{
    F::product_commutes(a.sum(b), c);
    F::product_distributes(c, a, b);
    F::product_commutes(a, c);
    F::product_commutes(b, c);
}

/// Zero absorbs.
pub proof fn lemma_product_with_zero<F: BinaryField>(a: F)
    ensures
        a.product(F::spec_zero()) == F::spec_zero(),
        F::spec_zero().product(a) == F::spec_zero(),
{
    let z = F::spec_zero();
    lemma_sum_cancels(z, z);
    F::product_distributes(a, z, z);
    lemma_sum_cancels(a.product(z), a.product(z));
    F::product_commutes(a, z);
}

/// A product is zero only if one of its factors is.
pub proof fn lemma_no_zero_divisors<F: BinaryField>(a: F, b: F)
    requires
        a.product(b) == F::spec_zero(),
    ensures
        a == F::spec_zero() || b == F::spec_zero(),
{
    if a != F::spec_zero() {
        F::product_with_inverse(a);
        F::product_commutes(a, a.inverse());
        F::product_associates(a.inverse(), a, b);
        lemma_product_with_zero(a.inverse());
        F::product_commutes(F::spec_one(), b);
        F::product_with_one(b);
    }
}

/// Four factors can be paired in another way.
pub proof fn lemma_regroup_products<F: BinaryField>(a: F, b: F, c: F, d: F)
    ensures
        a.product(b).product(c.product(d)) == a.product(c).product(b.product(d)),
{
    F::product_associates(a, b, c.product(d));
    F::product_associates(b, c, d);
    F::product_commutes(b, c);
    F::product_associates(c, b, d);
    F::product_associates(a, c, b.product(d));
}

/// Two elements whose sum is zero are equal.
pub proof fn lemma_sum_zero_means_equal<F: BinaryField>(a: F, b: F)
    requires
        a.sum(b) == F::spec_zero(),
    ensures
        a == b,
{
    lemma_sum_cancels(a, b);
    lemma_sum_cancels(b, b);
}

} // verus!

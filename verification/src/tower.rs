//! The tower of binary fields: each floor is a quadratic extension of the one below.

use vstd::prelude::*;

use crate::field::{
    group_coordinates, lemma_distributes_right, lemma_no_zero_divisors, lemma_product_with_zero,
    lemma_regroup_products, lemma_same, lemma_sum_cancels,
    lemma_sum_zero_means_equal, BinaryField,
};

verus! {

/// A binary field on which another floor can be built.
///
/// The floor above adjoins a root `X` of `X^2 + aX + 1`, where `a` is this floor's generator. That
/// polynomial has no root here because the inverse of the generator has trace one.
pub trait TowerField: BinaryField {
    /// The element that was adjoined last; one on the ground floor.
    spec fn generator() -> Self;

    /// The trace onto the field of two elements.
    spec fn trace(self) -> bool;

    /// The trace is additive.
    proof fn trace_of_sum(a: Self, b: Self)
        ensures
            a.sum(b).trace() == (a.trace() != b.trace()),
    ;

    /// Squaring keeps the trace.
    proof fn trace_of_square(a: Self)
        ensures
            a.product(a).trace() == a.trace(),
    ;

    /// The generator and its inverse have trace one.
    proof fn trace_of_generator()
        ensures
            Self::generator() != Self::spec_zero(),
            Self::generator().trace(),
            Self::generator().inverse().trace(),
    ;

    /// The element that was adjoined last; one on the ground floor.
    fn alpha() -> (r: Self)
        ensures
            r == Self::generator(),
    ;
}

/// The field of two elements.
#[derive(Clone, Copy, Debug, PartialEq, Eq)]
pub struct BinaryField1b {
    /// Whether the element is one.
    pub bit: bool,
}

impl BinaryField for BinaryField1b {
    open spec fn spec_zero() -> Self {
        BinaryField1b { bit: false }
    }

    open spec fn spec_one() -> Self {
        BinaryField1b { bit: true }
    }

    open spec fn sum(self, other: Self) -> Self {
        BinaryField1b { bit: self.bit != other.bit }
    }

    open spec fn product(self, other: Self) -> Self {
        BinaryField1b { bit: self.bit && other.bit }
    }

    open spec fn inverse(self) -> Self {
        self
    }

    open spec fn spec_n_bits() -> nat {
        1
    }

    open spec fn spec_basis(i: nat) -> Self {
        BinaryField1b { bit: i == 0 }
    }

    open spec fn coordinate(self, i: nat) -> bool {
        i == 0 && self.bit
    }

    proof fn coordinate_of_sum(a: Self, b: Self, i: nat) {
    }

    proof fn coordinate_of_zero(i: nat) {
    }

    proof fn coordinate_of_basis(i: nat, j: nat) {
    }

    proof fn coordinates_determine(a: Self, b: Self) {
        assert(a.coordinate(0) == b.coordinate(0));
    }

    proof fn basis_starts_with_one() {
    }

    proof fn product_commutes(a: Self, b: Self) {
    }

    proof fn product_associates(a: Self, b: Self, c: Self) {
    }

    proof fn product_distributes(a: Self, b: Self, c: Self) {
    }

    proof fn product_with_one(a: Self) {
    }

    proof fn product_with_inverse(a: Self) {
    }

    fn n_bits() -> (r: usize) {
        1
    }

    fn zero() -> (r: Self) {
        BinaryField1b { bit: false }
    }

    fn one() -> (r: Self) {
        BinaryField1b { bit: true }
    }

    fn is_zero(self) -> (r: bool) {
        !self.bit
    }

    fn add(self, other: Self) -> (r: Self) {
        BinaryField1b { bit: self.bit != other.bit }
    }

    fn mul(self, other: Self) -> (r: Self) {
        BinaryField1b { bit: self.bit && other.bit }
    }

    fn square(self) -> (r: Self) {
        self
    }

    fn invert(self) -> (r: Option<Self>) {
        if self.bit {
            Some(self)
        } else {
            None
        }
    }

    fn basis(i: usize) -> (r: Option<Self>) {
        if i == 0 {
            Some(BinaryField1b { bit: true })
        } else {
            None
        }
    }
}

impl TowerField for BinaryField1b {
    open spec fn generator() -> Self {
        BinaryField1b { bit: true }
    }

    open spec fn trace(self) -> bool {
        self.bit
    }

    proof fn trace_of_sum(a: Self, b: Self) {
    }

    proof fn trace_of_square(a: Self) {
    }

    proof fn trace_of_generator() {
    }

    fn alpha() -> (r: Self) {
        BinaryField1b { bit: true }
    }
}

/// The quadratic extension of `F` by a root `X` of `X^2 + aX + 1`, where `a` is the generator of
/// `F`: the element `lo + hi * X`.
#[derive(Clone, Copy, Debug, PartialEq, Eq)]
pub struct Quadratic<F: TowerField> {
    /// The coefficient of one.
    pub lo: F,
    /// The coefficient of the adjoined root.
    pub hi: F,
}

/// The product of `lo + hi * X` with its conjugate `lo + hi * (X + a)`.
pub open spec fn norm<F: TowerField>(lo: F, hi: F) -> F {
    lo.product(lo).sum(F::generator().product(lo.product(hi))).sum(hi.product(hi))
}

/// `z^2 + az + 1` is nonzero.
proof fn lemma_no_root<F: TowerField>(z: F)
    ensures
        z.product(z).sum(F::generator().product(z)).sum(F::spec_one()) != F::spec_zero(),
{
    broadcast use group_coordinates;

    let a = F::generator();
    let i = a.inverse();
    F::trace_of_generator();
    if z.product(z).sum(a.product(z)).sum(F::spec_one()) == F::spec_zero() {
        let w = z.product(i);
        let zz = z.product(z);
        let az = a.product(z);
        lemma_sum_zero_means_equal(zz.sum(az), F::spec_one());
        // Multiply by the square of the inverse of the generator.
        let ii = i.product(i);
        lemma_distributes_right(zz, az, ii);
        lemma_regroup_products(z, z, i, i);
        assert(zz.product(ii) == w.product(w));
        lemma_regroup_products(a, z, i, i);
        F::product_with_inverse(a);
        F::product_commutes(F::spec_one(), w);
        F::product_with_one(w);
        assert(az.product(ii) == w);
        F::product_commutes(F::spec_one(), ii);
        F::product_with_one(ii);
        assert(w.product(w).sum(w) == ii);
        F::trace_of_sum(w.product(w), w);
        F::trace_of_square(w);
        F::trace_of_square(i);
    }
}

/// A nonzero element has a nonzero norm.
proof fn lemma_norm_nonzero<F: TowerField>(lo: F, hi: F)
    requires
        lo != F::spec_zero() || hi != F::spec_zero(),
    ensures
        norm(lo, hi) != F::spec_zero(),
{
    let a = F::generator();
    if norm(lo, hi) == F::spec_zero() {
        if hi == F::spec_zero() {
            lemma_product_with_zero(lo);
            lemma_product_with_zero(a);
            lemma_product_with_zero(hi);
            lemma_sum_cancels(lo.product(lo), hi);
            assert(lo.product(lo) == F::spec_zero());
            lemma_no_zero_divisors(lo, lo);
        } else {
            let i = hi.inverse();
            let ii = i.product(i);
            let z = lo.product(i);
            F::product_with_inverse(hi);
            lemma_regroup_products(lo, lo, i, i);
            assert(lo.product(lo).product(ii) == z.product(z));
            lemma_regroup_products(lo, hi, i, i);
            F::product_with_one(z);
            assert(lo.product(hi).product(ii) == z);
            F::product_associates(a, lo.product(hi), ii);
            assert(a.product(lo.product(hi)).product(ii) == a.product(z));
            lemma_regroup_products(hi, hi, i, i);
            F::product_with_one(F::spec_one());
            assert(hi.product(hi).product(ii) == F::spec_one());
            lemma_distributes_right(
                lo.product(lo).sum(a.product(lo.product(hi))),
                hi.product(hi),
                ii,
            );
            lemma_distributes_right(lo.product(lo), a.product(lo.product(hi)), ii);
            lemma_product_with_zero(ii);
            lemma_no_root(z);
        }
    }
}

/// The ways in which a factor moves through a triple product.
proof fn lemma_triple<F: BinaryField>(x: F, y: F, z: F, s: F)
    ensures
        x.product(y).product(z) == x.product(y.product(z)),
        x.product(y).product(s).product(z) == x.product(y.product(z)).product(s),
        x.product(y).product(z).product(s) == x.product(y.product(z).product(s)),
{
    F::product_associates(x, y, z);
    F::product_associates(x.product(y), s, z);
    F::product_commutes(s, z);
    F::product_associates(x.product(y), z, s);
    F::product_associates(x, y.product(z), s);
}

impl<F: TowerField> BinaryField for Quadratic<F> {
    open spec fn spec_zero() -> Self {
        Quadratic { lo: F::spec_zero(), hi: F::spec_zero() }
    }

    open spec fn spec_one() -> Self {
        Quadratic { lo: F::spec_one(), hi: F::spec_zero() }
    }

    open spec fn sum(self, other: Self) -> Self {
        Quadratic { lo: self.lo.sum(other.lo), hi: self.hi.sum(other.hi) }
    }

    open spec fn product(self, other: Self) -> Self {
        let top = self.hi.product(other.hi);
        Quadratic {
            lo: self.lo.product(other.lo).sum(top),
            hi: self.lo.product(other.hi).sum(self.hi.product(other.lo)).sum(
                top.product(F::generator()),
            ),
        }
    }

    open spec fn inverse(self) -> Self {
        let scale = norm(self.lo, self.hi).inverse();
        Quadratic {
            lo: self.lo.sum(self.hi.product(F::generator())).product(scale),
            hi: self.hi.product(scale),
        }
    }

    open spec fn spec_n_bits() -> nat {
        2 * F::spec_n_bits()
    }

    open spec fn spec_basis(i: nat) -> Self {
        if i < F::spec_n_bits() {
            Quadratic { lo: F::spec_basis(i), hi: F::spec_zero() }
        } else {
            Quadratic { lo: F::spec_zero(), hi: F::spec_basis((i - F::spec_n_bits()) as nat) }
        }
    }

    open spec fn coordinate(self, i: nat) -> bool {
        if i < F::spec_n_bits() {
            self.lo.coordinate(i)
        } else {
            self.hi.coordinate((i - F::spec_n_bits()) as nat)
        }
    }

    proof fn coordinate_of_sum(a: Self, b: Self, i: nat) {
        broadcast use group_coordinates;

    }

    proof fn coordinate_of_zero(i: nat) {
        broadcast use group_coordinates;

    }

    proof fn coordinate_of_basis(i: nat, j: nat) {
        broadcast use group_coordinates;

        let h = F::spec_n_bits();
        if i < h {
            F::coordinate_of_basis(i, j);
        } else if j >= h {
            F::coordinate_of_basis((i - h) as nat, (j - h) as nat);
        }
    }

    proof fn coordinates_determine(a: Self, b: Self) {
        let h = F::spec_n_bits();
        assert forall|i: nat| i < h implies a.lo.coordinate(i) == b.lo.coordinate(i) by {
            assert(a.coordinate(i) == b.coordinate(i));
        }
        assert forall|i: nat| i < h implies a.hi.coordinate(i) == b.hi.coordinate(i) by {
            assert(a.coordinate(i + h) == b.coordinate(i + h));
        }
        lemma_same(a.lo, b.lo);
        lemma_same(a.hi, b.hi);
    }

    proof fn basis_starts_with_one() {
        F::basis_starts_with_one();
    }

    proof fn product_commutes(a: Self, b: Self) {
        F::product_commutes(a.lo, b.lo);
        F::product_commutes(a.hi, b.hi);
        F::product_commutes(a.lo, b.hi);
        F::product_commutes(a.hi, b.lo);
        lemma_sum_cancels(a.lo.product(b.hi), a.hi.product(b.lo));
    }

    proof fn product_associates(a: Self, b: Self, c: Self) {
        broadcast use group_coordinates;

        let g = F::generator();
        let (a0, a1) = (a.lo, a.hi);
        let (b0, b1) = (b.lo, b.hi);
        let (c0, c1) = (c.lo, c.hi);
        lemma_triple(a0, b0, c0, g);
        lemma_triple(a0, b0, c1, g);
        lemma_triple(a0, b1, c0, g);
        lemma_triple(a0, b1, c1, g);
        lemma_triple(a1, b0, c0, g);
        lemma_triple(a1, b0, c1, g);
        lemma_triple(a1, b1, c0, g);
        lemma_triple(a1, b1, c1, g);
        // The left side, term by term.
        let ab = a.product(b);
        let cross = a0.product(b1).sum(a1.product(b0));
        let top = a1.product(b1).product(g);
        lemma_distributes_right(a0.product(b0), a1.product(b1), c0);
        lemma_distributes_right(a0.product(b0), a1.product(b1), c1);
        lemma_distributes_right(cross, top, c0);
        lemma_distributes_right(cross, top, c1);
        lemma_distributes_right(a0.product(b1), a1.product(b0), c0);
        lemma_distributes_right(a0.product(b1), a1.product(b0), c1);
        lemma_distributes_right(cross.product(c1), top.product(c1), g);
        lemma_distributes_right(a0.product(b1).product(c1), a1.product(b0).product(c1), g);
        // The right side, term by term.
        let bc = b.product(c);
        let cross2 = b0.product(c1).sum(b1.product(c0));
        let top2 = b1.product(c1).product(g);
        F::product_distributes(a0, b0.product(c0), b1.product(c1));
        F::product_distributes(a1, b0.product(c0), b1.product(c1));
        F::product_distributes(a0, cross2, top2);
        F::product_distributes(a1, cross2, top2);
        F::product_distributes(a0, b0.product(c1), b1.product(c0));
        F::product_distributes(a1, b0.product(c1), b1.product(c0));
        lemma_distributes_right(a1.product(cross2), a1.product(top2), g);
        lemma_distributes_right(a1.product(b0.product(c1)), a1.product(b1.product(c0)), g);
        lemma_same(ab.product(c).lo, a.product(bc).lo);
        lemma_same(ab.product(c).hi, a.product(bc).hi);
    }

    proof fn product_distributes(a: Self, b: Self, c: Self) {
        broadcast use group_coordinates;

        let g = F::generator();
        F::product_distributes(a.lo, b.lo, c.lo);
        F::product_distributes(a.lo, b.hi, c.hi);
        F::product_distributes(a.hi, b.lo, c.lo);
        F::product_distributes(a.hi, b.hi, c.hi);
        lemma_distributes_right(a.hi.product(b.hi), a.hi.product(c.hi), g);
        lemma_same(a.product(b.sum(c)).lo, a.product(b).sum(a.product(c)).lo);
        lemma_same(a.product(b.sum(c)).hi, a.product(b).sum(a.product(c)).hi);
    }

    proof fn product_with_one(a: Self) {
        let g = F::generator();
        F::product_with_one(a.lo);
        F::product_with_one(a.hi);
        lemma_product_with_zero(a.lo);
        lemma_product_with_zero(a.hi);
        lemma_product_with_zero(g);
        lemma_sum_cancels(a.lo, F::spec_zero());
        lemma_sum_cancels(a.hi, F::spec_zero());
    }

    proof fn product_with_inverse(a: Self) {
        broadcast use group_coordinates;

        let g = F::generator();
        let (lo, hi) = (a.lo, a.hi);
        let n = norm(lo, hi);
        let s = n.inverse();
        lemma_norm_nonzero(lo, hi);
        F::product_with_inverse(n);
        let conj = lo.sum(hi.product(g));
        // lo * conj + hi * hi is the norm.
        F::product_distributes(lo, lo, hi.product(g));
        F::product_associates(lo, hi, g);
        F::product_commutes(lo.product(hi), g);
        F::product_associates(lo, conj, s);
        F::product_associates(hi, hi, s);
        lemma_distributes_right(lo.product(conj), hi.product(hi), s);
        assert(lo.product(conj).sum(hi.product(hi)) == n);
        assert(a.product(a.inverse()).lo == F::spec_one());
        // The coefficient of the root cancels.
        F::product_associates(lo, hi, s);
        F::product_associates(hi, conj, s);
        F::product_distributes(hi, lo, hi.product(g));
        F::product_commutes(hi, lo);
        lemma_distributes_right(lo.product(hi), hi.product(hi.product(g)), s);
        lemma_triple(hi, hi, s, g);
        F::product_associates(hi, hi, g);
        lemma_same(a.product(a.inverse()).hi, F::spec_zero());
    }

    fn n_bits() -> (r: usize) {
        let half = F::n_bits();
        if half > usize::MAX / 2 {
            usize::MAX
        } else {
            2 * half
        }
    }

    fn zero() -> (r: Self) {
        Quadratic { lo: F::zero(), hi: F::zero() }
    }

    fn one() -> (r: Self) {
        Quadratic { lo: F::one(), hi: F::zero() }
    }

    fn is_zero(self) -> (r: bool) {
        self.lo.is_zero() && self.hi.is_zero()
    }

    fn add(self, other: Self) -> (r: Self) {
        Quadratic { lo: self.lo.add(other.lo), hi: self.hi.add(other.hi) }
    }

    fn mul(self, other: Self) -> (r: Self) {
        let top = self.hi.mul(other.hi);
        Quadratic {
            lo: self.lo.mul(other.lo).add(top),
            hi: self.lo.mul(other.hi).add(self.hi.mul(other.lo)).add(top.mul(F::alpha())),
        }
    }

    fn square(self) -> (r: Self) {
        self.mul(self)
    }

    fn invert(self) -> (r: Option<Self>) {
        if self.is_zero() {
            None
        } else {
            proof {
                lemma_norm_nonzero(self.lo, self.hi);
            }
            let norm = self.lo.square().add(F::alpha().mul(self.lo.mul(self.hi))).add(
                self.hi.square(),
            );
            match norm.invert() {
                Some(scale) => Some(
                    Quadratic {
                        lo: self.lo.add(self.hi.mul(F::alpha())).mul(scale),
                        hi: self.hi.mul(scale),
                    },
                ),
                None => None,
            }
        }
    }

    fn basis(i: usize) -> (r: Option<Self>) {
        match F::basis(i) {
            Some(lo) => Some(Quadratic { lo, hi: F::zero() }),
            None => match F::basis(i - F::n_bits()) {
                Some(hi) => Some(Quadratic { lo: F::zero(), hi }),
                None => None,
            },
        }
    }
}

impl<F: TowerField> TowerField for Quadratic<F> {
    open spec fn generator() -> Self {
        Quadratic { lo: F::spec_zero(), hi: F::spec_one() }
    }

    open spec fn trace(self) -> bool {
        self.hi.product(F::generator()).trace()
    }

    proof fn trace_of_sum(a: Self, b: Self) {
        let g = F::generator();
        lemma_distributes_right(a.hi, b.hi, g);
        F::trace_of_sum(a.hi.product(g), b.hi.product(g));
    }

    proof fn trace_of_square(a: Self) {
        let g = F::generator();
        let cross = a.lo.product(a.hi);
        F::product_commutes(a.lo, a.hi);
        let top = a.hi.product(a.hi).product(g);
        lemma_sum_cancels(cross, cross);
        lemma_sum_cancels(top, top);
        // The root's coefficient in the square is (hi * hi) * g.
        F::product_associates(a.hi.product(a.hi), g, g);
        lemma_regroup_products(a.hi, a.hi, g, g);
        F::trace_of_square(a.hi.product(g));
    }

    proof fn trace_of_generator() {
        broadcast use group_coordinates;

        let g = F::generator();
        let (zero, one) = (F::spec_zero(), F::spec_one());
        F::trace_of_generator();
        F::product_commutes(one, g);
        F::product_with_one(g);
        F::product_with_one(one);
        lemma_product_with_zero(zero);
        lemma_product_with_zero(one);
        lemma_product_with_zero(g);
        lemma_sum_cancels(zero, zero);
        lemma_sum_cancels(one, one);
        lemma_sum_cancels(g, one);
        if one == zero {
            F::product_with_one(g);
        }
        assert(norm(zero, one) == one);
        F::product_with_inverse(one);
        F::product_commutes(one, one.inverse());
        F::product_with_one(one.inverse());
    }

    fn alpha() -> (r: Self) {
        Quadratic { lo: F::zero(), hi: F::one() }
    }
}

} // verus!

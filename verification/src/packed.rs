//! Packed vectors of field elements.

use vstd::arithmetic::div_mod::{lemma_fundamental_div_mod, lemma_fundamental_div_mod_converse};
use vstd::arithmetic::power2::{lemma_pow2_pos, pow2};
use vstd::array::array_fill_for_copy_types;
use vstd::prelude::*;

use crate::bits::power_of_two;
use crate::field::BinaryField;

verus! {

/// A fixed number of scalars of a binary field that are operated on together.
pub trait PackedField: Sized + Copy {
    /// The field of the lanes.
    type Scalar: BinaryField;

    /// The number of lanes.
    spec fn spec_width() -> nat;

    /// The scalars, lane by lane.
    spec fn lanes(self) -> Seq<Self::Scalar>;

    /// Every packed vector has the same number of lanes.
    proof fn lanes_match_width(self)
        ensures
            self.lanes().len() == Self::spec_width(),
    ;

    /// A packed vector is determined by its lanes.
    proof fn lanes_determine(a: Self, b: Self)
        requires
            a.lanes() == b.lanes(),
        ensures
            a == b,
    ;

    /// The number of lanes.
    fn width() -> (r: usize)
        ensures
            r == Self::spec_width(),
    ;

    /// The vector with a zero in every lane.
    fn zeros() -> (r: Self)
        ensures
            forall|l: int|
                0 <= l < Self::spec_width() ==> #[trigger] r.lanes()[l]
                    == Self::Scalar::spec_zero(),
    ;

    /// The scalar in lane `l`.
    fn get(self, l: usize) -> (r: Self::Scalar)
        requires
            l < Self::spec_width(),
        ensures
            r == self.lanes()[l as int],
    ;

    /// Replaces the scalar in lane `l`.
    fn set(&mut self, l: usize, scalar: Self::Scalar)
        requires
            l < Self::spec_width(),
        ensures
            final(self).lanes() == old(self).lanes().update(l as int, scalar),
    ;

    /// The lanewise sum.
    fn add_lanes(self, other: Self) -> (r: Self)
        ensures
            forall|l: int|
                0 <= l < Self::spec_width() ==> #[trigger] r.lanes()[l] == self.lanes()[l].sum(
                    other.lanes()[l],
                ),
    ;

    /// The lanewise product.
    fn mul_lanes(self, other: Self) -> (r: Self)
        ensures
            forall|l: int|
                0 <= l < Self::spec_width() ==> #[trigger] r.lanes()[l] == self.lanes()[l].product(
                    other.lanes()[l],
                ),
    ;

    /// The product of every lane with the same scalar.
    fn scale(self, scalar: Self::Scalar) -> (r: Self)
        ensures
            forall|l: int|
                0 <= l < Self::spec_width() ==> #[trigger] r.lanes()[l] == self.lanes()[l].product(
                    scalar,
                ),
    ;

    /// Stacks the two vectors, cuts them into 2x2 matrices of blocks of `2^log_block_len` lanes and
    /// transposes each matrix.
    fn interleave(self, other: Self, log_block_len: usize) -> (r: (Self, Self))
        requires
            log_block_len < usize::BITS,
            Self::spec_width() as int % (2 * pow2(log_block_len as nat) as int) == 0,
            Self::spec_width() > 0,
        ensures
            forall|l: int|
                0 <= l < Self::spec_width() ==> #[trigger] r.0.lanes()[l] == transposed_upper(
                    self.lanes(),
                    other.lanes(),
                    pow2(log_block_len as nat) as int,
                    l,
                ),
            forall|l: int|
                0 <= l < Self::spec_width() ==> #[trigger] r.1.lanes()[l] == transposed_lower(
                    self.lanes(),
                    other.lanes(),
                    pow2(log_block_len as nat) as int,
                    l,
                ),
    ;
}

/// Lane `l` of the upper row after the blocks of `h` lanes of `a` over `b` are transposed.
pub open spec fn transposed_upper<F>(a: Seq<F>, b: Seq<F>, h: int, l: int) -> F {
    if l % (2 * h) < h {
        a[l]
    } else {
        b[l - h]
    }
}

/// Lane `l` of the lower row after the blocks of `h` lanes of `a` over `b` are transposed.
pub open spec fn transposed_lower<F>(a: Seq<F>, b: Seq<F>, h: int, l: int) -> F {
    if l % (2 * h) < h {
        a[l + h]
    } else {
        b[l]
    }
}

/// The scalars of a sequence of packed vectors, in order.
pub open spec fn scalars<P: PackedField>(data: Seq<P>) -> Seq<P::Scalar> {
    Seq::new(
        data.len() * P::spec_width(),
        |p: int| data[p / P::spec_width() as int].lanes()[p % P::spec_width() as int],
    )
}

/// A field element is a vector of one lane.
impl<F: BinaryField> PackedField for F {
    type Scalar = F;

    open spec fn spec_width() -> nat {
        1
    }

    open spec fn lanes(self) -> Seq<F> {
        seq![self]
    }

    proof fn lanes_match_width(self) {
    }

    proof fn lanes_determine(a: Self, b: Self) {
        assert(seq![a][0] == seq![b][0]);
    }

    fn width() -> (r: usize) {
        1
    }

    fn zeros() -> (r: Self) {
        F::zero()
    }

    fn get(self, l: usize) -> (r: F) {
        self
    }

    fn set(&mut self, l: usize, scalar: F) {
        *self = scalar;
        assert(seq![*self] =~= seq![*old(self)].update(0, scalar));
    }

    fn add_lanes(self, other: Self) -> (r: Self) {
        self.add(other)
    }

    fn mul_lanes(self, other: Self) -> (r: Self) {
        self.mul(other)
    }

    fn scale(self, scalar: F) -> (r: Self) {
        self.mul(scalar)
    }

    fn interleave(self, other: Self, log_block_len: usize) -> (r: (Self, Self)) {
        proof {
            lemma_pow2_pos(log_block_len as nat);
            vstd::arithmetic::div_mod::lemma_small_mod(1, 2 * pow2(log_block_len as nat));
        }
        (self, other)
    }
}

/// A packed vector of `W` scalars.
#[derive(Clone, Copy, Debug, PartialEq, Eq)]
pub struct Packed<F: BinaryField, const W: usize> {
    /// The scalars, lane by lane.
    pub scalars: [F; W],
}

impl<F: BinaryField, const W: usize> PackedField for Packed<F, W> {
    type Scalar = F;

    open spec fn spec_width() -> nat {
        W as nat
    }

    open spec fn lanes(self) -> Seq<F> {
        self.scalars@
    }

    proof fn lanes_match_width(self) {
    }

    proof fn lanes_determine(a: Self, b: Self) {
        assert forall|l: int| 0 <= l < W implies a.scalars[l] == b.scalars[l] by {
            assert(a.scalars@[l] == b.scalars@[l]);
        }
        assert(a.scalars =~= b.scalars);
    }

    fn width() -> (r: usize) {
        W
    }

    fn zeros() -> (r: Self) {
        Packed { scalars: array_fill_for_copy_types(F::zero()) }
    }

    fn get(self, l: usize) -> (r: F) {
        self.scalars[l]
    }

    fn set(&mut self, l: usize, scalar: F) {
        self.scalars[l] = scalar;
    }

    fn add_lanes(self, other: Self) -> (r: Self) {
        let mut r = self;
        let mut l: usize = 0;
        while l < W
            invariant
                l <= W,
                forall|k: int|
                    0 <= k < l ==> #[trigger] r.scalars@[k] == self.scalars@[k].sum(
                        other.scalars@[k],
                    ),
            decreases W - l,
        {
            r.scalars[l] = self.scalars[l].add(other.scalars[l]);
            l = l + 1;
        }
        r
    }

    fn mul_lanes(self, other: Self) -> (r: Self) {
        let mut r = self;
        let mut l: usize = 0;
        while l < W
            invariant
                l <= W,
                forall|k: int|
                    0 <= k < l ==> #[trigger] r.scalars@[k] == self.scalars@[k].product(
                        other.scalars@[k],
                    ),
            decreases W - l,
        {
            r.scalars[l] = self.scalars[l].mul(other.scalars[l]);
            l = l + 1;
        }
        r
    }

    fn scale(self, scalar: F) -> (r: Self) {
        let mut r = self;
        let mut l: usize = 0;
        while l < W
            invariant
                l <= W,
                forall|k: int|
                    0 <= k < l ==> #[trigger] r.scalars@[k] == self.scalars@[k].product(scalar),
            decreases W - l,
        {
            r.scalars[l] = self.scalars[l].mul(scalar);
            l = l + 1;
        }
        r
    }

    fn interleave(self, other: Self, log_block_len: usize) -> (r: (Self, Self)) {
        let h = power_of_two(log_block_len);
        let mut upper = self;
        let mut lower = other;
        let mut l: usize = 0;
        proof {
            lemma_pow2_pos(log_block_len as nat);
            lemma_block_fits(W as int, h as int);
        }
        while l < W
            invariant
                l <= W,
                h == pow2(log_block_len as nat),
                0 < h,
                2 * h <= W,
                W as int % (2 * h as int) == 0,
                forall|k: int|
                    0 <= k < l ==> #[trigger] upper.scalars@[k] == transposed_upper(
                        self.scalars@,
                        other.scalars@,
                        h as int,
                        k,
                    ),
                forall|k: int|
                    0 <= k < l ==> #[trigger] lower.scalars@[k] == transposed_lower(
                        self.scalars@,
                        other.scalars@,
                        h as int,
                        k,
                    ),
            decreases W - l,
        {
            proof {
                crate::novel::lemma_partner(l as int, h as int);
                if l as int % (2 * h as int) < h {
                    crate::novel::lemma_partner_in_range(l as int, h as int, W as int);
                }
            }
            if l % (2 * h) < h {
                upper.scalars[l] = self.scalars[l];
                lower.scalars[l] = self.scalars[l + h];
            } else {
                upper.scalars[l] = other.scalars[l - h];
                lower.scalars[l] = other.scalars[l];
            }
            l = l + 1;
        }
        (upper, lower)
    }
}

/// A positive multiple of a block's length is no shorter than the block.
proof fn lemma_block_fits(width: int, h: int)
    requires
        width > 0,
        h > 0,
        width % (2 * h) == 0,
    ensures
        2 * h <= width,
{
    if width < 2 * h {
        vstd::arithmetic::div_mod::lemma_small_mod(width as nat, (2 * h) as nat);
    }
}

/// Where lane `l` of packed vector `q` lies among the scalars.
pub proof fn lemma_scalar_position<P: PackedField>(data: Seq<P>, q: int, l: int)
    requires
        0 <= q < data.len(),
        0 <= l < P::spec_width(),
    ensures
        ({
            let p = q * P::spec_width() + l;
            &&& 0 <= p < data.len() * P::spec_width()
            &&& p / P::spec_width() as int == q
            &&& p % P::spec_width() as int == l
            &&& scalars(data)[p] == data[q].lanes()[l]
        }),
{
    let w = P::spec_width() as int;
    let p = q * w + l;
    lemma_fundamental_div_mod_converse(p, w, q, l);
    assert(0 <= p < data.len() * w) by (nonlinear_arith)
        requires
            0 <= q < data.len(),
            0 <= l < w,
            p == q * w + l,
    ;
}

/// Packed vectors are determined by their scalars.
pub proof fn lemma_scalars_determine<P: PackedField>(a: Seq<P>, b: Seq<P>)
    requires
        a.len() == b.len(),
        scalars(a) == scalars(b),
    ensures
        a == b,
{
    assert forall|q: int| 0 <= q < a.len() implies a[q] == b[q] by {
        a[q].lanes_match_width();
        b[q].lanes_match_width();
        assert forall|l: int| 0 <= l < P::spec_width() implies a[q].lanes()[l]
            == b[q].lanes()[l] by {
            lemma_scalar_position(a, q, l);
            lemma_scalar_position(b, q, l);
        }
        assert(a[q].lanes() =~= b[q].lanes());
        P::lanes_determine(a[q], b[q]);
    }
    assert(a =~= b);
}

/// Which packed vector and lane holds scalar `p`.
pub proof fn lemma_lane_of_scalar(len: int, w: int, p: int)
    requires
        0 <= p < len * w,
        0 <= w,
    ensures
        0 < w,
        0 <= p / w < len,
        0 <= p % w < w,
        p == (p / w) * w + p % w,
{
    if w == 0 {
        assert(len * w == 0) by (nonlinear_arith)
            requires
                w == 0,
        ;
    }
    lemma_fundamental_div_mod(p, w);
    let q = p / w;
    let l = p % w;
    assert(w * q == q * w) by (nonlinear_arith);
    assert(0 <= q < len) by (nonlinear_arith)
        requires
            p == q * w + l,
            0 <= p < len * w,
            0 <= l < w,
    ;
}

/// The scalars of packed vectors, in order.
pub fn unpack_scalars<P: PackedField>(data: &[P]) -> (r: Vec<P::Scalar>)
    requires
        data@.len() * P::spec_width() <= usize::MAX,
    ensures
        r@ == scalars(data@),
{
    let mut r: Vec<P::Scalar> = Vec::new();
    let w = P::width();
    let mut q: usize = 0;
    while q < data.len()
        invariant
            q <= data@.len(),
            w == P::spec_width(),
            r@.len() == q * w,
            forall|p: int| 0 <= p < r@.len() ==> #[trigger] r@[p] == scalars(data@)[p],
        decreases data.len() - q,
    {
        let mut l: usize = 0;
        while l < w
            invariant
                q < data@.len(),
                l <= w,
                w == P::spec_width(),
                r@.len() == q * w + l,
                forall|p: int| 0 <= p < r@.len() ==> #[trigger] r@[p] == scalars(data@)[p],
            decreases w - l,
        {
            proof {
                lemma_scalar_position(data@, q as int, l as int);
            }
            r.push(data[q].get(l));
            l = l + 1;
        }
        assert(q * w + w == (q + 1) * w) by (nonlinear_arith);
        q = q + 1;
    }
    assert(r@ =~= scalars(data@));
    r
}

/// Stores scalars into packed vectors, in order.
pub fn pack_scalars<P: PackedField>(data: &mut [P], values: &[P::Scalar])
    requires
        values@.len() == old(data)@.len() * P::spec_width(),
    ensures
        final(data)@.len() == old(data)@.len(),
        scalars(final(data)@) == values@,
{
    let w = P::width();
    let len = data.len();
    let mut q: usize = 0;
    while q < len
        invariant
            q <= len,
            len == data@.len(),
            w == P::spec_width(),
            values@.len() == len * w,
            forall|k: int, l: int|
                0 <= k < q && 0 <= l < w ==> #[trigger] data@[k].lanes()[l] == values@[k * w + l],
        decreases len - q,
    {
        let mut element = data[q];
        let mut l: usize = 0;
        while l < w
            invariant
                q < len,
                l <= w,
                w == P::spec_width(),
                values@.len() == len * w,
                    forall|m: int|
                    0 <= m < l ==> #[trigger] element.lanes()[m] == values@[q * w + m],
            decreases w - l,
        {
            proof {
                element.lanes_match_width();
                assert(q * w + l < len * w) by (nonlinear_arith)
                    requires
                        q < len,
                        l < w,
                ;
                assert(0 <= q * w) by (nonlinear_arith);
                assert(values@.len() == values.len());
            }
            element.set(l, values[q * w + l]);
            l = l + 1;
        }
        data[q] = element;
        q = q + 1;
    }
    proof {
        assert forall|p: int| 0 <= p < values@.len() implies scalars(data@)[p] == values@[p] by {
            lemma_lane_of_scalar(len as int, w as int, p);
        }
        assert(scalars(data@) =~= values@);
    }
}

} // verus!

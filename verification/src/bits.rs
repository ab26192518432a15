//! Powers of two and the binary digits of indices.

use vstd::arithmetic::div_mod::{lemma_fundamental_div_mod, lemma_mod_multiples_basic};
use vstd::arithmetic::mul::lemma_mul_inequality;
use vstd::arithmetic::power2::{
    lemma2_to64, lemma_pow2_pos, lemma_pow2_strictly_increases, lemma_pow2_unfold, pow2,
};
use vstd::bits::{
    lemma_u32_shr_is_div, lemma_usize_pow2_no_overflow, lemma_usize_shl_is_mul,
    lemma_usize_shr_is_div,
};
use vstd::prelude::*;
use vstd::std_specs::bits::axiom_u32_leading_zeros;

verus! {

/// The `i`-th binary digit of `n`.
pub open spec fn bit(n: nat, i: nat) -> bool {
    (n / pow2(i)) % 2 == 1
}

/// The number of binary digits of `n`; zero has none.
pub open spec fn bit_length(n: nat) -> nat
    decreases n,
{
    if n == 0 {
        0
    } else {
        1 + bit_length(n / 2)
    }
}

/// The binary logarithm of a positive number, rounded down.
pub open spec fn log2(n: nat) -> nat {
    (bit_length(n) - 1) as nat
}

/// Whether `n` is a power of two.
pub open spec fn is_power_of_two(n: nat) -> bool {
    n > 0 && pow2(log2(n)) == n
}

/// The bounds that fix the number of binary digits.
pub proof fn lemma_bit_length_bounds(n: nat)
    ensures
        n < pow2(bit_length(n)),
        n > 0 ==> bit_length(n) > 0 && pow2((bit_length(n) - 1) as nat) <= n,
    decreases n,
{
    lemma2_to64();
    if n > 0 {
        lemma_bit_length_bounds(n / 2);
        lemma_pow2_unfold(bit_length(n));
        if n / 2 > 0 {
            lemma_pow2_unfold(bit_length(n / 2));
        }
    }
}

/// A number between `2^(c - 1)` and `2^c` has `c` binary digits.
pub proof fn lemma_bit_length_unique(n: nat, c: nat)
    requires
        n < pow2(c),
        c == 0 || pow2((c - 1) as nat) <= n,
    ensures
        bit_length(n) == c,
    decreases c,
{
    lemma2_to64();
    if c > 0 {
        lemma_pow2_unfold(c);
        lemma_pow2_pos((c - 1) as nat);
        if c > 1 {
            lemma_pow2_unfold((c - 1) as nat);
        }
        lemma_bit_length_unique(n / 2, (c - 1) as nat);
    }
}

/// The binary logarithm undoes the power of two.
pub proof fn lemma_log2_of_power(k: nat)
    ensures
        log2(pow2(k)) == k,
        bit_length(pow2(k)) == k + 1,
        is_power_of_two(pow2(k)),
{
    lemma_pow2_pos(k);
    lemma_pow2_strictly_increases(k, k + 1);
    lemma_bit_length_unique(pow2(k), k + 1);
}

/// Powers of two grow with the exponent.
pub proof fn lemma_power_monotone(a: nat, b: nat)
    requires
        a <= b,
    ensures
        pow2(a) <= pow2(b),
{
    if a < b {
        lemma_pow2_strictly_increases(a, b);
    }
}

/// An exponent is bounded by what bounds its power.
pub proof fn lemma_exponent_below(a: nat, b: nat)
    requires
        pow2(a) < pow2(b),
    ensures
        a < b,
{
    if a >= b {
        lemma_power_monotone(b, a);
    }
}

/// `2^k`.
pub fn power_of_two(k: usize) -> (r: usize)
    requires
        k < usize::BITS,
    ensures
        r == pow2(k as nat),
{
    proof {
        lemma_usize_pow2_no_overflow(k as nat);
        lemma_usize_shl_is_mul(1, k);
    }
    1usize << k
}

/// Where the lowest `s` digits of `a` are zero, digits below `s` can be put there by addition.
pub proof fn lemma_or_is_sum(a: usize, b: usize, s: nat)
    requires
        s < usize::BITS,
        a as int % pow2(s) as int == 0,
        b < pow2(s),
    ensures
        a | b == a + b,
{
    let shift = s as usize;
    let high = a >> shift;
    lemma_usize_pow2_no_overflow(s);
    lemma_pow2_pos(s);
    lemma_usize_shl_is_mul(1, shift);
    lemma_usize_shr_is_div(a, shift);
    lemma_fundamental_div_mod(a as int, pow2(s) as int);
    assert(high * pow2(s) == a) by (nonlinear_arith)
        requires
            a == pow2(s) * high as int,
    ;
    lemma_usize_shl_is_mul(high, shift);
    assert(a | b == a + b) by (bit_vector)
        requires
            shift < usize::BITS,
            b < (1usize << shift),
            (a >> shift) << shift == a,
    ;
}

/// The number whose binary digits are those of `high` followed by the `shift` digits of `low`.
pub fn join_bits(high: usize, shift: usize, low: usize) -> (r: usize)
    requires
        shift < usize::BITS,
        low < pow2(shift as nat),
        high * pow2(shift as nat) + low <= usize::MAX,
    ensures
        r == high * pow2(shift as nat) + low,
{
    proof {
        lemma_usize_shl_is_mul(high, shift);
        lemma_mod_multiples_basic(high as int, pow2(shift as nat) as int);
        lemma_or_is_sum(high << shift, low, shift as nat);
    }
    (high << shift) | low
}

/// The `b`-th binary digit of `n`.
pub fn test_bit(n: usize, b: usize) -> (r: bool)
    requires
        b < usize::BITS,
    ensures
        r == bit(n as nat, b as nat),
{
    let shifted = n >> b;
    proof {
        lemma_usize_shr_is_div(n, b);
        assert((shifted & 1 != 0) == (shifted % 2 == 1)) by (bit_vector);
    }
    shifted & 1 != 0
}

/// The exponent of a power of two; `None` for any other number.
pub fn exact_log2(n: usize) -> (r: Option<usize>)
    ensures
        r is Some <==> is_power_of_two(n as nat),
        r matches Some(k) ==> k == log2(n as nat) && pow2(k as nat) == n && k < usize::BITS,
{
    if n == 0 {
        return None;
    }
    let mut power: usize = 1;
    let mut k: usize = 0;
    proof {
        lemma2_to64();
    }
    while power <= n / 2
        invariant
            power == pow2(k as nat),
            1 <= power <= n,
            k < usize::BITS,
        decreases n - power,
    {
        proof {
            lemma_pow2_unfold((k + 1) as nat);
            lemma_small_exponent((k + 1) as nat);
        }
        power = 2 * power;
        k = k + 1;
    }
    proof {
        lemma_pow2_unfold((k + 1) as nat);
        lemma_bit_length_unique(n as nat, (k + 1) as nat);
    }
    if power == n {
        Some(k)
    } else {
        None
    }
}

/// An exponent whose power fits in a `usize` is below the number of its digits.
pub proof fn lemma_small_exponent(k: nat)
    requires
        pow2(k) <= usize::MAX,
    ensures
        k < usize::BITS,
{
    lemma2_to64();
    vstd::arithmetic::power2::lemma2_to64_rest();
    if k >= usize::BITS {
        lemma_power_monotone(usize::BITS as nat, k);
    }
}

/// The number of binary digits of `n`.
pub fn count_bits(n: u32) -> (r: usize)
    ensures
        r == bit_length(n as nat),
        r <= 32,
        n < pow2(r as nat),
{
    let zeros: u32 = n.leading_zeros();
    proof {
        axiom_u32_leading_zeros(n);
        lemma2_to64();
        let len = (32 - zeros) as u32;
        if zeros < 32 {
            let top = (31 - zeros) as u32;
            let head = n >> top;
            lemma_u32_shr_is_div(n, top);
            assert(head & 1u32 != 0u32 ==> head >= 1u32) by (bit_vector);
            lemma_fundamental_div_mod(n as int, pow2(top as nat) as int);
            lemma_pow2_pos(top as nat);
            lemma_mul_inequality(1, head as int, pow2(top as nat) as int);
            assert(pow2(top as nat) <= n) by (nonlinear_arith)
                requires
                    n == pow2(top as nat) * head + n as nat % pow2(top as nat),
                    head >= 1,
                    pow2(top as nat) > 0,
            ;
        }
        if zeros > 0 {
            lemma_u32_shr_is_div(n, len);
            lemma_pow2_pos(len as nat);
            lemma_fundamental_div_mod(n as int, pow2(len as nat) as int);
            vstd::arithmetic::mul::lemma_mul_basics(pow2(len as nat) as int);
            assert(n as int % pow2(len as nat) as int == n);
        }
        lemma_bit_length_unique(n as nat, len as nat);
    }
    32 - zeros as usize
}

} // verus!

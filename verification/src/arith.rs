//! Mathematical model of fixed-width integer values: the two's-complement
//! reading of a wire's bit pattern, representability in a width, the wrapped
//! encoding of a mathematical integer, and the constraint-cost model of
//! square-and-multiply exponentiation.

use vstd::prelude::*;

verus! {

use vstd::arithmetic::div_mod::{
    lemma_add_mod_noop,
    lemma_mod_add_multiples_vanish,
    lemma_mod_bound,
    lemma_mod_sub_multiples_vanish,
    lemma_mul_mod_noop,
    lemma_small_mod,
    lemma_sub_mod_noop,
};
use vstd::arithmetic::power::pow;
use vstd::arithmetic::power2::{lemma_pow2_adds, lemma_pow2_pos, pow2};

/// A bit pattern fits in `w` bits.
pub open spec fn in_width(bits: nat, w: nat) -> bool {
    bits < pow2(w)
}

/// The integer a `w`-bit pattern denotes: plain magnitude when unsigned,
/// two's complement when signed.
pub open spec fn as_int(bits: nat, w: nat, signed: bool) -> int {
    if signed && bits >= pow2((w - 1) as nat) {
        bits - pow2(w)
    } else {
        bits as int
    }
}

/// A mathematical integer is representable in `w` bits under the given
/// signedness.
pub open spec fn in_range(i: int, w: nat, signed: bool) -> bool {
    if signed {
        -(pow2((w - 1) as nat) as int) <= i < pow2((w - 1) as nat) as int
    } else {
        0 <= i < pow2(w) as int
    }
}

/// The `w`-bit pattern a mathematical integer wraps to: reduction modulo
/// `2^w` (two's complement for negative values).
pub open spec fn encode(i: int, w: nat) -> nat {
    (i % (pow2(w) as int)) as nat
}

/// Absolute value, as a natural number.
pub open spec fn iabs(a: int) -> nat {
    if a < 0 {
        (-a) as nat
    } else {
        a as nat
    }
}

/// Truncated (round-toward-zero) division, as fixed-width machine arithmetic
/// defines `/` on signed integers. Callers exclude a zero divisor.
pub open spec fn tdiv(a: int, b: int) -> int {
    if (a < 0) == (b < 0) {
        (iabs(a) / iabs(b)) as int
    } else {
        -((iabs(a) / iabs(b)) as int)
    }
}

/// The remainder matching `tdiv`: its sign follows the dividend.
pub open spec fn trem(a: int, b: int) -> int {
    if a < 0 {
        -((iabs(a) % iabs(b)) as int)
    } else {
        (iabs(a) % iabs(b)) as int
    }
}

/// Number of binary digits of `n` (zero for zero).
pub open spec fn bitlen(n: nat) -> nat
    decreases n,
{
    if n == 0 {
        0
    } else {
        1 + bitlen(n / 2)
    }
}

/// Constraints appended by the square-and-multiply exponentiation gadget for
/// exponent `e`: one multiplication sub-circuit per processed bit, plus one
/// per set bit.
pub open spec fn pow_cost(e: nat) -> nat
    decreases e,
{
    if e == 0 {
        0
    } else {
        (if e % 2 == 1 {
            1nat
        } else {
            0nat
        }) + (if e / 2 > 0 {
            1nat + pow_cost(e / 2)
        } else {
            0nat
        })
    }
}

/// An encoding is always a valid `w`-bit pattern.
pub proof fn lemma_encode_in_width(i: int, w: nat)
    ensures
        in_width(encode(i, w), w),
{
    lemma_pow2_pos(w);
    lemma_mod_bound(i, pow2(w) as int);
}

/// Encoding an integer already in `[0, 2^w)` keeps it.
pub proof fn lemma_encode_small(i: int, w: nat)
    requires
        0 <= i < pow2(w),
    ensures
        encode(i, w) == i,
{
    lemma_pow2_pos(w);
    lemma_small_mod(i as nat, pow2(w));
}

/// Encoding an integer in `[-2^w, 0)` gives its two's complement.
pub proof fn lemma_encode_negative(i: int, w: nat)
    requires
        -(pow2(w) as int) <= i < 0,
    ensures
        encode(i, w) == i + pow2(w),
{
    lemma_pow2_pos(w);
    lemma_mod_add_multiples_vanish(i, pow2(w) as int);
    lemma_small_mod((i + pow2(w)) as nat, pow2(w));
}

/// In a positive width, `2^w` splits as twice `2^(w-1)`.
pub proof fn lemma_pow2_split(w: nat)
    requires
        w >= 1,
    ensures
        pow2(w) == 2 * pow2((w - 1) as nat),
        pow2(w) >= 2,
{
    lemma_pow2_adds(1, (w - 1) as nat);
    lemma_pow2_pos((w - 1) as nat);
    vstd::arithmetic::power2::lemma2_to64();
}

/// What a valid `w`-bit pattern denotes is representable in `w` bits.
pub proof fn lemma_as_int_in_range(bits: nat, w: nat, signed: bool)
    requires
        w >= 1,
        in_width(bits, w),
    ensures
        in_range(as_int(bits, w, signed), w, signed),
{
    lemma_pow2_split(w);
}

/// Encoding a representable integer and reading the pattern back is the
/// identity.
pub proof fn lemma_as_int_encode(i: int, w: nat, signed: bool)
    requires
        w >= 1,
        in_range(i, w, signed),
    ensures
        as_int(encode(i, w), w, signed) == i,
{
    lemma_pow2_split(w);
    if i < 0 {
        lemma_encode_negative(i, w);
    } else {
        lemma_encode_small(i, w);
    }
}

/// The exponentiation gadget's constraint count is bounded by twice the
/// exponent's bit length: it grows with the bit length, never with the
/// exponent's magnitude.
pub proof fn lemma_pow_cost_le_bitlen(e: nat)
    ensures
        pow_cost(e) <= 2 * bitlen(e),
    decreases e,
{
    if e > 0 {
        lemma_pow_cost_le_bitlen(e / 2);
    }
}

/// Any value below `2^k` has bit length at most `k`.
pub proof fn lemma_bitlen_le(n: nat, k: nat)
    requires
        n < pow2(k),
    ensures
        bitlen(n) <= k,
    decreases n,
{
    if n > 0 {
        lemma_pow2_pos(k);
        if k == 0 {
            vstd::arithmetic::power2::lemma2_to64();
        } else {
            lemma_pow2_split(k);
            lemma_bitlen_le(n / 2, (k - 1) as nat);
        }
    }
}

/// A power of a non-negative base is non-negative.
pub proof fn lemma_pow_nonneg(b: int, e: nat)
    requires
        b >= 0,
    ensures
        pow(b, e) >= 0,
    decreases e,
{
    reveal(pow);
    if e > 0 {
        lemma_pow_nonneg(b, (e - 1) as nat);
        vstd::arithmetic::mul::lemma_mul_nonnegative(b, pow(b, (e - 1) as nat));
    }
}

/// Bounds on what any valid pattern of width at most 64 can denote, and on
/// its magnitude.
pub proof fn lemma_as_int_bounds(x: nat, w: nat, signed: bool)
    requires
        1 <= w <= 64,
        in_width(x, w),
    ensures
        -(pow2(63) as int) <= as_int(x, w, signed) < pow2(64) as int,
        iabs(as_int(x, w, signed)) < pow2(w),
        signed ==> iabs(as_int(x, w, signed)) <= pow2((w - 1) as nat),
        as_int(x, w, signed) < 0 ==> iabs(as_int(x, w, signed)) == pow2(w) - x,
        as_int(x, w, signed) >= 0 ==> iabs(as_int(x, w, signed)) == x,
        (as_int(x, w, signed) == 0) == (x == 0),
    decreases w,
{
    lemma_pow2_split(w);
    lemma_as_int_in_range(x, w, signed);
    if w < 64 {
        vstd::arithmetic::power2::lemma_pow2_strictly_increases(w, 64);
    }
    if w - 1 < 63 {
        vstd::arithmetic::power2::lemma_pow2_strictly_increases((w - 1) as nat, 63);
    }
    vstd::arithmetic::power2::lemma2_to64();
}

/// A power of a negated base is the power of the base, negated for odd
/// exponents.
pub proof fn lemma_pow_neg(a: int, e: nat)
    requires
        a >= 0,
    ensures
        pow(-a, e) == if e % 2 == 0 {
            pow(a, e)
        } else {
            -pow(a, e)
        },
    decreases e,
{
    reveal(pow);
    if e > 0 {
        lemma_pow_neg(a, (e - 1) as nat);
        if (e - 1) % 2 == 0 {
            assert((-a) * pow(a, (e - 1) as nat) == -(a * pow(a, (e - 1) as nat)))
                by (nonlinear_arith);
        } else {
            assert((-a) * (-pow(a, (e - 1) as nat)) == a * pow(a, (e - 1) as nat))
                by (nonlinear_arith);
        }
    }
}

/// Powers of a base of at least two dominate the powers of two.
pub proof fn lemma_pow_ge_pow2(b: int, e: nat)
    requires
        b >= 2,
    ensures
        pow(b, e) >= pow2(e),
    decreases e,
{
    reveal(pow);
    vstd::arithmetic::power2::lemma_pow2_pos(e);
    if e == 0 {
        vstd::arithmetic::power2::lemma2_to64();
    } else {
        lemma_pow_ge_pow2(b, (e - 1) as nat);
        lemma_pow2_split(e);
        vstd::arithmetic::power2::lemma_pow2_pos((e - 1) as nat);
        assert(b * pow(b, (e - 1) as nat) >= 2 * pow2((e - 1) as nat)) by (nonlinear_arith)
            requires
                b >= 2,
                pow(b, (e - 1) as nat) >= pow2((e - 1) as nat),
                pow2((e - 1) as nat) >= 1,
        ;
    }
}

/// A pattern's two's-complement reading is congruent to the pattern itself
/// modulo `2^w`.
pub proof fn lemma_as_int_mod(x: nat, w: nat, signed: bool)
    requires
        w >= 1,
        in_width(x, w),
    ensures
        as_int(x, w, signed) % (pow2(w) as int) == x as int % (pow2(w) as int),
{
    lemma_pow2_pos(w);
    if signed && x >= pow2((w - 1) as nat) {
        lemma_mod_sub_multiples_vanish(x as int, pow2(w) as int);
    }
}

/// Wrapped addition of two patterns' readings equals wrapped addition of the
/// patterns: signedness does not matter under reduction modulo `2^w`.
pub proof fn lemma_encode_add(x: nat, y: nat, w: nat, signed: bool)
    requires
        w >= 1,
        in_width(x, w),
        in_width(y, w),
    ensures
        encode(as_int(x, w, signed) + as_int(y, w, signed), w) == encode(x as int + y, w),
{
    let m = pow2(w) as int;
    lemma_pow2_pos(w);
    lemma_as_int_mod(x, w, signed);
    lemma_as_int_mod(y, w, signed);
    lemma_add_mod_noop(as_int(x, w, signed), as_int(y, w, signed), m);
    lemma_add_mod_noop(x as int, y as int, m);
}

/// Wrapped subtraction of readings equals wrapped subtraction of patterns.
pub proof fn lemma_encode_sub(x: nat, y: nat, w: nat, signed: bool)
    requires
        w >= 1,
        in_width(x, w),
        in_width(y, w),
    ensures
        encode(as_int(x, w, signed) - as_int(y, w, signed), w) == encode(x as int - y, w),
{
    let m = pow2(w) as int;
    lemma_pow2_pos(w);
    lemma_as_int_mod(x, w, signed);
    lemma_as_int_mod(y, w, signed);
    lemma_sub_mod_noop(as_int(x, w, signed), as_int(y, w, signed), m);
    lemma_sub_mod_noop(x as int, y as int, m);
}

/// Wrapped multiplication of readings equals wrapped multiplication of
/// patterns.
pub proof fn lemma_encode_mul(x: nat, y: nat, w: nat, signed: bool)
    requires
        w >= 1,
        in_width(x, w),
        in_width(y, w),
    ensures
        encode(as_int(x, w, signed) * as_int(y, w, signed), w) == encode(x as int * y, w),
{
    let m = pow2(w) as int;
    lemma_pow2_pos(w);
    lemma_as_int_mod(x, w, signed);
    lemma_as_int_mod(y, w, signed);
    lemma_mul_mod_noop(as_int(x, w, signed), as_int(y, w, signed), m);
    lemma_mul_mod_noop(x as int, y as int, m);
}

/// Wrapped exponentiation of a pattern's reading equals wrapped
/// exponentiation of the pattern.
pub proof fn lemma_encode_pow(x: nat, e: nat, w: nat, signed: bool)
    requires
        w >= 1,
        in_width(x, w),
    ensures
        encode(pow(as_int(x, w, signed), e), w) == encode(pow(x as int, e), w),
{
    let m = pow2(w) as int;
    lemma_pow2_pos(w);
    lemma_as_int_mod(x, w, signed);
    vstd::arithmetic::power::lemma_pow_mod_noop(as_int(x, w, signed), e, m);
    vstd::arithmetic::power::lemma_pow_mod_noop(x as int, e, m);
}

/// Executable power of two, for widths up to 64.
pub fn pow2_u128(w: u32) -> (r: u128)
    requires
        w <= 64,
    ensures
        r == pow2(w as nat),
{
    let mut r: u128 = 1;
    let mut i: u32 = 0;
    proof {
        vstd::arithmetic::power2::lemma2_to64();
    }
    while i < w
        invariant
            i <= w <= 64,
            r == pow2(i as nat),
        decreases w - i,
    {
        proof {
            lemma_pow2_split((i + 1) as nat);
            vstd::arithmetic::power2::lemma2_to64();
            if (i as nat) < 64 {
                vstd::arithmetic::power2::lemma_pow2_strictly_increases(i as nat, 64);
            }
        }
        r = r * 2;
        i = i + 1;
    }
    r
}

/// Executable two's-complement reading of a `w`-bit pattern.
pub fn as_int_exec(x: u64, w: u32, signed: bool) -> (r: i128)
    requires
        1 <= w <= 64,
        in_width(x as nat, w as nat),
    ensures
        r == as_int(x as nat, w as nat, signed),
{
    if signed {
        let m = pow2_u128(w);
        let half = pow2_u128(w - 1);
        proof {
            lemma_pow2_split(w as nat);
        }
        if (x as u128) >= half {
            (x as i128) - (m as i128)
        } else {
            x as i128
        }
    } else {
        x as i128
    }
}

/// Executable wrapped encoding of an integer already within one width of
/// zero.
pub fn encode_exec(i: i128, w: u32) -> (r: u64)
    requires
        1 <= w <= 64,
        -(pow2(w as nat) as int) <= i < pow2(w as nat) as int,
    ensures
        r as nat == encode(i as int, w as nat),
        in_width(r as nat, w as nat),
{
    let m = pow2_u128(w);
    proof {
        vstd::arithmetic::power2::lemma2_to64();
        if w < 64 {
            vstd::arithmetic::power2::lemma_pow2_strictly_increases(w as nat, 64);
        }
    }
    if i < 0 {
        proof {
            lemma_encode_negative(i as int, w as nat);
        }
        ((m as i128 + i) as u128) as u64
    } else {
        proof {
            lemma_encode_small(i as int, w as nat);
        }
        (i as u128) as u64
    }
}

/// Executable magnitude of a pattern's two's-complement reading.
pub fn magnitude_exec(x: u64, w: u32, signed: bool) -> (mg: u64)
    requires
        1 <= w <= 64,
        in_width(x as nat, w as nat),
    ensures
        mg as nat == iabs(as_int(x as nat, w as nat, signed)),
{
    proof {
        lemma_as_int_bounds(x as nat, w as nat, signed);
    }
    if signed {
        let half = pow2_u128(w - 1);
        if (x as u128) >= half {
            let m = pow2_u128(w);
            proof {
                lemma_pow2_split(w as nat);
            }
            (m - (x as u128)) as u64
        } else {
            x
        }
    } else {
        x
    }
}

/// Executable sign of a pattern's two's-complement reading.
pub fn is_negative_exec(x: u64, w: u32, signed: bool) -> (b: bool)
    requires
        1 <= w <= 64,
        in_width(x as nat, w as nat),
    ensures
        b == (as_int(x as nat, w as nat, signed) < 0),
{
    proof {
        lemma_as_int_bounds(x as nat, w as nat, signed);
    }
    if signed {
        let half = pow2_u128(w - 1);
        (x as u128) >= half
    } else {
        false
    }
}

/// Executable representability test.
pub fn in_range_exec(i: i128, w: u32, signed: bool) -> (b: bool)
    requires
        1 <= w <= 64,
    ensures
        b == in_range(i as int, w as nat, signed),
{
    proof {
        vstd::arithmetic::power2::lemma2_to64();
        if w < 64 {
            vstd::arithmetic::power2::lemma_pow2_strictly_increases(w as nat, 64);
        }
        if w >= 1 {
            lemma_pow2_split(w as nat);
        }
    }
    if signed {
        let half = pow2_u128(w - 1) as i128;
        -half <= i && i < half
    } else {
        let m = pow2_u128(w) as i128;
        0 <= i && i < m
    }
}

} // verus!

//! Numbers of a response, by the bits of the 64-bit float that holds them.
//!
//! The first bit of such a float is its sign, the next eleven are its exponent
//! `e` and the other fifty-two its fraction `f`. An exponent of all ones stands
//! for no finite number. Any other number has the magnitude
//! `(2^52 + f) * 2^(e - 1)`, or just `f` if `e` is zero, counted in units of
//! `2^-1074`.
use vstd::arithmetic::power2::*;
use vstd::prelude::*;

verus! {

/// Two to the power of fifty-two.
pub const FRACTIONS: u64 = 0x10_0000_0000_0000;

/// Two to the power of sixty-three: the sign bit alone.
pub const SIGN: u64 = 0x8000_0000_0000_0000;

/// The bits without the sign.
pub open spec fn unsigned(bits: u64) -> int {
    if bits >= SIGN {
        bits - SIGN
    } else {
        bits as int
    }
}

/// The exponent field.
pub open spec fn exponent(bits: u64) -> int {
    unsigned(bits) / FRACTIONS as int
}

/// The fraction field.
pub open spec fn fraction(bits: u64) -> int {
    unsigned(bits) % FRACTIONS as int
}

/// The bits stand for a finite number.
pub open spec fn is_finite(bits: u64) -> bool {
    exponent(bits) < 2047
}

/// The magnitude of a finite number, in units of `2^-1074`.
pub open spec fn magnitude(bits: u64) -> int {
    if exponent(bits) == 0 {
        fraction(bits)
    } else {
        (FRACTIONS + fraction(bits)) * pow2((exponent(bits) - 1) as nat)
    }
}

/// The bits stand for a finite number from zero to `upper`. There is a negative
/// zero, which is no less than zero.
pub open spec fn within(bits: u64, upper: nat) -> bool {
    &&& is_finite(bits)
    &&& bits >= SIGN ==> magnitude(bits) == 0
    &&& magnitude(bits) <= upper * pow2(1074)
}

/// A larger exponent outweighs any fraction, and among equal exponents the larger
/// fraction counts.
proof fn lemma_magnitude_grows(a: u64, b: u64)
    requires
        a < b < SIGN,
    ensures
        magnitude(a) < magnitude(b),
{
    let (e, f) = (exponent(a), fraction(a));
    let (g, h) = (exponent(b), fraction(b));
    let n = FRACTIONS as int;
    assert(a == e * n + f && b == g * n + h && 0 <= f < n && 0 <= h < n && 0 <= e <= g && (e == g
        ==> f < h)) by (nonlinear_arith)
        requires
            n == 0x10_0000_0000_0000int,
            e == a as int / n,
            f == a as int % n,
            g == b as int / n,
            h == b as int % n,
            a < b,
    ;
    if e == g {
        if e > 0 {
            let p = pow2((e - 1) as nat) as int;
            lemma_pow2_pos((e - 1) as nat);
            assert((n + f) * p < (n + h) * p) by (nonlinear_arith)
                requires
                    f < h,
                    p > 0,
            ;
        }
    } else if e == 0 {
        let p = pow2((g - 1) as nat) as int;
        lemma_pow2_pos((g - 1) as nat);
        assert(f < (n + h) * p) by (nonlinear_arith)
            requires
                f < n,
                0 <= h,
                n > 0,
                p > 0,
        ;
    } else {
        let p = pow2((e - 1) as nat) as int;
        let q = pow2((g - 1) as nat) as int;
        lemma_pow2_pos((e - 1) as nat);
        lemma_pow2_unfold(e as nat);
        if e < g - 1 {
            lemma_pow2_strictly_increases(e as nat, (g - 1) as nat);
        }
        assert(2 * p <= q);
        assert((n + f) * p < (n + h) * q) by (nonlinear_arith)
            requires
                0 <= f < n,
                0 <= h,
                p > 0,
                2 * p <= q,
        ;
    }
}

/// The bits of the float that is the whole number `n`.
pub fn whole(n: u64) -> (r: u64)
    requires
        1 <= n < FRACTIONS,
    ensures
        r < SIGN,
        is_finite(r),
        magnitude(r) == n * pow2(1074),
{
    let mut e: u64 = 0;
    let mut p: u64 = 1;
    let mut s: u64 = FRACTIONS;
    proof {
        lemma2_to64_rest();
        lemma2_to64();
    }
    while n - p >= p
        invariant
            1 <= n < FRACTIONS,
            1 <= p <= n,
            p == pow2(e as nat),
            e <= 52,
            s == pow2((52 - e) as nat),
            p * s == FRACTIONS,
        decreases n - p,
    {
        proof {
            lemma_pow2_unfold((e + 1) as nat);
            if e == 52 {
                lemma2_to64_rest();
            }
            lemma_pow2_unfold((52 - e) as nat);
            assert((2 * p) * (s / 2) == p * s) by (nonlinear_arith)
                requires
                    s % 2 == 0,
            ;
        }
        e = e + 1;
        p = p + p;
        s = s / 2;
    }
    let f: u64 = n - p;
    proof {
        assert(f * s < p * s) by (nonlinear_arith)
            requires
                f < p,
                s > 0,
        ;
    }
    let r: u64 = (1023 + e) * FRACTIONS + f * s;
    proof {
        let k = FRACTIONS as int;
        let x = 1023 + e;
        let y = f * s;
        assert(r as int / k == x && r as int % k == y) by (nonlinear_arith)
            requires
                k == 0x10_0000_0000_0000int,
                r == x * k + y,
                0 <= y < k,
        ;
        assert(k + y == n * s) by (nonlinear_arith)
            requires
                p * s == k,
                y == f * s,
                n == p + f,
        ;
        lemma_pow2_adds((52 - e) as nat, (1022 + e) as nat);
        let t = pow2((1022 + e) as nat) as int;
        assert((n * s) * t == n * (s * t)) by (nonlinear_arith);
    }
    r
}

/// Whether the bits stand for a finite number from zero to `upper`.
pub fn is_within(bits: u64, upper: u64) -> (r: bool)
    requires
        1 <= upper < FRACTIONS,
    ensures
        r == within(bits, upper as nat),
{
    let top: u64 = whole(upper);
    proof {
        lemma_pow2_pos(1074);
        assert(upper * pow2(1074) > 0) by (nonlinear_arith)
            requires
                upper >= 1,
                pow2(1074) > 0,
        ;
        if bits < SIGN {
            if bits < top {
                lemma_magnitude_grows(bits, top);
            }
            if top < bits {
                lemma_magnitude_grows(top, bits);
            }
        } else if bits > SIGN {
            lemma_magnitude_positive(bits);
        }
    }
    bits == SIGN || bits <= top
}

/// Only zero has the magnitude zero.
proof fn lemma_magnitude_positive(bits: u64)
    requires
        unsigned(bits) > 0,
    ensures
        magnitude(bits) > 0,
{
    if exponent(bits) > 0 {
        let p = pow2((exponent(bits) - 1) as nat) as int;
        let m = FRACTIONS + fraction(bits);
        lemma_pow2_pos((exponent(bits) - 1) as nat);
        assert(m * p > 0) by (nonlinear_arith)
            requires
                m > 0,
                p > 0,
        ;
    }
}

/// The bits of the whole number `n`, whose largest power of two is that of `e`.
proof fn lemma_whole(n: u64, e: nat, top: u64)
    requires
        e <= 51,
        pow2(e) <= n < pow2(e + 1),
        top == (1023 + e) * FRACTIONS + (n - pow2(e)) * pow2((52 - e) as nat),
    ensures
        top < SIGN,
        is_finite(top),
        magnitude(top) == n * pow2(1074),
{
    let p = pow2(e) as int;
    let s = pow2((52 - e) as nat) as int;
    let f = n - p;
    let k = FRACTIONS as int;
    lemma2_to64_rest();
    lemma_pow2_unfold(e + 1);
    lemma_pow2_adds(e, (52 - e) as nat);
    lemma_pow2_pos((52 - e) as nat);
    assert(pow2(52) == FRACTIONS);
    assert(p * s == k);
    assert(0 <= f < p);
    assert(0 <= f * s < p * s) by (nonlinear_arith)
        requires
            0 <= f < p,
            s > 0,
    ;
    let x = 1023 + e;
    let y = f * s;
    assert(top as int / k == x && top as int % k == y && x * k + y < 0x8000_0000_0000_0000int)
        by (nonlinear_arith)
        requires
            k == 0x10_0000_0000_0000int,
            top == x * k + y,
            0 <= y < k,
            0 <= x <= 1074,
    ;
    assert(k + y == n * s) by (nonlinear_arith)
        requires
            p * s == k,
            y == f * s,
            f == n - p,
    ;
    lemma_pow2_adds((52 - e) as nat, (1022 + e) as nat);
    let t = pow2((1022 + e) as nat) as int;
    assert((n * s) * t == n * (s * t)) by (nonlinear_arith);
}

/// A number from zero to `n` is told by its bits: they are no greater than those of
/// `n`, or those of the negative zero. The bits of `n` are the power of two of its
/// exponent, and then what is over, shifted to the front of the fraction.
pub proof fn numbers_in_range_are_told_by_their_bits(bits: u64, n: u64, e: nat)
    requires
        e <= 51,
        pow2(e) <= n < pow2(e + 1),
    ensures
        within(bits, n as nat) <==> bits == 0x8000_0000_0000_0000 || bits <= (1023 + e)
            * 0x10_0000_0000_0000 + (n - pow2(e)) * pow2((52 - e) as nat),
{
    let f = n - pow2(e);
    let s = pow2((52 - e) as nat) as int;
    lemma2_to64_rest();
    lemma_pow2_unfold(e + 1);
    lemma_pow2_adds(e, (52 - e) as nat);
    lemma_pow2_pos((52 - e) as nat);
    lemma_pow2_pos(e);
    assert(0 <= f * s < pow2(e) * s) by (nonlinear_arith)
        requires
            0 <= f < pow2(e),
            s > 0,
    ;
    let whole = (1023 + e) * 0x10_0000_0000_0000 + f * s;
    assert(0 <= whole <= u64::MAX);
    let top: u64 = whole as u64;
    lemma_whole(n, e, top);
    lemma_pow2_pos(1074);
    assert(n * pow2(1074) > 0) by (nonlinear_arith)
        requires
            n >= 1,
            pow2(1074) > 0,
    ;
    if bits < SIGN {
        if bits < top {
            lemma_magnitude_grows(bits, top);
        }
        if top < bits {
            lemma_magnitude_grows(top, bits);
        }
        if bits <= top {
            lemma_finite_beneath(bits, top);
        }
    } else if bits > SIGN {
        lemma_magnitude_positive(bits);
    }
}

/// What is no greater than the bits of a finite number is finite.
proof fn lemma_finite_beneath(bits: u64, top: u64)
    requires
        top < SIGN,
        is_finite(top),
        bits <= top,
    ensures
        is_finite(bits),
{
    let k = FRACTIONS as int;
    assert(bits as int / k <= top as int / k) by (nonlinear_arith)
        requires
            bits <= top,
            k == 0x10_0000_0000_0000int,
    ;
}

/// A probability is told by its bits: they are no greater than those of one, or
/// those of the negative zero.
pub proof fn probabilities_are_told_by_their_bits(bits: u64)
    ensures
        within(bits, 1) <==> bits <= 0x3ff0_0000_0000_0000 || bits == 0x8000_0000_0000_0000,
{
    lemma2_to64();
    numbers_in_range_are_told_by_their_bits(bits, 1, 0);
    assert(0int * pow2(52) == 0) by (nonlinear_arith);
    assert(1023 * 0x10_0000_0000_0000int == 0x3ff0_0000_0000_0000int) by (nonlinear_arith);
}

} // verus!

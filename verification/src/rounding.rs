//! Rounding to binary32: the number nearest to an exact rational, ties to
//! even, and the integer arithmetic that finds it.
//!
//! Magnitudes are measured in units of 2^-149, the smallest positive
//! binary32 number. In that unit every finite magnitude is
//! `significand * 2^grade` with a significand below 2^24, and its bit pattern
//! is `grade * 2^23 + significand`.
use vstd::prelude::*;
use vstd::arithmetic::div_mod::*;
use vstd::arithmetic::mul::*;
use vstd::arithmetic::power2::*;

verus! {

/// The bit pattern of infinity; every smaller pattern is a finite magnitude.
pub const INFINITY_BITS: u32 = 0x7f80_0000;

/// The least `e` for which `q` is below `2^24 * 2^e`.
pub open spec fn grade(q: nat) -> nat
    decreases q,
{
    if q < 0x100_0000 {
        0
    } else {
        grade(q / 2) + 1
    }
}

/// The integer nearest to `n / d`; of two equally near, the even one.
pub open spec fn half_even(n: nat, d: nat) -> nat {
    let q = n / d;
    let r = n % d;
    if 2 * r < d || (2 * r == d && q % 2 == 0) {
        q
    } else {
        q + 1
    }
}

/// The bit pattern of the binary32 magnitude nearest to `n / d` units, ties
/// to even; infinity from the overflow threshold on.
pub open spec fn nearest(n: nat, d: nat) -> nat {
    let e = grade(n / d);
    if e >= 254 {
        INFINITY_BITS as nat
    } else {
        e * 0x80_0000 + half_even(n, d * pow2(e))
    }
}

/// The significand of a magnitude.
pub open spec fn significand(mag: nat) -> nat {
    if mag < 0x80_0000 {
        mag
    } else {
        0x80_0000 + mag % 0x80_0000
    }
}

/// The grade of a magnitude: its exponent above that of the unit.
pub open spec fn grade_of(mag: nat) -> nat {
    if mag < 0x80_0000 {
        0
    } else {
        (mag / 0x80_0000 - 1) as nat
    }
}

/// A magnitude in units of 2^-149. Infinity counts as 2^277, one step above
/// the largest finite magnitude.
pub open spec fn units(mag: nat) -> nat {
    significand(mag) * pow2(grade_of(mag))
}

/// Numerator of `m * 2^k`.
pub open spec fn numer(m: nat, k: int) -> nat {
    if k >= 0 {
        m * pow2(k as nat)
    } else {
        m
    }
}

/// Denominator of `m * 2^k`.
pub open spec fn denom(k: int) -> nat {
    if k >= 0 {
        1
    } else {
        pow2((-k) as nat)
    }
}

pub proof fn lemma_pow2_24()
    ensures
        pow2(22) == 0x40_0000,
        pow2(23) == 0x80_0000,
        pow2(24) == 0x100_0000,
        pow2(25) == 0x200_0000,
        pow2(1) == 2,
        pow2(0) == 1,
{
    lemma2_to64();
}

pub proof fn lemma_pow2_le(a: nat, b: nat)
    requires
        a <= b,
    ensures
        0 < pow2(a) <= pow2(b),
{
    lemma_pow2_pos(a);
    if a < b {
        lemma_pow2_strictly_increases(a, b);
    }
}

/// The grade of `q` is fixed by the interval of powers of two that holds it.
pub proof fn lemma_grade(q: nat, e: nat)
    requires
        q < pow2(24 + e),
        e == 0 || pow2((23 + e) as nat) <= q,
    ensures
        grade(q) == e,
    decreases e,
{
    lemma_pow2_24();
    if e > 0 {
        lemma_pow2_unfold(24 + e);
        lemma_pow2_unfold((23 + e) as nat);
        lemma_pow2_le(24, (23 + e) as nat);
        assert((24 + (e - 1)) as nat == (23 + e) as nat);
        assert((23 + (e - 1)) as nat == (22 + e) as nat);
        lemma_grade(q / 2, (e - 1) as nat);
    }
}

/// The same for a rational.
pub proof fn lemma_grade_ratio(n: nat, d: nat, e: nat)
    requires
        d > 0,
        n < pow2(24 + e) * d,
        e == 0 || pow2((23 + e) as nat) * d <= n,
    ensures
        grade(n / d) == e,
{
    let hi = pow2(24 + e);
    lemma_mul_is_commutative(hi as int, d as int);
    lemma_multiply_divide_lt(n as int, d as int, hi as int);
    if e > 0 {
        let lo = pow2((23 + e) as nat);
        lemma_mul_is_commutative(lo as int, d as int);
        lemma_div_is_ordered((lo * d) as int, n as int, d as int);
        lemma_div_by_multiple(lo as int, d as int);
    }
    lemma_div_pos_is_pos(n as int, d as int);
    lemma_grade(n / d, e);
}

/// Quotient and remainder settle the rounded integer.
pub proof fn lemma_half_even(n: nat, d: nat, q: nat, r: nat)
    requires
        r < d,
        n == q * d + r,
    ensures
        half_even(n, d) == if 2 * r < d || (2 * r == d && q % 2 == 0) {
            q
        } else {
            q + 1
        },
{
    lemma_fundamental_div_mod_converse(n as int, d as int, q as int, r as int);
}

/// A common factor does not change the rounded integer.
pub proof fn lemma_half_even_scale(n: nat, d: nat, c: nat)
    requires
        d > 0,
        c > 0,
    ensures
        half_even(n * c, d * c) == half_even(n, d),
        d * c > 0,
{
    let q = n / d;
    let r = n % d;
    lemma_fundamental_div_mod(n as int, d as int);
    assert(n == q * d + r) by {
        lemma_mul_is_commutative(q as int, d as int);
    }
    assert(n * c == q * (d * c) + r * c) by (nonlinear_arith)
        requires
            n == q * d + r,
    ;
    assert(r * c < d * c) by (nonlinear_arith)
        requires
            r < d,
            c > 0,
    ;
    assert((2 * r < d) == (2 * (r * c) < d * c)) by (nonlinear_arith)
        requires
            c > 0,
    ;
    assert((2 * r == d) == (2 * (r * c) == d * c)) by (nonlinear_arith)
        requires
            c > 0,
    ;
    lemma_half_even(n * c, d * c, q, r * c);
}

/// A common factor does not change the nearest magnitude.
pub proof fn lemma_nearest_scale(n: nat, d: nat, c: nat)
    requires
        d > 0,
        c > 0,
    ensures
        nearest(n * c, d * c) == nearest(n, d),
        d * c > 0,
{
    lemma_div_denominator(n as int * c as int, c as int, d as int);
    lemma_mul_is_commutative(n as int, c as int);
    lemma_mul_is_commutative(d as int, c as int);
    assert((n * c) / (d * c) == n / d) by {
        lemma_div_multiples_vanish(n as int, c as int);
        assert((c * n) / c as nat == n);
    }
    let e = grade(n / d);
    lemma_pow2_pos(e);
    assert(d * pow2(e) > 0) by (nonlinear_arith)
        requires
            d > 0,
            pow2(e) > 0,
    ;
    lemma_half_even_scale(n, d * pow2(e), c);
    assert((d * c) * pow2(e) == (d * pow2(e)) * c) by (nonlinear_arith);
    assert(d * c > 0) by (nonlinear_arith)
        requires
            d > 0,
            c > 0,
    ;
}

/// An integer number of units is its own rounding.
pub proof fn lemma_half_even_exact(q: nat, d: nat)
    requires
        d > 0,
    ensures
        half_even(q * d, d) == q,
{
    lemma_half_even(q * d, d, q, 0);
}

/// How `m * 2^k` rounds, for `m` of `l` bits.
pub proof fn lemma_scaled(m: nat, k: int, l: nat)
    requires
        l >= 1,
        pow2((l - 1) as nat) <= m < pow2(l),
    ensures
        ({
            let e: int = if l + k > 24 {
                l + k - 24
            } else {
                0
            };
            let s = e - k;
            &&& denom(k) > 0
            &&& grade(numer(m, k) / denom(k)) == e
            &&& s >= 0 ==> half_even(numer(m, k), denom(k) * pow2(e as nat)) == half_even(
                m,
                pow2(s as nat),
            )
            &&& s < 0 ==> half_even(numer(m, k), denom(k) * pow2(e as nat)) == m * pow2(
                (-s) as nat,
            )
            &&& s < 0 ==> m * pow2((-s) as nat) < 0x100_0000
        }),
{
    let e: int = if l + k > 24 {
        l + k - 24
    } else {
        0
    };
    let s = e - k;
    let n = numer(m, k);
    let d = denom(k);
    lemma_pow2_24();
    if k >= 0 {
        let p = pow2(k as nat);
        lemma_pow2_pos(k as nat);
        lemma_pow2_adds(l, k as nat);
        lemma_pow2_adds((l - 1) as nat, k as nat);
        assert(m * p < pow2(l) * p) by (nonlinear_arith)
            requires
                m < pow2(l),
                p > 0,
        ;
        assert(pow2((l - 1) as nat) * p <= m * p) by (nonlinear_arith)
            requires
                pow2((l - 1) as nat) <= m,
                p > 0,
        ;
        lemma_pow2_le((l + k) as nat, (24 + e) as nat);
        if e > 0 {
            assert((23 + e) as nat == ((l - 1) + k) as nat);
        }
        lemma_grade_ratio(n, d, e as nat);
        if s >= 0 {
            lemma_pow2_pos(s as nat);
            lemma_pow2_adds(s as nat, k as nat);
            assert((s + k) as nat == e as nat);
            lemma_half_even_scale(m, pow2(s as nat), p);
        } else {
            lemma_pow2_pos(e as nat);
            lemma_pow2_adds((-s) as nat, e as nat);
            assert((-s) + e == k);
            assert(m * (pow2((-s) as nat) * pow2(e as nat)) == (m * pow2((-s) as nat)) * pow2(
                e as nat,
            )) by (nonlinear_arith);
            lemma_half_even_exact(m * pow2((-s) as nat), pow2(e as nat));
            // Below 2^24, by comparing the product with 2^(24 + e).
            let a = m * pow2((-s) as nat);
            lemma_pow2_adds(24, e as nat);
            assert(a * pow2(e as nat) < pow2(24) * pow2(e as nat));
            assert(a < pow2(24)) by (nonlinear_arith)
                requires
                    a * pow2(e as nat) < pow2(24) * pow2(e as nat),
                    pow2(e as nat) > 0,
            ;
        }
    } else {
        let j = (-k) as nat;
        lemma_pow2_pos(j);
        lemma_pow2_adds((24 + e) as nat, j);
        lemma_pow2_le(l, (24 + e + j) as nat);
        if e > 0 {
            lemma_pow2_adds((23 + e) as nat, j);
            assert((23 + e + j) as nat == (l - 1) as nat);
        }
        lemma_grade_ratio(n, d, e as nat);
        lemma_pow2_adds(j, e as nat);
        assert((j + e) as nat == s as nat);
    }
}

/// Far below half a unit rounds to nothing.
pub proof fn lemma_half_even_tiny(m: nat, d: nat)
    requires
        2 * m < d,
    ensures
        half_even(m, d) == 0,
{
    lemma_half_even(m, d, 0, m);
}

/// `2^k` as an integer.
pub fn power(k: u32) -> (p: u128)
    requires
        k <= 120,
    ensures
        p == pow2(k as nat),
{
    let mut p: u128 = 1;
    let mut i: u32 = 0;
    proof {
        lemma_pow2_24();
    }
    while i < k
        invariant
            i <= k <= 120,
            p == pow2(i as nat),
        decreases k - i,
    {
        proof {
            lemma_pow2_unfold((i + 1) as nat);
            lemma_pow2_le((i + 1) as nat, 120);
            lemma_pow2_120();
        }
        p = p * 2;
        i = i + 1;
    }
    p
}

pub proof fn lemma_pow2_120()
    ensures
        pow2(120) == 0x1_00_0000_0000_0000_0000_0000_0000_0000int,
        pow2(100) == 0x10_0000_0000_0000_0000_0000_0000int,
{
    lemma2_to64();
    lemma2_to64_rest();
    lemma_pow2_adds(60, 60);
    lemma_pow2_adds(50, 50);
}

/// Every positive integer has a length in bits.
pub proof fn lemma_bit_length(m: nat) -> (l: nat)
    requires
        m > 0,
    ensures
        l >= 1,
        pow2((l - 1) as nat) <= m < pow2(l),
    decreases m,
{
    lemma_pow2_24();
    if m == 1 {
        1
    } else {
        let h = lemma_bit_length(m / 2);
        lemma_pow2_unfold(h);
        lemma_pow2_unfold(h + 1);
        h + 1
    }
}

/// The number of bits of `m`.
fn bit_length(m: u128) -> (l: u32)
    requires
        0 < m < pow2(100),
    ensures
        1 <= l <= 100,
        pow2((l - 1) as nat) <= m < pow2(l as nat),
{
    let mut l: u32 = 1;
    let mut p: u128 = 2;
    proof {
        lemma_pow2_24();
    }
    while p <= m
        invariant
            1 <= l <= 100,
            m < pow2(100),
            p == pow2(l as nat),
            pow2((l - 1) as nat) <= m,
        decreases 100 - l,
    {
        proof {
            if l == 100 {
                assert(false);
            }
            lemma_pow2_unfold((l + 1) as nat);
            lemma_pow2_le((l + 1) as nat, 120);
            lemma_pow2_120();
        }
        p = p * 2;
        l = l + 1;
    }
    l
}

/// The bit pattern of the magnitude nearest to `m * 2^k` units.
pub fn pack(m: u128, k: i32) -> (b: u32)
    requires
        0 < m < pow2(100),
        -1000 <= k <= 1000,
    ensures
        b == nearest(numer(m as nat, k as int), denom(k as int)),
        b <= INFINITY_BITS,
{
    let l: u32 = bit_length(m);
    let t: i32 = l as i32 + k - 24;
    let e: i32 = if t > 0 {
        t
    } else {
        0
    };
    proof {
        lemma_scaled(m as nat, k as int, l as nat);
    }
    if e >= 254 {
        return INFINITY_BITS;
    }
    let s: i32 = e - k;
    let mant: u128;
    if s <= 0 {
        proof {
            lemma_pow2_24();
            let p = pow2((-s) as nat);
            lemma_pow2_pos((-s) as nat);
            if s < 0 {
                assert(p <= m * p) by (nonlinear_arith)
                    requires
                        m >= 1,
                        p > 0,
                {
                }
                assert(p < pow2(24));
                if -s >= 24 {
                    lemma_pow2_le(24, (-s) as nat);
                }
            } else {
                lemma_half_even_exact(m as nat, 1);
                assert(m < 0x100_0000) by {
                    lemma_pow2_le(l as nat, 24);
                }
            }
        }
        let p: u128 = power((-s) as u32);
        mant = m * p;
        proof {
            if s == 0 {
                assert(pow2(0) == 1);
            }
        }
    } else if s > 110 {
        mant = 0;
        proof {
            lemma_pow2_le(110, s as nat);
            lemma_pow2_unfold(101);
            lemma_pow2_le(101, 110);
            lemma_half_even_tiny(m as nat, pow2(s as nat));
        }
    } else {
        let p: u128 = power(s as u32);
        proof {
            lemma_pow2_pos(s as nat);
        }
        let q: u128 = m / p;
        let r: u128 = m % p;
        proof {
            lemma_pow2_le(s as nat, 120);
            lemma_pow2_120();
            lemma_fundamental_div_mod(m as int, p as int);
            lemma_mod_bound(m as int, p as int);
            // q stays below 2^24: m is below 2^(24 + s).
            lemma_pow2_adds(24, s as nat);
            lemma_pow2_le(l as nat, (24 + s) as nat);
            lemma_pow2_24();
            lemma_multiply_divide_lt(m as int, p as int, 0x100_0000);
        }
        mant = if 2 * r < p || (2 * r == p && q % 2 == 0) {
            q
        } else {
            q + 1
        };
    }
    assert(mant <= 0x100_0000);
    assert(mant == half_even(numer(m as nat, k as int), denom(k as int) * pow2(e as nat)));
    (e as u32) * 0x80_0000 + mant as u32
}

} // verus!

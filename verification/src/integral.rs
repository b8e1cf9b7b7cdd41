//! Numbers and integers: rounding to whole numbers, remainders, conversion.
use vstd::prelude::*;
use vstd::arithmetic::div_mod::*;
use vstd::arithmetic::mul::*;
use vstd::arithmetic::power2::*;
use crate::num;
use crate::num::{grade_of, signed, significand, Num};
use crate::rounding;
use crate::rounding::{pack, power, INFINITY_BITS};

verus! {

impl Num {
    /// The whole part of the magnitude.
    pub open spec fn int_part(self) -> nat {
        rounding::units(self.mag()) / pow2(149)
    }

    /// What the magnitude has beyond its whole part, in units of 2^-149.
    pub open spec fn frac_part(self) -> nat {
        rounding::units(self.mag()) % pow2(149)
    }

    /// The number nearest to an integer with a sign.
    pub open spec fn integer(neg: bool, n: nat) -> Num {
        Num::signed(neg, rounding::nearest(n * pow2(149), 1))
    }

    /// The largest whole number that is not above `a`.
    #[verifier::opaque]
    pub open spec fn floored(a: Num) -> Num {
        if a.nan() {
            Num::undefined()
        } else if a.inf() {
            a
        } else if a.neg() && a.frac_part() != 0 {
            Num::integer(true, a.int_part() + 1)
        } else {
            Num::integer(a.neg(), a.int_part())
        }
    }

    /// The smallest whole number that is not below `a`.
    #[verifier::opaque]
    pub open spec fn ceiled(a: Num) -> Num {
        if a.nan() {
            Num::undefined()
        } else if a.inf() {
            a
        } else if !a.neg() && a.frac_part() != 0 {
            Num::integer(false, a.int_part() + 1)
        } else {
            Num::integer(a.neg(), a.int_part())
        }
    }

    /// The nearest whole number, halves away from zero.
    #[verifier::opaque]
    pub open spec fn rounded(a: Num) -> Num {
        if a.nan() {
            Num::undefined()
        } else if a.inf() {
            a
        } else if 2 * a.frac_part() >= pow2(149) {
            Num::integer(a.neg(), a.int_part() + 1)
        } else {
            Num::integer(a.neg(), a.int_part())
        }
    }

    /// The remainder of a division that truncates, with the sign of `a`.
    #[verifier::opaque]
    pub open spec fn remainder(a: Num, b: Num) -> Num {
        if a.nan() || b.nan() || a.inf() || b.mag() == 0 {
            Num::undefined()
        } else if b.inf() {
            a
        } else {
            Num::signed(
                a.neg(),
                rounding::nearest(rounding::units(a.mag()) % rounding::units(b.mag()), 1),
            )
        }
    }

    /// The remainder brought up into `[0, |b|)`.
    pub open spec fn wrapped(a: Num, b: Num) -> Num {
        let r = Num::remainder(a, b);
        if r < Num::nought() {
            r + Num::magnitude(b)
        } else {
            r
        }
    }

    /// The integer towards zero, held inside the range of `i32`; 0 for what is
    /// not a number.
    #[verifier::opaque]
    pub open spec fn truncated(a: Num) -> int {
        let t = a.int_part();
        if a.nan() {
            0
        } else if a.neg() {
            if t > 0x8000_0000 {
                i32::MIN as int
            } else {
                -(t as int)
            }
        } else if t > i32::MAX {
            i32::MAX as int
        } else {
            t as int
        }
    }

    /// Positive infinity.
    pub open spec fn unbounded() -> Num {
        Num { bits: INFINITY_BITS }
    }

    /// The largest finite number.
    pub open spec fn largest() -> Num {
        Num { bits: 0x7f7f_ffff }
    }
}

/// Whole part and rest of `m * 2^g` when one is `2^(g + s)`.
proof fn lemma_parts(m: nat, g: nat, t: nat, r: nat, s: nat)
    requires
        g + s == 149,
        m == t * pow2(s) + r,
        r < pow2(s),
    ensures
        (m * pow2(g)) / pow2(149) == t,
        ((m * pow2(g)) % pow2(149) != 0) == (r != 0),
        (2 * ((m * pow2(g)) % pow2(149)) >= pow2(149)) == (2 * r >= pow2(s)),
{
    let p = pow2(g);
    let w = pow2(s);
    lemma_pow2_adds(s, g);
    lemma_pow2_pos(g);
    assert(m * p == t * (w * p) + r * p) by (nonlinear_arith)
        requires
            m == t * w + r,
    ;
    assert(r * p < w * p) by (nonlinear_arith)
        requires
            r < w,
            p > 0,
    ;
    lemma_fundamental_div_mod_converse(
        (m * p) as int,
        (w * p) as int,
        t as int,
        (r * p) as int,
    );
    assert((r * p != 0) == (r != 0)) by (nonlinear_arith)
        requires
            p > 0,
    ;
    assert((2 * (r * p) >= w * p) == (2 * r >= w)) by (nonlinear_arith)
        requires
            p > 0,
    ;
}

/// A magnitude of a grade from 149 on is whole.
proof fn lemma_whole(mag: nat)
    requires
        mag < INFINITY_BITS,
        rounding::grade_of(mag) >= 149,
    ensures
        rounding::units(mag) % pow2(149) == 0,
        rounding::units(mag) / pow2(149) == rounding::significand(mag) * pow2(
            (rounding::grade_of(mag) - 149) as nat,
        ),
        rounding::nearest((rounding::units(mag) / pow2(149)) * pow2(149), 1) == mag,
        2 * (rounding::units(mag) % pow2(149)) < pow2(149),
{
    let m = rounding::significand(mag);
    let h = (rounding::grade_of(mag) - 149) as nat;
    lemma_pow2_pos(149);
    lemma_pow2_adds(h, 149);
    assert((m * pow2(h)) * pow2(149) == m * (pow2(h) * pow2(149))) by (nonlinear_arith);
    lemma_fundamental_div_mod_converse(
        rounding::units(mag) as int,
        pow2(149) as int,
        (m * pow2(h)) as int,
        0,
    );
    num::lemma_exact(mag);
}

/// Whole part, whether anything is left, and whether at least a half is.
fn parts(mag: u32) -> (r: (u32, bool, bool))
    requires
        mag < INFINITY_BITS,
        rounding::grade_of(mag as nat) < 149,
    ensures
        r.0 == rounding::units(mag as nat) / pow2(149),
        r.0 < 0x100_0000,
        r.1 == (rounding::units(mag as nat) % pow2(149) != 0),
        r.2 == (2 * (rounding::units(mag as nat) % pow2(149)) >= pow2(149)),
{
    let m: u32 = significand(mag);
    let g: u32 = grade_of(mag);
    let s: u32 = 149 - g;
    if s > 24 {
        proof {
            rounding::lemma_pow2_24();
            rounding::lemma_pow2_le(25, s as nat);
            lemma_parts(m as nat, g as nat, 0, m as nat, s as nat);
        }
        (0, m != 0, false)
    } else {
        let p: u128 = power(s);
        proof {
            lemma_pow2_pos(s as nat);
            rounding::lemma_pow2_24();
            rounding::lemma_pow2_le(s as nat, 24);
        }
        let w: u32 = p as u32;
        let t: u32 = m / w;
        let rest: u32 = m % w;
        proof {
            lemma_fundamental_div_mod(m as int, w as int);
            lemma_mul_is_commutative(w as int, t as int);
            lemma_mod_bound(m as int, w as int);
            lemma_div_is_ordered_by_denominator(m as int, 1, w as int);
            lemma_parts(m as nat, g as nat, t as nat, rest as nat, s as nat);
        }
        (t, rest != 0, 2 * rest >= w)
    }
}

fn integer(neg: bool, t: u32) -> (r: Num)
    ensures
        r == Num::integer(neg, t as nat),
{
    proof {
        num::lemma_nearest_zero(1);
        assert(0 * pow2(149) == 0);
        rounding::lemma_pow2_120();
    }
    if t == 0 {
        signed(neg, 0)
    } else {
        signed(neg, pack(t as u128, 149))
    }
}

impl Num {
    /// Rounds down to a whole number.
    pub fn floor(self) -> (r: Num)
        ensures
            r == Num::floored(self),
    {
        proof {
            reveal(Num::floored);
            reveal(Num::nan);
        }
        let mag: u32 = self.bits % 0x8000_0000;
        let neg: bool = self.bits >= 0x8000_0000;
        if mag > INFINITY_BITS {
            Num { bits: 0x7fc0_0000 }
        } else if mag == INFINITY_BITS {
            self
        } else if grade_of(mag) >= 149 {
            proof {
                lemma_whole(mag as nat);
            }
            self
        } else {
            let (t, rest, _) = parts(mag);
            integer(
                neg,
                if neg && rest {
                    t + 1
                } else {
                    t
                },
            )
        }
    }

    /// Rounds up to a whole number.
    pub fn ceil(self) -> (r: Num)
        ensures
            r == Num::ceiled(self),
    {
        proof {
            reveal(Num::ceiled);
            reveal(Num::nan);
        }
        let mag: u32 = self.bits % 0x8000_0000;
        let neg: bool = self.bits >= 0x8000_0000;
        if mag > INFINITY_BITS {
            Num { bits: 0x7fc0_0000 }
        } else if mag == INFINITY_BITS {
            self
        } else if grade_of(mag) >= 149 {
            proof {
                lemma_whole(mag as nat);
            }
            self
        } else {
            let (t, rest, _) = parts(mag);
            integer(
                neg,
                if !neg && rest {
                    t + 1
                } else {
                    t
                },
            )
        }
    }

    /// Rounds to the nearest whole number, halves away from zero.
    pub fn round(self) -> (r: Num)
        ensures
            r == Num::rounded(self),
    {
        proof {
            reveal(Num::rounded);
            reveal(Num::nan);
        }
        let mag: u32 = self.bits % 0x8000_0000;
        let neg: bool = self.bits >= 0x8000_0000;
        if mag > INFINITY_BITS {
            Num { bits: 0x7fc0_0000 }
        } else if mag == INFINITY_BITS {
            self
        } else if grade_of(mag) >= 149 {
            proof {
                lemma_whole(mag as nat);
            }
            self
        } else {
            let (t, _, half) = parts(mag);
            integer(
                neg,
                if half {
                    t + 1
                } else {
                    t
                },
            )
        }
    }

    /// The remainder of a division that truncates.
    pub fn rem(self, o: Num) -> (r: Num)
        ensures
            r == Num::remainder(self, o),
    {
        proof {
            reveal(Num::remainder);
            reveal(Num::nan);
        }
        let a: u32 = self.bits % 0x8000_0000;
        let b: u32 = o.bits % 0x8000_0000;
        let neg: bool = self.bits >= 0x8000_0000;
        if a >= INFINITY_BITS || b > INFINITY_BITS || b == 0 {
            return Num { bits: 0x7fc0_0000 };
        }
        if b == INFINITY_BITS {
            return self;
        }
        let ma: u32 = significand(a);
        let ga: u32 = grade_of(a);
        let mb: u32 = significand(b);
        let gb: u32 = grade_of(b);
        proof {
            num::lemma_decode(a as nat);
            num::lemma_decode(b as nat);
            lemma_pow2_pos(ga as nat);
            lemma_pow2_pos(gb as nat);
        }
        if ga < gb {
            proof {
                let pa = pow2(ga as nat);
                let pb = pow2(gb as nat);
                lemma_pow2_unfold(gb as nat);
                rounding::lemma_pow2_le(ga as nat, (gb - 1) as nat);
                assert(ma * pa < mb * pb) by (nonlinear_arith)
                    requires
                        ma < 0x100_0000,
                        mb >= 0x80_0000,
                        pb >= 2 * pa,
                        pa > 0,
                ;
                lemma_small_mod(
                    rounding::units(a as nat),
                    rounding::units(b as nat),
                );
                num::lemma_exact(a as nat);
            }
            return self;
        }
        let d: u32 = ga - gb;
        let mut rest: u32 = ma % mb;
        let mut i: u32 = 0;
        proof {
            rounding::lemma_pow2_24();
            assert(ma * pow2(0) == ma) by (nonlinear_arith)
                requires
                    pow2(0) == 1,
            ;
        }
        while i < d
            invariant
                i <= d,
                0 < mb < 0x100_0000,
                rest < mb,
                rest == (ma * pow2(i as nat)) % mb as int,
            decreases d - i,
        {
            proof {
                lemma_pow2_unfold((i + 1) as nat);
                let x = ma * pow2(i as nat);
                assert(ma * pow2((i + 1) as nat) == 2 * x) by (nonlinear_arith)
                    requires
                        pow2((i + 1) as nat) == 2 * pow2(i as nat),
                        x == ma * pow2(i as nat),
                ;
                lemma_mul_mod_noop_right(2, x, mb as int);
            }
            rest = (2 * rest) % mb;
            i = i + 1;
        }
        proof {
            let p = pow2(gb as nat);
            let x = ma * pow2(d as nat);
            let q = x / mb as int;
            lemma_fundamental_div_mod(x, mb as int);
            lemma_pow2_adds(d as nat, gb as nat);
            assert(x * p == q * (mb * p) + rest * p) by (nonlinear_arith)
                requires
                    x == mb * q + rest,
            ;
            assert(rest * p < mb * p) by (nonlinear_arith)
                requires
                    rest < mb,
                    p > 0,
            ;
            assert((ma * pow2(d as nat)) * p == ma * (pow2(d as nat) * p)) by (nonlinear_arith);
            lemma_fundamental_div_mod_converse(x * p, mb * p, q, rest * p);
            assert(rounding::units(a as nat) % rounding::units(b as nat) == rest * p);
            assert(rest == 0 ==> rest * p == 0) by (nonlinear_arith);
            num::lemma_nearest_zero(1);
            rounding::lemma_pow2_120();
        }
        if rest == 0 {
            signed(neg, 0)
        } else {
            signed(neg, pack(rest as u128, gb as i32))
        }
    }

    /// The remainder brought up into `[0, |o|)`.
    pub fn rem_euclid(self, o: Num) -> (r: Num)
        ensures
            r == Num::wrapped(self, o),
    {
        let r = self.rem(o);
        if r < Num::zero() {
            r + o.abs()
        } else {
            r
        }
    }

    /// The integer towards zero, held inside the range of `i32`.
    pub fn to_i32(self) -> (r: i32)
        ensures
            r == Num::truncated(self),
    {
        proof {
            reveal(Num::truncated);
            reveal(Num::nan);
        }
        let mag: u32 = self.bits % 0x8000_0000;
        let neg: bool = self.bits >= 0x8000_0000;
        if mag > INFINITY_BITS {
            return 0;
        }
        if mag == INFINITY_BITS {
            proof {
                assert(rounding::significand(mag as nat) == 0x80_0000);
                assert(rounding::grade_of(mag as nat) == 254);
                rounding::lemma_pow2_24();
                lemma2_to64();
                lemma_pow2_pos(149);
                lemma_pow2_adds(105, 149);
                rounding::lemma_pow2_le(32, 105);
                let p = pow2(105);
                assert(0x80_0000 * (p * pow2(149)) == (0x80_0000 * p) * pow2(149))
                    by (nonlinear_arith);
                assert(rounding::units(mag as nat) == (0x80_0000 * p) * pow2(149));
                lemma_fundamental_div_mod_converse(
                    rounding::units(mag as nat) as int,
                    pow2(149) as int,
                    (0x80_0000 * p) as int,
                    0,
                );
                assert(self.int_part() == 0x80_0000 * p);
                assert(0x80_0000 * p > 0x8000_0000) by (nonlinear_arith)
                    requires
                        p >= 0x1_0000_0000,
                ;
            }
            return if neg {
                i32::MIN
            } else {
                i32::MAX
            };
        }
        let g: u32 = grade_of(mag);
        if g < 149 {
            let (t, _, _) = parts(mag);
            return if neg {
                -(t as i32)
            } else {
                t as i32
            };
        }
        let m: u32 = significand(mag);
        proof {
            lemma_whole(mag as nat);
            num::lemma_decode(mag as nat);
            lemma2_to64();
        }
        if g - 149 >= 32 {
            proof {
                let h = (g - 149) as nat;
                rounding::lemma_pow2_le(32, h);
                assert(m * pow2(h) > 0x8000_0000) by (nonlinear_arith)
                    requires
                        m >= 0x80_0000,
                        pow2(h) >= 0x1_0000_0000,
                ;
            }
            return if neg {
                i32::MIN
            } else {
                i32::MAX
            };
        }
        let p: u128 = power(g - 149);
        proof {
            rounding::lemma_pow2_le((g - 149) as nat, 32);
            assert(0 <= m * p <= 0x100_0000 * 0x1_0000_0000) by (nonlinear_arith)
                requires
                    m < 0x100_0000,
                    p <= 0x1_0000_0000,
            ;
        }
        let t: u128 = (m as u128) * p;
        if neg {
            if t >= 0x8000_0000 {
                i32::MIN
            } else {
                -(t as i32)
            }
        } else if t > 0x7fff_ffff {
            i32::MAX
        } else {
            t as i32
        }
    }

    /// Positive infinity.
    pub fn infinity() -> (r: Num)
        ensures
            r == Num::unbounded(),
    {
        Num { bits: INFINITY_BITS }
    }

    /// The largest finite number.
    pub fn max_value() -> (r: Num)
        ensures
            r == Num::largest(),
    {
        Num { bits: 0x7f7f_ffff }
    }
}

} // verus!

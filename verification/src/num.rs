//! Numbers: IEEE 754 binary32, held by bit pattern and computed in integers.
//!
//! Every operation is the exact one rounded to nearest, ties to even, so the
//! results agree bit for bit with hardware `f32`. A result that is not a
//! number is always the same pattern. The definitions of the operations are
//! opaque: layout is stated over them and needs none of their arithmetic.
use vstd::prelude::*;
use vstd::arithmetic::div_mod::*;
use vstd::arithmetic::mul::*;
use vstd::arithmetic::power2::*;
use crate::rounding;
use crate::rounding::{pack, power, INFINITY_BITS};

verus! {

/// A binary32 number.
#[derive(Clone, Copy, Debug)]
pub struct Num {
    /// The IEEE 754 bit pattern.
    pub bits: u32,
}

impl Num {
    /// The pattern without the sign.
    pub open spec fn mag(self) -> nat {
        (self.bits % 0x8000_0000) as nat
    }

    /// The sign bit.
    pub open spec fn neg(self) -> bool {
        self.bits >= 0x8000_0000
    }

    /// Not a number.
    #[verifier::opaque]
    pub open spec fn nan(self) -> bool {
        self.mag() > INFINITY_BITS
    }

    /// Plus or minus infinity.
    pub open spec fn inf(self) -> bool {
        self.mag() == INFINITY_BITS
    }

    /// The value in units of 2^-149.
    pub open spec fn units(self) -> int {
        if self.neg() {
            -(rounding::units(self.mag()) as int)
        } else {
            rounding::units(self.mag()) as int
        }
    }

    /// A key that orders the numbers as their values do.
    #[verifier::opaque]
    pub open spec fn rank(self) -> int {
        if self.neg() {
            -(self.mag() as int)
        } else {
            self.mag() as int
        }
    }

    /// The number of a sign and a magnitude.
    pub open spec fn signed(neg: bool, mag: nat) -> Num {
        Num {
            bits: (if neg {
                mag + 0x8000_0000
            } else {
                mag
            }) as u32,
        }
    }

    /// The pattern of every result that is not a number.
    pub open spec fn undefined() -> Num {
        Num { bits: 0x7fc0_0000 }
    }

    /// The sum of two numbers.
    #[verifier::opaque]
    pub open spec fn sum(a: Num, b: Num) -> Num {
        if a.nan() || b.nan() || (a.inf() && b.inf() && a.neg() != b.neg()) {
            Num::undefined()
        } else if a.inf() {
            a
        } else if b.inf() {
            b
        } else {
            let s = a.units() + b.units();
            if s == 0 {
                Num::signed(a.neg() && b.neg(), 0)
            } else if s < 0 {
                Num::signed(true, rounding::nearest((-s) as nat, 1))
            } else {
                Num::signed(false, rounding::nearest(s as nat, 1))
            }
        }
    }

    /// The number with the opposite sign.
    #[verifier::opaque]
    pub open spec fn negated(a: Num) -> Num {
        Num::signed(!a.neg(), a.mag())
    }

    /// The product of two numbers.
    #[verifier::opaque]
    pub open spec fn product(a: Num, b: Num) -> Num {
        let neg = a.neg() != b.neg();
        if a.nan() || b.nan() || (a.inf() && b.mag() == 0) || (b.inf() && a.mag() == 0) {
            Num::undefined()
        } else if a.inf() || b.inf() {
            Num::signed(neg, INFINITY_BITS as nat)
        } else {
            Num::signed(
                neg,
                rounding::nearest(
                    rounding::units(a.mag()) * rounding::units(b.mag()),
                    pow2(149),
                ),
            )
        }
    }

    /// The quotient of two numbers.
    #[verifier::opaque]
    pub open spec fn quotient(a: Num, b: Num) -> Num {
        let neg = a.neg() != b.neg();
        if a.nan() || b.nan() || (a.inf() && b.inf()) || (a.mag() == 0 && b.mag() == 0) {
            Num::undefined()
        } else if a.inf() || b.mag() == 0 {
            Num::signed(neg, INFINITY_BITS as nat)
        } else if b.inf() {
            Num::signed(neg, 0)
        } else {
            Num::signed(
                neg,
                rounding::nearest(
                    rounding::units(a.mag()) * pow2(149),
                    rounding::units(b.mag()),
                ),
            )
        }
    }

    /// The number nearest to an integer.
    #[verifier::opaque]
    pub open spec fn whole(n: int) -> Num {
        if n < 0 {
            Num::signed(true, rounding::nearest((-n) as nat * pow2(149), 1))
        } else {
            Num::signed(false, rounding::nearest(n as nat * pow2(149), 1))
        }
    }

    /// The number nearest to a fraction of two small integers.
    pub open spec fn ratio(p: int, q: int) -> Num {
        Num::quotient(Num::whole(p), Num::whole(q))
    }

    pub open spec fn spec_add(self, o: Num) -> Num {
        Num::sum(self, o)
    }

    pub open spec fn spec_sub(self, o: Num) -> Num {
        Num::sum(self, Num::negated(o))
    }

    pub open spec fn spec_mul(self, o: Num) -> Num {
        Num::product(self, o)
    }

    pub open spec fn spec_euclidean_or_real_div(self, o: Num) -> Num {
        Num::quotient(self, o)
    }

    pub open spec fn spec_lt(self, o: Num) -> bool {
        !self.nan() && !o.nan() && self.rank() < o.rank()
    }

    pub open spec fn spec_le(self, o: Num) -> bool {
        !self.nan() && !o.nan() && self.rank() <= o.rank()
    }

    pub open spec fn spec_gt(self, o: Num) -> bool {
        !self.nan() && !o.nan() && self.rank() > o.rank()
    }

    pub open spec fn spec_ge(self, o: Num) -> bool {
        !self.nan() && !o.nan() && self.rank() >= o.rank()
    }

    /// Equality of values: the two zeros are equal, and what is not a number
    /// equals nothing.
    pub open spec fn same(self, o: Num) -> bool {
        !self.nan() && !o.nan() && self.rank() == o.rank()
    }

    /// The larger number, or the one that is a number.
    pub open spec fn larger(a: Num, b: Num) -> Num {
        if a.nan() || a < b {
            b
        } else {
            a
        }
    }

    /// The smaller number, or the one that is a number.
    pub open spec fn smaller(a: Num, b: Num) -> Num {
        if a.nan() || b < a {
            b
        } else {
            a
        }
    }

    /// The number without its sign.
    #[verifier::opaque]
    pub open spec fn magnitude(a: Num) -> Num {
        Num::signed(false, a.mag())
    }

    /// Zero.
    pub open spec fn nought() -> Num {
        Num { bits: 0 }
    }
}

/// The parts of a finite magnitude.
pub proof fn lemma_decode(mag: nat)
    requires
        mag < INFINITY_BITS,
    ensures
        rounding::significand(mag) < 0x100_0000,
        rounding::grade_of(mag) <= 253,
        rounding::grade_of(mag) > 0 ==> rounding::significand(mag) >= 0x80_0000,
        rounding::grade_of(mag) * 0x80_0000 + rounding::significand(mag) == mag,
        (rounding::significand(mag) == 0) == (mag == 0),
        (rounding::units(mag) == 0) == (mag == 0),
{
    let g = rounding::grade_of(mag);
    let m = rounding::significand(mag);
    lemma_pow2_pos(g);
    if m > 0 {
        assert(m * pow2(g) > 0) by (nonlinear_arith)
            requires
                m > 0,
                pow2(g) > 0,
        ;
    } else {
        assert(0 * pow2(g) == 0);
    }
}

/// A finite magnitude is its own nearest magnitude.
pub proof fn lemma_exact(mag: nat)
    requires
        mag < INFINITY_BITS,
    ensures
        rounding::nearest(rounding::units(mag), 1) == mag,
{
    let g = rounding::grade_of(mag);
    let m = rounding::significand(mag);
    lemma_decode(mag);
    rounding::lemma_pow2_24();
    lemma_pow2_pos(g);
    lemma_pow2_adds(24, g);
    let p = pow2(g);
    assert(m * p < 0x100_0000 * p) by (nonlinear_arith)
        requires
            m < 0x100_0000,
            p > 0,
    ;
    if g > 0 {
        lemma_pow2_adds(23, g);
        assert(0x80_0000 * p <= m * p) by (nonlinear_arith)
            requires
                m >= 0x80_0000,
                p > 0,
    ;
    }
    rounding::lemma_grade_ratio(m * p, 1, g);
    rounding::lemma_half_even_exact(m, p);
}

/// Larger patterns are larger magnitudes.
pub proof fn lemma_units_increase(a: nat, b: nat)
    requires
        a < b <= INFINITY_BITS,
    ensures
        rounding::units(a) < rounding::units(b),
{
    let ga = rounding::grade_of(a);
    let gb = rounding::grade_of(b);
    let ma = rounding::significand(a);
    let mb = rounding::significand(b);
    assert(ga <= gb);
    lemma_pow2_pos(ga);
    lemma_pow2_pos(gb);
    let pa = pow2(ga);
    let pb = pow2(gb);
    if ga == gb {
        assert(ma < mb);
        assert(ma * pa < mb * pa) by (nonlinear_arith)
            requires
                ma < mb,
                pa > 0,
        ;
    } else {
        lemma_pow2_unfold(gb);
        rounding::lemma_pow2_le(ga, (gb - 1) as nat);
        assert(ma < 0x100_0000 && mb >= 0x80_0000);
        assert(ma * pa < mb * pb) by (nonlinear_arith)
            requires
                ma < 0x100_0000,
                mb >= 0x80_0000,
                pb >= 2 * pa,
                pa > 0,
        ;
    }
}

/// Comparing ranks is comparing values.
pub proof fn lemma_rank_is_value(a: Num, b: Num)
    requires
        !a.nan(),
        !b.nan(),
    ensures
        a.rank() < b.rank() <==> a.units() < b.units(),
        a.rank() == b.rank() <==> a.units() == b.units(),
{
    reveal(Num::rank);
    reveal(Num::nan);
    let x = a.mag();
    let y = b.mag();
    if x < y {
        lemma_units_increase(x, y);
    }
    if y < x {
        lemma_units_increase(y, x);
    }
    lemma_pow2_pos(0);
    assert(rounding::units(0) == 0) by {
        assert(rounding::significand(0) == 0);
    }
    if x > 0 {
        lemma_units_increase(0, x);
    }
    if y > 0 {
        lemma_units_increase(0, y);
    }
}

/// A finite number minus itself is zero.
pub proof fn lemma_minus_itself(a: Num)
    requires
        !a.nan(),
        !a.inf(),
    ensures
        (a - a).same(Num::nought()),
{
    reveal(Num::nan);
    reveal(Num::rank);
    reveal(Num::sum);
    reveal(Num::negated);
    let b = Num::negated(a);
    assert(b.mag() == a.mag());
    assert(b.neg() != a.neg());
}

/// Nothing rounds to zero.
pub proof fn lemma_nearest_zero(d: nat)
    requires
        d > 0,
    ensures
        rounding::nearest(0, d) == 0,
{
    lemma_div_basics(d as int);
    rounding::lemma_pow2_24();
    assert(d * pow2(0) == d);
    rounding::lemma_half_even(0, d, 0, 0);
}

/// A magnitude plus or minus something far below its last place.
proof fn lemma_far(m: nat, g: nat, l: nat)
    requires
        0x80_0000 <= m < 0x100_0000,
        0 < g <= 253,
        4 * l < pow2(g),
    ensures
        rounding::nearest(m * pow2(g) + l, 1) == g * 0x80_0000 + m,
        m * pow2(g) - l > 0,
        rounding::nearest((m * pow2(g) - l) as nat, 1) == g * 0x80_0000 + m,
{
    let p = pow2(g);
    rounding::lemma_pow2_24();
    lemma_pow2_pos(g);
    lemma_pow2_adds(24, g);
    lemma_pow2_adds(23, g);
    assert(m * p + p <= 0x100_0000 * p) by (nonlinear_arith)
        requires
            m < 0x100_0000,
            p > 0,
    ;
    assert(0x80_0000 * p <= m * p) by (nonlinear_arith)
        requires
            m >= 0x80_0000,
            p > 0,
    ;
    rounding::lemma_grade_ratio(m * p + l, 1, g);
    rounding::lemma_half_even(m * p + l, p, m, l);
    let n = (m * p - l) as nat;
    if l == 0 {
    } else if m > 0x80_0000 {
        assert(0x80_0000 * p <= (m - 1) * p && (m - 1) * p + p == m * p) by (nonlinear_arith)
            requires
                m > 0x80_0000,
                p > 0,
        ;
        rounding::lemma_grade_ratio(n, 1, g);
        rounding::lemma_half_even(n, p, (m - 1) as nat, (p - l) as nat);
    } else {
        let h = (g - 1) as nat;
        lemma_pow2_unfold(g);
        let q = pow2(h);
        lemma_pow2_pos(h);
        lemma_pow2_adds(24, h);
        lemma_pow2_adds(23, h);
        assert(m * p == 0x100_0000 * q) by (nonlinear_arith)
            requires
                m == 0x80_0000,
                p == 2 * q,
        ;
        rounding::lemma_grade_ratio(n, 1, h);
        rounding::lemma_half_even(n, q, 0xff_ffff, (q - l) as nat);
    }
}

/// A product of decoded magnitudes rounds as the product of their values.
proof fn lemma_product(ma: nat, ga: nat, mb: nat, gb: nat)
    ensures
        ({
            let k = ga + gb - 149;
            rounding::nearest(
                rounding::numer(ma * mb, k),
                rounding::denom(k),
            ) == rounding::nearest((ma * pow2(ga)) * (mb * pow2(gb)), pow2(149))
        }),
{
    let k = ga + gb - 149;
    let m = ma * mb;
    lemma_pow2_adds(ga, gb);
    lemma_pow2_pos(149);
    lemma_pow2_pos(ga + gb);
    let pa = pow2(ga);
    let pb = pow2(gb);
    assert((ma * pa) * (mb * pb) == (ma * mb) * (pa * pb)) by (nonlinear_arith);
    if k >= 0 {
        let j = k as nat;
        lemma_pow2_adds(j, 149);
        assert((m * pow2(j)) * pow2(149) == m * (pow2(j) * pow2(149))) by (nonlinear_arith);
        rounding::lemma_nearest_scale(m * pow2(j), 1, pow2(149));
    } else {
        let j = (-k) as nat;
        lemma_pow2_pos(j);
        lemma_pow2_adds(j, ga + gb);
        rounding::lemma_nearest_scale(m, pow2(j), pow2(ga + gb));
    }
}

/// Rounding a quotient: two bits below the last place and a mark that says
/// whether anything is left round as the exact quotient does.
proof fn lemma_sticky(n: nat, d: nat, q: nat, r: nat, t: nat)
    requires
        n == q * d + r,
        r < d,
        t >= 2,
        t % 2 == 0,
    ensures
        rounding::half_even(
            2 * q + if r == 0 {
                0nat
            } else {
                1nat
            },
            2 * t,
        ) == rounding::half_even(n, d * t),
{
    if r == 0 {
        rounding::lemma_half_even_scale(q, t, d);
        rounding::lemma_half_even_scale(q, t, 2);
        assert(t * d == d * t) by (nonlinear_arith);
        assert(q * 2 == 2 * q && t * 2 == 2 * t);
    } else {
        let a = q / t;
        let b = q % t;
        lemma_fundamental_div_mod(q as int, t as int);
        lemma_mul_is_commutative(t as int, a as int);
        lemma_mod_bound(q as int, t as int);
        assert(2 * q + 1 == a * (2 * t) + (2 * b + 1)) by (nonlinear_arith)
            requires
                q == a * t + b,
        ;
        rounding::lemma_half_even(2 * q + 1, 2 * t, a, 2 * b + 1);
        assert(n == a * (d * t) + (b * d + r)) by (nonlinear_arith)
            requires
                n == q * d + r,
                q == a * t + b,
        ;
        assert(b * d + r < d * t) by (nonlinear_arith)
            requires
                r < d,
                b + 1 <= t,
        ;
        if 2 * b + 1 < t {
            assert(2 * (b * d + r) < d * t) by (nonlinear_arith)
                requires
                    2 * b + 2 <= t,
                    r < d,
            ;
        } else {
            assert(2 * b + 1 != t);
            assert(2 * (b * d + r) > d * t) by (nonlinear_arith)
                requires
                    2 * b >= t,
                    r > 0,
                    d > 0,
            ;
        }
        rounding::lemma_half_even(n, d * t, a, b * d + r);
    }
}

/// A quotient of decoded magnitudes rounds as the quotient of their values.
#[verifier::rlimit(40)]
proof fn lemma_quotient(ma: nat, ga: nat, mb: nat, gb: nat, q: nat, r: nat, m: nat, l: nat)
    requires
        0 < ma < 0x100_0000,
        0 < mb < 0x100_0000,
        ma * pow2(64) == q * mb + r,
        r < mb,
        m == 2 * q + if r == 0 {
            0nat
        } else {
            1nat
        },
        26 < l,
        pow2((l - 1) as nat) <= m < pow2(l),
    ensures
        ({
            let k = ga - gb + 84;
            rounding::nearest(rounding::numer(m, k), rounding::denom(k)) == rounding::nearest(
                (ma * pow2(ga)) * pow2(149),
                mb * pow2(gb),
            )
        }),
{
    let k = ga - gb + 84;
    rounding::lemma_scaled(m, k, l);
    let e: int = if l + k > 24 {
        l + k - 24
    } else {
        0
    };
    let s = e - k;
    assert(s >= 2);
    let n = ma * pow2(64);
    let t = pow2((s - 1) as nat);
    let c = pow2(ga + 85);
    lemma_pow2_pos(ga + 85);
    lemma_pow2_pos(gb);
    lemma_pow2_pos(e as nat);
    lemma_pow2_unfold(s as nat);
    lemma_pow2_unfold((s - 1) as nat);
    rounding::lemma_pow2_le(1, (s - 1) as nat);
    rounding::lemma_pow2_24();
    lemma_sticky(n, mb, q, r, t);
    let n0 = (ma * pow2(ga)) * pow2(149);
    let d0 = mb * pow2(gb);
    let de = d0 * pow2(e as nat);
    // Both fractions are the same up to the factor c.
    assert(n0 == n * c) by {
        lemma_pow2_adds(64, ga + 85);
        lemma_pow2_adds(ga, 149);
        assert((ma * pow2(ga)) * pow2(149) == ma * (pow2(ga) * pow2(149))) by (nonlinear_arith);
        assert((ma * pow2(64)) * c == ma * (pow2(64) * c)) by (nonlinear_arith);
        assert(64 + (ga + 85) == ga + 149);
    }
    assert(de == (mb * t) * c) by {
        lemma_pow2_adds(gb, e as nat);
        lemma_pow2_adds((s - 1) as nat, ga + 85);
        assert((s - 1) as nat + (ga + 85) == gb + e);
        assert((mb * pow2(gb)) * pow2(e as nat) == mb * (pow2(gb) * pow2(e as nat)))
            by (nonlinear_arith);
        assert((mb * t) * c == mb * (t * c)) by (nonlinear_arith);
    }
    assert(mb * t > 0) by (nonlinear_arith)
        requires
            mb > 0,
            t > 0,
    ;
    rounding::lemma_half_even_scale(n, mb * t, c);
    // The grade, from 2^(l-1) * mb <= 2 * n < 2^l * mb.
    let lo = pow2((l - 1) as nat);
    lemma_pow2_unfold(l);
    lemma_pow2_unfold((l - 1) as nat);
    let hi = pow2(l);
    assert(2 * n < hi * mb && lo * mb <= 2 * n) by {
        if r == 0 {
            assert(2 * n < hi * mb && lo * mb <= 2 * n) by (nonlinear_arith)
                requires
                    n == q * mb,
                    lo <= 2 * q < hi,
                    mb > 0,
            ;
        } else {
            assert(lo <= 2 * q);
            assert(2 * q + 2 <= hi);
            assert(2 * n < hi * mb && lo * mb <= 2 * n) by (nonlinear_arith)
                requires
                    n == q * mb + r,
                    r < mb,
                    lo <= 2 * q,
                    2 * q + 2 <= hi,
                    mb > 0,
            ;
        }
    }
    let w = pow2((24 + s) as nat);
    lemma_pow2_adds(24, s as nat);
    lemma_pow2_adds((24 + e) as nat, 0);
    rounding::lemma_pow2_le(l, (24 + s) as nat);
    assert(n < 0x100_0000 * (mb * t)) by (nonlinear_arith)
        requires
            2 * n < hi * mb,
            hi <= 0x100_0000 * (2 * t),
            mb > 0,
    ;
    lemma_pow2_adds(24, e as nat);
    assert(n * c < (0x100_0000 * (mb * t)) * c) by (nonlinear_arith)
        requires
            n < 0x100_0000 * (mb * t),
            c > 0,
    ;
    assert((0x100_0000 * (mb * t)) * c == 0x100_0000 * ((mb * t) * c)) by (nonlinear_arith);
    assert(0x100_0000 * (d0 * pow2(e as nat)) == (0x100_0000 * pow2(e as nat)) * d0)
        by (nonlinear_arith);
    assert(n0 < pow2((24 + e) as nat) * d0);
    if e > 0 {
        assert((l - 1) as nat == (23 + s) as nat);
        lemma_pow2_adds(23, s as nat);
        assert(0x80_0000 * (mb * t) <= n) by (nonlinear_arith)
            requires
                lo * mb <= 2 * n,
                lo == 0x80_0000 * (2 * t),
        ;
        lemma_pow2_adds(23, e as nat);
        assert((0x80_0000 * (mb * t)) * c <= n * c) by (nonlinear_arith)
            requires
                0x80_0000 * (mb * t) <= n,
                c > 0,
        ;
        assert((0x80_0000 * (mb * t)) * c == 0x80_0000 * ((mb * t) * c)) by (nonlinear_arith);
        assert(0x80_0000 * (d0 * pow2(e as nat)) == (0x80_0000 * pow2(e as nat)) * d0)
            by (nonlinear_arith);
        assert(pow2((23 + e) as nat) * d0 <= n0);
    }
    assert(d0 > 0) by (nonlinear_arith)
        requires
            mb > 0,
            pow2(gb) > 0,
            d0 == mb * pow2(gb),
    ;
    rounding::lemma_grade_ratio(n0, d0, e as nat);
}

pub(crate) fn significand(mag: u32) -> (m: u32)
    requires
        mag < INFINITY_BITS,
    ensures
        m == rounding::significand(mag as nat),
        m < 0x100_0000,
{
    if mag < 0x80_0000 {
        mag
    } else {
        0x80_0000 + mag % 0x80_0000
    }
}

pub(crate) fn grade_of(mag: u32) -> (g: u32)
    requires
        mag < INFINITY_BITS,
    ensures
        g == rounding::grade_of(mag as nat),
        g <= 253,
{
    if mag < 0x80_0000 {
        0
    } else {
        mag / 0x80_0000 - 1
    }
}

pub(crate) fn signed(neg: bool, mag: u32) -> (r: Num)
    requires
        mag < 0x8000_0000,
    ensures
        r == Num::signed(neg, mag as nat),
{
    Num {
        bits: if neg {
            mag + 0x8000_0000
        } else {
            mag
        },
    }
}

/// The sum of two finite magnitudes with signs, the first of the larger grade.
fn add_ordered(na: bool, a: u32, nb: bool, b: u32) -> (r: Num)
    requires
        b < INFINITY_BITS,
        a < INFINITY_BITS,
        rounding::grade_of(a as nat) >= rounding::grade_of(b as nat),
    ensures
        ({
            let ua = if na {
                -(rounding::units(a as nat) as int)
            } else {
                rounding::units(a as nat) as int
            };
            let ub = if nb {
                -(rounding::units(b as nat) as int)
            } else {
                rounding::units(b as nat) as int
            };
            let s = ua + ub;
            r == if s == 0 {
                Num::signed(na && nb, 0)
            } else if s < 0 {
                Num::signed(true, rounding::nearest((-s) as nat, 1))
            } else {
                Num::signed(false, rounding::nearest(s as nat, 1))
            }
        }),
{
    let ma: u32 = significand(a);
    let ga: u32 = grade_of(a);
    let mb: u32 = significand(b);
    let gb: u32 = grade_of(b);
    let d: u32 = ga - gb;
    proof {
        lemma_decode(a as nat);
        lemma_decode(b as nat);
        lemma_pow2_pos(ga as nat);
        lemma_pow2_pos(gb as nat);
    }
    let ghost pb = pow2(gb as nat);
    if d <= 64 {
        let p: u128 = power(d);
        proof {
            rounding::lemma_pow2_24();
            rounding::lemma_pow2_le(d as nat, 64);
            lemma2_to64();
            lemma2_to64_rest();
            rounding::lemma_pow2_120();
            assert(0 <= ma * p < 0x100_0000_0000_0000_0000_0000int) by (nonlinear_arith)
                requires
                    ma < 0x100_0000,
                    0 < p <= 0x1_0000_0000_0000_0000int,
            ;
        }
        let x: u128 = (ma as u128) * p;
        let y: u128 = mb as u128;
        let ghost k = gb as int;
        proof {
            lemma_pow2_adds(d as nat, gb as nat);
            assert((ma * p) * pb == ma * (p * pb)) by (nonlinear_arith);
            assert(x * pb == rounding::units(a as nat));
            assert(y * pb == rounding::units(b as nat));
            assert((x + y) * pb == x * pb + y * pb) by (nonlinear_arith);
            assert((x - y) * pb == x * pb - y * pb) by (nonlinear_arith);
            assert((y - x) * pb == y * pb - x * pb) by (nonlinear_arith);
            if x > y {
                assert((x - y) * pb > 0) by (nonlinear_arith)
                    requires
                        x > y,
                        pb > 0,
                ;
            }
            if y > x {
                assert((y - x) * pb > 0) by (nonlinear_arith)
                    requires
                        y > x,
                        pb > 0,
                ;
            }
            if x + y > 0 {
                assert((x + y) * pb > 0) by (nonlinear_arith)
                    requires
                        x + y > 0,
                        pb > 0,
                ;
            }
        }
        if na == nb {
            let m: u128 = x + y;
            if m == 0 {
                signed(na, 0)
            } else {
                signed(na, pack(m, gb as i32))
            }
        } else if x == y {
            signed(false, 0)
        } else if x > y {
            signed(na, pack(x - y, gb as i32))
        } else {
            signed(nb, pack(y - x, gb as i32))
        }
    } else {
        proof {
            // The lower operand is far below the last place of the higher.
            let l = rounding::units(b as nat);
            rounding::lemma_pow2_24();
            lemma_pow2_adds(gb as nat, 26);
            lemma_pow2_adds(24, 2);
            rounding::lemma_pow2_le((gb + 26) as nat, ga as nat);
            lemma2_to64();
            assert(mb * pb < 0x100_0000 * pb) by (nonlinear_arith)
                requires
                    mb < 0x100_0000,
                    pb > 0,
            ;
            assert(4 * l < pow2(ga as nat));
            lemma_far(ma as nat, ga as nat, l);
        }
        signed(na, a)
    }
}

impl Num {
    /// The number of a bit pattern.
    pub fn from_bits(bits: u32) -> (r: Num)
        ensures
            r.bits == bits,
    {
        Num { bits }
    }

    /// The bit pattern of the number.
    pub fn to_bits(self) -> (r: u32)
        ensures
            r == self.bits,
    {
        self.bits
    }

    /// Zero.
    pub fn zero() -> (r: Num)
        ensures
            r == Num::nought(),
    {
        Num { bits: 0 }
    }

    /// Whether the pattern is not a number.
    pub fn is_nan(self) -> (r: bool)
        ensures
            r == self.nan(),
    {
        proof {
            reveal(Num::nan);
        }
        self.bits % 0x8000_0000 > INFINITY_BITS
    }

    /// Whether the number is finite.
    pub fn is_finite(self) -> (r: bool)
        ensures
            r == (!self.nan() && !self.inf()),
    {
        proof {
            reveal(Num::nan);
        }
        self.bits % 0x8000_0000 < INFINITY_BITS
    }

    fn plus(self, o: Num) -> (r: Num)
        ensures
            r == Num::sum(self, o),
    {
        proof {
            reveal(Num::sum);
            reveal(Num::nan);
        }
        let a: u32 = self.bits % 0x8000_0000;
        let b: u32 = o.bits % 0x8000_0000;
        let na: bool = self.bits >= 0x8000_0000;
        let nb: bool = o.bits >= 0x8000_0000;
        if a > INFINITY_BITS || b > INFINITY_BITS {
            Num { bits: 0x7fc0_0000 }
        } else if a == INFINITY_BITS {
            if b == INFINITY_BITS && na != nb {
                Num { bits: 0x7fc0_0000 }
            } else {
                self
            }
        } else if b == INFINITY_BITS {
            o
        } else if grade_of(a) >= grade_of(b) {
            add_ordered(na, a, nb, b)
        } else {
            add_ordered(nb, b, na, a)
        }
    }

    /// The number with the opposite sign.
    pub fn negate(self) -> (r: Num)
        ensures
            r == Num::negated(self),
    {
        proof {
            reveal(Num::negated);
        }
        signed(self.bits < 0x8000_0000, self.bits % 0x8000_0000)
    }

    fn times(self, o: Num) -> (r: Num)
        ensures
            r == Num::product(self, o),
    {
        proof {
            reveal(Num::product);
            reveal(Num::nan);
        }
        let a: u32 = self.bits % 0x8000_0000;
        let b: u32 = o.bits % 0x8000_0000;
        let neg: bool = (self.bits >= 0x8000_0000) != (o.bits >= 0x8000_0000);
        if a > INFINITY_BITS || b > INFINITY_BITS || (a == INFINITY_BITS && b == 0) || (b
            == INFINITY_BITS && a == 0) {
            return Num { bits: 0x7fc0_0000 };
        }
        if a == INFINITY_BITS || b == INFINITY_BITS {
            return signed(neg, INFINITY_BITS);
        }
        let ma: u32 = significand(a);
        let ga: u32 = grade_of(a);
        let mb: u32 = significand(b);
        let gb: u32 = grade_of(b);
        proof {
            lemma_decode(a as nat);
            lemma_decode(b as nat);
            lemma_pow2_pos(149);
        }
        if a == 0 || b == 0 {
            proof {
                lemma_nearest_zero(pow2(149));
                let ua = rounding::units(a as nat);
                let ub = rounding::units(b as nat);
                assert(ua * ub == 0) by (nonlinear_arith)
                    requires
                        ua == 0 || ub == 0,
                ;
            }
            return signed(neg, 0);
        }
        proof {
            assert(0 < ma * mb < 0x1_0000_0000_0000) by (nonlinear_arith)
                requires
                    0 < ma < 0x100_0000,
                    0 < mb < 0x100_0000,
            ;
            lemma_product(ma as nat, ga as nat, mb as nat, gb as nat);
            rounding::lemma_pow2_120();
        }
        signed(neg, pack((ma as u128) * (mb as u128), ga as i32 + gb as i32 - 149))
    }

    fn over(self, o: Num) -> (r: Num)
        ensures
            r == Num::quotient(self, o),
    {
        proof {
            reveal(Num::quotient);
            reveal(Num::nan);
        }
        let a: u32 = self.bits % 0x8000_0000;
        let b: u32 = o.bits % 0x8000_0000;
        let neg: bool = (self.bits >= 0x8000_0000) != (o.bits >= 0x8000_0000);
        if a > INFINITY_BITS || b > INFINITY_BITS || (a == INFINITY_BITS && b == INFINITY_BITS)
            || (a == 0 && b == 0) {
            return Num { bits: 0x7fc0_0000 };
        }
        if a == INFINITY_BITS || b == 0 {
            return signed(neg, INFINITY_BITS);
        }
        if b == INFINITY_BITS {
            return signed(neg, 0);
        }
        let ma: u32 = significand(a);
        let ga: u32 = grade_of(a);
        let mb: u32 = significand(b);
        let gb: u32 = grade_of(b);
        proof {
            lemma_decode(a as nat);
            lemma_decode(b as nat);
        }
        if a == 0 {
            proof {
                lemma_nearest_zero(rounding::units(b as nat));
                assert(0 * pow2(149) == 0);
            }
            return signed(neg, 0);
        }
        proof {
            lemma2_to64();
            lemma2_to64_rest();
            rounding::lemma_pow2_120();
        }
        let n: u128 = (ma as u128) * 0x1_0000_0000_0000_0000;
        let q: u128 = n / (mb as u128);
        let rest: u128 = n % (mb as u128);
        proof {
            lemma_fundamental_div_mod(n as int, mb as int);
            lemma_mul_is_commutative(mb as int, q as int);
            assert(q <= n) by {
                lemma_div_is_ordered_by_denominator(n as int, 1, mb as int);
            }
            assert(q >= 0x100_0000_0000) by {
                // n is at least 2^64 and mb is below 2^24.
                if q < 0x100_0000_0000 {
                    assert(q * mb + mb <= 0x100_0000_0000 * 0x100_0000) by (nonlinear_arith)
                        requires
                            q + 1 <= 0x100_0000_0000,
                            mb < 0x100_0000,
                    ;
                }
            }
        }
        let m: u128 = if rest == 0 {
            2 * q
        } else {
            2 * q + 1
        };
        proof {
            let l = rounding::lemma_bit_length(m as nat);
            if l <= 26 {
                rounding::lemma_pow2_le(l, 26);
            }
            lemma_quotient(
                ma as nat,
                ga as nat,
                mb as nat,
                gb as nat,
                q as nat,
                rest as nat,
                m as nat,
                l,
            );
        }
        signed(neg, pack(m, ga as i32 - gb as i32 + 84))
    }

    /// The number nearest to an integer.
    pub fn of(n: i32) -> (r: Num)
        ensures
            r == Num::whole(n as int),
    {
        proof {
            reveal(Num::whole);
            lemma_nearest_zero(1);
            assert(0 * pow2(149) == 0);
            rounding::lemma_pow2_120();
        }
        if n == 0 {
            signed(false, 0)
        } else if n < 0 {
            signed(true, pack((-(n as i64)) as u128, 149))
        } else {
            signed(false, pack(n as u128, 149))
        }
    }

    /// The number nearest to a count.
    pub fn from_usize(n: usize) -> (r: Num)
        ensures
            r == Num::whole(n as int),
    {
        proof {
            reveal(Num::whole);
            lemma_nearest_zero(1);
            assert(0 * pow2(149) == 0);
            rounding::lemma_pow2_120();
        }
        if n == 0 {
            signed(false, 0)
        } else {
            signed(false, pack(n as u128, 149))
        }
    }

    /// The number nearest to the fraction `p / q`.
    pub fn frac(p: i32, q: i32) -> (r: Num)
        ensures
            r == Num::ratio(p as int, q as int),
    {
        Num::of(p).over(Num::of(q))
    }

    /// The larger of two numbers; of one that is not a number, the other.
    pub fn max(self, o: Num) -> (r: Num)
        ensures
            r == Num::larger(self, o),
    {
        if self.is_nan() || self < o {
            o
        } else {
            self
        }
    }

    /// The smaller of two numbers; of one that is not a number, the other.
    pub fn min(self, o: Num) -> (r: Num)
        ensures
            r == Num::smaller(self, o),
    {
        if self.is_nan() || o < self {
            o
        } else {
            self
        }
    }

    /// The magnitude.
    pub fn abs(self) -> (r: Num)
        ensures
            r == Num::magnitude(self),
    {
        proof {
            reveal(Num::magnitude);
        }
        signed(false, self.bits % 0x8000_0000)
    }

    fn order_key(self) -> (r: i64)
        ensures
            r == self.rank(),
    {
        proof {
            reveal(Num::rank);
        }
        if self.bits >= 0x8000_0000 {
            -((self.bits % 0x8000_0000) as i64)
        } else {
            (self.bits % 0x8000_0000) as i64
        }
    }
}

impl Default for Num {
    fn default() -> (r: Num)
        ensures
            r == Num::nought(),
    {
        Num { bits: 0 }
    }
}

impl PartialEq for Num {
    fn eq(&self, other: &Num) -> (r: bool) {
        !self.is_nan() && !other.is_nan() && self.order_key() == other.order_key()
    }
}

impl vstd::std_specs::cmp::PartialEqSpecImpl for Num {
    open spec fn obeys_eq_spec() -> bool {
        true
    }

    open spec fn eq_spec(&self, other: &Num) -> bool {
        self.same(*other)
    }
}

impl PartialOrd for Num {
    fn partial_cmp(&self, other: &Num) -> (r: Option<core::cmp::Ordering>) {
        if self.is_nan() || other.is_nan() {
            return None;
        }
        let a: i64 = self.order_key();
        let b: i64 = other.order_key();
        if a < b {
            Some(core::cmp::Ordering::Less)
        } else if a == b {
            Some(core::cmp::Ordering::Equal)
        } else {
            Some(core::cmp::Ordering::Greater)
        }
    }
}

impl vstd::std_specs::cmp::PartialOrdSpecImpl for Num {
    open spec fn obeys_partial_cmp_spec() -> bool {
        true
    }

    open spec fn partial_cmp_spec(&self, other: &Num) -> Option<core::cmp::Ordering> {
        if self.nan() || other.nan() {
            None
        } else if self.rank() < other.rank() {
            Some(core::cmp::Ordering::Less)
        } else if self.rank() == other.rank() {
            Some(core::cmp::Ordering::Equal)
        } else {
            Some(core::cmp::Ordering::Greater)
        }
    }
}

impl core::ops::Add for Num {
    type Output = Num;

    fn add(self, o: Num) -> (r: Num) {
        self.plus(o)
    }
}

impl vstd::std_specs::ops::AddSpecImpl for Num {
    open spec fn obeys_add_spec() -> bool {
        true
    }

    open spec fn add_req(self, o: Num) -> bool {
        true
    }

    open spec fn add_spec(self, o: Num) -> Num {
        Num::sum(self, o)
    }
}

impl core::ops::Sub for Num {
    type Output = Num;

    fn sub(self, o: Num) -> (r: Num) {
        self.plus(o.negate())
    }
}

impl vstd::std_specs::ops::SubSpecImpl for Num {
    open spec fn obeys_sub_spec() -> bool {
        true
    }

    open spec fn sub_req(self, o: Num) -> bool {
        true
    }

    open spec fn sub_spec(self, o: Num) -> Num {
        Num::sum(self, Num::negated(o))
    }
}

impl core::ops::Mul for Num {
    type Output = Num;

    fn mul(self, o: Num) -> (r: Num) {
        self.times(o)
    }
}

impl vstd::std_specs::ops::MulSpecImpl for Num {
    open spec fn obeys_mul_spec() -> bool {
        true
    }

    open spec fn mul_req(self, o: Num) -> bool {
        true
    }

    open spec fn mul_spec(self, o: Num) -> Num {
        Num::product(self, o)
    }
}

impl core::ops::Div for Num {
    type Output = Num;

    fn div(self, o: Num) -> (r: Num) {
        self.over(o)
    }
}

impl vstd::std_specs::ops::DivSpecImpl for Num {
    open spec fn obeys_div_spec() -> bool {
        true
    }

    open spec fn div_req(self, o: Num) -> bool {
        true
    }

    open spec fn div_spec(self, o: Num) -> Num {
        Num::quotient(self, o)
    }
}

} // verus!

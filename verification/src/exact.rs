//! Where arithmetic on numbers is exact, and what rounding leaves in order.
use vstd::prelude::*;
use vstd::arithmetic::div_mod::*;
use vstd::arithmetic::power2::*;
use crate::num::{self, Num};
use crate::rounding::{self, INFINITY_BITS};

verus! {

impl Num {
    /// Neither infinite nor undefined.
    pub open spec fn finite(self) -> bool {
        !self.nan() && !self.inf()
    }

    /// Whether the sum of two numbers needs no rounding.
    pub open spec fn adds(a: Num, b: Num) -> bool {
        &&& a.finite() && b.finite() && (a + b).finite()
        &&& (a + b).units() == a.units() + b.units()
    }

    /// Whether the difference of two numbers needs no rounding.
    pub open spec fn subtracts(a: Num, b: Num) -> bool {
        &&& a.finite() && b.finite() && (a - b).finite()
        &&& (a - b).units() == a.units() - b.units()
    }

    /// A finite number above zero.
    pub open spec fn positive(self) -> bool {
        self.finite() && !self.neg() && self.mag() > 0
    }

    /// The whole part of the value, towards negative infinity.
    pub open spec fn steps(self) -> int {
        self.units() / pow2(149) as int
    }

    /// Whether this is a whole number with whole numbers beside it.
    pub open spec fn counts(self) -> bool {
        &&& self.finite()
        &&& self.units() == self.steps() * pow2(149)
        &&& -0x80_0000 < self.steps() < 0x80_0000
    }
}

/// Infinity is a number, and no number is above it.
pub proof fn lemma_unbounded()
    ensures
        !Num::unbounded().nan(),
        forall|a: Num| !a.nan() ==> #[trigger] a.rank() <= Num::unbounded().rank(),
{
    reveal(Num::nan);
    reveal(Num::rank);
}

/// The two zeros add alike.
pub proof fn lemma_same_sum(a: Num, b: Num, h: Num)
    requires
        a.same(b),
    ensures
        (a + h).nan() == (b + h).nan(),
        (a + h).rank() == (b + h).rank(),
{
    reveal(Num::nan);
    reveal(Num::rank);
    reveal(Num::sum);
    if a != b {
        assert(a.mag() == 0 && b.mag() == 0);
        num::lemma_decode(0);
    }
}

/// Adding zero changes no value.
pub proof fn lemma_nothing_added(a: Num)
    requires
        !a.nan(),
    ensures
        (Num::nought() + a).same(a),
{
    reveal(Num::nan);
    reveal(Num::rank);
    reveal(Num::sum);
    num::lemma_decode(0);
    if !a.inf() {
        num::lemma_decode(a.mag());
        num::lemma_exact(a.mag());
    }
}

/// A sum that is itself a number is exact.
pub proof fn lemma_adds(a: Num, b: Num, c: Num)
    requires
        a.finite(),
        b.finite(),
        c.finite(),
        c.units() == a.units() + b.units(),
    ensures
        Num::adds(a, b),
        (a + b).same(c),
{
    reveal(Num::nan);
    reveal(Num::rank);
    reveal(Num::sum);
    num::lemma_decode(c.mag());
    num::lemma_exact(c.mag());
    num::lemma_decode(0);
}

/// Positive integers below 2^24 are numbers.
pub proof fn lemma_positive_whole(k: nat)
    requires
        0 < k < 0x100_0000,
    ensures
        rounding::nearest(k * pow2(149), 1) < INFINITY_BITS,
        rounding::units(rounding::nearest(k * pow2(149), 1)) == k * pow2(149),
{
    rounding::lemma_pow2_24();
    let l = rounding::lemma_bit_length(k);
    if l > 24 {
        rounding::lemma_pow2_le(24, (l - 1) as nat);
    }
    let s = (24 - l) as nat;
    let e = (125 + l) as nat;
    let q = k * pow2(s);
    lemma_pow2_pos(s);
    lemma_pow2_adds(l, s);
    lemma_pow2_adds((l - 1) as nat, s);
    lemma_pow2_adds(s, e);
    assert((l - 1) as nat + s == 23);
    assert(0x80_0000 <= q < 0x100_0000) by (nonlinear_arith)
        requires
            q == k * pow2(s),
            pow2((l - 1) as nat) <= k < pow2(l),
            pow2((l - 1) as nat) * pow2(s) == 0x80_0000,
            pow2(l) * pow2(s) == 0x100_0000,
            pow2(s) > 0,
    ;
    let mag = e * 0x80_0000 + q;
    assert(mag / 0x80_0000 == e + 1 && mag % 0x80_0000 == q - 0x80_0000);
    assert(rounding::grade_of(mag) == e && rounding::significand(mag) == q);
    assert(q * pow2(e) == k * pow2(149)) by (nonlinear_arith)
        requires
            q == k * pow2(s),
            pow2(s) * pow2(e) == pow2(149),
    ;
    num::lemma_exact(mag);
}

/// Integers below 2^24 are numbers.
pub proof fn lemma_whole(n: int)
    requires
        -0x100_0000 < n < 0x100_0000,
    ensures
        Num::whole(n).finite(),
        Num::whole(n).units() == n * pow2(149),
{
    reveal(Num::whole);
    reveal(Num::nan);
    num::lemma_decode(0);
    num::lemma_nearest_zero(1);
    if n > 0 {
        lemma_positive_whole(n as nat);
    } else if n < 0 {
        lemma_positive_whole((-n) as nat);
        assert((-n) * pow2(149) == -(n * pow2(149))) by (nonlinear_arith);
        assert(((-n) as nat) * pow2(149) == (-n) * pow2(149));
    } else {
        assert(0 * pow2(149) == 0) by (nonlinear_arith);
        assert((n as nat) * pow2(149) == 0);
    }
}

/// Adding one to a whole number counts one up.
pub proof fn lemma_count_up(c: Num)
    requires
        c.counts(),
    ensures
        (c + Num::whole(1)).finite(),
        (c + Num::whole(1)).units() == (c.steps() + 1) * pow2(149),
        c < c + Num::whole(1),
{
    let p = pow2(149) as int;
    lemma_pow2_pos(149);
    lemma_whole(1);
    lemma_whole(c.steps() + 1);
    assert((c.steps() + 1) * p == c.steps() * p + p) by (nonlinear_arith);
    lemma_adds(c, Num::whole(1), Num::whole(c.steps() + 1));
    num::lemma_rank_is_value(c, c + Num::whole(1));
}

/// A finite number that is a multiple of one has that many steps.
pub proof fn lemma_steps(a: Num, n: int)
    requires
        a.units() == n * pow2(149),
    ensures
        a.steps() == n,
{
    lemma_pow2_pos(149);
    lemma_div_multiples_vanish(n, pow2(149) as int);
}

/// Whole numbers compare as their steps do.
pub proof fn lemma_compare_steps(a: Num, b: Num)
    requires
        a.finite(),
        b.finite(),
        a.units() == a.steps() * pow2(149),
        b.units() == b.steps() * pow2(149),
    ensures
        a < b <==> a.steps() < b.steps(),
        a <= b <==> a.steps() <= b.steps(),
{
    lemma_pow2_pos(149);
    let p = pow2(149) as int;
    let x = a.steps();
    let y = b.steps();
    assert(x < y <==> x * p < y * p) by (nonlinear_arith)
        requires
            p > 0,
    ;
    num::lemma_rank_is_value(a, b);
}

/// The interval of powers of two that holds `q`, by its grade.
proof fn lemma_grade_bounds(q: nat)
    ensures
        q < pow2(24 + rounding::grade(q)),
        rounding::grade(q) > 0 ==> pow2((23 + rounding::grade(q)) as nat) <= q,
    decreases q,
{
    rounding::lemma_pow2_24();
    if q >= 0x100_0000 {
        let e = rounding::grade(q / 2);
        lemma_grade_bounds(q / 2);
        lemma_pow2_unfold((24 + e + 1) as nat);
        lemma_pow2_unfold((23 + e + 1) as nat);
        assert((24 + e + 1 - 1) as nat == 24 + e);
        assert((23 + e + 1 - 1) as nat == 23 + e);
        if e == 0 {
            assert(q / 2 >= 0x80_0000);
        }
    }
}

proof fn lemma_grade_order(a: nat, b: nat)
    requires
        a <= b,
    ensures
        rounding::grade(a) <= rounding::grade(b),
    decreases b,
{
    if a >= 0x100_0000 {
        lemma_grade_order(a / 2, b / 2);
    }
}

proof fn lemma_half_even_order(a: nat, b: nat, d: nat)
    requires
        d > 0,
        a <= b,
    ensures
        rounding::half_even(a, d) <= rounding::half_even(b, d),
{
    lemma_div_is_ordered(a as int, b as int, d as int);
    lemma_fundamental_div_mod(a as int, d as int);
    lemma_fundamental_div_mod(b as int, d as int);
    if a / d == b / d {
        assert(a % d <= b % d);
    }
}

/// The significand that a rounding gives, by the grade of the quotient.
proof fn lemma_significand_range(n: nat, d: nat)
    requires
        d > 0,
    ensures
        ({
            let e = rounding::grade(n / d);
            let s = rounding::half_even(n, d * pow2(e));
            &&& s <= 0x100_0000
            &&& e > 0 ==> s >= 0x80_0000
        }),
{
    let q = n / d;
    let e = rounding::grade(q);
    let p = pow2(e);
    lemma_pow2_pos(e);
    rounding::lemma_pow2_24();
    lemma_grade_bounds(q);
    lemma_pow2_adds(24, e);
    lemma_pow2_adds(23, e);
    lemma_fundamental_div_mod(n as int, d as int);
    lemma_mod_bound(n as int, d as int);
    let c = d * p;
    assert(c > 0) by (nonlinear_arith)
        requires
            c == d * p,
            d > 0,
            p > 0,
    ;
    assert(n < 0x100_0000 * c) by (nonlinear_arith)
        requires
            c == d * p,
            n < d * q + d,
            q + 1 <= 0x100_0000 * p,
            d > 0,
    ;
    lemma_multiply_divide_lt(n as int, c as int, 0x100_0000);
    if e > 0 {
        assert(0x80_0000 * c <= n) by (nonlinear_arith)
            requires
                c == d * p,
                n >= d * q,
                q >= 0x80_0000 * p,
                d > 0,
        ;
        lemma_div_is_ordered((0x80_0000 * c) as int, n as int, c as int);
        lemma_div_multiples_vanish(0x80_0000, c as int);
    }
}

/// Rounding keeps the order of values over one denominator.
proof fn lemma_nearest_order(a: nat, b: nat, d: nat)
    requires
        d > 0,
        a <= b,
    ensures
        rounding::nearest(a, d) <= rounding::nearest(b, d),
        rounding::nearest(a, d) <= INFINITY_BITS,
{
    lemma_div_is_ordered(a as int, b as int, d as int);
    let ea = rounding::grade(a / d);
    let eb = rounding::grade(b / d);
    lemma_grade_order(a / d, b / d);
    lemma_significand_range(a, d);
    lemma_significand_range(b, d);
    if ea == eb {
        lemma_pow2_pos(ea);
        assert(d * pow2(ea) > 0) by (nonlinear_arith)
            requires
                d > 0,
                pow2(ea) > 0,
        ;
        lemma_half_even_order(a, b, d * pow2(ea));
    }
}

/// Rounding keeps the order of fractions.
pub proof fn lemma_rounding_keeps_order(a: nat, c: nat, b: nat, d: nat)
    requires
        c > 0,
        d > 0,
        a * d <= b * c,
    ensures
        rounding::nearest(a, c) <= rounding::nearest(b, d),
        rounding::nearest(a, c) <= INFINITY_BITS,
        rounding::nearest(b, d) <= INFINITY_BITS,
{
    rounding::lemma_nearest_scale(a, c, d);
    rounding::lemma_nearest_scale(b, d, c);
    assert(c * d == d * c && c * d > 0) by (nonlinear_arith)
        requires
            c > 0,
            d > 0,
    ;
    lemma_nearest_order(a * d, b * c, c * d);
    lemma_nearest_order(b, b, d);
}

/// A sum does not depend on the order of its terms.
pub proof fn lemma_sum_commutes(a: Num, b: Num)
    ensures
        a + b == b + a,
{
    reveal(Num::nan);
    reveal(Num::sum);
}

/// A finite number added to a number gives one, and so does one taken away.
pub proof fn lemma_finite_terms(a: Num, h: Num)
    requires
        !a.nan(),
        h.finite(),
    ensures
        !(a + h).nan(),
        !(h + a).nan(),
        !(a - h).nan(),
        Num::negated(h).finite(),
{
    reveal(Num::nan);
    reveal(Num::sum);
    reveal(Num::negated);
    let n = Num::negated(h);
    let s = a.units() + h.units();
    let t = a.units() + n.units();
    lemma_rounding_keeps_order((-s) as nat, 1, (-s) as nat, 1);
    lemma_rounding_keeps_order(s as nat, 1, s as nat, 1);
    lemma_rounding_keeps_order((-t) as nat, 1, (-t) as nat, 1);
    lemma_rounding_keeps_order(t as nat, 1, t as nat, 1);
}

/// Between finite numbers there are only finite ones.
pub proof fn lemma_between_finite(a: Num, b: Num, c: Num)
    requires
        a.finite(),
        c.finite(),
        a <= b,
        b <= c,
    ensures
        b.finite(),
{
    reveal(Num::nan);
    reveal(Num::rank);
}

/// Adding the same to two numbers keeps their order.
pub proof fn lemma_sums_keep_order(a: Num, b: Num, c: Num)
    requires
        a <= b,
        !(a + c).nan(),
        !(b + c).nan(),
    ensures
        a + c <= b + c,
{
    reveal(Num::nan);
    reveal(Num::sum);
    reveal(Num::rank);
    num::lemma_rank_is_value(a, b);
    lemma_unbounded();
    if a.inf() || b.inf() || c.inf() {
        if !a.inf() && !c.inf() {
            let s = a.units() + c.units();
            if s < 0 {
                lemma_rounding_keeps_order((-s) as nat, 1, (-s) as nat, 1);
            } else {
                lemma_rounding_keeps_order(s as nat, 1, s as nat, 1);
            }
        }
        if !b.inf() && !c.inf() {
            let s = b.units() + c.units();
            if s < 0 {
                lemma_rounding_keeps_order((-s) as nat, 1, (-s) as nat, 1);
            } else {
                lemma_rounding_keeps_order(s as nat, 1, s as nat, 1);
            }
        }
    } else {
        let s = a.units() + c.units();
        let t = b.units() + c.units();
        if s < 0 {
            lemma_rounding_keeps_order((-s) as nat, 1, (-s) as nat, 1);
        }
        if t > 0 {
            lemma_rounding_keeps_order(t as nat, 1, t as nat, 1);
        }
        if s < 0 && t < 0 {
            lemma_rounding_keeps_order((-t) as nat, 1, (-s) as nat, 1);
        } else if s > 0 {
            lemma_rounding_keeps_order(s as nat, 1, t as nat, 1);
        }
    }
}

/// A significand of 24 bits at a grade is a number.
pub proof fn lemma_representable(m: nat, g: nat)
    requires
        m < 0x100_0000,
        g <= 253,
    ensures
        rounding::nearest(m * pow2(g), 1) < INFINITY_BITS,
        rounding::units(rounding::nearest(m * pow2(g), 1)) == m * pow2(g),
{
    rounding::lemma_pow2_24();
    lemma_pow2_pos(g);
    if m == 0 {
        assert(0 * pow2(g) == 0) by (nonlinear_arith);
        num::lemma_nearest_zero(1);
        num::lemma_decode(0);
    } else {
        let l = rounding::lemma_bit_length(m);
        if l > 24 {
            rounding::lemma_pow2_le(24, (l - 1) as nat);
        }
        if g + l >= 24 {
            let s = (24 - l) as nat;
            let e = (g - s) as nat;
            let q = m * pow2(s);
            lemma_pow2_pos(s);
            lemma_pow2_adds(l, s);
            lemma_pow2_adds((l - 1) as nat, s);
            lemma_pow2_adds(s, e);
            assert((l - 1) as nat + s == 23);
            assert(0x80_0000 <= q < 0x100_0000) by (nonlinear_arith)
                requires
                    q == m * pow2(s),
                    pow2((l - 1) as nat) <= m < pow2(l),
                    pow2((l - 1) as nat) * pow2(s) == 0x80_0000,
                    pow2(l) * pow2(s) == 0x100_0000,
                    pow2(s) > 0,
            ;
            let mag = e * 0x80_0000 + q;
            assert(mag / 0x80_0000 == e + 1 && mag % 0x80_0000 == q - 0x80_0000);
            assert(rounding::grade_of(mag) == e && rounding::significand(mag) == q);
            assert(q * pow2(e) == m * pow2(g)) by (nonlinear_arith)
                requires
                    q == m * pow2(s),
                    pow2(s) * pow2(e) == pow2(g),
            ;
            num::lemma_exact(mag);
        } else {
            let mag = m * pow2(g);
            lemma_pow2_adds(l, g);
            rounding::lemma_pow2_le(l + g, 23);
            assert(mag < 0x80_0000) by (nonlinear_arith)
                requires
                    mag == m * pow2(g),
                    m < pow2(l),
                    pow2(l) * pow2(g) == pow2(l + g),
                    pow2(l + g) <= 0x80_0000,
                    pow2(g) > 0,
            ;
            assert(rounding::significand(mag) == mag && rounding::grade_of(mag) == 0);
            assert(mag * pow2(0) == mag) by (nonlinear_arith)
                requires
                    pow2(0) == 1,
            ;
            num::lemma_exact(mag);
        }
    }
}

/// A common factor stays in a remainder.
proof fn lemma_common_factor(a: nat, b: nat, c: nat)
    requires
        b > 0,
        c > 0,
    ensures
        (a * c) % (b * c) == (a % b) * c,
{
    let q = a / b;
    let r = a % b;
    lemma_fundamental_div_mod(a as int, b as int);
    lemma_mod_bound(a as int, b as int);
    assert(a * c == q * (b * c) + r * c && 0 <= r * c < b * c) by (nonlinear_arith)
        requires
            a == b * q + r,
            0 <= r < b,
            c > 0,
    ;
    lemma_fundamental_div_mod_converse((a * c) as int, (b * c) as int, q as int, (r * c) as int);
}

/// The remainder of two magnitudes is a number.
proof fn lemma_remainder_representable(a: nat, b: nat)
    requires
        a < INFINITY_BITS,
        0 < b < INFINITY_BITS,
    ensures
        rounding::units(b) > 0,
        ({
            let r = rounding::units(a) % rounding::units(b);
            rounding::nearest(r, 1) < INFINITY_BITS && rounding::units(rounding::nearest(r, 1))
                == r
        }),
{
    num::lemma_decode(a);
    num::lemma_decode(b);
    let (ma, ga) = (rounding::significand(a), rounding::grade_of(a));
    let (mb, gb) = (rounding::significand(b), rounding::grade_of(b));
    if ga >= gb {
        let d = (ga - gb) as nat;
        lemma_pow2_pos(gb);
        lemma_pow2_adds(d, gb);
        let x = ma * pow2(d);
        assert(x * pow2(gb) == ma * pow2(ga)) by (nonlinear_arith)
            requires
                x == ma * pow2(d),
                pow2(d) * pow2(gb) == pow2(ga),
        ;
        lemma_common_factor(x, mb, pow2(gb));
        lemma_mod_bound(x as int, mb as int);
        lemma_representable(x % mb, gb);
    } else {
        let d = (gb - ga) as nat;
        lemma_pow2_pos(ga);
        lemma_pow2_pos(d);
        lemma_pow2_adds(d, ga);
        let y = mb * pow2(d);
        assert(y * pow2(ga) == mb * pow2(gb) && y > 0) by (nonlinear_arith)
            requires
                y == mb * pow2(d),
                pow2(d) * pow2(ga) == pow2(gb),
                mb > 0,
                pow2(d) > 0,
        ;
        lemma_common_factor(ma, y, pow2(ga));
        lemma_mod_bound(ma as int, y as int);
        lemma_mod_decreases(ma, y);
        lemma_representable(ma % y, ga);
    }
}

/// A remainder is exact: what is left over whole multiples of the divisor,
/// with the sign of the dividend.
pub proof fn lemma_remainder(a: Num, b: Num)
    requires
        a.finite(),
        b.positive(),
    ensures
        b.units() > 0,
        Num::remainder(a, b).finite(),
        a.units() >= 0 ==> Num::remainder(a, b).units() == a.units() % b.units(),
        a.units() < 0 ==> Num::remainder(a, b).units() == -((-a.units()) % b.units()),
        Num::magnitude(b) == b,
{
    reveal(Num::nan);
    reveal(Num::remainder);
    reveal(Num::magnitude);
    num::lemma_decode(0);
    num::lemma_decode(a.mag());
    lemma_remainder_representable(a.mag(), b.mag());
    lemma_small_mod(0, rounding::units(b.mag()));
}

/// Numbers without a sign compare as their patterns do.
proof fn lemma_compare_patterns(a: Num, b: Num)
    requires
        !a.nan(),
        !b.nan(),
        !a.neg(),
        !b.neg(),
    ensures
        a <= b <==> a.mag() <= b.mag(),
        a < b <==> a.mag() < b.mag(),
{
    reveal(Num::rank);
}

/// The quotient of two positive numbers.
proof fn lemma_quotient_of(a: Num, b: Num)
    requires
        a.positive(),
        b.positive(),
    ensures
        rounding::units(b.mag()) > 0,
        (a / b).mag() == rounding::nearest(
            rounding::units(a.mag()) * pow2(149),
            rounding::units(b.mag()),
        ),
        (a / b).mag() <= INFINITY_BITS,
        !(a / b).nan(),
        !(a / b).neg(),
{
    reveal(Num::nan);
    reveal(Num::quotient);
    num::lemma_decode(a.mag());
    num::lemma_decode(b.mag());
    let n = rounding::units(a.mag()) * pow2(149);
    lemma_rounding_keeps_order(n, rounding::units(b.mag()), n, rounding::units(b.mag()));
}

/// A hundredth is finite.
pub proof fn lemma_hundredth()
    ensures
        Num::ratio(1, 100).finite(),
{
    reveal(Num::nan);
    lemma_pow2_pos(149);
    let p = pow2(149);
    let a = Num::whole(1);
    let b = Num::whole(100);
    lemma_whole(1);
    lemma_whole(100);
    num::lemma_decode(a.mag());
    num::lemma_decode(b.mag());
    num::lemma_exact(a.mag());
    assert(a.units() == p && b.units() == 100 * p);
    assert(!a.neg() && a.mag() > 0 && !b.neg() && b.mag() > 0);
    lemma_quotient_of(a, b);
    assert((p * p) * 1 <= p * (100 * p)) by (nonlinear_arith);
    lemma_rounding_keeps_order(p * p, 100 * p, p, 1);
}

/// Of two quotients of positive numbers, the one that is not larger by value
/// does not round to a larger number.
pub proof fn lemma_quotients_keep_order(a: Num, b: Num, c: Num, d: Num)
    requires
        a.positive(),
        b.positive(),
        c.positive(),
        d.positive(),
        rounding::units(a.mag()) * rounding::units(d.mag()) <= rounding::units(c.mag())
            * rounding::units(b.mag()),
    ensures
        a / b <= c / d,
{
    lemma_quotient_of(a, b);
    lemma_quotient_of(c, d);
    let (ua, ub) = (rounding::units(a.mag()), rounding::units(b.mag()));
    let (uc, ud) = (rounding::units(c.mag()), rounding::units(d.mag()));
    let p = pow2(149);
    assert((ua * p) * ud <= (uc * p) * ub) by (nonlinear_arith)
        requires
            ua * ud <= uc * ub,
    ;
    lemma_rounding_keeps_order(ua * p, ub, uc * p, ud);
    lemma_compare_patterns(a / b, c / d);
}

/// What is above the quotient of two numbers divides the first into no more
/// than the second.
pub proof fn lemma_divides_below(a: Num, b: Num, x: Num)
    requires
        a.positive(),
        b.positive(),
        x > a / b,
    ensures
        !(a / x).nan(),
        !(a / x).neg(),
        a / x <= b,
{
    lemma_quotient_of(a, b);
    reveal(Num::nan);
    assert(!x.neg() && x.mag() > 0) by {
        reveal(Num::rank);
    }
    lemma_compare_patterns(a / b, x);
    num::lemma_exact(b.mag());
    let (ua, ub) = (rounding::units(a.mag()), rounding::units(b.mag()));
    if x.inf() {
        reveal(Num::quotient);
        num::lemma_decode(a.mag());
        lemma_compare_patterns(a / x, b);
    } else {
        let ux = rounding::units(x.mag());
        let p = pow2(149);
        num::lemma_exact(x.mag());
        num::lemma_decode(x.mag());
        if ux * ub <= (ua * p) * 1 {
            lemma_rounding_keeps_order(ux, 1, ua * p, ub);
        }
        assert((ua * p) * 1 <= ub * ux) by (nonlinear_arith)
            requires
                ux * ub > (ua * p) * 1,
        ;
        lemma_quotient_of(a, x);
        lemma_rounding_keeps_order(ua * p, ux, ub, 1);
        lemma_compare_patterns(a / x, b);
    }
}

/// A smaller number divided by the same is no larger.
pub proof fn lemma_dividing_keeps_order(a: Num, b: Num, x: Num)
    requires
        a.positive(),
        b.positive(),
        a <= b,
        x > Num::nought(),
    ensures
        a / x <= b / x,
{
    reveal(Num::nan);
    assert(!x.neg() && x.mag() > 0) by {
        reveal(Num::rank);
    }
    lemma_compare_patterns(a, b);
    if a.mag() < b.mag() {
        num::lemma_units_increase(a.mag(), b.mag());
    }
    if x.inf() {
        reveal(Num::quotient);
        num::lemma_decode(a.mag());
        num::lemma_decode(b.mag());
        lemma_compare_patterns(a / x, b / x);
    } else {
        let (ua, ub) = (rounding::units(a.mag()), rounding::units(b.mag()));
        let ux = rounding::units(x.mag());
        assert(ua * ux <= ub * ux) by (nonlinear_arith)
            requires
                ua <= ub,
        ;
        lemma_quotients_keep_order(a, x, b, x);
    }
}

/// A product of numbers without a sign, the first positive.
proof fn lemma_product_of(a: Num, x: Num)
    requires
        a.positive(),
        !x.nan(),
        !x.neg(),
    ensures
        !(a * x).nan(),
        !(a * x).neg(),
        x.inf() ==> (a * x).mag() == INFINITY_BITS,
        !x.inf() ==> (a * x).mag() == rounding::nearest(
            rounding::units(a.mag()) * rounding::units(x.mag()),
            pow2(149),
        ),
        (a * x).mag() <= INFINITY_BITS,
{
    reveal(Num::nan);
    reveal(Num::product);
    lemma_pow2_pos(149);
    let n = rounding::units(a.mag()) * rounding::units(x.mag());
    lemma_rounding_keeps_order(n, pow2(149), n, pow2(149));
}

/// Smaller factors give no larger product.
pub proof fn lemma_products_keep_order(a: Num, x: Num, b: Num, y: Num)
    requires
        a.positive(),
        b.positive(),
        x >= Num::nought(),
        !x.neg(),
        !y.neg(),
        a <= b,
        x <= y,
    ensures
        a * x <= b * y,
{
    reveal(Num::nan);
    lemma_compare_patterns(a, b);
    lemma_compare_patterns(x, y);
    lemma_product_of(a, x);
    lemma_product_of(b, y);
    if !y.inf() {
        let (ua, ub) = (rounding::units(a.mag()), rounding::units(b.mag()));
        let (ux, uy) = (rounding::units(x.mag()), rounding::units(y.mag()));
        if a.mag() < b.mag() {
            num::lemma_units_increase(a.mag(), b.mag());
        }
        if x.mag() < y.mag() {
            num::lemma_units_increase(x.mag(), y.mag());
        }
        lemma_pow2_pos(149);
        let p = pow2(149);
        assert((ua * ux) * p <= (ub * uy) * p) by (nonlinear_arith)
            requires
                ua <= ub,
                ux <= uy,
        ;
        lemma_rounding_keeps_order(ua * ux, p, ub * uy, p);
    }
    lemma_compare_patterns(a * x, b * y);
}

/// The quotient of positive numbers has no sign.
pub proof fn lemma_quotient_is_number(a: Num, b: Num)
    requires
        a.positive(),
        b.positive(),
    ensures
        !(a / b).nan(),
        !(a / b).neg(),
        a / b >= Num::nought(),
{
    lemma_quotient_of(a, b);
    reveal(Num::rank);
    crate::margin_collapse::lemma_zero_is_number();
}

/// A positive number that is wider in proportion is so by value.
pub proof fn lemma_wider_by_value(a: Num, b: Num, c: Num, d: Num)
    requires
        a.positive(),
        b.positive(),
        c.positive(),
        d.positive(),
        a / b > c / d,
        a <= c,
    ensures
        b < d,
{
    let (ua, ub) = (rounding::units(a.mag()), rounding::units(b.mag()));
    let (uc, ud) = (rounding::units(c.mag()), rounding::units(d.mag()));
    lemma_compare_patterns(a, c);
    lemma_compare_patterns(b, d);
    if a.mag() < c.mag() {
        reveal(Num::nan);
        num::lemma_units_increase(a.mag(), c.mag());
    }
    if !(b < d) {
        reveal(Num::nan);
        if d.mag() < b.mag() {
            num::lemma_units_increase(d.mag(), b.mag());
        }
        assert(ua * ud <= uc * ub) by (nonlinear_arith)
            requires
                ua <= uc,
                ud <= ub,
        ;
        lemma_quotients_keep_order(a, b, c, d);
    }
}

} // verus!

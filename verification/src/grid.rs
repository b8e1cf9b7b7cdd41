//! Numbers on a binary grid, where sums are exact.
//!
//! A grid has a step of a power of two. Numbers that are few enough steps from
//! zero add and subtract without rounding, so that layout on a grid is the
//! arithmetic of integers: the laws of layout count in steps.
use vstd::prelude::*;
use vstd::arithmetic::div_mod::*;
use vstd::arithmetic::power2::*;
use crate::exact;
use crate::num::{self, Num};
use crate::rounding;

verus! {

impl Num {
    /// The number of steps from zero on the grid of step `2^(g - 149)`.
    #[verifier::opaque]
    pub open spec fn ticks(self, g: nat) -> int {
        self.units() / pow2(g) as int
    }

    /// Whether the number is on the grid, at most `n` steps from zero.
    #[verifier::opaque]
    pub open spec fn on(self, g: nat, n: int) -> bool {
        &&& self.finite()
        &&& g <= 253
        &&& self.units() == self.ticks(g) * pow2(g)
        &&& -n <= self.ticks(g) <= n
    }

    /// Whether the number is a coordinate on the grid: near enough to zero for
    /// sums of a few dozen of them to be on it too.
    pub open spec fn coord(self, g: nat) -> bool {
        self.on(g, 0x8_0000)
    }
}

/// Numbers on a grid are finite, and compare as their steps do.
pub proof fn lemma_order(a: Num, b: Num, g: nat, n: int, m: int)
    requires
        a.on(g, n),
        b.on(g, m),
    ensures
        a.finite() && b.finite() && g <= 253,
        a < b <==> a.ticks(g) < b.ticks(g),
        a <= b <==> a.ticks(g) <= b.ticks(g),
        a > b <==> a.ticks(g) > b.ticks(g),
        a >= b <==> a.ticks(g) >= b.ticks(g),
        a.same(b) <==> a.ticks(g) == b.ticks(g),
{
    reveal(Num::on);
    lemma_pow2_pos(g);
    let p = pow2(g) as int;
    let x = a.ticks(g);
    let y = b.ticks(g);
    assert((x < y) == (x * p < y * p) && (x == y) == (x * p == y * p)) by (nonlinear_arith)
        requires
            p > 0,
    ;
    num::lemma_rank_is_value(a, b);
    num::lemma_rank_is_value(b, a);
}

/// Whether a number on a grid is finite.
pub proof fn lemma_finite(a: Num, g: nat, n: int)
    requires
        a.on(g, n),
    ensures
        a.finite() && g <= 253,
        -n <= a.ticks(g) <= n,
{
    reveal(Num::on);
}

/// A wider bound.
pub proof fn lemma_wider(a: Num, g: nat, n: int, m: int)
    requires
        a.on(g, n),
        n <= m,
    ensures
        a.on(g, m),
{
    reveal(Num::on);
}

/// Zero is on every grid.
pub proof fn lemma_zero(g: nat)
    requires
        g <= 253,
    ensures
        Num::nought().on(g, 0),
        Num::nought().ticks(g) == 0,
{
    reveal(Num::on);
    reveal(Num::ticks);
    reveal(Num::nan);
    num::lemma_decode(0);
    lemma_pow2_pos(g);
    lemma_small_mod(0, pow2(g));
    lemma_div_multiples_vanish(0, pow2(g) as int);
    assert(0 * pow2(g) == 0) by (nonlinear_arith);
}

/// A number of so many units is so many steps.
proof fn lemma_ticks(a: Num, g: nat, k: int)
    requires
        a.units() == k * pow2(g),
    ensures
        a.ticks(g) == k,
{
    reveal(Num::ticks);
    lemma_pow2_pos(g);
    lemma_div_multiples_vanish(k, pow2(g) as int);
}

/// The opposite of a number on a grid.
pub proof fn lemma_negated(a: Num, g: nat, n: int)
    requires
        a.on(g, n),
    ensures
        Num::negated(a).on(g, n),
        Num::negated(a).ticks(g) == -a.ticks(g),
{
    reveal(Num::on);
    reveal(Num::nan);
    reveal(Num::negated);
    let b = Num::negated(a);
    let k = a.ticks(g);
    assert(b.mag() == a.mag() && b.neg() != a.neg());
    assert(b.units() == -a.units());
    assert((-k) * pow2(g) == -(k * pow2(g))) by (nonlinear_arith);
    lemma_ticks(b, g, -k);
}

/// A sum on a grid is exact.
pub proof fn lemma_sum(a: Num, b: Num, g: nat, n: int, m: int)
    requires
        a.on(g, n),
        b.on(g, m),
        n + m < 0x100_0000,
    ensures
        (a + b).on(g, n + m),
        (a + b).ticks(g) == a.ticks(g) + b.ticks(g),
{
    reveal(Num::on);
    let p = pow2(g);
    let k = a.ticks(g) + b.ticks(g);
    assert(k * p == a.ticks(g) * p + b.ticks(g) * p) by (nonlinear_arith)
        requires
            k == a.ticks(g) + b.ticks(g),
    ;
    let mag = if k < 0 {
        -k
    } else {
        k
    };
    exact::lemma_representable(mag as nat, g);
    let c = Num::signed(k < 0, rounding::nearest(mag as nat * p, 1));
    assert((-k) * p == -(k * p)) by (nonlinear_arith);
    assert(c.finite() && c.units() == k * p) by {
        reveal(Num::nan);
    }
    exact::lemma_adds(a, b, c);
    lemma_ticks(a + b, g, k);
}

/// A difference on a grid is exact.
pub proof fn lemma_difference(a: Num, b: Num, g: nat, n: int, m: int)
    requires
        a.on(g, n),
        b.on(g, m),
        n + m < 0x100_0000,
    ensures
        (a - b).on(g, n + m),
        (a - b).ticks(g) == a.ticks(g) - b.ticks(g),
{
    lemma_negated(b, g, m);
    lemma_sum(a, Num::negated(b), g, n, m);
}

/// The larger and the smaller of two numbers on a grid.
pub proof fn lemma_extremes(a: Num, b: Num, g: nat, n: int)
    requires
        a.on(g, n),
        b.on(g, n),
    ensures
        Num::larger(a, b).on(g, n),
        Num::smaller(a, b).on(g, n),
        Num::larger(a, b).ticks(g) == if a.ticks(g) < b.ticks(g) {
            b.ticks(g)
        } else {
            a.ticks(g)
        },
        Num::smaller(a, b).ticks(g) == if b.ticks(g) < a.ticks(g) {
            b.ticks(g)
        } else {
            a.ticks(g)
        },
{
    lemma_order(a, b, g, n, n);
    lemma_order(b, a, g, n, n);
}

/// So many times a number on a grid is exact.
pub proof fn lemma_times(k: nat, a: Num, g: nat, n: int)
    requires
        a.on(g, n),
        k < 0x100_0000,
        0 <= n,
        k * n < 0x100_0000,
    ensures
        (Num::whole(k as int) * a).on(g, k * n),
        (Num::whole(k as int) * a).ticks(g) == k * a.ticks(g),
        (a * Num::whole(k as int)).on(g, k * n),
        (a * Num::whole(k as int)).ticks(g) == k * a.ticks(g),
{
    let w = Num::whole(k as int);
    let t = a.ticks(g);
    let p = pow2(g);
    let q = pow2(149);
    lemma_pow2_pos(149);
    lemma_pow2_pos(g);
    reveal(Num::on);
    exact::lemma_whole(k as int);
    let mag = if t < 0 {
        -t
    } else {
        t
    };
    let m = (k * mag) as nat;
    assert(0 <= k * mag <= k * n) by (nonlinear_arith)
        requires
            0 <= mag <= n,
            0 <= k,
    ;
    exact::lemma_representable(m, g);
    let uw = rounding::units(w.mag());
    let ua = rounding::units(a.mag());
    assert(mag * p == ua) by {
        assert((-t) * p == -(t * p)) by (nonlinear_arith);
        assert(t * p >= 0 <==> t >= 0) by (nonlinear_arith)
            requires
                p > 0,
        ;
    }
    assert(uw == k * q);
    assert(uw * ua == (m * p) * q) by (nonlinear_arith)
        requires
            uw == k * q,
            ua == mag * p,
            m == k * mag,
    ;
    assert(ua * uw == uw * ua) by (nonlinear_arith);
    rounding::lemma_nearest_scale(m * p, 1, q);
    assert(1 * q == q);
    assert(rounding::nearest(uw * ua, q) == rounding::nearest(m * p, 1));
    let r = w * a;
    let s = a * w;
    reveal(Num::nan);
    reveal(Num::product);
    num::lemma_decode(0);
    num::lemma_decode(a.mag());
    num::lemma_decode(w.mag());
    assert(!w.neg() || w.mag() == 0);
    assert(r.mag() == rounding::nearest(m * p, 1) && s.mag() == r.mag());
    assert((k * t) * p == if t < 0 {
        -((m * p) as int)
    } else {
        (m * p) as int
    }) by (nonlinear_arith)
        requires
            m == k * mag,
            mag == if t < 0 {
                -t
            } else {
                t
            },
    ;
    let out = rounding::nearest(m * p, 1);
    assert(rounding::units(out) == m * p);
    assert(w.neg() ==> m * p == 0) by {
        if w.neg() {
            assert(uw == 0);
            assert(k == 0) by (nonlinear_arith)
                requires
                    k * q == 0,
                    q > 0,
            ;
            assert(0 * mag == 0 && 0 * p == 0);
        }
    }
    assert(t >= 0 && a.neg() ==> m * p == 0) by {
        if t >= 0 && a.neg() {
            assert(ua == 0);
            assert(m * p == 0) by (nonlinear_arith)
                requires
                    m == k * mag,
                    mag * p == 0,
            ;
        }
    }
    assert(t < 0 ==> a.neg()) by {
        if t < 0 {
            assert(t * p < 0) by (nonlinear_arith)
                requires
                    t < 0,
                    p > 0,
            ;
        }
    }
    assert(r.units() == (k * t) * p && s.units() == (k * t) * p);
    assert(-(k * n) <= k * t <= k * n) by (nonlinear_arith)
        requires
            -n <= t <= n,
            0 <= k,
    ;
    lemma_ticks(r, g, k * t);
    lemma_ticks(s, g, k * t);
}

/// A number that is a whole multiple divides exactly.
pub proof fn lemma_part(k: nat, a: Num, g: nat, n: int)
    requires
        a.on(g, n),
        0 < k < 0x100_0000,
        a.ticks(g) % k as int == 0,
        n < 0x100_0000,
    ensures
        (a / Num::whole(k as int)).on(g, n),
        k * (a / Num::whole(k as int)).ticks(g) == a.ticks(g),
{
    let w = Num::whole(k as int);
    let t = a.ticks(g);
    let p = pow2(g);
    let q = pow2(149);
    let c = t / k as int;
    lemma_pow2_pos(149);
    lemma_pow2_pos(g);
    reveal(Num::on);
    exact::lemma_whole(k as int);
    lemma_fundamental_div_mod(t, k as int);
    let mag = if c < 0 {
        -c
    } else {
        c
    };
    assert(0 <= mag <= n) by (nonlinear_arith)
        requires
            t == k * c,
            -n <= t <= n,
            k >= 1,
            mag == if c < 0 {
                -c
            } else {
                c
            },
    ;
    let m = mag as nat;
    exact::lemma_representable(m, g);
    let uw = rounding::units(w.mag());
    let ua = rounding::units(a.mag());
    assert(uw == k * q && uw > 0) by (nonlinear_arith)
        requires
            w.units() == k * q,
            k > 0,
            q > 0,
            w.units() == uw || w.units() == -(uw as int),
            uw >= 0,
    ;
    assert(ua == (k * m) * p) by (nonlinear_arith)
        requires
            t == k * c,
            a.units() == t * p,
            a.units() == ua || a.units() == -(ua as int),
            ua >= 0,
            p > 0,
            k > 0,
            m == if c < 0 {
                -c
            } else {
                c
            },
    ;
    assert(ua * q == (m * p) * uw && 1 * uw == uw) by (nonlinear_arith)
        requires
            ua == (k * m) * p,
            uw == k * q,
    ;
    rounding::lemma_nearest_scale(m * p, 1, uw);
    let r = a / w;
    let out = rounding::nearest(m * p, 1);
    reveal(Num::nan);
    reveal(Num::quotient);
    num::lemma_decode(0);
    num::lemma_decode(a.mag());
    num::lemma_decode(w.mag());
    assert(!w.neg()) by {
        if w.neg() {
            assert(w.units() == -(uw as int));
        }
    }
    assert(r.mag() == out && r.neg() == a.neg());
    assert(c * p == if c < 0 {
        -((m * p) as int)
    } else {
        (m * p) as int
    }) by (nonlinear_arith)
        requires
            m == if c < 0 {
                -c
            } else {
                c
            },
    ;
    assert(c < 0 ==> a.neg()) by {
        if c < 0 {
            assert(t * p < 0) by (nonlinear_arith)
                requires
                    c < 0,
                    t == k * c,
                    k > 0,
                    p > 0,
            ;
        }
    }
    assert(c >= 0 && a.neg() ==> m * p == 0) by {
        if c >= 0 && a.neg() {
            assert(t * p >= 0) by (nonlinear_arith)
                requires
                    c >= 0,
                    t == k * c,
                    k > 0,
                    p > 0,
            ;
            assert(m * p == 0) by (nonlinear_arith)
                requires
                    ua == 0,
                    ua == (k * m) * p,
                    k > 0,
                    p > 0,
            ;
        }
    }
    assert(r.units() == c * p);
    assert(-n <= c <= n) by (nonlinear_arith)
        requires
            t == k * c,
            -n <= t <= n,
            k >= 1,
    ;
    lemma_ticks(r, g, c);
}

/// All of a number is the number.
pub proof fn lemma_all_of(x: Num)
    requires
        !x.nan(),
    ensures
        Num::whole(100) / Num::whole(100) * x == x,
{
    let h = Num::whole(100);
    let one = Num::whole(1);
    let q = pow2(149);
    lemma_pow2_pos(149);
    exact::lemma_whole(100);
    exact::lemma_whole(1);
    exact::lemma_positive_whole(100);
    exact::lemma_positive_whole(1);
    reveal(Num::whole);
    reveal(Num::nan);
    reveal(Num::quotient);
    reveal(Num::product);
    num::lemma_decode(h.mag());
    num::lemma_decode(one.mag());
    num::lemma_decode(0);
    let u = rounding::units(h.mag());
    assert(u == 100 * q && u > 0);
    rounding::lemma_nearest_scale(q, 1, u);
    assert(u * q == q * u) by (nonlinear_arith);
    assert(1 * u == u);
    assert(rounding::nearest(u * q, u) == rounding::nearest(q, 1));
    assert(1 * q == q);
    assert(h / h == one);
    if x.inf() {
        assert(one * x == x);
    } else {
        let ux = rounding::units(x.mag());
        num::lemma_exact(x.mag());
        rounding::lemma_nearest_scale(ux, 1, q);
        assert(q * ux == ux * q) by (nonlinear_arith);
        assert(rounding::units(one.mag()) == q);
        assert(one * x == x);
    }
}

/// A run that starts at `start` over `extent`, widened by an edge before and
/// one behind it.
pub proof fn lemma_widened(
    start: Num,
    extent: Num,
    before: Num,
    after: Num,
    g: nat,
    n: int,
    m: int,
    e: int,
)
    requires
        start.on(g, n),
        extent.on(g, m),
        before.on(g, e),
        after.on(g, e),
        0 <= n && 0 <= m && 0 <= e,
        n + m + 3 * e < 0x100_0000,
    ensures
        (start - before).on(g, n + e),
        (start - before).ticks(g) == start.ticks(g) - before.ticks(g),
        (extent + (before + after)).on(g, m + 2 * e),
        (extent + (before + after)).ticks(g) == extent.ticks(g) + before.ticks(g) + after.ticks(
            g,
        ),
        ((start - before) + (extent + (before + after))).on(g, n + m + 3 * e),
        ((start - before) + (extent + (before + after))).ticks(g) == start.ticks(g)
            + extent.ticks(g) + after.ticks(g),
{
    lemma_difference(start, before, g, n, e);
    lemma_sum(before, after, g, e, e);
    lemma_sum(extent, before + after, g, m, 2 * e);
    lemma_sum(start - before, extent + (before + after), g, n + e, m + 2 * e);
}

/// A product of numbers on grids is on the product grid.
pub proof fn lemma_product(a: Num, b: Num, g: nat, n: int, f: nat, m: int, h: nat)
    requires
        a.on(g, n),
        b.on(f, m),
        0 <= n && 0 <= m && n * m < 0x100_0000,
        g + f == h + 149,
        h <= 253,
    ensures
        (a * b).on(h, n * m),
        (a * b).ticks(h) == a.ticks(g) * b.ticks(f),
{
    reveal(Num::on);
    let x = a.ticks(g);
    let y = b.ticks(f);
    let (mx, my) = (if x < 0 { -x } else { x }, if y < 0 { -y } else { y });
    let (p, q, t, w) = (pow2(g) as int, pow2(f) as int, pow2(h) as int, pow2(149) as int);
    lemma_pow2_pos(g);
    lemma_pow2_pos(f);
    lemma_pow2_pos(h);
    lemma_pow2_pos(149);
    lemma_pow2_adds(g, f);
    lemma_pow2_adds(h, 149);
    let ua = rounding::units(a.mag()) as int;
    let ub = rounding::units(b.mag()) as int;
    assert(ua == mx * p) by (nonlinear_arith)
        requires
            ua >= 0,
            p > 0,
            mx == if x < 0 { -x } else { x },
            ua == x * p || ua == -(x * p),
    ;
    assert(ub == my * q) by (nonlinear_arith)
        requires
            ub >= 0,
            q > 0,
            my == if y < 0 { -y } else { y },
            ub == y * q || ub == -(y * q),
    ;
    let k = mx * my;
    assert(0 <= k <= n * m) by (nonlinear_arith)
        requires
            k == mx * my,
            0 <= mx <= n,
            0 <= my <= m,
    ;
    assert(ua * ub == (k * t) * w) by {
        assert((mx * p) * (my * q) == (mx * my) * (p * q)) by (nonlinear_arith);
        assert((mx * my) * (t * w) == ((mx * my) * t) * w) by (nonlinear_arith);
    }
    assert(k * t >= 0) by (nonlinear_arith)
        requires
            k >= 0,
            t > 0,
    ;
    rounding::lemma_nearest_scale((k * t) as nat, 1, w as nat);
    exact::lemma_representable(k as nat, h);
    let r = a * b;
    assert(r.mag() == rounding::nearest((k * t) as nat, 1) && r.neg() == (a.neg() != b.neg())) by {
        reveal(Num::nan);
        reveal(Num::product);
    }
    assert(r.finite()) by {
        reveal(Num::nan);
    }
    assert(x < 0 ==> a.neg()) by (nonlinear_arith)
        requires
            a.neg() || a.units() >= 0,
            a.units() == x * p,
            p > 0,
    ;
    assert(y < 0 ==> b.neg()) by (nonlinear_arith)
        requires
            b.neg() || b.units() >= 0,
            b.units() == y * q,
            q > 0,
    ;
    assert(x > 0 ==> !a.neg()) by (nonlinear_arith)
        requires
            !a.neg() || a.units() <= 0,
            a.units() == x * p,
            p > 0,
    ;
    assert(y > 0 ==> !b.neg()) by (nonlinear_arith)
        requires
            !b.neg() || b.units() <= 0,
            b.units() == y * q,
            q > 0,
    ;
    let z = x * y;
    assert(z == k || z == -k) by (nonlinear_arith)
        requires
            z == x * y,
            k == mx * my,
            mx == x || mx == -x,
            my == y || my == -y,
    ;
    assert((x == 0 || y == 0) ==> z == 0 && k == 0) by (nonlinear_arith)
        requires
            z == x * y,
            k == mx * my,
            x == 0 ==> mx == 0,
            y == 0 ==> my == 0,
    ;
    assert(x > 0 && y > 0 || x < 0 && y < 0 ==> z == k) by (nonlinear_arith)
        requires
            z == x * y,
            k == mx * my,
            mx == if x < 0 { -x } else { x },
            my == if y < 0 { -y } else { y },
    ;
    assert(x > 0 && y < 0 || x < 0 && y > 0 ==> z == -k) by (nonlinear_arith)
        requires
            z == x * y,
            k == mx * my,
            mx == if x < 0 { -x } else { x },
            my == if y < 0 { -y } else { y },
    ;
    assert((-k) * t == -(k * t)) by (nonlinear_arith);
    assert(k == 0 ==> k * t == 0) by (nonlinear_arith);
    assert(r.units() == z * t);
    lemma_ticks(r, h, z);
}

/// A half is one step of a grid of halves.
pub proof fn lemma_half()
    ensures
        Num::ratio(1, 2).on(148, 1),
        Num::ratio(1, 2).ticks(148) == 1,
{
    lemma_unit(148);
    lemma_part(2, Num::whole(1), 148, 2);
    reveal(Num::on);
}

/// One, on a grid at least as fine.
proof fn lemma_unit(g: nat)
    requires
        g == 148,
    ensures
        Num::whole(1).on(g, 2),
        Num::whole(1).ticks(g) == 2,
{
    reveal(Num::on);
    exact::lemma_whole(1);
    lemma_pow2_adds(148, 1);
    lemma2_to64();
    assert(pow2(148) * 2 == 2 * pow2(148)) by (nonlinear_arith);
    assert(1 * pow2(149) == pow2(149));
    lemma_ticks(Num::whole(1), g, 2);
}

/// Half of an even number of steps.
pub proof fn lemma_halved(a: Num, g: nat, n: int)
    requires
        a.on(g, n),
        1 <= g,
        0 <= n < 0x100_0000,
        a.ticks(g) % 2 == 0,
    ensures
        (a * Num::ratio(1, 2)).on(g, n),
        2 * (a * Num::ratio(1, 2)).ticks(g) == a.ticks(g),
{
    lemma_half();
    let h = (g - 1) as nat;
    let r = a * Num::ratio(1, 2);
    let t = a.ticks(g);
    lemma_finite(a, g, n);
    assert(n * 1 == n);
    lemma_product(a, Num::ratio(1, 2), g, n, 148, 1, h);
    assert(t * 1 == t);
    reveal(Num::on);
    lemma_pow2_adds(h, 1);
    lemma2_to64();
    let k = t / 2;
    assert(t == 2 * k);
    assert((2 * k) * pow2(h) == k * (pow2(h) * 2)) by (nonlinear_arith);
    lemma_ticks(r, g, k);
}

} // verus!

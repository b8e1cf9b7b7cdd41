//! Cutting text at the end of its line.
use vstd::prelude::*;
use vstd::arithmetic::power2::*;
use crate::ellipsis::{
    fitting, lemma_largest_prefix_is_kept, marked, near, slack, CutV, ScopeV,
};
use crate::exact;
use crate::grid;
use crate::laws::flowing::lemma_whole_on;
use crate::laws::leaves::lemma_floor_is_below;
use crate::laws::lines::lemma_hundredth_is_part_of_a_step;
use crate::num::Num;
use crate::rounding;
use crate::text::total;

verus! {

/// A sum of small advances is on their grid.
proof fn lemma_total(a: Seq<Num>, g: nat)
    requires
        g <= 253,
        a.len() < 0x400,
        forall|i: int| 0 <= i < a.len() ==> (#[trigger] a[i]).on(g, 0x800),
    ensures
        total(a).on(g, a.len() as int * 0x800),
    decreases a.len(),
{
    grid::lemma_zero(g);
    assert(0 * 0x800 == 0);
    if a.len() > 0 {
        let rest = a.drop_last();
        assert forall|i: int| 0 <= i < rest.len() implies (#[trigger] rest[i]).on(g, 0x800) by {
            assert(rest[i] == a[i]);
        }
        lemma_total(rest, g);
        assert(a[a.len() - 1].on(g, 0x800));
        grid::lemma_sum(total(rest), a.last(), g, rest.len() as int * 0x800, 0x800);
    }
}

/// A hundredth more does not let in another step.
proof fn lemma_slack_lets_nothing_in(t: Num, limit: Num, g: nat, n: int, m: int)
    requires
        143 <= g,
        t.on(g, n),
        limit.on(g, m),
        0 <= m <= 0x30_0000,
    ensures
        t <= limit + slack() <==> t.ticks(g) <= limit.ticks(g),
        t > limit + slack() <==> t.ticks(g) > limit.ticks(g),
{
    let f = (g - 2) as nat;
    let p = pow2(g) as int;
    let q = pow2(f) as int;
    grid::lemma_finite(limit, g, m);
    grid::lemma_finite(t, g, n);
    lemma_pow2_adds(f, 2);
    lemma2_to64();
    lemma_pow2_pos(f);
    assert(p == 4 * q) by {
        assert(q * 4 == 4 * q);
    }
    exact::lemma_representable(3, f);
    let part = Num::signed(false, rounding::nearest(3 * pow2(f), 1));
    assert(part.finite() && part.units() == 3 * q) by {
        reveal(Num::nan);
    }
    lemma_on(part, f, 3, 3);
    let l = limit.ticks(g);
    assert(limit.units() == l * p && -m <= l <= m && t.units() == t.ticks(g) * p) by {
        reveal(Num::on);
    }
    assert(l * p == (4 * l) * q) by (nonlinear_arith)
        requires
            p == 4 * q,
    ;
    lemma_on(limit, f, 4 * l, 4 * m);
    grid::lemma_sum(part, limit, f, 3, 4 * m);
    grid::lemma_order(part + limit, limit, f, 4 * m + 3, 4 * m);
    lemma_hundredth_is_part_of_a_step(g, part);
    let zero = Num::nought();
    grid::lemma_zero(f);
    exact::lemma_hundredth();
    exact::lemma_finite_terms(slack(), limit);
    exact::lemma_finite_terms(part, limit);
    exact::lemma_finite_terms(zero, limit);
    exact::lemma_sum_commutes(limit, slack());
    exact::lemma_sums_keep_order(slack(), part, limit);
    exact::lemma_sums_keep_order(zero, slack(), limit);
    grid::lemma_sum(zero, limit, f, 0, 4 * m);
    grid::lemma_order(zero + limit, limit, f, 4 * m, 4 * m);
    let sum = limit + slack();
    assert(sum >= limit && sum <= part + limit);
    let x = t.ticks(g);
    crate::num::lemma_rank_is_value(t, limit);
    crate::num::lemma_rank_is_value(limit, t);
    crate::num::lemma_rank_is_value(t, part + limit);
    crate::num::lemma_rank_is_value(part + limit, t);
    assert((part + limit).units() == (4 * l + 3) * q) by {
        reveal(Num::on);
    }
    assert(x * p == (4 * x) * q) by (nonlinear_arith)
        requires
            p == 4 * q,
    ;
    if x <= l {
        assert(x * p <= l * p) by (nonlinear_arith)
            requires
                x <= l,
                p > 0,
        ;
    } else {
        assert((4 * l + 3) * q < (4 * x) * q) by (nonlinear_arith)
            requires
                x > l,
                q > 0,
        ;
    }
}

proof fn lemma_on(a: Num, g: nat, k: int, n: int)
    requires
        a.finite(),
        g <= 253,
        a.units() == k * pow2(g),
        -n <= k <= n,
    ensures
        a.on(g, n),
        a.ticks(g) == k,
{
    reveal(Num::on);
    reveal(Num::ticks);
    lemma_pow2_pos(g);
    vstd::arithmetic::div_mod::lemma_div_multiples_vanish(k, pow2(g) as int);
}

/// A run that ends at the limit of its line or before is kept. Of any other, as
/// many characters are kept as fit together with the ellipsis, and no fewer;
/// the run that is left is as wide as they are with it.
pub proof fn lemma_cut_run_ends_before_the_limit(
    s: ScopeV,
    text: Seq<char>,
    x: Num,
    top: Num,
    advances: Seq<Num>,
    ellipsis: Num,
    g: nat,
)
    requires
        !marked(s.lines, top),
        143 <= g,
        s.limit_x.coord(g) && x.coord(g) && ellipsis.coord(g),
        advances.len() == text.len() < 0x400,
        forall|i: int| 0 <= i < advances.len() ==> (#[trigger] advances[i]).on(g, 0x800),
    ensures
        ({
            let whole = total(advances).ticks(g);
            let room = s.limit_x.ticks(g) - x.ticks(g);
            match s.cut(text, x, top, advances, ellipsis) {
                CutV::Keep => whole <= room,
                CutV::Hide => false,
                CutV::Cut { text: t, advances: a, width } => {
                    let n = a.len() - 1;
                    &&& whole > room
                    &&& 0 <= n <= advances.len() && a.take(n) == advances.take(n)
                    &&& t.len() == n + 1 && t.take(n) == text.take(n)
                    &&& width.ticks(g) == total(advances.take(n)).ticks(g) + ellipsis.ticks(g)
                    &&& n == 0 || width.ticks(g) <= room
                    &&& n < advances.len() ==> total(advances.take(n + 1)).ticks(g)
                        + ellipsis.ticks(g) > room
                },
            }
        }),
{
    let u: int = 0x8_0000;
    let k: int = 0x20_0000;
    grid::lemma_finite(x, g, u);
    lemma_total(advances, g);
    grid::lemma_wider(total(advances), g, advances.len() as int * 0x800, k);
    grid::lemma_sum(x, total(advances), g, u, k);
    lemma_slack_lets_nothing_in(x + total(advances), s.limit_x, g, u + k, u);
    grid::lemma_difference(s.limit_x, x, g, u, u);
    grid::lemma_difference(s.limit_x - x, ellipsis, g, 2 * u, u);
    let free = s.limit_x - x - ellipsis;
    assert(advances.take(0) =~= Seq::empty());
    lemma_largest_prefix_is_kept(advances, 0, free);
    let (n, width) = fitting(advances, 0, Num::nought(), free);
    lemma_prefix(advances, n, g);
    lemma_slack_lets_nothing_in(total(advances.take(n)), free, g, k, 3 * u);
    if n < advances.len() {
        lemma_prefix(advances, n + 1, g);
        lemma_slack_lets_nothing_in(total(advances.take(n + 1)), free, g, k, 3 * u);
    }
    grid::lemma_sum(total(advances.take(n)), ellipsis, g, k, u);
    let a = advances.take(n).push(ellipsis);
    assert(a.take(n) =~= advances.take(n));
    reveal_strlit("\u{2026}");
    let t = text.take(n) + "\u{2026}"@;
    assert(t.take(n) =~= text.take(n));
    if 0 < n {
        assert(!(total(advances.take(n)) > free + slack()));
    }
}

proof fn lemma_prefix(advances: Seq<Num>, n: int, g: nat)
    requires
        0 <= n <= advances.len() < 0x400,
        g <= 253,
        forall|i: int| 0 <= i < advances.len() ==> (#[trigger] advances[i]).on(g, 0x800),
    ensures
        total(advances.take(n)).on(g, 0x20_0000),
{
    let a = advances.take(n);
    assert forall|i: int| 0 <= i < a.len() implies (#[trigger] a[i]).on(g, 0x800) by {
        assert(a[i] == advances[i]);
    }
    lemma_total(a, g);
    grid::lemma_wider(total(a), g, n * 0x800, 0x20_0000);
}

/// Two runs are on one line where their tops are less than half a pixel apart:
/// on a grid of half pixels or coarser, where they are the same.
pub proof fn lemma_runs_of_one_line_share_their_top(a: Num, b: Num, g: nat)
    requires
        148 <= g,
        a.coord(g) && b.coord(g),
    ensures
        near(a, b) <==> a.ticks(g) == b.ticks(g),
{
    let u: int = 0x8_0000;
    grid::lemma_difference(a, b, g, u, u);
    let d = a - b;
    let t = d.ticks(g);
    let half = Num::ratio(1, 2);
    grid::lemma_half();
    let p = pow2(g) as int;
    let q = pow2(148) as int;
    lemma_pow2_pos(148);
    rounding::lemma_pow2_le(148, g);
    assert(d.units() == t * p && half.units() == q && d.finite() && half.finite()) by {
        reveal(Num::on);
        assert(1 * q == q);
    }
    let k = Num::magnitude(d);
    assert(k.mag() == d.mag() && !k.neg()) by {
        reveal(Num::magnitude);
    }
    assert(k.finite()) by {
        reveal(Num::nan);
    }
    crate::num::lemma_rank_is_value(k, half);
    assert(k.units() == t * p || k.units() == -(t * p));
    assert(t == 0 ==> t * p == 0) by (nonlinear_arith);
    assert(t != 0 ==> t * p >= p || t * p <= -p) by (nonlinear_arith)
        requires
            p > 0,
    ;
}

/// A hundredth more does not change the whole number below a whole number.
pub proof fn lemma_floor_with_slack(a: Num, n: int)
    requires
        a.on(149, n),
        0 <= n <= 0x30_0000,
    ensures
        Num::floored(a + slack()).on(149, n),
        Num::floored(a + slack()).ticks(149) == a.ticks(149),
{
    let p = pow2(149) as int;
    lemma_pow2_pos(149);
    lemma_whole_on(1);
    grid::lemma_sum(a, Num::whole(1), 149, n, 1);
    let next = a + Num::whole(1);
    lemma_slack_lets_nothing_in(a, a, 149, n, n);
    lemma_slack_lets_nothing_in(next, a, 149, n + 1, n);
    let s = a + slack();
    grid::lemma_finite(a, 149, n);
    grid::lemma_finite(next, 149, n + 1);
    let t = a.ticks(149);
    assert(a.units() == t * p && next.units() == (t + 1) * p && -n <= t <= n) by {
        reveal(Num::on);
    }
    exact::lemma_hundredth();
    exact::lemma_finite_terms(slack(), a);
    exact::lemma_between_finite(a, s, next);
    crate::num::lemma_rank_is_value(a, s);
    crate::num::lemma_rank_is_value(s, a);
    crate::num::lemma_rank_is_value(s, next);
    let u = rounding::units(s.mag()) as int;
    assert(u <= (n + 1) * p) by (nonlinear_arith)
        requires
            u == s.units() || u == -s.units(),
            t * p <= s.units() < (t + 1) * p,
            -n <= t <= n,
            p > 0,
    ;
    assert(s.int_part() < 0xff_ffff) by {
        vstd::arithmetic::div_mod::lemma_div_is_ordered(u, (n + 1) * p, p);
        vstd::arithmetic::div_mod::lemma_div_multiples_vanish(n + 1, p);
        assert((n + 1) * p == p * (n + 1)) by (nonlinear_arith);
    }
    let k = lemma_floor_is_below(s);
    assert(k == t) by (nonlinear_arith)
        requires
            k * p <= s.units() < (k + 1) * p,
            t * p <= s.units() < (t + 1) * p,
            p > 0,
    ;
    lemma_on(Num::floored(s), 149, t, n);
}

} // verus!

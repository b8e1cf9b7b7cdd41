//! Boxes without children: text, images and form controls, and the lines they
//! stand on.
use vstd::prelude::*;
use vstd::arithmetic::div_mod::*;
use vstd::arithmetic::power2::*;
use crate::boxes::{BoxType, BoxV};
use crate::exact;
use crate::geometry::Dimensions;
use crate::grid;
use crate::leaf::{
    block_lines, control_laid, flow_lines, image_laid, image_size, known_size, plain_edges,
    spaced_metrics, text_flowed, text_laid, united, widest_line,
    wrapped,
};
use crate::num::Num;
use crate::rounding;
use crate::sizing::{
    advance, baseline_extents, control_size, crossed, intrinsic_size, leading, line_extents,
    line_px, run_height, seat,
};
use crate::style::{BoxSizing, ComputedStyle, Length, LineHeight};
use crate::text::{self, Shaper, WrappedLine};

verus! {

/// The number of a sign and a whole magnitude that is exact.
proof fn lemma_integer(neg: bool, n: nat)
    requires
        n < 0x100_0000,
    ensures
        Num::integer(neg, n).finite(),
        Num::integer(neg, n).units() == if neg {
            -(n * pow2(149))
        } else {
            (n * pow2(149)) as int
        },
{
    exact::lemma_representable(n, 149);
    reveal(Num::nan);
}

/// Rounding down gives the whole number that is not above and less than one
/// below.
pub proof fn lemma_floor_is_below(a: Num) -> (k: int)
    requires
        a.finite(),
        a.int_part() < 0xff_ffff,
    ensures
        Num::floored(a).finite(),
        Num::floored(a).units() == k * pow2(149),
        k * pow2(149) <= a.units() < (k + 1) * pow2(149),
{
    reveal(Num::floored);
    reveal(Num::nan);
    let p = pow2(149) as int;
    lemma_pow2_pos(149);
    let u = rounding::units(a.mag()) as int;
    let q = u / p;
    let r = u % p;
    lemma_fundamental_div_mod(u, p);
    lemma_mod_bound(u, p);
    lemma_div_pos_is_pos(u, p);
    assert(u == q * p + r) by {
        assert(p * q == q * p) by (nonlinear_arith);
    }
    assert((q + 1) * p == q * p + p && (-q) * p == -(q * p) && (-q - 1) * p == -(q * p) - p && (-q
        + 1) * p == -(q * p) + p) by (nonlinear_arith);
    if a.neg() && r != 0 {
        lemma_integer(true, (q + 1) as nat);
        -q - 1
    } else {
        lemma_integer(a.neg(), q as nat);
        if a.neg() {
            -q
        } else {
            q
        }
    }
}

/// Rounding gives a whole number no more than a half away, and of two the one
/// away from zero.
pub proof fn lemma_round_is_nearest(a: Num) -> (k: int)
    requires
        a.finite(),
        a.int_part() < 0xff_ffff,
    ensures
        Num::rounded(a).finite(),
        Num::rounded(a).units() == k * pow2(149),
        2 * (k * pow2(149)) - pow2(149) <= 2 * a.units() <= 2 * (k * pow2(149)) + pow2(149),
        2 * a.units() == 2 * (k * pow2(149)) - pow2(149) ==> a.units() > 0,
        2 * a.units() == 2 * (k * pow2(149)) + pow2(149) ==> a.units() < 0,
{
    reveal(Num::rounded);
    reveal(Num::nan);
    let p = pow2(149) as int;
    lemma_pow2_pos(149);
    let u = rounding::units(a.mag()) as int;
    let q = u / p;
    let r = u % p;
    lemma_fundamental_div_mod(u, p);
    lemma_mod_bound(u, p);
    lemma_div_pos_is_pos(u, p);
    assert(u == q * p + r) by {
        assert(p * q == q * p) by (nonlinear_arith);
    }
    assert(q * p >= 0) by (nonlinear_arith)
        requires
            q >= 0,
            p > 0,
    ;
    assert((q + 1) * p == q * p + p && (-q) * p == -(q * p) && (-q - 1) * p == -(q * p) - p)
        by (nonlinear_arith);
    let n = if 2 * r >= p {
        q + 1
    } else {
        q
    };
    lemma_integer(a.neg(), n as nat);
    if a.neg() {
        -n
    } else {
        n
    }
}

/// What is whole stays itself under rounding, up to the sign of zero.
proof fn lemma_whole_stays(a: Num, n: int)
    requires
        a.on(149, n),
        0 <= n < 0xff_ffff,
    ensures
        Num::rounded(a).on(149, n),
        Num::rounded(a).ticks(149) == a.ticks(149),
{
    lemma_small_part(a, 149, n);
    let k = lemma_round_is_nearest(a);
    let t = a.ticks(149);
    let p = pow2(149) as int;
    lemma_pow2_pos(149);
    assert(a.units() == t * p && -n <= t <= n) by {
        reveal(Num::on);
    }
    assert(k == t) by (nonlinear_arith)
        requires
            2 * (k * p) - p <= 2 * (t * p) <= 2 * (k * p) + p,
            p > 0,
    ;
    lemma_on_units(Num::rounded(a), 149, t, n);
}

proof fn lemma_on_units(a: Num, g: nat, k: int, n: int)
    requires
        a.finite(),
        g <= 253,
        a.units() == k * pow2(g),
        -n <= k <= n,
    ensures
        a.on(g, n),
        a.ticks(g) == k,
{
    reveal(Num::on);
    reveal(Num::ticks);
    lemma_pow2_pos(g);
    lemma_div_multiples_vanish(k, pow2(g) as int);
}

proof fn lemma_small_part(a: Num, g: nat, n: int)
    requires
        a.on(g, n),
        g <= 149,
        0 <= n < 0xff_ffff,
    ensures
        a.finite(),
        a.int_part() < 0xff_ffff,
{
    reveal(Num::on);
    let p = pow2(149) as int;
    let q = pow2(g) as int;
    let t = a.ticks(g);
    lemma_pow2_pos(149);
    lemma_pow2_pos(g);
    rounding::lemma_pow2_le(g, 149);
    let u = rounding::units(a.mag()) as int;
    assert(u <= n * q) by (nonlinear_arith)
        requires
            u == t * q || u == -(t * q),
            -n <= t <= n,
            q > 0,
    ;
    assert(n * q <= n * p) by (nonlinear_arith)
        requires
            0 <= n,
            q <= p,
    ;
    lemma_div_is_ordered(u, n * p, p);
    lemma_div_multiples_vanish(n, p);
    assert(p * n == n * p) by (nonlinear_arith);
}

/// Half of a whole number, rounded down.
proof fn lemma_half_floor(l: Num, n: int)
    requires
        l.on(149, n),
        0 <= n < 0x40_0000,
    ensures
        Num::floored(l / Num::whole(2)).on(149, n),
        Num::floored(l / Num::whole(2)).ticks(149) == l.ticks(149) / 2,
{
    let t = l.ticks(149);
    let p = pow2(149) as int;
    let h = pow2(148) as int;
    lemma_pow2_pos(148);
    lemma_pow2_adds(148, 1);
    lemma2_to64();
    assert(p == 2 * h) by {
        assert(h * 2 == 2 * h);
    }
    assert(l.units() == t * p && -n <= t <= n && l.finite()) by {
        reveal(Num::on);
    }
    assert(t * p == (2 * t) * h) by (nonlinear_arith)
        requires
            p == 2 * h,
    ;
    lemma_on_units(l, 148, 2 * t, 2 * n);
    grid::lemma_part(2, l, 148, 2 * n);
    let x = l / Num::whole(2);
    lemma_small_part(x, 148, 2 * n);
    let k = lemma_floor_is_below(x);
    assert(x.units() == t * h) by {
        reveal(Num::on);
    }
    assert(2 * k <= t && t < 2 * k + 2) by (nonlinear_arith)
        requires
            k * p <= t * h < (k + 1) * p,
            p == 2 * h,
            h > 0,
    ;
    lemma_on_units(Num::floored(x), 149, k, n);
}

/// The seat of whole metrics is on the grid of whole numbers.
pub proof fn lemma_seat_on(line_height: Num, ascent: Num, descent: Num)
    requires
        line_height.on(149, 0x8_0000) && ascent.on(149, 0x8_0000) && descent.on(149, 0x8_0000),
    ensures
        seat(line_height, ascent, descent).on(149, 0x20_0000),
{
    let u: int = 0x8_0000;
    let a = Num::rounded(ascent);
    let d = Num::rounded(descent);
    lemma_whole_stays(ascent, u);
    lemma_whole_stays(descent, u);
    grid::lemma_sum(a, d, 149, u, u);
    grid::lemma_difference(line_height, a + d, 149, u, 2 * u);
    let l = line_height - (a + d);
    lemma_half_floor(l, 3 * u);
    grid::lemma_sum(Num::floored(l / Num::whole(2)), a, 149, 3 * u, u);
}

/// The seat of a baseline shares the leading: with whole metrics, what is
/// above the ascent is what is left below the descent, or a pixel less.
pub proof fn lemma_seat_shares_leading(line_height: Num, ascent: Num, descent: Num)
    requires
        line_height.on(149, 0x8_0000) && ascent.on(149, 0x8_0000) && descent.on(149, 0x8_0000),
    ensures
        ({
            let above = seat(line_height, ascent, descent).ticks(149) - ascent.ticks(149);
            let below = line_height.ticks(149) - seat(line_height, ascent, descent).ticks(149)
                - descent.ticks(149);
            above <= below && below <= above + 1
        }),
{
    let u: int = 0x8_0000;
    let a = Num::rounded(ascent);
    let d = Num::rounded(descent);
    lemma_whole_stays(ascent, u);
    lemma_whole_stays(descent, u);
    grid::lemma_sum(a, d, 149, u, u);
    grid::lemma_difference(line_height, a + d, 149, u, 2 * u);
    let l = line_height - (a + d);
    lemma_half_floor(l, 3 * u);
    grid::lemma_sum(Num::floored(l / Num::whole(2)), a, 149, 3 * u, u);
}

/// A line of text is as high as its line height: the extents above and below
/// its baseline add up to it, and share the leading. With whole metrics.
pub proof fn lemma_line_extents_make_line_height(sh: Shaper, style: ComputedStyle)
    requires
        ({
            let size = style.font_px();
            let m = text::x_metrics(sh, style, size);
            &&& m.ascent > Num::nought()
            &&& m.ascent.on(149, 0x8_0000) && m.descent.on(149, 0x8_0000)
            &&& line_px(sh, style, size).on(149, 0x8_0000)
        }),
    ensures
        ({
            let size = style.font_px();
            let m = text::x_metrics(sh, style, size);
            let (above, below) = line_extents(sh, style);
            let h = line_px(sh, style, size).ticks(149);
            let over = above.ticks(149) - m.ascent.ticks(149);
            &&& above.ticks(149) <= h ==> above.ticks(149) + below.ticks(149) == h
            &&& above.ticks(149) > h ==> below.ticks(149) == 0
            &&& over <= h - above.ticks(149) - m.descent.ticks(149)
            &&& h - above.ticks(149) - m.descent.ticks(149) <= over + 1
        }),
{
    let u: int = 0x8_0000;
    let size = style.font_px();
    let m = text::x_metrics(sh, style, size);
    let h = line_px(sh, style, size);
    let a = Num::rounded(m.ascent);
    let d = Num::rounded(m.descent);
    lemma_whole_stays(m.ascent, u);
    lemma_whole_stays(m.descent, u);
    grid::lemma_sum(a, d, 149, u, u);
    grid::lemma_difference(h, a + d, 149, u, 2 * u);
    let l = h - (a + d);
    lemma_half_floor(l, 3 * u);
    grid::lemma_sum(a, Num::floored(l / Num::whole(2)), 149, u, 3 * u);
    let above = line_extents(sh, style).0;
    grid::lemma_difference(h, above, 149, u, 4 * u);
    grid::lemma_zero(149);
    grid::lemma_wider(Num::nought(), 149, 0, 5 * u);
    grid::lemma_extremes(h - above, Num::nought(), 149, 5 * u);
}

/// The extents about the baseline, with half the leading in each, add up to
/// the line height and leave as much above the ascent as below the descent.
pub proof fn lemma_baseline_extents_share_leading(sh: Shaper, style: ComputedStyle, g: nat)
    requires
        ({
            let size = style.font_px();
            let m = text::x_metrics(sh, style, size);
            let h = line_px(sh, style, size);
            &&& m.ascent.coord(g) && m.descent.coord(g) && h.coord(g)
            &&& (h.ticks(g) - m.ascent.ticks(g) - m.descent.ticks(g)) % 2 == 0
        }),
    ensures
        ({
            let size = style.font_px();
            let m = text::x_metrics(sh, style, size);
            let (above, below) = baseline_extents(sh, style);
            &&& above.ticks(g) + below.ticks(g) == line_px(sh, style, size).ticks(g)
            &&& above.ticks(g) - m.ascent.ticks(g) == below.ticks(g) - m.descent.ticks(g)
        }),
{
    let u: int = 0x8_0000;
    let size = style.font_px();
    let m = text::x_metrics(sh, style, size);
    let h = line_px(sh, style, size);
    grid::lemma_sum(m.ascent, m.descent, g, u, u);
    grid::lemma_difference(h, m.ascent + m.descent, g, u, 2 * u);
    let l = h - (m.ascent + m.descent);
    grid::lemma_part(2, l, g, 3 * u);
    grid::lemma_sum(l / Num::whole(2), m.ascent, g, 3 * u, u);
    grid::lemma_sum(l / Num::whole(2), m.descent, g, 3 * u, u);
}

/// A line box is as high as it has to be and no higher: no lower than its
/// tallest member, than what hangs from its bottom edge, and than the greatest
/// reach above and below the baseline together; and as high as one of them.
pub proof fn lemma_line_box_holds_its_members(
    tallest: Num,
    bottom_edge: Num,
    extents: (Num, Num),
    strut: (Num, Num),
    g: nat,
)
    requires
        tallest.coord(g) && bottom_edge.coord(g),
        extents.0.coord(g) && extents.1.coord(g) && strut.0.coord(g) && strut.1.coord(g),
    ensures
        ({
            let h = advance(tallest, bottom_edge, extents, strut).ticks(g);
            let (a, b) = (extents.0.ticks(g), extents.1.ticks(g));
            let (c, d) = (strut.0.ticks(g), strut.1.ticks(g));
            &&& h >= tallest.ticks(g) && h >= bottom_edge.ticks(g)
            &&& h >= a + b && h >= a + d && h >= c + b && h >= c + d
            &&& h == tallest.ticks(g) || h == bottom_edge.ticks(g) || h == a + b || h == a + d || h
                == c + b || h == c + d
        }),
{
    let u: int = 0x8_0000;
    grid::lemma_extremes(tallest, bottom_edge, g, u);
    grid::lemma_extremes(extents.0, strut.0, g, u);
    grid::lemma_extremes(extents.1, strut.1, g, u);
    let up = Num::larger(extents.0, strut.0);
    let down = Num::larger(extents.1, strut.1);
    grid::lemma_sum(up, down, g, u, u);
    let t = Num::larger(tallest, bottom_edge);
    grid::lemma_wider(t, g, u, 2 * u);
    grid::lemma_extremes(t, up + down, g, 2 * u);
}

/// A line height is the one of the style: so many pixels, or so many times the
/// font size.
pub proof fn lemma_line_height_is_that_of_the_style(
    sh: Shaper,
    style: ComputedStyle,
    size: Num,
    k: nat,
    g: nat,
    n: int,
)
    requires
        size.on(g, n),
        0 <= n && k < 0x100_0000 && k * n < 0x100_0000,
    ensures
        style.line_height matches LineHeight::Px(px) ==> line_px(sh, style, size) == px,
        style.line_height == LineHeight::Number(Num::whole(k as int)) ==> line_px(
            sh,
            style,
            size,
        ).ticks(g) == k * size.ticks(g),
        style.line_height is Normal ==> {
            let m = text::x_metrics(sh, style, size);
            m.ascent > Num::nought() && m.ascent.on(149, 0x8_0000) && m.descent.on(149, 0x8_0000)
                && m.leading.on(149, 0x8_0000) ==> line_px(sh, style, size).ticks(149)
                == m.ascent.ticks(149) + m.descent.ticks(149) + m.leading.ticks(149)
        },
{
    grid::lemma_times(k, size, g, n);
    let m = text::x_metrics(sh, style, size);
    let u: int = 0x8_0000;
    if m.ascent.on(149, 0x8_0000) && m.descent.on(149, 0x8_0000) && m.leading.on(149, 0x8_0000) {
        lemma_whole_stays(m.ascent, u);
        lemma_whole_stays(m.descent, u);
        lemma_whole_stays(m.leading, u);
        let (a, d, l) = (
            Num::rounded(m.ascent),
            Num::rounded(m.descent),
            Num::rounded(m.leading),
        );
        grid::lemma_sum(a, d, 149, u, u);
        grid::lemma_sum(a + d, l, 149, 2 * u, u);
    }
}

/// The widest line is as wide as one of the lines, and none is wider.
proof fn lemma_widest(lines: Seq<WrappedLine>, g: nat, i: int) -> (k: int)
    requires
        g <= 253,
        forall|k: int| 0 <= k < lines.len() ==> (#[trigger] lines[k]).width.coord(g),
    ensures
        widest_line(lines).coord(g),
        -1 <= k < lines.len(),
        k == -1 ==> widest_line(lines).ticks(g) == 0,
        k >= 0 ==> widest_line(lines).ticks(g) == lines[k].width.ticks(g),
        0 <= i < lines.len() ==> lines[i].width.ticks(g) <= widest_line(lines).ticks(g),
    decreases lines.len(),
{
    let n: int = 0x8_0000;
    grid::lemma_zero(g);
    grid::lemma_wider(Num::nought(), g, 0, n);
    if lines.len() == 0 {
        -1
    } else {
        let rest = lines.drop_last();
        assert forall|k: int| 0 <= k < rest.len() implies (#[trigger] rest[k]).width.coord(g) by {
            assert(rest[k] == lines[k]);
        }
        let k = lemma_widest(rest, g, i);
        let last = lines[lines.len() - 1].width;
        assert(last.coord(g));
        grid::lemma_extremes(widest_line(rest), last, g, n);
        if widest_line(rest).ticks(g) < last.ticks(g) {
            lines.len() - 1
        } else {
            k
        }
    }
}

/// Text starts below what its container already holds, at its left edge. It is
/// as high as its lines, and as wide as the widest of them, but no wider than
/// the container.
pub proof fn lemma_text_takes_its_lines(
    sh: Shaper,
    b: BoxV,
    cb: Dimensions,
    zero_is_known: bool,
    g: nat,
    i: int,
)
    requires
        cb.content.coords(g) && cb.content.width.ticks(g) > 0,
        ({
            let m = spaced_metrics(sh, b.own.style, b.text());
            &&& run_height(sh, b.own.style, b.own.style.font_px(), m).on(g, 0x1000)
            &&& m.width.coord(g)
            &&& block_lines(sh, b, cb, zero_is_known) matches Some(lines) ==> lines.len() < 0x1000
                && 0 <= i < lines.len() && forall|k: int|
                0 <= k < lines.len() ==> (#[trigger] lines[k]).width.coord(g)
        }),
    ensures
        ({
            let c = text_laid(sh, b, cb, zero_is_known);
            let m = spaced_metrics(sh, b.own.style, b.text());
            let line = run_height(sh, b.own.style, b.own.style.font_px(), m).ticks(g);
            let wide = cb.content.width.ticks(g);
            &&& c.dim.content.x == cb.content.x
            &&& c.dim.content.y.ticks(g) == cb.content.y.ticks(g) + cb.content.height.ticks(g)
            &&& c.dim.content.width.ticks(g) <= wide
            &&& match c.lines {
                Some(l) => {
                    &&& c.dim.content.height.ticks(g) == l.len() * line
                    &&& c.dim.content.width.ticks(g) == wide || c.dim.content.width.ticks(g)
                        >= l[i].width.ticks(g)
                    &&& l[i].x_offset == Num::nought()
                },
                None => {
                    &&& c.dim.content.height.ticks(g) == line
                    &&& c.dim.content.width.ticks(g) == if m.width.ticks(g) < wide {
                        m.width.ticks(g)
                    } else {
                        wide
                    }
                },
            }
        }),
{
    reveal(text_laid);
    let u: int = 0x8_0000;
    let m = spaced_metrics(sh, b.own.style, b.text());
    let line = run_height(sh, b.own.style, b.own.style.font_px(), m);
    grid::lemma_sum(cb.content.y, cb.content.height, g, u, u);
    grid::lemma_finite(cb.content.width, g, u);
    grid::lemma_zero(g);
    grid::lemma_order(cb.content.width, Num::nought(), g, u, 0);
    grid::lemma_extremes(m.width, cb.content.width, g, u);
    match block_lines(sh, b, cb, zero_is_known) {
        Some(lines) => {
            let n = lines.len();
            assert(n * 0x1000 < 0x100_0000) by (nonlinear_arith)
                requires
                    n < 0x1000,
            ;
            grid::lemma_times(n, line, g, 0x1000);
            let k = lemma_widest(lines, g, i);
            grid::lemma_extremes(widest_line(lines), cb.content.width, g, u);
        },
        None => {},
    }
}

/// Text that enters a line half-way takes the width of its container; its
/// first line starts at the offset, the others at the left edge.
pub proof fn lemma_entered_text_takes_its_lines(
    sh: Shaper,
    b: BoxV,
    cb: Dimensions,
    line_top: Num,
    first_offset: Num,
    g: nat,
    i: int,
)
    requires
        ({
            let lines = flow_lines(sh, b, cb, first_offset);
            &&& lines is Some && lines->0.len() < 0x1000 && 0 <= i < lines->0.len()
            &&& run_height(sh, b.own.style, b.own.style.font_px(), united(lines->0)).on(g, 0x1000)
        }),
    ensures
        ({
            let (c, n, last) = text_flowed(sh, b, cb, line_top, first_offset);
            let lines = flow_lines(sh, b, cb, first_offset)->0;
            let line = run_height(sh, b.own.style, b.own.style.font_px(), united(lines)).ticks(g);
            &&& c.lines is Some && c.lines->0.len() == n && n == lines.len()
            &&& c.dim.content.height.ticks(g) == n * line
            &&& c.dim.content.x == cb.content.x && c.dim.content.y == line_top
            &&& c.dim.content.width == cb.content.width
            &&& c.lines->0[0].x_offset == first_offset
            &&& i > 0 ==> c.lines->0[i].x_offset == Num::nought()
            &&& last == c.lines->0.last().width
            &&& c.flow == Some(first_offset)
        }),
{
    reveal(text_flowed);
    let lines = flow_lines(sh, b, cb, first_offset)->0;
    let line = run_height(sh, b.own.style, b.own.style.font_px(), united(lines));
    let n = lines.len();
    assert(n * 0x1000 < 0x100_0000) by (nonlinear_arith)
        requires
            n < 0x1000,
    ;
    grid::lemma_times(n, line, g, 0x1000);
}

/// The edges of a replaced box are those of its style, side by side; a
/// percentage is of the width of the container on all four sides.
pub proof fn lemma_plain_edges_are_those_of_the_style(s: ComputedStyle, w: Num)
    ensures
        ({
            let (margin, border, padding) = plain_edges(s, w);
            &&& s.margin_top matches Length::Px(v) ==> margin.top == v
            &&& s.margin_right matches Length::Px(v) ==> margin.right == v
            &&& s.margin_bottom matches Length::Px(v) ==> margin.bottom == v
            &&& s.margin_left matches Length::Px(v) ==> margin.left == v
            &&& s.border_top_width matches Length::Px(v) ==> border.top == v
            &&& s.border_right_width matches Length::Px(v) ==> border.right == v
            &&& s.border_bottom_width matches Length::Px(v) ==> border.bottom == v
            &&& s.border_left_width matches Length::Px(v) ==> border.left == v
            &&& s.padding_top matches Length::Px(v) ==> padding.top == v
            &&& s.padding_right matches Length::Px(v) ==> padding.right == v
            &&& s.padding_bottom matches Length::Px(v) ==> padding.bottom == v
            &&& s.padding_left matches Length::Px(v) ==> padding.left == v
            &&& s.padding_top == s.padding_left ==> padding.top == padding.left
            &&& s.padding_bottom == s.padding_right ==> padding.bottom == padding.right
            &&& s.margin_top == s.margin_left ==> margin.top == margin.left
            &&& s.margin_bottom == s.margin_right ==> margin.bottom == margin.right
        }),
{
}

/// An image stands below what its container already holds, its margin box at
/// the left edge.
pub proof fn lemma_image_stands_in_container(
    b: BoxV,
    natural_width: Num,
    natural_height: Num,
    cb: Dimensions,
    g: nat,
)
    requires
        cb.content.coords(g),
        image_laid(b, natural_width, natural_height, cb).dim.margin.coords(g),
        image_laid(b, natural_width, natural_height, cb).dim.border.coords(g),
        image_laid(b, natural_width, natural_height, cb).dim.padding.coords(g),
    ensures
        ({
            let d = image_laid(b, natural_width, natural_height, cb).dim;
            &&& d.margin_box().x.ticks(g) == cb.content.x.ticks(g)
            &&& d.margin_box().y.ticks(g) == cb.content.y.ticks(g) + cb.content.height.ticks(g)
        }),
{
    reveal(image_laid);
    let u: int = 0x8_0000;
    let d = image_laid(b, natural_width, natural_height, cb).dim;
    let (m, e, p) = (d.margin, d.border, d.padding);
    let (x, y) = (cb.content.x, cb.content.y + cb.content.height);
    grid::lemma_sum(x, m.left, g, u, u);
    grid::lemma_sum(x + m.left, e.left, g, 2 * u, u);
    grid::lemma_sum(x + m.left + e.left, p.left, g, 3 * u, u);
    grid::lemma_difference(d.content.x, p.left, g, 4 * u, u);
    grid::lemma_difference(d.padding_box().x, e.left, g, 5 * u, u);
    grid::lemma_difference(d.border_box().x, m.left, g, 6 * u, u);
    grid::lemma_sum(cb.content.y, cb.content.height, g, u, u);
    grid::lemma_sum(y, m.top, g, 2 * u, u);
    grid::lemma_sum(y + m.top, e.top, g, 3 * u, u);
    grid::lemma_sum(y + m.top + e.top, p.top, g, 4 * u, u);
    grid::lemma_difference(d.content.y, p.top, g, 5 * u, u);
    grid::lemma_difference(d.padding_box().y, e.top, g, 6 * u, u);
    grid::lemma_difference(d.border_box().y, m.top, g, 7 * u, u);
}

/// Whether the size of an image is left to its width and height alone.
pub open spec fn sized_plainly(s: ComputedStyle) -> bool {
    &&& s.box_sizing == BoxSizing::ContentBox
    &&& s.aspect_ratio is None
    &&& s.max_width == Length::Auto && s.max_height == Length::Auto
}

/// An image has its natural size where the style gives none; where it gives
/// one side the other follows in proportion; where it gives both they are
/// used.
pub proof fn lemma_image_keeps_proportions(
    s: ComputedStyle,
    width: nat,
    height: nat,
    horizontal: Num,
    vertical: Num,
    cb: Dimensions,
    side: Num,
    g: nat,
)
    requires
        sized_plainly(s),
        0 < width < 0x1000 && 0 < height < 0x1000,
        side.on(g, 0x1000),
        (height * side.ticks(g)) % width as int == 0,
        (width * side.ticks(g)) % height as int == 0,
    ensures
        ({
            let (w, h) = image_size(
                s,
                Num::whole(width as int),
                Num::whole(height as int),
                horizontal,
                vertical,
                cb,
            );
            &&& s.width == Length::Auto && s.height == Length::Auto ==> w == Num::whole(
                width as int,
            ) && h == Num::whole(height as int)
            &&& s.width == Length::Px(side) && s.height == Length::Auto ==> w == side && width
                * h.ticks(g) == height * side.ticks(g)
            &&& s.width == Length::Auto && s.height == Length::Px(side) ==> h == side && height
                * w.ticks(g) == width * side.ticks(g)
            &&& s.width is Px && s.height is Px ==> Length::Px(w) == s.width && Length::Px(h)
                == s.height
        }),
{
    lemma_natural(width);
    lemma_natural(height);
    let n: int = 0x1000;
    assert(width * n < 0x100_0000 && height * n < 0x100_0000 && 0 <= width * n && 0 <= height * n)
        by (nonlinear_arith)
        requires
            width < 0x1000,
            height < 0x1000,
            n == 0x1000,
    ;
    grid::lemma_times(height, side, g, n);
    grid::lemma_times(width, side, g, n);
    grid::lemma_part(width, side * Num::whole(height as int), g, height * n);
    grid::lemma_part(height, side * Num::whole(width as int), g, width * n);
}

proof fn lemma_natural(k: nat)
    requires
        0 < k < 0x100_0000,
    ensures
        known_size(Num::whole(k as int)) == Some(Num::whole(k as int)),
{
    exact::lemma_whole(k as int);
    exact::lemma_whole(0);
    lemma_pow2_pos(149);
    crate::num::lemma_decode(0);
    assert(k * pow2(149) > 0) by (nonlinear_arith)
        requires
            k > 0,
            pow2(149) > 0,
    ;
    crate::margin_collapse::lemma_zero_is_number();
    crate::num::lemma_rank_is_value(Num::nought(), Num::whole(k as int));
}

/// A maximal width or height holds an image down, and its other side follows
/// in proportion.
pub proof fn lemma_image_is_held_in_proportion(
    s: ComputedStyle,
    width: nat,
    height: nat,
    horizontal: Num,
    vertical: Num,
    cb: Dimensions,
    max: Num,
    g: nat,
)
    requires
        s.box_sizing == BoxSizing::ContentBox && s.aspect_ratio is None,
        s.width == Length::Auto && s.height == Length::Auto,
        0 < width < 0x1000 && 0 < height < 0x1000,
        max.on(g, 0x1000),
        (height * max.ticks(g)) % width as int == 0,
        (width * max.ticks(g)) % height as int == 0,
    ensures
        ({
            let (w, h) = image_size(
                s,
                Num::whole(width as int),
                Num::whole(height as int),
                horizontal,
                vertical,
                cb,
            );
            &&& s.max_width == Length::Px(max) && s.max_height == Length::Auto && max < Num::whole(
                width as int,
            ) ==> w == max && width * h.ticks(g) == height * max.ticks(g)
            &&& s.max_width == Length::Auto && s.max_height == Length::Px(max) && max < Num::whole(
                height as int,
            ) ==> h == max && height * w.ticks(g) == width * max.ticks(g)
        }),
{
    lemma_natural(width);
    lemma_natural(height);
    let n: int = 0x1000;
    assert(width * n < 0x100_0000 && height * n < 0x100_0000 && 0 <= width * n && 0 <= height * n)
        by (nonlinear_arith)
        requires
            width < 0x1000,
            height < 0x1000,
            n == 0x1000,
    ;
    grid::lemma_times(height, max, g, n);
    grid::lemma_times(width, max, g, n);
    grid::lemma_part(width, max * Num::whole(height as int), g, height * n);
    grid::lemma_part(height, max * Num::whole(width as int), g, width * n);
}

/// Whichever side is known, a preferred ratio makes the width so many times
/// the height, of the content box or of the border box.
pub proof fn lemma_ratio_crosses_both_ways(
    side: Num,
    horizontal: Num,
    vertical: Num,
    k: nat,
    border_box: bool,
    g: nat,
)
    requires
        side.on(g, 0x1000) && horizontal.on(g, 0x1000) && vertical.on(g, 0x1000),
        0 < k < 0x100,
        side.ticks(g) >= 0 && side.ticks(g) % k as int == 0,
        (side.ticks(g) + horizontal.ticks(g)) % k as int == 0,
    ensures
        ({
            let q = Num::whole(k as int);
            let h = crossed(side, horizontal, vertical, q, true, border_box).ticks(g);
            let w = crossed(side, vertical, horizontal, q, false, border_box).ticks(g);
            let (s, x, y) = (side.ticks(g), horizontal.ticks(g), vertical.ticks(g));
            &&& h >= 0 && w >= 0
            &&& !border_box ==> k * h == s && w == k * s
            &&& border_box && h > 0 ==> k * (h + y) == s + x
            &&& border_box && w > 0 ==> w + x == k * (s + y)
        }),
{
    let n: int = 0x1000;
    let q = Num::whole(k as int);
    assert(k * (2 * n) < 0x100_0000 && 0 <= k * n && 0 <= k * (2 * n) && k * n <= k * (2 * n))
        by (nonlinear_arith)
        requires
            0 < k < 0x100,
            n == 0x1000,
    ;
    grid::lemma_finite(side, g, n);
    grid::lemma_zero(g);
    let zero = Num::nought();
    if border_box {
        grid::lemma_sum(side, horizontal, g, n, n);
        grid::lemma_part(k, side + horizontal, g, 2 * n);
        let d = (side + horizontal) / q;
        grid::lemma_difference(d, vertical, g, 2 * n, n);
        grid::lemma_wider(zero, g, 0, 3 * n);
        grid::lemma_extremes(d - vertical, zero, g, 3 * n);
        grid::lemma_sum(side, vertical, g, n, n);
        grid::lemma_times(k, side + vertical, g, 2 * n);
        let e = (side + vertical) * q;
        grid::lemma_difference(e, horizontal, g, k * (2 * n), n);
        grid::lemma_wider(zero, g, 0, k * (2 * n) + n);
        grid::lemma_extremes(e - horizontal, zero, g, k * (2 * n) + n);
        let (h, y) = ((d - vertical).ticks(g), vertical.ticks(g));
        assert(k * (h + y) == k * d.ticks(g)) by {
            assert(h + y == d.ticks(g));
        }
    } else {
        grid::lemma_part(k, side, g, n);
        grid::lemma_wider(zero, g, 0, n);
        grid::lemma_extremes(side / q, zero, g, n);
        grid::lemma_times(k, side, g, n);
        grid::lemma_wider(zero, g, 0, k * n);
        grid::lemma_extremes(side * q, zero, g, k * n);
        let t = (side / q).ticks(g);
        assert(t >= 0) by (nonlinear_arith)
            requires
                k * t == side.ticks(g),
                side.ticks(g) >= 0,
                k > 0,
        ;
        assert(k * side.ticks(g) >= 0) by (nonlinear_arith)
            requires
                side.ticks(g) >= 0,
                k > 0,
        ;
    }
}

/// A form control stands below what its container already holds, its margin
/// edge at the left; a size above zero that the style gives in pixels is used.
pub proof fn lemma_control_stands_in_container(sh: Shaper, b: BoxV, cb: Dimensions, g: nat)
    requires
        cb.content.coords(g),
        control_laid(sh, b, cb).dim.margin.left.coord(g),
        control_laid(sh, b, cb).dim.margin.top.coord(g),
    ensures
        ({
            let d = control_laid(sh, b, cb).dim;
            let s = b.own.style;
            &&& d.content.x.ticks(g) - d.margin.left.ticks(g) == cb.content.x.ticks(g)
            &&& d.content.y.ticks(g) - d.margin.top.ticks(g) == cb.content.y.ticks(g)
                + cb.content.height.ticks(g)
            &&& (s.width matches Length::Px(v) ==> (v > Num::nought() ==> d.content.width == v))
            &&& (s.height matches Length::Px(v) ==> (v > Num::nought() ==> d.content.height == v))
            &&& s.margin_left matches Length::Px(v) ==> d.margin.left == v
            &&& s.margin_right matches Length::Px(v) ==> d.margin.right == v
            &&& s.margin_top matches Length::Px(v) ==> d.margin.top == v
            &&& s.margin_bottom matches Length::Px(v) ==> d.margin.bottom == v
        }),
{
    reveal(control_laid);
    let u: int = 0x8_0000;
    let d = control_laid(sh, b, cb).dim;
    grid::lemma_sum(cb.content.x, d.margin.left, g, u, u);
    grid::lemma_sum(cb.content.y, cb.content.height, g, u, u);
    grid::lemma_sum(cb.content.y + cb.content.height, d.margin.top, g, 2 * u, u);
}

/// Percentages of an image or a control are of the container: of its width
/// across, of its height down.
pub proof fn lemma_percentages_measure_the_container(
    s: ComputedStyle,
    natural_width: Num,
    natural_height: Num,
    horizontal: Num,
    vertical: Num,
    cb: Dimensions,
    sh: Shaper,
    b: BoxV,
)
    requires
        sized_plainly(s),
        s.width == Length::Percent(Num::whole(100)) && s.height == Length::Percent(Num::whole(100)),
        b.own.style.width == Length::Percent(Num::whole(100)),
        b.own.style.height == Length::Percent(Num::whole(100)),
        cb.content.width > Num::nought() && cb.content.height > Num::nought(),
    ensures
        image_size(s, natural_width, natural_height, horizontal, vertical, cb) == (
            cb.content.width,
            cb.content.height,
        ),
        control_laid(sh, b, cb).dim.content.width == cb.content.width,
        control_laid(sh, b, cb).dim.content.height == cb.content.height,
{
    reveal(control_laid);
    grid::lemma_all_of(cb.content.width);
    grid::lemma_all_of(cb.content.height);
}

/// Text that enters a line half-way has what the line has left for its first
/// line, and the whole width for the others.
pub proof fn lemma_entered_text_fits_what_is_left(
    sh: Shaper,
    b: BoxV,
    cb: Dimensions,
    first_offset: Num,
    g: nat,
) -> (left: Num)
    requires
        cb.content.width.coord(g) && first_offset.coord(g),
        0 < first_offset.ticks(g) <= cb.content.width.ticks(g),
        flow_lines(sh, b, cb, first_offset) is Some,
    ensures
        first_offset.ticks(g) + left.ticks(g) == cb.content.width.ticks(g),
        wrapped(sh, b.own.style, b.text(), Some(left), cb.content.width) == flow_lines(
            sh,
            b,
            cb,
            first_offset,
        ),
{
    let u: int = 0x8_0000;
    let width = cb.content.width;
    grid::lemma_difference(width, first_offset, g, u, u);
    grid::lemma_finite(width, g, u);
    grid::lemma_zero(g);
    grid::lemma_order(first_offset, Num::nought(), g, u, 0);
    grid::lemma_wider(Num::nought(), g, 0, 2 * u);
    grid::lemma_extremes(width - first_offset, Num::nought(), g, 2 * u);
    Num::larger(width - first_offset, Num::nought())
}

/// A replaced element without a natural size is twice as wide as it is high.
pub proof fn lemma_default_size_is_two_to_one()
    ensures
        ({
            let (w, h) = intrinsic_size(None, None, None, None);
            w.ticks(149) == 2 * h.ticks(149) && w.ticks(149) == 300
        }),
{
    crate::laws::flowing::lemma_whole_on(300);
    crate::laws::flowing::lemma_whole_on(150);
}

/// A control in `em` is so many font sizes wide and high; one without a size has
/// the size that it has by itself.
pub proof fn lemma_control_is_sized_by_its_font(sh: Shaper, b: BoxV, cb: Dimensions, k: nat, g: nat)
    requires
        0 < k < 0x100,
        b.own.style.font_px().on(g, 0x1000),
        b.own.box_type is FormControl,
    ensures
        ({
            let d = control_laid(sh, b, cb).dim.content;
            let s = b.own.style;
            let size = s.font_px().ticks(g);
            let em = Length::Em(Num::whole(k as int));
            &&& s.width == em ==> d.width.ticks(g) == k * size
            &&& s.height == em ==> d.height.ticks(g) == k * size
            &&& b.own.box_type matches BoxType::FormControl(c) ==> (s.width == Length::Auto
                ==> d.width == control_size(sh, s, c).0) && (s.height == Length::Auto ==> d.height
                == control_size(sh, s, c).1)
        }),
{
    reveal(control_laid);
    lemma_natural(k);
    let n: int = 0x1000;
    assert(0 <= k * n < 0x100_0000) by (nonlinear_arith)
        requires
            0 < k < 0x100,
            n == 0x1000,
    ;
    grid::lemma_times(k, b.own.style.font_px(), g, n);
}

/// Under `border-box` the sizes of an image are those of its border box: what
/// padding and border take comes out of the content, down to nothing.
pub proof fn lemma_border_box_image_holds_its_edges(
    s: ComputedStyle,
    natural_width: Num,
    natural_height: Num,
    horizontal: Num,
    vertical: Num,
    cb: Dimensions,
    w: Num,
    h: Num,
    g: nat,
)
    requires
        s.box_sizing == BoxSizing::BorderBox && s.aspect_ratio is None,
        s.max_width == Length::Auto && s.max_height == Length::Auto,
        s.width == Length::Px(w) && s.height == Length::Px(h),
        w.coord(g) && h.coord(g) && horizontal.coord(g) && vertical.coord(g),
    ensures
        ({
            let (cw, ch) = image_size(s, natural_width, natural_height, horizontal, vertical, cb);
            let (x, y) = (horizontal.ticks(g), vertical.ticks(g));
            &&& w.ticks(g) >= x ==> cw.ticks(g) + x == w.ticks(g)
            &&& w.ticks(g) < x ==> cw.ticks(g) == 0
            &&& h.ticks(g) >= y ==> ch.ticks(g) + y == h.ticks(g)
            &&& h.ticks(g) < y ==> ch.ticks(g) == 0
        }),
{
    let u: int = 0x8_0000;
    grid::lemma_difference(w, horizontal, g, u, u);
    grid::lemma_difference(h, vertical, g, u, u);
    grid::lemma_finite(w, g, u);
    grid::lemma_zero(g);
    grid::lemma_wider(Num::nought(), g, 0, 2 * u);
    grid::lemma_extremes(w - horizontal, Num::nought(), g, 2 * u);
    grid::lemma_extremes(h - vertical, Num::nought(), g, 2 * u);
}

} // verus!

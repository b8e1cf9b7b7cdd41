//! Borders: the strips of a border frame the padding box.
use vstd::prelude::*;
use crate::borders::{borders, Side};
use crate::boxes::BoxV;
use crate::decorate;
use crate::display::{CommandV, DisplayCommand};
use crate::geometry::Rect;
use crate::grid;
use crate::laws::boxes::{lemma_boxes_lie_around, rect_on};
use crate::num::Num;
use crate::style::{BorderStyle, Color};

verus! {

/// Whether a command fills a rectangle, given by its edges, with a color.
pub open spec fn fills(c: CommandV, color: Color, edges: (int, int, int, int), g: nat) -> bool {
    c matches CommandV::Plain(DisplayCommand::SolidColor(k, r)) && k == color && r.edges(g)
        == edges && rect_on(r, g, 0x80_0000)
}

/// Whether all four sides of a border are solid and of some width.
pub open spec fn solid_all_round(b: BoxV, g: nat) -> bool {
    let s = b.own.style;
    let e = b.dim.border;
    &&& s.border_top_style == BorderStyle::Solid && s.border_right_style == BorderStyle::Solid
    &&& s.border_bottom_style == BorderStyle::Solid && s.border_left_style == BorderStyle::Solid
    &&& e.top.ticks(g) > 0 && e.right.ticks(g) > 0
    &&& e.bottom.ticks(g) > 0 && e.left.ticks(g) > 0
}

/// A solid border with square corners is four strips in the colors of the
/// sides. Each runs along the whole edge of the border box and reaches in to
/// the padding box.
pub proof fn lemma_strips_frame_padding_box(b: BoxV, root: Num, g: nat)
    requires
        b.dim.coords(g),
        solid_all_round(b, g),
        decorate::radii(b, root).square(),
    ensures
        ({
            let s = b.own.style;
            let (left, top, right, bottom) = b.dim.border_box().edges(g);
            let (pl, pt, pr, pb) = b.dim.padding_box().edges(g);
            let c = borders(b, root);
            &&& c.len() == 4
            &&& fills(c[0], s.border_top_color, (left, top, right, pt), g)
            &&& fills(c[1], s.border_right_color, (pr, top, right, bottom), g)
            &&& fills(c[2], s.border_bottom_color, (left, pb, right, bottom), g)
            &&& fills(c[3], s.border_left_color, (left, top, pl, bottom), g)
        }),
{
    let bb = b.dim.border_box();
    let e = b.dim.border;
    let u: int = 0x8_0000;
    let n: int = 0x40_0000;
    lemma_boxes_lie_around(b.dim, g);
    grid::lemma_finite(e.top, g, u);
    grid::lemma_zero(g);
    grid::lemma_order(e.top, Num::nought(), g, u, 0);
    grid::lemma_order(e.right, Num::nought(), g, u, 0);
    grid::lemma_order(e.bottom, Num::nought(), g, u, 0);
    grid::lemma_order(e.left, Num::nought(), g, u, 0);
    grid::lemma_difference(bb.right(), e.right, g, n, u);
    grid::lemma_difference(bb.bottom(), e.bottom, g, n, u);
    let x = bb.right() - e.right;
    let y = bb.bottom() - e.bottom;
    lemma_strip(Rect { height: e.top, ..bb }, g);
    lemma_strip(Rect { x, width: e.right, ..bb }, g);
    lemma_strip(Rect { y, height: e.bottom, ..bb }, g);
    lemma_strip(Rect { width: e.left, ..bb }, g);
}

proof fn lemma_strip(r: Rect, g: nat)
    requires
        r.x.on(g, 0x48_0000) || r.x.on(g, 0x40_0000),
        r.y.on(g, 0x48_0000) || r.y.on(g, 0x40_0000),
        r.width.on(g, 0x8_0000) || r.width.on(g, 0x40_0000),
        r.height.on(g, 0x8_0000) || r.height.on(g, 0x40_0000),
        !(r.x.on(g, 0x48_0000) && !r.x.on(g, 0x40_0000)) || r.width.on(g, 0x8_0000),
        !(r.y.on(g, 0x48_0000) && !r.y.on(g, 0x40_0000)) || r.height.on(g, 0x8_0000),
    ensures
        rect_on(r, g, 0x80_0000),
{
    if r.x.on(g, 0x40_0000) {
        if r.width.on(g, 0x8_0000) {
            grid::lemma_wider(r.width, g, 0x8_0000, 0x40_0000);
        }
        grid::lemma_sum(r.x, r.width, g, 0x40_0000, 0x40_0000);
        grid::lemma_wider(r.x, g, 0x40_0000, 0x80_0000);
        grid::lemma_wider(r.width, g, 0x40_0000, 0x80_0000);
    } else {
        grid::lemma_sum(r.x, r.width, g, 0x48_0000, 0x8_0000);
        grid::lemma_wider(r.x, g, 0x48_0000, 0x80_0000);
        grid::lemma_wider(r.width, g, 0x8_0000, 0x80_0000);
        grid::lemma_wider(r.right(), g, 0x50_0000, 0x80_0000);
    }
    if r.y.on(g, 0x40_0000) {
        if r.height.on(g, 0x8_0000) {
            grid::lemma_wider(r.height, g, 0x8_0000, 0x40_0000);
        }
        grid::lemma_sum(r.y, r.height, g, 0x40_0000, 0x40_0000);
        grid::lemma_wider(r.y, g, 0x40_0000, 0x80_0000);
        grid::lemma_wider(r.height, g, 0x40_0000, 0x80_0000);
    } else {
        grid::lemma_sum(r.y, r.height, g, 0x48_0000, 0x8_0000);
        grid::lemma_wider(r.y, g, 0x48_0000, 0x80_0000);
        grid::lemma_wider(r.height, g, 0x8_0000, 0x80_0000);
        grid::lemma_wider(r.bottom(), g, 0x50_0000, 0x80_0000);
    }
}

/// The rectangle that a command fills.
pub open spec fn filled(c: CommandV) -> Rect {
    match c {
        CommandV::Plain(DisplayCommand::SolidColor(_, r)) => r,
        _ => Rect::empty(),
    }
}

/// The strips of a solid border and the padding box together cover the border
/// box, the strips stay off the padding box, and opposite strips do not
/// overlap where the padding box has some size.
pub proof fn lemma_strips_cover_border_box(b: BoxV, root: Num, g: nat, x: Num, y: Num)
    requires
        b.dim.coords(g),
        solid_all_round(b, g),
        decorate::radii(b, root).square(),
        b.dim.padding_box().width.ticks(g) > 0,
        b.dim.padding_box().height.ticks(g) > 0,
    ensures
        ({
            let c = borders(b, root);
            let strips = filled(c[0]).contains(x, y) || filled(c[1]).contains(x, y) || filled(
                c[2],
            ).contains(x, y) || filled(c[3]).contains(x, y);
            let inner = b.dim.padding_box();
            &&& b.dim.border_box().contains(x, y) <==> strips || inner.contains(x, y)
            &&& !(strips && inner.contains(x, y))
            &&& !filled(c[0]).overlaps(filled(c[2]))
            &&& !filled(c[1]).overlaps(filled(c[3]))
        }),
{
    lemma_strips_frame_padding_box(b, root, g);
    lemma_boxes_lie_around(b.dim, g);
    let c = borders(b, root);
    let bb = b.dim.border_box();
    let pb = b.dim.padding_box();
    let (t, r, d, l) = (filled(c[0]), filled(c[1]), filled(c[2]), filled(c[3]));
    let n: int = 0x80_0000;
    lemma_corners(pb, t, g);
    lemma_corners(pb, r, g);
    lemma_corners(pb, d, g);
    lemma_corners(pb, l, g);
    lemma_bounds(pb, bb, g);
    lemma_corners(bb, t, g);
    lemma_corners(bb, r, g);
    lemma_corners(bb, d, g);
    lemma_corners(bb, l, g);
    lemma_corners(r, l, g);
    lemma_corners(t, d, g);
}

/// Edges that are as far out are the same number.
proof fn lemma_corners(a: Rect, b: Rect, g: nat)
    requires
        rect_on(a, g, 0x28_0000) || rect_on(a, g, 0x40_0000) || rect_on(a, g, 0x80_0000),
        rect_on(b, g, 0x80_0000),
    ensures
        !a.x.nan() && !a.y.nan() && !a.right().nan() && !a.bottom().nan(),
        !b.x.nan() && !b.y.nan() && !b.right().nan() && !b.bottom().nan(),
        a.x.ticks(g) == b.x.ticks(g) ==> a.x.same(b.x),
        a.y.ticks(g) == b.y.ticks(g) ==> a.y.same(b.y),
        a.right().ticks(g) == b.x.ticks(g) ==> a.right().same(b.x),
        a.bottom().ticks(g) == b.y.ticks(g) ==> a.bottom().same(b.y),
        a.x.ticks(g) == b.right().ticks(g) ==> a.x.same(b.right()),
        a.y.ticks(g) == b.bottom().ticks(g) ==> a.y.same(b.bottom()),
        a.right().ticks(g) == b.right().ticks(g) ==> a.right().same(b.right()),
        a.bottom().ticks(g) == b.bottom().ticks(g) ==> a.bottom().same(b.bottom()),
        a.x < b.right() <==> a.x.ticks(g) < b.right().ticks(g),
        a.right() > b.x <==> a.right().ticks(g) > b.x.ticks(g),
        a.y < b.bottom() <==> a.y.ticks(g) < b.bottom().ticks(g),
        a.bottom() > b.y <==> a.bottom().ticks(g) > b.y.ticks(g),
{
    let n = if rect_on(a, g, 0x28_0000) {
        0x28_0000
    } else if rect_on(a, g, 0x40_0000) {
        0x40_0000
    } else {
        0x80_0000int
    };
    let m: int = 0x80_0000;
    grid::lemma_order(a.x, b.x, g, n, m);
    grid::lemma_order(a.y, b.y, g, n, m);
    grid::lemma_order(a.right(), b.x, g, n, m);
    grid::lemma_order(a.bottom(), b.y, g, n, m);
    grid::lemma_order(a.x, b.right(), g, n, m);
    grid::lemma_order(a.y, b.bottom(), g, n, m);
    grid::lemma_order(a.right(), b.right(), g, n, m);
    grid::lemma_order(a.bottom(), b.bottom(), g, n, m);
}

proof fn lemma_bounds(inner: Rect, outer: Rect, g: nat)
    requires
        rect_on(inner, g, 0x28_0000),
        rect_on(outer, g, 0x40_0000),
    ensures
        outer.x <= inner.x <==> outer.x.ticks(g) <= inner.x.ticks(g),
        outer.y <= inner.y <==> outer.y.ticks(g) <= inner.y.ticks(g),
        inner.right() <= outer.right() <==> inner.right().ticks(g) <= outer.right().ticks(g),
        inner.bottom() <= outer.bottom() <==> inner.bottom().ticks(g) <= outer.bottom().ticks(g),
        inner.x < inner.right() <==> inner.x.ticks(g) < inner.right().ticks(g),
        inner.y < inner.bottom() <==> inner.y.ticks(g) < inner.bottom().ticks(g),
{
    let n: int = 0x28_0000;
    let m: int = 0x40_0000;
    grid::lemma_order(outer.x, inner.x, g, m, n);
    grid::lemma_order(outer.y, inner.y, g, m, n);
    grid::lemma_order(inner.right(), outer.right(), g, n, m);
    grid::lemma_order(inner.bottom(), outer.bottom(), g, n, m);
    grid::lemma_order(inner.x, inner.right(), g, n, n);
    grid::lemma_order(inner.y, inner.bottom(), g, n, n);
}

/// A rounded border is one ring around the border box, as wide on each side as
/// the border is there and in the color of the side.
pub proof fn lemma_rounded_border_is_one_ring(b: BoxV, root: Num)
    requires
        !decorate::radii(b, root).square(),
        b.own.style.border_top_style == BorderStyle::Solid,
        b.own.style.border_right_style == BorderStyle::Solid,
        b.own.style.border_bottom_style == BorderStyle::Solid,
        b.own.style.border_left_style == BorderStyle::Solid,
        b.dim.border.top > Num::nought() || b.dim.border.right > Num::nought()
            || b.dim.border.bottom > Num::nought() || b.dim.border.left > Num::nought(),
    ensures
        borders(b, root).len() == 1,
        borders(b, root)[0] matches CommandV::Plain(
            DisplayCommand::RoundedBorder { rect, widths, colors, radius },
        ) && rect == b.dim.border_box() && widths == b.dim.border && colors.top
            == b.own.style.border_top_color && colors.right == b.own.style.border_right_color
            && colors.bottom == b.own.style.border_bottom_color && colors.left
            == b.own.style.border_left_color && radius == decorate::radii(b, root),
{
}

/// A side without width draws nothing, whatever its style.
pub proof fn lemma_no_width_draws_nothing(side: Side)
    requires
        side.thickness <= Num::nought(),
    ensures
        side.commands().len() == 0,
{
}

/// Where a run of dashes along a strip is a rectangle of the strip: across it
/// as wide as the strip, along it not before its start.
pub open spec fn along(side: Side, r: Rect, offset: Num, run: Num) -> bool {
    if side.horizontal {
        r.y == side.strip.y && r.height == side.strip.height && r.x == side.strip.x + offset
            && r.width == run
    } else {
        r.x == side.strip.x && r.width == side.strip.width && r.y == side.strip.y + offset
            && r.height == run
    }
}

/// Whether a command draws a dash at an offset: a whole one, or as much of it
/// as the side has left.
pub open spec fn is_dash(side: Side, c: CommandV, at: Num, dash: Num) -> bool {
    let left = side.length() - at;
    match c {
        CommandV::Plain(DisplayCommand::SolidColor(color, r)) => {
            &&& color == side.color
            &&& dash <= left ==> along(side, r, at, dash)
            &&& left < dash ==> along(side, r, at, left)
        },
        _ => false,
    }
}

/// Dashes start at the start of the side, each a dash and a gap behind the one
/// before it, all in the color of the side; none is longer than a dash or
/// reaches beyond the side.
pub proof fn lemma_dashes_follow_each_other(
    side: Side,
    dash: Num,
    gap: Num,
    offset: Num,
    i: int,
) -> (at: Num)
    requires
        0 <= i < side.dashes(dash, gap, offset).len(),
    ensures
        i == 0 ==> at == offset,
        i + 1 < side.dashes(dash, gap, offset).len() ==> side.dashes(
            dash,
            gap,
            at + (dash + gap),
        ).len() == side.dashes(dash, gap, offset).len() - (i + 1),
        side.dashes(dash, gap, offset).subrange(
            i,
            side.dashes(dash, gap, offset).len() as int,
        ) == side.dashes(dash, gap, at),
        is_dash(side, side.dashes(dash, gap, offset)[i], at, dash),
    decreases i,
{
    let d = side.dashes(dash, gap, offset);
    let next = offset + (dash + gap);
    let run = Num::smaller(dash, side.length() - offset);
    let rest = if offset < next {
        side.dashes(dash, gap, next)
    } else {
        Seq::empty()
    };
    assert(d =~= seq![
        CommandV::Plain(DisplayCommand::SolidColor(side.color, side.piece(offset, run))),
    ] + rest);
    if i == 0 {
        assert(d[0] == CommandV::Plain(
            DisplayCommand::SolidColor(side.color, side.piece(offset, run)),
        ));
        assert(d.subrange(0, d.len() as int) =~= d);
        offset
    } else {
        let at = lemma_dashes_follow_each_other(side, dash, gap, next, i - 1);
        assert(d[i] == rest[i - 1]);
        assert(d.subrange(i, d.len() as int) =~= rest.subrange(i - 1, rest.len() as int));
        at
    }
}

} // verus!

//! What a box paints around its content: areas, shadows and images.
use vstd::prelude::*;
use crate::boxes::BoxV;
use crate::decorate::{
    background, background_area, box_shadows, clip_of, image_rect, inside_borders, layers, radii,
    shadows,
};
use crate::display::{CommandV, DisplayCommand};
use crate::exact;
use crate::geometry::{Point, Rect};
use crate::grid;
use crate::images::{contained, covering, sizeless, ObjectFit};
use crate::laws::boxes::{lemma_boxes_lie_around, rect_on};
use crate::num::Num;
use crate::style::{
    BackgroundClip, BackgroundPosition, BackgroundPositionValue, BackgroundSize, BoxShadow, Length,
    Overflow,
};

verus! {

/// What lies inside the borders of a box is its padding box.
pub proof fn lemma_inside_borders_is_padding_box(b: BoxV, g: nat)
    requires
        b.dim.coords(g),
    ensures
        inside_borders(b).edges(g) == b.dim.padding_box().edges(g),
        rect_on(inside_borders(b), g, 0x80_0000),
        inside_borders(b).width.on(g, 0x40_0000) && inside_borders(b).height.on(g, 0x40_0000),
{
    let u: int = 0x8_0000;
    let d = b.dim;
    let e = d.border;
    let bb = d.border_box();
    lemma_boxes_lie_around(d, g);
    lemma_border_box_on(b, g);
    grid::lemma_sum(bb.x, e.left, g, 3 * u, u);
    grid::lemma_sum(bb.y, e.top, g, 3 * u, u);
    grid::lemma_difference(bb.width, e.left, g, 5 * u, u);
    grid::lemma_difference(bb.width - e.left, e.right, g, 6 * u, u);
    grid::lemma_difference(bb.height, e.top, g, 5 * u, u);
    grid::lemma_difference(bb.height - e.top, e.bottom, g, 6 * u, u);
    let r = inside_borders(b);
    lemma_rect_on(r, g, 4 * u, 7 * u);
    grid::lemma_wider(r.width, g, 7 * u, 8 * u);
    grid::lemma_wider(r.height, g, 7 * u, 8 * u);
}

proof fn lemma_border_box_on(b: BoxV, g: nat)
    requires
        b.dim.coords(g),
    ensures
        b.dim.border_box().x.on(g, 0x18_0000) && b.dim.border_box().y.on(g, 0x18_0000),
        b.dim.border_box().width.on(g, 0x28_0000) && b.dim.border_box().height.on(g, 0x28_0000),
{
    let u: int = 0x8_0000;
    let d = b.dim;
    let p = d.padding_box();
    grid::lemma_widened(d.content.x, d.content.width, d.padding.left, d.padding.right, g, u, u, u);
    grid::lemma_widened(d.content.y, d.content.height, d.padding.top, d.padding.bottom, g, u, u, u);
    grid::lemma_widened(p.x, p.width, d.border.left, d.border.right, g, 2 * u, 3 * u, u);
    grid::lemma_widened(p.y, p.height, d.border.top, d.border.bottom, g, 2 * u, 3 * u, u);
}

proof fn lemma_rect_on(r: Rect, g: nat, n: int, m: int)
    requires
        r.x.on(g, n) && r.y.on(g, n) && r.width.on(g, m) && r.height.on(g, m),
        0 <= n && 0 <= m && n + m <= 0x80_0000,
    ensures
        rect_on(r, g, 0x80_0000),
{
    grid::lemma_sum(r.x, r.width, g, n, m);
    grid::lemma_sum(r.y, r.height, g, n, m);
    grid::lemma_wider(r.right(), g, n + m, 0x80_0000);
    grid::lemma_wider(r.bottom(), g, n + m, 0x80_0000);
    grid::lemma_wider(r.x, g, n, 0x80_0000);
    grid::lemma_wider(r.y, g, n, 0x80_0000);
    grid::lemma_wider(r.width, g, m, 0x80_0000);
    grid::lemma_wider(r.height, g, m, 0x80_0000);
}

/// A background paints the box that `background-clip` names, all of it; one
/// that shows through glyphs paints no area.
pub proof fn lemma_background_paints_named_box(b: BoxV, g: nat)
    requires
        b.dim.coords(g),
    ensures
        match background_area(b) {
            Some(r) => match b.own.style.background_clip {
                BackgroundClip::BorderBox => r == b.dim.border_box(),
                BackgroundClip::PaddingBox => r.edges(g) == b.dim.padding_box().edges(g),
                BackgroundClip::ContentBox => r.edges(g) == b.dim.content.edges(g),
                BackgroundClip::Text => false,
            },
            None => match b.own.style.background_clip {
                BackgroundClip::BorderBox => b.dim.border_box().width.ticks(g) <= 0
                    || b.dim.border_box().height.ticks(g) <= 0,
                BackgroundClip::PaddingBox => b.dim.padding_box().width.ticks(g) <= 0
                    || b.dim.padding_box().height.ticks(g) <= 0,
                BackgroundClip::ContentBox => b.dim.content.width.ticks(g) <= 0
                    || b.dim.content.height.ticks(g) <= 0,
                BackgroundClip::Text => true,
            },
        },
{
    let u: int = 0x8_0000;
    let d = b.dim;
    let e = d.border;
    let p = d.padding;
    let bb = d.border_box();
    lemma_boxes_lie_around(d, g);
    lemma_border_box_on(b, g);
    lemma_inside_borders_is_padding_box(b, g);
    let r = inside_borders(b);
    grid::lemma_sum(bb.x, e.left, g, 3 * u, u);
    grid::lemma_sum(bb.x + e.left, p.left, g, 4 * u, u);
    grid::lemma_sum(bb.y, e.top, g, 3 * u, u);
    grid::lemma_sum(bb.y + e.top, p.top, g, 4 * u, u);
    grid::lemma_difference(r.width, p.left, g, 8 * u, u);
    grid::lemma_difference(r.width - p.left, p.right, g, 9 * u, u);
    grid::lemma_difference(r.height, p.top, g, 8 * u, u);
    grid::lemma_difference(r.height - p.top, p.bottom, g, 9 * u, u);
    let c = Rect {
        x: bb.x + e.left + p.left,
        y: bb.y + e.top + p.top,
        width: r.width - p.left - p.right,
        height: r.height - p.top - p.bottom,
    };
    lemma_rect_on(c, g, 5 * u, 10 * u);
    grid::lemma_finite(bb.width, g, 5 * u);
    grid::lemma_zero(g);
    grid::lemma_order(bb.width, Num::nought(), g, 5 * u, 0);
    grid::lemma_order(bb.height, Num::nought(), g, 5 * u, 0);
    grid::lemma_order(r.width, Num::nought(), g, 8 * u, 0);
    grid::lemma_order(r.height, Num::nought(), g, 8 * u, 0);
    grid::lemma_order(c.width, Num::nought(), g, 10 * u, 0);
    grid::lemma_order(c.height, Num::nought(), g, 10 * u, 0);
}

/// What clips its overflow clips it to its padding box. A corner of the clip
/// is concentric with the corner of the border box where that is wider than
/// both its borders, and square where it is not.
pub proof fn lemma_clip_is_padding_box(
    b: BoxV,
    root: Num,
    at_root: bool,
    root_visible: bool,
    g: nat,
)
    requires
        b.dim.coords(g),
        clip_of(b, root, at_root, root_visible) is Some,
        ({
            let r = radii(b, root);
            r.top_left.coord(g) && r.top_right.coord(g) && r.bottom_right.coord(g)
                && r.bottom_left.coord(g)
        }),
    ensures
        ({
            let c = clip_of(b, root, at_root, root_visible)->0;
            let r = radii(b, root);
            let e = b.dim.border;
            &&& c.rect.edges(g) == b.dim.padding_box().edges(g)
            &&& b.own.style.clips() && !at_root
            &&& rounds_inside(c.radius.top_left, r.top_left, e.top, e.left, g)
            &&& rounds_inside(c.radius.top_right, r.top_right, e.top, e.right, g)
            &&& rounds_inside(c.radius.bottom_right, r.bottom_right, e.bottom, e.right, g)
            &&& rounds_inside(c.radius.bottom_left, r.bottom_left, e.bottom, e.left, g)
        }),
{
    let r = radii(b, root);
    let e = b.dim.border;
    lemma_inside_borders_is_padding_box(b, g);
    lemma_inner_corner(r.top_left, e.left, e.top, g);
    lemma_inner_corner(r.top_right, e.right, e.top, g);
    lemma_inner_corner(r.bottom_right, e.right, e.bottom, g);
    lemma_inner_corner(r.bottom_left, e.left, e.bottom, g);
}

/// Whether the radius of an inner corner is what the two borders at an outer
/// corner leave of its radius.
pub open spec fn rounds_inside(inner: Num, outer: Num, a: Num, b: Num, g: nat) -> bool {
    let (i, o) = (inner.ticks(g), outer.ticks(g));
    let (x, y) = (a.ticks(g), b.ticks(g));
    &&& i >= 0
    &&& o > x && o > y ==> i + x <= o && i + y <= o && (i + x == o || i + y == o)
    &&& o <= x || o <= y ==> i == 0
}

proof fn lemma_inner_corner(r: Num, a: Num, b: Num, g: nat)
    requires
        r.coord(g) && a.coord(g) && b.coord(g),
    ensures
        rounds_inside(crate::decorate::inner_radius(r, a, b), r, b, a, g),
{
    let u: int = 0x8_0000;
    grid::lemma_extremes(a, b, g, u);
    let k = Num::larger(a, b);
    grid::lemma_difference(r, k, g, u, u);
    grid::lemma_finite(r, g, u);
    grid::lemma_zero(g);
    grid::lemma_wider(Num::nought(), g, 0, 2 * u);
    grid::lemma_extremes(r - k, Num::nought(), g, 2 * u);
}

/// The corners of a box are rounded as its style says, each as its own; a
/// percentage is of the width of the border box.
pub proof fn lemma_corners_are_those_of_the_style(b: BoxV, root: Num)
    ensures
        b.own.style.border_top_left_radius matches Length::Px(v) ==> radii(b, root).top_left == v,
        b.own.style.border_top_right_radius matches Length::Px(v) ==> radii(b, root).top_right == v,
        b.own.style.border_bottom_right_radius matches Length::Px(v) ==> radii(b, root).bottom_right
            == v,
        b.own.style.border_bottom_left_radius matches Length::Px(v) ==> radii(b, root).bottom_left
            == v,
        b.own.style.border_top_left_radius == Length::Percent(Num::whole(100)) ==> radii(
            b,
            root,
        ).top_left == Num::whole(100) / Num::whole(100) * b.dim.border_box().width,
{
}

/// Whether a command paints a shadow of a box as its style gives it, around
/// the border box.
pub open spec fn paints_shadow(c: CommandV, h: BoxShadow, rect: Rect) -> bool {
    c matches CommandV::Plain(DisplayCommand::BoxShadow {
        offset_x,
        offset_y,
        blur_radius,
        spread_radius,
        color,
        rect: r,
        inset,
    }) && offset_x == h.offset_x && offset_y == h.offset_y && blur_radius == h.blur_radius
        && spread_radius == h.spread_radius && color == h.color && r == rect && inset == h.inset
}

/// Each visible shadow is painted once, outer ones behind and inset ones over
/// the background, in the order of the style.
pub proof fn lemma_shadows_are_painted(b: BoxV, inset: bool, i: int, j: int) -> (at: (int, int))
    requires
        0 <= i < j < b.own.style.box_shadows@.len(),
        b.own.style.box_shadows@[i].visible && b.own.style.box_shadows@[i].inset == inset,
        b.own.style.box_shadows@[j].visible && b.own.style.box_shadows@[j].inset == inset,
    ensures
        0 <= at.0 < at.1 < box_shadows(b, inset).len(),
        paints_shadow(
            box_shadows(b, inset)[at.0],
            b.own.style.box_shadows@[i],
            b.dim.border_box(),
        ),
        paints_shadow(
            box_shadows(b, inset)[at.1],
            b.own.style.box_shadows@[j],
            b.dim.border_box(),
        ),
{
    let s = b.own.style.box_shadows@;
    let bb = b.dim.border_box();
    lemma_shadows_grow(s, i + 1, j, bb, inset);
    lemma_shadow_at(s, s.len() as int, bb, inset, i);
    lemma_shadow_at(s, s.len() as int, bb, inset, j);
    (shadows(s, i, bb, inset).len() as int, shadows(s, j, bb, inset).len() as int)
}

/// Nothing but visible shadows of the box is painted as its shadow.
pub proof fn lemma_painted_shadows_are_visible(b: BoxV, inset: bool, c: int) -> (i: int)
    requires
        0 <= c < box_shadows(b, inset).len(),
    ensures
        0 <= i < b.own.style.box_shadows@.len(),
        b.own.style.box_shadows@[i].visible && b.own.style.box_shadows@[i].inset == inset,
        paints_shadow(box_shadows(b, inset)[c], b.own.style.box_shadows@[i], b.dim.border_box()),
{
    let s = b.own.style.box_shadows@;
    lemma_shadow_of(s, s.len() as int, b.dim.border_box(), inset, c)
}

proof fn lemma_shadow_of(s: Seq<BoxShadow>, k: int, rect: Rect, inset: bool, c: int) -> (i: int)
    requires
        0 <= k <= s.len(),
        0 <= c < shadows(s, k, rect, inset).len(),
    ensures
        0 <= i < k,
        s[i].visible && s[i].inset == inset,
        paints_shadow(shadows(s, k, rect, inset)[c], s[i], rect),
    decreases k,
{
    if c < shadows(s, k - 1, rect, inset).len() {
        lemma_shadow_of(s, k - 1, rect, inset, c)
    } else {
        k - 1
    }
}

proof fn lemma_shadows_grow(s: Seq<BoxShadow>, i: int, j: int, rect: Rect, inset: bool)
    requires
        0 <= i <= j,
    ensures
        shadows(s, i, rect, inset).len() <= shadows(s, j, rect, inset).len(),
    decreases j,
{
    if i < j {
        lemma_shadows_grow(s, i, j - 1, rect, inset);
    }
}

proof fn lemma_shadow_at(s: Seq<BoxShadow>, k: int, rect: Rect, inset: bool, i: int)
    requires
        0 <= i < k <= s.len(),
        s[i].visible && s[i].inset == inset,
    ensures
        ({
            let c = shadows(s, i, rect, inset).len() as int;
            &&& c < shadows(s, k, rect, inset).len()
            &&& paints_shadow(shadows(s, k, rect, inset)[c], s[i], rect)
            &&& shadows(s, i + 1, rect, inset).len() == c + 1
        }),
    decreases k,
{
    if i < k - 1 {
        lemma_shadow_at(s, k - 1, rect, inset, i);
    }
}

/// Whether an extent is placed in a container at the start, in the middle or
/// at the end.
pub open spec fn placed_at(part: Num, x: Num, w: Num, start: Num, extent: Num, g: nat) -> bool {
    &&& part == Num::whole(0) ==> x.ticks(g) == start.ticks(g)
    &&& part == Num::whole(1) ==> x.ticks(g) + w.ticks(g) == start.ticks(g) + extent.ticks(g)
    &&& part == Num::ratio(1, 2) ==> 2 * x.ticks(g) + w.ticks(g) == 2 * start.ticks(g)
        + extent.ticks(g)
}

proof fn lemma_placed(part: Num, start: Num, extent: Num, w: Num, g: nat)
    requires
        start.coord(g) && extent.coord(g) && w.coord(g),
        1 <= g,
        part == Num::whole(0) || part == Num::whole(1) || part == Num::ratio(1, 2) && (
        extent.ticks(g) - w.ticks(g)) % 2 == 0,
    ensures
        placed_at(part, start + (extent - w) * part, w, start, extent, g),
{
    let u: int = 0x8_0000;
    grid::lemma_difference(extent, w, g, u, u);
    let free = extent - w;
    let f = free.ticks(g);
    assert(0 * f == 0 && 1 * f == f && 0 * (2 * u) == 0 && 1 * (2 * u) == 2 * u);
    grid::lemma_times(0, free, g, 2 * u);
    grid::lemma_times(1, free, g, 2 * u);
    grid::lemma_wider(free * Num::whole(0), g, 0, 2 * u);
    grid::lemma_sum(start, free * Num::whole(0), g, u, 2 * u);
    grid::lemma_sum(start, free * Num::whole(1), g, u, 2 * u);
    if part == Num::ratio(1, 2) && f % 2 == 0 {
        grid::lemma_halved(free, g, 2 * u);
        grid::lemma_sum(start, free * Num::ratio(1, 2), g, u, 2 * u);
    }
    exact::lemma_whole(0);
    exact::lemma_whole(1);
    vstd::arithmetic::power2::lemma_pow2_pos(149);
    assert(0 * vstd::arithmetic::power2::pow2(149) == 0);
    grid::lemma_half();
    lemma_parts_differ();
}

/// None, half and all are different parts.
proof fn lemma_parts_differ()
    ensures
        Num::whole(0) != Num::whole(1),
        Num::whole(0) != Num::ratio(1, 2),
        Num::whole(1) != Num::ratio(1, 2),
{
    let p = vstd::arithmetic::power2::pow2(149);
    exact::lemma_whole(0);
    exact::lemma_whole(1);
    vstd::arithmetic::power2::lemma_pow2_pos(149);
    assert(0 * p == 0 && 1 * p == p);
    grid::lemma_half();
    reveal(Num::on);
    vstd::arithmetic::power2::lemma_pow2_adds(148, 1);
    vstd::arithmetic::power2::lemma2_to64();
    vstd::arithmetic::power2::lemma_pow2_pos(148);
    let q = vstd::arithmetic::power2::pow2(148);
    assert(q * 2 > q && 1 * q == q) by (nonlinear_arith)
        requires
            q > 0,
    ;
}

/// `object-position` puts an image at the near edge, in the middle or at the
/// far edge of its container, on each axis by its own part.
pub proof fn lemma_object_position_aligns(
    fit: ObjectFit,
    container: Rect,
    width: Num,
    height: Num,
    position: Point,
    g: nat,
)
    requires
        container.coords(g),
        1 <= g,
        !sizeless(width, height),
        ({
            let r = fit.fitted(container, width, height, position);
            &&& r.width.coord(g) && r.height.coord(g)
            &&& (container.width.ticks(g) - r.width.ticks(g)) % 2 == 0
            &&& (container.height.ticks(g) - r.height.ticks(g)) % 2 == 0
        }),
        position.x == Num::whole(0) || position.x == Num::whole(1) || position.x == Num::ratio(
            1,
            2,
        ),
        position.y == Num::whole(0) || position.y == Num::whole(1) || position.y == Num::ratio(
            1,
            2,
        ),
    ensures
        ({
            let r = fit.fitted(container, width, height, position);
            &&& placed_at(position.x, r.x, r.width, container.x, container.width, g)
            &&& placed_at(position.y, r.y, r.height, container.y, container.height, g)
        }),
{
    let r = fit.fitted(container, width, height, position);
    lemma_placed(position.x, container.x, container.width, r.width, g);
    lemma_placed(position.y, container.y, container.height, r.height, g);
}

/// Whether the proportions of a container need no rounding.
pub open spec fn proportioned(c: Rect) -> bool {
    let wide = c.width / c.height;
    &&& c.width.positive() && c.height.positive() && wide.positive()
    &&& (c.height * wide).same(c.width)
    &&& (c.width / wide).same(c.height)
}

proof fn lemma_positive(a: Num)
    requires
        a.positive(),
    ensures
        !a.nan(),
        a > Num::nought(),
        a >= Num::nought(),
{
    reveal(Num::nan);
    reveal(Num::rank);
    crate::margin_collapse::lemma_zero_is_number();
}

proof fn lemma_dividing_by_less(a: Num, x: Num, y: Num)
    requires
        a.positive() && x.positive() && y.positive(),
        x <= y,
    ensures
        a / y <= a / x,
{
    crate::num::lemma_rank_is_value(x, y);
    let (ua, ux, uy) = (
        crate::rounding::units(a.mag()),
        crate::rounding::units(x.mag()),
        crate::rounding::units(y.mag()),
    );
    assert(ua * ux <= ua * uy) by (nonlinear_arith)
        requires
            ux <= uy,
    ;
    exact::lemma_quotients_keep_order(a, y, a, x);
}

/// `contain` stays inside its container and `cover` reaches over all of it,
/// for every proportion of the image.
pub proof fn lemma_contain_stays_inside_cover_covers(c: Rect, aspect: Num)
    requires
        proportioned(c),
        aspect.positive(),
    ensures
        contained(c, aspect).0 <= c.width && contained(c, aspect).1 <= c.height,
        covering(c, aspect).0 >= c.width && covering(c, aspect).1 >= c.height,
{
    let wide = c.width / c.height;
    lemma_positive(c.width);
    lemma_positive(c.height);
    lemma_positive(aspect);
    lemma_positive(wide);
    if aspect > wide {
        exact::lemma_divides_below(c.width, c.height, aspect);
        exact::lemma_products_keep_order(c.height, wide, c.height, aspect);
    } else {
        exact::lemma_products_keep_order(c.height, aspect, c.height, wide);
        lemma_dividing_by_less(c.width, aspect, wide);
    }
}

/// `background-size: cover` reaches over all of its container and `contain`
/// stays inside, where the scales need no rounding.
pub proof fn lemma_background_contains_and_covers(
    c: Rect,
    position: BackgroundPosition,
    width: Num,
    height: Num,
)
    requires
        c.width.positive() && c.height.positive() && width.positive() && height.positive(),
        (c.width / width).positive() && (c.height / height).positive(),
        (width * (c.width / width)).same(c.width),
        (height * (c.height / height)).same(c.height),
    ensures
        ({
            let r = image_rect(c, BackgroundSize::Cover, position, width, height);
            r.width >= c.width && r.height >= c.height && (r.width.same(c.width) || r.height.same(
                c.height,
            ))
        }),
        ({
            let r = image_rect(c, BackgroundSize::Contain, position, width, height);
            r.width <= c.width && r.height <= c.height && (r.width.same(c.width) || r.height.same(
                c.height,
            ))
        }),
{
    let sx = c.width / width;
    let sy = c.height / height;
    lemma_positive(width);
    lemma_positive(height);
    lemma_positive(sx);
    lemma_positive(sy);
    if sx <= sy {
        exact::lemma_products_keep_order(width, sx, width, sy);
        exact::lemma_products_keep_order(height, sx, height, sy);
    }
    if sy <= sx {
        exact::lemma_products_keep_order(width, sy, width, sx);
        exact::lemma_products_keep_order(height, sy, height, sx);
    }
}

/// `background-position` puts an image at the near edge, in the middle or at
/// the far edge of its container, or so many pixels from the near edge.
pub proof fn lemma_background_position_aligns(
    container: Rect,
    position: BackgroundPosition,
    width: Num,
    height: Num,
    g: nat,
)
    requires
        container.coords(g) && width.coord(g) && height.coord(g),
        1 <= g,
        (container.width.ticks(g) - width.ticks(g)) % 2 == 0,
        (container.height.ticks(g) - height.ticks(g)) % 2 == 0,
        position.x matches BackgroundPositionValue::Px(v) ==> v.coord(g),
        position.y matches BackgroundPositionValue::Px(v) ==> v.coord(g),
    ensures
        ({
            let r = image_rect(container, BackgroundSize::Auto, position, width, height);
            &&& match position.x {
                BackgroundPositionValue::Percent(p) => placed_at(
                    p,
                    r.x,
                    width,
                    container.x,
                    container.width,
                    g,
                ),
                BackgroundPositionValue::Px(v) => r.x.ticks(g) == container.x.ticks(g) + v.ticks(g),
            }
            &&& match position.y {
                BackgroundPositionValue::Percent(p) => placed_at(
                    p,
                    r.y,
                    height,
                    container.y,
                    container.height,
                    g,
                ),
                BackgroundPositionValue::Px(v) => r.y.ticks(g) == container.y.ticks(g) + v.ticks(g),
            }
            &&& r.width == width && r.height == height
        }),
{
    let u: int = 0x8_0000;
    match position.x {
        BackgroundPositionValue::Percent(p) => {
            if p == Num::whole(0) || p == Num::whole(1) || p == Num::ratio(1, 2) {
                lemma_placed(p, container.x, container.width, width, g);
            }
        },
        BackgroundPositionValue::Px(v) => {
            grid::lemma_sum(container.x, v, g, u, u);
        },
    }
    match position.y {
        BackgroundPositionValue::Percent(p) => {
            if p == Num::whole(0) || p == Num::whole(1) || p == Num::ratio(1, 2) {
                lemma_placed(p, container.y, container.height, height, g);
            }
        },
        BackgroundPositionValue::Px(v) => {
            grid::lemma_sum(container.y, v, g, u, u);
        },
    }
}

/// A plain background is one fill of its area with its color: in the shape of
/// the corners, over the whole border box.
pub proof fn lemma_plain_background_is_one_fill(b: BoxV, root: Num)
    requires
        background_area(b) is Some,
        b.own.style.background_clip == BackgroundClip::BorderBox,
        b.own.style.backdrop_filter is Absent,
        b.own.style.background_layers@.len() == 0,
        b.own.style.background_gradient is None,
    ensures
        b.own.style.background_color.a > Num::nought() ==> background(b, root).len() == 1 && match
        background(b, root)[0] {
            CommandV::Plain(DisplayCommand::SolidColor(c, r)) => c == b.own.style.background_color
                && r == b.dim.border_box() && radii(b, root).square(),
            CommandV::Plain(DisplayCommand::RoundedRect { color, rect, radius }) => color
                == b.own.style.background_color && rect == b.dim.border_box() && radius == radii(
                b,
                root,
            ) && !radius.square(),
            _ => false,
        },
        !(b.own.style.background_color.a > Num::nought()) ==> background(b, root).len() == 0,
{
    assert(layers(b.own.style.background_layers@, 0, b.dim.border_box(), radii(b, root)).len()
        == 0);
}

/// What clips its overflow on either axis does so unless it is the root, or the
/// body while the overflow of the root is visible.
pub proof fn lemma_overflow_is_clipped(
    b: BoxV,
    root: Num,
    at_root: bool,
    root_visible: bool,
    g: nat,
)
    requires
        b.dim.coords(g),
        b.dim.padding_box().width.ticks(g) > 0 && b.dim.padding_box().height.ticks(g) > 0,
    ensures
        b.own.style.overflow_x == Overflow::Visible && b.own.style.overflow_y == Overflow::Visible
            ==> clip_of(b, root, at_root, root_visible) is None,
        at_root ==> clip_of(b, root, at_root, root_visible) is None,
        (b.own.style.overflow_x == Overflow::Hidden || b.own.style.overflow_y == Overflow::Hidden)
            && !at_root && (!root_visible || b.own.identity is None) ==> clip_of(
            b,
            root,
            at_root,
            root_visible,
        ) is Some,
{
    let w: int = 0x40_0000;
    lemma_inside_borders_is_padding_box(b, g);
    lemma_boxes_lie_around(b.dim, g);
    let r = inside_borders(b);
    grid::lemma_finite(r.width, g, w);
    grid::lemma_zero(g);
    grid::lemma_order(r.width, Num::nought(), g, w, 0);
    grid::lemma_order(r.height, Num::nought(), g, w, 0);
}

/// Background layers are painted one after the other, in the order of the
/// style.
pub proof fn lemma_layers_are_painted_in_order(
    s: Seq<crate::style::BackgroundLayer>,
    k: int,
    rect: Rect,
    radius: crate::display::BorderRadius,
    i: int,
    c: int,
)
    requires
        0 <= i < k <= s.len(),
        0 <= c < crate::decorate::layer(s[i], rect, radius).len(),
    ensures
        ({
            let at = layers(s, i, rect, radius).len() as int + c;
            &&& at < layers(s, i + 1, rect, radius).len() <= layers(s, k, rect, radius).len()
            &&& layers(s, k, rect, radius)[at] == crate::decorate::layer(s[i], rect, radius)[c]
        }),
    decreases k,
{
    if i < k - 1 {
        lemma_layers_are_painted_in_order(s, k - 1, rect, radius, i, c);
    }
}

/// A single gradient fills the area of the background, over its color.
pub proof fn lemma_gradient_fills_the_area(b: BoxV, root: Num)
    requires
        background_area(b) is Some,
        b.own.style.background_layers@.len() == 0,
        b.own.style.background_gradient is Some,
        b.own.style.background_clip == BackgroundClip::BorderBox,
        b.own.style.backdrop_filter is Absent,
    ensures
        ({
            let c = background(b, root);
            &&& c.len() >= 1
            &&& c.last() matches CommandV::Gradient { gradient, rect, border_radius } && gradient
                == b.own.style.background_gradient->0@ && rect == b.dim.border_box()
                && border_radius == radii(b, root)
        }),
{
}

/// A backdrop filter works on the area of the background, before its color.
pub proof fn lemma_backdrop_is_filtered_first(b: BoxV, root: Num)
    requires
        background_area(b) is Some,
        b.own.style.background_clip == BackgroundClip::BorderBox,
        !(b.own.style.backdrop_filter is Absent),
    ensures
        background(b, root).len() >= 1,
        background(b, root)[0] matches CommandV::Plain(DisplayCommand::BackdropFilter {
            rect,
            border_radius,
            filter,
        }) && rect == b.dim.border_box() && border_radius == radii(b, root) && filter
            == b.own.style.backdrop_filter,
{
}

} // verus!

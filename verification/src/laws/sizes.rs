//! Widths, margins and heights of blocks.
use vstd::prelude::*;
use crate::block::{
    definite_height, fit_width, given_height, placed, used_height, used_width, vertical_edges,
    with_vertical, with_widths,
};
use crate::boxes::{IntrinsicWidths, OwnV};
use crate::floats::Float;
use crate::geometry::Dimensions;
use crate::grid;
use crate::margin_collapse::lemma_zero_is_number;
use crate::num::Num;
use crate::style::{BoxSizing, CalcSum, Length};

verus! {

/// A length names what it is a part of: all of the container, of the viewport's
/// width or of its height, one font size or one root font size.
pub proof fn lemma_lengths_measure_what_they_name(
    font: Num,
    root: Num,
    container: Num,
    vw: Num,
    vh: Num,
    v: Num,
)
    requires
        !container.nan() && !vw.nan() && !vh.nan() && !font.nan() && !root.nan(),
    ensures
        Length::Percent(Num::whole(100)).px_in(font, root, container, vw, vh) == container,
        Length::Vw(Num::whole(100)).px_in(font, root, container, vw, vh) == vw,
        Length::Vh(Num::whole(100)).px_in(font, root, container, vw, vh) == vh,
        Length::Em(Num::whole(100) / Num::whole(100)).px_in(font, root, container, vw, vh) == font,
        Length::Rem(Num::whole(100) / Num::whole(100)).px_in(font, root, container, vw, vh)
            == root,
        Length::Px(v).px_in(font, root, container, vw, vh) == v,
        Length::Auto.px_in(font, root, container, vw, vh) == Num::nought(),
        Length::Zero.px_in(font, root, container, vw, vh) == Num::nought(),
{
    grid::lemma_all_of(container);
    grid::lemma_all_of(vw);
    grid::lemma_all_of(vh);
    grid::lemma_all_of(font);
    grid::lemma_all_of(root);
}

/// So many font sizes, root font sizes or pixels, on a grid.
pub proof fn lemma_lengths_count_font_sizes(
    k: nat,
    font: Num,
    root: Num,
    container: Num,
    vw: Num,
    vh: Num,
    g: nat,
)
    requires
        k <= 0x10,
        font.coord(g) && root.coord(g),
    ensures
        Length::Em(Num::whole(k as int)).px_in(font, root, container, vw, vh).ticks(g) == k
            * font.ticks(g),
        Length::Rem(Num::whole(k as int)).px_in(font, root, container, vw, vh).ticks(g) == k
            * root.ticks(g),
{
    grid::lemma_times(k, font, g, 0x8_0000);
    grid::lemma_times(k, root, g, 0x8_0000);
}

/// A `calc()` is the sum of its terms: each of them is measured as the length
/// of its unit is.
pub proof fn lemma_calc_adds_its_terms(
    sum: CalcSum,
    font: Num,
    root: Num,
    container: Num,
    vw: Num,
    vh: Num,
    g: nat,
)
    requires
        ({
            let at = |l: Length| l.px_in(font, root, container, vw, vh);
            &&& at(Length::Px(sum.px)).coord(g) && at(Length::Percent(sum.percent)).coord(g)
            &&& at(Length::Em(sum.em)).coord(g) && at(Length::Rem(sum.rem)).coord(g)
            &&& at(Length::Vw(sum.vw)).coord(g) && at(Length::Vh(sum.vh)).coord(g)
        }),
    ensures
        ({
            let at = |l: Length| l.px_in(font, root, container, vw, vh).ticks(g);
            at(Length::Calc(sum)) == at(Length::Px(sum.px)) + at(Length::Percent(sum.percent))
                + at(Length::Em(sum.em)) + at(Length::Rem(sum.rem)) + at(Length::Vw(sum.vw)) + at(
                Length::Vh(sum.vh),
            )
        }),
{
    let u: int = 0x8_0000;
    let (a, b, c, d, e, f) = (
        Length::Px(sum.px).px_in(font, root, container, vw, vh),
        Length::Percent(sum.percent).px_in(font, root, container, vw, vh),
        Length::Em(sum.em).px_in(font, root, container, vw, vh),
        Length::Rem(sum.rem).px_in(font, root, container, vw, vh),
        Length::Vw(sum.vw).px_in(font, root, container, vw, vh),
        Length::Vh(sum.vh).px_in(font, root, container, vw, vh),
    );
    grid::lemma_sum(a, b, g, u, u);
    grid::lemma_sum(a + b, c, g, 2 * u, u);
    grid::lemma_sum(a + b + c, d, g, 3 * u, u);
    grid::lemma_sum(a + b + c + d, e, g, 4 * u, u);
    grid::lemma_sum(a + b + c + d + e, f, g, 5 * u, u);
}

/// The edges of a block are the lengths of its style, percentages taken of the
/// width of the containing block on all four sides.
pub proof fn lemma_edges_are_those_of_the_style(o: OwnV, vp: (Num, Num), d: Dimensions, cb: Dimensions)
    ensures
        ({
            let w = cb.content.width;
            let e = with_vertical(o, vp, with_widths(o, vp, d, cb), cb);
            let s = o.style;
            &&& e.border.left == o.px(vp, s.border_left_width, w)
            &&& e.border.right == o.px(vp, s.border_right_width, w)
            &&& e.border.top == o.px(vp, s.border_top_width, w)
            &&& e.border.bottom == o.px(vp, s.border_bottom_width, w)
            &&& e.padding.left == o.px(vp, s.padding_left, w)
            &&& e.padding.right == o.px(vp, s.padding_right, w)
            &&& e.padding.top == o.px(vp, s.padding_top, w)
            &&& e.padding.bottom == o.px(vp, s.padding_bottom, w)
            &&& e.margin.top == o.px(vp, s.margin_top, w)
            &&& e.margin.bottom == o.px(vp, s.margin_bottom, w)
            &&& !(s.margin_left is Auto || s.margin_right is Auto) ==> e.margin.left == o.px(
                vp,
                s.margin_left,
                w,
            ) && e.margin.right == o.px(vp, s.margin_right, w)
            &&& e.content.x == d.content.x && e.content.y == d.content.y
            &&& e.content.height == d.content.height
        }),
{
    reveal(with_widths);
    reveal(with_vertical);
}

/// Whether the horizontal lengths of a block and its container are on a grid.
pub open spec fn widths_on(o: OwnV, vp: (Num, Num), cb: Dimensions, g: nat) -> bool {
    let w = cb.content.width;
    let s = o.style;
    &&& w.coord(g)
    &&& o.px(vp, s.margin_left, w).coord(g) && o.px(vp, s.margin_right, w).coord(g)
    &&& o.px(vp, s.border_left_width, w).coord(g) && o.px(vp, s.border_right_width, w).coord(g)
    &&& o.px(vp, s.padding_left, w).coord(g) && o.px(vp, s.padding_right, w).coord(g)
}

/// Whether a style sets no limits to the width.
pub open spec fn no_width_limits(o: OwnV) -> bool {
    (o.style.min_width is Auto || o.style.min_width is Zero) && (o.style.max_width is Auto
        || o.style.max_width is Zero)
}

/// Whether a box is a block in flow, neither shrunk to fit nor floated.
pub open spec fn in_flow_block(o: OwnV) -> bool {
    !o.position.is_out_of_flow() && o.float == Float::Unset
        && !o.style.display.is_atomic_inline()
}

/// The steps that margins, borders, paddings and content of a block take up.
pub open spec fn taken_up(e: Dimensions, g: nat) -> int {
    e.margin.left.ticks(g) + e.border.left.ticks(g) + e.padding.left.ticks(g)
        + e.content.width.ticks(g) + e.padding.right.ticks(g) + e.border.right.ticks(g)
        + e.margin.right.ticks(g)
}

proof fn lemma_width_sums(o: OwnV, vp: (Num, Num), cb: Dimensions, g: nat)
    requires
        widths_on(o, vp, cb, g),
    ensures
        ({
            let s = crate::block::sides(o, vp, cb.content.width);
            let total = s.margin_left + s.margin_right + s.border_left + s.border_right
                + s.padding_left + s.padding_right;
            let pb = s.border_left + s.border_right + s.padding_left + s.padding_right;
            &&& (cb.content.width - total).on(g, 0x38_0000)
            &&& total.ticks(g) == s.margin_left.ticks(g) + s.margin_right.ticks(g)
                + s.border_left.ticks(g) + s.border_right.ticks(g) + s.padding_left.ticks(g)
                + s.padding_right.ticks(g)
            &&& (cb.content.width - total).ticks(g) == cb.content.width.ticks(g) - total.ticks(g)
            &&& pb.on(g, 0x20_0000)
            &&& pb.ticks(g) == s.border_left.ticks(g) + s.border_right.ticks(g)
                + s.padding_left.ticks(g) + s.padding_right.ticks(g)
            &&& Num::nought().on(g, 0) && Num::nought().ticks(g) == 0
        }),
{
    let u: int = 0x8_0000;
    let s = crate::block::sides(o, vp, cb.content.width);
    let a = s.margin_left + s.margin_right;
    grid::lemma_finite(cb.content.width, g, u);
    grid::lemma_zero(g);
    grid::lemma_sum(s.margin_left, s.margin_right, g, u, u);
    grid::lemma_sum(a, s.border_left, g, 2 * u, u);
    grid::lemma_sum(a + s.border_left, s.border_right, g, 3 * u, u);
    grid::lemma_sum(a + s.border_left + s.border_right, s.padding_left, g, 4 * u, u);
    grid::lemma_sum(
        a + s.border_left + s.border_right + s.padding_left,
        s.padding_right,
        g,
        5 * u,
        u,
    );
    let total = a + s.border_left + s.border_right + s.padding_left + s.padding_right;
    grid::lemma_difference(cb.content.width, total, g, u, 6 * u);
    let b = s.border_left + s.border_right;
    grid::lemma_sum(s.border_left, s.border_right, g, u, u);
    grid::lemma_sum(b, s.padding_left, g, 2 * u, u);
    grid::lemma_sum(b + s.padding_left, s.padding_right, g, 3 * u, u);
}

proof fn lemma_free_space(o: OwnV, vp: (Num, Num), cb: Dimensions, width: Num, g: nat, n: int)
    requires
        widths_on(o, vp, cb, g),
        width.on(g, n),
        0 <= n <= 0x80_0000,
    ensures
        ({
            let s = crate::block::sides(o, vp, cb.content.width);
            let free = cb.content.width - width - s.border_left - s.border_right - s.padding_left
                - s.padding_right - s.margin_left - s.margin_right;
            &&& free.on(g, n + 0x38_0000)
            &&& free.ticks(g) == cb.content.width.ticks(g) - width.ticks(g) - s.border_left.ticks(
                g,
            ) - s.border_right.ticks(g) - s.padding_left.ticks(g) - s.padding_right.ticks(g)
                - s.margin_left.ticks(g) - s.margin_right.ticks(g)
        }),
{
    let u: int = 0x8_0000;
    let s = crate::block::sides(o, vp, cb.content.width);
    let a = cb.content.width - width;
    grid::lemma_difference(cb.content.width, width, g, u, n);
    grid::lemma_difference(a, s.border_left, g, n + u, u);
    grid::lemma_difference(a - s.border_left, s.border_right, g, n + 2 * u, u);
    let b = a - s.border_left - s.border_right;
    grid::lemma_difference(b, s.padding_left, g, n + 3 * u, u);
    grid::lemma_difference(b - s.padding_left, s.padding_right, g, n + 4 * u, u);
    let c = b - s.padding_left - s.padding_right;
    grid::lemma_difference(c, s.margin_left, g, n + 5 * u, u);
    grid::lemma_difference(c - s.margin_left, s.margin_right, g, n + 6 * u, u);
}

/// A block of `width: auto` fills its containing block: margins, borders,
/// paddings and content take up its whole width, or the content is empty.
pub proof fn lemma_auto_width_fills_container(
    o: OwnV,
    vp: (Num, Num),
    d: Dimensions,
    cb: Dimensions,
    g: nat,
)
    requires
        in_flow_block(o),
        o.style.width is Auto,
        no_width_limits(o),
        widths_on(o, vp, cb, g),
    ensures
        ({
            let e = with_widths(o, vp, d, cb);
            &&& e.content.width.ticks(g) >= 0
            &&& e.content.width.ticks(g) > 0 ==> taken_up(e, g) == cb.content.width.ticks(g)
            &&& taken_up(e, g) >= cb.content.width.ticks(g)
        }),
{
    reveal(with_widths);
    let s = crate::block::sides(o, vp, cb.content.width);
    let u: int = 0x8_0000;
    lemma_width_sums(o, vp, cb, g);
    let avail = cb.content.width - (s.margin_left + s.margin_right + s.border_left + s.border_right
        + s.padding_left + s.padding_right);
    let zero = Num::nought();
    grid::lemma_wider(zero, g, 0, 7 * u);
    grid::lemma_extremes(avail, zero, g, 7 * u);
    let a = Num::larger(avail, zero);
    grid::lemma_extremes(a, zero, g, 7 * u);
    let w = used_width(o, vp, cb);
    assert(w == Num::larger(a, zero)) by {
        grid::lemma_order(Num::larger(a, zero), zero, g, 7 * u, 7 * u);
        crate::exact::lemma_unbounded();
    }
    lemma_free_space(o, vp, cb, w, g, 7 * u);
    let free = cb.content.width - w - s.border_left - s.border_right - s.padding_left
        - s.padding_right - s.margin_left - s.margin_right;
    grid::lemma_order(free, zero, g, 14 * u, 7 * u);
}

/// A pixel width is the content width of a content box. Of a border box it is
/// the width from border edge to border edge, or the content is empty.
pub proof fn lemma_specified_width_is_used(
    o: OwnV,
    vp: (Num, Num),
    d: Dimensions,
    cb: Dimensions,
    v: Num,
    g: nat,
)
    requires
        o.style.width == Length::Px(v),
        v.coord(g),
        v.ticks(g) >= 0,
        no_width_limits(o),
        widths_on(o, vp, cb, g),
    ensures
        ({
            let e = with_widths(o, vp, d, cb);
            let inner = e.border.left.ticks(g) + e.padding.left.ticks(g) + e.content.width.ticks(g)
                + e.padding.right.ticks(g) + e.border.right.ticks(g);
            &&& o.style.box_sizing != BoxSizing::BorderBox ==> e.content.width.ticks(g)
                == v.ticks(g)
            &&& o.style.box_sizing == BoxSizing::BorderBox && e.content.width.ticks(g) > 0
                ==> inner == v.ticks(g)
            &&& o.style.box_sizing == BoxSizing::BorderBox ==> e.content.width.ticks(g) >= 0
                && inner >= v.ticks(g)
        }),
{
    reveal(with_widths);
    let s = crate::block::sides(o, vp, cb.content.width);
    let u: int = 0x8_0000;
    let zero = Num::nought();
    lemma_width_sums(o, vp, cb, g);
    lemma_inside(s, v, g);
    crate::exact::lemma_unbounded();
    let inside = crate::block::inside(s, v);
    grid::lemma_wider(zero, g, 0, 5 * u);
    grid::lemma_wider(zero, g, 0, u);
    grid::lemma_order(v, zero, g, u, u);
    grid::lemma_order(inside, zero, g, 5 * u, 5 * u);
}

proof fn lemma_inside(s: crate::block::SidesV, v: Num, g: nat)
    requires
        v.coord(g) && s.border_left.coord(g) && s.border_right.coord(g),
        s.padding_left.coord(g) && s.padding_right.coord(g),
    ensures
        crate::block::inside(s, v).on(g, 0x28_0000),
        crate::block::inside(s, v).ticks(g) == ({
            let left = v.ticks(g) - s.padding_left.ticks(g) - s.padding_right.ticks(g)
                - s.border_left.ticks(g) - s.border_right.ticks(g);
            if left < 0 {
                0
            } else {
                left
            }
        }),
{
    let u: int = 0x8_0000;
    let zero = Num::nought();
    grid::lemma_finite(v, g, u);
    grid::lemma_zero(g);
    grid::lemma_wider(zero, g, 0, 5 * u);
    grid::lemma_difference(v, s.padding_left, g, u, u);
    grid::lemma_difference(v - s.padding_left, s.padding_right, g, 2 * u, u);
    let a = v - s.padding_left - s.padding_right;
    grid::lemma_difference(a, s.border_left, g, 3 * u, u);
    grid::lemma_difference(a - s.border_left, s.border_right, g, 4 * u, u);
    grid::lemma_extremes(a - s.border_left - s.border_right, zero, g, 5 * u);
}

/// Two `auto` margins centre a block that leaves room: they are equal and fill
/// the containing block. One takes all the room. Without room, or on a float,
/// `auto` margins are zero.
pub proof fn lemma_auto_margins_share_the_room(
    o: OwnV,
    vp: (Num, Num),
    d: Dimensions,
    cb: Dimensions,
    v: Num,
    g: nat,
)
    requires
        o.style.width == Length::Px(v),
        o.style.box_sizing != BoxSizing::BorderBox,
        v.coord(g),
        v.ticks(g) >= 0,
        no_width_limits(o),
        widths_on(o, vp, cb, g),
    ensures
        ({
            let e = with_widths(o, vp, d, cb);
            let s = o.style;
            let w = cb.content.width;
            let left = s.margin_left is Auto;
            let right = s.margin_right is Auto;
            let others = e.border.left.ticks(g) + e.padding.left.ticks(g) + v.ticks(g)
                + e.padding.right.ticks(g) + e.border.right.ticks(g);
            let given = o.px(vp, s.margin_left, w).ticks(g) + o.px(vp, s.margin_right, w).ticks(g);
            let room = w.ticks(g) - others - given;
            &&& o.float == Float::Unset && room > 0 && left && right && room % 2 == 0
                ==> e.margin.left.ticks(g) == e.margin.right.ticks(g) && taken_up(e, g) == w.ticks(
                g,
            )
            &&& o.float == Float::Unset && room > 0 && left && !right ==> taken_up(e, g)
                == w.ticks(g) && e.margin.right == o.px(vp, s.margin_right, w)
            &&& o.float == Float::Unset && room > 0 && !left && right ==> taken_up(e, g)
                == w.ticks(g) && e.margin.left == o.px(vp, s.margin_left, w)
            &&& o.float != Float::Unset || room <= 0 || !(left || right) ==> e.margin.left == o.px(
                vp,
                s.margin_left,
                w,
            ) && e.margin.right == o.px(vp, s.margin_right, w)
        }),
{
    lemma_specified_width_is_used(o, vp, d, cb, v, g);
    reveal(with_widths);
    let s = crate::block::sides(o, vp, cb.content.width);
    let u: int = 0x8_0000;
    let zero = Num::nought();
    lemma_width_sums(o, vp, cb, g);
    crate::exact::lemma_unbounded();
    grid::lemma_wider(zero, g, 0, u);
    grid::lemma_order(v, zero, g, u, u);
    assert(used_width(o, vp, cb) == v);
    lemma_free_space(o, vp, cb, v, g, u);
    let free = cb.content.width - v - s.border_left - s.border_right - s.padding_left
        - s.padding_right - s.margin_left - s.margin_right;
    grid::lemma_order(free, zero, g, 8 * u, u);
    grid::lemma_sum(s.margin_left, free, g, u, 8 * u);
    grid::lemma_sum(s.margin_right, free, g, u, 8 * u);
    if free.ticks(g) % 2 == 0 {
        grid::lemma_part(2, free, g, 8 * u);
        grid::lemma_sum(s.margin_left, free / Num::whole(2), g, u, 8 * u);
        grid::lemma_sum(s.margin_right, free / Num::whole(2), g, u, 8 * u);
    }
}

/// The width of a content box is never above its maximal width, and never below
/// its minimal width unless the maximum is smaller still.
pub proof fn lemma_width_keeps_its_limits(o: OwnV, vp: (Num, Num), d: Dimensions, cb: Dimensions, lo: Num, hi: Num)
    requires
        o.style.box_sizing != BoxSizing::BorderBox,
        o.style.min_width == Length::Px(lo),
        o.style.max_width == Length::Px(hi),
        !lo.nan() && !hi.nan(),
    ensures
        with_widths(o, vp, d, cb).content.width <= hi,
        lo <= hi ==> with_widths(o, vp, d, cb).content.width >= lo,
{
    reveal(with_widths);
}

/// Limits of a border box hold from border edge to border edge.
pub proof fn lemma_border_box_width_limits(
    o: OwnV,
    vp: (Num, Num),
    d: Dimensions,
    cb: Dimensions,
    v: Num,
    lo: Num,
    hi: Num,
    g: nat,
)
    requires
        o.style.box_sizing == BoxSizing::BorderBox,
        o.style.width == Length::Px(v),
        o.style.min_width == Length::Px(lo),
        o.style.max_width == Length::Px(hi),
        v.coord(g) && lo.coord(g) && hi.coord(g),
        0 < lo.ticks(g) <= hi.ticks(g),
        widths_on(o, vp, cb, g),
    ensures
        ({
            let e = with_widths(o, vp, d, cb);
            let edges = e.border.left.ticks(g) + e.padding.left.ticks(g) + e.padding.right.ticks(g)
                + e.border.right.ticks(g);
            let outer = edges + e.content.width.ticks(g);
            let want = if v.ticks(g) < lo.ticks(g) {
                lo.ticks(g)
            } else if v.ticks(g) > hi.ticks(g) {
                hi.ticks(g)
            } else {
                v.ticks(g)
            };
            outer == if want < edges {
                edges
            } else {
                want
            }
        }),
{
    reveal(with_widths);
    let s = crate::block::sides(o, vp, cb.content.width);
    let u: int = 0x8_0000;
    let zero = Num::nought();
    lemma_width_sums(o, vp, cb, g);
    lemma_inside(s, v, g);
    lemma_inside(s, lo, g);
    lemma_inside(s, hi, g);
    grid::lemma_wider(zero, g, 0, u);
    grid::lemma_order(lo, zero, g, u, u);
    let a = crate::block::inside(s, v);
    let b = crate::block::inside(s, lo);
    let c = crate::block::inside(s, hi);
    grid::lemma_extremes(a, b, g, 5 * u);
    grid::lemma_extremes(Num::larger(a, b), c, g, 5 * u);
}

/// Shrink-to-fit: as wide as the content can use where that fits, else the room
/// there is, but no narrower than the content needs. More room is never a
/// narrower box.
pub proof fn lemma_shrink_to_fit(w: IntrinsicWidths, room: Num, more: Num, g: nat)
    requires
        w.own_min_content.coord(g) && w.own_max_content.coord(g) && w.padding_border.coord(g),
        room.coord(g) && more.coord(g),
        room.ticks(g) <= more.ticks(g),
        0 <= w.own_min_content.ticks(g) - w.padding_border.ticks(g),
        w.own_min_content.ticks(g) <= w.own_max_content.ticks(g),
    ensures
        ({
            let need = w.own_min_content.ticks(g) - w.padding_border.ticks(g);
            let use_ = w.own_max_content.ticks(g) - w.padding_border.ticks(g);
            let r = fit_width(w, room).ticks(g);
            &&& need <= r <= use_
            &&& use_ <= room.ticks(g) ==> r == use_
            &&& need <= room.ticks(g) <= use_ ==> r == room.ticks(g)
            &&& room.ticks(g) <= need ==> r == need
            &&& r <= fit_width(w, more).ticks(g)
        }),
{
    let u: int = 0x8_0000;
    let zero = Num::nought();
    grid::lemma_finite(room, g, u);
    grid::lemma_zero(g);
    grid::lemma_wider(zero, g, 0, 2 * u);
    grid::lemma_wider(room, g, u, 2 * u);
    grid::lemma_wider(more, g, u, 2 * u);
    grid::lemma_difference(w.own_min_content, w.padding_border, g, u, u);
    grid::lemma_difference(w.own_max_content, w.padding_border, g, u, u);
    let lo = w.own_min_content - w.padding_border;
    let hi = Num::larger(w.own_max_content - w.padding_border, zero);
    grid::lemma_extremes(w.own_max_content - w.padding_border, zero, g, 2 * u);
    grid::lemma_extremes(lo, room, g, 2 * u);
    grid::lemma_extremes(lo, more, g, 2 * u);
    grid::lemma_extremes(Num::larger(lo, room), hi, g, 2 * u);
    grid::lemma_extremes(Num::larger(lo, more), hi, g, 2 * u);
}

/// A block is placed below what its containing block holds: the border box
/// starts a top margin below it, and the margin box at its left edge.
pub proof fn lemma_block_is_placed_below(d: Dimensions, cb: Dimensions, margin_top: Num, g: nat)
    requires
        d.coords(g),
        cb.content.coords(g),
        margin_top.coord(g),
    ensures
        ({
            let e = placed(d, cb, margin_top);
            &&& e.border_box().y.ticks(g) == cb.content.y.ticks(g) + cb.content.height.ticks(g)
                + margin_top.ticks(g)
            &&& e.margin_box().x.ticks(g) == cb.content.x.ticks(g)
            &&& e.content.width == d.content.width && e.content.height == d.content.height
            &&& e.padding == d.padding && e.border == d.border && e.margin == d.margin
        }),
{
    reveal(placed);
    let u: int = 0x8_0000;
    let c = cb.content;
    let e = placed(d, cb, margin_top);
    grid::lemma_sum(c.x, d.margin.left, g, u, u);
    grid::lemma_sum(c.x + d.margin.left, d.border.left, g, 2 * u, u);
    grid::lemma_sum(c.x + d.margin.left + d.border.left, d.padding.left, g, 3 * u, u);
    grid::lemma_sum(c.y, c.height, g, u, u);
    grid::lemma_sum(c.y + c.height, margin_top, g, 2 * u, u);
    grid::lemma_sum(c.y + c.height + margin_top, d.border.top, g, 3 * u, u);
    grid::lemma_sum(c.y + c.height + margin_top + d.border.top, d.padding.top, g, 4 * u, u);
    grid::lemma_difference(e.content.x, d.padding.left, g, 4 * u, u);
    grid::lemma_difference(e.content.x - d.padding.left, d.border.left, g, 5 * u, u);
    grid::lemma_difference(
        e.content.x - d.padding.left - d.border.left,
        d.margin.left,
        g,
        6 * u,
        u,
    );
    grid::lemma_difference(e.content.y, d.padding.top, g, 5 * u, u);
    grid::lemma_difference(e.content.y - d.padding.top, d.border.top, g, 6 * u, u);
}

/// Whether a style sets no limits to the height.
pub open spec fn no_height_limits(o: OwnV) -> bool {
    (o.style.min_height is Auto || o.style.min_height is Zero) && (o.style.max_height is Auto
        || o.style.max_height is Zero)
}

/// Whether a length has no `calc()` in it.
pub open spec fn plain(l: Length) -> bool {
    !(l is Calc)
}

/// The height of a block depends on the height of the viewport, never on its
/// width.
pub proof fn lemma_height_ignores_viewport_width(
    o: OwnV,
    a: Num,
    b: Num,
    h: Num,
    d: Dimensions,
    base: Option<Num>,
)
    requires
        plain(o.style.height) && plain(o.style.min_height) && plain(o.style.max_height),
    ensures
        used_height(o, (a, h), d, base) == used_height(o, (b, h), d, base),
{
    reveal(used_height);
}

/// A minimal height of the whole viewport makes a box at least as high as the
/// viewport, and one without content of its own exactly so; a maximal height
/// of it keeps a box from being higher.
pub proof fn lemma_viewport_limits_height(o: OwnV, vp: (Num, Num), d: Dimensions, base: Option<Num>)
    requires
        o.style.box_sizing != BoxSizing::BorderBox,
        vp.1 > Num::nought(),
        !d.content.height.nan(),
        o.style.height is Auto,
        o.style.aspect_ratio is None,
    ensures
        o.style.min_height == Length::Vh(Num::whole(100)) && (o.style.max_height is Auto
            || o.style.max_height is Zero) ==> {
            &&& used_height(o, vp, d, base) >= vp.1
            &&& d.content.height <= vp.1 ==> used_height(o, vp, d, base).same(vp.1)
            &&& d.content.height > vp.1 ==> used_height(o, vp, d, base) == d.content.height
        },
        o.style.max_height == Length::Vh(Num::whole(100)) ==> used_height(o, vp, d, base) <= vp.1,
        o.style.max_height == Length::Vh(Num::whole(100)) && (o.style.min_height is Auto
            || o.style.min_height is Zero) && d.content.height >= Num::nought() ==> {
            &&& d.content.height <= vp.1 ==> used_height(o, vp, d, base) == d.content.height
            &&& d.content.height > vp.1 ==> used_height(o, vp, d, base) == vp.1
        },
{
    reveal(used_height);
    lemma_zero_is_number();
    grid::lemma_all_of(vp.1);
    crate::exact::lemma_unbounded();
}

/// The height of a content box is never above its maximal height, and never
/// below its minimal height unless the maximum is smaller still. A percentage
/// limit of all is the viewport's height.
pub proof fn lemma_height_keeps_its_limits(o: OwnV, vp: (Num, Num), d: Dimensions, base: Option<Num>, lo: Num, hi: Num)
    requires
        o.style.box_sizing != BoxSizing::BorderBox,
        !lo.nan() && !hi.nan() && !vp.1.nan(),
        !crate::block::tentative_height(o, vp, d, base).nan(),
    ensures
        o.style.min_height == Length::Px(lo) && o.style.max_height == Length::Px(hi) ==> {
            &&& used_height(o, vp, d, base) <= hi
            &&& lo <= hi ==> used_height(o, vp, d, base) >= lo
        },
        o.style.max_height == Length::Percent(Num::whole(100)) ==> used_height(o, vp, d, base)
            <= vp.1,
        o.style.min_height == Length::Percent(Num::whole(100)) && (o.style.max_height is Auto
            || o.style.max_height is Zero) ==> used_height(o, vp, d, base) >= vp.1,
{
    reveal(used_height);
    grid::lemma_all_of(vp.1);
    crate::exact::lemma_unbounded();
}

/// The height a style names: its pixels, all of the base or of the viewport,
/// one font size or one root font size.
pub open spec fn named_height(o: OwnV, vp: (Num, Num), base: Num) -> Option<Num> {
    let one = Num::whole(100) / Num::whole(100);
    match o.style.height {
        Length::Px(v) => Some(v),
        Length::Percent(p) => if p == Num::whole(100) {
            Some(base)
        } else {
            None
        },
        Length::Vh(p) => if p == Num::whole(100) {
            Some(vp.1)
        } else {
            None
        },
        Length::Em(v) => if v == one {
            Some(o.style.font_px())
        } else {
            None
        },
        Length::Rem(v) => if v == one {
            Some(Num::whole(16))
        } else {
            None
        },
        _ => None,
    }
}

/// The height that a style names is the content height of a content box. Of a
/// border box it is the height from border edge to border edge, or the content
/// is empty.
pub proof fn lemma_named_height_is_used(
    o: OwnV,
    vp: (Num, Num),
    d: Dimensions,
    base: Num,
    v: Num,
    g: nat,
)
    requires
        named_height(o, vp, base) == Some(v),
        vp.1 > Num::nought(),
        v.coord(g),
        v.ticks(g) >= 0,
        no_height_limits(o),
        d.coords(g),
    ensures
        ({
            let h = used_height(o, vp, d, Some(base)).ticks(g);
            let edges = d.padding.top.ticks(g) + d.padding.bottom.ticks(g) + d.border.top.ticks(g)
                + d.border.bottom.ticks(g);
            &&& o.style.box_sizing != BoxSizing::BorderBox ==> h == v.ticks(g)
            &&& o.style.box_sizing == BoxSizing::BorderBox ==> h == if v.ticks(g) < edges {
                0
            } else {
                v.ticks(g) - edges
            }
        }),
{
    reveal(used_height);
    let u: int = 0x8_0000;
    let zero = Num::nought();
    lemma_zero_is_number();
    crate::exact::lemma_unbounded();
    grid::lemma_finite(v, g, u);
    grid::lemma_all_of(v);
    grid::lemma_zero(g);
    grid::lemma_wider(zero, g, 0, u);
    grid::lemma_order(v, zero, g, u, u);
    lemma_edges_sum(d, g);
    let e = vertical_edges(d);
    grid::lemma_difference(v, e, g, u, 4 * u);
    grid::lemma_wider(zero, g, 0, 5 * u);
    grid::lemma_extremes(v - e, zero, g, 5 * u);
    grid::lemma_order(Num::larger(v - e, zero), zero, g, 5 * u, 5 * u);
}

proof fn lemma_edges_sum(d: Dimensions, g: nat)
    requires
        d.coords(g),
    ensures
        vertical_edges(d).on(g, 0x20_0000),
        vertical_edges(d).ticks(g) == d.padding.top.ticks(g) + d.padding.bottom.ticks(g)
            + d.border.top.ticks(g) + d.border.bottom.ticks(g),
{
    let u: int = 0x8_0000;
    grid::lemma_sum(d.padding.top, d.padding.bottom, g, u, u);
    grid::lemma_sum(d.padding.top + d.padding.bottom, d.border.top, g, 2 * u, u);
    grid::lemma_sum(
        d.padding.top + d.padding.bottom + d.border.top,
        d.border.bottom,
        g,
        3 * u,
        u,
    );
}

/// A box of `height: auto` without limits is as high as its content.
pub proof fn lemma_auto_height_is_that_of_the_content(
    o: OwnV,
    vp: (Num, Num),
    d: Dimensions,
    base: Option<Num>,
)
    requires
        o.style.height is Auto,
        o.style.aspect_ratio is None,
        no_height_limits(o),
        d.content.height >= Num::nought(),
    ensures
        used_height(o, vp, d, base) == d.content.height,
{
    reveal(used_height);
    crate::exact::lemma_unbounded();
}

/// The height that children take percentages of is the height the box comes to
/// have, where its style has no limits: a child of 100% is as high as its
/// parent's content.
pub proof fn lemma_children_measure_the_used_height(
    o: OwnV,
    vp: (Num, Num),
    d: Dimensions,
    base: Num,
)
    requires
        no_height_limits(o),
        base > Num::nought(),
        definite_height(o, vp, d, base) is Some,
        !crate::block::tentative_height(o, vp, d, Some(base)).nan(),
    ensures
        definite_height(o, vp, d, base)->0.same(used_height(o, vp, d, Some(base))),
{
    reveal(used_height);
    reveal(definite_height);
    lemma_zero_is_number();
    crate::exact::lemma_unbounded();
}

/// A height that the style alone makes definite is the height the box comes to
/// have, where its style has no limits.
pub proof fn lemma_given_height_is_used(
    o: OwnV,
    vp: (Num, Num),
    d: Dimensions,
    base: Option<Num>,
)
    requires
        no_height_limits(o),
        given_height(o, vp, d) matches Some(h) && h >= Num::nought(),
    ensures
        used_height(o, vp, d, base) == given_height(o, vp, d)->0,
{
    reveal(used_height);
    lemma_zero_is_number();
    crate::exact::lemma_unbounded();
}

/// A box with an `aspect-ratio` is as many times wider than high as the ratio
/// says, by the box that `box-sizing` names.
pub proof fn lemma_aspect_ratio_is_kept(
    o: OwnV,
    vp: (Num, Num),
    d: Dimensions,
    base: Option<Num>,
    k: nat,
    g: nat,
)
    requires
        o.style.height is Auto,
        no_height_limits(o),
        o.style.aspect_ratio == Some(Num::whole(k as int)),
        0 < k < 0x100,
        d.coords(g),
        d.content.width.ticks(g) > 0,
        ({
            let w = d.content.width.ticks(g) + if o.style.box_sizing == BoxSizing::BorderBox {
                d.padding.left.ticks(g) + d.padding.right.ticks(g) + d.border.left.ticks(g)
                    + d.border.right.ticks(g)
            } else {
                0
            };
            w % k as int == 0 && w >= 0
        }),
    ensures
        ({
            let h = used_height(o, vp, d, base).ticks(g);
            let edges_w = d.padding.left.ticks(g) + d.padding.right.ticks(g) + d.border.left.ticks(
                g,
            ) + d.border.right.ticks(g);
            let edges_h = d.padding.top.ticks(g) + d.padding.bottom.ticks(g) + d.border.top.ticks(
                g,
            ) + d.border.bottom.ticks(g);
            &&& o.style.box_sizing != BoxSizing::BorderBox ==> k * h == d.content.width.ticks(g)
            &&& o.style.box_sizing == BoxSizing::BorderBox && h > 0 ==> k * (h + edges_h)
                == d.content.width.ticks(g) + edges_w
            &&& h >= 0
        }),
{
    reveal(used_height);
    let u: int = 0x8_0000;
    let zero = Num::nought();
    let ratio = Num::whole(k as int);
    let w = d.content.width;
    lemma_zero_is_number();
    crate::exact::lemma_unbounded();
    grid::lemma_finite(w, g, u);
    grid::lemma_zero(g);
    grid::lemma_wider(zero, g, 0, u);
    grid::lemma_order(w, zero, g, u, u);
    crate::exact::lemma_whole(k as int);
    assert(ratio > zero) by {
        crate::num::lemma_decode(0);
        crate::num::lemma_rank_is_value(zero, ratio);
        vstd::arithmetic::power2::lemma_pow2_pos(149);
        assert(k * vstd::arithmetic::power2::pow2(149) > 0) by (nonlinear_arith)
            requires
                k > 0,
                vstd::arithmetic::power2::pow2(149) > 0,
        ;
    }
    lemma_edges_sum(d, g);
    grid::lemma_sum(d.padding.left, d.padding.right, g, u, u);
    grid::lemma_sum(d.padding.left + d.padding.right, d.border.left, g, 2 * u, u);
    grid::lemma_sum(
        d.padding.left + d.padding.right + d.border.left,
        d.border.right,
        g,
        3 * u,
        u,
    );
    let ew = d.padding.left + d.padding.right + d.border.left + d.border.right;
    let eh = vertical_edges(d);
    grid::lemma_sum(w, ew, g, u, 4 * u);
    if o.style.box_sizing == BoxSizing::BorderBox {
        grid::lemma_part(k, w + ew, g, 5 * u);
        let q = (w + ew) / ratio;
        grid::lemma_difference(q, eh, g, 5 * u, 4 * u);
        grid::lemma_wider(zero, g, 0, 9 * u);
        grid::lemma_extremes(q - eh, zero, g, 9 * u);
        grid::lemma_order(Num::larger(q - eh, zero), zero, g, 9 * u, 9 * u);
    } else {
        grid::lemma_part(k, w, g, u);
        let q = w / ratio;
        assert(q.ticks(g) >= 0) by (nonlinear_arith)
            requires
                k * q.ticks(g) == w.ticks(g),
                w.ticks(g) > 0,
                k > 0,
        ;
        grid::lemma_order(q, zero, g, u, u);
    }
}

} // verus!

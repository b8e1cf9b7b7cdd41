//! Moving: a box that moves takes its whole subtree along.
use vstd::prelude::*;
use crate::block::{
    anchored, carried, offset, offset_own, reanchored, with_offsets,
};
use crate::boxes::{BoxV, Position, PositionOffsets};
use crate::exact;
use crate::geometry::{Dimensions, Rect};
use crate::grid;
use crate::laws::boxes::{lemma_boxes_lie_around, lemma_rect_edges};
use crate::num::Num;
use crate::style::Length;
use crate::tree::shifted;

verus! {

/// Whether every box of a tree is at coordinates on a grid.
pub open spec fn tree_coords(b: BoxV, g: nat) -> bool
    decreases b,
{
    &&& b.dim.content.x.coord(g) && b.dim.content.y.coord(g)
    &&& forall|i: int| 0 <= i < b.children.len() ==> tree_coords(#[trigger] b.children[i], g)
}

/// Whether a tree is another one moved: every box is so many steps further
/// right and down, and everything else about it is as it was.
pub open spec fn moved_whole(a: BoxV, b: BoxV, dx: int, dy: int, g: nat) -> bool
    decreases a,
{
    &&& b.own == a.own && b.viewport == a.viewport && b.sticky == a.sticky && b.lines == a.lines
    &&& b.flow == a.flow && b.children.len() == a.children.len()
    &&& b.dim.content.width == a.dim.content.width
    &&& b.dim.content.height == a.dim.content.height
    &&& b.dim.padding == a.dim.padding && b.dim.border == a.dim.border
    &&& b.dim.margin == a.dim.margin
    &&& b.dim.content.x.ticks(g) == a.dim.content.x.ticks(g) + dx
    &&& b.dim.content.y.ticks(g) == a.dim.content.y.ticks(g) + dy
    &&& forall|i: int|
        0 <= i < a.children.len() ==> moved_whole(
            #[trigger] a.children[i],
            b.children[i],
            dx,
            dy,
            g,
        )
}

/// Moving a subtree moves every box of it by the same distance, right and down
/// for positive ones.
pub proof fn lemma_subtree_moves_whole(b: BoxV, dx: Num, dy: Num, g: nat, n: int)
    requires
        tree_coords(b, g),
        dx.on(g, n),
        dy.on(g, n),
        0 <= n <= 0xa0_0000,
    ensures
        moved_whole(b, shifted(b, dx, dy), dx.ticks(g), dy.ticks(g), g),
    decreases b,
{
    reveal(shifted);
    grid::lemma_sum(b.dim.content.x, dx, g, 0x8_0000, n);
    grid::lemma_sum(b.dim.content.y, dy, g, 0x8_0000, n);
    let c = shifted(b, dx, dy);
    assert forall|i: int| 0 <= i < b.children.len() implies moved_whole(
        #[trigger] b.children[i],
        c.children[i],
        dx.ticks(g),
        dy.ticks(g),
        g,
    ) by {
        lemma_subtree_moves_whole(b.children[i], dx, dy, g, n);
    }
}

/// Whether the children of a box went along with it.
pub open spec fn children_followed(a: BoxV, b: BoxV, g: nat) -> bool {
    let dx = b.dim.content.x.ticks(g) - a.dim.content.x.ticks(g);
    let dy = b.dim.content.y.ticks(g) - a.dim.content.y.ticks(g);
    &&& b.children.len() == a.children.len()
    &&& forall|i: int|
        0 <= i < a.children.len() ==> moved_whole(
            #[trigger] a.children[i],
            b.children[i],
            dx,
            dy,
            g,
        )
}

proof fn lemma_carried(b: BoxV, x: Num, y: Num, g: nat, n: int)
    requires
        x.coord(g),
        y.coord(g),
        b.dim.content.x.on(g, n),
        b.dim.content.y.on(g, n),
        0 <= n <= 0x60_0000,
        forall|i: int| 0 <= i < b.children.len() ==> tree_coords(#[trigger] b.children[i], g),
    ensures
        ({
            let c = carried(b, x, y);
            &&& c.dim == b.dim && c.own == b.own && c.sticky == b.sticky
            &&& c.children.len() == b.children.len()
            &&& forall|i: int|
                0 <= i < b.children.len() ==> moved_whole(
                    #[trigger] b.children[i],
                    c.children[i],
                    b.dim.content.x.ticks(g) - x.ticks(g),
                    b.dim.content.y.ticks(g) - y.ticks(g),
                    g,
                )
        }),
{
    reveal(carried);
    let u: int = 0x8_0000;
    let dx = b.dim.content.x - x;
    let dy = b.dim.content.y - y;
    grid::lemma_difference(b.dim.content.x, x, g, n, u);
    grid::lemma_difference(b.dim.content.y, y, g, n, u);
    grid::lemma_finite(x, g, u);
    grid::lemma_zero(g);
    grid::lemma_order(dx, Num::nought(), g, n + u, 0);
    grid::lemma_order(dy, Num::nought(), g, n + u, 0);
    let c = carried(b, x, y);
    assert forall|i: int| 0 <= i < b.children.len() implies moved_whole(
        #[trigger] b.children[i],
        c.children[i],
        dx.ticks(g),
        dy.ticks(g),
        g,
    ) by {
        if dx.ticks(g) == 0 && dy.ticks(g) == 0 {
            lemma_unmoved(b.children[i], g);
        } else {
            lemma_subtree_moves_whole(b.children[i], dx, dy, g, n + u);
            assert(c.children[i] == shifted(b.children[i], dx, dy)) by {
                reveal(shifted);
            }
        }
    }
}

pub proof fn lemma_unmoved(b: BoxV, g: nat)
    ensures
        moved_whole(b, b, 0, 0, g),
    decreases b,
{
    assert forall|i: int| 0 <= i < b.children.len() implies moved_whole(
        #[trigger] b.children[i],
        b.children[i],
        0,
        0,
        g,
    ) by {
        lemma_unmoved(b.children[i], g);
    }
}

/// An offset on a grid, zero where there is none.
pub open spec fn offset_ticks(v: Option<Num>, g: nat) -> int {
    match v {
        Some(n) => n.ticks(g),
        None => 0,
    }
}

/// Whether the offsets that are given are on a grid.
pub open spec fn offsets_on(f: PositionOffsets, g: nat) -> bool {
    &&& f.top matches Some(v) ==> v.coord(g)
    &&& f.right matches Some(v) ==> v.coord(g)
    &&& f.bottom matches Some(v) ==> v.coord(g)
    &&& f.left matches Some(v) ==> v.coord(g)
}

/// A relatively positioned box moves from its place in the flow: down by its
/// top offset, else up by its bottom offset, and right by its left offset, else
/// left by its right offset. Its size stays, and its children go along.
pub proof fn lemma_relative_box_moves_from_its_place(b: BoxV, cb: Dimensions, g: nat)
    requires
        b.own.position == Position::Relative,
        tree_coords(b, g),
        offsets_on(b.own.offsets, g),
    ensures
        ({
            let c = offset(b, cb);
            let f = b.own.offsets;
            let down = c.dim.content.y.ticks(g) - b.dim.content.y.ticks(g);
            let right = c.dim.content.x.ticks(g) - b.dim.content.x.ticks(g);
            &&& f.top is Some ==> down == offset_ticks(f.top, g)
            &&& f.top is None ==> down == -offset_ticks(f.bottom, g)
            &&& f.left is Some ==> right == offset_ticks(f.left, g)
            &&& f.left is None ==> right == -offset_ticks(f.right, g)
            &&& c.dim.content.width == b.dim.content.width
            &&& c.dim.content.height == b.dim.content.height
            &&& c.dim.margin == b.dim.margin && c.dim.border == b.dim.border
            &&& c.dim.padding == b.dim.padding
            &&& children_followed(b, c, g)
        }),
{
    reveal(offset);
    let c = b.dim.content;
    let f = b.own.offsets;
    let u: int = 0x8_0000;
    if f.top is Some {
        grid::lemma_sum(c.y, f.top->0, g, u, u);
    } else if f.bottom is Some {
        grid::lemma_difference(c.y, f.bottom->0, g, u, u);
    } else {
        grid::lemma_wider(c.y, g, u, 2 * u);
    }
    if f.left is Some {
        grid::lemma_sum(c.x, f.left->0, g, u, u);
    } else if f.right is Some {
        grid::lemma_difference(c.x, f.right->0, g, u, u);
    } else {
        grid::lemma_wider(c.x, g, u, 2 * u);
    }
    lemma_carried(offset_own(b, cb), c.x, c.y, g, 2 * u);
}

/// A box moved down by a top offset is where a bottom offset of the opposite
/// amount puts it; so for left and right.
pub proof fn lemma_opposite_offsets_agree(
    b: BoxV,
    c: BoxV,
    cb: Dimensions,
    down: Num,
    right: Num,
)
    requires
        b.own.position == Position::Relative,
        c == (BoxV { own: c.own, ..b }),
        c.own.position == Position::Relative,
        b.own.offsets == (PositionOffsets {
            top: Some(down),
            left: Some(right),
            bottom: None,
            right: None,
        }),
        c.own.offsets == (PositionOffsets {
            top: None,
            left: None,
            bottom: Some(Num::negated(down)),
            right: Some(Num::negated(right)),
        }),
    ensures
        offset(b, cb).dim == offset(c, cb).dim,
        offset(b, cb).children == offset(c, cb).children,
{
    reveal(offset);
    reveal(carried);
    assert(Num::negated(Num::negated(down)) == down && Num::negated(Num::negated(right)) == right)
        by {
        reveal(Num::negated);
    }
}

/// A positive top offset never puts a box above its place, a positive bottom
/// offset never below it, whatever the rounding.
pub proof fn lemma_relative_offsets_have_directions(b: BoxV, cb: Dimensions, v: Num)
    requires
        b.own.position == Position::Relative,
        b.dim.content.x.finite() && b.dim.content.y.finite(),
        v.finite(),
        v >= Num::nought(),
    ensures
        b.own.offsets.top == Some(v) ==> offset(b, cb).dim.content.y >= b.dim.content.y,
        b.own.offsets.top is None && b.own.offsets.bottom == Some(v) ==> offset(
            b,
            cb,
        ).dim.content.y <= b.dim.content.y,
        b.own.offsets.left == Some(v) ==> offset(b, cb).dim.content.x >= b.dim.content.x,
        b.own.offsets.left is None && b.own.offsets.right == Some(v) ==> offset(
            b,
            cb,
        ).dim.content.x <= b.dim.content.x,
{
    reveal(offset);
    reveal(carried);
    lemma_directions(b.dim.content.x, v);
    lemma_directions(b.dim.content.y, v);
}

proof fn lemma_directions(a: Num, v: Num)
    requires
        a.finite(),
        v.finite(),
        v >= Num::nought(),
    ensures
        a + v >= a,
        a - v <= a,
{
    let zero = Num::nought();
    let n = Num::negated(v);
    crate::margin_collapse::lemma_zero_is_number();
    crate::margin_collapse::lemma_negated_rank(v);
    exact::lemma_finite_terms(a, v);
    exact::lemma_nothing_added(a);
    exact::lemma_sum_commutes(a, v);
    exact::lemma_sum_commutes(a, n);
    exact::lemma_sums_keep_order(zero, v, a);
    assert(n <= zero) by {
        reveal(Num::rank);
        reveal(Num::nan);
    }
    exact::lemma_sums_keep_order(n, zero, a);
}

/// An absolutely positioned box between offsets: its margin box is `left` from
/// the left edge of the containing block, else `right` from its right edge, and
/// likewise from top and bottom. Where a size is not to be stretched it stays.
pub proof fn lemma_absolute_box_keeps_its_distances(b: BoxV, cb: Dimensions, g: nat)
    requires
        b.own.position == Position::Absolute,
        b.dim.coords(g),
        tree_coords(b, g),
        cb.content.coords(g),
        offsets_on(b.own.offsets, g),
        b.own.offsets == b.own.resolved_in(cb),
    ensures
        ({
            let f = b.own.offsets;
            let m = offset(b, cb).dim.margin_box();
            let (left, top, right, bottom) = m.edges(g);
            let (cl, ct, cr, cb_) = cb.content.edges(g);
            let was = b.dim.margin_box();
            &&& f.left is Some ==> left - cl == offset_ticks(f.left, g)
            &&& f.left is None && f.right is Some ==> cr - right == offset_ticks(f.right, g)
            &&& f.left is None && f.right is None ==> left == was.x.ticks(g)
            &&& f.top is Some ==> top - ct == offset_ticks(f.top, g)
            &&& f.top is None && f.bottom is Some ==> cb_ - bottom == offset_ticks(f.bottom, g)
            &&& f.top is None && f.bottom is None ==> top == was.y.ticks(g)
            &&& !(f.left is Some && f.right is Some && b.own.style.width is Auto)
                ==> m.width.ticks(g) == was.width.ticks(g)
            &&& !(f.top is Some && f.bottom is Some && b.own.style.height is Auto)
                ==> m.height.ticks(g) == was.height.ticks(g)
        }),
        stretched_ticks(b, offset(b, cb), cb, g),
        children_followed(b, offset(b, cb), g),
{
    reveal(offset);
    let u: int = 0x8_0000;
    let d = b.dim;
    let e = with_offsets(b.own, d, cb);
    lemma_rect_edges(cb.content, g);
    lemma_boxes_lie_around(d, g);
    lemma_offset_axes(b, cb, g);
    lemma_placed_boxes(e, g);
    lemma_carried(b.with_dim(e), d.content.x, d.content.y, g, 9 * u);
    assert(offset(b, cb).dim == e);
}

/// Whether a box that is stretched between offsets spans what they leave, where
/// that is not negative.
pub open spec fn stretched_ticks(b: BoxV, c: BoxV, cb: Dimensions, g: nat) -> bool {
    let f = b.own.offsets;
    let m = c.dim.margin_box();
    let (left, top, right, bottom) = m.edges(g);
    let (cl, ct, cr, cb_) = cb.content.edges(g);
    &&& f.left is Some && f.right is Some && b.own.style.width is Auto
        && c.dim.content.width.ticks(g) > 0 ==> cr - right == offset_ticks(f.right, g)
    &&& f.top is Some && f.bottom is Some && b.own.style.height is Auto
        && c.dim.content.height.ticks(g) > 0 ==> cb_ - bottom == offset_ticks(f.bottom, g)
    &&& f.left is Some && f.right is Some && b.own.style.width is Auto
        ==> c.dim.content.width.ticks(g) >= 0
    &&& f.top is Some && f.bottom is Some && b.own.style.height is Auto
        ==> c.dim.content.height.ticks(g) >= 0
}

/// One axis of an absolutely positioned box: where its content starts, and how
/// far it reaches.
proof fn lemma_axis(
    start: Num,
    extent: Num,
    far: Num,
    lo: Num,
    hi: Num,
    m0: Num,
    b0: Num,
    p0: Num,
    m1: Num,
    b1: Num,
    p1: Num,
    size: Num,
    g: nat,
)
    requires
        start.coord(g) && extent.coord(g) && lo.coord(g) && hi.coord(g) && size.coord(g),
        far == start + extent,
        m0.coord(g) && b0.coord(g) && p0.coord(g) && m1.coord(g) && b1.coord(g) && p1.coord(g),
    ensures
        (start + lo + m0 + b0 + p0).on(g, 0x28_0000),
        (start + lo + m0 + b0 + p0).ticks(g) == start.ticks(g) + lo.ticks(g) + m0.ticks(g)
            + b0.ticks(g) + p0.ticks(g),
        (far - hi - m1 - b1 - p1 - size).on(g, 0x38_0000),
        (far - hi - m1 - b1 - p1 - size).ticks(g) == start.ticks(g) + extent.ticks(g) - hi.ticks(
            g,
        ) - m1.ticks(g) - b1.ticks(g) - p1.ticks(g) - size.ticks(g),
        (extent - lo - hi - m0 - m1 - b0 - b1 - p0 - p1).on(g, 0x48_0000),
        (extent - lo - hi - m0 - m1 - b0 - b1 - p0 - p1).ticks(g) == extent.ticks(g) - lo.ticks(g)
            - hi.ticks(g) - m0.ticks(g) - m1.ticks(g) - b0.ticks(g) - b1.ticks(g) - p0.ticks(g)
            - p1.ticks(g),
{
    let u: int = 0x8_0000;
    grid::lemma_sum(start, lo, g, u, u);
    grid::lemma_sum(start + lo, m0, g, 2 * u, u);
    grid::lemma_sum(start + lo + m0, b0, g, 3 * u, u);
    grid::lemma_sum(start + lo + m0 + b0, p0, g, 4 * u, u);
    grid::lemma_sum(start, extent, g, u, u);
    grid::lemma_difference(far, hi, g, 2 * u, u);
    grid::lemma_difference(far - hi, m1, g, 3 * u, u);
    grid::lemma_difference(far - hi - m1, b1, g, 4 * u, u);
    grid::lemma_difference(far - hi - m1 - b1, p1, g, 5 * u, u);
    grid::lemma_difference(far - hi - m1 - b1 - p1, size, g, 6 * u, u);
    let a = extent - lo;
    grid::lemma_difference(extent, lo, g, u, u);
    grid::lemma_difference(a, hi, g, 2 * u, u);
    grid::lemma_difference(a - hi, m0, g, 3 * u, u);
    grid::lemma_difference(a - hi - m0, m1, g, 4 * u, u);
    grid::lemma_difference(a - hi - m0 - m1, b0, g, 5 * u, u);
    grid::lemma_difference(a - hi - m0 - m1 - b0, b1, g, 6 * u, u);
    grid::lemma_difference(a - hi - m0 - m1 - b0 - b1, p0, g, 7 * u, u);
    grid::lemma_difference(a - hi - m0 - m1 - b0 - b1 - p0, p1, g, 8 * u, u);
}

proof fn lemma_offset_axes(b: BoxV, cb: Dimensions, g: nat)
    requires
        b.own.position == Position::Absolute,
        b.dim.coords(g),
        cb.content.coords(g),
        offsets_on(b.own.offsets, g),
        b.own.offsets == b.own.resolved_in(cb),
    ensures
        ({
            let f = b.own.offsets;
            let d = b.dim;
            let e = with_offsets(b.own, d, cb);
            let (cl, ct, cr, cb_) = cb.content.edges(g);
            let before_x = d.margin.left.ticks(g) + d.border.left.ticks(g) + d.padding.left.ticks(g);
            let after_x = d.margin.right.ticks(g) + d.border.right.ticks(g) + d.padding.right.ticks(
                g,
            );
            let before_y = d.margin.top.ticks(g) + d.border.top.ticks(g) + d.padding.top.ticks(g);
            let after_y = d.margin.bottom.ticks(g) + d.border.bottom.ticks(g)
                + d.padding.bottom.ticks(g);
            let stretch_x = f.left is Some && f.right is Some && b.own.style.width is Auto;
            let stretch_y = f.top is Some && f.bottom is Some && b.own.style.height is Auto;
            let room_x = cr - cl - offset_ticks(f.left, g) - offset_ticks(f.right, g) - before_x
                - after_x;
            let room_y = cb_ - ct - offset_ticks(f.top, g) - offset_ticks(f.bottom, g) - before_y
                - after_y;
            &&& e == (Dimensions { content: e.content, ..d })
            &&& e.content.x.on(g, 0x48_0000) && e.content.y.on(g, 0x48_0000)
            &&& e.content.width.on(g, 0x48_0000) && e.content.height.on(g, 0x48_0000)
            &&& f.left is Some ==> e.content.x.ticks(g) == cl + offset_ticks(f.left, g) + before_x
            &&& f.left is None && f.right is Some ==> e.content.x.ticks(g) == cr - offset_ticks(
                f.right,
                g,
            ) - after_x - d.content.width.ticks(g)
            &&& f.left is None && f.right is None ==> e.content.x == d.content.x
            &&& f.top is Some ==> e.content.y.ticks(g) == ct + offset_ticks(f.top, g) + before_y
            &&& f.top is None && f.bottom is Some ==> e.content.y.ticks(g) == cb_ - offset_ticks(
                f.bottom,
                g,
            ) - after_y - d.content.height.ticks(g)
            &&& f.top is None && f.bottom is None ==> e.content.y == d.content.y
            &&& !stretch_x ==> e.content.width == d.content.width
            &&& !stretch_y ==> e.content.height == d.content.height
            &&& stretch_x ==> e.content.width.ticks(g) == if room_x > 0 {
                room_x
            } else {
                0
            }
            &&& stretch_y ==> e.content.height.ticks(g) == if room_y > 0 {
                room_y
            } else {
                0
            }
        }),
{
    reveal(with_offsets);
    let u: int = 0x8_0000;
    let f = b.own.offsets;
    let d = b.dim;
    let zero = Num::nought();
    let left = f.left.unwrap_or(zero);
    let right = f.right.unwrap_or(zero);
    let top = f.top.unwrap_or(zero);
    let bottom = f.bottom.unwrap_or(zero);
    grid::lemma_finite(d.content.x, g, u);
    grid::lemma_zero(g);
    grid::lemma_wider(zero, g, 0, u);
    grid::lemma_wider(zero, g, 0, 9 * u);
    lemma_rect_edges(cb.content, g);
    lemma_axis(
        cb.content.x,
        cb.content.width,
        cb.content.right(),
        left,
        right,
        d.margin.left,
        d.border.left,
        d.padding.left,
        d.margin.right,
        d.border.right,
        d.padding.right,
        d.content.width,
        g,
    );
    lemma_axis(
        cb.content.y,
        cb.content.height,
        cb.content.bottom(),
        top,
        bottom,
        d.margin.top,
        d.border.top,
        d.padding.top,
        d.margin.bottom,
        d.border.bottom,
        d.padding.bottom,
        d.content.height,
        g,
    );
    let free_x = cb.content.width - left - right - d.margin.left - d.margin.right - d.border.left
        - d.border.right - d.padding.left - d.padding.right;
    let free_y = cb.content.height - top - bottom - d.margin.top - d.margin.bottom - d.border.top
        - d.border.bottom - d.padding.top - d.padding.bottom;
    grid::lemma_extremes(free_x, zero, g, 9 * u);
    grid::lemma_extremes(free_y, zero, g, 9 * u);
    grid::lemma_wider(d.content.x, g, u, 9 * u);
    grid::lemma_wider(d.content.y, g, u, 9 * u);
    grid::lemma_wider(d.content.width, g, u, 9 * u);
    grid::lemma_wider(d.content.height, g, u, 9 * u);
    let x0 = cb.content.x + left + d.margin.left + d.border.left + d.padding.left;
    let x1 = cb.content.right() - right - d.margin.right - d.border.right - d.padding.right
        - d.content.width;
    let y0 = cb.content.y + top + d.margin.top + d.border.top + d.padding.top;
    let y1 = cb.content.bottom() - bottom - d.margin.bottom - d.border.bottom - d.padding.bottom
        - d.content.height;
    grid::lemma_wider(x0, g, 5 * u, 9 * u);
    grid::lemma_wider(x1, g, 7 * u, 9 * u);
    grid::lemma_wider(y0, g, 5 * u, 9 * u);
    grid::lemma_wider(y1, g, 7 * u, 9 * u);
}

/// The margin box of dimensions further out on a grid.
pub proof fn lemma_placed_boxes(d: Dimensions, g: nat)
    requires
        d.content.x.on(g, 0x48_0000),
        d.content.y.on(g, 0x48_0000),
        d.content.width.on(g, 0x48_0000),
        d.content.height.on(g, 0x48_0000),
        d.padding.coords(g) && d.border.coords(g) && d.margin.coords(g),
    ensures
        ({
            let m = d.margin_box();
            let c = d.content;
            &&& m.x.ticks(g) == c.x.ticks(g) - d.padding.left.ticks(g) - d.border.left.ticks(g)
                - d.margin.left.ticks(g)
            &&& m.y.ticks(g) == c.y.ticks(g) - d.padding.top.ticks(g) - d.border.top.ticks(g)
                - d.margin.top.ticks(g)
            &&& m.right().ticks(g) == c.x.ticks(g) + c.width.ticks(g) + d.padding.right.ticks(g)
                + d.border.right.ticks(g) + d.margin.right.ticks(g)
            &&& m.bottom().ticks(g) == c.y.ticks(g) + c.height.ticks(g) + d.padding.bottom.ticks(g)
                + d.border.bottom.ticks(g) + d.margin.bottom.ticks(g)
            &&& m.width.ticks(g) == m.right().ticks(g) - m.x.ticks(g)
            &&& m.height.ticks(g) == m.bottom().ticks(g) - m.y.ticks(g)
            &&& m.right().on(g, 0xd8_0000) && m.bottom().on(g, 0xd8_0000)
            &&& m.width.on(g, 0x78_0000) && m.height.on(g, 0x78_0000)
        }),
{
    let u: int = 0x8_0000;
    let p = d.padding_box();
    let b = d.border_box();
    grid::lemma_widened(
        d.content.x,
        d.content.width,
        d.padding.left,
        d.padding.right,
        g,
        9 * u,
        9 * u,
        u,
    );
    grid::lemma_widened(
        d.content.y,
        d.content.height,
        d.padding.top,
        d.padding.bottom,
        g,
        9 * u,
        9 * u,
        u,
    );
    grid::lemma_widened(p.x, p.width, d.border.left, d.border.right, g, 10 * u, 11 * u, u);
    grid::lemma_widened(p.y, p.height, d.border.top, d.border.bottom, g, 10 * u, 11 * u, u);
    grid::lemma_widened(b.x, b.width, d.margin.left, d.margin.right, g, 11 * u, 13 * u, u);
    grid::lemma_widened(b.y, b.height, d.margin.top, d.margin.bottom, g, 11 * u, 13 * u, u);
}

/// A fixed box is placed as an absolute one in the viewport, where that is
/// known, whatever its containing block.
pub proof fn lemma_fixed_box_is_placed_in_viewport(b: BoxV, c: BoxV, cb: Dimensions, other: Dimensions)
    requires
        b.own.position == Position::Fixed,
        b.viewport.0 > Num::nought(),
        b.viewport.1 > Num::nought(),
        c == (BoxV { own: c.own, ..b }),
        c.own.position == Position::Absolute,
        c.own.offsets == b.own.offsets,
        c.own.style == b.own.style,
        other.content == (Rect {
            x: Num::nought(),
            y: Num::nought(),
            width: b.viewport.0,
            height: b.viewport.1,
        }),
    ensures
        offset(b, cb).dim == offset(c, other).dim,
        offset(b, cb).children == offset(c, other).children,
{
    reveal(offset);
    reveal(with_offsets);
    reveal(carried);
}

/// A percentage offset of all of the containing block is as long as its side:
/// insets from left and right are measured along its width, those from top and
/// bottom along its height.
pub proof fn lemma_percent_offsets_measure_their_side(b: BoxV, cb: Dimensions)
    requires
        b.own.offsets == PositionOffsets::unset(),
        !cb.content.width.nan() && !cb.content.height.nan(),
    ensures
        ({
            let f = b.own.resolved_in(cb);
            let s = b.own.style;
            let all = Some(Length::Percent(Num::whole(100)));
            &&& s.left == all ==> f.left == Some(cb.content.width)
            &&& s.right == all ==> f.right == Some(cb.content.width)
            &&& s.top == all ==> f.top == Some(cb.content.height)
            &&& s.bottom == all ==> f.bottom == Some(cb.content.height)
        }),
{
    grid::lemma_all_of(cb.content.width);
    grid::lemma_all_of(cb.content.height);
}

/// A sticky box stays where the flow put it, and remembers its border box
/// there and the distances it keeps.
pub proof fn lemma_sticky_box_stays_in_flow(b: BoxV, cb: Dimensions)
    requires
        b.own.position == Position::Sticky,
        b.dim.content.x.finite() && b.dim.content.y.finite(),
    ensures
        offset(b, cb).dim == b.dim,
        offset(b, cb).children == b.children,
        offset(b, cb).sticky matches Some(s) && s.original_rect == b.dim.border_box() && s.offsets
            == b.own.offsets && !s.is_stuck && s.stuck_rect is None,
{
    reveal(offset);
    reveal(carried);
    crate::num::lemma_minus_itself(b.dim.content.x);
    crate::num::lemma_minus_itself(b.dim.content.y);
}

/// An absolutely positioned child keeps its distances from the padding box of
/// its parent once it is anchored: anchoring is positioning there.
pub proof fn lemma_anchoring_is_positioning_in_padding_box(b: BoxV, i: int, n: nat, g: nat)
    requires
        n > 0,
        0 <= i < b.children.len(),
        b.children[i].own.position == Position::Absolute,
        !(b.children[i].own.style.height is Percent || b.children[i].own.style.height is Calc),
    ensures
        ({
            let pad = Dimensions::around(b.dim.padding_box());
            anchored(b, n).children[i].dim == offset(b.children[i], pad).dim
        }),
{
    let k = b.children[i];
    let pad = Dimensions::around(b.dim.padding_box());
    let e = with_offsets(k.own, k.dim, pad);
    let c = carried(k.with_dim(e), k.dim.content.x, k.dim.content.y);
    assert(anchored(b, n).children[i] == reanchored(k, pad, n)) by {
        reveal(anchored);
        reveal(reanchored);
    }
    assert(anchored(c, (n - 1) as nat).dim == c.dim) by {
        reveal(anchored);
    }
    assert(reanchored(k, pad, n).dim == c.dim) by {
        reveal(reanchored);
        reveal(anchored);
    }
    reveal(offset);
    reveal(carried);
}

} // verus!

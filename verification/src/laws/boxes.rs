//! The boxes of a box: content, padding, border and margin boxes lie around
//! each other, an edge apart.
use vstd::prelude::*;
use crate::geometry::{Dimensions, EdgeSizes, Rect};
use crate::grid;
use crate::num::Num;

verus! {

impl Rect {
    /// Whether origin and size are coordinates on a grid.
    pub open spec fn coords(self, g: nat) -> bool {
        self.x.coord(g) && self.y.coord(g) && self.width.coord(g) && self.height.coord(g)
    }

    /// The left, top, right and bottom edges, in steps of a grid.
    pub open spec fn edges(self, g: nat) -> (int, int, int, int) {
        (self.x.ticks(g), self.y.ticks(g), self.right().ticks(g), self.bottom().ticks(g))
    }
}

impl EdgeSizes {
    /// Whether the four edges are coordinates on a grid.
    pub open spec fn coords(self, g: nat) -> bool {
        self.top.coord(g) && self.right.coord(g) && self.bottom.coord(g) && self.left.coord(g)
    }
}

impl Dimensions {
    /// Whether content and edges are coordinates on a grid.
    pub open spec fn coords(self, g: nat) -> bool {
        self.content.coords(g) && self.padding.coords(g) && self.border.coords(g)
            && self.margin.coords(g)
    }
}

/// Whether one rectangle lies around another, each of its edges as far out as
/// the edge sizes say.
pub open spec fn lies_around(outer: Rect, inner: Rect, e: EdgeSizes, g: nat) -> bool {
    let (l, t, r, b) = inner.edges(g);
    &&& outer.edges(g) == (
        l - e.left.ticks(g),
        t - e.top.ticks(g),
        r + e.right.ticks(g),
        b + e.bottom.ticks(g),
    )
    &&& outer.width.ticks(g) == outer.right().ticks(g) - outer.x.ticks(g)
    &&& outer.height.ticks(g) == outer.bottom().ticks(g) - outer.y.ticks(g)
}

/// Whether a rectangle and its far edges are on a grid, at most `n` steps out.
pub open spec fn rect_on(r: Rect, g: nat, n: int) -> bool {
    &&& r.x.on(g, n) && r.y.on(g, n) && r.width.on(g, n) && r.height.on(g, n)
    &&& r.right().on(g, n) && r.bottom().on(g, n)
    &&& r.right().ticks(g) == r.x.ticks(g) + r.width.ticks(g)
    &&& r.bottom().ticks(g) == r.y.ticks(g) + r.height.ticks(g)
}

proof fn lemma_rect(r: Rect, g: nat, n: int)
    requires
        r.x.on(g, n),
        r.y.on(g, n),
        r.width.on(g, n),
        r.height.on(g, n),
        0 <= n,
        2 * n < 0x100_0000,
    ensures
        rect_on(r, g, 2 * n),
{
    grid::lemma_sum(r.x, r.width, g, n, n);
    grid::lemma_sum(r.y, r.height, g, n, n);
    grid::lemma_wider(r.x, g, n, 2 * n);
    grid::lemma_wider(r.y, g, n, 2 * n);
    grid::lemma_wider(r.width, g, n, 2 * n);
    grid::lemma_wider(r.height, g, n, 2 * n);
}

/// A rectangle of coordinates has its far edges on the grid too.
pub proof fn lemma_rect_edges(r: Rect, g: nat)
    requires
        r.coords(g),
    ensures
        rect_on(r, g, 0x10_0000),
{
    lemma_rect(r, g, 0x8_0000);
}

/// The padding box lies around the content box by the padding, the border box
/// around the padding box by the border, and the margin box around the border
/// box by the margin.
pub proof fn lemma_boxes_lie_around(d: Dimensions, g: nat)
    requires
        d.coords(g),
    ensures
        lies_around(d.padding_box(), d.content, d.padding, g),
        lies_around(d.border_box(), d.padding_box(), d.border, g),
        lies_around(d.margin_box(), d.border_box(), d.margin, g),
        rect_on(d.content, g, 0x10_0000),
        rect_on(d.padding_box(), g, 0x28_0000),
        rect_on(d.border_box(), g, 0x40_0000),
        rect_on(d.margin_box(), g, 0x58_0000),
{
    let u: int = 0x8_0000;
    let p = d.padding_box();
    let b = d.border_box();
    let m = d.margin_box();
    lemma_rect_edges(d.content, g);
    grid::lemma_widened(d.content.x, d.content.width, d.padding.left, d.padding.right, g, u, u, u);
    grid::lemma_widened(d.content.y, d.content.height, d.padding.top, d.padding.bottom, g, u, u, u);
    lemma_wider_rect(p, g, 2 * u, 3 * u, 5 * u);
    grid::lemma_widened(p.x, p.width, d.border.left, d.border.right, g, 2 * u, 3 * u, u);
    grid::lemma_widened(p.y, p.height, d.border.top, d.border.bottom, g, 2 * u, 3 * u, u);
    lemma_wider_rect(b, g, 3 * u, 5 * u, 8 * u);
    grid::lemma_widened(b.x, b.width, d.margin.left, d.margin.right, g, 3 * u, 5 * u, u);
    grid::lemma_widened(b.y, b.height, d.margin.top, d.margin.bottom, g, 3 * u, 5 * u, u);
    lemma_wider_rect(m, g, 4 * u, 7 * u, 11 * u);
}

proof fn lemma_wider_rect(r: Rect, g: nat, n: int, m: int, k: int)
    requires
        r.x.on(g, n),
        r.y.on(g, n),
        r.width.on(g, m),
        r.height.on(g, m),
        0 <= n && 0 <= m,
        n + m <= k < 0x100_0000,
    ensures
        rect_on(r, g, k),
{
    grid::lemma_sum(r.x, r.width, g, n, m);
    grid::lemma_sum(r.y, r.height, g, n, m);
    grid::lemma_wider(r.x, g, n, k);
    grid::lemma_wider(r.y, g, n, k);
    grid::lemma_wider(r.width, g, m, k);
    grid::lemma_wider(r.height, g, m, k);
    grid::lemma_wider(r.right(), g, n + m, k);
    grid::lemma_wider(r.bottom(), g, n + m, k);
}

/// A rectangle split in two side by side holds each of its points in exactly
/// one part, and neither part holds any other.
pub proof fn lemma_split_rectangle_holds_once(r: Rect, left: Rect, rest: Rect, x: Num, y: Num)
    requires
        left.x == r.x,
        left.right() == rest.x,
        rest.right() == r.right(),
        r.x <= rest.x && rest.x <= r.right(),
        left.y == r.y && rest.y == r.y,
        left.height == r.height && rest.height == r.height,
    ensures
        r.contains(x, y) <==> left.contains(x, y) != rest.contains(x, y),
        !(left.contains(x, y) && rest.contains(x, y)),
{
}

/// The same for a rectangle split in two one above the other.
pub proof fn lemma_stacked_rectangle_holds_once(r: Rect, top: Rect, rest: Rect, x: Num, y: Num)
    requires
        top.y == r.y,
        top.bottom() == rest.y,
        rest.bottom() == r.bottom(),
        r.y <= rest.y && rest.y <= r.bottom(),
        top.x == r.x && rest.x == r.x,
        top.width == r.width && rest.width == r.width,
    ensures
        r.contains(x, y) <==> top.contains(x, y) != rest.contains(x, y),
        !(top.contains(x, y) && rest.contains(x, y)),
{
}

/// A rectangle of some size holds its own origin, and not its far corner.
pub proof fn lemma_origin_is_inside(r: Rect)
    requires
        r.x < r.right(),
        r.y < r.bottom(),
    ensures
        r.contains(r.x, r.y),
        !r.contains(r.right(), r.y),
        !r.contains(r.x, r.bottom()),
{
}

} // verus!

//! Which box is hit, and which paints over which.
use vstd::prelude::*;
use crate::borders::borders;
use crate::boxes::{BoxV, Position};
use crate::decorate::{background, box_shadows};
use crate::display::{CommandV, DisplayCommand};
use crate::display_list::{
    self, closed, content_commands, opened, painted, stack_order, stacked, stacked_children,
    transform_command, PaintS, RootStyle,
};
use crate::floats::Float;
use crate::geometry::Dimensions;
use crate::grid;
use crate::hit_test::{
    all_hits, hit, hits_in, joined, overflowing, paint_keys, paint_order, reach_bottom, reach_right,
    scrolls_axis, topmost, HitV,
};
use crate::laws::boxes::lemma_boxes_lie_around;
use crate::nesting;
use crate::num::Num;
use crate::order;
use crate::style::{Length, Overflow, TextOverflow, Transform};
use crate::text::Shaper;

verus! {

/// Whether every box of a tree has its edges on a grid.
pub open spec fn tree_boxes(b: BoxV, g: nat) -> bool
    decreases b,
{
    &&& b.dim.coords(g)
    &&& forall|i: int| 0 <= i < b.children.len() ==> tree_boxes(#[trigger] b.children[i], g)
}

/// Whether a hit tells where in the border box the point is: as far right and
/// down from its corner as the local coordinates say, and inside it.
pub open spec fn locates(h: HitV, x: Num, y: Num, g: nat) -> bool {
    let (left, top, right, bottom) = h.border_box.edges(g);
    &&& left + h.local_x.ticks(g) == x.ticks(g)
    &&& top + h.local_y.ticks(g) == y.ticks(g)
    &&& 0 <= h.local_x.ticks(g) < right - left
    &&& 0 <= h.local_y.ticks(g) < bottom - top
    &&& nests(h, g)
}

/// Whether the boxes that a hit tells are those of one box: content, padding
/// and border box around each other.
pub open spec fn nests(h: HitV, g: nat) -> bool {
    exists|d: Dimensions| #[trigger]
        d.coords(g) && h.content_box == d.content && h.padding_box == d.padding_box()
            && h.border_box == d.border_box()
}

proof fn lemma_located(b: BoxV, x: Num, y: Num, depth: u32, g: nat)
    requires
        b.dim.coords(g),
        x.coord(g) && y.coord(g),
        b.dim.border_box().contains(x, y),
    ensures
        locates(HitV::on(b, x, y, depth, overflowing(b)), x, y, g),
{
    let u: int = 0x8_0000;
    let bb = b.dim.border_box();
    lemma_boxes_lie_around(b.dim, g);
    grid::lemma_order(x, bb.x, g, u, 8 * u);
    grid::lemma_order(y, bb.y, g, u, 8 * u);
    grid::lemma_order(x, bb.right(), g, u, 8 * u);
    grid::lemma_order(y, bb.bottom(), g, u, 8 * u);
    grid::lemma_difference(x, bb.x, g, u, 8 * u);
    grid::lemma_difference(y, bb.y, g, u, 8 * u);
    assert(nests(HitV::on(b, x, y, depth, overflowing(b)), g)) by {
        assert(b.dim.coords(g));
    }
}

/// The local coordinates of a hit lead from the corner of the box that is hit
/// to the point.
pub proof fn lemma_hit_locates_point(b: BoxV, x: Num, y: Num, depth: u32, g: nat)
    requires
        tree_boxes(b, g),
        x.coord(g) && y.coord(g),
    ensures
        hit(b, x, y, depth) matches Some(h) ==> locates(h, x, y, g),
    decreases b, 0int,
{
    if b.dim.border_box().contains(x, y) {
        lemma_located(b, x, y, depth, g);
        lemma_topmost_locates(
            b.children,
            paint_order(b.children),
            b.children.len() as int,
            x,
            y,
            depth.wrapping_add(1),
            g,
        );
    }
}

proof fn lemma_topmost_locates(
    s: Seq<BoxV>,
    o: Seq<int>,
    k: int,
    x: Num,
    y: Num,
    depth: u32,
    g: nat,
)
    requires
        forall|i: int| 0 <= i < s.len() ==> tree_boxes(#[trigger] s[i], g),
        x.coord(g) && y.coord(g),
    ensures
        topmost(s, o, k, x, y, depth) matches Some(h) ==> locates(h, x, y, g),
    decreases s, k,
{
    if !(k <= 0 || k > o.len() || !(0 <= o[k - 1] < s.len())) {
        lemma_hit_locates_point(s[o[k - 1]], x, y, depth, g);
        lemma_topmost_locates(s, o, k - 1, x, y, depth, g);
    }
}

/// Each of all the hits at a point leads to the point.
pub proof fn lemma_all_hits_locate_point(b: BoxV, x: Num, y: Num, depth: u32, g: nat, j: int)
    requires
        tree_boxes(b, g),
        x.coord(g) && y.coord(g),
        0 <= j < all_hits(b, x, y, depth).len(),
    ensures
        locates(all_hits(b, x, y, depth)[j], x, y, g),
    decreases b, 0int,
{
    lemma_located(b, x, y, depth, g);
    if j > 0 {
        let inner = hits_in(
            b.children,
            b.children.len() as int,
            x,
            y,
            depth.wrapping_add(1),
        );
        lemma_hits_in_locate(
            b.children,
            b.children.len() as int,
            x,
            y,
            depth.wrapping_add(1),
            g,
            j - 1,
        );
        assert(all_hits(b, x, y, depth)[j] == joined(inner, b)[j - 1]);
    }
}

proof fn lemma_hits_in_locate(
    s: Seq<BoxV>,
    k: int,
    x: Num,
    y: Num,
    depth: u32,
    g: nat,
    j: int,
)
    requires
        forall|i: int| 0 <= i < s.len() ==> tree_boxes(#[trigger] s[i], g),
        x.coord(g) && y.coord(g),
        0 <= j < hits_in(s, k, x, y, depth).len(),
    ensures
        locates(hits_in(s, k, x, y, depth)[j], x, y, g),
    decreases s, k,
{
    let before = hits_in(s, k - 1, x, y, depth).len();
    if j < before {
        lemma_hits_in_locate(s, k - 1, x, y, depth, g, j);
    } else {
        lemma_all_hits_locate_point(s[k - 1], x, y, depth, g, j - before);
    }
}

/// What scrolls overflows where the margin box of a child ends beyond the
/// right or the bottom edge of its padding box, and only there.
pub proof fn lemma_overflow_is_beyond_padding_box(b: BoxV, g: nat)
    requires
        b.dim.coords(g),
        b.dim.padding_box().width.ticks(g) >= 0 && b.dim.padding_box().height.ticks(g) >= 0,
        scrolls_axis(b.own.style.overflow_x) || scrolls_axis(b.own.style.overflow_y),
        forall|i: int| 0 <= i < b.children.len() ==> (#[trigger] b.children[i]).dim.coords(g),
    ensures
        overflowing(b) <==> exists|i: int|
            0 <= i < b.children.len() && ends_beyond(#[trigger] b.children[i], b, g),
{
    let n = b.children.len() as int;
    let pb = b.dim.padding_box();
    let w: int = 0x80_0000;
    lemma_boxes_lie_around(b.dim, g);
    let k = lemma_reach_right(b, n, g);
    let m = lemma_reach_bottom(b, n, g);
    let right = reach_right(b.children, n, pb.x);
    let low = reach_bottom(b.children, n, pb.y);
    grid::lemma_order(right, pb.width, g, w, 0x28_0000);
    grid::lemma_order(low, pb.height, g, w, 0x28_0000);
    if right.ticks(g) > pb.width.ticks(g) {
        assert(ends_beyond(b.children[k], b, g));
    }
    if low.ticks(g) > pb.height.ticks(g) {
        assert(ends_beyond(b.children[m], b, g));
    }
}

/// Whether the margin box of a child ends beyond the right or the bottom edge
/// of the padding box of its parent.
pub open spec fn ends_beyond(c: BoxV, b: BoxV, g: nat) -> bool {
    c.dim.margin_box().edges(g).2 > b.dim.padding_box().edges(g).2 || c.dim.margin_box().edges(g).3
        > b.dim.padding_box().edges(g).3
}

proof fn lemma_reach_right(b: BoxV, k: int, g: nat) -> (m: int)
    requires
        b.dim.coords(g),
        0 <= k <= b.children.len(),
        forall|i: int| 0 <= i < b.children.len() ==> (#[trigger] b.children[i]).dim.coords(g),
    ensures
        reach_right(b.children, k, b.dim.padding_box().x).on(g, 0x80_0000),
        forall|i: int|
            0 <= i < k ==> (#[trigger] b.children[i]).dim.margin_box().edges(g).2
                - b.dim.padding_box().x.ticks(g) <= reach_right(
                b.children,
                k,
                b.dim.padding_box().x,
            ).ticks(g),
        reach_right(b.children, k, b.dim.padding_box().x).ticks(g) > 0 ==> 0 <= m < k
            && b.children[m].dim.margin_box().edges(g).2 - b.dim.padding_box().x.ticks(g)
            == reach_right(b.children, k, b.dim.padding_box().x).ticks(g),
        reach_right(b.children, k, b.dim.padding_box().x).ticks(g) >= 0,
    decreases k,
{
    let w: int = 0x80_0000;
    let x = b.dim.padding_box().x;
    lemma_boxes_lie_around(b.dim, g);
    grid::lemma_finite(x, g, 0x28_0000);
    grid::lemma_zero(g);
    grid::lemma_wider(Num::nought(), g, 0, w);
    if k > 0 {
        let m = lemma_reach_right(b, k - 1, g);
        let c = b.children[k - 1];
        lemma_boxes_lie_around(c.dim, g);
        let right = c.dim.margin_box().right();
        grid::lemma_difference(right, x, g, 0x58_0000, 0x28_0000);
        let before = reach_right(b.children, k - 1, x);
        grid::lemma_extremes(before, right - x, g, w);
        if before.ticks(g) < (right - x).ticks(g) {
            k - 1
        } else {
            m
        }
    } else {
        0
    }
}

proof fn lemma_reach_bottom(b: BoxV, k: int, g: nat) -> (m: int)
    requires
        b.dim.coords(g),
        0 <= k <= b.children.len(),
        forall|i: int| 0 <= i < b.children.len() ==> (#[trigger] b.children[i]).dim.coords(g),
    ensures
        reach_bottom(b.children, k, b.dim.padding_box().y).on(g, 0x80_0000),
        forall|i: int|
            0 <= i < k ==> (#[trigger] b.children[i]).dim.margin_box().edges(g).3
                - b.dim.padding_box().y.ticks(g) <= reach_bottom(
                b.children,
                k,
                b.dim.padding_box().y,
            ).ticks(g),
        reach_bottom(b.children, k, b.dim.padding_box().y).ticks(g) > 0 ==> 0 <= m < k
            && b.children[m].dim.margin_box().edges(g).3 - b.dim.padding_box().y.ticks(g)
            == reach_bottom(b.children, k, b.dim.padding_box().y).ticks(g),
        reach_bottom(b.children, k, b.dim.padding_box().y).ticks(g) >= 0,
    decreases k,
{
    let w: int = 0x80_0000;
    let y = b.dim.padding_box().y;
    lemma_boxes_lie_around(b.dim, g);
    grid::lemma_finite(y, g, 0x28_0000);
    grid::lemma_zero(g);
    grid::lemma_wider(Num::nought(), g, 0, w);
    if k > 0 {
        let m = lemma_reach_bottom(b, k - 1, g);
        let c = b.children[k - 1];
        lemma_boxes_lie_around(c.dim, g);
        let low = c.dim.margin_box().bottom();
        grid::lemma_difference(low, y, g, 0x58_0000, 0x28_0000);
        let before = reach_bottom(b.children, k - 1, y);
        grid::lemma_extremes(before, low - y, g, w);
        if before.ticks(g) < (low - y).ticks(g) {
            k - 1
        } else {
            m
        }
    } else {
        0
    }
}

/// Whether a box is positioned.
pub open spec fn has_position(b: BoxV) -> bool {
    match b.own.position {
        Position::Static => false,
        Position::Relative => true,
        Position::Absolute => true,
        Position::Fixed => true,
        Position::Sticky => true,
    }
}

/// Whether one sibling is to paint before another, wherever the two stand:
/// positioned boxes of a negative z-index, then boxes in normal flow, then
/// floats and positioned boxes that are not negative, each by z-index.
pub open spec fn below(a: BoxV, b: BoxV) -> bool {
    let (za, zb) = (a.own.z_index, b.own.z_index);
    let under = |c: BoxV| has_position(c) && c.own.z_index < 0;
    let plain = |c: BoxV| !has_position(c) && c.own.float == Float::Unset;
    let over = |c: BoxV| has_position(c) && c.own.z_index >= 0;
    ||| under(a) && under(b) && za < zb
    ||| under(a) && plain(b)
    ||| under(a) && over(b)
    ||| plain(a) && over(b)
    ||| over(a) && over(b) && za < zb
    ||| plain(a) && !has_position(b) && b.own.float != Float::Unset && zb == 0
}

/// Whether two siblings paint on one level, so that the later one is on top.
pub open spec fn level(a: BoxV, b: BoxV) -> bool {
    ||| has_position(a) && has_position(b) && a.own.z_index == b.own.z_index
    ||| !has_position(a) && !has_position(b) && a.own.float == Float::Unset && b.own.float
        == Float::Unset
}

/// Siblings paint from the bottom up, and on one level in the order they stand
/// in.
pub proof fn lemma_siblings_paint_from_bottom_up(s: Seq<BoxV>, i: int, j: int) -> (r: (int, int))
    requires
        0 <= i < s.len(),
        0 <= j < s.len(),
        below(s[i], s[j]) || (level(s[i], s[j]) && i < j),
    ensures
        0 <= r.0 < r.1 < s.len(),
        stack_order(s)[r.0] == i,
        stack_order(s)[r.1] == j,
{
    nesting::lemma_siblings_paint_by_key(s, i, j);
    let (p, q) = choose|p: int, q: int|
        0 <= p < q < s.len() && #[trigger] stack_order(s)[p] == i
            && #[trigger] stack_order(s)[q] == j;
    (p, q)
}

/// Whether one sibling is to be hit before another where both are: as they
/// paint, floats among the boxes in flow.
pub open spec fn hit_after(a: BoxV, b: BoxV) -> bool {
    let (za, zb) = (a.own.z_index, b.own.z_index);
    ||| has_position(a) && has_position(b) && za < zb
    ||| has_position(a) && za < 0 && !has_position(b)
    ||| !has_position(a) && has_position(b) && zb >= 0
}

/// Of two siblings at a point, the later in paint order takes the hit: a
/// positioned one over one in flow, of two positioned ones the one of the
/// higher z-index, and on one level the one that stands later.
pub proof fn lemma_siblings_are_hit_from_top_down(s: Seq<BoxV>, i: int, j: int) -> (r: (int, int))
    requires
        0 <= i < s.len(),
        0 <= j < s.len(),
        hit_after(s[i], s[j]) || (has_position(s[i]) == has_position(s[j]) && (has_position(s[i])
            ==> s[i].own.z_index == s[j].own.z_index) && i < j),
    ensures
        0 <= r.0 < r.1 < s.len(),
        paint_order(s)[r.0] == i,
        paint_order(s)[r.1] == j,
{
    let keys = paint_keys(s);
    order::lemma_stable_order(keys);
    let o = paint_order(s);
    assert(o.contains(i) && o.contains(j));
    let p = choose|p: int| 0 <= p < o.len() && o[p] == i;
    let q = choose|q: int| 0 <= q < o.len() && o[q] == j;
    if q < p {
        assert(keys[o[q]] < keys[o[p]] || (keys[o[q]] == keys[o[p]] && o[q] < o[p]));
    }
    (p, q)
}

/// A box that is no text paints its outer shadows first, then its background,
/// then its inset shadows, then its borders.
pub proof fn lemma_background_is_between_shadows_and_borders(
    sh: Shaper,
    b: BoxV,
    root: Num,
    scope: Option<crate::ellipsis::ScopeV>,
    i: int,
    j: int,
    k: int,
    l: int,
) -> (r: (int, int, int, int))
    requires
        !b.is_text(),
        0 <= i < box_shadows(b, false).len(),
        0 <= j < background(b, root).len(),
        0 <= k < box_shadows(b, true).len(),
        0 <= l < borders(b, root).len(),
    ensures
        ({
            let c = content_commands(sh, b, root, scope).0;
            &&& 0 <= r.0 < r.1 < r.2 < r.3 < c.len()
            &&& c[r.0] == box_shadows(b, false)[i]
            &&& c[r.1] == background(b, root)[j]
            &&& c[r.2] == box_shadows(b, true)[k]
            &&& c[r.3] == borders(b, root)[l]
        }),
{
    let (s, t, u) = (
        box_shadows(b, false).len() as int,
        background(b, root).len() as int,
        box_shadows(b, true).len() as int,
    );
    reveal(content_commands);
    let front = box_shadows(b, false) + background(b, root);
    let most = front + box_shadows(b, true);
    assert(front[i] == box_shadows(b, false)[i] && front[s + j] == background(b, root)[j]);
    assert(most[i] == front[i] && most[s + j] == front[s + j]);
    assert(most[s + t + k] == box_shadows(b, true)[k]);
    (i, s + j, s + t + k, s + t + u + l)
}

/// Painting only adds commands: what is painted stays, and what comes later is
/// over it. So a box paints before its children, and a child before those that
/// follow it in the order.
pub proof fn lemma_box_paints_before_its_children(
    sh: Shaper,
    root: RootStyle,
    b: BoxV,
    at_root: bool,
    parent_z: i32,
    st: PaintS,
)
    ensures
        st.out.is_prefix_of(opened(sh, root, b, at_root, parent_z, st).out),
        opened(sh, root, b, at_root, parent_z, st).out.is_prefix_of(
            stacked(sh, root, b, at_root, parent_z, st).out,
        ),
    decreases b, 0int,
{
    let o = opened(sh, root, b, at_root, parent_z, st);
    let z = display_list::used_z(b, parent_z);
    let order = stack_order(b.children);
    let n = b.children.len() as int;
    lemma_children_paint_in_turn(sh, root, b.children, order, n, z, o);
    let k = stacked_children(sh, root, b.children, order, n, z, o);
    let c = closed(sh, root, b, at_root, st, k);
    assert(k.out.is_prefix_of(c.out));
    assert(o.out.is_prefix_of(c.out));
    assert(st.out.is_prefix_of(o.out));
}

/// Children paint one after the other: what the first of an order painted is
/// there before the next starts.
pub proof fn lemma_children_paint_in_turn(
    sh: Shaper,
    root: RootStyle,
    s: Seq<BoxV>,
    order: Seq<int>,
    k: int,
    z: i32,
    st: PaintS,
)
    ensures
        st.out.is_prefix_of(stacked_children(sh, root, s, order, k, z, st).out),
        0 < k <= order.len() && 0 <= order[k - 1] < s.len() ==> stacked_children(
            sh,
            root,
            s,
            order,
            k - 1,
            z,
            st,
        ).out.is_prefix_of(stacked_children(sh, root, s, order, k, z, st).out),
    decreases s, k,
{
    if !(k <= 0 || k > order.len() || !(0 <= order[k - 1] < s.len())) {
        lemma_children_paint_in_turn(sh, root, s, order, k - 1, z, st);
        let before = stacked_children(sh, root, s, order, k - 1, z, st);
        let c = s[order[k - 1]];
        lemma_box_paints_before_its_children(sh, root, c, false, z, before);
        let o = opened(sh, root, c, false, z, before).out;
        let after = stacked(sh, root, c, false, z, before).out;
        assert(before.out.is_prefix_of(after)) by {
            assert(before.out.len() <= o.len() <= after.len());
            assert(before.out =~= after.subrange(0, before.out.len() as int)) by {
                assert(o =~= after.subrange(0, o.len() as int));
                assert(before.out =~= o.subrange(0, before.out.len() as int));
                assert forall|a: int| 0 <= a < before.out.len() implies before.out[a]
                    == after[a] by {
                    assert(before.out[a] == o.subrange(0, before.out.len() as int)[a]);
                    assert(o[a] == after.subrange(0, o.len() as int)[a]);
                }
            }
        }
    }
}

/// A transform turns about its origin, so far from the corner of the border
/// box; all of the width or height is the far corner. A translation in parts
/// of the size goes by the size of the border box.
pub proof fn lemma_transform_turns_about_its_origin(b: BoxV, g: nat)
    requires
        b.dim.coords(g),
        b.own.style.transform is Some,
        b.own.style.transform_origin_x matches Length::Px(v) ==> v.coord(g),
        b.own.style.transform_origin_y matches Length::Px(v) ==> v.coord(g),
    ensures
        transform_command(b) is Some,
        match transform_command(b)->0 {
            DisplayCommand::PushTransform { matrix, origin } => {
                let s = b.own.style;
                let t = s.transform->0;
                let (left, top, right, bottom) = b.dim.border_box().edges(g);
                &&& s.transform_origin_x matches Length::Px(v) ==> origin.x.ticks(g) == left
                    + v.ticks(g)
                &&& s.transform_origin_y matches Length::Px(v) ==> origin.y.ticks(g) == top
                    + v.ticks(g)
                &&& s.transform_origin_x == Length::Percent(Num::whole(100)) ==> origin.x.ticks(g)
                    == right
                &&& s.transform_origin_y == Length::Percent(Num::whole(100)) ==> origin.y.ticks(g)
                    == bottom
                &&& matrix.a == t.a && matrix.b == t.b && matrix.c == t.c && matrix.d == t.d
            },
            _ => false,
        },
{
    let u: int = 0x8_0000;
    let bb = b.dim.border_box();
    let s = b.own.style;
    lemma_boxes_lie_around(b.dim, g);
    if let Length::Px(v) = s.transform_origin_x {
        grid::lemma_sum(bb.x, v, g, 8 * u, u);
    }
    if let Length::Px(v) = s.transform_origin_y {
        grid::lemma_sum(bb.y, v, g, 8 * u, u);
    }
    grid::lemma_finite(bb.width, g, 8 * u);
    grid::lemma_finite(bb.height, g, 8 * u);
    grid::lemma_all_of(bb.width);
    grid::lemma_all_of(bb.height);
}

/// A translation in parts of the size goes so many widths and heights of the
/// border box, across and down each by its own parts.
pub proof fn lemma_translation_goes_by_the_size(
    t: Transform,
    width: Num,
    height: Num,
    parts: (nat, nat, nat, nat),
    g: nat,
)
    requires
        width.coord(g) && height.coord(g) && t.e.coord(g) && t.f.coord(g),
        parts.0 <= 4 && parts.1 <= 4 && parts.2 <= 4 && parts.3 <= 4,
        t.e_per_width == Num::whole(parts.0 as int) && t.e_per_height == Num::whole(parts.1 as int),
        t.f_per_width == Num::whole(parts.2 as int) && t.f_per_height == Num::whole(parts.3 as int),
    ensures
        ({
            let m = t.matrix(width, height);
            &&& m.e.ticks(g) == t.e.ticks(g) + parts.0 * width.ticks(g) + parts.1 * height.ticks(g)
            &&& m.f.ticks(g) == t.f.ticks(g) + parts.2 * width.ticks(g) + parts.3 * height.ticks(g)
        }),
{
    lemma_parts(t.e, parts.0, width, parts.1, height, g);
    lemma_parts(t.f, parts.2, width, parts.3, height, g);
}

proof fn lemma_parts(start: Num, a: nat, x: Num, b: nat, y: Num, g: nat)
    requires
        start.coord(g) && x.coord(g) && y.coord(g),
        a <= 4 && b <= 4,
    ensures
        (start + Num::whole(a as int) * x + Num::whole(b as int) * y).ticks(g) == start.ticks(g) + a
            * x.ticks(g) + b * y.ticks(g),
{
    let u: int = 0x8_0000;
    assert(0 <= a * u <= 4 * u && 0 <= b * u <= 4 * u) by (nonlinear_arith)
        requires
            0 <= a <= 4,
            0 <= b <= 4,
            u == 0x8_0000,
    ;
    grid::lemma_times(a, x, g, u);
    grid::lemma_times(b, y, g, u);
    let (p, q) = (Num::whole(a as int) * x, Num::whole(b as int) * y);
    grid::lemma_wider(p, g, a * u, 4 * u);
    grid::lemma_wider(q, g, b * u, 4 * u);
    grid::lemma_sum(start, p, g, u, 4 * u);
    grid::lemma_sum(start + p, q, g, 5 * u, 4 * u);
}

/// What ellipsises cut against is the right edge of the content box of a block
/// that clips; a block that does not clip cuts nothing.
pub proof fn lemma_ellipsis_is_at_the_content_edge(b: BoxV, g: nat)
    requires
        b.dim.content.coords(g),
    ensures
        display_list::block_scope(b) matches Some(s) ==> s.limit_x.ticks(g) == b.dim.content.edges(
            g,
        ).2 && s.lines.len() == 0 && b.own.style.clips(),
        b.own.style.text_overflow == TextOverflow::Ellipsis && (b.own.style.overflow_x
            == Overflow::Hidden || b.own.style.overflow_y == Overflow::Hidden)
            ==> display_list::block_scope(b) is Some,
        b.own.style.text_overflow != TextOverflow::Ellipsis ==> display_list::block_scope(b) is None,
{
}

/// A box that starts a stacking context opens it around its border box before
/// anything of it is painted, at its own z-index where it is positioned and at
/// that of its parent otherwise.
pub proof fn lemma_context_opens_around_border_box(
    sh: Shaper,
    root: RootStyle,
    b: BoxV,
    at_root: bool,
    parent_z: i32,
    st: PaintS,
)
    requires
        b.own.stacking_context matches Some(ctx) && ctx.creates_context,
        !b.own.position.is_out_of_flow(),
    ensures
        ({
            let o = opened(sh, root, b, at_root, parent_z, st).out;
            let k = st.out.len() as int;
            &&& k < o.len()
            &&& o[k] matches CommandV::Plain(DisplayCommand::PushStackingContext { z_index, rect })
                && rect == b.dim.border_box() && (has_position(b) ==> z_index == b.own.z_index) && (
            !has_position(b) ==> z_index == parent_z)
        }),
{
}

} // verus!

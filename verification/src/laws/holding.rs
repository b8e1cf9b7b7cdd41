//! What is held and what makes room: sticky boxes, floats and clearance.
use vstd::prelude::*;
use crate::boxes::BoxV;
use crate::floats::{
    left_edge, lowest, next_bottom, right_edge, span_left, span_right, Clear, Float,
    FloatExclusion, FloatsV,
};
use crate::geometry::Rect;
use crate::grid;
use crate::laws::columns::outline;
use crate::num::Num;
use crate::tree::{held, held_at, stuck};

verus! {

/// Whether a sticky box is at its place in the flow, on a grid.
pub open spec fn sticky_at_home(b: BoxV, g: nat) -> bool {
    &&& b.dim.coords(g)
    &&& b.sticky matches Some(s) && s.original_rect.coords(g) && (s.offsets.top matches Some(t)
        ==> t.coord(g)) && outline(b.dim, g).0 == s.original_rect.x.ticks(g) && outline(
        b.dim,
        g,
    ).1 == s.original_rect.y.ticks(g)
}

/// A sticky box follows the scroll position at the distance of its top offset
/// once it would come nearer, but never above its place in the flow and never
/// further than to the bottom of its container. It keeps its place across.
pub proof fn lemma_sticky_box_is_held(b: BoxV, scroll_y: Num, container: Rect, g: nat)
    requires
        sticky_at_home(b, g),
        scroll_y.coord(g),
        container.coords(g),
        b.sticky->0.offsets.top is Some,
    ensures
        ({
            let c = stuck(b, scroll_y, container);
            let s = b.sticky->0;
            let home = s.original_rect.y.ticks(g);
            let want = scroll_y.ticks(g) + s.offsets.top->0.ticks(g);
            let limit = container.bottom().ticks(g) - s.original_rect.height.ticks(g);
            let (x, y, _, _) = outline(c.dim, g);
            &&& y >= home
            &&& want <= home ==> y == home && !c.sticky->0.is_stuck
            &&& want > home ==> c.sticky->0.is_stuck
            &&& home < want && want <= limit ==> y == want
            &&& home < want && limit < want ==> y == if limit > home {
                limit
            } else {
                home
            }
            &&& x == outline(b.dim, g).0
            &&& c.dim.content.width == b.dim.content.width
            &&& c.dim.content.height == b.dim.content.height
            &&& c.sticky is Some && c.sticky->0.original_rect == s.original_rect
        }),
{
    reveal(stuck);
    reveal(held_at);
    let u: int = 0x8_0000;
    let s = b.sticky->0;
    let top = s.offsets.top->0;
    let o = s.original_rect;
    let d = b.dim;
    let bb = d.border_box();
    grid::lemma_difference(d.content.x, d.padding.left, g, u, u);
    grid::lemma_difference(d.padding_box().x, d.border.left, g, 2 * u, u);
    grid::lemma_difference(d.content.y, d.padding.top, g, u, u);
    grid::lemma_difference(d.padding_box().y, d.border.top, g, 2 * u, u);
    grid::lemma_difference(o.y, top, g, u, u);
    grid::lemma_order(scroll_y, o.y - top, g, u, 2 * u);
    grid::lemma_sum(scroll_y, top, g, u, u);
    grid::lemma_sum(container.y, container.height, g, u, u);
    grid::lemma_difference(container.bottom(), o.height, g, 2 * u, u);
    let want = scroll_y + top;
    let limit = container.bottom() - o.height;
    grid::lemma_wider(want, g, 2 * u, 3 * u);
    grid::lemma_extremes(want, limit, g, 3 * u);
    grid::lemma_wider(o.y, g, u, 3 * u);
    grid::lemma_extremes(Num::smaller(want, limit), o.y, g, 3 * u);
    let y = Num::larger(Num::smaller(want, limit), o.y);
    grid::lemma_difference(y, bb.y, g, 3 * u, 3 * u);
    grid::lemma_sum(d.content.y, y - bb.y, g, u, 6 * u);
    grid::lemma_difference(o.x, bb.x, g, u, 3 * u);
    grid::lemma_sum(d.content.x, o.x - bb.x, g, u, 4 * u);
}

/// Without a top offset a sticky box stays in its place.
pub proof fn lemma_sticky_box_without_top_stays(b: BoxV, scroll_y: Num, container: Rect)
    requires
        b.sticky matches Some(s) ==> s.offsets.top is None,
    ensures
        stuck(b, scroll_y, container).dim == b.dim,
{
    reveal(stuck);
    reveal(held_at);
}

/// A left float starts at the left edge of its container or beside a left
/// float that it meets, and beyond all of them; a right float ends, by the
/// same rule, at the right.
pub proof fn lemma_float_stands_beside_its_side(
    v: FloatsV,
    side: Float,
    width: Num,
    height: Num,
    y: Num,
    container: Num,
    g: nat,
    i: int,
)
    requires
        width.coord(g) && container.coord(g),
        forall|k: int|
            0 <= k < v.left.len() ==> (#[trigger] v.left[k]).rect.right().on(g, 0x10_0000),
        forall|k: int| 0 <= k < v.right.len() ==> (#[trigger] v.right[k]).rect.x.coord(g),
    ensures
        ({
            let r = v.place(side, width, height, y, container);
            &&& r.y == y && r.width == width && r.height == height
            &&& side != Float::Right ==> {
                &&& r.x.ticks(g) == 0 || exists|k: int|
                    0 <= k < v.left.len() && (#[trigger] v.left[k]).meets(y, y + height)
                        && r.x.ticks(g) == v.left[k].rect.right().ticks(g)
                &&& 0 <= i < v.left.len() && v.left[i].meets(y, y + height) ==> r.x.ticks(g)
                    >= v.left[i].rect.right().ticks(g)
            }
            &&& side == Float::Right ==> {
                let end = r.x.ticks(g) + width.ticks(g);
                &&& end == container.ticks(g) || exists|k: int|
                    0 <= k < v.right.len() && (#[trigger] v.right[k]).meets(y, y + height)
                        && end == v.right[k].rect.x.ticks(g)
                &&& 0 <= i < v.right.len() && v.right[i].meets(y, y + height) ==> end
                    <= v.right[i].rect.x.ticks(g)
            }
        }),
{
    let u: int = 0x8_0000;
    let end = y + height;
    grid::lemma_finite(width, g, u);
    grid::lemma_zero(g);
    let k = lemma_span_left(v.left, y, end, g, i);
    if 0 <= k {
        assert(v.left[k].meets(y, end));
    }
    let m = lemma_span_right(v.right, y, end, container, g, i);
    if 0 <= m {
        assert(v.right[m].meets(y, end));
    }
    grid::lemma_difference(span_right(v.right, y, end, container), width, g, u, u);
}

proof fn lemma_span_left(fs: Seq<FloatExclusion>, y: Num, end: Num, g: nat, i: int) -> (k: int)
    requires
        g <= 253,
        forall|k: int| 0 <= k < fs.len() ==> (#[trigger] fs[k]).rect.right().on(g, 0x10_0000),
    ensures
        span_left(fs, y, end).on(g, 0x10_0000),
        -1 <= k < fs.len(),
        k == -1 ==> span_left(fs, y, end).ticks(g) == 0,
        k >= 0 ==> fs[k].meets(y, end) && span_left(fs, y, end).ticks(g) == fs[k].rect.right().ticks(
            g,
        ),
        0 <= i < fs.len() && fs[i].meets(y, end) ==> span_left(fs, y, end).ticks(g)
            >= fs[i].rect.right().ticks(g),
    decreases fs.len(),
{
    let n: int = 0x10_0000;
    grid::lemma_zero(g);
    grid::lemma_wider(Num::nought(), g, 0, n);
    if fs.len() == 0 {
        -1
    } else {
        let rest = fs.drop_last();
        assert forall|k: int| 0 <= k < rest.len() implies (#[trigger] rest[k]).rect.right().on(
            g,
            0x10_0000,
        ) by {
            assert(rest[k] == fs[k]);
        }
        let k = lemma_span_left(rest, y, end, g, i);
        let last = fs[fs.len() - 1];
        assert(last.rect.right().on(g, n));
        let before = span_left(rest, y, end);
        grid::lemma_extremes(before, last.rect.right(), g, n);
        grid::lemma_order(before, last.rect.right(), g, n, n);
        if last.meets(y, end) && before.ticks(g) < last.rect.right().ticks(g) {
            fs.len() - 1
        } else {
            k
        }
    }
}

proof fn lemma_span_right(
    fs: Seq<FloatExclusion>,
    y: Num,
    end: Num,
    container: Num,
    g: nat,
    i: int,
) -> (k: int)
    requires
        container.coord(g),
        forall|k: int| 0 <= k < fs.len() ==> (#[trigger] fs[k]).rect.x.coord(g),
    ensures
        span_right(fs, y, end, container).coord(g),
        -1 <= k < fs.len(),
        k == -1 ==> span_right(fs, y, end, container).ticks(g) == container.ticks(g),
        k >= 0 ==> fs[k].meets(y, end) && span_right(fs, y, end, container).ticks(g)
            == fs[k].rect.x.ticks(g),
        0 <= i < fs.len() && fs[i].meets(y, end) ==> span_right(fs, y, end, container).ticks(g)
            <= fs[i].rect.x.ticks(g),
    decreases fs.len(),
{
    let n: int = 0x8_0000;
    if fs.len() == 0 {
        -1
    } else {
        let rest = fs.drop_last();
        assert forall|k: int| 0 <= k < rest.len() implies (#[trigger] rest[k]).rect.x.coord(g) by {
            assert(rest[k] == fs[k]);
        }
        let k = lemma_span_right(rest, y, end, container, g, i);
        let last = fs[fs.len() - 1];
        assert(last.rect.x.coord(g));
        let before = span_right(rest, y, end, container);
        grid::lemma_extremes(before, last.rect.x, g, n);
        grid::lemma_order(before, last.rect.x, g, n, n);
        if last.meets(y, end) && last.rect.x.ticks(g) < before.ticks(g) {
            fs.len() - 1
        } else {
            k
        }
    }
}

/// What clears a side starts below every float on that side, and at the end of
/// one of them where there is any below the top.
pub proof fn lemma_clearance_is_below_floats(v: FloatsV, g: nat, i: int)
    requires
        g <= 253,
        forall|k: int|
            0 <= k < v.left.len() ==> (#[trigger] v.left[k]).rect.bottom().on(g, 0x10_0000),
        forall|k: int|
            0 <= k < v.right.len() ==> (#[trigger] v.right[k]).rect.bottom().on(g, 0x10_0000),
    ensures
        0 <= i < v.left.len() ==> v.cleared(Clear::Left).ticks(g)
            >= v.left[i].rect.bottom().ticks(g) && v.cleared(Clear::Both).ticks(g)
            >= v.left[i].rect.bottom().ticks(g),
        0 <= i < v.right.len() ==> v.cleared(Clear::Right).ticks(g)
            >= v.right[i].rect.bottom().ticks(g) && v.cleared(Clear::Both).ticks(g)
            >= v.right[i].rect.bottom().ticks(g),
        v.cleared(Clear::Left).ticks(g) == 0 || exists|k: int|
            0 <= k < v.left.len() && v.cleared(Clear::Left).ticks(g) == (
            #[trigger] v.left[k]).rect.bottom().ticks(g),
        v.cleared(Clear::Right).ticks(g) == 0 || exists|k: int|
            0 <= k < v.right.len() && v.cleared(Clear::Right).ticks(g) == (
            #[trigger] v.right[k]).rect.bottom().ticks(g),
        v.cleared(Clear::Both).ticks(g) == v.cleared(Clear::Left).ticks(g) || v.cleared(
            Clear::Both,
        ).ticks(g) == v.cleared(Clear::Right).ticks(g),
        v.cleared(Clear::Unset).ticks(g) == 0,
{
    let n: int = 0x10_0000;
    let zero = Num::nought();
    grid::lemma_zero(g);
    grid::lemma_wider(zero, g, 0, n);
    let l = lowest(v.left, zero);
    let a = lemma_lowest(v.left, zero, g, i);
    let b = lemma_lowest(v.right, zero, g, i);
    let c = lemma_lowest(v.right, l, g, i);
    if a >= 0 {
        assert(v.left[a].rect.bottom().ticks(g) == l.ticks(g));
    }
    if b >= 0 {
        assert(v.right[b].rect.bottom().ticks(g) == lowest(v.right, zero).ticks(g));
        let e = lemma_lowest(v.right, l, g, b);
        if c >= 0 {
            let f = lemma_lowest(v.right, zero, g, c);
        }
    } else if c >= 0 {
        let f = lemma_lowest(v.right, zero, g, c);
    }
}

proof fn lemma_lowest(fs: Seq<FloatExclusion>, start: Num, g: nat, i: int) -> (k: int)
    requires
        start.on(g, 0x10_0000),
        forall|k: int| 0 <= k < fs.len() ==> (#[trigger] fs[k]).rect.bottom().on(g, 0x10_0000),
    ensures
        lowest(fs, start).on(g, 0x10_0000),
        -1 <= k < fs.len(),
        k == -1 ==> lowest(fs, start).ticks(g) == start.ticks(g),
        k >= 0 ==> lowest(fs, start).ticks(g) == fs[k].rect.bottom().ticks(g),
        lowest(fs, start).ticks(g) >= start.ticks(g),
        0 <= i < fs.len() ==> lowest(fs, start).ticks(g) >= fs[i].rect.bottom().ticks(g),
    decreases fs.len(),
{
    let n: int = 0x10_0000;
    if fs.len() == 0 {
        -1
    } else {
        let rest = fs.drop_last();
        assert forall|k: int| 0 <= k < rest.len() implies (#[trigger] rest[k]).rect.bottom().on(
            g,
            0x10_0000,
        ) by {
            assert(rest[k] == fs[k]);
        }
        let k = lemma_lowest(rest, start, g, i);
        let last = fs[fs.len() - 1];
        assert(last.rect.bottom().on(g, n));
        let before = lowest(rest, start);
        grid::lemma_extremes(before, last.rect.bottom(), g, n);
        grid::lemma_order(before, last.rect.bottom(), g, n, n);
        if before.ticks(g) < last.rect.bottom().ticks(g) {
            fs.len() - 1
        } else {
            k
        }
    }
}

/// The free space at a height lies between the floats there: its left edge is
/// that of the container or the right edge of a left float, its right edge that
/// of the container or the left edge of a right float, and no float reaches in.
pub proof fn lemma_free_space_lies_between_floats(
    v: FloatsV,
    y: Num,
    container: Num,
    g: nat,
    i: int,
)
    requires
        container.coord(g),
        forall|k: int|
            0 <= k < v.left.len() ==> (#[trigger] v.left[k]).rect.right().on(g, 0x10_0000),
        forall|k: int| 0 <= k < v.right.len() ==> (#[trigger] v.right[k]).rect.x.coord(g),
    ensures
        ({
            let (l, r) = v.edges(y, container);
            &&& l.ticks(g) == 0 || exists|k: int|
                0 <= k < v.left.len() && (#[trigger] v.left[k]).spans(y) && l.ticks(g)
                    == v.left[k].rect.right().ticks(g)
            &&& r.ticks(g) == container.ticks(g) || exists|k: int|
                0 <= k < v.right.len() && (#[trigger] v.right[k]).spans(y) && r.ticks(g)
                    == v.right[k].rect.x.ticks(g)
            &&& 0 <= l.ticks(g) && r.ticks(g) <= container.ticks(g)
            &&& 0 <= i < v.left.len() && v.left[i].spans(y) ==> v.left[i].rect.right().ticks(g)
                <= l.ticks(g)
            &&& 0 <= i < v.right.len() && v.right[i].spans(y) ==> r.ticks(g)
                <= v.right[i].rect.x.ticks(g)
        }),
{
    grid::lemma_finite(container, g, 0x8_0000);
    let k = lemma_left_edge(v.left, y, g, i);
    if k >= 0 {
        assert(v.left[k].spans(y));
    }
    let m = lemma_right_edge(v.right, y, container, g, i);
    if m >= 0 {
        assert(v.right[m].spans(y));
    }
}

proof fn lemma_left_edge(fs: Seq<FloatExclusion>, y: Num, g: nat, i: int) -> (k: int)
    requires
        g <= 253,
        forall|k: int| 0 <= k < fs.len() ==> (#[trigger] fs[k]).rect.right().on(g, 0x10_0000),
    ensures
        left_edge(fs, y).on(g, 0x10_0000),
        -1 <= k < fs.len(),
        k == -1 ==> left_edge(fs, y).ticks(g) == 0,
        k >= 0 ==> fs[k].spans(y) && left_edge(fs, y).ticks(g) == fs[k].rect.right().ticks(g),
        left_edge(fs, y).ticks(g) >= 0,
        0 <= i < fs.len() && fs[i].spans(y) ==> left_edge(fs, y).ticks(g)
            >= fs[i].rect.right().ticks(g),
    decreases fs.len(),
{
    let n: int = 0x10_0000;
    grid::lemma_zero(g);
    grid::lemma_wider(Num::nought(), g, 0, n);
    if fs.len() == 0 {
        -1
    } else {
        let rest = fs.drop_last();
        assert forall|k: int| 0 <= k < rest.len() implies (#[trigger] rest[k]).rect.right().on(
            g,
            0x10_0000,
        ) by {
            assert(rest[k] == fs[k]);
        }
        let k = lemma_left_edge(rest, y, g, i);
        let last = fs[fs.len() - 1];
        assert(last.rect.right().on(g, n));
        let before = left_edge(rest, y);
        grid::lemma_extremes(before, last.rect.right(), g, n);
        if last.spans(y) && before.ticks(g) < last.rect.right().ticks(g) {
            fs.len() - 1
        } else {
            k
        }
    }
}

proof fn lemma_right_edge(fs: Seq<FloatExclusion>, y: Num, container: Num, g: nat, i: int) -> (k:
    int)
    requires
        container.coord(g),
        forall|k: int| 0 <= k < fs.len() ==> (#[trigger] fs[k]).rect.x.coord(g),
    ensures
        right_edge(fs, y, container).coord(g),
        -1 <= k < fs.len(),
        k == -1 ==> right_edge(fs, y, container).ticks(g) == container.ticks(g),
        k >= 0 ==> fs[k].spans(y) && right_edge(fs, y, container).ticks(g) == fs[k].rect.x.ticks(g),
        right_edge(fs, y, container).ticks(g) <= container.ticks(g),
        0 <= i < fs.len() && fs[i].spans(y) ==> right_edge(fs, y, container).ticks(g)
            <= fs[i].rect.x.ticks(g),
    decreases fs.len(),
{
    let n: int = 0x8_0000;
    if fs.len() == 0 {
        -1
    } else {
        let rest = fs.drop_last();
        assert forall|k: int| 0 <= k < rest.len() implies (#[trigger] rest[k]).rect.x.coord(g) by {
            assert(rest[k] == fs[k]);
        }
        let k = lemma_right_edge(rest, y, container, g, i);
        let last = fs[fs.len() - 1];
        assert(last.rect.x.coord(g));
        let before = right_edge(rest, y, container);
        grid::lemma_extremes(before, last.rect.x, g, n);
        if last.spans(y) && last.rect.x.ticks(g) < before.ticks(g) {
            fs.len() - 1
        } else {
            k
        }
    }
}

/// The next height at which a float ends is the highest bottom below: it is
/// below the given height, a float ends there, and none ends in between. There
/// is none where no float ends below.
pub proof fn lemma_next_end_is_the_nearest(v: FloatsV, y: Num, g: nat)
    requires
        y.coord(g),
        forall|k: int|
            0 <= k < v.left.len() ==> (#[trigger] v.left[k]).rect.bottom().on(g, 0x10_0000),
        forall|k: int|
            0 <= k < v.right.len() ==> (#[trigger] v.right[k]).rect.bottom().on(g, 0x10_0000),
    ensures
        ({
            let n = v.end_after(y);
            &&& n < Num::unbounded() ==> {
                &&& n.on(g, 0x10_0000) && n.ticks(g) > y.ticks(g)
                &&& (exists|k: int|
                    0 <= k < v.left.len() && (#[trigger] v.left[k]).rect.bottom().ticks(g)
                        == n.ticks(g)) || (exists|k: int|
                    0 <= k < v.right.len() && (#[trigger] v.right[k]).rect.bottom().ticks(g)
                        == n.ticks(g))
            }
            &&& forall|k: int|
                0 <= k < v.left.len() && (#[trigger] v.left[k]).rect.bottom().ticks(g) > y.ticks(g)
                    ==> n <= v.left[k].rect.bottom()
            &&& forall|k: int|
                0 <= k < v.right.len() && (#[trigger] v.right[k]).rect.bottom().ticks(g)
                    > y.ticks(g) ==> n <= v.right[k].rect.bottom()
        }),
{
    crate::exact::lemma_unbounded();
    let a = next_bottom(v.left, y, Num::unbounded());
    let k = lemma_next_bottom(v.left, y, Num::unbounded(), g);
    let m = lemma_next_bottom(v.right, y, a, g);
    if k >= 0 {
        assert(v.left[k].rect.bottom().on(g, 0x10_0000));
    }
    if m >= 0 {
        assert(v.right[m].rect.bottom().on(g, 0x10_0000));
    }
}

proof fn lemma_next_bottom(fs: Seq<FloatExclusion>, y: Num, start: Num, g: nat) -> (k: int)
    requires
        y.coord(g),
        !start.nan(),
        forall|k: int| 0 <= k < fs.len() ==> (#[trigger] fs[k]).rect.bottom().on(g, 0x10_0000),
    ensures
        -1 <= k < fs.len(),
        k == -1 ==> next_bottom(fs, y, start) == start,
        k >= 0 ==> next_bottom(fs, y, start) == fs[k].rect.bottom() && fs[k].rect.bottom().ticks(g)
            > y.ticks(g),
        next_bottom(fs, y, start) <= start && !next_bottom(fs, y, start).nan(),
        forall|j: int|
            0 <= j < fs.len() && (#[trigger] fs[j]).rect.bottom().ticks(g) > y.ticks(g)
                ==> next_bottom(fs, y, start) <= fs[j].rect.bottom(),
    decreases fs.len(),
{
    if fs.len() == 0 {
        -1
    } else {
        let rest = fs.drop_last();
        assert forall|k: int| 0 <= k < rest.len() implies (#[trigger] rest[k]).rect.bottom().on(
            g,
            0x10_0000,
        ) by {
            assert(rest[k] == fs[k]);
        }
        let k = lemma_next_bottom(rest, y, start, g);
        let n = fs.len() - 1;
        let last = fs[n].rect.bottom();
        assert(last.on(g, 0x10_0000));
        grid::lemma_order(last, y, g, 0x10_0000, 0x8_0000);
        let before = next_bottom(rest, y, start);
        assert forall|j: int|
            0 <= j < fs.len() && (#[trigger] fs[j]).rect.bottom().ticks(g) > y.ticks(
                g,
            ) implies next_bottom(fs, y, start) <= fs[j].rect.bottom() by {
            if j < n {
                assert(rest[j] == fs[j]);
            }
        }
        if last > y && !(before <= last) {
            n
        } else {
            k
        }
    }
}

/// A float takes space at a height from its top down to just above its bottom,
/// and meets a range that it shares more than an edge with.
pub proof fn lemma_float_takes_its_heights(f: FloatExclusion, y: Num, end: Num, g: nat)
    requires
        f.rect.coords(g) && y.coord(g) && end.coord(g),
    ensures
        f.spans(y) <==> f.rect.edges(g).1 <= y.ticks(g) < f.rect.edges(g).3,
        f.meets(y, end) <==> f.rect.edges(g).1 < end.ticks(g) && y.ticks(g) < f.rect.edges(g).3,
{
    let u: int = 0x8_0000;
    grid::lemma_sum(f.rect.y, f.rect.height, g, u, u);
    grid::lemma_order(y, f.rect.y, g, u, u);
    grid::lemma_order(y, f.rect.bottom(), g, u, 2 * u);
    grid::lemma_order(f.rect.y, end, g, u, u);
}

/// Rectangles overlap where they share more than an edge, and hold the points
/// between their edges, the left and top ones included.
pub proof fn lemma_rectangles_by_their_edges(a: Rect, b: Rect, x: Num, y: Num, g: nat)
    requires
        a.coords(g) && b.coords(g) && x.coord(g) && y.coord(g),
    ensures
        a.overlaps(b) <==> crate::laws::tiles::share_area(a, b, g),
        a.contains(x, y) <==> a.edges(g).0 <= x.ticks(g) < a.edges(g).2 && a.edges(g).1 <= y.ticks(
            g,
        ) < a.edges(g).3,
{
    let u: int = 0x8_0000;
    grid::lemma_sum(a.x, a.width, g, u, u);
    grid::lemma_sum(a.y, a.height, g, u, u);
    grid::lemma_sum(b.x, b.width, g, u, u);
    grid::lemma_sum(b.y, b.height, g, u, u);
    grid::lemma_order(a.x, b.right(), g, u, 2 * u);
    grid::lemma_order(a.right(), b.x, g, 2 * u, u);
    grid::lemma_order(a.y, b.bottom(), g, u, 2 * u);
    grid::lemma_order(a.bottom(), b.y, g, 2 * u, u);
    grid::lemma_order(x, a.x, g, u, u);
    grid::lemma_order(x, a.right(), g, u, 2 * u);
    grid::lemma_order(y, a.y, g, u, u);
    grid::lemma_order(y, a.bottom(), g, u, 2 * u);
}

} // verus!

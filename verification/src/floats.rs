//! Floats: the areas they take out of the flow, and where the next one fits.
use vstd::prelude::*;
use crate::exact;
use crate::geometry::{rects_overlap, Rect};
use crate::num::Num;

verus! {

/// CSS float property values.
#[derive(Debug, Clone, Copy, PartialEq, Eq, Structural)]
pub enum Float {
    /// `float: none`.
    Unset,
    Left,
    Right,
}

impl Default for Float {
    fn default() -> (r: Float)
        ensures
            r == Float::Unset,
    {
        Float::Unset
    }
}

/// CSS clear property values.
#[derive(Debug, Clone, Copy, PartialEq, Eq, Structural)]
pub enum Clear {
    /// `clear: none`.
    Unset,
    Left,
    Right,
    Both,
}

impl Default for Clear {
    fn default() -> (r: Clear)
        ensures
            r == Clear::Unset,
    {
        Clear::Unset
    }
}

/// Float exclusion area.
#[derive(Debug, Clone, Copy)]
pub struct FloatExclusion {
    pub rect: Rect,
    pub float_type: Float,
}

/// Float context for tracking float exclusions.
#[derive(Debug, Clone)]
pub struct FloatContext {
    pub left_floats: Vec<FloatExclusion>,
    pub right_floats: Vec<FloatExclusion>,
}

/// The exclusions of a float context.
#[verifier::ext_equal]
pub struct FloatsV {
    pub left: Seq<FloatExclusion>,
    pub right: Seq<FloatExclusion>,
}

impl FloatExclusion {
    /// Whether the float takes space at height `y`.
    pub open spec fn spans(self, y: Num) -> bool {
        y >= self.rect.y && y < self.rect.bottom()
    }

    /// Whether the float meets the range from `y_start` to `y_end`.
    pub open spec fn meets(self, y_start: Num, y_end: Num) -> bool {
        self.rect.y < y_end && self.rect.bottom() > y_start
    }
}

/// The furthest right edge of the floats at `y`, from zero up.
pub open spec fn left_edge(fs: Seq<FloatExclusion>, y: Num) -> Num
    decreases fs.len(),
{
    if fs.len() == 0 {
        Num::nought()
    } else {
        let before = left_edge(fs.drop_last(), y);
        if fs.last().spans(y) {
            Num::larger(before, fs.last().rect.right())
        } else {
            before
        }
    }
}

/// The furthest left edge of the floats at `y`, from the container width down.
pub open spec fn right_edge(fs: Seq<FloatExclusion>, y: Num, container_width: Num) -> Num
    decreases fs.len(),
{
    if fs.len() == 0 {
        container_width
    } else {
        let before = right_edge(fs.drop_last(), y, container_width);
        if fs.last().spans(y) {
            Num::smaller(before, fs.last().rect.x)
        } else {
            before
        }
    }
}

/// The furthest right edge of the floats that meet a range, from zero up.
pub open spec fn span_left(fs: Seq<FloatExclusion>, y: Num, end: Num) -> Num
    decreases fs.len(),
{
    if fs.len() == 0 {
        Num::nought()
    } else {
        let before = span_left(fs.drop_last(), y, end);
        if fs.last().meets(y, end) {
            Num::larger(before, fs.last().rect.right())
        } else {
            before
        }
    }
}

/// The furthest left edge of the floats that meet a range, from the container
/// width down.
pub open spec fn span_right(fs: Seq<FloatExclusion>, y: Num, end: Num, container_width: Num) -> Num
    decreases fs.len(),
{
    if fs.len() == 0 {
        container_width
    } else {
        let before = span_right(fs.drop_last(), y, end, container_width);
        if fs.last().meets(y, end) {
            Num::smaller(before, fs.last().rect.x)
        } else {
            before
        }
    }
}

/// The lowest bottom of the floats, from `start` down the page.
pub open spec fn lowest(fs: Seq<FloatExclusion>, start: Num) -> Num
    decreases fs.len(),
{
    if fs.len() == 0 {
        start
    } else {
        Num::larger(lowest(fs.drop_last(), start), fs.last().rect.bottom())
    }
}

/// The highest bottom below `y`, or `start` where none is higher.
pub open spec fn next_bottom(fs: Seq<FloatExclusion>, y: Num, start: Num) -> Num
    decreases fs.len(),
{
    if fs.len() == 0 {
        start
    } else {
        let before = next_bottom(fs.drop_last(), y, start);
        if fs.last().rect.bottom() > y {
            Num::smaller(before, fs.last().rect.bottom())
        } else {
            before
        }
    }
}

/// Whether any of the floats takes space at `y`.
pub open spec fn occupied(fs: Seq<FloatExclusion>, y: Num) -> bool {
    exists|i: int| 0 <= i < fs.len() && (#[trigger] fs[i]).spans(y)
}

/// Whether any of the floats overlaps a rectangle.
pub open spec fn obstructed(fs: Seq<FloatExclusion>, rect: Rect) -> bool {
    exists|i: int| 0 <= i < fs.len() && rect.overlaps((#[trigger] fs[i]).rect)
}

/// The floats that meet a range, in order.
pub open spec fn meeting(fs: Seq<FloatExclusion>, y_start: Num, y_end: Num) -> Seq<FloatExclusion>
    decreases fs.len(),
{
    if fs.len() == 0 {
        Seq::empty()
    } else {
        let before = meeting(fs.drop_last(), y_start, y_end);
        if fs.last().meets(y_start, y_end) {
            before.push(fs.last())
        } else {
            before
        }
    }
}

/// The floats that reach below `y`, in order.
pub open spec fn below(fs: Seq<FloatExclusion>, y: Num) -> Seq<FloatExclusion>
    decreases fs.len(),
{
    if fs.len() == 0 {
        Seq::empty()
    } else {
        let before = below(fs.drop_last(), y);
        if fs.last().rect.bottom() > y {
            before.push(fs.last())
        } else {
            before
        }
    }
}

impl FloatsV {
    /// No floats.
    pub open spec fn none() -> FloatsV {
        FloatsV { left: Seq::empty(), right: Seq::empty() }
    }

    /// The edges of the free space at `y`.
    pub open spec fn edges(self, y: Num, container_width: Num) -> (Num, Num) {
        (left_edge(self.left, y), right_edge(self.right, y, container_width))
    }

    /// The bottom of the lowest float that `clear` names, zero without any.
    pub open spec fn cleared(self, clear: Clear) -> Num {
        match clear {
            Clear::Unset => Num::nought(),
            Clear::Left => lowest(self.left, Num::nought()),
            Clear::Right => lowest(self.right, Num::nought()),
            Clear::Both => lowest(self.right, lowest(self.left, Num::nought())),
        }
    }

    /// The next height below `y` at which a float ends; `y` when none does.
    pub open spec fn next_end(self, y: Num) -> Num {
        let next = next_bottom(self.right, y, next_bottom(self.left, y, Num::largest()));
        if next.same(Num::largest()) {
            y
        } else {
            next
        }
    }

    /// The next height below `y` at which a float ends; infinity when none
    /// does.
    pub open spec fn end_after(self, y: Num) -> Num {
        next_bottom(self.right, y, next_bottom(self.left, y, Num::unbounded()))
    }

    /// Whether a rectangle overlaps no float.
    pub open spec fn leaves_clear(self, rect: Rect) -> bool {
        !obstructed(self.left, rect) && !obstructed(self.right, rect)
    }

    /// Whether a rectangle stays inside the container and overlaps no float.
    pub open spec fn fits(self, rect: Rect, container_width: Num) -> bool {
        &&& !(rect.x < Num::nought())
        &&& !(rect.x + rect.width > container_width)
        &&& self.leaves_clear(rect)
    }

    /// The place of a new float at a height: beside the floats of its side
    /// over its whole extent.
    pub open spec fn place(
        self,
        side: Float,
        width: Num,
        height: Num,
        y: Num,
        container_width: Num,
    ) -> Rect {
        let x = if side == Float::Right {
            span_right(self.right, y, y + height, container_width) - width
        } else {
            span_left(self.left, y, y + height)
        };
        Rect { x, y, width, height }
    }

    /// Whether a new float fits at a height.
    pub open spec fn fits_at(
        self,
        side: Float,
        width: Num,
        height: Num,
        y: Num,
        container_width: Num,
    ) -> bool {
        self.fits(self.place(side, width, height, y, container_width), container_width)
    }

    /// The height at which a new float is placed: from `y` on, the first height
    /// among `y` and the ends of floats at which it fits, else the last of them.
    pub open spec fn float_y(
        self,
        side: Float,
        width: Num,
        height: Num,
        y: Num,
        container_width: Num,
    ) -> Num
        decreases
                (if y < Num::unbounded() {
                    Num::unbounded().rank() - y.rank()
                } else {
                    0
                }),
    {
        let next = self.end_after(y);
        if self.fits_at(side, width, height, y, container_width) || !(y < next) || !(next
            < Num::unbounded()) {
            y
        } else {
            self.float_y(side, width, height, next, container_width)
        }
    }

    /// Whether a container is wide enough for a float on a side; on the right
    /// it must not come out beyond the container by rounding.
    pub open spec fn admits(self, side: Float, width: Num, container_width: Num) -> bool {
        &&& width <= container_width
        &&& side == Float::Right ==> {
            let x = container_width - width;
            !(x < Num::nought()) && !(x + width > container_width)
        }
    }

    /// Whether every float ends.
    pub open spec fn bounded(self) -> bool {
        &&& forall|i: int|
            0 <= i < self.left.len() ==> !((#[trigger] self.left[i]).rect.bottom()
                >= Num::unbounded())
        &&& forall|i: int|
            0 <= i < self.right.len() ==> !((#[trigger] self.right[i]).rect.bottom()
                >= Num::unbounded())
    }

    /// The edges of the free space over a range, narrowed step by step.
    pub open spec fn narrowed(
        self,
        c: Num,
        end: Num,
        container_width: Num,
        left: Num,
        right: Num,
    ) -> (Num, Num)
        decreases
                (if c < end {
                    end.rank() - c.rank()
                } else {
                    0
                }),
    {
        if !(c < end) {
            (left, right)
        } else {
            let (l, r) = self.edges(c, container_width);
            let left = Num::larger(left, l);
            let right = Num::smaller(right, r);
            if c < c + Num::whole(1) {
                self.narrowed(c + Num::whole(1), end, container_width, left, right)
            } else {
                (left, right)
            }
        }
    }
}

/// Every left float at `y` ends at or before the left edge of the free space.
pub proof fn lemma_left_edge_bounds(fs: Seq<FloatExclusion>, y: Num, i: int)
    requires
        0 <= i < fs.len(),
        fs[i].spans(y),
        !fs[i].rect.right().nan(),
    ensures
        left_edge(fs, y) >= fs[i].rect.right(),
    decreases fs.len(),
{
    if i < fs.len() - 1 {
        lemma_left_edge_bounds(fs.drop_last(), y, i);
        assert(fs.drop_last()[i] == fs[i]);
    }
}

/// Every right float at `y` starts at or after the right edge of the free space.
pub proof fn lemma_right_edge_bounds(fs: Seq<FloatExclusion>, y: Num, w: Num, i: int)
    requires
        0 <= i < fs.len(),
        fs[i].spans(y),
        !fs[i].rect.x.nan(),
    ensures
        right_edge(fs, y, w) <= fs[i].rect.x,
    decreases fs.len(),
{
    if i < fs.len() - 1 {
        lemma_right_edge_bounds(fs.drop_last(), y, w, i);
        assert(fs.drop_last()[i] == fs[i]);
    }
}

/// Where no float takes space, the whole container width is free.
pub proof fn lemma_free_line(v: FloatsV, y: Num, w: Num)
    requires
        forall|i: int| 0 <= i < v.left.len() ==> !(#[trigger] v.left[i]).spans(y),
        forall|i: int| 0 <= i < v.right.len() ==> !(#[trigger] v.right[i]).spans(y),
    ensures
        v.edges(y, w) == (Num::nought(), w),
    decreases v.left.len() + v.right.len(),
{
    if v.left.len() > 0 {
        let u = FloatsV { left: v.left.drop_last(), right: v.right };
        assert forall|i: int| 0 <= i < u.left.len() implies !(#[trigger] u.left[i]).spans(y) by {
            assert(u.left[i] == v.left[i]);
        }
        lemma_free_line(u, y, w);
    } else if v.right.len() > 0 {
        let u = FloatsV { left: v.left, right: v.right.drop_last() };
        assert forall|i: int| 0 <= i < u.right.len() implies !(#[trigger] u.right[i]).spans(
            y,
        ) by {
            assert(u.right[i] == v.right[i]);
        }
        lemma_free_line(u, y, w);
    }
}

/// The next end is the nearest: no float ends between a height and it.
proof fn lemma_next_bottom(fs: Seq<FloatExclusion>, y: Num, start: Num)
    requires
        !start.nan(),
        start <= Num::unbounded(),
        start < Num::unbounded() ==> y < start,
    ensures
        next_bottom(fs, y, start) <= start,
        next_bottom(fs, y, start) < Num::unbounded() ==> y < next_bottom(fs, y, start),
        forall|i: int|
            0 <= i < fs.len() && (#[trigger] fs[i]).rect.bottom() > y ==> next_bottom(fs, y, start)
                <= fs[i].rect.bottom(),
    decreases fs.len(),
{
    if fs.len() > 0 {
        lemma_next_bottom(fs.drop_last(), y, start);
        assert forall|i: int| 0 <= i < fs.len() && (#[trigger] fs[i]).rect.bottom() > y implies (
        next_bottom(fs, y, start) <= fs[i].rect.bottom()) by {
            if i < fs.len() - 1 {
                assert(fs.drop_last()[i] == fs[i]);
            }
        }
    }
}

proof fn lemma_end_after(v: FloatsV, y: Num)
    ensures
        v.end_after(y) < Num::unbounded() ==> y < v.end_after(y),
        forall|i: int|
            0 <= i < v.left.len() && (#[trigger] v.left[i]).rect.bottom() > y ==> v.end_after(y)
                <= v.left[i].rect.bottom(),
        forall|i: int|
            0 <= i < v.right.len() && (#[trigger] v.right[i]).rect.bottom() > y ==> v.end_after(y)
                <= v.right[i].rect.bottom(),
{
    exact::lemma_unbounded();
    lemma_next_bottom(v.left, y, Num::unbounded());
    lemma_next_bottom(v.right, y, next_bottom(v.left, y, Num::unbounded()));
}

/// Where no float ends below a height, nothing at that height overlaps one.
proof fn lemma_below_all(v: FloatsV, rect: Rect)
    requires
        v.bounded(),
        !(rect.y < v.end_after(rect.y)) || !(v.end_after(rect.y) < Num::unbounded()),
    ensures
        v.leaves_clear(rect),
        forall|i: int|
            0 <= i < v.left.len() ==> !((#[trigger] v.left[i]).rect.bottom() > rect.y),
        forall|i: int|
            0 <= i < v.right.len() ==> !((#[trigger] v.right[i]).rect.bottom() > rect.y),
{
    exact::lemma_unbounded();
    lemma_end_after(v, rect.y);
}

proof fn lemma_nothing_meets(v: FloatsV, y: Num, end: Num, w: Num)
    requires
        forall|i: int| 0 <= i < v.left.len() ==> !((#[trigger] v.left[i]).rect.bottom() > y),
        forall|i: int| 0 <= i < v.right.len() ==> !((#[trigger] v.right[i]).rect.bottom() > y),
    ensures
        span_left(v.left, y, end) == Num::nought(),
        span_right(v.right, y, end, w) == w,
    decreases v.left.len() + v.right.len(),
{
    if v.left.len() > 0 {
        let u = FloatsV { left: v.left.drop_last(), right: v.right };
        assert forall|i: int| 0 <= i < u.left.len() implies !((
        #[trigger] u.left[i]).rect.bottom() > y) by {
            assert(u.left[i] == v.left[i]);
        }
        lemma_nothing_meets(u, y, end, w);
    } else if v.right.len() > 0 {
        let u = FloatsV { left: v.left, right: v.right.drop_last() };
        assert forall|i: int| 0 <= i < u.right.len() implies !((
        #[trigger] u.right[i]).rect.bottom() > y) by {
            assert(u.right[i] == v.right[i]);
        }
        lemma_nothing_meets(u, y, end, w);
    }
}

proof fn lemma_same_spans(fs: Seq<FloatExclusion>, a: Num, b: Num, ea: Num, eb: Num, w: Num)
    requires
        a.same(b),
        ea.nan() == eb.nan(),
        ea.rank() == eb.rank(),
    ensures
        span_left(fs, a, ea) == span_left(fs, b, eb),
        span_right(fs, a, ea, w) == span_right(fs, b, eb, w),
    decreases fs.len(),
{
    if fs.len() > 0 {
        lemma_same_spans(fs.drop_last(), a, b, ea, eb, w);
    }
}

/// A float fits at a height or not, whichever zero the height is.
proof fn lemma_same_fit(v: FloatsV, side: Float, w: Num, h: Num, a: Num, b: Num, cw: Num)
    requires
        a.same(b),
    ensures
        v.fits_at(side, w, h, a, cw) == v.fits_at(side, w, h, b, cw),
{
    exact::lemma_same_sum(a, b, h);
    lemma_same_spans(v.left, a, b, a + h, b + h, cw);
    lemma_same_spans(v.right, a, b, a + h, b + h, cw);
    let ra = v.place(side, w, h, a, cw);
    let rb = v.place(side, w, h, b, cw);
    assert(ra.x == rb.x);
    assert forall|o: Rect| ra.overlaps(o) == #[trigger] rb.overlaps(o) by {}
    assert(obstructed(v.left, ra) == obstructed(v.left, rb)) by {
        if obstructed(v.left, ra) {
            let i = choose|i: int| 0 <= i < v.left.len() && ra.overlaps((#[trigger] v.left[i]).rect);
            assert(rb.overlaps(v.left[i].rect));
        }
        if obstructed(v.left, rb) {
            let i = choose|i: int| 0 <= i < v.left.len() && rb.overlaps((#[trigger] v.left[i]).rect);
            assert(ra.overlaps(v.left[i].rect));
        }
    }
    assert(obstructed(v.right, ra) == obstructed(v.right, rb)) by {
        if obstructed(v.right, ra) {
            let i = choose|i: int|
                0 <= i < v.right.len() && ra.overlaps((#[trigger] v.right[i]).rect);
            assert(rb.overlaps(v.right[i].rect));
        }
        if obstructed(v.right, rb) {
            let i = choose|i: int|
                0 <= i < v.right.len() && rb.overlaps((#[trigger] v.right[i]).rect);
            assert(ra.overlaps(v.right[i].rect));
        }
    }
}

/// A float is placed at its start or below, where it overlaps no float, and no
/// higher end of a float, nor the start, has room for it.
pub proof fn lemma_placed_float_is_highest(
    v: FloatsV,
    side: Float,
    width: Num,
    height: Num,
    start: Num,
    container_width: Num,
)
    ensures
        ({
            let y = v.float_y(side, width, height, start, container_width);
            &&& !start.nan() ==> y >= start
            &&& v.bounded() ==> v.leaves_clear(
                v.place(side, width, height, y, container_width),
            )
            &&& start < y ==> !v.fits_at(side, width, height, start, container_width)
            &&& forall|i: int|
                0 <= i < v.left.len() && start < (#[trigger] v.left[i]).rect.bottom()
                    && v.left[i].rect.bottom() < y ==> !v.fits_at(
                    side,
                    width,
                    height,
                    v.left[i].rect.bottom(),
                    container_width,
                )
            &&& forall|i: int|
                0 <= i < v.right.len() && start < (#[trigger] v.right[i]).rect.bottom()
                    && v.right[i].rect.bottom() < y ==> !v.fits_at(
                    side,
                    width,
                    height,
                    v.right[i].rect.bottom(),
                    container_width,
                )
        }),
    decreases
            (if start < Num::unbounded() {
                Num::unbounded().rank() - start.rank()
            } else {
                0
            }),
{
    let next = v.end_after(start);
    let y = v.float_y(side, width, height, start, container_width);
    lemma_end_after(v, start);
    if v.fits_at(side, width, height, start, container_width) || !(start < next) || !(next
        < Num::unbounded()) {
        if v.bounded() && !v.fits_at(side, width, height, start, container_width) {
            lemma_below_all(v, v.place(side, width, height, start, container_width));
        }
    } else {
        lemma_placed_float_is_highest(v, side, width, height, next, container_width);
        assert forall|i: int|
            0 <= i < v.left.len() && start < (#[trigger] v.left[i]).rect.bottom()
                && v.left[i].rect.bottom() < y implies !v.fits_at(
            side,
            width,
            height,
            v.left[i].rect.bottom(),
            container_width,
        ) by {
            let b = v.left[i].rect.bottom();
            if b.same(next) {
                lemma_same_fit(v, side, width, height, b, next, container_width);
            }
        }
        assert forall|i: int|
            0 <= i < v.right.len() && start < (#[trigger] v.right[i]).rect.bottom()
                && v.right[i].rect.bottom() < y implies !v.fits_at(
            side,
            width,
            height,
            v.right[i].rect.bottom(),
            container_width,
        ) by {
            let b = v.right[i].rect.bottom();
            if b.same(next) {
                lemma_same_fit(v, side, width, height, b, next, container_width);
            }
        }
    }
}

/// A float no wider than its container is placed where it fits: inside the
/// container, overlapping no float. On the right, the difference of the two
/// widths must not round up.
pub proof fn lemma_placed_float_has_room(
    v: FloatsV,
    side: Float,
    width: Num,
    height: Num,
    start: Num,
    container_width: Num,
)
    requires
        v.bounded(),
        v.admits(side, width, container_width),
    ensures
        v.fits_at(
            side,
            width,
            height,
            v.float_y(side, width, height, start, container_width),
            container_width,
        ),
    decreases
            (if start < Num::unbounded() {
                Num::unbounded().rank() - start.rank()
            } else {
                0
            }),
{
    let next = v.end_after(start);
    if v.fits_at(side, width, height, start, container_width) {
    } else if !(start < next) || !(next < Num::unbounded()) {
        let rect = v.place(side, width, height, start, container_width);
        lemma_below_all(v, rect);
        lemma_nothing_meets(v, start, start + height, container_width);
        exact::lemma_nothing_added(width);
        crate::margin_collapse::lemma_zero_is_number();
    } else {
        lemma_placed_float_has_room(v, side, width, height, next, container_width);
    }
}

/// Over one step of the height, the edges of a range are those at its start
/// and those of the rest of the range.
proof fn lemma_step_left(fs: Seq<FloatExclusion>, c: Num, next: Num, end: Num)
    requires
        c < next,
        c < end,
        forall|i: int|
            0 <= i < fs.len() ==> {
                let r = (#[trigger] fs[i]).rect;
                (r.y <= c || next <= r.y) && r.y < r.bottom() && !r.right().nan()
            },
    ensures
        !span_left(fs, c, end).nan(),
        !left_edge(fs, c).nan(),
        !span_left(fs, next, end).nan(),
        next >= end ==> span_left(fs, c, end) == left_edge(fs, c),
        next < end ==> span_left(fs, c, end).rank() == if left_edge(fs, c).rank() < span_left(
            fs,
            next,
            end,
        ).rank() {
            span_left(fs, next, end).rank()
        } else {
            left_edge(fs, c).rank()
        },
    decreases fs.len(),
{
    crate::margin_collapse::lemma_zero_is_number();
    if fs.len() > 0 {
        assert forall|i: int| 0 <= i < fs.drop_last().len() implies {
            let r = (#[trigger] fs.drop_last()[i]).rect;
            (r.y <= c || next <= r.y) && r.y < r.bottom() && !r.right().nan()
        } by {
            assert(fs.drop_last()[i] == fs[i]);
        }
        lemma_step_left(fs.drop_last(), c, next, end);
        assert(fs[fs.len() - 1] == fs.last());
    }
}

proof fn lemma_step_right(fs: Seq<FloatExclusion>, c: Num, next: Num, end: Num, w: Num)
    requires
        c < next,
        c < end,
        !w.nan(),
        forall|i: int|
            0 <= i < fs.len() ==> {
                let r = (#[trigger] fs[i]).rect;
                (r.y <= c || next <= r.y) && r.y < r.bottom() && !r.x.nan()
            },
    ensures
        !span_right(fs, c, end, w).nan(),
        !right_edge(fs, c, w).nan(),
        !span_right(fs, next, end, w).nan(),
        next >= end ==> span_right(fs, c, end, w) == right_edge(fs, c, w),
        next < end ==> span_right(fs, c, end, w).rank() == if span_right(fs, next, end, w).rank()
            < right_edge(fs, c, w).rank() {
            span_right(fs, next, end, w).rank()
        } else {
            right_edge(fs, c, w).rank()
        },
    decreases fs.len(),
{
    if fs.len() > 0 {
        assert forall|i: int| 0 <= i < fs.drop_last().len() implies {
            let r = (#[trigger] fs.drop_last()[i]).rect;
            (r.y <= c || next <= r.y) && r.y < r.bottom() && !r.x.nan()
        } by {
            assert(fs.drop_last()[i] == fs[i]);
        }
        lemma_step_right(fs.drop_last(), c, next, end, w);
        assert(fs[fs.len() - 1] == fs.last());
    }
}

/// Whether floats start and end at whole heights, and each has some height.
pub open spec fn on_whole_heights(fs: Seq<FloatExclusion>) -> bool {
    forall|i: int|
        0 <= i < fs.len() ==> {
            let r = (#[trigger] fs[i]).rect;
            r.y.counts() && r.bottom().counts() && r.y < r.bottom() && !r.x.nan()
                && !r.right().nan()
        }
}

/// From a whole height to a whole height, beside floats at whole heights, the
/// free space is bounded by the floats in the range: on the left by the
/// furthest right edge of the left floats that meet it, on the right by the
/// furthest left edge of the right ones.
pub proof fn lemma_free_space_over_range(
    v: FloatsV,
    y: Num,
    end: Num,
    container_width: Num,
    left: Num,
    right: Num,
)
    requires
        y.counts(),
        end.counts(),
        y < end,
        !container_width.nan(),
        !left.nan(),
        !right.nan(),
        on_whole_heights(v.left),
        on_whole_heights(v.right),
    ensures
        ({
            let (l, r) = v.narrowed(y, end, container_width, left, right);
            &&& l.same(Num::larger(left, span_left(v.left, y, end)))
            &&& r.same(Num::smaller(right, span_right(v.right, y, end, container_width)))
        }),
    decreases end.steps() - y.steps(),
{
    let next = y + Num::whole(1);
    exact::lemma_compare_steps(y, end);
    exact::lemma_count_up(y);
    exact::lemma_steps(next, y.steps() + 1);
    exact::lemma_compare_steps(next, end);
    exact::lemma_compare_steps(end, next);
    assert forall|i: int| 0 <= i < v.left.len() implies {
        let r = (#[trigger] v.left[i]).rect;
        (r.y <= y || next <= r.y) && r.y < r.bottom() && !r.right().nan()
    } by {
        exact::lemma_compare_steps(v.left[i].rect.y, y);
        exact::lemma_compare_steps(next, v.left[i].rect.y);
    }
    assert forall|i: int| 0 <= i < v.right.len() implies {
        let r = (#[trigger] v.right[i]).rect;
        (r.y <= y || next <= r.y) && r.y < r.bottom() && !r.x.nan()
    } by {
        exact::lemma_compare_steps(v.right[i].rect.y, y);
        exact::lemma_compare_steps(next, v.right[i].rect.y);
    }
    lemma_step_left(v.left, y, next, end);
    lemma_step_right(v.right, y, next, end, container_width);
    let (l, r) = v.edges(y, container_width);
    let inner_left = Num::larger(left, l);
    let inner_right = Num::smaller(right, r);
    if next < end {
        lemma_free_space_over_range(v, next, end, container_width, inner_left, inner_right);
    } else {
        assert(v.narrowed(next, end, container_width, inner_left, inner_right) == (
            inner_left,
            inner_right,
        ));
    }
}

/// Clearing both sides clears each side.
pub proof fn lemma_clear_both_is_lowest(v: FloatsV, i: int)
    requires
        0 <= i < v.left.len() && !v.left[i].rect.bottom().nan(),
    ensures
        v.cleared(Clear::Both) >= v.left[i].rect.bottom(),
{
    lemma_lowest_bounds(v.left, Num::nought(), i);
    lemma_lowest_from(v.right, lowest(v.left, Num::nought()));
}

proof fn lemma_lowest_bounds(fs: Seq<FloatExclusion>, start: Num, i: int)
    requires
        0 <= i < fs.len(),
        !fs[i].rect.bottom().nan(),
    ensures
        lowest(fs, start) >= fs[i].rect.bottom(),
    decreases fs.len(),
{
    if i < fs.len() - 1 {
        lemma_lowest_bounds(fs.drop_last(), start, i);
        assert(fs.drop_last()[i] == fs[i]);
    }
}

proof fn lemma_lowest_from(fs: Seq<FloatExclusion>, start: Num)
    requires
        !start.nan(),
    ensures
        lowest(fs, start) >= start,
    decreases fs.len(),
{
    if fs.len() > 0 {
        lemma_lowest_from(fs.drop_last(), start);
    }
}

proof fn lemma_take_step(fs: Seq<FloatExclusion>, i: int)
    requires
        0 <= i < fs.len(),
    ensures
        fs.take(i + 1).drop_last() == fs.take(i),
        fs.take(i + 1).last() == fs[i],
        fs.take(0) == Seq::<FloatExclusion>::empty(),
{
    assert(fs.take(i + 1).drop_last() =~= fs.take(i));
    assert(fs.take(0) =~= Seq::<FloatExclusion>::empty());
}

fn lowest_of(fs: &Vec<FloatExclusion>, start: Num) -> (r: Num)
    ensures
        r == lowest(fs@, start),
{
    let mut y = start;
    let mut i: usize = 0;
    while i < fs.len()
        invariant
            i <= fs.len(),
            y == lowest(fs@.take(i as int), start),
        decreases fs.len() - i,
    {
        proof {
            lemma_take_step(fs@, i as int);
        }
        y = y.max(fs[i].rect.bottom());
        i = i + 1;
    }
    proof {
        assert(fs@.take(i as int) =~= fs@);
    }
    y
}

fn next_bottom_of(fs: &Vec<FloatExclusion>, y: Num, start: Num) -> (r: Num)
    ensures
        r == next_bottom(fs@, y, start),
{
    let mut next = start;
    let mut i: usize = 0;
    while i < fs.len()
        invariant
            i <= fs.len(),
            next == next_bottom(fs@.take(i as int), y, start),
        decreases fs.len() - i,
    {
        proof {
            lemma_take_step(fs@, i as int);
        }
        if fs[i].rect.bottom() > y {
            next = next.min(fs[i].rect.bottom());
        }
        i = i + 1;
    }
    proof {
        assert(fs@.take(i as int) =~= fs@);
    }
    next
}

fn left_of_span(fs: &Vec<FloatExclusion>, y: Num, end: Num) -> (r: Num)
    ensures
        r == span_left(fs@, y, end),
{
    let mut left = Num::zero();
    let mut i: usize = 0;
    while i < fs.len()
        invariant
            i <= fs.len(),
            left == span_left(fs@.take(i as int), y, end),
        decreases fs.len() - i,
    {
        proof {
            lemma_take_step(fs@, i as int);
        }
        let rect = fs[i].rect;
        if rect.y < end && rect.bottom() > y {
            left = left.max(rect.right());
        }
        i = i + 1;
    }
    proof {
        assert(fs@.take(i as int) =~= fs@);
    }
    left
}

fn right_of_span(fs: &Vec<FloatExclusion>, y: Num, end: Num, container_width: Num) -> (r: Num)
    ensures
        r == span_right(fs@, y, end, container_width),
{
    let mut right = container_width;
    let mut i: usize = 0;
    while i < fs.len()
        invariant
            i <= fs.len(),
            right == span_right(fs@.take(i as int), y, end, container_width),
        decreases fs.len() - i,
    {
        proof {
            lemma_take_step(fs@, i as int);
        }
        let rect = fs[i].rect;
        if rect.y < end && rect.bottom() > y {
            right = right.min(rect.x);
        }
        i = i + 1;
    }
    proof {
        assert(fs@.take(i as int) =~= fs@);
    }
    right
}

fn push_meeting(fs: &Vec<FloatExclusion>, y_start: Num, y_end: Num, out: &mut Vec<FloatExclusion>)
    ensures
        final(out)@ == old(out)@ + meeting(fs@, y_start, y_end),
{
    let mut i: usize = 0;
    while i < fs.len()
        invariant
            i <= fs.len(),
            out@ == old(out)@ + meeting(fs@.take(i as int), y_start, y_end),
        decreases fs.len() - i,
    {
        proof {
            lemma_take_step(fs@, i as int);
        }
        if fs[i].rect.y < y_end && fs[i].rect.bottom() > y_start {
            out.push(fs[i]);
        }
        i = i + 1;
    }
    proof {
        assert(fs@.take(i as int) =~= fs@);
    }
}

fn keep_below(fs: &Vec<FloatExclusion>, y: Num) -> (r: Vec<FloatExclusion>)
    ensures
        r@ == below(fs@, y),
{
    let mut out: Vec<FloatExclusion> = Vec::new();
    let mut i: usize = 0;
    while i < fs.len()
        invariant
            i <= fs.len(),
            out@ == below(fs@.take(i as int), y),
        decreases fs.len() - i,
    {
        proof {
            lemma_take_step(fs@, i as int);
        }
        if fs[i].rect.bottom() > y {
            out.push(fs[i]);
        }
        i = i + 1;
    }
    proof {
        assert(fs@.take(i as int) =~= fs@);
    }
    out
}

fn any_spans(fs: &Vec<FloatExclusion>, y: Num) -> (r: bool)
    ensures
        r == occupied(fs@, y),
{
    let mut i: usize = 0;
    while i < fs.len()
        invariant
            i <= fs.len(),
            forall|j: int| 0 <= j < i ==> !(#[trigger] fs@[j]).spans(y),
        decreases fs.len() - i,
    {
        if y >= fs[i].rect.y && y < fs[i].rect.bottom() {
            assert(fs@[i as int].spans(y));
            return true;
        }
        i = i + 1;
    }
    false
}

fn any_overlaps(fs: &Vec<FloatExclusion>, rect: &Rect) -> (r: bool)
    ensures
        r == obstructed(fs@, *rect),
{
    let mut i: usize = 0;
    while i < fs.len()
        invariant
            i <= fs.len(),
            forall|j: int| 0 <= j < i ==> !rect.overlaps((#[trigger] fs@[j]).rect),
        decreases fs.len() - i,
    {
        if rects_overlap(rect, &fs[i].rect) {
            assert(rect.overlaps(fs@[i as int].rect));
            return true;
        }
        i = i + 1;
    }
    false
}

impl Default for FloatContext {
    fn default() -> (r: FloatContext)
        ensures
            r@ == FloatsV::none(),
    {
        FloatContext::new()
    }
}

impl View for FloatContext {
    type V = FloatsV;

    open spec fn view(&self) -> FloatsV {
        FloatsV { left: self.left_floats@, right: self.right_floats@ }
    }
}

impl FloatContext {
    /// Create a new empty float context.
    pub fn new() -> (r: FloatContext)
        ensures
            r@ == FloatsV::none(),
    {
        FloatContext { left_floats: Vec::new(), right_floats: Vec::new() }
    }

    /// Add a left float.
    pub fn add_left(&mut self, rect: Rect)
        ensures
            final(self)@ == (FloatsV {
                left: old(self)@.left.push(FloatExclusion { rect, float_type: Float::Left }),
                right: old(self)@.right,
            }),
    {
        self.left_floats.push(FloatExclusion { rect, float_type: Float::Left });
    }

    /// Add a right float.
    pub fn add_right(&mut self, rect: Rect)
        ensures
            final(self)@ == (FloatsV {
                left: old(self)@.left,
                right: old(self)@.right.push(FloatExclusion { rect, float_type: Float::Right }),
            }),
    {
        self.right_floats.push(FloatExclusion { rect, float_type: Float::Right });
    }

    /// Get available width at a given y position: the left and right edges of
    /// the free space.
    pub fn available_width(&self, y: Num, container_width: Num) -> (r: (Num, Num))
        ensures
            r == self@.edges(y, container_width),
    {
        let mut left = Num::zero();
        let mut i: usize = 0;
        while i < self.left_floats.len()
            invariant
                i <= self.left_floats.len(),
                left == left_edge(self.left_floats@.take(i as int), y),
            decreases self.left_floats.len() - i,
        {
            proof {
                lemma_take_step(self.left_floats@, i as int);
            }
            let rect = self.left_floats[i].rect;
            if y >= rect.y && y < rect.bottom() {
                left = left.max(rect.right());
            }
            i = i + 1;
        }
        let mut right = container_width;
        let mut j: usize = 0;
        while j < self.right_floats.len()
            invariant
                j <= self.right_floats.len(),
                right == right_edge(self.right_floats@.take(j as int), y, container_width),
            decreases self.right_floats.len() - j,
        {
            proof {
                lemma_take_step(self.right_floats@, j as int);
            }
            let rect = self.right_floats[j].rect;
            if y >= rect.y && y < rect.bottom() {
                right = right.min(rect.x);
            }
            j = j + 1;
        }
        proof {
            assert(self.left_floats@.take(i as int) =~= self.left_floats@);
            assert(self.right_floats@.take(j as int) =~= self.right_floats@);
        }
        (left, right)
    }

    /// The y position below the floats that `clear` names.
    pub fn clear(&mut self, clear: Clear) -> (r: Num)
        ensures
            r == old(self)@.cleared(clear),
            *final(self) == *old(self),
    {
        self.below_cleared(clear)
    }

    pub(crate) fn below_cleared(&self, clear: Clear) -> (r: Num)
        ensures
            r == self@.cleared(clear),
    {
        match clear {
            Clear::Left => lowest_of(&self.left_floats, Num::zero()),
            Clear::Right => lowest_of(&self.right_floats, Num::zero()),
            Clear::Both => {
                let y = lowest_of(&self.left_floats, Num::zero());
                lowest_of(&self.right_floats, y)
            },
            Clear::Unset => Num::zero(),
        }
    }

    /// Get the clear position for all floats (bottom of lowest float).
    pub fn clear_all(&self) -> (r: Num)
        ensures
            r == self@.cleared(Clear::Both),
    {
        let y = lowest_of(&self.left_floats, Num::zero());
        lowest_of(&self.right_floats, y)
    }

    /// Find the best position for a new float of the given size: the highest
    /// one, from `start_y` on, where it fits without overlapping the floats.
    pub fn find_float_position(
        &self,
        float_type: Float,
        width: Num,
        height: Num,
        start_y: Num,
        container_width: Num,
    ) -> (r: (Num, Num))
        ensures
            float_type == Float::Unset ==> r == (Num::nought(), start_y),
            float_type != Float::Unset ==> ({
                let y = self@.float_y(float_type, width, height, start_y, container_width);
                let rect = self@.place(float_type, width, height, y, container_width);
                &&& r == (rect.x, y)
                &&& !start_y.nan() ==> y >= start_y
                &&& self@.bounded() ==> self@.leaves_clear(rect)
                &&& self@.bounded() && self@.admits(float_type, width, container_width)
                    ==> self@.fits(rect, container_width)
                &&& start_y < y ==> !self@.fits_at(
                    float_type,
                    width,
                    height,
                    start_y,
                    container_width,
                )
                &&& forall|i: int|
                    0 <= i < self@.left.len() && start_y < (
                    #[trigger] self@.left[i]).rect.bottom() && self@.left[i].rect.bottom() < y
                        ==> !self@.fits_at(
                        float_type,
                        width,
                        height,
                        self@.left[i].rect.bottom(),
                        container_width,
                    )
                &&& forall|i: int|
                    0 <= i < self@.right.len() && start_y < (
                    #[trigger] self@.right[i]).rect.bottom() && self@.right[i].rect.bottom() < y
                        ==> !self@.fits_at(
                        float_type,
                        width,
                        height,
                        self@.right[i].rect.bottom(),
                        container_width,
                    )
            }),
    {
        if float_type == Float::Unset {
            return (Num::zero(), start_y);
        }
        proof {
            lemma_placed_float_is_highest(
                self@,
                float_type,
                width,
                height,
                start_y,
                container_width,
            );
            if self@.bounded() && self@.admits(float_type, width, container_width) {
                lemma_placed_float_has_room(
                    self@,
                    float_type,
                    width,
                    height,
                    start_y,
                    container_width,
                );
            }
        }
        let mut y = start_y;
        loop
            invariant
                self@.float_y(float_type, width, height, start_y, container_width) == self@.float_y(
                    float_type,
                    width,
                    height,
                    y,
                    container_width,
                ),
            ensures
                y == self@.float_y(float_type, width, height, start_y, container_width),
            decreases
                    (if y < Num::unbounded() {
                        Num::unbounded().rank() - y.rank()
                    } else {
                        0
                    }),
        {
            let rect = self.place_at(float_type, width, height, y, container_width);
            if self.float_fits(rect.x, y, width, height, container_width) {
                break;
            }
            let next = next_bottom_of(&self.left_floats, y, Num::infinity());
            let next = next_bottom_of(&self.right_floats, y, next);
            if !(y < next) || !(next < Num::infinity()) {
                break;
            }
            y = next;
        }
        let rect = self.place_at(float_type, width, height, y, container_width);
        (rect.x, y)
    }

    fn place_at(&self, side: Float, width: Num, height: Num, y: Num, container_width: Num) -> (r:
        Rect)
        ensures
            r == self@.place(side, width, height, y, container_width),
    {
        let end = y + height;
        let x = if side == Float::Right {
            right_of_span(&self.right_floats, y, end, container_width) - width
        } else {
            left_of_span(&self.left_floats, y, end)
        };
        Rect { x, y, width, height }
    }

    /// Find the next y position where a float ends.
    pub fn next_clear_y_after(&self, y: Num) -> (r: Num)
        ensures
            r == self@.next_end(y),
    {
        let next = next_bottom_of(&self.left_floats, y, Num::max_value());
        let next = next_bottom_of(&self.right_floats, y, next);
        if next == Num::max_value() {
            y
        } else {
            next
        }
    }

    /// Get the available rectangle at a given y position for content: the x
    /// and width of the free space over the height.
    pub fn available_rect(&self, y: Num, height: Num, container_width: Num) -> (r: (Num, Num))
        ensures
            ({
                let (left, right) = self@.narrowed(
                    y,
                    y + height,
                    container_width,
                    Num::nought(),
                    container_width,
                );
                r == (left, Num::larger(right - left, Num::nought()))
            }),
    {
        let end = y + height;
        let mut left = Num::zero();
        let mut right = container_width;
        let mut c = y;
        let mut moving = true;
        while moving && c < end
            invariant
                self@.narrowed(y, end, container_width, Num::nought(), container_width) == if moving {
                    self@.narrowed(c, end, container_width, left, right)
                } else {
                    (left, right)
                },
            decreases (if moving && c < end { end.rank() - c.rank() } else { 0 }),
        {
            let (l, r) = self.available_width(c, container_width);
            left = left.max(l);
            right = right.min(r);
            let next = c + Num::of(1);
            if c < next {
                c = next;
            } else {
                moving = false;
            }
        }
        (left, (right - left).max(Num::zero()))
    }

    /// Check if there are any active floats at the given y position.
    pub fn has_floats_at(&self, y: Num) -> (r: bool)
        ensures
            r == (occupied(self@.left, y) || occupied(self@.right, y)),
    {
        any_spans(&self.left_floats, y) || any_spans(&self.right_floats, y)
    }

    /// Check if a float of the given size fits at the specified position: it
    /// stays inside the container and overlaps no float.
    pub fn float_fits(
        &self,
        x: Num,
        y: Num,
        width: Num,
        height: Num,
        container_width: Num,
    ) -> (r: bool)
        ensures
            r == self@.fits(Rect { x, y, width, height }, container_width),
    {
        if x < Num::zero() || x + width > container_width {
            return false;
        }
        let rect = Rect { x, y, width, height };
        !any_overlaps(&self.left_floats, &rect) && !any_overlaps(&self.right_floats, &rect)
    }

    /// Get all floats that overlap with the given y range, left ones first.
    pub fn floats_in_range(&self, y_start: Num, y_end: Num) -> (r: Vec<FloatExclusion>)
        ensures
            r@ == meeting(self@.left, y_start, y_end) + meeting(self@.right, y_start, y_end),
    {
        let mut out: Vec<FloatExclusion> = Vec::new();
        push_meeting(&self.left_floats, y_start, y_end, &mut out);
        push_meeting(&self.right_floats, y_start, y_end, &mut out);
        out
    }

    /// Remove floats that are completely above the given y position.
    pub fn remove_floats_above(&mut self, y: Num)
        ensures
            final(self)@ == (FloatsV {
                left: below(old(self)@.left, y),
                right: below(old(self)@.right, y),
            }),
    {
        self.left_floats = keep_below(&self.left_floats, y);
        self.right_floats = keep_below(&self.right_floats, y);
    }

    /// Check if the context has any floats.
    pub fn is_empty(&self) -> (r: bool)
        ensures
            r == (self@.left.len() == 0 && self@.right.len() == 0),
    {
        self.left_floats.len() == 0 && self.right_floats.len() == 0
    }

    /// Get the total number of floats.
    pub fn float_count(&self) -> (r: usize)
        requires
            self@.left.len() + self@.right.len() <= usize::MAX,
        ensures
            r == self@.left.len() + self@.right.len(),
    {
        self.left_floats.len() + self.right_floats.len()
    }
}

} // verus!

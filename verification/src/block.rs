//! Block boxes on their own: width, edges, height, and positioning offsets.
use vstd::prelude::*;
use crate::boxes::{
    box_views, BoxV, IntrinsicWidths, LayoutBox, OwnV, Position, PositionOffsets, StickyState,
};
use crate::floats::Float;
use crate::geometry::{Dimensions, EdgeSizes, Rect};
use crate::num::Num;
use crate::sizing::{self, aspect_ratio_content_height};
use crate::style::{BoxSizing, Length};
use crate::tree::{self, shifted_all, translate_all};

verus! {

impl OwnV {
    /// A length of the box in pixels.
    pub open spec fn px(self, vp: (Num, Num), l: Length, container: Num) -> Num {
        l.px_in(self.style.font_px(), Num::whole(16), container, vp.0, vp.1)
    }

    /// Whether sizes name the border box.
    pub open spec fn border_box(self) -> bool {
        self.style.box_sizing == BoxSizing::BorderBox
    }

    /// The offsets of the box, percentages resolved against a containing block.
    pub open spec fn resolved_in(self, cb: Dimensions) -> PositionOffsets {
        PositionOffsets {
            top: resolved_side(self.offsets.top, self.style.top, cb.content.height),
            bottom: resolved_side(self.offsets.bottom, self.style.bottom, cb.content.height),
            left: resolved_side(self.offsets.left, self.style.left, cb.content.width),
            right: resolved_side(self.offsets.right, self.style.right, cb.content.width),
        }
    }
}

/// One offset: the one already resolved, else a percentage of the basis.
pub open spec fn resolved_side(pre: Option<Num>, given: Option<Length>, basis: Num) -> Option<Num> {
    match pre {
        Some(v) => Some(v),
        None => match given {
            Some(Length::Percent(p)) => Some(p / Num::whole(100) * basis),
            _ => None,
        },
    }
}

/// Whether `width: auto` shrinks to fit: out of flow, and not stretched
/// between two offsets.
pub open spec fn shrinks(position: Position, offsets: PositionOffsets) -> bool {
    position.is_out_of_flow() && !(offsets.left is Some && offsets.right is Some)
}

/// With `width: auto`, does an out-of-flow box shrink to fit?
pub fn auto_width_shrinks_to_fit(position: Position, offsets: &PositionOffsets) -> (r: bool)
    ensures
        r == shrinks(position, *offsets),
{
    position.is_out_of_flow() && !(offsets.left.is_some() && offsets.right.is_some())
}

/// The shrink-to-fit content width: the available width, no less than the
/// least the content needs and no more than it can use.
pub open spec fn fit_width(w: IntrinsicWidths, available: Num) -> Num {
    Num::smaller(
        Num::larger(w.own_min_content - w.padding_border, available),
        Num::larger(w.own_max_content - w.padding_border, Num::nought()),
    )
}

/// Shrink-to-fit content width of a box.
pub fn shrink_to_fit_content_width(layout_box: &LayoutBox, available: Num) -> (r: Num)
    ensures
        r == fit_width(layout_box.intrinsic, available),
{
    let w = layout_box.intrinsic;
    let preferred_minimum = w.own_min_content - w.padding_border;
    let preferred = (w.own_max_content - w.padding_border).max(Num::zero());
    preferred_minimum.max(available).min(preferred)
}

/// The horizontal edges of a block: margins (an `auto` margin counts as zero),
/// borders and paddings.
pub struct SidesV {
    pub margin_left: Num,
    pub margin_right: Num,
    pub border_left: Num,
    pub border_right: Num,
    pub padding_left: Num,
    pub padding_right: Num,
}

/// The horizontal edges of a block in a containing block.
pub open spec fn sides(o: OwnV, vp: (Num, Num), w: Num) -> SidesV {
    SidesV {
        margin_left: o.px(vp, o.style.margin_left, w),
        margin_right: o.px(vp, o.style.margin_right, w),
        border_left: o.px(vp, o.style.border_left_width, w),
        border_right: o.px(vp, o.style.border_right_width, w),
        padding_left: o.px(vp, o.style.padding_left, w),
        padding_right: o.px(vp, o.style.padding_right, w),
    }
}

/// A border-box size as a content size: padding and border come out of it,
/// down to zero.
pub open spec fn inside(s: SidesV, size: Num) -> Num {
    Num::larger(
        size - s.padding_left - s.padding_right - s.border_left - s.border_right,
        Num::nought(),
    )
}

/// The content width before the minimal and maximal width apply.
pub open spec fn tentative_width(o: OwnV, vp: (Num, Num), cb: Dimensions) -> Num {
    let s = sides(o, vp, cb.content.width);
    if o.style.width.is_auto() {
        let available = Num::larger(
            cb.content.width - (s.margin_left + s.margin_right + s.border_left + s.border_right
                + s.padding_left + s.padding_right),
            Num::nought(),
        );
        if o.style.display.is_atomic_inline() {
            let pb = s.border_left + s.border_right + s.padding_left + s.padding_right;
            let preferred = Num::larger(o.intrinsic.max_content - pb, Num::nought());
            let least = Num::larger(o.intrinsic.min_content - pb, Num::nought());
            Num::larger(least, Num::smaller(available, preferred))
        } else if shrinks(o.position, o.resolved_in(cb)) {
            fit_width(o.intrinsic, available)
        } else {
            available
        }
    } else if o.border_box() {
        inside(s, o.px(vp, o.style.width, cb.content.width))
    } else {
        o.px(vp, o.style.width, cb.content.width)
    }
}

/// The least content width.
pub open spec fn min_width(o: OwnV, vp: (Num, Num), cb: Dimensions) -> Num {
    let raw = o.px(vp, o.style.min_width, cb.content.width);
    if o.border_box() && raw > Num::nought() {
        inside(sides(o, vp, cb.content.width), raw)
    } else {
        raw
    }
}

/// The largest content width.
pub open spec fn max_width(o: OwnV, vp: (Num, Num), cb: Dimensions) -> Num {
    if o.style.max_width is Auto || o.style.max_width is Zero {
        Num::unbounded()
    } else if o.border_box() {
        inside(
            sides(o, vp, cb.content.width),
            o.px(vp, o.style.max_width, cb.content.width),
        )
    } else {
        o.px(vp, o.style.max_width, cb.content.width)
    }
}

/// The content width of a block. The maximal width outranks the minimal one.
pub open spec fn used_width(o: OwnV, vp: (Num, Num), cb: Dimensions) -> Num {
    Num::smaller(
        Num::larger(tentative_width(o, vp, cb), min_width(o, vp, cb)),
        max_width(o, vp, cb),
    )
}

/// The horizontal margins: `auto` margins share the space that is left, save
/// on floats.
pub open spec fn used_margins(o: OwnV, vp: (Num, Num), cb: Dimensions, width: Num) -> (Num, Num) {
    let s = sides(o, vp, cb.content.width);
    let left_auto = o.style.margin_left.is_auto() && o.float == Float::Unset;
    let right_auto = o.style.margin_right.is_auto() && o.float == Float::Unset;
    let free = cb.content.width - width - s.border_left - s.border_right - s.padding_left
        - s.padding_right - s.margin_left - s.margin_right;
    if !(left_auto || right_auto) || !(free > Num::nought()) {
        (s.margin_left, s.margin_right)
    } else if left_auto && right_auto {
        (s.margin_left + free / Num::whole(2), s.margin_right + free / Num::whole(2))
    } else if left_auto {
        (s.margin_left + free, s.margin_right)
    } else {
        (s.margin_left, s.margin_right + free)
    }
}

/// Dimensions with the width and horizontal edges of a block.
#[verifier::opaque]
pub open spec fn with_widths(o: OwnV, vp: (Num, Num), d: Dimensions, cb: Dimensions) -> Dimensions {
    let s = sides(o, vp, cb.content.width);
    let width = used_width(o, vp, cb);
    let (margin_left, margin_right) = used_margins(o, vp, cb, width);
    Dimensions {
        content: Rect { width, ..d.content },
        margin: EdgeSizes { left: margin_left, right: margin_right, ..d.margin },
        border: EdgeSizes { left: s.border_left, right: s.border_right, ..d.border },
        padding: EdgeSizes { left: s.padding_left, right: s.padding_right, ..d.padding },
    }
}

/// Dimensions with the vertical edges of a block.
#[verifier::opaque]
pub open spec fn with_vertical(o: OwnV, vp: (Num, Num), d: Dimensions, cb: Dimensions) -> Dimensions {
    let w = cb.content.width;
    Dimensions {
        content: d.content,
        margin: EdgeSizes {
            top: o.px(vp, o.style.margin_top, w),
            bottom: o.px(vp, o.style.margin_bottom, w),
            ..d.margin
        },
        border: EdgeSizes {
            top: o.px(vp, o.style.border_top_width, w),
            bottom: o.px(vp, o.style.border_bottom_width, w),
            ..d.border
        },
        padding: EdgeSizes {
            top: o.px(vp, o.style.padding_top, w),
            bottom: o.px(vp, o.style.padding_bottom, w),
            ..d.padding
        },
    }
}

/// Dimensions placed below what the containing block already holds, with a
/// given top margin.
#[verifier::opaque]
pub open spec fn placed(d: Dimensions, cb: Dimensions, margin_top: Num) -> Dimensions {
    Dimensions {
        content: Rect {
            x: cb.content.x + d.margin.left + d.border.left + d.padding.left,
            y: cb.content.y + cb.content.height + margin_top + d.border.top + d.padding.top,
            ..d.content
        },
        ..d
    }
}

/// Padding and border above and below the content.
pub open spec fn vertical_edges(d: Dimensions) -> Num {
    d.padding.top + d.padding.bottom + d.border.top + d.border.bottom
}

/// A specified height as a content height.
pub open spec fn content_height(o: OwnV, d: Dimensions, specified: Num) -> Num {
    if o.border_box() {
        Num::larger(specified - vertical_edges(d), Num::nought())
    } else {
        specified
    }
}

/// What a percentage height is a percentage of: the definite height of the
/// containing block, else the viewport.
pub open spec fn height_base(vp: (Num, Num), base: Option<Num>) -> Option<Num> {
    match base {
        Some(h) => Some(h),
        None => if vp.1 > Num::nought() {
            Some(vp.1)
        } else {
            None
        },
    }
}

/// The specified height in pixels, where there is one that can be resolved.
pub open spec fn specified_height(o: OwnV, vp: (Num, Num), base: Option<Num>) -> Option<Num> {
    match o.style.height {
        Length::Px(h) => Some(h),
        Length::Percent(p) => match height_base(vp, base) {
            Some(h) => Some(p / Num::whole(100) * h),
            None => None,
        },
        Length::Calc(sum) => {
            let reference = if base is None && sum.percent.same(Num::nought()) {
                Some(Num::nought())
            } else {
                height_base(vp, base)
            };
            match reference {
                Some(h) => Some(o.px(vp, o.style.height, h)),
                None => None,
            }
        },
        Length::Vh(v) => if vp.1 > Num::nought() {
            Some(v / Num::whole(100) * vp.1)
        } else {
            None
        },
        Length::Em(em) => Some(em * o.style.font_px()),
        Length::Rem(rem) => Some(rem * Num::whole(16)),
        _ => None,
    }
}

/// A minimal or maximal height in pixels, or what stands for an absent one.
pub open spec fn height_limit(o: OwnV, vp: (Num, Num), l: Length, absent: Num) -> Num {
    match l {
        Length::Px(px) => px,
        Length::Vh(v) => v / Num::whole(100) * vp.1,
        Length::Percent(p) => p / Num::whole(100) * vp.1,
        Length::Calc(_) => o.px(vp, l, vp.1),
        _ => absent,
    }
}

/// The content height before the minimal and maximal height apply.
pub open spec fn tentative_height(
    o: OwnV,
    vp: (Num, Num),
    d: Dimensions,
    base: Option<Num>,
) -> Num {
    match specified_height(o, vp, base) {
        Some(h) => content_height(o, d, h),
        None => match o.style.height {
            Length::Percent(_) => d.content.height,
            Length::Calc(_) => d.content.height,
            Length::Vh(_) => d.content.height,
            _ => {
                let edges_w = d.padding.left + d.padding.right + d.border.left + d.border.right;
                match sizing::ratio_height(
                    o.style,
                    d.content.width,
                    edges_w,
                    vertical_edges(d),
                ) {
                    Some(h) => h,
                    None => d.content.height,
                }
            },
        },
    }
}

/// The content height of a block. The maximal height outranks the minimal one.
#[verifier::opaque]
pub open spec fn used_height(o: OwnV, vp: (Num, Num), d: Dimensions, base: Option<Num>) -> Num {
    let h = tentative_height(o, vp, d, base);
    let min_raw = height_limit(o, vp, o.style.min_height, Num::nought());
    let min = if o.border_box() && min_raw > Num::nought() {
        Num::larger(min_raw - vertical_edges(d), Num::nought())
    } else {
        min_raw
    };
    let h = if h < min {
        min
    } else {
        h
    };
    let max_raw = height_limit(o, vp, o.style.max_height, Num::unbounded());
    let max = if o.border_box() && max_raw < Num::unbounded() {
        Num::larger(max_raw - vertical_edges(d), Num::nought())
    } else {
        max_raw
    };
    if h > max {
        max
    } else {
        h
    }
}

/// Dimensions with another content height.
pub open spec fn with_content_height(d: Dimensions, height: Num) -> Dimensions {
    Dimensions { content: Rect { height, ..d.content }, ..d }
}

/// Dimensions with the height of a block.
pub open spec fn with_height(o: OwnV, vp: (Num, Num), d: Dimensions, base: Option<Num>) -> Dimensions {
    with_content_height(d, used_height(o, vp, d, base))
}

/// The content height that percentage heights of children are taken of, where
/// it does not depend on the children.
#[verifier::opaque]
pub open spec fn definite_height(o: OwnV, vp: (Num, Num), d: Dimensions, cb_height: Num) -> Option<
    Num,
> {
    let specified = match o.style.height {
        Length::Px(px) => Some(px),
        Length::Percent(p) => if cb_height > Num::nought() {
            Some(p / Num::whole(100) * cb_height)
        } else {
            None
        },
        Length::Calc(sum) => if sum.percent.same(Num::nought()) || cb_height > Num::nought() {
            Some(o.px(vp, o.style.height, cb_height))
        } else {
            None
        },
        Length::Vh(v) => if vp.1 > Num::nought() {
            Some(v / Num::whole(100) * vp.1)
        } else {
            None
        },
        Length::Em(em) => Some(em * o.style.font_px()),
        Length::Rem(rem) => Some(rem * Num::whole(16)),
        _ => None,
    };
    match specified {
        Some(h) => Some(
            Num::larger(
                if o.border_box() {
                    h - vertical_edges(d)
                } else {
                    h
                },
                Num::nought(),
            ),
        ),
        None => None,
    }
}

/// The content height that the style of a box alone makes definite.
pub open spec fn given_height(o: OwnV, vp: (Num, Num), d: Dimensions) -> Option<Num> {
    match o.style.height {
        Length::Px(h) => Some(content_height(o, d, h)),
        Length::Em(em) => Some(content_height(o, d, em * o.style.font_px())),
        Length::Rem(rem) => Some(content_height(o, d, rem * Num::whole(16))),
        Length::Vh(v) => if vp.1 > Num::nought() {
            Some(content_height(o, d, v / Num::whole(100) * vp.1))
        } else {
            None
        },
        _ => None,
    }
}

/// The content height of an out-of-flow box of `height: auto` that is
/// stretched between its top and bottom offsets.
pub open spec fn inset_height(o: OwnV, d: Dimensions, cb: Dimensions) -> Option<Num> {
    let f = o.resolved_in(cb);
    if !o.position.is_out_of_flow() || !o.style.height.is_auto() || f.top is None
        || f.bottom is None {
        None
    } else {
        Some(
            Num::larger(
                cb.content.height - f.top->0 - f.bottom->0 - d.margin.top - d.margin.bottom
                    - d.border.top - d.border.bottom - d.padding.top - d.padding.bottom,
                Num::nought(),
            ),
        )
    }
}

/// Dimensions after the offsets of an absolutely positioned box apply. Left
/// outranks right and top outranks bottom; a size that is `auto` between two
/// offsets is stretched.
#[verifier::opaque]
pub open spec fn with_offsets(o: OwnV, d: Dimensions, cb: Dimensions) -> Dimensions {
    let f = o.resolved_in(cb);
    let width = if f.left is Some && f.right is Some && o.style.width.is_auto() {
        Num::larger(
            cb.content.width - f.left->0 - f.right->0 - d.margin.left - d.margin.right
                - d.border.left - d.border.right - d.padding.left - d.padding.right,
            Num::nought(),
        )
    } else {
        d.content.width
    };
    let height = if f.top is Some && f.bottom is Some && inset_height(o, d, cb) is Some {
        inset_height(o, d, cb)->0
    } else {
        d.content.height
    };
    let x = match f.left {
        Some(left) => cb.content.x + left + d.margin.left + d.border.left + d.padding.left,
        None => match f.right {
            Some(right) => cb.content.right() - right - d.margin.right - d.border.right
                - d.padding.right - d.content.width,
            None => d.content.x,
        },
    };
    let y = match f.top {
        Some(top) => cb.content.y + top + d.margin.top + d.border.top + d.padding.top,
        None => match f.bottom {
            Some(bottom) => cb.content.bottom() - bottom - d.margin.bottom - d.border.bottom
                - d.padding.bottom - d.content.height,
            None => d.content.y,
        },
    };
    Dimensions { content: Rect { x, y, width, height }, ..d }
}

/// The containing block of a fixed box: the viewport, where it is known.
pub open spec fn fixed_block(vp: (Num, Num), cb: Dimensions) -> Dimensions {
    if vp.0 > Num::nought() && vp.1 > Num::nought() {
        Dimensions::around(Rect { x: Num::nought(), y: Num::nought(), width: vp.0, height: vp.1 })
    } else {
        cb
    }
}

/// A box after its offsets apply, its children left alone.
pub open spec fn offset_own(b: BoxV, cb: Dimensions) -> BoxV {
    let c = b.dim.content;
    let f = b.own.offsets;
    match b.own.position {
        Position::Static => b,
        Position::Relative => b.with_dim(
            Dimensions {
                content: Rect {
                    x: match f.left {
                        Some(left) => c.x + left,
                        None => match f.right {
                            Some(right) => c.x - right,
                            None => c.x,
                        },
                    },
                    y: match f.top {
                        Some(top) => c.y + top,
                        None => match f.bottom {
                            Some(bottom) => c.y - bottom,
                            None => c.y,
                        },
                    },
                    ..c
                },
                ..b.dim
            },
        ),
        Position::Absolute => b.with_dim(with_offsets(b.own, b.dim, cb)),
        Position::Fixed => b.with_dim(
            with_offsets(b.own, b.dim, fixed_block(b.viewport, cb)),
        ),
        Position::Sticky => BoxV {
            sticky: Some(
                StickyState {
                    original_rect: b.dim.border_box(),
                    offsets: f,
                    is_stuck: false,
                    stuck_rect: None,
                },
            ),
            ..b
        },
    }
}

/// A box that was moved from an origin, with its children carried along.
#[verifier::opaque]
pub open spec fn carried(b: BoxV, x: Num, y: Num) -> BoxV {
    let dx = b.dim.content.x - x;
    let dy = b.dim.content.y - y;
    if !dx.same(Num::nought()) || !dy.same(Num::nought()) {
        BoxV { children: shifted_all(b.children, dx, dy), ..b }
    } else {
        b
    }
}

/// A box after its offsets apply, with its children carried along.
#[verifier::opaque]
pub open spec fn offset(b: BoxV, cb: Dimensions) -> BoxV {
    carried(offset_own(b, cb), b.dim.content.x, b.dim.content.y)
}

/// An absolutely positioned box resolved anew against its final containing
/// block: percentage heights, offsets and stretched sizes.
#[verifier::opaque]
pub open spec fn reanchored(b: BoxV, cb: Dimensions, n: nat) -> BoxV
    decreases n, 0int,
{
    if n == 0 || b.own.position != Position::Absolute {
        b
    } else {
        let h = b.own.style.height;
        let d = if h is Percent || h is Calc {
            with_height(b.own, b.viewport, b.dim, Some(cb.content.height))
        } else {
            b.dim
        };
        let d = with_offsets(b.own, d, cb);
        let c = carried(b.with_dim(d), b.dim.content.x, b.dim.content.y);
        if !d.content.width.same(b.dim.content.width) || !d.content.height.same(
            b.dim.content.height,
        ) {
            anchored(c, (n - 1) as nat)
        } else {
            c
        }
    }
}

/// Boxes resolved anew against a containing block.
pub open spec fn reanchored_all(s: Seq<BoxV>, cb: Dimensions, n: nat) -> Seq<BoxV>
    decreases n, 1int,
{
    Seq::new(s.len(), |i: int| reanchored(s[i], cb, n))
}

/// A box whose absolutely positioned children are anchored to its padding box.
#[verifier::opaque]
pub open spec fn anchored(b: BoxV, n: nat) -> BoxV
    decreases n, 2int,
{
    BoxV {
        children: reanchored_all(b.children, Dimensions::around(b.dim.padding_box()), n),
        ..b
    }
}

/// Carrying children along keeps the shape of the tree.
pub proof fn lemma_carried_fits(b: BoxV, x: Num, y: Num, n: nat)
    requires
        b.fits(n),
    ensures
        carried(b, x, y).fits(n),
{
    reveal(carried);
    let c = carried(b, x, y);
    let dx = b.dim.content.x - x;
    let dy = b.dim.content.y - y;
    assert forall|i: int| 0 <= i < c.children.len() implies (#[trigger] c.children[i]).fits(
        (n - 1) as nat,
    ) by {
        assert(b.children[i].fits((n - 1) as nat));
        tree::lemma_shifted_fits(b.children[i], dx, dy, (n - 1) as nat);
    }
}

/// A static box stays where the flow put it.
pub proof fn lemma_static_box_stays(b: BoxV, cb: Dimensions)
    requires
        b.own.position == Position::Static,
        !b.dim.content.x.nan() && !b.dim.content.x.inf(),
        !b.dim.content.y.nan() && !b.dim.content.y.inf(),
    ensures
        offset(b, cb) == b,
{
    reveal(carried);
    reveal(offset);
    crate::num::lemma_minus_itself(b.dim.content.x);
    crate::num::lemma_minus_itself(b.dim.content.y);
}

/// Both `top` and `bottom`: the stretched box has the height the containing
/// block leaves, whatever its content was, and never a negative one.
pub proof fn lemma_inset_stretch(o: OwnV, d: Dimensions, cb: Dimensions)
    requires
        inset_height(o, d, cb) is Some,
    ensures
        with_offsets(o, d, cb).content.height == inset_height(o, d, cb)->0,
        with_offsets(o, d, cb).content.height >= Num::nought(),
{
    reveal(with_offsets);
    crate::margin_collapse::lemma_zero_is_number();
}

/// A specified height is never replaced by a stretch.
pub proof fn lemma_specified_height_is_kept(o: OwnV, d: Dimensions, cb: Dimensions)
    requires
        !o.style.height.is_auto(),
    ensures
        with_offsets(o, d, cb).content.height == d.content.height,
{
    reveal(with_offsets);
}

/// Applying the offsets of an absolutely positioned box twice places it where
/// applying them once does.
pub proof fn lemma_offsets_idempotent(o: OwnV, d: Dimensions, cb: Dimensions)
    ensures
        with_offsets(o, with_offsets(o, d, cb), cb) == with_offsets(o, d, cb),
{
    reveal(with_offsets);
}

/// Whether an absolutely positioned box came to rest at finite coordinates.
pub open spec fn settled(b: BoxV) -> bool {
    let c = b.dim.content;
    b.own.position == Position::Absolute ==> c.x.finite() && c.y.finite() && !c.width.nan()
        && !c.height.nan()
}

/// Resolving the geometry of an absolutely positioned box anew gives what it
/// gave the first time.
proof fn lemma_resolved_once(o: OwnV, vp: (Num, Num), d: Dimensions, cb: Dimensions)
    ensures
        ({
            let anew = |e: Dimensions|
                with_offsets(
                    o,
                    if o.style.height is Percent || o.style.height is Calc {
                        with_height(o, vp, e, Some(cb.content.height))
                    } else {
                        e
                    },
                    cb,
                );
            anew(anew(d)) == anew(d)
        }),
{
    reveal(used_height);
    reveal(with_offsets);
    let on_base = o.style.height is Percent || o.style.height is Calc;
    let first = if on_base {
        with_height(o, vp, d, Some(cb.content.height))
    } else {
        d
    };
    let once = with_offsets(o, first, cb);
    lemma_offsets_idempotent(o, first, cb);
    if on_base {
        assert(inset_height(o, first, cb) is None);
        assert(once.content.height == first.content.height);
        assert(vertical_edges(once) == vertical_edges(d));
        assert(specified_height(o, vp, Some(cb.content.height)) is Some);
        assert(used_height(o, vp, once, Some(cb.content.height)) == used_height(
            o,
            vp,
            d,
            Some(cb.content.height),
        ));
        assert(with_height(o, vp, once, Some(cb.content.height)) == once);
    }
}

proof fn lemma_reanchored_twice(b: BoxV, cb: Dimensions, n: nat)
    requires
        settled(reanchored(b, cb, n)),
    ensures
        reanchored(reanchored(b, cb, n), cb, n) == reanchored(b, cb, n),
{
    if n > 0 && b.own.position == Position::Absolute {
        let k = reanchored(b, cb, n);
        let h = b.own.style.height;
        let d = with_offsets(
            b.own,
            if h is Percent || h is Calc {
                with_height(b.own, b.viewport, b.dim, Some(cb.content.height))
            } else {
                b.dim
            },
            cb,
        );
        assert(k.dim == d && k.own == b.own && k.viewport == b.viewport) by {
            reveal(reanchored);
            reveal(anchored);
            reveal(carried);
        }
        lemma_resolved_once(b.own, b.viewport, b.dim, cb);
        let again = with_offsets(
            k.own,
            if h is Percent || h is Calc {
                with_height(k.own, k.viewport, k.dim, Some(cb.content.height))
            } else {
                k.dim
            },
            cb,
        );
        assert(again == d);
        assert(k.with_dim(again) == k);
        crate::num::lemma_minus_itself(d.content.x);
        crate::num::lemma_minus_itself(d.content.y);
        assert(carried(k, d.content.x, d.content.y) == k) by {
            reveal(carried);
        }
        reveal(reanchored);
    } else {
        reveal(reanchored);
    }
}

/// Anchoring the absolutely positioned children a second time changes nothing
/// in the tree, where they came to rest at finite coordinates.
pub proof fn lemma_anchoring_settles(b: BoxV, n: nat)
    requires
        forall|i: int|
            0 <= i < b.children.len() ==> settled(#[trigger] anchored(b, n).children[i]),
    ensures
        anchored(anchored(b, n), n) == anchored(b, n),
{
    let a = anchored(b, n);
    let cb = Dimensions::around(b.dim.padding_box());
    assert(a.dim == b.dim && a.children == reanchored_all(b.children, cb, n) && anchored(a, n)
        == (BoxV { children: reanchored_all(a.children, cb, n), ..a })) by {
        reveal(anchored);
        reveal(reanchored);
    }
    assert forall|i: int| 0 <= i < b.children.len() implies reanchored_all(
        a.children,
        cb,
        n,
    )[i] == #[trigger] a.children[i] by {
        assert(a.children[i] == reanchored(b.children[i], cb, n)) by {
            reveal(anchored);
            reveal(reanchored);
        }
        assert(settled(a.children[i]));
        lemma_reanchored_twice(b.children[i], cb, n);
        assert(reanchored_all(a.children, cb, n)[i] == reanchored(a.children[i], cb, n)) by {
            reveal(anchored);
            reveal(reanchored);
        }
    }
    assert(reanchored_all(a.children, cb, n).len() == a.children.len() && a.children.len()
        == b.children.len()) by {
        reveal(anchored);
        reveal(reanchored);
    }
    assert(reanchored_all(a.children, cb, n) =~= a.children);
}

/// Anchoring leaves the box itself alone, and every child that is not
/// absolutely positioned, fixed ones among them, with its subtree.
pub proof fn lemma_anchoring_is_for_absolute_boxes(b: BoxV, n: nat, i: int)
    requires
        0 <= i < b.children.len(),
    ensures
        anchored(b, n).dim == b.dim,
        anchored(b, n).own == b.own,
        b.children[i].own.position != Position::Absolute ==> anchored(b, n).children[i]
            == b.children[i],
{
    reveal(anchored);
    reveal(reanchored);
}

fn resolve_side(pre: Option<Num>, given: Option<Length>, basis: Num) -> (r: Option<Num>)
    ensures
        r == resolved_side(pre, given, basis),
{
    match pre {
        Some(v) => Some(v),
        None => match given {
            Some(Length::Percent(p)) => Some(p / Num::of(100) * basis),
            _ => None,
        },
    }
}

impl LayoutBox {
    /// Convert a length of this box to pixels.
    pub fn length_to_px(&self, length: &Length, container_size: Num) -> (r: Num)
        ensures
            r == self@.own.px(self@.viewport, *length, container_size),
    {
        length.to_px_with_viewport(
            self.style.font_size_px(),
            Num::of(16),
            container_size,
            self.viewport.0,
            self.viewport.1,
        )
    }

    fn is_border_box(&self) -> (r: bool)
        ensures
            r == self@.own.border_box(),
    {
        self.style.box_sizing == BoxSizing::BorderBox
    }

    /// Offsets with percent values resolved against the containing block.
    pub fn resolved_offsets(&self, containing_block: &Dimensions) -> (r: PositionOffsets)
        ensures
            r == self@.own.resolved_in(*containing_block),
    {
        let w = containing_block.content.width;
        let h = containing_block.content.height;
        PositionOffsets {
            top: resolve_side(self.offsets.top, self.style.top, h),
            bottom: resolve_side(self.offsets.bottom, self.style.bottom, h),
            left: resolve_side(self.offsets.left, self.style.left, w),
            right: resolve_side(self.offsets.right, self.style.right, w),
        }
    }

    fn dimensions_with_widths(&self, containing_block: &Dimensions) -> (r: Dimensions)
        ensures
            r == with_widths(self@.own, self@.viewport, self@.dim, *containing_block),
    {
        proof {
            reveal(with_widths);
        }
        let cb_width = containing_block.content.width;
        let margin_left = self.length_to_px(&self.style.margin_left, cb_width);
        let margin_right = self.length_to_px(&self.style.margin_right, cb_width);
        let border_left = self.length_to_px(&self.style.border_left_width, cb_width);
        let border_right = self.length_to_px(&self.style.border_right_width, cb_width);
        let padding_left = self.length_to_px(&self.style.padding_left, cb_width);
        let padding_right = self.length_to_px(&self.style.padding_right, cb_width);
        let border_box = self.is_border_box();

        let tentative = if self.style.width.is_auto() {
            let available = (cb_width - (margin_left + margin_right + border_left + border_right
                + padding_left + padding_right)).max(Num::zero());
            if self.style.display.is_atomic_inline() {
                let pb = border_left + border_right + padding_left + padding_right;
                let preferred = (self.intrinsic.max_content - pb).max(Num::zero());
                let least = (self.intrinsic.min_content - pb).max(Num::zero());
                least.max(available.min(preferred))
            } else {
                let offsets = self.resolved_offsets(containing_block);
                if auto_width_shrinks_to_fit(self.position, &offsets) {
                    shrink_to_fit_content_width(self, available)
                } else {
                    available
                }
            }
        } else {
            let specified = self.length_to_px(&self.style.width, cb_width);
            if border_box {
                (specified - padding_left - padding_right - border_left - border_right).max(
                    Num::zero(),
                )
            } else {
                specified
            }
        };

        let min_raw = self.length_to_px(&self.style.min_width, cb_width);
        let min = if border_box && min_raw > Num::zero() {
            (min_raw - padding_left - padding_right - border_left - border_right).max(Num::zero())
        } else {
            min_raw
        };
        let max = match self.style.max_width {
            Length::Auto => Num::infinity(),
            Length::Zero => Num::infinity(),
            _ => {
                let max_raw = self.length_to_px(&self.style.max_width, cb_width);
                if border_box {
                    (max_raw - padding_left - padding_right - border_left - border_right).max(
                        Num::zero(),
                    )
                } else {
                    max_raw
                }
            },
        };
        let width = tentative.max(min).min(max);

        let left_auto = self.style.margin_left.is_auto() && self.float == Float::Unset;
        let right_auto = self.style.margin_right.is_auto() && self.float == Float::Unset;
        let free = cb_width - width - border_left - border_right - padding_left - padding_right
            - margin_left - margin_right;
        let (margin_left, margin_right) = if !(left_auto || right_auto) || !(free > Num::zero()) {
            (margin_left, margin_right)
        } else if left_auto && right_auto {
            (margin_left + free / Num::of(2), margin_right + free / Num::of(2))
        } else if left_auto {
            (margin_left + free, margin_right)
        } else {
            (margin_left, margin_right + free)
        };

        let mut r = self.dimensions;
        r.content.width = width;
        r.margin.left = margin_left;
        r.margin.right = margin_right;
        r.border.left = border_left;
        r.border.right = border_right;
        r.padding.left = padding_left;
        r.padding.right = padding_right;
        r
    }

    /// Calculate block width.
    pub fn calculate_block_width(&mut self, containing_block: &Dimensions)
        ensures
            final(self)@ == old(self)@.with_dim(
                with_widths(
                    old(self)@.own,
                    old(self)@.viewport,
                    old(self)@.dim,
                    *containing_block,
                ),
            ),
    {
        self.dimensions = self.dimensions_with_widths(containing_block);
    }

    /// Calculate vertical box model values (margin, border, padding).
    pub fn calculate_block_vertical_box_model(&mut self, containing_block: &Dimensions)
        ensures
            final(self)@ == old(self)@.with_dim(
                with_vertical(
                    old(self)@.own,
                    old(self)@.viewport,
                    old(self)@.dim,
                    *containing_block,
                ),
            ),
    {
        proof {
            reveal(with_vertical);
        }
        let w = containing_block.content.width;
        let margin_top = self.length_to_px(&self.style.margin_top, w);
        let margin_bottom = self.length_to_px(&self.style.margin_bottom, w);
        let border_top = self.length_to_px(&self.style.border_top_width, w);
        let border_bottom = self.length_to_px(&self.style.border_bottom_width, w);
        let padding_top = self.length_to_px(&self.style.padding_top, w);
        let padding_bottom = self.length_to_px(&self.style.padding_bottom, w);
        let mut d = self.dimensions;
        d.margin.top = margin_top;
        d.margin.bottom = margin_bottom;
        d.border.top = border_top;
        d.border.bottom = border_bottom;
        d.padding.top = padding_top;
        d.padding.bottom = padding_bottom;
        self.dimensions = d;
    }

    /// Places the content box below what the containing block already holds,
    /// with a given top margin.
    pub(crate) fn place(&mut self, cb: &Dimensions, margin_top: Num)
        ensures
            final(self)@ == old(self)@.with_dim(placed(old(self)@.dim, *cb, margin_top)),
    {
        proof {
            reveal(placed);
        }
        let mut d = self.dimensions;
        d.content.x = cb.content.x + d.margin.left + d.border.left + d.padding.left;
        d.content.y = cb.content.y + cb.content.height + margin_top + d.border.top
            + d.padding.top;
        self.dimensions = d;
    }

    /// Calculate block position.
    pub fn calculate_block_position(&mut self, containing_block: &Dimensions)
        ensures
            ({
                let d = with_vertical(
                    old(self)@.own,
                    old(self)@.viewport,
                    old(self)@.dim,
                    *containing_block,
                );
                final(self)@ == old(self)@.with_dim(placed(d, *containing_block, d.margin.top))
            }),
    {
        self.calculate_block_vertical_box_model(containing_block);
        let margin_top = self.dimensions.margin.top;
        self.place(containing_block, margin_top);
    }

    fn specified_content_height(&self, specified: Num) -> (r: Num)
        ensures
            r == content_height(self@.own, self@.dim, specified),
    {
        let d = &self.dimensions;
        if self.is_border_box() {
            (specified - (d.padding.top + d.padding.bottom + d.border.top + d.border.bottom)).max(
                Num::zero(),
            )
        } else {
            specified
        }
    }

    fn percent_reference(&self, base: Option<Num>) -> (r: Option<Num>)
        ensures
            r == height_base(self@.viewport, base),
    {
        match base {
            Some(h) => Some(h),
            None => if self.viewport.1 > Num::zero() {
                Some(self.viewport.1)
            } else {
                None
            },
        }
    }

    fn resolve_specified_height(&self, base: Option<Num>) -> (r: Option<Num>)
        ensures
            r == specified_height(self@.own, self@.viewport, base),
    {
        match self.style.height {
            Length::Px(h) => Some(h),
            Length::Percent(p) => match self.percent_reference(base) {
                Some(h) => Some(p / Num::of(100) * h),
                None => None,
            },
            Length::Calc(sum) => {
                let reference = if base.is_none() && sum.percent == Num::zero() {
                    Some(Num::zero())
                } else {
                    self.percent_reference(base)
                };
                match reference {
                    Some(h) => Some(self.length_to_px(&self.style.height, h)),
                    None => None,
                }
            },
            Length::Vh(v) => if self.viewport.1 > Num::zero() {
                Some(v / Num::of(100) * self.viewport.1)
            } else {
                None
            },
            Length::Em(em) => Some(em * self.style.font_size_px()),
            Length::Rem(rem) => Some(rem * Num::of(16)),
            _ => None,
        }
    }

    fn resolve_height_limit(&self, l: Length, absent: Num) -> (r: Num)
        ensures
            r == height_limit(self@.own, self@.viewport, l, absent),
    {
        match l {
            Length::Px(px) => px,
            Length::Vh(v) => v / Num::of(100) * self.viewport.1,
            Length::Percent(p) => p / Num::of(100) * self.viewport.1,
            Length::Calc(_) => self.length_to_px(&l, self.viewport.1),
            _ => absent,
        }
    }

    fn resolve_tentative_height(&self, base: Option<Num>) -> (r: Num)
        ensures
            r == tentative_height(self@.own, self@.viewport, self@.dim, base),
    {
        let d = &self.dimensions;
        match self.resolve_specified_height(base) {
            Some(h) => self.specified_content_height(h),
            None => match self.style.height {
                Length::Percent(_) => d.content.height,
                Length::Calc(_) => d.content.height,
                Length::Vh(_) => d.content.height,
                _ => {
                    let edges_w = d.padding.left + d.padding.right + d.border.left + d.border.right;
                    let edges_h = d.padding.top + d.padding.bottom + d.border.top
                        + d.border.bottom;
                    match aspect_ratio_content_height(
                        &self.style,
                        d.content.width,
                        edges_w,
                        edges_h,
                    ) {
                        Some(h) => h,
                        None => d.content.height,
                    }
                },
            },
        }
    }

    /// Calculate block height. `percent_base` is the containing block's
    /// definite content height: a definite zero is not the same as none.
    pub fn calculate_block_height(&mut self, percent_base: Option<Num>)
        ensures
            final(self)@ == old(self)@.with_dim(
                with_height(
                    old(self)@.own,
                    old(self)@.viewport,
                    old(self)@.dim,
                    percent_base,
                ),
            ),
    {
        proof {
            reveal(used_height);
        }
        let d = self.dimensions;
        let edges = d.padding.top + d.padding.bottom + d.border.top + d.border.bottom;
        let border_box = self.is_border_box();
        let h = self.resolve_tentative_height(percent_base);
        let min_raw = self.resolve_height_limit(self.style.min_height, Num::zero());
        let min = if border_box && min_raw > Num::zero() {
            (min_raw - edges).max(Num::zero())
        } else {
            min_raw
        };
        let h = if h < min {
            min
        } else {
            h
        };
        let max_raw = self.resolve_height_limit(self.style.max_height, Num::infinity());
        let max = if border_box && max_raw < Num::infinity() {
            (max_raw - edges).max(Num::zero())
        } else {
            max_raw
        };
        self.dimensions.content.height = if h > max {
            max
        } else {
            h
        };
    }

    /// The content height a percentage-height child of this box resolves
    /// against, where it is known before the children lay out.
    pub fn definite_content_height_for_children(&self, containing_block_height: Num) -> (r: Option<
        Num,
    >)
        ensures
            r == definite_height(
                self@.own,
                self@.viewport,
                self@.dim,
                containing_block_height,
            ),
    {
        proof {
            reveal(definite_height);
        }
        let specified = match self.style.height {
            Length::Px(px) => Some(px),
            Length::Percent(p) => if containing_block_height > Num::zero() {
                Some(p / Num::of(100) * containing_block_height)
            } else {
                None
            },
            Length::Calc(sum) => if sum.percent == Num::zero() || containing_block_height
                > Num::zero() {
                Some(self.length_to_px(&self.style.height, containing_block_height))
            } else {
                None
            },
            Length::Vh(v) => if self.viewport.1 > Num::zero() {
                Some(v / Num::of(100) * self.viewport.1)
            } else {
                None
            },
            Length::Em(em) => Some(em * self.style.font_size_px()),
            Length::Rem(rem) => Some(rem * Num::of(16)),
            _ => None,
        };
        let d = &self.dimensions;
        match specified {
            Some(h) => {
                let content = if self.is_border_box() {
                    h - (d.padding.top + d.padding.bottom + d.border.top + d.border.bottom)
                } else {
                    h
                };
                Some(content.max(Num::zero()))
            },
            None => None,
        }
    }

    /// The content height when `height: auto` is made definite by opposite
    /// insets on an out-of-flow box.
    pub fn inset_definite_content_height(&self, containing_block: &Dimensions) -> (r: Option<Num>)
        ensures
            r == inset_height(self@.own, self@.dim, *containing_block),
    {
        if !self.position.is_out_of_flow() || !self.style.height.is_auto() {
            return None;
        }
        let offsets = self.resolved_offsets(containing_block);
        match (offsets.top, offsets.bottom) {
            (Some(top), Some(bottom)) => {
                let d = &self.dimensions;
                Some(
                    (containing_block.content.height - top - bottom - d.margin.top
                        - d.margin.bottom - d.border.top - d.border.bottom - d.padding.top
                        - d.padding.bottom).max(Num::zero()),
                )
            },
            _ => None,
        }
    }

    /// This box's content height where its style alone makes it definite.
    pub fn definite_content_height(&self) -> (r: Option<Num>)
        ensures
            r == given_height(self@.own, self@.viewport, self@.dim),
    {
        let d = &self.dimensions;
        let edges = d.padding.top + d.padding.bottom + d.border.top + d.border.bottom;
        let specified = match self.style.height {
            Length::Px(h) => h,
            Length::Em(em) => em * self.style.font_size_px(),
            Length::Rem(rem) => rem * Num::of(16),
            Length::Vh(v) => if self.viewport.1 > Num::zero() {
                v / Num::of(100) * self.viewport.1
            } else {
                return None;
            },
            _ => {
                return None;
            },
        };
        Some(
            if self.is_border_box() {
                (specified - edges).max(Num::zero())
            } else {
                specified
            },
        )
    }

    fn dimensions_at_offsets(&self, containing_block: &Dimensions) -> (r: Dimensions)
        ensures
            r == with_offsets(self@.own, self@.dim, *containing_block),
    {
        proof {
            reveal(with_offsets);
        }
        let cb = containing_block;
        let d = self.dimensions;
        let mut r = d;
        let offsets = self.resolved_offsets(containing_block);
        let inset = self.inset_definite_content_height(containing_block);
        match offsets.left {
            Some(left) => {
                match offsets.right {
                    Some(right) => {
                        if self.style.width.is_auto() {
                            r.content.width = (cb.content.width - left - right
                                - d.margin.left - d.margin.right - d.border.left - d.border.right
                                - d.padding.left - d.padding.right).max(Num::zero());
                        }
                    },
                    None => {},
                }
                r.content.x = cb.content.x + left + d.margin.left + d.border.left
                    + d.padding.left;
            },
            None => {
                match offsets.right {
                    Some(right) => {
                        r.content.x = cb.content.right() - right - d.margin.right
                            - d.border.right - d.padding.right - d.content.width;
                    },
                    None => {},
                }
            },
        }
        match offsets.top {
            Some(top) => {
                match inset {
                    Some(height) => {
                        r.content.height = height;
                    },
                    None => {},
                }
                r.content.y = cb.content.y + top + d.margin.top + d.border.top
                    + d.padding.top;
            },
            None => {
                match offsets.bottom {
                    Some(bottom) => {
                        r.content.y = cb.content.bottom() - bottom - d.margin.bottom
                            - d.border.bottom - d.padding.bottom - d.content.height;
                    },
                    None => {},
                }
            },
        }
        r
    }

    /// Apply absolute positioning offsets.
    pub fn apply_position_offsets_absolute(&mut self, containing_block: &Dimensions)
        ensures
            final(self)@ == old(self)@.with_dim(
                with_offsets(old(self)@.own, old(self)@.dim, *containing_block),
            ),
    {
        self.dimensions = self.dimensions_at_offsets(containing_block);
    }

    /// Carries the children along when the box was moved from an origin.
    fn carry_children(&mut self, x: Num, y: Num)
        ensures
            final(self)@ == carried(old(self)@, x, y),
            final(self)@.own == old(self)@.own,
    {
        proof {
            reveal(carried);
        }
        let dx = self.dimensions.content.x - x;
        let dy = self.dimensions.content.y - y;
        if !(dx == Num::zero()) || !(dy == Num::zero()) {
            translate_all(&mut self.children, dx, dy);
        }
    }

    /// Apply position offsets for positioned elements, and carry the subtree
    /// of a box that moves.
    pub fn apply_position_offsets(&mut self, containing_block: &Dimensions)
        ensures
            final(self)@ == offset(old(self)@, *containing_block),
            final(self)@.own == old(self)@.own,
    {
        proof {
            reveal(offset);
        }
        let x = self.dimensions.content.x;
        let y = self.dimensions.content.y;
        match self.position {
            Position::Static => {},
            Position::Relative => {
                let mut d = self.dimensions;
                match self.offsets.top {
                    Some(top) => {
                        d.content.y = y + top;
                    },
                    None => match self.offsets.bottom {
                        Some(bottom) => {
                            d.content.y = y - bottom;
                        },
                        None => {},
                    },
                }
                match self.offsets.left {
                    Some(left) => {
                        d.content.x = x + left;
                    },
                    None => match self.offsets.right {
                        Some(right) => {
                            d.content.x = x - right;
                        },
                        None => {},
                    },
                }
                self.dimensions = d;
            },
            Position::Absolute => {
                self.apply_position_offsets_absolute(containing_block);
            },
            Position::Fixed => {
                let cb = if self.viewport.0 > Num::zero() && self.viewport.1 > Num::zero() {
                    Dimensions::of_content(
                        Rect::new(Num::zero(), Num::zero(), self.viewport.0, self.viewport.1),
                    )
                } else {
                    *containing_block
                };
                self.apply_position_offsets_absolute(&cb);
            },
            Position::Sticky => {
                self.sticky_state = Some(
                    StickyState::new(self.dimensions.border_box(), self.offsets),
                );
            },
        }
        self.carry_children(x, y);
    }

    /// Re-resolve an absolutely positioned box's offsets against its real
    /// containing block, carrying the subtree with it.
    pub(crate) fn reanchor_absolute(&mut self, containing_block: &Dimensions, Ghost(n): Ghost<nat>)
        requires
            old(self)@.fits(n),
        ensures
            final(self)@ == reanchored(old(self)@, *containing_block, n),
            final(self)@.fits(n),
        decreases n, 0int,
    {
        proof {
            reveal(reanchored);
        }
        if self.position != Position::Absolute {
            return;
        }
        proof {
            reveal(anchored);
        }
        let before = self.dimensions.content;
        let on_base = match self.style.height {
            Length::Percent(_) => true,
            Length::Calc(_) => true,
            _ => false,
        };
        if on_base {
            self.calculate_block_height(Some(containing_block.content.height));
        }
        self.apply_position_offsets_absolute(containing_block);
        let after = self.dimensions.content;
        proof {
            assert(self@.fits(n));
            lemma_carried_fits(self@, before.x, before.y, n);
        }
        self.carry_children(before.x, before.y);
        if !(after.width == before.width) || !(after.height == before.height) {
            self.reanchor_absolute_children(Ghost((n - 1) as nat));
        }
    }

    /// Re-anchor every absolutely positioned child against this box's final
    /// padding box.
    pub(crate) fn reanchor_absolute_children(&mut self, Ghost(n): Ghost<nat>)
        requires
            old(self)@.fits(n + 1),
        ensures
            final(self)@ == anchored(old(self)@, n),
            final(self)@.fits(n + 1),
            final(self)@.own == old(self)@.own,
        decreases n, 2int,
    {
        proof {
            reveal(anchored);
        }
        let cb = Dimensions::of_content(self.dimensions.padding_box());
        reanchor_all(&mut self.children, &cb, Ghost(n));
    }
}

fn reanchor_all(v: &mut Vec<LayoutBox>, cb: &Dimensions, Ghost(n): Ghost<nat>)
    requires
        forall|i: int| 0 <= i < old(v)@.len() ==> (#[trigger] box_views(old(v)@)[i]).fits(n),
    ensures
        box_views(final(v)@) == reanchored_all(box_views(old(v)@), *cb, n),
        forall|i: int| 0 <= i < final(v)@.len() ==> (#[trigger] box_views(final(v)@)[i]).fits(n),
    decreases n, 1int,
{
    let mut i: usize = 0;
    while i < v.len()
        invariant
            i <= v.len(),
            v@.len() == old(v)@.len(),
            forall|j: int| 0 <= j < old(v)@.len() ==> (#[trigger] box_views(old(v)@)[j]).fits(n),
            forall|j: int|
                0 <= j < i ==> (#[trigger] v@[j])@ == reanchored(old(v)@[j]@, *cb, n)
                    && v@[j]@.fits(n),
            forall|j: int| i <= j < v@.len() ==> #[trigger] v@[j] == old(v)@[j],
        decreases v.len() - i,
    {
        proof {
            assert(box_views(old(v)@)[i as int].fits(n));
        }
        v[i].reanchor_absolute(cb, Ghost(n));
        i = i + 1;
    }
    proof {
        reveal(anchored);
        reveal(reanchored);
        assert(box_views(v@) =~= reanchored_all(box_views(old(v)@), *cb, n));
    }
}

} // verus!

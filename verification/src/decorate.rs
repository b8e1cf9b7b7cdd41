//! What a box itself paints: shadows, background, borders, and the contents of
//! images and form controls.
use vstd::prelude::*;
use crate::boxes::{BoxV, LayoutBox};
use crate::display::{
    self, command_views, emit, BorderRadius, Clip, CommandV, DisplayCommand, GradientV,
};
use crate::exact;
use crate::geometry::{Point, Rect};
use crate::num::Num;
use crate::style::{
    BackdropFilter, BackgroundClip, BackgroundImage, BackgroundLayer, BackgroundPosition,
    BackgroundPositionValue, BackgroundRepeat, BackgroundSize, BoxShadow, Color, Gradient,
};
use crate::text;

verus! {

/// The commands for the visible shadows among the first `k`, outer or inset.
pub open spec fn shadows(s: Seq<BoxShadow>, k: int, rect: Rect, inset: bool) -> Seq<CommandV>
    decreases k,
{
    if k <= 0 {
        Seq::empty()
    } else {
        let h = s[k - 1];
        shadows(s, k - 1, rect, inset) + (if h.visible && h.inset == inset {
            seq![
                CommandV::Plain(
                    DisplayCommand::BoxShadow {
                        offset_x: h.offset_x,
                        offset_y: h.offset_y,
                        blur_radius: h.blur_radius,
                        spread_radius: h.spread_radius,
                        color: h.color,
                        rect,
                        inset,
                    },
                ),
            ]
        } else {
            Seq::empty()
        })
    }
}

/// The shadow commands of a box.
pub open spec fn box_shadows(b: BoxV, inset: bool) -> Seq<CommandV> {
    let s = b.own.style.box_shadows@;
    shadows(s, s.len() as int, b.dim.border_box(), inset)
}

fn push_shadows(out: &mut Vec<DisplayCommand>, layout_box: &LayoutBox, inset: bool)
    ensures
        command_views(final(out)@) == command_views(old(out)@) + box_shadows(layout_box@, inset),
{
    let rect = layout_box.dimensions.border_box();
    let n: usize = layout_box.style.box_shadows.len();
    let ghost s = layout_box@.own.style.box_shadows@;
    let mut i: usize = 0;
    proof {
        assert(command_views(out@) =~= command_views(old(out)@) + shadows(s, 0, rect, inset));
    }
    while i < n
        invariant
            i <= n,
            n == s.len(),
            s == layout_box.style.box_shadows@,
            command_views(out@) == command_views(old(out)@) + shadows(s, i as int, rect, inset),
        decreases n - i,
    {
        let h: BoxShadow = layout_box.style.box_shadows[i];
        if h.visible && h.inset == inset {
            emit(
                out,
                DisplayCommand::BoxShadow {
                    offset_x: h.offset_x,
                    offset_y: h.offset_y,
                    blur_radius: h.blur_radius,
                    spread_radius: h.spread_radius,
                    color: h.color,
                    rect,
                    inset,
                },
            );
        }
        i = i + 1;
        proof {
            assert(command_views(out@) =~= command_views(old(out)@) + shadows(
                s,
                i as int,
                rect,
                inset,
            ));
        }
    }
}

/// Render box shadows (must be called before background).
pub(crate) fn render_box_shadows(out: &mut Vec<DisplayCommand>, layout_box: &LayoutBox)
    ensures
        command_views(final(out)@) == command_views(old(out)@) + box_shadows(layout_box@, false),
{
    push_shadows(out, layout_box, false);
}

/// Render inset box shadows (called after background).
pub(crate) fn render_inset_shadows(out: &mut Vec<DisplayCommand>, layout_box: &LayoutBox)
    ensures
        command_views(final(out)@) == command_views(old(out)@) + box_shadows(layout_box@, true),
{
    push_shadows(out, layout_box, true);
}

/// The corner radii of the border box. Percentages are of its width for every
/// corner.
pub open spec fn radii(b: BoxV, root: Num) -> BorderRadius {
    let s = b.own.style;
    let w = b.dim.border_box().width;
    BorderRadius {
        top_left: s.border_top_left_radius.px(s.font_px(), root, w),
        top_right: s.border_top_right_radius.px(s.font_px(), root, w),
        bottom_right: s.border_bottom_right_radius.px(s.font_px(), root, w),
        bottom_left: s.border_bottom_left_radius.px(s.font_px(), root, w),
    }
}

/// The box's border-box corner radii, resolved to pixels.
pub(crate) fn border_radius_px(layout_box: &LayoutBox, root: Num) -> (r: BorderRadius)
    ensures
        r == radii(layout_box@, root),
{
    let s = &layout_box.style;
    let w = layout_box.dimensions.border_box().width;
    let size = s.font_size_px();
    BorderRadius {
        top_left: s.border_top_left_radius.to_px(size, root, w),
        top_right: s.border_top_right_radius.to_px(size, root, w),
        bottom_right: s.border_bottom_right_radius.to_px(size, root, w),
        bottom_left: s.border_bottom_left_radius.to_px(size, root, w),
    }
}

/// The border box less the borders.
pub open spec fn inside_borders(b: BoxV) -> Rect {
    let bb = b.dim.border_box();
    let e = b.dim.border;
    Rect {
        x: bb.x + e.left,
        y: bb.y + e.top,
        width: bb.width - e.left - e.right,
        height: bb.height - e.top - e.bottom,
    }
}

fn padding_rect(layout_box: &LayoutBox) -> (r: Rect)
    ensures
        r == inside_borders(layout_box@),
{
    let bb = layout_box.dimensions.border_box();
    let e = layout_box.dimensions.border;
    Rect {
        x: bb.x + e.left,
        y: bb.y + e.top,
        width: bb.width - e.left - e.right,
        height: bb.height - e.top - e.bottom,
    }
}

/// A corner radius less the thicker of its two borders.
pub open spec fn inner_radius(r: Num, a: Num, b: Num) -> Num {
    Num::larger(r - Num::larger(a, b), Num::nought())
}

fn inset_radius(r: Num, a: Num, b: Num) -> (v: Num)
    ensures
        v == inner_radius(r, a, b),
{
    (r - a.max(b)).max(Num::zero())
}

/// Whether a box stands for the `body` element.
pub open spec fn is_body(b: BoxV) -> bool {
    b.own.identity matches Some(id) && id.tag@ == "body"@
}

/// The clip a box imposes on its descendants: its padding box, where its
/// overflow is not visible on both axes. The root never clips, and neither
/// does the body while the overflow of the root is visible: theirs belongs to
/// the viewport.
pub open spec fn clip_of(b: BoxV, root: Num, at_root: bool, root_visible: bool) -> Option<Clip> {
    let e = b.dim.border;
    let r = radii(b, root);
    let rect = inside_borders(b);
    if !b.own.style.clips() || at_root || (is_body(b) && root_visible) || rect.width
        <= Num::nought() || rect.height <= Num::nought() {
        None
    } else {
        Some(
            Clip {
                rect,
                radius: BorderRadius {
                    top_left: inner_radius(r.top_left, e.left, e.top),
                    top_right: inner_radius(r.top_right, e.right, e.top),
                    bottom_right: inner_radius(r.bottom_right, e.right, e.bottom),
                    bottom_left: inner_radius(r.bottom_left, e.left, e.bottom),
                },
            },
        )
    }
}

/// The clip a box imposes on its descendants, if any.
pub(crate) fn overflow_clip(
    layout_box: &LayoutBox,
    root: Num,
    at_root: bool,
    root_visible: bool,
) -> (r: Option<Clip>)
    ensures
        r == clip_of(layout_box@, root, at_root, root_visible),
{
    if !layout_box.style.is_clipping() || at_root {
        return None;
    }
    let body = match &layout_box.identity {
        Some(id) => text::is_word(&id.tag, "body"),
        None => false,
    };
    if body && root_visible {
        return None;
    }
    let radius = border_radius_px(layout_box, root);
    let rect = padding_rect(layout_box);
    if rect.width <= Num::zero() || rect.height <= Num::zero() {
        return None;
    }
    let e = layout_box.dimensions.border;
    Some(
        Clip {
            rect,
            radius: BorderRadius {
                top_left: inset_radius(radius.top_left, e.left, e.top),
                top_right: inset_radius(radius.top_right, e.right, e.top),
                bottom_right: inset_radius(radius.bottom_right, e.right, e.bottom),
                bottom_left: inset_radius(radius.bottom_left, e.left, e.bottom),
            },
        },
    )
}

/// The area a background paints: `background-clip`. None for one that shows
/// through the glyphs only, or an empty area.
pub open spec fn background_area(b: BoxV) -> Option<Rect> {
    let bb = b.dim.border_box();
    let e = b.dim.border;
    let p = b.dim.padding;
    let rect = match b.own.style.background_clip {
        BackgroundClip::BorderBox => bb,
        BackgroundClip::PaddingBox => inside_borders(b),
        BackgroundClip::ContentBox => Rect {
            x: bb.x + e.left + p.left,
            y: bb.y + e.top + p.top,
            width: bb.width - e.left - e.right - p.left - p.right,
            height: bb.height - e.top - e.bottom - p.top - p.bottom,
        },
        BackgroundClip::Text => bb,
    };
    if b.own.style.background_clip == BackgroundClip::Text || rect.width <= Num::nought()
        || rect.height <= Num::nought() {
        None
    } else {
        Some(rect)
    }
}

fn background_rect(layout_box: &LayoutBox) -> (r: Option<Rect>)
    ensures
        r == background_area(layout_box@),
{
    let bb = layout_box.dimensions.border_box();
    let e = layout_box.dimensions.border;
    let p = layout_box.dimensions.padding;
    let rect = match layout_box.style.background_clip {
        BackgroundClip::BorderBox => bb,
        BackgroundClip::PaddingBox => padding_rect(layout_box),
        BackgroundClip::ContentBox => Rect {
            x: bb.x + e.left + p.left,
            y: bb.y + e.top + p.top,
            width: bb.width - e.left - e.right - p.left - p.right,
            height: bb.height - e.top - e.bottom - p.top - p.bottom,
        },
        BackgroundClip::Text => {
            return None;
        },
    };
    if rect.width <= Num::zero() || rect.height <= Num::zero() {
        return None;
    }
    Some(rect)
}

/// One side of a background image: a negative explicit size is a percentage of
/// the container.
pub open spec fn image_side(given: Option<Num>, container: Num, intrinsic: Num) -> Num {
    match given {
        Some(v) => if v < Num::nought() {
            container * (Num::negated(v) / Num::whole(100))
        } else {
            v
        },
        None => intrinsic,
    }
}

fn resolve_image_side(given: Option<Num>, container: Num, intrinsic: Num) -> (r: Num)
    ensures
        r == image_side(given, container, intrinsic),
{
    match given {
        Some(v) => if v < Num::zero() {
            container * (v.negate() / Num::of(100))
        } else {
            v
        },
        None => intrinsic,
    }
}

/// The rectangle of a background image of an intrinsic size.
pub open spec fn image_rect(
    container: Rect,
    size: BackgroundSize,
    position: BackgroundPosition,
    width: Num,
    height: Num,
) -> Rect {
    let sx = container.width / width;
    let sy = container.height / height;
    let (w, h) = match size {
        BackgroundSize::Auto => (width, height),
        BackgroundSize::Cover => (width * Num::larger(sx, sy), height * Num::larger(sx, sy)),
        BackgroundSize::Contain => (width * Num::smaller(sx, sy), height * Num::smaller(sx, sy)),
        BackgroundSize::Explicit { width: gw, height: gh } => (
            image_side(gw, container.width, width),
            image_side(gh, container.height, height),
        ),
    };
    Rect {
        x: container.x + position.x.px(container.width, w),
        y: container.y + position.y.px(container.height, h),
        width: w,
        height: h,
    }
}

/// Calculate the rect for a background image/gradient based on size and
/// position.
pub(crate) fn calculate_background_rect(
    container: Rect,
    size: &BackgroundSize,
    position: &BackgroundPosition,
    width: Num,
    height: Num,
) -> (r: Rect)
    ensures
        r == image_rect(container, *size, *position, width, height),
{
    let (w, h) = match *size {
        BackgroundSize::Auto => (width, height),
        BackgroundSize::Cover => {
            let scale = (container.width / width).max(container.height / height);
            (width * scale, height * scale)
        },
        BackgroundSize::Contain => {
            let scale = (container.width / width).min(container.height / height);
            (width * scale, height * scale)
        },
        BackgroundSize::Explicit { width: gw, height: gh } => (
            resolve_image_side(gw, container.width, width),
            resolve_image_side(gh, container.height, height),
        ),
    };
    Rect {
        x: container.x + position.x.to_px(container.width, w),
        y: container.y + position.y.to_px(container.height, h),
        width: w,
        height: h,
    }
}

/// The first tile along one axis: the image where it was placed; where it
/// repeats, the first tile of its grid that reaches into the container.
pub open spec fn tile_start(repeats: bool, at: Num, tile: Num, start: Num, extent: Num) -> Num {
    if repeats && tile < extent {
        let past = Num::wrapped(at - start, tile);
        if past.same(Num::nought()) {
            start
        } else {
            start - tile + past
        }
    } else {
        at
    }
}

/// Tiles keep to the grid of the image where it was placed: the first one is a
/// whole number of tiles away from it, and is the first that reaches beyond
/// the start of the container. The sums must need no rounding.
pub proof fn lemma_first_tile_is_on_grid(at: Num, tile: Num, start: Num, extent: Num) -> (k: int)
    requires
        tile.positive(),
        tile < extent,
        Num::subtracts(at, start),
        Num::remainder(at - start, tile) < Num::nought() ==> Num::adds(
            Num::remainder(at - start, tile),
            tile,
        ),
        Num::subtracts(start, tile),
        Num::adds(start - tile, Num::wrapped(at - start, tile)),
    ensures
        tile_start(true, at, tile, start, extent).units() == at.units() + k * tile.units(),
        tile_start(true, at, tile, start, extent).units() <= start.units(),
        start.units() - tile.units() < tile_start(true, at, tile, start, extent).units(),
{
    let d = at - start;
    let r = Num::remainder(d, tile);
    let past = Num::wrapped(d, tile);
    let t = tile.units();
    exact::lemma_remainder(d, tile);
    crate::num::lemma_decode(0);
    crate::margin_collapse::lemma_zero_is_number();
    crate::num::lemma_rank_is_value(r, Num::nought());
    let whole = if d.units() >= 0 {
        d.units()
    } else {
        -d.units()
    };
    vstd::arithmetic::div_mod::lemma_fundamental_div_mod(whole, t);
    vstd::arithmetic::div_mod::lemma_mod_bound(whole, t);
    let q = whole / t;
    assert(t * q == q * t) by (nonlinear_arith);
    if !past.nan() {
        crate::num::lemma_rank_is_value(past, Num::nought());
    }
    if d.units() >= 0 {
        if past.same(Num::nought()) {
            assert((-q) * t == -(q * t)) by (nonlinear_arith);
            -q
        } else {
            assert((-q - 1) * t == -(q * t) - t) by (nonlinear_arith);
            -q - 1
        }
    } else {
        q
    }
}

fn first_tile(repeats: bool, at: Num, tile: Num, start: Num, extent: Num) -> (r: Num)
    ensures
        r == tile_start(repeats, at, tile, start, extent),
{
    if repeats && tile < extent {
        let past = (at - start).rem_euclid(tile);
        if past == Num::zero() {
            start
        } else {
            start - tile + past
        }
    } else {
        at
    }
}

/// How many tiles are tried along one axis: enough to reach the end, but at
/// most fifty.
pub open spec fn tile_count(repeats: bool, first: Num, tile: Num, end: Num, extent: Num) -> int {
    if repeats && tile < extent {
        let n = Num::truncated(Num::ceiled((end - first) / tile));
        if n < 1 {
            1
        } else if n > 50 {
            50
        } else {
            n
        }
    } else {
        1
    }
}

fn count_tiles(repeats: bool, first: Num, tile: Num, end: Num, extent: Num) -> (r: usize)
    ensures
        r == tile_count(repeats, first, tile, end, extent),
        1 <= r <= 50,
{
    if repeats && tile < extent {
        let n: i32 = ((end - first) / tile).ceil().to_i32();
        if n < 1 {
            1
        } else if n > 50 {
            50
        } else {
            n as usize
        }
    } else {
        1
    }
}

/// A tile, where it meets the container.
pub open spec fn tile(g: GradientV, container: Rect, rect: Rect, radius: BorderRadius) -> Seq<
    CommandV,
> {
    if rect.x + rect.width > container.x && rect.x < container.x + container.width && rect.y
        + rect.height > container.y && rect.y < container.y + container.height {
        seq![CommandV::Gradient { gradient: g, rect, border_radius: radius }]
    } else {
        Seq::empty()
    }
}

/// The first `k` tiles of a row that starts with `first`.
pub open spec fn tile_row(
    g: GradientV,
    container: Rect,
    first: Rect,
    radius: BorderRadius,
    k: int,
) -> Seq<CommandV>
    decreases k,
{
    if k <= 0 {
        Seq::empty()
    } else {
        tile_row(g, container, first, radius, k - 1) + tile(
            g,
            container,
            Rect { x: first.x + Num::whole(k - 1) * first.width, ..first },
            radius,
        )
    }
}

/// The first `k` rows of `cols` tiles.
pub open spec fn tile_rows(
    g: GradientV,
    container: Rect,
    first: Rect,
    radius: BorderRadius,
    cols: int,
    k: int,
) -> Seq<CommandV>
    decreases k,
{
    if k <= 0 {
        Seq::empty()
    } else {
        tile_rows(g, container, first, radius, cols, k - 1) + tile_row(
            g,
            container,
            Rect { y: first.y + Num::whole(k - 1) * first.height, ..first },
            radius,
            cols,
        )
    }
}

/// A gradient placed at a rectangle and repeated over a container; `space` and
/// `round` repeat as `repeat` does.
pub open spec fn tiles(
    g: GradientV,
    container: Rect,
    at: Rect,
    repeat: BackgroundRepeat,
    radius: BorderRadius,
) -> Seq<CommandV> {
    let w = Num::larger(at.width, Num::whole(1));
    let h = Num::larger(at.height, Num::whole(1));
    let once = seq![CommandV::Gradient { gradient: g, rect: at, border_radius: radius }];
    if repeat == BackgroundRepeat::NoRepeat || (w >= container.width && h >= container.height) {
        once
    } else {
        let rx = repeat != BackgroundRepeat::RepeatY;
        let ry = repeat != BackgroundRepeat::RepeatX;
        let x = tile_start(rx, at.x, w, container.x, container.width);
        let y = tile_start(ry, at.y, h, container.y, container.height);
        let cols = tile_count(rx, x, w, container.x + container.width, container.width);
        let rows = tile_count(ry, y, h, container.y + container.height, container.height);
        tile_rows(g, container, Rect { x, y, width: w, height: h }, radius, cols, rows)
    }
}

/// Whether a rectangle leaves its container.
pub open spec fn leaves(at: Rect, container: Rect) -> bool {
    at.x < container.x || at.y < container.y || at.x + at.width > container.x + container.width
        || at.y + at.height > container.y + container.height
}

/// One coordinate of a background position as a fraction; pixels are left to
/// the painter.
pub open spec fn position_fraction(p: BackgroundPositionValue) -> Num {
    match p {
        BackgroundPositionValue::Percent(v) => v,
        BackgroundPositionValue::Px(_) => Num::nought(),
    }
}

fn fraction_of(p: &BackgroundPositionValue) -> (r: Num)
    ensures
        r == position_fraction(*p),
{
    match *p {
        BackgroundPositionValue::Percent(v) => v,
        BackgroundPositionValue::Px(_) => Num::zero(),
    }
}

/// The commands of one background layer. A gradient that leaves its container
/// is clipped to it.
pub open spec fn layer(l: BackgroundLayer, container: Rect, radius: BorderRadius) -> Seq<CommandV> {
    match l.image {
        BackgroundImage::Absent => Seq::empty(),
        BackgroundImage::Gradient(g) => {
            let at = image_rect(
                container,
                l.size,
                l.position,
                container.width,
                container.height,
            );
            let painted = tiles(g@, container, at, l.repeat, radius);
            if leaves(at, container) {
                seq![(Clip { rect: container, radius }).push()] + painted + seq![
                    display::pop_clip(),
                ]
            } else {
                painted
            }
        },
        BackgroundImage::Url(url) => seq![
            CommandV::Plain(
                DisplayCommand::BackgroundImage {
                    url,
                    rect: container,
                    size: l.size,
                    position: Point {
                        x: position_fraction(l.position.x),
                        y: position_fraction(l.position.y),
                    },
                    repeat: l.repeat,
                },
            ),
        ],
    }
}

/// The commands of the first `k` layers, the bottommost first.
pub open spec fn layers(
    s: Seq<BackgroundLayer>,
    k: int,
    container: Rect,
    radius: BorderRadius,
) -> Seq<CommandV>
    decreases k,
{
    if k <= 0 {
        Seq::empty()
    } else {
        layers(s, k - 1, container, radius) + layer(s[k - 1], container, radius)
    }
}

/// The color of a background.
pub open spec fn background_fill(
    color: Color,
    rect: Rect,
    radius: BorderRadius,
    clipped: bool,
) -> Seq<CommandV> {
    if !(color.a > Num::nought()) {
        Seq::empty()
    } else if radius.square() || clipped {
        seq![CommandV::Plain(DisplayCommand::SolidColor(color, rect))]
    } else {
        seq![CommandV::Plain(DisplayCommand::RoundedRect { color, rect, radius })]
    }
}

/// The images of a background: its layers, or a single gradient where it has
/// none.
pub open spec fn background_images(b: BoxV, rect: Rect, radius: BorderRadius) -> Seq<CommandV> {
    let s = b.own.style;
    if s.background_layers@.len() > 0 {
        layers(s.background_layers@, s.background_layers@.len() as int, rect, radius)
    } else {
        match s.background_gradient {
            Some(g) => seq![CommandV::Gradient { gradient: g@, rect, border_radius: radius }],
            None => Seq::empty(),
        }
    }
}

/// The commands of a background: filter, color, then images, inside a clip
/// where it does not paint the whole border box.
pub open spec fn background(b: BoxV, root: Num) -> Seq<CommandV> {
    let s = b.own.style;
    let radius = radii(b, root);
    let clipped = s.background_clip != BackgroundClip::BorderBox;
    match background_area(b) {
        None => Seq::empty(),
        Some(rect) => (if clipped {
            seq![CommandV::Plain(DisplayCommand::PushClip(rect))]
        } else {
            Seq::empty()
        }) + (if s.backdrop_filter is Absent {
            Seq::empty()
        } else {
            seq![
                CommandV::Plain(
                    DisplayCommand::BackdropFilter {
                        rect,
                        border_radius: radius,
                        filter: s.backdrop_filter,
                    },
                ),
            ]
        }) + background_fill(s.background_color, rect, radius, clipped) + background_images(
            b,
            rect,
            radius,
        ) + (if clipped {
            seq![display::pop_clip()]
        } else {
            Seq::empty()
        }),
    }
}

/// Render a gradient to a rect with optional border-radius clipping.
pub(crate) fn render_gradient(
    out: &mut Vec<DisplayCommand>,
    gradient: &Gradient,
    rect: Rect,
    border_radius: BorderRadius,
)
    ensures
        command_views(final(out)@) == command_views(old(out)@) + seq![
            CommandV::Gradient { gradient: gradient@, rect, border_radius },
        ],
{
    emit(out, gradient.drawn(rect, border_radius));
}

fn push_row(
    out: &mut Vec<DisplayCommand>,
    gradient: &Gradient,
    container: Rect,
    first: Rect,
    radius: BorderRadius,
    cols: usize,
)
    ensures
        command_views(final(out)@) == command_views(old(out)@) + tile_row(
            gradient@,
            container,
            first,
            radius,
            cols as int,
        ),
{
    let mut k: usize = 0;
    proof {
        assert(command_views(out@) =~= command_views(old(out)@) + tile_row(
            gradient@,
            container,
            first,
            radius,
            0,
        ));
    }
    while k < cols
        invariant
            k <= cols,
            command_views(out@) == command_views(old(out)@) + tile_row(
                gradient@,
                container,
                first,
                radius,
                k as int,
            ),
        decreases cols - k,
    {
        let rect = Rect {
            x: first.x + Num::from_usize(k) * first.width,
            y: first.y,
            width: first.width,
            height: first.height,
        };
        if rect.x + rect.width > container.x && rect.x < container.x + container.width && rect.y
            + rect.height > container.y && rect.y < container.y + container.height {
            render_gradient(out, gradient, rect, radius);
        }
        k = k + 1;
        proof {
            assert(command_views(out@) =~= command_views(old(out)@) + tile_row(
                gradient@,
                container,
                first,
                radius,
                k as int,
            ));
        }
    }
}

fn push_rows(
    out: &mut Vec<DisplayCommand>,
    gradient: &Gradient,
    container: Rect,
    first: Rect,
    radius: BorderRadius,
    cols: usize,
    rows: usize,
)
    ensures
        command_views(final(out)@) == command_views(old(out)@) + tile_rows(
            gradient@,
            container,
            first,
            radius,
            cols as int,
            rows as int,
        ),
{
    let mut k: usize = 0;
    proof {
        assert(command_views(out@) =~= command_views(old(out)@) + tile_rows(
            gradient@,
            container,
            first,
            radius,
            cols as int,
            0,
        ));
    }
    while k < rows
        invariant
            k <= rows,
            command_views(out@) == command_views(old(out)@) + tile_rows(
                gradient@,
                container,
                first,
                radius,
                cols as int,
                k as int,
            ),
        decreases rows - k,
    {
        let row = Rect {
            x: first.x,
            y: first.y + Num::from_usize(k) * first.height,
            width: first.width,
            height: first.height,
        };
        push_row(out, gradient, container, row, radius, cols);
        k = k + 1;
        proof {
            assert(command_views(out@) =~= command_views(old(out)@) + tile_rows(
                gradient@,
                container,
                first,
                radius,
                cols as int,
                k as int,
            ));
        }
    }
}

fn push_tiles(
    out: &mut Vec<DisplayCommand>,
    gradient: &Gradient,
    container: Rect,
    at: Rect,
    repeat: BackgroundRepeat,
    radius: BorderRadius,
)
    ensures
        command_views(final(out)@) == command_views(old(out)@) + tiles(
            gradient@,
            container,
            at,
            repeat,
            radius,
        ),
{
    let w = at.width.max(Num::of(1));
    let h = at.height.max(Num::of(1));
    if repeat == BackgroundRepeat::NoRepeat || (w >= container.width && h >= container.height) {
        render_gradient(out, gradient, at, radius);
        return;
    }
    let rx = repeat != BackgroundRepeat::RepeatY;
    let ry = repeat != BackgroundRepeat::RepeatX;
    let x = first_tile(rx, at.x, w, container.x, container.width);
    let y = first_tile(ry, at.y, h, container.y, container.height);
    let cols: usize = count_tiles(rx, x, w, container.x + container.width, container.width);
    let rows: usize = count_tiles(ry, y, h, container.y + container.height, container.height);
    push_rows(out, gradient, container, Rect { x, y, width: w, height: h }, radius, cols, rows);
}

/// Render a single background layer.
pub(crate) fn render_background_layer(
    out: &mut Vec<DisplayCommand>,
    l: &BackgroundLayer,
    container: Rect,
    radius: BorderRadius,
)
    ensures
        command_views(final(out)@) == command_views(old(out)@) + layer(*l, container, radius),
{
    match &l.image {
        BackgroundImage::Absent => {},
        BackgroundImage::Gradient(gradient) => {
            let at = calculate_background_rect(
                container,
                &l.size,
                &l.position,
                container.width,
                container.height,
            );
            let clipped = at.x < container.x || at.y < container.y || at.x + at.width
                > container.x + container.width || at.y + at.height > container.y
                + container.height;
            if clipped {
                emit(out, (Clip { rect: container, radius }).pushed());
            }
            push_tiles(out, gradient, container, at, l.repeat, radius);
            if clipped {
                emit(out, DisplayCommand::PopClip);
            }
        },
        BackgroundImage::Url(url) => {
            emit(
                out,
                DisplayCommand::BackgroundImage {
                    url: url.clone(),
                    rect: container,
                    size: l.size,
                    position: Point { x: fraction_of(&l.position.x), y: fraction_of(&l.position.y) },
                    repeat: l.repeat,
                },
            );
        },
    }
    proof {
        assert(command_views(out@) =~= command_views(old(out)@) + layer(*l, container, radius));
    }
}

fn push_images(
    out: &mut Vec<DisplayCommand>,
    layout_box: &LayoutBox,
    rect: Rect,
    radius: BorderRadius,
)
    ensures
        command_views(final(out)@) == command_views(old(out)@) + background_images(
            layout_box@,
            rect,
            radius,
        ),
{
    let s = &layout_box.style;
    let n: usize = s.background_layers.len();
    if n == 0 {
        match &s.background_gradient {
            Some(gradient) => {
                render_gradient(out, gradient, rect, radius);
            },
            None => {},
        }
        proof {
            assert(command_views(out@) =~= command_views(old(out)@) + background_images(
                layout_box@,
                rect,
                radius,
            ));
        }
        return;
    }
    let ghost ls = s.background_layers@;
    let mut i: usize = 0;
    proof {
        assert(command_views(out@) =~= command_views(old(out)@) + layers(ls, 0, rect, radius));
    }
    while i < n
        invariant
            i <= n,
            n == ls.len(),
            ls == s.background_layers@,
            command_views(out@) == command_views(old(out)@) + layers(ls, i as int, rect, radius),
        decreases n - i,
    {
        render_background_layer(out, &s.background_layers[i], rect, radius);
        i = i + 1;
        proof {
            assert(command_views(out@) =~= command_views(old(out)@) + layers(
                ls,
                i as int,
                rect,
                radius,
            ));
        }
    }
}

/// Render background. Layers paint bottom to top, inside `background-clip`.
pub(crate) fn render_background(out: &mut Vec<DisplayCommand>, layout_box: &LayoutBox, root: Num)
    ensures
        command_views(final(out)@) == command_views(old(out)@) + background(layout_box@, root),
{
    let s = &layout_box.style;
    let radius = border_radius_px(layout_box, root);
    let rect = match background_rect(layout_box) {
        Some(rect) => rect,
        None => {
            proof {
                assert(command_views(out@) =~= command_views(old(out)@) + background(
                    layout_box@,
                    root,
                ));
            }
            return;
        },
    };
    let clipped = s.background_clip != BackgroundClip::BorderBox;
    if clipped {
        emit(out, DisplayCommand::PushClip(rect));
    }
    let filtered = match s.backdrop_filter {
        BackdropFilter::Absent => false,
        _ => true,
    };
    if filtered {
        emit(
            out,
            DisplayCommand::BackdropFilter {
                rect,
                border_radius: radius,
                filter: s.backdrop_filter,
            },
        );
    }
    if s.background_color.a > Num::zero() {
        if radius.is_zero() || clipped {
            emit(out, DisplayCommand::SolidColor(s.background_color, rect));
        } else {
            emit(out, DisplayCommand::RoundedRect { color: s.background_color, rect, radius });
        }
    }
    push_images(out, layout_box, rect, radius);
    if clipped {
        emit(out, DisplayCommand::PopClip);
    }
    proof {
        assert(command_views(out@) =~= command_views(old(out)@) + background(layout_box@, root));
    }
}

} // verus!

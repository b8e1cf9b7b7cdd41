//! Boxes without children: text, images, form controls, line breaks.
use vstd::prelude::*;
use vstd::string::*;
use crate::boxes::{line_views, BoxType, BoxV, LayoutBox};
use crate::geometry::{Dimensions, EdgeSizes, Rect};
use crate::num::Num;
use crate::sizing::{
    self, calculate_intrinsic_size, form_control_intrinsic_size, preferred_ratio_sizes,
    replaced_content_size, run_line_height,
};
use crate::style::{effective_word_break, BoxSizing, ComputedStyle, FontStretch, Length, WhiteSpace};
use crate::text::{
    self, contains_break, measure_text_with_spacing, LineV, Shaper, TextLine, TextMetrics,
    WrapRules, WrappedLine,
};

verus! {

impl BoxV {
    /// The text of a text box.
    pub open spec fn text(self) -> Seq<char> {
        match self.own.box_type {
            BoxType::Text(t) => t@,
            _ => Seq::empty(),
        }
    }
}

/// The metrics of a text in a style, with its letter and word spacing.
pub open spec fn spaced_metrics(sh: Shaper, style: ComputedStyle, text: Seq<char>) -> TextMetrics {
    let size = style.font_px();
    text::measured(
        sh,
        text,
        style.face(FontStretch::Normal, size),
        ComputedStyle::spacing(style.letter_spacing, size),
        ComputedStyle::spacing(style.word_spacing, size),
    )
}

/// The breaking rules of a style.
pub open spec fn wrap_rules(style: ComputedStyle, first: Option<Num>, width: Num) -> WrapRules {
    WrapRules {
        first,
        width,
        word_break: style.used_word_break(),
        overflow_wrap: style.overflow_wrap,
        white_space: style.white_space,
    }
}

/// The lines the shaper breaks a text into, where it has an answer.
#[verifier::opaque]
pub open spec fn wrapped(
    sh: Shaper,
    style: ComputedStyle,
    text: Seq<char>,
    first: Option<Num>,
    width: Num,
) -> Option<Seq<WrappedLine>> {
    match text::wrap_index(
        sh.wraps@,
        text,
        style.face(style.font_stretch, style.font_px()),
        wrap_rules(style, first, width),
        0,
    ) {
        Some(i) => Some(sh.wraps@[i].lines@),
        None => None,
    }
}

/// Whether line break characters of a text are kept.
pub open spec fn keeps_breaks(style: ComputedStyle) -> bool {
    style.white_space == WhiteSpace::Pre || style.white_space == WhiteSpace::PreWrap
        || style.white_space == WhiteSpace::PreLine || style.white_space
        == WhiteSpace::BreakSpaces
}

/// The width of the widest line.
pub open spec fn widest_line(lines: Seq<WrappedLine>) -> Num
    decreases lines.len(),
{
    if lines.len() == 0 {
        Num::nought()
    } else {
        Num::larger(widest_line(lines.drop_last()), lines.last().width)
    }
}

/// Line records of wrapped lines, the first at an offset.
pub open spec fn records(lines: Seq<WrappedLine>, first_offset: Num) -> Seq<LineV> {
    Seq::new(
        lines.len(),
        |i: int|
            LineV {
                text: lines[i].text@,
                width: lines[i].width,
                x_offset: if i == 0 {
                    first_offset
                } else {
                    Num::nought()
                },
                justify_space: Num::nought(),
            },
    )
}

/// The lines a text box breaks into when it starts a line: where it is wider
/// than a container of known width and may wrap, or where it holds line
/// breaks that are kept. A text without such a break stays one run when the
/// shaper finds no place to break it.
pub open spec fn block_lines(sh: Shaper, b: BoxV, cb: Dimensions, zero_is_known: bool) -> Option<
    Seq<WrappedLine>,
> {
    let style = b.own.style;
    let width = cb.content.width;
    let known = width > Num::nought() || zero_is_known;
    let overflows = !style.no_wrap() && known && spaced_metrics(sh, style, b.text()).width > width;
    let breaks = keeps_breaks(style) && text::has_break(b.text());
    if overflows || breaks {
        match wrapped(
            sh,
            style,
            b.text(),
            None,
            if !style.no_wrap() && known {
                width
            } else {
                Num::unbounded()
            },
        ) {
            Some(lines) => if lines.len() > 1 || breaks {
                Some(lines)
            } else {
                None
            },
            None => None,
        }
    } else {
        None
    }
}

/// A width held inside a container of known width.
pub open spec fn clamped(width: Num, container: Num) -> Num {
    if container > Num::nought() {
        Num::smaller(width, container)
    } else {
        width
    }
}

/// A text box laid out from the start of a line.
#[verifier::opaque]
pub open spec fn text_laid(sh: Shaper, b: BoxV, cb: Dimensions, zero_is_known: bool) -> BoxV {
    let style = b.own.style;
    let m = spaced_metrics(sh, style, b.text());
    let line = sizing::run_height(sh, style, style.font_px(), m);
    let lines = block_lines(sh, b, cb, zero_is_known);
    BoxV {
        lines: match lines {
            Some(l) => Some(records(l, Num::nought())),
            None => None,
        },
        flow: None,
        dim: Dimensions {
            content: Rect {
                x: cb.content.x,
                y: cb.content.y + cb.content.height,
                width: clamped(
                    match lines {
                        Some(l) => widest_line(l),
                        None => m.width,
                    },
                    cb.content.width,
                ),
                height: match lines {
                    Some(l) => Num::whole(l.len() as int) * line,
                    None => line,
                },
            },
            ..b.dim
        },
        ..b
    }
}

/// The extents of a run over all its lines.
pub open spec fn united(lines: Seq<WrappedLine>) -> TextMetrics
    decreases lines.len(),
{
    if lines.len() == 0 {
        TextMetrics {
            width: Num::nought(),
            ascent: Num::nought(),
            descent: Num::nought(),
            leading: Num::nought(),
            underline_offset: Num::nought(),
            underline_thickness: Num::nought(),
            strikethrough_offset: Num::nought(),
            overline_offset: Num::nought(),
        }
    } else {
        let before = united(lines.drop_last());
        let l = lines.last();
        TextMetrics {
            ascent: Num::larger(before.ascent, l.ascent),
            descent: Num::larger(before.descent, l.descent),
            leading: Num::larger(before.leading, l.leading),
            ..before
        }
    }
}

/// The lines of a text box that starts at an offset in a line.
pub open spec fn flow_lines(sh: Shaper, b: BoxV, cb: Dimensions, first_offset: Num) -> Option<
    Seq<WrappedLine>,
> {
    let width = cb.content.width;
    let first = if first_offset > Num::nought() {
        Some(Num::larger(width - first_offset, Num::nought()))
    } else {
        None
    };
    match wrapped(sh, b.own.style, b.text(), first, width) {
        Some(lines) => if lines.len() > 0 {
            Some(lines)
        } else {
            None
        },
        None => None,
    }
}

/// A text box laid out from an offset in a line, with the number of its lines
/// and the width of the last one.
#[verifier::opaque]
pub open spec fn text_flowed(
    sh: Shaper,
    b: BoxV,
    cb: Dimensions,
    line_top: Num,
    first_offset: Num,
) -> (BoxV, int, Num) {
    match flow_lines(sh, b, cb, first_offset) {
        Some(lines) => {
            let style = b.own.style;
            let line = sizing::run_height(sh, style, style.font_px(), united(lines));
            (
                BoxV {
                    lines: Some(records(lines, first_offset)),
                    flow: Some(first_offset),
                    dim: Dimensions {
                        content: Rect {
                            x: cb.content.x,
                            y: line_top,
                            width: cb.content.width,
                            height: Num::whole(lines.len() as int) * line,
                        },
                        ..b.dim
                    },
                    ..b
                },
                lines.len() as int,
                lines.last().width,
            )
        },
        None => {
            let c = text_laid(sh, b, cb, false);
            (c, 1, c.dim.content.width)
        },
    }
}

fn line_records(lines: &Vec<WrappedLine>, first_offset: Num) -> (r: Vec<TextLine>)
    ensures
        line_views(r@) == records(lines@, first_offset),
        r@.len() == lines@.len(),
{
    let mut out: Vec<TextLine> = Vec::new();
    let mut i: usize = 0;
    while i < lines.len()
        invariant
            i <= lines.len(),
            out@.len() == i,
            forall|j: int| 0 <= j < i ==> (#[trigger] out@[j])@ == records(lines@, first_offset)[j],
        decreases lines.len() - i,
    {
        out.push(
            TextLine {
                text: lines[i].text.clone(),
                width: lines[i].width,
                x_offset: if i == 0 {
                    first_offset
                } else {
                    Num::zero()
                },
                justify_space: Num::zero(),
            },
        );
        i = i + 1;
    }
    proof {
        assert(line_views(out@) =~= records(lines@, first_offset));
    }
    out
}

fn widest_of(lines: &Vec<WrappedLine>) -> (r: Num)
    ensures
        r == widest_line(lines@),
{
    let mut w = Num::zero();
    let mut i: usize = 0;
    while i < lines.len()
        invariant
            i <= lines.len(),
            w == widest_line(lines@.take(i as int)),
        decreases lines.len() - i,
    {
        proof {
            assert(lines@.take(i + 1).drop_last() =~= lines@.take(i as int));
        }
        w = w.max(lines[i].width);
        i = i + 1;
    }
    proof {
        assert(lines@.take(i as int) =~= lines@);
    }
    w
}

fn unite(lines: &Vec<WrappedLine>) -> (r: TextMetrics)
    ensures
        r == united(lines@),
{
    let zero = Num::zero();
    let mut m = TextMetrics {
        width: zero,
        ascent: zero,
        descent: zero,
        leading: zero,
        underline_offset: zero,
        underline_thickness: zero,
        strikethrough_offset: zero,
        overline_offset: zero,
    };
    let mut i: usize = 0;
    while i < lines.len()
        invariant
            i <= lines.len(),
            m == united(lines@.take(i as int)),
        decreases lines.len() - i,
    {
        proof {
            assert(lines@.take(i + 1).drop_last() =~= lines@.take(i as int));
        }
        m.ascent = m.ascent.max(lines[i].ascent);
        m.descent = m.descent.max(lines[i].descent);
        m.leading = m.leading.max(lines[i].leading);
        i = i + 1;
    }
    proof {
        assert(lines@.take(i as int) =~= lines@);
    }
    m
}

fn find_wrapped(
    shaper: &Shaper,
    style: &ComputedStyle,
    text: &String,
    first: Option<Num>,
    width: Num,
) -> (r: Option<usize>)
    ensures
        match wrapped(*shaper, *style, text@, first, width) {
            Some(lines) => r is Some && r->0 < shaper.wraps@.len() && shaper.wraps@[r->0 as
                int].lines@ == lines,
            None => r is None,
        },
{
    proof {
        reveal(wrapped);
    }
    let rules = WrapRules {
        first,
        width,
        word_break: effective_word_break(style),
        overflow_wrap: style.overflow_wrap,
        white_space: style.white_space,
    };
    let face = style.face_at(style.font_stretch, style.font_size_px());
    shaper.find_wrap(text, &face, &rules)
}

fn measure_spaced(shaper: &Shaper, style: &ComputedStyle, text: &String) -> (r: TextMetrics)
    ensures
        r == spaced_metrics(*shaper, *style, text@),
{
    let size = style.font_size_px();
    let letter = ComputedStyle::spacing_px(style.letter_spacing, size);
    let word = ComputedStyle::spacing_px(style.word_spacing, size);
    let face = style.face_at(FontStretch::Normal, size);
    measure_text_with_spacing(shaper, text, &face, letter, word)
}

/// The edges of a box of which lengths resolve without a viewport, against
/// the width of the containing block.
pub open spec fn plain_edges(s: ComputedStyle, w: Num) -> (EdgeSizes, EdgeSizes, EdgeSizes) {
    let k = Num::whole(16);
    (
        EdgeSizes {
            top: s.margin_top.px(k, k, w),
            right: s.margin_right.px(k, k, w),
            bottom: s.margin_bottom.px(k, k, w),
            left: s.margin_left.px(k, k, w),
        },
        EdgeSizes {
            top: s.border_top_width.px(k, k, w),
            right: s.border_right_width.px(k, k, w),
            bottom: s.border_bottom_width.px(k, k, w),
            left: s.border_left_width.px(k, k, w),
        },
        EdgeSizes {
            top: s.padding_top.px(k, k, w),
            right: s.padding_right.px(k, k, w),
            bottom: s.padding_bottom.px(k, k, w),
            left: s.padding_left.px(k, k, w),
        },
    )
}

/// Margin, border and padding of a box, resolved without a viewport.
pub(crate) fn resolve_plain_edges(s: &ComputedStyle, w: Num) -> (r: (
    EdgeSizes,
    EdgeSizes,
    EdgeSizes,
))
    ensures
        r == plain_edges(*s, w),
{
    let k = Num::of(16);
    (
        EdgeSizes {
            top: s.margin_top.to_px(k, k, w),
            right: s.margin_right.to_px(k, k, w),
            bottom: s.margin_bottom.to_px(k, k, w),
            left: s.margin_left.to_px(k, k, w),
        },
        EdgeSizes {
            top: s.border_top_width.to_px(k, k, w),
            right: s.border_right_width.to_px(k, k, w),
            bottom: s.border_bottom_width.to_px(k, k, w),
            left: s.border_left_width.to_px(k, k, w),
        },
        EdgeSizes {
            top: s.padding_top.to_px(k, k, w),
            right: s.padding_right.to_px(k, k, w),
            bottom: s.padding_bottom.to_px(k, k, w),
            left: s.padding_left.to_px(k, k, w),
        },
    )
}

/// A size in pixels or a percentage of a basis; other lengths are none.
pub open spec fn plain_size(l: Length, basis: Num) -> Option<Num> {
    match l {
        Length::Px(px) => Some(px),
        Length::Percent(p) => Some(p / Num::whole(100) * basis),
        _ => None,
    }
}

fn resolve_plain_size(l: Length, basis: Num) -> (r: Option<Num>)
    ensures
        r == plain_size(l, basis),
{
    match l {
        Length::Px(px) => Some(px),
        Length::Percent(p) => Some(p / Num::of(100) * basis),
        _ => None,
    }
}

/// A natural size, where it is above zero.
pub open spec fn known_size(n: Num) -> Option<Num> {
    if n > Num::nought() {
        Some(n)
    } else {
        None
    }
}

fn known(n: Num) -> (r: Option<Num>)
    ensures
        r == known_size(n),
{
    if n > Num::zero() {
        Some(n)
    } else {
        None
    }
}

/// A size held to a maximum, the other axis in proportion: the pair is that
/// axis and the other one.
pub open spec fn held_to(size: Num, other: Num, max: Option<Num>) -> (Num, Num) {
    match max {
        Some(m) => if size > m && size > Num::nought() {
            (
                m,
                if other > Num::nought() {
                    m * other / size
                } else {
                    other
                },
            )
        } else {
            (size, other)
        },
        None => (size, other),
    }
}

fn hold_to(size: Num, other: Num, max: Option<Num>) -> (r: (Num, Num))
    ensures
        r == held_to(size, other, max),
{
    match max {
        Some(m) => {
            if size > m && size > Num::zero() {
                let o = if other > Num::zero() {
                    m * other / size
                } else {
                    other
                };
                (m, o)
            } else {
                (size, other)
            }
        },
        None => (size, other),
    }
}

/// The content size of an image: specified sizes, the preferred or natural
/// ratio for a missing one, then the maximal width and the maximal height,
/// each in proportion.
pub open spec fn image_size(
    s: ComputedStyle,
    natural_width: Num,
    natural_height: Num,
    horizontal: Num,
    vertical: Num,
    cb: Dimensions,
) -> (Num, Num) {
    let bb = s.box_sizing == BoxSizing::BorderBox;
    let width = sizing::content_size(plain_size(s.width, cb.content.width), horizontal, bb);
    let height = sizing::content_size(plain_size(s.height, cb.content.height), vertical, bb);
    let (w1, h1) = sizing::ratio_sizes(
        width,
        height,
        known_size(natural_width),
        s.aspect_ratio,
        horizontal,
        vertical,
        bb,
    );
    let (w2, h2) = sizing::intrinsic_size(
        known_size(natural_width),
        known_size(natural_height),
        w1,
        h1,
    );
    let max_w = sizing::content_size(plain_size(s.max_width, cb.content.width), horizontal, bb);
    let max_h = sizing::content_size(plain_size(s.max_height, cb.content.height), vertical, bb);
    let (w3, h3) = held_to(w2, h2, max_w);
    let (h4, w4) = held_to(h3, w3, max_h);
    (w4, h4)
}

/// An image laid out.
#[verifier::opaque]
pub open spec fn image_laid(
    b: BoxV,
    natural_width: Num,
    natural_height: Num,
    cb: Dimensions,
) -> BoxV {
    let (margin, border, padding) = plain_edges(b.own.style, cb.content.width);
    let (width, height) = image_size(
        b.own.style,
        natural_width,
        natural_height,
        border.left + border.right + padding.left + padding.right,
        border.top + border.bottom + padding.top + padding.bottom,
        cb,
    );
    b.with_dim(
        Dimensions {
            content: Rect {
                x: cb.content.x + margin.left + border.left + padding.left,
                y: cb.content.y + cb.content.height + margin.top + border.top + padding.top,
                width,
                height,
            },
            margin,
            border,
            padding,
        },
    )
}

/// A size of a form control: the specified one, or the intrinsic one where
/// that is not above zero.
pub open spec fn control_length(l: Length, basis: Num, font_size: Num, intrinsic: Num) -> Num {
    let specified = match l {
        Length::Px(px) => px,
        Length::Percent(p) => p / Num::whole(100) * basis,
        Length::Em(em) => if em > Num::nought() {
            em * font_size
        } else {
            intrinsic
        },
        _ => intrinsic,
    };
    match l {
        Length::Px(_) => if specified > Num::nought() {
            specified
        } else {
            intrinsic
        },
        Length::Percent(_) => if specified > Num::nought() {
            specified
        } else {
            intrinsic
        },
        _ => specified,
    }
}

fn resolve_control_length(l: Length, basis: Num, font_size: Num, intrinsic: Num) -> (r: Num)
    ensures
        r == control_length(l, basis, font_size, intrinsic),
{
    match l {
        Length::Px(px) => {
            if px > Num::zero() {
                px
            } else {
                intrinsic
            }
        },
        Length::Percent(p) => {
            let v = p / Num::of(100) * basis;
            if v > Num::zero() {
                v
            } else {
                intrinsic
            }
        },
        Length::Em(em) => {
            if em > Num::zero() {
                em * font_size
            } else {
                intrinsic
            }
        },
        _ => intrinsic,
    }
}

/// A form control laid out. Its content box is its border box.
#[verifier::opaque]
pub open spec fn control_laid(sh: Shaper, b: BoxV, cb: Dimensions) -> BoxV {
    let o = b.own;
    let w = cb.content.width;
    let size = match o.box_type {
        BoxType::FormControl(control) => sizing::control_size(sh, o.style, control),
        _ => (Num::nought(), Num::nought()),
    };
    let margin = EdgeSizes {
        top: o.px(b.viewport, o.style.margin_top, w),
        right: o.px(b.viewport, o.style.margin_right, w),
        bottom: o.px(b.viewport, o.style.margin_bottom, w),
        left: o.px(b.viewport, o.style.margin_left, w),
    };
    b.with_dim(
        Dimensions {
            content: Rect {
                x: cb.content.x + margin.left,
                y: cb.content.y + cb.content.height + margin.top,
                width: control_length(o.style.width, w, o.style.font_px(), size.0),
                height: control_length(
                    o.style.height,
                    cb.content.height,
                    o.style.font_px(),
                    size.1,
                ),
            },
            margin,
            ..b.dim
        },
    )
}

/// A line break: a mark without size.
pub open spec fn break_laid(b: BoxV, x: Num, y: Num) -> BoxV {
    b.with_dim(
        Dimensions {
            content: Rect { x, y, width: Num::nought(), height: Num::nought() },
            ..b.dim
        },
    )
}

impl LayoutBox {
    /// Single-line measured width of a text box (no wrapping).
    pub fn text_single_line_width(&self, shaper: &Shaper) -> (r: Num)
        ensures
            r == if self@.is_text() {
                spaced_metrics(*shaper, self.style, self@.text()).width
            } else {
                Num::nought()
            },
    {
        match &self.box_type {
            BoxType::Text(text) => measure_spaced(shaper, &self.style, text).width,
            _ => Num::zero(),
        }
    }

    /// Layout a text box from the start of a line. `container_is_definite_zero`
    /// tells an author's `width: 0` from a width that is not known yet.
    pub fn layout_text_with_zero_wrap(
        &mut self,
        shaper: &Shaper,
        containing_block: &Dimensions,
        container_is_definite_zero: bool,
    )
        requires
            old(self)@.is_text(),
        ensures
            final(self)@ == text_laid(
                *shaper,
                old(self)@,
                *containing_block,
                container_is_definite_zero,
            ),
    {
        proof {
            reveal(text_laid);
        }
        let text: String = match &self.box_type {
            BoxType::Text(t) => t.clone(),
            _ => String::new(),
        };
        let size = self.style.font_size_px();
        let metrics = measure_spaced(shaper, &self.style, &text);
        let line = run_line_height(shaper, &self.style, size, &metrics);
        let cb = containing_block;
        let width = cb.content.width;
        let wraps = !self.style.is_no_wrap();
        let known = width > Num::zero() || container_is_definite_zero;
        let overflows = wraps && known && metrics.width > width;
        let breaks = (self.style.white_space == WhiteSpace::Pre || self.style.white_space
            == WhiteSpace::PreWrap || self.style.white_space == WhiteSpace::PreLine
            || self.style.white_space == WhiteSpace::BreakSpaces) && contains_break(&text);
        self.text_lines = None;
        self.text_flow_first_offset = None;
        self.dimensions.content.x = cb.content.x;
        self.dimensions.content.y = cb.content.y + cb.content.height;
        self.dimensions.content.height = line;
        let mut content_width = metrics.width;
        if overflows || breaks {
            let wrap_width = if wraps && known {
                width
            } else {
                Num::infinity()
            };
            match find_wrapped(shaper, &self.style, &text, None, wrap_width) {
                Some(i) => {
                    let lines: &Vec<WrappedLine> = &shaper.wraps[i].lines;
                    if lines.len() > 1 || breaks {
                        content_width = widest_of(lines);
                        self.dimensions.content.height = Num::from_usize(lines.len()) * line;
                        self.text_lines = Some(line_records(lines, Num::zero()));
                    }
                },
                None => {},
            }
        }
        self.dimensions.content.width = if width > Num::zero() {
            content_width.min(width)
        } else {
            content_width
        };
    }

    /// Layout a text box that starts at an offset in the current line: the
    /// first line fills what is left of it, the others the container's width.
    /// Returns the number of lines and the width of the last one.
    pub fn layout_text_in_flow(
        &mut self,
        shaper: &Shaper,
        containing_block: &Dimensions,
        line_top_y: Num,
        first_line_offset: Num,
    ) -> (r: (usize, Num))
        requires
            old(self)@.is_text(),
        ensures
            ({
                let (b, count, last) = text_flowed(
                    *shaper,
                    old(self)@,
                    *containing_block,
                    line_top_y,
                    first_line_offset,
                );
                final(self)@ == b && r.0 == count && r.1 == last
            }),
    {
        proof {
            reveal(text_flowed);
        }
        let text: String = match &self.box_type {
            BoxType::Text(t) => t.clone(),
            _ => String::new(),
        };
        let cb = containing_block;
        let width = cb.content.width;
        let size = self.style.font_size_px();
        let first = if first_line_offset > Num::zero() {
            Some((width - first_line_offset).max(Num::zero()))
        } else {
            None
        };
        match find_wrapped(shaper, &self.style, &text, first, width) {
            Some(i) => {
                let lines: &Vec<WrappedLine> = &shaper.wraps[i].lines;
                if lines.len() > 0 {
                    let metrics = unite(lines);
                    let line = run_line_height(shaper, &self.style, size, &metrics);
                    self.text_lines = Some(line_records(lines, first_line_offset));
                    self.text_flow_first_offset = Some(first_line_offset);
                    self.dimensions.content.x = cb.content.x;
                    self.dimensions.content.y = line_top_y;
                    self.dimensions.content.width = width;
                    self.dimensions.content.height = Num::from_usize(lines.len()) * line;
                    return (lines.len(), lines[lines.len() - 1].width);
                }
            },
            None => {},
        }
        self.layout_text_with_zero_wrap(shaper, containing_block, false);
        (1, self.dimensions.content.width)
    }

    /// Layout a replaced element (image).
    pub fn layout_image(
        &mut self,
        natural_width: Num,
        natural_height: Num,
        containing_block: &Dimensions,
    )
        ensures
            final(self)@ == image_laid(
                old(self)@,
                natural_width,
                natural_height,
                *containing_block,
            ),
    {
        proof {
            reveal(image_laid);
        }
        let cb = containing_block;
        let (margin, border, padding) = resolve_plain_edges(&self.style, cb.content.width);
        let horizontal = border.left + border.right + padding.left + padding.right;
        let vertical = border.top + border.bottom + padding.top + padding.bottom;
        let bb = self.style.box_sizing == BoxSizing::BorderBox;
        let width = replaced_content_size(
            resolve_plain_size(self.style.width, cb.content.width),
            horizontal,
            bb,
        );
        let height = replaced_content_size(
            resolve_plain_size(self.style.height, cb.content.height),
            vertical,
            bb,
        );
        let (w1, h1) = preferred_ratio_sizes(
            width,
            height,
            known(natural_width),
            self.style.aspect_ratio,
            horizontal,
            vertical,
            bb,
        );
        let (w2, h2) = calculate_intrinsic_size(
            known(natural_width),
            known(natural_height),
            w1,
            h1,
        );
        let max_w = replaced_content_size(
            resolve_plain_size(self.style.max_width, cb.content.width),
            horizontal,
            bb,
        );
        let max_h = replaced_content_size(
            resolve_plain_size(self.style.max_height, cb.content.height),
            vertical,
            bb,
        );
        let (w3, h3) = hold_to(w2, h2, max_w);
        let (h4, w4) = hold_to(h3, w3, max_h);
        self.dimensions = Dimensions {
            content: Rect {
                x: cb.content.x + margin.left + border.left + padding.left,
                y: cb.content.y + cb.content.height + margin.top + border.top + padding.top,
                width: w4,
                height: h4,
            },
            margin,
            border,
            padding,
        };
    }

    /// Layout a form control (input, button, textarea, etc.)
    pub fn layout_form_control(&mut self, shaper: &Shaper, containing_block: &Dimensions)
        requires
            old(self)@.is_control(),
        ensures
            final(self)@ == control_laid(*shaper, old(self)@, *containing_block),
    {
        proof {
            reveal(control_laid);
        }
        let size = self.style.font_size_px();
        let (intrinsic_width, intrinsic_height) = match &self.box_type {
            BoxType::FormControl(control) => form_control_intrinsic_size(
                shaper,
                &self.style,
                control,
            ),
            _ => (Num::zero(), Num::zero()),
        };
        let cb = containing_block;
        let w = cb.content.width;
        let width = resolve_control_length(self.style.width, w, size, intrinsic_width);
        let height = resolve_control_length(
            self.style.height,
            cb.content.height,
            size,
            intrinsic_height,
        );
        let margin = EdgeSizes {
            top: self.length_to_px(&self.style.margin_top, w),
            right: self.length_to_px(&self.style.margin_right, w),
            bottom: self.length_to_px(&self.style.margin_bottom, w),
            left: self.length_to_px(&self.style.margin_left, w),
        };
        self.dimensions.margin = margin;
        self.dimensions.content = Rect {
            x: cb.content.x + margin.left,
            y: cb.content.y + cb.content.height + margin.top,
            width,
            height,
        };
    }

    /// Places a line break.
    pub(crate) fn layout_break(&mut self, x: Num, y: Num)
        ensures
            final(self)@ == break_laid(old(self)@, x, y),
    {
        self.dimensions.content = Rect::new(x, y, Num::zero(), Num::zero());
    }
}

/// Laying out a leaf changes neither what it is nor its children.
pub proof fn lemma_leaf_keeps_tree(
    sh: Shaper,
    b: BoxV,
    cb: Dimensions,
    zero_is_known: bool,
    a: Num,
    c: Num,
)
    ensures
        text_laid(sh, b, cb, zero_is_known).children == b.children,
        text_laid(sh, b, cb, zero_is_known).own == b.own,
        text_laid(sh, b, cb, zero_is_known).viewport == b.viewport,
        text_flowed(sh, b, cb, a, c).0.children == b.children,
        text_flowed(sh, b, cb, a, c).0.own == b.own,
        text_flowed(sh, b, cb, a, c).0.viewport == b.viewport,
        image_laid(b, a, c, cb).children == b.children,
        image_laid(b, a, c, cb).own == b.own,
        image_laid(b, a, c, cb).viewport == b.viewport,
        control_laid(sh, b, cb).children == b.children,
        control_laid(sh, b, cb).own == b.own,
        control_laid(sh, b, cb).viewport == b.viewport,
{
    reveal(text_laid);
    reveal(text_flowed);
    reveal(image_laid);
    reveal(control_laid);
}

/// An image keeps its proportions under a maximal width.
pub proof fn lemma_held_in_proportion(width: Num, height: Num, max: Num)
    requires
        width > max,
        width > Num::nought(),
        height > Num::nought(),
    ensures
        held_to(width, height, Some(max)) == (max, max * height / width),
{
}

/// A text that fits its container, and holds no break that is kept, is one run.
pub proof fn lemma_fitting_text_is_one_run(
    sh: Shaper,
    b: BoxV,
    cb: Dimensions,
    zero_is_known: bool,
)
    requires
        !(spaced_metrics(sh, b.own.style, b.text()).width > cb.content.width),
        !(keeps_breaks(b.own.style) && text::has_break(b.text())),
    ensures
        text_laid(sh, b, cb, zero_is_known).lines is None,
{
    reveal(text_laid);
}

/// A text laid out from the start of a line carries no offset of an earlier
/// mid-line layout.
pub proof fn lemma_block_text_starts_its_line(
    sh: Shaper,
    b: BoxV,
    cb: Dimensions,
    zero_is_known: bool,
)
    ensures
        text_laid(sh, b, cb, zero_is_known).flow is None,
        text_laid(sh, b, cb, zero_is_known).own == b.own,
{
    reveal(text_laid);
}

} // verus!

//! Sizes that follow from style and font alone: line heights, baselines,
//! replaced elements, form controls.
use vstd::prelude::*;
use crate::num::Num;
use crate::style::{BoxSizing, ComputedStyle, FontStretch, Length};
use crate::text::{self, is_word, measure_text_advanced, measure_x, Shaper, TextMetrics};

verus! {

/// The line height of one face: ascent, descent and gap, each a whole pixel.
pub open spec fn used_line_height(m: TextMetrics) -> Num {
    Num::rounded(m.ascent) + Num::rounded(m.descent) + Num::rounded(m.leading)
}

/// The font's own line height, from its metrics; the flat ratio 1.2 where
/// there are none.
pub open spec fn normal_height(sh: Shaper, style: ComputedStyle, size: Num) -> Num {
    let m = text::x_metrics(sh, style, size);
    if m.ascent > Num::nought() {
        used_line_height(m)
    } else {
        size * Num::ratio(12, 10)
    }
}

/// The line height of a style in pixels.
pub open spec fn line_px(sh: Shaper, style: ComputedStyle, size: Num) -> Num {
    if style.line_height.is_normal() {
        normal_height(sh, style, size)
    } else {
        style.line_height.px(size)
    }
}

/// The line height of one run: under `normal` its own faces may make it taller.
pub open spec fn run_height(sh: Shaper, style: ComputedStyle, size: Num, m: TextMetrics) -> Num {
    let base = line_px(sh, style, size);
    if !style.line_height.is_normal() || m.ascent <= Num::nought() {
        base
    } else {
        Num::larger(base, used_line_height(m))
    }
}

/// Half of what the line height leaves around ascent and descent, with sign.
pub open spec fn leading(line_height: Num, ascent: Num, descent: Num) -> Num {
    (line_height - (ascent + descent)) / Num::whole(2)
}

/// Ascent and descent of a style's font; 0.8 and 0.2 of the size where the
/// font gives none.
pub open spec fn font_extents(sh: Shaper, style: ComputedStyle, size: Num) -> (Num, Num) {
    let m = text::x_metrics(sh, style, size);
    if m.ascent > Num::nought() {
        (m.ascent, m.descent)
    } else {
        (size * Num::ratio(8, 10), size * Num::ratio(2, 10))
    }
}

/// The extents of a line of text above and below its baseline: the part above
/// is a whole pixel, and the two sum to the line height.
pub open spec fn line_extents(sh: Shaper, style: ComputedStyle) -> (Num, Num) {
    let size = style.font_px();
    let (a, d) = font_extents(sh, style, size);
    let ascent = Num::rounded(a);
    let descent = Num::rounded(d);
    let height = line_px(sh, style, size);
    let above = ascent + Num::floored((height - (ascent + descent)) / Num::whole(2));
    (above, Num::larger(height - above, Num::nought()))
}

fn used_font_line_height(m: &TextMetrics) -> (r: Num)
    ensures
        r == used_line_height(*m),
{
    m.ascent.round() + m.descent.round() + m.leading.round()
}

/// The font's own `line-height: normal`, in px.
pub fn normal_line_height(shaper: &Shaper, style: &ComputedStyle, font_size: Num) -> (r: Num)
    ensures
        r == normal_height(*shaper, *style, font_size),
{
    let m = measure_x(shaper, style, font_size);
    if m.ascent > Num::zero() {
        used_font_line_height(&m)
    } else {
        font_size * Num::frac(12, 10)
    }
}

/// Resolve a box's `line-height` to px, consulting font metrics for `normal`.
pub fn resolve_line_height(shaper: &Shaper, style: &ComputedStyle, font_size: Num) -> (r: Num)
    ensures
        r == line_px(*shaper, *style, font_size),
{
    if style.line_height.is_normal() {
        normal_line_height(shaper, style, font_size)
    } else {
        style.line_height.to_px(font_size)
    }
}

/// Line height of one shaped text run.
pub fn run_line_height(
    shaper: &Shaper,
    style: &ComputedStyle,
    font_size: Num,
    metrics: &TextMetrics,
) -> (r: Num)
    ensures
        r == run_height(*shaper, *style, font_size, *metrics),
{
    let base = resolve_line_height(shaper, style, font_size);
    if !style.line_height.is_normal() || metrics.ascent <= Num::zero() {
        return base;
    }
    base.max(used_font_line_height(metrics))
}

/// Half-leading of a line: half of the line height minus the content area. It
/// is negative where the line is lower than the content area.
pub fn half_leading(line_height: Num, ascent: Num, descent: Num) -> (r: Num)
    ensures
        r == leading(line_height, ascent, descent),
{
    (line_height - (ascent + descent)) / Num::of(2)
}

/// The distance from a line's top to the baseline of a run: ascent and descent
/// are whole pixels and the leading above the text is rounded down.
pub open spec fn seat(line_height: Num, ascent: Num, descent: Num) -> Num {
    Num::floored(leading(line_height, Num::rounded(ascent), Num::rounded(descent)))
        + Num::rounded(ascent)
}

/// Distance from a line's top to the baseline of a text run.
pub fn blink_baseline_offset(line_height: Num, ascent: Num, descent: Num) -> (r: Num)
    ensures
        r == seat(line_height, ascent, descent),
{
    let a = ascent.round();
    let d = descent.round();
    half_leading(line_height, a, d).floor() + a
}

/// The extents a run's baseline is seated on: those of all its faces under
/// `line-height: normal`, those of the primary face otherwise.
pub open spec fn seat_extents(
    sh: Shaper,
    style: ComputedStyle,
    size: Num,
    is_ascii: bool,
    united: TextMetrics,
) -> (Num, Num) {
    let primary = text::x_metrics(sh, style, size);
    if style.line_height.is_normal() || is_ascii || !(primary.ascent > Num::nought()) {
        (united.ascent, united.descent)
    } else {
        (primary.ascent, primary.descent)
    }
}

/// The metrics a run's baseline is seated on.
pub fn seat_metrics(
    shaper: &Shaper,
    style: &ComputedStyle,
    font_size: Num,
    text: &String,
    united: &TextMetrics,
) -> (r: (Num, Num))
    ensures
        r == seat_extents(
            *shaper,
            *style,
            font_size,
            vstd::string::string_is_ascii(text),
            *united,
        ),
{
    if style.line_height.is_normal() || text.as_str().is_ascii() {
        return (united.ascent, united.descent);
    }
    let primary = measure_x(shaper, style, font_size);
    if primary.ascent > Num::zero() {
        (primary.ascent, primary.descent)
    } else {
        (united.ascent, united.descent)
    }
}

pub(crate) fn font_ascent_descent(shaper: &Shaper, style: &ComputedStyle, size: Num) -> (r: (
    Num,
    Num,
))
    ensures
        r == font_extents(*shaper, *style, size),
{
    let m = measure_x(shaper, style, size);
    if m.ascent > Num::zero() {
        (m.ascent, m.descent)
    } else {
        (size * Num::frac(8, 10), size * Num::frac(2, 10))
    }
}

/// The extents of a line of text about its baseline, half the leading in each.
pub open spec fn baseline_extents(sh: Shaper, style: ComputedStyle) -> (Num, Num) {
    let size = style.font_px();
    let m = text::x_metrics(sh, style, size);
    let half = leading(line_px(sh, style, size), m.ascent, m.descent);
    (half + m.ascent, half + m.descent)
}

/// Above- and below-baseline extents of a line of text in a style, half the
/// leading included.
pub fn text_baseline_extents(shaper: &Shaper, style: &ComputedStyle) -> (r: (Num, Num))
    ensures
        r == baseline_extents(*shaper, *style),
{
    let size = style.font_size_px();
    let m = measure_x(shaper, style, size);
    let half = half_leading(resolve_line_height(shaper, style, size), m.ascent, m.descent);
    (half + m.ascent, half + m.descent)
}

/// The same split for sizing a line box: the part above the baseline is a
/// whole pixel.
pub fn text_line_box_extents(shaper: &Shaper, style: &ComputedStyle) -> (r: (Num, Num))
    ensures
        r == line_extents(*shaper, *style),
{
    let size = style.font_size_px();
    let (a, d) = font_ascent_descent(shaper, style, size);
    let ascent = a.round();
    let descent = d.round();
    let height = resolve_line_height(shaper, style, size);
    let above = ascent + ((height - (ascent + descent)) / Num::of(2)).floor();
    (above, (height - above).max(Num::zero()))
}

/// The height of a line box that closes: the largest extents above and below
/// the baseline with the strut in each, and no less than the tallest member
/// or the members that hang from the bottom edge.
pub open spec fn advance(
    tallest: Num,
    bottom_edge: Num,
    extents: (Num, Num),
    strut: (Num, Num),
) -> Num {
    Num::larger(
        Num::larger(tallest, bottom_edge),
        Num::larger(extents.0, strut.0) + Num::larger(extents.1, strut.1),
    )
}

/// Height of a closing line box.
pub fn line_advance(tallest: Num, bottom_edge: Num, extents: (Num, Num), strut: (Num, Num)) -> (r:
    Num)
    ensures
        r == advance(tallest, bottom_edge, extents, strut),
{
    tallest.max(bottom_edge).max(extents.0.max(strut.0) + extents.1.max(strut.1))
}

/// The content height an `aspect-ratio` gives a box of a known content width.
/// The ratio is that of the box `box-sizing` names.
pub open spec fn ratio_height(
    style: ComputedStyle,
    content_width: Num,
    edges_w: Num,
    edges_h: Num,
) -> Option<Num> {
    match style.aspect_ratio {
        Some(ratio) => if !(ratio > Num::nought()) || ratio.inf() || !(content_width
            > Num::nought()) {
            None
        } else if style.box_sizing == BoxSizing::BorderBox {
            Some(Num::larger((content_width + edges_w) / ratio - edges_h, Num::nought()))
        } else {
            Some(content_width / ratio)
        },
        None => None,
    }
}

/// The content height a non-`auto` `aspect-ratio` implies.
pub fn aspect_ratio_content_height(
    style: &ComputedStyle,
    content_width: Num,
    padding_border_w: Num,
    padding_border_h: Num,
) -> (r: Option<Num>)
    ensures
        r == ratio_height(*style, content_width, padding_border_w, padding_border_h),
{
    match style.aspect_ratio {
        Some(ratio) => {
            if !(ratio > Num::zero()) || !ratio.is_finite() || !(content_width > Num::zero()) {
                return None;
            }
            if style.box_sizing == BoxSizing::BorderBox {
                Some(
                    ((content_width + padding_border_w) / ratio - padding_border_h).max(
                        Num::zero(),
                    ),
                )
            } else {
                Some(content_width / ratio)
            }
        },
        None => None,
    }
}

/// A specified size as a content size: under `border-box` the decoration
/// comes out of it, down to zero.
pub open spec fn content_size(specified: Option<Num>, decoration: Num, border_box: bool) -> Option<
    Num,
> {
    match specified {
        Some(size) => Some(
            if border_box {
                Num::larger(size - decoration, Num::nought())
            } else {
                size
            },
        ),
        None => None,
    }
}

/// Convert a specified size on a replaced element to a content size.
pub fn replaced_content_size(
    specified: Option<Num>,
    decoration: Num,
    border_box_sizing: bool,
) -> (r: Option<Num>)
    ensures
        r == content_size(specified, decoration, border_box_sizing),
{
    match specified {
        Some(size) => Some(
            if border_box_sizing {
                (size - decoration).max(Num::zero())
            } else {
                size
            },
        ),
        None => None,
    }
}

/// The content size of one axis from that of the other, across a ratio.
pub open spec fn crossed(
    known: Num,
    known_decoration: Num,
    derived_decoration: Num,
    ratio: Num,
    known_is_width: bool,
    border_box: bool,
) -> Num {
    let span = if border_box {
        known + known_decoration
    } else {
        known
    };
    let derived = if known_is_width {
        span / ratio
    } else {
        span * ratio
    };
    if border_box {
        Num::larger(derived - derived_decoration, Num::nought())
    } else {
        Num::larger(derived, Num::nought())
    }
}

/// Cross a known content size to the other axis through a preferred aspect ratio.
pub fn ratio_cross_content_size(
    known_content: Num,
    known_decoration: Num,
    derived_decoration: Num,
    ratio: Num,
    known_is_width: bool,
    border_box_sizing: bool,
) -> (r: Num)
    ensures
        r == crossed(
            known_content,
            known_decoration,
            derived_decoration,
            ratio,
            known_is_width,
            border_box_sizing,
        ),
{
    let span = if border_box_sizing {
        known_content + known_decoration
    } else {
        known_content
    };
    let derived = if known_is_width {
        span / ratio
    } else {
        span * ratio
    };
    if border_box_sizing {
        (derived - derived_decoration).max(Num::zero())
    } else {
        derived.max(Num::zero())
    }
}

/// Whether a ratio can be used: it is a finite number above zero.
pub open spec fn usable_ratio(ratio: Option<Num>) -> bool {
    ratio is Some && ratio->0 > Num::nought() && !ratio->0.inf()
}

/// Content sizes under a preferred ratio. Two specified sizes outrank it; one
/// gives the other across it; with none the natural width is used.
pub open spec fn ratio_sizes(
    width: Option<Num>,
    height: Option<Num>,
    natural_width: Option<Num>,
    ratio: Option<Num>,
    horizontal: Num,
    vertical: Num,
    border_box: bool,
) -> (Option<Num>, Option<Num>) {
    if !usable_ratio(ratio) {
        (width, height)
    } else {
        match (width, height) {
            (Some(_), Some(_)) => (width, height),
            (Some(w), None) => (
                width,
                Some(crossed(w, horizontal, vertical, ratio->0, true, border_box)),
            ),
            (None, Some(h)) => (
                Some(crossed(h, vertical, horizontal, ratio->0, false, border_box)),
                height,
            ),
            (None, None) => match natural_width {
                Some(nw) => if nw > Num::nought() {
                    (
                        natural_width,
                        Some(crossed(nw, horizontal, vertical, ratio->0, true, border_box)),
                    )
                } else {
                    (None, None)
                },
                None => (None, None),
            },
        }
    }
}

/// Resolve a replaced element's specified sizes against a preferred aspect
/// ratio, returning content sizes.
pub fn preferred_ratio_sizes(
    explicit_width: Option<Num>,
    explicit_height: Option<Num>,
    natural_width: Option<Num>,
    ratio: Option<Num>,
    horizontal_decoration: Num,
    vertical_decoration: Num,
    border_box_sizing: bool,
) -> (r: (Option<Num>, Option<Num>))
    ensures
        r == ratio_sizes(
            explicit_width,
            explicit_height,
            natural_width,
            ratio,
            horizontal_decoration,
            vertical_decoration,
            border_box_sizing,
        ),
{
    let q = match ratio {
        Some(q) => {
            if q > Num::zero() && q.is_finite() {
                q
            } else {
                return (explicit_width, explicit_height);
            }
        },
        None => {
            return (explicit_width, explicit_height);
        },
    };
    match (explicit_width, explicit_height) {
        (Some(_), Some(_)) => (explicit_width, explicit_height),
        (Some(w), None) => (
            Some(w),
            Some(
                ratio_cross_content_size(
                    w,
                    horizontal_decoration,
                    vertical_decoration,
                    q,
                    true,
                    border_box_sizing,
                ),
            ),
        ),
        (None, Some(h)) => (
            Some(
                ratio_cross_content_size(
                    h,
                    vertical_decoration,
                    horizontal_decoration,
                    q,
                    false,
                    border_box_sizing,
                ),
            ),
            Some(h),
        ),
        (None, None) => match natural_width {
            Some(nw) => {
                if nw > Num::zero() {
                    (
                        Some(nw),
                        Some(
                            ratio_cross_content_size(
                                nw,
                                horizontal_decoration,
                                vertical_decoration,
                                q,
                                true,
                                border_box_sizing,
                            ),
                        ),
                    )
                } else {
                    (None, None)
                }
            },
            None => (None, None),
        },
    }
}

/// An `auto` size is never made smaller by the decoration.
pub proof fn lemma_auto_size_stays(decoration: Num, border_box: bool)
    ensures
        content_size(None, decoration, border_box) is None,
{
}

/// A content size is never negative under `border-box`.
pub proof fn lemma_border_box_size_not_negative(size: Num, decoration: Num)
    ensures
        content_size(Some(size), decoration, true)->0 >= Num::nought(),
{
    crate::margin_collapse::lemma_zero_is_number();
}

/// A size across a ratio is never negative.
pub proof fn lemma_crossed_not_negative(
    known: Num,
    known_decoration: Num,
    derived_decoration: Num,
    ratio: Num,
    known_is_width: bool,
    border_box: bool,
)
    ensures
        crossed(known, known_decoration, derived_decoration, ratio, known_is_width, border_box)
            >= Num::nought(),
{
    crate::margin_collapse::lemma_zero_is_number();
}

/// The used size of a replaced element: specified sizes as they are, a missing
/// one from the natural proportions, and natural sizes where nothing is
/// specified; 300 by 150 stand in for what is not known.
pub open spec fn intrinsic_size(
    natural_width: Option<Num>,
    natural_height: Option<Num>,
    width: Option<Num>,
    height: Option<Num>,
) -> (Num, Num) {
    let nw = match natural_width {
        Some(w) => w,
        None => Num::whole(300),
    };
    let nh = match natural_height {
        Some(h) => h,
        None => Num::whole(150),
    };
    match (width, height) {
        (Some(w), Some(h)) => (w, h),
        (Some(w), None) => (w, w * nh / nw),
        (None, Some(h)) => (h * nw / nh, h),
        (None, None) => (nw, nh),
    }
}

/// The used size of a replaced element from natural and specified sizes.
pub fn calculate_intrinsic_size(
    natural_width: Option<Num>,
    natural_height: Option<Num>,
    width: Option<Num>,
    height: Option<Num>,
) -> (r: (Num, Num))
    ensures
        r == intrinsic_size(natural_width, natural_height, width, height),
{
    let nw = match natural_width {
        Some(w) => w,
        None => Num::of(300),
    };
    let nh = match natural_height {
        Some(h) => h,
        None => Num::of(150),
    };
    match (width, height) {
        (Some(w), Some(h)) => (w, h),
        (Some(w), None) => (w, w * nh / nw),
        (None, Some(h)) => (h * nw / nh, h),
        (None, None) => (nw, nh),
    }
}

/// Type of form control for layout/rendering.
#[derive(Debug, Clone, PartialEq)]
pub enum FormControlType {
    /// Text input field.
    TextInput { value: String, placeholder: String, input_type: String },
    /// Multi-line text area.
    TextArea { value: String, placeholder: String, rows: u32, cols: u32 },
    /// Button element.
    Button { label: String, button_type: String },
    /// Checkbox input.
    Checkbox { checked: bool },
    /// Radio button input.
    Radio { checked: bool, name: String },
    /// Select dropdown, or an inline listbox where `size` is above one.
    Select { options: Vec<String>, selected_index: Option<usize>, size: u32 },
}

/// An edge the author gave, in pixels; percentages and `auto` count as none.
pub open spec fn author_px(l: Length, font_size: Num) -> Num {
    match l {
        Length::Percent(_) => Num::nought(),
        Length::Auto => Num::nought(),
        _ => l.px(font_size, Num::whole(16), Num::nought()),
    }
}

fn author_edge(l: &Length, font_size: Num) -> (r: Num)
    ensures
        r == author_px(*l, font_size),
{
    match *l {
        Length::Percent(_) => Num::zero(),
        Length::Auto => Num::zero(),
        _ => l.to_px(font_size, Num::of(16), Num::zero()),
    }
}

/// The height of a single-line control: its line and the author's vertical
/// edges, or the height of a bare control where there are none.
pub open spec fn single_line(sh: Shaper, style: ComputedStyle, bare: Num) -> Num {
    let size = style.font_px();
    let edges = author_px(style.padding_top, size) + author_px(style.padding_bottom, size)
        + author_px(style.border_top_width, size) + author_px(style.border_bottom_width, size);
    if edges > Num::nought() {
        normal_height(sh, style, size) + edges
    } else {
        bare
    }
}

/// The width of the widest of some labels.
pub open spec fn widest(sh: Shaper, style: ComputedStyle, labels: Seq<String>) -> Num
    decreases labels.len(),
{
    if labels.len() == 0 {
        Num::nought()
    } else {
        Num::larger(
            widest(sh, style, labels.drop_last()),
            text::measured(
                sh,
                labels.last()@,
                style.face(FontStretch::Normal, style.font_px()),
                Num::nought(),
                Num::nought(),
            ).width,
        )
    }
}

fn at_least(n: u32, least: u32) -> (r: u32)
    ensures
        r == if n < least {
            least
        } else {
            n
        },
{
    if n < least {
        least
    } else {
        n
    }
}

/// The border-box size of a form control. Bare controls have the sizes of the
/// platform's control font (40/3 px), in proportion to the font size.
pub open spec fn control_size(sh: Shaper, style: ComputedStyle, control: FormControlType) -> (
    Num,
    Num,
) {
    let size = style.font_px();
    let scale = size / Num::ratio(40, 3);
    match control {
        FormControlType::TextInput { input_type, .. } => if input_type@ == "range"@ {
            (Num::whole(129) * scale, Num::whole(16) * scale)
        } else if input_type@ == "color"@ {
            (Num::whole(50) * scale, Num::whole(27) * scale)
        } else {
            (Num::whole(149) * scale, single_line(sh, style, Num::whole(19) * scale))
        },
        FormControlType::TextArea { rows, cols, .. } => {
            let r = Num::whole(
                if rows < 2 {
                    2
                } else {
                    rows as int
                },
            );
            let c = Num::whole(
                if cols < 20 {
                    20
                } else {
                    cols as int
                },
            );
            (
                size * Num::ratio(6, 10) * c + Num::whole(18) * scale,
                (Num::whole(15) * r + Num::whole(2)) * scale,
            )
        },
        FormControlType::Button { label, .. } => {
            let label_width = text::measured(
                sh,
                label@,
                style.face(FontStretch::Normal, size),
                Num::nought(),
                Num::nought(),
            ).width;
            let edges = author_px(style.padding_left, size) + author_px(style.padding_right, size)
                + author_px(style.border_left_width, size) + author_px(
                style.border_right_width,
                size,
            );
            (
                if edges > Num::nought() {
                    label_width + edges
                } else {
                    label_width + Num::whole(24)
                },
                single_line(sh, style, Num::whole(19) * scale),
            )
        },
        FormControlType::Checkbox { .. } => (Num::whole(13) * scale, Num::whole(13) * scale),
        FormControlType::Radio { .. } => (Num::whole(13) * scale, Num::whole(13) * scale),
        FormControlType::Select { options, size: rows, .. } => {
            let w = widest(sh, style, options@);
            if rows > 1 {
                (
                    w + Num::whole(2) * scale,
                    (Num::whole(16) * Num::whole(rows as int) + Num::whole(2)) * scale,
                )
            } else {
                (
                    w + Num::whole(24) * scale,
                    single_line(sh, style, Num::whole(19) * scale),
                )
            }
        },
    }
}

fn single_line_height(shaper: &Shaper, style: &ComputedStyle, bare: Num) -> (r: Num)
    ensures
        r == single_line(*shaper, *style, bare),
{
    let size = style.font_size_px();
    let edges = author_edge(&style.padding_top, size) + author_edge(&style.padding_bottom, size)
        + author_edge(&style.border_top_width, size) + author_edge(
        &style.border_bottom_width,
        size,
    );
    if edges > Num::zero() {
        normal_line_height(shaper, style, size) + edges
    } else {
        bare
    }
}

fn widest_label(shaper: &Shaper, style: &ComputedStyle, labels: &Vec<String>) -> (r: Num)
    ensures
        r == widest(*shaper, *style, labels@),
{
    let face = style.face_at(FontStretch::Normal, style.font_size_px());
    let mut w = Num::zero();
    let mut i: usize = 0;
    while i < labels.len()
        invariant
            i <= labels.len(),
            face@ == style.face(FontStretch::Normal, style.font_px()),
            w == widest(*shaper, *style, labels@.take(i as int)),
        decreases labels.len() - i,
    {
        proof {
            assert(labels@.take(i + 1).drop_last() =~= labels@.take(i as int));
        }
        w = w.max(measure_text_advanced(shaper, &labels[i], &face).width);
        i = i + 1;
    }
    proof {
        assert(labels@.take(i as int) =~= labels@);
    }
    w
}

/// Intrinsic border-box size of a form control.
pub fn form_control_intrinsic_size(
    shaper: &Shaper,
    style: &ComputedStyle,
    control: &FormControlType,
) -> (r: (Num, Num))
    ensures
        r == control_size(*shaper, *style, *control),
{
    let size = style.font_size_px();
    let scale = size / Num::frac(40, 3);
    match control {
        FormControlType::TextInput { input_type, .. } => {
            if is_word(input_type, "range") {
                (Num::of(129) * scale, Num::of(16) * scale)
            } else if is_word(input_type, "color") {
                (Num::of(50) * scale, Num::of(27) * scale)
            } else {
                (
                    Num::of(149) * scale,
                    single_line_height(shaper, style, Num::of(19) * scale),
                )
            }
        },
        FormControlType::TextArea { rows, cols, .. } => {
            let r = Num::from_usize(at_least(*rows, 2) as usize);
            let c = Num::from_usize(at_least(*cols, 20) as usize);
            (
                size * Num::frac(6, 10) * c + Num::of(18) * scale,
                (Num::of(15) * r + Num::of(2)) * scale,
            )
        },
        FormControlType::Button { label, .. } => {
            let face = style.face_at(FontStretch::Normal, size);
            let label_width = measure_text_advanced(shaper, label, &face).width;
            let edges = author_edge(&style.padding_left, size) + author_edge(
                &style.padding_right,
                size,
            ) + author_edge(&style.border_left_width, size) + author_edge(
                &style.border_right_width,
                size,
            );
            let width = if edges > Num::zero() {
                label_width + edges
            } else {
                label_width + Num::of(24)
            };
            (width, single_line_height(shaper, style, Num::of(19) * scale))
        },
        FormControlType::Checkbox { .. } => (Num::of(13) * scale, Num::of(13) * scale),
        FormControlType::Radio { .. } => (Num::of(13) * scale, Num::of(13) * scale),
        FormControlType::Select { options, size: rows, .. } => {
            let w = widest_label(shaper, style, options);
            if *rows > 1 {
                (
                    w + Num::of(2) * scale,
                    (Num::of(16) * Num::from_usize(*rows as usize) + Num::of(2)) * scale,
                )
            } else {
                (
                    w + Num::of(24) * scale,
                    single_line_height(shaper, style, Num::of(19) * scale),
                )
            }
        },
    }
}

} // verus!

//! Painting text: one command for each line, with its decorations.
use vstd::prelude::*;
use crate::boxes::{BoxType, BoxV, LayoutBox};
use crate::display::{
    advances_view, command_views, emit, CommandV, DisplayCommand, RunV, TextDecorationStyleValue,
};
use crate::ellipsis::{CutV, EllipsisScope, ScopeV, TextOverflowCut};
use crate::geometry::{Dimensions, Rect};
use crate::num::Num;
use crate::sizing::{self, blink_baseline_offset, run_line_height, seat_metrics};
use crate::style::{
    BackgroundClip, Color, ComputedStyle, FontStretch, FontStyle, Length, TextDecorationStyle,
};
use crate::text::{self, LineV, Shaper, TextLine, TextMetrics};

verus! {

/// One line to paint.
#[verifier::ext_equal]
pub struct RunLine {
    pub text: Seq<char>,
    pub x: Num,
    pub y: Num,
    pub width: Num,
    /// The top of the line box, which runs on one line share.
    pub top: Num,
    /// What each word separator of a justified line is widened by.
    pub justify_space: Num,
}

/// How a text box seats its lines: the line height, the ascent its baselines
/// are seated on, and what a command's `y` lies below the line top.
pub struct Seating {
    pub line_height: Num,
    pub ascent: Num,
    pub drop: Num,
}

/// The number that stands for a font style.
pub open spec fn style_number(s: FontStyle) -> u8 {
    match s {
        FontStyle::Normal => 0,
        FontStyle::Italic => 1,
        FontStyle::Oblique => 2,
    }
}

fn number_of_style(s: FontStyle) -> (r: u8)
    ensures
        r == style_number(s),
{
    match s {
        FontStyle::Normal => 0,
        FontStyle::Italic => 1,
        FontStyle::Oblique => 2,
    }
}

/// The style of a decoration line.
pub open spec fn decoration_style(s: TextDecorationStyle) -> TextDecorationStyleValue {
    match s {
        TextDecorationStyle::Solid => TextDecorationStyleValue::Solid,
        TextDecorationStyle::Double => TextDecorationStyleValue::Double,
        TextDecorationStyle::Dotted => TextDecorationStyleValue::Dotted,
        TextDecorationStyle::Dashed => TextDecorationStyleValue::Dashed,
        TextDecorationStyle::Wavy => TextDecorationStyleValue::Wavy,
    }
}

fn style_of_decoration(s: TextDecorationStyle) -> (r: TextDecorationStyleValue)
    ensures
        r == decoration_style(s),
{
    match s {
        TextDecorationStyle::Solid => TextDecorationStyleValue::Solid,
        TextDecorationStyle::Double => TextDecorationStyleValue::Double,
        TextDecorationStyle::Dotted => TextDecorationStyleValue::Dotted,
        TextDecorationStyle::Dashed => TextDecorationStyleValue::Dashed,
        TextDecorationStyle::Wavy => TextDecorationStyleValue::Wavy,
    }
}

/// How a text is seated in a style.
#[verifier::opaque]
pub open spec fn seating(sh: Shaper, style: ComputedStyle, t: Seq<char>) -> Seating {
    let size = style.font_px();
    let m = text::measured(
        sh,
        t,
        style.face(FontStretch::Normal, size),
        Num::nought(),
        Num::nought(),
    );
    let line_height = sizing::run_height(sh, style, size, m);
    let (ascent, descent) = sizing::seat_extents(
        sh,
        style,
        size,
        vstd::utf8::is_ascii_chars(t),
        m,
    );
    Seating { line_height, ascent, drop: sizing::seat(line_height, ascent, descent) - ascent }
}

/// Advances with each word separator widened.
pub open spec fn widened(advances: Seq<Num>, t: Seq<char>, space: Num) -> Seq<Num> {
    Seq::new(
        advances.len(),
        |i: int|
            if i < t.len() && text::separator(t[i]) {
                advances[i] + space
            } else {
                advances[i]
            },
    )
}

/// The advances a line is painted with. Only these can carry justification: a
/// line without them paints at natural spacing.
pub open spec fn line_advances(sh: Shaper, style: ComputedStyle, l: RunLine) -> Option<Seq<Num>> {
    match text::advances_of(sh, l.text, style, style.font_px()) {
        Some(a) => Some(
            if l.justify_space > Num::nought() {
                widened(a, l.text, l.justify_space)
            } else {
                a
            },
        ),
        None => None,
    }
}

/// The advance of the ellipsis in a style.
pub open spec fn ellipsis_advance(sh: Shaper, style: ComputedStyle) -> Num {
    let size = style.font_px();
    let a = text::advances_of(sh, "\u{2026}"@, style, size);
    if a is Some && a->0.len() > 0 {
        a->0[0]
    } else {
        text::measured(
            sh,
            "\u{2026}"@,
            style.face(FontStretch::Normal, size),
            Num::nought(),
            Num::nought(),
        ).width
    }
}

/// What is left of a line: nothing, or its text, advances and width.
pub enum KeptV {
    Nothing,
    Run { text: Seq<char>, advances: Option<Seq<Num>>, width: Num },
}

/// A line as the ellipsis scope leaves it, and the scope after it. A line
/// without advances cannot be cut.
pub open spec fn kept(sh: Shaper, style: ComputedStyle, l: RunLine, scope: Option<ScopeV>) -> (
    KeptV,
    Option<ScopeV>,
) {
    let advances = line_advances(sh, style, l);
    match (scope, advances) {
        (Some(s), Some(a)) => {
            let c = s.cut(l.text, l.x, l.top, a, ellipsis_advance(sh, style));
            (
                match c {
                    CutV::Keep => KeptV::Run { text: l.text, advances, width: l.width },
                    CutV::Hide => KeptV::Nothing,
                    CutV::Cut { text, advances, width } => KeptV::Run {
                        text,
                        advances: Some(advances),
                        width,
                    },
                },
                Some(s.after(c, l.top)),
            )
        },
        _ => (KeptV::Run { text: l.text, advances, width: l.width }, scope),
    }
}

/// The thickness of decoration lines.
pub open spec fn decoration_thickness(style: ComputedStyle, m: TextMetrics) -> Num {
    let size = style.font_px();
    match style.text_decoration_thickness {
        Length::Px(px) => px,
        Length::Em(em) => em * size,
        _ => if m.underline_thickness > Num::nought() {
            m.underline_thickness
        } else {
            size / Num::whole(14)
        },
    }
}

/// The height of a decoration line: where the font says, else a given place.
pub open spec fn decoration_y(y: Num, ascent: Num, offset: Num, otherwise: Num) -> Num {
    if !offset.same(Num::nought()) {
        y + ascent - offset
    } else {
        otherwise
    }
}

fn resolve_decoration_y(y: Num, ascent: Num, offset: Num, otherwise: Num) -> (r: Num)
    ensures
        r == decoration_y(y, ascent, offset, otherwise),
{
    if !(offset == Num::zero()) {
        y + ascent - offset
    } else {
        otherwise
    }
}

/// The commands of the decoration lines of a run.
#[verifier::opaque]
pub open spec fn decorations(
    sh: Shaper,
    style: ComputedStyle,
    t: Seq<char>,
    x: Num,
    y: Num,
    width: Num,
) -> Seq<CommandV> {
    let size = style.font_px();
    let lines = style.text_decoration_line;
    let m = text::measured(
        sh,
        t,
        style.face(FontStretch::Normal, size),
        Num::nought(),
        Num::nought(),
    );
    let ascent = if m.ascent > Num::nought() {
        m.ascent
    } else {
        size * Num::ratio(8, 10)
    };
    let color = match style.text_decoration_color {
        Some(c) => c,
        None => style.color,
    };
    let at = |dy: Num|
        CommandV::Plain(
            DisplayCommand::TextDecoration {
                x,
                y: dy,
                width,
                thickness: decoration_thickness(style, m),
                color,
                style: decoration_style(style.text_decoration_style),
            },
        );
    (if lines.underline {
        seq![
            at(
                decoration_y(
                    y,
                    ascent,
                    m.underline_offset,
                    y + ascent + size * Num::ratio(1, 10),
                ),
            ),
        ]
    } else {
        Seq::empty()
    }) + (if lines.overline {
        seq![at(decoration_y(y, ascent, m.overline_offset, y))]
    } else {
        Seq::empty()
    }) + (if lines.line_through {
        seq![
            at(
                decoration_y(
                    y,
                    ascent,
                    m.strikethrough_offset,
                    y + ascent * Num::ratio(35, 100),
                ),
            ),
        ]
    } else {
        Seq::empty()
    })
}

/// Whether a style paints its text with the background gradient.
pub open spec fn gradient_fills(style: ComputedStyle) -> bool {
    style.background_clip == BackgroundClip::Text && style.background_gradient is Some && (
    style.webkit_text_fill_color matches Some(c) && c.equals(Color::clear()))
}

/// The commands of one line, and the ellipsis scope after it.
#[verifier::opaque]
pub open spec fn line_commands(
    sh: Shaper,
    style: ComputedStyle,
    seat: Seating,
    l: RunLine,
    scope: Option<ScopeV>,
) -> (Seq<CommandV>, Option<ScopeV>) {
    let (k, after) = kept(sh, style, l, scope);
    (
        match k {
            KeptV::Nothing => Seq::empty(),
            KeptV::Run { text, advances, width } => {
                let run = RunV {
                    text,
                    x: l.x,
                    y: l.y,
                    font_size: style.font_px(),
                    font_family: style.font_family@,
                    font_weight: style.font_weight.0,
                    font_style: style_number(style.font_style),
                    advances,
                    ascent: Some(seat.ascent),
                };
                if gradient_fills(style) {
                    seq![
                        CommandV::GradientText {
                            run,
                            gradient: style.background_gradient->0@,
                            rect: Rect { x: l.x, y: l.y, width, height: seat.line_height },
                        },
                    ]
                } else {
                    seq![CommandV::Text { run, color: style.color }] + decorations(
                        sh,
                        style,
                        text,
                        l.x,
                        l.y,
                        width,
                    )
                }
            },
        },
        after,
    )
}

/// The `i`-th line of a wrapped text, to paint.
pub open spec fn wrapped_line(style: ComputedStyle, d: Dimensions, seat: Seating, l: LineV, i: int) -> RunLine {
    let top = d.content.y + Num::whole(i) * seat.line_height;
    RunLine {
        text: text::transformed(l.text, style.text_transform),
        x: d.content.x + l.x_offset,
        y: top + seat.drop,
        width: l.width + l.justify_space * Num::whole(
            text::separators(text::trimmed_end(l.text)) as int,
        ),
        top,
        justify_space: l.justify_space,
    }
}

/// A text that is one run, to paint.
pub open spec fn single_line(d: Dimensions, seat: Seating, t: Seq<char>) -> RunLine {
    RunLine {
        text: t,
        x: d.content.x,
        y: d.content.y + seat.drop,
        width: d.content.width,
        top: d.content.y,
        justify_space: Num::nought(),
    }
}

/// The commands of the first `k` lines, empty ones left out, and the ellipsis
/// scope after them.
pub open spec fn lines_commands(
    sh: Shaper,
    style: ComputedStyle,
    d: Dimensions,
    seat: Seating,
    lines: Seq<LineV>,
    k: int,
    scope: Option<ScopeV>,
) -> (Seq<CommandV>, Option<ScopeV>)
    decreases k,
{
    if k <= 0 {
        (Seq::empty(), scope)
    } else {
        let (c, s) = lines_commands(sh, style, d, seat, lines, k - 1, scope);
        let l = lines[k - 1];
        if l.text.len() == 0 {
            (c, s)
        } else {
            let (more, after) = line_commands(
                sh,
                style,
                seat,
                wrapped_line(style, d, seat, l, k - 1),
                s,
            );
            (c + more, after)
        }
    }
}

/// The commands of a text box, and the ellipsis scope after it.
pub open spec fn text_commands(sh: Shaper, b: BoxV, scope: Option<ScopeV>) -> (
    Seq<CommandV>,
    Option<ScopeV>,
) {
    match b.own.box_type {
        BoxType::Text(raw) => {
            let style = b.own.style;
            let t = text::transformed(raw@, style.text_transform);
            let seat = seating(sh, style, t);
            match b.lines {
                Some(lines) => lines_commands(
                    sh,
                    style,
                    b.dim,
                    seat,
                    lines,
                    lines.len() as int,
                    scope,
                ),
                None => line_commands(sh, style, seat, single_line(b.dim, seat, t), scope),
            }
        },
        _ => (Seq::empty(), scope),
    }
}

/// The contents of an optional scope.
pub open spec fn scope_view(s: Option<EllipsisScope>) -> Option<ScopeV> {
    match s {
        Some(s) => Some(s@),
        None => None,
    }
}

/// One line to paint.
struct LineRun {
    text: String,
    x: Num,
    y: Num,
    width: Num,
    top: Num,
    justify_space: Num,
}

impl LineRun {
    spec fn view(&self) -> RunLine {
        RunLine {
            text: self.text@,
            x: self.x,
            y: self.y,
            width: self.width,
            top: self.top,
            justify_space: self.justify_space,
        }
    }
}

fn seat_of(shaper: &Shaper, style: &ComputedStyle, t: &String) -> (r: Seating)
    ensures
        r == seating(*shaper, *style, t@),
{
    proof {
        reveal(seating);
    }
    let size = style.font_size_px();
    let m = text::measure_text_advanced(shaper, t, &style.face_at(FontStretch::Normal, size));
    let line_height = run_line_height(shaper, style, size, &m);
    let (ascent, descent) = seat_metrics(shaper, style, size, t, &m);
    Seating {
        line_height,
        ascent,
        drop: blink_baseline_offset(line_height, ascent, descent) - ascent,
    }
}

fn widen(advances: &Vec<Num>, t: &String, space: Num) -> (r: Vec<Num>)
    ensures
        r@ == widened(advances@, t@, space),
{
    let s: &str = t.as_str();
    let len: usize = s.unicode_len();
    let mut out: Vec<Num> = Vec::new();
    let mut i: usize = 0;
    while i < advances.len()
        invariant
            i <= advances.len(),
            len == s@.len(),
            s@ == t@,
            out@ == widened(advances@, t@, space).take(i as int),
        decreases advances.len() - i,
    {
        if i < len && TextLine::is_word_separator(s.get_char(i)) {
            out.push(advances[i] + space);
        } else {
            out.push(advances[i]);
        }
        i = i + 1;
        proof {
            assert(out@ =~= widened(advances@, t@, space).take(i as int));
        }
    }
    proof {
        assert(out@ =~= widened(advances@, t@, space));
    }
    out
}

fn shape_run(shaper: &Shaper, style: &ComputedStyle, l: &LineRun) -> (r: Option<Vec<Num>>)
    ensures
        advances_view(r) == line_advances(*shaper, *style, l@),
{
    match text::shape_line_advances(shaper, &l.text, style, style.font_size_px()) {
        Some(a) => if l.justify_space > Num::zero() {
            Some(widen(&a, &l.text, l.justify_space))
        } else {
            Some(a)
        },
        None => None,
    }
}

fn shape_ellipsis(shaper: &Shaper, style: &ComputedStyle) -> (r: Num)
    ensures
        r == ellipsis_advance(*shaper, *style),
{
    let size = style.font_size_px();
    let ellipsis: String = "\u{2026}".to_owned();
    let measured = text::measure_text_with_spacing(
        shaper,
        &ellipsis,
        &style.face_at(FontStretch::Normal, size),
        Num::zero(),
        Num::zero(),
    ).width;
    match text::shape_line_advances(shaper, &ellipsis, style, size) {
        Some(a) => if a.len() > 0 {
            a[0]
        } else {
            measured
        },
        None => measured,
    }
}

fn render_decorations(
    out: &mut Vec<DisplayCommand>,
    shaper: &Shaper,
    style: &ComputedStyle,
    t: &String,
    x: Num,
    y: Num,
    width: Num,
)
    ensures
        command_views(final(out)@) == command_views(old(out)@) + decorations(
            *shaper,
            *style,
            t@,
            x,
            y,
            width,
        ),
{
    proof {
        reveal(decorations);
    }
    let lines = style.text_decoration_line;
    let size = style.font_size_px();
    let m = text::measure_text_advanced(shaper, t, &style.face_at(FontStretch::Normal, size));
    let color = match style.text_decoration_color {
        Some(c) => c,
        None => style.color,
    };
    let decoration = style_of_decoration(style.text_decoration_style);
    let thickness = match style.text_decoration_thickness {
        Length::Px(px) => px,
        Length::Em(em) => em * size,
        _ => if m.underline_thickness > Num::zero() {
            m.underline_thickness
        } else {
            size / Num::of(14)
        },
    };
    let ascent = if m.ascent > Num::zero() {
        m.ascent
    } else {
        size * Num::frac(8, 10)
    };
    if lines.underline {
        emit(
            out,
            DisplayCommand::TextDecoration {
                x,
                y: resolve_decoration_y(
                    y,
                    ascent,
                    m.underline_offset,
                    y + ascent + size * Num::frac(1, 10),
                ),
                width,
                thickness,
                color,
                style: decoration,
            },
        );
    }
    if lines.overline {
        emit(
            out,
            DisplayCommand::TextDecoration {
                x,
                y: resolve_decoration_y(y, ascent, m.overline_offset, y),
                width,
                thickness,
                color,
                style: decoration,
            },
        );
    }
    if lines.line_through {
        emit(
            out,
            DisplayCommand::TextDecoration {
                x,
                y: resolve_decoration_y(
                    y,
                    ascent,
                    m.strikethrough_offset,
                    y + ascent * Num::frac(35, 100),
                ),
                width,
                thickness,
                color,
                style: decoration,
            },
        );
    }
    proof {
        assert(command_views(out@) =~= command_views(old(out)@) + decorations(
            *shaper,
            *style,
            t@,
            x,
            y,
            width,
        ));
    }
}

/// A run that is painted.
struct Kept {
    text: String,
    advances: Option<Vec<Num>>,
    width: Num,
}

spec fn kept_view(k: Option<Kept>) -> KeptV {
    match k {
        Some(k) => KeptV::Run {
            text: k.text@,
            advances: advances_view(k.advances),
            width: k.width,
        },
        None => KeptV::Nothing,
    }
}

fn keep(
    shaper: &Shaper,
    style: &ComputedStyle,
    l: &LineRun,
    scope: &mut Option<EllipsisScope>,
) -> (r: Option<Kept>)
    ensures
        (kept_view(r), scope_view(*final(scope))) == kept(
            *shaper,
            *style,
            l@,
            scope_view(*old(scope)),
        ),
{
    let advances = shape_run(shaper, style, l);
    match advances {
        Some(a) => match scope {
            Some(s) => {
                let ellipsis = shape_ellipsis(shaper, style);
                match s.cut(&l.text, l.x, l.top, &a, ellipsis) {
                    TextOverflowCut::Keep => Some(
                        Kept { text: l.text.clone(), advances: Some(a), width: l.width },
                    ),
                    TextOverflowCut::Hide => None,
                    TextOverflowCut::Cut { text, advances, width } => Some(
                        Kept { text, advances: Some(advances), width },
                    ),
                }
            },
            None => Some(Kept { text: l.text.clone(), advances: Some(a), width: l.width }),
        },
        None => Some(Kept { text: l.text.clone(), advances: None, width: l.width }),
    }
}

fn render_line(
    out: &mut Vec<DisplayCommand>,
    shaper: &Shaper,
    style: &ComputedStyle,
    seat: &Seating,
    l: &LineRun,
    scope: &mut Option<EllipsisScope>,
)
    ensures
        ({
            let (c, after) = line_commands(
                *shaper,
                *style,
                *seat,
                l@,
                scope_view(*old(scope)),
            );
            command_views(final(out)@) == command_views(old(out)@) + c && scope_view(
                *final(scope),
            ) == after
        }),
{
    proof {
        reveal(line_commands);
    }
    match keep(shaper, style, l, scope) {
        None => {
            proof {
                assert(command_views(out@) =~= command_views(old(out)@) + Seq::<CommandV>::empty());
            }
        },
        Some(k) => {
            let clear = match style.webkit_text_fill_color {
                Some(c) => c.is(Color::transparent()),
                None => false,
            };
            if style.background_clip == BackgroundClip::Text && clear {
                match &style.background_gradient {
                    Some(gradient) => {
                        emit(
                            out,
                            DisplayCommand::GradientText {
                                text: k.text,
                                x: l.x,
                                y: l.y,
                                font_size: style.font_size_px(),
                                font_family: style.font_family.clone(),
                                font_weight: style.font_weight.0,
                                font_style: number_of_style(style.font_style),
                                gradient: gradient.copied(),
                                rect: Rect {
                                    x: l.x,
                                    y: l.y,
                                    width: k.width,
                                    height: seat.line_height,
                                },
                                advances: k.advances,
                                ascent: Some(seat.ascent),
                            },
                        );
                        return;
                    },
                    None => {},
                }
            }
            emit(
                out,
                DisplayCommand::Text {
                    text: k.text.clone(),
                    x: l.x,
                    y: l.y,
                    color: style.color,
                    font_size: style.font_size_px(),
                    font_family: style.font_family.clone(),
                    font_weight: style.font_weight.0,
                    font_style: number_of_style(style.font_style),
                    advances: k.advances,
                    ascent: Some(seat.ascent),
                },
            );
            render_decorations(out, shaper, style, &k.text, l.x, l.y, k.width);
            proof {
                let (c, _) = line_commands(*shaper, *style, *seat, l@, scope_view(*old(scope)));
                assert(command_views(out@) =~= command_views(old(out)@) + c);
            }
        },
    }
}

fn render_lines(
    out: &mut Vec<DisplayCommand>,
    shaper: &Shaper,
    layout_box: &LayoutBox,
    seat: &Seating,
    lines: &Vec<TextLine>,
    scope: &mut Option<EllipsisScope>,
)
    ensures
        ({
            let (c, after) = lines_commands(
                *shaper,
                layout_box.style,
                layout_box.dimensions,
                *seat,
                crate::boxes::line_views(lines@),
                lines@.len() as int,
                scope_view(*old(scope)),
            );
            command_views(final(out)@) == command_views(old(out)@) + c && scope_view(
                *final(scope),
            ) == after
        }),
{
    let style = &layout_box.style;
    let d = layout_box.dimensions;
    let ghost ls = crate::boxes::line_views(lines@);
    let ghost first = scope_view(*scope);
    let mut i: usize = 0;
    proof {
        assert(command_views(out@) =~= command_views(old(out)@) + lines_commands(
            *shaper,
            *style,
            d,
            *seat,
            ls,
            0,
            first,
        ).0);
    }
    while i < lines.len()
        invariant
            i <= lines.len(),
            *style == layout_box.style,
            ls == crate::boxes::line_views(lines@),
            command_views(out@) == command_views(old(out)@) + lines_commands(
                *shaper,
                *style,
                d,
                *seat,
                ls,
                i as int,
                first,
            ).0,
            scope_view(*scope) == lines_commands(
                *shaper,
                *style,
                d,
                *seat,
                ls,
                i as int,
                first,
            ).1,
        decreases lines.len() - i,
    {
        let l: &TextLine = &lines[i];
        let ghost before = command_views(out@);
        proof {
            assert(ls[i as int] == l@);
        }
        if l.text.as_str().unicode_len() > 0 {
            let top = d.content.y + Num::from_usize(i) * seat.line_height;
            let ink: String = text::trim_end(l.text.as_str());
            let gaps: usize = TextLine::justification_opportunities(ink.as_str());
            let run = LineRun {
                text: text::apply_text_transform(&l.text, style.text_transform),
                x: d.content.x + l.x_offset,
                y: top + seat.drop,
                width: l.width + l.justify_space * Num::from_usize(gaps),
                top,
                justify_space: l.justify_space,
            };
            proof {
                assert(run@ == wrapped_line(*style, d, *seat, l@, i as int));
            }
            render_line(out, shaper, style, seat, &run, scope);
        }
        i = i + 1;
        proof {
            assert(command_views(out@) =~= command_views(old(out)@) + lines_commands(
                *shaper,
                *style,
                d,
                *seat,
                ls,
                i as int,
                first,
            ).0);
        }
    }
}

/// Render text with decorations.
pub(crate) fn render_text(
    out: &mut Vec<DisplayCommand>,
    shaper: &Shaper,
    layout_box: &LayoutBox,
    scope: &mut Option<EllipsisScope>,
)
    ensures
        ({
            let (c, after) = text_commands(*shaper, layout_box@, scope_view(*old(scope)));
            command_views(final(out)@) == command_views(old(out)@) + c && scope_view(
                *final(scope),
            ) == after
        }),
{
    match &layout_box.box_type {
        BoxType::Text(raw) => {
            let style = &layout_box.style;
            let t: String = text::apply_text_transform(raw, style.text_transform);
            let seat = seat_of(shaper, style, &t);
            match &layout_box.text_lines {
                Some(lines) => {
                    render_lines(out, shaper, layout_box, &seat, lines, scope);
                },
                None => {
                    let d = layout_box.dimensions;
                    let run = LineRun {
                        text: t,
                        x: d.content.x,
                        y: d.content.y + seat.drop,
                        width: d.content.width,
                        top: d.content.y,
                        justify_space: Num::zero(),
                    };
                    render_line(out, shaper, style, &seat, &run, scope);
                },
            }
        },
        _ => {
            proof {
                assert(command_views(out@) =~= command_views(old(out)@) + Seq::<CommandV>::empty());
            }
        },
    }
}

} // verus!

//! Text on its lines: where runs are painted, decorated and widened.
use vstd::prelude::*;
use crate::display::{CommandV, DisplayCommand};
use crate::geometry::Dimensions;
use crate::grid;
use crate::laws::leaves::lemma_seat_shares_leading;
use crate::num::Num;
use crate::paint_text::{
    decoration_style, decoration_thickness, decorations, gradient_fills, line_commands, lines_commands, seating, single_line, widened,
    wrapped_line, RunLine, Seating,
};
use crate::sizing;
use crate::style::{Color, ComputedStyle, FontStretch, Length};
use crate::text::{self, measured, separators, total, trimmed, trimmed_end, trimmed_start, white,
    whites, FaceV, LineV, Shaper, TextMetrics};

verus! {

/// A trimmed text starts and ends with a character that shows, and what was
/// cut off around it is white space.
pub proof fn lemma_trimming_cuts_white_space_only(s: Seq<char>) -> (r: (int, int))
    ensures
        0 <= r.0 <= r.1 <= s.len(),
        trimmed(s) == s.subrange(r.0, r.1),
        forall|i: int| 0 <= i < r.0 || r.1 <= i < s.len() ==> white(#[trigger] s[i]),
        r.0 < r.1 ==> !white(s[r.0]) && !white(s[r.1 - 1]),
{
    let a = lemma_trimmed_start(s);
    let t = trimmed_start(s);
    let b = lemma_trimmed_end(t);
    assert(trimmed(s) =~= s.subrange(a, a + b));
    assert forall|i: int| 0 <= i < a || a + b <= i < s.len() implies white(#[trigger] s[i]) by {
        if a <= i {
            assert(t[i - a] == s[i]);
        }
    }
    if b > 0 {
        assert(t[0] == s[a] && t[b - 1] == s[a + b - 1]);
    }
    (a, a + b)
}

proof fn lemma_trimmed_start(s: Seq<char>) -> (a: int)
    ensures
        0 <= a <= s.len(),
        trimmed_start(s) == s.subrange(a, s.len() as int),
        forall|i: int| 0 <= i < a ==> white(#[trigger] s[i]),
        a < s.len() ==> !white(s[a]),
    decreases s.len(),
{
    if s.len() > 0 && white(s.first()) {
        let rest = s.drop_first();
        let a = lemma_trimmed_start(rest);
        assert(trimmed_start(s) =~= s.subrange(a + 1, s.len() as int));
        assert forall|i: int| 0 <= i < a + 1 implies white(#[trigger] s[i]) by {
            if i > 0 {
                assert(rest[i - 1] == s[i]);
            }
        }
        if a < rest.len() {
            assert(rest[a] == s[a + 1]);
        }
        a + 1
    } else {
        assert(s =~= s.subrange(0, s.len() as int));
        0
    }
}

proof fn lemma_trimmed_end(s: Seq<char>) -> (b: int)
    ensures
        0 <= b <= s.len(),
        trimmed_end(s) == s.subrange(0, b),
        forall|i: int| b <= i < s.len() ==> white(#[trigger] s[i]),
        b > 0 ==> !white(s[b - 1]),
    decreases s.len(),
{
    if s.len() > 0 && white(s.last()) {
        let rest = s.drop_last();
        let b = lemma_trimmed_end(rest);
        assert(trimmed_end(s) =~= s.subrange(0, b));
        assert forall|i: int| b <= i < s.len() implies white(#[trigger] s[i]) by {
            if i < s.len() - 1 {
                assert(rest[i] == s[i]);
            }
        }
        if b > 0 {
            assert(rest[b - 1] == s[b - 1]);
        }
        b
    } else {
        assert(s =~= s.subrange(0, s.len() as int));
        s.len() as int
    }
}

/// The lines of a text follow each other one line height apart, each at its
/// own offset from the left edge of the box.
pub proof fn lemma_lines_are_a_line_height_apart(
    style: ComputedStyle,
    d: Dimensions,
    seat: Seating,
    lines: Seq<LineV>,
    i: int,
    g: nat,
)
    requires
        d.content.coords(g),
        seat.line_height.on(g, 0x1000) && seat.drop.coord(g),
        0 <= i && i + 1 < lines.len() && i < 0x7ff,
        lines[i].x_offset.coord(g) && lines[i + 1].x_offset.coord(g),
    ensures
        ({
            let a = wrapped_line(style, d, seat, lines[i], i);
            let b = wrapped_line(style, d, seat, lines[i + 1], i + 1);
            let h = seat.line_height.ticks(g);
            &&& b.y.ticks(g) - a.y.ticks(g) == h && b.top.ticks(g) - a.top.ticks(g) == h
            &&& a.x.ticks(g) == d.content.x.ticks(g) + lines[i].x_offset.ticks(g)
            &&& b.x.ticks(g) == d.content.x.ticks(g) + lines[i + 1].x_offset.ticks(g)
            &&& a.y.ticks(g) - a.top.ticks(g) == seat.drop.ticks(g)
            &&& i == 0 ==> a.top.ticks(g) == d.content.y.ticks(g)
        }),
{
    let u: int = 0x8_0000;
    lemma_line_place(d, seat, lines[i].x_offset, i as nat, g);
    lemma_line_place(d, seat, lines[i + 1].x_offset, (i + 1) as nat, g);
    let h = seat.line_height.ticks(g);
    assert((i + 1) * h == i * h + h) by (nonlinear_arith);
    assert(i == 0 ==> i * h == 0) by (nonlinear_arith);
}

proof fn lemma_line_place(d: Dimensions, seat: Seating, offset: Num, i: nat, g: nat)
    requires
        d.content.coords(g),
        seat.line_height.on(g, 0x1000) && seat.drop.coord(g),
        i < 0x800,
        offset.coord(g),
    ensures
        ({
            let top = d.content.y + Num::whole(i as int) * seat.line_height;
            &&& top.ticks(g) == d.content.y.ticks(g) + i * seat.line_height.ticks(g)
            &&& (top + seat.drop).ticks(g) == top.ticks(g) + seat.drop.ticks(g)
            &&& (d.content.x + offset).ticks(g) == d.content.x.ticks(g) + offset.ticks(g)
        }),
{
    let u: int = 0x8_0000;
    let n: int = 0x1000;
    let k = i * n;
    assert(0 <= k <= 0x80_0000) by (nonlinear_arith)
        requires
            k == i * n,
            n == 0x1000,
            0 <= i < 0x800,
    ;
    grid::lemma_times(i, seat.line_height, g, n);
    let down = Num::whole(i as int) * seat.line_height;
    grid::lemma_sum(d.content.y, down, g, u, k);
    grid::lemma_sum(d.content.y + down, seat.drop, g, u + k, u);
    grid::lemma_sum(d.content.x, offset, g, u, u);
}

/// Text is seated in the middle of its line: with whole metrics, what is above
/// its ascent is what is below its descent, or a pixel less. A run of one line
/// is seated as a line of several is.
pub proof fn lemma_text_is_in_the_middle_of_its_line(
    sh: Shaper,
    style: ComputedStyle,
    t: Seq<char>,
    d: Dimensions,
    ascent: Num,
    descent: Num,
)
    requires
        ({
            let size = style.font_px();
            let m = measured(
                sh,
                t,
                style.face(FontStretch::Normal, size),
                Num::nought(),
                Num::nought(),
            );
            (ascent, descent) == sizing::seat_extents(
                sh,
                style,
                size,
                vstd::utf8::is_ascii_chars(t),
                m,
            )
        }),
        ascent.on(149, 0x8_0000) && descent.on(149, 0x8_0000),
        seating(sh, style, t).line_height.on(149, 0x8_0000),
        d.content.y.on(149, 0x8_0000),
    ensures
        ({
            let seat = seating(sh, style, t);
            let l = single_line(d, seat, t);
            let above = l.y.ticks(149) - l.top.ticks(149);
            let below = l.top.ticks(149) + seat.line_height.ticks(149) - l.y.ticks(149)
                - ascent.ticks(149) - descent.ticks(149);
            &&& l.top == d.content.y
            &&& seat.ascent == ascent
            &&& above <= below && below <= above + 1
        }),
{
    reveal(seating);
    let u: int = 0x8_0000;
    let seat = seating(sh, style, t);
    lemma_seat_shares_leading(seat.line_height, ascent, descent);
    crate::laws::leaves::lemma_seat_on(seat.line_height, ascent, descent);
    let s = sizing::seat(seat.line_height, ascent, descent);
    grid::lemma_difference(s, ascent, 149, 4 * u, u);
    grid::lemma_sum(d.content.y, seat.drop, 149, u, 5 * u);
}

/// Whether a command draws a decoration line over the whole of a run, in the
/// color and style of the decoration.
pub open spec fn decorates(c: CommandV, style: ComputedStyle, x: Num, width: Num, y: int, g: nat) -> bool {
    c matches CommandV::Plain(DisplayCommand::TextDecoration {
        x: at,
        y: dy,
        width: w,
        thickness,
        color,
        style: kind,
    }) && at == x && w == width && dy.ticks(g) == y && color == (match style.text_decoration_color {
        Some(k) => k,
        None => style.color,
    }) && kind == decoration_style(style.text_decoration_style) && (
    style.text_decoration_thickness matches Length::Px(px) ==> thickness == px)
}

/// The decorations of a run are those of its style: an underline, an overline
/// and a line through it, each as far above the baseline as the font says and
/// as wide as the run.
pub proof fn lemma_decorations_are_at_their_heights(
    sh: Shaper,
    style: ComputedStyle,
    t: Seq<char>,
    x: Num,
    y: Num,
    width: Num,
    g: nat,
)
    requires
        y.coord(g),
        ({
            let m = measured(
                sh,
                t,
                style.face(FontStretch::Normal, style.font_px()),
                Num::nought(),
                Num::nought(),
            );
            &&& m.ascent.coord(g) && m.ascent.ticks(g) > 0
            &&& m.underline_offset.coord(g) && m.underline_offset.ticks(g) != 0
            &&& m.overline_offset.coord(g) && m.overline_offset.ticks(g) != 0
            &&& m.strikethrough_offset.coord(g) && m.strikethrough_offset.ticks(g) != 0
        }),
    ensures
        ({
            let m = measured(
                sh,
                t,
                style.face(FontStretch::Normal, style.font_px()),
                Num::nought(),
                Num::nought(),
            );
            let base = y.ticks(g) + m.ascent.ticks(g);
            let lines = style.text_decoration_line;
            let c = decorations(sh, style, t, x, y, width);
            let over = (if lines.underline {
                1int
            } else {
                0
            });
            let through = over + (if lines.overline {
                1int
            } else {
                0
            });
            &&& c.len() == through + (if lines.line_through {
                1int
            } else {
                0
            })
            &&& lines.underline ==> decorates(
                c[0],
                style,
                x,
                width,
                base - m.underline_offset.ticks(g),
                g,
            )
            &&& lines.overline ==> decorates(
                c[over],
                style,
                x,
                width,
                base - m.overline_offset.ticks(g),
                g,
            )
            &&& lines.line_through ==> decorates(
                c[through],
                style,
                x,
                width,
                base - m.strikethrough_offset.ticks(g),
                g,
            )
        }),
{
    reveal(decorations);
    let u: int = 0x8_0000;
    let m = measured(
        sh,
        t,
        style.face(FontStretch::Normal, style.font_px()),
        Num::nought(),
        Num::nought(),
    );
    grid::lemma_finite(y, g, u);
    grid::lemma_zero(g);
    grid::lemma_order(m.ascent, Num::nought(), g, u, 0);
    grid::lemma_order(m.underline_offset, Num::nought(), g, u, 0);
    grid::lemma_order(m.overline_offset, Num::nought(), g, u, 0);
    grid::lemma_order(m.strikethrough_offset, Num::nought(), g, u, 0);
    grid::lemma_sum(y, m.ascent, g, u, u);
    grid::lemma_difference(y + m.ascent, m.underline_offset, g, 2 * u, u);
    grid::lemma_difference(y + m.ascent, m.overline_offset, g, 2 * u, u);
    grid::lemma_difference(y + m.ascent, m.strikethrough_offset, g, 2 * u, u);
}

/// A justified line is wider by the space of each of its word separators, and
/// by nothing else.
pub proof fn lemma_justified_line_is_wider_by_its_separators(
    advances: Seq<Num>,
    t: Seq<char>,
    space: Num,
    g: nat,
)
    requires
        advances.len() == t.len() < 0x400,
        space.on(g, 0x1000),
        forall|i: int| 0 <= i < advances.len() ==> (#[trigger] advances[i]).on(g, 0x800),
        space.ticks(g) <= 0x800 && -0x800 <= space.ticks(g),
    ensures
        total(widened(advances, t, space)).ticks(g) == total(advances).ticks(g) + separators(t)
            * space.ticks(g),
        total(widened(advances, t, space)).on(g, t.len() as int * 0x1000),
        total(advances).on(g, t.len() as int * 0x1000),
    decreases t.len(),
{
    let w = widened(advances, t, space);
    grid::lemma_finite(space, g, 0x1000);
    grid::lemma_zero(g);
    assert(0 * space.ticks(g) == 0 && 0 * 0x1000 == 0);
    if t.len() > 0 {
        let n = t.len() - 1;
        let a = advances.drop_last();
        let s = t.drop_last();
        assert forall|i: int| 0 <= i < a.len() implies (#[trigger] a[i]).on(g, 0x800) by {
            assert(a[i] == advances[i]);
        }
        lemma_justified_line_is_wider_by_its_separators(a, s, space, g);
        assert(w.drop_last() =~= widened(a, s, space));
        let last = advances[n];
        assert(last.on(g, 0x800));
        grid::lemma_wider(last, g, 0x800, 0x1000);
        assert(space.on(g, 0x800)) by {
            reveal(Num::on);
        }
        grid::lemma_sum(last, space, g, 0x800, 0x800);
        grid::lemma_sum(total(a), last, g, n * 0x1000, 0x1000);
        grid::lemma_sum(total(w.drop_last()), w.last(), g, n * 0x1000, 0x1000);
        let k = separators(s) as int;
        let p = space.ticks(g);
        assert((k + 1) * p == k * p + p) by (nonlinear_arith);
    }
}

/// Spacing widens a text that is estimated by one letter spacing for each
/// character and one word spacing for each white space, and changes no height.
pub proof fn lemma_spacing_widens_text(
    sh: Shaper,
    t: Seq<char>,
    face: FaceV,
    letter: Num,
    word: Num,
    g: nat,
)
    requires
        text::run_index(sh.runs@, t, face, letter, word, 0) is None,
        text::run_index(sh.runs@, t, face, Num::nought(), Num::nought(), 0) is None,
        text::estimated(sh, t, face.size).width.coord(g),
        letter.on(g, 0x800) && word.on(g, 0x800),
        t.len() < 0x400,
    ensures
        ({
            let m = measured(sh, t, face, letter, word);
            let plain = measured(sh, t, face, Num::nought(), Num::nought());
            &&& m.width.ticks(g) == plain.width.ticks(g) + t.len() * letter.ticks(g) + whites(t)
                * word.ticks(g)
            &&& m.ascent == plain.ascent && m.descent == plain.descent && m.leading
                == plain.leading
        }),
{
    reveal(measured);
    text::lemma_counts_bounded(t);
    lemma_spaced(sh, t, face, letter, word, g);
    grid::lemma_finite(letter, g, 0x800);
    grid::lemma_zero(g);
    grid::lemma_wider(Num::nought(), g, 0, 0x800);
    lemma_spaced(sh, t, face, Num::nought(), Num::nought(), g);
    assert(t.len() * 0 == 0 && whites(t) * 0 == 0);
}

proof fn lemma_spaced(sh: Shaper, t: Seq<char>, face: FaceV, letter: Num, word: Num, g: nat)
    requires
        text::estimated(sh, t, face.size).width.coord(g),
        letter.on(g, 0x800) && word.on(g, 0x800),
        t.len() < 0x400,
        whites(t) <= t.len(),
    ensures
        ({
            let w = text::estimated(sh, t, face.size).width;
            (w + letter * Num::whole(t.len() as int) + word * Num::whole(
                whites(t) as int,
            )).ticks(g) == w.ticks(g) + t.len() * letter.ticks(g) + whites(t) * word.ticks(g)
        }),
{
    let u: int = 0x8_0000;
    let w = text::estimated(sh, t, face.size).width;
    let n = t.len();
    let k = whites(t);
    let m: int = 0x800;
    assert(0 <= n * m <= 0x20_0000 && 0 <= k * m <= 0x20_0000) by (nonlinear_arith)
        requires
            0 <= n < 0x400,
            0 <= k < 0x400,
            m == 0x800,
    ;
    grid::lemma_times(n, letter, g, m);
    grid::lemma_times(k, word, g, m);
    grid::lemma_sum(w, letter * Num::whole(n as int), g, u, n * m);
    grid::lemma_sum(
        w + letter * Num::whole(n as int),
        word * Num::whole(k as int),
        g,
        u + n * m,
        k * m,
    );
}

/// A line that no scope cuts is painted where it stands, with its text, in the
/// font and color of its style, before its decorations.
pub proof fn lemma_line_is_painted_in_its_style(
    sh: Shaper,
    style: ComputedStyle,
    seat: Seating,
    l: RunLine,
)
    requires
        !gradient_fills(style),
    ensures
        ({
            let c = line_commands(sh, style, seat, l, None).0;
            &&& c.len() == 1 + decorations(sh, style, l.text, l.x, l.y, l.width).len()
            &&& c[0] matches CommandV::Text { run, color } && color == style.color && run.text
                == l.text && run.x == l.x && run.y == l.y && run.font_size == style.font_px()
                && run.font_family == style.font_family@ && run.font_weight == style.font_weight.0
                && run.ascent == Some(seat.ascent)
        }),
{
    reveal(line_commands);
}

/// A justified line is painted as wide as it is with each of its separators
/// widened.
pub proof fn lemma_justified_line_is_painted_wider(
    style: ComputedStyle,
    d: Dimensions,
    seat: Seating,
    l: LineV,
    i: int,
    g: nat,
)
    requires
        l.width.coord(g) && l.justify_space.on(g, 0x800),
        separators(trimmed_end(l.text)) < 0x400,
    ensures
        wrapped_line(style, d, seat, l, i).width.ticks(g) == l.width.ticks(g) + separators(
            trimmed_end(l.text),
        ) * l.justify_space.ticks(g),
{
    let n = separators(trimmed_end(l.text));
    let m: int = 0x800;
    assert(0 <= n * m <= 0x20_0000) by (nonlinear_arith)
        requires
            0 <= n < 0x400,
            m == 0x800,
    ;
    grid::lemma_times(n, l.justify_space, g, m);
    grid::lemma_sum(l.width, l.justify_space * Num::whole(n as int), g, 0x8_0000, n * m);
}

/// Whether a command paints a run of text from a place.
pub open spec fn paints_run(c: CommandV, text: Seq<char>, x: Num, y: Num, color: Color) -> bool {
    c matches CommandV::Text { run, color: k } && run.text == text && run.x == x && run.y == y && k
        == color
}

/// Every line of a text that holds anything is painted, in order, each at the
/// place of that line.
pub proof fn lemma_every_line_is_painted(
    sh: Shaper,
    style: ComputedStyle,
    d: Dimensions,
    seat: Seating,
    lines: Seq<LineV>,
    k: int,
    i: int,
) -> (at: int)
    requires
        !gradient_fills(style),
        0 <= i < k <= lines.len(),
        lines[i].text.len() > 0,
    ensures
        ({
            let c = lines_commands(sh, style, d, seat, lines, k, None).0;
            let l = wrapped_line(style, d, seat, lines[i], i);
            &&& at == lines_commands(sh, style, d, seat, lines, i, None).0.len()
            &&& 0 <= at < c.len() && paints_run(
                c[at],
                text::transformed(lines[i].text, style.text_transform),
                l.x,
                l.y,
                style.color,
            )
        }),
        lines_commands(sh, style, d, seat, lines, k, None).1 is None,
    decreases k,
{
    lemma_no_scope(sh, style, d, seat, lines, k - 1);
    let (c, s) = lines_commands(sh, style, d, seat, lines, k - 1, None);
    reveal(line_commands);
    if i < k - 1 {
        let at = lemma_every_line_is_painted(sh, style, d, seat, lines, k - 1, i);
        at
    } else {
        c.len() as int
    }
}

proof fn lemma_no_scope(
    sh: Shaper,
    style: ComputedStyle,
    d: Dimensions,
    seat: Seating,
    lines: Seq<LineV>,
    k: int,
)
    ensures
        lines_commands(sh, style, d, seat, lines, k, None).1 is None,
    decreases k,
{
    if k > 0 {
        lemma_no_scope(sh, style, d, seat, lines, k - 1);
        reveal(line_commands);
    }
}

/// A text that is estimated is half its font size wide for each character.
pub proof fn lemma_estimate_is_half_the_size_each(sh: Shaper, t: Seq<char>, size: Num, g: nat)
    requires
        size.on(g, 0x800),
        1 <= g,
        size.ticks(g) % 2 == 0,
        t.len() < 0x400,
    ensures
        2 * text::estimated(sh, t, size).width.ticks(g) == t.len() * size.ticks(g),
{
    let n = t.len();
    let m: int = 0x800;
    assert(0 <= n * m < 0x100_0000) by (nonlinear_arith)
        requires
            0 <= n < 0x400,
            m == 0x800,
    ;
    grid::lemma_halved(size, g, m);
    let half = size * Num::ratio(1, 2);
    grid::lemma_times(n, half, g, m);
    let h = half.ticks(g);
    assert(2 * (n * h) == n * (2 * h)) by (nonlinear_arith);
}

/// The extents that a baseline is seated on are those of the whole run under
/// `line-height: normal` and for plain text, else those of the primary font.
pub proof fn lemma_baseline_is_seated_on_its_font(
    sh: Shaper,
    style: ComputedStyle,
    size: Num,
    is_ascii: bool,
    run: TextMetrics,
)
    ensures
        ({
            let (a, d) = sizing::seat_extents(sh, style, size, is_ascii, run);
            let font = text::x_metrics(sh, style, size);
            &&& style.line_height is Normal || is_ascii ==> a == run.ascent && d == run.descent
            &&& !(style.line_height is Normal) && !is_ascii && font.ascent > Num::nought() ==> a
                == font.ascent && d == font.descent
        }),
{
}

/// Decoration lines are as thick as the style says, else as the font says, else
/// one part in fourteen of the font size.
pub proof fn lemma_decorations_are_as_thick_as_the_font_says(
    style: ComputedStyle,
    m: TextMetrics,
    k: nat,
    g: nat,
)
    requires
        style.font_px().on(g, 0x1000),
        k < 0x100,
        style.font_px().ticks(g) % 14 == 0,
    ensures
        ({
            let t = decoration_thickness(style, m);
            let size = style.font_px().ticks(g);
            &&& style.text_decoration_thickness matches Length::Px(v) ==> t == v
            &&& style.text_decoration_thickness == Length::Em(Num::whole(k as int)) ==> t.ticks(g)
                == k * size
            &&& style.text_decoration_thickness == Length::Auto && m.underline_thickness
                > Num::nought() ==> t == m.underline_thickness
            &&& style.text_decoration_thickness == Length::Auto && m.underline_thickness
                <= Num::nought() ==> 14 * t.ticks(g) == size
        }),
{
    let n: int = 0x1000;
    assert(0 <= k * n < 0x100_0000) by (nonlinear_arith)
        requires
            0 <= k < 0x100,
            n == 0x1000,
    ;
    grid::lemma_times(k, style.font_px(), g, n);
    grid::lemma_part(14, style.font_px(), g, n);
}

} // verus!

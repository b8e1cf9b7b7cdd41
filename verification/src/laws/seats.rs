//! Baselines of boxes, and the marks that form controls paint.
use vstd::prelude::*;
use crate::baseline::{
    baseline_y, bottom_edge, content_area, hang, last_baseline, member_extents, own_line, seated,
    strut_descent, tail_after, text_baseline,
};
use crate::boxes::{BoxType, BoxV};
use crate::controls::{checkbox, radio, replaced};
use crate::display::{CommandV, DisplayCommand};
use crate::floats::Float;
use crate::flow::container;
use crate::grid;
use crate::images::ObjectFit;
use crate::laws::cutting::lemma_floor_with_slack;
use crate::laws::boxes::{lemma_boxes_lie_around, lemma_rect_edges};
use crate::laws::flowing::lemma_whole_on;
use crate::laws::leaves::lemma_line_extents_make_line_height;
use crate::laws::moving::{lemma_subtree_moves_whole, moved_whole, tree_coords};
use crate::num::Num;
use crate::sizing::{self, font_extents, FormControlType};
use crate::style::{ComputedStyle, Display, VerticalAlign, WhiteSpace};
use crate::text::Shaper;

verus! {

/// Whether the metrics of a style are on a grid and its leading halves on it.
pub open spec fn metrics_on(sh: Shaper, style: ComputedStyle, line: Num, g: nat) -> bool {
    let (a, d) = font_extents(sh, style, style.font_px());
    &&& a.coord(g) && d.coord(g) && line.coord(g)
    &&& (line.ticks(g) - a.ticks(g) - d.ticks(g)) % 2 == 0
}

proof fn lemma_leading(line: Num, a: Num, d: Num, g: nat)
    requires
        a.coord(g) && d.coord(g) && line.coord(g),
        (line.ticks(g) - a.ticks(g) - d.ticks(g)) % 2 == 0,
    ensures
        sizing::leading(line, a, d).on(g, 0x18_0000),
        2 * sizing::leading(line, a, d).ticks(g) == line.ticks(g) - a.ticks(g) - d.ticks(g),
        (a + d).on(g, 0x10_0000),
        (a + d).ticks(g) == a.ticks(g) + d.ticks(g),
{
    let u: int = 0x8_0000;
    grid::lemma_sum(a, d, g, u, u);
    grid::lemma_difference(line, a + d, g, u, 2 * u);
    grid::lemma_part(2, line - (a + d), g, 3 * u);
}

/// The content area of an inline box is in the middle of its line: the area
/// and the same leading above and below make the line height.
pub proof fn lemma_content_area_is_in_the_middle(sh: Shaper, style: ComputedStyle, g: nat)
    requires
        metrics_on(sh, style, own_line(sh, style), g),
    ensures
        ({
            let (area, half) = content_area(sh, style);
            area.ticks(g) + 2 * half.ticks(g) == own_line(sh, style).ticks(g)
        }),
{
    reveal(content_area);
    let (a, d) = font_extents(sh, style, style.font_px());
    lemma_leading(own_line(sh, style), a, d, g);
}

/// What a line reaches below its baseline is what the ascent and the leading
/// above it leave of the line height.
pub proof fn lemma_strut_hangs_below_baseline(sh: Shaper, style: ComputedStyle, g: nat)
    requires
        metrics_on(sh, style, own_line(sh, style), g),
    ensures
        ({
            let (a, d) = font_extents(sh, style, style.font_px());
            let below = strut_descent(sh, style).ticks(g);
            let above = own_line(sh, style).ticks(g) - below;
            above - a.ticks(g) == below - d.ticks(g)
        }),
{
    reveal(strut_descent);
    let u: int = 0x8_0000;
    let (a, d) = font_extents(sh, style, style.font_px());
    lemma_leading(own_line(sh, style), a, d, g);
    grid::lemma_sum(d, sizing::leading(own_line(sh, style), a, d), g, u, 3 * u);
}

/// The baseline of a text is in its last line, as far from the bottom of the
/// text as a line reaches below its baseline.
pub proof fn lemma_text_baseline_is_in_its_last_line(sh: Shaper, b: BoxV, g: nat)
    requires
        metrics_on(sh, b.own.style, own_line(sh, b.own.style), g),
        b.dim.content.coords(g),
    ensures
        ({
            let style = b.own.style;
            let (a, d) = font_extents(sh, style, style.font_px());
            let bottom = b.dim.content.y.ticks(g) + b.dim.content.height.ticks(g);
            let below = bottom - text_baseline(sh, b).ticks(g);
            let above = own_line(sh, style).ticks(g) - below;
            above - a.ticks(g) == below - d.ticks(g)
        }),
{
    reveal(text_baseline);
    let u: int = 0x8_0000;
    let style = b.own.style;
    let (a, d) = font_extents(sh, style, style.font_px());
    let half = sizing::leading(own_line(sh, style), a, d);
    lemma_leading(own_line(sh, style), a, d, g);
    grid::lemma_sum(b.dim.content.y, b.dim.content.height, g, u, u);
    grid::lemma_sum(half, d, g, 3 * u, u);
    grid::lemma_difference(
        b.dim.content.y + b.dim.content.height,
        half + d,
        g,
        2 * u,
        4 * u,
    );
}

/// The baseline of a control is that of its line of text. The line ends at the
/// bottom of the content; in a control of a given height that centres its line
/// it has as much room below it as above.
pub proof fn lemma_control_hangs_by_its_text(sh: Shaper, b: BoxV, g: nat)
    requires
        metrics_on(sh, b.own.style, b.own.style.line_height.px(b.own.style.font_px()), g),
        b.dim.coords(g),
        ({
            let line = b.own.style.line_height.px(b.own.style.font_px());
            (b.dim.content.height.ticks(g) - line.ticks(g)) % 2 == 0
        }),
    ensures
        ({
            let style = b.own.style;
            let (a, d) = font_extents(sh, style, style.font_px());
            let line = style.line_height.px(style.font_px()).ticks(g);
            let edges = b.dim.padding.bottom.ticks(g) + b.dim.border.bottom.ticks(g);
            // From the bottom of the line up to its baseline.
            let below = d.ticks(g) + (line - a.ticks(g) - d.ticks(g)) / 2;
            let room = hang(sh, b).ticks(g) - edges - below;
            &&& style.height.is_auto() || !crate::baseline::centres_line(b) ==> room == 0
            &&& !style.height.is_auto() && crate::baseline::centres_line(b)
                && b.dim.content.height.ticks(g) >= line ==> 2 * room + line
                == b.dim.content.height.ticks(g)
            &&& !style.height.is_auto() && crate::baseline::centres_line(b)
                && b.dim.content.height.ticks(g) < line ==> room == 0
        }),
{
    reveal(hang);
    let u: int = 0x8_0000;
    let style = b.own.style;
    let line = style.line_height.px(style.font_px());
    let (a, d) = font_extents(sh, style, style.font_px());
    let half = sizing::leading(line, a, d);
    lemma_leading(line, a, d, g);
    grid::lemma_difference(b.dim.content.height, line, g, u, u);
    grid::lemma_part(2, b.dim.content.height - line, g, 2 * u);
    let zero = Num::nought();
    grid::lemma_finite(line, g, u);
    grid::lemma_zero(g);
    grid::lemma_wider(zero, g, 0, 2 * u);
    grid::lemma_extremes((b.dim.content.height - line) / Num::whole(2), zero, g, 2 * u);
    let spare = if crate::baseline::centres_line(b) && !style.height.is_auto() {
        Num::larger((b.dim.content.height - line) / Num::whole(2), zero)
    } else {
        zero
    };
    grid::lemma_sum(d, half, g, u, 3 * u);
    grid::lemma_sum(d + half, spare, g, 4 * u, 2 * u);
    grid::lemma_sum(d + half + spare, b.dim.padding.bottom, g, 6 * u, u);
    grid::lemma_sum(d + half + spare + b.dim.padding.bottom, b.dim.border.bottom, g, 7 * u, u);
}

/// What reaches above and below the baseline of a line: an image all above it,
/// text as its line extents say; what hangs elsewhere reaches nowhere.
pub proof fn lemma_member_extents_by_kind(sh: Shaper, b: BoxV, g: nat)
    requires
        b.dim.coords(g),
        b.dim.margin_box().height.ticks(g) >= 0,
    ensures
        b.own.style.vertical_align == VerticalAlign::Top || b.own.style.vertical_align
            == VerticalAlign::Bottom || b.own.style.vertical_align == VerticalAlign::Middle
            ==> member_extents(sh, b) is None,
        b.own.style.vertical_align == VerticalAlign::Baseline && b.own.box_type is Text
            ==> member_extents(sh, b) == Some(sizing::line_extents(sh, b.own.style)),
        b.own.style.vertical_align == VerticalAlign::Baseline && b.own.box_type is Image ==> (
        member_extents(sh, b) matches Some((above, below)) && above.ticks(g)
            == b.dim.margin_box().height.ticks(g) && below.ticks(g) == 0),
        b.own.style.vertical_align == VerticalAlign::Baseline && b.own.box_type is FormControl ==> (
        member_extents(sh, b) matches Some((above, below)) && (above.coord(g) ==> below.ticks(g)
            >= 0 && (above.ticks(g) <= b.dim.margin_box().height.ticks(g) ==> above.ticks(g)
            + below.ticks(g) == b.dim.margin_box().height.ticks(g)))),
{
    reveal(member_extents);
    reveal(bottom_edge);
    reveal(baseline_y);
    let u: int = 0x8_0000;
    let h = b.dim.margin_box().height;
    lemma_boxes_lie_around(b.dim, g);
    grid::lemma_difference(h, h, g, 11 * u, 11 * u);
    grid::lemma_finite(h, g, 11 * u);
    grid::lemma_zero(g);
    grid::lemma_wider(Num::nought(), g, 0, 22 * u);
    grid::lemma_extremes(h - h, Num::nought(), g, 22 * u);
    if let Some((above, below)) = member_extents(sh, b) {
        if above.coord(g) {
            grid::lemma_difference(h, above, g, 11 * u, u);
            grid::lemma_wider(Num::nought(), g, 0, 12 * u);
            grid::lemma_extremes(h - above, Num::nought(), g, 12 * u);
        }
    }
}

/// The baseline of an inline block is that of its last child in flow that has
/// one: the bottom of an image, the baseline of a text. A child out of flow, a
/// float or one that is not shown counts for nothing.
pub proof fn lemma_baseline_is_that_of_the_last_child(sh: Shaper, b: BoxV)
    requires
        b.children.len() > 0,
    ensures
        ({
            let c = b.children.last();
            let d = c.dim.margin_box();
            let shown = !c.own.position.is_out_of_flow() && c.own.float == Float::Unset
                && c.own.style.display != Display::Gone;
            &&& shown && c.own.box_type is Image ==> baseline_y(sh, b) == Some(d.y + d.height)
            &&& shown && c.own.box_type is Text ==> baseline_y(sh, b) == Some(text_baseline(sh, c))
            &&& !shown || c.own.box_type is LineBreak ==> baseline_y(sh, b) == last_baseline(
                sh,
                b.children,
                b.children.len() - 1,
            )
        }),
{
    reveal(baseline_y);
    reveal(last_baseline);
}

/// Where seating takes the boxes under an inline box: text stays in its line,
/// inline boxes come down, and everything else comes down whole.
pub open spec fn seated_by(a: BoxV, b: BoxV, dy: int, g: nat) -> bool
    decreases a,
{
    &&& b.own == a.own && b.lines == a.lines && b.children.len() == a.children.len()
    &&& b.dim.content.x == a.dim.content.x
    &&& b.dim.content.width == a.dim.content.width
    &&& b.dim.content.height == a.dim.content.height
    &&& b.dim.content.y.ticks(g) == a.dim.content.y.ticks(g) + dy
    &&& forall|i: int|
        0 <= i < a.children.len() ==> match (#[trigger] a.children[i]).own.box_type {
            BoxType::Text(_) => b.children[i] == a.children[i],
            BoxType::Inline => seated_by(a.children[i], b.children[i], dy, g),
            _ => moved_whole(a.children[i], b.children[i], 0, dy, g),
        }
}

/// An inline box that is seated comes down with the inline boxes in it; its
/// text stays.
pub proof fn lemma_seating_moves_boxes_not_text(b: BoxV, dy: Num, g: nat)
    requires
        tree_coords(b, g),
        dy.coord(g),
    ensures
        seated_by(b, seated(b, dy), dy.ticks(g), g),
    decreases b,
{
    reveal(seated);
    let u: int = 0x8_0000;
    let c = seated(b, dy);
    grid::lemma_sum(b.dim.content.y, dy, g, u, u);
    grid::lemma_finite(dy, g, u);
    grid::lemma_zero(g);
    grid::lemma_wider(Num::nought(), g, 0, u);
    assert forall|i: int| 0 <= i < b.children.len() implies match (
    #[trigger] b.children[i]).own.box_type {
        BoxType::Text(_) => c.children[i] == b.children[i],
        BoxType::Inline => seated_by(b.children[i], c.children[i], dy.ticks(g), g),
        _ => moved_whole(b.children[i], c.children[i], 0, dy.ticks(g), g),
    } by {
        match b.children[i].own.box_type {
            BoxType::Text(_) => {},
            BoxType::Inline => {
                lemma_seating_moves_boxes_not_text(b.children[i], dy, g);
            },
            _ => {
                lemma_subtree_moves_whole(b.children[i], Num::nought(), dy, g, u);
            },
        }
    }
}

/// The line that a wrapped text leaves open ends where its last line does,
/// counted from the left edge of the container.
pub proof fn lemma_tail_ends_with_last_line(
    sh: Shaper,
    b: BoxV,
    left: Num,
    before: Option<(int, Num, Num)>,
    g: nat,
)
    requires
        b.is_text() && b.children.len() == 0,
        b.lines matches Some(lines) && lines.len() > 1 && lines.last().x_offset.coord(g)
            && lines.last().width.coord(g),
        b.dim.content.x.coord(g) && left.coord(g),
    ensures
        tail_after(sh, b, left, before) matches Some((n, end, lh)) && n == b.lines->0.len() && lh
            == own_line(sh, b.own.style) && {
            let last = b.lines->0.last();
            let reach = b.dim.content.x.ticks(g) + last.x_offset.ticks(g) + last.width.ticks(g)
                - left.ticks(g);
            end.ticks(g) == if reach > 0 {
                reach
            } else {
                0
            }
        },
{
    reveal(tail_after);
    let u: int = 0x8_0000;
    let last = b.lines->0.last();
    let x = b.dim.content.x;
    grid::lemma_difference(x, left, g, u, u);
    grid::lemma_sum(x - left, last.x_offset, g, 2 * u, u);
    grid::lemma_sum(x - left + last.x_offset, last.width, g, 3 * u, u);
    grid::lemma_finite(x, g, u);
    grid::lemma_zero(g);
    grid::lemma_wider(Num::nought(), g, 0, 4 * u);
    grid::lemma_extremes(x - left + last.x_offset + last.width, Num::nought(), g, 4 * u);
}

/// A checkbox fills its content box and puts a border around it; a checked one
/// has a mark inside, as far from each of the four sides.
pub proof fn lemma_check_mark_is_inside(b: BoxV, checked: bool)
    requires
        b.dim.content.coords(149),
    ensures
        ({
            let c = checkbox(b, checked);
            let (left, top, right, bottom) = b.dim.content.edges(149);
            &&& c.len() == if checked {
                3int
            } else {
                2int
            }
            &&& c[0] matches CommandV::Plain(DisplayCommand::SolidColor(_, r)) && r == b.dim.content
            &&& c[1] matches CommandV::Plain(DisplayCommand::Border { rect, .. }) && rect
                == b.dim.content
            &&& checked ==> (c[2] matches CommandV::Plain(DisplayCommand::SolidColor(k, r)) && k
                == b.own.style.color && r.edges(149) == (
                left + 3,
                top + 3,
                right - 3,
                bottom - 3,
            ))
        }),
{
    let u: int = 0x8_0000;
    let r = b.dim.content;
    lemma_rect_edges(r, 149);
    lemma_whole_on(3);
    lemma_whole_on(6);
    let (three, six) = (Num::whole(3), Num::whole(6));
    grid::lemma_sum(r.x, three, 149, u, 3);
    grid::lemma_sum(r.y, three, 149, u, 3);
    grid::lemma_difference(r.width, six, 149, u, 6);
    grid::lemma_difference(r.height, six, 149, u, 6);
    grid::lemma_sum(r.x + three, r.width - six, 149, u + 3, u + 6);
    grid::lemma_sum(r.y + three, r.height - six, 149, u + 3, u + 6);
}

/// A radio button is a ring around the middle of its content box, a pixel
/// inside its sides; a checked one has a dot of half the size in the middle.
pub proof fn lemma_radio_is_around_the_middle(b: BoxV, checked: bool)
    requires
        b.dim.content.coords(149),
        b.dim.content.width.ticks(149) % 4 == 0,
        b.dim.content.height.ticks(149) % 2 == 0,
    ensures
        ({
            let c = radio(b, checked);
            let (left, top, right, bottom) = b.dim.content.edges(149);
            &&& c.len() == if checked {
                3int
            } else {
                2int
            }
            &&& c[0] matches CommandV::Plain(DisplayCommand::FillEllipse { rect, .. }) && rect
                == b.dim.content
            &&& c[1] matches CommandV::Plain(DisplayCommand::StrokeCircle { cx, cy, radius, .. })
                && 2 * cx.ticks(149) == left + right && 2 * cy.ticks(149) == top + bottom
                && cx.ticks(149) - radius.ticks(149) == left + 1 && cx.ticks(149) + radius.ticks(
                149,
            ) == right - 1
            &&& checked ==> (c[2] matches CommandV::Plain(DisplayCommand::FillCircle {
                cx,
                cy,
                radius,
                color,
            }) && 2 * cx.ticks(149) == left + right && 2 * cy.ticks(149) == top + bottom && 4
                * radius.ticks(149) == right - left && color == b.own.style.color)
        }),
{
    let u: int = 0x8_0000;
    let r = b.dim.content;
    lemma_rect_edges(r, 149);
    lemma_whole_on(1);
    grid::lemma_part(2, r.width, 149, u);
    grid::lemma_part(2, r.height, 149, u);
    grid::lemma_part(4, r.width, 149, u);
    let (w, h) = (r.width / Num::whole(2), r.height / Num::whole(2));
    grid::lemma_sum(r.x, w, 149, u, u);
    grid::lemma_sum(r.y, h, 149, u, u);
    grid::lemma_difference(w, Num::whole(1), 149, u, 1);
}

/// The empty line of a container is one of its style: the extents above and
/// below the baseline make its line height, as its text does. Lines wrap unless
/// white space forbids it.
pub proof fn lemma_container_has_the_line_of_its_style(sh: Shaper, b: BoxV)
    requires
        ({
            let style = b.own.style;
            let m = crate::text::x_metrics(sh, style, style.font_px());
            &&& m.ascent > Num::nought()
            &&& m.ascent.on(149, 0x8_0000) && m.descent.on(149, 0x8_0000)
            &&& own_line(sh, style).on(149, 0x8_0000)
        }),
    ensures
        ({
            let c = container(sh, b);
            let m = crate::text::x_metrics(sh, b.own.style, b.own.style.font_px());
            let (above, below) = (c.strut_above.ticks(149), c.strut_below.ticks(149));
            let line = c.empty_line.ticks(149);
            &&& c.empty_line == own_line(sh, b.own.style)
            &&& above <= line ==> above + below == line
            &&& above - m.ascent.ticks(149) <= line - above - m.descent.ticks(149)
            &&& line - above - m.descent.ticks(149) <= above - m.ascent.ticks(149) + 1
            &&& c.strut_descent == strut_descent(sh, b.own.style)
            &&& c.dim == b.dim && c.text_align == b.own.style.text_align
            &&& match b.own.style.white_space {
                WhiteSpace::Nowrap => !c.wraps,
                WhiteSpace::Pre => !c.wraps,
                _ => c.wraps,
            }
        }),
{
    reveal(container);
    lemma_line_extents_make_line_height(sh, b.own.style);
}

/// Replaced content is painted into the content box: a field, a button, and an
/// image that fills it.
pub proof fn lemma_replaced_content_is_in_the_content_box(b: BoxV, root: Num, g: nat)
    requires
        b.dim.content.coords(g),
        1 <= g,
    ensures
        match b.own.box_type {
            BoxType::FormControl(FormControlType::TextInput { value, .. }) => {
                &&& replaced(b, root).len() == 1
                &&& replaced(b, root)[0] matches CommandV::Field(f) && f.rect == b.dim.content
                    && f.value == value@ && f.text_color == b.own.style.color && f.font_size
                    == b.own.style.font_px() && f.focused == (b.own.focused_caret is Some)
                    && f.caret_position == b.own.focused_caret
            },
            BoxType::FormControl(FormControlType::Button { label, .. }) => {
                &&& replaced(b, root).len() == 1
                &&& replaced(b, root)[0] matches CommandV::Plain(DisplayCommand::Button {
                    rect,
                    label: l,
                    font_size,
                    ..
                }) && rect == b.dim.content && l == label && font_size == b.own.style.font_px()
            },
            BoxType::Image { url, natural_width, natural_height } => {
                &&& replaced(b, root).len() == 1
                &&& replaced(b, root)[0] matches CommandV::Plain(DisplayCommand::Image {
                    url: u,
                    dest_rect,
                    opacity,
                    ..
                }) && u == url && opacity == b.own.style.opacity && (ObjectFit::of(
                    b.own.style.object_fit@,
                ) == ObjectFit::Fill && b.own.style.object_position.x == Num::ratio(1, 2)
                    && b.own.style.object_position.y == Num::ratio(1, 2) ==> dest_rect.edges(g)
                    == b.dim.content.edges(g))
            },
            BoxType::Text(_) => replaced(b, root).len() == 0,
            BoxType::Block => replaced(b, root).len() == 0,
            _ => true,
        },
{
    let u: int = 0x8_0000;
    let r = b.dim.content;
    grid::lemma_difference(r.width, r.width, g, u, u);
    grid::lemma_difference(r.height, r.height, g, u, u);
    grid::lemma_halved(r.width - r.width, g, 2 * u);
    grid::lemma_halved(r.height - r.height, g, 2 * u);
    let (a, c) = ((r.width - r.width) * Num::ratio(1, 2), (r.height - r.height) * Num::ratio(1, 2));
    grid::lemma_sum(r.x, a, g, u, 2 * u);
    grid::lemma_sum(r.y, c, g, u, 2 * u);
    grid::lemma_sum(r.x, r.width, g, u, u);
    grid::lemma_sum(r.y, r.height, g, u, u);
    grid::lemma_sum(r.x + a, r.width, g, 3 * u, u);
    grid::lemma_sum(r.y + c, r.height, g, 3 * u, u);
}

/// A select shows its selected option, and nothing where none is selected.
pub proof fn lemma_select_shows_its_option(
    b: BoxV,
    root: Num,
    options: Vec<String>,
    selected_index: Option<usize>,
    size: u32,
)
    requires
        b.own.box_type == BoxType::FormControl(
            FormControlType::Select { options, selected_index, size },
        ),
    ensures
        replaced(b, root).len() == 1,
        replaced(b, root)[0] matches CommandV::Field(f) && f.rect == b.dim.content && (
        selected_index matches Some(i) ==> (i < options@.len() ==> f.value == options@[i as int]@))
            && (selected_index is None ==> f.value.len() == 0),
{
}

/// A control with a line of text reaches above the baseline by what hangs below
/// it leaves of its height.
pub proof fn lemma_control_reaches_above_by_what_hangs_below(sh: Shaper, b: BoxV, g: nat)
    requires
        b.own.box_type is FormControl,
        b.own.style.vertical_align == VerticalAlign::Baseline,
        match b.own.box_type {
            BoxType::FormControl(FormControlType::Checkbox { .. }) => false,
            BoxType::FormControl(FormControlType::Radio { .. }) => false,
            BoxType::FormControl(FormControlType::TextArea { .. }) => false,
            _ => true,
        },
        b.dim.coords(g),
        hang(sh, b).on(g, 0x40_0000),
        0 <= hang(sh, b).ticks(g) <= b.dim.margin_box().height.ticks(g),
    ensures
        member_extents(sh, b) matches Some((above, below)) && above.ticks(g) + hang(sh, b).ticks(g)
            == b.dim.margin_box().height.ticks(g) && below.ticks(g) == hang(sh, b).ticks(g),
{
    reveal(member_extents);
    reveal(bottom_edge);
    reveal(baseline_y);
    let u: int = 0x8_0000;
    let h = b.dim.margin_box().height;
    lemma_boxes_lie_around(b.dim, g);
    grid::lemma_difference(h, hang(sh, b), g, 11 * u, 8 * u);
    grid::lemma_finite(h, g, 11 * u);
    grid::lemma_zero(g);
    grid::lemma_wider(Num::nought(), g, 0, 19 * u);
    grid::lemma_extremes(h - hang(sh, b), Num::nought(), g, 19 * u);
    let above = Num::larger(h - hang(sh, b), Num::nought());
    assert(above.on(g, 11 * u)) by {
        reveal(Num::on);
    }
    grid::lemma_difference(h, above, g, 11 * u, 11 * u);
    grid::lemma_wider(Num::nought(), g, 0, 22 * u);
    grid::lemma_extremes(h - above, Num::nought(), g, 22 * u);
}

/// An inline block reaches above the baseline of its line by what it has above
/// its own, in whole pixels, and below by the rest of its height.
pub proof fn lemma_inline_block_reaches_about_its_baseline(sh: Shaper, b: BoxV, y: Num)
    requires
        b.own.box_type is Block && b.own.style.display == Display::InlineBlock,
        b.own.style.vertical_align == VerticalAlign::Baseline,
        !bottom_edge(sh, b),
        baseline_y(sh, b) == Some(y),
        y.coord(149) && b.dim.coords(149),
    ensures
        ({
            let top = b.dim.content.y.ticks(149) - b.dim.margin.top.ticks(149)
                - b.dim.border.top.ticks(149) - b.dim.padding.top.ticks(149);
            let h = b.dim.margin_box().height.ticks(149);
            member_extents(sh, b) matches Some((above, below)) && above.ticks(149) == y.ticks(149)
                - top && (above.ticks(149) <= h ==> above.ticks(149) + below.ticks(149) == h)
        }),
{
    reveal(member_extents);
    let u: int = 0x8_0000;
    let d = b.dim;
    let h = d.margin_box().height;
    lemma_boxes_lie_around(d, 149);
    grid::lemma_difference(d.content.y, d.margin.top, 149, u, u);
    grid::lemma_difference(d.content.y - d.margin.top, d.border.top, 149, 2 * u, u);
    grid::lemma_difference(
        d.content.y - d.margin.top - d.border.top,
        d.padding.top,
        149,
        3 * u,
        u,
    );
    let top = crate::baseline::outer_top(d);
    grid::lemma_difference(y, top, 149, u, 4 * u);
    lemma_floor_with_slack(y - top, 5 * u);
    let above = Num::floored(y - top + Num::ratio(1, 100));
    grid::lemma_difference(h, above, 149, 11 * u, 5 * u);
    grid::lemma_finite(h, 149, 11 * u);
    grid::lemma_zero(149);
    grid::lemma_wider(Num::nought(), 149, 0, 16 * u);
    grid::lemma_extremes(h - above, Num::nought(), 149, 16 * u);
}

} // verus!

//! Rules that decide by kind: formatting contexts, open edges, line members,
//! and what a tree shares.
use vstd::prelude::*;
use crate::boxes::BoxV;
use crate::floats::Float;
use crate::flow::{flows_inline, line_level, Container, LineState};
use crate::geometry::Rect;
use crate::grid;
use crate::layout::first_in_flow;
use crate::leaf::spaced_metrics;
use crate::laws::flowing::lemma_whole_on;
use crate::laws::lines::line_member;
use crate::margin_collapse::{
    collapses_through, formatting_root, open_bottom, open_top,
};
use crate::num::Num;
use crate::sizing::{control_size, normal_height, single_line, widest, FormControlType};
use crate::style::{ComputedStyle, Display, Length, Overflow, StylePosition};
use crate::text::{self, capitalized, measured, white, Shaper};
use crate::tree::{stuck, with_viewport};

verus! {

/// A box keeps its content in a formatting context of its own where it floats,
/// leaves the flow, clips an axis, is an item or container of another kind, or
/// has columns; a plain block or inline box does not.
pub proof fn lemma_formatting_roots(style: ComputedStyle, float: Float)
    ensures
        float == Float::Left || float == Float::Right ==> formatting_root(style, float),
        style.position == StylePosition::Absolute || style.position == StylePosition::Fixed
            ==> formatting_root(style, float),
        style.overflow_x == Overflow::Hidden || style.overflow_x == Overflow::Scroll
            || style.overflow_x == Overflow::Auto || style.overflow_x == Overflow::Clip
            ==> formatting_root(style, float),
        style.overflow_y == Overflow::Hidden || style.overflow_y == Overflow::Scroll
            || style.overflow_y == Overflow::Auto || style.overflow_y == Overflow::Clip
            ==> formatting_root(style, float),
        match style.display {
            Display::InlineBlock => formatting_root(style, float),
            Display::Flex => formatting_root(style, float),
            Display::InlineFlex => formatting_root(style, float),
            Display::Grid => formatting_root(style, float),
            Display::InlineGrid => formatting_root(style, float),
            Display::TableCell => formatting_root(style, float),
            Display::TableCaption => formatting_root(style, float),
            Display::FlowRoot => formatting_root(style, float),
            _ => true,
        },
        style.column_count matches Some(n) && n >= 2 ==> formatting_root(style, float),
        float == Float::Unset && (style.position == StylePosition::Static || style.position
            == StylePosition::Relative || style.position == StylePosition::Sticky)
            && style.overflow_x == Overflow::Visible && style.overflow_y == Overflow::Visible && (
        style.display == Display::Block || style.display == Display::Inline) && (
        style.column_count matches Some(n) ==> n < 2) ==> !formatting_root(style, float),
{
}

/// A border or padding closes the edge it is on, and a formatting context
/// closes both; a given height or minimal height closes the bottom edge only.
pub proof fn lemma_edges_are_closed_by_what_is_on_them(
    style: ComputedStyle,
    float: Float,
    border: Num,
    padding: Num,
)
    ensures
        border > Num::nought() || padding > Num::nought() || formatting_root(style, float)
            ==> !open_top(style, float, border, padding) && !open_bottom(
            style,
            float,
            border,
            padding,
        ),
        border <= Num::nought() && padding <= Num::nought() && !formatting_root(style, float)
            ==> open_top(style, float, border, padding),
        border <= Num::nought() && padding <= Num::nought() && !formatting_root(style, float)
            && style.height is Auto && (style.min_height is Auto || style.min_height is Zero)
            ==> open_bottom(style, float, border, padding),
        !(style.height is Auto) ==> !open_bottom(style, float, border, padding),
        style.min_height matches Length::Px(v) ==> (v > Num::nought() ==> !open_bottom(
            style,
            float,
            border,
            padding,
        )),
        style.min_height is Percent || style.min_height is Vh || style.min_height is Em
            ==> !open_bottom(style, float, border, padding),
{
}

/// Margins collapse through a box only where nothing is between them, and then
/// both its edges let them through.
pub proof fn lemma_nothing_is_between_margins_that_meet(
    style: ComputedStyle,
    float: Float,
    content: bool,
    border_top: Num,
    border_bottom: Num,
    padding_top: Num,
    padding_bottom: Num,
    clearance: bool,
)
    ensures
        ({
            let through = collapses_through(
                style,
                float,
                content,
                border_top,
                border_bottom,
                padding_top,
                padding_bottom,
                clearance,
            );
            &&& content || clearance || formatting_root(style, float) ==> !through
            &&& border_top > Num::nought() || border_bottom > Num::nought() || padding_top
                > Num::nought() || padding_bottom > Num::nought() ==> !through
            &&& style.height matches Length::Px(v) ==> (v > Num::nought() ==> !through)
            &&& style.min_height matches Length::Px(v) ==> (v > Num::nought() ==> !through)
            &&& through ==> open_top(style, float, border_top, padding_top)
            &&& through && style.height is Auto ==> open_bottom(
                style,
                float,
                border_bottom,
                padding_bottom,
            )
            &&& !content && !clearance && style.height is Auto && open_top(
                style,
                float,
                border_top,
                padding_top,
            ) && open_bottom(style, float, border_bottom, padding_bottom) ==> through
        }),
{
    crate::margin_collapse::lemma_zero_is_number();
}

/// What is a member of a line opens a line, and so does a break; a plain block
/// does not.
pub proof fn lemma_line_members_open_lines(b: BoxV)
    ensures
        line_member(b) ==> line_level(b),
        b.own.box_type is LineBreak ==> line_level(b),
        (b.own.box_type is Block || b.own.box_type is AnonymousBlock) && !line_member(b)
            ==> !line_level(b),
{
}

/// A text stays on the open line where lines do not wrap or where it fits what
/// is left of it; an inline block always does, and an image, a control or an
/// inline box where it is displayed inline.
pub proof fn lemma_text_flows_where_it_fits(
    sh: Shaper,
    c: Container,
    line: LineState,
    b: BoxV,
    g: nat,
)
    requires
        line.cursor_x.coord(g) && c.dim.content.width.coord(g),
        spaced_metrics(sh, b.own.style, b.text()).width.coord(g),
    ensures
        b.own.box_type is Text && b.own.style.display == Display::Inline ==> (flows_inline(
            sh,
            c,
            line,
            b,
        ) <==> !c.wraps || line.cursor_x.ticks(g) + spaced_metrics(
            sh,
            b.own.style,
            b.text(),
        ).width.ticks(g) <= c.dim.content.width.ticks(g)),
        b.own.style.display == Display::InlineBlock || b.own.style.display == Display::InlineFlex
            || b.own.style.display == Display::InlineGrid ==> flows_inline(sh, c, line, b),
        b.own.style.display == Display::Inline && (b.own.box_type is Image || b.own.box_type
            is FormControl || b.own.box_type is Inline) ==> flows_inline(sh, c, line, b),
        b.own.style.display == Display::Block && !(b.own.box_type is Text) ==> !flows_inline(
            sh,
            c,
            line,
            b,
        ),
{
    reveal(flows_inline);
    let u: int = 0x8_0000;
    let w = spaced_metrics(sh, b.own.style, b.text()).width;
    grid::lemma_difference(c.dim.content.width, line.cursor_x, g, u, u);
    grid::lemma_order(w, c.dim.content.width - line.cursor_x, g, u, 2 * u);
}

/// The first child in flow: it is neither out of flow nor a float, and every
/// child before it is.
pub proof fn lemma_first_in_flow_is_first(s: Seq<BoxV>, i: int)
    requires
        0 <= i,
    ensures
        match first_in_flow(s, i) {
            Some(k) => i <= k < s.len() && !s[k].own.position.is_out_of_flow() && s[k].own.float
                == Float::Unset && forall|j: int|
                i <= j < k ==> (#[trigger] s[j]).own.position.is_out_of_flow() || s[j].own.float
                    != Float::Unset,
            None => forall|j: int|
                i <= j < s.len() ==> (#[trigger] s[j]).own.position.is_out_of_flow()
                    || s[j].own.float != Float::Unset,
        },
    decreases s.len() - i,
{
    if i < s.len() {
        lemma_first_in_flow_is_first(s, i + 1);
    }
}

/// Whether every box of a tree knows a viewport, and is else another tree.
pub open spec fn shares_viewport(a: BoxV, b: BoxV, width: Num, height: Num) -> bool
    decreases a,
{
    &&& b.viewport.0 == width && b.viewport.1 == height
    &&& b.own == a.own && b.dim == a.dim && b.sticky == a.sticky && b.lines == a.lines && b.flow
        == a.flow
    &&& b.children.len() == a.children.len()
    &&& forall|i: int|
        0 <= i < a.children.len() ==> shares_viewport(
            #[trigger] a.children[i],
            b.children[i],
            width,
            height,
        )
}

/// Every box of a tree is given the viewport, and nothing else changes.
pub proof fn lemma_tree_shares_viewport(b: BoxV, width: Num, height: Num)
    ensures
        shares_viewport(b, with_viewport(b, width, height), width, height),
    decreases b,
{
    reveal(with_viewport);
    let c = with_viewport(b, width, height);
    assert forall|i: int| 0 <= i < b.children.len() implies shares_viewport(
        #[trigger] b.children[i],
        c.children[i],
        width,
        height,
    ) by {
        lemma_tree_shares_viewport(b.children[i], width, height);
    }
}

/// Sticky boxes inside a box that scrolls are held in its content box, those
/// inside any other in what holds the box itself.
pub proof fn lemma_sticky_children_are_held_by_scroller(
    b: BoxV,
    scroll_y: Num,
    container: Rect,
    i: int,
)
    requires
        0 <= i < b.children.len(),
    ensures
        b.own.style.overflow_y == Overflow::Scroll || b.own.style.overflow_y == Overflow::Auto
            || b.own.style.overflow_y == Overflow::Hidden ==> stuck(
            b,
            scroll_y,
            container,
        ).children[i] == stuck(
            b.children[i],
            scroll_y,
            stuck(b, scroll_y, container).dim.content,
        ),
        b.own.style.overflow_x == Overflow::Visible && b.own.style.overflow_y == Overflow::Visible
            ==> stuck(b, scroll_y, container).children[i] == stuck(
            b.children[i],
            scroll_y,
            container,
        ),
{
    reveal(stuck);
}

/// `text-transform: capitalize` works word by word: what stands on the two
/// sides of a white space is capitalised each on its own.
pub proof fn lemma_words_are_capitalised_each(a: Seq<char>, space: char, b: Seq<char>)
    requires
        white(space),
    ensures
        capitalized(a.push(space) + b) == capitalized(a).push(space) + capitalized(b),
    decreases b.len(),
{
    let s = a.push(space) + b;
    if b.len() == 0 {
        assert(s =~= a.push(space));
        assert(s.drop_last() =~= a);
        assert(capitalized(s) =~= capitalized(a).push(space) + capitalized(b));
    } else {
        let rest = b.drop_last();
        lemma_words_are_capitalised_each(a, space, rest);
        assert(s.drop_last() =~= a.push(space) + rest);
        assert(s.last() == b.last());
        if b.len() == 1 {
            assert(s[s.len() - 2] == space);
        } else {
            assert(s[s.len() - 2] == b[b.len() - 2]);
        }
        assert(capitalized(s) =~= capitalized(a).push(space) + capitalized(b));
    }
}

/// Within a word only the first letter changes.
pub proof fn lemma_word_is_capitalised_at_its_start(s: Seq<char>)
    requires
        s.len() > 0,
        forall|i: int| 0 <= i < s.len() ==> !white(#[trigger] s[i]),
    ensures
        capitalized(s) == crate::casing::uppercased(seq![s[0]]) + s.skip(1),
    decreases s.len(),
{
    let before = s.drop_last();
    if s.len() == 1 {
        assert(capitalized(before) =~= Seq::empty());
        assert(capitalized(s) =~= crate::casing::uppercased(seq![s[0]]) + s.skip(1));
    } else {
        assert forall|i: int| 0 <= i < before.len() implies !white(#[trigger] before[i]) by {
            assert(before[i] == s[i]);
        }
        lemma_word_is_capitalised_at_its_start(before);
        assert(!white(s[s.len() - 2]));
        assert(before.skip(1).push(s.last()) =~= s.skip(1));
        assert(capitalized(s) =~= crate::casing::uppercased(seq![s[0]]) + s.skip(1));
    }
}

/// A select is as wide as its widest option needs: no option is wider than the
/// widest, which is one of them.
pub proof fn lemma_widest_option(sh: Shaper, style: ComputedStyle, labels: Seq<String>, g: nat, i: int) -> (k: int)
    requires
        g <= 253,
        forall|k: int|
            0 <= k < labels.len() ==> label_width(sh, style, (#[trigger] labels[k])@).coord(g),
    ensures
        widest(sh, style, labels).coord(g),
        -1 <= k < labels.len(),
        k == -1 ==> widest(sh, style, labels).ticks(g) == 0,
        k >= 0 ==> widest(sh, style, labels).ticks(g) == label_width(sh, style, labels[k]@).ticks(g),
        0 <= i < labels.len() ==> label_width(sh, style, labels[i]@).ticks(g) <= widest(
            sh,
            style,
            labels,
        ).ticks(g),
    decreases labels.len(),
{
    let n: int = 0x8_0000;
    grid::lemma_zero(g);
    grid::lemma_wider(Num::nought(), g, 0, n);
    if labels.len() == 0 {
        -1
    } else {
        let rest = labels.drop_last();
        assert forall|k: int| 0 <= k < rest.len() implies label_width(
            sh,
            style,
            (#[trigger] rest[k])@,
        ).coord(g) by {
            assert(rest[k] == labels[k]);
        }
        let k = lemma_widest_option(sh, style, rest, g, i);
        let last = label_width(sh, style, labels[labels.len() - 1]@);
        assert(last.coord(g));
        grid::lemma_extremes(widest(sh, style, rest), last, g, n);
        if widest(sh, style, rest).ticks(g) < last.ticks(g) {
            labels.len() - 1
        } else {
            k
        }
    }
}

/// The width of a label in the font of a style.
pub open spec fn label_width(sh: Shaper, style: ComputedStyle, label: Seq<char>) -> Num {
    measured(
        sh,
        label,
        style.face(crate::style::FontStretch::Normal, style.font_px()),
        Num::nought(),
        Num::nought(),
    ).width
}

/// Controls of one font are in proportion: checkboxes and radio buttons are
/// squares of one size, controls of a single line are as high as each other,
/// and a text area has at least two rows and twenty columns.
pub proof fn lemma_controls_match_each_other(
    sh: Shaper,
    style: ComputedStyle,
    check: FormControlType,
    dot: FormControlType,
    input: FormControlType,
    button: FormControlType,
    select: FormControlType,
    area: FormControlType,
    small: FormControlType,
)
    requires
        check is Checkbox && dot is Radio && button is Button,
        input matches FormControlType::TextInput { input_type, .. } && input_type@ != "range"@
            && input_type@ != "color"@,
        select matches FormControlType::Select { size, .. } && size <= 1,
        area matches FormControlType::TextArea { rows, cols, .. } && rows == 2 && cols == 20,
        small matches FormControlType::TextArea { rows, cols, .. } && rows <= 2 && cols <= 20,
    ensures
        control_size(sh, style, check).0 == control_size(sh, style, check).1,
        control_size(sh, style, check) == control_size(sh, style, dot),
        control_size(sh, style, input).1 == control_size(sh, style, button).1,
        control_size(sh, style, input).1 == control_size(sh, style, select).1,
        control_size(sh, style, small) == control_size(sh, style, area),
{
}

/// Controls of one font scale with it together: a text field, a slider, a color
/// well and a list of rows keep their proportions to a checkbox, and each row of
/// a list or a text area adds one row.
pub proof fn lemma_controls_are_in_proportion(
    sh: Shaper,
    style: ComputedStyle,
    check: FormControlType,
    input: FormControlType,
    area: FormControlType,
    list: FormControlType,
    g: nat,
)
    requires
        (style.font_px() / Num::ratio(40, 3)).on(g, 0x100),
        check is Checkbox,
        input is TextInput,
        area matches FormControlType::TextArea { rows, .. } && rows < 0x400,
        list matches FormControlType::Select { size, .. } && 1 < size < 0x400,
    ensures
        ({
            let side = control_size(sh, style, check).0.ticks(g);
            let (w, h) = control_size(sh, style, input);
            &&& match input {
                FormControlType::TextInput { input_type, .. } => {
                    &&& input_type@ == "range"@ ==> 13 * w.ticks(g) == 129 * side && 13 * h.ticks(g)
                        == 16 * side
                    &&& input_type@ == "color"@ && input_type@ != "range"@ ==> 13 * w.ticks(g) == 50
                        * side && 13 * h.ticks(g) == 27 * side
                    &&& input_type@ != "range"@ && input_type@ != "color"@ ==> 13 * w.ticks(g)
                        == 149 * side
                },
                _ => false,
            }
            &&& match area {
                FormControlType::TextArea { rows, .. } => {
                    let r = if rows < 2 {
                        2
                    } else {
                        rows as int
                    };
                    13 * control_size(sh, style, area).1.ticks(g) == (15 * r + 2) * side
                },
                _ => false,
            }
            &&& match list {
                FormControlType::Select { size, .. } => 13 * control_size(sh, style, list).1.ticks(g)
                    == (16 * size + 2) * side,
                _ => false,
            }
        }),
{
    let scale = style.font_px() / Num::ratio(40, 3);
    let t = scale.ticks(g);
    let n: int = 0x100;
    grid::lemma_times(13, scale, g, n);
    grid::lemma_times(129, scale, g, n);
    grid::lemma_times(16, scale, g, n);
    grid::lemma_times(50, scale, g, n);
    grid::lemma_times(27, scale, g, n);
    grid::lemma_times(149, scale, g, n);
    if let FormControlType::TextArea { rows, .. } = area {
        let r: nat = if rows < 2 {
            2
        } else {
            rows as nat
        };
        lemma_rows(15, r, scale, g);
        assert(13 * ((15 * r + 2) * t) == (15 * r + 2) * (13 * t)) by (nonlinear_arith);
    }
    if let FormControlType::Select { size, .. } = list {
        lemma_rows(16, size as nat, scale, g);
        assert(13 * ((16 * size + 2) * t) == (16 * size + 2) * (13 * t)) by (nonlinear_arith);
    }
}

proof fn lemma_rows(a: nat, r: nat, scale: Num, g: nat)
    requires
        a <= 16 && r < 0x400,
        scale.on(g, 0x100),
    ensures
        ((Num::whole(a as int) * Num::whole(r as int) + Num::whole(2)) * scale).ticks(g) == (a * r
            + 2) * scale.ticks(g),
{
    lemma_whole_on(r);
    lemma_whole_on(2);
    let k = a * r;
    assert(0 <= k <= 0x4000) by (nonlinear_arith)
        requires
            k == a * r,
            0 <= a <= 16,
            0 <= r < 0x400,
    ;
    grid::lemma_times(a, Num::whole(r as int), 149, r as int);
    grid::lemma_sum(Num::whole(a as int) * Num::whole(r as int), Num::whole(2), 149, k as int, 2);
    let x = Num::whole(a as int) * Num::whole(r as int) + Num::whole(2);
    let m = k as int + 2;
    assert(0 <= m * 0x100 < 0x100_0000);
    grid::lemma_finite(scale, g, 0x100);
    grid::lemma_product(x, scale, 149, m, g, 0x100, g);
}

/// A single-line control with edges of its own is as high as its line and its
/// four vertical edges together.
pub proof fn lemma_single_line_control_is_as_high_as_its_line(
    sh: Shaper,
    style: ComputedStyle,
    bare: Num,
    pt: Num,
    pb: Num,
    bt: Num,
    bb: Num,
    g: nat,
)
    requires
        style.padding_top == Length::Px(pt) && style.padding_bottom == Length::Px(pb),
        style.border_top_width == Length::Px(bt) && style.border_bottom_width == Length::Px(bb),
        pt.coord(g) && pb.coord(g) && bt.coord(g) && bb.coord(g),
        normal_height(sh, style, style.font_px()).coord(g),
    ensures
        ({
            let edges = pt.ticks(g) + pb.ticks(g) + bt.ticks(g) + bb.ticks(g);
            &&& edges > 0 ==> single_line(sh, style, bare).ticks(g) == normal_height(
                sh,
                style,
                style.font_px(),
            ).ticks(g) + edges
            &&& edges <= 0 ==> single_line(sh, style, bare) == bare
        }),
{
    let u: int = 0x8_0000;
    grid::lemma_sum(pt, pb, g, u, u);
    grid::lemma_sum(pt + pb, bt, g, 2 * u, u);
    grid::lemma_sum(pt + pb + bt, bb, g, 3 * u, u);
    let edges = pt + pb + bt + bb;
    grid::lemma_finite(pt, g, u);
    grid::lemma_zero(g);
    grid::lemma_order(edges, Num::nought(), g, 4 * u, 0);
    grid::lemma_sum(normal_height(sh, style, style.font_px()), edges, g, u, 4 * u);
}

/// Letter and word spacing of a style: pixels as given, `em` times its font
/// size.
pub proof fn lemma_spacing_is_that_of_the_style(size: Num, k: nat, g: nat, n: int)
    requires
        size.on(g, n),
        0 <= n && k < 0x100_0000 && k * n < 0x100_0000,
    ensures
        ComputedStyle::spacing(Length::Em(Num::whole(k as int)), size).ticks(g) == k * size.ticks(g),
        forall|v: Num| #[trigger] ComputedStyle::spacing(Length::Px(v), size) == v,
        ComputedStyle::spacing(Length::Auto, size) == Num::nought(),
{
    grid::lemma_times(k, size, g, n);
}

} // verus!

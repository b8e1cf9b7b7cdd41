//! Lines: alignment across the container and on the baseline.
use vstd::prelude::*;
use vstd::arithmetic::power2::*;
use crate::align::{
    self, aligned, line_ascent, line_baseline, line_top, member_above, member_target, member_top,
    on_baseline, on_line, seated_member, split_closed,
};
use crate::baseline;
use crate::boxes::{BoxType, BoxV};
use crate::exact;
use crate::grid;
use crate::laws::boxes::lemma_boxes_lie_around;
use crate::laws::flowing::lemma_whole_on;
use crate::laws::moving::{lemma_subtree_moves_whole, lemma_unmoved, moved_whole, tree_coords};
use crate::num::Num;
use crate::rounding;
use crate::sizing::{self, FormControlType};
use crate::style::{ComputedStyle, Display, TextAlign, VerticalAlign, WhiteSpace};
use crate::text::{self, Shaper};

verus! {

/// Whether a box is a member of a line by its type: text, an inline box, an
/// image, a form control, or a box that is one item on its line by its display.
pub open spec fn line_member(b: BoxV) -> bool {
    ||| match b.own.box_type {
        BoxType::Text(_) => true,
        BoxType::Inline => true,
        BoxType::Image { .. } => true,
        BoxType::FormControl(_) => true,
        BoxType::Block => false,
        BoxType::AnonymousBlock => false,
        BoxType::LineBreak => false,
    }
    ||| match b.own.style.display {
        Display::InlineBlock => true,
        Display::InlineFlex => true,
        Display::InlineGrid => true,
        _ => false,
    }
}

/// The room that a line of a width leaves in a container, in steps; none where
/// it is too wide.
pub open spec fn room(container: Num, width: Num, g: nat) -> int {
    let free = container.ticks(g) - width.ticks(g);
    if free > 0 {
        free
    } else {
        0
    }
}

/// How far alignment moves what leaves some room: all of it to the right, half
/// of it to the middle, else nowhere.
pub open spec fn aligned_by(align: TextAlign, dx: int, room: int) -> bool {
    match align {
        TextAlign::Right => dx == room,
        TextAlign::Center => 2 * dx == room,
        TextAlign::Left => dx == 0,
        TextAlign::Justify => dx == 0,
    }
}

/// How far alignment moves a line, on a grid.
pub proof fn lemma_align_offset(align: TextAlign, container: Num, width: Num, g: nat)
    requires
        container.coord(g),
        width.on(g, 0x18_0000),
        align == TextAlign::Center ==> (container.ticks(g) - width.ticks(g)) % 2 == 0,
    ensures
        align::align_offset(align, container, width).on(g, 0x20_0000),
        aligned_by(
            align,
            align::align_offset(align, container, width).ticks(g),
            room(container, width, g),
        ),
        align::align_offset(align, container, width) > Num::nought() <==> align::align_offset(
            align,
            container,
            width,
        ).ticks(g) > 0,
{
    let u: int = 0x8_0000;
    let zero = Num::nought();
    grid::lemma_finite(container, g, u);
    grid::lemma_zero(g);
    grid::lemma_wider(zero, g, 0, 4 * u);
    grid::lemma_difference(container, width, g, u, 3 * u);
    let free = container - width;
    grid::lemma_extremes(free, zero, g, 4 * u);
    if align == TextAlign::Center {
        grid::lemma_part(2, free, g, 4 * u);
        grid::lemma_extremes(free / Num::whole(2), zero, g, 4 * u);
    }
    grid::lemma_order(align::align_offset(align, container, width), zero, g, 4 * u, 4 * u);
}

/// Every member of an aligned line that has no wrapped lines of its own moves
/// by one distance, with its subtree: to the right edge, to the middle, or not
/// at all. What is no member of a line stays.
pub proof fn lemma_members_move_to_alignment(
    sh: Shaper,
    s: Seq<BoxV>,
    start: int,
    end: int,
    width: Num,
    container: Num,
    align: TextAlign,
    g: nat,
    i: int,
) -> (dx: int)
    requires
        0 <= start <= i < end <= s.len(),
        s[i].lines is None,
        tree_coords(s[i], g),
        container.coord(g) && width.coord(g),
        align == TextAlign::Center ==> (container.ticks(g) - width.ticks(g)) % 2 == 0,
    ensures
        aligned_by(align, dx, room(container, width, g)),
        line_member(s[i]) ==> moved_whole(
            s[i],
            aligned(sh, s, start, end, width, container, align)[i],
            dx,
            0,
            g,
        ),
        !line_member(s[i]) ==> aligned(sh, s, start, end, width, container, align)[i] == s[i],
{
    reveal(align::aligned_member);
    let u: int = 0x8_0000;
    let offset = align::align_offset(align, container, width);
    grid::lemma_wider(width, g, u, 3 * u);
    lemma_align_offset(align, container, width, g);
    grid::lemma_finite(container, g, u);
    grid::lemma_zero(g);
    grid::lemma_wider(Num::nought(), g, 0, 4 * u);
    lemma_subtree_moves_whole(s[i], offset, Num::nought(), g, 4 * u);
    lemma_unmoved(s[i], g);
    offset.ticks(g)
}

/// Wrapped text that owns its lines aligns each of them on its own: it ends at
/// the right edge, or is as far from it as from the left one; a line that is
/// too wide starts at the left. The box itself stays.
pub proof fn lemma_wrapped_lines_align_each(
    sh: Shaper,
    s: Seq<BoxV>,
    start: int,
    end: int,
    width: Num,
    container: Num,
    align: TextAlign,
    g: nat,
    i: int,
    k: int,
)
    requires
        0 <= start <= i < end <= s.len(),
        s[i].lines matches Some(lines) && 0 <= k < lines.len() && lines[k].width.coord(g),
        s[i].flow is None,
        align == TextAlign::Right || align == TextAlign::Center,
        container.coord(g),
        align == TextAlign::Center ==> (container.ticks(g) - s[i].lines->0[k].width.ticks(g)) % 2
            == 0,
    ensures
        ({
            let c = aligned(sh, s, start, end, width, container, align)[i];
            let line = c.lines->0[k];
            let w = line.width.ticks(g);
            &&& c.lines is Some && c.lines->0.len() == s[i].lines->0.len()
            &&& line.width == s[i].lines->0[k].width && line.text == s[i].lines->0[k].text
            &&& line.justify_space == s[i].lines->0[k].justify_space
            &&& w <= container.ticks(g) && align == TextAlign::Right ==> line.x_offset.ticks(g) + w
                == container.ticks(g)
            &&& w <= container.ticks(g) && align == TextAlign::Center ==> 2 * line.x_offset.ticks(
                g,
            ) + w == container.ticks(g)
            &&& w > container.ticks(g) ==> line.x_offset.ticks(g) == 0
            &&& c.dim == s[i].dim && c.children == s[i].children
        }),
{
    reveal(align::aligned_member);
    let w = s[i].lines->0[k].width;
    grid::lemma_wider(w, g, 0x8_0000, 0x18_0000);
    lemma_align_offset(align, container, w, g);
}

/// A run that entered its line half-way moves with its last line only.
pub proof fn lemma_entered_run_moves_its_last_line(
    sh: Shaper,
    s: Seq<BoxV>,
    start: int,
    end: int,
    width: Num,
    container: Num,
    align: TextAlign,
    g: nat,
    i: int,
) -> (dx: int)
    requires
        0 <= start <= i < end <= s.len(),
        s[i].lines matches Some(lines) && lines.len() > 0 && lines.last().x_offset.coord(g),
        s[i].flow is Some,
        align == TextAlign::Right || align == TextAlign::Center,
        container.coord(g) && width.coord(g),
        align == TextAlign::Center ==> (container.ticks(g) - width.ticks(g)) % 2 == 0,
    ensures
        aligned_by(align, dx, room(container, width, g)),
        ({
            let c = aligned(sh, s, start, end, width, container, align)[i];
            let was = s[i].lines->0;
            let n = was.len();
            &&& c.lines is Some && c.lines->0.len() == n && c.dim == s[i].dim
            &&& c.lines->0.last().x_offset.ticks(g) == was.last().x_offset.ticks(g) + dx
            &&& forall|k: int| 0 <= k < n - 1 ==> #[trigger] c.lines->0[k] == was[k]
        }),
{
    reveal(align::aligned_member);
    let u: int = 0x8_0000;
    grid::lemma_wider(width, g, u, 3 * u);
    lemma_align_offset(align, container, width, g);
    let offset = align::align_offset(align, container, width);
    grid::lemma_sum(s[i].lines->0.last().x_offset, offset, g, u, 4 * u);
    offset.ticks(g)
}

/// A justified line fills its container: what its ink leaves is shared equally
/// by its word separators.
pub proof fn lemma_justified_line_fills_container(
    sh: Shaper,
    s: Seq<BoxV>,
    start: int,
    end: int,
    width: Num,
    container: Num,
    g: nat,
    i: int,
    k: int,
    ink: Num,
)
    requires
        0 <= start <= i < end <= s.len(),
        s[i].lines matches Some(lines) && 0 <= k < lines.len() - 1,
        s[i].flow is Some && s[i].flow->0 > Num::nought() ==> k > 0,
        s[i].own.style.white_space == WhiteSpace::Normal,
        text::ink_width(sh, s[i].lines->0[k].text, s[i].own.style, s[i].own.style.font_px())
            == Some(ink),
        container.coord(g) && ink.coord(g) && s[i].lines->0[k].x_offset.coord(g),
        ({
            let n = text::separators(text::trimmed_end(s[i].lines->0[k].text));
            let left = container.ticks(g) - s[i].lines->0[k].x_offset.ticks(g) - ink.ticks(g);
            0 < n < 0x100_0000 && left > 0 && left % n as int == 0
        }),
    ensures
        ({
            let c = aligned(sh, s, start, end, width, container, TextAlign::Justify)[i];
            let line = c.lines->0[k];
            let n = text::separators(text::trimmed_end(line.text));
            &&& line.x_offset.ticks(g) + ink.ticks(g) + n * line.justify_space.ticks(g)
                == container.ticks(g)
            &&& line.text == s[i].lines->0[k].text && line.x_offset == s[i].lines->0[k].x_offset
        }),
{
    reveal(align::aligned_member);
    let u: int = 0x8_0000;
    let line = s[i].lines->0[k];
    let n = text::separators(text::trimmed_end(line.text));
    grid::lemma_difference(container, line.x_offset, g, u, u);
    grid::lemma_difference(container - line.x_offset, ink, g, 2 * u, u);
    let left = container - line.x_offset - ink;
    grid::lemma_finite(ink, g, u);
    grid::lemma_zero(g);
    grid::lemma_order(left, Num::nought(), g, 3 * u, 0);
    grid::lemma_part(n, left, g, 3 * u);
}

/// A run that was split over lines takes its first line, with the siblings on
/// it, to the alignment of that line; the lines between its first and its last
/// align each on its own; the last stays for what follows.
pub proof fn lemma_split_run_aligns_closed_lines(
    s: Seq<BoxV>,
    start: int,
    at: int,
    container: Num,
    align: TextAlign,
    g: nat,
    i: int,
    k: int,
) -> (dx: int)
    requires
        0 <= start <= i < at < s.len(),
        s[at].lines matches Some(lines) && lines.len() >= 2 && lines[0].x_offset.coord(g)
            && lines[0].width.coord(g) && 0 <= k < lines.len() && lines[k].width.coord(g),
        align == TextAlign::Right || align == TextAlign::Center,
        container.coord(g),
        tree_coords(s[i], g),
        s[i].flow is None || s[i].lines is None,
        ({
            let first = s[at].lines->0[0];
            align == TextAlign::Center ==> (container.ticks(g) - first.x_offset.ticks(g)
                - first.width.ticks(g)) % 2 == 0 && (container.ticks(g)
                - s[at].lines->0[k].width.ticks(g)) % 2 == 0
        }),
    ensures
        ({
            let t = split_closed(s, start, at, container, align);
            let was = s[at].lines->0;
            let now = t[at].lines->0;
            let first = container.ticks(g) - was[0].x_offset.ticks(g) - was[0].width.ticks(g);
            &&& aligned_by(
                align,
                dx,
                if first > 0 {
                    first
                } else {
                    0
                },
            )
            &&& now.len() == was.len()
            &&& now[0].x_offset.ticks(g) == was[0].x_offset.ticks(g) + dx
            &&& moved_whole(s[i], t[i], dx, 0, g)
            &&& 0 < k < was.len() - 1 ==> aligned_by(
                align,
                now[k].x_offset.ticks(g),
                room(container, was[k].width, g),
            )
            &&& now.last() == was.last()
            &&& t[at].dim == s[at].dim
        }),
{
    reveal(align::split_sibling);
    reveal(align::split_run);
    let u: int = 0x8_0000;
    let lines = s[at].lines->0;
    let first = lines[0];
    grid::lemma_sum(first.x_offset, first.width, g, u, u);
    let reach = first.x_offset + first.width;
    grid::lemma_wider(reach, g, 2 * u, 3 * u);
    lemma_align_offset(align, container, reach, g);
    let dx = align::split_offset(s[at], container, align);
    grid::lemma_sum(first.x_offset, dx, g, u, 4 * u);
    grid::lemma_wider(lines[k].width, g, u, 3 * u);
    if 0 < k < lines.len() - 1 {
        lemma_align_offset(align, container, lines[k].width, g);
    }
    grid::lemma_finite(container, g, u);
    grid::lemma_zero(g);
    grid::lemma_wider(Num::nought(), g, 0, 4 * u);
    lemma_subtree_moves_whole(s[i], dx, Num::nought(), g, 4 * u);
    lemma_unmoved(s[i], g);
    dx.ticks(g)
}

/// What a hundredth is rounded from.
proof fn lemma_hundredth_rounds()
    ensures
        !Num::ratio(1, 100).neg(),
        Num::ratio(1, 100).mag() == rounding::nearest(pow2(149) * pow2(149), 100 * pow2(149)),
{
    let p = pow2(149);
    lemma_pow2_pos(149);
    exact::lemma_whole(1);
    exact::lemma_whole(100);
    exact::lemma_hundredth();
    let a = Num::whole(1);
    let b = Num::whole(100);
    exact::lemma_positive_whole(1);
    exact::lemma_positive_whole(100);
    assert(1 * p == p);
    reveal(Num::whole);
    reveal(Num::nan);
    reveal(Num::quotient);
    crate::num::lemma_decode(a.mag());
    crate::num::lemma_decode(b.mag());
    exact::lemma_rounding_keeps_order(p * p, 100 * p, p * p, 100 * p);
}

/// A hundredth is no more than three quarters of a step of a grid of
/// sixty-fourths or coarser.
pub proof fn lemma_hundredth_is_part_of_a_step(g: nat, part: Num)
    requires
        143 <= g,
        part.finite(),
        part.units() == 3 * pow2((g - 2) as nat),
    ensures
        Num::ratio(1, 100) <= part,
        Num::ratio(1, 100) >= Num::nought(),
        Num::ratio(1, 100).finite(),
{
    let p = pow2(149);
    let q = pow2(141);
    lemma_pow2_pos(149);
    lemma_pow2_pos(141);
    lemma_pow2_adds(141, 8);
    assert(pow2(8) == 256) by {
        lemma2_to64();
    }
    assert(p == 256 * q) by {
        assert(q * 256 == 256 * q) by (nonlinear_arith);
    }
    lemma_hundredth_rounds();
    exact::lemma_hundredth();
    let h = Num::ratio(1, 100);
    let top = 3 * q;
    assert((p * p) * 1 <= top * (100 * p)) by (nonlinear_arith)
        requires
            p == 256 * q,
            top == 3 * q,
            q > 0,
    ;
    exact::lemma_rounding_keeps_order(p * p, 100 * p, top, 1);
    exact::lemma_representable(3, 141);
    let m = rounding::nearest(top, 1);
    if h.mag() < m {
        crate::num::lemma_units_increase(h.mag(), m);
    }
    rounding::lemma_pow2_le(141, (g - 2) as nat);
    crate::num::lemma_rank_is_value(h, part);
    crate::num::lemma_rank_is_value(part, h);
    crate::margin_collapse::lemma_zero_is_number();
    assert(h.rank() >= 0) by {
        reveal(Num::rank);
    }
    reveal(Num::nan);
}

/// A hundredth is less than a step of a grid of sixty-fourths or coarser.
proof fn lemma_step_shows(d: Num, g: nat, n: int)
    requires
        d.on(g, n),
        143 <= g,
        d.ticks(g) != 0,
    ensures
        Num::magnitude(d) > Num::ratio(1, 100),
{
    reveal(Num::on);
    let p = pow2(149);
    let q = pow2(141);
    lemma_pow2_pos(149);
    lemma_pow2_pos(141);
    rounding::lemma_pow2_24();
    lemma_pow2_adds(141, 8);
    assert(pow2(8) == 256) by {
        lemma2_to64();
    }
    assert(p == 256 * q) by {
        assert(q * 256 == 256 * q) by (nonlinear_arith);
    }
    lemma_hundredth_rounds();
    exact::lemma_hundredth();
    let h = Num::ratio(1, 100);
    let top = 3 * q;
    assert((p * p) * 1 <= top * (100 * p)) by (nonlinear_arith)
        requires
            p == 256 * q,
            top == 3 * q,
            q > 0,
    ;
    exact::lemma_rounding_keeps_order(p * p, 100 * p, top, 1);
    exact::lemma_representable(3, 141);
    let m = rounding::nearest(top, 1);
    if h.mag() < m {
        crate::num::lemma_units_increase(h.mag(), m);
    }
    assert(rounding::units(h.mag()) <= top);
    let t = d.ticks(g);
    rounding::lemma_pow2_le(143, g);
    lemma_pow2_adds(141, 2);
    assert(pow2(2) == 4) by {
        lemma2_to64();
    }
    assert(rounding::units(d.mag()) >= pow2(g)) by {
        let u = rounding::units(d.mag());
        assert(u >= pow2(g)) by (nonlinear_arith)
            requires
                d.units() == t * pow2(g),
                t != 0,
                d.units() == u || d.units() == -(u as int),
                u >= 0,
                pow2(g) > 0,
        ;
    }
    assert(q * 4 == 4 * q) by (nonlinear_arith);
    let k = Num::magnitude(d);
    assert(k.mag() == d.mag() && !k.neg()) by {
        reveal(Num::magnitude);
    }
    assert(k.finite()) by {
        reveal(Num::nan);
    }
    crate::num::lemma_rank_is_value(h, k);
}

/// The top of the margin box on a grid, from the content box outwards.
pub open spec fn top_ticks(b: BoxV, g: nat) -> int {
    b.dim.content.y.ticks(g) - b.dim.margin.top.ticks(g) - b.dim.border.top.ticks(g)
        - b.dim.padding.top.ticks(g)
}

/// Whether a member of a line is text in one line, in flow.
pub open spec fn line_text(b: BoxV) -> bool {
    &&& b.own.box_type is Text
    &&& b.flow is None || b.lines is None
    &&& !b.own.position.is_out_of_flow()
    &&& b.own.style.display != Display::Gone
}

/// Whether a member of a line is an image in flow.
pub open spec fn line_image(b: BoxV) -> bool {
    &&& b.own.box_type is Image
    &&& b.flow is None || b.lines is None
    &&& !b.own.position.is_out_of_flow()
    &&& b.own.style.display != Display::Gone
}

proof fn lemma_tops(b: BoxV, g: nat)
    requires
        b.dim.coords(g),
    ensures
        baseline::outer_top(b.dim).on(g, 0x20_0000),
        baseline::outer_top(b.dim).ticks(g) == top_ticks(b, g),
{
    let u: int = 0x8_0000;
    let d = b.dim;
    grid::lemma_difference(d.content.y, d.margin.top, g, u, u);
    grid::lemma_difference(d.content.y - d.margin.top, d.border.top, g, 2 * u, u);
    grid::lemma_difference(d.content.y - d.margin.top - d.border.top, d.padding.top, g, 3 * u, u);
}

/// Text sits on the baseline of its line: it starts as far above it as its own
/// extent above the baseline says, whichever other members the line has.
pub proof fn lemma_text_sits_on_baseline(
    sh: Shaper,
    s: Seq<BoxV>,
    start: int,
    end: int,
    style: ComputedStyle,
    g: nat,
    i: int,
)
    requires
        0 <= start <= i < end <= s.len(),
        line_text(s[i]),
        s[i].dim.coords(g),
        tree_coords(s[i], g),
        143 <= g,
        line_baseline(sh, s, start, end, style).coord(g),
        sizing::line_extents(sh, s[i].own.style).0.coord(g),
    ensures
        ({
            let c = on_baseline(sh, s, start, end, style)[i];
            &&& top_ticks(c, g) + sizing::line_extents(sh, s[i].own.style).0.ticks(g)
                == line_baseline(sh, s, start, end, style).ticks(g)
            &&& moved_whole(s[i], c, 0, top_ticks(c, g) - top_ticks(s[i], g), g)
        }),
{
    reveal(seated_member);
    reveal(member_target);
    reveal(member_above);
    reveal(member_top);
    let u: int = 0x8_0000;
    let base = line_baseline(sh, s, start, end, style);
    let above = sizing::line_extents(sh, s[i].own.style).0;
    let top = baseline::outer_top(s[i].dim);
    lemma_tops(s[i], g);
    grid::lemma_difference(base, above, g, u, u);
    grid::lemma_difference(base - above, top, g, 2 * u, 4 * u);
    lemma_seated(s[i], base - above - top, g, 6 * u);
}

/// What seating does to a box: it moves by the distance, or by nothing where
/// that is nothing.
proof fn lemma_seated(b: BoxV, dy: Num, g: nat, n: int)
    requires
        dy.on(g, n),
        0 <= n <= 0xa0_0000,
        143 <= g,
        tree_coords(b, g),
    ensures
        dy.ticks(g) != 0 ==> Num::magnitude(dy) > Num::ratio(1, 100) && moved_whole(
            b,
            crate::tree::shifted(b, Num::nought(), dy),
            0,
            dy.ticks(g),
            g,
        ),
        dy.ticks(g) == 0 ==> !(Num::magnitude(dy) > Num::ratio(1, 100)),
        moved_whole(b, b, 0, 0, g),
{
    lemma_unmoved(b, g);
    grid::lemma_finite(dy, g, n);
    grid::lemma_zero(g);
    grid::lemma_wider(Num::nought(), g, 0, n);
    if dy.ticks(g) != 0 {
        lemma_step_shows(dy, g, n);
        lemma_subtree_moves_whole(b, Num::nought(), dy, g, n);
    } else {
        reveal(Num::on);
        reveal(Num::magnitude);
        reveal(Num::nan);
        assert(0 * pow2(g) == 0);
        crate::num::lemma_decode(dy.mag());
        assert(dy.units() == 0);
        assert(dy.mag() == 0);
        assert(Num::magnitude(dy) == Num::nought());
        exact::lemma_hundredth();
        crate::num::lemma_decode(0);
        lemma_hundredth_rounds();
        reveal(Num::rank);
    }
}

/// An image stands on the baseline of its line: its margin box ends there. With
/// `vertical-align: middle` the middle of its margin box is half an x-height
/// above the baseline instead.
pub proof fn lemma_image_stands_on_baseline(
    sh: Shaper,
    s: Seq<BoxV>,
    start: int,
    end: int,
    style: ComputedStyle,
    g: nat,
    i: int,
)
    requires
        0 <= start <= i < end <= s.len(),
        line_image(s[i]),
        s[i].dim.coords(g),
        tree_coords(s[i], g),
        143 <= g,
        line_baseline(sh, s, start, end, style).coord(g),
        s[i].own.style.vertical_align == VerticalAlign::Middle ==> {
            let x_height = style.font_px() * Num::ratio(1, 2);
            x_height.coord(g) && x_height.ticks(g) % 2 == 0
                && s[i].dim.margin_box().height.ticks(g) % 2 == 0
        },
    ensures
        ({
            let c = on_baseline(sh, s, start, end, style)[i];
            let base = line_baseline(sh, s, start, end, style).ticks(g);
            let h = s[i].dim.margin_box().height.ticks(g);
            &&& s[i].own.style.vertical_align != VerticalAlign::Middle ==> top_ticks(c, g) + h
                == base
            &&& s[i].own.style.vertical_align == VerticalAlign::Middle ==> 2 * top_ticks(c, g) + h
                == 2 * base - (style.font_px() * Num::ratio(1, 2)).ticks(g)
            &&& moved_whole(s[i], c, 0, top_ticks(c, g) - top_ticks(s[i], g), g)
        }),
{
    reveal(seated_member);
    reveal(member_target);
    reveal(member_above);
    reveal(member_top);
    reveal(baseline::bottom_edge);
    let u: int = 0x8_0000;
    let base = line_baseline(sh, s, start, end, style);
    let h = s[i].dim.margin_box().height;
    let top = baseline::outer_top(s[i].dim);
    let x = style.font_px() * Num::ratio(1, 2);
    lemma_tops(s[i], g);
    lemma_boxes_lie_around(s[i].dim, g);
    lemma_height_bound(s[i], g);
    if s[i].own.style.vertical_align == VerticalAlign::Middle {
        grid::lemma_part(2, x, g, u);
        grid::lemma_part(2, h, g, 7 * u);
        grid::lemma_difference(base, x / Num::whole(2), g, u, u);
        grid::lemma_difference(base - x / Num::whole(2), h / Num::whole(2), g, 2 * u, 7 * u);
        let target = base - x / Num::whole(2) - h / Num::whole(2);
        grid::lemma_difference(target, top, g, 9 * u, 4 * u);
        lemma_seated(s[i], target - top, g, 13 * u);
    } else {
        grid::lemma_difference(base, h, g, u, 7 * u);
        grid::lemma_difference(base - h, top, g, 8 * u, 4 * u);
        grid::lemma_wider(base - h - top, g, 12 * u, 13 * u);
        lemma_seated(s[i], base - h - top, g, 13 * u);
    }
}

proof fn lemma_height_bound(b: BoxV, g: nat)
    requires
        b.dim.coords(g),
    ensures
        b.dim.margin_box().height.on(g, 0x38_0000),
{
    let u: int = 0x8_0000;
    let d = b.dim;
    grid::lemma_sum(d.padding.top, d.padding.bottom, g, u, u);
    grid::lemma_sum(d.border.top, d.border.bottom, g, u, u);
    grid::lemma_sum(d.margin.top, d.margin.bottom, g, u, u);
    grid::lemma_sum(d.content.height, d.padding.vertical(), g, u, 2 * u);
    grid::lemma_sum(d.padding_box().height, d.border.vertical(), g, 3 * u, 2 * u);
    grid::lemma_sum(d.border_box().height, d.margin.vertical(), g, 5 * u, 2 * u);
}

/// The baseline of a line is as far below the line's top as the member reaches
/// up that reaches highest, and no less than an empty line does: no member
/// that is placed by its baseline would start above the top of the line.
pub proof fn lemma_baseline_leaves_room_above(
    sh: Shaper,
    s: Seq<BoxV>,
    start: int,
    end: int,
    style: ComputedStyle,
    i: int,
)
    requires
        0 <= start <= i < end <= s.len(),
        on_line(s[i]),
        !member_top(sh, s[i]).nan(),
        !sizing::line_extents(sh, style).0.nan(),
    ensures
        ({
            let x = style.font_px() * Num::ratio(1, 2);
            let strut = sizing::line_extents(sh, style).0;
            let ascent = line_ascent(sh, s, start, end, strut, x);
            &&& line_baseline(sh, s, start, end, style) == line_top(sh, s, start, end) + ascent
            &&& line_top(sh, s, start, end) <= member_top(sh, s[i])
            &&& ascent >= strut
            &&& match member_above(sh, s[i], x) {
                Some(a) => a.nan() || ascent >= a,
                None => true,
            }
        }),
{
    let x = style.font_px() * Num::ratio(1, 2);
    let strut = sizing::line_extents(sh, style).0;
    lemma_top_bound(sh, s, start, end, i);
    lemma_ascent_bound(sh, s, start, end, strut, x, i);
}

proof fn lemma_top_bound(sh: Shaper, s: Seq<BoxV>, start: int, k: int, i: int)
    requires
        start <= i < k,
        on_line(s[i]),
        !member_top(sh, s[i]).nan(),
    ensures
        line_top(sh, s, start, k) <= member_top(sh, s[i]),
    decreases k - start,
{
    if i < k - 1 {
        lemma_top_bound(sh, s, start, k - 1, i);
    }
}

proof fn lemma_ascent_bound(
    sh: Shaper,
    s: Seq<BoxV>,
    start: int,
    k: int,
    strut: Num,
    x: Num,
    i: int,
)
    requires
        start <= i,
        start <= k,
        i < k ==> on_line(s[i]),
        !strut.nan(),
    ensures
        line_ascent(sh, s, start, k, strut, x) >= strut,
        i < k ==> match member_above(sh, s[i], x) {
            Some(a) => a.nan() || line_ascent(sh, s, start, k, strut, x) >= a,
            None => true,
        },
    decreases k - start,
{
    if k > start {
        if i < k - 1 {
            lemma_ascent_bound(sh, s, start, k - 1, strut, x, i);
        } else {
            lemma_ascent_from(sh, s, start, k - 1, strut, x);
        }
    }
}

proof fn lemma_ascent_from(sh: Shaper, s: Seq<BoxV>, start: int, k: int, strut: Num, x: Num)
    requires
        !strut.nan(),
    ensures
        line_ascent(sh, s, start, k, strut, x) >= strut,
    decreases k - start,
{
    if k > start {
        lemma_ascent_from(sh, s, start, k - 1, strut, x);
    }
}

/// A form control stands on the baseline of its line: a checkbox, radio button
/// or text area with the bottom of its margin box, any other by the line of
/// text in it, which hangs so far above the bottom.
pub proof fn lemma_control_stands_on_baseline(
    sh: Shaper,
    s: Seq<BoxV>,
    start: int,
    end: int,
    style: ComputedStyle,
    g: nat,
    i: int,
)
    requires
        0 <= start <= i < end <= s.len(),
        s[i].own.box_type is FormControl,
        s[i].lines is None,
        !s[i].own.position.is_out_of_flow() && s[i].own.style.display != Display::Gone,
        s[i].own.style.vertical_align != VerticalAlign::Middle,
        s[i].dim.coords(g),
        tree_coords(s[i], g),
        143 <= g,
        line_baseline(sh, s, start, end, style).coord(g),
        baseline::hang(sh, s[i]).on(g, 0x40_0000),
        s[i].dim.margin_box().height.ticks(g) >= baseline::hang(sh, s[i]).ticks(g),
    ensures
        ({
            let c = on_baseline(sh, s, start, end, style)[i];
            let base = line_baseline(sh, s, start, end, style).ticks(g);
            let bottom = top_ticks(c, g) + s[i].dim.margin_box().height.ticks(g);
            &&& match s[i].own.box_type {
                BoxType::FormControl(FormControlType::Checkbox { .. }) => bottom == base,
                BoxType::FormControl(FormControlType::Radio { .. }) => bottom == base,
                BoxType::FormControl(FormControlType::TextArea { .. }) => bottom == base,
                _ => bottom - baseline::hang(sh, s[i]).ticks(g) == base,
            }
            &&& moved_whole(s[i], c, 0, top_ticks(c, g) - top_ticks(s[i], g), g)
        }),
{
    reveal(seated_member);
    reveal(member_target);
    reveal(member_above);
    reveal(member_top);
    reveal(baseline::bottom_edge);
    reveal(baseline::baseline_y);
    let u: int = 0x8_0000;
    let base = line_baseline(sh, s, start, end, style);
    let h = s[i].dim.margin_box().height;
    let hang = baseline::hang(sh, s[i]);
    let top = baseline::outer_top(s[i].dim);
    lemma_tops(s[i], g);
    lemma_height_bound(s[i], g);
    grid::lemma_difference(h, hang, g, 7 * u, 8 * u);
    grid::lemma_finite(h, g, 7 * u);
    grid::lemma_zero(g);
    grid::lemma_wider(Num::nought(), g, 0, 15 * u);
    grid::lemma_extremes(h - hang, Num::nought(), g, 15 * u);
    let above = if baseline::bottom_edge(sh, s[i]) {
        h
    } else {
        Num::larger(h - hang, Num::nought())
    };
    grid::lemma_wider(h, g, 7 * u, 15 * u);
    assert(above.on(g, 15 * u));
    grid::lemma_difference(base, above, g, u, 15 * u);
    grid::lemma_difference(base - above, top, g, 16 * u, 4 * u);
    lemma_seated(s[i], base - above - top, g, 20 * u);
}

/// The top of a member on its line: an inline box starts a half-leading above
/// its content area, a run over several lines that entered the line half-way
/// so many lines below its top, anything else with its margin box.
pub proof fn lemma_member_tops(sh: Shaper, b: BoxV, g: nat)
    requires
        b.dim.coords(g),
        baseline::content_area(sh, b.own.style).1.coord(g),
        baseline::own_line(sh, b.own.style).on(g, 0x100),
        b.lines matches Some(lines) ==> 1 <= lines.len() < 0x1000,
    ensures
        b.own.box_type is Inline && baseline::wrapped_tail(sh, b, Num::nought()) is None
            ==> member_top(sh, b).ticks(g) + baseline::content_area(sh, b.own.style).1.ticks(g)
            == top_ticks(b, g),
        b.own.box_type is Text && b.flow is Some && b.lines is Some ==> member_top(sh, b).ticks(g)
            == top_ticks(b, g) + (b.lines->0.len() - 1) * baseline::own_line(
            sh,
            b.own.style,
        ).ticks(g),
        b.own.box_type is Text && (b.flow is None || b.lines is None) || b.own.box_type is Image
            && b.lines is None ==> member_top(sh, b).ticks(g) == top_ticks(b, g),
{
    reveal(member_top);
    let u: int = 0x8_0000;
    let top = baseline::outer_top(b.dim);
    let line = baseline::own_line(sh, b.own.style);
    lemma_tops(b, g);
    grid::lemma_difference(top, baseline::content_area(sh, b.own.style).1, g, 4 * u, u);
    if b.own.box_type is Text && b.flow is Some && b.lines is Some {
        let n = b.lines->0.len();
        if n == 1 {
            assert(0 * line.ticks(g) == 0);
        } else {
            let m = (n - 1) as nat;
            lemma_whole_on(n);
            lemma_whole_on(1);
            grid::lemma_difference(Num::whole(n as int), Num::whole(1), 149, n as int, 1);
            let count = Num::whole(n as int) - Num::whole(1);
            assert(count.on(149, m as int)) by {
                reveal(Num::on);
            }
            assert(0 <= m * 0x100 <= 0x10_0000) by (nonlinear_arith)
                requires
                    m < 0x1000,
            ;
            grid::lemma_finite(line, g, 0x100);
            grid::lemma_product(count, line, 149, m as int, g, 0x100, g);
            grid::lemma_wider(count * line, g, m as int * 0x100, 2 * u);
            grid::lemma_sum(top, count * line, g, 4 * u, 2 * u);
        }
    }
}

/// How far members reach above the baseline: text as its line does, an image
/// with all of its height, or with half of it and half an x-height in the
/// middle, an inline block by what it has above its own baseline.
pub proof fn lemma_members_reach_above(sh: Shaper, b: BoxV, x_height: Num, y: Num)
    requires
        b.dim.coords(149),
        b.dim.margin_box().height.ticks(149) % 2 == 0,
        x_height.coord(149) && x_height.ticks(149) % 2 == 0,
        y.coord(149),
        member_top(sh, b).on(149, 0x20_0000),
    ensures
        b.own.box_type is Text ==> member_above(sh, b, x_height) == Some(
            sizing::line_extents(sh, b.own.style).0,
        ),
        b.own.box_type is Image ==> (member_above(sh, b, x_height) matches Some(a) && if b.own.style.vertical_align
            == VerticalAlign::Middle {
            2 * a.ticks(149) == b.dim.margin_box().height.ticks(149) + x_height.ticks(149)
        } else {
            a == b.dim.margin_box().height
        }),
        b.own.box_type is Block && b.own.style.display == Display::InlineBlock
            && !baseline::bottom_edge(sh, b) && baseline::baseline_y(sh, b) == Some(y) ==> (
        member_above(sh, b, x_height) matches Some(a) && a.ticks(149) == y.ticks(149) - member_top(
            sh,
            b,
        ).ticks(149)),
{
    reveal(member_above);
    assert(b.own.box_type is Image ==> baseline::bottom_edge(sh, b)) by {
        reveal(baseline::bottom_edge);
    }
    let u: int = 0x8_0000;
    let h = b.dim.margin_box().height;
    lemma_height_bound(b, 149);
    grid::lemma_part(2, h, 149, 7 * u);
    grid::lemma_part(2, x_height, 149, u);
    grid::lemma_sum(h / Num::whole(2), x_height / Num::whole(2), 149, 7 * u, u);
    grid::lemma_difference(y, member_top(sh, b), 149, u, 4 * u);
    crate::laws::cutting::lemma_floor_with_slack(y - member_top(sh, b), 5 * u);
}

} // verus!

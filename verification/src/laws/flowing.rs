//! The flow: margins that collapse, members that follow each other on a line,
//! and lines and blocks that follow each other down the page.
use vstd::prelude::*;
use crate::baseline::{content_area, member_extents, own_line};
use crate::boxes::BoxV;
use crate::exact;
use crate::floats::Float;
use crate::flow::{
    after_break, at_cursor, block_taken, cursor_block, below_block, inline_taken, line_start_block,
    margin_spent, overflows_line, seated_at_cursor, split_taken, with_member, Container, FlowS,
    LineState,
};
use crate::geometry::Dimensions;
use crate::grid;
use crate::laws::boxes::lemma_boxes_lie_around;
use crate::leaf::text_flowed;
use crate::layout::inline_edges;
use crate::margin_collapse::{CollapsibleMargin, MarginCollapseContext};
use crate::num::Num;
use crate::style::{Display, Length, VerticalAlign};
use crate::text::Shaper;

verus! {

/// Of the margins that adjoin, the largest positive and the most negative one
/// count, and the margin between the boxes is their sum.
pub proof fn lemma_adjoining_margins_collapse(margins: Seq<Num>, g: nat, i: int)
    requires
        g <= 253,
        forall|k: int| 0 <= k < margins.len() ==> (#[trigger] margins[k]).coord(g),
    ensures
        ({
            let c = MarginCollapseContext::fresh().with_all(margins);
            let (p, n) = (c.positive_margin.ticks(g), c.negative_margin.ticks(g));
            &&& c.total().ticks(g) == p + n
            &&& n <= 0 <= p
            &&& 0 <= i < margins.len() ==> n <= margins[i].ticks(g) <= p
            &&& p == 0 || exists|k: int|
                0 <= k < margins.len() && (#[trigger] margins[k]).ticks(g) == p
            &&& n == 0 || exists|k: int|
                0 <= k < margins.len() && (#[trigger] margins[k]).ticks(g) == n
            &&& c.positive_margin.coord(g) && c.negative_margin.coord(g)
        }),
    decreases margins.len(),
{
    let u: int = 0x8_0000;
    let zero = Num::nought();
    grid::lemma_zero(g);
    grid::lemma_wider(zero, g, 0, u);
    let c = MarginCollapseContext::fresh().with_all(margins);
    if margins.len() > 0 {
        let rest = margins.drop_last();
        assert forall|k: int| 0 <= k < rest.len() implies (#[trigger] rest[k]).coord(g) by {
            assert(rest[k] == margins[k]);
        }
        lemma_adjoining_margins_collapse(rest, g, i);
        let b = MarginCollapseContext::fresh().with_all(rest);
        let n = margins.len() - 1;
        let last = margins[n];
        assert(last.coord(g));
        grid::lemma_order(last, zero, g, u, 0);
        grid::lemma_extremes(b.positive_margin, last, g, u);
        grid::lemma_extremes(b.negative_margin, last, g, u);
        let (bp, bn) = (b.positive_margin.ticks(g), b.negative_margin.ticks(g));
        if bp != 0 {
            let k = choose|k: int| 0 <= k < rest.len() && (#[trigger] rest[k]).ticks(g) == bp;
            assert(margins[k] == rest[k] && margins[k].ticks(g) == bp);
        }
        if bn != 0 {
            let k = choose|k: int| 0 <= k < rest.len() && (#[trigger] rest[k]).ticks(g) == bn;
            assert(margins[k] == rest[k] && margins[k].ticks(g) == bn);
        }
        assert(margins[n].ticks(g) == last.ticks(g));
        assert(0 <= i < rest.len() ==> rest[i] == margins[i]);
    }
    grid::lemma_sum(c.positive_margin, c.negative_margin, g, u, u);
}

/// Two margins that collapse give the larger of two positive ones, the more
/// negative of two negative ones, and the sum of one of each.
pub proof fn lemma_two_margins_collapse(a: Num, b: Num, g: nat)
    requires
        a.coord(g) && b.coord(g),
    ensures
        ({
            let m = CollapsibleMargin::single(a).joined(CollapsibleMargin::single(b));
            let r = (m.positive - m.negative).ticks(g);
            let (x, y) = (a.ticks(g), b.ticks(g));
            &&& x >= 0 && y >= 0 ==> (r == x || r == y) && r >= x && r >= y
            &&& x <= 0 && y <= 0 ==> (r == x || r == y) && r <= x && r <= y
            &&& x < 0 && y > 0 || x > 0 && y < 0 ==> r == x + y
        }),
{
    let u: int = 0x8_0000;
    let zero = Num::nought();
    grid::lemma_finite(a, g, u);
    grid::lemma_zero(g);
    grid::lemma_wider(zero, g, 0, u);
    grid::lemma_order(a, zero, g, u, 0);
    grid::lemma_order(b, zero, g, u, 0);
    grid::lemma_negated(a, g, u);
    grid::lemma_negated(b, g, u);
    let s = CollapsibleMargin::single(a);
    let t = CollapsibleMargin::single(b);
    grid::lemma_extremes(s.positive, t.positive, g, u);
    grid::lemma_extremes(s.negative, t.negative, g, u);
    let m = s.joined(t);
    grid::lemma_difference(m.positive, m.negative, g, u, u);
}

/// A member of a line stands with its margin box at the cursor, in its own
/// size.
pub proof fn lemma_member_stands_at_cursor(c: Container, line: LineState, b: BoxV, g: nat)
    requires
        c.dim.content.coords(g),
        line.cursor_x.coord(g) && line.cursor_y.coord(g),
        b.dim.margin.coords(g) && b.dim.border.coords(g) && b.dim.padding.coords(g),
    ensures
        ({
            let d = at_cursor(c, line, b).dim;
            &&& d.margin_box().x.ticks(g) == c.dim.content.x.ticks(g) + line.cursor_x.ticks(g)
            &&& d.margin_box().y.ticks(g) == c.dim.content.y.ticks(g) + line.cursor_y.ticks(g)
            &&& d.content.width == b.dim.content.width && d.content.height == b.dim.content.height
            &&& d.margin == b.dim.margin && d.border == b.dim.border && d.padding == b.dim.padding
        }),
{
    reveal(at_cursor);
    let u: int = 0x8_0000;
    let d = at_cursor(c, line, b).dim;
    let (m, e, p) = (d.margin, d.border, d.padding);
    let x = c.dim.content.x + line.cursor_x;
    let y = c.dim.content.y + line.cursor_y;
    grid::lemma_sum(c.dim.content.x, line.cursor_x, g, u, u);
    grid::lemma_sum(x, m.left, g, 2 * u, u);
    grid::lemma_sum(x + m.left, e.left, g, 3 * u, u);
    grid::lemma_sum(x + m.left + e.left, p.left, g, 4 * u, u);
    grid::lemma_difference(d.content.x, p.left, g, 5 * u, u);
    grid::lemma_difference(d.padding_box().x, e.left, g, 6 * u, u);
    grid::lemma_difference(d.border_box().x, m.left, g, 7 * u, u);
    grid::lemma_sum(c.dim.content.y, line.cursor_y, g, u, u);
    grid::lemma_sum(y, m.top, g, 2 * u, u);
    grid::lemma_sum(y + m.top, e.top, g, 3 * u, u);
    grid::lemma_sum(y + m.top + e.top, p.top, g, 4 * u, u);
    grid::lemma_difference(d.content.y, p.top, g, 5 * u, u);
    grid::lemma_difference(d.padding_box().y, e.top, g, 6 * u, u);
    grid::lemma_difference(d.border_box().y, m.top, g, 7 * u, u);
}

/// A member moves the cursor by its width, so that the next one stands beside
/// it; a float does not. The line stays where it is and becomes no lower.
pub proof fn lemma_member_moves_cursor_by_its_width(
    sh: Shaper,
    c: Container,
    line: LineState,
    b: BoxV,
    width: Num,
    height: Num,
    g: nat,
)
    requires
        line.cursor_x.coord(g) && line.width.coord(g) && width.coord(g),
    ensures
        ({
            let next = with_member(sh, c, line, b, width, height);
            let w = if b.own.float == Float::Unset {
                width.ticks(g)
            } else {
                0
            };
            &&& next.cursor_x.ticks(g) == line.cursor_x.ticks(g) + w
            &&& next.width.ticks(g) == line.width.ticks(g) + w
            &&& next.cursor_y == line.cursor_y && next.start == line.start && next.height
                == line.height
            &&& !line.extent_above.nan() ==> next.extent_above >= line.extent_above
            &&& !line.extent_below.nan() ==> next.extent_below >= line.extent_below
            &&& !line.below.nan() ==> next.below >= line.below
            &&& b.own.float == Float::Unset ==> match member_extents(sh, b) {
                Some((a, d)) => (!a.nan() ==> next.extent_above >= a) && (!d.nan()
                    ==> next.extent_below >= d),
                None => true,
            }
        }),
{
    reveal(with_member);
    let u: int = 0x8_0000;
    grid::lemma_sum(line.cursor_x, width, g, u, u);
    grid::lemma_sum(line.width, width, g, u, u);
    grid::lemma_difference(line.cursor_x + width, width, g, 2 * u, u);
    grid::lemma_difference(line.width + width, width, g, 2 * u, u);
}

/// A child goes to the next line only where lines wrap, something stands
/// before it, and it would reach beyond the container.
pub proof fn lemma_child_wraps_when_too_wide(c: Container, line: LineState, width: Num, g: nat)
    requires
        c.dim.content.width.coord(g) && line.cursor_x.coord(g) && width.coord(g),
    ensures
        overflows_line(c, line, width) <==> c.wraps && line.cursor_x.ticks(g) > 0
            && line.cursor_x.ticks(g) + width.ticks(g) > c.dim.content.width.ticks(g),
{
    let u: int = 0x8_0000;
    grid::lemma_finite(width, g, u);
    grid::lemma_zero(g);
    grid::lemma_sum(line.cursor_x, width, g, u, u);
    grid::lemma_order(line.cursor_x, Num::nought(), g, u, 0);
    grid::lemma_order(line.cursor_x + width, c.dim.content.width, g, 2 * u, u);
}

/// Whether the numbers of an open line are on a grid.
pub open spec fn line_coords(line: LineState, c: Container, g: nat) -> bool {
    &&& line.cursor_y.coord(g) && line.height.coord(g) && line.below.coord(g)
    &&& line.extent_above.coord(g) && line.extent_below.coord(g)
    &&& c.strut_above.coord(g) && c.strut_below.coord(g)
}

proof fn lemma_closing(line: LineState, c: Container, g: nat)
    requires
        line_coords(line, c, g),
    ensures
        line.closing(c).on(g, 0x10_0000),
        line.closing(c).ticks(g) >= line.height.ticks(g),
        line.closing(c).ticks(g) >= line.below.ticks(g),
        line.closing(c).ticks(g) >= line.extent_above.ticks(g) + line.extent_below.ticks(g),
        line.closing(c).ticks(g) >= c.strut_above.ticks(g) + c.strut_below.ticks(g),
{
    let u: int = 0x8_0000;
    grid::lemma_extremes(line.height, line.below, g, u);
    grid::lemma_extremes(line.extent_above, c.strut_above, g, u);
    grid::lemma_extremes(line.extent_below, c.strut_below, g, u);
    let up = Num::larger(line.extent_above, c.strut_above);
    let down = Num::larger(line.extent_below, c.strut_below);
    grid::lemma_sum(up, down, g, u, u);
    let t = Num::larger(line.height, line.below);
    grid::lemma_wider(t, g, u, 2 * u);
    grid::lemma_extremes(t, up + down, g, 2 * u);
}

/// A line that closes leaves the next one below everything on it, empty and at
/// the left edge, and is recorded with its members and its width.
pub proof fn lemma_lines_follow_each_other(
    st: FlowS,
    c: Container,
    i: usize,
    start: Option<usize>,
    g: nat,
)
    requires
        line_coords(st.line, c, g),
    ensures
        ({
            let next = st.closed(c, i, start);
            let dy = next.line.cursor_y.ticks(g) - st.line.cursor_y.ticks(g);
            &&& dy >= st.line.height.ticks(g) && dy >= st.line.below.ticks(g)
            &&& dy >= st.line.extent_above.ticks(g) + st.line.extent_below.ticks(g)
            &&& dy >= c.strut_above.ticks(g) + c.strut_below.ticks(g)
            &&& next.line.cursor_x == Num::nought() && next.line.width == Num::nought()
            &&& next.line.start == start
            &&& match st.line.start {
                Some(s) => next.lines.len() == st.lines.len() + 1 && next.lines.last().start == s
                    && next.lines.last().end == i && next.lines.last().width == st.line.width
                    && next.lines.drop_last() == st.lines,
                None => next.lines == st.lines,
            }
        }),
{
    let u: int = 0x8_0000;
    lemma_closing(st.line, c, g);
    grid::lemma_sum(st.line.cursor_y, st.line.closing(c), g, u, 2 * u);
    if st.line.start is Some {
        assert(st.closed(c, i, start).lines.drop_last() =~= st.lines);
    }
}

/// A run of several lines leaves its last one open: as far down as the other
/// lines are high, of which the first is no lower than the line it entered.
pub proof fn lemma_run_leaves_last_line_open(
    st: LineState,
    c: Container,
    n: nat,
    line: Num,
    end: Num,
    i: usize,
    g: nat,
)
    requires
        line_coords(st, c, g),
        line.on(g, 0x100),
        2 <= n < 0x1000,
    ensures
        ({
            let next = st.after_run(c, n as int, line, end, i);
            let dy = next.cursor_y.ticks(g) - st.cursor_y.ticks(g);
            let first = if st.closing(c).ticks(g) > line.ticks(g) {
                st.closing(c).ticks(g)
            } else {
                line.ticks(g)
            };
            &&& dy == first + (n - 2) * line.ticks(g)
            &&& next.cursor_x == end && next.width == end && next.height == line
            &&& next.start == Some(i)
        }),
{
    let u: int = 0x8_0000;
    let m = (n - 2) as nat;
    lemma_closing(st, c, g);
    lemma_two_less(n);
    grid::lemma_wider(line, g, 0x100, 2 * u);
    grid::lemma_extremes(st.closing(c), line, g, 2 * u);
    assert(m * 0x100 <= 0x10_0000) by (nonlinear_arith)
        requires
            m < 0x1000,
    ;
    grid::lemma_times(m, line, g, 0x100);
    let x = Num::larger(Num::whole(n as int) - Num::whole(2), Num::nought());
    lemma_count_times(x, m, line, g);
    let first = Num::larger(st.closing(c), line);
    grid::lemma_wider(x * line, g, m as int * 0x100, 2 * u);
    grid::lemma_sum(first, x * line, g, 2 * u, 2 * u);
    grid::lemma_sum(st.cursor_y, first + x * line, g, u, 4 * u);
}

/// Two less than a count, on the grid of whole numbers.
proof fn lemma_two_less(n: nat)
    requires
        2 <= n < 0x1000,
    ensures
        Num::larger(Num::whole(n as int) - Num::whole(2), Num::nought()).on(149, 0x1000),
        Num::larger(Num::whole(n as int) - Num::whole(2), Num::nought()).ticks(149) == n - 2,
{
    lemma_whole_on(n);
    lemma_whole_on(2);
    grid::lemma_difference(Num::whole(n as int), Num::whole(2), 149, n as int, 2);
    let d = Num::whole(n as int) - Num::whole(2);
    grid::lemma_zero(149);
    grid::lemma_wider(Num::nought(), 149, 0, n as int + 2);
    grid::lemma_extremes(d, Num::nought(), 149, n as int + 2);
    let x = Num::larger(d, Num::nought());
    assert(x.on(149, 0x1000)) by {
        reveal(Num::on);
    }
}

/// A small whole number is as many steps of the grid of ones.
pub proof fn lemma_whole_on(n: nat)
    requires
        n < 0x100_0000,
    ensures
        Num::whole(n as int).on(149, n as int),
        Num::whole(n as int).ticks(149) == n,
{
    reveal(Num::on);
    reveal(Num::ticks);
    exact::lemma_whole(n as int);
    vstd::arithmetic::power2::lemma_pow2_pos(149);
    let p = vstd::arithmetic::power2::pow2(149) as int;
    assert(n * p == p * n) by (nonlinear_arith);
    vstd::arithmetic::div_mod::lemma_div_multiples_vanish(
        n as int,
        vstd::arithmetic::power2::pow2(149) as int,
    );
}

/// A count on the grid of whole numbers multiplies as it counts.
proof fn lemma_count_times(x: Num, m: nat, line: Num, g: nat)
    requires
        x.on(149, 0x1000),
        x.ticks(149) == m < 0x1000,
        line.on(g, 0x100),
    ensures
        (x * line).on(g, m as int * 0x100),
        (x * line).ticks(g) == m * line.ticks(g),
{
    assert(x.on(149, m as int)) by {
        reveal(Num::on);
    }
    assert(m * 0x100 < 0x100_0000 && 0 <= m * 0x100) by (nonlinear_arith)
        requires
            m < 0x1000,
    ;
    grid::lemma_finite(line, g, 0x100);
    grid::lemma_product(x, line, 149, m as int, g, 0x100, g);
}

/// A forced break ends the line at its height; on an empty line, at the height
/// of an empty line. What follows starts at the left edge.
pub proof fn lemma_break_ends_line(c: Container, st: FlowS, i: usize, g: nat)
    requires
        line_coords(st.line, c, g),
        st.line.cursor_x.coord(g) && c.empty_line.coord(g),
        st.line.cursor_x.ticks(g) >= 0 && st.line.height.ticks(g) >= 0,
    ensures
        ({
            let next = after_break(c, st, i).line;
            let dy = next.cursor_y.ticks(g) - st.line.cursor_y.ticks(g);
            &&& st.line.cursor_x.ticks(g) == 0 && st.line.height.ticks(g) == 0 ==> dy
                == c.empty_line.ticks(g)
            &&& st.line.cursor_x.ticks(g) > 0 ==> dy >= st.line.height.ticks(g) && dy
                >= st.line.extent_above.ticks(g) + st.line.extent_below.ticks(g)
            &&& next.cursor_x == Num::nought() && next.start is None
        }),
{
    reveal(after_break);
    let u: int = 0x8_0000;
    lemma_closing(st.line, c, g);
    grid::lemma_finite(c.empty_line, g, u);
    grid::lemma_zero(g);
    grid::lemma_order(st.line.cursor_x, Num::nought(), g, u, 0);
    grid::lemma_order(st.line.height, Num::nought(), g, u, 0);
    grid::lemma_sum(st.line.cursor_y, st.line.closing(c), g, u, 2 * u);
    grid::lemma_sum(st.line.cursor_y, c.empty_line, g, u, u);
}

/// The pending margin moves the cursor down by what it collapsed to, once.
pub proof fn lemma_pending_margin_is_spent_once(st: FlowS, g: nat)
    requires
        st.line.cursor_y.coord(g),
        st.margin.positive_margin.coord(g) && st.margin.negative_margin.coord(g),
    ensures
        ({
            let next = margin_spent(st);
            &&& next.line.cursor_y.ticks(g) == st.line.cursor_y.ticks(g)
                + st.margin.positive_margin.ticks(g) + st.margin.negative_margin.ticks(g)
            &&& margin_spent(next).line.cursor_y.ticks(g) == next.line.cursor_y.ticks(g)
            &&& next.line.cursor_x == st.line.cursor_x && next.lines == st.lines
        }),
{
    let u: int = 0x8_0000;
    let m = st.margin;
    grid::lemma_sum(m.positive_margin, m.negative_margin, g, u, u);
    grid::lemma_sum(st.line.cursor_y, m.total(), g, u, 2 * u);
    grid::lemma_finite(st.line.cursor_y, g, u);
    grid::lemma_zero(g);
    grid::lemma_sum(Num::nought(), Num::nought(), g, 0, 0);
    grid::lemma_sum(st.line.cursor_y + m.total(), Num::nought() + Num::nought(), g, 3 * u, 0);
}

/// A block leaves the cursor at its bottom: at the bottom of its border box
/// where margins collapse, else as much further down as its margin box is
/// high. A float leaves it where it is.
pub proof fn lemma_cursor_is_below_block(
    c: Container,
    st: FlowS,
    b: BoxV,
    i: usize,
    collapse: bool,
    g: nat,
)
    requires
        b.dim.coords(g) && c.dim.content.coords(g),
        st.line.cursor_y.coord(g) && c.strut_descent.coord(g),
    ensures
        ({
            let y = block_taken(c, st, b, i, collapse).line.cursor_y.ticks(g);
            let (_, top, _, bottom) = b.dim.margin_box().edges(g);
            let extra = if b.is_image() && b.own.style.display == Display::Inline {
                c.strut_descent.ticks(g)
            } else {
                0
            };
            &&& b.own.float != Float::Unset ==> y == st.line.cursor_y.ticks(g)
            &&& b.own.float == Float::Unset && collapse ==> c.dim.content.y.ticks(g) + y
                == b.dim.border_box().edges(g).3 + extra
            &&& b.own.float == Float::Unset && !collapse ==> y == st.line.cursor_y.ticks(g) + (
            bottom - top) + extra
        }),
{
    reveal(block_taken);
    let u: int = 0x8_0000;
    let d = b.dim;
    lemma_boxes_lie_around(d, g);
    let low = d.border_box().bottom();
    grid::lemma_difference(low, c.dim.content.y, g, 8 * u, u);
    grid::lemma_sum(st.line.cursor_y, d.margin_box().height, g, u, 11 * u);
    grid::lemma_sum(low - c.dim.content.y, c.strut_descent, g, 9 * u, u);
    grid::lemma_sum(
        st.line.cursor_y + d.margin_box().height,
        c.strut_descent,
        g,
        12 * u,
        u,
    );
}

/// What is handed to a child as its containing block: at the cursor for one on
/// the line, at the left edge of the line for one that wraps, and the whole
/// container, filled to the cursor, for a block.
pub proof fn lemma_containing_blocks_are_at_the_cursor(c: Container, line: LineState, g: nat)
    requires
        c.dim.content.coords(g),
        line.cursor_x.coord(g) && line.cursor_y.coord(g),
    ensures
        ({
            let (x, y) = (c.dim.content.x.ticks(g), c.dim.content.y.ticks(g));
            let here = cursor_block(c, line).content;
            let start = line_start_block(c, line).content;
            let under = below_block(c, line).content;
            &&& here.x.ticks(g) == x + line.cursor_x.ticks(g)
            &&& here.y.ticks(g) + here.height.ticks(g) == y + line.cursor_y.ticks(g)
            &&& start.x.ticks(g) == x
            &&& start.y.ticks(g) + start.height.ticks(g) == y + line.cursor_y.ticks(g)
            &&& under.x.ticks(g) == x
            &&& under.y.ticks(g) + under.height.ticks(g) == y + line.cursor_y.ticks(g)
            &&& here.width == c.dim.content.width && start.width == c.dim.content.width
                && under.width == c.dim.content.width
        }),
{
    let u: int = 0x8_0000;
    grid::lemma_sum(c.dim.content.x, line.cursor_x, g, u, u);
    grid::lemma_sum(c.dim.content.y, line.cursor_y, g, u, u);
    grid::lemma_finite(c.dim.content.x, g, u);
    grid::lemma_zero(g);
}

/// A member that is taken into a line opens it where it is the first, and makes
/// the line at least as high as it is.
pub proof fn lemma_line_is_as_high_as_its_members(
    sh: Shaper,
    c: Container,
    st: FlowS,
    b: BoxV,
    width: Num,
    height: Num,
    i: usize,
)
    requires
        !b.is_inline(),
        !st.line.height.nan() && !height.nan(),
    ensures
        ({
            let (_, next) = inline_taken(sh, c, st, b, width, height, i);
            &&& next.line.height >= height && next.line.height >= st.line.height
            &&& next.line.height == height || next.line.height == st.line.height
            &&& next.line.start == Some(
                match st.line.start {
                    Some(s) => s,
                    None => i,
                },
            )
            &&& next.lines == st.lines
        }),
{
    reveal(inline_taken);
    reveal(with_member);
}

/// A text that was split and stays on its line moves the cursor by the width of
/// that line; one over several lines leaves its last line open, as wide as that
/// line is.
pub proof fn lemma_split_text_leaves_its_last_line_open(
    sh: Shaper,
    c: Container,
    st: FlowS,
    b: BoxV,
    i: usize,
    g: nat,
)
    requires
        st.line.cursor_x.coord(g) && st.line.width.coord(g),
        text_flowed(
            sh,
            b,
            c.dim,
            c.dim.content.y + st.line.cursor_y,
            st.line.cursor_x,
        ).2.coord(g),
    ensures
        ({
            let (k, n, last) = text_flowed(
                sh,
                b,
                c.dim,
                c.dim.content.y + st.line.cursor_y,
                st.line.cursor_x,
            );
            let (child, next) = split_taken(sh, c, st, b, i);
            &&& child == k
            &&& n <= 1 ==> next.line.cursor_x.ticks(g) == st.line.cursor_x.ticks(g) + last.ticks(g)
                && next.line.width.ticks(g) == st.line.width.ticks(g) + last.ticks(g)
                && next.line.cursor_y == st.line.cursor_y && next.splits == st.splits
            &&& n > 1 ==> next.line.cursor_x == last && next.line.width == last
                && next.line.start == Some(i) && next.splits.len() == st.splits.len() + 1
                && next.splits.last().text == i
        }),
{
    reveal(split_taken);
    let u: int = 0x8_0000;
    let last = text_flowed(
        sh,
        b,
        c.dim,
        c.dim.content.y + st.line.cursor_y,
        st.line.cursor_x,
    ).2;
    grid::lemma_sum(st.line.cursor_x, last, g, u, u);
    grid::lemma_sum(st.line.width, last, g, u, u);
}

/// An inline box starts at the left edge of its containing block by its own
/// left edges; its vertical margins do not count.
pub proof fn lemma_inline_box_starts_behind_its_edges(b: BoxV, cb: Dimensions, g: nat)
    requires
        cb.content.coords(g),
        inline_edges(b, cb).margin.coords(g) && inline_edges(b, cb).border.coords(g)
            && inline_edges(b, cb).padding.coords(g),
    ensures
        ({
            let d = inline_edges(b, cb);
            &&& d.margin_box().x.ticks(g) == cb.content.x.ticks(g)
            &&& d.content.y.ticks(g) == cb.content.y.ticks(g) + cb.content.height.ticks(g)
            &&& d.margin.top == Num::nought() && d.margin.bottom == Num::nought()
            &&& b.own.style.margin_left matches Length::Px(v) ==> d.margin.left == v
            &&& b.own.style.margin_right matches Length::Px(v) ==> d.margin.right == v
            &&& b.own.style.padding_left matches Length::Px(v) ==> d.padding.left == v
            &&& b.own.style.border_left_width matches Length::Px(v) ==> d.border.left == v
        }),
{
    reveal(inline_edges);
    let u: int = 0x8_0000;
    let d = inline_edges(b, cb);
    let (m, e, p) = (d.margin, d.border, d.padding);
    let x = cb.content.x;
    grid::lemma_sum(x, m.left, g, u, u);
    grid::lemma_sum(x + m.left, e.left, g, 2 * u, u);
    grid::lemma_sum(x + m.left + e.left, p.left, g, 3 * u, u);
    grid::lemma_difference(d.content.x, p.left, g, 4 * u, u);
    grid::lemma_difference(d.padding_box().x, e.left, g, 5 * u, u);
    grid::lemma_difference(d.border_box().x, m.left, g, 6 * u, u);
    grid::lemma_sum(cb.content.y, cb.content.height, g, u, u);
}

/// An inline box at the cursor stands a half-leading lower than its line, so
/// that the content area is in the middle; nothing else does.
pub proof fn lemma_inline_box_stands_on_content_area(
    sh: Shaper,
    c: Container,
    line: LineState,
    b: BoxV,
    g: nat,
)
    requires
        content_area(sh, b.own.style).1.coord(g),
        at_cursor(c, line, b).dim.content.y.on(g, 0x28_0000),
    ensures
        ({
            let k = seated_at_cursor(sh, c, line, b).dim;
            let (y, half) = (
                at_cursor(c, line, b).dim.content.y.ticks(g),
                content_area(sh, b.own.style).1.ticks(g),
            );
            &&& k.content.x == at_cursor(c, line, b).dim.content.x
            &&& b.is_inline() && half > 0 ==> k.content.y.ticks(g) == y + half
            &&& !b.is_inline() || half <= 0 ==> k.content.y.ticks(g) == y
        }),
{
    reveal(seated_at_cursor);
    reveal(crate::baseline::seated);
    let u: int = 0x8_0000;
    let half = content_area(sh, b.own.style).1;
    grid::lemma_finite(half, g, u);
    grid::lemma_zero(g);
    grid::lemma_order(half, Num::nought(), g, u, 0);
    grid::lemma_sum(at_cursor(c, line, b).dim.content.y, half, g, 5 * u, u);
}

/// A text or inline box on a line of its own is recorded as that line, of its
/// own width; other blocks are no lines.
pub proof fn lemma_own_line_is_recorded(
    c: Container,
    st: FlowS,
    b: BoxV,
    i: usize,
    collapse: bool,
)
    requires
        i < usize::MAX,
    ensures
        ({
            let lines = block_taken(c, st, b, i, collapse).lines;
            &&& b.is_text() || b.is_inline() ==> {
                &&& lines.len() == st.lines.len() + 1 && lines.drop_last() == st.lines
                &&& lines.last().start == i && lines.last().end == i + 1
                &&& b.is_text() ==> lines.last().width == b.dim.content.width
                &&& b.is_inline() ==> lines.last().width == b.dim.margin_box().width
            }
            &&& !b.is_text() && !b.is_inline() ==> lines == st.lines
        }),
{
    reveal(block_taken);
    let lines = block_taken(c, st, b, i, collapse).lines;
    if b.is_text() || b.is_inline() {
        assert(lines.drop_last() =~= st.lines);
    }
}

/// A split text makes its line at least as high as a line of its style.
pub proof fn lemma_split_text_raises_its_line(
    sh: Shaper,
    c: Container,
    st: FlowS,
    b: BoxV,
    i: usize,
)
    requires
        !st.line.height.nan() && !own_line(sh, b.own.style).nan(),
    ensures
        split_taken(sh, c, st, b, i).1.line.height >= own_line(sh, b.own.style),
{
    reveal(split_taken);
}

/// A member that stands on the baseline with its bottom edge leaves the descent
/// of the empty line below it: the line is at least as high as both.
pub proof fn lemma_line_reaches_below_bottom_edge(
    sh: Shaper,
    c: Container,
    st: FlowS,
    b: BoxV,
    width: Num,
    height: Num,
    i: usize,
    g: nat,
)
    requires
        b.own.box_type is Image,
        b.own.style.vertical_align == VerticalAlign::Baseline,
        height.coord(g) && c.strut_descent.coord(g) && st.line.below.on(g, 0x10_0000),
    ensures
        ({
            let next = inline_taken(sh, c, st, b, width, height, i).1.line;
            let need = height.ticks(g) + c.strut_descent.ticks(g);
            &&& next.below.ticks(g) >= need && next.below.ticks(g) >= st.line.below.ticks(g)
            &&& next.below.ticks(g) == need || next.below.ticks(g) == st.line.below.ticks(g)
        }),
{
    reveal(inline_taken);
    reveal(with_member);
    reveal(seated_at_cursor);
    reveal(at_cursor);
    reveal(crate::baseline::bottom_edge);
    reveal(crate::baseline::baseline_y);
    let u: int = 0x8_0000;
    grid::lemma_sum(height, c.strut_descent, g, u, u);
    grid::lemma_extremes(st.line.below, height + c.strut_descent, g, 2 * u);
}

/// An inline box makes its line at least as high as a line of its own style.
pub proof fn lemma_inline_box_raises_its_line(
    sh: Shaper,
    c: Container,
    st: FlowS,
    b: BoxV,
    width: Num,
    height: Num,
    i: usize,
)
    requires
        b.own.box_type is Inline,
        crate::baseline::wrapped_tail(sh, seated_at_cursor(sh, c, st.line, b), c.dim.content.x)
            is None,
        !st.line.height.nan() && !own_line(sh, b.own.style).nan(),
    ensures
        ({
            let next = inline_taken(sh, c, st, b, width, height, i).1.line;
            let own = own_line(sh, b.own.style);
            &&& next.height >= own && next.height >= st.line.height
            &&& next.height == own || next.height == st.line.height
        }),
{
    reveal(inline_taken);
    reveal(with_member);
}

} // verus!

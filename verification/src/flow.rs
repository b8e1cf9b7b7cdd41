//! The line in progress: the state of the flow between two children, and what
//! one child does to it.
use vstd::prelude::*;
use crate::baseline::{self, bottom_edge, member_extents, own_line, seated, wrapped_tail};
use crate::boxes::{BoxType, BoxV, LayoutBox};
use crate::floats::Float;
use crate::geometry::{Dimensions, Rect};
use crate::leaf::{break_laid, spaced_metrics, text_flowed};
use crate::margin_collapse::MarginCollapseContext;
use crate::num::Num;
use crate::sizing::{self, line_advance, text_line_box_extents};
use crate::style::{Display, Length, TextAlign, VerticalAlign};
use crate::text::Shaper;

verus! {

/// A line of children, from `start` to `end`, and its width.
#[derive(Debug, Clone, Copy)]
pub struct LineRecord {
    pub start: usize,
    pub end: usize,
    pub width: Num,
}

/// A text child that was split over lines, and the first child of the line it
/// entered.
#[derive(Debug, Clone, Copy)]
pub struct SplitRecord {
    pub start: usize,
    pub text: usize,
}

/// The open line.
#[derive(Debug, Clone, Copy)]
pub struct LineState {
    /// Where the next member goes, from the content origin of the container.
    pub cursor_x: Num,
    pub cursor_y: Num,
    /// The tallest member.
    pub height: Num,
    /// The depth of members that hang from the bottom edge.
    pub below: Num,
    /// The largest extents above and below the baseline.
    pub extent_above: Num,
    pub extent_below: Num,
    /// The width of the members, and the first of them.
    pub width: Num,
    pub start: Option<usize>,
}

/// What the flow reads of its container.
#[derive(Debug, Clone, Copy)]
pub struct Container {
    pub dim: Dimensions,
    /// The extents of an empty line above and below the baseline, its descent
    /// with leading, and its height.
    pub strut_above: Num,
    pub strut_below: Num,
    pub strut_descent: Num,
    pub empty_line: Num,
    /// Whether lines may wrap.
    pub wraps: bool,
    /// Whether the width is an author's zero.
    pub zero: bool,
    pub text_align: TextAlign,
}

/// The container of a flow.
#[verifier::opaque]
pub open spec fn container(sh: Shaper, b: BoxV) -> Container {
    let s = b.own.style;
    Container {
        dim: b.dim,
        strut_above: sizing::line_extents(sh, s).0,
        strut_below: sizing::line_extents(sh, s).1,
        strut_descent: baseline::strut_descent(sh, s),
        empty_line: own_line(sh, s),
        wraps: !s.no_wrap(),
        zero: b.dim.content.width <= Num::nought() && match s.width {
            Length::Zero => true,
            Length::Px(px) => px <= Num::nought(),
            _ => false,
        },
        text_align: s.text_align,
    }
}

/// The flow between two children, apart from the floats.
#[verifier::ext_equal]
pub struct FlowS {
    pub line: LineState,
    pub lines: Seq<LineRecord>,
    pub splits: Seq<SplitRecord>,
    pub margin: MarginCollapseContext,
}

/// The flow between two children, apart from the floats.
#[derive(Debug)]
pub struct FlowState {
    pub line: LineState,
    pub lines: Vec<LineRecord>,
    pub splits: Vec<SplitRecord>,
    pub margin: MarginCollapseContext,
}

impl View for FlowState {
    type V = FlowS;

    open spec fn view(&self) -> FlowS {
        FlowS {
            line: self.line,
            lines: self.lines@,
            splits: self.splits@,
            margin: self.margin,
        }
    }
}

impl LineState {
    /// An empty line at a height.
    pub open spec fn empty_at(y: Num, start: Option<usize>) -> LineState {
        LineState {
            cursor_x: Num::nought(),
            cursor_y: y,
            height: Num::nought(),
            below: Num::nought(),
            extent_above: Num::nought(),
            extent_below: Num::nought(),
            width: Num::nought(),
            start,
        }
    }

    /// The height of the line when it closes.
    pub open spec fn closing(self, c: Container) -> Num {
        sizing::advance(
            self.height,
            self.below,
            (self.extent_above, self.extent_below),
            (c.strut_above, c.strut_below),
        )
    }

    /// The line left open by a run of `n` lines of height `line`: its last one,
    /// of which `end` is taken.
    pub open spec fn after_run(
        self,
        c: Container,
        n: int,
        line: Num,
        end: Num,
        i: usize,
    ) -> LineState {
        LineState {
            cursor_x: end,
            cursor_y: self.cursor_y + (Num::larger(self.closing(c), line) + Num::larger(
                Num::whole(n) - Num::whole(2),
                Num::nought(),
            ) * line),
            height: line,
            below: Num::nought(),
            extent_above: Num::nought(),
            extent_below: Num::nought(),
            width: end,
            start: Some(i),
        }
    }

    fn new_at(y: Num, start: Option<usize>) -> (r: LineState)
        ensures
            r == LineState::empty_at(y, start),
    {
        let zero = Num::zero();
        LineState {
            cursor_x: zero,
            cursor_y: y,
            height: zero,
            below: zero,
            extent_above: zero,
            extent_below: zero,
            width: zero,
            start,
        }
    }

    fn closing_height(&self, c: &Container) -> (r: Num)
        ensures
            r == self.closing(*c),
    {
        line_advance(
            self.height,
            self.below,
            (self.extent_above, self.extent_below),
            (c.strut_above, c.strut_below),
        )
    }

    fn left_by_run(&self, c: &Container, n: usize, line: Num, end: Num, i: usize) -> (r: LineState)
        ensures
            r == self.after_run(*c, n as int, line, end, i),
    {
        let zero = Num::zero();
        LineState {
            cursor_x: end,
            cursor_y: self.cursor_y + (self.closing_height(c).max(line) + (Num::from_usize(n)
                - Num::of(2)).max(zero) * line),
            height: line,
            below: zero,
            extent_above: zero,
            extent_below: zero,
            width: end,
            start: Some(i),
        }
    }
}

impl FlowS {
    /// The flow before the first child.
    pub open spec fn start(margin: MarginCollapseContext) -> FlowS {
        FlowS {
            line: LineState::empty_at(Num::nought(), None),
            lines: Seq::empty(),
            splits: Seq::empty(),
            margin,
        }
    }

    /// Whether the records speak of the first `i` children only.
    pub open spec fn wf(self, i: int) -> bool {
        &&& self.line.start is Some ==> self.line.start->0 < i
        &&& forall|j: int|
            0 <= j < self.lines.len() ==> (#[trigger] self.lines[j]).start <= self.lines[j].end
                && self.lines[j].end <= i
        &&& forall|j: int|
            0 <= j < self.splits.len() ==> (#[trigger] self.splits[j]).start
                <= self.splits[j].text && self.splits[j].text < i
    }

    /// The line records with the open line, where it holds anything.
    pub open spec fn recorded(self, end: usize, width: Num) -> Seq<LineRecord> {
        match self.line.start {
            Some(start) => self.lines.push(LineRecord { start, end, width }),
            None => self.lines,
        }
    }

    /// The flow with the open line closed before child `i`, which starts the
    /// next line or not.
    pub open spec fn closed(self, c: Container, i: usize, start: Option<usize>) -> FlowS {
        FlowS {
            line: LineState::empty_at(self.line.cursor_y + self.line.closing(c), start),
            lines: self.recorded(i, self.line.width),
            ..self
        }
    }

    /// The flow with the line closed where it holds anything.
    pub open spec fn closed_if_used(self, c: Container, i: usize) -> FlowS {
        if self.line.cursor_x > Num::nought() {
            self.closed(c, i, None)
        } else {
            self
        }
    }
}

impl FlowState {
    pub(crate) fn new(margin: MarginCollapseContext) -> (r: FlowState)
        ensures
            r@ == FlowS::start(margin),
            r@.wf(0),
    {
        FlowState {
            line: LineState::new_at(Num::zero(), None),
            lines: Vec::new(),
            splits: Vec::new(),
            margin,
        }
    }

    fn record(&mut self, end: usize, width: Num)
        ensures
            final(self)@ == (FlowS { lines: old(self)@.recorded(end, width), ..old(self)@ }),
    {
        match self.line.start {
            Some(start) => {
                self.lines.push(LineRecord { start, end, width });
            },
            None => {},
        }
    }

    fn close(&mut self, c: &Container, i: usize, start: Option<usize>)
        ensures
            final(self)@ == old(self)@.closed(*c, i, start),
    {
        let width = self.line.width;
        self.record(i, width);
        let y = self.line.cursor_y + self.line.closing_height(c);
        self.line = LineState::new_at(y, start);
    }

    pub(crate) fn close_if_used(&mut self, c: &Container, i: usize)
        requires
            old(self)@.wf(i as int),
        ensures
            final(self)@ == old(self)@.closed_if_used(*c, i),
            final(self)@.wf(i as int),
    {
        if self.line.cursor_x > Num::zero() {
            self.close(c, i, None);
        }
    }
}

/// A new line record that ends at the current child keeps the records in range.
proof fn lemma_wf_push(st: FlowS, next: FlowS, r: LineRecord, i: int)
    requires
        st.wf(i),
        next.lines == st.lines.push(r),
        next.splits == st.splits,
        r.start <= r.end && r.end <= i,
        next.line.start is Some ==> next.line.start->0 < i,
    ensures
        next.wf(i),
{
    assert forall|j: int| 0 <= j < next.lines.len() implies (#[trigger] next.lines[j]).start
        <= next.lines[j].end && next.lines[j].end <= i by {
        if j < st.lines.len() {
            assert(st.lines[j].end <= i);
        }
    }
}

/// Whether a child opens a line box, so that margins do not adjoin across it.
pub open spec fn line_level(b: BoxV) -> bool {
    b.own.style.display.is_atomic_inline() || b.is_inline() || b.is_text() || b.is_image()
        || b.is_control() || b.own.box_type is LineBreak
}

/// Whether a child flows on the open line: an inline-level box, or a text that
/// fits what is left of it.
#[verifier::opaque]
pub open spec fn flows_inline(sh: Shaper, c: Container, line: LineState, b: BoxV) -> bool {
    ||| b.own.style.display.is_atomic_inline()
    ||| b.own.style.display == Display::Inline && (b.is_inline() || b.is_control() || b.is_image())
    ||| b.is_text() && (!c.wraps || spaced_metrics(sh, b.own.style, b.text()).width
        <= c.dim.content.width - line.cursor_x)
}

/// Whether a text that does not fit is split over lines.
pub open spec fn splits(b: BoxV) -> bool {
    b.is_text() && !b.own.style.no_wrap()
}

/// The flow with the pending margin made part of it.
pub open spec fn margin_spent(st: FlowS) -> FlowS {
    FlowS {
        line: LineState { cursor_y: st.line.cursor_y + st.margin.total(), ..st.line },
        margin: st.margin.emptied(),
        ..st
    }
}

/// The flow after a forced line break.
#[verifier::opaque]
pub open spec fn after_break(c: Container, st: FlowS, i: usize) -> FlowS {
    let used = st.line.cursor_x > Num::nought() || st.line.height > Num::nought();
    let height = if used {
        st.line.closing(c)
    } else {
        c.empty_line
    };
    FlowS {
        line: LineState::empty_at(st.line.cursor_y + height, None),
        lines: st.recorded(i, st.line.width),
        ..st
    }
}

/// The containing block of an inline-level child at the cursor.
pub open spec fn cursor_block(c: Container, line: LineState) -> Dimensions {
    Dimensions {
        content: Rect {
            x: c.dim.content.x + line.cursor_x,
            y: c.dim.content.y + line.cursor_y,
            width: c.dim.content.width,
            height: Num::nought(),
        },
        ..c.dim
    }
}

/// The containing block of a block-level child below the cursor.
pub open spec fn below_block(c: Container, line: LineState) -> Dimensions {
    Dimensions { content: Rect { height: line.cursor_y, ..c.dim.content }, ..c.dim }
}

/// The containing block of a child that wraps to the line start.
pub open spec fn line_start_block(c: Container, line: LineState) -> Dimensions {
    Dimensions {
        content: Rect {
            x: c.dim.content.x,
            y: c.dim.content.y + line.cursor_y,
            width: c.dim.content.width,
            height: Num::nought(),
        },
        ..c.dim
    }
}

/// Whether a child of a width goes to the next line.
pub open spec fn overflows_line(c: Container, line: LineState, width: Num) -> bool {
    c.wraps && line.cursor_x > Num::nought() && line.cursor_x + width > c.dim.content.width
}

/// A child placed at the cursor, which addresses its margin box.
#[verifier::opaque]
pub open spec fn at_cursor(c: Container, line: LineState, b: BoxV) -> BoxV {
    b.with_dim(
        Dimensions {
            content: Rect {
                x: c.dim.content.x + line.cursor_x + b.dim.margin.left + b.dim.border.left
                    + b.dim.padding.left,
                y: c.dim.content.y + line.cursor_y + b.dim.margin.top + b.dim.border.top
                    + b.dim.padding.top,
                ..b.dim.content
            },
            ..b.dim
        },
    )
}

/// A child at the cursor; an inline box a half-leading lower, on its content
/// area.
#[verifier::opaque]
pub open spec fn seated_at_cursor(sh: Shaper, c: Container, line: LineState, b: BoxV) -> BoxV {
    let k = at_cursor(c, line, b);
    let half = baseline::content_area(sh, b.own.style).1;
    if b.is_inline() && half > Num::nought() {
        seated(k, half)
    } else {
        k
    }
}

/// The line with a member of a width and height taken in.
#[verifier::opaque]
pub open spec fn with_member(
    sh: Shaper,
    c: Container,
    line: LineState,
    b: BoxV,
    width: Num,
    height: Num,
) -> LineState {
    let floats = b.own.float != Float::Unset;
    let extents = if floats {
        None
    } else {
        member_extents(sh, b)
    };
    let va = b.own.style.vertical_align;
    let anchored = va != VerticalAlign::Top && va != VerticalAlign::Bottom;
    LineState {
        cursor_x: if floats {
            line.cursor_x + width - width
        } else {
            line.cursor_x + width
        },
        width: if floats {
            line.width + width - width
        } else {
            line.width + width
        },
        extent_above: match extents {
            Some((above, _)) => Num::larger(line.extent_above, above),
            None => line.extent_above,
        },
        extent_below: match extents {
            Some((_, below)) => Num::larger(line.extent_below, below),
            None => line.extent_below,
        },
        below: if anchored && bottom_edge(sh, b) {
            Num::larger(line.below, height + c.strut_descent)
        } else {
            line.below
        },
        ..line
    }
}

/// The child and the flow after an inline-level child was laid out: it is
/// placed at the cursor and taken into the line; one whose text takes several
/// lines leaves its last line open.
#[verifier::opaque]
pub open spec fn inline_taken(
    sh: Shaper,
    c: Container,
    st: FlowS,
    b: BoxV,
    width: Num,
    height: Num,
    i: usize,
) -> (BoxV, FlowS) {
    let start = match st.line.start {
        Some(s) => s,
        None => i,
    };
    let k = seated_at_cursor(sh, c, st.line, b);
    let line = LineState {
        start: Some(start),
        height: Num::larger(
            st.line.height,
            if b.is_inline() {
                own_line(sh, b.own.style)
            } else {
                height
            },
        ),
        ..st.line
    };
    let tail = if b.is_inline() {
        wrapped_tail(sh, k, c.dim.content.x)
    } else {
        None
    };
    match tail {
        Some((n, end, lh)) => (
            k,
            FlowS {
                line: line.after_run(c, n, lh, end, i),
                lines: st.lines.push(
                    LineRecord { start, end: (i + 1) as usize, width: line.width + width },
                ),
                ..st
            },
        ),
        None => (k, FlowS { line: with_member(sh, c, line, k, width, height), ..st }),
    }
}

/// The child and the flow after a text was split over lines.
#[verifier::opaque]
pub open spec fn split_taken(sh: Shaper, c: Container, st: FlowS, b: BoxV, i: usize) -> (
    BoxV,
    FlowS,
) {
    let (k, n, last) = text_flowed(
        sh,
        b,
        c.dim,
        c.dim.content.y + st.line.cursor_y,
        st.line.cursor_x,
    );
    let lh = own_line(sh, b.own.style);
    if n <= 1 {
        (
            k,
            FlowS {
                line: LineState {
                    cursor_x: st.line.cursor_x + last,
                    width: st.line.width + last,
                    height: Num::larger(st.line.height, lh),
                    ..st.line
                },
                ..st
            },
        )
    } else {
        (
            k,
            FlowS {
                line: st.line.after_run(c, n, lh, last, i),
                splits: st.splits.push(
                    SplitRecord {
                        start: match st.line.start {
                            Some(s) => s,
                            None => i,
                        },
                        text: i,
                    },
                ),
                ..st
            },
        )
    }
}

/// The flow after a block-level child was laid out: the cursor is below it.
#[verifier::opaque]
pub open spec fn block_taken(
    c: Container,
    st: FlowS,
    b: BoxV,
    i: usize,
    collapse: bool,
) -> FlowS {
    let lines = if b.is_inline() {
        st.lines.push(
            LineRecord { start: i, end: (i + 1) as usize, width: b.dim.margin_box().width },
        )
    } else if b.is_text() {
        st.lines.push(
            LineRecord { start: i, end: (i + 1) as usize, width: b.dim.content.width },
        )
    } else {
        st.lines
    };
    let y = if collapse {
        b.dim.border_box().bottom() - c.dim.content.y
    } else {
        st.line.cursor_y + b.dim.margin_box().height
    };
    FlowS {
        lines,
        line: LineState {
            cursor_y: if b.own.float != Float::Unset {
                st.line.cursor_y
            } else if b.is_image() && b.own.style.display == Display::Inline {
                y + c.strut_descent
            } else {
                y
            },
            ..st.line
        },
        ..st
    }
}

/// Placing a child keeps the shape of its tree.
pub proof fn lemma_seated_at_cursor_fits(
    sh: Shaper,
    c: Container,
    line: LineState,
    b: BoxV,
    n: nat,
)
    requires
        b.fits(n),
    ensures
        seated_at_cursor(sh, c, line, b).fits(n),
{
    reveal(seated_at_cursor);
    reveal(at_cursor);
    let k = at_cursor(c, line, b);
    assert(k.fits(n));
    baseline::lemma_seated_fits(k, baseline::content_area(sh, b.own.style).1, n);
}

/// A floated member takes no room on its line, up to rounding: the cursor goes
/// forth and back by one width.
pub proof fn lemma_float_takes_no_line_height(
    sh: Shaper,
    c: Container,
    line: LineState,
    b: BoxV,
    width: Num,
    height: Num,
)
    requires
        b.own.float != Float::Unset,
    ensures
        with_member(sh, c, line, b, width, height).extent_above == line.extent_above,
        with_member(sh, c, line, b, width, height).extent_below == line.extent_below,
        with_member(sh, c, line, b, width, height).cursor_x == line.cursor_x + width - width,
{
    reveal(with_member);
}

/// A member aligned to the top or bottom of its line leaves the baseline alone.
pub proof fn lemma_edge_aligned_member(
    sh: Shaper,
    c: Container,
    line: LineState,
    b: BoxV,
    width: Num,
    height: Num,
)
    requires
        b.own.style.vertical_align == VerticalAlign::Top || b.own.style.vertical_align
            == VerticalAlign::Bottom,
    ensures
        with_member(sh, c, line, b, width, height).below == line.below,
        with_member(sh, c, line, b, width, height).extent_above == line.extent_above,
        with_member(sh, c, line, b, width, height).extent_below == line.extent_below,
{
    reveal(member_extents);
    reveal(with_member);
}

impl LayoutBox {
    pub(crate) fn flow_container(&self, shaper: &Shaper) -> (r: Container)
        ensures
            r == container(*shaper, self@),
    {
        proof {
            reveal(container);
        }
        let (strut_above, strut_below) = text_line_box_extents(shaper, &self.style);
        Container {
            dim: self.dimensions,
            strut_above,
            strut_below,
            strut_descent: self.inline_strut_descent(shaper),
            empty_line: self.get_line_height(shaper),
            wraps: !self.style.is_no_wrap(),
            zero: self.dimensions.content.width <= Num::zero() && match self.style.width {
                Length::Zero => true,
                Length::Px(px) => px <= Num::zero(),
                _ => false,
            },
            text_align: self.style.text_align,
        }
    }

    fn seat_at_cursor(&mut self, shaper: &Shaper, c: &Container, line: &LineState)
        ensures
            final(self)@ == seated_at_cursor(*shaper, *c, *line, old(self)@),
            final(self)@.own == old(self)@.own,
    {
        proof {
            reveal(seated);
        }
        proof {
            reveal(seated_at_cursor);
            reveal(at_cursor);
        }
        let m = self.dimensions.margin;
        let b = self.dimensions.border;
        let p = self.dimensions.padding;
        self.dimensions.content.x = c.dim.content.x + line.cursor_x + m.left + b.left + p.left;
        self.dimensions.content.y = c.dim.content.y + line.cursor_y + m.top + b.top + p.top;
        let inline = match &self.box_type {
            BoxType::Inline => true,
            _ => false,
        };
        if inline {
            let (_, half) = self.inline_content_area(shaper);
            if half > Num::zero() {
                self.shift_inline_content_area(half);
            }
        }
    }

    pub(crate) fn is_line_level(&self) -> (r: bool)
        ensures
            r == line_level(self@),
    {
        self.style.display.is_atomic_inline() || match &self.box_type {
            BoxType::Inline => true,
            BoxType::Text(_) => true,
            BoxType::Image { .. } => true,
            BoxType::FormControl(_) => true,
            BoxType::LineBreak => true,
            _ => false,
        }
    }

    pub(crate) fn is_flowing_inline(&self, shaper: &Shaper, c: &Container, line: &LineState) -> (r:
        bool)
        ensures
            r == flows_inline(*shaper, *c, *line, self@),
    {
        proof {
            reveal(flows_inline);
        }
        if self.style.display.is_atomic_inline() {
            return true;
        }
        match &self.box_type {
            BoxType::Inline => self.style.display == Display::Inline,
            BoxType::FormControl(_) => self.style.display == Display::Inline,
            BoxType::Image { .. } => self.style.display == Display::Inline,
            BoxType::Text(_) => !c.wraps || self.text_single_line_width(shaper)
                <= c.dim.content.width - line.cursor_x,
            _ => false,
        }
    }

    /// Whether a text child that does not fit the remaining line space splits
    /// across line boxes.
    pub fn text_splits_inline(child: &LayoutBox) -> (r: bool)
        ensures
            r == splits(child@),
    {
        match &child.box_type {
            BoxType::Text(_) => !child.style.is_no_wrap(),
            _ => false,
        }
    }
}

impl FlowState {
    pub(crate) fn spend_margin(&mut self)
        ensures
            final(self)@ == margin_spent(old(self)@),
    {
        self.line.cursor_y = self.line.cursor_y + self.margin.resolve();
        self.margin.reset();
    }

    pub(crate) fn take_break(&mut self, child: &mut LayoutBox, c: &Container, i: usize)
        requires
            old(self)@.wf(i as int),
        ensures
            final(child)@ == break_laid(
                old(child)@,
                c.dim.content.x + old(self)@.line.cursor_x,
                c.dim.content.y + old(self)@.line.cursor_y,
            ),
            final(self)@ == after_break(*c, old(self)@, i),
            final(self)@.wf(i + 1),
    {
        proof {
            reveal(after_break);
        }
        let used = self.line.cursor_x > Num::zero() || self.line.height > Num::zero();
        let height = if used {
            self.line.closing_height(c)
        } else {
            c.empty_line
        };
        child.layout_break(
            c.dim.content.x + self.line.cursor_x,
            c.dim.content.y + self.line.cursor_y,
        );
        let width = self.line.width;
        self.record(i, width);
        let y = self.line.cursor_y + height;
        self.line = LineState::new_at(y, None);
    }

    /// Wraps to the next line where a child of a width does not fit.
    pub(crate) fn wrap_for(&mut self, c: &Container, width: Num, i: usize) -> (r: bool)
        requires
            old(self)@.wf(i as int),
        ensures
            r == overflows_line(*c, old(self)@.line, width),
            final(self)@ == if r {
                old(self)@.closed(*c, i, Some(i))
            } else {
                old(self)@
            },
            final(self)@.wf(i + 1),
    {
        let wraps = c.wraps && self.line.cursor_x > Num::zero() && self.line.cursor_x + width
            > c.dim.content.width;
        if wraps {
            self.close(c, i, Some(i));
        }
        wraps
    }

    fn take_member(
        &mut self,
        child: &LayoutBox,
        shaper: &Shaper,
        c: &Container,
        width: Num,
        height: Num,
    )
        ensures
            final(self)@ == (FlowS {
                line: with_member(*shaper, *c, old(self)@.line, child@, width, height),
                ..old(self)@
            }),
    {
        proof {
            reveal(with_member);
        }
        let mut line = self.line;
        line.cursor_x = line.cursor_x + width;
        line.width = line.width + width;
        if child.float == Float::Unset {
            match child.line_member_baseline_extents(shaper) {
                Some((above, below)) => {
                    line.extent_above = line.extent_above.max(above);
                    line.extent_below = line.extent_below.max(below);
                },
                None => {},
            }
        } else {
            line.cursor_x = line.cursor_x - width;
            line.width = line.width - width;
        }
        if child.style.vertical_align != VerticalAlign::Top && child.style.vertical_align
            != VerticalAlign::Bottom && child.baseline_is_bottom_edge(shaper) {
            line.below = line.below.max(height + c.strut_descent);
        }
        self.line = line;
    }

    pub(crate) fn take_inline(
        &mut self,
        child: &mut LayoutBox,
        shaper: &Shaper,
        c: &Container,
        width: Num,
        height: Num,
        i: usize,
    )
        requires
            old(self)@.wf(i + 1),
            i < usize::MAX,
        ensures
            (final(child)@, final(self)@) == inline_taken(
                *shaper,
                *c,
                old(self)@,
                old(child)@,
                width,
                height,
                i,
            ),
            final(self)@.wf(i + 1),
    {
        proof {
            reveal(inline_taken);
        }
        let start: usize = match self.line.start {
            Some(s) => s,
            None => i,
        };
        child.seat_at_cursor(shaper, c, &self.line);
        self.line.start = Some(start);
        let inline = match &child.box_type {
            BoxType::Inline => true,
            _ => false,
        };
        if inline {
            self.line.height = self.line.height.max(child.get_line_height(shaper));
            match LayoutBox::inline_wrapped_tail(child, shaper, c.dim.content.x) {
                Some((n, end, lh)) => {
                    self.lines.push(
                        LineRecord { start, end: i + 1, width: self.line.width + width },
                    );
                    self.line = self.line.left_by_run(c, n, lh, end, i);
                    proof {
                        lemma_wf_push(
                            old(self)@,
                            self@,
                            LineRecord {
                                start,
                                end: (i + 1) as usize,
                                width: old(self)@.line.width + width,
                            },
                            i + 1,
                        );
                    }
                    return;
                },
                None => {},
            }
        } else {
            self.line.height = self.line.height.max(height);
        }
        self.take_member(child, shaper, c, width, height);
        proof {
            reveal(with_member);
            assert(self@.lines == old(self)@.lines);
            assert(self@.splits == old(self)@.splits);
        }
    }

    pub(crate) fn take_split(
        &mut self,
        child: &mut LayoutBox,
        shaper: &Shaper,
        c: &Container,
        i: usize,
    )
        requires
            old(self)@.wf(i as int),
            splits(old(child)@),
        ensures
            (final(child)@, final(self)@) == split_taken(
                *shaper,
                *c,
                old(self)@,
                old(child)@,
                i,
            ),
            final(self)@.wf(i + 1),
    {
        let line_top = c.dim.content.y + self.line.cursor_y;
        let (n, last) = child.layout_text_in_flow(shaper, &c.dim, line_top, self.line.cursor_x);
        proof {
            reveal(split_taken);
            reveal(text_flowed);
            reveal(crate::leaf::text_laid);
            assert(child@.own == old(child)@.own);
        }
        let lh = child.get_line_height(shaper);
        if n <= 1 {
            self.line.cursor_x = self.line.cursor_x + last;
            self.line.width = self.line.width + last;
            self.line.height = self.line.height.max(lh);
        } else {
            let start: usize = match self.line.start {
                Some(s) => s,
                None => i,
            };
            self.splits.push(SplitRecord { start, text: i });
            self.line = self.line.left_by_run(c, n, lh, last, i);
        }
    }

    pub(crate) fn take_block(
        &mut self,
        child: &LayoutBox,
        c: &Container,
        i: usize,
        collapse: bool,
    )
        requires
            old(self)@.wf(i as int),
            i < usize::MAX,
        ensures
            final(self)@ == block_taken(*c, old(self)@, child@, i, collapse),
            final(self)@.wf(i + 1),
    {
        proof {
            reveal(block_taken);
        }
        let d = &child.dimensions;
        match &child.box_type {
            BoxType::Inline => {
                self.lines.push(
                    LineRecord { start: i, end: i + 1, width: d.margin_box().width },
                );
            },
            BoxType::Text(_) => {
                self.lines.push(LineRecord { start: i, end: i + 1, width: d.content.width });
            },
            _ => {},
        }
        if child.float == Float::Unset {
            let y = if collapse {
                d.border_box().bottom() - c.dim.content.y
            } else {
                self.line.cursor_y + d.margin_box().height
            };
            let image = match &child.box_type {
                BoxType::Image { .. } => true,
                _ => false,
            };
            self.line.cursor_y = if image && child.style.display == Display::Inline {
                y + c.strut_descent
            } else {
                y
            };
        }
    }
}

} // verus!

//! Alignment of the members of a line: `text-align` across it, the baseline
//! along it.
use vstd::prelude::*;
use crate::baseline::{self, baseline_y, bottom_edge, hang, off_baseline, own_line};
use crate::boxes::{box_views, line_views, BoxType, BoxV, LayoutBox};
use crate::num::Num;
use crate::sizing::{self, text_line_box_extents};
use crate::style::{ComputedStyle, Display, TextAlign, VerticalAlign, WhiteSpace};
use crate::text::{self, trim_end, LineV, Shaper, TextLine};
use crate::tree::{shifted, translate_subtree};

verus! {

/// How far a line of a width moves to be aligned in a container.
pub open spec fn align_offset(align: TextAlign, container: Num, width: Num) -> Num {
    match align {
        TextAlign::Left => Num::nought(),
        TextAlign::Right => Num::larger(container - width, Num::nought()),
        TextAlign::Center => Num::larger((container - width) / Num::whole(2), Num::nought()),
        TextAlign::Justify => Num::nought(),
    }
}

fn offset_of(align: TextAlign, container: Num, width: Num) -> (r: Num)
    ensures
        r == align_offset(align, container, width),
{
    match align {
        TextAlign::Left => Num::zero(),
        TextAlign::Right => (container - width).max(Num::zero()),
        TextAlign::Center => ((container - width) / Num::of(2)).max(Num::zero()),
        TextAlign::Justify => Num::zero(),
    }
}

/// Whether lines move as they are aligned.
pub open spec fn moves(align: TextAlign) -> bool {
    align == TextAlign::Right || align == TextAlign::Center
}

/// The extra advance of each word separator that makes a line fill the
/// container; zero where it has none, is full, or cannot be measured.
pub open spec fn justify_space(
    sh: Shaper,
    style: ComputedStyle,
    line: LineV,
    container: Num,
) -> Num {
    let n = text::separators(text::trimmed_end(line.text));
    match text::ink_width(sh, line.text, style, style.font_px()) {
        Some(w) => if n > 0 && container - line.x_offset - w > Num::nought() {
            (container - line.x_offset - w) / Num::whole(n as int)
        } else {
            Num::nought()
        },
        None => Num::nought(),
    }
}

/// Lines justified: all but the last, and the first one only where the run
/// owns it.
pub open spec fn justified_lines(
    sh: Shaper,
    style: ComputedStyle,
    lines: Seq<LineV>,
    first: int,
    container: Num,
) -> Seq<LineV> {
    Seq::new(
        lines.len(),
        |i: int|
            if first <= i < lines.len() - 1 {
                LineV { justify_space: justify_space(sh, style, lines[i], container), ..lines[i] }
            } else {
                lines[i]
            },
    )
}

/// The first line of a run that it owns from the line start.
pub open spec fn first_owned(flow: Option<Num>) -> int {
    if flow is Some && flow->0 > Num::nought() {
        1
    } else {
        0
    }
}

/// A member of a justified line.
pub open spec fn justified(sh: Shaper, b: BoxV, container: Num) -> BoxV {
    let ws = b.own.style.white_space;
    if b.lines is None || !(ws == WhiteSpace::Normal || ws == WhiteSpace::Nowrap) {
        b
    } else {
        BoxV {
            lines: Some(
                justified_lines(sh, b.own.style, b.lines->0, first_owned(b.flow), container),
            ),
            ..b
        }
    }
}

/// Lines of which the last is moved.
pub open spec fn last_moved(lines: Seq<LineV>, dx: Num) -> Seq<LineV> {
    if lines.len() == 0 {
        lines
    } else {
        lines.update(
            lines.len() - 1,
            LineV { x_offset: lines.last().x_offset + dx, ..lines.last() },
        )
    }
}

/// Lines from `from` to `to`, each aligned on its own.
pub open spec fn each_aligned(
    lines: Seq<LineV>,
    from: int,
    to: int,
    align: TextAlign,
    container: Num,
) -> Seq<LineV> {
    Seq::new(
        lines.len(),
        |i: int|
            if from <= i < to {
                LineV { x_offset: align_offset(align, container, lines[i].width), ..lines[i] }
            } else {
                lines[i]
            },
    )
}

/// Whether a box moves with its line.
pub open spec fn inline_level(b: BoxV) -> bool {
    b.own.style.display.is_atomic_inline() || b.is_inline() || b.is_text() || b.is_control()
        || b.is_image()
}

/// A member of an aligned line. Wrapped text aligns each of its lines; a run
/// that entered the line half-way moves only its last line.
#[verifier::opaque]
pub open spec fn aligned_member(
    sh: Shaper,
    b: BoxV,
    offset: Num,
    container: Num,
    align: TextAlign,
) -> BoxV {
    if align == TextAlign::Justify {
        justified(sh, b, container)
    } else if moves(align) && b.lines is Some {
        BoxV {
            lines: Some(
                if b.flow is Some {
                    last_moved(b.lines->0, offset)
                } else {
                    each_aligned(
                        b.lines->0,
                        0,
                        b.lines->0.len() as int,
                        align,
                        container,
                    )
                },
            ),
            ..b
        }
    } else if offset > Num::nought() && inline_level(b) {
        shifted(b, offset, Num::nought())
    } else {
        b
    }
}

/// Boxes of which those from `start` to `end` form a line that is aligned.
pub open spec fn aligned(
    sh: Shaper,
    s: Seq<BoxV>,
    start: int,
    end: int,
    width: Num,
    container: Num,
    align: TextAlign,
) -> Seq<BoxV> {
    Seq::new(
        s.len(),
        |i: int|
            if start <= i < end {
                aligned_member(sh, s[i], align_offset(align, container, width), container, align)
            } else {
                s[i]
            },
    )
}

/// A sibling before a run that was split: it moves with the line it shares
/// with the first line of the run.
#[verifier::opaque]
pub open spec fn split_sibling(b: BoxV, dx: Num) -> BoxV {
    if b.flow is Some && b.lines is Some {
        BoxV { lines: Some(last_moved(b.lines->0, dx)), ..b }
    } else {
        shifted(b, dx, Num::nought())
    }
}

/// Whether a run was split over lines, and its alignment moves them.
pub open spec fn is_split(b: BoxV, align: TextAlign) -> bool {
    moves(align) && b.lines is Some && b.lines->0.len() >= 2
}

/// How far the line moves that holds the first line of a split run.
pub open spec fn split_offset(b: BoxV, container: Num, align: TextAlign) -> Num {
    let first = b.lines->0[0];
    align_offset(align, container, first.x_offset + first.width)
}

/// A split run with its closed lines aligned: the first as part of its line,
/// the others but the last on their own.
#[verifier::opaque]
pub open spec fn split_run(b: BoxV, container: Num, align: TextAlign) -> BoxV {
    let lines = b.lines->0;
    let dx = split_offset(b, container, align);
    let moved = if dx > Num::nought() {
        lines.update(0, LineV { x_offset: lines[0].x_offset + dx, ..lines[0] })
    } else {
        lines
    };
    BoxV { lines: Some(each_aligned(moved, 1, lines.len() - 1, align, container)), ..b }
}

/// Boxes after the closed lines of a split run are aligned.
pub open spec fn split_closed(
    s: Seq<BoxV>,
    start: int,
    at: int,
    container: Num,
    align: TextAlign,
) -> Seq<BoxV> {
    if !(0 <= at < s.len()) || !is_split(s[at], align) {
        s
    } else {
        let dx = split_offset(s[at], container, align);
        Seq::new(
            s.len(),
            |i: int|
                if i == at {
                    split_run(s[at], container, align)
                } else if start <= i < at && dx > Num::nought() {
                    split_sibling(s[i], dx)
                } else {
                    s[i]
                },
        )
    }
}

/// Whether a box takes part in the vertical alignment of its line.
pub open spec fn on_line(b: BoxV) -> bool {
    !b.own.position.is_out_of_flow() && b.own.style.display != Display::Gone
}

/// The top of a member on its line: of an inline box its line slot, of a run
/// over several lines that of the last one.
#[verifier::opaque]
pub open spec fn member_top(sh: Shaper, b: BoxV) -> Num {
    let top = baseline::outer_top(b.dim);
    if b.is_inline() {
        let slot = top - baseline::content_area(sh, b.own.style).1;
        match baseline::wrapped_tail(sh, b, Num::nought()) {
            Some((n, _, line)) => slot + (Num::whole(n) - Num::whole(1)) * line,
            None => slot,
        }
    } else if b.flow is Some && b.lines is Some && b.lines->0.len() > 1 {
        top + (Num::whole(b.lines->0.len() as int) - Num::whole(1)) * own_line(sh, b.own.style)
    } else {
        top
    }
}

/// Whether a member sits on the baseline as text does.
pub open spec fn seats_as_text(sh: Shaper, b: BoxV) -> bool {
    b.is_text() || (b.is_inline() && !off_baseline(b.own.style) && baseline::wrapped_tail(
        sh,
        b,
        Num::nought(),
    ) is None)
}

/// How far a member reaches above the baseline; `None` where it is not placed
/// by it.
#[verifier::opaque]
pub open spec fn member_above(sh: Shaper, b: BoxV, x_height: Num) -> Option<Num> {
    let h = b.dim.margin_box().height;
    if seats_as_text(sh, b) {
        Some(sizing::line_extents(sh, b.own.style).0)
    } else if b.is_control() && !bottom_edge(sh, b) {
        Some(Num::larger(h - hang(sh, b), Num::nought()))
    } else if bottom_edge(sh, b) {
        if b.own.style.vertical_align == VerticalAlign::Middle {
            Some(h / Num::whole(2) + x_height / Num::whole(2))
        } else {
            Some(h)
        }
    } else if b.own.style.display.is_atomic_inline() {
        match baseline_y(sh, b) {
            Some(y) => Some(Num::floored(y - member_top(sh, b) + Num::ratio(1, 100))),
            None => None,
        }
    } else {
        None
    }
}

/// Where the top of a member belongs on a line with a baseline.
#[verifier::opaque]
pub open spec fn member_target(sh: Shaper, b: BoxV, base: Num, x_height: Num) -> Option<Num> {
    match member_above(sh, b, x_height) {
        Some(above) => if !seats_as_text(sh, b) && bottom_edge(sh, b)
            && b.own.style.vertical_align == VerticalAlign::Middle {
            Some(
                base - x_height / Num::whole(2) - b.dim.margin_box().height / Num::whole(2),
            )
        } else {
            Some(base - above)
        },
        None => None,
    }
}

/// The top of the line of the boxes from `start` to `k`.
pub open spec fn line_top(sh: Shaper, s: Seq<BoxV>, start: int, k: int) -> Num
    decreases k - start,
{
    if k <= start {
        Num::unbounded()
    } else {
        let before = line_top(sh, s, start, k - 1);
        if on_line(s[k - 1]) {
            Num::smaller(before, member_top(sh, s[k - 1]))
        } else {
            before
        }
    }
}

/// The largest extent above the baseline of the boxes from `start` to `k`,
/// and no less than the strut's.
pub open spec fn line_ascent(
    sh: Shaper,
    s: Seq<BoxV>,
    start: int,
    k: int,
    strut: Num,
    x_height: Num,
) -> Num
    decreases k - start,
{
    if k <= start {
        strut
    } else {
        let before = line_ascent(sh, s, start, k - 1, strut, x_height);
        match member_above(sh, s[k - 1], x_height) {
            Some(above) => if on_line(s[k - 1]) {
                Num::larger(before, above)
            } else {
                before
            },
            None => before,
        }
    }
}

/// The baseline of the line of the boxes from `start` to `end`.
pub open spec fn line_baseline(
    sh: Shaper,
    s: Seq<BoxV>,
    start: int,
    end: int,
    style: ComputedStyle,
) -> Num {
    line_top(sh, s, start, end) + line_ascent(
        sh,
        s,
        start,
        end,
        sizing::line_extents(sh, style).0,
        style.font_px() * Num::ratio(1, 2),
    )
}

/// A member of a line brought to the baseline. Distances up to 0.01 stay, and
/// so does a run over several lines that entered the line half-way.
#[verifier::opaque]
pub open spec fn seated_member(sh: Shaper, b: BoxV, base: Num, x_height: Num) -> BoxV {
    match member_target(sh, b, base, x_height) {
        Some(target) => {
            let dy = target - member_top(sh, b);
            let split = b.flow is Some && b.lines is Some && b.lines->0.len() > 1;
            if on_line(b) && Num::magnitude(dy) > Num::ratio(1, 100) && !split {
                shifted(b, Num::nought(), dy)
            } else {
                b
            }
        },
        None => b,
    }
}

/// Boxes of which those from `start` to `end` form a line that is brought to
/// its baseline.
pub open spec fn on_baseline(
    sh: Shaper,
    s: Seq<BoxV>,
    start: int,
    end: int,
    style: ComputedStyle,
) -> Seq<BoxV> {
    let base = line_baseline(sh, s, start, end, style);
    Seq::new(
        s.len(),
        |i: int|
            if start <= i < end {
                seated_member(sh, s[i], base, style.font_px() * Num::ratio(1, 2))
            } else {
                s[i]
            },
    )
}

/// Alignment keeps the shape of the trees.
pub proof fn lemma_aligned_member_fits(
    sh: Shaper,
    b: BoxV,
    offset: Num,
    container: Num,
    align: TextAlign,
    n: nat,
)
    requires
        b.fits(n),
    ensures
        aligned_member(sh, b, offset, container, align).fits(n),
{
    reveal(aligned_member);
    crate::tree::lemma_shifted_fits(b, offset, Num::nought(), n);
}

/// Alignment of split runs keeps the shape of the trees.
pub proof fn lemma_split_fits(s: Seq<BoxV>, start: int, at: int, c: Num, align: TextAlign, n: nat)
    requires
        forall|i: int| 0 <= i < s.len() ==> (#[trigger] s[i]).fits(n),
    ensures
        forall|i: int|
            0 <= i < s.len() ==> (#[trigger] split_closed(s, start, at, c, align)[i]).fits(n),
{
    reveal(split_sibling);
    reveal(split_run);
    let t = split_closed(s, start, at, c, align);
    assert forall|i: int| 0 <= i < s.len() implies (#[trigger] t[i]).fits(n) by {
        assert(s[i].fits(n));
        crate::tree::lemma_shifted_fits(s[i], split_offset(s[at], c, align), Num::nought(), n);
    }
}

/// Alignment on the baseline keeps the shape of the trees.
pub proof fn lemma_seated_member_fits(sh: Shaper, b: BoxV, base: Num, x_height: Num, n: nat)
    requires
        b.fits(n),
    ensures
        seated_member(sh, b, base, x_height).fits(n),
{
    reveal(seated_member);
    match member_target(sh, b, base, x_height) {
        Some(target) => {
            crate::tree::lemma_shifted_fits(b, Num::nought(), target - member_top(sh, b), n);
        },
        None => {},
    }
}

/// Left-aligned lines stay where the flow put them.
pub proof fn lemma_left_alignment_is_the_flow(
    sh: Shaper,
    s: Seq<BoxV>,
    start: int,
    end: int,
    width: Num,
    container: Num,
)
    ensures
        aligned(sh, s, start, end, width, container, TextAlign::Left) == s,
        split_closed(s, start, end, container, TextAlign::Left) == s,
{
    reveal(aligned_member);
    crate::margin_collapse::lemma_zero_is_number();
    assert(aligned(sh, s, start, end, width, container, TextAlign::Left) =~= s);
}

/// The members of a line move by one distance, so they keep their places
/// relative to each other.
pub proof fn lemma_line_moves_as_one(
    sh: Shaper,
    s: Seq<BoxV>,
    start: int,
    end: int,
    width: Num,
    container: Num,
    align: TextAlign,
    i: int,
)
    requires
        moves(align),
        0 <= start <= i < end <= s.len(),
        s[i].lines is None,
        inline_level(s[i]),
        align_offset(align, container, width) > Num::nought(),
    ensures
        aligned(sh, s, start, end, width, container, align)[i] == shifted(
            s[i],
            align_offset(align, container, width),
            Num::nought(),
        ),
{
    reveal(aligned_member);
}

/// The last line of a justified run keeps its natural spacing.
pub proof fn lemma_last_line_is_not_justified(sh: Shaper, b: BoxV, container: Num)
    requires
        b.lines is Some,
        b.lines->0.len() > 0,
    ensures
        justified(sh, b, container).lines->0.last() == b.lines->0.last(),
{
}

/// Alignment leaves every box outside the line alone.
pub proof fn lemma_alignment_is_local(
    sh: Shaper,
    s: Seq<BoxV>,
    start: int,
    end: int,
    width: Num,
    container: Num,
    align: TextAlign,
    style: ComputedStyle,
    i: int,
)
    requires
        0 <= i < s.len(),
        i < start || end <= i,
    ensures
        aligned(sh, s, start, end, width, container, align)[i] == s[i],
        on_baseline(sh, s, start, end, style)[i] == s[i],
{
}

fn justify_lines(
    lines: &mut Vec<TextLine>,
    shaper: &Shaper,
    style: &ComputedStyle,
    first: usize,
    container: Num,
)
    ensures
        line_views(final(lines)@) == justified_lines(
            *shaper,
            *style,
            line_views(old(lines)@),
            first as int,
            container,
        ),
{
    let size = style.font_size_px();
    let mut i: usize = first;
    while lines.len() > 0 && i < lines.len() - 1
        invariant
            size == style.font_px(),
            lines@.len() == old(lines)@.len(),
            first <= i,
            forall|j: int|
                0 <= j < lines@.len() ==> (#[trigger] lines@[j])@ == if first <= j < i && j
                    < lines@.len() - 1 {
                    LineV {
                        justify_space: justify_space(*shaper, *style, old(lines)@[j]@, container),
                        ..old(lines)@[j]@
                    }
                } else {
                    old(lines)@[j]@
                },
        decreases lines.len() - i,
    {
        let trimmed: String = trim_end(lines[i].text.as_str());
        let n: usize = TextLine::justification_opportunities(trimmed.as_str());
        let natural = TextLine::natural_ink_width(shaper, lines[i].text.as_str(), style, size);
        let room = match natural {
            Some(w) => container - lines[i].x_offset - w,
            None => Num::zero(),
        };
        let space = if natural.is_some() && n > 0 && room > Num::zero() {
            room / Num::from_usize(n)
        } else {
            Num::zero()
        };
        lines[i].justify_space = space;
        i = i + 1;
    }
    proof {
        assert(line_views(lines@) =~= justified_lines(
            *shaper,
            *style,
            line_views(old(lines)@),
            first as int,
            container,
        ));
    }
}

fn move_last(lines: &mut Vec<TextLine>, dx: Num)
    ensures
        line_views(final(lines)@) == last_moved(line_views(old(lines)@), dx),
{
    let n: usize = lines.len();
    if n > 0 {
        let x = lines[n - 1].x_offset;
        lines[n - 1].x_offset = x + dx;
    }
    proof {
        assert(line_views(lines@) =~= last_moved(line_views(old(lines)@), dx));
    }
}

fn align_each(lines: &mut Vec<TextLine>, from: usize, to: usize, align: TextAlign, container: Num)
    requires
        to <= old(lines)@.len(),
    ensures
        line_views(final(lines)@) == each_aligned(
            line_views(old(lines)@),
            from as int,
            to as int,
            align,
            container,
        ),
{
    let mut i: usize = from;
    while i < to
        invariant
            from <= i,
            to <= lines@.len(),
            lines@.len() == old(lines)@.len(),
            forall|j: int|
                0 <= j < lines@.len() ==> (#[trigger] lines@[j])@ == if from <= j < i && j < to {
                    LineV {
                        x_offset: align_offset(align, container, old(lines)@[j]@.width),
                        ..old(lines)@[j]@
                    }
                } else {
                    old(lines)@[j]@
                },
        decreases to - i,
    {
        let x = offset_of(align, container, lines[i].width);
        lines[i].x_offset = x;
        i = i + 1;
    }
    proof {
        assert(line_views(lines@) =~= each_aligned(
            line_views(old(lines)@),
            from as int,
            to as int,
            align,
            container,
        ));
    }
}

impl LayoutBox {
    fn align_member(
        &mut self,
        shaper: &Shaper,
        offset: Num,
        container: Num,
        align: TextAlign,
    )
        ensures
            final(self)@ == aligned_member(*shaper, old(self)@, offset, container, align),
    {
        proof {
            reveal(aligned_member);
        }
        if align == TextAlign::Justify {
            if !(self.style.white_space == WhiteSpace::Normal || self.style.white_space
                == WhiteSpace::Nowrap) {
                return;
            }
            let first: usize = match self.text_flow_first_offset {
                Some(o) => if o > Num::zero() {
                    1
                } else {
                    0
                },
                None => 0,
            };
            match self.text_lines.take() {
                Some(lines) => {
                    let mut lines = lines;
                    justify_lines(&mut lines, shaper, &self.style, first, container);
                    self.text_lines = Some(lines);
                },
                None => {},
            }
            return;
        }
        if align == TextAlign::Right || align == TextAlign::Center {
            match self.text_lines.take() {
                Some(lines) => {
                    let mut lines = lines;
                    if self.text_flow_first_offset.is_some() {
                        move_last(&mut lines, offset);
                    } else {
                        let n: usize = lines.len();
                        align_each(&mut lines, 0, n, align, container);
                    }
                    self.text_lines = Some(lines);
                    return;
                },
                None => {},
            }
        }
        let inline_level = self.style.display.is_atomic_inline() || match &self.box_type {
            BoxType::Inline => true,
            BoxType::Text(_) => true,
            BoxType::FormControl(_) => true,
            BoxType::Image { .. } => true,
            _ => false,
        };
        if offset > Num::zero() && inline_level {
            translate_subtree(self, offset, Num::zero());
        }
    }

    /// Apply text-align offset to the children from `start` to `end`, which
    /// form a line.
    pub fn apply_text_align_offset(
        children: &mut Vec<LayoutBox>,
        shaper: &Shaper,
        start: usize,
        end: usize,
        line_width: Num,
        container_width: Num,
        text_align: TextAlign,
    )
        requires
            start <= end <= old(children)@.len(),
        ensures
            final(children)@.len() == old(children)@.len(),
            box_views(final(children)@) == aligned(
                *shaper,
                box_views(old(children)@),
                start as int,
                end as int,
                line_width,
                container_width,
                text_align,
            ),
    {
        let offset = offset_of(text_align, container_width, line_width);
        let mut i: usize = start;
        while i < end
            invariant
                start <= i <= end <= children@.len(),
                children@.len() == old(children)@.len(),
                offset == align_offset(text_align, container_width, line_width),
                forall|j: int|
                    start <= j < i ==> (#[trigger] children@[j])@ == aligned_member(
                        *shaper,
                        old(children)@[j]@,
                        offset,
                        container_width,
                        text_align,
                    ),
                forall|j: int|
                    0 <= j < start || i <= j < children@.len() ==> #[trigger] children@[j] == old(children)@[j],
            decreases end - i,
        {
            children[i].align_member(shaper, offset, container_width, text_align);
            i = i + 1;
        }
        proof {
            assert(box_views(children@) =~= aligned(
                *shaper,
                box_views(old(children)@),
                start as int,
                end as int,
                line_width,
                container_width,
                text_align,
            ));
        }
    }

    fn move_split_sibling(&mut self, dx: Num)
        ensures
            final(self)@ == split_sibling(old(self)@, dx),
    {
        proof {
            reveal(split_sibling);
        }
        if self.text_flow_first_offset.is_some() {
            match self.text_lines.take() {
                Some(lines) => {
                    let mut lines = lines;
                    move_last(&mut lines, dx);
                    self.text_lines = Some(lines);
                    return;
                },
                None => {},
            }
        }
        translate_subtree(self, dx, Num::zero());
    }

    fn align_split_run(&mut self, container: Num, align: TextAlign)
        requires
            is_split(old(self)@, align),
        ensures
            final(self)@ == split_run(old(self)@, container, align),
    {
        proof {
            reveal(split_run);
        }
        match self.text_lines.take() {
            Some(lines) => {
                let mut lines = lines;
                let n: usize = lines.len();
                let x = lines[0].x_offset;
                let dx = offset_of(align, container, x + lines[0].width);
                if dx > Num::zero() {
                    lines[0].x_offset = x + dx;
                }
                proof {
                    let was = old(self)@.lines->0;
                    let moved = if dx > Num::nought() {
                        was.update(0, LineV { x_offset: was[0].x_offset + dx, ..was[0] })
                    } else {
                        was
                    };
                    assert(line_views(lines@) =~= moved);
                }
                align_each(&mut lines, 1, n - 1, align, container);
                self.text_lines = Some(lines);
            },
            None => {},
        }
    }

    /// Align the closed lines of a run that was split over lines: the first
    /// with the siblings that share it, the others but the last on their own.
    pub fn align_split_close(
        children: &mut Vec<LayoutBox>,
        line_start: usize,
        text_index: usize,
        container_width: Num,
        text_align: TextAlign,
    )
        requires
            line_start <= text_index < old(children)@.len(),
        ensures
            final(children)@.len() == old(children)@.len(),
            box_views(final(children)@) == split_closed(
                box_views(old(children)@),
                line_start as int,
                text_index as int,
                container_width,
                text_align,
            ),
    {
        if !(text_align == TextAlign::Right || text_align == TextAlign::Center) {
            return;
        }
        let dx = match &children[text_index].text_lines {
            Some(lines) => {
                if lines.len() < 2 {
                    return;
                }
                offset_of(text_align, container_width, lines[0].x_offset + lines[0].width)
            },
            None => {
                return;
            },
        };
        let ghost was = box_views(old(children)@);
        proof {
            crate::boxes::lemma_view_at(old(children)@, text_index as int);
            assert(is_split(was[text_index as int], text_align));
            assert(dx == split_offset(was[text_index as int], container_width, text_align));
        }
        if dx > Num::zero() {
            let mut i: usize = line_start;
            while i < text_index
                invariant
                    line_start <= i <= text_index < children@.len(),
                    children@.len() == old(children)@.len(),
                    forall|j: int|
                        line_start <= j < i ==> (#[trigger] children@[j])@ == split_sibling(
                            old(children)@[j]@,
                            dx,
                        ),
                    forall|j: int|
                        0 <= j < line_start || i <= j < children@.len()
                            ==> #[trigger] children@[j] == old(children)@[j],
                decreases text_index - i,
            {
                children[i].move_split_sibling(dx);
                i = i + 1;
            }
        }
        children[text_index].align_split_run(container_width, text_align);
        proof {
            assert(box_views(children@) =~= split_closed(
                was,
                line_start as int,
                text_index as int,
                container_width,
                text_align,
            ));
        }
    }

    fn is_on_line(&self) -> (r: bool)
        ensures
            r == on_line(self@),
    {
        !self.position.is_out_of_flow() && self.style.display != Display::Gone
    }

    fn top_on_line(&self, shaper: &Shaper) -> (r: Num)
        ensures
            r == member_top(*shaper, self@),
    {
        proof {
            reveal(member_top);
        }
        let d = &self.dimensions;
        let top = d.content.y - d.margin.top - d.border.top - d.padding.top;
        let inline = match &self.box_type {
            BoxType::Inline => true,
            _ => false,
        };
        if inline {
            let slot = top - self.inline_content_area(shaper).1;
            return match LayoutBox::inline_wrapped_tail(self, shaper, Num::zero()) {
                Some((n, _, line)) => slot + (Num::from_usize(n) - Num::of(1)) * line,
                None => slot,
            };
        }
        match &self.text_lines {
            Some(lines) => {
                if self.text_flow_first_offset.is_some() && lines.len() > 1 {
                    top + (Num::from_usize(lines.len()) - Num::of(1)) * self.get_line_height(
                        shaper,
                    )
                } else {
                    top
                }
            },
            None => top,
        }
    }

    fn sits_as_text(&self, shaper: &Shaper) -> (r: bool)
        ensures
            r == seats_as_text(*shaper, self@),
    {
        match &self.box_type {
            BoxType::Text(_) => true,
            BoxType::Inline => !(self.style.vertical_align == VerticalAlign::Top
                || self.style.vertical_align == VerticalAlign::Bottom || self.style.vertical_align
                == VerticalAlign::Middle) && LayoutBox::inline_wrapped_tail(
                self,
                shaper,
                Num::zero(),
            ).is_none(),
            _ => false,
        }
    }

    fn extent_above(&self, shaper: &Shaper, x_height: Num) -> (r: Option<Num>)
        ensures
            r == member_above(*shaper, self@, x_height),
    {
        proof {
            reveal(member_above);
        }
        if self.sits_as_text(shaper) {
            return Some(text_line_box_extents(shaper, &self.style).0);
        }
        let h = self.dimensions.margin_box().height;
        let control = match &self.box_type {
            BoxType::FormControl(_) => true,
            _ => false,
        };
        let on_edge = self.baseline_is_bottom_edge(shaper);
        if control && !on_edge {
            Some((h - self.form_control_baseline_hang(shaper)).max(Num::zero()))
        } else if on_edge {
            if self.style.vertical_align == VerticalAlign::Middle {
                Some(h / Num::of(2) + x_height / Num::of(2))
            } else {
                Some(h)
            }
        } else if self.style.display.is_atomic_inline() {
            match self.inline_block_baseline_y(shaper) {
                Some(y) => Some((y - self.top_on_line(shaper) + Num::frac(1, 100)).floor()),
                None => None,
            }
        } else {
            None
        }
    }

    fn target_top(&self, shaper: &Shaper, base: Num, x_height: Num) -> (r: Option<Num>)
        ensures
            r == member_target(*shaper, self@, base, x_height),
    {
        proof {
            reveal(member_target);
        }
        match self.extent_above(shaper, x_height) {
            Some(above) => {
                if !self.sits_as_text(shaper) && self.baseline_is_bottom_edge(shaper)
                    && self.style.vertical_align == VerticalAlign::Middle {
                    let h = self.dimensions.margin_box().height;
                    Some(base - x_height / Num::of(2) - h / Num::of(2))
                } else {
                    Some(base - above)
                }
            },
            None => None,
        }
    }

    fn seat_member(&mut self, shaper: &Shaper, base: Num, x_height: Num)
        ensures
            final(self)@ == seated_member(*shaper, old(self)@, base, x_height),
    {
        proof {
            reveal(seated_member);
        }
        match self.target_top(shaper, base, x_height) {
            Some(target) => {
                let dy = target - self.top_on_line(shaper);
                let split = match &self.text_lines {
                    Some(lines) => self.text_flow_first_offset.is_some() && lines.len() > 1,
                    None => false,
                };
                if self.is_on_line() && dy.abs() > Num::frac(1, 100) && !split {
                    translate_subtree(self, Num::zero(), dy);
                }
            },
            None => {},
        }
    }

    /// Align the children from `start` to `end`, which form a line, about the
    /// line's baseline.
    pub fn apply_vertical_align(
        children: &mut Vec<LayoutBox>,
        shaper: &Shaper,
        start: usize,
        end: usize,
        container_font: &ComputedStyle,
    )
        requires
            start <= end <= old(children)@.len(),
        ensures
            final(children)@.len() == old(children)@.len(),
            box_views(final(children)@) == on_baseline(
                *shaper,
                box_views(old(children)@),
                start as int,
                end as int,
                *container_font,
            ),
    {
        let ghost was = box_views(old(children)@);
        let (strut, _) = text_line_box_extents(shaper, container_font);
        let x_height = container_font.font_size_px() * Num::frac(1, 2);
        let mut top = Num::infinity();
        let mut ascent = strut;
        let mut k: usize = start;
        while k < end
            invariant
                start <= k <= end <= children@.len(),
                was == box_views(children@),
                strut == sizing::line_extents(*shaper, *container_font).0,
                x_height == container_font.font_px() * Num::ratio(1, 2),
                top == line_top(*shaper, was, start as int, k as int),
                ascent == line_ascent(*shaper, was, start as int, k as int, strut, x_height),
            decreases end - k,
        {
            proof {
                crate::boxes::lemma_view_at(children@, k as int);
            }
            if children[k].is_on_line() {
                top = top.min(children[k].top_on_line(shaper));
                match children[k].extent_above(shaper, x_height) {
                    Some(above) => {
                        ascent = ascent.max(above);
                    },
                    None => {},
                }
            }
            k = k + 1;
        }
        let base = top + ascent;
        let mut i: usize = start;
        while i < end
            invariant
                start <= i <= end <= children@.len(),
                children@.len() == old(children)@.len(),
                forall|j: int|
                    start <= j < i ==> (#[trigger] children@[j])@ == seated_member(
                        *shaper,
                        old(children)@[j]@,
                        base,
                        x_height,
                    ),
                forall|j: int|
                    0 <= j < start || i <= j < children@.len() ==> #[trigger] children@[j] == old(children)@[j],
            decreases end - i,
        {
            children[i].seat_member(shaper, base, x_height);
            i = i + 1;
        }
        proof {
            assert(box_views(children@) =~= on_baseline(
                *shaper,
                was,
                start as int,
                end as int,
                *container_font,
            ));
        }
    }
}

} // verus!

//! Baselines: where an inline-level box sits on its line, and how far it
//! reaches above and below.
use vstd::prelude::*;
use crate::boxes::{box_views, BoxType, BoxV, LayoutBox};
use crate::floats::Float;
use crate::geometry::{Dimensions, Rect};
use crate::num::Num;
use crate::sizing::{
    self, font_ascent_descent, half_leading, resolve_line_height, text_line_box_extents,
    FormControlType,
};
use crate::style::{ComputedStyle, Display, VerticalAlign};
use crate::text::Shaper;
use crate::tree::{shifted, translate_subtree};

verus! {

/// The line height of a style at its own font size.
pub open spec fn own_line(sh: Shaper, style: ComputedStyle) -> Num {
    sizing::line_px(sh, style, style.font_px())
}

/// The content area of an inline box, and the half-leading above it.
#[verifier::opaque]
pub open spec fn content_area(sh: Shaper, style: ComputedStyle) -> (Num, Num) {
    let (a, d) = sizing::font_extents(sh, style, style.font_px());
    (a + d, sizing::leading(own_line(sh, style), a, d))
}

/// What the line of a container reaches below its baseline.
#[verifier::opaque]
pub open spec fn strut_descent(sh: Shaper, style: ComputedStyle) -> Num {
    let (a, d) = sizing::font_extents(sh, style, style.font_px());
    d + sizing::leading(own_line(sh, style), a, d)
}

/// Whether a box is a control that centres its single line of text.
pub open spec fn centres_line(b: BoxV) -> bool {
    match b.own.box_type {
        BoxType::FormControl(FormControlType::Button { .. }) => true,
        BoxType::FormControl(FormControlType::TextInput { .. }) => true,
        BoxType::FormControl(FormControlType::Select { size, .. }) => size <= 1,
        _ => false,
    }
}

/// The distance from a control's baseline, that of its text, to its bottom.
#[verifier::opaque]
pub open spec fn hang(sh: Shaper, b: BoxV) -> Num {
    let style = b.own.style;
    let size = style.font_px();
    let line = style.line_height.px(size);
    let (a, d) = sizing::font_extents(sh, style, size);
    let spare = if centres_line(b) && !style.height.is_auto() {
        Num::larger((b.dim.content.height - line) / Num::whole(2), Num::nought())
    } else {
        Num::nought()
    };
    d + sizing::leading(line, a, d) + spare + b.dim.padding.bottom + b.dim.border.bottom
}

/// Whether a control sits on its bottom edge: one without a line of text, or
/// one that scrolls.
pub open spec fn bottom_control(control: FormControlType) -> bool {
    control is Checkbox || control is Radio || control is TextArea
}

/// The bottom of the margin box.
pub open spec fn margin_bottom(b: BoxV) -> Num {
    b.dim.margin_box().y + b.dim.margin_box().height
}

/// Whether the baseline of an inline-level box is its bottom margin edge:
/// images, some controls, and inline blocks that are empty, clip their
/// overflow, or hold nothing with a baseline.
#[verifier::opaque]
pub open spec fn bottom_edge(sh: Shaper, b: BoxV) -> bool
    decreases b, 1int,
{
    match b.own.box_type {
        BoxType::Image { .. } => true,
        BoxType::FormControl(control) => bottom_control(control),
        _ => b.own.style.display.is_atomic_inline() && (b.children.len() == 0 || (
        b.own.style.clips() && b.own.style.display == Display::InlineBlock) || baseline_y(sh, b)
            is None),
    }
}

/// The baseline of an inline block: that of its last line box.
#[verifier::opaque]
pub open spec fn baseline_y(sh: Shaper, b: BoxV) -> Option<Num>
    decreases b, 0int,
{
    last_baseline(sh, b.children, b.children.len() as int)
}

/// The baseline of a text box: that of its last line.
#[verifier::opaque]
pub open spec fn text_baseline(sh: Shaper, b: BoxV) -> Num {
    let style = b.own.style;
    let (a, d) = sizing::font_extents(sh, style, style.font_px());
    b.dim.content.y + b.dim.content.height - (sizing::leading(own_line(sh, style), a, d) + d)
}

/// The baseline of the last of the first `k` boxes that has one.
#[verifier::opaque]
pub open spec fn last_baseline(sh: Shaper, s: Seq<BoxV>, k: int) -> Option<Num>
    decreases s, k,
{
    if k <= 0 || k > s.len() {
        None
    } else {
        let c = s[k - 1];
        let skip = c.own.position.is_out_of_flow() || c.own.float != Float::Unset
            || c.own.style.display == Display::Gone;
        if skip {
            last_baseline(sh, s, k - 1)
        } else {
            match c.own.box_type {
                BoxType::Text(_) => Some(text_baseline(sh, c)),
                BoxType::FormControl(_) => Some(
                    margin_bottom(c) - if bottom_edge(sh, c) {
                        Num::nought()
                    } else {
                        hang(sh, c)
                    },
                ),
                BoxType::Image { .. } => Some(margin_bottom(c)),
                BoxType::LineBreak => last_baseline(sh, s, k - 1),
                _ => if c.own.style.display.is_atomic_inline() && bottom_edge(sh, c) {
                    Some(margin_bottom(c))
                } else {
                    match baseline_y(sh, c) {
                        Some(y) => Some(y),
                        None => last_baseline(sh, s, k - 1),
                    }
                },
            }
        }
    }
}

/// Whether a box hangs from a line edge or the middle of the line.
pub open spec fn off_baseline(style: ComputedStyle) -> bool {
    style.vertical_align == VerticalAlign::Top || style.vertical_align == VerticalAlign::Bottom
        || style.vertical_align == VerticalAlign::Middle
}

/// The top of the margin box, from the content box outwards.
pub open spec fn outer_top(d: Dimensions) -> Num {
    d.content.y - d.margin.top - d.border.top - d.padding.top
}

/// How far a member of a line reaches above and below the baseline; `None`
/// where it is not placed by its baseline.
#[verifier::opaque]
pub open spec fn member_extents(sh: Shaper, b: BoxV) -> Option<(Num, Num)> {
    if off_baseline(b.own.style) {
        None
    } else if b.is_text() || b.is_inline() {
        Some(sizing::line_extents(sh, b.own.style))
    } else {
        let h = b.dim.margin_box().height;
        let above = if b.is_control() && !bottom_edge(sh, b) {
            Some(Num::larger(h - hang(sh, b), Num::nought()))
        } else if bottom_edge(sh, b) {
            Some(h)
        } else if b.own.style.display.is_atomic_inline() {
            match baseline_y(sh, b) {
                Some(y) => Some(Num::floored(y - outer_top(b.dim) + Num::ratio(1, 100))),
                None => None,
            }
        } else {
            None
        };
        match above {
            Some(a) => Some((a, Num::larger(h - a, Num::nought()))),
            None => None,
        }
    }
}

/// A box moved down by a distance, its horizontal place untouched.
pub open spec fn lowered(b: BoxV, dy: Num) -> BoxV {
    b.with_dim(
        Dimensions { content: Rect { y: b.dim.content.y + dy, ..b.dim.content }, ..b.dim },
    )
}

/// An inline box seated on its content area: inline rectangles move, text
/// stays in its line, anything else moves whole.
#[verifier::opaque]
pub open spec fn seated(b: BoxV, dy: Num) -> BoxV
    decreases b,
{
    BoxV { children: seated_all(b.children, dy), ..lowered(b, dy) }
}

/// The children of an inline box that is seated on its content area.
pub open spec fn seated_all(s: Seq<BoxV>, dy: Num) -> Seq<BoxV>
    decreases s,
{
    Seq::new(
        s.len(),
        |i: int|
            if 0 <= i < s.len() {
                match s[i].own.box_type {
                    BoxType::Text(_) => s[i],
                    BoxType::Inline => seated(s[i], dy),
                    _ => shifted(s[i], Num::nought(), dy),
                }
            } else {
                arbitrary()
            },
    )
}

/// Seating a box keeps the shape of its tree.
pub proof fn lemma_seated_fits(b: BoxV, dy: Num, n: nat)
    requires
        b.fits(n),
    ensures
        seated(b, dy).fits(n),
    decreases n,
{
    reveal(seated);
    let c = seated(b, dy);
    assert forall|i: int| 0 <= i < c.children.len() implies (#[trigger] c.children[i]).fits(
        (n - 1) as nat,
    ) by {
        assert(b.children[i].fits((n - 1) as nat));
        match b.children[i].own.box_type {
            BoxType::Text(_) => {},
            BoxType::Inline => {
                lemma_seated_fits(b.children[i], dy, (n - 1) as nat);
            },
            _ => {
                crate::tree::lemma_shifted_fits(b.children[i], Num::nought(), dy, (n - 1) as nat);
            },
        }
    }
}

/// The number of lines, the end of the last line and the line height of the
/// last text under a box that takes more than one line, in document order.
#[verifier::opaque]
pub open spec fn tail_after(
    sh: Shaper,
    b: BoxV,
    left: Num,
    before: Option<(int, Num, Num)>,
) -> Option<(int, Num, Num)>
    decreases b, 0int,
{
    let own = match b.lines {
        Some(lines) => if b.is_text() && lines.len() > 1 {
            Some(
                (
                    lines.len() as int,
                    Num::larger(
                        b.dim.content.x - left + lines.last().x_offset + lines.last().width,
                        Num::nought(),
                    ),
                    own_line(sh, b.own.style),
                ),
            )
        } else {
            before
        },
        None => before,
    };
    tail_after_all(sh, b.children, left, own, b.children.len() as int)
}

/// The same over the first `k` of some boxes.
pub open spec fn tail_after_all(
    sh: Shaper,
    s: Seq<BoxV>,
    left: Num,
    before: Option<(int, Num, Num)>,
    k: int,
) -> Option<(int, Num, Num)>
    decreases s, k,
{
    if k <= 0 || k > s.len() {
        before
    } else {
        tail_after(sh, s[k - 1], left, tail_after_all(sh, s, left, before, k - 1))
    }
}

/// The tail of an inline box whose text takes more than one line.
#[verifier::opaque]
pub open spec fn wrapped_tail(sh: Shaper, b: BoxV, left: Num) -> Option<(int, Num, Num)> {
    tail_after(sh, b, left, None)
}

/// What a tail says, in executable form.
pub open spec fn same_tail(a: Option<(usize, Num, Num)>, b: Option<(int, Num, Num)>) -> bool {
    match a {
        Some((n, end, line)) => b == Some((n as int, end, line)),
        None => b is None,
    }
}

fn walk_tail(
    b: &LayoutBox,
    shaper: &Shaper,
    left: Num,
    before: Option<(usize, Num, Num)>,
    Ghost(was): Ghost<Option<(int, Num, Num)>>,
) -> (r: Option<(usize, Num, Num)>)
    requires
        same_tail(before, was),
    ensures
        same_tail(r, tail_after(*shaper, b@, left, was)),
    decreases b,
{
    proof {
        reveal(tail_after);
    }
    let mut out = before;
    let ghost mut seen = was;
    match &b.text_lines {
        Some(lines) => {
            let is_text = match &b.box_type {
                BoxType::Text(_) => true,
                _ => false,
            };
            if is_text && lines.len() > 1 {
                let last = &lines[lines.len() - 1];
                let end = b.dimensions.content.x - left + last.x_offset + last.width;
                out = Some((lines.len(), end.max(Num::zero()), b.get_line_height(shaper)));
                proof {
                    seen = Some(
                        (
                            lines@.len() as int,
                            Num::larger(
                                b@.dim.content.x - left + b@.lines->0.last().x_offset
                                    + b@.lines->0.last().width,
                                Num::nought(),
                            ),
                            own_line(*shaper, b@.own.style),
                        ),
                    );
                }
            }
        },
        None => {},
    }
    let mut i: usize = 0;
    let ghost own = seen;
    while i < b.children.len()
        invariant
            i <= b.children.len(),
            same_tail(out, seen),
            seen == tail_after_all(*shaper, b@.children, left, own, i as int),
            b@.children == box_views(b.children@),
        decreases b.children.len() - i,
    {
        proof {
            crate::boxes::lemma_view_at(b.children@, i as int);
            reveal(tail_after);
        }
        let child: &LayoutBox = &b.children[i];
        out = walk_tail(child, shaper, left, out, Ghost(seen));
        proof {
            seen = tail_after(*shaper, child@, left, seen);
        }
        i = i + 1;
    }
    out
}

fn seat_all(v: &mut Vec<LayoutBox>, dy: Num)
    ensures
        box_views(final(v)@) == seated_all(box_views(old(v)@), dy),
    decreases *old(v),
{
    let mut i: usize = 0;
    while i < v.len()
        invariant
            i <= v.len(),
            v@.len() == old(v)@.len(),
            forall|j: int|
                0 <= j < i ==> (#[trigger] v@[j])@ == seated_all(box_views(old(v)@), dy)[j],
            forall|j: int| i <= j < v@.len() ==> #[trigger] v@[j] == old(v)@[j],
        decreases v.len() - i,
    {
        proof {
            crate::boxes::lemma_view_at(old(v)@, i as int);
            reveal(seated);
        }
        let stays = match &v[i].box_type {
            BoxType::Text(_) => true,
            _ => false,
        };
        let inline = match &v[i].box_type {
            BoxType::Inline => true,
            _ => false,
        };
        if stays {
        } else if inline {
            v[i].shift_inline_content_area(dy);
        } else {
            translate_subtree(&mut v[i], Num::zero(), dy);
        }
        i = i + 1;
    }
    proof {
        assert(box_views(v@) =~= seated_all(box_views(old(v)@), dy));
    }
}

impl LayoutBox {
    /// Get line height for text layout.
    pub fn get_line_height(&self, shaper: &Shaper) -> (r: Num)
        ensures
            r == own_line(*shaper, self.style),
    {
        resolve_line_height(shaper, &self.style, self.style.font_size_px())
    }

    /// Content area of a non-replaced inline box and the half-leading that
    /// centers it in its own line box.
    pub fn inline_content_area(&self, shaper: &Shaper) -> (r: (Num, Num))
        ensures
            r == content_area(*shaper, self.style),
    {
        proof {
            reveal(content_area);
        }
        let size = self.style.font_size_px();
        let line = resolve_line_height(shaper, &self.style, size);
        let (a, d) = font_ascent_descent(shaper, &self.style, size);
        (a + d, half_leading(line, a, d))
    }

    /// What the strut of this container reaches below the baseline.
    pub fn inline_strut_descent(&self, shaper: &Shaper) -> (r: Num)
        ensures
            r == strut_descent(*shaper, self.style),
    {
        proof {
            reveal(strut_descent);
        }
        let size = self.style.font_size_px();
        let line = resolve_line_height(shaper, &self.style, size);
        let (a, d) = font_ascent_descent(shaper, &self.style, size);
        d + half_leading(line, a, d)
    }

    /// Distance from a form control's baseline to its bottom edge.
    pub fn form_control_baseline_hang(&self, shaper: &Shaper) -> (r: Num)
        ensures
            r == hang(*shaper, self@),
    {
        proof {
            reveal(hang);
        }
        let size = self.style.font_size_px();
        let line = self.style.line_height.to_px(size);
        let (a, d) = font_ascent_descent(shaper, &self.style, size);
        let centres = match &self.box_type {
            BoxType::FormControl(FormControlType::Button { .. }) => true,
            BoxType::FormControl(FormControlType::TextInput { .. }) => true,
            BoxType::FormControl(FormControlType::Select { size: rows, .. }) => *rows <= 1,
            _ => false,
        };
        let spare = if centres && !self.style.height.is_auto() {
            ((self.dimensions.content.height - line) / Num::of(2)).max(Num::zero())
        } else {
            Num::zero()
        };
        d + half_leading(line, a, d) + spare + self.dimensions.padding.bottom
            + self.dimensions.border.bottom
    }

    /// True when this inline-level box's baseline is its bottom margin edge.
    pub fn baseline_is_bottom_edge(&self, shaper: &Shaper) -> (r: bool)
        ensures
            r == bottom_edge(*shaper, self@),
        decreases self, 1int,
    {
        proof {
            reveal(bottom_edge);
            reveal(baseline_y);
        }
        match &self.box_type {
            BoxType::Image { .. } => true,
            BoxType::FormControl(control) => match control {
                FormControlType::Checkbox { .. } => true,
                FormControlType::Radio { .. } => true,
                FormControlType::TextArea { .. } => true,
                _ => false,
            },
            _ => {
                if !self.style.display.is_atomic_inline() {
                    return false;
                }
                if self.children.len() == 0 {
                    return true;
                }
                (self.style.is_clipping() && self.style.display == Display::InlineBlock)
                    || self.inline_block_baseline_y(shaper).is_none()
            },
        }
    }

    /// The baseline of an inline-block with in-flow content: that of its last
    /// line box, or of the last descendant that carries a baseline.
    pub fn inline_block_baseline_y(&self, shaper: &Shaper) -> (r: Option<Num>)
        ensures
            r == baseline_y(*shaper, self@),
        decreases self, 0int,
    {
        proof {
            reveal(baseline_y);
            reveal(last_baseline);
        }
        let mut k: usize = self.children.len();
        while k > 0
            invariant
                k <= self.children.len(),
                self@.children == box_views(self.children@),
                baseline_y(*shaper, self@) == last_baseline(*shaper, self@.children, k as int),
            decreases k,
        {
            proof {
                crate::boxes::lemma_view_at(self.children@, k - 1);
                reveal(baseline_y);
                reveal(bottom_edge);
                reveal(last_baseline);
                reveal(text_baseline);
            }
            let c: &LayoutBox = &self.children[k - 1];
            k = k - 1;
            let skip = c.position.is_out_of_flow() || c.float != Float::Unset || c.style.display
                == Display::Gone;
            if !skip {
                match &c.box_type {
                    BoxType::Text(_) => {
                        let size = c.style.font_size_px();
                        let (a, d) = font_ascent_descent(shaper, &c.style, size);
                        let line = resolve_line_height(shaper, &c.style, size);
                        let bottom = c.dimensions.content.y + c.dimensions.content.height;
                        return Some(bottom - (half_leading(line, a, d) + d));
                    },
                    BoxType::FormControl(_) => {
                        let mb = c.dimensions.margin_box();
                        let below = if c.baseline_is_bottom_edge(shaper) {
                            Num::zero()
                        } else {
                            c.form_control_baseline_hang(shaper)
                        };
                        return Some(mb.y + mb.height - below);
                    },
                    BoxType::Image { .. } => {
                        let mb = c.dimensions.margin_box();
                        return Some(mb.y + mb.height);
                    },
                    BoxType::LineBreak => {},
                    _ => {
                        if c.style.display.is_atomic_inline() && c.baseline_is_bottom_edge(shaper) {
                            let mb = c.dimensions.margin_box();
                            return Some(mb.y + mb.height);
                        }
                        match c.inline_block_baseline_y(shaper) {
                            Some(y) => {
                                return Some(y);
                            },
                            None => {},
                        }
                    },
                }
            }
        }
        None
    }

    /// This line member's extents above and below the line's baseline.
    pub fn line_member_baseline_extents(&self, shaper: &Shaper) -> (r: Option<(Num, Num)>)
        ensures
            r == member_extents(*shaper, self@),
    {
        proof {
            reveal(member_extents);
        }
        if self.style.vertical_align == VerticalAlign::Top || self.style.vertical_align
            == VerticalAlign::Bottom || self.style.vertical_align == VerticalAlign::Middle {
            return None;
        }
        let as_text = match &self.box_type {
            BoxType::Text(_) => true,
            BoxType::Inline => true,
            _ => false,
        };
        if as_text {
            return Some(text_line_box_extents(shaper, &self.style));
        }
        let control = match &self.box_type {
            BoxType::FormControl(_) => true,
            _ => false,
        };
        let h = self.dimensions.margin_box().height;
        let on_edge = self.baseline_is_bottom_edge(shaper);
        let above = if control && !on_edge {
            (h - self.form_control_baseline_hang(shaper)).max(Num::zero())
        } else if on_edge {
            h
        } else if self.style.display.is_atomic_inline() {
            let d = &self.dimensions;
            let top = d.content.y - d.margin.top - d.border.top - d.padding.top;
            match self.inline_block_baseline_y(shaper) {
                Some(y) => (y - top + Num::frac(1, 100)).floor(),
                None => {
                    return None;
                },
            }
        } else {
            return None;
        };
        Some((above, (h - above).max(Num::zero())))
    }

    /// Seat a non-replaced inline's rect on its content area, a half-leading
    /// below the line top.
    pub fn shift_inline_content_area(&mut self, half_leading: Num)
        ensures
            final(self)@ == seated(old(self)@, half_leading),
        decreases *old(self),
    {
        proof {
            reveal(seated);
        }
        self.dimensions.content.y = self.dimensions.content.y + half_leading;
        seat_all(&mut self.children, half_leading);
    }

    /// The tail of an inline box whose text wrapped onto several lines: the
    /// number of lines, the end of the last one relative to the container's
    /// content left, and the text's line height.
    pub fn inline_wrapped_tail(inline: &LayoutBox, shaper: &Shaper, container_left: Num) -> (r:
        Option<(usize, Num, Num)>)
        ensures
            same_tail(r, wrapped_tail(*shaper, inline@, container_left)),
    {
        proof {
            reveal(wrapped_tail);
        }
        walk_tail(inline, shaper, container_left, None, Ghost(None))
    }
}

/// The two extents of a line of text sum to no less than its line height
/// leaves: the part below the baseline is never negative.
pub proof fn lemma_text_extent_below(sh: Shaper, style: ComputedStyle)
    ensures
        sizing::line_extents(sh, style).1 >= Num::nought(),
{
    crate::margin_collapse::lemma_zero_is_number();
}

/// A text leaf keeps its place when the inline box around it is seated.
pub proof fn lemma_seating_leaves_text(b: BoxV, dy: Num, i: int)
    requires
        0 <= i < b.children.len(),
        b.children[i].is_text(),
    ensures
        seated(b, dy).children[i] == b.children[i],
{
    reveal(seated);
}

} // verus!

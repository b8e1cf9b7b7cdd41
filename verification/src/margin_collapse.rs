//! CSS margin collapsing (CSS 2.1 8.3.1).
//!
//! Margins that adjoin collapse into one: the largest positive margin plus the
//! most negative one. Margins adjoin across siblings, across the open top and
//! bottom edges of a parent, and through an empty box.
use vstd::prelude::*;
use crate::floats::Float;
use crate::num::Num;
use crate::style::{ComputedStyle, Length, StylePosition};

verus! {

/// A margin in the course of collapsing: its largest positive part and the
/// size of its most negative part.
#[derive(Debug, Clone, Copy)]
pub struct CollapsibleMargin {
    /// Largest positive margin component (always >= 0).
    pub positive: Num,
    /// Most negative margin component stored as absolute value (always >= 0).
    pub negative: Num,
}

impl Default for CollapsibleMargin {
    fn default() -> (r: CollapsibleMargin)
        ensures
            r == (CollapsibleMargin { positive: Num::nought(), negative: Num::nought() }),
    {
        CollapsibleMargin { positive: Num::zero(), negative: Num::zero() }
    }
}

impl CollapsibleMargin {
    /// The margin of a single value.
    pub open spec fn single(value: Num) -> CollapsibleMargin {
        if value >= Num::nought() {
            CollapsibleMargin { positive: value, negative: Num::nought() }
        } else {
            CollapsibleMargin { positive: Num::nought(), negative: Num::negated(value) }
        }
    }

    /// Two margins collapsed into one.
    pub open spec fn joined(self, o: CollapsibleMargin) -> CollapsibleMargin {
        CollapsibleMargin {
            positive: Num::larger(self.positive, o.positive),
            negative: Num::larger(self.negative, o.negative),
        }
    }

    /// Both parts are numbers that are not negative.
    pub open spec fn wf(self) -> bool {
        self.positive >= Num::nought() && self.negative >= Num::nought()
    }

    /// Equality of both parts as values.
    pub open spec fn equals(self, o: CollapsibleMargin) -> bool {
        self.positive.same(o.positive) && self.negative.same(o.negative)
    }

    /// Create a new zero collapsible margin.
    pub fn zero() -> (r: CollapsibleMargin)
        ensures
            r == (CollapsibleMargin { positive: Num::nought(), negative: Num::nought() }),
            r.wf(),
    {
        proof {
            lemma_zero_is_number();
        }
        CollapsibleMargin { positive: Num::zero(), negative: Num::zero() }
    }

    /// Create a collapsible margin from a single margin value.
    pub fn from_margin(value: Num) -> (r: CollapsibleMargin)
        ensures
            r == CollapsibleMargin::single(value),
            !value.nan() ==> r.wf(),
    {
        proof {
            lemma_single_wf(value);
        }
        if value >= Num::zero() {
            CollapsibleMargin { positive: value, negative: Num::zero() }
        } else {
            CollapsibleMargin { positive: Num::zero(), negative: value.negate() }
        }
    }

    /// Collapse this margin with another, returning the combined result.
    pub fn collapse_with(self, other: CollapsibleMargin) -> (r: CollapsibleMargin)
        ensures
            r == self.joined(other),
            self.wf() && other.wf() ==> r.wf(),
    {
        CollapsibleMargin {
            positive: self.positive.max(other.positive),
            negative: self.negative.max(other.negative),
        }
    }

    /// Adjoin a margin value to this collapsible margin.
    pub fn adjoin(&mut self, margin: Num)
        ensures
            *final(self) == if margin >= Num::nought() {
                CollapsibleMargin {
                    positive: Num::larger(old(self).positive, margin),
                    negative: old(self).negative,
                }
            } else {
                CollapsibleMargin {
                    positive: old(self).positive,
                    negative: Num::larger(old(self).negative, Num::negated(margin)),
                }
            },
            old(self).wf() && !margin.nan() ==> *final(self) == old(self).joined(
                CollapsibleMargin::single(margin),
            ),
            old(self).wf() && !margin.nan() ==> final(self).wf(),
    {
        proof {
            lemma_single_wf(margin);
        }
        if margin >= Num::zero() {
            self.positive = self.positive.max(margin);
        } else {
            self.negative = self.negative.max(margin.negate());
        }
    }

    /// Resolve the collapsed margin to a single value.
    pub fn resolve(self) -> (r: Num)
        ensures
            r == self.positive - self.negative,
    {
        self.positive - self.negative
    }

    /// Check if this margin is effectively zero.
    pub fn is_zero(&self) -> (r: bool)
        ensures
            r == (self.positive.same(Num::nought()) && self.negative.same(Num::nought())),
    {
        self.positive == Num::zero() && self.negative == Num::zero()
    }
}

/// Zero is a number of rank zero.
pub proof fn lemma_zero_is_number()
    ensures
        !Num::nought().nan(),
        Num::nought().rank() == 0,
{
    reveal(Num::nan);
    reveal(Num::rank);
}

/// The opposite of a number has the opposite rank.
pub proof fn lemma_negated_rank(a: Num)
    ensures
        Num::negated(a).nan() == a.nan(),
        Num::negated(a).rank() == -a.rank(),
{
    reveal(Num::nan);
    reveal(Num::rank);
    reveal(Num::negated);
}

proof fn lemma_single_wf(value: Num)
    requires
        true,
    ensures
        !value.nan() ==> CollapsibleMargin::single(value).wf(),
        !Num::nought().nan(),
        Num::nought().rank() == 0,
        !value.nan() && !(value >= Num::nought()) ==> Num::negated(value) >= Num::nought(),
{
    lemma_zero_is_number();
    lemma_negated_rank(value);
}

/// Collapsing does not depend on the order of the margins.
pub proof fn lemma_collapse_commutes(a: CollapsibleMargin, b: CollapsibleMargin)
    requires
        a.wf(),
        b.wf(),
    ensures
        a.joined(b).equals(b.joined(a)),
{
}

/// Collapsing does not depend on how the margins are grouped.
pub proof fn lemma_collapse_associates(
    a: CollapsibleMargin,
    b: CollapsibleMargin,
    c: CollapsibleMargin,
)
    requires
        a.wf(),
        b.wf(),
        c.wf(),
    ensures
        a.joined(b).joined(c) == a.joined(b.joined(c)),
{
}

/// A margin collapsed with itself is that margin.
pub proof fn lemma_collapse_idempotent(a: CollapsibleMargin)
    ensures
        a.joined(a) == a,
{
}

/// Two margins that are not negative collapse to the larger one, two negative
/// ones to the more negative one, and a mixed pair to their sum.
pub proof fn lemma_collapse_cases(a: Num, b: Num)
    requires
        !a.nan(),
        !b.nan(),
    ensures
        ({
            let m = CollapsibleMargin::single(a).joined(CollapsibleMargin::single(b));
            &&& a >= Num::nought() && b >= Num::nought() ==> m.positive == Num::larger(a, b)
                && m.negative == Num::nought()
            &&& a < Num::nought() && b < Num::nought() ==> m.positive == Num::nought()
                && m.negative.same(Num::negated(Num::smaller(a, b)))
            &&& a >= Num::nought() && b < Num::nought() ==> m.positive == a && m.negative == Num::negated(b)
            &&& a < Num::nought() && b >= Num::nought() ==> m.positive.same(b) && m.negative == Num::negated(a)
        }),
{
    lemma_zero_is_number();
    lemma_negated_rank(a);
    lemma_negated_rank(b);
}

/// Collapse two margin values directly, returning the collapsed result.
pub fn collapse_margins(margin1: Num, margin2: Num) -> (r: Num)
    ensures
        ({
            let m = CollapsibleMargin::single(margin1).joined(CollapsibleMargin::single(margin2));
            r == m.positive - m.negative
        }),
{
    CollapsibleMargin::from_margin(margin1).collapse_with(
        CollapsibleMargin::from_margin(margin2),
    ).resolve()
}

/// Whether the children of a box flow in two or more columns.
pub open spec fn multi_column(style: ComputedStyle) -> bool {
    style.column_count matches Some(n) && n >= 2
}

/// Whether a box is the root of a block formatting context of its own.
pub open spec fn formatting_root(style: ComputedStyle, float: Float) -> bool {
    ||| float != Float::Unset
    ||| style.position == StylePosition::Absolute
    ||| style.position == StylePosition::Fixed
    ||| style.clips()
    ||| style.display.is_inline_block()
    ||| style.display.is_flex()
    ||| style.display.is_grid()
    ||| style.display.is_flow_root()
    ||| multi_column(style)
}

/// Whether a height or minimal height is absent: `auto`, or a pixel length
/// that is not above zero. A relative length is present.
pub open spec fn no_min_height(l: Length) -> bool {
    match l {
        Length::Auto => true,
        Length::Zero => true,
        Length::Px(px) => !(px > Num::nought()),
        _ => false,
    }
}

/// Check if an element establishes a new block formatting context (BFC): a
/// float, an absolutely positioned box, a box that clips, an inline block, a
/// table cell or caption, a flow root, a flex or grid container, or a
/// multi-column container.
pub fn establishes_bfc(style: &ComputedStyle, float: Float) -> (r: bool)
    ensures
        r == formatting_root(*style, float),
{
    float != Float::Unset || style.position == StylePosition::Absolute || style.position
        == StylePosition::Fixed || style.is_clipping() || style.display.is_inline_block()
        || style.display.is_flex() || style.display.is_grid() || style.display.is_flow_root()
        || match style.column_count {
        Some(n) => n >= 2,
        None => false,
    }
}

fn has_no_min_height(l: &Length) -> (r: bool)
    ensures
        r == no_min_height(*l),
{
    match *l {
        Length::Auto => true,
        Length::Zero => true,
        Length::Px(px) => !(px > Num::zero()),
        _ => false,
    }
}

/// Whether the top and bottom margins of a box adjoin each other.
pub open spec fn collapses_through(
    style: ComputedStyle,
    float: Float,
    has_in_flow_content: bool,
    border_top: Num,
    border_bottom: Num,
    padding_top: Num,
    padding_bottom: Num,
    has_clearance: bool,
) -> bool {
    &&& !has_in_flow_content
    &&& !(border_top > Num::nought()) && !(border_bottom > Num::nought())
    &&& !(padding_top > Num::nought()) && !(padding_bottom > Num::nought())
    &&& !has_clearance
    &&& !formatting_root(style, float)
    &&& match style.height {
        Length::Auto => true,
        Length::Zero => true,
        Length::Px(px) => px.same(Num::nought()),
        _ => false,
    }
    &&& no_min_height(style.min_height)
}

/// Check if margins can collapse through an element (through-flow).
pub fn is_margin_collapsible_through(
    style: &ComputedStyle,
    float: Float,
    has_in_flow_content: bool,
    border_top: Num,
    border_bottom: Num,
    padding_top: Num,
    padding_bottom: Num,
    has_clearance: bool,
) -> (r: bool)
    ensures
        r == collapses_through(
            *style,
            float,
            has_in_flow_content,
            border_top,
            border_bottom,
            padding_top,
            padding_bottom,
            has_clearance,
        ),
{
    if has_in_flow_content || border_top > Num::zero() || border_bottom > Num::zero() || padding_top
        > Num::zero() || padding_bottom > Num::zero() || has_clearance || establishes_bfc(
        style,
        float,
    ) {
        return false;
    }
    let no_height = match style.height {
        Length::Auto => true,
        Length::Zero => true,
        Length::Px(px) => px == Num::zero(),
        _ => false,
    };
    no_height && has_no_min_height(&style.min_height)
}

/// Whether the top edge of a box lets its first child's margin through.
pub open spec fn open_top(
    style: ComputedStyle,
    float: Float,
    border_top: Num,
    padding_top: Num,
) -> bool {
    &&& !formatting_root(style, float)
    &&& !(border_top > Num::nought())
    &&& !(padding_top > Num::nought())
}

/// Whether the bottom edge of a box lets its last child's margin through.
pub open spec fn open_bottom(
    style: ComputedStyle,
    float: Float,
    border_bottom: Num,
    padding_bottom: Num,
) -> bool {
    &&& !formatting_root(style, float)
    &&& !(border_bottom > Num::nought())
    &&& !(padding_bottom > Num::nought())
    &&& style.height is Auto
    &&& no_min_height(style.min_height)
}

/// Check if a parent's top margin should collapse with its first child's top margin.
pub fn should_collapse_with_first_child(
    parent_style: &ComputedStyle,
    float: Float,
    border_top: Num,
    padding_top: Num,
) -> (r: bool)
    ensures
        r == open_top(*parent_style, float, border_top, padding_top),
{
    !establishes_bfc(parent_style, float) && !(border_top > Num::zero()) && !(padding_top
        > Num::zero())
}

/// Check if a parent's bottom margin should collapse with its last child's bottom margin.
pub fn should_collapse_with_last_child(
    parent_style: &ComputedStyle,
    float: Float,
    border_bottom: Num,
    padding_bottom: Num,
) -> (r: bool)
    ensures
        r == open_bottom(*parent_style, float, border_bottom, padding_bottom),
{
    !establishes_bfc(parent_style, float) && !(border_bottom > Num::zero()) && !(padding_bottom
        > Num::zero()) && parent_style.height.is_auto() && has_no_min_height(
        &parent_style.min_height,
    )
}

/// A box that establishes a formatting context keeps its margins to itself.
pub proof fn lemma_formatting_root_blocks_collapse(
    style: ComputedStyle,
    float: Float,
    edge: Num,
    padding: Num,
)
    requires
        formatting_root(style, float),
    ensures
        !open_top(style, float, edge, padding),
        !open_bottom(style, float, edge, padding),
        !collapses_through(style, float, false, edge, edge, padding, padding, false),
{
}

/// Margin collapse context.
#[derive(Debug, Clone, Copy)]
pub struct MarginCollapseContext {
    /// Pending positive margin.
    pub positive_margin: Num,
    /// Pending negative margin.
    pub negative_margin: Num,
    /// The boxes laid out against this context are formatting roots: their
    /// own margins never collapse through them with their children's.
    pub children_are_formatting_roots: bool,
    /// The owner already adjoined its first in-flow block child's top-margin
    /// chain into its own context. The first in-flow block child takes this
    /// flag and contributes no top margin of its own.
    pub first_child_top_adjoined: bool,
    /// The owner's bottom edge is open: the last in-flow child's bottom
    /// margin stays pending so that the owner can adjoin it to its own.
    pub last_child_collapses_through: bool,
}

impl Default for MarginCollapseContext {
    fn default() -> (r: MarginCollapseContext)
        ensures
            r == MarginCollapseContext::fresh(),
    {
        MarginCollapseContext::new()
    }
}

impl MarginCollapseContext {
    /// Nothing pending and no flag set.
    pub open spec fn fresh() -> MarginCollapseContext {
        MarginCollapseContext {
            positive_margin: Num::nought(),
            negative_margin: Num::nought(),
            children_are_formatting_roots: false,
            first_child_top_adjoined: false,
            last_child_collapses_through: false,
        }
    }

    /// The context with one more margin pending.
    pub open spec fn with(self, margin: Num) -> MarginCollapseContext {
        if margin >= Num::nought() {
            MarginCollapseContext {
                positive_margin: Num::larger(self.positive_margin, margin),
                ..self
            }
        } else {
            MarginCollapseContext {
                negative_margin: Num::smaller(self.negative_margin, margin),
                ..self
            }
        }
    }

    /// The context with the margins of a sequence pending.
    pub open spec fn with_all(self, margins: Seq<Num>) -> MarginCollapseContext
        decreases margins.len(),
    {
        if margins.len() == 0 {
            self
        } else {
            self.with_all(margins.drop_last()).with(margins.last())
        }
    }

    /// The context with nothing pending.
    pub open spec fn emptied(self) -> MarginCollapseContext {
        MarginCollapseContext {
            positive_margin: Num::nought(),
            negative_margin: Num::nought(),
            ..self
        }
    }

    /// The collapsed margin.
    pub open spec fn total(self) -> Num {
        self.positive_margin + self.negative_margin
    }

    /// Create a new margin collapse context.
    pub fn new() -> (r: MarginCollapseContext)
        ensures
            r == MarginCollapseContext::fresh(),
    {
        MarginCollapseContext {
            positive_margin: Num::zero(),
            negative_margin: Num::zero(),
            children_are_formatting_roots: false,
            first_child_top_adjoined: false,
            last_child_collapses_through: false,
        }
    }

    /// Adjoin another context's pending margins into this one.
    pub fn absorb(&mut self, other: &MarginCollapseContext)
        ensures
            *final(self) == old(self).with(other.positive_margin).with(other.negative_margin),
    {
        self.add_margin(other.positive_margin);
        self.add_margin(other.negative_margin);
    }

    /// Add a margin to the collapse context.
    pub fn add_margin(&mut self, margin: Num)
        ensures
            *final(self) == old(self).with(margin),
    {
        if margin >= Num::zero() {
            self.positive_margin = self.positive_margin.max(margin);
        } else {
            self.negative_margin = self.negative_margin.min(margin);
        }
    }

    /// Resolve the collapsed margin.
    pub fn resolve(&self) -> (r: Num)
        ensures
            r == self.total(),
    {
        self.positive_margin + self.negative_margin
    }

    /// Reset the context.
    pub fn reset(&mut self)
        ensures
            *final(self) == old(self).emptied(),
    {
        self.positive_margin = Num::zero();
        self.negative_margin = Num::zero();
    }
}

/// The pending parts of a context stay on their own sides of zero.
pub proof fn lemma_pending_signs(c: MarginCollapseContext, margin: Num)
    requires
        c.positive_margin >= Num::nought(),
        c.negative_margin <= Num::nought(),
        !margin.nan(),
    ensures
        c.with(margin).positive_margin >= Num::nought(),
        c.with(margin).negative_margin <= Num::nought(),
        c.with(margin).positive_margin >= c.positive_margin,
        c.with(margin).negative_margin <= c.negative_margin,
{
    lemma_zero_is_number();
}

} // verus!

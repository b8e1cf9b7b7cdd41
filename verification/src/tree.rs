//! Building boxes, and operations on whole subtrees.
use vstd::prelude::*;
use crate::boxes::{
    self, box_views, BoxType, BoxV, ElementIdentity, IntrinsicWidths, LayoutBox, OwnV, Position,
    PositionOffsets, StackingContext, StickyState,
};
use crate::floats::{Clear, Float};
use crate::geometry::{Dimensions, Rect};
use crate::num::Num;
use crate::style::{ComputedStyle, Overflow};

verus! {

/// A tree that fits a number of levels fits any larger number.
pub proof fn lemma_fits_more(b: BoxV, n: nat, m: nat)
    requires
        b.fits(n),
        n <= m,
    ensures
        b.fits(m),
    decreases n,
{
    assert forall|i: int| 0 <= i < b.children.len() implies (#[trigger] b.children[i]).fits(
        (m - 1) as nat,
    ) by {
        lemma_fits_more(b.children[i], (n - 1) as nat, (m - 1) as nat);
    }
}

/// The shape of a tree is that of its children.
pub proof fn lemma_same_children_fit(a: BoxV, b: BoxV, n: nat)
    requires
        a.fits(n),
        a.children == b.children,
    ensures
        b.fits(n),
{
}

/// A tree of children that fit one level less.
pub proof fn lemma_children_fit(b: BoxV, m: nat)
    requires
        forall|i: int| 0 <= i < b.children.len() ==> (#[trigger] b.children[i]).fits(m),
    ensures
        b.fits(m + 1),
{
}

/// A tree fits the number of its levels.
pub proof fn lemma_fits_height(b: BoxV)
    ensures
        b.fits(b.height()),
    decreases b,
{
    assert forall|i: int| 0 <= i < b.children.len() implies (#[trigger] b.children[i]).fits(
        (b.height() - 1) as nat,
    ) by {
        lemma_fits_height(b.children[i]);
        lemma_tallest(b.children, 0, i);
        lemma_fits_more(b.children[i], b.children[i].height(), (b.height() - 1) as nat);
    }
}

pub proof fn lemma_tallest(s: Seq<BoxV>, k: int, i: int)
    requires
        0 <= k <= i < s.len(),
    ensures
        s[i].height() <= boxes::tallest_from(s, k),
    decreases i - k,
{
    if k < i {
        lemma_tallest(s, k + 1, i);
    }
}

/// A subtree moved by an offset.
#[verifier::opaque]
pub open spec fn shifted(b: BoxV, dx: Num, dy: Num) -> BoxV
    decreases b,
{
    BoxV { children: shifted_all(b.children, dx, dy), ..b.moved(dx, dy) }
}

/// Subtrees moved by an offset.
pub open spec fn shifted_all(s: Seq<BoxV>, dx: Num, dy: Num) -> Seq<BoxV>
    decreases s,
{
    Seq::new(
        s.len(),
        |i: int|
            if 0 <= i < s.len() {
                shifted(s[i], dx, dy)
            } else {
                arbitrary()
            },
    )
}

/// Moving a subtree keeps its shape.
pub proof fn lemma_shifted_fits(b: BoxV, dx: Num, dy: Num, n: nat)
    requires
        b.fits(n),
    ensures
        shifted(b, dx, dy).fits(n),
    decreases n,
{
    reveal(shifted);
    let c = shifted(b, dx, dy);
    assert forall|i: int| 0 <= i < c.children.len() implies (#[trigger] c.children[i]).fits(
        (n - 1) as nat,
    ) by {
        assert(b.children[i].fits((n - 1) as nat));
        lemma_shifted_fits(b.children[i], dx, dy, (n - 1) as nat);
    }
}

/// Moves every box of a subtree.
pub fn translate_subtree(b: &mut LayoutBox, dx: Num, dy: Num)
    ensures
        final(b)@ == shifted(old(b)@, dx, dy),
    decreases *old(b),
{
    proof {
        reveal(shifted);
    }
    b.dimensions.content.x = b.dimensions.content.x + dx;
    b.dimensions.content.y = b.dimensions.content.y + dy;
    translate_all(&mut b.children, dx, dy);
}

/// Moves every box of some subtrees.
pub fn translate_all(v: &mut Vec<LayoutBox>, dx: Num, dy: Num)
    ensures
        box_views(final(v)@) == shifted_all(box_views(old(v)@), dx, dy),
        final(v)@.len() == old(v)@.len(),
    decreases *old(v),
{
    let mut i: usize = 0;
    while i < v.len()
        invariant
            i <= v.len(),
            v@.len() == old(v)@.len(),
            forall|j: int|
                0 <= j < i ==> (#[trigger] v@[j])@ == shifted(old(v)@[j]@, dx, dy),
            forall|j: int| i <= j < v@.len() ==> #[trigger] v@[j] == old(v)@[j],
        decreases v.len() - i,
    {
        translate_subtree(&mut v[i], dx, dy);
        i = i + 1;
    }
    proof {
        reveal(shifted);
        assert(box_views(v@) =~= shifted_all(box_views(old(v)@), dx, dy));
    }
}

/// A subtree with another viewport.
#[verifier::opaque]
pub open spec fn with_viewport(b: BoxV, width: Num, height: Num) -> BoxV
    decreases b,
{
    BoxV {
        viewport: (width, height),
        children: with_viewport_all(b.children, width, height),
        ..b
    }
}

/// Subtrees with another viewport.
pub open spec fn with_viewport_all(s: Seq<BoxV>, width: Num, height: Num) -> Seq<BoxV>
    decreases s,
{
    Seq::new(
        s.len(),
        |i: int|
            if 0 <= i < s.len() {
                with_viewport(s[i], width, height)
            } else {
                arbitrary()
            },
    )
}

fn set_viewport_all(v: &mut Vec<LayoutBox>, width: Num, height: Num)
    ensures
        box_views(final(v)@) == with_viewport_all(box_views(old(v)@), width, height),
    decreases *old(v),
{
    let mut i: usize = 0;
    while i < v.len()
        invariant
            i <= v.len(),
            v@.len() == old(v)@.len(),
            forall|j: int|
                0 <= j < i ==> (#[trigger] v@[j])@ == with_viewport(old(v)@[j]@, width, height),
            forall|j: int| i <= j < v@.len() ==> #[trigger] v@[j] == old(v)@[j],
        decreases v.len() - i,
    {
        v[i].set_viewport(width, height);
        i = i + 1;
    }
    proof {
        reveal(with_viewport);
        assert(box_views(v@) =~= with_viewport_all(box_views(old(v)@), width, height));
    }
}

/// Whether a box scrolls its content.
pub open spec fn scrolls(x: Overflow, y: Overflow) -> bool {
    ||| x == Overflow::Hidden || x == Overflow::Scroll || x == Overflow::Auto
    ||| y == Overflow::Hidden || y == Overflow::Scroll || y == Overflow::Auto
}

/// Whether a box scrolls its content.
pub fn is_scroll_container(x: Overflow, y: Overflow) -> (r: bool)
    ensures
        r == scrolls(x, y),
{
    x == Overflow::Hidden || x == Overflow::Scroll || x == Overflow::Auto || y == Overflow::Hidden
        || y == Overflow::Scroll || y == Overflow::Auto
}

/// The state of a box brought to a scroll position.
pub open spec fn held_state(sticky: Option<StickyState>, scroll_y: Num, container: Rect) -> Option<
    StickyState,
> {
    match sticky {
        Some(state) => Some(state.scrolled(scroll_y, container)),
        None => None,
    }
}

/// The dimensions of a box in a sticky state: one that is held moves to where
/// it is held.
#[verifier::opaque]
pub open spec fn held_at(sticky: Option<StickyState>, d: Dimensions) -> Dimensions {
    let bb = d.border_box();
    let c = d.content;
    match sticky {
        Some(s) => if s.is_stuck && s.stuck_rect is Some {
            Dimensions {
                content: Rect {
                    x: if s.offsets.left is Some || s.offsets.right is Some {
                        c.x + (s.stuck_rect->0.x - bb.x)
                    } else {
                        c.x
                    },
                    y: c.y + (s.stuck_rect->0.y - bb.y),
                    ..c
                },
                ..d
            }
        } else {
            d
        },
        None => d,
    }
}

/// A box brought to a scroll position, its children left alone.
pub open spec fn held(b: BoxV, scroll_y: Num, container: Rect) -> BoxV {
    let sticky = held_state(b.sticky, scroll_y, container);
    BoxV { sticky, dim: held_at(sticky, b.dim), ..b }
}

fn hold_at(sticky: &Option<StickyState>, d: &Dimensions) -> (r: Dimensions)
    ensures
        r == held_at(*sticky, *d),
{
    proof {
        reveal(held_at);
    }
    let mut r = *d;
    match sticky {
        Some(s) => {
            match s.stuck_rect {
                Some(rect) => {
                    if s.is_stuck {
                        let bb = d.border_box();
                        if s.offsets.left.is_some() || s.offsets.right.is_some() {
                            r.content.x = r.content.x + (rect.x - bb.x);
                        }
                        r.content.y = r.content.y + (rect.y - bb.y);
                    }
                },
                None => {},
            }
        },
        None => {},
    }
    r
}

/// The rectangle that holds the sticky children of a box.
pub open spec fn sticky_container(b: BoxV, container: Rect) -> Rect {
    if scrolls(b.own.style.overflow_x, b.own.style.overflow_y) {
        b.dim.content
    } else {
        container
    }
}

/// A subtree brought to a scroll position.
#[verifier::opaque]
pub open spec fn stuck(b: BoxV, scroll_y: Num, container: Rect) -> BoxV
    decreases b,
{
    let h = held(b, scroll_y, container);
    BoxV { children: stuck_all(b.children, scroll_y, sticky_container(h, container)), ..h }
}

/// Subtrees brought to a scroll position.
pub open spec fn stuck_all(s: Seq<BoxV>, scroll_y: Num, container: Rect) -> Seq<BoxV>
    decreases s,
{
    Seq::new(
        s.len(),
        |i: int|
            if 0 <= i < s.len() {
                stuck(s[i], scroll_y, container)
            } else {
                arbitrary()
            },
    )
}

/// A subtree with its sticky boxes back in their places in the flow.
#[verifier::opaque]
pub open spec fn unstuck(b: BoxV) -> BoxV
    decreases b,
{
    match b.sticky {
        Some(s) => {
            let bb = b.dim.border_box();
            let m = b.moved(s.original_rect.x - bb.x, s.original_rect.y - bb.y);
            BoxV {
                sticky: Some(StickyState { is_stuck: false, stuck_rect: None, ..s }),
                children: unstuck_all(b.children),
                ..m
            }
        },
        None => BoxV { children: unstuck_all(b.children), ..b },
    }
}

/// Subtrees with their sticky boxes back in their places in the flow.
pub open spec fn unstuck_all(s: Seq<BoxV>) -> Seq<BoxV>
    decreases s,
{
    Seq::new(
        s.len(),
        |i: int|
            if 0 <= i < s.len() {
                unstuck(s[i])
            } else {
                arbitrary()
            },
    )
}

fn update_sticky_all(v: &mut Vec<LayoutBox>, scroll_x: Num, scroll_y: Num, container: Rect)
    ensures
        box_views(final(v)@) == stuck_all(box_views(old(v)@), scroll_y, container),
    decreases *old(v),
{
    let mut i: usize = 0;
    while i < v.len()
        invariant
            i <= v.len(),
            v@.len() == old(v)@.len(),
            forall|j: int|
                0 <= j < i ==> (#[trigger] v@[j])@ == stuck(old(v)@[j]@, scroll_y, container),
            forall|j: int| i <= j < v@.len() ==> #[trigger] v@[j] == old(v)@[j],
        decreases v.len() - i,
    {
        v[i].update_sticky_positions(scroll_x, scroll_y, container);
        i = i + 1;
    }
    proof {
        reveal(stuck);
        assert(box_views(v@) =~= stuck_all(box_views(old(v)@), scroll_y, container));
    }
}

fn reset_sticky_all(v: &mut Vec<LayoutBox>)
    ensures
        box_views(final(v)@) == unstuck_all(box_views(old(v)@)),
    decreases *old(v),
{
    let mut i: usize = 0;
    while i < v.len()
        invariant
            i <= v.len(),
            v@.len() == old(v)@.len(),
            forall|j: int| 0 <= j < i ==> (#[trigger] v@[j])@ == unstuck(old(v)@[j]@),
            forall|j: int| i <= j < v@.len() ==> #[trigger] v@[j] == old(v)@[j],
        decreases v.len() - i,
    {
        v[i].reset_sticky_positions();
        i = i + 1;
    }
    proof {
        reveal(unstuck);
        assert(box_views(v@) =~= unstuck_all(box_views(old(v)@)));
    }
}

/// Whether two trees differ at most in where their sticky boxes are, and in
/// whether these are held: sizes, edges and every other box are as they were.
pub open spec fn only_sticky_moved(a: BoxV, b: BoxV) -> bool
    decreases a,
{
    &&& a.own == b.own && a.viewport == b.viewport && a.lines == b.lines && a.flow == b.flow
    &&& a.dim == (Dimensions {
        content: Rect { x: a.dim.content.x, y: a.dim.content.y, ..b.dim.content },
        ..b.dim
    })
    &&& match a.sticky {
        Some(s) => b.sticky is Some && b.sticky->0.original_rect == s.original_rect
            && b.sticky->0.offsets == s.offsets,
        None => b.sticky is None && a.dim == b.dim,
    }
    &&& a.children.len() == b.children.len()
    &&& forall|i: int|
        0 <= i < a.children.len() ==> only_sticky_moved(#[trigger] a.children[i], b.children[i])
}

/// Whether every sticky box of a tree is in its place in the flow.
pub open spec fn at_home(b: BoxV) -> bool
    decreases b,
{
    &&& b.sticky matches Some(s) ==> {
        &&& !s.is_stuck && s.stuck_rect is None
        &&& b.dim.border_box().x.same(s.original_rect.x)
        &&& b.dim.border_box().y.same(s.original_rect.y)
    }
    &&& forall|i: int| 0 <= i < b.children.len() ==> at_home(#[trigger] b.children[i])
}

/// Whether a box goes back along one axis without rounding: content at `c`,
/// behind `padding` and `border`, to a border edge at `home`.
pub open spec fn returns_exactly(c: Num, padding: Num, border: Num, home: Num) -> bool {
    let edge = c - padding - border;
    let back = c + (home - edge);
    &&& Num::subtracts(c, padding) && Num::subtracts(c - padding, border)
    &&& Num::subtracts(home, edge) && Num::adds(c, home - edge)
    &&& Num::subtracts(back, padding) && Num::subtracts(back - padding, border)
}

/// Whether every sticky box of a tree goes back without rounding.
pub open spec fn all_return_exactly(b: BoxV) -> bool
    decreases b,
{
    let d = b.dim;
    &&& b.sticky matches Some(s) ==> {
        &&& returns_exactly(d.content.x, d.padding.left, d.border.left, s.original_rect.x)
        &&& returns_exactly(d.content.y, d.padding.top, d.border.top, s.original_rect.y)
    }
    &&& forall|i: int| 0 <= i < b.children.len() ==> all_return_exactly(#[trigger] b.children[i])
}

/// A reset releases every sticky box of the tree and returns it to its place in
/// the flow, where that takes no rounding.
pub proof fn lemma_reset_brings_home(b: BoxV)
    requires
        all_return_exactly(b),
    ensures
        at_home(unstuck(b)),
    decreases b,
{
    reveal(unstuck);
    let c = unstuck(b);
    match b.sticky {
        Some(s) => {
            let home = s.original_rect;
            crate::num::lemma_rank_is_value(c.dim.border_box().x, home.x);
            crate::num::lemma_rank_is_value(c.dim.border_box().y, home.y);
        },
        None => {},
    }
    assert forall|i: int| 0 <= i < c.children.len() implies at_home(#[trigger] c.children[i]) by {
        lemma_reset_brings_home(b.children[i]);
    }
}

/// A reset releases every sticky box of the tree and moves nothing else.
pub proof fn lemma_reset_moves_sticky_boxes_only(b: BoxV)
    ensures
        only_sticky_moved(b, unstuck(b)),
        unstuck(b).sticky is Some ==> !unstuck(b).sticky->0.is_stuck
            && unstuck(b).sticky->0.stuck_rect is None,
    decreases b,
{
    reveal(unstuck);
    let c = unstuck(b);
    assert forall|i: int| 0 <= i < b.children.len() implies only_sticky_moved(
        #[trigger] b.children[i],
        c.children[i],
    ) by {
        lemma_reset_moves_sticky_boxes_only(b.children[i]);
    }
}

/// Scrolling moves sticky boxes and nothing else.
pub proof fn lemma_scrolling_moves_sticky_boxes_only(b: BoxV, scroll_y: Num, container: Rect)
    ensures
        only_sticky_moved(b, stuck(b, scroll_y, container)),
    decreases b,
{
    reveal(stuck);
    reveal(held_at);
    let c = stuck(b, scroll_y, container);
    let inner = sticky_container(held(b, scroll_y, container), container);
    assert forall|i: int| 0 <= i < b.children.len() implies only_sticky_moved(
        #[trigger] b.children[i],
        c.children[i],
    ) by {
        lemma_scrolling_moves_sticky_boxes_only(b.children[i], scroll_y, inner);
    }
}

/// What two changes in a row leave alone, both together leave alone: any
/// number of scrolls and resets moves sticky boxes only.
pub proof fn lemma_sticky_changes_chain(a: BoxV, b: BoxV, c: BoxV)
    requires
        only_sticky_moved(a, b),
        only_sticky_moved(b, c),
    ensures
        only_sticky_moved(a, c),
    decreases a,
{
    assert forall|i: int| 0 <= i < a.children.len() implies only_sticky_moved(
        #[trigger] a.children[i],
        c.children[i],
    ) by {
        assert(only_sticky_moved(a.children[i], b.children[i]));
        assert(only_sticky_moved(b.children[i], c.children[i]));
        lemma_sticky_changes_chain(a.children[i], b.children[i], c.children[i]);
    }
}

impl BoxV {
    /// A box as it is made: without children, position or size.
    pub open spec fn is_new(self, box_type: BoxType, style: ComputedStyle) -> bool {
        &&& self.own == (OwnV {
            box_type,
            style,
            position: Position::Static,
            offsets: PositionOffsets::unset(),
            float: Float::Unset,
            clear: Clear::Unset,
            z_index: 0,
            stacking_context: None,
            containing_block_index: None,
            element_id: None,
            identity: None,
            link_href: None,
            focused_caret: None,
            node_id: None,
            intrinsic: IntrinsicWidths::none(),
        })
        &&& self.dim == Dimensions::around(Rect::empty())
        &&& self.viewport == (Num::nought(), Num::nought())
        &&& self.sticky is None
        &&& self.lines is None
        &&& self.flow is None
        &&& self.children.len() == 0
    }
}

impl LayoutBox {
    /// Create a new layout box.
    pub fn new(box_type: BoxType, style: ComputedStyle) -> (r: LayoutBox)
        ensures
            r@.is_new(box_type, style),
            r.children@.len() == 0,
    {
        LayoutBox {
            box_type,
            dimensions: Dimensions::default(),
            style,
            children: Vec::new(),
            position: Position::Static,
            offsets: PositionOffsets::default(),
            float: Float::Unset,
            clear: Clear::Unset,
            z_index: 0,
            stacking_context: None,
            containing_block_index: None,
            viewport: (Num::zero(), Num::zero()),
            sticky_state: None,
            element_id: None,
            identity: None,
            link_href: None,
            focused_caret: None,
            node_id: None,
            text_lines: None,
            text_flow_first_offset: None,
            intrinsic: IntrinsicWidths {
                max_content: Num::zero(),
                min_content: Num::zero(),
                own_max_content: Num::zero(),
                own_min_content: Num::zero(),
                padding_border: Num::zero(),
            },
        }
    }

    /// Create a new layout box with positioning. A positioned box has a
    /// stacking context record, which does not create a context yet.
    pub fn with_position(box_type: BoxType, style: ComputedStyle, position: Position) -> (r:
        LayoutBox)
        ensures
            r.position == position,
            position == Position::Static ==> r@.is_new(box_type, style),
            position != Position::Static ==> r.stacking_context is Some
                && r.stacking_context->0.z_index == 0 && !r.stacking_context->0.creates_context
                && r.stacking_context->0.positioned_children@.len() == 0,
            (BoxV {
                own: OwnV { position: Position::Static, stacking_context: None, ..r@.own },
                ..r@
            }).is_new(box_type, style),
    {
        let mut b = LayoutBox::new(box_type, style);
        b.position = position;
        if position != Position::Static {
            b.stacking_context = Some(StackingContext::default());
        }
        b
    }

    /// Create a new layout box with float.
    pub fn with_float(box_type: BoxType, style: ComputedStyle, float: Float) -> (r: LayoutBox)
        ensures
            r.float == float,
            (BoxV { own: OwnV { float: Float::Unset, ..r@.own }, ..r@ }).is_new(box_type, style),
    {
        let mut b = LayoutBox::new(box_type, style);
        b.float = float;
        b
    }

    /// Set z-index and create stacking context if needed.
    pub fn set_z_index(&mut self, z_index: i32)
        ensures
            final(self)@ == (BoxV {
                own: OwnV {
                    z_index,
                    stacking_context: final(self).stacking_context,
                    ..old(self)@.own
                },
                ..old(self)@
            }),
            old(self).position == Position::Static ==> final(self).stacking_context == old(self).stacking_context,
            old(self).position != Position::Static ==> final(self).stacking_context is Some
                && final(self).stacking_context->0.z_index == z_index && final(self).stacking_context->0.creates_context && final(self).stacking_context->0.positioned_children@ == (match old(self).stacking_context {
                Some(c) => c.positioned_children@,
                None => Seq::<usize>::empty(),
            }),
    {
        self.z_index = z_index;
        if self.position != Position::Static {
            let mut ctx = match self.stacking_context.take() {
                Some(c) => c,
                None => StackingContext::default(),
            };
            ctx.z_index = z_index;
            ctx.creates_context = true;
            self.stacking_context = Some(ctx);
        }
    }

    /// Set the element ID for intrinsic sizing.
    pub fn set_element_id(&mut self, id: usize)
        ensures
            final(self)@ == (BoxV {
                own: OwnV { element_id: Some(id), ..old(self)@.own },
                ..old(self)@
            }),
    {
        self.element_id = Some(id);
    }

    /// Get the element ID if set.
    pub fn element_id(&self) -> (r: Option<usize>)
        ensures
            r == self.element_id,
    {
        self.element_id
    }

    /// Attach the originating element's identity, and its id with it.
    pub fn set_identity(&mut self, identity: ElementIdentity)
        ensures
            final(self)@ == (BoxV {
                own: OwnV {
                    element_id: Some(identity.element_id),
                    identity: Some(Box::new(identity)),
                    ..old(self)@.own
                },
                ..old(self)@
            }),
    {
        self.element_id = Some(identity.element_id);
        self.identity = Some(Box::new(identity));
    }

    /// Get the originating element's identity, if this box came from an element.
    pub fn identity(&self) -> (r: Option<&ElementIdentity>)
        ensures
            match self.identity {
                Some(id) => r == Some(&*id),
                None => r is None,
            },
    {
        match &self.identity {
            Some(id) => Some(&**id),
            None => None,
        }
    }

    /// Set position offsets.
    pub fn set_offsets(
        &mut self,
        top: Option<Num>,
        right: Option<Num>,
        bottom: Option<Num>,
        left: Option<Num>,
    )
        ensures
            final(self)@ == (BoxV {
                own: OwnV {
                    offsets: PositionOffsets { top, right, bottom, left },
                    ..old(self)@.own
                },
                ..old(self)@
            }),
    {
        self.offsets = PositionOffsets { top, right, bottom, left };
    }

    /// Set viewport dimensions for this box and all children.
    pub fn set_viewport(&mut self, width: Num, height: Num)
        ensures
            final(self)@ == with_viewport(old(self)@, width, height),
        decreases *old(self),
    {
        proof {
            reveal(with_viewport);
        }
        self.viewport = (width, height);
        set_viewport_all(&mut self.children, width, height);
    }

    /// Update sticky positions based on scroll state, in the whole subtree.
    pub fn update_sticky_positions(&mut self, scroll_x: Num, scroll_y: Num, container_rect: Rect)
        ensures
            final(self)@ == stuck(old(self)@, scroll_y, container_rect),
        decreases *old(self),
    {
        proof {
            reveal(stuck);
        }
        let sticky: Option<StickyState> = match self.sticky_state {
            Some(state) => {
                let mut s = state;
                s.update(scroll_y, container_rect);
                Some(s)
            },
            None => None,
        };
        self.dimensions = hold_at(&sticky, &self.dimensions);
        self.sticky_state = sticky;
        let child_container = if is_scroll_container(
            self.style.overflow_x,
            self.style.overflow_y,
        ) {
            self.dimensions.content
        } else {
            container_rect
        };
        update_sticky_all(&mut self.children, scroll_x, scroll_y, child_container);
    }

    /// Reset sticky positions to their original normal flow positions.
    pub fn reset_sticky_positions(&mut self)
        ensures
            final(self)@ == unstuck(old(self)@),
        decreases *old(self),
    {
        proof {
            reveal(unstuck);
        }
        match self.sticky_state {
            Some(state) => {
                let bb = self.dimensions.border_box();
                let dx = state.original_rect.x - bb.x;
                let dy = state.original_rect.y - bb.y;
                self.dimensions.content.x = self.dimensions.content.x + dx;
                self.dimensions.content.y = self.dimensions.content.y + dy;
                let mut s = state;
                s.is_stuck = false;
                s.stuck_rect = None;
                self.sticky_state = Some(s);
            },
            None => {},
        }
        reset_sticky_all(&mut self.children);
    }

    /// Check if a point is within the border box.
    pub fn contains_point(&self, x: Num, y: Num) -> (r: bool)
        ensures
            r == self.dimensions.border_box().contains(x, y),
    {
        self.dimensions.border_box().contains(x, y)
    }
}

} // verus!

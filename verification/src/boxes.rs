//! The layout tree: boxes, their model, and what moves or marks whole subtrees.
use vstd::prelude::*;
use crate::floats::{Clear, Float};
use crate::geometry::{Dimensions, Rect};
use crate::num::Num;
use crate::sizing::FormControlType;
use crate::style::ComputedStyle;
use crate::text::{LineV, TextLine};

verus! {

/// Errors that can occur in layout.
#[derive(Debug)]
pub enum LayoutError {
    LayoutFailed(String),
    TextShapingError(String),
}

impl LayoutError {
    /// What an error says.
    pub open spec fn says(self) -> Seq<char> {
        match self {
            LayoutError::LayoutFailed(why) => "Layout failed: "@ + why@,
            LayoutError::TextShapingError(why) => "Text shaping error: "@ + why@,
        }
    }

    /// The message of an error.
    pub fn message(&self) -> (r: String)
        ensures
            r@ == self.says(),
    {
        let (kind, why) = match self {
            LayoutError::LayoutFailed(why) => ("Layout failed: ", why),
            LayoutError::TextShapingError(why) => ("Text shaping error: ", why),
        };
        let mut out: String = kind.to_owned();
        out.append(why.as_str());
        out
    }
}

/// CSS position property values.
#[derive(Debug, Clone, Copy, PartialEq, Eq, Structural)]
pub enum Position {
    Static,
    Relative,
    Absolute,
    Fixed,
    Sticky,
}

impl Default for Position {
    fn default() -> (r: Position)
        ensures
            r == Position::Static,
    {
        Position::Static
    }
}

impl Position {
    /// Whether the box is taken out of the flow.
    #[verifier::allow_in_spec]
    pub fn is_out_of_flow(&self) -> bool
        returns
            *self == Position::Absolute || *self == Position::Fixed,
    {
        *self == Position::Absolute || *self == Position::Fixed
    }
}

/// Offset values for positioned elements.
#[derive(Debug, Clone, Copy)]
pub struct PositionOffsets {
    pub top: Option<Num>,
    pub right: Option<Num>,
    pub bottom: Option<Num>,
    pub left: Option<Num>,
}

impl Default for PositionOffsets {
    fn default() -> (r: PositionOffsets)
        ensures
            r == PositionOffsets::unset(),
    {
        PositionOffsets { top: None, right: None, bottom: None, left: None }
    }
}

impl PositionOffsets {
    /// No offsets.
    pub open spec fn unset() -> PositionOffsets {
        PositionOffsets { top: None, right: None, bottom: None, left: None }
    }
}

/// Type of layout box.
#[derive(Debug, Clone)]
pub enum BoxType {
    /// Block-level box.
    Block,
    /// Inline-level box.
    Inline,
    /// Anonymous block (for grouping inline content).
    AnonymousBlock,
    /// Text run.
    Text(String),
    /// Replaced element (image).
    Image { url: String, natural_width: Num, natural_height: Num },
    /// Form control (input, button, textarea, select).
    FormControl(FormControlType),
    /// A forced line break: closes the current line box in its parent's
    /// inline flow, occupies no space, paints nothing.
    LineBreak,
}

/// Stacking context for z-index ordering.
#[derive(Debug, Clone)]
pub struct StackingContext {
    /// Z-index value (0 for auto).
    pub z_index: i32,
    /// Whether this creates a new stacking context.
    pub creates_context: bool,
    /// Positioned children in this stacking context.
    pub positioned_children: Vec<usize>,
}

impl Default for StackingContext {
    fn default() -> (r: StackingContext)
        ensures
            r.z_index == 0,
            !r.creates_context,
            r.positioned_children@.len() == 0,
    {
        StackingContext { z_index: 0, creates_context: false, positioned_children: Vec::new() }
    }
}

/// Identity of the DOM element a layout box was generated from. Anonymous
/// boxes and text boxes have none.
#[derive(Debug, Clone, PartialEq, Eq)]
pub struct ElementIdentity {
    /// Document-order index of the originating element.
    pub element_id: usize,
    /// Lowercased tag name, e.g. `div`.
    pub tag: String,
    /// Selector of the element.
    pub selector: String,
}

/// The state of a `position: sticky` box.
#[derive(Debug, Clone, Copy)]
pub struct StickyState {
    /// The border box in normal flow.
    pub original_rect: Rect,
    /// The distances kept from the edges of the scroll container.
    pub offsets: PositionOffsets,
    /// Whether the box is held away from its place in the flow.
    pub is_stuck: bool,
    /// Where it is held.
    pub stuck_rect: Option<Rect>,
}

impl StickyState {
    /// The state after scrolling to `scroll_y`: a box whose top would come
    /// nearer than its top offset is held there, inside the container.
    pub open spec fn scrolled(self, scroll_y: Num, container: Rect) -> StickyState {
        match self.offsets.top {
            Some(top) => if scroll_y > self.original_rect.y - top {
                StickyState {
                    is_stuck: true,
                    stuck_rect: Some(
                        Rect {
                            y: Num::larger(
                                Num::smaller(
                                    scroll_y + top,
                                    container.bottom() - self.original_rect.height,
                                ),
                                self.original_rect.y,
                            ),
                            ..self.original_rect
                        },
                    ),
                    ..self
                }
            } else {
                StickyState { is_stuck: false, stuck_rect: None, ..self }
            },
            None => StickyState { is_stuck: false, stuck_rect: None, ..self },
        }
    }

    /// A sticky box in its place in the flow.
    pub fn new(original_rect: Rect, offsets: PositionOffsets) -> (r: StickyState)
        ensures
            r == (StickyState { original_rect, offsets, is_stuck: false, stuck_rect: None }),
    {
        StickyState { original_rect, offsets, is_stuck: false, stuck_rect: None }
    }

    /// Brings the state to a scroll position.
    pub fn update(&mut self, scroll_y: Num, container: Rect)
        ensures
            *final(self) == old(self).scrolled(scroll_y, container),
    {
        self.is_stuck = false;
        self.stuck_rect = None;
        match self.offsets.top {
            Some(top) => {
                if scroll_y > self.original_rect.y - top {
                    let r = self.original_rect;
                    let y = (scroll_y + top).min(container.bottom() - r.height).max(r.y);
                    self.is_stuck = true;
                    self.stuck_rect = Some(Rect { x: r.x, y, width: r.width, height: r.height });
                }
            },
            None => {},
        }
    }
}

/// Border-box widths of a box that its content prefers, as the intrinsic
/// sizing of its contents gives them.
#[derive(Debug, Clone, Copy)]
pub struct IntrinsicWidths {
    /// The widest its content can use, and the least it needs.
    pub max_content: Num,
    pub min_content: Num,
    /// The same for the box on its own, whatever it contributes to a parent.
    pub own_max_content: Num,
    pub own_min_content: Num,
    /// Its horizontal padding and border.
    pub padding_border: Num,
}

impl IntrinsicWidths {
    /// Widths of an empty box.
    pub open spec fn none() -> IntrinsicWidths {
        IntrinsicWidths {
            max_content: Num::nought(),
            min_content: Num::nought(),
            own_max_content: Num::nought(),
            own_min_content: Num::nought(),
            padding_border: Num::nought(),
        }
    }
}

/// A layout box in the layout tree.
#[derive(Debug)]
pub struct LayoutBox {
    /// Box type.
    pub box_type: BoxType,
    /// Computed dimensions.
    pub dimensions: Dimensions,
    /// Computed style.
    pub style: ComputedStyle,
    /// Child boxes.
    pub children: Vec<LayoutBox>,
    /// CSS position property.
    pub position: Position,
    /// Position offsets (top, right, bottom, left).
    pub offsets: PositionOffsets,
    /// Float property.
    pub float: Float,
    /// Clear property.
    pub clear: Clear,
    /// Z-index for stacking.
    pub z_index: i32,
    /// Whether this box creates a stacking context.
    pub stacking_context: Option<StackingContext>,
    /// Reference to containing block (for positioned elements).
    pub containing_block_index: Option<usize>,
    /// Viewport dimensions for resolving vh/vw units.
    pub viewport: (Num, Num),
    /// Sticky positioning state (for position: sticky elements).
    pub sticky_state: Option<StickyState>,
    /// Optional element ID for intrinsic sizing.
    pub element_id: Option<usize>,
    /// Identity of the originating DOM element.
    pub identity: Option<Box<ElementIdentity>>,
    /// Resolved `href` when this box came from an `<a href>`.
    pub link_href: Option<String>,
    /// Caret offset when this box is the focused text control.
    pub focused_caret: Option<usize>,
    /// Raw id of the originating DOM node, when there is one.
    pub node_id: Option<usize>,
    /// Wrapped lines for text boxes (`None` = single-run text, no wrap).
    pub text_lines: Option<Vec<TextLine>>,
    /// Offset at which the first line of a text box starts in its line box,
    /// when the text was laid out mid-line.
    pub text_flow_first_offset: Option<Num>,
    /// Preferred widths of the box.
    pub intrinsic: IntrinsicWidths,
}

/// What layout reads of a box and never changes.
pub struct OwnV {
    pub box_type: BoxType,
    pub style: ComputedStyle,
    pub position: Position,
    pub offsets: PositionOffsets,
    pub float: Float,
    pub clear: Clear,
    pub z_index: i32,
    pub stacking_context: Option<StackingContext>,
    pub containing_block_index: Option<usize>,
    pub element_id: Option<usize>,
    pub identity: Option<Box<ElementIdentity>>,
    pub link_href: Option<String>,
    pub focused_caret: Option<usize>,
    pub node_id: Option<usize>,
    pub intrinsic: IntrinsicWidths,
}

/// The model of a layout box.
#[verifier::ext_equal]
pub struct BoxV {
    pub own: OwnV,
    pub dim: Dimensions,
    pub viewport: (Num, Num),
    pub sticky: Option<StickyState>,
    pub lines: Option<Seq<LineV>>,
    pub flow: Option<Num>,
    pub children: Seq<BoxV>,
}

/// The models of some lines.
pub open spec fn line_views(lines: Seq<TextLine>) -> Seq<LineV> {
    Seq::new(lines.len(), |i: int| lines[i]@)
}

/// The models of some boxes.
pub open spec fn box_views(boxes: Seq<LayoutBox>) -> Seq<BoxV>
    decreases boxes,
{
    Seq::new(
        boxes.len(),
        |i: int|
            if 0 <= i < boxes.len() {
                boxes[i].view()
            } else {
                arbitrary()
            },
    )
}

impl LayoutBox {
    /// The fixed part of the model.
    pub open spec fn own(&self) -> OwnV {
        OwnV {
            box_type: self.box_type,
            style: self.style,
            position: self.position,
            offsets: self.offsets,
            float: self.float,
            clear: self.clear,
            z_index: self.z_index,
            stacking_context: self.stacking_context,
            containing_block_index: self.containing_block_index,
            element_id: self.element_id,
            identity: self.identity,
            link_href: self.link_href,
            focused_caret: self.focused_caret,
            node_id: self.node_id,
            intrinsic: self.intrinsic,
        }
    }

    /// The model of the box.
    pub open spec fn view(&self) -> BoxV
        decreases self,
    {
        BoxV {
            own: self.own(),
            dim: self.dimensions,
            viewport: self.viewport,
            sticky: self.sticky_state,
            lines: match self.text_lines {
                Some(lines) => Some(line_views(lines@)),
                None => None,
            },
            flow: self.text_flow_first_offset,
            children: box_views(self.children@),
        }
    }
}

/// Replacing one box replaces its model.
pub proof fn lemma_views_update(boxes: Seq<LayoutBox>, i: int, b: LayoutBox)
    requires
        0 <= i < boxes.len(),
    ensures
        box_views(boxes.update(i, b)) == box_views(boxes).update(i, b@),
{
    assert(box_views(boxes.update(i, b)) =~= box_views(boxes).update(i, b@));
}

/// The model at a place is the model of the box there.
pub proof fn lemma_view_at(boxes: Seq<LayoutBox>, i: int)
    requires
        0 <= i < boxes.len(),
    ensures
        box_views(boxes)[i] == boxes[i]@,
        box_views(boxes).len() == boxes.len(),
{
}

impl BoxV {
    /// Whether the box is an inline box, a block, text or another kind.
    pub open spec fn is_text(self) -> bool {
        self.own.box_type is Text
    }

    pub open spec fn is_inline(self) -> bool {
        self.own.box_type is Inline
    }

    pub open spec fn is_control(self) -> bool {
        self.own.box_type is FormControl
    }

    pub open spec fn is_image(self) -> bool {
        self.own.box_type is Image
    }

    pub open spec fn is_block(self) -> bool {
        self.own.box_type is Block || self.own.box_type is AnonymousBlock
    }

    /// The box with other dimensions.
    pub open spec fn with_dim(self, dim: Dimensions) -> BoxV {
        BoxV { dim, ..self }
    }

    /// The box with its content moved by an offset, its children left alone.
    pub open spec fn moved(self, dx: Num, dy: Num) -> BoxV {
        BoxV {
            dim: Dimensions {
                content: Rect {
                    x: self.dim.content.x + dx,
                    y: self.dim.content.y + dy,
                    ..self.dim.content
                },
                ..self.dim
            },
            ..self
        }
    }

    /// Whether the tree has at most `n` levels.
    pub open spec fn fits(self, n: nat) -> bool
        decreases n,
    {
        n > 0 && forall|i: int|
            0 <= i < self.children.len() ==> (#[trigger] self.children[i]).fits((n - 1) as nat)
    }

    /// The number of levels of the tree.
    pub open spec fn height(self) -> nat
        decreases self,
    {
        1 + tallest(self.children)
    }
}

/// The number of levels of the tallest of some trees.
pub open spec fn tallest(s: Seq<BoxV>) -> nat
    decreases s,
{
    tallest_from(s, 0)
}

/// The number of levels of the tallest tree from `i` on.
pub open spec fn tallest_from(s: Seq<BoxV>, i: int) -> nat
    decreases s, s.len() - i,
{
    if 0 <= i < s.len() {
        let h = s[i].height();
        let t = tallest_from(s, i + 1);
        if h > t {
            h
        } else {
            t
        }
    } else {
        0
    }
}

} // verus!

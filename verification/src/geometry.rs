//! Rectangles, edge sizes and the nested boxes of the box model.
use vstd::prelude::*;
use crate::num::Num;

verus! {

/// A point, or a pair of factors for the two axes.
#[derive(Debug, Clone, Copy)]
pub struct Point {
    pub x: Num,
    pub y: Num,
}

/// A 2D rectangle.
#[derive(Debug, Clone, Copy)]
pub struct Rect {
    pub x: Num,
    pub y: Num,
    pub width: Num,
    pub height: Num,
}

impl Default for Rect {
    fn default() -> (r: Rect)
        ensures
            r == Rect::empty(),
    {
        Rect::zero()
    }
}

impl Rect {
    /// The rectangle of no size at the origin.
    pub open spec fn empty() -> Rect {
        Rect { x: Num::nought(), y: Num::nought(), width: Num::nought(), height: Num::nought() }
    }

    /// A rectangle of the given origin and size.
    pub fn new(x: Num, y: Num, width: Num, height: Num) -> (r: Rect)
        ensures
            r == (Rect { x, y, width, height }),
    {
        Rect { x, y, width, height }
    }

    /// The rectangle of no size at the origin.
    pub fn zero() -> (r: Rect)
        ensures
            r == Rect::empty(),
    {
        Rect { x: Num::zero(), y: Num::zero(), width: Num::zero(), height: Num::zero() }
    }

    /// The right edge.
    #[verifier::allow_in_spec]
    pub fn right(&self) -> Num
        returns
            self.x + self.width,
    {
        self.x + self.width
    }

    /// The bottom edge.
    #[verifier::allow_in_spec]
    pub fn bottom(&self) -> Num
        returns
            self.y + self.height,
    {
        self.y + self.height
    }

    /// Whether a point is inside: the left and top edges count, the right and
    /// bottom edges do not.
    #[verifier::allow_in_spec]
    pub fn contains(&self, x: Num, y: Num) -> bool
        returns
            x >= self.x && x < self.right() && y >= self.y && y < self.bottom(),
    {
        x >= self.x && x < self.right() && y >= self.y && y < self.bottom()
    }

    /// Whether the interiors of two rectangles meet.
    pub open spec fn overlaps(self, o: Rect) -> bool {
        self.x < o.right() && self.right() > o.x && self.y < o.bottom() && self.bottom() > o.y
    }
}

/// Check if two rectangles overlap.
pub fn rects_overlap(a: &Rect, b: &Rect) -> (r: bool)
    ensures
        r == a.overlaps(*b),
{
    a.x < b.right() && a.right() > b.x && a.y < b.bottom() && a.bottom() > b.y
}

/// Overlap does not depend on the order of the rectangles.
pub proof fn lemma_overlap_symmetric(a: Rect, b: Rect)
    ensures
        a.overlaps(b) == b.overlaps(a),
{
}

/// Two rectangles that hold one point overlap.
pub proof fn lemma_shared_point_overlaps(a: Rect, b: Rect, x: Num, y: Num)
    requires
        a.contains(x, y),
        b.contains(x, y),
    ensures
        a.overlaps(b),
{
}

/// Edge sizes (margin, padding, border).
#[derive(Debug, Clone, Copy)]
pub struct EdgeSizes {
    pub top: Num,
    pub right: Num,
    pub bottom: Num,
    pub left: Num,
}

impl Default for EdgeSizes {
    fn default() -> (r: EdgeSizes)
        ensures
            r == EdgeSizes::empty(),
    {
        EdgeSizes { top: Num::zero(), right: Num::zero(), bottom: Num::zero(), left: Num::zero() }
    }
}

impl EdgeSizes {
    /// No edges.
    pub open spec fn empty() -> EdgeSizes {
        EdgeSizes {
            top: Num::nought(),
            right: Num::nought(),
            bottom: Num::nought(),
            left: Num::nought(),
        }
    }

    /// Left and right together.
    #[verifier::allow_in_spec]
    pub fn horizontal(&self) -> Num
        returns
            self.left + self.right,
    {
        self.left + self.right
    }

    /// Top and bottom together.
    #[verifier::allow_in_spec]
    pub fn vertical(&self) -> Num
        returns
            self.top + self.bottom,
    {
        self.top + self.bottom
    }
}

/// Box dimensions including content, padding, border, and margin.
#[derive(Debug, Clone, Copy)]
pub struct Dimensions {
    /// Content area.
    pub content: Rect,
    /// Padding.
    pub padding: EdgeSizes,
    /// Border.
    pub border: EdgeSizes,
    /// Margin.
    pub margin: EdgeSizes,
}

impl Default for Dimensions {
    fn default() -> (r: Dimensions)
        ensures
            r == Dimensions::around(Rect::empty()),
    {
        Dimensions::of_content(Rect::zero())
    }
}

impl Dimensions {
    /// A content box without edges.
    pub open spec fn around(content: Rect) -> Dimensions {
        Dimensions {
            content,
            padding: EdgeSizes::empty(),
            border: EdgeSizes::empty(),
            margin: EdgeSizes::empty(),
        }
    }

    /// A content box without edges.
    pub fn of_content(content: Rect) -> (r: Dimensions)
        ensures
            r == Dimensions::around(content),
    {
        Dimensions {
            content,
            padding: EdgeSizes::default(),
            border: EdgeSizes::default(),
            margin: EdgeSizes::default(),
        }
    }

    /// Get the padding box (content + padding).
    #[verifier::allow_in_spec]
    pub fn padding_box(&self) -> Rect
        returns
            (Rect {
                x: self.content.x - self.padding.left,
                y: self.content.y - self.padding.top,
                width: self.content.width + self.padding.horizontal(),
                height: self.content.height + self.padding.vertical(),
            }),
    {
        Rect {
            x: self.content.x - self.padding.left,
            y: self.content.y - self.padding.top,
            width: self.content.width + self.padding.horizontal(),
            height: self.content.height + self.padding.vertical(),
        }
    }

    /// Get the border box (content + padding + border).
    #[verifier::allow_in_spec]
    pub fn border_box(&self) -> Rect
        returns
            (Rect {
                x: self.padding_box().x - self.border.left,
                y: self.padding_box().y - self.border.top,
                width: self.padding_box().width + self.border.horizontal(),
                height: self.padding_box().height + self.border.vertical(),
            }),
    {
        let pb = self.padding_box();
        Rect {
            x: pb.x - self.border.left,
            y: pb.y - self.border.top,
            width: pb.width + self.border.horizontal(),
            height: pb.height + self.border.vertical(),
        }
    }

    /// Get the margin box (content + padding + border + margin).
    #[verifier::allow_in_spec]
    pub fn margin_box(&self) -> Rect
        returns
            (Rect {
                x: self.border_box().x - self.margin.left,
                y: self.border_box().y - self.margin.top,
                width: self.border_box().width + self.margin.horizontal(),
                height: self.border_box().height + self.margin.vertical(),
            }),
    {
        let bb = self.border_box();
        Rect {
            x: bb.x - self.margin.left,
            y: bb.y - self.margin.top,
            width: bb.width + self.margin.horizontal(),
            height: bb.height + self.margin.vertical(),
        }
    }
}

} // verus!

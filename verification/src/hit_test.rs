//! Hit testing: which box lies under a point.
//!
//! Children are tested from the topmost down, in the reverse of the order in
//! which they paint. The box that is hit answers with the path to the root.
use vstd::prelude::*;
use crate::boxes::{self, BoxType, BoxV, LayoutBox, Position};
use crate::geometry::{Dimensions, Rect};
use crate::num::Num;
use crate::order;
use crate::sizing::FormControlType;
use crate::style::Overflow;

verus! {

/// What a kind of box is, with the options of a select by their contents.
pub enum KindV {
    Plain(BoxType),
    Select { options: Seq<String>, selected_index: Option<usize>, size: u32 },
}

impl BoxType {
    /// The model of the kind.
    pub open spec fn kind(self) -> KindV {
        match self {
            BoxType::FormControl(FormControlType::Select { options, selected_index, size }) =>
            KindV::Select { options: options@, selected_index, size },
            _ => KindV::Plain(self),
        }
    }

    /// A copy of the kind.
    pub(crate) fn copied(&self) -> (r: BoxType)
        ensures
            r.kind() == self.kind(),
    {
        match self {
            BoxType::Block => BoxType::Block,
            BoxType::Inline => BoxType::Inline,
            BoxType::AnonymousBlock => BoxType::AnonymousBlock,
            BoxType::Text(text) => BoxType::Text(text.clone()),
            BoxType::Image { url, natural_width, natural_height } => BoxType::Image {
                url: url.clone(),
                natural_width: *natural_width,
                natural_height: *natural_height,
            },
            BoxType::FormControl(control) => BoxType::FormControl(control.copied()),
            BoxType::LineBreak => BoxType::LineBreak,
        }
    }
}

impl FormControlType {
    fn copied(&self) -> (r: FormControlType)
        ensures
            BoxType::FormControl(r).kind() == BoxType::FormControl(*self).kind(),
    {
        match self {
            FormControlType::TextInput { value, placeholder, input_type } =>
            FormControlType::TextInput {
                value: value.clone(),
                placeholder: placeholder.clone(),
                input_type: input_type.clone(),
            },
            FormControlType::TextArea { value, placeholder, rows, cols } =>
            FormControlType::TextArea {
                value: value.clone(),
                placeholder: placeholder.clone(),
                rows: *rows,
                cols: *cols,
            },
            FormControlType::Button { label, button_type } => FormControlType::Button {
                label: label.clone(),
                button_type: button_type.clone(),
            },
            FormControlType::Checkbox { checked } => FormControlType::Checkbox {
                checked: *checked,
            },
            FormControlType::Radio { checked, name } => FormControlType::Radio {
                checked: *checked,
                name: name.clone(),
            },
            FormControlType::Select { options, selected_index, size } => {
                let mut copy: Vec<String> = Vec::new();
                let mut i: usize = 0;
                while i < options.len()
                    invariant
                        i <= options.len(),
                        copy@ == options@.take(i as int),
                    decreases options.len() - i,
                {
                    copy.push(options[i].clone());
                    proof {
                        assert(copy@ =~= options@.take(i + 1));
                    }
                    i = i + 1;
                }
                proof {
                    assert(copy@ =~= options@);
                }
                FormControlType::Select {
                    options: copy,
                    selected_index: *selected_index,
                    size: *size,
                }
            },
        }
    }
}

/// Information about an ancestor in the hit test path.
#[derive(Debug, Clone)]
pub struct HitTestAncestor {
    /// Box type.
    pub box_type: BoxType,
    /// Border box.
    pub border_box: Rect,
    /// Content box.
    pub content_box: Rect,
    /// Z-index.
    pub z_index: i32,
    /// Position property.
    pub position: Position,
}

/// Result of a hit test operation.
#[derive(Debug, Clone)]
pub struct HitTestResult {
    /// The type of the hit box.
    pub box_type: BoxType,
    /// The border box of the hit element.
    pub border_box: Rect,
    /// The content box of the hit element.
    pub content_box: Rect,
    /// The padding box of the hit element.
    pub padding_box: Rect,
    /// X coordinate relative to the border box.
    pub local_x: Num,
    /// Y coordinate relative to the border box.
    pub local_y: Num,
    /// Depth in the layout tree (0 = root).
    pub depth: u32,
    /// Ancestor chain from parent to root.
    pub ancestors: Vec<HitTestAncestor>,
    /// Z-index of the hit element.
    pub z_index: i32,
    /// Position property of the hit element.
    pub position: Position,
    /// Whether the element is scrollable.
    pub is_scrollable: bool,
    /// `href` of the nearest link: the hit box's own or that of the nearest
    /// ancestor that has one.
    pub link_href: Option<String>,
    /// Raw id of the hit box's DOM node, if it had one; never that of an
    /// ancestor.
    pub node_id: Option<usize>,
}

/// The model of an ancestor.
pub struct AncestorV {
    pub kind: KindV,
    pub border_box: Rect,
    pub content_box: Rect,
    pub z_index: i32,
    pub position: Position,
}

/// The model of a hit.
#[verifier::ext_equal]
pub struct HitV {
    pub kind: KindV,
    pub border_box: Rect,
    pub content_box: Rect,
    pub padding_box: Rect,
    pub local_x: Num,
    pub local_y: Num,
    pub depth: u32,
    pub ancestors: Seq<AncestorV>,
    pub z_index: i32,
    pub position: Position,
    pub is_scrollable: bool,
    pub link_href: Option<String>,
    pub node_id: Option<usize>,
}

impl View for HitTestAncestor {
    type V = AncestorV;

    open spec fn view(&self) -> AncestorV {
        AncestorV {
            kind: self.box_type.kind(),
            border_box: self.border_box,
            content_box: self.content_box,
            z_index: self.z_index,
            position: self.position,
        }
    }
}

impl View for HitTestResult {
    type V = HitV;

    open spec fn view(&self) -> HitV {
        HitV {
            kind: self.box_type.kind(),
            border_box: self.border_box,
            content_box: self.content_box,
            padding_box: self.padding_box,
            local_x: self.local_x,
            local_y: self.local_y,
            depth: self.depth,
            ancestors: Seq::new(self.ancestors@.len(), |i: int| self.ancestors@[i]@),
            z_index: self.z_index,
            position: self.position,
            is_scrollable: self.is_scrollable,
            link_href: self.link_href,
            node_id: self.node_id,
        }
    }
}

/// Where a box paints among its siblings: positioned boxes below zero by their
/// z-index, then those in normal flow, then the other positioned ones.
pub open spec fn paint_key(b: BoxV) -> int {
    if b.own.position == Position::Static {
        -1
    } else {
        2 * b.own.z_index
    }
}

/// The paint keys of some boxes.
pub open spec fn paint_keys(s: Seq<BoxV>) -> Seq<int> {
    Seq::new(s.len(), |i: int| paint_key(s[i]))
}

/// The order in which siblings paint, as indices.
pub open spec fn paint_order(s: Seq<BoxV>) -> Seq<int> {
    order::stable_order(paint_keys(s))
}

/// Whether the content of a box that scrolls exceeds its padding box: the
/// farthest right and bottom margin edges of its children.
pub open spec fn overflowing(b: BoxV) -> bool {
    let pb = b.dim.padding_box();
    let n = b.children.len() as int;
    (scrolls_axis(b.own.style.overflow_x) || scrolls_axis(b.own.style.overflow_y)) && (
    reach_right(b.children, n, pb.x) > pb.width || reach_bottom(b.children, n, pb.y) > pb.height)
}

/// Whether an axis scrolls.
pub open spec fn scrolls_axis(o: Overflow) -> bool {
    o == Overflow::Scroll || o == Overflow::Auto
}

/// How far the first `k` boxes reach to the right of `x`.
pub open spec fn reach_right(s: Seq<BoxV>, k: int, x: Num) -> Num
    decreases k,
{
    if k <= 0 {
        Num::nought()
    } else {
        let mb = s[k - 1].dim.margin_box();
        Num::larger(reach_right(s, k - 1, x), mb.x + mb.width - x)
    }
}

/// How far the first `k` boxes reach below `y`.
pub open spec fn reach_bottom(s: Seq<BoxV>, k: int, y: Num) -> Num
    decreases k,
{
    if k <= 0 {
        Num::nought()
    } else {
        let mb = s[k - 1].dim.margin_box();
        Num::larger(reach_bottom(s, k - 1, y), mb.y + mb.height - y)
    }
}

impl HitV {
    /// A hit on the box itself.
    pub open spec fn on(b: BoxV, x: Num, y: Num, depth: u32, is_scrollable: bool) -> HitV {
        let bb = b.dim.border_box();
        HitV {
            kind: b.own.box_type.kind(),
            border_box: bb,
            content_box: b.dim.content,
            padding_box: b.dim.padding_box(),
            local_x: x - bb.x,
            local_y: y - bb.y,
            depth,
            ancestors: Seq::empty(),
            z_index: b.own.z_index,
            position: b.own.position,
            is_scrollable,
            link_href: b.own.link_href,
            node_id: b.own.node_id,
        }
    }

    /// A hit in a child, seen from the parent: the parent joins the path and
    /// gives its link where no nearer box did.
    pub open spec fn within(self, b: BoxV) -> HitV {
        HitV {
            ancestors: self.ancestors.push(
                AncestorV {
                    kind: b.own.box_type.kind(),
                    border_box: b.dim.border_box(),
                    content_box: b.dim.content,
                    z_index: b.own.z_index,
                    position: b.own.position,
                },
            ),
            link_href: match self.link_href {
                Some(href) => Some(href),
                None => b.own.link_href,
            },
            ..self
        }
    }
}

/// The hit at a point: in the topmost child that is hit, else on the box.
pub open spec fn hit(b: BoxV, x: Num, y: Num, depth: u32) -> Option<HitV>
    decreases b, 0int,
{
    if !b.dim.border_box().contains(x, y) {
        None
    } else {
        match topmost(
            b.children,
            paint_order(b.children),
            b.children.len() as int,
            x,
            y,
            depth.wrapping_add(1),
        ) {
            Some(h) => Some(h.within(b)),
            None => Some(HitV::on(b, x, y, depth, overflowing(b))),
        }
    }
}

/// The hit in the last of the first `k` boxes in an order that is hit.
pub open spec fn topmost(
    s: Seq<BoxV>,
    order: Seq<int>,
    k: int,
    x: Num,
    y: Num,
    depth: u32,
) -> Option<HitV>
    decreases s, k,
{
    if k <= 0 || k > order.len() || !(0 <= order[k - 1] < s.len()) {
        None
    } else {
        match hit(s[order[k - 1]], x, y, depth) {
            Some(h) => Some(h),
            None => topmost(s, order, k - 1, x, y, depth),
        }
    }
}

/// All boxes at a point, from the root down: a box whose parents are all hit
/// too. Each hit has its own path, as a single hit has.
pub open spec fn all_hits(b: BoxV, x: Num, y: Num, depth: u32) -> Seq<HitV>
    decreases b, 0int,
{
    if !b.dim.border_box().contains(x, y) {
        Seq::empty()
    } else {
        seq![HitV::on(b, x, y, depth, overflowing(b))] + joined(
            hits_in(
                b.children,
                b.children.len() as int,
                x,
                y,
                depth.wrapping_add(1),
            ),
            b,
        )
    }
}

/// Hits inside a box, seen from the box.
pub open spec fn joined(s: Seq<HitV>, b: BoxV) -> Seq<HitV> {
    Seq::new(s.len(), |i: int| s[i].within(b))
}

/// All boxes at a point in the first `k` trees.
pub open spec fn hits_in(s: Seq<BoxV>, k: int, x: Num, y: Num, depth: u32) -> Seq<HitV>
    decreases s, k,
{
    if k <= 0 || k > s.len() {
        Seq::empty()
    } else {
        hits_in(s, k - 1, x, y, depth) + all_hits(s[k - 1], x, y, depth)
    }
}

/// The models of some hits.
pub open spec fn hit_views(v: Seq<HitTestResult>) -> Seq<HitV> {
    Seq::new(v.len(), |i: int| v[i]@)
}

/// A point hits a tree exactly where the root is: no child answers outside its
/// parent.
pub proof fn lemma_hit_iff_inside(b: BoxV, x: Num, y: Num, depth: u32)
    ensures
        hit(b, x, y, depth) is Some <==> b.dim.border_box().contains(x, y),
{
}

/// The box that is hit holds the point, and so do all its ancestors.
pub proof fn lemma_hit_path_holds_point(b: BoxV, x: Num, y: Num, depth: u32)
    ensures
        hit(b, x, y, depth) matches Some(h) ==> h.border_box.contains(x, y) && forall|i: int|
            0 <= i < h.ancestors.len() ==> (#[trigger] h.ancestors[i]).border_box.contains(x, y),
    decreases b, 0int,
{
    if b.dim.border_box().contains(x, y) {
        lemma_topmost_holds_point(
            b.children,
            paint_order(b.children),
            b.children.len() as int,
            x,
            y,
            depth.wrapping_add(1),
        );
    }
}

proof fn lemma_topmost_holds_point(
    s: Seq<BoxV>,
    order: Seq<int>,
    k: int,
    x: Num,
    y: Num,
    depth: u32,
)
    ensures
        topmost(s, order, k, x, y, depth) matches Some(h) ==> h.border_box.contains(x, y)
            && forall|i: int|
            0 <= i < h.ancestors.len() ==> (#[trigger] h.ancestors[i]).border_box.contains(x, y),
    decreases s, k,
{
    if !(k <= 0 || k > order.len() || !(0 <= order[k - 1] < s.len())) {
        lemma_hit_path_holds_point(s[order[k - 1]], x, y, depth);
        lemma_topmost_holds_point(s, order, k - 1, x, y, depth);
    }
}

/// The depth of a hit counts its ancestors.
pub proof fn lemma_depth_counts_ancestors(b: BoxV, x: Num, y: Num, depth: u32)
    requires
        depth + b.height() <= u32::MAX,
    ensures
        hit(b, x, y, depth) matches Some(h) ==> h.depth == depth + h.ancestors.len()
            && h.ancestors.len() < b.height(),
    decreases b, 0int,
{
    if b.dim.border_box().contains(x, y) {
        lemma_topmost_depth(
            b.children,
            paint_order(b.children),
            b.children.len() as int,
            x,
            y,
            (depth + 1) as u32,
        );
    }
}

proof fn lemma_topmost_depth(s: Seq<BoxV>, order: Seq<int>, k: int, x: Num, y: Num, depth: u32)
    requires
        depth + boxes::tallest(s) <= u32::MAX,
    ensures
        topmost(s, order, k, x, y, depth) matches Some(h) ==> h.depth == depth
            + h.ancestors.len() && h.ancestors.len() < boxes::tallest(s),
    decreases s, k,
{
    if !(k <= 0 || k > order.len() || !(0 <= order[k - 1] < s.len())) {
        crate::tree::lemma_tallest(s, 0, order[k - 1]);
        lemma_depth_counts_ancestors(s[order[k - 1]], x, y, depth);
        lemma_topmost_depth(s, order, k - 1, x, y, depth);
    }
}

/// The hit is one of all the hits at the point.
pub proof fn lemma_hit_is_among_all(b: BoxV, x: Num, y: Num, depth: u32)
    ensures
        hit(b, x, y, depth) matches Some(h) ==> all_hits(b, x, y, depth).contains(h),
    decreases b, 0int,
{
    if b.dim.border_box().contains(x, y) {
        let o = paint_order(b.children);
        let n = b.children.len() as int;
        let d = depth.wrapping_add(1);
        let rest = hits_in(b.children, n, x, y, d);
        let all = all_hits(b, x, y, depth);
        lemma_topmost_among_all(b.children, o, n, x, y, d);
        match topmost(b.children, o, n, x, y, d) {
            Some(h) => {
                let j = choose|j: int| 0 <= j < rest.len() && rest[j] == h;
                assert(all[j + 1] == h.within(b));
            },
            None => {
                assert(all[0] == HitV::on(b, x, y, depth, overflowing(b)));
            },
        }
    }
}

proof fn lemma_topmost_among_all(
    s: Seq<BoxV>,
    order: Seq<int>,
    k: int,
    x: Num,
    y: Num,
    depth: u32,
)
    ensures
        topmost(s, order, k, x, y, depth) matches Some(h) ==> hits_in(
            s,
            s.len() as int,
            x,
            y,
            depth,
        ).contains(h),
    decreases s, k,
{
    if !(k <= 0 || k > order.len() || !(0 <= order[k - 1] < s.len())) {
        let i = order[k - 1];
        lemma_hit_is_among_all(s[i], x, y, depth);
        match hit(s[i], x, y, depth) {
            Some(h) => {
                let sub = all_hits(s[i], x, y, depth);
                let j = choose|j: int| 0 <= j < sub.len() && sub[j] == h;
                lemma_hits_hold(s, s.len() as int, i, j, x, y, depth);
            },
            None => {
                lemma_topmost_among_all(s, order, k - 1, x, y, depth);
            },
        }
    }
}

/// Of all the hits at a point, each has as many ancestors as its depth says.
pub proof fn lemma_all_depths_count_ancestors(b: BoxV, x: Num, y: Num, depth: u32, j: int)
    requires
        depth + b.height() <= u32::MAX,
        0 <= j < all_hits(b, x, y, depth).len(),
    ensures
        all_hits(b, x, y, depth)[j].depth == depth + all_hits(b, x, y, depth)[j].ancestors.len(),
    decreases b, 0int,
{
    if b.dim.border_box().contains(x, y) && j > 0 {
        let n = b.children.len() as int;
        lemma_depths_in(b.children, n, x, y, (depth + 1) as u32, j - 1);
    }
}

proof fn lemma_depths_in(s: Seq<BoxV>, k: int, x: Num, y: Num, depth: u32, j: int)
    requires
        depth + boxes::tallest(s) <= u32::MAX,
        0 <= j < hits_in(s, k, x, y, depth).len(),
    ensures
        hits_in(s, k, x, y, depth)[j].depth == depth + hits_in(
            s,
            k,
            x,
            y,
            depth,
        )[j].ancestors.len(),
    decreases s, k,
{
    let before = hits_in(s, k - 1, x, y, depth);
    if j < before.len() {
        lemma_depths_in(s, k - 1, x, y, depth, j);
    } else {
        crate::tree::lemma_tallest(s, 0, k - 1);
        lemma_all_depths_count_ancestors(s[k - 1], x, y, depth, j - before.len());
    }
}

proof fn lemma_hits_hold(s: Seq<BoxV>, k: int, i: int, j: int, x: Num, y: Num, depth: u32)
    requires
        0 <= i < k <= s.len(),
        0 <= j < all_hits(s[i], x, y, depth).len(),
    ensures
        exists|l: int|
            0 <= l < hits_in(s, k, x, y, depth).len() && #[trigger] hits_in(s, k, x, y, depth)[l]
                == all_hits(s[i], x, y, depth)[j],
    decreases k,
{
    let before = hits_in(s, k - 1, x, y, depth);
    let now = hits_in(s, k, x, y, depth);
    if i == k - 1 {
        assert(now[before.len() + j] == all_hits(s[i], x, y, depth)[j]);
    } else {
        lemma_hits_hold(s, k - 1, i, j, x, y, depth);
        let l = choose|l: int|
            0 <= l < before.len() && #[trigger] before[l] == all_hits(s[i], x, y, depth)[j];
        assert(now[l] == before[l]);
    }
}

/// Whether no box of some trees is a link.
pub open spec fn without_links(s: Seq<BoxV>) -> bool
    decreases s,
{
    forall|i: int|
        0 <= i < s.len() ==> (#[trigger] s[i]).own.link_href is None && without_links(
            s[i].children,
        )
}

/// A hit anywhere in a box with no link inside it resolves to the link of the
/// box: its text and what is nested in it lead where the box itself does.
pub proof fn lemma_content_shares_link(b: BoxV, x: Num, y: Num, depth: u32)
    requires
        without_links(b.children),
    ensures
        hit(b, x, y, depth) matches Some(h) ==> h.link_href == b.own.link_href,
    decreases b, 0int,
{
    if b.dim.border_box().contains(x, y) {
        lemma_topmost_without_links(
            b.children,
            paint_order(b.children),
            b.children.len() as int,
            x,
            y,
            depth.wrapping_add(1),
        );
    }
}

proof fn lemma_topmost_without_links(
    s: Seq<BoxV>,
    order: Seq<int>,
    k: int,
    x: Num,
    y: Num,
    depth: u32,
)
    requires
        without_links(s),
    ensures
        topmost(s, order, k, x, y, depth) matches Some(h) ==> h.link_href is None,
    decreases s, k,
{
    if !(k <= 0 || k > order.len() || !(0 <= order[k - 1] < s.len())) {
        lemma_content_shares_link(s[order[k - 1]], x, y, depth);
        lemma_topmost_without_links(s, order, k - 1, x, y, depth);
    }
}

/// Of the children at a point, the one painted last takes the hit.
pub proof fn lemma_last_painted_is_hit(b: BoxV, p: int, x: Num, y: Num, depth: u32)
    requires
        b.dim.border_box().contains(x, y),
        0 <= p < b.children.len(),
        b.children[paint_order(b.children)[p]].dim.border_box().contains(x, y),
        forall|q: int|
            p < q < b.children.len() ==> !(#[trigger] b.children[paint_order(
                b.children,
            )[q]]).dim.border_box().contains(x, y),
    ensures
        hit(b, x, y, depth) == Some(
            hit(
                b.children[paint_order(b.children)[p]],
                x,
                y,
                depth.wrapping_add(1),
            )->0.within(b),
        ),
{
    let s = b.children;
    let o = paint_order(s);
    order::lemma_stable_order(paint_keys(s));
    lemma_topmost_from(s, o, p, s.len() as int, x, y, depth.wrapping_add(1));
}

proof fn lemma_topmost_from(
    s: Seq<BoxV>,
    order: Seq<int>,
    p: int,
    k: int,
    x: Num,
    y: Num,
    depth: u32,
)
    requires
        0 <= p < k <= order.len(),
        forall|q: int| p <= q < k ==> 0 <= #[trigger] order[q] < s.len(),
        s[order[p]].dim.border_box().contains(x, y),
        forall|q: int|
            p < q < k ==> !(#[trigger] s[order[q]]).dim.border_box().contains(x, y),
    ensures
        topmost(s, order, k, x, y, depth) == hit(s[order[p]], x, y, depth),
        hit(s[order[p]], x, y, depth) is Some,
    decreases k,
{
    lemma_hit_iff_inside(s[order[k - 1]], x, y, depth);
    if k - 1 > p {
        assert(!s[order[k - 1]].dim.border_box().contains(x, y));
        lemma_topmost_from(s, order, p, k - 1, x, y, depth);
    }
}

impl LayoutBox {
    fn paint_indices(&self) -> (r: Vec<usize>)
        ensures
            order::index_values(r@) == paint_order(self@.children),
            r@.len() == self.children@.len(),
            forall|a: int| 0 <= a < r@.len() ==> #[trigger] r@[a] < self.children@.len(),
    {
        let mut keys: Vec<i64> = Vec::new();
        let mut i: usize = 0;
        while i < self.children.len()
            invariant
                i <= self.children.len(),
                keys@.len() == i,
                forall|j: int|
                    0 <= j < i ==> #[trigger] keys@[j] == paint_key(self.children@[j]@),
            decreases self.children.len() - i,
        {
            let child: &LayoutBox = &self.children[i];
            let key: i64 = if child.position == Position::Static {
                -1
            } else {
                2 * (child.z_index as i64)
            };
            keys.push(key);
            i = i + 1;
        }
        proof {
            assert(order::key_values(keys@) =~= paint_keys(self@.children));
        }
        order::sort_indices(&keys)
    }

    /// Get children sorted by z-index for painting.
    pub fn get_paint_order(&self) -> (r: Vec<&LayoutBox>)
        ensures
            r@.len() == self@.children.len(),
            forall|i: int|
                0 <= i < r@.len() ==> (#[trigger] r@[i])@ == self@.children[paint_order(
                    self@.children,
                )[i]],
    {
        let order = self.paint_indices();
        let mut r: Vec<&LayoutBox> = Vec::new();
        let mut i: usize = 0;
        while i < order.len()
            invariant
                i <= order.len(),
                r@.len() == i,
                order@.len() == self.children@.len(),
                order::index_values(order@) == paint_order(self@.children),
                forall|a: int| 0 <= a < order@.len() ==> #[trigger] order@[a] < self.children@.len(),
                forall|j: int|
                    0 <= j < i ==> (#[trigger] r@[j])@ == self@.children[paint_order(
                        self@.children,
                    )[j]],
            decreases order.len() - i,
        {
            let at: usize = order[i];
            proof {
                assert(order::index_values(order@)[i as int] == at);
            }
            r.push(&self.children[at]);
            i = i + 1;
        }
        r
    }

    /// Perform hit testing at the given point. Returns the hit test result with
    /// information about the element at the point.
    pub fn hit_test(&self, x: Num, y: Num) -> (r: Option<HitTestResult>)
        ensures
            match hit(self@, x, y, 0) {
                Some(h) => r is Some && r->0@ == h,
                None => r is None,
            },
    {
        self.hit_test_internal(x, y, 0)
    }

    fn hit_on(&self, x: Num, y: Num, depth: u32, is_scrollable: bool) -> (r: HitTestResult)
        ensures
            r@ == HitV::on(self@, x, y, depth, is_scrollable),
    {
        let border_box = self.dimensions.border_box();
        let link_href = match &self.link_href {
            Some(href) => Some(href.clone()),
            None => None,
        };
        let r = HitTestResult {
            box_type: self.box_type.copied(),
            border_box,
            content_box: self.dimensions.content,
            padding_box: self.dimensions.padding_box(),
            local_x: x - border_box.x,
            local_y: y - border_box.y,
            depth,
            ancestors: Vec::new(),
            z_index: self.z_index,
            position: self.position,
            is_scrollable,
            link_href,
            node_id: self.node_id,
        };
        proof {
            assert(r@.ancestors =~= Seq::<AncestorV>::empty());
        }
        r
    }

    /// Adds this box to the path of a hit in one of its children.
    fn join_path(&self, h: &mut HitTestResult)
        ensures
            final(h)@ == old(h)@.within(self@),
    {
        h.ancestors.push(
            HitTestAncestor {
                box_type: self.box_type.copied(),
                border_box: self.dimensions.border_box(),
                content_box: self.dimensions.content,
                z_index: self.z_index,
                position: self.position,
            },
        );
        if h.link_href.is_none() {
            h.link_href = match &self.link_href {
                Some(href) => Some(href.clone()),
                None => None,
            };
        }
        proof {
            assert(h@.ancestors =~= old(h)@.within(self@).ancestors);
        }
    }

    fn hit_test_internal(&self, x: Num, y: Num, depth: u32) -> (r: Option<HitTestResult>)
        ensures
            match hit(self@, x, y, depth) {
                Some(h) => r is Some && r->0@ == h,
                None => r is None,
            },
        decreases self,
    {
        if !self.dimensions.border_box().contains(x, y) {
            return None;
        }
        let order = self.paint_indices();
        let below: u32 = depth.wrapping_add(1);
        let mut k: usize = order.len();
        while k > 0
            invariant
                k <= order.len(),
                self@.dim.border_box().contains(x, y),
                below == depth.wrapping_add(1),
                order@.len() == self.children@.len(),
                order::index_values(order@) == paint_order(self@.children),
                forall|a: int| 0 <= a < order@.len() ==> #[trigger] order@[a] < self.children@.len(),
                topmost(
                    self@.children,
                    paint_order(self@.children),
                    self@.children.len() as int,
                    x,
                    y,
                    below,
                ) == topmost(
                    self@.children,
                    paint_order(self@.children),
                    k as int,
                    x,
                    y,
                    below,
                ),
            decreases k,
        {
            let at: usize = order[k - 1];
            proof {
                assert(order::index_values(order@)[k - 1] == at);
            }
            let child: &LayoutBox = &self.children[at];
            match child.hit_test_internal(x, y, below) {
                Some(found) => {
                    let mut result = found;
                    self.join_path(&mut result);
                    return Some(result);
                },
                None => {},
            }
            k = k - 1;
        }
        Some(self.hit_on(x, y, depth, self.detect_overflow()))
    }

    /// Detect if this element has overflow and should be scrollable.
    pub fn detect_overflow(&self) -> (r: bool)
        ensures
            r == overflowing(self@),
    {
        let s = &self.style;
        let scrolls = s.overflow_x == Overflow::Scroll || s.overflow_x == Overflow::Auto
            || s.overflow_y == Overflow::Scroll || s.overflow_y == Overflow::Auto;
        if !scrolls {
            return false;
        }
        let pb = self.dimensions.padding_box();
        let mut right = Num::zero();
        let mut bottom = Num::zero();
        let mut i: usize = 0;
        while i < self.children.len()
            invariant
                i <= self.children.len(),
                right == reach_right(self@.children, i as int, pb.x),
                bottom == reach_bottom(self@.children, i as int, pb.y),
            decreases self.children.len() - i,
        {
            proof {
                boxes::lemma_view_at(self.children@, i as int);
            }
            let mb = self.children[i].dimensions.margin_box();
            right = right.max(mb.x + mb.width - pb.x);
            bottom = bottom.max(mb.y + mb.height - pb.y);
            i = i + 1;
        }
        right > pb.width || bottom > pb.height
    }

    /// Get all elements at a point (including overlapping elements).
    pub fn hit_test_all(&self, x: Num, y: Num) -> (r: Vec<HitTestResult>)
        ensures
            hit_views(r@) == all_hits(self@, x, y, 0),
    {
        let mut results: Vec<HitTestResult> = Vec::new();
        self.hit_test_all_internal(x, y, 0, &mut results);
        proof {
            assert(hit_views(results@) =~= all_hits(self@, x, y, 0));
        }
        results
    }

    fn hit_test_all_internal(
        &self,
        x: Num,
        y: Num,
        depth: u32,
        results: &mut Vec<HitTestResult>,
    )
        ensures
            hit_views(final(results)@) == hit_views(old(results)@) + all_hits(self@, x, y, depth),
        decreases self,
    {
        if !self.dimensions.border_box().contains(x, y) {
            proof {
                assert(hit_views(results@) =~= hit_views(old(results)@) + all_hits(
                    self@,
                    x,
                    y,
                    depth,
                ));
            }
            return;
        }
        let ghost own = HitV::on(self@, x, y, depth, overflowing(self@));
        let ghost base = hit_views(old(results)@) + seq![own];
        results.push(self.hit_on(x, y, depth, self.detect_overflow()));
        let first: usize = results.len();
        let below: u32 = depth.wrapping_add(1);
        let mut i: usize = 0;
        proof {
            assert(hit_views(results@) =~= base + hits_in(self@.children, 0, x, y, below));
        }
        while i < self.children.len()
            invariant
                i <= self.children.len(),
                hit_views(results@) == base + hits_in(self@.children, i as int, x, y, below),
            decreases self.children.len() - i,
        {
            let child: &LayoutBox = &self.children[i];
            child.hit_test_all_internal(x, y, below, results);
            i = i + 1;
            proof {
                assert(hit_views(results@) =~= base + hits_in(
                    self@.children,
                    i as int,
                    x,
                    y,
                    below,
                ));
            }
        }
        let ghost inside = hits_in(self@.children, i as int, x, y, below);
        proof {
            assert(hit_views(results@).len() == first + inside.len());
        }
        self.join_paths(results, first);
        proof {
            assert(hit_views(results@) =~= hit_views(old(results)@) + all_hits(
                self@,
                x,
                y,
                depth,
            ));
        }
    }

    /// Adds this box to the path of every hit from `first` on.
    fn join_paths(&self, results: &mut Vec<HitTestResult>, first: usize)
        ensures
            hit_views(final(results)@) == Seq::new(
                old(results)@.len(),
                |i: int|
                    if i < first {
                        hit_views(old(results)@)[i]
                    } else {
                        hit_views(old(results)@)[i].within(self@)
                    },
            ),
    {
        let ghost was = hit_views(old(results)@);
        let mut k: usize = first;
        while k < results.len()
            invariant
                first <= k,
                was == hit_views(old(results)@),
                results@.len() == old(results)@.len(),
                forall|j: int|
                    0 <= j < results@.len() ==> #[trigger] hit_views(results@)[j] == if first <= j
                        < k {
                        was[j].within(self@)
                    } else {
                        was[j]
                    },
            decreases results.len() - k,
        {
            let ghost before = results@;
            proof {
                assert(hit_views(before)[k as int] == was[k as int]);
            }
            self.join_path(&mut results[k]);
            proof {
                assert forall|j: int| 0 <= j < results@.len() implies #[trigger] hit_views(
                    results@,
                )[j] == if first <= j < k + 1 {
                    was[j].within(self@)
                } else {
                    was[j]
                } by {
                    assert(hit_views(before)[j] == before[j]@);
                }
            }
            k = k + 1;
        }
        proof {
            assert(hit_views(results@) =~= Seq::new(
                old(results)@.len(),
                |i: int|
                    if i < first {
                        was[i]
                    } else {
                        was[i].within(self@)
                    },
            ));
        }
    }
}

impl HitTestResult {
    /// Check if the hit was in the content area.
    #[verifier::allow_in_spec]
    pub fn is_in_content(&self) -> bool
        returns
            self.content_box.contains(
                self.border_box.x + self.local_x,
                self.border_box.y + self.local_y,
            ),
    {
        self.content_box.contains(
            self.border_box.x + self.local_x,
            self.border_box.y + self.local_y,
        )
    }

    /// Check if the hit was in the padding area.
    #[verifier::allow_in_spec]
    pub fn is_in_padding(&self) -> bool
        returns
            self.padding_box.contains(
                self.border_box.x + self.local_x,
                self.border_box.y + self.local_y,
            ) && !self.is_in_content(),
    {
        let x = self.border_box.x + self.local_x;
        let y = self.border_box.y + self.local_y;
        self.padding_box.contains(x, y) && !self.content_box.contains(x, y)
    }

    /// Check if the hit was in the border area.
    #[verifier::allow_in_spec]
    pub fn is_in_border(&self) -> bool
        returns
            self.border_box.contains(
                self.border_box.x + self.local_x,
                self.border_box.y + self.local_y,
            ) && !self.padding_box.contains(
                self.border_box.x + self.local_x,
                self.border_box.y + self.local_y,
            ),
    {
        let x = self.border_box.x + self.local_x;
        let y = self.border_box.y + self.local_y;
        self.border_box.contains(x, y) && !self.padding_box.contains(x, y)
    }
}

/// Whether the edges of the content and padding boxes along one axis come out
/// without rounding: from `start`, over `extent`, with padding on both sides.
pub open spec fn exact_axis(start: Num, extent: Num, before: Num, after: Num) -> bool {
    &&& Num::adds(start, extent)
    &&& Num::adds(before, after)
    &&& Num::adds(extent, before + after)
    &&& Num::subtracts(start, before)
    &&& Num::adds(start - before, extent + (before + after))
}

proof fn lemma_inner_axis(start: Num, extent: Num, before: Num, after: Num, at: Num)
    requires
        exact_axis(start, extent, before, after),
        before >= Num::nought(),
        after >= Num::nought(),
        at >= start,
        at < start + extent,
    ensures
        at >= start - before,
        at < (start - before) + (extent + (before + after)),
{
    crate::num::lemma_decode(0);
    crate::num::lemma_rank_is_value(before, Num::nought());
    crate::num::lemma_rank_is_value(Num::nought(), before);
    crate::num::lemma_rank_is_value(after, Num::nought());
    crate::num::lemma_rank_is_value(start - before, start);
    crate::num::lemma_rank_is_value(
        start + extent,
        (start - before) + (extent + (before + after)),
    );
}

/// A hit is in exactly one of the content, padding and border areas, where the
/// edges of the box and the place of the point come out without rounding.
pub proof fn lemma_hit_is_in_one_area(h: HitTestResult, d: Dimensions, x: Num, y: Num)
    requires
        h.border_box == d.border_box(),
        h.padding_box == d.padding_box(),
        h.content_box == d.content,
        h.local_x == x - d.border_box().x,
        h.local_y == y - d.border_box().y,
        d.border_box().contains(x, y),
        d.padding.left >= Num::nought() && d.padding.right >= Num::nought(),
        d.padding.top >= Num::nought() && d.padding.bottom >= Num::nought(),
        exact_axis(d.content.x, d.content.width, d.padding.left, d.padding.right),
        exact_axis(d.content.y, d.content.height, d.padding.top, d.padding.bottom),
        Num::subtracts(x, d.border_box().x),
        Num::subtracts(y, d.border_box().y),
        Num::adds(d.border_box().x, x - d.border_box().x),
        Num::adds(d.border_box().y, y - d.border_box().y),
    ensures
        h.is_in_content() || h.is_in_padding() || h.is_in_border(),
        !(h.is_in_content() && h.is_in_padding()),
        !(h.is_in_content() && h.is_in_border()),
        !(h.is_in_padding() && h.is_in_border()),
{
    let px = h.border_box.x + h.local_x;
    let py = h.border_box.y + h.local_y;
    crate::num::lemma_rank_is_value(px, x);
    crate::num::lemma_rank_is_value(py, y);
    if h.is_in_content() {
        lemma_inner_axis(
            d.content.x,
            d.content.width,
            d.padding.left,
            d.padding.right,
            px,
        );
        lemma_inner_axis(
            d.content.y,
            d.content.height,
            d.padding.top,
            d.padding.bottom,
            py,
        );
    }
}

} // verus!

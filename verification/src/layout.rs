//! Layout of whole trees.
//!
//! A box is laid out by kind, moved by its offsets, and then anchors its
//! absolutely positioned children. A block flows its children: out-of-flow
//! children aside, each one is taken into the open line, split over lines, or
//! stacked below. With margin collapsing, the margins that adjoin are carried
//! in a context from child to child and across the open edges of parents.
//!
//! The definitions recurse on a number of levels, `n`. A tree fits the number
//! of its levels, and layout keeps the shape of a tree, so the number is only
//! the depth of the recursion and no limit on what is laid out.
//!
//! The items of flex and grid containers are laid out in flow, as the
//! arrangement of such containers expects to find them; the arrangement itself
//! is not part of this crate.
use vstd::prelude::*;
use crate::align::{aligned, on_baseline, split_closed};
use crate::baseline::content_area;
use crate::block::{
    anchored, definite_height, offset, placed, with_content_height, with_height, with_vertical,
    with_widths,
};
use crate::boxes::{BoxType, BoxV, LayoutBox};
use crate::floats::{Clear, Float, FloatContext, FloatExclusion, FloatsV};
use crate::flow::{
    after_break, below_block, block_taken, container, cursor_block, flows_inline, inline_taken,
    line_level, line_start_block, margin_spent, overflows_line, split_taken, splits, Container,
    FlowS, LineRecord, SplitRecord,
};
use crate::geometry::{Dimensions, EdgeSizes, Rect};
use crate::leaf::{break_laid, control_laid, image_laid, plain_edges, text_laid};
use crate::margin_collapse::{formatting_root, open_bottom, open_top, MarginCollapseContext};
use crate::multicol::{balanced, columns};
use crate::num::Num;
use crate::style::{ComputedStyle, Length, TextAlign};
use crate::text::Shaper;
use crate::tree;

verus! {

/// One child in the flow, with the flow around it.
pub struct StepV {
    pub child: BoxV,
    pub st: FlowS,
    pub floats: FloatsV,
}

/// The height percentages are taken of: a definite one, else that of the
/// containing block where it has any.
pub open spec fn percent_base(def: Option<Num>, cb: Dimensions) -> Option<Num> {
    match def {
        Some(h) => Some(h),
        None => if cb.content.height > Num::nought() {
            Some(cb.content.height)
        } else {
            None
        },
    }
}

pub(crate) fn base_of(def: Option<Num>, cb: &Dimensions) -> (r: Option<Num>)
    ensures
        r == percent_base(def, *cb),
{
    match def {
        Some(h) => Some(h),
        None => if cb.content.height > Num::zero() {
            Some(cb.content.height)
        } else {
            None
        },
    }
}

/// Boxes after the closed lines of split runs are aligned.
pub open spec fn after_splits(
    s: Seq<BoxV>,
    records: Seq<SplitRecord>,
    width: Num,
    align: TextAlign,
) -> Seq<BoxV>
    decreases records.len(),
{
    if records.len() == 0 {
        s
    } else {
        let r = records.last();
        split_closed(
            after_splits(s, records.drop_last(), width, align),
            r.start as int,
            r.text as int,
            width,
            align,
        )
    }
}

/// Boxes after the recorded lines are aligned, across and along.
pub open spec fn after_lines(
    sh: Shaper,
    s: Seq<BoxV>,
    records: Seq<LineRecord>,
    width: Num,
    align: TextAlign,
    style: ComputedStyle,
) -> Seq<BoxV>
    decreases records.len(),
{
    if records.len() == 0 {
        s
    } else {
        let r = records.last();
        let before = after_lines(sh, s, records.drop_last(), width, align, style);
        on_baseline(
            sh,
            aligned(sh, before, r.start as int, r.end as int, r.width, width, align),
            r.start as int,
            r.end as int,
            style,
        )
    }
}

/// The first child in flow, from `i` on.
pub open spec fn first_in_flow(s: Seq<BoxV>, i: int) -> Option<int>
    decreases s.len() - i,
{
    if i < 0 || i >= s.len() {
        None
    } else if !s[i].own.position.is_out_of_flow() && s[i].own.float == Float::Unset {
        Some(i)
    } else {
        first_in_flow(s, i + 1)
    }
}

/// Whether a box has clearance: it clears floats, and there are some.
pub open spec fn has_clearance(b: BoxV, floats: FloatsV) -> bool {
    b.own.clear != Clear::Unset && floats.cleared(b.own.clear) > Num::nought()
}

/// The top margins that collapse through the top edge of a box: that of its
/// first block child in flow, and on through the open edges below it. Clearance
/// separates a child from the edge above it.
#[verifier::opaque]
pub open spec fn top_chain(b: BoxV, width: Num, floats: FloatsV) -> Seq<Num>
    decreases b,
{
    let o = b.own;
    let border = o.px(b.viewport, o.style.border_top_width, width);
    let padding = o.px(b.viewport, o.style.padding_top, width);
    match first_in_flow(b.children, 0) {
        Some(i) => if !open_top(o.style, o.float, border, padding) || !(0 <= i
            < b.children.len()) {
            Seq::empty()
        } else {
            let c = b.children[i];
            if !c.is_block() || c.own.style.display.is_atomic_inline() || has_clearance(c, floats) {
                Seq::empty()
            } else {
                seq![c.own.px(c.viewport, c.own.style.margin_top, width)] + (if formatting_root(
                    c.own.style,
                    c.own.float,
                ) {
                    Seq::empty()
                } else {
                    top_chain(c, width, floats)
                })
            }
        },
        None => Seq::empty(),
    }
}

/// A child laid out in the flow, with or without margin collapsing.
#[verifier::opaque]
pub open spec fn child_laid(
    sh: Shaper,
    b: BoxV,
    cb: Dimensions,
    margin: MarginCollapseContext,
    floats: FloatsV,
    def: Option<Num>,
    collapse: bool,
    m: nat,
) -> (BoxV, MarginCollapseContext, FloatsV)
    decreases m, 1int, 0int,
{
    if collapse {
        laid_collapsing(sh, b, cb, margin, floats, def, m)
    } else {
        (laid(sh, b, cb, percent_base(def, cb), m), margin, floats)
    }
}

/// An inline-level child taken into the line: laid out at the cursor, and once
/// more at the start of the next line where it does not fit.
#[verifier::opaque]
pub open spec fn inline_step(
    sh: Shaper,
    c: Container,
    v: StepV,
    i: usize,
    def: Option<Num>,
    collapse: bool,
    m: nat,
) -> StepV
    decreases m, 2int, 0int,
{
    let (k1, m1, f1) = child_laid(
        sh,
        v.child,
        cursor_block(c, v.st.line),
        MarginCollapseContext::fresh(),
        v.floats,
        def,
        collapse,
        m,
    );
    let width = k1.dim.margin_box().width;
    let height = k1.dim.margin_box().height;
    if overflows_line(c, v.st.line, width) {
        let st = v.st.closed(c, i, Some(i));
        let (k2, _, f2) = child_laid(
            sh,
            k1,
            line_start_block(c, st.line),
            m1,
            f1,
            def,
            collapse,
            m,
        );
        let (k, s) = inline_taken(sh, c, st, k2, width, height, i);
        StepV { child: k, st: s, floats: f2 }
    } else {
        let (k, s) = inline_taken(sh, c, v.st, k1, width, height, i);
        StepV { child: k, st: s, floats: f1 }
    }
}

/// A block-level child stacked below what is there.
#[verifier::opaque]
pub open spec fn block_step(
    sh: Shaper,
    c: Container,
    v: StepV,
    i: usize,
    def: Option<Num>,
    collapse: bool,
    m: nat,
) -> StepV
    decreases m, 2int, 0int,
{
    let st = v.st.closed_if_used(c, i);
    let cb = below_block(c, st.line);
    let (k, margin, floats) = if c.zero && v.child.is_text() {
        (text_laid(sh, v.child, cb, true), st.margin, v.floats)
    } else {
        child_laid(sh, v.child, cb, st.margin, v.floats, def, collapse, m)
    };
    StepV {
        child: k,
        st: block_taken(c, FlowS { margin, ..st }, k, i, collapse),
        floats,
    }
}

/// One child of the flow.
#[verifier::opaque]
pub open spec fn step(
    sh: Shaper,
    c: Container,
    v: StepV,
    i: usize,
    def: Option<Num>,
    collapse: bool,
    m: nat,
) -> StepV
    decreases m, 3int, 0int,
{
    if v.child.own.position.is_out_of_flow() {
        // Laid out at its static position; the margins around it stay pending.
        let (k, _, floats) = child_laid(
            sh,
            v.child,
            below_block(c, v.st.line),
            v.st.margin,
            v.floats,
            None,
            collapse,
            m,
        );
        StepV { child: k, st: v.st, floats }
    } else {
        let st = if collapse && line_level(v.child) {
            margin_spent(v.st)
        } else {
            v.st
        };
        if v.child.own.box_type is LineBreak {
            StepV {
                child: break_laid(
                    v.child,
                    c.dim.content.x + st.line.cursor_x,
                    c.dim.content.y + st.line.cursor_y,
                ),
                st: after_break(c, st, i),
                floats: v.floats,
            }
        } else if flows_inline(sh, c, st.line, v.child) {
            inline_step(sh, c, StepV { st, ..v }, i, def, collapse, m)
        } else if splits(v.child) {
            let (k, s) = split_taken(sh, c, st, v.child, i);
            StepV { child: k, st: s, floats: v.floats }
        } else {
            block_step(sh, c, StepV { st, ..v }, i, def, collapse, m)
        }
    }
}

/// The children from `i` on, one after the other.
#[verifier::opaque]
pub open spec fn flow_from(
    sh: Shaper,
    c: Container,
    kids: Seq<BoxV>,
    st: FlowS,
    floats: FloatsV,
    i: int,
    total: int,
    def: Option<Num>,
    collapse: bool,
    m: nat,
) -> (Seq<BoxV>, FlowS, FloatsV)
    decreases m, 4int, total - i,
{
    if i >= total {
        (kids, st, floats)
    } else {
        let v = step(
            sh,
            c,
            StepV { child: kids[i], st, floats },
            i as usize,
            def,
            collapse,
            m,
        );
        flow_from(
            sh,
            c,
            kids.update(i, v.child),
            v.st,
            v.floats,
            i + 1,
            total,
            def,
            collapse,
            m,
        )
    }
}

/// A block with its children in flow: laid out, aligned on their lines, and
/// its content as high as they reach.
#[verifier::opaque]
pub open spec fn flowed(
    sh: Shaper,
    b: BoxV,
    margin: MarginCollapseContext,
    floats: FloatsV,
    def: Option<Num>,
    collapse: bool,
    m: nat,
) -> (BoxV, MarginCollapseContext, FloatsV)
    decreases m, 5int, 0int,
{
    let c = container(sh, b);
    let n = b.children.len();
    let (kids, st, fl) = flow_from(
        sh,
        c,
        b.children,
        FlowS::start(margin),
        floats,
        0,
        n as int,
        def,
        collapse,
        m,
    );
    let st = st.closed_if_used(c, n as usize);
    let width = b.dim.content.width;
    let kids = after_splits(kids, st.splits, width, c.text_align);
    let kids = after_lines(sh, kids, st.lines, width, c.text_align, b.own.style);
    let st = if collapse && !st.margin.last_child_collapses_through {
        margin_spent(st)
    } else {
        st
    };
    (
        BoxV { children: kids, dim: with_content_height(b.dim, st.line.cursor_y), ..b },
        st.margin,
        fl,
    )
}

/// A block laid out without margin collapsing.
#[verifier::opaque]
pub open spec fn block_laid(sh: Shaper, b: BoxV, cb: Dimensions, def: Option<Num>, m: nat) -> BoxV
    decreases m, 6int, 0int,
{
    let d = with_vertical(b.own, b.viewport, with_widths(b.own, b.viewport, b.dim, cb), cb);
    let d = placed(d, cb, d.margin.top);
    let for_children = definite_height(
        b.own,
        b.viewport,
        d,
        match def {
            Some(h) => h,
            None => Num::nought(),
        },
    );
    let (k, _, _) = flowed(
        sh,
        b.with_dim(d),
        MarginCollapseContext::fresh(),
        FloatsV::none(),
        for_children,
        false,
        m,
    );
    k.with_dim(with_height(b.own, b.viewport, k.dim, def))
}

/// The edges of an inline box; vertical margins do not apply to it.
#[verifier::opaque]
pub open spec fn inline_edges(b: BoxV, cb: Dimensions) -> Dimensions {
    let (margin, border, padding) = plain_edges(b.own.style, cb.content.width);
    Dimensions {
        content: Rect {
            x: cb.content.x + margin.left + border.left + padding.left,
            y: cb.content.y + cb.content.height,
            ..b.dim.content
        },
        margin: EdgeSizes { top: Num::nought(), bottom: Num::nought(), ..margin },
        border,
        padding,
    }
}

/// A size the author gave an inline box: a positive length, or a positive
/// percentage of a basis that can be used.
pub open spec fn inline_size(l: Length, basis: Num, usable: bool, font_size: Num) -> Option<Num> {
    match l {
        Length::Px(px) => if px > Num::nought() {
            Some(px)
        } else {
            None
        },
        Length::Percent(p) => if p > Num::nought() && usable {
            Some(p / Num::whole(100) * basis)
        } else {
            None
        },
        Length::Em(em) => if em > Num::nought() {
            Some(em * font_size)
        } else {
            None
        },
        _ => None,
    }
}

pub(crate) fn resolve_inline_size(l: Length, basis: Num, usable: bool, font_size: Num) -> (r: Option<Num>)
    ensures
        r == inline_size(l, basis, usable, font_size),
{
    match l {
        Length::Px(px) => if px > Num::zero() {
            Some(px)
        } else {
            None
        },
        Length::Percent(p) => if p > Num::zero() && usable {
            Some(p / Num::of(100) * basis)
        } else {
            None
        },
        Length::Em(em) => if em > Num::zero() {
            Some(em * font_size)
        } else {
            None
        },
        _ => None,
    }
}

/// The containing block of a child of an inline box.
pub open spec fn inline_block(d: Dimensions, cursor: Num, width: Num) -> Dimensions {
    Dimensions {
        content: Rect {
            x: d.content.x + cursor,
            width,
            height: Num::nought(),
            ..d.content
        },
        ..d
    }
}

/// The children of an inline box from `i` on, side by side from a cursor.
#[verifier::opaque]
pub open spec fn inline_from(
    sh: Shaper,
    d: Dimensions,
    kids: Seq<BoxV>,
    cursor: Num,
    width: Num,
    i: int,
    total: int,
    m: nat,
) -> (Seq<BoxV>, Num)
    decreases m, 4int, total - i,
{
    if i >= total {
        (kids, cursor)
    } else {
        let cb = inline_block(d, cursor, width);
        let k = laid(sh, kids[i], cb, percent_base(None, cb), m);
        inline_from(
            sh,
            d,
            kids.update(i, k),
            cursor + k.dim.margin_box().width,
            width,
            i + 1,
            total,
            m,
        )
    }
}

/// An inline box laid out: as wide as its children and as high as its content
/// area, unless the author gave it a size.
#[verifier::opaque]
pub open spec fn inline_laid(sh: Shaper, b: BoxV, cb: Dimensions, m: nat) -> BoxV
    decreases m, 6int, 0int,
{
    let s = b.own.style;
    let d = inline_edges(b, cb);
    let (kids, cursor) = inline_from(
        sh,
        d,
        b.children,
        Num::nought(),
        cb.content.width,
        0,
        b.children.len() as int,
        m,
    );
    let width = match inline_size(s.width, cb.content.width, true, s.font_px()) {
        Some(w) => w,
        None => if cursor > Num::nought() {
            cursor
        } else {
            d.padding.horizontal() + d.border.horizontal()
        },
    };
    let height = match inline_size(
        s.height,
        cb.content.height,
        cb.content.height > Num::nought(),
        s.font_px(),
    ) {
        Some(h) => h,
        None => Num::larger(
            content_area(sh, s).0,
            d.padding.vertical() + d.border.vertical(),
        ),
    };
    BoxV {
        children: kids,
        dim: Dimensions { content: Rect { width, height, ..d.content }, ..d },
        ..b
    }
}

/// A box laid out by kind, without margin collapsing.
#[verifier::opaque]
pub open spec fn kind_laid(sh: Shaper, b: BoxV, cb: Dimensions, def: Option<Num>, m: nat) -> BoxV
    decreases m, 7int, 0int,
{
    match b.own.box_type {
        BoxType::Block => block_laid(sh, b, cb, def, m),
        BoxType::AnonymousBlock => block_laid(sh, b, cb, def, m),
        BoxType::Inline => inline_laid(sh, b, cb, m),
        BoxType::Text(_) => text_laid(sh, b, cb, false),
        BoxType::Image { natural_width, natural_height, .. } => image_laid(
            b,
            natural_width,
            natural_height,
            cb,
        ),
        BoxType::FormControl(_) => control_laid(sh, b, cb),
        BoxType::LineBreak => break_laid(
            b,
            cb.content.x,
            cb.content.y + cb.content.height,
        ),
    }
}

/// A box laid out in a containing block; `def` is the height that percentage
/// heights are taken of.
#[verifier::opaque]
pub open spec fn laid(sh: Shaper, b: BoxV, cb: Dimensions, def: Option<Num>, n: nat) -> BoxV
    decreases n, 0int, 0int,
{
    if n == 0 {
        b
    } else {
        let m = (n - 1) as nat;
        anchored(offset(kind_laid(sh, b, cb, def, m), cb), m)
    }
}

/// The margin context of the children of a block.
#[verifier::opaque]
pub open spec fn child_margins(b: BoxV, root: bool, adjoined: bool) -> MarginCollapseContext {
    let s = b.own.style;
    MarginCollapseContext {
        children_are_formatting_roots: s.display.is_flex() || s.display.is_grid(),
        first_child_top_adjoined: adjoined,
        last_child_collapses_through: !root && open_bottom(
            s,
            b.own.float,
            b.dim.border.bottom,
            b.dim.padding.bottom,
        ),
        ..MarginCollapseContext::fresh()
    }
}

/// Whether a box keeps the margins of its children inside.
pub open spec fn is_root(b: BoxV, margin: MarginCollapseContext) -> bool {
    margin.children_are_formatting_roots || formatting_root(b.own.style, b.own.float)
}

/// The margin context once the top margins of a block are in it. A block whose
/// margins its parent already took in adds none; the flag that says so is used
/// up by the first block in flow.
#[verifier::opaque]
pub open spec fn top_margins(
    b: BoxV,
    chain: Seq<Num>,
    margin: MarginCollapseContext,
) -> MarginCollapseContext {
    let in_flow = !b.own.position.is_out_of_flow() && b.own.float == Float::Unset;
    let taken = if in_flow {
        MarginCollapseContext { first_child_top_adjoined: false, ..margin }
    } else {
        margin
    };
    if in_flow && margin.first_child_top_adjoined {
        taken
    } else {
        taken.with(b.dim.margin.top).with_all(chain)
    }
}

/// The children of a block in flow, in columns where it has any.
#[verifier::opaque]
pub open spec fn columns_flowed(
    sh: Shaper,
    b: BoxV,
    margin: MarginCollapseContext,
    floats: FloatsV,
    def: Option<Num>,
    m: nat,
) -> (BoxV, MarginCollapseContext, FloatsV)
    decreases m, 6int, 0int,
{
    let s = b.own.style;
    let cols = columns(s, b.dim.content.width);
    if s.display.is_flex() || s.display.is_grid() || cols is None {
        flowed(sh, b, margin, floats, def, true, m)
    } else {
        let narrow = Dimensions {
            content: Rect { width: cols->0.width, ..b.dim.content },
            ..b.dim
        };
        let (k, mc, fl) = flowed(sh, b.with_dim(narrow), margin, floats, def, true, m);
        let wide = Dimensions {
            content: Rect { width: b.dim.content.width, ..k.dim.content },
            ..k.dim
        };
        (balanced(k.with_dim(wide), cols->0), mc, fl)
    }
}

/// A block laid out with margin collapsing, and the margin that is pending
/// after it.
#[verifier::opaque]
pub open spec fn block_laid_collapsing(
    sh: Shaper,
    b: BoxV,
    cb: Dimensions,
    margin: MarginCollapseContext,
    floats: FloatsV,
    base: Option<Num>,
    m: nat,
) -> (BoxV, MarginCollapseContext, FloatsV)
    decreases m, 7int, 0int,
{
    let d = with_vertical(b.own, b.viewport, with_widths(b.own, b.viewport, b.dim, cb), cb);
    let b1 = b.with_dim(d);
    let root = is_root(b, margin);
    let chain = if root {
        Seq::empty()
    } else {
        top_chain(b1, d.content.width, floats)
    };
    let before = top_margins(b1, chain, margin);
    let b2 = b.with_dim(placed(d, cb, before.total()));
    let for_children = definite_height(
        b.own,
        b.viewport,
        b2.dim,
        match base {
            Some(h) => h,
            None => cb.content.height,
        },
    );
    let (k, inner, fl) = columns_flowed(
        sh,
        b2,
        child_margins(b2, root, chain.len() > 0),
        floats,
        for_children,
        m,
    );
    let k = k.with_dim(with_height(b.own, b.viewport, k.dim, percent_base(base, cb)));
    let after = before.emptied().with(k.dim.margin.bottom);
    (
        k,
        if inner.last_child_collapses_through {
            after.with(inner.positive_margin).with(inner.negative_margin)
        } else {
            after
        },
        fl,
    )
}

/// A floated box moved beside the floats at its height and taken in as one,
/// its children flowed anew.
#[verifier::opaque]
pub open spec fn float_laid(
    sh: Shaper,
    b: BoxV,
    cb: Dimensions,
    floats: FloatsV,
    m: nat,
) -> (BoxV, FloatsV)
    decreases m, 6int, 0int,
{
    let d = with_vertical(b.own, b.viewport, with_widths(b.own, b.viewport, b.dim, cb), cb);
    let (left, right) = floats.edges(cb.content.y + cb.content.height, cb.content.width);
    let x = match b.own.float {
        Float::Left => cb.content.x + left + d.margin.left + d.border.left + d.padding.left,
        Float::Right => cb.content.x + right - d.margin_box().width + d.margin.left
            + d.border.left + d.padding.left,
        Float::Unset => d.content.x,
    };
    let d1 = Dimensions { content: Rect { x, ..d.content }, ..d };
    let fl = match b.own.float {
        Float::Left => FloatsV {
            left: floats.left.push(
                FloatExclusion { rect: d1.margin_box(), float_type: Float::Left },
            ),
            ..floats
        },
        Float::Right => FloatsV {
            right: floats.right.push(
                FloatExclusion { rect: d1.margin_box(), float_type: Float::Right },
            ),
            ..floats
        },
        Float::Unset => floats,
    };
    let d2 = Dimensions {
        content: Rect {
            y: cb.content.y + cb.content.height + d1.margin.top + d1.border.top
                + d1.padding.top,
            ..d1.content
        },
        ..d1
    };
    let for_children = definite_height(b.own, b.viewport, d2, cb.content.height);
    let (k, _, _) = flowed(
        sh,
        b.with_dim(d2),
        MarginCollapseContext::fresh(),
        FloatsV::none(),
        for_children,
        false,
        m,
    );
    (k.with_dim(with_height(b.own, b.viewport, k.dim, percent_base(None, cb))), fl)
}

/// The margin context after clearance: a box that clears floats separates the
/// margins before it from its own.
#[verifier::opaque]
pub open spec fn after_clear(
    b: BoxV,
    margin: MarginCollapseContext,
    floats: FloatsV,
) -> MarginCollapseContext {
    if has_clearance(b, floats) {
        margin.emptied()
    } else {
        margin
    }
}

/// A box laid out by kind, with margin collapsing.
#[verifier::opaque]
pub open spec fn kind_laid_collapsing(
    sh: Shaper,
    b: BoxV,
    cb: Dimensions,
    margin: MarginCollapseContext,
    floats: FloatsV,
    base: Option<Num>,
    m: nat,
) -> (BoxV, MarginCollapseContext, FloatsV)
    decreases m, 8int, 0int,
{
    if b.is_block() {
        block_laid_collapsing(sh, b, cb, margin, floats, base, m)
    } else {
        (kind_laid(sh, b, cb, None, m), margin, floats)
    }
}

/// A box laid out in a containing block with margin collapsing, and the margin
/// and floats after it.
#[verifier::opaque]
pub open spec fn laid_collapsing(
    sh: Shaper,
    b: BoxV,
    cb: Dimensions,
    margin: MarginCollapseContext,
    floats: FloatsV,
    base: Option<Num>,
    n: nat,
) -> (BoxV, MarginCollapseContext, FloatsV)
    decreases n, 0int, 0int,
{
    if n == 0 {
        (b, margin, floats)
    } else {
        let m = (n - 1) as nat;
        let (k, mc, fl) = kind_laid_collapsing(
            sh,
            b,
            cb,
            after_clear(b, margin, floats),
            floats,
            base,
            m,
        );
        let (k, fl) = if b.own.float != Float::Unset {
            float_laid(sh, k, cb, fl, m)
        } else {
            (k, fl)
        };
        (anchored(offset(k, cb), m), mc, fl)
    }
}

/// The height of a containing block as a base of percentages: none where it is
/// not positive.
pub open spec fn positive(h: Num) -> Option<Num> {
    if h > Num::nought() {
        Some(h)
    } else {
        None
    }
}

impl LayoutBox {
    /// Perform layout within the given containing block.
    pub fn layout(&mut self, shaper: &Shaper, containing_block: &Dimensions)
        ensures
            final(self)@ == laid(
                *shaper,
                old(self)@,
                *containing_block,
                positive(containing_block.content.height),
                old(self)@.height(),
            ),
            final(self)@.own == old(self)@.own,
    {
        self.layout_with_definite_height(
            shaper,
            containing_block,
            containing_block.content.height,
        );
    }

    /// Perform layout with an explicit definite height for percentage
    /// resolution.
    pub fn layout_with_definite_height(
        &mut self,
        shaper: &Shaper,
        containing_block: &Dimensions,
        definite_height: Num,
    )
        ensures
            final(self)@ == laid(
                *shaper,
                old(self)@,
                *containing_block,
                positive(definite_height),
                old(self)@.height(),
            ),
            final(self)@.own == old(self)@.own,
    {
        let base = if definite_height > Num::zero() {
            Some(definite_height)
        } else {
            None
        };
        self.layout_with_percent_base(shaper, containing_block, base);
    }

    /// Perform layout with a base for percentage heights, of which a definite
    /// zero is not the same as none.
    pub fn layout_with_percent_base(
        &mut self,
        shaper: &Shaper,
        containing_block: &Dimensions,
        definite_height: Option<Num>,
    )
        ensures
            final(self)@ == laid(
                *shaper,
                old(self)@,
                *containing_block,
                definite_height,
                old(self)@.height(),
            ),
            final(self)@.own == old(self)@.own,
    {
        let ghost n = self@.height();
        proof {
            tree::lemma_fits_height(self@);
        }
        self.lay(shaper, containing_block, definite_height, Ghost(n));
    }

    /// Flows the children of a box whose own width and place are settled, and
    /// gives its content the height they reach.
    pub fn layout_block_children(&mut self, shaper: &Shaper, definite_height: Option<Num>)
        ensures
            final(self)@ == flowed(
                *shaper,
                old(self)@,
                MarginCollapseContext::fresh(),
                FloatsV::none(),
                definite_height,
                false,
                (old(self)@.height() - 1) as nat,
            ).0,
            final(self)@.own == old(self)@.own,
    {
        let ghost m = (self@.height() - 1) as nat;
        proof {
            tree::lemma_fits_height(self@);
        }
        let mut margin = MarginCollapseContext::new();
        let mut floats = FloatContext::new();
        self.flow_children(shaper, &mut margin, &mut floats, definite_height, false, Ghost(m));
    }

    /// Perform layout with margin collapsing and float context.
    pub fn layout_with_collapse(
        &mut self,
        shaper: &Shaper,
        containing_block: &Dimensions,
        margin_context: &mut MarginCollapseContext,
        float_context: &mut FloatContext,
    )
        ensures
            (final(self)@, *final(margin_context), final(float_context)@) == laid_collapsing(
                *shaper,
                old(self)@,
                *containing_block,
                *old(margin_context),
                old(float_context)@,
                None,
                old(self)@.height(),
            ),
            final(self)@.own == old(self)@.own,
    {
        self.layout_with_collapse_in(
            shaper,
            containing_block,
            margin_context,
            float_context,
            None,
        );
    }

    /// Perform layout with margin collapsing, given the definite content
    /// height of the containing block for percentage resolution.
    pub fn layout_with_collapse_in(
        &mut self,
        shaper: &Shaper,
        containing_block: &Dimensions,
        margin_context: &mut MarginCollapseContext,
        float_context: &mut FloatContext,
        percent_height_base: Option<Num>,
    )
        ensures
            (final(self)@, *final(margin_context), final(float_context)@) == laid_collapsing(
                *shaper,
                old(self)@,
                *containing_block,
                *old(margin_context),
                old(float_context)@,
                percent_height_base,
                old(self)@.height(),
            ),
            final(self)@.own == old(self)@.own,
    {
        let ghost n = self@.height();
        proof {
            tree::lemma_fits_height(self@);
        }
        self.lay_collapsing(
            shaper,
            containing_block,
            margin_context,
            float_context,
            percent_height_base,
            Ghost(n),
        );
    }
}

/// A box out of flow takes no room: the flow goes on as if it were not there.
pub proof fn lemma_out_of_flow_takes_no_room(
    sh: Shaper,
    c: Container,
    v: StepV,
    i: usize,
    def: Option<Num>,
    collapse: bool,
    m: nat,
)
    requires
        v.child.own.position.is_out_of_flow(),
    ensures
        step(sh, c, v, i, def, collapse, m).st == v.st,
{
    reveal(step);
}

/// A floated block does not move the boxes after it down.
pub proof fn lemma_float_leaves_cursor(
    c: Container,
    st: FlowS,
    b: BoxV,
    i: usize,
    collapse: bool,
)
    requires
        b.own.float != Float::Unset,
    ensures
        block_taken(c, st, b, i, collapse).line.cursor_y == st.line.cursor_y,
{
    reveal(block_taken);
}

/// A forced break ends the line: the next member starts a line of its own, and
/// the break itself has no size.
pub proof fn lemma_break_starts_line(
    sh: Shaper,
    c: Container,
    v: StepV,
    i: usize,
    def: Option<Num>,
    collapse: bool,
    m: nat,
)
    requires
        v.child.own.box_type is LineBreak,
        !v.child.own.position.is_out_of_flow(),
    ensures
        ({
            let r = step(sh, c, v, i, def, collapse, m);
            &&& r.st.line.cursor_x == Num::nought()
            &&& r.st.line.start is None
            &&& r.child.dim.content.width == Num::nought()
            &&& r.child.dim.content.height == Num::nought()
        }),
{
    reveal(step);
    reveal(after_break);
}

/// Margins that a parent already took in through its open top edge are not
/// added again by its first block.
pub proof fn lemma_adjoined_top_counts_once(
    b: BoxV,
    chain: Seq<Num>,
    margin: MarginCollapseContext,
)
    requires
        margin.first_child_top_adjoined,
        !b.own.position.is_out_of_flow(),
        b.own.float == Float::Unset,
    ensures
        top_margins(b, chain, margin) == (MarginCollapseContext {
            first_child_top_adjoined: false,
            ..margin
        }),
{
    reveal(top_margins);
}

/// The margins of the children of a formatting root stay inside it.
pub proof fn lemma_root_keeps_margins_inside(
    b: BoxV,
    adjoined: bool,
    width: Num,
    floats: FloatsV,
)
    requires
        formatting_root(b.own.style, b.own.float),
    ensures
        top_chain(b, width, floats) == Seq::<Num>::empty(),
        !child_margins(b, true, adjoined).last_child_collapses_through,
{
    reveal(top_chain);
    reveal(child_margins);
    let o = b.own;
    crate::margin_collapse::lemma_formatting_root_blocks_collapse(
        o.style,
        o.float,
        o.px(b.viewport, o.style.border_top_width, width),
        o.px(b.viewport, o.style.padding_top, width),
    );
}

/// Clearance separates a first child from its parent: its margin does not
/// collapse through the parent's top edge.
pub proof fn lemma_clearance_ends_chain(b: BoxV, width: Num, floats: FloatsV, i: int)
    requires
        first_in_flow(b.children, 0) == Some(i),
        0 <= i < b.children.len(),
        has_clearance(b.children[i], floats),
    ensures
        top_chain(b, width, floats) == Seq::<Num>::empty(),
{
    reveal(top_chain);
}

/// A box below a cleared float starts with no pending margin.
pub proof fn lemma_clearance_separates_margins(
    b: BoxV,
    margin: MarginCollapseContext,
    floats: FloatsV,
)
    requires
        b.own.clear != Clear::Unset,
        floats.cleared(b.own.clear) > Num::nought(),
    ensures
        after_clear(b, margin, floats) == margin.emptied(),
{
    reveal(after_clear);
}

/// A box stacked with margin collapsing leaves the cursor at its border edge:
/// its bottom margin stays pending and can adjoin the next one.
pub proof fn lemma_cursor_at_border_edge(c: Container, st: FlowS, b: BoxV, i: usize)
    requires
        b.own.float == Float::Unset,
        !b.is_image(),
    ensures
        block_taken(c, st, b, i, true).line.cursor_y == b.dim.border_box().bottom()
            - c.dim.content.y,
        block_taken(c, st, b, i, true).margin == st.margin,
{
    reveal(block_taken);
}

/// Without margin collapsing, each block adds the height of its margin box.
pub proof fn lemma_blocks_stack(c: Container, st: FlowS, b: BoxV, i: usize)
    requires
        b.own.float == Float::Unset,
        !b.is_image(),
    ensures
        block_taken(c, st, b, i, false).line.cursor_y == st.line.cursor_y
            + b.dim.margin_box().height,
{
    reveal(block_taken);
}

} // verus!

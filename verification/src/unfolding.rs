//! The definitions of layout, each unfolded by one level.
//!
//! The definitions recurse through each other and stay folded elsewhere; what
//! is proved of one of them starts from its unfolding here.
use vstd::prelude::*;
use crate::block::{
    anchored, definite_height, offset, placed, with_content_height, with_height, with_vertical,
    with_widths,
};
use crate::boxes::BoxV;
use crate::floats::{Float, FloatExclusion, FloatsV};
use crate::flow::{
    after_break, below_block, block_taken, container, cursor_block, flows_inline, inline_taken,
    line_level, line_start_block, margin_spent, overflows_line, split_taken, splits, Container, FlowS,
};
use crate::geometry::{Dimensions, Rect};
use crate::layout::{
    after_clear, after_lines, after_splits, block_laid_collapsing, block_step, child_laid,
    child_margins, columns_flowed, float_laid, flow_from, flowed, inline_step, is_root, kind_laid,
    kind_laid_collapsing, laid, laid_collapsing, percent_base, step, top_chain, top_margins, StepV,
};
use crate::leaf::{break_laid, text_laid};
use crate::margin_collapse::MarginCollapseContext;
use crate::multicol::{balanced, columns};
use crate::num::Num;
use crate::text::Shaper;

verus! {

/// One child of the flow.
pub(crate) proof fn lemma_step(
    sh: Shaper,
    c: Container,
    v: StepV,
    i: usize,
    def: Option<Num>,
    collapse: bool,
    m: nat,
)
    ensures
        step(sh, c, v, i, def, collapse, m) == ({
            if v.child.own.position.is_out_of_flow() {
                // Laid out at its static position; the margins around it stay pending.
                let (k, _, floats) = child_laid(
                    sh,
                    v.child,
                    below_block(c, v.st.line),
                    v.st.margin,
                    v.floats,
                    None,
                    collapse,
                    m,
                );
                StepV { child: k, st: v.st, floats }
            } else {
                let st = if collapse && line_level(v.child) {
                    margin_spent(v.st)
                } else {
                    v.st
                };
                if v.child.own.box_type is LineBreak {
                    StepV {
                        child: break_laid(
                            v.child,
                            c.dim.content.x + st.line.cursor_x,
                            c.dim.content.y + st.line.cursor_y,
                        ),
                        st: after_break(c, st, i),
                        floats: v.floats,
                    }
                } else if flows_inline(sh, c, st.line, v.child) {
                    inline_step(sh, c, StepV { st, ..v }, i, def, collapse, m)
                } else if splits(v.child) {
                    let (k, s) = split_taken(sh, c, st, v.child, i);
                    StepV { child: k, st: s, floats: v.floats }
                } else {
                    block_step(sh, c, StepV { st, ..v }, i, def, collapse, m)
                }
            }
        }),
{
    reveal(step);
    reveal(child_laid);
    reveal(inline_step);
    reveal(block_step);
}

/// A child, with margin collapsing or without.
pub(crate) proof fn lemma_child_laid(
    sh: Shaper,
    b: BoxV,
    cb: Dimensions,
    margin: MarginCollapseContext,
    floats: FloatsV,
    def: Option<Num>,
    collapse: bool,
    m: nat,
)
    ensures
        child_laid(sh, b, cb, margin, floats, def, collapse, m) == ({
            if collapse {
                laid_collapsing(sh, b, cb, margin, floats, def, m)
            } else {
                (laid(sh, b, cb, percent_base(def, cb), m), margin, floats)
            }
        }),
{
    reveal(child_laid);
    reveal(laid);
    reveal(laid_collapsing);
}

/// An inline-level child taken into the line.
pub(crate) proof fn lemma_inline_step(
    sh: Shaper,
    c: Container,
    v: StepV,
    i: usize,
    def: Option<Num>,
    collapse: bool,
    m: nat,
)
    ensures
        inline_step(sh, c, v, i, def, collapse, m) == ({
            let (k1, m1, f1) = child_laid(
                sh,
                v.child,
                cursor_block(c, v.st.line),
                MarginCollapseContext::fresh(),
                v.floats,
                def,
                collapse,
                m,
            );
            let width = k1.dim.margin_box().width;
            let height = k1.dim.margin_box().height;
            if overflows_line(c, v.st.line, width) {
                let st = v.st.closed(c, i, Some(i));
                let (k2, _, f2) = child_laid(
                    sh,
                    k1,
                    line_start_block(c, st.line),
                    m1,
                    f1,
                    def,
                    collapse,
                    m,
                );
                let (k, s) = inline_taken(sh, c, st, k2, width, height, i);
                StepV { child: k, st: s, floats: f2 }
            } else {
                let (k, s) = inline_taken(sh, c, v.st, k1, width, height, i);
                StepV { child: k, st: s, floats: f1 }
            }
        }),
{
    reveal(inline_step);
    reveal(child_laid);
}

/// A block-level child stacked below.
pub(crate) proof fn lemma_block_step(
    sh: Shaper,
    c: Container,
    v: StepV,
    i: usize,
    def: Option<Num>,
    collapse: bool,
    m: nat,
)
    ensures
        block_step(sh, c, v, i, def, collapse, m) == ({
            let st = v.st.closed_if_used(c, i);
            let cb = below_block(c, st.line);
            let (k, margin, floats) = if c.zero && v.child.is_text() {
                (text_laid(sh, v.child, cb, true), st.margin, v.floats)
            } else {
                child_laid(sh, v.child, cb, st.margin, v.floats, def, collapse, m)
            };
            StepV {
                child: k,
                st: block_taken(c, FlowS { margin, ..st }, k, i, collapse),
                floats,
            }
        }),
{
    reveal(block_step);
    reveal(child_laid);
}

/// The children of a block, in columns where it has any.
pub(crate) proof fn lemma_columns_flowed(
    sh: Shaper,
    b: BoxV,
    margin: MarginCollapseContext,
    floats: FloatsV,
    def: Option<Num>,
    m: nat,
)
    ensures
        columns_flowed(sh, b, margin, floats, def, m) == ({
            let s = b.own.style;
            let cols = columns(s, b.dim.content.width);
            if s.display.is_flex() || s.display.is_grid() || cols is None {
                flowed(sh, b, margin, floats, def, true, m)
            } else {
                let narrow = Dimensions {
                    content: Rect { width: cols->0.width, ..b.dim.content },
                    ..b.dim
                };
                let (k, mc, fl) = flowed(sh, b.with_dim(narrow), margin, floats, def, true, m);
                let wide = Dimensions {
                    content: Rect { width: b.dim.content.width, ..k.dim.content },
                    ..k.dim
                };
                (balanced(k.with_dim(wide), cols->0), mc, fl)
            }
        }),
{
    reveal(columns_flowed);
    reveal(flowed);
}

/// A block with margin collapsing.
pub(crate) proof fn lemma_block_laid_collapsing(
    sh: Shaper,
    b: BoxV,
    cb: Dimensions,
    margin: MarginCollapseContext,
    floats: FloatsV,
    base: Option<Num>,
    m: nat,
)
    ensures
        block_laid_collapsing(sh, b, cb, margin, floats, base, m) == ({
            let d = with_vertical(b.own, b.viewport, with_widths(b.own, b.viewport, b.dim, cb), cb);
            let b1 = b.with_dim(d);
            let root = is_root(b, margin);
            let chain = if root {
                Seq::empty()
            } else {
                top_chain(b1, d.content.width, floats)
            };
            let before = top_margins(b1, chain, margin);
            let b2 = b.with_dim(placed(d, cb, before.total()));
            let for_children = definite_height(
                b.own,
                b.viewport,
                b2.dim,
                match base {
                    Some(h) => h,
                    None => cb.content.height,
                },
            );
            let (k, inner, fl) = columns_flowed(
                sh,
                b2,
                child_margins(b2, root, chain.len() > 0),
                floats,
                for_children,
                m,
            );
            let k = k.with_dim(with_height(b.own, b.viewport, k.dim, percent_base(base, cb)));
            let after = before.emptied().with(k.dim.margin.bottom);
            (
                k,
                if inner.last_child_collapses_through {
                    after.with(inner.positive_margin).with(inner.negative_margin)
                } else {
                    after
                },
                fl,
            )
        }),
{
    reveal(block_laid_collapsing);
    reveal(columns_flowed);
}

/// A box by kind, with margin collapsing.
pub(crate) proof fn lemma_kind_laid_collapsing(
    sh: Shaper,
    b: BoxV,
    cb: Dimensions,
    margin: MarginCollapseContext,
    floats: FloatsV,
    base: Option<Num>,
    m: nat,
)
    ensures
        kind_laid_collapsing(sh, b, cb, margin, floats, base, m) == ({
            if b.is_block() {
                block_laid_collapsing(sh, b, cb, margin, floats, base, m)
            } else {
                (kind_laid(sh, b, cb, None, m), margin, floats)
            }
        }),
{
    reveal(kind_laid_collapsing);
    reveal(block_laid_collapsing);
    reveal(kind_laid);
}

/// A box with margin collapsing.
pub(crate) proof fn lemma_laid_collapsing(
    sh: Shaper,
    b: BoxV,
    cb: Dimensions,
    margin: MarginCollapseContext,
    floats: FloatsV,
    base: Option<Num>,
    n: nat,
)
    ensures
        laid_collapsing(sh, b, cb, margin, floats, base, n) == ({
            if n == 0 {
                (b, margin, floats)
            } else {
                let m = (n - 1) as nat;
                let (k, mc, fl) = kind_laid_collapsing(
                    sh,
                    b,
                    cb,
                    after_clear(b, margin, floats),
                    floats,
                    base,
                    m,
                );
                let (k, fl) = if b.own.float != Float::Unset {
                    float_laid(sh, k, cb, fl, m)
                } else {
                    (k, fl)
                };
                (anchored(offset(k, cb), m), mc, fl)
            }
        }),
{
    reveal(laid_collapsing);
    reveal(kind_laid_collapsing);
    reveal(float_laid);
}

/// A block with its children in flow.
pub(crate) proof fn lemma_flowed(
    sh: Shaper,
    b: BoxV,
    margin: MarginCollapseContext,
    floats: FloatsV,
    def: Option<Num>,
    collapse: bool,
    m: nat,
)
    ensures
        flowed(sh, b, margin, floats, def, collapse, m) == ({
            let c = container(sh, b);
            let n = b.children.len();
            let (kids, st, fl) = flow_from(
                sh,
                c,
                b.children,
                FlowS::start(margin),
                floats,
                0,
                n as int,
                def,
                collapse,
                m,
            );
            let st = st.closed_if_used(c, n as usize);
            let width = b.dim.content.width;
            let kids = after_splits(kids, st.splits, width, c.text_align);
            let kids = after_lines(sh, kids, st.lines, width, c.text_align, b.own.style);
            let st = if collapse && !st.margin.last_child_collapses_through {
                margin_spent(st)
            } else {
                st
            };
            (
                BoxV { children: kids, dim: with_content_height(b.dim, st.line.cursor_y), ..b },
                st.margin,
                fl,
            )
        }),
{
    reveal(flowed);
    reveal(flow_from);
}

/// A floated box beside the floats at its height.
pub(crate) proof fn lemma_float_laid(
    sh: Shaper,
    b: BoxV,
    cb: Dimensions,
    floats: FloatsV,
    m: nat,
)
    ensures
        float_laid(sh, b, cb, floats, m) == ({
            let d = with_vertical(b.own, b.viewport, with_widths(b.own, b.viewport, b.dim, cb), cb);
            let (left, right) = floats.edges(cb.content.y + cb.content.height, cb.content.width);
            let x = match b.own.float {
                Float::Left => cb.content.x + left + d.margin.left + d.border.left + d.padding.left,
                Float::Right => cb.content.x + right - d.margin_box().width + d.margin.left
                    + d.border.left + d.padding.left,
                Float::Unset => d.content.x,
            };
            let d1 = Dimensions { content: Rect { x, ..d.content }, ..d };
            let fl = match b.own.float {
                Float::Left => FloatsV {
                    left: floats.left.push(
                        FloatExclusion { rect: d1.margin_box(), float_type: Float::Left },
                    ),
                    ..floats
                },
                Float::Right => FloatsV {
                    right: floats.right.push(
                        FloatExclusion { rect: d1.margin_box(), float_type: Float::Right },
                    ),
                    ..floats
                },
                Float::Unset => floats,
            };
            let d2 = Dimensions {
                content: Rect {
                    y: cb.content.y + cb.content.height + d1.margin.top + d1.border.top
                        + d1.padding.top,
                    ..d1.content
                },
                ..d1
            };
            let for_children = definite_height(b.own, b.viewport, d2, cb.content.height);
            let (k, _, _) = flowed(
                sh,
                b.with_dim(d2),
                MarginCollapseContext::fresh(),
                FloatsV::none(),
                for_children,
                false,
                m,
            );
            (k.with_dim(with_height(b.own, b.viewport, k.dim, percent_base(None, cb))), fl)
        }),
{
    reveal(float_laid);
    reveal(flowed);
}

/// A box without margin collapsing.
pub(crate) proof fn lemma_laid(
    sh: Shaper,
    b: BoxV,
    cb: Dimensions,
    def: Option<Num>,
    n: nat,
)
    ensures
        laid(sh, b, cb, def, n) == ({
            if n == 0 {
                b
            } else {
                let m = (n - 1) as nat;
                anchored(offset(kind_laid(sh, b, cb, def, m), cb), m)
            }
        }),
{
    reveal(laid);
    reveal(kind_laid);
}

} // verus!

//! The margin pending at the end of a block: whether it stays pending or comes
//! inside changes nothing else.
use vstd::prelude::*;
use crate::block::with_content_height;
use crate::boxes::BoxV;
use crate::floats::FloatsV;
use crate::flow::{
    after_break, block_taken, inline_taken, margin_spent, split_taken, Container, FlowS,
};
use crate::geometry::Dimensions;
use crate::layout::{
    after_clear, block_laid_collapsing, block_step, child_laid, flow_from, flowed, inline_step,
    laid_collapsing, step, top_margins, StepV,
};
use crate::margin_collapse::MarginCollapseContext;
use crate::num::Num;
use crate::text::Shaper;
use crate::unfolding;

verus! {

/// A margin context that lets the last margin through or not.
pub open spec fn passing(m: MarginCollapseContext, f: bool) -> MarginCollapseContext {
    MarginCollapseContext { last_child_collapses_through: f, ..m }
}

/// A flow that lets the last margin through or not.
pub open spec fn flow_passing(st: FlowS, f: bool) -> FlowS {
    FlowS { margin: passing(st.margin, f), ..st }
}

proof fn lemma_with_all(m: MarginCollapseContext, chain: Seq<Num>, f: bool)
    ensures
        passing(m, f).with_all(chain) == passing(m.with_all(chain), f),
    decreases chain.len(),
{
    if chain.len() > 0 {
        lemma_with_all(m, chain.drop_last(), f);
    }
}

proof fn lemma_block(
    sh: Shaper,
    b: BoxV,
    cb: Dimensions,
    m: MarginCollapseContext,
    floats: FloatsV,
    base: Option<Num>,
    n: nat,
    f: bool,
)
    ensures
        ({
            let (k, mc, fl) = block_laid_collapsing(sh, b, cb, m, floats, base, n);
            block_laid_collapsing(sh, b, cb, passing(m, f), floats, base, n) == (
                k,
                passing(mc, f),
                fl,
            )
        }),
{
    unfolding::lemma_block_laid_collapsing(sh, b, cb, m, floats, base, n);
    unfolding::lemma_block_laid_collapsing(sh, b, cb, passing(m, f), floats, base, n);
    assert forall|x: BoxV, chain: Seq<Num>|
        #[trigger] top_margins(x, chain, passing(m, f)) == passing(
            top_margins(x, chain, m), f,
        ) by {
        reveal(top_margins);
        let taken = MarginCollapseContext { first_child_top_adjoined: false, ..m };
        lemma_with_all(taken.with(x.dim.margin.top), chain, f);
        lemma_with_all(m.with(x.dim.margin.top), chain, f);
    }
}

proof fn lemma_laid(
    sh: Shaper,
    b: BoxV,
    cb: Dimensions,
    m: MarginCollapseContext,
    floats: FloatsV,
    base: Option<Num>,
    n: nat,
    f: bool,
)
    ensures
        ({
            let (k, mc, fl) = laid_collapsing(sh, b, cb, m, floats, base, n);
            laid_collapsing(sh, b, cb, passing(m, f), floats, base, n) == (
                k,
                passing(mc, f),
                fl,
            )
        }),
{
    let t = passing(m, f);
    unfolding::lemma_laid_collapsing(sh, b, cb, m, floats, base, n);
    unfolding::lemma_laid_collapsing(sh, b, cb, t, floats, base, n);
    if n > 0 {
        let below = (n - 1) as nat;
        let cleared = after_clear(b, m, floats);
        assert(after_clear(b, t, floats) == passing(cleared, f)) by {
            reveal(after_clear);
        }
        unfolding::lemma_kind_laid_collapsing(sh, b, cb, cleared, floats, base, below);
        unfolding::lemma_kind_laid_collapsing(
            sh,
            b,
            cb,
            passing(cleared, f),
            floats,
            base,
            below,
        );
        lemma_block(sh, b, cb, cleared, floats, base, below, f);
    }
}

proof fn lemma_child(
    sh: Shaper,
    b: BoxV,
    cb: Dimensions,
    m: MarginCollapseContext,
    floats: FloatsV,
    def: Option<Num>,
    n: nat,
    f: bool,
)
    ensures
        ({
            let (k, mc, fl) = child_laid(sh, b, cb, m, floats, def, true, n);
            child_laid(sh, b, cb, passing(m, f), floats, def, true, n) == (
                k,
                passing(mc, f),
                fl,
            )
        }),
{
    unfolding::lemma_child_laid(sh, b, cb, m, floats, def, true, n);
    unfolding::lemma_child_laid(sh, b, cb, passing(m, f), floats, def, true, n);
    lemma_laid(sh, b, cb, m, floats, def, n, f);
}

proof fn lemma_inline(
    sh: Shaper,
    c: Container,
    v: StepV,
    i: usize,
    def: Option<Num>,
    n: nat,
    f: bool,
)
    ensures
        ({
            let r = inline_step(sh, c, v, i, def, true, n);
            let t = StepV { st: flow_passing(v.st, f), ..v };
            inline_step(sh, c, t, i, def, true, n) == (StepV {
                st: flow_passing(r.st, f),
                ..r
            })
        }),
{
    let t = StepV { st: flow_passing(v.st, f), ..v };
    unfolding::lemma_inline_step(sh, c, v, i, def, true, n);
    unfolding::lemma_inline_step(sh, c, t, i, def, true, n);
    assert forall|st: FlowS, b: BoxV, w: Num, h: Num|
        #[trigger] inline_taken(sh, c, flow_passing(st, f), b, w, h, i) == (
            inline_taken(sh, c, st, b, w, h, i).0,
            flow_passing(inline_taken(sh, c, st, b, w, h, i).1, f),
        ) by {
        reveal(inline_taken);
    }
    let closed = v.st.closed(c, i, Some(i));
    assert(t.st.closed(c, i, Some(i)) == flow_passing(closed, f));
}

proof fn lemma_block_step(
    sh: Shaper,
    c: Container,
    v: StepV,
    i: usize,
    def: Option<Num>,
    n: nat,
    f: bool,
)
    ensures
        ({
            let r = block_step(sh, c, v, i, def, true, n);
            let t = StepV { st: flow_passing(v.st, f), ..v };
            block_step(sh, c, t, i, def, true, n) == (StepV {
                st: flow_passing(r.st, f),
                ..r
            })
        }),
{
    let t = StepV { st: flow_passing(v.st, f), ..v };
    unfolding::lemma_block_step(sh, c, v, i, def, true, n);
    unfolding::lemma_block_step(sh, c, t, i, def, true, n);
    let st = v.st.closed_if_used(c, i);
    assert(t.st.closed_if_used(c, i) == flow_passing(st, f));
    lemma_child(sh, v.child, crate::flow::below_block(c, st.line), st.margin, v.floats, def, n, f);
    assert forall|s: FlowS, b: BoxV|
        #[trigger] block_taken(c, flow_passing(s, f), b, i, true) == flow_passing(
            block_taken(c, s, b, i, true), f,
        ) by {
        reveal(block_taken);
    }
    let (k, margin, floats) = if c.zero && v.child.is_text() {
        (
            crate::leaf::text_laid(sh, v.child, crate::flow::below_block(c, st.line), true),
            st.margin,
            v.floats,
        )
    } else {
        child_laid(
            sh,
            v.child,
            crate::flow::below_block(c, st.line),
            st.margin,
            v.floats,
            def,
            true,
            n,
        )
    };
    let s = FlowS { margin, ..st };
    assert(FlowS { margin: passing(margin, f), ..flow_passing(st, f) }
        == flow_passing(s, f));
    assert(block_taken(c, flow_passing(s, f), k, i, true) == flow_passing(
        block_taken(c, s, k, i, true), f,
    ));
}

proof fn lemma_step(
    sh: Shaper,
    c: Container,
    v: StepV,
    i: usize,
    def: Option<Num>,
    n: nat,
    f: bool,
)
    ensures
        ({
            let r = step(sh, c, v, i, def, true, n);
            let t = StepV { st: flow_passing(v.st, f), ..v };
            step(sh, c, t, i, def, true, n) == (StepV { st: flow_passing(r.st, f), ..r })
        }),
{
    let t = StepV { st: flow_passing(v.st, f), ..v };
    unfolding::lemma_step(sh, c, v, i, def, true, n);
    unfolding::lemma_step(sh, c, t, i, def, true, n);
    if v.child.own.position.is_out_of_flow() {
        lemma_child(
            sh,
            v.child,
            crate::flow::below_block(c, v.st.line),
            v.st.margin,
            v.floats,
            None,
            n,
            f,
        );
    } else {
        let st = if crate::flow::line_level(v.child) {
            margin_spent(v.st)
        } else {
            v.st
        };
        assert(margin_spent(t.st) == flow_passing(margin_spent(v.st), f));
        let u = StepV { st, ..v };
        assert(StepV { st: flow_passing(st, f), ..t } == StepV {
            st: flow_passing(u.st, f),
            ..u
        });
        lemma_inline(sh, c, u, i, def, n, f);
        lemma_block_step(sh, c, u, i, def, n, f);
        assert(after_break(c, flow_passing(st, f), i) == flow_passing(
            after_break(c, st, i), f,
        )) by {
            reveal(after_break);
        }
        assert(split_taken(sh, c, flow_passing(st, f), v.child, i) == (
            split_taken(sh, c, st, v.child, i).0,
            flow_passing(split_taken(sh, c, st, v.child, i).1, f),
        )) by {
            reveal(split_taken);
        }
    }
}

proof fn lemma_flow(
    sh: Shaper,
    c: Container,
    kids: Seq<BoxV>,
    st: FlowS,
    floats: FloatsV,
    i: int,
    total: int,
    def: Option<Num>,
    n: nat,
    f: bool,
)
    ensures
        ({
            let (k, s, fl) = flow_from(sh, c, kids, st, floats, i, total, def, true, n);
            flow_from(
                sh,
                c,
                kids,
                flow_passing(st, f),
                floats,
                i,
                total,
                def,
                true,
                n,
            ) == (k, flow_passing(s, f), fl)
        }),
    decreases total - i,
{
    if i >= total {
        reveal(flow_from);
    } else {
        let t = flow_passing(st, f);
        crate::children::lemma_flow_from_step(sh, c, kids, st, floats, i, total, def, true, n);
        crate::children::lemma_flow_from_step(sh, c, kids, t, floats, i, total, def, true, n);
        let v = StepV { child: kids[i], st, floats };
        let r = step(sh, c, v, i as usize, def, true, n);
        lemma_step(sh, c, v, i as usize, def, n, f);
        lemma_flow(
            sh,
            c,
            kids.update(i, r.child),
            r.st,
            r.floats,
            i + 1,
            total,
            def,
            n,
            f,
        );
    }
}

/// Whether the last child's bottom margin stays pending or comes inside the
/// block, the children get the same geometry, and so do the floats. Where it
/// comes inside, the content is higher by what stays pending in the other case,
/// and nothing is pending.
pub proof fn lemma_pending_margin_is_all(
    sh: Shaper,
    b: BoxV,
    margin: MarginCollapseContext,
    floats: FloatsV,
    def: Option<Num>,
    n: nat,
)
    requires
        !margin.last_child_collapses_through,
    ensures
        ({
            let (inside, spent, fl) = flowed(sh, b, margin, floats, def, true, n);
            let (open, pending, fl_open) = flowed(
                sh,
                b,
                passing(margin, true),
                floats,
                def,
                true,
                n,
            );
            &&& inside.children == open.children && fl == fl_open
            &&& inside == (BoxV {
                dim: with_content_height(
                    open.dim,
                    open.dim.content.height + pending.total(),
                ),
                ..open
            })
            &&& spent.total().same(Num::nought())
        }),
{
    let t = passing(margin, true);
    unfolding::lemma_flowed(sh, b, margin, floats, def, true, n);
    unfolding::lemma_flowed(sh, b, t, floats, def, true, n);
    let c = crate::flow::container(sh, b);
    let start = FlowS::start(margin);
    let len = b.children.len() as int;
    lemma_flow(sh, c, b.children, start, floats, 0, len, def, n, true);
    lemma_flow(sh, c, b.children, start, floats, 0, len, def, n, false);
    assert(FlowS::start(t) == flow_passing(start, true));
    assert(start == flow_passing(start, false));
    crate::margin_collapse::lemma_zero_is_number();
    crate::exact::lemma_nothing_added(Num::nought());
}

} // verus!

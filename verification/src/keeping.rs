//! What layout leaves alone: it gives boxes their geometry and lines, and keeps
//! every box in its place in the tree, with all that came from its element.
use vstd::prelude::*;
use crate::align::{self, aligned, on_baseline, split_closed};
use crate::baseline::{self, seated};
use crate::block::{
    anchored, carried, definite_height, offset, placed, reanchored, with_height, with_vertical,
    with_widths,
};
use crate::boxes::{BoxType, BoxV};
use crate::floats::{Float, FloatsV};
use crate::flow::{
    at_cursor, container, inline_taken, seated_at_cursor, split_taken, Container, FlowS, LineRecord,
    SplitRecord,
};
use crate::geometry::{Dimensions, Rect};
use crate::layout::{
    after_lines, after_splits, block_laid, block_laid_collapsing, block_step, child_laid,
    columns_flowed, float_laid, flow_from, flowed, inline_from, inline_laid, inline_step, kind_laid,
    kind_laid_collapsing, laid, laid_collapsing, step, StepV,
};
use crate::leaf;
use crate::margin_collapse::MarginCollapseContext;
use crate::multicol::{self, balanced, ColumnGeometry, Piece, Place};
use crate::num::Num;
use crate::style::{ComputedStyle, TextAlign};
use crate::text::Shaper;
use crate::tree::{shifted, shifted_all};
use crate::unfolding;

verus! {

/// Whether two trees hold the same boxes in the same places, whatever their
/// geometry.
#[verifier::opaque]
pub open spec fn alike(a: BoxV, b: BoxV) -> bool
    decreases a,
{
    &&& a.own == b.own
    &&& a.viewport == b.viewport
    &&& a.children.len() == b.children.len()
    &&& forall|i: int|
        0 <= i < a.children.len() ==> alike(#[trigger] a.children[i], b.children[i])
}

/// Whether two rows of trees are alike.
#[verifier::opaque]
pub open spec fn alike_all(s: Seq<BoxV>, t: Seq<BoxV>) -> bool {
    &&& s.len() == t.len()
    &&& forall|i: int| 0 <= i < s.len() ==> alike(#[trigger] s[i], t[i])
}

/// A tree is like itself.
proof fn lemma_self(a: BoxV)
    ensures
        alike(a, a),
    decreases a,
{
    reveal(alike);
    assert forall|i: int| 0 <= i < a.children.len() implies alike(
        #[trigger] a.children[i],
        a.children[i],
    ) by {
        lemma_self(a.children[i]);
    }
}

proof fn lemma_self_all(s: Seq<BoxV>)
    ensures
        alike_all(s, s),
{
    reveal(alike_all);
    assert forall|i: int| 0 <= i < s.len() implies alike(#[trigger] s[i], s[i]) by {
        lemma_self(s[i]);
    }
}

/// Likeness carries over.
proof fn lemma_chain(a: BoxV, b: BoxV, c: BoxV)
    requires
        alike(a, b),
        alike(b, c),
    ensures
        alike(a, c),
    decreases a,
{
    reveal(alike);
    assert forall|i: int| 0 <= i < a.children.len() implies alike(
        #[trigger] a.children[i],
        c.children[i],
    ) by {
        assert(alike(a.children[i], b.children[i]));
        assert(alike(b.children[i], c.children[i]));
        lemma_chain(a.children[i], b.children[i], c.children[i]);
    }
}

proof fn lemma_chain_all(s: Seq<BoxV>, t: Seq<BoxV>, u: Seq<BoxV>)
    requires
        alike_all(s, t),
        alike_all(t, u),
    ensures
        alike_all(s, u),
{
    reveal(alike_all);
    assert forall|i: int| 0 <= i < s.len() implies alike(#[trigger] s[i], u[i]) by {
        assert(alike(t[i], u[i]));
        lemma_chain(s[i], t[i], u[i]);
    }
}

/// Boxes with like children are alike where they are the same themselves.
proof fn lemma_from_children(a: BoxV, b: BoxV)
    requires
        a.own == b.own,
        a.viewport == b.viewport,
        alike_all(a.children, b.children),
    ensures
        alike(a, b),
{
    reveal(alike);
    reveal(alike_all);
}

proof fn lemma_same_children(a: BoxV, b: BoxV)
    requires
        a.own == b.own,
        a.viewport == b.viewport,
        a.children == b.children,
    ensures
        alike(a, b),
{
    lemma_self_all(a.children);
    lemma_from_children(a, b);
}

/// Moving a subtree keeps its boxes.
pub proof fn lemma_shifting_keeps_boxes(b: BoxV, dx: Num, dy: Num)
    ensures
        alike(b, shifted(b, dx, dy)),
    decreases b,
{
    reveal(shifted);
    reveal(alike);
    let c = shifted(b, dx, dy);
    assert forall|i: int| 0 <= i < b.children.len() implies alike(
        #[trigger] b.children[i],
        c.children[i],
    ) by {
        lemma_shifting_keeps_boxes(b.children[i], dx, dy);
    }
}

proof fn lemma_shifted_all(s: Seq<BoxV>, dx: Num, dy: Num)
    ensures
        alike_all(s, shifted_all(s, dx, dy)),
{
    reveal(shifted);
    reveal(alike_all);
    assert forall|i: int| 0 <= i < s.len() implies alike(
        #[trigger] s[i],
        shifted_all(s, dx, dy)[i],
    ) by {
        lemma_shifting_keeps_boxes(s[i], dx, dy);
    }
}

proof fn lemma_seated(b: BoxV, dy: Num)
    ensures
        alike(b, seated(b, dy)),
    decreases b,
{
    reveal(seated);
    reveal(alike);
    let c = seated(b, dy);
    assert forall|i: int| 0 <= i < b.children.len() implies alike(
        #[trigger] b.children[i],
        c.children[i],
    ) by {
        match b.children[i].own.box_type {
            BoxType::Text(_) => {
                lemma_self(b.children[i]);
            },
            BoxType::Inline => {
                lemma_seated(b.children[i], dy);
            },
            _ => {
                lemma_shifting_keeps_boxes(b.children[i], Num::nought(), dy);
            },
        }
    }
}

proof fn lemma_carried(b: BoxV, x: Num, y: Num)
    ensures
        alike(b, carried(b, x, y)),
{
    reveal(carried);
    let dx = b.dim.content.x - x;
    let dy = b.dim.content.y - y;
    lemma_shifted_all(b.children, dx, dy);
    lemma_self_all(b.children);
    lemma_from_children(b, carried(b, x, y));
}

/// Offsets keep the boxes.
pub proof fn lemma_offset_keeps_boxes(b: BoxV, cb: Dimensions)
    ensures
        alike(b, offset(b, cb)),
{
    reveal(offset);
    let o = crate::block::offset_own(b, cb);
    lemma_same_children(b, o);
    lemma_carried(o, b.dim.content.x, b.dim.content.y);
    lemma_chain(b, o, offset(b, cb));
}

proof fn lemma_reanchored(b: BoxV, cb: Dimensions, n: nat)
    ensures
        alike(b, reanchored(b, cb, n)),
    decreases n, 0int,
{
    reveal(reanchored);
    reveal(anchored);
    if n == 0 || b.own.position != crate::boxes::Position::Absolute {
        lemma_self(b);
    } else {
        let h = b.own.style.height;
        let d = if h is Percent || h is Calc {
            with_height(b.own, b.viewport, b.dim, Some(cb.content.height))
        } else {
            b.dim
        };
        let d = crate::block::with_offsets(b.own, d, cb);
        let p = b.with_dim(d);
        let c = carried(p, b.dim.content.x, b.dim.content.y);
        lemma_same_children(b, p);
        lemma_carried(p, b.dim.content.x, b.dim.content.y);
        lemma_chain(b, p, c);
        lemma_anchoring_keeps_boxes(c, (n - 1) as nat);
        lemma_chain(b, c, anchored(c, (n - 1) as nat));
    }
}

/// Anchoring the absolutely positioned children keeps the boxes.
pub proof fn lemma_anchoring_keeps_boxes(b: BoxV, n: nat)
    ensures
        alike(b, anchored(b, n)),
    decreases n, 2int,
{
    reveal(reanchored);
    reveal(alike);
    reveal(anchored);
    let c = anchored(b, n);
    let cb = Dimensions::around(b.dim.padding_box());
    assert forall|i: int| 0 <= i < b.children.len() implies alike(
        #[trigger] b.children[i],
        c.children[i],
    ) by {
        lemma_reanchored(b.children[i], cb, n);
    }
}

proof fn lemma_aligned(
    sh: Shaper,
    s: Seq<BoxV>,
    start: int,
    end: int,
    width: Num,
    c: Num,
    align: TextAlign,
)
    ensures
        alike_all(s, aligned(sh, s, start, end, width, c, align)),
{
    reveal(align::aligned_member);
    reveal(alike_all);
    let t = aligned(sh, s, start, end, width, c, align);
    let offset = align::align_offset(align, c, width);
    assert forall|i: int| 0 <= i < s.len() implies alike(#[trigger] s[i], t[i]) by {
        lemma_shifting_keeps_boxes(s[i], offset, Num::nought());
        if !(t[i] == shifted(s[i], offset, Num::nought())) {
            lemma_same_children(s[i], t[i]);
        }
    }
}

proof fn lemma_split_closed(s: Seq<BoxV>, start: int, at: int, c: Num, align: TextAlign)
    ensures
        alike_all(s, split_closed(s, start, at, c, align)),
{
    reveal(align::split_sibling);
    reveal(align::split_run);
    reveal(alike_all);
    let t = split_closed(s, start, at, c, align);
    let dx = align::split_offset(s[at], c, align);
    assert forall|i: int| 0 <= i < s.len() implies alike(#[trigger] s[i], t[i]) by {
        lemma_shifting_keeps_boxes(s[i], dx, Num::nought());
        if !(t[i] == shifted(s[i], dx, Num::nought())) {
            lemma_same_children(s[i], t[i]);
        }
    }
}

proof fn lemma_on_baseline(
    sh: Shaper,
    s: Seq<BoxV>,
    start: int,
    end: int,
    style: ComputedStyle,
)
    ensures
        alike_all(s, on_baseline(sh, s, start, end, style)),
{
    reveal(align::seated_member);
    reveal(alike_all);
    let t = on_baseline(sh, s, start, end, style);
    let base = align::line_baseline(sh, s, start, end, style);
    let x_height = style.font_px() * Num::ratio(1, 2);
    assert forall|i: int| 0 <= i < s.len() implies alike(#[trigger] s[i], t[i]) by {
        lemma_self(s[i]);
        match align::member_target(sh, s[i], base, x_height) {
            Some(target) => {
                lemma_shifting_keeps_boxes(
                    s[i],
                    Num::nought(),
                    target - align::member_top(sh, s[i]),
                );
            },
            None => {},
        }
    }
}

proof fn lemma_after_splits(s: Seq<BoxV>, records: Seq<SplitRecord>, width: Num, align: TextAlign)
    ensures
        alike_all(s, after_splits(s, records, width, align)),
    decreases records.len(),
{
    if records.len() == 0 {
        lemma_self_all(s);
    } else {
        let r = records.last();
        let before = after_splits(s, records.drop_last(), width, align);
        lemma_after_splits(s, records.drop_last(), width, align);
        lemma_split_closed(before, r.start as int, r.text as int, width, align);
        lemma_chain_all(s, before, after_splits(s, records, width, align));
    }
}

proof fn lemma_after_lines(
    sh: Shaper,
    s: Seq<BoxV>,
    records: Seq<LineRecord>,
    width: Num,
    align: TextAlign,
    style: ComputedStyle,
)
    ensures
        alike_all(s, after_lines(sh, s, records, width, align, style)),
    decreases records.len(),
{
    if records.len() == 0 {
        lemma_self_all(s);
    } else {
        let r = records.last();
        let before = after_lines(sh, s, records.drop_last(), width, align, style);
        lemma_after_lines(sh, s, records.drop_last(), width, align, style);
        let along = aligned(sh, before, r.start as int, r.end as int, r.width, width, align);
        lemma_aligned(sh, before, r.start as int, r.end as int, r.width, width, align);
        lemma_on_baseline(sh, along, r.start as int, r.end as int, style);
        lemma_chain_all(s, before, along);
        lemma_chain_all(s, along, after_lines(sh, s, records, width, align, style));
    }
}

proof fn lemma_inline_taken(
    sh: Shaper,
    c: Container,
    st: FlowS,
    b: BoxV,
    width: Num,
    height: Num,
    i: usize,
)
    ensures
        alike(b, inline_taken(sh, c, st, b, width, height, i).0),
{
    reveal(inline_taken);
    reveal(seated_at_cursor);
    reveal(at_cursor);
    let k = at_cursor(c, st.line, b);
    let half = baseline::content_area(sh, b.own.style).1;
    lemma_same_children(b, k);
    lemma_seated(k, half);
    lemma_chain(b, k, seated(k, half));
}

/// A row in which one tree is replaced by one like it.
proof fn lemma_replaced(s: Seq<BoxV>, i: int, b: BoxV)
    requires
        0 <= i < s.len(),
        alike(s[i], b),
    ensures
        alike_all(s, s.update(i, b)),
{
    reveal(alike_all);
    assert forall|j: int| 0 <= j < s.len() implies alike(
        #[trigger] s[j],
        s.update(i, b)[j],
    ) by {
        if j != i {
            lemma_self(s[j]);
        }
    }
}

/// Rows that are alike are of one length.
proof fn lemma_lengths(s: Seq<BoxV>, t: Seq<BoxV>)
    requires
        alike_all(s, t),
    ensures
        s.len() == t.len(),
{
    reveal(alike_all);
}

proof fn lemma_distributed(
    s: Seq<BoxV>,
    pieces: Seq<Piece>,
    at: Seq<Place>,
    cols: ColumnGeometry,
    k: int,
)
    requires
        0 <= k <= pieces.len(),
        forall|i: int| 0 <= i < pieces.len() ==> (#[trigger] pieces[i]).index < s.len(),
    ensures
        alike_all(s, multicol::distributed(s, pieces, at, cols, k)),
    decreases k,
{
    lemma_self_all(s);
    if k > 0 {
        let before = multicol::distributed(s, pieces, at, cols, k - 1);
        let after = multicol::distributed(s, pieces, at, cols, k);
        lemma_distributed(s, pieces, at, cols, k - 1);
        let j = pieces[k - 1].index as int;
        lemma_lengths(s, before);
        lemma_self(before[j]);
        lemma_shifting_keeps_boxes(
            before[j],
            Num::whole(at[k - 1].column as int) * (cols.width + cols.gap),
            Num::negated(at[k - 1].origin),
        );
        lemma_replaced(before, j, multicol::in_column(before[j], at[k - 1], cols));
        lemma_chain_all(s, before, after);
    }
}

proof fn lemma_pieces_named(s: Seq<BoxV>, k: int, content_y: Num)
    requires
        0 <= k <= s.len(),
    ensures
        forall|i: int|
            0 <= i < multicol::pieces_of(s, k, content_y).len() ==> (#[trigger] multicol::pieces_of(
                s,
                k,
                content_y,
            )[i]).index < s.len(),
    decreases k,
{
    if k > 0 {
        lemma_pieces_named(s, k - 1, content_y);
        let index = (k - 1) as usize;
        assert(k - 1 <= usize::MAX ==> index == k - 1);
        let before = multicol::pieces_of(s, k - 1, content_y);
        let now = multicol::pieces_of(s, k, content_y);
        assert forall|i: int| 0 <= i < now.len() implies (#[trigger] now[i]).index < s.len() by {
            if i < before.len() {
                assert(now[i] == before[i]);
            } else {
                assert(now[i].index == index);
            }
        }
    }
}

/// Balancing columns keeps the boxes.
pub proof fn lemma_balancing_keeps_boxes(b: BoxV, cols: ColumnGeometry)
    ensures
        alike(b, balanced(b, cols)),
{
    reveal(balanced);
    let total = b.dim.content.height;
    let pieces = multicol::pieces_of(b.children, b.children.len() as int, b.dim.content.y);
    lemma_pieces_named(b.children, b.children.len() as int, b.dim.content.y);
    let (at, h) = multicol::balance(
        pieces,
        total,
        cols.count,
        total / Num::whole(cols.count as int),
    );
    lemma_distributed(b.children, pieces, at, cols, pieces.len() as int);
    lemma_self_all(b.children);
    lemma_from_children(b, balanced(b, cols));
}

proof fn lemma_child_laid(
    sh: Shaper,
    b: BoxV,
    cb: Dimensions,
    margin: MarginCollapseContext,
    floats: FloatsV,
    def: Option<Num>,
    collapse: bool,
    m: nat,
)
    ensures
        alike(b, child_laid(sh, b, cb, margin, floats, def, collapse, m).0),
    decreases m, 1int, 0int,
{
    reveal(child_laid);
    reveal(laid);
    reveal(laid_collapsing);
    if collapse {
        lemma_collapsing_layout_keeps_boxes(sh, b, cb, margin, floats, def, m);
    } else {
        lemma_layout_keeps_boxes(sh, b, cb, crate::layout::percent_base(def, cb), m);
    }
}

proof fn lemma_inline_step(
    sh: Shaper,
    c: Container,
    v: StepV,
    i: usize,
    def: Option<Num>,
    collapse: bool,
    m: nat,
)
    ensures
        alike(v.child, inline_step(sh, c, v, i, def, collapse, m).child),
    decreases m, 2int, 0int,
{
    reveal(inline_step);
    reveal(child_laid);
    let fresh = MarginCollapseContext::fresh();
    let cb1 = crate::flow::cursor_block(c, v.st.line);
    let (k1, m1, f1) = child_laid(sh, v.child, cb1, fresh, v.floats, def, collapse, m);
    lemma_child_laid(sh, v.child, cb1, fresh, v.floats, def, collapse, m);
    let width = k1.dim.margin_box().width;
    let height = k1.dim.margin_box().height;
    if crate::flow::overflows_line(c, v.st.line, width) {
        let st = v.st.closed(c, i, Some(i));
        let cb2 = crate::flow::line_start_block(c, st.line);
        let (k2, _, f2) = child_laid(sh, k1, cb2, m1, f1, def, collapse, m);
        lemma_child_laid(sh, k1, cb2, m1, f1, def, collapse, m);
        lemma_chain(v.child, k1, k2);
        lemma_inline_taken(sh, c, st, k2, width, height, i);
        lemma_chain(v.child, k2, inline_taken(sh, c, st, k2, width, height, i).0);
    } else {
        lemma_inline_taken(sh, c, v.st, k1, width, height, i);
        lemma_chain(v.child, k1, inline_taken(sh, c, v.st, k1, width, height, i).0);
    }
}

proof fn lemma_block_step(
    sh: Shaper,
    c: Container,
    v: StepV,
    i: usize,
    def: Option<Num>,
    collapse: bool,
    m: nat,
)
    ensures
        alike(v.child, block_step(sh, c, v, i, def, collapse, m).child),
    decreases m, 2int, 0int,
{
    reveal(block_step);
    reveal(child_laid);
    let st = v.st.closed_if_used(c, i);
    let cb = crate::flow::below_block(c, st.line);
    if c.zero && v.child.is_text() {
        leaf::lemma_leaf_keeps_tree(sh, v.child, cb, true, Num::nought(), Num::nought());
        lemma_same_children(v.child, leaf::text_laid(sh, v.child, cb, true));
    } else {
        lemma_child_laid(sh, v.child, cb, st.margin, v.floats, def, collapse, m);
    }
}

proof fn lemma_step(
    sh: Shaper,
    c: Container,
    v: StepV,
    i: usize,
    def: Option<Num>,
    collapse: bool,
    m: nat,
)
    ensures
        alike(v.child, step(sh, c, v, i, def, collapse, m).child),
    decreases m, 3int, 0int,
{
    unfolding::lemma_step(sh, c, v, i, def, collapse, m);
    let k = step(sh, c, v, i, def, collapse, m).child;
    if v.child.own.position.is_out_of_flow() {
        lemma_child_laid(
            sh,
            v.child,
            crate::flow::below_block(c, v.st.line),
            v.st.margin,
            v.floats,
            None,
            collapse,
            m,
        );
    } else {
        let st = if collapse && crate::flow::line_level(v.child) {
            crate::flow::margin_spent(v.st)
        } else {
            v.st
        };
        if v.child.own.box_type is LineBreak {
            lemma_same_children(v.child, k);
        } else if crate::flow::flows_inline(sh, c, st.line, v.child) {
            lemma_inline_step(sh, c, StepV { st, ..v }, i, def, collapse, m);
        } else if crate::flow::splits(v.child) {
            reveal(split_taken);
            leaf::lemma_leaf_keeps_tree(
                sh,
                v.child,
                c.dim,
                false,
                c.dim.content.y + st.line.cursor_y,
                st.line.cursor_x,
            );
            lemma_same_children(v.child, k);
        } else {
            lemma_block_step(sh, c, StepV { st, ..v }, i, def, collapse, m);
        }
    }
}

proof fn lemma_flow_from(
    sh: Shaper,
    c: Container,
    kids: Seq<BoxV>,
    st: FlowS,
    floats: FloatsV,
    i: int,
    total: int,
    def: Option<Num>,
    collapse: bool,
    m: nat,
)
    requires
        0 <= i,
        total == kids.len(),
    ensures
        alike_all(
            kids,
            flow_from(sh, c, kids, st, floats, i, total, def, collapse, m).0,
        ),
    decreases m, 4int, total - i,
{
    lemma_self_all(kids);
    if i >= total {
        reveal(flow_from);
    } else {
        crate::children::lemma_flow_from_step(
            sh,
            c,
            kids,
            st,
            floats,
            i,
            total,
            def,
            collapse,
            m,
        );
        let v = step(sh, c, StepV { child: kids[i], st, floats }, i as usize, def, collapse, m);
        lemma_step(sh, c, StepV { child: kids[i], st, floats }, i as usize, def, collapse, m);
        let next = kids.update(i, v.child);
        lemma_flow_from(sh, c, next, v.st, v.floats, i + 1, total, def, collapse, m);
        lemma_replaced(kids, i, v.child);
        lemma_chain_all(
            kids,
            next,
            flow_from(sh, c, next, v.st, v.floats, i + 1, total, def, collapse, m).0,
        );
    }
}

proof fn lemma_flowed(
    sh: Shaper,
    b: BoxV,
    margin: MarginCollapseContext,
    floats: FloatsV,
    def: Option<Num>,
    collapse: bool,
    m: nat,
)
    ensures
        alike(b, flowed(sh, b, margin, floats, def, collapse, m).0),
    decreases m, 5int, 0int,
{
    unfolding::lemma_flowed(sh, b, margin, floats, def, collapse, m);
    let c = container(sh, b);
    let n = b.children.len();
    let start = FlowS::start(margin);
    lemma_flow_from(sh, c, b.children, start, floats, 0, n as int, def, collapse, m);
    let (kids, st, fl) = flow_from(
        sh,
        c,
        b.children,
        start,
        floats,
        0,
        n as int,
        def,
        collapse,
        m,
    );
    let st = st.closed_if_used(c, n as usize);
    let width = b.dim.content.width;
    let split = after_splits(kids, st.splits, width, c.text_align);
    let done = after_lines(sh, split, st.lines, width, c.text_align, b.own.style);
    lemma_after_splits(kids, st.splits, width, c.text_align);
    lemma_after_lines(sh, split, st.lines, width, c.text_align, b.own.style);
    lemma_chain_all(b.children, kids, split);
    lemma_chain_all(b.children, split, done);
    let k = flowed(sh, b, margin, floats, def, collapse, m).0;
    assert(k.children == done);
    lemma_from_children(b, k);
}

proof fn lemma_block_laid(sh: Shaper, b: BoxV, cb: Dimensions, def: Option<Num>, m: nat)
    ensures
        alike(b, block_laid(sh, b, cb, def, m)),
    decreases m, 6int, 0int,
{
    let d = with_vertical(b.own, b.viewport, with_widths(b.own, b.viewport, b.dim, cb), cb);
    let d = placed(d, cb, d.margin.top);
    let for_children = definite_height(
        b.own,
        b.viewport,
        d,
        match def {
            Some(h) => h,
            None => Num::nought(),
        },
    );
    let p = b.with_dim(d);
    let fresh = MarginCollapseContext::fresh();
    let k = flowed(sh, p, fresh, FloatsV::none(), for_children, false, m).0;
    let end = block_laid(sh, b, cb, def, m);
    assert(end == k.with_dim(with_height(b.own, b.viewport, k.dim, def))) by {
        reveal(block_laid);
        reveal(flowed);
    }
    lemma_flowed(sh, p, fresh, FloatsV::none(), for_children, false, m);
    lemma_around(b, p, k, end);
}

/// A box laid out between two changes of its own geometry.
proof fn lemma_around(b: BoxV, before: BoxV, after: BoxV, end: BoxV)
    requires
        b.own == before.own,
        b.viewport == before.viewport,
        b.children == before.children,
        alike(before, after),
        after.own == end.own,
        after.viewport == end.viewport,
        after.children == end.children,
    ensures
        alike(b, end),
{
    lemma_same_children(b, before);
    lemma_same_children(after, end);
    lemma_chain(b, before, after);
    lemma_chain(b, after, end);
}

proof fn lemma_inline_from(
    sh: Shaper,
    d: Dimensions,
    kids: Seq<BoxV>,
    cursor: Num,
    width: Num,
    i: int,
    total: int,
    m: nat,
)
    requires
        0 <= i,
        total == kids.len(),
    ensures
        alike_all(kids, inline_from(sh, d, kids, cursor, width, i, total, m).0),
    decreases m, 4int, total - i,
{
    reveal(inline_from);
    reveal(laid);
    lemma_self_all(kids);
    if i < total {
        let cb = crate::layout::inline_block(d, cursor, width);
        let base = crate::layout::percent_base(None, cb);
        let k = laid(sh, kids[i], cb, base, m);
        lemma_layout_keeps_boxes(sh, kids[i], cb, base, m);
        let next = kids.update(i, k);
        let past = cursor + k.dim.margin_box().width;
        lemma_inline_from(sh, d, next, past, width, i + 1, total, m);
        lemma_replaced(kids, i, k);
        lemma_chain_all(kids, next, inline_from(sh, d, next, past, width, i + 1, total, m).0);
    }
}

proof fn lemma_inline_laid(sh: Shaper, b: BoxV, cb: Dimensions, m: nat)
    ensures
        alike(b, inline_laid(sh, b, cb, m)),
    decreases m, 6int, 0int,
{
    reveal(inline_laid);
    reveal(inline_from);
    lemma_inline_from(
        sh,
        crate::layout::inline_edges(b, cb),
        b.children,
        Num::nought(),
        cb.content.width,
        0,
        b.children.len() as int,
        m,
    );
    lemma_from_children(b, inline_laid(sh, b, cb, m));
}

proof fn lemma_kind_laid(sh: Shaper, b: BoxV, cb: Dimensions, def: Option<Num>, m: nat)
    ensures
        alike(b, kind_laid(sh, b, cb, def, m)),
    decreases m, 7int, 0int,
{
    reveal(kind_laid);
    reveal(block_laid);
    reveal(inline_laid);
    let k = kind_laid(sh, b, cb, def, m);
    match b.own.box_type {
        BoxType::Block => {
            lemma_block_laid(sh, b, cb, def, m);
        },
        BoxType::AnonymousBlock => {
            lemma_block_laid(sh, b, cb, def, m);
        },
        BoxType::Inline => {
            lemma_inline_laid(sh, b, cb, m);
        },
        BoxType::Image { natural_width, natural_height, .. } => {
            leaf::lemma_leaf_keeps_tree(sh, b, cb, false, natural_width, natural_height);
            lemma_same_children(b, k);
        },
        _ => {
            leaf::lemma_leaf_keeps_tree(sh, b, cb, false, Num::nought(), Num::nought());
            lemma_same_children(b, k);
        },
    }
}

/// Layout changes geometry alone: every box stays in its place in the tree,
/// with its kind, style, identity and viewport.
pub proof fn lemma_layout_keeps_boxes(
    sh: Shaper,
    b: BoxV,
    cb: Dimensions,
    def: Option<Num>,
    n: nat,
)
    ensures
        alike(b, laid(sh, b, cb, def, n)),
    decreases n, 0int, 0int,
{
    unfolding::lemma_laid(sh, b, cb, def, n);
    if n == 0 {
        lemma_self(b);
    } else {
        let m = (n - 1) as nat;
        let k = kind_laid(sh, b, cb, def, m);
        lemma_kind_laid(sh, b, cb, def, m);
        lemma_offset_keeps_boxes(k, cb);
        lemma_anchoring_keeps_boxes(offset(k, cb), m);
        lemma_chain(b, k, offset(k, cb));
        lemma_chain(b, offset(k, cb), anchored(offset(k, cb), m));
    }
}

proof fn lemma_columns_flowed(
    sh: Shaper,
    b: BoxV,
    margin: MarginCollapseContext,
    floats: FloatsV,
    def: Option<Num>,
    m: nat,
)
    ensures
        alike(b, columns_flowed(sh, b, margin, floats, def, m).0),
    decreases m, 6int, 0int,
{
    unfolding::lemma_columns_flowed(sh, b, margin, floats, def, m);
    let s = b.own.style;
    let cols = multicol::columns(s, b.dim.content.width);
    if s.display.is_flex() || s.display.is_grid() || cols is None {
        lemma_flowed(sh, b, margin, floats, def, true, m);
    } else {
        let narrow = Dimensions {
            content: Rect { width: cols->0.width, ..b.dim.content },
            ..b.dim
        };
        let p = b.with_dim(narrow);
        let k = flowed(sh, p, margin, floats, def, true, m).0;
        lemma_flowed(sh, p, margin, floats, def, true, m);
        let wide = k.with_dim(
            Dimensions {
                content: Rect { width: b.dim.content.width, ..k.dim.content },
                ..k.dim
            },
        );
        lemma_around(b, p, k, wide);
        lemma_balancing_keeps_boxes(wide, cols->0);
        lemma_chain(b, wide, balanced(wide, cols->0));
    }
}

proof fn lemma_block_laid_collapsing(
    sh: Shaper,
    b: BoxV,
    cb: Dimensions,
    margin: MarginCollapseContext,
    floats: FloatsV,
    base: Option<Num>,
    m: nat,
)
    ensures
        alike(b, block_laid_collapsing(sh, b, cb, margin, floats, base, m).0),
    decreases m, 7int, 0int,
{
    let d = with_vertical(b.own, b.viewport, with_widths(b.own, b.viewport, b.dim, cb), cb);
    let b1 = b.with_dim(d);
    let root = crate::layout::is_root(b, margin);
    let chain = if root {
        Seq::empty()
    } else {
        crate::layout::top_chain(b1, d.content.width, floats)
    };
    let before = crate::layout::top_margins(b1, chain, margin);
    let b2 = b.with_dim(placed(d, cb, before.total()));
    let for_children = definite_height(
        b.own,
        b.viewport,
        b2.dim,
        match base {
            Some(h) => h,
            None => cb.content.height,
        },
    );
    let inner = crate::layout::child_margins(b2, root, chain.len() > 0);
    let k = columns_flowed(sh, b2, inner, floats, for_children, m).0;
    let end = block_laid_collapsing(sh, b, cb, margin, floats, base, m).0;
    assert(end == k.with_dim(
        with_height(b.own, b.viewport, k.dim, crate::layout::percent_base(base, cb)),
    )) by {
        unfolding::lemma_block_laid_collapsing(sh, b, cb, margin, floats, base, m);
    }
    lemma_columns_flowed(sh, b2, inner, floats, for_children, m);
    lemma_around(b, b2, k, end);
}

proof fn lemma_float_laid(sh: Shaper, b: BoxV, cb: Dimensions, floats: FloatsV, m: nat)
    ensures
        alike(b, float_laid(sh, b, cb, floats, m).0),
    decreases m, 6int, 0int,
{
    let d = with_vertical(b.own, b.viewport, with_widths(b.own, b.viewport, b.dim, cb), cb);
    let (left, right) = floats.edges(cb.content.y + cb.content.height, cb.content.width);
    let x = match b.own.float {
        Float::Left => cb.content.x + left + d.margin.left + d.border.left + d.padding.left,
        Float::Right => cb.content.x + right - d.margin_box().width + d.margin.left
            + d.border.left + d.padding.left,
        Float::Unset => d.content.x,
    };
    let d1 = Dimensions { content: Rect { x, ..d.content }, ..d };
    let d2 = Dimensions {
        content: Rect {
            y: cb.content.y + cb.content.height + d1.margin.top + d1.border.top
                + d1.padding.top,
            ..d1.content
        },
        ..d1
    };
    let for_children = definite_height(b.own, b.viewport, d2, cb.content.height);
    let p = b.with_dim(d2);
    let fresh = MarginCollapseContext::fresh();
    let k = flowed(sh, p, fresh, FloatsV::none(), for_children, false, m).0;
    let end = float_laid(sh, b, cb, floats, m).0;
    assert(end == k.with_dim(
        with_height(b.own, b.viewport, k.dim, crate::layout::percent_base(None, cb)),
    )) by {
        unfolding::lemma_float_laid(sh, b, cb, floats, m);
    }
    lemma_flowed(sh, p, fresh, FloatsV::none(), for_children, false, m);
    lemma_around(b, p, k, end);
}

proof fn lemma_kind_laid_collapsing(
    sh: Shaper,
    b: BoxV,
    cb: Dimensions,
    margin: MarginCollapseContext,
    floats: FloatsV,
    base: Option<Num>,
    m: nat,
)
    ensures
        alike(b, kind_laid_collapsing(sh, b, cb, margin, floats, base, m).0),
    decreases m, 8int, 0int,
{
    unfolding::lemma_kind_laid_collapsing(sh, b, cb, margin, floats, base, m);
    if b.is_block() {
        lemma_block_laid_collapsing(sh, b, cb, margin, floats, base, m);
    } else {
        lemma_kind_laid(sh, b, cb, None, m);
    }
}

/// Layout with margin collapsing changes geometry alone, as layout without it
/// does.
pub proof fn lemma_collapsing_layout_keeps_boxes(
    sh: Shaper,
    b: BoxV,
    cb: Dimensions,
    margin: MarginCollapseContext,
    floats: FloatsV,
    base: Option<Num>,
    n: nat,
)
    ensures
        alike(b, laid_collapsing(sh, b, cb, margin, floats, base, n).0),
    decreases n, 0int, 0int,
{
    unfolding::lemma_laid_collapsing(sh, b, cb, margin, floats, base, n);
    if n == 0 {
        lemma_self(b);
    } else {
        let m = (n - 1) as nat;
        let cleared = crate::layout::after_clear(b, margin, floats);
        let (k, mc, fl) = kind_laid_collapsing(sh, b, cb, cleared, floats, base, m);
        lemma_kind_laid_collapsing(sh, b, cb, cleared, floats, base, m);
        let (f, _) = if b.own.float != Float::Unset {
            float_laid(sh, k, cb, fl, m)
        } else {
            (k, fl)
        };
        if b.own.float != Float::Unset {
            lemma_float_laid(sh, k, cb, fl, m);
            lemma_chain(b, k, f);
        }
        lemma_offset_keeps_boxes(f, cb);
        lemma_anchoring_keeps_boxes(offset(f, cb), m);
        lemma_chain(b, f, offset(f, cb));
        lemma_chain(b, offset(f, cb), anchored(offset(f, cb), m));
    }
}

} // verus!

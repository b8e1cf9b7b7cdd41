//! Children of a flow: blocks below each other, members on their line.
use vstd::prelude::*;
use crate::align::{self, aligned, on_baseline};
use crate::boxes::BoxV;
use crate::children::lemma_flow_from_step;
use crate::floats::{Float, FloatsV};
use crate::flow::{
    at_cursor, below_block, block_taken, container, cursor_block, flows_inline, inline_taken,
    overflows_line, seated_at_cursor, with_member, Container, FlowS, LineRecord,
};
use crate::geometry::Dimensions;
use crate::grid;
use crate::keeping::{alike, lemma_layout_keeps_boxes};
use crate::laws::blocks::edges_on;
use crate::laws::flowing::{
    lemma_child_wraps_when_too_wide, lemma_lines_follow_each_other, lemma_member_stands_at_cursor,
    line_coords,
};
use crate::laws::lines::{aligned_by, lemma_align_offset, room};
use crate::layout::{
    after_lines, after_splits, child_laid, flow_from, flowed, inline_step, laid, percent_base,
    step, StepV,
};
use crate::margin_collapse::MarginCollapseContext;
use crate::num::Num;
use crate::style::{Display, TextAlign};
use crate::text::Shaper;
use crate::tree::shifted;
use crate::unfolding;

verus! {

/// A member of a line stands at the cursor, or, where lines wrap and it would
/// reach beyond the container, at the start of the next line, below everything
/// on the line before.
pub proof fn lemma_child_stands_on_its_line(
    sh: Shaper,
    c: Container,
    v: StepV,
    i: usize,
    def: Option<Num>,
    collapse: bool,
    m: nat,
    g: nat,
)
    requires
        c.dim.content.coords(g),
        v.st.line.cursor_x.coord(g) && line_coords(v.st.line, c, g),
        edges_on(inline_step(sh, c, v, i, def, collapse, m).child.dim, g),
        !inline_step(sh, c, v, i, def, collapse, m).child.is_inline(),
        v.st.closed(c, i, Some(i)).line.cursor_y.coord(g),
        child_laid(
            sh,
            v.child,
            cursor_block(c, v.st.line),
            MarginCollapseContext::fresh(),
            v.floats,
            def,
            collapse,
            m,
        ).0.dim.margin_box().width.coord(g),
    ensures
        ({
            let r = inline_step(sh, c, v, i, def, collapse, m);
            let width = child_laid(
                sh,
                v.child,
                cursor_block(c, v.st.line),
                MarginCollapseContext::fresh(),
                v.floats,
                def,
                collapse,
                m,
            ).0.dim.margin_box().width.ticks(g);
            let (x, y) = (c.dim.content.x.ticks(g), c.dim.content.y.ticks(g));
            let (at, line) = (v.st.line.cursor_x.ticks(g), v.st.line.cursor_y.ticks(g));
            let wraps = c.wraps && at > 0 && at + width > c.dim.content.width.ticks(g);
            let mb = r.child.dim.margin_box();
            &&& !wraps ==> mb.x.ticks(g) == x + at && mb.y.ticks(g) == y + line
            &&& wraps ==> mb.x.ticks(g) == x && mb.y.ticks(g) >= y + line + v.st.line.height.ticks(g)
                && mb.y.ticks(g) >= y + line + v.st.line.extent_above.ticks(g)
                + v.st.line.extent_below.ticks(g)
        }),
{
    unfolding::lemma_inline_step(sh, c, v, i, def, collapse, m);
    let (k1, m1, f1) = child_laid(
        sh,
        v.child,
        cursor_block(c, v.st.line),
        MarginCollapseContext::fresh(),
        v.floats,
        def,
        collapse,
        m,
    );
    let width = k1.dim.margin_box().width;
    let height = k1.dim.margin_box().height;
    let r = inline_step(sh, c, v, i, def, collapse, m);
    lemma_child_wraps_when_too_wide(c, v.st.line, width, g);
    grid::lemma_finite(width, g, 0x8_0000);
    grid::lemma_zero(g);
    grid::lemma_wider(Num::nought(), g, 0, 0x8_0000);
    if overflows_line(c, v.st.line, width) {
        let st = v.st.closed(c, i, Some(i));
        let k2 = child_laid(
            sh,
            k1,
            crate::flow::line_start_block(c, st.line),
            m1,
            f1,
            def,
            collapse,
            m,
        ).0;
        lemma_lines_follow_each_other(v.st, c, i, Some(i), g);
        lemma_taken_at_cursor(sh, c, st, k2, width, height, i);
        lemma_member_stands_at_cursor(c, st.line, k2, g);
    } else {
        lemma_taken_at_cursor(sh, c, v.st, k1, width, height, i);
        lemma_member_stands_at_cursor(c, v.st.line, k1, g);
    }
}

proof fn lemma_taken_at_cursor(
    sh: Shaper,
    c: Container,
    st: FlowS,
    b: BoxV,
    width: Num,
    height: Num,
    i: usize,
)
    ensures
        inline_taken(sh, c, st, b, width, height, i).0.own == b.own,
        !b.is_inline() ==> inline_taken(sh, c, st, b, width, height, i).0 == at_cursor(
            c,
            st.line,
            b,
        ),
        at_cursor(c, st.line, b).dim.margin == b.dim.margin,
        at_cursor(c, st.line, b).dim.border == b.dim.border,
        at_cursor(c, st.line, b).dim.padding == b.dim.padding,
        at_cursor(c, st.line, b).dim.content.width == b.dim.content.width,
{
    reveal(inline_taken);
    reveal(seated_at_cursor);
    reveal(at_cursor);
    reveal(crate::baseline::seated);
}

/// Whether a box is a block in normal flow.
pub open spec fn plain_block(b: BoxV) -> bool {
    &&& b.own.box_type is Block || b.own.box_type is AnonymousBlock
    &&& b.own.style.display == Display::Block
    &&& !b.own.position.is_out_of_flow()
    &&& b.own.float == Float::Unset
}

/// The heights of the margin boxes of the first `k` of some boxes together.
pub open spec fn heights(s: Seq<BoxV>, k: int, g: nat) -> int
    decreases k,
{
    if k <= 0 {
        0
    } else {
        heights(s, k - 1, g) + s[k - 1].dim.margin_box().height.ticks(g)
    }
}

/// Whether a box is another one laid out in a container that is filled down to
/// a height.
pub open spec fn laid_below(
    sh: Shaper,
    before: BoxV,
    after: BoxV,
    d: Dimensions,
    down: int,
    def: Option<Num>,
    m: nat,
    g: nat,
) -> bool {
    exists|cb: Dimensions|
        {
            &&& cb.content.x == d.content.x && cb.content.y == d.content.y
            &&& cb.content.width == d.content.width
            &&& cb.content.height.ticks(g) == down
            &&& after == #[trigger] laid(sh, before, cb, percent_base(def, cb), m)
        }
}

proof fn lemma_heights_agree(s: Seq<BoxV>, t: Seq<BoxV>, k: int, g: nat)
    requires
        0 <= k <= s.len() == t.len(),
        forall|j: int| 0 <= j < k ==> #[trigger] s[j] == t[j],
    ensures
        heights(s, k, g) == heights(t, k, g),
    decreases k,
{
    if k > 0 {
        lemma_heights_agree(s, t, k - 1, g);
        assert(s[k - 1] == t[k - 1]);
    }
}

/// One block of a flow without margin collapsing.
proof fn lemma_block_step_plain(
    sh: Shaper,
    c: Container,
    b: BoxV,
    st: FlowS,
    floats: FloatsV,
    i: usize,
    def: Option<Num>,
    m: nat,
)
    requires
        plain_block(b),
        st.line.cursor_x == Num::nought(),
    ensures
        ({
            let v = step(sh, c, StepV { child: b, st, floats }, i, def, false, m);
            let cb = below_block(c, st.line);
            &&& v.child == laid(sh, b, cb, percent_base(def, cb), m)
            &&& v.child.own == b.own
            &&& v.st.lines == st.lines && v.st.splits == st.splits
            &&& v.st.line.cursor_x == Num::nought()
            &&& v.st.line.cursor_y == st.line.cursor_y + v.child.dim.margin_box().height
        }),
{
    unfolding::lemma_step(sh, c, StepV { child: b, st, floats }, i, def, false, m);
    unfolding::lemma_block_step(sh, c, StepV { child: b, st, floats }, i, def, false, m);
    let cb = below_block(c, st.line);
    unfolding::lemma_child_laid(sh, b, cb, st.margin, floats, def, false, m);
    lemma_layout_keeps_boxes(sh, b, cb, percent_base(def, cb), m);
    reveal(alike);
    reveal(flows_inline);
    reveal(block_taken);
    crate::margin_collapse::lemma_zero_is_number();
    assert(st.closed_if_used(c, i) == st);
}

proof fn lemma_blocks_from(
    sh: Shaper,
    c: Container,
    kids: Seq<BoxV>,
    st: FlowS,
    floats: FloatsV,
    i: int,
    def: Option<Num>,
    m: nat,
    g: nat,
)
    requires
        0 <= i <= kids.len() < 0x400,
        forall|j: int| i <= j < kids.len() ==> plain_block(#[trigger] kids[j]),
        st.line.cursor_x == Num::nought(),
        st.line.cursor_y.on(g, i * 0x1000),
        st.line.cursor_y.ticks(g) == heights(kids, i, g),
        ({
            let r = flow_from(sh, c, kids, st, floats, i, kids.len() as int, def, false, m).0;
            forall|j: int|
                i <= j < r.len() ==> (#[trigger] r[j]).dim.margin_box().height.on(g, 0x1000)
        }),
    ensures
        ({
            let n = kids.len() as int;
            let (r, end, _) = flow_from(sh, c, kids, st, floats, i, n, def, false, m);
            &&& r.len() == n
            &&& end.line.cursor_y.ticks(g) == heights(r, n, g)
            &&& end.line.cursor_x == Num::nought()
            &&& end.lines == st.lines && end.splits == st.splits
            &&& forall|j: int| 0 <= j < i ==> #[trigger] r[j] == kids[j]
            &&& forall|j: int|
                i <= j < n ==> laid_below(
                    sh,
                    kids[j],
                    #[trigger] r[j],
                    c.dim,
                    heights(r, j, g),
                    def,
                    m,
                    g,
                )
        }),
    decreases kids.len() - i,
{
    let n = kids.len() as int;
    if i < n {
        lemma_flow_from_step(sh, c, kids, st, floats, i, n, def, false, m);
        let v = step(sh, c, StepV { child: kids[i], st, floats }, i as usize, def, false, m);
        lemma_block_step_plain(sh, c, kids[i], st, floats, i as usize, def, m);
        let next = kids.update(i, v.child);
        let r = flow_from(sh, c, kids, st, floats, i, n, def, false, m).0;
        lemma_flow_keeps(sh, c, next, v.st, v.floats, i + 1, def, m);
        assert(r[i] == v.child);
        let h = v.child.dim.margin_box().height;
        assert(r[i].dim.margin_box().height.on(g, 0x1000));
        grid::lemma_sum(st.line.cursor_y, h, g, i * 0x1000, 0x1000);
        lemma_heights_agree(kids, next, i, g);
        assert forall|j: int| i + 1 <= j < next.len() implies plain_block(#[trigger] next[j]) by {
            assert(next[j] == kids[j]);
        }
        lemma_blocks_from(sh, c, next, v.st, v.floats, i + 1, def, m, g);
        lemma_heights_agree(next, r, i, g);
        assert(laid_below(sh, kids[i], r[i], c.dim, heights(r, i, g), def, m, g)) by {
            let cb = below_block(c, st.line);
            assert(cb.content.height.ticks(g) == heights(r, i, g));
            assert(r[i] == laid(sh, kids[i], cb, percent_base(def, cb), m));
        }
        assert forall|j: int| i <= j < n implies laid_below(
            sh,
            kids[j],
            #[trigger] r[j],
            c.dim,
            heights(r, j, g),
            def,
            m,
            g,
        ) by {
            if j > i {
                assert(next[j] == kids[j]);
            }
        }
    } else {
        reveal(flow_from);
    }
}

/// Children before the one in turn stay.
proof fn lemma_flow_keeps(
    sh: Shaper,
    c: Container,
    kids: Seq<BoxV>,
    st: FlowS,
    floats: FloatsV,
    i: int,
    def: Option<Num>,
    m: nat,
)
    requires
        0 <= i <= kids.len(),
    ensures
        ({
            let r = flow_from(sh, c, kids, st, floats, i, kids.len() as int, def, false, m).0;
            r.len() == kids.len() && forall|j: int| 0 <= j < i ==> #[trigger] r[j] == kids[j]
        }),
    decreases kids.len() - i,
{
    let n = kids.len() as int;
    if i < n {
        lemma_flow_from_step(sh, c, kids, st, floats, i, n, def, false, m);
        let v = step(sh, c, StepV { child: kids[i], st, floats }, i as usize, def, false, m);
        lemma_flow_keeps(sh, c, kids.update(i, v.child), v.st, v.floats, i + 1, def, m);
    } else {
        reveal(flow_from);
    }
}

/// Blocks whose margins do not collapse stack up: each is laid out below the
/// margin boxes of those before it, and the content of the container is as high
/// as all of them together.
pub proof fn lemma_blocks_stack_up(
    sh: Shaper,
    b: BoxV,
    margin: MarginCollapseContext,
    floats: FloatsV,
    def: Option<Num>,
    m: nat,
    g: nat,
    i: int,
)
    requires
        0 <= i < b.children.len() < 0x400,
        g <= 253,
        forall|j: int| 0 <= j < b.children.len() ==> plain_block(#[trigger] b.children[j]),
        ({
            let r = flowed(sh, b, margin, floats, def, false, m).0.children;
            forall|j: int|
                0 <= j < r.len() ==> (#[trigger] r[j]).dim.margin_box().height.on(g, 0x1000)
        }),
    ensures
        ({
            let k = flowed(sh, b, margin, floats, def, false, m).0;
            let n = b.children.len() as int;
            &&& k.children.len() == n
            &&& k.dim.content.height.ticks(g) == heights(k.children, n, g)
            &&& laid_below(
                sh,
                b.children[i],
                k.children[i],
                b.dim,
                heights(k.children, i, g),
                def,
                m,
                g,
            )
        }),
{
    unfolding::lemma_flowed(sh, b, margin, floats, def, false, m);
    let c = container(sh, b);
    let n = b.children.len() as int;
    let start = FlowS::start(margin);
    let (kids, st, _) = flow_from(sh, c, b.children, start, floats, 0, n, def, false, m);
    grid::lemma_zero(g);
    assert(0 * 0x1000 == 0);
    crate::margin_collapse::lemma_zero_is_number();
    assert(c.dim == b.dim) by {
        reveal(container);
    }
    lemma_blocks_shape(sh, c, b.children, start, floats, 0, def, m);
    assert(st.closed_if_used(c, n as usize) == st);
    assert(after_splits(kids, st.splits, b.dim.content.width, c.text_align) == kids);
    assert(after_lines(
        sh,
        kids,
        st.lines,
        b.dim.content.width,
        c.text_align,
        b.own.style,
    ) == kids);
    let r = flowed(sh, b, margin, floats, def, false, m).0.children;
    assert(r == kids);
    lemma_blocks_from(sh, c, b.children, start, floats, 0, def, m, g);
}

/// Plain blocks leave no line and no split.
proof fn lemma_blocks_shape(
    sh: Shaper,
    c: Container,
    kids: Seq<BoxV>,
    st: FlowS,
    floats: FloatsV,
    i: int,
    def: Option<Num>,
    m: nat,
)
    requires
        0 <= i <= kids.len(),
        forall|j: int| i <= j < kids.len() ==> plain_block(#[trigger] kids[j]),
        st.line.cursor_x == Num::nought(),
    ensures
        ({
            let (r, end, _) = flow_from(
                sh,
                c,
                kids,
                st,
                floats,
                i,
                kids.len() as int,
                def,
                false,
                m,
            );
            &&& end.line.cursor_x == Num::nought()
            &&& end.lines == st.lines && end.splits == st.splits
        }),
    decreases kids.len() - i,
{
    let n = kids.len() as int;
    if i < n {
        lemma_flow_from_step(sh, c, kids, st, floats, i, n, def, false, m);
        let v = step(sh, c, StepV { child: kids[i], st, floats }, i as usize, def, false, m);
        lemma_block_step_plain(sh, c, kids[i], st, floats, i as usize, def, m);
        let next = kids.update(i, v.child);
        assert forall|j: int| i + 1 <= j < next.len() implies plain_block(#[trigger] next[j]) by {
            assert(next[j] == kids[j]);
        }
        lemma_blocks_shape(sh, c, next, v.st, v.floats, i + 1, def, m);
    } else {
        reveal(flow_from);
    }
}

/// The left edge of the margin box, from the content box outwards.
pub open spec fn left_ticks(d: Dimensions, g: nat) -> int {
    d.content.x.ticks(g) - d.margin.left.ticks(g) - d.border.left.ticks(g) - d.padding.left.ticks(g)
}

/// An image alone on its line is aligned in the content box of its container:
/// to the left it starts at the left edge, to the right it ends at the right
/// edge, and in the center it is as far from the one as from the other.
pub proof fn lemma_lone_image_is_aligned_in_content_box(
    sh: Shaper,
    b: BoxV,
    margin: MarginCollapseContext,
    floats: FloatsV,
    def: Option<Num>,
    m: nat,
    g: nat,
)
    requires
        b.children.len() == 1,
        b.children[0].own.box_type is Image && b.children[0].own.style.display == Display::Inline,
        !b.children[0].own.position.is_out_of_flow() && b.children[0].own.float == Float::Unset,
        b.dim.content.coords(g),
        ({
            let k = flowed(sh, b, margin, floats, def, false, m).0.children[0];
            &&& k.lines is None
            &&& edges_on(k.dim, g) && k.dim.margin_box().width.coord(g)
            &&& k.dim.margin_box().width.ticks(g) > 0
            &&& b.own.style.text_align == TextAlign::Center ==> (b.dim.content.width.ticks(g)
                - k.dim.margin_box().width.ticks(g)) % 2 == 0
        }),
    ensures
        ({
            let k = flowed(sh, b, margin, floats, def, false, m).0.children[0];
            let left = left_ticks(k.dim, g) - b.dim.content.x.ticks(g);
            let width = k.dim.margin_box().width;
            aligned_by(b.own.style.text_align, left, room(b.dim.content.width, width, g))
        }),
{
    let u: int = 0x8_0000;
    let align = b.own.style.text_align;
    unfolding::lemma_flowed(sh, b, margin, floats, def, false, m);
    let c = container(sh, b);
    assert(c.dim == b.dim && c.text_align == align) by {
        reveal(container);
    }
    let start = FlowS::start(margin);
    let child = b.children[0];
    let v0 = StepV { child, st: start, floats };
    lemma_flow_from_step(sh, c, b.children, start, floats, 0, 1, def, false, m);
    let v = step(sh, c, v0, 0, def, false, m);
    let kids = b.children.update(0, v.child);
    assert(flow_from(sh, c, kids, v.st, v.floats, 1, 1, def, false, m) == (kids, v.st, v.floats))
        by {
        reveal(flow_from);
    }
    unfolding::lemma_step(sh, c, v0, 0, def, false, m);
    assert(flows_inline(sh, c, start.line, child)) by {
        reveal(flows_inline);
    }
    unfolding::lemma_inline_step(sh, c, v0, 0, def, false, m);
    let cb = cursor_block(c, start.line);
    unfolding::lemma_child_laid(
        sh,
        child,
        cb,
        MarginCollapseContext::fresh(),
        floats,
        def,
        false,
        m,
    );
    let k1 = laid(sh, child, cb, percent_base(def, cb), m);
    assert(k1.own == child.own) by {
        lemma_layout_keeps_boxes(sh, child, cb, percent_base(def, cb), m);
        reveal(alike);
    }
    let w = k1.dim.margin_box().width;
    let h = k1.dim.margin_box().height;
    crate::margin_collapse::lemma_zero_is_number();
    assert(!overflows_line(c, start.line, w));
    lemma_taken_at_cursor(sh, c, start, k1, w, h, 0);
    let k = at_cursor(c, start.line, k1);
    assert(v.child == k && kids[0] == k && kids.len() == 1);
    let zero = Num::nought();
    assert(v.st.line.cursor_x == zero + w && v.st.line.width == zero + w && v.st.line.start
        == Some(0usize) && v.st.lines == start.lines && v.st.splits == start.splits) by {
        reveal(inline_taken);
        reveal(with_member);
        reveal(seated_at_cursor);
        reveal(at_cursor);
    }
    let rec = LineRecord { start: 0, end: 1, width: v.st.line.width };
    let end = v.st.closed_if_used(c, 1);
    let full = b.dim.content.width;
    let a = aligned(sh, kids, 0, 1, v.st.line.width, full, align);
    let t = on_baseline(sh, a, 0, 1, b.own.style);
    let out = flowed(sh, b, margin, floats, def, false, m).0.children;
    // The child at the end is the one at the cursor, moved.
    if v.st.line.cursor_x > zero {
        assert(end.lines =~= seq![rec]);
        assert(seq![rec].drop_last() =~= Seq::<LineRecord>::empty());
        assert(after_lines(sh, kids, Seq::<LineRecord>::empty(), full, align, b.own.style) == kids);
        assert(out == t);
    } else {
        assert(end == v.st);
        assert(out == kids);
    }
    lemma_sideways(sh, kids, v.st.line.width, full, align, b.own.style);
    assert(k1.dim.margin_box().width == out[0].dim.margin_box().width) by {
        reveal(at_cursor);
    }
    grid::lemma_finite(w, g, u);
    grid::lemma_zero(g);
    grid::lemma_sum(zero, w, g, 0, u);
    grid::lemma_order(zero + w, zero, g, u, 0);
    assert(k.dim.margin == out[0].dim.margin && k.dim.border == out[0].dim.border && k.dim.padding
        == out[0].dim.padding);
    grid::lemma_wider(zero + w, g, u, 3 * u);
    lemma_align_offset(align, full, zero + w, g);
    let dx = align::align_offset(align, full, zero + w);
    let (x0, ml, bl, pl) = (
        c.dim.content.x,
        k.dim.margin.left,
        k.dim.border.left,
        k.dim.padding.left,
    );
    assert(k.dim.content.x == x0 + zero + ml + bl + pl) by {
        reveal(at_cursor);
    }
    grid::lemma_sum(x0, zero, g, u, 0);
    grid::lemma_sum(x0 + zero, ml, g, u, u);
    grid::lemma_sum(x0 + zero + ml, bl, g, 2 * u, u);
    grid::lemma_sum(x0 + zero + ml + bl, pl, g, 3 * u, u);
    grid::lemma_sum(k.dim.content.x, dx, g, 4 * u, 4 * u);
    grid::lemma_sum(k.dim.content.x + dx, zero, g, 8 * u, 0);
    grid::lemma_sum(k.dim.content.x, zero, g, 4 * u, 0);
}

/// What alignment of a line does to its only member, sideways.
proof fn lemma_sideways(
    sh: Shaper,
    kids: Seq<BoxV>,
    width: Num,
    full: Num,
    align: TextAlign,
    style: crate::style::ComputedStyle,
)
    requires
        kids.len() == 1,
        kids[0].own.box_type is Image,
    ensures
        ({
            let a = aligned(sh, kids, 0, 1, width, full, align);
            let t = on_baseline(sh, a, 0, 1, style);
            let dx = align::align_offset(align, full, width);
            let x = kids[0].dim.content.x;
            let moved = if kids[0].lines is None && align::moves(align) && dx > Num::nought() {
                x + dx
            } else {
                x
            };
            &&& t.len() == 1
            &&& t[0].lines is None <==> kids[0].lines is None
            &&& kids[0].lines is None ==> t[0].dim.content.x == moved || t[0].dim.content.x
                == moved + Num::nought()
            &&& t[0].dim.margin == kids[0].dim.margin && t[0].dim.border == kids[0].dim.border
            &&& t[0].dim.padding == kids[0].dim.padding
            &&& t[0].dim.content.width == kids[0].dim.content.width
        }),
{
    reveal(align::aligned_member);
    reveal(align::seated_member);
    reveal(shifted);
}

} // verus!

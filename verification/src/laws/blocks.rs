//! Blocks, floats and inline boxes in their containing blocks.
use vstd::prelude::*;
use crate::block::{placed, with_content_height};
use crate::boxes::BoxV;
use crate::floats::{Float, FloatsV};
use crate::geometry::{Dimensions, Rect};
use crate::grid;
use crate::layout::{
    block_laid, block_laid_collapsing, child_margins, columns_flowed, first_in_flow, float_laid,
    flowed, has_clearance, inline_edges, inline_from, inline_laid, is_root, laid, percent_base,
    top_chain, top_margins,
};
use crate::margin_collapse::{formatting_root, MarginCollapseContext};
use crate::multicol::{balanced, columns};
use crate::num::Num;
use crate::placing::lemma_inline_from_step;
use crate::style::{Display, Length};
use crate::text::Shaper;
use crate::unfolding;

verus! {

/// Whether the three edges of a box are on a grid.
pub open spec fn edges_on(d: Dimensions, g: nat) -> bool {
    d.margin.coords(g) && d.border.coords(g) && d.padding.coords(g)
}

proof fn lemma_placed(d: Dimensions, cb: Dimensions, margin_top: Num, g: nat)
    requires
        edges_on(d, g),
        cb.content.coords(g),
        margin_top.on(g, 0x10_0000),
    ensures
        ({
            let e = placed(d, cb, margin_top);
            &&& e.border_box().y.ticks(g) == cb.content.y.ticks(g) + cb.content.height.ticks(g)
                + margin_top.ticks(g)
            &&& e.border_box().y.on(g, 0x50_0000)
            &&& e.margin_box().x.ticks(g) == cb.content.x.ticks(g)
            &&& e.padding == d.padding && e.border == d.border && e.margin == d.margin
        }),
{
    reveal(placed);
    let u: int = 0x8_0000;
    let c = cb.content;
    let e = placed(d, cb, margin_top);
    grid::lemma_sum(c.x, d.margin.left, g, u, u);
    grid::lemma_sum(c.x + d.margin.left, d.border.left, g, 2 * u, u);
    grid::lemma_sum(c.x + d.margin.left + d.border.left, d.padding.left, g, 3 * u, u);
    grid::lemma_difference(e.content.x, d.padding.left, g, 4 * u, u);
    grid::lemma_difference(e.padding_box().x, d.border.left, g, 5 * u, u);
    grid::lemma_difference(e.border_box().x, d.margin.left, g, 6 * u, u);
    grid::lemma_sum(c.y, c.height, g, u, u);
    grid::lemma_sum(c.y + c.height, margin_top, g, 2 * u, 2 * u);
    grid::lemma_sum(c.y + c.height + margin_top, d.border.top, g, 4 * u, u);
    grid::lemma_sum(c.y + c.height + margin_top + d.border.top, d.padding.top, g, 5 * u, u);
    grid::lemma_difference(e.content.y, d.padding.top, g, 6 * u, u);
    grid::lemma_difference(e.padding_box().y, d.border.top, g, 7 * u, u);
    grid::lemma_wider(e.border_box().y, g, 8 * u, 10 * u);
}

/// The flow of its children leaves a box where it is, and its edges and width
/// as they are.
proof fn lemma_flow_stays(
    sh: Shaper,
    b: BoxV,
    margin: MarginCollapseContext,
    floats: FloatsV,
    def: Option<Num>,
    collapse: bool,
    m: nat,
)
    ensures
        ({
            let k = flowed(sh, b, margin, floats, def, collapse, m).0;
            k.dim == with_content_height(b.dim, k.dim.content.height)
        }),
{
    unfolding::lemma_flowed(sh, b, margin, floats, def, collapse, m);
}

proof fn lemma_columns_stay(
    sh: Shaper,
    b: BoxV,
    margin: MarginCollapseContext,
    floats: FloatsV,
    def: Option<Num>,
    m: nat,
)
    ensures
        ({
            let k = columns_flowed(sh, b, margin, floats, def, m).0;
            k.dim == with_content_height(b.dim, k.dim.content.height)
        }),
{
    unfolding::lemma_columns_flowed(sh, b, margin, floats, def, m);
    reveal(balanced);
    let cols = columns(b.own.style, b.dim.content.width);
    lemma_flow_stays(sh, b, margin, floats, def, true, m);
    if cols is Some {
        let narrow = Dimensions {
            content: Rect { width: cols->0.width, ..b.dim.content },
            ..b.dim
        };
        lemma_flow_stays(sh, b.with_dim(narrow), margin, floats, def, true, m);
    }
}

/// A block whose margins do not collapse stands with its margin box below what
/// its containing block holds, at its left edge.
pub proof fn lemma_block_stands_below(
    sh: Shaper,
    b: BoxV,
    cb: Dimensions,
    def: Option<Num>,
    m: nat,
    g: nat,
)
    requires
        cb.content.coords(g),
        edges_on(block_laid(sh, b, cb, def, m).dim, g),
    ensures
        ({
            let d = block_laid(sh, b, cb, def, m).dim;
            &&& d.margin_box().x.ticks(g) == cb.content.x.ticks(g)
            &&& d.margin_box().y.ticks(g) == cb.content.y.ticks(g) + cb.content.height.ticks(g)
        }),
{
    let u: int = 0x8_0000;
    let d0 = crate::block::with_vertical(
        b.own,
        b.viewport,
        crate::block::with_widths(b.own, b.viewport, b.dim, cb),
        cb,
    );
    let p = placed(d0, cb, d0.margin.top);
    let for_children = crate::block::definite_height(
        b.own,
        b.viewport,
        p,
        match def {
            Some(h) => h,
            None => Num::nought(),
        },
    );
    lemma_flow_stays(
        sh,
        b.with_dim(p),
        MarginCollapseContext::fresh(),
        FloatsV::none(),
        for_children,
        false,
        m,
    );
    let d = block_laid(sh, b, cb, def, m).dim;
    assert(d == with_content_height(p, d.content.height)) by {
        reveal(block_laid);
        reveal(flowed);
    }
    assert(p.margin == d0.margin && p.border == d0.border && p.padding == d0.padding) by {
        reveal(placed);
    }
    grid::lemma_wider(d0.margin.top, g, u, 2 * u);
    lemma_placed(d0, cb, d0.margin.top, g);
    grid::lemma_difference(d.border_box().y, d.margin.top, g, 10 * u, u);
}

/// A block that keeps the margins of its children inside stands below what its
/// containing block holds by its own top margin, collapsed with what was
/// pending: by the larger of the positive ones and the smaller of the negative
/// ones. One whose margin its parent took in stands by what was pending alone.
pub proof fn lemma_block_stands_by_collapsed_margin(
    sh: Shaper,
    b: BoxV,
    cb: Dimensions,
    margin: MarginCollapseContext,
    floats: FloatsV,
    base: Option<Num>,
    m: nat,
    g: nat,
)
    requires
        cb.content.coords(g),
        is_root(b, margin),
        edges_on(block_laid_collapsing(sh, b, cb, margin, floats, base, m).0.dim, g),
        margin.positive_margin.coord(g) && margin.negative_margin.coord(g),
        margin.positive_margin.ticks(g) >= 0 && margin.negative_margin.ticks(g) <= 0,
    ensures
        ({
            let d = block_laid_collapsing(sh, b, cb, margin, floats, base, m).0.dim;
            let (p, n) = (margin.positive_margin.ticks(g), margin.negative_margin.ticks(g));
            let own = d.margin.top.ticks(g);
            let in_flow = !b.own.position.is_out_of_flow() && b.own.float == Float::Unset;
            let gap = d.border_box().y.ticks(g) - cb.content.y.ticks(g) - cb.content.height.ticks(
                g,
            );
            &&& in_flow && margin.first_child_top_adjoined ==> gap == p + n
            &&& !(in_flow && margin.first_child_top_adjoined) ==> {
                &&& own >= p ==> gap == own + n
                &&& 0 <= own < p ==> gap == p + n
                &&& n < own < 0 ==> gap == p + n
                &&& own <= n && own < 0 ==> gap == p + own
            }
            &&& d.margin_box().x.ticks(g) == cb.content.x.ticks(g)
        }),
{
    let u: int = 0x8_0000;
    unfolding::lemma_block_laid_collapsing(sh, b, cb, margin, floats, base, m);
    let d0 = crate::block::with_vertical(
        b.own,
        b.viewport,
        crate::block::with_widths(b.own, b.viewport, b.dim, cb),
        cb,
    );
    let b1 = b.with_dim(d0);
    let chain: Seq<Num> = Seq::empty();
    let before = top_margins(b1, chain, margin);
    let b2 = b.with_dim(placed(d0, cb, before.total()));
    let for_children = crate::block::definite_height(
        b.own,
        b.viewport,
        b2.dim,
        match base {
            Some(h) => h,
            None => cb.content.height,
        },
    );
    lemma_columns_stay(
        sh,
        b2,
        child_margins(b2, true, false),
        floats,
        for_children,
        m,
    );
    let d = block_laid_collapsing(sh, b, cb, margin, floats, base, m).0.dim;
    assert(d == with_content_height(b2.dim, d.content.height));
    assert(b2.dim.margin == d0.margin && b2.dim.border == d0.border && b2.dim.padding
        == d0.padding) by {
        reveal(placed);
    }
    let top = d0.margin.top;
    let zero = Num::nought();
    grid::lemma_finite(top, g, u);
    grid::lemma_zero(g);
    grid::lemma_order(top, zero, g, u, 0);
    grid::lemma_extremes(margin.positive_margin, top, g, u);
    grid::lemma_extremes(margin.negative_margin, top, g, u);
    assert(before.positive_margin.coord(g) && before.negative_margin.coord(g)) by {
        reveal(top_margins);
    }
    grid::lemma_sum(before.positive_margin, before.negative_margin, g, u, u);
    lemma_placed(d0, cb, before.total(), g);
    reveal(top_margins);
}

/// A float stands at the edge of the free space at its height: a left one with
/// its margin box from the left edge, a right one up to the right edge. Its
/// margin box takes that space from then on, and the other floats stay.
pub proof fn lemma_float_stands_in_free_space(
    sh: Shaper,
    b: BoxV,
    cb: Dimensions,
    floats: FloatsV,
    m: nat,
    g: nat,
)
    requires
        cb.content.coords(g),
        edges_on(float_laid(sh, b, cb, floats, m).0.dim, g),
        float_laid(sh, b, cb, floats, m).0.dim.content.width.coord(g),
        floats.edges(cb.content.y + cb.content.height, cb.content.width).0.coord(g),
        floats.edges(cb.content.y + cb.content.height, cb.content.width).1.coord(g),
        b.own.float != Float::Unset,
    ensures
        ({
            let (k, after) = float_laid(sh, b, cb, floats, m);
            let (left, right) = floats.edges(cb.content.y + cb.content.height, cb.content.width);
            let mb = k.dim.margin_box();
            &&& b.own.float == Float::Left ==> {
                &&& mb.x.ticks(g) == cb.content.x.ticks(g) + left.ticks(g)
                &&& after.left.len() == floats.left.len() + 1
                &&& after.left.drop_last() == floats.left && after.right == floats.right
                &&& after.left.last().rect.x == mb.x && after.left.last().rect.width == mb.width
                &&& after.left.last().float_type == Float::Left
            }
            &&& b.own.float == Float::Right ==> {
                &&& mb.x.ticks(g) + mb.width.ticks(g) == cb.content.x.ticks(g) + right.ticks(g)
                &&& after.right.len() == floats.right.len() + 1
                &&& after.right.drop_last() == floats.right && after.left == floats.left
                &&& after.right.last().rect.x == mb.x && after.right.last().rect.width == mb.width
                &&& after.right.last().float_type == Float::Right
            }
            &&& mb.y.ticks(g) == cb.content.y.ticks(g) + cb.content.height.ticks(g)
        }),
{
    let u: int = 0x8_0000;
    unfolding::lemma_float_laid(sh, b, cb, floats, m);
    let d = crate::block::with_vertical(
        b.own,
        b.viewport,
        crate::block::with_widths(b.own, b.viewport, b.dim, cb),
        cb,
    );
    let (left, right) = floats.edges(cb.content.y + cb.content.height, cb.content.width);
    let (k, after) = float_laid(sh, b, cb, floats, m);
    let e = k.dim;
    let x0 = if b.own.float == Float::Left {
        cb.content.x + left
    } else {
        cb.content.x + right - d.margin_box().width
    };
    let y0 = cb.content.y + cb.content.height;
    let d2 = Dimensions {
        content: Rect {
            x: x0 + d.margin.left + d.border.left + d.padding.left,
            y: y0 + d.margin.top + d.border.top + d.padding.top,
            ..d.content
        },
        ..d
    };
    let for_children = crate::block::definite_height(b.own, b.viewport, d2, cb.content.height);
    lemma_flow_stays(
        sh,
        b.with_dim(d2),
        MarginCollapseContext::fresh(),
        FloatsV::none(),
        for_children,
        false,
        m,
    );
    assert(e == with_content_height(d2, e.content.height));
    assert(after.left.drop_last() =~= floats.left || b.own.float == Float::Right);
    assert(after.right.drop_last() =~= floats.right || b.own.float == Float::Left);
    grid::lemma_sum(d.padding.left, d.padding.right, g, u, u);
    grid::lemma_sum(d.border.left, d.border.right, g, u, u);
    grid::lemma_sum(d.margin.left, d.margin.right, g, u, u);
    grid::lemma_sum(d.content.width, d.padding.horizontal(), g, u, 2 * u);
    grid::lemma_sum(d.padding_box().width, d.border.horizontal(), g, 3 * u, 2 * u);
    grid::lemma_sum(d.border_box().width, d.margin.horizontal(), g, 5 * u, 2 * u);
    grid::lemma_sum(cb.content.x, left, g, u, u);
    grid::lemma_wider(cb.content.x + left, g, 2 * u, 9 * u);
    grid::lemma_sum(cb.content.x, right, g, u, u);
    grid::lemma_difference(cb.content.x + right, d.margin_box().width, g, 2 * u, 7 * u);
    grid::lemma_sum(x0, d.margin.left, g, 9 * u, u);
    grid::lemma_sum(x0 + d.margin.left, d.border.left, g, 10 * u, u);
    grid::lemma_sum(x0 + d.margin.left + d.border.left, d.padding.left, g, 11 * u, u);
    grid::lemma_difference(e.content.x, d.padding.left, g, 12 * u, u);
    grid::lemma_difference(e.padding_box().x, d.border.left, g, 13 * u, u);
    grid::lemma_difference(e.border_box().x, d.margin.left, g, 14 * u, u);
    grid::lemma_sum(cb.content.y, cb.content.height, g, u, u);
    grid::lemma_sum(y0, d.margin.top, g, 2 * u, u);
    grid::lemma_sum(y0 + d.margin.top, d.border.top, g, 3 * u, u);
    grid::lemma_sum(y0 + d.margin.top + d.border.top, d.padding.top, g, 4 * u, u);
    grid::lemma_difference(e.content.y, d.padding.top, g, 5 * u, u);
    grid::lemma_difference(e.padding_box().y, d.border.top, g, 6 * u, u);
    grid::lemma_difference(e.border_box().y, d.margin.top, g, 7 * u, u);
}

/// The widths of the margin boxes of the first `k` of some boxes together.
pub open spec fn widths(s: Seq<BoxV>, k: int, g: nat) -> int
    decreases k,
{
    if k <= 0 {
        0
    } else {
        widths(s, k - 1, g) + s[k - 1].dim.margin_box().width.ticks(g)
    }
}

proof fn lemma_widths_agree(s: Seq<BoxV>, t: Seq<BoxV>, k: int, g: nat)
    requires
        0 <= k <= s.len() == t.len(),
        forall|j: int| 0 <= j < k ==> #[trigger] s[j] == t[j],
    ensures
        widths(s, k, g) == widths(t, k, g),
    decreases k,
{
    if k > 0 {
        lemma_widths_agree(s, t, k - 1, g);
        assert(s[k - 1] == t[k - 1]);
    }
}

/// Children side by side from a cursor on: each is laid out where the one
/// before it ends.
proof fn lemma_side_by_side(
    sh: Shaper,
    d: Dimensions,
    kids: Seq<BoxV>,
    cursor: Num,
    width: Num,
    i: int,
    m: nat,
    g: nat,
)
    requires
        0 <= i <= kids.len() < 0x400,
        d.content.coords(g),
        cursor.on(g, i * 0x1000),
        cursor.ticks(g) == widths(kids, i, g),
        ({
            let r = inline_from(sh, d, kids, cursor, width, i, kids.len() as int, m).0;
            forall|j: int| i <= j < r.len() ==> (#[trigger] r[j]).dim.margin_box().width.on(g, 0x1000)
        }),
    ensures
        ({
            let n = kids.len() as int;
            let (r, end) = inline_from(sh, d, kids, cursor, width, i, n, m);
            &&& r.len() == n
            &&& end.ticks(g) == widths(r, n, g)
            &&& end.on(g, n * 0x1000)
            &&& forall|j: int| 0 <= j < i ==> #[trigger] r[j] == kids[j]
            &&& forall|j: int|
                i <= j < n ==> laid_at(sh, kids[j], #[trigger] r[j], d, widths(r, j, g), width, m, g)
        }),
    decreases kids.len() - i,
{
    let n = kids.len() as int;
    let (r, end) = inline_from(sh, d, kids, cursor, width, i, n, m);
    if i < n {
        let cb = crate::layout::inline_block(d, cursor, width);
        let k = laid(sh, kids[i], cb, percent_base(None, cb), m);
        let w = k.dim.margin_box().width;
        let next = kids.update(i, k);
        lemma_inline_from_step(sh, d, kids, cursor, width, i, n, m);
        lemma_inline_keeps(sh, d, next, cursor + w, width, i + 1, m);
        assert(r[i] == k);
        assert(r[i].dim.margin_box().width.on(g, 0x1000));
        grid::lemma_sum(cursor, w, g, i * 0x1000, 0x1000);
        grid::lemma_sum(d.content.x, cursor, g, 0x8_0000, i * 0x1000);
        grid::lemma_finite(w, g, 0x1000);
        grid::lemma_zero(g);
        lemma_widths_agree(kids, next, i, g);
        lemma_side_by_side(sh, d, next, cursor + w, width, i + 1, m, g);
        lemma_widths_agree(next, r, i, g);
        assert(laid_at(sh, kids[i], r[i], d, widths(r, i, g), width, m, g)) by {
            assert(cb.content.x.ticks(g) == d.content.x.ticks(g) + widths(r, i, g));
            assert(r[i] == laid(sh, kids[i], cb, percent_base(None, cb), m));
        }
        assert forall|j: int| i <= j < n implies laid_at(
            sh,
            kids[j],
            #[trigger] r[j],
            d,
            widths(r, j, g),
            width,
            m,
            g,
        ) by {
            if j > i {
                assert(next[j] == kids[j]);
            }
        }
    } else {
        reveal(inline_from);
        reveal(laid);
    }
}

/// Children before the cursor stay.
proof fn lemma_inline_keeps(
    sh: Shaper,
    d: Dimensions,
    kids: Seq<BoxV>,
    cursor: Num,
    width: Num,
    i: int,
    m: nat,
)
    requires
        0 <= i <= kids.len(),
    ensures
        ({
            let r = inline_from(sh, d, kids, cursor, width, i, kids.len() as int, m).0;
            r.len() == kids.len() && forall|j: int| 0 <= j < i ==> #[trigger] r[j] == kids[j]
        }),
    decreases kids.len() - i,
{
    let n = kids.len() as int;
    if i < n {
        let cb = crate::layout::inline_block(d, cursor, width);
        let k = laid(sh, kids[i], cb, percent_base(None, cb), m);
        lemma_inline_from_step(sh, d, kids, cursor, width, i, n, m);
        lemma_inline_keeps(
            sh,
            d,
            kids.update(i, k),
            cursor + k.dim.margin_box().width,
            width,
            i + 1,
            m,
        );
    } else {
        reveal(inline_from);
        reveal(laid);
    }
}

/// Whether a box is another one laid out in an inline box, a distance right of
/// its content edge, at the top of its content, in a container of a width.
pub open spec fn laid_at(
    sh: Shaper,
    before: BoxV,
    after: BoxV,
    d: Dimensions,
    dx: int,
    width: Num,
    m: nat,
    g: nat,
) -> bool {
    exists|cb: Dimensions|
        {
            &&& cb.content.x.ticks(g) == d.content.x.ticks(g) + dx
            &&& cb.content.y.ticks(g) + cb.content.height.ticks(g) == d.content.y.ticks(g)
            &&& cb.content.width == width
            &&& after == #[trigger] laid(sh, before, cb, percent_base(None, cb), m)
        }
}

/// The children of an inline box stand side by side from its content edge: each
/// is laid out where the margin box of the one before it ends. An inline box
/// without a width of its own is as wide as they are together.
pub proof fn lemma_inline_children_stand_side_by_side(
    sh: Shaper,
    b: BoxV,
    cb: Dimensions,
    m: nat,
    g: nat,
    i: int,
)
    requires
        0 <= i < b.children.len() < 0x400,
        inline_laid(sh, b, cb, m).dim.content.x.coord(g),
        inline_laid(sh, b, cb, m).dim.content.y.coord(g),
        inline_edges(b, cb).content.coords(g),
        forall|j: int|
            0 <= j < inline_laid(sh, b, cb, m).children.len() ==> (#[trigger] inline_laid(
                sh,
                b,
                cb,
                m,
            ).children[j]).dim.margin_box().width.on(g, 0x1000),
    ensures
        ({
            let c = inline_laid(sh, b, cb, m);
            let n = b.children.len() as int;
            &&& c.children.len() == n
            &&& laid_at(
                sh,
                b.children[i],
                c.children[i],
                c.dim,
                widths(c.children, i, g),
                cb.content.width,
                m,
                g,
            )
            &&& b.own.style.width == Length::Auto && widths(c.children, n, g) > 0
                ==> c.dim.content.width.ticks(g) == widths(c.children, n, g)
            &&& b.own.style.width matches Length::Px(v) ==> (v > Num::nought()
                ==> c.dim.content.width == v)
            &&& b.own.style.height matches Length::Px(v) ==> (v > Num::nought()
                ==> c.dim.content.height == v)
            &&& b.own.style.height == Length::Auto ==> c.dim.content.height == Num::larger(
                crate::baseline::content_area(sh, b.own.style).0,
                c.dim.padding.vertical() + c.dim.border.vertical(),
            )
        }),
{
    let n = b.children.len() as int;
    let d = inline_edges(b, cb);
    let c = inline_laid(sh, b, cb, m);
    let (kids, end) = inline_from(
        sh,
        d,
        b.children,
        Num::nought(),
        cb.content.width,
        0,
        n,
        m,
    );
    assert(c.children == kids && c.dim.content.x == d.content.x && c.dim.content.y == d.content.y
        && (b.own.style.width == Length::Auto && end > Num::nought() ==> c.dim.content.width
        == end) && (b.own.style.width matches Length::Px(v) ==> (v > Num::nought()
        ==> c.dim.content.width == v)) && (b.own.style.height matches Length::Px(v) ==> (v
        > Num::nought() ==> c.dim.content.height == v)) && (b.own.style.height == Length::Auto
        ==> c.dim.content.height == Num::larger(
        crate::baseline::content_area(sh, b.own.style).0,
        c.dim.padding.vertical() + c.dim.border.vertical(),
    ))) by {
        reveal(inline_laid);
        reveal(inline_from);
    }
    grid::lemma_finite(d.content.x, g, 0x8_0000);
    grid::lemma_zero(g);
    lemma_side_by_side(sh, d, b.children, Num::nought(), cb.content.width, 0, m, g);
    grid::lemma_order(end, Num::nought(), g, n * 0x1000, 0);
    assert(laid_at(
        sh,
        b.children[i],
        kids[i],
        d,
        widths(kids, i, g),
        cb.content.width,
        m,
        g,
    ));
    let at = choose|at: Dimensions|
        {
            &&& at.content.x.ticks(g) == d.content.x.ticks(g) + widths(kids, i, g)
            &&& at.content.y.ticks(g) + at.content.height.ticks(g) == d.content.y.ticks(g)
            &&& at.content.width == cb.content.width
            &&& kids[i] == #[trigger] laid(sh, b.children[i], at, percent_base(None, at), m)
        };
    assert(c.children[i] == laid(sh, b.children[i], at, percent_base(None, at), m));
}

/// After a block its bottom margin is pending: what collapses with it is no
/// less than it where it is positive, and no more where it is negative.
pub proof fn lemma_bottom_margin_is_pending(
    sh: Shaper,
    b: BoxV,
    cb: Dimensions,
    margin: MarginCollapseContext,
    floats: FloatsV,
    base: Option<Num>,
    m: nat,
)
    ensures
        ({
            let (k, after, _) = block_laid_collapsing(sh, b, cb, margin, floats, base, m);
            let own = k.dim.margin.bottom;
            &&& own >= Num::nought() ==> after.positive_margin >= own
            &&& own < Num::nought() ==> after.negative_margin <= own
        }),
{
    unfolding::lemma_block_laid_collapsing(sh, b, cb, margin, floats, base, m);
    crate::margin_collapse::lemma_zero_is_number();
}

/// The bottom margin of the last child collapses with that of its parent where
/// nothing is on the parent's bottom edge, and stays inside otherwise.
pub proof fn lemma_last_margin_passes_open_bottom(b: BoxV, root: bool, adjoined: bool)
    ensures
        ({
            let c = child_margins(b, root, adjoined);
            let s = b.own.style;
            &&& root || b.dim.border.bottom > Num::nought() || b.dim.padding.bottom > Num::nought()
                ==> !c.last_child_collapses_through
            &&& !root && !formatting_root(s, b.own.float) && b.dim.border.bottom <= Num::nought()
                && b.dim.padding.bottom <= Num::nought() && s.height is Auto && s.min_height
                is Zero ==> c.last_child_collapses_through
            &&& c.positive_margin == Num::nought() && c.negative_margin == Num::nought()
            &&& c.first_child_top_adjoined == adjoined
        }),
{
    reveal(child_margins);
}

/// The top margin of the first block in flow collapses through the open top
/// edge of its parent, and those of its own first children after it.
pub proof fn lemma_first_margin_passes_open_top(b: BoxV, width: Num, floats: FloatsV, i: int, v: Num)
    requires
        first_in_flow(b.children, 0) == Some(i),
        0 <= i < b.children.len(),
        b.children[i].own.box_type is Block && b.children[i].own.style.display == Display::Block,
        b.children[i].own.style.margin_top == Length::Px(v),
        !has_clearance(b.children[i], floats),
        !formatting_root(b.own.style, b.own.float),
        b.own.style.border_top_width == Length::Zero && b.own.style.padding_top == Length::Zero,
    ensures
        ({
            let chain = top_chain(b, width, floats);
            let c = b.children[i];
            &&& chain.len() >= 1 && chain[0] == v
            &&& formatting_root(c.own.style, c.own.float) ==> chain.len() == 1
            &&& !formatting_root(c.own.style, c.own.float) ==> chain.skip(1) == top_chain(
                c,
                width,
                floats,
            )
        }),
{
    reveal(top_chain);
    crate::margin_collapse::lemma_zero_is_number();
    let chain = top_chain(b, width, floats);
    let c = b.children[i];
    if !formatting_root(c.own.style, c.own.float) {
        assert(chain.skip(1) =~= top_chain(c, width, floats));
    }
}

/// A multi-column container flows its children as a container of the width of
/// one column would, before it balances them; its own width stays.
pub proof fn lemma_columns_flow_at_column_width(
    sh: Shaper,
    b: BoxV,
    margin: MarginCollapseContext,
    floats: FloatsV,
    def: Option<Num>,
    m: nat,
    narrow: BoxV,
    wide: BoxV,
)
    requires
        columns(b.own.style, b.dim.content.width) is Some,
        !b.own.style.display.is_flex() && !b.own.style.display.is_grid(),
        narrow == b.with_dim(narrow.dim),
        narrow.dim.content.width == columns(b.own.style, b.dim.content.width)->0.width,
        narrow.dim == (Dimensions {
            content: Rect { width: narrow.dim.content.width, ..b.dim.content },
            ..b.dim
        }),
        wide.children == flowed(sh, narrow, margin, floats, def, true, m).0.children,
        wide.dim == with_content_height(
            b.dim,
            flowed(sh, narrow, margin, floats, def, true, m).0.dim.content.height,
        ),
        wide == (BoxV { children: wide.children, dim: wide.dim, ..b }),
    ensures
        columns_flowed(sh, b, margin, floats, def, m).0.dim.content.width == b.dim.content.width,
        columns_flowed(sh, b, margin, floats, def, m).0.children == balanced(
            wide,
            columns(b.own.style, b.dim.content.width)->0,
        ).children,
{
    unfolding::lemma_columns_flowed(sh, b, margin, floats, def, m);
    unfolding::lemma_flowed(sh, narrow, margin, floats, def, true, m);
    reveal(balanced);
}

} // verus!

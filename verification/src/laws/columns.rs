//! Columns: where balancing puts the children of a multi-column container.
use vstd::prelude::*;
use vstd::arithmetic::power2::*;
use crate::boxes::BoxV;
use crate::exact;
use crate::geometry::Dimensions;
use crate::grid;
use crate::laws::moving::{lemma_subtree_moves_whole, lemma_unmoved, moved_whole, tree_coords};
use crate::multicol::{
    balance, balanced, columns, distributed, gap_of, growth, in_column, lemma_balance_places_all,
    lemma_columns_in_order, lemma_fitting_pieces, lemma_pieces_in_range, lemma_rank_bound,
    one_column, packing, pieces_of, places, ColumnGeometry, Piece, Place,
};
use crate::num::Num;
use crate::rounding::INFINITY_BITS;
use crate::style::{ComputedStyle, Length};

verus! {

/// The left, top, right and bottom edges of the border box, counted in steps
/// from the content box outwards.
pub open spec fn outline(d: Dimensions, g: nat) -> (int, int, int, int) {
    let (x, y) = (d.content.x.ticks(g), d.content.y.ticks(g));
    (
        x - d.padding.left.ticks(g) - d.border.left.ticks(g),
        y - d.padding.top.ticks(g) - d.border.top.ticks(g),
        x + d.content.width.ticks(g) + d.padding.right.ticks(g) + d.border.right.ticks(g),
        y + d.content.height.ticks(g) + d.padding.bottom.ticks(g) + d.border.bottom.ticks(g),
    )
}

/// Whether the children of a container are in flow, at coordinates on a grid.
pub open spec fn flowed(b: BoxV, g: nat) -> bool {
    &&& b.dim.content.coords(g)
    &&& b.children.len() < usize::MAX
    &&& forall|i: int|
        0 <= i < b.children.len() ==> (#[trigger] b.children[i]).dim.coords(g) && tree_coords(
            b.children[i],
            g,
        )
}

/// Whether column widths and gaps are on a grid and the columns end within the
/// range of coordinates that add exactly.
pub open spec fn spaced(cols: ColumnGeometry, g: nat) -> bool {
    &&& cols.width.coord(g) && cols.gap.coord(g)
    &&& cols.width.ticks(g) > 0 && cols.gap.ticks(g) >= 0
    &&& 2 <= cols.count < 0x100_0000
    &&& cols.count * (cols.width.ticks(g) + cols.gap.ticks(g)) <= 0x60_0000
}

/// Whether a child of a container is out of flow.
pub open spec fn outside_flow(s: Seq<BoxV>, i: int) -> bool {
    s[i].own.position.is_out_of_flow()
}

/// Where each child of a container ends up: for children in flow, `at` is the
/// column and `up` how far up it was moved. Columns follow each other in the
/// order of the children, each so many column widths and gaps to the right;
/// the children of a column move together, those of the first not at all, and
/// the one that opens a column starts at the top of the container. Children
/// out of flow stay.
pub open spec fn spread(
    a: BoxV,
    b: BoxV,
    cols: ColumnGeometry,
    at: Seq<int>,
    up: Seq<int>,
    g: nat,
) -> bool {
    let step = cols.width.ticks(g) + cols.gap.ticks(g);
    &&& b.children.len() == a.children.len()
    &&& at.len() == a.children.len() && up.len() == a.children.len()
    &&& forall|i: int|
        0 <= i < a.children.len() && !outside_flow(a.children, i) ==> 0 <= at[i] < cols.count && moved_whole(
            #[trigger] a.children[i],
            b.children[i],
            at[i] * step,
            -up[i],
            g,
        )
    &&& forall|i: int|
        0 <= i < a.children.len() && outside_flow(a.children, i) ==> b.children[i] == #[trigger] a.children[i]
    &&& forall|i: int|
        0 <= i < a.children.len() && !outside_flow(a.children, i) && #[trigger] at[i] == 0 ==> up[i] == 0
    &&& forall|i: int, j: int|
        0 <= i <= j < a.children.len() && !outside_flow(a.children, i) && !outside_flow(a.children, j) ==> #[trigger] at[i] <= #[trigger] at[j]
    &&& forall|i: int, j: int|
        0 <= i <= j < a.children.len() && !outside_flow(a.children, i) && !outside_flow(a.children, j) && #[trigger] at[i]
            == #[trigger] at[j] ==> up[i] == up[j]
    &&& forall|i: int, j: int|
        0 <= i < j < a.children.len() && !outside_flow(a.children, i) && !outside_flow(a.children, j) && (forall|k: int|
            i < k < j ==> #[trigger] outside_flow(a.children, k)) && #[trigger] at[i] < #[trigger] at[j] ==> at[j] == at[i] + 1
            && outline(b.children[j].dim, g).1 == a.dim.content.y.ticks(g)
}

/// The place of the piece of a child among the pieces: after those of the
/// children in flow before it.
proof fn lemma_piece_at(s: Seq<BoxV>, k: int, content_y: Num, i: int) -> (q: int)
    requires
        0 <= i < k <= s.len(),
        s.len() < usize::MAX,
        !s[i].own.position.is_out_of_flow(),
    ensures
        q == pieces_of(s, i, content_y).len(),
        0 <= q < pieces_of(s, k, content_y).len(),
        pieces_of(s, k, content_y)[q] == (Piece {
            index: i as usize,
            top: s[i].dim.border_box().y - content_y,
            bottom: s[i].dim.border_box().y + s[i].dim.border_box().height - content_y,
        }),
    decreases k,
{
    if i < k - 1 {
        let q = lemma_piece_at(s, k - 1, content_y, i);
    }
    pieces_of(s, i, content_y).len() as int
}

proof fn lemma_pieces_grow(s: Seq<BoxV>, i: int, j: int, content_y: Num)
    requires
        0 <= i <= j,
    ensures
        pieces_of(s, i, content_y).len() <= pieces_of(s, j, content_y).len(),
        (forall|k: int| i <= k < j ==> #[trigger] outside_flow(s, k)) ==> pieces_of(
            s,
            i,
            content_y,
        ).len() == pieces_of(s, j, content_y).len(),
        (i < j && !s[i].own.position.is_out_of_flow()) ==> pieces_of(s, i, content_y).len()
            < pieces_of(s, j, content_y).len(),
    decreases j - i,
{
    if i < j {
        lemma_pieces_grow(s, i, j - 1, content_y);
        assert(outside_flow(s, j - 1) == s[j - 1].own.position.is_out_of_flow());
    }
}

proof fn lemma_pieces_in_order(s: Seq<BoxV>, k: int, content_y: Num, p: int, q: int)
    requires
        0 <= k <= s.len(),
        s.len() < usize::MAX,
        0 <= p < q < pieces_of(s, k, content_y).len(),
    ensures
        pieces_of(s, k, content_y)[p].index < pieces_of(s, k, content_y)[q].index < k,
        !s[pieces_of(s, k, content_y)[p].index as int].own.position.is_out_of_flow(),
        !s[pieces_of(s, k, content_y)[q].index as int].own.position.is_out_of_flow(),
    decreases k,
{
    lemma_pieces_in_range(s, k, content_y);
    lemma_piece_in_flow(s, k, content_y, p);
    lemma_piece_in_flow(s, k, content_y, q);
    if k > 0 {
        let n = pieces_of(s, k - 1, content_y).len();
        lemma_pieces_in_range(s, k - 1, content_y);
        if q < n {
            lemma_pieces_in_order(s, k - 1, content_y, p, q);
        }
    }
}

proof fn lemma_piece_in_flow(s: Seq<BoxV>, k: int, content_y: Num, q: int)
    requires
        0 <= k <= s.len(),
        s.len() < usize::MAX,
        0 <= q < pieces_of(s, k, content_y).len(),
    ensures
        pieces_of(s, k, content_y)[q].index < k,
        !s[pieces_of(s, k, content_y)[q].index as int].own.position.is_out_of_flow(),
    decreases k,
{
    if k > 0 {
        let n = pieces_of(s, k - 1, content_y).len();
        if q < n {
            lemma_piece_in_flow(s, k - 1, content_y, q);
        }
    }
}

/// Distribution moves each piece once and touches nothing else.
proof fn lemma_distributed_at(
    s: Seq<BoxV>,
    content_y: Num,
    at: Seq<Place>,
    cols: ColumnGeometry,
    k: int,
    i: int,
)
    requires
        s.len() < usize::MAX,
        0 <= i < s.len(),
        0 <= k <= pieces_of(s, s.len() as int, content_y).len() == at.len(),
    ensures
        ({
            let q = pieces_of(s, i, content_y).len() as int;
            let d = distributed(s, pieces_of(s, s.len() as int, content_y), at, cols, k);
            &&& d.len() == s.len()
            &&& d[i] == if !s[i].own.position.is_out_of_flow() && q < k {
                in_column(s[i], at[q], cols)
            } else {
                s[i]
            }
        }),
    decreases k,
{
    let n = s.len() as int;
    let pieces = pieces_of(s, n, content_y);
    let q = pieces_of(s, i, content_y).len() as int;
    if k > 0 {
        lemma_distributed_at(s, content_y, at, cols, k - 1, i);
        lemma_piece_in_flow(s, n, content_y, k - 1);
        let j = pieces[k - 1].index as int;
        if !s[i].own.position.is_out_of_flow() {
            let p = lemma_piece_at(s, n, content_y, i);
            if q < k - 1 {
                lemma_pieces_in_order(s, n, content_y, q, k - 1);
            }
            if q > k - 1 {
                lemma_pieces_in_order(s, n, content_y, k - 1, q);
            }
        }
    }
}

/// The places that balancing gives: columns in order, starting with the first;
/// what opens a column is at its top.
proof fn lemma_places(pieces: Seq<Piece>, total: Num, count: usize, h: Num)
    requires
        count > 0,
    ensures
        ({
            let at = balance(pieces, total, count, h).0;
            &&& at.len() == pieces.len()
            &&& forall|i: int|
                0 <= i < at.len() ==> (#[trigger] at[i]).column < count && (at[i].column == 0
                    ==> at[i].origin == Num::nought())
            &&& forall|i: int, j: int|
                0 <= i <= j < at.len() ==> (#[trigger] at[i]).column <= (#[trigger] at[j]).column
            &&& forall|i: int, j: int|
                0 <= i <= j < at.len() && (#[trigger] at[i]).column == (#[trigger] at[j]).column
                    ==> at[i].origin == at[j].origin
            &&& forall|i: int, j: int|
                0 <= i && j == i + 1 && j < at.len() && (#[trigger] at[i]).column != (
                #[trigger] at[j]).column ==> at[j].column == at[i].column + 1 && at[j].origin
                    == pieces[j].top
        }),
    decreases INFINITY_BITS + 1 - h.rank(),
{
    match growth(pieces, total, count, h) {
        None => {
            lemma_balance_places_all(pieces, total, count, h);
            let at = places(pieces, count, h);
            assert forall|i: int, j: int| 0 <= i <= j < at.len() implies (#[trigger] at[i]).column
                <= (#[trigger] at[j]).column by {
                lemma_columns_in_order(pieces, i, j, count, h);
            }
            assert forall|i: int, j: int|
                0 <= i <= j < at.len() && (#[trigger] at[i]).column == (
                #[trigger] at[j]).column implies at[i].origin == at[j].origin by {
                lemma_same_origin(pieces, i + 1, j + 1, count, h);
            }
            assert forall|i: int| 0 <= i < at.len() implies (#[trigger] at[i]).column < count && (
            at[i].column == 0 ==> at[i].origin == Num::nought()) by {
                assert(at[i] == balance(pieces, total, count, h).0[i]);
                if at[i].column == 0 {
                    lemma_same_origin(pieces, 0, i + 1, count, h);
                }
            }
            assert forall|i: int, j: int|
                0 <= i && j == i + 1 && j < at.len() && (#[trigger] at[i]).column != (
                #[trigger] at[j]).column implies at[j].column == at[i].column + 1 && at[j].origin
                == pieces[j].top by {
                let p = packing(pieces, i + 1, count, h);
                assert(packing(pieces, i + 2, count, h) == p.with(pieces[i + 1], count, h));
            }
        },
        Some(grow) => {
            let next = h + grow;
            lemma_rank_bound(next);
            if next >= total - Num::ratio(1, 100) || !(next > h) {
                assert(balance(pieces, total, count, h).0 == one_column(pieces.len()));
            } else {
                lemma_places(pieces, total, count, next);
            }
        },
    }
}

proof fn lemma_same_origin(pieces: Seq<Piece>, i: int, j: int, count: usize, h: Num)
    requires
        0 <= i <= j,
    ensures
        packing(pieces, i, count, h).column <= packing(pieces, j, count, h).column,
        packing(pieces, i, count, h).column == packing(pieces, j, count, h).column ==> packing(
            pieces,
            i,
            count,
            h,
        ).origin == packing(pieces, j, count, h).origin,
    decreases j,
{
    if i < j {
        lemma_same_origin(pieces, i, j - 1, count, h);
    }
}

/// The column of a child in flow, and how far up it goes; the first column
/// where there is nothing to balance.
#[verifier::opaque]
spec fn place_of(b: BoxV, cols: ColumnGeometry, i: int) -> Place {
    let pieces = pieces_of(b.children, b.children.len() as int, b.dim.content.y);
    let total = b.dim.content.height;
    let q = pieces_of(b.children, i, b.dim.content.y).len() as int;
    if total <= Num::nought() {
        Place { column: 0, origin: Num::nought() }
    } else {
        balance(pieces, total, cols.count, total / Num::whole(cols.count as int)).0[q]
    }
}

/// Where a child in flow goes.
proof fn lemma_child_moved(b: BoxV, cols: ColumnGeometry, g: nat, i: int)
    requires
        flowed(b, g),
        spaced(cols, g),
        0 <= i < b.children.len(),
        !b.children[i].own.position.is_out_of_flow(),
    ensures
        ({
            let place = place_of(b, cols, i);
            &&& 0 <= place.column < cols.count
            &&& moved_whole(
                b.children[i],
                balanced(b, cols).children[i],
                place.column as int * (cols.width.ticks(g) + cols.gap.ticks(g)),
                -place.origin.ticks(g),
                g,
            )
            &&& place.column == 0 ==> place.origin == Num::nought()
        }),
{
    reveal(place_of);
    let u: int = 0x8_0000;
    let s = b.children;
    let n = s.len() as int;
    let cy = b.dim.content.y;
    let total = b.dim.content.height;
    let pieces = pieces_of(s, n, cy);
    let h = total / Num::whole(cols.count as int);
    let at = balance(pieces, total, cols.count, h).0;
    let step = cols.width.ticks(g) + cols.gap.ticks(g);
    let q = lemma_piece_at(s, n, cy, i);
    grid::lemma_finite(cy, g, u);
    grid::lemma_zero(g);
    assert(0 * step == 0);
    if total <= Num::nought() {
        assert(balanced(b, cols) == b) by {
            reveal(balanced);
        }
        lemma_unmoved(s[i], g);
    } else {
        lemma_places(pieces, total, cols.count, h);
        lemma_distributed_at(s, cy, at, cols, pieces.len() as int, i);
        assert(balanced(b, cols).children[i] == in_column(s[i], at[q], cols)) by {
            reveal(balanced);
        }
        let place = at[q];
        let c = place.column as nat;
        if c == 0 {
            lemma_unmoved(s[i], g);
        } else {
            lemma_origin_on(s, cy, total, cols.count, h, q, g);
            grid::lemma_sum(cols.width, cols.gap, g, u, u);
            assert((cols.width + cols.gap).on(g, step)) by {
                reveal(Num::on);
            }
            assert(0 <= c * step <= cols.count * step) by (nonlinear_arith)
                requires
                    0 <= c <= cols.count,
                    step >= 0,
            ;
            grid::lemma_times(c, cols.width + cols.gap, g, step);
            let dx = Num::whole(c as int) * (cols.width + cols.gap);
            grid::lemma_wider(dx, g, c * step, 12 * u);
            grid::lemma_negated(place.origin, g, 5 * u);
            grid::lemma_wider(Num::negated(place.origin), g, 5 * u, 12 * u);
            lemma_subtree_moves_whole(s[i], dx, Num::negated(place.origin), g, 12 * u);
        }
    }
}

/// A child out of flow stays.
proof fn lemma_child_stays(b: BoxV, cols: ColumnGeometry, i: int)
    requires
        b.children.len() < usize::MAX,
        cols.count > 0,
        0 <= i < b.children.len(),
        b.children[i].own.position.is_out_of_flow(),
    ensures
        balanced(b, cols).children[i] == b.children[i],
{
    reveal(balanced);
    let s = b.children;
    let cy = b.dim.content.y;
    let total = b.dim.content.height;
    let pieces = pieces_of(s, s.len() as int, cy);
    let h = total / Num::whole(cols.count as int);
    lemma_places(pieces, total, cols.count, h);
    let at = balance(pieces, total, cols.count, h).0;
    lemma_distributed_at(s, cy, at, cols, pieces.len() as int, i);
}

/// Balancing keeps the number of children.
proof fn lemma_children_kept(b: BoxV, cols: ColumnGeometry)
    requires
        b.children.len() < usize::MAX,
        cols.count > 0,
    ensures
        balanced(b, cols).children.len() == b.children.len(),
{
    reveal(balanced);
    let s = b.children;
    let n = s.len() as int;
    let cy = b.dim.content.y;
    let total = b.dim.content.height;
    let pieces = pieces_of(s, n, cy);
    if pieces.len() > 0 && !(total <= Num::nought()) {
        let h = total / Num::whole(cols.count as int);
        lemma_places(pieces, total, cols.count, h);
        let at = balance(pieces, total, cols.count, h).0;
        lemma_piece_in_flow(s, n, cy, 0);
        lemma_distributed_at(s, cy, at, cols, pieces.len() as int, pieces[0].index as int);
    }
}

/// Of two children in flow the later one is in the same column, as far up, or
/// in a later one; where it is the next one, it opens that column.
proof fn lemma_two_children(b: BoxV, cols: ColumnGeometry, g: nat, i: int, j: int)
    requires
        flowed(b, g),
        spaced(cols, g),
        0 <= i <= j < b.children.len(),
        !b.children[i].own.position.is_out_of_flow(),
        !b.children[j].own.position.is_out_of_flow(),
    ensures
        place_of(b, cols, i).column <= place_of(b, cols, j).column,
        place_of(b, cols, i).column == place_of(b, cols, j).column ==> place_of(b, cols, i).origin
            == place_of(b, cols, j).origin,
        (forall|k: int| i < k < j ==> #[trigger] outside_flow(b.children, k)) && place_of(
            b,
            cols,
            i,
        ).column < place_of(b, cols, j).column ==> place_of(b, cols, j).column == place_of(
            b,
            cols,
            i,
        ).column + 1 && place_of(b, cols, j).origin.ticks(g) == outline(b.children[j].dim, g).1
            - b.dim.content.y.ticks(g),
{
    reveal(place_of);
    let s = b.children;
    let n = s.len() as int;
    let cy = b.dim.content.y;
    let total = b.dim.content.height;
    let pieces = pieces_of(s, n, cy);
    let h = total / Num::whole(cols.count as int);
    let at = balance(pieces, total, cols.count, h).0;
    if !(total <= Num::nought()) {
        lemma_places(pieces, total, cols.count, h);
        let p = lemma_piece_at(s, n, cy, i);
        let q = lemma_piece_at(s, n, cy, j);
        lemma_pieces_grow(s, i, j, cy);
        assert(at[p].column <= at[q].column);
        lemma_piece_top(s, cy, j, g);
        if i < j {
            lemma_pieces_grow(s, i + 1, j, cy);
            if (forall|k: int| i < k < j ==> #[trigger] outside_flow(b.children, k))
                && at[p].column < at[q].column {
                assert(q == p + 1);
                assert(at[p].column != at[p + 1].column);
            }
        }
    }
}

/// Balancing spreads the children of a container over its columns: whichever
/// breaks it takes, a child in column `c` is `c` column widths and gaps right
/// of its place in the flow.
pub proof fn lemma_balancing_spreads_children(b: BoxV, cols: ColumnGeometry, g: nat) -> (r: (
    Seq<int>,
    Seq<int>,
))
    requires
        flowed(b, g),
        spaced(cols, g),
    ensures
        spread(b, balanced(b, cols), cols, r.0, r.1, g),
{
    let s = b.children;
    let n = s.len() as int;
    let cy = b.dim.content.y;
    grid::lemma_finite(cy, g, 0x8_0000);
    grid::lemma_zero(g);
    let at = Seq::new(n as nat, |i: int| place_of(b, cols, i).column as int);
    let up = Seq::new(n as nat, |i: int| place_of(b, cols, i).origin.ticks(g));
    let t = balanced(b, cols).children;
    let step = cols.width.ticks(g) + cols.gap.ticks(g);
    lemma_children_kept(b, cols);
    assert forall|i: int| 0 <= i < n && !outside_flow(s, i) implies 0 <= at[i] < cols.count
        && moved_whole(#[trigger] s[i], t[i], at[i] * step, -up[i], g) by {
        lemma_child_moved(b, cols, g, i);
    }
    assert forall|i: int| 0 <= i < n && outside_flow(s, i) implies t[i] == #[trigger] s[i] by {
        lemma_child_stays(b, cols, i);
    }
    assert forall|i: int| 0 <= i < n && !outside_flow(s, i) && #[trigger] at[i] == 0 implies up[i]
        == 0 by {
        lemma_child_moved(b, cols, g, i);
    }
    assert forall|i: int, j: int|
        0 <= i <= j < n && !outside_flow(s, i) && !outside_flow(s, j) implies #[trigger] at[i]
        <= #[trigger] at[j] by {
        lemma_two_children(b, cols, g, i, j);
    }
    assert forall|i: int, j: int|
        0 <= i <= j < n && !outside_flow(s, i) && !outside_flow(s, j) && #[trigger] at[i]
            == #[trigger] at[j] implies up[i] == up[j] by {
        lemma_two_children(b, cols, g, i, j);
    }
    assert forall|i: int, j: int|
        0 <= i < j < n && !outside_flow(s, i) && !outside_flow(s, j) && (forall|k: int|
            i < k < j ==> #[trigger] outside_flow(s, k)) && #[trigger] at[i]
            < #[trigger] at[j] implies at[j] == at[i] + 1 && outline(t[j].dim, g).1
        == cy.ticks(g) by {
        lemma_two_children(b, cols, g, i, j);
        lemma_child_moved(b, cols, g, j);
    }
    (at, up)
}

proof fn lemma_piece_top(s: Seq<BoxV>, cy: Num, i: int, g: nat)
    requires
        0 <= i < s.len(),
        s[i].dim.coords(g),
        cy.coord(g),
    ensures
        (s[i].dim.border_box().y - cy).on(g, 0x28_0000),
        (s[i].dim.border_box().y - cy).ticks(g) == outline(s[i].dim, g).1 - cy.ticks(g),
{
    let u: int = 0x8_0000;
    let d = s[i].dim;
    grid::lemma_difference(d.content.y, d.padding.top, g, u, u);
    grid::lemma_difference(d.padding_box().y, d.border.top, g, 2 * u, u);
    grid::lemma_difference(d.border_box().y, cy, g, 3 * u, u);
    grid::lemma_wider(d.border_box().y - cy, g, 4 * u, 5 * u);
}

/// A column other than the first starts where one of the pieces does.
proof fn lemma_origin_on(
    s: Seq<BoxV>,
    cy: Num,
    total: Num,
    count: usize,
    h: Num,
    q: int,
    g: nat,
)
    requires
        s.len() < usize::MAX,
        cy.coord(g),
        count > 0,
        0 <= q < pieces_of(s, s.len() as int, cy).len(),
        balance(pieces_of(s, s.len() as int, cy), total, count, h).0[q].column > 0,
        forall|i: int| 0 <= i < s.len() ==> (#[trigger] s[i]).dim.coords(g),
    ensures
        balance(pieces_of(s, s.len() as int, cy), total, count, h).0[q].origin.on(g, 0x28_0000),
    decreases q,
{
    let n = s.len() as int;
    let pieces = pieces_of(s, n, cy);
    let at = balance(pieces, total, count, h).0;
    lemma_places(pieces, total, count, h);
    lemma_first_column(pieces, total, count, h);
    if q > 0 {
        if at[q - 1].column == at[q].column {
            lemma_origin_on(s, cy, total, count, h, q - 1, g);
        } else {
            lemma_piece_in_flow(s, n, cy, q);
            let i = pieces[q].index as int;
            lemma_piece_is_of(s, n, cy, q);
            lemma_piece_top(s, cy, i, g);
        }
    }
}

proof fn lemma_piece_is_of(s: Seq<BoxV>, k: int, cy: Num, q: int)
    requires
        0 <= k <= s.len() < usize::MAX,
        0 <= q < pieces_of(s, k, cy).len(),
    ensures
        pieces_of(s, k, cy)[q].index < k,
        pieces_of(s, k, cy)[q].top == s[pieces_of(s, k, cy)[q].index as int].dim.border_box().y
            - cy,
    decreases k,
{
    if k > 0 && q < pieces_of(s, k - 1, cy).len() {
        lemma_piece_is_of(s, k - 1, cy, q);
    }
}

/// The first piece is in the first column.
proof fn lemma_first_column(pieces: Seq<Piece>, total: Num, count: usize, h: Num)
    requires
        pieces.len() > 0,
    ensures
        balance(pieces, total, count, h).0[0].column == 0,
    decreases INFINITY_BITS + 1 - h.rank(),
{
    match growth(pieces, total, count, h) {
        None => {
            assert(packing(pieces, 0, count, h) == crate::multicol::Packing::start());
            assert(packing(pieces, 1, count, h).column == 0);
        },
        Some(grow) => {
            let next = h + grow;
            lemma_rank_bound(next);
            if next >= total - Num::ratio(1, 100) || !(next > h) {
            } else {
                lemma_first_column(pieces, total, count, next);
            }
        },
    }
}

/// Children in different columns do not overlap: a child that the flow kept
/// within the column width is at least a gap away from one in a later column.
pub proof fn lemma_columns_are_apart(
    b: BoxV,
    cols: ColumnGeometry,
    g: nat,
    i: int,
    j: int,
    at: Seq<int>,
    up: Seq<int>,
)
    requires
        flowed(b, g),
        spaced(cols, g),
        0 <= i < b.children.len() && 0 <= j < b.children.len(),
        !b.children[i].own.position.is_out_of_flow(),
        !b.children[j].own.position.is_out_of_flow(),
        outline(b.children[i].dim, g).2 <= b.dim.content.x.ticks(g) + cols.width.ticks(g),
        outline(b.children[j].dim, g).0 >= b.dim.content.x.ticks(g),
        spread(b, balanced(b, cols), cols, at, up, g),
        at[i] < at[j],
    ensures
        outline(balanced(b, cols).children[i].dim, g).2 + cols.gap.ticks(g) <= outline(
            balanced(b, cols).children[j].dim,
            g,
        ).0,
{
    let step = cols.width.ticks(g) + cols.gap.ticks(g);
    let t = balanced(b, cols).children;
    assert(moved_whole(b.children[i], t[i], at[i] * step, -up[i], g));
    assert(moved_whole(b.children[j], t[j], at[j] * step, -up[j], g));
    assert(at[i] * step + step <= at[j] * step) by (nonlinear_arith)
        requires
            at[i] + 1 <= at[j],
            step > 0,
    ;
}

/// Every column lies inside the content box: a child that the flow kept within
/// the column width is inside the width of the container wherever it goes.
pub proof fn lemma_columns_stay_inside(
    b: BoxV,
    cols: ColumnGeometry,
    g: nat,
    i: int,
    at: Seq<int>,
    up: Seq<int>,
)
    requires
        flowed(b, g),
        spaced(cols, g),
        columns(b.own.style, b.dim.content.width) == Some(cols),
        (b.dim.content.width.ticks(g) - (cols.count - 1) * cols.gap.ticks(g)) % cols.count as int
            == 0,
        0 <= i < b.children.len(),
        !b.children[i].own.position.is_out_of_flow(),
        outline(b.children[i].dim, g).2 <= b.dim.content.x.ticks(g) + cols.width.ticks(g),
        outline(b.children[i].dim, g).0 >= b.dim.content.x.ticks(g),
        spread(b, balanced(b, cols), cols, at, up, g),
    ensures
        outline(balanced(b, cols).children[i].dim, g).0 >= b.dim.content.x.ticks(g),
        outline(balanced(b, cols).children[i].dim, g).2 <= b.dim.content.x.ticks(g)
            + b.dim.content.width.ticks(g),
{
    let (w, gap) = (cols.width.ticks(g), cols.gap.ticks(g));
    let step = w + gap;
    let n = cols.count as int;
    let t = balanced(b, cols).children;
    assert(moved_whole(b.children[i], t[i], at[i] * step, -up[i], g));
    assert((n - 1) * gap <= n * step) by (nonlinear_arith)
        requires
            n >= 2,
            step == w + gap,
            w > 0,
            gap >= 0,
    ;
    lemma_columns_fill_width(b.own.style, b.dim.content.width, g);
    assert(0 <= at[i] * step && at[i] * step + w <= n * w + (n - 1) * gap) by (nonlinear_arith)
        requires
            0 <= at[i] <= n - 1,
            step == w + gap,
            w > 0,
            gap >= 0,
    ;
}

/// Columns and the gaps between them fill the width of the container; there
/// are as many as the style asks for.
pub proof fn lemma_columns_fill_width(style: ComputedStyle, width: Num, g: nat)
    requires
        columns(style, width) matches Some(c) && c.gap.coord(g) && c.gap.ticks(g) >= 0 && 2
            <= c.count < 0x100_0000 && (c.count - 1) * c.gap.ticks(g) <= 0x60_0000 && (width.ticks(
            g,
        ) - (c.count - 1) * c.gap.ticks(g)) % c.count as int == 0,
        width.coord(g),
    ensures
        ({
            let c = columns(style, width)->0;
            let n = c.count as int;
            &&& n * c.width.ticks(g) + (n - 1) * c.gap.ticks(g) == width.ticks(g)
            &&& c.width.ticks(g) > 0
            &&& style.column_count == Some(c.count as u32)
        }),
{
    let u: int = 0x8_0000;
    let c = columns(style, width)->0;
    let n = c.count as nat;
    let m = (n - 1) as nat;
    lemma_one_less(n);
    let t = c.gap.ticks(g);
    assert(c.gap.on(g, t)) by {
        reveal(Num::on);
    }
    assert(0 <= m * t) by (nonlinear_arith)
        requires
            0 <= m,
            0 <= t,
    ;
    grid::lemma_times(m, c.gap, g, t);
    let gaps = Num::whole(m as int) * c.gap;
    grid::lemma_wider(gaps, g, m * t, 12 * u);
    grid::lemma_difference(width, gaps, g, u, 12 * u);
    grid::lemma_part(n, width - gaps, g, 13 * u);
    grid::lemma_finite(width, g, u);
    grid::lemma_zero(g);
    grid::lemma_order(c.width, Num::nought(), g, 13 * u, 0);
    let w = c.width.ticks(g);
    assert(w > 0);
}

/// One less than a whole number, as a number.
proof fn lemma_one_less(n: nat)
    requires
        2 <= n < 0x100_0000,
    ensures
        Num::whole(n as int) - Num::whole(1) == Num::whole(n - 1),
{
    let p = pow2(149) as int;
    lemma_pow2_pos(149);
    exact::lemma_whole(n as int);
    exact::lemma_whole(1);
    exact::lemma_whole(n - 1);
    let a = Num::whole(n as int);
    let b = Num::whole(1);
    let c = Num::whole(n - 1);
    let m = Num::negated(b);
    assert(m.finite() && m.units() == -b.units()) by {
        reveal(Num::negated);
        reveal(Num::nan);
    }
    assert(n * p - 1 * p == (n - 1) * p) by (nonlinear_arith);
    assert((n - 1) * p > 0) by (nonlinear_arith)
        requires
            n >= 2,
            p > 0,
    ;
    exact::lemma_adds(a, m, c);
    assert(a - b == c) by {
        reveal(Num::rank);
        reveal(Num::nan);
        crate::num::lemma_decode(0);
    }
}

/// The gap is what the style gives, and one font size where it gives none.
pub proof fn lemma_gap_is_given_or_font_size(style: ComputedStyle, width: Num)
    ensures
        style.column_gap == Length::Zero ==> gap_of(style, width) == style.font_px(),
        style.column_gap matches Length::Px(v) ==> (v > Num::nought() ==> gap_of(style, width)
            == v) && (v < Num::nought() ==> gap_of(style, width) == Num::nought()),
        columns(style, width) matches Some(c) ==> c.gap == gap_of(style, width),
{
}

/// Where the content fits columns of a height, no piece reaches below its
/// column, and neither does what follows the last piece in the last one, by
/// more than a hundredth.
pub proof fn lemma_columns_hold_what_is_in_them(
    pieces: Seq<Piece>,
    total: Num,
    count: usize,
    h: Num,
    i: int,
)
    requires
        growth(pieces, total, count, h) is None,
        0 <= i < pieces.len(),
    ensures
        ({
            let at = balance(pieces, total, count, h).0;
            let limit = h + Num::ratio(1, 100);
            &&& !(pieces[i].bottom - at[i].origin > limit)
            &&& !(total - at.last().origin > limit)
            &&& balance(pieces, total, count, h).1 == h
        }),
{
    lemma_fitting_pieces(pieces, pieces.len() as int, i, count, h);
}

} // verus!

//! Multi-column layout, block-level fragmentation only.
//!
//! A box with a column count lays its children out at the column width and
//! distributes them over columns of one balanced height. Breaks are taken only
//! between in-flow children. Balancing starts at the flowed height divided by
//! the column count, packs greedily, and grows the height by the smallest
//! shortage that a break reported until the content fits. A child that opens a
//! column starts at the column top.
use vstd::prelude::*;
use crate::boxes::{box_views, BoxV, LayoutBox};
use crate::exact;
use crate::geometry::{Dimensions, Rect};
use crate::num::Num;
use crate::rounding::INFINITY_BITS;
use crate::style::{ComputedStyle, Length};
use crate::tree::{self, shifted, translate_subtree};

verus! {

/// Used column geometry of a multi-column container.
#[derive(Debug, Clone, Copy)]
pub struct ColumnGeometry {
    pub count: usize,
    pub width: Num,
    pub gap: Num,
}

/// The gap between columns: one font size where the author gave none.
pub open spec fn gap_of(style: ComputedStyle, content_width: Num) -> Num {
    match style.column_gap {
        Length::Zero => style.font_px(),
        g => Num::larger(
            g.px(style.font_px(), Num::whole(16), content_width),
            Num::nought(),
        ),
    }
}

/// The columns of a container: as many as the style asks for, of what the gaps
/// leave of the width in equal parts; `None` with fewer than two columns or no
/// width left for one.
pub open spec fn columns(style: ComputedStyle, content_width: Num) -> Option<ColumnGeometry> {
    match style.column_count {
        Some(n) => {
            let gap = gap_of(style, content_width);
            let width = (content_width - (Num::whole(n as int) - Num::whole(1)) * gap)
                / Num::whole(n as int);
            if n < 2 || content_width <= Num::nought() || width <= Num::nought() {
                None
            } else {
                Some(ColumnGeometry { count: n as usize, width, gap })
            }
        },
        None => None,
    }
}

/// Column geometry for `style` in a content box `content_width` wide, or
/// `None` when the box is not a multi-column container.
pub fn column_geometry(style: &ComputedStyle, content_width: Num) -> (r: Option<ColumnGeometry>)
    ensures
        r == columns(*style, content_width),
{
    match style.column_count {
        Some(n) => {
            let count: usize = n as usize;
            if count < 2 || content_width <= Num::zero() {
                return None;
            }
            let size = style.font_size_px();
            let gap = match style.column_gap {
                Length::Zero => size,
                g => g.to_px(size, Num::of(16), content_width).max(Num::zero()),
            };
            let width = (content_width - (Num::from_usize(count) - Num::of(1)) * gap)
                / Num::from_usize(count);
            if width <= Num::zero() {
                return None;
            }
            Some(ColumnGeometry { count, width, gap })
        },
        None => None,
    }
}

/// One unbreakable piece of the flow: border-box top and bottom, relative to
/// the container's content top.
#[derive(Debug, Clone, Copy)]
pub struct Piece {
    pub index: usize,
    pub top: Num,
    pub bottom: Num,
}

/// The column of a piece, and the flowed height at which that column starts.
#[derive(Debug, Clone, Copy)]
pub struct Place {
    pub column: usize,
    pub origin: Num,
}

/// The pieces of the first `k` children: those in flow.
pub open spec fn pieces_of(s: Seq<BoxV>, k: int, content_y: Num) -> Seq<Piece>
    decreases k,
{
    if k <= 0 {
        Seq::empty()
    } else {
        let before = pieces_of(s, k - 1, content_y);
        let c = s[k - 1];
        if c.own.position.is_out_of_flow() {
            before
        } else {
            let bb = c.dim.border_box();
            before.push(
                Piece {
                    index: (k - 1) as usize,
                    top: bb.y - content_y,
                    bottom: bb.y + bb.height - content_y,
                },
            )
        }
    }
}

/// A packing in progress.
#[derive(Debug, Clone, Copy)]
pub struct Packing {
    /// The open column and the flowed height at which it starts.
    pub column: usize,
    pub origin: Num,
    /// The lowest bottom placed in it, and whether it holds a piece.
    pub bottom: Num,
    pub filled: bool,
    /// The smallest increase of the height that changes the packing.
    pub shortage: Num,
    pub fits: bool,
}

impl Packing {
    /// Nothing packed.
    pub open spec fn start() -> Packing {
        Packing {
            column: 0,
            origin: Num::nought(),
            bottom: Num::nought(),
            filled: false,
            shortage: Num::unbounded(),
            fits: true,
        }
    }

    /// The packing after one more piece.
    pub open spec fn with(self, p: Piece, count: usize, h: Num) -> Packing {
        let limit = h + Num::ratio(1, 100);
        let need = p.bottom - self.origin;
        if !(need > limit) {
            Packing { bottom: Num::larger(self.bottom, p.bottom), filled: true, ..self }
        } else {
            let shortage = Num::smaller(self.shortage, need - h);
            if self.filled && p.top >= self.bottom - Num::ratio(1, 100) && self.column + 1 < count {
                let over = p.bottom - p.top > limit;
                Packing {
                    column: (self.column + 1) as usize,
                    origin: p.top,
                    bottom: Num::larger(p.top, p.bottom),
                    filled: true,
                    shortage: if over {
                        Num::smaller(shortage, p.bottom - p.top - h)
                    } else {
                        shortage
                    },
                    fits: self.fits && !over,
                }
            } else {
                Packing {
                    bottom: Num::larger(self.bottom, p.bottom),
                    filled: true,
                    shortage,
                    fits: false,
                    ..self
                }
            }
        }
    }
}

/// The packing of the first `k` pieces into columns of height `h`.
pub open spec fn packing(pieces: Seq<Piece>, k: int, count: usize, h: Num) -> Packing
    decreases k,
{
    if k <= 0 {
        Packing::start()
    } else {
        packing(pieces, k - 1, count, h).with(pieces[k - 1], count, h)
    }
}

/// The places of the pieces in columns of height `h`.
pub open spec fn places(pieces: Seq<Piece>, count: usize, h: Num) -> Seq<Place> {
    Seq::new(
        pieces.len(),
        |i: int|
            {
                let p = packing(pieces, i + 1, count, h);
                Place { column: p.column, origin: p.origin }
            },
    )
}

/// How much the height has to grow, or `None` where everything fits. The last
/// column also holds what follows its last piece.
pub open spec fn growth(pieces: Seq<Piece>, total: Num, count: usize, h: Num) -> Option<Num> {
    let p = packing(pieces, pieces.len() as int, count, h);
    let over = total - p.origin > h + Num::ratio(1, 100);
    if p.fits && !over {
        None
    } else {
        Some(
            Num::larger(
                if over {
                    Num::smaller(p.shortage, total - p.origin - h)
                } else {
                    p.shortage
                },
                Num::ratio(1, 100),
            ),
        )
    }
}

/// Every piece in the first column.
pub open spec fn one_column(n: nat) -> Seq<Place> {
    Seq::new(n, |i: int| Place { column: 0, origin: Num::nought() })
}

/// The places of the pieces and the column height, grown from `h` until the
/// content fits; one column of the whole height where that does not happen
/// before it.
pub open spec fn balance(pieces: Seq<Piece>, total: Num, count: usize, h: Num) -> (
    Seq<Place>,
    Num,
)
    decreases INFINITY_BITS + 1 - h.rank(),
{
    match growth(pieces, total, count, h) {
        None => (places(pieces, count, h), h),
        Some(grow) => {
            let next = h + grow;
            proof {
                lemma_rank_bound(next);
            }
            if next >= total - Num::ratio(1, 100) || !(next > h) {
                (one_column(pieces.len()), total)
            } else {
                balance(pieces, total, count, next)
            }
        },
    }
}

/// Ranks of numbers are bounded by that of infinity.
pub proof fn lemma_rank_bound(a: Num)
    ensures
        !a.nan() ==> -(INFINITY_BITS as int) <= a.rank() <= INFINITY_BITS,
{
    reveal(Num::nan);
    reveal(Num::rank);
}

/// A hundredth, by which content may reach over its column.
pub open spec fn slack() -> Num {
    Num::ratio(1, 100)
}

/// Whether something that needs more than `h` finds room at `g`, and a
/// shortage at `h` is no more than what it lacks.
pub open spec fn relieved(need: Num, h: Num, g: Num, shortage: Num) -> bool {
    need > h + slack() && need <= g + slack() && shortage <= need - h
}

proof fn lemma_limits(h: Num, g: Num)
    requires
        h.finite(),
        g.finite(),
        h <= g,
    ensures
        slack().finite(),
        h + slack() <= g + slack(),
{
    exact::lemma_whole(1);
    exact::lemma_whole(100);
    assert(slack().finite()) by {
        reveal(Num::nan);
        exact::lemma_hundredth();
    }
    exact::lemma_finite_terms(h, slack());
    exact::lemma_finite_terms(g, slack());
    exact::lemma_sums_keep_order(h, g, slack());
}

/// From one height to a larger one, a packing stays the same but for what it
/// lacks, or something finds room that lacked it.
proof fn lemma_packing_changes(pieces: Seq<Piece>, k: int, count: usize, h: Num, g: Num)
    requires
        h.finite(),
        g.finite(),
        h <= g,
    ensures
        !packing(pieces, k, count, h).shortage.nan(),
        packing(pieces, k, count, g) == (Packing {
            shortage: packing(pieces, k, count, g).shortage,
            ..packing(pieces, k, count, h)
        }) || exists|need: Num| #[trigger]
            relieved(need, h, g, packing(pieces, k, count, h).shortage),
    decreases k,
{
    exact::lemma_unbounded();
    if k > 0 {
        lemma_packing_changes(pieces, k - 1, count, h, g);
        lemma_limits(h, g);
        let s = packing(pieces, k - 1, count, h);
        let p = pieces[k - 1];
        let now = packing(pieces, k, count, h);
        let need = p.bottom - s.origin;
        let tall = p.bottom - p.top;
        if need > h + slack() {
            exact::lemma_finite_terms(need, h);
        }
        if tall > h + slack() {
            exact::lemma_finite_terms(tall, h);
        }
        if packing(pieces, k - 1, count, g) != (Packing {
            shortage: packing(pieces, k - 1, count, g).shortage,
            ..s
        }) {
            let found = choose|n: Num| #[trigger] relieved(n, h, g, s.shortage);
            assert(relieved(found, h, g, now.shortage));
        } else if need > h + slack() {
            if !(need > g + slack()) {
                assert(relieved(need, h, g, now.shortage));
            } else if tall > h + slack() && !(tall > g + slack()) && now.column != s.column {
                assert(relieved(tall, h, g, now.shortage));
            }
        }
    }
}

/// Where content fits at a height but not at a smaller one, the height grows
/// by no more than what it lacks, or by a hundredth.
proof fn lemma_growth_is_needed(
    pieces: Seq<Piece>,
    total: Num,
    count: usize,
    h: Num,
    g: Num,
)
    requires
        h.finite(),
        g.finite(),
        h <= g,
        growth(pieces, total, count, h) is Some,
        growth(pieces, total, count, g) is None,
    ensures
        h + growth(pieces, total, count, h)->0 <= g + slack() || h + growth(
            pieces,
            total,
            count,
            h,
        )->0 <= h + ((g + slack()) - h),
        !growth(pieces, total, count, h)->0.nan(),
        growth(pieces, total, count, h)->0 >= slack(),
{
    let n = pieces.len() as int;
    let p = packing(pieces, n, count, h);
    let grow = growth(pieces, total, count, h)->0;
    lemma_limits(h, g);
    lemma_packing_changes(pieces, n, count, h, g);
    let rest = total - p.origin;
    if rest > h + slack() {
        exact::lemma_finite_terms(rest, h);
    }
    let need = if exists|need: Num| #[trigger] relieved(need, h, g, p.shortage) {
        choose|need: Num| #[trigger] relieved(need, h, g, p.shortage)
    } else {
        rest
    };
    assert(need > h + slack() && need <= g + slack());
    exact::lemma_finite_terms(need, h);
    if grow == slack() {
    } else {
        assert(grow <= need - h);
        let limit = g + slack();
        exact::lemma_finite_terms(limit, h);
        exact::lemma_sums_keep_order(need, limit, Num::negated(h));
        exact::lemma_finite_terms(grow, h);
        exact::lemma_finite_terms(limit - h, h);
        exact::lemma_sum_commutes(h, grow);
        exact::lemma_sum_commutes(h, limit - h);
        exact::lemma_sums_keep_order(grow, limit - h, h);
    }
}

/// Whether a height is no more than a hundredth above `g`, as it is reached
/// from a height `p` that was tried before; a hundredth must count beside `p`.
pub open spec fn hardly_above(h: Num, p: Num, g: Num) -> bool {
    ||| h <= g + slack()
    ||| h <= p + ((g + slack()) - p)
    ||| !(p + slack() > p)
}

/// Where the content fits at a height and at all larger ones, the balanced
/// height is no larger, or is reached from a smaller one that was tried.
proof fn lemma_reached_from(pieces: Seq<Piece>, total: Num, count: usize, h: Num, g: Num) -> (p:
    Num)
    requires
        h.finite(),
        g.finite(),
        h <= g,
        forall|y: Num| y >= g ==> #[trigger] growth(pieces, total, count, y) is None,
    ensures
        ({
            let r = balance(pieces, total, count, h).1;
            r <= g || (p >= h && p <= g && (hardly_above(r, p, g) || (r == total && hardly_above(
                total - slack(),
                p,
                g,
            ))))
        }),
    decreases INFINITY_BITS + 1 - h.rank(),
{
    lemma_limits(h, g);
    match growth(pieces, total, count, h) {
        None => h,
        Some(grow) => {
            let next = h + grow;
            let r = balance(pieces, total, count, h).1;
            lemma_rank_bound(next);
            assert(growth(pieces, total, count, g) is None);
            lemma_growth_is_needed(pieces, total, count, h, g);
            exact::lemma_finite_terms(grow, h);
            exact::lemma_finite_terms(slack(), h);
            exact::lemma_sum_commutes(h, grow);
            exact::lemma_sum_commutes(h, slack());
            exact::lemma_sums_keep_order(slack(), grow, h);
            if next >= total - slack() || !(next > h) {
                assert(r == total);
                assert(hardly_above(total - slack(), h, g));
                h
            } else if next <= g {
                exact::lemma_between_finite(h, next, g);
                assert(balance(pieces, total, count, h) == balance(pieces, total, count, next));
                lemma_reached_from(pieces, total, count, next, g)
            } else {
                assert(growth(pieces, total, count, next) is None);
                assert(balance(pieces, total, count, h) == balance(pieces, total, count, next));
                assert(balance(pieces, total, count, next).1 == next);
                assert(hardly_above(r, h, g));
                h
            }
        },
    }
}

/// The column height is the least that holds the content, to within a
/// hundredth, or two where it is the whole height of the content: where the
/// content fits at a height and at all larger ones, the balanced height is
/// hardly above it.
pub proof fn lemma_balance_is_least(
    pieces: Seq<Piece>,
    total: Num,
    count: usize,
    h: Num,
    g: Num,
)
    requires
        h.finite(),
        g.finite(),
        h <= g,
        forall|y: Num| y >= g ==> #[trigger] growth(pieces, total, count, y) is None,
    ensures
        ({
            let r = balance(pieces, total, count, h).1;
            ||| r <= g
            ||| exists|p: Num|
                p >= h && p <= g && (#[trigger] hardly_above(r, p, g) || (r == total
                    && hardly_above(total - slack(), p, g)))
        }),
{
    let r = balance(pieces, total, count, h).1;
    let p = lemma_reached_from(pieces, total, count, h, g);
    if !(r <= g) {
        assert(p >= h && p <= g && (hardly_above(r, p, g) || (r == total && hardly_above(
            total - slack(),
            p,
            g,
        ))));
    }
}

/// A child moved into its column.
pub open spec fn in_column(b: BoxV, place: Place, cols: ColumnGeometry) -> BoxV {
    if place.column == 0 {
        b
    } else {
        shifted(
            b,
            Num::whole(place.column as int) * (cols.width + cols.gap),
            Num::negated(place.origin),
        )
    }
}

/// Children of which the first `k` pieces are moved into their columns.
pub open spec fn distributed(
    s: Seq<BoxV>,
    pieces: Seq<Piece>,
    at: Seq<Place>,
    cols: ColumnGeometry,
    k: int,
) -> Seq<BoxV>
    decreases k,
{
    if k <= 0 {
        s
    } else {
        let before = distributed(s, pieces, at, cols, k - 1);
        let i = pieces[k - 1].index as int;
        before.update(i, in_column(before[i], at[k - 1], cols))
    }
}

/// A container with its children balanced over its columns.
#[verifier::opaque]
pub open spec fn balanced(b: BoxV, cols: ColumnGeometry) -> BoxV {
    let total = b.dim.content.height;
    let pieces = pieces_of(b.children, b.children.len() as int, b.dim.content.y);
    if pieces.len() == 0 || total <= Num::nought() {
        b
    } else {
        let (at, h) = balance(pieces, total, cols.count, total / Num::whole(cols.count as int));
        BoxV {
            children: distributed(b.children, pieces, at, cols, pieces.len() as int),
            dim: Dimensions { content: Rect { height: h, ..b.dim.content }, ..b.dim },
            ..b
        }
    }
}

/// The pieces name places in the container, one for each child at most.
pub proof fn lemma_pieces_in_range(s: Seq<BoxV>, k: int, content_y: Num)
    requires
        0 <= k <= s.len(),
        s.len() <= usize::MAX,
    ensures
        pieces_of(s, k, content_y).len() <= k,
        forall|i: int|
            0 <= i < pieces_of(s, k, content_y).len() ==> (#[trigger] pieces_of(
                s,
                k,
                content_y,
            )[i]).index < k,
    decreases k,
{
    if k > 0 {
        lemma_pieces_in_range(s, k - 1, content_y);
    }
}

/// Distribution keeps the number and the shape of the children.
pub proof fn lemma_distributed_fits(
    s: Seq<BoxV>,
    pieces: Seq<Piece>,
    at: Seq<Place>,
    cols: ColumnGeometry,
    k: int,
    n: nat,
)
    requires
        0 <= k <= pieces.len(),
        at.len() == pieces.len(),
        forall|i: int| 0 <= i < pieces.len() ==> (#[trigger] pieces[i]).index < s.len(),
        forall|i: int| 0 <= i < s.len() ==> (#[trigger] s[i]).fits(n),
    ensures
        distributed(s, pieces, at, cols, k).len() == s.len(),
        forall|i: int|
            0 <= i < s.len() ==> (#[trigger] distributed(s, pieces, at, cols, k)[i]).fits(n),
    decreases k,
{
    if k > 0 {
        lemma_distributed_fits(s, pieces, at, cols, k - 1, n);
        let before = distributed(s, pieces, at, cols, k - 1);
        let j = pieces[k - 1].index as int;
        assert(before[j].fits(n));
        tree::lemma_shifted_fits(
            before[j],
            Num::whole(at[k - 1].column as int) * (cols.width + cols.gap),
            Num::negated(at[k - 1].origin),
            n,
        );
    }
}

/// Balancing keeps the shape of the tree.
pub proof fn lemma_balanced_fits(b: BoxV, cols: ColumnGeometry, n: nat)
    requires
        b.fits(n),
        b.children.len() <= usize::MAX,
    ensures
        balanced(b, cols).fits(n),
        balanced(b, cols).own == b.own,
        balanced(b, cols).viewport == b.viewport,
{
    reveal(balanced);
    let total = b.dim.content.height;
    let pieces = pieces_of(b.children, b.children.len() as int, b.dim.content.y);
    lemma_pieces_in_range(b.children, b.children.len() as int, b.dim.content.y);
    let (at, h) = balance(pieces, total, cols.count, total / Num::whole(cols.count as int));
    lemma_balance_places_all(
        pieces,
        total,
        cols.count,
        total / Num::whole(cols.count as int),
    );
    lemma_distributed_fits(
        b.children,
        pieces,
        at,
        cols,
        pieces.len() as int,
        (n - 1) as nat,
    );
}

/// Every piece gets a place, in one of the columns.
pub proof fn lemma_balance_places_all(pieces: Seq<Piece>, total: Num, count: usize, h: Num)
    ensures
        balance(pieces, total, count, h).0.len() == pieces.len(),
        count > 0 ==> forall|i: int|
            0 <= i < pieces.len() ==> (#[trigger] balance(pieces, total, count, h).0[i]).column
                < count,
    decreases INFINITY_BITS + 1 - h.rank(),
{
    match growth(pieces, total, count, h) {
        None => {
            if count > 0 {
                assert forall|i: int| 0 <= i < pieces.len() implies (#[trigger] balance(
                    pieces,
                    total,
                    count,
                    h,
                ).0[i]).column < count by {
                    lemma_column_in_range(pieces, i + 1, count, h);
                }
            }
        },
        Some(grow) => {
            let next = h + grow;
            lemma_rank_bound(next);
            if next >= total - Num::ratio(1, 100) || !(next > h) {
            } else {
                lemma_balance_places_all(pieces, total, count, next);
            }
        },
    }
}

proof fn lemma_column_in_range(pieces: Seq<Piece>, k: int, count: usize, h: Num)
    requires
        count > 0,
    ensures
        packing(pieces, k, count, h).column < count,
    decreases k,
{
    if k > 0 {
        lemma_column_in_range(pieces, k - 1, count, h);
    }
}

/// Columns fill in order: a later piece is never in an earlier column.
pub proof fn lemma_columns_in_order(pieces: Seq<Piece>, i: int, j: int, count: usize, h: Num)
    requires
        0 <= i <= j < pieces.len(),
    ensures
        places(pieces, count, h)[i].column <= places(pieces, count, h)[j].column,
{
    lemma_packing_in_order(pieces, i + 1, j + 1, count, h);
}

proof fn lemma_packing_in_order(pieces: Seq<Piece>, i: int, j: int, count: usize, h: Num)
    requires
        0 <= i <= j,
    ensures
        packing(pieces, i, count, h).column <= packing(pieces, j, count, h).column,
    decreases j,
{
    if i < j {
        lemma_packing_in_order(pieces, i, j - 1, count, h);
    }
}

/// A packing that fits leaves no piece below the column height.
pub proof fn lemma_fitting_pieces(pieces: Seq<Piece>, k: int, i: int, count: usize, h: Num)
    requires
        0 <= i < k <= pieces.len(),
        packing(pieces, k, count, h).fits,
    ensures
        !(pieces[i].bottom - places(pieces, count, h)[i].origin > h + Num::ratio(1, 100)),
    decreases k,
{
    if i < k - 1 {
        lemma_fitting_pieces(pieces, k - 1, i, count, h);
    }
}

fn collect_pieces(v: &Vec<LayoutBox>, content_y: Num) -> (r: Vec<Piece>)
    ensures
        r@ == pieces_of(box_views(v@), v@.len() as int, content_y),
{
    let mut out: Vec<Piece> = Vec::new();
    let mut k: usize = 0;
    while k < v.len()
        invariant
            k <= v.len(),
            out@ == pieces_of(box_views(v@), k as int, content_y),
        decreases v.len() - k,
    {
        proof {
            crate::boxes::lemma_view_at(v@, k as int);
        }
        if !v[k].position.is_out_of_flow() {
            let bb = v[k].dimensions.border_box();
            out.push(
                Piece { index: k, top: bb.y - content_y, bottom: bb.y + bb.height - content_y },
            );
        }
        k = k + 1;
    }
    out
}

/// Packs the pieces into columns of height `h`: the places, or the smallest
/// height increase that changes the packing.
fn pack(pieces: &Vec<Piece>, total: Num, count: usize, h: Num) -> (r: Result<Vec<Place>, Num>)
    ensures
        match growth(pieces@, total, count, h) {
            None => r is Ok && r->Ok_0@ == places(pieces@, count, h),
            Some(grow) => r is Err && r->Err_0 == grow,
        },
{
    let eps = Num::frac(1, 100);
    let limit = h + eps;
    let mut out: Vec<Place> = Vec::new();
    let mut column: usize = 0;
    let mut origin = Num::zero();
    let mut bottom = Num::zero();
    let mut filled = false;
    let mut shortage = Num::infinity();
    let mut fits = true;
    let mut i: usize = 0;
    while i < pieces.len()
        invariant
            i <= pieces.len(),
            eps == Num::ratio(1, 100),
            limit == h + eps,
            packing(pieces@, i as int, count, h) == (Packing {
                column,
                origin,
                bottom,
                filled,
                shortage,
                fits,
            }),
            out@.len() == i,
            forall|j: int| 0 <= j < i ==> #[trigger] out@[j] == places(pieces@, count, h)[j],
        decreases pieces.len() - i,
    {
        let p: Piece = pieces[i];
        let need = p.bottom - origin;
        if need > limit {
            shortage = shortage.min(need - h);
            if filled && p.top >= bottom - eps && column < count && column + 1 < count {
                column = column + 1;
                origin = p.top;
                bottom = p.top;
                if p.bottom - origin > limit {
                    shortage = shortage.min(p.bottom - origin - h);
                    fits = false;
                }
            } else {
                fits = false;
            }
        }
        bottom = bottom.max(p.bottom);
        filled = true;
        out.push(Place { column, origin });
        i = i + 1;
    }
    if total - origin > limit {
        shortage = shortage.min(total - origin - h);
        fits = false;
    }
    proof {
        assert(out@ =~= places(pieces@, count, h));
    }
    if fits {
        Ok(out)
    } else {
        Err(shortage.max(eps))
    }
}

fn first_column(n: usize) -> (r: Vec<Place>)
    ensures
        r@ == one_column(n as nat),
{
    let mut out: Vec<Place> = Vec::new();
    let mut i: usize = 0;
    while i < n
        invariant
            i <= n,
            out@ == one_column(i as nat),
        decreases n - i,
    {
        out.push(Place { column: 0, origin: Num::zero() });
        i = i + 1;
        proof {
            assert(out@ =~= one_column(i as nat));
        }
    }
    out
}

fn balance_pieces(pieces: &Vec<Piece>, total: Num, count: usize, start: Num) -> (r: (
    Vec<Place>,
    Num,
))
    ensures
        (r.0@, r.1) == balance(pieces@, total, count, start),
{
    let mut h = start;
    loop
        invariant
            balance(pieces@, total, count, start) == balance(pieces@, total, count, h),
        decreases INFINITY_BITS + 1 - h.rank(),
    {
        match pack(pieces, total, count, h) {
            Ok(at) => {
                return (at, h);
            },
            Err(grow) => {
                let next = h + grow;
                proof {
                    lemma_rank_bound(next);
                }
                if next >= total - Num::frac(1, 100) || !(next > h) {
                    return (first_column(pieces.len()), total);
                }
                h = next;
            },
        }
    }
}

/// Balance a container's children, already laid out at the column width, over
/// its columns, and give it the balanced height.
pub fn balance_columns(container: &mut LayoutBox, cols: &ColumnGeometry)
    ensures
        final(container)@ == balanced(old(container)@, *cols),
        final(container).children@.len() == old(container).children@.len(),
{
    proof {
        reveal(balanced);
    }
    let content_y = container.dimensions.content.y;
    let total = container.dimensions.content.height;
    let count: usize = container.children.len();
    let pieces: Vec<Piece> = collect_pieces(&container.children, content_y);
    if pieces.len() == 0 || total <= Num::zero() {
        return;
    }
    let (at, h) = balance_pieces(&pieces, total, cols.count, total / Num::from_usize(cols.count));
    let ghost kids = box_views(old(container).children@);
    proof {
        assert(kids.len() == count);
        lemma_pieces_in_range(kids, kids.len() as int, content_y);
        lemma_balance_places_all(
            pieces@,
            total,
            cols.count,
            total / Num::whole(cols.count as int),
        );
        assert(distributed(kids, pieces@, at@, *cols, 0) == kids);
    }
    let mut k: usize = 0;
    while k < pieces.len()
        invariant
            k <= pieces.len(),
            at@.len() == pieces@.len(),
            kids.len() == container.children@.len(),
            forall|i: int| 0 <= i < pieces@.len() ==> (#[trigger] pieces@[i]).index < kids.len(),
            box_views(container.children@) == distributed(kids, pieces@, at@, *cols, k as int),
            container@ == (BoxV { children: box_views(container.children@), ..old(container)@ }),
            container.children@.len() == old(container).children@.len(),
        decreases pieces.len() - k,
    {
        let p: Piece = pieces[k];
        let place: Place = at[k];
        let ghost before = container.children@;
        proof {
            crate::boxes::lemma_view_at(before, p.index as int);
        }
        if place.column != 0 {
            let dx = Num::from_usize(place.column) * (cols.width + cols.gap);
            translate_subtree(&mut container.children[p.index], dx, place.origin.negate());
        }
        proof {
            let after = container.children@;
            assert(after =~= before.update(p.index as int, after[p.index as int]));
            crate::boxes::lemma_views_update(before, p.index as int, after[p.index as int]);
        }
        k = k + 1;
    }
    container.dimensions.content.height = h;
}

} // verus!

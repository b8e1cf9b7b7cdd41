//! Tiles and dashes: what repeats along an edge.
use vstd::prelude::*;
use vstd::arithmetic::div_mod::*;
use vstd::arithmetic::power2::*;
use crate::borders::{dash_pattern, gap_for, nominal_dash};
use crate::decorate::{
    image_rect, image_side, tile, tile_count, tile_row, tile_rows, tile_start, tiles,
};
use crate::display::{BorderRadius, CommandV, GradientV};
use crate::exact;
use crate::geometry::Rect;
use crate::grid;
use crate::images::sizeless;
use crate::laws::boxes::lemma_rect_edges;
use crate::laws::flowing::lemma_whole_on;
use crate::num::Num;
use crate::rounding;
use crate::style::{BackgroundPosition, BackgroundRepeat, BackgroundSize, BorderStyle};

verus! {

/// Whether two rectangles share more than an edge.
pub open spec fn share_area(a: Rect, b: Rect, g: nat) -> bool {
    let (l, t, r, d) = a.edges(g);
    let (m, u, s, e) = b.edges(g);
    l < s && m < r && t < e && u < d
}

/// Whether a command paints a gradient into a rectangle, given by the place of
/// its corner; its size is that of another.
pub open spec fn paints_tile(c: CommandV, x: int, y: int, size: Rect, g: nat) -> bool {
    c matches CommandV::Gradient { rect, .. } && rect.x.ticks(g) == x && rect.y.ticks(g) == y
        && rect.width == size.width && rect.height == size.height
}

/// Whether a first tile is on a grid, with room for a row of fifty.
pub open spec fn tile_on(first: Rect, g: nat) -> bool {
    &&& first.x.coord(g) && first.y.coord(g)
    &&& first.width.on(g, 0x1_0000) && first.height.on(g, 0x1_0000)
}

proof fn lemma_step(start: Num, size: Num, k: nat, g: nat)
    requires
        start.coord(g),
        size.on(g, 0x1_0000),
        k < 50,
    ensures
        (start + Num::whole(k as int) * size).on(g, 0x48_0000),
        (start + Num::whole(k as int) * size).ticks(g) == start.ticks(g) + k * size.ticks(g),
{
    let n: int = 0x1_0000;
    let m = k * n;
    assert(0 <= m <= 0x40_0000) by (nonlinear_arith)
        requires
            m == k * n,
            n == 0x1_0000,
            0 <= k < 50,
    ;
    grid::lemma_times(k, size, g, n);
    grid::lemma_wider(Num::whole(k as int) * size, g, m, 0x40_0000);
    grid::lemma_sum(start, Num::whole(k as int) * size, g, 0x8_0000, 0x40_0000);
}

proof fn lemma_tile(grad: GradientV, container: Rect, rect: Rect, radius: BorderRadius, g: nat)
    requires
        container.coords(g),
        rect.x.on(g, 0x48_0000) && rect.y.on(g, 0x48_0000),
        rect.width.on(g, 0x1_0000) && rect.height.on(g, 0x1_0000),
    ensures
        share_area(rect, container, g) ==> tile(grad, container, rect, radius).len() == 1
            && paints_tile(
            tile(grad, container, rect, radius)[0],
            rect.x.ticks(g),
            rect.y.ticks(g),
            rect,
            g,
        ),
        !share_area(rect, container, g) ==> tile(grad, container, rect, radius).len() == 0,
{
    let u: int = 0x8_0000;
    lemma_rect_edges(container, g);
    grid::lemma_sum(rect.x, rect.width, g, 0x48_0000, 0x1_0000);
    grid::lemma_sum(rect.y, rect.height, g, 0x48_0000, 0x1_0000);
    grid::lemma_order(rect.right(), container.x, g, 0x49_0000, u);
    grid::lemma_order(rect.x, container.right(), g, 0x48_0000, 2 * u);
    grid::lemma_order(rect.bottom(), container.y, g, 0x49_0000, u);
    grid::lemma_order(rect.y, container.bottom(), g, 0x48_0000, 2 * u);
}

/// The tiles of a row stand side by side: each that shares area with the
/// container is painted, as many widths from the first as its place in the row.
pub proof fn lemma_tiles_stand_side_by_side(
    grad: GradientV,
    container: Rect,
    first: Rect,
    radius: BorderRadius,
    k: int,
    g: nat,
    j: int,
) -> (at: int)
    requires
        container.coords(g),
        first.x.coord(g) && first.y.on(g, 0x48_0000),
        first.width.on(g, 0x1_0000) && first.height.on(g, 0x1_0000),
        0 <= j < k <= 50,
    ensures
        ({
            let row = tile_row(grad, container, first, radius, k);
            let spot = Rect { x: first.x + Num::whole(j) * first.width, ..first };
            let x = first.x.ticks(g) + j * first.width.ticks(g);
            &&& spot.x.ticks(g) == x
            &&& share_area(spot, container, g) ==> 0 <= at < row.len() && paints_tile(
                row[at],
                x,
                first.y.ticks(g),
                first,
                g,
            )
        }),
    decreases k,
{
    let spot = Rect { x: first.x + Num::whole(j) * first.width, ..first };
    lemma_step(first.x, first.width, j as nat, g);
    lemma_tile(grad, container, spot, radius, g);
    let before = tile_row(grad, container, first, radius, k - 1);
    if j < k - 1 {
        lemma_tiles_stand_side_by_side(grad, container, first, radius, k - 1, g, j)
    } else {
        before.len() as int
    }
}

/// Nothing else is painted in a row: each command is a tile that shares area
/// with the container, a whole number of widths from the first.
pub proof fn lemma_row_holds_tiles_only(
    grad: GradientV,
    container: Rect,
    first: Rect,
    radius: BorderRadius,
    k: int,
    g: nat,
    c: int,
) -> (j: int)
    requires
        container.coords(g),
        first.x.coord(g) && first.y.on(g, 0x48_0000),
        first.width.on(g, 0x1_0000) && first.height.on(g, 0x1_0000),
        k <= 50,
        0 <= c < tile_row(grad, container, first, radius, k).len(),
    ensures
        0 <= j < k,
        paints_tile(
            tile_row(grad, container, first, radius, k)[c],
            first.x.ticks(g) + j * first.width.ticks(g),
            first.y.ticks(g),
            first,
            g,
        ),
        share_area(
            Rect { x: first.x + Num::whole(j) * first.width, ..first },
            container,
            g,
        ),
    decreases k,
{
    let before = tile_row(grad, container, first, radius, k - 1);
    let spot = Rect { x: first.x + Num::whole(k - 1) * first.width, ..first };
    lemma_step(first.x, first.width, (k - 1) as nat, g);
    lemma_tile(grad, container, spot, radius, g);
    if c < before.len() {
        let j = lemma_row_holds_tiles_only(grad, container, first, radius, k - 1, g, c);
        j
    } else {
        k - 1
    }
}

/// The rows of tiles stand below each other: every tile of the grid that
/// shares area with the container is painted, as many widths and heights from
/// the first as its column and row.
pub proof fn lemma_rows_stand_below_each_other(
    grad: GradientV,
    container: Rect,
    first: Rect,
    radius: BorderRadius,
    cols: int,
    rows: int,
    g: nat,
    i: int,
    j: int,
) -> (at: int)
    requires
        container.coords(g),
        tile_on(first, g),
        0 <= i < rows <= 50,
        0 <= j < cols <= 50,
    ensures
        ({
            let all = tile_rows(grad, container, first, radius, cols, rows);
            let spot = Rect {
                x: first.x + Num::whole(j) * first.width,
                y: first.y + Num::whole(i) * first.height,
                ..first
            };
            let x = first.x.ticks(g) + j * first.width.ticks(g);
            let y = first.y.ticks(g) + i * first.height.ticks(g);
            share_area(spot, container, g) ==> 0 <= at < all.len() && paints_tile(
                all[at],
                x,
                y,
                first,
                g,
            )
        }),
    decreases rows,
{
    let before = tile_rows(grad, container, first, radius, cols, rows - 1);
    if i < rows - 1 {
        lemma_rows_stand_below_each_other(
            grad,
            container,
            first,
            radius,
            cols,
            rows - 1,
            g,
            i,
            j,
        )
    } else {
        lemma_step(first.y, first.height, i as nat, g);
        let start = Rect { y: first.y + Num::whole(i) * first.height, ..first };
        let at = lemma_tiles_stand_side_by_side(grad, container, start, radius, cols, g, j);
        before.len() as int + at
    }
}

/// An explicit background size is used as it is given: pixels as pixels, all of
/// the container as all of it, and the size of the image where none is given.
pub proof fn lemma_explicit_background_size(
    container: Rect,
    position: BackgroundPosition,
    width: Num,
    height: Num,
    w: Num,
    h: Num,
)
    requires
        w >= Num::nought() && h >= Num::nought(),
    ensures
        ({
            let size = BackgroundSize::Explicit { width: Some(w), height: Some(h) };
            let r = image_rect(container, size, position, width, height);
            r.width == w && r.height == h
        }),
        ({
            let size = BackgroundSize::Explicit { width: None, height: Some(h) };
            let r = image_rect(container, size, position, width, height);
            r.width == width && r.height == h
        }),
        ({
            let size = BackgroundSize::Explicit { width: Some(w), height: None };
            let r = image_rect(container, size, position, width, height);
            r.width == w && r.height == height
        }),
{
}

/// A negative size is a percentage: so many hundredths of the side of the
/// container that it is for.
pub proof fn lemma_negative_background_size_is_a_percentage(
    container: Num,
    intrinsic: Num,
    k: nat,
    g: nat,
)
    requires
        0 < k < 0x1000,
        container.on(g, 0x1000),
    ensures
        image_side(Some(Num::negated(Num::whole(100 * k as int))), container, intrinsic).ticks(g)
            == k * container.ticks(g),
{
    lemma_whole_on(100 * k);
    lemma_whole_on(k);
    let n: int = 0x1000;
    let p = Num::whole(100 * k as int);
    let v = Num::negated(p);
    grid::lemma_negated(p, 149, 100 * k as int);
    grid::lemma_negated(v, 149, 100 * k as int);
    grid::lemma_zero(149);
    grid::lemma_order(v, Num::nought(), 149, 100 * k as int, 0);
    assert(Num::negated(v) == p) by {
        reveal(Num::negated);
    }
    assert((100 * k) % 100 == 0);
    grid::lemma_part(100, p, 149, 100 * k as int);
    let q = p / Num::whole(100);
    assert(q.on(149, k as int)) by {
        reveal(Num::on);
    }
    let m = n * k;
    assert(0 <= m < 0x100_0000) by (nonlinear_arith)
        requires
            m == n * k,
            n == 0x1000,
            0 <= k < 0x1000,
    ;
    grid::lemma_finite(container, g, n);
    grid::lemma_product(container, q, g, n, 149, k as int, g);
    let c = container.ticks(g);
    assert(c * k == k * c) by (nonlinear_arith);
}

/// A size that is given on one side only keeps the proportions of the image:
/// the two sides are in the ratio of its own.
pub proof fn lemma_background_keeps_proportions(
    container: Rect,
    width: Num,
    height: Num,
    k: nat,
    side: Num,
    g: nat,
)
    requires
        !sizeless(width, height),
        width / height == Num::whole(k as int),
        0 < k < 0x100,
        side.on(g, 0x1000),
        side.ticks(g) % k as int == 0,
    ensures
        ({
            let size = BackgroundSize::Explicit { width: Some(side), height: None };
            let (w, h) = size.sized(container, width, height);
            w == side && k * h.ticks(g) == side.ticks(g)
        }),
        ({
            let size = BackgroundSize::Explicit { width: None, height: Some(side) };
            let (w, h) = size.sized(container, width, height);
            h == side && w.ticks(g) == k * side.ticks(g)
        }),
{
    let n: int = 0x1000;
    assert(0 <= k * n < 0x100_0000) by (nonlinear_arith)
        requires
            0 < k < 0x100,
            n == 0x1000,
    ;
    grid::lemma_part(k, side, g, n);
    grid::lemma_times(k, side, g, n);
}

/// Dashes are in proportion to the thickness of a side: a dot is as long as the
/// side is thick, a dash two or three times as long, and the nominal gap no
/// longer than the dash.
pub proof fn lemma_dashes_are_in_proportion(style: BorderStyle, thickness: Num, g: nat)
    requires
        thickness.on(g, 0x10_0000),
        thickness.ticks(g) > 0,
    ensures
        nominal_dash(BorderStyle::Solid, thickness) is None,
        nominal_dash(BorderStyle::Dotted, thickness) matches Some((d, s)) && d.ticks(g)
            == thickness.ticks(g) && s.ticks(g) == thickness.ticks(g),
        nominal_dash(BorderStyle::Dashed, thickness) matches Some((d, s)) && (thickness
            < Num::whole(3) ==> d.ticks(g) == 3 * thickness.ticks(g) && s.ticks(g) == 2
            * thickness.ticks(g)) && (thickness >= Num::whole(3) ==> d.ticks(g) == 2
            * thickness.ticks(g) && s.ticks(g) == thickness.ticks(g)),
{
    let n: int = 0x10_0000;
    grid::lemma_times(2, thickness, g, n);
    grid::lemma_times(3, thickness, g, n);
}

/// A dashed or dotted side starts and ends on a whole dash: so many dashes with
/// a gap between each two of them fill its length.
pub proof fn lemma_dashes_fill_their_side(
    style: BorderStyle,
    thickness: Num,
    length: Num,
    k: nat,
    g: nat,
)
    requires
        dash_pattern(style, thickness, length) matches Some((d, _)) && d.on(g, 0x1000),
        length.on(g, 0x20_0000),
        2 <= k < 0x100,
        nominal_dash(style, thickness) matches Some((d, s)) && Num::floored(
            (length + s) / (d + s),
        ) == Num::whole(k as int),
        ({
            let (dash, _) = dash_pattern(style, thickness, length)->0;
            let d = dash.ticks(g);
            &&& (length.ticks(g) - k * d) % (k - 1) == 0
            &&& (length.ticks(g) - (k + 1) * d) % k as int == 0
        }),
    ensures
        ({
            let (dash, gap) = dash_pattern(style, thickness, length)->0;
            let (d, s, l) = (dash.ticks(g), gap.ticks(g), length.ticks(g));
            k * d + (k - 1) * s == l || (k + 1) * d + k * s == l
        }),
{
    let (dash, gap) = dash_pattern(style, thickness, length)->0;
    lemma_whole_on(k);
    lemma_whole_on(1);
    grid::lemma_order(Num::whole(k as int), Num::whole(1), 149, k as int, 1);
    lemma_count_up(k);
    lemma_count_down(k);
    lemma_count_down(k + 1);
    lemma_filling_gap(length, dash, k, g);
    lemma_filling_gap(length, dash, k + 1, g);
}

proof fn lemma_filling_gap(length: Num, dash: Num, n: nat, g: nat)
    requires
        2 <= n <= 0x100,
        length.on(g, 0x20_0000),
        dash.on(g, 0x1000),
        (length.ticks(g) - n * dash.ticks(g)) % (n - 1) == 0,
        Num::whole(n as int) - Num::whole(1) == Num::whole(n - 1),
    ensures
        n * dash.ticks(g) + (n - 1) * gap_for(length, dash, Num::whole(n as int)).ticks(g)
            == length.ticks(g),
{
    let m: int = 0x1000;
    let t = n * m;
    assert(0 <= t <= 0x10_0000) by (nonlinear_arith)
        requires
            t == n * m,
            m == 0x1000,
            0 <= n <= 0x100,
    ;
    grid::lemma_times(n, dash, g, m);
    let all = Num::whole(n as int) * dash;
    grid::lemma_wider(all, g, t, 0x10_0000);
    grid::lemma_difference(length, all, g, 0x20_0000, 0x10_0000);
    grid::lemma_part((n - 1) as nat, length - all, g, 0x30_0000);
}

/// One more than a count.
proof fn lemma_count_up(n: nat)
    requires
        n < 0xff_ffff,
    ensures
        Num::whole(n as int) + Num::whole(1) == Num::whole(n as int + 1),
{
    let p = pow2(149) as int;
    lemma_pow2_pos(149);
    exact::lemma_whole(n as int);
    exact::lemma_whole(1);
    exact::lemma_whole(n as int + 1);
    assert(n * p + 1 * p == (n as int + 1) * p) by (nonlinear_arith);
    lemma_same_whole(Num::whole(n as int), Num::whole(1), n as int + 1);
}

/// One less than a count.
proof fn lemma_count_down(n: nat)
    requires
        2 <= n < 0x100_0000,
    ensures
        Num::whole(n as int) - Num::whole(1) == Num::whole(n - 1),
{
    let p = pow2(149) as int;
    lemma_pow2_pos(149);
    exact::lemma_whole(n as int);
    exact::lemma_whole(1);
    exact::lemma_whole(n - 1);
    let b = Num::whole(1);
    let m = Num::negated(b);
    assert(m.finite() && m.units() == -b.units()) by {
        reveal(Num::negated);
        reveal(Num::nan);
    }
    assert(n * p - 1 * p == (n - 1) * p) by (nonlinear_arith);
    lemma_same_whole(Num::whole(n as int), m, n - 1);
}

/// A sum that is a positive whole number is that number.
proof fn lemma_same_whole(a: Num, b: Num, n: int)
    requires
        a.finite() && b.finite(),
        0 < n < 0x100_0000,
        a.units() + b.units() == n * pow2(149),
    ensures
        a + b == Num::whole(n),
{
    let p = pow2(149) as int;
    lemma_pow2_pos(149);
    exact::lemma_whole(n);
    assert(n * p > 0) by (nonlinear_arith)
        requires
            n > 0,
            p > 0,
    ;
    exact::lemma_adds(a, b, Num::whole(n));
    reveal(Num::rank);
    reveal(Num::nan);
    crate::num::lemma_decode(0);
}

/// Every tile has the size of the image where it was placed, down to a pixel.
pub proof fn lemma_tiles_have_the_size_of_the_image(
    grad: GradientV,
    container: Rect,
    at: Rect,
    repeat: BackgroundRepeat,
    radius: BorderRadius,
    c: int,
)
    requires
        at.width >= Num::whole(1) && at.height >= Num::whole(1),
        0 <= c < tiles(grad, container, at, repeat, radius).len(),
    ensures
        tiles(grad, container, at, repeat, radius)[c] matches CommandV::Gradient {
            gradient,
            rect,
            border_radius,
        } && gradient == grad && border_radius == radius && rect.width == at.width && rect.height
            == at.height,
        repeat == BackgroundRepeat::NoRepeat ==> tiles(
            grad,
            container,
            at,
            repeat,
            radius,
        ).len() == 1 && (tiles(grad, container, at, repeat, radius)[0] matches CommandV::Gradient {
            rect,
            ..
        } && rect == at),
{
    let w = Num::larger(at.width, Num::whole(1));
    let h = Num::larger(at.height, Num::whole(1));
    assert(w == at.width && h == at.height);
    if !(repeat == BackgroundRepeat::NoRepeat || (w >= container.width && h >= container.height)) {
        let rx = repeat != BackgroundRepeat::RepeatY;
        let ry = repeat != BackgroundRepeat::RepeatX;
        let x = tile_start(rx, at.x, w, container.x, container.width);
        let y = tile_start(ry, at.y, h, container.y, container.height);
        let cols = tile_count(rx, x, w, container.x + container.width, container.width);
        let rows = tile_count(ry, y, h, container.y + container.height, container.height);
        lemma_rows_size(
            grad,
            container,
            Rect { x, y, width: w, height: h },
            radius,
            cols,
            rows,
            c,
        );
    }
}

proof fn lemma_rows_size(
    grad: GradientV,
    container: Rect,
    first: Rect,
    radius: BorderRadius,
    cols: int,
    k: int,
    c: int,
)
    requires
        0 <= c < tile_rows(grad, container, first, radius, cols, k).len(),
    ensures
        tile_rows(grad, container, first, radius, cols, k)[c] matches CommandV::Gradient {
            gradient,
            rect,
            border_radius,
        } && gradient == grad && border_radius == radius && rect.width == first.width
            && rect.height == first.height,
    decreases k,
{
    let before = tile_rows(grad, container, first, radius, cols, k - 1);
    if c < before.len() {
        lemma_rows_size(grad, container, first, radius, cols, k - 1, c);
    } else {
        let start = Rect { y: first.y + Num::whole(k - 1) * first.height, ..first };
        lemma_row_size(grad, container, start, radius, cols, c - before.len());
    }
}

proof fn lemma_row_size(
    grad: GradientV,
    container: Rect,
    first: Rect,
    radius: BorderRadius,
    k: int,
    c: int,
)
    requires
        0 <= c < tile_row(grad, container, first, radius, k).len(),
    ensures
        tile_row(grad, container, first, radius, k)[c] matches CommandV::Gradient {
            gradient,
            rect,
            border_radius,
        } && gradient == grad && border_radius == radius && rect.width == first.width
            && rect.height == first.height,
    decreases k,
{
    let before = tile_row(grad, container, first, radius, k - 1);
    if c < before.len() {
        lemma_row_size(grad, container, first, radius, k - 1, c);
    }
}

/// Tiles that fit a whole number of times reach from the first of them to the
/// end, and no further; no more than fifty of them are tried.
pub proof fn lemma_tiles_reach_the_end(first: Num, end: Num, extent: Num, k: nat)
    requires
        first.coord(149) && end.coord(149) && extent.coord(149),
        0 < k < extent.ticks(149),
        first.ticks(149) < end.ticks(149),
        (end.ticks(149) - first.ticks(149)) % k as int == 0,
    ensures
        ({
            let n = tile_count(true, first, Num::whole(k as int), end, extent);
            n == 50 && first.ticks(149) + n * k <= end.ticks(149) || first.ticks(149) + n * k
                == end.ticks(149)
        }),
{
    let u: int = 0x8_0000;
    let tile = Num::whole(k as int);
    assert(extent.ticks(149) <= u) by {
        reveal(Num::on);
    }
    lemma_whole_on(k);
    grid::lemma_order(tile, extent, 149, k as int, u);
    grid::lemma_difference(end, first, 149, u, u);
    grid::lemma_part(k, end - first, 149, 2 * u);
    let q = (end - first) / tile;
    let t = q.ticks(149);
    let all = end.ticks(149) - first.ticks(149);
    assert(t > 0) by (nonlinear_arith)
        requires
            k * t == all,
            all > 0,
            k > 0,
    ;
    lemma_whole_count(q, 2 * u);
    assert(k * t == t * k) by (nonlinear_arith);
    if t > 50 {
        assert(50 * k <= t * k) by (nonlinear_arith)
            requires
                t > 50,
                k > 0,
        ;
    }
}

/// A positive whole number is the whole number above it and truncates to
/// itself.
proof fn lemma_whole_count(q: Num, n: int)
    requires
        q.on(149, n),
        0 < q.ticks(149),
        n <= 0x10_0000,
    ensures
        Num::truncated(Num::ceiled(q)) == q.ticks(149),
{
    let p = pow2(149) as int;
    let t = q.ticks(149);
    lemma_pow2_pos(149);
    assert(q.units() == t * p && t <= n && q.finite()) by {
        reveal(Num::on);
    }
    assert(t * p > 0) by (nonlinear_arith)
        requires
            t > 0,
            p > 0,
    ;
    let u = rounding::units(q.mag()) as int;
    assert(!q.neg() && u == t * p);
    assert(t * p == p * t) by (nonlinear_arith);
    lemma_div_multiples_vanish(t, p);
    lemma_fundamental_div_mod(u, p);
    assert(q.int_part() == t && q.frac_part() == 0);
    exact::lemma_representable(t as nat, 149);
    let c = Num::ceiled(q);
    assert(c == Num::integer(false, t as nat)) by {
        reveal(Num::ceiled);
        reveal(Num::nan);
    }
    assert(rounding::units(c.mag()) == t * p);
    assert(c.int_part() == t);
    reveal(Num::truncated);
    reveal(Num::nan);
}

} // verus!

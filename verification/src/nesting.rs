//! What holds of every display list: clips, stacking contexts and transforms
//! are closed as often as they are opened, and never before they are.
use vstd::prelude::*;
use crate::borders::{self, Side};
use crate::boxes::BoxV;
use crate::controls;
use crate::decorate;
use crate::display::{BorderRadius, Clip, CommandV, DisplayCommand, GradientV};
use crate::display_list::{self, PaintS, RootStyle};
use crate::ellipsis::ScopeV;
use crate::geometry::{Dimensions, Rect};
use crate::num::Num;
use crate::order;
use crate::paint_text::{self, RunLine, Seating};
use crate::style::{BackgroundImage, BackgroundLayer, BoxShadow, ComputedStyle};
use crate::text::{LineV, Shaper};

verus! {

/// What commands open and close.
pub enum Level {
    Clip,
    Context,
    Transform,
}

/// Whether a command opens a level, closes one, or neither.
pub open spec fn step(c: CommandV, l: Level) -> int {
    match c {
        CommandV::Plain(d) => match (d, l) {
            (DisplayCommand::PushClip(_), Level::Clip) => 1,
            (DisplayCommand::PushClipRounded { .. }, Level::Clip) => 1,
            (DisplayCommand::PopClip, Level::Clip) => -1,
            (DisplayCommand::PushStackingContext { .. }, Level::Context) => 1,
            (DisplayCommand::PopStackingContext, Level::Context) => -1,
            (DisplayCommand::PushTransform { .. }, Level::Transform) => 1,
            (DisplayCommand::PopTransform, Level::Transform) => -1,
            _ => 0,
        },
        _ => 0,
    }
}

/// How many levels some commands leave open.
pub open spec fn level(s: Seq<CommandV>, l: Level) -> int
    decreases s.len(),
{
    if s.len() == 0 {
        0
    } else {
        level(s.drop_last(), l) + step(s.last(), l)
    }
}

/// Whether nothing is closed before it is opened, `spare` levels being open at
/// the start.
pub open spec fn never_below(s: Seq<CommandV>, l: Level, spare: int) -> bool {
    forall|k: int| 0 <= k <= s.len() ==> spare + level(#[trigger] s.take(k), l) >= 0
}

/// Whether commands close all they open, and nothing else.
pub open spec fn nested(s: Seq<CommandV>, l: Level) -> bool {
    level(s, l) == 0 && never_below(s, l, 0)
}

proof fn lemma_level_concat(a: Seq<CommandV>, b: Seq<CommandV>, l: Level)
    ensures
        level(a + b, l) == level(a, l) + level(b, l),
    decreases b.len(),
{
    if b.len() == 0 {
        assert(a + b =~= a);
    } else {
        lemma_level_concat(a, b.drop_last(), l);
        assert((a + b).drop_last() =~= a + b.drop_last());
    }
}

proof fn lemma_below_concat(a: Seq<CommandV>, b: Seq<CommandV>, l: Level, spare: int)
    requires
        never_below(a, l, spare),
        never_below(b, l, spare + level(a, l)),
    ensures
        never_below(a + b, l, spare),
        level(a + b, l) == level(a, l) + level(b, l),
{
    lemma_level_concat(a, b, l);
    let s = a + b;
    assert forall|k: int| 0 <= k <= s.len() implies spare + level(#[trigger] s.take(k), l)
        >= 0 by {
        if k <= a.len() {
            assert(s.take(k) =~= a.take(k));
        } else {
            assert(s.take(k) =~= a + b.take(k - a.len()));
            lemma_level_concat(a, b.take(k - a.len()), l);
        }
    }
}

proof fn lemma_below_more(s: Seq<CommandV>, l: Level, spare: int, more: int)
    requires
        never_below(s, l, spare),
        spare <= more,
    ensures
        never_below(s, l, more),
{
    assert forall|k: int| 0 <= k <= s.len() implies more + level(#[trigger] s.take(k), l)
        >= 0 by {
        assert(spare + level(s.take(k), l) >= 0);
    }
}

proof fn lemma_empty(l: Level)
    ensures
        nested(Seq::<CommandV>::empty(), l),
{
    assert forall|k: int| 0 <= k <= 0 implies 0 + level(
        #[trigger] Seq::<CommandV>::empty().take(k),
        l,
    ) >= 0 by {
        assert(Seq::<CommandV>::empty().take(k) =~= Seq::<CommandV>::empty());
    }
}

proof fn lemma_single(c: CommandV, l: Level, spare: int)
    requires
        spare >= 0,
        spare + step(c, l) >= 0,
    ensures
        never_below(seq![c], l, spare),
        level(seq![c], l) == step(c, l),
{
    let s = seq![c];
    assert(s.drop_last() =~= Seq::<CommandV>::empty());
    assert(level(s.drop_last(), l) == 0);
    assert forall|k: int| 0 <= k <= s.len() implies spare + level(#[trigger] s.take(k), l)
        >= 0 by {
        if k == 0 {
            assert(s.take(k) =~= Seq::<CommandV>::empty());
        } else {
            assert(s.take(k) =~= s);
        }
    }
}

proof fn lemma_plain(c: CommandV, l: Level)
    requires
        step(c, l) == 0,
    ensures
        nested(seq![c], l),
{
    lemma_single(c, l, 0);
}

proof fn lemma_nested_concat(a: Seq<CommandV>, b: Seq<CommandV>, l: Level)
    requires
        nested(a, l),
        nested(b, l),
    ensures
        nested(a + b, l),
{
    lemma_below_concat(a, b, l, 0);
}

proof fn lemma_wrapped(open: CommandV, s: Seq<CommandV>, close: CommandV, l: Level)
    requires
        nested(s, l),
        step(open, l) >= 0,
        step(open, l) + step(close, l) == 0,
    ensures
        nested(seq![open] + s + seq![close], l),
{
    let o = step(open, l);
    lemma_single(open, l, 0);
    lemma_below_more(s, l, 0, o);
    lemma_below_concat(seq![open], s, l, 0);
    lemma_single(close, l, o);
    lemma_below_concat(seq![open] + s, seq![close], l, 0);
}

proof fn lemma_shadows(s: Seq<BoxShadow>, k: int, rect: Rect, inset: bool, l: Level)
    ensures
        nested(decorate::shadows(s, k, rect, inset), l),
    decreases k,
{
    if k <= 0 {
        lemma_empty(l);
    } else {
        lemma_shadows(s, k - 1, rect, inset, l);
        let h = s[k - 1];
        if h.visible && h.inset == inset {
            let c = CommandV::Plain(
                DisplayCommand::BoxShadow {
                    offset_x: h.offset_x,
                    offset_y: h.offset_y,
                    blur_radius: h.blur_radius,
                    spread_radius: h.spread_radius,
                    color: h.color,
                    rect,
                    inset,
                },
            );
            lemma_plain(c, l);
            lemma_nested_concat(decorate::shadows(s, k - 1, rect, inset), seq![c], l);
        } else {
            lemma_empty(l);
            lemma_nested_concat(
                decorate::shadows(s, k - 1, rect, inset),
                Seq::<CommandV>::empty(),
                l,
            );
        }
    }
}

proof fn lemma_tile(g: GradientV, container: Rect, rect: Rect, radius: BorderRadius, l: Level)
    ensures
        nested(decorate::tile(g, container, rect, radius), l),
{
    lemma_empty(l);
    lemma_plain(CommandV::Gradient { gradient: g, rect, border_radius: radius }, l);
}

proof fn lemma_tile_row(
    g: GradientV,
    container: Rect,
    first: Rect,
    radius: BorderRadius,
    k: int,
    l: Level,
)
    ensures
        nested(decorate::tile_row(g, container, first, radius, k), l),
    decreases k,
{
    if k <= 0 {
        lemma_empty(l);
    } else {
        let rect = Rect { x: first.x + Num::whole(k - 1) * first.width, ..first };
        lemma_tile_row(g, container, first, radius, k - 1, l);
        lemma_tile(g, container, rect, radius, l);
        lemma_nested_concat(
            decorate::tile_row(g, container, first, radius, k - 1),
            decorate::tile(g, container, rect, radius),
            l,
        );
    }
}

proof fn lemma_tile_rows(
    g: GradientV,
    container: Rect,
    first: Rect,
    radius: BorderRadius,
    cols: int,
    k: int,
    l: Level,
)
    ensures
        nested(decorate::tile_rows(g, container, first, radius, cols, k), l),
    decreases k,
{
    if k <= 0 {
        lemma_empty(l);
    } else {
        let row = Rect { y: first.y + Num::whole(k - 1) * first.height, ..first };
        lemma_tile_rows(g, container, first, radius, cols, k - 1, l);
        lemma_tile_row(g, container, row, radius, cols, l);
        lemma_nested_concat(
            decorate::tile_rows(g, container, first, radius, cols, k - 1),
            decorate::tile_row(g, container, row, radius, cols),
            l,
        );
    }
}

proof fn lemma_layer(b: BackgroundLayer, container: Rect, radius: BorderRadius, l: Level)
    ensures
        nested(decorate::layer(b, container, radius), l),
{
    match b.image {
        BackgroundImage::Absent => {
            lemma_empty(l);
        },
        BackgroundImage::Gradient(g) => {
            let at = decorate::image_rect(
                container,
                b.size,
                b.position,
                container.width,
                container.height,
            );
            let painted = decorate::tiles(g@, container, at, b.repeat, radius);
            lemma_plain(
                CommandV::Gradient { gradient: g@, rect: at, border_radius: radius },
                l,
            );
            assert(nested(painted, l)) by {
                let w = Num::larger(at.width, Num::whole(1));
                let h = Num::larger(at.height, Num::whole(1));
                let rx = b.repeat != crate::style::BackgroundRepeat::RepeatY;
                let ry = b.repeat != crate::style::BackgroundRepeat::RepeatX;
                let x = decorate::tile_start(rx, at.x, w, container.x, container.width);
                let y = decorate::tile_start(ry, at.y, h, container.y, container.height);
                lemma_tile_rows(
                    g@,
                    container,
                    Rect { x, y, width: w, height: h },
                    radius,
                    decorate::tile_count(
                        rx,
                        x,
                        w,
                        container.x + container.width,
                        container.width,
                    ),
                    decorate::tile_count(
                        ry,
                        y,
                        h,
                        container.y + container.height,
                        container.height,
                    ),
                    l,
                );
            }
            if decorate::leaves(at, container) {
                lemma_wrapped(
                    (Clip { rect: container, radius }).push(),
                    painted,
                    crate::display::pop_clip(),
                    l,
                );
            }
        },
        BackgroundImage::Url(url) => {
            lemma_plain(decorate::layer(b, container, radius)[0], l);
        },
    }
}

proof fn lemma_layers(
    s: Seq<BackgroundLayer>,
    k: int,
    container: Rect,
    radius: BorderRadius,
    l: Level,
)
    ensures
        nested(decorate::layers(s, k, container, radius), l),
    decreases k,
{
    if k <= 0 {
        lemma_empty(l);
    } else {
        lemma_layers(s, k - 1, container, radius, l);
        lemma_layer(s[k - 1], container, radius, l);
        lemma_nested_concat(
            decorate::layers(s, k - 1, container, radius),
            decorate::layer(s[k - 1], container, radius),
            l,
        );
    }
}

proof fn lemma_images(b: BoxV, rect: Rect, radius: BorderRadius, l: Level)
    ensures
        nested(decorate::background_images(b, rect, radius), l),
{
    let s = b.own.style;
    lemma_empty(l);
    lemma_layers(
        s.background_layers@,
        s.background_layers@.len() as int,
        rect,
        radius,
        l,
    );
    match s.background_gradient {
        Some(g) => {
            lemma_plain(CommandV::Gradient { gradient: g@, rect, border_radius: radius }, l);
        },
        None => {},
    }
}

/// A background closes the clips it opens.
proof fn lemma_background(b: BoxV, root: Num, l: Level)
    ensures
        nested(decorate::background(b, root), l),
{
    let s = b.own.style;
    let radius = decorate::radii(b, root);
    let clipped = s.background_clip != crate::style::BackgroundClip::BorderBox;
    lemma_empty(l);
    match decorate::background_area(b) {
        None => {},
        Some(rect) => {
            let filter: Seq<CommandV> = if s.backdrop_filter is Absent {
                Seq::empty()
            } else {
                seq![
                    CommandV::Plain(
                        DisplayCommand::BackdropFilter {
                            rect,
                            border_radius: radius,
                            filter: s.backdrop_filter,
                        },
                    ),
                ]
            };
            let fill = decorate::background_fill(s.background_color, rect, radius, clipped);
            let images = decorate::background_images(b, rect, radius);
            if !(s.backdrop_filter is Absent) {
                lemma_plain(filter[0], l);
            }
            lemma_plain(
                CommandV::Plain(DisplayCommand::SolidColor(s.background_color, rect)),
                l,
            );
            lemma_plain(
                CommandV::Plain(
                    DisplayCommand::RoundedRect { color: s.background_color, rect, radius },
                ),
                l,
            );
            lemma_images(b, rect, radius, l);
            lemma_nested_concat(filter, fill, l);
            lemma_nested_concat(filter + fill, images, l);
            let inner = filter + fill + images;
            let push = CommandV::Plain(DisplayCommand::PushClip(rect));
            let pop = crate::display::pop_clip();
            let none = Seq::<CommandV>::empty();
            if clipped {
                lemma_wrapped(push, inner, pop, l);
                assert(decorate::background(b, root) =~= seq![push] + inner + seq![pop]);
            } else {
                assert(decorate::background(b, root) =~= inner);
            }
        },
    }
}

proof fn lemma_dashes(side: Side, dash: Num, gap: Num, offset: Num, l: Level)
    ensures
        nested(side.dashes(dash, gap, offset), l),
    decreases
            (if offset < side.length() - Num::ratio(1, 100) {
                (side.length() - Num::ratio(1, 100)).rank() - offset.rank()
            } else {
                0
            }),
{
    lemma_empty(l);
    if offset < side.length() - Num::ratio(1, 100) {
        let run = Num::smaller(dash, side.length() - offset);
        let next = offset + (dash + gap);
        let c = CommandV::Plain(
            DisplayCommand::SolidColor(side.color, side.piece(offset, run)),
        );
        lemma_plain(c, l);
        if offset < next {
            lemma_dashes(side, dash, gap, next, l);
            lemma_nested_concat(seq![c], side.dashes(dash, gap, next), l);
        } else {
            lemma_nested_concat(seq![c], Seq::<CommandV>::empty(), l);
        }
    }
}

proof fn lemma_side(side: Side, l: Level)
    ensures
        nested(side.commands(), l),
{
    lemma_empty(l);
    lemma_plain(CommandV::Plain(DisplayCommand::SolidColor(side.color, side.strip)), l);
    match borders::dash_pattern(side.style, side.thickness, side.length()) {
        Some((dash, gap)) => {
            lemma_dashes(side, dash, gap, Num::nought(), l);
        },
        None => {},
    }
}

proof fn lemma_borders(b: BoxV, root: Num, l: Level)
    ensures
        nested(borders::borders(b, root), l),
{
    if borders::is_ring(b, root) {
        lemma_plain(borders::borders(b, root)[0], l);
    } else {
        let t = borders::top_side(b);
        let r = borders::right_side(b);
        let m = borders::bottom_side(b);
        let f = borders::left_side(b);
        lemma_side(t, l);
        lemma_side(r, l);
        lemma_side(m, l);
        lemma_side(f, l);
        lemma_nested_concat(t.commands(), r.commands(), l);
        lemma_nested_concat(t.commands() + r.commands(), m.commands(), l);
        lemma_nested_concat(t.commands() + r.commands() + m.commands(), f.commands(), l);
    }
}

/// Commands none of which opens or closes anything.
proof fn lemma_flat(s: Seq<CommandV>, l: Level)
    requires
        forall|i: int| 0 <= i < s.len() ==> step(#[trigger] s[i], l) == 0,
    ensures
        nested(s, l),
    decreases s.len(),
{
    if s.len() == 0 {
        assert(s =~= Seq::<CommandV>::empty());
        lemma_empty(l);
    } else {
        let t = s.drop_last();
        assert forall|i: int| 0 <= i < t.len() implies step(#[trigger] t[i], l) == 0 by {
            assert(t[i] == s[i]);
        }
        lemma_flat(t, l);
        lemma_plain(s.last(), l);
        lemma_nested_concat(t, seq![s.last()], l);
        assert(t + seq![s.last()] =~= s);
    }
}

proof fn lemma_replaced(b: BoxV, root: Num, l: Level)
    ensures
        nested(controls::replaced(b, root), l),
{
    let s = controls::replaced(b, root);
    assert forall|i: int| 0 <= i < s.len() implies step(#[trigger] s[i], l) == 0 by {}
    lemma_flat(s, l);
}

proof fn lemma_line(
    sh: Shaper,
    style: ComputedStyle,
    seat: Seating,
    r: RunLine,
    scope: Option<ScopeV>,
    l: Level,
)
    ensures
        nested(paint_text::line_commands(sh, style, seat, r, scope).0, l),
{
    reveal(paint_text::line_commands);
    reveal(paint_text::decorations);
    let s = paint_text::line_commands(sh, style, seat, r, scope).0;
    assert forall|i: int| 0 <= i < s.len() implies step(#[trigger] s[i], l) == 0 by {}
    lemma_flat(s, l);
}

proof fn lemma_lines(
    sh: Shaper,
    style: ComputedStyle,
    d: Dimensions,
    seat: Seating,
    lines: Seq<LineV>,
    k: int,
    scope: Option<ScopeV>,
    l: Level,
)
    ensures
        nested(paint_text::lines_commands(sh, style, d, seat, lines, k, scope).0, l),
    decreases k,
{
    if k <= 0 {
        lemma_empty(l);
    } else {
        lemma_lines(sh, style, d, seat, lines, k - 1, scope, l);
        let (c, s) = paint_text::lines_commands(sh, style, d, seat, lines, k - 1, scope);
        let r = paint_text::wrapped_line(style, d, seat, lines[k - 1], k - 1);
        lemma_line(sh, style, seat, r, s, l);
        lemma_nested_concat(c, paint_text::line_commands(sh, style, seat, r, s).0, l);
    }
}

/// What a box itself paints closes all it opens.
pub proof fn lemma_content_is_nested(
    sh: Shaper,
    b: BoxV,
    root: Num,
    scope: Option<ScopeV>,
    l: Level,
)
    ensures
        nested(display_list::content_commands(sh, b, root, scope).0, l),
{
    reveal(display_list::content_commands);
    if b.is_text() {
        let style = b.own.style;
        let t = crate::text::transformed(b.own.box_type->Text_0@, style.text_transform);
        let seat = paint_text::seating(sh, style, t);
        match b.lines {
            Some(lines) => {
                lemma_lines(sh, style, b.dim, seat, lines, lines.len() as int, scope, l);
            },
            None => {
                lemma_line(sh, style, seat, paint_text::single_line(b.dim, seat, t), scope, l);
            },
        }
    } else {
        let s = b.own.style.box_shadows@;
        let rect = b.dim.border_box();
        let outer = decorate::box_shadows(b, false);
        let inner = decorate::box_shadows(b, true);
        let back = decorate::background(b, root);
        let edge = borders::borders(b, root);
        lemma_shadows(s, s.len() as int, rect, false, l);
        lemma_shadows(s, s.len() as int, rect, true, l);
        lemma_background(b, root, l);
        lemma_borders(b, root, l);
        lemma_replaced(b, root, l);
        lemma_nested_concat(outer, back, l);
        lemma_nested_concat(outer + back, inner, l);
        lemma_nested_concat(outer + back + inner, edge, l);
        lemma_nested_concat(outer + back + inner + edge, controls::replaced(b, root), l);
    }
}

/// Whether a state of painting is in order: nothing is closed before it is
/// opened, and the clips that can be escaped are open.
pub open spec fn in_order(st: PaintS) -> bool {
    &&& never_below(st.out, Level::Clip, 0)
    &&& never_below(st.out, Level::Context, 0)
    &&& never_below(st.out, Level::Transform, 0)
    &&& st.escapable.len() <= level(st.out, Level::Clip)
}

proof fn lemma_pops(n: nat, l: Level, spare: int)
    requires
        spare >= 0,
        l is Clip ==> n <= spare,
    ensures
        never_below(display_list::pops(n), l, spare),
        level(display_list::pops(n), l) == if l is Clip {
            -(n as int)
        } else {
            0
        },
    decreases n,
{
    let s = display_list::pops(n);
    if n == 0 {
        assert(s =~= Seq::<CommandV>::empty());
        lemma_empty(l);
        lemma_below_more(s, l, 0, spare);
    } else {
        let m = (n - 1) as nat;
        let t = display_list::pops(m);
        lemma_pops(m, l, spare);
        let c = crate::display::pop_clip();
        lemma_single(c, l, spare + level(t, l));
        lemma_below_concat(t, seq![c], l, spare);
        assert(t + seq![c] =~= s);
    }
}

proof fn lemma_pushes(clips: Seq<Clip>, l: Level)
    ensures
        never_below(display_list::pushes(clips), l, 0),
        level(display_list::pushes(clips), l) == if l is Clip {
            clips.len() as int
        } else {
            0
        },
    decreases clips.len(),
{
    let s = display_list::pushes(clips);
    if clips.len() == 0 {
        assert(s =~= Seq::<CommandV>::empty());
        lemma_empty(l);
    } else {
        let t = display_list::pushes(clips.drop_last());
        lemma_pushes(clips.drop_last(), l);
        let c = clips.last().push();
        lemma_single(c, l, level(t, l));
        lemma_below_concat(t, seq![c], l, 0);
        assert(t + seq![c] =~= s);
    }
}

/// Adds commands to a list that is in order at one level.
proof fn lemma_append(out: Seq<CommandV>, more: Seq<CommandV>, l: Level)
    requires
        never_below(out, l, 0),
        never_below(more, l, level(out, l)),
    ensures
        never_below(out + more, l, 0),
        level(out + more, l) == level(out, l) + level(more, l),
{
    lemma_below_concat(out, more, l, 0);
}

/// How a box changes one level when it starts.
spec fn opening(root: RootStyle, b: BoxV, at_root: bool, st: PaintS, l: Level) -> int {
    match l {
        Level::Clip => (if decorate::clip_of(
            b,
            root.font_size,
            at_root,
            root.overflow_visible,
        ) is Some {
            1int
        } else {
            0
        }) - (if b.own.position.is_out_of_flow() {
            st.escapable.len() as int
        } else {
            0
        }),
        Level::Context => if display_list::starts_context(b) {
            1
        } else {
            0
        },
        Level::Transform => if display_list::transform_command(b) is Some {
            1
        } else {
            0
        },
    }
}

/// One command where a condition holds.
spec fn one_if(condition: bool, c: CommandV) -> Seq<CommandV> {
    if condition {
        seq![c]
    } else {
        Seq::empty()
    }
}

/// Adds one command, where a condition holds, that closes no more than is open.
proof fn lemma_append_if(out: Seq<CommandV>, condition: bool, c: CommandV, l: Level)
    requires
        never_below(out, l, 0),
        condition ==> level(out, l) + step(c, l) >= 0,
    ensures
        never_below(out + one_if(condition, c), l, 0),
        level(out + one_if(condition, c), l) == level(out, l) + if condition {
            step(c, l)
        } else {
            0
        },
{
    assert(out.take(out.len() as int) =~= out);
    assert(level(out, l) >= 0);
    lemma_empty(l);
    lemma_below_more(Seq::<CommandV>::empty(), l, 0, level(out, l));
    if condition {
        lemma_single(c, l, level(out, l));
    }
    lemma_append(out, one_if(condition, c), l);
}

/// The commands a box adds when it starts, part by part.
proof fn lemma_opened_out(
    sh: Shaper,
    root: RootStyle,
    b: BoxV,
    at_root: bool,
    parent_z: i32,
    st: PaintS,
)
    ensures
        ({
            let escapes = b.own.position.is_out_of_flow();
            let p = if escapes {
                display_list::pops(st.escapable.len())
            } else {
                Seq::empty()
            };
            let t = display_list::transform_command(b);
            let k = decorate::clip_of(b, root.font_size, at_root, root.overflow_visible);
            display_list::opened(sh, root, b, at_root, parent_z, st).out == st.out + p + one_if(
                display_list::starts_context(b),
                context_push(b, parent_z),
            ) + one_if(t is Some, CommandV::Plain(t->0))
                + display_list::content_commands(sh, b, root.font_size, st.ellipsis).0 + one_if(
                k is Some,
                k->0.push(),
            )
        }),
{
    let none = Seq::<CommandV>::empty();
    assert forall|x: Seq<CommandV>| #[trigger] (x + none) == x by {
        assert(x + none =~= x);
    }
}

/// The command that starts the stacking context of a box.
spec fn context_push(b: BoxV, parent_z: i32) -> CommandV {
    CommandV::Plain(
        DisplayCommand::PushStackingContext {
            z_index: display_list::used_z(b, parent_z),
            rect: b.dim.border_box(),
        },
    )
}

proof fn lemma_opened_level(
    sh: Shaper,
    root: RootStyle,
    b: BoxV,
    at_root: bool,
    parent_z: i32,
    st: PaintS,
    l: Level,
)
    requires
        in_order(st),
    ensures
        ({
            let o = display_list::opened(sh, root, b, at_root, parent_z, st);
            never_below(o.out, l, 0) && level(o.out, l) == level(st.out, l) + opening(
                root,
                b,
                at_root,
                st,
                l,
            )
        }),
{
    let s0 = st.out;
    assert(s0.take(s0.len() as int) =~= s0);
    assert(level(s0, l) >= 0);
    lemma_empty(l);
    let p = if b.own.position.is_out_of_flow() {
        display_list::pops(st.escapable.len())
    } else {
        Seq::empty()
    };
    lemma_pops(st.escapable.len(), l, level(s0, l));
    lemma_below_more(Seq::<CommandV>::empty(), l, 0, level(s0, l));
    lemma_append(s0, p, l);
    let s1 = s0 + p;
    let ctx = context_push(b, parent_z);
    let starts = display_list::starts_context(b);
    assert(s1.take(s1.len() as int) =~= s1);
    assert(level(s1, l) >= 0);
    lemma_append_if(s1, starts, ctx, l);
    let s2 = s1 + one_if(starts, ctx);
    let t = display_list::transform_command(b);
    assert(level(s2, l) >= 0);
    lemma_append_if(s2, t is Some, CommandV::Plain(t->0), l);
    let s3 = s2 + one_if(t is Some, CommandV::Plain(t->0));
    let own = display_list::content_commands(sh, b, root.font_size, st.ellipsis).0;
    lemma_content_is_nested(sh, b, root.font_size, st.ellipsis, l);
    assert(level(s3, l) >= 0);
    lemma_below_more(own, l, 0, level(s3, l));
    lemma_append(s3, own, l);
    let s4 = s3 + own;
    let k = decorate::clip_of(b, root.font_size, at_root, root.overflow_visible);
    assert(level(s4, l) >= 0);
    lemma_append_if(s4, k is Some, k->0.push(), l);
    lemma_opened_out(sh, root, b, at_root, parent_z, st);
}

proof fn lemma_closed_level(
    sh: Shaper,
    root: RootStyle,
    b: BoxV,
    at_root: bool,
    before: PaintS,
    st: PaintS,
    l: Level,
)
    requires
        in_order(before),
        never_below(st.out, l, 0),
        level(st.out, l) == level(before.out, l) + opening(root, b, at_root, before, l),
    ensures
        ({
            let c = display_list::closed(sh, root, b, at_root, before, st);
            never_below(c.out, l, 0) && level(c.out, l) == level(before.out, l)
        }),
{
    lemma_empty(l);
    assert(before.out.take(before.out.len() as int) =~= before.out);
    assert(level(before.out, l) >= 0);
    let s0 = st.out;
    assert(s0.take(s0.len() as int) =~= s0);
    assert(level(s0, l) >= 0);
    let clip = decorate::clip_of(b, root.font_size, at_root, root.overflow_visible);
    let pop = crate::display::pop_clip();
    let a = if clip is Some {
        seq![pop]
    } else {
        Seq::empty()
    };
    lemma_below_more(Seq::<CommandV>::empty(), l, 0, level(s0, l));
    if clip is Some {
        lemma_single(pop, l, level(s0, l));
    }
    lemma_append(s0, a, l);
    let s1 = s0 + a;
    let pt = CommandV::Plain(DisplayCommand::PopTransform);
    let t = if display_list::transform_command(b) is Some {
        seq![pt]
    } else {
        Seq::empty()
    };
    assert(level(s1, l) >= 0);
    lemma_below_more(Seq::<CommandV>::empty(), l, 0, level(s1, l));
    if display_list::transform_command(b) is Some {
        lemma_single(pt, l, level(s1, l));
    }
    lemma_append(s1, t, l);
    let s2 = s1 + t;
    let pc = CommandV::Plain(DisplayCommand::PopStackingContext);
    let c = if display_list::starts_context(b) {
        seq![pc]
    } else {
        Seq::empty()
    };
    assert(level(s2, l) >= 0);
    lemma_below_more(Seq::<CommandV>::empty(), l, 0, level(s2, l));
    if display_list::starts_context(b) {
        lemma_single(pc, l, level(s2, l));
    }
    lemma_append(s2, c, l);
    let s3 = s2 + c;
    let p = if b.own.position.is_out_of_flow() {
        display_list::pushes(before.escapable)
    } else {
        Seq::empty()
    };
    assert(level(s3, l) >= 0);
    lemma_below_more(Seq::<CommandV>::empty(), l, 0, level(s3, l));
    lemma_pushes(before.escapable, l);
    lemma_below_more(display_list::pushes(before.escapable), l, 0, level(s3, l));
    lemma_append(s3, p, l);
    assert(display_list::closed(sh, root, b, at_root, before, st).out =~= s3 + p) by {
        assert(s0 + Seq::<CommandV>::empty() =~= s0);
        assert(s1 + Seq::<CommandV>::empty() =~= s1);
        assert(s2 + Seq::<CommandV>::empty() =~= s2);
        assert(s3 + Seq::<CommandV>::empty() =~= s3);
    }
}

/// Whether a state is in order and as open as another, with the same clips to
/// escape.
pub open spec fn level_with(st: PaintS, before: PaintS) -> bool {
    &&& in_order(st)
    &&& st.escapable == before.escapable
    &&& level(st.out, Level::Clip) == level(before.out, Level::Clip)
    &&& level(st.out, Level::Context) == level(before.out, Level::Context)
    &&& level(st.out, Level::Transform) == level(before.out, Level::Transform)
}

/// Painting a tree closes all it opens, and leaves the clips around it as they
/// were: an escaping box pushes again what it popped.
pub proof fn lemma_tree_is_level(
    sh: Shaper,
    root: RootStyle,
    b: BoxV,
    at_root: bool,
    parent_z: i32,
    st: PaintS,
)
    requires
        in_order(st),
    ensures
        level_with(display_list::stacked(sh, root, b, at_root, parent_z, st), st),
    decreases b, 0int,
{
    let o = display_list::opened(sh, root, b, at_root, parent_z, st);
    lemma_opened_level(sh, root, b, at_root, parent_z, st, Level::Clip);
    lemma_opened_level(sh, root, b, at_root, parent_z, st, Level::Context);
    lemma_opened_level(sh, root, b, at_root, parent_z, st, Level::Transform);
    assert(in_order(o)) by {
        assert(st.out.take(st.out.len() as int) =~= st.out);
        assert(o.out.take(o.out.len() as int) =~= o.out);
        assert(level(o.out, Level::Clip) >= 0);
    }
    let s = b.children;
    let ord = display_list::stack_order(s);
    let z = display_list::used_z(b, parent_z);
    lemma_children_are_level(sh, root, s, ord, s.len() as int, z, o);
    let k = display_list::stacked_children(sh, root, s, ord, s.len() as int, z, o);
    lemma_closed_level(sh, root, b, at_root, st, k, Level::Clip);
    lemma_closed_level(sh, root, b, at_root, st, k, Level::Context);
    lemma_closed_level(sh, root, b, at_root, st, k, Level::Transform);
    let c = display_list::closed(sh, root, b, at_root, st, k);
    assert(c.escapable =~= st.escapable);
}

proof fn lemma_children_are_level(
    sh: Shaper,
    root: RootStyle,
    s: Seq<BoxV>,
    ord: Seq<int>,
    k: int,
    z: i32,
    st: PaintS,
)
    requires
        in_order(st),
    ensures
        level_with(display_list::stacked_children(sh, root, s, ord, k, z, st), st),
    decreases s, k,
{
    if !(k <= 0 || k > ord.len() || !(0 <= ord[k - 1] < s.len())) {
        lemma_children_are_level(sh, root, s, ord, k - 1, z, st);
        lemma_tree_is_level(
            sh,
            root,
            s[ord[k - 1]],
            false,
            z,
            display_list::stacked_children(sh, root, s, ord, k - 1, z, st),
        );
    }
}

/// Every display list closes all it opens, and nothing before it is opened.
pub proof fn lemma_display_list_is_nested(sh: Shaper, b: BoxV, l: Level)
    ensures
        nested(display_list::painted(sh, b), l),
{
    lemma_empty(Level::Clip);
    lemma_empty(Level::Context);
    lemma_empty(Level::Transform);
    lemma_tree_is_level(sh, RootStyle::of(b), b, true, 0, PaintS::start());
}

/// Of two siblings, the one of the lower key paints first, and of two equal
/// keys the one that stands first: boxes below zero, then normal flow, then
/// floats and the other positioned ones.
pub proof fn lemma_siblings_paint_by_key(s: Seq<BoxV>, i: int, j: int)
    requires
        0 <= i < s.len(),
        0 <= j < s.len(),
        display_list::stack_key(s[i]) < display_list::stack_key(s[j]) || (
        display_list::stack_key(s[i]) == display_list::stack_key(s[j]) && i < j),
    ensures
        exists|p: int, q: int|
            0 <= p < q < s.len() && #[trigger] display_list::stack_order(s)[p] == i
                && #[trigger] display_list::stack_order(s)[q] == j,
{
    let keys = display_list::stack_keys(s);
    order::lemma_stable_order(keys);
    let o = display_list::stack_order(s);
    assert(o.contains(i) && o.contains(j));
    let p = choose|p: int| 0 <= p < o.len() && o[p] == i;
    let q = choose|q: int| 0 <= q < o.len() && o[q] == j;
    if q <= p {
        if q < p {
            assert(keys[o[q]] < keys[o[p]] || (keys[o[q]] == keys[o[p]] && o[q] < o[p]));
        }
    }
    assert(o[p] == i && o[q] == j);
}

} // verus!

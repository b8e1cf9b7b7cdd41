//! Display lists: whole trees as paint commands in stacking order.
//!
//! A box paints itself first, then its children inside its overflow clip:
//! positioned ones below zero, those in normal flow, then floats and the other
//! positioned ones. An absolutely positioned box is not clipped by boxes above
//! which its containing block lies: it pops their clips while it paints.
use vstd::prelude::*;
use crate::borders::{borders, render_borders};
use crate::boxes::{BoxType, BoxV, LayoutBox, Position};
use crate::controls::{render_replaced_content, replaced};
use crate::decorate::{
    background, box_shadows, clip_of, overflow_clip, render_background, render_box_shadows,
    render_inset_shadows,
};
use crate::display::{self, command_views, emit, Clip, CommandV, DisplayCommand, Matrix};
use crate::ellipsis::{EllipsisScope, ScopeV};
use crate::floats::Float;
use crate::geometry::{Point, Rect};
use crate::num::Num;
use crate::order;
use crate::paint_text::{render_text, scope_view, text_commands};
use crate::style::{Length, Overflow, StylePosition, TextOverflow, Transform};
use crate::text::Shaper;
use crate::tree;

verus! {

/// What painting reads of the root: its font size, and whether its overflow is
/// visible.
#[derive(Debug, Clone, Copy)]
pub struct RootStyle {
    pub font_size: Num,
    pub overflow_visible: bool,
}

impl RootStyle {
    /// The root style of a tree.
    pub open spec fn of(b: BoxV) -> RootStyle {
        let s = b.own.style;
        RootStyle {
            font_size: match s.font_size {
                Length::Px(px) => px,
                Length::Em(em) => em * Num::whole(16),
                Length::Rem(rem) => rem * Num::whole(16),
                _ => Num::whole(16),
            },
            overflow_visible: !s.clips(),
        }
    }

    fn of_box(root: &LayoutBox) -> (r: RootStyle)
        ensures
            r == RootStyle::of(root@),
    {
        RootStyle {
            font_size: match root.style.font_size {
                Length::Px(px) => px,
                Length::Em(em) => em * Num::of(16),
                Length::Rem(rem) => rem * Num::of(16),
                _ => Num::of(16),
            },
            overflow_visible: !root.style.is_clipping(),
        }
    }
}

/// The state of painting: the commands so far, the clips that a box with a
/// containing block above them escapes, and the ellipsis scope.
#[verifier::ext_equal]
pub struct PaintS {
    pub out: Seq<CommandV>,
    pub escapable: Seq<Clip>,
    pub ellipsis: Option<ScopeV>,
}

impl PaintS {
    /// The state before the root.
    pub open spec fn start() -> PaintS {
        PaintS { out: Seq::empty(), escapable: Seq::empty(), ellipsis: None }
    }

    /// The state with more commands.
    pub open spec fn with(self, more: Seq<CommandV>) -> PaintS {
        PaintS { out: self.out + more, ..self }
    }

    /// The state with one more command where a condition holds.
    pub open spec fn with_if(self, condition: bool, c: DisplayCommand) -> PaintS {
        if condition {
            self.with(seq![CommandV::Plain(c)])
        } else {
            self
        }
    }
}

impl Transform {
    /// The matrix for a border box of a size.
    pub open spec fn matrix(self, width: Num, height: Num) -> Matrix {
        Matrix {
            a: self.a,
            b: self.b,
            c: self.c,
            d: self.d,
            e: self.e + self.e_per_width * width + self.e_per_height * height,
            f: self.f + self.f_per_width * width + self.f_per_height * height,
        }
    }

    /// The matrix for a border box of a size.
    pub fn to_matrix(&self, width: Num, height: Num) -> (r: Matrix)
        ensures
            r == self.matrix(width, height),
    {
        Matrix {
            a: self.a,
            b: self.b,
            c: self.c,
            d: self.d,
            e: self.e + self.e_per_width * width + self.e_per_height * height,
            f: self.f + self.f_per_width * width + self.f_per_height * height,
        }
    }
}

/// The transform of a box as a command, where it has one.
pub open spec fn transform_command(b: BoxV) -> Option<DisplayCommand> {
    let s = b.own.style;
    let bb = b.dim.border_box();
    let base = Num::whole(16);
    match s.transform {
        Some(t) => Some(
            DisplayCommand::PushTransform {
                matrix: t.matrix(bb.width, bb.height),
                origin: Point {
                    x: bb.x + s.transform_origin_x.px(base, base, bb.width),
                    y: bb.y + s.transform_origin_y.px(base, base, bb.height),
                },
            },
        ),
        None => None,
    }
}

fn push_transform(out: &mut Vec<DisplayCommand>, layout_box: &LayoutBox)
    ensures
        command_views(final(out)@) == command_views(old(out)@) + match transform_command(
            layout_box@,
        ) {
            Some(c) => seq![CommandV::Plain(c)],
            None => Seq::empty(),
        },
{
    let s = &layout_box.style;
    match s.transform {
        Some(t) => {
            let bb = layout_box.dimensions.border_box();
            let base = Num::of(16);
            emit(
                out,
                DisplayCommand::PushTransform {
                    matrix: t.to_matrix(bb.width, bb.height),
                    origin: Point {
                        x: bb.x + s.transform_origin_x.to_px(base, base, bb.width),
                        y: bb.y + s.transform_origin_y.to_px(base, base, bb.height),
                    },
                },
            );
        },
        None => {
            proof {
                assert(command_views(out@) =~= command_views(old(out)@) + Seq::<CommandV>::empty());
            }
        },
    }
}

/// What a box itself paints, and the ellipsis scope after it. A text run is no
/// element: it paints glyphs only.
#[verifier::opaque]
pub open spec fn content_commands(
    sh: Shaper,
    b: BoxV,
    root: Num,
    scope: Option<ScopeV>,
) -> (Seq<CommandV>, Option<ScopeV>) {
    if b.is_text() {
        text_commands(sh, b, scope)
    } else {
        (
            box_shadows(b, false) + background(b, root) + box_shadows(b, true) + borders(b, root)
                + replaced(b, root),
            scope,
        )
    }
}

/// Render a layout box's own content (shadows, background, borders, text,
/// images).
fn render_box_content(
    out: &mut Vec<DisplayCommand>,
    shaper: &Shaper,
    layout_box: &LayoutBox,
    root: Num,
    scope: &mut Option<EllipsisScope>,
)
    ensures
        ({
            let (c, after) = content_commands(
                *shaper,
                layout_box@,
                root,
                scope_view(*old(scope)),
            );
            command_views(final(out)@) == command_views(old(out)@) + c && scope_view(
                *final(scope),
            ) == after
        }),
{
    proof {
        reveal(content_commands);
    }
    let text = match &layout_box.box_type {
        BoxType::Text(_) => true,
        _ => false,
    };
    if text {
        render_text(out, shaper, layout_box, scope);
        return;
    }
    render_box_shadows(out, layout_box);
    render_background(out, layout_box, root);
    render_inset_shadows(out, layout_box);
    render_borders(out, layout_box, root);
    render_replaced_content(out, layout_box, root);
    proof {
        let (c, _) = content_commands(*shaper, layout_box@, root, scope_view(*old(scope)));
        assert(command_views(out@) =~= command_views(old(out)@) + c);
    }
}

/// The ellipsis scope that a block container starts: one at its content edge
/// where it clips its overflow with an ellipsis, else none.
pub open spec fn block_scope(b: BoxV) -> Option<ScopeV> {
    let s = b.own.style;
    if s.clips() && s.text_overflow == TextOverflow::Ellipsis {
        Some(ScopeV { limit_x: b.dim.content.x + b.dim.content.width, lines: Seq::empty() })
    } else {
        None
    }
}

fn enter_ellipsis_scope(layout_box: &LayoutBox) -> (r: Option<EllipsisScope>)
    ensures
        scope_view(r) == block_scope(layout_box@),
{
    let s = &layout_box.style;
    if s.is_clipping() && s.text_overflow == TextOverflow::Ellipsis {
        let c = layout_box.dimensions.content;
        Some(EllipsisScope { limit_x: c.x + c.width, lines: Vec::new() })
    } else {
        None
    }
}

/// Where a child paints among its siblings: positioned ones below zero by
/// z-index, then normal flow, then floats and the other positioned ones by
/// z-index.
pub open spec fn stack_key(b: BoxV) -> int {
    if b.own.position != Position::Static {
        if b.own.z_index < 0 {
            b.own.z_index as int
        } else {
            0x4_0000_0000 + b.own.z_index
        }
    } else if b.own.float != Float::Unset {
        0x4_0000_0000 + b.own.z_index
    } else {
        0x2_0000_0000
    }
}

/// The keys of some boxes.
pub open spec fn stack_keys(s: Seq<BoxV>) -> Seq<int> {
    Seq::new(s.len(), |i: int| stack_key(s[i]))
}

/// The order in which siblings paint, as indices.
pub open spec fn stack_order(s: Seq<BoxV>) -> Seq<int> {
    order::stable_order(stack_keys(s))
}

fn stack_indices(children: &Vec<LayoutBox>) -> (r: Vec<usize>)
    ensures
        order::index_values(r@) == stack_order(crate::boxes::box_views(children@)),
        r@.len() == children@.len(),
        forall|a: int| 0 <= a < r@.len() ==> #[trigger] r@[a] < children@.len(),
{
    let mut keys: Vec<i64> = Vec::new();
    let mut i: usize = 0;
    while i < children.len()
        invariant
            i <= children.len(),
            keys@.len() == i,
            forall|j: int| 0 <= j < i ==> #[trigger] keys@[j] == stack_key(children@[j]@),
        decreases children.len() - i,
    {
        let child: &LayoutBox = &children[i];
        let key: i64 = if child.position != Position::Static {
            if child.z_index < 0 {
                child.z_index as i64
            } else {
                0x4_0000_0000i64 + child.z_index as i64
            }
        } else if child.float != Float::Unset {
            0x4_0000_0000i64 + child.z_index as i64
        } else {
            0x2_0000_0000i64
        };
        keys.push(key);
        i = i + 1;
    }
    proof {
        assert(order::key_values(keys@) =~= stack_keys(crate::boxes::box_views(children@)));
    }
    order::sort_indices(&keys)
}

/// Whether a box is the containing block of the absolutely positioned boxes
/// inside it, by its own position or the author's.
pub open spec fn is_positioned(b: BoxV) -> bool {
    b.own.position != Position::Static || b.own.style.position != StylePosition::Static
}

/// Whether a box starts a stacking context.
pub open spec fn starts_context(b: BoxV) -> bool {
    b.own.stacking_context matches Some(ctx) && ctx.creates_context
}

/// The z-index a box paints at: its own where it is positioned, else that of
/// its parent.
pub open spec fn used_z(b: BoxV, parent_z: i32) -> i32 {
    if b.own.position != Position::Static {
        b.own.z_index
    } else {
        parent_z
    }
}

/// Some pops.
pub open spec fn pops(n: nat) -> Seq<CommandV> {
    Seq::new(n, |i: int| display::pop_clip())
}

/// The commands that push some clips.
pub open spec fn pushes(clips: Seq<Clip>) -> Seq<CommandV> {
    Seq::new(clips.len(), |i: int| clips[i].push())
}

/// The state when a box starts: its own commands are painted and what it opens
/// for its children is open.
pub open spec fn opened(
    sh: Shaper,
    root: RootStyle,
    b: BoxV,
    at_root: bool,
    parent_z: i32,
    st: PaintS,
) -> PaintS {
    let escapes = b.own.position.is_out_of_flow();
    let s = if is_positioned(b) {
        PaintS { escapable: Seq::empty(), ..st }
    } else {
        st
    };
    let s = if escapes {
        s.with(pops(st.escapable.len()))
    } else {
        s
    };
    let s = s.with_if(
        starts_context(b),
        DisplayCommand::PushStackingContext {
            z_index: used_z(b, parent_z),
            rect: b.dim.border_box(),
        },
    );
    let s = match transform_command(b) {
        Some(c) => s.with(seq![CommandV::Plain(c)]),
        None => s,
    };
    let (own, after) = content_commands(sh, b, root.font_size, s.ellipsis);
    let s = PaintS { ellipsis: after, ..s.with(own) };
    let s = if b.own.box_type is Block {
        PaintS { ellipsis: block_scope(b), ..s }
    } else {
        s
    };
    match clip_of(b, root.font_size, at_root, root.overflow_visible) {
        Some(clip) => PaintS {
            escapable: if is_positioned(b) {
                s.escapable
            } else {
                s.escapable.push(clip)
            },
            ..s.with(seq![clip.push()])
        },
        None => s,
    }
}

/// The ellipsis scope of a box itself, to which a block container returns after
/// its subtree.
pub open spec fn own_scope(sh: Shaper, root: RootStyle, b: BoxV, st: PaintS) -> Option<ScopeV> {
    content_commands(sh, b, root.font_size, st.ellipsis).1
}

/// The state when a box ends: what it opened is closed.
pub open spec fn closed(
    sh: Shaper,
    root: RootStyle,
    b: BoxV,
    at_root: bool,
    before: PaintS,
    st: PaintS,
) -> PaintS {
    let clip = clip_of(b, root.font_size, at_root, root.overflow_visible);
    let s = st.with_if(clip is Some, DisplayCommand::PopClip);
    let s = if clip is Some && !is_positioned(b) && s.escapable.len() > 0 {
        PaintS { escapable: s.escapable.drop_last(), ..s }
    } else {
        s
    };
    let s = if b.own.box_type is Block {
        PaintS { ellipsis: own_scope(sh, root, b, before), ..s }
    } else {
        s
    };
    let s = s.with_if(transform_command(b) is Some, DisplayCommand::PopTransform);
    let s = s.with_if(starts_context(b), DisplayCommand::PopStackingContext);
    if is_positioned(b) {
        PaintS {
            escapable: before.escapable,
            ..if b.own.position.is_out_of_flow() {
                s.with(pushes(before.escapable))
            } else {
                s
            }
        }
    } else {
        s
    }
}

/// The state after a tree is painted.
pub open spec fn stacked(
    sh: Shaper,
    root: RootStyle,
    b: BoxV,
    at_root: bool,
    parent_z: i32,
    st: PaintS,
) -> PaintS
    decreases b, 0int,
{
    closed(
        sh,
        root,
        b,
        at_root,
        st,
        stacked_children(
            sh,
            root,
            b.children,
            stack_order(b.children),
            b.children.len() as int,
            used_z(b, parent_z),
            opened(sh, root, b, at_root, parent_z, st),
        ),
    )
}

/// The state after the first `k` trees in an order are painted.
pub open spec fn stacked_children(
    sh: Shaper,
    root: RootStyle,
    s: Seq<BoxV>,
    order: Seq<int>,
    k: int,
    z: i32,
    st: PaintS,
) -> PaintS
    decreases s, k,
{
    if k <= 0 || k > order.len() || !(0 <= order[k - 1] < s.len()) {
        st
    } else {
        stacked(
            sh,
            root,
            s[order[k - 1]],
            false,
            z,
            stacked_children(sh, root, s, order, k - 1, z, st),
        )
    }
}

/// The commands of a tree.
pub open spec fn painted(sh: Shaper, b: BoxV) -> Seq<CommandV> {
    stacked(sh, RootStyle::of(b), b, true, 0, PaintS::start()).out
}

/// A display list of paint commands.
#[derive(Debug, Clone)]
pub struct DisplayList {
    pub commands: Vec<DisplayCommand>,
}

impl View for DisplayList {
    type V = Seq<CommandV>;

    open spec fn view(&self) -> Seq<CommandV> {
        command_views(self.commands@)
    }
}

impl Default for DisplayList {
    fn default() -> (r: DisplayList)
        ensures
            r.commands@.len() == 0,
    {
        DisplayList::new()
    }
}

impl DisplayList {
    /// Create an empty display list.
    pub fn new() -> (r: DisplayList)
        ensures
            r.commands@.len() == 0,
    {
        DisplayList { commands: Vec::new() }
    }

    /// Build display list from a layout box with proper stacking order.
    pub fn build(shaper: &Shaper, root: &LayoutBox) -> (r: DisplayList)
        ensures
            r@ == painted(*shaper, root@),
    {
        let mut painter = Painter::for_root(root);
        painter.render_stacking_context(shaper, root, true, 0);
        DisplayList { commands: painter.commands }
    }

    /// Build display list from a layout box with scroll state applied: sticky
    /// boxes are brought to the scroll position first.
    pub fn build_with_scroll(
        shaper: &Shaper,
        root: &mut LayoutBox,
        scroll_x: Num,
        scroll_y: Num,
        viewport: Rect,
    ) -> (r: DisplayList)
        ensures
            final(root)@ == tree::stuck(old(root)@, scroll_y, viewport),
            r@ == painted(*shaper, final(root)@),
    {
        root.update_sticky_positions(scroll_x, scroll_y, viewport);
        DisplayList::build(shaper, root)
    }
}

/// A display list in progress.
struct Painter {
    commands: Vec<DisplayCommand>,
    /// What painting reads of the root.
    root: RootStyle,
    /// Overflow clips pushed by boxes that are not positioned since the
    /// nearest positioned ancestor, outermost first.
    escapable_clips: Vec<Clip>,
    /// The ellipsis scope of the nearest block container being painted.
    ellipsis: Option<EllipsisScope>,
}

impl Painter {
    spec fn state(self) -> PaintS {
        PaintS {
            out: command_views(self.commands@),
            escapable: self.escapable_clips@,
            ellipsis: scope_view(self.ellipsis),
        }
    }

    fn for_root(root: &LayoutBox) -> (r: Painter)
        ensures
            r.state() == PaintS::start(),
            r.root == RootStyle::of(root@),
    {
        let r = Painter {
            commands: Vec::new(),
            root: RootStyle::of_box(root),
            escapable_clips: Vec::new(),
            ellipsis: None,
        };
        proof {
            assert(r.state().out =~= Seq::<CommandV>::empty());
        }
        r
    }

    fn pop_clips(&mut self, n: usize)
        ensures
            final(self).state() == old(self).state().with(pops(n as nat)),
            final(self).root == old(self).root,
    {
        let mut i: usize = 0;
        proof {
            assert(self.state().out =~= old(self).state().out + pops(0));
        }
        while i < n
            invariant
                i <= n,
                self.root == old(self).root,
                self.state() == old(self).state().with(pops(i as nat)),
            decreases n - i,
        {
            emit(&mut self.commands, DisplayCommand::PopClip);
            i = i + 1;
            proof {
                assert(self.state().out =~= old(self).state().out + pops(i as nat));
            }
        }
    }

    fn push_clips(&mut self, clips: &Vec<Clip>)
        ensures
            final(self).state() == old(self).state().with(pushes(clips@)),
            final(self).root == old(self).root,
    {
        let mut i: usize = 0;
        proof {
            assert(self.state().out =~= old(self).state().out + pushes(clips@.take(0)));
        }
        while i < clips.len()
            invariant
                i <= clips.len(),
                self.root == old(self).root,
                self.state() == old(self).state().with(pushes(clips@.take(i as int))),
            decreases clips.len() - i,
        {
            emit(&mut self.commands, clips[i].pushed());
            i = i + 1;
            proof {
                assert(self.state().out =~= old(self).state().out + pushes(
                    clips@.take(i as int),
                ));
            }
        }
        proof {
            assert(clips@.take(i as int) =~= clips@);
        }
    }

    /// Paints what a box opens with; gives back the clips and the ellipsis scope
    /// to return to.
    fn open_box(
        &mut self,
        shaper: &Shaper,
        layout_box: &LayoutBox,
        at_root: bool,
        parent_z: i32,
    ) -> (r: (Vec<Clip>, Option<EllipsisScope>))
        ensures
            final(self).state() == opened(
                *shaper,
                old(self).root,
                layout_box@,
                at_root,
                parent_z,
                old(self).state(),
            ),
            final(self).root == old(self).root,
            is_positioned(layout_box@) ==> r.0@ == old(self).state().escapable,
            layout_box@.own.box_type is Block ==> scope_view(r.1) == own_scope(
                *shaper,
                old(self).root,
                layout_box@,
                old(self).state(),
            ),
    {
        let z: i32 = if layout_box.position != Position::Static {
            layout_box.z_index
        } else {
            parent_z
        };
        let positioned = layout_box.position != Position::Static || layout_box.style.position
            != StylePosition::Static;
        let mut outer: Vec<Clip> = Vec::new();
        if positioned {
            std::mem::swap(&mut outer, &mut self.escapable_clips);
            if layout_box.position.is_out_of_flow() {
                self.pop_clips(outer.len());
            }
        }
        let context = match &layout_box.stacking_context {
            Some(ctx) => ctx.creates_context,
            None => false,
        };
        if context {
            emit(
                &mut self.commands,
                DisplayCommand::PushStackingContext {
                    z_index: z,
                    rect: layout_box.dimensions.border_box(),
                },
            );
        }
        push_transform(&mut self.commands, layout_box);
        let root = self.root;
        render_box_content(
            &mut self.commands,
            shaper,
            layout_box,
            root.font_size,
            &mut self.ellipsis,
        );
        let block = match &layout_box.box_type {
            BoxType::Block => true,
            _ => false,
        };
        let mut outer_ellipsis: Option<EllipsisScope> = None;
        if block {
            outer_ellipsis = enter_ellipsis_scope(layout_box);
            std::mem::swap(&mut outer_ellipsis, &mut self.ellipsis);
        }
        match overflow_clip(layout_box, root.font_size, at_root, root.overflow_visible) {
            Some(c) => {
                emit(&mut self.commands, c.pushed());
                if !positioned {
                    self.escapable_clips.push(c);
                }
            },
            None => {},
        }
        proof {
            assert(self.state() =~= opened(
                *shaper,
                old(self).root,
                layout_box@,
                at_root,
                parent_z,
                old(self).state(),
            ));
        }
        (outer, outer_ellipsis)
    }

    /// Closes what a box opened.
    fn close_box(
        &mut self,
        shaper: &Shaper,
        layout_box: &LayoutBox,
        at_root: bool,
        outer: Vec<Clip>,
        outer_ellipsis: Option<EllipsisScope>,
        Ghost(before): Ghost<PaintS>,
    )
        requires
            is_positioned(layout_box@) ==> outer@ == before.escapable,
            layout_box@.own.box_type is Block ==> scope_view(outer_ellipsis) == own_scope(
                *shaper,
                old(self).root,
                layout_box@,
                before,
            ),
        ensures
            final(self).state() == closed(
                *shaper,
                old(self).root,
                layout_box@,
                at_root,
                before,
                old(self).state(),
            ),
            final(self).root == old(self).root,
    {
        let positioned = layout_box.position != Position::Static || layout_box.style.position
            != StylePosition::Static;
        let root = self.root;
        if overflow_clip(
            layout_box,
            root.font_size,
            at_root,
            root.overflow_visible,
        ).is_some() {
            emit(&mut self.commands, DisplayCommand::PopClip);
            if !positioned {
                let _ = self.escapable_clips.pop();
            }
        }
        let block = match &layout_box.box_type {
            BoxType::Block => true,
            _ => false,
        };
        if block {
            self.ellipsis = outer_ellipsis;
        }
        if layout_box.style.transform.is_some() {
            emit(&mut self.commands, DisplayCommand::PopTransform);
        }
        let context = match &layout_box.stacking_context {
            Some(ctx) => ctx.creates_context,
            None => false,
        };
        if context {
            emit(&mut self.commands, DisplayCommand::PopStackingContext);
        }
        if positioned {
            if layout_box.position.is_out_of_flow() {
                self.push_clips(&outer);
            }
            self.escapable_clips = outer;
        }
        proof {
            assert(self.state() =~= closed(
                *shaper,
                old(self).root,
                layout_box@,
                at_root,
                before,
                old(self).state(),
            ));
        }
    }

    /// Render a stacking context with proper z-ordering.
    fn render_stacking_context(
        &mut self,
        shaper: &Shaper,
        layout_box: &LayoutBox,
        at_root: bool,
        parent_z: i32,
    )
        ensures
            final(self).state() == stacked(
                *shaper,
                old(self).root,
                layout_box@,
                at_root,
                parent_z,
                old(self).state(),
            ),
            final(self).root == old(self).root,
        decreases layout_box, 1int,
    {
        let ghost before = self.state();
        let (outer, outer_ellipsis) = self.open_box(shaper, layout_box, at_root, parent_z);
        let z: i32 = if layout_box.position != Position::Static {
            layout_box.z_index
        } else {
            parent_z
        };
        self.render_children(shaper, &layout_box.children, z);
        self.close_box(shaper, layout_box, at_root, outer, outer_ellipsis, Ghost(before));
    }

    fn render_children(&mut self, shaper: &Shaper, children: &Vec<LayoutBox>, z: i32)
        ensures
            final(self).state() == ({
                let s = crate::boxes::box_views(children@);
                stacked_children(
                    *shaper,
                    old(self).root,
                    s,
                    stack_order(s),
                    s.len() as int,
                    z,
                    old(self).state(),
                )
            }),
            final(self).root == old(self).root,
        decreases children, 0int,
    {
        let order = stack_indices(children);
        let ghost s = crate::boxes::box_views(children@);
        let mut k: usize = 0;
        while k < order.len()
            invariant
                k <= order.len(),
                self.root == old(self).root,
                s == crate::boxes::box_views(children@),
                order@.len() == children@.len(),
                order::index_values(order@) == stack_order(s),
                forall|a: int| 0 <= a < order@.len() ==> #[trigger] order@[a] < children@.len(),
                self.state() == stacked_children(
                    *shaper,
                    old(self).root,
                    s,
                    stack_order(s),
                    k as int,
                    z,
                    old(self).state(),
                ),
            decreases order.len() - k,
        {
            let at: usize = order[k];
            proof {
                assert(order::index_values(order@)[k as int] == at);
                crate::boxes::lemma_view_at(children@, at as int);
            }
            let child: &LayoutBox = &children[at];
            self.render_stacking_context(shaper, child, false, z);
            k = k + 1;
        }
    }
}

} // verus!

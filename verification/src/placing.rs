//! Laying out a box by kind, without margin collapsing.
use vstd::prelude::*;
use crate::block::offset;
use crate::boxes::{box_views, BoxType, BoxV, LayoutBox};
use crate::floats::FloatContext;
use crate::geometry::Dimensions;
use crate::layout::{
    base_of, block_laid, inline_block, inline_edges, inline_from, inline_laid, kind_laid, laid,
    percent_base, resolve_inline_size,
};
use crate::leaf::resolve_plain_edges;
use crate::margin_collapse::MarginCollapseContext;
use crate::num::Num;
use crate::text::Shaper;
use crate::tree;

verus! {

/// Offsets keep the shape of the tree.
pub(crate) proof fn lemma_offset_fits(b: BoxV, cb: Dimensions, n: nat)
    requires
        b.fits(n),
    ensures
        offset(b, cb).fits(n),
{
    reveal(offset);
    let o = crate::block::offset_own(b, cb);
    assert(o.children == b.children);
    assert(o.fits(n));
    crate::block::lemma_carried_fits(o, b.dim.content.x, b.dim.content.y, n);
}

/// Lays out the children of an inline box side by side.
pub(crate) fn inline_all(
    v: &mut Vec<LayoutBox>,
    shaper: &Shaper,
    d: &Dimensions,
    width: Num,
    Ghost(m): Ghost<nat>,
) -> (r: Num)
    requires
        forall|j: int| 0 <= j < old(v)@.len() ==> (#[trigger] box_views(old(v)@)[j]).fits(m),
    ensures
        (box_views(final(v)@), r) == inline_from(
            *shaper,
            *d,
            box_views(old(v)@),
            Num::nought(),
            width,
            0,
            old(v)@.len() as int,
            m,
        ),
        forall|j: int| 0 <= j < final(v)@.len() ==> (#[trigger] box_views(final(v)@)[j]).fits(m),
    decreases m, 4int,
{
    let n: usize = v.len();
    let mut cursor = Num::zero();
    let mut i: usize = 0;
    while i < n
        invariant
            i <= n,
            n == v@.len(),
            n == old(v)@.len(),
            forall|j: int| 0 <= j < v@.len() ==> (#[trigger] box_views(v@)[j]).fits(m),
            inline_from(
                *shaper,
                *d,
                box_views(old(v)@),
                Num::nought(),
                width,
                0,
                n as int,
                m,
            ) == inline_from(
                *shaper,
                *d,
                box_views(v@),
                cursor,
                width,
                i as int,
                n as int,
                m,
            ),
        decreases n - i,
    {
        let ghost before = v@;
        let ghost at = cursor;
        proof {
            crate::boxes::lemma_view_at(before, i as int);
            assert(box_views(before)[i as int].fits(m));
        }
        let mut inner = *d;
        inner.content.x = d.content.x + cursor;
        inner.content.width = width;
        inner.content.height = Num::zero();
        v[i].lay(shaper, &inner, base_of(None, &inner), Ghost(m));
        cursor = cursor + v[i].dimensions.margin_box().width;
        proof {
            let after = v@;
            assert(after =~= before.update(i as int, after[i as int]));
            crate::boxes::lemma_views_update(before, i as int, after[i as int]);
            assert forall|j: int| 0 <= j < after.len() implies (#[trigger] box_views(
                after,
            )[j]).fits(m) by {
                assert(box_views(before)[j].fits(m));
            }
            lemma_inline_from_step(
                *shaper,
                *d,
                box_views(before),
                at,
                width,
                i as int,
                n as int,
                m,
            );
        }
        i = i + 1;
    }
    proof {
        reveal(inline_from);
    }
    cursor
}

pub(crate) proof fn lemma_inline_from_step(
    sh: Shaper,
    d: Dimensions,
    kids: Seq<BoxV>,
    cursor: Num,
    width: Num,
    i: int,
    total: int,
    m: nat,
)
    requires
        i < total,
    ensures
        ({
            let cb = inline_block(d, cursor, width);
            let k = laid(sh, kids[i], cb, percent_base(None, cb), m);
            inline_from(sh, d, kids, cursor, width, i, total, m) == inline_from(
                sh,
                d,
                kids.update(i, k),
                cursor + k.dim.margin_box().width,
                width,
                i + 1,
                total,
                m,
            )
        }),
{
    reveal(inline_from);
    reveal(laid);
}

impl LayoutBox {
    pub(crate) fn layout_block_with_definite_height(
        &mut self,
        shaper: &Shaper,
        cb: &Dimensions,
        def: Option<Num>,
        Ghost(m): Ghost<nat>,
    )
        requires
            old(self)@.fits(m + 1),
        ensures
            final(self)@ == block_laid(*shaper, old(self)@, *cb, def, m),
            final(self)@.fits(m + 1),
            final(self)@.own == old(self)@.own,
            final(self)@.viewport == old(self)@.viewport,
        decreases m, 6int,
    {
        proof {
            reveal(block_laid);
        }
        self.calculate_block_width(cb);
        self.calculate_block_position(cb);
        let base = match def {
            Some(h) => h,
            None => Num::zero(),
        };
        let for_children = self.definite_content_height_for_children(base);
        let mut margin = MarginCollapseContext::new();
        let mut floats = FloatContext::new();
        proof {
            tree::lemma_same_children_fit(old(self)@, self@, m + 1);
        }
        self.flow_children(shaper, &mut margin, &mut floats, for_children, false, Ghost(m));
        self.calculate_block_height(def);
    }

    pub(crate) fn layout_inline(&mut self, shaper: &Shaper, cb: &Dimensions, Ghost(m): Ghost<nat>)
        requires
            old(self)@.fits(m + 1),
        ensures
            final(self)@ == inline_laid(*shaper, old(self)@, *cb, m),
            final(self)@.fits(m + 1),
            final(self)@.own == old(self)@.own,
            final(self)@.viewport == old(self)@.viewport,
        decreases m, 6int,
    {
        proof {
            reveal(inline_laid);
            reveal(inline_from);
            reveal(inline_edges);
        }
        let (margin, border, padding) = resolve_plain_edges(&self.style, cb.content.width);
        self.dimensions.margin = margin;
        self.dimensions.margin.top = Num::zero();
        self.dimensions.margin.bottom = Num::zero();
        self.dimensions.border = border;
        self.dimensions.padding = padding;
        self.dimensions.content.x = cb.content.x + margin.left + border.left + padding.left;
        self.dimensions.content.y = cb.content.y + cb.content.height;
        let d = self.dimensions;
        proof {
            assert forall|j: int| 0 <= j < self.children@.len() implies (#[trigger] box_views(
                self.children@,
            )[j]).fits(m) by {
                assert(old(self)@.children[j].fits(m));
            }
        }
        let cursor = inline_all(&mut self.children, shaper, &d, cb.content.width, Ghost(m));
        let size = self.style.font_size_px();
        let width = match resolve_inline_size(self.style.width, cb.content.width, true, size) {
            Some(w) => w,
            None => if cursor > Num::zero() {
                cursor
            } else {
                padding.horizontal() + border.horizontal()
            },
        };
        let usable = cb.content.height > Num::zero();
        let height = match resolve_inline_size(
            self.style.height,
            cb.content.height,
            usable,
            size,
        ) {
            Some(h) => h,
            None => self.inline_content_area(shaper).0.max(
                padding.vertical() + border.vertical(),
            ),
        };
        self.dimensions.content.width = width;
        self.dimensions.content.height = height;
        proof {
            tree::lemma_children_fit(self@, m);
        }
    }

    pub(crate) fn lay_kind(
        &mut self,
        shaper: &Shaper,
        cb: &Dimensions,
        def: Option<Num>,
        Ghost(m): Ghost<nat>,
    )
        requires
            old(self)@.fits(m + 1),
        ensures
            final(self)@ == kind_laid(*shaper, old(self)@, *cb, def, m),
            final(self)@.fits(m + 1),
            final(self)@.own == old(self)@.own,
            final(self)@.viewport == old(self)@.viewport,
        decreases m, 7int,
    {
        proof {
            reveal(kind_laid);
            reveal(block_laid);
            reveal(inline_laid);
        }
        let kind: u8 = match &self.box_type {
            BoxType::Block => 0,
            BoxType::AnonymousBlock => 0,
            BoxType::Inline => 1,
            BoxType::Text(_) => 2,
            BoxType::Image { .. } => 3,
            BoxType::FormControl(_) => 4,
            BoxType::LineBreak => 5,
        };
        let natural = match &self.box_type {
            BoxType::Image { natural_width, natural_height, .. } => (
                *natural_width,
                *natural_height,
            ),
            _ => (Num::zero(), Num::zero()),
        };
        proof {
            crate::leaf::lemma_leaf_keeps_tree(
                *shaper,
                self@,
                *cb,
                false,
                natural.0,
                natural.1,
            );
        }
        if kind == 0 {
            self.layout_block_with_definite_height(shaper, cb, def, Ghost(m));
        } else if kind == 1 {
            self.layout_inline(shaper, cb, Ghost(m));
        } else if kind == 2 {
            self.layout_text_with_zero_wrap(shaper, cb, false);
        } else if kind == 3 {
            self.layout_image(natural.0, natural.1, cb);
        } else if kind == 4 {
            self.layout_form_control(shaper, cb);
        } else {
            self.layout_break(cb.content.x, cb.content.y + cb.content.height);
        }
    }

    pub(crate) fn lay(&mut self, shaper: &Shaper, cb: &Dimensions, def: Option<Num>, Ghost(n): Ghost<nat>)
        requires
            old(self)@.fits(n),
        ensures
            final(self)@ == laid(*shaper, old(self)@, *cb, def, n),
            final(self)@.fits(n),
            final(self)@.own == old(self)@.own,
        decreases n, 0int,
    {
        let ghost m = (n - 1) as nat;
        proof {
            reveal(laid);
            reveal(kind_laid);
        }
        self.lay_kind(shaper, cb, def, Ghost(m));
        proof {
            lemma_offset_fits(self@, *cb, n);
        }
        self.apply_position_offsets(cb);
        self.reanchor_absolute_children(Ghost(m));
    }
}

} // verus!

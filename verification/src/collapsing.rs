//! Laying out a box with margin collapsing, columns and floats.
use vstd::prelude::*;
use crate::block::{placed, with_vertical, with_widths};
use crate::boxes::{box_views, BoxType, LayoutBox};
use crate::floats::{Clear, Float, FloatContext};
use crate::geometry::Dimensions;
use crate::layout::{
    after_clear, base_of, block_laid_collapsing, child_margins, columns_flowed, first_in_flow,
    float_laid, laid_collapsing, top_chain, top_margins,
};
use crate::margin_collapse::{
    establishes_bfc, should_collapse_with_first_child, should_collapse_with_last_child,
    MarginCollapseContext,
};
use crate::multicol::{self, column_geometry};
use crate::num::Num;
use crate::placing::lemma_offset_fits;
use crate::text::Shaper;
use crate::tree;
use crate::unfolding;

verus! {

pub(crate) fn first_in_flow_child(v: &Vec<LayoutBox>) -> (r: Option<usize>)
    ensures
        match first_in_flow(box_views(v@), 0) {
            Some(i) => r is Some && r->0 == i && 0 <= i < v@.len(),
            None => r is None,
        },
{
    let mut i: usize = 0;
    while i < v.len()
        invariant
            i <= v.len(),
            first_in_flow(box_views(v@), 0) == first_in_flow(box_views(v@), i as int),
        decreases v.len() - i,
    {
        proof {
            crate::boxes::lemma_view_at(v@, i as int);
        }
        if !v[i].position.is_out_of_flow() && v[i].float == Float::Unset {
            return Some(i);
        }
        i = i + 1;
    }
    None
}

pub(crate) fn push_top_chain(
    b: &LayoutBox,
    width: Num,
    floats: &FloatContext,
    out: &mut Vec<Num>,
)
    ensures
        final(out)@ == old(out)@ + top_chain(b@, width, floats@),
    decreases b,
{
    proof {
        reveal(top_chain);
    }
    let border = b.length_to_px(&b.style.border_top_width, width);
    let padding = b.length_to_px(&b.style.padding_top, width);
    if !should_collapse_with_first_child(&b.style, b.float, border, padding) {
        return;
    }
    match first_in_flow_child(&b.children) {
        Some(i) => {
            proof {
                crate::boxes::lemma_view_at(b.children@, i as int);
            }
            let c: &LayoutBox = &b.children[i];
            let block = match &c.box_type {
                BoxType::Block => true,
                BoxType::AnonymousBlock => true,
                _ => false,
            };
            if !block || c.style.display.is_atomic_inline() || (c.clear != Clear::Unset
                && floats.below_cleared(c.clear) > Num::zero()) {
                return;
            }
            out.push(c.length_to_px(&c.style.margin_top, width));
            if !establishes_bfc(&c.style, c.float) {
                push_top_chain(c, width, floats, out);
            }
            proof {
                assert(out@ =~= old(out)@ + top_chain(b@, width, floats@));
            }
        },
        None => {},
    }
}

pub(crate) fn add_all(margin: &mut MarginCollapseContext, chain: &Vec<Num>)
    ensures
        *final(margin) == old(margin).with_all(chain@),
{
    let mut i: usize = 0;
    while i < chain.len()
        invariant
            i <= chain.len(),
            *margin == old(margin).with_all(chain@.take(i as int)),
        decreases chain.len() - i,
    {
        proof {
            assert(chain@.take(i + 1).drop_last() =~= chain@.take(i as int));
        }
        margin.add_margin(chain[i]);
        i = i + 1;
    }
    proof {
        assert(chain@.take(i as int) =~= chain@);
    }
}

impl LayoutBox {
    /// The top margins that collapse through this box's top edge, beside the
    /// floats so far.
    pub fn first_child_top_margin_chain(&self, floats: &FloatContext) -> (r: Vec<Num>)
        ensures
            r@ == top_chain(self@, self@.dim.content.width, floats@),
    {
        let mut out: Vec<Num> = Vec::new();
        push_top_chain(self, self.dimensions.content.width, floats, &mut out);
        proof {
            assert(out@ =~= top_chain(self@, self@.dim.content.width, floats@));
        }
        out
    }

    pub(crate) fn lay_columns(
        &mut self,
        shaper: &Shaper,
        margin: &mut MarginCollapseContext,
        floats: &mut FloatContext,
        def: Option<Num>,
        Ghost(m): Ghost<nat>,
    )
        requires
            old(self)@.fits(m + 1),
        ensures
            (final(self)@, *final(margin), final(floats)@) == columns_flowed(
                *shaper,
                old(self)@,
                *old(margin),
                old(floats)@,
                def,
                m,
            ),
            final(self)@.fits(m + 1),
            final(self)@.own == old(self)@.own,
            final(self)@.viewport == old(self)@.viewport,
        decreases m, 6int,
    {
        proof {
            unfolding::lemma_columns_flowed(*shaper, self@, *margin, floats@, def, m);
        }
        let width = self.dimensions.content.width;
        let cols = column_geometry(&self.style, width);
        match cols {
            Some(g) => {
                if !self.style.display.is_flex() && !self.style.display.is_grid() {
                    self.dimensions.content.width = g.width;
                    proof {
                        tree::lemma_same_children_fit(old(self)@, self@, m + 1);
                    }
                    self.flow_children(shaper, margin, floats, def, true, Ghost(m));
                    let ghost laid = self@;
                    self.dimensions.content.width = width;
                    let n: usize = self.children.len();
                    proof {
                        assert(self@.children.len() == n);
                        tree::lemma_same_children_fit(laid, self@, m + 1);
                        multicol::lemma_balanced_fits(self@, g, m + 1);
                    }
                    multicol::balance_columns(self, &g);
                    return;
                }
            },
            None => {},
        }
        self.flow_children(shaper, margin, floats, def, true, Ghost(m));
    }

    pub(crate) fn layout_block_with_collapse(
        &mut self,
        shaper: &Shaper,
        cb: &Dimensions,
        margin: &mut MarginCollapseContext,
        floats: &mut FloatContext,
        base: Option<Num>,
        Ghost(m): Ghost<nat>,
    )
        requires
            old(self)@.fits(m + 1),
        ensures
            (final(self)@, *final(margin), final(floats)@) == block_laid_collapsing(
                *shaper,
                old(self)@,
                *cb,
                *old(margin),
                old(floats)@,
                base,
                m,
            ),
            final(self)@.fits(m + 1),
            final(self)@.own == old(self)@.own,
            final(self)@.viewport == old(self)@.viewport,
        decreases m, 7int,
    {
        proof {
            unfolding::lemma_block_laid_collapsing(
                *shaper,
                self@,
                *cb,
                *margin,
                floats@,
                base,
                m,
            );
        }
        self.calculate_block_width(cb);
        self.calculate_block_vertical_box_model(cb);
        let in_flow = !self.position.is_out_of_flow() && self.float == Float::Unset;
        let root = margin.children_are_formatting_roots || establishes_bfc(
            &self.style,
            self.float,
        );
        let chain: Vec<Num> = if root {
            Vec::new()
        } else {
            self.first_child_top_margin_chain(floats)
        };
        let adjoined = in_flow && margin.first_child_top_adjoined;
        if in_flow {
            margin.first_child_top_adjoined = false;
        }
        if !adjoined {
            margin.add_margin(self.dimensions.margin.top);
            add_all(margin, &chain);
        }
        let ghost before = *margin;
        let collapsed = margin.resolve();
        self.place(cb, collapsed);
        let reference = match base {
            Some(h) => h,
            None => cb.content.height,
        };
        let for_children = self.definite_content_height_for_children(reference);
        let mut inner = MarginCollapseContext::new();
        inner.children_are_formatting_roots = self.style.display.is_flex()
            || self.style.display.is_grid();
        inner.first_child_top_adjoined = chain.len() > 0;
        inner.last_child_collapses_through = !root && should_collapse_with_last_child(
            &self.style,
            self.float,
            self.dimensions.border.bottom,
            self.dimensions.padding.bottom,
        );
        proof {
            let b = old(self)@;
            let d = with_vertical(
                b.own,
                b.viewport,
                with_widths(b.own, b.viewport, b.dim, *cb),
                *cb,
            );
            let chain_v = if root {
                Seq::<Num>::empty()
            } else {
                top_chain(b.with_dim(d), d.content.width, old(floats)@)
            };
            assert(chain@ =~= chain_v);
            assert(before == top_margins(b.with_dim(d), chain_v, *old(margin))) by {
                reveal(top_margins);
            }
            assert(self@ == b.with_dim(placed(d, *cb, before.total())));
            assert(inner == child_margins(self@, root, chain_v.len() > 0)) by {
                reveal(child_margins);
            }
            tree::lemma_same_children_fit(old(self)@, self@, m + 1);
        }
        self.lay_columns(shaper, &mut inner, floats, for_children, Ghost(m));
        self.calculate_block_height(base_of(base, cb));
        margin.reset();
        margin.add_margin(self.dimensions.margin.bottom);
        if inner.last_child_collapses_through {
            margin.absorb(&inner);
        }
    }

    pub(crate) fn layout_float(
        &mut self,
        shaper: &Shaper,
        cb: &Dimensions,
        floats: &mut FloatContext,
        Ghost(m): Ghost<nat>,
    )
        requires
            old(self)@.fits(m + 1),
        ensures
            (final(self)@, final(floats)@) == float_laid(
                *shaper,
                old(self)@,
                *cb,
                old(floats)@,
                m,
            ),
            final(self)@.fits(m + 1),
            final(self)@.own == old(self)@.own,
            final(self)@.viewport == old(self)@.viewport,
        decreases m, 6int,
    {
        proof {
            unfolding::lemma_float_laid(*shaper, self@, *cb, floats@, m);
        }
        self.calculate_block_width(cb);
        self.calculate_block_vertical_box_model(cb);
        let (left, right) = floats.available_width(
            cb.content.y + cb.content.height,
            cb.content.width,
        );
        let d = self.dimensions;
        match self.float {
            Float::Left => {
                self.dimensions.content.x = cb.content.x + left + d.margin.left + d.border.left
                    + d.padding.left;
                floats.add_left(self.dimensions.margin_box());
            },
            Float::Right => {
                self.dimensions.content.x = cb.content.x + right - d.margin_box().width
                    + d.margin.left + d.border.left + d.padding.left;
                floats.add_right(self.dimensions.margin_box());
            },
            Float::Unset => {},
        }
        self.dimensions.content.y = cb.content.y + cb.content.height + d.margin.top + d.border.top
            + d.padding.top;
        let for_children = self.definite_content_height_for_children(cb.content.height);
        let mut margin = MarginCollapseContext::new();
        let mut inner = FloatContext::new();
        proof {
            tree::lemma_same_children_fit(old(self)@, self@, m + 1);
        }
        self.flow_children(shaper, &mut margin, &mut inner, for_children, false, Ghost(m));
        self.calculate_block_height(base_of(None, cb));
    }

    pub(crate) fn lay_collapsing(
        &mut self,
        shaper: &Shaper,
        cb: &Dimensions,
        margin: &mut MarginCollapseContext,
        floats: &mut FloatContext,
        base: Option<Num>,
        Ghost(n): Ghost<nat>,
    )
        requires
            old(self)@.fits(n),
        ensures
            (final(self)@, *final(margin), final(floats)@) == laid_collapsing(
                *shaper,
                old(self)@,
                *cb,
                *old(margin),
                old(floats)@,
                base,
                n,
            ),
            final(self)@.fits(n),
            final(self)@.own == old(self)@.own,
        decreases n, 0int,
    {
        let ghost m = (n - 1) as nat;
        proof {
            unfolding::lemma_laid_collapsing(*shaper, self@, *cb, *margin, floats@, base, n);
        }
        if self.clear != Clear::Unset {
            let y = floats.clear(self.clear);
            if y > Num::zero() {
                margin.reset();
            }
        }
        proof {
            assert(*margin == after_clear(self@, *old(margin), floats@)) by {
                reveal(after_clear);
            }
            unfolding::lemma_kind_laid_collapsing(
                *shaper,
                self@,
                *cb,
                *margin,
                floats@,
                base,
                m,
            );
        }
        let block = match &self.box_type {
            BoxType::Block => true,
            BoxType::AnonymousBlock => true,
            _ => false,
        };
        if block {
            self.layout_block_with_collapse(shaper, cb, margin, floats, base, Ghost(m));
        } else {
            self.lay_kind(shaper, cb, None, Ghost(m));
        }
        if self.float != Float::Unset {
            self.layout_float(shaper, cb, floats, Ghost(m));
        }
        proof {
            lemma_offset_fits(self@, *cb, n);
        }
        self.apply_position_offsets(cb);
        self.reanchor_absolute_children(Ghost(m));
    }
}

} // verus!

//! Flowing the children of a block, one after the other.
use vstd::prelude::*;
use crate::align::{aligned, on_baseline};
use crate::boxes::{box_views, BoxType, BoxV, LayoutBox};
use crate::floats::{FloatContext, FloatsV};
use crate::flow::{
    container, inline_taken, split_taken, splits, Container, FlowS, FlowState, LineRecord,
    SplitRecord,
};
use crate::geometry::Dimensions;
use crate::layout::{
    after_lines, after_splits, base_of, block_step, child_laid, flow_from, flowed, inline_step,
    step, StepV,
};
use crate::margin_collapse::MarginCollapseContext;
use crate::num::Num;
use crate::style::{ComputedStyle, TextAlign};
use crate::text::Shaper;
use crate::tree;
use crate::unfolding;

verus! {

pub(crate) fn align_splits(
    v: &mut Vec<LayoutBox>,
    records: &Vec<SplitRecord>,
    width: Num,
    align: TextAlign,
    Ghost(m): Ghost<nat>,
)
    requires
        forall|j: int|
            0 <= j < records@.len() ==> (#[trigger] records@[j]).start <= records@[j].text
                && records@[j].text < old(v)@.len(),
        forall|j: int| 0 <= j < old(v)@.len() ==> (#[trigger] box_views(old(v)@)[j]).fits(m),
    ensures
        final(v)@.len() == old(v)@.len(),
        box_views(final(v)@) == after_splits(box_views(old(v)@), records@, width, align),
        forall|j: int| 0 <= j < final(v)@.len() ==> (#[trigger] box_views(final(v)@)[j]).fits(m),
{
    let mut k: usize = 0;
    while k < records.len()
        invariant
            k <= records.len(),
            v@.len() == old(v)@.len(),
            forall|j: int|
                0 <= j < records@.len() ==> (#[trigger] records@[j]).start <= records@[j].text
                    && records@[j].text < old(v)@.len(),
            box_views(v@) == after_splits(
                box_views(old(v)@),
                records@.take(k as int),
                width,
                align,
            ),
            forall|j: int| 0 <= j < v@.len() ==> (#[trigger] box_views(v@)[j]).fits(m),
        decreases records.len() - k,
    {
        let r: SplitRecord = records[k];
        proof {
            assert(records@.take(k + 1).drop_last() =~= records@.take(k as int));
            crate::align::lemma_split_fits(
                box_views(v@),
                r.start as int,
                r.text as int,
                width,
                align,
                m,
            );
        }
        LayoutBox::align_split_close(v, r.start, r.text, width, align);
        k = k + 1;
    }
    proof {
        assert(records@.take(k as int) =~= records@);
    }
}

pub(crate) fn align_lines(
    v: &mut Vec<LayoutBox>,
    shaper: &Shaper,
    records: &Vec<LineRecord>,
    width: Num,
    align: TextAlign,
    style: &ComputedStyle,
    Ghost(m): Ghost<nat>,
)
    requires
        forall|j: int|
            0 <= j < records@.len() ==> (#[trigger] records@[j]).start <= records@[j].end
                && records@[j].end <= old(v)@.len(),
        forall|j: int| 0 <= j < old(v)@.len() ==> (#[trigger] box_views(old(v)@)[j]).fits(m),
    ensures
        final(v)@.len() == old(v)@.len(),
        box_views(final(v)@) == after_lines(
            *shaper,
            box_views(old(v)@),
            records@,
            width,
            align,
            *style,
        ),
        forall|j: int| 0 <= j < final(v)@.len() ==> (#[trigger] box_views(final(v)@)[j]).fits(m),
{
    let mut k: usize = 0;
    while k < records.len()
        invariant
            k <= records.len(),
            v@.len() == old(v)@.len(),
            forall|j: int|
                0 <= j < records@.len() ==> (#[trigger] records@[j]).start <= records@[j].end
                    && records@[j].end <= old(v)@.len(),
            box_views(v@) == after_lines(
                *shaper,
                box_views(old(v)@),
                records@.take(k as int),
                width,
                align,
                *style,
            ),
            forall|j: int| 0 <= j < v@.len() ==> (#[trigger] box_views(v@)[j]).fits(m),
        decreases records.len() - k,
    {
        let r: LineRecord = records[k];
        proof {
            assert(records@.take(k + 1).drop_last() =~= records@.take(k as int));
            lemma_line_fits(*shaper, box_views(v@), r, width, align, *style, m);
        }
        LayoutBox::apply_text_align_offset(v, shaper, r.start, r.end, r.width, width, align);
        LayoutBox::apply_vertical_align(v, shaper, r.start, r.end, style);
        k = k + 1;
    }
    proof {
        assert(records@.take(k as int) =~= records@);
    }
}

/// Aligning a line keeps the shape of the trees.
pub(crate) proof fn lemma_line_fits(
    sh: Shaper,
    s: Seq<BoxV>,
    r: LineRecord,
    width: Num,
    align: TextAlign,
    style: ComputedStyle,
    m: nat,
)
    requires
        forall|j: int| 0 <= j < s.len() ==> (#[trigger] s[j]).fits(m),
    ensures
        ({
            let a = aligned(sh, s, r.start as int, r.end as int, r.width, width, align);
            let t = on_baseline(sh, a, r.start as int, r.end as int, style);
            t.len() == s.len() && forall|j: int| 0 <= j < t.len() ==> (#[trigger] t[j]).fits(m)
        }),
{
    let a = aligned(sh, s, r.start as int, r.end as int, r.width, width, align);
    let t = on_baseline(sh, a, r.start as int, r.end as int, style);
    let base = crate::align::line_baseline(sh, a, r.start as int, r.end as int, style);
    assert forall|j: int| 0 <= j < t.len() implies (#[trigger] t[j]).fits(m) by {
        assert(s[j].fits(m));
        crate::align::lemma_aligned_member_fits(
            sh,
            s[j],
            crate::align::align_offset(align, width, r.width),
            width,
            align,
            m,
        );
        assert(a[j].fits(m));
        crate::align::lemma_seated_member_fits(
            sh,
            a[j],
            base,
            style.font_px() * Num::ratio(1, 2),
            m,
        );
    }
}

/// A child taken into the line keeps the shape of its tree.
pub(crate) proof fn lemma_inline_taken_fits(
    sh: Shaper,
    c: Container,
    st: FlowS,
    b: BoxV,
    width: Num,
    height: Num,
    i: usize,
    m: nat,
)
    requires
        b.fits(m),
    ensures
        inline_taken(sh, c, st, b, width, height, i).0.fits(m),
{
    reveal(inline_taken);
    crate::flow::lemma_seated_at_cursor_fits(sh, c, st.line, b, m);
}

/// A text split over lines keeps the shape of its tree.
pub(crate) proof fn lemma_split_taken_fits(sh: Shaper, c: Container, st: FlowS, b: BoxV, i: usize, m: nat)
    requires
        b.fits(m),
    ensures
        split_taken(sh, c, st, b, i).0.fits(m),
{
    reveal(split_taken);
    crate::leaf::lemma_leaf_keeps_tree(
        sh,
        b,
        c.dim,
        true,
        c.dim.content.y + st.line.cursor_y,
        st.line.cursor_x,
    );
    tree::lemma_same_children_fit(b, split_taken(sh, c, st, b, i).0, m);
}

/// Flows boxes one after the other.
pub(crate) fn flow_all(
    v: &mut Vec<LayoutBox>,
    shaper: &Shaper,
    c: &Container,
    st: &mut FlowState,
    floats: &mut FloatContext,
    def: Option<Num>,
    collapse: bool,
    Ghost(m): Ghost<nat>,
)
    requires
        old(st)@.wf(0),
        forall|j: int| 0 <= j < old(v)@.len() ==> (#[trigger] box_views(old(v)@)[j]).fits(m),
    ensures
        final(v)@.len() == old(v)@.len(),
        (box_views(final(v)@), final(st)@, final(floats)@) == flow_from(
            *shaper,
            *c,
            box_views(old(v)@),
            old(st)@,
            old(floats)@,
            0,
            old(v)@.len() as int,
            def,
            collapse,
            m,
        ),
        final(st)@.wf(old(v)@.len() as int),
        forall|j: int| 0 <= j < final(v)@.len() ==> (#[trigger] box_views(final(v)@)[j]).fits(m),
    decreases m, 4int,
{
    let n: usize = v.len();
    let mut i: usize = 0;
    while i < n
        invariant
            i <= n,
            n == v@.len(),
            n == old(v)@.len(),
            st@.wf(i as int),
            forall|j: int| 0 <= j < v@.len() ==> (#[trigger] box_views(v@)[j]).fits(m),
            flow_from(
                *shaper,
                *c,
                box_views(old(v)@),
                old(st)@,
                old(floats)@,
                0,
                n as int,
                def,
                collapse,
                m,
            ) == flow_from(
                *shaper,
                *c,
                box_views(v@),
                st@,
                floats@,
                i as int,
                n as int,
                def,
                collapse,
                m,
            ),
        decreases n - i,
    {
        let ghost before = v@;
        let ghost (st0, floats0) = (st@, floats@);
        proof {
            crate::boxes::lemma_view_at(before, i as int);
            assert(box_views(before)[i as int].fits(m));
        }
        v[i].flow_step(shaper, c, st, floats, i, def, collapse, Ghost(m));
        proof {
            let after = v@;
            assert(after =~= before.update(i as int, after[i as int]));
            crate::boxes::lemma_views_update(before, i as int, after[i as int]);
            assert forall|j: int| 0 <= j < after.len() implies (#[trigger] box_views(
                after,
            )[j]).fits(m) by {
                assert(box_views(before)[j].fits(m));
            }
            lemma_flow_from_step(
                *shaper,
                *c,
                box_views(before),
                st0,
                floats0,
                i as int,
                n as int,
                def,
                collapse,
                m,
            );
        }
        i = i + 1;
    }
    proof {
        reveal(flow_from);
    }
}

pub(crate) proof fn lemma_flow_from_step(
    sh: Shaper,
    c: Container,
    kids: Seq<BoxV>,
    st: FlowS,
    floats: FloatsV,
    i: int,
    total: int,
    def: Option<Num>,
    collapse: bool,
    m: nat,
)
    requires
        i < total,
    ensures
        ({
            let v = step(
                sh,
                c,
                StepV { child: kids[i], st, floats },
                i as usize,
                def,
                collapse,
                m,
            );
            flow_from(sh, c, kids, st, floats, i, total, def, collapse, m) == flow_from(
                sh,
                c,
                kids.update(i, v.child),
                v.st,
                v.floats,
                i + 1,
                total,
                def,
                collapse,
                m,
            )
        }),
{
    reveal(flow_from);
    reveal(step);
}

impl LayoutBox {
    pub(crate) fn lay_child(
        &mut self,
        shaper: &Shaper,
        cb: &Dimensions,
        margin: &mut MarginCollapseContext,
        floats: &mut FloatContext,
        def: Option<Num>,
        collapse: bool,
        Ghost(m): Ghost<nat>,
    )
        requires
            old(self)@.fits(m),
        ensures
            (final(self)@, *final(margin), final(floats)@) == child_laid(
                *shaper,
                old(self)@,
                *cb,
                *old(margin),
                old(floats)@,
                def,
                collapse,
                m,
            ),
            final(self)@.fits(m),
        decreases m, 1int,
    {
        proof {
            reveal(child_laid);
        }
        if collapse {
            self.lay_collapsing(shaper, cb, margin, floats, def, Ghost(m));
        } else {
            self.lay(shaper, cb, base_of(def, cb), Ghost(m));
        }
    }

    pub(crate) fn flow_inline(
        &mut self,
        shaper: &Shaper,
        c: &Container,
        st: &mut FlowState,
        floats: &mut FloatContext,
        i: usize,
        def: Option<Num>,
        collapse: bool,
        Ghost(m): Ghost<nat>,
    )
        requires
            old(self)@.fits(m),
            old(st)@.wf(i as int),
            i < usize::MAX,
        ensures
            (StepV { child: final(self)@, st: final(st)@, floats: final(floats)@ }) == inline_step(
                *shaper,
                *c,
                StepV { child: old(self)@, st: old(st)@, floats: old(floats)@ },
                i,
                def,
                collapse,
                m,
            ),
            final(self)@.fits(m),
            final(st)@.wf(i + 1),
        decreases m, 2int,
    {
        proof {
            reveal(inline_step);
            reveal(child_laid);
        }
        let mut throwaway = MarginCollapseContext::new();
        let mut cb = c.dim;
        cb.content.x = c.dim.content.x + st.line.cursor_x;
        cb.content.y = c.dim.content.y + st.line.cursor_y;
        cb.content.height = Num::zero();
        self.lay_child(shaper, &cb, &mut throwaway, floats, def, collapse, Ghost(m));
        let width = self.dimensions.margin_box().width;
        let height = self.dimensions.margin_box().height;
        if st.wrap_for(c, width, i) {
            cb.content.x = c.dim.content.x;
            cb.content.y = c.dim.content.y + st.line.cursor_y;
            self.lay_child(shaper, &cb, &mut throwaway, floats, def, collapse, Ghost(m));
        }
        proof {
            lemma_inline_taken_fits(*shaper, *c, st@, self@, width, height, i, m);
        }
        st.take_inline(self, shaper, c, width, height, i);
    }

    pub(crate) fn flow_block(
        &mut self,
        shaper: &Shaper,
        c: &Container,
        st: &mut FlowState,
        floats: &mut FloatContext,
        i: usize,
        def: Option<Num>,
        collapse: bool,
        Ghost(m): Ghost<nat>,
    )
        requires
            old(self)@.fits(m),
            old(st)@.wf(i as int),
            i < usize::MAX,
        ensures
            (StepV { child: final(self)@, st: final(st)@, floats: final(floats)@ }) == block_step(
                *shaper,
                *c,
                StepV { child: old(self)@, st: old(st)@, floats: old(floats)@ },
                i,
                def,
                collapse,
                m,
            ),
            final(self)@.fits(m),
            final(st)@.wf(i + 1),
        decreases m, 2int,
    {
        proof {
            reveal(block_step);
            reveal(child_laid);
        }
        st.close_if_used(c, i);
        let mut cb = c.dim;
        cb.content.height = st.line.cursor_y;
        let text = match &self.box_type {
            BoxType::Text(_) => true,
            _ => false,
        };
        if c.zero && text {
            proof {
                crate::leaf::lemma_leaf_keeps_tree(
                    *shaper,
                    self@,
                    cb,
                    true,
                    Num::nought(),
                    Num::nought(),
                );
            }
            self.layout_text_with_zero_wrap(shaper, &cb, true);
        } else {
            let mut margin = st.margin;
            self.lay_child(shaper, &cb, &mut margin, floats, def, collapse, Ghost(m));
            st.margin = margin;
        }
        st.take_block(self, c, i, collapse);
    }

    pub(crate) fn flow_step(
        &mut self,
        shaper: &Shaper,
        c: &Container,
        st: &mut FlowState,
        floats: &mut FloatContext,
        i: usize,
        def: Option<Num>,
        collapse: bool,
        Ghost(m): Ghost<nat>,
    )
        requires
            old(self)@.fits(m),
            old(st)@.wf(i as int),
            i < usize::MAX,
        ensures
            (StepV { child: final(self)@, st: final(st)@, floats: final(floats)@ }) == step(
                *shaper,
                *c,
                StepV { child: old(self)@, st: old(st)@, floats: old(floats)@ },
                i,
                def,
                collapse,
                m,
            ),
            final(self)@.fits(m),
            final(st)@.wf(i + 1),
        decreases m, 3int,
    {
        proof {
            unfolding::lemma_step(
                *shaper,
                *c,
                StepV { child: self@, st: st@, floats: floats@ },
                i,
                def,
                collapse,
                m,
            );
        }
        if self.position.is_out_of_flow() {
            let mut cb = c.dim;
            cb.content.height = st.line.cursor_y;
            let mut margin = st.margin;
            self.lay_child(shaper, &cb, &mut margin, floats, None, collapse, Ghost(m));
            return;
        }
        if collapse && self.is_line_level() {
            st.spend_margin();
        }
        let line_break = match &self.box_type {
            BoxType::LineBreak => true,
            _ => false,
        };
        if line_break {
            st.take_break(self, c, i);
        } else if self.is_flowing_inline(shaper, c, &st.line) {
            self.flow_inline(shaper, c, st, floats, i, def, collapse, Ghost(m));
        } else if LayoutBox::text_splits_inline(self) {
            proof {
                lemma_split_taken_fits(*shaper, *c, st@, self@, i, m);
            }
            st.take_split(self, shaper, c, i);
        } else {
            self.flow_block(shaper, c, st, floats, i, def, collapse, Ghost(m));
        }
    }

    /// Flows the children and gives the content the height they reach.
    pub(crate) fn flow_children(
        &mut self,
        shaper: &Shaper,
        margin: &mut MarginCollapseContext,
        floats: &mut FloatContext,
        def: Option<Num>,
        collapse: bool,
        Ghost(m): Ghost<nat>,
    )
        requires
            old(self)@.fits(m + 1),
        ensures
            (final(self)@, *final(margin), final(floats)@) == flowed(
                *shaper,
                old(self)@,
                *old(margin),
                old(floats)@,
                def,
                collapse,
                m,
            ),
            final(self)@.fits(m + 1),
            final(self)@.own == old(self)@.own,
            final(self)@.viewport == old(self)@.viewport,
        decreases m, 5int,
    {
        let ghost b = self@;
        proof {
            unfolding::lemma_flowed(*shaper, b, *margin, floats@, def, collapse, m);
            assert(container(*shaper, b).dim == b.dim && container(*shaper, b).text_align
                == b.own.style.text_align) by {
                reveal(container);
            }
            assert forall|j: int| 0 <= j < self.children@.len() implies (#[trigger] box_views(
                self.children@,
            )[j]).fits(m) by {
                assert(b.children[j].fits(m));
            }
        }
        let c = self.flow_container(shaper);
        let width = c.dim.content.width;
        let n: usize = self.children.len();
        let mut st = FlowState::new(*margin);
        let mut kids: Vec<LayoutBox> = Vec::new();
        std::mem::swap(&mut kids, &mut self.children);
        flow_all(&mut kids, shaper, &c, &mut st, floats, def, collapse, Ghost(m));
        st.close_if_used(&c, n);
        align_splits(&mut kids, &st.splits, width, c.text_align, Ghost(m));
        align_lines(&mut kids, shaper, &st.lines, width, c.text_align, &self.style, Ghost(m));
        if collapse && !st.margin.last_child_collapses_through {
            st.spend_margin();
        }
        self.children = kids;
        self.dimensions.content.height = st.line.cursor_y;
        *margin = st.margin;
        proof {
            tree::lemma_children_fit(self@, m);
        }
    }
}

} // verus!

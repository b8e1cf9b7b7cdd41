//! `text-overflow: ellipsis`: cutting runs at the end of their line box.
use vstd::prelude::*;
use crate::num::Num;
use crate::text;

verus! {

/// One block container's `text-overflow: ellipsis` state while its subtree
/// paints.
#[derive(Debug, Clone)]
pub struct EllipsisScope {
    /// End edge of the block's content box, which the ellipsis sits against.
    pub limit_x: Num,
    /// The tops of the lines that already carry an ellipsis. Runs paint in
    /// inline order, so every later run on such a line is past the ellipsis.
    pub lines: Vec<Num>,
}

/// The model of an ellipsis scope.
#[verifier::ext_equal]
pub struct ScopeV {
    pub limit_x: Num,
    pub lines: Seq<Num>,
}

impl View for EllipsisScope {
    type V = ScopeV;

    open spec fn view(&self) -> ScopeV {
        ScopeV { limit_x: self.limit_x, lines: self.lines@ }
    }
}

/// What `text-overflow` does to one painted run.
#[derive(Debug, Clone)]
pub enum TextOverflowCut {
    /// Fits: paint as laid out.
    Keep,
    /// On a line that already carries an ellipsis.
    Hide,
    /// Cut so that the ellipsis fits inside the block's content edge.
    Cut { text: String, advances: Vec<Num>, width: Num },
}

/// The model of a cut.
#[verifier::ext_equal]
pub enum CutV {
    Keep,
    Hide,
    Cut { text: Seq<char>, advances: Seq<Num>, width: Num },
}

impl View for TextOverflowCut {
    type V = CutV;

    open spec fn view(&self) -> CutV {
        match *self {
            TextOverflowCut::Keep => CutV::Keep,
            TextOverflowCut::Hide => CutV::Hide,
            TextOverflowCut::Cut { text, advances, width } => CutV::Cut {
                text: text@,
                advances: advances@,
                width,
            },
        }
    }
}

/// Whether one of some lines is at a top, within half a pixel.
pub open spec fn marked(lines: Seq<Num>, top: Num) -> bool {
    exists|i: int| 0 <= i < lines.len() && near(#[trigger] lines[i], top)
}

/// Whether two tops are of one line.
pub open spec fn near(a: Num, b: Num) -> bool {
    Num::magnitude(a - b) < Num::ratio(1, 2)
}

/// The tolerance of widths.
pub open spec fn slack() -> Num {
    Num::ratio(1, 100)
}

/// How many advances from `k` on fit a width of which `used` is taken, and the
/// width they take in all.
pub open spec fn fitting(advances: Seq<Num>, k: int, used: Num, available: Num) -> (int, Num)
    decreases advances.len() - k,
{
    if k >= advances.len() || used + advances[k] > available + slack() {
        (k, used)
    } else {
        fitting(advances, k + 1, used + advances[k], available)
    }
}

/// Of the prefixes of the advances, the largest is kept that fits together with
/// all shorter ones.
pub proof fn lemma_largest_prefix_is_kept(advances: Seq<Num>, k: int, available: Num)
    requires
        0 <= k <= advances.len(),
    ensures
        ({
            let (n, width) = fitting(advances, k, text::total(advances.take(k)), available);
            &&& k <= n <= advances.len()
            &&& width == text::total(advances.take(n))
            &&& forall|j: int|
                k < j <= n ==> !(text::total(#[trigger] advances.take(j)) > available + slack())
            &&& n < advances.len() ==> text::total(advances.take(n + 1)) > available + slack()
        }),
    decreases advances.len() - k,
{
    if k < advances.len() {
        assert(advances.take(k + 1).drop_last() =~= advances.take(k));
        assert(advances.take(k + 1).last() == advances[k]);
        if !(text::total(advances.take(k)) + advances[k] > available + slack()) {
            lemma_largest_prefix_is_kept(advances, k + 1, available);
        }
    }
}

impl ScopeV {
    /// What happens to a run that starts at `x` on the line at `top`: hidden
    /// behind an ellipsis, kept where it ends inside the limit, else cut so
    /// that the ellipsis fits. Where not even the ellipsis fits it stands
    /// alone.
    pub open spec fn cut(
        self,
        text: Seq<char>,
        x: Num,
        top: Num,
        advances: Seq<Num>,
        ellipsis: Num,
    ) -> CutV {
        if marked(self.lines, top) {
            CutV::Hide
        } else if x + text::total(advances) <= self.limit_x + slack() {
            CutV::Keep
        } else {
            let (n, width) = fitting(
                advances,
                0,
                Num::nought(),
                self.limit_x - x - ellipsis,
            );
            CutV::Cut {
                text: text.take(
                    if n < text.len() {
                        n
                    } else {
                        text.len() as int
                    },
                ) + "\u{2026}"@,
                advances: advances.take(n).push(ellipsis),
                width: width + ellipsis,
            }
        }
    }

    /// The scope after a run: a line that was cut carries an ellipsis.
    pub open spec fn after(self, c: CutV, top: Num) -> ScopeV {
        if c is Cut {
            ScopeV { lines: self.lines.push(top), ..self }
        } else {
            self
        }
    }
}

proof fn lemma_fitting_bounds(advances: Seq<Num>, k: int, used: Num, available: Num)
    requires
        0 <= k <= advances.len(),
    ensures
        k <= fitting(advances, k, used, available).0 <= advances.len(),
    decreases advances.len() - k,
{
    if !(k >= advances.len() || used + advances[k] > available + slack()) {
        lemma_fitting_bounds(advances, k + 1, used + advances[k], available);
    }
}

/// A run that is cut ends in the ellipsis, and keeps no more characters than
/// it had.
pub proof fn lemma_cut_ends_in_ellipsis(
    s: ScopeV,
    text: Seq<char>,
    x: Num,
    top: Num,
    advances: Seq<Num>,
    ellipsis: Num,
)
    requires
        advances.len() == text.len(),
    ensures
        s.cut(text, x, top, advances, ellipsis) matches CutV::Cut { text: t, advances: a, .. }
            ==> a.len() <= text.len() + 1 && a.last() == ellipsis && t == text.take(
            a.len() - 1,
        ) + "\u{2026}"@,
{
    lemma_fitting_bounds(advances, 0, Num::nought(), s.limit_x - x - ellipsis);
}

/// Once a line is cut, every later run on it is hidden.
pub proof fn lemma_cut_line_hides_the_rest(
    s: ScopeV,
    c: CutV,
    top: Num,
    text: Seq<char>,
    x: Num,
    advances: Seq<Num>,
    ellipsis: Num,
)
    requires
        c is Cut,
        near(top, top),
    ensures
        s.after(c, top).cut(text, x, top, advances, ellipsis) is Hide,
{
    let lines = s.after(c, top).lines;
    assert(lines[lines.len() - 1] == top);
}

impl EllipsisScope {
    fn is_marked(&self, top: Num) -> (r: bool)
        ensures
            r == marked(self.lines@, top),
    {
        let mut i: usize = 0;
        while i < self.lines.len()
            invariant
                i <= self.lines.len(),
                forall|j: int| 0 <= j < i ==> !near(#[trigger] self.lines@[j], top),
            decreases self.lines.len() - i,
        {
            if (self.lines[i] - top).abs() < Num::frac(1, 2) {
                proof {
                    assert(near(self.lines@[i as int], top));
                }
                return true;
            }
            i = i + 1;
        }
        false
    }

    /// Cuts one run painted at `x` on the line at `line_top`, with an advance
    /// for each character.
    pub fn cut(
        &mut self,
        text: &String,
        x: Num,
        line_top: Num,
        advances: &Vec<Num>,
        ellipsis_advance: Num,
    ) -> (r: TextOverflowCut)
        ensures
            r@ == old(self)@.cut(text@, x, line_top, advances@, ellipsis_advance),
            final(self)@ == old(self)@.after(r@, line_top),
    {
        if self.is_marked(line_top) {
            return TextOverflowCut::Hide;
        }
        let eps = Num::frac(1, 100);
        if x + text::sum(advances) <= self.limit_x + eps {
            return TextOverflowCut::Keep;
        }
        let available = self.limit_x - x - ellipsis_advance;
        let mut kept: usize = 0;
        let mut width = Num::zero();
        let mut cut_advances: Vec<Num> = Vec::new();
        while kept < advances.len() && !(width + advances[kept] > available + eps)
            invariant
                kept <= advances.len(),
                eps == slack(),
                cut_advances@ == advances@.take(kept as int),
                fitting(advances@, 0, Num::nought(), available) == fitting(
                    advances@,
                    kept as int,
                    width,
                    available,
                ),
            decreases advances.len() - kept,
        {
            width = width + advances[kept];
            cut_advances.push(advances[kept]);
            kept = kept + 1;
            proof {
                assert(cut_advances@ =~= advances@.take(kept as int));
            }
        }
        let s: &str = text.as_str();
        let len: usize = s.unicode_len();
        let n: usize = if kept < len {
            kept
        } else {
            len
        };
        let mut cut: String = s.substring_char(0, n).to_owned();
        cut.append("\u{2026}");
        cut_advances.push(ellipsis_advance);
        self.lines.push(line_top);
        proof {
            assert(cut@ =~= text@.take(n as int) + "\u{2026}"@);
        }
        TextOverflowCut::Cut {
            text: cut,
            advances: cut_advances,
            width: width + ellipsis_advance,
        }
    }
}

} // verus!

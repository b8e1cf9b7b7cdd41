//! Painting borders: rounded rings, solid strips and dashes.
use vstd::prelude::*;
use crate::boxes::{BoxV, LayoutBox};
use crate::decorate::{self, border_radius_px};
use crate::display::{command_views, emit, CommandV, DisplayCommand, EdgeColors};
use crate::geometry::{EdgeSizes, Rect};
use crate::num::Num;
use crate::style::{BorderStyle, Color};

verus! {

/// The dash and gap a side starts from: a dashed side draws dashes of twice its
/// thickness with gaps of one (three and two where it is thin), a dotted side
/// one and one. None for a solid side.
pub open spec fn nominal_dash(style: BorderStyle, thickness: Num) -> Option<(Num, Num)> {
    match style {
        BorderStyle::Solid => None,
        BorderStyle::Absent => None,
        BorderStyle::Dashed => if thickness < Num::whole(3) {
            Some((thickness * Num::whole(3), thickness * Num::whole(2)))
        } else {
            Some((thickness * Num::whole(2), thickness))
        },
        BorderStyle::Dotted => Some((thickness, thickness)),
    }
}

/// The gap that makes `n` dashes fill a side.
pub open spec fn gap_for(length: Num, dash: Num, n: Num) -> Num {
    (length - n * dash) / (n - Num::whole(1))
}

/// The gap that makes a side start and end on a whole dash: of the two dash
/// counts around the nominal one, that with the gap nearer the nominal one.
pub open spec fn best_gap(length: Num, dash: Num, gap: Num) -> Num {
    let few = Num::floored((length + gap) / (dash + gap));
    let many = few + Num::whole(1);
    let wide = if few > Num::whole(1) {
        gap_for(length, dash, few)
    } else {
        Num::unbounded()
    };
    let narrow = gap_for(length, dash, many);
    if narrow <= Num::nought() || Num::magnitude(wide - gap) < Num::magnitude(narrow - gap) {
        wide
    } else {
        narrow
    }
}

/// The dash and gap of a border side; none for a solid one. A side too short
/// for two dashes is solid.
pub open spec fn dash_pattern(style: BorderStyle, thickness: Num, length: Num) -> Option<
    (Num, Num),
> {
    match nominal_dash(style, thickness) {
        Some((dash, gap)) => if dash <= Num::nought() || length <= dash * Num::whole(2) {
            None
        } else {
            Some((dash, best_gap(length, dash, gap)))
        },
        None => None,
    }
}

/// The dash pattern for one border side of a length, or none for a solid side.
pub fn border_dash_pattern(style: BorderStyle, thickness: Num, length: Num) -> (r: Option<
    (Num, Num),
>)
    ensures
        r == dash_pattern(style, thickness, length),
{
    let (dash, gap) = match style {
        BorderStyle::Solid => {
            return None;
        },
        BorderStyle::Absent => {
            return None;
        },
        BorderStyle::Dashed => if thickness < Num::of(3) {
            (thickness * Num::of(3), thickness * Num::of(2))
        } else {
            (thickness * Num::of(2), thickness)
        },
        BorderStyle::Dotted => (thickness, thickness),
    };
    if dash <= Num::zero() || length <= dash * Num::of(2) {
        return None;
    }
    let one = Num::of(1);
    let few = ((length + gap) / (dash + gap)).floor();
    let many = few + one;
    let wide = if few > one {
        (length - few * dash) / (few - one)
    } else {
        Num::infinity()
    };
    let narrow = (length - many * dash) / (many - one);
    let best = if narrow <= Num::zero() || (wide - gap).abs() < (narrow - gap).abs() {
        wide
    } else {
        narrow
    };
    Some((dash, best))
}

/// A side of a border: the strip along the whole edge of the border box.
#[derive(Debug, Clone, Copy)]
pub struct Side {
    pub thickness: Num,
    pub color: Color,
    pub style: BorderStyle,
    pub strip: Rect,
    pub horizontal: bool,
}

impl Side {
    /// The length of the side.
    pub open spec fn length(self) -> Num {
        if self.horizontal {
            self.strip.width
        } else {
            self.strip.height
        }
    }

    /// A piece of the strip.
    pub open spec fn piece(self, offset: Num, run: Num) -> Rect {
        if self.horizontal {
            Rect { x: self.strip.x + offset, width: run, ..self.strip }
        } else {
            Rect { y: self.strip.y + offset, height: run, ..self.strip }
        }
    }

    /// The dashes from an offset on, the last one cut at the end. They end
    /// where a step no longer moves on.
    pub open spec fn dashes(self, dash: Num, gap: Num, offset: Num) -> Seq<CommandV>
        decreases
                (if offset < self.length() - Num::ratio(1, 100) {
                    (self.length() - Num::ratio(1, 100)).rank() - offset.rank()
                } else {
                    0
                }),
    {
        if !(offset < self.length() - Num::ratio(1, 100)) {
            Seq::empty()
        } else {
            let run = Num::smaller(dash, self.length() - offset);
            let next = offset + (dash + gap);
            seq![CommandV::Plain(DisplayCommand::SolidColor(self.color, self.piece(offset, run)))]
                + (if offset < next {
                self.dashes(dash, gap, next)
            } else {
                Seq::empty()
            })
        }
    }

    /// The commands of a side.
    pub open spec fn commands(self) -> Seq<CommandV> {
        if self.thickness <= Num::nought() {
            Seq::empty()
        } else {
            match dash_pattern(self.style, self.thickness, self.length()) {
                Some((dash, gap)) => self.dashes(dash, gap, Num::nought()),
                None => seq![CommandV::Plain(DisplayCommand::SolidColor(self.color, self.strip))],
            }
        }
    }

    fn render_dashes(&self, out: &mut Vec<DisplayCommand>, dash: Num, gap: Num)
        ensures
            command_views(final(out)@) == command_views(old(out)@) + self.dashes(
                dash,
                gap,
                Num::nought(),
            ),
    {
        let length = if self.horizontal {
            self.strip.width
        } else {
            self.strip.height
        };
        let end = length - Num::frac(1, 100);
        let mut offset = Num::zero();
        let mut going = true;
        proof {
            assert(command_views(out@) + self.dashes(dash, gap, offset) =~= command_views(
                old(out)@,
            ) + self.dashes(dash, gap, Num::nought()));
        }
        while going && offset < end
            invariant
                length == self.length(),
                end == length - Num::ratio(1, 100),
                command_views(out@) + (if going {
                    self.dashes(dash, gap, offset)
                } else {
                    Seq::empty()
                }) == command_views(old(out)@) + self.dashes(dash, gap, Num::nought()),
            decreases
                    (if going && offset < end {
                        1 + end.rank() - offset.rank()
                    } else {
                        0
                    }),
        {
            let ghost before = command_views(out@);
            let run = dash.min(length - offset);
            let rect = if self.horizontal {
                Rect {
                    x: self.strip.x + offset,
                    y: self.strip.y,
                    width: run,
                    height: self.strip.height,
                }
            } else {
                Rect {
                    x: self.strip.x,
                    y: self.strip.y + offset,
                    width: self.strip.width,
                    height: run,
                }
            };
            emit(out, DisplayCommand::SolidColor(self.color, rect));
            let next = offset + (dash + gap);
            proof {
                assert(self.dashes(dash, gap, offset) == seq![
                    CommandV::Plain(
                        DisplayCommand::SolidColor(self.color, self.piece(offset, run)),
                    ),
                ] + (if offset < next {
                    self.dashes(dash, gap, next)
                } else {
                    Seq::empty()
                }));
                assert(command_views(out@) + (if offset < next {
                    self.dashes(dash, gap, next)
                } else {
                    Seq::empty()
                }) =~= before + self.dashes(dash, gap, offset));
            }
            if offset < next {
                offset = next;
            } else {
                going = false;
            }
        }
        proof {
            assert(command_views(out@) =~= command_views(out@) + Seq::<CommandV>::empty());
        }
    }

    fn render(&self, out: &mut Vec<DisplayCommand>)
        ensures
            command_views(final(out)@) == command_views(old(out)@) + self.commands(),
    {
        if self.thickness <= Num::zero() {
            proof {
                assert(command_views(out@) =~= command_views(old(out)@) + self.commands());
            }
            return;
        }
        let length = if self.horizontal {
            self.strip.width
        } else {
            self.strip.height
        };
        match border_dash_pattern(self.style, self.thickness, length) {
            Some((dash, gap)) => {
                self.render_dashes(out, dash, gap);
            },
            None => {
                emit(out, DisplayCommand::SolidColor(self.color, self.strip));
            },
        }
    }
}

/// The top side of the border of a box.
pub open spec fn top_side(b: BoxV) -> Side {
    let bb = b.dim.border_box();
    Side {
        thickness: b.dim.border.top,
        color: b.own.style.border_top_color,
        style: b.own.style.border_top_style,
        strip: Rect { height: b.dim.border.top, ..bb },
        horizontal: true,
    }
}

/// The right side of the border of a box.
pub open spec fn right_side(b: BoxV) -> Side {
    let bb = b.dim.border_box();
    Side {
        thickness: b.dim.border.right,
        color: b.own.style.border_right_color,
        style: b.own.style.border_right_style,
        strip: Rect {
            x: bb.right() - b.dim.border.right,
            width: b.dim.border.right,
            ..bb
        },
        horizontal: false,
    }
}

/// The bottom side of the border of a box.
pub open spec fn bottom_side(b: BoxV) -> Side {
    let bb = b.dim.border_box();
    Side {
        thickness: b.dim.border.bottom,
        color: b.own.style.border_bottom_color,
        style: b.own.style.border_bottom_style,
        strip: Rect {
            y: bb.bottom() - b.dim.border.bottom,
            height: b.dim.border.bottom,
            ..bb
        },
        horizontal: true,
    }
}

/// The left side of the border of a box.
pub open spec fn left_side(b: BoxV) -> Side {
    let bb = b.dim.border_box();
    Side {
        thickness: b.dim.border.left,
        color: b.own.style.border_left_color,
        style: b.own.style.border_left_style,
        strip: Rect { width: b.dim.border.left, ..bb },
        horizontal: false,
    }
}

/// Whether a side has no dashes whatever its length.
pub open spec fn undashed(style: BorderStyle) -> bool {
    style == BorderStyle::Solid || style == BorderStyle::Absent
}

/// Whether the border is one rounded ring: a rounded corner, no dashes, and
/// some width.
pub open spec fn is_ring(b: BoxV, root: Num) -> bool {
    let s = b.own.style;
    let e = b.dim.border;
    !decorate::radii(b, root).square() && undashed(s.border_top_style) && undashed(
        s.border_right_style,
    ) && undashed(s.border_bottom_style) && undashed(s.border_left_style) && (e.top
        > Num::nought() || e.right > Num::nought() || e.bottom > Num::nought() || e.left
        > Num::nought())
}

/// The commands of the border of a box.
pub open spec fn borders(b: BoxV, root: Num) -> Seq<CommandV> {
    let s = b.own.style;
    if is_ring(b, root) {
        seq![
            CommandV::Plain(
                DisplayCommand::RoundedBorder {
                    rect: b.dim.border_box(),
                    widths: b.dim.border,
                    colors: EdgeColors {
                        top: s.border_top_color,
                        right: s.border_right_color,
                        bottom: s.border_bottom_color,
                        left: s.border_left_color,
                    },
                    radius: decorate::radii(b, root),
                },
            ),
        ]
    } else {
        top_side(b).commands() + right_side(b).commands() + bottom_side(b).commands() + left_side(
            b,
        ).commands()
    }
}

fn is_undashed(style: BorderStyle) -> (r: bool)
    ensures
        r == undashed(style),
{
    style == BorderStyle::Solid || style == BorderStyle::Absent
}

/// Render borders.
pub(crate) fn render_borders(out: &mut Vec<DisplayCommand>, layout_box: &LayoutBox, root: Num)
    ensures
        command_views(final(out)@) == command_views(old(out)@) + borders(layout_box@, root),
{
    let s = &layout_box.style;
    let bb = layout_box.dimensions.border_box();
    let e: EdgeSizes = layout_box.dimensions.border;
    let radius = border_radius_px(layout_box, root);
    let solid = is_undashed(s.border_top_style) && is_undashed(s.border_right_style)
        && is_undashed(s.border_bottom_style) && is_undashed(s.border_left_style);
    let wide = e.top > Num::zero() || e.right > Num::zero() || e.bottom > Num::zero() || e.left
        > Num::zero();
    if !radius.is_zero() && solid && wide {
        emit(
            out,
            DisplayCommand::RoundedBorder {
                rect: bb,
                widths: e,
                colors: EdgeColors {
                    top: s.border_top_color,
                    right: s.border_right_color,
                    bottom: s.border_bottom_color,
                    left: s.border_left_color,
                },
                radius,
            },
        );
        return;
    }
    let top = Side {
        thickness: e.top,
        color: s.border_top_color,
        style: s.border_top_style,
        strip: Rect { x: bb.x, y: bb.y, width: bb.width, height: e.top },
        horizontal: true,
    };
    let right = Side {
        thickness: e.right,
        color: s.border_right_color,
        style: s.border_right_style,
        strip: Rect { x: bb.right() - e.right, y: bb.y, width: e.right, height: bb.height },
        horizontal: false,
    };
    let bottom = Side {
        thickness: e.bottom,
        color: s.border_bottom_color,
        style: s.border_bottom_style,
        strip: Rect { x: bb.x, y: bb.bottom() - e.bottom, width: bb.width, height: e.bottom },
        horizontal: true,
    };
    let left = Side {
        thickness: e.left,
        color: s.border_left_color,
        style: s.border_left_style,
        strip: Rect { x: bb.x, y: bb.y, width: e.left, height: bb.height },
        horizontal: false,
    };
    top.render(out);
    right.render(out);
    bottom.render(out);
    left.render(out);
    proof {
        assert(top == top_side(layout_box@));
        assert(right == right_side(layout_box@));
        assert(bottom == bottom_side(layout_box@));
        assert(left == left_side(layout_box@));
        assert(command_views(out@) =~= command_views(old(out)@) + borders(layout_box@, root));
    }
}

/// A solid side has no dashes, at any thickness and length.
pub proof fn lemma_solid_side_is_one_strip(thickness: Num, length: Num)
    ensures
        dash_pattern(BorderStyle::Solid, thickness, length) is None,
        dash_pattern(BorderStyle::Absent, thickness, length) is None,
{
}

/// A side no longer than two dashes is solid.
pub proof fn lemma_short_side_is_solid(style: BorderStyle, thickness: Num, length: Num)
    requires
        nominal_dash(style, thickness) matches Some((dash, _)) && length <= dash * Num::whole(2),
    ensures
        dash_pattern(style, thickness, length) is None,
{
}

/// Every dash of a side is a piece of its strip in its color.
pub proof fn lemma_dashes_on_strip(side: Side, dash: Num, gap: Num, offset: Num, i: int)
    requires
        0 <= i < side.dashes(dash, gap, offset).len(),
    ensures
        exists|at: Num, run: Num|
            side.dashes(dash, gap, offset)[i] == CommandV::Plain(
                DisplayCommand::SolidColor(side.color, #[trigger] side.piece(at, run)),
            ),
    decreases i,
{
    let run = Num::smaller(dash, side.length() - offset);
    let next = offset + (dash + gap);
    let d = side.dashes(dash, gap, offset);
    if i == 0 {
        assert(d[0] == CommandV::Plain(
            DisplayCommand::SolidColor(side.color, side.piece(offset, run)),
        ));
    } else {
        assert(offset < next);
        assert(d[i] == side.dashes(dash, gap, next)[i - 1]);
        lemma_dashes_on_strip(side, dash, gap, next, i - 1);
    }
}

} // verus!

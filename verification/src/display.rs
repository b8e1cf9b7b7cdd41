//! Paint commands.
use vstd::prelude::*;
use crate::geometry::{EdgeSizes, Point, Rect};
use crate::images::ObjectFit;
use crate::num::Num;
use crate::style::{
    BackdropFilter, BackgroundRepeat, BackgroundSize, Color, ColorStop, Gradient, GradientDirection,
    RadialShape, RadialSize,
};

verus! {

/// Border radius values for each corner.
#[derive(Debug, Clone, Copy)]
pub struct BorderRadius {
    pub top_left: Num,
    pub top_right: Num,
    pub bottom_right: Num,
    pub bottom_left: Num,
}

impl Default for BorderRadius {
    fn default() -> (r: BorderRadius)
        ensures
            r == BorderRadius::all(Num::nought()),
    {
        BorderRadius::uniform(Num::zero())
    }
}

impl BorderRadius {
    /// One radius for all corners.
    pub open spec fn all(radius: Num) -> BorderRadius {
        BorderRadius {
            top_left: radius,
            top_right: radius,
            bottom_right: radius,
            bottom_left: radius,
        }
    }

    /// Create uniform border radius.
    pub fn uniform(radius: Num) -> (r: BorderRadius)
        ensures
            r == BorderRadius::all(radius),
    {
        BorderRadius {
            top_left: radius,
            top_right: radius,
            bottom_right: radius,
            bottom_left: radius,
        }
    }

    /// Whether no corner is rounded.
    pub open spec fn square(self) -> bool {
        self.top_left.same(Num::nought()) && self.top_right.same(Num::nought())
            && self.bottom_right.same(Num::nought()) && self.bottom_left.same(Num::nought())
    }

    /// Check if all radii are zero (no rounding).
    pub fn is_zero(&self) -> (r: bool)
        ensures
            r == self.square(),
    {
        self.top_left == Num::zero() && self.top_right == Num::zero() && self.bottom_right
            == Num::zero() && self.bottom_left == Num::zero()
    }
}

/// Text decoration style for display commands.
#[derive(Debug, Clone, Copy, PartialEq, Eq, Structural)]
pub enum TextDecorationStyleValue {
    Solid,
    Double,
    Dotted,
    Dashed,
    Wavy,
}

/// The colors of the four sides of a border.
#[derive(Debug, Clone, Copy)]
pub struct EdgeColors {
    pub top: Color,
    pub right: Color,
    pub bottom: Color,
    pub left: Color,
}

/// A 2D transform matrix: the columns (a, b), (c, d) and the translation
/// (e, f).
#[derive(Debug, Clone, Copy)]
pub struct Matrix {
    pub a: Num,
    pub b: Num,
    pub c: Num,
    pub d: Num,
    pub e: Num,
    pub f: Num,
}

/// A paint command for rendering.
#[derive(Debug, Clone)]
pub enum DisplayCommand {
    /// Fill a rectangle with a solid color.
    SolidColor(Color, Rect),
    /// Fill a rounded rectangle with a solid color.
    RoundedRect { color: Color, rect: Rect, radius: BorderRadius },
    /// Draw a border.
    Border { color: Color, rect: Rect, top: Num, right: Num, bottom: Num, left: Num },
    /// Draw text.
    Text {
        text: String,
        x: Num,
        y: Num,
        color: Color,
        font_size: Num,
        font_family: String,
        font_weight: u16,
        font_style: u8,
        /// Horizontal advance of each character, where layout has them: glyphs
        /// are placed at these instead of measured anew.
        advances: Option<Vec<Num>>,
        /// The ascent layout seated the baseline on: it lies at `y + ascent`.
        ascent: Option<Num>,
    },
    /// Draw text decoration line (underline, strikethrough, overline).
    TextDecoration {
        x: Num,
        y: Num,
        width: Num,
        thickness: Num,
        color: Color,
        style: TextDecorationStyleValue,
    },
    /// Draw an image.
    Image {
        /// URL or cache key of the image
        url: String,
        /// Source rectangle in the image (for sprites or cropping)
        src_rect: Option<Rect>,
        /// Destination rectangle on screen
        dest_rect: Rect,
        /// Object-fit mode
        object_fit: ObjectFit,
        /// Opacity, from 0 to 1
        opacity: Num,
        /// The box's `color`, for vector images that paint with it.
        current_color: Color,
    },
    /// Draw a background image.
    BackgroundImage {
        /// URL or cache key of the image
        url: String,
        /// Destination rectangle
        rect: Rect,
        /// Background size
        size: BackgroundSize,
        /// Background position, each coordinate from 0 to 1
        position: Point,
        /// Background repeat
        repeat: BackgroundRepeat,
    },
    /// Draw a box shadow.
    BoxShadow {
        /// Shadow offset X
        offset_x: Num,
        /// Shadow offset Y
        offset_y: Num,
        /// Blur radius
        blur_radius: Num,
        /// Spread radius
        spread_radius: Num,
        /// Shadow color
        color: Color,
        /// Box rectangle (shadow is drawn outside this box, or inside if inset)
        rect: Rect,
        /// Whether this is an inset shadow
        inset: bool,
    },
    /// Apply a backdrop filter to the pixels behind this rectangle.
    BackdropFilter {
        /// The rectangle to apply the filter to.
        rect: Rect,
        /// Border radius for clipping.
        border_radius: BorderRadius,
        /// The filter to apply.
        filter: BackdropFilter,
    },
    /// Draw a linear gradient.
    LinearGradient {
        rect: Rect,
        direction: GradientDirection,
        stops: Vec<ColorStop>,
        repeating: bool,
        border_radius: BorderRadius,
    },
    /// Draw a radial gradient.
    RadialGradient {
        rect: Rect,
        shape: RadialShape,
        size: RadialSize,
        center: Point,
        stops: Vec<ColorStop>,
        repeating: bool,
        border_radius: BorderRadius,
    },
    /// Draw a conic gradient.
    ConicGradient {
        rect: Rect,
        from_angle: Num,
        center: Point,
        stops: Vec<ColorStop>,
        repeating: bool,
        border_radius: BorderRadius,
    },
    /// Draw a text input field.
    TextInput {
        rect: Rect,
        value: String,
        placeholder: String,
        font_size: Num,
        text_color: Color,
        placeholder_color: Color,
        background_color: Color,
        border_color: Color,
        border_width: Num,
        focused: bool,
        caret_position: Option<usize>,
        /// The control's computed font.
        font_family: String,
        font_weight: u16,
        /// The author's padding, zero for a bare control.
        padding: EdgeSizes,
    },
    /// Draw a button.
    Button {
        rect: Rect,
        label: String,
        font_size: Num,
        text_color: Color,
        background_color: Color,
        border_color: Color,
        border_width: Num,
        border_radius: Num,
        pressed: bool,
        focused: bool,
        /// The control's computed font.
        font_family: String,
        font_weight: u16,
        /// The author's padding, zero for a bare control.
        padding: EdgeSizes,
    },
    /// Draw a focus ring around an element.
    FocusRing { rect: Rect, color: Color, width: Num, offset: Num },
    /// Draw a text caret (cursor).
    Caret { x: Num, y: Num, height: Num, color: Color },
    /// Push a clip rect (for overflow handling).
    PushClip(Rect),
    /// Push a clip rect whose corners are rounded.
    PushClipRounded { rect: Rect, radius: BorderRadius },
    /// Solid borders around a border box with rounded corners. `rect` is the
    /// border box and `radius` the outer radius.
    RoundedBorder { rect: Rect, widths: EdgeSizes, colors: EdgeColors, radius: BorderRadius },
    /// Pop clip rect.
    PopClip,
    /// Start stacking context.
    PushStackingContext { z_index: i32, rect: Rect },
    /// End stacking context.
    PopStackingContext,
    /// Push a 2D transform matrix, applied around the origin.
    PushTransform { matrix: Matrix, origin: Point },
    /// Pop a transform matrix.
    PopTransform,
    /// Draw text with a gradient fill (for background-clip: text effect).
    GradientText {
        text: String,
        x: Num,
        y: Num,
        font_size: Num,
        font_family: String,
        font_weight: u16,
        font_style: u8,
        gradient: Gradient,
        rect: Rect,
        /// See `Text`.
        advances: Option<Vec<Num>>,
        ascent: Option<Num>,
    },
    /// Fill a rectangle with solid color.
    FillRect { rect: Rect, color: Color },
    /// Stroke a rectangle.
    StrokeRect { rect: Rect, color: Color, width: Num },
    /// Fill a circle.
    FillCircle { cx: Num, cy: Num, radius: Num, color: Color },
    /// Stroke a circle.
    StrokeCircle { cx: Num, cy: Num, radius: Num, color: Color, width: Num },
    /// Fill an ellipse.
    FillEllipse { rect: Rect, color: Color },
    /// Draw a line.
    Line { x1: Num, y1: Num, x2: Num, y2: Num, color: Color, width: Num },
    /// Draw a polyline (connected line segments).
    Polyline { points: Vec<Point>, color: Color, width: Num },
    /// Fill a polygon.
    FillPolygon { points: Vec<Point>, color: Color },
    /// Stroke a polygon.
    StrokePolygon { points: Vec<Point>, color: Color, width: Num },
}

/// The model of a gradient.
#[verifier::ext_equal]
pub enum GradientV {
    Linear { direction: GradientDirection, stops: Seq<ColorStop>, repeating: bool },
    Radial {
        shape: RadialShape,
        size: RadialSize,
        center: Point,
        stops: Seq<ColorStop>,
        repeating: bool,
    },
    Conic { from_angle: Num, center: Point, stops: Seq<ColorStop>, repeating: bool },
}

impl View for Gradient {
    type V = GradientV;

    open spec fn view(&self) -> GradientV {
        match *self {
            Gradient::Linear(g) => GradientV::Linear {
                direction: g.direction,
                stops: g.stops@,
                repeating: g.repeating,
            },
            Gradient::Radial(g) => GradientV::Radial {
                shape: g.shape,
                size: g.size,
                center: g.center,
                stops: g.stops@,
                repeating: g.repeating,
            },
            Gradient::Conic(g) => GradientV::Conic {
                from_angle: g.from_angle,
                center: g.center,
                stops: g.stops@,
                repeating: g.repeating,
            },
        }
    }
}

/// The font and place of a run of text.
#[verifier::ext_equal]
pub struct RunV {
    pub text: Seq<char>,
    pub x: Num,
    pub y: Num,
    pub font_size: Num,
    pub font_family: Seq<char>,
    pub font_weight: u16,
    pub font_style: u8,
    pub advances: Option<Seq<Num>>,
    pub ascent: Option<Num>,
}

/// A text input field.
#[verifier::ext_equal]
pub struct FieldV {
    pub rect: Rect,
    pub value: Seq<char>,
    pub placeholder: Seq<char>,
    pub font_size: Num,
    pub text_color: Color,
    pub placeholder_color: Color,
    pub background_color: Color,
    pub border_color: Color,
    pub border_width: Num,
    pub focused: bool,
    pub caret_position: Option<usize>,
    pub font_family: Seq<char>,
    pub font_weight: u16,
    pub padding: EdgeSizes,
}

/// The model of a paint command: texts and lists by their contents.
#[verifier::ext_equal]
pub enum CommandV {
    Text { run: RunV, color: Color },
    GradientText { run: RunV, gradient: GradientV, rect: Rect },
    Gradient { gradient: GradientV, rect: Rect, border_radius: BorderRadius },
    Field(FieldV),
    Plain(DisplayCommand),
}

/// The contents of optional advances.
pub open spec fn advances_view(a: Option<Vec<Num>>) -> Option<Seq<Num>> {
    match a {
        Some(v) => Some(v@),
        None => None,
    }
}

impl View for DisplayCommand {
    type V = CommandV;

    open spec fn view(&self) -> CommandV {
        match *self {
            DisplayCommand::Text {
                text,
                x,
                y,
                color,
                font_size,
                font_family,
                font_weight,
                font_style,
                advances,
                ascent,
            } => CommandV::Text {
                run: RunV {
                    text: text@,
                    x,
                    y,
                    font_size,
                    font_family: font_family@,
                    font_weight,
                    font_style,
                    advances: advances_view(advances),
                    ascent,
                },
                color,
            },
            DisplayCommand::GradientText {
                text,
                x,
                y,
                font_size,
                font_family,
                font_weight,
                font_style,
                gradient,
                rect,
                advances,
                ascent,
            } => CommandV::GradientText {
                run: RunV {
                    text: text@,
                    x,
                    y,
                    font_size,
                    font_family: font_family@,
                    font_weight,
                    font_style,
                    advances: advances_view(advances),
                    ascent,
                },
                gradient: gradient@,
                rect,
            },
            DisplayCommand::LinearGradient {
                rect,
                direction,
                stops,
                repeating,
                border_radius,
            } => CommandV::Gradient {
                gradient: GradientV::Linear { direction, stops: stops@, repeating },
                rect,
                border_radius,
            },
            DisplayCommand::RadialGradient {
                rect,
                shape,
                size,
                center,
                stops,
                repeating,
                border_radius,
            } => CommandV::Gradient {
                gradient: GradientV::Radial { shape, size, center, stops: stops@, repeating },
                rect,
                border_radius,
            },
            DisplayCommand::ConicGradient {
                rect,
                from_angle,
                center,
                stops,
                repeating,
                border_radius,
            } => CommandV::Gradient {
                gradient: GradientV::Conic { from_angle, center, stops: stops@, repeating },
                rect,
                border_radius,
            },
            DisplayCommand::TextInput {
                rect,
                value,
                placeholder,
                font_size,
                text_color,
                placeholder_color,
                background_color,
                border_color,
                border_width,
                focused,
                caret_position,
                font_family,
                font_weight,
                padding,
            } => CommandV::Field(
                FieldV {
                    rect,
                    value: value@,
                    placeholder: placeholder@,
                    font_size,
                    text_color,
                    placeholder_color,
                    background_color,
                    border_color,
                    border_width,
                    focused,
                    caret_position,
                    font_family: font_family@,
                    font_weight,
                    padding,
                },
            ),
            _ => CommandV::Plain(*self),
        }
    }
}

/// The models of some commands.
pub open spec fn command_views(v: Seq<DisplayCommand>) -> Seq<CommandV> {
    Seq::new(v.len(), |i: int| v[i]@)
}

/// Adds a command.
pub(crate) fn emit(out: &mut Vec<DisplayCommand>, c: DisplayCommand)
    ensures
        command_views(final(out)@) == command_views(old(out)@) + seq![c@],
{
    out.push(c);
    proof {
        assert(command_views(out@) =~= command_views(old(out)@) + seq![c@]);
    }
}

fn copy_stops(v: &Vec<ColorStop>) -> (r: Vec<ColorStop>)
    ensures
        r@ == v@,
{
    let mut out: Vec<ColorStop> = Vec::new();
    let mut i: usize = 0;
    while i < v.len()
        invariant
            i <= v.len(),
            out@ == v@.take(i as int),
        decreases v.len() - i,
    {
        out.push(v[i]);
        i = i + 1;
        proof {
            assert(out@ =~= v@.take(i as int));
        }
    }
    proof {
        assert(v@.take(i as int) =~= v@);
    }
    out
}

impl Gradient {
    /// A copy of the gradient.
    pub(crate) fn copied(&self) -> (r: Gradient)
        ensures
            r@ == self@,
    {
        match self {
            Gradient::Linear(g) => Gradient::Linear(
                crate::style::LinearGradient {
                    direction: g.direction,
                    stops: copy_stops(&g.stops),
                    repeating: g.repeating,
                },
            ),
            Gradient::Radial(g) => Gradient::Radial(
                crate::style::RadialGradient {
                    shape: g.shape,
                    size: g.size,
                    center: g.center,
                    stops: copy_stops(&g.stops),
                    repeating: g.repeating,
                },
            ),
            Gradient::Conic(g) => Gradient::Conic(
                crate::style::ConicGradient {
                    from_angle: g.from_angle,
                    center: g.center,
                    stops: copy_stops(&g.stops),
                    repeating: g.repeating,
                },
            ),
        }
    }

    /// The command that draws the gradient into a rectangle.
    pub(crate) fn drawn(&self, rect: Rect, border_radius: BorderRadius) -> (r: DisplayCommand)
        ensures
            r@ == (CommandV::Gradient { gradient: self@, rect, border_radius }),
    {
        match self {
            Gradient::Linear(g) => DisplayCommand::LinearGradient {
                rect,
                direction: g.direction,
                stops: copy_stops(&g.stops),
                repeating: g.repeating,
                border_radius,
            },
            Gradient::Radial(g) => DisplayCommand::RadialGradient {
                rect,
                shape: g.shape,
                size: g.size,
                center: g.center,
                stops: copy_stops(&g.stops),
                repeating: g.repeating,
                border_radius,
            },
            Gradient::Conic(g) => DisplayCommand::ConicGradient {
                rect,
                from_angle: g.from_angle,
                center: g.center,
                stops: copy_stops(&g.stops),
                repeating: g.repeating,
                border_radius,
            },
        }
    }
}

/// A clip with its corners: the command that pushes it.
#[derive(Debug, Clone, Copy)]
pub struct Clip {
    pub rect: Rect,
    pub radius: BorderRadius,
}

impl Clip {
    /// The command that pushes the clip.
    pub open spec fn push(self) -> CommandV {
        CommandV::Plain(
            if self.radius.square() {
                DisplayCommand::PushClip(self.rect)
            } else {
                DisplayCommand::PushClipRounded { rect: self.rect, radius: self.radius }
            },
        )
    }

    /// The command that pushes the clip.
    pub(crate) fn pushed(&self) -> (r: DisplayCommand)
        ensures
            r@ == self.push(),
    {
        if self.radius.is_zero() {
            DisplayCommand::PushClip(self.rect)
        } else {
            DisplayCommand::PushClipRounded { rect: self.rect, radius: self.radius }
        }
    }
}

/// The command that ends a clip.
pub open spec fn pop_clip() -> CommandV {
    CommandV::Plain(DisplayCommand::PopClip)
}

} // verus!

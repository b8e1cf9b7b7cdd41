//! Computed style: the property values that layout and paint read.
use vstd::prelude::*;
use crate::geometry::Point;
use crate::num::Num;

verus! {

/// The terms of a `calc()` over lengths and percentages.
#[derive(Debug, Clone, Copy)]
pub struct CalcSum {
    pub px: Num,
    pub percent: Num,
    pub em: Num,
    pub rem: Num,
    pub vw: Num,
    pub vh: Num,
}

/// A CSS length.
#[derive(Debug, Clone, Copy)]
pub enum Length {
    Px(Num),
    Em(Num),
    Rem(Num),
    Percent(Num),
    Vw(Num),
    Vh(Num),
    Calc(CalcSum),
    Auto,
    Zero,
}

impl CalcSum {
    /// The sum of the resolved terms.
    pub open spec fn px_in(
        self,
        font_size: Num,
        root: Num,
        container: Num,
        vw: Num,
        vh: Num,
    ) -> Num {
        self.px + self.percent / Num::whole(100) * container + self.em * font_size + self.rem
            * root + self.vw / Num::whole(100) * vw + self.vh / Num::whole(100) * vh
    }
}

impl Length {
    /// The length in pixels: `em` against the font size, `rem` against the
    /// root font size, percentages against the container, `vw` and `vh`
    /// against the viewport; `auto` counts as zero.
    pub open spec fn px_in(
        self,
        font_size: Num,
        root: Num,
        container: Num,
        vw: Num,
        vh: Num,
    ) -> Num {
        match self {
            Length::Px(v) => v,
            Length::Em(v) => v * font_size,
            Length::Rem(v) => v * root,
            Length::Percent(v) => v / Num::whole(100) * container,
            Length::Vw(v) => v / Num::whole(100) * vw,
            Length::Vh(v) => v / Num::whole(100) * vh,
            Length::Calc(sum) => sum.px_in(font_size, root, container, vw, vh),
            Length::Auto => Num::nought(),
            Length::Zero => Num::nought(),
        }
    }

    /// The length in pixels where no viewport is known.
    pub open spec fn px(self, font_size: Num, root: Num, container: Num) -> Num {
        self.px_in(font_size, root, container, Num::nought(), Num::nought())
    }

    /// Resolves the length to pixels, with the viewport for `vw` and `vh`.
    pub fn to_px_with_viewport(
        &self,
        font_size: Num,
        root: Num,
        container: Num,
        vw: Num,
        vh: Num,
    ) -> (r: Num)
        ensures
            r == self.px_in(font_size, root, container, vw, vh),
    {
        match *self {
            Length::Px(v) => v,
            Length::Em(v) => v * font_size,
            Length::Rem(v) => v * root,
            Length::Percent(v) => v / Num::of(100) * container,
            Length::Vw(v) => v / Num::of(100) * vw,
            Length::Vh(v) => v / Num::of(100) * vh,
            Length::Calc(sum) => sum.px + sum.percent / Num::of(100) * container + sum.em
                * font_size + sum.rem * root + sum.vw / Num::of(100) * vw + sum.vh / Num::of(100)
                * vh,
            Length::Auto => Num::zero(),
            Length::Zero => Num::zero(),
        }
    }

    /// Resolves the length to pixels where no viewport is known.
    pub fn to_px(&self, font_size: Num, root: Num, container: Num) -> (r: Num)
        ensures
            r == self.px(font_size, root, container),
    {
        self.to_px_with_viewport(font_size, root, container, Num::zero(), Num::zero())
    }

    /// Whether the length is `auto`.
    #[verifier::allow_in_spec]
    pub fn is_auto(&self) -> bool
        returns
            *self is Auto,
    {
        matches!(*self, Length::Auto)
    }
}

/// A color with 8-bit channels and an alpha from 0 to 1.
#[derive(Debug, Clone, Copy)]
pub struct Color {
    pub r: u8,
    pub g: u8,
    pub b: u8,
    pub a: Num,
}

impl Color {
    /// A color from its channels.
    pub fn new(r: u8, g: u8, b: u8, a: Num) -> (c: Color)
        ensures
            c == (Color { r, g, b, a }),
    {
        Color { r, g, b, a }
    }

    /// The color of three equal channels at full alpha.
    pub open spec fn gray(v: u8) -> Color {
        Color { r: v, g: v, b: v, a: Num::whole(1) }
    }

    /// Black at zero alpha.
    pub open spec fn clear() -> Color {
        Color { r: 0, g: 0, b: 0, a: Num::nought() }
    }

    /// Equality of the channels.
    pub open spec fn equals(self, o: Color) -> bool {
        self.r == o.r && self.g == o.g && self.b == o.b && self.a.same(o.a)
    }

    /// Black at zero alpha.
    pub fn transparent() -> (c: Color)
        ensures
            c == Color::clear(),
    {
        Color { r: 0, g: 0, b: 0, a: Num::zero() }
    }

    /// Three equal channels at full alpha.
    pub fn opaque_gray(v: u8) -> (c: Color)
        ensures
            c == Color::gray(v),
    {
        Color { r: v, g: v, b: v, a: Num::of(1) }
    }

    /// Compares the channels.
    pub fn is(self, o: Color) -> (r: bool)
        ensures
            r == self.equals(o),
    {
        self.r == o.r && self.g == o.g && self.b == o.b && self.a == o.a
    }
}

#[derive(Debug, Clone, Copy, PartialEq, Eq, Structural)]
pub enum Display {
    Block,
    Inline,
    InlineBlock,
    Flex,
    InlineFlex,
    Grid,
    InlineGrid,
    TableCell,
    TableCaption,
    FlowRoot,
    /// `display: none`.
    Gone,
}

impl Display {
    /// Whether this is a flex container.
    #[verifier::allow_in_spec]
    pub fn is_flex(&self) -> bool
        returns
            *self == Display::Flex || *self == Display::InlineFlex,
    {
        *self == Display::Flex || *self == Display::InlineFlex
    }

    /// Whether this is a grid container.
    #[verifier::allow_in_spec]
    pub fn is_grid(&self) -> bool
        returns
            *self == Display::Grid || *self == Display::InlineGrid,
    {
        *self == Display::Grid || *self == Display::InlineGrid
    }

    /// Whether this is an inline block.
    #[verifier::allow_in_spec]
    pub fn is_inline_block(&self) -> bool
        returns
            *self == Display::InlineBlock,
    {
        *self == Display::InlineBlock
    }

    /// Whether the box keeps its content in a formatting context for that
    /// alone: a table cell or caption, or a flow root.
    #[verifier::allow_in_spec]
    pub fn is_flow_root(&self) -> bool
        returns
            *self == Display::TableCell || *self == Display::TableCaption || *self
                == Display::FlowRoot,
    {
        *self == Display::TableCell || *self == Display::TableCaption || *self == Display::FlowRoot
    }

    /// Whether the box is one unbreakable item on its line.
    #[verifier::allow_in_spec]
    pub fn is_atomic_inline(&self) -> bool
        returns
            *self == Display::InlineBlock || *self == Display::InlineFlex || *self
                == Display::InlineGrid,
    {
        *self == Display::InlineBlock || *self == Display::InlineFlex || *self
            == Display::InlineGrid
    }
}

#[derive(Debug, Clone, Copy, PartialEq, Eq, Structural)]
pub enum Overflow {
    Visible,
    Hidden,
    Scroll,
    Auto,
    Clip,
}

#[derive(Debug, Clone, Copy, PartialEq, Eq, Structural)]
pub enum WhiteSpace {
    Normal,
    Nowrap,
    Pre,
    PreWrap,
    PreLine,
    BreakSpaces,
}

#[derive(Debug, Clone, Copy, PartialEq, Eq, Structural)]
pub enum WordBreak {
    Normal,
    BreakAll,
    KeepAll,
    BreakWord,
}

#[derive(Debug, Clone, Copy, PartialEq, Eq, Structural)]
pub enum LineBreak {
    Auto,
    Loose,
    Normal,
    Strict,
    Anywhere,
}

#[derive(Debug, Clone, Copy, PartialEq, Eq, Structural)]
pub enum OverflowWrap {
    Normal,
    BreakWord,
    Anywhere,
}

#[derive(Debug, Clone, Copy, PartialEq, Eq, Structural)]
pub enum VerticalAlign {
    Baseline,
    Sub,
    Super,
    Top,
    TextTop,
    Middle,
    Bottom,
    TextBottom,
}

#[derive(Debug, Clone, Copy, PartialEq, Eq, Structural)]
pub enum TextAlign {
    Left,
    Right,
    Center,
    Justify,
}

#[derive(Debug, Clone, Copy, PartialEq, Eq, Structural)]
pub enum TextOverflow {
    Clip,
    Ellipsis,
}

#[derive(Debug, Clone, Copy, PartialEq, Eq, Structural)]
pub enum TextTransform {
    /// `text-transform: none`.
    Unchanged,
    Uppercase,
    Lowercase,
    Capitalize,
}

#[derive(Debug, Clone, Copy, PartialEq, Eq, Structural)]
pub enum BoxSizing {
    ContentBox,
    BorderBox,
}

#[derive(Debug, Clone, Copy, PartialEq, Eq, Structural)]
pub enum FontStyle {
    Normal,
    Italic,
    Oblique,
}

#[derive(Debug, Clone, Copy, PartialEq, Eq, Structural)]
pub enum FontStretch {
    Condensed,
    Normal,
    Expanded,
}

/// A font weight from 1 to 1000.
#[derive(Debug, Clone, Copy, PartialEq, Eq, Structural)]
pub struct FontWeight(pub u16);

/// The `position` the author gave, which may differ from the one a box is
/// laid out with.
#[derive(Debug, Clone, Copy, PartialEq, Eq, Structural)]
pub enum StylePosition {
    Static,
    Relative,
    Absolute,
    Fixed,
    Sticky,
}

#[derive(Debug, Clone, Copy)]
pub enum LineHeight {
    Normal,
    Number(Num),
    Px(Num),
}

impl LineHeight {
    /// The height in pixels, with the flat ratio 1.2 for `normal`.
    pub open spec fn px(self, font_size: Num) -> Num {
        match self {
            LineHeight::Normal => font_size * Num::ratio(12, 10),
            LineHeight::Number(n) => n * font_size,
            LineHeight::Px(px) => px,
        }
    }

    /// Resolves the line height without font metrics.
    pub fn to_px(&self, font_size: Num) -> (r: Num)
        ensures
            r == self.px(font_size),
    {
        match *self {
            LineHeight::Normal => font_size * Num::frac(12, 10),
            LineHeight::Number(n) => n * font_size,
            LineHeight::Px(px) => px,
        }
    }

    /// Whether the height is `normal`.
    #[verifier::allow_in_spec]
    pub fn is_normal(&self) -> bool
        returns
            *self is Normal,
    {
        matches!(*self, LineHeight::Normal)
    }
}

#[derive(Debug, Clone, Copy, PartialEq, Eq, Structural)]
pub enum BorderStyle {
    /// `border-style: none`.
    Absent,
    Solid,
    Dashed,
    Dotted,
}

#[derive(Debug, Clone, Copy, PartialEq, Eq, Structural)]
pub enum BackgroundClip {
    BorderBox,
    PaddingBox,
    ContentBox,
    Text,
}

#[derive(Debug, Clone, Copy, PartialEq, Eq, Structural)]
pub enum TextDecorationStyle {
    Solid,
    Double,
    Dotted,
    Dashed,
    Wavy,
}

/// Which decoration lines a run carries.
#[derive(Debug, Clone, Copy, PartialEq, Eq, Structural)]
pub struct TextDecorationLine {
    pub underline: bool,
    pub overline: bool,
    pub line_through: bool,
}

/// A box shadow. `visible` says whether it paints anything.
#[derive(Debug, Clone, Copy)]
pub struct BoxShadow {
    pub offset_x: Num,
    pub offset_y: Num,
    pub blur_radius: Num,
    pub spread_radius: Num,
    pub color: Color,
    pub inset: bool,
    pub visible: bool,
}

/// A backdrop filter.
#[derive(Debug, Clone, Copy)]
pub enum BackdropFilter {
    /// `backdrop-filter: none`.
    Absent,
    Blur(Num),
    Brightness(Num),
    Contrast(Num),
    Grayscale(Num),
    Saturate(Num),
}

#[derive(Debug, Clone, Copy)]
pub struct ColorStop {
    pub color: Color,
    pub position: Option<Num>,
}

#[derive(Debug, Clone, Copy)]
pub enum GradientDirection {
    ToTop,
    ToRight,
    ToBottom,
    ToLeft,
    ToTopRight,
    ToTopLeft,
    ToBottomRight,
    ToBottomLeft,
    Angle(Num),
}

#[derive(Debug, Clone, Copy, PartialEq, Eq, Structural)]
pub enum RadialShape {
    Circle,
    Ellipse,
}

#[derive(Debug, Clone, Copy, PartialEq, Eq, Structural)]
pub enum RadialSize {
    ClosestSide,
    FarthestSide,
    ClosestCorner,
    FarthestCorner,
}

#[derive(Debug, Clone)]
pub struct LinearGradient {
    pub direction: GradientDirection,
    pub stops: Vec<ColorStop>,
    pub repeating: bool,
}

#[derive(Debug, Clone)]
pub struct RadialGradient {
    pub shape: RadialShape,
    pub size: RadialSize,
    pub center: Point,
    pub stops: Vec<ColorStop>,
    pub repeating: bool,
}

#[derive(Debug, Clone)]
pub struct ConicGradient {
    pub from_angle: Num,
    pub center: Point,
    pub stops: Vec<ColorStop>,
    pub repeating: bool,
}

#[derive(Debug, Clone)]
pub enum Gradient {
    Linear(LinearGradient),
    Radial(RadialGradient),
    Conic(ConicGradient),
}

/// One coordinate of a background position: a fraction of the free space, or
/// pixels.
#[derive(Debug, Clone, Copy)]
pub enum BackgroundPositionValue {
    Percent(Num),
    Px(Num),
}

impl BackgroundPositionValue {
    /// The offset in a container for an image of the given size.
    pub open spec fn px(self, container: Num, size: Num) -> Num {
        match self {
            BackgroundPositionValue::Percent(p) => (container - size) * p,
            BackgroundPositionValue::Px(v) => v,
        }
    }

    /// Resolves the offset in a container for an image of the given size.
    pub fn to_px(&self, container: Num, size: Num) -> (r: Num)
        ensures
            r == self.px(container, size),
    {
        match *self {
            BackgroundPositionValue::Percent(p) => (container - size) * p,
            BackgroundPositionValue::Px(v) => v,
        }
    }
}

#[derive(Debug, Clone, Copy)]
pub struct BackgroundPosition {
    pub x: BackgroundPositionValue,
    pub y: BackgroundPositionValue,
}

#[derive(Debug, Clone)]
pub enum BackgroundImage {
    /// `background-image: none`.
    Absent,
    Gradient(Gradient),
    Url(String),
}

/// CSS background-size values. A negative explicit size is a percentage.
#[derive(Debug, Clone, Copy)]
pub enum BackgroundSize {
    Cover,
    Contain,
    Explicit { width: Option<Num>, height: Option<Num> },
    Auto,
}

/// CSS background-repeat values.
#[derive(Debug, Clone, Copy, PartialEq, Eq, Structural)]
pub enum BackgroundRepeat {
    /// Repeat in both directions
    Repeat,
    /// Repeat horizontally only
    RepeatX,
    /// Repeat vertically only
    RepeatY,
    /// No repeat
    NoRepeat,
    /// Space evenly
    Space,
    /// Round to fill
    Round,
}

#[derive(Debug, Clone)]
pub struct BackgroundLayer {
    pub image: BackgroundImage,
    pub size: BackgroundSize,
    pub position: BackgroundPosition,
    pub repeat: BackgroundRepeat,
}

/// A 2D transform: a matrix whose translation may also grow with the width
/// and height of the border box.
#[derive(Debug, Clone, Copy)]
pub struct Transform {
    pub a: Num,
    pub b: Num,
    pub c: Num,
    pub d: Num,
    pub e: Num,
    pub f: Num,
    pub e_per_width: Num,
    pub e_per_height: Num,
    pub f_per_width: Num,
    pub f_per_height: Num,
}

/// The computed values of one box.
#[derive(Debug, Clone)]
pub struct ComputedStyle {
    pub display: Display,
    pub position: StylePosition,
    pub top: Option<Length>,
    pub right: Option<Length>,
    pub bottom: Option<Length>,
    pub left: Option<Length>,
    pub width: Length,
    pub height: Length,
    pub min_width: Length,
    pub min_height: Length,
    pub max_width: Length,
    pub max_height: Length,
    pub margin_top: Length,
    pub margin_right: Length,
    pub margin_bottom: Length,
    pub margin_left: Length,
    pub padding_top: Length,
    pub padding_right: Length,
    pub padding_bottom: Length,
    pub padding_left: Length,
    pub border_top_width: Length,
    pub border_right_width: Length,
    pub border_bottom_width: Length,
    pub border_left_width: Length,
    pub border_top_color: Color,
    pub border_right_color: Color,
    pub border_bottom_color: Color,
    pub border_left_color: Color,
    pub border_top_style: BorderStyle,
    pub border_right_style: BorderStyle,
    pub border_bottom_style: BorderStyle,
    pub border_left_style: BorderStyle,
    pub border_top_left_radius: Length,
    pub border_top_right_radius: Length,
    pub border_bottom_right_radius: Length,
    pub border_bottom_left_radius: Length,
    pub box_sizing: BoxSizing,
    pub aspect_ratio: Option<Num>,
    pub overflow_x: Overflow,
    pub overflow_y: Overflow,
    pub column_count: Option<u32>,
    pub column_gap: Length,
    pub color: Color,
    pub font_size: Length,
    pub font_family: String,
    pub font_weight: FontWeight,
    pub font_style: FontStyle,
    pub font_stretch: FontStretch,
    pub line_height: LineHeight,
    pub letter_spacing: Length,
    pub word_spacing: Length,
    pub white_space: WhiteSpace,
    pub word_break: WordBreak,
    pub line_break: LineBreak,
    pub overflow_wrap: OverflowWrap,
    pub vertical_align: VerticalAlign,
    pub text_align: TextAlign,
    pub text_overflow: TextOverflow,
    pub text_transform: TextTransform,
    pub text_decoration_line: TextDecorationLine,
    pub text_decoration_color: Option<Color>,
    pub text_decoration_style: TextDecorationStyle,
    pub text_decoration_thickness: Length,
    pub webkit_text_fill_color: Option<Color>,
    pub background_color: Color,
    pub background_clip: BackgroundClip,
    pub background_gradient: Option<Gradient>,
    pub background_layers: Vec<BackgroundLayer>,
    pub backdrop_filter: BackdropFilter,
    pub box_shadows: Vec<BoxShadow>,
    pub transform: Option<Transform>,
    pub transform_origin_x: Length,
    pub transform_origin_y: Length,
    pub opacity: Num,
    pub object_fit: String,
    pub object_position: Point,
}

impl ComputedStyle {
    /// The font size in pixels: 16 for one that is not absolute.
    pub open spec fn font_px(self) -> Num {
        match self.font_size {
            Length::Px(px) => px,
            _ => Num::whole(16),
        }
    }

    /// The font size in pixels.
    pub fn font_size_px(&self) -> (r: Num)
        ensures
            r == self.font_px(),
    {
        match self.font_size {
            Length::Px(px) => px,
            _ => Num::of(16),
        }
    }

    /// A spacing value in pixels; `normal` and percentages are none.
    pub open spec fn spacing(l: Length, font_size: Num) -> Num {
        match l {
            Length::Px(px) => px,
            Length::Em(em) => em * font_size,
            Length::Rem(rem) => rem * Num::whole(16),
            _ => Num::nought(),
        }
    }

    pub(crate) fn spacing_px(l: Length, font_size: Num) -> (r: Num)
        ensures
            r == ComputedStyle::spacing(l, font_size),
    {
        match l {
            Length::Px(px) => px,
            Length::Em(em) => em * font_size,
            Length::Rem(rem) => rem * Num::of(16),
            _ => Num::zero(),
        }
    }

    /// Whether lines may not break between words.
    pub open spec fn no_wrap(self) -> bool {
        self.white_space == WhiteSpace::Nowrap || self.white_space == WhiteSpace::Pre
    }

    pub(crate) fn is_no_wrap(&self) -> (r: bool)
        ensures
            r == self.no_wrap(),
    {
        self.white_space == WhiteSpace::Nowrap || self.white_space == WhiteSpace::Pre
    }

    /// Whether the overflow of either axis is clipped.
    pub open spec fn clips(self) -> bool {
        self.overflow_x != Overflow::Visible || self.overflow_y != Overflow::Visible
    }

    pub(crate) fn is_clipping(&self) -> (r: bool)
        ensures
            r == self.clips(),
    {
        self.overflow_x != Overflow::Visible || self.overflow_y != Overflow::Visible
    }

    /// The `word-break` that breaks lines: `line-break: anywhere` breaks
    /// between any two characters, whatever `word-break` says.
    pub open spec fn used_word_break(self) -> WordBreak {
        if self.line_break == LineBreak::Anywhere {
            WordBreak::BreakAll
        } else {
            self.word_break
        }
    }

    /// A style of initial values.
    pub fn new() -> (s: ComputedStyle)
        ensures
            s.display == Display::Block,
            s.position == StylePosition::Static,
            s.top is None && s.right is None && s.bottom is None && s.left is None,
            s.width is Auto && s.height is Auto && s.max_width is Auto && s.max_height is Auto,
            s.min_width is Zero && s.min_height is Zero,
            s.margin_top is Zero && s.margin_right is Zero,
            s.margin_bottom is Zero && s.margin_left is Zero,
            s.padding_top is Zero && s.padding_right is Zero,
            s.padding_bottom is Zero && s.padding_left is Zero,
            s.border_top_width is Zero && s.border_right_width is Zero,
            s.border_bottom_width is Zero && s.border_left_width is Zero,
            s.border_top_left_radius is Zero && s.border_top_right_radius is Zero,
            s.border_bottom_right_radius is Zero && s.border_bottom_left_radius is Zero,
            s.border_top_style == BorderStyle::Solid && s.border_right_style == BorderStyle::Solid,
            s.border_bottom_style == BorderStyle::Solid && s.border_left_style
                == BorderStyle::Solid,
            s.border_top_color == Color::gray(0) && s.border_right_color == Color::gray(0),
            s.border_bottom_color == Color::gray(0) && s.border_left_color == Color::gray(0),
            s.box_sizing == BoxSizing::ContentBox,
            s.aspect_ratio is None && s.column_count is None && s.column_gap is Zero,
            s.overflow_x == Overflow::Visible && s.overflow_y == Overflow::Visible,
            s.color == Color::gray(0),
            s.font_size == Length::Px(Num::whole(16)),
            s.font_family@ == "sans-serif"@,
            s.font_weight == FontWeight(400),
            s.font_style == FontStyle::Normal && s.font_stretch == FontStretch::Normal,
            s.line_height is Normal && s.letter_spacing is Zero && s.word_spacing is Zero,
            s.white_space == WhiteSpace::Normal && s.word_break == WordBreak::Normal,
            s.line_break == LineBreak::Auto && s.overflow_wrap == OverflowWrap::Normal,
            s.vertical_align == VerticalAlign::Baseline && s.text_align == TextAlign::Left,
            s.text_overflow == TextOverflow::Clip && s.text_transform == TextTransform::Unchanged,
            s.text_decoration_line == (TextDecorationLine {
                underline: false,
                overline: false,
                line_through: false,
            }),
            s.text_decoration_color is None,
            s.text_decoration_style == TextDecorationStyle::Solid,
            s.text_decoration_thickness is Auto,
            s.webkit_text_fill_color is None,
            s.background_color == Color::clear() && s.background_clip
                == BackgroundClip::BorderBox,
            s.background_gradient is None && s.background_layers@.len() == 0,
            s.backdrop_filter is Absent && s.box_shadows@.len() == 0,
            s.transform is None && s.opacity == Num::whole(1),
            s.transform_origin_x == Length::Percent(Num::whole(50)),
            s.transform_origin_y == Length::Percent(Num::whole(50)),
            s.object_fit@ == "fill"@,
            s.object_position == (Point { x: Num::ratio(1, 2), y: Num::ratio(1, 2) }),
    {
        let black = Color::opaque_gray(0);
        ComputedStyle {
            display: Display::Block,
            position: StylePosition::Static,
            top: None,
            right: None,
            bottom: None,
            left: None,
            width: Length::Auto,
            height: Length::Auto,
            min_width: Length::Zero,
            min_height: Length::Zero,
            max_width: Length::Auto,
            max_height: Length::Auto,
            margin_top: Length::Zero,
            margin_right: Length::Zero,
            margin_bottom: Length::Zero,
            margin_left: Length::Zero,
            padding_top: Length::Zero,
            padding_right: Length::Zero,
            padding_bottom: Length::Zero,
            padding_left: Length::Zero,
            border_top_width: Length::Zero,
            border_right_width: Length::Zero,
            border_bottom_width: Length::Zero,
            border_left_width: Length::Zero,
            border_top_color: black,
            border_right_color: black,
            border_bottom_color: black,
            border_left_color: black,
            border_top_style: BorderStyle::Solid,
            border_right_style: BorderStyle::Solid,
            border_bottom_style: BorderStyle::Solid,
            border_left_style: BorderStyle::Solid,
            border_top_left_radius: Length::Zero,
            border_top_right_radius: Length::Zero,
            border_bottom_right_radius: Length::Zero,
            border_bottom_left_radius: Length::Zero,
            box_sizing: BoxSizing::ContentBox,
            aspect_ratio: None,
            overflow_x: Overflow::Visible,
            overflow_y: Overflow::Visible,
            column_count: None,
            column_gap: Length::Zero,
            color: black,
            font_size: Length::Px(Num::of(16)),
            font_family: "sans-serif".to_owned(),
            font_weight: FontWeight(400),
            font_style: FontStyle::Normal,
            font_stretch: FontStretch::Normal,
            line_height: LineHeight::Normal,
            letter_spacing: Length::Zero,
            word_spacing: Length::Zero,
            white_space: WhiteSpace::Normal,
            word_break: WordBreak::Normal,
            line_break: LineBreak::Auto,
            overflow_wrap: OverflowWrap::Normal,
            vertical_align: VerticalAlign::Baseline,
            text_align: TextAlign::Left,
            text_overflow: TextOverflow::Clip,
            text_transform: TextTransform::Unchanged,
            text_decoration_line: TextDecorationLine {
                underline: false,
                overline: false,
                line_through: false,
            },
            text_decoration_color: None,
            text_decoration_style: TextDecorationStyle::Solid,
            text_decoration_thickness: Length::Auto,
            webkit_text_fill_color: None,
            background_color: Color::transparent(),
            background_clip: BackgroundClip::BorderBox,
            background_gradient: None,
            background_layers: Vec::new(),
            backdrop_filter: BackdropFilter::Absent,
            box_shadows: Vec::new(),
            transform: None,
            transform_origin_x: Length::Percent(Num::of(50)),
            transform_origin_y: Length::Percent(Num::of(50)),
            opacity: Num::of(1),
            object_fit: "fill".to_owned(),
            object_position: Point { x: Num::frac(1, 2), y: Num::frac(1, 2) },
        }
    }
}

/// The `word-break` the line breaker should run with.
pub fn effective_word_break(style: &ComputedStyle) -> (r: WordBreak)
    ensures
        r == style.used_word_break(),
{
    if style.line_break == LineBreak::Anywhere {
        WordBreak::BreakAll
    } else {
        style.word_break
    }
}

} // verus!

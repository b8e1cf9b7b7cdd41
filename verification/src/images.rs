//! Fitting images and backgrounds into boxes.
use vstd::prelude::*;
use crate::casing;
use crate::exact;
use crate::geometry::{Point, Rect};
use crate::num::Num;
use crate::style::{BackgroundRepeat, BackgroundSize, Length};
use crate::text;

verus! {

/// CSS object-fit values for images.
#[derive(Debug, Clone, Copy, PartialEq, Eq, Structural)]
pub enum ObjectFit {
    /// Fill the box, possibly distorting the image
    Fill,
    /// Scale to fit inside the box, preserving aspect ratio
    Contain,
    /// Scale to cover the box, preserving aspect ratio
    Cover,
    /// Don't scale the image (`none`)
    Natural,
    /// Like contain but never scale up
    ScaleDown,
}

impl Default for ObjectFit {
    fn default() -> (r: ObjectFit)
        ensures
            r == ObjectFit::Fill,
    {
        ObjectFit::Fill
    }
}

/// Result of computing image draw rectangle
#[derive(Debug, Clone, Copy)]
pub struct ImageDrawRect {
    /// Destination rectangle
    pub dest: Rect,
    /// Source rectangle (for cropping, e.g., in cover mode)
    pub src: Option<Rect>,
}

/// A size of the given proportions that fits inside a container and touches
/// two of its sides.
pub open spec fn contained(container: Rect, aspect: Num) -> (Num, Num) {
    if aspect > container.width / container.height {
        (container.width, container.width / aspect)
    } else {
        (container.height * aspect, container.height)
    }
}

/// A size of the given proportions that covers a container and no more.
pub open spec fn covering(container: Rect, aspect: Num) -> (Num, Num) {
    if aspect > container.width / container.height {
        (container.height * aspect, container.height)
    } else {
        (container.width, container.width / aspect)
    }
}

fn contain_size(container: &Rect, aspect: Num) -> (r: (Num, Num))
    ensures
        r == contained(*container, aspect),
{
    if aspect > container.width / container.height {
        (container.width, container.width / aspect)
    } else {
        (container.height * aspect, container.height)
    }
}

fn cover_size(container: &Rect, aspect: Num) -> (r: (Num, Num))
    ensures
        r == covering(*container, aspect),
{
    if aspect > container.width / container.height {
        (container.height * aspect, container.height)
    } else {
        (container.width, container.width / aspect)
    }
}

/// Whether either side of an image is zero.
pub open spec fn sizeless(width: Num, height: Num) -> bool {
    width.same(Num::nought()) || height.same(Num::nought())
}

impl ObjectFit {
    /// The value of a keyword in lower case; any other text means `fill`.
    pub open spec fn of(s: Seq<char>) -> ObjectFit {
        if s == "contain"@ {
            ObjectFit::Contain
        } else if s == "cover"@ {
            ObjectFit::Cover
        } else if s == "none"@ {
            ObjectFit::Natural
        } else if s == "scale-down"@ {
            ObjectFit::ScaleDown
        } else {
            ObjectFit::Fill
        }
    }

    /// The size an image is drawn at.
    pub open spec fn size(self, container: Rect, width: Num, height: Num) -> (Num, Num) {
        let aspect = width / height;
        match self {
            ObjectFit::Fill => (container.width, container.height),
            ObjectFit::Contain => contained(container, aspect),
            ObjectFit::Cover => covering(container, aspect),
            ObjectFit::Natural => (width, height),
            ObjectFit::ScaleDown => if width <= container.width && height <= container.height {
                (width, height)
            } else {
                contained(container, aspect)
            },
        }
    }

    /// Where an image is drawn: at its size, the free space split by the
    /// position. An image without a size takes the container.
    pub open spec fn fitted(
        self,
        container: Rect,
        width: Num,
        height: Num,
        position: Point,
    ) -> Rect {
        if sizeless(width, height) {
            container
        } else {
            let (w, h) = self.size(container, width, height);
            Rect {
                x: container.x + (container.width - w) * position.x,
                y: container.y + (container.height - h) * position.y,
                width: w,
                height: h,
            }
        }
    }

    /// The value of a keyword in lower case.
    pub fn from_keyword(keyword: &String) -> (r: ObjectFit)
        ensures
            r == ObjectFit::of(keyword@),
    {
        if text::is_word(keyword, "contain") {
            ObjectFit::Contain
        } else if text::is_word(keyword, "cover") {
            ObjectFit::Cover
        } else if text::is_word(keyword, "none") {
            ObjectFit::Natural
        } else if text::is_word(keyword, "scale-down") {
            ObjectFit::ScaleDown
        } else {
            ObjectFit::Fill
        }
    }

    /// Parse from CSS value
    pub fn from_css(value: &str) -> (r: ObjectFit)
        ensures
            r == ObjectFit::of(casing::lowercased(text::trimmed(value@))),
    {
        let trimmed = text::trim(value);
        ObjectFit::from_keyword(&casing::to_lowercase(trimmed.as_str()))
    }

    /// Calculate the image rectangle within a container
    pub fn compute_rect(
        &self,
        container: Rect,
        image_width: Num,
        image_height: Num,
        position: Point,
    ) -> (r: ImageDrawRect)
        ensures
            r == (ImageDrawRect {
                dest: self.fitted(container, image_width, image_height, position),
                src: None,
            }),
    {
        if image_width == Num::zero() || image_height == Num::zero() {
            return ImageDrawRect { dest: container, src: None };
        }
        let aspect = image_width / image_height;
        let (w, h) = match *self {
            ObjectFit::Fill => (container.width, container.height),
            ObjectFit::Contain => contain_size(&container, aspect),
            ObjectFit::Cover => cover_size(&container, aspect),
            ObjectFit::Natural => (image_width, image_height),
            ObjectFit::ScaleDown => if image_width <= container.width && image_height
                <= container.height {
                (image_width, image_height)
            } else {
                contain_size(&container, aspect)
            },
        };
        ImageDrawRect {
            dest: Rect {
                x: container.x + (container.width - w) * position.x,
                y: container.y + (container.height - h) * position.y,
                width: w,
                height: h,
            },
            src: None,
        }
    }
}

/// `fill` draws over exactly the size of the container.
pub proof fn lemma_fill_takes_container(container: Rect, width: Num, height: Num, position: Point)
    ensures
        ObjectFit::Fill.fitted(container, width, height, position).width == container.width,
        ObjectFit::Fill.fitted(container, width, height, position).height == container.height,
{
}

/// An image that fits is drawn by `scale-down` at its natural size.
pub proof fn lemma_scale_down_never_enlarges(
    container: Rect,
    width: Num,
    height: Num,
    position: Point,
)
    requires
        width <= container.width,
        height <= container.height,
        !sizeless(width, height),
    ensures
        ObjectFit::ScaleDown.fitted(container, width, height, position)
            == ObjectFit::Natural.fitted(container, width, height, position),
{
}

/// An image that does not fit is drawn by `scale-down` as by `contain`.
pub proof fn lemma_scale_down_contains(container: Rect, width: Num, height: Num, position: Point)
    requires
        !(width <= container.width && height <= container.height),
    ensures
        ObjectFit::ScaleDown.fitted(container, width, height, position)
            == ObjectFit::Contain.fitted(container, width, height, position),
{
}

/// `scale-down` draws an image no larger than it is and no larger than its
/// container. An image that is scaled must keep its proportions as rounding
/// gives them: neither they nor those of the container may round up, and one
/// that is too wide without being too high must be found wider.
pub proof fn lemma_scale_down_stays_inside(
    container: Rect,
    width: Num,
    height: Num,
    position: Point,
)
    requires
        container.width.positive(),
        container.height.positive(),
        width.positive(),
        height.positive(),
        !(width <= container.width && height <= container.height) ==> {
            let aspect = width / height;
            let wide = container.width / container.height;
            if aspect > wide {
                width / aspect <= height
            } else {
                &&& height * aspect <= width
                &&& container.height * wide <= container.width
                &&& container.height <= height
            }
        },
    ensures
        ({
            let r = ObjectFit::ScaleDown.fitted(container, width, height, position);
            &&& r.width <= width && r.height <= height
            &&& r.width <= container.width && r.height <= container.height
        }),
{
    let aspect = width / height;
    let wide = container.width / container.height;
    crate::margin_collapse::lemma_zero_is_number();
    assert(!sizeless(width, height)) by {
        reveal(Num::rank);
    }
    if !(width <= container.width && height <= container.height) {
        exact::lemma_quotient_is_number(width, height);
        exact::lemma_quotient_is_number(container.width, container.height);
        if aspect > wide {
            if width <= container.width {
                exact::lemma_wider_by_value(width, height, container.width, container.height);
            }
            exact::lemma_divides_below(container.width, container.height, aspect);
            exact::lemma_dividing_keeps_order(container.width, width, aspect);
        } else {
            exact::lemma_products_keep_order(
                container.height,
                aspect,
                container.height,
                wide,
            );
            exact::lemma_products_keep_order(container.height, aspect, height, aspect);
        }
    }
}

/// `contain` and `cover` take one side of the container each, and opposite
/// ones.
pub proof fn lemma_contain_and_cover_touch(container: Rect, aspect: Num)
    ensures
        contained(container, aspect).0 == container.width && covering(container, aspect).1
            == container.height || contained(container, aspect).1 == container.height && covering(
            container,
            aspect,
        ).0 == container.width,
{
}

impl Default for BackgroundSize {
    fn default() -> (r: BackgroundSize)
        ensures
            r is Auto,
    {
        BackgroundSize::Auto
    }
}

/// The length of the word a text starts with.
pub open spec fn word_len(s: Seq<char>) -> nat
    decreases s.len(),
{
    if s.len() == 0 || text::white(s.first()) {
        0
    } else {
        1 + word_len(s.drop_first())
    }
}

/// The first word of a text.
pub open spec fn first_word(s: Seq<char>) -> Option<Seq<char>> {
    let t = text::trimmed_start(s);
    if t.len() == 0 {
        None
    } else {
        Some(t.take(word_len(t) as int))
    }
}

/// A text behind its first word.
pub open spec fn after_word(s: Seq<char>) -> Seq<char> {
    let t = text::trimmed_start(s);
    t.skip(word_len(t) as int)
}

/// A length as a background size: pixels, or zero.
pub open spec fn px_of(l: Option<Length>) -> Option<Num> {
    match l {
        Some(Length::Px(v)) => Some(v),
        Some(Length::Zero) => Some(Num::nought()),
        _ => None,
    }
}

fn length_px(l: Option<Length>) -> (r: Option<Num>)
    ensures
        r == px_of(l),
{
    match l {
        Some(Length::Px(v)) => Some(v),
        Some(Length::Zero) => Some(Num::zero()),
        _ => None,
    }
}

proof fn lemma_word_len_step(s: Seq<char>, n: int)
    requires
        0 <= n <= s.len(),
        forall|i: int| 0 <= i < n ==> !text::white(#[trigger] s[i]),
        n < s.len() ==> text::white(s[n]),
    ensures
        word_len(s) == n,
    decreases n,
{
    if n > 0 {
        let t = s.drop_first();
        assert forall|i: int| 0 <= i < n - 1 implies !text::white(#[trigger] t[i]) by {
            assert(t[i] == s[i + 1]);
        }
        lemma_word_len_step(t, n - 1);
    }
}

fn split_first(s: &String) -> (r: Option<(String, String)>)
    ensures
        match r {
            Some((word, rest)) => first_word(s@) == Some(word@) && rest@ == after_word(s@),
            None => first_word(s@) is None,
        },
{
    let t = text::trim_start(s.as_str());
    let u: &str = t.as_str();
    let len: usize = u.unicode_len();
    if len == 0 {
        return None;
    }
    let mut n: usize = 0;
    while n < len && !text::is_white(u.get_char(n))
        invariant
            n <= len,
            len == u@.len(),
            forall|i: int| 0 <= i < n ==> !text::white(#[trigger] u@[i]),
        decreases len - n,
    {
        n = n + 1;
    }
    proof {
        lemma_word_len_step(u@, n as int);
    }
    let word = u.substring_char(0, n).to_owned();
    let rest = u.substring_char(n, len).to_owned();
    proof {
        assert(word@ =~= u@.take(n as int));
        assert(rest@ =~= u@.skip(n as int));
    }
    Some((word, rest))
}

impl BackgroundSize {
    /// The value of a trimmed text in lower case: a keyword, else explicit
    /// lengths.
    pub open spec fn of(
        s: Seq<char>,
        width: Option<Length>,
        height: Option<Length>,
    ) -> BackgroundSize {
        if s == "cover"@ {
            BackgroundSize::Cover
        } else if s == "contain"@ {
            BackgroundSize::Contain
        } else if s == "auto"@ {
            BackgroundSize::Auto
        } else {
            BackgroundSize::Explicit { width: px_of(width), height: px_of(height) }
        }
    }

    /// The first two words of a value, which are lengths where it is no
    /// keyword.
    pub fn length_words(value: &String) -> (r: (Option<String>, Option<String>))
        ensures
            match r.0 {
                Some(w) => first_word(value@) == Some(w@),
                None => first_word(value@) is None,
            },
            match r.1 {
                Some(w) => first_word(value@) is Some && first_word(after_word(value@)) == Some(
                    w@,
                ),
                None => first_word(value@) is None || first_word(after_word(value@)) is None,
            },
    {
        match split_first(value) {
            Some((first, rest)) => match split_first(&rest) {
                Some((second, _)) => (Some(first), Some(second)),
                None => (Some(first), None),
            },
            None => (None, None),
        }
    }

    /// The value of a trimmed text in lower case, given what its words parse
    /// to as lengths.
    pub fn from_keyword(
        keyword: &String,
        width: Option<Length>,
        height: Option<Length>,
    ) -> (r: BackgroundSize)
        ensures
            r == BackgroundSize::of(keyword@, width, height),
    {
        if text::is_word(keyword, "cover") {
            BackgroundSize::Cover
        } else if text::is_word(keyword, "contain") {
            BackgroundSize::Contain
        } else if text::is_word(keyword, "auto") {
            BackgroundSize::Auto
        } else {
            BackgroundSize::Explicit { width: length_px(width), height: length_px(height) }
        }
    }

    /// Parse from CSS value. `width` and `height` are what the first two words
    /// of the value parse to as lengths.
    pub fn from_css(value: &str, width: Option<Length>, height: Option<Length>) -> (r:
        BackgroundSize)
        ensures
            r == BackgroundSize::of(
                casing::lowercased(text::trimmed(value@)),
                width,
                height,
            ),
    {
        let trimmed = text::trim(value);
        BackgroundSize::from_keyword(&casing::to_lowercase(trimmed.as_str()), width, height)
    }

    /// The size of a background image; none where the image has none.
    pub open spec fn sized(self, container: Rect, width: Num, height: Num) -> (Num, Num) {
        let aspect = width / height;
        if sizeless(width, height) {
            (Num::nought(), Num::nought())
        } else {
            match self {
                BackgroundSize::Cover => covering(container, aspect),
                BackgroundSize::Contain => contained(container, aspect),
                BackgroundSize::Auto => (width, height),
                BackgroundSize::Explicit { width: w, height: h } => match (w, h) {
                    (Some(w), Some(h)) => (w, h),
                    (Some(w), None) => (w, w / aspect),
                    (None, Some(h)) => (h * aspect, h),
                    (None, None) => (width, height),
                },
            }
        }
    }

    /// Calculate the background image size
    pub fn compute_size(&self, container: Rect, image_width: Num, image_height: Num) -> (r: (
        Num,
        Num,
    ))
        ensures
            r == self.sized(container, image_width, image_height),
    {
        if image_width == Num::zero() || image_height == Num::zero() {
            return (Num::zero(), Num::zero());
        }
        let aspect = image_width / image_height;
        match *self {
            BackgroundSize::Cover => cover_size(&container, aspect),
            BackgroundSize::Contain => contain_size(&container, aspect),
            BackgroundSize::Auto => (image_width, image_height),
            BackgroundSize::Explicit { width, height } => match (width, height) {
                (Some(w), Some(h)) => (w, h),
                (Some(w), None) => (w, w / aspect),
                (None, Some(h)) => (h * aspect, h),
                (None, None) => (image_width, image_height),
            },
        }
    }
}

impl Default for BackgroundRepeat {
    fn default() -> (r: BackgroundRepeat)
        ensures
            r == BackgroundRepeat::Repeat,
    {
        BackgroundRepeat::Repeat
    }
}

impl BackgroundRepeat {
    /// The value of a keyword in lower case; any other text means `repeat`.
    pub open spec fn of(s: Seq<char>) -> BackgroundRepeat {
        if s == "repeat-x"@ {
            BackgroundRepeat::RepeatX
        } else if s == "repeat-y"@ {
            BackgroundRepeat::RepeatY
        } else if s == "no-repeat"@ {
            BackgroundRepeat::NoRepeat
        } else if s == "space"@ {
            BackgroundRepeat::Space
        } else if s == "round"@ {
            BackgroundRepeat::Round
        } else {
            BackgroundRepeat::Repeat
        }
    }

    /// The value of a keyword in lower case.
    pub fn from_keyword(keyword: &String) -> (r: BackgroundRepeat)
        ensures
            r == BackgroundRepeat::of(keyword@),
    {
        if text::is_word(keyword, "repeat-x") {
            BackgroundRepeat::RepeatX
        } else if text::is_word(keyword, "repeat-y") {
            BackgroundRepeat::RepeatY
        } else if text::is_word(keyword, "no-repeat") {
            BackgroundRepeat::NoRepeat
        } else if text::is_word(keyword, "space") {
            BackgroundRepeat::Space
        } else if text::is_word(keyword, "round") {
            BackgroundRepeat::Round
        } else {
            BackgroundRepeat::Repeat
        }
    }

    /// Parse from CSS value
    pub fn from_css(value: &str) -> (r: BackgroundRepeat)
        ensures
            r == BackgroundRepeat::of(casing::lowercased(text::trimmed(value@))),
    {
        let trimmed = text::trim(value);
        BackgroundRepeat::from_keyword(&casing::to_lowercase(trimmed.as_str()))
    }

    /// Check if repeating on x-axis
    #[verifier::allow_in_spec]
    pub fn repeats_x(&self) -> bool
        returns
            *self != BackgroundRepeat::RepeatY && *self != BackgroundRepeat::NoRepeat,
    {
        *self == BackgroundRepeat::Repeat || *self == BackgroundRepeat::RepeatX || *self
            == BackgroundRepeat::Space || *self == BackgroundRepeat::Round
    }

    /// Check if repeating on y-axis
    #[verifier::allow_in_spec]
    pub fn repeats_y(&self) -> bool
        returns
            *self != BackgroundRepeat::RepeatX && *self != BackgroundRepeat::NoRepeat,
    {
        *self == BackgroundRepeat::Repeat || *self == BackgroundRepeat::RepeatY || *self
            == BackgroundRepeat::Space || *self == BackgroundRepeat::Round
    }
}

} // verus!

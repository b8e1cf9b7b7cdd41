//! Text: characters, font metrics, and the answers of a text shaper.
//!
//! Shaping is the business of a font engine. Layout reads what such an engine
//! answered from a [`Shaper`], a table of shaped runs and wrapped texts; a
//! request that the table does not hold counts as one the engine could not
//! answer, and layout falls back to estimates.
use vstd::prelude::*;
use vstd::string::*;
use crate::casing;
use crate::num::Num;
use crate::style::{
    ComputedStyle, FontStretch, FontStyle, FontWeight, OverflowWrap, TextTransform, WhiteSpace,
    WordBreak,
};

verus! {

/// Whether a character has the Unicode property White_Space.
pub open spec fn white(c: char) -> bool {
    ||| '\u{9}' <= c <= '\u{d}'
    ||| c == '\u{20}'
    ||| c == '\u{85}'
    ||| c == '\u{a0}'
    ||| c == '\u{1680}'
    ||| '\u{2000}' <= c <= '\u{200a}'
    ||| c == '\u{2028}'
    ||| c == '\u{2029}'
    ||| c == '\u{202f}'
    ||| c == '\u{205f}'
    ||| c == '\u{3000}'
}

/// Whether a character has the Unicode property White_Space.
pub fn is_white(c: char) -> (r: bool)
    ensures
        r == white(c),
{
    ('\u{9}' <= c && c <= '\u{d}') || c == '\u{20}' || c == '\u{85}' || c == '\u{a0}' || c
        == '\u{1680}' || ('\u{2000}' <= c && c <= '\u{200a}') || c == '\u{2028}' || c == '\u{2029}'
        || c == '\u{202f}' || c == '\u{205f}' || c == '\u{3000}'
}

/// Whether justification widens a character: a space or a no-break space.
pub open spec fn separator(c: char) -> bool {
    c == ' ' || c == '\u{a0}'
}

/// How many characters are white space.
pub open spec fn whites(s: Seq<char>) -> nat
    decreases s.len(),
{
    if s.len() == 0 {
        0
    } else {
        whites(s.drop_last()) + if white(s.last()) {
            1nat
        } else {
            0nat
        }
    }
}

/// How many characters are word separators.
pub open spec fn separators(s: Seq<char>) -> nat
    decreases s.len(),
{
    if s.len() == 0 {
        0
    } else {
        separators(s.drop_last()) + if separator(s.last()) {
            1nat
        } else {
            0nat
        }
    }
}

/// A text without the white space at its end.
pub open spec fn trimmed_end(s: Seq<char>) -> Seq<char>
    decreases s.len(),
{
    if s.len() > 0 && white(s.last()) {
        trimmed_end(s.drop_last())
    } else {
        s
    }
}

/// A text without the white space at its start.
pub open spec fn trimmed_start(s: Seq<char>) -> Seq<char>
    decreases s.len(),
{
    if s.len() > 0 && white(s.first()) {
        trimmed_start(s.drop_first())
    } else {
        s
    }
}

/// A text without the white space around it.
pub open spec fn trimmed(s: Seq<char>) -> Seq<char> {
    trimmed_end(trimmed_start(s))
}

/// Whether a text holds a line break character.
pub open spec fn has_break(s: Seq<char>) -> bool {
    exists|i: int| 0 <= i < s.len() && (#[trigger] s[i] == '\n' || s[i] == '\r')
}

/// The counts are bounded by the length.
pub proof fn lemma_counts_bounded(s: Seq<char>)
    ensures
        whites(s) <= s.len(),
        separators(s) <= s.len(),
        trimmed_end(s).len() <= s.len(),
    decreases s.len(),
{
    if s.len() > 0 {
        lemma_counts_bounded(s.drop_last());
    }
}

/// Trimming a trimmed text changes nothing.
pub proof fn lemma_trim_end_idempotent(s: Seq<char>)
    ensures
        trimmed_end(trimmed_end(s)) == trimmed_end(s),
    decreases s.len(),
{
    if s.len() > 0 && white(s.last()) {
        lemma_trim_end_idempotent(s.drop_last());
    }
}

pub(crate) fn count_whites(text: &str) -> (n: usize)
    ensures
        n == whites(text@),
        n <= text@.len(),
{
    let len: usize = text.unicode_len();
    let mut n: usize = 0;
    let mut i: usize = 0;
    while i < len
        invariant
            i <= len,
            len == text@.len(),
            n == whites(text@.take(i as int)),
            n <= i,
        decreases len - i,
    {
        proof {
            assert(text@.take(i + 1).drop_last() =~= text@.take(i as int));
        }
        if is_white(text.get_char(i)) {
            n = n + 1;
        }
        i = i + 1;
    }
    proof {
        assert(text@.take(i as int) =~= text@);
    }
    n
}

fn count_separators(text: &str) -> (n: usize)
    ensures
        n == separators(text@),
{
    let len: usize = text.unicode_len();
    let mut n: usize = 0;
    let mut i: usize = 0;
    while i < len
        invariant
            i <= len,
            len == text@.len(),
            n == separators(text@.take(i as int)),
            n <= i,
        decreases len - i,
    {
        proof {
            assert(text@.take(i + 1).drop_last() =~= text@.take(i as int));
        }
        let c: char = text.get_char(i);
        if c == ' ' || c == '\u{a0}' {
            n = n + 1;
        }
        i = i + 1;
    }
    proof {
        assert(text@.take(i as int) =~= text@);
    }
    n
}

pub(crate) fn trim_end(text: &str) -> (r: String)
    ensures
        r@ == trimmed_end(text@),
{
    let len: usize = text.unicode_len();
    let mut n: usize = len;
    proof {
        assert(text@.take(n as int) =~= text@);
    }
    while n > 0 && is_white(text.get_char(n - 1))
        invariant
            n <= len,
            len == text@.len(),
            trimmed_end(text@.take(n as int)) == trimmed_end(text@),
        decreases n,
    {
        proof {
            assert(text@.take(n as int).drop_last() =~= text@.take(n - 1));
        }
        n = n - 1;
    }
    let part: &str = text.substring_char(0, n);
    proof {
        assert(part@ =~= text@.take(n as int));
    }
    part.to_owned()
}

/// The text without the white space at its start.
pub(crate) fn trim_start(text: &str) -> (r: String)
    ensures
        r@ == trimmed_start(text@),
{
    let len: usize = text.unicode_len();
    let mut n: usize = 0;
    proof {
        assert(text@.skip(n as int) =~= text@);
    }
    while n < len && is_white(text.get_char(n))
        invariant
            n <= len,
            len == text@.len(),
            trimmed_start(text@.skip(n as int)) == trimmed_start(text@),
        decreases len - n,
    {
        proof {
            assert(text@.skip(n as int).drop_first() =~= text@.skip(n + 1));
        }
        n = n + 1;
    }
    let part: &str = text.substring_char(n, len);
    proof {
        assert(part@ =~= text@.skip(n as int));
    }
    part.to_owned()
}

/// The text without the white space around it.
pub(crate) fn trim(text: &str) -> (r: String)
    ensures
        r@ == trimmed(text@),
{
    let part: String = trim_start(text);
    trim_end(part.as_str())
}

pub(crate) fn contains_break(text: &String) -> (r: bool)
    ensures
        r == has_break(text@),
{
    let s: &str = text.as_str();
    let len: usize = s.unicode_len();
    let mut i: usize = 0;
    while i < len
        invariant
            i <= len,
            len == s@.len(),
            s@ == text@,
            forall|j: int| 0 <= j < i ==> #[trigger] s@[j] != '\n' && s@[j] != '\r',
        decreases len - i,
    {
        let c: char = s.get_char(i);
        if c == '\n' || c == '\r' {
            assert(text@[i as int] == c);
            return true;
        }
        i = i + 1;
    }
    false
}

/// Whether a text is a given word.
pub(crate) fn is_word(s: &String, word: &str) -> (r: bool)
    ensures
        r == (s@ == word@),
{
    let w: String = word.to_owned();
    *s == w
}

/// Each word of a text with its first character in upper case.
pub open spec fn capitalized(s: Seq<char>) -> Seq<char>
    decreases s.len(),
{
    if s.len() == 0 {
        s
    } else {
        let before = capitalized(s.drop_last());
        if !white(s.last()) && (s.len() == 1 || white(s[s.len() - 2])) {
            before + casing::uppercased(seq![s.last()])
        } else {
            before.push(s.last())
        }
    }
}

/// A text as `text-transform` shows it.
pub open spec fn transformed(s: Seq<char>, transform: TextTransform) -> Seq<char> {
    match transform {
        TextTransform::Unchanged => s,
        TextTransform::Uppercase => casing::uppercased(s),
        TextTransform::Lowercase => casing::lowercased(s),
        TextTransform::Capitalize => capitalized(s),
    }
}

fn capitalize(text: &String) -> (r: String)
    ensures
        r@ == capitalized(text@),
{
    let s: &str = text.as_str();
    let len: usize = s.unicode_len();
    let mut out: String = String::new();
    let mut i: usize = 0;
    while i < len
        invariant
            i <= len,
            len == s@.len(),
            out@ == capitalized(s@.take(i as int)),
        decreases len - i,
    {
        let one: &str = s.substring_char(i, i + 1);
        proof {
            assert(s@.take(i + 1).drop_last() =~= s@.take(i as int));
            assert(one@ =~= seq![s@[i as int]]);
        }
        if !is_white(s.get_char(i)) && (i == 0 || is_white(s.get_char(i - 1))) {
            let up: String = casing::to_uppercase(one);
            out.append(up.as_str());
        } else {
            out.append(one);
            proof {
                assert(capitalized(s@.take(i as int)) + one@ =~= capitalized(
                    s@.take(i as int),
                ).push(s@[i as int]));
            }
        }
        i = i + 1;
    }
    proof {
        assert(s@.take(i as int) =~= s@);
    }
    out
}

/// Applies `text-transform` to a text.
pub fn apply_text_transform(text: &String, transform: TextTransform) -> (r: String)
    ensures
        r@ == transformed(text@, transform),
{
    match transform {
        TextTransform::Unchanged => text.clone(),
        TextTransform::Uppercase => casing::to_uppercase(text.as_str()),
        TextTransform::Lowercase => casing::to_lowercase(text.as_str()),
        TextTransform::Capitalize => capitalize(text),
    }
}

/// The metrics of a run: its width and its extents about the baseline.
#[derive(Debug, Clone, Copy)]
pub struct TextMetrics {
    pub width: Num,
    pub ascent: Num,
    pub descent: Num,
    pub leading: Num,
    pub underline_offset: Num,
    pub underline_thickness: Num,
    pub strikethrough_offset: Num,
    pub overline_offset: Num,
}

/// The extents of the font that stands in where no face answers, as
/// fractions of the font size.
#[derive(Debug, Clone, Copy)]
pub struct FallbackFont {
    pub ascent: Num,
    pub descent: Num,
    pub leading: Num,
    pub underline_offset: Num,
    pub underline_thickness: Num,
    pub strikethrough_offset: Num,
    pub overline_offset: Num,
}

/// What names a face and its size.
pub struct FaceV {
    pub family: Seq<char>,
    pub weight: FontWeight,
    pub style: FontStyle,
    pub stretch: FontStretch,
    pub size: Num,
}

/// What names a face and its size.
#[derive(Debug, Clone)]
pub struct Face {
    pub family: String,
    pub weight: FontWeight,
    pub style: FontStyle,
    pub stretch: FontStretch,
    pub size: Num,
}

impl View for Face {
    type V = FaceV;

    open spec fn view(&self) -> FaceV {
        FaceV {
            family: self.family@,
            weight: self.weight,
            style: self.style,
            stretch: self.stretch,
            size: self.size,
        }
    }
}

impl Face {
    /// Compares two faces.
    pub fn is(&self, o: &Face) -> (r: bool)
        ensures
            r == (self@ == o@),
    {
        self.family == o.family && self.weight == o.weight && self.style == o.style && self.stretch
            == o.stretch && self.size.to_bits() == o.size.to_bits()
    }
}

impl ComputedStyle {
    /// The face of a style at a size.
    pub open spec fn face(self, stretch: FontStretch, size: Num) -> FaceV {
        FaceV {
            family: self.font_family@,
            weight: self.font_weight,
            style: self.font_style,
            stretch,
            size,
        }
    }

    pub(crate) fn face_at(&self, stretch: FontStretch, size: Num) -> (r: Face)
        ensures
            r@ == self.face(stretch, size),
    {
        Face {
            family: self.font_family.clone(),
            weight: self.font_weight,
            style: self.font_style,
            stretch,
            size,
        }
    }
}

/// A shaped run: the metrics and the advance of each glyph, with letter and
/// word spacing applied.
#[derive(Debug, Clone)]
pub struct ShapedRun {
    pub text: String,
    pub face: Face,
    pub letter_spacing: Num,
    pub word_spacing: Num,
    pub metrics: TextMetrics,
    pub advances: Vec<Num>,
}

impl ShapedRun {
    /// Whether this is the answer to a request.
    pub open spec fn answers(self, text: Seq<char>, face: FaceV, letter: Num, word: Num) -> bool {
        self.text@ == text && self.face@ == face && self.letter_spacing == letter
            && self.word_spacing == word
    }
}

/// One line of a wrapped text.
#[derive(Debug, Clone)]
pub struct WrappedLine {
    pub text: String,
    pub width: Num,
    pub ascent: Num,
    pub descent: Num,
    pub leading: Num,
}

/// How a text breaks into lines: the width of its first line when that starts
/// mid-line, the width of the others, and the breaking rules.
#[derive(Debug, Clone, Copy)]
pub struct WrapRules {
    pub first: Option<Num>,
    pub width: Num,
    pub word_break: WordBreak,
    pub overflow_wrap: OverflowWrap,
    pub white_space: WhiteSpace,
}

impl WrapRules {
    /// Compares two sets of rules.
    pub fn is(&self, o: &WrapRules) -> (r: bool)
        ensures
            r == (*self == *o),
    {
        let first: bool = match (self.first, o.first) {
            (Some(a), Some(b)) => a.to_bits() == b.to_bits(),
            (None, None) => true,
            _ => false,
        };
        first && self.width.to_bits() == o.width.to_bits() && self.word_break == o.word_break
            && self.overflow_wrap == o.overflow_wrap && self.white_space == o.white_space
    }
}

/// A wrapped text.
#[derive(Debug, Clone)]
pub struct WrappedText {
    pub text: String,
    pub face: Face,
    pub rules: WrapRules,
    pub lines: Vec<WrappedLine>,
}

impl WrappedText {
    /// Whether this is the answer to a request.
    pub open spec fn answers(self, text: Seq<char>, face: FaceV, rules: WrapRules) -> bool {
        self.text@ == text && self.face@ == face && self.rules == rules
    }
}

/// The answers of a text shaper.
#[derive(Debug, Clone)]
pub struct Shaper {
    pub runs: Vec<ShapedRun>,
    pub wraps: Vec<WrappedText>,
    pub fallback: FallbackFont,
}

/// The first run from `i` on that answers a request.
pub open spec fn run_index(
    runs: Seq<ShapedRun>,
    text: Seq<char>,
    face: FaceV,
    letter: Num,
    word: Num,
    i: int,
) -> Option<int>
    decreases runs.len() - i,
{
    if i >= runs.len() {
        None
    } else if runs[i].answers(text, face, letter, word) {
        Some(i)
    } else {
        run_index(runs, text, face, letter, word, i + 1)
    }
}

/// The first wrapped text from `i` on that answers a request.
pub open spec fn wrap_index(
    wraps: Seq<WrappedText>,
    text: Seq<char>,
    face: FaceV,
    rules: WrapRules,
    i: int,
) -> Option<int>
    decreases wraps.len() - i,
{
    if i >= wraps.len() {
        None
    } else if wraps[i].answers(text, face, rules) {
        Some(i)
    } else {
        wrap_index(wraps, text, face, rules, i + 1)
    }
}

impl FallbackFont {
    /// The metrics at a font size, of no width.
    pub open spec fn at(self, size: Num) -> TextMetrics {
        TextMetrics {
            width: Num::nought(),
            ascent: self.ascent * size,
            descent: self.descent * size,
            leading: self.leading * size,
            underline_offset: self.underline_offset * size,
            underline_thickness: self.underline_thickness * size,
            strikethrough_offset: self.strikethrough_offset * size,
            overline_offset: self.overline_offset * size,
        }
    }
}

/// Estimated metrics: half the font size for each character.
pub open spec fn estimated(sh: Shaper, text: Seq<char>, size: Num) -> TextMetrics {
    TextMetrics {
        width: Num::whole(text.len() as int) * (size * Num::ratio(1, 2)),
        ..sh.fallback.at(size)
    }
}

/// The metrics of a text: those of its shaped run, else estimates widened by
/// one letter spacing for each character and one word spacing for each white
/// space.
#[verifier::opaque]
pub open spec fn measured(
    sh: Shaper,
    text: Seq<char>,
    face: FaceV,
    letter: Num,
    word: Num,
) -> TextMetrics {
    match run_index(sh.runs@, text, face, letter, word, 0) {
        Some(i) => sh.runs@[i].metrics,
        None => {
            let m = estimated(sh, text, face.size);
            TextMetrics {
                width: m.width + letter * Num::whole(text.len() as int) + word * Num::whole(
                    whites(text) as int,
                ),
                ..m
            }
        },
    }
}

/// The metrics of the letter x in a style, at a font size.
pub open spec fn x_metrics(sh: Shaper, style: ComputedStyle, size: Num) -> TextMetrics {
    measured(sh, "x"@, style.face(FontStretch::Normal, size), Num::nought(), Num::nought())
}

/// The advances of a text in a style, one for each character; `None` where
/// the shaper has none or gives another number of glyphs.
#[verifier::opaque]
pub open spec fn advances_of(
    sh: Shaper,
    text: Seq<char>,
    style: ComputedStyle,
    size: Num,
) -> Option<Seq<Num>> {
    match run_index(
        sh.runs@,
        text,
        style.face(style.font_stretch, size),
        ComputedStyle::spacing(style.letter_spacing, size),
        ComputedStyle::spacing(style.word_spacing, size),
        0,
    ) {
        Some(i) => if sh.runs@[i].advances@.len() == text.len() {
            Some(sh.runs@[i].advances@)
        } else {
            None
        },
        None => None,
    }
}

/// The sum of numbers, from the first to the last.
pub open spec fn total(s: Seq<Num>) -> Num
    decreases s.len(),
{
    if s.len() == 0 {
        Num::nought()
    } else {
        total(s.drop_last()) + s.last()
    }
}

pub(crate) fn sum(v: &Vec<Num>) -> (r: Num)
    ensures
        r == total(v@),
{
    let mut t = Num::zero();
    let mut i: usize = 0;
    while i < v.len()
        invariant
            i <= v.len(),
            t == total(v@.take(i as int)),
        decreases v.len() - i,
    {
        proof {
            assert(v@.take(i + 1).drop_last() =~= v@.take(i as int));
        }
        t = t + v[i];
        i = i + 1;
    }
    proof {
        assert(v@.take(i as int) =~= v@);
    }
    t
}

impl Shaper {
    /// A shaper that answers nothing.
    pub fn new(fallback: FallbackFont) -> (r: Shaper)
        ensures
            r.runs@.len() == 0,
            r.wraps@.len() == 0,
            r.fallback == fallback,
    {
        Shaper { runs: Vec::new(), wraps: Vec::new(), fallback }
    }

    fn find_run(&self, text: &String, face: &Face, letter: Num, word: Num) -> (r: Option<usize>)
        ensures
            match run_index(self.runs@, text@, face@, letter, word, 0) {
                Some(i) => r is Some && r->0 == i && 0 <= i < self.runs@.len(),
                None => r is None,
            },
    {
        let mut i: usize = 0;
        while i < self.runs.len()
            invariant
                i <= self.runs.len(),
                run_index(self.runs@, text@, face@, letter, word, 0) == run_index(
                    self.runs@,
                    text@,
                    face@,
                    letter,
                    word,
                    i as int,
                ),
            decreases self.runs.len() - i,
        {
            let run: &ShapedRun = &self.runs[i];
            if run.text == *text && run.face.is(face) && run.letter_spacing.to_bits()
                == letter.to_bits() && run.word_spacing.to_bits() == word.to_bits() {
                return Some(i);
            }
            i = i + 1;
        }
        None
    }

    /// The place of a wrapped text in the table.
    pub(crate) fn find_wrap(&self, text: &String, face: &Face, rules: &WrapRules) -> (r: Option<
        usize,
    >)
        ensures
            match wrap_index(self.wraps@, text@, face@, *rules, 0) {
                Some(i) => r is Some && r->0 == i && 0 <= i < self.wraps@.len(),
                None => r is None,
            },
    {
        let mut i: usize = 0;
        while i < self.wraps.len()
            invariant
                i <= self.wraps.len(),
                wrap_index(self.wraps@, text@, face@, *rules, 0) == wrap_index(
                    self.wraps@,
                    text@,
                    face@,
                    *rules,
                    i as int,
                ),
            decreases self.wraps.len() - i,
        {
            let wrap: &WrappedText = &self.wraps[i];
            if wrap.text == *text && wrap.face.is(face) && wrap.rules.is(rules) {
                return Some(i);
            }
            i = i + 1;
        }
        None
    }
}

/// Measures a text in a face, with letter and word spacing.
pub fn measure_text_with_spacing(
    shaper: &Shaper,
    text: &String,
    face: &Face,
    letter_spacing: Num,
    word_spacing: Num,
) -> (r: TextMetrics)
    ensures
        r == measured(*shaper, text@, face@, letter_spacing, word_spacing),
{
    proof {
        reveal(measured);
    }
    match shaper.find_run(text, face, letter_spacing, word_spacing) {
        Some(i) => shaper.runs[i].metrics,
        None => {
            let m = measure_text_simple(shaper, text, face.size);
            let chars: usize = text.as_str().unicode_len();
            let spaces: usize = count_whites(text.as_str());
            TextMetrics {
                width: m.width + letter_spacing * Num::from_usize(chars) + word_spacing
                    * Num::from_usize(spaces),
                ascent: m.ascent,
                descent: m.descent,
                leading: m.leading,
                underline_offset: m.underline_offset,
                underline_thickness: m.underline_thickness,
                strikethrough_offset: m.strikethrough_offset,
                overline_offset: m.overline_offset,
            }
        },
    }
}

/// Measures a text in a face.
pub fn measure_text_advanced(shaper: &Shaper, text: &String, face: &Face) -> (r: TextMetrics)
    ensures
        r == measured(*shaper, text@, face@, Num::nought(), Num::nought()),
{
    measure_text_with_spacing(shaper, text, face, Num::zero(), Num::zero())
}

/// Measures the letter x in a style.
pub(crate) fn measure_x(shaper: &Shaper, style: &ComputedStyle, size: Num) -> (r: TextMetrics)
    ensures
        r == x_metrics(*shaper, *style, size),
{
    let x: String = "x".to_owned();
    measure_text_advanced(shaper, &x, &style.face_at(FontStretch::Normal, size))
}

/// Estimates the metrics of a text from the number of its characters.
pub fn measure_text_simple(shaper: &Shaper, text: &String, size: Num) -> (r: TextMetrics)
    ensures
        r == estimated(*shaper, text@, size),
{
    let f = shaper.fallback;
    TextMetrics {
        width: Num::from_usize(text.as_str().unicode_len()) * (size * Num::frac(1, 2)),
        ascent: f.ascent * size,
        descent: f.descent * size,
        leading: f.leading * size,
        underline_offset: f.underline_offset * size,
        underline_thickness: f.underline_thickness * size,
        strikethrough_offset: f.strikethrough_offset * size,
        overline_offset: f.overline_offset * size,
    }
}

/// Measures a text from the number of its characters, whatever its family.
pub fn measure_text(shaper: &Shaper, text: &String, _font_family: &String, size: Num) -> (r:
    TextMetrics)
    ensures
        r == estimated(*shaper, text@, size),
{
    measure_text_simple(shaper, text, size)
}

/// The advance of each character of a line in a style.
pub fn shape_line_advances(
    shaper: &Shaper,
    text: &String,
    style: &ComputedStyle,
    size: Num,
) -> (r: Option<Vec<Num>>)
    ensures
        match advances_of(*shaper, text@, *style, size) {
            Some(s) => r is Some && r->0@ == s,
            None => r is None,
        },
{
    proof {
        reveal(advances_of);
    }
    let letter = ComputedStyle::spacing_px(style.letter_spacing, size);
    let word = ComputedStyle::spacing_px(style.word_spacing, size);
    let face = style.face_at(style.font_stretch, size);
    match shaper.find_run(text, &face, letter, word) {
        Some(i) => {
            if shaper.runs[i].advances.len() == text.as_str().unicode_len() {
                Some(copy_nums(&shaper.runs[i].advances))
            } else {
                None
            }
        },
        None => None,
    }
}

/// A copy of a vector of numbers.
pub(crate) fn copy_nums(v: &Vec<Num>) -> (r: Vec<Num>)
    ensures
        r@ == v@,
{
    let mut out: Vec<Num> = Vec::new();
    let mut i: usize = 0;
    while i < v.len()
        invariant
            i <= v.len(),
            out@ == v@.take(i as int),
        decreases v.len() - i,
    {
        out.push(v[i]);
        i = i + 1;
        proof {
            assert(out@ =~= v@.take(i as int));
        }
    }
    proof {
        assert(v@.take(i as int) =~= v@);
    }
    out
}

/// One line of a wrapped text box.
#[derive(Debug, Clone)]
pub struct TextLine {
    /// The line's text content (whitespace at the break point removed).
    pub text: String,
    /// Measured width of this line in px.
    pub width: Num,
    /// X offset from the box's content origin (per-line text-align).
    pub x_offset: Num,
    /// Extra advance of each word separator on a justified line, else zero.
    pub justify_space: Num,
}

/// One line of a wrapped text box.
pub struct LineV {
    pub text: Seq<char>,
    pub width: Num,
    pub x_offset: Num,
    pub justify_space: Num,
}

impl View for TextLine {
    type V = LineV;

    open spec fn view(&self) -> LineV {
        LineV {
            text: self.text@,
            width: self.width,
            x_offset: self.x_offset,
            justify_space: self.justify_space,
        }
    }
}

/// The width of the ink of a line before justification.
pub open spec fn ink_width(sh: Shaper, text: Seq<char>, style: ComputedStyle, size: Num) -> Option<
    Num,
> {
    let t = trimmed_end(text);
    if t.len() == 0 {
        None
    } else {
        match advances_of(sh, t, style, size) {
            Some(adv) => Some(total(adv)),
            None => None,
        }
    }
}

impl TextLine {
    /// Justification opportunities of a text: its word separators.
    pub fn justification_opportunities(text: &str) -> (r: usize)
        ensures
            r == separators(text@),
    {
        count_separators(text)
    }

    /// Whether `c` is a word separator that justification expands.
    pub fn is_word_separator(c: char) -> (r: bool)
        ensures
            r == separator(c),
    {
        c == ' ' || c == '\u{a0}'
    }

    /// The width a justified line's ink spans before expansion: that of the
    /// text without the space at its end. `None` where there is no ink or no
    /// advance for each character.
    pub fn natural_ink_width(shaper: &Shaper, text: &str, style: &ComputedStyle, size: Num) -> (r:
        Option<Num>)
        ensures
            r == ink_width(*shaper, text@, *style, size),
    {
        let t: String = trim_end(text);
        if t.as_str().unicode_len() == 0 {
            return None;
        }
        match shape_line_advances(shaper, &t, style, size) {
            Some(adv) => Some(sum(&adv)),
            None => None,
        }
    }
}

} // verus!

use rustkit_layout::boxes::{BoxType, LayoutBox};
use rustkit_layout::geometry::{Dimensions, Rect};
use rustkit_layout::num::Num;
use rustkit_layout::sizing::{FormControlType, text_line_box_extents};
use rustkit_layout::style::{ComputedStyle, Display, FontStretch, Length, LineHeight, TextAlign, WhiteSpace, WordBreak, effective_word_break};
use rustkit_layout::text::{Face, FallbackFont, ShapedRun, Shaper, TextLine, TextMetrics, WrapRules, WrappedLine, WrappedText, measure_text_advanced, measure_text_with_spacing, shape_line_advances};

fn num(v: f32) -> Num {
    Num::from_bits(v.to_bits())
}

fn f(v: Num) -> f32 {
    f32::from_bits(v.to_bits())
}

fn total(v: &[Num]) -> Num {
    v.iter().fold(num(0.0), |a, b| a + *b)
}

fn font() -> Shaper {
    Shaper::new(FallbackFont {
        ascent: num(0.966796875),
        descent: num(0.2109375),
        leading: num(0.0),
        underline_offset: num(0.1),
        underline_thickness: num(0.05),
        strikethrough_offset: num(0.3),
        overline_offset: num(0.9),
    })
}

fn face(style: &ComputedStyle, size: f32) -> Face {
    Face {
        family: style.font_family.clone(),
        weight: style.font_weight,
        style: style.font_style,
        stretch: FontStretch::Normal,
        size: num(size),
    }
}

fn lay_text(b: &mut LayoutBox, sh: &Shaper, cb: &Dimensions) {
    b.layout_text_with_zero_wrap(sh, cb, false);
}

fn metrics(width: f32, ascent: f32, descent: f32) -> TextMetrics {
    TextMetrics {
        width: num(width),
        ascent: num(ascent),
        descent: num(descent),
        leading: num(0.0),
        underline_offset: num(1.0),
        underline_thickness: num(1.0),
        strikethrough_offset: num(5.0),
        overline_offset: num(12.0),
    }
}

/// Teaches the shaper a run whose glyphs are each `em` of the font size wide.
fn shape(sh: &mut Shaper, text: &str, style: &ComputedStyle, em: f32) {
    let size = f(style.font_size_px());
    let letter = match style.letter_spacing {
        Length::Px(v) => f(v),
        _ => 0.0,
    };
    let advances: Vec<Num> = text.chars().map(|_| num(size * em + letter)).collect();
    let width = f(total(&advances));
    sh.runs.push(ShapedRun {
        text: text.to_string(),
        face: face(style, size),
        letter_spacing: num(letter),
        word_spacing: num(0.0),
        metrics: metrics(width, size * 0.966796875, size * 0.2109375),
        advances,
    });
}

/// Teaches the shaper how a text breaks: after spaces, between any two
/// characters under `break-all`, and at line breaks that are kept.
fn wrap(
    sh: &mut Shaper,
    text: &str,
    style: &ComputedStyle,
    first: Option<f32>,
    width: f32,
    em: f32,
) {
    let size = f(style.font_size_px());
    let word_break = effective_word_break(style);
    let kept = matches!(
        style.white_space,
        WhiteSpace::Pre | WhiteSpace::PreWrap | WhiteSpace::PreLine | WhiteSpace::BreakSpaces
    );
    let segments: Vec<&str> = if kept { text.lines().collect() } else { vec![text] };
    let mut lines: Vec<String> = Vec::new();
    let mut tight = first.is_some();
    let mut room = first.unwrap_or(width);
    for segment in segments {
        let pieces: Vec<String> = if word_break == WordBreak::BreakAll {
            segment.chars().map(|c| c.to_string()).collect()
        } else {
            segment.split_inclusive(' ').map(|w| w.to_string()).collect()
        };
        let mut line = String::new();
        for piece in pieces {
            let filled = (line.chars().count() + piece.chars().count()) as f32 * size * em;
            if (tight || !line.is_empty()) && filled > room {
                lines.push(line);
                line = String::new();
                room = width;
            }
            tight = false;
            line.push_str(&piece);
        }
        lines.push(line);
        room = width;
    }
    for line in &lines {
        shape(sh, line.trim_end(), style, em);
    }
    let lines: Vec<WrappedLine> = lines
        .into_iter()
        .map(|line| WrappedLine {
            width: num(line.chars().count() as f32 * size * em),
            text: line,
            ascent: num(size * 0.966796875),
            descent: num(size * 0.2109375),
            leading: num(0.0),
        })
        .collect();
    sh.wraps.push(WrappedText {
        text: text.to_string(),
        face: face(style, size),
        rules: WrapRules {
            first: first.map(num),
            width: num(width),
            word_break,
            overflow_wrap: style.overflow_wrap,
            white_space: style.white_space,
        },
        lines,
    });
}

fn long_font() -> Shaper {
    let mut sh = font();
    let style = ComputedStyle::new();
    wrap(&mut sh, LONG_TEXT, &style, None, 200.0, 0.5);
    wrap(&mut sh, LONG_TEXT, &style, Some(184.0), 200.0, 0.5);
    let mut kept = ComputedStyle::new();
    kept.white_space = WhiteSpace::PreWrap;
    wrap(&mut sh, LONG_TEXT, &kept, None, 200.0, 0.5);
    sh
}

fn broken_font(ws: WhiteSpace, wb: WordBreak) -> Shaper {
    let mut sh = font();
    let style = text("", ws, wb).style;
    wrap(&mut sh, "abc", &style, None, 0.0, 0.5);
    wrap(&mut sh, "def", &style, Some(0.0), 0.0, 0.5);
    sh
}

fn label_font() -> Shaper {
    let mut sh = font();
    let label = label_box("Checkbox 2 (checked)");
    let style = &label.children[0].style;
    shape(&mut sh, "Checkbox 2 (checked)", style, 0.55);
    wrap(&mut sh, "Checkbox 2 (checked)", style, None, 120.0, 0.55);
    sh
}

fn arial_face(size: f32) -> Face {
    let mut style = ComputedStyle::new();
    style.font_family = "Arial".to_string();
    face(&style, size)
}

/// Arial's advances, in units of 2048 to the em.
fn glyph(c: char) -> f32 {
    match c {
        'l' | 'i' => 455.0,
        ' ' | 't' | 'I' => 569.0,
        'r' => 682.0,
        'c' | 'x' => 1024.0,
        'A' | 'S' => 1366.0,
        'O' => 1593.0,
        'm' => 1706.0,
        _ => 1139.0,
    }
}

fn arial_font() -> Shaper {
    let mut sh = font();
    let face = arial_face(13.333);
    for text in [
        "Item 1",
        "Item 2",
        "Item 3",
        "Item 4",
        "Option 1",
        "Option 2",
        "A longer option text",
        "Select",
    ] {
        let units: f32 = text.chars().map(glyph).sum();
        let width = units / 2048.0 * 13.333;
        sh.runs.push(ShapedRun {
            text: text.to_string(),
            face: face.clone(),
            letter_spacing: num(0.0),
            word_spacing: num(0.0),
            metrics: metrics(width, 12.066, 2.826),
            advances: Vec::new(),
        });
    }
    sh
}

#[test]
fn test_advance_contract_letter_spacing_sum() {
    let mut style = ComputedStyle::new();
    style.font_size = Length::Px(num(16.0));
    style.letter_spacing = Length::Px(num(2.0));
    let text = "Spaced advance parity".to_string();
    let mut sh = font();
    shape(&mut sh, &text, &style, 0.5);
    let advances =
        shape_line_advances(&sh, &text, &style, num(16.0)).unwrap();
    let measured = measure_text_with_spacing(&sh, &text, &face(&style, 16.0), num(2.0), num(0.0))
    .width;
    let sum = total(&advances);
    assert!((sum - measured).abs() < num(0.5));
}

#[test]
fn test_advance_contract_sum_matches_measure() {
    let mut style = ComputedStyle::new();
    style.font_size = Length::Px(num(16.0));
    let text = "The quick brown fox jumps over 42 lazy dogs.".to_string();
    let mut sh = font();
    shape(&mut sh, &text, &style, 0.5);
    let advances = shape_line_advances(&sh, &text, &style, num(16.0))
        .unwrap();
    assert_eq!(advances.len(), text.chars().count());
    let measured = measure_text_advanced(&sh, &text, &face(&style, 16.0))
    .width;
    let sum = total(&advances);
    assert!((sum - measured).abs() < num(0.5));
}

fn containing_200() -> Dimensions {
    let mut cb = Dimensions::default();
    cb.content = Rect::new(num(0.0), num(0.0), num(200.0), num(600.0));
    cb
}

const LONG_TEXT: &str = "The quick brown fox jumps over the lazy dog again \
                         and again until the line has no choice but to wrap";

#[test]
fn test_text_wraps_into_line_boxes() {
    let style = ComputedStyle::new();
    let mut layout_box = LayoutBox::new(BoxType::Text(LONG_TEXT.to_string()), style);
    lay_text(&mut layout_box, &long_font(), &containing_200());

    let lines = layout_box.text_lines.as_ref().unwrap();
    assert!(lines.len() > 1);
    for line in lines {
        assert!(line.width <= num(200.0) + num(0.5));
    }
    let line_height = layout_box.get_line_height(&long_font());
    assert_eq!(layout_box.dimensions.content.height, num(lines.len() as f32) * line_height);

    assert_eq!(layout_box.dimensions.content.x, num(0.0));
}

fn justified_width(sh: &Shaper, line: &TextLine) -> Num {
    let style = ComputedStyle::new();
    let natural = TextLine::natural_ink_width(sh, &line.text, &style, num(16.0)).unwrap();
    assert!(natural <= line.width);
    let gaps = TextLine::justification_opportunities(line.text.trim_end());
    line.x_offset + natural + line.justify_space * num(gaps as f32)
}

#[test]
fn justified_wrapped_lines_fill_the_container_except_the_last() {
    let mut style = ComputedStyle::new();
    style.text_align = TextAlign::Justify;
    let mut layout_box = LayoutBox::new(BoxType::Text(LONG_TEXT.to_string()), style);
    lay_text(&mut layout_box, &long_font(), &containing_200());
    let n = layout_box.text_lines.as_ref().unwrap().len();
    assert!(n >= 3);

    let mut children = vec![layout_box];
    LayoutBox::apply_text_align_offset(&mut children, &long_font(), 0, 1, num(200.0), num(200.0), TextAlign::Justify);
    let lines = children[0].text_lines.as_ref().unwrap();
    for (k, line) in lines.iter().enumerate().take(n - 1) {
        assert_eq!(line.x_offset, num(0.0));
        let gaps = TextLine::justification_opportunities(line.text.trim_end());
        assert!(gaps > 0);
        assert!(line.justify_space > num(0.0));
        assert!((justified_width(&long_font(), line) - num(200.0)).abs() < num(0.01));
    }
    let last = &lines[n - 1];
    assert_eq!(last.justify_space, num(0.0));
}

#[test]
fn justify_leaves_left_lines_and_preserved_newlines_alone() {
    for (align, ws) in [
        (TextAlign::Left, WhiteSpace::Normal),
        (TextAlign::Justify, WhiteSpace::PreWrap),
    ] {
        let mut style = ComputedStyle::new();
        style.text_align = align;
        style.white_space = ws;
        let mut layout_box = LayoutBox::new(BoxType::Text(LONG_TEXT.to_string()), style);
        lay_text(&mut layout_box, &long_font(), &containing_200());
        assert!(layout_box.text_lines.as_ref().map_or(0, |l| l.len()) > 1);
        let mut children = vec![layout_box];
        LayoutBox::apply_text_align_offset(&mut children, &long_font(), 0, 1, num(200.0), num(200.0), align);
        for line in children[0].text_lines.as_ref().unwrap() {
            assert_eq!(line.justify_space, num(0.0));
        }
    }
}

#[test]
fn justify_midline_split_skips_line_zero_and_the_open_last_line() {
    let parent = midline_split_parent(TextAlign::Justify);
    assert_eq!(parent.children[0].dimensions.content.x, num(0.0));
    let t = &parent.children[1];
    let flow0 = t.text_flow_first_offset.unwrap();
    let tls = t.text_lines.as_ref().unwrap();
    let n = tls.len();
    assert!(n >= 3);
    assert!((tls[0].x_offset - flow0).abs() < num(0.01));
    assert_eq!(tls[0].justify_space, num(0.0));
    for (k, tl) in tls.iter().enumerate().take(n - 1).skip(1) {
        assert_eq!(tl.x_offset, num(0.0));
        assert!((justified_width(&long_font(), tl) - num(200.0)).abs() < num(0.01));
    }
    assert_eq!(tls[n - 1].justify_space, num(0.0));
}

#[test]
fn test_text_nowrap_stays_single_line() {
    let mut style = ComputedStyle::new();
    style.white_space = WhiteSpace::Nowrap;
    let mut layout_box = LayoutBox::new(BoxType::Text(LONG_TEXT.to_string()), style);
    lay_text(&mut layout_box, &long_font(), &containing_200());

    assert!(layout_box.text_lines.is_none());
    assert_eq!(layout_box.dimensions.content.height, layout_box.get_line_height(&long_font()));
}

#[test]
fn test_short_text_does_not_wrap() {
    let style = ComputedStyle::new();
    let mut layout_box = LayoutBox::new(BoxType::Text("short".to_string()), style);
    lay_text(&mut layout_box, &long_font(), &containing_200());

    assert!(layout_box.text_lines.is_none());
    assert_eq!(layout_box.dimensions.content.height, layout_box.get_line_height(&font()));
}

#[test]
fn test_wrapped_lines_center_align() {
    let mut style = ComputedStyle::new();
    style.text_align = TextAlign::Center;
    let mut layout_box = LayoutBox::new(BoxType::Text(LONG_TEXT.to_string()), style);
    lay_text(&mut layout_box, &long_font(), &containing_200());

    for line in layout_box.text_lines.as_ref().unwrap() {
        assert_eq!(line.x_offset, num(0.0));
    }

    let mut children = vec![layout_box];
    LayoutBox::apply_text_align_offset(&mut children, &long_font(), 0, 1, num(200.0), num(200.0), TextAlign::Center);
    for line in children[0].text_lines.as_ref().unwrap() {
        let expected = ((num(200.0) - line.width) / num(2.0)).max(num(0.0));
        assert!((line.x_offset - expected).abs() < num(0.01));
    }
}

fn midline_split_parent(text_align: TextAlign) -> LayoutBox {
    let mut parent_style = ComputedStyle::new();
    parent_style.text_align = text_align;
    let mut parent = LayoutBox::new(BoxType::Block, parent_style);
    parent.dimensions.content = Rect::new(num(0.0), num(0.0), num(200.0), num(0.0));
    parent.children.push(LayoutBox::new(
        BoxType::Text("Hi".to_string()),
        ComputedStyle::new(),
    ));
    parent.children.push(LayoutBox::new(
        BoxType::Text(LONG_TEXT.to_string()),
        ComputedStyle::new(),
    ));
    parent.layout_block_children(&long_font(), None);
    parent
}

#[test]
fn a_long_first_run_keeps_its_last_line_open_for_the_next_sibling() {
    let mut parent = LayoutBox::new(BoxType::Block, ComputedStyle::new());
    parent.dimensions.content = Rect::new(num(0.0), num(0.0), num(200.0), num(0.0));
    parent.children.push(LayoutBox::new(
        BoxType::Text(LONG_TEXT.to_string()),
        ComputedStyle::new(),
    ));
    parent.children.push(LayoutBox::new(
        BoxType::Text("Hi".to_string()),
        ComputedStyle::new(),
    ));
    parent.layout_block_children(&long_font(), None);

    let run = &parent.children[0];
    let tls = run.text_lines.as_ref().unwrap();
    let n = tls.len();
    assert!(n >= 2);
    assert_eq!(run.text_flow_first_offset, Some(num(0.0)));
    assert_eq!(tls[0].x_offset, num(0.0));
    let lh = run.get_line_height(&long_font());
    let last_top = run.dimensions.content.y + (num(n as f32) - num(1.0)) * lh;
    let last_w = tls[n - 1].width;
    let hi = &parent.children[1];
    assert!((hi.dimensions.content.y - last_top).abs() < num(0.01));
    assert!((hi.dimensions.content.x - last_w).abs() < num(0.01));
    assert!((parent.dimensions.content.height - num(n as f32) * lh).abs() < num(0.01));
}

#[test]
fn center_midline_split_line0_uses_flow_plus_align() {
    let parent = midline_split_parent(TextAlign::Center);
    let hi_w = parent.children[0].dimensions.content.width;
    let t = &parent.children[1];
    let flow0 = t
        .text_flow_first_offset
        .unwrap();
    assert!((flow0 - hi_w).abs() < num(0.5));
    let tls = t
        .text_lines
        .as_ref()
        .unwrap();
    assert!(tls.len() >= 2);
    let line0_w = flow0 + tls[0].width;
    let o0 = ((num(200.0) - line0_w) / num(2.0)).max(num(0.0));
    assert!(o0 > num(1.0));
    assert!((parent.children[0].dimensions.content.x - o0).abs() < num(0.5));
    assert!((tls[0].x_offset - (flow0 + o0)).abs() < num(0.5));
}

#[test]
fn center_midline_split_does_not_stomp_earlier_text_lines() {
    let parent = midline_split_parent(TextAlign::Center);
    let t = &parent.children[1];
    let flow0 = t.text_flow_first_offset.unwrap();
    let tls = t.text_lines.as_ref().unwrap();
    let n = tls.len();
    assert!(n >= 3);
    let o0 = ((num(200.0) - (flow0 + tls[0].width)) / num(2.0)).max(num(0.0));
    assert!((tls[0].x_offset - (flow0 + o0)).abs() < num(0.5));
    for (k, tl) in tls.iter().enumerate().take(n - 1).skip(1) {
        let pure = ((num(200.0) - tl.width) / num(2.0)).max(num(0.0));
        assert!((tl.x_offset - pure).abs() < num(0.5));
    }
    let pure_last = ((num(200.0) - tls[n - 1].width) / num(2.0)).max(num(0.0));
    assert!((tls[n - 1].x_offset - pure_last).abs() < num(0.5));
}

#[test]
fn left_midline_split_offsets_unchanged() {
    let parent = midline_split_parent(TextAlign::Left);
    assert_eq!(parent.children[0].dimensions.content.x, num(0.0));
    let t = &parent.children[1];
    let flow0 = t.text_flow_first_offset.unwrap();
    let tls = t.text_lines.as_ref().unwrap();
    assert!(tls.len() >= 2);
    assert!((tls[0].x_offset - flow0).abs() < num(0.01));
    for (k, tl) in tls.iter().enumerate().skip(1) {
        assert_eq!(tl.x_offset, num(0.0));
    }
}

#[test]
fn right_midline_split_line_ends_at_container() {
    let parent = midline_split_parent(TextAlign::Right);
    let t = &parent.children[1];
    let tls = t.text_lines.as_ref().unwrap();
    let n = tls.len();
    assert!(n >= 2);

    assert!((tls[0].x_offset + tls[0].width - num(200.0)).abs() < num(0.5));
    for (k, tl) in tls.iter().enumerate().skip(1) {
        assert!((tl.x_offset + tl.width - num(200.0)).abs() < num(0.5));
    }

    let hi = &parent.children[0];
    assert!((hi.dimensions.content.x + hi.dimensions.content.width - tls[0].x_offset).abs() < num(1.0));
}

fn row_style() -> ComputedStyle {
    let mut s = ComputedStyle::new();
    s.font_family = "system-ui".to_string();
    s.font_size = Length::Px(num(16.0));
    s.line_height = LineHeight::Px(num(24.0));
    s
}

fn label_box(text: &str) -> LayoutBox {
    let mut s = row_style();
    s.display = Display::InlineBlock;
    s.width = Length::Px(num(120.0));
    s.font_size = Length::Px(num(12.0));
    s.line_height = LineHeight::Px(num(18.0));
    let mut label = LayoutBox::new(BoxType::Block, s.clone());
    let mut text_style = s;
    text_style.display = Display::Inline;
    text_style.width = Length::Auto;
    label
        .children
        .push(LayoutBox::new(BoxType::Text(text.to_string()), text_style));
    label
}

fn control_box(control: FormControlType) -> LayoutBox {
    let mut s = ComputedStyle::new();
    s.display = Display::InlineBlock;
    s.font_family = "Arial".to_string();
    s.font_size = Length::Px(num(13.333));
    s.line_height = LineHeight::Number(num(1.5));
    LayoutBox::new(BoxType::FormControl(control), s)
}

fn text_input() -> LayoutBox {
    control_box(FormControlType::TextInput {
        value: String::new(),
        placeholder: "Default size".to_string(),
        input_type: "text".to_string(),
    })
}

#[test]
fn a_line_sums_whole_pixel_ascents_like_blink() {
    assert_eq!(text_line_box_extents(&font(), &row_style()), (num(18.0), num(6.0)));
    let mut cb = Dimensions::default();
    cb.content = Rect::new(num(0.0), num(0.0), num(736.0), num(0.0));
    let mut row = LayoutBox::new(BoxType::Block, row_style());
    let ws = || LayoutBox::new(BoxType::Text(" ".to_string()), row_style());
    row.children
        .push(control_box(FormControlType::Checkbox { checked: false }));
    row.children.push(ws());
    row.children.push(label_box("Checkbox 2 (checked)"));
    row.layout(&label_font(), &cb);
    assert!((row.dimensions.content.height - num(37.0)).abs() <= num(0.05));
}

#[test]
fn wrapped_inline_block_hangs_the_line_off_its_last_line() {
    let mut cb = Dimensions::default();
    cb.content = Rect::new(num(0.0), num(0.0), num(736.0), num(0.0));
    let mut row = LayoutBox::new(BoxType::Block, row_style());
    let cb_box = || control_box(FormControlType::Checkbox { checked: false });
    let ws = || LayoutBox::new(BoxType::Text(" ".to_string()), row_style());
    row.children.push(cb_box());
    row.children.push(ws());
    row.children.push(label_box("Checkbox 1"));
    row.children.push(ws());
    row.children.push(cb_box());
    row.children.push(ws());
    row.children.push(label_box("Checkbox 2 (checked)"));
    row.layout(&label_font(), &cb);

    let row_top = row.dimensions.content.y;
    let top = |i: usize| row.children[i].dimensions.border_box().y - row_top;
    let wrapped = &row.children[6];
    assert!((wrapped.dimensions.border_box().height - num(36.0)).abs() <= num(1.0));
    assert!(top(6).abs() <= num(1.0));
    for (i, _what) in [
        (0, "first checkbox"),
        (2, "one-line label"),
        (4, "second checkbox"),
    ] {
        assert!((top(i) - num(18.0)).abs() <= num(1.5));
    }
}

#[test]
fn bare_control_widths_match_chrome() {
    let mut cb = Dimensions::default();
    cb.content = Rect::new(num(0.0), num(0.0), num(736.0), num(0.0));
    let width = |mut b: LayoutBox| {
        b.layout(&arial_font(), &cb);
        b.dimensions.border_box().width
    };
    let w = width(text_input());
    assert!((w - num(149.0)).abs() <= num(0.5));

    let ta = |cols: u32| {
        control_box(FormControlType::TextArea {
            value: String::new(),
            placeholder: String::new(),
            rows: 2,
            cols,
        })
    };
    let w20 = width(ta(20));
    let w40 = width(ta(40));
    assert!((w20 - num(178.0)).abs() <= num(1.0));
    assert!((w40 - num(338.0)).abs() <= num(1.0));

    let sel = |options: &[&str], size: u32| {
        control_box(FormControlType::Select {
            options: options.iter().map(|o| o.to_string()).collect(),
            selected_index: None,
            size,
        })
    };
    let listbox = width(sel(&["Item 1", "Item 2", "Item 3", "Item 4"], 3));
    assert!((listbox - num(39.0)).abs() <= num(3.0));
    let dropdown = width(sel(&["Option 1", "Option 2", "A longer option text"], 0));
    assert!((dropdown - num(137.0)).abs() <= num(2.0));
    let short = width(sel(&["Select"], 0));
    assert!((short - num(60.0)).abs() <= num(3.0));
}

fn text(t: &str, ws: WhiteSpace, wb: WordBreak) -> LayoutBox {
    let mut s = ComputedStyle::new();
    s.font_size = Length::Px(num(32.0));
    s.white_space = ws;
    s.word_break = wb;
    LayoutBox::new(BoxType::Text(t.to_string()), s)
}

fn fixture(
    div_ws: WhiteSpace,
    div_wb: WordBreak,
    span_ws: WhiteSpace,
    span_wb: WordBreak,
) -> LayoutBox {
    let mut s = ComputedStyle::new();
    s.display = Display::InlineBlock;
    s.font_size = Length::Px(num(32.0));
    s.width = Length::Zero;
    s.white_space = div_ws;
    s.word_break = div_wb;
    let mut div = LayoutBox::new(BoxType::Block, s);
    div.children.push(text("abc", div_ws, div_wb));
    let mut ss = ComputedStyle::new();
    ss.display = Display::Inline;
    ss.font_size = Length::Px(num(32.0));
    ss.white_space = span_ws;
    ss.word_break = span_wb;
    let mut span = LayoutBox::new(BoxType::Inline, ss);
    span.children.push(text("xyz", span_ws, span_wb));
    div.children.push(span);
    div.children.push(text("def", div_ws, div_wb));
    let mut cb = Dimensions::default();
    cb.content = Rect::new(num(0.0), num(0.0), num(800.0), num(0.0));
    div.layout(&broken_font(div_ws, div_wb), &cb);
    div
}

fn line_texts(b: &LayoutBox) -> Vec<String> {
    b.text_lines
        .as_ref()
        .map(|ls| ls.iter().map(|l| l.text.clone()).collect())
        .unwrap_or_default()
}

#[test]
fn wpt_break_boundary_2_chars_001_shape_is_seven_line_boxes() {
    let div = fixture(
        WhiteSpace::Normal,
        WordBreak::BreakAll,
        WhiteSpace::Pre,
        WordBreak::BreakAll,
    );
    let lh = div.children[0].get_line_height(&font());

    assert_eq!(line_texts(&div.children[0]), ["a", "b", "c"]);
    assert!(div.children[1].children[0].text_lines.is_none());

    let def = &div.children[2];
    assert_eq!(line_texts(def), ["", "d", "e", "f"]);
    assert!((def.dimensions.content.y - num(3.0) * lh).abs() < num(0.01));
    assert!((div.dimensions.content.height - num(7.0) * lh).abs() < num(0.01));
}

#[test]
fn wpt_break_boundary_2_chars_002_inverse_stays_one_line() {
    for div_ws in [WhiteSpace::Pre, WhiteSpace::Nowrap] {
        let div = fixture(div_ws, WordBreak::Normal, div_ws, WordBreak::BreakAll);
        let lh = div.children[0].get_line_height(&font());
        assert!(div.children[0].text_lines.is_none());
        assert!(div.children[2].text_lines.is_none());
        assert!((div.dimensions.content.height - lh).abs() < num(0.01));
    }
}

#[test]
fn pre_text_breaks_at_preserved_newlines_without_soft_wrapping() {
    let mut cb = Dimensions::default();
    cb.content = Rect::new(num(0.0), num(0.0), num(800.0), num(0.0));
    let src = "body {\n    font-family: Georgia;\n\n}";
    let mut sh = font();
    let taught = text("", WhiteSpace::Pre, WordBreak::Normal);
    wrap(&mut sh, src, &taught.style, None, f32::INFINITY, 0.5);
    wrap(&mut sh, "a\nb\n", &taught.style, None, f32::INFINITY, 0.5);
    let mut b = text(src, WhiteSpace::Pre, WordBreak::Normal);
    lay_text(&mut b, &sh, &cb);
    let lh = b.get_line_height(&font());
    assert_eq!(line_texts(&b), ["body {", "    font-family: Georgia;", "", "}"]);
    assert!((b.dimensions.content.height - num(4.0) * lh).abs() < num(0.01));

    cb.content = Rect::new(num(0.0), num(0.0), num(40.0), num(0.0));
    let mut narrow = text(src, WhiteSpace::Pre, WordBreak::Normal);
    lay_text(&mut narrow, &sh, &cb);
    assert_eq!(line_texts(&narrow).len(), 4);

    let mut trailing = text("a\nb\n", WhiteSpace::Pre, WordBreak::Normal);
    lay_text(&mut trailing, &sh, &cb);
    assert_eq!(line_texts(&trailing), ["a", "b"]);
}

#[test]
fn a_block_grows_past_an_inline_childs_wrapped_lines() {
    let make = |ws: WhiteSpace, width: Num, run: &str| {
        let mut ps = ComputedStyle::new();
        ps.font_size = Length::Px(num(16.0));
        ps.white_space = ws;
        ps.width = Length::Px(width);
        let mut p = LayoutBox::new(BoxType::Block, ps);
        let mut ss = ComputedStyle::new();
        ss.display = Display::Inline;
        ss.font_size = Length::Px(num(16.0));
        ss.white_space = ws;
        let mut span = LayoutBox::new(BoxType::Inline, ss);
        span.children.push(text(run, ws, WordBreak::Normal));
        p.children.push(span);
        let mut after = ComputedStyle::new();
        after.font_size = Length::Px(num(16.0));
        let mut sibling = LayoutBox::new(BoxType::Block, after);
        sibling
            .children
            .push(text("after", WhiteSpace::Normal, WordBreak::Normal));
        let mut body = LayoutBox::new(BoxType::Block, ComputedStyle::new());
        body.children.push(p);
        body.children.push(sibling);
        let mut cb = Dimensions::default();
        cb.content = Rect::new(num(0.0), num(0.0), num(800.0), num(0.0));
        let mut sh = font();
        let room = if ws == WhiteSpace::Pre { f32::INFINITY } else { f(width) };
        wrap(&mut sh, run, &text(run, ws, WordBreak::Normal).style, None, room, 0.5);
        body.layout(&sh, &cb);
        body
    };
    let long = "The quick brown fox jumps over the lazy dog again and again \
                until the line has no choice but to wrap around";
    let body = make(WhiteSpace::Normal, num(200.0), long);
    let (p, sib) = (&body.children[0], &body.children[1]);
    let n = p.children[0].children[0].text_lines.as_ref().unwrap().len();
    let lh = p.children[0].children[0].get_line_height(&font());
    assert!(n > 1);
    assert!((p.dimensions.content.height - num(n as f32) * lh).abs() < num(0.01));
    assert!(sib.dimensions.content.y >= p.dimensions.content.y + p.dimensions.content.height - num(0.01));

    let body = make(WhiteSpace::Pre, num(800.0), "one\ntwo\nthree");
    let p = &body.children[0];
    let lh = p.children[0].children[0].get_line_height(&font());
    assert!((p.dimensions.content.height - num(3.0) * lh).abs() < num(0.01));
}

#[test]
fn pre_line_and_pre_wrap_break_at_newlines_when_the_run_fits() {
    let mut cb = Dimensions::default();
    cb.content = Rect::new(num(0.0), num(0.0), num(800.0), num(0.0));
    for ws in [
        WhiteSpace::PreLine,
        WhiteSpace::PreWrap,
        WhiteSpace::BreakSpaces,
    ] {
        let mut b = text("one two\nthree", ws, WordBreak::Normal);
        let mut sh = font();
        wrap(&mut sh, "one two\nthree", &b.style, None, 800.0, 0.5);
        lay_text(&mut b, &sh, &cb);
        assert_eq!(line_texts(&b), ["one two", "three"]);
    }

    let mut normal = text("one two three", WhiteSpace::Normal, WordBreak::Normal);
    lay_text(&mut normal, &font(), &cb);
    assert!(normal.text_lines.is_none());
}

#[test]
fn a_bare_zero_container_width_is_still_the_intrinsic_guard() {
    let mut cb = Dimensions::default();
    cb.content = Rect::new(num(0.0), num(0.0), num(0.0), num(0.0));
    let mut guarded = text("abc", WhiteSpace::Normal, WordBreak::BreakAll);
    let sh = broken_font(WhiteSpace::Normal, WordBreak::BreakAll);
    lay_text(&mut guarded, &sh, &cb);
    assert!(guarded.text_lines.is_none());
    let mut definite = text("abc", WhiteSpace::Normal, WordBreak::BreakAll);
    definite.layout_text_with_zero_wrap(&sh, &cb, true);
    assert_eq!(line_texts(&definite), ["a", "b", "c"]);
}

use rustkit_layout::borders::border_dash_pattern;
use rustkit_layout::boxes::{BoxType, ElementIdentity, LayoutBox, Position};
use rustkit_layout::display::{BorderRadius, DisplayCommand};
use rustkit_layout::display_list::DisplayList;
use rustkit_layout::floats::Float;
use rustkit_layout::geometry::{Dimensions, EdgeSizes, Rect};
use rustkit_layout::images::ObjectFit;
use rustkit_layout::num::Num;
use rustkit_layout::sizing::blink_baseline_offset;
use rustkit_layout::style::{BackgroundImage, BackgroundLayer, BackgroundPosition, BackgroundPositionValue, BackgroundRepeat, BackgroundSize, BorderStyle, Color, ColorStop, ComputedStyle, FontStretch, Gradient, GradientDirection, Length, LineHeight, LinearGradient, Overflow, StylePosition, TextOverflow, WhiteSpace};
use rustkit_layout::text::{Face, FallbackFont, ShapedRun, Shaper, TextMetrics, measure_text_advanced, shape_line_advances};

fn num(v: f32) -> Num {
    Num::from_bits(v.to_bits())
}

fn f(v: Num) -> f32 {
    f32::from_bits(v.to_bits())
}

fn total(v: &[Num]) -> Num {
    v.iter().fold(num(0.0), |a, b| a + *b)
}

fn font() -> Shaper {
    Shaper::new(FallbackFont {
        ascent: num(0.966796875),
        descent: num(0.2109375),
        leading: num(0.0),
        underline_offset: num(0.1),
        underline_thickness: num(0.05),
        strikethrough_offset: num(0.3),
        overline_offset: num(0.9),
    })
}

fn face(style: &ComputedStyle, size: f32) -> Face {
    Face {
        family: style.font_family.clone(),
        weight: style.font_weight,
        style: style.font_style,
        stretch: FontStretch::Normal,
        size: num(size),
    }
}

fn metrics(width: f32, ascent: f32, descent: f32) -> TextMetrics {
    TextMetrics {
        width: num(width),
        ascent: num(ascent),
        descent: num(descent),
        leading: num(0.0),
        underline_offset: num(1.0),
        underline_thickness: num(1.0),
        strikethrough_offset: num(5.0),
        overline_offset: num(12.0),
    }
}

/// Teaches the shaper a run whose glyphs are each `em` of the font size wide.
fn shape(sh: &mut Shaper, text: &str, style: &ComputedStyle, em: f32) {
    let size = f(style.font_size_px());
    let letter = match style.letter_spacing {
        Length::Px(v) => f(v),
        _ => 0.0,
    };
    let advances: Vec<Num> = text.chars().map(|_| num(size * em + letter)).collect();
    let width = f(total(&advances));
    sh.runs.push(ShapedRun {
        text: text.to_string(),
        face: face(style, size),
        letter_spacing: num(letter),
        word_spacing: num(0.0),
        metrics: metrics(width, size * 0.966796875, size * 0.2109375),
        advances,
    });
}

fn ellipsis_font() -> Shaper {
    let mut sh = font();
    let style = ComputedStyle::new();
    shape(&mut sh, ELLIPSIS_TEXT, &style, 0.5);
    shape(&mut sh, "\u{2026}", &style, 0.5);
    shape(&mut sh, "tail", &style, 0.5);
    sh
}

fn arial_face(size: f32) -> Face {
    let mut style = ComputedStyle::new();
    style.font_family = "Arial".to_string();
    face(&style, size)
}

fn seat_font() -> Shaper {
    let mut sh = font();
    for (text, size, ascent, descent) in [
        ("x", 32.0, 28.96875, 6.78125),
        ("Arial", 32.0, 28.96875, 6.78125),
        ("x", 16.0, 14.484375, 3.390625),
        ("\u{1F512} x", 16.0, 20.0, 6.0),
    ] {
        let width = size * 0.5 * text.chars().count() as f32;
        sh.runs.push(ShapedRun {
            text: text.to_string(),
            face: arial_face(size),
            letter_spacing: num(0.0),
            word_spacing: num(0.0),
            metrics: metrics(width, ascent, descent),
            advances: Vec::new(),
        });
    }
    sh
}

#[test]
fn test_oversized_gradient_paint_is_clipped_to_its_box() {
    let mut style = ComputedStyle::new();
    style.background_layers = vec![BackgroundLayer {
        image: BackgroundImage::Gradient(Gradient::Linear(
            LinearGradient {
                direction: GradientDirection::Angle(num(-45.0)),
                stops: vec![
                    ColorStop {
                        color: Color {
                            r: 238,
                            g: 119,
                            b: 82,
                            a: num(1.0),
                        },
                        position: None,
                    },
                    ColorStop {
                        color: Color {
                            r: 35,
                            g: 213,
                            b: 171,
                            a: num(1.0),
                        },
                        position: None,
                    },
                ],
                repeating: false,
            },
        )),

        size: BackgroundSize::Explicit {
            width: Some(num(-400.0)),
            height: Some(num(-400.0)),
        },
        position: BackgroundPosition {
            x: BackgroundPositionValue::Percent(num(0.0)),
            y: BackgroundPositionValue::Percent(num(0.0)),
        },
        repeat: BackgroundRepeat::Repeat,
    }];

    let mut card = LayoutBox::new(BoxType::Block, style);
    card.dimensions.content = Rect::new(num(533.0), num(400.0), num(227.0), num(180.0));

    let list = DisplayList::build(&font(), &card);
    let container = card.dimensions.border_box();

    let push = list.commands.iter().position(|c| matches!(c, DisplayCommand::PushClip(r) if (r.x - container.x).abs() < num(0.5) && (r.width - container.width).abs() < num(0.5)));
    let grad = list.commands.iter().position(
        |c| matches!(c, DisplayCommand::LinearGradient { rect, .. } if rect.width > num(900.0)),
    );
    let pop = list
        .commands
        .iter()
        .position(|c| matches!(c, DisplayCommand::PopClip));

    let (push, grad, pop) = (
        push.unwrap(),
        grad.unwrap(),
        pop.unwrap(),
    );
    assert!(push < grad && grad < pop);
}

#[test]
fn test_normal_size_gradient_pushes_no_clip() {
    let mut style = ComputedStyle::new();
    style.background_layers = vec![BackgroundLayer {
        image: BackgroundImage::Gradient(Gradient::Linear(
            LinearGradient {
                direction: GradientDirection::ToBottom,
                stops: vec![
                    ColorStop {
                        color: Color {
                            r: 0,
                            g: 0,
                            b: 0,
                            a: num(1.0),
                        },
                        position: None,
                    },
                    ColorStop {
                        color: Color {
                            r: 255,
                            g: 255,
                            b: 255,
                            a: num(1.0),
                        },
                        position: None,
                    },
                ],
                repeating: false,
            },
        )),
        size: BackgroundSize::Auto,
        position: BackgroundPosition {
            x: BackgroundPositionValue::Percent(num(0.0)),
            y: BackgroundPositionValue::Percent(num(0.0)),
        },
        repeat: BackgroundRepeat::Repeat,
    }];
    let mut card = LayoutBox::new(BoxType::Block, style);
    card.dimensions.content = Rect::new(num(0.0), num(0.0), num(227.0), num(180.0));

    let list = DisplayList::build(&font(), &card);
    assert!(!list
            .commands
            .iter()
            .any(|c| matches!(c, DisplayCommand::PushClip(_))));
}

fn scaled_gradient_card(radius_px: Num) -> LayoutBox {
    let mut style = ComputedStyle::new();
    if radius_px > num(0.0) {
        style.border_top_left_radius = Length::Px(radius_px);
        style.border_top_right_radius = Length::Px(radius_px);
        style.border_bottom_right_radius = Length::Px(radius_px);
        style.border_bottom_left_radius = Length::Px(radius_px);
    }
    style.background_layers = vec![BackgroundLayer {
        image: BackgroundImage::Gradient(Gradient::Linear(
            LinearGradient {
                direction: GradientDirection::Angle(num(-45.0)),
                stops: vec![
                    ColorStop {
                        color: Color {
                            r: 238,
                            g: 119,
                            b: 82,
                            a: num(1.0),
                        },
                        position: None,
                    },
                    ColorStop {
                        color: Color {
                            r: 35,
                            g: 213,
                            b: 171,
                            a: num(1.0),
                        },
                        position: None,
                    },
                ],
                repeating: false,
            },
        )),

        size: BackgroundSize::Explicit {
            width: Some(num(-400.0)),
            height: Some(num(-400.0)),
        },
        position: BackgroundPosition {
            x: BackgroundPositionValue::Percent(num(0.0)),
            y: BackgroundPositionValue::Percent(num(0.0)),
        },
        repeat: BackgroundRepeat::Repeat,
    }];

    let mut card = LayoutBox::new(BoxType::Block, style);
    card.dimensions.content = Rect::new(num(533.0), num(400.0), num(227.0), num(180.0));
    card
}

#[test]
fn a_scaled_gradient_under_a_radius_is_clipped_at_that_radius() {
    let card = scaled_gradient_card(num(16.0));
    let container = card.dimensions.border_box();
    let list = DisplayList::build(&font(), &card);

    let rounded = list.commands.iter().find_map(|c| match c {
        DisplayCommand::PushClipRounded { rect, radius } => Some((*rect, *radius)),
        _ => None,
    });
    let (rect, radius) =
        rounded.unwrap();

    assert!((rect.x - container.x).abs() < num(0.5)
            && (rect.y - container.y).abs() < num(0.5)
            && (rect.width - container.width).abs() < num(0.5)
            && (rect.height - container.height).abs() < num(0.5));

    assert_eq!((
            radius.top_left,
            radius.top_right,
            radius.bottom_right,
            radius.bottom_left
        ), (num(16.0), num(16.0), num(16.0), num(16.0)));
    assert!(!list
            .commands
            .iter()
            .any(|c| matches!(c, DisplayCommand::PushClip(_))));
}

#[test]
fn a_scaled_gradient_under_a_radius_still_paints_the_zoomed_slice() {
    let card = scaled_gradient_card(num(16.0));
    let list = DisplayList::build(&font(), &card);

    let push = list
        .commands
        .iter()
        .position(|c| matches!(c, DisplayCommand::PushClipRounded { .. }))
        .unwrap();
    let grad = list
        .commands
        .iter()
        .position(
            |c| matches!(c, DisplayCommand::LinearGradient { rect, .. } if rect.width > num(900.0)),
        )
        .unwrap();
    let pop = list
        .commands
        .iter()
        .position(|c| matches!(c, DisplayCommand::PopClip))
        .unwrap();
    assert!(push < grad && grad < pop);
}

#[test]
fn a_scaled_gradient_with_square_corners_keeps_its_square_clip() {
    let card = scaled_gradient_card(num(0.0));
    let list = DisplayList::build(&font(), &card);
    assert!(list.commands
            .iter()
            .any(|c| matches!(c, DisplayCommand::PushClip(_))));
    assert!(!list
            .commands
            .iter()
            .any(|c| matches!(c, DisplayCommand::PushClipRounded { .. })));
}

const ELLIPSIS_TEXT: &str = "The quick brown fox jumps over the lazy dog";

fn ellipsis_tree(
    width: Num,
    text_overflow: TextOverflow,
    overflow: Overflow,
    wrap_in_inline: bool,
) -> LayoutBox {
    let mut style = ComputedStyle::new();
    style.white_space = WhiteSpace::Nowrap;
    let mut root = LayoutBox::new(BoxType::Block, style.clone());
    root.dimensions.content = Rect::new(num(0.0), num(0.0), num(800.0), num(600.0));

    let mut block_style = style.clone();
    block_style.overflow_x = overflow;
    block_style.overflow_y = overflow;
    block_style.text_overflow = text_overflow;
    let mut block = LayoutBox::new(BoxType::Block, block_style);
    block.dimensions.content = Rect::new(num(10.0), num(10.0), width, num(20.0));

    let mut text = LayoutBox::new(BoxType::Text(ELLIPSIS_TEXT.to_string()), style.clone());
    text.dimensions.content = Rect::new(num(10.0), num(10.0), width, num(20.0));

    if wrap_in_inline {
        let mut inline = LayoutBox::new(BoxType::Inline, style);
        inline.dimensions.content = Rect::new(num(10.0), num(10.0), width, num(20.0));
        inline.children.push(text);
        block.children.push(inline);
    } else {
        block.children.push(text);
    }
    root.children.push(block);
    root
}

fn text_commands(list: &DisplayList) -> Vec<(String, Num, Option<Vec<Num>>)> {
    list.commands
        .iter()
        .filter_map(|c| match c {
            DisplayCommand::Text {
                text, x, advances, ..
            } => Some((text.clone(), *x, advances.clone())),
            _ => None,
        })
        .collect()
}

fn seat_probe(
    family: &str,
    font_size: Num,
    line_height: LineHeight,
    text: &str,
) -> (Num, Num, Num) {
    let mut style = ComputedStyle::new();
    style.font_family = family.to_string();
    style.font_size = Length::Px(font_size);
    style.line_height = line_height;
    let mut root = LayoutBox::new(BoxType::Block, ComputedStyle::new());
    root.dimensions.content = Rect::new(num(0.0), num(0.0), num(800.0), num(600.0));
    let mut text_box = LayoutBox::new(BoxType::Text(text.to_string()), style);
    text_box.dimensions.content = Rect::new(num(20.0), num(100.0), num(600.0), font_size);
    root.children.push(text_box);
    let list = DisplayList::build(&seat_font(), &root);
    let cmd = list
        .commands
        .iter()
        .find_map(|c| match c {
            DisplayCommand::Text { y, ascent, .. } => Some((*y, ascent.unwrap())),
            _ => None,
        })
        .unwrap();
    (num(100.0), cmd.0, cmd.1)
}

#[test]
fn test_negative_leading_seats_the_baseline_above_the_line_top() {
    let (top, y, ascent) = seat_probe("Arial", num(32.0), LineHeight::Number(num(1.0)), "Arial");
    let m = measure_text_advanced(&seat_font(), &"x".to_string(), &arial_face(32.0));
    if m.ascent <= num(0.0) {
        return;
    }
    let content = m.ascent + m.descent;
    assert!(content > num(32.0));

    let expected = top + blink_baseline_offset(num(32.0), m.ascent, m.descent);
    assert_eq!((y + ascent).round(), expected);
    assert!(expected < top + m.ascent.round());
    assert!(y < top);
    assert!((ascent - m.ascent).abs() < num(0.01));
}

#[test]
fn test_explicit_line_height_seats_on_the_primary_face() {
    let arial = measure_text_advanced(&seat_font(), &"x".to_string(), &arial_face(16.0));
    let united = measure_text_advanced(&seat_font(), &"🔒 x".to_string(), &arial_face(16.0));
    if arial.ascent <= num(0.0) || united.ascent <= arial.ascent + num(1.0) {
        return;
    }
    let (top, y, ascent) = seat_probe("Arial", num(16.0), LineHeight::Px(num(20.0)), "🔒 x");
    assert!((ascent - arial.ascent).abs() < num(0.01));
    let expected = top + blink_baseline_offset(num(20.0), arial.ascent, arial.descent);
    assert_eq!((y + ascent).round(), expected);

    let (_, _, ascent_normal) = seat_probe("Arial", num(16.0), LineHeight::Normal, "🔒 x");
    assert!((ascent_normal - united.ascent).abs() < num(0.01));
}

#[test]
fn test_text_overflow_ellipsis_cuts_overflowing_run_inside_content_edge() {
    let root = ellipsis_tree(
        num(100.0),
        TextOverflow::Ellipsis,
        Overflow::Hidden,
        false,
    );
    let texts = text_commands(&DisplayList::build(&ellipsis_font(), &root));
    assert_eq!(texts.len(), 1);
    let (text, x, advances) = &texts[0];
    assert!(text.ends_with('\u{2026}'));
    assert!(text.chars().count() > 3 && text.chars().count() < ELLIPSIS_TEXT.chars().count());
    let advances = advances.as_ref().unwrap();
    assert_eq!(advances.len(), text.chars().count());
    let width = total(advances);
    assert!(*x + width <= num(10.0) + num(100.0) + num(0.01));

    let full =
        shape_line_advances(
            &ellipsis_font(),
            &ELLIPSIS_TEXT.to_string(),
            &root.children[0].style,
            num(16.0),
        ).unwrap();
    let kept = text.chars().count() - 1;
    let next_width = total(&full[..kept + 1]) + advances[kept];
    assert!(*x + next_width > num(110.0));
}

#[test]
fn test_text_overflow_ellipsis_leaves_a_fitting_run_alone() {
    let root = ellipsis_tree(
        num(1000.0),
        TextOverflow::Ellipsis,
        Overflow::Hidden,
        false,
    );
    let texts = text_commands(&DisplayList::build(&ellipsis_font(), &root));
    assert_eq!(texts.len(), 1);
    assert_eq!(texts[0].0, ELLIPSIS_TEXT);
}

#[test]
fn test_text_overflow_needs_overflow_other_than_visible() {
    let root = ellipsis_tree(
        num(100.0),
        TextOverflow::Ellipsis,
        Overflow::Visible,
        false,
    );
    let texts = text_commands(&DisplayList::build(&ellipsis_font(), &root));
    assert_eq!(texts[0].0, ELLIPSIS_TEXT);
}

#[test]
fn test_text_overflow_clip_is_the_initial_value_and_cuts_nothing() {
    let root = ellipsis_tree(
        num(100.0),
        TextOverflow::Clip,
        Overflow::Hidden,
        false,
    );
    let texts = text_commands(&DisplayList::build(&ellipsis_font(), &root));
    assert_eq!(texts[0].0, ELLIPSIS_TEXT);
    assert_eq!(ComputedStyle::new().text_overflow, TextOverflow::Clip);
}

#[test]
fn test_text_overflow_scope_reaches_through_inline_boxes() {
    let root = ellipsis_tree(
        num(100.0),
        TextOverflow::Ellipsis,
        Overflow::Hidden,
        true,
    );
    let texts = text_commands(&DisplayList::build(&ellipsis_font(), &root));
    assert_eq!(texts.len(), 1);
    assert!(texts[0].0.ends_with('\u{2026}'));
}

#[test]
fn test_text_overflow_does_not_leak_into_a_nested_block_container() {
    let mut root = ellipsis_tree(
        num(100.0),
        TextOverflow::Ellipsis,
        Overflow::Hidden,
        false,
    );
    let text = root.children[0].children.pop().unwrap();
    let mut inner = LayoutBox::new(BoxType::Block, ComputedStyle::new());
    inner.dimensions.content = Rect::new(num(10.0), num(10.0), num(100.0), num(20.0));
    inner.children.push(text);
    root.children[0].children.push(inner);

    let texts = text_commands(&DisplayList::build(&ellipsis_font(), &root));
    assert_eq!(texts.len(), 1);
    assert_eq!(texts[0].0, ELLIPSIS_TEXT);
}

#[test]
fn test_text_overflow_hides_a_later_run_behind_the_ellipsis() {
    for second_x in [num(300.0), num(60.0)] {
        let mut root = ellipsis_tree(
            num(100.0),
            TextOverflow::Ellipsis,
            Overflow::Hidden,
            false,
        );
        let mut second = LayoutBox::new(
            BoxType::Text("tail".to_string()),
            root.children[0].children[0].style.clone(),
        );
        second.dimensions.content = Rect::new(second_x, num(10.0), num(30.0), num(20.0));
        root.children[0].children.push(second);

        let texts = text_commands(&DisplayList::build(&ellipsis_font(), &root));
        assert_eq!(texts.len(), 1);
        assert!(texts[0].0.ends_with('\u{2026}'));
    }

    let mut root = ellipsis_tree(
        num(100.0),
        TextOverflow::Ellipsis,
        Overflow::Hidden,
        false,
    );
    let mut second = LayoutBox::new(
        BoxType::Text("tail".to_string()),
        root.children[0].children[0].style.clone(),
    );
    second.dimensions.content = Rect::new(num(10.0), num(30.0), num(30.0), num(20.0));
    root.children[0].children.push(second);
    let texts = text_commands(&DisplayList::build(&ellipsis_font(), &root));
    assert_eq!(texts.len(), 2);
    assert_eq!(texts[1].0, "tail");
}

fn rounded_overflow_parent(radius_px: Num, hidden: bool) -> LayoutBox {
    let mut style = ComputedStyle::new();
    style.border_top_left_radius = Length::Px(radius_px);
    style.border_top_right_radius = Length::Px(radius_px);
    style.border_bottom_right_radius = Length::Px(radius_px);
    style.border_bottom_left_radius = Length::Px(radius_px);
    if hidden {
        style.overflow_x = Overflow::Hidden;
        style.overflow_y = Overflow::Hidden;
    }

    let mut child_style = ComputedStyle::new();
    child_style.background_color = Color {
        r: 102,
        g: 126,
        b: 234,
        a: num(1.0),
    };
    let mut child = LayoutBox::new(BoxType::Block, child_style);
    child.dimensions.content = Rect::new(num(0.0), num(0.0), num(227.0), num(180.0));

    let mut parent = LayoutBox::new(BoxType::Block, style);
    parent.dimensions.content = Rect::new(num(0.0), num(0.0), num(227.0), num(180.0));
    parent.children.push(child);
    parent
}

fn rounded_clip(list: &DisplayList) -> Option<(Rect, BorderRadius)> {
    list.commands.iter().find_map(|c| match c {
        DisplayCommand::PushClipRounded { rect, radius } => Some((*rect, *radius)),
        _ => None,
    })
}

#[test]
fn a_bordered_box_under_a_radius_paints_one_rounded_border() {
    let mut b = rounded_overflow_parent(num(12.0), false);
    b.children.clear();
    b.dimensions.border = EdgeSizes {
        top: num(5.0),
        right: num(5.0),
        bottom: num(5.0),
        left: num(5.0),
    };
    b.style.border_top_color = Color::opaque_gray(0);
    let list = DisplayList::build(&font(), &under_root(b));
    let rounded: Vec<_> = list
        .commands
        .iter()
        .filter_map(|c| match c {
            DisplayCommand::RoundedBorder { rect, widths, colors, radius } => {
                Some((*rect, *widths, *colors, *radius))
            }
            _ => None,
        })
        .collect();
    assert_eq!(rounded.len(), 1);
    let (rect, widths, colors, radius) = rounded[0];
    assert_eq!(rect.width, num(237.0));
    assert_eq!(
        (widths.top, widths.right, widths.bottom, widths.left),
        (num(5.0), num(5.0), num(5.0), num(5.0))
    );
    assert!(colors.top.is(Color::opaque_gray(0)));
    assert_eq!(radius.bottom_left, num(12.0));
    assert!(!list.commands.iter().any(|c| matches!(c, DisplayCommand::SolidColor(col, _) if col.is(Color::opaque_gray(0)))));

    let mut sq = rounded_overflow_parent(num(0.0), false);
    sq.children.clear();
    sq.dimensions.border.top = num(5.0);
    let list = DisplayList::build(&font(), &under_root(sq));
    assert!(!list
        .commands
        .iter()
        .any(|c| matches!(c, DisplayCommand::RoundedBorder { .. })));
}

#[test]
fn a_rounded_dashed_border_keeps_its_dashes() {
    let mut b = rounded_overflow_parent(num(12.0), false);
    b.children.clear();
    b.dimensions.border = EdgeSizes { top: num(5.0), right: num(5.0), bottom: num(5.0), left: num(5.0) };
    b.style.border_top_style = BorderStyle::Dashed;
    let list = DisplayList::build(&font(), &under_root(b));
    assert!(!list.commands.iter().any(|c| matches!(c, DisplayCommand::RoundedBorder { .. })));
}

#[test]
fn overflow_hidden_under_a_radius_pushes_a_rounded_clip_around_its_children() {
    let list = DisplayList::build(&font(), &under_root(rounded_overflow_parent(num(12.0), true)));
    let (rect, radius) = rounded_clip(&list).unwrap();
    assert_eq!(radius.top_left, num(12.0));
    assert_eq!(rect.width, num(227.0));

    let push = list
        .commands
        .iter()
        .position(|c| matches!(c, DisplayCommand::PushClipRounded { .. }))
        .unwrap();
    let child_bg = list
        .commands
        .iter()
        .position(|c| matches!(c, DisplayCommand::SolidColor(color, _) if color.b == 234))
        .unwrap();
    let pop = list
        .commands
        .iter()
        .rposition(|c| matches!(c, DisplayCommand::PopClip))
        .unwrap();
    assert!(push < child_bg && child_bg < pop);
}

#[test]
fn positioned_children_are_inside_the_clip_too() {
    let mut parent = rounded_overflow_parent(num(12.0), true);
    parent.position = Position::Relative;
    let mut overlay_style = ComputedStyle::new();
    overlay_style.background_color = Color {
        r: 0,
        g: 0,
        b: 0,
        a: num(0.7),
    };
    let mut overlay = LayoutBox::new(BoxType::Block, overlay_style);
    overlay.position = Position::Absolute;
    overlay.dimensions.content = Rect::new(num(0.0), num(120.0), num(227.0), num(60.0));
    parent.children.push(overlay);

    let list = DisplayList::build(&font(), &under_root(parent));
    let push = list
        .commands
        .iter()
        .position(|c| matches!(c, DisplayCommand::PushClipRounded { .. }))
        .unwrap();
    let overlay_bg = list
        .commands
        .iter()
        .position(|c| matches!(c, DisplayCommand::SolidColor(color, _) if color.a == num(0.7)))
        .unwrap();
    let pop = list
        .commands
        .iter()
        .rposition(|c| matches!(c, DisplayCommand::PopClip))
        .unwrap();
    assert!(push < overlay_bg && overlay_bg < pop);
}

#[test]
fn overflow_visible_pushes_no_clip_however_round_the_box_is() {
    let list = DisplayList::build(&font(), &rounded_overflow_parent(num(12.0), false));
    assert!(rounded_clip(&list).is_none());
}

fn under_root(inner: LayoutBox) -> LayoutBox {
    let mut root = LayoutBox::new(BoxType::Block, ComputedStyle::new());
    root.dimensions.content = Rect::new(num(0.0), num(0.0), num(800.0), num(600.0));
    root.children.push(inner);
    root
}

fn square_clip(list: &DisplayList) -> Option<Rect> {
    list.commands.iter().find_map(|c| match c {
        DisplayCommand::PushClip(rect) => Some(*rect),
        _ => None,
    })
}

#[test]
fn overflow_hidden_with_square_corners_pushes_a_square_clip_around_its_children() {
    let list = DisplayList::build(&font(), &under_root(rounded_overflow_parent(num(0.0), true)));
    assert!(rounded_clip(&list).is_none());
    let rect = square_clip(&list).unwrap();
    assert_eq!((rect.width, rect.height), (num(227.0), num(180.0)));

    let push = list
        .commands
        .iter()
        .position(|c| matches!(c, DisplayCommand::PushClip(_)))
        .unwrap();
    let child_bg = list
        .commands
        .iter()
        .position(|c| matches!(c, DisplayCommand::SolidColor(color, _) if color.b == 234))
        .unwrap();
    let pop = list
        .commands
        .iter()
        .rposition(|c| matches!(c, DisplayCommand::PopClip))
        .unwrap();
    assert!(push < child_bg && child_bg < pop);
}

#[test]
fn the_root_never_clips_its_overflow_propagates_to_the_viewport() {
    let list = DisplayList::build(&font(), &rounded_overflow_parent(num(0.0), true));
    assert!(square_clip(&list).is_none() && rounded_clip(&list).is_none());
}

#[test]
fn body_does_not_clip_while_the_root_overflow_is_visible() {
    let mut body = rounded_overflow_parent(num(0.0), true);
    body.identity = Some(Box::new(ElementIdentity {
        element_id: 1,
        tag: "body".to_string(),
        selector: "body".to_string(),
    }));
    let list = DisplayList::build(&font(), &under_root(body));
    assert!(square_clip(&list).is_none());

    let mut body = rounded_overflow_parent(num(0.0), true);
    body.identity = Some(Box::new(ElementIdentity {
        element_id: 1,
        tag: "body".to_string(),
        selector: "body".to_string(),
    }));
    let mut root = under_root(body);
    root.style.overflow_y = Overflow::Auto;
    let list = DisplayList::build(&font(), &root);
    assert!(square_clip(&list).is_some());
}

#[test]
fn an_absolute_child_of_a_static_clipper_escapes_the_clip() {
    let mut parent = rounded_overflow_parent(num(0.0), true);
    let mut overlay_style = ComputedStyle::new();
    overlay_style.background_color = Color {
        r: 0,
        g: 0,
        b: 0,
        a: num(0.7),
    };
    let mut overlay = LayoutBox::new(BoxType::Block, overlay_style);
    overlay.position = Position::Absolute;
    overlay.dimensions.content = Rect::new(num(0.0), num(120.0), num(227.0), num(60.0));
    parent.children.push(overlay);

    let mut later_style = ComputedStyle::new();
    later_style.background_color = Color {
        r: 9,
        g: 9,
        b: 9,
        a: num(1.0),
    };
    let mut later = LayoutBox::new(BoxType::Block, later_style);
    later.float = Float::Left;
    later.dimensions.content = Rect::new(num(0.0), num(0.0), num(10.0), num(10.0));
    parent.children.push(later);

    let list = DisplayList::build(&font(), &under_root(parent));
    let cmds = &list.commands;
    let overlay_bg = cmds
        .iter()
        .position(|c| matches!(c, DisplayCommand::SolidColor(color, _) if color.a == num(0.7)))
        .unwrap();
    let later_bg = cmds
        .iter()
        .position(|c| matches!(c, DisplayCommand::SolidColor(color, _) if color.r == 9))
        .unwrap();

    let depth_at = |i: usize| {
        cmds[..i].iter().fold(0i32, |d, c| match c {
            DisplayCommand::PushClip(_) | DisplayCommand::PushClipRounded { .. } => d + 1,
            DisplayCommand::PopClip => d - 1,
            _ => d,
        })
    };
    assert_eq!(depth_at(overlay_bg), 0);
    assert_eq!(depth_at(later_bg), 1);
    assert_eq!(depth_at(cmds.len()), 0);
}

#[test]
fn a_style_relative_clipper_is_a_containing_block_even_when_laid_out_static() {
    let mut parent = rounded_overflow_parent(num(12.0), true);
    parent.style.position = StylePosition::Relative;
    let mut overlay_style = ComputedStyle::new();
    overlay_style.background_color = Color {
        r: 0,
        g: 0,
        b: 0,
        a: num(0.7),
    };
    let mut overlay = LayoutBox::new(BoxType::Block, overlay_style);
    overlay.position = Position::Absolute;
    overlay.dimensions.content = Rect::new(num(0.0), num(120.0), num(227.0), num(60.0));
    parent.children.push(overlay);

    let list = DisplayList::build(&font(), &under_root(parent));
    let cmds = &list.commands;
    let overlay_bg = cmds
        .iter()
        .position(|c| matches!(c, DisplayCommand::SolidColor(color, _) if color.a == num(0.7)))
        .unwrap();
    let depth = cmds[..overlay_bg].iter().fold(0i32, |d, c| match c {
        DisplayCommand::PushClip(_) | DisplayCommand::PushClipRounded { .. } => d + 1,
        DisplayCommand::PopClip => d - 1,
        _ => d,
    });
    assert_eq!(depth, 1);
}

#[test]
fn an_absolute_child_of_a_positioned_clipper_stays_inside_the_clip() {
    let mut parent = rounded_overflow_parent(num(0.0), true);
    parent.position = Position::Relative;
    let mut overlay_style = ComputedStyle::new();
    overlay_style.background_color = Color {
        r: 0,
        g: 0,
        b: 0,
        a: num(0.7),
    };
    let mut overlay = LayoutBox::new(BoxType::Block, overlay_style);
    overlay.position = Position::Absolute;
    overlay.dimensions.content = Rect::new(num(0.0), num(120.0), num(227.0), num(60.0));
    parent.children.push(overlay);

    let list = DisplayList::build(&font(), &under_root(parent));
    let cmds = &list.commands;
    let overlay_bg = cmds
        .iter()
        .position(|c| matches!(c, DisplayCommand::SolidColor(color, _) if color.a == num(0.7)))
        .unwrap();
    let depth = cmds[..overlay_bg].iter().fold(0i32, |d, c| match c {
        DisplayCommand::PushClip(_) | DisplayCommand::PushClipRounded { .. } => d + 1,
        DisplayCommand::PopClip => d - 1,
        _ => d,
    });
    assert_eq!(depth, 1);
}

#[test]
fn the_overflow_clip_is_the_padding_box_with_the_radius_shrunk_by_the_border() {
    let mut parent = rounded_overflow_parent(num(12.0), true);
    parent.dimensions.border = EdgeSizes {
        top: num(4.0),
        right: num(4.0),
        bottom: num(4.0),
        left: num(4.0),
    };
    let border_box = parent.dimensions.border_box();

    let list = DisplayList::build(&font(), &under_root(parent));
    let (rect, radius) = rounded_clip(&list).unwrap();
    assert_eq!(rect.x, border_box.x + num(4.0));
    assert_eq!(rect.width, border_box.width - num(8.0));
    assert_eq!(radius.top_left, num(8.0));
}

#[test]
fn a_radius_swallowed_entirely_by_its_border_is_a_square_clip() {
    let mut parent = rounded_overflow_parent(num(4.0), true);
    parent.dimensions.border = EdgeSizes {
        top: num(6.0),
        right: num(6.0),
        bottom: num(6.0),
        left: num(6.0),
    };

    let list = DisplayList::build(&font(), &under_root(parent));
    assert!(rounded_clip(&list).is_none());
    let rect = square_clip(&list).unwrap();
    assert_eq!(rect.width, num(227.0));
}

#[test]
fn the_box_own_background_is_not_inside_its_own_overflow_clip() {
    let mut parent = rounded_overflow_parent(num(12.0), true);
    parent.style.background_color = Color {
        r: 45,
        g: 45,
        b: 68,
        a: num(1.0),
    };

    let list = DisplayList::build(&font(), &under_root(parent));
    let push = list
        .commands
        .iter()
        .position(|c| matches!(c, DisplayCommand::PushClipRounded { .. }))
        .unwrap();
    let own_bg = list
        .commands
        .iter()
        .position(|c| matches!(c, DisplayCommand::RoundedRect { .. }))
        .unwrap();
    assert!(own_bg < push);
}

#[test]
fn dashed_border_matches_blinks_dash_gap_selection() {
    assert_eq!(border_dash_pattern(BorderStyle::Dashed, num(10.0), num(200.0)), Some((num(20.0), num(10.0))));
    let (dash, gap) = border_dash_pattern(BorderStyle::Dashed, num(10.0), num(100.0)).unwrap();
    assert_eq!(dash, num(20.0));
    assert!((gap - num(20.0) / num(3.0)).abs() < num(1e-4));
    assert_eq!(border_dash_pattern(BorderStyle::Solid, num(10.0), num(200.0)), None);
    assert_eq!(border_dash_pattern(BorderStyle::Dashed, num(10.0), num(40.0)), None);

    let mut style = ComputedStyle::new();
    style.border_top_style = BorderStyle::Dashed;
    style.border_top_color = Color::new(51, 51, 51, num(1.0));
    let mut b = LayoutBox::new(BoxType::Block, style);
    b.dimensions.content = Rect::new(num(10.0), num(10.0), num(180.0), num(80.0));
    b.dimensions.border = EdgeSizes { top: num(10.0), right: num(0.0), bottom: num(0.0), left: num(10.0) };
    let list = DisplayList::build(&font(), &b);
    let top_dashes = list
        .commands
        .iter()
        .filter(|c| {
            matches!(c, DisplayCommand::SolidColor(_, r)
                if r.y == num(0.0) && r.height == num(10.0) && r.width == num(20.0))
        })
        .count();
    assert_eq!(top_dashes, 7);
}

#[test]
fn test_display_list_build() {
    let mut style = ComputedStyle::new();
    style.background_color = Color::new(255, 255, 255, num(1.0));

    let mut layout_box = LayoutBox::new(BoxType::Block, style);

    layout_box.dimensions.content = Rect::new(num(0.0), num(0.0), num(100.0), num(100.0));
    let display_list = DisplayList::build(&font(), &layout_box);

    assert!(!display_list.commands.is_empty());
}

#[test]
fn text_run_paints_no_background_of_its_own() {
    let mut text_style = ComputedStyle::new();
    text_style.background_color = Color::new(255, 0, 0, num(1.0));
    let mut text = LayoutBox::new(BoxType::Text("🌆".to_string()), text_style);
    text.dimensions.content = Rect::new(num(10.0), num(10.0), num(48.0), num(63.0));
    let mut parent = LayoutBox::new(BoxType::Block, ComputedStyle::new());
    parent.dimensions.content = Rect::new(num(0.0), num(0.0), num(200.0), num(100.0));
    parent.children.push(text);
    let display_list = DisplayList::build(&font(), &parent);
    let fills: Vec<String> = display_list
        .commands
        .iter()
        .map(|c| format!("{:?}", c))
        .filter(|c| c.starts_with("SolidColor") || c.starts_with("RoundedRect"))
        .collect();
    assert!(fills.is_empty());
}

#[test]
fn test_display_list_with_positioned() {
    let style = ComputedStyle::new();
    let mut parent = LayoutBox::new(BoxType::Block, style.clone());

    let mut child = LayoutBox::with_position(BoxType::Block, style, Position::Absolute);
    child.set_z_index(-1);
    parent.children.push(child);

    let display_list = DisplayList::build(&font(), &parent);

    assert!(!display_list.commands.is_empty());
}

#[test]
fn test_display_list_build_with_scroll() {
    let style = ComputedStyle::new();
    let mut layout_box = LayoutBox::new(BoxType::Block, style.clone());
    layout_box.dimensions.content = Rect::new(num(0.0), num(0.0), num(800.0), num(600.0));

    let mut sticky_child = LayoutBox::with_position(BoxType::Block, style, Position::Sticky);
    sticky_child.set_offsets(Some(num(10.0)), None, None, None);
    sticky_child.dimensions.content = Rect::new(num(0.0), num(100.0), num(200.0), num(50.0));

    let containing_block = Dimensions::default();
    sticky_child.apply_position_offsets(&containing_block);

    layout_box.children.push(sticky_child);

    let viewport = Rect::new(num(0.0), num(0.0), num(800.0), num(600.0));

    let _display_list = DisplayList::build_with_scroll(&font(), &mut layout_box, num(0.0), num(0.0), viewport);

    let sticky = layout_box.children[0].sticky_state.as_ref().unwrap();
    assert!(!sticky.is_stuck);

    let _display_list = DisplayList::build_with_scroll(&font(), &mut layout_box, num(0.0), num(150.0), viewport);

    let sticky = layout_box.children[0].sticky_state.as_ref().unwrap();
    assert!(sticky.is_stuck);
}

#[test]
fn object_fit_derived_default_is_fill_not_contain() {
    assert_eq!(ObjectFit::default(), ObjectFit::Fill);
}

fn box_with(radius: Length, bg: Color) -> LayoutBox {
    let mut s = ComputedStyle::new();
    s.background_color = bg;
    s.border_top_left_radius = radius.clone();
    s.border_top_right_radius = radius.clone();
    s.border_bottom_right_radius = radius.clone();
    s.border_bottom_left_radius = radius;
    let mut b = LayoutBox::new(BoxType::Block, s);
    b.dimensions.content.width = num(80.0);
    b.dimensions.content.height = num(40.0);
    b
}

fn kinds(b: &LayoutBox) -> Vec<String> {
    DisplayList::build(&font(), b)
        .commands
        .iter()
        .map(|c| {
            format!("{c:?}")
                .chars()
                .take_while(|ch| ch.is_alphanumeric())
                .collect()
        })
        .collect()
}

#[test]
fn a_square_box_still_emits_solid_color() {
    let k = kinds(&box_with(Length::Zero, Color::new(51, 102, 204, num(1.0))));
    assert!(k.contains(&"SolidColor".to_string()));
    assert!(!k.contains(&"RoundedRect".to_string()));
}

#[test]
fn a_rounded_box_emits_roundedrect_through_the_live_path() {
    let k = kinds(&box_with(Length::Px(num(12.0)), Color::new(51, 102, 204, num(1.0))));
    assert!(k.contains(&"RoundedRect".to_string()));
    assert!(!k.contains(&"SolidColor".to_string()));
}

#[test]
fn a_transparent_box_emits_no_fill() {
    let k = kinds(&box_with(Length::Px(num(12.0)), Color::transparent()));
    assert!(!k.contains(&"RoundedRect".to_string()));
    assert!(!k.contains(&"SolidColor".to_string()));
}

fn level(list: &DisplayList) -> i32 {
    let mut open = 0;
    for c in &list.commands {
        match c {
            DisplayCommand::PushClip(_)
            | DisplayCommand::PushClipRounded { .. }
            | DisplayCommand::PushStackingContext { .. }
            | DisplayCommand::PushTransform { .. } => open += 1,
            DisplayCommand::PopClip
            | DisplayCommand::PopStackingContext
            | DisplayCommand::PopTransform => open -= 1,
            _ => {}
        }
        assert!(open >= 0);
    }
    open
}

#[test]
fn every_push_has_its_pop() {
    let mut root = under_root(rounded_overflow_parent(num(12.0), true));
    let mut over = LayoutBox::with_position(
        BoxType::Block,
        ComputedStyle::new(),
        Position::Absolute,
    );
    over.set_z_index(3);
    over.style.overflow_x = Overflow::Hidden;
    over.dimensions.content = Rect::new(num(0.0), num(0.0), num(30.0), num(30.0));
    root.children[0].children.push(over);
    let list = DisplayList::build(&font(), &root);
    assert_eq!(level(&list), 0);
    assert!(list
        .commands
        .iter()
        .any(|c| matches!(c, DisplayCommand::PushStackingContext { z_index: 3, .. })));
}

#[test]
fn an_empty_list_has_no_commands() {
    assert!(DisplayList::new().commands.is_empty());
    assert!(DisplayList::default().commands.is_empty());
}

use rustkit_layout::boxes::{BoxType, LayoutBox, Position};
use rustkit_layout::floats::FloatContext;
use rustkit_layout::geometry::{Dimensions, Rect};
use rustkit_layout::margin_collapse::MarginCollapseContext;
use rustkit_layout::num::Num;
use rustkit_layout::sizing::FormControlType;
use rustkit_layout::style::{BoxSizing, CalcSum, ComputedStyle, Display, FontWeight, Length, LineHeight, StylePosition, TextAlign, VerticalAlign};
use rustkit_layout::text::{FallbackFont, Shaper};

fn num(v: f32) -> Num {
    Num::from_bits(v.to_bits())
}

fn font() -> Shaper {
    Shaper::new(FallbackFont {
        ascent: num(0.966796875),
        descent: num(0.2109375),
        leading: num(0.0),
        underline_offset: num(0.1),
        underline_thickness: num(0.05),
        strikethrough_offset: num(0.3),
        overline_offset: num(0.9),
    })
}

#[test]
fn test_fixed_positions_against_viewport_not_flow() {
    let mut style = ComputedStyle::new();
    style.width = Length::Px(num(40.0));
    style.height = Length::Px(num(40.0));
    let mut fixed = LayoutBox::new(BoxType::Block, style);
    fixed.position = Position::Fixed;
    fixed.offsets.right = Some(num(0.0));
    fixed.offsets.bottom = Some(num(0.0));

    let mut root = LayoutBox::new(BoxType::Block, ComputedStyle::new());
    root.children.push(fixed);
    root.set_viewport(num(800.0), num(600.0));

    let containing = Dimensions {
        content: Rect::new(num(0.0), num(0.0), num(800.0), num(320.0)),
        ..Default::default()
    };
    root.layout(&font(), &containing);

    let f = &root.children[0].dimensions.content;
    assert!((f.x - num(760.0)).abs() < num(0.5) && (f.y - num(560.0)).abs() < num(0.5));
}

fn containing_1000() -> Dimensions {
    let mut cb = Dimensions::default();
    cb.content = Rect::new(num(0.0), num(0.0), num(1000.0), num(600.0));
    cb
}

#[test]
fn test_lone_text_centers_via_parent_line_record() {
    let mut parent_style = ComputedStyle::new();
    parent_style.text_align = TextAlign::Center;
    let mut parent = LayoutBox::new(BoxType::Block, parent_style);
    parent.dimensions.content = Rect::new(num(0.0), num(0.0), num(700.0), num(0.0));

    let mut text_style = ComputedStyle::new();
    text_style.text_align = TextAlign::Center;
    text_style.font_size = Length::Px(num(32.0));
    parent.children.push(LayoutBox::new(
        BoxType::Text("Hello".to_string()),
        text_style,
    ));

    parent.layout_block_children(&font(), None);

    let t = &parent.children[0];
    let w = t.dimensions.content.width;
    let expected = (num(700.0) - w) / num(2.0);
    assert!((t.dimensions.content.x - expected).abs() < num(1.0));
}

#[test]
fn test_inline_line_shifts_as_unit() {
    let mut parent_style = ComputedStyle::new();
    parent_style.text_align = TextAlign::Center;
    let mut parent = LayoutBox::new(BoxType::Block, parent_style);
    parent.dimensions.content = Rect::new(num(0.0), num(0.0), num(600.0), num(0.0));

    let mut b_style = ComputedStyle::new();
    b_style.display = Display::Inline;
    b_style.font_weight = FontWeight(700);
    let mut b = LayoutBox::new(BoxType::Inline, b_style);
    b.children.push(LayoutBox::new(
        BoxType::Text("bold".to_string()),
        ComputedStyle::new(),
    ));
    parent.children.push(b);
    parent.children.push(LayoutBox::new(
        BoxType::Text(" world".to_string()),
        ComputedStyle::new(),
    ));

    parent.layout_block_children(&font(), None);

    let b = &parent.children[0];
    let t = &parent.children[1];
    let line_w = b.dimensions.margin_box().width + t.dimensions.content.width;
    let expected_start = (num(600.0) - line_w) / num(2.0);
    assert!((b.dimensions.content.x - expected_start).abs() < num(1.5));

    let inner = &b.children[0];
    assert!((inner.dimensions.content.x - b.dimensions.content.x).abs() < num(0.5));

    assert!(t.dimensions.content.x > b.dimensions.content.x);
}

#[test]
fn test_image_max_width_preserves_aspect() {
    let mut style = ComputedStyle::new();
    style.max_width = Length::Px(num(80.0));
    let mut layout_box = LayoutBox::new(
        BoxType::Image {
            url: String::new(),
            natural_width: num(100.0),
            natural_height: num(100.0),
        },
        style,
    );
    layout_box.layout_image(num(100.0), num(100.0), &containing_1000());
    assert_eq!(layout_box.dimensions.content.width, num(80.0));
    assert_eq!(layout_box.dimensions.content.height, num(80.0));
}

#[test]
fn test_image_max_height_preserves_aspect() {
    let mut style = ComputedStyle::new();
    style.max_height = Length::Px(num(60.0));
    let mut layout_box = LayoutBox::new(
        BoxType::Image {
            url: String::new(),
            natural_width: num(200.0),
            natural_height: num(100.0),
        },
        style,
    );
    layout_box.layout_image(num(200.0), num(100.0), &containing_1000());
    assert_eq!(layout_box.dimensions.content.width, num(120.0));
    assert_eq!(layout_box.dimensions.content.height, num(60.0));
}

#[test]
fn test_image_max_constraints_ignore_unconstrained() {
    let mut style = ComputedStyle::new();
    style.max_width = Length::Px(num(500.0));
    style.max_height = Length::Px(num(500.0));
    let mut layout_box = LayoutBox::new(
        BoxType::Image {
            url: String::new(),
            natural_width: num(100.0),
            natural_height: num(100.0),
        },
        style,
    );
    layout_box.layout_image(num(100.0), num(100.0), &containing_1000());
    assert_eq!(layout_box.dimensions.content.width, num(100.0));
    assert_eq!(layout_box.dimensions.content.height, num(100.0));
}

fn bordered_image_style(box_sizing: BoxSizing) -> ComputedStyle {
    let mut style = ComputedStyle::new();
    style.box_sizing = box_sizing;
    style.border_top_width = Length::Px(num(1.0));
    style.border_right_width = Length::Px(num(1.0));
    style.border_bottom_width = Length::Px(num(1.0));
    style.border_left_width = Length::Px(num(1.0));
    style
}

fn image_box(style: ComputedStyle) -> LayoutBox {
    LayoutBox::new(
        BoxType::Image {
            url: String::new(),
            natural_width: num(100.0),
            natural_height: num(100.0),
        },
        style,
    )
}

#[test]
fn an_image_at_its_natural_size_gains_its_border() {
    let mut layout_box = image_box(bordered_image_style(BoxSizing::BorderBox));
    layout_box.layout_image(num(100.0), num(100.0), &containing_1000());
    assert_eq!(layout_box.dimensions.content.width, num(100.0));
    assert_eq!(layout_box.dimensions.content.height, num(100.0));
    assert_eq!(layout_box.dimensions.border_box().width, num(102.0));
    assert_eq!(layout_box.dimensions.border_box().height, num(102.0));
}

#[test]
fn a_border_box_image_takes_its_border_out_of_a_specified_size() {
    let mut style = bordered_image_style(BoxSizing::BorderBox);
    style.width = Length::Px(num(150.0));
    style.height = Length::Px(num(75.0));
    let mut layout_box = image_box(style);
    layout_box.layout_image(num(100.0), num(100.0), &containing_1000());
    assert_eq!(layout_box.dimensions.content.width, num(148.0));
    assert_eq!(layout_box.dimensions.content.height, num(73.0));
    assert_eq!(layout_box.dimensions.border_box().width, num(150.0));
    assert_eq!(layout_box.dimensions.border_box().height, num(75.0));
}

#[test]
fn the_horizontal_and_vertical_decorations_are_not_interchangeable() {
    let mut style = ComputedStyle::new();
    style.box_sizing = BoxSizing::BorderBox;
    style.border_left_width = Length::Px(num(1.0));
    style.border_right_width = Length::Px(num(3.0));
    style.border_top_width = Length::Px(num(2.0));
    style.border_bottom_width = Length::Px(num(4.0));
    style.width = Length::Px(num(150.0));
    style.height = Length::Px(num(75.0));
    let mut layout_box = image_box(style);
    layout_box.layout_image(num(100.0), num(100.0), &containing_1000());
    assert_eq!(layout_box.dimensions.content.width, num(146.0));
    assert_eq!(layout_box.dimensions.content.height, num(69.0));
    assert_eq!(layout_box.dimensions.border_box().width, num(150.0));
    assert_eq!(layout_box.dimensions.border_box().height, num(75.0));

    assert_eq!(layout_box.dimensions.content.x, num(1.0));
    assert_eq!(layout_box.dimensions.content.y, num(602.0));
}

#[test]
fn a_content_box_image_keeps_its_border_outside_a_specified_size() {
    let mut style = bordered_image_style(BoxSizing::ContentBox);
    style.width = Length::Px(num(150.0));
    style.height = Length::Px(num(75.0));
    let mut layout_box = image_box(style);
    layout_box.layout_image(num(100.0), num(100.0), &containing_1000());
    assert_eq!(layout_box.dimensions.content.width, num(150.0));
    assert_eq!(layout_box.dimensions.content.height, num(75.0));
    assert_eq!(layout_box.dimensions.border_box().width, num(152.0));
    assert_eq!(layout_box.dimensions.border_box().height, num(77.0));
}

#[test]
fn a_border_box_image_max_width_names_the_border_box() {
    let mut style = bordered_image_style(BoxSizing::BorderBox);
    style.max_width = Length::Px(num(80.0));
    let mut layout_box = image_box(style);
    layout_box.layout_image(num(100.0), num(100.0), &containing_1000());
    assert_eq!(layout_box.dimensions.content.width, num(78.0));
    assert_eq!(layout_box.dimensions.content.height, num(78.0));
    assert_eq!(layout_box.dimensions.border_box().width, num(80.0));
    assert_eq!(layout_box.dimensions.border_box().height, num(80.0));
}

#[test]
fn an_images_border_box_starts_at_the_containing_blocks_content_edge() {
    let mut style = bordered_image_style(BoxSizing::BorderBox);
    style.padding_left = Length::Px(num(4.0));
    style.padding_top = Length::Px(num(4.0));
    style.padding_right = Length::Px(num(4.0));
    style.padding_bottom = Length::Px(num(4.0));
    let mut cb = Dimensions::default();
    cb.content = Rect::new(num(32.0), num(40.0), num(1000.0), num(0.0));
    let mut layout_box = image_box(style);
    layout_box.layout_image(num(100.0), num(100.0), &cb);
    assert_eq!(layout_box.dimensions.content.x, num(37.0));
    assert_eq!(layout_box.dimensions.content.y, num(45.0));
    assert_eq!(layout_box.dimensions.border_box().x, num(32.0));
    assert_eq!(layout_box.dimensions.border_box().y, num(40.0));
    assert_eq!(layout_box.dimensions.border_box().width, num(110.0));
}

#[test]
fn an_undecorated_image_is_unchanged_by_the_border_box_rule() {
    let mut style = ComputedStyle::new();
    style.box_sizing = BoxSizing::BorderBox;
    style.width = Length::Px(num(200.0));
    let mut layout_box = image_box(style);
    layout_box.layout_image(num(100.0), num(100.0), &containing_1000());
    assert_eq!(layout_box.dimensions.content.width, num(200.0));
    assert_eq!(layout_box.dimensions.border_box().width, num(200.0));
    assert_eq!(layout_box.dimensions.border_box().height, num(200.0));
}

fn ratio_image_box(box_sizing: BoxSizing, ratio: Num) -> LayoutBox {
    let mut style = bordered_image_style(box_sizing);
    style.aspect_ratio = Some(ratio);
    image_box(style)
}

fn asymmetric_ratio_style(box_sizing: BoxSizing, ratio: Num) -> ComputedStyle {
    let mut style = ComputedStyle::new();
    style.box_sizing = box_sizing;
    style.aspect_ratio = Some(ratio);
    style.border_left_width = Length::Px(num(3.0));
    style.border_right_width = Length::Px(num(3.0));
    style.border_top_width = Length::Px(num(5.0));
    style.border_bottom_width = Length::Px(num(5.0));
    style
}

#[test]
fn a_specified_aspect_ratio_replaces_the_natural_one() {
    let mut layout_box = ratio_image_box(BoxSizing::BorderBox, num(16.0) / num(9.0));
    layout_box.style.width = Length::Px(num(160.0));
    layout_box.layout_image(num(100.0), num(100.0), &containing_1000());
    assert_eq!(layout_box.dimensions.border_box().width, num(160.0));
    assert_eq!(layout_box.dimensions.border_box().height, num(90.0));
    assert_eq!(layout_box.dimensions.content.width, num(158.0));
    assert_eq!(layout_box.dimensions.content.height, num(88.0));
}

#[test]
fn the_ratio_spans_the_box_named_by_box_sizing() {
    let mut layout_box = ratio_image_box(BoxSizing::ContentBox, num(16.0) / num(9.0));
    layout_box.style.width = Length::Px(num(160.0));
    layout_box.layout_image(num(100.0), num(100.0), &containing_1000());
    assert_eq!(layout_box.dimensions.content.width, num(160.0));
    assert_eq!(layout_box.dimensions.content.height, num(90.0));
    assert_eq!(layout_box.dimensions.border_box().width, num(162.0));
    assert_eq!(layout_box.dimensions.border_box().height, num(92.0));
}

#[test]
fn a_specified_height_derives_the_width_across_the_ratio() {
    let mut layout_box = ratio_image_box(BoxSizing::BorderBox, num(16.0) / num(9.0));
    layout_box.style.height = Length::Px(num(90.0));
    layout_box.layout_image(num(100.0), num(100.0), &containing_1000());
    assert_eq!(layout_box.dimensions.border_box().width, num(160.0));
    assert_eq!(layout_box.dimensions.border_box().height, num(90.0));
}

#[test]
fn two_specified_sizes_outrank_the_aspect_ratio() {
    let mut layout_box = ratio_image_box(BoxSizing::BorderBox, num(16.0) / num(9.0));
    layout_box.style.width = Length::Px(num(160.0));
    layout_box.style.height = Length::Px(num(200.0));
    layout_box.layout_image(num(100.0), num(100.0), &containing_1000());
    assert_eq!(layout_box.dimensions.border_box().width, num(160.0));
    assert_eq!(layout_box.dimensions.border_box().height, num(200.0));
}

#[test]
fn an_auto_sized_image_keeps_its_natural_width_and_takes_the_ratio_height() {
    let mut bb = ratio_image_box(BoxSizing::BorderBox, num(16.0) / num(9.0));
    bb.layout_image(num(100.0), num(100.0), &containing_1000());
    assert_eq!(bb.dimensions.border_box().width, num(102.0));
    assert_eq!(bb.dimensions.border_box().height, num(57.375));

    let mut cb = ratio_image_box(BoxSizing::ContentBox, num(16.0) / num(9.0));
    cb.layout_image(num(100.0), num(100.0), &containing_1000());
    assert_eq!(cb.dimensions.border_box().width, num(102.0));
    assert_eq!(cb.dimensions.border_box().height, num(58.25));
}

#[test]
fn the_ratio_takes_each_axis_own_decoration() {
    let mut w_bb = image_box(asymmetric_ratio_style(BoxSizing::BorderBox, num(2.0)));
    w_bb.style.width = Length::Px(num(160.0));
    w_bb.layout_image(num(100.0), num(100.0), &containing_1000());
    assert_eq!(w_bb.dimensions.content.width, num(154.0));
    assert_eq!(w_bb.dimensions.content.height, num(70.0));

    let mut w_cb = image_box(asymmetric_ratio_style(BoxSizing::ContentBox, num(2.0)));
    w_cb.style.width = Length::Px(num(160.0));
    w_cb.layout_image(num(100.0), num(100.0), &containing_1000());
    assert_eq!(w_cb.dimensions.content.width, num(160.0));
    assert_eq!(w_cb.dimensions.content.height, num(80.0));

    let mut h_bb = image_box(asymmetric_ratio_style(BoxSizing::BorderBox, num(2.0)));
    h_bb.style.height = Length::Px(num(80.0));
    h_bb.layout_image(num(100.0), num(100.0), &containing_1000());
    assert_eq!(h_bb.dimensions.content.width, num(154.0));
    assert_eq!(h_bb.dimensions.content.height, num(70.0));

    let mut auto_bb = image_box(asymmetric_ratio_style(BoxSizing::BorderBox, num(2.0)));
    auto_bb.layout_image(num(100.0), num(100.0), &containing_1000());
    assert_eq!(auto_bb.dimensions.content.width, num(100.0));
    assert_eq!(auto_bb.dimensions.content.height, num(43.0));
}

#[test]
fn test_text_align_center_shifts_inline_box() {
    let mut cb = Dimensions::default();
    cb.content = Rect::new(num(0.0), num(0.0), num(200.0), num(0.0));

    let mut block_style = ComputedStyle::new();
    block_style.text_align = TextAlign::Center;

    let mut block = LayoutBox::new(BoxType::Block, block_style.clone());
    let mut text_style = ComputedStyle::new();
    text_style.text_align = TextAlign::Center;
    block
        .children
        .push(LayoutBox::new(BoxType::Text("Hi".to_string()), text_style));
    block.layout(&font(), &cb);
    let text_x = block.children[0].dimensions.content.x;
    let text_w = block.children[0].dimensions.content.width;
    assert!((text_x - (num(200.0) - text_w) / num(2.0)).abs() < num(0.5));

    let mut span_style = ComputedStyle::new();
    span_style.text_align = TextAlign::Center;
    span_style.width = Length::Px(num(50.0));
    let mut block2 = LayoutBox::new(BoxType::Block, block_style.clone());
    block2
        .children
        .push(LayoutBox::new(BoxType::Inline, span_style));
    block2.layout(&font(), &cb);
    assert_eq!(block2.children[0].dimensions.content.x, num(75.0));

    let mut span3 = LayoutBox::new(BoxType::Inline, {
        let mut s = ComputedStyle::new();
        s.text_align = TextAlign::Center;
        s
    });
    let mut inner_style = ComputedStyle::new();
    inner_style.text_align = TextAlign::Center;
    span3
        .children
        .push(LayoutBox::new(BoxType::Text("Hi".to_string()), inner_style));
    let mut block3 = LayoutBox::new(BoxType::Block, block_style.clone());
    block3.children.push(span3);
    block3.layout(&font(), &cb);
    let span3 = &block3.children[0];
    let span3_center = span3.dimensions.content.x + span3.dimensions.content.width / num(2.0);
    let inner = &span3.children[0];
    let inner_center = inner.dimensions.content.x + inner.dimensions.content.width / num(2.0);
    assert!((span3_center - inner_center).abs() < num(1.0) && (span3_center - num(100.0)).abs() < num(1.0));
}

#[test]
fn test_inline_flex_children_share_a_line() {
    let mut cb = Dimensions::default();
    cb.content = Rect::new(num(0.0), num(0.0), num(500.0), num(0.0));

    let mut parent = LayoutBox::new(BoxType::Block, ComputedStyle::new());
    for _ in 0..3 {
        let mut s = ComputedStyle::new();
        s.display = Display::InlineFlex;
        s.width = Length::Px(num(100.0));
        s.height = Length::Px(num(40.0));
        parent.children.push(LayoutBox::new(BoxType::Block, s));
    }
    parent.layout(&font(), &cb);

    let ys: Vec<Num> = parent
        .children
        .iter()
        .map(|c| c.dimensions.content.y)
        .collect();
    let xs: Vec<Num> = parent
        .children
        .iter()
        .map(|c| c.dimensions.content.x)
        .collect();
    assert!(ys[0] == ys[1] && ys[1] == ys[2]);
    assert_eq!(xs, vec![num(0.0), num(100.0), num(200.0)]);

    let expected = num(40.0) + parent.inline_strut_descent(&font());
    assert!((parent.dimensions.content.height - expected).abs() < num(0.5));

    let mut parent2 = LayoutBox::new(BoxType::Block, ComputedStyle::new());
    for _ in 0..3 {
        let mut s = ComputedStyle::new();
        s.display = Display::InlineFlex;
        s.width = Length::Px(num(100.0));
        s.height = Length::Px(num(40.0));
        parent2.children.push(LayoutBox::new(BoxType::Block, s));
    }
    let mut mc = MarginCollapseContext::new();
    let mut fc = FloatContext::new();
    parent2.layout_with_collapse(&font(), &cb, &mut mc, &mut fc);
    let ys2: Vec<Num> = parent2
        .children
        .iter()
        .map(|c| c.dimensions.content.y)
        .collect();
    assert!(ys2[0] == ys2[1] && ys2[1] == ys2[2]);
}

#[test]
fn test_inline_block_border_box_position_and_line_strut() {
    let mut cb = Dimensions::default();
    cb.content = Rect::new(num(0.0), num(0.0), num(460.0), num(0.0));

    let mk = || {
        let mut s = ComputedStyle::new();
        s.display = Display::InlineBlock;
        s.width = Length::Px(num(200.0));
        s.height = Length::Px(num(100.0));
        s.margin_top = Length::Px(num(10.0));
        s.margin_bottom = Length::Px(num(10.0));
        s.margin_left = Length::Px(num(10.0));
        s.margin_right = Length::Px(num(10.0));
        s.border_top_width = Length::Px(num(2.0));
        s.border_bottom_width = Length::Px(num(2.0));
        s.border_left_width = Length::Px(num(2.0));
        s.border_right_width = Length::Px(num(2.0));
        LayoutBox::new(BoxType::Block, s)
    };

    let mut parent = LayoutBox::new(BoxType::Block, ComputedStyle::new());
    for _ in 0..3 {
        parent.children.push(mk());
    }
    parent.layout(&font(), &cb);

    let first = &parent.children[0].dimensions;
    assert_eq!((first.content.x, first.content.y), (num(12.0), num(12.0)));
    assert!((first.border_box().x - num(10.0)).abs() < num(0.01)
            && (first.border_box().y - num(10.0)).abs() < num(0.01));

    let sd = parent.inline_strut_descent(&font());
    assert!(sd > num(0.0));
    let second_row = &parent.children[2].dimensions;
    let expected_y = num(124.0) + sd + num(10.0) + num(2.0);
    assert!((second_row.content.y - expected_y).abs() < num(0.5));
}

fn row_style() -> ComputedStyle {
    let mut s = ComputedStyle::new();
    s.font_family = "system-ui".to_string();
    s.font_size = Length::Px(num(16.0));
    s.line_height = LineHeight::Px(num(24.0));
    s
}

fn label_box(text: &str) -> LayoutBox {
    let mut s = row_style();
    s.display = Display::InlineBlock;
    s.width = Length::Px(num(120.0));
    s.font_size = Length::Px(num(12.0));
    s.line_height = LineHeight::Px(num(18.0));
    let mut label = LayoutBox::new(BoxType::Block, s.clone());
    let mut text_style = s;
    text_style.display = Display::Inline;
    text_style.width = Length::Auto;
    label
        .children
        .push(LayoutBox::new(BoxType::Text(text.to_string()), text_style));
    label
}

fn control_box(control: FormControlType) -> LayoutBox {
    let mut s = ComputedStyle::new();
    s.display = Display::InlineBlock;
    s.font_family = "Arial".to_string();
    s.font_size = Length::Px(num(13.333));
    s.line_height = LineHeight::Number(num(1.5));
    LayoutBox::new(BoxType::FormControl(control), s)
}

fn text_input() -> LayoutBox {
    control_box(FormControlType::TextInput {
        value: String::new(),
        placeholder: "Default size".to_string(),
        input_type: "text".to_string(),
    })
}

#[test]
fn inline_block_with_text_sits_on_its_last_line_baseline() {
    let mut cb = Dimensions::default();
    cb.content = Rect::new(num(0.0), num(0.0), num(736.0), num(0.0));
    let mut row = LayoutBox::new(BoxType::Block, row_style());
    row.children.push(label_box("Text:"));
    row.children.push(LayoutBox::new(
        BoxType::Text(" ".to_string()),
        row_style(),
    ));
    row.children.push(text_input());
    row.layout(&font(), &cb);

    let row_top = row.dimensions.content.y;
    let label_top = row.children[0].dimensions.border_box().y - row_top;
    let input_top = row.children[2].dimensions.border_box().y - row_top;
    assert!((label_top - num(5.0)).abs() <= num(1.5));
    assert!((input_top - num(4.0)).abs() <= num(2.0));
    assert!((row.dimensions.content.height - num(24.0)).abs() <= num(1.0));
}

#[test]
fn a_line_with_no_text_member_still_carries_the_strut() {
    let mut cb = Dimensions::default();
    cb.content = Rect::new(num(0.0), num(0.0), num(736.0), num(0.0));
    let mut row = LayoutBox::new(BoxType::Block, row_style());
    row.children.push(label_box("Text:"));
    row.children.push(text_input());
    row.layout(&font(), &cb);

    assert!((row.dimensions.content.height - num(24.0)).abs() <= num(1.0));
    let mut with_ws = LayoutBox::new(BoxType::Block, row_style());
    with_ws.children.push(label_box("Text:"));
    with_ws.children.push(LayoutBox::new(
        BoxType::Text(" ".to_string()),
        row_style(),
    ));
    with_ws.children.push(text_input());
    with_ws.layout(&font(), &cb);
    assert!((row.dimensions.content.height - with_ws.dimensions.content.height).abs() <= num(0.01));
}

#[test]
fn a_fixed_height_button_centres_its_line_about_the_baseline() {
    let mut cb = Dimensions::default();
    cb.content = Rect::new(num(0.0), num(0.0), num(736.0), num(0.0));
    let mut block = LayoutBox::new(BoxType::Block, row_style());
    let mut button = control_box(FormControlType::Button {
        label: "Fixed size".to_string(),
        button_type: "button".to_string(),
    });
    button.style.width = Length::Px(num(200.0));
    button.style.height = Length::Px(num(50.0));
    block.children.push(button);
    block.layout(&font(), &cb);
    assert!((block.dimensions.content.height - num(50.0)).abs() <= num(0.05));
}

#[test]
fn a_text_only_line_is_exactly_one_line_height() {
    let mut cb = Dimensions::default();
    cb.content = Rect::new(num(0.0), num(0.0), num(736.0), num(0.0));
    for style in [ComputedStyle::new(), row_style()] {
        let mut block = LayoutBox::new(BoxType::Block, style.clone());
        block
            .children
            .push(LayoutBox::new(BoxType::Text("Hi".to_string()), style.clone()));
        block
            .children
            .push(LayoutBox::new(BoxType::Text(" there".to_string()), style));
        block.layout(&font(), &cb);
        let lh = block.children[0].get_line_height(&font());
        assert!((block.dimensions.content.height - lh).abs() <= num(0.01));
    }
}

#[test]
fn textarea_alone_on_a_line_hangs_the_strut_descent_below_it() {
    let mut cb = Dimensions::default();
    cb.content = Rect::new(num(0.0), num(0.0), num(736.0), num(0.0));
    let mut block = LayoutBox::new(BoxType::Block, row_style());
    block.children.push(control_box(FormControlType::TextArea {
        value: String::new(),
        placeholder: "Default textarea".to_string(),
        rows: 2,
        cols: 20,
    }));
    block.layout(&font(), &cb);

    let ta = &block.children[0].dimensions;
    assert!((ta.border_box().height - num(32.0)).abs() <= num(1.0));
    assert!((ta.border_box().y - block.dimensions.content.y).abs() <= num(0.5));
    let sd = block.inline_strut_descent(&font());
    let expected = num(32.0) + sd;
    assert!((block.dimensions.content.height - expected).abs() <= num(0.5));
}

#[test]
fn test_inline_block_auto_width_shrinks_to_fit() {
    let mut cb = Dimensions::default();
    cb.content = Rect::new(num(0.0), num(0.0), num(672.0), num(0.0));

    let mut parent_style = ComputedStyle::new();
    parent_style.text_align = TextAlign::Center;
    let mut parent = LayoutBox::new(BoxType::Block, parent_style);

    let mut badge_style = ComputedStyle::new();
    badge_style.display = Display::InlineBlock;
    badge_style.padding_left = Length::Px(num(12.0));
    badge_style.padding_right = Length::Px(num(12.0));
    badge_style.border_left_width = Length::Px(num(1.0));
    badge_style.border_right_width = Length::Px(num(1.0));
    let mut badge = LayoutBox::new(BoxType::Block, badge_style);

    let mut inner_style = ComputedStyle::new();
    inner_style.width = Length::Px(num(80.0));
    inner_style.height = Length::Px(num(17.0));
    badge
        .children
        .push(LayoutBox::new(BoxType::Block, inner_style));
    badge.intrinsic.max_content = num(106.0);
    badge.intrinsic.min_content = num(106.0);
    parent.children.push(badge);

    parent.layout(&font(), &cb);

    let d = &parent.children[0].dimensions;
    assert!((d.content.width - num(80.0)).abs() < num(0.01));

    let bb = d.border_box();
    assert!((bb.width - num(106.0)).abs() < num(0.01));
    assert!((bb.x - num(283.0)).abs() < num(0.5));
}

#[test]
fn test_inline_block_auto_width_floors_at_min_content() {
    let mut cb = Dimensions::default();
    cb.content = Rect::new(num(0.0), num(0.0), num(50.0), num(0.0));

    let mut badge_style = ComputedStyle::new();
    badge_style.display = Display::InlineBlock;
    badge_style.padding_left = Length::Px(num(12.0));
    badge_style.padding_right = Length::Px(num(12.0));
    let mut badge = LayoutBox::new(BoxType::Block, badge_style);
    let mut inner_style = ComputedStyle::new();
    inner_style.width = Length::Px(num(80.0));
    badge
        .children
        .push(LayoutBox::new(BoxType::Block, inner_style));

    let mut parent = LayoutBox::new(BoxType::Block, ComputedStyle::new());
    badge.intrinsic.max_content = num(104.0);
    badge.intrinsic.min_content = num(104.0);
    parent.children.push(badge);
    parent.layout(&font(), &cb);

    let d = &parent.children[0].dimensions;
    assert!((d.content.width - num(80.0)).abs() < num(0.01));
}

#[test]
fn test_text_align_left_is_noop_for_inline_box() {
    let mut cb = Dimensions::default();
    cb.content = Rect::new(num(0.0), num(0.0), num(200.0), num(0.0));
    let block_style = ComputedStyle::new();
    let mut span_style = ComputedStyle::new();
    span_style.width = Length::Px(num(50.0));
    let mut block = LayoutBox::new(BoxType::Block, block_style);
    block
        .children
        .push(LayoutBox::new(BoxType::Inline, span_style));
    block.layout(&font(), &cb);
    assert_eq!(block.children[0].dimensions.content.x, num(0.0));
}

#[test]
fn vertical_align_top_atomic_swallows_the_strut() {
    for use_collapse in [true, false] {
        let mut parent = LayoutBox::new(BoxType::Block, ComputedStyle::new());
        let mut ib = ComputedStyle::new();
        ib.display = Display::InlineBlock;
        ib.width = Length::Px(num(200.0));
        ib.height = Length::Px(num(120.0));
        ib.vertical_align = VerticalAlign::Top;
        parent.children.push(LayoutBox::new(BoxType::Block, ib));

        let cb = Dimensions {
            content: Rect::new(num(0.0), num(0.0), num(800.0), num(600.0)),
            ..Default::default()
        };
        if use_collapse {
            let mut mc = MarginCollapseContext::new();
            let mut fc = FloatContext::new();
            parent.layout_with_collapse(&font(), &cb, &mut mc, &mut fc);
        } else {
            parent.layout(&font(), &cb);
        }
        let h = parent.dimensions.content.height;
        assert!((h - num(120.0)).abs() < num(0.1));
    }
}

#[test]
fn baseline_aligned_atomic_still_extends_strut() {
    let mut parent = LayoutBox::new(BoxType::Block, ComputedStyle::new());
    let mut ib = ComputedStyle::new();
    ib.display = Display::InlineBlock;
    ib.width = Length::Px(num(200.0));
    ib.height = Length::Px(num(120.0));
    parent.children.push(LayoutBox::new(BoxType::Block, ib));
    let strut = parent.inline_strut_descent(&font());
    let cb = Dimensions {
        content: Rect::new(num(0.0), num(0.0), num(800.0), num(600.0)),
        ..Default::default()
    };
    let mut mc = MarginCollapseContext::new();
    let mut fc = FloatContext::new();
    parent.layout_with_collapse(&font(), &cb, &mut mc, &mut fc);
    let h = parent.dimensions.content.height;
    assert!((h - (num(120.0) + strut)).abs() < num(0.1));
}

#[test]
fn inline_rect_is_content_area_centered_in_its_line() {
    let mut parent = LayoutBox::new(BoxType::Block, ComputedStyle::new());
    let mut a_style = ComputedStyle::new();
    a_style.display = Display::Inline;
    a_style.line_height = LineHeight::Number(num(1.5));
    a_style.font_size = Length::Px(num(16.0));

    a_style.width = Length::Px(num(50.0));
    let mut a = LayoutBox::new(BoxType::Inline, a_style);
    let (content, half) = a.inline_content_area(&font());
    assert!(content < num(24.0) * num(0.9));
    parent.children.push(a);

    let cb = Dimensions {
        content: Rect::new(num(0.0), num(0.0), num(800.0), num(600.0)),
        ..Default::default()
    };
    let mut mc = MarginCollapseContext::new();
    let mut fc = FloatContext::new();
    parent.layout_with_collapse(&font(), &cb, &mut mc, &mut fc);

    let parent_top = parent.dimensions.content.y;
    let child = &parent.children[0].dimensions;
    assert!((child.content.height - content).abs() < num(0.1));
    assert!((child.content.y - parent_top - half).abs() < num(0.1));
    assert!((parent.dimensions.content.height - num(24.0)).abs() < num(0.1));
}

#[test]
fn flex_item_children_collapse_sibling_margins() {
    let mut root = LayoutBox::new(BoxType::Block, ComputedStyle::new());
    let mut flex_style = ComputedStyle::new();
    flex_style.display = Display::Flex;
    let mut flex = LayoutBox::new(BoxType::Block, flex_style);
    let mut item = LayoutBox::new(BoxType::Block, ComputedStyle::new());
    let mut a_style = ComputedStyle::new();
    a_style.height = Length::Px(num(50.0));
    a_style.margin_bottom = Length::Px(num(20.0));
    let mut b_style = ComputedStyle::new();
    b_style.height = Length::Px(num(50.0));
    b_style.margin_top = Length::Px(num(20.0));
    item.children.push(LayoutBox::new(BoxType::Block, a_style));
    item.children.push(LayoutBox::new(BoxType::Block, b_style));
    flex.children.push(item);
    root.children.push(flex);

    let cb = Dimensions {
        content: Rect::new(num(0.0), num(0.0), num(800.0), num(600.0)),
        ..Default::default()
    };
    let mut mc = MarginCollapseContext::new();
    let mut fc = FloatContext::new();
    root.layout_with_collapse(&font(), &cb, &mut mc, &mut fc);

    let item = &root.children[0].children[0];
    let a = &item.children[0].dimensions;
    let b = &item.children[1].dimensions;
    let gap = b.content.y - (a.content.y + a.content.height);
    assert!((gap - num(20.0)).abs() < num(0.1));
}

#[test]
fn grid_item_children_collapse_sibling_margins() {
    let mut root = LayoutBox::new(BoxType::Block, ComputedStyle::new());
    let mut grid_style = ComputedStyle::new();
    grid_style.display = Display::Grid;
    let mut grid = LayoutBox::new(BoxType::Block, grid_style);
    let mut item = LayoutBox::new(BoxType::Block, ComputedStyle::new());
    let mut a_style = ComputedStyle::new();
    a_style.height = Length::Px(num(50.0));
    a_style.margin_bottom = Length::Px(num(20.0));
    let mut b_style = ComputedStyle::new();
    b_style.height = Length::Px(num(50.0));
    b_style.margin_top = Length::Px(num(8.0));
    item.children.push(LayoutBox::new(BoxType::Block, a_style));
    item.children.push(LayoutBox::new(BoxType::Block, b_style));
    grid.children.push(item);
    root.children.push(grid);

    let cb = Dimensions {
        content: Rect::new(num(0.0), num(0.0), num(800.0), num(600.0)),
        ..Default::default()
    };
    let mut mc = MarginCollapseContext::new();
    let mut fc = FloatContext::new();
    root.layout_with_collapse(&font(), &cb, &mut mc, &mut fc);

    let item = &root.children[0].children[0];
    let a = &item.children[0].dimensions;
    let b = &item.children[1].dimensions;
    let gap = b.content.y - (a.content.y + a.content.height);
    assert!((gap - num(20.0)).abs() < num(0.1));
}

#[test]
fn plain_block_flow_still_collapses_sibling_margins() {
    let mut root = LayoutBox::new(BoxType::Block, ComputedStyle::new());
    let mut a_style = ComputedStyle::new();
    a_style.height = Length::Px(num(50.0));
    a_style.margin_bottom = Length::Px(num(20.0));
    let mut b_style = ComputedStyle::new();
    b_style.height = Length::Px(num(50.0));
    b_style.margin_top = Length::Px(num(20.0));
    root.children.push(LayoutBox::new(BoxType::Block, a_style));
    root.children.push(LayoutBox::new(BoxType::Block, b_style));

    let cb = Dimensions {
        content: Rect::new(num(0.0), num(0.0), num(800.0), num(600.0)),
        ..Default::default()
    };
    let mut mc = MarginCollapseContext::new();
    let mut fc = FloatContext::new();
    root.layout_with_collapse(&font(), &cb, &mut mc, &mut fc);

    let a = &root.children[0].dimensions;
    let b = &root.children[1].dimensions;
    let gap = b.content.y - (a.content.y + a.content.height);
    assert!((gap - num(20.0)).abs() < num(0.1));
}

fn margin_block(height: Option<Num>, mt: Num, mb: Num) -> LayoutBox {
    let mut s = ComputedStyle::new();
    if let Some(h) = height {
        s.height = Length::Px(h);
    }
    s.margin_top = Length::Px(mt);
    s.margin_bottom = Length::Px(mb);
    LayoutBox::new(BoxType::Block, s)
}

fn lay_collapsing(root: &mut LayoutBox) {
    let cb = Dimensions {
        content: Rect::new(num(0.0), num(0.0), num(800.0), num(0.0)),
        ..Default::default()
    };
    let mut mc = MarginCollapseContext::new();
    let mut fc = FloatContext::new();
    root.layout_with_collapse(&font(), &cb, &mut mc, &mut fc);
}

#[test]
fn a_first_childs_top_margin_collapses_through_an_open_parent() {
    let mut root = LayoutBox::new(BoxType::Block, ComputedStyle::new());
    root.children.push(margin_block(Some(num(20.0)), num(0.0), num(10.0)));
    let mut wrapper = margin_block(None, num(0.0), num(0.0));
    wrapper.children.push(margin_block(Some(num(30.0)), num(4.0), num(0.0)));
    root.children.push(wrapper);
    lay_collapsing(&mut root);

    let wrapper = &root.children[1];
    let child = &wrapper.children[0];
    assert!((wrapper.dimensions.content.y - num(30.0)).abs() < num(0.1));
    assert!((child.dimensions.content.y - num(30.0)).abs() < num(0.1));
    assert!((wrapper.dimensions.content.height - num(30.0)).abs() < num(0.1));
}

#[test]
fn the_chain_collapses_through_two_open_wrappers() {
    let mut root = LayoutBox::new(BoxType::Block, ComputedStyle::new());
    root.children.push(margin_block(Some(num(20.0)), num(0.0), num(10.0)));
    let mut outer = margin_block(None, num(0.0), num(0.0));
    let mut inner = margin_block(None, num(0.0), num(0.0));
    inner.children.push(margin_block(Some(num(30.0)), num(4.0), num(0.0)));
    outer.children.push(inner);
    root.children.push(outer);
    lay_collapsing(&mut root);

    let leaf = &root.children[1].children[0].children[0];
    assert!((leaf.dimensions.content.y - num(30.0)).abs() < num(0.1));
    assert!((root.children[1].dimensions.content.height - num(30.0)).abs() < num(0.1));
}

#[test]
fn a_last_childs_bottom_margin_collapses_through_and_adjoins_the_next_sibling() {
    let mut root = LayoutBox::new(BoxType::Block, ComputedStyle::new());
    let mut wrapper = margin_block(None, num(0.0), num(0.0));
    wrapper.children.push(margin_block(Some(num(30.0)), num(0.0), num(4.0)));
    root.children.push(wrapper);
    root.children.push(margin_block(Some(num(10.0)), num(2.0), num(0.0)));
    lay_collapsing(&mut root);

    let wrapper = &root.children[0];
    let next = &root.children[1];
    assert!((wrapper.dimensions.content.height - num(30.0)).abs() < num(0.1));
    assert!((next.dimensions.content.y - num(34.0)).abs() < num(0.1));

    assert!((root.dimensions.content.height - num(44.0)).abs() < num(0.1));
}

#[test]
fn a_padded_parent_keeps_its_first_childs_margin_inside() {
    let mut root = LayoutBox::new(BoxType::Block, ComputedStyle::new());
    root.children.push(margin_block(Some(num(20.0)), num(0.0), num(10.0)));
    let mut wrapper = margin_block(None, num(0.0), num(0.0));
    wrapper.style.padding_top = Length::Px(num(15.0));
    wrapper.children.push(margin_block(Some(num(30.0)), num(4.0), num(0.0)));
    root.children.push(wrapper);
    lay_collapsing(&mut root);

    let wrapper = &root.children[1];
    let child = &wrapper.children[0];
    assert!((wrapper.dimensions.content.y - num(45.0)).abs() < num(0.1));
    assert!((child.dimensions.content.y - num(49.0)).abs() < num(0.1));
}

#[test]
fn a_flex_item_keeps_both_edge_margins_inside() {
    let mut root_style = ComputedStyle::new();
    root_style.display = Display::Flex;
    let mut root = LayoutBox::new(BoxType::Block, root_style);
    let mut item = margin_block(None, num(0.0), num(0.0));
    item.children.push(margin_block(Some(num(20.0)), num(10.0), num(6.0)));
    root.children.push(item);
    lay_collapsing(&mut root);

    let item = &root.children[0];
    let child = &item.children[0];
    assert!((item.dimensions.content.height - num(36.0)).abs() < num(0.1));
    assert!((child.dimensions.content.y - item.dimensions.content.y - num(10.0)).abs() < num(0.1));
}

#[test]
fn the_root_element_does_not_collapse_with_body() {
    let mut html = LayoutBox::new(BoxType::Block, ComputedStyle::new());
    let mut body = margin_block(None, num(8.0), num(8.0));
    body.children.push(margin_block(Some(num(30.0)), num(21.44), num(0.0)));
    html.children.push(body);
    let cb = Dimensions {
        content: Rect::new(num(0.0), num(0.0), num(800.0), num(0.0)),
        ..Default::default()
    };
    let mut mc = MarginCollapseContext::new();
    mc.children_are_formatting_roots = true;
    let mut fc = FloatContext::new();
    html.layout_with_collapse(&font(), &cb, &mut mc, &mut fc);

    assert!((html.dimensions.content.y).abs() < num(0.1));
    let body = &html.children[0];
    assert!((body.dimensions.content.y - num(21.44)).abs() < num(0.1));
    assert!((body.children[0].dimensions.content.y - num(21.44)).abs() < num(0.1));
}

#[test]
fn a_form_control_carries_its_author_margins_in_the_line() {
    let mut root = LayoutBox::new(BoxType::Block, ComputedStyle::new());
    let mut s = ComputedStyle::new();
    s.display = Display::InlineBlock;
    s.margin_top = Length::Px(num(4.0));
    s.margin_bottom = Length::Px(num(4.0));
    s.margin_left = Length::Px(num(4.0));
    s.margin_right = Length::Px(num(4.0));
    s.padding_top = Length::Px(num(8.0));
    s.padding_bottom = Length::Px(num(8.0));
    let button = LayoutBox::new(
        BoxType::FormControl(FormControlType::Button {
            label: "Active".to_string(),
            button_type: "button".to_string(),
        }),
        s,
    );
    root.children.push(button);
    lay_collapsing(&mut root);

    let b = &root.children[0];
    assert!((b.dimensions.margin.top - num(4.0)).abs() < num(0.01)
            && (b.dimensions.margin.left - num(4.0)).abs() < num(0.01));
    assert!((b.dimensions.content.y - num(4.0)).abs() < num(0.1)
            && (b.dimensions.content.x - num(4.0)).abs() < num(0.1));
    let control_h = b.dimensions.content.height;
    assert!(root.dimensions.content.height >= control_h + num(8.0) - num(0.1));
}

#[test]
fn test_abspos_sibling_does_not_swallow_block_margin() {
    let mut a_style = ComputedStyle::new();
    a_style.height = Length::Px(num(30.0));
    a_style.margin_bottom = Length::Px(num(16.0));
    let a = LayoutBox::new(BoxType::Block, a_style);

    let mut b_style = ComputedStyle::new();
    b_style.width = Length::Px(num(100.0));
    b_style.height = Length::Px(num(60.0));
    let b = LayoutBox::with_position(BoxType::Block, b_style, Position::Absolute);

    let mut c_style = ComputedStyle::new();
    c_style.height = Length::Px(num(10.0));
    let c = LayoutBox::new(BoxType::Block, c_style);

    let mut root = LayoutBox::new(BoxType::Block, ComputedStyle::new());
    root.children = vec![a, b, c];

    let mut cb = Dimensions::default();
    cb.content = Rect::new(num(0.0), num(0.0), num(1000.0), num(0.0));
    let mut margin_context = MarginCollapseContext::new();
    let mut float_context = FloatContext::new();
    root.layout_with_collapse(&font(), &cb, &mut margin_context, &mut float_context);

    assert_eq!(root.children[0].dimensions.content.y, num(0.0));
    assert_eq!(root.children[2].dimensions.content.y, num(46.0));
    assert_eq!(root.children[1].dimensions.content.y, num(46.0));
}

#[test]
fn a_percentage_height_child_resolves_against_its_definite_parent() {
    let mut parent_style = ComputedStyle::new();
    parent_style.width = Length::Px(num(150.0));
    parent_style.height = Length::Px(num(100.0));
    let mut parent = LayoutBox::new(BoxType::Block, parent_style);

    let mut inner_style = ComputedStyle::new();
    inner_style.width = Length::Percent(num(100.0));
    inner_style.height = Length::Percent(num(100.0));
    parent
        .children
        .push(LayoutBox::new(BoxType::Block, inner_style));
    parent.set_viewport(num(900.0), num(1000.0));

    let viewport = Dimensions {
        content: Rect::new(num(0.0), num(0.0), num(900.0), num(1000.0)),
        ..Default::default()
    };
    parent.layout(&font(), &viewport);

    let inner = &parent.children[0];
    assert_eq!(inner.dimensions.content.height, num(100.0));
    assert!((inner.dimensions.content.height - num(1000.0)).abs() > num(0.5));
    assert_eq!(inner.dimensions.content.width, num(150.0));
    assert_eq!(parent.dimensions.content.height, num(100.0));
}

#[test]
fn a_percentage_height_child_of_an_inline_block_takes_the_inline_blocks_height() {
    let mut wrapper_style = ComputedStyle::new();
    wrapper_style.width = Length::Px(num(900.0));
    let mut wrapper = LayoutBox::new(BoxType::Block, wrapper_style);

    let mut box_style = ComputedStyle::new();
    box_style.display = Display::InlineBlock;
    box_style.width = Length::Px(num(150.0));
    box_style.height = Length::Px(num(100.0));
    let mut test_box = LayoutBox::new(BoxType::Block, box_style);

    let mut inner_style = ComputedStyle::new();
    inner_style.width = Length::Percent(num(100.0));
    inner_style.height = Length::Percent(num(100.0));
    test_box
        .children
        .push(LayoutBox::new(BoxType::Block, inner_style));
    wrapper.children.push(test_box);
    wrapper.set_viewport(num(900.0), num(1000.0));

    let viewport = Dimensions {
        content: Rect::new(num(0.0), num(0.0), num(900.0), num(1000.0)),
        ..Default::default()
    };
    let mut mc = MarginCollapseContext::new();
    let mut fc = FloatContext::new();
    wrapper.layout_with_collapse(&font(), &viewport, &mut mc, &mut fc);

    let inner = &wrapper.children[0].children[0];
    assert_eq!(inner.dimensions.content.height, num(100.0));
    assert_eq!(wrapper.children[0].dimensions.content.height, num(100.0));
}

#[test]
fn a_percentage_height_child_fills_a_border_box_parents_content_box() {
    let mut parent_style = ComputedStyle::new();
    parent_style.width = Length::Px(num(150.0));
    parent_style.height = Length::Px(num(100.0));
    parent_style.box_sizing = BoxSizing::BorderBox;
    parent_style.padding_top = Length::Px(num(8.0));
    parent_style.padding_bottom = Length::Px(num(8.0));
    parent_style.border_top_width = Length::Px(num(2.0));
    parent_style.border_bottom_width = Length::Px(num(2.0));
    let mut parent = LayoutBox::new(BoxType::Block, parent_style);

    let mut inner_style = ComputedStyle::new();
    inner_style.height = Length::Percent(num(50.0));
    parent
        .children
        .push(LayoutBox::new(BoxType::Block, inner_style));
    parent.set_viewport(num(900.0), num(1000.0));

    let viewport = Dimensions {
        content: Rect::new(num(0.0), num(0.0), num(900.0), num(1000.0)),
        ..Default::default()
    };
    parent.layout(&font(), &viewport);

    assert_eq!(parent.dimensions.content.height, num(80.0));
    assert_eq!(parent.children[0].dimensions.content.height, num(40.0));
}

#[test]
fn an_auto_height_parent_still_takes_its_childrens_flow() {
    let mut parent_style = ComputedStyle::new();
    parent_style.width = Length::Px(num(150.0));
    let mut parent = LayoutBox::new(BoxType::Block, parent_style);

    let mut inner_style = ComputedStyle::new();
    inner_style.height = Length::Px(num(37.0));
    parent
        .children
        .push(LayoutBox::new(BoxType::Block, inner_style));
    parent.set_viewport(num(900.0), num(1000.0));

    let viewport = Dimensions {
        content: Rect::new(num(0.0), num(0.0), num(900.0), num(1000.0)),
        ..Default::default()
    };
    parent.layout(&font(), &viewport);
    assert_eq!(parent.dimensions.content.height, num(37.0));
    assert_eq!(parent.children[0].dimensions.content.height, num(37.0));
}

#[test]
fn a_definite_height_parent_still_stacks_its_children_on_the_cursor() {
    let mut parent_style = ComputedStyle::new();
    parent_style.width = Length::Px(num(150.0));
    parent_style.height = Length::Px(num(100.0));
    let mut parent = LayoutBox::new(BoxType::Block, parent_style);

    for _ in 0..2 {
        let mut kid_style = ComputedStyle::new();
        kid_style.height = Length::Percent(num(25.0));
        parent
            .children
            .push(LayoutBox::new(BoxType::Block, kid_style));
    }
    parent.set_viewport(num(900.0), num(1000.0));

    let viewport = Dimensions {
        content: Rect::new(num(0.0), num(0.0), num(900.0), num(1000.0)),
        ..Default::default()
    };
    parent.layout(&font(), &viewport);

    let top = parent.dimensions.content.y;
    assert_eq!(parent.children[0].dimensions.content.height, num(25.0));
    assert_eq!(parent.children[1].dimensions.content.height, num(25.0));
    assert_eq!(parent.children[0].dimensions.content.y, top);
    assert_eq!(parent.children[1].dimensions.content.y, top + num(25.0));
}

#[test]
fn a_percentage_height_chain_resolves_through_a_percentage_parent() {
    let mut grand_style = ComputedStyle::new();
    grand_style.width = Length::Px(num(150.0));
    grand_style.height = Length::Px(num(200.0));
    let mut grand = LayoutBox::new(BoxType::Block, grand_style);

    let mut parent_style = ComputedStyle::new();
    parent_style.height = Length::Percent(num(50.0));
    let mut parent = LayoutBox::new(BoxType::Block, parent_style);

    let mut child_style = ComputedStyle::new();
    child_style.height = Length::Percent(num(50.0));
    parent
        .children
        .push(LayoutBox::new(BoxType::Block, child_style));
    grand.children.push(parent);
    grand.set_viewport(num(900.0), num(1000.0));

    let viewport = Dimensions {
        content: Rect::new(num(0.0), num(0.0), num(900.0), num(1000.0)),
        ..Default::default()
    };
    grand.layout(&font(), &viewport);

    assert_eq!(grand.children[0].dimensions.content.height, num(100.0));
    assert_eq!(grand.children[0].children[0].dimensions.content.height, num(50.0));
}

#[test]
fn an_auto_height_parent_hands_its_percentage_child_no_definite_base() {
    let mut parent_style = ComputedStyle::new();
    parent_style.width = Length::Px(num(150.0));
    let mut parent = LayoutBox::new(BoxType::Block, parent_style);

    let mut child_style = ComputedStyle::new();
    child_style.height = Length::Percent(num(100.0));
    parent
        .children
        .push(LayoutBox::new(BoxType::Block, child_style));
    parent.set_viewport(num(900.0), num(1000.0));

    let viewport = Dimensions {
        content: Rect::new(num(0.0), num(0.0), num(900.0), num(1000.0)),
        ..Default::default()
    };
    parent.layout(&font(), &viewport);
    assert_eq!(parent.children[0].dimensions.content.height, num(1000.0));
}

#[test]
fn a_percentage_height_inline_block_resolves_against_its_definite_parent() {
    let mut wrapper_style = ComputedStyle::new();
    wrapper_style.width = Length::Px(num(900.0));
    wrapper_style.height = Length::Px(num(120.0));
    let mut wrapper = LayoutBox::new(BoxType::Block, wrapper_style);

    let mut box_style = ComputedStyle::new();
    box_style.display = Display::InlineBlock;
    box_style.width = Length::Px(num(150.0));
    box_style.height = Length::Percent(num(50.0));
    wrapper
        .children
        .push(LayoutBox::new(BoxType::Block, box_style));
    wrapper.set_viewport(num(900.0), num(1000.0));

    let viewport = Dimensions {
        content: Rect::new(num(0.0), num(0.0), num(900.0), num(1000.0)),
        ..Default::default()
    };
    let mut mc = MarginCollapseContext::new();
    let mut fc = FloatContext::new();
    wrapper.layout_with_collapse(&font(), &viewport, &mut mc, &mut fc);

    assert_eq!(wrapper.children[0].dimensions.content.height, num(60.0));
}

#[test]
fn a_calc_height_resolves_against_its_parents_definite_height() {
    let mut parent_style = ComputedStyle::new();
    parent_style.width = Length::Px(num(1280.0));
    parent_style.height = Length::Px(num(100.0));
    let mut parent = LayoutBox::new(BoxType::Block, parent_style);

    let mut child_style = ComputedStyle::new();
    child_style.width = Length::Px(num(220.0));
    child_style.height = calc(100.0, -84.0, 0.0);
    let mut child = LayoutBox::new(BoxType::Block, child_style);

    let mut filler_style = ComputedStyle::new();
    filler_style.height = Length::Px(num(203.0));
    child
        .children
        .push(LayoutBox::new(BoxType::Block, filler_style));
    parent.children.push(child);
    parent.set_viewport(num(1280.0), num(100.0));

    let viewport = Dimensions {
        content: Rect::new(num(0.0), num(0.0), num(1280.0), num(100.0)),
        ..Default::default()
    };
    parent.layout(&font(), &viewport);

    assert_eq!(parent.children[0].dimensions.content.height, num(16.0));
}

#[test]
fn a_calc_height_takes_the_same_base_a_bare_percentage_takes() {
    for (height, expected) in [
        (Length::Percent(num(50.0)), num(500.0)),
        (calc(50.0, -10.0, 0.0), num(490.0)),
    ] {
        let mut parent_style = ComputedStyle::new();
        parent_style.width = Length::Px(num(150.0));
        let mut parent = LayoutBox::new(BoxType::Block, parent_style);

        let mut child_style = ComputedStyle::new();
        child_style.height = height.clone();
        parent
            .children
            .push(LayoutBox::new(BoxType::Block, child_style));
        parent.set_viewport(num(900.0), num(1000.0));

        let viewport = Dimensions {
            content: Rect::new(num(0.0), num(0.0), num(900.0), num(1000.0)),
            ..Default::default()
        };
        parent.layout(&font(), &viewport);
        assert_eq!(parent.children[0].dimensions.content.height, expected);
    }
}

#[test]
fn a_calc_with_no_percentage_needs_no_base() {
    let mut parent_style = ComputedStyle::new();
    parent_style.width = Length::Px(num(150.0));
    let mut parent = LayoutBox::new(BoxType::Block, parent_style);

    let mut child_style = ComputedStyle::new();
    child_style.font_size = Length::Px(num(20.0));
    child_style.height = calc(0.0, 4.0, 2.0);
    parent
        .children
        .push(LayoutBox::new(BoxType::Block, child_style));
    parent.set_viewport(num(900.0), num(1000.0));

    let viewport = Dimensions {
        content: Rect::new(num(0.0), num(0.0), num(900.0), num(1000.0)),
        ..Default::default()
    };
    parent.layout(&font(), &viewport);
    assert_eq!(parent.children[0].dimensions.content.height, num(44.0));

    let mut bare_parent = LayoutBox::new(BoxType::Block, ComputedStyle::new());
    let mut bare_child = ComputedStyle::new();
    bare_child.font_size = Length::Px(num(20.0));
    bare_child.height = calc(0.0, 4.0, 2.0);
    bare_parent
        .children
        .push(LayoutBox::new(BoxType::Block, bare_child));
    bare_parent.set_viewport(num(0.0), num(0.0));
    bare_parent.layout(&font(), &Dimensions::default());
    assert_eq!(bare_parent.children[0].dimensions.content.height, num(44.0));
}

#[test]
fn a_calc_height_parent_is_itself_a_definite_base() {
    let mut outer_style = ComputedStyle::new();
    outer_style.width = Length::Px(num(150.0));
    outer_style.height = Length::Px(num(200.0));
    let mut outer = LayoutBox::new(BoxType::Block, outer_style);

    let mut mid_style = ComputedStyle::new();
    mid_style.height = calc(100.0, -40.0, 0.0);
    let mut mid = LayoutBox::new(BoxType::Block, mid_style);

    let mut inner_style = ComputedStyle::new();
    inner_style.height = Length::Percent(num(50.0));
    mid.children
        .push(LayoutBox::new(BoxType::Block, inner_style));
    outer.children.push(mid);
    outer.set_viewport(num(900.0), num(1000.0));

    let viewport = Dimensions {
        content: Rect::new(num(0.0), num(0.0), num(900.0), num(1000.0)),
        ..Default::default()
    };
    outer.layout(&font(), &viewport);
    assert_eq!(outer.children[0].dimensions.content.height, num(160.0));
    assert_eq!(outer.children[0].children[0].dimensions.content.height, num(80.0));
}

#[test]
fn an_out_of_flow_percentage_height_resolves_against_its_containing_block() {
    for (height, expected) in [
        (Length::Percent(num(100.0)), num(100.0)),
        (calc(100.0, -84.0, 0.0), num(16.0)),
    ] {
        let mut parent_style = ComputedStyle::new();
        parent_style.width = Length::Px(num(1280.0));
        parent_style.height = Length::Px(num(100.0));
        let mut parent = LayoutBox::new(BoxType::Block, parent_style);

        for h in [num(40.0), num(44.0)] {
            let mut sib = ComputedStyle::new();
            sib.height = Length::Px(h);
            parent.children.push(LayoutBox::new(BoxType::Block, sib));
        }

        let mut sidebar_style = ComputedStyle::new();
        sidebar_style.position = StylePosition::Absolute;
        sidebar_style.top = Some(Length::Px(num(84.0)));
        sidebar_style.left = Some(Length::Px(num(0.0)));
        sidebar_style.width = Length::Px(num(220.0));
        sidebar_style.height = height.clone();
        let mut sidebar = LayoutBox::new(BoxType::Block, sidebar_style);
        sidebar.position = Position::Absolute;
        parent.children.push(sidebar);
        parent.set_viewport(num(1280.0), num(100.0));

        let viewport = Dimensions {
            content: Rect::new(num(0.0), num(0.0), num(1280.0), num(100.0)),
            ..Default::default()
        };
        parent.layout(&font(), &viewport);

        assert_eq!(parent.children[2].dimensions.content.height, expected);
    }
}

#[test]
fn a_calc_min_and_max_height_clamp_like_the_percentage_beside_them() {
    let viewport = Dimensions {
        content: Rect::new(num(0.0), num(0.0), num(900.0), num(1000.0)),
        ..Default::default()
    };

    let mut floored_style = ComputedStyle::new();
    floored_style.width = Length::Px(num(150.0));
    floored_style.height = Length::Px(num(10.0));
    floored_style.min_height = calc(50.0, -100.0, 0.0);
    let mut floored = LayoutBox::new(BoxType::Block, floored_style);
    floored.set_viewport(num(900.0), num(1000.0));
    floored.layout(&font(), &viewport);
    assert_eq!(floored.dimensions.content.height, num(400.0));

    let mut capped_style = ComputedStyle::new();
    capped_style.width = Length::Px(num(150.0));
    capped_style.height = Length::Px(num(900.0));
    capped_style.max_height = calc(50.0, -100.0, 0.0);
    let mut capped = LayoutBox::new(BoxType::Block, capped_style);
    capped.set_viewport(num(900.0), num(1000.0));
    capped.layout(&font(), &viewport);
    assert_eq!(capped.dimensions.content.height, num(400.0));
}

#[test]
fn a_calc_width_resolves_through_the_existing_width_path() {
    let mut parent_style = ComputedStyle::new();
    parent_style.width = Length::Px(num(400.0));
    let mut parent = LayoutBox::new(BoxType::Block, parent_style);

    let mut child_style = ComputedStyle::new();
    child_style.width = calc(100.0, -40.0, 0.0);
    parent
        .children
        .push(LayoutBox::new(BoxType::Block, child_style));
    parent.set_viewport(num(900.0), num(1000.0));

    let viewport = Dimensions {
        content: Rect::new(num(0.0), num(0.0), num(900.0), num(1000.0)),
        ..Default::default()
    };
    parent.layout(&font(), &viewport);
    assert_eq!(parent.children[0].dimensions.content.width, num(360.0));
}

#[test]
fn a_percentage_child_of_an_over_padded_border_box_parent_is_never_negative() {
    let mut parent_style = ComputedStyle::new();
    parent_style.width = Length::Px(num(150.0));
    parent_style.height = Length::Px(num(10.0));
    parent_style.box_sizing = BoxSizing::BorderBox;
    parent_style.padding_top = Length::Px(num(20.0));
    parent_style.padding_bottom = Length::Px(num(20.0));
    let mut parent = LayoutBox::new(BoxType::Block, parent_style);

    let mut child_style = ComputedStyle::new();
    child_style.height = Length::Percent(num(100.0));
    parent
        .children
        .push(LayoutBox::new(BoxType::Block, child_style));
    parent.set_viewport(num(900.0), num(1000.0));

    let viewport = Dimensions {
        content: Rect::new(num(0.0), num(0.0), num(900.0), num(1000.0)),
        ..Default::default()
    };
    parent.layout(&font(), &viewport);
    assert_eq!(parent.children[0].dimensions.content.height, num(0.0));
}

#[test]
fn a_zero_height_containing_block_is_absent_not_a_definite_zero() {
    let mut root_style = ComputedStyle::new();
    root_style.width = Length::Px(num(150.0));
    root_style.height = Length::Percent(num(100.0));
    let mut root = LayoutBox::new(BoxType::Block, root_style);
    root.set_viewport(num(900.0), num(1000.0));

    let containing = Dimensions {
        content: Rect::new(num(0.0), num(0.0), num(900.0), num(0.0)),
        ..Default::default()
    };
    root.layout(&font(), &containing);
    assert_eq!(root.dimensions.content.height, num(1000.0));
}

#[test]
fn abspos_inset_fills_parents_definite_height_not_its_flow_cursor() {
    let mut parent_style = ComputedStyle::new();
    parent_style.width = Length::Px(num(100.0));
    parent_style.height = Length::Px(num(100.0));
    let mut parent = LayoutBox::with_position(BoxType::Block, parent_style, Position::Relative);

    let mut flow_style = ComputedStyle::new();
    flow_style.height = Length::Px(num(54.0));
    parent
        .children
        .push(LayoutBox::new(BoxType::Block, flow_style));

    let mut cover =
        LayoutBox::with_position(BoxType::Block, ComputedStyle::new(), Position::Absolute);
    cover.set_offsets(Some(num(0.0)), Some(num(0.0)), Some(num(0.0)), Some(num(0.0)));
    parent.children.push(cover);

    let viewport = Dimensions {
        content: Rect::new(num(0.0), num(0.0), num(800.0), num(600.0)),
        ..Default::default()
    };
    parent.layout(&font(), &viewport);

    let cover = &parent.children[1];
    assert_eq!(cover.dimensions.content.height, num(100.0));
    assert_eq!(cover.dimensions.content.y, parent.dimensions.content.y);
    assert_eq!(cover.dimensions.content.width, num(100.0));
}

#[test]
fn abspos_reanchor_uses_auto_height_parents_final_height() {
    let mut parent_style = ComputedStyle::new();
    parent_style.width = Length::Px(num(100.0));
    let mut parent = LayoutBox::with_position(BoxType::Block, parent_style, Position::Relative);
    let mut flow_style = ComputedStyle::new();
    flow_style.height = Length::Px(num(30.0));
    parent
        .children
        .push(LayoutBox::new(BoxType::Block, flow_style));
    let mut cover =
        LayoutBox::with_position(BoxType::Block, ComputedStyle::new(), Position::Absolute);
    cover.set_offsets(Some(num(0.0)), Some(num(0.0)), Some(num(0.0)), Some(num(0.0)));
    parent.children.push(cover);

    let viewport = Dimensions {
        content: Rect::new(num(0.0), num(0.0), num(800.0), num(600.0)),
        ..Default::default()
    };
    parent.layout(&font(), &viewport);
    assert_eq!(parent.children[1].dimensions.content.height, num(30.0));
}

#[test]
fn abspos_bottom_inside_inset_stretched_parent_anchors_to_stretched_height() {
    let mut toggle_style = ComputedStyle::new();
    toggle_style.width = Length::Px(num(48.0));
    toggle_style.height = Length::Px(num(26.0));
    let mut toggle = LayoutBox::with_position(BoxType::Block, toggle_style, Position::Relative);

    let mut slider_style = ComputedStyle::new();
    slider_style.border_top_width = Length::Px(num(1.0));
    slider_style.border_bottom_width = Length::Px(num(1.0));
    slider_style.border_left_width = Length::Px(num(1.0));
    slider_style.border_right_width = Length::Px(num(1.0));
    let mut slider = LayoutBox::with_position(BoxType::Block, slider_style, Position::Absolute);
    slider.set_offsets(Some(num(0.0)), Some(num(0.0)), Some(num(0.0)), Some(num(0.0)));

    let mut knob_style = ComputedStyle::new();
    knob_style.width = Length::Px(num(20.0));
    knob_style.height = Length::Px(num(20.0));
    let mut knob = LayoutBox::with_position(BoxType::Block, knob_style, Position::Absolute);
    knob.set_offsets(None, None, Some(num(2.0)), Some(num(2.0)));
    slider.children.push(knob);
    toggle.children.push(slider);

    let viewport = Dimensions {
        content: Rect::new(num(0.0), num(0.0), num(800.0), num(600.0)),
        ..Default::default()
    };
    toggle.layout(&font(), &viewport);

    let (tx, ty) = (
        toggle.dimensions.border_box().x,
        toggle.dimensions.border_box().y,
    );
    let slider = &toggle.children[0];
    assert_eq!(slider.dimensions.border_box().height, num(26.0));
    let knob = &slider.children[0];

    assert_eq!(knob.dimensions.content.y - ty, num(3.0));
    assert_eq!(knob.dimensions.content.x - tx, num(3.0));
}

#[test]
fn abspos_bottom_resolves_against_padding_box_of_auto_height_parent() {
    let mut parent_style = ComputedStyle::new();
    parent_style.width = Length::Px(num(380.0));
    parent_style.padding_top = Length::Px(num(8.0));
    parent_style.padding_bottom = Length::Px(num(8.0));
    let mut parent = LayoutBox::with_position(BoxType::Block, parent_style, Position::Relative);

    let mut knob_style = ComputedStyle::new();
    knob_style.width = Length::Px(num(20.0));
    knob_style.height = Length::Px(num(20.0));
    let mut knob = LayoutBox::with_position(BoxType::Block, knob_style, Position::Absolute);
    knob.set_offsets(None, Some(num(4.0)), Some(num(4.0)), None);

    parent.children.push(knob);
    for _ in 0..2 {
        let mut line = ComputedStyle::new();
        line.height = Length::Px(num(24.0));
        parent.children.push(LayoutBox::new(BoxType::Block, line));
    }

    let viewport = Dimensions {
        content: Rect::new(num(0.0), num(0.0), num(800.0), num(600.0)),
        ..Default::default()
    };
    parent.layout(&font(), &viewport);

    let pb = parent.dimensions.border_box();
    assert_eq!(pb.height, num(64.0));
    let knob = &parent.children[0];
    assert_eq!(knob.dimensions.content.y - pb.y, num(64.0) - num(4.0) - num(20.0));
    assert_eq!(knob.dimensions.content.x - pb.x, num(380.0) - num(4.0) - num(20.0));
}

#[test]
fn a_text_input_with_rem_padding_composes_it_into_its_height() {
    fn input(pad: Length) -> LayoutBox {
        let mut s = ComputedStyle::new();
        s.font_size = Length::Px(num(16.0));
        s.padding_top = pad.clone();
        s.padding_bottom = pad;
        s.border_top_width = Length::Px(num(1.0));
        s.border_bottom_width = Length::Px(num(1.0));
        LayoutBox::new(
            BoxType::FormControl(FormControlType::TextInput {
                value: String::new(),
                placeholder: String::new(),
                input_type: "text".to_string(),
            }),
            s,
        )
    }
    let cb = Dimensions {
        content: Rect::new(num(0.0), num(0.0), num(500.0), num(0.0)),
        ..Default::default()
    };
    let mut px = input(Length::Px(num(16.0)));
    px.layout(&font(), &cb);
    let mut rem = input(Length::Rem(num(1.0)));
    rem.layout(&font(), &cb);
    let want = px.dimensions.content.height;
    assert!(want > num(40.0));
    assert!((rem.dimensions.content.height - want).abs() < num(0.01));
}

fn calc(percent: f32, px: f32, em: f32) -> Length {
    Length::Calc(CalcSum {
        px: num(px),
        percent: num(percent),
        em: num(em),
        rem: num(0.0),
        vw: num(0.0),
        vh: num(0.0),
    })
}

fn plain_block(height: f32) -> LayoutBox {
    let mut s = ComputedStyle::new();
    s.height = Length::Px(num(height));
    LayoutBox::new(BoxType::Block, s)
}

fn view_800() -> Dimensions {
    Dimensions {
        content: Rect::new(num(0.0), num(0.0), num(800.0), num(0.0)),
        ..Default::default()
    }
}

#[test]
fn an_out_of_flow_box_takes_no_room() {
    let mut root = LayoutBox::new(BoxType::Block, ComputedStyle::new());
    root.children.push(plain_block(10.0));
    let mut over = plain_block(500.0);
    over.position = Position::Absolute;
    root.children.push(over);
    root.children.push(plain_block(20.0));
    root.layout(&font(), &view_800());
    assert_eq!(root.children[2].dimensions.content.y, num(10.0));
    assert_eq!(root.dimensions.content.height, num(30.0));
}

#[test]
fn blocks_stack_by_their_margin_boxes() {
    let mut root = LayoutBox::new(BoxType::Block, ComputedStyle::new());
    for h in [10.0, 20.0, 30.0] {
        let mut b = plain_block(h);
        b.style.margin_top = Length::Px(num(3.0));
        b.style.margin_bottom = Length::Px(num(4.0));
        root.children.push(b);
    }
    root.layout(&font(), &view_800());
    let ys: Vec<Num> = root.children.iter().map(|b| b.dimensions.content.y).collect();
    assert_eq!(ys, vec![num(3.0), num(20.0), num(47.0)]);
    assert_eq!(root.dimensions.content.height, num(81.0));
}

#[test]
fn a_line_break_starts_a_new_line() {
    let mut root = LayoutBox::new(BoxType::Block, ComputedStyle::new());
    let run = |t: &str| LayoutBox::new(BoxType::Text(t.to_string()), ComputedStyle::new());
    root.children.push(run("one"));
    root.children.push(LayoutBox::new(BoxType::LineBreak, ComputedStyle::new()));
    root.children.push(run("two"));
    root.layout(&font(), &view_800());
    let line = root.children[0].get_line_height(&font());
    assert_eq!(root.children[0].dimensions.content.y, num(0.0));
    assert_eq!(root.children[2].dimensions.content.x, num(0.0));
    assert_eq!(root.children[2].dimensions.content.y, line);
    assert_eq!(root.dimensions.content.height, line + line);
}

#[test]
fn a_float_leaves_the_cursor_and_is_remembered() {
    let mut root = LayoutBox::new(BoxType::Block, ComputedStyle::new());
    let mut s = ComputedStyle::new();
    s.width = Length::Px(num(100.0));
    s.height = Length::Px(num(50.0));
    root.children.push(LayoutBox::with_float(
        BoxType::Block,
        s,
        rustkit_layout::floats::Float::Left,
    ));
    root.children.push(plain_block(10.0));
    let mut mc = MarginCollapseContext::new();
    let mut fc = FloatContext::new();
    root.layout_with_collapse(&font(), &view_800(), &mut mc, &mut fc);
    assert_eq!(fc.float_count(), 1);
    assert_eq!(root.children[1].dimensions.content.y, num(0.0));
    assert_eq!(root.dimensions.content.height, num(10.0));
}

#[test]
fn a_multi_column_container_keeps_its_margins_inside() {
    let mut columns = LayoutBox::new(BoxType::Block, ComputedStyle::new());
    columns.style.column_count = Some(2);
    columns.children.push(margin_block(Some(num(50.0)), num(10.0), num(0.0)));
    let mut root = LayoutBox::new(BoxType::Block, ComputedStyle::new());
    root.children.push(columns);
    lay_collapsing(&mut root);
    assert_eq!(root.children[0].dimensions.content.y, num(0.0));
    assert_eq!(root.children[0].children[0].dimensions.content.y, num(10.0));
}

#[test]
fn layout_keeps_every_box_in_its_place() {
    let mut root = LayoutBox::new(BoxType::Block, ComputedStyle::new());
    let mut section = plain_block(40.0);
    section.node_id = Some(1);
    let mut run = LayoutBox::new(BoxType::Text("word".to_string()), ComputedStyle::new());
    run.node_id = Some(2);
    section.children.push(run);
    let mut over = plain_block(5.0);
    over.node_id = Some(3);
    over.position = Position::Absolute;
    section.children.push(over);
    root.children.push(section);
    let mut mc = MarginCollapseContext::new();
    let mut fc = FloatContext::new();
    root.layout_with_collapse(&font(), &view_800(), &mut mc, &mut fc);
    assert_eq!(root.children.len(), 1);
    assert_eq!(root.children[0].node_id, Some(1));
    let ids: Vec<Option<usize>> = root.children[0].children.iter().map(|b| b.node_id).collect();
    assert_eq!(ids, vec![Some(2), Some(3)]);
    assert!(matches!(&root.children[0].children[0].box_type, BoxType::Text(t) if t == "word"));
}

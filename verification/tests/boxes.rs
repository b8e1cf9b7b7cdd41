use rustkit_layout::block::{auto_width_shrinks_to_fit, shrink_to_fit_content_width};
use rustkit_layout::boxes::{BoxType, LayoutBox, Position, PositionOffsets};
use rustkit_layout::floats::{Clear, Float, FloatContext};
use rustkit_layout::geometry::{Dimensions, EdgeSizes, Rect, rects_overlap};
use rustkit_layout::margin_collapse::MarginCollapseContext;
use rustkit_layout::num::Num;
use rustkit_layout::sizing::{FormControlType, blink_baseline_offset, form_control_intrinsic_size, half_leading, normal_line_height, preferred_ratio_sizes, ratio_cross_content_size, replaced_content_size, text_line_box_extents};
use rustkit_layout::style::{ComputedStyle, Display, FontStretch, Length, LineHeight};
use rustkit_layout::text::{Face, FallbackFont, Shaper, measure_text_advanced};

fn num(v: f32) -> Num {
    Num::from_bits(v.to_bits())
}

fn f(v: Num) -> f32 {
    f32::from_bits(v.to_bits())
}

fn fract(v: Num) -> Num {
    num(f(v).fract())
}

fn font() -> Shaper {
    Shaper::new(FallbackFont {
        ascent: num(0.966796875),
        descent: num(0.2109375),
        leading: num(0.0),
        underline_offset: num(0.1),
        underline_thickness: num(0.05),
        strikethrough_offset: num(0.3),
        overline_offset: num(0.9),
    })
}

fn face(style: &ComputedStyle, size: f32) -> Face {
    Face {
        family: style.font_family.clone(),
        weight: style.font_weight,
        style: style.font_style,
        stretch: FontStretch::Normal,
        size: num(size),
    }
}

#[test]
fn test_styled_button_composes_its_font_line_with_author_padding() {
    let mut style = ComputedStyle::new();
    style.font_size = Length::Px(num(14.0));
    style.padding_top = Length::Px(num(8.0));
    style.padding_bottom = Length::Px(num(8.0));
    style.padding_left = Length::Px(num(16.0));
    style.padding_right = Length::Px(num(16.0));
    let control = FormControlType::Button {
        label: "Save".to_string(),
        button_type: "button".to_string(),
    };
    let (w, h) = form_control_intrinsic_size(&font(), &style, &control);
    let label = measure_text_advanced(&font(), &"Save".to_string(), &face(&style, 14.0)).width;
    assert_eq!(w, label + num(32.0));
    assert_eq!(h, normal_line_height(&font(), &style, num(14.0)) + num(16.0));
    assert_eq!(fract(h), num(0.0));
}

#[test]
fn test_baseline_seat_floors_the_leading_above_whole_pixel_metrics() {
    let seat = blink_baseline_offset(num(27.2), num(15.46875), num(3.375));
    assert_eq!(seat, num(19.0));
    assert_eq!((num(430.0) + seat).round(), num(449.0));
    assert_eq!((num(469.1875) + seat).round(), num(488.0));
    assert_eq!((num(535.5625) + seat).round(), num(555.0));
}

#[test]
fn test_inline_content_area_shift_leaves_text_in_its_line_slot() {
    let style = ComputedStyle::new();
    let mut text = LayoutBox::new(BoxType::Text("HxHx".to_string()), style.clone());
    text.dimensions.content.y = num(140.0);
    let mut strong = LayoutBox::new(BoxType::Inline, style.clone());
    strong.dimensions.content.y = num(140.0);
    strong.children.push(text);
    let mut span = LayoutBox::new(BoxType::Inline, style);
    span.dimensions.content.y = num(140.0);
    span.children.push(strong);

    span.shift_inline_content_area(num(7.0));

    assert_eq!(span.dimensions.content.y, num(147.0));
    assert_eq!(span.children[0].dimensions.content.y, num(147.0));
    assert_eq!(span.children[0].children[0].dimensions.content.y, num(140.0));
}

#[test]
fn test_small_font_inline_drops_to_the_line_baseline() {
    let mut body = ComputedStyle::new();
    body.font_size = Length::Px(num(16.0));
    body.line_height = LineHeight::Px(num(32.0));
    let mut small = body.clone();
    small.font_size = Length::Px(num(11.0));

    let mut text = LayoutBox::new(BoxType::Text("HxHx ".to_string()), body.clone());
    text.dimensions.content.y = num(100.0);
    text.dimensions.content.height = num(32.0);
    let mut inner = LayoutBox::new(BoxType::Text("HxHx".to_string()), small.clone());
    inner.dimensions.content.y = num(100.0);
    inner.dimensions.content.height = num(32.0);
    let mut span = LayoutBox::new(BoxType::Inline, small.clone());
    span.dimensions.content.y = num(100.0);
    span.children.push(inner);
    let (_, half_leading) = span.inline_content_area(&font());
    span.shift_inline_content_area(half_leading);

    let mut line = vec![text, span];
    LayoutBox::apply_vertical_align(&mut line, &font(), 0, 2, &body);

    let drop = text_line_box_extents(&font(), &body).0
        - text_line_box_extents(&font(), &small).0;
    assert!(drop > num(0.0));
    assert_eq!(fract(drop), num(0.0));
    assert_eq!(line[0].dimensions.content.y, num(100.0));
    assert_eq!(line[1].children[0].dimensions.content.y, num(100.0) + drop);
    assert_eq!(line[1].dimensions.content.y, num(100.0) + half_leading + drop);
}

#[test]
fn test_line_of_only_small_inlines_keeps_its_line_top() {
    let mut body = ComputedStyle::new();
    body.font_size = Length::Px(num(16.0));
    body.line_height = LineHeight::Px(num(32.0));

    let mut inner = LayoutBox::new(BoxType::Text("HxHx".to_string()), body.clone());
    inner.dimensions.content.y = num(100.0);
    let mut span = LayoutBox::new(BoxType::Inline, body.clone());
    span.dimensions.content.y = num(100.0);
    span.children.push(inner);
    let (_, half_leading) = span.inline_content_area(&font());
    span.shift_inline_content_area(half_leading);

    let mut line = vec![span];
    LayoutBox::apply_vertical_align(&mut line, &font(), 0, 1, &body);

    assert_eq!(line[0].children[0].dimensions.content.y, num(100.0));
    assert_eq!(line[0].dimensions.content.y, num(100.0) + half_leading);
}

#[test]
fn test_inline_member_feeds_the_line_box_extents() {
    let mut body = ComputedStyle::new();
    body.font_size = Length::Px(num(16.0));
    body.line_height = LineHeight::Px(num(32.0));
    let mut small = body.clone();
    small.font_size = Length::Px(num(11.0));
    let span = LayoutBox::new(BoxType::Inline, small.clone());
    assert_eq!(span.line_member_baseline_extents(&font()), Some(text_line_box_extents(&font(), &small)));
}

#[test]
fn test_baseline_seat_without_leading_is_the_rounded_ascent() {
    assert_eq!(blink_baseline_offset(num(76.0), num(61.875), num(13.5)), num(62.0));
    assert_eq!(blink_baseline_offset(num(17.0), num(13.535156), num(2.953125)), num(14.0));

    assert_eq!(blink_baseline_offset(num(16.0), num(15.46875), num(3.375)), num(14.0));
}

#[test]
fn test_half_leading_is_signed() {
    assert_eq!(half_leading(num(24.0), num(15.0), num(3.0)), num(3.0));
    assert_eq!(half_leading(num(16.0), num(15.0), num(3.0)), num(-1.0));
    assert!((half_leading(num(40.0), num(38.67), num(8.44)) + num(3.555)).abs() < num(1e-3));
}

#[test]
fn test_rect() {
    let r = Rect::new(num(10.0), num(20.0), num(100.0), num(50.0));
    assert_eq!(r.right(), num(110.0));
    assert_eq!(r.bottom(), num(70.0));
    assert!(r.contains(num(50.0), num(30.0)));
    assert!(!r.contains(num(0.0), num(0.0)));
}

#[test]
fn test_dimensions_boxes() {
    let d = Dimensions {
        content: Rect::new(num(20.0), num(20.0), num(100.0), num(50.0)),
        padding: EdgeSizes {
            top: num(5.0),
            right: num(5.0),
            bottom: num(5.0),
            left: num(5.0),
        },
        border: EdgeSizes {
            top: num(1.0),
            right: num(1.0),
            bottom: num(1.0),
            left: num(1.0),
        },
        margin: EdgeSizes {
            top: num(10.0),
            right: num(10.0),
            bottom: num(10.0),
            left: num(10.0),
        },
    };

    let pb = d.padding_box();
    assert_eq!(pb.width, num(110.0));
    assert_eq!(pb.height, num(60.0));

    let bb = d.border_box();
    assert_eq!(bb.width, num(112.0));
    assert_eq!(bb.height, num(62.0));

    let mb = d.margin_box();
    assert_eq!(mb.width, num(132.0));
    assert_eq!(mb.height, num(82.0));
}

#[test]
fn test_layout_box_creation() {
    let style = ComputedStyle::new();
    let layout_box = LayoutBox::new(BoxType::Block, style);
    assert!(matches!(layout_box.box_type, BoxType::Block));
    assert_eq!(layout_box.position, Position::Static);
    assert_eq!(layout_box.float, Float::Unset);
}

#[test]
fn test_layout_box_with_position() {
    let style = ComputedStyle::new();
    let layout_box = LayoutBox::with_position(BoxType::Block, style, Position::Relative);
    assert_eq!(layout_box.position, Position::Relative);
    assert!(layout_box.stacking_context.is_some());
}

#[test]
fn test_layout_box_with_float() {
    let style = ComputedStyle::new();
    let layout_box = LayoutBox::with_float(BoxType::Block, style, Float::Left);
    assert_eq!(layout_box.float, Float::Left);
}

fn containing_1000() -> Dimensions {
    let mut cb = Dimensions::default();
    cb.content = Rect::new(num(0.0), num(0.0), num(1000.0), num(600.0));
    cb
}

#[test]
fn test_auto_margins_center_fixed_width() {
    let mut style = ComputedStyle::new();
    style.width = Length::Px(num(600.0));
    style.margin_left = Length::Auto;
    style.margin_right = Length::Auto;
    let mut layout_box = LayoutBox::new(BoxType::Block, style);
    layout_box.calculate_block_width(&containing_1000());
    assert_eq!(layout_box.dimensions.content.width, num(600.0));
    assert_eq!(layout_box.dimensions.margin.left, num(200.0));
    assert_eq!(layout_box.dimensions.margin.right, num(200.0));
}

#[test]
fn an_absent_or_degenerate_ratio_leaves_the_natural_one_alone() {
    assert_eq!(preferred_ratio_sizes(Some(num(158.0)), None, Some(num(100.0)), None, num(2.0), num(2.0), true), (Some(num(158.0)), None));

    for bad in [num(0.0), num(-2.0), num(f32::NAN), num(f32::INFINITY)] {
        assert_eq!(preferred_ratio_sizes(Some(num(158.0)), None, Some(num(100.0)), Some(bad), num(2.0), num(2.0), true), (Some(num(158.0)), None));
    }

    assert_eq!(preferred_ratio_sizes(None, None, None, Some(num(2.0)), num(2.0), num(2.0), true), (None, None));
}

#[test]
fn a_ratio_narrower_than_its_own_decoration_floors_at_zero() {
    assert_eq!(ratio_cross_content_size(num(2.0), num(4.0), num(20.0), num(1.0), true, true), num(0.0));

    assert_eq!(ratio_cross_content_size(num(158.0), num(2.0), num(2.0), num(16.0) / num(9.0), true, true), num(88.0));
    assert_eq!(ratio_cross_content_size(num(160.0), num(2.0), num(2.0), num(16.0) / num(9.0), true, false), num(90.0));
}

#[test]
fn an_auto_size_is_never_reduced_by_the_decoration() {
    assert_eq!(replaced_content_size(None, num(2.0), true), None);
    assert_eq!(replaced_content_size(Some(num(200.0)), num(2.0), true), Some(num(198.0)));
    assert_eq!(replaced_content_size(Some(num(200.0)), num(2.0), false), Some(num(200.0)));

    assert_eq!(replaced_content_size(Some(num(1.0)), num(4.0), true), Some(num(0.0)));
}

#[test]
fn test_auto_margins_center_max_width_clamped() {
    let mut style = ComputedStyle::new();
    style.width = Length::Auto;
    style.max_width = Length::Px(num(600.0));
    style.margin_left = Length::Auto;
    style.margin_right = Length::Auto;
    let mut layout_box = LayoutBox::new(BoxType::Block, style);
    layout_box.calculate_block_width(&containing_1000());
    assert_eq!(layout_box.dimensions.content.width, num(600.0));
    assert_eq!(layout_box.dimensions.margin.left, num(200.0));
    assert_eq!(layout_box.dimensions.margin.right, num(200.0));
}

#[test]
fn test_auto_margin_single_side_absorbs_free_space() {
    let mut style = ComputedStyle::new();
    style.width = Length::Px(num(600.0));
    style.margin_left = Length::Auto;
    style.margin_right = Length::Px(num(100.0));
    let mut layout_box = LayoutBox::new(BoxType::Block, style);
    layout_box.calculate_block_width(&containing_1000());
    assert_eq!(layout_box.dimensions.margin.left, num(300.0));
    assert_eq!(layout_box.dimensions.margin.right, num(100.0));
}

#[test]
fn test_auto_margins_zero_when_width_auto() {
    let mut style = ComputedStyle::new();
    style.width = Length::Auto;
    style.margin_left = Length::Auto;
    style.margin_right = Length::Auto;
    let mut layout_box = LayoutBox::new(BoxType::Block, style);
    layout_box.calculate_block_width(&containing_1000());
    assert_eq!(layout_box.dimensions.content.width, num(1000.0));
    assert_eq!(layout_box.dimensions.margin.left, num(0.0));
    assert_eq!(layout_box.dimensions.margin.right, num(0.0));
}

#[test]
fn test_auto_margins_ignored_on_floats() {
    let mut style = ComputedStyle::new();
    style.width = Length::Px(num(600.0));
    style.margin_left = Length::Auto;
    style.margin_right = Length::Auto;
    let mut layout_box = LayoutBox::with_float(BoxType::Block, style, Float::Left);
    layout_box.calculate_block_width(&containing_1000());
    assert_eq!(layout_box.dimensions.margin.left, num(0.0));
    assert_eq!(layout_box.dimensions.margin.right, num(0.0));
}

const FIT_TEXT: &str = "aaaaaaaaaaaaaaaaaaaa bb";

fn fit_measure(s: &str) -> Num {
    measure_text_advanced(&font(), &s.to_string(), &face(&ComputedStyle::new(), 16.0)).width
}

fn fit_box(position: Position, left: Option<Num>, right: Option<Num>) -> LayoutBox {
    let mut b = LayoutBox::with_position(BoxType::Block, ComputedStyle::new(), position);
    b.set_offsets(None, right, None, left);
    b.intrinsic.own_max_content = fit_measure(FIT_TEXT);
    b.intrinsic.own_min_content = fit_measure("aaaaaaaaaaaaaaaaaaaa");
    b.children.push(LayoutBox::new(
        BoxType::Text(FIT_TEXT.to_string()),
        ComputedStyle::new(),
    ));
    b
}

fn fit_width(mut b: LayoutBox, cb_width: Num) -> Num {
    let mut cb = Dimensions::default();
    cb.content = Rect::new(num(0.0), num(0.0), cb_width, num(600.0));
    b.calculate_block_width(&cb);
    b.dimensions.content.width
}

#[test]
fn an_inset_stretch_never_overrides_a_specified_height() {
    let mut style = ComputedStyle::new();
    style.height = Length::Px(num(40.0));
    let mut b = LayoutBox::with_position(BoxType::Block, style, Position::Absolute);
    b.set_offsets(Some(num(0.0)), None, Some(num(0.0)), None);
    b.dimensions.content.height = num(40.0);
    let cb = Dimensions {
        content: Rect::new(num(0.0), num(0.0), num(300.0), num(200.0)),
        ..Default::default()
    };
    b.apply_position_offsets(&cb);
    assert_eq!(b.dimensions.content.height, num(40.0));
}

#[test]
fn an_out_of_flow_auto_width_box_shrinks_to_its_content() {
    let max_content = fit_measure(FIT_TEXT);
    for position in [Position::Fixed, Position::Absolute] {
        let w = fit_width(fit_box(position, None, None), num(1000.0));
        assert!((w - max_content).abs() < num(0.01));
        assert!(w < num(1000.0));
    }
}

#[test]
fn an_in_flow_auto_width_block_still_fills_its_containing_block() {
    assert_eq!(fit_width(fit_box(Position::Static, None, None), num(1000.0)), num(1000.0));
    assert_eq!(fit_width(fit_box(Position::Relative, None, None), num(1000.0)), num(1000.0));
}

#[test]
fn an_out_of_flow_box_with_both_inline_offsets_still_stretches() {
    let w = fit_width(fit_box(Position::Absolute, Some(num(0.0)), Some(num(0.0))), num(1000.0));
    assert_eq!(w, num(1000.0));
}

#[test]
fn one_inline_offset_alone_does_not_restore_the_stretch() {
    let max_content = fit_measure(FIT_TEXT);
    for (l, r) in [(Some(num(10.0)), None), (None, Some(num(10.0)))] {
        let w = fit_width(fit_box(Position::Absolute, l, r), num(1000.0));
        assert!((w - max_content).abs() < num(0.01));
    }
}

#[test]
fn shrink_to_fit_is_clamped_by_the_available_width() {
    let min_content = fit_measure("aaaaaaaaaaaaaaaaaaaa");
    let max_content = fit_measure(FIT_TEXT);
    let available = (min_content + max_content) / num(2.0);
    assert!(min_content < available && available < max_content);
    let w = fit_width(fit_box(Position::Fixed, None, None), available);
    assert!((w - available).abs() < num(0.01));
}

#[test]
fn shrink_to_fit_is_floored_by_the_min_content_width() {
    let min_content = fit_measure("aaaaaaaaaaaaaaaaaaaa");
    let available = min_content / num(4.0);
    let w = fit_width(fit_box(Position::Fixed, None, None), available);
    assert!((w - min_content).abs() < num(0.01));
}

#[test]
fn shrink_to_fit_measures_content_not_the_padding_box() {
    let max_content = fit_measure(FIT_TEXT);
    let mut b = fit_box(Position::Fixed, None, None);
    b.style.padding_left = Length::Px(num(10.0));
    b.style.padding_right = Length::Px(num(10.0));
    b.style.border_left_width = Length::Px(num(2.0));
    b.style.border_right_width = Length::Px(num(2.0));
    b.intrinsic.own_max_content = b.intrinsic.own_max_content + num(24.0);
    b.intrinsic.own_min_content = b.intrinsic.own_min_content + num(24.0);
    b.intrinsic.padding_border = num(24.0);
    let w = fit_width(b, num(1000.0));
    assert!((w - max_content).abs() < num(0.01));
}

#[test]
fn shrink_to_fit_never_returns_a_negative_width() {
    let mut b = fit_box(Position::Fixed, None, None);
    b.style.display = Display::Gone;
    b.style.padding_left = Length::Px(num(40.0));
    b.style.padding_right = Length::Px(num(40.0));
    b.intrinsic.own_max_content = num(0.0);
    b.intrinsic.own_min_content = num(0.0);
    b.intrinsic.padding_border = num(80.0);
    assert_eq!(shrink_to_fit_content_width(&b, num(1000.0)), num(0.0));
}

#[test]
fn the_shrink_to_fit_predicate_reads_position_and_both_offsets() {
    let none = PositionOffsets::default();
    let both = PositionOffsets {
        left: Some(num(0.0)),
        right: Some(num(0.0)),
        ..Default::default()
    };
    let left_only = PositionOffsets {
        left: Some(num(0.0)),
        ..Default::default()
    };
    for p in [Position::Absolute, Position::Fixed] {
        assert!(auto_width_shrinks_to_fit(p, &none));
        assert!(auto_width_shrinks_to_fit(p, &left_only));
        assert!(!auto_width_shrinks_to_fit(p, &both));
    }
    for p in [Position::Static, Position::Relative, Position::Sticky] {
        assert!(!auto_width_shrinks_to_fit(p, &none));
        assert!(!auto_width_shrinks_to_fit(p, &left_only));
    }
}

#[test]
fn a_percentage_offset_counts_as_specified_for_the_stretch_test() {
    let mut b = fit_box(Position::Absolute, None, None);
    b.style.left = Some(Length::Percent(num(0.0)));
    b.style.right = Some(Length::Percent(num(0.0)));
    assert_eq!(fit_width(b, num(1000.0)), num(1000.0));
}

#[test]
fn test_auto_margins_overconstrained_stay_zero() {
    let mut style = ComputedStyle::new();
    style.width = Length::Px(num(1400.0));
    style.margin_left = Length::Auto;
    style.margin_right = Length::Auto;
    let mut layout_box = LayoutBox::new(BoxType::Block, style);
    layout_box.calculate_block_width(&containing_1000());
    assert_eq!(layout_box.dimensions.margin.left, num(0.0));
    assert_eq!(layout_box.dimensions.margin.right, num(0.0));
}

#[test]
fn test_margin_collapse_positive() {
    let mut ctx = MarginCollapseContext::new();
    ctx.add_margin(num(10.0));
    ctx.add_margin(num(20.0));
    assert_eq!(ctx.resolve(), num(20.0));
}

#[test]
fn test_margin_collapse_negative() {
    let mut ctx = MarginCollapseContext::new();
    ctx.add_margin(num(-10.0));
    ctx.add_margin(num(-20.0));
    assert_eq!(ctx.resolve(), num(-20.0));
}

#[test]
fn test_margin_collapse_mixed() {
    let mut ctx = MarginCollapseContext::new();
    ctx.add_margin(num(20.0));
    ctx.add_margin(num(-10.0));
    assert_eq!(ctx.resolve(), num(10.0));
}

#[test]
fn test_float_context() {
    let mut ctx = FloatContext::new();

    ctx.add_left(Rect::new(num(0.0), num(0.0), num(100.0), num(50.0)));

    let (left, right) = ctx.available_width(num(25.0), num(500.0));
    assert_eq!(left, num(100.0));
    assert_eq!(right, num(500.0));

    let (left, right) = ctx.available_width(num(60.0), num(500.0));
    assert_eq!(left, num(0.0));
    assert_eq!(right, num(500.0));
}

#[test]
fn test_float_clear() {
    let mut ctx = FloatContext::new();

    ctx.add_left(Rect::new(num(0.0), num(0.0), num(100.0), num(50.0)));
    ctx.add_right(Rect::new(num(400.0), num(0.0), num(100.0), num(80.0)));

    assert_eq!(ctx.clear(Clear::Left), num(50.0));
    assert_eq!(ctx.clear(Clear::Right), num(80.0));
    assert_eq!(ctx.clear(Clear::Both), num(80.0));
    assert_eq!(ctx.clear(Clear::Unset), num(0.0));
}

#[test]
fn test_float_clear_all() {
    let mut ctx = FloatContext::new();
    assert_eq!(ctx.clear_all(), num(0.0));

    ctx.add_left(Rect::new(num(0.0), num(0.0), num(100.0), num(50.0)));
    assert_eq!(ctx.clear_all(), num(50.0));

    ctx.add_right(Rect::new(num(400.0), num(0.0), num(100.0), num(80.0)));
    assert_eq!(ctx.clear_all(), num(80.0));
}

#[test]
fn test_float_find_position_left() {
    let mut ctx = FloatContext::new();
    let container_width = num(500.0);

    let (x, y) = ctx.find_float_position(Float::Left, num(100.0), num(50.0), num(0.0), container_width);
    assert_eq!(x, num(0.0));
    assert_eq!(y, num(0.0));

    ctx.add_left(Rect::new(num(0.0), num(0.0), num(100.0), num(50.0)));

    let (x2, y2) = ctx.find_float_position(Float::Left, num(100.0), num(50.0), num(0.0), container_width);

    assert_eq!(x2, num(100.0));
    assert_eq!(y2, num(0.0));
}

#[test]
fn test_float_find_position_right() {
    let mut ctx = FloatContext::new();
    let container_width = num(500.0);

    let (x, y) = ctx.find_float_position(Float::Right, num(100.0), num(50.0), num(0.0), container_width);
    assert_eq!(x, num(400.0));
    assert_eq!(y, num(0.0));

    ctx.add_right(Rect::new(num(400.0), num(0.0), num(100.0), num(50.0)));

    let (x2, y2) = ctx.find_float_position(Float::Right, num(100.0), num(50.0), num(0.0), container_width);

    assert_eq!(x2, num(300.0));
    assert_eq!(y2, num(0.0));
}

#[test]
fn test_float_available_rect() {
    let mut ctx = FloatContext::new();
    let container_width = num(500.0);

    ctx.add_left(Rect::new(num(0.0), num(0.0), num(100.0), num(50.0)));
    ctx.add_right(Rect::new(num(400.0), num(0.0), num(100.0), num(50.0)));

    let (x, width) = ctx.available_rect(num(0.0), num(25.0), container_width);
    assert_eq!(x, num(100.0));
    assert_eq!(width, num(300.0));

    let (x2, width2) = ctx.available_rect(num(60.0), num(10.0), container_width);
    assert_eq!(x2, num(0.0));
    assert_eq!(width2, num(500.0));
}

#[test]
fn test_float_has_floats_at() {
    let mut ctx = FloatContext::new();

    ctx.add_left(Rect::new(num(0.0), num(10.0), num(100.0), num(50.0)));

    assert!(!ctx.has_floats_at(num(0.0)));
    assert!(!ctx.has_floats_at(num(5.0)));
    assert!(ctx.has_floats_at(num(10.0)));
    assert!(ctx.has_floats_at(num(30.0)));
    assert!(ctx.has_floats_at(num(59.0)));
    assert!(!ctx.has_floats_at(num(60.0)));
}

#[test]
fn test_float_fits() {
    let mut ctx = FloatContext::new();
    let container_width = num(500.0);

    ctx.add_left(Rect::new(num(0.0), num(0.0), num(100.0), num(50.0)));

    assert!(ctx.float_fits(num(100.0), num(0.0), num(100.0), num(50.0), container_width));

    assert!(!ctx.float_fits(num(50.0), num(25.0), num(100.0), num(50.0), container_width));

    assert!(ctx.float_fits(num(0.0), num(50.0), num(100.0), num(50.0), container_width));

    assert!(!ctx.float_fits(num(450.0), num(0.0), num(100.0), num(50.0), container_width));
}

#[test]
fn test_float_floats_in_range() {
    let mut ctx = FloatContext::new();

    ctx.add_left(Rect::new(num(0.0), num(0.0), num(100.0), num(50.0)));
    ctx.add_right(Rect::new(num(400.0), num(30.0), num(100.0), num(50.0)));

    let floats = ctx.floats_in_range(num(0.0), num(80.0));
    assert_eq!(floats.len(), 2);

    let floats = ctx.floats_in_range(num(0.0), num(25.0));
    assert_eq!(floats.len(), 1);
    assert_eq!(floats[0].float_type, Float::Left);

    let floats = ctx.floats_in_range(num(100.0), num(150.0));
    assert!(floats.is_empty());
}

#[test]
fn test_float_remove_floats_above() {
    let mut ctx = FloatContext::new();

    ctx.add_left(Rect::new(num(0.0), num(0.0), num(100.0), num(50.0)));
    ctx.add_left(Rect::new(num(0.0), num(100.0), num(100.0), num(50.0)));
    ctx.add_right(Rect::new(num(400.0), num(0.0), num(100.0), num(30.0)));

    assert_eq!(ctx.float_count(), 3);

    ctx.remove_floats_above(num(50.0));
    assert_eq!(ctx.float_count(), 1);
}

#[test]
fn test_float_is_empty() {
    let mut ctx = FloatContext::new();
    assert!(ctx.is_empty());

    ctx.add_left(Rect::new(num(0.0), num(0.0), num(100.0), num(50.0)));
    assert!(!ctx.is_empty());
}

#[test]
fn test_float_count() {
    let mut ctx = FloatContext::new();
    assert_eq!(ctx.float_count(), 0);

    ctx.add_left(Rect::new(num(0.0), num(0.0), num(100.0), num(50.0)));
    assert_eq!(ctx.float_count(), 1);

    ctx.add_right(Rect::new(num(400.0), num(0.0), num(100.0), num(50.0)));
    assert_eq!(ctx.float_count(), 2);
}

#[test]
fn test_rects_overlap() {
    let a = Rect::new(num(0.0), num(0.0), num(100.0), num(100.0));

    assert!(rects_overlap(&a, &Rect::new(num(50.0), num(50.0), num(100.0), num(100.0))));

    assert!(!rects_overlap(&a, &Rect::new(num(100.0), num(0.0), num(100.0), num(100.0))));
    assert!(!rects_overlap(&a, &Rect::new(num(0.0), num(100.0), num(100.0), num(100.0))));

    assert!(!rects_overlap(&a, &Rect::new(num(200.0), num(200.0), num(100.0), num(100.0))));
}

#[test]
fn test_position_offsets() {
    let style = ComputedStyle::new();
    let mut layout_box = LayoutBox::with_position(BoxType::Block, style, Position::Relative);
    layout_box.set_offsets(Some(num(10.0)), None, None, Some(num(20.0)));

    assert_eq!(layout_box.offsets.top, Some(num(10.0)));
    assert_eq!(layout_box.offsets.left, Some(num(20.0)));
    assert_eq!(layout_box.offsets.right, None);
    assert_eq!(layout_box.offsets.bottom, None);
}

#[test]
fn test_z_index_stacking() {
    let style = ComputedStyle::new();
    let mut layout_box = LayoutBox::with_position(BoxType::Block, style, Position::Absolute);
    layout_box.set_z_index(5);

    assert_eq!(layout_box.z_index, 5);
    let ctx = layout_box.stacking_context.as_ref().unwrap();
    assert!(ctx.creates_context);
    assert_eq!(ctx.z_index, 5);
}

#[test]
fn test_paint_order() {
    let style = ComputedStyle::new();
    let mut parent = LayoutBox::new(BoxType::Block, style.clone());

    let normal = LayoutBox::new(BoxType::Block, style.clone());
    parent.children.push(normal);

    let mut positive_z =
        LayoutBox::with_position(BoxType::Block, style.clone(), Position::Absolute);
    positive_z.set_z_index(1);
    parent.children.push(positive_z);

    let mut negative_z = LayoutBox::with_position(BoxType::Block, style, Position::Absolute);
    negative_z.set_z_index(-1);
    parent.children.push(negative_z);

    let paint_order = parent.get_paint_order();

    assert_eq!(paint_order.len(), 3);
    assert_eq!(paint_order[0].z_index, -1);
    assert_eq!(paint_order[1].position, Position::Static);
    assert_eq!(paint_order[2].z_index, 1);
}

#[test]
fn test_sticky_positioning_state_initialization() {
    let style = ComputedStyle::new();
    let mut layout_box = LayoutBox::with_position(BoxType::Block, style, Position::Sticky);

    layout_box.set_offsets(Some(num(10.0)), None, None, None);

    layout_box.dimensions.content.x = num(0.0);
    layout_box.dimensions.content.y = num(100.0);
    layout_box.dimensions.content.width = num(200.0);
    layout_box.dimensions.content.height = num(50.0);

    let containing_block = Dimensions {
        content: Rect::new(num(0.0), num(0.0), num(800.0), num(600.0)),
        ..Default::default()
    };

    layout_box.apply_position_offsets(&containing_block);

    assert!(layout_box.sticky_state.is_some());

    let sticky = layout_box.sticky_state.as_ref().unwrap();
    assert!(!sticky.is_stuck);
    assert!(sticky.offsets.top.is_some());
    assert_eq!(sticky.offsets.top.unwrap(), num(10.0));
}

#[test]
fn test_sticky_update_not_stuck() {
    let style = ComputedStyle::new();
    let mut layout_box = LayoutBox::with_position(BoxType::Block, style, Position::Sticky);

    layout_box.set_offsets(Some(num(10.0)), None, None, None);

    layout_box.dimensions.content.y = num(100.0);
    layout_box.dimensions.content.height = num(50.0);
    layout_box.dimensions.content.width = num(200.0);

    let containing_block = Dimensions::default();
    layout_box.apply_position_offsets(&containing_block);

    let container = Rect::new(num(0.0), num(0.0), num(800.0), num(600.0));

    layout_box.update_sticky_positions(num(0.0), num(0.0), container);

    let sticky = layout_box.sticky_state.as_ref().unwrap();
    assert!(!sticky.is_stuck);
}

#[test]
fn test_sticky_update_stuck() {
    let style = ComputedStyle::new();
    let mut layout_box = LayoutBox::with_position(BoxType::Block, style, Position::Sticky);

    layout_box.set_offsets(Some(num(10.0)), None, None, None);

    layout_box.dimensions.content.y = num(100.0);
    layout_box.dimensions.content.height = num(50.0);
    layout_box.dimensions.content.width = num(200.0);

    let containing_block = Dimensions::default();
    layout_box.apply_position_offsets(&containing_block);

    let container = Rect::new(num(0.0), num(0.0), num(800.0), num(600.0));

    layout_box.update_sticky_positions(num(0.0), num(150.0), container);

    let sticky = layout_box.sticky_state.as_ref().unwrap();
    assert!(sticky.is_stuck);
}

#[test]
fn test_sticky_reset() {
    let style = ComputedStyle::new();
    let mut layout_box = LayoutBox::with_position(BoxType::Block, style, Position::Sticky);

    layout_box.set_offsets(Some(num(10.0)), None, None, None);

    layout_box.dimensions.content.y = num(100.0);
    layout_box.dimensions.content.height = num(50.0);
    layout_box.dimensions.content.width = num(200.0);

    let containing_block = Dimensions::default();
    layout_box.apply_position_offsets(&containing_block);

    let container = Rect::new(num(0.0), num(0.0), num(800.0), num(600.0));

    layout_box.update_sticky_positions(num(0.0), num(150.0), container);
    assert!(layout_box.sticky_state.as_ref().unwrap().is_stuck);

    layout_box.reset_sticky_positions();
    assert!(!layout_box.sticky_state.as_ref().unwrap().is_stuck);
}

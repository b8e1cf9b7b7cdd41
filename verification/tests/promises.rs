use rustkit_layout::boxes::{BoxType, LayoutBox, Position};
use rustkit_layout::display::DisplayCommand;
use rustkit_layout::display_list::DisplayList;
use rustkit_layout::floats::{Clear, Float, FloatContext};
use rustkit_layout::geometry::{Dimensions, Point, Rect};
use rustkit_layout::images::ObjectFit;
use rustkit_layout::margin_collapse::{establishes_bfc, MarginCollapseContext};
use rustkit_layout::num::Num;
use rustkit_layout::style::{
    BackgroundImage, BackgroundLayer, BackgroundPosition, BackgroundPositionValue, BackgroundRepeat,
    BackgroundSize, Color, ColorStop, ComputedStyle, Display, Gradient, GradientDirection, Length,
    LinearGradient, Overflow,
};
use rustkit_layout::text::{FallbackFont, Shaper};

fn num(v: f32) -> Num {
    Num::from_bits(v.to_bits())
}

fn f(v: Num) -> f32 {
    f32::from_bits(v.to_bits())
}

fn rect(x: f32, y: f32, width: f32, height: f32) -> Rect {
    Rect::new(num(x), num(y), num(width), num(height))
}

fn font() -> Shaper {
    Shaper::new(FallbackFont {
        ascent: num(0.8),
        descent: num(0.2),
        leading: num(0.0),
        underline_offset: num(0.0),
        underline_thickness: num(0.0),
        strikethrough_offset: num(0.0),
        overline_offset: num(0.0),
    })
}

fn block(x: f32, y: f32, width: f32, height: f32) -> LayoutBox {
    let mut b = LayoutBox::new(BoxType::Block, ComputedStyle::new());
    b.dimensions.content = rect(x, y, width, height);
    b
}

fn place(ctx: &FloatContext, side: Float, width: f32, height: f32, start: f32) -> (f32, f32) {
    let (x, y) =
        ctx.find_float_position(side, num(width), num(height), num(start), num(100.0));
    assert!(ctx.float_fits(x, y, num(width), num(height), num(100.0)));
    (f(x), f(y))
}

#[test]
fn a_float_overlaps_none_that_starts_below_its_top() {
    let mut ctx = FloatContext::new();
    ctx.add_left(rect(0.0, 10.0, 50.0, 10.0));
    assert_eq!(place(&ctx, Float::Left, 40.0, 20.0, 0.0), (50.0, 0.0));
    assert_eq!(place(&ctx, Float::Left, 40.0, 10.0, 0.0), (0.0, 0.0));
    assert_eq!(place(&ctx, Float::Left, 60.0, 20.0, 0.0), (0.0, 20.0));
    assert_eq!(place(&ctx, Float::Right, 60.0, 20.0, 0.0), (40.0, 20.0));
}

#[test]
fn a_float_takes_the_highest_end_where_it_fits() {
    let mut ctx = FloatContext::new();
    ctx.add_left(rect(0.0, 0.0, 60.0, 10.0));
    ctx.add_left(rect(0.0, 10.0, 30.0, 20.0));
    ctx.add_right(rect(80.0, 0.0, 20.0, 40.0));
    assert_eq!(place(&ctx, Float::Left, 20.0, 5.0, 0.0), (60.0, 0.0));
    assert_eq!(place(&ctx, Float::Left, 50.0, 5.0, 0.0), (30.0, 10.0));
    assert_eq!(place(&ctx, Float::Left, 70.0, 5.0, 0.0), (0.0, 30.0));
    assert_eq!(place(&ctx, Float::Left, 100.0, 5.0, 0.0), (0.0, 40.0));
    assert_eq!(place(&ctx, Float::Left, 100.0, 5.0, 50.0), (0.0, 50.0));
}

#[test]
fn the_free_rectangle_is_beside_the_floats_in_its_range() {
    let mut ctx = FloatContext::new();
    ctx.add_left(rect(0.0, 0.0, 30.0, 5.0));
    ctx.add_left(rect(0.0, 8.0, 40.0, 4.0));
    ctx.add_right(rect(70.0, 12.0, 30.0, 4.0));
    let (x, width) = ctx.available_rect(num(5.0), num(8.0), num(100.0));
    assert_eq!((f(x), f(width)), (40.0, 30.0));
    let (x, width) = ctx.available_rect(num(5.0), num(3.0), num(100.0));
    assert_eq!((f(x), f(width)), (0.0, 100.0));
}

#[test]
fn every_hit_has_its_own_path() {
    let mut root = block(0.0, 0.0, 200.0, 200.0);
    root.link_href = Some("outer".to_string());
    let mut middle = block(0.0, 0.0, 100.0, 100.0);
    middle.style.overflow_y = Overflow::Auto;
    let mut leaf = block(0.0, 0.0, 50.0, 300.0);
    leaf.link_href = Some("inner".to_string());
    middle.children.push(leaf);
    root.children.push(middle);

    let all = root.hit_test_all(num(10.0), num(10.0));
    assert_eq!(all.len(), 3);
    for hit in &all {
        assert_eq!(hit.ancestors.len(), hit.depth as usize);
    }
    assert_eq!(f(all[2].ancestors[0].border_box.width), 100.0);
    assert_eq!(f(all[2].ancestors[1].border_box.width), 200.0);
    assert!(!all[0].is_scrollable && all[1].is_scrollable && !all[2].is_scrollable);
    let links: Vec<&str> = all.iter().map(|h| h.link_href.as_deref().unwrap()).collect();
    assert_eq!(links, vec!["outer", "outer", "inner"]);
    let one = root.hit_test(num(10.0), num(10.0)).unwrap();
    assert_eq!((one.depth, one.ancestors.len()), (all[2].depth, all[2].ancestors.len()));
}

fn tile_origins(repeat: BackgroundRepeat, x: f32) -> Vec<(f32, f32)> {
    let stop = |r: u8| ColorStop { color: Color { r, g: 0, b: 0, a: num(1.0) }, position: None };
    let mut style = ComputedStyle::new();
    style.background_layers = vec![BackgroundLayer {
        image: BackgroundImage::Gradient(Gradient::Linear(LinearGradient {
            direction: GradientDirection::ToBottom,
            stops: vec![stop(0), stop(255)],
            repeating: false,
        })),
        size: BackgroundSize::Explicit { width: Some(num(40.0)), height: Some(num(20.0)) },
        position: BackgroundPosition {
            x: BackgroundPositionValue::Px(num(x)),
            y: BackgroundPositionValue::Px(num(0.0)),
        },
        repeat,
    }];
    let mut b = LayoutBox::new(BoxType::Block, style);
    b.dimensions.content = rect(0.0, 0.0, 100.0, 20.0);
    DisplayList::build(&font(), &b)
        .commands
        .iter()
        .filter_map(|c| match c {
            DisplayCommand::LinearGradient { rect, .. } => Some((f(rect.x), f(rect.y))),
            _ => None,
        })
        .collect()
}

#[test]
fn tiles_keep_to_the_grid_of_the_positioned_image() {
    let row = vec![(-30.0, 0.0), (10.0, 0.0), (50.0, 0.0), (90.0, 0.0)];
    assert_eq!(tile_origins(BackgroundRepeat::Repeat, 10.0), row);
    assert_eq!(tile_origins(BackgroundRepeat::RepeatX, 10.0), row);
    assert_eq!(tile_origins(BackgroundRepeat::Repeat, -70.0), row);
    assert_eq!(
        tile_origins(BackgroundRepeat::Repeat, 0.0),
        vec![(0.0, 0.0), (40.0, 0.0), (80.0, 0.0)]
    );
    assert_eq!(tile_origins(BackgroundRepeat::NoRepeat, 10.0), vec![(10.0, 0.0)]);
}

#[test]
fn space_and_round_repeat() {
    let row = tile_origins(BackgroundRepeat::Repeat, 10.0);
    assert_eq!(tile_origins(BackgroundRepeat::Space, 10.0), row);
    assert_eq!(tile_origins(BackgroundRepeat::Round, 10.0), row);
}

#[test]
fn table_cells_captions_and_flow_roots_are_formatting_roots() {
    for display in [Display::TableCell, Display::TableCaption, Display::FlowRoot] {
        let mut style = ComputedStyle::new();
        style.display = display;
        assert!(establishes_bfc(&style, Float::Unset));
    }
    assert!(!establishes_bfc(&ComputedStyle::new(), Float::Unset));
}

#[test]
fn clearance_separates_the_first_child_from_its_parent() {
    let mut child = block(0.0, 0.0, 0.0, 0.0);
    child.style.margin_top = Length::Px(num(30.0));
    child.clear = Clear::Left;
    let mut parent = block(0.0, 0.0, 100.0, 0.0);
    parent.children.push(child);

    let mut floats = FloatContext::new();
    let chain = parent.first_child_top_margin_chain(&floats);
    assert_eq!(chain.iter().map(|m| f(*m)).collect::<Vec<f32>>(), vec![30.0]);
    floats.add_right(rect(50.0, 0.0, 50.0, 10.0));
    assert_eq!(parent.first_child_top_margin_chain(&floats).len(), 1);
    floats.add_left(rect(0.0, 0.0, 50.0, 10.0));
    assert_eq!(parent.first_child_top_margin_chain(&floats).len(), 0);
}

fn sized(height: f32, margin_bottom: f32) -> LayoutBox {
    let mut style = ComputedStyle::new();
    style.height = Length::Px(num(height));
    style.margin_bottom = Length::Px(num(margin_bottom));
    LayoutBox::new(BoxType::Block, style)
}

#[test]
fn a_last_margin_comes_inside_or_stays_pending() {
    let lay = |closed: bool| {
        let mut style = ComputedStyle::new();
        if closed {
            style.display = Display::FlowRoot;
        }
        let mut b = LayoutBox::new(BoxType::Block, style);
        b.children = vec![sized(40.0, 10.0), sized(20.0, 15.0)];
        let mut cb = Dimensions::default();
        cb.content = rect(0.0, 0.0, 200.0, 0.0);
        let mut margin = MarginCollapseContext::new();
        b.layout_with_collapse(&font(), &cb, &mut margin, &mut FloatContext::new());
        let ys: Vec<f32> = b.children.iter().map(|c| f(c.dimensions.content.y)).collect();
        (ys, f(b.dimensions.content.height), f(margin.resolve()))
    };
    assert_eq!(lay(false), (vec![0.0, 50.0], 70.0, 15.0));
    assert_eq!(lay(true), (vec![0.0, 50.0], 85.0, 0.0));
}

#[test]
fn resetting_returns_every_sticky_box() {
    let mut inner =
        LayoutBox::with_position(BoxType::Block, ComputedStyle::new(), Position::Sticky);
    inner.set_offsets(Some(num(5.0)), None, None, None);
    inner.dimensions.content = rect(0.0, 100.0, 50.0, 20.0);
    inner.apply_position_offsets(&Dimensions::default());
    let mut root = block(0.0, 0.0, 200.0, 600.0);
    root.children.push(inner);
    root.children.push(block(0.0, 200.0, 50.0, 20.0));

    let container = rect(0.0, 0.0, 200.0, 600.0);
    for scroll in [120.0, 300.0, 110.0, 200.0] {
        root.update_sticky_positions(num(0.0), num(scroll), container);
    }
    assert!(f(root.children[0].dimensions.content.y) > 100.0);
    root.reset_sticky_positions();
    let state = root.children[0].sticky_state.as_ref().unwrap();
    assert!(!state.is_stuck && state.stuck_rect.is_none());
    assert_eq!(f(root.children[0].dimensions.content.y), 100.0);
    assert_eq!(f(root.children[0].dimensions.content.height), 20.0);
    assert_eq!(f(root.children[1].dimensions.content.y), 200.0);
}

#[test]
fn scale_down_stays_inside_image_and_container() {
    let at = Point { x: num(0.5), y: num(0.5) };
    for (w, h) in [(50.0, 40.0), (200.0, 100.0), (100.0, 400.0), (100.0, 50.0)] {
        let r = ObjectFit::ScaleDown
            .compute_rect(rect(0.0, 0.0, 100.0, 50.0), num(w), num(h), at)
            .dest;
        assert!(f(r.width) <= w && f(r.height) <= h);
        assert!(f(r.width) <= 100.0 && f(r.height) <= 50.0);
    }
}

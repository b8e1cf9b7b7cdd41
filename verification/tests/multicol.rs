use rustkit_layout::boxes::{BoxType, LayoutBox};
use rustkit_layout::floats::FloatContext;
use rustkit_layout::geometry::{Dimensions, Rect};
use rustkit_layout::margin_collapse::MarginCollapseContext;
use rustkit_layout::multicol::column_geometry;
use rustkit_layout::num::Num;
use rustkit_layout::style::{ComputedStyle, Length};
use rustkit_layout::text::{FallbackFont, Shaper};

fn n(v: f32) -> Num {
    Num::from_bits(v.to_bits())
}

fn f(v: Num) -> f32 {
    f32::from_bits(v.to_bits())
}

fn shaper() -> Shaper {
    Shaper::new(FallbackFont {
        ascent: n(0.8),
        descent: n(0.2),
        leading: n(0.0),
        underline_offset: n(0.0),
        underline_thickness: n(0.0),
        strikethrough_offset: n(0.0),
        overline_offset: n(0.0),
    })
}

fn block(height: f32, margin_bottom: f32) -> LayoutBox {
    let mut style = ComputedStyle::new();
    style.height = Length::Px(n(height));
    style.margin_bottom = Length::Px(n(margin_bottom));
    LayoutBox::new(BoxType::Block, style)
}

fn lay_out(count: u32, gap: Length, children: Vec<LayoutBox>) -> LayoutBox {
    let mut style = ComputedStyle::new();
    style.column_count = Some(count);
    style.column_gap = gap;
    let mut multicol = LayoutBox::new(BoxType::Block, style);
    multicol.children = children;
    let mut root = LayoutBox::new(BoxType::Block, ComputedStyle::new());
    root.children = vec![multicol];
    let mut cb = Dimensions::default();
    cb.content = Rect::new(n(0.0), n(0.0), n(760.0), n(0.0));
    root.layout_with_collapse(
        &shaper(),
        &cb,
        &mut MarginCollapseContext::new(),
        &mut FloatContext::new(),
    );
    root.children.remove(0)
}

#[test]
fn two_paragraphs_balance_one_per_column() {
    let mc = lay_out(2, Length::Px(n(40.0)), vec![block(168.0, 20.0), block(140.0, 20.0)]);
    let (p1, p2) = (&mc.children[0].dimensions, &mc.children[1].dimensions);
    assert_eq!((f(p1.content.x), f(p1.content.y), f(p1.content.width)), (0.0, 0.0, 360.0));
    assert_eq!((f(p2.content.x), f(p2.content.y), f(p2.content.width)), (400.0, 0.0, 360.0));
    assert_eq!(f(mc.dimensions.content.width), 760.0);
    assert_eq!(f(mc.dimensions.content.height), 174.0);
}

#[test]
fn column_height_grows_by_the_smallest_shortage() {
    let mc = lay_out(
        2,
        Length::Px(n(40.0)),
        vec![block(100.0, 0.0), block(10.0, 0.0), block(30.0, 0.0)],
    );
    assert_eq!(f(mc.dimensions.content.height), 100.0);
    let ys: Vec<(f32, f32)> = mc
        .children
        .iter()
        .map(|c| (f(c.dimensions.content.x), f(c.dimensions.content.y)))
        .collect();
    assert_eq!(ys, vec![(0.0, 0.0), (400.0, 0.0), (400.0, 10.0)]);
}

#[test]
fn unauthored_gap_is_one_em() {
    let mut style = ComputedStyle::new();
    style.column_count = Some(2);
    let cols = column_geometry(&style, n(760.0)).unwrap();
    assert_eq!((f(cols.gap), f(cols.width)), (16.0, 372.0));
    style.column_count = Some(1);
    assert!(column_geometry(&style, n(760.0)).is_none());
}

#[test]
fn a_lone_tall_piece_sets_the_column_height() {
    let mc = lay_out(3, Length::Px(n(20.0)), vec![block(90.0, 0.0)]);
    assert_eq!(f(mc.dimensions.content.height), 90.0);
    assert_eq!(f(mc.children[0].dimensions.content.x), 0.0);
    assert_eq!(f(mc.children[0].dimensions.content.width), 240.0);
}

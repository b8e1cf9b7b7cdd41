use rustkit_layout::boxes::{BoxType, ElementIdentity, LayoutBox, LayoutError, Position};
use rustkit_layout::geometry::{EdgeSizes, Rect};
use rustkit_layout::num::Num;
use rustkit_layout::style::{ComputedStyle, Overflow};

fn num(v: f32) -> Num {
    Num::from_bits(v.to_bits())
}

fn block(x: f32, y: f32, width: f32, height: f32) -> LayoutBox {
    let mut b = LayoutBox::new(BoxType::Block, ComputedStyle::new());
    b.dimensions.content = Rect::new(num(x), num(y), num(width), num(height));
    b
}

fn positioned(x: f32, y: f32, width: f32, height: f32, z_index: i32) -> LayoutBox {
    let mut b = LayoutBox::with_position(BoxType::Block, ComputedStyle::new(), Position::Absolute);
    b.dimensions.content = Rect::new(num(x), num(y), num(width), num(height));
    b.set_z_index(z_index);
    b
}

#[test]
fn a_point_outside_every_box_hits_nothing() {
    let root = block(10.0, 10.0, 100.0, 100.0);
    assert!(root.hit_test(num(9.0), num(50.0)).is_none());
    assert!(root.hit_test(num(110.0), num(50.0)).is_none());
    assert!(root.hit_test_all(num(9.0), num(50.0)).is_empty());
}

#[test]
fn the_deepest_box_under_the_point_is_hit() {
    let mut root = block(0.0, 0.0, 200.0, 200.0);
    let mut middle = block(20.0, 20.0, 100.0, 100.0);
    let mut leaf = block(30.0, 40.0, 20.0, 20.0);
    leaf.node_id = Some(7);
    middle.link_href = Some("https://example.org/".to_string());
    middle.children.push(leaf);
    root.children.push(middle);

    let hit = root.hit_test(num(35.0), num(50.0)).unwrap();
    assert_eq!(hit.depth, 2);
    assert_eq!(hit.node_id, Some(7));
    assert_eq!(hit.link_href, Some("https://example.org/".to_string()));
    assert_eq!((hit.local_x, hit.local_y), (num(5.0), num(10.0)));
    assert_eq!(hit.ancestors.len(), 2);
    assert_eq!(hit.ancestors[0].border_box.width, num(100.0));
    assert_eq!(hit.ancestors[1].border_box.width, num(200.0));
    assert!(hit.is_in_content());

    let on_root = root.hit_test(num(150.0), num(150.0)).unwrap();
    assert_eq!(on_root.depth, 0);
    assert_eq!(on_root.link_href, None);
    assert_eq!(on_root.node_id, None);
}

#[test]
fn the_nearest_link_wins() {
    let mut root = block(0.0, 0.0, 200.0, 200.0);
    root.link_href = Some("outer".to_string());
    let mut inner = block(0.0, 0.0, 100.0, 100.0);
    inner.link_href = Some("inner".to_string());
    inner.children.push(block(0.0, 0.0, 50.0, 50.0));
    root.children.push(inner);

    let nested = root.hit_test(num(10.0), num(10.0)).unwrap();
    assert_eq!(nested.link_href, Some("inner".to_string()));
    let beside = root.hit_test(num(150.0), num(10.0)).unwrap();
    assert_eq!(beside.link_href, Some("outer".to_string()));
}

#[test]
fn the_higher_of_two_overlapping_boxes_is_hit() {
    let mut root = block(0.0, 0.0, 200.0, 200.0);
    root.children.push(positioned(0.0, 0.0, 50.0, 50.0, 5));
    root.children.push(positioned(0.0, 0.0, 50.0, 50.0, 1));
    root.children.push(block(0.0, 0.0, 50.0, 50.0));
    let hit = root.hit_test(num(10.0), num(10.0)).unwrap();
    assert_eq!(hit.z_index, 5);

    let all = root.hit_test_all(num(10.0), num(10.0));
    assert_eq!(all.len(), 4);
    assert!(all.iter().any(|h| h.z_index == 5));
    assert!(all.iter().any(|h| h.z_index == 1));
    assert!(all.iter().any(|h| h.depth == 0));
}

#[test]
fn content_padding_and_border_are_apart() {
    let mut b = block(10.0, 10.0, 100.0, 100.0);
    let five = EdgeSizes { top: num(5.0), right: num(5.0), bottom: num(5.0), left: num(5.0) };
    b.dimensions.padding = five;
    b.dimensions.border = five;
    let content = b.hit_test(num(50.0), num(50.0)).unwrap();
    assert!(content.is_in_content() && !content.is_in_padding() && !content.is_in_border());
    let padding = b.hit_test(num(7.0), num(50.0)).unwrap();
    assert!(!padding.is_in_content() && padding.is_in_padding() && !padding.is_in_border());
    let border = b.hit_test(num(2.0), num(50.0)).unwrap();
    assert!(!border.is_in_content() && !border.is_in_padding() && border.is_in_border());
}

#[test]
fn a_scroll_container_with_overflowing_content_is_scrollable() {
    let mut scroller = block(0.0, 0.0, 100.0, 100.0);
    scroller.style.overflow_y = Overflow::Auto;
    scroller.children.push(block(0.0, 0.0, 50.0, 300.0));
    assert!(scroller.detect_overflow());
    let mut still = block(0.0, 0.0, 100.0, 100.0);
    still.children.push(block(0.0, 0.0, 50.0, 50.0));
    assert!(!still.detect_overflow());
    let hit = scroller.hit_test(num(90.0), num(90.0)).unwrap();
    assert!(hit.is_scrollable);
}

#[test]
fn siblings_of_one_key_paint_in_tree_order() {
    let mut root = block(0.0, 0.0, 10.0, 10.0);
    for (z, node) in [(2, 0usize), (1, 1), (2, 2), (1, 3)] {
        let mut b = positioned(0.0, 0.0, 1.0, 1.0, z);
        b.node_id = Some(node);
        root.children.push(b);
    }
    let order: Vec<usize> = root.get_paint_order().iter().map(|b| b.node_id.unwrap()).collect();
    assert_eq!(order, vec![1, 3, 0, 2]);
}

#[test]
fn an_identity_names_its_element() {
    let mut b = block(0.0, 0.0, 1.0, 1.0);
    assert!(b.identity().is_none());
    assert_eq!(b.element_id(), None);
    b.set_identity(ElementIdentity {
        element_id: 4,
        tag: "p".to_string(),
        selector: "p.note".to_string(),
    });
    assert_eq!(b.element_id(), Some(4));
    assert_eq!(b.identity().unwrap().tag, "p");
}

#[test]
fn errors_say_what_failed() {
    let failed = LayoutError::LayoutFailed("no root".to_string());
    assert_eq!(failed.message(), "Layout failed: no root");
    let shaping = LayoutError::TextShapingError("no face".to_string());
    assert_eq!(shaping.message(), "Text shaping error: no face");
}

use rustkit_layout::floats::Float;
use rustkit_layout::margin_collapse::{
    collapse_margins, establishes_bfc, is_margin_collapsible_through,
    should_collapse_with_first_child, should_collapse_with_last_child, CollapsibleMargin,
    MarginCollapseContext,
};
use rustkit_layout::num::Num;
use rustkit_layout::style::{ComputedStyle, Length, Overflow, StylePosition};

fn n(v: f32) -> Num {
    Num::from_bits(v.to_bits())
}

fn f(v: Num) -> f32 {
    f32::from_bits(v.to_bits())
}



#[test]
fn test_collapsible_margin_from_positive() {
    let m = CollapsibleMargin::from_margin(n(20.0));
    assert_eq!(f(m.positive), 20.0);
    assert_eq!(f(m.negative), 0.0);
    assert_eq!(f(m.resolve()), 20.0);
}

#[test]
fn test_collapsible_margin_from_negative() {
    let m = CollapsibleMargin::from_margin(n(-15.0));
    assert_eq!(f(m.positive), 0.0);
    assert_eq!(f(m.negative), 15.0);
    assert_eq!(f(m.resolve()), -15.0);
}

#[test]
fn test_collapsible_margin_from_zero() {
    let m = CollapsibleMargin::from_margin(n(0.0));
    assert!(m.is_zero());
    assert_eq!(f(m.resolve()), 0.0);
}

#[test]
fn test_collapse_two_positive_margins() {
    let m1 = CollapsibleMargin::from_margin(n(20.0));
    let m2 = CollapsibleMargin::from_margin(n(30.0));
    let collapsed = m1.collapse_with(m2);
    assert_eq!(f(collapsed.resolve()), 30.0); // Max of positive
}

#[test]
fn test_collapse_two_negative_margins() {
    let m1 = CollapsibleMargin::from_margin(n(-10.0));
    let m2 = CollapsibleMargin::from_margin(n(-25.0));
    let collapsed = m1.collapse_with(m2);
    assert_eq!(f(collapsed.resolve()), -25.0); // Most negative
}

#[test]
fn test_collapse_mixed_margins_positive_wins() {
    let m1 = CollapsibleMargin::from_margin(n(30.0));
    let m2 = CollapsibleMargin::from_margin(n(-10.0));
    let collapsed = m1.collapse_with(m2);
    assert_eq!(f(collapsed.resolve()), 20.0); // 30 + (-10) = 20
}

#[test]
fn test_collapse_mixed_margins_negative_wins() {
    let m1 = CollapsibleMargin::from_margin(n(10.0));
    let m2 = CollapsibleMargin::from_margin(n(-30.0));
    let collapsed = m1.collapse_with(m2);
    assert_eq!(f(collapsed.resolve()), -20.0); // 10 + (-30) = -20
}

#[test]
fn test_adjoin_positive_to_positive() {
    let mut m = CollapsibleMargin::from_margin(n(10.0));
    m.adjoin(n(20.0));
    assert_eq!(f(m.resolve()), 20.0);
}

#[test]
fn test_adjoin_negative_to_positive() {
    let mut m = CollapsibleMargin::from_margin(n(30.0));
    m.adjoin(n(-10.0));
    assert_eq!(f(m.resolve()), 20.0);
}

#[test]
fn test_adjoin_multiple() {
    let mut m = CollapsibleMargin::zero();
    m.adjoin(n(10.0));
    m.adjoin(n(20.0));
    m.adjoin(n(-5.0));
    m.adjoin(n(-15.0));
    // positive: max(10, 20) = 20
    // negative: max(5, 15) = 15
    // result: 20 - 15 = 5
    assert_eq!(f(m.resolve()), 5.0);
}

#[test]
fn test_collapse_commutative() {
    let m1 = CollapsibleMargin::from_margin(n(20.0));
    let m2 = CollapsibleMargin::from_margin(n(-10.0));
    assert_eq!(
        f(m1.collapse_with(m2).resolve()),
        f(m2.collapse_with(m1).resolve())
    );
}


#[test]
fn test_collapse_margins_two_positive() {
    assert_eq!(f(collapse_margins(n(10.0), n(20.0))), 20.0);
}

#[test]
fn test_collapse_margins_two_negative() {
    assert_eq!(f(collapse_margins(n(-10.0), n(-20.0))), -20.0);
}

#[test]
fn test_collapse_margins_mixed() {
    assert_eq!(f(collapse_margins(n(20.0), n(-10.0))), 10.0);
    assert_eq!(f(collapse_margins(n(-10.0), n(20.0))), 10.0);
}

#[test]
fn test_collapse_margins_zero() {
    assert_eq!(f(collapse_margins(n(0.0), n(20.0))), 20.0);
    assert_eq!(f(collapse_margins(n(20.0), n(0.0))), 20.0);
    assert_eq!(f(collapse_margins(n(0.0), n(-10.0))), -10.0);
    assert_eq!(f(collapse_margins(n(0.0), n(0.0))), 0.0);
}


#[test]
fn test_bfc_default_style() {
    let style = ComputedStyle::new();
    // Default style with no float should not establish BFC
    assert!(!establishes_bfc(&style, Float::Unset));
}

#[test]
fn test_bfc_float_left() {
    let style = ComputedStyle::new();
    assert!(establishes_bfc(&style, Float::Left));
}

#[test]
fn test_bfc_float_right() {
    let style = ComputedStyle::new();
    assert!(establishes_bfc(&style, Float::Right));
}

#[test]
fn test_bfc_absolute_position() {
    let mut style = ComputedStyle::new();
    style.position = StylePosition::Absolute;
    assert!(establishes_bfc(&style, Float::Unset));
}

#[test]
fn test_bfc_fixed_position() {
    let mut style = ComputedStyle::new();
    style.position = StylePosition::Fixed;
    assert!(establishes_bfc(&style, Float::Unset));
}

#[test]
fn test_bfc_relative_position_no_bfc() {
    let mut style = ComputedStyle::new();
    style.position = StylePosition::Relative;
    assert!(!establishes_bfc(&style, Float::Unset));
}

#[test]
fn test_bfc_overflow_hidden() {
    let mut style = ComputedStyle::new();
    style.overflow_x = Overflow::Hidden;
    assert!(establishes_bfc(&style, Float::Unset));
}

#[test]
fn test_bfc_overflow_auto() {
    let mut style = ComputedStyle::new();
    style.overflow_y = Overflow::Auto;
    assert!(establishes_bfc(&style, Float::Unset));
}

#[test]
fn test_bfc_overflow_scroll() {
    let mut style = ComputedStyle::new();
    style.overflow_x = Overflow::Scroll;
    assert!(establishes_bfc(&style, Float::Unset));
}


#[test]
fn test_through_flow_empty_element() {
    let style = ComputedStyle::new();
    // Empty element with no border/padding should be collapsible through
    assert!(is_margin_collapsible_through(
        &style,
        Float::Unset,
        false, // no in-flow content
        n(0.0),   // no border top
        n(0.0),   // no border bottom
        n(0.0),   // no padding top
        n(0.0),   // no padding bottom
        false, // no clearance
    ));
}

#[test]
fn test_through_flow_blocked_by_content() {
    let style = ComputedStyle::new();
    assert!(!is_margin_collapsible_through(
        &style,
        Float::Unset,
        true, // has in-flow content
        n(0.0),
        n(0.0),
        n(0.0),
        n(0.0),
        false,
    ));
}

#[test]
fn test_through_flow_blocked_by_border() {
    let style = ComputedStyle::new();
    assert!(!is_margin_collapsible_through(
        &style,
        Float::Unset,
        false,
        n(1.0), // border top
        n(0.0),
        n(0.0),
        n(0.0),
        false,
    ));
}

#[test]
fn test_through_flow_blocked_by_padding() {
    let style = ComputedStyle::new();
    assert!(!is_margin_collapsible_through(
        &style,
        Float::Unset,
        false,
        n(0.0),
        n(0.0),
        n(10.0), // padding top
        n(0.0),
        false,
    ));
}

#[test]
fn test_through_flow_blocked_by_clearance() {
    let style = ComputedStyle::new();
    assert!(!is_margin_collapsible_through(
        &style,
        Float::Unset,
        false,
        n(0.0),
        n(0.0),
        n(0.0),
        n(0.0),
        true, // has clearance
    ));
}

#[test]
fn test_through_flow_blocked_by_bfc() {
    let mut style = ComputedStyle::new();
    style.overflow_x = Overflow::Hidden; // Creates BFC
    assert!(!is_margin_collapsible_through(
        &style,
        Float::Unset,
        false,
        n(0.0),
        n(0.0),
        n(0.0),
        n(0.0),
        false,
    ));
}

#[test]
fn test_through_flow_blocked_by_float() {
    let style = ComputedStyle::new();
    assert!(!is_margin_collapsible_through(
        &style,
        Float::Left, // Float creates BFC
        false,
        n(0.0),
        n(0.0),
        n(0.0),
        n(0.0),
        false,
    ));
}


#[test]
fn test_collapse_with_first_child_allowed() {
    let style = ComputedStyle::new();
    assert!(should_collapse_with_first_child(&style, Float::Unset, n(0.0), n(0.0)));
}

#[test]
fn test_collapse_with_first_child_blocked_by_border() {
    let style = ComputedStyle::new();
    assert!(!should_collapse_with_first_child(&style, Float::Unset, n(1.0), n(0.0)));
}

#[test]
fn test_collapse_with_first_child_blocked_by_padding() {
    let style = ComputedStyle::new();
    assert!(!should_collapse_with_first_child(&style, Float::Unset, n(0.0), n(10.0)));
}

#[test]
fn test_collapse_with_first_child_blocked_by_bfc() {
    let mut style = ComputedStyle::new();
    style.overflow_y = Overflow::Auto;
    assert!(!should_collapse_with_first_child(&style, Float::Unset, n(0.0), n(0.0)));
}

#[test]
fn test_collapse_with_first_child_blocked_by_float() {
    let style = ComputedStyle::new();
    assert!(!should_collapse_with_first_child(&style, Float::Right, n(0.0), n(0.0)));
}

#[test]
fn test_collapse_with_last_child_allowed() {
    let style = ComputedStyle::new();
    assert!(should_collapse_with_last_child(&style, Float::Unset, n(0.0), n(0.0)));
}

#[test]
fn test_collapse_with_last_child_blocked_by_border() {
    let style = ComputedStyle::new();
    assert!(!should_collapse_with_last_child(&style, Float::Unset, n(1.0), n(0.0)));
}

#[test]
fn test_collapse_with_last_child_blocked_by_padding() {
    let style = ComputedStyle::new();
    assert!(!should_collapse_with_last_child(&style, Float::Unset, n(0.0), n(5.0)));
}

#[test]
fn test_collapse_with_last_child_blocked_by_height() {
    let mut style = ComputedStyle::new();
    style.height = Length::Px(n(100.0));
    assert!(!should_collapse_with_last_child(&style, Float::Unset, n(0.0), n(0.0)));
}

#[test]
fn collapsing_associates_and_keeps_the_extremes() {
    let values = [-30.0, -5.0, 0.0, 5.0, 12.5, 40.0];
    for a in values {
        for b in values {
            for c in values {
                let (a, b, c) = (
                    CollapsibleMargin::from_margin(n(a)),
                    CollapsibleMargin::from_margin(n(b)),
                    CollapsibleMargin::from_margin(n(c)),
                );
                let left = a.collapse_with(b).collapse_with(c);
                let right = a.collapse_with(b.collapse_with(c));
                assert_eq!(f(left.resolve()), f(right.resolve()));
                assert_eq!(f(a.collapse_with(a).resolve()), f(a.resolve()));
            }
        }
    }
}

#[test]
fn a_context_resolves_to_the_widest_of_each_sign() {
    let mut context = MarginCollapseContext::new();
    for margin in [10.0, -4.0, 25.0, -9.0] {
        context.add_margin(n(margin));
    }
    assert_eq!(f(context.resolve()), 16.0);
    context.reset();
    assert_eq!(f(context.resolve()), 0.0);
}

#[test]
fn an_absorbed_context_adjoins_its_pending_margin() {
    let mut outer = MarginCollapseContext::new();
    outer.add_margin(n(8.0));
    let mut inner = MarginCollapseContext::new();
    inner.add_margin(n(20.0));
    inner.add_margin(n(-5.0));
    outer.absorb(&inner);
    assert_eq!(f(outer.resolve()), 15.0);
}

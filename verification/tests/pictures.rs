use rustkit_layout::geometry::{Point, Rect};
use rustkit_layout::images::ObjectFit;
use rustkit_layout::num::Num;
use rustkit_layout::sizing::calculate_intrinsic_size;
use rustkit_layout::style::{BackgroundRepeat, BackgroundSize, Length, TextTransform};
use rustkit_layout::text::apply_text_transform;

fn num(v: f32) -> Num {
    Num::from_bits(v.to_bits())
}

fn centre() -> Point {
    Point { x: num(0.5), y: num(0.5) }
}

fn size(r: Rect) -> (Num, Num) {
    (r.width, r.height)
}

#[test]
fn object_fit_keywords_are_read_in_any_case() {
    assert_eq!(ObjectFit::from_css("  Cover "), ObjectFit::Cover);
    assert_eq!(ObjectFit::from_css("CONTAIN"), ObjectFit::Contain);
    assert_eq!(ObjectFit::from_css("none"), ObjectFit::Natural);
    assert_eq!(ObjectFit::from_css("Scale-Down"), ObjectFit::ScaleDown);
    assert_eq!(ObjectFit::from_css("fill"), ObjectFit::Fill);
    assert_eq!(ObjectFit::from_css("something else"), ObjectFit::Fill);
}

#[test]
fn an_image_is_fitted_into_its_box() {
    let container = Rect::new(num(10.0), num(20.0), num(200.0), num(100.0));
    let fill = ObjectFit::Fill.compute_rect(container, num(50.0), num(50.0), centre());
    assert_eq!(size(fill.dest), (num(200.0), num(100.0)));
    let contain = ObjectFit::Contain.compute_rect(container, num(50.0), num(50.0), centre());
    assert_eq!(size(contain.dest), (num(100.0), num(100.0)));
    assert_eq!((contain.dest.x, contain.dest.y), (num(60.0), num(20.0)));
    let cover = ObjectFit::Cover.compute_rect(container, num(50.0), num(50.0), centre());
    assert_eq!(size(cover.dest), (num(200.0), num(200.0)));
    assert_eq!((cover.dest.x, cover.dest.y), (num(10.0), num(-30.0)));
    let natural = ObjectFit::Natural.compute_rect(container, num(50.0), num(50.0), centre());
    assert_eq!(size(natural.dest), (num(50.0), num(50.0)));
    let down = ObjectFit::ScaleDown.compute_rect(container, num(50.0), num(50.0), centre());
    assert_eq!(size(down.dest), (num(50.0), num(50.0)));
    let shrunk = ObjectFit::ScaleDown.compute_rect(container, num(400.0), num(400.0), centre());
    assert_eq!(size(shrunk.dest), (num(100.0), num(100.0)));
}

#[test]
fn background_sizes_follow_their_keyword() {
    let container = Rect::new(num(0.0), num(0.0), num(200.0), num(100.0));
    let cover = BackgroundSize::from_css("COVER", None, None);
    assert_eq!(cover.compute_size(container, num(50.0), num(50.0)), (num(200.0), num(200.0)));
    let contain = BackgroundSize::from_css(" contain", None, None);
    assert_eq!(contain.compute_size(container, num(50.0), num(50.0)), (num(100.0), num(100.0)));
    let auto = BackgroundSize::from_css("auto", None, None);
    assert_eq!(auto.compute_size(container, num(50.0), num(30.0)), (num(50.0), num(30.0)));
    let wide = BackgroundSize::from_css("80px", Some(Length::Px(num(80.0))), None);
    assert_eq!(wide.compute_size(container, num(50.0), num(25.0)), (num(80.0), num(40.0)));
    assert_eq!(wide.compute_size(container, num(0.0), num(25.0)), (num(0.0), num(0.0)));
}

#[test]
fn the_words_of_a_background_size_are_its_lengths() {
    let (first, second) = BackgroundSize::length_words(&"80px  50%".to_string());
    assert_eq!(first, Some("80px".to_string()));
    assert_eq!(second, Some("50%".to_string()));
    let (first, second) = BackgroundSize::length_words(&"  ".to_string());
    assert_eq!((first, second), (None, None));
}

#[test]
fn background_repeat_names_its_axes() {
    let x = BackgroundRepeat::from_css("Repeat-X");
    assert_eq!(x, BackgroundRepeat::RepeatX);
    assert!(x.repeats_x() && !x.repeats_y());
    let y = BackgroundRepeat::from_css("repeat-y");
    assert!(!y.repeats_x() && y.repeats_y());
    let none = BackgroundRepeat::from_css("no-repeat");
    assert!(!none.repeats_x() && !none.repeats_y());
    assert_eq!(BackgroundRepeat::from_css("space"), BackgroundRepeat::Space);
    assert_eq!(BackgroundRepeat::from_css("round"), BackgroundRepeat::Round);
    assert_eq!(BackgroundRepeat::from_css("?"), BackgroundRepeat::Repeat);
}

#[test]
fn text_transforms_change_the_case() {
    let text = "stra\u{df}e und weg".to_string();
    assert_eq!(apply_text_transform(&text, TextTransform::Unchanged), text);
    assert_eq!(apply_text_transform(&text, TextTransform::Uppercase), "STRASSE UND WEG");
    let loud = "LOUD \u{c4}".to_string();
    assert_eq!(apply_text_transform(&loud, TextTransform::Lowercase), "loud \u{e4}");
    assert_eq!(apply_text_transform(&text, TextTransform::Capitalize), "Stra\u{df}e Und Weg");
}

#[test]
fn a_replaced_element_keeps_its_proportions() {
    let natural = (Some(num(200.0)), Some(num(100.0)));
    assert_eq!(
        calculate_intrinsic_size(natural.0, natural.1, None, None),
        (num(200.0), num(100.0))
    );
    assert_eq!(
        calculate_intrinsic_size(natural.0, natural.1, Some(num(50.0)), None),
        (num(50.0), num(25.0))
    );
    assert_eq!(
        calculate_intrinsic_size(natural.0, natural.1, None, Some(num(50.0))),
        (num(100.0), num(50.0))
    );
    assert_eq!(calculate_intrinsic_size(None, None, None, None), (num(300.0), num(150.0)));
}

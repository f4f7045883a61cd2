use lottie::animated::{Animated, AnimatedExt, KeyFrame};
use lottie::color::{AnimatedColorList, Rgb, Rgba};
use lottie::enums::{
    Composite, FillRule, GradientType, LineCap, LineJoin, MergeMode, PolyStarType,
    ShapeDirection, StrokeDashType, TrimMultipleShape,
};
use lottie::helpers::{
    bool_from_int, default_none, gradient_has_opacity, gradient_stops, int_from_bool, layer_kind,
    u32_from_i64, u32_from_u64, InvalidFlag, LayerKind,
};

#[test]
fn rgba_new_u8_keeps_components() {
    let c = Rgba::new_u8(1, 2, 3, 4);
    assert_eq!((c.r, c.g, c.b, c.a), (1, 2, 3, 4));
    let d = Rgb::new_u8(9, 8, 7);
    assert_eq!((d.r, d.g, d.b), (9, 8, 7));
}

#[test]
fn rgba_default_is_opaque_black() {
    let c = Rgba::default();
    assert_eq!(c, Rgba::new_u8(0, 0, 0, 255));
}

#[test]
fn rgba_from_str_with_hash_and_no_alpha() {
    assert_eq!(Rgba::from_str("#ff0080"), Ok(Rgba::new_u8(255, 0, 128, 255)));
}

#[test]
fn rgba_from_str_without_hash_with_alpha() {
    assert_eq!(Rgba::from_str("0A0b0C7f"), Ok(Rgba::new_u8(10, 11, 12, 127)));
}

#[test]
fn rgba_from_str_ignores_malformed_alpha_and_trailing_text() {
    assert_eq!(Rgba::from_str("#123456zz"), Ok(Rgba::new_u8(0x12, 0x34, 0x56, 255)));
    assert_eq!(Rgba::from_str("#1234567"), Ok(Rgba::new_u8(0x12, 0x34, 0x56, 255)));
    assert_eq!(Rgba::from_str("#12345678ff"), Ok(Rgba::new_u8(0x12, 0x34, 0x56, 0x78)));
}

#[test]
fn animated_color_list_holds_colors() {
    let l = AnimatedColorList { animated: false, colors: vec![Rgba::default()] };
    assert!(!l.animated);
    assert_eq!(l.colors.len(), 1);
}

#[test]
fn enums_read_their_numbers() {
    assert_eq!(PolyStarType::from_repr(1), Some(PolyStarType::Star));
    assert_eq!(PolyStarType::from_repr(2), Some(PolyStarType::Polygon));
    assert_eq!(PolyStarType::from_repr(3), None);
    assert_eq!(FillRule::from_repr(2), Some(FillRule::EvenOdd));
    assert_eq!(FillRule::from_repr(0), None);
    assert_eq!(LineCap::from_repr(3), Some(LineCap::Square));
    assert_eq!(LineJoin::from_repr(1), Some(LineJoin::Miter));
    assert_eq!(GradientType::from_repr(2), Some(GradientType::Radial));
    assert_eq!(Composite::from_repr(1), Some(Composite::Above));
    assert_eq!(TrimMultipleShape::from_repr(2), Some(TrimMultipleShape::Simultaneously));
    assert_eq!(ShapeDirection::from_repr(2), Some(ShapeDirection::CounterClockwise));
    assert_eq!(MergeMode::from_repr(7), MergeMode::Unsupported);
    assert_eq!(MergeMode::Unsupported.repr(), 1);
}

#[test]
fn enums_round_trip_through_their_numbers() {
    for v in 0..=255u8 {
        if let Some(x) = LineCap::from_repr(v) {
            assert_eq!(x.repr(), v);
        }
        if let Some(x) = LineJoin::from_repr(v) {
            assert_eq!(x.repr(), v);
        }
    }
    assert_eq!(LineJoin::from_repr(LineJoin::Bevel.repr()), Some(LineJoin::Bevel));
    assert_eq!(ShapeDirection::default(), ShapeDirection::Clockwise);
}

#[test]
fn stroke_dash_type_tags() {
    assert_eq!(StrokeDashType::from_tag("d"), Some(StrokeDashType::Dash));
    assert_eq!(StrokeDashType::from_tag("g"), Some(StrokeDashType::Gap));
    assert_eq!(StrokeDashType::from_tag("o"), Some(StrokeDashType::Offset));
    assert_eq!(StrokeDashType::from_tag("x"), None);
    assert_eq!(StrokeDashType::from_tag("dd"), None);
    assert_eq!(StrokeDashType::Gap.tag(), 'g');
}

#[test]
fn flags_read_and_write() {
    assert_eq!(bool_from_int(0), Ok(false));
    assert_eq!(bool_from_int(1), Ok(true));
    assert_eq!(bool_from_int(2), Err(InvalidFlag { value: 2 }));
    assert_eq!(int_from_bool(true), 1);
    assert_eq!(int_from_bool(false), 0);
    assert_eq!(bool_from_int(int_from_bool(true)), Ok(true));
}

#[test]
fn whole_numbers_keep_low_bits() {
    assert_eq!(u32_from_i64(5), 5);
    assert_eq!(u32_from_i64(-1), u32::MAX);
    assert_eq!(u32_from_i64(1 << 32), 0);
    assert_eq!(u32_from_u64(u64::MAX), u32::MAX);
    assert_eq!(u32_from_u64(42), 42);
}

#[test]
fn default_none_is_none() {
    let x: Option<u8> = default_none();
    assert!(x.is_none());
}

#[test]
fn gradient_stops_without_opacity() {
    let data = vec![0u32, 1, 2, 3, 10, 11, 12, 13];
    let stops = gradient_stops(&data, 2);
    assert_eq!(stops.len(), 2);
    assert_eq!((stops[1].offset, stops[1].r, stops[1].g, stops[1].b), (10, 11, 12, 13));
    assert_eq!(stops[0].opacity, None);
}

#[test]
fn gradient_stops_with_opacity() {
    let data = vec![0u32, 1, 2, 3, 10, 11, 12, 13, 100, 101, 110, 111];
    let stops = gradient_stops(&data, 2);
    assert_eq!(stops[0].opacity, Some(101));
    assert_eq!(stops[1].opacity, Some(111));
    assert_eq!(stops[1].offset, 10);
}

#[test]
fn gradient_opacity_is_listed_only_when_needed() {
    assert!(!gradient_has_opacity(&vec![255, 255]));
    assert!(gradient_has_opacity(&vec![255, 254]));
    assert!(!gradient_has_opacity(&vec![]));
}

#[test]
fn layer_kinds_by_type_number() {
    assert_eq!(layer_kind(0), LayerKind::PreCompositionRef);
    assert_eq!(layer_kind(1), LayerKind::SolidColor);
    assert_eq!(layer_kind(2), LayerKind::MediaRef);
    assert_eq!(layer_kind(6), LayerKind::MediaRef);
    assert_eq!(layer_kind(3), LayerKind::Empty);
    assert_eq!(layer_kind(4), LayerKind::Shape);
    assert_eq!(layer_kind(5), LayerKind::Text);
    assert_eq!(layer_kind(7), LayerKind::Empty);
}

fn kf(value: i32, start: Option<u32>) -> KeyFrame<i32> {
    KeyFrame { value, start_frame: start }
}

#[test]
fn constant_property_holds_first_value() {
    let a = Animated { animated: false, keyframes: vec![kf(7, None), kf(8, Some(10))] };
    assert_eq!(a.value(0), 7);
    assert_eq!(a.value(100), 7);
    assert_eq!(a.initial_value(), 7);
    assert!(!a.is_animated());
}

#[test]
fn animated_property_steps_between_keyframes() {
    let a = Animated {
        animated: true,
        keyframes: vec![kf(1, Some(10)), kf(2, Some(20)), kf(3, Some(30))],
    };
    assert_eq!(a.value(0), 1);
    assert_eq!(a.value(10), 1);
    assert_eq!(a.value(19), 1);
    assert_eq!(a.value(20), 2);
    assert_eq!(a.value(29), 2);
    assert_eq!(a.value(30), 3);
    assert_eq!(a.value(1000), 3);
}

#[test]
fn keyframe_from_and_alter_value() {
    let k = KeyFrame::from_value(5u8);
    assert_eq!(k.value, 5);
    assert_eq!(k.start_frame, None);
    let k2 = kf(1, Some(4)).alter_value("x");
    assert_eq!(k2.value, "x");
    assert_eq!(k2.start_frame, Some(4));
}

#[test]
fn rgba_parse_hex_refuses_short_or_non_hex() {
    assert_eq!(Rgba::parse_hex("#12"), None);
    assert_eq!(Rgba::parse_hex("zz0000"), None);
    assert_eq!(Rgba::parse_hex(""), None);
    assert_eq!(Rgba::parse_hex("#A0B0C0"), Some(Rgba::new_u8(0xa0, 0xb0, 0xc0, 255)));
}

#[test]
fn try_value_refuses_what_cannot_be_read() {
    let empty: Animated<i32> = Animated { animated: true, keyframes: vec![] };
    assert_eq!(empty.try_value(3), None);
    let missing = Animated { animated: true, keyframes: vec![kf(1, None), kf(2, Some(10))] };
    assert_eq!(missing.try_value(5), None);
    let open_end = Animated { animated: true, keyframes: vec![kf(1, Some(0)), kf(2, None)] };
    assert_eq!(open_end.try_value(5), None);
    let fine = Animated {
        animated: true,
        keyframes: vec![kf(1, Some(0)), kf(2, Some(10)), kf(3, Some(20))],
    };
    assert_eq!(fine.try_value(15), Some(2));
    assert_eq!(fine.try_value(99), Some(3));
    assert_eq!(fine.try_value(15), Some(fine.value(15)));
    let constant = Animated { animated: false, keyframes: vec![kf(4, None)] };
    assert_eq!(constant.try_value(1), Some(4));
}

#[test]
fn leading_hash_is_optional() {
    for s in ["ff0080", "0A0b0C7f", "123", ""] {
        assert_eq!(Rgba::parse_hex(&format!("#{}", s)), Rgba::parse_hex(s));
    }
}

#[test]
fn value_in_window_and_outside() {
    let a = Animated {
        animated: true,
        keyframes: vec![kf(1, Some(5)), kf(2, Some(10)), kf(3, Some(20))],
    };
    assert_eq!(a.value(0), 1);
    assert_eq!(a.value(5), 1);
    assert_eq!(a.value(9), 1);
    assert_eq!(a.value(10), 2);
    assert_eq!(a.value(19), 2);
    assert_eq!(a.value(20), 3);
    assert_eq!(a.value(1000), 3);
}

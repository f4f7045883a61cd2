use lottie::content::{content_plan, ContentPlan, MaskMode, MatteMode};
use lottie::helpers::LayerKind;

#[test]
fn shape_layer_masks_become_mattes() {
    let masks = vec![MaskMode::Add, MaskMode::Subtract, MaskMode::Plain];
    match content_plan(LayerKind::Shape, true, &masks, true) {
        ContentPlan::ShapesWithMasks { mattes } => assert_eq!(
            mattes,
            vec![MatteMode::Alpha, MatteMode::InvertedAlpha, MatteMode::Normal]
        ),
        other => panic!("unexpected plan {:?}", other),
    }
}

#[test]
fn shape_layer_without_mask_ignores_masks() {
    let masks = vec![MaskMode::Darken];
    assert!(matches!(content_plan(LayerKind::Shape, false, &masks, true), ContentPlan::Shapes));
}

#[test]
fn other_kinds_dispatch() {
    let none: Vec<MaskMode> = vec![];
    assert!(matches!(content_plan(LayerKind::Text, false, &none, true), ContentPlan::Text));
    assert!(matches!(content_plan(LayerKind::Text, false, &none, false), ContentPlan::Group));
    assert!(matches!(content_plan(LayerKind::SolidColor, true, &none, true), ContentPlan::SolidColor));
    assert!(matches!(content_plan(LayerKind::PreCompositionRef, false, &none, true), ContentPlan::Group));
    assert!(matches!(content_plan(LayerKind::MediaRef, false, &none, true), ContentPlan::Group));
    assert!(matches!(content_plan(LayerKind::Empty, true, &none, true), ContentPlan::Group));
}

#[test]
fn mask_mode_tags() {
    assert_eq!(MaskMode::from_tag("a"), Some(MaskMode::Add));
    assert_eq!(MaskMode::from_tag("s"), Some(MaskMode::Subtract));
    assert_eq!(MaskMode::from_tag("n"), Some(MaskMode::Plain));
    assert_eq!(MaskMode::from_tag("f"), Some(MaskMode::Difference));
    assert_eq!(MaskMode::from_tag("x"), None);
    assert_eq!(MaskMode::from_tag("aa"), None);
}

#[test]
fn supported_masks() {
    assert!(MaskMode::Add.is_supported());
    assert!(MaskMode::Plain.is_supported());
    assert!(!MaskMode::Intersect.is_supported());
}

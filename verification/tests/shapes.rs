use lottie::enums::TrimMultipleShape;
use lottie::shape::{AnyFill, AnyStroke, Shape, ShapeGroup, ShapeLayer, StyledShape};

fn layer(shape: Shape) -> ShapeLayer {
    ShapeLayer { hidden: false, shape }
}

fn collect(shapes: Vec<ShapeLayer>) -> Vec<StyledShape> {
    let group = ShapeGroup { shapes };
    let mut it = group.styled_shapes();
    let mut out = vec![];
    while let Some(s) = it.next() {
        out.push(s);
        assert!(out.len() < 100);
    }
    out
}

#[test]
fn shape_kinds() {
    assert!(Shape::Rectangle.is_shape());
    assert!(Shape::Path.is_shape());
    assert!(!Shape::Fill.is_shape());
    assert!(Shape::GradientStroke.is_style());
    assert!(!Shape::Transform.is_style());
    assert!(Shape::Group.is_group());
    assert!(!Shape::Ellipse.is_group());
}

#[test]
fn shape_with_fill_and_transform() {
    let out = collect(vec![layer(Shape::Ellipse), layer(Shape::Fill), layer(Shape::Transform)]);
    assert_eq!(out.len(), 1);
    assert_eq!(out[0].shape, 0);
    assert_eq!(out[0].fill, AnyFill::Solid(1));
    assert_eq!(out[0].stroke, None);
    assert_eq!(out[0].transform, Some(2));
    assert!(out[0].trims.is_empty());
}

#[test]
fn shape_without_style_is_passed_over() {
    let out = collect(vec![layer(Shape::Rectangle), layer(Shape::Transform)]);
    assert!(out.is_empty());
}

#[test]
fn group_without_style_is_yielded_with_transparent_fill() {
    let out = collect(vec![layer(Shape::Group), layer(Shape::Transform)]);
    assert_eq!(out.len(), 1);
    assert_eq!(out[0].fill, AnyFill::Transparent);
}

#[test]
fn each_stroke_yields_the_shape_once_more() {
    let out = collect(vec![
        layer(Shape::Path),
        layer(Shape::Stroke),
        layer(Shape::GradientFill),
        layer(Shape::GradientStroke),
        layer(Shape::Transform),
    ]);
    assert_eq!(out.len(), 2);
    assert_eq!(out[0].stroke, Some(AnyStroke::Solid(1)));
    assert_eq!(out[1].stroke, Some(AnyStroke::Gradient(3)));
    assert_eq!(out[0].fill, AnyFill::Gradient(2));
    assert_eq!(out[1].shape, 0);
}

#[test]
fn hidden_styles_do_not_apply() {
    let out = collect(vec![
        layer(Shape::Rectangle),
        ShapeLayer { hidden: true, shape: Shape::Fill },
        layer(Shape::Fill),
    ]);
    assert_eq!(out.len(), 1);
    assert_eq!(out[0].fill, AnyFill::Solid(2));
    assert_eq!(out[0].transform, None);
}

#[test]
fn styles_stop_at_the_next_transform() {
    let out = collect(vec![
        layer(Shape::Rectangle),
        layer(Shape::Transform),
        layer(Shape::Fill),
    ]);
    assert!(out.is_empty());
}

#[test]
fn individual_trims_are_listed_last_first() {
    let out = collect(vec![
        layer(Shape::Trim { multiple_shape: TrimMultipleShape::Individually }),
        layer(Shape::Rectangle),
        layer(Shape::Fill),
        layer(Shape::Trim { multiple_shape: TrimMultipleShape::Simultaneously }),
        layer(Shape::Trim { multiple_shape: TrimMultipleShape::Individually }),
    ]);
    assert_eq!(out.len(), 1);
    assert_eq!(out[0].trims, vec![4, 0]);
}

#[test]
fn shape_count_is_item_count() {
    let group = ShapeGroup { shapes: vec![layer(Shape::Rectangle), layer(Shape::Fill)] };
    assert_eq!(group.styled_shapes().shape_count(), 2);
}

#[test]
fn iteration_stays_finished() {
    let group = ShapeGroup { shapes: vec![layer(Shape::Rectangle), layer(Shape::Fill)] };
    let mut it = group.styled_shapes();
    assert!(it.next().is_some());
    assert!(it.next().is_none());
    assert!(it.next().is_none());
}

#[test]
fn remaining_gives_what_next_gives() {
    let shapes = vec![
        layer(Shape::Path),
        layer(Shape::Stroke),
        layer(Shape::Fill),
        layer(Shape::GradientStroke),
        layer(Shape::Transform),
        layer(Shape::Ellipse),
        layer(Shape::Fill),
    ];
    let stepped = collect(shapes.clone());
    let mut it = ShapeGroup { shapes }.styled_shapes();
    let all = it.remaining();
    assert_eq!(all.len(), stepped.len());
    assert_eq!(all.len(), 3);
    for (a, b) in all.iter().zip(stepped.iter()) {
        assert_eq!((a.shape, a.fill, a.stroke, a.transform), (b.shape, b.fill, b.stroke, b.transform));
        assert_eq!(a.trims, b.trims);
    }
    assert_eq!(all[0].stroke, Some(AnyStroke::Solid(1)));
    assert_eq!(all[1].stroke, Some(AnyStroke::Gradient(3)));
    assert_eq!(all[2].shape, 5);
    assert!(it.next().is_none());
    assert!(it.remaining().is_empty());
}

#[test]
fn grouping_by_shape_strokes_then_fill() {
    let hidden_stroke = ShapeLayer { hidden: true, shape: Shape::Stroke };
    let out = collect(vec![
        layer(Shape::Group),
        layer(Shape::Transform),
        layer(Shape::Rectangle),
        hidden_stroke,
        layer(Shape::GradientFill),
        layer(Shape::Ellipse),
        layer(Shape::Stroke),
    ]);
    // The group yields once with no style; the rectangle's scope runs to the
    // end (no transform follows), so its hidden stroke is passed over and
    // the visible stroke after the ellipse styles it; the ellipse yields with
    // that stroke too.
    assert_eq!(out.len(), 3);
    assert_eq!((out[0].shape, out[0].fill, out[0].stroke), (0, AnyFill::Transparent, None));
    assert_eq!((out[1].shape, out[1].fill, out[1].stroke), (2, AnyFill::Gradient(4), Some(AnyStroke::Solid(6))));
    assert_eq!((out[2].shape, out[2].fill, out[2].stroke), (5, AnyFill::Transparent, Some(AnyStroke::Solid(6))));
}

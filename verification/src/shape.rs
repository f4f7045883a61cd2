//! Grouping the items of a shape layer into styled shapes: each drawable
//! shape (or group) together with the fill, stroke, transform and trims that
//! apply to it.
use vstd::prelude::*;
use crate::enums::TrimMultipleShape;

verus! {

/// The kind of an item of a shape layer, with what the grouping reads of it.
#[derive(Debug, Clone, Copy, PartialEq, Eq, Structural)]
pub enum Shape {
    Rectangle,
    Ellipse,
    PolyStar,
    Path,
    Fill,
    Stroke,
    GradientFill,
    GradientStroke,
    Group,
    Transform,
    Repeater,
    Trim { multiple_shape: TrimMultipleShape },
    RoundedCorners,
    PuckerBloat,
    Twist,
    Merge,
    OffsetPath,
    ZigZag,
}

/// An item of a shape layer.
#[derive(Debug, Clone, Copy, PartialEq, Eq, Structural)]
pub struct ShapeLayer {
    pub hidden: bool,
    pub shape: Shape,
}

/// The items of a shape layer, in document order.
pub struct ShapeGroup {
    pub shapes: Vec<ShapeLayer>,
}

pub open spec fn shape_is_style(s: Shape) -> bool {
    s is Fill || s is Stroke || s is GradientFill || s is GradientStroke
}

pub open spec fn shape_is_shape(s: Shape) -> bool {
    s is Rectangle || s is Ellipse || s is PolyStar || s is Path
}

pub open spec fn shape_is_group(s: Shape) -> bool {
    s is Group
}

/// The drawable shapes are exactly rectangles, ellipses, stars/polygons and
/// paths; the styles exactly solid and gradient fills and strokes; the groups
/// exactly groups. Transforms, modifiers and the rest are none of these.
pub proof fn lemma_shape_kinds(x: Shape)
    ensures
        shape_is_shape(x) <==> (x is Rectangle || x is Ellipse || x is PolyStar || x is Path),
        shape_is_style(x) <==> (x is Fill || x is Stroke || x is GradientFill
            || x is GradientStroke),
        shape_is_group(x) <==> x is Group,
        !(shape_is_shape(x) && shape_is_style(x)),
        !(shape_is_shape(x) && shape_is_group(x)),
        !(shape_is_style(x) && shape_is_group(x)),
{
}

/// A visible fill is a solid or gradient fill that is not hidden; a visible
/// stroke is a solid or gradient stroke that is not hidden.
pub proof fn lemma_visible_styles(l: ShapeLayer)
    ensures
        is_visible_fill(l) <==> (!l.hidden && (l.shape is Fill || l.shape is GradientFill)),
        is_visible_stroke(l) <==> (!l.hidden && (l.shape is Stroke || l.shape is GradientStroke)),
        l.hidden ==> !is_visible_fill(l) && !is_visible_stroke(l),
{
}

impl Shape {
    /// Fills and strokes (solid or gradient) are styles.
    pub fn is_style(&self) -> (b: bool)
        ensures
            b == shape_is_style(*self),
    {
        match self {
            Shape::Fill | Shape::Stroke | Shape::GradientFill | Shape::GradientStroke => true,
            _ => false,
        }
    }

    /// Rectangles, ellipses, poly-stars and paths are drawable shapes.
    pub fn is_shape(&self) -> (b: bool)
        ensures
            b == shape_is_shape(*self),
    {
        match self {
            Shape::Rectangle | Shape::Ellipse | Shape::PolyStar | Shape::Path => true,
            _ => false,
        }
    }

    pub fn is_group(&self) -> (b: bool)
        ensures
            b == shape_is_group(*self),
    {
        match self {
            Shape::Group => true,
            _ => false,
        }
    }
}

/// The fill of a styled shape: the index of a solid or gradient fill item,
/// or a transparent fill where the shape has none.
#[derive(Debug, Clone, Copy, PartialEq, Eq, Structural)]
pub enum AnyFill {
    Solid(usize),
    Gradient(usize),
    Transparent,
}

/// The stroke of a styled shape: the index of a solid or gradient stroke item.
#[derive(Debug, Clone, Copy, PartialEq, Eq, Structural)]
pub enum AnyStroke {
    Solid(usize),
    Gradient(usize),
}

/// A drawable shape (or group) with the styles that apply to it, all given as
/// indices into the items of the layer. `transform` is `None` where the
/// default transform applies; `trims` lists the trims that apply
/// individually, last item first.
#[derive(Debug)]
pub struct StyledShape {
    pub shape: usize,
    pub fill: AnyFill,
    pub stroke: Option<AnyStroke>,
    pub transform: Option<usize>,
    pub trims: Vec<usize>,
}

/// What a step of the grouping picks, without the trims.
pub struct StyledPick {
    pub shape: usize,
    pub fill: AnyFill,
    pub stroke: Option<AnyStroke>,
    pub transform: Option<usize>,
}

/// The styles of a shape are looked for up to the first transform after it.
pub open spec fn style_scope_end(s: Seq<ShapeLayer>, k: int) -> int
    decreases s.len() - k,
{
    if k >= s.len() {
        s.len() as int
    } else if s[k].shape is Transform {
        k
    } else {
        style_scope_end(s, k + 1)
    }
}

/// The transform of a shape: the first transform at or after `k`, unless a
/// drawable shape comes first.
pub open spec fn transform_search(s: Seq<ShapeLayer>, k: int) -> Option<int>
    decreases s.len() - k,
{
    if k < 0 || k >= s.len() {
        None
    } else if s[k].shape is Transform {
        Some(k)
    } else if shape_is_shape(s[k].shape) {
        None
    } else {
        transform_search(s, k + 1)
    }
}

pub open spec fn is_visible_fill(l: ShapeLayer) -> bool {
    !l.hidden && (l.shape is Fill || l.shape is GradientFill)
}

pub open spec fn is_visible_stroke(l: ShapeLayer) -> bool {
    !l.hidden && (l.shape is Stroke || l.shape is GradientStroke)
}

/// The first visible fill in `[k, end)`.
pub open spec fn fill_search(s: Seq<ShapeLayer>, k: int, end: int) -> Option<int>
    decreases end - k,
{
    if k < 0 || k >= end || k >= s.len() {
        None
    } else if is_visible_fill(s[k]) {
        Some(k)
    } else {
        fill_search(s, k + 1, end)
    }
}

/// The first visible stroke in `[k, end)`.
pub open spec fn stroke_search(s: Seq<ShapeLayer>, k: int, end: int) -> Option<int>
    decreases end - k,
{
    if k < 0 || k >= end || k >= s.len() {
        None
    } else if is_visible_stroke(s[k]) {
        Some(k)
    } else {
        stroke_search(s, k + 1, end)
    }
}

pub open spec fn fill_of(s: Seq<ShapeLayer>, f: Option<int>) -> AnyFill {
    match f {
        Some(i) => if s[i].shape is Fill {
            AnyFill::Solid(i as usize)
        } else {
            AnyFill::Gradient(i as usize)
        },
        None => AnyFill::Transparent,
    }
}

pub open spec fn stroke_of(s: Seq<ShapeLayer>, t: Option<int>) -> Option<AnyStroke> {
    match t {
        Some(i) => if s[i].shape is Stroke {
            Some(AnyStroke::Solid(i as usize))
        } else {
            Some(AnyStroke::Gradient(i as usize))
        },
        None => None,
    }
}

pub open spec fn max_int(a: int, b: int) -> int {
    if a >= b {
        a
    } else {
        b
    }
}

/// One step of the grouping, from position `si` with stroke position `sti`:
/// what it yields (if anything) and the positions after it.
///
/// A position that holds neither a drawable shape nor a group is passed over.
/// At a shape, the styles in scope are the items after it up to the next
/// transform. Each visible stroke in scope after the stroke position yields
/// the shape once more with that stroke; once they are used up the shape is
/// passed over. A shape with no stroke in scope yields once, with its first
/// visible fill, unless it has no fill and is not a group.
pub open spec fn grouping_step(s: Seq<ShapeLayer>, si: int, sti: int) -> (
    Option<StyledPick>,
    int,
    int,
) {
    if si < 0 || si >= s.len() {
        (None, si, sti)
    } else if !shape_is_shape(s[si].shape) && !shape_is_group(s[si].shape) {
        (None, si + 1, si + 1)
    } else {
        let end = style_scope_end(s, si + 1);
        let any_stroke = stroke_search(s, si + 1, end);
        let stroke = stroke_search(s, max_int(si, sti) + 1, end);
        let fill = fill_search(s, si + 1, end);
        if any_stroke is Some && stroke is None {
            (None, si + 1, si + 1)
        } else if fill is None && stroke is None && !shape_is_group(s[si].shape) {
            (None, si + 1, si + 1)
        } else {
            let pick = StyledPick {
                shape: si as usize,
                fill: fill_of(s, fill),
                stroke: stroke_of(s, stroke),
                transform: match transform_search(s, si + 1) {
                    Some(t) => Some(t as usize),
                    None => None,
                },
            };
            if any_stroke is None {
                (Some(pick), si + 1, si + 1)
            } else {
                (Some(pick), si, stroke->0)
            }
        }
    }
}

/// The next styled shape from positions `(si, sti)` and the positions after
/// it: steps are taken until one yields or the items run out.
pub open spec fn grouping_next(s: Seq<ShapeLayer>, si: int, sti: int) -> (
    Option<StyledPick>,
    int,
    int,
)
    decreases s.len() - si,
{
    if si < 0 || si >= s.len() {
        (None, si, sti)
    } else {
        let (item, si2, sti2) = grouping_step(s, si, sti);
        if item is Some {
            (item, si2, sti2)
        } else {
            grouping_next(s, si2, sti2)
        }
    }
}

pub open spec fn is_individual_trim(l: ShapeLayer) -> bool {
    l.shape matches Shape::Trim { multiple_shape } && multiple_shape is Individually
}

/// The indices of the trims among the first `n` items that apply
/// individually, last first.
pub open spec fn individual_trims(s: Seq<ShapeLayer>, n: int) -> Seq<usize>
    decreases n,
{
    if n <= 0 || n > s.len() {
        Seq::empty()
    } else if is_individual_trim(s[n - 1]) {
        seq![(n - 1) as usize] + individual_trims(s, n - 1)
    } else {
        individual_trims(s, n - 1)
    }
}

proof fn lemma_scope_end(s: Seq<ShapeLayer>, k: int)
    requires
        0 <= k <= s.len(),
    ensures
        k <= style_scope_end(s, k) <= s.len(),
        forall|j: int| k <= j < style_scope_end(s, k) ==> !(#[trigger] s[j].shape is Transform),
    decreases s.len() - k,
{
    if k < s.len() && !(s[k].shape is Transform) {
        lemma_scope_end(s, k + 1);
    }
}

proof fn lemma_fill_search(s: Seq<ShapeLayer>, k: int, end: int)
    requires
        0 <= k,
    ensures
        fill_search(s, k, end) matches Some(i) ==> k <= i < end && i < s.len() && is_visible_fill(
            s[i],
        ),
    decreases end - k,
{
    if k < end && k < s.len() && !is_visible_fill(s[k]) {
        lemma_fill_search(s, k + 1, end);
    }
}

proof fn lemma_stroke_search(s: Seq<ShapeLayer>, k: int, end: int)
    requires
        0 <= k,
    ensures
        stroke_search(s, k, end) matches Some(i) ==> k <= i < end && i < s.len()
            && is_visible_stroke(s[i]),
    decreases end - k,
{
    if k < end && k < s.len() && !is_visible_stroke(s[k]) {
        lemma_stroke_search(s, k + 1, end);
    }
}

proof fn lemma_transform_search(s: Seq<ShapeLayer>, k: int)
    requires
        0 <= k,
    ensures
        transform_search(s, k) matches Some(t) ==> k <= t < s.len() && s[t].shape is Transform,
    decreases s.len() - k,
{
    if k < s.len() && !(s[k].shape is Transform) && !shape_is_shape(s[k].shape) {
        lemma_transform_search(s, k + 1);
    }
}

/// Every styled shape that the grouping yields from position `si` is a
/// drawable shape or a group at or after `si`; its fill is a visible fill
/// and its stroke a visible stroke, both after it and before the next
/// transform; its transform, where it has one, is a transform after it.
pub proof fn lemma_grouping_picks_in_scope(s: Seq<ShapeLayer>, si: int, sti: int)
    requires
        0 <= si,
        s.len() <= usize::MAX,
    ensures
        grouping_next(s, si, sti).0 matches Some(p) ==> {
            let c = p.shape as int;
            let end = style_scope_end(s, c + 1);
            &&& si <= c < s.len()
            &&& shape_is_shape(s[c].shape) || shape_is_group(s[c].shape)
            &&& p.fill matches AnyFill::Solid(i) ==> c < i < end && !s[i as int].hidden
                && s[i as int].shape is Fill
            &&& p.fill matches AnyFill::Gradient(i) ==> c < i < end && !s[i as int].hidden
                && s[i as int].shape is GradientFill
            &&& p.stroke matches Some(AnyStroke::Solid(i)) ==> c < i < end && !s[i as int].hidden
                && s[i as int].shape is Stroke
            &&& p.stroke matches Some(AnyStroke::Gradient(i)) ==> c < i < end
                && !s[i as int].hidden && s[i as int].shape is GradientStroke
            &&& p.transform matches Some(t) ==> c < t < s.len() && s[t as int].shape is Transform
        },
    decreases s.len() - si,
{
    if si < s.len() {
        let (item, si2, sti2) = grouping_step(s, si, sti);
        if item is Some {
            lemma_scope_end(s, si + 1);
            let end = style_scope_end(s, si + 1);
            lemma_fill_search(s, si + 1, end);
            lemma_stroke_search(s, max_int(si, sti) + 1, end);
            lemma_transform_search(s, si + 1);
        } else {
            lemma_grouping_picks_in_scope(s, si2, sti2);
        }
    }
}

proof fn lemma_scope_end_stops(s: Seq<ShapeLayer>, k: int)
    requires
        0 <= k <= s.len(),
    ensures
        style_scope_end(s, k) < s.len() ==> s[style_scope_end(s, k)].shape is Transform,
    decreases s.len() - k,
{
    if k < s.len() && !(s[k].shape is Transform) {
        lemma_scope_end_stops(s, k + 1);
    }
}

/// The styles of an item are looked for up to the first transform after it:
/// the scope holds no transform and ends at a transform or at the end of the
/// items.
pub proof fn lemma_style_scope(s: Seq<ShapeLayer>, k: int)
    requires
        0 <= k <= s.len(),
    ensures
        k <= style_scope_end(s, k) <= s.len(),
        forall|j: int| k <= j < style_scope_end(s, k) ==> !(#[trigger] s[j].shape is Transform),
        style_scope_end(s, k) == s.len() || s[style_scope_end(s, k)].shape is Transform,
{
    lemma_scope_end(s, k);
    lemma_scope_end_stops(s, k);
}

proof fn lemma_fill_search_first(s: Seq<ShapeLayer>, k: int, end: int)
    requires
        0 <= k,
    ensures
        fill_search(s, k, end) matches Some(i) ==> forall|j: int|
            k <= j < i ==> !is_visible_fill(#[trigger] s[j]),
        fill_search(s, k, end) is None ==> forall|j: int|
            k <= j < end && j < s.len() ==> !is_visible_fill(#[trigger] s[j]),
    decreases end - k,
{
    if k < end && k < s.len() && !is_visible_fill(s[k]) {
        lemma_fill_search_first(s, k + 1, end);
    }
}

proof fn lemma_transform_search_first(s: Seq<ShapeLayer>, k: int)
    requires
        0 <= k,
    ensures
        transform_search(s, k) matches Some(t) ==> forall|j: int|
            k <= j < t ==> !(#[trigger] s[j].shape is Transform) && !shape_is_shape(s[j].shape),
        transform_search(s, k) is None ==> forall|j: int|
            k <= j < s.len() && (#[trigger] s[j].shape is Transform) ==> exists|t: int|
                k <= t < j && shape_is_shape(#[trigger] s[t].shape),
    decreases s.len() - k,
{
    if k < s.len() {
        if !(s[k].shape is Transform) && !shape_is_shape(s[k].shape) {
            lemma_transform_search_first(s, k + 1);
            if transform_search(s, k) is None {
                assert forall|j: int|
                    k <= j < s.len() && (#[trigger] s[j].shape is Transform) implies exists|t: int|
                    k <= t < j && shape_is_shape(#[trigger] s[t].shape) by {
                    if j == k {
                    } else {
                        let t = choose|t: int| k + 1 <= t < j && shape_is_shape(#[trigger] s[t].shape);
                        assert(k <= t < j && shape_is_shape(s[t].shape));
                    }
                }
            }
        } else if shape_is_shape(s[k].shape) {
            assert forall|j: int|
                k <= j < s.len() && (#[trigger] s[j].shape is Transform) implies exists|t: int|
                k <= t < j && shape_is_shape(#[trigger] s[t].shape) by {
                assert(j != k);
                assert(shape_is_shape(s[k].shape));
            }
        }
    }
}

/// The fill of the styled shape of the item at `c` is the first visible
/// fill after it: no visible fill lies between the item and its fill; with
/// the transparent fill, no visible fill follows the item before the next
/// transform.
#[verifier::opaque]
pub open spec fn fill_is_first(s: Seq<ShapeLayer>, c: int, fill: AnyFill) -> bool {
    &&& fill matches AnyFill::Solid(i) ==> forall|j: int|
        c < j < i ==> !is_visible_fill(#[trigger] s[j])
    &&& fill matches AnyFill::Gradient(i) ==> forall|j: int|
        c < j < i ==> !is_visible_fill(#[trigger] s[j])
    &&& fill is Transparent ==> forall|j: int|
        c < j < s.len() && (forall|t: int| c < t <= j ==> !(#[trigger] s[t].shape is Transform))
            ==> !is_visible_fill(#[trigger] s[j])
}

/// The transform of the styled shape of the item at `c` is the first
/// transform after it, with no drawable shape in between; where it has none,
/// every transform after the item comes after another drawable shape.
#[verifier::opaque]
pub open spec fn transform_is_first(s: Seq<ShapeLayer>, c: int, transform: Option<usize>) -> bool {
    &&& transform matches Some(t) ==> forall|j: int|
        c < j < t ==> !(#[trigger] s[j].shape is Transform) && !shape_is_shape(s[j].shape)
    &&& transform is None ==> forall|j: int|
        c < j < s.len() && (#[trigger] s[j].shape is Transform) ==> exists|t: int|
            c < t < j && shape_is_shape(#[trigger] s[t].shape)
}

proof fn lemma_step_fill_first(s: Seq<ShapeLayer>, si: int, sti: int)
    requires
        0 <= si < s.len(),
        s.len() <= usize::MAX,
        grouping_step(s, si, sti).0 is Some,
    ensures
        fill_is_first(s, si, grouping_step(s, si, sti).0->0.fill),
{
    reveal(fill_is_first);
    lemma_scope_end(s, si + 1);
    lemma_scope_end_stops(s, si + 1);
    let end = style_scope_end(s, si + 1);
    lemma_fill_search_first(s, si + 1, end);
    lemma_fill_search(s, si + 1, end);
    let p = grouping_step(s, si, sti).0->0;
    if p.fill is Transparent {
        assert(fill_search(s, si + 1, end) is None);
        assert forall|j: int|
            si < j < s.len() && (forall|t: int| si < t <= j ==> !(#[trigger] s[t].shape is Transform))
                implies !is_visible_fill(#[trigger] s[j]) by {
            if j >= end {
                assert(s[end].shape is Transform);
                assert(si < end <= j);
            }
        }
    }
}

proof fn lemma_step_transform_first(s: Seq<ShapeLayer>, si: int, sti: int)
    requires
        0 <= si < s.len(),
        s.len() <= usize::MAX,
        grouping_step(s, si, sti).0 is Some,
    ensures
        transform_is_first(s, si, grouping_step(s, si, sti).0->0.transform),
{
    reveal(transform_is_first);
    lemma_transform_search_first(s, si + 1);
    lemma_transform_search(s, si + 1);
}

/// Each styled shape that the grouping yields takes the first visible fill
/// and the first transform after its item (see `fill_is_first` and
/// `transform_is_first`).
pub proof fn lemma_grouping_first_fill_and_transform(s: Seq<ShapeLayer>, si: int, sti: int)
    requires
        0 <= si,
        s.len() <= usize::MAX,
    ensures
        grouping_next(s, si, sti).0 matches Some(p) ==> fill_is_first(s, p.shape as int, p.fill)
            && transform_is_first(s, p.shape as int, p.transform),
    decreases s.len() - si,
{
    if si < s.len() {
        let (item, si2, sti2) = grouping_step(s, si, sti);
        if item is Some {
            lemma_step_fill_first(s, si, sti);
            lemma_step_transform_first(s, si, sti);
            assert(item->0.shape as int == si);
        } else {
            lemma_grouping_first_fill_and_transform(s, si2, sti2);
        }
    }
}

/// Each styled shape that the grouping yields moves its position forward:
/// to a later shape, or to a later stroke of the same shape. Once it yields
/// nothing its position is past the last item and it keeps yielding nothing,
/// so a grouping ends after finitely many styled shapes.
pub proof fn lemma_grouping_progress(s: Seq<ShapeLayer>, si: int, sti: int)
    requires
        0 <= si,
    ensures
        ({
            let (item, a, b) = grouping_next(s, si, sti);
            &&& item is Some ==> a <= s.len() && (a > si || (a == si && sti < b < s.len()))
            &&& item is None ==> a >= s.len() && a >= si && grouping_next(s, a, b).0 is None
        }),
    decreases s.len() - si,
{
    if si < s.len() {
        let (item, si2, sti2) = grouping_step(s, si, sti);
        if item is Some {
            lemma_scope_end(s, si + 1);
            let end = style_scope_end(s, si + 1);
            lemma_stroke_search(s, max_int(si, sti) + 1, end);
        } else {
            lemma_grouping_progress(s, si2, sti2);
        }
    }
}

/// The styled shapes that the grouping yields from positions `(si, sti)`
/// until it yields nothing more, in order.
pub open spec fn styled_picks(s: Seq<ShapeLayer>, si: int, sti: int) -> Seq<StyledPick>
    decreases s.len() - si, s.len() - sti,
{
    if si < 0 || si >= s.len() {
        Seq::empty()
    } else {
        let (item, a, b) = grouping_next(s, si, sti);
        match item {
            None => Seq::empty(),
            Some(p) => {
                proof {
                    lemma_grouping_progress(s, si, sti);
                }
                seq![p] + styled_picks(s, a, b)
            },
        }
    }
}

/// What a step of the grouping picked, leaving out the trims.
pub open spec fn pick_of(x: StyledShape) -> StyledPick {
    StyledPick { shape: x.shape, fill: x.fill, stroke: x.stroke, transform: x.transform }
}

/// The visible strokes in `[k, end)`, in order.
pub open spec fn visible_strokes(s: Seq<ShapeLayer>, k: int, end: int) -> Seq<int>
    decreases end - k,
{
    if k < 0 || k >= end || k >= s.len() {
        Seq::empty()
    } else if is_visible_stroke(s[k]) {
        seq![k] + visible_strokes(s, k + 1, end)
    } else {
        visible_strokes(s, k + 1, end)
    }
}

/// The styled shape of the drawable shape or group at `i` with the given
/// stroke: its first visible fill in scope and the transform after it.
pub open spec fn shape_pick(s: Seq<ShapeLayer>, i: int, stroke: Option<int>) -> StyledPick {
    StyledPick {
        shape: i as usize,
        fill: fill_of(s, fill_search(s, i + 1, style_scope_end(s, i + 1))),
        stroke: stroke_of(s, stroke),
        transform: match transform_search(s, i + 1) {
            Some(t) => Some(t as usize),
            None => None,
        },
    }
}

/// The styled shapes of the item at `i` whose stroke comes after position
/// `k`: for a drawable shape or group with visible strokes in scope, one per
/// such stroke, in order; with none, one without a stroke where it has a
/// visible fill or is a group; nothing for any other item.
pub open spec fn shape_picks_after(s: Seq<ShapeLayer>, i: int, k: int) -> Seq<StyledPick> {
    if !(shape_is_shape(s[i].shape) || shape_is_group(s[i].shape)) {
        Seq::empty()
    } else {
        let end = style_scope_end(s, i + 1);
        if visible_strokes(s, i + 1, end).len() > 0 {
            visible_strokes(s, max_int(i, k) + 1, end).map_values(
                |x: int| shape_pick(s, i, Some(x)),
            )
        } else if fill_search(s, i + 1, end) is Some || shape_is_group(s[i].shape) {
            seq![shape_pick(s, i, None)]
        } else {
            Seq::empty()
        }
    }
}

/// All the styled shapes of the item at `i`.
pub open spec fn shape_picks(s: Seq<ShapeLayer>, i: int) -> Seq<StyledPick> {
    shape_picks_after(s, i, i)
}

/// The styled shapes of the items from `i` on, item by item.
pub open spec fn picks_from(s: Seq<ShapeLayer>, i: int) -> Seq<StyledPick>
    decreases s.len() - i,
{
    if i < 0 || i >= s.len() {
        Seq::empty()
    } else {
        shape_picks(s, i) + picks_from(s, i + 1)
    }
}

proof fn lemma_visible_strokes(s: Seq<ShapeLayer>, k: int, end: int)
    requires
        0 <= k,
    ensures
        stroke_search(s, k, end) is None <==> visible_strokes(s, k, end).len() == 0,
        stroke_search(s, k, end) matches Some(x) ==> visible_strokes(s, k, end)[0] == x
            && visible_strokes(s, x + 1, end) == visible_strokes(s, k, end).drop_first(),
    decreases end - k,
{
    if k < end && k < s.len() {
        lemma_visible_strokes(s, k + 1, end);
        if is_visible_stroke(s[k]) {
            assert(visible_strokes(s, k, end).drop_first() =~= visible_strokes(s, k + 1, end));
        }
    }
}

/// The visible strokes in `[k, end)` are listed in increasing order, each
/// once, and are exactly the positions in that range that hold a visible
/// stroke.
pub proof fn lemma_visible_strokes_exact(s: Seq<ShapeLayer>, k: int, end: int)
    requires
        0 <= k,
    ensures
        ({
            let v = visible_strokes(s, k, end);
            &&& forall|i: int, j: int| 0 <= i < j < v.len() ==> #[trigger] v[i] < #[trigger] v[j]
            &&& forall|i: int| 0 <= i < v.len() ==> k <= #[trigger] v[i] < end && v[i] < s.len()
                && is_visible_stroke(s[v[i]])
            &&& forall|x: int|
                k <= x < end && x < s.len() && is_visible_stroke(#[trigger] s[x]) ==> v.contains(x)
        }),
    decreases end - k,
{
    if k < end && k < s.len() {
        lemma_visible_strokes_exact(s, k + 1, end);
        let v = visible_strokes(s, k, end);
        let w = visible_strokes(s, k + 1, end);
        if is_visible_stroke(s[k]) {
            assert(v == seq![k] + w);
            assert forall|i: int| 0 <= i < v.len() implies k <= #[trigger] v[i] < end && v[i]
                < s.len() && is_visible_stroke(s[v[i]]) by {
                if i > 0 {
                    assert(v[i] == w[i - 1]);
                }
            }
            assert forall|i: int, j: int| 0 <= i < j < v.len() implies #[trigger] v[i]
                < #[trigger] v[j] by {
                assert(v[j] == w[j - 1]);
                if i > 0 {
                    assert(v[i] == w[i - 1]);
                }
            }
            assert forall|x: int|
                k <= x < end && x < s.len() && is_visible_stroke(#[trigger] s[x]) implies v.contains(
                x,
            ) by {
                if x == k {
                    assert(v[0] == k);
                } else {
                    assert(w.contains(x));
                    let t = choose|t: int| 0 <= t < w.len() && w[t] == x;
                    assert(v[t + 1] == x);
                }
            }
        }
    }
}

/// The trims of a styled shape are exactly the trims among the items that
/// apply individually, each once, last first.
pub proof fn lemma_individual_trims_exact(s: Seq<ShapeLayer>, n: int)
    requires
        0 <= n <= s.len(),
        s.len() <= usize::MAX,
    ensures
        ({
            let v = individual_trims(s, n);
            &&& forall|i: int, j: int| 0 <= i < j < v.len() ==> #[trigger] v[i] > #[trigger] v[j]
            &&& forall|i: int| 0 <= i < v.len() ==> #[trigger] v[i] < n && s[v[i] as int].shape
                == (Shape::Trim { multiple_shape: TrimMultipleShape::Individually })
            &&& forall|x: int|
                0 <= x < n && (#[trigger] s[x]).shape == (Shape::Trim {
                    multiple_shape: TrimMultipleShape::Individually,
                }) ==> v.contains(x as usize)
        }),
    decreases n,
{
    if n > 0 {
        lemma_individual_trims_exact(s, n - 1);
        let v = individual_trims(s, n);
        let w = individual_trims(s, n - 1);
        if is_individual_trim(s[n - 1]) {
            assert(v == seq![(n - 1) as usize] + w);
            assert forall|i: int| 0 <= i < v.len() implies #[trigger] v[i] < n && s[v[i] as int].shape
                == (Shape::Trim { multiple_shape: TrimMultipleShape::Individually }) by {
                if i > 0 {
                    assert(v[i] == w[i - 1]);
                }
            }
            assert forall|i: int, j: int| 0 <= i < j < v.len() implies #[trigger] v[i]
                > #[trigger] v[j] by {
                assert(v[j] == w[j - 1]);
                if i > 0 {
                    assert(v[i] == w[i - 1]);
                }
            }
            assert forall|x: int|
                0 <= x < n && (#[trigger] s[x]).shape == (Shape::Trim {
                    multiple_shape: TrimMultipleShape::Individually,
                }) implies v.contains(x as usize) by {
                if x == n - 1 {
                    assert(v[0] == x as usize);
                } else {
                    assert(w.contains(x as usize));
                    let t = choose|t: int| 0 <= t < w.len() && w[t] == x as usize;
                    assert(v[t + 1] == x as usize);
                }
            }
        } else {
            assert(v == w);
            assert forall|x: int|
                0 <= x < n && (#[trigger] s[x]).shape == (Shape::Trim {
                    multiple_shape: TrimMultipleShape::Individually,
                }) implies v.contains(x as usize) by {
                assert(x != n - 1);
            }
        }
    }
}

proof fn lemma_styled_picks_unfold(s: Seq<ShapeLayer>, si: int, sti: int)
    requires
        0 <= si < s.len(),
    ensures
        styled_picks(s, si, sti) == ({
            let (item, a, b) = grouping_step(s, si, sti);
            match item {
                Some(p) => seq![p] + styled_picks(s, a, b),
                None => styled_picks(s, a, b),
            }
        }),
{
    let (item, a, b) = grouping_step(s, si, sti);
    if item is None {
        assert(grouping_next(s, si, sti) == grouping_next(s, a, b));
        if a >= s.len() {
            assert(grouping_next(s, a, b).0 is None);
        }
    }
}

proof fn lemma_styled_picks_shape(s: Seq<ShapeLayer>, si: int, sti: int)
    requires
        0 <= si < s.len(),
    ensures
        styled_picks(s, si, sti) == shape_picks_after(s, si, sti) + picks_from(s, si + 1),
    decreases s.len() - si, s.len() - sti,
{
    lemma_styled_picks_unfold(s, si, sti);
    let (item, a, b) = grouping_step(s, si, sti);
    if si + 1 < s.len() {
        lemma_styled_picks_shape(s, si + 1, si + 1);
        assert(styled_picks(s, si + 1, si + 1) == picks_from(s, si + 1));
    } else {
        assert(styled_picks(s, si + 1, si + 1) =~= Seq::<StyledPick>::empty());
        assert(picks_from(s, si + 1) =~= Seq::<StyledPick>::empty());
    }
    if !(shape_is_shape(s[si].shape) || shape_is_group(s[si].shape)) {
        assert(shape_picks_after(s, si, sti) =~= Seq::<StyledPick>::empty());
        assert(picks_from(s, si + 1) =~= Seq::<StyledPick>::empty() + picks_from(s, si + 1));
    } else {
        lemma_scope_end(s, si + 1);
        let end = style_scope_end(s, si + 1);
        lemma_visible_strokes(s, si + 1, end);
        lemma_visible_strokes(s, max_int(si, sti) + 1, end);
        let all = visible_strokes(s, si + 1, end);
        let after = visible_strokes(s, max_int(si, sti) + 1, end);
        let f = |x: int| shape_pick(s, si, Some(x));
        if all.len() > 0 {
            if after.len() == 0 {
                assert(after.map_values(f) =~= Seq::<StyledPick>::empty());
                assert(picks_from(s, si + 1) =~= Seq::<StyledPick>::empty() + picks_from(
                    s,
                    si + 1,
                ));
            } else {
                let x = after[0];
                lemma_stroke_search(s, max_int(si, sti) + 1, end);
                assert(stroke_search(s, max_int(si, sti) + 1, end) == Some(x));
                assert(a == si && b == x);
                assert(item == Some(shape_pick(s, si, Some(x))));
                lemma_styled_picks_shape(s, si, x);
                assert(max_int(si, x) == x);
                assert(visible_strokes(s, x + 1, end) == after.drop_first());
                assert(after.map_values(f) =~= seq![f(x)] + after.drop_first().map_values(f));
                assert(shape_picks_after(s, si, x) == after.drop_first().map_values(f));
                assert(shape_picks_after(s, si, sti) == after.map_values(f));
            }
        } else {
            assert(after.len() == 0) by {
                if after.len() > 0 {
                    let x = after[0];
                    lemma_stroke_search(s, max_int(si, sti) + 1, end);
                    lemma_stroke_search(s, si + 1, end);
                    assert(stroke_search(s, si + 1, end) is None);
                    assert(stroke_search(s, max_int(si, sti) + 1, end) == Some(x));
                    lemma_stroke_search_none(s, si + 1, end, max_int(si, sti) + 1);
                }
            }
            if fill_search(s, si + 1, end) is None && !shape_is_group(s[si].shape) {
                assert(shape_picks_after(s, si, sti) =~= Seq::<StyledPick>::empty());
                assert(picks_from(s, si + 1) =~= Seq::<StyledPick>::empty() + picks_from(
                    s,
                    si + 1,
                ));
            } else {
                assert(item == Some(shape_pick(s, si, None)));
            }
        }
    }
}

proof fn lemma_stroke_search_none(s: Seq<ShapeLayer>, k: int, end: int, k2: int)
    requires
        0 <= k <= k2,
        stroke_search(s, k, end) is None,
    ensures
        stroke_search(s, k2, end) is None,
    decreases k2 - k,
{
    if k < k2 {
        if k < end && k < s.len() {
            lemma_stroke_search_none(s, k + 1, end, k2);
        } else {
            lemma_stroke_search_beyond(s, k2, end);
        }
    }
}

proof fn lemma_stroke_search_beyond(s: Seq<ShapeLayer>, k: int, end: int)
    requires
        k >= end || k >= s.len(),
    ensures
        stroke_search(s, k, end) is None,
{
}

/// The grouping of a shape layer yields, item by item in order, for each
/// drawable shape or group: one styled shape per visible stroke in its
/// scope (the items after it up to the next transform), in order, each with
/// the first visible fill in scope; where it has no visible stroke in
/// scope, one styled shape without a stroke if it has a visible fill in
/// scope or is a group, and nothing otherwise. Other items yield nothing.
pub proof fn lemma_grouping_by_shape(s: Seq<ShapeLayer>)
    ensures
        styled_picks(s, 0, 0) == picks_from(s, 0),
{
    if s.len() > 0 {
        lemma_styled_picks_shape(s, 0, 0);
    } else {
        assert(styled_picks(s, 0, 0) =~= picks_from(s, 0));
    }
}

/// The grouping of a shape layer's items into styled shapes.
pub struct StyledShapeIter {
    shapes: Vec<ShapeLayer>,
    shape_index: usize,
    stroke_index: usize,
}

fn style_scope_end_exec(s: &Vec<ShapeLayer>, k: usize) -> (r: usize)
    requires
        k <= s.len(),
    ensures
        r as int == style_scope_end(s@, k as int),
        k <= r <= s.len(),
{
    let mut j = k;
    while j < s.len()
        invariant
            k <= j <= s.len(),
            style_scope_end(s@, j as int) == style_scope_end(s@, k as int),
        decreases s.len() - j,
    {
        match s[j].shape {
            Shape::Transform => {
                return j;
            },
            _ => {},
        }
        j = j + 1;
    }
    j
}

fn transform_search_exec(s: &Vec<ShapeLayer>, k: usize) -> (r: Option<usize>)
    requires
        k <= s.len(),
    ensures
        match r {
            Some(i) => transform_search(s@, k as int) == Some(i as int),
            None => transform_search(s@, k as int) is None,
        },
{
    let mut j = k;
    while j < s.len()
        invariant
            k <= j <= s.len(),
            transform_search(s@, j as int) == transform_search(s@, k as int),
        decreases s.len() - j,
    {
        if s[j].shape.is_shape() {
            return None;
        }
        match s[j].shape {
            Shape::Transform => {
                return Some(j);
            },
            _ => {},
        }
        j = j + 1;
    }
    None
}

fn fill_search_exec(s: &Vec<ShapeLayer>, k: usize, end: usize) -> (r: Option<usize>)
    requires
        k <= end <= s.len(),
    ensures
        match r {
            Some(i) => fill_search(s@, k as int, end as int) == Some(i as int),
            None => fill_search(s@, k as int, end as int) is None,
        },
        r matches Some(i) ==> k <= i < end,
{
    let mut j = k;
    while j < end
        invariant
            k <= j <= end <= s.len(),
            fill_search(s@, j as int, end as int) == fill_search(s@, k as int, end as int),
        decreases end - j,
    {
        if !s[j].hidden {
            match s[j].shape {
                Shape::Fill | Shape::GradientFill => {
                    return Some(j);
                },
                _ => {},
            }
        }
        j = j + 1;
    }
    None
}

fn stroke_search_exec(s: &Vec<ShapeLayer>, k: usize, end: usize) -> (r: Option<usize>)
    requires
        k <= end <= s.len(),
    ensures
        match r {
            Some(i) => stroke_search(s@, k as int, end as int) == Some(i as int),
            None => stroke_search(s@, k as int, end as int) is None,
        },
        r matches Some(i) ==> k <= i < end,
{
    let mut j = k;
    while j < end
        invariant
            k <= j <= end <= s.len(),
            stroke_search(s@, j as int, end as int) == stroke_search(s@, k as int, end as int),
        decreases end - j,
    {
        if !s[j].hidden {
            match s[j].shape {
                Shape::Stroke | Shape::GradientStroke => {
                    return Some(j);
                },
                _ => {},
            }
        }
        j = j + 1;
    }
    None
}

fn individual_trims_exec(s: &Vec<ShapeLayer>) -> (r: Vec<usize>)
    ensures
        r@ == individual_trims(s@, s.len() as int),
{
    let mut out: Vec<usize> = Vec::new();
    let mut k = s.len();
    while k > 0
        invariant
            k <= s.len(),
            out@ + individual_trims(s@, k as int) == individual_trims(s@, s.len() as int),
        decreases k,
    {
        let l = s[k - 1];
        let ghost before = out@;
        match l.shape {
            Shape::Trim { multiple_shape: TrimMultipleShape::Individually } => {
                out.push(k - 1);
                assert(out@ + individual_trims(s@, k - 1) =~= before + individual_trims(
                    s@,
                    k as int,
                ));
            },
            _ => {
                assert(out@ + individual_trims(s@, k - 1) =~= before + individual_trims(
                    s@,
                    k as int,
                ));
            },
        }
        k = k - 1;
    }
    assert(out@ =~= out@ + individual_trims(s@, 0));
    out
}

impl StyledShapeIter {
    pub closed spec fn items(&self) -> Seq<ShapeLayer> {
        self.shapes@
    }

    pub closed spec fn position(&self) -> (int, int) {
        (self.shape_index as int, self.stroke_index as int)
    }

    /// The number of items being grouped.
    pub fn shape_count(&self) -> (n: usize)
        ensures
            n == self.items().len(),
    {
        self.shapes.len()
    }

    /// The next styled shape, or `None` once the items are used up.
    pub fn next(&mut self) -> (r: Option<StyledShape>)
        ensures
            final(self).items() == old(self).items(),
            ({
                let (item, si, sti) = grouping_next(
                    old(self).items(),
                    old(self).position().0,
                    old(self).position().1,
                );
                &&& final(self).position() == (si, sti)
                &&& match r {
                    None => item is None,
                    Some(x) => item matches Some(p) && x.shape == p.shape && x.fill == p.fill
                        && x.stroke == p.stroke && x.transform == p.transform && x.trims@
                        == individual_trims(old(self).items(), old(self).items().len() as int),
                }
            }),
    {
        let ghost s = self.shapes@;
        let ghost target = grouping_next(s, self.shape_index as int, self.stroke_index as int);
        let len = self.shapes.len();
        while self.shape_index < len
            invariant
                self.shapes@ == s,
                s == old(self).shapes@,
                target == grouping_next(
                    old(self).shapes@,
                    old(self).shape_index as int,
                    old(self).stroke_index as int,
                ),
                len == s.len(),
                grouping_next(s, self.shape_index as int, self.stroke_index as int) == target,
            decreases len - self.shape_index,
        {
            let si = self.shape_index;
            let sti = self.stroke_index;
            let kind = self.shapes[si].shape;
            if !kind.is_shape() && !kind.is_group() {
                self.shape_index = si + 1;
                self.stroke_index = si + 1;
                continue;
            }
            let end = style_scope_end_exec(&self.shapes, si + 1);
            let any_stroke = stroke_search_exec(&self.shapes, si + 1, end);
            let stroke = if sti >= end {
                assert(stroke_search(s, max_int(si as int, sti as int) + 1, end as int) is None);
                None
            } else {
                let lo = if si >= sti {
                    si + 1
                } else {
                    sti + 1
                };
                stroke_search_exec(&self.shapes, lo, end)
            };
            let fill = fill_search_exec(&self.shapes, si + 1, end);
            if any_stroke.is_some() && stroke.is_none() {
                self.shape_index = si + 1;
                self.stroke_index = si + 1;
                continue;
            }
            if fill.is_none() && stroke.is_none() && !kind.is_group() {
                self.shape_index = si + 1;
                self.stroke_index = si + 1;
                continue;
            }
            let fill_choice = match fill {
                Some(i) => match self.shapes[i].shape {
                    Shape::Fill => AnyFill::Solid(i),
                    _ => AnyFill::Gradient(i),
                },
                None => AnyFill::Transparent,
            };
            let stroke_choice = match stroke {
                Some(i) => match self.shapes[i].shape {
                    Shape::Stroke => Some(AnyStroke::Solid(i)),
                    _ => Some(AnyStroke::Gradient(i)),
                },
                None => None,
            };
            let transform = transform_search_exec(&self.shapes, si + 1);
            match any_stroke {
                None => {
                    self.shape_index = si + 1;
                    self.stroke_index = si + 1;
                },
                Some(_) => {
                    self.stroke_index = stroke.unwrap();
                },
            }
            let trims = individual_trims_exec(&self.shapes);
            return Some(
                StyledShape {
                    shape: si,
                    fill: fill_choice,
                    stroke: stroke_choice,
                    transform,
                    trims,
                },
            );
        }
        None
    }
}

impl StyledShapeIter {
    /// All the styled shapes still to come, in order.
    pub fn remaining(&mut self) -> (r: Vec<StyledShape>)
        ensures
            final(self).items() == old(self).items(),
            r@.map_values(|x: StyledShape| pick_of(x)) == styled_picks(
                old(self).items(),
                old(self).position().0,
                old(self).position().1,
            ),
            forall|i: int|
                0 <= i < r@.len() ==> (#[trigger] r@[i]).trims@ == individual_trims(
                    old(self).items(),
                    old(self).items().len() as int,
                ),
    {
        let ghost s = self.shapes@;
        let ghost start = (self.shape_index as int, self.stroke_index as int);
        let mut out: Vec<StyledShape> = Vec::new();
        loop
            invariant
                self.shapes@ == s,
                s == old(self).shapes@,
                start == old(self).position(),
                out@.map_values(|x: StyledShape| pick_of(x)) + styled_picks(
                    s,
                    self.shape_index as int,
                    self.stroke_index as int,
                ) == styled_picks(s, start.0, start.1),
                forall|i: int|
                    0 <= i < out@.len() ==> (#[trigger] out@[i]).trims@ == individual_trims(
                        s,
                        s.len() as int,
                    ),
            decreases s.len() - self.shape_index, s.len() - self.stroke_index,
        {
            let ghost si = self.shape_index as int;
            let ghost sti = self.stroke_index as int;
            let ghost before = out@;
            proof {
                lemma_grouping_progress(s, si, sti);
            }
            match self.next() {
                None => {
                    assert(styled_picks(s, si, sti) =~= Seq::<StyledPick>::empty());
                    assert(out@.map_values(|x: StyledShape| pick_of(x)) =~= styled_picks(
                        s,
                        start.0,
                        start.1,
                    ));
                    return out;
                },
                Some(x) => {
                    let ghost p = pick_of(x);
                    assert(styled_picks(s, si, sti) == seq![p] + styled_picks(
                        s,
                        self.shape_index as int,
                        self.stroke_index as int,
                    ));
                    out.push(x);
                    assert(out@.map_values(|y: StyledShape| pick_of(y)) =~= before.map_values(
                        |y: StyledShape| pick_of(y),
                    ).push(p));
                    assert forall|i: int| 0 <= i < out@.len() implies (#[trigger] out@[i]).trims@
                        == individual_trims(s, s.len() as int) by {
                        if i < before.len() {
                            assert(out@[i] == before[i]);
                        }
                    }
                },
            }
        }
    }
}

impl ShapeGroup {
    /// Starts grouping the items of this layer, from the first item.
    pub fn styled_shapes(&self) -> (it: StyledShapeIter)
        ensures
            it.items() == self.shapes@,
            it.position() == (0int, 0int),
    {
        let mut shapes: Vec<ShapeLayer> = Vec::new();
        let mut i: usize = 0;
        while i < self.shapes.len()
            invariant
                i <= self.shapes.len(),
                shapes@ == self.shapes@.subrange(0, i as int),
            decreases self.shapes.len() - i,
        {
            shapes.push(self.shapes[i]);
            i = i + 1;
            assert(shapes@ =~= self.shapes@.subrange(0, i as int));
        }
        assert(shapes@ =~= self.shapes@);
        StyledShapeIter { shapes, shape_index: 0, stroke_index: 0 }
    }
}

} // verus!

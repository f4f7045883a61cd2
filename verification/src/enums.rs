//! The enumerations of the Lottie schema and the numbers (or letters) that
//! stand for them in a Lottie document.
use vstd::prelude::*;
use vstd::string::StrSliceExecFns;

verus! {
/// The kind of a poly-star shape.
#[derive(Debug, Clone, Copy, PartialEq, Eq, Structural)]
pub enum PolyStarType {
    Star,
    Polygon,
}

/// The variant that the number `v` stands for in a document.
pub open spec fn poly_star_type_of(v: u8) -> Option<PolyStarType> {
    if v == 1 {
        Some(PolyStarType::Star)
    } else if v == 2 {
        Some(PolyStarType::Polygon)
    } else {
        None
    }
}

/// The number that stands for `x` in a document.
pub open spec fn poly_star_type_number(x: PolyStarType) -> u8 {
    match x {
        PolyStarType::Star => 1,
        PolyStarType::Polygon => 2,
    }
}

impl PolyStarType {
    /// Reads the variant from its number; `None` for any other number.
    pub fn from_repr(v: u8) -> (r: Option<PolyStarType>)
        ensures
            r == poly_star_type_of(v),
    {
        if v == 1 {
            Some(PolyStarType::Star)
        } else if v == 2 {
            Some(PolyStarType::Polygon)
        } else {
            None
        }
    }

    /// The number that stands for this variant.
    pub fn repr(&self) -> (r: u8)
        ensures
            r == poly_star_type_number(*self),
    {
        match self {
            PolyStarType::Star => 1,
            PolyStarType::Polygon => 2,
        }
    }
}

/// Writing a `PolyStarType` as its number and reading that number back gives
/// the same variant, and a number that reads as a variant is the one that
/// variant is written as.
pub proof fn lemma_poly_star_type_round_trip(x: PolyStarType, v: u8)
    ensures
        poly_star_type_of(poly_star_type_number(x)) == Some(x),
        poly_star_type_of(v) == Some(x) ==> poly_star_type_number(x) == v,
{
}

/// The rule that decides which points a fill covers.
#[derive(Debug, Clone, Copy, PartialEq, Eq, Structural)]
pub enum FillRule {
    NonZero,
    EvenOdd,
}

/// The variant that the number `v` stands for in a document.
pub open spec fn fill_rule_of(v: u8) -> Option<FillRule> {
    if v == 1 {
        Some(FillRule::NonZero)
    } else if v == 2 {
        Some(FillRule::EvenOdd)
    } else {
        None
    }
}

/// The number that stands for `x` in a document.
pub open spec fn fill_rule_number(x: FillRule) -> u8 {
    match x {
        FillRule::NonZero => 1,
        FillRule::EvenOdd => 2,
    }
}

impl FillRule {
    /// Reads the variant from its number; `None` for any other number.
    pub fn from_repr(v: u8) -> (r: Option<FillRule>)
        ensures
            r == fill_rule_of(v),
    {
        if v == 1 {
            Some(FillRule::NonZero)
        } else if v == 2 {
            Some(FillRule::EvenOdd)
        } else {
            None
        }
    }

    /// The number that stands for this variant.
    pub fn repr(&self) -> (r: u8)
        ensures
            r == fill_rule_number(*self),
    {
        match self {
            FillRule::NonZero => 1,
            FillRule::EvenOdd => 2,
        }
    }
}

/// Writing a `FillRule` as its number and reading that number back gives
/// the same variant, and a number that reads as a variant is the one that
/// variant is written as.
pub proof fn lemma_fill_rule_round_trip(x: FillRule, v: u8)
    ensures
        fill_rule_of(fill_rule_number(x)) == Some(x),
        fill_rule_of(v) == Some(x) ==> fill_rule_number(x) == v,
{
}

/// How the ends of a stroke are drawn.
#[derive(Debug, Clone, Copy, PartialEq, Eq, Structural)]
pub enum LineCap {
    Butt,
    Round,
    Square,
}

/// The variant that the number `v` stands for in a document.
pub open spec fn line_cap_of(v: u8) -> Option<LineCap> {
    if v == 1 {
        Some(LineCap::Butt)
    } else if v == 2 {
        Some(LineCap::Round)
    } else if v == 3 {
        Some(LineCap::Square)
    } else {
        None
    }
}

/// The number that stands for `x` in a document.
pub open spec fn line_cap_number(x: LineCap) -> u8 {
    match x {
        LineCap::Butt => 1,
        LineCap::Round => 2,
        LineCap::Square => 3,
    }
}

impl LineCap {
    /// Reads the variant from its number; `None` for any other number.
    pub fn from_repr(v: u8) -> (r: Option<LineCap>)
        ensures
            r == line_cap_of(v),
    {
        if v == 1 {
            Some(LineCap::Butt)
        } else if v == 2 {
            Some(LineCap::Round)
        } else if v == 3 {
            Some(LineCap::Square)
        } else {
            None
        }
    }

    /// The number that stands for this variant.
    pub fn repr(&self) -> (r: u8)
        ensures
            r == line_cap_number(*self),
    {
        match self {
            LineCap::Butt => 1,
            LineCap::Round => 2,
            LineCap::Square => 3,
        }
    }
}

/// Writing a `LineCap` as its number and reading that number back gives
/// the same variant, and a number that reads as a variant is the one that
/// variant is written as.
pub proof fn lemma_line_cap_round_trip(x: LineCap, v: u8)
    ensures
        line_cap_of(line_cap_number(x)) == Some(x),
        line_cap_of(v) == Some(x) ==> line_cap_number(x) == v,
{
}

/// How the corners of a stroke are drawn.
#[derive(Debug, Clone, Copy, PartialEq, Eq, Structural)]
pub enum LineJoin {
    Miter,
    Round,
    Bevel,
}

/// The variant that the number `v` stands for in a document.
pub open spec fn line_join_of(v: u8) -> Option<LineJoin> {
    if v == 1 {
        Some(LineJoin::Miter)
    } else if v == 2 {
        Some(LineJoin::Round)
    } else if v == 3 {
        Some(LineJoin::Bevel)
    } else {
        None
    }
}

/// The number that stands for `x` in a document.
pub open spec fn line_join_number(x: LineJoin) -> u8 {
    match x {
        LineJoin::Miter => 1,
        LineJoin::Round => 2,
        LineJoin::Bevel => 3,
    }
}

impl LineJoin {
    /// Reads the variant from its number; `None` for any other number.
    pub fn from_repr(v: u8) -> (r: Option<LineJoin>)
        ensures
            r == line_join_of(v),
    {
        if v == 1 {
            Some(LineJoin::Miter)
        } else if v == 2 {
            Some(LineJoin::Round)
        } else if v == 3 {
            Some(LineJoin::Bevel)
        } else {
            None
        }
    }

    /// The number that stands for this variant.
    pub fn repr(&self) -> (r: u8)
        ensures
            r == line_join_number(*self),
    {
        match self {
            LineJoin::Miter => 1,
            LineJoin::Round => 2,
            LineJoin::Bevel => 3,
        }
    }
}

/// Writing a `LineJoin` as its number and reading that number back gives
/// the same variant, and a number that reads as a variant is the one that
/// variant is written as.
pub proof fn lemma_line_join_round_trip(x: LineJoin, v: u8)
    ensures
        line_join_of(line_join_number(x)) == Some(x),
        line_join_of(v) == Some(x) ==> line_join_number(x) == v,
{
}

/// The geometry of a gradient.
#[derive(Debug, Clone, Copy, PartialEq, Eq, Structural)]
pub enum GradientType {
    Linear,
    Radial,
}

/// The variant that the number `v` stands for in a document.
pub open spec fn gradient_type_of(v: u8) -> Option<GradientType> {
    if v == 1 {
        Some(GradientType::Linear)
    } else if v == 2 {
        Some(GradientType::Radial)
    } else {
        None
    }
}

/// The number that stands for `x` in a document.
pub open spec fn gradient_type_number(x: GradientType) -> u8 {
    match x {
        GradientType::Linear => 1,
        GradientType::Radial => 2,
    }
}

impl GradientType {
    /// Reads the variant from its number; `None` for any other number.
    pub fn from_repr(v: u8) -> (r: Option<GradientType>)
        ensures
            r == gradient_type_of(v),
    {
        if v == 1 {
            Some(GradientType::Linear)
        } else if v == 2 {
            Some(GradientType::Radial)
        } else {
            None
        }
    }

    /// The number that stands for this variant.
    pub fn repr(&self) -> (r: u8)
        ensures
            r == gradient_type_number(*self),
    {
        match self {
            GradientType::Linear => 1,
            GradientType::Radial => 2,
        }
    }
}

/// Writing a `GradientType` as its number and reading that number back gives
/// the same variant, and a number that reads as a variant is the one that
/// variant is written as.
pub proof fn lemma_gradient_type_round_trip(x: GradientType, v: u8)
    ensures
        gradient_type_of(gradient_type_number(x)) == Some(x),
        gradient_type_of(v) == Some(x) ==> gradient_type_number(x) == v,
{
}

/// Where a repeater puts its copies.
#[derive(Debug, Clone, Copy, PartialEq, Eq, Structural)]
pub enum Composite {
    Above,
    Below,
}

/// The variant that the number `v` stands for in a document.
pub open spec fn composite_of(v: u8) -> Option<Composite> {
    if v == 1 {
        Some(Composite::Above)
    } else if v == 2 {
        Some(Composite::Below)
    } else {
        None
    }
}

/// The number that stands for `x` in a document.
pub open spec fn composite_number(x: Composite) -> u8 {
    match x {
        Composite::Above => 1,
        Composite::Below => 2,
    }
}

impl Composite {
    /// Reads the variant from its number; `None` for any other number.
    pub fn from_repr(v: u8) -> (r: Option<Composite>)
        ensures
            r == composite_of(v),
    {
        if v == 1 {
            Some(Composite::Above)
        } else if v == 2 {
            Some(Composite::Below)
        } else {
            None
        }
    }

    /// The number that stands for this variant.
    pub fn repr(&self) -> (r: u8)
        ensures
            r == composite_number(*self),
    {
        match self {
            Composite::Above => 1,
            Composite::Below => 2,
        }
    }
}

/// Writing a `Composite` as its number and reading that number back gives
/// the same variant, and a number that reads as a variant is the one that
/// variant is written as.
pub proof fn lemma_composite_round_trip(x: Composite, v: u8)
    ensures
        composite_of(composite_number(x)) == Some(x),
        composite_of(v) == Some(x) ==> composite_number(x) == v,
{
}

/// How a trim applies to several shapes.
#[derive(Debug, Clone, Copy, PartialEq, Eq, Structural)]
pub enum TrimMultipleShape {
    Individually,
    Simultaneously,
}

/// The variant that the number `v` stands for in a document.
pub open spec fn trim_multiple_shape_of(v: u8) -> Option<TrimMultipleShape> {
    if v == 1 {
        Some(TrimMultipleShape::Individually)
    } else if v == 2 {
        Some(TrimMultipleShape::Simultaneously)
    } else {
        None
    }
}

/// The number that stands for `x` in a document.
pub open spec fn trim_multiple_shape_number(x: TrimMultipleShape) -> u8 {
    match x {
        TrimMultipleShape::Individually => 1,
        TrimMultipleShape::Simultaneously => 2,
    }
}

impl TrimMultipleShape {
    /// Reads the variant from its number; `None` for any other number.
    pub fn from_repr(v: u8) -> (r: Option<TrimMultipleShape>)
        ensures
            r == trim_multiple_shape_of(v),
    {
        if v == 1 {
            Some(TrimMultipleShape::Individually)
        } else if v == 2 {
            Some(TrimMultipleShape::Simultaneously)
        } else {
            None
        }
    }

    /// The number that stands for this variant.
    pub fn repr(&self) -> (r: u8)
        ensures
            r == trim_multiple_shape_number(*self),
    {
        match self {
            TrimMultipleShape::Individually => 1,
            TrimMultipleShape::Simultaneously => 2,
        }
    }
}

/// Writing a `TrimMultipleShape` as its number and reading that number back gives
/// the same variant, and a number that reads as a variant is the one that
/// variant is written as.
pub proof fn lemma_trim_multiple_shape_round_trip(x: TrimMultipleShape, v: u8)
    ensures
        trim_multiple_shape_of(trim_multiple_shape_number(x)) == Some(x),
        trim_multiple_shape_of(v) == Some(x) ==> trim_multiple_shape_number(x) == v,
{
}

/// The drawing direction of a shape.
#[derive(Debug, Clone, Copy, PartialEq, Eq, Structural)]
pub enum ShapeDirection {
    Clockwise,
    CounterClockwise,
}

/// The variant that the number `v` stands for in a document.
pub open spec fn shape_direction_of(v: u8) -> Option<ShapeDirection> {
    if v == 1 {
        Some(ShapeDirection::Clockwise)
    } else if v == 2 {
        Some(ShapeDirection::CounterClockwise)
    } else {
        None
    }
}

/// The number that stands for `x` in a document.
pub open spec fn shape_direction_number(x: ShapeDirection) -> u8 {
    match x {
        ShapeDirection::Clockwise => 1,
        ShapeDirection::CounterClockwise => 2,
    }
}

impl ShapeDirection {
    /// Reads the variant from its number; `None` for any other number.
    pub fn from_repr(v: u8) -> (r: Option<ShapeDirection>)
        ensures
            r == shape_direction_of(v),
    {
        if v == 1 {
            Some(ShapeDirection::Clockwise)
        } else if v == 2 {
            Some(ShapeDirection::CounterClockwise)
        } else {
            None
        }
    }

    /// The number that stands for this variant.
    pub fn repr(&self) -> (r: u8)
        ensures
            r == shape_direction_number(*self),
    {
        match self {
            ShapeDirection::Clockwise => 1,
            ShapeDirection::CounterClockwise => 2,
        }
    }
}

/// Writing a `ShapeDirection` as its number and reading that number back gives
/// the same variant, and a number that reads as a variant is the one that
/// variant is written as.
pub proof fn lemma_shape_direction_round_trip(x: ShapeDirection, v: u8)
    ensures
        shape_direction_of(shape_direction_number(x)) == Some(x),
        shape_direction_of(v) == Some(x) ==> shape_direction_number(x) == v,
{
}

impl Default for ShapeDirection {
    /// Shapes are drawn clockwise unless a document says otherwise.
    fn default() -> (d: ShapeDirection)
        ensures
            d == ShapeDirection::Clockwise,
    {
        ShapeDirection::Clockwise
    }
}

/// The kind of a stroke-dash entry.
#[derive(Debug, Clone, Copy, PartialEq, Eq, Structural)]
pub enum StrokeDashType {
    Dash,
    Gap,
    Offset,
}

/// The variant that the one-letter tag `s` stands for: `d`, `g` or `o`.
pub open spec fn stroke_dash_type_of(s: Seq<char>) -> Option<StrokeDashType> {
    if s == seq!['d'] {
        Some(StrokeDashType::Dash)
    } else if s == seq!['g'] {
        Some(StrokeDashType::Gap)
    } else if s == seq!['o'] {
        Some(StrokeDashType::Offset)
    } else {
        None
    }
}

/// The letter that stands for a stroke-dash kind.
pub open spec fn stroke_dash_type_letter(x: StrokeDashType) -> char {
    match x {
        StrokeDashType::Dash => 'd',
        StrokeDashType::Gap => 'g',
        StrokeDashType::Offset => 'o',
    }
}

impl StrokeDashType {
    /// Reads the kind from its tag; `None` for any other string.
    pub fn from_tag(s: &str) -> (r: Option<StrokeDashType>)
        ensures
            r == stroke_dash_type_of(s@),
    {
        if s.unicode_len() != 1 {
            assert(s@ != seq!['d'] && s@ != seq!['g'] && s@ != seq!['o']);
            return None;
        }
        let c = s.get_char(0);
        assert(s@ == seq![c]);
        if c == 'd' {
            Some(StrokeDashType::Dash)
        } else if c == 'g' {
            Some(StrokeDashType::Gap)
        } else if c == 'o' {
            Some(StrokeDashType::Offset)
        } else {
            None
        }
    }

    /// The letter of the tag that stands for this kind.
    pub fn tag(&self) -> (c: char)
        ensures
            c == stroke_dash_type_letter(*self),
    {
        match self {
            StrokeDashType::Dash => 'd',
            StrokeDashType::Gap => 'g',
            StrokeDashType::Offset => 'o',
        }
    }
}

/// Writing a stroke-dash kind as its one-letter tag and reading the tag back
/// gives the same kind.
pub proof fn lemma_stroke_dash_type_round_trip(x: StrokeDashType)
    ensures
        stroke_dash_type_of(seq![stroke_dash_type_letter(x)]) == Some(x),
{
    let s = seq![stroke_dash_type_letter(x)];
    match x {
        StrokeDashType::Dash => assert(s =~= seq!['d']),
        StrokeDashType::Gap => {
            assert(s =~= seq!['g']);
            assert(s != seq!['d']) by { assert(s[0] != seq!['d'][0]); }
        },
        StrokeDashType::Offset => {
            assert(s =~= seq!['o']);
            assert(s != seq!['d']) by { assert(s[0] != seq!['d'][0]); }
            assert(s != seq!['g']) by { assert(s[0] != seq!['g'][0]); }
        },
    }
}

/// The merge mode of a merge shape. Every mode reads as `Unsupported`.
#[derive(Debug, Clone, Copy, PartialEq, Eq, Structural)]
pub enum MergeMode {
    Unsupported,
}

impl MergeMode {
    /// Any number reads as `Unsupported`.
    pub fn from_repr(v: u8) -> (r: MergeMode)
        ensures
            r == MergeMode::Unsupported,
    {
        MergeMode::Unsupported
    }

    /// `Unsupported` is written as 1.
    pub fn repr(&self) -> (r: u8)
        ensures
            r == 1,
    {
        1
    }
}


/// The numbers the Lottie schema gives the variants (star 1, polygon 2); no
/// other number reads as a variant.
pub proof fn lemma_poly_star_type_schema(v: u8)
    ensures
        poly_star_type_number(PolyStarType::Star) == 1,
        poly_star_type_number(PolyStarType::Polygon) == 2,
        poly_star_type_of(v) is Some <==> (v == 1 || v == 2),
{
}

/// The numbers the Lottie schema gives the fill rules (non-zero 1, even-odd
/// 2); no other number reads as a fill rule.
pub proof fn lemma_fill_rule_schema(v: u8)
    ensures
        fill_rule_number(FillRule::NonZero) == 1,
        fill_rule_number(FillRule::EvenOdd) == 2,
        fill_rule_of(v) is Some <==> (v == 1 || v == 2),
{
}

/// The numbers the Lottie schema gives the line caps (butt 1, round 2,
/// square 3); no other number reads as a line cap.
pub proof fn lemma_line_cap_schema(v: u8)
    ensures
        line_cap_number(LineCap::Butt) == 1,
        line_cap_number(LineCap::Round) == 2,
        line_cap_number(LineCap::Square) == 3,
        line_cap_of(v) is Some <==> (1 <= v <= 3),
{
}

/// The numbers the Lottie schema gives the line joins (miter 1, round 2,
/// bevel 3); no other number reads as a line join.
pub proof fn lemma_line_join_schema(v: u8)
    ensures
        line_join_number(LineJoin::Miter) == 1,
        line_join_number(LineJoin::Round) == 2,
        line_join_number(LineJoin::Bevel) == 3,
        line_join_of(v) is Some <==> (1 <= v <= 3),
{
}

/// The numbers the Lottie schema gives the gradient types (linear 1,
/// radial 2); no other number reads as a gradient type.
pub proof fn lemma_gradient_type_schema(v: u8)
    ensures
        gradient_type_number(GradientType::Linear) == 1,
        gradient_type_number(GradientType::Radial) == 2,
        gradient_type_of(v) is Some <==> (v == 1 || v == 2),
{
}

/// The numbers the Lottie schema gives the repeater composites (above 1,
/// below 2); no other number reads as a composite.
pub proof fn lemma_composite_schema(v: u8)
    ensures
        composite_number(Composite::Above) == 1,
        composite_number(Composite::Below) == 2,
        composite_of(v) is Some <==> (v == 1 || v == 2),
{
}

/// The numbers the Lottie schema gives the trim modes (individually 1,
/// simultaneously 2); no other number reads as a trim mode.
pub proof fn lemma_trim_multiple_shape_schema(v: u8)
    ensures
        trim_multiple_shape_number(TrimMultipleShape::Individually) == 1,
        trim_multiple_shape_number(TrimMultipleShape::Simultaneously) == 2,
        trim_multiple_shape_of(v) is Some <==> (v == 1 || v == 2),
{
}

/// The numbers the Lottie schema gives the shape directions (clockwise 1,
/// counter-clockwise 2); no other number reads as a direction.
pub proof fn lemma_shape_direction_schema(v: u8)
    ensures
        shape_direction_number(ShapeDirection::Clockwise) == 1,
        shape_direction_number(ShapeDirection::CounterClockwise) == 2,
        shape_direction_of(v) is Some <==> (v == 1 || v == 2),
{
}

/// The letters the Lottie schema gives the stroke-dash kinds (dash `d`,
/// gap `g`, offset `o`); a tag that is not one letter reads as nothing.
pub proof fn lemma_stroke_dash_type_schema(s: Seq<char>)
    ensures
        stroke_dash_type_letter(StrokeDashType::Dash) == 'd',
        stroke_dash_type_letter(StrokeDashType::Gap) == 'g',
        stroke_dash_type_letter(StrokeDashType::Offset) == 'o',
        s.len() != 1 ==> stroke_dash_type_of(s) is None,
{
    if s.len() != 1 {
        assert(s.len() != seq!['d'].len());
    }
}

} // verus!

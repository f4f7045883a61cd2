//! How a Lottie document writes flags, whole numbers and gradient stops, and
//! which kind of layer content its type number announces.
use vstd::prelude::*;

verus! {

/// A flag written as a number other than 0 or 1.
#[derive(Debug, Clone, Copy, PartialEq, Eq, Structural)]
pub struct InvalidFlag {
    pub value: u8,
}

/// The flag that the number `v` stands for: 0 is false, 1 is true, any
/// other number is refused.
pub open spec fn flag_of(v: u8) -> Result<bool, InvalidFlag> {
    if v == 0 {
        Ok(false)
    } else if v == 1 {
        Ok(true)
    } else {
        Err(InvalidFlag { value: v })
    }
}

/// The number a flag is written as.
pub open spec fn flag_number(b: bool) -> u8 {
    if b {
        1
    } else {
        0
    }
}

/// Reads a flag written as 0 or 1.
pub fn bool_from_int(v: u8) -> (r: Result<bool, InvalidFlag>)
    ensures
        r == flag_of(v),
{
    if v == 0 {
        Ok(false)
    } else if v == 1 {
        Ok(true)
    } else {
        Err(InvalidFlag { value: v })
    }
}

/// Writes a flag as 1 (true) or 0 (false).
pub fn int_from_bool(b: bool) -> (v: u8)
    ensures
        v == flag_number(b),
{
    if b {
        1
    } else {
        0
    }
}

/// A flag written as a number reads back as the same flag, and a number
/// that reads as a flag is the number that flag is written as.
pub proof fn lemma_flag_round_trip(b: bool, v: u8)
    ensures
        flag_of(flag_number(b)) == Ok::<bool, InvalidFlag>(b),
        flag_of(v) == Ok::<bool, InvalidFlag>(b) ==> flag_number(b) == v,
{
}

/// A whole frame number written as a signed integer, as a frame counter
/// takes it: the low 32 bits of its two's-complement form.
pub fn u32_from_i64(v: i64) -> (r: u32)
    ensures
        r as int == (v as int) % 0x1_0000_0000,
{
    let r = v as u32;
    assert(r as int == (v as int) % 0x1_0000_0000) by (bit_vector)
        requires
            r == v as u32,
    ;
    r
}

/// A whole frame number written as an unsigned integer, as a frame counter
/// takes it: its low 32 bits.
pub fn u32_from_u64(v: u64) -> (r: u32)
    ensures
        r as int == v as int % 0x1_0000_0000,
{
    let r = v as u32;
    assert(r as int == v as int % 0x1_0000_0000) by (bit_vector)
        requires
            r == v as u32,
    ;
    r
}

/// The default of an optional field that a document may leave out.
pub fn default_none<T>() -> (r: Option<T>)
    ensures
        r is None,
{
    None
}

/// A gradient stop read from the flat list of numbers a document writes:
/// its offset and color components, and its opacity where the list gives
/// one (`None`: fully opaque).
#[derive(Debug)]
pub struct GradientStop<T> {
    pub offset: T,
    pub r: T,
    pub g: T,
    pub b: T,
    pub opacity: Option<T>,
}

/// The flat list can be read with `color_count` stops: four numbers per stop
/// (offset, red, green, blue), optionally followed by two per stop (offset,
/// opacity); the arithmetic on the count stays within `usize`.
pub open spec fn gradient_list_readable(len: int, color_count: int) -> bool {
    &&& color_count * 4 <= usize::MAX
    &&& len == color_count * 4 || (color_count * 6 <= usize::MAX && len == color_count * 6)
}

/// The stops of a flat gradient list with `n` stops.
pub open spec fn gradient_stops_of<T>(d: Seq<T>, n: int) -> Seq<GradientStop<T>> {
    Seq::new(
        n as nat,
        |i: int|
            GradientStop {
                offset: d[4 * i],
                r: d[4 * i + 1],
                g: d[4 * i + 2],
                b: d[4 * i + 3],
                opacity: if d.len() == n * 4 {
                    None
                } else {
                    Some(d[4 * n + 2 * i + 1])
                },
            },
    )
}

/// Reads the stops of a gradient from the flat list of numbers a document
/// writes for it.
pub fn gradient_stops<T: Copy>(data: &Vec<T>, color_count: usize) -> (r: Vec<GradientStop<T>>)
    requires
        gradient_list_readable(data@.len() as int, color_count as int),
    ensures
        r@ == gradient_stops_of(data@, color_count as int),
{
    let n = color_count;
    let with_opacity = data.len() != n * 4;
    let mut out: Vec<GradientStop<T>> = Vec::new();
    let mut i: usize = 0;
    while i < n
        invariant
            i <= n,
            n == color_count,
            gradient_list_readable(data@.len() as int, n as int),
            with_opacity == (data@.len() != n * 4),
            out@ == gradient_stops_of(data@, n as int).subrange(0, i as int),
        decreases n - i,
    {
        let opacity = if with_opacity {
            Some(data[4 * n + 2 * i + 1])
        } else {
            None
        };
        out.push(
            GradientStop {
                offset: data[4 * i],
                r: data[4 * i + 1],
                g: data[4 * i + 2],
                b: data[4 * i + 3],
                opacity,
            },
        );
        i = i + 1;
        assert(out@ =~= gradient_stops_of(data@, n as int).subrange(0, i as int));
    }
    assert(out@ =~= gradient_stops_of(data@, n as int));
    out
}

/// Whether any stop of a gradient is not fully opaque: only then does a
/// document list the stops' opacities.
pub fn gradient_has_opacity(alphas: &Vec<u8>) -> (b: bool)
    ensures
        b == exists|i: int| 0 <= i < alphas@.len() && alphas@[i] < 255,
{
    let mut i: usize = 0;
    while i < alphas.len()
        invariant
            i <= alphas.len(),
            forall|j: int| 0 <= j < i ==> alphas@[j] >= 255,
        decreases alphas.len() - i,
    {
        if alphas[i] < 255 {
            return true;
        }
        i = i + 1;
    }
    false
}

/// The kind of content that a layer's type number (`ty`) announces.
#[derive(Debug, Clone, Copy, PartialEq, Eq, Structural)]
pub enum LayerKind {
    PreCompositionRef,
    SolidColor,
    MediaRef,
    Empty,
    Shape,
    Text,
}

/// 0: a precomposition reference; 1: a solid color; 2 and 6: media; 4:
/// shapes; 5: text; any other number: empty content.
pub open spec fn layer_kind_of(ty: u64) -> LayerKind {
    if ty == 0 {
        LayerKind::PreCompositionRef
    } else if ty == 1 {
        LayerKind::SolidColor
    } else if ty == 2 || ty == 6 {
        LayerKind::MediaRef
    } else if ty == 4 {
        LayerKind::Shape
    } else if ty == 5 {
        LayerKind::Text
    } else {
        LayerKind::Empty
    }
}

/// The kind of content a layer with type number `ty` holds.
pub fn layer_kind(ty: u64) -> (k: LayerKind)
    ensures
        k == layer_kind_of(ty),
{
    match ty {
        0 => LayerKind::PreCompositionRef,
        1 => LayerKind::SolidColor,
        2 | 6 => LayerKind::MediaRef,
        4 => LayerKind::Shape,
        5 => LayerKind::Text,
        _ => LayerKind::Empty,
    }
}


/// True is written 1 and false 0; every other number is refused as itself.
pub proof fn lemma_flag_schema(v: u8)
    ensures
        flag_number(true) == 1,
        flag_number(false) == 0,
        flag_of(v) is Ok <==> v <= 1,
        flag_of(v) matches Err(e) ==> e.value == v,
{
}

/// The type numbers of the Lottie schema: 0 a precomposition, 1 a solid
/// color, 2 and 6 media, 4 shapes, 5 text; 3 and any other number is an
/// empty layer.
pub proof fn lemma_layer_kind_schema(ty: u64)
    ensures
        layer_kind_of(0) == LayerKind::PreCompositionRef,
        layer_kind_of(1) == LayerKind::SolidColor,
        layer_kind_of(2) == LayerKind::MediaRef,
        layer_kind_of(6) == LayerKind::MediaRef,
        layer_kind_of(3) == LayerKind::Empty,
        layer_kind_of(4) == LayerKind::Shape,
        layer_kind_of(5) == LayerKind::Text,
        ty > 6 ==> layer_kind_of(ty) == LayerKind::Empty,
{
}

} // verus!

//! What a staged layer renders: which content each kind of layer gets, and
//! how the masks of a shape layer turn into mattes.
use vstd::prelude::*;
use vstd::string::StrSliceExecFns;
use crate::helpers::LayerKind;

verus! {

/// How a mask combines with what is below it (the `mode` of a mask).
#[derive(Debug, Clone, Copy, PartialEq, Eq, Structural)]
pub enum MaskMode {
    /// No combining (`n` in a document).
    Plain,
    Add,
    Subtract,
    Intersect,
    Lighten,
    Darken,
    Difference,
}

/// The mask mode a one-letter tag stands for: `n`, `a`, `s`, `i`, `l`, `d`
/// or `f`.
pub open spec fn mask_mode_of_letter(c: char) -> Option<MaskMode> {
    if c == 'n' {
        Some(MaskMode::Plain)
    } else if c == 'a' {
        Some(MaskMode::Add)
    } else if c == 's' {
        Some(MaskMode::Subtract)
    } else if c == 'i' {
        Some(MaskMode::Intersect)
    } else if c == 'l' {
        Some(MaskMode::Lighten)
    } else if c == 'd' {
        Some(MaskMode::Darken)
    } else if c == 'f' {
        Some(MaskMode::Difference)
    } else {
        None
    }
}

/// The mask mode a tag stands for; `None` for anything but one of the
/// letters.
pub open spec fn mask_mode_of(s: Seq<char>) -> Option<MaskMode> {
    if s.len() == 1 {
        mask_mode_of_letter(s[0])
    } else {
        None
    }
}

impl MaskMode {
    /// Whether a shape layer can render a mask of this mode.
    pub fn is_supported(&self) -> (b: bool)
        ensures
            b == mask_supported(*self),
    {
        match self {
            MaskMode::Add | MaskMode::Subtract | MaskMode::Plain => true,
            _ => false,
        }
    }

    /// Reads a mask mode from its tag.
    pub fn from_tag(s: &str) -> (r: Option<MaskMode>)
        ensures
            r == mask_mode_of(s@),
    {
        if s.unicode_len() != 1 {
            return None;
        }
        let c = s.get_char(0);
        if c == 'n' {
            Some(MaskMode::Plain)
        } else if c == 'a' {
            Some(MaskMode::Add)
        } else if c == 's' {
            Some(MaskMode::Subtract)
        } else if c == 'i' {
            Some(MaskMode::Intersect)
        } else if c == 'l' {
            Some(MaskMode::Lighten)
        } else if c == 'd' {
            Some(MaskMode::Darken)
        } else if c == 'f' {
            Some(MaskMode::Difference)
        } else {
            None
        }
    }
}

/// How a matte lets the content it masks through.
#[derive(Debug, Clone, Copy, PartialEq, Eq, Structural)]
pub enum MatteMode {
    Normal,
    Alpha,
    InvertedAlpha,
    Luma,
    InvertedLuma,
}

/// What a layer renders.
#[derive(Debug)]
pub enum ContentPlan {
    /// Its shapes.
    Shapes,
    /// Its shapes, under one mask per matte, in the order of its masks.
    ShapesWithMasks { mattes: Vec<MatteMode> },
    /// An empty group that only carries the transform.
    Group,
    /// Its text, keyframe by keyframe.
    Text,
    /// A rectangle of its size filled with its color.
    SolidColor,
}

/// The masks that a shape layer can render: added, subtracted, or plain.
pub open spec fn mask_supported(m: MaskMode) -> bool {
    m is Add || m is Subtract || m is Plain
}

/// The matte a mask renders as: an added mask lets through by alpha, a
/// subtracted one by inverted alpha, a plain one as is.
pub open spec fn matte_of(m: MaskMode) -> MatteMode {
    match m {
        MaskMode::Add => MatteMode::Alpha,
        MaskMode::Subtract => MatteMode::InvertedAlpha,
        _ => MatteMode::Normal,
    }
}

/// The matte a supported mask renders as.
pub fn matte_for_mask(m: MaskMode) -> (r: MatteMode)
    requires
        mask_supported(m),
    ensures
        r == matte_of(m),
{
    match m {
        MaskMode::Add => MatteMode::Alpha,
        MaskMode::Subtract => MatteMode::InvertedAlpha,
        _ => MatteMode::Normal,
    }
}

/// What a layer of kind `kind` renders: a shape layer its shapes, masked by
/// its masks where it has any; a text layer its text where the text could be
/// laid out (`text_ok`), else an empty group; a solid color layer a filled
/// rectangle; any other layer an empty group.
pub fn content_plan(kind: LayerKind, has_mask: bool, masks: &Vec<MaskMode>, text_ok: bool) -> (r:
    ContentPlan)
    requires
        kind is Shape && has_mask ==> forall|i: int|
            0 <= i < masks@.len() ==> mask_supported(#[trigger] masks@[i]),
    ensures
        match kind {
            LayerKind::Shape => if has_mask {
                r matches ContentPlan::ShapesWithMasks { mattes } && mattes@ == masks@.map_values(
                    |m: MaskMode| matte_of(m),
                )
            } else {
                r is Shapes
            },
            LayerKind::Text => if text_ok {
                r is Text
            } else {
                r is Group
            },
            LayerKind::SolidColor => r is SolidColor,
            _ => r is Group,
        },
{
    match kind {
        LayerKind::Shape => {
            if !has_mask {
                return ContentPlan::Shapes;
            }
            let mut mattes: Vec<MatteMode> = Vec::new();
            let mut i: usize = 0;
            while i < masks.len()
                invariant
                    i <= masks@.len(),
                    forall|j: int| 0 <= j < masks@.len() ==> mask_supported(#[trigger] masks@[j]),
                    mattes@ == masks@.subrange(0, i as int).map_values(|m: MaskMode| matte_of(m)),
                decreases masks@.len() - i,
            {
                mattes.push(matte_for_mask(masks[i]));
                i = i + 1;
                assert(mattes@ =~= masks@.subrange(0, i as int).map_values(
                    |m: MaskMode| matte_of(m),
                ));
            }
            assert(masks@.subrange(0, masks@.len() as int) =~= masks@);
            ContentPlan::ShapesWithMasks { mattes }
        },
        LayerKind::Text => if text_ok {
            ContentPlan::Text
        } else {
            ContentPlan::Group
        },
        LayerKind::SolidColor => ContentPlan::SolidColor,
        _ => ContentPlan::Group,
    }
}


/// The letters the Lottie schema gives the mask modes; a tag that is not one
/// letter reads as nothing. Added masks render as alpha mattes, subtracted
/// ones as inverted alpha mattes, plain ones as normal.
pub proof fn lemma_mask_mode_schema(s: Seq<char>)
    ensures
        mask_mode_of_letter('n') == Some(MaskMode::Plain),
        mask_mode_of_letter('a') == Some(MaskMode::Add),
        mask_mode_of_letter('s') == Some(MaskMode::Subtract),
        mask_mode_of_letter('i') == Some(MaskMode::Intersect),
        mask_mode_of_letter('l') == Some(MaskMode::Lighten),
        mask_mode_of_letter('d') == Some(MaskMode::Darken),
        mask_mode_of_letter('f') == Some(MaskMode::Difference),
        s.len() != 1 ==> mask_mode_of(s) is None,
        matte_of(MaskMode::Add) == MatteMode::Alpha,
        matte_of(MaskMode::Subtract) == MatteMode::InvertedAlpha,
        matte_of(MaskMode::Plain) == MatteMode::Normal,
        mask_supported(MaskMode::Add) && mask_supported(MaskMode::Subtract) && mask_supported(
            MaskMode::Plain,
        ),
        !mask_supported(MaskMode::Intersect) && !mask_supported(MaskMode::Lighten)
            && !mask_supported(MaskMode::Darken) && !mask_supported(MaskMode::Difference),
{
}

} // verus!

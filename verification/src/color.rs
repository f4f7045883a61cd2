//! Colors of the Lottie model and their textual (hexadecimal) form.
use vstd::prelude::*;
use vstd::string::StrSliceExecFns;

verus! {

/// An 8-bit RGBA color.
#[derive(Debug, Clone, Copy, PartialEq, Eq, Structural)]
pub struct Rgba {
    pub r: u8,
    pub g: u8,
    pub b: u8,
    pub a: u8,
}

/// An 8-bit RGB color.
#[derive(Debug, Clone, Copy, PartialEq, Eq, Structural)]
pub struct Rgb {
    pub r: u8,
    pub g: u8,
    pub b: u8,
}

/// The colors of a gradient, possibly animated.
#[derive(Debug)]
pub struct AnimatedColorList {
    pub animated: bool,
    pub colors: Vec<Rgba>,
}

/// The value of one hexadecimal digit, as `read_color` reads it.
pub open spec fn hex_digit(c: char) -> Option<u8> {
    let v = c as u32;
    if 48 <= v <= 57 {
        Some((v - 48) as u8)
    } else if 97 <= v <= 102 {
        Some((v - 87) as u8)
    } else if 65 <= v <= 70 {
        Some((v - 55) as u8)
    } else {
        None
    }
}

/// The byte written by the two hexadecimal digits at positions `i` and `i + 1`.
pub open spec fn hex_pair_at(s: Seq<char>, i: int) -> Option<u8> {
    if 0 <= i && i + 1 < s.len() && hex_digit(s[i]) is Some && hex_digit(s[i + 1]) is Some {
        Some((hex_digit(s[i])->0 * 16 + hex_digit(s[i + 1])->0) as u8)
    } else {
        None
    }
}

/// Three hexadecimal pairs (red, green, blue), then an optional fourth pair
/// (alpha); characters after them are ignored.
pub open spec fn read_rgb_maybe_a(s: Seq<char>) -> Option<(u8, u8, u8, Option<u8>)> {
    match (hex_pair_at(s, 0), hex_pair_at(s, 2), hex_pair_at(s, 4)) {
        (Some(r), Some(g), Some(b)) => Some((r, g, b, hex_pair_at(s, 6))),
        _ => None,
    }
}

/// The characters of a color string without its leading `#`, if it has one.
pub open spec fn strip_hash(s: Seq<char>) -> Seq<char> {
    if s.len() > 0 && s[0] == '#' {
        s.subrange(1, s.len() as int)
    } else {
        s
    }
}

/// The color that a string such as `#ff8800` or `ff880080` denotes; the alpha
/// is 255 where the string gives none.
pub open spec fn parse_rgba(s: Seq<char>) -> Option<Rgba> {
    match read_rgb_maybe_a(strip_hash(s)) {
        Some((r, g, b, a)) => Some(
            Rgba {
                r,
                g,
                b,
                a: match a {
                    Some(x) => x,
                    None => 255,
                },
            },
        ),
        None => None,
    }
}

/// A color string reads the same with or without a leading `#`.
pub proof fn lemma_leading_hash_optional(s: Seq<char>)
    requires
        s.len() == 0 || s[0] != '#',
    ensures
        parse_rgba(seq!['#'] + s) == parse_rgba(s),
{
    let t = seq!['#'] + s;
    assert(t[0] == '#');
    assert(t.subrange(1, t.len() as int) =~= s);
}

/// `read_color::rgb_maybe_a` on the characters of `s`: it reads red, green
/// and blue as three pairs of hexadecimal digits (failing where one is
/// missing or not a digit) and then an alpha pair, which is `None` where it
/// is missing or malformed.
#[verifier::external_body]
fn rgb_maybe_a(s: &str) -> (r: Option<(u8, u8, u8, Option<u8>)>)
    ensures
        r == read_rgb_maybe_a(s@),
{
    match read_color::rgb_maybe_a(&mut s.chars()) {
        Some((rgb, a)) => Some((rgb[0], rgb[1], rgb[2], a)),
        None => None,
    }
}

impl Rgba {
    pub fn new_u8(r: u8, g: u8, b: u8, a: u8) -> (c: Rgba)
        ensures
            c == (Rgba { r, g, b, a }),
    {
        Rgba { r, g, b, a }
    }

    /// Reads a hexadecimal color, with or without a leading `#`; `None`
    /// where the string does not start with three hexadecimal pairs.
    pub fn parse_hex(s: &str) -> (res: Option<Rgba>)
        ensures
            res == parse_rgba(s@),
    {
        let n = s.unicode_len();
        let body = if n > 0 && s.get_char(0) == '#' {
            s.substring_char(1, n)
        } else {
            s
        };
        assert(body@ == strip_hash(s@));
        match rgb_maybe_a(body) {
            Some((r, g, b, a)) => {
                let alpha = match a {
                    Some(x) => x,
                    None => 255,
                };
                Some(Rgba::new_u8(r, g, b, alpha))
            },
            None => None,
        }
    }

    /// Parses a hexadecimal color, with or without a leading `#`.
    pub fn from_str(s: &str) -> (res: Result<Rgba, ()>)
        requires
            parse_rgba(s@) is Some,
        ensures
            res == Ok::<Rgba, ()>(parse_rgba(s@)->0),
    {
        match Rgba::parse_hex(s) {
            Some(c) => Ok(c),
            None => Err(()),
        }
    }
}

impl Default for Rgba {
    /// Opaque black.
    fn default() -> (c: Rgba)
        ensures
            c == (Rgba { r: 0, g: 0, b: 0, a: 255 }),
    {
        Rgba { r: 0, g: 0, b: 0, a: 255 }
    }
}

impl Rgb {
    pub fn new_u8(r: u8, g: u8, b: u8) -> (c: Rgb)
        ensures
            c == (Rgb { r, g, b }),
    {
        Rgb { r, g, b }
    }
}

} // verus!

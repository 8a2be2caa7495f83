use vstd::prelude::*;
use crate::frame::Color;
use vstd::string::StringSliceAdditionalSpecFns;

verus! {

/// Why a colour value was rejected.
#[derive(Clone, Copy, Debug, PartialEq, Eq, Structural)]
pub enum ColorError {
    /// The value is empty.
    Missing,
    /// The value does not start with `#`.
    NoHash,
    /// A channel is not a hexadecimal number.
    BadDigit,
    /// The digits are neither `rgb`, `rrggbb` nor `rrggbbaa`.
    BadLength,
}

/// The bytes of `s` with leading and trailing whitespace removed, as
/// `str::trim` gives them.
pub uninterp spec fn trimmed_bytes(s: Seq<u8>) -> Seq<u8>;

/// Relies on `str::trim`: the result is `s` without leading and trailing
/// whitespace, and depends on `s` alone.
#[verifier::external_body]
fn trim(s: &str) -> (r: &str)
    ensures
        r.spec_bytes() == trimmed_bytes(s.spec_bytes()),
{
    s.trim()
}

/// The value of a hexadecimal digit.
pub open spec fn hex_digit(b: u8) -> Option<u8> {
    if 0x30 <= b <= 0x39 {
        Some((b - 0x30) as u8)
    } else if 0x61 <= b <= 0x66 {
        Some((b - 0x61 + 10) as u8)
    } else if 0x41 <= b <= 0x46 {
        Some((b - 0x41 + 10) as u8)
    } else {
        None
    }
}

/// A byte read from two characters in base 16, as `u8::from_str_radix`
/// reads them: two digits, or a plus sign and one digit.
pub open spec fn hex_pair(a: u8, b: u8) -> Option<u8> {
    if a == 0x2b {
        hex_digit(b)
    } else {
        match (hex_digit(a), hex_digit(b)) {
            (Some(x), Some(y)) => Some((16 * x + y) as u8),
            _ => None,
        }
    }
}

/// The colour that an already trimmed value stands for: `#rgb` (each digit
/// doubled), `#rrggbb` or `#rrggbbaa`; alpha is opaque unless given.
pub open spec fn color_of(v: Seq<u8>) -> Result<Color, ColorError> {
    if v.len() == 0 {
        Err(ColorError::Missing)
    } else if v[0] != 0x23 {
        Err(ColorError::NoHash)
    } else if v.len() == 4 {
        match (hex_pair(v[1], v[1]), hex_pair(v[2], v[2]), hex_pair(v[3], v[3])) {
            (Some(r), Some(g), Some(b)) => Ok(Color { r, g, b, a: 255 }),
            _ => Err(ColorError::BadDigit),
        }
    } else if v.len() == 7 {
        match (hex_pair(v[1], v[2]), hex_pair(v[3], v[4]), hex_pair(v[5], v[6])) {
            (Some(r), Some(g), Some(b)) => Ok(Color { r, g, b, a: 255 }),
            _ => Err(ColorError::BadDigit),
        }
    } else if v.len() == 9 {
        match (hex_pair(v[1], v[2]), hex_pair(v[3], v[4]), hex_pair(v[5], v[6]), hex_pair(v[7], v[8])) {
            (Some(r), Some(g), Some(b), Some(a)) => Ok(Color { r, g, b, a }),
            _ => Err(ColorError::BadDigit),
        }
    } else {
        Err(ColorError::BadLength)
    }
}

fn digit(b: u8) -> (r: Option<u8>)
    ensures
        r == hex_digit(b),
{
    if 0x30 <= b && b <= 0x39 {
        Some(b - 0x30)
    } else if 0x61 <= b && b <= 0x66 {
        Some(b - 0x61 + 10)
    } else if 0x41 <= b && b <= 0x46 {
        Some(b - 0x41 + 10)
    } else {
        None
    }
}

fn pair(a: u8, b: u8) -> (r: Option<u8>)
    ensures
        r == hex_pair(a, b),
{
    if a == 0x2b {
        return digit(b);
    }
    match (digit(a), digit(b)) {
        (Some(x), Some(y)) => Some(16 * x + y),
        _ => None,
    }
}

/// Reads a colour from a value that has already been trimmed.
pub fn parse_color(v: &[u8]) -> (r: Result<Color, ColorError>)
    ensures
        r == color_of(v@),
{
    let n = v.len();
    if n == 0 {
        return Err(ColorError::Missing);
    }
    if v[0] != 0x23 {
        return Err(ColorError::NoHash);
    }
    if n == 4 {
        match (pair(v[1], v[1]), pair(v[2], v[2]), pair(v[3], v[3])) {
            (Some(r), Some(g), Some(b)) => Ok(Color::new(r, g, b, 255)),
            _ => Err(ColorError::BadDigit),
        }
    } else if n == 7 {
        match (pair(v[1], v[2]), pair(v[3], v[4]), pair(v[5], v[6])) {
            (Some(r), Some(g), Some(b)) => Ok(Color::new(r, g, b, 255)),
            _ => Err(ColorError::BadDigit),
        }
    } else if n == 9 {
        match (pair(v[1], v[2]), pair(v[3], v[4]), pair(v[5], v[6]), pair(v[7], v[8])) {
            (Some(r), Some(g), Some(b), Some(a)) => Ok(Color::new(r, g, b, a)),
            _ => Err(ColorError::BadDigit),
        }
    } else {
        Err(ColorError::BadLength)
    }
}

/// Reads a colour option's value: surrounding whitespace is ignored.
pub fn str_to_color(value: &str) -> (r: Result<Color, ColorError>)
    ensures
        r == color_of(trimmed_bytes(value.spec_bytes())),
{
    let v = trim(value);
    parse_color(v.as_bytes())
}

} // verus!

use vstd::prelude::*;
use crate::text::chars_of;

verus! {

/// A colour code.
#[derive(Debug, Clone, Copy, PartialEq, Eq, Structural)]
pub struct Color {
    pub red: u8,
    pub green: u8,
    pub blue: u8,
}

/// A pair of characters that is not a hexadecimal byte.
#[derive(Debug, Clone, Copy, PartialEq, Eq, Structural)]
pub struct BadHex;

/// The value of a hexadecimal digit, either case.
pub open spec fn hex_value(c: char) -> Option<int> {
    if '0' <= c && c <= '9' {
        Some(c as int - '0' as int)
    } else if 'a' <= c && c <= 'f' {
        Some(c as int - 'a' as int + 10)
    } else if 'A' <= c && c <= 'F' {
        Some(c as int - 'A' as int + 10)
    } else {
        None
    }
}

/// The byte that two characters write in base 16, as `u8::from_str_radix` reads
/// them: two digits, or `+` and one digit.
pub open spec fn hex_byte(a: char, b: char) -> Option<int> {
    if a == '+' {
        hex_value(b)
    } else {
        match (hex_value(a), hex_value(b)) {
            (Some(x), Some(y)) => Some(16 * x + y),
            _ => None,
        }
    }
}

fn hex_digit(c: char) -> (r: Option<u8>)
    ensures
        match hex_value(c) {
            Some(v) => r == Some(v as u8),
            None => r is None,
        },
        r matches Some(v) ==> v < 16,
{
    if '0' <= c && c <= '9' {
        Some(((c as u32) - ('0' as u32)) as u8)
    } else if 'a' <= c && c <= 'f' {
        Some(((c as u32) - ('a' as u32) + 10) as u8)
    } else if 'A' <= c && c <= 'F' {
        Some(((c as u32) - ('A' as u32) + 10) as u8)
    } else {
        None
    }
}

fn parse_byte(a: char, b: char) -> (r: Result<u8, BadHex>)
    ensures
        match hex_byte(a, b) {
            Some(v) => r == Ok::<u8, BadHex>(v as u8),
            None => r is Err,
        },
{
    if a == '+' {
        return match hex_digit(b) {
            Some(v) => Ok(v),
            None => Err(BadHex),
        };
    }
    match (hex_digit(a), hex_digit(b)) {
        (Some(x), Some(y)) => Ok(16 * x + y),
        _ => Err(BadHex),
    }
}

impl Color {
    pub fn new(red: u8, green: u8, blue: u8) -> (r: Color)
        ensures
            r == (Color { red, green, blue }),
    {
        Color { red, green, blue }
    }

    /// Reads `#rrggbb`: the character at 0 is skipped, then three bytes in base 16.
    pub fn parse_hex(s: &str) -> (r: Result<Color, BadHex>)
        requires
            s@.len() >= 7,
            forall|i: int| 0 <= i < 7 ==> (s@[i] as u32) < 128,
        ensures
            match (hex_byte(s@[1], s@[2]), hex_byte(s@[3], s@[4]), hex_byte(s@[5], s@[6])) {
                (Some(rd), Some(gr), Some(bl)) => r == Ok::<Color, BadHex>(
                    Color { red: rd as u8, green: gr as u8, blue: bl as u8 },
                ),
                _ => r is Err,
            },
    {
        let c = chars_of(s);
        let red = parse_byte(c[1], c[2])?;
        let green = parse_byte(c[3], c[4])?;
        let blue = parse_byte(c[5], c[6])?;
        Ok(Color::new(red, green, blue))
    }
}

} // verus!

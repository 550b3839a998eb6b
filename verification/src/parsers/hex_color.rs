//! The parts of a hex colour, `#rrggbb` or `#rrggbbaa`.

pub mod channels;
pub mod color;
pub mod no_suffix;
pub mod prefix;

use vstd::prelude::*;

verus! {

/// Why a string is no hex colour.
#[derive(Debug, PartialEq)]
pub enum HexColorParseError {
    EmptyString,
    InvalidPrefix(char),
    InvalidSuffix(String),
    Empty(HexColorChanel),
    Incomplete(HexColorChanel),
    FaultyBase(HexColorChanel),
}

/// The channels of a colour.
#[derive(Debug, PartialEq, Eq, Structural, Clone, Copy)]
pub enum HexColorChanel {
    Red,
    Green,
    Blue,
    Alpha,
}

impl HexColorChanel {
    /// The channel's name with its place in the colour string.
    pub fn name(&self) -> (name: &'static str)
        ensures
            name@ == match self {
                HexColorChanel::Red => "Chanel Red (rr)"@,
                HexColorChanel::Green => "Chanel Green (gg)"@,
                HexColorChanel::Blue => "Chanel Blue (bb)"@,
                HexColorChanel::Alpha => "Chanel Alpha (aa)"@,
            },
    {
        match self {
            HexColorChanel::Red => "Chanel Red (rr)",
            HexColorChanel::Green => "Chanel Green (gg)",
            HexColorChanel::Blue => "Chanel Blue (bb)",
            HexColorChanel::Alpha => "Chanel Alpha (aa)",
        }
    }
}

/// The value of a hexadecimal digit.
pub open spec fn hex_value(c: char) -> Option<int> {
    let code = c as u32 as int;
    if 48 <= code <= 57 {
        Some(code - 48)
    } else if 97 <= code <= 102 {
        Some(code - 87)
    } else if 65 <= code <= 70 {
        Some(code - 55)
    } else {
        None
    }
}

/// The number that two characters spell to base 16: two digits, or a plus
/// sign and one digit.
pub open spec fn hex_pair_value(c0: char, c1: char) -> Option<int> {
    match (hex_value(c0), hex_value(c1)) {
        (Some(high), Some(low)) => Some(16 * high + low),
        (None, Some(low)) => if c0 == '+' {
            Some(low)
        } else {
            None
        },
        _ => None,
    }
}

/// The value of a hexadecimal digit.
pub fn hex_digit(c: char) -> (value: Option<u8>)
    ensures
        match value {
            Some(v) => hex_value(c) == Some(v as int),
            None => hex_value(c).is_none(),
        },
{
    let code = c as u32;
    if 48 <= code && code <= 57 {
        Some((code - 48) as u8)
    } else if 97 <= code && code <= 102 {
        Some((code - 87) as u8)
    } else if 65 <= code && code <= 70 {
        Some((code - 55) as u8)
    } else {
        None
    }
}

/// The number that two characters spell to base 16.
pub fn hex_pair(c0: char, c1: char) -> (value: Option<u8>)
    ensures
        match value {
            Some(v) => hex_pair_value(c0, c1) == Some(v as int),
            None => hex_pair_value(c0, c1).is_none(),
        },
{
    let low = match hex_digit(c1) {
        Some(low) => low,
        None => {
            return None;
        },
    };
    match hex_digit(c0) {
        Some(high) => Some(16 * high + low),
        None => {
            if c0 == '+' {
                Some(low)
            } else {
                None
            }
        },
    }
}

} // verus!

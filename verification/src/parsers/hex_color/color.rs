//! A whole hex colour, part by part.

use super::channels::{channel_value, Alpha, Blue, Green, Red};
use super::no_suffix::NoSuffix;
use super::prefix::HexPrefix;
use super::{HexColorChanel, HexColorParseError};
use crate::parsers::string_parser::StringParser;
use vstd::prelude::*;
use vstd::std_specs::iter::IteratorSpec;

verus! {

broadcast use vstd::string::axiom_spec_iter;

/// The parts of a hex colour in their order.
pub type HexColor = (HexPrefix, Red, Green, Blue, Alpha, NoSuffix);

/// Why a string is no hex colour, with the suffix as plain characters.
pub enum HexColorFault {
    EmptyString,
    InvalidPrefix(char),
    InvalidSuffix(Seq<char>),
    Empty(HexColorChanel),
    Incomplete(HexColorChanel),
    FaultyBase(HexColorChanel),
}

impl View for HexColorParseError {
    type V = HexColorFault;

    open spec fn view(&self) -> HexColorFault {
        match self {
            HexColorParseError::EmptyString => HexColorFault::EmptyString,
            HexColorParseError::InvalidPrefix(c) => HexColorFault::InvalidPrefix(*c),
            HexColorParseError::InvalidSuffix(suffix) => HexColorFault::InvalidSuffix(suffix@),
            HexColorParseError::Empty(chanel) => HexColorFault::Empty(*chanel),
            HexColorParseError::Incomplete(chanel) => HexColorFault::Incomplete(*chanel),
            HexColorParseError::FaultyBase(chanel) => HexColorFault::FaultyBase(*chanel),
        }
    }
}

/// The number of `chanel` at the front of `source` and the rest of the
/// source, or why there is none.
pub open spec fn channel_of(source: Seq<char>, chanel: HexColorChanel) -> Result<
    (u8, Seq<char>),
    HexColorFault,
> {
    match channel_value(source, chanel) {
        Ok(found) => Ok(found),
        Err(error) => Err(error@),
    }
}

/// Alpha and what follows it: full where the source has ended, else two
/// digits with nothing after them.
pub open spec fn alpha_of(source: Seq<char>) -> Result<u8, HexColorFault> {
    if source.len() == 0 {
        Ok(u8::MAX)
    } else {
        match channel_of(source, HexColorChanel::Alpha) {
            Err(fault) => Err(fault),
            Ok((alpha, rest)) => if rest.len() == 0 {
                Ok(alpha)
            } else {
                Err(HexColorFault::InvalidSuffix(rest))
            },
        }
    }
}

/// Red, green, blue and alpha of the hex colour that `source` spells,
/// `#rrggbb` or `#rrggbbaa`, or the first fault in it.
pub open spec fn color_value(source: Seq<char>) -> Result<(u8, u8, u8, u8), HexColorFault> {
    if source.len() == 0 {
        Err(HexColorFault::EmptyString)
    } else if source[0] != '#' {
        Err(HexColorFault::InvalidPrefix(source[0]))
    } else {
        match channel_of(source.drop_first(), HexColorChanel::Red) {
            Err(fault) => Err(fault),
            Ok((red, after_red)) => match channel_of(after_red, HexColorChanel::Green) {
                Err(fault) => Err(fault),
                Ok((green, after_green)) => match channel_of(after_green, HexColorChanel::Blue) {
                    Err(fault) => Err(fault),
                    Ok((blue, after_blue)) => match alpha_of(after_blue) {
                        Err(fault) => Err(fault),
                        Ok(alpha) => Ok((red, green, blue, alpha)),
                    },
                },
            },
        }
    }
}

/// Parses a hex colour, `#rrggbb` or `#rrggbbaa`.
pub fn parse_color(color: &str) -> (result: Result<HexColor, HexColorParseError>)
    ensures
        match result {
            Ok(parts) => color_value(color@) == Ok::<(u8, u8, u8, u8), HexColorFault>(
                (parts.1.0, parts.2.0, parts.3.0, parts.4.0),
            ),
            Err(error) => color_value(color@) == Err::<(u8, u8, u8, u8), HexColorFault>(error@),
        },
{
    let parser = StringParser::new(color.chars());
    let parser = match parser.parse::<HexPrefix>() {
        Ok(parser) => parser,
        Err(error) => {
            return Err(error);
        },
    };
    let parser = match parser.parse::<Red>() {
        Ok(parser) => parser,
        Err(error) => {
            return Err(error);
        },
    };
    let parser = match parser.parse::<Green>() {
        Ok(parser) => parser,
        Err(error) => {
            return Err(error);
        },
    };
    let parser = match parser.parse::<Blue>() {
        Ok(parser) => parser,
        Err(error) => {
            return Err(error);
        },
    };
    let parser = match parser.parse::<Alpha>() {
        Ok(parser) => parser,
        Err(error) => {
            return Err(error);
        },
    };
    let parser = match parser.parse::<NoSuffix>() {
        Ok(parser) => parser,
        Err(error) => {
            return Err(error);
        },
    };
    Ok(parser.unpack())
}

} // verus!

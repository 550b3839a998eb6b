//! The channels of a hex colour: two hexadecimal digits each.

use super::prefix::HexPrefix;
use super::{hex_pair, hex_pair_value, HexColorChanel, HexColorParseError};
use crate::parsers::parsed::Parsed;
use crate::traits::parse::Parse;
use std::str::Chars;
use vstd::prelude::*;
use vstd::std_specs::iter::IteratorSpec;

verus! {

broadcast use vstd::string::next_postcondition;

/// What the first two characters of `source` give for `chanel`: their
/// number to base 16 and the rest of the source, or why there is none.
pub open spec fn channel_value(source: Seq<char>, chanel: HexColorChanel) -> Result<
    (u8, Seq<char>),
    HexColorParseError,
> {
    if source.len() == 0 {
        Err(HexColorParseError::Empty(chanel))
    } else if source.len() == 1 {
        Err(HexColorParseError::Incomplete(chanel))
    } else {
        match hex_pair_value(source[0], source[1]) {
            Some(value) => Ok((value as u8, source.skip(2))),
            None => Err(HexColorParseError::FaultyBase(chanel)),
        }
    }
}

/// Takes the two digits of `chanel` off the front of the source.
pub fn parse_channel(value: Chars<'_>, chanel: HexColorChanel) -> (result: Result<
    (u8, Chars<'_>),
    HexColorParseError,
>)
    ensures
        match result {
            Ok((number, rest)) => channel_value(value.remaining(), chanel) == Ok::<
                (u8, Seq<char>),
                HexColorParseError,
            >((number, rest.remaining())),
            Err(error) => channel_value(value.remaining(), chanel) == Err::<
                (u8, Seq<char>),
                HexColorParseError,
            >(error),
        },
{
    let mut value = value;
    let ghost source = value.remaining();
    let c0 = match value.next() {
        Some(c0) => c0,
        None => {
            return Err(HexColorParseError::Empty(chanel));
        },
    };
    let c1 = match value.next() {
        Some(c1) => c1,
        None => {
            return Err(HexColorParseError::Incomplete(chanel));
        },
    };
    assert(value.remaining() =~= source.skip(2));
    match hex_pair(c0, c1) {
        Some(c) => Ok((c, value)),
        None => Err(HexColorParseError::FaultyBase(chanel)),
    }
}

/// The red of a colour.
pub struct Red(pub u8);

impl Parse for Red {
    type TRequired = Parsed<(HexPrefix,)>;

    type TSource<'a> = Chars<'a>;

    type TError = HexColorParseError;

    /// Takes the two digits of red off the front of the source.
    fn parse(value: Self::TSource<'_>) -> (result: Result<(Self, Self::TSource<'_>), Self::TError>)
        ensures
            match result {
                Ok((red, rest)) => channel_value(value.remaining(), HexColorChanel::Red) == Ok::<
                    (u8, Seq<char>),
                    HexColorParseError,
                >((red.0, rest.remaining())),
                Err(error) => channel_value(value.remaining(), HexColorChanel::Red) == Err::<
                    (u8, Seq<char>),
                    HexColorParseError,
                >(error),
            },
    {
        match parse_channel(value, HexColorChanel::Red) {
            Ok((c, rest)) => Ok((Red(c), rest)),
            Err(error) => Err(error),
        }
    }
}

/// The green of a colour.
pub struct Green(pub u8);

impl Parse for Green {
    type TRequired = Parsed<(HexPrefix, Red)>;

    type TSource<'a> = Chars<'a>;

    type TError = HexColorParseError;

    /// Takes the two digits of green off the front of the source.
    fn parse(value: Self::TSource<'_>) -> (result: Result<(Self, Self::TSource<'_>), Self::TError>)
        ensures
            match result {
                Ok((green, rest)) => channel_value(value.remaining(), HexColorChanel::Green)
                    == Ok::<(u8, Seq<char>), HexColorParseError>((green.0, rest.remaining())),
                Err(error) => channel_value(value.remaining(), HexColorChanel::Green) == Err::<
                    (u8, Seq<char>),
                    HexColorParseError,
                >(error),
            },
    {
        match parse_channel(value, HexColorChanel::Green) {
            Ok((c, rest)) => Ok((Green(c), rest)),
            Err(error) => Err(error),
        }
    }
}

/// The blue of a colour.
pub struct Blue(pub u8);

impl Parse for Blue {
    type TRequired = Parsed<(HexPrefix, Red, Green)>;

    type TSource<'a> = Chars<'a>;

    type TError = HexColorParseError;

    /// Takes the two digits of blue off the front of the source.
    fn parse(value: Self::TSource<'_>) -> (result: Result<(Self, Self::TSource<'_>), Self::TError>)
        ensures
            match result {
                Ok((blue, rest)) => channel_value(value.remaining(), HexColorChanel::Blue) == Ok::<
                    (u8, Seq<char>),
                    HexColorParseError,
                >((blue.0, rest.remaining())),
                Err(error) => channel_value(value.remaining(), HexColorChanel::Blue) == Err::<
                    (u8, Seq<char>),
                    HexColorParseError,
                >(error),
            },
    {
        match parse_channel(value, HexColorChanel::Blue) {
            Ok((c, rest)) => Ok((Blue(c), rest)),
            Err(error) => Err(error),
        }
    }
}

/// How opaque a colour is.
pub struct Alpha(pub u8);

impl Parse for Alpha {
    type TRequired = Parsed<(HexPrefix, Red, Green, Blue)>;

    type TSource<'a> = Chars<'a>;

    type TError = HexColorParseError;

    /// Takes the two digits of alpha off the front of the source; where the
    /// source has ended, alpha is full.
    fn parse(value: Self::TSource<'_>) -> (result: Result<(Self, Self::TSource<'_>), Self::TError>)
        ensures
            value.remaining().len() == 0 ==> match result {
                Ok((alpha, rest)) => alpha.0 == u8::MAX && rest.remaining().len() == 0,
                Err(_) => false,
            },
            value.remaining().len() > 0 ==> match result {
                Ok((alpha, rest)) => channel_value(value.remaining(), HexColorChanel::Alpha)
                    == Ok::<(u8, Seq<char>), HexColorParseError>((alpha.0, rest.remaining())),
                Err(error) => channel_value(value.remaining(), HexColorChanel::Alpha) == Err::<
                    (u8, Seq<char>),
                    HexColorParseError,
                >(error),
            },
    {
        let mut value = value;
        let ghost source = value.remaining();
        let c0 = match value.next() {
            Some(c0) => c0,
            None => {
                return Ok((Alpha(u8::MAX), value));
            },
        };
        let c1 = match value.next() {
            Some(c1) => c1,
            None => {
                return Err(HexColorParseError::Incomplete(HexColorChanel::Alpha));
            },
        };
        assert(value.remaining() =~= source.skip(2));
        match hex_pair(c0, c1) {
            Some(c) => Ok((Alpha(c), value)),
            None => Err(HexColorParseError::FaultyBase(HexColorChanel::Alpha)),
        }
    }
}

} // verus!

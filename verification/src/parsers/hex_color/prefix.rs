//! The `#` in front of a hex colour.

use super::HexColorParseError;
use crate::parsers::parsed::ParsedNothing;
use crate::traits::parse::Parse;
use std::str::Chars;
use vstd::prelude::*;
use vstd::std_specs::iter::IteratorSpec;

verus! {

broadcast use vstd::string::next_postcondition;

/// The mark that a colour began with `#`.
#[derive(Debug, PartialEq)]
pub struct HexPrefix;

impl Parse for HexPrefix {
    type TRequired = ParsedNothing;

    type TSource<'a> = Chars<'a>;

    type TError = HexColorParseError;

    /// Takes the `#` off the front of the source.
    fn parse(value: Self::TSource<'_>) -> (result: Result<(Self, Self::TSource<'_>), Self::TError>)
        ensures
            match result {
                Ok((_, rest)) => {
                    &&& value.remaining().len() > 0
                    &&& value.remaining()[0] == '#'
                    &&& rest.remaining() == value.remaining().drop_first()
                },
                Err(error) => if value.remaining().len() == 0 {
                    error == HexColorParseError::EmptyString
                } else {
                    value.remaining()[0] != '#' && error == HexColorParseError::InvalidPrefix(
                        value.remaining()[0],
                    )
                },
            },
    {
        let mut value = value;
        let prefix = match value.next() {
            Some(prefix) => prefix,
            None => {
                return Err(HexColorParseError::EmptyString);
            },
        };
        if prefix != '#' {
            return Err(HexColorParseError::InvalidPrefix(prefix));
        }
        Ok((HexPrefix, value))
    }
}

} // verus!

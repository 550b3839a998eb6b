//! The end of a hex colour: nothing may follow its channels.

use super::channels::{Alpha, Blue, Green, Red};
use super::prefix::HexPrefix;
use super::HexColorParseError;
use crate::parsers::parsed::Parsed;
use crate::traits::parse::Parse;
use std::str::Chars;
use vstd::prelude::*;
use vstd::std_specs::iter::IteratorSpec;

verus! {

/// The mark that nothing follows the channels of a colour.
pub struct NoSuffix;

/// `Chars::as_str` of std: the part of the string that the iterator has
/// not handed out yet.
#[verifier::external_body]
fn rest_of<'a>(value: &Chars<'a>) -> (rest: &'a str)
    ensures
        rest@ == value.remaining(),
{
    value.as_str()
}

impl Parse for NoSuffix {
    type TRequired = Parsed<(HexPrefix, Red, Green, Blue, Alpha)>;

    type TSource<'a> = Chars<'a>;

    type TError = HexColorParseError;

    /// Accepts the source where it has ended; else all that is left of it
    /// is the suffix that is in the way.
    fn parse(value: Self::TSource<'_>) -> (result: Result<(Self, Self::TSource<'_>), Self::TError>)
        ensures
            match result {
                Ok((_, rest)) => value.remaining().len() == 0 && rest.remaining().len() == 0,
                Err(error) => {
                    &&& value.remaining().len() > 0
                    &&& error matches HexColorParseError::InvalidSuffix(suffix)
                    &&& suffix@ == value.remaining()
                },
            },
    {
        let suffix = rest_of(&value);
        if !suffix.is_empty() {
            return Err(HexColorParseError::InvalidSuffix(suffix.to_owned()));
        }
        Ok((NoSuffix, value))
    }
}

} // verus!

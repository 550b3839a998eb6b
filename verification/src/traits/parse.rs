//! What can be parsed from the front of a source.

use vstd::prelude::*;

verus! {

/// A value that is parsed from the front of a source, after the values
/// named by `TRequired` have been parsed.
pub trait Parse: Sized {
    type TRequired;

    type TSource<'a>;

    type TError;

    /// The parsed value and what is left of the source.
    fn parse(value: Self::TSource<'_>) -> Result<(Self, Self::TSource<'_>), Self::TError>;
}

} // verus!

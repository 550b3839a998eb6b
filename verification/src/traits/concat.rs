//! Appending a value to what has been gathered so far.

use vstd::prelude::*;

verus! {

/// A collection of values that takes one more value of type `T` at its end.
pub trait Concat<T> {
    type TResult;

    fn concat(self, value: T) -> Self::TResult;
}

} // verus!

//! Setting the value that something holds.

use vstd::prelude::*;

verus! {

/// Something that holds a value which can be set.
pub trait SetValue {
    type TValue;

    fn set_value(&mut self, value: Self::TValue);
}

} // verus!

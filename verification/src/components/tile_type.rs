//! What a tile of the grid is: free, blocked, or an end of the path.

use crate::traits::set_value::SetValue;
use vstd::prelude::*;

verus! {

/// The kinds of tile.
#[derive(Debug, PartialEq, Eq, Structural, Hash, Clone, Copy)]
pub enum TileTypeValue {
    Walkable,
    Obstacle,
    Start,
    End,
}

/// The kind of one tile.
#[derive(Debug, PartialEq, Eq, Structural, Hash, Clone, Copy)]
pub struct TileType {
    value: TileTypeValue,
}

/// Whether a tile of this kind is an end of the path.
pub open spec fn is_path_marker(value: TileTypeValue) -> bool {
    value == TileTypeValue::Start || value == TileTypeValue::End
}

impl TileType {
    pub closed spec fn view(&self) -> TileTypeValue {
        self.value
    }

    pub fn from_value(value: TileTypeValue) -> (tile: Self)
        ensures
            tile@ == value,
    {
        Self { value }
    }

    pub fn value(&self) -> (value: TileTypeValue)
        ensures
            value == self@,
    {
        self.value
    }

    /// The kind of the tile, where the tile is an end of the path.
    pub fn start_or_end(&self) -> (marker: Option<TileTypeValue>)
        ensures
            marker == (if is_path_marker(self@) {
                Some(self@)
            } else {
                None
            }),
    {
        match self.value {
            TileTypeValue::Start => Some(TileTypeValue::Start),
            TileTypeValue::End => Some(TileTypeValue::End),
            _ => None,
        }
    }
}

impl Default for TileTypeValue {
    fn default() -> (value: Self)
        ensures
            value == TileTypeValue::Walkable,
    {
        TileTypeValue::Walkable
    }
}

impl Default for TileType {
    fn default() -> (tile: Self)
        ensures
            tile@ == TileTypeValue::Walkable,
    {
        Self { value: TileTypeValue::Walkable }
    }
}

impl SetValue for TileType {
    type TValue = TileTypeValue;

    /// Gives the tile another kind. An end of the path keeps its kind.
    fn set_value(&mut self, value: Self::TValue)
        ensures
            final(self)@ == (if is_path_marker(old(self)@) {
                old(self)@
            } else {
                value
            }),
    {
        match self.value {
            TileTypeValue::Start => {},
            TileTypeValue::End => {},
            _ => {
                self.value = value;
            },
        }
    }
}

} // verus!

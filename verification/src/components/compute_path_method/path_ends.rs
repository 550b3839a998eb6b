//! The two tiles between which a path is wanted.

use crate::components::tile_type::TileTypeValue;
use vstd::prelude::*;

verus! {

/// The tile that marks the start and the tile that marks the end, each by
/// its id and with what the caller keeps of it.
pub struct PathEnds<T> {
    pub start: Option<(u64, T)>,
    pub end: Option<(u64, T)>,
}

/// What is remembered for a kind of end after the tile `entity` has become
/// `tile_type`: that tile where it is of the kind, nothing where it was
/// remembered and is of the kind no more, and else what was remembered.
pub open spec fn end_after_change<T>(
    remembered: Option<(u64, T)>,
    kind: TileTypeValue,
    entity: u64,
    tile_type: TileTypeValue,
    kept: T,
) -> Option<(u64, T)> {
    if tile_type == kind {
        Some((entity, kept))
    } else if remembered.is_some() && remembered.unwrap().0 == entity {
        None
    } else {
        remembered
    }
}

/// What is remembered after the tile `entity` is gone.
pub open spec fn end_after_removal<T>(remembered: Option<(u64, T)>, entity: u64) -> Option<
    (u64, T),
> {
    if remembered.is_some() && remembered.unwrap().0 == entity {
        None
    } else {
        remembered
    }
}

impl<T: Copy> PathEnds<T> {
    pub fn new() -> (ends: Self)
        ensures
            ends.start.is_none(),
            ends.end.is_none(),
    {
        Self { start: None, end: None }
    }

    /// Takes note that the tile `entity` has become `tile_type`.
    pub fn tile_changed(&mut self, entity: u64, tile_type: TileTypeValue, kept: T)
        ensures
            final(self).start == end_after_change(
                old(self).start,
                TileTypeValue::Start,
                entity,
                tile_type,
                kept,
            ),
            final(self).end == end_after_change(
                old(self).end,
                TileTypeValue::End,
                entity,
                tile_type,
                kept,
            ),
    {
        match tile_type {
            TileTypeValue::Start => {
                self.start = Some((entity, kept));
            },
            _ => {
                if Self::is_tile(&self.start, entity) {
                    self.start = None;
                }
            },
        }
        match tile_type {
            TileTypeValue::End => {
                self.end = Some((entity, kept));
            },
            _ => {
                if Self::is_tile(&self.end, entity) {
                    self.end = None;
                }
            },
        }
    }

    /// Takes note that the tile `entity` is gone.
    pub fn tile_removed(&mut self, entity: u64)
        ensures
            final(self).start == end_after_removal(old(self).start, entity),
            final(self).end == end_after_removal(old(self).end, entity),
    {
        if Self::is_tile(&self.start, entity) {
            self.start = None;
        }
        if Self::is_tile(&self.end, entity) {
            self.end = None;
        }
    }

    /// What is kept of the start and of the end, where both are marked.
    pub fn both(&self) -> (ends: Option<(T, T)>)
        ensures
            ends == (if self.start.is_some() && self.end.is_some() {
                Some((self.start.unwrap().1, self.end.unwrap().1))
            } else {
                None
            }),
    {
        match (&self.start, &self.end) {
            (Some((_, start)), Some((_, end))) => Some((*start, *end)),
            _ => None,
        }
    }

    fn is_tile(remembered: &Option<(u64, T)>, entity: u64) -> (same: bool)
        ensures
            same == (remembered.is_some() && remembered.unwrap().0 == entity),
    {
        match remembered {
            Some((tile, _)) => *tile == entity,
            None => false,
        }
    }
}

} // verus!

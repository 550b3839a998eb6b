//! Which end of the path the next click places.

use crate::components::tile_type::{is_path_marker, TileType, TileTypeValue};
use vstd::prelude::*;

verus! {

/// What a click on a tile does to the ends of the path.
#[derive(Debug, PartialEq, Eq, Structural, Hash, Clone, Copy)]
pub enum PathPlacement {
    /// It places the start.
    Start,
    /// It places the end.
    End,
    /// Both ends are placed. The end named is dragged along.
    Drag(Option<TileTypeValue>),
}

/// The kinds of those of `tiles` that are an end of the path, in their order.
pub open spec fn path_markers(tiles: Seq<TileType>) -> Seq<TileTypeValue>
    decreases tiles.len(),
{
    if tiles.len() == 0 {
        Seq::empty()
    } else if is_path_marker(tiles.last()@) {
        path_markers(tiles.drop_last()).push(tiles.last()@)
    } else {
        path_markers(tiles.drop_last())
    }
}

/// Those of `tiles` that are clicked.
pub open spec fn clicked_tiles(tiles: Seq<(TileType, bool)>) -> Seq<TileType>
    decreases tiles.len(),
{
    if tiles.len() == 0 {
        Seq::empty()
    } else if tiles.last().1 {
        clicked_tiles(tiles.drop_last()).push(tiles.last().0)
    } else {
        clicked_tiles(tiles.drop_last())
    }
}

/// The state after the button is released, given the ends of the path
/// that are placed: the start is placed first and the end second, and
/// when both are placed they can be dragged. More than two ends leave the
/// state as it is.
pub open spec fn placement_after_release(path_markers: Seq<TileTypeValue>) -> Option<
    PathPlacement,
> {
    if path_markers.len() == 0 {
        Some(PathPlacement::Start)
    } else if path_markers == seq![TileTypeValue::Start] {
        Some(PathPlacement::End)
    } else if path_markers == seq![TileTypeValue::End] {
        Some(PathPlacement::Start)
    } else if path_markers == seq![TileTypeValue::Start, TileTypeValue::End] || path_markers
        == seq![TileTypeValue::End, TileTypeValue::Start] {
        Some(PathPlacement::Drag(None))
    } else {
        None
    }
}

/// The state while the button is held on the ends of the path that are
/// clicked: where both ends are placed and none is dragged yet, the one
/// end that is clicked is dragged from now on.
pub open spec fn placement_on_hold(state: PathPlacement, clicked_markers: Seq<TileTypeValue>) -> Option<
    PathPlacement,
> {
    if state == PathPlacement::Drag(None) && clicked_markers.len() == 1 {
        Some(PathPlacement::Drag(Some(clicked_markers[0])))
    } else {
        None
    }
}

impl Default for PathPlacement {
    fn default() -> (state: Self)
        ensures
            state == PathPlacement::Start,
    {
        PathPlacement::Start
    }
}

impl PathPlacement {
    /// The kinds of those of `tiles` that are an end of the path.
    pub fn start_or_end_of(tiles: &Vec<TileType>) -> (markers: Vec<TileTypeValue>)
        ensures
            markers@ == path_markers(tiles@),
    {
        let mut markers: Vec<TileTypeValue> = Vec::new();
        let mut i: usize = 0;
        while i < tiles.len()
            invariant
                i <= tiles@.len(),
                markers@ == path_markers(tiles@.take(i as int)),
            decreases tiles.len() - i,
        {
            proof {
                assert(tiles@.take(i + 1).drop_last() =~= tiles@.take(i as int));
                assert(tiles@.take(i + 1).last() == tiles@[i as int]);
            }
            match tiles[i].start_or_end() {
                Some(marker) => {
                    markers.push(marker);
                },
                None => {},
            }
            i += 1;
        }
        assert(tiles@.take(tiles@.len() as int) =~= tiles@);
        markers
    }

    /// Those of `tiles` that are clicked.
    pub fn clicked_of(tiles: &Vec<(TileType, bool)>) -> (clicked: Vec<TileType>)
        ensures
            clicked@ == clicked_tiles(tiles@),
    {
        let mut clicked: Vec<TileType> = Vec::new();
        let mut i: usize = 0;
        while i < tiles.len()
            invariant
                i <= tiles@.len(),
                clicked@ == clicked_tiles(tiles@.take(i as int)),
            decreases tiles.len() - i,
        {
            proof {
                assert(tiles@.take(i + 1).drop_last() =~= tiles@.take(i as int));
                assert(tiles@.take(i + 1).last() == tiles@[i as int]);
            }
            if tiles[i].1 {
                clicked.push(tiles[i].0);
            }
            i += 1;
        }
        assert(tiles@.take(tiles@.len() as int) =~= tiles@);
        clicked
    }

    /// The state to go to, if any, when the button may just have been
    /// released over the given tiles.
    pub fn reset_on_release(just_released: bool, tiles: &Vec<TileType>) -> (next: Option<
        PathPlacement,
    >)
        ensures
            next == (if just_released {
                placement_after_release(path_markers(tiles@))
            } else {
                None
            }),
    {
        if !just_released {
            return None;
        }
        let path_markers = Self::start_or_end_of(tiles);
        let ghost markers = path_markers@;
        if path_markers.len() == 0 {
            return Some(PathPlacement::Start);
        }
        if path_markers.len() == 1 {
            let next = match path_markers[0] {
                TileTypeValue::Start => Some(PathPlacement::End),
                TileTypeValue::End => Some(PathPlacement::Start),
                _ => None,
            };
            proof {
                assert(markers =~= seq![markers[0]]);
                assert(seq![TileTypeValue::Start][0] == TileTypeValue::Start);
                assert(seq![TileTypeValue::End][0] == TileTypeValue::End);
            }
            return next;
        }
        if path_markers.len() == 2 {
            let next = match (path_markers[0], path_markers[1]) {
                (TileTypeValue::Start, TileTypeValue::End) => Some(PathPlacement::Drag(None)),
                (TileTypeValue::End, TileTypeValue::Start) => Some(PathPlacement::Drag(None)),
                _ => None,
            };
            proof {
                assert(markers =~= seq![markers[0], markers[1]]);
                let start_end = seq![TileTypeValue::Start, TileTypeValue::End];
                let end_start = seq![TileTypeValue::End, TileTypeValue::Start];
                assert(start_end[0] == TileTypeValue::Start && start_end[1] == TileTypeValue::End);
                assert(end_start[0] == TileTypeValue::End && end_start[1] == TileTypeValue::Start);
            }
            return next;
        }
        None
    }

    /// The state to go to, if any, while the button may be held over the
    /// given tiles, each with whether it is clicked.
    pub fn drag_on_hold(&self, pressed: bool, tiles: &Vec<(TileType, bool)>) -> (next: Option<
        PathPlacement,
    >)
        ensures
            next == (if pressed {
                placement_on_hold(*self, path_markers(clicked_tiles(tiles@)))
            } else {
                None
            }),
    {
        if !pressed {
            return None;
        }
        match self {
            PathPlacement::Drag(None) => {},
            _ => {
                return None;
            },
        }
        let clicked = Self::clicked_of(tiles);
        let path_markers = Self::start_or_end_of(&clicked);
        if path_markers.len() == 1 {
            Some(PathPlacement::Drag(Some(path_markers[0])))
        } else {
            None
        }
    }
}

} // verus!

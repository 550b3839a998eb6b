//! When something is to be taken away.

use vstd::prelude::*;

verus! {

/// How long something is to stay.
#[derive(Debug, PartialEq, Eq, Structural, Clone, Copy)]
pub enum Despawn {
    NextFrame,
    AfterFrames(usize),
}

impl Despawn {
    /// Lets one frame pass, and tells whether the time is up.
    pub fn elapse(&mut self) -> (up: bool)
        requires
            *old(self) != Despawn::AfterFrames(0),
        ensures
            match *old(self) {
                Despawn::NextFrame => up && *final(self) == Despawn::NextFrame,
                Despawn::AfterFrames(frames) => up == (frames == 1) && *final(self)
                    == Despawn::AfterFrames((frames - 1) as usize),
            },
    {
        match self {
            Despawn::NextFrame => true,
            Despawn::AfterFrames(frames) => {
                *frames = *frames - 1;
                *frames == 0
            },
        }
    }
}

} // verus!

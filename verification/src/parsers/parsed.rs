//! The parts that a parser has gathered, in the order in which it parsed them.

use crate::traits::concat::Concat;
use vstd::prelude::*;

verus! {

/// The parts gathered so far, as a tuple.
#[derive(Debug, PartialEq)]
pub struct Parsed<T>(T);

impl<T> Parsed<T> {
    /// The tuple of the parts.
    pub closed spec fn parts(self) -> T {
        self.0
    }

    /// Hands out the tuple of the parts.
    pub fn unpack(self) -> (parts: T)
        ensures
            parts == self.parts(),
    {
        let Parsed(parsed) = self;
        parsed
    }
}

/// Nothing gathered yet.
#[derive(Debug, PartialEq)]
pub struct ParsedNothing;

impl<T> Concat<T> for ParsedNothing {
    type TResult = Parsed<(T,)>;

    fn concat(self, value: T) -> (all: Parsed<(T,)>)
        ensures
            all.parts() == (value,),
    {
        Parsed((value,))
    }
}

impl<T1, T> Concat<T> for Parsed<(T1,)> {
    type TResult = Parsed<(T1, T)>;

    fn concat(self, value: T) -> (all: Parsed<(T1, T)>)
        ensures
            all.parts() == (self.parts().0, value),
    {
        let Parsed((t1,)) = self;
        Parsed((t1, value))
    }
}

impl<T1, T2, T> Concat<T> for Parsed<(T1, T2)> {
    type TResult = Parsed<(T1, T2, T)>;

    fn concat(self, value: T) -> (all: Parsed<(T1, T2, T)>)
        ensures
            all.parts() == (self.parts().0, self.parts().1, value),
    {
        let Parsed((t1, t2)) = self;
        Parsed((t1, t2, value))
    }
}

impl<T1, T2, T3, T> Concat<T> for Parsed<(T1, T2, T3)> {
    type TResult = Parsed<(T1, T2, T3, T)>;

    fn concat(self, value: T) -> (all: Parsed<(T1, T2, T3, T)>)
        ensures
            all.parts() == (self.parts().0, self.parts().1, self.parts().2, value),
    {
        let Parsed((t1, t2, t3)) = self;
        Parsed((t1, t2, t3, value))
    }
}

impl<T1, T2, T3, T4, T> Concat<T> for Parsed<(T1, T2, T3, T4)> {
    type TResult = Parsed<(T1, T2, T3, T4, T)>;

    fn concat(self, value: T) -> (all: Parsed<(T1, T2, T3, T4, T)>)
        ensures
            all.parts() == (self.parts().0, self.parts().1, self.parts().2, self.parts().3, value),
    {
        let Parsed((t1, t2, t3, t4)) = self;
        Parsed((t1, t2, t3, t4, value))
    }
}

impl<T1, T2, T3, T4, T5, T> Concat<T> for Parsed<(T1, T2, T3, T4, T5)> {
    type TResult = Parsed<(T1, T2, T3, T4, T5, T)>;

    fn concat(self, value: T) -> (all: Parsed<(T1, T2, T3, T4, T5, T)>)
        ensures
            all.parts() == (
                self.parts().0,
                self.parts().1,
                self.parts().2,
                self.parts().3,
                self.parts().4,
                value,
            ),
    {
        let Parsed((t1, t2, t3, t4, t5)) = self;
        Parsed((t1, t2, t3, t4, t5, value))
    }
}

impl<T1, T2, T3, T4, T5, T6, T> Concat<T> for Parsed<(T1, T2, T3, T4, T5, T6)> {
    type TResult = Parsed<(T1, T2, T3, T4, T5, T6, T)>;

    fn concat(self, value: T) -> (all: Parsed<(T1, T2, T3, T4, T5, T6, T)>)
        ensures
            all.parts() == (
                self.parts().0,
                self.parts().1,
                self.parts().2,
                self.parts().3,
                self.parts().4,
                self.parts().5,
                value,
            ),
    {
        let Parsed((t1, t2, t3, t4, t5, t6)) = self;
        Parsed((t1, t2, t3, t4, t5, t6, value))
    }
}

} // verus!

//! The parser: what is left of the source, and the parts gathered so far.

use super::parsed::{Parsed, ParsedNothing};
use crate::traits::concat::Concat;
use crate::traits::parse::Parse;
use std::str::Chars;
use vstd::prelude::*;

verus! {

/// A parser over the characters of a string.
#[derive(Debug)]
pub struct StringParser<'a, TParsed = ParsedNothing> {
    pub remaining: Chars<'a>,
    pub parsed: TParsed,
}

impl<'a> StringParser<'a, ParsedNothing> {
    /// The parser that has all of `chars` before it.
    pub fn new(chars: Chars<'a>) -> (parser: Self)
        ensures
            parser.remaining == chars,
    {
        Self { remaining: chars, parsed: ParsedNothing }
    }

    /// Parses the first part. What the part's own parser returns decides:
    /// its value becomes the one part gathered, and what it left of the
    /// source is what remains; its error is handed on.
    pub fn parse<TFirst>(self) -> (result: Result<
        StringParser<'a, Parsed<(TFirst,)>>,
        TFirst::TError,
    >) where TFirst: Parse<TRequired = ParsedNothing, TSource<'a> = Chars<'a>>
        ensures
            match result {
                Ok(parser) => call_ensures(
                    TFirst::parse,
                    (self.remaining,),
                    Ok((parser.parsed.parts().0, parser.remaining)),
                ),
                Err(error) => call_ensures(TFirst::parse, (self.remaining,), Err(error)),
            },
    {
        match TFirst::parse(self.remaining) {
            Ok((first, remaining)) => Ok(
                StringParser { remaining, parsed: self.parsed.concat(first) },
            ),
            Err(error) => Err(error),
        }
    }
}

impl<'a, T> StringParser<'a, Parsed<T>> {
    /// The parts gathered, where parsing is done.
    pub fn unpack(self) -> (parts: T)
        ensures
            parts == self.parsed.parts(),
    {
        self.parsed.unpack()
    }
}

/// Whether `parser` is what comes of parsing `next` from `source` and
/// appending it to `parsed`.
pub open spec fn appends<'a, T, TNext>(
    source: Chars<'a>,
    parsed: Parsed<T>,
    parser: StringParser<'a, <Parsed<T> as Concat<TNext>>::TResult>,
    next: TNext,
) -> bool where
    Parsed<T>: Concat<TNext>,
    TNext: Parse<TRequired = Parsed<T>, TSource<'a> = Chars<'a>>,
 {
    &&& call_ensures(TNext::parse, (source,), Ok((next, parser.remaining)))
    &&& call_ensures(<Parsed<T> as Concat<TNext>>::concat, (parsed, next), parser.parsed)
}

impl<'a, T> StringParser<'a, Parsed<T>> {
    /// Parses the next part. What the part's own parser returns decides:
    /// its value is appended to the parts gathered, and what it left of the
    /// source is what remains; its error is handed on.
    pub fn parse<TNext>(self) -> (result: Result<
        StringParser<'a, <Parsed<T> as Concat<TNext>>::TResult>,
        TNext::TError,
    >) where
        Parsed<T>: Concat<TNext>,
        TNext: Parse<TRequired = Parsed<T>, TSource<'a> = Chars<'a>>,

        ensures
            result is Ok ==> exists|next: TNext| #[trigger]
                appends(self.remaining, self.parsed, result->Ok_0, next),
            result is Err ==> call_ensures(TNext::parse, (self.remaining,), Err(result->Err_0)),
    {
        let result = match TNext::parse(self.remaining) {
            Ok((next, remaining)) => {
                let ghost part = next;
                let parser = StringParser { remaining, parsed: self.parsed.concat(next) };
                assert(appends(self.remaining, self.parsed, parser, part));
                Ok(parser)
            },
            Err(error) => Err(error),
        };
        proof {
            if result is Ok {
                let parser = result->Ok_0;
                let part = choose|part: TNext| appends(self.remaining, self.parsed, parser, part);
                assert(appends(self.remaining, self.parsed, result->Ok_0, part));
            }
        }
        result
    }
}

} // verus!

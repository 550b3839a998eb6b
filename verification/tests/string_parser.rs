use project_zyheeda_pathfinding::parsers::parsed::{Parsed, ParsedNothing};
use project_zyheeda_pathfinding::parsers::string_parser::StringParser;
use project_zyheeda_pathfinding::traits::concat::Concat;
use project_zyheeda_pathfinding::traits::parse::Parse;
use std::str::Chars;

#[derive(Debug, PartialEq)]
struct _Error;

#[derive(Debug, PartialEq)]
struct _First;

impl Parse for _First {
	type TRequired = ParsedNothing;
	type TSource<'a> = Chars<'a>;
	type TError = _Error;

	fn parse(mut value: Self::TSource<'_>) -> Result<(Self, Self::TSource<'_>), Self::TError> {
		let str = [(); 3].map(|_| value.next());
		match str.iter().filter_map(|c| *c).collect::<String>().as_str() {
			"fst" => Ok((_First, value)),
			_ => Err(_Error),
		}
	}
}

#[derive(Debug, PartialEq)]
struct _Second;

impl Parse for _Second {
	type TRequired = Parsed<(_First,)>;
	type TSource<'a> = Chars<'a>;
	type TError = _Error;

	fn parse(mut value: Self::TSource<'_>) -> Result<(Self, Self::TSource<'_>), Self::TError> {
		let str = [(); 3].map(|_| value.next());
		match str.iter().filter_map(|c| *c).collect::<String>().as_str() {
			"snd" => Ok((_Second, value)),
			_ => Err(_Error),
		}
	}
}

fn parts_and_rest<T>(parser: StringParser<'_, T>) -> (T, String) {
	(parser.parsed, parser.remaining.collect::<String>())
}

#[test]
fn parse_first() {
	let source = "fst";
	let parser = StringParser::new(source.chars());

	let parser = parser.parse::<_First>();

	let expected = StringParser {
		remaining: "".chars(),
		parsed: ParsedNothing.concat(_First),
	};
	assert_eq!(Ok(parts_and_rest(expected)), parser.map(parts_and_rest),)
}

#[test]
fn parse_second() {
	let source = "snd";
	let parser = StringParser {
		remaining: source.chars(),
		parsed: ParsedNothing.concat(_First),
	};

	let parser = parser.parse::<_Second>();

	let expected = StringParser {
		remaining: "".chars(),
		parsed: ParsedNothing.concat(_First).concat(_Second),
	};
	assert_eq!(Ok(parts_and_rest(expected)), parser.map(parts_and_rest),)
}

#[test]
fn parse_first_keeps_what_it_did_not_read() {
	let parser = StringParser::new("fstsnd!".chars());

	let parser = parser.parse::<_First>().map(parts_and_rest);

	assert_eq!(
		Ok((ParsedNothing.concat(_First), String::from("snd!"))),
		parser
	);
}

#[test]
fn parse_first_then_second() {
	let parser = StringParser::new("fstsnd".chars());

	let parser = parser
		.parse::<_First>()
		.and_then(|parser| parser.parse::<_Second>())
		.map(|parser| parser.unpack());

	assert_eq!(Ok((_First, _Second)), parser);
}

#[test]
fn parse_first_hands_on_the_error() {
	let parser = StringParser::new("snd".chars());

	let parser = parser.parse::<_First>().map(parts_and_rest);

	assert_eq!(Err(_Error), parser);
}

#[test]
fn parse_second_hands_on_the_error() {
	let parser = StringParser {
		remaining: "fst".chars(),
		parsed: ParsedNothing.concat(_First),
	};

	let parser = parser.parse::<_Second>().map(parts_and_rest);

	assert_eq!(Err(_Error), parser);
}

#[test]
fn unpack_parsed() {
	let parsed = ParsedNothing.concat(1u8).concat("two").concat(3.5f32);

	assert_eq!((1u8, "two", 3.5f32), parsed.unpack());
}

#[test]
fn concat_up_to_seven_parts() {
	let parsed = ParsedNothing
		.concat(1)
		.concat(2)
		.concat(3)
		.concat(4)
		.concat(5)
		.concat(6)
		.concat(7);

	assert_eq!((1, 2, 3, 4, 5, 6, 7), parsed.unpack());
}

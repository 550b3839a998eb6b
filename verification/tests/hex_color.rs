use project_zyheeda_pathfinding::parsers::hex_color::color::parse_color;
use project_zyheeda_pathfinding::parsers::hex_color::prefix::HexPrefix;
use project_zyheeda_pathfinding::parsers::hex_color::{
	hex_digit, hex_pair, HexColorChanel, HexColorParseError,
};
use project_zyheeda_pathfinding::traits::parse::Parse;

fn channels(color: &str) -> Result<(u8, u8, u8, u8), HexColorParseError> {
	parse_color(color).map(|(_, r, g, b, a, _)| (r.0, g.0, b.0, a.0))
}

#[test]
fn parse_color_with_alpha() {
	assert_eq!(Ok((0x12, 0xab, 0xFF, 0x80)), channels("#12abFF80"));
}

#[test]
fn parse_color_without_alpha_is_opaque() {
	assert_eq!(Ok((255, 0, 16, 255)), channels("#ff0010"));
}

#[test]
fn parse_color_of_empty_string() {
	assert_eq!(Err(HexColorParseError::EmptyString), channels(""));
}

#[test]
fn parse_color_with_wrong_prefix() {
	assert_eq!(Err(HexColorParseError::InvalidPrefix('f')), channels("ff0010"));
}

#[test]
fn parse_color_without_red() {
	assert_eq!(
		Err(HexColorParseError::Empty(HexColorChanel::Red)),
		channels("#")
	);
}

#[test]
fn parse_color_without_green_and_blue() {
	assert_eq!(
		Err(HexColorParseError::Empty(HexColorChanel::Green)),
		channels("#ff")
	);
	assert_eq!(
		Err(HexColorParseError::Empty(HexColorChanel::Blue)),
		channels("#ff00")
	);
}

#[test]
fn parse_color_with_half_a_channel() {
	assert_eq!(
		Err(HexColorParseError::Incomplete(HexColorChanel::Red)),
		channels("#f")
	);
	assert_eq!(
		Err(HexColorParseError::Incomplete(HexColorChanel::Blue)),
		channels("#ff001")
	);
	assert_eq!(
		Err(HexColorParseError::Incomplete(HexColorChanel::Alpha)),
		channels("#ff00108")
	);
}

#[test]
fn parse_color_with_wrong_digits() {
	assert_eq!(
		Err(HexColorParseError::FaultyBase(HexColorChanel::Red)),
		channels("#gg0010")
	);
	assert_eq!(
		Err(HexColorParseError::FaultyBase(HexColorChanel::Green)),
		channels("#ff0x10")
	);
	assert_eq!(
		Err(HexColorParseError::FaultyBase(HexColorChanel::Alpha)),
		channels("#ff0010-1")
	);
}

#[test]
fn parse_color_with_suffix() {
	assert_eq!(
		Err(HexColorParseError::InvalidSuffix(String::from("abc"))),
		channels("#ff001080abc")
	);
}

#[test]
fn hex_digits() {
	assert_eq!(Some(0), hex_digit('0'));
	assert_eq!(Some(9), hex_digit('9'));
	assert_eq!(Some(10), hex_digit('a'));
	assert_eq!(Some(15), hex_digit('F'));
	assert_eq!(None, hex_digit('g'));
	assert_eq!(None, hex_digit('+'));
}

#[test]
fn hex_pairs_agree_with_std() {
	let chars = ['0', '7', '9', 'a', 'c', 'f', 'A', 'F', 'g', 'G', '+', '-', ' ', '_', 'é'];

	for c0 in chars {
		for c1 in chars {
			let expected = u8::from_str_radix(&format!("{c0}{c1}"), 16).ok();
			assert_eq!(expected, hex_pair(c0, c1), "{c0}{c1}");
		}
	}
}

#[test]
fn hex_prefix_leaves_the_rest() {
	let (_, rest) = match HexPrefix::parse("#abc".chars()) {
		Ok(parsed) => parsed,
		Err(_) => panic!("\"#abc\" begins with #"),
	};

	assert_eq!("abc", rest.as_str());
}

#[test]
fn channel_names() {
	assert_eq!("Chanel Red (rr)", HexColorChanel::Red.name());
	assert_eq!("Chanel Green (gg)", HexColorChanel::Green.name());
	assert_eq!("Chanel Blue (bb)", HexColorChanel::Blue.name());
	assert_eq!("Chanel Alpha (aa)", HexColorChanel::Alpha.name());
}

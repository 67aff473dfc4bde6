use tileman::error::DeserError;
use tileman::tile::{TileCell, TileType};
use tileman::value::LingoData;

fn number(n: i32) -> Box<LingoData> {
    Box::new(LingoData::Number(n))
}

fn text(s: &str) -> Box<LingoData> {
    Box::new(LingoData::String(s.to_string()))
}

fn strings(parts: &[&str]) -> Vec<String> {
    parts.iter().map(|p| p.to_string()).collect()
}

#[test]
fn parse_reads_every_decimal_number() {
    let samples = [0, 1, -1, 42, -42, 1000000, i32::MAX, i32::MIN];
    for n in samples {
        assert_eq!(LingoData::parse(&n.to_string()), Ok(LingoData::Number(n)));
    }
}

#[test]
fn parse_reads_signed_and_padded_numbers() {
    assert_eq!(LingoData::parse("+7"), Ok(LingoData::Number(7)));
    assert_eq!(LingoData::parse("007"), Ok(LingoData::Number(7)));
    assert_eq!(LingoData::parse("  12\t"), Ok(LingoData::Number(12)));
}

#[test]
fn parse_keeps_a_number_that_is_too_large_as_text() {
    assert_eq!(
        LingoData::parse("2147483648"),
        Ok(LingoData::InvalidOrNull("2147483648".to_string()))
    );
}

#[test]
fn parse_reads_quoted_text() {
    assert_eq!(
        LingoData::parse("\"hello world\""),
        Ok(LingoData::String("hello world".to_string()))
    );
    assert_eq!(LingoData::parse("\"\""), Ok(LingoData::String(String::new())));
}

#[test]
fn parse_does_not_unescape_quoted_text() {
    assert_eq!(
        LingoData::parse("\"a\\nb \"c\" \""),
        Ok(LingoData::String("a\\nb \"c\" ".to_string()))
    );
    assert_eq!(LingoData::parse("\" padded \""), Ok(LingoData::String(" padded ".to_string())));
}

#[test]
fn parse_reads_a_list_of_numbers() {
    assert_eq!(
        LingoData::parse("[1, 2, 3]"),
        Ok(LingoData::Array(vec![number(1), number(2), number(3)]))
    );
}

#[test]
fn parse_reads_a_list_of_texts_and_numbers() {
    assert_eq!(
        LingoData::parse("[\"a\" ,  -2,\"b c\"]"),
        Ok(LingoData::Array(vec![text("a"), number(-2), text("b c")]))
    );
}

#[test]
fn parse_reads_an_empty_list_as_one_unparsed_item() {
    assert_eq!(
        LingoData::parse("[]"),
        Ok(LingoData::Array(vec![Box::new(LingoData::InvalidOrNull(String::new()))]))
    );
}

#[test]
fn parse_cuts_a_nested_list_at_every_comma() {
    assert_eq!(
        LingoData::parse("[[1,2],[3]]"),
        Ok(LingoData::Array(vec![
            Box::new(LingoData::InvalidOrNull("[1".to_string())),
            Box::new(LingoData::InvalidOrNull("2]".to_string())),
            Box::new(LingoData::Array(vec![number(3)])),
        ]))
    );
}

#[test]
fn parse_reads_a_list_within_a_list() {
    assert_eq!(
        LingoData::parse("[[7]]"),
        Ok(LingoData::Array(vec![Box::new(LingoData::Array(vec![number(7)]))]))
    );
}

#[test]
fn parse_reads_a_point() {
    assert_eq!(LingoData::parse("point(4,5)"), Ok(LingoData::Point(vec![4, 5])));
}

#[test]
fn parse_drops_what_is_no_number_from_a_point() {
    assert_eq!(LingoData::parse("point( 4 , x, -5 ,)"), Ok(LingoData::Point(vec![4, -5])));
    assert_eq!(LingoData::parse("point()"), Ok(LingoData::Point(Vec::new())));
}

#[test]
fn parse_keeps_other_text_unparsed() {
    assert_eq!(
        LingoData::parse("garbage!!"),
        Ok(LingoData::InvalidOrNull("garbage!!".to_string()))
    );
    assert_eq!(LingoData::parse("  void "), Ok(LingoData::InvalidOrNull("void".to_string())));
    assert_eq!(LingoData::parse(""), Ok(LingoData::InvalidOrNull(String::new())));
    assert_eq!(LingoData::parse("point(1,2"), Ok(LingoData::InvalidOrNull("point(1,2".to_string())));
    assert_eq!(LingoData::parse("[1,2"), Ok(LingoData::InvalidOrNull("[1,2".to_string())));
}

#[test]
fn parse_keeps_a_lone_quote_unparsed() {
    assert_eq!(LingoData::parse("\""), Ok(LingoData::InvalidOrNull("\"".to_string())));
}

#[test]
fn array_of_reads_each_part() {
    assert_eq!(
        LingoData::array_of(&strings(&["1", " \"x\" ", "y"])),
        LingoData::Array(vec![
            number(1),
            text("x"),
            Box::new(LingoData::InvalidOrNull("y".to_string())),
        ])
    );
    assert_eq!(LingoData::array_of(&Vec::new()), LingoData::Array(Vec::new()));
}

#[test]
fn point_of_keeps_the_numbers() {
    assert_eq!(
        LingoData::point_of(&strings(&["1", " 2 ", "x", "", "-3"])),
        LingoData::Point(vec![1, 2, -3])
    );
}

#[test]
fn as_number_gives_the_number() {
    assert_eq!(LingoData::Number(5).as_number(), Ok(5));
}

#[test]
fn as_number_refuses_other_values() {
    assert_eq!(
        LingoData::String("x".to_string()).as_number(),
        Err(DeserError::DataConvertFailed("String(\"x\") not a number".to_string()))
    );
    assert_eq!(
        LingoData::Point(vec![1, 2]).as_number(),
        Err(DeserError::DataConvertFailed("Point([1, 2]) not a number".to_string()))
    );
}

#[test]
fn as_string_gives_the_text() {
    assert_eq!(LingoData::String("x".to_string()).as_string(), Ok("x".to_string()));
}

#[test]
fn as_string_refuses_other_values() {
    assert_eq!(
        LingoData::Number(3).as_string(),
        Err(DeserError::DataConvertFailed("Number(3) not a string".to_string()))
    );
    assert_eq!(
        LingoData::InvalidOrNull("x".to_string()).as_string(),
        Err(DeserError::DataConvertFailed("InvalidOrNull(\"x\") not a string".to_string()))
    );
}

#[test]
fn as_string_array_keeps_the_texts() {
    let list = LingoData::Array(vec![text("a"), number(1), text("b"), Box::new(LingoData::Array(Vec::new()))]);
    assert_eq!(list.as_string_array(), Ok(vec!["a".to_string(), "b".to_string()]));
}

#[test]
fn as_string_array_refuses_what_is_no_list() {
    assert_eq!(
        LingoData::Number(1).as_string_array(),
        Err(DeserError::DataConvertFailed("could not build StringArray from Number(1)".to_string()))
    );
}

#[test]
fn as_number_array_keeps_the_numbers() {
    let list = LingoData::Array(vec![number(4), text("a"), number(-5)]);
    assert_eq!(list.as_number_array(), Ok(vec![4, -5]));
}

#[test]
fn as_number_array_refuses_what_is_no_list() {
    assert_eq!(
        LingoData::Point(vec![1]).as_number_array(),
        Err(DeserError::DataConvertFailed(
            "could not build NumberArray from Point([1])".to_string()
        ))
    );
}

#[test]
fn as_tilecell_array_keeps_the_known_cells() {
    let list = LingoData::Array(vec![number(1), number(0), number(8), text("x"), number(-1), number(9)]);
    assert_eq!(
        list.as_tilecell_array(),
        Ok(vec![TileCell::Wall, TileCell::Air, TileCell::Any, TileCell::Glass])
    );
}

#[test]
fn as_tilecell_array_refuses_what_is_no_list() {
    assert_eq!(
        LingoData::InvalidOrNull("NULL".to_string()).as_tilecell_array(),
        Err(DeserError::DataConvertFailed(
            "could not build tilecellArray from InvalidOrNull(\"NULL\")".to_string()
        ))
    );
}

#[test]
fn as_null_if_zero_turns_zero_into_null() {
    assert_eq!(
        LingoData::Number(0).as_null_if_zero(),
        LingoData::InvalidOrNull("NULL".to_string())
    );
}

#[test]
fn as_null_if_zero_keeps_everything_else() {
    assert_eq!(LingoData::Number(5).as_null_if_zero(), LingoData::Number(5));
    assert_eq!(
        LingoData::String("x".to_string()).as_null_if_zero(),
        LingoData::String("x".to_string())
    );
    assert_eq!(LingoData::Point(vec![0]).as_null_if_zero(), LingoData::Point(vec![0]));
    assert_eq!(
        LingoData::Array(vec![number(0)]).as_null_if_zero(),
        LingoData::Array(vec![number(0)])
    );
}

#[test]
fn values_compare_and_clone_by_content() {
    let list = LingoData::Array(vec![number(1), text("a"), Box::new(LingoData::Point(vec![2]))]);
    assert_eq!(list.clone(), list);
    assert_ne!(list, LingoData::Array(vec![number(1), text("a")]));
    assert_ne!(LingoData::String("a".to_string()), LingoData::InvalidOrNull("a".to_string()));
}

#[test]
fn tile_cells_come_from_their_codes() {
    assert_eq!(TileCell::from_number(-1), Ok(TileCell::Any));
    assert_eq!(TileCell::from_number(0), Ok(TileCell::Air));
    assert_eq!(TileCell::from_number(1), Ok(TileCell::Wall));
    assert_eq!(TileCell::from_number(2), Ok(TileCell::SlopeBottomLeft));
    assert_eq!(TileCell::from_number(3), Ok(TileCell::SlopeBottomRight));
    assert_eq!(TileCell::from_number(4), Ok(TileCell::SlopeTopLeft));
    assert_eq!(TileCell::from_number(5), Ok(TileCell::SlopeTopRight));
    assert_eq!(TileCell::from_number(6), Ok(TileCell::Floor));
    assert_eq!(TileCell::from_number(7), Ok(TileCell::Entrance));
    assert_eq!(TileCell::from_number(9), Ok(TileCell::Glass));
}

#[test]
fn unknown_cell_codes_are_invalid_values() {
    assert_eq!(TileCell::from_number(8), Err(DeserError::InvalidValue("8".to_string())));
    assert_eq!(TileCell::from_number(-2), Err(DeserError::InvalidValue("-2".to_string())));
    assert_eq!(
        TileCell::from_number(i32::MIN),
        Err(DeserError::InvalidValue("-2147483648".to_string()))
    );
}

#[test]
fn tile_types_come_from_their_names() {
    assert_eq!(TileType::from_string("voxelStruct"), Ok(TileType::VoxelStruct));
    assert_eq!(TileType::from_string("voxelStructRockType"), Ok(TileType::VoxelStructRockType));
    assert_eq!(
        TileType::from_string("voxelStructRandomDisplaceHorizontal"),
        Ok(TileType::VoxelStructRandomDisplaceHorizontal)
    );
    assert_eq!(
        TileType::from_string("voxelStructRandomDisplaceVertical"),
        Ok(TileType::VoxelStructRandomDisplaceVertical)
    );
    assert_eq!(TileType::from_string("voxelStructSandType"), Ok(TileType::VoxelStructSandType));
    assert_eq!(TileType::from_string("box"), Ok(TileType::Box));
}

#[test]
fn unknown_tile_types_are_invalid_values() {
    assert_eq!(
        TileType::from_string("Box"),
        Err(DeserError::InvalidValue("Box".to_string()))
    );
    assert_eq!(TileType::from_string(""), Err(DeserError::InvalidValue(String::new())));
}

#[test]
fn parse_gives_a_value_for_every_text() {
    let samples = [
        "",
        " ",
        "\"",
        "[",
        "]",
        "[]",
        "[,]",
        "[[[[",
        "point(",
        "point()",
        "point(,)",
        "point(x)",
        "\"\"\"",
        "-",
        "+",
        "99999999999",
        "[\"a\", point(1,2), [3]]",
        "\u{3000}[1]\u{a0}",
    ];
    for s in samples {
        assert!(LingoData::parse(s).is_ok(), "sample {:?}", s);
    }
}

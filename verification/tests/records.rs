use tileman::error::DeserError;
use tileman::record::{
    line_is_blank, line_starts_with, parse_tile_info, parse_tile_info_multiple, properties_of,
    tile_of_properties,
};
use tileman::tile::{TileCell, TileInfo, TileType};

const STONE: &str = "[#nm:\"Small Stone\", #sz:point(1,1), #specs:[1], #specs2:0, #tp:\"voxelStruct\", #repeatL:[1, 1, 1, 1, 1, 1, 1, 1, 1, 1], #bfTiles:0, #rnd:1, #ptPos:0, #tags:[]]";

const PIPE: &str = "[#nm:\"Vertical Pipe\", #sz:point(2,3), #specs:[1, 0, -1, 6, 9, 8], #specs2:[0, 1, 0, 1, 0, 1], #tp:\"voxelStructRockType\", #bfTiles:1, #rnd:4, #ptPos:2, #tags:[\"notTrashProp\", \"nonSolid\"]]";

fn small_stone(active: bool) -> TileInfo {
    TileInfo {
        name: "Small Stone".to_string(),
        size: vec![1, 1],
        specs: vec![TileCell::Wall],
        specs2: None,
        tile_type: TileType::VoxelStruct,
        repeat_layers: Some(vec![1, 1, 1, 1, 1, 1, 1, 1, 1, 1]),
        buffer_tiles: 0,
        random_vars: Some(1),
        preview_pos: 0,
        tags: Vec::new(),
        active,
    }
}

fn vertical_pipe(active: bool) -> TileInfo {
    TileInfo {
        name: "Vertical Pipe".to_string(),
        size: vec![2, 3],
        specs: vec![
            TileCell::Wall,
            TileCell::Air,
            TileCell::Any,
            TileCell::Floor,
            TileCell::Glass,
        ],
        specs2: Some(vec![
            TileCell::Air,
            TileCell::Wall,
            TileCell::Air,
            TileCell::Wall,
            TileCell::Air,
            TileCell::Wall,
        ]),
        tile_type: TileType::VoxelStructRockType,
        repeat_layers: None,
        buffer_tiles: 1,
        random_vars: Some(4),
        preview_pos: 2,
        tags: vec!["notTrashProp".to_string(), "nonSolid".to_string()],
        active,
    }
}

fn pairs(items: &[(&str, &str)]) -> Vec<(String, String)> {
    items.iter().map(|(k, v)| (k.to_string(), v.to_string())).collect()
}

fn mismatch(key: &str, expected: &str, got: &str) -> DeserError {
    DeserError::TypeMismatch {
        key: key.to_string(),
        expected: expected.to_string(),
        got: got.to_string(),
    }
}

#[test]
fn a_tile_record_reads_into_a_tile() {
    assert_eq!(parse_tile_info(STONE, true), Ok(small_stone(true)));
}

#[test]
fn a_tile_record_with_every_property_reads_into_a_tile() {
    assert_eq!(parse_tile_info(PIPE, false), Ok(vertical_pipe(false)));
}

#[test]
fn the_flag_decides_whether_a_tile_is_active() {
    assert_eq!(parse_tile_info(STONE, false).map(|t| t.active), Ok(false));
    assert_eq!(parse_tile_info(STONE, true).map(|t| t.active), Ok(true));
}

#[test]
fn the_last_of_two_equal_keys_wins() {
    let line = "#nm:\"first\" #nm:\"second\" #sz:point(1,1) #specs:[1] #tp:\"box\" #bfTiles:0 #ptPos:0";
    assert_eq!(parse_tile_info(line, true).map(|t| t.name), Ok("second".to_string()));
}

#[test]
fn a_record_without_name_is_a_type_mismatch() {
    let line = "[#sz:point(1,1), #specs:[1], #tp:\"box\", #bfTiles:0, #ptPos:0]";
    assert_eq!(
        parse_tile_info(line, true),
        Err(mismatch("nm", "String", "InvalidOrNull(\"WARNING: MISSING ITEM nm\")"))
    );
}

#[test]
fn an_empty_line_lacks_the_name_first() {
    assert_eq!(
        parse_tile_info("", true),
        Err(mismatch("nm", "String", "InvalidOrNull(\"WARNING: MISSING ITEM nm\")"))
    );
}

#[test]
fn the_first_required_property_that_fails_gives_the_error() {
    let props = pairs(&[("nm", "\"a\""), ("sz", "5"), ("tp", "7")]);
    assert_eq!(tile_of_properties(&props, true), Err(mismatch("sz", "Point", "Number(5)")));
    let props = pairs(&[("nm", "\"a\""), ("sz", "point(1,1)"), ("specs", "\"x\""), ("tp", "7")]);
    assert_eq!(tile_of_properties(&props, true), Err(mismatch("specs", "Array", "String(\"x\")")));
    let props = pairs(&[("nm", "\"a\""), ("sz", "point(1,1)"), ("specs", "[1]"), ("tp", "7")]);
    assert_eq!(tile_of_properties(&props, true), Err(mismatch("tp", "String", "Number(7)")));
    let props = pairs(&[
        ("nm", "\"a\""),
        ("sz", "point(1,1)"),
        ("specs", "[1]"),
        ("tp", "\"box\""),
        ("bfTiles", "\"1\""),
    ]);
    assert_eq!(
        tile_of_properties(&props, true),
        Err(mismatch("bfTiles", "Number", "String(\"1\")"))
    );
    let props = pairs(&[
        ("nm", "\"a\""),
        ("sz", "point(1,1)"),
        ("specs", "[1]"),
        ("tp", "\"box\""),
        ("bfTiles", "1"),
    ]);
    assert_eq!(
        tile_of_properties(&props, true),
        Err(mismatch("ptPos", "Number", "InvalidOrNull(\"WARNING: MISSING ITEM ptPos\")"))
    );
}

#[test]
fn an_unknown_tile_type_is_an_invalid_value() {
    let props = pairs(&[
        ("nm", "\"a\""),
        ("sz", "point(1,1)"),
        ("specs", "[1]"),
        ("tp", "\"sphere\""),
        ("bfTiles", "1"),
        ("ptPos", "1"),
    ]);
    assert_eq!(
        tile_of_properties(&props, true),
        Err(DeserError::InvalidValue("sphere".to_string()))
    );
}

#[test]
fn optional_properties_of_another_kind_are_absent() {
    let props = pairs(&[
        ("nm", "\"a\""),
        ("sz", "point(3)"),
        ("specs", "[1, 77]"),
        ("specs2", "\"none\""),
        ("tp", "\"box\""),
        ("repeatL", "3"),
        ("bfTiles", "-4"),
        ("rnd", "\"x\""),
        ("ptPos", "2"),
        ("tags", "12"),
    ]);
    assert_eq!(
        tile_of_properties(&props, false),
        Ok(TileInfo {
            name: "a".to_string(),
            size: vec![3],
            specs: vec![TileCell::Wall],
            specs2: None,
            tile_type: TileType::Box,
            repeat_layers: None,
            buffer_tiles: -4,
            random_vars: None,
            preview_pos: 2,
            tags: Vec::new(),
            active: false,
        })
    );
}

#[test]
fn properties_come_from_the_first_two_groups() {
    let found = vec![
        vec![Some("#a:1".to_string()), Some("a".to_string()), Some("1".to_string())],
        vec![Some("x".to_string()), None, Some("1".to_string())],
        vec![Some("x".to_string()), Some("k".to_string())],
        vec![
            Some("#b:[2]".to_string()),
            Some("b".to_string()),
            Some("[2]".to_string()),
            Some("2".to_string()),
        ],
    ];
    assert_eq!(properties_of(&found), pairs(&[("a", "1"), ("b", "[2]")]));
}

#[test]
fn every_record_of_a_text_is_read() {
    let text = format!("-[\"Stone\", color(1,2,3)]\n{}\n\n   \n-- a comment\nnot a tile\n{}\n", STONE, PIPE);
    let (tiles, errors) = parse_tile_info_multiple(&text).unwrap();
    assert_eq!(tiles, vec![small_stone(false), vertical_pipe(false)]);
    assert_eq!(
        errors,
        vec![(
            "not a tile".to_string(),
            mismatch("nm", "String", "InvalidOrNull(\"WARNING: MISSING ITEM nm\")")
        )]
    );
}

#[test]
fn a_text_without_records_gives_nothing() {
    assert_eq!(parse_tile_info_multiple(""), Ok((Vec::new(), Vec::new())));
    assert_eq!(parse_tile_info_multiple("-x\n-\n \n"), Ok((Vec::new(), Vec::new())));
}

#[test]
fn blank_lines_hold_white_space_only() {
    assert!(line_is_blank(""));
    assert!(line_is_blank(" \t\u{3000}"));
    assert!(!line_is_blank(" . "));
}

#[test]
fn a_line_starts_with_its_prefix() {
    assert!(line_starts_with("--x", "--"));
    assert!(line_starts_with("-[", "-["));
    assert!(!line_starts_with(" --x", "--"));
    assert!(!line_starts_with("-", "--"));
}

#[test]
fn tiles_compare_and_clone_by_content() {
    let tile = vertical_pipe(true);
    assert_eq!(tile.clone(), tile);
    assert_ne!(tile, vertical_pipe(false));
    let mut other = vertical_pipe(true);
    other.tags.push("x".to_string());
    assert_ne!(tile, other);
    let mut other = vertical_pipe(true);
    other.specs2 = None;
    assert_ne!(tile, other);
}

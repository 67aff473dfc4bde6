use tileman::category::TileCategory;
use tileman::error::DeserError;
use tileman::header::{category_of, color_of_parts, ordinal_of_marker, parse_category_header};

fn strings(parts: &[&str]) -> Vec<String> {
    parts.iter().map(|p| p.to_string()).collect()
}

fn category(name: &str, color: [u8; 3], index: usize) -> TileCategory {
    TileCategory {
        name: name.to_string(),
        color,
        index,
        tiles: Vec::new(),
        subfolder: None,
        enabled: true,
    }
}

#[test]
fn a_header_gives_name_colour_and_ordinal() {
    assert_eq!(
        parse_category_header("-[\"Pipes\", color(10,20,30)--CATEGORY_INDEX:2"),
        Ok(category("Pipes", [10, 20, 30], 2))
    );
}

#[test]
fn a_header_without_marker_has_no_ordinal() {
    assert_eq!(
        parse_category_header("-[\"Machinery\", color(255, 0, 255)]"),
        Ok(category("Machinery", [255, 0, 255], 0))
    );
}

#[test]
fn the_marker_counts_at_the_end_of_the_line_only() {
    assert_eq!(
        parse_category_header("-[\"A\", color(1,2,3)]--CATEGORY_INDEX:7 "),
        Ok(category("A", [1, 2, 3], 0))
    );
    assert_eq!(
        parse_category_header("-[\"A\", color(1,2,3)]  --CATEGORY_INDEX:7"),
        Ok(category("A", [1, 2, 3], 7))
    );
}

#[test]
fn a_marker_too_large_for_an_ordinal_leaves_it_unset() {
    assert_eq!(
        parse_category_header("-[\"A\", color(1,2,3)]--CATEGORY_INDEX:99999999999999999999999999"),
        Ok(category("A", [1, 2, 3], 0))
    );
}

#[test]
fn channels_beyond_three_are_ignored_and_missing_ones_are_zero() {
    assert_eq!(
        parse_category_header("-[\"A\", color(1,2,3,4,5)]"),
        Ok(category("A", [1, 2, 3], 0))
    );
    assert_eq!(parse_category_header("-[\"A\", color(9)]"), Ok(category("A", [9, 0, 0], 0)));
    assert_eq!(parse_category_header("-[\"A\", color(x)]"), Ok(category("A", [0, 0, 0], 0)));
}

#[test]
fn channels_that_are_no_bytes_are_left_out() {
    assert_eq!(
        parse_category_header("-[\"A\", color(300, 1, -2, 2)]"),
        Ok(category("A", [1, 2, 0], 0))
    );
    assert_eq!(
        parse_category_header("-[\"A\", color( 7,8,9 )]"),
        Ok(category("A", [8, 0, 0], 0))
    );
}

#[test]
fn a_line_that_is_no_header_is_refused() {
    assert_eq!(parse_category_header("-[Pipes, color(10,20,30)]"), Err(DeserError::Todo));
    assert_eq!(parse_category_header("-[\"Pipes\" color(10,20,30)]"), Err(DeserError::Todo));
    assert_eq!(parse_category_header("-[\"Pipes\", colour(10,20,30)]"), Err(DeserError::Todo));
    assert_eq!(parse_category_header("-[\"\", color(1,2,3)]"), Err(DeserError::Todo));
    assert_eq!(parse_category_header(""), Err(DeserError::Todo));
}

#[test]
fn a_colour_comes_from_the_first_three_bytes() {
    assert_eq!(color_of_parts(&strings(&["1", "2", "3"]), 0), [1, 2, 3]);
    assert_eq!(color_of_parts(&strings(&["1", "x", "3", "256", "4"]), 0), [1, 3, 4]);
    assert_eq!(color_of_parts(&strings(&[]), 255), [255, 0, 0]);
    assert_eq!(color_of_parts(&strings(&["7"]), 255), [7, 0, 0]);
    assert_eq!(color_of_parts(&strings(&[" 7"]), 9), [9, 0, 0]);
}

#[test]
fn an_ordinal_comes_from_the_first_group_of_a_marker() {
    let groups = vec![Some("--CATEGORY_INDEX:12".to_string()), Some("12".to_string())];
    assert_eq!(ordinal_of_marker(&groups, 0), 12);
    let groups = vec![Some("x".to_string()), Some("x".to_string())];
    assert_eq!(ordinal_of_marker(&groups, 1), 1);
    let groups = vec![Some("x".to_string()), None];
    assert_eq!(ordinal_of_marker(&groups, 3), 3);
    let groups = vec![Some("x".to_string())];
    assert_eq!(ordinal_of_marker(&groups, 4), 4);
}

#[test]
fn a_category_comes_from_what_the_searches_found() {
    let marker = Some(vec![Some("--CATEGORY_INDEX:5".to_string()), Some("5".to_string())]);
    assert_eq!(
        category_of("Stone".to_string(), &strings(&["1", "2", "3"]), &marker),
        category("Stone", [1, 2, 3], 5)
    );
    assert_eq!(
        category_of("Stone".to_string(), &strings(&["1"]), &None),
        category("Stone", [1, 0, 0], 0)
    );
}

#[test]
fn a_new_category_is_empty_and_enabled() {
    assert_eq!(
        TileCategory::new_main("X".to_string(), [4, 5, 6], 3),
        category("X", [4, 5, 6], 3)
    );
}

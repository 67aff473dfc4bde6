use tileman::category::{TileCategory, TileInit};
use tileman::document::{add_tile, adopt, parse_tile_init, set_positions, unmatched_of, Scan};
use tileman::error::DeserError;
use tileman::record::parse_tile_info;
use tileman::tile::TileInfo;

fn record(name: &str) -> String {
    format!(
        "[#nm:\"{}\", #sz:point(1,1), #specs:[1], #specs2:0, #tp:\"voxelStruct\", #bfTiles:0, #rnd:1, #ptPos:0, #tags:[]]",
        name
    )
}

fn tile(name: &str) -> TileInfo {
    parse_tile_info(&record(name), true).unwrap()
}

fn category(name: &str, color: [u8; 3], index: usize, tiles: Vec<TileInfo>) -> TileCategory {
    TileCategory { name: name.to_string(), color, index, tiles, subfolder: None, enabled: true }
}

fn from_subfolder(name: &str, path: &str, index: usize, tiles: Vec<TileInfo>) -> TileCategory {
    TileCategory {
        name: name.to_string(),
        color: [255, 0, 0],
        index,
        tiles,
        subfolder: Some(path.to_string()),
        enabled: false,
    }
}

fn read(text: &str, additional: Vec<TileCategory>) -> TileInit {
    parse_tile_init(text.to_string(), additional, "root".to_string()).unwrap()
}

fn ordinals(init: &TileInit) -> Vec<usize> {
    init.categories.iter().map(|c| c.index).collect()
}

fn names(init: &TileInit) -> Vec<String> {
    init.categories.iter().map(|c| c.name.clone()).collect()
}

#[test]
fn one_header_and_two_records_give_one_category_with_two_tiles() {
    let text = format!("-[\"Stone\", color(1,2,3)]\n{}\n{}\n", record("a"), record("b"));
    let init = read(&text, Vec::new());
    assert_eq!(init.root, "root");
    assert_eq!(init.categories, vec![category("Stone", [1, 2, 3], 0, vec![tile("a"), tile("b")])]);
    assert_eq!(init.errored_lines, Vec::new());
}

#[test]
fn comments_and_blank_lines_are_passed_over() {
    let text = format!(
        "-- tiles\n\n-[\"Stone\", color(1,2,3)]\r\n   \n--{}\n{}\r\n",
        record("hidden"),
        record("a")
    );
    let init = read(&text, Vec::new());
    assert_eq!(init.categories, vec![category("Stone", [1, 2, 3], 0, vec![tile("a")])]);
    assert_eq!(init.errored_lines, Vec::new());
}

#[test]
fn a_record_before_any_header_is_dropped() {
    let with = format!("{}\n-[\"Stone\", color(1,2,3)]\n{}\n", record("early"), record("a"));
    let without = format!("-[\"Stone\", color(1,2,3)]\n{}\n", record("a"));
    let init = read(&with, Vec::new());
    assert_eq!(init.categories, read(&without, Vec::new()).categories);
    assert_eq!(init.categories, vec![category("Stone", [1, 2, 3], 0, vec![tile("a")])]);
    assert_eq!(init.errored_lines, Vec::new());
}

#[test]
fn a_document_without_header_gives_no_category() {
    let text = format!("{}\n{}\nbroken\n", record("a"), record("b"));
    let additional = vec![from_subfolder("Extra", "root/Extra", 3, vec![tile("x")])];
    let init = read(&text, additional);
    assert_eq!(init.categories, Vec::new());
    assert_eq!(init.errored_lines.len(), 1);
    assert_eq!(init.errored_lines[0].0, "broken");
    assert_eq!(init.root, "root");
}

#[test]
fn an_empty_document_gives_nothing() {
    let init = read("", Vec::new());
    assert_eq!(init.categories, Vec::new());
    assert_eq!(init.errored_lines, Vec::new());
}

#[test]
fn a_header_that_does_not_read_is_kept_with_its_error() {
    let text = format!(
        "-[\"Stone\", color(1,2,3)]\n{}\n-[broken header\n{}\n",
        record("a"),
        record("b")
    );
    let init = read(&text, Vec::new());
    assert_eq!(init.categories, vec![category("Stone", [1, 2, 3], 0, vec![tile("a"), tile("b")])]);
    assert_eq!(init.errored_lines, vec![("-[broken header".to_string(), DeserError::Todo)]);
}

#[test]
fn a_record_that_does_not_read_is_kept_with_its_error() {
    let text = format!("-[\"Stone\", color(1,2,3)]\nnonsense\n{}\n", record("a"));
    let init = read(&text, Vec::new());
    assert_eq!(init.categories, vec![category("Stone", [1, 2, 3], 0, vec![tile("a")])]);
    assert_eq!(
        init.errored_lines,
        vec![(
            "nonsense".to_string(),
            DeserError::TypeMismatch {
                key: "nm".to_string(),
                expected: "String".to_string(),
                got: "InvalidOrNull(\"WARNING: MISSING ITEM nm\")".to_string(),
            }
        )]
    );
}

#[test]
fn an_equal_record_is_not_added_twice() {
    let text = format!(
        "-[\"Stone\", color(1,2,3)]\n{}\n{}\n{}\n",
        record("a"),
        record("b"),
        record("a")
    );
    let init = read(&text, Vec::new());
    assert_eq!(init.categories, vec![category("Stone", [1, 2, 3], 0, vec![tile("a"), tile("b")])]);
}

#[test]
fn reading_twice_gives_the_same() {
    let text = format!(
        "-[\"B\", color(1,2,3)--CATEGORY_INDEX:4\n{}\nbad\n-[\"A\", color(4,5,6)]\n{}\n",
        record("a"),
        record("b")
    );
    let additional = vec![from_subfolder("Extra", "root/Extra", 2, vec![tile("x")])];
    let first = read(&text, additional.clone());
    let second = read(&text, additional);
    assert_eq!(first.root, second.root);
    assert_eq!(first.categories, second.categories);
    assert_eq!(first.errored_lines, second.errored_lines);
}

#[test]
fn a_given_category_that_equals_a_header_is_not_added_again() {
    let text = "-[\"Stone\", color(1,2,3)]\n";
    let additional = vec![category("Stone", [1, 2, 3], 0, Vec::new())];
    let init = read(text, additional);
    assert_eq!(init.categories, vec![category("Stone", [1, 2, 3], 0, Vec::new())]);
}

#[test]
fn a_given_category_that_equals_no_header_comes_behind() {
    let text = format!("-[\"Stone\", color(1,2,3)]\n{}\n", record("a"));
    let extra = from_subfolder("Stone", "root/Stone", 0, vec![tile("x"), tile("y"), tile("z")]);
    let init = read(&text, vec![extra.clone()]);
    let mut moved = extra;
    moved.index = 1;
    assert_eq!(
        init.categories,
        vec![category("Stone", [1, 2, 3], 0, vec![tile("a")]), moved]
    );
}

#[test]
fn adopt_takes_subfolder_and_tiles_from_the_equal_category() {
    let header = category("Stone", [1, 2, 3], 0, Vec::new());
    let others = vec![
        category("Stone", [1, 2, 4], 0, Vec::new()),
        from_subfolder("Stone", "p", 0, vec![tile("x")]),
        category("Stone", [1, 2, 3], 0, Vec::new()),
    ];
    assert_eq!(adopt(header.clone(), &others), header);
    assert_eq!(adopt(header.clone(), &Vec::new()), header);
}

#[test]
fn ordinals_that_are_not_set_become_positions() {
    let text = "-[\"A\", color(1,1,1)]\n-[\"B\", color(2,2,2)]--CATEGORY_INDEX:5\n-[\"C\", color(3,3,3)]\n";
    let init = read(text, Vec::new());
    assert_eq!(names(&init), vec!["A".to_string(), "C".to_string(), "B".to_string()]);
    assert_eq!(ordinals(&init), vec![0, 2, 5]);
}

#[test]
fn ordinals_that_are_set_and_differ_stay() {
    let text = "-[\"A\", color(1,1,1)]--CATEGORY_INDEX:7\n-[\"B\", color(2,2,2)]--CATEGORY_INDEX:5\n";
    let init = read(text, Vec::new());
    assert_eq!(names(&init), vec!["B".to_string(), "A".to_string()]);
    assert_eq!(ordinals(&init), vec![5, 7]);
}

#[test]
fn a_header_keeps_its_ordinal() {
    let init = read("-[\"A\", color(1,1,1)]--CATEGORY_INDEX:12\n", Vec::new());
    assert_eq!(init.categories, vec![category("A", [1, 1, 1], 12, Vec::new())]);
}

#[test]
fn set_positions_fills_the_ordinals_that_are_not_set() {
    let mut categories = vec![
        category("A", [0, 0, 0], 0, Vec::new()),
        category("B", [0, 0, 0], 5, Vec::new()),
        category("C", [0, 0, 0], 0, Vec::new()),
    ];
    set_positions(&mut categories);
    let got: Vec<usize> = categories.iter().map(|c| c.index).collect();
    assert_eq!(got, vec![0, 5, 2]);
}

#[test]
fn categories_come_in_the_order_of_their_ordinals() {
    let text = "-[\"A\", color(1,1,1)]--CATEGORY_INDEX:9\n-[\"B\", color(2,2,2)]--CATEGORY_INDEX:3\n-[\"C\", color(3,3,3)]--CATEGORY_INDEX:9\n-[\"D\", color(4,4,4)]--CATEGORY_INDEX:1\n";
    let additional = vec![from_subfolder("E", "root/E", 3, Vec::new())];
    let init = read(text, additional);
    assert_eq!(
        names(&init),
        vec!["D".to_string(), "B".to_string(), "E".to_string(), "A".to_string(), "C".to_string()]
    );
    assert_eq!(ordinals(&init), vec![1, 3, 4, 9, 10]);
}

#[test]
fn sorting_twice_changes_nothing() {
    let mut init = TileInit {
        root: "r".to_string(),
        categories: vec![
            category("A", [0, 0, 0], 7, Vec::new()),
            category("B", [0, 0, 0], 7, Vec::new()),
            category("C", [0, 0, 0], 2, vec![tile("a")]),
        ],
        errored_lines: vec![("x".to_string(), DeserError::MissingValue)],
    };
    init.sort_and_normalize_categories();
    assert_eq!(names(&init), vec!["C".to_string(), "A".to_string(), "B".to_string()]);
    assert_eq!(ordinals(&init), vec![2, 7, 8]);
    assert_eq!(init.categories[0].tiles, vec![tile("a")]);
    let once = init.categories.clone();
    init.sort_and_normalize_categories();
    assert_eq!(init.categories, once);
    assert_eq!(init.root, "r");
    assert_eq!(init.errored_lines, vec![("x".to_string(), DeserError::MissingValue)]);
}

#[test]
fn add_tile_appends_or_replaces() {
    let mut stone = category("Stone", [1, 2, 3], 0, vec![tile("a"), tile("b")]);
    add_tile(&mut stone, tile("a"));
    assert_eq!(stone.tiles, vec![tile("a"), tile("b")]);
    add_tile(&mut stone, tile("c"));
    assert_eq!(stone.tiles, vec![tile("a"), tile("b"), tile("c")]);
}

#[test]
fn unmatched_of_keeps_what_is_not_present() {
    let present = vec![category("A", [0, 0, 0], 1, Vec::new())];
    let given = vec![
        category("B", [0, 0, 0], 1, Vec::new()),
        category("A", [0, 0, 0], 1, Vec::new()),
        category("B", [0, 0, 0], 1, Vec::new()),
        category("A", [0, 0, 0], 2, Vec::new()),
    ];
    assert_eq!(
        unmatched_of(&given, &present),
        vec![
            category("B", [0, 0, 0], 1, Vec::new()),
            category("B", [0, 0, 0], 1, Vec::new()),
            category("A", [0, 0, 0], 2, Vec::new()),
        ]
    );
}

#[test]
fn a_scan_takes_one_line_at_a_time() {
    let mut scan = Scan::new();
    scan.step(&record("early"), &Vec::new());
    assert_eq!(scan.current, None);
    scan.step("-[\"A\", color(1,1,1)]", &Vec::new());
    scan.step(&record("a"), &Vec::new());
    assert_eq!(scan.current, Some(category("A", [1, 1, 1], 0, vec![tile("a")])));
    assert_eq!(scan.finished, Vec::new());
    scan.step("-[broken", &Vec::new());
    assert_eq!(scan.current, Some(category("A", [1, 1, 1], 0, vec![tile("a")])));
    assert_eq!(scan.errors, vec![("-[broken".to_string(), DeserError::Todo)]);
    scan.step("-[\"B\", color(2,2,2)]", &Vec::new());
    assert_eq!(scan.finished, vec![category("A", [1, 1, 1], 0, vec![tile("a")])]);
    assert_eq!(scan.current, Some(category("B", [2, 2, 2], 0, Vec::new())));
    let init = scan.gather(&Vec::new(), "root".to_string());
    assert_eq!(names(&init), vec!["A".to_string(), "B".to_string()]);
    assert_eq!(ordinals(&init), vec![0, 1]);
}

#[test]
fn the_default_document_is_empty() {
    let init = TileInit::default();
    assert_eq!(init.root, "");
    assert_eq!(init.categories, Vec::new());
    assert_eq!(init.errored_lines, Vec::new());
}

#[test]
fn categories_compare_and_clone_by_content() {
    let one = from_subfolder("A", "root/A", 2, vec![tile("a"), tile("b")]);
    assert_eq!(one.clone(), one);
    let mut other = one.clone();
    other.subfolder = None;
    assert_ne!(one, other);
    let mut other = one.clone();
    other.tiles.pop();
    assert_ne!(one, other);
    let mut other = one.clone();
    other.color = [255, 0, 1];
    assert_ne!(one, other);
    let mut other = one.clone();
    other.enabled = true;
    assert_ne!(one, other);
}

#[test]
fn errors_compare_and_clone_by_content() {
    let all = vec![
        DeserError::RegexMatchFailed("a".to_string()),
        DeserError::ContentsNotParsed("a".to_string()),
        DeserError::DataConvertFailed("a".to_string()),
        DeserError::TypeMismatch {
            key: "k".to_string(),
            expected: "e".to_string(),
            got: "g".to_string(),
        },
        DeserError::InvalidValue("a".to_string()),
        DeserError::NoCategory(tile("a")),
        DeserError::IOError,
        DeserError::MissingFile,
        DeserError::MissingValue,
        DeserError::Todo,
    ];
    for (i, a) in all.iter().enumerate() {
        for (j, b) in all.iter().enumerate() {
            assert_eq!(a == b, i == j);
        }
        assert_eq!(&a.clone(), a);
    }
    assert_ne!(
        DeserError::InvalidValue("a".to_string()),
        DeserError::InvalidValue("b".to_string())
    );
}

#[test]
fn ordinals_without_room_become_positions() {
    let mut init = TileInit {
        root: String::new(),
        categories: vec![
            category("A", [0, 0, 0], usize::MAX, Vec::new()),
            category("B", [0, 0, 0], 3, Vec::new()),
            category("C", [0, 0, 0], usize::MAX, Vec::new()),
        ],
        errored_lines: Vec::new(),
    };
    init.sort_and_normalize_categories();
    assert_eq!(names(&init), vec!["B".to_string(), "A".to_string(), "C".to_string()]);
    assert_eq!(ordinals(&init), vec![0, 1, 2]);
}

#[test]
fn equal_ordinals_are_spread_out() {
    let mut init = TileInit {
        root: String::new(),
        categories: vec![
            category("A", [0, 0, 0], 9, Vec::new()),
            category("B", [0, 0, 0], 4, Vec::new()),
            category("C", [0, 0, 0], 5, Vec::new()),
            category("D", [0, 0, 0], 4, Vec::new()),
        ],
        errored_lines: Vec::new(),
    };
    init.sort_and_normalize_categories();
    assert_eq!(
        names(&init),
        vec!["B".to_string(), "D".to_string(), "C".to_string(), "A".to_string()]
    );
    assert_eq!(ordinals(&init), vec![4, 5, 6, 9]);
}

#[test]
fn ordinals_just_below_the_limit_without_room_become_positions() {
    let mut init = TileInit {
        root: String::new(),
        categories: vec![
            category("A", [0, 0, 0], usize::MAX - 1, Vec::new()),
            category("B", [0, 0, 0], usize::MAX - 1, Vec::new()),
            category("C", [0, 0, 0], usize::MAX - 1, Vec::new()),
        ],
        errored_lines: Vec::new(),
    };
    init.sort_and_normalize_categories();
    assert_eq!(ordinals(&init), vec![0, 1, 2]);
    let mut init = TileInit {
        root: String::new(),
        categories: vec![
            category("A", [0, 0, 0], usize::MAX - 1, Vec::new()),
            category("B", [0, 0, 0], usize::MAX - 1, Vec::new()),
        ],
        errored_lines: Vec::new(),
    };
    init.sort_and_normalize_categories();
    assert_eq!(ordinals(&init), vec![usize::MAX - 1, usize::MAX]);
}

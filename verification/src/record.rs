//! Tile records: one line of a document, read into a tile definition.

use crate::error::{DeserError, DeserErrorReports, DeserErrorView};
use crate::pattern::{captures_iter, regex_captures_iter, PROPERTY};
use crate::text::{chars_of, lines, lines_of, same_text, starts_with, trim, trimmed};
use crate::tile::{seq_of, tile_type_of, TileCell, TileInfo, TileInfoView, TileType};
use crate::value::{
    cells_of, debug_text, null_if_zero, numbers_in, parse_text, render, texts_in, LingoData,
    LingoValue,
};
use vstd::prelude::*;
use vstd::string::*;

verus! {

/// The group `i` of a match, where the match has such a group and the group
/// took part in it.
pub open spec fn group(groups: Seq<Option<Seq<char>>>, i: int) -> Option<Seq<char>> {
    if 0 <= i < groups.len() {
        groups[i]
    } else {
        None
    }
}

/// The key and the raw value of each match, in order: its first and second
/// group. A match that lacks one of them gives no pair.
pub open spec fn property_pairs(found: Seq<Seq<Option<Seq<char>>>>) -> Seq<(Seq<char>, Seq<char>)>
    decreases found.len(),
{
    if found.len() == 0 {
        Seq::empty()
    } else {
        let rest = property_pairs(found.drop_last());
        match (group(found.last(), 1), group(found.last(), 2)) {
            (Some(key), Some(value)) => rest.push((key, value)),
            _ => rest,
        }
    }
}

/// The raw value of `key`: that of the last pair with this key.
pub open spec fn lookup(props: Seq<(Seq<char>, Seq<char>)>, key: Seq<char>) -> Option<Seq<char>>
    decreases props.len(),
{
    if props.len() == 0 {
        None
    } else if props.last().0 == key {
        Some(props.last().1)
    } else {
        lookup(props.drop_last(), key)
    }
}

/// The text that is read for `key`: its raw value, or a placeholder that
/// names the key where the record has no such property.
pub open spec fn raw_value(props: Seq<(Seq<char>, Seq<char>)>, key: Seq<char>) -> Seq<char> {
    match lookup(props, key) {
        Some(raw) => raw,
        None => "WARNING: MISSING ITEM "@ + key,
    }
}

/// The value of `key`.
pub open spec fn value_at(props: Seq<(Seq<char>, Seq<char>)>, key: Seq<char>) -> LingoValue {
    parse_text(raw_value(props, key))
}

/// The error for a value of `key` that is not of the `expected` kind.
pub open spec fn mismatch(
    key: Seq<char>,
    expected: Seq<char>,
    value: LingoValue,
) -> DeserErrorView {
    DeserErrorView::TypeMismatch { key, expected, got: debug_text(value) }
}

/// The text that `key` must hold.
pub open spec fn text_at(props: Seq<(Seq<char>, Seq<char>)>, key: Seq<char>) -> Result<
    Seq<char>,
    DeserErrorView,
> {
    match value_at(props, key) {
        LingoValue::String(s) => Ok(s),
        value => Err(mismatch(key, "String"@, value)),
    }
}

/// The number that `key` must hold.
pub open spec fn number_at(props: Seq<(Seq<char>, Seq<char>)>, key: Seq<char>) -> Result<
    i32,
    DeserErrorView,
> {
    match value_at(props, key) {
        LingoValue::Number(n) => Ok(n),
        value => Err(mismatch(key, "Number"@, value)),
    }
}

/// The point that `key` must hold.
pub open spec fn point_at(props: Seq<(Seq<char>, Seq<char>)>, key: Seq<char>) -> Result<
    Seq<i32>,
    DeserErrorView,
> {
    match value_at(props, key) {
        LingoValue::Point(p) => Ok(p),
        value => Err(mismatch(key, "Point"@, value)),
    }
}

/// The cells of the list that `key` must hold.
pub open spec fn cells_at(props: Seq<(Seq<char>, Seq<char>)>, key: Seq<char>) -> Result<
    Seq<TileCell>,
    DeserErrorView,
> {
    match value_at(props, key) {
        LingoValue::Array(items) => Ok(cells_of(numbers_in(items))),
        value => Err(mismatch(key, "Array"@, value)),
    }
}

/// The cells of the list that `key` may hold: none where it holds the
/// number 0 or anything else that is no list.
pub open spec fn optional_cells_at(props: Seq<(Seq<char>, Seq<char>)>, key: Seq<char>) -> Option<
    Seq<TileCell>,
> {
    match null_if_zero(value_at(props, key)) {
        LingoValue::Array(items) => Some(cells_of(numbers_in(items))),
        _ => None,
    }
}

/// The numbers of the list that `key` may hold.
pub open spec fn optional_numbers_at(props: Seq<(Seq<char>, Seq<char>)>, key: Seq<char>) -> Option<
    Seq<i32>,
> {
    match value_at(props, key) {
        LingoValue::Array(items) => Some(numbers_in(items)),
        _ => None,
    }
}

/// The number that `key` may hold.
pub open spec fn optional_number_at(props: Seq<(Seq<char>, Seq<char>)>, key: Seq<char>) -> Option<
    i32,
> {
    match value_at(props, key) {
        LingoValue::Number(n) => Some(n),
        _ => None,
    }
}

/// The texts of the list that `key` holds; none where it holds no list.
pub open spec fn texts_at(props: Seq<(Seq<char>, Seq<char>)>, key: Seq<char>) -> Seq<Seq<char>> {
    match value_at(props, key) {
        LingoValue::Array(items) => texts_in(items),
        _ => Seq::empty(),
    }
}

/// The tile type that `key` must name.
pub open spec fn type_at(props: Seq<(Seq<char>, Seq<char>)>, key: Seq<char>) -> Result<
    TileType,
    DeserErrorView,
> {
    match text_at(props, key) {
        Ok(name) => match tile_type_of(name) {
            Some(tile_type) => Ok(tile_type),
            None => Err(DeserErrorView::InvalidValue(name)),
        },
        Err(e) => Err(e),
    }
}

/// The tile that the properties describe. `nm`, `sz`, `specs`, `tp`,
/// `bfTiles` and `ptPos` are required, and of one kind each: the error is
/// that of the first of them, in this order, that fails. `specs2`, `repeatL`
/// and `rnd` are absent where they are not of their kind, and `tags` is
/// empty. `active` is taken as it is given.
pub open spec fn tile_of(props: Seq<(Seq<char>, Seq<char>)>, active: bool) -> Result<
    TileInfoView,
    DeserErrorView,
> {
    let name = text_at(props, "nm"@);
    let size = point_at(props, "sz"@);
    let specs = cells_at(props, "specs"@);
    let tile_type = type_at(props, "tp"@);
    let buffer_tiles = number_at(props, "bfTiles"@);
    let preview_pos = number_at(props, "ptPos"@);
    if name is Err {
        Err(name->Err_0)
    } else if size is Err {
        Err(size->Err_0)
    } else if specs is Err {
        Err(specs->Err_0)
    } else if tile_type is Err {
        Err(tile_type->Err_0)
    } else if buffer_tiles is Err {
        Err(buffer_tiles->Err_0)
    } else if preview_pos is Err {
        Err(preview_pos->Err_0)
    } else {
        Ok(
            TileInfoView {
                name: name->Ok_0,
                size: size->Ok_0,
                specs: specs->Ok_0,
                specs2: optional_cells_at(props, "specs2"@),
                tile_type: tile_type->Ok_0,
                repeat_layers: optional_numbers_at(props, "repeatL"@),
                buffer_tiles: buffer_tiles->Ok_0,
                random_vars: optional_number_at(props, "rnd"@),
                preview_pos: preview_pos->Ok_0,
                tags: texts_at(props, "tags"@),
                active,
            },
        )
    }
}

/// Of two properties with the same key the later one counts.
pub proof fn lemma_last_key_wins(
    props: Seq<(Seq<char>, Seq<char>)>,
    key: Seq<char>,
    raw: Seq<char>,
    more: Seq<(Seq<char>, Seq<char>)>,
)
    requires
        forall|i: int| 0 <= i < more.len() ==> (#[trigger] more[i]).0 != key,
    ensures
        lookup(props.push((key, raw)) + more, key) == Some(raw),
    decreases more.len(),
{
    let all = props.push((key, raw)) + more;
    if more.len() == 0 {
        assert(all =~= props.push((key, raw)));
    } else {
        assert(all.last() == more.last());
        assert(all.drop_last() =~= props.push((key, raw)) + more.drop_last());
        lemma_last_key_wins(props, key, raw, more.drop_last());
    }
}

/// Whether a tile is active is what the caller says, and nothing else of the
/// tile, nor whether there is one, depends on it.
pub proof fn lemma_active_is_given(props: Seq<(Seq<char>, Seq<char>)>, active: bool)
    ensures
        tile_of(props, active) is Ok <==> tile_of(props, !active) is Ok,
        tile_of(props, active) is Ok ==> tile_of(props, active)->Ok_0 == (TileInfoView {
            active,
            ..tile_of(props, !active)->Ok_0
        }),
        tile_of(props, active) is Err ==> tile_of(props, active) == tile_of(props, !active),
{
}

/// The tile that `line` describes: that of the properties found in it.
/// `RegexMatchFailed`, with the pattern, where the pattern for a property is
/// refused.
pub open spec fn tile_of_line(line: Seq<char>, active: bool) -> Result<
    TileInfoView,
    DeserErrorView,
> {
    match regex_captures_iter(PROPERTY@, line) {
        Some(found) => tile_of(property_pairs(found), active),
        None => Err(DeserErrorView::RegexMatchFailed(PROPERTY@)),
    }
}

/// The view of what reading a tile returns.
pub open spec fn tile_read_view(r: Result<TileInfo, DeserError>) -> Result<
    TileInfoView,
    DeserErrorView,
> {
    match r {
        Ok(tile) => Ok(tile@),
        Err(e) => Err(e@),
    }
}

/// Whether `line` holds white space only.
pub open spec fn is_blank(line: Seq<char>) -> bool {
    trimmed(line).len() == 0
}

/// The tiles of the lines that describe one, in order: every line that is
/// neither blank nor begins with `-`, read as an inactive tile.
pub open spec fn tiles_of_lines(lines: Seq<Seq<char>>) -> Seq<TileInfoView>
    decreases lines.len(),
{
    if lines.len() == 0 {
        Seq::empty()
    } else {
        let rest = tiles_of_lines(lines.drop_last());
        let line = lines.last();
        if "-"@.is_prefix_of(line) || is_blank(line) {
            rest
        } else {
            match tile_of_line(line, false) {
                Ok(tile) => rest.push(tile),
                Err(_) => rest,
            }
        }
    }
}

/// The lines that should describe a tile and do not, each with its error, in
/// order.
pub open spec fn tile_errors_of_lines(lines: Seq<Seq<char>>) -> Seq<(Seq<char>, DeserErrorView)>
    decreases lines.len(),
{
    if lines.len() == 0 {
        Seq::empty()
    } else {
        let rest = tile_errors_of_lines(lines.drop_last());
        let line = lines.last();
        if "-"@.is_prefix_of(line) || is_blank(line) {
            rest
        } else {
            match tile_of_line(line, false) {
                Ok(_) => rest,
                Err(e) => rest.push((line, e)),
            }
        }
    }
}

/// Whether `line` holds white space only.
pub fn line_is_blank(line: &str) -> (r: bool)
    ensures
        r == is_blank(line@),
{
    trim(line).is_empty()
}

/// Whether `line` begins with `prefix`.
pub fn line_starts_with(line: &str, prefix: &str) -> (r: bool)
    ensures
        r == prefix@.is_prefix_of(line@),
{
    let chars = chars_of(line);
    starts_with(&chars, prefix)
}

/// The key and the raw value of each match: see `property_pairs`.
pub fn properties_of(found: &Vec<Vec<Option<String>>>) -> (r: Vec<(String, String)>)
    ensures
        r.deep_view() == property_pairs(found.deep_view()),
{
    let mut out: Vec<(String, String)> = Vec::new();
    let ghost all = found.deep_view();
    let mut i: usize = 0;
    assert(all.take(0) =~= Seq::empty());
    assert(out.deep_view() =~= Seq::empty());
    while i < found.len()
        invariant
            i <= found.len(),
            all == found.deep_view(),
            out.deep_view() == property_pairs(all.take(i as int)),
        decreases found.len() - i,
    {
        proof {
            assert(all.take(i + 1).drop_last() =~= all.take(i as int));
            assert(all.take(i + 1).last() == found@[i as int].deep_view());
        }
        let groups = &found[i];
        let ghost before = out.deep_view();
        if groups.len() > 2 {
            assert(groups.deep_view()[1] == groups@[1].deep_view());
            assert(groups.deep_view()[2] == groups@[2].deep_view());
            match (&groups[1], &groups[2]) {
                (Some(key), Some(value)) => {
                    out.push((key.clone(), value.clone()));
                    assert(out.deep_view() =~= before.push((key@, value@)));
                },
                _ => {},
            }
        }
        i += 1;
    }
    assert(all.take(found.len() as int) =~= all);
    out
}

/// The raw value of `key`: that of the last pair with this key.
fn find<'a>(props: &'a Vec<(String, String)>, key: &str) -> (r: Option<&'a String>)
    ensures
        match r {
            Some(raw) => lookup(props.deep_view(), key@) == Some(raw@),
            None => lookup(props.deep_view(), key@) is None,
        },
{
    let ghost all = props.deep_view();
    let mut i: usize = props.len();
    assert(all.take(i as int) =~= all);
    while i > 0
        invariant
            i <= props.len(),
            all == props.deep_view(),
            lookup(all, key@) == lookup(all.take(i as int), key@),
        decreases i,
    {
        proof {
            assert(all.take(i as int).drop_last() =~= all.take(i - 1));
            assert(all.take(i as int).last() == props@[i - 1].deep_view());
        }
        if same_text(props[i - 1].0.as_str(), key) {
            return Some(&props[i - 1].1);
        }
        i -= 1;
    }
    None
}

/// Reads the value of `key`.
fn value_for(props: &Vec<(String, String)>, key: &str) -> (r: LingoData)
    ensures
        r@ == value_at(props.deep_view(), key@),
{
    let read = match find(props, key) {
        Some(raw) => LingoData::parse(raw.as_str()),
        None => {
            let placeholder = String::from_str("WARNING: MISSING ITEM ").concat(key);
            LingoData::parse(placeholder.as_str())
        },
    };
    match read {
        Ok(value) => value,
        Err(_) => unreached(),
    }
}

/// The error for a value of `key` that is not of the `expected` kind.
fn mismatch_error(key: &str, expected: &str, value: &LingoData) -> (r: DeserError)
    ensures
        r@ == mismatch(key@, expected@, value@),
{
    DeserError::TypeMismatch {
        key: key.to_owned(),
        expected: expected.to_owned(),
        got: render(value),
    }
}

/// The text that `key` must hold: see `text_at`.
fn text_for(props: &Vec<(String, String)>, key: &str) -> (r: Result<String, DeserError>)
    ensures
        match r {
            Ok(s) => text_at(props.deep_view(), key@) == Ok::<Seq<char>, DeserErrorView>(s@),
            Err(e) => text_at(props.deep_view(), key@) == Err::<Seq<char>, DeserErrorView>(e@),
        },
{
    match value_for(props, key) {
        LingoData::String(s) => Ok(s),
        value => Err(mismatch_error(key, "String", &value)),
    }
}

/// The number that `key` must hold: see `number_at`.
fn number_for(props: &Vec<(String, String)>, key: &str) -> (r: Result<i32, DeserError>)
    ensures
        match r {
            Ok(n) => number_at(props.deep_view(), key@) == Ok::<i32, DeserErrorView>(n),
            Err(e) => number_at(props.deep_view(), key@) == Err::<i32, DeserErrorView>(e@),
        },
{
    match value_for(props, key) {
        LingoData::Number(n) => Ok(n),
        value => Err(mismatch_error(key, "Number", &value)),
    }
}

/// The point that `key` must hold: see `point_at`.
fn point_for(props: &Vec<(String, String)>, key: &str) -> (r: Result<Vec<i32>, DeserError>)
    ensures
        match r {
            Ok(p) => point_at(props.deep_view(), key@) == Ok::<Seq<i32>, DeserErrorView>(p@),
            Err(e) => point_at(props.deep_view(), key@) == Err::<Seq<i32>, DeserErrorView>(e@),
        },
{
    match value_for(props, key) {
        LingoData::Point(p) => Ok(p),
        value => Err(mismatch_error(key, "Point", &value)),
    }
}

/// The cells of the list that `key` must hold: see `cells_at`.
fn cells_for(props: &Vec<(String, String)>, key: &str) -> (r: Result<Vec<TileCell>, DeserError>)
    ensures
        match r {
            Ok(cells) => cells_at(props.deep_view(), key@) == Ok::<Seq<TileCell>, DeserErrorView>(
                cells@,
            ),
            Err(e) => cells_at(props.deep_view(), key@) == Err::<Seq<TileCell>, DeserErrorView>(
                e@,
            ),
        },
{
    let value = value_for(props, key);
    match value.as_tilecell_array() {
        Ok(cells) => Ok(cells),
        Err(_) => Err(mismatch_error(key, "Array", &value)),
    }
}

/// The cells of the list that `key` may hold: see `optional_cells_at`.
fn optional_cells_for(props: &Vec<(String, String)>, key: &str) -> (r: Option<Vec<TileCell>>)
    ensures
        seq_of(r) == optional_cells_at(props.deep_view(), key@),
{
    match value_for(props, key).as_null_if_zero().as_tilecell_array() {
        Ok(cells) => Some(cells),
        Err(_) => None,
    }
}

/// The numbers of the list that `key` may hold: see `optional_numbers_at`.
fn optional_numbers_for(props: &Vec<(String, String)>, key: &str) -> (r: Option<Vec<i32>>)
    ensures
        seq_of(r) == optional_numbers_at(props.deep_view(), key@),
{
    match value_for(props, key).as_number_array() {
        Ok(numbers) => Some(numbers),
        Err(_) => None,
    }
}

/// The number that `key` may hold: see `optional_number_at`.
fn optional_number_for(props: &Vec<(String, String)>, key: &str) -> (r: Option<i32>)
    ensures
        r == optional_number_at(props.deep_view(), key@),
{
    match value_for(props, key) {
        LingoData::Number(n) => Some(n),
        _ => None,
    }
}

/// The texts of the list that `key` holds: see `texts_at`.
fn texts_for(props: &Vec<(String, String)>, key: &str) -> (r: Vec<String>)
    ensures
        r.deep_view() == texts_at(props.deep_view(), key@),
{
    match value_for(props, key).as_string_array() {
        Ok(texts) => texts,
        Err(_) => {
            let none: Vec<String> = Vec::new();
            assert(none.deep_view() =~= Seq::empty());
            none
        },
    }
}

/// The tile type that `key` must name: see `type_at`.
fn type_for(props: &Vec<(String, String)>, key: &str) -> (r: Result<TileType, DeserError>)
    ensures
        match r {
            Ok(t) => type_at(props.deep_view(), key@) == Ok::<TileType, DeserErrorView>(t),
            Err(e) => type_at(props.deep_view(), key@) == Err::<TileType, DeserErrorView>(e@),
        },
{
    match text_for(props, key) {
        Ok(name) => TileType::from_string(name.as_str()),
        Err(e) => Err(e),
    }
}

/// The tile that the properties describe: see `tile_of`.
pub fn tile_of_properties(props: &Vec<(String, String)>, from_vanilla: bool) -> (r: Result<
    TileInfo,
    DeserError,
>)
    ensures
        tile_read_view(r) == tile_of(props.deep_view(), from_vanilla),
{
    let name = match text_for(props, "nm") {
        Ok(v) => v,
        Err(e) => {
            return Err(e);
        },
    };
    let size = match point_for(props, "sz") {
        Ok(v) => v,
        Err(e) => {
            return Err(e);
        },
    };
    let specs = match cells_for(props, "specs") {
        Ok(v) => v,
        Err(e) => {
            return Err(e);
        },
    };
    let specs2 = optional_cells_for(props, "specs2");
    let tile_type = match type_for(props, "tp") {
        Ok(v) => v,
        Err(e) => {
            return Err(e);
        },
    };
    let repeat_layers = optional_numbers_for(props, "repeatL");
    let buffer_tiles = match number_for(props, "bfTiles") {
        Ok(v) => v,
        Err(e) => {
            return Err(e);
        },
    };
    let random_vars = optional_number_for(props, "rnd");
    let preview_pos = match number_for(props, "ptPos") {
        Ok(v) => v,
        Err(e) => {
            return Err(e);
        },
    };
    let tags = texts_for(props, "tags");
    Ok(
        TileInfo {
            name,
            size,
            specs,
            specs2,
            tile_type,
            repeat_layers,
            buffer_tiles,
            random_vars,
            preview_pos,
            tags,
            active: from_vanilla,
        },
    )
}

/// Reads one tile record: the tile of the properties that `text` holds, each
/// written as `#`, key, `:` and value. `from_vanilla` says whether the tile
/// is active.
pub fn parse_tile_info(text: &str, from_vanilla: bool) -> (r: Result<TileInfo, DeserError>)
    ensures
        tile_read_view(r) == tile_of_line(text@, from_vanilla),
{
    match captures_iter(PROPERTY, text) {
        Ok(found) => {
            let props = properties_of(&found);
            tile_of_properties(&props, from_vanilla)
        },
        Err(_) => Err(DeserError::RegexMatchFailed(PROPERTY.to_owned())),
    }
}

/// Reads every tile record of `text`: each line that is neither blank nor
/// begins with `-`, as an inactive tile. The tiles come in the order of
/// their lines; the lines that give no tile come with their errors, in
/// order too. The result is always `Ok`.
pub fn parse_tile_info_multiple(text: &str) -> (r: Result<
    (Vec<TileInfo>, DeserErrorReports),
    DeserError,
>)
    ensures
        r matches Ok((tiles, errors)) && tiles.deep_view() == tiles_of_lines(lines_of(text@))
            && errors.deep_view() == tile_errors_of_lines(lines_of(text@)),
{
    let all = lines(text);
    let ghost texts = all.deep_view();
    let mut tiles: Vec<TileInfo> = Vec::new();
    let mut errors: DeserErrorReports = Vec::new();
    let mut i: usize = 0;
    assert(texts.take(0) =~= Seq::empty());
    assert(tiles.deep_view() =~= Seq::empty());
    assert(errors.deep_view() =~= Seq::empty());
    while i < all.len()
        invariant
            i <= all.len(),
            texts == all.deep_view(),
            tiles.deep_view() == tiles_of_lines(texts.take(i as int)),
            errors.deep_view() == tile_errors_of_lines(texts.take(i as int)),
        decreases all.len() - i,
    {
        proof {
            assert(texts.take(i + 1).drop_last() =~= texts.take(i as int));
            assert(texts.take(i + 1).last() == all@[i as int]@);
        }
        let line = all[i].as_str();
        if !line_starts_with(line, "-") && !line_is_blank(line) {
            let ghost tiles_before = tiles.deep_view();
            let ghost errors_before = errors.deep_view();
            match parse_tile_info(line, false) {
                Ok(tile) => {
                    let ghost t = tile@;
                    tiles.push(tile);
                    assert(tiles.deep_view() =~= tiles_before.push(t));
                },
                Err(e) => {
                    let ghost ev = e@;
                    errors.push((line.to_owned(), e));
                    assert(errors.deep_view() =~= errors_before.push((line@, ev)));
                },
            }
        }
        i += 1;
    }
    assert(texts.take(all.len() as int) =~= texts);
    Ok((tiles, errors))
}

} // verus!

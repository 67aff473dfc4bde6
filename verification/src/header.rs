//! Category headers: the lines of a document that declare a category.

use crate::category::{TileCategory, TileCategoryView};
use crate::error::{DeserError, DeserErrorView};
use crate::pattern::{
    captures, regex_captures, regex_split, split, CATEGORY, CATEGORY_INDEX, COMMAS,
};
use crate::record::group;
use crate::text::{decimal_u8, decimal_usize, parse_u8, parse_usize};
use vstd::prelude::*;

verus! {

/// The channels that the parts write, in order: every part that is a decimal
/// `u8`, as it stands.
pub open spec fn channels_of(parts: Seq<Seq<char>>) -> Seq<u8>
    decreases parts.len(),
{
    if parts.len() == 0 {
        Seq::empty()
    } else {
        let rest = channels_of(parts.drop_last());
        match decimal_u8(parts.last()) {
            Some(channel) => rest.push(channel),
            None => rest,
        }
    }
}

/// The channel `i`, or `default` where there are not so many.
pub open spec fn channel(channels: Seq<u8>, i: int, default: u8) -> u8 {
    if 0 <= i < channels.len() {
        channels[i]
    } else {
        default
    }
}

/// The colour that the parts write: their first three channels. A channel
/// that is missing is 0, or `red` for the first.
pub open spec fn color_of(parts: Seq<Seq<char>>, red: u8) -> (u8, u8, u8) {
    let channels = channels_of(parts);
    (channel(channels, 0, red), channel(channels, 1, 0), channel(channels, 2, 0))
}

/// The ordinal that a marker gives: the number that its first group writes,
/// or `default` where it writes no `usize`.
pub open spec fn marked_ordinal(groups: Seq<Option<Seq<char>>>, default: usize) -> usize {
    match group(groups, 1) {
        Some(digits) => match decimal_usize(digits) {
            Some(n) => n,
            None => default,
        },
        None => default,
    }
}

/// The ordinal of a header: that of its marker, if it has one; 0, which
/// stands for "not set", where it has none or the marker writes no `usize`.
pub open spec fn header_ordinal(marker: Option<Seq<Option<Seq<char>>>>) -> usize {
    match marker {
        Some(groups) => marked_ordinal(groups, 0),
        None => 0,
    }
}

/// The category that a header declares, from its name, the parts of its
/// colour and its marker: no tiles, no subfolder, enabled.
pub open spec fn declared(
    name: Seq<char>,
    parts: Seq<Seq<char>>,
    marker: Option<Seq<Option<Seq<char>>>>,
) -> TileCategoryView {
    TileCategoryView {
        name,
        color: color_of(parts, 0),
        index: header_ordinal(marker),
        tiles: Seq::empty(),
        subfolder: None,
        enabled: true,
    }
}

/// The category that the line declares. The line must hold a quoted name, a
/// comma and `color(..)`: the name is taken as it stands, the colour from what
/// the brackets hold, cut at its commas, and the ordinal from a marker at the
/// end of the line. A line without that form gives `Todo`; a pattern that is
/// refused gives `RegexMatchFailed` with the pattern.
pub open spec fn header_of(line: Seq<char>) -> Result<TileCategoryView, DeserErrorView> {
    match regex_captures(CATEGORY@, line) {
        None => Err(DeserErrorView::RegexMatchFailed(CATEGORY@)),
        Some(None) => Err(DeserErrorView::Todo),
        Some(Some(groups)) => match (group(groups, 1), group(groups, 2)) {
            (Some(name), Some(channels)) => match regex_split(COMMAS@, channels) {
                None => Err(DeserErrorView::RegexMatchFailed(COMMAS@)),
                Some(parts) => match regex_captures(CATEGORY_INDEX@, line) {
                    None => Err(DeserErrorView::RegexMatchFailed(CATEGORY_INDEX@)),
                    Some(marker) => Ok(declared(name, parts, marker)),
                },
            },
            _ => Err(DeserErrorView::Todo),
        },
    }
}

/// The view of what reading a header returns.
pub open spec fn header_read_view(r: Result<TileCategory, DeserError>) -> Result<
    TileCategoryView,
    DeserErrorView,
> {
    match r {
        Ok(category) => Ok(category@),
        Err(e) => Err(e@),
    }
}

/// The colour that the parts write: see `color_of`.
pub fn color_of_parts(parts: &Vec<String>, red: u8) -> (r: [u8; 3])
    ensures
        (r[0], r[1], r[2]) == color_of(parts.deep_view(), red),
{
    let mut channels: Vec<u8> = Vec::new();
    let ghost texts = parts.deep_view();
    let mut i: usize = 0;
    assert(texts.take(0) =~= Seq::empty());
    while i < parts.len()
        invariant
            i <= parts.len(),
            texts == parts.deep_view(),
            channels@ == channels_of(texts.take(i as int)),
        decreases parts.len() - i,
    {
        proof {
            assert(texts.take(i + 1).drop_last() =~= texts.take(i as int));
            assert(texts.take(i + 1).last() == parts@[i as int]@);
        }
        match parse_u8(parts[i].as_str()) {
            Some(channel) => {
                channels.push(channel);
            },
            None => {},
        }
        i += 1;
    }
    assert(texts.take(parts.len() as int) =~= texts);
    let r: u8 = if channels.len() > 0 {
        channels[0]
    } else {
        red
    };
    let g: u8 = if channels.len() > 1 {
        channels[1]
    } else {
        0
    };
    let b: u8 = if channels.len() > 2 {
        channels[2]
    } else {
        0
    };
    [r, g, b]
}

/// The ordinal that a marker gives: see `marked_ordinal`.
pub fn ordinal_of_marker(groups: &Vec<Option<String>>, default: usize) -> (r: usize)
    ensures
        r == marked_ordinal(groups.deep_view(), default),
{
    if groups.len() > 1 {
        assert(groups.deep_view()[1] == groups@[1].deep_view());
        match &groups[1] {
            Some(digits) => match parse_usize(digits.as_str()) {
                Some(n) => n,
                None => default,
            },
            None => default,
        }
    } else {
        default
    }
}

/// The category that a header declares, from what the searches of its line
/// found: see `declared`.
pub fn category_of(name: String, parts: &Vec<String>, marker: &Option<Vec<Option<String>>>) -> (r:
    TileCategory)
    ensures
        r@ == declared(name@, parts.deep_view(), marker.deep_view()),
{
    let color = color_of_parts(parts, 0);
    let index = match marker {
        Some(groups) => ordinal_of_marker(groups, 0),
        None => 0,
    };
    TileCategory::new_main(name, color, index)
}

/// Reads one category header: see `header_of`.
pub fn parse_category_header(text: &str) -> (r: Result<TileCategory, DeserError>)
    ensures
        header_read_view(r) == header_of(text@),
{
    let found = match captures(CATEGORY, text) {
        Ok(found) => found,
        Err(_) => {
            return Err(DeserError::RegexMatchFailed(CATEGORY.to_owned()));
        },
    };
    let groups = match found {
        Some(groups) => groups,
        None => {
            return Err(DeserError::Todo);
        },
    };
    if groups.len() <= 2 {
        return Err(DeserError::Todo);
    }
    assert(groups.deep_view()[1] == groups@[1].deep_view());
    assert(groups.deep_view()[2] == groups@[2].deep_view());
    match (&groups[1], &groups[2]) {
        (Some(name), Some(channels)) => {
            let parts = match split(COMMAS, channels.as_str()) {
                Ok(parts) => parts,
                Err(_) => {
                    return Err(DeserError::RegexMatchFailed(COMMAS.to_owned()));
                },
            };
            let marker = match captures(CATEGORY_INDEX, text) {
                Ok(marker) => marker,
                Err(_) => {
                    return Err(DeserError::RegexMatchFailed(CATEGORY_INDEX.to_owned()));
                },
            };
            Ok(category_of(name.clone(), &parts, &marker))
        },
        _ => Err(DeserError::Todo),
    }
}

} // verus!

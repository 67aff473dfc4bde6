//! Subfolders: what each subfolder of the root supplies as a category of its
//! own.

use crate::category::{TileCategory, TileCategoryView};
use crate::document::{is_header_line, is_ignored};
use crate::error::{DeserError, DeserErrorReports, DeserErrorView};
use crate::header::{
    color_of, color_of_parts, header_of, marked_ordinal, ordinal_of_marker, parse_category_header,
};
use crate::pattern::{captures, regex_captures, regex_split, split, CATEGORY_INDEX, COMMAS};
use crate::record::{line_is_blank, line_starts_with, parse_tile_info, tile_of_line};
use crate::text::{lines, lines_of};
use vstd::prelude::*;

verus! {

/// What was read of one subfolder: its name, its path, the text of its init
/// document, if it has one, and the text of its colour document, if it has
/// one.
#[derive(Debug)]
pub struct SubfolderSource {
    pub name: String,
    pub path: String,
    pub init: Option<String>,
    pub color: Option<String>,
}

/// A `SubfolderSource` as a mathematical value.
pub struct SubfolderSourceView {
    pub name: Seq<char>,
    pub path: Seq<char>,
    pub init: Option<Seq<char>>,
    pub color: Option<Seq<char>>,
}

impl View for SubfolderSource {
    type V = SubfolderSourceView;

    open spec fn view(&self) -> SubfolderSourceView {
        SubfolderSourceView {
            name: self.name@,
            path: self.path@,
            init: self.init.deep_view(),
            color: self.color.deep_view(),
        }
    }
}

impl DeepView for SubfolderSource {
    type V = SubfolderSourceView;

    open spec fn deep_view(&self) -> SubfolderSourceView {
        self@
    }
}

/// A subfolder's category as far as its document has been read, and the
/// lines that could not be read.
pub struct SubfolderState {
    pub category: TileCategoryView,
    pub errors: Seq<(Seq<char>, DeserErrorView)>,
}

/// The text of the colour of a subfolder that has no colour document.
pub open spec fn default_color_text() -> Seq<char> {
    "255,0,0"@
}

/// The category of a subfolder before its document is read: named after the
/// subfolder, bound to it, disabled, without ordinal and without tiles. Its
/// colour is that of the colour document, cut at its commas; a channel that
/// is missing is 0, or 255 for the first. Where the pattern for the commas
/// is refused, every channel is missing, and the text of the colour is kept
/// with that error.
pub open spec fn subfolder_start(folder: SubfolderSourceView) -> SubfolderState {
    let text = match folder.color {
        Some(text) => text,
        None => default_color_text(),
    };
    let found = regex_split(COMMAS@, text);
    SubfolderState {
        category: TileCategoryView {
            name: folder.name,
            color: match found {
                Some(parts) => color_of(parts, 255),
                None => color_of(Seq::empty(), 255),
            },
            index: 0,
            tiles: Seq::empty(),
            subfolder: Some(folder.path),
            enabled: false,
        },
        errors: match found {
            Some(_) => Seq::empty(),
            None => seq![(text, DeserErrorView::RegexMatchFailed(COMMAS@))],
        },
    }
}

/// The state after the marker of `line` is taken in: a marker for the
/// ordinal sets the ordinal, to 1 where it writes no `usize`; a line without
/// marker changes nothing. Where the pattern for the marker is refused, the
/// line is kept with that error.
pub open spec fn with_marker(state: SubfolderState, line: Seq<char>) -> SubfolderState {
    match regex_captures(CATEGORY_INDEX@, line) {
        None => SubfolderState {
            errors: state.errors.push((line, DeserErrorView::RegexMatchFailed(CATEGORY_INDEX@))),
            ..state
        },
        Some(Some(groups)) => SubfolderState {
            category: TileCategoryView { index: marked_ordinal(groups, 1), ..state.category },
            ..state
        },
        Some(None) => state,
    }
}

/// The state after `line` is read as what it is. Every header that reads
/// gives the category its name and its colour. Every tile that reads is put
/// behind the tiles. A line that does not read is kept with its error.
pub open spec fn with_line(state: SubfolderState, line: Seq<char>) -> SubfolderState {
    if is_header_line(line) {
        match header_of(line) {
            Ok(header) => SubfolderState {
                category: TileCategoryView {
                    name: header.name,
                    color: header.color,
                    ..state.category
                },
                ..state
            },
            Err(e) => SubfolderState { errors: state.errors.push((line, e)), ..state },
        }
    } else {
        match tile_of_line(line, true) {
            Ok(tile) => SubfolderState {
                category: TileCategoryView {
                    tiles: state.category.tiles.push(tile),
                    ..state.category
                },
                ..state
            },
            Err(e) => SubfolderState { errors: state.errors.push((line, e)), ..state },
        }
    }
}

/// The state after one more line. Comments and blank lines are passed over.
/// Of any other line the marker for the ordinal, if it has one, is taken in,
/// and the line is then read as what it is, a header or a tile record.
pub open spec fn subfolder_step(state: SubfolderState, line: Seq<char>) -> SubfolderState {
    if is_ignored(line) {
        state
    } else {
        with_line(with_marker(state, line), line)
    }
}

/// The state after `lines`, read from `state` on.
pub open spec fn subfolder_scan(state: SubfolderState, lines: Seq<Seq<char>>) -> SubfolderState
    decreases lines.len(),
{
    if lines.len() == 0 {
        state
    } else {
        subfolder_step(subfolder_scan(state, lines.drop_last()), lines.last())
    }
}

/// The category that a subfolder with the init document `init` supplies, and
/// the lines that could not be read.
pub open spec fn subfolder_category(folder: SubfolderSourceView, init: Seq<char>) -> (
    TileCategoryView,
    Seq<(Seq<char>, DeserErrorView)>,
) {
    let end = subfolder_scan(subfolder_start(folder), lines_of(init));
    (end.category, end.errors)
}

/// What the subfolders supply, in their order: one category for each that
/// has an init document.
pub open spec fn collected(folders: Seq<SubfolderSourceView>) -> Seq<
    (TileCategoryView, Seq<(Seq<char>, DeserErrorView)>),
>
    decreases folders.len(),
{
    if folders.len() == 0 {
        Seq::empty()
    } else {
        let rest = collected(folders.drop_last());
        match folders.last().init {
            Some(init) => rest.push(subfolder_category(folders.last(), init)),
            None => rest,
        }
    }
}

/// A header with a marker for the ordinal gives a subfolder's category its
/// name, its colour and its ordinal at once.
pub proof fn lemma_marked_header(state: SubfolderState, line: Seq<char>)
    requires
        !is_ignored(line),
        is_header_line(line),
        header_of(line) is Ok,
        regex_captures(CATEGORY_INDEX@, line) matches Some(Some(_)),
    ensures
        subfolder_step(state, line) == (SubfolderState {
            category: TileCategoryView {
                name: header_of(line)->Ok_0.name,
                color: header_of(line)->Ok_0.color,
                index: marked_ordinal(regex_captures(CATEGORY_INDEX@, line)->Some_0->Some_0, 1),
                ..state.category
            },
            ..state
        }),
{
}

/// Every tile record that reads is put behind a subfolder's tiles, also one
/// that equals a tile which is there already.
pub proof fn lemma_subfolder_keeps_every_tile(state: SubfolderState, line: Seq<char>)
    requires
        !is_ignored(line),
        !is_header_line(line),
        tile_of_line(line, true) is Ok,
    ensures
        subfolder_step(state, line).category.tiles == with_marker(state, line).category.tiles.push(
            tile_of_line(line, true)->Ok_0,
        ),
        subfolder_step(state, line).category.tiles.len() == state.category.tiles.len() + 1,
{
}

/// A subfolder's category as far as its document has been read.
#[derive(Debug)]
pub struct SubfolderScan {
    pub category: TileCategory,
    pub errors: DeserErrorReports,
}

impl View for SubfolderScan {
    type V = SubfolderState;

    open spec fn view(&self) -> SubfolderState {
        SubfolderState { category: self.category@, errors: self.errors.deep_view() }
    }
}

impl SubfolderScan {
    /// The state before the first line: see `subfolder_start`.
    pub fn new(folder: &SubfolderSource) -> (r: SubfolderScan)
        ensures
            r@ == subfolder_start(folder@),
    {
        let text: &str = match &folder.color {
            Some(text) => text.as_str(),
            None => "255,0,0",
        };
        let mut errors: DeserErrorReports = Vec::new();
        assert(errors.deep_view() =~= Seq::empty());
        let parts = match split(COMMAS, text) {
            Ok(parts) => parts,
            Err(_) => {
                errors.push((text.to_owned(), DeserError::RegexMatchFailed(COMMAS.to_owned())));
                assert(errors.deep_view() =~= seq![
                    (text@, DeserErrorView::RegexMatchFailed(COMMAS@)),
                ]);
                let none: Vec<String> = Vec::new();
                assert(none.deep_view() =~= Seq::empty());
                none
            },
        };
        let color = color_of_parts(&parts, 255);
        let mut category = TileCategory::new_main(folder.name.clone(), color, 0);
        category.enabled = false;
        category.subfolder = Some(folder.path.clone());
        SubfolderScan { category, errors }
    }

    /// Keeps `line` with the error that reading it gave.
    fn report(&mut self, line: &str, e: DeserError)
        ensures
            final(self)@ == (SubfolderState {
                errors: old(self)@.errors.push((line@, e@)),
                ..old(self)@
            }),
    {
        let ghost before = self.errors.deep_view();
        let ghost ev = e@;
        self.errors.push((line.to_owned(), e));
        assert(self.errors.deep_view() =~= before.push((line@, ev)));
    }

    /// Takes in the marker of `line`: see `with_marker`.
    fn mark(&mut self, line: &str)
        ensures
            final(self)@ == with_marker(old(self)@, line@),
    {
        match captures(CATEGORY_INDEX, line) {
            Err(_) => {
                self.report(line, DeserError::RegexMatchFailed(CATEGORY_INDEX.to_owned()));
            },
            Ok(Some(groups)) => {
                self.category.index = ordinal_of_marker(&groups, 1);
            },
            Ok(None) => {},
        }
    }

    /// Reads `line` as what it is: see `with_line`.
    fn read(&mut self, line: &str)
        ensures
            final(self)@ == with_line(old(self)@, line@),
    {
        if line_starts_with(line, "-[") {
            match parse_category_header(line) {
                Ok(header) => {
                    self.category.name = header.name;
                    self.category.color = header.color;
                },
                Err(e) => {
                    self.report(line, e);
                },
            }
        } else {
            match parse_tile_info(line, true) {
                Ok(tile) => {
                    let ghost before = self.category.tiles.deep_view();
                    let ghost t = tile@;
                    self.category.tiles.push(tile);
                    assert(self.category.tiles.deep_view() =~= before.push(t));
                },
                Err(e) => {
                    self.report(line, e);
                },
            }
        }
    }

    /// Reads one more line: see `subfolder_step`.
    pub fn step(&mut self, line: &str)
        ensures
            final(self)@ == subfolder_step(old(self)@, line@),
    {
        if line_starts_with(line, "--") || line_is_blank(line) {
            return ;
        }
        self.mark(line);
        self.read(line);
    }
}

/// The category that one subfolder supplies: see `subfolder_category`.
pub fn category_of_subfolder(folder: &SubfolderSource, init: &str) -> (r: (
    TileCategory,
    DeserErrorReports,
))
    ensures
        r.deep_view() == subfolder_category(folder@, init@),
{
    let mut state = SubfolderScan::new(folder);
    let ghost start = state@;
    let all = lines(init);
    let ghost texts = all.deep_view();
    let mut i: usize = 0;
    assert(texts.take(0) =~= Seq::empty());
    while i < all.len()
        invariant
            i <= all.len(),
            texts == all.deep_view(),
            state@ == subfolder_scan(start, texts.take(i as int)),
        decreases all.len() - i,
    {
        proof {
            assert(texts.take(i + 1).drop_last() =~= texts.take(i as int));
            assert(texts.take(i + 1).last() == all@[i as int]@);
        }
        state.step(all[i].as_str());
        i += 1;
    }
    assert(texts.take(all.len() as int) =~= texts);
    let SubfolderScan { category, errors } = state;
    (category, errors)
}

/// What the subfolders supply: one category for each that has an init
/// document, in the order of `folders`, each with the lines that could not
/// be read. The result is always `Ok`. See `collected`.
pub fn collect_categories_from_subfolders(folders: Vec<SubfolderSource>) -> (r: Result<
    Vec<(TileCategory, DeserErrorReports)>,
    DeserError,
>)
    ensures
        r matches Ok(supplied) && supplied.deep_view() == collected(folders.deep_view()),
{
    let ghost all = folders.deep_view();
    let mut out: Vec<(TileCategory, DeserErrorReports)> = Vec::new();
    let mut i: usize = 0;
    assert(all.take(0) =~= Seq::empty());
    assert(out.deep_view() =~= Seq::empty());
    while i < folders.len()
        invariant
            i <= folders.len(),
            all == folders.deep_view(),
            out.deep_view() == collected(all.take(i as int)),
        decreases folders.len() - i,
    {
        proof {
            assert(all.take(i + 1).drop_last() =~= all.take(i as int));
            assert(all.take(i + 1).last() == folders@[i as int]@);
        }
        let folder = &folders[i];
        match &folder.init {
            Some(init) => {
                let supplied = category_of_subfolder(folder, init.as_str());
                let ghost before = out.deep_view();
                let ghost s = supplied.deep_view();
                out.push(supplied);
                assert(out.deep_view() =~= before.push(s));
            },
            None => {},
        }
        i += 1;
    }
    assert(all.take(folders.len() as int) =~= all);
    Ok(out)
}

} // verus!

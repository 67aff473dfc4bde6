//! Whole documents: the lines of the root document, read into categories of
//! tiles, together with the categories that the subfolders supplied.

use crate::category::{
    by_ordinal, clone_tiles, lemma_normalized, normalized, ordinals_grow, spread, with_index,
    TileCategory, TileCategoryView, TileInit, TileInitView,
};
use crate::error::{AppError, DeserError, DeserErrorReports, DeserErrorView};
use crate::header::{header_of, parse_category_header};
use crate::record::{
    is_blank, line_is_blank, line_starts_with, parse_tile_info, tile_of_line,
};
use crate::text::{lines, lines_of};
use crate::tile::{TileInfo, TileInfoView};
use vstd::prelude::*;

verus! {

/// How far a document has been read: the category that the lines now add to,
/// the categories that are closed, and the lines that could not be read.
pub struct ScanState {
    pub current: Option<TileCategoryView>,
    pub finished: Seq<TileCategoryView>,
    pub errors: Seq<(Seq<char>, DeserErrorView)>,
}

/// Whether `line` is passed over: a comment, which begins with `--`, or a
/// blank line.
pub open spec fn is_ignored(line: Seq<char>) -> bool {
    "--"@.is_prefix_of(line) || is_blank(line)
}

/// Whether `line` is to declare a category: it begins with `-[`.
pub open spec fn is_header_line(line: Seq<char>) -> bool {
    "-["@.is_prefix_of(line)
}

/// `header` with the subfolder and the tiles of the first of `additional`
/// that equals it, if one does.
pub open spec fn adopted(
    header: TileCategoryView,
    additional: Seq<TileCategoryView>,
) -> TileCategoryView
    decreases additional.len(),
{
    if additional.len() == 0 {
        header
    } else if additional[0] == header {
        TileCategoryView {
            subfolder: additional[0].subfolder,
            tiles: additional[0].tiles,
            ..header
        }
    } else {
        adopted(header, additional.drop_first())
    }
}

/// `category` with `tile` behind its tiles, unless it holds an equal one
/// already.
pub open spec fn with_tile(category: TileCategoryView, tile: TileInfoView) -> TileCategoryView {
    if category.tiles.contains(tile) {
        category
    } else {
        TileCategoryView { tiles: category.tiles.push(tile), ..category }
    }
}

/// The closed categories once the current one, if there is one, is closed
/// too.
pub open spec fn completed(state: ScanState) -> Seq<TileCategoryView> {
    match state.current {
        Some(category) => state.finished.push(category),
        None => state.finished,
    }
}

/// The state after one more line. A header that reads closes the current
/// category and opens its own; a tile that reads joins the current category,
/// and is dropped where there is none; a line that does not read is added to
/// the errors and changes nothing else.
pub open spec fn scan_step(
    state: ScanState,
    line: Seq<char>,
    additional: Seq<TileCategoryView>,
) -> ScanState {
    if is_ignored(line) {
        state
    } else if is_header_line(line) {
        match header_of(line) {
            Ok(header) => ScanState {
                current: Some(adopted(header, additional)),
                finished: completed(state),
                errors: state.errors,
            },
            Err(e) => ScanState { errors: state.errors.push((line, e)), ..state },
        }
    } else {
        match tile_of_line(line, true) {
            Ok(tile) => match state.current {
                Some(category) => ScanState { current: Some(with_tile(category, tile)), ..state },
                None => state,
            },
            Err(e) => ScanState { errors: state.errors.push((line, e)), ..state },
        }
    }
}

/// The state before the first line.
pub open spec fn scan_start() -> ScanState {
    ScanState { current: None, finished: Seq::empty(), errors: Seq::empty() }
}

/// The state after `lines`, read from `state` on.
pub open spec fn scan_from(
    state: ScanState,
    lines: Seq<Seq<char>>,
    additional: Seq<TileCategoryView>,
) -> ScanState
    decreases lines.len(),
{
    if lines.len() == 0 {
        state
    } else {
        scan_step(scan_from(state, lines.drop_last(), additional), lines.last(), additional)
    }
}

/// The state after all of `lines`.
pub open spec fn scanned(lines: Seq<Seq<char>>, additional: Seq<TileCategoryView>) -> ScanState {
    scan_from(scan_start(), lines, additional)
}

/// Those of `additional`, in order, that equal none of `present`.
pub open spec fn unmatched(
    additional: Seq<TileCategoryView>,
    present: Seq<TileCategoryView>,
) -> Seq<TileCategoryView>
    decreases additional.len(),
{
    if additional.len() == 0 {
        Seq::empty()
    } else {
        let rest = unmatched(additional.drop_last(), present);
        if present.contains(additional.last()) {
            rest
        } else {
            rest.push(additional.last())
        }
    }
}

/// The categories, each one whose ordinal is not set with its position as
/// its ordinal.
pub open spec fn positioned(categories: Seq<TileCategoryView>) -> Seq<TileCategoryView> {
    Seq::new(
        categories.len(),
        |i: int|
            if categories[i].index == 0 {
                with_index(categories[i], i as usize)
            } else {
                categories[i]
            },
    )
}

/// The categories of a document whose lines left `state`: none where no
/// header was read; else the closed ones, then those of `additional` that
/// equal none of them, each without ordinal given its position, and all in
/// the canonical order.
pub open spec fn gathered(state: ScanState, additional: Seq<TileCategoryView>) -> Seq<
    TileCategoryView,
> {
    if state.current is None {
        Seq::empty()
    } else {
        let own = completed(state);
        normalized(positioned(own + unmatched(additional, own)))
    }
}

/// What a document gives: the categories gathered from its lines, and the
/// lines that could not be read.
pub open spec fn assembled(
    text: Seq<char>,
    additional: Seq<TileCategoryView>,
    root: Seq<char>,
) -> TileInitView {
    let state = scanned(lines_of(text), additional);
    TileInitView { root, categories: gathered(state, additional), errored_lines: state.errors }
}

/// A tile record before any header leaves no trace: where the first line
/// reads as a tile, the document reads as it does without that line.
pub proof fn lemma_tile_before_header(
    line: Seq<char>,
    rest: Seq<Seq<char>>,
    additional: Seq<TileCategoryView>,
)
    requires
        !is_ignored(line),
        !is_header_line(line),
        tile_of_line(line, true) is Ok,
    ensures
        scanned(seq![line] + rest, additional) == scanned(rest, additional),
    decreases rest.len(),
{
    let all = seq![line] + rest;
    if rest.len() == 0 {
        assert(all.drop_last() =~= Seq::empty());
        assert(all.last() == line);
        assert(scanned(all.drop_last(), additional) == scan_start());
    } else {
        lemma_tile_before_header(line, rest.drop_last(), additional);
        assert(all.drop_last() =~= seq![line] + rest.drop_last());
        assert(all.last() == rest.last());
    }
}

/// A header that does not read is kept once, with its error, among the
/// lines that could not be read, and neither opens nor changes a category.
pub proof fn lemma_header_in_error(
    before: Seq<Seq<char>>,
    line: Seq<char>,
    additional: Seq<TileCategoryView>,
)
    requires
        !is_ignored(line),
        is_header_line(line),
        header_of(line) is Err,
    ensures
        scanned(before.push(line), additional) == (ScanState {
            errors: scanned(before, additional).errors.push((line, header_of(line)->Err_0)),
            ..scanned(before, additional)
        }),
{
    assert(before.push(line).drop_last() =~= before);
}

/// A header that reads opens its category with the subfolder and the tiles
/// of the first given category that equals it, and with its own name, colour
/// and ordinal.
pub proof fn lemma_header_adopts(
    before: Seq<Seq<char>>,
    line: Seq<char>,
    additional: Seq<TileCategoryView>,
    i: int,
)
    requires
        !is_ignored(line),
        is_header_line(line),
        header_of(line) is Ok,
        0 <= i < additional.len(),
        additional[i] == header_of(line)->Ok_0,
        forall|j: int| 0 <= j < i ==> additional[j] != header_of(line)->Ok_0,
    ensures
        scanned(before.push(line), additional).current == Some(
            TileCategoryView {
                subfolder: additional[i].subfolder,
                tiles: additional[i].tiles,
                ..header_of(line)->Ok_0
            },
        ),
{
    assert(before.push(line).drop_last() =~= before);
    lemma_adopted(header_of(line)->Ok_0, additional, i);
}

/// `adopted` takes the subfolder and the tiles from the first category that
/// equals the header, and everything else from the header.
pub proof fn lemma_adopted(header: TileCategoryView, additional: Seq<TileCategoryView>, i: int)
    requires
        0 <= i < additional.len(),
        additional[i] == header,
        forall|j: int| 0 <= j < i ==> additional[j] != header,
    ensures
        adopted(header, additional) == (TileCategoryView {
            subfolder: additional[i].subfolder,
            tiles: additional[i].tiles,
            ..header
        }),
    decreases i,
{
    if i > 0 {
        let rest = additional.drop_first();
        assert(rest[i - 1] == additional[i]);
        assert forall|j: int| 0 <= j < i - 1 implies rest[j] != header by {
            assert(rest[j] == additional[j + 1]);
        }
        lemma_adopted(header, rest, i - 1);
    }
}

/// A category equals a header only where its subfolder and its tiles are
/// the header's too, so what `adopted` gives always equals the header.
pub proof fn lemma_adopted_equals_header(
    header: TileCategoryView,
    additional: Seq<TileCategoryView>,
)
    ensures
        adopted(header, additional) == header,
    decreases additional.len(),
{
    if additional.len() > 0 && additional[0] != header {
        lemma_adopted_equals_header(header, additional.drop_first());
    }
}

/// Whether none of the categories holds a tile twice.
pub open spec fn tiles_unique(categories: Seq<TileCategoryView>) -> bool {
    forall|i: int| 0 <= i < categories.len() ==> (#[trigger] categories[i]).tiles.no_duplicates()
}

/// One more line leaves the categories without a tile that is held twice.
pub proof fn lemma_step_keeps_tiles_unique(
    state: ScanState,
    line: Seq<char>,
    additional: Seq<TileCategoryView>,
)
    requires
        tiles_unique(completed(state)),
    ensures
        tiles_unique(completed(scan_step(state, line, additional))),
{
    let before = completed(state);
    let next = scan_step(state, line, additional);
    let after = completed(next);
    if is_ignored(line) {
    } else if is_header_line(line) {
        if header_of(line) is Ok {
            let header = header_of(line)->Ok_0;
            lemma_adopted_equals_header(header, additional);
            assert(header.tiles =~= Seq::empty());
            assert forall|i: int| 0 <= i < after.len() implies (#[trigger] after[i]).tiles
                .no_duplicates() by {
                if i < before.len() {
                    assert(after[i] == before[i]);
                }
            }
        }
    } else if tile_of_line(line, true) is Ok && state.current is Some {
        let tile = tile_of_line(line, true)->Ok_0;
        let category = state.current->Some_0;
        assert(before.last() == category);
        assert(category.tiles.no_duplicates());
        assert(with_tile(category, tile).tiles.no_duplicates());
        assert forall|i: int| 0 <= i < after.len() implies (#[trigger] after[i]).tiles
            .no_duplicates() by {
            if i < after.len() - 1 {
                assert(after[i] == before[i]);
            }
        }
    }
}

/// The categories that a document declares never hold a tile twice.
pub proof fn lemma_scanned_tiles_unique(lines: Seq<Seq<char>>, additional: Seq<TileCategoryView>)
    ensures
        tiles_unique(completed(scanned(lines, additional))),
    decreases lines.len(),
{
    if lines.len() > 0 {
        lemma_scanned_tiles_unique(lines.drop_last(), additional);
        lemma_step_keeps_tiles_unique(
            scanned(lines.drop_last(), additional),
            lines.last(),
            additional,
        );
    }
}

/// The lines that could not be read are only ever added to: what was kept
/// after some lines is still there, in its place, after more lines.
pub proof fn lemma_errors_are_kept(
    lines: Seq<Seq<char>>,
    more: Seq<Seq<char>>,
    additional: Seq<TileCategoryView>,
)
    ensures
        scanned(lines, additional).errors.is_prefix_of(scanned(lines + more, additional).errors),
    decreases more.len(),
{
    if more.len() == 0 {
        assert(lines + more =~= lines);
    } else {
        lemma_errors_are_kept(lines, more.drop_last(), additional);
        assert((lines + more).drop_last() =~= lines + more.drop_last());
        assert((lines + more).last() == more.last());
        let before = scanned(lines + more.drop_last(), additional).errors;
        let after = scanned(lines + more, additional).errors;
        assert(before.is_prefix_of(after));
    }
}

/// A document of one header and two tile records that differ gives one
/// category: that of the header, with the two tiles in the order of their
/// lines; no line is in error.
pub proof fn lemma_one_header_two_tiles(header: Seq<char>, first: Seq<char>, second: Seq<char>)
    requires
        !is_ignored(header),
        is_header_line(header),
        header_of(header) is Ok,
        !is_ignored(first),
        !is_header_line(first),
        tile_of_line(first, true) is Ok,
        !is_ignored(second),
        !is_header_line(second),
        tile_of_line(second, true) is Ok,
        tile_of_line(first, true) != tile_of_line(second, true),
    ensures
        scanned(seq![header, first, second], Seq::empty()).errors == Seq::<
            (Seq<char>, DeserErrorView),
        >::empty(),
        gathered(scanned(seq![header, first, second], Seq::empty()), Seq::empty()) == seq![
            TileCategoryView {
                tiles: seq![tile_of_line(first, true)->Ok_0, tile_of_line(second, true)->Ok_0],
                ..header_of(header)->Ok_0
            },
        ],
{
    let none = Seq::<TileCategoryView>::empty();
    let declared = header_of(header)->Ok_0;
    let one = tile_of_line(first, true)->Ok_0;
    let two = tile_of_line(second, true)->Ok_0;
    let lines = seq![header, first, second];
    assert(lines.drop_last() =~= seq![header, first]);
    assert(seq![header, first].drop_last() =~= seq![header]);
    assert(seq![header].drop_last() =~= Seq::<Seq<char>>::empty());
    assert(scanned(Seq::empty(), none) == scan_start());
    let opened = scanned(seq![header], none);
    assert(opened == scan_step(scan_start(), header, none));
    assert(declared.tiles =~= Seq::empty());
    assert(opened.current == Some(declared));
    let joined = scanned(seq![header, first], none);
    assert(joined == scan_step(opened, first, none));
    assert(!declared.tiles.contains(one));
    let with_one = TileCategoryView { tiles: seq![one], ..declared };
    assert(declared.tiles.push(one) =~= seq![one]);
    assert(joined.current == Some(with_one));
    let end = scanned(lines, none);
    assert(end == scan_step(joined, second, none));
    assert(!with_one.tiles.contains(two));
    let with_two = TileCategoryView { tiles: seq![one, two], ..declared };
    assert(with_one.tiles.push(two) =~= seq![one, two]);
    assert(end.current == Some(with_two));
    assert(end.finished =~= Seq::empty());
    let own = completed(end);
    assert(own =~= seq![with_two]);
    assert(unmatched(none, own) =~= Seq::empty());
    let all = own + unmatched(none, own);
    assert(all =~= seq![with_two]);
    assert(positioned(all) =~= all);
    assert(all.drop_last() =~= Seq::empty());
    assert(by_ordinal(all.drop_last()) =~= Seq::empty());
    assert(by_ordinal(all) =~= all);
    assert(spread(all) =~= all);
    assert(normalized(all) =~= all);
}

/// Two readings of the same document with the same given categories give
/// the same result.
pub proof fn lemma_assembled_again(
    first: TileInit,
    second: TileInit,
    text: Seq<char>,
    additional: Seq<TileCategoryView>,
    root: Seq<char>,
)
    requires
        first@ == assembled(text, additional, root),
        second@ == assembled(text, additional, root),
    ensures
        first@ == second@,
{
}

/// A category without ordinal is given its position; the ordinals that are
/// set stay.
pub proof fn lemma_positioned(categories: Seq<TileCategoryView>, i: int)
    requires
        0 <= i < categories.len() <= usize::MAX,
    ensures
        positioned(categories).len() == categories.len(),
        categories[i].index == 0 ==> positioned(categories)[i].index == i,
        categories[i].index != 0 ==> positioned(categories)[i] == categories[i],
        positioned(categories)[i] == with_index(categories[i], positioned(categories)[i].index),
{
}

/// In what a document gives, the ordinals grow from each category to the
/// next, so no two categories share an ordinal.
pub proof fn lemma_gathered_ordinals(state: ScanState, additional: Seq<TileCategoryView>)
    requires
        state.finished.len() + additional.len() < usize::MAX,
    ensures
        ordinals_grow(gathered(state, additional)),
        forall|i: int, j: int|
            0 <= i < j < gathered(state, additional).len() ==> gathered(state, additional)[i].index
                != gathered(state, additional)[j].index,
{
    if state.current is Some {
        let own = completed(state);
        lemma_unmatched_len(additional, own);
        lemma_normalized(positioned(own + unmatched(additional, own)));
    }
}

/// No more categories are left over than were given.
pub proof fn lemma_unmatched_len(additional: Seq<TileCategoryView>, present: Seq<TileCategoryView>)
    ensures
        unmatched(additional, present).len() <= additional.len(),
    decreases additional.len(),
{
    if additional.len() > 0 {
        lemma_unmatched_len(additional.drop_last(), present);
    }
}

/// The first of `additional` that equals `header` gives it its subfolder and
/// its tiles: see `adopted`.
pub fn adopt(header: TileCategory, additional: &Vec<TileCategory>) -> (r: TileCategory)
    ensures
        r@ == adopted(header@, additional.deep_view()),
{
    let ghost all = additional.deep_view();
    let ghost declared = header@;
    let mut opened = header;
    let mut i: usize = 0;
    assert(all.skip(0) =~= all);
    while i < additional.len()
        invariant
            i <= additional.len(),
            all == additional.deep_view(),
            opened@ == declared,
            declared == header@,
            adopted(declared, all) == adopted(declared, all.skip(i as int)),
        decreases additional.len() - i,
    {
        proof {
            assert(all.skip(i as int).drop_first() =~= all.skip(i + 1));
            assert(all.skip(i as int)[0] == additional@[i as int]@);
        }
        if additional[i].eq(&opened) {
            let other = &additional[i];

            opened.subfolder = match &other.subfolder {
                Some(path) => Some(path.clone()),
                None => None,
            };
            opened.tiles = clone_tiles(&other.tiles);
            return opened;
        }
        i += 1;
    }
    opened
}

/// Whether one of `categories` equals `category`.
pub fn holds_category(categories: &Vec<TileCategory>, category: &TileCategory) -> (r: bool)
    ensures
        r == categories.deep_view().contains(category@),
{
    let mut i: usize = 0;
    while i < categories.len()
        invariant
            i <= categories.len(),
            forall|j: int| 0 <= j < i ==> categories.deep_view()[j] != category@,
        decreases categories.len() - i,
    {
        if categories[i].eq(category) {
            assert(categories.deep_view()[i as int] == category@);
            return true;
        }
        i += 1;
    }
    false
}

/// Puts `tile` into `category`: in the place of the first tile that equals
/// it, or behind all where none does. See `with_tile`.
pub fn add_tile(category: &mut TileCategory, tile: TileInfo)
    ensures
        final(category)@ == with_tile(old(category)@, tile@),
{
    let ghost before = category.tiles.deep_view();
    let mut i: usize = 0;
    while i < category.tiles.len()
        invariant
            i <= category.tiles.len(),
            *category == *old(category),
            before == category.tiles.deep_view(),
            forall|j: int| 0 <= j < i ==> before[j] != tile@,
        decreases category.tiles.len() - i,
    {
        if category.tiles[i].eq(&tile) {
            assert(before[i as int] == tile@);
            category.tiles.set(i, tile);
            assert(category.tiles.deep_view() =~= before);
            return ;
        }
        i += 1;
    }
    let ghost t = tile@;
    category.tiles.push(tile);
    assert(category.tiles.deep_view() =~= before.push(t));
}

/// Those of `additional` that equal none of `present`: see `unmatched`.
pub fn unmatched_of(additional: &Vec<TileCategory>, present: &Vec<TileCategory>) -> (r: Vec<
    TileCategory,
>)
    ensures
        r.deep_view() == unmatched(additional.deep_view(), present.deep_view()),
{
    let ghost all = additional.deep_view();
    let mut out: Vec<TileCategory> = Vec::new();
    let mut i: usize = 0;
    assert(all.take(0) =~= Seq::empty());
    assert(out.deep_view() =~= Seq::empty());
    while i < additional.len()
        invariant
            i <= additional.len(),
            all == additional.deep_view(),
            out.deep_view() == unmatched(all.take(i as int), present.deep_view()),
        decreases additional.len() - i,
    {
        proof {
            assert(all.take(i + 1).drop_last() =~= all.take(i as int));
            assert(all.take(i + 1).last() == additional@[i as int]@);
        }
        if !holds_category(present, &additional[i]) {
            let ghost before = out.deep_view();
            out.push(additional[i].clone());
            assert(out.deep_view() =~= before.push(additional@[i as int]@));
        }
        i += 1;
    }
    assert(all.take(additional.len() as int) =~= all);
    out
}

/// Gives every category whose ordinal is not set its position as ordinal:
/// see `positioned`.
pub fn set_positions(categories: &mut Vec<TileCategory>)
    ensures
        final(categories).deep_view() == positioned(old(categories).deep_view()),
{
    let ghost start = categories.deep_view();
    let n = categories.len();
    let mut k: usize = 0;
    while k < n
        invariant
            k <= n,
            n == categories.len(),
            n == start.len(),
            forall|m: int|
                0 <= m < k ==> (#[trigger] categories.deep_view()[m]) == positioned(start)[m],
            forall|m: int| k <= m < n ==> (#[trigger] categories.deep_view()[m]) == start[m],
        decreases n - k,
    {
        let ghost before = categories@;
        let ghost before_view = categories.deep_view();
        if categories[k].index == 0 {
            categories[k].index = k;
        }
        assert(categories@.len() == n);
        assert forall|m: int| 0 <= m < n implies (#[trigger] categories.deep_view()[m]) == (if m
            <= k {
            positioned(start)[m]
        } else {
            start[m]
        }) by {
            assert(categories.deep_view()[m] == categories@[m]@);
            assert(before_view[m] == before[m]@);
            if m != k {
                assert(categories@[m] == before[m]);
            }
        }
        k += 1;
    }
    assert(categories.deep_view() =~= positioned(start));
}

/// How far a document has been read.
#[derive(Debug)]
pub struct Scan {
    pub current: Option<TileCategory>,
    pub finished: Vec<TileCategory>,
    pub errors: DeserErrorReports,
}

impl View for Scan {
    type V = ScanState;

    open spec fn view(&self) -> ScanState {
        ScanState {
            current: self.current.deep_view(),
            finished: self.finished.deep_view(),
            errors: self.errors.deep_view(),
        }
    }
}

impl Scan {
    /// The state before the first line.
    pub fn new() -> (r: Scan)
        ensures
            r@ == scan_start(),
    {
        let r = Scan { current: None, finished: Vec::new(), errors: Vec::new() };
        assert(r.finished.deep_view() =~= Seq::empty());
        assert(r.errors.deep_view() =~= Seq::empty());
        r
    }

    /// Keeps `line` with the error that reading it gave.
    fn report(&mut self, line: &str, e: DeserError)
        ensures
            final(self)@ == (ScanState {
                errors: old(self)@.errors.push((line@, e@)),
                ..old(self)@
            }),
    {
        let ghost before = self.errors.deep_view();
        let ghost ev = e@;
        self.errors.push((line.to_owned(), e));
        assert(self.errors.deep_view() =~= before.push((line@, ev)));
    }

    /// Closes the current category and opens `category`.
    fn begin(&mut self, category: TileCategory)
        ensures
            final(self)@ == (ScanState {
                current: Some(category@),
                finished: completed(old(self)@),
                errors: old(self)@.errors,
            }),
    {
        let ghost before = self.finished.deep_view();
        match self.current.take() {
            Some(last) => {
                let ghost c = last@;
                self.finished.push(last);
                assert(self.finished.deep_view() =~= before.push(c));
            },
            None => {},
        }
        self.current = Some(category);
    }

    /// Puts `tile` into the current category, if there is one.
    fn join(&mut self, tile: TileInfo)
        ensures
            final(self)@ == (match old(self)@.current {
                Some(category) => ScanState {
                    current: Some(with_tile(category, tile@)),
                    ..old(self)@
                },
                None => old(self)@,
            }),
    {
        match self.current.take() {
            Some(category) => {
                let mut category = category;
                add_tile(&mut category, tile);
                self.current = Some(category);
            },
            None => {},
        }
    }

    /// Reads one more line: see `scan_step`.
    pub fn step(&mut self, line: &str, additional: &Vec<TileCategory>)
        ensures
            final(self)@ == scan_step(old(self)@, line@, additional.deep_view()),
    {
        if line_starts_with(line, "--") || line_is_blank(line) {
        } else if line_starts_with(line, "-[") {
            match parse_category_header(line) {
                Ok(header) => {
                    let opened = adopt(header, additional);
                    self.begin(opened);
                },
                Err(e) => {
                    self.report(line, e);
                },
            }
        } else {
            match parse_tile_info(line, true) {
                Ok(tile) => {
                    self.join(tile);
                },
                Err(e) => {
                    self.report(line, e);
                },
            }
        }
    }

    /// The categories of the document: see `gathered`.
    pub fn gather(self, additional: &Vec<TileCategory>, root: String) -> (r: TileInit)
        ensures
            r@ == (TileInitView {
                root: root@,
                categories: gathered(self@, additional.deep_view()),
                errored_lines: self@.errors,
            }),
            forall|i: int, j: int|
                0 <= i < j < r.categories.len() ==> r.categories[i].index < r.categories[j].index,
    {
        let Scan { current, finished, errors } = self;
        match current {
            Some(category) => {
                let mut categories = finished;
                let ghost finished_before = categories.deep_view();
                let ghost c = category@;
                categories.push(category);
                assert(categories.deep_view() =~= finished_before.push(c));
                let ghost own = categories.deep_view();
                let mut extra = unmatched_of(additional, &categories);
                let ghost extra_view = extra.deep_view();
                categories.append(&mut extra);
                assert(categories.deep_view() =~= own + extra_view);
                set_positions(&mut categories);
                let mut init = TileInit { root, categories, errored_lines: errors };
                init.sort_and_normalize_categories();
                init
            },
            None => {
                let none: Vec<TileCategory> = Vec::new();
                assert(none.deep_view() =~= Seq::empty());
                TileInit { root, categories: none, errored_lines: errors }
            },
        }
    }
}

/// Reads the root document `text`. Its lines are taken in order: comments
/// and blank lines are passed over; a header closes the category before it
/// and opens its own, with the subfolder and the tiles of the first of
/// `additional_categories` that equals it; a tile record joins the open
/// category, or is dropped where none is open; a line that does not read is
/// kept with its error. The categories that come back are the closed ones and
/// those of `additional_categories` that equal none of them, in the
/// canonical order, no two with the same ordinal; none at all where the
/// document declares no category. The result is always `Ok`.
pub fn parse_tile_init(text: String, additional_categories: Vec<TileCategory>, root: String) -> (r:
    Result<TileInit, AppError>)
    ensures
        r matches Ok(init) && init@ == assembled(
            text@,
            additional_categories.deep_view(),
            root@,
        ) && forall|i: int, j: int|
            0 <= i < j < init.categories.len() ==> init.categories[i].index
                < init.categories[j].index,
{
    let all = lines(text.as_str());
    let ghost texts = all.deep_view();
    let ghost additional = additional_categories.deep_view();
    let mut state = Scan::new();
    let mut i: usize = 0;
    assert(texts.take(0) =~= Seq::empty());
    while i < all.len()
        invariant
            i <= all.len(),
            texts == all.deep_view(),
            additional == additional_categories.deep_view(),
            state@ == scanned(texts.take(i as int), additional),
        decreases all.len() - i,
    {
        proof {
            assert(texts.take(i + 1).drop_last() =~= texts.take(i as int));
            assert(texts.take(i + 1).last() == all@[i as int]@);
        }
        state.step(all[i].as_str(), &additional_categories);
        i += 1;
    }
    assert(texts.take(all.len() as int) =~= texts);
    Ok(state.gather(&additional_categories, root))
}

} // verus!

//! Categories of tiles, and the order in which a document's categories are
//! handed out.

use crate::error::{DeserError, DeserErrorReports, DeserErrorView};
use crate::text::same_text;
use crate::tile::{TileInfo, TileInfoView};
use vstd::prelude::*;

verus! {

/// A named, coloured group of tiles with its place among the categories.
/// The ordinal 0 stands for "not set".
#[derive(Debug)]
pub struct TileCategory {
    pub name: String,
    /// Red, green and blue.
    pub color: [u8; 3],
    /// The ordinal.
    pub index: usize,
    pub tiles: Vec<TileInfo>,
    /// The path of the subfolder that supplied the category, if one did.
    pub subfolder: Option<String>,
    pub enabled: bool,
}

/// A `TileCategory` as a mathematical value.
pub struct TileCategoryView {
    pub name: Seq<char>,
    pub color: (u8, u8, u8),
    pub index: usize,
    pub tiles: Seq<TileInfoView>,
    pub subfolder: Option<Seq<char>>,
    pub enabled: bool,
}

impl View for TileCategory {
    type V = TileCategoryView;

    open spec fn view(&self) -> TileCategoryView {
        TileCategoryView {
            name: self.name@,
            color: (self.color[0], self.color[1], self.color[2]),
            index: self.index,
            tiles: self.tiles.deep_view(),
            subfolder: self.subfolder.deep_view(),
            enabled: self.enabled,
        }
    }
}

impl DeepView for TileCategory {
    type V = TileCategoryView;

    open spec fn deep_view(&self) -> TileCategoryView {
        self@
    }
}

/// A copy of `v`.
pub fn clone_tiles(v: &Vec<TileInfo>) -> (r: Vec<TileInfo>)
    ensures
        r.deep_view() == v.deep_view(),
{
    let mut out: Vec<TileInfo> = Vec::new();
    let mut i: usize = 0;
    while i < v.len()
        invariant
            i <= v.len(),
            out.len() == i,
            forall|j: int| 0 <= j < i ==> out@[j]@ == v@[j]@,
        decreases v.len() - i,
    {
        out.push(v[i].clone());
        i += 1;
    }
    assert(out.deep_view() =~= v.deep_view());
    out
}

/// Whether `a` and `b` hold equal tiles in the same order.
pub fn same_tiles(a: &Vec<TileInfo>, b: &Vec<TileInfo>) -> (r: bool)
    ensures
        r == (a.deep_view() == b.deep_view()),
{
    if a.len() != b.len() {
        assert(a.deep_view().len() != b.deep_view().len());
        return false;
    }
    let mut i: usize = 0;
    while i < a.len()
        invariant
            i <= a.len(),
            a.len() == b.len(),
            forall|j: int| 0 <= j < i ==> a@[j]@ == b@[j]@,
        decreases a.len() - i,
    {
        if !a[i].eq(&b[i]) {
            assert(a.deep_view()[i as int] != b.deep_view()[i as int]);
            return false;
        }
        i += 1;
    }
    assert(a.deep_view() =~= b.deep_view());
    true
}

impl TileCategory {
    /// A category of the main document: no tiles yet, bound to no subfolder,
    /// enabled.
    pub fn new_main(name: String, color: [u8; 3], index: usize) -> (r: TileCategory)
        ensures
            r@ == (TileCategoryView {
                name: name@,
                color: (color[0], color[1], color[2]),
                index,
                tiles: Seq::empty(),
                subfolder: None,
                enabled: true,
            }),
    {
        let r = TileCategory {
            name,
            color,
            index,
            tiles: Vec::new(),
            subfolder: None,
            enabled: true,
        };
        assert(r.tiles.deep_view() =~= Seq::empty());
        r
    }
}

impl Clone for TileCategory {
    /// A copy that is equal in every field.
    fn clone(&self) -> (r: Self)
        ensures
            r@ == self@,
    {
        TileCategory {
            name: self.name.clone(),
            color: [self.color[0], self.color[1], self.color[2]],
            index: self.index,
            tiles: clone_tiles(&self.tiles),
            subfolder: match &self.subfolder {
                Some(path) => Some(path.clone()),
                None => None,
            },
            enabled: self.enabled,
        }
    }
}

impl PartialEq for TileCategory {
    /// Two categories are equal where every field of one equals that of the
    /// other: name, colour, ordinal, tiles, subfolder and whether it is
    /// enabled.
    fn eq(&self, other: &Self) -> (r: bool) {
        let subfolder = match &self.subfolder {
            Some(a) => match &other.subfolder {
                Some(b) => same_text(a.as_str(), b.as_str()),
                None => false,
            },
            None => other.subfolder.is_none(),
        };
        same_text(self.name.as_str(), other.name.as_str()) && self.color[0] == other.color[0]
            && self.color[1] == other.color[1] && self.color[2] == other.color[2] && self.index
            == other.index && same_tiles(&self.tiles, &other.tiles) && subfolder && self.enabled
            == other.enabled
    }
}

impl vstd::std_specs::cmp::PartialEqSpecImpl for TileCategory {
    open spec fn obeys_eq_spec() -> bool {
        true
    }

    open spec fn eq_spec(&self, other: &Self) -> bool {
        self@ == other@
    }
}

/// `c` with the ordinal `index`.
pub open spec fn with_index(c: TileCategoryView, index: usize) -> TileCategoryView {
    TileCategoryView { index, ..c }
}

/// `sorted` with `c` put in behind every category whose ordinal is not above
/// that of `c`.
pub open spec fn placed(sorted: Seq<TileCategoryView>, c: TileCategoryView) -> Seq<
    TileCategoryView,
>
    decreases sorted.len(),
{
    if sorted.len() > 0 && sorted.last().index > c.index {
        placed(sorted.drop_last(), c).push(sorted.last())
    } else {
        sorted.push(c)
    }
}

/// The categories in the order of their ordinals; those with the same ordinal
/// stay in the order they had.
pub open spec fn by_ordinal(cats: Seq<TileCategoryView>) -> Seq<TileCategoryView>
    decreases cats.len(),
{
    if cats.len() == 0 {
        cats
    } else {
        placed(by_ordinal(cats.drop_last()), cats.last())
    }
}

/// The categories, each with its position as its ordinal.
pub open spec fn renumbered(cats: Seq<TileCategoryView>) -> Seq<TileCategoryView> {
    Seq::new(cats.len(), |i: int| with_index(cats[i], i as usize))
}

/// The ordinal that category `i` gets where the ordinals are spread out: its
/// own, or one more than that of the category before it where its own is not
/// above that.
pub open spec fn spread_ordinal(cats: Seq<TileCategoryView>, i: int) -> int
    decreases i,
{
    if i <= 0 {
        cats[0].index as int
    } else {
        let least = spread_ordinal(cats, i - 1) + 1;
        if cats[i].index > least {
            cats[i].index as int
        } else {
            least
        }
    }
}

/// Whether the ordinals can be spread out: none of them leaves `usize`.
pub open spec fn ordinals_fit(cats: Seq<TileCategoryView>) -> bool {
    forall|i: int| 0 <= i < cats.len() ==> #[trigger] spread_ordinal(cats, i) <= usize::MAX
}

/// The categories with their ordinals spread out.
pub open spec fn spread(cats: Seq<TileCategoryView>) -> Seq<TileCategoryView> {
    Seq::new(cats.len(), |i: int| with_index(cats[i], spread_ordinal(cats, i) as usize))
}

/// The canonical order: the categories by ordinal, and their ordinals spread
/// out, so that each keeps its ordinal unless one before it has it or a
/// higher one. Where that leaves no room in `usize`, each gets its position.
pub open spec fn normalized(cats: Seq<TileCategoryView>) -> Seq<TileCategoryView> {
    let sorted = by_ordinal(cats);
    if ordinals_fit(sorted) {
        spread(sorted)
    } else {
        renumbered(sorted)
    }
}

/// Whether the ordinals grow from each category to the next.
pub open spec fn ordinals_grow(cats: Seq<TileCategoryView>) -> bool {
    forall|i: int, j: int| 0 <= i < j < cats.len() ==> cats[i].index < cats[j].index
}

/// Whether the ordinals never fall from one category to the next.
pub open spec fn ordinals_rise(cats: Seq<TileCategoryView>) -> bool {
    forall|i: int, j: int| 0 <= i < j < cats.len() ==> cats[i].index <= cats[j].index
}

/// Putting a category in means inserting it at the position `j` behind which
/// every ordinal is above its own, and before which none is.
pub proof fn lemma_placed_at(sorted: Seq<TileCategoryView>, c: TileCategoryView, j: int)
    requires
        0 <= j <= sorted.len(),
        forall|k: int| j <= k < sorted.len() ==> (#[trigger] sorted[k]).index > c.index,
        j > 0 ==> sorted[j - 1].index <= c.index,
    ensures
        placed(sorted, c) == sorted.insert(j, c),
    decreases sorted.len() - j,
{
    if j < sorted.len() {
        let front = sorted.drop_last();
        lemma_placed_at(front, c, j);
        assert(front.insert(j, c).push(sorted.last()) =~= sorted.insert(j, c));
    } else {
        assert(sorted.push(c) =~= sorted.insert(j, c));
    }
}

/// The position at which `placed` puts `c` into `sorted`.
pub open spec fn place_of(sorted: Seq<TileCategoryView>, c: TileCategoryView) -> int
    decreases sorted.len(),
{
    if sorted.len() > 0 && sorted.last().index > c.index {
        place_of(sorted.drop_last(), c)
    } else {
        sorted.len() as int
    }
}

/// `placed` inserts at `place_of`: behind that position every ordinal is
/// above that of `c`, and just before it none is.
pub proof fn lemma_place_of(sorted: Seq<TileCategoryView>, c: TileCategoryView)
    ensures
        0 <= place_of(sorted, c) <= sorted.len(),
        forall|k: int|
            place_of(sorted, c) <= k < sorted.len() ==> (#[trigger] sorted[k]).index > c.index,
        place_of(sorted, c) > 0 ==> sorted[place_of(sorted, c) - 1].index <= c.index,
        placed(sorted, c) == sorted.insert(place_of(sorted, c), c),
    decreases sorted.len(),
{
    if sorted.len() > 0 && sorted.last().index > c.index {
        let front = sorted.drop_last();
        lemma_place_of(front, c);
        let j = place_of(front, c);
        assert forall|k: int| j <= k < sorted.len() implies (#[trigger] sorted[k]).index
            > c.index by {
            if k < front.len() {
                assert(sorted[k] == front[k]);
            }
        }
        if j > 0 {
            assert(sorted[j - 1] == front[j - 1]);
        }
    }
    lemma_placed_at(sorted, c, place_of(sorted, c));
}

/// Putting a category into rising ordinals leaves them rising, adds one
/// category and takes none away.
pub proof fn lemma_placed(sorted: Seq<TileCategoryView>, c: TileCategoryView)
    ensures
        placed(sorted, c).len() == sorted.len() + 1,
        placed(sorted, c).to_multiset() == sorted.to_multiset().insert(c),
        ordinals_rise(sorted) ==> ordinals_rise(placed(sorted, c)),
{
    lemma_place_of(sorted, c);
    let j = place_of(sorted, c);
    let out = sorted.insert(j, c);
    vstd::seq_lib::to_multiset_insert(sorted, j, c);
    assert(out.to_multiset() =~= sorted.to_multiset().insert(c));
    if ordinals_rise(sorted) {
        assert forall|a: int, b: int| 0 <= a < b < out.len() implies out[a].index
            <= out[b].index by {
            if b < j {
                assert(out[a] == sorted[a] && out[b] == sorted[b]);
            } else if b == j {
                assert(out[a] == sorted[a]);
                assert(sorted[a].index <= sorted[j - 1].index);
            } else if a < j {
                assert(out[a] == sorted[a] && out[b] == sorted[b - 1]);
            } else if a == j {
                assert(out[b] == sorted[b - 1]);
            } else {
                assert(out[a] == sorted[a - 1] && out[b] == sorted[b - 1]);
            }
        }
    }
}

/// The order by ordinal holds the same categories, as often, and its
/// ordinals rise.
pub proof fn lemma_by_ordinal(cats: Seq<TileCategoryView>)
    ensures
        by_ordinal(cats).len() == cats.len(),
        by_ordinal(cats).to_multiset() == cats.to_multiset(),
        ordinals_rise(by_ordinal(cats)),
    decreases cats.len(),
{
    if cats.len() == 0 {
    } else {
        let front = cats.drop_last();
        lemma_by_ordinal(front);
        lemma_placed(by_ordinal(front), cats.last());
        vstd::seq_lib::to_multiset_build(front, cats.last());
        assert(front.push(cats.last()) =~= cats);
    }
}

/// Categories whose ordinals rise already are in the order by ordinal.
pub proof fn lemma_by_ordinal_keeps(cats: Seq<TileCategoryView>)
    requires
        ordinals_rise(cats),
    ensures
        by_ordinal(cats) == cats,
    decreases cats.len(),
{
    if cats.len() > 0 {
        let front = cats.drop_last();
        assert forall|i: int, j: int| 0 <= i < j < front.len() implies front[i].index
            <= front[j].index by {
            assert(front[i] == cats[i] && front[j] == cats[j]);
        }
        lemma_by_ordinal_keeps(front);
        if front.len() > 0 {
            assert(front.last() == cats[cats.len() - 2]);
        }
        assert(front.push(cats.last()) =~= cats);
    }
}

/// The categories with the ordinal `k`, in order.
pub open spec fn with_ordinal(cats: Seq<TileCategoryView>, k: usize) -> Seq<TileCategoryView>
    decreases cats.len(),
{
    if cats.len() == 0 {
        Seq::empty()
    } else {
        let rest = with_ordinal(cats.drop_last(), k);
        if cats.last().index == k {
            rest.push(cats.last())
        } else {
            rest
        }
    }
}

/// A category that is put in comes behind those of its own ordinal, and
/// those of every ordinal keep their order.
pub proof fn lemma_placed_keeps_order(sorted: Seq<TileCategoryView>, c: TileCategoryView, k: usize)
    ensures
        with_ordinal(placed(sorted, c), k) == (if c.index == k {
            with_ordinal(sorted, k).push(c)
        } else {
            with_ordinal(sorted, k)
        }),
    decreases sorted.len(),
{
    if sorted.len() > 0 && sorted.last().index > c.index {
        let front = sorted.drop_last();
        lemma_placed_keeps_order(front, c, k);
        let out = placed(front, c).push(sorted.last());
        assert(out.drop_last() =~= placed(front, c));
    } else {
        assert(sorted.push(c).drop_last() =~= sorted);
    }
}

/// The order by ordinal is stable: the categories of one ordinal come in the
/// order they had.
pub proof fn lemma_by_ordinal_stable(cats: Seq<TileCategoryView>, k: usize)
    ensures
        with_ordinal(by_ordinal(cats), k) == with_ordinal(cats, k),
    decreases cats.len(),
{
    if cats.len() > 0 {
        lemma_by_ordinal_stable(cats.drop_last(), k);
        lemma_placed_keeps_order(by_ordinal(cats.drop_last()), cats.last(), k);
    }
}

/// Where some category has the ordinal `k`, one can be pointed at.
proof fn lemma_with_ordinal_found(cats: Seq<TileCategoryView>, k: usize) -> (i: int)
    requires
        with_ordinal(cats, k).len() > 0,
    ensures
        0 <= i < cats.len(),
        cats[i].index == k,
    decreases cats.len(),
{
    if cats.last().index == k {
        cats.len() - 1
    } else {
        lemma_with_ordinal_found(cats.drop_last(), k)
    }
}

/// Two arrangements with rising ordinals that agree, ordinal by ordinal, on
/// the categories of that ordinal and their order are the same arrangement.
pub proof fn lemma_order_is_determined(a: Seq<TileCategoryView>, b: Seq<TileCategoryView>)
    requires
        ordinals_rise(a),
        ordinals_rise(b),
        forall|k: usize| with_ordinal(a, k) == with_ordinal(b, k),
    ensures
        a == b,
    decreases a.len(),
{
    if a.len() == 0 {
        if b.len() > 0 {
            let k = b.last().index;
            assert(with_ordinal(b, k).len() > 0);
            assert(with_ordinal(a, k).len() == 0);
        }
        assert(a =~= b);
    } else {
        let m = a.last().index;
        assert(with_ordinal(a, m) == with_ordinal(a.drop_last(), m).push(a.last()));
        assert(with_ordinal(b, m).len() > 0);
        let i = lemma_with_ordinal_found(b, m);
        let m2 = b.last().index;
        assert(with_ordinal(b, m2) == with_ordinal(b.drop_last(), m2).push(b.last()));
        assert(with_ordinal(a, m2).len() > 0);
        let j = lemma_with_ordinal_found(a, m2);
        assert(b[i].index <= b[b.len() - 1].index);
        assert(a[j].index <= a[a.len() - 1].index);
        assert(m == m2);
        assert(with_ordinal(a, m).last() == a.last());
        assert(with_ordinal(b, m).last() == b.last());
        let front_a = a.drop_last();
        let front_b = b.drop_last();
        assert forall|x: int, y: int| 0 <= x < y < front_a.len() implies front_a[x].index
            <= front_a[y].index by {
            assert(front_a[x] == a[x] && front_a[y] == a[y]);
        }
        assert forall|x: int, y: int| 0 <= x < y < front_b.len() implies front_b[x].index
            <= front_b[y].index by {
            assert(front_b[x] == b[x] && front_b[y] == b[y]);
        }
        assert forall|k: usize| with_ordinal(front_a, k) == with_ordinal(front_b, k) by {
            assert(with_ordinal(a, k) == with_ordinal(b, k));
            if k == m {
                assert(with_ordinal(front_a, k) =~= with_ordinal(a, k).drop_last());
                assert(with_ordinal(front_b, k) =~= with_ordinal(b, k).drop_last());
            }
        }
        lemma_order_is_determined(front_a, front_b);
        assert(a =~= front_a.push(a.last()));
        assert(b =~= front_b.push(b.last()));
    }
}

/// The order by ordinal is the one arrangement of the categories in which the
/// ordinals rise and the categories of each ordinal keep their order.
pub proof fn lemma_by_ordinal_is_the_only(cats: Seq<TileCategoryView>, out: Seq<TileCategoryView>)
    requires
        ordinals_rise(out),
        forall|k: usize| with_ordinal(out, k) == with_ordinal(cats, k),
    ensures
        out == by_ordinal(cats),
{
    lemma_by_ordinal(cats);
    assert forall|k: usize| with_ordinal(out, k) == with_ordinal(by_ordinal(cats), k) by {
        lemma_by_ordinal_stable(cats, k);
    }
    lemma_order_is_determined(out, by_ordinal(cats));
}

/// Spread out, the ordinals grow from each category to the next, and none
/// is below the ordinal that the category had.
pub proof fn lemma_spread_grows(cats: Seq<TileCategoryView>, i: int, j: int)
    requires
        0 <= i <= j < cats.len(),
    ensures
        spread_ordinal(cats, j) >= cats[j].index,
        i < j ==> spread_ordinal(cats, i) < spread_ordinal(cats, j),
    decreases j,
{
    if i < j {
        lemma_spread_grows(cats, i, j - 1);
    }
}

/// Ordinals that grow already stay as they are where they are spread out.
pub proof fn lemma_spread_keeps(cats: Seq<TileCategoryView>, i: int)
    requires
        ordinals_grow(cats),
        0 <= i < cats.len(),
    ensures
        spread_ordinal(cats, i) == cats[i].index,
    decreases i,
{
    if i > 0 {
        lemma_spread_keeps(cats, i - 1);
    }
}

/// In the canonical order the ordinals grow from each category to the next,
/// so no two categories share one; the categories are those that were given,
/// ordinals aside, in the order of the ordinals they had.
pub proof fn lemma_normalized(cats: Seq<TileCategoryView>)
    requires
        cats.len() <= usize::MAX,
    ensures
        normalized(cats).len() == cats.len(),
        ordinals_grow(normalized(cats)),
        forall|i: int, j: int|
            0 <= i < j < cats.len() ==> normalized(cats)[i].index != normalized(cats)[j].index,
        forall|i: int|
            0 <= i < cats.len() ==> #[trigger] normalized(cats)[i] == with_index(
                by_ordinal(cats)[i],
                normalized(cats)[i].index,
            ),
{
    lemma_by_ordinal(cats);
    let sorted = by_ordinal(cats);
    let out = normalized(cats);
    if ordinals_fit(sorted) {
        assert forall|i: int, j: int| 0 <= i < j < out.len() implies out[i].index
            < out[j].index by {
            lemma_spread_grows(sorted, i, j);
            assert(spread_ordinal(sorted, i) <= usize::MAX);
            assert(spread_ordinal(sorted, j) <= usize::MAX);
            lemma_spread_grows(sorted, i, i);
        }
    }
}

/// Where the ordinals by which the categories are ordered grow already, the
/// canonical order keeps every ordinal.
pub proof fn lemma_normalized_keeps(cats: Seq<TileCategoryView>)
    requires
        ordinals_grow(by_ordinal(cats)),
    ensures
        normalized(cats) == by_ordinal(cats),
{
    let sorted = by_ordinal(cats);
    assert forall|i: int| 0 <= i < sorted.len() implies #[trigger] spread_ordinal(sorted, i)
        == sorted[i].index by {
        lemma_spread_keeps(sorted, i);
    }
    assert(spread(sorted) =~= sorted);
}

/// Two categories with the ordinal `k` make two of those with that ordinal.
proof fn lemma_with_ordinal_two(cats: Seq<TileCategoryView>, k: usize, i: int, j: int)
    requires
        0 <= i < j < cats.len(),
        cats[i].index == k,
        cats[j].index == k,
    ensures
        with_ordinal(cats, k).len() >= 2,
    decreases cats.len(),
{
    let front = cats.drop_last();
    if j == cats.len() - 1 {
        lemma_with_ordinal_one(front, k, i);
    } else {
        lemma_with_ordinal_two(front, k, i, j);
    }
}

/// A category with the ordinal `k` is one of those with that ordinal.
proof fn lemma_with_ordinal_one(cats: Seq<TileCategoryView>, k: usize, i: int)
    requires
        0 <= i < cats.len(),
        cats[i].index == k,
    ensures
        with_ordinal(cats, k).len() >= 1,
    decreases cats.len(),
{
    if i < cats.len() - 1 {
        lemma_with_ordinal_one(cats.drop_last(), k, i);
    }
}

/// Where two categories have the ordinal `k`, two can be pointed at.
proof fn lemma_with_ordinal_pair(cats: Seq<TileCategoryView>, k: usize) -> (r: (int, int))
    requires
        with_ordinal(cats, k).len() >= 2,
    ensures
        0 <= r.0 < r.1 < cats.len(),
        cats[r.0].index == k,
        cats[r.1].index == k,
    decreases cats.len(),
{
    let front = cats.drop_last();
    if cats.last().index == k {
        let i = lemma_with_ordinal_found(front, k);
        (i, cats.len() - 1)
    } else {
        lemma_with_ordinal_pair(front, k)
    }
}

/// Where no two categories share an ordinal, every category keeps its
/// ordinal in the canonical order.
pub proof fn lemma_distinct_ordinals_stay(cats: Seq<TileCategoryView>)
    requires
        forall|i: int, j: int| 0 <= i < j < cats.len() ==> cats[i].index != cats[j].index,
    ensures
        normalized(cats) == by_ordinal(cats),
{
    lemma_by_ordinal(cats);
    let sorted = by_ordinal(cats);
    assert forall|i: int, j: int| 0 <= i < j < sorted.len() implies sorted[i].index
        < sorted[j].index by {
        if sorted[i].index == sorted[j].index {
            let k = sorted[i].index;
            lemma_with_ordinal_two(sorted, k, i, j);
            lemma_by_ordinal_stable(cats, k);
            let pair = lemma_with_ordinal_pair(cats, k);
            assert(cats[pair.0].index != cats[pair.1].index);
        }
    }
    lemma_normalized_keeps(cats);
}

/// Bringing categories into the canonical order a second time changes
/// nothing.
pub proof fn lemma_normalized_twice(cats: Seq<TileCategoryView>)
    requires
        cats.len() <= usize::MAX,
    ensures
        normalized(normalized(cats)) == normalized(cats),
{
    lemma_normalized(cats);
    let once = normalized(cats);
    lemma_by_ordinal_keeps(once);
    lemma_normalized_keeps(once);
}

/// Whether the ordinals of `cats` can be spread out.
fn ordinals_have_room(cats: &Vec<TileCategory>) -> (r: bool)
    ensures
        r == ordinals_fit(cats.deep_view()),
{
    let ghost all = cats.deep_view();
    let n = cats.len();
    if n == 0 {
        return true;
    }
    let mut last: usize = cats[0].index;
    assert(all[0] == cats[0]@);
    let mut k: usize = 1;
    while k < n
        invariant
            1 <= k <= n,
            n == cats.len(),
            all == cats.deep_view(),
            last == spread_ordinal(all, k - 1),
            forall|m: int| 0 <= m < k ==> #[trigger] spread_ordinal(all, m) <= usize::MAX,
        decreases n - k,
    {
        assert(all[k as int] == cats[k as int]@);
        if last == usize::MAX {
            assert(spread_ordinal(all, k as int) > usize::MAX);
            return false;
        }
        let own = cats[k].index;
        last = if own > last + 1 {
            own
        } else {
            last + 1
        };
        k += 1;
    }
    true
}

/// Spreads the ordinals of `cats` out: see `spread`.
fn spread_ordinals(cats: &mut Vec<TileCategory>)
    requires
        ordinals_fit(old(cats).deep_view()),
    ensures
        final(cats).deep_view() == spread(old(cats).deep_view()),
{
    let ghost start = cats.deep_view();
    let n = cats.len();
    if n == 0 {
        assert(cats.deep_view() =~= spread(start));
        return ;
    }
    let mut last: usize = cats[0].index;
    assert(start[0] == cats[0]@);
    let mut k: usize = 1;
    while k < n
        invariant
            1 <= k <= n,
            n == cats.len(),
            n == start.len(),
            ordinals_fit(start),
            last == spread_ordinal(start, k - 1),
            forall|m: int| 0 <= m < k ==> (#[trigger] cats.deep_view()[m]) == spread(start)[m],
            forall|m: int| k <= m < n ==> (#[trigger] cats.deep_view()[m]) == start[m],
        decreases n - k,
    {
        let ghost before = cats@;
        let ghost before_view = cats.deep_view();
        assert(before_view[k as int] == before[k as int]@);
        assert(spread_ordinal(start, k as int) <= usize::MAX);
        if cats[k].index <= last {
            cats[k].index = last + 1;
        }
        last = cats[k].index;
        assert(cats@.len() == n);
        assert forall|m: int| 0 <= m < n implies #[trigger] cats.deep_view()[m] == (if m <= k {
            spread(start)[m]
        } else {
            start[m]
        }) by {
            assert(cats.deep_view()[m] == cats@[m]@);
            assert(before_view[m] == before[m]@);
            if m != k {
                assert(cats@[m] == before[m]);
            }
        }
        k += 1;
    }
    assert(cats.deep_view() =~= spread(start));
}

/// Gives every category its position as ordinal: see `renumbered`.
fn number_by_position(cats: &mut Vec<TileCategory>)
    ensures
        final(cats).deep_view() == renumbered(old(cats).deep_view()),
{
    let ghost start = cats.deep_view();
    let n = cats.len();
    let mut k: usize = 0;
    while k < n
        invariant
            k <= n,
            n == cats.len(),
            n == start.len(),
            forall|m: int| 0 <= m < k ==> (#[trigger] cats.deep_view()[m]) == renumbered(start)[m],
            forall|m: int| k <= m < n ==> (#[trigger] cats.deep_view()[m]) == start[m],
        decreases n - k,
    {
        let ghost before = cats@;
        let ghost before_view = cats.deep_view();
        cats[k].index = k;
        assert(cats@.len() == n);
        assert forall|m: int| 0 <= m < n implies #[trigger] cats.deep_view()[m] == (if m <= k {
            renumbered(start)[m]
        } else {
            start[m]
        }) by {
            assert(cats.deep_view()[m] == cats@[m]@);
            assert(before_view[m] == before[m]@);
            if m != k {
                assert(cats@[m] == before[m]);
            }
        }
        k += 1;
    }
    assert(cats.deep_view() =~= renumbered(start));
}

/// The categories of a document, with the lines that could not be read.
#[derive(Debug)]
pub struct TileInit {
    /// The path of the folder that holds the document.
    pub root: String,
    /// The categories, in the canonical order.
    pub categories: Vec<TileCategory>,
    /// The lines that could not be read, in the order of the document.
    pub errored_lines: DeserErrorReports,
}

/// A `TileInit` as a mathematical value.
pub struct TileInitView {
    pub root: Seq<char>,
    pub categories: Seq<TileCategoryView>,
    pub errored_lines: Seq<(Seq<char>, DeserErrorView)>,
}

impl View for TileInit {
    type V = TileInitView;

    open spec fn view(&self) -> TileInitView {
        TileInitView {
            root: self.root@,
            categories: self.categories.deep_view(),
            errored_lines: self.errored_lines.deep_view(),
        }
    }
}

impl TileInit {
    /// Brings the categories into the canonical order: by ordinal, those with
    /// the same ordinal in the order they had, and with the ordinals spread
    /// out so that no two categories share one. An ordinal that is above all
    /// those before it stays as it is.
    pub fn sort_and_normalize_categories(&mut self)
        ensures
            final(self)@.root == old(self)@.root,
            final(self)@.errored_lines == old(self)@.errored_lines,
            final(self)@.categories == normalized(old(self)@.categories),
            forall|i: int, j: int|
                0 <= i < j < final(self).categories.len() ==> final(self).categories[i].index
                    < final(self).categories[j].index,
    {
        let ghost start = self.categories.deep_view();
        let n = self.categories.len();
        let mut i: usize = 0;
        assert(self.categories.deep_view().take(0) =~= by_ordinal(start.take(0)));
        while i < n
            invariant
                i <= n,
                n == self.categories.len(),
                n == start.len(),
                self.root == old(self).root,
                self.errored_lines == old(self).errored_lines,
                self.categories.deep_view().take(i as int) == by_ordinal(start.take(i as int)),
                self.categories.deep_view().skip(i as int) == start.skip(i as int),
            decreases n - i,
        {
            let ghost before = self.categories.deep_view();
            let c = self.categories.remove(i);
            assert(c@ == before[i as int]);
            assert(before[i as int] == before.skip(i as int)[0]);
            let ghost removed = self.categories.deep_view();
            assert(removed =~= before.remove(i as int));
            let mut j: usize = i;
            while j > 0 && self.categories[j - 1].index > c.index
                invariant
                    j <= i < n,
                    self.categories.len() == n - 1,
                    self.categories.deep_view() == removed,
                    forall|k: int| j <= k < i ==> (#[trigger] removed[k]).index > c.index,
                decreases j,
            {
                j -= 1;
            }
            self.categories.insert(j, c);
            proof {
                let sorted = before.take(i as int);
                assert(sorted =~= removed.take(i as int));
                assert forall|k: int| j <= k < sorted.len() implies (#[trigger] sorted[k]).index
                    > c@.index by {
                    assert(sorted[k] == removed[k]);
                }
                if j > 0 {
                    assert(sorted[j - 1] == removed[j - 1]);
                }
                lemma_placed_at(sorted, c@, j as int);
                let after = self.categories.deep_view();
                assert(after =~= removed.insert(j as int, c@));
                assert(after.take(i + 1) =~= sorted.insert(j as int, c@));
                assert(start.take(i + 1).drop_last() =~= start.take(i as int));
                assert(start.take(i + 1).last() == start.skip(i as int)[0]);
                assert(after.skip(i + 1) =~= before.skip(i as int).skip(1));
                assert(start.skip(i + 1) =~= start.skip(i as int).skip(1));
            }
            i += 1;
        }
        assert(start.take(n as int) =~= start);
        assert(self.categories.deep_view().take(n as int) =~= self.categories.deep_view());
        if ordinals_have_room(&self.categories) {
            spread_ordinals(&mut self.categories);
        } else {
            number_by_position(&mut self.categories);
        }
        proof {
            lemma_normalized(start);
            let out = self.categories.deep_view();
            assert forall|i: int, j: int| 0 <= i < j < n implies self.categories[i].index
                < self.categories[j].index by {
                assert(out[i] == self.categories[i]@);
                assert(out[j] == self.categories[j]@);
            }
        }
    }
}

impl Default for TileInit {
    /// No root, no categories, no lines that could not be read.
    fn default() -> (r: TileInit)
        ensures
            r@ == (TileInitView {
                root: Seq::empty(),
                categories: Seq::empty(),
                errored_lines: Seq::empty(),
            }),
    {
        let r = TileInit { root: String::new(), categories: Vec::new(), errored_lines: Vec::new() };
        assert(r.categories.deep_view() =~= Seq::empty());
        assert(r.errored_lines.deep_view() =~= Seq::empty());
        r
    }
}

} // verus!

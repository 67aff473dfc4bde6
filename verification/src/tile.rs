//! Tile definitions and the categories that hold them.

use crate::error::{DeserError, DeserErrorView};
use crate::text::{decimal_string, decimal_text, same_text};
use vstd::prelude::*;

verus! {

/// What a tile asks of one cell of the level geometry under it.
#[derive(Debug, Clone, Copy, PartialEq, Eq, Structural)]
pub enum TileCell {
    /// Nothing is asked: code -1.
    Any,
    /// Code 0.
    Air,
    /// Code 1.
    Wall,
    /// Code 2.
    SlopeBottomLeft,
    /// Code 3.
    SlopeBottomRight,
    /// Code 4.
    SlopeTopLeft,
    /// Code 5.
    SlopeTopRight,
    /// Code 6.
    Floor,
    /// Code 7.
    Entrance,
    /// Code 9.
    Glass,
}

/// The cell that the code `n` stands for, if it stands for one.
pub open spec fn cell_of_code(n: i32) -> Option<TileCell> {
    if n == -1 {
        Some(TileCell::Any)
    } else if n == 0 {
        Some(TileCell::Air)
    } else if n == 1 {
        Some(TileCell::Wall)
    } else if n == 2 {
        Some(TileCell::SlopeBottomLeft)
    } else if n == 3 {
        Some(TileCell::SlopeBottomRight)
    } else if n == 4 {
        Some(TileCell::SlopeTopLeft)
    } else if n == 5 {
        Some(TileCell::SlopeTopRight)
    } else if n == 6 {
        Some(TileCell::Floor)
    } else if n == 7 {
        Some(TileCell::Entrance)
    } else if n == 9 {
        Some(TileCell::Glass)
    } else {
        None
    }
}

impl TileCell {
    /// The cell with the code `n`. A code that stands for no cell is an
    /// `InvalidValue` that holds the code in decimal.
    pub fn from_number(n: i32) -> (r: Result<TileCell, DeserError>)
        ensures
            match r {
                Ok(cell) => cell_of_code(n) == Some(cell),
                Err(e) => cell_of_code(n) is None && e@ == DeserErrorView::InvalidValue(
                    decimal_text(n as int),
                ),
            },
    {
        match n {
            -1 => Ok(TileCell::Any),
            0 => Ok(TileCell::Air),
            1 => Ok(TileCell::Wall),
            2 => Ok(TileCell::SlopeBottomLeft),
            3 => Ok(TileCell::SlopeBottomRight),
            4 => Ok(TileCell::SlopeTopLeft),
            5 => Ok(TileCell::SlopeTopRight),
            6 => Ok(TileCell::Floor),
            7 => Ok(TileCell::Entrance),
            9 => Ok(TileCell::Glass),
            _ => Err(DeserError::InvalidValue(decimal_string(n))),
        }
    }
}

/// How the editor renders a tile.
#[derive(Debug, Clone, Copy, PartialEq, Eq, Structural)]
pub enum TileType {
    /// `voxelStruct`.
    VoxelStruct,
    /// `voxelStructRockType`.
    VoxelStructRockType,
    /// `voxelStructRandomDisplaceHorizontal`.
    VoxelStructRandomDisplaceHorizontal,
    /// `voxelStructRandomDisplaceVertical`.
    VoxelStructRandomDisplaceVertical,
    /// `voxelStructSandType`.
    VoxelStructSandType,
    /// `box`.
    Box,
}

/// The tile type that `text` names, if it names one.
pub open spec fn tile_type_of(text: Seq<char>) -> Option<TileType> {
    if text == "voxelStruct"@ {
        Some(TileType::VoxelStruct)
    } else if text == "voxelStructRockType"@ {
        Some(TileType::VoxelStructRockType)
    } else if text == "voxelStructRandomDisplaceHorizontal"@ {
        Some(TileType::VoxelStructRandomDisplaceHorizontal)
    } else if text == "voxelStructRandomDisplaceVertical"@ {
        Some(TileType::VoxelStructRandomDisplaceVertical)
    } else if text == "voxelStructSandType"@ {
        Some(TileType::VoxelStructSandType)
    } else if text == "box"@ {
        Some(TileType::Box)
    } else {
        None
    }
}

impl TileType {
    /// The tile type that `text` names. A text that names none is an
    /// `InvalidValue` that holds the text.
    pub fn from_string(text: &str) -> (r: Result<TileType, DeserError>)
        ensures
            match r {
                Ok(tile_type) => tile_type_of(text@) == Some(tile_type),
                Err(e) => tile_type_of(text@) is None && e@ == DeserErrorView::InvalidValue(text@),
            },
    {
        if same_text(text, "voxelStruct") {
            Ok(TileType::VoxelStruct)
        } else if same_text(text, "voxelStructRockType") {
            Ok(TileType::VoxelStructRockType)
        } else if same_text(text, "voxelStructRandomDisplaceHorizontal") {
            Ok(TileType::VoxelStructRandomDisplaceHorizontal)
        } else if same_text(text, "voxelStructRandomDisplaceVertical") {
            Ok(TileType::VoxelStructRandomDisplaceVertical)
        } else if same_text(text, "voxelStructSandType") {
            Ok(TileType::VoxelStructSandType)
        } else if same_text(text, "box") {
            Ok(TileType::Box)
        } else {
            Err(DeserError::InvalidValue(text.to_owned()))
        }
    }
}

/// One tile definition.
#[derive(Debug)]
pub struct TileInfo {
    /// `nm`: the name.
    pub name: String,
    /// `sz`: the coordinates of the size.
    pub size: Vec<i32>,
    /// `specs`: what the tile asks of the cells of the first layer.
    pub specs: Vec<TileCell>,
    /// `specs2`: what the tile asks of the cells of the second layer, if
    /// anything.
    pub specs2: Option<Vec<TileCell>>,
    /// `tp`: how the tile is rendered.
    pub tile_type: TileType,
    /// `repeatL`.
    pub repeat_layers: Option<Vec<i32>>,
    /// `bfTiles`.
    pub buffer_tiles: i32,
    /// `rnd`.
    pub random_vars: Option<i32>,
    /// `ptPos`.
    pub preview_pos: i32,
    /// `tags`.
    pub tags: Vec<String>,
    /// Whether the tile is in use. The text of a record does not say.
    pub active: bool,
}

/// The items of a list that may be absent.
pub open spec fn seq_of<T>(list: Option<Vec<T>>) -> Option<Seq<T>> {
    match list {
        Some(items) => Some(items@),
        None => None,
    }
}

/// A `TileInfo` as a mathematical value.
pub struct TileInfoView {
    pub name: Seq<char>,
    pub size: Seq<i32>,
    pub specs: Seq<TileCell>,
    pub specs2: Option<Seq<TileCell>>,
    pub tile_type: TileType,
    pub repeat_layers: Option<Seq<i32>>,
    pub buffer_tiles: i32,
    pub random_vars: Option<i32>,
    pub preview_pos: i32,
    pub tags: Seq<Seq<char>>,
    pub active: bool,
}

impl View for TileInfo {
    type V = TileInfoView;

    open spec fn view(&self) -> TileInfoView {
        TileInfoView {
            name: self.name@,
            size: self.size@,
            specs: self.specs@,
            specs2: seq_of(self.specs2),
            tile_type: self.tile_type,
            repeat_layers: seq_of(self.repeat_layers),
            buffer_tiles: self.buffer_tiles,
            random_vars: self.random_vars,
            preview_pos: self.preview_pos,
            tags: self.tags.deep_view(),
            active: self.active,
        }
    }
}

impl DeepView for TileInfo {
    type V = TileInfoView;

    open spec fn deep_view(&self) -> TileInfoView {
        self@
    }
}

/// A copy of `v`.
pub fn clone_numbers(v: &Vec<i32>) -> (r: Vec<i32>)
    ensures
        r@ == v@,
{
    let mut out: Vec<i32> = Vec::new();
    let mut i: usize = 0;
    while i < v.len()
        invariant
            i <= v.len(),
            out@ == v@.take(i as int),
        decreases v.len() - i,
    {
        out.push(v[i]);
        i += 1;
        assert(out@ =~= v@.take(i as int));
    }
    assert(v@.take(v.len() as int) =~= v@);
    out
}

/// A copy of `v`.
pub fn clone_cells(v: &Vec<TileCell>) -> (r: Vec<TileCell>)
    ensures
        r@ == v@,
{
    let mut out: Vec<TileCell> = Vec::new();
    let mut i: usize = 0;
    while i < v.len()
        invariant
            i <= v.len(),
            out@ == v@.take(i as int),
        decreases v.len() - i,
    {
        out.push(v[i]);
        i += 1;
        assert(out@ =~= v@.take(i as int));
    }
    assert(v@.take(v.len() as int) =~= v@);
    out
}

/// A copy of `v`.
pub fn clone_strings(v: &Vec<String>) -> (r: Vec<String>)
    ensures
        r.deep_view() == v.deep_view(),
{
    let mut out: Vec<String> = Vec::new();
    let mut i: usize = 0;
    while i < v.len()
        invariant
            i <= v.len(),
            out.len() == i,
            forall|j: int| 0 <= j < i ==> out@[j]@ == v@[j]@,
        decreases v.len() - i,
    {
        out.push(v[i].clone());
        i += 1;
    }
    assert(out.deep_view() =~= v.deep_view());
    out
}

/// Whether `a` and `b` hold the same numbers in the same order.
pub fn same_numbers(a: &Vec<i32>, b: &Vec<i32>) -> (r: bool)
    ensures
        r == (a@ == b@),
{
    if a.len() != b.len() {
        return false;
    }
    let mut i: usize = 0;
    while i < a.len()
        invariant
            i <= a.len(),
            a.len() == b.len(),
            forall|j: int| 0 <= j < i ==> a@[j] == b@[j],
        decreases a.len() - i,
    {
        if a[i] != b[i] {
            return false;
        }
        i += 1;
    }
    assert(a@ =~= b@);
    true
}

/// Whether `a` and `b` hold the same cells in the same order.
pub fn same_cells(a: &Vec<TileCell>, b: &Vec<TileCell>) -> (r: bool)
    ensures
        r == (a@ == b@),
{
    if a.len() != b.len() {
        return false;
    }
    let mut i: usize = 0;
    while i < a.len()
        invariant
            i <= a.len(),
            a.len() == b.len(),
            forall|j: int| 0 <= j < i ==> a@[j] == b@[j],
        decreases a.len() - i,
    {
        if a[i] != b[i] {
            return false;
        }
        i += 1;
    }
    assert(a@ =~= b@);
    true
}

/// Whether `a` and `b` hold the same texts in the same order.
pub fn same_strings(a: &Vec<String>, b: &Vec<String>) -> (r: bool)
    ensures
        r == (a.deep_view() == b.deep_view()),
{
    if a.len() != b.len() {
        assert(a.deep_view().len() != b.deep_view().len());
        return false;
    }
    let mut i: usize = 0;
    while i < a.len()
        invariant
            i <= a.len(),
            a.len() == b.len(),
            forall|j: int| 0 <= j < i ==> a@[j]@ == b@[j]@,
        decreases a.len() - i,
    {
        if !same_text(a[i].as_str(), b[i].as_str()) {
            assert(a.deep_view()[i as int] != b.deep_view()[i as int]);
            return false;
        }
        i += 1;
    }
    assert(a.deep_view() =~= b.deep_view());
    true
}

impl Clone for TileInfo {
    /// A copy that is equal in every field.
    fn clone(&self) -> (r: Self)
        ensures
            r@ == self@,
    {
        TileInfo {
            name: self.name.clone(),
            size: clone_numbers(&self.size),
            specs: clone_cells(&self.specs),
            specs2: match &self.specs2 {
                Some(cells) => Some(clone_cells(cells)),
                None => None,
            },
            tile_type: self.tile_type,
            repeat_layers: match &self.repeat_layers {
                Some(layers) => Some(clone_numbers(layers)),
                None => None,
            },
            buffer_tiles: self.buffer_tiles,
            random_vars: self.random_vars,
            preview_pos: self.preview_pos,
            tags: clone_strings(&self.tags),
            active: self.active,
        }
    }
}

impl PartialEq for TileInfo {
    /// Two tiles are equal where every field of one equals that of the
    /// other.
    fn eq(&self, other: &Self) -> (r: bool) {
        let specs2 = match &self.specs2 {
            Some(a) => match &other.specs2 {
                Some(b) => same_cells(a, b),
                None => false,
            },
            None => other.specs2.is_none(),
        };
        let repeat_layers = match &self.repeat_layers {
            Some(a) => match &other.repeat_layers {
                Some(b) => same_numbers(a, b),
                None => false,
            },
            None => other.repeat_layers.is_none(),
        };
        let random_vars = match self.random_vars {
            Some(a) => match other.random_vars {
                Some(b) => a == b,
                None => false,
            },
            None => other.random_vars.is_none(),
        };
        same_text(self.name.as_str(), other.name.as_str()) && same_numbers(&self.size, &other.size)
            && same_cells(&self.specs, &other.specs) && specs2 && self.tile_type
            == other.tile_type && repeat_layers && self.buffer_tiles == other.buffer_tiles
            && random_vars && self.preview_pos == other.preview_pos && same_strings(
            &self.tags,
            &other.tags,
        ) && self.active == other.active
    }
}

impl vstd::std_specs::cmp::PartialEqSpecImpl for TileInfo {
    open spec fn obeys_eq_spec() -> bool {
        true
    }

    open spec fn eq_spec(&self, other: &Self) -> bool {
        self@ == other@
    }
}

} // verus!

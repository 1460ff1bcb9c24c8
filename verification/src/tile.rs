//! Cell categories, terrain, content and tiles.

use vstd::prelude::*;

verus! {

/// The working category of a cell while the grid is being generated.
#[derive(Debug, Copy, Clone, PartialEq, Eq, Structural, Hash)]
pub enum PreTileType {
    Grass,
    Water,
    DeepWater,
    Sand,
    Mountain,
    Lava,
    /// A provisional category, still to be segmented into regions.
    Zone(usize),
    Road,
    /// The neutral placeholder that segmentation leaves behind.
    Void,
    Hill,
}

/// A provisional cell: its category and its elevation percentile.
#[derive(Debug, Clone, Copy, PartialEq, Eq, Structural)]
pub struct PreTile {
    pub pre_tiletype: PreTileType,
    pub elevation: usize,
}

/// The terrain vocabulary of the finished world.
#[derive(Debug, Copy, Clone, PartialEq, Eq, Structural, Hash)]
pub enum TileType {
    DeepWater,
    ShallowWater,
    Sand,
    Grass,
    Street,
    Hill,
    Mountain,
    Snow,
    Lava,
    Teleport(bool),
    Wall,
}

/// What a cell holds. Quantities are carried along unchanged; ranges are given
/// by their two ends.
#[derive(Debug, Copy, Clone, PartialEq, Eq, Structural, Hash)]
pub enum Content {
    Rock(usize),
    Tree(usize),
    Garbage(usize),
    Fire,
    Coin(usize),
    Bin(usize, usize),
    Crate(usize, usize),
    Bank(usize, usize),
    Water(usize),
    Market(usize),
    Fish(usize),
    Building,
    Bush(usize),
    JollyBlock(usize),
    Scarecrow,
    /// The cell holds nothing.
    Empty,
}

/// A finished cell.
#[derive(Debug, Copy, Clone, PartialEq, Eq, Structural)]
pub struct Tile {
    pub tile_type: TileType,
    pub content: Content,
    pub elevation: usize,
}

/// Number of distinct terrain keys, `Teleport(true)` and `Teleport(false)` counted apart.
pub const TERRAIN_KEYS: usize = 12;

/// The slot of a terrain type in a table indexed by terrain.
pub open spec fn terrain_slot(t: TileType) -> int {
    match t {
        TileType::DeepWater => 0,
        TileType::ShallowWater => 1,
        TileType::Sand => 2,
        TileType::Grass => 3,
        TileType::Street => 4,
        TileType::Hill => 5,
        TileType::Mountain => 6,
        TileType::Snow => 7,
        TileType::Lava => 8,
        TileType::Teleport(false) => 9,
        TileType::Wall => 10,
        TileType::Teleport(true) => 11,
    }
}

/// The terrain type that owns a slot; slots out of range belong to `Teleport(true)`.
pub open spec fn slot_terrain(i: int) -> TileType {
    if i == 0 {
        TileType::DeepWater
    } else if i == 1 {
        TileType::ShallowWater
    } else if i == 2 {
        TileType::Sand
    } else if i == 3 {
        TileType::Grass
    } else if i == 4 {
        TileType::Street
    } else if i == 5 {
        TileType::Hill
    } else if i == 6 {
        TileType::Mountain
    } else if i == 7 {
        TileType::Snow
    } else if i == 8 {
        TileType::Lava
    } else if i == 9 {
        TileType::Teleport(false)
    } else if i == 10 {
        TileType::Wall
    } else {
        TileType::Teleport(true)
    }
}

/// Number of distinct kinds of content.
pub const CONTENT_KINDS: usize = 16;

/// The kind of a content value: its variant, whatever it carries.
pub open spec fn content_kind(c: Content) -> int {
    match c {
        Content::Rock(_) => 0,
        Content::Tree(_) => 1,
        Content::Garbage(_) => 2,
        Content::Fire => 3,
        Content::Coin(_) => 4,
        Content::Bin(_, _) => 5,
        Content::Crate(_, _) => 6,
        Content::Bank(_, _) => 7,
        Content::Water(_) => 8,
        Content::Market(_) => 9,
        Content::Fish(_) => 10,
        Content::Building => 11,
        Content::Bush(_) => 12,
        Content::JollyBlock(_) => 13,
        Content::Scarecrow => 14,
        Content::Empty => 15,
    }
}

/// The terrain that a resolved category stands for; provisional categories and
/// the placeholder stand for none.
pub open spec fn resolved_terrain(t: PreTileType) -> Option<TileType> {
    match t {
        PreTileType::Grass => Some(TileType::Grass),
        PreTileType::Water => Some(TileType::ShallowWater),
        PreTileType::DeepWater => Some(TileType::DeepWater),
        PreTileType::Sand => Some(TileType::Sand),
        PreTileType::Mountain => Some(TileType::Mountain),
        PreTileType::Lava => Some(TileType::Lava),
        PreTileType::Road => Some(TileType::Street),
        PreTileType::Hill => Some(TileType::Hill),
        PreTileType::Zone(_) => None,
        PreTileType::Void => None,
    }
}

impl PreTile {
    /// A cell of provisional category `id` at the given elevation.
    pub fn new(id: usize, elevation: usize) -> (t: Self)
        ensures
            t.pre_tiletype == PreTileType::Zone(id),
            t.elevation == elevation,
    {
        Self { pre_tiletype: PreTileType::Zone(id), elevation }
    }
}

impl PreTileType {
    /// The terrain of a resolved category.
    pub fn to_tiletype(&self) -> (t: Option<TileType>)
        ensures
            t == resolved_terrain(*self),
    {
        match self {
            PreTileType::Grass => Some(TileType::Grass),
            PreTileType::Water => Some(TileType::ShallowWater),
            PreTileType::DeepWater => Some(TileType::DeepWater),
            PreTileType::Sand => Some(TileType::Sand),
            PreTileType::Mountain => Some(TileType::Mountain),
            PreTileType::Lava => Some(TileType::Lava),
            PreTileType::Road => Some(TileType::Street),
            PreTileType::Hill => Some(TileType::Hill),
            PreTileType::Zone(_) => None,
            PreTileType::Void => None,
        }
    }
}

impl TileType {
    /// The slot of this terrain type in a table indexed by terrain.
    pub fn slot(&self) -> (i: usize)
        ensures
            i == terrain_slot(*self),
            i < TERRAIN_KEYS,
            slot_terrain(i as int) == *self,
    {
        match self {
            TileType::DeepWater => 0,
            TileType::ShallowWater => 1,
            TileType::Sand => 2,
            TileType::Grass => 3,
            TileType::Street => 4,
            TileType::Hill => 5,
            TileType::Mountain => 6,
            TileType::Snow => 7,
            TileType::Lava => 8,
            TileType::Teleport(false) => 9,
            TileType::Wall => 10,
            TileType::Teleport(true) => 11,
        }
    }

    /// The terrain type that owns slot `i`.
    pub fn from_slot(i: usize) -> (t: Self)
        ensures
            t == slot_terrain(i as int),
            i < TERRAIN_KEYS ==> terrain_slot(t) == i,
    {
        if i == 0 {
            TileType::DeepWater
        } else if i == 1 {
            TileType::ShallowWater
        } else if i == 2 {
            TileType::Sand
        } else if i == 3 {
            TileType::Grass
        } else if i == 4 {
            TileType::Street
        } else if i == 5 {
            TileType::Hill
        } else if i == 6 {
            TileType::Mountain
        } else if i == 7 {
            TileType::Snow
        } else if i == 8 {
            TileType::Lava
        } else if i == 9 {
            TileType::Teleport(false)
        } else if i == 10 {
            TileType::Wall
        } else {
            TileType::Teleport(true)
        }
    }
}

impl Content {
    /// The kind of this content, a number below `CONTENT_KINDS`.
    pub fn kind(&self) -> (k: usize)
        ensures
            k == content_kind(*self),
            k < CONTENT_KINDS,
    {
        match self {
            Content::Rock(_) => 0,
            Content::Tree(_) => 1,
            Content::Garbage(_) => 2,
            Content::Fire => 3,
            Content::Coin(_) => 4,
            Content::Bin(_, _) => 5,
            Content::Crate(_, _) => 6,
            Content::Bank(_, _) => 7,
            Content::Water(_) => 8,
            Content::Market(_) => 9,
            Content::Fish(_) => 10,
            Content::Building => 11,
            Content::Bush(_) => 12,
            Content::JollyBlock(_) => 13,
            Content::Scarecrow => 14,
            Content::Empty => 15,
        }
    }
}

/// Something a path can cross at a price.
pub trait Walkable {
    /// The price of stepping onto this cell, as contracts speak of it. A type
    /// that does not say otherwise prices every cell at 1.
    open spec fn spec_cost(&self) -> u32 {
        1
    }

    /// The price of stepping onto this cell: the same at every call.
    fn cost(&self) -> (c: u32)
        ensures
            c == self.spec_cost(),
    ;
}

/// Price of stepping onto a cell of each working category.
pub open spec fn category_cost(t: PreTileType) -> u32 {
    match t {
        PreTileType::Grass => 1,
        PreTileType::Water => 3,
        PreTileType::DeepWater => 10,
        PreTileType::Sand => 1,
        PreTileType::Mountain => 500,
        PreTileType::Lava => 100000,
        PreTileType::Road => 0,
        _ => 1,
    }
}

/// Price of stepping onto a finished tile of each terrain.
pub open spec fn terrain_cost(t: TileType) -> u32 {
    match t {
        TileType::DeepWater => 500,
        TileType::ShallowWater => 10,
        TileType::Grass => 1,
        TileType::Sand => 1,
        TileType::Mountain => 3,
        TileType::Snow => 4,
        TileType::Lava => 666,
        TileType::Teleport(_) => 69,
        TileType::Hill => 2,
        TileType::Street => 0,
        TileType::Wall => 0,
    }
}

impl Walkable for PreTileType {
    open spec fn spec_cost(&self) -> u32 {
        category_cost(*self)
    }

    fn cost(&self) -> (c: u32) {
        match self {
            PreTileType::Grass => 1,
            PreTileType::Water => 3,
            PreTileType::DeepWater => 10,
            PreTileType::Sand => 1,
            PreTileType::Mountain => 500,
            PreTileType::Lava => 100000,
            PreTileType::Road => 0,
            _ => 1,
        }
    }
}

impl Walkable for Tile {
    open spec fn spec_cost(&self) -> u32 {
        terrain_cost(self.tile_type)
    }

    fn cost(&self) -> (c: u32) {
        match self.tile_type {
            TileType::DeepWater => 500,
            TileType::ShallowWater => 10,
            TileType::Grass => 1,
            TileType::Sand => 1,
            TileType::Mountain => 3,
            TileType::Snow => 4,
            TileType::Lava => 666,
            TileType::Teleport(_) => 69,
            TileType::Hill => 2,
            TileType::Street => 0,
            TileType::Wall => 0,
        }
    }
}

/// A grid cell that carries a working category which segmentation may replace.
pub trait Cell: Copy {
    /// The category of the cell.
    spec fn kind(&self) -> PreTileType;

    /// The same cell with its category replaced.
    spec fn with_kind(&self, k: PreTileType) -> Self;

    /// The category of the cell.
    fn get_kind(&self) -> (k: PreTileType)
        ensures
            k == self.kind(),
    ;

    /// The same cell with its category replaced.
    fn set_kind(&self, k: PreTileType) -> (c: Self)
        ensures
            c == self.with_kind(k),
    ;

    /// A cell whose category was replaced has the new category.
    proof fn lemma_with_kind(&self, k: PreTileType)
        ensures
            self.with_kind(k).kind() == k,
    ;
}

impl Cell for PreTileType {
    open spec fn kind(&self) -> PreTileType {
        *self
    }

    open spec fn with_kind(&self, k: PreTileType) -> Self {
        k
    }

    fn get_kind(&self) -> (k: PreTileType) {
        *self
    }

    fn set_kind(&self, k: PreTileType) -> (c: Self) {
        k
    }

    proof fn lemma_with_kind(&self, k: PreTileType) {
    }
}

impl Cell for PreTile {
    open spec fn kind(&self) -> PreTileType {
        self.pre_tiletype
    }

    open spec fn with_kind(&self, k: PreTileType) -> Self {
        PreTile { pre_tiletype: k, elevation: self.elevation }
    }

    fn get_kind(&self) -> (k: PreTileType) {
        self.pre_tiletype
    }

    fn set_kind(&self, k: PreTileType) -> (c: Self) {
        PreTile { pre_tiletype: k, elevation: self.elevation }
    }

    proof fn lemma_with_kind(&self, k: PreTileType) {
    }
}

/// A cell over which a road can be laid.
pub trait Paved: Copy {
    /// The cell with a road over it.
    spec fn paved(&self) -> Self;

    /// The cell with a road over it.
    fn pave(&self) -> (c: Self)
        ensures
            c == self.paved(),
    ;

    /// Paving what is paved changes nothing.
    proof fn lemma_paved_once(&self)
        ensures
            self.paved().paved() == self.paved(),
    ;
}

impl Paved for PreTileType {
    open spec fn paved(&self) -> Self {
        PreTileType::Road
    }

    fn pave(&self) -> (c: Self) {
        PreTileType::Road
    }

    proof fn lemma_paved_once(&self) {
    }
}

impl Paved for Tile {
    /// A road has the terrain of a street and holds nothing.
    open spec fn paved(&self) -> Self {
        Tile { tile_type: TileType::Street, content: Content::Empty, elevation: self.elevation }
    }

    fn pave(&self) -> (c: Self) {
        Tile { tile_type: TileType::Street, content: Content::Empty, elevation: self.elevation }
    }

    proof fn lemma_paved_once(&self) {
    }
}

} // verus!

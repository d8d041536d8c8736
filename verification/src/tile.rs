//! Tiles: the cells of cards and of the map.

use rand::StdRng;
use vstd::prelude::*;
use vstd::string::StringExecFns;

use crate::random::pick_text;

verus! {

/// What stands on a cell.
#[derive(Copy, Clone, PartialEq, Eq, Debug, Structural)]
pub enum TileType {
    Floor,
    Wall,
    Obstacle,
    Curiosity,
}

/// The five kinds of curio.
#[derive(Copy, Clone, PartialEq, Eq, Debug, Structural)]
pub enum EndType {
    Children,
    Body,
    Lair,
    Item,
    Rest,
}

/// One cell. `passable` follows from `ttype` in every tile that the
/// constructors make; `visible` starts false and is only ever set.
#[derive(Clone, Debug)]
pub struct Tile {
    pub ttype: TileType,
    pub passable: bool,
    pub visible: bool,
    pub search_text: String,
    /// Name of the icon
    pub icon: String,
}

/// A tile as the contracts see it: the texts as sequences of characters.
pub struct TileView {
    pub ttype: TileType,
    pub passable: bool,
    pub visible: bool,
    pub search_text: Seq<char>,
    pub icon: Seq<char>,
}

impl View for Tile {
    type V = TileView;

    open spec fn view(&self) -> TileView {
        TileView {
            ttype: self.ttype,
            passable: self.passable,
            visible: self.visible,
            search_text: self.search_text@,
            icon: self.icon@,
        }
    }
}

/// Whether a tile of this type can be walked on.
pub open spec fn type_passable(ttype: TileType) -> bool {
    !(ttype is Wall || ttype is Obstacle)
}

/// The icon of a tile of this type.
pub open spec fn type_icon(ttype: TileType) -> Seq<char> {
    if ttype is Wall {
        "wall.png"@
    } else {
        "floor.png"@
    }
}

/// The name under which a curio of this kind is registered and found.
pub open spec fn end_name(end_type: EndType) -> Seq<char> {
    match end_type {
        EndType::Children => "children"@,
        EndType::Body => "body"@,
        EndType::Lair => "lair"@,
        EndType::Item => "item"@,
        EndType::Rest => "rest"@,
    }
}

/// A fresh, unseen tile of the given type and text.
pub open spec fn fresh_tile(ttype: TileType, text: Seq<char>) -> TileView {
    TileView {
        ttype,
        passable: type_passable(ttype),
        visible: false,
        search_text: text,
        icon: type_icon(ttype),
    }
}

impl TileView {
    /// The passable flag agrees with the type.
    pub open spec fn consistent(self) -> bool {
        self.passable == type_passable(self.ttype)
    }
}

impl EndType {
    /// The name of this kind of curio.
    pub fn name(&self) -> (name: String)
        ensures
            name@ == end_name(*self),
    {
        match self {
            EndType::Children => String::from_str("children"),
            EndType::Body => String::from_str("body"),
            EndType::Lair => String::from_str("lair"),
            EndType::Item => String::from_str("item"),
            EndType::Rest => String::from_str("rest"),
        }
    }
}

impl Tile {
    /// A copy of this tile.
    pub fn duplicate(&self) -> (copy: Tile)
        ensures
            copy@ == self@,
    {
        Tile {
            ttype: self.ttype,
            passable: self.passable,
            visible: self.visible,
            search_text: self.search_text.clone(),
            icon: self.icon.clone(),
        }
    }

    /// A regular tile with the given text. Curios are not regular tiles.
    pub fn with_text(tile_type: TileType, text: String) -> (made: Option<Tile>)
        ensures
            made is None <==> tile_type is Curiosity,
            made matches Some(tile) ==> tile@ == fresh_tile(tile_type, text@),
    {
        if let TileType::Curiosity = tile_type {
            return None;
        }
        let tile_image = match tile_type {
            TileType::Wall => String::from_str("wall.png"),
            _ => String::from_str("floor.png"),
        };
        let tile_pass = match tile_type {
            TileType::Wall | TileType::Obstacle => false,
            _ => true,
        };
        Some(
            Tile {
                ttype: tile_type,
                passable: tile_pass,
                visible: false,
                search_text: text,
                icon: tile_image,
            },
        )
    }

    /// A regular tile. An obstacle carries one of the `obstacles` lines,
    /// drawn at random, or the empty text if there are none; any other tile
    /// carries the text "empty".
    pub fn init_regular(tile_type: TileType, obstacles: &Vec<String>, rng: &mut StdRng) -> (made:
        Option<Tile>)
        ensures
            made is None <==> tile_type is Curiosity,
            made matches Some(tile) ==> {
                &&& tile@ == fresh_tile(tile_type, tile@.search_text)
                &&& !(tile_type is Obstacle) ==> tile@.search_text == "empty"@
                &&& tile_type is Obstacle && obstacles@.len() == 0 ==> tile@.search_text
                    == Seq::<char>::empty()
                &&& tile_type is Obstacle && obstacles@.len() > 0 ==> exists|i: int|
                    0 <= i < obstacles@.len() && tile@.search_text == #[trigger] obstacles@[i]@
            },
    {
        let message = match tile_type {
            TileType::Obstacle => pick_text(rng, obstacles),
            _ => String::from_str("empty"),
        };
        Tile::with_text(tile_type, message)
    }

    /// The curio tile of the given kind: a passable tile whose text is the
    /// kind's name.
    pub fn init_curio(end_type: EndType) -> (made: Option<Tile>)
        ensures
            made matches Some(tile) && tile@ == fresh_tile(TileType::Curiosity, end_name(end_type)),
    {
        Some(
            Tile {
                ttype: TileType::Curiosity,
                passable: true,
                visible: false,
                search_text: end_type.name(),
                icon: String::from_str("floor.png"),
            },
        )
    }
}

} // verus!

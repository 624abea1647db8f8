//! Plain choices and handles behind the bot's slash commands.

use vstd::prelude::*;

verus! {

/// Tile artwork for rendered hands.
#[derive(Clone, Copy, Debug, PartialEq, Eq, Structural)]
pub enum TileStyle {
    Yellow,
    Red,
    Black,
    MartinPersson,
}

/// Tile set a user may pick; yellow unless told otherwise.
#[derive(Clone, Copy, Debug, PartialEq, Eq, Structural)]
pub enum Tileset {
    Yellow,
    Red,
    Black,
    MartinPersson,
}

impl Default for Tileset {
    fn default() -> (r: Self)
        ensures
            r == Tileset::Yellow,
    {
        Tileset::Yellow
    }
}

pub open spec fn style_of(t: Tileset) -> TileStyle {
    match t {
        Tileset::Yellow => TileStyle::Yellow,
        Tileset::Red => TileStyle::Red,
        Tileset::Black => TileStyle::Black,
        Tileset::MartinPersson => TileStyle::MartinPersson,
    }
}

impl From<Tileset> for TileStyle {
    fn from(value: Tileset) -> (r: Self) {
        match value {
            Tileset::Yellow => TileStyle::Yellow,
            Tileset::Red => TileStyle::Red,
            Tileset::Black => TileStyle::Black,
            Tileset::MartinPersson => TileStyle::MartinPersson,
        }
    }
}

impl vstd::std_specs::convert::FromSpecImpl<Tileset> for TileStyle {
    open spec fn obeys_from_spec() -> bool {
        true
    }

    open spec fn from_spec(v: Tileset) -> TileStyle {
        style_of(v)
    }
}

/// How the score command counts points; the standard limits unless told
/// otherwise.
#[derive(Clone, Copy, Debug, PartialEq, Eq, Structural)]
pub enum Mode {
    Default,
    Loose,
    Unlimited,
}

impl Default for Mode {
    fn default() -> (r: Self)
        ensures
            r == Mode::Default,
    {
        Mode::Default
    }
}

/// The bot's shared services.
pub struct ChombotBase {}

impl ChombotBase {
    pub fn new() -> (r: Self) {
        ChombotBase {  }
    }
}

} // verus!

//! Core of a tile-based dungeon game: level generation from square cards,
//! reachability queries over the passable tiles, and the turn-based update
//! protocol of the player, the monster and the collectible resources.

use vstd::prelude::*;

pub mod card;
pub mod events;
pub mod field;
pub mod generate;
pub mod graphics;
pub mod map;
pub mod objects;
pub mod path;
pub mod permutation;
pub mod random;
pub mod resources;
pub mod settings;
pub mod tile;

verus! {

/// Picks a seed from a reading of the clock: the whole seconds since the
/// epoch where they fit in a `usize`, the sub-second nanoseconds otherwise.
pub fn generate_seed(secs: u64, subsec_nanos: u32) -> (seed: usize)
    ensures
        seed as int == if secs as int > usize::MAX as int {
            subsec_nanos as int
        } else {
            secs as int
        },
{
    if secs > usize::MAX as u64 {
        subsec_nanos as usize
    } else {
        secs as usize
    }
}

} // verus!

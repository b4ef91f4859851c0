//! Game logic of a top-down survival world: terrain chunks, creature
//! planning and path finding, inventories and item stacks.
pub mod grid;
pub mod world;
pub mod creatures;
pub mod items;
pub mod debug;
pub mod asset_loading;

use vstd::prelude::*;

verus! {
} // verus!

//! What the tiles and foliage of a chunk are drawn with, and which chunks
//! are shown.
use vstd::prelude::*;
use crate::grid::{GridPos, abs};
use crate::world::world_generation::{WorldTile, Foliage, TreeType, CHUNK_SIZE};

verus! {

/// How far, in chunks along each axis, chunks are shown around the player.
pub const RENDER_DISTANCE: u32 = 2;

/// Directory of the image variants a ground type is drawn with.
pub fn tile_asset_dir(tile: WorldTile) -> (dir: &'static str)
    ensures
        tile == WorldTile::Grass ==> dir@ == "grass_variants/grass_full"@,
        tile == WorldTile::Snow ==> dir@ == "snow/snow_full"@,
        tile == WorldTile::Water ==> dir@ == "water/water_full"@,
{
    match tile {
        WorldTile::Grass => "grass_variants/grass_full",
        WorldTile::Snow => "snow/snow_full",
        WorldTile::Water => "water/water_full",
    }
}

/// Directory of the image variants a kind of foliage is drawn with; `None`
/// for foliage drawn with the default image.
pub fn foliage_asset_dir(foliage: Foliage) -> (dir: Option<&'static str>)
    ensures
        foliage == Foliage::Tree(TreeType::Oak) ==> (dir matches Some(d) && d@ == "foliage/tree"@),
        foliage != Foliage::Tree(TreeType::Oak) ==> dir is None,
{
    match foliage {
        Foliage::Tree(TreeType::Oak) => Some("foliage/tree"),
        _ => None,
    }
}

/// A chunk is shown when it lies within the render distance of the player's
/// chunk along both axes.
pub open spec fn spec_in_view(coord: GridPos, player_chunk: GridPos) -> bool {
    abs(coord.x - player_chunk.x) <= RENDER_DISTANCE && abs(coord.y - player_chunk.y) <= RENDER_DISTANCE
}

/// Whether the chunk at `coord` is shown. The differences are taken in
/// `i32`, so they and their absolute values must fit there.
pub fn is_chunk_in_view(coord: GridPos, player_chunk: GridPos) -> (shown: bool)
    requires
        i32::MIN < coord.x - player_chunk.x <= i32::MAX,
        i32::MIN < coord.y - player_chunk.y <= i32::MAX,
    ensures
        shown == spec_in_view(coord, player_chunk),
{
    let dx = coord.x - player_chunk.x;
    let dy = coord.y - player_chunk.y;
    let adx = if dx < 0 { -dx } else { dx };
    let ady = if dy < 0 { -dy } else { dy };
    adx <= RENDER_DISTANCE as i32 && ady <= RENDER_DISTANCE as i32
}

/// World position of the tile at `(x, y)` inside the chunk at `coord`.
pub fn tile_world_pos(coord: GridPos, x: i32, y: i32) -> (p: GridPos)
    requires
        i32::MIN <= coord.x * 16 + x <= i32::MAX,
        i32::MIN <= coord.y * 16 + y <= i32::MAX,
        i32::MIN <= coord.x * 16 <= i32::MAX,
        i32::MIN <= coord.y * 16 <= i32::MAX,
    ensures
        p.x == coord.x * 16 + x,
        p.y == coord.y * 16 + y,
{
    let size = CHUNK_SIZE as i32;
    GridPos { x: coord.x * size + x, y: coord.y * size + y }
}

} // verus!

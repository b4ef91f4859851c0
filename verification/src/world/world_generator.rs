//! The first world generator: a seeded generator, grass and water chunks,
//! and the shore shapes of water tiles.
use vstd::prelude::*;
use crate::grid::GridPos;
use crate::world::world_lib::{in_disk, numeric_seed_from_string, seed_of};
pub use crate::world::world_generation::LoadedChunks;

verus! {

/// Tiles along one side of a chunk.
pub const CHUNK_SIZE: usize = 16;

/// Tiles along one side of a chunk with its one-tile border.
pub const BORDERED_CHUNK_SIZE: usize = 18;

/// How far, in chunks, this generator loads chunks around the player.
pub const LOAD_RADIUS: u32 = 2;

/// Most chunks this generator loads in one frame.
pub const CHUNKS_PER_FRAME: usize = 3;

/// Kind of world to generate.
#[derive(Clone, Copy, Debug, PartialEq, Eq, Structural)]
pub enum WorldType {
    Featured,
}

/// Settings of the generator.
#[derive(Clone, Copy, Debug, PartialEq, Eq, Structural)]
pub struct WorldSettings {
    pub world_type: WorldType,
}

impl WorldSettings {
    /// The default settings: a featured world.
    pub fn default() -> (s: WorldSettings)
        ensures
            s.world_type == WorldType::Featured,
    {
        WorldSettings { world_type: WorldType::Featured }
    }
}

/// A world generator: its numeric seed and settings.
#[derive(Clone, Copy, Debug, PartialEq, Eq, Structural)]
pub struct WorldGenerator {
    pub seed: u64,
    pub settings: WorldSettings,
}

impl WorldGenerator {
    /// A generator seeded from a world name, with the default settings.
    pub fn with_seed(seed_str: &str) -> (g: WorldGenerator)
        ensures
            g.seed == seed_of(seed_str@),
            g.settings.world_type == WorldType::Featured,
    {
        WorldGenerator { seed: numeric_seed_from_string(seed_str), settings: WorldSettings::default() }
    }
}

/// Ground type of a tile in this generator.
#[derive(Clone, Copy, Debug, PartialEq, Eq, Structural)]
pub enum WorldTiles {
    Grass,
    Water,
}

/// A generated chunk: its coordinate and its tiles with a one-tile border.
pub struct Chunk {
    pub coord: GridPos,
    pub data: [[WorldTiles; BORDERED_CHUNK_SIZE]; BORDERED_CHUNK_SIZE],
}

/// Which side of a water tile meets grass.
#[derive(Clone, Copy, Debug, PartialEq, Eq, Structural)]
pub enum WaterEdge {
    Top,
    Bottom,
    Left,
    Right,
    BottomLeft,
    BottomRight,
    TopLeft,
    TopRight,
}

/// The grass around tile `(x, y)` of a bordered grid: grass above comes
/// first, then grass below, each combined with grass to the left, else to the
/// right; then grass to the left, then to the right; `None` when no
/// neighbour along an axis is grass.
pub open spec fn spec_water_edge(d: Seq<Seq<WorldTiles>>, x: int, y: int) -> Option<WaterEdge> {
    let grass = WorldTiles::Grass;
    if d[x][y + 1] == grass {
        if d[x - 1][y] == grass {
            Some(WaterEdge::TopLeft)
        } else if d[x + 1][y] == grass {
            Some(WaterEdge::TopRight)
        } else {
            Some(WaterEdge::Top)
        }
    } else if d[x][y - 1] == grass {
        if d[x - 1][y] == grass {
            Some(WaterEdge::BottomLeft)
        } else if d[x + 1][y] == grass {
            Some(WaterEdge::BottomRight)
        } else {
            Some(WaterEdge::Bottom)
        }
    } else if d[x - 1][y] == grass {
        Some(WaterEdge::Left)
    } else if d[x + 1][y] == grass {
        Some(WaterEdge::Right)
    } else {
        None
    }
}

/// The tiles of a chunk as nested sequences.
pub open spec fn chunk_tiles(chunk: &Chunk) -> Seq<Seq<WorldTiles>> {
    chunk.data@.map_values(|row: [WorldTiles; BORDERED_CHUNK_SIZE]| row@)
}

/// Which side of the tile at `(x, y)` meets grass, for a tile inside the
/// border.
pub fn water_edge(chunk: &Chunk, x: usize, y: usize) -> (edge: Option<WaterEdge>)
    requires
        1 <= x <= CHUNK_SIZE,
        1 <= y <= CHUNK_SIZE,
    ensures
        edge == spec_water_edge(chunk_tiles(chunk), x as int, y as int),
{
    let d = &chunk.data;
    proof {
        assert(chunk_tiles(chunk)[x as int] == d@[x as int]@);
        assert(chunk_tiles(chunk)[x - 1] == d@[x - 1]@);
        assert(chunk_tiles(chunk)[x + 1] == d@[x + 1]@);
    }
    if d[x][y + 1] == WorldTiles::Grass {
        if d[x - 1][y] == WorldTiles::Grass {
            Some(WaterEdge::TopLeft)
        } else if d[x + 1][y] == WorldTiles::Grass {
            Some(WaterEdge::TopRight)
        } else {
            Some(WaterEdge::Top)
        }
    } else if d[x][y - 1] == WorldTiles::Grass {
        if d[x - 1][y] == WorldTiles::Grass {
            Some(WaterEdge::BottomLeft)
        } else if d[x + 1][y] == WorldTiles::Grass {
            Some(WaterEdge::BottomRight)
        } else {
            Some(WaterEdge::Bottom)
        }
    } else if d[x - 1][y] == WorldTiles::Grass {
        Some(WaterEdge::Left)
    } else if d[x + 1][y] == WorldTiles::Grass {
        Some(WaterEdge::Right)
    } else {
        None
    }
}

/// Directory of the image variants a water tile is drawn with, from the
/// grass around it: the corner and side pictures of the top and bottom
/// shores, one shared shore picture for the other sides, and open water when
/// no grass touches the tile.
pub fn water_asset_dir(edge: Option<WaterEdge>) -> (dir: &'static str)
    ensures
        edge == Some(WaterEdge::TopLeft) ==> dir@ == "water/water_edge_top/water_edge_top_left_grass"@,
        edge == Some(WaterEdge::TopRight) ==> dir@ == "water/water_edge_top/water_edge_top_right_grass"@,
        edge == Some(WaterEdge::Top) ==> dir@ == "water/water_edge_top/water_edge_top_grass"@,
        edge == Some(WaterEdge::BottomLeft) ==> dir@ == "water/water_edge_bottom/water_edge_bottom_left_grass"@,
        edge == Some(WaterEdge::BottomRight) ==> dir@ == "water/water_edge_bottom/water_edge_bottom_right_grass"@,
        edge == Some(WaterEdge::Bottom) || edge == Some(WaterEdge::Left) || edge == Some(WaterEdge::Right)
            ==> dir@ == "water/water_edge/water_edge_grass"@,
        edge is None ==> dir@ == "water/water_full"@,
{
    match edge {
        Some(WaterEdge::TopLeft) => "water/water_edge_top/water_edge_top_left_grass",
        Some(WaterEdge::TopRight) => "water/water_edge_top/water_edge_top_right_grass",
        Some(WaterEdge::Top) => "water/water_edge_top/water_edge_top_grass",
        Some(WaterEdge::BottomLeft) => "water/water_edge_bottom/water_edge_bottom_left_grass",
        Some(WaterEdge::BottomRight) => "water/water_edge_bottom/water_edge_bottom_right_grass",
        Some(_) => "water/water_edge/water_edge_grass",
        None => "water/water_full",
    }
}

/// Chunks this generator keeps: those within squared distance 8 of the
/// player's chunk, and the chunk at the origin.
pub open spec fn spec_is_distant(coord: GridPos, player_chunk: GridPos) -> bool {
    crate::grid::dist_sq(coord, player_chunk) > 8 && coord != (GridPos { x: 0, y: 0 })
}

/// Chunks this generator loads around the player's chunk are not unloaded
/// while the player stays in that chunk.
pub proof fn lemma_generated_chunks_are_kept(coord: GridPos, player_chunk: GridPos)
    requires
        in_disk(coord, player_chunk.x as int, player_chunk.y as int, LOAD_RADIUS as int),
    ensures
        !spec_is_distant(coord, player_chunk),
{
    assert((LOAD_RADIUS as int) * (LOAD_RADIUS as int) == 4);
    assert(crate::grid::dist_sq(coord, player_chunk) <= 4);
}

/// Whether this generator unloads the chunk at `coord`. The squared distance
/// is computed in `i32`, so it must fit there.
pub fn is_distant_chunk(coord: GridPos, player_chunk: GridPos) -> (far: bool)
    requires
        i32::MIN <= coord.x - player_chunk.x <= i32::MAX,
        i32::MIN <= coord.y - player_chunk.y <= i32::MAX,
        crate::grid::dist_sq(coord, player_chunk) <= i32::MAX,
    ensures
        far == spec_is_distant(coord, player_chunk),
{
    let dx = coord.x as i64 - player_chunk.x as i64;
    let dy = coord.y as i64 - player_chunk.y as i64;
    assert(0 <= dx * dx <= 0x4000_0000_0000_0000i64) by (nonlinear_arith)
        requires
            -0x8000_0000 <= dx <= 0x8000_0000,
    ;
    assert(0 <= dy * dy <= 0x4000_0000_0000_0000i64) by (nonlinear_arith)
        requires
            -0x8000_0000 <= dy <= 0x8000_0000,
    ;
    let d = dx * dx + dy * dy;
    d > 8 && !(coord.x == 0 && coord.y == 0)
}

} // verus!

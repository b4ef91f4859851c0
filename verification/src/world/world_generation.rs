//! Terrain chunks: their contents, the map of generated chunks, the set of
//! loaded chunk coordinates, and the walking cost of a tile.
use vstd::prelude::*;
use vstd::hash_map::HashMapWithView;
use vstd::hash_set::HashSetWithView;
use crate::grid::{GridPos, key_of, grid_key, lex_lt, lemma_key_injective};
use crate::world::world_lib::{get_points_in_radius, in_disk};

verus! {

broadcast use vstd::std_specs::hash::group_hash_axioms;

/// Tiles along one side of a chunk.
pub const CHUNK_SIZE: usize = 16;

/// Tiles along one side of a chunk together with its one-tile border.
pub const ONION_CHUNK_SIZE: usize = 18;

/// How far, in chunks, chunks are loaded around the player.
pub const RENDER_DISTANCE: u32 = 4;

/// Most chunks loaded in one frame.
pub const CHUNKS_PER_FRAME: usize = 1;

/// Ground type of a tile.
#[derive(Clone, Copy, Debug, PartialEq, Eq, Structural)]
pub enum WorldTile {
    Grass,
    Snow,
    Water,
}

/// Kind of tree.
#[derive(Clone, Copy, Debug, PartialEq, Eq, Structural)]
pub enum TreeType {
    Oak,
}

/// What grows on a tile.
#[derive(Clone, Copy, Debug, PartialEq, Eq, Structural)]
pub enum Foliage {
    /// Nothing grows here (the common case).
    Bare,
    Rock,
    Tree(TreeType),
    Bush,
}

/// Climate region of a tile.
#[derive(Clone, Copy, Debug, PartialEq, Eq, Structural)]
pub enum Biome {
    Ocean,
    Beach,
    Forest,
    Desert,
    Snow,
}

/// The ground type a biome is drawn with.
pub open spec fn spec_tile_from_biome(biome: Biome) -> WorldTile {
    match biome {
        Biome::Ocean => WorldTile::Water,
        Biome::Forest => WorldTile::Grass,
        Biome::Snow => WorldTile::Snow,
        _ => WorldTile::Grass,
    }
}

/// Picks the ground type of a tile from its biome.
pub fn tile_from_biome_data(biome: Biome) -> (tile: WorldTile)
    ensures
        tile == spec_tile_from_biome(biome),
{
    match biome {
        Biome::Ocean => WorldTile::Water,
        Biome::Forest => WorldTile::Grass,
        Biome::Snow => WorldTile::Snow,
        _ => WorldTile::Grass,
    }
}

/// One generated square of the world. Tile and biome grids carry a one-tile
/// border around the chunk; the foliage grid covers the chunk itself.
pub struct Chunk {
    pub coord: GridPos,
    pub tile_data: [[WorldTile; ONION_CHUNK_SIZE]; ONION_CHUNK_SIZE],
    pub foliage_data: [[Foliage; CHUNK_SIZE]; CHUNK_SIZE],
    pub biome_data: [[Biome; ONION_CHUNK_SIZE]; ONION_CHUNK_SIZE],
}

/// The chunk that holds a tile: the floor of the tile coordinates divided by
/// the chunk size.
pub open spec fn chunk_of(tile: GridPos) -> GridPos {
    GridPos { x: (tile.x as int / 16) as i32, y: (tile.y as int / 16) as i32 }
}

/// Position of a tile inside its chunk, each coordinate in `0..16`.
pub open spec fn local_of(tile: GridPos) -> (int, int) {
    (tile.x as int % 16, tile.y as int % 16)
}

/// A tile is its chunk's origin plus its position inside the chunk.
pub proof fn lemma_chunk_split(tile: GridPos)
    ensures
        chunk_of(tile).x * 16 + local_of(tile).0 == tile.x,
        chunk_of(tile).y * 16 + local_of(tile).1 == tile.y,
        0 <= local_of(tile).0 < 16,
        0 <= local_of(tile).1 < 16,
{
}

/// Splits a tile position into its chunk and its position inside the chunk.
pub fn split_tile(tile: GridPos) -> (r: (GridPos, usize, usize))
    requires
        tile.x >= i32::MIN + 15,
        tile.y >= i32::MIN + 15,
    ensures
        r.0 == chunk_of(tile),
        r.1 == local_of(tile).0,
        r.2 == local_of(tile).1,
{
    let size = CHUNK_SIZE as i32;
    let cx = if tile.x >= 0 { tile.x / size } else { (tile.x + 1 - size) / size };
    let cy = if tile.y >= 0 { tile.y / size } else { (tile.y + 1 - size) / size };
    let lx = ((tile.x % size) + size) % size;
    let ly = ((tile.y % size) + size) % size;
    (GridPos { x: cx, y: cy }, lx as usize, ly as usize)
}

/// Walking cost of moving onto a land tile.
pub const MOVE_COST_LAND: u32 = 10;

/// Walking cost of moving onto a water tile.
pub const MOVE_COST_WATER: u32 = 40;

/// The generated chunks, each under its coordinate.
pub struct WorldMap {
    chunks: HashMapWithView<u64, Chunk>,
}

impl WorldMap {
    /// The chunk stored at a chunk coordinate, if any.
    pub closed spec fn chunk_at(&self, coord: GridPos) -> Option<Chunk> {
        if self.chunks@.contains_key(key_of(coord)) {
            Some(self.chunks@[key_of(coord)])
        } else {
            None
        }
    }

    /// Walking cost of a tile: none when its chunk is not generated or when an
    /// oak stands on it, the water cost on water and the land cost otherwise.
    /// Tile and foliage grids are both read at the tile's position in its chunk.
    /// The tile grid carries a one-tile border, so the cell read there holds
    /// the ground of the tile one step left of and below this one; the game
    /// has always read it so, and walking costs follow it.
    pub open spec fn spec_tile_cost(&self, tile: GridPos) -> Option<u32> {
        let (lx, ly) = local_of(tile);
        match self.chunk_at(chunk_of(tile)) {
            None => None,
            Some(chunk) => if chunk.foliage_data@[lx]@[ly] == Foliage::Tree(TreeType::Oak) {
                None
            } else if chunk.tile_data@[lx]@[ly] == WorldTile::Water {
                Some(MOVE_COST_WATER)
            } else {
                Some(MOVE_COST_LAND)
            },
        }
    }

    /// An empty map.
    pub fn new() -> (map: WorldMap)
        ensures
            forall|c: GridPos| #[trigger] map.chunk_at(c) is None,
    {
        WorldMap { chunks: HashMapWithView::new() }
    }

    /// Stores a chunk under its own coordinate, replacing any chunk there.
    pub fn insert_chunk(&mut self, chunk: Chunk)
        ensures
            final(self).chunk_at(chunk.coord) == Some(chunk),
            forall|c: GridPos| c != chunk.coord ==> #[trigger] final(self).chunk_at(c) == old(self).chunk_at(c),
    {
        let ghost coord = chunk.coord;
        let k = grid_key(chunk.coord);
        self.chunks.insert(k, chunk);
        proof {
            assert forall|c: GridPos| c != coord implies #[trigger] self.chunk_at(c) == old(self).chunk_at(c) by {
                lemma_key_injective(c, coord);
            }
        }
    }

    /// Drops the chunk at a coordinate, returning it.
    pub fn remove_chunk(&mut self, coord: GridPos) -> (removed: Option<Chunk>)
        ensures
            removed == old(self).chunk_at(coord),
            final(self).chunk_at(coord) is None,
            forall|c: GridPos| c != coord ==> #[trigger] final(self).chunk_at(c) == old(self).chunk_at(c),
    {
        let k = grid_key(coord);
        let removed = self.chunks.remove(&k);
        proof {
            assert forall|c: GridPos| c != coord implies #[trigger] self.chunk_at(c) == old(self).chunk_at(c) by {
                lemma_key_injective(c, coord);
            }
        }
        removed
    }

    /// The chunk stored at a coordinate.
    pub fn get_chunk(&self, coord: GridPos) -> (chunk: Option<&Chunk>)
        ensures
            match chunk {
                Some(c) => self.chunk_at(coord) == Some(*c),
                None => self.chunk_at(coord) is None,
            },
    {
        let k = grid_key(coord);
        self.chunks.get(&k)
    }
}

/// Only oaks block the way: a tile of a generated chunk can be entered
/// whatever else grows on it (bare ground, rocks, bushes), at the water
/// cost on water and the land cost on other ground; a tile is closed only
/// when its chunk is not generated or an oak stands on it. Wading through
/// water costs four times as much as walking on land.
pub proof fn lemma_only_oaks_block(world: &WorldMap, tile: GridPos)
    ensures
        ({
            let (lx, ly) = local_of(tile);
            match world.chunk_at(chunk_of(tile)) {
                None => world.spec_tile_cost(tile) is None,
                Some(chunk) => {
                    let f = chunk.foliage_data@[lx]@[ly];
                    let ground = chunk.tile_data@[lx]@[ly];
                    &&& (f == Foliage::Bare || f == Foliage::Rock || f == Foliage::Bush) ==> world.spec_tile_cost(
                        tile,
                    ) is Some
                    &&& world.spec_tile_cost(tile) is None <==> f == Foliage::Tree(TreeType::Oak)
                    &&& f != Foliage::Tree(TreeType::Oak) && ground == WorldTile::Water ==> world.spec_tile_cost(tile)
                        == Some(40u32)
                    &&& f != Foliage::Tree(TreeType::Oak) && ground != WorldTile::Water ==> world.spec_tile_cost(tile)
                        == Some(10u32)
                },
            }
        }),
        MOVE_COST_WATER == 4 * MOVE_COST_LAND,
{
}

/// Walking cost of a tile, `None` where it cannot be entered.
pub fn tile_cost(tile: GridPos, world_map: &WorldMap) -> (cost: Option<u32>)
    requires
        tile.x >= i32::MIN + 15,
        tile.y >= i32::MIN + 15,
    ensures
        cost == world_map.spec_tile_cost(tile),
{
    let (chunk_coord, lx, ly) = split_tile(tile);
    let chunk = match world_map.get_chunk(chunk_coord) {
        Some(c) => c,
        None => return None,
    };
    let foliage = chunk.foliage_data[lx][ly];
    if foliage == Foliage::Tree(TreeType::Oak) {
        return None;
    }
    let cost = match chunk.tile_data[lx][ly] {
        WorldTile::Water => MOVE_COST_WATER,
        _ => MOVE_COST_LAND,
    };
    Some(cost)
}

/// Coordinates of the chunks that have been generated.
pub struct LoadedChunks {
    coords: HashSetWithView<u64>,
}

impl LoadedChunks {
    /// Whether the chunk at `coord` is loaded.
    pub closed spec fn is_loaded(&self, coord: GridPos) -> bool {
        self.coords@.contains(key_of(coord))
    }

    /// No chunk loaded.
    pub fn new() -> (loaded: LoadedChunks)
        ensures
            forall|c: GridPos| !#[trigger] loaded.is_loaded(c),
    {
        LoadedChunks { coords: HashSetWithView::new() }
    }

    /// Whether the chunk at `coord` is loaded.
    pub fn contains(&self, coord: GridPos) -> (r: bool)
        ensures
            r == self.is_loaded(coord),
    {
        self.coords.contains(&grid_key(coord))
    }

    /// Marks the chunk at `coord` as loaded.
    pub fn insert(&mut self, coord: GridPos)
        ensures
            forall|c: GridPos| #[trigger] final(self).is_loaded(c) == (old(self).is_loaded(c) || c == coord),
    {
        self.coords.insert(grid_key(coord));
        proof {
            assert forall|c: GridPos| #[trigger] self.is_loaded(c) == (old(self).is_loaded(c) || c == coord) by {
                lemma_key_injective(c, coord);
            }
        }
    }

    /// Marks the chunk at `coord` as no longer loaded.
    pub fn remove(&mut self, coord: GridPos)
        ensures
            forall|c: GridPos| #[trigger] final(self).is_loaded(c) == (old(self).is_loaded(c) && c != coord),
    {
        self.coords.remove(&grid_key(coord));
        proof {
            assert forall|c: GridPos| #[trigger] self.is_loaded(c) == (old(self).is_loaded(c) && c != coord) by {
                lemma_key_injective(c, coord);
            }
        }
    }

    /// Picks the chunks to generate this frame around `center`: going through
    /// the chunks within `radius` in order of `x`, then `y`, the first `limit`
    /// that are not loaded yet. They are marked as loaded and returned in order.
    pub fn claim_near_chunks(&mut self, center: GridPos, radius: u32, limit: usize) -> (claimed: Vec<
        GridPos,
    >)
        ensures
            claimed@.len() <= limit,
            forall|i: int|
                0 <= i < claimed@.len() ==> in_disk(#[trigger] claimed@[i], center.x as int, center.y as int, radius as int)
                    && !old(self).is_loaded(claimed@[i]),
            forall|i: int, j: int|
                0 <= i < j < claimed@.len() ==> lex_lt(#[trigger] claimed@[i], #[trigger] claimed@[j]),
            radius <= i32::MAX && claimed@.len() < limit ==> forall|p: GridPos|
                in_disk(p, center.x as int, center.y as int, radius as int) && !old(self).is_loaded(p)
                    ==> claimed@.contains(p),
            radius <= i32::MAX && claimed@.len() > 0 ==> forall|p: GridPos|
                in_disk(p, center.x as int, center.y as int, radius as int) && !old(self).is_loaded(p)
                    && lex_lt(p, claimed@[claimed@.len() - 1]) ==> claimed@.contains(p),
            forall|c: GridPos| #[trigger] final(self).is_loaded(c) == (old(self).is_loaded(c) || claimed@.contains(c)),
    {
        let points = get_points_in_radius(center.x, center.y, radius);
        let mut claimed: Vec<GridPos> = Vec::new();
        let ghost mut idx: Seq<int> = Seq::empty();
        let mut i: usize = 0;
        while i < points.len() && claimed.len() < limit
            invariant
                i <= points@.len(),
                claimed@.len() <= limit,
                forall|a: int|
                    0 <= a < points@.len() ==> in_disk(#[trigger] points@[a], center.x as int, center.y as int, radius as int),
                radius <= i32::MAX ==> forall|p: GridPos|
                    in_disk(p, center.x as int, center.y as int, radius as int) ==> points@.contains(p),
                forall|a: int, b: int|
                    0 <= a < b < points@.len() ==> lex_lt(#[trigger] points@[a], #[trigger] points@[b]),
                idx.len() == claimed@.len(),
                forall|k: int| 0 <= k < idx.len() ==> 0 <= #[trigger] idx[k] < i && claimed@[k] == points@[idx[k]]
                    && !old(self).is_loaded(claimed@[k]),
                forall|k: int, m: int| 0 <= k < m < idx.len() ==> #[trigger] idx[k] < #[trigger] idx[m],
                forall|a: int| 0 <= a < i && !old(self).is_loaded(#[trigger] points@[a]) ==> claimed@.contains(points@[a]),
                forall|c: GridPos| #[trigger] self.is_loaded(c) == (old(self).is_loaded(c) || claimed@.contains(c)),
            decreases points@.len() - i,
        {
            let p = points[i];
            proof {
                assert forall|k: int| 0 <= k < claimed@.len() implies claimed@[k] != p by {
                    assert(lex_lt(points@[idx[k]], points@[i as int]));
                }
            }
            if !self.contains(p) {
                self.insert(p);
                let ghost old_claimed = claimed@;
                claimed.push(p);
                proof {
                    idx = idx.push(i as int);
                    assert(claimed@[claimed@.len() - 1] == p);
                    assert forall|c: GridPos| #[trigger] self.is_loaded(c) == (old(self).is_loaded(c) || claimed@.contains(c)) by {
                        if c == p {
                            assert(claimed@[claimed@.len() - 1] == p);
                        }
                        if old_claimed.contains(c) {
                            let k = choose|k: int| 0 <= k < old_claimed.len() && old_claimed[k] == c;
                            assert(claimed@[k] == c);
                        }
                        if claimed@.contains(c) && c != p {
                            let k = choose|k: int| 0 <= k < claimed@.len() && claimed@[k] == c;
                            assert(old_claimed[k] == c);
                        }
                    }
                    assert forall|a: int| 0 <= a < i + 1 && !old(self).is_loaded(#[trigger] points@[a])
                        implies claimed@.contains(points@[a]) by {
                        if a == i {
                            assert(claimed@[claimed@.len() - 1] == p);
                        } else {
                            let k = choose|k: int| 0 <= k < old_claimed.len() && old_claimed[k] == points@[a];
                            assert(claimed@[k] == points@[a]);
                        }
                    }
                }
            }
            i = i + 1;
        }
        proof {
            assert forall|k: int| 0 <= k < claimed@.len() implies in_disk(#[trigger] claimed@[k], center.x as int, center.y as int, radius as int)
                && !old(self).is_loaded(claimed@[k]) by {
                assert(0 <= idx[k] < i);
                assert(in_disk(points@[idx[k]], center.x as int, center.y as int, radius as int));
            }
            assert forall|a: int, b: int| 0 <= a < b < claimed@.len() implies lex_lt(#[trigger] claimed@[a], #[trigger] claimed@[b]) by {
                assert(idx[a] < idx[b]);
            }
            if radius <= i32::MAX && claimed@.len() > 0 {
                let last = claimed@.len() - 1;
                assert forall|p: GridPos|
                    in_disk(p, center.x as int, center.y as int, radius as int) && !old(self).is_loaded(p)
                        && lex_lt(p, claimed@[last]) implies claimed@.contains(p) by {
                    assert(points@.contains(p));
                    let a = choose|a: int| 0 <= a < points@.len() && points@[a] == p;
                    if a >= idx[last] {
                        if a > idx[last] {
                            assert(lex_lt(points@[idx[last]], points@[a]));
                        }
                        assert(false);
                    }
                }
            }
            if radius <= i32::MAX && claimed@.len() < limit {
                assert forall|p: GridPos|
                    in_disk(p, center.x as int, center.y as int, radius as int) && !old(self).is_loaded(p)
                        implies claimed@.contains(p) by {
                    assert(points@.contains(p));
                    let a = choose|a: int| 0 <= a < points@.len() && points@[a] == p;
                    assert(!old(self).is_loaded(points@[a]));
                }
            }
        }
        claimed
    }
}

/// A chunk lies beyond the render distance from the player's chunk: the
/// squared distance between the two exceeds the squared render distance.
pub open spec fn beyond_render_distance(coord: GridPos, player_chunk: GridPos) -> bool {
    crate::grid::dist_sq(coord, player_chunk) > (RENDER_DISTANCE * RENDER_DISTANCE) as int
}

/// Chunks loaded around the player's chunk are not unloaded while the player
/// stays in that chunk: a chunk within `RENDER_DISTANCE` of it is not beyond
/// the render distance.
pub proof fn lemma_loaded_chunks_are_kept(coord: GridPos, player_chunk: GridPos)
    requires
        in_disk(coord, player_chunk.x as int, player_chunk.y as int, RENDER_DISTANCE as int),
    ensures
        !beyond_render_distance(coord, player_chunk),
{
}

/// Whether the chunk at `coord` is far enough from the player's chunk to be
/// unloaded. The squared distance is computed in `i32`, so it must fit there.
pub fn is_distant_chunk(coord: GridPos, player_chunk: GridPos) -> (far: bool)
    requires
        i32::MIN <= coord.x - player_chunk.x <= i32::MAX,
        i32::MIN <= coord.y - player_chunk.y <= i32::MAX,
        crate::grid::dist_sq(coord, player_chunk) <= i32::MAX,
    ensures
        far == beyond_render_distance(coord, player_chunk),
{
    let dx = coord.x as i64 - player_chunk.x as i64;
    let dy = coord.y as i64 - player_chunk.y as i64;
    assert(0 <= dx * dx <= 0x4000_0000_0000_0000i64) by (nonlinear_arith)
        requires
            -0x8000_0000 <= dx <= 0x8000_0000,
    ;
    assert(0 <= dy * dy <= 0x4000_0000_0000_0000i64) by (nonlinear_arith)
        requires
            -0x8000_0000 <= dy <= 0x8000_0000,
    ;
    let d = dx * dx + dy * dy;
    let r = RENDER_DISTANCE as i64;
    d > r * r
}

} // verus!

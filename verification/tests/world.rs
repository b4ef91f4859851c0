use woodland::grid::{grid_key, GridPos};
use woodland::world::world_generation::{
    self,
    is_distant_chunk, split_tile, tile_cost, tile_from_biome_data, Biome, Chunk, Foliage, LoadedChunks, TreeType,
    WorldMap, WorldTile, MOVE_COST_LAND, MOVE_COST_WATER,
};
use woodland::world::world_generator::{
    self, water_asset_dir, water_edge, WaterEdge, WorldGenerator, WorldSettings, WorldTiles, WorldType,
};
use woodland::world::world_lib::{get_points_in_radius, numeric_seed_from_string};
use woodland::world::world_noise::{noise_seeds, white_noise_bits, world_noise_seeds};
use woodland::world::world_rendering::{foliage_asset_dir, is_chunk_in_view, tile_asset_dir, tile_world_pos};

fn grass_chunk(x: i32, y: i32) -> Chunk {
    Chunk {
        coord: GridPos::new(x, y),
        tile_data: [[WorldTile::Grass; 18]; 18],
        foliage_data: [[Foliage::Bare; 16]; 16],
        biome_data: [[Biome::Forest; 18]; 18],
    }
}

#[test]
fn points_in_radius_zero_is_the_center() {
    let points = get_points_in_radius(5, -7, 0);
    assert_eq!(points, vec![GridPos::new(5, -7)]);
}

#[test]
fn points_in_radius_one_form_a_plus_in_order() {
    let points = get_points_in_radius(0, 0, 1);
    assert_eq!(
        points,
        vec![
            GridPos::new(-1, 0),
            GridPos::new(0, -1),
            GridPos::new(0, 0),
            GridPos::new(0, 1),
            GridPos::new(1, 0),
        ]
    );
}

#[test]
fn points_in_radius_two_count_and_bounds() {
    let points = get_points_in_radius(10, 10, 2);
    assert_eq!(points.len(), 13);
    for p in &points {
        let dx = (p.x - 10) as i64;
        let dy = (p.y - 10) as i64;
        assert!(dx * dx + dy * dy <= 4);
    }
    for w in points.windows(2) {
        assert!(w[0].x < w[1].x || (w[0].x == w[1].x && w[0].y < w[1].y));
    }
}

#[test]
fn points_in_radius_clip_at_the_edge_of_i32() {
    let points = get_points_in_radius(i32::MAX, 0, 1);
    assert_eq!(
        points,
        vec![GridPos::new(i32::MAX - 1, 0), GridPos::new(i32::MAX, -1), GridPos::new(i32::MAX, 0), GridPos::new(i32::MAX, 1)]
    );
}

#[test]
fn points_in_huge_radius_are_none() {
    assert!(get_points_in_radius(0, 0, u32::MAX).is_empty());
}

#[test]
fn seed_is_first_eight_digest_bytes_little_endian() {
    assert_eq!(numeric_seed_from_string("hello"), 1054880662928880172);
    assert_eq!(numeric_seed_from_string("woodland"), 9296879014393984246);
    assert_eq!(numeric_seed_from_string(""), 1449310910991872227);
}

#[test]
fn seed_is_deterministic() {
    assert_eq!(numeric_seed_from_string("a world"), numeric_seed_from_string("a world"));
    assert_ne!(numeric_seed_from_string("a world"), numeric_seed_from_string("another world"));
}

#[test]
fn generator_takes_seed_from_name() {
    let g = WorldGenerator::with_seed("hello");
    assert_eq!(g.seed, 1054880662928880172);
    assert_eq!(g.settings, WorldSettings::default());
    assert_eq!(g.settings.world_type, WorldType::Featured);
}

#[test]
fn noise_layer_seeds() {
    let s = noise_seeds(1054880662928880172);
    assert_eq!(s.seed, 1054880662928880172);
    assert_eq!(s.altitude, -1169296852);
    assert_eq!(s.temp, -1169295515);
    assert_eq!(s.moisture, -1169295515);
    let named = world_noise_seeds("hello").unwrap();
    assert_eq!(named, s);
}

#[test]
fn noise_seeds_of_small_seed() {
    let s = noise_seeds(5);
    assert_eq!(s.altitude, 5);
    assert_eq!(s.temp, 1342);
    assert_eq!(s.moisture, 1342);
}

#[test]
fn white_noise_values() {
    assert_eq!(white_noise_bits(42, 3, -5), 16636970);
    assert_eq!(white_noise_bits(0, 0, 0), 0);
    assert_eq!(white_noise_bits(7, 1, 2), 8367484);
    for x in -20..20 {
        for y in -20..20 {
            assert!(white_noise_bits(99, x, y) < 1 << 24);
        }
    }
}

#[test]
fn biomes_pick_tiles() {
    assert_eq!(tile_from_biome_data(Biome::Ocean), WorldTile::Water);
    assert_eq!(tile_from_biome_data(Biome::Forest), WorldTile::Grass);
    assert_eq!(tile_from_biome_data(Biome::Snow), WorldTile::Snow);
    assert_eq!(tile_from_biome_data(Biome::Beach), WorldTile::Grass);
    assert_eq!(tile_from_biome_data(Biome::Desert), WorldTile::Grass);
}

#[test]
fn split_tile_floors_towards_negative() {
    assert_eq!(split_tile(GridPos::new(0, 0)), (GridPos::new(0, 0), 0, 0));
    assert_eq!(split_tile(GridPos::new(17, 15)), (GridPos::new(1, 0), 1, 15));
    assert_eq!(split_tile(GridPos::new(-1, -16)), (GridPos::new(-1, -1), 15, 0));
    assert_eq!(split_tile(GridPos::new(-17, 33)), (GridPos::new(-2, 2), 15, 1));
}

#[test]
fn world_map_insert_get_remove() {
    let mut map = WorldMap::new();
    assert!(map.get_chunk(GridPos::new(0, 0)).is_none());
    map.insert_chunk(grass_chunk(0, 0));
    map.insert_chunk(grass_chunk(-1, 2));
    assert_eq!(map.get_chunk(GridPos::new(-1, 2)).unwrap().coord, GridPos::new(-1, 2));
    assert!(map.get_chunk(GridPos::new(2, -1)).is_none());
    let removed = map.remove_chunk(GridPos::new(0, 0)).unwrap();
    assert_eq!(removed.coord, GridPos::new(0, 0));
    assert!(map.get_chunk(GridPos::new(0, 0)).is_none());
    assert!(map.remove_chunk(GridPos::new(0, 0)).is_none());
    assert!(map.get_chunk(GridPos::new(-1, 2)).is_some());
}

#[test]
fn tile_costs() {
    let mut map = WorldMap::new();
    let mut chunk = grass_chunk(0, 0);
    chunk.tile_data[3][4] = WorldTile::Water;
    chunk.foliage_data[5][6] = Foliage::Tree(TreeType::Oak);
    chunk.foliage_data[7][7] = Foliage::Rock;
    map.insert_chunk(chunk);
    assert_eq!(tile_cost(GridPos::new(1, 1), &map), Some(MOVE_COST_LAND));
    assert_eq!(tile_cost(GridPos::new(3, 4), &map), Some(MOVE_COST_WATER));
    assert_eq!(tile_cost(GridPos::new(5, 6), &map), None);
    assert_eq!(tile_cost(GridPos::new(7, 7), &map), Some(MOVE_COST_LAND));
    assert_eq!(tile_cost(GridPos::new(16, 0), &map), None);
    assert_eq!(tile_cost(GridPos::new(-1, 0), &map), None);
}

#[test]
fn loaded_chunks_insert_remove() {
    let mut loaded = LoadedChunks::new();
    assert!(!loaded.contains(GridPos::new(1, 1)));
    loaded.insert(GridPos::new(1, 1));
    assert!(loaded.contains(GridPos::new(1, 1)));
    assert!(!loaded.contains(GridPos::new(1, -1)));
    loaded.remove(GridPos::new(1, 1));
    assert!(!loaded.contains(GridPos::new(1, 1)));
}

#[test]
fn claim_near_chunks_skips_loaded_and_stops_at_limit() {
    let mut loaded = LoadedChunks::new();
    loaded.insert(GridPos::new(-1, 0));
    let first = loaded.claim_near_chunks(GridPos::new(0, 0), 1, 2);
    assert_eq!(first, vec![GridPos::new(0, -1), GridPos::new(0, 0)]);
    let second = loaded.claim_near_chunks(GridPos::new(0, 0), 1, 10);
    assert_eq!(second, vec![GridPos::new(0, 1), GridPos::new(1, 0)]);
    let third = loaded.claim_near_chunks(GridPos::new(0, 0), 1, 10);
    assert!(third.is_empty());
    for p in [GridPos::new(-1, 0), GridPos::new(0, -1), GridPos::new(0, 0), GridPos::new(0, 1), GridPos::new(1, 0)] {
        assert!(loaded.contains(p));
    }
    assert!(!loaded.contains(GridPos::new(1, 1)));
}

#[test]
fn claim_with_zero_limit_claims_nothing() {
    let mut loaded = LoadedChunks::new();
    assert!(loaded.claim_near_chunks(GridPos::new(3, 3), 4, 0).is_empty());
    assert!(!loaded.contains(GridPos::new(3, 3)));
}

#[test]
fn distant_chunks_by_render_distance() {
    assert!(!is_distant_chunk(GridPos::new(4, 0), GridPos::new(0, 0)));
    assert!(is_distant_chunk(GridPos::new(4, 1), GridPos::new(0, 0)));
    assert!(!is_distant_chunk(GridPos::new(-3, -2), GridPos::new(0, 0)));
    assert!(is_distant_chunk(GridPos::new(10, 10), GridPos::new(-10, -10)));
}

#[test]
fn first_generator_keeps_near_chunks_and_origin() {
    assert!(!world_generator::is_distant_chunk(GridPos::new(2, 2), GridPos::new(0, 0)));
    assert!(world_generator::is_distant_chunk(GridPos::new(3, 0), GridPos::new(0, 0)));
    assert!(!world_generator::is_distant_chunk(GridPos::new(0, 0), GridPos::new(30, 30)));
    assert!(world_generator::is_distant_chunk(GridPos::new(0, 1), GridPos::new(30, 30)));
}

fn water_chunk() -> world_generator::Chunk {
    world_generator::Chunk { coord: GridPos::new(0, 0), data: [[WorldTiles::Water; 18]; 18] }
}

#[test]
fn water_edges() {
    let mut c = water_chunk();
    assert_eq!(water_edge(&c, 5, 5), None);
    c.data[5][6] = WorldTiles::Grass;
    assert_eq!(water_edge(&c, 5, 5), Some(WaterEdge::Top));
    c.data[4][5] = WorldTiles::Grass;
    assert_eq!(water_edge(&c, 5, 5), Some(WaterEdge::TopLeft));

    let mut c = water_chunk();
    c.data[5][6] = WorldTiles::Grass;
    c.data[6][5] = WorldTiles::Grass;
    assert_eq!(water_edge(&c, 5, 5), Some(WaterEdge::TopRight));

    let mut c = water_chunk();
    c.data[5][4] = WorldTiles::Grass;
    assert_eq!(water_edge(&c, 5, 5), Some(WaterEdge::Bottom));
    c.data[6][5] = WorldTiles::Grass;
    assert_eq!(water_edge(&c, 5, 5), Some(WaterEdge::BottomRight));
    c.data[4][5] = WorldTiles::Grass;
    assert_eq!(water_edge(&c, 5, 5), Some(WaterEdge::BottomLeft));

    let mut c = water_chunk();
    c.data[4][5] = WorldTiles::Grass;
    assert_eq!(water_edge(&c, 5, 5), Some(WaterEdge::Left));
    let mut c = water_chunk();
    c.data[6][5] = WorldTiles::Grass;
    assert_eq!(water_edge(&c, 5, 5), Some(WaterEdge::Right));

    let mut c = water_chunk();
    c.data[16][17] = WorldTiles::Grass;
    assert_eq!(water_edge(&c, 16, 16), Some(WaterEdge::Top));
}

#[test]
fn asset_directories() {
    assert_eq!(tile_asset_dir(WorldTile::Grass), "grass_variants/grass_full");
    assert_eq!(tile_asset_dir(WorldTile::Snow), "snow/snow_full");
    assert_eq!(tile_asset_dir(WorldTile::Water), "water/water_full");
    assert_eq!(foliage_asset_dir(Foliage::Tree(TreeType::Oak)), Some("foliage/tree"));
    assert_eq!(foliage_asset_dir(Foliage::Bare), None);
    assert_eq!(foliage_asset_dir(Foliage::Rock), None);
    assert_eq!(foliage_asset_dir(Foliage::Bush), None);
}

#[test]
fn chunks_in_view() {
    assert!(is_chunk_in_view(GridPos::new(2, -2), GridPos::new(0, 0)));
    assert!(!is_chunk_in_view(GridPos::new(3, 0), GridPos::new(0, 0)));
    assert!(!is_chunk_in_view(GridPos::new(0, -3), GridPos::new(0, 0)));
    assert!(is_chunk_in_view(GridPos::new(-5, 7), GridPos::new(-4, 5)));
}

#[test]
fn tile_world_positions() {
    assert_eq!(tile_world_pos(GridPos::new(0, 0), 3, 4), GridPos::new(3, 4));
    assert_eq!(tile_world_pos(GridPos::new(-1, 2), 0, 15), GridPos::new(-16, 47));
}

#[test]
fn grid_keys_differ() {
    assert_ne!(grid_key(GridPos::new(1, 0)), grid_key(GridPos::new(0, 1)));
    assert_eq!(grid_key(GridPos::new(0, -1)), 0xFFFF_FFFF);
    assert_eq!(grid_key(GridPos::new(1, 2)), (1u64 << 32) | 2);
}

#[test]
fn water_tile_pictures() {
    assert_eq!(water_asset_dir(None), "water/water_full");
    assert_eq!(water_asset_dir(Some(WaterEdge::TopLeft)), "water/water_edge_top/water_edge_top_left_grass");
    assert_eq!(water_asset_dir(Some(WaterEdge::TopRight)), "water/water_edge_top/water_edge_top_right_grass");
    assert_eq!(water_asset_dir(Some(WaterEdge::Top)), "water/water_edge_top/water_edge_top_grass");
    assert_eq!(water_asset_dir(Some(WaterEdge::BottomLeft)), "water/water_edge_bottom/water_edge_bottom_left_grass");
    assert_eq!(water_asset_dir(Some(WaterEdge::BottomRight)), "water/water_edge_bottom/water_edge_bottom_right_grass");
    for edge in [WaterEdge::Bottom, WaterEdge::Left, WaterEdge::Right] {
        assert_eq!(water_asset_dir(Some(edge)), "water/water_edge/water_edge_grass");
    }
}

#[test]
fn loaded_chunks_are_not_unloaded_at_once() {
    let center = GridPos::new(-3, 7);
    let mut loaded = LoadedChunks::new();
    let mut all = Vec::new();
    loop {
        let claimed = loaded.claim_near_chunks(center, world_generation::RENDER_DISTANCE, world_generation::CHUNKS_PER_FRAME);
        assert!(claimed.len() <= world_generation::CHUNKS_PER_FRAME);
        if claimed.is_empty() {
            break;
        }
        all.extend(claimed);
    }
    assert_eq!(all.len(), get_points_in_radius(-3, 7, world_generation::RENDER_DISTANCE).len());
    for c in all {
        assert!(!is_distant_chunk(c, center));
    }
}

#[test]
fn generated_chunks_are_not_unloaded_at_once() {
    let center = GridPos::new(5, 5);
    let mut loaded = LoadedChunks::new();
    let claimed = loaded.claim_near_chunks(center, world_generator::LOAD_RADIUS, world_generator::CHUNKS_PER_FRAME);
    assert_eq!(claimed, vec![GridPos::new(3, 5), GridPos::new(4, 4), GridPos::new(4, 5)]);
    for c in get_points_in_radius(5, 5, world_generator::LOAD_RADIUS) {
        assert!(!world_generator::is_distant_chunk(c, center));
    }
}

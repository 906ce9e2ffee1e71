use worldgen::config::WorldConfig;
use worldgen::grid::{cell_at, new_grid, set_cell};
use worldgen::image_gen::{chunks_per_side, group_cities_by_chunk, raster_bytes, render_chunk};
use worldgen::save::build_world_save;
use worldgen::terrain::Terrain;
use worldgen::world::plan_world;

fn test_config(min_city_slots_per_island: usize) -> WorldConfig {
    WorldConfig {
        water_level: 550_000,
        city_radius_tenths: 80,
        city_spacing: 1,
        min_city_slots_per_island,
        ocean_min_size: 100,
        chunk_size: 4,
    }
}

fn heights_of_two_islands() -> Vec<Vec<u32>> {
    // a square island of six by six cells and a small island of two by two
    let mut elevation = new_grid(16, 200_000u32);
    for y in 3..9 {
        for x in 3..9 {
            set_cell(&mut elevation, x, y, 800_000);
        }
    }
    for y in 11..13 {
        for x in 11..13 {
            set_cell(&mut elevation, x, y, 600_000);
        }
    }
    elevation
}

#[test]
fn a_world_of_water_is_empty() {
    let elevation = new_grid(12, 0u32);
    let config = test_config(6);
    let world = plan_world(&elevation, &config);
    assert_eq!(world.terrain, new_grid(12, Terrain::Water));
    assert_eq!(world.region_map, new_grid(12, 0usize));
    assert_eq!(world.raw_slots, vec![]);
    assert_eq!(world.city_slots, vec![]);
    assert_eq!(build_world_save(&world.region_map, &world.city_slots).islands, vec![]);
    let per_side = chunks_per_side(12, config.chunk_size);
    let groups = group_cities_by_chunk(&world.city_slots, config.chunk_size, per_side);
    for cy in 0..per_side {
        for cx in 0..per_side {
            let color_at = |_x: usize, _y: usize| (17u8, 55u8, 105u8);
            let bytes =
                raster_bytes(render_chunk(cx, cy, config.chunk_size, &groups[cy * per_side + cx], color_at));
            assert_eq!(bytes.len(), 48);
            for at in 0..16 {
                assert_eq!(&bytes[at * 3..at * 3 + 3], &[17u8, 55, 105]);
            }
        }
    }
}

#[test]
fn the_stages_follow_each_other() {
    let elevation = heights_of_two_islands();
    let world = plan_world(&elevation, &test_config(4));
    for y in 0..16 {
        for x in 0..16 {
            let big = (3..9).contains(&x) && (3..9).contains(&y);
            let small = (11..13).contains(&x) && (11..13).contains(&y);
            let kind = if big || small { Terrain::Land } else { Terrain::Water };
            assert_eq!(cell_at(&world.terrain, x, y), kind);
            let id = if big { 1 } else if small { 2 } else { 0 };
            assert_eq!(cell_at(&world.region_map, x, y), id);
        }
    }
    // the corners of both islands are candidates; (12, 12) lies next to (11, 11)
    assert_eq!(world.raw_slots, vec![(3, 3), (8, 3), (3, 8), (8, 8), (11, 11)]);
    assert_eq!(world.city_slots, vec![(3, 3), (8, 3), (3, 8), (8, 8)]);
}

#[test]
fn the_least_number_of_slots_decides_which_islands_stay() {
    let elevation = heights_of_two_islands();
    assert_eq!(
        plan_world(&elevation, &test_config(1)).city_slots,
        vec![(3, 3), (8, 3), (3, 8), (8, 8), (11, 11)]
    );
    assert_eq!(plan_world(&elevation, &test_config(2)).city_slots.len(), 4);
    assert_eq!(plan_world(&elevation, &test_config(5)).city_slots, vec![]);
}

#[test]
fn equal_heights_give_equal_worlds() {
    let elevation = heights_of_two_islands();
    let config = test_config(4);
    let first = plan_world(&elevation, &config);
    let second = plan_world(&elevation.clone(), &config);
    assert_eq!(first.terrain, second.terrain);
    assert_eq!(first.region_map, second.region_map);
    assert_eq!(first.raw_slots, second.raw_slots);
    assert_eq!(first.city_slots, second.city_slots);
}

#[test]
fn cells_far_from_the_centre_hold_no_island() {
    let elevation = new_grid(16, 900_000u32);
    let mut config = test_config(1);
    config.city_radius_tenths = 50;
    let world = plan_world(&elevation, &config);
    for y in 0..16usize {
        for x in 0..16usize {
            let d2 = x.abs_diff(8).pow(2) + y.abs_diff(8).pow(2);
            let far = 100 * d2 > 121 * 25;
            assert_eq!(cell_at(&world.terrain, x, y), if far { Terrain::FarLand } else { Terrain::Land });
            assert_eq!(cell_at(&world.region_map, x, y), if far { 0 } else { 1 });
        }
    }
    assert_eq!(world.raw_slots, vec![]);
}

#[test]
fn a_square_island_in_the_sea_has_its_corners_as_slots() {
    // twelve by twelve cells: six by six of land, and water on all sides
    let mut elevation = new_grid(12, 300_000u32);
    for y in 3..9 {
        for x in 3..9 {
            set_cell(&mut elevation, x, y, 650_000);
        }
    }
    let config = WorldConfig {
        water_level: 550_000,
        // the radius that a side of 12 gives: 4.8 cells
        city_radius_tenths: WorldConfig::for_size(12).city_radius_tenths,
        city_spacing: 1,
        min_city_slots_per_island: 4,
        // all water of the grid is one body of 144 - 36 cells
        ocean_min_size: 108,
        chunk_size: 4,
    };
    let world = plan_world(&elevation, &config);
    let mut labelled = 0;
    for y in 0..12 {
        for x in 0..12 {
            let inside = (3..9).contains(&x) && (3..9).contains(&y);
            assert_eq!(cell_at(&world.region_map, x, y), if inside { 1 } else { 0 });
            if cell_at(&world.region_map, x, y) == 1 {
                labelled += 1;
            }
        }
    }
    assert_eq!(labelled, 36);
    assert_eq!(world.raw_slots, vec![(3, 3), (8, 3), (3, 8), (8, 8)]);
    assert_eq!(world.city_slots, world.raw_slots);
    for (i, a) in world.raw_slots.iter().enumerate() {
        for b in &world.raw_slots[..i] {
            assert!(a.0.abs_diff(b.0).max(a.1.abs_diff(b.1)) > config.city_spacing);
        }
    }
    // with one more cell asked of an ocean, no water is an ocean
    let mut stricter = config;
    stricter.ocean_min_size = 109;
    assert_eq!(plan_world(&elevation, &stricter).raw_slots, vec![]);
    // with one more slot asked of an island, the island is dropped
    let mut greedier = config;
    greedier.min_city_slots_per_island = 5;
    let dropped = plan_world(&elevation, &greedier);
    assert_eq!(dropped.raw_slots.len(), 4);
    assert_eq!(dropped.city_slots, vec![]);
}

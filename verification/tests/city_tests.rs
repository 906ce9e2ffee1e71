use worldgen::city::{
    any_large_water, area_taken, count_direct_neighbors, filter_city_slots_by_region,
    find_city_slots, mark_area_taken,
};
use worldgen::config::{
    WorldConfig, CHUNK_SIZE, CITY_RADIUS_TENTHS, CITY_SPACING, MAP_SIZE, MIN_CITY_SLOTS_PER_ISLAND,
    OCEAN_MIN_SIZE, WATER,
};
use worldgen::grid::{cell_at, new_grid, set_cell, window_bounds};
use worldgen::terrain::{label_regions, Terrain};

fn grid_from_rows(rows: &[&str]) -> Vec<Vec<Terrain>> {
    rows.iter()
        .map(|row| {
            row.chars()
                .map(|ch| match ch {
                    '#' => Terrain::Land,
                    '^' => Terrain::FarLand,
                    _ => Terrain::Water,
                })
                .collect()
        })
        .collect()
}

fn config_with(city_radius_tenths: usize, city_spacing: usize, ocean_min_size: usize) -> WorldConfig {
    WorldConfig {
        water_level: WATER,
        city_radius_tenths,
        city_spacing,
        min_city_slots_per_island: 6,
        ocean_min_size,
        chunk_size: 4,
    }
}

fn chebyshev(a: (usize, usize), b: (usize, usize)) -> usize {
    a.0.abs_diff(b.0).max(a.1.abs_diff(b.1))
}

fn square_island() -> Vec<Vec<Terrain>> {
    grid_from_rows(&[
        "............",
        "............",
        "............",
        "...######...",
        "...######...",
        "...######...",
        "...######...",
        "...######...",
        "...######...",
        "............",
        "............",
        "............",
    ])
}

fn staircase() -> Vec<Vec<Terrain>> {
    grid_from_rows(&[
        "............",
        "............",
        "............",
        "...##.......",
        "....##......",
        ".....##.....",
        "......##....",
        ".......##...",
        "............",
        "............",
        "............",
        "............",
    ])
}

#[test]
fn default_settings_follow_the_side_of_the_grid() {
    let config = WorldConfig::for_size(5_000);
    assert_eq!(config.water_level, 550_000);
    // eight tenths of half the side, in tenths of a cell
    assert_eq!(config.city_radius_tenths, 20_000);
    assert_eq!(config.city_spacing, 5);
    assert_eq!(config.min_city_slots_per_island, 6);
    assert_eq!(config.ocean_min_size, 500);
    assert_eq!(config.chunk_size, 250);
    assert_eq!(WorldConfig::for_size(10_000).city_radius_tenths, 40_000);
    // a side of 12 gives a radius of 4.8 cells
    assert_eq!(WorldConfig::for_size(12).city_radius_tenths, 48);
    // a side of 13 gives eight tenths of 6.5 cells
    assert_eq!(WorldConfig::for_size(13).city_radius_tenths, 52);
    assert_eq!(WorldConfig::for_size(1).city_radius_tenths, 4);
    assert_eq!(WorldConfig::for_size(0).city_radius_tenths, 0);
    assert_eq!(WorldConfig::for_size(u32::MAX as usize).city_radius_tenths, 17_179_869_180);
}

#[test]
fn the_default_is_the_setting_for_the_default_side() {
    let config = WorldConfig::default();
    assert_eq!(config, WorldConfig::for_size(MAP_SIZE));
    assert_eq!(config.water_level, WATER);
    assert_eq!(config.city_radius_tenths, CITY_RADIUS_TENTHS);
    assert_eq!(config.city_spacing, CITY_SPACING);
    assert_eq!(config.min_city_slots_per_island, MIN_CITY_SLOTS_PER_ISLAND);
    assert_eq!(config.ocean_min_size, OCEAN_MIN_SIZE);
    assert_eq!(config.chunk_size, CHUNK_SIZE);
    assert_eq!(CITY_RADIUS_TENTHS, 20_000);
}

#[test]
fn neighbors_are_counted_by_category() {
    let terrain = grid_from_rows(&["#.#", "###", ".^."]);
    assert_eq!(count_direct_neighbors(&terrain, 1, 1), (2, 1, vec![(1, 0)]));
    assert_eq!(count_direct_neighbors(&terrain, 1, 0), (3, 0, vec![]));
    assert_eq!(count_direct_neighbors(&terrain, 0, 2), (1, 0, vec![]));
    assert_eq!(count_direct_neighbors(&terrain, 1, 2), (1, 2, vec![(0, 2), (2, 2)]));
}

#[test]
fn water_neighbors_are_listed_left_right_up_down() {
    let terrain = grid_from_rows(&["...", ".#.", "..."]);
    assert_eq!(
        count_direct_neighbors(&terrain, 1, 1),
        (0, 4, vec![(0, 1), (2, 1), (1, 0), (1, 2)])
    );
}

#[test]
fn cells_beyond_the_grid_count_as_nothing() {
    let terrain = grid_from_rows(&["#.", ".#"]);
    assert_eq!(count_direct_neighbors(&terrain, 0, 0), (0, 2, vec![(1, 0), (0, 1)]));
    assert_eq!(count_direct_neighbors(&terrain, 1, 1), (0, 2, vec![(0, 1), (1, 0)]));
    assert_eq!(count_direct_neighbors(&terrain, 2, 1), (1, 0, vec![]));
    assert_eq!(count_direct_neighbors(&terrain, 5, 5), (0, 0, vec![]));
}

#[test]
fn a_window_is_cut_off_at_the_edges() {
    assert_eq!(window_bounds(5, 2, 12), (3, 8));
    assert_eq!(window_bounds(1, 2, 12), (0, 4));
    assert_eq!(window_bounds(11, 2, 12), (9, 12));
    assert_eq!(window_bounds(5, 0, 12), (5, 6));
    assert_eq!(window_bounds(5, 100, 12), (0, 12));
    assert_eq!(window_bounds(5, usize::MAX, 12), (0, 12));
    assert_eq!(window_bounds(20, 2, 12), (18, 12));
}

#[test]
fn marking_covers_the_square_around_a_cell() {
    let mut taken = new_grid(8, false);
    mark_area_taken(&mut taken, 3, 4, 1);
    for y in 0..8 {
        for x in 0..8 {
            let near = (2..=4).contains(&x) && (3..=5).contains(&y);
            assert_eq!(cell_at(&taken, x, y), near);
        }
    }
}

#[test]
fn marking_keeps_earlier_marks_and_stops_at_the_edge() {
    let mut taken = new_grid(5, false);
    mark_area_taken(&mut taken, 0, 0, 1);
    mark_area_taken(&mut taken, 4, 4, 2);
    let expected = vec![
        vec![true, true, false, false, false],
        vec![true, true, false, false, false],
        vec![false, false, true, true, true],
        vec![false, false, true, true, true],
        vec![false, false, true, true, true],
    ];
    assert_eq!(taken, expected);
}

#[test]
fn an_area_is_taken_if_a_mark_lies_within_the_spacing() {
    let mut taken = new_grid(9, false);
    set_cell(&mut taken, 4, 4, true);
    assert!(area_taken(&taken, 4, 4, 0));
    assert!(!area_taken(&taken, 5, 4, 0));
    assert!(area_taken(&taken, 6, 6, 2));
    assert!(area_taken(&taken, 2, 6, 2));
    assert!(!area_taken(&taken, 7, 4, 2));
    assert!(!area_taken(&taken, 4, 1, 2));
    assert!(area_taken(&taken, 0, 0, 4));
    assert!(!area_taken(&taken, 0, 0, 3));
    assert!(area_taken(&taken, 8, 8, usize::MAX));
}

#[test]
fn nothing_is_taken_on_an_empty_mask() {
    let taken = new_grid(6, false);
    assert!(!area_taken(&taken, 3, 3, 2));
    assert!(!area_taken(&taken, 0, 5, 10));
}

#[test]
fn any_large_water_looks_at_each_listed_cell() {
    let terrain = grid_from_rows(&["..#.", "..#.", "###.", "...."]);
    // a pond of four cells in the corner, and the sea of seven cells
    assert!(any_large_water(&terrain, &vec![(0, 0), (3, 0)], 7));
    assert!(any_large_water(&terrain, &vec![(3, 0), (0, 0)], 7));
    assert!(any_large_water(&terrain, &vec![(0, 0), (1, 1)], 4));
    assert!(!any_large_water(&terrain, &vec![(0, 0), (1, 1)], 5));
    assert!(!any_large_water(&terrain, &vec![(0, 0), (3, 0)], 8));
    assert!(!any_large_water(&terrain, &vec![], 0));
    assert!(!any_large_water(&terrain, &vec![(2, 0)], 0));
}

#[test]
fn the_corners_of_a_square_island_are_its_slots() {
    let terrain = square_island();
    let labels = label_regions(&terrain);
    let mut ids = Vec::new();
    for y in 3..9 {
        for x in 3..9 {
            ids.push(cell_at(&labels, x, y));
        }
    }
    assert_eq!(ids, vec![1usize; 36]);
    // a side of 12 gives a radius of 4.8 cells, which holds the corner (3, 3)
    let slots = find_city_slots(&terrain, &config_with(48, 1, 100));
    assert_eq!(slots, vec![(3, 3), (8, 3), (3, 8), (8, 8)]);
    // a radius of 4 cells does not: the corner lies sqrt(18) from the centre
    let slots = find_city_slots(&terrain, &config_with(40, 1, 100));
    assert_eq!(slots, vec![(8, 3), (3, 8), (8, 8)]);
}

#[test]
fn a_candidate_near_an_accepted_slot_is_rejected() {
    // every inner cell of the staircase has two land and two water neighbours
    let slots = find_city_slots(&staircase(), &config_with(50, 1, 100));
    assert_eq!(slots, vec![(4, 3), (5, 5), (7, 6)]);
    let slots = find_city_slots(&staircase(), &config_with(50, 2, 100));
    assert_eq!(slots, vec![(4, 3), (6, 6)]);
    let slots = find_city_slots(&staircase(), &config_with(50, 3, 100));
    assert_eq!(slots, vec![(4, 3), (7, 7)]);
    let slots = find_city_slots(&staircase(), &config_with(50, 4, 100));
    assert_eq!(slots, vec![(4, 3)]);
}

#[test]
fn without_spacing_every_candidate_is_accepted() {
    let slots = find_city_slots(&staircase(), &config_with(50, 0, 100));
    assert_eq!(
        slots,
        vec![(4, 3), (4, 4), (5, 4), (5, 5), (6, 5), (6, 6), (7, 6), (7, 7)]
    );
}

#[test]
fn slots_meet_the_rules_of_placement() {
    let terrain = staircase();
    for spacing in 0..4 {
        let config = config_with(50, spacing, 100);
        let slots = find_city_slots(&terrain, &config);
        for (i, &(x, y)) in slots.iter().enumerate() {
            assert_eq!(cell_at(&terrain, x, y), Terrain::Land);
            let (land, water, water_neighbors) = count_direct_neighbors(&terrain, x, y);
            assert!(land >= 2);
            assert!(water >= 2);
            assert!(any_large_water(&terrain, &water_neighbors, config.ocean_min_size));
            for &other in &slots[..i] {
                assert!(chebyshev(other, (x, y)) > spacing);
                assert!(other.1 < y || (other.1 == y && other.0 < x));
            }
        }
    }
}

#[test]
fn slots_lie_within_the_city_radius() {
    // the centre is (6, 6): (4, 3) is at distance sqrt(13), (4, 4) at sqrt(8)
    let terrain = staircase();
    assert_eq!(find_city_slots(&terrain, &config_with(30, 1, 100)), vec![(4, 4), (6, 5), (7, 7)]);
    assert_eq!(find_city_slots(&terrain, &config_with(0, 1, 100)), vec![(6, 6)]);
    assert_eq!(find_city_slots(&terrain, &config_with(40, 1, 100)), vec![(4, 3), (5, 5), (7, 6)]);
    // 3.6 cells squared is 12.96, 3.7 cells squared is 13.69
    assert_eq!(find_city_slots(&terrain, &config_with(36, 1, 100)), vec![(4, 4), (6, 5), (7, 7)]);
    assert_eq!(find_city_slots(&terrain, &config_with(37, 1, 100)), vec![(4, 3), (5, 5), (7, 6)]);
}

#[test]
fn slots_may_stand_next_to_the_edge_whatever_the_spacing() {
    // a cell on the edge has three neighbours at most, so it is never a candidate
    let terrain = grid_from_rows(&["#..#", "....", "....", "#..#"]);
    let mut config = config_with(100, 0, 1);
    assert_eq!(find_city_slots(&terrain, &config), vec![]);
    let inner = grid_from_rows(&["....", ".##.", ".##.", "...."]);
    assert_eq!(
        find_city_slots(&inner, &config),
        vec![(1, 1), (2, 1), (1, 2), (2, 2)]
    );
    config.city_spacing = 1;
    assert_eq!(find_city_slots(&inner, &config), vec![(1, 1)]);
    config.city_spacing = 2;
    assert_eq!(find_city_slots(&inner, &config), vec![(1, 1)]);
    config.city_spacing = usize::MAX;
    assert_eq!(find_city_slots(&inner, &config), vec![(1, 1)]);
}

#[test]
fn slots_just_beyond_the_spacing_are_all_accepted() {
    // an island of seven by seven cells: its corners are six cells apart
    let mut terrain = new_grid(40, Terrain::Water);
    for y in 17..24 {
        for x in 17..24 {
            set_cell(&mut terrain, x, y, Terrain::Land);
        }
    }
    let config = WorldConfig::for_size(40);
    assert_eq!(config.city_spacing, 5);
    assert_eq!(
        find_city_slots(&terrain, &config),
        vec![(17, 17), (23, 17), (17, 23), (23, 23)]
    );
    let mut wider = config;
    wider.city_spacing = 6;
    assert_eq!(find_city_slots(&terrain, &wider), vec![(17, 17)]);
}

#[test]
fn a_slot_needs_an_ocean_and_not_a_pond() {
    let mut terrain = new_grid(12, Terrain::Land);
    set_cell(&mut terrain, 5, 5, Terrain::Water);
    set_cell(&mut terrain, 6, 6, Terrain::Water);
    assert_eq!(find_city_slots(&terrain, &config_with(1_000, 1, 2)), vec![]);
    assert_eq!(find_city_slots(&terrain, &config_with(1_000, 1, 1)), vec![(6, 5)]);
    assert_eq!(find_city_slots(&terrain, &config_with(1_000, 0, 1)), vec![(6, 5), (5, 6)]);
}

#[test]
fn far_land_counts_as_neither_land_nor_water() {
    let terrain = grid_from_rows(&[
        ".....",
        "..#..",
        ".^##.",
        "..^..",
        ".....",
    ]);
    // (2, 2) has one land, one water and two far land neighbours
    assert_eq!(find_city_slots(&terrain, &config_with(100, 0, 1)), vec![]);
    let open = grid_from_rows(&[
        ".....",
        "..#..",
        "..##.",
        ".....",
        ".....",
    ]);
    assert_eq!(find_city_slots(&open, &config_with(100, 0, 1)), vec![(2, 2)]);
}

#[test]
fn water_has_no_slots() {
    let terrain = new_grid(12, Terrain::Water);
    assert_eq!(find_city_slots(&terrain, &config_with(50, 1, 100)), vec![]);
    let labels = label_regions(&terrain);
    assert_eq!(filter_city_slots_by_region(&vec![], &labels, 6), vec![]);
}

#[test]
fn finding_slots_twice_gives_the_same_list() {
    let terrain = staircase();
    let config = config_with(50, 1, 100);
    assert_eq!(find_city_slots(&terrain, &config), find_city_slots(&terrain, &config));
}

fn two_islands() -> (Vec<Vec<usize>>, Vec<(usize, usize)>, Vec<(usize, usize)>) {
    // island 1 fills the columns 0..4, island 2 the columns 5..8
    let mut region_map = new_grid(8, 0usize);
    for y in 0..8 {
        for x in 0..4 {
            set_cell(&mut region_map, x, y, 1);
        }
        for x in 5..8 {
            set_cell(&mut region_map, x, y, 2);
        }
    }
    let first = vec![(0, 0), (2, 0), (0, 2), (2, 2), (0, 4), (2, 4), (0, 6), (2, 6)];
    let second = vec![(6, 1), (6, 3), (6, 5)];
    (region_map, first, second)
}

#[test]
fn an_island_with_enough_slots_keeps_all_and_a_small_one_none() {
    let (region_map, first, second) = two_islands();
    let mut slots = first.clone();
    slots.extend(second.iter());
    assert_eq!(filter_city_slots_by_region(&slots, &region_map, 6), first);
}

#[test]
fn kept_slots_come_island_by_island() {
    let (region_map, first, second) = two_islands();
    // in scan order the slots of the two islands alternate
    let slots = vec![
        (0, 0), (2, 0), (6, 1), (0, 2), (2, 2), (6, 3), (0, 4), (2, 4), (6, 5), (0, 6), (2, 6),
    ];
    let mut both = first.clone();
    both.extend(second.iter());
    assert_eq!(filter_city_slots_by_region(&slots, &region_map, 3), both);
    assert_eq!(filter_city_slots_by_region(&slots, &region_map, 0), both);
    assert_eq!(filter_city_slots_by_region(&slots, &region_map, 4), first);
    assert_eq!(filter_city_slots_by_region(&slots, &region_map, 8), first);
    assert_eq!(filter_city_slots_by_region(&slots, &region_map, 9), vec![]);
    let mut second_first = vec![(6, 1)];
    second_first.extend(slots.iter().filter(|s| **s != (6, 1)));
    let mut swapped = second.clone();
    swapped.extend(first.iter());
    assert_eq!(filter_city_slots_by_region(&second_first, &region_map, 3), swapped);
}

#[test]
fn an_island_is_kept_exactly_from_its_own_count_on() {
    let (region_map, first, second) = two_islands();
    let mut slots = second.clone();
    slots.extend(first.iter());
    for min_slots in 0..12 {
        let kept = filter_city_slots_by_region(&slots, &region_map, min_slots);
        let kept_first: Vec<_> = kept.iter().filter(|s| s.0 < 4).cloned().collect();
        let kept_second: Vec<_> = kept.iter().filter(|s| s.0 >= 5).cloned().collect();
        assert_eq!(kept_first, if min_slots <= 8 { first.clone() } else { vec![] });
        assert_eq!(kept_second, if min_slots <= 3 { second.clone() } else { vec![] });
        assert_eq!(kept.len(), kept_first.len() + kept_second.len());
    }
}

#[test]
fn slots_on_no_island_are_dropped() {
    let (region_map, _, _) = two_islands();
    let slots = vec![(4, 0), (4, 1), (4, 2), (1, 1)];
    assert_eq!(filter_city_slots_by_region(&slots, &region_map, 1), vec![(1, 1)]);
    assert_eq!(filter_city_slots_by_region(&slots, &region_map, 0), vec![(1, 1)]);
    assert_eq!(filter_city_slots_by_region(&slots, &region_map, 2), vec![]);
}

#[test]
fn a_slot_named_twice_counts_twice() {
    let (region_map, _, _) = two_islands();
    let slots = vec![(1, 1), (6, 6), (1, 1)];
    assert_eq!(filter_city_slots_by_region(&slots, &region_map, 2), vec![(1, 1), (1, 1)]);
}

#[test]
fn filtering_twice_gives_the_same_list() {
    let (region_map, first, second) = two_islands();
    let mut slots = second.clone();
    slots.extend(first.iter());
    assert_eq!(
        filter_city_slots_by_region(&slots, &region_map, 3),
        filter_city_slots_by_region(&slots, &region_map, 3)
    );
}

#[test]
fn the_map_under_the_slots_need_not_be_square() {
    // three rows of eight cells: island 1 is the first row, island 2 lies in the third
    let region_map: Vec<Vec<usize>> = vec![
        vec![1, 1, 1, 1, 1, 1, 1, 1],
        vec![0, 0, 0, 0, 0, 0, 0, 0],
        vec![2, 2, 2, 0, 0, 0, 0, 0],
    ];
    let first: Vec<(usize, usize)> = (0..8).map(|x| (x, 0)).collect();
    let mut slots = first.clone();
    slots.extend([(0, 2), (1, 2), (2, 2)]);
    let kept = filter_city_slots_by_region(&slots, &region_map, 6);
    assert_eq!(kept.len(), 8);
    for slot in &first {
        assert_eq!(kept.iter().filter(|s| *s == slot).count(), 1);
    }
    for slot in [(0, 2), (1, 2), (2, 2)] {
        assert!(!kept.contains(&slot));
    }
    assert_eq!(kept, first);
}

#[test]
fn an_island_with_exactly_the_least_number_of_slots_is_kept() {
    let region_map: Vec<Vec<usize>> = vec![vec![1, 1]];
    let slots = vec![(0, 0), (1, 0)];
    assert_eq!(filter_city_slots_by_region(&slots, &region_map, 2), vec![(0, 0), (1, 0)]);
    assert_eq!(filter_city_slots_by_region(&slots, &region_map, 3), vec![]);
}

#[test]
fn rows_of_the_map_may_differ_in_length() {
    let region_map: Vec<Vec<usize>> = vec![vec![3], vec![0, 3, 5], vec![]];
    let slots = vec![(2, 1), (0, 0), (1, 1), (0, 1)];
    assert_eq!(filter_city_slots_by_region(&slots, &region_map, 2), vec![(0, 0), (1, 1)]);
    assert_eq!(filter_city_slots_by_region(&slots, &region_map, 1), vec![(2, 1), (0, 0), (1, 1)]);
}

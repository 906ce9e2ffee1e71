use worldgen::config::WorldConfig;
use worldgen::grid::{center_distance_sq, beyond_far_radius, within_radius, new_grid, cell_at, set_cell};
use worldgen::terrain::{
    classify_terrain, flood_fill_label, is_large_water_region, label_regions, neighbors_4, Terrain,
};

const W: Terrain = Terrain::Water;
const L: Terrain = Terrain::Land;
const F: Terrain = Terrain::FarLand;

fn terrain_from_rows(rows: &[&str]) -> Vec<Vec<Terrain>> {
    rows.iter()
        .map(|row| {
            row.chars()
                .map(|ch| match ch {
                    '#' => L,
                    '^' => F,
                    _ => W,
                })
                .collect()
        })
        .collect()
}

fn small_config(city_radius_tenths: usize) -> WorldConfig {
    WorldConfig {
        water_level: 550_000,
        city_radius_tenths,
        city_spacing: 1,
        min_city_slots_per_island: 2,
        ocean_min_size: 100,
        chunk_size: 4,
    }
}

#[test]
fn neighbors_of_an_inner_cell_come_left_right_up_down() {
    assert_eq!(neighbors_4(5, 7, 12), vec![(4, 7), (6, 7), (5, 6), (5, 8)]);
}

#[test]
fn neighbors_stop_at_the_first_row_and_column() {
    assert_eq!(neighbors_4(0, 0, 12), vec![(1, 0), (0, 1)]);
}

#[test]
fn neighbors_stop_at_the_last_row_and_column() {
    assert_eq!(neighbors_4(11, 11, 12), vec![(10, 11), (11, 10)]);
    assert_eq!(neighbors_4(11, 3, 12), vec![(10, 3), (11, 2), (11, 4)]);
}

#[test]
fn a_grid_of_one_cell_has_no_neighbors() {
    assert_eq!(neighbors_4(0, 0, 1), Vec::<(usize, usize)>::new());
}

#[test]
fn neighbors_do_not_overflow_at_the_largest_coordinate() {
    assert_eq!(
        neighbors_4(usize::MAX, 0, usize::MAX),
        vec![(usize::MAX - 1, 0), (usize::MAX, 1)]
    );
}

#[test]
fn distance_to_the_centre_is_squared() {
    assert_eq!(center_distance_sq(3, 3, 12), 18);
    assert_eq!(center_distance_sq(8, 8, 12), 8);
    assert_eq!(center_distance_sq(6, 6, 12), 0);
    assert_eq!(center_distance_sq(0, 11, 12), 36 + 25);
}

#[test]
fn radius_tests_compare_squares() {
    // the radius is given in tenths of a cell
    assert!(within_radius(25, 50));
    assert!(!within_radius(26, 50));
    assert!(within_radius(0, 0));
    assert!(!within_radius(1, 9));
    assert!(within_radius(1, 10));
    assert!(within_radius(1 << 64, usize::MAX));
    // 4.8 cells: 23 <= 23.04 < 24
    assert!(within_radius(23, 48));
    assert!(!within_radius(24, 48));
    // eleven tenths of 10 cells is 11: 121 is at the limit, 122 beyond it
    assert!(!beyond_far_radius(121, 100));
    assert!(beyond_far_radius(122, 100));
    assert!(!beyond_far_radius(1 << 64, usize::MAX));
    assert!(beyond_far_radius(u128::MAX, usize::MAX));
    // eleven tenths of 4.8 cells is 5.28: 27 <= 27.8784 < 28
    assert!(!beyond_far_radius(27, 48));
    assert!(beyond_far_radius(28, 48));
}

#[test]
fn classification_goes_by_water_level_then_by_distance() {
    let n = 12;
    let mut elevation = new_grid(n, 700_000u32);
    set_cell(&mut elevation, 6, 6, 549_999);
    set_cell(&mut elevation, 7, 6, 550_000);
    set_cell(&mut elevation, 0, 0, 100_000);
    // city radius 4: far land begins where d^2 > 1.21 * 16 = 19.36
    let terrain = classify_terrain(&elevation, &small_config(40));
    assert_eq!(cell_at(&terrain, 6, 6), W);
    assert_eq!(cell_at(&terrain, 7, 6), L);
    assert_eq!(cell_at(&terrain, 0, 0), W);
    // (2, 6): d^2 = 16, land; (6, 10): d^2 = 16, land
    assert_eq!(cell_at(&terrain, 2, 6), L);
    assert_eq!(cell_at(&terrain, 6, 10), L);
    // (3, 3): d^2 = 18 <= 19.36, land; (2, 4): d^2 = 20, far land
    assert_eq!(cell_at(&terrain, 3, 3), L);
    assert_eq!(cell_at(&terrain, 2, 4), F);
    assert_eq!(cell_at(&terrain, 11, 11), F);
    assert_eq!(cell_at(&terrain, 1, 6), F);
}

#[test]
fn a_grid_below_the_water_level_is_all_water() {
    let elevation = new_grid(12, 549_999u32);
    let terrain = classify_terrain(&elevation, &small_config(50));
    assert_eq!(terrain, new_grid(12, W));
    assert_eq!(label_regions(&terrain), new_grid(12, 0usize));
}

#[test]
fn one_square_island_gets_one_id() {
    let n = 12;
    let mut elevation = new_grid(n, 100_000u32);
    for y in 3..9 {
        for x in 3..9 {
            set_cell(&mut elevation, x, y, 700_000);
        }
    }
    let terrain = classify_terrain(&elevation, &small_config(48));
    let labels = label_regions(&terrain);
    let mut land = 0;
    for y in 0..n {
        for x in 0..n {
            let inside = (3..9).contains(&x) && (3..9).contains(&y);
            assert_eq!(cell_at(&terrain, x, y), if inside { L } else { W });
            assert_eq!(cell_at(&labels, x, y), if inside { 1 } else { 0 });
            if inside {
                land += 1;
            }
        }
    }
    assert_eq!(land, 36);
}

#[test]
fn islands_are_numbered_in_scan_order() {
    let terrain = terrain_from_rows(&[
        "..#..#",
        "#.#..#",
        "#.####",
        "#.....",
        "..^^#.",
        "#...#.",
    ]);
    let labels = label_regions(&terrain);
    let expected: Vec<Vec<usize>> = vec![
        vec![0, 0, 1, 0, 0, 1],
        vec![2, 0, 1, 0, 0, 1],
        vec![2, 0, 1, 1, 1, 1],
        vec![2, 0, 0, 0, 0, 0],
        vec![0, 0, 0, 0, 3, 0],
        vec![4, 0, 0, 0, 3, 0],
    ];
    assert_eq!(labels, expected);
}

#[test]
fn cells_that_touch_at_a_corner_only_are_different_islands() {
    let terrain = terrain_from_rows(&["#..", ".#.", "..#"]);
    let labels = label_regions(&terrain);
    assert_eq!(labels, vec![vec![1, 0, 0], vec![0, 2, 0], vec![0, 0, 3]]);
}

#[test]
fn far_land_is_no_island_and_joins_none() {
    let terrain = terrain_from_rows(&["#^#", "...", "^^^"]);
    let labels = label_regions(&terrain);
    assert_eq!(labels, vec![vec![1, 0, 2], vec![0, 0, 0], vec![0, 0, 0]]);
}

#[test]
fn a_label_is_zero_exactly_off_land_and_equal_along_land_paths() {
    let terrain = terrain_from_rows(&[
        "#####.",
        "#...#.",
        "#.#.#.",
        "#.#.#.",
        "#.###.",
        "......",
    ]);
    let labels = label_regions(&terrain);
    for y in 0..6 {
        for x in 0..6 {
            assert_eq!(cell_at(&labels, x, y) == 0, cell_at(&terrain, x, y) != L);
            if cell_at(&terrain, x, y) == L {
                // the spiral is one island: every land cell is joined to (0, 0)
                assert_eq!(cell_at(&labels, x, y), cell_at(&labels, 0, 0));
            }
        }
    }
}

#[test]
fn labelling_twice_gives_the_same_map() {
    let terrain = terrain_from_rows(&["#.#.", "..#.", "##..", "...#"]);
    assert_eq!(label_regions(&terrain), label_regions(&terrain));
}

#[test]
fn flood_fill_labels_the_island_of_the_start_only() {
    let terrain = terrain_from_rows(&["##.#", ".#.#", "...#", "##.."]);
    let mut labels = new_grid(4, 0usize);
    flood_fill_label(&terrain, &mut labels, 1, 1, 7);
    assert_eq!(
        labels,
        vec![vec![7, 7, 0, 0], vec![0, 7, 0, 0], vec![0, 0, 0, 0], vec![0, 0, 0, 0]]
    );
    flood_fill_label(&terrain, &mut labels, 3, 2, 9);
    assert_eq!(
        labels,
        vec![vec![7, 7, 0, 9], vec![0, 7, 0, 9], vec![0, 0, 0, 9], vec![0, 0, 0, 0]]
    );
}

#[test]
fn water_is_large_from_its_own_size_on() {
    // a pond of three cells and the sea around the land
    let terrain = terrain_from_rows(&[
        ".......",
        ".#####.",
        ".#..##.",
        ".#.###.",
        ".#####.",
        ".......",
        ".......",
    ]);
    assert!(is_large_water_region(&terrain, 2, 2, 3));
    assert!(is_large_water_region(&terrain, 3, 2, 1));
    assert!(!is_large_water_region(&terrain, 2, 3, 4));
    // the sea has 49 - 17 - 3 = 29 cells
    assert!(is_large_water_region(&terrain, 0, 0, 29));
    assert!(!is_large_water_region(&terrain, 6, 5, 30));
}

#[test]
fn land_is_never_large_water() {
    let terrain = terrain_from_rows(&["#.", ".^"]);
    assert!(!is_large_water_region(&terrain, 0, 0, 0));
    assert!(!is_large_water_region(&terrain, 1, 1, 0));
    assert!(!is_large_water_region(&terrain, 0, 0, 1));
}

#[test]
fn any_water_is_large_for_a_size_of_zero() {
    let terrain = terrain_from_rows(&["#.", "##"]);
    assert!(is_large_water_region(&terrain, 1, 0, 0));
    assert!(is_large_water_region(&terrain, 1, 0, 1));
    assert!(!is_large_water_region(&terrain, 1, 0, 2));
}

#[test]
fn water_joined_at_a_corner_only_is_not_one_body() {
    let terrain = terrain_from_rows(&[".#", "#."]);
    assert!(!is_large_water_region(&terrain, 0, 0, 2));
    assert!(!is_large_water_region(&terrain, 1, 1, 2));
}

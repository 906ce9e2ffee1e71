//! The stages in a row: from heights to the settlements that are kept.

use vstd::prelude::*;
use crate::config::WorldConfig;
use crate::grid::{
    Cell, Slot, slots_on_grid, grid_view, at, cell_at, is_square, is_world_grid, in_grid, cell_of,
    cells_of,
};
use crate::terrain::{
    Terrain, is_classification, classify_terrain, is_region_map, region_id, label_regions,
};
use crate::city::{
    is_slot_plan, is_candidate, kept_slots, island_order, region_of, find_city_slots,
    filter_city_slots_by_region, lemma_slot_plan_unique,
};

verus! {

/// What the stages make of a grid of heights.
pub struct World {
    /// The category of each cell.
    pub terrain: Vec<Vec<Terrain>>,
    /// The island id of each cell.
    pub region_map: Vec<Vec<usize>>,
    /// Every place accepted for a settlement, in scan order.
    pub raw_slots: Vec<(usize, usize)>,
    /// The places on the islands that hold enough of them.
    pub city_slots: Vec<(usize, usize)>,
}

/// The parts of a world are what the stages give, each for the part before it.
pub open spec fn is_world(
    e: Seq<Seq<u32>>,
    config: WorldConfig,
    terrain: Seq<Seq<Terrain>>,
    region_map: Seq<Seq<usize>>,
    raw_slots: Seq<Slot>,
    city_slots: Seq<Slot>,
) -> bool {
    &&& is_classification(e, config, terrain)
    &&& is_region_map(terrain, region_map)
    &&& is_slot_plan(terrain, config, cells_of(raw_slots))
    &&& city_slots == kept_slots(raw_slots, region_map, config.min_city_slots_per_island as int)
}

/// Runs the stages on a grid of heights: classifies the cells, numbers the
/// islands, finds the places for settlements and drops those on islands with
/// too few of them. A world without any place left is a result like any other.
pub fn plan_world(elevation: &Vec<Vec<u32>>, config: &WorldConfig) -> (world: World)
    requires
        is_world_grid(grid_view(elevation)),
    ensures
        is_world(
            grid_view(elevation),
            *config,
            grid_view(&world.terrain),
            grid_view(&world.region_map),
            world.raw_slots@,
            world.city_slots@,
        ),
{
    let terrain = classify_terrain(elevation, config);
    let region_map = label_regions(&terrain);
    let raw_slots = find_city_slots(&terrain, config);
    proof {
        let t = grid_view(&terrain);
        let s = cells_of(raw_slots@);
        assert forall|i: int| 0 <= i < raw_slots.len() implies in_grid(
            cell_of(#[trigger] raw_slots[i]),
            region_map.len() as int,
        ) by {
            assert(s[i] == cell_of(raw_slots[i]));
            assert(s.contains(s[i]));
            assert(is_candidate(t, *config, s[i]));
        }
        assert(slots_on_grid(raw_slots@, grid_view(&region_map)));
    }
    let city_slots = filter_city_slots_by_region(&raw_slots, &region_map, config.min_city_slots_per_island);
    World { terrain, region_map, raw_slots, city_slots }
}

/// Lists each slot with the id of the island it stands on, as `(x, y, id)`.
pub fn slots_with_islands(city_slots: &Vec<(usize, usize)>, region_map: &Vec<Vec<usize>>) -> (listed: Vec<
    (usize, usize, usize),
>)
    requires
        slots_on_grid(city_slots@, grid_view(region_map)),
    ensures
        listed.len() == city_slots.len(),
        forall|i: int|
            0 <= i < listed.len() ==> #[trigger] listed[i] == (
                city_slots[i].0,
                city_slots[i].1,
                region_of(grid_view(region_map), city_slots[i]),
            ),
{
    let mut listed: Vec<(usize, usize, usize)> = Vec::new();
    let mut i: usize = 0;
    while i < city_slots.len()
        invariant
            0 <= i <= city_slots.len(),
            slots_on_grid(city_slots@, grid_view(region_map)),
            listed.len() == i,
            forall|j: int|
                0 <= j < i ==> #[trigger] listed[j] == (
                    city_slots[j].0,
                    city_slots[j].1,
                    region_of(grid_view(region_map), city_slots[j]),
                ),
        decreases city_slots.len() - i,
    {
        let (x, y) = city_slots[i];
        assert(city_slots@[i as int] == (x, y));
        listed.push((x, y, cell_at(region_map, x, y)));
        i += 1;
    }
    listed
}

/// Heights wholly below the water level give a world of water: every cell
/// is water, no cell has an island id, and no slot is accepted or kept.
pub proof fn lemma_world_of_water(
    e: Seq<Seq<u32>>,
    config: WorldConfig,
    terrain: Seq<Seq<Terrain>>,
    region_map: Seq<Seq<usize>>,
    raw_slots: Seq<Slot>,
    city_slots: Seq<Slot>,
)
    requires
        is_world(e, config, terrain, region_map, raw_slots, city_slots),
        forall|c: Cell| in_grid(c, e.len() as int) ==> #[trigger] at(e, c) < config.water_level,
    ensures
        forall|c: Cell| in_grid(c, e.len() as int) ==> #[trigger] at(terrain, c) == Terrain::Water,
        forall|c: Cell| in_grid(c, e.len() as int) ==> #[trigger] at(region_map, c) == 0,
        raw_slots == Seq::<Slot>::empty(),
        city_slots == Seq::<Slot>::empty(),
{
    let n = e.len() as int;
    assert forall|c: Cell| in_grid(c, n) implies #[trigger] at(terrain, c) == Terrain::Water by {
        assert(at(e, c) < config.water_level);
    }
    assert forall|c: Cell| in_grid(c, n) implies #[trigger] at(region_map, c) == 0 by {
        assert(at(terrain, c) == Terrain::Water);
        assert(region_map[c.1][c.0] == region_id(terrain, c));
    }
    if raw_slots.len() > 0 {
        let s = cells_of(raw_slots);
        assert(s.contains(s[0]));
        assert(is_candidate(terrain, config, s[0]));
        assert(at(terrain, s[0]) == Terrain::Water);
    }
    assert(raw_slots =~= Seq::<Slot>::empty());
    assert(island_order(raw_slots, region_map) =~= Seq::<usize>::empty());
    assert(city_slots =~= Seq::<Slot>::empty());
}

/// Two square grids that agree cell by cell are one grid.
pub proof fn lemma_grids_equal<T>(a: Seq<Seq<T>>, b: Seq<Seq<T>>, n: int)
    requires
        is_square(a, n),
        is_square(b, n),
        forall|c: Cell| in_grid(c, n) ==> #[trigger] at(a, c) == at(b, c),
    ensures
        a == b,
{
    assert forall|y: int| 0 <= y < n implies a[y] == b[y] by {
        assert forall|x: int| 0 <= x < n implies a[y][x] == b[y][x] by {
            assert(at(a, (x, y)) == at(b, (x, y)));
        }
        assert(a[y] =~= b[y]);
    }
    assert(a =~= b);
}

/// Slot lists that name the same cells are one list.
pub proof fn lemma_same_cells(a: Seq<Slot>, b: Seq<Slot>)
    requires
        cells_of(a) == cells_of(b),
    ensures
        a == b,
{
    assert(a.len() == cells_of(a).len());
    assert(b.len() == cells_of(b).len());
    assert forall|i: int| 0 <= i < a.len() implies a[i] == b[i] by {
        assert(cells_of(a)[i] == cell_of(a[i]));
        assert(cells_of(b)[i] == cell_of(b[i]));
    }
    assert(a =~= b);
}

/// The heights and the settings determine the world: two runs on one grid of
/// heights give the same terrain, the same island ids, the same accepted
/// slots and the same kept slots.
pub proof fn lemma_world_determined(
    e: Seq<Seq<u32>>,
    config: WorldConfig,
    terrain_a: Seq<Seq<Terrain>>,
    region_map_a: Seq<Seq<usize>>,
    raw_slots_a: Seq<Slot>,
    city_slots_a: Seq<Slot>,
    terrain_b: Seq<Seq<Terrain>>,
    region_map_b: Seq<Seq<usize>>,
    raw_slots_b: Seq<Slot>,
    city_slots_b: Seq<Slot>,
)
    requires
        is_world(e, config, terrain_a, region_map_a, raw_slots_a, city_slots_a),
        is_world(e, config, terrain_b, region_map_b, raw_slots_b, city_slots_b),
    ensures
        terrain_a == terrain_b,
        region_map_a == region_map_b,
        raw_slots_a == raw_slots_b,
        city_slots_a == city_slots_b,
{
    let n = e.len() as int;
    lemma_grids_equal(terrain_a, terrain_b, n);
    assert forall|c: Cell| in_grid(c, n) implies #[trigger] at(region_map_a, c) == at(region_map_b, c) by {
        assert(region_map_a[c.1][c.0] == region_id(terrain_a, c));
        assert(region_map_b[c.1][c.0] == region_id(terrain_b, c));
    }
    lemma_grids_equal(region_map_a, region_map_b, n);
    lemma_slot_plan_unique(terrain_a, config, cells_of(raw_slots_a), cells_of(raw_slots_b));
    lemma_same_cells(raw_slots_a, raw_slots_b);
}

} // verus!

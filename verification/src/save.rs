//! The world as it is written down: the settlements, island by island.

use vstd::prelude::*;
use std::collections::HashMap;
use crate::grid::{Slot, slots_on_grid, grid_view, cell_at};
use crate::city::{region_of, on_island, island_slots, island_order, lemma_island_order};

verus! {

/// Where a settlement stands.
#[derive(Clone, Copy, Debug, PartialEq, Eq, Structural)]
pub struct CityInfo {
    pub x: usize,
    pub y: usize,
}

/// An island and the settlements on it.
#[derive(Debug, PartialEq, Eq)]
pub struct IslandInfo {
    pub region_id: usize,
    pub city_slots: Vec<CityInfo>,
}

/// All islands that hold a settlement.
#[derive(Debug, PartialEq, Eq)]
pub struct WorldSave {
    pub islands: Vec<IslandInfo>,
}

/// A slot as it is written down.
pub open spec fn city_info_of(s: Slot) -> CityInfo {
    CityInfo { x: s.0, y: s.1 }
}

/// The settlements on island `id` as they are written down, in the order of `slots`.
pub open spec fn saved_cities(slots: Seq<Slot>, m: Seq<Seq<usize>>, id: usize) -> Seq<CityInfo> {
    island_slots(slots, m, id).map_values(|s: Slot| city_info_of(s))
}

/// `islands` lists the settlements `slots` island by island: one entry for
/// each island that holds a slot, in the order in which `slots` first names
/// the islands, and in each entry the slots of that island in the order of
/// `slots`. Slots on no island, which have the id 0, are left out.
pub open spec fn is_world_save(slots: Seq<Slot>, m: Seq<Seq<usize>>, islands: Seq<IslandInfo>) -> bool {
    &&& islands.len() == island_order(slots, m).len()
    &&& forall|i: int|
        0 <= i < islands.len() ==> (#[trigger] islands[i]).region_id == island_order(slots, m)[i]
            && islands[i].city_slots@ == saved_cities(slots, m, island_order(slots, m)[i])
}

/// What is written down names no island twice and no island with the id 0,
/// and it names the island of every slot that stands on one.
pub proof fn lemma_world_save_islands(slots: Seq<Slot>, m: Seq<Seq<usize>>, islands: Seq<IslandInfo>)
    requires
        is_world_save(slots, m, islands),
    ensures
        forall|i: int, j: int|
            0 <= i < j < islands.len() ==> (#[trigger] islands[i]).region_id != (#[trigger] islands[j]).region_id,
        forall|i: int| 0 <= i < islands.len() ==> (#[trigger] islands[i]).region_id != 0,
        forall|k: int|
            0 <= k < slots.len() && region_of(m, #[trigger] slots[k]) != 0 ==> exists|i: int|
                0 <= i < islands.len() && (#[trigger] islands[i]).region_id == region_of(m, slots[k]),
{
    let order = island_order(slots, m);
    lemma_island_order(slots, m);
    assert forall|i: int| 0 <= i < islands.len() implies (#[trigger] islands[i]).region_id != 0 by {
        assert(order.contains(order[i]));
    }
    assert forall|k: int| 0 <= k < slots.len() && region_of(m, #[trigger] slots[k]) != 0 implies exists|i: int|
        0 <= i < islands.len() && (#[trigger] islands[i]).region_id == region_of(m, slots[k]) by {
        let id = region_of(m, slots[k]);
        assert(order.contains(id));
        let i = choose|i: int| 0 <= i < order.len() && order[i] == id;
        assert(islands[i].region_id == id);
    }
}

/// Groups the settlements by the island they stand on, for writing down.
/// Settlements on no island are left out. The islands come in the order in
/// which the settlements first name them.
pub fn build_world_save(region_map: &Vec<Vec<usize>>, filtered_city_slots: &Vec<(usize, usize)>) -> (save:
    WorldSave)
    requires
        slots_on_grid(filtered_city_slots@, grid_view(region_map)),
    ensures
        is_world_save(filtered_city_slots@, grid_view(region_map), save.islands@),
{
    let ghost m = grid_view(region_map);
    let ghost all = filtered_city_slots@;
    let mut group_of: HashMap<usize, usize> = HashMap::new();
    let mut islands: Vec<IslandInfo> = Vec::new();
    let mut k: usize = 0;
    proof {
        reveal(Seq::filter);
        assert(all.take(0) =~= Seq::<Slot>::empty());
        assert(forall|id: usize| saved_cities(all.take(0), m, id) =~= Seq::<CityInfo>::empty());
    }
    while k < filtered_city_slots.len()
        invariant
            0 <= k <= filtered_city_slots.len(),
            m == grid_view(region_map),
            all == filtered_city_slots@,
            slots_on_grid(filtered_city_slots@, m),
            is_world_save(all.take(k as int), m, islands@),
            forall|i: int|
                0 <= i < islands.len() ==> (#[trigger] islands[i]).region_id != 0 && group_of@.contains_key(
                    islands[i].region_id,
                ) && group_of@[islands[i].region_id] == i,
            forall|id: usize|
                group_of@.contains_key(id) ==> #[trigger] island_order(all.take(k as int), m).contains(id),
            forall|id: usize|
                id != 0 && !island_order(all.take(k as int), m).contains(id) ==> #[trigger] saved_cities(
                    all.take(k as int),
                    m,
                    id,
                ) == Seq::<CityInfo>::empty(),
        decreases filtered_city_slots.len() - k,
    {
        let (x, y) = filtered_city_slots[k];
        assert(filtered_city_slots@[k as int] == (x, y));
        let region_id = cell_at(region_map, x, y);
        let city = CityInfo { x, y };
        let ghost slot = (x, y);
        let ghost seen = all.take(k as int);
        let ghost more = all.take(k + 1);
        let ghost order = island_order(seen, m);
        let ghost islands_before = islands@;
        let ghost known = group_of@;
        proof {
            assert(more =~= seen.push(slot));
            assert(more.drop_last() =~= seen);
            assert(region_id == region_of(m, slot));
            assert(city == city_info_of(slot));
            assert forall|id: usize| #[trigger] saved_cities(more, m, id) == (if id == region_id {
                saved_cities(seen, m, id).push(city)
            } else {
                saved_cities(seen, m, id)
            }) by {
                seen.lemma_filter_push(slot, on_island(m, id));
                if id == region_id {
                    assert(saved_cities(more, m, id) =~= saved_cities(seen, m, id).push(city));
                }
            }
            assert forall|i: int| 0 <= i < order.len() implies known.contains_key(#[trigger] order[i]) by {
                assert(islands_before[i].region_id == order[i]);
            }
        }
        if region_id > 0 {
            match group_of.get(&region_id) {
                Some(found) => {
                    let i = *found;
                    proof {
                        assert(known.contains_key(region_id));
                        assert(order.contains(region_id));
                        let j = choose|j: int| 0 <= j < order.len() && order[j] == region_id;
                        assert(islands_before[j].region_id == region_id);
                        assert(j == i);
                        assert(island_order(more, m) == order);
                    }
                    islands[i].city_slots.push(city);
                    proof {
                        assert forall|j: int| 0 <= j < islands.len() implies (#[trigger] islands[j]).region_id
                            == order[j] && islands[j].city_slots@ == saved_cities(more, m, order[j]) by {
                            if j != i {
                                assert(islands[j] == islands_before[j]);
                                assert(known[islands_before[j].region_id] == j);
                            }
                        }
                    }
                },
                None => {
                    proof {
                        assert(!known.contains_key(region_id));
                        if order.contains(region_id) {
                            let j = choose|j: int| 0 <= j < order.len() && order[j] == region_id;
                            assert(known.contains_key(order[j]));
                        }
                        assert(island_order(more, m) == order.push(region_id));
                    }
                    group_of.insert(region_id, islands.len());
                    let mut city_slots: Vec<CityInfo> = Vec::new();
                    city_slots.push(city);
                    islands.push(IslandInfo { region_id, city_slots });
                    proof {
                        let longer = order.push(region_id);
                        assert(islands[order.len() as int].city_slots@ =~= saved_cities(seen, m, region_id).push(
                            city,
                        ));
                        assert forall|j: int| 0 <= j < islands.len() implies (#[trigger] islands[j]).region_id
                            == longer[j] && islands[j].city_slots@ == saved_cities(more, m, longer[j]) by {
                            if j < order.len() {
                                assert(islands[j] == islands_before[j]);
                                assert(order.contains(order[j]));
                            }
                        }
                        assert forall|id: usize| group_of@.contains_key(id) implies #[trigger] longer.contains(
                            id,
                        ) by {
                            if id == region_id {
                                assert(longer[order.len() as int] == id);
                            } else {
                                assert(known.contains_key(id));
                                assert(order.contains(id));
                                let j = choose|j: int| 0 <= j < order.len() && order[j] == id;
                                assert(longer[j] == id);
                            }
                        }
                        assert forall|id: usize| id != 0 && !longer.contains(id) implies #[trigger] saved_cities(
                            more,
                            m,
                            id,
                        ) == Seq::<CityInfo>::empty() by {
                            assert(longer[order.len() as int] == region_id);
                            if order.contains(id) {
                                let j = choose|j: int| 0 <= j < order.len() && order[j] == id;
                                assert(longer[j] == id);
                            }
                        }
                    }
                },
            }
        } else {
            proof {
                assert(island_order(more, m) == order);
            }
        }
        k += 1;
    }
    assert(all.take(k as int) =~= all);
    WorldSave { islands }
}

} // verus!

//! Terrain categories, and the water bodies and islands they form.

use vstd::prelude::*;
use std::collections::VecDeque;
use std::collections::HashSet;
use crate::config::WorldConfig;
use crate::grid::{
    Cell, Slot, grid_view, at, cell_at, set_cell, new_grid, is_square, is_world_grid, in_grid,
    cell_of, cells_of, adjacent, precedes, cell_index, grid_cells, cells_before, is_scan_pos,
    center_dist_sq, center_distance_sq, beyond_far_radius, lemma_grid_cells, lemma_cell_index,
    lemma_cells_before, lemma_row_end,
};
use crate::connectivity::{
    has_kind, connected, component, is_closed, lemma_connected_refl, lemma_connected_kind,
    lemma_connected_step, lemma_connected_sym, lemma_connected_trans, lemma_closed_holds_component,
    lemma_component_finite,
};

verus! {

/// The category of one cell of the world grid.
#[derive(Clone, Copy, PartialEq, Eq, Structural, Debug)]
pub enum Terrain {
    Water,
    Land,
    /// Land beyond the zone in which settlements are ever placed.
    FarLand,
}

/// The category of a cell of height `e` at `c`, on a grid of side `n`: water
/// below the water level; else far land where the cell lies more than eleven
/// tenths of the city radius from the centre; else land. The distance is in
/// cells and the radius in tenths of a cell, so the squares are compared
/// after scaling.
pub open spec fn terrain_of(e: u32, c: Cell, n: int, config: WorldConfig) -> Terrain {
    if e < config.water_level {
        Terrain::Water
    } else if 10_000 * center_dist_sq(c, n) > 121 * (config.city_radius_tenths * config.city_radius_tenths) {
        Terrain::FarLand
    } else {
        Terrain::Land
    }
}

/// `t` classifies every cell of the height grid `e`.
pub open spec fn is_classification(e: Seq<Seq<u32>>, config: WorldConfig, t: Seq<Seq<Terrain>>) -> bool {
    &&& is_square(t, e.len() as int)
    &&& forall|c: Cell|
        in_grid(c, e.len() as int) ==> #[trigger] at(t, c) == terrain_of(at(e, c), c, e.len() as int, config)
}

/// Classifies every cell of a height grid.
pub fn classify_terrain(elevation: &Vec<Vec<u32>>, config: &WorldConfig) -> (terrain: Vec<Vec<Terrain>>)
    requires
        is_world_grid(grid_view(elevation)),
    ensures
        is_classification(grid_view(elevation), *config, grid_view(&terrain)),
{
    let n = elevation.len();
    let mut terrain = new_grid(n, Terrain::Land);
    let mut y: usize = 0;
    while y < n
        invariant
            y <= n,
            n == elevation.len(),
            is_world_grid(grid_view(elevation)),
            is_square(grid_view(&terrain), n as int),
            forall|c: Cell|
                in_grid(c, n as int) && c.1 < y ==> #[trigger] at(grid_view(&terrain), c) == terrain_of(
                    at(grid_view(elevation), c),
                    c,
                    n as int,
                    *config,
                ),
        decreases n - y,
    {
        let mut x: usize = 0;
        while x < n
            invariant
                x <= n,
                y < n,
                n == elevation.len(),
                is_world_grid(grid_view(elevation)),
                is_square(grid_view(&terrain), n as int),
                forall|c: Cell|
                    in_grid(c, n as int) && precedes(c, (x as int, y as int)) ==> #[trigger] at(
                        grid_view(&terrain),
                        c,
                    ) == terrain_of(at(grid_view(elevation), c), c, n as int, *config),
            decreases n - x,
        {
            let e = cell_at(elevation, x, y);
            let dist_sq = center_distance_sq(x, y, n);
            let kind = if e < config.water_level {
                Terrain::Water
            } else if beyond_far_radius(dist_sq, config.city_radius_tenths) {
                Terrain::FarLand
            } else {
                Terrain::Land
            };
            let ghost before = grid_view(&terrain);
            set_cell(&mut terrain, x, y, kind);
            proof {
                assert forall|c: Cell|
                    in_grid(c, n as int) && precedes(c, (x + 1, y as int)) implies #[trigger] at(
                    grid_view(&terrain),
                    c,
                ) == terrain_of(at(grid_view(elevation), c), c, n as int, *config) by {
                    if c != (x as int, y as int) {
                        assert(at(grid_view(&terrain), c) == at(before, c));
                    }
                }
            }
            x += 1;
        }
        y += 1;
    }
    terrain
}

/// The 4-neighbours of `(x, y)` on a grid of side `size`, in the order
/// left, right, up, down. A neighbour is left out where the grid ends.
pub open spec fn neighbors_4_spec(x: int, y: int, size: int) -> Seq<Cell> {
    (if x > 0 { seq![(x - 1, y)] } else { seq![] })
    + (if x + 1 < size { seq![(x + 1, y)] } else { seq![] })
    + (if y > 0 { seq![(x, y - 1)] } else { seq![] })
    + (if y + 1 < size { seq![(x, y + 1)] } else { seq![] })
}

/// Each listed neighbour shares an edge with `(x, y)`, and every cell of the
/// grid that shares an edge with `(x, y)` is listed.
pub proof fn lemma_neighbors_4(x: int, y: int, size: int)
    ensures
        forall|i: int| 0 <= i < neighbors_4_spec(x, y, size).len()
            ==> adjacent((x, y), #[trigger] neighbors_4_spec(x, y, size)[i]),
        forall|d: Cell| in_grid(d, size) && #[trigger] adjacent((x, y), d)
            ==> neighbors_4_spec(x, y, size).contains(d),
{
    let s = neighbors_4_spec(x, y, size);
    let a = if x > 0 { seq![(x - 1, y)] } else { seq![] };
    let b = if x + 1 < size { seq![(x + 1, y)] } else { seq![] };
    let c = if y > 0 { seq![(x, y - 1)] } else { seq![] };
    let e = if y + 1 < size { seq![(x, y + 1)] } else { seq![] };
    assert(s == a + b + c + e);
    assert forall|d: Cell| in_grid(d, size) && #[trigger] adjacent((x, y), d) implies s.contains(d) by {
        if d == (x - 1, y) {
            assert(s[0] == d);
        } else if d == (x + 1, y) {
            assert(s[a.len() as int] == d);
        } else if d == (x, y - 1) {
            assert(s[(a.len() + b.len()) as int] == d);
        } else {
            assert(d == (x, y + 1));
            assert(s[(a.len() + b.len() + c.len()) as int] == d);
        }
    }
}

/// Lists the 4-neighbours of `(x, y)` on a grid of side `size`.
pub fn neighbors_4(x: usize, y: usize, size: usize) -> (n: Vec<(usize, usize)>)
    ensures
        cells_of(n@) == neighbors_4_spec(x as int, y as int, size as int),
{
    let mut n: Vec<(usize, usize)> = Vec::new();
    if x > 0 {
        n.push((x - 1, y));
    }
    if size > 0 && x < size - 1 {
        n.push((x + 1, y));
    }
    if y > 0 {
        n.push((x, y - 1));
    }
    if size > 0 && y < size - 1 {
        n.push((x, y + 1));
    }
    assert(cells_of(n@) =~= neighbors_4_spec(x as int, y as int, size as int));
    n
}

/// The cell `c` is water, and the body of water it belongs to has at least
/// `min_size` cells.
pub open spec fn is_large_water(t: Seq<Seq<Terrain>>, c: Cell, min_size: int) -> bool {
    has_kind(t, c, Terrain::Water) && component(t, Terrain::Water, c).len() >= min_size
}

/// Some entry of the queue is the cell `d`.
pub open spec fn queued(queue: Seq<Slot>, d: Cell) -> bool {
    exists|i: int| 0 <= i < queue.len() && #[trigger] cell_of(queue[i]) == d
}

/// What is queued stands at the head of the queue or behind it.
proof fn lemma_queued_pop(queue: Seq<Slot>, d: Cell)
    requires
        queued(queue, d),
    ensures
        cell_of(queue[0]) == d || queued(queue.subrange(1, queue.len() as int), d),
{
    let i = choose|i: int| 0 <= i < queue.len() && #[trigger] cell_of(queue[i]) == d;
    if i > 0 {
        let rest = queue.subrange(1, queue.len() as int);
        assert(cell_of(rest[i - 1]) == d);
    }
}

/// What is queued stays queued when an entry is added, and the entry is queued.
proof fn lemma_queued_push(queue: Seq<Slot>, e: Slot, d: Cell)
    ensures
        queued(queue, d) ==> queued(queue.push(e), d),
        queued(queue.push(e), cell_of(e)),
{
    let longer = queue.push(e);
    if queued(queue, d) {
        let i = choose|i: int| 0 <= i < queue.len() && #[trigger] cell_of(queue[i]) == d;
        assert(cell_of(longer[i]) == d);
    }
    assert(cell_of(longer[queue.len() as int]) == cell_of(e));
}

/// Tells whether the water around `(x, y)` spreads over at least `min_size`
/// cells. The search stops as soon as it has counted that many, so its cost
/// is bounded by `min_size` and not by the extent of the water.
#[verifier::loop_isolation(false)]
pub fn is_large_water_region(terrain: &Vec<Vec<Terrain>>, x: usize, y: usize, min_size: usize) -> (large: bool)
    requires
        is_world_grid(grid_view(terrain)),
        x < terrain.len(),
        y < terrain.len(),
    ensures
        large == is_large_water(grid_view(terrain), (x as int, y as int), min_size as int),
{
    let n = terrain.len();
    if cell_at(terrain, x, y) != Terrain::Water {
        return false;
    }
    let ghost t = grid_view(terrain);
    let ghost start: Cell = (x as int, y as int);
    let ghost water = Terrain::Water;
    let mut visited: HashSet<usize> = HashSet::new();
    let mut queue: VecDeque<(usize, usize)> = VecDeque::new();
    queue.push_back((x, y));
    let ghost mut seen: Set<Cell> = Set::empty();
    proof {
        lemma_connected_refl(t, water, start);
        lemma_component_finite(t, water, start);
        lemma_grid_cells(n as int);
        assert(cell_of(queue@[0]) == start);
    }
    loop
        invariant
            visited@.finite(),
            seen.finite(),
            seen.len() == visited@.len(),
            seen.subset_of(component(t, water, start)),
            forall|q: Cell| in_grid(q, n as int)
                ==> (visited@.contains(cell_index(q, n as int) as usize) <==> #[trigger] seen.contains(q)),
            forall|i: int| 0 <= i < queue@.len() ==> connected(t, water, start, #[trigger] cell_of(queue@[i])),
            forall|c: Cell, d: Cell| seen.contains(c) && #[trigger] adjacent(c, d) && has_kind(t, d, water)
                ==> seen.contains(d) || queued(queue@, d),
            seen.contains(start) || queued(queue@, start),
        decreases n * n - visited@.len(), queue@.len(),
    {
        let ghost queue_before = queue@;
        let (cx, cy) = match queue.pop_front() {
            Some(c) => c,
            None => {
                proof {
                    assert(is_closed(t, water, seen));
                    lemma_closed_holds_component(t, water, start, seen);
                    assert(seen =~= component(t, water, start));
                }
                break;
            },
        };
        let ghost c: Cell = (cx as int, cy as int);
        proof {
            assert(cell_of(queue_before[0]) == c);
            lemma_connected_kind(t, water, start, c);
            lemma_cell_index(c, c, n as int);
            vstd::set_lib::lemma_len_subset(seen, component(t, water, start));
            assert forall|d: Cell| queued(queue_before, d) implies d == c || queued(queue@, d) by {
                lemma_queued_pop(queue_before, d);
            }
        }
        if visited.len() >= min_size {
            break;
        }
        let fresh = visited.insert(cy * n + cx);
        if !fresh {
            continue;
        }
        proof {
            assert forall|q: Cell| in_grid(q, n as int) implies (visited@.contains(
                cell_index(q, n as int) as usize,
            ) <==> #[trigger] seen.insert(c).contains(q)) by {
                lemma_cell_index(q, c, n as int);
            }
            seen = seen.insert(c);
            vstd::set_lib::lemma_len_subset(seen, component(t, water, start));
        }
        let nb = neighbors_4(cx, cy, n);
        let ghost queue_popped = queue@;
        proof {
            lemma_neighbors_4(cx as int, cy as int, n as int);
        }
        let mut i: usize = 0;
        while i < nb.len()
            invariant
                0 <= i <= nb.len(),
                forall|d: Cell| queued(queue_popped, d) ==> queued(queue@, d),
                forall|j: int|
                    0 <= j < queue@.len() ==> connected(t, water, start, #[trigger] cell_of(queue@[j])),
                forall|j: int| 0 <= j < i && has_kind(t, #[trigger] cell_of(nb@[j]), water)
                    ==> seen.contains(cell_of(nb@[j])) || queued(queue@, cell_of(nb@[j])),
                queue@.len() >= queue_popped.len(),
            decreases nb.len() - i,
        {
            let (nx, ny) = nb[i];
            let ghost d: Cell = (nx as int, ny as int);
            let ghost queue_inner = queue@;
            proof {
                assert(cells_of(nb@)[i as int] == d);
                assert(adjacent(c, d));
            }
            if nx < n && ny < n {
                proof {
                    lemma_cell_index(d, d, n as int);
                }
                if cell_at(terrain, nx, ny) == Terrain::Water && !visited.contains(&(ny * n + nx)) {
                    queue.push_back((nx, ny));
                    proof {
                        lemma_connected_step(t, water, start, c, d);
                        assert forall|e: Cell| queued(queue_inner, e) implies queued(queue@, e) by {
                            lemma_queued_push(queue_inner, (nx, ny), e);
                        }
                        lemma_queued_push(queue_inner, (nx, ny), d);
                    }
                }
            }
            i += 1;
        }
        proof {
            assert forall|a: Cell, d: Cell|
                seen.contains(a) && #[trigger] adjacent(a, d) && has_kind(t, d, water) implies seen.contains(d)
                    || queued(queue@, d) by {
                if a == c {
                    let j = choose|j: int| 0 <= j < neighbors_4_spec(cx as int, cy as int, n as int).len()
                        && neighbors_4_spec(cx as int, cy as int, n as int)[j] == d;
                    assert(cells_of(nb@)[j] == d);
                    assert(cell_of(nb@[j]) == d);
                }
            }
        }
    }
    proof {
        vstd::set_lib::lemma_len_subset(seen, component(t, water, start));
    }
    visited.len() >= min_size
}


/// The cell `r` is land that no cell of its own island precedes: the cell at
/// which a row-by-row scan first meets the island.
pub open spec fn is_island_first(t: Seq<Seq<Terrain>>, r: Cell) -> bool {
    &&& has_kind(t, r, Terrain::Land)
    &&& forall|p: Cell| #[trigger] connected(t, Terrain::Land, r, p) ==> !precedes(p, r)
}

/// The first cell of the island that holds the land cell `q`.
pub open spec fn island_first(t: Seq<Seq<Terrain>>, q: Cell) -> Cell {
    choose|r: Cell| is_island_first(t, r) && connected(t, Terrain::Land, q, r)
}

/// The first cells of the islands that a row-by-row scan meets before `pos`.
pub open spec fn islands_before(t: Seq<Seq<Terrain>>, pos: Cell) -> Set<Cell> {
    Set::new(|r: Cell| is_island_first(t, r) && precedes(r, pos))
}

/// The id of the island that holds `q`: islands are numbered from 1 in the
/// order in which a row-by-row scan first meets them. A cell that is not land
/// has id 0.
pub open spec fn region_id(t: Seq<Seq<Terrain>>, q: Cell) -> nat {
    if has_kind(t, q, Terrain::Land) {
        islands_before(t, island_first(t, q)).len() + 1
    } else {
        0
    }
}

/// `m` gives every cell of `t` its island id.
pub open spec fn is_region_map(t: Seq<Seq<Terrain>>, m: Seq<Seq<usize>>) -> bool {
    &&& is_square(m, t.len() as int)
    &&& forall|c: Cell| in_grid(c, t.len() as int) ==> m[c.1][c.0] == #[trigger] region_id(t, c)
}

/// Every island has a first cell.
pub proof fn lemma_island_first_exists(t: Seq<Seq<Terrain>>, q: Cell)
    requires
        has_kind(t, q, Terrain::Land),
    ensures
        is_island_first(t, island_first(t, q)),
        connected(t, Terrain::Land, q, island_first(t, q)),
    decreases q.1, q.0,
{
    let land = Terrain::Land;
    if is_island_first(t, q) {
        lemma_connected_refl(t, land, q);
    } else {
        let p = choose|p: Cell| connected(t, land, q, p) && precedes(p, q);
        lemma_connected_kind(t, land, q, p);
        lemma_island_first_exists(t, p);
        lemma_connected_trans(t, land, q, p, island_first(t, p));
    }
}

/// An island has one first cell only.
pub proof fn lemma_island_first_unique(t: Seq<Seq<Terrain>>, q: Cell, r: Cell)
    requires
        is_island_first(t, r),
        connected(t, Terrain::Land, q, r),
    ensures
        island_first(t, q) == r,
{
    let land = Terrain::Land;
    let f = island_first(t, q);
    lemma_connected_sym(t, land, q, r);
    lemma_connected_trans(t, land, r, q, f);
    lemma_connected_sym(t, land, r, f);
}

/// The islands met before `pos` are among the cells met before `pos`.
pub proof fn lemma_islands_before(t: Seq<Seq<Terrain>>, pos: Cell)
    requires
        is_scan_pos(pos, t.len() as int),
    ensures
        islands_before(t, pos).finite(),
        islands_before(t, pos).len() <= pos.1 * t.len() + pos.0,
{
    let n = t.len() as int;
    lemma_cells_before(pos, n);
    assert(islands_before(t, pos).subset_of(cells_before(pos, n)));
    vstd::set_lib::lemma_len_subset(islands_before(t, pos), cells_before(pos, n));
}

/// A cell has island id 0 exactly when it is not land.
pub proof fn lemma_region_zero_iff_not_land(t: Seq<Seq<Terrain>>, m: Seq<Seq<usize>>, c: Cell)
    requires
        is_region_map(t, m),
        in_grid(c, t.len() as int),
    ensures
        m[c.1][c.0] == 0 <==> t[c.1][c.0] != Terrain::Land,
{
    assert(m[c.1][c.0] == region_id(t, c));
}

/// Land cells that a walk over land joins carry the same island id.
pub proof fn lemma_connected_same_region(t: Seq<Seq<Terrain>>, m: Seq<Seq<usize>>, p: Cell, q: Cell)
    requires
        is_region_map(t, m),
        connected(t, Terrain::Land, p, q),
    ensures
        m[p.1][p.0] == m[q.1][q.0],
        m[p.1][p.0] > 0,
{
    let land = Terrain::Land;
    lemma_connected_kind(t, land, p, q);
    lemma_island_first_exists(t, q);
    lemma_connected_trans(t, land, p, q, island_first(t, q));
    lemma_island_first_unique(t, p, island_first(t, q));
    assert(m[p.1][p.0] == region_id(t, p));
    assert(m[q.1][q.0] == region_id(t, q));
}

/// Land cells with the same island id are joined by a walk over land: an id
/// belongs to one island only.
pub proof fn lemma_same_region_connected(t: Seq<Seq<Terrain>>, m: Seq<Seq<usize>>, p: Cell, q: Cell)
    requires
        is_region_map(t, m),
        has_kind(t, p, Terrain::Land),
        has_kind(t, q, Terrain::Land),
        m[p.1][p.0] == m[q.1][q.0],
    ensures
        connected(t, Terrain::Land, p, q),
{
    let land = Terrain::Land;
    let fp = island_first(t, p);
    let fq = island_first(t, q);
    lemma_island_first_exists(t, p);
    lemma_island_first_exists(t, q);
    assert(m[p.1][p.0] == region_id(t, p));
    assert(m[q.1][q.0] == region_id(t, q));
    lemma_islands_before(t, fp);
    lemma_islands_before(t, fq);
    if precedes(fp, fq) {
        assert(islands_before(t, fp).insert(fp).subset_of(islands_before(t, fq)));
        vstd::set_lib::lemma_len_subset(islands_before(t, fp).insert(fp), islands_before(t, fq));
        assert(false);
    }
    if precedes(fq, fp) {
        assert(islands_before(t, fq).insert(fq).subset_of(islands_before(t, fp)));
        vstd::set_lib::lemma_len_subset(islands_before(t, fq).insert(fq), islands_before(t, fp));
        assert(false);
    }
    assert(fp == fq);
    lemma_connected_sym(t, land, q, fq);
    lemma_connected_trans(t, land, p, fp, q);
}


/// The cells of a label grid that carry no label yet.
pub open spec fn zero_cells(m: Seq<Seq<usize>>, n: int) -> Set<Cell> {
    Set::new(|q: Cell| in_grid(q, n) && at(m, q) == 0)
}

/// The unlabelled cells of a grid are finitely many.
proof fn lemma_zero_cells(m: Seq<Seq<usize>>, n: int)
    requires
        n >= 0,
    ensures
        zero_cells(m, n).finite(),
{
    lemma_grid_cells(n);
    assert(zero_cells(m, n).subset_of(grid_cells(n)));
    vstd::set_lib::lemma_len_subset(zero_cells(m, n), grid_cells(n));
}

/// Writes `label` to every cell of the island that holds the start cell.
/// The island must be unlabelled; the walk is breadth-first over an explicit
/// queue, so it needs no stack in proportion to the island.
#[verifier::loop_isolation(false)]
pub fn flood_fill_label(
    terrain: &Vec<Vec<Terrain>>,
    labels: &mut Vec<Vec<usize>>,
    start_x: usize,
    start_y: usize,
    label: usize,
)
    requires
        is_square(grid_view(terrain), terrain.len() as int),
        is_square(grid_view(old(labels)), terrain.len() as int),
        has_kind(grid_view(terrain), (start_x as int, start_y as int), Terrain::Land),
        label != 0,
        forall|q: Cell| #[trigger]
            connected(grid_view(terrain), Terrain::Land, (start_x as int, start_y as int), q) ==> at(
                grid_view(old(labels)),
                q,
            ) == 0,
    ensures
        is_square(grid_view(final(labels)), terrain.len() as int),
        forall|q: Cell|
            in_grid(q, terrain.len() as int) ==> #[trigger] at(grid_view(final(labels)), q) == (if connected(
                grid_view(terrain),
                Terrain::Land,
                (start_x as int, start_y as int),
                q,
            ) {
                label
            } else {
                at(grid_view(old(labels)), q)
            }),
{
    let n = terrain.len();
    let ghost t = grid_view(terrain);
    let ghost land = Terrain::Land;
    let ghost start: Cell = (start_x as int, start_y as int);
    let ghost lab0 = grid_view(labels);
    let mut queue: VecDeque<(usize, usize)> = VecDeque::new();
    queue.push_back((start_x, start_y));
    set_cell(labels, start_x, start_y, label);
    proof {
        lemma_connected_refl(t, land, start);
        assert(cell_of(queue@[0]) == start);
        assert(queued(queue@, start));
        assert forall|q: Cell| #[trigger]
            connected(t, land, start, q) && at(grid_view(labels), q) == label implies q == start by {
            lemma_connected_kind(t, land, start, q);
            if q != start {
                assert(at(grid_view(labels), q) == at(lab0, q));
            }
        }
    }
    loop
        invariant
            is_square(grid_view(labels), n as int),
            forall|q: Cell|
                in_grid(q, n as int) && !connected(t, land, start, q) ==> #[trigger] at(grid_view(labels), q)
                    == at(lab0, q),
            forall|q: Cell| #[trigger]
                connected(t, land, start, q) ==> at(grid_view(labels), q) == 0 || at(grid_view(labels), q)
                    == label,
            forall|i: int|
                0 <= i < queue@.len() ==> connected(t, land, start, #[trigger] cell_of(queue@[i])) && at(
                    grid_view(labels),
                    cell_of(queue@[i]),
                ) == label,
            forall|c: Cell, d: Cell|
                connected(t, land, start, c) && at(grid_view(labels), c) == label && #[trigger] adjacent(c, d)
                    && has_kind(t, d, land) ==> at(grid_view(labels), d) == label || queued(queue@, c),
            at(grid_view(labels), start) == label,
        decreases zero_cells(grid_view(labels), n as int).len(), queue@.len(),
    {
        let ghost queue_before = queue@;
        let ghost lab_before = grid_view(labels);
        let (x, y) = match queue.pop_front() {
            Some(c) => c,
            None => {
                proof {
                    let done = Set::new(
                        |q: Cell| connected(t, land, start, q) && at(grid_view(labels), q) == label,
                    );
                    assert forall|c: Cell, d: Cell|
                        done.contains(c) && #[trigger] adjacent(c, d) && has_kind(t, d, land) implies done.contains(
                        d,
                    ) by {
                        lemma_connected_step(t, land, start, c, d);
                        assert(!queued(queue@, c));
                    }
                    assert(is_closed(t, land, done));
                    lemma_closed_holds_component(t, land, start, done);
                    assert forall|q: Cell| connected(t, land, start, q) implies at(grid_view(labels), q)
                        == label by {
                        assert(component(t, land, start).contains(q));
                    }
                }
                break;
            },
        };
        let ghost c: Cell = (x as int, y as int);
        let ghost queue_popped = queue@;
        proof {
            assert(cell_of(queue_before[0]) == c);
            lemma_connected_kind(t, land, start, c);
            lemma_neighbors_4(x as int, y as int, n as int);
            lemma_zero_cells(lab_before, n as int);
            assert forall|e: Cell| queued(queue_before, e) implies e == c || queued(queue_popped, e) by {
                lemma_queued_pop(queue_before, e);
            }
        }
        let nb = neighbors_4(x, y, n);
        let mut i: usize = 0;
        while i < nb.len()
            invariant
                0 <= i <= nb.len(),
                is_square(grid_view(labels), n as int),
                forall|q: Cell|
                    in_grid(q, n as int) && !connected(t, land, start, q) ==> #[trigger] at(
                        grid_view(labels),
                        q,
                    ) == at(lab0, q),
                forall|q: Cell| #[trigger]
                    connected(t, land, start, q) ==> at(grid_view(labels), q) == 0 || at(
                        grid_view(labels),
                        q,
                    ) == label,
                forall|j: int|
                    0 <= j < queue@.len() ==> connected(t, land, start, #[trigger] cell_of(queue@[j])) && at(
                        grid_view(labels),
                        cell_of(queue@[j]),
                    ) == label,
                forall|q: Cell|
                    in_grid(q, n as int) && at(lab_before, q) == label ==> #[trigger] at(grid_view(labels), q)
                        == label,
                forall|e: Cell| queued(queue_popped, e) ==> queued(queue@, e),
                forall|j: int|
                    0 <= j < i && has_kind(t, #[trigger] cell_of(nb@[j]), land) ==> at(
                        grid_view(labels),
                        cell_of(nb@[j]),
                    ) == label,
                forall|q: Cell|
                    in_grid(q, n as int) && #[trigger] at(grid_view(labels), q) == label && at(lab_before, q)
                        != label ==> queued(queue@, q),
                zero_cells(grid_view(labels), n as int).len() < zero_cells(lab_before, n as int).len() || (
                grid_view(labels) == lab_before && queue@ == queue_popped),
            decreases nb.len() - i,
        {
            let (nx, ny) = nb[i];
            let ghost d: Cell = (nx as int, ny as int);
            let ghost queue_inner = queue@;
            let ghost lab_inner = grid_view(labels);
            proof {
                assert(cells_of(nb@)[i as int] == d);
                assert(adjacent(c, d));
            }
            if nx < n && ny < n {
                proof {
                    if has_kind(t, d, land) {
                        lemma_connected_step(t, land, start, c, d);
                    }
                }
                if cell_at(terrain, nx, ny) == Terrain::Land && cell_at(labels, nx, ny) == 0 {
                    set_cell(labels, nx, ny, label);
                    queue.push_back((nx, ny));
                    proof {
                        lemma_connected_step(t, land, start, c, d);
                        assert forall|e: Cell| queued(queue_inner, e) implies queued(queue@, e) by {
                            lemma_queued_push(queue_inner, (nx, ny), e);
                        }
                        lemma_queued_push(queue_inner, (nx, ny), d);
                        lemma_zero_cells(lab_inner, n as int);
                        assert(zero_cells(grid_view(labels), n as int) =~= zero_cells(lab_inner, n as int).remove(
                            d,
                        ));
                        assert(forall|q: Cell|
                            in_grid(q, n as int) ==> #[trigger] at(grid_view(labels), q) == (if q == d {
                                label
                            } else {
                                at(lab_inner, q)
                            }));
                        assert forall|j: int| 0 <= j < queue@.len() implies connected(
                            t,
                            land,
                            start,
                            #[trigger] cell_of(queue@[j]),
                        ) && at(grid_view(labels), cell_of(queue@[j])) == label by {
                            if j < queue_inner.len() {
                                assert(queue@[j] == queue_inner[j]);
                                lemma_connected_kind(t, land, start, cell_of(queue_inner[j]));
                            }
                        }
                    }
                }
            }
            i += 1;
        }
        proof {
            assert forall|a: Cell, d: Cell|
                connected(t, land, start, a) && at(grid_view(labels), a) == label && #[trigger] adjacent(a, d)
                    && has_kind(t, d, land) implies at(grid_view(labels), d) == label || queued(queue@, a) by {
                lemma_connected_kind(t, land, start, a);
                if a == c {
                    let j = choose|j: int|
                        0 <= j < neighbors_4_spec(x as int, y as int, n as int).len() && neighbors_4_spec(
                            x as int,
                            y as int,
                            n as int,
                        )[j] == d;
                    assert(cells_of(nb@)[j] == d);
                    assert(cell_of(nb@[j]) == d);
                } else if at(lab_before, a) == label && at(lab_before, d) != label {
                    assert(queued(queue_before, a));
                }
            }
        }
    }
}

/// Some cell before `pos` belongs to the island of `q`.
pub open spec fn reached(t: Seq<Seq<Terrain>>, pos: Cell, q: Cell) -> bool {
    exists|p: Cell| precedes(p, pos) && #[trigger] connected(t, Terrain::Land, p, q)
}

/// What holds of the labels when the scan stands at `pos` with `found`
/// islands met: the islands met so far are labelled in full with their ids,
/// and nothing else is labelled.
pub open spec fn scan_state(t: Seq<Seq<Terrain>>, m: Seq<Seq<usize>>, pos: Cell, found: int) -> bool {
    &&& is_square(m, t.len() as int)
    &&& found == islands_before(t, pos).len()
    &&& forall|q: Cell| in_grid(q, t.len() as int) && #[trigger] at(m, q) != 0 ==> at(m, q) == region_id(t, q)
    &&& forall|q: Cell| #[trigger] has_kind(t, q, Terrain::Land) ==> (at(m, q) != 0 <==> reached(t, pos, q))
}

/// An unlabelled land cell under the scan is the first cell of a new island,
/// and the whole island is unlabelled.
proof fn lemma_scan_meets_island(t: Seq<Seq<Terrain>>, m: Seq<Seq<usize>>, c: Cell, found: int)
    requires
        scan_state(t, m, c, found),
        t.len() * t.len() <= usize::MAX,
        has_kind(t, c, Terrain::Land),
        at(m, c) == 0,
    ensures
        is_island_first(t, c),
        found + 1 <= usize::MAX,
        forall|q: Cell| #[trigger] connected(t, Terrain::Land, c, q) ==> at(m, q) == 0,
{
    let land = Terrain::Land;
    let n = t.len() as int;
    assert forall|p: Cell| #[trigger] connected(t, land, c, p) implies !precedes(p, c) by {
        if precedes(p, c) {
            lemma_connected_sym(t, land, c, p);
            assert(reached(t, c, c));
        }
    }
    assert forall|q: Cell| #[trigger] connected(t, land, c, q) implies at(m, q) == 0 by {
        lemma_connected_kind(t, land, c, q);
        if at(m, q) != 0 {
            assert(reached(t, c, q));
            let p = choose|p: Cell| precedes(p, c) && #[trigger] connected(t, land, p, q);
            lemma_connected_sym(t, land, c, q);
            lemma_connected_trans(t, land, p, q, c);
            assert(reached(t, c, c));
        }
    }
    lemma_islands_before(t, c);
    assert(c.1 * n + c.0 < n * n) by (nonlinear_arith)
        requires
            0 <= c.0 < n,
            0 <= c.1 < n,
    ;
}

/// The scan state after the island first met at `c` has been labelled.
proof fn lemma_scan_labels_island(
    t: Seq<Seq<Terrain>>,
    m: Seq<Seq<usize>>,
    m2: Seq<Seq<usize>>,
    c: Cell,
    found: int,
)
    requires
        scan_state(t, m, c, found),
        is_island_first(t, c),
        is_square(m2, t.len() as int),
        forall|q: Cell|
            in_grid(q, t.len() as int) ==> #[trigger] at(m2, q) == (if connected(t, Terrain::Land, c, q) {
                found + 1
            } else {
                at(m, q) as int
            }),
    ensures
        scan_state(t, m2, (c.0 + 1, c.1), found + 1),
{
    let land = Terrain::Land;
    let n = t.len() as int;
    let next = (c.0 + 1, c.1);
    lemma_islands_before(t, c);
    assert(islands_before(t, next) =~= islands_before(t, c).insert(c));
    assert forall|q: Cell| in_grid(q, n) && #[trigger] at(m2, q) != 0 implies at(m2, q) == region_id(t, q) by {
        if connected(t, land, c, q) {
            lemma_connected_kind(t, land, c, q);
            lemma_connected_sym(t, land, c, q);
            lemma_island_first_unique(t, q, c);
        } else {
            assert(at(m, q) != 0);
        }
    }
    assert forall|q: Cell| #[trigger] has_kind(t, q, land) implies (at(m2, q) != 0 <==> reached(
        t,
        next,
        q,
    )) by {
        if at(m2, q) != 0 {
            if connected(t, land, c, q) {
                assert(precedes(c, next));
            } else {
                assert(at(m, q) != 0);
                assert(reached(t, c, q));
                let p = choose|p: Cell| precedes(p, c) && #[trigger] connected(t, land, p, q);
                assert(precedes(p, next));
            }
        }
        if reached(t, next, q) {
            let p = choose|p: Cell| precedes(p, next) && #[trigger] connected(t, land, p, q);
            if precedes(p, c) {
                assert(reached(t, c, q));
                assert(at(m, q) != 0);
            } else {
                assert(p == c);
            }
        }
    }
}

/// The scan state after a cell that starts no island.
proof fn lemma_scan_passes(t: Seq<Seq<Terrain>>, m: Seq<Seq<usize>>, c: Cell, found: int)
    requires
        scan_state(t, m, c, found),
        in_grid(c, t.len() as int),
        !has_kind(t, c, Terrain::Land) || at(m, c) != 0,
    ensures
        scan_state(t, m, (c.0 + 1, c.1), found),
{
    let land = Terrain::Land;
    let next = (c.0 + 1, c.1);
    if has_kind(t, c, land) {
        assert(reached(t, c, c));
        let earlier = choose|p: Cell| precedes(p, c) && #[trigger] connected(t, land, p, c);
        lemma_connected_sym(t, land, earlier, c);
        assert(!is_island_first(t, c));
        assert forall|q: Cell| #[trigger] connected(t, land, c, q) implies reached(t, c, q) by {
            lemma_connected_trans(t, land, earlier, c, q);
        }
    } else {
        assert forall|q: Cell| !#[trigger] connected(t, land, c, q) by {
            if connected(t, land, c, q) {
                lemma_connected_kind(t, land, c, q);
            }
        }
    }
    assert(islands_before(t, next) =~= islands_before(t, c));
    assert forall|q: Cell| #[trigger] has_kind(t, q, land) implies (at(m, q) != 0 <==> reached(t, next, q)) by {
        if reached(t, c, q) {
            let p = choose|p: Cell| precedes(p, c) && #[trigger] connected(t, land, p, q);
            assert(precedes(p, next));
        }
        if reached(t, next, q) {
            let p = choose|p: Cell| precedes(p, next) && #[trigger] connected(t, land, p, q);
            if !precedes(p, c) {
                assert(p == c);
            }
        }
    }
}

/// The scan state at the end of a row is the state at the start of the next.
proof fn lemma_scan_next_row(t: Seq<Seq<Terrain>>, m: Seq<Seq<usize>>, y: int, found: int)
    requires
        0 <= y < t.len(),
        scan_state(t, m, (t.len() as int, y), found),
    ensures
        scan_state(t, m, (0, y + 1), found),
{
    let land = Terrain::Land;
    let n = t.len() as int;
    lemma_row_end(y, n);
    assert(islands_before(t, (0, y + 1)) =~= islands_before(t, (n, y)));
    assert forall|q: Cell| #[trigger] has_kind(t, q, land) implies (reached(t, (n, y), q) <==> reached(
        t,
        (0, y + 1),
        q,
    )) by {
        if reached(t, (n, y), q) {
            let p = choose|p: Cell| precedes(p, (n, y)) && #[trigger] connected(t, land, p, q);
            lemma_connected_kind(t, land, p, q);
            assert(precedes(p, (0, y + 1)));
        }
        if reached(t, (0, y + 1), q) {
            let p = choose|p: Cell| precedes(p, (0, y + 1)) && #[trigger] connected(t, land, p, q);
            lemma_connected_kind(t, land, p, q);
            assert(precedes(p, (n, y)));
        }
    }
}

/// Once the scan has passed the last row, the labels are the island ids.
proof fn lemma_scan_done(t: Seq<Seq<Terrain>>, m: Seq<Seq<usize>>, found: int)
    requires
        scan_state(t, m, (0, t.len() as int), found),
    ensures
        is_region_map(t, m),
{
    let land = Terrain::Land;
    let n = t.len() as int;
    assert forall|c: Cell| in_grid(c, n) implies m[c.1][c.0] == #[trigger] region_id(t, c) by {
        if has_kind(t, c, land) {
            lemma_connected_refl(t, land, c);
            assert(precedes(c, (0, n)));
            assert(reached(t, (0, n), c));
            assert(at(m, c) != 0);
        } else {
            if at(m, c) != 0 {
                assert(at(m, c) == region_id(t, c));
            }
        }
    }
}

/// Gives every island its id. Islands are the maximal groups of land cells
/// joined edge to edge; they are numbered from 1 in the order in which a
/// row-by-row scan meets them, and every other cell gets 0.
pub fn label_regions(terrain: &Vec<Vec<Terrain>>) -> (labels: Vec<Vec<usize>>)
    requires
        is_world_grid(grid_view(terrain)),
    ensures
        is_region_map(grid_view(terrain), grid_view(&labels)),
{
    let n = terrain.len();
    let ghost t = grid_view(terrain);
    let mut labels = new_grid(n, 0usize);
    let mut found: usize = 0;
    proof {
        assert(islands_before(t, (0, 0)) =~= Set::<Cell>::empty());
        assert forall|q: Cell| #[trigger] has_kind(t, q, Terrain::Land) implies !reached(t, (0, 0), q) by {
            if reached(t, (0, 0), q) {
                let p = choose|p: Cell| precedes(p, (0, 0)) && #[trigger] connected(t, Terrain::Land, p, q);
                lemma_connected_kind(t, Terrain::Land, p, q);
            }
        }
        assert forall|q: Cell| in_grid(q, n as int) implies #[trigger] at(grid_view(&labels), q) == 0 by {
            assert(grid_view(&labels)[q.1][q.0] == 0);
        }
    }
    let mut y: usize = 0;
    while y < n
        invariant
            y <= n,
            n == terrain.len(),
            t == grid_view(terrain),
            is_world_grid(t),
            scan_state(t, grid_view(&labels), (0, y as int), found as int),
        decreases n - y,
    {
        let mut x: usize = 0;
        while x < n
            invariant
                x <= n,
                y < n,
                n == terrain.len(),
                t == grid_view(terrain),
                is_world_grid(t),
                scan_state(t, grid_view(&labels), (x as int, y as int), found as int),
            decreases n - x,
        {
            let ghost c: Cell = (x as int, y as int);
            let ghost before = grid_view(&labels);
            if cell_at(terrain, x, y) == Terrain::Land && cell_at(&labels, x, y) == 0 {
                proof {
                    lemma_scan_meets_island(t, before, c, found as int);
                }
                flood_fill_label(terrain, &mut labels, x, y, found + 1);
                proof {
                    lemma_scan_labels_island(t, before, grid_view(&labels), c, found as int);
                }
                found += 1;
            } else {
                proof {
                    lemma_scan_passes(t, before, c, found as int);
                }
            }
            x += 1;
        }
        proof {
            lemma_scan_next_row(t, grid_view(&labels), y as int, found as int);
        }
        y += 1;
    }
    proof {
        lemma_scan_done(t, grid_view(&labels), found as int);
    }
    labels
}

} // verus!

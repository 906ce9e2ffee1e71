//! Places for settlements: where they may stand, and which islands keep them.

use vstd::prelude::*;
use std::collections::HashMap;
use crate::config::WorldConfig;
use crate::grid::{
    Cell, Slot, slots_in_grid, slots_on_grid, grid_view, at, cell_at, set_cell, new_grid, is_square,
    is_world_grid, in_grid, cell_of, cells_of, adjacent, precedes, chebyshev, center_dist_sq,
    center_distance_sq, within_radius, window_bounds,
};
use crate::connectivity::has_kind;
use crate::terrain::{Terrain, is_large_water, is_large_water_region};

verus! {

/// 1 if `c` lies in the grid with category `k`, else 0.
pub open spec fn kind_tally(t: Seq<Seq<Terrain>>, c: Cell, k: Terrain) -> int {
    if has_kind(t, c, k) { 1 } else { 0 }
}

/// The number of 4-neighbours of `c` that have category `k`.
pub open spec fn kind_count(t: Seq<Seq<Terrain>>, c: Cell, k: Terrain) -> int {
    kind_tally(t, (c.0 - 1, c.1), k) + kind_tally(t, (c.0 + 1, c.1), k) + kind_tally(t, (c.0, c.1 - 1), k)
        + kind_tally(t, (c.0, c.1 + 1), k)
}

/// The cell `c` alone if it lies in the grid with category `k`, else nothing.
pub open spec fn kind_list(t: Seq<Seq<Terrain>>, c: Cell, k: Terrain) -> Seq<Cell> {
    if has_kind(t, c, k) { seq![c] } else { seq![] }
}

/// The 4-neighbours of `c` that have category `k`, in the order left, right, up, down.
pub open spec fn kind_neighbors(t: Seq<Seq<Terrain>>, c: Cell, k: Terrain) -> Seq<Cell> {
    kind_list(t, (c.0 - 1, c.1), k) + kind_list(t, (c.0 + 1, c.1), k) + kind_list(t, (c.0, c.1 - 1), k)
        + kind_list(t, (c.0, c.1 + 1), k)
}

/// The listed neighbours are the cells of category `k` that share an edge with `c`.
pub proof fn lemma_kind_neighbors(t: Seq<Seq<Terrain>>, c: Cell, k: Terrain)
    ensures
        kind_neighbors(t, c, k).len() == kind_count(t, c, k),
        forall|i: int|
            0 <= i < kind_neighbors(t, c, k).len() ==> adjacent(c, #[trigger] kind_neighbors(t, c, k)[i])
                && has_kind(t, kind_neighbors(t, c, k)[i], k),
        forall|d: Cell| #[trigger] adjacent(c, d) && has_kind(t, d, k) ==> kind_neighbors(t, c, k).contains(d),
{
    let s = kind_neighbors(t, c, k);
    let l = kind_list(t, (c.0 - 1, c.1), k);
    let r = kind_list(t, (c.0 + 1, c.1), k);
    let u = kind_list(t, (c.0, c.1 - 1), k);
    let w = kind_list(t, (c.0, c.1 + 1), k);
    assert(s == l + r + u + w);
    assert forall|d: Cell| #[trigger] adjacent(c, d) && has_kind(t, d, k) implies s.contains(d) by {
        if d == (c.0 - 1, c.1) {
            assert(s[0] == d);
        } else if d == (c.0 + 1, c.1) {
            assert(s[l.len() as int] == d);
        } else if d == (c.0, c.1 - 1) {
            assert(s[(l.len() + r.len()) as int] == d);
        } else {
            assert(d == (c.0, c.1 + 1));
            assert(s[(l.len() + r.len() + u.len()) as int] == d);
        }
    }
}

/// Adds the cell `(nx, ny)` to the tallies of its category.
fn tally_neighbor(
    terrain: &Vec<Vec<Terrain>>,
    nx: usize,
    ny: usize,
    land_count: &mut usize,
    water_count: &mut usize,
    water_neighbors: &mut Vec<(usize, usize)>,
)
    requires
        is_square(grid_view(terrain), terrain.len() as int),
        *old(land_count) < 4,
        *old(water_count) < 4,
    ensures
        *final(land_count) == *old(land_count) + kind_tally(
            grid_view(terrain),
            (nx as int, ny as int),
            Terrain::Land,
        ),
        *final(water_count) == *old(water_count) + kind_tally(
            grid_view(terrain),
            (nx as int, ny as int),
            Terrain::Water,
        ),
        cells_of(final(water_neighbors)@) == cells_of(old(water_neighbors)@) + kind_list(
            grid_view(terrain),
            (nx as int, ny as int),
            Terrain::Water,
        ),
{
    let n = terrain.len();
    let ghost listed = cells_of(water_neighbors@);
    if nx < n && ny < n {
        match cell_at(terrain, nx, ny) {
            Terrain::Land => {
                *land_count = *land_count + 1;
            },
            Terrain::Water => {
                *water_count = *water_count + 1;
                water_neighbors.push((nx, ny));
            },
            Terrain::FarLand => {},
        }
    }
    assert(cells_of(water_neighbors@) =~= listed + kind_list(
        grid_view(terrain),
        (nx as int, ny as int),
        Terrain::Water,
    ));
}

/// Counts the land and the water among the 4-neighbours of `(x, y)`, and lists
/// the water neighbours. Far land counts as neither.
pub fn count_direct_neighbors(terrain: &Vec<Vec<Terrain>>, x: usize, y: usize) -> (counts: (
    usize,
    usize,
    Vec<(usize, usize)>,
))
    requires
        is_square(grid_view(terrain), terrain.len() as int),
    ensures
        counts.0 == kind_count(grid_view(terrain), (x as int, y as int), Terrain::Land),
        counts.1 == kind_count(grid_view(terrain), (x as int, y as int), Terrain::Water),
        cells_of(counts.2@) == kind_neighbors(grid_view(terrain), (x as int, y as int), Terrain::Water),
{
    let mut land_count: usize = 0;
    let mut water_count: usize = 0;
    let mut water_neighbors: Vec<(usize, usize)> = Vec::new();
    assert(cells_of(water_neighbors@) =~= Seq::<Cell>::empty());
    if x > 0 {
        tally_neighbor(terrain, x - 1, y, &mut land_count, &mut water_count, &mut water_neighbors);
    }
    if x < usize::MAX {
        tally_neighbor(terrain, x + 1, y, &mut land_count, &mut water_count, &mut water_neighbors);
    }
    if y > 0 {
        tally_neighbor(terrain, x, y - 1, &mut land_count, &mut water_count, &mut water_neighbors);
    }
    if y < usize::MAX {
        tally_neighbor(terrain, x, y + 1, &mut land_count, &mut water_count, &mut water_neighbors);
    }
    assert(cells_of(water_neighbors@) =~= kind_neighbors(
        grid_view(terrain),
        (x as int, y as int),
        Terrain::Water,
    ));
    (land_count, water_count, water_neighbors)
}

/// Some cell of the grid within `spacing` of `c` is marked.
pub open spec fn window_taken(taken: Seq<Seq<bool>>, c: Cell, spacing: int) -> bool {
    exists|d: Cell| in_grid(d, taken.len() as int) && chebyshev(c, d) <= spacing && #[trigger] at(taken, d)
}

/// Tells whether any cell within `spacing` of `(x, y)` is marked: on the
/// mask of the accepted slots, whether a settlement at `(x, y)` would have a
/// cell of its neighbourhood in that of another.
#[verifier::loop_isolation(false)]
pub fn area_taken(taken: &Vec<Vec<bool>>, x: usize, y: usize, spacing: usize) -> (hit: bool)
    requires
        is_square(grid_view(taken), taken.len() as int),
    ensures
        hit == window_taken(grid_view(taken), (x as int, y as int), spacing as int),
{
    let n = taken.len();
    let (y_start, y_end) = window_bounds(y, spacing, n);
    let (x_start, x_end) = window_bounds(x, spacing, n);
    let ghost c: Cell = (x as int, y as int);
    let ghost m = grid_view(taken);
    let mut yy = y_start;
    while yy < y_end
        invariant
            y_start <= yy,
            y_end <= n,
            x_end <= n,
            n == taken.len(),
            m == grid_view(taken),
            is_square(m, n as int),
            forall|d: Cell|
                in_grid(d, n as int) && chebyshev(c, d) <= spacing && d.1 < yy ==> !#[trigger] at(m, d),
        decreases y_end - yy,
    {
        let mut xx = x_start;
        while xx < x_end
            invariant
                x_start <= xx,
                yy < y_end,
                y_end <= n,
                x_end <= n,
                n == taken.len(),
                m == grid_view(taken),
                is_square(m, n as int),
                forall|d: Cell|
                    in_grid(d, n as int) && chebyshev(c, d) <= spacing && (d.1 < yy || (d.1 == yy && d.0 < xx))
                        ==> !#[trigger] at(m, d),
            decreases x_end - xx,
        {
            if cell_at(taken, xx, yy) {
                assert(at(m, (xx as int, yy as int)));
                return true;
            }
            xx += 1;
        }
        yy += 1;
    }
    false
}

/// Marks every cell within `spacing` of `(x, y)`.
#[verifier::loop_isolation(false)]
pub fn mark_area_taken(taken: &mut Vec<Vec<bool>>, x: usize, y: usize, spacing: usize)
    requires
        is_square(grid_view(old(taken)), old(taken).len() as int),
    ensures
        is_square(grid_view(final(taken)), old(taken).len() as int),
        forall|d: Cell|
            in_grid(d, old(taken).len() as int) ==> #[trigger] at(grid_view(final(taken)), d) == (at(
                grid_view(old(taken)),
                d,
            ) || chebyshev((x as int, y as int), d) <= spacing),
{
    let n = taken.len();
    let (y_start, y_end) = window_bounds(y, spacing, n);
    let (x_start, x_end) = window_bounds(x, spacing, n);
    let ghost c: Cell = (x as int, y as int);
    let ghost m0 = grid_view(taken);
    let mut yy = y_start;
    while yy < y_end
        invariant
            y_start <= yy,
            y_end <= n,
            x_end <= n,
            is_square(grid_view(taken), n as int),
            forall|d: Cell|
                in_grid(d, n as int) ==> #[trigger] at(grid_view(taken), d) == (at(m0, d) || (chebyshev(c, d)
                    <= spacing && d.1 < yy)),
        decreases y_end - yy,
    {
        let mut xx = x_start;
        while xx < x_end
            invariant
                x_start <= xx,
                yy < y_end,
                y_end <= n,
                x_end <= n,
                is_square(grid_view(taken), n as int),
                forall|d: Cell|
                    in_grid(d, n as int) ==> #[trigger] at(grid_view(taken), d) == (at(m0, d) || (chebyshev(
                        c,
                        d,
                    ) <= spacing && (d.1 < yy || (d.1 == yy && d.0 < xx)))),
            decreases x_end - xx,
        {
            let ghost before = grid_view(taken);
            set_cell(taken, xx, yy, true);
            assert forall|d: Cell| in_grid(d, n as int) implies #[trigger] at(grid_view(taken), d) == (at(
                m0,
                d,
            ) || (chebyshev(c, d) <= spacing && (d.1 < yy || (d.1 == yy && d.0 < xx + 1)))) by {
                if d != (xx as int, yy as int) {
                    assert(at(grid_view(taken), d) == at(before, d));
                }
            }
            xx += 1;
        }
        yy += 1;
    }
}

/// Some 4-neighbour of `c` is water of a body with at least `min_size` cells.
pub open spec fn touches_ocean(t: Seq<Seq<Terrain>>, c: Cell, min_size: int) -> bool {
    exists|d: Cell| #[trigger] adjacent(c, d) && is_large_water(t, d, min_size)
}

/// A settlement may stand on `c`: a land cell within the city radius of the
/// centre of the grid, with at least two land and two water cells among its
/// 4-neighbours, one of them water of an ocean. The distance is in cells and
/// the radius in tenths of a cell, so the squares are compared after scaling.
pub open spec fn is_candidate(t: Seq<Seq<Terrain>>, config: WorldConfig, c: Cell) -> bool {
    &&& 100 * center_dist_sq(c, t.len() as int) <= config.city_radius_tenths * config.city_radius_tenths
    &&& has_kind(t, c, Terrain::Land)
    &&& kind_count(t, c, Terrain::Land) >= 2
    &&& kind_count(t, c, Terrain::Water) >= 2
    &&& touches_ocean(t, c, config.ocean_min_size as int)
}

/// The slot `a` crowds the cell `b`: `b` lies in the square neighbourhood of
/// radius `spacing` around `a`.
pub open spec fn crowds(a: Cell, b: Cell, spacing: int) -> bool {
    chebyshev(a, b) <= spacing
}

/// No slot of `s` that the scan meets before `c` crowds `c`.
pub open spec fn is_clear(s: Seq<Cell>, c: Cell, spacing: int) -> bool {
    forall|j: int| 0 <= j < s.len() && precedes(#[trigger] s[j], c) ==> !crowds(s[j], c, spacing)
}

/// The cells of `s` stand in the order in which a row-by-row scan meets them.
pub open spec fn is_scan_ordered(s: Seq<Cell>) -> bool {
    forall|i: int, j: int| 0 <= i < j < s.len() ==> precedes(#[trigger] s[i], #[trigger] s[j])
}

/// `s` is what a row-by-row scan accepts when it takes every candidate that
/// no slot accepted before it crowds: the slots in scan order.
pub open spec fn is_slot_plan(t: Seq<Seq<Terrain>>, config: WorldConfig, s: Seq<Cell>) -> bool {
    &&& is_scan_ordered(s)
    &&& forall|c: Cell|
        #![trigger s.contains(c)]
        #![trigger is_candidate(t, config, c)]
        s.contains(c) <==> is_candidate(t, config, c) && is_clear(s, c, config.city_spacing as int)
}

/// What holds of the accepted slots when the scan stands at `pos`.
pub open spec fn plan_state(t: Seq<Seq<Terrain>>, config: WorldConfig, s: Seq<Cell>, pos: Cell) -> bool {
    &&& is_scan_ordered(s)
    &&& forall|j: int| 0 <= j < s.len() ==> precedes(#[trigger] s[j], pos)
    &&& forall|c: Cell|
        #![trigger s.contains(c)]
        #![trigger is_candidate(t, config, c)]
        precedes(c, pos) ==> (s.contains(c) <==> is_candidate(t, config, c) && is_clear(
            s,
            c,
            config.city_spacing as int,
        ))
}

/// A cell is marked exactly when it lies within `spacing` of a slot of `s`.
pub open spec fn mask_state(m: Seq<Seq<bool>>, s: Seq<Cell>, n: int, spacing: int) -> bool {
    &&& is_square(m, n)
    &&& forall|d: Cell|
        in_grid(d, n) ==> (#[trigger] at(m, d) <==> exists|j: int|
            0 <= j < s.len() && chebyshev(#[trigger] s[j], d) <= spacing)
}

/// The scan state after the candidate `c` has been accepted.
proof fn lemma_plan_accept(t: Seq<Seq<Terrain>>, config: WorldConfig, s: Seq<Cell>, c: Cell)
    requires
        plan_state(t, config, s, c),
        is_candidate(t, config, c),
        is_clear(s, c, config.city_spacing as int),
    ensures
        plan_state(t, config, s.push(c), (c.0 + 1, c.1)),
{
    let s2 = s.push(c);
    let next = (c.0 + 1, c.1);
    let spacing = config.city_spacing as int;
    assert forall|d: Cell|
        #![trigger s2.contains(d)]
        #![trigger is_candidate(t, config, d)]
        precedes(d, next) implies (s2.contains(d) <==> is_candidate(t, config, d) && is_clear(
        s2,
        d,
        spacing,
    )) by {
        if d == c {
            assert(s2[s.len() as int] == c);
            assert forall|j: int| 0 <= j < s2.len() && precedes(#[trigger] s2[j], d) implies !crowds(
                s2[j],
                d,
                spacing,
            ) by {
                if j < s.len() {
                    assert(s2[j] == s[j]);
                }
            }
        } else {
            assert(precedes(d, c));
            if s2.contains(d) {
                let j = choose|j: int| 0 <= j < s2.len() && s2[j] == d;
                assert(s[j] == d);
                assert(s.contains(d));
            }
            if s.contains(d) {
                let j = choose|j: int| 0 <= j < s.len() && s[j] == d;
                assert(s2[j] == d);
            }
            if is_clear(s, d, spacing) {
                assert forall|j: int| 0 <= j < s2.len() && precedes(#[trigger] s2[j], d) implies !crowds(
                    s2[j],
                    d,
                    spacing,
                ) by {
                    if j < s.len() {
                        assert(s2[j] == s[j]);
                    }
                }
            }
            if is_clear(s2, d, spacing) {
                assert forall|j: int| 0 <= j < s.len() && precedes(#[trigger] s[j], d) implies !crowds(
                    s[j],
                    d,
                    spacing,
                ) by {
                    assert(s2[j] == s[j]);
                }
            }
        }
    }
    assert forall|i: int, j: int| 0 <= i < j < s2.len() implies precedes(
        #[trigger] s2[i],
        #[trigger] s2[j],
    ) by {
        assert(s2[i] == s[i]);
        if j < s.len() {
            assert(s2[j] == s[j]);
        }
    }
}

/// The scan state after the cell `c` has been passed over.
proof fn lemma_plan_reject(t: Seq<Seq<Terrain>>, config: WorldConfig, s: Seq<Cell>, c: Cell)
    requires
        plan_state(t, config, s, c),
        !(is_candidate(t, config, c) && is_clear(s, c, config.city_spacing as int)),
    ensures
        plan_state(t, config, s, (c.0 + 1, c.1)),
{
    let next = (c.0 + 1, c.1);
    assert forall|d: Cell|
        #![trigger s.contains(d)]
        #![trigger is_candidate(t, config, d)]
        precedes(d, next) implies (s.contains(d) <==> is_candidate(t, config, d) && is_clear(
        s,
        d,
        config.city_spacing as int,
    )) by {
        if d == c {
            if s.contains(c) {
                let j = choose|j: int| 0 <= j < s.len() && s[j] == c;
                assert(precedes(s[j], c));
            }
        } else {
            assert(precedes(d, c));
        }
    }
}

/// The scan state at the end of a row is the state at the start of the next.
proof fn lemma_plan_next_row(t: Seq<Seq<Terrain>>, config: WorldConfig, s: Seq<Cell>, y: int)
    requires
        plan_state(t, config, s, (t.len() as int, y)),
    ensures
        plan_state(t, config, s, (0, y + 1)),
{
    let pos = (t.len() as int, y);
    let next = (0, y + 1);
    assert forall|d: Cell|
        #![trigger s.contains(d)]
        #![trigger is_candidate(t, config, d)]
        precedes(d, next) implies (s.contains(d) <==> is_candidate(t, config, d) && is_clear(
        s,
        d,
        config.city_spacing as int,
    )) by {
        if !precedes(d, pos) {
            // `d` lies in row `y` beyond the last column
            if s.contains(d) {
                let j = choose|j: int| 0 <= j < s.len() && s[j] == d;
                assert(precedes(s[j], pos));
            }
        }
    }
}

/// Once the scan has passed the last row, the accepted slots are the plan.
proof fn lemma_plan_done(t: Seq<Seq<Terrain>>, config: WorldConfig, s: Seq<Cell>)
    requires
        plan_state(t, config, s, (0, t.len() as int)),
    ensures
        is_slot_plan(t, config, s),
{
    let pos = (0, t.len() as int);
    assert forall|d: Cell|
        #![trigger s.contains(d)]
        #![trigger is_candidate(t, config, d)]
        s.contains(d) <==> is_candidate(t, config, d) && is_clear(s, d, config.city_spacing as int) by {
        if !precedes(d, pos) {
            // `d` lies below the last row
            if s.contains(d) {
                let j = choose|j: int| 0 <= j < s.len() && s[j] == d;
                assert(precedes(s[j], pos));
            }
        }
    }
}

/// The mask after the cells around the new slot `c` have been marked.
proof fn lemma_mask_accept(m: Seq<Seq<bool>>, m2: Seq<Seq<bool>>, s: Seq<Cell>, c: Cell, n: int, spacing: int)
    requires
        mask_state(m, s, n, spacing),
        is_square(m2, n),
        forall|d: Cell| in_grid(d, n) ==> #[trigger] at(m2, d) == (at(m, d) || chebyshev(c, d) <= spacing),
    ensures
        mask_state(m2, s.push(c), n, spacing),
{
    let s2 = s.push(c);
    assert forall|d: Cell| in_grid(d, n) implies (#[trigger] at(m2, d) <==> exists|j: int|
        0 <= j < s2.len() && chebyshev(#[trigger] s2[j], d) <= spacing) by {
        if at(m, d) {
            let j = choose|j: int| 0 <= j < s.len() && chebyshev(#[trigger] s[j], d) <= spacing;
            assert(s2[j] == s[j]);
        }
        if chebyshev(c, d) <= spacing {
            assert(s2[s.len() as int] == c);
        }
        if exists|j: int| 0 <= j < s2.len() && chebyshev(#[trigger] s2[j], d) <= spacing {
            let j = choose|j: int| 0 <= j < s2.len() && chebyshev(#[trigger] s2[j], d) <= spacing;
            if j < s.len() {
                assert(s2[j] == s[j]);
            }
        }
    }
}

/// Tells whether any of the listed cells is water of a body with at least
/// `min_size` cells.
pub fn any_large_water(terrain: &Vec<Vec<Terrain>>, cells: &Vec<(usize, usize)>, min_size: usize) -> (found:
    bool)
    requires
        is_world_grid(grid_view(terrain)),
        slots_in_grid(cells@, terrain.len() as int),
    ensures
        found == exists|i: int|
            0 <= i < cells.len() && is_large_water(
                grid_view(terrain),
                #[trigger] cell_of(cells[i]),
                min_size as int,
            ),
{
    let mut i: usize = 0;
    while i < cells.len()
        invariant
            0 <= i <= cells.len(),
            is_world_grid(grid_view(terrain)),
            slots_in_grid(cells@, terrain.len() as int),
            forall|j: int|
                0 <= j < i ==> !is_large_water(
                    grid_view(terrain),
                    #[trigger] cell_of(cells[j]),
                    min_size as int,
                ),
        decreases cells.len() - i,
    {
        let (wx, wy) = cells[i];
        assert(in_grid(cell_of(cells[i as int]), terrain.len() as int));
        if is_large_water_region(terrain, wx, wy, min_size) {
            assert(is_large_water(grid_view(terrain), cell_of(cells[i as int]), min_size as int));
            return true;
        }
        i += 1;
    }
    false
}

/// Scans the grid row by row for places where a settlement may stand, and
/// accepts each candidate that no slot accepted before it crowds. On
/// acceptance the cells within the spacing of the slot are marked as taken;
/// a candidate on a marked cell is passed over. The first candidate of a
/// neighbourhood wins.
#[verifier::loop_isolation(false)]
pub fn find_city_slots(terrain: &Vec<Vec<Terrain>>, config: &WorldConfig) -> (slots: Vec<(usize, usize)>)
    requires
        is_world_grid(grid_view(terrain)),
    ensures
        is_slot_plan(grid_view(terrain), *config, cells_of(slots@)),
{
    let n = terrain.len();
    let spacing = config.city_spacing;
    let ghost t = grid_view(terrain);
    let ghost sp = spacing as int;
    let mut slots: Vec<(usize, usize)> = Vec::new();
    let mut taken = new_grid(n, false);
    proof {
        assert(cells_of(slots@) =~= Seq::<Cell>::empty());
    }
    let mut y: usize = 0;
    while y < n
        invariant
            y <= n,
            is_square(grid_view(&taken), n as int),
            plan_state(t, *config, cells_of(slots@), (0, y as int)),
            mask_state(grid_view(&taken), cells_of(slots@), n as int, sp),
        decreases n - y,
    {
        let mut x: usize = 0;
        while x < n
            invariant
                x <= n,
                is_square(grid_view(&taken), n as int),
                plan_state(t, *config, cells_of(slots@), (x as int, y as int)),
                mask_state(grid_view(&taken), cells_of(slots@), n as int, sp),
            decreases n - x,
        {
            let ghost c: Cell = (x as int, y as int);
            let ghost s = cells_of(slots@);
            let ghost m = grid_view(&taken);
            let ghost mut accepted = false;
            let dist_sq = center_distance_sq(x, y, n);
            if within_radius(dist_sq, config.city_radius_tenths) && cell_at(terrain, x, y) == Terrain::Land {
                let (land_neighbors, water_count, water_neighbors) = count_direct_neighbors(terrain, x, y);
                if land_neighbors >= 2 && water_count >= 2 {
                    if !cell_at(&taken, x, y) {
                        proof {
                            assert(!at(m, c));
                            assert(is_clear(s, c, sp));
                            lemma_kind_neighbors(t, c, Terrain::Water);
                            assert forall|i: int| 0 <= i < water_neighbors.len() implies in_grid(
                                #[trigger] cell_of(water_neighbors[i]),
                                n as int,
                            ) by {
                                assert(cells_of(water_neighbors@)[i] == cell_of(water_neighbors[i]));
                            }
                        }
                        if any_large_water(terrain, &water_neighbors, config.ocean_min_size) {
                            proof {
                                let i = choose|i: int|
                                    0 <= i < water_neighbors.len() && is_large_water(
                                        t,
                                        #[trigger] cell_of(water_neighbors[i]),
                                        config.ocean_min_size as int,
                                    );
                                assert(cells_of(water_neighbors@)[i] == cell_of(water_neighbors[i]));
                                assert(adjacent(c, cell_of(water_neighbors[i])));
                                assert(is_candidate(t, *config, c));
                                lemma_plan_accept(t, *config, s, c);
                            }
                            slots.push((x, y));
                            mark_area_taken(&mut taken, x, y, spacing);
                            proof {
                                assert(cells_of(slots@) =~= s.push(c));
                                lemma_mask_accept(m, grid_view(&taken), s, c, n as int, sp);
                                accepted = true;
                            }
                        } else {
                            proof {
                                if touches_ocean(t, c, config.ocean_min_size as int) {
                                    let d = choose|d: Cell| #[trigger]
                                        adjacent(c, d) && is_large_water(t, d, config.ocean_min_size as int);
                                    assert(kind_neighbors(t, c, Terrain::Water).contains(d));
                                    let i = choose|i: int|
                                        0 <= i < kind_neighbors(t, c, Terrain::Water).len() && kind_neighbors(
                                            t,
                                            c,
                                            Terrain::Water,
                                        )[i] == d;
                                    assert(cells_of(water_neighbors@)[i] == cell_of(water_neighbors[i]));
                                    assert(false);
                                }
                            }
                        }
                    } else {
                        proof {
                            assert(at(m, c));
                            let j = choose|j: int| 0 <= j < s.len() && chebyshev(#[trigger] s[j], c) <= sp;
                            assert(precedes(s[j], c));
                            assert(crowds(s[j], c, sp));
                            assert(!is_clear(s, c, sp));
                        }
                    }
                }
            }
            proof {
                if !accepted {
                    lemma_plan_reject(t, *config, s, c);
                }
            }
            x += 1;
        }
        proof {
            lemma_plan_next_row(t, *config, cells_of(slots@), y as int);
        }
        y += 1;
    }
    proof {
        lemma_plan_done(t, *config, cells_of(slots@));
    }
    slots
}

/// The island id under a slot.
pub open spec fn region_of(m: Seq<Seq<usize>>, s: Slot) -> usize {
    m[s.1 as int][s.0 as int]
}

/// The test that a slot lies on island `id`.
pub open spec fn on_island(m: Seq<Seq<usize>>, id: usize) -> spec_fn(Slot) -> bool {
    |s: Slot| region_of(m, s) == id
}

/// The slots that lie on island `id`, in the order of `slots`.
pub open spec fn island_slots(slots: Seq<Slot>, m: Seq<Seq<usize>>, id: usize) -> Seq<Slot> {
    slots.filter(on_island(m, id))
}

/// The ids of the islands that hold a slot, each once, in the order in which
/// `slots` first names them. The id 0, which no island has, is left out.
pub open spec fn island_order(slots: Seq<Slot>, m: Seq<Seq<usize>>) -> Seq<usize>
    decreases slots.len(),
{
    if slots.len() == 0 {
        Seq::empty()
    } else {
        let before = island_order(slots.drop_last(), m);
        let id = region_of(m, slots.last());
        if id == 0 || before.contains(id) {
            before
        } else {
            before.push(id)
        }
    }
}

/// The slots of island `id` if they are at least `min_slots`, else none.
pub open spec fn kept_on_island(slots: Seq<Slot>, m: Seq<Seq<usize>>, min_slots: int, id: usize) -> Seq<Slot> {
    if id != 0 && island_slots(slots, m, id).len() >= min_slots {
        island_slots(slots, m, id)
    } else {
        Seq::empty()
    }
}

/// The slots kept on the islands `ids`, island after island.
pub open spec fn kept_of(slots: Seq<Slot>, m: Seq<Seq<usize>>, min_slots: int, ids: Seq<usize>) -> Seq<Slot>
    decreases ids.len(),
{
    if ids.len() == 0 {
        Seq::empty()
    } else {
        kept_of(slots, m, min_slots, ids.drop_last()) + kept_on_island(slots, m, min_slots, ids.last())
    }
}

/// The slots that remain when every island with fewer than `min_slots` slots
/// loses all of them: island after island in the order of first mention, and
/// within an island in the order of `slots`.
pub open spec fn kept_slots(slots: Seq<Slot>, m: Seq<Seq<usize>>, min_slots: int) -> Seq<Slot> {
    kept_of(slots, m, min_slots, island_order(slots, m))
}

/// The order of first mention names every island that holds a slot, names
/// nothing else, and names nothing twice.
pub proof fn lemma_island_order(slots: Seq<Slot>, m: Seq<Seq<usize>>)
    ensures
        island_order(slots, m).no_duplicates(),
        forall|id: usize| #[trigger]
            island_order(slots, m).contains(id) <==> id != 0 && exists|j: int|
                0 <= j < slots.len() && region_of(m, #[trigger] slots[j]) == id,
    decreases slots.len(),
{
    let order = island_order(slots, m);
    if slots.len() > 0 {
        let front = slots.drop_last();
        let before = island_order(front, m);
        let last_id = region_of(m, slots.last());
        lemma_island_order(front, m);
        assert forall|id: usize| #[trigger]
            order.contains(id) <==> id != 0 && exists|j: int|
                0 <= j < slots.len() && region_of(m, #[trigger] slots[j]) == id by {
            if order.contains(id) {
                if before.contains(id) {
                    let j = choose|j: int| 0 <= j < front.len() && region_of(m, #[trigger] front[j]) == id;
                    assert(slots[j] == front[j]);
                } else {
                    let i = choose|i: int| 0 <= i < order.len() && order[i] == id;
                    assert(id == last_id);
                    assert(region_of(m, slots[slots.len() - 1]) == id);
                }
            }
            if id != 0 && exists|j: int| 0 <= j < slots.len() && region_of(m, #[trigger] slots[j]) == id {
                let j = choose|j: int| 0 <= j < slots.len() && region_of(m, #[trigger] slots[j]) == id;
                if j < front.len() {
                    assert(front[j] == slots[j]);
                    assert(before.contains(id));
                    let i = choose|i: int| 0 <= i < before.len() && before[i] == id;
                    assert(order[i] == id);
                } else {
                    assert(id == last_id);
                    if !before.contains(id) {
                        assert(order[before.len() as int] == id);
                    }
                }
            }
        }
    }
}

/// An island that the order does not name holds no slot.
proof fn lemma_unnamed_island_empty(slots: Seq<Slot>, m: Seq<Seq<usize>>, id: usize)
    requires
        id != 0,
        !island_order(slots, m).contains(id),
    ensures
        island_slots(slots, m, id) == Seq::<Slot>::empty(),
{
    lemma_island_order(slots, m);
    slots.lemma_all_neg_filter_empty(on_island(m, id));
    assert forall|e: Slot| slots.contains(e) implies !on_island(m, id)(e) by {
        let j = choose|j: int| 0 <= j < slots.len() && slots[j] == e;
        assert(region_of(m, slots[j]) != id);
    }
}

/// Keeps the slots of the islands that hold at least `min_slots` of them, and
/// drops every other slot: an island keeps all of its slots or none. The
/// slots come out island after island, in the order in which the islands are
/// first named, so equal inputs give equal outputs.
pub fn filter_city_slots_by_region(
    city_slots: &Vec<(usize, usize)>,
    region_map: &Vec<Vec<usize>>,
    min_slots: usize,
) -> (filtered: Vec<(usize, usize)>)
    requires
        slots_on_grid(city_slots@, grid_view(region_map)),
    ensures
        filtered@ == kept_slots(city_slots@, grid_view(region_map), min_slots as int),
{
    let ghost m = grid_view(region_map);
    let ghost all = city_slots@;
    let mut group_of: HashMap<usize, usize> = HashMap::new();
    let mut groups: Vec<Vec<(usize, usize)>> = Vec::new();
    let ghost mut ids: Seq<usize> = Seq::empty();
    let mut k: usize = 0;
    assert(all.take(0) =~= Seq::<Slot>::empty());
    while k < city_slots.len()
        invariant
            0 <= k <= city_slots.len(),
            m == grid_view(region_map),
            all == city_slots@,
            slots_on_grid(city_slots@, m),
            ids == island_order(all.take(k as int), m),
            groups.len() == ids.len(),
            forall|i: int|
                0 <= i < ids.len() ==> (#[trigger] groups[i])@ == island_slots(all.take(k as int), m, ids[i]),
            forall|i: int|
                0 <= i < ids.len() ==> group_of@.contains_key(#[trigger] ids[i]) && group_of@[ids[i]] == i,
            forall|id: usize| group_of@.contains_key(id) ==> #[trigger] ids.contains(id),
        decreases city_slots.len() - k,
    {
        let (x, y) = city_slots[k];
        let ghost slot = (x, y);
        let ghost seen = all.take(k as int);
        let ghost more = all.take(k + 1);
        assert(city_slots@[k as int] == (x, y));
        let region_id = cell_at(region_map, x, y);
        proof {
            assert(more =~= seen.push(slot));
            assert(more.drop_last() =~= seen);
            assert(region_id == region_of(m, slot));
            assert forall|id: usize| true implies #[trigger] island_slots(more, m, id) == (if id == region_id {
                island_slots(seen, m, id).push(slot)
            } else {
                island_slots(seen, m, id)
            }) by {
                seen.lemma_filter_push(slot, on_island(m, id));
            }
            lemma_island_order(seen, m);
            assert forall|i: int| 0 <= i < ids.len() implies #[trigger] ids[i] != 0 by {
                assert(ids.contains(ids[i]));
            }
        }
        let ghost groups_before = groups@;
        if region_id > 0 {
            match group_of.get(&region_id) {
                Some(found) => {
                    let i = *found;
                    proof {
                        assert(group_of@.contains_key(region_id));
                        assert(ids.contains(region_id));
                        let j = choose|j: int| 0 <= j < ids.len() && ids[j] == region_id;
                        assert(group_of@[ids[j]] == j);
                    }
                    groups[i].push((x, y));
                    proof {
                        assert(groups[i as int]@ == groups_before[i as int]@.push(slot));
                        assert forall|j: int| 0 <= j < ids.len() implies (#[trigger] groups[j])@ == island_slots(
                            more,
                            m,
                            ids[j],
                        ) by {
                            if j != i {
                                assert(groups[j] == groups_before[j]);
                                assert(ids[j] != ids[i as int]);
                            }
                        }
                    }
                },
                None => {
                    proof {
                        if ids.contains(region_id) {
                            let j = choose|j: int| 0 <= j < ids.len() && ids[j] == region_id;
                            assert(group_of@.contains_key(ids[j]));
                        }
                        lemma_unnamed_island_empty(seen, m, region_id);
                    }
                    let ghost known = group_of@;
                    group_of.insert(region_id, groups.len());
                    let mut group: Vec<(usize, usize)> = Vec::new();
                    group.push((x, y));
                    groups.push(group);
                    proof {
                        let longer = ids.push(region_id);
                        assert forall|id: usize| group_of@.contains_key(id) implies #[trigger] longer.contains(
                            id,
                        ) by {
                            if id == region_id {
                                assert(longer[ids.len() as int] == id);
                            } else {
                                assert(known.contains_key(id));
                                assert(ids.contains(id));
                                let j = choose|j: int| 0 <= j < ids.len() && ids[j] == id;
                                assert(longer[j] == id);
                            }
                        }
                        assert(groups[ids.len() as int]@ =~= island_slots(seen, m, region_id).push(slot));
                        assert forall|j: int| 0 <= j < longer.len() implies (#[trigger] groups[j])@ == island_slots(
                            more,
                            m,
                            longer[j],
                        ) by {
                            if j < ids.len() {
                                assert(groups[j] == groups_before[j]);
                                assert(ids.contains(ids[j]));
                            }
                        }
                        ids = longer;
                    }
                },
            }
        }
        k += 1;
    }
    assert(all.take(k as int) =~= all);
    let mut filtered: Vec<(usize, usize)> = Vec::new();
    let mut g: usize = 0;
    assert(ids.take(0) =~= Seq::<usize>::empty());
    proof {
        lemma_island_order(all, m);
        assert forall|i: int| 0 <= i < ids.len() implies #[trigger] ids[i] != 0 by {
            assert(ids.contains(ids[i]));
        }
    }
    while g < groups.len()
        invariant
            0 <= g <= groups.len(),
            groups.len() == ids.len(),
            ids == island_order(all, m),
            forall|i: int| 0 <= i < ids.len() ==> #[trigger] ids[i] != 0,
            forall|i: int| 0 <= i < ids.len() ==> (#[trigger] groups[i])@ == island_slots(all, m, ids[i]),
            filtered@ == kept_of(all, m, min_slots as int, ids.take(g as int)),
        decreases groups.len() - g,
    {
        let ghost base = filtered@;
        let ghost id = ids[g as int];
        let ghost group = groups[g as int]@;
        proof {
            assert(ids.take(g + 1).drop_last() =~= ids.take(g as int));
            assert(ids.take(g + 1).last() == id);
            assert(ids.contains(id));
        }
        if groups[g].len() >= min_slots {
            let mut j: usize = 0;
            while j < groups[g].len()
                invariant
                    0 <= j <= groups[g as int].len(),
                    g < groups.len(),
                    group == groups[g as int]@,
                    filtered@ == base + group.take(j as int),
                decreases groups[g as int].len() - j,
            {
                filtered.push(groups[g][j]);
                assert(group.take(j + 1) =~= group.take(j as int).push(group[j as int]));
                j += 1;
            }
            assert(group.take(j as int) =~= group);
        } else {
            assert(filtered@ =~= base + Seq::<Slot>::empty());
        }
        g += 1;
    }
    assert(ids.take(g as int) =~= ids);
    filtered
}


/// Every accepted slot stands on land, has at least two land and two water
/// cells among its 4-neighbours, and touches an ocean.
pub proof fn lemma_slots_are_candidates(t: Seq<Seq<Terrain>>, config: WorldConfig, s: Seq<Cell>, i: int)
    requires
        is_slot_plan(t, config, s),
        0 <= i < s.len(),
    ensures
        is_candidate(t, config, s[i]),
        at(t, s[i]) == Terrain::Land,
        kind_count(t, s[i], Terrain::Land) >= 2,
        kind_count(t, s[i], Terrain::Water) >= 2,
        touches_ocean(t, s[i], config.ocean_min_size as int),
{
    assert(s.contains(s[i]));
}

/// Two accepted slots are more than the spacing apart: neither lies in the
/// neighbourhood of the other.
pub proof fn lemma_slots_spaced(t: Seq<Seq<Terrain>>, config: WorldConfig, s: Seq<Cell>, i: int, j: int)
    requires
        is_slot_plan(t, config, s),
        0 <= i < s.len(),
        0 <= j < s.len(),
        i != j,
    ensures
        chebyshev(s[i], s[j]) > config.city_spacing,
{
    let spacing = config.city_spacing as int;
    assert(s.contains(s[i]));
    assert(s.contains(s[j]));
    if i < j {
        assert(precedes(s[i], s[j]));
        assert(is_clear(s, s[j], spacing));
        assert(!crowds(s[i], s[j], spacing));
    } else {
        assert(precedes(s[j], s[i]));
        assert(is_clear(s, s[i], spacing));
        assert(!crowds(s[j], s[i], spacing));
    }
}

/// A candidate is left out for one reason only: a slot accepted before it
/// lies within the spacing of it.
pub proof fn lemma_candidate_left_out(t: Seq<Seq<Terrain>>, config: WorldConfig, s: Seq<Cell>, c: Cell)
    requires
        is_slot_plan(t, config, s),
        is_candidate(t, config, c),
        !s.contains(c),
    ensures
        exists|j: int|
            0 <= j < s.len() && precedes(#[trigger] s[j], c) && chebyshev(s[j], c) <= config.city_spacing,
{
    let spacing = config.city_spacing as int;
    assert(!is_clear(s, c, spacing));
    let j = choose|j: int| 0 <= j < s.len() && precedes(#[trigger] s[j], c) && crowds(s[j], c, spacing);
    assert(chebyshev(s[j], c) <= config.city_spacing);
}

/// Two plans of one grid agree on whether they hold `c`.
proof fn lemma_plans_same_members(
    t: Seq<Seq<Terrain>>,
    config: WorldConfig,
    a: Seq<Cell>,
    b: Seq<Cell>,
    c: Cell,
)
    requires
        is_slot_plan(t, config, a),
        is_slot_plan(t, config, b),
    ensures
        a.contains(c) == b.contains(c),
    decreases c.1, c.0,
{
    let spacing = config.city_spacing as int;
    if is_candidate(t, config, c) {
        assert forall|j: int| 0 <= j < b.len() && precedes(#[trigger] b[j], c) && is_clear(a, c, spacing)
            implies !crowds(b[j], c, spacing) by {
            assert(b.contains(b[j]));
            lemma_plans_same_members(t, config, a, b, b[j]);
            let i = choose|i: int| 0 <= i < a.len() && a[i] == b[j];
            assert(precedes(a[i], c));
        }
        assert forall|j: int| 0 <= j < a.len() && precedes(#[trigger] a[j], c) && is_clear(b, c, spacing)
            implies !crowds(a[j], c, spacing) by {
            assert(a.contains(a[j]));
            lemma_plans_same_members(t, config, a, b, a[j]);
            let i = choose|i: int| 0 <= i < b.len() && b[i] == a[j];
            assert(precedes(b[i], c));
        }
        assert(is_clear(a, c, spacing) == is_clear(b, c, spacing));
    }
}

/// Lists in scan order that hold the same cells are one list.
proof fn lemma_ordered_same_members(a: Seq<Cell>, b: Seq<Cell>)
    requires
        is_scan_ordered(a),
        is_scan_ordered(b),
        forall|c: Cell| a.contains(c) == b.contains(c),
    ensures
        a == b,
    decreases a.len(),
{
    if a.len() == 0 {
        if b.len() > 0 {
            assert(b.contains(b[0]));
        }
        assert(a =~= b);
    } else {
        let la = a[a.len() - 1];
        assert(a.contains(la));
        assert(b.contains(la));
        let lb = b[b.len() - 1];
        assert(b.contains(lb));
        assert(a.contains(lb));
        let i = choose|i: int| 0 <= i < a.len() && a[i] == lb;
        let k = choose|k: int| 0 <= k < b.len() && b[k] == la;
        if i < a.len() - 1 {
            assert(precedes(a[i], a[a.len() - 1]));
        }
        if k < b.len() - 1 {
            assert(precedes(b[k], b[b.len() - 1]));
        }
        assert(la == lb);
        let a2 = a.drop_last();
        let b2 = b.drop_last();
        assert forall|c: Cell| a2.contains(c) == b2.contains(c) by {
            if a2.contains(c) {
                let j = choose|j: int| 0 <= j < a2.len() && a2[j] == c;
                assert(precedes(a[j], a[a.len() - 1]));
                assert(a.contains(c));
                let j2 = choose|j2: int| 0 <= j2 < b.len() && b[j2] == c;
                assert(b2[j2] == c);
            }
            if b2.contains(c) {
                let j = choose|j: int| 0 <= j < b2.len() && b2[j] == c;
                assert(precedes(b[j], b[b.len() - 1]));
                assert(b.contains(c));
                let j2 = choose|j2: int| 0 <= j2 < a.len() && a[j2] == c;
                assert(a2[j2] == c);
            }
        }
        assert forall|i: int, j: int| 0 <= i < j < a2.len() implies precedes(
            #[trigger] a2[i],
            #[trigger] a2[j],
        ) by {
            assert(precedes(a[i], a[j]));
        }
        assert forall|i: int, j: int| 0 <= i < j < b2.len() implies precedes(
            #[trigger] b2[i],
            #[trigger] b2[j],
        ) by {
            assert(precedes(b[i], b[j]));
        }
        lemma_ordered_same_members(a2, b2);
        assert(a =~= a2.push(la));
        assert(b =~= b2.push(lb));
    }
}

/// A grid has one slot plan only: the terrain and the settings determine
/// which slots are accepted, and in which order.
pub proof fn lemma_slot_plan_unique(t: Seq<Seq<Terrain>>, config: WorldConfig, a: Seq<Cell>, b: Seq<Cell>)
    requires
        is_slot_plan(t, config, a),
        is_slot_plan(t, config, b),
    ensures
        a == b,
{
    assert forall|c: Cell| a.contains(c) == b.contains(c) by {
        lemma_plans_same_members(t, config, a, b, c);
    }
    lemma_ordered_same_members(a, b);
}

/// Filtering by one test what another test let through changes nothing where
/// the first test implies the second, and leaves nothing where it excludes it.
proof fn lemma_filter_twice<A>(s: Seq<A>, p: spec_fn(A) -> bool, q: spec_fn(A) -> bool)
    ensures
        (forall|e: A| #[trigger] p(e) ==> q(e)) ==> s.filter(p).filter(q) == s.filter(p),
        (forall|e: A| #[trigger] p(e) ==> !q(e)) ==> s.filter(p).filter(q) == Seq::<A>::empty(),
    decreases s.len(),
{
    reveal(Seq::filter);
    if s.len() > 0 {
        let front = s.drop_last();
        lemma_filter_twice(front, p, q);
        assert(s =~= front.push(s.last()));
        front.lemma_filter_push(s.last(), p);
        front.filter(p).lemma_filter_push(s.last(), q);
    }
}

/// What `kept_of` keeps on island `id`: the island's share if `ids` names
/// the island, else nothing.
proof fn lemma_kept_of_on_island(
    slots: Seq<Slot>,
    m: Seq<Seq<usize>>,
    min_slots: int,
    ids: Seq<usize>,
    id: usize,
)
    requires
        ids.no_duplicates(),
    ensures
        island_slots(kept_of(slots, m, min_slots, ids), m, id) == (if ids.contains(id) {
            kept_on_island(slots, m, min_slots, id)
        } else {
            Seq::<Slot>::empty()
        }),
    decreases ids.len(),
{
    let empty = Seq::<Slot>::empty();
    if ids.len() > 0 {
        let front = ids.drop_last();
        let last = ids.last();
        let head = kept_of(slots, m, min_slots, front);
        let tail = kept_on_island(slots, m, min_slots, last);
        lemma_kept_of_on_island(slots, m, min_slots, front, id);
        Seq::filter_distributes_over_add(head, tail, on_island(m, id));
        lemma_filter_twice(slots, on_island(m, last), on_island(m, id));
        assert(tail.filter(on_island(m, id)) == (if last == id { tail } else { empty }));
        if front.contains(id) {
            let j = choose|j: int| 0 <= j < front.len() && front[j] == id;
            assert(ids[j] == id);
            assert(last != id);
            assert(ids.contains(id));
            assert(head.filter(on_island(m, id)) + empty =~= head.filter(on_island(m, id)));
        } else {
            if last == id {
                assert(ids[ids.len() - 1] == id);
                assert(empty + tail =~= tail);
            } else {
                if ids.contains(id) {
                    let j = choose|j: int| 0 <= j < ids.len() && ids[j] == id;
                    assert(front[j] == id);
                }
                assert(empty + empty =~= empty);
            }
        }
    }
}

/// An island keeps all of its slots or none: all of them if they are at least
/// `min_slots`, none if they are fewer. Slots on no island are dropped.
pub proof fn lemma_island_kept_whole(slots: Seq<Slot>, m: Seq<Seq<usize>>, min_slots: int, id: usize)
    ensures
        island_slots(kept_slots(slots, m, min_slots), m, id) == (if id != 0 && island_slots(slots, m, id).len()
            >= min_slots {
            island_slots(slots, m, id)
        } else {
            Seq::<Slot>::empty()
        }),
{
    lemma_island_order(slots, m);
    lemma_kept_of_on_island(slots, m, min_slots, island_order(slots, m), id);
    if id != 0 && !island_order(slots, m).contains(id) {
        lemma_unnamed_island_empty(slots, m, id);
    }
}

} // verus!

//! Four-connected regions of cells of one terrain category.

use vstd::prelude::*;
use crate::grid::{Cell, in_grid, adjacent, grid_cells, lemma_grid_cells};
use crate::terrain::Terrain;

verus! {

/// `c` lies in the grid and has category `k`.
pub open spec fn has_kind(t: Seq<Seq<Terrain>>, c: Cell, k: Terrain) -> bool {
    in_grid(c, t.len() as int) && t[c.1][c.0] == k
}

/// The cell at `i` shares an edge with the cell before it.
pub open spec fn path_step(p: Seq<Cell>, i: int) -> bool {
    adjacent(p[i - 1], p[i])
}

/// A walk over cells of category `k` in which each cell shares an edge with the next.
pub open spec fn is_path(t: Seq<Seq<Terrain>>, k: Terrain, p: Seq<Cell>) -> bool {
    &&& p.len() > 0
    &&& forall|i: int| 0 <= i < p.len() ==> has_kind(t, #[trigger] p[i], k)
    &&& forall|i: int| 0 < i < p.len() ==> #[trigger] path_step(p, i)
}

/// The walk `p` leads from `a` to `b`.
pub open spec fn joins(t: Seq<Seq<Terrain>>, k: Terrain, p: Seq<Cell>, a: Cell, b: Cell) -> bool {
    is_path(t, k, p) && p[0] == a && p[p.len() - 1] == b
}

/// Some walk over cells of category `k` leads from `a` to `b`.
pub open spec fn connected(t: Seq<Seq<Terrain>>, k: Terrain, a: Cell, b: Cell) -> bool {
    exists|p: Seq<Cell>| joins(t, k, p, a, b)
}

/// All cells that a walk over category `k` reaches from `a`.
pub open spec fn component(t: Seq<Seq<Terrain>>, k: Terrain, a: Cell) -> Set<Cell> {
    Set::new(|b: Cell| connected(t, k, a, b))
}

/// A set that no step over category `k` leaves.
pub open spec fn is_closed(t: Seq<Seq<Terrain>>, k: Terrain, s: Set<Cell>) -> bool {
    forall|c: Cell, d: Cell|
        s.contains(c) && #[trigger] adjacent(c, d) && has_kind(t, d, k) ==> s.contains(d)
}

/// A cell is connected to itself.
pub proof fn lemma_connected_refl(t: Seq<Seq<Terrain>>, k: Terrain, a: Cell)
    requires
        has_kind(t, a, k),
    ensures
        connected(t, k, a, a),
{
    let p = seq![a];
    assert(joins(t, k, p, a, a));
}

/// Connected cells have the category of the walk between them.
pub proof fn lemma_connected_kind(t: Seq<Seq<Terrain>>, k: Terrain, a: Cell, b: Cell)
    requires
        connected(t, k, a, b),
    ensures
        has_kind(t, a, k),
        has_kind(t, b, k),
{
    let p = choose|p: Seq<Cell>| joins(t, k, p, a, b);
    assert(has_kind(t, p[0], k));
    assert(has_kind(t, p[p.len() - 1], k));
}

/// A walk can be taken one step further.
pub proof fn lemma_connected_step(t: Seq<Seq<Terrain>>, k: Terrain, a: Cell, b: Cell, c: Cell)
    requires
        connected(t, k, a, b),
        adjacent(b, c),
        has_kind(t, c, k),
    ensures
        connected(t, k, a, c),
{
    let p = choose|p: Seq<Cell>| joins(t, k, p, a, b);
    let q = p.push(c);
    assert forall|i: int| 0 <= i < q.len() implies has_kind(t, #[trigger] q[i], k) by {
        if i < p.len() {
            assert(q[i] == p[i]);
        }
    }
    assert forall|i: int| 0 < i < q.len() implies #[trigger] path_step(q, i) by {
        if i < p.len() {
            assert(path_step(p, i));
        }
    }
    assert(joins(t, k, q, a, c));
}

/// A walk can be taken backwards.
pub proof fn lemma_connected_sym(t: Seq<Seq<Terrain>>, k: Terrain, a: Cell, b: Cell)
    requires
        connected(t, k, a, b),
    ensures
        connected(t, k, b, a),
{
    let p = choose|p: Seq<Cell>| joins(t, k, p, a, b);
    let q = Seq::new(p.len(), |i: int| p[p.len() - 1 - i]);
    assert forall|i: int| 0 <= i < q.len() implies has_kind(t, #[trigger] q[i], k) by {
        assert(has_kind(t, p[p.len() - 1 - i], k));
    }
    assert forall|i: int| 0 < i < q.len() implies #[trigger] path_step(q, i) by {
        assert(path_step(p, p.len() - i));
    }
    assert(joins(t, k, q, b, a));
}

/// Two walks that meet make one walk.
pub proof fn lemma_connected_trans(t: Seq<Seq<Terrain>>, k: Terrain, a: Cell, b: Cell, c: Cell)
    requires
        connected(t, k, a, b),
        connected(t, k, b, c),
    ensures
        connected(t, k, a, c),
{
    let p = choose|p: Seq<Cell>| joins(t, k, p, a, b);
    let r = choose|r: Seq<Cell>| joins(t, k, r, b, c);
    let q = p + r.subrange(1, r.len() as int);
    assert forall|i: int| 0 <= i < q.len() implies has_kind(t, #[trigger] q[i], k) by {
        if i < p.len() {
            assert(q[i] == p[i]);
        } else {
            assert(q[i] == r[i - p.len() + 1]);
        }
    }
    assert forall|i: int| 0 < i < q.len() implies #[trigger] path_step(q, i) by {
        if i < p.len() {
            assert(path_step(p, i));
        } else {
            assert(path_step(r, i - p.len() + 1));
        }
    }
    assert(joins(t, k, q, a, c));
}

/// A walk that starts in a closed set stays in it.
proof fn lemma_path_stays(t: Seq<Seq<Terrain>>, k: Terrain, p: Seq<Cell>, s: Set<Cell>, i: int)
    requires
        is_path(t, k, p),
        is_closed(t, k, s),
        s.contains(p[0]),
        0 <= i < p.len(),
    ensures
        s.contains(p[i]),
    decreases i,
{
    if i > 0 {
        lemma_path_stays(t, k, p, s, i - 1);
        assert(path_step(p, i));
        assert(has_kind(t, p[i], k));
    }
}

/// A closed set that holds `a` holds every cell connected to `a`.
pub proof fn lemma_closed_holds_component(t: Seq<Seq<Terrain>>, k: Terrain, a: Cell, s: Set<Cell>)
    requires
        is_closed(t, k, s),
        s.contains(a),
    ensures
        component(t, k, a).subset_of(s),
{
    assert forall|b: Cell| component(t, k, a).contains(b) implies s.contains(b) by {
        let p = choose|p: Seq<Cell>| joins(t, k, p, a, b);
        lemma_path_stays(t, k, p, s, p.len() - 1);
    }
}

/// A component lies within the grid, so it is finite.
pub proof fn lemma_component_finite(t: Seq<Seq<Terrain>>, k: Terrain, a: Cell)
    ensures
        component(t, k, a).subset_of(grid_cells(t.len() as int)),
        component(t, k, a).finite(),
        component(t, k, a).len() <= t.len() * t.len(),
{
    let n = t.len() as int;
    assert forall|b: Cell| component(t, k, a).contains(b) implies grid_cells(n).contains(b) by {
        lemma_connected_kind(t, k, a, b);
    }
    lemma_grid_cells(n);
    vstd::set_lib::lemma_len_subset(component(t, k, a), grid_cells(n));
}

} // verus!

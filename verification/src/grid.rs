//! Cells of a square grid: coordinates, scan order and distances.

use vstd::prelude::*;

verus! {

/// A cell as `(x, y)`: column, then row.
pub type Cell = (int, int);

/// A cell as a program holds it, as `(x, y)`: the place of a settlement, or
/// of any other cell that is handed about.
pub type Slot = (usize, usize);

/// The rows of a grid stored as a vector of rows, each row as a sequence.
pub open spec fn grid_view<T>(g: &Vec<Vec<T>>) -> Seq<Seq<T>> {
    Seq::new(g.len() as nat, |y: int| g[y]@)
}

/// `g` has `n` rows of `n` cells each.
pub open spec fn is_square<T>(g: Seq<Seq<T>>, n: int) -> bool {
    &&& g.len() == n
    &&& forall|y: int| 0 <= y < n ==> (#[trigger] g[y]).len() == n
}

/// A square grid whose cells can be counted in a `usize`.
pub open spec fn is_world_grid<T>(g: Seq<Seq<T>>) -> bool {
    &&& is_square(g, g.len() as int)
    &&& g.len() * g.len() <= usize::MAX
}

/// Reads the cell `(x, y)` of a grid.
pub fn cell_at<T: Copy>(g: &Vec<Vec<T>>, x: usize, y: usize) -> (v: T)
    requires
        y < grid_view(g).len(),
        x < grid_view(g)[y as int].len(),
    ensures
        v == grid_view(g)[y as int][x as int],
{
    g[y][x]
}

/// Writes `v` to the cell `(x, y)` of a grid.
pub fn set_cell<T>(g: &mut Vec<Vec<T>>, x: usize, y: usize, v: T)
    requires
        y < grid_view(old(g)).len(),
        x < grid_view(old(g))[y as int].len(),
    ensures
        grid_view(final(g)) == grid_view(old(g)).update(
            y as int,
            grid_view(old(g))[y as int].update(x as int, v),
        ),
{
    g[y][x] = v;
    assert(grid_view(g) =~= grid_view(old(g)).update(
        y as int,
        grid_view(old(g))[y as int].update(x as int, v),
    ));
}

/// A grid of side `n` that holds `v` in every cell.
pub fn new_grid<T: Copy>(n: usize, v: T) -> (g: Vec<Vec<T>>)
    ensures
        is_square(grid_view(&g), n as int),
        forall|x: int, y: int| 0 <= x < n && 0 <= y < n ==> #[trigger] grid_view(&g)[y][x] == v,
{
    let mut g: Vec<Vec<T>> = Vec::new();
    let mut y: usize = 0;
    while y < n
        invariant
            y <= n,
            g.len() == y,
            forall|j: int| 0 <= j < y ==> (#[trigger] g[j]).len() == n,
            forall|j: int, i: int| 0 <= j < y && 0 <= i < n ==> #[trigger] g[j][i] == v,
        decreases n - y,
    {
        let mut row: Vec<T> = Vec::new();
        let mut x: usize = 0;
        while x < n
            invariant
                x <= n,
                row.len() == x,
                forall|i: int| 0 <= i < x ==> row[i] == v,
            decreases n - x,
        {
            row.push(v);
            x += 1;
        }
        g.push(row);
        y += 1;
    }
    g
}

/// The value that a grid holds at a cell.
pub open spec fn at<T>(g: Seq<Seq<T>>, c: Cell) -> T {
    g[c.1][c.0]
}

/// `c` is a cell of the grid of side `n`.
pub open spec fn in_grid(c: Cell, n: int) -> bool {
    0 <= c.0 < n && 0 <= c.1 < n
}

/// A slot as a cell.
pub open spec fn cell_of(c: Slot) -> Cell {
    (c.0 as int, c.1 as int)
}

/// A list of slots as a list of cells.
pub open spec fn cells_of(s: Seq<Slot>) -> Seq<Cell> {
    s.map_values(|c: Slot| cell_of(c))
}

/// Every slot of the list names a cell that the grid holds. The grid need
/// not be square.
pub open spec fn slots_on_grid<T>(s: Seq<Slot>, g: Seq<Seq<T>>) -> bool {
    forall|i: int| 0 <= i < s.len() ==> (#[trigger] s[i]).1 < g.len() && s[i].0 < g[s[i].1 as int].len()
}

/// Every slot of the list names a cell of the grid of side `n`.
pub open spec fn slots_in_grid(s: Seq<Slot>, n: int) -> bool {
    forall|i: int| 0 <= i < s.len() ==> in_grid(#[trigger] cell_of(s[i]), n)
}

/// `a` and `b` share an edge.
pub open spec fn adjacent(a: Cell, b: Cell) -> bool {
    ||| a.1 == b.1 && (a.0 == b.0 + 1 || b.0 == a.0 + 1)
    ||| a.0 == b.0 && (a.1 == b.1 + 1 || b.1 == a.1 + 1)
}

/// `a` comes strictly before `b` when the grid is read row by row.
pub open spec fn precedes(a: Cell, b: Cell) -> bool {
    a.1 < b.1 || (a.1 == b.1 && a.0 < b.0)
}

/// How far `a` and `b` are apart.
pub open spec fn abs_diff(a: int, b: int) -> int {
    if a >= b { a - b } else { b - a }
}

/// The distance under which a square neighbourhood of radius `r` around `a`
/// is the set of cells at distance at most `r`.
pub open spec fn chebyshev(a: Cell, b: Cell) -> int {
    if abs_diff(a.0, b.0) >= abs_diff(a.1, b.1) { abs_diff(a.0, b.0) } else { abs_diff(a.1, b.1) }
}

/// The position of a cell in row-major order.
pub open spec fn cell_index(c: Cell, n: int) -> int {
    c.1 * n + c.0
}

/// All cells of the grid of side `n`.
pub open spec fn grid_cells(n: int) -> Set<Cell> {
    Set::new(|c: Cell| in_grid(c, n))
}

/// The cells of the grid that the row-major scan meets before `pos`.
pub open spec fn cells_before(pos: Cell, n: int) -> Set<Cell> {
    Set::new(|c: Cell| in_grid(c, n) && precedes(c, pos))
}

/// A scan position: a cell of the grid, the end of a row, or the end of the grid.
pub open spec fn is_scan_pos(pos: Cell, n: int) -> bool {
    ||| 0 <= pos.0 <= n && 0 <= pos.1 < n
    ||| pos.0 == 0 && pos.1 == n && n >= 0
}

/// The end of a row and the start of the next have the same cells before them.
pub proof fn lemma_row_end(y: int, n: int)
    requires
        0 <= y < n,
    ensures
        forall|c: Cell| in_grid(c, n) ==> (precedes(c, (n, y)) <==> precedes(c, (0, y + 1))),
        cells_before((n, y), n) == cells_before((0, y + 1), n),
{
    assert(cells_before((n, y), n) =~= cells_before((0, y + 1), n));
}

/// The scan has met `y * n + x` cells when it stands at `(x, y)`.
pub proof fn lemma_cells_before(pos: Cell, n: int)
    requires
        is_scan_pos(pos, n),
    ensures
        cells_before(pos, n).finite(),
        cells_before(pos, n).len() == pos.1 * n + pos.0,
    decreases pos.1, pos.0,
{
    if pos.0 > 0 {
        let prev = (pos.0 - 1, pos.1);
        lemma_cells_before(prev, n);
        assert(cells_before(pos, n) =~= cells_before(prev, n).insert(prev));
    } else if pos.1 > 0 {
        let prev = (n, pos.1 - 1);
        lemma_cells_before(prev, n);
        lemma_row_end(pos.1 - 1, n);
        assert((pos.1 - 1) * n + n == pos.1 * n) by (nonlinear_arith);
    } else {
        assert(cells_before(pos, n) =~= Set::<Cell>::empty());
        assert(pos.1 * n == 0) by (nonlinear_arith)
            requires
                pos.1 == 0,
        ;
    }
}

/// A grid of side `n` has `n * n` cells.
pub proof fn lemma_grid_cells(n: int)
    requires
        n >= 0,
    ensures
        grid_cells(n).finite(),
        grid_cells(n).len() == n * n,
{
    lemma_cells_before((0, n), n);
    assert(grid_cells(n) =~= cells_before((0, n), n));
}

/// Distinct cells of the grid have distinct row-major positions, all below `n * n`.
pub proof fn lemma_cell_index(a: Cell, b: Cell, n: int)
    requires
        in_grid(a, n),
        in_grid(b, n),
    ensures
        0 <= cell_index(a, n) < n * n,
        cell_index(a, n) == cell_index(b, n) ==> a == b,
{
    assert(0 <= a.1 * n + a.0 < n * n) by (nonlinear_arith)
        requires
            0 <= a.0 < n,
            0 <= a.1 < n,
    ;
    assert(a.1 * n + a.0 == b.1 * n + b.0 ==> a.1 == b.1) by (nonlinear_arith)
        requires
            0 <= a.0 < n,
            0 <= a.1 < n,
            0 <= b.0 < n,
            0 <= b.1 < n,
    ;
}

/// The part of `0..n` within `spacing` of `v`: from the first bound up to,
/// but not including, the second.
pub fn window_bounds(v: usize, spacing: usize, n: usize) -> (bounds: (usize, usize))
    ensures
        bounds.0 == (if v >= spacing { v - spacing } else { 0 }),
        bounds.1 == (if v + spacing + 1 <= n { v + spacing + 1 } else { n as int }),
{
    let lo = if v >= spacing { v - spacing } else { 0 };
    let hi = if v < n && spacing < n - v { v + spacing + 1 } else { n };
    (lo, hi)
}

/// The square of the distance from `c` to the centre cell of a grid of side `n`.
pub open spec fn center_dist_sq(c: Cell, n: int) -> int {
    (c.0 - n / 2) * (c.0 - n / 2) + (c.1 - n / 2) * (c.1 - n / 2)
}

/// A grid whose cells can be counted in a `usize` has a side below 2^32.
pub proof fn lemma_side_bound(n: int)
    requires
        0 <= n,
        n * n <= usize::MAX,
    ensures
        n < 0x1_0000_0000,
{
    if n >= 0x1_0000_0000 {
        assert(n * n >= 0x1_0000_0000 * 0x1_0000_0000) by (nonlinear_arith)
            requires
                n >= 0x1_0000_0000,
        ;
    }
}

/// Computes the square of the distance from `(x, y)` to the centre of the grid.
pub fn center_distance_sq(x: usize, y: usize, n: usize) -> (d: u128)
    requires
        x < n,
        y < n,
        n * n <= usize::MAX,
    ensures
        d == center_dist_sq((x as int, y as int), n as int),
{
    let center = n / 2;
    let dx: u128 = if x >= center { (x - center) as u128 } else { (center - x) as u128 };
    let dy: u128 = if y >= center { (y - center) as u128 } else { (center - y) as u128 };
    proof {
        lemma_side_bound(n as int);
        assert(dx * dx < 0x1_0000_0000_0000_0000) by (nonlinear_arith)
            requires
                0 <= dx < 0x1_0000_0000,
        ;
        assert(dy * dy < 0x1_0000_0000_0000_0000) by (nonlinear_arith)
            requires
                0 <= dy < 0x1_0000_0000,
        ;
        assert(dx * dx == (x - n / 2) * (x - n / 2)) by (nonlinear_arith)
            requires
                dx == x - n / 2 || dx == n / 2 - x,
        ;
        assert(dy * dy == (y - n / 2) * (y - n / 2)) by (nonlinear_arith)
            requires
                dy == y - n / 2 || dy == n / 2 - y,
        ;
    }
    dx * dx + dy * dy
}

/// Tells whether a distance in cells, given by its square, is at most a
/// radius given in tenths of a cell.
pub fn within_radius(dist_sq: u128, radius_tenths: usize) -> (r: bool)
    ensures
        r == (100 * dist_sq <= radius_tenths * radius_tenths),
{
    let big: u128 = radius_tenths as u128;
    assert(big * big <= 0xffff_ffff_ffff_ffff * 0xffff_ffff_ffff_ffff) by (nonlinear_arith)
        requires
            0 <= big <= 0xffff_ffff_ffff_ffff,
    ;
    // 100 * dist_sq <= square exactly when dist_sq <= square / 100
    dist_sq <= big * big / 100
}

/// Tells whether a distance in cells, given by its square, is more than
/// eleven tenths of a radius given in tenths of a cell.
pub fn beyond_far_radius(dist_sq: u128, radius_tenths: usize) -> (r: bool)
    ensures
        r == (10_000 * dist_sq > 121 * (radius_tenths * radius_tenths)),
{
    let big: u128 = radius_tenths as u128;
    assert(big * big <= 0xffff_ffff_ffff_ffff * 0xffff_ffff_ffff_ffff) by (nonlinear_arith)
        requires
            0 <= big <= 0xffff_ffff_ffff_ffff,
    ;
    // 10_000 * dist_sq > 121 * square exactly when dist_sq > 121 * square / 10_000
    let square = big * big;
    let whole = square / 10_000;
    let rest = square % 10_000;
    dist_sq > 121 * whole + 121 * rest / 10_000
}

} // verus!

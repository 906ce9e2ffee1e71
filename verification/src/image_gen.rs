//! Tiles: the grid cut into square chunks, each drawn on a raster of its own.

use vstd::prelude::*;
use crate::grid::{
    Slot, abs_diff, in_grid, cell_of, cell_index, grid_cells, window_bounds, lemma_grid_cells,
    lemma_cell_index,
};

verus! {

/// A colour as red, green and blue.
pub type Color = (u8, u8, u8);

/// A pixel as `(x, y)`: column, then row.
pub type Pixel = (int, int);

/// Radius of the disc that marks a settlement, in pixels.
pub const MARKER_RADIUS: usize = 3;

/// Colour of the disc that marks a settlement.
pub const CITY_SLOT_COLOR: Color = (255, 0, 0);

/// An RGB image of 8 bits per channel, kept in an `image::RgbImage`. Its
/// size is `raster_dims`, and the colours of its pixels are `raster_pixels`.
#[verifier::external_body]
pub struct Raster {
    inner: image::RgbImage,
}

/// Width and height of a raster, in pixels.
pub uninterp spec fn raster_dims(img: Raster) -> (int, int);

/// The colour of each pixel of a raster.
pub uninterp spec fn raster_pixels(img: Raster) -> Map<Pixel, Color>;

/// The pixel `p` lies on a raster of the given width and height.
pub open spec fn in_bounds(p: Pixel, dims: (int, int)) -> bool {
    0 <= p.0 < dims.0 && 0 <= p.1 < dims.1
}

/// A raster holds a colour for each pixel within its bounds, and for no other.
pub open spec fn is_raster(img: Raster) -> bool {
    &&& 0 <= raster_dims(img).0 <= u32::MAX
    &&& 0 <= raster_dims(img).1 <= u32::MAX
    &&& forall|p: Pixel| #[trigger] raster_pixels(img).dom().contains(p) <==> in_bounds(p, raster_dims(img))
}

/// The place of one channel of one pixel in the bytes of a raster: rows from
/// the top, pixels from the left, three bytes to a pixel.
pub open spec fn byte_index(p: Pixel, width: int, channel: int) -> int {
    (p.1 * width + p.0) * 3 + channel
}

/// One channel of a colour: 0 for red, 1 for green, 2 for blue.
pub open spec fn channel_of(c: Color, channel: int) -> u8 {
    if channel == 0 {
        c.0
    } else if channel == 1 {
        c.1
    } else {
        c.2
    }
}

/// `image::ImageBuffer::new`: a buffer of the given size in which every
/// channel of every pixel is zero. It panics where the buffer would need more
/// bytes than a vector can hold, which the precondition rules out.
#[verifier::external_body]
fn raster_new(width: u32, height: u32) -> (img: Raster)
    requires
        3 * width * height <= isize::MAX,
    ensures
        raster_dims(img) == (width as int, height as int),
        raster_pixels(img) == Map::new(
            |p: Pixel| in_bounds(p, (width as int, height as int)),
            |p: Pixel| (0u8, 0u8, 0u8),
        ),
{
    Raster { inner: image::RgbImage::new(width, height) }
}

/// `image::ImageBuffer::width`.
#[verifier::external_body]
fn raster_width(img: &Raster) -> (width: u32)
    ensures
        width == raster_dims(*img).0,
{
    img.inner.width()
}

/// `image::ImageBuffer::height`.
#[verifier::external_body]
fn raster_height(img: &Raster) -> (height: u32)
    ensures
        height == raster_dims(*img).1,
{
    img.inner.height()
}

/// `image::ImageBuffer::put_pixel`: sets one pixel and leaves the others and
/// the size as they are. It panics on a pixel out of bounds, which the
/// precondition rules out.
#[verifier::external_body]
fn raster_put(img: &mut Raster, x: u32, y: u32, color: Color)
    requires
        in_bounds((x as int, y as int), raster_dims(*old(img))),
    ensures
        raster_dims(*final(img)) == raster_dims(*old(img)),
        raster_pixels(*final(img)) == raster_pixels(*old(img)).insert((x as int, y as int), color),
{
    img.inner.put_pixel(x, y, image::Rgb([color.0, color.1, color.2]));
}

/// `image::ImageBuffer::into_raw`: the bytes of the buffer, three to a pixel
/// in the order red, green, blue, pixel after pixel along each row, row after
/// row. A raster is made by `raster_new` only, which gives the buffer three
/// bytes for each pixel and no more.
#[verifier::external_body]
fn raster_into_raw(img: Raster) -> (bytes: Vec<u8>)
    ensures
        bytes@.len() == raster_dims(img).0 * raster_dims(img).1 * 3,
        forall|p: Pixel, channel: int|
            in_bounds(p, raster_dims(img)) && 0 <= channel < 3 ==> bytes@[#[trigger] byte_index(
                p,
                raster_dims(img).0,
                channel,
            )] == channel_of(raster_pixels(img)[p], channel),
{
    img.inner.into_raw()
}

/// A black raster of the given size.
pub fn blank_raster(width: u32, height: u32) -> (img: Raster)
    requires
        3 * width * height <= isize::MAX,
    ensures
        is_raster(img),
        raster_dims(img) == (width as int, height as int),
        forall|p: Pixel| in_bounds(p, raster_dims(img)) ==> #[trigger] raster_pixels(img)[p] == (0u8, 0u8, 0u8),
{
    raster_new(width, height)
}

/// The bytes of a raster, as an image file holds them: three to a pixel in
/// the order red, green, blue, pixel after pixel along each row, row after row.
pub fn raster_bytes(img: Raster) -> (bytes: Vec<u8>)
    requires
        is_raster(img),
    ensures
        bytes@.len() == raster_dims(img).0 * raster_dims(img).1 * 3,
        forall|p: Pixel, channel: int|
            in_bounds(p, raster_dims(img)) && 0 <= channel < 3 ==> bytes@[#[trigger] byte_index(
                p,
                raster_dims(img).0,
                channel,
            )] == channel_of(raster_pixels(img)[p], channel),
{
    raster_into_raw(img)
}

/// The pixel `p` lies on the disc of radius `radius` around `c`.
pub open spec fn in_disc(p: Pixel, c: Pixel, radius: int) -> bool {
    abs_diff(p.0, c.0) * abs_diff(p.0, c.0) + abs_diff(p.1, c.1) * abs_diff(p.1, c.1) <= radius * radius
}

/// A disc lies within the square of its radius.
pub proof fn lemma_disc_in_square(p: Pixel, c: Pixel, radius: int)
    requires
        radius >= 0,
        in_disc(p, c, radius),
    ensures
        abs_diff(p.0, c.0) <= radius,
        abs_diff(p.1, c.1) <= radius,
{
    let dx = abs_diff(p.0, c.0);
    let dy = abs_diff(p.1, c.1);
    assert(dx <= radius && dy <= radius) by (nonlinear_arith)
        requires
            dx >= 0,
            dy >= 0,
            radius >= 0,
            dx * dx + dy * dy <= radius * radius,
    ;
}

/// Tells whether `(px, py)` lies on the marker disc around `(cx, cy)`, for a
/// pixel within the square of the disc.
fn on_marker(px: usize, py: usize, cx: usize, cy: usize) -> (on: bool)
    requires
        abs_diff(px as int, cx as int) <= MARKER_RADIUS,
        abs_diff(py as int, cy as int) <= MARKER_RADIUS,
    ensures
        on == in_disc((px as int, py as int), (cx as int, cy as int), MARKER_RADIUS as int),
{
    let dx = if px >= cx { px - cx } else { cx - px };
    let dy = if py >= cy { py - cy } else { cy - py };
    assert(dx * dx <= 9 && dy * dy <= 9) by (nonlinear_arith)
        requires
            0 <= dx <= 3,
            0 <= dy <= 3,
    ;
    dx * dx + dy * dy <= MARKER_RADIUS * MARKER_RADIUS
}

/// Draws the marker of a settlement: a filled disc of radius `MARKER_RADIUS`
/// around `(cx, cy)`, cut off where the raster ends.
#[verifier::loop_isolation(false)]
pub fn draw_city_circle(img: &mut Raster, cx: usize, cy: usize, color: Color)
    requires
        is_raster(*old(img)),
    ensures
        is_raster(*final(img)),
        raster_dims(*final(img)) == raster_dims(*old(img)),
        forall|p: Pixel|
            in_bounds(p, raster_dims(*old(img))) ==> #[trigger] raster_pixels(*final(img))[p] == (if in_disc(
                p,
                (cx as int, cy as int),
                MARKER_RADIUS as int,
            ) {
                color
            } else {
                raster_pixels(*old(img))[p]
            }),
{
    let width = raster_width(img) as usize;
    let height = raster_height(img) as usize;
    let (x_start, x_end) = window_bounds(cx, MARKER_RADIUS, width);
    let (y_start, y_end) = window_bounds(cy, MARKER_RADIUS, height);
    let ghost c: Pixel = (cx as int, cy as int);
    let ghost radius = MARKER_RADIUS as int;
    let ghost before = raster_pixels(*img);
    let ghost dims = raster_dims(*img);
    proof {
        assert forall|p: Pixel| in_bounds(p, dims) && in_disc(p, c, radius) implies x_start <= p.0 < x_end
            && y_start <= p.1 < y_end by {
            lemma_disc_in_square(p, c, radius);
        }
    }
    let mut py = y_start;
    while py < y_end
        invariant
            y_start <= py,
            is_raster(*img),
            raster_dims(*img) == dims,
            forall|p: Pixel|
                in_bounds(p, dims) ==> #[trigger] raster_pixels(*img)[p] == (if in_disc(p, c, radius) && p.1 < py {
                    color
                } else {
                    before[p]
                }),
        decreases y_end - py,
    {
        let mut px = x_start;
        while px < x_end
            invariant
                x_start <= px,
                py < y_end,
                is_raster(*img),
                raster_dims(*img) == dims,
                forall|p: Pixel|
                    in_bounds(p, dims) ==> #[trigger] raster_pixels(*img)[p] == (if in_disc(p, c, radius) && (p.1
                        < py || (p.1 == py && p.0 < px)) {
                        color
                    } else {
                        before[p]
                    }),
            decreases x_end - px,
        {
            if on_marker(px, py, cx, cy) {
                raster_put(img, px as u32, py as u32, color);
            }
            px += 1;
        }
        py += 1;
    }
}


/// The chunk that holds the cell `c`, as `(column, row)` of chunks.
pub open spec fn chunk_of(c: (int, int), chunk_size: int) -> (int, int) {
    (c.0 / chunk_size, c.1 / chunk_size)
}

/// The cell `c` lies in the chunk `chunk`: a square of side `chunk_size`
/// whose first cell is `chunk` times `chunk_size`.
pub open spec fn in_chunk(c: (int, int), chunk: (int, int), chunk_size: int) -> bool {
    &&& chunk.0 * chunk_size <= c.0 < (chunk.0 + 1) * chunk_size
    &&& chunk.1 * chunk_size <= c.1 < (chunk.1 + 1) * chunk_size
}

/// Along one axis: `v` lies in the `k`-th stretch of `chunk_size` cells
/// exactly when `v / chunk_size` is `k`.
proof fn lemma_chunk_of_axis(v: int, k: int, chunk_size: int)
    requires
        chunk_size > 0,
    ensures
        (k * chunk_size <= v < (k + 1) * chunk_size) <==> v / chunk_size == k,
{
    vstd::arithmetic::div_mod::lemma_fundamental_div_mod(v, chunk_size);
    vstd::arithmetic::div_mod::lemma_mod_bound(v, chunk_size);
    let q = v / chunk_size;
    assert((k + 1) * chunk_size == k * chunk_size + chunk_size) by (nonlinear_arith);
    assert((q + 1) * chunk_size == q * chunk_size + chunk_size) by (nonlinear_arith);
    assert(chunk_size * q == q * chunk_size) by (nonlinear_arith);
    if k * chunk_size <= v < (k + 1) * chunk_size {
        if q < k {
            assert((q + 1) * chunk_size <= k * chunk_size) by (nonlinear_arith)
                requires
                    q + 1 <= k,
                    chunk_size > 0,
            ;
        }
        if q > k {
            assert((k + 1) * chunk_size <= q * chunk_size) by (nonlinear_arith)
                requires
                    k + 1 <= q,
                    chunk_size > 0,
            ;
        }
    }
}

/// A cell lies in the chunk that `chunk_of` names, and in no other.
pub proof fn lemma_chunk_of(c: (int, int), chunk: (int, int), chunk_size: int)
    requires
        chunk_size > 0,
    ensures
        in_chunk(c, chunk, chunk_size) <==> chunk_of(c, chunk_size) == chunk,
{
    lemma_chunk_of_axis(c.0, chunk.0, chunk_size);
    lemma_chunk_of_axis(c.1, chunk.1, chunk_size);
}

/// Where the chunk size divides the side of the grid, the chunks cut the grid
/// into `(n / chunk_size)` squared parts: each cell of the grid lies in one
/// chunk and in one only, and each chunk lies within the grid.
pub proof fn lemma_chunks_partition(n: int, chunk_size: int)
    requires
        chunk_size > 0,
        n >= 0,
        n % chunk_size == 0,
    ensures
        forall|c: (int, int)|
            in_grid(c, n) ==> in_grid(#[trigger] chunk_of(c, chunk_size), n / chunk_size) && in_chunk(
                c,
                chunk_of(c, chunk_size),
                chunk_size,
            ),
        forall|c: (int, int), chunk: (int, int)|
            in_grid(chunk, n / chunk_size) && #[trigger] in_chunk(c, chunk, chunk_size) ==> in_grid(c, n),
        forall|c: (int, int), a: (int, int), b: (int, int)|
            #[trigger] in_chunk(c, a, chunk_size) && #[trigger] in_chunk(c, b, chunk_size) ==> a == b,
        grid_cells(n / chunk_size).finite(),
        grid_cells(n / chunk_size).len() == (n / chunk_size) * (n / chunk_size),
{
    let k = n / chunk_size;
    vstd::arithmetic::div_mod::lemma_fundamental_div_mod(n, chunk_size);
    assert(n == k * chunk_size) by (nonlinear_arith)
        requires
            n == chunk_size * k + n % chunk_size,
            n % chunk_size == 0,
    ;
    assert(k >= 0) by (nonlinear_arith)
        requires
            n == k * chunk_size,
            n >= 0,
            chunk_size > 0,
    ;
    assert forall|c: (int, int)| in_grid(c, n) implies in_grid(#[trigger] chunk_of(c, chunk_size), k)
        && in_chunk(c, chunk_of(c, chunk_size), chunk_size) by {
        let chunk = chunk_of(c, chunk_size);
        lemma_chunk_of(c, chunk, chunk_size);
        assert(chunk.0 < k && chunk.1 < k && chunk.0 >= 0 && chunk.1 >= 0) by (nonlinear_arith)
            requires
                n == k * chunk_size,
                chunk_size > 0,
                0 <= c.0 < n,
                0 <= c.1 < n,
                chunk.0 * chunk_size <= c.0 < (chunk.0 + 1) * chunk_size,
                chunk.1 * chunk_size <= c.1 < (chunk.1 + 1) * chunk_size,
        ;
    }
    assert forall|c: (int, int), chunk: (int, int)|
        in_grid(chunk, k) && #[trigger] in_chunk(c, chunk, chunk_size) implies in_grid(c, n) by {
        assert(0 <= c.0 < n && 0 <= c.1 < n) by (nonlinear_arith)
            requires
                n == k * chunk_size,
                chunk_size > 0,
                0 <= chunk.0 < k,
                0 <= chunk.1 < k,
                chunk.0 * chunk_size <= c.0 < (chunk.0 + 1) * chunk_size,
                chunk.1 * chunk_size <= c.1 < (chunk.1 + 1) * chunk_size,
        ;
    }
    assert forall|c: (int, int), a: (int, int), b: (int, int)|
        #[trigger] in_chunk(c, a, chunk_size) && #[trigger] in_chunk(c, b, chunk_size) implies a == b by {
        lemma_chunk_of(c, a, chunk_size);
        lemma_chunk_of(c, b, chunk_size);
    }
    lemma_grid_cells(k);
}

/// The cell that the pixel `p` of the chunk `chunk` shows.
pub open spec fn cell_under(chunk: (int, int), p: Pixel, chunk_size: int) -> (int, int) {
    (chunk.0 * chunk_size + p.0, chunk.1 * chunk_size + p.1)
}

/// Where the chunk size divides the side of the grid, each cell of the grid
/// is drawn once: in the chunk `chunk_of` names, at the pixel that is the
/// rest of the division of its coordinates by the chunk size, and at no other
/// pixel of any chunk. That chunk ends within the grid.
pub proof fn lemma_cell_drawn_once(n: int, chunk_size: int, c: (int, int))
    requires
        chunk_size > 0,
        n >= 0,
        n % chunk_size == 0,
        in_grid(c, n),
    ensures
        in_grid(chunk_of(c, chunk_size), n / chunk_size),
        (chunk_of(c, chunk_size).0 + 1) * chunk_size <= n,
        (chunk_of(c, chunk_size).1 + 1) * chunk_size <= n,
        in_bounds((c.0 % chunk_size, c.1 % chunk_size), (chunk_size, chunk_size)),
        cell_under(chunk_of(c, chunk_size), (c.0 % chunk_size, c.1 % chunk_size), chunk_size) == c,
        forall|chunk: (int, int), p: Pixel|
            in_bounds(p, (chunk_size, chunk_size)) && #[trigger] cell_under(chunk, p, chunk_size) == c ==> chunk
                == chunk_of(c, chunk_size) && p == (c.0 % chunk_size, c.1 % chunk_size),
{
    let home = chunk_of(c, chunk_size);
    lemma_chunks_partition(n, chunk_size);
    lemma_chunk_of(c, home, chunk_size);
    vstd::arithmetic::div_mod::lemma_fundamental_div_mod(c.0, chunk_size);
    vstd::arithmetic::div_mod::lemma_fundamental_div_mod(c.1, chunk_size);
    vstd::arithmetic::div_mod::lemma_mod_bound(c.0, chunk_size);
    vstd::arithmetic::div_mod::lemma_mod_bound(c.1, chunk_size);
    vstd::arithmetic::div_mod::lemma_fundamental_div_mod(n, chunk_size);
    let k = n / chunk_size;
    assert(chunk_size * home.0 == home.0 * chunk_size) by (nonlinear_arith);
    assert(chunk_size * home.1 == home.1 * chunk_size) by (nonlinear_arith);
    assert((home.0 + 1) * chunk_size <= n && (home.1 + 1) * chunk_size <= n) by (nonlinear_arith)
        requires
            n == chunk_size * k + n % chunk_size,
            n % chunk_size == 0,
            chunk_size > 0,
            0 <= home.0 < k,
            0 <= home.1 < k,
    ;
    assert forall|chunk: (int, int), p: Pixel|
        in_bounds(p, (chunk_size, chunk_size)) && #[trigger] cell_under(chunk, p, chunk_size) == c implies chunk
            == home && p == (c.0 % chunk_size, c.1 % chunk_size) by {
        assert((chunk.0 + 1) * chunk_size == chunk.0 * chunk_size + chunk_size) by (nonlinear_arith);
        assert((chunk.1 + 1) * chunk_size == chunk.1 * chunk_size + chunk_size) by (nonlinear_arith);
        assert(in_chunk(c, chunk, chunk_size));
        lemma_chunk_of(c, chunk, chunk_size);
    }
}

/// The number of whole chunks along one side of a grid of side `n`.
pub fn chunks_per_side(n: usize, chunk_size: usize) -> (count: usize)
    requires
        chunk_size > 0,
    ensures
        count == n / chunk_size,
{
    n / chunk_size
}

/// Lists every chunk of a grid with `per_side` chunks along each side, as
/// `(column, row)`: row after row, each chunk once.
pub fn chunk_coords(per_side: usize) -> (chunks: Vec<(usize, usize)>)
    requires
        per_side * per_side <= usize::MAX,
    ensures
        chunks.len() == per_side * per_side,
        forall|i: int|
            0 <= i < chunks.len() ==> in_grid(#[trigger] cell_of(chunks[i]), per_side as int) && cell_index(
                cell_of(chunks[i]),
                per_side as int,
            ) == i,
        forall|chunk: (int, int)|
            in_grid(chunk, per_side as int) ==> cell_of(#[trigger] chunks[cell_index(chunk, per_side as int)])
                == chunk,
{
    let mut chunks: Vec<(usize, usize)> = Vec::new();
    let mut cy: usize = 0;
    while cy < per_side
        invariant
            cy <= per_side,
            per_side * per_side <= usize::MAX,
            chunks.len() == cy * per_side,
            forall|i: int|
                0 <= i < chunks.len() ==> in_grid(#[trigger] cell_of(chunks[i]), per_side as int) && cell_index(
                    cell_of(chunks[i]),
                    per_side as int,
                ) == i,
        decreases per_side - cy,
    {
        let mut cx: usize = 0;
        while cx < per_side
            invariant
                cx <= per_side,
                cy < per_side,
                per_side * per_side <= usize::MAX,
                chunks.len() == cy * per_side + cx,
                forall|i: int|
                    0 <= i < chunks.len() ==> in_grid(#[trigger] cell_of(chunks[i]), per_side as int)
                        && cell_index(cell_of(chunks[i]), per_side as int) == i,
            decreases per_side - cx,
        {
            chunks.push((cx, cy));
            cx += 1;
        }
        assert(cy * per_side + per_side == (cy + 1) * per_side) by (nonlinear_arith);
        cy += 1;
    }
    proof {
        assert forall|chunk: (int, int)| in_grid(chunk, per_side as int) implies cell_of(
            #[trigger] chunks[cell_index(chunk, per_side as int)],
        ) == chunk by {
            lemma_cell_index(chunk, chunk, per_side as int);
            let at = cell_index(chunk, per_side as int);
            lemma_cell_index(cell_of(chunks[at]), chunk, per_side as int);
        }
    }
    chunks
}

/// A chunk without settlements shows no marker.
pub proof fn lemma_no_cities_no_marker(p: Pixel, origin: (int, int))
    ensures
        !on_some_marker(p, Seq::<Slot>::empty(), origin),
{
}

/// Where there are no settlements, no chunk holds one.
pub proof fn lemma_no_slots_no_chunk_slots(chunk: (int, int), chunk_size: int)
    ensures
        chunk_slots(Seq::<Slot>::empty(), chunk, chunk_size) == Seq::<Slot>::empty(),
{
    reveal(Seq::filter);
}

/// The test that a slot lies in the chunk `chunk`.
pub open spec fn slot_in_chunk(chunk: (int, int), chunk_size: int) -> spec_fn(Slot) -> bool {
    |s: Slot| chunk_of(cell_of(s), chunk_size) == chunk
}

/// The slots that lie in one chunk, in the order of `slots`.
pub open spec fn chunk_slots(slots: Seq<Slot>, chunk: (int, int), chunk_size: int) -> Seq<Slot> {
    slots.filter(slot_in_chunk(chunk, chunk_size))
}

/// Sorts the slots by the chunk they lie in, so that drawing a chunk need not
/// look through all of them. The list of the chunk in column `cx` and row
/// `cy` stands at `cy * per_side + cx`; slots beyond the last whole chunk are
/// on no list.
pub fn group_cities_by_chunk(city_slots: &Vec<(usize, usize)>, chunk_size: usize, per_side: usize) -> (groups:
    Vec<Vec<(usize, usize)>>)
    requires
        chunk_size > 0,
        per_side * per_side <= usize::MAX,
    ensures
        groups.len() == per_side * per_side,
        forall|chunk: (int, int)|
            in_grid(chunk, per_side as int) ==> (#[trigger] groups[cell_index(chunk, per_side as int)])@
                == chunk_slots(city_slots@, chunk, chunk_size as int),
{
    let total = per_side * per_side;
    let ghost all = city_slots@;
    let ghost side = per_side as int;
    let ghost size = chunk_size as int;
    let mut groups: Vec<Vec<(usize, usize)>> = Vec::new();
    let mut i: usize = 0;
    while i < total
        invariant
            i <= total,
            groups.len() == i,
            forall|j: int| 0 <= j < i ==> (#[trigger] groups[j])@ == Seq::<Slot>::empty(),
        decreases total - i,
    {
        groups.push(Vec::new());
        i += 1;
    }
    let mut k: usize = 0;
    proof {
        reveal(Seq::filter);
        assert(all.take(0) =~= Seq::<Slot>::empty());
        assert forall|chunk: (int, int)| in_grid(chunk, side) implies (#[trigger] groups[cell_index(chunk, side)])@
            == chunk_slots(all.take(0), chunk, size) by {
            lemma_cell_index(chunk, chunk, side);
        }
    }
    while k < city_slots.len()
        invariant
            0 <= k <= city_slots.len(),
            all == city_slots@,
            side == per_side,
            size == chunk_size,
            chunk_size > 0,
            total == per_side * per_side,
            groups.len() == total,
            forall|chunk: (int, int)|
                in_grid(chunk, side) ==> (#[trigger] groups[cell_index(chunk, side)])@ == chunk_slots(
                    all.take(k as int),
                    chunk,
                    size,
                ),
        decreases city_slots.len() - k,
    {
        let (x, y) = city_slots[k];
        let chunk_x = x / chunk_size;
        let chunk_y = y / chunk_size;
        let ghost slot = (x, y);
        let ghost seen = all.take(k as int);
        let ghost more = all.take(k + 1);
        let ghost home: (int, int) = (chunk_x as int, chunk_y as int);
        let ghost groups_before = groups@;
        proof {
            assert(more =~= seen.push(slot));
            assert(home == chunk_of(cell_of(slot), size));
            assert forall|chunk: (int, int)| true implies #[trigger] chunk_slots(more, chunk, size) == (if chunk
                == home {
                chunk_slots(seen, chunk, size).push(slot)
            } else {
                chunk_slots(seen, chunk, size)
            }) by {
                seen.lemma_filter_push(slot, slot_in_chunk(chunk, size));
            }
        }
        if chunk_x < per_side && chunk_y < per_side {
            proof {
                lemma_cell_index(home, home, side);
            }
            let at = chunk_y * per_side + chunk_x;
            groups[at].push((x, y));
            proof {
                assert forall|chunk: (int, int)| in_grid(chunk, side) implies (#[trigger] groups[cell_index(
                    chunk,
                    side,
                )])@ == chunk_slots(more, chunk, size) by {
                    lemma_cell_index(chunk, home, side);
                    if chunk != home {
                        assert(groups[cell_index(chunk, side)] == groups_before[cell_index(chunk, side)]);
                    }
                }
            }
        }
        k += 1;
    }
    assert(all.take(k as int) =~= all);
    groups
}


/// Where the marker of a settlement stands on the raster of the chunk whose
/// first cell is `origin`.
pub open spec fn marker_center(city: Slot, origin: (int, int)) -> Pixel {
    (city.0 - origin.0, city.1 - origin.1)
}

/// The marker of one of the settlements covers the pixel `p`.
pub open spec fn on_some_marker(p: Pixel, cities: Seq<Slot>, origin: (int, int)) -> bool {
    exists|i: int|
        0 <= i < cities.len() && in_disc(p, marker_center(#[trigger] cities[i], origin), MARKER_RADIUS as int)
}

/// The first cell of a chunk.
pub open spec fn chunk_origin(chunk: (int, int), chunk_size: int) -> (int, int) {
    (chunk.0 * chunk_size, chunk.1 * chunk_size)
}

/// `img` is the picture of a chunk: a square of `chunk_size` pixels a side,
/// in which a pixel under the marker of a settlement has the marker's colour
/// and every other pixel a colour that `color_at` gives for the cell under it.
pub open spec fn is_chunk_image<F: Fn(usize, usize) -> Color>(
    img: Raster,
    chunk: (int, int),
    chunk_size: int,
    cities: Seq<Slot>,
    color_at: F,
) -> bool {
    &&& is_raster(img)
    &&& raster_dims(img) == (chunk_size, chunk_size)
    &&& forall|p: Pixel|
        in_bounds(p, raster_dims(img)) ==> (if on_some_marker(p, cities, chunk_origin(chunk, chunk_size)) {
            #[trigger] raster_pixels(img)[p] == CITY_SLOT_COLOR
        } else {
            color_at.ensures(
                (cell_under(chunk, p, chunk_size).0 as usize, cell_under(chunk, p, chunk_size).1 as usize),
                raster_pixels(img)[p],
            )
        })
}

/// The picture of a chunk without settlements shows no marker: every pixel
/// has a colour that `color_at` gives for the cell under it.
pub proof fn lemma_chunk_without_settlements<F: Fn(usize, usize) -> Color>(
    img: Raster,
    chunk: (int, int),
    chunk_size: int,
    color_at: F,
    p: Pixel,
)
    requires
        is_chunk_image(img, chunk, chunk_size, Seq::<Slot>::empty(), color_at),
        in_bounds(p, (chunk_size, chunk_size)),
    ensures
        color_at.ensures(
            (cell_under(chunk, p, chunk_size).0 as usize, cell_under(chunk, p, chunk_size).1 as usize),
            raster_pixels(img)[p],
        ),
{
    lemma_no_cities_no_marker(p, chunk_origin(chunk, chunk_size));
    assert(in_bounds(p, raster_dims(img)));
}

/// Draws one chunk: each pixel gets the colour that `color_at` gives for the
/// cell under it, and then the marker of each settlement of the chunk is
/// drawn over it. A chunk reads nothing but its own cells, so chunks can be
/// drawn in any order, or side by side.
pub fn render_chunk<F: Fn(usize, usize) -> Color>(
    chunk_x: usize,
    chunk_y: usize,
    chunk_size: usize,
    cities: &Vec<(usize, usize)>,
    color_at: F,
) -> (img: Raster)
    requires
        chunk_size <= u32::MAX,
        3 * chunk_size * chunk_size <= isize::MAX,
        (chunk_x + 1) * chunk_size <= usize::MAX,
        (chunk_y + 1) * chunk_size <= usize::MAX,
        forall|i: int|
            0 <= i < cities.len() ==> in_chunk(
                #[trigger] cell_of(cities[i]),
                (chunk_x as int, chunk_y as int),
                chunk_size as int,
            ),
        forall|x: usize, y: usize|
            in_chunk((x as int, y as int), (chunk_x as int, chunk_y as int), chunk_size as int)
                ==> #[trigger] color_at.requires((x, y)),
    ensures
        is_chunk_image(img, (chunk_x as int, chunk_y as int), chunk_size as int, cities@, color_at),
{
    proof {
        assert(chunk_x * chunk_size + chunk_size == (chunk_x + 1) * chunk_size) by (nonlinear_arith);
        assert(chunk_y * chunk_size + chunk_size == (chunk_y + 1) * chunk_size) by (nonlinear_arith);
        assert(chunk_x * chunk_size >= 0 && chunk_y * chunk_size >= 0) by (nonlinear_arith)
            requires
                chunk_x >= 0,
                chunk_y >= 0,
                chunk_size >= 0,
        ;
    }
    let x0 = chunk_x * chunk_size;
    let y0 = chunk_y * chunk_size;
    let side = chunk_size as u32;
    let ghost dims = (chunk_size as int, chunk_size as int);
    let ghost origin = (x0 as int, y0 as int);
    let mut img = blank_raster(side, side);
    let mut iy: usize = 0;
    while iy < chunk_size
        invariant
            iy <= chunk_size,
            chunk_size <= u32::MAX,
            x0 == chunk_x * chunk_size,
            y0 == chunk_y * chunk_size,
            x0 + chunk_size == (chunk_x + 1) * chunk_size,
            y0 + chunk_size == (chunk_y + 1) * chunk_size,
            x0 + chunk_size <= usize::MAX,
            y0 + chunk_size <= usize::MAX,
            is_raster(img),
            raster_dims(img) == dims,
            dims == (chunk_size as int, chunk_size as int),
            forall|x: usize, y: usize|
                in_chunk((x as int, y as int), (chunk_x as int, chunk_y as int), chunk_size as int)
                    ==> #[trigger] color_at.requires((x, y)),
            forall|p: Pixel|
                in_bounds(p, dims) && p.1 < iy ==> color_at.ensures(
                    ((x0 + p.0) as usize, (y0 + p.1) as usize),
                    #[trigger] raster_pixels(img)[p],
                ),
        decreases chunk_size - iy,
    {
        let mut ix: usize = 0;
        while ix < chunk_size
            invariant
                ix <= chunk_size,
                iy < chunk_size,
                chunk_size <= u32::MAX,
                x0 == chunk_x * chunk_size,
                y0 == chunk_y * chunk_size,
                x0 + chunk_size == (chunk_x + 1) * chunk_size,
                y0 + chunk_size == (chunk_y + 1) * chunk_size,
                x0 + chunk_size <= usize::MAX,
                y0 + chunk_size <= usize::MAX,
                is_raster(img),
                raster_dims(img) == dims,
                dims == (chunk_size as int, chunk_size as int),
                forall|x: usize, y: usize|
                    in_chunk((x as int, y as int), (chunk_x as int, chunk_y as int), chunk_size as int)
                        ==> #[trigger] color_at.requires((x, y)),
                forall|p: Pixel|
                    in_bounds(p, dims) && (p.1 < iy || (p.1 == iy && p.0 < ix)) ==> color_at.ensures(
                        ((x0 + p.0) as usize, (y0 + p.1) as usize),
                        #[trigger] raster_pixels(img)[p],
                    ),
            decreases chunk_size - ix,
        {
            let global_x = x0 + ix;
            let global_y = y0 + iy;
            assert(in_chunk(
                (global_x as int, global_y as int),
                (chunk_x as int, chunk_y as int),
                chunk_size as int,
            ));
            let color = color_at(global_x, global_y);
            raster_put(&mut img, ix as u32, iy as u32, color);
            ix += 1;
        }
        iy += 1;
    }
    let ghost base = raster_pixels(img);
    let mut i: usize = 0;
    while i < cities.len()
        invariant
            0 <= i <= cities.len(),
            x0 == chunk_x * chunk_size,
            y0 == chunk_y * chunk_size,
            origin == (x0 as int, y0 as int),
            is_raster(img),
            raster_dims(img) == dims,
            forall|j: int|
                0 <= j < cities.len() ==> in_chunk(
                    #[trigger] cell_of(cities[j]),
                    (chunk_x as int, chunk_y as int),
                    chunk_size as int,
                ),
            forall|p: Pixel|
                in_bounds(p, dims) ==> #[trigger] raster_pixels(img)[p] == (if on_some_marker(
                    p,
                    cities@.take(i as int),
                    origin,
                ) {
                    CITY_SLOT_COLOR
                } else {
                    base[p]
                }),
        decreases cities.len() - i,
    {
        let (city_x, city_y) = cities[i];
        assert(in_chunk(cell_of(cities[i as int]), (chunk_x as int, chunk_y as int), chunk_size as int));
        let ghost painted = raster_pixels(img);
        let ghost done = cities@.take(i as int);
        let ghost more = cities@.take(i + 1);
        draw_city_circle(&mut img, city_x - x0, city_y - y0, CITY_SLOT_COLOR);
        proof {
            let center = marker_center((city_x, city_y), origin);
            assert forall|p: Pixel| in_bounds(p, dims) implies (on_some_marker(p, more, origin) <==> (
            on_some_marker(p, done, origin) || in_disc(p, center, MARKER_RADIUS as int))) by {
                if on_some_marker(p, done, origin) {
                    let j = choose|j: int|
                        0 <= j < done.len() && in_disc(
                            p,
                            marker_center(#[trigger] done[j], origin),
                            MARKER_RADIUS as int,
                        );
                    assert(more[j] == done[j]);
                }
                if in_disc(p, center, MARKER_RADIUS as int) {
                    assert(more[i as int] == (city_x, city_y));
                }
                if on_some_marker(p, more, origin) {
                    let j = choose|j: int|
                        0 <= j < more.len() && in_disc(
                            p,
                            marker_center(#[trigger] more[j], origin),
                            MARKER_RADIUS as int,
                        );
                    if j < i {
                        assert(done[j] == more[j]);
                    }
                }
            }
        }
        i += 1;
    }
    assert(cities@.take(i as int) =~= cities@);
    img
}

} // verus!

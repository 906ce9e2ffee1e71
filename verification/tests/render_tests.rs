use worldgen::image_gen::{
    blank_raster, chunk_coords, chunks_per_side, draw_city_circle, group_cities_by_chunk,
    raster_bytes, render_chunk, Color, CITY_SLOT_COLOR, MARKER_RADIUS,
};
use worldgen::map_gen::{offset_from, random_offset, OFFSET_RANGE};

const BLACK: Color = (0, 0, 0);
const GREEN: Color = (10, 200, 30);

fn pixel(bytes: &[u8], width: usize, x: usize, y: usize) -> Color {
    let at = (y * width + x) * 3;
    (bytes[at], bytes[at + 1], bytes[at + 2])
}

fn on_disc(x: usize, y: usize, cx: usize, cy: usize) -> bool {
    let dx = x.abs_diff(cx);
    let dy = y.abs_diff(cy);
    dx * dx + dy * dy <= 9
}

#[test]
fn a_blank_raster_is_black() {
    let bytes = raster_bytes(blank_raster(4, 3));
    assert_eq!(bytes, vec![0u8; 36]);
    assert_eq!(raster_bytes(blank_raster(0, 5)), Vec::<u8>::new());
}

#[test]
fn a_marker_is_a_disc_of_radius_three() {
    assert_eq!(MARKER_RADIUS, 3);
    assert_eq!(CITY_SLOT_COLOR, (255, 0, 0));
    let mut img = blank_raster(12, 10);
    draw_city_circle(&mut img, 5, 4, GREEN);
    let bytes = raster_bytes(img);
    assert_eq!(bytes.len(), 12 * 10 * 3);
    let mut painted = 0;
    for y in 0..10 {
        for x in 0..12 {
            let expected = if on_disc(x, y, 5, 4) { GREEN } else { BLACK };
            assert_eq!(pixel(&bytes, 12, x, y), expected);
            if expected == GREEN {
                painted += 1;
            }
        }
    }
    // a disc of radius 3 covers 29 pixels
    assert_eq!(painted, 29);
    assert_eq!(pixel(&bytes, 12, 8, 4), GREEN);
    assert_eq!(pixel(&bytes, 12, 5, 1), GREEN);
    assert_eq!(pixel(&bytes, 12, 7, 6), GREEN);
    assert_eq!(pixel(&bytes, 12, 8, 5), BLACK);
    assert_eq!(pixel(&bytes, 12, 9, 4), BLACK);
}

#[test]
fn a_marker_is_cut_off_at_the_edge() {
    let mut img = blank_raster(6, 6);
    draw_city_circle(&mut img, 0, 5, GREEN);
    let bytes = raster_bytes(img);
    for y in 0..6 {
        for x in 0..6 {
            let expected = if on_disc(x, y, 0, 5) { GREEN } else { BLACK };
            assert_eq!(pixel(&bytes, 6, x, y), expected);
        }
    }
    assert_eq!(pixel(&bytes, 6, 3, 5), GREEN);
    assert_eq!(pixel(&bytes, 6, 0, 2), GREEN);
    assert_eq!(pixel(&bytes, 6, 0, 1), BLACK);
}

#[test]
fn a_marker_beyond_the_raster_reaches_in_or_leaves_no_trace() {
    let mut img = blank_raster(4, 4);
    draw_city_circle(&mut img, 6, 1, GREEN);
    draw_city_circle(&mut img, 100, 100, GREEN);
    draw_city_circle(&mut img, usize::MAX, 0, GREEN);
    let bytes = raster_bytes(img);
    for y in 0..4 {
        for x in 0..4 {
            let expected = if (x, y) == (3, 1) { GREEN } else { BLACK };
            assert_eq!(pixel(&bytes, 4, x, y), expected);
        }
    }
}

#[test]
fn a_later_marker_covers_an_earlier_one() {
    let mut img = blank_raster(8, 8);
    draw_city_circle(&mut img, 2, 2, GREEN);
    draw_city_circle(&mut img, 4, 2, CITY_SLOT_COLOR);
    let bytes = raster_bytes(img);
    assert_eq!(pixel(&bytes, 8, 0, 2), GREEN);
    assert_eq!(pixel(&bytes, 8, 2, 2), CITY_SLOT_COLOR);
    assert_eq!(pixel(&bytes, 8, 7, 2), CITY_SLOT_COLOR);
    assert_eq!(pixel(&bytes, 8, 7, 7), BLACK);
}

#[test]
fn a_chunk_shows_its_cells_under_its_markers() {
    let color_at = |x: usize, y: usize| ((x % 251) as u8, (y % 251) as u8, 77u8);
    let cities = vec![(21, 13), (29, 19)];
    let bytes = raster_bytes(render_chunk(2, 1, 10, &cities, color_at));
    assert_eq!(bytes.len(), 300);
    for iy in 0..10 {
        for ix in 0..10 {
            let marked = on_disc(ix, iy, 1, 3) || on_disc(ix, iy, 9, 9);
            let expected = if marked {
                CITY_SLOT_COLOR
            } else {
                ((20 + ix) as u8, (10 + iy) as u8, 77)
            };
            assert_eq!(pixel(&bytes, 10, ix, iy), expected);
        }
    }
    assert_eq!(pixel(&bytes, 10, 0, 0), (20, 10, 77));
    assert_eq!(pixel(&bytes, 10, 1, 3), (255, 0, 0));
    assert_eq!(pixel(&bytes, 10, 9, 6), (255, 0, 0));
}

#[test]
fn a_chunk_without_settlements_has_no_marker() {
    let color_at = |_x: usize, _y: usize| (17u8, 55u8, 105u8);
    let bytes = raster_bytes(render_chunk(0, 0, 4, &vec![], color_at));
    assert_eq!(bytes.len(), 48);
    for iy in 0..4 {
        for ix in 0..4 {
            assert_eq!(pixel(&bytes, 4, ix, iy), (17, 55, 105));
        }
    }
}

#[test]
fn a_chunk_asks_for_each_of_its_cells_once() {
    let asked = std::cell::RefCell::new(Vec::new());
    let color_at = |x: usize, y: usize| {
        asked.borrow_mut().push((x, y));
        BLACK
    };
    let _ = render_chunk(3, 2, 2, &vec![], color_at);
    assert_eq!(asked.into_inner(), vec![(6, 4), (7, 4), (6, 5), (7, 5)]);
}

#[test]
fn a_chunk_of_no_cells_is_empty() {
    let color_at = |_x: usize, _y: usize| GREEN;
    assert_eq!(raster_bytes(render_chunk(5, 5, 0, &vec![], color_at)), Vec::<u8>::new());
}

#[test]
fn whole_chunks_are_counted() {
    assert_eq!(chunks_per_side(5_000, 250), 20);
    assert_eq!(chunks_per_side(10_000, 250), 40);
    assert_eq!(chunks_per_side(12, 4), 3);
    assert_eq!(chunks_per_side(13, 4), 3);
    assert_eq!(chunks_per_side(3, 4), 0);
}

#[test]
fn chunks_are_listed_row_after_row() {
    assert_eq!(
        chunk_coords(3),
        vec![(0, 0), (1, 0), (2, 0), (0, 1), (1, 1), (2, 1), (0, 2), (1, 2), (2, 2)]
    );
    assert_eq!(chunk_coords(1), vec![(0, 0)]);
    assert_eq!(chunk_coords(0), vec![]);
    assert_eq!(chunk_coords(40).len(), 1_600);
}

#[test]
fn chunks_cover_the_grid_without_overlap() {
    let n = 12;
    let chunk_size = 4;
    let per_side = chunks_per_side(n, chunk_size);
    let chunks = chunk_coords(per_side);
    assert_eq!(chunks.len(), 9);
    let mut drawn = vec![vec![0; n]; n];
    for &(cx, cy) in &chunks {
        let asked = std::cell::RefCell::new(Vec::new());
        let color_at = |x: usize, y: usize| {
            asked.borrow_mut().push((x, y));
            ((x * 10) as u8, (y * 10) as u8, 0u8)
        };
        let bytes = raster_bytes(render_chunk(cx, cy, chunk_size, &vec![], color_at));
        for (x, y) in asked.into_inner() {
            drawn[y][x] += 1;
            // the cell stands at the pixel that is the rest of the division
            assert_eq!((x / chunk_size, y / chunk_size), (cx, cy));
            assert_eq!(
                pixel(&bytes, chunk_size, x % chunk_size, y % chunk_size),
                ((x * 10) as u8, (y * 10) as u8, 0)
            );
        }
    }
    assert_eq!(drawn, vec![vec![1; n]; n]);
}

#[test]
fn settlements_are_sorted_by_chunk() {
    let slots = vec![(0, 0), (5, 1), (3, 3), (4, 0), (11, 11), (2, 9), (7, 3), (1, 2)];
    let groups = group_cities_by_chunk(&slots, 4, 3);
    assert_eq!(groups.len(), 9);
    assert_eq!(groups[0], vec![(0, 0), (3, 3), (1, 2)]);
    assert_eq!(groups[1], vec![(5, 1), (4, 0), (7, 3)]);
    assert_eq!(groups[6], vec![(2, 9)]);
    assert_eq!(groups[8], vec![(11, 11)]);
    for at in [2, 3, 4, 5, 7] {
        assert_eq!(groups[at], vec![]);
    }
}

#[test]
fn every_settlement_of_a_whole_chunk_is_on_one_list() {
    let slots: Vec<(usize, usize)> = (0..12).flat_map(|y| (0..12).map(move |x| (x, y))).collect();
    let groups = group_cities_by_chunk(&slots, 4, 3);
    let mut listed = 0;
    for cy in 0..3 {
        for cx in 0..3 {
            let group = &groups[cy * 3 + cx];
            assert_eq!(group.len(), 16);
            for &(x, y) in group {
                assert_eq!((x / 4, y / 4), (cx, cy));
            }
            listed += group.len();
        }
    }
    assert_eq!(listed, slots.len());
}

#[test]
fn settlements_beyond_the_last_whole_chunk_are_on_no_list() {
    let slots = vec![(8, 0), (0, 8), (9, 9), (7, 7)];
    let groups = group_cities_by_chunk(&slots, 4, 2);
    assert_eq!(groups, vec![vec![], vec![], vec![], vec![(7, 7)]]);
    assert_eq!(group_cities_by_chunk(&slots, 4, 0), Vec::<Vec<(usize, usize)>>::new());
}

#[test]
fn an_offset_is_the_rest_of_a_division() {
    assert_eq!(OFFSET_RANGE, 10_000);
    assert_eq!(offset_from(0), 0);
    assert_eq!(offset_from(9_999), 9_999);
    assert_eq!(offset_from(10_000), 0);
    assert_eq!(offset_from(123_456_789), 6_789);
    assert_eq!(offset_from(u32::MAX), 7_295);
}

#[test]
fn a_drawn_offset_is_in_range() {
    let mut seen = Vec::new();
    for _ in 0..64 {
        let offset = random_offset();
        assert!(offset < OFFSET_RANGE);
        seen.push(offset);
    }
    // sixty-four draws of one value would be a generator that does not draw
    assert!(seen.iter().any(|&offset| offset != seen[0]));
}

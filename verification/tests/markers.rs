use iron_dome::debug::{
    find_debug_positions, find_spawner_positions, find_worm_positions, positions_to_bb,
    remap_positions_to_bb, SPAWNER_DEBUG_MIN_CLICK_DIST, WORM_DEBUG_MIN_CLICK_DIST,
};
use iron_dome::screen::{BoundingBox, Coord, GeometryError};
use iron_dome::visualization::{Pixel, VisualizedImage};

const GREY: [u8; 3] = [50, 50, 50];
const BLUE: [u8; 3] = [0, 0, 255];
const MAGENTA: [u8; 3] = [255, 0, 255];
const RED: [u8; 3] = [255, 0, 0];
const GREEN: Pixel = Pixel { r: 0, g: 255, b: 0 };

fn canvas(width: u32, height: u32, marks: &[(u32, u32, [u8; 3])]) -> VisualizedImage {
    let mut bytes = Vec::new();
    for _ in 0..width * height {
        bytes.extend_from_slice(&GREY);
    }
    for (w, h, colour) in marks {
        assert!(*w < width && *h < height);
        let at = ((h * width + w) * 3) as usize;
        bytes[at..at + 3].copy_from_slice(colour);
    }
    VisualizedImage::new(width, height, bytes).unwrap()
}

fn at(w: i64, h: i64) -> Coord {
    Coord { w, h }
}

fn bb(w0: i64, h0: i64, w1: i64, h1: i64) -> BoundingBox {
    BoundingBox { left_top: at(w0, h0), right_bottom: at(w1, h1) }
}

#[test]
fn markers_are_thirty_pixels_apart() {
    assert_eq!(SPAWNER_DEBUG_MIN_CLICK_DIST, 30);
    assert_eq!(WORM_DEBUG_MIN_CLICK_DIST, 30);
}

#[test]
fn spawner_markers_are_blue() {
    let img = canvas(
        60,
        60,
        &[(5, 5, BLUE), (40, 5, MAGENTA), (5, 40, BLUE), (50, 50, [0, 1, 255])],
    );
    assert_eq!(find_spawner_positions(&img), vec![at(5, 5), at(5, 40)]);
}

#[test]
fn worm_markers_are_magenta() {
    let img = canvas(
        60,
        60,
        &[(5, 5, BLUE), (40, 5, MAGENTA), (5, 40, BLUE), (50, 50, [255, 1, 255])],
    );
    assert_eq!(find_worm_positions(&img), vec![at(40, 5)]);
}

#[test]
fn markers_are_found_row_by_row() {
    let img = canvas(80, 80, &[(70, 2, BLUE), (3, 2, BLUE), (40, 40, BLUE), (3, 70, BLUE)]);
    assert_eq!(
        find_spawner_positions(&img),
        vec![at(3, 2), at(70, 2), at(40, 40), at(3, 70)]
    );
}

#[test]
fn a_pixel_close_to_a_marker_is_the_same_marker() {
    let img = canvas(
        80,
        80,
        &[(5, 5, BLUE), (6, 5, BLUE), (34, 5, BLUE), (5, 34, BLUE), (34, 34, BLUE), (0, 20, BLUE)],
    );
    assert_eq!(find_spawner_positions(&img), vec![at(5, 5)]);
}

#[test]
fn a_pixel_thirty_off_along_one_axis_is_another_marker() {
    let img = canvas(80, 80, &[(5, 5, BLUE), (35, 5, BLUE), (5, 35, BLUE), (34, 34, BLUE)]);
    assert_eq!(find_spawner_positions(&img), vec![at(5, 5), at(35, 5), at(5, 35)]);
}

#[test]
fn any_colour_and_distance_can_be_looked_for() {
    let img = canvas(10, 4, &[(1, 1, RED), (2, 1, RED), (4, 1, RED), (2, 3, RED), (9, 3, BLUE)]);
    let red = Pixel { r: 255, g: 0, b: 0 };
    assert_eq!(
        find_debug_positions(&img, 1, red),
        vec![at(1, 1), at(2, 1), at(4, 1), at(2, 3)]
    );
    assert_eq!(find_debug_positions(&img, 2, red), vec![at(1, 1), at(4, 1), at(2, 3)]);
    assert_eq!(find_debug_positions(&img, 3, red), vec![at(1, 1), at(4, 1)]);
    assert!(find_debug_positions(&img, 0, red).len() == 4);
    assert!(find_debug_positions(&img, 1, Pixel { r: 9, g: 9, b: 9 }).is_empty());
}

#[test]
fn the_mask_is_moved_to_each_position() {
    let mask = bb(-30, -11, 23, 31);
    assert_eq!(
        positions_to_bb(&[at(100, 50), at(0, 0)], &mask),
        Ok(vec![bb(70, 39, 123, 81), bb(-30, -11, 23, 31)])
    );
    assert_eq!(positions_to_bb(&[], &mask), Ok(vec![]));
}

#[test]
fn a_mask_moved_out_of_range_is_refused() {
    let mask = bb(-30, -11, 23, 31);
    assert_eq!(
        positions_to_bb(&[at(0, 0), at(i64::MAX - 22, 0)], &mask),
        Err(GeometryError::OutOfRange)
    );
    assert_eq!(positions_to_bb(&[at(0, i64::MIN + 10)], &mask), Err(GeometryError::OutOfRange));
    assert!(positions_to_bb(&[at(i64::MAX - 23, i64::MIN + 11)], &mask).is_ok());
}

#[test]
fn the_rectangles_are_painted_green() {
    let mut img = canvas(20, 20, &[(9, 9, RED), (10, 10, BLUE)]);
    let made = remap_positions_to_bb(&[at(10, 10)], &bb(-2, -2, 2, 2), &mut img);
    assert_eq!(made, Ok(vec![bb(8, 8, 12, 12)]));
    for h in 0..20u32 {
        for w in 0..20u32 {
            let expected = if (w, h) == (9, 9) {
                Pixel { r: 255, g: 0, b: 0 }
            } else if (8..=12).contains(&w) && (8..=12).contains(&h) {
                GREEN
            } else {
                Pixel { r: 50, g: 50, b: 50 }
            };
            assert_eq!(img.get_pixel(w, h), expected);
        }
    }
}

#[test]
fn paint_is_clipped_to_the_image() {
    let mut img = canvas(10, 10, &[]);
    let made = remap_positions_to_bb(&[at(9, 5), at(-20, -20)], &bb(-1, 0, 5, 9), &mut img);
    assert_eq!(made, Ok(vec![bb(8, 5, 14, 14), bb(-21, -20, -15, -11)]));
    assert_eq!(img.get_pixel(8, 5), GREEN);
    assert_eq!(img.get_pixel(9, 9), GREEN);
    assert_eq!(img.get_pixel(7, 5), Pixel { r: 50, g: 50, b: 50 });
    assert_eq!(img.get_pixel(8, 4), Pixel { r: 50, g: 50, b: 50 });
    assert_eq!(img.dimensions(), (10, 10));
}

#[test]
fn less_is_painted_of_a_rectangle_that_sticks_out_of_the_top() {
    let mut img = canvas(30, 10, &[]);
    let made = remap_positions_to_bb(&[at(10, 1)], &bb(-10, -3, 10, 3), &mut img);
    assert_eq!(made, Ok(vec![bb(0, -2, 20, 4)]));
    let grey = Pixel { r: 50, g: 50, b: 50 };
    // it sticks out by two: its last two rows and its first eight columns are left out
    assert_eq!(img.get_pixel(8, 0), GREEN);
    assert_eq!(img.get_pixel(20, 2), GREEN);
    assert_eq!(img.get_pixel(7, 0), grey);
    assert_eq!(img.get_pixel(8, 3), grey);
    assert_eq!(img.get_pixel(20, 4), grey);
    assert_eq!(img.get_pixel(21, 0), grey);
}

#[test]
fn rectangles_may_overlap() {
    let mut img = canvas(20, 20, &[(5, 5, RED)]);
    let made = remap_positions_to_bb(&[at(4, 4), at(6, 6)], &bb(-2, -2, 2, 2), &mut img);
    assert_eq!(made, Ok(vec![bb(2, 2, 6, 6), bb(4, 4, 8, 8)]));
    assert_eq!(img.get_pixel(5, 5), Pixel { r: 255, g: 0, b: 0 });
    assert_eq!(img.get_pixel(4, 4), GREEN);
    assert_eq!(img.get_pixel(8, 8), GREEN);
    assert_eq!(img.get_pixel(2, 8), Pixel { r: 50, g: 50, b: 50 });
}

#[test]
fn nothing_is_painted_where_a_rectangle_is_refused() {
    let mut img = canvas(20, 20, &[]);
    let before = img.to_raw();
    let made = remap_positions_to_bb(&[at(10, 10), at(i64::MAX, 0)], &bb(-2, -2, 2, 2), &mut img);
    assert_eq!(made, Err(GeometryError::OutOfRange));
    assert_eq!(img.to_raw(), before);
}

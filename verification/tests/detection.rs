use iron_dome::legit::{
    at_enemy_edge, get_corner, get_corner_strict, has_well_defined_corners, is_enemy_at,
    looks_like_enemy, process_red, scan_isolated_rects, scan_rect_any_ratio, scan_rects,
    scan_rects_of_size, scan_single_bb, scan_single_bb_vert, sweep, Corner, Pass,
};
use iron_dome::screen::{BoundingBox, Coord};
use iron_dome::visualization::{Pixel, VisualizedImage};

const GREY: [u8; 3] = [50, 50, 50];
const TARGET: [u8; 3] = [200, 20, 20];
const BLACK: [u8; 3] = [0, 0, 0];
const WHITE: Pixel = Pixel { r: 255, g: 255, b: 255 };

struct Canvas {
    width: u32,
    height: u32,
    bytes: Vec<u8>,
}

impl Canvas {
    fn new(width: u32, height: u32) -> Canvas {
        let mut bytes = Vec::new();
        for _ in 0..width * height {
            bytes.extend_from_slice(&GREY);
        }
        Canvas { width, height, bytes }
    }

    fn set(&mut self, w: u32, h: u32, colour: [u8; 3]) {
        assert!(w < self.width && h < self.height);
        let at = ((h * self.width + w) * 3) as usize;
        self.bytes[at..at + 3].copy_from_slice(&colour);
    }

    /// Paints the pixels from `(w0, h0)` to `(w1, h1)`, both included.
    fn fill(&mut self, w0: u32, h0: u32, w1: u32, h1: u32, colour: [u8; 3]) {
        for h in h0..=h1 {
            for w in w0..=w1 {
                self.set(w, h, colour);
            }
        }
    }

    fn image(&self) -> VisualizedImage {
        VisualizedImage::new(self.width, self.height, self.bytes.clone()).unwrap()
    }
}

fn bb(w0: i64, h0: i64, w1: i64, h1: i64) -> BoundingBox {
    BoundingBox { left_top: Coord { w: w0, h: h0 }, right_bottom: Coord { w: w1, h: h1 } }
}

fn two_targets() -> Canvas {
    let mut canvas = Canvas::new(100, 100);
    canvas.fill(5, 5, 15, 20, TARGET);
    canvas.fill(50, 50, 60, 65, TARGET);
    canvas
}

#[test]
fn the_target_colour_is_a_range() {
    assert!(looks_like_enemy(Pixel { r: 151, g: 12, b: 15 }));
    assert!(looks_like_enemy(Pixel { r: 255, g: 34, b: 35 }));
    assert!(!looks_like_enemy(Pixel { r: 150, g: 12, b: 15 }));
    assert!(!looks_like_enemy(Pixel { r: 151, g: 11, b: 15 }));
    assert!(!looks_like_enemy(Pixel { r: 151, g: 35, b: 15 }));
    assert!(!looks_like_enemy(Pixel { r: 151, g: 12, b: 14 }));
    assert!(!looks_like_enemy(Pixel { r: 151, g: 12, b: 36 }));
}

#[test]
fn the_erased_and_the_off_image_colour_are_no_targets() {
    assert!(!looks_like_enemy(WHITE));
    assert!(!looks_like_enemy(Pixel { r: 1, g: 1, b: 1 }));
    assert!(!looks_like_enemy(Pixel { r: 0, g: 0, b: 0 }));
}

#[test]
fn a_position_off_the_image_holds_no_target() {
    let mut canvas = Canvas::new(3, 3);
    canvas.fill(0, 0, 2, 2, TARGET);
    let img = canvas.image();
    assert!(is_enemy_at(&img, 2, 2));
    assert!(!is_enemy_at(&img, 3, 2));
    assert!(!is_enemy_at(&img, -1, 0));
    assert!(!is_enemy_at(&img, i64::MAX, i64::MAX));
}

#[test]
fn an_edge_is_a_target_after_none() {
    let mut canvas = Canvas::new(6, 2);
    canvas.fill(2, 0, 4, 0, TARGET);
    canvas.fill(0, 1, 1, 1, TARGET);
    let img = canvas.image();
    assert!(!at_enemy_edge(&img, 1, 0));
    assert!(at_enemy_edge(&img, 2, 0));
    assert!(!at_enemy_edge(&img, 3, 0));
    assert!(!at_enemy_edge(&img, 5, 0));
    // the left border of the image counts as none
    assert!(at_enemy_edge(&img, 0, 1));
    assert!(!at_enemy_edge(&img, 1, 1));
    assert!(!at_enemy_edge(&img, -1, 1));
}

#[test]
fn the_four_kinds_of_corner() {
    let mut canvas = Canvas::new(5, 5);
    canvas.fill(1, 1, 3, 3, TARGET);
    let img = canvas.image();
    assert_eq!(get_corner(&img, 1, 1), Some(Corner::LeftTop));
    assert_eq!(get_corner(&img, 3, 1), Some(Corner::RightTop));
    assert_eq!(get_corner(&img, 1, 3), Some(Corner::LeftBottom));
    assert_eq!(get_corner(&img, 3, 3), Some(Corner::RightBottom));
    assert_eq!(get_corner(&img, 2, 1), None);
    assert_eq!(get_corner(&img, 2, 2), None);
    assert_eq!(get_corner(&img, 0, 0), None);
    assert_eq!(get_corner(&img, 7, 7), None);
    assert_eq!(get_corner(&img, -1, -1), None);
}

#[test]
fn corners_on_the_border_of_the_image() {
    let mut canvas = Canvas::new(3, 3);
    canvas.fill(0, 0, 2, 2, TARGET);
    let img = canvas.image();
    assert_eq!(get_corner(&img, 0, 0), Some(Corner::LeftTop));
    assert_eq!(get_corner(&img, 2, 2), Some(Corner::RightBottom));
    assert_eq!(get_corner_strict(&img, 0, 0), Some(Corner::LeftTop));
    assert_eq!(get_corner_strict(&img, 2, 0), Some(Corner::RightTop));
    assert!(has_well_defined_corners(&img, &bb(0, 0, 2, 2)));
}

#[test]
fn a_single_pixel_is_no_corner() {
    let mut canvas = Canvas::new(3, 3);
    canvas.set(1, 1, TARGET);
    assert_eq!(get_corner(&canvas.image(), 1, 1), None);
}

#[test]
fn a_strict_corner_borders_no_black() {
    let mut canvas = Canvas::new(5, 5);
    canvas.fill(1, 1, 3, 3, TARGET);
    let img = canvas.image();
    assert_eq!(get_corner_strict(&img, 1, 1), Some(Corner::LeftTop));
    assert_eq!(get_corner_strict(&img, 3, 1), Some(Corner::RightTop));
    assert_eq!(get_corner_strict(&img, 1, 3), Some(Corner::LeftBottom));
    assert_eq!(get_corner_strict(&img, 3, 3), Some(Corner::RightBottom));
    assert_eq!(get_corner_strict(&img, 2, 2), None);
}

#[test]
fn black_on_either_outer_side_spoils_each_kind_of_corner() {
    let spoilers: [((i64, i64), [(u32, u32); 2]); 4] = [
        ((1, 1), [(1, 0), (0, 1)]),
        ((3, 1), [(3, 0), (4, 1)]),
        ((1, 3), [(1, 4), (0, 3)]),
        ((3, 3), [(3, 4), (4, 3)]),
    ];
    for ((w, h), blacks) in spoilers {
        for (bw, bh) in blacks {
            let mut canvas = Canvas::new(5, 5);
            canvas.fill(1, 1, 3, 3, TARGET);
            canvas.set(bw, bh, BLACK);
            let img = canvas.image();
            assert!(get_corner(&img, w, h).is_some());
            assert_eq!(get_corner_strict(&img, w, h), None);
        }
    }
}

#[test]
fn black_that_borders_no_outer_side_spoils_nothing() {
    let mut canvas = Canvas::new(5, 5);
    canvas.fill(1, 1, 3, 3, TARGET);
    canvas.set(0, 0, BLACK);
    canvas.set(2, 0, BLACK);
    let img = canvas.image();
    assert_eq!(get_corner_strict(&img, 1, 1), Some(Corner::LeftTop));
}

#[test]
fn a_corner_next_to_black_fails_has_well_defined_corners() {
    let mut canvas = Canvas::new(5, 5);
    canvas.fill(1, 1, 3, 3, TARGET);
    assert!(has_well_defined_corners(&canvas.image(), &bb(1, 1, 3, 3)));
    canvas.set(4, 3, BLACK);
    let img = canvas.image();
    // the pattern of neighbours still matches
    assert_eq!(get_corner(&img, 3, 3), Some(Corner::RightBottom));
    assert!(!has_well_defined_corners(&img, &bb(1, 1, 3, 3)));
}

#[test]
fn corners_must_be_target_pixels() {
    let mut canvas = Canvas::new(6, 6);
    canvas.fill(1, 1, 3, 3, TARGET);
    assert!(!has_well_defined_corners(&canvas.image(), &bb(1, 1, 4, 3)));
}

#[test]
fn a_block_is_bounded_from_any_row() {
    let img = two_targets().image();
    assert_eq!(scan_single_bb(&img, 5, 5), bb(5, 5, 15, 20));
    assert_eq!(scan_single_bb(&img, 5, 12), bb(5, 5, 15, 20));
    assert_eq!(scan_single_bb(&img, 5, 20), bb(5, 5, 15, 20));
    assert_eq!(scan_single_bb(&img, 50, 50), bb(50, 50, 60, 65));
}

#[test]
fn a_bounded_block_has_the_area_of_its_corners() {
    let img = two_targets().image();
    let found = scan_single_bb(&img, 5, 5);
    assert_eq!((found.w(), found.h(), found.area()), (10, 15, 150));
}

#[test]
fn short_runs_are_one_wide() {
    let mut canvas = Canvas::new(10, 5);
    canvas.set(3, 1, TARGET);
    canvas.fill(3, 3, 4, 3, TARGET);
    let img = canvas.image();
    assert_eq!(scan_single_bb(&img, 3, 1), bb(3, 1, 4, 1));
    assert_eq!(scan_single_bb(&img, 3, 3), bb(3, 3, 4, 3));
}

#[test]
fn a_run_of_three_is_two_wide() {
    let mut canvas = Canvas::new(10, 3);
    canvas.fill(3, 1, 5, 1, TARGET);
    assert_eq!(scan_single_bb(&canvas.image(), 3, 1), bb(3, 1, 5, 1));
}

#[test]
fn a_run_ends_at_the_border_of_the_image() {
    let mut canvas = Canvas::new(6, 2);
    canvas.fill(2, 0, 5, 0, TARGET);
    canvas.set(5, 1, TARGET);
    let img = canvas.image();
    assert_eq!(scan_single_bb(&img, 2, 0), bb(2, 0, 5, 0));
    // a lone pixel in the last column reaches one past the image
    assert_eq!(scan_single_bb(&img, 5, 1), bb(5, 0, 6, 1));
}

#[test]
fn the_height_is_measured_against_the_width_of_the_first_row() {
    let mut canvas = Canvas::new(20, 10);
    canvas.fill(5, 5, 10, 5, TARGET);
    canvas.fill(5, 6, 8, 6, TARGET);
    let img = canvas.image();
    // the row below is too short to count
    assert_eq!(scan_single_bb(&img, 5, 5), bb(5, 5, 10, 5));
    // from the short row the long one above counts
    assert_eq!(scan_single_bb(&img, 5, 6), bb(5, 5, 8, 6));
}

#[test]
fn a_row_counts_without_its_last_column() {
    let mut canvas = Canvas::new(20, 10);
    canvas.fill(5, 5, 10, 5, TARGET);
    canvas.fill(5, 6, 9, 6, TARGET);
    canvas.fill(5, 4, 9, 4, TARGET);
    assert_eq!(scan_single_bb(&canvas.image(), 5, 5), bb(5, 4, 10, 6));
}

#[test]
fn a_block_is_bounded_downwards_first() {
    let img = two_targets().image();
    assert_eq!(scan_single_bb_vert(&img, 5, 5), bb(5, 5, 15, 20));
}

#[test]
fn a_lone_pixel_bounded_downwards_has_no_width() {
    let mut canvas = Canvas::new(5, 5);
    canvas.set(2, 2, TARGET);
    assert_eq!(scan_single_bb_vert(&canvas.image(), 2, 2), bb(2, 2, 2, 3));
}

#[test]
fn columns_count_without_their_last_row() {
    let mut canvas = Canvas::new(10, 10);
    canvas.fill(2, 2, 2, 6, TARGET);
    canvas.fill(3, 2, 4, 5, TARGET);
    assert_eq!(scan_single_bb_vert(&canvas.image(), 2, 2), bb(2, 2, 4, 6));
}

#[test]
fn a_spawner_is_found_and_erased() {
    let mut canvas = Canvas::new(40, 40);
    canvas.fill(10, 10, 25, 20, TARGET);
    let mut img = canvas.image();
    assert_eq!(scan_rects(&mut img, 1), vec![bb(10, 10, 25, 20)]);
    for h in 0..40 {
        for w in 0..40 {
            let inside = (10..=25).contains(&w) && (10..=20).contains(&h);
            let expected = if inside { WHITE } else { Pixel { r: 50, g: 50, b: 50 } };
            assert_eq!(img.get_pixel(w, h), expected);
        }
    }
}

#[test]
fn a_spawner_is_found_on_the_first_of_several_passes() {
    let mut canvas = Canvas::new(40, 40);
    canvas.fill(10, 10, 25, 20, TARGET);
    let mut img = canvas.image();
    assert_eq!(scan_rects(&mut img, 3), vec![bb(10, 10, 25, 20)]);
}

#[test]
fn no_pass_finds_nothing() {
    let canvas = two_targets();
    let mut img = canvas.image();
    assert!(scan_rects(&mut img, 0).is_empty());
    assert!(scan_rects(&mut img, -3).is_empty());
    assert!(scan_rect_any_ratio(&mut img, 0).is_empty());
    assert_eq!(img.to_raw(), canvas.bytes);
}

#[test]
fn a_worm_is_found_on_the_last_pass_only() {
    let canvas = two_targets();
    let mut img = canvas.image();
    let mut found = Vec::new();
    sweep(&Pass::Rects { last: false }, &mut img, &mut found);
    assert!(found.is_empty());
    assert_eq!(img.to_raw(), canvas.bytes);
    sweep(&Pass::Rects { last: true }, &mut img, &mut found);
    assert_eq!(found, vec![bb(5, 5, 15, 20), bb(50, 50, 60, 65)]);
}

#[test]
fn a_speck_is_erased_but_not_kept() {
    let mut canvas = Canvas::new(10, 10);
    // two wide, two high: the area is 4
    canvas.fill(3, 3, 5, 5, TARGET);
    let mut img = canvas.image();
    assert!(scan_rects(&mut img, 1).is_empty());
    assert_eq!(img.get_pixel(4, 4), WHITE);
}

#[test]
fn two_worms_side_by_side_are_split() {
    let mut canvas = Canvas::new(40, 30);
    canvas.fill(5, 5, 25, 15, TARGET);
    let mut img = canvas.image();
    // twenty by ten: half of it is kept, all of it is erased
    assert_eq!(scan_rects(&mut img, 1), vec![bb(5, 5, 15, 15)]);
    assert_eq!(img.get_pixel(25, 15), WHITE);
    assert_eq!(img.get_pixel(20, 10), WHITE);
}

#[test]
fn two_worms_one_above_the_other_are_split() {
    let mut canvas = Canvas::new(30, 40);
    canvas.fill(5, 5, 15, 25, TARGET);
    let mut img = canvas.image();
    assert_eq!(scan_rects(&mut img, 1), vec![bb(5, 5, 15, 15)]);
    assert_eq!(img.get_pixel(15, 25), WHITE);
}

#[test]
fn what_borders_black_is_not_split() {
    let mut canvas = Canvas::new(40, 30);
    canvas.fill(5, 5, 25, 15, TARGET);
    canvas.set(4, 5, BLACK);
    let before = canvas.bytes.clone();
    let mut img = canvas.image();
    assert!(scan_rects(&mut img, 1).is_empty());
    assert_eq!(img.to_raw(), before);
}

#[test]
fn a_blob_of_the_size_of_the_template_is_taken() {
    let mut canvas = Canvas::new(40, 40);
    canvas.fill(10, 10, 25, 20, TARGET);
    let mut img = canvas.image();
    let template = bb(0, 0, 15, 10);
    assert_eq!(scan_rects_of_size(&mut img, &template), vec![bb(10, 10, 25, 20)]);
    assert_eq!(img.get_pixel(25, 20), WHITE);
}

#[test]
fn a_wider_blob_gets_the_template_at_both_corners() {
    let mut canvas = Canvas::new(40, 40);
    canvas.fill(10, 10, 27, 20, TARGET);
    let mut img = canvas.image();
    let template = bb(0, 0, 15, 10);
    assert_eq!(
        scan_rects_of_size(&mut img, &template),
        vec![bb(10, 10, 25, 20), bb(12, 10, 27, 20)]
    );
    assert_eq!(img.get_pixel(27, 20), WHITE);
}

#[test]
fn a_blob_short_of_the_template_that_ends_on_black_is_taken() {
    let mut canvas = Canvas::new(40, 40);
    // fourteen wide and five high against a template of fifteen by ten
    canvas.fill(10, 10, 24, 15, TARGET);
    canvas.set(24, 16, BLACK);
    let mut img = canvas.image();
    let template = bb(0, 0, 15, 10);
    let found = scan_rects_of_size(&mut img, &template);
    assert_eq!(found[0], bb(10, 10, 25, 20));
    assert_eq!(img.get_pixel(24, 16), WHITE);
}

#[test]
fn a_lone_rectangle_is_taken_whole() {
    let mut canvas = Canvas::new(40, 40);
    canvas.fill(10, 10, 25, 20, TARGET);
    let mut img = canvas.image();
    assert_eq!(scan_isolated_rects(&mut img, &bb(0, 0, 15, 10)), vec![bb(10, 10, 25, 20)]);
}

#[test]
fn a_lone_rectangle_that_is_too_long_is_cut() {
    let mut canvas = Canvas::new(40, 40);
    canvas.fill(10, 10, 25, 20, TARGET);
    let mut img = canvas.image();
    assert_eq!(
        scan_isolated_rects(&mut img, &bb(0, 0, 10, 10)),
        vec![bb(10, 10, 20, 20), bb(21, 10, 25, 20)]
    );
}

#[test]
fn a_lone_rectangle_that_is_too_tall_is_cut() {
    let mut canvas = Canvas::new(40, 40);
    canvas.fill(10, 10, 20, 25, TARGET);
    let mut img = canvas.image();
    let found = scan_isolated_rects(&mut img, &bb(0, 0, 10, 10));
    assert_eq!(found[0], bb(10, 10, 20, 20));
}

#[test]
fn a_rectangle_within_the_tolerance_is_not_cut() {
    let mut canvas = Canvas::new(40, 40);
    canvas.fill(10, 10, 22, 22, TARGET);
    let mut img = canvas.image();
    assert_eq!(scan_isolated_rects(&mut img, &bb(0, 0, 10, 10)), vec![bb(10, 10, 22, 22)]);
    let mut canvas = Canvas::new(40, 40);
    canvas.fill(10, 10, 23, 22, TARGET);
    let mut img = canvas.image();
    assert_eq!(scan_isolated_rects(&mut img, &bb(0, 0, 10, 10))[0], bb(10, 10, 20, 22));
}

#[test]
fn a_rectangle_next_to_black_does_not_stand_alone() {
    let mut canvas = Canvas::new(40, 40);
    canvas.fill(10, 10, 25, 20, TARGET);
    canvas.set(26, 20, BLACK);
    let before = canvas.bytes.clone();
    let mut img = canvas.image();
    assert!(scan_isolated_rects(&mut img, &bb(0, 0, 15, 10)).is_empty());
    assert_eq!(img.to_raw(), before);
}

#[test]
fn of_two_scans_the_larger_rectangle_is_kept() {
    // a column of ten pixels: across it is one wide and nine high
    let mut canvas = Canvas::new(20, 20);
    canvas.fill(5, 2, 5, 11, TARGET);
    let mut img = canvas.image();
    assert_eq!(scan_rect_any_ratio(&mut img, 1), vec![bb(5, 2, 6, 11)]);
    // a row of ten pixels: downwards it is nine wide and one high
    let mut canvas = Canvas::new(20, 20);
    canvas.fill(2, 5, 11, 5, TARGET);
    let mut img = canvas.image();
    assert_eq!(scan_rect_any_ratio(&mut img, 1), vec![bb(2, 5, 11, 6)]);
}

#[test]
fn the_last_scan_takes_any_shape() {
    let mut canvas = Canvas::new(60, 20);
    canvas.fill(5, 5, 45, 8, TARGET);
    let mut img = canvas.image();
    assert_eq!(scan_rect_any_ratio(&mut img, 3), vec![bb(5, 5, 45, 8)]);
}

fn erased(width: u32, height: u32) -> VisualizedImage {
    let mut canvas = two_targets();
    canvas.width = width;
    canvas.height = height;
    canvas.bytes = vec![255; (width * height * 3) as usize];
    canvas.image()
}

#[test]
fn an_erased_image_yields_no_rectangle() {
    let template = bb(0, 0, 15, 10);
    let mut img = erased(40, 30);
    assert!(scan_rects(&mut img, 3).is_empty());
    assert!(scan_rects_of_size(&mut img, &template).is_empty());
    assert!(scan_rects_of_size(&mut img, &BoundingBox::default()).is_empty());
    assert!(scan_isolated_rects(&mut img, &template).is_empty());
    assert!(scan_rect_any_ratio(&mut img, 3).is_empty());
    assert_eq!(img.to_raw(), vec![255; 40 * 30 * 3]);
    let (targets, unit_width) = process_red(&mut img);
    assert!(targets.is_empty());
    assert_eq!(unit_width, 0);
    assert_eq!(img.to_raw(), vec![255; 40 * 30 * 3]);
}

#[test]
fn a_second_detection_run_finds_nothing() {
    let mut img = two_targets().image();
    let (first, _) = process_red(&mut img);
    assert_eq!(first.len(), 2);
    let after_first = img.to_raw();
    let (second, unit_width) = process_red(&mut img);
    assert!(second.is_empty());
    assert_eq!(unit_width, 0);
    assert_eq!(img.to_raw(), after_first);
}

#[test]
fn an_image_without_targets_is_left_as_it_is() {
    let canvas = Canvas::new(30, 20);
    let mut img = canvas.image();
    let (targets, unit_width) = process_red(&mut img);
    assert!(targets.is_empty());
    assert_eq!(unit_width, 0);
    assert_eq!(img.to_raw(), canvas.bytes);
}

#[test]
fn two_targets_are_detected() {
    let mut img = two_targets().image();
    let (targets, unit_width) = process_red(&mut img);
    assert_eq!(targets, vec![bb(5, 5, 15, 20), bb(50, 50, 60, 65)]);
    assert_eq!(targets[0].area(), 150);
    assert_eq!(targets[1].area(), 150);
    // neither has the proportions of a spawner: no unit is inferred
    assert_eq!(unit_width, 0);
}

#[test]
fn spawners_give_the_unit() {
    let mut canvas = Canvas::new(120, 60);
    canvas.fill(10, 10, 25, 20, TARGET);
    canvas.fill(50, 10, 65, 20, TARGET);
    canvas.fill(90, 30, 105, 40, TARGET);
    let mut img = canvas.image();
    let (targets, unit_width) = process_red(&mut img);
    assert_eq!(targets, vec![bb(10, 10, 25, 20), bb(50, 10, 65, 20), bb(90, 30, 105, 40)]);
    assert_eq!(unit_width, 15);
}

#[test]
fn what_is_smaller_than_a_fifth_of_the_unit_is_dropped() {
    let mut canvas = Canvas::new(120, 60);
    canvas.fill(10, 10, 25, 20, TARGET);
    canvas.fill(50, 10, 65, 20, TARGET);
    // five by five: 25 is less than a fifth of 150
    canvas.fill(90, 30, 95, 35, TARGET);
    // six by five: 30 is a fifth of 150
    canvas.fill(100, 45, 106, 50, TARGET);
    let mut img = canvas.image();
    let (targets, unit_width) = process_red(&mut img);
    assert_eq!(unit_width, 15);
    assert_eq!(targets, vec![bb(10, 10, 25, 20), bb(50, 10, 65, 20), bb(100, 45, 106, 50)]);
    // the speck is erased all the same
    assert_eq!(img.get_pixel(92, 32), WHITE);
}

/// What one sweep finds of a lone block whose rectangle is `w` wide and `h` high.
fn swept(w: u32, h: u32, last: bool) -> (Vec<BoundingBox>, bool) {
    let mut canvas = Canvas::new(60, 60);
    canvas.fill(5, 5, 5 + w, 5 + h, TARGET);
    let mut img = canvas.image();
    let mut found = Vec::new();
    sweep(&Pass::Rects { last }, &mut img, &mut found);
    (found, img.to_raw() == canvas.bytes)
}

fn block(w: i64, h: i64) -> BoundingBox {
    bb(5, 5, 5 + w, 5 + h)
}

#[test]
fn the_proportions_of_a_spawner_are_from_5_to_4_up_to_3_to_2() {
    assert_eq!(swept(5, 4, false).0, vec![block(5, 4)]);
    assert_eq!(swept(13, 10, false).0, vec![block(13, 10)]);
    assert_eq!(swept(15, 10, false).0, vec![block(15, 10)]);
    assert_eq!(swept(12, 10, false), (vec![], true));
    assert_eq!(swept(16, 10, false), (vec![], true));
    assert_eq!(swept(10, 0, false), (vec![], true));
}

#[test]
fn the_proportions_of_a_worm_are_from_3_to_5_up_to_5_to_4() {
    assert_eq!(swept(6, 10, true).0, vec![block(6, 10)]);
    assert_eq!(swept(10, 10, true).0, vec![block(10, 10)]);
    assert_eq!(swept(12, 10, true).0, vec![block(12, 10)]);
    assert_eq!(swept(6, 10, false), (vec![], true));
    assert_eq!(swept(49, 40, true).0, vec![block(49, 40)]);
}

#[test]
fn twice_the_proportions_of_a_worm_are_split_in_width() {
    assert_eq!(swept(16, 10, true).0, vec![block(8, 10)]);
    assert_eq!(swept(24, 10, true).0, vec![block(12, 10)]);
    assert_eq!(swept(25, 10, true), (vec![], true));
    // what has the proportions of a spawner as well is taken whole
    assert_eq!(swept(29, 20, true).0, vec![block(29, 20)]);
}

#[test]
fn half_the_proportions_of_a_worm_are_split_in_height() {
    assert_eq!(swept(7, 20, true).0, vec![block(7, 10)]);
    assert_eq!(swept(11, 20, true).0, vec![block(11, 10)]);
    assert_eq!(swept(6, 20, true), (vec![], true));
    assert_eq!(swept(9, 15, true).0, vec![block(9, 15)]);
}

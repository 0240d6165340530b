use iron_dome::legit::mask_bb;
use iron_dome::screen::{BoundingBox, Coord};
use iron_dome::visualization::{ImageError, Pixel, VisualizedImage};

fn counting(width: u32, height: u32) -> Vec<u8> {
    (0..width * height * 3).map(|i| (i % 251) as u8).collect()
}

#[test]
fn new_refuses_an_image_without_width() {
    assert!(matches!(VisualizedImage::new(0, 5, vec![]), Err(ImageError::Empty)));
}

#[test]
fn new_refuses_an_image_without_height() {
    assert!(matches!(VisualizedImage::new(5, 0, vec![0; 30]), Err(ImageError::Empty)));
}

#[test]
fn new_refuses_too_few_bytes() {
    assert!(matches!(VisualizedImage::new(2, 2, vec![0; 11]), Err(ImageError::TooShort)));
}

#[test]
fn new_accepts_exactly_enough_bytes() {
    assert!(VisualizedImage::new(2, 2, vec![0; 12]).is_ok());
}

#[test]
fn dimensions_are_those_asked_for() {
    let img = VisualizedImage::new(7, 3, vec![0; 63]).unwrap();
    assert_eq!(img.dimensions(), (7, 3));
    assert_eq!(img.width(), 7);
    assert_eq!(img.height(), 3);
}

#[test]
fn pixels_are_read_row_by_row() {
    let img = VisualizedImage::new(4, 3, counting(4, 3)).unwrap();
    assert_eq!(img.get_pixel(0, 0), Pixel { r: 0, g: 1, b: 2 });
    assert_eq!(img.get_pixel(1, 0), Pixel { r: 3, g: 4, b: 5 });
    assert_eq!(img.get_pixel(0, 1), Pixel { r: 12, g: 13, b: 14 });
    assert_eq!(img.get_pixel(3, 2), Pixel { r: 33, g: 34, b: 35 });
}

#[test]
fn a_read_off_the_image_gives_the_near_black_pixel() {
    let img = VisualizedImage::new(2, 2, vec![0; 12]).unwrap();
    let off = Pixel { r: 1, g: 1, b: 1 };
    assert_eq!(img.get_pixel_default(-1, 0), off);
    assert_eq!(img.get_pixel_default(0, -1), off);
    assert_eq!(img.get_pixel_default(2, 0), off);
    assert_eq!(img.get_pixel_default(0, 2), off);
    assert_eq!(img.get_pixel_default(i64::MAX, i64::MIN), off);
}

#[test]
fn black_on_the_image_is_told_from_off_the_image() {
    let img = VisualizedImage::new(2, 2, vec![0; 12]).unwrap();
    assert_eq!(img.get_pixel_default(1, 1), Pixel { r: 0, g: 0, b: 0 });
    assert_ne!(img.get_pixel_default(1, 1), img.get_pixel_default(2, 1));
}

#[test]
fn a_checked_read_tells_whether_the_position_is_on_the_image() {
    let img = VisualizedImage::new(3, 2, counting(3, 2)).unwrap();
    assert_eq!(img.get_pixel_checked(2, 1), Some(Pixel { r: 15, g: 16, b: 17 }));
    assert_eq!(img.get_pixel_checked(3, 1), None);
    assert_eq!(img.get_pixel_checked(2, 2), None);
    assert_eq!(img.get_pixel_checked(-1, 0), None);
    assert_eq!(img.get_pixel_checked(0, -1), None);
    assert_eq!(img.get_pixel_checked(1 << 40, 0), None);
}

#[test]
fn put_pixel_changes_one_pixel() {
    let mut img = VisualizedImage::new(3, 3, vec![9; 27]).unwrap();
    img.put_pixel(1, 2, Pixel { r: 10, g: 20, b: 30 });
    for h in 0..3 {
        for w in 0..3 {
            let expected = if (w, h) == (1, 2) {
                Pixel { r: 10, g: 20, b: 30 }
            } else {
                Pixel { r: 9, g: 9, b: 9 }
            };
            assert_eq!(img.get_pixel(w, h), expected);
        }
    }
    assert_eq!(img.dimensions(), (3, 3));
}

#[test]
fn to_raw_gives_the_bytes_back() {
    let bytes = counting(5, 4);
    let mut img = VisualizedImage::new(5, 4, bytes.clone()).unwrap();
    assert_eq!(img.to_raw(), bytes);
    img.put_pixel(0, 1, Pixel { r: 7, g: 8, b: 9 });
    let raw = img.to_raw();
    assert_eq!(&raw[15..18], &[7, 8, 9]);
    assert_eq!(&raw[..15], &bytes[..15]);
    assert_eq!(&raw[18..], &bytes[18..]);
}

#[test]
fn erasing_writes_white_inside_the_rectangle_only() {
    let mut img = VisualizedImage::new(6, 5, vec![40; 90]).unwrap();
    let bb = BoundingBox::new(Coord { w: 1, h: 2 }, 2, 1).unwrap();
    mask_bb(&mut img, &bb);
    for h in 0..5i64 {
        for w in 0..6i64 {
            let inside = (1..=3).contains(&w) && (2..=3).contains(&h);
            let expected = if inside {
                Pixel { r: 255, g: 255, b: 255 }
            } else {
                Pixel { r: 40, g: 40, b: 40 }
            };
            assert_eq!(img.get_pixel_default(w, h), expected);
        }
    }
}

#[test]
fn erasing_passes_over_what_is_off_the_image() {
    let mut img = VisualizedImage::new(4, 4, vec![40; 48]).unwrap();
    let bb = BoundingBox {
        left_top: Coord { w: -3, h: 2 },
        right_bottom: Coord { w: 1, h: 9 },
    };
    mask_bb(&mut img, &bb);
    let white = Pixel { r: 255, g: 255, b: 255 };
    let grey = Pixel { r: 40, g: 40, b: 40 };
    assert_eq!(img.get_pixel(0, 2), white);
    assert_eq!(img.get_pixel(1, 3), white);
    assert_eq!(img.get_pixel(2, 2), grey);
    assert_eq!(img.get_pixel(0, 1), grey);
    assert_eq!(img.dimensions(), (4, 4));
}

#[test]
fn erasing_a_rectangle_off_the_image_changes_nothing() {
    let bytes = counting(4, 4);
    let mut img = VisualizedImage::new(4, 4, bytes.clone()).unwrap();
    mask_bb(&mut img, &BoundingBox::new(Coord { w: 4, h: 0 }, 3, 3).unwrap());
    mask_bb(&mut img, &BoundingBox::new(Coord { w: -9, h: -9 }, 3, 3).unwrap());
    mask_bb(
        &mut img,
        &BoundingBox { left_top: Coord { w: 3, h: 3 }, right_bottom: Coord { w: 0, h: 0 } },
    );
    assert_eq!(img.to_raw(), bytes);
}

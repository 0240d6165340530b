//! The pixel buffer that detection works on: a grid of RGB pixels with
//! bounds-checked reads and in-place writes, stored in an `image::RgbImage`.

use crate::screen::BoundingBox;
use vstd::prelude::*;

verus! {

/// One RGB pixel.
#[derive(Debug, Clone, Copy, Hash, PartialEq, Eq, Structural)]
pub struct Pixel {
    pub r: u8,
    pub g: u8,
    pub b: u8,
}

/// Pure black: on the map it marks an area that has not been explored.
pub open spec fn black() -> Pixel {
    Pixel { r: 0, g: 0, b: 0 }
}

/// What a read outside the image gives: one step from black, so that it is
/// never taken for unexplored area.
pub open spec fn off_image() -> Pixel {
    Pixel { r: 1, g: 1, b: 1 }
}

/// What erasing writes: a colour that is never taken for a target.
pub open spec fn erased() -> Pixel {
    Pixel { r: 255, g: 255, b: 255 }
}

/// Why a pixel buffer could not be built.
#[derive(Debug, Clone, Copy, PartialEq, Eq, Structural)]
pub enum ImageError {
    /// The width or the height is zero.
    Empty,
    /// The bytes given do not fill `width * height` pixels of three bytes each.
    TooShort,
}

/// The mathematical content of a pixel buffer.
pub struct Grid {
    pub width: int,
    pub height: int,
    pub cells: Map<(int, int), Pixel>,
}

impl Grid {
    pub open spec fn in_bounds(&self, x: int, y: int) -> bool {
        0 <= x < self.width && 0 <= y < self.height
    }

    /// A grid is well formed when it is not empty, holds exactly the pixels
    /// inside its bounds, and its three bytes per pixel can be addressed.
    pub open spec fn wf(&self) -> bool {
        &&& self.width > 0
        &&& self.height > 0
        &&& 3 * (self.width * self.height) <= usize::MAX
        &&& forall|x: int, y: int| #[trigger]
            self.cells.dom().contains((x, y)) <==> self.in_bounds(x, y)
    }

    /// The pixel at `(x, y)`, if the position is on the image.
    pub open spec fn checked(&self, x: int, y: int) -> Option<Pixel> {
        if self.in_bounds(x, y) {
            Some(self.cells[(x, y)])
        } else {
            None
        }
    }

    /// The pixel at `(x, y)`, or `off_image()` if the position is not on the image.
    pub open spec fn at(&self, x: int, y: int) -> Pixel {
        if self.in_bounds(x, y) {
            self.cells[(x, y)]
        } else {
            off_image()
        }
    }

    /// The grid with the pixel at `(x, y)` replaced.
    pub open spec fn put(self, x: int, y: int, px: Pixel) -> Grid {
        Grid { cells: self.cells.insert((x, y), px), ..self }
    }

    /// The grid with every pixel of `bb` that lies on the image erased. The
    /// part of `bb` outside the image is passed over.
    pub open spec fn erase(self, bb: BoundingBox) -> Grid {
        Grid {
            cells: Map::new(
                |k: (int, int)| self.cells.dom().contains(k),
                |k: (int, int)|
                    if bb.contains(k.0, k.1) {
                        erased()
                    } else {
                        self.cells[k]
                    },
            ),
            ..self
        }
    }
}

/// The pixels that `width * height * 3` bytes describe: rows from the top, in
/// each row pixels from the left, in each pixel red, green, blue.
pub open spec fn raw_cells(width: int, height: int, data: Seq<u8>) -> Map<(int, int), Pixel> {
    Map::new(
        |k: (int, int)| 0 <= k.0 < width && 0 <= k.1 < height,
        |k: (int, int)|
            Pixel {
                r: data[3 * (k.1 * width + k.0)],
                g: data[3 * (k.1 * width + k.0) + 1],
                b: data[3 * (k.1 * width + k.0) + 2],
            },
    )
}

/// A mutable RGB image. The pixels live in an `image::RgbImage`; what they
/// are is known only through `image_size` and `image_cells`.
#[verifier::external_body]
pub struct VisualizedImage {
    img: image::RgbImage,
}

/// Width and height of the image held.
pub uninterp spec fn image_size(img: VisualizedImage) -> (nat, nat);

/// The pixels of the image held, by column and row.
pub uninterp spec fn image_cells(img: VisualizedImage) -> Map<(int, int), Pixel>;

impl View for VisualizedImage {
    type V = Grid;

    open spec fn view(&self) -> Grid {
        Grid {
            width: image_size(*self).0 as int,
            height: image_size(*self).1 as int,
            cells: image_cells(*self),
        }
    }
}

/// `image::ImageBuffer::from_raw` on an RGB buffer of bytes. For a width and a
/// height that are not zero it succeeds exactly when three bytes per pixel
/// fit the bytes given, and the image made has the dimensions asked for and
/// reads the bytes row by row, three per pixel.
#[verifier::external_body]
fn buffer_from_raw(width: u32, height: u32, data: Vec<u8>) -> (made: Option<VisualizedImage>)
    requires
        width > 0,
        height > 0,
    ensures
        made is Some <==> 3 * (width * height) <= data@.len(),
        made matches Some(img) ==> image_size(img) == (width as nat, height as nat) && image_cells(
            img,
        ) == raw_cells(width as int, height as int, data@),
{
    match image::RgbImage::from_raw(width, height, data) {
        Some(img) => Some(VisualizedImage { img }),
        None => None,
    }
}

/// `image::ImageBuffer::dimensions`: the width and the height.
#[verifier::external_body]
fn buffer_dimensions(img: &VisualizedImage) -> (dims: (u32, u32))
    ensures
        (dims.0 as nat, dims.1 as nat) == image_size(*img),
{
    img.img.dimensions()
}

/// `image::ImageBuffer::get_pixel`: the pixel stored at a position inside the
/// bounds. Outside them the call panics.
#[verifier::external_body]
fn buffer_get(img: &VisualizedImage, x: u32, y: u32) -> (px: Pixel)
    requires
        x < image_size(*img).0,
        y < image_size(*img).1,
    ensures
        px == image_cells(*img)[(x as int, y as int)],
{
    let rgb = img.img.get_pixel(x, y);
    Pixel { r: rgb.0[0], g: rgb.0[1], b: rgb.0[2] }
}

/// `image::ImageBuffer::put_pixel`: replaces the pixel at a position inside
/// the bounds and leaves every other pixel and the dimensions as they were.
/// Outside the bounds the call panics.
#[verifier::external_body]
fn buffer_put(img: &mut VisualizedImage, x: u32, y: u32, px: Pixel)
    requires
        x < image_size(*old(img)).0,
        y < image_size(*old(img)).1,
    ensures
        image_size(*final(img)) == image_size(*old(img)),
        image_cells(*final(img)) == image_cells(*old(img)).insert((x as int, y as int), px),
{
    img.img.put_pixel(x, y, image::Rgb([px.r, px.g, px.b]));
}

/// `image::ImageBuffer::as_raw`, copied: at least three bytes per pixel, of
/// which the image reads the first `width * height * 3` row by row.
#[verifier::external_body]
fn buffer_bytes(img: &VisualizedImage) -> (data: Vec<u8>)
    ensures
        3 * (image_size(*img).0 * image_size(*img).1) <= data@.len(),
        image_cells(*img) == raw_cells(image_size(*img).0 as int, image_size(*img).1 as int, data@),
{
    img.img.as_raw().clone()
}

impl VisualizedImage {
    /// Type validity: the image is not empty and its content is a well-formed grid.
    pub open spec fn wf(&self) -> bool {
        self@.wf()
    }

    /// An image of the given dimensions over `data`, which holds the pixels
    /// row by row, three bytes each. An image without pixels is refused, and
    /// so are bytes that do not fill it.
    pub fn new(width: u32, height: u32, data: Vec<u8>) -> (made: Result<Self, ImageError>)
        ensures
            (width == 0 || height == 0) ==> made matches Err(ImageError::Empty),
            width > 0 && height > 0 && data@.len() < 3 * (width * height) ==> made matches Err(
                ImageError::TooShort,
            ),
            width > 0 && height > 0 && 3 * (width * height) <= data@.len() ==> made is Ok,
            made matches Ok(img) ==> img.wf() && img@ == (Grid {
                width: width as int,
                height: height as int,
                cells: raw_cells(width as int, height as int, data@),
            }),
    {
        if width == 0 || height == 0 {
            return Err(ImageError::Empty);
        }
        let len: usize = data.len();
        match buffer_from_raw(width, height, data) {
            Some(img) => {
                proof {
                    assert(3 * (width * height) <= len);
                    assert forall|x: int, y: int| #[trigger]
                        img@.cells.dom().contains((x, y)) <==> img@.in_bounds(x, y) by {}
                }
                Ok(img)
            },
            None => Err(ImageError::TooShort),
        }
    }

    /// The pixel at `(w, h)`, which must lie on the image.
    pub fn get_pixel(&self, w: u32, h: u32) -> (px: Pixel)
        requires
            self@.in_bounds(w as int, h as int),
        ensures
            px == self@.at(w as int, h as int),
    {
        buffer_get(self, w, h)
    }

    /// The pixel at `(w, h)`, or the off-image pixel, one step from pure
    /// black, if the position is not on the image.
    pub fn get_pixel_default(&self, w: i64, h: i64) -> (px: Pixel)
        ensures
            px == self@.at(w as int, h as int),
    {
        match self.get_pixel_checked(w, h) {
            Some(px) => px,
            None => Pixel { r: 1, g: 1, b: 1 },
        }
    }

    /// The pixel at `(w, h)`, or `None` if the position is not on the image.
    pub fn get_pixel_checked(&self, w: i64, h: i64) -> (px: Option<Pixel>)
        ensures
            px == self@.checked(w as int, h as int),
    {
        if w < 0 || h < 0 {
            return None;
        }
        let (width, height) = buffer_dimensions(self);
        if w >= width as i64 || h >= height as i64 {
            return None;
        }
        Some(buffer_get(self, w as u32, h as u32))
    }

    /// Replaces the pixel at `(w, h)`, which must lie on the image.
    pub fn put_pixel(&mut self, w: u32, h: u32, px: Pixel)
        requires
            old(self)@.in_bounds(w as int, h as int),
        ensures
            final(self)@ == old(self)@.put(w as int, h as int, px),
            old(self).wf() ==> final(self).wf(),
    {
        buffer_put(self, w, h, px);
        proof {
            if old(self).wf() {
                assert forall|x: int, y: int| #[trigger]
                    self@.cells.dom().contains((x, y)) <==> self@.in_bounds(x, y) by {
                    assert(old(self)@.cells.dom().contains((x, y)) <==> old(self)@.in_bounds(x, y));
                }
            }
        }
    }

    pub fn dimensions(&self) -> (dims: (u32, u32))
        ensures
            dims.0 == self@.width,
            dims.1 == self@.height,
    {
        buffer_dimensions(self)
    }

    pub fn width(&self) -> (width: u32)
        ensures
            width == self@.width,
    {
        buffer_dimensions(self).0
    }

    pub fn height(&self) -> (height: u32)
        ensures
            height == self@.height,
    {
        buffer_dimensions(self).1
    }

    /// A copy of the bytes of the image: at least three for each pixel, the
    /// pixels row by row.
    pub fn to_raw(&self) -> (data: Vec<u8>)
        ensures
            3 * (self@.width * self@.height) <= data@.len(),
            self@.cells == raw_cells(self@.width, self@.height, data@),
    {
        buffer_bytes(self)
    }
}

} // verus!

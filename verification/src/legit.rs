//! Target detection: finds the blobs of target-coloured pixels of a map
//! capture and bounds each by a rectangle.

use crate::screen::{BoundingBox, Coord};
use crate::sizing::{deduce_spawner_size, unit_box};
use crate::visualization::{black, erased, Grid, Pixel, VisualizedImage};
use vstd::prelude::*;

verus! {

/// The four kinds of corner that a target pixel can be.
#[derive(Debug, Clone, Copy, PartialEq, Eq, Structural)]
pub enum Corner {
    LeftTop,
    LeftBottom,
    RightTop,
    RightBottom,
}

/// Whether a pixel has the colour of a target: a range of reds, so that
/// smoothing and compression noise do not hide one.
pub open spec fn is_target(px: Pixel) -> bool {
    px.r > 150 && px.g < 35 && px.b < 36 && px.g > 11 && px.b > 14
}

/// Whether the position is on the image and holds a target pixel.
pub open spec fn target_at(g: Grid, x: int, y: int) -> bool {
    is_target(g.at(x, y))
}

/// Whether a blob is entered at the position: a target pixel whose left
/// neighbour is none.
pub open spec fn entry_edge(g: Grid, x: int, y: int) -> bool {
    target_at(g, x, y) && !target_at(g, x - 1, y)
}

/// Whether the position is on the image and pure black.
pub open spec fn black_at(g: Grid, x: int, y: int) -> bool {
    g.checked(x, y) == Some(black())
}

/// The kind of corner at the position: a target pixel with target neighbours
/// on exactly the two sides that the kind asks for.
pub open spec fn corner_kind(g: Grid, x: int, y: int) -> Option<Corner> {
    let left = target_at(g, x - 1, y);
    let up = target_at(g, x, y - 1);
    let right = target_at(g, x + 1, y);
    let down = target_at(g, x, y + 1);
    if !target_at(g, x, y) {
        None
    } else if left && up && !right && !down {
        Some(Corner::RightBottom)
    } else if !left && up && right && !down {
        Some(Corner::LeftBottom)
    } else if !left && !up && right && down {
        Some(Corner::LeftTop)
    } else if left && !up && !right && down {
        Some(Corner::RightTop)
    } else {
        None
    }
}

/// Whether one of the two outer neighbours of a corner of the given kind is
/// pure black.
pub open spec fn borders_black(g: Grid, x: int, y: int, kind: Corner) -> bool {
    match kind {
        Corner::LeftTop => black_at(g, x, y - 1) || black_at(g, x - 1, y),
        Corner::LeftBottom => black_at(g, x, y + 1) || black_at(g, x - 1, y),
        Corner::RightTop => black_at(g, x, y - 1) || black_at(g, x + 1, y),
        Corner::RightBottom => black_at(g, x, y + 1) || black_at(g, x + 1, y),
    }
}

/// The kind of corner at the position, unless the corner borders pure black:
/// next to unexplored area a corner says nothing.
pub open spec fn strict_corner(g: Grid, x: int, y: int) -> Option<Corner> {
    match corner_kind(g, x, y) {
        Some(kind) => if borders_black(g, x, y, kind) {
            None
        } else {
            Some(kind)
        },
        None => None,
    }
}

/// Whether each of the four corners of `bb` is a strict corner of some kind.
pub open spec fn well_defined_corners(g: Grid, bb: BoundingBox) -> bool {
    &&& strict_corner(g, bb.left_top.w as int, bb.left_top.h as int) is Some
    &&& strict_corner(g, bb.left_top.w as int, bb.right_bottom.h as int) is Some
    &&& strict_corner(g, bb.right_bottom.w as int, bb.left_top.h as int) is Some
    &&& strict_corner(g, bb.right_bottom.w as int, bb.right_bottom.h as int) is Some
}

pub fn looks_like_enemy(px: Pixel) -> (target: bool)
    ensures
        target == is_target(px),
{
    px.r > 150 && px.g < 35 && px.b < 36 && px.g > 11 && px.b > 14
}

/// Whether the position holds a target pixel; a position off the image holds none.
pub fn is_enemy_at(img: &VisualizedImage, w: i64, h: i64) -> (target: bool)
    ensures
        target == target_at(img@, w as int, h as int),
{
    looks_like_enemy(img.get_pixel_default(w, h))
}

/// Whether a blob is entered at `(w, h)`.
pub fn at_enemy_edge(img: &VisualizedImage, w: i64, h: i64) -> (edge: bool)
    ensures
        edge == entry_edge(img@, w as int, h as int),
{
    if is_enemy_at(img, w, h) {
        // a target pixel is on the image, so its left neighbour can be named
        if !is_enemy_at(img, w - 1, h) {
            return true;
        }
    }
    false
}

/// Overwrites every pixel of `bb` that lies on the image with the erased
/// colour, so that no later pass finds it again.
pub fn mask_bb(img: &mut VisualizedImage, bb: &BoundingBox)
    requires
        old(img).wf(),
    ensures
        final(img).wf(),
        final(img)@ == old(img)@.erase(*bb),
{
    let (width, height) = img.dimensions();
    if bb.right_bottom.w < 0 || bb.right_bottom.h < 0 || bb.left_top.w >= width as i64
        || bb.left_top.h >= height as i64 || bb.left_top.w > bb.right_bottom.w || bb.left_top.h
        > bb.right_bottom.h {
        assert(img@.erase(*bb).cells =~= img@.cells);
        return ;
    }
    let x0: u32 = if bb.left_top.w < 0 {
        0
    } else {
        bb.left_top.w as u32
    };
    let y0: u32 = if bb.left_top.h < 0 {
        0
    } else {
        bb.left_top.h as u32
    };
    let x1: u32 = if bb.right_bottom.w >= width as i64 {
        width - 1
    } else {
        bb.right_bottom.w as u32
    };
    let y1: u32 = if bb.right_bottom.h >= height as i64 {
        height - 1
    } else {
        bb.right_bottom.h as u32
    };
    let ghost before = img@;
    let mut y: u32 = y0;
    while y <= y1
        invariant
            before == old(img)@,
            before.wf(),
            img.wf(),
            img@.width == before.width == width,
            img@.height == before.height == height,
            x0 <= x1 < width,
            y0 <= y <= y1 + 1,
            y1 < height,
            forall|i: int, j: int|
                bb.contains(i, j) && before.in_bounds(i, j) ==> x0 <= i <= x1 && y0 <= j <= y1,
            forall|i: int, j: int|
                x0 <= i <= x1 && y0 <= j <= y1 ==> bb.contains(i, j) && before.in_bounds(i, j),
            forall|i: int, j: int|
                before.in_bounds(i, j) ==> #[trigger] img@.cells[(i, j)] == if bb.contains(i, j)
                    && j < y {
                    erased()
                } else {
                    before.cells[(i, j)]
                },
        decreases y1 + 1 - y,
    {
        let mut x: u32 = x0;
        while x <= x1
            invariant
                before.wf(),
                img.wf(),
                img@.width == before.width == width,
                img@.height == before.height == height,
                x0 <= x <= x1 + 1,
                x1 < width,
                y0 <= y <= y1 < height,
                forall|i: int, j: int|
                    bb.contains(i, j) && before.in_bounds(i, j) ==> x0 <= i <= x1 && y0 <= j <= y1,
                forall|i: int, j: int|
                    x0 <= i <= x1 && y0 <= j <= y1 ==> bb.contains(i, j) && before.in_bounds(i, j),
                forall|i: int, j: int|
                    before.in_bounds(i, j) ==> #[trigger] img@.cells[(i, j)] == if bb.contains(i, j)
                        && (j < y || (j == y && i < x)) {
                        erased()
                    } else {
                        before.cells[(i, j)]
                    },
            decreases x1 + 1 - x,
        {
            img.put_pixel(x, y, Pixel { r: 0xff, g: 0xff, b: 0xff });
            x = x + 1;
        }
        y = y + 1;
    }
    proof {
        assert forall|k: (int, int)| img@.cells.dom().contains(k) <==> before.erase(
            *bb,
        ).cells.dom().contains(k) by {
            assert(img@.cells.dom().contains((k.0, k.1)) <==> img@.in_bounds(k.0, k.1));
            assert(before.cells.dom().contains((k.0, k.1)) <==> before.in_bounds(k.0, k.1));
        }
        assert forall|k: (int, int)| #[trigger]
            img@.cells.dom().contains(k) implies img@.cells[k] == before.erase(*bb).cells[k] by {
            assert(img@.cells.dom().contains((k.0, k.1)) <==> img@.in_bounds(k.0, k.1));
            assert(img@.cells[(k.0, k.1)] == img@.cells[k]);
        }
        assert(img@.cells =~= before.erase(*bb).cells);
    }
}

/// The kind of corner at `(w, h)`, if the pixel there is one.
pub fn get_corner(img: &VisualizedImage, w: i64, h: i64) -> (kind: Option<Corner>)
    ensures
        kind == corner_kind(img@, w as int, h as int),
{
    if !is_enemy_at(img, w, h) {
        return None;
    }
    // a target pixel is on the image, whose dimensions bound its neighbours
    let (_width, _height) = img.dimensions();
    let left = is_enemy_at(img, w - 1, h);
    let up = is_enemy_at(img, w, h - 1);
    let right = is_enemy_at(img, w + 1, h);
    let down = is_enemy_at(img, w, h + 1);
    if left && up && !right && !down {
        Some(Corner::RightBottom)
    } else if !left && up && right && !down {
        Some(Corner::LeftBottom)
    } else if !left && !up && right && down {
        Some(Corner::LeftTop)
    } else if left && !up && !right && down {
        Some(Corner::RightTop)
    } else {
        None
    }
}

/// Whether the position is on the image and pure black.
fn is_black_at(img: &VisualizedImage, w: i64, h: i64) -> (dark: bool)
    ensures
        dark == black_at(img@, w as int, h as int),
{
    match img.get_pixel_checked(w, h) {
        Some(px) => px.r == 0 && px.g == 0 && px.b == 0,
        None => false,
    }
}

/// The kind of corner at `(w, h)`, as `get_corner` gives it, unless the
/// corner borders a pure black pixel.
pub fn get_corner_strict(img: &VisualizedImage, w: i64, h: i64) -> (kind: Option<Corner>)
    ensures
        kind == strict_corner(img@, w as int, h as int),
{
    // read for their bounds: a position on the image fits 32 bits
    let (_width, _height) = img.dimensions();
    match get_corner(img, w, h) {
        Some(Corner::LeftTop) => {
            if is_black_at(img, w, h - 1) || is_black_at(img, w - 1, h) {
                None
            } else {
                Some(Corner::LeftTop)
            }
        },
        Some(Corner::LeftBottom) => {
            if is_black_at(img, w, h + 1) || is_black_at(img, w - 1, h) {
                None
            } else {
                Some(Corner::LeftBottom)
            }
        },
        Some(Corner::RightTop) => {
            if is_black_at(img, w, h - 1) || is_black_at(img, w + 1, h) {
                None
            } else {
                Some(Corner::RightTop)
            }
        },
        Some(Corner::RightBottom) => {
            if is_black_at(img, w, h + 1) || is_black_at(img, w + 1, h) {
                None
            } else {
                Some(Corner::RightBottom)
            }
        },
        None => None,
    }
}

/// Whether each of the four corners of `bb` is a strict corner.
pub fn has_well_defined_corners(img: &VisualizedImage, bb: &BoundingBox) -> (sound: bool)
    ensures
        sound == well_defined_corners(img@, *bb),
{
    get_corner_strict(img, bb.left_top.w, bb.left_top.h).is_some() && get_corner_strict(
        img,
        bb.left_top.w,
        bb.right_bottom.h,
    ).is_some() && get_corner_strict(img, bb.right_bottom.w, bb.left_top.h).is_some()
        && get_corner_strict(img, bb.right_bottom.w, bb.right_bottom.h).is_some()
}

/// How many pixels in a row are targets, from `(x, y)` to the right.
pub open spec fn run_right(g: Grid, x: int, y: int) -> nat
    decreases g.width - x,
{
    if g.in_bounds(x, y) && target_at(g, x, y) {
        1 + run_right(g, x + 1, y)
    } else {
        0
    }
}

/// How many pixels in a column are targets, from `(x, y)` downwards.
pub open spec fn run_down(g: Grid, x: int, y: int) -> nat
    decreases g.height - y,
{
    if g.in_bounds(x, y) && target_at(g, x, y) {
        1 + run_down(g, x, y + 1)
    } else {
        0
    }
}

/// Whether the `len` pixels of row `y` from column `x` on are all targets.
pub open spec fn row_hit(g: Grid, x: int, len: int, y: int) -> bool {
    g.in_bounds(x, y) && forall|i: int| x <= i < x + len ==> target_at(g, i, y)
}

/// Whether the `len` pixels of column `x` from row `y` on are all targets.
pub open spec fn col_hit(g: Grid, x: int, y: int, len: int) -> bool {
    g.in_bounds(x, y) && forall|j: int| y <= j < y + len ==> target_at(g, x, j)
}

/// How many rows in a row are hit, from row `y` upwards.
pub open spec fn rows_up(g: Grid, x: int, len: int, y: int) -> nat
    decreases y + 1,
{
    if y >= 0 && row_hit(g, x, len, y) {
        1 + rows_up(g, x, len, y - 1)
    } else {
        0
    }
}

/// How many rows in a row are hit, from row `y` downwards.
pub open spec fn rows_down(g: Grid, x: int, len: int, y: int) -> nat
    decreases g.height - y,
{
    if y < g.height && row_hit(g, x, len, y) {
        1 + rows_down(g, x, len, y + 1)
    } else {
        0
    }
}

/// How many columns in a row are hit, from column `x` to the right.
pub open spec fn cols_right(g: Grid, x: int, y: int, len: int) -> nat
    decreases g.width - x,
{
    if x < g.width && col_hit(g, x, y, len) {
        1 + cols_right(g, x + 1, y, len)
    } else {
        0
    }
}

/// The width that a scan settles on after a run of `run` further targets: the
/// run itself, and one where there is none.
pub open spec fn span(run: nat) -> int {
    if run > 1 {
        run as int
    } else {
        1
    }
}

/// The rectangle that bounds the blob entered at `(x, y)`. Its width is
/// measured once, along row `y`; its height is then grown upwards and
/// downwards as far as whole rows of that width are targets. A ragged blob so
/// gives a plain rectangle, not its outline.
pub open spec fn single_bb(g: Grid, x: int, y: int) -> BoundingBox {
    let len = span(run_right(g, x + 1, y));
    BoundingBox {
        left_top: Coord { w: x as i64, h: (y - rows_up(g, x, len, y - 1)) as i64 },
        right_bottom: Coord { w: (x + len) as i64, h: (y + rows_down(g, x, len, y + 1)) as i64 },
    }
}

/// The rectangle that bounds the blob entered at `(x, y)` when its height is
/// measured first, down column `x`, and its width is then grown to the right
/// as far as whole columns of that height are targets.
pub open spec fn single_bb_vert(g: Grid, x: int, y: int) -> BoundingBox {
    let len = span(run_down(g, x, y + 1));
    BoundingBox {
        left_top: Coord { w: x as i64, h: y as i64 },
        right_bottom: Coord { w: (x + cols_right(g, x + 1, y, len)) as i64, h: (y + len) as i64 },
    }
}

/// Whether `bb` is well formed and reaches at most one pixel past the right
/// and lower border of the image.
pub open spec fn on_image(g: Grid, bb: BoundingBox) -> bool {
    &&& bb.wf()
    &&& 0 <= bb.left_top.w
    &&& 0 <= bb.left_top.h
    &&& bb.right_bottom.w <= g.width
    &&& bb.right_bottom.h <= g.height
}

/// The area of a rectangle that fits the image fits a 64-bit integer.
proof fn lemma_area_fits(g: Grid, w: int, h: int)
    requires
        g.wf(),
        0 <= w <= g.width,
        0 <= h <= g.height,
    ensures
        0 <= w * h <= i64::MAX,
{
    assert(0 <= w * h <= g.width * g.height) by (nonlinear_arith)
        requires
            0 <= w <= g.width,
            0 <= h <= g.height,
    ;
}

/// Whether the `len` pixels of row `h` from column `w` on are all targets.
fn row_matches(img: &VisualizedImage, w: i64, len: i64, h: i64) -> (hit: bool)
    requires
        img@.in_bounds(w as int, 0),
        1 <= len <= img@.width,
    ensures
        hit == row_hit(img@, w as int, len as int, h as int),
{
    // read for their bounds: a position on the image fits 32 bits
    let (_width, _height) = img.dimensions();
    let mut j: i64 = 0;
    while j < len
        invariant
            0 <= j <= len <= u32::MAX,
            0 <= w <= u32::MAX,
            forall|i: int| w <= i < w + j ==> target_at(img@, i, h as int),
        decreases len - j,
    {
        if !is_enemy_at(img, w + j, h) {
            return false;
        }
        j = j + 1;
    }
    assert(target_at(img@, w as int, h as int));
    true
}

/// Whether the `len` pixels of column `w` from row `h` on are all targets.
fn col_matches(img: &VisualizedImage, w: i64, h: i64, len: i64) -> (hit: bool)
    requires
        img@.in_bounds(0, h as int),
        1 <= len <= img@.height,
    ensures
        hit == col_hit(img@, w as int, h as int, len as int),
{
    // read for their bounds: a position on the image fits 32 bits
    let (_width, _height) = img.dimensions();
    let mut j: i64 = 0;
    while j < len
        invariant
            0 <= j <= len <= u32::MAX,
            0 <= h <= u32::MAX,
            forall|i: int| h <= i < h + j ==> target_at(img@, w as int, i),
        decreases len - j,
    {
        if !is_enemy_at(img, w, h + j) {
            return false;
        }
        j = j + 1;
    }
    assert(target_at(img@, w as int, h as int));
    true
}

/// Bounds the blob entered at `(w, h)` by a rectangle, measuring its width first.
pub fn scan_single_bb(img: &VisualizedImage, w: i64, h: i64) -> (bb: BoundingBox)
    requires
        img.wf(),
        img@.in_bounds(w as int, h as int),
    ensures
        bb == single_bb(img@, w as int, h as int),
        on_image(img@, bb),
        bb.spec_w() >= 1,
{
    let (width, height) = img.dimensions();
    let mut run: i64 = 0;
    let mut more: bool = is_enemy_at(img, w + 1, h);
    while more
        invariant
            width == img@.width,
            img@.in_bounds(w as int, h as int),
            0 <= run,
            w + run < width,
            more == target_at(img@, w + run + 1, h as int),
            run_right(img@, w + 1, h as int) == run + run_right(img@, w + run + 1, h as int),
        decreases width - (w + run),
    {
        run = run + 1;
        more = is_enemy_at(img, w + run + 1, h);
    }
    let scanlength: i64 = if run > 1 {
        run
    } else {
        1
    };
    assert(scanlength == span(run_right(img@, w + 1, h as int)));

    let mut rows_above: i64 = 0;
    let mut more: bool = h >= 1 && row_matches(img, w, scanlength, h - 1);
    while more
        invariant
            img@.in_bounds(w as int, h as int),
            height == img@.height,
            1 <= scanlength <= img@.width,
            0 <= rows_above <= h,
            more == (h - rows_above - 1 >= 0 && row_hit(
                img@,
                w as int,
                scanlength as int,
                h - rows_above - 1,
            )),
            rows_up(img@, w as int, scanlength as int, h - 1) == rows_above + rows_up(
                img@,
                w as int,
                scanlength as int,
                h - rows_above - 1,
            ),
        decreases h - rows_above,
    {
        rows_above = rows_above + 1;
        more = h - rows_above >= 1 && row_matches(img, w, scanlength, h - rows_above - 1);
    }

    let mut rows_below: i64 = 0;
    let mut more: bool = row_matches(img, w, scanlength, h + 1);
    while more
        invariant
            img@.in_bounds(w as int, h as int),
            height == img@.height,
            1 <= scanlength <= img@.width,
            0 <= rows_below,
            h + rows_below < height,
            more == row_hit(img@, w as int, scanlength as int, h + rows_below + 1),
            rows_down(img@, w as int, scanlength as int, h + 1) == rows_below + rows_down(
                img@,
                w as int,
                scanlength as int,
                h + rows_below + 1,
            ),
        decreases height - (h + rows_below),
    {
        rows_below = rows_below + 1;
        more = row_matches(img, w, scanlength, h + rows_below + 1);
    }
    proof {
        lemma_area_fits(img@, scanlength as int, rows_above + rows_below);
    }
    BoundingBox {
        left_top: Coord { w, h: h - rows_above },
        right_bottom: Coord { w: w + scanlength, h: h + rows_below },
    }
}

/// Bounds the blob entered at `(w, h)` by a rectangle, measuring its height first.
pub fn scan_single_bb_vert(img: &VisualizedImage, w: i64, h: i64) -> (bb: BoundingBox)
    requires
        img.wf(),
        img@.in_bounds(w as int, h as int),
    ensures
        bb == single_bb_vert(img@, w as int, h as int),
        on_image(img@, bb),
{
    let (width, height) = img.dimensions();
    let mut run: i64 = 0;
    let mut more: bool = is_enemy_at(img, w, h + 1);
    while more
        invariant
            height == img@.height,
            img@.in_bounds(w as int, h as int),
            0 <= run,
            h + run < height,
            more == target_at(img@, w as int, h + run + 1),
            run_down(img@, w as int, h + 1) == run + run_down(img@, w as int, h + run + 1),
        decreases height - (h + run),
    {
        run = run + 1;
        more = is_enemy_at(img, w, h + run + 1);
    }
    let scanlength: i64 = if run > 1 {
        run
    } else {
        1
    };
    assert(scanlength == span(run_down(img@, w as int, h + 1)));

    let mut columns: i64 = 0;
    let mut more: bool = col_matches(img, w + 1, h, scanlength);
    while more
        invariant
            img@.in_bounds(w as int, h as int),
            width == img@.width,
            1 <= scanlength <= img@.height,
            0 <= columns,
            w + columns < width,
            more == col_hit(img@, w + columns + 1, h as int, scanlength as int),
            cols_right(img@, w + 1, h as int, scanlength as int) == columns + cols_right(
                img@,
                w + columns + 1,
                h as int,
                scanlength as int,
            ),
        decreases width - (w + columns),
    {
        columns = columns + 1;
        more = col_matches(img, w + columns + 1, h, scanlength);
    }
    proof {
        lemma_area_fits(img@, columns as int, scanlength as int);
    }
    BoundingBox {
        left_top: Coord { w, h },
        right_bottom: Coord { w: w + columns, h: h + scanlength },
    }
}

/// One sweep over the image: what it looks for and how it bounds what it finds.
#[derive(Debug, Clone, Copy)]
pub enum Pass {
    /// Keeps rectangles of the proportions of a spawner; where `last` is set
    /// also those of a worm, and splits what looks like two worms side by side
    /// or one above the other.
    Rects { last: bool },
    /// Cuts what it finds down to the size of `template`.
    OfSize { template: BoundingBox },
    /// Keeps rectangles whose four corners are sound, cut down in the one
    /// dimension in which they exceed `template`.
    Isolated { template: BoundingBox },
    /// Keeps the larger of the two rectangles that the two scans give.
    AnyRatio,
}

impl Pass {
    /// Type validity: a template is a well-formed rectangle.
    pub open spec fn wf(&self) -> bool {
        match *self {
            Pass::Rects { last } => true,
            Pass::OfSize { template } => template.wf(),
            Pass::Isolated { template } => template.wf(),
            Pass::AnyRatio => true,
        }
    }
}

/// The state of a detection run: the image as far as it has been erased and
/// the rectangles found, in the order in which they were found.
pub struct Scan {
    pub grid: Grid,
    pub found: Seq<BoundingBox>,
}

impl Scan {
    /// A run that starts on `grid` with nothing found.
    pub open spec fn fresh(grid: Grid) -> Scan {
        Scan { grid, found: Seq::empty() }
    }

    /// Erases `bb` and records it.
    pub open spec fn take(self, bb: BoundingBox) -> Scan {
        Scan { grid: self.grid.erase(bb), found: self.found.push(bb) }
    }

    /// Erases `bb`, and records it unless it is a speck of an area up to 4.
    pub open spec fn take_if_large(self, bb: BoundingBox) -> Scan {
        if bb.spec_area() > 4 {
            self.take(bb)
        } else {
            Scan { grid: self.grid.erase(bb), ..self }
        }
    }

    /// Erases and records the rectangle of the given size at `corner`. A
    /// rectangle that cannot be built is passed over.
    pub open spec fn place(self, corner: Coord, w: int, h: int) -> Scan {
        match BoundingBox::spec_new(corner, w as i64, h as i64) {
            Ok(bb) => self.take(bb),
            Err(_) => self,
        }
    }

    /// Erases `whole` and records in its place the rectangle of the given
    /// size at the same corner.
    pub open spec fn split(self, whole: BoundingBox, w: int, h: int) -> Scan {
        match BoundingBox::spec_new(whole.left_top, w as i64, h as i64) {
            Ok(part) => Scan { grid: self.grid.erase(whole), found: self.found.push(part) },
            Err(_) => self,
        }
    }
}

/// Whether every rectangle of the sequence is well formed.
pub open spec fn all_wf(found: Seq<BoundingBox>) -> bool {
    forall|i: int| 0 <= i < found.len() ==> (#[trigger] found[i]).wf()
}

/// Width to height between 5:4 and 3:2: the proportions of a spawner.
pub open spec fn spawner_like(bb: BoundingBox) -> bool {
    bb.ratio_at_least(5, 4) && bb.ratio_at_most(3, 2)
}

/// Width to height from 3:5 up to, not including, 5:4: the squarer
/// proportions of a worm.
pub open spec fn worm_like(bb: BoundingBox) -> bool {
    bb.ratio_at_least(3, 5) && bb.ratio_below(5, 4)
}

/// Twice the proportions of a worm: two of them side by side.
pub open spec fn two_abreast(bb: BoundingBox) -> bool {
    bb.ratio_at_least(7, 5) && bb.ratio_at_most(12, 5)
}

/// Half the proportions of a worm: two of them, one above the other.
pub open spec fn two_stacked(bb: BoundingBox) -> bool {
    bb.ratio_at_least(7, 20) && bb.ratio_at_most(3, 5)
}

/// Whether a measure is the expected one, or up to two less.
pub open spec fn near(found: int, expected: int) -> bool {
    -2 < found + 1 - expected < 2
}

/// Whether the four corners of `bb` are strict corners, each of its own kind.
pub open spec fn is_isolated(g: Grid, bb: BoundingBox) -> bool {
    &&& strict_corner(g, bb.left_top.w as int, bb.left_top.h as int) == Some(Corner::LeftTop)
    &&& strict_corner(g, bb.left_top.w as int, bb.right_bottom.h as int) == Some(
        Corner::LeftBottom,
    )
    &&& strict_corner(g, bb.right_bottom.w as int, bb.left_top.h as int) == Some(Corner::RightTop)
    &&& strict_corner(g, bb.right_bottom.w as int, bb.right_bottom.h as int) == Some(
        Corner::RightBottom,
    )
}

/// What a `Rects` sweep does with the blob entered at `(x, y)`.
pub open spec fn step_rects(s: Scan, x: int, y: int, last: bool) -> Scan {
    let bb = single_bb(s.grid, x, y);
    let s1 = if spawner_like(bb) {
        s.take_if_large(bb)
    } else {
        s
    };
    if !last {
        s1
    } else {
        let s2 = if worm_like(bb) {
            s1.take_if_large(bb)
        } else {
            s1
        };
        if well_defined_corners(s2.grid, bb) {
            let s3 = if two_abreast(bb) {
                s2.split(bb, bb.spec_w() / 2, bb.spec_h())
            } else {
                s2
            };
            if two_stacked(bb) {
                s3.split(bb, bb.spec_w(), bb.spec_h() / 2)
            } else {
                s3
            }
        } else {
            s2
        }
    }
}

/// What an `OfSize` sweep does with the blob entered at `(x, y)`. A blob that
/// holds the template gets it at its near corner, and so does one of about
/// its width that ends on unexplored area. A blob of about the template's
/// width or height whose corners are not all sound gets it at whichever of
/// its near and far corner is sound, the near corner first.
pub open spec fn step_of_size(s: Scan, x: int, y: int, t: BoundingBox) -> Scan {
    let bb = single_bb(s.grid, x, y);
    let s1 = if bb.spec_w() >= t.spec_w() && bb.spec_h() >= t.spec_h() {
        s.place(bb.left_top, t.spec_w(), t.spec_h())
    } else if near(bb.spec_w(), t.spec_w()) && black_at(
        s.grid,
        bb.right_bottom.w as int,
        bb.right_bottom.h + 1,
    ) {
        s.place(bb.left_top, t.spec_w(), t.spec_h())
    } else {
        s
    };
    if !well_defined_corners(s1.grid, bb) && (near(bb.spec_w(), t.spec_w()) || near(
        bb.spec_h(),
        t.spec_h(),
    )) {
        if strict_corner(s1.grid, bb.left_top.w as int, bb.left_top.h as int) is Some {
            s1.place(bb.left_top, t.spec_w(), t.spec_h())
        } else if strict_corner(s1.grid, bb.right_bottom.w as int, bb.right_bottom.h as int)
            is Some {
            s1.place(
                Coord {
                    w: (bb.right_bottom.w - t.spec_w()) as i64,
                    h: (bb.right_bottom.h - t.spec_h()) as i64,
                },
                t.spec_w(),
                t.spec_h(),
            )
        } else {
            s1
        }
    } else {
        s1
    }
}

/// What an `Isolated` sweep does with the blob entered at `(x, y)`.
pub open spec fn step_isolated(s: Scan, x: int, y: int, t: BoundingBox) -> Scan {
    let bb = single_bb(s.grid, x, y);
    if !is_isolated(s.grid, bb) {
        s
    } else if bb.spec_w() > t.spec_w() + 2 {
        s.place(bb.left_top, t.spec_w(), bb.spec_h())
    } else if bb.spec_h() > t.spec_h() + 2 {
        s.place(bb.left_top, bb.spec_w(), t.spec_h())
    } else {
        s.take_if_large(bb)
    }
}

/// What an `AnyRatio` sweep does with the blob entered at `(x, y)`.
pub open spec fn step_any_ratio(s: Scan, x: int, y: int) -> Scan {
    let across = single_bb(s.grid, x, y);
    let down = single_bb_vert(s.grid, x, y);
    if across.spec_area() > down.spec_area() {
        s.take(across)
    } else {
        s.take(down)
    }
}

/// What a sweep does at `(x, y)`: nothing, unless a blob is entered there.
pub open spec fn step(pass: Pass, s: Scan, x: int, y: int) -> Scan {
    if !entry_edge(s.grid, x, y) {
        s
    } else {
        match pass {
            Pass::Rects { last } => step_rects(s, x, y, last),
            Pass::OfSize { template } => step_of_size(s, x, y, template),
            Pass::Isolated { template } => step_isolated(s, x, y, template),
            Pass::AnyRatio => step_any_ratio(s, x, y),
        }
    }
}

/// The run after the first `n` positions of row `y`, from the left.
pub open spec fn sweep_row(pass: Pass, s: Scan, y: int, n: nat) -> Scan
    decreases n,
{
    if n == 0 {
        s
    } else {
        step(pass, sweep_row(pass, s, y, (n - 1) as nat), n - 1, y)
    }
}

/// The run after the first `m` rows of `width` positions each, from the top.
pub open spec fn sweep_rows(pass: Pass, s: Scan, width: nat, m: nat) -> Scan
    decreases m,
{
    if m == 0 {
        s
    } else {
        sweep_row(pass, sweep_rows(pass, s, width, (m - 1) as nat), m - 1, width)
    }
}

/// The run after one sweep over the whole image: rows from the top, each from
/// the left. What a position finds depends on what was erased before it.
pub open spec fn sweep_all(pass: Pass, s: Scan) -> Scan {
    sweep_rows(pass, s, s.grid.width as nat, s.grid.height as nat)
}

/// The run after `n` sweeps of the same kind.
pub open spec fn sweep_times(pass: Pass, s: Scan, n: nat) -> Scan
    decreases n,
{
    if n == 0 {
        s
    } else {
        sweep_all(pass, sweep_times(pass, s, (n - 1) as nat))
    }
}

/// The run after the first `done` of `passes` sweeps for rectangles, of
/// which only the last one looks for worms.
pub open spec fn rect_sweeps(s: Scan, passes: int, done: nat) -> Scan
    decreases done,
{
    if done == 0 {
        s
    } else {
        sweep_all(Pass::Rects { last: done == passes }, rect_sweeps(s, passes, (done - 1) as nat))
    }
}

/// The state of the run that `img` and `bbs` hold.
pub open spec fn scan_of(img: &VisualizedImage, bbs: &Vec<BoundingBox>) -> Scan {
    Scan { grid: img@, found: bbs@ }
}

/// Whether a run went from `before` to `after` and the image kept its validity
/// and the rectangles theirs.
pub open spec fn went(
    before: Scan,
    after: Scan,
    img: &VisualizedImage,
    bbs: &Vec<BoundingBox>,
) -> bool {
    &&& img.wf()
    &&& scan_of(img, bbs) == after
    &&& after.grid.width == before.grid.width
    &&& after.grid.height == before.grid.height
    &&& all_wf(before.found) ==> all_wf(after.found)
}

fn take(img: &mut VisualizedImage, bbs: &mut Vec<BoundingBox>, bb: BoundingBox)
    requires
        old(img).wf(),
        bb.wf(),
    ensures
        went(
            scan_of(old(img), old(bbs)),
            scan_of(old(img), old(bbs)).take(bb),
            final(img),
            final(bbs),
        ),
{
    mask_bb(img, &bb);
    bbs.push(bb);
}

fn take_if_large(img: &mut VisualizedImage, bbs: &mut Vec<BoundingBox>, bb: BoundingBox)
    requires
        old(img).wf(),
        bb.wf(),
    ensures
        went(
            scan_of(old(img), old(bbs)),
            scan_of(old(img), old(bbs)).take_if_large(bb),
            final(img),
            final(bbs),
        ),
{
    mask_bb(img, &bb);
    if bb.area() > 4 {
        bbs.push(bb);
    }
}

fn place(img: &mut VisualizedImage, bbs: &mut Vec<BoundingBox>, corner: Coord, w: i64, h: i64)
    requires
        old(img).wf(),
    ensures
        went(
            scan_of(old(img), old(bbs)),
            scan_of(old(img), old(bbs)).place(corner, w as int, h as int),
            final(img),
            final(bbs),
        ),
{
    match BoundingBox::new(corner, w, h) {
        Ok(bb) => take(img, bbs, bb),
        Err(_) => {},
    }
}

fn split(img: &mut VisualizedImage, bbs: &mut Vec<BoundingBox>, whole: BoundingBox, w: i64, h: i64)
    requires
        old(img).wf(),
    ensures
        went(
            scan_of(old(img), old(bbs)),
            scan_of(old(img), old(bbs)).split(whole, w as int, h as int),
            final(img),
            final(bbs),
        ),
{
    match BoundingBox::new(whole.left_top, w, h) {
        Ok(part) => {
            mask_bb(img, &whole);
            bbs.push(part);
        },
        Err(_) => {},
    }
}

fn is_near(found: i64, expected: i64) -> (close: bool)
    ensures
        close == near(found as int, expected as int),
{
    let gap: i128 = found as i128 + 1 - expected as i128;
    -2 < gap && gap < 2
}

fn is_kind(found: Option<Corner>, kind: Corner) -> (same: bool)
    ensures
        same == (found == Some(kind)),
{
    match (found, kind) {
        (Some(Corner::LeftTop), Corner::LeftTop) => true,
        (Some(Corner::LeftBottom), Corner::LeftBottom) => true,
        (Some(Corner::RightTop), Corner::RightTop) => true,
        (Some(Corner::RightBottom), Corner::RightBottom) => true,
        _ => false,
    }
}

fn has_isolated_corners(img: &VisualizedImage, bb: &BoundingBox) -> (alone: bool)
    ensures
        alone == is_isolated(img@, *bb),
{
    is_kind(get_corner_strict(img, bb.left_top.w, bb.left_top.h), Corner::LeftTop) && is_kind(
        get_corner_strict(img, bb.left_top.w, bb.right_bottom.h),
        Corner::LeftBottom,
    ) && is_kind(get_corner_strict(img, bb.right_bottom.w, bb.left_top.h), Corner::RightTop)
        && is_kind(
        get_corner_strict(img, bb.right_bottom.w, bb.right_bottom.h),
        Corner::RightBottom,
    )
}

fn scan_step_rects(
    img: &mut VisualizedImage,
    bbs: &mut Vec<BoundingBox>,
    w: i64,
    h: i64,
    last: bool,
)
    requires
        old(img).wf(),
        old(img)@.in_bounds(w as int, h as int),
    ensures
        went(
            scan_of(old(img), old(bbs)),
            step_rects(scan_of(old(img), old(bbs)), w as int, h as int, last),
            final(img),
            final(bbs),
        ),
{
    let bb = scan_single_bb(img, w, h);
    if bb.has_ratio_at_least(5, 4) && bb.has_ratio_at_most(3, 2) {
        // about the proportions of a spawner
        take_if_large(img, bbs, bb);
    }
    if last {
        if bb.has_ratio_at_least(3, 5) && bb.has_ratio_below(5, 4) {
            take_if_large(img, bbs, bb);
        }
        if has_well_defined_corners(img, &bb) {
            if bb.has_ratio_at_least(7, 5) && bb.has_ratio_at_most(12, 5) {
                split(img, bbs, bb, bb.w() / 2, bb.h());
            }
            if bb.has_ratio_at_least(7, 20) && bb.has_ratio_at_most(3, 5) {
                split(img, bbs, bb, bb.w(), bb.h() / 2);
            }
        }
    }
}

fn scan_step_of_size(
    img: &mut VisualizedImage,
    bbs: &mut Vec<BoundingBox>,
    w: i64,
    h: i64,
    template: &BoundingBox,
)
    requires
        old(img).wf(),
        old(img)@.in_bounds(w as int, h as int),
        template.wf(),
    ensures
        went(
            scan_of(old(img), old(bbs)),
            step_of_size(scan_of(old(img), old(bbs)), w as int, h as int, *template),
            final(img),
            final(bbs),
        ),
{
    // read for their bounds: a position on the image fits 32 bits
    let (_width, _height) = img.dimensions();
    let bb = scan_single_bb(img, w, h);
    let tw: i64 = template.w();
    let th: i64 = template.h();
    if bb.w() >= tw && bb.h() >= th {
        // the template fits within this blob
        place(img, bbs, bb.left_top, tw, th);
    } else if is_near(bb.w(), tw) {
        if is_black_at(img, bb.right_bottom.w, bb.right_bottom.h + 1) {
            // one pixel south is pure black: the blob ends on unexplored area
            place(img, bbs, bb.left_top, tw, th);
        }
    }
    if !has_well_defined_corners(img, &bb) {
        if is_near(bb.w(), tw) || is_near(bb.h(), th) {
            if get_corner_strict(img, bb.left_top.w, bb.left_top.h).is_some() {
                place(img, bbs, bb.left_top, tw, th);
            } else if get_corner_strict(img, bb.right_bottom.w, bb.right_bottom.h).is_some() {
                // the far corners are to meet
                let corner = Coord { w: bb.right_bottom.w - tw, h: bb.right_bottom.h - th };
                place(img, bbs, corner, tw, th);
            }
        }
    }
}

fn scan_step_isolated(
    img: &mut VisualizedImage,
    bbs: &mut Vec<BoundingBox>,
    w: i64,
    h: i64,
    template: &BoundingBox,
)
    requires
        old(img).wf(),
        old(img)@.in_bounds(w as int, h as int),
        template.wf(),
    ensures
        went(
            scan_of(old(img), old(bbs)),
            step_isolated(scan_of(old(img), old(bbs)), w as int, h as int, *template),
            final(img),
            final(bbs),
        ),
{
    let bb = scan_single_bb(img, w, h);
    if has_isolated_corners(img, &bb) {
        if bb.w() - 2 > template.w() {
            // too long
            place(img, bbs, bb.left_top, template.w(), bb.h());
        } else if bb.h() - 2 > template.h() {
            // too tall
            place(img, bbs, bb.left_top, bb.w(), template.h());
        } else {
            take_if_large(img, bbs, bb);
        }
    }
}

fn scan_step_any_ratio(img: &mut VisualizedImage, bbs: &mut Vec<BoundingBox>, w: i64, h: i64)
    requires
        old(img).wf(),
        old(img)@.in_bounds(w as int, h as int),
    ensures
        went(
            scan_of(old(img), old(bbs)),
            step_any_ratio(scan_of(old(img), old(bbs)), w as int, h as int),
            final(img),
            final(bbs),
        ),
{
    let bb = scan_single_bb(img, w, h);
    let other_bb = scan_single_bb_vert(img, w, h);
    if bb.area() > other_bb.area() {
        take(img, bbs, bb);
    } else {
        take(img, bbs, other_bb);
    }
}

/// Looks at one position in the course of a sweep.
fn scan_step(pass: &Pass, img: &mut VisualizedImage, bbs: &mut Vec<BoundingBox>, w: i64, h: i64)
    requires
        old(img).wf(),
        old(img)@.in_bounds(w as int, h as int),
        pass.wf(),
    ensures
        went(
            scan_of(old(img), old(bbs)),
            step(*pass, scan_of(old(img), old(bbs)), w as int, h as int),
            final(img),
            final(bbs),
        ),
{
    if at_enemy_edge(img, w, h) {
        match pass {
            Pass::Rects { last } => scan_step_rects(img, bbs, w, h, *last),
            Pass::OfSize { template } => scan_step_of_size(img, bbs, w, h, template),
            Pass::Isolated { template } => scan_step_isolated(img, bbs, w, h, template),
            Pass::AnyRatio => scan_step_any_ratio(img, bbs, w, h),
        }
    }
}

/// One sweep over the image, rows from the top and each row from the left:
/// erases what it takes for found and appends it to `bbs`.
pub fn sweep(pass: &Pass, img: &mut VisualizedImage, bbs: &mut Vec<BoundingBox>)
    requires
        old(img).wf(),
        pass.wf(),
    ensures
        went(
            scan_of(old(img), old(bbs)),
            sweep_all(*pass, scan_of(old(img), old(bbs))),
            final(img),
            final(bbs),
        ),
{
    let (width, height) = img.dimensions();
    let ghost start = scan_of(img, bbs);
    let mut h: u32 = 0;
    while h < height
        invariant
            pass.wf(),
            h <= height,
            width == start.grid.width,
            height == start.grid.height,
            went(start, sweep_rows(*pass, start, width as nat, h as nat), img, bbs),
        decreases height - h,
    {
        let ghost row_start = scan_of(img, bbs);
        let mut w: u32 = 0;
        while w < width
            invariant
                pass.wf(),
                h < height,
                w <= width,
                width == row_start.grid.width,
                height == row_start.grid.height,
                went(row_start, sweep_row(*pass, row_start, h as int, w as nat), img, bbs),
            decreases width - w,
        {
            scan_step(pass, img, bbs, w as i64, h as i64);
            w = w + 1;
        }
        h = h + 1;
    }
}

/// How many sweeps a request for `passes` of them makes.
pub open spec fn sweep_count(passes: int) -> nat {
    if passes > 0 {
        passes as nat
    } else {
        0
    }
}

/// Scans for rectangles, taking first what has the proportions of a spawner.
/// The last of the `passes` sweeps accepts what looks like a worm as well.
pub fn scan_rects(img: &mut VisualizedImage, passes: i64) -> (bbs: Vec<BoundingBox>)
    requires
        old(img).wf(),
    ensures
        went(
            Scan::fresh(old(img)@),
            rect_sweeps(Scan::fresh(old(img)@), passes as int, sweep_count(passes as int)),
            final(img),
            &bbs,
        ),
        all_wf(bbs@),
{
    let mut bbs: Vec<BoundingBox> = Vec::new();
    let ghost start = scan_of(img, &bbs);
    let mut pass: i64 = 0;
    while pass < passes
        invariant
            0 <= pass,
            pass <= sweep_count(passes as int),
            start.found.len() == 0,
            went(start, rect_sweeps(start, passes as int, pass as nat), img, &bbs),
        decreases passes - pass,
    {
        sweep(&Pass::Rects { last: pass + 1 == passes }, img, &mut bbs);
        pass = pass + 1;
    }
    bbs
}

/// Scans twice for blobs that hold `template` or come close to it, and cuts
/// each down to the size of `template`.
pub fn scan_rects_of_size(img: &mut VisualizedImage, template: &BoundingBox) -> (bbs: Vec<
    BoundingBox,
>)
    requires
        old(img).wf(),
        template.wf(),
    ensures
        went(
            Scan::fresh(old(img)@),
            sweep_times(Pass::OfSize { template: *template }, Scan::fresh(old(img)@), 2),
            final(img),
            &bbs,
        ),
        all_wf(bbs@),
{
    let mut bbs: Vec<BoundingBox> = Vec::new();
    let pass = Pass::OfSize { template: *template };
    proof {
        reveal_with_fuel(sweep_times, 3);
    }
    sweep(&pass, img, &mut bbs);
    sweep(&pass, img, &mut bbs);
    bbs
}

/// Scans once for rectangles that stand alone, each corner sound, and cuts
/// one that is longer or taller than `template` down to it in that dimension:
/// two spawners that touch look like one of twice the size.
pub fn scan_isolated_rects(img: &mut VisualizedImage, template: &BoundingBox) -> (bbs: Vec<
    BoundingBox,
>)
    requires
        old(img).wf(),
        template.wf(),
    ensures
        went(
            Scan::fresh(old(img)@),
            sweep_all(Pass::Isolated { template: *template }, Scan::fresh(old(img)@)),
            final(img),
            &bbs,
        ),
        all_wf(bbs@),
{
    let mut bbs: Vec<BoundingBox> = Vec::new();
    sweep(&Pass::Isolated { template: *template }, img, &mut bbs);
    bbs
}

/// Sweeps `passes` times for whatever is left, bounding each blob both ways
/// and keeping the larger rectangle.
pub fn scan_rect_any_ratio(img: &mut VisualizedImage, passes: i64) -> (bbs: Vec<BoundingBox>)
    requires
        old(img).wf(),
    ensures
        went(
            Scan::fresh(old(img)@),
            sweep_times(Pass::AnyRatio, Scan::fresh(old(img)@), sweep_count(passes as int)),
            final(img),
            &bbs,
        ),
        all_wf(bbs@),
{
    let mut bbs: Vec<BoundingBox> = Vec::new();
    let ghost start = scan_of(img, &bbs);
    let mut pass: i64 = 0;
    while pass < passes
        invariant
            0 <= pass,
            pass <= sweep_count(passes as int),
            start.found.len() == 0,
            went(start, sweep_times(Pass::AnyRatio, start, pass as nat), img, &bbs),
        decreases passes - pass,
    {
        sweep(&Pass::AnyRatio, img, &mut bbs);
        pass = pass + 1;
    }
    bbs
}

/// Whether a rectangle has at least a fifth of the area of the unit.
pub open spec fn large_enough(bb: BoundingBox, unit: BoundingBox) -> bool {
    5 * bb.spec_area() >= unit.spec_area()
}

/// The rectangles of at least a fifth of the area of the unit, in their order.
pub open spec fn keep_large(found: Seq<BoundingBox>, unit: BoundingBox) -> Seq<BoundingBox>
    decreases found.len(),
{
    if found.len() == 0 {
        Seq::empty()
    } else if large_enough(found.last(), unit) {
        keep_large(found.drop_last(), unit).push(found.last())
    } else {
        keep_large(found.drop_last(), unit)
    }
}

/// What a detection run gives: the image as the run leaves it, the unit
/// rectangle that it inferred, and the targets.
pub struct Detection {
    pub grid: Grid,
    pub unit: BoundingBox,
    pub targets: Seq<BoundingBox>,
}

/// A detection run on `g`. Five scans follow one another on the same image,
/// every one blind to what those before it erased: three sweeps for
/// rectangles, from which the unit is inferred; two sweeps that cut blobs down
/// to the unit; one sweep for rectangles, worms included; one for rectangles
/// that stand alone; three for whatever is left. Of what they find, in that
/// order, the targets are the rectangles of at least a fifth of the unit's area.
pub open spec fn detect(g: Grid) -> Detection {
    let first = rect_sweeps(Scan::fresh(g), 3, 3);
    let unit = unit_box(first.found);
    let sized = sweep_times(Pass::OfSize { template: unit }, Scan::fresh(first.grid), 2);
    let second = rect_sweeps(Scan::fresh(sized.grid), 1, 1);
    let alone = sweep_all(Pass::Isolated { template: unit }, Scan::fresh(second.grid));
    let rest = sweep_times(Pass::AnyRatio, Scan::fresh(alone.grid), 3);
    Detection {
        grid: rest.grid,
        unit,
        targets: keep_large(
            first.found + sized.found + second.found + alone.found + rest.found,
            unit,
        ),
    }
}

/// Drops the rectangles of less than a fifth of the area of the unit.
fn drop_specks(found: &Vec<BoundingBox>, unit: &BoundingBox) -> (kept: Vec<BoundingBox>)
    requires
        all_wf(found@),
        unit.wf(),
    ensures
        kept@ == keep_large(found@, *unit),
        all_wf(kept@),
{
    let mut kept: Vec<BoundingBox> = Vec::new();
    let floor: i64 = unit.area();
    let mut i: usize = 0;
    assert(found@.take(0) =~= Seq::<BoundingBox>::empty());
    while i < found.len()
        invariant
            i <= found.len(),
            all_wf(found@),
            all_wf(kept@),
            floor == unit.spec_area(),
            kept@ == keep_large(found@.take(i as int), *unit),
        decreases found.len() - i,
    {
        assert(found@.take(i + 1).drop_last() =~= found@.take(i as int));
        let bb: BoundingBox = found[i];
        assert(bb.wf());
        if 5 * (bb.area() as i128) >= floor as i128 {
            kept.push(bb);
        }
        i = i + 1;
    }
    assert(found@.take(found.len() as int) =~= found@);
    kept
}

/// Finds the targets on a capture of the map view and infers the width of
/// the unit. The image is erased as the targets are found; keep a copy where
/// the capture is needed afterwards. The closer the view, the better it works.
pub fn process_red(i: &mut VisualizedImage) -> (found: (Vec<BoundingBox>, i64))
    requires
        old(i).wf(),
    ensures
        final(i).wf(),
        final(i)@ == detect(old(i)@).grid,
        found.0@ == detect(old(i)@).targets,
        found.1 == detect(old(i)@).unit.spec_w(),
        all_wf(found.0@),
{
    let mut bbs = scan_rects(i, 3);
    let spawner_bb = deduce_spawner_size(bbs.as_slice());
    let mut sized = scan_rects_of_size(i, &spawner_bb);
    bbs.append(&mut sized);
    let mut second = scan_rects(i, 1);
    bbs.append(&mut second);
    let mut alone = scan_isolated_rects(i, &spawner_bb);
    bbs.append(&mut alone);
    let mut rest = scan_rect_any_ratio(i, 3);
    bbs.append(&mut rest);
    let targets = drop_specks(&bbs, &spawner_bb);
    (targets, spawner_bb.w())
}

/// What a run to the right is: targets all along, and none where it ends.
pub proof fn lemma_run_right_is_maximal(g: Grid, x: int, y: int)
    ensures
        forall|i: int| x <= i < x + run_right(g, x, y) ==> target_at(g, i, y),
        !target_at(g, x + run_right(g, x, y), y),
    decreases g.width - x,
{
    if g.in_bounds(x, y) && target_at(g, x, y) {
        lemma_run_right_is_maximal(g, x + 1, y);
    }
}

/// What a run downwards is: targets all along, and none where it ends.
pub proof fn lemma_run_down_is_maximal(g: Grid, x: int, y: int)
    ensures
        forall|j: int| y <= j < y + run_down(g, x, y) ==> target_at(g, x, j),
        !target_at(g, x, y + run_down(g, x, y)),
    decreases g.height - y,
{
    if g.in_bounds(x, y) && target_at(g, x, y) {
        lemma_run_down_is_maximal(g, x, y + 1);
    }
}

/// What the rows counted upwards are: each of them hit, and the next one not.
pub proof fn lemma_rows_up_are_maximal(g: Grid, x: int, len: int, y: int)
    ensures
        forall|j: int| y - rows_up(g, x, len, y) < j <= y ==> row_hit(g, x, len, j),
        !(y - rows_up(g, x, len, y) >= 0 && row_hit(g, x, len, y - rows_up(g, x, len, y))),
    decreases y + 1,
{
    if y >= 0 && row_hit(g, x, len, y) {
        lemma_rows_up_are_maximal(g, x, len, y - 1);
    }
}

/// What the rows counted downwards are: each of them hit, and the next one not.
pub proof fn lemma_rows_down_are_maximal(g: Grid, x: int, len: int, y: int)
    ensures
        forall|j: int| y <= j < y + rows_down(g, x, len, y) ==> row_hit(g, x, len, j),
        !(y + rows_down(g, x, len, y) < g.height && row_hit(
            g,
            x,
            len,
            y + rows_down(g, x, len, y),
        )),
    decreases g.height - y,
{
    if y < g.height && row_hit(g, x, len, y) {
        lemma_rows_down_are_maximal(g, x, len, y + 1);
    }
}

/// What the columns counted to the right are: each of them hit, and the next
/// one not.
pub proof fn lemma_cols_right_are_maximal(g: Grid, x: int, y: int, len: int)
    ensures
        forall|i: int| x <= i < x + cols_right(g, x, y, len) ==> col_hit(g, i, y, len),
        !(x + cols_right(g, x, y, len) < g.width && col_hit(
            g,
            x + cols_right(g, x, y, len),
            y,
            len,
        )),
    decreases g.width - x,
{
    if x < g.width && col_hit(g, x, y, len) {
        lemma_cols_right_are_maximal(g, x + 1, y, len);
    }
}

/// Whether `after` is `before` with some of its pixels erased.
pub open spec fn only_erased(before: Grid, after: Grid) -> bool {
    &&& after.width == before.width
    &&& after.height == before.height
    &&& after.cells.dom() == before.cells.dom()
    &&& forall|k: (int, int)|
        before.cells.dom().contains(k) ==> #[trigger] after.cells[k] == before.cells[k]
            || after.cells[k] == erased()
}

/// Whether a run went on from `before` to `after`: pixels were erased and
/// none restored, and rectangles were added and none dropped.
pub open spec fn went_on(before: Scan, after: Scan) -> bool {
    &&& only_erased(before.grid, after.grid)
    &&& before.found.len() <= after.found.len()
    &&& forall|i: int| 0 <= i < before.found.len() ==> #[trigger] after.found[i] == before.found[i]
}

proof fn lemma_went_on_twice(a: Scan, b: Scan, c: Scan)
    requires
        went_on(a, b),
        went_on(b, c),
    ensures
        went_on(a, c),
{
    assert forall|k: (int, int)| a.grid.cells.dom().contains(k) implies #[trigger] c.grid.cells[k]
        == a.grid.cells[k] || c.grid.cells[k] == erased() by {
        assert(b.grid.cells[k] == a.grid.cells[k] || b.grid.cells[k] == erased());
    }
    assert forall|i: int| 0 <= i < a.found.len() implies #[trigger] c.found[i] == a.found[i] by {
        assert(b.found[i] == a.found[i]);
    }
}

proof fn lemma_taking_goes_on(s: Scan, bb: BoundingBox, corner: Coord, w: int, h: int)
    ensures
        went_on(s, s.take(bb)),
        went_on(s, s.take_if_large(bb)),
        went_on(s, s.place(corner, w, h)),
        went_on(s, s.split(bb, w, h)),
{
    assert(s.grid.erase(bb).cells.dom() =~= s.grid.cells.dom());
    match BoundingBox::spec_new(corner, w as i64, h as i64) {
        Ok(nb) => {
            assert(s.grid.erase(nb).cells.dom() =~= s.grid.cells.dom());
        },
        Err(_) => {},
    }
}

proof fn lemma_step_goes_on(pass: Pass, s: Scan, x: int, y: int)
    ensures
        went_on(s, step(pass, s, x, y)),
{
    if entry_edge(s.grid, x, y) {
        let bb = single_bb(s.grid, x, y);
        let none = Coord { w: 0, h: 0 };
        match pass {
            Pass::Rects { last } => {
                let s1 = if spawner_like(bb) {
                    s.take_if_large(bb)
                } else {
                    s
                };
                let s2 = if last && worm_like(bb) {
                    s1.take_if_large(bb)
                } else {
                    s1
                };
                let s3 = if last && well_defined_corners(s2.grid, bb) && two_abreast(bb) {
                    s2.split(bb, bb.spec_w() / 2, bb.spec_h())
                } else {
                    s2
                };
                lemma_taking_goes_on(s, bb, none, 0, 0);
                lemma_taking_goes_on(s1, bb, none, 0, 0);
                lemma_taking_goes_on(s2, bb, none, bb.spec_w() / 2, bb.spec_h());
                lemma_taking_goes_on(s3, bb, none, bb.spec_w(), bb.spec_h() / 2);
                lemma_went_on_twice(s, s1, s2);
                lemma_went_on_twice(s, s2, s3);
                lemma_went_on_twice(s, s3, step(pass, s, x, y));
            },
            Pass::OfSize { template } => {
                let t = template;
                let s1 = if bb.spec_w() >= t.spec_w() && bb.spec_h() >= t.spec_h() {
                    s.place(bb.left_top, t.spec_w(), t.spec_h())
                } else if near(bb.spec_w(), t.spec_w()) && black_at(
                    s.grid,
                    bb.right_bottom.w as int,
                    bb.right_bottom.h + 1,
                ) {
                    s.place(bb.left_top, t.spec_w(), t.spec_h())
                } else {
                    s
                };
                let far = Coord {
                    w: (bb.right_bottom.w - t.spec_w()) as i64,
                    h: (bb.right_bottom.h - t.spec_h()) as i64,
                };
                lemma_taking_goes_on(s, bb, bb.left_top, t.spec_w(), t.spec_h());
                lemma_taking_goes_on(s1, bb, bb.left_top, t.spec_w(), t.spec_h());
                lemma_taking_goes_on(s1, bb, far, t.spec_w(), t.spec_h());
                lemma_went_on_twice(s, s1, step(pass, s, x, y));
            },
            Pass::Isolated { template } => {
                lemma_taking_goes_on(s, bb, bb.left_top, template.spec_w(), bb.spec_h());
                lemma_taking_goes_on(s, bb, bb.left_top, bb.spec_w(), template.spec_h());
            },
            Pass::AnyRatio => {
                lemma_taking_goes_on(s, bb, none, 0, 0);
                lemma_taking_goes_on(s, single_bb_vert(s.grid, x, y), none, 0, 0);
            },
        }
    }
}

proof fn lemma_sweep_row_goes_on(pass: Pass, s: Scan, y: int, n: nat)
    ensures
        went_on(s, sweep_row(pass, s, y, n)),
    decreases n,
{
    if n > 0 {
        let before = sweep_row(pass, s, y, (n - 1) as nat);
        lemma_sweep_row_goes_on(pass, s, y, (n - 1) as nat);
        lemma_step_goes_on(pass, before, n - 1, y);
        lemma_went_on_twice(s, before, sweep_row(pass, s, y, n));
    }
}

proof fn lemma_sweep_rows_go_on(pass: Pass, s: Scan, width: nat, m: nat)
    ensures
        went_on(s, sweep_rows(pass, s, width, m)),
    decreases m,
{
    if m > 0 {
        let before = sweep_rows(pass, s, width, (m - 1) as nat);
        lemma_sweep_rows_go_on(pass, s, width, (m - 1) as nat);
        lemma_sweep_row_goes_on(pass, before, m - 1, width);
        lemma_went_on_twice(s, before, sweep_rows(pass, s, width, m));
    }
}

/// A sweep erases as it goes: it restores no pixel, so that what an earlier
/// sweep found is found by none after it, and it drops no rectangle.
pub proof fn lemma_sweep_goes_on(pass: Pass, s: Scan)
    ensures
        went_on(s, sweep_all(pass, s)),
{
    lemma_sweep_rows_go_on(pass, s, s.grid.width as nat, s.grid.height as nat);
}

/// Whether the grid holds no target pixel.
pub open spec fn no_target(g: Grid) -> bool {
    forall|x: int, y: int| !target_at(g, x, y)
}

/// Corner strictness: a rectangle one of whose corners borders pure black has
/// no well-defined corners, though the neighbours of that corner make it a
/// corner of some kind.
pub proof fn lemma_black_border_spoils_corners(
    g: Grid,
    bb: BoundingBox,
    x: int,
    y: int,
    kind: Corner,
)
    requires
        x == bb.left_top.w || x == bb.right_bottom.w,
        y == bb.left_top.h || y == bb.right_bottom.h,
        corner_kind(g, x, y) == Some(kind),
        borders_black(g, x, y, kind),
    ensures
        !well_defined_corners(g, bb),
{
    assert(strict_corner(g, x, y) is None);
}

/// What is erased is no target any more, and what is not erased is what it was.
pub proof fn lemma_erase_clears(g: Grid, bb: BoundingBox, x: int, y: int)
    requires
        g.wf(),
    ensures
        bb.contains(x, y) ==> !target_at(g.erase(bb), x, y),
        !bb.contains(x, y) ==> g.erase(bb).at(x, y) == g.at(x, y),
        g.erase(bb).wf(),
{
    assert(g.cells.dom().contains((x, y)) <==> g.in_bounds(x, y));
    assert forall|i: int, j: int| #[trigger]
        g.erase(bb).cells.dom().contains((i, j)) <==> g.erase(bb).in_bounds(i, j) by {
        assert(g.cells.dom().contains((i, j)) <==> g.in_bounds(i, j));
    }
}

/// An image erased as a whole holds no target.
pub proof fn lemma_erased_image_has_no_target(g: Grid, bb: BoundingBox)
    requires
        g.wf(),
        forall|x: int, y: int| g.in_bounds(x, y) ==> bb.contains(x, y),
    ensures
        no_target(g.erase(bb)),
{
    assert forall|x: int, y: int| !target_at(g.erase(bb), x, y) by {
        lemma_erase_clears(g, bb, x, y);
    }
}

proof fn lemma_sweep_row_finds_nothing(pass: Pass, s: Scan, y: int, n: nat)
    requires
        no_target(s.grid),
    ensures
        sweep_row(pass, s, y, n) == s,
    decreases n,
{
    if n > 0 {
        lemma_sweep_row_finds_nothing(pass, s, y, (n - 1) as nat);
    }
}

proof fn lemma_sweep_rows_find_nothing(pass: Pass, s: Scan, width: nat, m: nat)
    requires
        no_target(s.grid),
    ensures
        sweep_rows(pass, s, width, m) == s,
    decreases m,
{
    if m > 0 {
        lemma_sweep_rows_find_nothing(pass, s, width, (m - 1) as nat);
        lemma_sweep_row_finds_nothing(pass, s, m - 1, width);
    }
}

/// A sweep over an image without targets, such as an image that was erased
/// as a whole, finds nothing and erases nothing, whatever it looks for.
pub proof fn lemma_sweep_finds_nothing(pass: Pass, s: Scan)
    requires
        no_target(s.grid),
    ensures
        sweep_all(pass, s) == s,
{
    lemma_sweep_rows_find_nothing(pass, s, s.grid.width as nat, s.grid.height as nat);
}

/// Any number of sweeps of one kind over an image without targets find nothing.
pub proof fn lemma_sweeps_find_nothing(pass: Pass, s: Scan, n: nat)
    requires
        no_target(s.grid),
    ensures
        sweep_times(pass, s, n) == s,
    decreases n,
{
    if n > 0 {
        lemma_sweeps_find_nothing(pass, s, (n - 1) as nat);
        lemma_sweep_finds_nothing(pass, s);
    }
}

/// Any number of sweeps for rectangles over an image without targets find nothing.
pub proof fn lemma_rect_sweeps_find_nothing(s: Scan, passes: int, done: nat)
    requires
        no_target(s.grid),
    ensures
        rect_sweeps(s, passes, done) == s,
    decreases done,
{
    if done > 0 {
        lemma_rect_sweeps_find_nothing(s, passes, (done - 1) as nat);
        lemma_sweep_finds_nothing(Pass::Rects { last: done == passes }, s);
    }
}

/// A detection run on an image without targets finds no target and leaves
/// the image as it is.
pub proof fn lemma_detect_finds_nothing(g: Grid)
    requires
        no_target(g),
    ensures
        detect(g).targets == Seq::<BoundingBox>::empty(),
        detect(g).grid == g,
{
    let fresh = Scan::fresh(g);
    lemma_rect_sweeps_find_nothing(fresh, 3, 3);
    let unit = unit_box(fresh.found);
    lemma_sweeps_find_nothing(Pass::OfSize { template: unit }, fresh, 2);
    lemma_rect_sweeps_find_nothing(fresh, 1, 1);
    lemma_sweep_finds_nothing(Pass::Isolated { template: unit }, fresh);
    lemma_sweeps_find_nothing(Pass::AnyRatio, fresh, 3);
    let all = fresh.found + fresh.found + fresh.found + fresh.found + fresh.found;
    assert(all =~= Seq::<BoundingBox>::empty());
    assert(keep_large(all, unit) =~= Seq::<BoundingBox>::empty());
}

} // verus!

//! Detection by debug markers: at the zoom levels where the game draws a
//! marker on every spawner and worm, the targets are read off the markers.

use crate::screen::{BoundingBox, Coord, GeometryError};
use crate::visualization::{Grid, Pixel, VisualizedImage};
use vstd::prelude::*;

verus! {

/// How far apart, in pixels, two spawner markers are at least. The blue
/// circle has the same size at every zoom level.
pub const SPAWNER_DEBUG_MIN_CLICK_DIST: i64 = 30;

/// How far apart, in pixels, two worm markers are at least. The magenta
/// circle has the same size at every zoom level.
pub const WORM_DEBUG_MIN_CLICK_DIST: i64 = 30;

/// The colour of a spawner's marker.
pub open spec fn blue() -> Pixel {
    Pixel { r: 0, g: 0, b: 0xff }
}

/// The colour of a worm's marker.
pub open spec fn magenta() -> Pixel {
    Pixel { r: 0xff, g: 0, b: 0xff }
}

/// The colour that painting leaves alone.
pub open spec fn red() -> Pixel {
    Pixel { r: 0xff, g: 0, b: 0 }
}

/// The colour that painting writes.
pub open spec fn green() -> Pixel {
    Pixel { r: 0, g: 0xff, b: 0 }
}

/// Whether `(x, y)` is less than `dist` from `mark` along both axes.
pub open spec fn crowds(mark: Coord, x: int, y: int, dist: int) -> bool {
    -dist < x - mark.w < dist && -dist < y - mark.h < dist
}

/// Whether `(x, y)` is less than `dist` from one of the marks along both axes.
pub open spec fn crowded(marks: Seq<Coord>, x: int, y: int, dist: int) -> bool {
    exists|i: int| 0 <= i < marks.len() && crowds(#[trigger] marks[i], x, y, dist)
}

/// The marks after `(x, y)` was looked at: one more where the pixel has the
/// colour and no mark crowds it.
pub open spec fn mark_step(
    g: Grid,
    colour: Pixel,
    dist: int,
    marks: Seq<Coord>,
    x: int,
    y: int,
) -> Seq<Coord> {
    if g.at(x, y) == colour && !crowded(marks, x, y, dist) {
        marks.push(Coord { w: x as i64, h: y as i64 })
    } else {
        marks
    }
}

/// The marks after the first `n` positions of row `y`, from the left.
pub open spec fn marks_in_row(
    g: Grid,
    colour: Pixel,
    dist: int,
    marks: Seq<Coord>,
    y: int,
    n: nat,
) -> Seq<Coord>
    decreases n,
{
    if n == 0 {
        marks
    } else {
        mark_step(
            g,
            colour,
            dist,
            marks_in_row(g, colour, dist, marks, y, (n - 1) as nat),
            n - 1,
            y,
        )
    }
}

/// The marks of the first `m` rows, from the top.
pub open spec fn marks_in_rows(g: Grid, colour: Pixel, dist: int, m: nat) -> Seq<Coord>
    decreases m,
{
    if m == 0 {
        Seq::empty()
    } else {
        marks_in_row(
            g,
            colour,
            dist,
            marks_in_rows(g, colour, dist, (m - 1) as nat),
            m - 1,
            g.width as nat,
        )
    }
}

/// The marks of the image: going through it row by row, every pixel of the
/// colour that no earlier mark crowds. `lemma_marks_are_spread` says what
/// that comes to.
pub open spec fn marks(g: Grid, colour: Pixel, dist: int) -> Seq<Coord> {
    marks_in_rows(g, colour, dist, g.height as nat)
}

/// Whether no mark crowds a later one.
pub open spec fn well_spread(marks: Seq<Coord>, dist: int) -> bool {
    forall|i: int, j: int|
        0 <= i < j < marks.len() ==> !crowds(
            #[trigger] marks[i],
            (#[trigger] marks[j]).w as int,
            marks[j].h as int,
            dist,
        )
}

/// Whether `(x, y)` is accounted for: it is a mark, or a mark crowds it.
pub open spec fn accounted(marks: Seq<Coord>, x: int, y: int, dist: int) -> bool {
    crowded(marks, x, y, dist) || marks.contains(Coord { w: x as i64, h: y as i64 })
}

/// Whether the marks are right for the part of the image before `(n, y)` in
/// reading order: they lie on pixels of the colour, no mark crowds a later
/// one, and every pixel of the colour in that part is accounted for.
pub open spec fn marks_fit(
    g: Grid,
    colour: Pixel,
    dist: int,
    marks: Seq<Coord>,
    y: int,
    n: int,
) -> bool {
    &&& forall|i: int|
        0 <= i < marks.len() ==> g.in_bounds((#[trigger] marks[i]).w as int, marks[i].h as int)
            && g.cells[(marks[i].w as int, marks[i].h as int)] == colour
    &&& well_spread(marks, dist)
    &&& forall|i: int, j: int|
        g.in_bounds(i, j) && (j < y || (j == y && i < n)) && #[trigger] g.cells[(i, j)] == colour
            ==> accounted(marks, i, j, dist)
}

proof fn lemma_mark_step_fits(g: Grid, colour: Pixel, dist: int, marks: Seq<Coord>, x: int, y: int)
    requires
        g.wf(),
        g.in_bounds(x, y),
        marks_fit(g, colour, dist, marks, y, x),
    ensures
        marks_fit(g, colour, dist, mark_step(g, colour, dist, marks, x, y), y, x + 1),
{
    let next = mark_step(g, colour, dist, marks, x, y);
    let here = Coord { w: x as i64, h: y as i64 };
    assert(3 * (g.width * g.height) >= 3 * g.width && 3 * (g.width * g.height) >= 3 * g.height)
        by (nonlinear_arith)
        requires
            g.width > 0,
            g.height > 0,
    ;
    assert forall|i: int, j: int|
        g.in_bounds(i, j) && (j < y || (j == y && i < x + 1)) && #[trigger] g.cells[(i, j)]
            == colour implies accounted(next, i, j, dist) by {
        if j == y && i == x {
            if crowded(marks, x, y, dist) {
                let k = choose|k: int|
                    0 <= k < marks.len() && crowds(#[trigger] marks[k], x, y, dist);
                assert(crowds(next[k], x, y, dist));
            } else {
                assert(next[marks.len() as int] == here);
            }
        } else {
            assert(accounted(marks, i, j, dist));
            if crowded(marks, i, j, dist) {
                let k = choose|k: int|
                    0 <= k < marks.len() && crowds(#[trigger] marks[k], i, j, dist);
                assert(crowds(next[k], i, j, dist));
            } else {
                let at = Coord { w: i as i64, h: j as i64 };
                let k = choose|k: int| 0 <= k < marks.len() && marks[k] == at;
                assert(next[k] == at);
            }
        }
    }
    if next.len() > marks.len() {
        assert forall|i: int, j: int| 0 <= i < j < next.len() implies !crowds(
            #[trigger] next[i],
            (#[trigger] next[j]).w as int,
            next[j].h as int,
            dist,
        ) by {
            if j == marks.len() {
                assert(next[i] == marks[i]);
                assert(!crowds(marks[i], x, y, dist));
            } else {
                assert(next[i] == marks[i] && next[j] == marks[j]);
            }
        }
    }
}

proof fn lemma_marks_in_row_fit(
    g: Grid,
    colour: Pixel,
    dist: int,
    marks: Seq<Coord>,
    y: int,
    n: nat,
)
    requires
        g.wf(),
        0 <= y < g.height,
        n <= g.width,
        marks_fit(g, colour, dist, marks, y, 0),
    ensures
        marks_fit(g, colour, dist, marks_in_row(g, colour, dist, marks, y, n), y, n as int),
    decreases n,
{
    if n > 0 {
        lemma_marks_in_row_fit(g, colour, dist, marks, y, (n - 1) as nat);
        lemma_mark_step_fits(
            g,
            colour,
            dist,
            marks_in_row(g, colour, dist, marks, y, (n - 1) as nat),
            n - 1,
            y,
        );
    }
}

proof fn lemma_marks_in_rows_fit(g: Grid, colour: Pixel, dist: int, m: nat)
    requires
        g.wf(),
        m <= g.height,
    ensures
        marks_fit(g, colour, dist, marks_in_rows(g, colour, dist, m), m as int, 0),
    decreases m,
{
    if m > 0 {
        lemma_marks_in_rows_fit(g, colour, dist, (m - 1) as nat);
        lemma_marks_in_row_fit(
            g,
            colour,
            dist,
            marks_in_rows(g, colour, dist, (m - 1) as nat),
            m - 1,
            g.width as nat,
        );
    }
}

/// What the marks of an image are: they lie on pixels of the colour, no mark
/// crowds a later one, and every pixel of the colour is a mark or is crowded
/// by one.
pub proof fn lemma_marks_are_spread(g: Grid, colour: Pixel, dist: int)
    requires
        g.wf(),
    ensures
        marks_fit(g, colour, dist, marks(g, colour, dist), g.height, 0),
{
    lemma_marks_in_rows_fit(g, colour, dist, g.height as nat);
}

/// The rectangle `mask` moved so that its origin lies on `at`.
pub open spec fn moved(mask: BoundingBox, at: Coord) -> BoundingBox {
    BoundingBox {
        left_top: Coord { w: (at.w + mask.left_top.w) as i64, h: (at.h + mask.left_top.h) as i64 },
        right_bottom: Coord {
            w: (at.w + mask.right_bottom.w) as i64,
            h: (at.h + mask.right_bottom.h) as i64,
        },
    }
}

/// Whether `mask` can be moved to `at`: its corners stay representable.
pub open spec fn can_move(mask: BoundingBox, at: Coord) -> bool {
    &&& i64::MIN <= at.w + mask.left_top.w <= i64::MAX
    &&& i64::MIN <= at.h + mask.left_top.h <= i64::MAX
    &&& i64::MIN <= at.w + mask.right_bottom.w <= i64::MAX
    &&& i64::MIN <= at.h + mask.right_bottom.h <= i64::MAX
}

/// Whether painting `bb` reaches `(x, y)`. Of a rectangle that sticks out of
/// the top of the image less is painted: its lower rows are left out by as
/// much as it sticks out, and so are its first eight columns, as the marker
/// of such a target is found left of where it would be otherwise.
pub open spec fn in_paint(bb: BoundingBox, x: int, y: int) -> bool {
    &&& bb.contains(x, y)
    &&& bb.left_top.h < 0 ==> y <= bb.right_bottom.h + bb.left_top.h && x >= bb.left_top.w + 8
}

/// Whether painting one of the rectangles reaches `(x, y)`.
pub open spec fn in_some_paint(bbs: Seq<BoundingBox>, x: int, y: int) -> bool {
    exists|i: int| 0 <= i < bbs.len() && in_paint(#[trigger] bbs[i], x, y)
}

/// The grid after the rectangles were painted: green wherever the paint of
/// one of them reaches, except on pure red.
pub open spec fn painted(g: Grid, bbs: Seq<BoundingBox>) -> Grid {
    Grid {
        cells: Map::new(
            |k: (int, int)| g.cells.dom().contains(k),
            |k: (int, int)|
                if g.cells[k] != red() && in_some_paint(bbs, k.0, k.1) {
                    green()
                } else {
                    g.cells[k]
                },
        ),
        ..g
    }
}

/// Whether every rectangle is `mask` moved to the click of the same index.
pub open spec fn all_moved(bbs: Seq<BoundingBox>, mask: BoundingBox, clicks: Seq<Coord>) -> bool {
    &&& bbs.len() == clicks.len()
    &&& forall|i: int| 0 <= i < bbs.len() ==> #[trigger] bbs[i] == moved(mask, clicks[i])
}

/// Whether every mark lies on the image.
pub open spec fn all_on_image(g: Grid, marks: Seq<Coord>) -> bool {
    forall|i: int|
        0 <= i < marks.len() ==> g.in_bounds((#[trigger] marks[i]).w as int, marks[i].h as int)
}

/// The positions of the worm markers on the image.
pub fn find_worm_positions(img: &VisualizedImage) -> (clicks: Vec<Coord>)
    ensures
        clicks@ == marks(img@, magenta(), WORM_DEBUG_MIN_CLICK_DIST as int),
        all_on_image(img@, clicks@),
{
    find_debug_positions(img, WORM_DEBUG_MIN_CLICK_DIST, Pixel { r: 0xff, g: 0, b: 0xff })
}

/// The positions of the spawner markers on the image.
pub fn find_spawner_positions(img: &VisualizedImage) -> (clicks: Vec<Coord>)
    ensures
        clicks@ == marks(img@, blue(), SPAWNER_DEBUG_MIN_CLICK_DIST as int),
        all_on_image(img@, clicks@),
{
    find_debug_positions(img, SPAWNER_DEBUG_MIN_CLICK_DIST, Pixel { r: 0, g: 0, b: 0xff })
}

/// Whether one of the clicks is less than `min_click_dist` from `(w, h)`
/// along both axes.
fn is_crowded(clicks: &Vec<Coord>, w: u32, h: u32, min_click_dist: i64) -> (near: bool)
    ensures
        near == crowded(clicks@, w as int, h as int, min_click_dist as int),
{
    let mut i: usize = 0;
    while i < clicks.len()
        invariant
            i <= clicks.len(),
            forall|k: int|
                0 <= k < i ==> !crowds(
                    #[trigger] clicks@[k],
                    w as int,
                    h as int,
                    min_click_dist as int,
                ),
        decreases clicks.len() - i,
    {
        let gap_w: i128 = w as i128 - clicks[i].w as i128;
        let gap_h: i128 = h as i128 - clicks[i].h as i128;
        let dist: i128 = min_click_dist as i128;
        if -dist < gap_w && gap_w < dist && -dist < gap_h && gap_h < dist {
            return true;
        }
        i = i + 1;
    }
    false
}

/// The positions of the markers of the given colour: going through the image
/// row by row, every pixel of exactly that colour that is not less than
/// `min_click_dist` from a marker found before it, along both axes.
pub fn find_debug_positions(
    img: &VisualizedImage,
    min_click_dist: i64,
    pixel_color: Pixel,
) -> (clicks: Vec<Coord>)
    ensures
        clicks@ == marks(img@, pixel_color, min_click_dist as int),
        all_on_image(img@, clicks@),
{
    let mut clicks: Vec<Coord> = Vec::new();
    let (width, height) = img.dimensions();
    let mut h: u32 = 0;
    while h < height
        invariant
            all_on_image(img@, clicks@),
            h <= height,
            width == img@.width,
            height == img@.height,
            clicks@ == marks_in_rows(img@, pixel_color, min_click_dist as int, h as nat),
        decreases height - h,
    {
        let ghost row_start = clicks@;
        let mut w: u32 = 0;
        while w < width
            invariant
                all_on_image(img@, clicks@),
                h < height,
                w <= width,
                width == img@.width,
                height == img@.height,
                clicks@ == marks_in_row(
                    img@,
                    pixel_color,
                    min_click_dist as int,
                    row_start,
                    h as int,
                    w as nat,
                ),
            decreases width - w,
        {
            // only far enough from the marks made so far
            if !is_crowded(&clicks, w, h, min_click_dist) {
                let px = img.get_pixel(w, h);
                if px.r == pixel_color.r && px.g == pixel_color.g && px.b == pixel_color.b {
                    clicks.push(Coord { w: w as i64, h: h as i64 });
                }
            }
            w = w + 1;
        }
        h = h + 1;
    }
    clicks
}

/// The rectangles that the clicks stand for: `bb_mask` moved to each click in
/// turn. Refused where a corner of one of them is out of range.
pub fn positions_to_bb(clicks: &[Coord], bb_mask: &BoundingBox) -> (made: Result<
    Vec<BoundingBox>,
    GeometryError,
>)
    ensures
        made is Ok <==> forall|i: int|
            0 <= i < clicks@.len() ==> can_move(*bb_mask, #[trigger] clicks@[i]),
        made matches Ok(bbs) ==> all_moved(bbs@, *bb_mask, clicks@),
        made matches Err(e) ==> e == GeometryError::OutOfRange,
{
    let mut bbs: Vec<BoundingBox> = Vec::new();
    let mut i: usize = 0;
    while i < clicks.len()
        invariant
            i <= clicks.len(),
            forall|k: int| 0 <= k < i ==> can_move(*bb_mask, #[trigger] clicks@[k]),
            all_moved(bbs@, *bb_mask, clicks@.take(i as int)),
        decreases clicks.len() - i,
    {
        let click: Coord = clicks[i];
        let left = click.w.checked_add(bb_mask.left_top.w);
        let top = click.h.checked_add(bb_mask.left_top.h);
        let right = click.w.checked_add(bb_mask.right_bottom.w);
        let bottom = click.h.checked_add(bb_mask.right_bottom.h);
        match (left, top, right, bottom) {
            (Some(left), Some(top), Some(right), Some(bottom)) => {
                bbs.push(
                    BoundingBox {
                        left_top: Coord { w: left, h: top },
                        right_bottom: Coord { w: right, h: bottom },
                    },
                );
            },
            _ => {
                assert(!can_move(*bb_mask, clicks@[i as int]));
                return Err(GeometryError::OutOfRange);
            },
        }
        i = i + 1;
    }
    assert(clicks@.take(clicks.len() as int) =~= clicks@);
    Ok(bbs)
}

/// Paints what of `bb` lies on the image green, pure red excepted.
fn paint(
    img: &mut VisualizedImage,
    bb: &BoundingBox,
    Ghost(before): Ghost<Grid>,
    Ghost(done): Ghost<Seq<BoundingBox>>,
)
    requires
        old(img).wf(),
        before.wf(),
        old(img)@ == painted(before, done),
    ensures
        final(img).wf(),
        final(img)@ == painted(before, done.push(*bb)),
{
    let (width, height) = img.dimensions();
    let ghost bbs = done.push(*bb);
    proof {
        assert forall|x: int, y: int| in_some_paint(bbs, x, y) <==> in_some_paint(done, x, y)
            || in_paint(*bb, x, y) by {
            if in_some_paint(done, x, y) {
                let i = choose|i: int| 0 <= i < done.len() && in_paint(#[trigger] done[i], x, y);
                assert(in_paint(bbs[i], x, y));
            }
            if in_paint(*bb, x, y) {
                assert(in_paint(bbs[done.len() as int], x, y));
            }
            if in_some_paint(bbs, x, y) {
                let i = choose|i: int| 0 <= i < bbs.len() && in_paint(#[trigger] bbs[i], x, y);
                if i < done.len() {
                    assert(in_paint(done[i], x, y));
                }
            }
        }
    }
    if bb.right_bottom.w < 0 || bb.right_bottom.h < 0 || bb.left_top.w >= width as i64
        || bb.left_top.h >= height as i64 || bb.left_top.w > bb.right_bottom.w || bb.left_top.h
        > bb.right_bottom.h {
        assert(img@.cells =~= painted(before, bbs).cells);
        return ;
    }
    let x0: u32 = if bb.left_top.w < 0 {
        0
    } else {
        bb.left_top.w as u32
    };
    let y0: u32 = if bb.left_top.h < 0 {
        0
    } else {
        bb.left_top.h as u32
    };
    let x1: u32 = if bb.right_bottom.w >= width as i64 {
        width - 1
    } else {
        bb.right_bottom.w as u32
    };
    let y1: u32 = if bb.right_bottom.h >= height as i64 {
        height - 1
    } else {
        bb.right_bottom.h as u32
    };
    let sticks_out: bool = bb.left_top.h < 0;
    let mut w: u32 = x0;
    while w <= x1
        invariant
            before.wf(),
            img.wf(),
            img@.width == before.width == width,
            img@.height == before.height == height,
            sticks_out == (bb.left_top.h < 0),
            x0 <= w <= x1 + 1,
            x1 < width,
            y0 <= y1 < height,
            forall|i: int, j: int|
                bb.contains(i, j) && before.in_bounds(i, j) <==> x0 <= i <= x1 && y0 <= j <= y1,
            forall|i: int, j: int|
                before.in_bounds(i, j) ==> #[trigger] img@.cells[(i, j)] == if before.cells[(i, j)]
                    != red() && (in_some_paint(done, i, j) || (in_paint(*bb, i, j) && i < w)) {
                    green()
                } else {
                    before.cells[(i, j)]
                },
        decreases x1 + 1 - w,
    {
        let mut h: u32 = y0;
        while h <= y1
            invariant
                before.wf(),
                img.wf(),
                img@.width == before.width == width,
                img@.height == before.height == height,
                sticks_out == (bb.left_top.h < 0),
                x0 <= w <= x1 < width,
                y0 <= h <= y1 + 1,
                y1 < height,
                forall|i: int, j: int|
                    bb.contains(i, j) && before.in_bounds(i, j) <==> x0 <= i <= x1 && y0 <= j
                        <= y1,
                forall|i: int, j: int|
                    before.in_bounds(i, j) ==> #[trigger] img@.cells[(i, j)] == if before.cells[(
                        i,
                        j,
                    )] != red() && (in_some_paint(done, i, j) || (in_paint(*bb, i, j) && (i < w || (
                    i == w && j < h)))) {
                        green()
                    } else {
                        before.cells[(i, j)]
                    },
            decreases y1 + 1 - h,
        {
            let skipped: bool = sticks_out && (bb.right_bottom.h as i128 + (bb.left_top.h as i128)
                < h as i128 || bb.left_top.w as i128 + 8 > w as i128);
            if !skipped {
                let px = img.get_pixel(w, h);
                if !(px.r == 255 && px.g == 0 && px.b == 0) {
                    assert(before.cells[(w as int, h as int)] != red());
                    img.put_pixel(w, h, Pixel { r: 0, g: 255, b: 0 });
                } else {
                    assert(img@.cells[(w as int, h as int)] == red());
                    assert(before.cells[(w as int, h as int)] == red());
                }
            }
            h = h + 1;
        }
        w = w + 1;
    }
    proof {
        let goal = painted(before, bbs);
        assert forall|k: (int, int)| img@.cells.dom().contains(k) <==> goal.cells.dom().contains(
            k,
        ) by {
            assert(img@.cells.dom().contains((k.0, k.1)) <==> img@.in_bounds(k.0, k.1));
            assert(before.cells.dom().contains((k.0, k.1)) <==> before.in_bounds(k.0, k.1));
        }
        assert forall|k: (int, int)| #[trigger]
            img@.cells.dom().contains(k) implies img@.cells[k] == goal.cells[k] by {
            assert(img@.cells.dom().contains((k.0, k.1)) <==> img@.in_bounds(k.0, k.1));
            assert(img@.cells[(k.0, k.1)] == img@.cells[k]);
            assert(before.cells[(k.0, k.1)] == before.cells[k]);
        }
        assert(img@.cells =~= goal.cells);
    }
}

/// Turns marker positions into rectangles: `bb_mask`, which is given
/// relative to a marker, is moved to each click. What of the rectangles lies
/// on the image is painted green, pure red excepted. Where a rectangle does
/// not fit the coordinate range nothing is painted and the error says so.
pub fn remap_positions_to_bb(
    clicks: &[Coord],
    bb_mask: &BoundingBox,
    img: &mut VisualizedImage,
) -> (made: Result<Vec<BoundingBox>, GeometryError>)
    requires
        old(img).wf(),
    ensures
        final(img).wf(),
        made is Ok <==> forall|i: int|
            0 <= i < clicks@.len() ==> can_move(*bb_mask, #[trigger] clicks@[i]),
        made matches Ok(bbs) ==> all_moved(bbs@, *bb_mask, clicks@) && final(img)@ == painted(
            old(img)@,
            bbs@,
        ),
        made matches Err(e) ==> e == GeometryError::OutOfRange && final(img)@ == old(img)@,
{
    let bounding_boxes = match positions_to_bb(clicks, bb_mask) {
        Ok(bbs) => bbs,
        Err(e) => {
            return Err(e);
        },
    };
    let ghost before = img@;
    proof {
        assert forall|x: int, y: int| !in_some_paint(Seq::<BoundingBox>::empty(), x, y) by {}
        assert(bounding_boxes@.take(0) =~= Seq::<BoundingBox>::empty());
        assert(img@.cells =~= painted(before, Seq::<BoundingBox>::empty()).cells);
        assert(img@ == painted(before, bounding_boxes@.take(0)));
    }
    let mut i: usize = 0;
    while i < bounding_boxes.len()
        invariant
            i <= bounding_boxes.len(),
            before.wf(),
            img.wf(),
            img@ == painted(before, bounding_boxes@.take(i as int)),
        decreases bounding_boxes.len() - i,
    {
        assert(bounding_boxes@.take(i as int).push(bounding_boxes@[i as int])
            =~= bounding_boxes@.take(i + 1));
        paint(img, &bounding_boxes[i], Ghost(before), Ghost(bounding_boxes@.take(i as int)));
        i = i + 1;
    }
    assert(bounding_boxes@.take(bounding_boxes.len() as int) =~= bounding_boxes@);
    Ok(bounding_boxes)
}

} // verus!

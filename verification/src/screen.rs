//! Integer geometry of the pixel plane: points, axis-aligned rectangles and
//! the circle-rectangle collision test.

use vstd::arithmetic::div_mod::lemma_fundamental_div_mod_converse;
use vstd::prelude::*;

verus! {

/// A point of the integer pixel plane: `w` grows to the right, `h` downwards.
#[derive(Debug, Clone, Copy, Hash, PartialEq, Eq, Structural)]
pub struct Coord {
    pub w: i64,
    pub h: i64,
}

impl Default for Coord {
    fn default() -> (c: Self)
        ensures
            c == (Coord { w: 0, h: 0 }),
    {
        Coord { w: 0, h: 0 }
    }
}

/// An axis-aligned rectangle given by two corners, both of which belong to it.
#[derive(Debug, Clone, Copy, Hash, PartialEq, Eq, Structural)]
pub struct BoundingBox {
    pub left_top: Coord,
    pub right_bottom: Coord,
}

impl Default for BoundingBox {
    fn default() -> (bb: Self)
        ensures
            bb == BoundingBox::zero(),
    {
        BoundingBox { left_top: Coord { w: 0, h: 0 }, right_bottom: Coord { w: 0, h: 0 } }
    }
}

/// Why a rectangle could not be built.
#[derive(Debug, Clone, Copy, PartialEq, Eq, Structural)]
pub enum GeometryError {
    /// The width or the height asked for is negative.
    NegativeExtent,
    /// The far corner or the area does not fit a 64-bit signed integer.
    OutOfRange,
}

/// The point of the interval `[lo, hi]` that lies nearest to `v`.
pub open spec fn nearest_in(v: int, lo: int, hi: int) -> int {
    if lo > v {
        lo
    } else if hi < v {
        hi
    } else {
        v
    }
}

/// The squared Euclidean distance between two points of the plane.
pub open spec fn dist_sq(x0: int, y0: int, x1: int, y1: int) -> int {
    (x0 - x1) * (x0 - x1) + (y0 - y1) * (y0 - y1)
}

impl BoundingBox {
    /// The rectangle that holds the origin alone.
    pub open spec fn zero() -> BoundingBox {
        BoundingBox { left_top: Coord { w: 0, h: 0 }, right_bottom: Coord { w: 0, h: 0 } }
    }

    pub open spec fn spec_w(&self) -> int {
        self.right_bottom.w - self.left_top.w
    }

    pub open spec fn spec_h(&self) -> int {
        self.right_bottom.h - self.left_top.h
    }

    pub open spec fn spec_area(&self) -> int {
        self.spec_w() * self.spec_h()
    }

    /// A rectangle is well formed when its far corner is neither left of nor
    /// above its near corner and its width, height and area are all
    /// representable. Rectangles of zero area are well formed.
    pub open spec fn wf(&self) -> bool {
        &&& 0 <= self.spec_w() <= i64::MAX
        &&& 0 <= self.spec_h() <= i64::MAX
        &&& self.spec_area() <= i64::MAX
    }

    /// Whether the point `(x, y)` lies in the rectangle, borders included.
    pub open spec fn contains(&self, x: int, y: int) -> bool {
        &&& self.left_top.w <= x <= self.right_bottom.w
        &&& self.left_top.h <= y <= self.right_bottom.h
    }

    /// What `new` gives for each input.
    pub open spec fn spec_new(left_top: Coord, w: i64, h: i64) -> Result<
        BoundingBox,
        GeometryError,
    > {
        if w < 0 || h < 0 {
            Err(GeometryError::NegativeExtent)
        } else if left_top.w + w > i64::MAX || left_top.h + h > i64::MAX || w * h > i64::MAX {
            Err(GeometryError::OutOfRange)
        } else {
            Ok(
                BoundingBox {
                    left_top,
                    right_bottom: Coord {
                        w: (left_top.w + w) as i64,
                        h: (left_top.h + h) as i64,
                    },
                },
            )
        }
    }

    /// The points of the rectangle row by row from the top, each row from the
    /// left. An inverted rectangle has none.
    pub open spec fn cells(&self) -> Seq<(i64, i64)> {
        if self.spec_w() >= 0 && self.spec_h() >= 0 {
            Seq::new(
                ((self.spec_w() + 1) * (self.spec_h() + 1)) as nat,
                |k: int|
                    (
                        (self.left_top.w + k % (self.spec_w() + 1)) as i64,
                        (self.left_top.h + k / (self.spec_w() + 1)) as i64,
                    ),
            )
        } else {
            Seq::empty()
        }
    }

    /// The squared distance from `pos` to the point of the rectangle nearest to it.
    pub open spec fn gap_sq(&self, pos: Coord) -> int {
        dist_sq(
            pos.w as int,
            pos.h as int,
            nearest_in(pos.w as int, self.left_top.w as int, self.right_bottom.w as int),
            nearest_in(pos.h as int, self.left_top.h as int, self.right_bottom.h as int),
        )
    }

    /// Whether `pos` lies in the rectangle grown by `radius` on every side.
    pub open spec fn close_enough(&self, pos: Coord, radius: int) -> bool {
        &&& self.left_top.w - radius <= pos.w <= self.right_bottom.w + radius
        &&& self.left_top.h - radius <= pos.h <= self.right_bottom.h + radius
    }

    /// Whether a circle of the given radius around `pos` touches the rectangle.
    /// A point at exactly `radius` from the rectangle touches it.
    pub open spec fn collides(&self, pos: Coord, radius: int) -> bool {
        self.close_enough(pos, radius) && self.gap_sq(pos) <= radius * radius
    }

    /// Whether `num / den <= width / height`. False for a rectangle without height.
    pub open spec fn ratio_at_least(&self, num: int, den: int) -> bool {
        self.spec_h() > 0 && num * self.spec_h() <= self.spec_w() * den
    }

    /// Whether `width / height <= num / den`. False for a rectangle without height.
    pub open spec fn ratio_at_most(&self, num: int, den: int) -> bool {
        self.spec_h() > 0 && self.spec_w() * den <= num * self.spec_h()
    }

    /// Whether `width / height < num / den`. False for a rectangle without height.
    pub open spec fn ratio_below(&self, num: int, den: int) -> bool {
        self.spec_h() > 0 && self.spec_w() * den < num * self.spec_h()
    }

    /// The rectangle of width `w` and height `h` whose near corner is
    /// `left_top`. A negative extent, a far corner or an area out of range are
    /// refused.
    pub fn new(left_top: Coord, w: i64, h: i64) -> (made: Result<Self, GeometryError>)
        ensures
            made == Self::spec_new(left_top, w, h),
            made matches Ok(bb) ==> bb.wf() && bb.spec_w() == w && bb.spec_h() == h,
    {
        if w < 0 || h < 0 {
            return Err(GeometryError::NegativeExtent);
        }
        let right = left_top.w.checked_add(w);
        let bottom = left_top.h.checked_add(h);
        let area = w.checked_mul(h);
        match (right, bottom, area) {
            (Some(right), Some(bottom), Some(_)) => Ok(
                BoundingBox { left_top, right_bottom: Coord { w: right, h: bottom } },
            ),
            _ => {
                assert(w * h >= 0) by (nonlinear_arith)
                    requires
                        w >= 0,
                        h >= 0,
                ;
                Err(GeometryError::OutOfRange)
            },
        }
    }

    /// Whether the rectangle is well formed.
    pub fn is_valid(&self) -> (valid: bool)
        ensures
            valid == self.wf(),
    {
        let w = self.right_bottom.w.checked_sub(self.left_top.w);
        let h = self.right_bottom.h.checked_sub(self.left_top.h);
        match (w, h) {
            (Some(w), Some(h)) => {
                if w < 0 || h < 0 {
                    false
                } else {
                    assert(w * h >= 0) by (nonlinear_arith)
                        requires
                            w >= 0,
                            h >= 0,
                    ;
                    w.checked_mul(h).is_some()
                }
            },
            _ => false,
        }
    }

    /// The points of the rectangle, row by row.
    pub fn enumerate(&self) -> (points: Vec<(i64, i64)>)
        requires
            self.spec_w() >= 0 && self.spec_h() >= 0 ==> (self.spec_w() + 1) * (self.spec_h() + 1)
                <= usize::MAX,
        ensures
            points@ == self.cells(),
    {
        let mut points: Vec<(i64, i64)> = Vec::new();
        if self.left_top.w > self.right_bottom.w || self.left_top.h > self.right_bottom.h {
            return points;
        }
        let ghost cols: int = self.spec_w() + 1;
        let ghost rows: int = self.spec_h() + 1;
        let left: i128 = self.left_top.w as i128;
        let right: i128 = self.right_bottom.w as i128;
        let top: i128 = self.left_top.h as i128;
        let bottom: i128 = self.right_bottom.h as i128;
        let mut y: i128 = top;
        while y <= bottom
            invariant
                cols == right - left + 1,
                rows == bottom - top + 1,
                cols >= 1,
                rows >= 1,
                cols == self.spec_w() + 1,
                rows == self.spec_h() + 1,
                left == self.left_top.w,
                top == self.left_top.h,
                right == self.right_bottom.w,
                bottom == self.right_bottom.h,
                top <= y <= bottom + 1,
                points@.len() == (y - top) * cols,
                forall|k: int|
                    0 <= k < points@.len() ==> points@[k] == (
                        (left + k % cols) as i64,
                        (top + k / cols) as i64,
                    ),
            decreases bottom + 1 - y,
        {
            let mut x: i128 = left;
            while x <= right
                invariant
                    cols == right - left + 1,
                    cols >= 1,
                    left == self.left_top.w,
                    top == self.left_top.h,
                    right == self.right_bottom.w,
                    bottom == self.right_bottom.h,
                    top <= y <= bottom,
                    left <= x <= right + 1,
                    points@.len() == (y - top) * cols + (x - left),
                    forall|k: int|
                        0 <= k < points@.len() ==> points@[k] == (
                            (left + k % cols) as i64,
                            (top + k / cols) as i64,
                        ),
                decreases right + 1 - x,
            {
                proof {
                    lemma_fundamental_div_mod_converse(
                        points@.len() as int,
                        cols,
                        y - top,
                        x - left,
                    );
                }
                points.push((x as i64, y as i64));
                x = x + 1;
            }
            assert((y - top) * cols + cols == (y + 1 - top) * cols) by (nonlinear_arith);
            y = y + 1;
        }
        assert(points@.len() == rows * cols);
        assert(rows * cols == cols * rows) by (nonlinear_arith);
        assert(points@ =~= self.cells());
        points
    }

    /// Whether a circle of the given radius around `pos` touches the rectangle.
    ///
    /// The cheap test against the grown rectangle comes first; by
    /// `lemma_collision_is_euclidean` it refuses nothing that the exact test
    /// would accept on a well-formed rectangle.
    pub fn collides_with_circle(&self, pos: Coord, radius: u32) -> (hit: bool)
        ensures
            hit == self.collides(pos, radius as int),
    {
        if !self.is_close_enough_to_collide(pos, radius as i64) {
            return false;
        }
        let mut testx: i64 = pos.w;
        let mut testy: i64 = pos.h;
        if self.left_top.w > pos.w {
            testx = self.left_top.w;
        } else if self.right_bottom.w < pos.w {
            testx = self.right_bottom.w;
        }
        if self.left_top.h > pos.h {
            testy = self.left_top.h;
        } else if self.right_bottom.h < pos.h {
            testy = self.right_bottom.h;
        }
        let distx: i128 = pos.w as i128 - testx as i128;
        let disty: i128 = pos.h as i128 - testy as i128;
        let reach: i128 = radius as i128;
        assert(distx * distx <= 0xffff_ffff * 0xffff_ffff) by (nonlinear_arith)
            requires
                -0xffff_ffff <= distx <= 0xffff_ffff,
        ;
        assert(disty * disty <= 0xffff_ffff * 0xffff_ffff) by (nonlinear_arith)
            requires
                -0xffff_ffff <= disty <= 0xffff_ffff,
        ;
        assert(0 <= reach * reach <= 0xffff_ffff * 0xffff_ffff) by (nonlinear_arith)
            requires
                0 <= reach <= 0xffff_ffff,
        ;
        assert(distx * distx >= 0) by (nonlinear_arith);
        assert(disty * disty >= 0) by (nonlinear_arith);
        distx * distx + disty * disty <= reach * reach
    }

    /// Whether `pos` lies in the rectangle grown by `radius` on every side,
    /// borders included.
    pub fn is_close_enough_to_collide(&self, pos: Coord, radius: i64) -> (near: bool)
        ensures
            near == self.close_enough(pos, radius as int),
    {
        let reach: i128 = radius as i128;
        let px: i128 = pos.w as i128;
        let py: i128 = pos.h as i128;
        px >= self.left_top.w as i128 - reach && px <= self.right_bottom.w as i128 + reach && py
            >= self.left_top.h as i128 - reach && py <= self.right_bottom.h as i128 + reach
    }

    pub fn area(&self) -> (area: i64)
        requires
            i64::MIN <= self.spec_w() <= i64::MAX,
            i64::MIN <= self.spec_h() <= i64::MAX,
            i64::MIN <= self.spec_area() <= i64::MAX,
        ensures
            area == self.spec_area(),
    {
        self.w() * self.h()
    }

    pub fn w(&self) -> (w: i64)
        requires
            i64::MIN <= self.spec_w() <= i64::MAX,
        ensures
            w == self.spec_w(),
    {
        self.right_bottom.w - self.left_top.w
    }

    pub fn h(&self) -> (h: i64)
        requires
            i64::MIN <= self.spec_h() <= i64::MAX,
        ensures
            h == self.spec_h(),
    {
        self.right_bottom.h - self.left_top.h
    }

    /// Whether `num / den <= width / height`, computed exactly. A rectangle
    /// without height has no ratio and meets no bound.
    pub fn has_ratio_at_least(&self, num: u32, den: u32) -> (holds: bool)
        ensures
            holds == self.ratio_at_least(num as int, den as int),
    {
        let w: i128 = self.right_bottom.w as i128 - self.left_top.w as i128;
        let h: i128 = self.right_bottom.h as i128 - self.left_top.h as i128;
        proof {
            lemma_scaled_extent_fits(w as int, den as int);
            lemma_scaled_extent_fits(h as int, num as int);
        }
        h > 0 && (num as i128) * h <= w * (den as i128)
    }

    /// Whether `width / height <= num / den`, computed exactly. A rectangle
    /// without height has no ratio and meets no bound.
    pub fn has_ratio_at_most(&self, num: u32, den: u32) -> (holds: bool)
        ensures
            holds == self.ratio_at_most(num as int, den as int),
    {
        let w: i128 = self.right_bottom.w as i128 - self.left_top.w as i128;
        let h: i128 = self.right_bottom.h as i128 - self.left_top.h as i128;
        proof {
            lemma_scaled_extent_fits(w as int, den as int);
            lemma_scaled_extent_fits(h as int, num as int);
        }
        h > 0 && w * (den as i128) <= (num as i128) * h
    }

    /// Whether `width / height < num / den`, computed exactly. A rectangle
    /// without height has no ratio and meets no bound.
    pub fn has_ratio_below(&self, num: u32, den: u32) -> (holds: bool)
        ensures
            holds == self.ratio_below(num as int, den as int),
    {
        let w: i128 = self.right_bottom.w as i128 - self.left_top.w as i128;
        let h: i128 = self.right_bottom.h as i128 - self.left_top.h as i128;
        proof {
            lemma_scaled_extent_fits(w as int, den as int);
            lemma_scaled_extent_fits(h as int, num as int);
        }
        h > 0 && w * (den as i128) < (num as i128) * h
    }
}

/// The product of a difference of two 64-bit coordinates and a 32-bit factor
/// stays far inside the 128-bit range.
proof fn lemma_scaled_extent_fits(extent: int, factor: int)
    requires
        -0x1_0000_0000_0000_0000 <= extent <= 0x1_0000_0000_0000_0000,
        0 <= factor <= 0xffff_ffff,
    ensures
        -0x1_0000_0000_0000_0000_0000_0000 <= extent * factor <= 0x1_0000_0000_0000_0000_0000_0000,
        extent * factor == factor * extent,
{
    assert(extent * factor <= 0x1_0000_0000_0000_0000 * 0xffff_ffff) by (nonlinear_arith)
        requires
            extent <= 0x1_0000_0000_0000_0000,
            0 <= factor <= 0xffff_ffff,
    ;
    assert(extent * factor >= -0x1_0000_0000_0000_0000 * 0xffff_ffff) by (nonlinear_arith)
        requires
            extent >= -0x1_0000_0000_0000_0000,
            0 <= factor <= 0xffff_ffff,
    ;
    assert(extent * factor == factor * extent) by (nonlinear_arith);
}

/// A square grows with the size of the number squared.
proof fn lemma_square_grows(a: int, b: int)
    requires
        0 <= a <= b || b <= a <= 0,
    ensures
        a * a <= b * b,
{
    assert(a * a <= b * b) by (nonlinear_arith)
        requires
            0 <= a <= b || b <= a <= 0,
    ;
}

/// A number whose square is at most that of a non-negative bound lies within
/// the bound on both sides.
proof fn lemma_square_bounds(a: int, r: int)
    requires
        0 <= r,
        a * a <= r * r,
    ensures
        -r <= a <= r,
{
    assert(-r <= a <= r) by (nonlinear_arith)
        requires
            0 <= r,
            a * a <= r * r,
    ;
}

/// The collision test is the Euclidean one: a circle touches a well-formed
/// rectangle exactly when some point of the rectangle, borders included, lies
/// within the radius of the centre. In particular the cheap test against the
/// grown rectangle never refuses a circle that the distance test accepts.
pub proof fn lemma_collision_is_euclidean(bb: BoundingBox, pos: Coord, radius: nat)
    requires
        bb.wf(),
    ensures
        bb.collides(pos, radius as int) <==> exists|x: int, y: int|
            bb.contains(x, y) && #[trigger] dist_sq(pos.w as int, pos.h as int, x, y) <= radius
                * radius,
        bb.gap_sq(pos) <= radius * radius ==> bb.close_enough(pos, radius as int),
{
    let px = pos.w as int;
    let py = pos.h as int;
    let nx = nearest_in(px, bb.left_top.w as int, bb.right_bottom.w as int);
    let ny = nearest_in(py, bb.left_top.h as int, bb.right_bottom.h as int);
    let r = radius as int;
    assert((px - nx) * (px - nx) >= 0) by (nonlinear_arith);
    assert((py - ny) * (py - ny) >= 0) by (nonlinear_arith);
    if bb.gap_sq(pos) <= r * r {
        lemma_square_bounds(px - nx, r);
        lemma_square_bounds(py - ny, r);
        assert(bb.close_enough(pos, r));
        assert(bb.contains(nx, ny));
        assert(dist_sq(px, py, nx, ny) <= r * r);
    }
    assert forall|x: int, y: int| bb.contains(x, y) implies bb.gap_sq(pos) <= #[trigger] dist_sq(
        px,
        py,
        x,
        y,
    ) by {
        lemma_square_grows(px - nx, px - x);
        lemma_square_grows(py - ny, py - y);
    }
}

} // verus!

//! Click generation: a short list of points such that every target lies
//! within the remote's radius of one of them.

use crate::screen::{BoundingBox, Coord};
use vstd::prelude::*;

verus! {

/// How many plans the random search makes before it keeps the shortest.
pub const NUM_RANDOM_GUESSES: usize = 10;

/// How many points the random search tries for one click.
pub const NUM_RANDOM_SAMPLES: usize = 1000;

#[verifier::external_type_specification]
#[verifier::external_body]
pub struct ExRng(tiny_rng::Rng);

/// `tiny_rng::Rand::from_seed` for `tiny_rng::Rng`: a generator started from
/// the seed. Nothing is claimed of the numbers that it will give.
#[verifier::external_body]
fn rng_from_seed(seed: u64) -> (rng: tiny_rng::Rng) {
    <tiny_rng::Rng as tiny_rng::Rand>::from_seed(seed)
}

/// `tiny_rng::Rand::rand_range_i64`: a number of the half-open range from `a`
/// to `b`. The range must not be empty, or the call does not return, and its
/// length must fit a 64-bit signed integer, or the call overflows.
#[verifier::external_body]
fn rng_range_i64(rng: &mut tiny_rng::Rng, a: i64, b: i64) -> (x: i64)
    requires
        a < b,
        b - a <= i64::MAX,
    ensures
        a <= x < b,
{
    tiny_rng::Rand::rand_range_i64(rng, a, b)
}

/// How many of the rectangles a click at `click` hits.
pub open spec fn hits(bbs: Seq<BoundingBox>, radius: int, click: Coord) -> nat
    decreases bbs.len(),
{
    if bbs.len() == 0 {
        0
    } else if bbs.last().collides(click, radius) {
        hits(bbs.drop_last(), radius, click) + 1
    } else {
        hits(bbs.drop_last(), radius, click)
    }
}

/// The rectangles that a click at `click` does not hit, in their order.
pub open spec fn uncovered(bbs: Seq<BoundingBox>, radius: int, click: Coord) -> Seq<BoundingBox>
    decreases bbs.len(),
{
    if bbs.len() == 0 {
        Seq::empty()
    } else if bbs.last().collides(click, radius) {
        uncovered(bbs.drop_last(), radius, click)
    } else {
        uncovered(bbs.drop_last(), radius, click).push(bbs.last())
    }
}

/// What a click at `click` is worth for the rectangle `bb` that it is meant
/// for: nothing if it misses `bb`, else one for `bb` and one for each of the
/// others that it hits.
pub open spec fn score(
    bb: BoundingBox,
    others: Seq<BoundingBox>,
    radius: int,
    click: Coord,
) -> nat {
    if bb.collides(click, radius) {
        hits(others, radius, click) + 1
    } else {
        0
    }
}

/// The highest score among the candidates.
pub open spec fn best_score(
    bb: BoundingBox,
    others: Seq<BoundingBox>,
    radius: int,
    candidates: Seq<Coord>,
) -> nat
    decreases candidates.len(),
{
    if candidates.len() == 0 {
        0
    } else {
        let before = best_score(bb, others, radius, candidates.drop_last());
        let last = score(bb, others, radius, candidates.last());
        if last > before {
            last
        } else {
            before
        }
    }
}

/// The click chosen for `bb` among the candidates: the first of those with
/// the highest score. Where no candidate hits `bb` it is the near corner of
/// `bb`. `lemma_best_click_is_first_best` says so.
pub open spec fn best_click(
    bb: BoundingBox,
    others: Seq<BoundingBox>,
    radius: int,
    candidates: Seq<Coord>,
) -> Coord
    decreases candidates.len(),
{
    if candidates.len() == 0 {
        bb.left_top
    } else if score(bb, others, radius, candidates.last()) > best_score(
        bb,
        others,
        radius,
        candidates.drop_last(),
    ) {
        candidates.last()
    } else {
        best_click(bb, others, radius, candidates.drop_last())
    }
}

/// Whether the list of clicks hits `bb`.
pub open spec fn covers(clicks: Seq<Coord>, bb: BoundingBox, radius: int) -> bool {
    exists|j: int| 0 <= j < clicks.len() && bb.collides(#[trigger] clicks[j], radius)
}

/// Whether a point lies on the screen, its right and lower limit included.
pub open spec fn on_screen(click: Coord, screen_w: int, screen_h: int) -> bool {
    0 <= click.w <= screen_w && 0 <= click.h <= screen_h
}

/// Whether `click` may be the click made for `bb`: it is on the screen and
/// hits `bb`, or it is the near corner of `bb`.
pub open spec fn admissible(
    bb: BoundingBox,
    radius: int,
    screen_w: int,
    screen_h: int,
    click: Coord,
) -> bool {
    click == bb.left_top || (bb.collides(click, radius) && on_screen(click, screen_w, screen_h))
}

/// Whether `clicks` is a plan that the greedy search can make for `bbs`: the
/// first click is made for the last rectangle, and the rest is such a plan
/// for what that click leaves of the others.
pub open spec fn is_greedy_plan(
    bbs: Seq<BoundingBox>,
    radius: int,
    screen_w: int,
    screen_h: int,
    clicks: Seq<Coord>,
) -> bool
    decreases clicks.len(),
{
    if clicks.len() == 0 {
        bbs.len() == 0
    } else {
        &&& bbs.len() > 0
        &&& admissible(bbs.last(), radius, screen_w, screen_h, clicks[0])
        &&& is_greedy_plan(
            uncovered(bbs.drop_last(), radius, clicks[0]),
            radius,
            screen_w,
            screen_h,
            clicks.skip(1),
        )
    }
}

/// The least coordinate that is searched: `radius` before the near side, but
/// not off the screen.
pub open spec fn low_reach(near: int, radius: int) -> int {
    if near - radius > 0 {
        near - radius
    } else {
        0
    }
}

/// The greatest coordinate that is searched: `radius` past the far side, but
/// not past the limit of the screen.
pub open spec fn high_reach(far: int, radius: int, limit: int) -> int {
    if far + radius < limit {
        far + radius
    } else {
        limit
    }
}

/// The first `n` points of column `x` from row `bottom` upwards.
pub open spec fn column_points(x: int, bottom: int, n: nat) -> Seq<Coord> {
    Seq::new(n, |j: int| Coord { w: x as i64, h: (bottom - j) as i64 })
}

/// How many whole numbers lie between `low` and `high`, both included.
pub open spec fn span_len(low: int, high: int) -> nat {
    if high >= low {
        (high - low + 1) as nat
    } else {
        0
    }
}

/// The points of the first `n` columns that the exhaustive search tries for
/// `bb`, in the order in which it tries them: columns from the right, each
/// from the bottom.
pub open spec fn reach_columns(
    bb: BoundingBox,
    radius: int,
    screen_w: int,
    screen_h: int,
    n: nat,
) -> Seq<Coord>
    decreases n,
{
    if n == 0 {
        Seq::empty()
    } else {
        reach_columns(bb, radius, screen_w, screen_h, (n - 1) as nat) + column_points(
            high_reach(bb.right_bottom.w as int, radius, screen_w) - (n - 1),
            high_reach(bb.right_bottom.h as int, radius, screen_h),
            span_len(
                low_reach(bb.left_top.h as int, radius),
                high_reach(bb.right_bottom.h as int, radius, screen_h),
            ),
        )
    }
}

/// All the points that the exhaustive search tries for `bb`: those of the
/// screen that lie within `radius` of `bb` along each axis.
pub open spec fn reach_points(bb: BoundingBox, radius: int, screen_w: int, screen_h: int) -> Seq<
    Coord,
> {
    reach_columns(
        bb,
        radius,
        screen_w,
        screen_h,
        span_len(
            low_reach(bb.left_top.w as int, radius),
            high_reach(bb.right_bottom.w as int, radius, screen_w),
        ),
    )
}

/// The plan of the exhaustive search: the click for the last rectangle is the
/// best of all the points in its reach, and so on for what it leaves.
pub open spec fn fixed_plan(
    bbs: Seq<BoundingBox>,
    radius: int,
    screen_w: int,
    screen_h: int,
) -> Seq<Coord>
    decreases bbs.len(),
{
    if bbs.len() == 0 {
        Seq::empty()
    } else {
        let click = best_click(
            bbs.last(),
            bbs.drop_last(),
            radius,
            reach_points(bbs.last(), radius, screen_w, screen_h),
        );
        proof {
            lemma_uncovered_is_shorter(bbs.drop_last(), radius, click);
        }
        seq![click] + fixed_plan(
            uncovered(bbs.drop_last(), radius, click),
            radius,
            screen_w,
            screen_h,
        )
    }
}

/// A click leaves no more rectangles than there were.
pub proof fn lemma_uncovered_is_shorter(bbs: Seq<BoundingBox>, radius: int, click: Coord)
    ensures
        uncovered(bbs, radius, click).len() <= bbs.len(),
        uncovered(bbs, radius, click).len() + hits(bbs, radius, click) == bbs.len(),
    decreases bbs.len(),
{
    if bbs.len() > 0 {
        lemma_uncovered_is_shorter(bbs.drop_last(), radius, click);
    }
}

/// A rectangle that a click misses is among those that the click leaves.
proof fn lemma_uncovered_keeps(bbs: Seq<BoundingBox>, radius: int, click: Coord, i: int)
    requires
        0 <= i < bbs.len(),
        !bbs[i].collides(click, radius),
    ensures
        uncovered(bbs, radius, click).contains(bbs[i]),
    decreases bbs.len(),
{
    let left = uncovered(bbs, radius, click);
    if i == bbs.len() - 1 {
        assert(left[left.len() - 1] == bbs[i]);
    } else {
        lemma_uncovered_keeps(bbs.drop_last(), radius, click, i);
        let k = choose|k: int|
            0 <= k < uncovered(bbs.drop_last(), radius, click).len() && uncovered(
                bbs.drop_last(),
                radius,
                click,
            )[k] == bbs[i];
        assert(left[k] == bbs[i]);
    }
}

/// The near corner of a well-formed rectangle lies in it, so a click there
/// hits it whatever the radius.
proof fn lemma_corner_hits(bb: BoundingBox, radius: nat)
    requires
        bb.wf(),
    ensures
        bb.collides(bb.left_top, radius as int),
{
    assert(0 <= radius * radius) by (nonlinear_arith);
    assert(bb.gap_sq(bb.left_top) == 0) by (nonlinear_arith)
        requires
            bb.gap_sq(bb.left_top) == (bb.left_top.w - bb.left_top.w) * (bb.left_top.w
                - bb.left_top.w) + (bb.left_top.h - bb.left_top.h) * (bb.left_top.h
                - bb.left_top.h),
    ;
}

/// Cover validity: a greedy plan hits every well-formed rectangle that it was
/// made for.
pub proof fn lemma_greedy_plan_covers(
    bbs: Seq<BoundingBox>,
    radius: nat,
    screen_w: int,
    screen_h: int,
    clicks: Seq<Coord>,
)
    requires
        is_greedy_plan(bbs, radius as int, screen_w, screen_h, clicks),
    ensures
        forall|i: int|
            0 <= i < bbs.len() && (#[trigger] bbs[i]).wf() ==> covers(clicks, bbs[i], radius as int),
    decreases clicks.len(),
{
    if clicks.len() > 0 {
        let click = clicks[0];
        let others = bbs.drop_last();
        let left = uncovered(others, radius as int, click);
        lemma_greedy_plan_covers(left, radius, screen_w, screen_h, clicks.skip(1));
        assert forall|i: int| 0 <= i < bbs.len() && (#[trigger] bbs[i]).wf() implies covers(
            clicks,
            bbs[i],
            radius as int,
        ) by {
            if bbs[i].collides(click, radius as int) {
                assert(bbs[i].collides(clicks[0], radius as int));
            } else if i == bbs.len() - 1 {
                lemma_corner_hits(bbs[i], radius);
            } else {
                lemma_uncovered_keeps(others, radius as int, click, i);
                let k = choose|k: int| 0 <= k < left.len() && left[k] == bbs[i];
                assert(left[k].wf());
                let j = choose|j: int|
                    0 <= j < clicks.skip(1).len() && left[k].collides(
                        #[trigger] clicks.skip(1)[j],
                        radius as int,
                    );
                assert(bbs[i].collides(clicks[j + 1], radius as int));
            }
        }
    }
}

/// Every point that the exhaustive search tries lies on the screen.
proof fn lemma_reach_is_on_screen(
    bb: BoundingBox,
    radius: int,
    screen_w: int,
    screen_h: int,
    n: nat,
)
    requires
        0 <= screen_w <= i64::MAX,
        0 <= screen_h <= i64::MAX,
        n <= span_len(
            low_reach(bb.left_top.w as int, radius),
            high_reach(bb.right_bottom.w as int, radius, screen_w),
        ),
    ensures
        forall|k: int|
            0 <= k < reach_columns(bb, radius, screen_w, screen_h, n).len() ==> on_screen(
                #[trigger] reach_columns(bb, radius, screen_w, screen_h, n)[k],
                screen_w,
                screen_h,
            ),
    decreases n,
{
    if n > 0 {
        lemma_reach_is_on_screen(bb, radius, screen_w, screen_h, (n - 1) as nat);
        let before = reach_columns(bb, radius, screen_w, screen_h, (n - 1) as nat);
        let high_w = high_reach(bb.right_bottom.w as int, radius, screen_w);
        let high_h = high_reach(bb.right_bottom.h as int, radius, screen_h);
        let rows = span_len(low_reach(bb.left_top.h as int, radius), high_h);
        let column = column_points(high_w - (n - 1), high_h, rows);
        let all = reach_columns(bb, radius, screen_w, screen_h, n);
        assert(all == before + column);
        assert forall|k: int| 0 <= k < all.len() implies on_screen(
            #[trigger] all[k],
            screen_w,
            screen_h,
        ) by {
            if k < before.len() {
                assert(all[k] == before[k]);
            } else {
                assert(all[k] == column[k - before.len()]);
            }
        }
    }
}

/// The plan of the exhaustive search is a greedy plan.
pub proof fn lemma_fixed_plan_is_greedy(
    bbs: Seq<BoundingBox>,
    radius: int,
    screen_w: int,
    screen_h: int,
)
    requires
        0 <= screen_w <= i64::MAX,
        0 <= screen_h <= i64::MAX,
    ensures
        is_greedy_plan(
            bbs,
            radius,
            screen_w,
            screen_h,
            fixed_plan(bbs, radius, screen_w, screen_h),
        ),
    decreases bbs.len(),
{
    if bbs.len() > 0 {
        let cands = reach_points(bbs.last(), radius, screen_w, screen_h);
        let click = best_click(bbs.last(), bbs.drop_last(), radius, cands);
        let left = uncovered(bbs.drop_last(), radius, click);
        lemma_uncovered_is_shorter(bbs.drop_last(), radius, click);
        lemma_fixed_plan_is_greedy(left, radius, screen_w, screen_h);
        lemma_best_click_is_first_best(bbs.last(), bbs.drop_last(), radius, cands);
        lemma_reach_is_on_screen(
            bbs.last(),
            radius,
            screen_w,
            screen_h,
            span_len(
                low_reach(bbs.last().left_top.w as int, radius),
                high_reach(bbs.last().right_bottom.w as int, radius, screen_w),
            ),
        );
        let plan = fixed_plan(bbs, radius, screen_w, screen_h);
        assert(plan[0] == click);
        assert(plan.skip(1) =~= fixed_plan(left, radius, screen_w, screen_h));
    }
}

/// The click chosen among the candidates is the first of those with the
/// highest score; where every candidate misses the rectangle, it is the near
/// corner of the rectangle.
pub proof fn lemma_best_click_is_first_best(
    bb: BoundingBox,
    others: Seq<BoundingBox>,
    radius: int,
    candidates: Seq<Coord>,
)
    ensures
        forall|i: int|
            0 <= i < candidates.len() ==> score(bb, others, radius, #[trigger] candidates[i])
                <= best_score(bb, others, radius, candidates),
        best_score(bb, others, radius, candidates) == 0 ==> best_click(
            bb,
            others,
            radius,
            candidates,
        ) == bb.left_top,
        best_score(bb, others, radius, candidates) > 0 ==> exists|k: int|
            {
                &&& 0 <= k < candidates.len()
                &&& #[trigger] candidates[k] == best_click(bb, others, radius, candidates)
                &&& score(bb, others, radius, candidates[k]) == best_score(
                    bb,
                    others,
                    radius,
                    candidates,
                )
                &&& forall|i: int|
                    0 <= i < k ==> score(bb, others, radius, #[trigger] candidates[i]) < best_score(
                        bb,
                        others,
                        radius,
                        candidates,
                    )
            },
        best_click(bb, others, radius, candidates) == bb.left_top || (candidates.contains(
            best_click(bb, others, radius, candidates),
        ) && bb.collides(best_click(bb, others, radius, candidates), radius)),
    decreases candidates.len(),
{
    if candidates.len() > 0 {
        let before = candidates.drop_last();
        lemma_best_click_is_first_best(bb, others, radius, before);
        let last = score(bb, others, radius, candidates.last());
        let top = best_score(bb, others, radius, candidates);
        assert forall|i: int| 0 <= i < candidates.len() implies score(
            bb,
            others,
            radius,
            #[trigger] candidates[i],
        ) <= top by {
            if i < before.len() {
                assert(candidates[i] == before[i]);
            }
        }
        if last > best_score(bb, others, radius, before) {
            let k = candidates.len() - 1;
            assert(candidates[k] == best_click(bb, others, radius, candidates));
            assert forall|i: int| 0 <= i < k implies score(
                bb,
                others,
                radius,
                #[trigger] candidates[i],
            ) < top by {
                assert(candidates[i] == before[i]);
            }
        } else if top > 0 {
            let k = choose|k: int|
                {
                    &&& 0 <= k < before.len()
                    &&& #[trigger] before[k] == best_click(bb, others, radius, before)
                    &&& score(bb, others, radius, before[k]) == best_score(
                        bb,
                        others,
                        radius,
                        before,
                    )
                    &&& forall|i: int|
                        0 <= i < k ==> score(bb, others, radius, #[trigger] before[i])
                            < best_score(bb, others, radius, before)
                };
            assert(candidates[k] == before[k]);
            assert forall|i: int| 0 <= i < k implies score(
                bb,
                others,
                radius,
                #[trigger] candidates[i],
            ) < top by {
                assert(candidates[i] == before[i]);
            }
        }
    }
}

/// How many of the rectangles a click at `click` hits.
pub fn count_collisions_single(bbs: &[BoundingBox], remote_radius: u32, click: Coord) -> (ct: usize)
    ensures
        ct == hits(bbs@, remote_radius as int, click),
{
    let mut ct: usize = 0;
    let mut i: usize = 0;
    assert(bbs@.take(0) =~= Seq::<BoundingBox>::empty());
    while i < bbs.len()
        invariant
            i <= bbs.len(),
            ct <= i,
            ct == hits(bbs@.take(i as int), remote_radius as int, click),
        decreases bbs.len() - i,
    {
        assert(bbs@.take(i + 1).drop_last() =~= bbs@.take(i as int));
        if bbs[i].collides_with_circle(click, remote_radius) {
            ct = ct + 1;
        }
        i = i + 1;
    }
    assert(bbs@.take(bbs.len() as int) =~= bbs@);
    ct
}

/// The rectangles that a click at `click` does not hit.
fn drop_hit(bbs: &Vec<BoundingBox>, remote_radius: u32, click: Coord) -> (left: Vec<BoundingBox>)
    ensures
        left@ == uncovered(bbs@, remote_radius as int, click),
{
    let mut left: Vec<BoundingBox> = Vec::new();
    let mut i: usize = 0;
    assert(bbs@.take(0) =~= Seq::<BoundingBox>::empty());
    while i < bbs.len()
        invariant
            i <= bbs.len(),
            left@ == uncovered(bbs@.take(i as int), remote_radius as int, click),
        decreases bbs.len() - i,
    {
        assert(bbs@.take(i + 1).drop_last() =~= bbs@.take(i as int));
        if !bbs[i].collides_with_circle(click, remote_radius) {
            left.push(bbs[i]);
        }
        i = i + 1;
    }
    assert(bbs@.take(bbs.len() as int) =~= bbs@);
    left
}

/// The best click found so far in a search, and what it hits besides the
/// rectangle that the search is for.
struct Choice {
    click: Coord,
    others_hit: Option<usize>,
}

impl Choice {
    /// The score that the choice stands for.
    spec fn worth(&self) -> nat {
        match self.others_hit {
            Some(n) => (n + 1) as nat,
            None => 0,
        }
    }

    /// Whether the choice is the best among the candidates.
    spec fn is_best_of(
        &self,
        bb: BoundingBox,
        others: Seq<BoundingBox>,
        radius: int,
        candidates: Seq<Coord>,
    ) -> bool {
        &&& self.click == best_click(bb, others, radius, candidates)
        &&& self.worth() == best_score(bb, others, radius, candidates)
    }
}

/// Holds one more candidate against the best so far.
fn consider(
    best: &mut Choice,
    bb: &BoundingBox,
    others: &[BoundingBox],
    remote_radius: u32,
    test_click: Coord,
    Ghost(tried): Ghost<Seq<Coord>>,
)
    requires
        old(best).is_best_of(*bb, others@, remote_radius as int, tried),
    ensures
        final(best).is_best_of(*bb, others@, remote_radius as int, tried.push(test_click)),
{
    assert(tried.push(test_click).drop_last() =~= tried);
    if bb.collides_with_circle(test_click, remote_radius) {
        // the click must hit the rectangle itself, however many others it hits
        let hit: usize = count_collisions_single(others, remote_radius, test_click);
        let better: bool = match best.others_hit {
            Some(n) => hit > n,
            None => true,
        };
        if better {
            best.click = test_click;
            best.others_hit = Some(hit);
        }
    }
}

/// The click for `bb` among the candidates: the first of those that hit `bb`
/// and as many of the others as any candidate does, or the near corner of
/// `bb` where no candidate hits `bb`.
pub fn pick_click(
    bb: &BoundingBox,
    others: &[BoundingBox],
    remote_radius: u32,
    candidates: &[Coord],
) -> (click: Coord)
    ensures
        click == best_click(*bb, others@, remote_radius as int, candidates@),
        click == bb.left_top || (candidates@.contains(click) && bb.collides(
            click,
            remote_radius as int,
        )),
{
    let mut best = Choice { click: bb.left_top, others_hit: None };
    let mut i: usize = 0;
    assert(candidates@.take(0) =~= Seq::<Coord>::empty());
    while i < candidates.len()
        invariant
            i <= candidates.len(),
            best.is_best_of(*bb, others@, remote_radius as int, candidates@.take(i as int)),
        decreases candidates.len() - i,
    {
        assert(candidates@.take(i as int).push(candidates@[i as int]) =~= candidates@.take(i + 1));
        consider(
            &mut best,
            bb,
            others,
            remote_radius,
            candidates[i],
            Ghost(candidates@.take(i as int)),
        );
        i = i + 1;
    }
    proof {
        assert(candidates@.take(candidates.len() as int) =~= candidates@);
        lemma_best_click_is_first_best(*bb, others@, remote_radius as int, candidates@);
    }
    best.click
}

/// The click for `bb` among all the points of the screen within the radius
/// of `bb` along each axis.
fn best_in_reach(
    bb: &BoundingBox,
    others: &[BoundingBox],
    remote_radius: u32,
    screen_w: u32,
    screen_h: u32,
) -> (click: Coord)
    ensures
        click == best_click(
            *bb,
            others@,
            remote_radius as int,
            reach_points(*bb, remote_radius as int, screen_w as int, screen_h as int),
        ),
{
    let reach: i128 = remote_radius as i128;
    let low_w: i128 = if bb.left_top.w as i128 - reach > 0 {
        bb.left_top.w as i128 - reach
    } else {
        0
    };
    let low_h: i128 = if bb.left_top.h as i128 - reach > 0 {
        bb.left_top.h as i128 - reach
    } else {
        0
    };
    let high_w: i128 = if bb.right_bottom.w as i128 + reach < screen_w as i128 {
        bb.right_bottom.w as i128 + reach
    } else {
        screen_w as i128
    };
    let high_h: i128 = if bb.right_bottom.h as i128 + reach < screen_h as i128 {
        bb.right_bottom.h as i128 + reach
    } else {
        screen_h as i128
    };
    let ghost radius = remote_radius as int;
    let ghost sw = screen_w as int;
    let ghost sh = screen_h as int;
    let ghost rows = span_len(low_h as int, high_h as int);
    let mut best = Choice { click: bb.left_top, others_hit: None };
    let mut w: i128 = high_w;
    while w >= low_w
        invariant
            low_w == low_reach(bb.left_top.w as int, radius),
            low_h == low_reach(bb.left_top.h as int, radius),
            high_w == high_reach(bb.right_bottom.w as int, radius, sw),
            high_h == high_reach(bb.right_bottom.h as int, radius, sh),
            rows == span_len(low_h as int, high_h as int),
            radius == remote_radius,
            w <= high_w <= u32::MAX,
            high_h <= u32::MAX,
            w >= low_w - 1 || w == high_w,
            0 <= low_w,
            0 <= low_h,
            best.is_best_of(
                *bb,
                others@,
                radius,
                reach_columns(*bb, radius, sw, sh, (high_w - w) as nat),
            ),
        decreases w - low_w + 1,
    {
        let ghost done = reach_columns(*bb, radius, sw, sh, (high_w - w) as nat);
        let ghost column = column_points(w as int, high_h as int, rows);
        let mut h: i128 = high_h;
        assert(done + column.take(0) =~= done);
        while h >= low_h
            invariant
                low_h == low_reach(bb.left_top.h as int, radius),
                high_h == high_reach(bb.right_bottom.h as int, radius, sh),
                rows == span_len(low_h as int, high_h as int),
                column == column_points(w as int, high_h as int, rows),
                radius == remote_radius,
                0 <= low_w <= w <= high_w <= u32::MAX,
                0 <= low_h,
                h <= high_h <= u32::MAX,
                h >= low_h - 1 || h == high_h,
                best.is_best_of(*bb, others@, radius, done + column.take(high_h - h)),
            decreases h - low_h + 1,
        {
            let test_click = Coord { w: w as i64, h: h as i64 };
            let ghost tried = done + column.take(high_h - h);
            assert(tried.push(test_click) =~= done + column.take(high_h - h + 1));
            consider(&mut best, bb, others, remote_radius, test_click, Ghost(tried));
            h = h - 1;
        }
        assert(column.take(rows as int) =~= column);
        assert(done + column =~= reach_columns(*bb, radius, sw, sh, (high_w - w + 1) as nat));
        w = w - 1;
    }
    best.click
}

/// Generates clicks for a set of rectangles by exhaustive search. The last
/// rectangle is taken first: every point of the screen within
/// `remote_radius` of it along each axis is tried, from the right and from the
/// bottom, and the first of those that hit it and the most others becomes a
/// click; its near corner does where no point hits it. What the click hits is
/// struck from the list, and so on until the list is empty.
///
/// The plan is reproducible. Every well-formed rectangle is hit by one of its
/// clicks; no plan is promised to be the shortest there is.
pub fn gen_clicks_from_bbs_fixed(
    bbs: &[BoundingBox],
    remote_radius: u32,
    screen_w: u32,
    screen_h: u32,
) -> (clicks: Vec<Coord>)
    ensures
        clicks@ == fixed_plan(bbs@, remote_radius as int, screen_w as int, screen_h as int),
        is_greedy_plan(
            bbs@,
            remote_radius as int,
            screen_w as int,
            screen_h as int,
            clicks@,
        ),
        forall|i: int|
            0 <= i < bbs@.len() && (#[trigger] bbs@[i]).wf() ==> covers(
                clicks@,
                bbs@[i],
                remote_radius as int,
            ),
{
    let ghost radius = remote_radius as int;
    let ghost sw = screen_w as int;
    let ghost sh = screen_h as int;
    let mut bbs: Vec<BoundingBox> = vstd::slice::slice_to_vec(bbs);
    let ghost all = bbs@;
    let mut current_clicks: Vec<Coord> = Vec::new();
    while bbs.len() > 0
        invariant
            radius == remote_radius,
            sw == screen_w,
            sh == screen_h,
            fixed_plan(all, radius, sw, sh) == current_clicks@ + fixed_plan(bbs@, radius, sw, sh),
        decreases bbs.len(),
    {
        let ghost before = bbs@;
        let bb = bbs.pop().unwrap();
        assert(bbs@ =~= before.drop_last());
        let best_click = best_in_reach(&bb, bbs.as_slice(), remote_radius, screen_w, screen_h);
        current_clicks.push(best_click);
        // strike what the click hits
        bbs = drop_hit(&bbs, remote_radius, best_click);
        proof {
            lemma_uncovered_is_shorter(before.drop_last(), radius, best_click);
            assert(current_clicks@ + fixed_plan(bbs@, radius, sw, sh)
                =~= current_clicks@.drop_last() + fixed_plan(before, radius, sw, sh));
        }
    }
    proof {
        assert(current_clicks@ + fixed_plan(bbs@, radius, sw, sh) =~= current_clicks@);
        lemma_fixed_plan_is_greedy(all, radius, sw, sh);
        lemma_greedy_plan_covers(all, remote_radius as nat, sw, sh, current_clicks@);
    }
    current_clicks
}

/// The number of the range from `low` to `high` that lies nearest to `v`.
pub open spec fn clamp_to(v: int, low: int, high: int) -> int {
    if v < low {
        low
    } else if v > high {
        high
    } else {
        v
    }
}

/// The greatest number that a draw for one axis can give before it is brought
/// onto the screen: the last of the range from `radius` before the near side
/// to `radius` past the far side, which is left out; the start of that range
/// where it is empty.
pub open spec fn last_draw(near: int, far: int, radius: int) -> int {
    if far + radius - 1 > near - radius {
        far + radius - 1
    } else {
        near - radius
    }
}

/// Whether `click` can come of a draw for `bb`: along each axis it lies on the
/// screen, between what the least and the greatest draw give there.
pub open spec fn in_draw_range(
    bb: BoundingBox,
    radius: int,
    screen_w: int,
    screen_h: int,
    click: Coord,
) -> bool {
    &&& clamp_to(bb.left_top.w - radius, 0, screen_w) <= click.w <= clamp_to(
        last_draw(bb.left_top.w as int, bb.right_bottom.w as int, radius),
        0,
        screen_w,
    )
    &&& clamp_to(bb.left_top.h - radius, 0, screen_h) <= click.h <= clamp_to(
        last_draw(bb.left_top.h as int, bb.right_bottom.h as int, radius),
        0,
        screen_h,
    )
}

/// Whether plan `k` is the first of the shortest plans.
pub open spec fn is_first_shortest(plans: Seq<Vec<Coord>>, k: int) -> bool {
    &&& 0 <= k < plans.len()
    &&& forall|j: int| 0 <= j < plans.len() ==> (#[trigger] plans[j])@.len() >= plans[k]@.len()
    &&& forall|j: int| 0 <= j < k ==> (#[trigger] plans[j])@.len() > plans[k]@.len()
}

/// Draws one coordinate of a click: a number from `radius` before `near` up
/// to, not including, `radius` past `far`, brought onto the screen. Where
/// that range is empty or too long to draw from, the draw is its start.
fn rand_coord(
    rng: &mut tiny_rng::Rng,
    near: i64,
    far: i64,
    remote_radius: u32,
    limit: u32,
) -> (x: i64)
    ensures
        clamp_to(near - remote_radius, 0, limit as int) <= x <= clamp_to(
            last_draw(near as int, far as int, remote_radius as int),
            0,
            limit as int,
        ),
{
    let from: i128 = near as i128 - remote_radius as i128;
    let to: i128 = far as i128 + remote_radius as i128;
    let drawn: i128 = if from < to && from > -0x4000_0000_0000_0000 && to
        <= 0x4000_0000_0000_0000 {
        rng_range_i64(rng, from as i64, to as i64) as i128
    } else {
        from
    };
    if drawn < 0 {
        0
    } else if drawn > limit as i128 {
        limit as i64
    } else {
        drawn as i64
    }
}

/// Draws a click that is likely to hit `bb`: a point of the screen within
/// `remote_radius` of `bb` along each axis.
fn get_rand_click(
    rng: &mut tiny_rng::Rng,
    bb: &BoundingBox,
    remote_radius: u32,
    w: u32,
    h: u32,
) -> (click: Coord)
    ensures
        in_draw_range(*bb, remote_radius as int, w as int, h as int, click),
        on_screen(click, w as int, h as int),
{
    let x: i64 = rand_coord(rng, bb.left_top.w, bb.right_bottom.w, remote_radius, w);
    let y: i64 = rand_coord(rng, bb.left_top.h, bb.right_bottom.h, remote_radius, h);
    Coord { w: x, h: y }
}

/// Draws `count` clicks for `bb`.
fn draw_samples(
    rng: &mut tiny_rng::Rng,
    bb: &BoundingBox,
    remote_radius: u32,
    w: u32,
    h: u32,
    count: usize,
) -> (samples: Vec<Coord>)
    ensures
        samples@.len() == count,
        forall|i: int|
            0 <= i < samples@.len() ==> in_draw_range(
                *bb,
                remote_radius as int,
                w as int,
                h as int,
                #[trigger] samples@[i],
            ),
{
    let mut samples: Vec<Coord> = Vec::new();
    while samples.len() < count
        invariant
            samples@.len() <= count,
            forall|i: int|
                0 <= i < samples@.len() ==> in_draw_range(
                    *bb,
                    remote_radius as int,
                    w as int,
                    h as int,
                    #[trigger] samples@[i],
                ),
        decreases count - samples@.len(),
    {
        let click = get_rand_click(rng, bb, remote_radius, w, h);
        samples.push(click);
    }
    samples
}

/// One plan of the random search, made with a generator started from `seed`.
/// The last rectangle is taken first: of `NUM_RANDOM_SAMPLES` points drawn
/// near it, the first of those that hit it and the most others becomes a
/// click; its near corner does where no point drawn hits it. What the click
/// hits is struck from the list, and so on until the list is empty.
///
/// Which points are drawn is not stated. Whatever they are, the plan is a
/// greedy plan, and every well-formed rectangle is hit by one of its clicks.
pub fn random_plan(
    bbs: &[BoundingBox],
    remote_radius: u32,
    w: u32,
    h: u32,
    seed: u64,
) -> (clicks: Vec<Coord>)
    ensures
        is_greedy_plan(bbs@, remote_radius as int, w as int, h as int, clicks@),
        forall|i: int|
            0 <= i < bbs@.len() && (#[trigger] bbs@[i]).wf() ==> covers(
                clicks@,
                bbs@[i],
                remote_radius as int,
            ),
{
    let ghost radius = remote_radius as int;
    let ghost sw = w as int;
    let ghost sh = h as int;
    let mut rng = rng_from_seed(seed);
    let mut bbs: Vec<BoundingBox> = vstd::slice::slice_to_vec(bbs);
    let ghost all = bbs@;
    let mut current_clicks: Vec<Coord> = Vec::new();
    assert forall|rest: Seq<Coord>| #[trigger]
        is_greedy_plan(bbs@, radius, sw, sh, rest) implies is_greedy_plan(
        all,
        radius,
        sw,
        sh,
        current_clicks@ + rest,
    ) by {
        assert(current_clicks@ + rest =~= rest);
    }
    while bbs.len() > 0
        invariant
            radius == remote_radius,
            sw == w,
            sh == h,
            forall|rest: Seq<Coord>| #[trigger]
                is_greedy_plan(bbs@, radius, sw, sh, rest) ==> is_greedy_plan(
                    all,
                    radius,
                    sw,
                    sh,
                    current_clicks@ + rest,
                ),
        decreases bbs.len(),
    {
        let ghost before = bbs@;
        let ghost made = current_clicks@;
        let bb = bbs.pop().unwrap();
        assert(bbs@ =~= before.drop_last());
        let samples = draw_samples(&mut rng, &bb, remote_radius, w, h, NUM_RANDOM_SAMPLES);
        let best_click = pick_click(&bb, bbs.as_slice(), remote_radius, samples.as_slice());
        current_clicks.push(best_click);
        // strike what the click hits
        bbs = drop_hit(&bbs, remote_radius, best_click);
        proof {
            lemma_uncovered_is_shorter(before.drop_last(), radius, best_click);
            if best_click != bb.left_top {
                let k = choose|k: int| 0 <= k < samples@.len() && samples@[k] == best_click;
                assert(in_draw_range(bb, radius, sw, sh, samples@[k]));
            }
            assert(admissible(bb, radius, sw, sh, best_click));
            assert forall|rest: Seq<Coord>| #[trigger]
                is_greedy_plan(bbs@, radius, sw, sh, rest) implies is_greedy_plan(
                all,
                radius,
                sw,
                sh,
                current_clicks@ + rest,
            ) by {
                let longer = seq![best_click] + rest;
                assert(longer[0] == best_click);
                assert(longer.skip(1) =~= rest);
                assert(is_greedy_plan(before, radius, sw, sh, longer));
                assert(made + longer =~= current_clicks@ + rest);
            }
        }
    }
    proof {
        assert(is_greedy_plan(bbs@, radius, sw, sh, Seq::<Coord>::empty()));
        assert(current_clicks@ + Seq::<Coord>::empty() =~= current_clicks@);
        lemma_greedy_plan_covers(all, remote_radius as nat, sw, sh, current_clicks@);
    }
    current_clicks
}

/// The first of the shortest plans, or `None` where there is no plan.
pub fn shortest_plan(plans: Vec<Vec<Coord>>) -> (best: Option<Vec<Coord>>)
    ensures
        best is None <==> plans@.len() == 0,
        best matches Some(plan) ==> exists|k: int|
            is_first_shortest(plans@, k) && plan@ == (#[trigger] plans@[k])@,
{
    if plans.len() == 0 {
        return None;
    }
    let mut plans = plans;
    let ghost all = plans@;
    let mut best: usize = 0;
    let mut i: usize = 1;
    while i < plans.len()
        invariant
            plans@ == all,
            1 <= i <= plans.len(),
            best < i,
            forall|j: int|
                0 <= j < i ==> (#[trigger] plans@[j])@.len() >= plans@[best as int]@.len(),
            forall|j: int|
                0 <= j < best ==> (#[trigger] plans@[j])@.len() > plans@[best as int]@.len(),
        decreases plans.len() - i,
    {
        if plans[i].len() < plans[best].len() {
            best = i;
        }
        i = i + 1;
    }
    assert(is_first_shortest(all, best as int));
    Some(plans.swap_remove(best))
}

/// Generates clicks for a set of rectangles by random search: makes
/// `NUM_RANDOM_GUESSES` plans, each with a generator of its own seed, and
/// keeps the first of the shortest.
///
/// `bbs`: the rectangles to hit. `remote_radius`: the reach of one click, in
/// pixels. `w`, `h`: the size of the image in pixels, which the points drawn
/// stay within.
///
/// Every well-formed rectangle is hit by one of the clicks; no plan is
/// promised to be the shortest there is.
pub fn gen_clicks_from_bbs_rand(
    bbs: &[BoundingBox],
    remote_radius: u32,
    w: u32,
    h: u32,
) -> (clicks: Vec<Coord>)
    ensures
        is_greedy_plan(bbs@, remote_radius as int, w as int, h as int, clicks@),
        forall|i: int|
            0 <= i < bbs@.len() && (#[trigger] bbs@[i]).wf() ==> covers(
                clicks@,
                bbs@[i],
                remote_radius as int,
            ),
{
    let mut plans: Vec<Vec<Coord>> = Vec::new();
    let mut id: usize = 0;
    while id < NUM_RANDOM_GUESSES
        invariant
            id <= NUM_RANDOM_GUESSES,
            plans@.len() == id,
            forall|j: int|
                0 <= j < plans@.len() ==> is_greedy_plan(
                    bbs@,
                    remote_radius as int,
                    w as int,
                    h as int,
                    (#[trigger] plans@[j])@,
                ),
        decreases NUM_RANDOM_GUESSES - id,
    {
        let current_clicks = random_plan(bbs, remote_radius, w, h, id as u64);
        plans.push(current_clicks);
        id = id + 1;
    }
    let clicks = shortest_plan(plans).unwrap();
    proof {
        lemma_greedy_plan_covers(bbs@, remote_radius as nat, w as int, h as int, clicks@);
    }
    clicks
}

} // verus!

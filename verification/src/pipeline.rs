//! From a capture to the clicks: detection by markers or by colour, click
//! generation, and the clicks that the game's own panels would swallow.

use crate::debug::{
    blue, find_spawner_positions, find_worm_positions, magenta, marks, moved,
    positions_to_bb, SPAWNER_DEBUG_MIN_CLICK_DIST, WORM_DEBUG_MIN_CLICK_DIST,
};
use crate::generator::{gen_clicks_from_bbs_rand, is_greedy_plan};
use crate::legit::{detect, process_red};
use crate::screen::{BoundingBox, Coord};
use crate::visualization::{Grid, VisualizedImage};
use vstd::prelude::*;

verus! {

/// The width of the screen that the panels are measured on.
pub const SCREEN_W: i64 = 2560;

/// The height of the screen that the panels are measured on.
pub const SCREEN_H: i64 = 1440;

/// The reach of the artillery remote at the zoom levels that show markers, in pixels.
pub const ARTY_REMOTE_RADIUS: u32 = 40;

/// Whether a click falls on one of the game's panels: the one in the upper
/// right corner or the one in the middle of the lower border. The panels are
/// given on a screen of 1920 by 1080 and scaled to the screen.
pub open spec fn excluded(click: Coord) -> bool {
    ||| click.h < 493 * SCREEN_H / 1080 && click.w > 1664 * SCREEN_W / 1920
    ||| click.h > 985 * SCREEN_H / 1080 && click.w > 703 * SCREEN_W / 1920 && click.w < 1433
        * SCREEN_W / 1920
}

/// The clicks that fall on no panel, in their order.
pub open spec fn allowed(clicks: Seq<Coord>) -> Seq<Coord>
    decreases clicks.len(),
{
    if clicks.len() == 0 {
        Seq::empty()
    } else if excluded(clicks.last()) {
        allowed(clicks.drop_last())
    } else {
        allowed(clicks.drop_last()).push(clicks.last())
    }
}

/// The clicks of the given row, in their order.
pub open spec fn in_row(clicks: Seq<Coord>, row: i64) -> Seq<Coord>
    decreases clicks.len(),
{
    if clicks.len() == 0 {
        Seq::empty()
    } else if clicks.last().h == row {
        in_row(clicks.drop_last(), row).push(clicks.last())
    } else {
        in_row(clicks.drop_last(), row)
    }
}

/// Whether `sorted` is `from` sorted by row: the rows ascend, and the clicks
/// of each row are those of `from` in the order that they have there.
pub open spec fn is_sorted_by_row(sorted: Seq<Coord>, from: Seq<Coord>) -> bool {
    &&& sorted.len() == from.len()
    &&& forall|i: int, j: int| 0 <= i < j < sorted.len() ==> sorted[i].h <= sorted[j].h
    &&& forall|row: i64| #[trigger] in_row(sorted, row) == in_row(from, row)
}

/// The rectangles whose near corner is `(w, h)`, in their order.
pub open spec fn with_corner(bbs: Seq<BoundingBox>, h: i64, w: i64) -> Seq<BoundingBox>
    decreases bbs.len(),
{
    if bbs.len() == 0 {
        Seq::empty()
    } else if bbs.last().left_top.h == h && bbs.last().left_top.w == w {
        with_corner(bbs.drop_last(), h, w).push(bbs.last())
    } else {
        with_corner(bbs.drop_last(), h, w)
    }
}

/// Whether the near corner of `a` comes no later than that of `b`, rows
/// first and columns within a row.
pub open spec fn corner_not_after(a: BoundingBox, b: BoundingBox) -> bool {
    a.left_top.h < b.left_top.h || (a.left_top.h == b.left_top.h && a.left_top.w <= b.left_top.w)
}

/// Whether `sorted` is `from` sorted by near corner, rows first: the corners
/// ascend, and the rectangles of each corner are those of `from` in the
/// order that they have there.
pub open spec fn is_sorted_by_corner(sorted: Seq<BoundingBox>, from: Seq<BoundingBox>) -> bool {
    &&& sorted.len() == from.len()
    &&& forall|i: int, j: int| 0 <= i < j < sorted.len() ==> corner_not_after(sorted[i], sorted[j])
    &&& forall|h: i64, w: i64| #[trigger] with_corner(sorted, h, w) == with_corner(from, h, w)
}

/// `slice::sort_by_key` with the row of a click as the key: the rows ascend
/// afterwards, and the sort is stable, so that clicks of one row keep their order.
#[verifier::external_body]
fn sort_by_row(clicks: &mut Vec<Coord>)
    ensures
        is_sorted_by_row(final(clicks)@, old(clicks)@),
{
    clicks.sort_by_key(|click| click.h);
}

/// What rectangles are sorted by: the near corner, row before column.
pub fn corner_key(bb: &BoundingBox) -> (key: (i64, i64))
    ensures
        key == (bb.left_top.h, bb.left_top.w),
{
    (bb.left_top.h, bb.left_top.w)
}

/// `slice::sort_by_key` with `corner_key` as the key: the keys ascend
/// afterwards in the order of tuples, first by row and then by column, and
/// the sort is stable, so that rectangles of one corner keep their order.
#[verifier::external_body]
fn sort_by_corner(bbs: &mut Vec<BoundingBox>)
    ensures
        is_sorted_by_corner(final(bbs)@, old(bbs)@),
{
    bbs.sort_by_key(corner_key);
}

/// Whether a click falls on one of the game's panels.
pub fn is_excluded(click: &Coord) -> (on_panel: bool)
    ensures
        on_panel == excluded(*click),
{
    (click.h < 493 * SCREEN_H / 1080 && click.w > 1664 * SCREEN_W / 1920) || (click.h > 985
        * SCREEN_H / 1080 && click.w > 703 * SCREEN_W / 1920 && click.w < 1433 * SCREEN_W / 1920)
}

/// Drops the clicks that fall on one of the game's panels.
pub fn remove_clicks_in_excluded_areas(clicks: &mut Vec<Coord>)
    ensures
        final(clicks)@ == allowed(old(clicks)@),
{
    let mut kept: Vec<Coord> = Vec::new();
    let mut i: usize = 0;
    assert(clicks@.take(0) =~= Seq::<Coord>::empty());
    while i < clicks.len()
        invariant
            i <= clicks.len(),
            clicks@ == old(clicks)@,
            kept@ == allowed(clicks@.take(i as int)),
        decreases clicks.len() - i,
    {
        assert(clicks@.take(i + 1).drop_last() =~= clicks@.take(i as int));
        if !is_excluded(&clicks[i]) {
            kept.push(clicks[i]);
        }
        i = i + 1;
    }
    assert(clicks@.take(clicks.len() as int) =~= clicks@);
    *clicks = kept;
}

/// What a marker stands for when it is a spawner's: the rectangle of the
/// spawner relative to the marker.
pub open spec fn spawner_mask() -> BoundingBox {
    BoundingBox { left_top: Coord { w: -30i64, h: -11i64 }, right_bottom: Coord { w: 23, h: 31 } }
}

/// What a marker stands for when it is a worm's.
pub open spec fn worm_mask() -> BoundingBox {
    BoundingBox { left_top: Coord { w: -8i64, h: 1 }, right_bottom: Coord { w: 15, h: 22 } }
}

/// The rectangle `mask` moved to each of the clicks.
pub open spec fn boxes_at(mask: BoundingBox, clicks: Seq<Coord>) -> Seq<BoundingBox> {
    Seq::new(clicks.len(), |i: int| moved(mask, clicks[i]))
}

/// The targets that the markers on the image stand for: the spawners, then the worms.
pub open spec fn marker_boxes(g: Grid) -> Seq<BoundingBox> {
    boxes_at(spawner_mask(), marks(g, blue(), SPAWNER_DEBUG_MIN_CLICK_DIST as int)) + boxes_at(
        worm_mask(),
        marks(g, magenta(), WORM_DEBUG_MIN_CLICK_DIST as int),
    )
}

/// The reach of the artillery remote on a view on which a spawner is `width`
/// pixels wide: 43% of that width, rounded down; nothing for a width that is
/// not positive.
pub open spec fn unit_radius(width: int) -> int {
    if width <= 0 {
        0
    } else if 43 * width / 100 > u32::MAX {
        u32::MAX as int
    } else {
        43 * width / 100
    }
}

/// Whether `clicks` can come of the markers on `g`: the clicks of a greedy
/// plan for the targets that the markers stand for, sorted by near corner,
/// less those on a panel.
pub open spec fn marker_outcome(g: Grid, clicks: Seq<Coord>) -> bool {
    exists|targets: Seq<BoundingBox>, plan: Seq<Coord>|
        #![trigger is_greedy_plan(targets, ARTY_REMOTE_RADIUS as int, g.width, g.height, plan)]
        {
            &&& is_sorted_by_corner(targets, marker_boxes(g))
            &&& is_greedy_plan(targets, ARTY_REMOTE_RADIUS as int, g.width, g.height, plan)
            &&& clicks == allowed(plan)
        }
}

/// Whether `clicks` can come of the colours on `g`: the clicks of a greedy
/// plan for the targets detected, with the reach that the unit gives, less
/// those on a panel, sorted by row.
pub open spec fn colour_outcome(g: Grid, clicks: Seq<Coord>) -> bool {
    exists|plan: Seq<Coord>|
        #![trigger is_greedy_plan(
            detect(g).targets,
            unit_radius(detect(g).unit.spec_w()),
            g.width,
            g.height,
            plan,
        )]
        {
            &&& is_greedy_plan(
                detect(g).targets,
                unit_radius(detect(g).unit.spec_w()),
                g.width,
                g.height,
                plan,
            )
            &&& is_sorted_by_row(clicks, allowed(plan))
        }
}

/// Where the targets of a search come from.
#[derive(Debug, Clone, Copy, PartialEq, Eq, Structural)]
pub enum Stage {
    /// From the debug markers.
    Markers,
    /// From the colours of the map.
    Colours,
}

/// What is to be done next with a capture.
#[derive(Debug)]
pub enum Next {
    /// Clicks are to be searched for the targets with the given reach, and
    /// the plan found is to be handed to `proceed`.
    Search { stage: Stage, targets: Vec<BoundingBox>, radius: u32 },
    /// The clicks are made.
    Done { clicks: Vec<Coord> },
}

/// Whether `next` asks for a search for the targets that the markers on `g`
/// stand for, sorted by near corner, with the reach of the remote.
pub open spec fn asks_for_markers(g: Grid, next: Next) -> bool {
    &&& next matches Next::Search { stage, targets, radius }
    &&& stage == Stage::Markers
    &&& radius == ARTY_REMOTE_RADIUS
    &&& is_sorted_by_corner(targets@, marker_boxes(g))
}

/// Whether `next` asks for a search for the targets detected on `before`,
/// with the reach that the unit gives, and `after` is what detection left of
/// the image.
pub open spec fn asks_for_colours(before: Grid, after: Grid, next: Next) -> bool {
    &&& after == detect(before).grid
    &&& next matches Next::Search { stage, targets, radius }
    &&& stage == Stage::Colours
    &&& targets@ == detect(before).targets
    &&& radius == unit_radius(detect(before).unit.spec_w())
}

/// Whether `next` says that the clicks are made, and which.
pub open spec fn is_done_with(next: Next, made: Seq<Coord>) -> bool {
    next matches Next::Done { clicks } && clicks@ == made
}

/// The reach of the artillery remote for a unit of the given width.
pub fn radius_for(spawner_width: i64) -> (radius: u32)
    ensures
        radius == unit_radius(spawner_width as int),
{
    if spawner_width <= 0 {
        return 0;
    }
    let scaled: i128 = 43 * (spawner_width as i128) / 100;
    if scaled > 0xffff_ffff {
        0xffff_ffff
    } else {
        scaled as u32
    }
}

/// The targets that the markers on the image stand for, sorted by near
/// corner, rows first.
pub fn targets_by_markers(img: &VisualizedImage) -> (targets: Vec<BoundingBox>)
    ensures
        is_sorted_by_corner(targets@, marker_boxes(img@)),
{
    // read for their bounds: a position on the image fits 32 bits
    let (_width, _height) = img.dimensions();
    let debug_spawner_positions = find_spawner_positions(img);
    let debug_worm_positions = find_worm_positions(img);
    let spawner_mask = BoundingBox {
        left_top: Coord { w: -30, h: -11 },
        right_bottom: Coord { w: 23, h: 31 },
    };
    let worm_mask = BoundingBox {
        left_top: Coord { w: -8, h: 1 },
        right_bottom: Coord { w: 15, h: 22 },
    };
    let spawner_bbs = positions_to_bb(debug_spawner_positions.as_slice(), &spawner_mask);
    let worm_bbs = positions_to_bb(debug_worm_positions.as_slice(), &worm_mask);
    let mut combined_bbs = spawner_bbs.unwrap();
    let mut worm_bbs = worm_bbs.unwrap();
    combined_bbs.append(&mut worm_bbs);
    assert(combined_bbs@ =~= marker_boxes(img@));
    sort_by_corner(&mut combined_bbs);
    combined_bbs
}

/// Detects the targets by colour and asks for a search for them.
fn begin_colours(img: &mut VisualizedImage) -> (next: Next)
    requires
        old(img).wf(),
    ensures
        final(img).wf(),
        asks_for_colours(old(img)@, final(img)@, next),
{
    let (bbs, spawner_width) = process_red(img);
    Next::Search { stage: Stage::Colours, targets: bbs, radius: radius_for(spawner_width) }
}

/// The first thing to do with a capture. With `scan_debug` it is a search
/// for the targets that the markers stand for. Else, with `scan_red`, the
/// targets are detected by colour, which erases them from the image, and
/// the search is for them. With neither there is nothing to click.
pub fn begin(img: &mut VisualizedImage, scan_debug: bool, scan_red: bool) -> (next: Next)
    requires
        old(img).wf(),
    ensures
        final(img).wf(),
        scan_debug ==> final(img)@ == old(img)@ && asks_for_markers(old(img)@, next),
        !scan_debug && scan_red ==> asks_for_colours(old(img)@, final(img)@, next),
        !scan_debug && !scan_red ==> final(img)@ == old(img)@ && is_done_with(
            next,
            Seq::<Coord>::empty(),
        ),
{
    if scan_debug {
        Next::Search {
            stage: Stage::Markers,
            targets: targets_by_markers(img),
            radius: ARTY_REMOTE_RADIUS,
        }
    } else if scan_red {
        begin_colours(img)
    } else {
        Next::Done { clicks: Vec::new() }
    }
}

/// What to do once a search has given a plan. Clicks on a panel are dropped
/// from it. What is left of a plan for markers is the answer, unless nothing
/// is left: then, with `scan_red`, the colours get their turn. What is left
/// of a plan for colours is the answer, sorted by row.
pub fn proceed(img: &mut VisualizedImage, stage: Stage, plan: Vec<Coord>, scan_red: bool) -> (next:
    Next)
    requires
        old(img).wf(),
    ensures
        final(img).wf(),
        stage == Stage::Markers && allowed(plan@).len() > 0 ==> final(img)@ == old(img)@
            && is_done_with(next, allowed(plan@)),
        stage == Stage::Markers && allowed(plan@).len() == 0 && scan_red ==> asks_for_colours(
            old(img)@,
            final(img)@,
            next,
        ),
        stage == Stage::Markers && allowed(plan@).len() == 0 && !scan_red ==> final(img)@ == old(
            img,
        )@ && is_done_with(next, Seq::<Coord>::empty()),
        stage == Stage::Colours ==> final(img)@ == old(img)@,
        stage == Stage::Colours ==> (next matches Next::Done { clicks } && is_sorted_by_row(
            clicks@,
            allowed(plan@),
        )),
{
    let mut clicks = plan;
    remove_clicks_in_excluded_areas(&mut clicks);
    match stage {
        Stage::Markers => {
            if clicks.len() > 0 {
                Next::Done { clicks }
            } else if scan_red {
                begin_colours(img)
            } else {
                assert(clicks@ =~= Seq::<Coord>::empty());
                Next::Done { clicks }
            }
        },
        Stage::Colours => {
            sort_by_row(&mut clicks);
            Next::Done { clicks }
        },
    }
}

/// Turns a capture into clicks. With `scan_debug` the targets are read off
/// the debug markers first, and the clicks for them are the answer unless
/// there are none. With `scan_red` the targets are then detected by colour,
/// which erases them from the image, and the reach of a click is inferred
/// from the unit; the clicks come sorted by row. No click falls on a panel.
///
/// Which plan the random search makes is not stated; `marker_outcome` and
/// `colour_outcome` say what holds of every plan it can make, and `begin` and
/// `proceed` what is made of a plan.
pub fn process_image_into_clicks(
    img: &mut VisualizedImage,
    scan_debug: bool,
    scan_red: bool,
) -> (clicks: Vec<Coord>)
    requires
        old(img).wf(),
    ensures
        final(img).wf(),
        ({
            ||| scan_debug && clicks@.len() > 0 && marker_outcome(old(img)@, clicks@) && final(img)@
                == old(img)@
            ||| (scan_debug ==> marker_outcome(old(img)@, Seq::<Coord>::empty())) && scan_red
                && colour_outcome(old(img)@, clicks@) && final(img)@ == detect(old(img)@).grid
            ||| (scan_debug ==> marker_outcome(old(img)@, Seq::<Coord>::empty())) && !scan_red
                && clicks@.len() == 0 && final(img)@ == old(img)@
        }),
{
    let (width, height) = img.dimensions();
    let ghost before = img@;
    let first = begin(img, scan_debug, scan_red);
    let second = match first {
        Next::Done { clicks } => {
            return clicks;
        },
        Next::Search { stage, targets, radius } => {
            let plan = gen_clicks_from_bbs_rand(targets.as_slice(), radius, width, height);
            let ghost made = plan@;
            let next = proceed(img, stage, plan, scan_red);
            proof {
                if scan_debug {
                    assert(is_greedy_plan(
                        targets@,
                        ARTY_REMOTE_RADIUS as int,
                        before.width,
                        before.height,
                        made,
                    ));
                    assert(marker_outcome(before, allowed(made)));
                    if allowed(made).len() == 0 {
                        assert(allowed(made) =~= Seq::<Coord>::empty());
                    }
                } else {
                    assert(is_greedy_plan(
                        detect(before).targets,
                        unit_radius(detect(before).unit.spec_w()),
                        before.width,
                        before.height,
                        made,
                    ));
                    assert(next matches Next::Done { clicks } && colour_outcome(before, clicks@));
                }
            }
            next
        },
    };
    match second {
        Next::Done { clicks } => clicks,
        Next::Search { stage, targets, radius } => {
            let plan = gen_clicks_from_bbs_rand(targets.as_slice(), radius, width, height);
            let ghost made = plan@;
            let last = proceed(img, stage, plan, scan_red);
            proof {
                assert(is_greedy_plan(
                    detect(before).targets,
                    unit_radius(detect(before).unit.spec_w()),
                    before.width,
                    before.height,
                    made,
                ));
                assert(last matches Next::Done { clicks } && colour_outcome(before, clicks@));
            }
            match last {
                Next::Done { clicks } => clicks,
                Next::Search { stage: _, targets: _, radius: _ } => Vec::new(),
            }
        },
    }
}

} // verus!

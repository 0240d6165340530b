use iron_dome::generator::{
    count_collisions_single, gen_clicks_from_bbs_fixed, gen_clicks_from_bbs_rand, pick_click,
    random_plan, shortest_plan, NUM_RANDOM_GUESSES, NUM_RANDOM_SAMPLES,
};
use iron_dome::screen::{BoundingBox, Coord};

fn rect(w0: i64, h0: i64, w: i64, h: i64) -> BoundingBox {
    BoundingBox::new(Coord { w: w0, h: h0 }, w, h).unwrap()
}

fn at(w: i64, h: i64) -> Coord {
    Coord { w, h }
}

fn assert_covered(bbs: &[BoundingBox], clicks: &[Coord], radius: u32) {
    for bb in bbs {
        assert!(
            clicks.iter().any(|click| bb.collides_with_circle(*click, radius)),
            "{:?} is hit by no click",
            bb
        );
    }
}

fn scattered() -> Vec<BoundingBox> {
    let mut bbs = Vec::new();
    for i in 0..6 {
        for j in 0..5 {
            bbs.push(rect(10 + 37 * i, 8 + 29 * j, 12 + (i + j) % 4, 9 + (i * j) % 5));
        }
    }
    bbs.push(rect(0, 0, 0, 0));
    bbs.push(rect(300, 300, 5, 5));
    bbs
}

#[test]
fn the_search_constants() {
    assert_eq!(NUM_RANDOM_GUESSES, 10);
    assert_eq!(NUM_RANDOM_SAMPLES, 1000);
}

#[test]
fn collisions_are_counted() {
    let bbs = [rect(0, 0, 10, 10), rect(12, 0, 10, 10), rect(40, 40, 5, 5)];
    assert_eq!(count_collisions_single(&bbs, 2, at(11, 5)), 2);
    assert_eq!(count_collisions_single(&bbs, 0, at(11, 5)), 0);
    assert_eq!(count_collisions_single(&bbs, 0, at(12, 5)), 1);
    assert_eq!(count_collisions_single(&bbs, 100, at(11, 5)), 3);
    assert_eq!(count_collisions_single(&[], 100, at(11, 5)), 0);
}

#[test]
fn the_click_that_hits_the_most_is_picked() {
    let bb = rect(0, 0, 10, 10);
    let others = [rect(12, 0, 10, 10), rect(12, 12, 10, 10)];
    let candidates = [at(5, 5), at(11, 5), at(11, 11), at(11, 10)];
    assert_eq!(pick_click(&bb, &others, 2, &candidates), at(11, 11));
}

#[test]
fn of_equal_clicks_the_first_is_picked() {
    let bb = rect(0, 0, 10, 10);
    let others = [rect(12, 0, 10, 10)];
    let candidates = [at(50, 50), at(3, 3), at(11, 2), at(11, 7), at(4, 4)];
    assert_eq!(pick_click(&bb, &others, 2, &candidates), at(11, 2));
}

#[test]
fn a_click_must_hit_its_own_rectangle() {
    let bb = rect(0, 0, 10, 10);
    let others = [rect(30, 0, 10, 10), rect(30, 12, 10, 10)];
    // the second candidate hits both others, but not the rectangle itself
    let candidates = [at(10, 10), at(35, 11)];
    assert_eq!(pick_click(&bb, &others, 2, &candidates), at(10, 10));
}

#[test]
fn without_a_hit_the_near_corner_is_picked() {
    let bb = rect(20, 30, 10, 10);
    let others = [rect(0, 0, 5, 5)];
    assert_eq!(pick_click(&bb, &others, 2, &[at(0, 0), at(100, 100)]), at(20, 30));
    assert_eq!(pick_click(&bb, &others, 2, &[]), at(20, 30));
}

#[test]
fn the_exhaustive_search_starts_at_the_far_end_of_the_reach() {
    let clicks = gen_clicks_from_bbs_fixed(&[rect(0, 0, 10, 10)], 5, 100, 100);
    assert_eq!(clicks, vec![at(15, 10)]);
}

#[test]
fn the_exhaustive_search_stays_on_the_screen() {
    let clicks = gen_clicks_from_bbs_fixed(&[rect(95, 95, 4, 4)], 5, 100, 100);
    assert_eq!(clicks, vec![at(100, 100)]);
    let clicks = gen_clicks_from_bbs_fixed(&[rect(-8, -8, 5, 5)], 5, 100, 100);
    assert_eq!(clicks, vec![at(1, 0)]);
}

#[test]
fn a_rectangle_that_no_point_of_the_screen_hits_is_clicked_at_its_corner() {
    // the screen is within reach along each axis, but not in the distance
    let clicks = gen_clicks_from_bbs_fixed(&[rect(-8, -8, 4, 4)], 5, 100, 100);
    assert_eq!(clicks, vec![at(-8, -8)]);
}

#[test]
fn a_rectangle_out_of_reach_of_the_screen_is_clicked_at_its_corner() {
    let clicks = gen_clicks_from_bbs_fixed(&[rect(200, 200, 10, 10)], 5, 100, 100);
    assert_eq!(clicks, vec![at(200, 200)]);
    let clicks = gen_clicks_from_bbs_fixed(&[rect(-50, 10, 10, 10)], 5, 100, 100);
    assert_eq!(clicks, vec![at(-50, 10)]);
}

#[test]
fn the_last_rectangle_is_clicked_first() {
    let bbs = [rect(0, 0, 10, 10), rect(100, 100, 10, 10)];
    let clicks = gen_clicks_from_bbs_fixed(&bbs, 5, 200, 200);
    assert_eq!(clicks, vec![at(115, 110), at(15, 10)]);
}

#[test]
fn one_click_takes_all_that_it_hits() {
    let bbs = [rect(0, 0, 10, 10), rect(14, 0, 10, 10), rect(100, 100, 10, 10), rect(12, 14, 3, 3)];
    let clicks = gen_clicks_from_bbs_fixed(&bbs, 3, 200, 200);
    // the first three lie around (12, 12); the rectangle far off needs a click of its own
    assert_eq!(clicks.len(), 2);
    assert_covered(&bbs, &clicks, 3);
    assert_eq!(clicks[1], at(113, 110));
}

#[test]
fn no_rectangle_needs_no_click() {
    assert!(gen_clicks_from_bbs_fixed(&[], 40, 100, 100).is_empty());
    assert!(gen_clicks_from_bbs_rand(&[], 40, 100, 100).is_empty());
    assert!(random_plan(&[], 40, 100, 100, 7).is_empty());
}

#[test]
fn the_exhaustive_search_covers_every_rectangle() {
    let bbs = scattered();
    for radius in [0, 3, 20, 60] {
        let clicks = gen_clicks_from_bbs_fixed(&bbs, radius, 260, 170);
        assert_covered(&bbs, &clicks, radius);
        assert!(clicks.len() <= bbs.len());
    }
}

#[test]
fn the_exhaustive_search_is_reproducible() {
    let bbs = scattered();
    assert_eq!(
        gen_clicks_from_bbs_fixed(&bbs, 20, 260, 170),
        gen_clicks_from_bbs_fixed(&bbs, 20, 260, 170)
    );
}

#[test]
fn the_random_search_covers_every_rectangle() {
    let bbs = scattered();
    for radius in [0, 3, 20, 60] {
        let clicks = gen_clicks_from_bbs_rand(&bbs, radius, 260, 170);
        assert_covered(&bbs, &clicks, radius);
        assert!(clicks.len() <= bbs.len());
    }
}

#[test]
fn every_random_plan_covers_every_rectangle() {
    let bbs = scattered();
    for seed in 0..20 {
        let clicks = random_plan(&bbs, 25, 260, 170, seed);
        assert_covered(&bbs, &clicks, 25);
    }
}

#[test]
fn a_random_plan_clicks_on_the_screen_or_on_a_corner() {
    let bbs = scattered();
    let clicks = random_plan(&bbs, 25, 260, 170, 3);
    for click in clicks {
        let on_screen = (0..=260).contains(&click.w) && (0..=170).contains(&click.h);
        assert!(on_screen || bbs.iter().any(|bb| bb.left_top == click));
    }
}

#[test]
fn a_seed_gives_its_plan_again() {
    let bbs = scattered();
    assert_eq!(random_plan(&bbs, 25, 260, 170, 5), random_plan(&bbs, 25, 260, 170, 5));
}

#[test]
fn seeds_give_plans_of_their_own() {
    let bbs = scattered();
    let plans: Vec<Vec<Coord>> =
        (0..10).map(|seed| random_plan(&bbs, 25, 260, 170, seed)).collect();
    assert!(plans.iter().any(|plan| *plan != plans[0]));
}

#[test]
fn the_random_search_keeps_the_shortest_of_its_plans() {
    let bbs = scattered();
    let shortest = (0..NUM_RANDOM_GUESSES as u64)
        .map(|seed| random_plan(&bbs, 25, 260, 170, seed).len())
        .min()
        .unwrap();
    assert_eq!(gen_clicks_from_bbs_rand(&bbs, 25, 260, 170).len(), shortest);
}

#[test]
fn a_draw_hits_a_rectangle_that_its_corner_would_be_clicked_for_otherwise() {
    // with a radius of nothing only a point of the rectangle itself hits it
    let bbs = [rect(50, 50, 30, 30)];
    let mut off_corner = false;
    for seed in 0..5 {
        let clicks = random_plan(&bbs, 0, 200, 200, seed);
        assert_eq!(clicks.len(), 1);
        assert!(bbs[0].collides_with_circle(clicks[0], 0));
        assert!(clicks[0].w < 80 && clicks[0].h < 80);
        off_corner = off_corner || clicks[0] != at(50, 50);
    }
    assert!(off_corner);
}

#[test]
fn a_rectangle_of_one_point_is_clicked_at_that_point() {
    let clicks = random_plan(&[rect(9, 9, 0, 0)], 0, 100, 100, 1);
    assert_eq!(clicks, vec![at(9, 9)]);
}

#[test]
fn the_first_of_the_shortest_plans_is_kept() {
    let lengths = [4, 3, 5, 3, 6];
    let plans: Vec<Vec<Coord>> = lengths
        .iter()
        .enumerate()
        .map(|(i, n)| (0..*n).map(|j| at(i as i64, j)).collect())
        .collect();
    let best = shortest_plan(plans).unwrap();
    assert_eq!(best.len(), 3);
    assert_eq!(best, vec![at(1, 0), at(1, 1), at(1, 2)]);
}

#[test]
fn the_shortest_plan_may_be_the_last() {
    let plans = vec![vec![at(0, 0), at(0, 1)], vec![at(1, 0), at(1, 1)], vec![at(2, 0)]];
    assert_eq!(shortest_plan(plans), Some(vec![at(2, 0)]));
}

#[test]
fn an_empty_plan_is_the_shortest() {
    let plans = vec![vec![at(0, 0)], vec![], vec![]];
    assert_eq!(shortest_plan(plans), Some(vec![]));
}

#[test]
fn no_plan_has_no_shortest() {
    assert_eq!(shortest_plan(Vec::new()), None);
}

#[test]
fn two_targets_within_reach_of_each_other_take_one_click() {
    let bbs = [rect(5, 5, 10, 15), rect(50, 50, 10, 15)];
    let clicks = gen_clicks_from_bbs_rand(&bbs, 40, 100, 100);
    assert_eq!(clicks.len(), 1);
    assert!(bbs[0].collides_with_circle(clicks[0], 40));
    assert!(bbs[1].collides_with_circle(clicks[0], 40));
    let clicks = gen_clicks_from_bbs_fixed(&bbs, 40, 100, 100);
    assert_eq!(clicks.len(), 1);
    assert!(bbs[0].collides_with_circle(clicks[0], 40));
    assert!(bbs[1].collides_with_circle(clicks[0], 40));
}

#[test]
fn a_malformed_rectangle_gets_a_click_too() {
    let inverted = BoundingBox { left_top: at(30, 30), right_bottom: at(20, 20) };
    let bbs = [rect(0, 0, 10, 10), inverted];
    let clicks = gen_clicks_from_bbs_fixed(&bbs, 5, 100, 100);
    assert_eq!(clicks.len(), 2);
    assert!(bbs[0].collides_with_circle(clicks[1], 5));
    let clicks = gen_clicks_from_bbs_rand(&bbs, 5, 100, 100);
    assert!(clicks.iter().any(|click| bbs[0].collides_with_circle(*click, 5)));
}

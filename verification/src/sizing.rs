//! Inference of the unit size: the size of one spawner, read off the areas
//! that recur among the rectangles found.

use crate::screen::BoundingBox;
use vstd::prelude::*;

verus! {

/// An area and the number of observations counted for it.
pub struct Bucket {
    pub area: int,
    pub count: int,
}

/// A bucket as the inference holds it.
#[derive(Debug, Clone, Copy)]
pub struct Counted {
    pub area: i64,
    pub count: usize,
}

impl View for Counted {
    type V = Bucket;

    open spec fn view(&self) -> Bucket {
        Bucket { area: self.area as int, count: self.count as int }
    }
}

/// The buckets that a vector of them stands for.
pub open spec fn buckets_of(held: Seq<Counted>) -> Seq<Bucket> {
    Seq::new(held.len(), |i: int| held[i]@)
}

/// Whether a rectangle is an observation of the unit: well formed and of the
/// proportions of a spawner, width to height between 5:4 and 3:2.
pub open spec fn is_candidate(bb: BoundingBox) -> bool {
    bb.wf() && bb.ratio_at_least(5, 4) && bb.ratio_at_most(3, 2)
}

/// The index of the first bucket, from `from` on, whose area is `area` or more.
pub open spec fn rank(b: Seq<Bucket>, area: int, from: int) -> int
    decreases b.len() - from,
{
    if from < 0 || from >= b.len() || b[from].area >= area {
        from
    } else {
        rank(b, area, from + 1)
    }
}

/// The buckets after one more observation of `area`: its bucket counts one
/// more, or a bucket of one is put in where the order of the areas asks for it.
pub open spec fn count_in(b: Seq<Bucket>, area: int) -> Seq<Bucket> {
    let i = rank(b, area, 0);
    if i < b.len() && b[i].area == area {
        b.update(i, Bucket { area, count: b[i].count + 1 })
    } else {
        b.insert(i, Bucket { area, count: 1 })
    }
}

/// The candidates among `bbs` counted by area. By `lemma_tally_counts` the
/// areas ascend and each bucket counts the candidates of exactly its area.
pub open spec fn tally(bbs: Seq<BoundingBox>) -> Seq<Bucket>
    decreases bbs.len(),
{
    if bbs.len() == 0 {
        Seq::empty()
    } else if is_candidate(bbs.last()) {
        count_in(tally(bbs.drop_last()), bbs.last().spec_area())
    } else {
        tally(bbs.drop_last())
    }
}

/// How many candidates of the given area `bbs` holds.
pub open spec fn observations(bbs: Seq<BoundingBox>, area: int) -> int
    decreases bbs.len(),
{
    if bbs.len() == 0 {
        0
    } else if is_candidate(bbs.last()) && bbs.last().spec_area() == area {
        observations(bbs.drop_last(), area) + 1
    } else {
        observations(bbs.drop_last(), area)
    }
}

/// Whether the areas of the buckets strictly ascend.
pub open spec fn ascending(b: Seq<Bucket>) -> bool {
    forall|i: int, j: int| 0 <= i < j < b.len() ==> b[i].area < b[j].area
}

/// Whether the larger of two areas exceeds the smaller by less than 5%.
pub open spec fn within_5_percent(small: int, large: int) -> bool {
    20 * large < 21 * small
}

/// The buckets after bucket `i` and its successor were compared: where their
/// areas are within 5% the one that counts more takes the count of the other,
/// the successor where they count the same, and the other is left with none.
pub open spec fn merge_pair(b: Seq<Bucket>, i: int) -> Seq<Bucket> {
    if 0 <= i && i + 1 < b.len() && within_5_percent(b[i].area, b[i + 1].area) {
        let sum = b[i].count + b[i + 1].count;
        if b[i].count > b[i + 1].count {
            b.update(i, Bucket { area: b[i].area, count: sum }).update(
                i + 1,
                Bucket { area: b[i + 1].area, count: 0 },
            )
        } else {
            b.update(i, Bucket { area: b[i].area, count: 0 }).update(
                i + 1,
                Bucket { area: b[i + 1].area, count: sum },
            )
        }
    } else {
        b
    }
}

/// The buckets after each bucket from `i` on, in turn, was compared with its
/// successor. A count that moved on moves on again where the next area is
/// within 5% too.
pub open spec fn merge_from(b: Seq<Bucket>, i: int) -> Seq<Bucket>
    decreases b.len() - i,
{
    if i < 0 || i + 1 >= b.len() {
        b
    } else {
        merge_from(merge_pair(b, i), i + 1)
    }
}

/// The buckets that count more than one observation, in their order: an area
/// seen once is noise.
pub open spec fn corroborated(b: Seq<Bucket>) -> Seq<Bucket>
    decreases b.len(),
{
    if b.len() == 0 {
        Seq::empty()
    } else if b.last().count > 1 {
        corroborated(b.drop_last()).push(b.last())
    } else {
        corroborated(b.drop_last())
    }
}

/// One round of the inference: neighbours merged, then noise dropped.
pub open spec fn settle(b: Seq<Bucket>) -> Seq<Bucket> {
    corroborated(merge_from(b, 0))
}

/// The area of the unit: the largest area that is left after two rounds, or
/// 0 where none is.
pub open spec fn unit_area(bbs: Seq<BoundingBox>) -> int {
    let b = settle(settle(tally(bbs)));
    if b.len() == 0 {
        0
    } else {
        b.last().area
    }
}

/// The first candidate of the given area from index `from` on, or the zero
/// rectangle where there is none.
pub open spec fn first_of_area(bbs: Seq<BoundingBox>, area: int, from: int) -> BoundingBox
    decreases bbs.len() - from,
{
    if from < 0 || from >= bbs.len() {
        BoundingBox::zero()
    } else if is_candidate(bbs[from]) && bbs[from].spec_area() == area {
        bbs[from]
    } else {
        first_of_area(bbs, area, from + 1)
    }
}

/// The unit rectangle: the first candidate that has the area of the unit.
pub open spec fn unit_box(bbs: Seq<BoundingBox>) -> BoundingBox {
    first_of_area(bbs, unit_area(bbs), 0)
}

/// The observations that the buckets count between them.
pub open spec fn total(b: Seq<Bucket>) -> int
    decreases b.len(),
{
    if b.len() == 0 {
        0
    } else {
        total(b.drop_last()) + b.last().count
    }
}

/// Whether no bucket counts less than nothing.
pub open spec fn counts_from_zero(b: Seq<Bucket>) -> bool {
    forall|i: int| 0 <= i < b.len() ==> (#[trigger] b[i]).count >= 0
}

proof fn lemma_total_update(b: Seq<Bucket>, i: int, e: Bucket)
    requires
        0 <= i < b.len(),
    ensures
        total(b.update(i, e)) == total(b) - b[i].count + e.count,
    decreases b.len(),
{
    if i == b.len() - 1 {
        assert(b.update(i, e).drop_last() =~= b.drop_last());
    } else {
        lemma_total_update(b.drop_last(), i, e);
        assert(b.update(i, e).drop_last() =~= b.drop_last().update(i, e));
    }
}

proof fn lemma_total_insert(b: Seq<Bucket>, i: int, e: Bucket)
    requires
        0 <= i <= b.len(),
    ensures
        total(b.insert(i, e)) == total(b) + e.count,
    decreases b.len(),
{
    if i == b.len() {
        assert(b.insert(i, e).drop_last() =~= b);
    } else {
        lemma_total_insert(b.drop_last(), i, e);
        assert(b.insert(i, e).drop_last() =~= b.drop_last().insert(i, e));
    }
}

proof fn lemma_count_within_total(b: Seq<Bucket>, i: int)
    requires
        0 <= i < b.len(),
        counts_from_zero(b),
    ensures
        0 <= b[i].count <= total(b),
        0 <= total(b),
    decreases b.len(),
{
    if b.len() == 1 {
        assert(b.drop_last().len() == 0);
    } else if i == b.len() - 1 {
        lemma_count_within_total(b.drop_last(), 0);
    } else {
        lemma_count_within_total(b.drop_last(), i);
    }
}

proof fn lemma_rank_in_range(b: Seq<Bucket>, area: int, from: int)
    requires
        0 <= from <= b.len(),
    ensures
        from <= rank(b, area, from) <= b.len(),
    decreases b.len() - from,
{
    if from < b.len() && b[from].area < area {
        lemma_rank_in_range(b, area, from + 1);
    }
}

proof fn lemma_merge_pair_keeps(b: Seq<Bucket>, i: int)
    requires
        counts_from_zero(b),
    ensures
        merge_pair(b, i).len() == b.len(),
        total(merge_pair(b, i)) == total(b),
        counts_from_zero(merge_pair(b, i)),
{
    if 0 <= i && i + 1 < b.len() && within_5_percent(b[i].area, b[i + 1].area) {
        let sum = b[i].count + b[i + 1].count;
        if b[i].count > b[i + 1].count {
            let first = b.update(i, Bucket { area: b[i].area, count: sum });
            lemma_total_update(b, i, Bucket { area: b[i].area, count: sum });
            lemma_total_update(first, i + 1, Bucket { area: b[i + 1].area, count: 0 });
        } else {
            let first = b.update(i, Bucket { area: b[i].area, count: 0 });
            lemma_total_update(b, i, Bucket { area: b[i].area, count: 0 });
            lemma_total_update(first, i + 1, Bucket { area: b[i + 1].area, count: sum });
        }
    }
}

proof fn lemma_corroborated_within(b: Seq<Bucket>)
    requires
        counts_from_zero(b),
    ensures
        counts_from_zero(corroborated(b)),
        0 <= total(corroborated(b)) <= total(b),
        corroborated(b).len() <= b.len(),
    decreases b.len(),
{
    if b.len() > 0 {
        let rest = corroborated(b.drop_last());
        lemma_corroborated_within(b.drop_last());
        assert(b.last().count >= 0);
        assert(rest.push(b.last()).drop_last() =~= rest);
    }
}

/// Whether the buckets hold a bucket of the given area.
pub open spec fn has_bucket(b: Seq<Bucket>, area: int) -> bool {
    exists|i: int| 0 <= i < b.len() && (#[trigger] b[i]).area == area
}

/// Whether the buckets count the candidates among `bbs` by area: the areas
/// strictly ascend, every bucket counts the candidates of exactly its area,
/// of which there is at least one, and no candidate is without a bucket.
pub open spec fn counts_by_area(b: Seq<Bucket>, bbs: Seq<BoundingBox>) -> bool {
    &&& ascending(b)
    &&& forall|i: int|
        0 <= i < b.len() ==> (#[trigger] b[i]).count == observations(bbs, b[i].area) && b[i].count
            >= 1
    &&& forall|area: int| observations(bbs, area) > 0 ==> has_bucket(b, area)
}

proof fn lemma_rank_splits(b: Seq<Bucket>, area: int, from: int)
    requires
        ascending(b),
        0 <= from <= b.len(),
        forall|k: int| 0 <= k < from ==> (#[trigger] b[k]).area < area,
    ensures
        from <= rank(b, area, from) <= b.len(),
        forall|k: int| 0 <= k < rank(b, area, from) ==> (#[trigger] b[k]).area < area,
        rank(b, area, from) < b.len() ==> b[rank(b, area, from)].area >= area,
    decreases b.len() - from,
{
    if from < b.len() && b[from].area < area {
        lemma_rank_splits(b, area, from + 1);
    }
}

proof fn lemma_observations_count(bbs: Seq<BoundingBox>, area: int)
    ensures
        observations(bbs, area) >= 0,
        observations(bbs, area) > 0 ==> exists|j: int|
            0 <= j < bbs.len() && is_candidate(#[trigger] bbs[j]) && bbs[j].spec_area() == area,
    decreases bbs.len(),
{
    if bbs.len() > 0 {
        lemma_observations_count(bbs.drop_last(), area);
        if is_candidate(bbs.last()) && bbs.last().spec_area() == area {
            assert(bbs[bbs.len() - 1] == bbs.last());
        } else if observations(bbs, area) > 0 {
            let j = choose|j: int|
                0 <= j < bbs.drop_last().len() && is_candidate(#[trigger] bbs.drop_last()[j])
                    && bbs.drop_last()[j].spec_area() == area;
            assert(bbs[j] == bbs.drop_last()[j]);
        }
    }
}

/// What the tally is: the candidates counted by area, the areas in
/// ascending order.
pub proof fn lemma_tally_counts(bbs: Seq<BoundingBox>)
    ensures
        counts_by_area(tally(bbs), bbs),
    decreases bbs.len(),
{
    if bbs.len() > 0 {
        let before = bbs.drop_last();
        let rest = tally(before);
        lemma_tally_counts(before);
        let now = tally(bbs);
        if is_candidate(bbs.last()) {
            let area = bbs.last().spec_area();
            let i = rank(rest, area, 0);
            lemma_rank_splits(rest, area, 0);
            lemma_observations_count(before, area);
            if i < rest.len() && rest[i].area == area {
                assert forall|k: int| 0 <= k < now.len() implies (#[trigger] now[k]).count
                    == observations(bbs, now[k].area) && now[k].count >= 1 by {
                    if k != i {
                        assert(now[k] == rest[k]);
                        assert(rest[k].area != area);
                    }
                }
                assert forall|a: int| observations(bbs, a) > 0 implies has_bucket(now, a) by {
                    if a == area {
                        assert(now[i].area == a);
                    } else {
                        assert(has_bucket(rest, a));
                        let k = choose|k: int|
                            0 <= k < rest.len() && (#[trigger] rest[k]).area == a;
                        assert(now[k].area == a);
                    }
                }
            } else {
                if observations(before, area) > 0 {
                    assert(has_bucket(rest, area));
                    let k = choose|k: int| 0 <= k < rest.len() && (#[trigger] rest[k]).area == area;
                    assert(false);
                }
                assert forall|k: int, l: int| 0 <= k < l < now.len() implies now[k].area
                    < now[l].area by {
                    if l < i {
                        assert(now[k] == rest[k] && now[l] == rest[l]);
                    } else if l == i {
                        assert(now[k] == rest[k]);
                    } else if k < i {
                        assert(now[k] == rest[k] && now[l] == rest[l - 1]);
                    } else if k == i {
                        assert(now[l] == rest[l - 1]);
                    } else {
                        assert(now[k] == rest[k - 1] && now[l] == rest[l - 1]);
                    }
                }
                assert forall|k: int| 0 <= k < now.len() implies (#[trigger] now[k]).count
                    == observations(bbs, now[k].area) && now[k].count >= 1 by {
                    if k < i {
                        assert(now[k] == rest[k]);
                    } else if k > i {
                        assert(now[k] == rest[k - 1]);
                    }
                }
                assert forall|a: int| observations(bbs, a) > 0 implies has_bucket(now, a) by {
                    if a == area {
                        assert(now[i].area == a);
                    } else {
                        assert(has_bucket(rest, a));
                        let k = choose|k: int|
                            0 <= k < rest.len() && (#[trigger] rest[k]).area == a;
                        if k < i {
                            assert(now[k].area == a);
                        } else {
                            assert(now[k + 1] == rest[k]);
                        }
                    }
                }
            }
        } else {
            assert forall|a: int| observations(bbs, a) == observations(before, a) by {}
        }
    }
}

/// Whether two areas are 5% or more apart.
pub open spec fn apart(a: int, b: int) -> bool {
    if a <= b {
        !within_5_percent(a, b)
    } else {
        !within_5_percent(b, a)
    }
}

/// Whether every candidate of another area is 5% or more away from `area`.
pub open spec fn stands_alone(bbs: Seq<BoundingBox>, area: int) -> bool {
    forall|j: int|
        0 <= j < bbs.len() && is_candidate(#[trigger] bbs[j]) && bbs[j].spec_area() != area
            ==> apart(bbs[j].spec_area(), area)
}

proof fn lemma_merge_keeps_areas(b: Seq<Bucket>, i: int)
    ensures
        merge_from(b, i).len() == b.len(),
        forall|j: int| 0 <= j < b.len() ==> (#[trigger] merge_from(b, i)[j]).area == b[j].area,
    decreases b.len() - i,
{
    if !(i < 0 || i + 1 >= b.len()) {
        lemma_merge_keeps_areas(merge_pair(b, i), i + 1);
        assert forall|j: int| 0 <= j < b.len() implies (#[trigger] merge_from(b, i)[j]).area
            == b[j].area by {
            assert(merge_pair(b, i)[j].area == b[j].area);
        }
    }
}

/// A bucket that is merged with neither neighbour keeps its count.
proof fn lemma_merge_keeps_lone(b: Seq<Bucket>, i: int, k: int)
    requires
        0 <= k < b.len(),
        k >= 1 ==> !within_5_percent(b[k - 1].area, b[k].area),
        k + 1 < b.len() ==> !within_5_percent(b[k].area, b[k + 1].area),
    ensures
        merge_from(b, i)[k].count == b[k].count,
    decreases b.len() - i,
{
    if !(i < 0 || i + 1 >= b.len()) {
        let next = merge_pair(b, i);
        assert(next.len() == b.len());
        assert(next[k] == b[k]);
        assert(k >= 1 ==> next[k - 1].area == b[k - 1].area);
        assert(k + 1 < b.len() ==> next[k + 1].area == b[k + 1].area);
        lemma_merge_keeps_lone(next, i + 1, k);
    }
}

/// An area that no bucket counts more than once has no bucket once the
/// noise is dropped.
proof fn lemma_noise_is_dropped(b: Seq<Bucket>, area: int)
    requires
        forall|j: int| 0 <= j < b.len() && (#[trigger] b[j]).area == area ==> b[j].count <= 1,
    ensures
        !has_bucket(corroborated(b), area),
    decreases b.len(),
{
    if b.len() > 0 {
        lemma_noise_is_dropped(b.drop_last(), area);
        let kept = corroborated(b);
        if has_bucket(kept, area) {
            let i = choose|i: int| 0 <= i < kept.len() && (#[trigger] kept[i]).area == area;
            if b.last().count > 1 {
                if i < kept.len() - 1 {
                    assert(corroborated(b.drop_last())[i] == kept[i]);
                } else {
                    assert(b[b.len() - 1].area == area);
                }
            }
            assert(false);
        }
    }
}

/// An area without a bucket has none after a round of the inference either.
proof fn lemma_settle_brings_no_area(b: Seq<Bucket>, area: int)
    requires
        !has_bucket(b, area),
    ensures
        !has_bucket(settle(b), area),
{
    let merged = merge_from(b, 0);
    lemma_merge_keeps_areas(b, 0);
    assert forall|j: int|
        0 <= j < merged.len() && (#[trigger] merged[j]).area == area implies merged[j].count
        <= 1 by {
        assert(b[j].area == area);
    }
    lemma_noise_is_dropped(merged, area);
}

/// An area that is observed once, with every other observed area 5% or more
/// away from it, is noise: it is not the area of the unit, however large it is.
pub proof fn lemma_lone_observation_is_noise(bbs: Seq<BoundingBox>, area: int)
    requires
        observations(bbs, area) == 1,
        stands_alone(bbs, area),
    ensures
        unit_area(bbs) != area,
{
    let b = tally(bbs);
    lemma_tally_counts(bbs);
    lemma_tally_bounds(bbs);
    assert(has_bucket(b, area));
    let k = choose|k: int| 0 <= k < b.len() && (#[trigger] b[k]).area == area;
    assert(area > 0);
    if k >= 1 {
        lemma_observations_count(bbs, b[k - 1].area);
        assert(b[k - 1].count >= 1);
    }
    if k + 1 < b.len() {
        lemma_observations_count(bbs, b[k + 1].area);
        assert(b[k + 1].count >= 1);
    }
    let merged = merge_from(b, 0);
    lemma_merge_keeps_areas(b, 0);
    lemma_merge_keeps_lone(b, 0, k);
    assert forall|j: int|
        0 <= j < merged.len() && (#[trigger] merged[j]).area == area implies merged[j].count
        <= 1 by {
        assert(b[j].area == area);
        assert(j == k);
    }
    lemma_noise_is_dropped(merged, area);
    lemma_settle_brings_no_area(settle(b), area);
    let last = settle(settle(b));
    if last.len() > 0 {
        assert(last[last.len() - 1] == last.last());
    }
}

/// Counts one more observation of `area`.
fn count_area(held: &mut Vec<Counted>, area: i64)
    requires
        total(buckets_of(old(held)@)) < usize::MAX,
    ensures
        buckets_of(final(held)@) == count_in(buckets_of(old(held)@), area as int),
        total(buckets_of(final(held)@)) == total(buckets_of(old(held)@)) + 1,
{
    let ghost b = buckets_of(held@);
    let mut i: usize = 0;
    while i < held.len() && held[i].area < area
        invariant
            i <= held.len(),
            held@ == old(held)@,
            b == buckets_of(held@),
            rank(b, area as int, 0) == rank(b, area as int, i as int),
        decreases held.len() - i,
    {
        i = i + 1;
    }
    if i < held.len() && held[i].area == area {
        let count: usize = held[i].count;
        proof {
            lemma_count_within_total(b, i as int);
            lemma_total_update(b, i as int, Bucket { area: area as int, count: count + 1 });
        }
        held.set(i, Counted { area, count: count + 1 });
        assert(buckets_of(held@) =~= count_in(b, area as int));
    } else {
        proof {
            lemma_total_insert(b, i as int, Bucket { area: area as int, count: 1 });
        }
        held.insert(i, Counted { area, count: 1 });
        assert(buckets_of(held@) =~= count_in(b, area as int));
    }
}

/// Compares each bucket in turn with its successor and merges the two where
/// their areas are within 5%.
fn merge_neighbours(held: &mut Vec<Counted>)
    requires
        total(buckets_of(old(held)@)) <= usize::MAX,
        forall|i: int| 0 <= i < old(held)@.len() ==> (#[trigger] old(held)@[i]).area > 0,
    ensures
        buckets_of(final(held)@) == merge_from(buckets_of(old(held)@), 0),
        total(buckets_of(final(held)@)) == total(buckets_of(old(held)@)),
        final(held)@.len() == old(held)@.len(),
        forall|i: int| 0 <= i < final(held)@.len() ==> (#[trigger] final(held)@[i]).area > 0,
{
    if held.len() < 2 {
        return ;
    }
    let mut i: usize = 0;
    while i < held.len() - 1
        invariant
            held@.len() == old(held)@.len(),
            held@.len() >= 2,
            total(buckets_of(held@)) == total(buckets_of(old(held)@)),
            total(buckets_of(held@)) <= usize::MAX,
            forall|k: int| 0 <= k < held@.len() ==> (#[trigger] held@[k]).area > 0,
            merge_from(buckets_of(old(held)@), 0) == merge_from(buckets_of(held@), i as int),
        decreases held.len() - i,
    {
        let ghost b = buckets_of(held@);
        let this: Counted = held[i];
        let next: Counted = held[i + 1];
        proof {
            lemma_merge_pair_keeps(b, i as int);
            if within_5_percent(this.area as int, next.area as int) {
                if this.count > next.count {
                    lemma_count_within_total(merge_pair(b, i as int), i as int);
                } else {
                    lemma_count_within_total(merge_pair(b, i as int), i + 1);
                }
            }
        }
        if 20 * (next.area as i128) < 21 * (this.area as i128) {
            let sum: usize = this.count + next.count;
            if this.count > next.count {
                held.set(i, Counted { area: this.area, count: sum });
                held.set(i + 1, Counted { area: next.area, count: 0 });
            } else {
                held.set(i, Counted { area: this.area, count: 0 });
                held.set(i + 1, Counted { area: next.area, count: sum });
            }
        }
        assert(buckets_of(held@) =~= merge_pair(b, i as int));
        i = i + 1;
    }
}

/// Drops the buckets that count one observation or none.
fn drop_noise(held: &Vec<Counted>) -> (kept: Vec<Counted>)
    requires
        forall|i: int| 0 <= i < held@.len() ==> (#[trigger] held@[i]).area > 0,
    ensures
        buckets_of(kept@) == corroborated(buckets_of(held@)),
        forall|i: int| 0 <= i < kept@.len() ==> (#[trigger] kept@[i]).area > 0,
{
    let mut kept: Vec<Counted> = Vec::new();
    let ghost b = buckets_of(held@);
    let mut i: usize = 0;
    assert(b.take(0) =~= Seq::<Bucket>::empty());
    while i < held.len()
        invariant
            i <= held.len(),
            b == buckets_of(held@),
            buckets_of(kept@) == corroborated(b.take(i as int)),
            forall|k: int| 0 <= k < held@.len() ==> (#[trigger] held@[k]).area > 0,
            forall|k: int| 0 <= k < kept@.len() ==> (#[trigger] kept@[k]).area > 0,
        decreases held.len() - i,
    {
        let ghost before = buckets_of(kept@);
        assert(b.take(i + 1).drop_last() =~= b.take(i as int));
        if held[i].count > 1 {
            kept.push(held[i]);
            assert(buckets_of(kept@) =~= before.push(b[i as int]));
        }
        i = i + 1;
    }
    assert(b.take(held.len() as int) =~= b);
    kept
}

/// The buckets of the candidates among the first `n` of `bbs` count no more
/// than `n` observations, and none of an area that is not positive.
proof fn lemma_tally_bounds(bbs: Seq<BoundingBox>)
    ensures
        0 <= total(tally(bbs)) <= bbs.len(),
        counts_from_zero(tally(bbs)),
        forall|i: int|
            0 <= i < tally(bbs).len() ==> 0 < (#[trigger] tally(bbs)[i]).area <= i64::MAX,
    decreases bbs.len(),
{
    if bbs.len() > 0 {
        let rest = tally(bbs.drop_last());
        lemma_tally_bounds(bbs.drop_last());
        if is_candidate(bbs.last()) {
            let bb = bbs.last();
            let area = bb.spec_area();
            assert(area > 0) by (nonlinear_arith)
                requires
                    area == bb.spec_w() * bb.spec_h(),
                    bb.spec_h() > 0,
                    5 * bb.spec_h() <= bb.spec_w() * 4,
            ;
            let i = rank(rest, area, 0);
            lemma_rank_in_range(rest, area, 0);
            if i < rest.len() && rest[i].area == area {
                lemma_total_update(rest, i, Bucket { area, count: rest[i].count + 1 });
            } else {
                lemma_total_insert(rest, i, Bucket { area, count: 1 });
            }
        }
    }
}

/// Infers the unit rectangle from the rectangles found. The candidates, those
/// of the proportions of a spawner, are counted by area. Twice over, counts of
/// areas within 5% of each other are merged and what is left with one
/// observation or none is dropped. The unit is the first candidate whose area
/// is the largest that is left; where none is left it is the zero rectangle.
pub fn deduce_spawner_size(bbs: &[BoundingBox]) -> (unit: BoundingBox)
    ensures
        unit == unit_box(bbs@),
        unit == BoundingBox::zero() || (is_candidate(unit) && bbs@.contains(unit)),
{
    let mut held: Vec<Counted> = Vec::new();
    let mut i: usize = 0;
    assert(bbs@.take(0) =~= Seq::<BoundingBox>::empty());
    while i < bbs.len()
        invariant
            i <= bbs.len(),
            buckets_of(held@) == tally(bbs@.take(i as int)),
        decreases bbs.len() - i,
    {
        proof {
            assert(bbs@.take(i + 1).drop_last() =~= bbs@.take(i as int));
            lemma_tally_bounds(bbs@.take(i as int));
        }
        if is_spawner_sized(&bbs[i]) {
            count_area(&mut held, bbs[i].area());
        }
        i = i + 1;
    }
    proof {
        assert(bbs@.take(bbs.len() as int) =~= bbs@);
        lemma_tally_bounds(bbs@);
        assert forall|k: int| 0 <= k < held@.len() implies (#[trigger] held@[k]).area > 0 by {
            assert(buckets_of(held@)[k].area > 0);
        }
    }
    let mut round: usize = 0;
    let ghost mut settled = buckets_of(held@);
    while round < 2
        invariant
            round <= 2,
            settled == buckets_of(held@),
            round == 0 ==> settled == tally(bbs@),
            round == 1 ==> settled == settle(tally(bbs@)),
            round == 2 ==> settled == settle(settle(tally(bbs@))),
            0 <= total(settled) <= usize::MAX,
            forall|k: int| 0 <= k < held@.len() ==> (#[trigger] held@[k]).area > 0,
        decreases 2 - round,
    {
        merge_neighbours(&mut held);
        proof {
            assert(counts_from_zero(buckets_of(held@)));
            lemma_corroborated_within(buckets_of(held@));
        }
        held = drop_noise(&held);
        proof {
            settled = buckets_of(held@);
        }
        round = round + 1;
    }
    let likely_area: i64 = if held.len() == 0 {
        0
    } else {
        held[held.len() - 1].area
    };
    let mut j: usize = 0;
    while j < bbs.len()
        invariant
            j <= bbs.len(),
            likely_area == unit_area(bbs@),
            unit_box(bbs@) == first_of_area(bbs@, likely_area as int, j as int),
        decreases bbs.len() - j,
    {
        if is_spawner_sized(&bbs[j]) && bbs[j].area() == likely_area {
            return bbs[j];
        }
        j = j + 1;
    }
    BoundingBox::default()
}

/// Whether a rectangle is an observation of the unit.
pub fn is_spawner_sized(bb: &BoundingBox) -> (candidate: bool)
    ensures
        candidate == is_candidate(*bb),
{
    bb.is_valid() && bb.has_ratio_at_least(5, 4) && bb.has_ratio_at_most(3, 2)
}

} // verus!

//! The headcount-target strategy: windows of pairs by rate, and the cut
//! of the floor along its pairs.

use vstd::prelude::*;
use crate::aisle::{Aisle, AislePair};
use crate::cluster::{Cluster, ClusterView, numbers, pair_aisles, pair_locked, pairs_aisles};
use crate::hours::Hours;
use crate::slot::{SlotView, StowSlot};
use crate::throughput::slot_views;

verus! {

/// The index of the first slot that holds more than `packages`
/// packages, or the length of `slots` where none does.
pub open spec fn rate_index(slots: Seq<SlotView>, packages: int) -> int
    decreases slots.len(),
{
    if slots.len() == 0 {
        0
    } else {
        let before = rate_index(slots.drop_last(), packages);
        if before < slots.len() - 1 {
            before
        } else if slots.last().packages > packages {
            slots.len() - 1
        } else {
            slots.len() as int
        }
    }
}

/// `rate_index` gives `k` where no slot before `k` holds more packages
/// and the slot at `k`, if there is one, does.
pub proof fn lemma_rate_index(slots: Seq<SlotView>, packages: int, k: int)
    requires
        0 <= k <= slots.len(),
        forall|j: int| 0 <= j < k ==> (#[trigger] slots[j]).packages <= packages,
        k < slots.len() ==> slots[k].packages > packages,
    ensures
        rate_index(slots, packages) == k,
    decreases slots.len(),
{
    if slots.len() > 0 {
        let t = slots.drop_last();
        if k < slots.len() - 1 {
            lemma_rate_index(t, packages, k);
        } else {
            lemma_rate_index(t, packages, slots.len() - 1);
        }
    }
}

/// What `rate_index` gives: no slot before it holds more packages, and
/// the slot at it, if there is one, does.
pub proof fn lemma_rate_index_found(slots: Seq<SlotView>, packages: int)
    ensures
        0 <= rate_index(slots, packages) <= slots.len(),
        forall|j: int|
            0 <= j < rate_index(slots, packages) ==> (#[trigger] slots[j]).packages <= packages,
        rate_index(slots, packages) < slots.len() ==> slots[rate_index(slots, packages)].packages
            > packages,
    decreases slots.len(),
{
    if slots.len() > 0 {
        let t = slots.drop_last();
        lemma_rate_index_found(t, packages);
        assert forall|j: int| 0 <= j < rate_index(slots, packages) implies (
        #[trigger] slots[j]).packages <= packages by {
            if j < t.len() {
                assert(t[j] == slots[j]);
            }
        }
    }
}

/// The slots stand in ascending order of their packages, which over one
/// span of working time is ascending order of rate.
pub open spec fn by_rate(slots: Seq<SlotView>) -> bool {
    forall|i: int, j: int| 0 <= i < j < slots.len() ==> slots[i].packages <= slots[j].packages
}

/// `slots` with `slot` put in before the first slot that holds more
/// packages. Over one span of working time, more packages are a higher
/// rate, so a run in ascending order of rate stays in that order, and a
/// slot goes behind those of its own rate.
pub open spec fn insert_by_rate(slots: Seq<SlotView>, slot: SlotView) -> Seq<SlotView> {
    slots.insert(rate_index(slots, slot.packages), slot)
}

/// Putting a slot in by rate keeps the order, and puts the slot behind
/// every slot that holds no more packages.
pub proof fn lemma_insert_by_rate(slots: Seq<SlotView>, slot: SlotView)
    requires
        by_rate(slots),
    ensures
        by_rate(insert_by_rate(slots, slot)),
        insert_by_rate(slots, slot).len() == slots.len() + 1,
        0 <= rate_index(slots, slot.packages) <= slots.len(),
        insert_by_rate(slots, slot)[rate_index(slots, slot.packages)] == slot,
        forall|j: int|
            0 <= j < rate_index(slots, slot.packages) ==> insert_by_rate(slots, slot)[j] == slots[j]
                && slots[j].packages <= slot.packages,
        forall|j: int|
            rate_index(slots, slot.packages) <= j < slots.len() ==> insert_by_rate(slots, slot)[j
                + 1] == slots[j] && slots[j].packages > slot.packages,
{
    lemma_rate_index_found(slots, slot.packages);
    let p = rate_index(slots, slot.packages);
    let after = insert_by_rate(slots, slot);
    assert forall|j: int| p <= j < slots.len() implies after[j + 1] == slots[j] && slots[j].packages
        > slot.packages by {
        if j > p {
            assert(slots[p].packages <= slots[j].packages);
        }
    }
    assert forall|i: int, j: int| 0 <= i < j < after.len() implies after[i].packages
        <= after[j].packages by {
        if j < p {
            assert(after[i] == slots[i] && after[j] == slots[j]);
        } else if j == p {
            assert(after[i] == slots[i]);
        } else if i < p {
            assert(after[i] == slots[i] && after[j] == slots[j - 1]);
        } else if i == p {
            assert(after[j] == slots[j - 1]);
        } else {
            assert(after[i] == slots[i - 1] && after[j] == slots[j - 1]);
        }
    }
}

/// `acc` with the windows of cluster `c` that start at one of its first
/// `upto` pairs put in by rate. A window is `range` pairs in a row; one
/// that names a locked aisle, or that runs past the last pair, is left
/// out.
pub open spec fn lowest_upto(
    acc: Seq<SlotView>,
    c: ClusterView,
    upto: int,
    range: int,
    millis: int,
) -> Seq<SlotView>
    decreases upto,
{
    if upto <= 0 {
        acc
    } else {
        let before = lowest_upto(acc, c, upto - 1, range, millis);
        let i = upto - 1;
        if i + range <= c.pairs.len() && !c.window_locked(i, i + range) {
            insert_by_rate(before, c.window(i, i + range, millis))
        } else {
            before
        }
    }
}

/// `acc` with every window of cluster `c` put in by rate.
pub open spec fn lowest(acc: Seq<SlotView>, c: ClusterView, range: int, millis: int) -> Seq<
    SlotView,
> {
    lowest_upto(acc, c, c.pairs.len() as int, range, millis)
}

/// The windows of the first `upto` clusters, lowest rate first.
pub open spec fn candidates_upto(clusters: Seq<ClusterView>, upto: int, range: int, millis: int) -> Seq<
    SlotView,
>
    decreases upto,
{
    if upto <= 0 {
        Seq::empty()
    } else {
        lowest(candidates_upto(clusters, upto - 1, range, millis), clusters[upto - 1], range, millis)
    }
}

/// The windows of a cluster go into a run in ascending order of rate
/// without breaking that order.
pub proof fn lemma_lowest_by_rate(
    acc: Seq<SlotView>,
    c: ClusterView,
    upto: int,
    range: int,
    millis: int,
)
    requires
        by_rate(acc),
    ensures
        by_rate(lowest_upto(acc, c, upto, range, millis)),
    decreases upto,
{
    if upto > 0 {
        lemma_lowest_by_rate(acc, c, upto - 1, range, millis);
        let before = lowest_upto(acc, c, upto - 1, range, millis);
        lemma_insert_by_rate(before, c.window(upto - 1, upto - 1 + range, millis));
    }
}

/// The windows of a floor stand lowest rate first.
pub proof fn lemma_candidates_by_rate(
    clusters: Seq<ClusterView>,
    upto: int,
    range: int,
    millis: int,
)
    ensures
        by_rate(candidates_upto(clusters, upto, range, millis)),
    decreases upto,
{
    if upto > 0 {
        lemma_candidates_by_rate(clusters, upto - 1, range, millis);
        lemma_lowest_by_rate(
            candidates_upto(clusters, upto - 1, range, millis),
            clusters[upto - 1],
            clusters[upto - 1].pairs.len() as int,
            range,
            millis,
        );
    }
}

/// Where the cut of one cluster stands: the slots closed so far, and the
/// index of the pair with which the slot in progress starts.
pub struct FillState {
    pub done: Seq<SlotView>,
    pub start: int,
}

/// The cut of cluster `c` after its first `upto` pairs.
///
/// A pair that names a locked aisle closes the slot in progress and is
/// itself in no slot. A pair that comes when the slot in progress holds
/// `max` pairs or more closes that slot and starts the next one.
pub open spec fn fill_upto(c: ClusterView, upto: int, max: int, millis: int) -> FillState
    decreases upto,
{
    if upto <= 0 {
        FillState { done: Seq::empty(), start: 0 }
    } else {
        let before = fill_upto(c, upto - 1, max, millis);
        let t = upto - 1;
        if c.window_locked(t, t + 1) {
            FillState { done: before.done.push(c.window(before.start, t, millis)), start: t + 1 }
        } else if t - before.start >= max {
            FillState { done: before.done.push(c.window(before.start, t, millis)), start: t }
        } else {
            before
        }
    }
}

/// The slots of cluster `c`: those closed on the way and the one in
/// progress at the end, which may be empty.
pub open spec fn fill_cluster(c: ClusterView, max: int, millis: int) -> Seq<SlotView> {
    let end = fill_upto(c, c.pairs.len() as int, max, millis);
    end.done.push(c.window(end.start, c.pairs.len() as int, millis))
}

/// The slots of the first `upto` clusters, cluster after cluster.
pub open spec fn fill_floor(clusters: Seq<ClusterView>, upto: int, max: int, millis: int) -> Seq<
    SlotView,
>
    decreases upto,
{
    if upto <= 0 {
        Seq::empty()
    } else {
        fill_floor(clusters, upto - 1, max, millis) + fill_cluster(clusters[upto - 1], max, millis)
    }
}

/// The index of the first slot that holds more than `packages`.
pub(crate) fn rate_position(slots: &Vec<StowSlot>, packages: i128) -> (r: usize)
    ensures
        r == rate_index(slot_views(slots@), packages as int),
        r <= slots@.len(),
{
    let mut i: usize = 0;
    while i < slots.len() && slots[i].total_packages() <= packages
        invariant
            i <= slots@.len(),
            forall|j: int| 0 <= j < i ==> (#[trigger] slot_views(slots@)[j]).packages <= packages,
        decreases slots@.len() - i,
    {
        assert(slot_views(slots@)[i as int] == slots@[i as int]@);
        i = i + 1;
    }
    proof {
        if i < slots@.len() {
            assert(slot_views(slots@)[i as int] == slots@[i as int]@);
        }
        lemma_rate_index(slot_views(slots@), packages as int, i as int);
    }
    i
}

/// Puts every window of `cluster` into `out` by rate.
pub(crate) fn collect_lowest(cluster: &Cluster, range: usize, hours: Hours, out: &mut Vec<StowSlot>)
    ensures
        slot_views(final(out)@) == lowest(
            slot_views(old(out)@),
            cluster@,
            range as int,
            hours.spec_millis(),
        ),
{
    let n: usize = cluster.aisle_pairs().len();
    let ghost c = cluster@;
    let ghost acc = slot_views(out@);
    let ghost millis = hours.spec_millis();
    let mut i: usize = 0;
    while i < n
        invariant
            i <= n == c.pairs.len(),
            c == cluster@,
            millis == hours.spec_millis(),
            slot_views(out@) == lowest_upto(acc, c, i as int, range as int, millis),
        decreases n - i,
    {
        if range <= n && i <= n - range {
            if !cluster.pairs_are_locked(i, i + range) {
                let slot = cluster.slot_of_pairs(i, i + range, hours);
                let p = rate_position(out, slot.total_packages());
                let ghost before = slot_views(out@);
                let ghost made = slot@;
                out.insert(p, slot);
                assert(slot_views(out@) =~= before.insert(p as int, made));
            }
        }
        i = i + 1;
    }
}

/// Appends the slots of `cluster` to `out`.
pub(crate) fn fill_cluster_into(cluster: &Cluster, max: usize, hours: Hours, out: &mut Vec<StowSlot>)
    ensures
        slot_views(final(out)@) == slot_views(old(out)@) + fill_cluster(
            cluster@,
            max as int,
            hours.spec_millis(),
        ),
{
    let n: usize = cluster.aisle_pairs().len();
    let ghost c = cluster@;
    let ghost acc = slot_views(out@);
    let ghost millis = hours.spec_millis();
    let mut start: usize = 0;
    let mut t: usize = 0;
    assert(slot_views(out@) =~= acc + fill_upto(c, 0, max as int, millis).done);
    while t < n
        invariant
            start <= t <= n == c.pairs.len(),
            c == cluster@,
            millis == hours.spec_millis(),
            start == fill_upto(c, t as int, max as int, millis).start,
            slot_views(out@) == acc + fill_upto(c, t as int, max as int, millis).done,
        decreases n - t,
    {
        let ghost before = slot_views(out@);
        if cluster.pairs_are_locked(t, t + 1) {
            let slot = cluster.slot_of_pairs(start, t, hours);
            let ghost made = slot@;
            out.push(slot);
            assert(slot_views(out@) =~= before.push(made));
            start = t + 1;
        } else if t - start >= max {
            let slot = cluster.slot_of_pairs(start, t, hours);
            let ghost made = slot@;
            out.push(slot);
            assert(slot_views(out@) =~= before.push(made));
            start = t;
        }
        t = t + 1;
        assert(slot_views(out@) =~= acc + fill_upto(c, t as int, max as int, millis).done);
    }
    let ghost before = slot_views(out@);
    let slot = cluster.slot_of_pairs(start, n, hours);
    let ghost made = slot@;
    out.push(slot);
    assert(slot_views(out@) =~= before.push(made));
    assert(slot_views(out@) =~= acc + fill_cluster(c, max as int, millis));
}

/// Whether `range` pairs in a row start at the pair at index `first`
/// and none of them names a locked aisle.
pub open spec fn window_at(c: ClusterView, first: int, range: int) -> bool {
    0 <= first && first + range <= c.pairs.len() && !c.window_locked(first, first + range)
}

/// The slot of the `range` pairs in a row that start at index `first`.
pub open spec fn window_from(c: ClusterView, first: int, range: int, millis: int) -> SlotView {
    c.window(first, first + range, millis)
}

/// Whether a slot is a run of `range` pairs without a locked aisle that
/// starts at one of the first `upto` pairs.
pub open spec fn is_window(c: ClusterView, slot: SlotView, upto: int, range: int, millis: int) -> bool {
    exists|i: int|
        0 <= i < upto && window_at(c, i, range) && slot == #[trigger] window_from(
            c,
            i,
            range,
            millis,
        )
}

/// The windows of a cluster are exactly the runs of `range` pairs
/// without a locked aisle: each slot found is such a run, and each such
/// run is found.
pub proof fn lemma_lowest_windows(c: ClusterView, upto: int, range: int, millis: int)
    requires
        0 <= upto <= c.pairs.len(),
    ensures
        forall|j: int|
            0 <= j < lowest_upto(Seq::empty(), c, upto, range, millis).len() ==> is_window(
                c,
                #[trigger] lowest_upto(Seq::empty(), c, upto, range, millis)[j],
                upto,
                range,
                millis,
            ),
        forall|i: int|
            0 <= i < upto && window_at(c, i, range) ==> lowest_upto(
                Seq::empty(),
                c,
                upto,
                range,
                millis,
            ).contains(#[trigger] window_from(c, i, range, millis)),
    decreases upto,
{
    if upto > 0 {
        lemma_lowest_windows(c, upto - 1, range, millis);
        lemma_lowest_by_rate(Seq::empty(), c, upto - 1, range, millis);
        let before = lowest_upto(Seq::empty(), c, upto - 1, range, millis);
        let now = lowest_upto(Seq::empty(), c, upto, range, millis);
        let t = upto - 1;
        if window_at(c, t, range) {
            let slot = window_from(c, t, range, millis);
            let p = rate_index(before, slot.packages);
            lemma_insert_by_rate(before, slot);
            assert(now == insert_by_rate(before, slot));
            assert forall|j: int| 0 <= j < now.len() implies is_window(
                c,
                #[trigger] now[j],
                upto,
                range,
                millis,
            ) by {
                if j < p {
                    assert(now[j] == before[j]);
                    assert(is_window(c, before[j], upto - 1, range, millis));
                    let i = choose|i: int|
                        0 <= i < upto - 1 && window_at(c, i, range) && before[j]
                            == #[trigger] window_from(c, i, range, millis);
                    assert(now[j] == window_from(c, i, range, millis));
                } else if j == p {
                    assert(now[j] == window_from(c, t, range, millis));
                } else {
                    assert(now[j] == before[j - 1]);
                    assert(is_window(c, before[j - 1], upto - 1, range, millis));
                    let i = choose|i: int|
                        0 <= i < upto - 1 && window_at(c, i, range) && before[j - 1]
                            == #[trigger] window_from(c, i, range, millis);
                    assert(now[j] == window_from(c, i, range, millis));
                }
            }
            assert forall|i: int| 0 <= i < upto && window_at(c, i, range) implies now.contains(
                #[trigger] window_from(c, i, range, millis),
            ) by {
                if i < t {
                    let w = window_from(c, i, range, millis);
                    assert(before.contains(w));
                    let j = choose|j: int| 0 <= j < before.len() && before[j] == w;
                    if j < p {
                        assert(now[j] == w);
                    } else {
                        assert(now[j + 1] == w);
                    }
                } else {
                    assert(now[p] == slot);
                }
            }
        } else {
            assert(now == before);
            assert forall|j: int| 0 <= j < now.len() implies is_window(
                c,
                #[trigger] now[j],
                upto,
                range,
                millis,
            ) by {
                assert(is_window(c, before[j], upto - 1, range, millis));
                let i = choose|i: int|
                    0 <= i < upto - 1 && window_at(c, i, range) && before[j]
                        == #[trigger] window_from(c, i, range, millis);
                assert(now[j] == window_from(c, i, range, millis));
            }
        }
    }
}

/// The pairs of a run that name no locked aisle, in its order.
pub open spec fn open_pairs(aisles: Seq<Aisle>, pairs: Seq<AislePair>) -> Seq<AislePair>
    decreases pairs.len(),
{
    if pairs.len() == 0 {
        Seq::empty()
    } else if pair_locked(aisles, pairs.last()) {
        open_pairs(aisles, pairs.drop_last())
    } else {
        open_pairs(aisles, pairs.drop_last()).push(pairs.last())
    }
}

/// The aisle numbers that a run of slots lists, slot after slot.
pub open spec fn listed_numbers(slots: Seq<SlotView>) -> Seq<u32>
    decreases slots.len(),
{
    if slots.len() == 0 {
        Seq::empty()
    } else {
        listed_numbers(slots.drop_last()) + slots.last().aisles
    }
}

proof fn lemma_window_step(c: ClusterView, from: int, to: int, millis: int)
    requires
        0 <= from <= to < c.pairs.len(),
    ensures
        c.window(from, to + 1, millis).aisles == c.window(from, to, millis).aisles + numbers(
            pair_aisles(c.aisles, c.pairs[to]),
        ),
{
    let wide = c.pairs.subrange(from, to + 1);
    assert(wide.drop_last() =~= c.pairs.subrange(from, to));
    assert(wide.last() == c.pairs[to]);
    assert(numbers(pairs_aisles(c.aisles, c.pairs.subrange(from, to)) + pair_aisles(c.aisles, c.pairs[to]))
        =~= numbers(pairs_aisles(c.aisles, c.pairs.subrange(from, to))) + numbers(
        pair_aisles(c.aisles, c.pairs[to]),
    ));
}

proof fn lemma_window_empty(c: ClusterView, from: int, millis: int)
    requires
        0 <= from <= c.pairs.len(),
    ensures
        c.window(from, from, millis).aisles == Seq::<u32>::empty(),
{
    assert(c.pairs.subrange(from, from) =~= Seq::<AislePair>::empty());
    assert(numbers(pairs_aisles(c.aisles, Seq::<AislePair>::empty())) =~= Seq::<u32>::empty());
}

proof fn lemma_fill_upto(c: ClusterView, upto: int, max: int, millis: int)
    requires
        0 <= upto <= c.pairs.len(),
    ensures
        0 <= fill_upto(c, upto, max, millis).start <= upto,
        listed_numbers(fill_upto(c, upto, max, millis).done) + c.window(
            fill_upto(c, upto, max, millis).start,
            upto,
            millis,
        ).aisles == numbers(pairs_aisles(c.aisles, open_pairs(c.aisles, c.pairs.take(upto)))),
        forall|j: int|
            0 <= j < fill_upto(c, upto, max, millis).done.len() ==> {
                let slot = #[trigger] fill_upto(c, upto, max, millis).done[j];
                slot.cluster == c.letter && !slot.locked && slot.millis == millis
            },
    decreases upto,
{
    if upto == 0 {
        assert(c.pairs.take(0) =~= Seq::<AislePair>::empty());
        assert(c.pairs.subrange(0, 0) =~= Seq::<AislePair>::empty());
        assert(numbers(pairs_aisles(c.aisles, Seq::<AislePair>::empty())) =~= Seq::<u32>::empty());
        assert(listed_numbers(Seq::<SlotView>::empty()) + Seq::<u32>::empty() =~= Seq::<
            u32,
        >::empty());
    } else {
        lemma_fill_upto(c, upto - 1, max, millis);
        let before = fill_upto(c, upto - 1, max, millis);
        let now = fill_upto(c, upto, max, millis);
        let t = upto - 1;
        let pair = c.pairs[t];
        let shut = c.window(before.start, t, millis);
        let so_far = numbers(pairs_aisles(c.aisles, open_pairs(c.aisles, c.pairs.take(t))));
        assert(c.pairs.take(upto).drop_last() =~= c.pairs.take(t));
        assert(c.pairs.take(upto).last() == pair);
        assert(c.pairs.subrange(t, t + 1) =~= seq![pair]);
        assert(c.window_locked(t, t + 1) == pair_locked(c.aisles, pair)) by {
            let one = c.pairs.subrange(t, t + 1);
            if pair_locked(c.aisles, pair) {
                assert(pair_locked(c.aisles, one[0]));
            }
        }
        lemma_window_step(c, before.start, t, millis);
        if pair_locked(c.aisles, pair) {
            lemma_window_empty(c, upto, millis);
            assert(before.done.push(shut).drop_last() =~= before.done);
            assert(listed_numbers(now.done) + Seq::<u32>::empty() =~= listed_numbers(now.done));
        } else {
            let more = open_pairs(c.aisles, c.pairs.take(upto));
            assert(more.drop_last() =~= open_pairs(c.aisles, c.pairs.take(t)));
            assert(numbers(pairs_aisles(c.aisles, more)) =~= so_far + numbers(
                pair_aisles(c.aisles, pair),
            ));
            if t - before.start >= max {
                lemma_window_step(c, t, t, millis);
                lemma_window_empty(c, t, millis);
                assert(before.done.push(shut).drop_last() =~= before.done);
                assert(c.window(t, upto, millis).aisles =~= numbers(pair_aisles(c.aisles, pair)));
                assert(listed_numbers(now.done) + c.window(t, upto, millis).aisles =~= (
                listed_numbers(before.done) + shut.aisles) + numbers(pair_aisles(c.aisles, pair)));
            } else {
                assert(listed_numbers(before.done) + (shut.aisles + numbers(
                    pair_aisles(c.aisles, pair),
                )) =~= (listed_numbers(before.done) + shut.aisles) + numbers(
                    pair_aisles(c.aisles, pair),
                ));
            }
        }
    }
}

/// What the cut of a cluster along its pairs is like.
///
/// Each pair that names no locked aisle is in exactly one slot, and the
/// slots keep the order of the pairs; a pair that names a locked aisle is
/// in no slot. Every slot is of the cluster and is not locked.
pub proof fn lemma_fill_cluster(c: ClusterView, max: int, millis: int)
    ensures
        listed_numbers(fill_cluster(c, max, millis)) == numbers(
            pairs_aisles(c.aisles, open_pairs(c.aisles, c.pairs)),
        ),
        forall|j: int|
            0 <= j < fill_cluster(c, max, millis).len() ==> {
                let slot = #[trigger] fill_cluster(c, max, millis)[j];
                slot.cluster == c.letter && !slot.locked && slot.millis == millis
            },
{
    let n = c.pairs.len() as int;
    lemma_fill_upto(c, n, max, millis);
    let end = fill_upto(c, n, max, millis);
    let last = c.window(end.start, n, millis);
    assert(c.pairs.take(n) =~= c.pairs);
    assert(end.done.push(last).drop_last() =~= end.done);
    assert forall|j: int| 0 <= j < fill_cluster(c, max, millis).len() implies {
        let slot = #[trigger] fill_cluster(c, max, millis)[j];
        slot.cluster == c.letter && !slot.locked && slot.millis == millis
    } by {
        if j < end.done.len() {
            assert(fill_cluster(c, max, millis)[j] == end.done[j]);
        }
    }
}

} // verus!

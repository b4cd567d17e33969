//! The throughput-target strategy: a slot takes aisles on while its
//! hourly rate is at most the target.

use vstd::prelude::*;
use crate::aisle::{
    Aisle, aisle_at, aisles_records, count_bound, lemma_aisles_prefix, lemma_aisles_take,
    lemma_packages_bound,
};
use crate::cluster::{ClusterView, has_number, numbers};
use crate::floor::{
    Floor, cluster_index, clusters_records, floor_aisle_at, floor_keys, floor_wf, keyed,
    lemma_cluster_index, lemma_clusters_take, views,
};
use crate::hours::{Hours, rate_at_most};
use crate::slot::{SlotView, StowSlot};

verus! {

/// What a run of slots holds.
pub open spec fn slot_views(slots: Seq<StowSlot>) -> Seq<SlotView> {
    slots.map_values(|s: StowSlot| s@)
}

/// The index of the first slot of cluster `letter` that lists
/// `aisle_num`, or the length of `slots` where none does.
pub open spec fn slot_index(slots: Seq<SlotView>, letter: char, aisle_num: int) -> int
    decreases slots.len(),
{
    if slots.len() == 0 {
        0
    } else {
        let before = slot_index(slots.drop_last(), letter, aisle_num);
        if before < slots.len() - 1 {
            before
        } else if slots.last().holds(letter, aisle_num) {
            slots.len() - 1
        } else {
            slots.len() as int
        }
    }
}

/// `slot_index` gives `k` where no slot before `k` lists the aisle and
/// the slot at `k`, if there is one, does.
pub proof fn lemma_slot_index(slots: Seq<SlotView>, letter: char, aisle_num: int, k: int)
    requires
        0 <= k <= slots.len(),
        forall|j: int| 0 <= j < k ==> !(#[trigger] slots[j]).holds(letter, aisle_num),
        k < slots.len() ==> slots[k].holds(letter, aisle_num),
    ensures
        slot_index(slots, letter, aisle_num) == k,
    decreases slots.len(),
{
    if slots.len() > 0 {
        let t = slots.drop_last();
        if k < slots.len() - 1 {
            lemma_slot_index(t, letter, aisle_num, k);
        } else {
            lemma_slot_index(t, letter, aisle_num, slots.len() - 1);
        }
    }
}

/// An unlocked slot of one aisle.
pub open spec fn single(letter: char, aisle: Aisle, millis: int) -> SlotView {
    SlotView {
        cluster: letter,
        aisles: seq![aisle.aisle_num],
        packages: aisle.packages(),
        millis,
        locked: false,
    }
}

/// The slots after one more aisle of cluster `c` is placed.
///
/// Where the cluster has the aisle numbered one lower, the first slot
/// that lists that aisle is looked up; if there is one and its rate is at
/// most `target`, the aisle joins it. Otherwise the aisle starts a slot
/// of its own at the end.
pub open spec fn pph_step(
    slots: Seq<SlotView>,
    c: ClusterView,
    aisle: Aisle,
    target: int,
    millis: int,
) -> Seq<SlotView> {
    let k = slot_index(slots, c.letter, aisle.aisle_num - 1);
    if aisle_at(c.aisles, aisle.aisle_num - 1) is Some && k < slots.len() && rate_at_most(
        slots[k].packages,
        slots[k].millis,
        target,
    ) {
        slots.update(k, slots[k].grow(aisle))
    } else {
        slots.push(single(c.letter, aisle, millis))
    }
}

/// The slots after the first `upto` aisles of cluster `c` are placed.
pub open spec fn pph_cluster(
    slots: Seq<SlotView>,
    c: ClusterView,
    upto: int,
    target: int,
    millis: int,
) -> Seq<SlotView>
    decreases upto,
{
    if upto <= 0 {
        slots
    } else {
        pph_step(pph_cluster(slots, c, upto - 1, target, millis), c, c.aisles[upto - 1], target, millis)
    }
}

/// The slots after the aisles of the first `upto` clusters are placed,
/// starting from no slot.
pub open spec fn pph_floor(clusters: Seq<ClusterView>, upto: int, target: int, millis: int) -> Seq<
    SlotView,
>
    decreases upto,
{
    if upto <= 0 {
        Seq::empty()
    } else {
        pph_cluster(
            pph_floor(clusters, upto - 1, target, millis),
            clusters[upto - 1],
            clusters[upto - 1].aisles.len() as int,
            target,
            millis,
        )
    }
}

/// The slots of the throughput-target strategy: every aisle of the
/// floor is placed, cluster after cluster and in ascending order within a
/// cluster.
pub open spec fn pph_slots(clusters: Seq<ClusterView>, target: int, millis: int) -> Seq<SlotView> {
    pph_floor(clusters, clusters.len() as int, target, millis)
}

/// The aisles that a run of slots lists, slot after slot.
pub open spec fn listed(slots: Seq<SlotView>) -> Seq<(char, u32)>
    decreases slots.len(),
{
    if slots.len() == 0 {
        Seq::empty()
    } else {
        listed(slots.drop_last()) + keyed(slots.last().cluster, slots.last().aisles)
    }
}

/// The planned packages that the floor holds in the aisles numbered
/// `nums` of cluster `letter`; a number that no aisle carries counts
/// nothing.
pub open spec fn tally(clusters: Seq<ClusterView>, letter: char, nums: Seq<u32>) -> int
    decreases nums.len(),
{
    if nums.len() == 0 {
        0
    } else {
        tally(clusters, letter, nums.drop_last()) + match floor_aisle_at(
            clusters,
            letter,
            nums.last() as int,
        ) {
            Some(a) => a.packages(),
            None => 0,
        }
    }
}

/// Whether a slot is as the throughput-target strategy makes them: it
/// lists one aisle or more, each numbered one higher than the one before;
/// it is not locked; it holds the packages that the floor plans for its
/// aisles; and before its last aisle joined, its rate was at most the
/// target.
pub open spec fn sound(clusters: Seq<ClusterView>, slot: SlotView, target: int, millis: int) -> bool {
    &&& slot.aisles.len() > 0
    &&& slot.consecutive()
    &&& !slot.locked
    &&& slot.millis == millis
    &&& slot.packages == tally(clusters, slot.cluster, slot.aisles)
    &&& slot.aisles.len() >= 2 ==> rate_at_most(
        tally(clusters, slot.cluster, slot.aisles.drop_last()),
        millis,
        target,
    )
}

spec fn floor_ok(
    slots: Seq<SlotView>,
    clusters: Seq<ClusterView>,
    upto: int,
    target: int,
    millis: int,
) -> bool {
    &&& listed(slots) == floor_keys(clusters, upto)
    &&& forall|j: int| 0 <= j < slots.len() ==> sound(clusters, #[trigger] slots[j], target, millis)
    &&& forall|j: int|
        0 <= j < slots.len() ==> cluster_index(clusters, (#[trigger] slots[j]).cluster) < upto
}

spec fn cluster_ok(
    slots: Seq<SlotView>,
    clusters: Seq<ClusterView>,
    ci: int,
    ai: int,
    target: int,
    millis: int,
) -> bool {
    let c = clusters[ci];
    &&& listed(slots) == floor_keys(clusters, ci) + keyed(c.letter, numbers(c.aisles.take(ai)))
    &&& forall|j: int| 0 <= j < slots.len() ==> sound(clusters, #[trigger] slots[j], target, millis)
    &&& forall|j: int|
        0 <= j < slots.len() ==> cluster_index(clusters, (#[trigger] slots[j]).cluster) < ci || (ai
            > 0 && slots[j].cluster == c.letter)
    &&& ai > 0 ==> slots.len() > 0 && slots.last().cluster == c.letter && slots.last().aisles.last()
        == c.aisles[ai - 1].aisle_num && forall|j: int, i: int|
        0 <= j < slots.len() - 1 && slots[j].cluster == c.letter && 0 <= i < slots[j].aisles.len()
            ==> (#[trigger] slots[j].aisles[i]) < slots.last().aisles[0]
}

proof fn lemma_run(slot: SlotView, i: int)
    requires
        slot.consecutive(),
        0 <= i < slot.aisles.len(),
    ensures
        slot.aisles[i] == slot.aisles[0] + i,
    decreases i,
{
    if i > 0 {
        lemma_run(slot, i - 1);
        assert(slot.aisles[i - 1] + 1 == slot.aisles[i]);
    }
}

proof fn lemma_listed_push(slots: Seq<SlotView>, slot: SlotView)
    ensures
        listed(slots.push(slot)) == listed(slots) + keyed(slot.cluster, slot.aisles),
{
    assert(slots.push(slot).drop_last() =~= slots);
}

proof fn lemma_listed_grow(slots: Seq<SlotView>, aisle: Aisle)
    requires
        slots.len() > 0,
    ensures
        listed(slots.update(slots.len() - 1, slots.last().grow(aisle))) == listed(slots).push(
            (slots.last().cluster, aisle.aisle_num),
        ),
{
    let last = slots.last();
    let after = slots.update(slots.len() - 1, last.grow(aisle));
    assert(after.drop_last() =~= slots.drop_last());
    assert(keyed(last.cluster, last.aisles.push(aisle.aisle_num)) =~= keyed(
        last.cluster,
        last.aisles,
    ).push((last.cluster, aisle.aisle_num)));
    assert(listed(slots.drop_last()) + keyed(last.cluster, last.aisles).push(
        (last.cluster, aisle.aisle_num),
    ) =~= (listed(slots.drop_last()) + keyed(last.cluster, last.aisles)).push(
        (last.cluster, aisle.aisle_num),
    ));
}

proof fn lemma_floor_ok(clusters: Seq<ClusterView>, upto: int, target: int, millis: int)
    requires
        floor_wf(clusters),
        0 <= upto <= clusters.len(),
    ensures
        floor_ok(pph_floor(clusters, upto, target, millis), clusters, upto, target, millis),
    decreases upto, 0int,
{
    if upto > 0 {
        let c = clusters[upto - 1];
        let slots = pph_floor(clusters, upto, target, millis);
        lemma_cluster_ok(clusters, upto - 1, c.aisles.len() as int, target, millis);
        assert(c.aisles.take(c.aisles.len() as int) =~= c.aisles);
        lemma_cluster_index(clusters, c.letter, upto - 1);
    }
}

proof fn lemma_cluster_ok(clusters: Seq<ClusterView>, ci: int, upto: int, target: int, millis: int)
    requires
        floor_wf(clusters),
        0 <= ci < clusters.len(),
        0 <= upto <= clusters[ci].aisles.len(),
    ensures
        cluster_ok(
            pph_cluster(
                pph_floor(clusters, ci, target, millis),
                clusters[ci],
                upto,
                target,
                millis,
            ),
            clusters,
            ci,
            upto,
            target,
            millis,
        ),
    decreases ci, upto + 1,
{
    let c = clusters[ci];
    let start = pph_floor(clusters, ci, target, millis);
    if upto == 0 {
        lemma_floor_ok(clusters, ci, target, millis);
        assert(keyed(c.letter, numbers(c.aisles.take(0))) =~= Seq::<(char, u32)>::empty());
        assert(floor_keys(clusters, ci) + Seq::<(char, u32)>::empty() =~= floor_keys(clusters, ci));
    } else {
        lemma_cluster_ok(clusters, ci, upto - 1, target, millis);
        let before = pph_cluster(start, c, upto - 1, target, millis);
        let aisle = c.aisles[upto - 1];
        let n = aisle.aisle_num;
        let now = pph_step(before, c, aisle, target, millis);
        assert(now == pph_cluster(start, c, upto, target, millis));
        assert(c.wf());
        lemma_cluster_index(clusters, c.letter, ci);
        crate::aisle::lemma_aisle_index(c.aisles, n as int, upto - 1);
        assert(floor_aisle_at(clusters, c.letter, n as int) == Some(aisle));
        assert(keyed(c.letter, numbers(c.aisles.take(upto))) =~= keyed(
            c.letter,
            numbers(c.aisles.take(upto - 1)),
        ).push((c.letter, n)));
        let done = floor_keys(clusters, ci) + keyed(c.letter, numbers(c.aisles.take(upto - 1)));
        assert(floor_keys(clusters, ci) + keyed(c.letter, numbers(c.aisles.take(upto - 1))).push(
            (c.letter, n),
        ) =~= done.push((c.letter, n)));
        let k = slot_index(before, c.letter, n - 1);
        let has_prev = aisle_at(c.aisles, n - 1) is Some;
        if has_prev {
            crate::aisle::lemma_aisle_index_found(c.aisles, n - 1);
            let q = crate::aisle::aisle_index(c.aisles, n - 1);
            assert(q == upto - 2) by {
                if q >= upto - 1 {
                    if q > upto - 1 {
                        assert(c.aisles[upto - 1].aisle_num < c.aisles[q].aisle_num);
                    }
                }
                if q < upto - 2 {
                    assert(c.aisles[q].aisle_num < c.aisles[upto - 2].aisle_num);
                    assert(c.aisles[upto - 2].aisle_num < c.aisles[upto - 1].aisle_num);
                }
            }
            let last = before.last();
            lemma_run(last, last.aisles.len() - 1);
            assert(last.holds(c.letter, n - 1)) by {
                assert(last.aisles[last.aisles.len() - 1] == n - 1);
            }
            assert forall|j: int| 0 <= j < before.len() - 1 implies !(#[trigger] before[j]).holds(
                c.letter,
                n - 1,
            ) by {
                if before[j].holds(c.letter, n - 1) {
                    let i = choose|i: int|
                        0 <= i < before[j].aisles.len() && before[j].aisles[i] == n - 1;
                    assert(before[j].aisles[i] < last.aisles[0]);
                }
            }
            lemma_slot_index(before, c.letter, n - 1, before.len() - 1);
            assert(k == before.len() - 1);
        }
        if has_prev && k < before.len() && rate_at_most(before[k].packages, before[k].millis, target) {
            let last = before.last();
            let grown = last.grow(aisle);
            assert(now == before.update(k, grown));
            lemma_listed_grow(before, aisle);
            assert(grown.aisles.drop_last() =~= last.aisles);
            assert(sound(clusters, grown, target, millis)) by {
                assert forall|i: int| 0 <= i < grown.aisles.len() - 1 implies (
                #[trigger] grown.aisles[i]) + 1 == grown.aisles[i + 1] by {
                    if i < last.aisles.len() - 1 {
                        assert(last.aisles[i] + 1 == last.aisles[i + 1]);
                    }
                }
            }
            assert forall|j: int| 0 <= j < now.len() implies sound(
                clusters,
                #[trigger] now[j],
                target,
                millis,
            ) by {
                if j < k {
                    assert(now[j] == before[j]);
                }
            }
            assert forall|j: int, i: int|
                0 <= j < now.len() - 1 && now[j].cluster == c.letter && 0 <= i
                    < now[j].aisles.len() implies (#[trigger] now[j].aisles[i])
                < now.last().aisles[0] by {
                assert(now[j] == before[j]);
                assert(before[j].aisles[i] < last.aisles[0]);
            }
            assert forall|j: int| 0 <= j < now.len() implies cluster_index(
                clusters,
                (#[trigger] now[j]).cluster,
            ) < ci || (upto > 0 && now[j].cluster == c.letter) by {
                if j < k {
                    assert(now[j] == before[j]);
                }
            }
        } else {
            let made = single(c.letter, aisle, millis);
            assert(now == before.push(made));
            lemma_listed_push(before, made);
            assert(keyed(c.letter, seq![n]) =~= seq![(c.letter, n)]);
            assert(listed(before) + seq![(c.letter, n)] =~= listed(before).push((c.letter, n)));
            assert(sound(clusters, made, target, millis)) by {
                assert(made.aisles.drop_last() =~= Seq::<u32>::empty());
                assert(tally(clusters, c.letter, made.aisles.drop_last()) == 0);
            }
            assert forall|j: int| 0 <= j < now.len() implies sound(
                clusters,
                #[trigger] now[j],
                target,
                millis,
            ) by {
                if j < before.len() {
                    assert(now[j] == before[j]);
                }
            }
            assert forall|j: int| 0 <= j < now.len() implies cluster_index(
                clusters,
                (#[trigger] now[j]).cluster,
            ) < ci || (upto > 0 && now[j].cluster == c.letter) by {
                if j < before.len() {
                    assert(now[j] == before[j]);
                }
            }
            assert forall|j: int, i: int|
                0 <= j < now.len() - 1 && now[j].cluster == c.letter && 0 <= i
                    < now[j].aisles.len() implies (#[trigger] now[j].aisles[i])
                < now.last().aisles[0] by {
                assert(now[j] == before[j]);
                assert(sound(clusters, before[j], target, millis));
                if upto - 1 > 0 {
                    let last = before.last();
                    assert(sound(clusters, last, target, millis));
                    assert(c.aisles[upto - 2].aisle_num < c.aisles[upto - 1].aisle_num);
                    lemma_run(last, last.aisles.len() - 1);
                    if j < before.len() - 1 {
                        assert(before[j].aisles[i] < last.aisles[0]);
                    } else {
                        lemma_run(last, i);
                    }
                } else {
                    assert(cluster_index(clusters, before[j].cluster) < ci);
                }
            }
        }
    }
}

/// What the throughput-target strategy makes of any floor.
///
/// Every aisle of the floor is in exactly one slot: the slots, read one
/// after another, list the aisles of the floor cluster after cluster and
/// in ascending order. Each slot lists aisles of one cluster that follow
/// each other without a gap, is not locked, holds the packages that the
/// floor plans for its aisles, and was at or below the target before its
/// last aisle joined.
pub proof fn lemma_pph_slots(clusters: Seq<ClusterView>, target: int, millis: int)
    requires
        floor_wf(clusters),
    ensures
        listed(pph_slots(clusters, target, millis)) == floor_keys(clusters, clusters.len() as int),
        forall|j: int|
            0 <= j < pph_slots(clusters, target, millis).len() ==> sound(
                clusters,
                #[trigger] pph_slots(clusters, target, millis)[j],
                target,
                millis,
            ),
{
    lemma_floor_ok(clusters, clusters.len() as int, target, millis);
}

/// The index of the first slot of cluster `letter` that lists
/// `aisle_num`.
pub(crate) fn find_slot(slots: &Vec<StowSlot>, letter: char, aisle_num: u32) -> (r: usize)
    ensures
        r == slot_index(slot_views(slots@), letter, aisle_num as int),
        r <= slots@.len(),
{
    let mut i: usize = 0;
    while i < slots.len()
        invariant
            i <= slots@.len(),
            forall|j: int|
                0 <= j < i ==> !(#[trigger] slot_views(slots@)[j]).holds(letter, aisle_num as int),
        decreases slots@.len() - i,
    {
        let found = slots[i].cluster() == letter && has_number(slots[i].aisles(), aisle_num);
        proof {
            let v = slot_views(slots@)[i as int];
            assert(v == slots@[i as int]@);
            if v.aisles.contains(aisle_num) {
                let w = choose|w: int| 0 <= w < v.aisles.len() && v.aisles[w] == aisle_num;
                assert(v.aisles[w] == aisle_num as int);
            }
            assert(found == v.holds(letter, aisle_num as int));
        }
        if found {
            proof {
                lemma_slot_index(slot_views(slots@), letter, aisle_num as int, i as int);
            }
            return i;
        }
        i = i + 1;
    }
    proof {
        lemma_slot_index(slot_views(slots@), letter, aisle_num as int, i as int);
    }
    i
}

/// Every slot holds at most as many packages as `records` records can.
spec fn within(slots: Seq<StowSlot>, records: int) -> bool {
    forall|j: int|
        0 <= j < slots.len() ==> -count_bound(records) <= (#[trigger] slots[j])@.packages
            <= count_bound(records)
}

/// Cuts the floor by the throughput-target strategy.
pub(crate) fn allocate_pph(floor: &Floor, target: i32, hours: Hours) -> (r: Vec<StowSlot>)
    ensures
        slot_views(r@) == pph_slots(floor@, target as int, hours.spec_millis()),
{
    let clusters = floor.clusters();
    let ghost cs = floor@;
    let ghost millis = hours.spec_millis();
    let mut slots: Vec<StowSlot> = Vec::new();
    let mut ci: usize = 0;
    proof {
        assert(slot_views(slots@) =~= pph_floor(cs, 0, target as int, millis));
        assert(cs.take(0) =~= Seq::<ClusterView>::empty());
    }
    while ci < clusters.len()
        invariant
            ci <= clusters@.len(),
            cs == views(clusters@),
            crate::floor::floor_wf(cs),
            millis == hours.spec_millis(),
            slot_views(slots@) == pph_floor(cs, ci as int, target as int, millis),
            within(slots@, clusters_records(cs.take(ci as int)) as int),
        decreases clusters@.len() - ci,
    {
        let cluster = &clusters[ci];
        let aisles = cluster.aisles();
        let letter = cluster.letter();
        let ghost c = cs[ci as int];
        let ghost base = clusters_records(cs.take(ci as int)) as int;
        let ghost start = pph_floor(cs, ci as int, target as int, millis);
        let mut ai: usize = 0;
        proof {
            assert(c == cluster@);
            assert(c.aisles.take(0) =~= Seq::<Aisle>::empty());
            lemma_clusters_take(cs, ci as int);
        }
        while ai < aisles.len()
            invariant
                ai <= aisles@.len(),
                aisles@ == c.aisles,
                c == cluster@,
                letter == c.letter,
                millis == hours.spec_millis(),
                base + aisles_records(c.aisles) <= usize::MAX,
                base >= 0,
                slot_views(slots@) == pph_cluster(start, c, ai as int, target as int, millis),
                within(slots@, base + aisles_records(c.aisles.take(ai as int))),
            decreases aisles@.len() - ai,
        {
            let aisle = &aisles[ai];
            let ghost before = slot_views(slots@);
            proof {
                lemma_aisles_take(c.aisles, ai as int);
                lemma_aisles_prefix(c.aisles, ai + 1, ai + 1);
                lemma_packages_bound(aisle.bag_records@);
                assert(c.aisles[ai as int] == *aisle);
                crate::aisle::lemma_aisle_index_found(c.aisles, aisle.aisle_num - 1);
            }
            let mut placed = false;
            if aisle.aisle_num > 0 && cluster.get_previous_aisle(aisle.aisle_num).is_some() {
                let k = find_slot(&slots, letter, aisle.aisle_num - 1);
                if k < slots.len() && slots[k].pph().at_most(target) {
                    assert(before[k as int] == slots@[k as int]@);
                    slots[k].add_aisle(aisle);
                    placed = true;
                    proof {
                        assert(slot_views(slots@) =~= before.update(
                            k as int,
                            before[k as int].grow(*aisle),
                        ));
                    }
                }
            }
            if !placed {
                let mut nums: Vec<u32> = Vec::new();
                nums.push(aisle.aisle_num);
                let made = StowSlot::from_parts(letter, nums, aisle.total_packages(), hours);
                slots.push(made);
                proof {
                    assert(slots@.last()@.aisles =~= seq![aisle.aisle_num]);
                    assert(slot_views(slots@) =~= before.push(single(letter, *aisle, millis)));
                }
            }
            assert(slot_views(slots@) == pph_step(before, c, *aisle, target as int, millis));
            ai = ai + 1;
        }
        proof {
            assert(c.aisles.take(ai as int) =~= c.aisles);
        }
        ci = ci + 1;
    }
    slots
}

} // verus!

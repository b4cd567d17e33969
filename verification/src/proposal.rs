//! The rules by which a slot composed by hand is taken or refused.

use vstd::prelude::*;
use crate::aisle::{Aisle, AislePair};
use crate::cluster::{Cluster, ClusterView, pair_aisles, pair_index, pair_locked, pair_unlocked};
use crate::error::Rejected;
use crate::floor::{cluster_at, floor_aisle_at};
use crate::slot::SlotView;

verus! {

/// The index of the first number above `aisle_num`, or the length of
/// `nums` where none is.
pub open spec fn number_index(nums: Seq<u32>, aisle_num: u32) -> int
    decreases nums.len(),
{
    if nums.len() == 0 {
        0
    } else {
        let before = number_index(nums.drop_last(), aisle_num);
        if before < nums.len() - 1 {
            before
        } else if nums.last() > aisle_num {
            nums.len() - 1
        } else {
            nums.len() as int
        }
    }
}

/// `number_index` gives `k` where no number before `k` is higher and
/// the number at `k`, if there is one, is.
pub proof fn lemma_number_index(nums: Seq<u32>, aisle_num: u32, k: int)
    requires
        0 <= k <= nums.len(),
        forall|j: int| 0 <= j < k ==> nums[j] <= aisle_num,
        k < nums.len() ==> nums[k] > aisle_num,
    ensures
        number_index(nums, aisle_num) == k,
    decreases nums.len(),
{
    if nums.len() > 0 {
        let t = nums.drop_last();
        if k < nums.len() - 1 {
            lemma_number_index(t, aisle_num, k);
        } else {
            lemma_number_index(t, aisle_num, nums.len() - 1);
        }
    }
}

/// What `number_index` gives: no number before it is higher, and the
/// number at it, if there is one, is.
pub proof fn lemma_number_index_found(nums: Seq<u32>, aisle_num: u32)
    ensures
        0 <= number_index(nums, aisle_num) <= nums.len(),
        forall|j: int| 0 <= j < number_index(nums, aisle_num) ==> nums[j] <= aisle_num,
        number_index(nums, aisle_num) < nums.len() ==> nums[number_index(nums, aisle_num)]
            > aisle_num,
    decreases nums.len(),
{
    if nums.len() > 0 {
        let t = nums.drop_last();
        lemma_number_index_found(t, aisle_num);
        assert forall|j: int| 0 <= j < number_index(nums, aisle_num) implies nums[j]
            <= aisle_num by {
            if j < t.len() {
                assert(t[j] == nums[j]);
            }
        }
    }
}

/// The numbers of `nums` in ascending order.
pub open spec fn sorted_numbers(nums: Seq<u32>) -> Seq<u32>
    decreases nums.len(),
{
    if nums.len() == 0 {
        Seq::empty()
    } else {
        let before = sorted_numbers(nums.drop_last());
        before.insert(number_index(before, nums.last()), nums.last())
    }
}

/// No number of the run is above one that follows it.
pub open spec fn non_descending(nums: Seq<u32>) -> bool {
    forall|i: int, j: int| 0 <= i < j < nums.len() ==> nums[i] <= nums[j]
}

/// `sorted_numbers` puts the same numbers, each as often as it was
/// given, in ascending order.
pub proof fn lemma_sorted_numbers(nums: Seq<u32>)
    ensures
        non_descending(sorted_numbers(nums)),
        sorted_numbers(nums).to_multiset() == nums.to_multiset(),
        sorted_numbers(nums).len() == nums.len(),
    decreases nums.len(),
{
    broadcast use vstd::seq_lib::group_to_multiset_ensures;

    if nums.len() > 0 {
        let before = sorted_numbers(nums.drop_last());
        let x = nums.last();
        let p = number_index(before, x);
        lemma_sorted_numbers(nums.drop_last());
        lemma_number_index_found(before, x);
        let after = before.insert(p, x);
        assert forall|i: int, j: int| 0 <= i < j < after.len() implies after[i] <= after[j] by {
            if j < p {
                assert(after[i] == before[i] && after[j] == before[j]);
            } else if j == p {
                assert(after[i] == before[i]);
            } else if i < p {
                assert(after[i] == before[i] && after[j] == before[j - 1]);
            } else if i == p {
                assert(after[j] == before[j - 1]);
                assert(before[p] <= before[j - 1] || p == j - 1);
            } else {
                assert(after[i] == before[i - 1] && after[j] == before[j - 1]);
            }
        }
        assert(nums =~= nums.drop_last().push(x));
    } else {
        assert(nums =~= Seq::<u32>::empty());
    }
}

/// Whether the floor has an aisle of the slot locked.
pub open spec fn any_locked(clusters: Seq<ClusterView>, slot: SlotView) -> bool {
    exists|i: int|
        0 <= i < slot.aisles.len() && (#[trigger] floor_aisle_at(
            clusters,
            slot.cluster,
            slot.aisles[i] as int,
        ) matches Some(a) && a.locked)
}

/// Whether a pair names no aisle of the cluster.
pub open spec fn pair_empty(c: ClusterView, pair: AislePair) -> bool {
    pair_aisles(c.aisles, pair).len() == 0
}

/// Whether the pairs before the pair at index `first` forbid a slot
/// that starts there.
///
/// With two pairs or more before it: the pair two before is empty, or it
/// names a locked aisle while the pair right before names an unlocked
/// one. With one pair before it: that pair is empty or names an unlocked
/// aisle.
pub open spec fn left_blocked(c: ClusterView, first: int) -> bool {
    if first >= 2 {
        pair_empty(c, c.pairs[first - 2]) || (pair_locked(c.aisles, c.pairs[first - 2])
            && pair_unlocked(c.aisles, c.pairs[first - 1]))
    } else if first == 1 {
        pair_empty(c, c.pairs[0]) || pair_unlocked(c.aisles, c.pairs[0])
    } else {
        false
    }
}

/// Whether the pairs behind the pair at index `last` forbid a slot that
/// ends there: the same rule as on the left, read from the other end.
pub open spec fn right_blocked(c: ClusterView, last: int) -> bool {
    if last + 2 < c.pairs.len() {
        pair_empty(c, c.pairs[last + 2]) || (pair_locked(c.aisles, c.pairs[last + 2])
            && pair_unlocked(c.aisles, c.pairs[last + 1]))
    } else if last + 1 < c.pairs.len() {
        pair_empty(c, c.pairs[last + 1]) || pair_unlocked(c.aisles, c.pairs[last + 1])
    } else {
        false
    }
}

/// Whether a slot composed by hand may join the slots of the floor, or
/// why not. The reasons are tried in this order: a locked aisle; no
/// place on the floor; a neighbouring pair that forbids it; a lock asked
/// for a slot that is locked.
pub open spec fn proposal(clusters: Seq<ClusterView>, slot: SlotView, lock: bool) -> Result<
    (),
    Rejected,
> {
    if any_locked(clusters, slot) {
        Err(Rejected::LockedAisle)
    } else {
        match cluster_at(clusters, slot.cluster) {
            None => Err(Rejected::Unplaced),
            Some(c) => {
                let nums = sorted_numbers(slot.aisles);
                if nums.len() == 0 {
                    Err(Rejected::Unplaced)
                } else {
                    let first = pair_index(c.pairs, nums.first());
                    let last = pair_index(c.pairs, nums.last());
                    if first >= c.pairs.len() || last >= c.pairs.len() {
                        Err(Rejected::Unplaced)
                    } else if left_blocked(c, first) || right_blocked(c, last) {
                        Err(Rejected::NotAllowed)
                    } else if lock && slot.locked {
                        Err(Rejected::AlreadyLocked)
                    } else {
                        Ok(())
                    }
                }
            },
        }
    }
}

/// The slot as it joins the floor: its aisles in ascending order, and
/// locked where a lock was asked for.
pub open spec fn accepted(slot: SlotView, lock: bool) -> SlotView {
    SlotView {
        cluster: slot.cluster,
        aisles: sorted_numbers(slot.aisles),
        packages: slot.packages,
        millis: slot.millis,
        locked: slot.locked || lock,
    }
}

/// The numbers in ascending order.
pub(crate) fn sort_numbers(nums: &Vec<u32>) -> (r: Vec<u32>)
    ensures
        r@ == sorted_numbers(nums@),
{
    let mut out: Vec<u32> = Vec::new();
    let mut i: usize = 0;
    assert(nums@.take(0) =~= Seq::<u32>::empty());
    while i < nums.len()
        invariant
            i <= nums@.len(),
            out@ == sorted_numbers(nums@.take(i as int)),
        decreases nums@.len() - i,
    {
        let x: u32 = nums[i];
        let mut p: usize = 0;
        while p < out.len() && out[p] <= x
            invariant
                p <= out@.len(),
                forall|j: int| 0 <= j < p ==> out@[j] <= x,
            decreases out@.len() - p,
        {
            p = p + 1;
        }
        proof {
            lemma_number_index(out@, x, p as int);
            assert(nums@.take(i + 1).drop_last() =~= nums@.take(i as int));
        }
        out.insert(p, x);
        i = i + 1;
    }
    assert(nums@.take(i as int) =~= nums@);
    out
}

/// Whether the pairs before the pair at `first` forbid a slot there.
pub(crate) fn is_left_blocked(cluster: &Cluster, first: usize) -> (r: bool)
    requires
        first < cluster@.pairs.len(),
    ensures
        r == left_blocked(cluster@, first as int),
{
    let pairs = cluster.aisle_pairs();
    if first >= 2 {
        is_pair_empty(cluster, &pairs[first - 2]) || (cluster.pair_is_locked(&pairs[first - 2])
            && cluster.pair_is_unlocked(&pairs[first - 1]))
    } else if first == 1 {
        is_pair_empty(cluster, &pairs[0]) || cluster.pair_is_unlocked(&pairs[0])
    } else {
        false
    }
}

/// Whether the pairs behind the pair at `last` forbid a slot there.
pub(crate) fn is_right_blocked(cluster: &Cluster, last: usize) -> (r: bool)
    requires
        last < cluster@.pairs.len(),
    ensures
        r == right_blocked(cluster@, last as int),
{
    let pairs = cluster.aisle_pairs();
    let n: usize = pairs.len();
    if n - last > 2 {
        is_pair_empty(cluster, &pairs[last + 2]) || (cluster.pair_is_locked(&pairs[last + 2])
            && cluster.pair_is_unlocked(&pairs[last + 1]))
    } else if n - last > 1 {
        is_pair_empty(cluster, &pairs[last + 1]) || cluster.pair_is_unlocked(&pairs[last + 1])
    } else {
        false
    }
}

/// Whether a pair names no aisle of the cluster.
pub(crate) fn is_pair_empty(cluster: &Cluster, pair: &AislePair) -> (r: bool)
    ensures
        r == pair_empty(cluster@, *pair),
{
    let found = cluster.get_aisles_from_pair(pair);
    assert(found@.map_values(|a: &Aisle| *a).len() == found@.len());
    found.len() == 0
}

} // verus!

//! A cluster: the aisles that share one cluster letter, in ascending
//! order, and their pairing.

use vstd::prelude::*;
use crate::aisle::{
    Aisle, AislePair, BagRecord, aisle_at, aisle_index, aisles_packages, aisles_records, ascending,
    fresh, lemma_aisle_index, lemma_aisle_index_found, lemma_aisles_bound, lemma_aisles_concat,
    lemma_aisles_insert, lemma_aisles_one, lemma_aisles_prefix, lemma_aisles_take,
    lemma_aisles_update, lemma_packages_bound, packages, records_at,
};
use crate::hours::Hours;
use crate::slot::{SlotView, StowSlot, slot_of};

verus! {

/// The numbers of a run of aisles, in its order.
pub open spec fn numbers(aisles: Seq<Aisle>) -> Seq<u32> {
    aisles.map_values(|a: Aisle| a.aisle_num)
}

/// The pair that starts at the odd aisle `aisle_num` among the aisles
/// numbered `nums`: its partner is the aisle numbered one higher, where
/// there is one.
pub open spec fn pair_from(nums: Seq<u32>, aisle_num: u32) -> AislePair {
    AislePair {
        aisle1: Some(aisle_num),
        aisle2: if aisle_num < u32::MAX && nums.contains((aisle_num + 1) as u32) {
            Some((aisle_num + 1) as u32)
        } else {
            None
        },
    }
}

/// The pairs that start at one of the first `upto` aisles.
pub open spec fn pairs_upto(nums: Seq<u32>, upto: int) -> Seq<AislePair>
    decreases upto,
{
    if upto <= 0 {
        Seq::empty()
    } else if nums[upto - 1] % 2 == 1 {
        pairs_upto(nums, upto - 1).push(pair_from(nums, nums[upto - 1]))
    } else {
        pairs_upto(nums, upto - 1)
    }
}

/// The pairing of the aisles numbered `nums`: one pair for each odd
/// number, in the order of `nums`. An even aisle without the odd aisle
/// below it is in no pair.
pub open spec fn pairs_of(nums: Seq<u32>) -> Seq<AislePair> {
    pairs_upto(nums, nums.len() as int)
}

/// The numbers of a run strictly increase.
pub open spec fn increasing(nums: Seq<u32>) -> bool {
    forall|i: int, j: int| 0 <= i < j < nums.len() ==> nums[i] < nums[j]
}

/// Whether a pair is the pair of an odd aisle among the aisles numbered
/// `nums`.
pub open spec fn pair_among(nums: Seq<u32>, pair: AislePair) -> bool {
    &&& pair.aisle1 is Some
    &&& pair.aisle1->Some_0 % 2 == 1
    &&& nums.contains(pair.aisle1->Some_0)
    &&& pair == pair_from(nums, pair.aisle1->Some_0)
}

/// What the pairing of strictly increasing aisle numbers is like.
///
/// Each pair starts at an odd aisle and holds the aisle numbered one
/// higher exactly where there is one. The pairs stand in ascending order,
/// so no aisle is in two pairs. Each odd aisle starts a pair; an even
/// aisle is in a pair exactly where the aisle numbered one lower exists.
pub proof fn lemma_pairs_of(nums: Seq<u32>)
    requires
        increasing(nums),
    ensures
        forall|t: int|
            0 <= t < pairs_of(nums).len() ==> pair_among(nums, #[trigger] pairs_of(nums)[t]),
        forall|t: int, u: int|
            0 <= t < u < pairs_of(nums).len() ==> (#[trigger] pairs_of(nums)[t]).aisle1->Some_0 + 1
                < (#[trigger] pairs_of(nums)[u]).aisle1->Some_0,
        forall|i: int|
            0 <= i < nums.len() && nums[i] % 2 == 1 ==> exists|t: int|
                0 <= t < pairs_of(nums).len() && (#[trigger] pairs_of(nums)[t]).aisle1 == Some(
                    nums[i],
                ),
        forall|i: int|
            0 <= i < nums.len() && nums[i] % 2 == 0 ==> ((exists|t: int|
                0 <= t < pairs_of(nums).len() && (#[trigger] pairs_of(nums)[t]).aisle2 == Some(
                    nums[i],
                )) <==> nums[i] > 0 && nums.contains((nums[i] - 1) as u32)),
{
    lemma_pairs_upto(nums, nums.len() as int);
    let pairs = pairs_of(nums);
    assert forall|i: int| 0 <= i < nums.len() && nums[i] % 2 == 0 implies ((exists|t: int|
        0 <= t < pairs.len() && (#[trigger] pairs[t]).aisle2 == Some(nums[i])) <==> nums[i] > 0
        && nums.contains((nums[i] - 1) as u32)) by {
        let n = nums[i];
        if n > 0 && nums.contains((n - 1) as u32) {
            let j = choose|j: int| 0 <= j < nums.len() && nums[j] == (n - 1) as u32;
            let t = choose|t: int| 0 <= t < pairs.len() && (#[trigger] pairs[t]).aisle1 == Some(nums[j]);
            assert(pairs[t] == pair_from(nums, nums[j]));
            assert(pairs[t].aisle2 == Some(n));
        }
        if exists|t: int| 0 <= t < pairs.len() && (#[trigger] pairs[t]).aisle2 == Some(n) {
            let t = choose|t: int| 0 <= t < pairs.len() && (#[trigger] pairs[t]).aisle2 == Some(n);
            let m = pairs[t].aisle1->Some_0;
            assert(pairs[t] == pair_from(nums, m));
            assert(n == m + 1);
        }
    }
}

proof fn lemma_pairs_upto(nums: Seq<u32>, upto: int)
    requires
        increasing(nums),
        0 <= upto <= nums.len(),
    ensures
        forall|t: int|
            0 <= t < pairs_upto(nums, upto).len() ==> pair_among(
                nums,
                #[trigger] pairs_upto(nums, upto)[t],
            ) && (upto > 0 ==> pairs_upto(nums, upto)[t].aisle1->Some_0 <= nums[upto - 1]),
        forall|t: int, u: int|
            0 <= t < u < pairs_upto(nums, upto).len() ==> (#[trigger] pairs_upto(
                nums,
                upto,
            )[t]).aisle1->Some_0 + 1 < (#[trigger] pairs_upto(nums, upto)[u]).aisle1->Some_0,
        forall|i: int|
            0 <= i < upto && nums[i] % 2 == 1 ==> exists|t: int|
                0 <= t < pairs_upto(nums, upto).len() && (#[trigger] pairs_upto(
                    nums,
                    upto,
                )[t]).aisle1 == Some(nums[i]),
        upto == 0 ==> pairs_upto(nums, upto).len() == 0,
    decreases upto,
{
    if upto > 0 {
        lemma_pairs_upto(nums, upto - 1);
        let before = pairs_upto(nums, upto - 1);
        let now = pairs_upto(nums, upto);
        let n = nums[upto - 1];
        if n % 2 == 1 {
            assert(now == before.push(pair_from(nums, n)));
            assert forall|t: int| 0 <= t < now.len() implies pair_among(nums, #[trigger] now[t])
                && now[t].aisle1->Some_0 <= nums[upto - 1] by {
                if t < before.len() {
                    assert(now[t] == before[t]);
                    if upto > 1 {
                        assert(nums[upto - 2] < nums[upto - 1]);
                    }
                } else {
                    assert(nums[upto - 1] == n);
                }
            }
            assert forall|t: int, u: int| 0 <= t < u < now.len() implies (#[trigger] now[t]).aisle1->Some_0
                + 1 < (#[trigger] now[u]).aisle1->Some_0 by {
                assert(now[t] == before[t]);
                if u < before.len() {
                    assert(now[u] == before[u]);
                } else {
                    assert(upto > 1);
                    assert(nums[upto - 2] < nums[upto - 1]);
                    assert(before[t].aisle1->Some_0 <= nums[upto - 2]);
                    assert(before[t].aisle1->Some_0 % 2 == 1);
                }
            }
            assert forall|i: int| 0 <= i < upto && nums[i] % 2 == 1 implies exists|t: int|
                0 <= t < now.len() && (#[trigger] now[t]).aisle1 == Some(nums[i]) by {
                if i < upto - 1 {
                    let t = choose|t: int|
                        0 <= t < before.len() && (#[trigger] before[t]).aisle1 == Some(nums[i]);
                    assert(now[t] == before[t]);
                } else {
                    assert(now[before.len() as int].aisle1 == Some(nums[i]));
                }
            }
        } else {
            assert(now == before);
            assert forall|t: int| 0 <= t < now.len() implies (#[trigger] now[t]).aisle1->Some_0
                <= nums[upto - 1] by {
                if upto > 1 {
                    assert(nums[upto - 2] < nums[upto - 1]);
                }
            }
        }
    }
}

/// The index of the first pair that holds `aisle_num`, or the length of
/// `pairs` where none does.
pub open spec fn pair_index(pairs: Seq<AislePair>, aisle_num: u32) -> int
    decreases pairs.len(),
{
    if pairs.len() == 0 {
        0
    } else {
        let before = pair_index(pairs.drop_last(), aisle_num);
        if before < pairs.len() - 1 {
            before
        } else if pairs.last().holds(aisle_num) {
            pairs.len() - 1
        } else {
            pairs.len() as int
        }
    }
}

/// `pair_index` gives `k` where no pair before `k` holds the number and
/// the pair at `k`, if there is one, does.
pub proof fn lemma_pair_index(pairs: Seq<AislePair>, aisle_num: u32, k: int)
    requires
        0 <= k <= pairs.len(),
        forall|j: int| 0 <= j < k ==> !pairs[j].holds(aisle_num),
        k < pairs.len() ==> pairs[k].holds(aisle_num),
    ensures
        pair_index(pairs, aisle_num) == k,
    decreases pairs.len(),
{
    if pairs.len() > 0 {
        let t = pairs.drop_last();
        if k < pairs.len() - 1 {
            lemma_pair_index(t, aisle_num, k);
        } else {
            lemma_pair_index(t, aisle_num, pairs.len() - 1);
        }
    }
}

/// The aisles of `aisles` that a pair names, the first aisle first. A
/// number that no aisle carries adds nothing.
pub open spec fn pair_aisles(aisles: Seq<Aisle>, pair: AislePair) -> Seq<Aisle> {
    let first = match pair.aisle1 {
        Some(a) => match aisle_at(aisles, a as int) {
            Some(x) => seq![x],
            None => Seq::empty(),
        },
        None => Seq::empty(),
    };
    let second = match pair.aisle2 {
        Some(b) => match aisle_at(aisles, b as int) {
            Some(x) => seq![x],
            None => Seq::empty(),
        },
        None => Seq::empty(),
    };
    first + second
}

/// Whether one of the aisles that a pair names is locked.
pub open spec fn pair_locked(aisles: Seq<Aisle>, pair: AislePair) -> bool {
    exists|i: int| 0 <= i < pair_aisles(aisles, pair).len() && pair_aisles(aisles, pair)[i].locked
}

/// Whether one of the aisles that a pair names is not locked.
pub open spec fn pair_unlocked(aisles: Seq<Aisle>, pair: AislePair) -> bool {
    exists|i: int|
        0 <= i < pair_aisles(aisles, pair).len() && !pair_aisles(aisles, pair)[i].locked
}

/// The aisles with the lock of each aisle numbered in `nums` set to
/// `locked`.
pub open spec fn lock_all(aisles: Seq<Aisle>, nums: Seq<u32>, locked: bool) -> Seq<Aisle> {
    aisles.map_values(
        |a: Aisle|
            if nums.contains(a.aisle_num) {
                Aisle {
                    cluster: a.cluster,
                    aisle_num: a.aisle_num,
                    bag_records: a.bag_records,
                    locked,
                }
            } else {
                a
            },
    )
}

/// Setting locks changes neither the numbers nor the records nor the
/// packages of the aisles.
pub proof fn lemma_lock_all_sums(aisles: Seq<Aisle>, nums: Seq<u32>, locked: bool)
    ensures
        aisles_records(lock_all(aisles, nums, locked)) == aisles_records(aisles),
        aisles_packages(lock_all(aisles, nums, locked)) == aisles_packages(aisles),
        numbers(lock_all(aisles, nums, locked)) == numbers(aisles),
    decreases aisles.len(),
{
    assert(numbers(lock_all(aisles, nums, locked)) =~= numbers(aisles));
    if aisles.len() > 0 {
        lemma_lock_all_sums(aisles.drop_last(), nums, locked);
        assert(lock_all(aisles, nums, locked).drop_last() =~= lock_all(
            aisles.drop_last(),
            nums,
            locked,
        ));
    }
}

/// Whether `aisle_num` is among `nums`.
pub(crate) fn has_number(nums: &Vec<u32>, aisle_num: u32) -> (r: bool)
    ensures
        r == nums@.contains(aisle_num),
{
    let mut i: usize = 0;
    while i < nums.len()
        invariant
            i <= nums@.len(),
            forall|j: int| 0 <= j < i ==> nums@[j] != aisle_num,
        decreases nums@.len() - i,
    {
        if nums[i] == aisle_num {
            return true;
        }
        i = i + 1;
    }
    false
}

/// The aisles of one cluster letter.
#[derive(Debug)]
pub struct Cluster {
    pub(crate) cluster: char,
    pub(crate) aisles: Vec<Aisle>,
    pub(crate) aisle_pairs: Vec<AislePair>,
    pub(crate) pair_starts: Vec<usize>,
}

/// The index of the first aisle numbered `aisle_num`.
pub(crate) fn find_aisle(aisles: &Vec<Aisle>, aisle_num: u32) -> (r: usize)
    ensures
        r == aisle_index(aisles@, aisle_num as int),
        r <= aisles@.len(),
        r < aisles@.len() ==> aisles@[r as int].aisle_num == aisle_num,
        forall|j: int| 0 <= j < r ==> (#[trigger] aisles@[j]).aisle_num != aisle_num,
{
    let mut i: usize = 0;
    while i < aisles.len() && aisles[i].aisle_num != aisle_num
        invariant
            i <= aisles@.len(),
            forall|j: int| 0 <= j < i ==> (#[trigger] aisles@[j]).aisle_num != aisle_num,
        decreases aisles@.len() - i,
    {
        i = i + 1;
    }
    proof {
        lemma_aisle_index(aisles@, aisle_num as int, i as int);
    }
    i
}

/// How many aisles a pair names.
pub open spec fn pair_size(pair: AislePair) -> int {
    if pair.aisle2 is Some {
        2
    } else {
        1
    }
}

/// `starts` gives, for each pair, the index of its first aisle: the
/// second aisle of a pair stands right behind the first, and the pairs
/// follow each other without overlap.
pub open spec fn linked(aisles: Seq<Aisle>, pairs: Seq<AislePair>, starts: Seq<usize>) -> bool {
    &&& starts.len() == pairs.len()
    &&& forall|t: int|
        0 <= t < pairs.len() ==> (#[trigger] starts[t]) < aisles.len() && pairs[t].aisle1 == Some(
            aisles[starts[t] as int].aisle_num,
        ) && (pairs[t].aisle2 matches Some(b) ==> starts[t] + 1 < aisles.len() && aisles[starts[t]
            + 1].aisle_num == b)
    &&& forall|t: int, u: int|
        0 <= t < u < pairs.len() ==> (#[trigger] starts[t]) + pair_size(pairs[t]) <= (
        #[trigger] starts[u])
}

/// The pairing of the aisles, and for each pair the index of its first
/// aisle.
pub(crate) fn compute_pairs(aisles: &Vec<Aisle>) -> (r: (Vec<AislePair>, Vec<usize>))
    requires
        ascending(aisles@),
    ensures
        r.0@ == pairs_of(numbers(aisles@)),
        linked(aisles@, r.0@, r.1@),
{
    let ghost nums = numbers(aisles@);
    let mut pairs: Vec<AislePair> = Vec::new();
    let mut starts: Vec<usize> = Vec::new();
    let ghost mut end: int = 0;
    let mut i: usize = 0;
    while i < aisles.len()
        invariant
            i <= aisles@.len(),
            ascending(aisles@),
            nums == numbers(aisles@),
            pairs@ == pairs_upto(nums, i as int),
            linked(aisles@, pairs@, starts@),
            0 <= end <= i + 1,
            end == i + 1 ==> i < aisles@.len() && aisles@[i as int].aisle_num % 2 == 0,
            forall|t: int|
                0 <= t < pairs@.len() ==> (#[trigger] starts@[t]) + pair_size(pairs@[t]) <= end,
        decreases aisles@.len() - i,
    {
        let n: u32 = aisles[i].aisle_num;
        assert(nums[i as int] == n);
        if n % 2 == 1 {
            let mut partner: Option<u32> = None;
            if n < u32::MAX {
                let k = find_aisle(aisles, n + 1);
                if k < aisles.len() {
                    assert(nums[k as int] == n + 1);
                    assert(k == i + 1) by {
                        if k > i + 1 {
                            assert(aisles@[i as int].aisle_num < aisles@[i + 1].aisle_num);
                            assert(aisles@[i + 1].aisle_num < aisles@[k as int].aisle_num);
                        }
                        if k < i {
                            assert(aisles@[k as int].aisle_num < aisles@[i as int].aisle_num);
                        }
                    }
                    partner = Some(n + 1);
                } else {
                    assert(!nums.contains((n + 1) as u32)) by {
                        if nums.contains((n + 1) as u32) {
                            let j = choose|j: int| 0 <= j < nums.len() && nums[j] == (n + 1) as u32;
                            assert(aisles@[j].aisle_num == n + 1);
                        }
                    }
                }
            }
            let ghost old_pairs = pairs@;
            let ghost old_starts = starts@;
            let pair = AislePair { aisle1: Some(n), aisle2: partner };
            pairs.push(pair);
            starts.push(i);
            proof {
                assert forall|t: int, u: int| 0 <= t < u < pairs@.len() implies (
                #[trigger] starts@[t]) + pair_size(pairs@[t]) <= (#[trigger] starts@[u]) by {
                    assert(starts@[t] == old_starts[t]);
                    if u < old_pairs.len() {
                        assert(starts@[u] == old_starts[u]);
                    }
                }
                end = i + pair_size(pair);
            }
        }
        i = i + 1;
    }
    (pairs, starts)
}

/// The aisles that a run of pairs names, pair after pair.
pub open spec fn pairs_aisles(aisles: Seq<Aisle>, pairs: Seq<AislePair>) -> Seq<Aisle>
    decreases pairs.len(),
{
    if pairs.len() == 0 {
        Seq::empty()
    } else {
        pairs_aisles(aisles, pairs.drop_last()) + pair_aisles(aisles, pairs.last())
    }
}

/// Whether one of the pairs names a locked aisle.
pub open spec fn pairs_locked(aisles: Seq<Aisle>, pairs: Seq<AislePair>) -> bool {
    exists|t: int| 0 <= t < pairs.len() && pair_locked(aisles, pairs[t])
}

/// What a cluster holds: its letter, its aisles and its pairs.
pub struct ClusterView {
    pub letter: char,
    pub aisles: Seq<Aisle>,
    pub pairs: Seq<AislePair>,
}

impl ClusterView {
    /// What holds of every cluster: its aisles carry its letter and
    /// strictly increasing numbers, its pairs are the pairing of those
    /// aisles, and its records can be counted.
    pub open spec fn wf(self) -> bool {
        &&& ascending(self.aisles)
        &&& forall|i: int|
            0 <= i < self.aisles.len() ==> (#[trigger] self.aisles[i]).cluster == self.letter
        &&& self.pairs == pairs_of(numbers(self.aisles))
        &&& aisles_records(self.aisles) <= usize::MAX
    }

    /// The unlocked slot of the aisles of the pairs from index `from` up
    /// to, not including, index `to`.
    pub open spec fn window(self, from: int, to: int, millis: int) -> SlotView {
        slot_of(self.letter, pairs_aisles(self.aisles, self.pairs.subrange(from, to)), millis)
    }

    /// Whether one of those pairs names a locked aisle.
    pub open spec fn window_locked(self, from: int, to: int) -> bool {
        pairs_locked(self.aisles, self.pairs.subrange(from, to))
    }
}

impl View for Cluster {
    type V = ClusterView;

    closed spec fn view(&self) -> ClusterView {
        ClusterView { letter: self.cluster, aisles: self.aisles@, pairs: self.aisle_pairs@ }
    }
}

impl Cluster {
    #[verifier::type_invariant]
    pub closed spec fn inv(self) -> bool {
        &&& ascending(self.aisles@)
        &&& forall|i: int| 0 <= i < self.aisles@.len() ==> (#[trigger] self.aisles@[i]).cluster
            == self.cluster
        &&& self.aisle_pairs@ == pairs_of(numbers(self.aisles@))
        &&& aisles_records(self.aisles@) <= usize::MAX
        &&& linked(self.aisles@, self.aisle_pairs@, self.pair_starts@)
    }

    /// The letter of this cluster.
    pub open spec fn spec_letter(self) -> char {
        self@.letter
    }

    /// The aisles of this cluster, in ascending order of their numbers.
    pub open spec fn spec_aisles(self) -> Seq<Aisle> {
        self@.aisles
    }

    /// The pairs of this cluster.
    pub open spec fn spec_pairs(self) -> Seq<AislePair> {
        self@.pairs
    }

    /// What holds of every cluster.
    pub open spec fn wf(self) -> bool {
        self@.wf()
    }

    /// The letter of this cluster.
    pub fn letter(&self) -> (r: char)
        ensures
            r == self.spec_letter(),
    {
        self.cluster
    }

    /// The aisles of this cluster, in ascending order of their numbers.
    pub fn aisles(&self) -> (r: &Vec<Aisle>)
        ensures
            r@ == self.spec_aisles(),
            self.wf(),
    {
        proof {
            use_type_invariant(self);
        }
        &self.aisles
    }

    /// The pairs of this cluster, in ascending order.
    pub fn aisle_pairs(&self) -> (r: &Vec<AislePair>)
        ensures
            r@ == self.spec_pairs(),
            self.wf(),
    {
        proof {
            use_type_invariant(self);
        }
        &self.aisle_pairs
    }

    /// The aisle numbered `aisle`, if the cluster has it.
    pub fn get_aisle(&self, aisle: u32) -> (r: Option<&Aisle>)
        ensures
            r is Some <==> aisle_at(self.spec_aisles(), aisle as int) is Some,
            r matches Some(a) ==> aisle_at(self.spec_aisles(), aisle as int) == Some(*a)
                && a.aisle_num == aisle,
    {
        let i = find_aisle(&self.aisles, aisle);
        if i < self.aisles.len() {
            Some(&self.aisles[i])
        } else {
            None
        }
    }

    /// The aisle with the lowest number.
    pub fn get_first_aisle(&self) -> (r: Option<&Aisle>)
        ensures
            r is None <==> self.spec_aisles().len() == 0,
            r matches Some(a) ==> *a == self.spec_aisles()[0] && forall|i: int|
                0 <= i < self.spec_aisles().len() ==> a.aisle_num <= (
                #[trigger] self.spec_aisles()[i]).aisle_num,
    {
        proof {
            use_type_invariant(self);
        }
        if self.aisles.len() > 0 {
            Some(&self.aisles[0])
        } else {
            None
        }
    }

    /// The aisle with the highest number.
    pub fn get_last_aisle(&self) -> (r: Option<&Aisle>)
        ensures
            r is None <==> self.spec_aisles().len() == 0,
            r matches Some(a) ==> *a == self.spec_aisles().last() && forall|i: int|
                0 <= i < self.spec_aisles().len() ==> a.aisle_num >= (
                #[trigger] self.spec_aisles()[i]).aisle_num,
    {
        proof {
            use_type_invariant(self);
        }
        if self.aisles.len() > 0 {
            Some(&self.aisles[self.aisles.len() - 1])
        } else {
            None
        }
    }

    /// The planned packages of this cluster, summed.
    pub fn get_total_packages(&self) -> (r: i128)
        ensures
            r == aisles_packages(self.spec_aisles()),
    {
        proof {
            use_type_invariant(self);
        }
        let mut total: i128 = 0;
        let mut i: usize = 0;
        while i < self.aisles.len()
            invariant
                i <= self.aisles@.len(),
                aisles_records(self.aisles@) <= usize::MAX,
                total == aisles_packages(self.aisles@.take(i as int)),
            decreases self.aisles@.len() - i,
        {
            proof {
                lemma_aisles_take(self.aisles@, i as int);
                lemma_aisles_bound(self.aisles@.take(i as int));
                lemma_aisles_bound(self.aisles@.take(i + 1));
            }
            total = total + self.aisles[i].total_packages();
            i = i + 1;
        }
        assert(self.aisles@.take(i as int) =~= self.aisles@);
        total
    }

    /// The aisle numbered exactly one higher, if the cluster has it.
    pub fn get_next_aisle(&self, aisle: u32) -> (r: Option<&Aisle>)
        ensures
            r is Some <==> aisle_at(self.spec_aisles(), aisle + 1) is Some,
            r matches Some(a) ==> aisle_at(self.spec_aisles(), aisle + 1) == Some(*a)
                && a.aisle_num == aisle + 1 && a.cluster == self.spec_letter(),
    {
        proof {
            use_type_invariant(self);
            lemma_aisle_index_found(self.aisles@, aisle + 1);
        }
        if aisle < u32::MAX {
            self.get_aisle(aisle + 1)
        } else {
            None
        }
    }

    /// The aisle numbered exactly one lower, if the cluster has it.
    pub fn get_previous_aisle(&self, aisle: u32) -> (r: Option<&Aisle>)
        ensures
            r is Some <==> aisle_at(self.spec_aisles(), aisle - 1) is Some,
            r matches Some(a) ==> aisle_at(self.spec_aisles(), aisle - 1) == Some(*a)
                && a.aisle_num == aisle - 1 && a.cluster == self.spec_letter(),
    {
        proof {
            use_type_invariant(self);
            lemma_aisle_index_found(self.aisles@, aisle - 1);
        }
        if aisle > 0 {
            self.get_aisle(aisle - 1)
        } else {
            None
        }
    }

    /// Rebuilds the pairs of this cluster from its aisles.
    pub fn generate_aisle_pairs(&mut self)
        ensures
            final(self).spec_letter() == old(self).spec_letter(),
            final(self).spec_aisles() == old(self).spec_aisles(),
            final(self).spec_pairs() == pairs_of(numbers(old(self).spec_aisles())),
            final(self)@ == old(self)@,
            final(self).wf(),
    {
        proof {
            use_type_invariant(&*self);
        }
        let mut tmp = Cluster::new(self.cluster);
        core::mem::swap(self, &mut tmp);
        let Cluster { cluster, aisles, aisle_pairs: _, pair_starts: _ } = tmp;
        let (aisle_pairs, pair_starts) = compute_pairs(&aisles);
        *self = Cluster { cluster, aisles, aisle_pairs, pair_starts };
    }

    /// How many pairs this cluster has.
    pub fn aisle_pairs_len(&mut self) -> (r: usize)
        ensures
            r == old(self).spec_pairs().len(),
            final(self)@ == old(self)@,
            final(self).wf(),
    {
        proof {
            use_type_invariant(&*self);
        }
        if self.aisle_pairs.len() == 0 {
            self.generate_aisle_pairs();
        }
        self.aisle_pairs.len()
    }

    /// The aisles that a pair names, the first aisle first.
    pub fn get_aisles_from_pair(&self, pair: &AislePair) -> (r: Vec<&Aisle>)
        ensures
            r@.map_values(|a: &Aisle| *a) == pair_aisles(self.spec_aisles(), *pair),
    {
        let mut found: Vec<&Aisle> = Vec::new();
        if let Some(a) = pair.aisle1 {
            if let Some(x) = self.get_aisle(a) {
                found.push(x);
            }
        }
        if let Some(b) = pair.aisle2 {
            if let Some(x) = self.get_aisle(b) {
                found.push(x);
            }
        }
        assert(found@.map_values(|a: &Aisle| *a) =~= pair_aisles(self.spec_aisles(), *pair));
        found
    }

    /// The first pair that holds the number of `aisle`, with its index.
    pub fn get_pair_from_aisle(&self, aisle: &Aisle) -> (r: Option<(usize, &AislePair)>)
        ensures
            r is Some <==> pair_index(self.spec_pairs(), aisle.aisle_num) < self.spec_pairs().len(),
            r matches Some((i, p)) ==> i == pair_index(self.spec_pairs(), aisle.aisle_num) && *p
                == self.spec_pairs()[i as int],
    {
        let i = self.pair_position(aisle.aisle_num);
        if i < self.aisle_pairs.len() {
            Some((i, &self.aisle_pairs[i]))
        } else {
            None
        }
    }

    /// The index of the first pair that holds `aisle_num`.
    pub(crate) fn pair_position(&self, aisle_num: u32) -> (r: usize)
        ensures
            r == pair_index(self.spec_pairs(), aisle_num),
            r <= self.spec_pairs().len(),
    {
        let mut i: usize = 0;
        while i < self.aisle_pairs.len() && !(self.aisle_pairs[i].aisle1 == Some(aisle_num)
            || self.aisle_pairs[i].aisle2 == Some(aisle_num))
            invariant
                i <= self.aisle_pairs@.len(),
                forall|j: int| 0 <= j < i ==> !self.aisle_pairs@[j].holds(aisle_num),
            decreases self.aisle_pairs@.len() - i,
        {
            i = i + 1;
        }
        proof {
            lemma_pair_index(self.aisle_pairs@, aisle_num, i as int);
        }
        i
    }

    /// Whether one of the aisles that a pair names is locked.
    pub fn pair_is_locked(&self, pair: &AislePair) -> (r: bool)
        ensures
            r == pair_locked(self.spec_aisles(), *pair),
    {
        let found = self.get_aisles_from_pair(pair);
        let ghost all = pair_aisles(self.spec_aisles(), *pair);
        let mut i: usize = 0;
        while i < found.len()
            invariant
                i <= found@.len(),
                found@.map_values(|a: &Aisle| *a) == all,
                all == pair_aisles(self.spec_aisles(), *pair),
                forall|j: int| 0 <= j < i ==> !all[j].locked,
            decreases found@.len() - i,
        {
            assert(found@.map_values(|a: &Aisle| *a)[i as int] == *found@[i as int]);
            if found[i].locked {
                assert(all[i as int].locked);
                return true;
            }
            i = i + 1;
        }
        assert(found@.map_values(|a: &Aisle| *a).len() == found@.len());
        false
    }

    /// Whether one of the aisles that a pair names is not locked.
    pub fn pair_is_unlocked(&self, pair: &AislePair) -> (r: bool)
        ensures
            r == pair_unlocked(self.spec_aisles(), *pair),
    {
        let found = self.get_aisles_from_pair(pair);
        let ghost all = pair_aisles(self.spec_aisles(), *pair);
        let mut i: usize = 0;
        while i < found.len()
            invariant
                i <= found@.len(),
                found@.map_values(|a: &Aisle| *a) == all,
                all == pair_aisles(self.spec_aisles(), *pair),
                forall|j: int| 0 <= j < i ==> all[j].locked,
            decreases found@.len() - i,
        {
            assert(found@.map_values(|a: &Aisle| *a)[i as int] == *found@[i as int]);
            if !found[i].locked {
                assert(!all[i as int].locked);
                return true;
            }
            i = i + 1;
        }
        assert(found@.map_values(|a: &Aisle| *a).len() == found@.len());
        false
    }

    /// Sets the lock of each aisle numbered in `nums` to `locked`.
    pub fn set_locks(&mut self, nums: &Vec<u32>, locked: bool)
        ensures
            final(self).spec_letter() == old(self).spec_letter(),
            final(self).spec_aisles() == lock_all(old(self).spec_aisles(), nums@, locked),
            final(self).spec_pairs() == old(self).spec_pairs(),
            final(self).wf(),
            aisles_records(final(self).spec_aisles()) == aisles_records(old(self).spec_aisles()),
            aisles_packages(final(self).spec_aisles()) == aisles_packages(
                old(self).spec_aisles(),
            ),
    {
        proof {
            use_type_invariant(&*self);
        }
        let mut tmp = Cluster::new(self.cluster);
        core::mem::swap(self, &mut tmp);
        let Cluster { cluster, mut aisles, aisle_pairs, pair_starts } = tmp;
        let ghost before = aisles@;
        let ghost after = lock_all(before, nums@, locked);
        let mut i: usize = 0;
        while i < aisles.len()
            invariant
                i <= aisles@.len(),
                aisles@.len() == before.len(),
                after == lock_all(before, nums@, locked),
                forall|j: int| 0 <= j < i ==> aisles@[j] == after[j],
                forall|j: int| i <= j < aisles@.len() ==> aisles@[j] == before[j],
            decreases aisles@.len() - i,
        {
            if has_number(nums, aisles[i].aisle_num) {
                aisles[i].locked = locked;
            }
            i = i + 1;
        }
        proof {
            assert(aisles@ =~= after);
            lemma_lock_all_sums(before, nums@, locked);
        }
        *self = Cluster { cluster, aisles, aisle_pairs, pair_starts };
    }

    /// Turns the lock of the aisle numbered `aisle_num` over; `false`
    /// where the cluster has no such aisle.
    pub fn toggle_aisle_lock(&mut self, aisle_num: u32) -> (r: bool)
        ensures
            r == (aisle_at(old(self).spec_aisles(), aisle_num as int) is Some),
            final(self).wf(),
            final(self).spec_letter() == old(self).spec_letter(),
            final(self).spec_pairs() == old(self).spec_pairs(),
            r ==> final(self).spec_aisles() == lock_all(
                old(self).spec_aisles(),
                seq![aisle_num],
                !aisle_at(old(self).spec_aisles(), aisle_num as int)->Some_0.locked,
            ),
            !r ==> final(self).spec_aisles() == old(self).spec_aisles(),
            aisles_records(final(self).spec_aisles()) == aisles_records(old(self).spec_aisles()),
            aisles_packages(final(self).spec_aisles()) == aisles_packages(
                old(self).spec_aisles(),
            ),
    {
        proof {
            use_type_invariant(&*self);
        }
        let i = find_aisle(&self.aisles, aisle_num);
        if i < self.aisles.len() {
            let locked: bool = !self.aisles[i].locked;
            let mut nums: Vec<u32> = Vec::new();
            nums.push(aisle_num);
            assert(nums@ =~= seq![aisle_num]);
            self.set_locks(&nums, locked);
            true
        } else {
            false
        }
    }

    /// Whether one of the pairs from index `from` up to, not including,
    /// index `to` names a locked aisle.
    pub(crate) fn pairs_are_locked(&self, from: usize, to: usize) -> (r: bool)
        requires
            from <= to <= self@.pairs.len(),
        ensures
            r == self@.window_locked(from as int, to as int),
    {
        let ghost sub = self@.pairs.subrange(from as int, to as int);
        let mut t: usize = from;
        while t < to
            invariant
                from <= t <= to <= self.aisle_pairs@.len(),
                sub == self@.pairs.subrange(from as int, to as int),
                forall|u: int| 0 <= u < t - from ==> !pair_locked(self@.aisles, sub[u]),
            decreases to - t,
        {
            assert(sub[t - from] == self.aisle_pairs@[t as int]);
            if self.pair_is_locked(&self.aisle_pairs[t]) {
                return true;
            }
            t = t + 1;
        }
        false
    }

    /// The unlocked slot of the aisles of the pairs from index `from` up
    /// to, not including, index `to`.
    pub(crate) fn slot_of_pairs(&self, from: usize, to: usize, hours: Hours) -> (r: StowSlot)
        requires
            from <= to <= self@.pairs.len(),
        ensures
            r@ == self@.window(from as int, to as int, hours.spec_millis()),
    {
        proof {
            use_type_invariant(self);
        }
        let ghost aisles = self.aisles@;
        let ghost pairs = self.aisle_pairs@;
        let mut nums: Vec<u32> = Vec::new();
        let mut total: i128 = 0;
        let ghost mut end: int = 0;
        let mut t: usize = from;
        proof {
            assert(pairs.subrange(from as int, from as int) =~= Seq::<AislePair>::empty());
            assert(nums@ =~= numbers(pairs_aisles(aisles, pairs.subrange(from as int, t as int))));
            assert(aisles.take(0) =~= Seq::<Aisle>::empty());
        }
        while t < to
            invariant
                from <= t <= to <= pairs.len(),
                aisles == self.aisles@,
                pairs == self.aisle_pairs@,
                ascending(aisles),
                linked(aisles, pairs, self.pair_starts@),
                aisles_records(aisles) <= usize::MAX,
                nums@ == numbers(pairs_aisles(aisles, pairs.subrange(from as int, t as int))),
                total == aisles_packages(pairs_aisles(aisles, pairs.subrange(from as int, t as int))),
                0 <= end <= aisles.len(),
                t < pairs.len() ==> end <= self.pair_starts@[t as int],
                -crate::aisle::count_bound(aisles_records(aisles.take(end)) as int) <= total
                    <= crate::aisle::count_bound(aisles_records(aisles.take(end)) as int),
            decreases to - t,
        {
            let s: usize = self.pair_starts[t];
            let pair: AislePair = self.aisle_pairs[t];
            assert(pair.aisle2 is Some ==> s + 1 < self.aisles.len());
            let ghost before = pairs_aisles(aisles, pairs.subrange(from as int, t as int));
            let ghost size = pair_size(pair);
            proof {
                let sub = pairs.subrange(from as int, t + 1);
                assert(sub.drop_last() =~= pairs.subrange(from as int, t as int));
                assert(sub.last() == pair);
                assert(pair.aisle1 == Some(aisles[s as int].aisle_num));
                lemma_aisle_index(aisles, aisles[s as int].aisle_num as int, s as int);
                lemma_aisles_prefix(aisles, end, s as int);
                lemma_aisles_take(aisles, s as int);
                lemma_packages_bound(aisles[s as int].bag_records@);
                lemma_aisles_one(aisles[s as int]);
                lemma_aisles_prefix(aisles, s + 1, s + 1);
                if pair.aisle2 is Some {
                    lemma_aisle_index(aisles, aisles[s + 1].aisle_num as int, s + 1);
                    lemma_aisles_take(aisles, s + 1);
                    lemma_packages_bound(aisles[s + 1].bag_records@);
                    lemma_aisles_one(aisles[s + 1]);
                    lemma_aisles_prefix(aisles, s + 2, s + 2);
                    assert(pair_aisles(aisles, pair) =~= seq![aisles[s as int]] + seq![
                        aisles[s + 1],
                    ]);
                    lemma_aisles_concat(seq![aisles[s as int]], seq![aisles[s + 1]]);
                } else {
                    assert(pair_aisles(aisles, pair) =~= seq![aisles[s as int]]);
                }
                lemma_aisles_concat(before, pair_aisles(aisles, pair));
                assert(numbers(before + pair_aisles(aisles, pair)) =~= numbers(before) + numbers(
                    pair_aisles(aisles, pair),
                ));
            }
            nums.push(self.aisles[s].aisle_num);
            total = total + self.aisles[s].total_packages();
            if pair.aisle2.is_some() {
                nums.push(self.aisles[s + 1].aisle_num);
                total = total + self.aisles[s + 1].total_packages();
            }
            proof {
                end = s + size;
                assert(nums@ =~= numbers(before) + numbers(pair_aisles(aisles, pair)));
            }
            t = t + 1;
        }
        StowSlot::from_parts(self.cluster, nums, total, hours)
    }

    /// A cluster without aisles.
    pub fn new(cluster: char) -> (r: Cluster)
        ensures
            r@.letter == cluster,
            r@.aisles.len() == 0,
            r@.pairs.len() == 0,
            r.wf(),
    {
        Cluster { cluster, aisles: Vec::new(), aisle_pairs: Vec::new(), pair_starts: Vec::new() }
    }

    /// A cluster of one aisle that holds one record.
    pub(crate) fn with_record(bag: BagRecord) -> (r: Cluster)
        ensures
            r.spec_letter() == bag.sort_zone.cluster,
            r.spec_aisles().len() == 1,
            r.spec_aisles()[0].aisle_num == bag.sort_zone.aisle,
            r.spec_aisles()[0].bag_records@ == seq![bag],
            !r.spec_aisles()[0].locked,
            aisles_records(r.spec_aisles()) == 1,
            aisles_packages(r.spec_aisles()) == bag.planned_package_count,
            r.wf(),
    {
        let mut records: Vec<BagRecord> = Vec::new();
        records.push(bag);
        let aisle = Aisle {
            cluster: bag.sort_zone.cluster,
            aisle_num: bag.sort_zone.aisle,
            bag_records: records,
            locked: false,
        };
        let mut aisles: Vec<Aisle> = Vec::new();
        aisles.push(aisle);
        let (aisle_pairs, pair_starts) = compute_pairs(&aisles);
        proof {
            assert(aisles@ =~= seq![aisles@[0]]);
            crate::aisle::lemma_aisles_one(aisles@[0]);
            assert(aisles@[0].bag_records@ =~= seq![bag]);
            assert(seq![bag].drop_last() =~= Seq::<BagRecord>::empty());
            assert(packages(seq![bag]) == bag.planned_package_count) by {
                assert(packages(seq![bag].drop_last()) == 0);
            }
        }
        Cluster { cluster: bag.sort_zone.cluster, aisles, aisle_pairs, pair_starts }
    }

    /// Files one more record of this cluster under its aisle, which is
    /// made where the cluster has none of that number.
    pub(crate) fn add_record(&mut self, bag: BagRecord)
        requires
            aisles_records(old(self).spec_aisles()) < usize::MAX,
            bag.sort_zone.cluster == old(self).spec_letter(),
        ensures
            final(self).wf(),
            final(self).spec_letter() == old(self).spec_letter(),
            aisles_records(final(self).spec_aisles()) == aisles_records(old(self).spec_aisles())
                + 1,
            aisles_packages(final(self).spec_aisles()) == aisles_packages(
                old(self).spec_aisles(),
            ) + bag.planned_package_count,
            forall|m: int|
                #[trigger] records_at(final(self).spec_aisles(), m) == if m == bag.sort_zone.aisle {
                    records_at(old(self).spec_aisles(), m).push(bag)
                } else {
                    records_at(old(self).spec_aisles(), m)
                },
            fresh(old(self).spec_aisles()) ==> fresh(final(self).spec_aisles()),
    {
        proof {
            use_type_invariant(&*self);
        }
        let n: u32 = bag.sort_zone.aisle;
        let mut tmp = Cluster::new(self.cluster);
        core::mem::swap(self, &mut tmp);
        let Cluster { cluster, mut aisles, aisle_pairs, pair_starts } = tmp;
        let ghost before = aisles@;
        let mut p: usize = 0;
        while p < aisles.len() && aisles[p].aisle_num < n
            invariant
                p <= aisles@.len(),
                forall|j: int| 0 <= j < p ==> (#[trigger] aisles@[j]).aisle_num < n,
            decreases aisles@.len() - p,
        {
            p = p + 1;
        }
        if p < aisles.len() && aisles[p].aisle_num == n {
            aisles[p].bag_records.push(bag);
            proof {
                let a = aisles@[p as int];
                assert(aisles@ =~= before.update(p as int, a));
                lemma_aisles_update(before, p as int, a);
                assert(a.bag_records@.drop_last() =~= before[p as int].bag_records@);
                assert(numbers(aisles@) =~= numbers(before));
                assert forall|m: int| #[trigger]
                    records_at(aisles@, m) == if m == n {
                        records_at(before, m).push(bag)
                    } else {
                        records_at(before, m)
                    } by {
                    lemma_aisle_index_found(before, m);
                    lemma_aisle_index(aisles@, m, aisle_index(before, m));
                }
            }
            *self = Cluster { cluster, aisles, aisle_pairs, pair_starts };
        } else {
            let mut records: Vec<BagRecord> = Vec::new();
            records.push(bag);
            let aisle = Aisle { cluster, aisle_num: n, bag_records: records, locked: false };
            aisles.insert(p, aisle);
            let (pairs, starts) = compute_pairs(&aisles);
            proof {
                let a = aisles@[p as int];
                assert(aisles@ =~= before.insert(p as int, a));
                lemma_aisles_insert(before, p as int, a);
                assert(a.bag_records@ =~= seq![bag]);
                assert(seq![bag].drop_last() =~= Seq::<BagRecord>::empty());
                assert(packages(seq![bag]) == bag.planned_package_count) by {
                    assert(packages(seq![bag].drop_last()) == 0);
                }
                assert forall|m: int| #[trigger]
                    records_at(aisles@, m) == if m == n {
                        records_at(before, m).push(bag)
                    } else {
                        records_at(before, m)
                    } by {
                    lemma_aisle_index_found(before, m);
                    let k = aisle_index(before, m);
                    if m == n {
                        lemma_aisle_index(before, m, before.len() as int);
                        lemma_aisle_index(aisles@, m, p as int);
                        assert(records_at(before, m).push(bag) =~= seq![bag]);
                    } else if k < p {
                        lemma_aisle_index(aisles@, m, k);
                    } else {
                        lemma_aisle_index(aisles@, m, k + 1);
                    }
                }
            }
            *self = Cluster { cluster, aisles, aisle_pairs: pairs, pair_starts: starts };
        }
    }
}

impl AislePair {
    /// The planned packages of the aisles of `cluster` that this pair names.
    pub fn total_packages(&self, cluster: &Cluster) -> (r: i128)
        ensures
            r == aisles_packages(pair_aisles(cluster.spec_aisles(), *self)),
    {
        let found = cluster.get_aisles_from_pair(self);
        let ghost all = pair_aisles(cluster.spec_aisles(), *self);
        assert(found@.map_values(|a: &Aisle| *a).len() == found@.len());
        assert(all.len() <= 2);
        let mut total: i128 = 0;
        let mut i: usize = 0;
        while i < found.len()
            invariant
                i <= found@.len() <= 2,
                found@.map_values(|a: &Aisle| *a) == all,
                total == aisles_packages(all.take(i as int)),
                -0x1_0000_0000_0000_0000_0000_0000 * i <= total <= 0x1_0000_0000_0000_0000_0000_0000
                    * i,
            decreases found@.len() - i,
        {
            proof {
                assert(found@.map_values(|a: &Aisle| *a)[i as int] == *found@[i as int]);
                lemma_aisles_take(all, i as int);
                assert(usize::MAX <= 0xffff_ffff_ffff_ffff);
            }
            total = total + found[i].total_packages();
            i = i + 1;
        }
        assert(all.take(i as int) =~= all);
        total
    }
}

} // verus!

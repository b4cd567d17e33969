//! The floor: every cluster of the plan, in the order in which the plan
//! first names them.

use vstd::prelude::*;
use crate::aisle::{
    Aisle, AislePair, BagRecord, aisle_at, aisles_packages, aisles_records, fresh,
    lemma_aisle_index_found, lemma_aisles_bound, packages, records_at,
};
use crate::cluster::{Cluster, ClusterView, lock_all, numbers, pairs_of};
use crate::plan::{built_from, first_letters, matching};
use crate::hours::{Hours, Rate};

verus! {

/// The letters of a run of clusters, in its order.
pub open spec fn letters(clusters: Seq<ClusterView>) -> Seq<char> {
    clusters.map_values(|c: ClusterView| c.letter)
}

/// The planned packages of a run of clusters, summed.
pub open spec fn clusters_packages(clusters: Seq<ClusterView>) -> int
    decreases clusters.len(),
{
    if clusters.len() == 0 {
        0
    } else {
        clusters_packages(clusters.drop_last()) + aisles_packages(clusters.last().aisles)
    }
}

/// The number of records that a run of clusters holds.
pub open spec fn clusters_records(clusters: Seq<ClusterView>) -> nat
    decreases clusters.len(),
{
    if clusters.len() == 0 {
        0
    } else {
        clusters_records(clusters.drop_last()) + aisles_records(clusters.last().aisles)
    }
}

/// The index of the first cluster lettered `letter`, or the length of
/// `clusters` where none is.
pub open spec fn cluster_index(clusters: Seq<ClusterView>, letter: char) -> int
    decreases clusters.len(),
{
    if clusters.len() == 0 {
        0
    } else {
        let before = cluster_index(clusters.drop_last(), letter);
        if before < clusters.len() - 1 {
            before
        } else if clusters.last().letter == letter {
            clusters.len() - 1
        } else {
            clusters.len() as int
        }
    }
}

/// The first cluster lettered `letter`, if there is one.
pub open spec fn cluster_at(clusters: Seq<ClusterView>, letter: char) -> Option<ClusterView> {
    let i = cluster_index(clusters, letter);
    if i < clusters.len() {
        Some(clusters[i])
    } else {
        None
    }
}

/// The aisle numbered `aisle_num` of the cluster lettered `letter`, if
/// the floor has it.
pub open spec fn floor_aisle_at(clusters: Seq<ClusterView>, letter: char, aisle_num: int) -> Option<
    Aisle,
> {
    match cluster_at(clusters, letter) {
        Some(c) => aisle_at(c.aisles, aisle_num),
        None => None,
    }
}

/// The records of that aisle; none where the floor has no such aisle.
pub open spec fn floor_records_at(clusters: Seq<ClusterView>, letter: char, aisle_num: int) -> Seq<
    BagRecord,
> {
    match cluster_at(clusters, letter) {
        Some(c) => records_at(c.aisles, aisle_num),
        None => Seq::empty(),
    }
}

/// No two clusters share a letter.
pub open spec fn distinct_letters(clusters: Seq<ClusterView>) -> bool {
    forall|i: int, j: int| 0 <= i < j < clusters.len() ==> clusters[i].letter != clusters[j].letter
}

/// What holds of every floor: no two clusters share a letter, each
/// cluster is well formed, and the records can be counted.
pub open spec fn floor_wf(clusters: Seq<ClusterView>) -> bool {
    &&& distinct_letters(clusters)
    &&& forall|i: int| 0 <= i < clusters.len() ==> (#[trigger] clusters[i]).wf()
    &&& clusters_records(clusters) <= usize::MAX
}

/// `cluster_index` gives `k` where no cluster before `k` has the letter
/// and the cluster at `k`, if there is one, does.
pub proof fn lemma_cluster_index(clusters: Seq<ClusterView>, letter: char, k: int)
    requires
        0 <= k <= clusters.len(),
        forall|j: int| 0 <= j < k ==> clusters[j].letter != letter,
        k < clusters.len() ==> clusters[k].letter == letter,
    ensures
        cluster_index(clusters, letter) == k,
    decreases clusters.len(),
{
    if clusters.len() > 0 {
        let t = clusters.drop_last();
        if k < clusters.len() - 1 {
            lemma_cluster_index(t, letter, k);
        } else {
            lemma_cluster_index(t, letter, clusters.len() - 1);
        }
    }
}

/// What `cluster_index` gives: no cluster before it has the letter, and
/// the cluster at it, if there is one, does.
pub proof fn lemma_cluster_index_found(clusters: Seq<ClusterView>, letter: char)
    ensures
        0 <= cluster_index(clusters, letter) <= clusters.len(),
        forall|j: int|
            0 <= j < cluster_index(clusters, letter) ==> (#[trigger] clusters[j]).letter != letter,
        cluster_index(clusters, letter) < clusters.len() ==> clusters[cluster_index(
            clusters,
            letter,
        )].letter == letter,
    decreases clusters.len(),
{
    if clusters.len() > 0 {
        let t = clusters.drop_last();
        lemma_cluster_index_found(t, letter);
        assert forall|j: int| 0 <= j < cluster_index(clusters, letter) implies (
        #[trigger] clusters[j]).letter != letter by {
            if j < t.len() {
                assert(t[j] == clusters[j]);
            }
        }
    }
}

/// The records and packages of two runs of clusters joined are those
/// of both.
pub proof fn lemma_clusters_concat(a: Seq<ClusterView>, b: Seq<ClusterView>)
    ensures
        clusters_records(a + b) == clusters_records(a) + clusters_records(b),
        clusters_packages(a + b) == clusters_packages(a) + clusters_packages(b),
    decreases b.len(),
{
    if b.len() == 0 {
        assert(a + b =~= a);
    } else {
        assert((a + b).drop_last() =~= a + b.drop_last());
        lemma_clusters_concat(a, b.drop_last());
    }
}

/// The records and packages of one cluster taken as a run.
pub proof fn lemma_clusters_one(c: ClusterView)
    ensures
        clusters_records(seq![c]) == aisles_records(c.aisles),
        clusters_packages(seq![c]) == aisles_packages(c.aisles),
{
    assert(seq![c].drop_last() =~= Seq::<ClusterView>::empty());
    assert(clusters_records(seq![c].drop_last()) == 0);
    assert(clusters_packages(seq![c].drop_last()) == 0);
    assert(seq![c].last() == c);
}

/// Replacing the cluster at `i` changes the sums by the difference of
/// the two clusters.
pub proof fn lemma_clusters_update(clusters: Seq<ClusterView>, i: int, c: ClusterView)
    requires
        0 <= i < clusters.len(),
    ensures
        clusters_records(clusters.update(i, c)) == clusters_records(clusters) - aisles_records(
            clusters[i].aisles,
        ) + aisles_records(c.aisles),
        clusters_packages(clusters.update(i, c)) == clusters_packages(clusters) - aisles_packages(
            clusters[i].aisles,
        ) + aisles_packages(c.aisles),
        aisles_records(clusters[i].aisles) <= clusters_records(clusters),
{
    let front = clusters.take(i);
    let back = clusters.skip(i + 1);
    assert(clusters =~= front + seq![clusters[i]] + back);
    assert(clusters.update(i, c) =~= front + seq![c] + back);
    lemma_clusters_one(c);
    lemma_clusters_one(clusters[i]);
    lemma_clusters_concat(front, seq![clusters[i]]);
    lemma_clusters_concat(front + seq![clusters[i]], back);
    lemma_clusters_concat(front, seq![c]);
    lemma_clusters_concat(front + seq![c], back);
}

/// One more cluster at the end of a prefix adds its records and
/// packages, and no prefix holds more records than the whole.
pub proof fn lemma_clusters_take(clusters: Seq<ClusterView>, k: int)
    requires
        0 <= k < clusters.len(),
    ensures
        clusters_records(clusters.take(k + 1)) == clusters_records(clusters.take(k))
            + aisles_records(clusters[k].aisles),
        clusters_packages(clusters.take(k + 1)) == clusters_packages(clusters.take(k))
            + aisles_packages(clusters[k].aisles),
        clusters_records(clusters.take(k + 1)) <= clusters_records(clusters),
    decreases clusters.len() - k,
{
    assert(clusters.take(k + 1).drop_last() =~= clusters.take(k));
    if k + 1 < clusters.len() {
        lemma_clusters_take(clusters, k + 1);
    } else {
        assert(clusters.take(k + 1) =~= clusters);
    }
}

/// A run of clusters holds no more packages, in either direction, than
/// the number of its records allows.
pub proof fn lemma_clusters_bound(clusters: Seq<ClusterView>)
    ensures
        -crate::aisle::count_bound(clusters_records(clusters) as int) <= clusters_packages(
            clusters,
        ) <= crate::aisle::count_bound(clusters_records(clusters) as int),
    decreases clusters.len(),
{
    if clusters.len() > 0 {
        lemma_clusters_bound(clusters.drop_last());
        lemma_aisles_bound(clusters.last().aisles);
    }
}

/// The aisle numbers `nums`, each with the cluster letter `letter`.
pub open spec fn keyed(letter: char, nums: Seq<u32>) -> Seq<(char, u32)> {
    nums.map_values(|n: u32| (letter, n))
}

/// The aisles of the first `upto` clusters, cluster after cluster.
pub open spec fn floor_keys(clusters: Seq<ClusterView>, upto: int) -> Seq<(char, u32)>
    decreases upto,
{
    if upto <= 0 {
        Seq::empty()
    } else {
        floor_keys(clusters, upto - 1) + keyed(
            clusters[upto - 1].letter,
            numbers(clusters[upto - 1].aisles),
        )
    }
}

/// The pairs of a run of clusters, cluster after cluster.
pub open spec fn all_pairs(clusters: Seq<ClusterView>) -> Seq<AislePair>
    decreases clusters.len(),
{
    if clusters.len() == 0 {
        Seq::empty()
    } else {
        all_pairs(clusters.drop_last()) + clusters.last().pairs
    }
}

/// The floor with the lock of each aisle of cluster `letter` that is
/// numbered in `nums` set to `locked`.
pub open spec fn lock_floor(
    clusters: Seq<ClusterView>,
    letter: char,
    nums: Seq<u32>,
    locked: bool,
) -> Seq<ClusterView> {
    let i = cluster_index(clusters, letter);
    if i < clusters.len() {
        clusters.update(
            i,
            ClusterView {
                letter: clusters[i].letter,
                aisles: lock_all(clusters[i].aisles, nums, locked),
                pairs: clusters[i].pairs,
            },
        )
    } else {
        clusters
    }
}

/// The side on which a neighbouring aisle is looked for.
#[derive(Clone, Copy, Debug, PartialEq, Eq, Structural)]
pub enum Direction {
    Previous,
    Next,
}

/// The number of the aisle next to `aisle_num` on the given side; it may
/// be a number that no aisle can carry.
pub open spec fn neighbor_number(aisle_num: u32, direction: Direction) -> int {
    match direction {
        Direction::Previous => aisle_num - 1,
        Direction::Next => aisle_num + 1,
    }
}

/// A warehouse floor.
#[derive(Debug)]
pub struct Floor {
    pub(crate) clusters: Vec<Cluster>,
}

/// What a run of clusters holds.
pub open spec fn views(clusters: Seq<Cluster>) -> Seq<ClusterView> {
    clusters.map_values(|c: Cluster| c@)
}

/// The index of the first cluster lettered `letter`.
pub(crate) fn find_cluster(clusters: &Vec<Cluster>, letter: char) -> (r: usize)
    ensures
        r == cluster_index(views(clusters@), letter),
        r <= clusters@.len(),
        r < clusters@.len() ==> clusters@[r as int]@.letter == letter,
        forall|j: int| 0 <= j < r ==> (#[trigger] clusters@[j])@.letter != letter,
{
    let mut i: usize = 0;
    while i < clusters.len() && clusters[i].letter() != letter
        invariant
            i <= clusters@.len(),
            forall|j: int| 0 <= j < i ==> (#[trigger] clusters@[j])@.letter != letter,
        decreases clusters@.len() - i,
    {
        i = i + 1;
    }
    proof {
        lemma_cluster_index(views(clusters@), letter, i as int);
    }
    i
}

impl View for Floor {
    type V = Seq<ClusterView>;

    closed spec fn view(&self) -> Seq<ClusterView> {
        views(self.clusters@)
    }
}

impl Floor {
    #[verifier::type_invariant]
    pub closed spec fn inv(self) -> bool {
        floor_wf(views(self.clusters@))
    }

    /// What holds of every floor.
    pub open spec fn wf(self) -> bool {
        floor_wf(self@)
    }

    /// The planned packages of the whole floor.
    pub open spec fn packages(self) -> int {
        clusters_packages(self@)
    }

    /// Folds the records of a plan into a floor: its clusters in the
    /// order of first mention, its aisles in ascending order, each with
    /// its records in the order of the plan. The floor holds as many
    /// packages as the plan.
    pub fn new(bags: Vec<BagRecord>) -> (r: Floor)
        ensures
            built_from(r@, bags@),
            r.packages() == packages(bags@),
            clusters_records(r@) == bags@.len(),
    {
        let mut clusters: Vec<Cluster> = Vec::new();
        let mut i: usize = 0;
        proof {
            assert(views(clusters@) =~= Seq::<ClusterView>::empty());
            assert(letters(views(clusters@)) =~= first_letters(bags@.take(0)));
        }
        while i < bags.len()
            invariant
                i <= bags@.len(),
                floor_wf(views(clusters@)),
                clusters_records(views(clusters@)) == i,
                clusters_packages(views(clusters@)) == packages(bags@.take(i as int)),
                letters(views(clusters@)) == first_letters(bags@.take(i as int)),
                forall|c: char, n: int| #[trigger]
                    floor_records_at(views(clusters@), c, n) == matching(
                        bags@.take(i as int),
                        c,
                        n,
                    ),
                forall|k: int| 0 <= k < clusters@.len() ==> fresh((#[trigger] clusters@[k])@.aisles),
            decreases bags@.len() - i,
        {
            let bag: BagRecord = bags[i];
            let ghost before = views(clusters@);
            let ghost done = bags@.take(i as int);
            let ghost next = bags@.take(i + 1);
            let ghost c0 = bag.sort_zone.cluster;
            let ghost n0 = bag.sort_zone.aisle as int;
            proof {
                assert(next.drop_last() =~= done);
                assert(next.last() == bag);
            }
            let ci = find_cluster(&clusters, bag.sort_zone.cluster);
            if ci < clusters.len() {
                proof {
                    lemma_clusters_update(before, ci as int, before[ci as int]);
                    assert(before[ci as int] == clusters@[ci as int]@);
                }
                clusters[ci].add_record(bag);
                proof {
                    let after = views(clusters@);
                    let changed = clusters@[ci as int]@;
                    assert(after =~= before.update(ci as int, changed));
                    lemma_clusters_update(before, ci as int, changed);
                    assert(letters(after) =~= letters(before));
                    assert(letters(before)[ci as int] == c0);
                    assert forall|c: char, n: int| #[trigger]
                        floor_records_at(after, c, n) == matching(next, c, n) by {
                        lemma_cluster_index_found(before, c);
                        lemma_cluster_index(after, c, cluster_index(before, c));
                        assert(floor_records_at(before, c, n) == matching(done, c, n));
                        if c == c0 {
                            lemma_cluster_index(before, c, ci as int);
                            assert(records_at(changed.aisles, n) == if n == n0 {
                                records_at(before[ci as int].aisles, n).push(bag)
                            } else {
                                records_at(before[ci as int].aisles, n)
                            });
                        }
                    }
                    assert forall|k: int| 0 <= k < clusters@.len() implies fresh(
                        (#[trigger] clusters@[k])@.aisles,
                    ) by {
                        if k != ci {
                            assert(after[k] == before[k]);
                        }
                    }
                }
            } else {
                let made = Cluster::with_record(bag);
                clusters.push(made);
                proof {
                    let after = views(clusters@);
                    let added = clusters@[ci as int]@;
                    assert(after =~= before.push(added));
                    assert(after =~= before + seq![added]);
                    lemma_clusters_one(added);
                    lemma_clusters_concat(before, seq![added]);
                    assert(letters(after) =~= letters(before).push(c0));
                    assert(!letters(before).contains(c0)) by {
                        if letters(before).contains(c0) {
                            let j = choose|j: int|
                                0 <= j < letters(before).len() && letters(before)[j] == c0;
                            assert(clusters@[j]@.letter == c0);
                        }
                    }
                    assert forall|c: char, n: int| #[trigger]
                        floor_records_at(after, c, n) == matching(next, c, n) by {
                        lemma_cluster_index_found(before, c);
                        assert(floor_records_at(before, c, n) == matching(done, c, n));
                        if c == c0 {
                            lemma_cluster_index(before, c, before.len() as int);
                            lemma_cluster_index(after, c, ci as int);
                            lemma_aisle_index_found(added.aisles, n);
                            crate::aisle::lemma_aisle_index(
                                added.aisles,
                                n,
                                if n == n0 {
                                    0
                                } else {
                                    1
                                },
                            );
                            assert(matching(done, c, n) =~= Seq::<BagRecord>::empty());
                            if n == n0 {
                                assert(matching(next, c, n) =~= seq![bag]);
                            }
                        } else {
                            let k = cluster_index(before, c);
                            if k < before.len() {
                                lemma_cluster_index(after, c, k);
                            } else {
                                lemma_cluster_index(after, c, after.len() as int);
                            }
                        }
                    }
                    assert forall|k: int| 0 <= k < clusters@.len() implies fresh(
                        (#[trigger] clusters@[k])@.aisles,
                    ) by {
                        if k != ci {
                            assert(after[k] == before[k]);
                        }
                    }
                    assert(distinct_letters(after));
                }
            }
            i = i + 1;
        }
        proof {
            assert(bags@.take(i as int) =~= bags@);
            let cs = views(clusters@);
            assert forall|c: char, n: int|
                ((#[trigger] floor_aisle_at(cs, c, n)) is Some <==> matching(bags@, c, n).len() > 0)
                    && (floor_aisle_at(cs, c, n) matches Some(a) ==> a.cluster == c && a.aisle_num
                    == n && !a.locked) by {
                lemma_cluster_index_found(cs, c);
                assert(floor_records_at(cs, c, n) == matching(bags@, c, n));
                let k = cluster_index(cs, c);
                if k < cs.len() {
                    lemma_aisle_index_found(cs[k].aisles, n);
                    assert(cs[k] == clusters@[k]@);
                    assert(fresh(clusters@[k]@.aisles));
                    assert(cs[k].wf());
                }
            }
        }
        Floor { clusters }
    }

    /// The clusters of this floor, in the order of first mention.
    pub fn clusters(&self) -> (r: &Vec<Cluster>)
        ensures
            views(r@) == self@,
            self.wf(),
    {
        proof {
            use_type_invariant(self);
        }
        &self.clusters
    }

    /// The hourly rate of the whole floor over the given working time.
    pub fn packages_per_hour(&self, hours: Hours) -> (r: Rate)
        ensures
            r.packages == self.packages(),
            r.hours == hours,
    {
        Rate { packages: self.get_total_packages(), hours }
    }

    /// The aisle numbered `aisle` of cluster `cluster`, if the floor has it.
    pub fn get_aisle_in_cluster(&self, cluster: char, aisle: u32) -> (r: Option<&Aisle>)
        ensures
            r is Some <==> floor_aisle_at(self@, cluster, aisle as int) is Some,
            r matches Some(a) ==> floor_aisle_at(self@, cluster, aisle as int) == Some(*a)
                && a.cluster == cluster && a.aisle_num == aisle,
    {
        proof {
            use_type_invariant(self);
        }
        match self.get_cluster(cluster) {
            Some(c) => {
                let found = c.get_aisle(aisle);
                proof {
                    lemma_aisle_index_found(c@.aisles, aisle as int);
                }
                found
            },
            None => None,
        }
    }

    /// The cluster lettered `cluster`, if the floor has it.
    pub fn get_cluster(&self, cluster: char) -> (r: Option<&Cluster>)
        ensures
            r is Some <==> cluster_at(self@, cluster) is Some,
            r matches Some(c) ==> cluster_at(self@, cluster) == Some(c@) && c@.letter == cluster
                && c.wf(),
    {
        proof {
            use_type_invariant(self);
        }
        let i = find_cluster(&self.clusters, cluster);
        if i < self.clusters.len() {
            assert(self@[i as int] == self.clusters@[i as int]@);
            Some(&self.clusters[i])
        } else {
            None
        }
    }

    /// The cluster lettered `cluster`, if the floor has it.
    pub fn cluster(&self, cluster: char) -> (r: Option<&Cluster>)
        ensures
            r is Some <==> cluster_at(self@, cluster) is Some,
            r matches Some(c) ==> cluster_at(self@, cluster) == Some(c@) && c@.letter == cluster
                && c.wf(),
    {
        self.get_cluster(cluster)
    }

    /// The aisle of cluster `cluster` that is numbered exactly one lower
    /// or one higher than `aisle_num`. It is never an aisle of another
    /// cluster and never one further away.
    pub fn neighbor(&self, cluster: char, aisle_num: u32, direction: Direction) -> (r: Option<
        &Aisle,
    >)
        ensures
            r is Some <==> floor_aisle_at(self@, cluster, neighbor_number(aisle_num, direction))
                is Some,
            r matches Some(a) ==> floor_aisle_at(
                self@,
                cluster,
                neighbor_number(aisle_num, direction),
            ) == Some(*a) && a.cluster == cluster && a.aisle_num == neighbor_number(
                aisle_num,
                direction,
            ),
    {
        match self.get_cluster(cluster) {
            Some(c) => match direction {
                Direction::Previous => c.get_previous_aisle(aisle_num),
                Direction::Next => c.get_next_aisle(aisle_num),
            },
            None => None,
        }
    }

    /// The planned packages of the whole floor, summed.
    pub fn get_total_packages(&self) -> (r: i128)
        ensures
            r == self.packages(),
    {
        proof {
            use_type_invariant(self);
        }
        let mut total: i128 = 0;
        let mut i: usize = 0;
        while i < self.clusters.len()
            invariant
                i <= self.clusters@.len(),
                self@ == views(self.clusters@),
                clusters_records(self@) <= usize::MAX,
                total == clusters_packages(self@.take(i as int)),
            decreases self.clusters@.len() - i,
        {
            proof {
                lemma_clusters_take(self@, i as int);
                lemma_clusters_bound(self@.take(i as int));
                lemma_clusters_bound(self@.take(i + 1));
            }
            total = total + self.clusters[i].get_total_packages();
            i = i + 1;
        }
        assert(self@.take(i as int) =~= self@);
        total
    }

    /// The planned packages of the whole floor, as `get_total_packages`
    /// gives them.
    pub fn get_total_stow_slots(&self) -> (r: i128)
        ensures
            r == self.packages(),
    {
        self.get_total_packages()
    }

    /// Rebuilds the pairs of every cluster from its aisles: afterwards each
    /// cluster has, for each of its odd aisles in ascending order, one
    /// pair of that aisle and of the aisle numbered one higher, where the
    /// cluster has it. Letters, aisles and locks stay; as the pairs of a
    /// floor are kept current, the floor holds what it held.
    pub fn generate_aisle_pairs(&mut self)
        ensures
            final(self)@.len() == old(self)@.len(),
            forall|i: int|
                0 <= i < old(self)@.len() ==> (#[trigger] final(self)@[i]).letter == old(
                    self,
                )@[i].letter && final(self)@[i].aisles == old(self)@[i].aisles
                    && final(self)@[i].pairs == pairs_of(numbers(old(self)@[i].aisles)),
            final(self)@ == old(self)@,
    {
        proof {
            use_type_invariant(&*self);
        }
        let mut tmp = Floor { clusters: Vec::new() };
        proof {
            assert(views(tmp.clusters@) =~= Seq::<ClusterView>::empty());
        }
        core::mem::swap(self, &mut tmp);
        let Floor { mut clusters } = tmp;
        let ghost before = views(clusters@);
        let mut i: usize = 0;
        while i < clusters.len()
            invariant
                i <= clusters@.len(),
                views(clusters@) == before,
                forall|j: int|
                    0 <= j < i ==> (#[trigger] views(clusters@)[j]).pairs == pairs_of(
                        numbers(before[j].aisles),
                    ),
            decreases clusters@.len() - i,
        {
            assert(before[i as int] == clusters@[i as int]@);
            clusters[i].generate_aisle_pairs();
            assert(views(clusters@) =~= before);
            assert(views(clusters@)[i as int] == clusters@[i as int]@);
            i = i + 1;
        }
        *self = Floor { clusters };
    }

    /// The pairs of every cluster, cluster after cluster.
    pub fn get_all_aisle_pairs(&self) -> (r: Vec<&AislePair>)
        ensures
            r@.map_values(|p: &AislePair| *p) == all_pairs(self@),
    {
        let mut found: Vec<&AislePair> = Vec::new();
        let mut i: usize = 0;
        assert(found@.map_values(|p: &AislePair| *p) =~= all_pairs(self@.take(0)));
        while i < self.clusters.len()
            invariant
                i <= self.clusters@.len(),
                self@ == views(self.clusters@),
                found@.map_values(|p: &AislePair| *p) == all_pairs(self@.take(i as int)),
            decreases self.clusters@.len() - i,
        {
            let pairs = self.clusters[i].aisle_pairs();
            let ghost start = found@.map_values(|p: &AislePair| *p);
            let mut j: usize = 0;
            while j < pairs.len()
                invariant
                    j <= pairs@.len(),
                    found@.map_values(|p: &AislePair| *p) == start + pairs@.take(j as int),
                decreases pairs@.len() - j,
            {
                let ghost prev = found@;
                found.push(&pairs[j]);
                proof {
                    assert(pairs@.take(j + 1) =~= pairs@.take(j as int).push(pairs@[j as int]));
                    assert(found@.map_values(|p: &AislePair| *p) =~= prev.map_values(
                        |p: &AislePair| *p,
                    ).push(pairs@[j as int]));
                    assert(start + pairs@.take(j as int).push(pairs@[j as int]) =~= (start
                        + pairs@.take(j as int)).push(pairs@[j as int]));
                }
                j = j + 1;
            }
            proof {
                assert(pairs@.take(j as int) =~= pairs@);
                assert(self@.take(i + 1).drop_last() =~= self@.take(i as int));
                assert(self@.take(i + 1).last().pairs == pairs@);
            }
            i = i + 1;
        }
        assert(self@.take(i as int) =~= self@);
        found
    }

    /// The clusters of this floor, each on its own.
    pub fn into_clusters(self) -> (r: Vec<Cluster>)
        ensures
            views(r@) == self@,
    {
        self.clusters
    }

    /// This floor behind a shared pointer.
    pub fn to_rc(self) -> (r: std::rc::Rc<Floor>)
        ensures
            (*r)@ == self@,
    {
        std::rc::Rc::new(self)
    }

    /// Sets the lock of each aisle of cluster `cluster` that is numbered
    /// in `nums` to `locked`.
    pub fn set_locks(&mut self, cluster: char, nums: &Vec<u32>, locked: bool)
        ensures
            final(self)@ == lock_floor(old(self)@, cluster, nums@, locked),
    {
        proof {
            use_type_invariant(&*self);
        }
        let mut tmp = Floor { clusters: Vec::new() };
        proof {
            assert(views(tmp.clusters@) =~= Seq::<ClusterView>::empty());
        }
        core::mem::swap(self, &mut tmp);
        let Floor { mut clusters } = tmp;
        let ghost before = views(clusters@);
        let i = find_cluster(&clusters, cluster);
        if i < clusters.len() {
            clusters[i].set_locks(nums, locked);
            proof {
                let after = views(clusters@);
                assert(after =~= lock_floor(before, cluster, nums@, locked));
                lemma_clusters_update(before, i as int, after[i as int]);
            }
        }
        *self = Floor { clusters };
    }

    /// Turns the lock of one aisle over; `false` where the floor has no
    /// such aisle.
    pub fn toggle_lock(&mut self, cluster: char, aisle_num: u32) -> (r: bool)
        ensures
            r == (floor_aisle_at(old(self)@, cluster, aisle_num as int) is Some),
            r ==> final(self)@ == lock_floor(
                old(self)@,
                cluster,
                seq![aisle_num],
                !floor_aisle_at(old(self)@, cluster, aisle_num as int)->Some_0.locked,
            ),
            !r ==> final(self)@ == old(self)@,
    {
        let state: Option<bool> = match self.get_aisle_in_cluster(cluster, aisle_num) {
            Some(a) => Some(a.locked),
            None => None,
        };
        match state {
            Some(locked) => {
                let mut nums: Vec<u32> = Vec::new();
                nums.push(aisle_num);
                assert(nums@ =~= seq![aisle_num]);
                self.set_locks(cluster, &nums, !locked);
                true
            },
            None => false,
        }
    }
}

} // verus!

//! What a floor holds of the plan that it was folded up from.

use vstd::prelude::*;
use crate::aisle::{
    BagRecord, aisles_packages, lemma_aisle_index, lemma_aisle_index_found, lemma_aisles_take,
    lemma_packages_any_order, packages,
};
use crate::cluster::{ClusterView, numbers};
use crate::floor::{
    cluster_index, clusters_packages, floor_aisle_at, floor_keys, floor_records_at, floor_wf,
    keyed, lemma_cluster_index, lemma_cluster_index_found, lemma_clusters_take, letters,
};

verus! {

/// The cluster letters of a plan, each once, in the order in which the
/// records first name them.
pub open spec fn first_letters(records: Seq<BagRecord>) -> Seq<char>
    decreases records.len(),
{
    if records.len() == 0 {
        Seq::empty()
    } else {
        let before = first_letters(records.drop_last());
        if before.contains(records.last().sort_zone.cluster) {
            before
        } else {
            before.push(records.last().sort_zone.cluster)
        }
    }
}

/// The records of a plan that lie in aisle `aisle_num` of cluster
/// `letter`, in the order of the plan.
pub open spec fn matching(records: Seq<BagRecord>, letter: char, aisle_num: int) -> Seq<BagRecord>
    decreases records.len(),
{
    if records.len() == 0 {
        Seq::empty()
    } else {
        let before = matching(records.drop_last(), letter, aisle_num);
        let last = records.last();
        if last.sort_zone.cluster == letter && last.sort_zone.aisle == aisle_num {
            before.push(last)
        } else {
            before
        }
    }
}

/// Whether a floor is the plan `bags` folded up.
///
/// The clusters stand in the order in which the plan first names them. A
/// cluster has one aisle for each aisle number that the plan names with
/// its letter, and the aisle holds the records of that letter and number
/// in the order of the plan. No aisle is locked.
pub open spec fn built_from(clusters: Seq<ClusterView>, bags: Seq<BagRecord>) -> bool {
    &&& floor_wf(clusters)
    &&& letters(clusters) == first_letters(bags)
    &&& forall|c: char, n: int| #[trigger] floor_records_at(clusters, c, n) == matching(bags, c, n)
    &&& forall|c: char, n: int|
        (#[trigger] floor_aisle_at(clusters, c, n)) is Some <==> matching(bags, c, n).len() > 0
    &&& forall|c: char, n: int|
        (#[trigger] floor_aisle_at(clusters, c, n)) matches Some(a) ==> a.cluster == c
            && a.aisle_num == n && !a.locked
}

/// The planned packages that a plan holds in the aisles `keys`, aisle
/// after aisle.
pub open spec fn keys_packages(bags: Seq<BagRecord>, keys: Seq<(char, u32)>) -> int
    decreases keys.len(),
{
    if keys.len() == 0 {
        0
    } else {
        keys_packages(bags, keys.drop_last()) + packages(
            matching(bags, keys.last().0, keys.last().1 as int),
        )
    }
}

/// No aisle is listed twice.
pub open spec fn distinct_keys(keys: Seq<(char, u32)>) -> bool {
    forall|i: int, j: int| 0 <= i < j < keys.len() ==> keys[i] != keys[j]
}

/// The aisle in which a record lies.
pub open spec fn key_of(bag: BagRecord) -> (char, u32) {
    (bag.sort_zone.cluster, bag.sort_zone.aisle)
}

proof fn lemma_keys_concat(bags: Seq<BagRecord>, a: Seq<(char, u32)>, b: Seq<(char, u32)>)
    ensures
        keys_packages(bags, a + b) == keys_packages(bags, a) + keys_packages(bags, b),
    decreases b.len(),
{
    if b.len() == 0 {
        assert(a + b =~= a);
    } else {
        assert((a + b).drop_last() =~= a + b.drop_last());
        lemma_keys_concat(bags, a, b.drop_last());
    }
}

proof fn lemma_keys_of_nothing(keys: Seq<(char, u32)>)
    ensures
        keys_packages(Seq::empty(), keys) == 0,
    decreases keys.len(),
{
    if keys.len() > 0 {
        lemma_keys_of_nothing(keys.drop_last());
    }
}

/// The aisle of each record of a plan holds a record.
proof fn lemma_matching_holds(bags: Seq<BagRecord>, i: int)
    requires
        0 <= i < bags.len(),
    ensures
        matching(bags, bags[i].sort_zone.cluster, bags[i].sort_zone.aisle as int).len() > 0,
    decreases bags.len(),
{
    if i < bags.len() - 1 {
        lemma_matching_holds(bags.drop_last(), i);
    }
}

/// One more record at the end of a plan adds its packages once, in its
/// aisle.
proof fn lemma_keys_step(bags: Seq<BagRecord>, keys: Seq<(char, u32)>)
    requires
        bags.len() > 0,
        distinct_keys(keys),
    ensures
        keys_packages(bags, keys) == keys_packages(bags.drop_last(), keys) + if keys.contains(
            key_of(bags.last()),
        ) {
            bags.last().planned_package_count as int
        } else {
            0
        },
    decreases keys.len(),
{
    if keys.len() > 0 {
        let front = keys.drop_last();
        let k = keys.last();
        let bag = bags.last();
        assert(distinct_keys(front)) by {
            assert forall|i: int, j: int| 0 <= i < j < front.len() implies front[i] != front[j] by {
                assert(front[i] == keys[i] && front[j] == keys[j]);
            }
        }
        lemma_keys_step(bags, front);
        let before = matching(bags.drop_last(), k.0, k.1 as int);
        if k == key_of(bag) {
            assert(matching(bags, k.0, k.1 as int) == before.push(bag));
            assert(before.push(bag).drop_last() =~= before);
            assert(!front.contains(k)) by {
                if front.contains(k) {
                    let i = choose|i: int| 0 <= i < front.len() && front[i] == k;
                    assert(keys[i] == keys[keys.len() - 1]);
                }
            }
            assert(keys.contains(k)) by {
                assert(keys[keys.len() - 1] == k);
            }
        } else {
            assert(matching(bags, k.0, k.1 as int) == before);
            if front.contains(key_of(bag)) {
                let i = choose|i: int| 0 <= i < front.len() && front[i] == key_of(bag);
                assert(keys[i] == key_of(bag));
            }
            if keys.contains(key_of(bag)) {
                let i = choose|i: int| 0 <= i < keys.len() && keys[i] == key_of(bag);
                assert(front[i] == key_of(bag));
            }
        }
    } else {
        assert(!keys.contains(key_of(bags.last())));
    }
}

/// Aisles that are listed once each and among which every record of a
/// plan lies hold the packages of the plan.
pub proof fn lemma_keys_plan(bags: Seq<BagRecord>, keys: Seq<(char, u32)>)
    requires
        distinct_keys(keys),
        forall|i: int| 0 <= i < bags.len() ==> keys.contains(key_of(#[trigger] bags[i])),
    ensures
        keys_packages(bags, keys) == packages(bags),
    decreases bags.len(),
{
    if bags.len() == 0 {
        assert(bags =~= Seq::<BagRecord>::empty());
        lemma_keys_of_nothing(keys);
    } else {
        let front = bags.drop_last();
        assert forall|i: int| 0 <= i < front.len() implies keys.contains(
            key_of(#[trigger] front[i]),
        ) by {
            assert(front[i] == bags[i]);
        }
        lemma_keys_plan(front, keys);
        lemma_keys_step(bags, keys);
        assert(keys.contains(key_of(bags[bags.len() - 1])));
    }
}

/// Whether `key` is an aisle of one of the first `upto` clusters.
pub open spec fn key_among(clusters: Seq<ClusterView>, upto: int, key: (char, u32)) -> bool {
    exists|j: int, i: int|
        0 <= j < upto && 0 <= i < clusters[j].aisles.len() && key == (
            clusters[j].letter,
            #[trigger] clusters[j].aisles[i].aisle_num,
        )
}

proof fn lemma_floor_keys_members(clusters: Seq<ClusterView>, upto: int)
    requires
        0 <= upto <= clusters.len(),
    ensures
        forall|p: int|
            0 <= p < floor_keys(clusters, upto).len() ==> key_among(
                clusters,
                upto,
                #[trigger] floor_keys(clusters, upto)[p],
            ),
        forall|j: int, i: int|
            0 <= j < upto && 0 <= i < clusters[j].aisles.len() ==> floor_keys(
                clusters,
                upto,
            ).contains((clusters[j].letter, #[trigger] clusters[j].aisles[i].aisle_num)),
    decreases upto,
{
    if upto > 0 {
        lemma_floor_keys_members(clusters, upto - 1);
        let front = floor_keys(clusters, upto - 1);
        let c = clusters[upto - 1];
        let added = keyed(c.letter, numbers(c.aisles));
        let all = floor_keys(clusters, upto);
        assert(all == front + added);
        assert forall|p: int| 0 <= p < all.len() implies key_among(
            clusters,
            upto,
            #[trigger] all[p],
        ) by {
            if p < front.len() {
                assert(all[p] == front[p]);
                assert(key_among(clusters, upto - 1, front[p]));
                let (j, i) = choose|j: int, i: int|
                    0 <= j < upto - 1 && 0 <= i < clusters[j].aisles.len() && front[p] == (
                        clusters[j].letter,
                        #[trigger] clusters[j].aisles[i].aisle_num,
                    );
                assert(all[p] == (clusters[j].letter, clusters[j].aisles[i].aisle_num));
            } else {
                let i = p - front.len();
                assert(all[p] == added[i]);
                assert(all[p] == (c.letter, clusters[upto - 1].aisles[i].aisle_num));
            }
        }
        assert forall|j: int, i: int|
            0 <= j < upto && 0 <= i < clusters[j].aisles.len() implies all.contains(
            (clusters[j].letter, #[trigger] clusters[j].aisles[i].aisle_num),
        ) by {
            let key = (clusters[j].letter, clusters[j].aisles[i].aisle_num);
            if j < upto - 1 {
                assert(front.contains(key));
                let p = choose|p: int| 0 <= p < front.len() && front[p] == key;
                assert(all[p] == key);
            } else {
                assert(added[i] == key);
                assert(all[front.len() + i] == key);
            }
        }
    }
}

proof fn lemma_floor_keys_distinct(clusters: Seq<ClusterView>, upto: int)
    requires
        floor_wf(clusters),
        0 <= upto <= clusters.len(),
    ensures
        distinct_keys(floor_keys(clusters, upto)),
    decreases upto,
{
    if upto > 0 {
        lemma_floor_keys_distinct(clusters, upto - 1);
        lemma_floor_keys_members(clusters, upto - 1);
        let front = floor_keys(clusters, upto - 1);
        let c = clusters[upto - 1];
        let added = keyed(c.letter, numbers(c.aisles));
        let all = floor_keys(clusters, upto);
        assert(all == front + added);
        assert(c.wf());
        assert forall|p: int, q: int| 0 <= p < q < all.len() implies all[p] != all[q] by {
            if q < front.len() {
                assert(all[p] == front[p] && all[q] == front[q]);
            } else if p < front.len() {
                assert(all[p] == front[p]);
                assert(key_among(clusters, upto - 1, front[p]));
                assert(all[q] == added[q - front.len()]);
            } else {
                let i = p - front.len();
                let k = q - front.len();
                assert(all[p] == added[i] && all[q] == added[k]);
                assert(c.aisles[i].aisle_num < c.aisles[k].aisle_num);
            }
        }
    }
}

proof fn lemma_cluster_keys_packages(
    clusters: Seq<ClusterView>,
    bags: Seq<BagRecord>,
    ci: int,
    upto: int,
)
    requires
        floor_wf(clusters),
        forall|c: char, n: int| #[trigger] floor_records_at(clusters, c, n) == matching(bags, c, n),
        0 <= ci < clusters.len(),
        0 <= upto <= clusters[ci].aisles.len(),
    ensures
        aisles_packages(clusters[ci].aisles.take(upto)) == keys_packages(
            bags,
            keyed(clusters[ci].letter, numbers(clusters[ci].aisles.take(upto))),
        ),
    decreases upto,
{
    let c = clusters[ci];
    if upto == 0 {
        assert(c.aisles.take(0) =~= Seq::empty());
        assert(keyed(c.letter, numbers(c.aisles.take(0))) =~= Seq::<(char, u32)>::empty());
    } else {
        lemma_cluster_keys_packages(clusters, bags, ci, upto - 1);
        lemma_aisles_take(c.aisles, upto - 1);
        let keys = keyed(c.letter, numbers(c.aisles.take(upto)));
        let aisle = c.aisles[upto - 1];
        assert(keys.drop_last() =~= keyed(c.letter, numbers(c.aisles.take(upto - 1))));
        assert(keys.last() == (c.letter, aisle.aisle_num));
        assert(c.wf());
        lemma_cluster_index(clusters, c.letter, ci);
        lemma_aisle_index(c.aisles, aisle.aisle_num as int, upto - 1);
        assert(floor_records_at(clusters, c.letter, aisle.aisle_num as int)
            == aisle.bag_records@);
    }
}

proof fn lemma_floor_keys_packages(clusters: Seq<ClusterView>, bags: Seq<BagRecord>, upto: int)
    requires
        floor_wf(clusters),
        forall|c: char, n: int| #[trigger] floor_records_at(clusters, c, n) == matching(bags, c, n),
        0 <= upto <= clusters.len(),
    ensures
        clusters_packages(clusters.take(upto)) == keys_packages(bags, floor_keys(clusters, upto)),
    decreases upto,
{
    if upto == 0 {
        assert(clusters.take(0) =~= Seq::empty());
    } else {
        let c = clusters[upto - 1];
        lemma_floor_keys_packages(clusters, bags, upto - 1);
        lemma_clusters_take(clusters, upto - 1);
        lemma_cluster_keys_packages(clusters, bags, upto - 1, c.aisles.len() as int);
        assert(c.aisles.take(c.aisles.len() as int) =~= c.aisles);
        lemma_keys_concat(
            bags,
            floor_keys(clusters, upto - 1),
            keyed(c.letter, numbers(c.aisles)),
        );
    }
}

/// A floor that is a plan folded up holds the packages of the plan.
pub proof fn lemma_built_packages(clusters: Seq<ClusterView>, bags: Seq<BagRecord>)
    requires
        built_from(clusters, bags),
    ensures
        clusters_packages(clusters) == packages(bags),
{
    let n = clusters.len() as int;
    let keys = floor_keys(clusters, n);
    lemma_floor_keys_packages(clusters, bags, n);
    assert(clusters.take(n) =~= clusters);
    lemma_floor_keys_distinct(clusters, n);
    lemma_floor_keys_members(clusters, n);
    assert forall|i: int| 0 <= i < bags.len() implies keys.contains(key_of(#[trigger] bags[i])) by {
        let c = bags[i].sort_zone.cluster;
        let a = bags[i].sort_zone.aisle;
        lemma_matching_holds(bags, i);
        assert(floor_records_at(clusters, c, a as int) == matching(bags, c, a as int));
        lemma_cluster_index_found(clusters, c);
        let ci = cluster_index(clusters, c);
        lemma_aisle_index_found(clusters[ci].aisles, a as int);
        let ai = crate::aisle::aisle_index(clusters[ci].aisles, a as int);
        assert(keys.contains((clusters[ci].letter, clusters[ci].aisles[ai].aisle_num)));
    }
    lemma_keys_plan(bags, keys);
}

/// Floors folded up from the same records hold the same packages,
/// whatever the order of the records in the two plans.
pub proof fn lemma_total_packages_any_order(
    first: Seq<ClusterView>,
    first_plan: Seq<BagRecord>,
    second: Seq<ClusterView>,
    second_plan: Seq<BagRecord>,
)
    requires
        built_from(first, first_plan),
        built_from(second, second_plan),
        first_plan.to_multiset() == second_plan.to_multiset(),
    ensures
        clusters_packages(first) == clusters_packages(second),
        clusters_packages(first) == packages(first_plan),
{
    lemma_built_packages(first, first_plan);
    lemma_built_packages(second, second_plan);
    lemma_packages_any_order(first_plan, second_plan);
}

} // verus!

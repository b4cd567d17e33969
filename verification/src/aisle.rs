//! Input records, the aisles that gather them, and pairs of aisles.

use vstd::prelude::*;
use vstd::string::*;
use crate::hours::{Hours, Rate};
use crate::zone::{SortZone, decimal, push_decimal};

verus! {

/// One line of the volume plan: a location with its planned counts.
#[derive(Clone, Copy, Debug, PartialEq, Eq, Structural)]
pub struct BagRecord {
    pub sort_zone: SortZone,
    pub planned_bag_count: i32,
    pub planned_package_count: i32,
}

/// The planned packages of a run of records, summed.
pub open spec fn packages(records: Seq<BagRecord>) -> int
    decreases records.len(),
{
    if records.len() == 0 {
        0
    } else {
        packages(records.drop_last()) + records.last().planned_package_count
    }
}

/// The largest magnitude that the planned counts of `records` records
/// can sum to.
pub open spec fn count_bound(records: int) -> int {
    0x8000_0000 * records
}

/// A run of records holds no more packages, in either direction, than
/// its length allows.
pub proof fn lemma_packages_bound(records: Seq<BagRecord>)
    ensures
        -count_bound(records.len() as int) <= packages(records) <= count_bound(
            records.len() as int,
        ),
    decreases records.len(),
{
    if records.len() > 0 {
        lemma_packages_bound(records.drop_last());
    }
}

/// The packages of two runs of records joined are those of both.
pub proof fn lemma_packages_concat(a: Seq<BagRecord>, b: Seq<BagRecord>)
    ensures
        packages(a + b) == packages(a) + packages(b),
    decreases b.len(),
{
    if b.len() == 0 {
        assert(a + b =~= a);
    } else {
        assert((a + b).drop_last() =~= a + b.drop_last());
        lemma_packages_concat(a, b.drop_last());
    }
}

/// Taking the record at `i` out lowers the sum by its planned packages.
pub proof fn lemma_packages_remove(records: Seq<BagRecord>, i: int)
    requires
        0 <= i < records.len(),
    ensures
        packages(records) == packages(records.remove(i)) + records[i].planned_package_count,
{
    let front = records.take(i);
    let one = seq![records[i]];
    let back = records.skip(i + 1);
    assert(records =~= front + one + back);
    assert(records.remove(i) =~= front + back);
    assert(one.drop_last() =~= Seq::<BagRecord>::empty());
    assert(packages(one.drop_last()) == 0);
    lemma_packages_concat(front, one);
    lemma_packages_concat(front + one, back);
    lemma_packages_concat(front, back);
}

/// The planned packages of a plan do not depend on the order of its
/// records: two runs that hold the same records, each as often, sum to
/// the same.
pub proof fn lemma_packages_any_order(a: Seq<BagRecord>, b: Seq<BagRecord>)
    requires
        a.to_multiset() == b.to_multiset(),
    ensures
        packages(a) == packages(b),
    decreases a.len(),
{
    broadcast use vstd::seq_lib::group_to_multiset_ensures;

    a.to_multiset_ensures();
    b.to_multiset_ensures();
    if a.len() == 0 {
        assert(b.len() == 0);
    } else {
        let x = a.last();
        assert(a.to_multiset().count(x) > 0) by {
            assert(a.contains(x));
        }
        assert(b.contains(x));
        let i = choose|i: int| 0 <= i < b.len() && b[i] == x;
        assert(a.remove(a.len() - 1) =~= a.drop_last());
        assert(a.drop_last().to_multiset() == a.to_multiset().remove(x));
        assert(b.remove(i).to_multiset() == b.to_multiset().remove(x));
        lemma_packages_any_order(a.drop_last(), b.remove(i));
        lemma_packages_remove(b, i);
    }
}

/// One physical aisle of one cluster with the records planned for it.
#[derive(Debug, PartialEq)]
pub struct Aisle {
    pub cluster: char,
    pub aisle_num: u32,
    pub bag_records: Vec<BagRecord>,
    pub locked: bool,
}

impl Aisle {
    /// The planned packages of this aisle.
    pub open spec fn packages(&self) -> int {
        packages(self.bag_records@)
    }

    /// The text by which an aisle is shown: cluster, `-`, number.
    pub open spec fn label(cluster: char, aisle_num: u32) -> Seq<char> {
        seq![cluster, '-'] + decimal(aisle_num as nat)
    }

    /// An unlocked aisle without records.
    pub fn new(cluster: char, aisle_num: u32) -> (r: Aisle)
        ensures
            r.cluster == cluster,
            r.aisle_num == aisle_num,
            r.bag_records@.len() == 0,
            !r.locked,
    {
        Aisle { cluster, aisle_num, bag_records: Vec::new(), locked: false }
    }

    /// The planned packages of this aisle, summed.
    pub fn total_packages(&self) -> (r: i128)
        ensures
            r == self.packages(),
            -count_bound(usize::MAX as int) <= r <= count_bound(usize::MAX as int),
    {
        let mut total: i128 = 0;
        let mut i: usize = 0;
        while i < self.bag_records.len()
            invariant
                i <= self.bag_records@.len(),
                total == packages(self.bag_records@.take(i as int)),
                -count_bound(i as int) <= total <= count_bound(i as int),
            decreases self.bag_records@.len() - i,
        {
            let ghost next = self.bag_records@.take(i + 1);
            assert(next.drop_last() =~= self.bag_records@.take(i as int));
            total = total + self.bag_records[i].planned_package_count as i128;
            i = i + 1;
        }
        assert(self.bag_records@.take(i as int) =~= self.bag_records@);
        total
    }

    /// The hourly rate of this aisle over the given working time.
    pub fn get_aisle_pph(&self, hours: Hours) -> (r: Rate)
        ensures
            r.packages == self.packages(),
            r.hours == hours,
    {
        Rate { packages: self.total_packages(), hours }
    }

    /// The label of this aisle: cluster, `-`, number.
    pub fn display_aisle(&self) -> (r: String)
        ensures
            r@ == Aisle::label(self.cluster, self.aisle_num),
    {
        label_of(self.cluster, self.aisle_num)
    }

    /// Turns the lock of this aisle over.
    pub fn toggle_lock(&mut self)
        ensures
            final(self).locked == !old(self).locked,
            final(self).cluster == old(self).cluster,
            final(self).aisle_num == old(self).aisle_num,
            final(self).bag_records == old(self).bag_records,
    {
        self.locked = !self.locked;
    }
}

impl Clone for Aisle {
    fn clone(&self) -> (r: Aisle)
        ensures
            r.cluster == self.cluster,
            r.aisle_num == self.aisle_num,
            r.bag_records@ == self.bag_records@,
            r.locked == self.locked,
    {
        let records = self.bag_records.clone();
        assert(records@ =~= self.bag_records@);
        Aisle {
            cluster: self.cluster,
            aisle_num: self.aisle_num,
            bag_records: records,
            locked: self.locked,
        }
    }
}

impl Default for Aisle {
    fn default() -> (r: Aisle)
        ensures
            r.cluster == '\0',
            r.aisle_num == 0,
            r.bag_records@.len() == 0,
            !r.locked,
    {
        Aisle { cluster: '\0', aisle_num: 0, bag_records: Vec::new(), locked: false }
    }
}

/// The label of an aisle: cluster, `-`, number.
pub(crate) fn label_of(cluster: char, aisle_num: u32) -> (r: String)
    ensures
        r@ == Aisle::label(cluster, aisle_num),
{
    let mut out = String::new();
    out.push(cluster);
    out.push('-');
    push_decimal(&mut out, aisle_num);
    assert(out@ =~= Aisle::label(cluster, aisle_num));
    out
}

/// The planned packages of a run of aisles, summed.
pub open spec fn aisles_packages(aisles: Seq<Aisle>) -> int
    decreases aisles.len(),
{
    if aisles.len() == 0 {
        0
    } else {
        aisles_packages(aisles.drop_last()) + aisles.last().packages()
    }
}

/// The number of records that a run of aisles holds.
pub open spec fn aisles_records(aisles: Seq<Aisle>) -> nat
    decreases aisles.len(),
{
    if aisles.len() == 0 {
        0
    } else {
        aisles_records(aisles.drop_last()) + aisles.last().bag_records@.len()
    }
}

/// The index of the first aisle numbered `aisle_num`, or the length of
/// `aisles` where none is.
pub open spec fn aisle_index(aisles: Seq<Aisle>, aisle_num: int) -> int
    decreases aisles.len(),
{
    if aisles.len() == 0 {
        0
    } else {
        let before = aisle_index(aisles.drop_last(), aisle_num);
        if before < aisles.len() - 1 {
            before
        } else if aisles.last().aisle_num == aisle_num {
            aisles.len() - 1
        } else {
            aisles.len() as int
        }
    }
}

/// The first aisle numbered `aisle_num`, if there is one.
pub open spec fn aisle_at(aisles: Seq<Aisle>, aisle_num: int) -> Option<Aisle> {
    let i = aisle_index(aisles, aisle_num);
    if i < aisles.len() {
        Some(aisles[i])
    } else {
        None
    }
}

/// The numbers of a run of aisles strictly increase.
pub open spec fn ascending(aisles: Seq<Aisle>) -> bool {
    forall|i: int, j: int| 0 <= i < j < aisles.len() ==> aisles[i].aisle_num < aisles[j].aisle_num
}

/// `aisle_index` gives `k` where no aisle before `k` carries the number
/// and the aisle at `k`, if there is one, does.
pub proof fn lemma_aisle_index(aisles: Seq<Aisle>, aisle_num: int, k: int)
    requires
        0 <= k <= aisles.len(),
        forall|j: int| 0 <= j < k ==> aisles[j].aisle_num != aisle_num,
        k < aisles.len() ==> aisles[k].aisle_num == aisle_num,
    ensures
        aisle_index(aisles, aisle_num) == k,
    decreases aisles.len(),
{
    if aisles.len() > 0 {
        let t = aisles.drop_last();
        if k < aisles.len() - 1 {
            lemma_aisle_index(t, aisle_num, k);
        } else {
            lemma_aisle_index(t, aisle_num, aisles.len() - 1);
        }
    }
}

/// What `aisle_index` gives: no aisle before it carries the number, and
/// the aisle at it, if there is one, does.
pub proof fn lemma_aisle_index_found(aisles: Seq<Aisle>, aisle_num: int)
    ensures
        0 <= aisle_index(aisles, aisle_num) <= aisles.len(),
        forall|j: int|
            0 <= j < aisle_index(aisles, aisle_num) ==> (#[trigger] aisles[j]).aisle_num
                != aisle_num,
        aisle_index(aisles, aisle_num) < aisles.len() ==> aisles[aisle_index(
            aisles,
            aisle_num,
        )].aisle_num == aisle_num,
    decreases aisles.len(),
{
    if aisles.len() > 0 {
        let t = aisles.drop_last();
        lemma_aisle_index_found(t, aisle_num);
        assert forall|j: int| 0 <= j < aisle_index(aisles, aisle_num) implies (
        #[trigger] aisles[j]).aisle_num != aisle_num by {
            if j < t.len() {
                assert(t[j] == aisles[j]);
            }
        }
    }
}

/// A run of aisles holds no more packages, in either direction, than
/// the number of its records allows.
pub proof fn lemma_aisles_bound(aisles: Seq<Aisle>)
    ensures
        -count_bound(aisles_records(aisles) as int) <= aisles_packages(aisles) <= count_bound(
            aisles_records(aisles) as int,
        ),
    decreases aisles.len(),
{
    if aisles.len() > 0 {
        lemma_aisles_bound(aisles.drop_last());
        lemma_packages_bound(aisles.last().bag_records@);
    }
}

/// One more aisle at the end of a prefix adds its records and packages.
pub proof fn lemma_aisles_take(aisles: Seq<Aisle>, k: int)
    requires
        0 <= k < aisles.len(),
    ensures
        aisles_records(aisles.take(k + 1)) == aisles_records(aisles.take(k))
            + aisles[k].bag_records@.len(),
        aisles_packages(aisles.take(k + 1)) == aisles_packages(aisles.take(k))
            + aisles[k].packages(),
        aisles_records(aisles.take(k + 1)) <= aisles_records(aisles),
    decreases aisles.len() - k,
{
    assert(aisles.take(k + 1).drop_last() =~= aisles.take(k));
    if k + 1 < aisles.len() {
        lemma_aisles_take(aisles, k + 1);
    } else {
        assert(aisles.take(k + 1) =~= aisles);
    }
}

/// A prefix holds no more records than a longer one, nor than the whole.
pub proof fn lemma_aisles_prefix(aisles: Seq<Aisle>, i: int, j: int)
    requires
        0 <= i <= j <= aisles.len(),
    ensures
        aisles_records(aisles.take(i)) <= aisles_records(aisles.take(j)) <= aisles_records(aisles),
    decreases j - i,
{
    if j > 0 {
        lemma_aisles_take(aisles, j - 1);
    } else {
        assert(aisles.take(0) =~= Seq::<Aisle>::empty());
    }
    if i < j {
        lemma_aisles_prefix(aisles, i, j - 1);
    }
}

/// The records and packages of two runs of aisles joined are those of
/// both.
pub proof fn lemma_aisles_concat(a: Seq<Aisle>, b: Seq<Aisle>)
    ensures
        aisles_records(a + b) == aisles_records(a) + aisles_records(b),
        aisles_packages(a + b) == aisles_packages(a) + aisles_packages(b),
    decreases b.len(),
{
    if b.len() == 0 {
        assert(a + b =~= a);
    } else {
        assert((a + b).drop_last() =~= a + b.drop_last());
        lemma_aisles_concat(a, b.drop_last());
    }
}

/// The records and packages of one aisle taken as a run.
pub proof fn lemma_aisles_one(a: Aisle)
    ensures
        aisles_records(seq![a]) == a.bag_records@.len(),
        aisles_packages(seq![a]) == a.packages(),
{
    assert(seq![a].drop_last() =~= Seq::<Aisle>::empty());
    assert(aisles_records(seq![a].drop_last()) == 0);
    assert(aisles_packages(seq![a].drop_last()) == 0);
    assert(seq![a].last() == a);
}

/// Replacing the aisle at `i` changes the sums by the difference of the
/// two aisles.
pub proof fn lemma_aisles_update(aisles: Seq<Aisle>, i: int, a: Aisle)
    requires
        0 <= i < aisles.len(),
    ensures
        aisles_records(aisles.update(i, a)) == aisles_records(aisles)
            - aisles[i].bag_records@.len() + a.bag_records@.len(),
        aisles_packages(aisles.update(i, a)) == aisles_packages(aisles) - aisles[i].packages()
            + a.packages(),
{
    let front = aisles.take(i);
    let back = aisles.skip(i + 1);
    assert(aisles =~= front + seq![aisles[i]] + back);
    assert(aisles.update(i, a) =~= front + seq![a] + back);
    lemma_aisles_one(a);
    lemma_aisles_one(aisles[i]);
    lemma_aisles_concat(front, seq![aisles[i]]);
    lemma_aisles_concat(front + seq![aisles[i]], back);
    lemma_aisles_concat(front, seq![a]);
    lemma_aisles_concat(front + seq![a], back);
}

/// Putting an aisle in at `i` adds it to the sums.
pub proof fn lemma_aisles_insert(aisles: Seq<Aisle>, i: int, a: Aisle)
    requires
        0 <= i <= aisles.len(),
    ensures
        aisles_records(aisles.insert(i, a)) == aisles_records(aisles) + a.bag_records@.len(),
        aisles_packages(aisles.insert(i, a)) == aisles_packages(aisles) + a.packages(),
{
    let front = aisles.take(i);
    let back = aisles.skip(i);
    assert(aisles =~= front + back);
    assert(aisles.insert(i, a) =~= front + seq![a] + back);
    lemma_aisles_one(a);
    lemma_aisles_concat(front, back);
    lemma_aisles_concat(front, seq![a]);
    lemma_aisles_concat(front + seq![a], back);
}

/// The records of the first aisle numbered `aisle_num`; none where no
/// aisle carries the number.
pub open spec fn records_at(aisles: Seq<Aisle>, aisle_num: int) -> Seq<BagRecord> {
    match aisle_at(aisles, aisle_num) {
        Some(a) => a.bag_records@,
        None => Seq::empty(),
    }
}

/// No aisle of the run is locked, and each holds a record.
pub open spec fn fresh(aisles: Seq<Aisle>) -> bool {
    forall|i: int|
        0 <= i < aisles.len() ==> !(#[trigger] aisles[i]).locked && aisles[i].bag_records@.len()
            > 0
}

/// Two neighbouring aisles taken as one unit: an odd-numbered aisle and,
/// where the cluster has it, the aisle numbered one higher.
#[derive(Clone, Copy, Debug, PartialEq, Eq, Structural)]
pub struct AislePair {
    pub aisle1: Option<u32>,
    pub aisle2: Option<u32>,
}

impl AislePair {
    /// The aisle numbers of this pair, the first aisle first.
    pub open spec fn numbers(self) -> Seq<u32> {
        match (self.aisle1, self.aisle2) {
            (Some(a), Some(b)) => seq![a, b],
            (Some(a), None) => seq![a],
            (None, Some(b)) => seq![b],
            (None, None) => Seq::empty(),
        }
    }

    /// Whether `aisle_num` is one of the two aisles.
    pub open spec fn holds(self, aisle_num: u32) -> bool {
        self.aisle1 == Some(aisle_num) || self.aisle2 == Some(aisle_num)
    }

    /// The text by which a pair of the given cluster is shown.
    pub open spec fn label(self, cluster: char) -> Seq<char> {
        match (self.aisle1, self.aisle2) {
            (Some(a), Some(b)) => Aisle::label(cluster, a) + " & "@ + Aisle::label(cluster, b),
            (Some(a), None) => Aisle::label(cluster, a) + " (unpaired)"@,
            (None, Some(b)) => Aisle::label(cluster, b) + " (unpaired)"@,
            (None, None) => "Empty pair"@,
        }
    }

    /// Whether this pair names two aisles.
    pub fn is_complete(&self) -> (r: bool)
        ensures
            r == (self.aisle1 is Some && self.aisle2 is Some),
    {
        self.aisle1.is_some() && self.aisle2.is_some()
    }

    /// The aisle numbers of this pair, the first aisle first.
    pub fn get_aisles(&self) -> (r: Vec<u32>)
        ensures
            r@ == self.numbers(),
    {
        let mut aisles: Vec<u32> = Vec::new();
        if let Some(a) = self.aisle1 {
            aisles.push(a);
        }
        if let Some(b) = self.aisle2 {
            aisles.push(b);
        }
        assert(aisles@ =~= self.numbers());
        aisles
    }

    /// The label of this pair in cluster `cluster`.
    pub fn display(&self, cluster: char) -> (r: String)
        ensures
            r@ == self.label(cluster),
    {
        match (self.aisle1, self.aisle2) {
            (Some(a), Some(b)) => {
                let mut out = label_of(cluster, a);
                out.append(" & ");
                let second = label_of(cluster, b);
                out.append(second.as_str());
                out
            },
            (Some(a), None) => {
                let mut out = label_of(cluster, a);
                out.append(" (unpaired)");
                out
            },
            (None, Some(b)) => {
                let mut out = label_of(cluster, b);
                out.append(" (unpaired)");
                out
            },
            (None, None) => "Empty pair".to_owned(),
        }
    }
}

} // verus!

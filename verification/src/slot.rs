//! Stow slots: runs of aisles of one cluster that are worked as a unit.

use vstd::prelude::*;
use vstd::string::*;
use crate::aisle::{
    Aisle, aisles_packages, aisles_records, label_of, lemma_aisles_bound, lemma_aisles_take,
};
use crate::cluster::numbers;
use crate::floor::{Floor, lock_floor};
use crate::hours::{Hours, Rate, rate_at_most, whole_rate};
use crate::zone::{int_text, push_int};

verus! {

/// What a slot holds: its cluster, the numbers of its aisles in order,
/// the planned packages of those aisles, the working time that its rate
/// is taken over, and its lock.
pub struct SlotView {
    pub cluster: char,
    pub aisles: Seq<u32>,
    pub packages: int,
    pub millis: int,
    pub locked: bool,
}

impl SlotView {
    /// Whether the hourly rate of the slot is at most 150, 150 itself
    /// included.
    pub open spec fn is_floater(self) -> bool {
        rate_at_most(self.packages, self.millis, 150)
    }

    /// Whether the slot is of cluster `letter` and lists `aisle_num`.
    pub open spec fn holds(self, letter: char, aisle_num: int) -> bool {
        self.cluster == letter && exists|i: int|
            0 <= i < self.aisles.len() && self.aisles[i] == aisle_num
    }

    /// The slot with one more aisle at its end.
    pub open spec fn grow(self, aisle: Aisle) -> SlotView {
        SlotView {
            cluster: self.cluster,
            aisles: self.aisles.push(aisle.aisle_num),
            packages: self.packages + aisle.packages(),
            millis: self.millis,
            locked: self.locked,
        }
    }

    /// The line by which a slot with aisles is shown: its first and its
    /// last aisle, its hourly rate in whole packages, and whether it is
    /// a floater.
    pub open spec fn range_text(self) -> Seq<char> {
        Aisle::label(self.cluster, self.aisles.first()) + " - "@ + Aisle::label(
            self.cluster,
            self.aisles.last(),
        ) + ": "@ + int_text(whole_rate(self.packages, self.millis)) + " PPH, is floater: "@ + if self.is_floater() {
            "true"@
        } else {
            "false"@
        }
    }

    /// Whether each aisle number is one higher than the one before it.
    pub open spec fn consecutive(self) -> bool {
        forall|i: int|
            0 <= i < self.aisles.len() - 1 ==> (#[trigger] self.aisles[i]) + 1 == self.aisles[i
                + 1]
    }
}

/// An unlocked slot of the given aisles.
pub open spec fn slot_of(cluster: char, aisles: Seq<Aisle>, millis: int) -> SlotView {
    SlotView {
        cluster,
        aisles: numbers(aisles),
        packages: aisles_packages(aisles),
        millis,
        locked: false,
    }
}

/// A work assignment: aisles of one cluster with their hourly rate.
#[derive(Debug)]
pub struct StowSlot {
    pub(crate) cluster: char,
    pub(crate) aisles: Vec<u32>,
    pub(crate) is_floater: bool,
    pub(crate) pph: Rate,
    pub(crate) locked: bool,
}

impl View for StowSlot {
    type V = SlotView;

    closed spec fn view(&self) -> SlotView {
        SlotView {
            cluster: self.cluster,
            aisles: self.aisles@,
            packages: self.pph.packages as int,
            millis: self.pph.hours.spec_millis(),
            locked: self.locked,
        }
    }
}

impl Clone for StowSlot {
    fn clone(&self) -> (r: StowSlot)
        ensures
            r@ == self@,
    {
        proof {
            use_type_invariant(self);
        }
        let aisles = self.aisles.clone();
        assert(aisles@ =~= self.aisles@);
        StowSlot {
            cluster: self.cluster,
            aisles,
            is_floater: self.is_floater,
            pph: self.pph,
            locked: self.locked,
        }
    }
}

/// The aisles behind a run of references.
pub open spec fn pointed(aisles: Seq<&Aisle>) -> Seq<Aisle> {
    aisles.map_values(|a: &Aisle| *a)
}

impl StowSlot {
    #[verifier::type_invariant]
    pub closed spec fn inv(self) -> bool {
        self.is_floater == self.pph.is_floater_spec()
    }

    /// An unlocked slot of the given parts.
    pub(crate) fn from_parts(cluster: char, aisles: Vec<u32>, packages: i128, hours: Hours) -> (r:
        StowSlot)
        ensures
            r@ == (SlotView {
                cluster,
                aisles: aisles@,
                packages: packages as int,
                millis: hours.spec_millis(),
                locked: false,
            }),
    {
        let pph = Rate { packages, hours };
        let is_floater = pph.is_floater();
        StowSlot { cluster, aisles, is_floater, pph, locked: false }
    }

    /// This slot with its aisles listed as `aisles`, and locked where
    /// `lock` is set.
    pub(crate) fn relisted(self, aisles: Vec<u32>, lock: bool) -> (r: StowSlot)
        ensures
            r@ == (SlotView {
                cluster: self@.cluster,
                aisles: aisles@,
                packages: self@.packages,
                millis: self@.millis,
                locked: self@.locked || lock,
            }),
    {
        proof {
            use_type_invariant(&self);
        }
        let StowSlot { cluster, aisles: _, is_floater, pph, locked } = self;
        StowSlot { cluster, aisles, is_floater, pph, locked: locked || lock }
    }

    /// An unlocked slot of the given aisles, with its rate over `hours`.
    pub fn new(cluster: char, aisles: Vec<&Aisle>, hours: Hours) -> (r: StowSlot)
        requires
            aisles_records(pointed(aisles@)) <= usize::MAX,
        ensures
            r@ == slot_of(cluster, pointed(aisles@), hours.spec_millis()),
    {
        let ghost all = pointed(aisles@);
        let mut nums: Vec<u32> = Vec::new();
        let mut total: i128 = 0;
        let mut i: usize = 0;
        assert(nums@ =~= numbers(all.take(0)));
        while i < aisles.len()
            invariant
                i <= aisles@.len(),
                all == pointed(aisles@),
                aisles_records(all) <= usize::MAX,
                nums@ == numbers(all.take(i as int)),
                total == aisles_packages(all.take(i as int)),
            decreases aisles@.len() - i,
        {
            proof {
                assert(all[i as int] == *aisles@[i as int]);
                lemma_aisles_take(all, i as int);
                lemma_aisles_bound(all.take(i as int));
                lemma_aisles_bound(all.take(i + 1));
                assert(numbers(all.take(i + 1)) =~= numbers(all.take(i as int)).push(
                    all[i as int].aisle_num,
                ));
            }
            nums.push(aisles[i].aisle_num);
            total = total + aisles[i].total_packages();
            i = i + 1;
        }
        assert(all.take(i as int) =~= all);
        StowSlot::from_parts(cluster, nums, total, hours)
    }

    /// Appends one aisle and takes the rate anew.
    pub fn add_aisle(&mut self, aisle: &Aisle)
        requires
            i128::MIN <= old(self)@.packages + aisle.packages() <= i128::MAX,
        ensures
            final(self)@ == old(self)@.grow(*aisle),
    {
        let mut tmp = StowSlot::from_parts(self.cluster, Vec::new(), 0, self.pph.hours);
        core::mem::swap(self, &mut tmp);
        let StowSlot { cluster, mut aisles, is_floater, pph, locked } = tmp;
        aisles.push(aisle.aisle_num);
        let pph = Rate { packages: pph.packages + aisle.total_packages(), hours: pph.hours };
        let is_floater = pph.is_floater();
        *self = StowSlot { cluster, aisles, is_floater, pph, locked };
    }

    /// Appends the aisles in their order and takes the rate anew.
    pub fn add_aisles(&mut self, aisles: Vec<&Aisle>)
        requires
            forall|k: int|
                0 <= k <= aisles@.len() ==> i128::MIN <= old(self)@.packages + aisles_packages(
                    #[trigger] pointed(aisles@).take(k),
                ) <= i128::MAX,
        ensures
            final(self)@ == (SlotView {
                cluster: old(self)@.cluster,
                aisles: old(self)@.aisles + numbers(pointed(aisles@)),
                packages: old(self)@.packages + aisles_packages(pointed(aisles@)),
                millis: old(self)@.millis,
                locked: old(self)@.locked,
            }),
    {
        let ghost all = pointed(aisles@);
        let ghost start = self@;
        let mut i: usize = 0;
        proof {
            assert(all.take(0) =~= Seq::<Aisle>::empty());
            assert(start.aisles + numbers(all.take(0)) =~= start.aisles);
        }
        while i < aisles.len()
            invariant
                i <= aisles@.len(),
                all == pointed(aisles@),
                forall|k: int|
                    0 <= k <= aisles@.len() ==> i128::MIN <= start.packages + aisles_packages(
                        #[trigger] all.take(k),
                    ) <= i128::MAX,
                self@ == (SlotView {
                    cluster: start.cluster,
                    aisles: start.aisles + numbers(all.take(i as int)),
                    packages: start.packages + aisles_packages(all.take(i as int)),
                    millis: start.millis,
                    locked: start.locked,
                }),
            decreases aisles@.len() - i,
        {
            proof {
                assert(all[i as int] == *aisles@[i as int]);
                lemma_aisles_take(all, i as int);
                assert(i128::MIN <= start.packages + aisles_packages(all.take(i + 1)) <= i128::MAX);
                assert(numbers(all.take(i + 1)) =~= numbers(all.take(i as int)).push(
                    all[i as int].aisle_num,
                ));
                assert(start.aisles + numbers(all.take(i as int)).push(all[i as int].aisle_num)
                    =~= (start.aisles + numbers(all.take(i as int))).push(all[i as int].aisle_num));
            }
            self.add_aisle(aisles[i]);
            i = i + 1;
        }
        assert(all.take(i as int) =~= all);
    }

    /// The cluster of this slot.
    pub fn cluster(&self) -> (r: char)
        ensures
            r == self@.cluster,
    {
        self.cluster
    }

    /// The numbers of the aisles of this slot, in its order.
    pub fn aisles(&self) -> (r: &Vec<u32>)
        ensures
            r@ == self@.aisles,
    {
        &self.aisles
    }

    /// Whether the hourly rate of this slot is at most 150; a rate of
    /// exactly 150 counts.
    pub fn is_floater(&self) -> (r: bool)
        ensures
            r == self@.is_floater(),
            r == rate_at_most(self@.packages, self@.millis, 150),
    {
        proof {
            use_type_invariant(self);
        }
        self.is_floater
    }

    /// The hourly rate of this slot.
    pub fn pph(&self) -> (r: Rate)
        ensures
            r.packages == self@.packages,
            r.hours.spec_millis() == self@.millis,
    {
        self.pph
    }

    /// The planned packages of the aisles of this slot.
    pub fn total_packages(&self) -> (r: i128)
        ensures
            r == self@.packages,
    {
        self.pph.packages
    }

    /// Whether this slot is locked.
    pub fn locked(&self) -> (r: bool)
        ensures
            r == self@.locked,
    {
        self.locked
    }

    /// Whether each aisle is numbered one higher than the one before it.
    pub fn is_consecutive(&self) -> (r: bool)
        ensures
            r == self@.consecutive(),
    {
        if self.aisles.len() == 0 {
            return true;
        }
        let mut i: usize = 0;
        while i < self.aisles.len() - 1
            invariant
                i <= self.aisles@.len() - 1,
                forall|j: int|
                    0 <= j < i ==> (#[trigger] self.aisles@[j]) + 1 == self.aisles@[j + 1],
            decreases self.aisles@.len() - i,
        {
            let a: u32 = self.aisles[i];
            let b: u32 = self.aisles[i + 1];
            if a == u32::MAX || a + 1 != b {
                assert(self@.aisles[i as int] + 1 != self@.aisles[i + 1]);
                return false;
            }
            i = i + 1;
        }
        true
    }

    /// The labels of the aisles of this slot, in its order.
    pub fn display_aisles(&self) -> (r: Vec<String>)
        ensures
            r@.len() == self@.aisles.len(),
            forall|i: int|
                0 <= i < r@.len() ==> (#[trigger] r@[i])@ == Aisle::label(
                    self@.cluster,
                    self@.aisles[i],
                ),
    {
        let mut labels: Vec<String> = Vec::new();
        let mut i: usize = 0;
        while i < self.aisles.len()
            invariant
                i <= self.aisles@.len(),
                labels@.len() == i,
                forall|j: int|
                    0 <= j < i ==> (#[trigger] labels@[j])@ == Aisle::label(
                        self.cluster,
                        self.aisles@[j],
                    ),
            decreases self.aisles@.len() - i,
        {
            labels.push(label_of(self.cluster, self.aisles[i]));
            i = i + 1;
        }
        labels
    }

    /// The line by which this slot is shown; none for a slot without
    /// aisles.
    pub fn display_aisle_range(&self) -> (r: Option<String>)
        ensures
            r is None <==> self@.aisles.len() == 0,
            r matches Some(line) ==> line@ == self@.range_text(),
    {
        if self.aisles.len() == 0 {
            return None;
        }
        let mut out = label_of(self.cluster, self.aisles[0]);
        out.append(" - ");
        let last = label_of(self.cluster, self.aisles[self.aisles.len() - 1]);
        out.append(last.as_str());
        out.append(": ");
        push_int(&mut out, self.pph.whole());
        out.append(" PPH, is floater: ");
        if self.is_floater() {
            out.append("true");
        } else {
            out.append("false");
        }
        Some(out)
    }

    /// Turns the lock of this slot over and sets the lock of each of its
    /// aisles on the floor to the new state of the slot.
    pub fn toggle_lock(&mut self, floor: &mut Floor)
        ensures
            final(self)@ == (SlotView { locked: !old(self)@.locked, ..old(self)@ }),
            final(floor)@ == lock_floor(
                old(floor)@,
                old(self)@.cluster,
                old(self)@.aisles,
                !old(self)@.locked,
            ),
    {
        proof {
            use_type_invariant(&*self);
        }
        let mut tmp = StowSlot::from_parts(self.cluster, Vec::new(), 0, self.pph.hours);
        core::mem::swap(self, &mut tmp);
        let StowSlot { cluster, aisles, is_floater, pph, locked } = tmp;
        floor.set_locks(cluster, &aisles, !locked);
        *self = StowSlot { cluster, aisles, is_floater, pph, locked: !locked };
    }
}

} // verus!

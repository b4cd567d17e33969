//! The allocator: it owns a floor and cuts it into stow slots.

use vstd::prelude::*;
use crate::aisle::Aisle;
use crate::cluster::Cluster;
use crate::config::{Algorithm, AlgorithmConfig};
use crate::error::Rejected;
use crate::floor::{Floor, floor_aisle_at, lock_floor, views};
use crate::headcount::{candidates_upto, collect_lowest, fill_cluster_into, fill_floor, lowest};
use crate::hours::Hours;
use crate::proposal::{
    accepted, any_locked, is_left_blocked, is_right_blocked, proposal, sort_numbers, sorted_numbers,
};
use crate::slot::{SlotView, StowSlot};
use crate::throughput::{allocate_pph, find_slot, pph_slots, slot_index, slot_views};

verus! {

/// How many of the slots are of cluster `letter`.
pub open spec fn count_in(slots: Seq<SlotView>, letter: char) -> nat
    decreases slots.len(),
{
    if slots.len() == 0 {
        0
    } else {
        count_in(slots.drop_last(), letter) + if slots.last().cluster == letter {
            1nat
        } else {
            0nat
        }
    }
}

/// The allocator.
#[derive(Debug)]
pub struct StowSlotBuilder {
    pub floor: Floor,
    pub stow_slots: Vec<StowSlot>,
    pub lowest_pph: Vec<StowSlot>,
}

impl Floor {
    /// An allocator over this floor.
    pub fn create_stow_slot_builder(self) -> (r: StowSlotBuilder)
        ensures
            r.floor@ == self@,
            r.stow_slots@.len() == 0,
            r.lowest_pph@.len() == 0,
    {
        StowSlotBuilder::new(self)
    }
}

impl StowSlotBuilder {
    /// An allocator over `floor` that holds no slot yet.
    pub fn new(floor: Floor) -> (r: StowSlotBuilder)
        ensures
            r.floor@ == floor@,
            r.stow_slots@.len() == 0,
            r.lowest_pph@.len() == 0,
    {
        StowSlotBuilder { floor, stow_slots: Vec::new(), lowest_pph: Vec::new() }
    }

    /// How many slots the allocator holds.
    pub fn total_stow_slots(&self) -> (r: usize)
        ensures
            r == self.stow_slots@.len(),
    {
        self.stow_slots.len()
    }

    /// Cuts the floor so that a slot takes on aisles only while its
    /// hourly rate is at most `algorithm.target_pph`. The slots found
    /// replace those held before.
    pub fn start_algorithm_target_pph(&mut self, algorithm: AlgorithmConfig)
        ensures
            final(self).floor@ == old(self).floor@,
            final(self).lowest_pph@ == old(self).lowest_pph@,
            slot_views(final(self).stow_slots@) == pph_slots(
                old(self).floor@,
                algorithm.target_pph as int,
                algorithm.total_hours.spec_millis(),
            ),
    {
        let slots = allocate_pph(&self.floor, algorithm.target_pph, algorithm.total_hours);
        self.stow_slots = slots;
    }

    /// The windows of `aisle_pair_range` pairs in a row of `cluster` that
    /// name no locked aisle, each as an unlocked slot with its rate over
    /// `hours`, lowest rate first; windows of one rate stay in the order
    /// of their first pair. `_max_aisle_count` sets no limit: every
    /// window is returned.
    pub fn get_lowest_pph(
        &self,
        cluster: &Cluster,
        aisle_pair_range: usize,
        _max_aisle_count: usize,
        hours: Hours,
    ) -> (r: Vec<StowSlot>)
        ensures
            slot_views(r@) == lowest(
                Seq::empty(),
                cluster@,
                aisle_pair_range as int,
                hours.spec_millis(),
            ),
    {
        let mut found: Vec<StowSlot> = Vec::new();
        assert(slot_views(found@) =~= Seq::<SlotView>::empty());
        collect_lowest(cluster, aisle_pair_range, hours, &mut found);
        found
    }

    /// Cuts every cluster along its pairs: a slot takes pairs on until
    /// it holds `max_aisle_count` of them or a pair with a locked aisle
    /// comes, which stays out of every slot. The slots found replace
    /// those held before.
    pub fn fill_stow_slots_around_locked(&mut self, max_aisle_count: usize, hours: Hours)
        ensures
            final(self).floor@ == old(self).floor@,
            final(self).lowest_pph@ == old(self).lowest_pph@,
            slot_views(final(self).stow_slots@) == fill_floor(
                old(self).floor@,
                old(self).floor@.len() as int,
                max_aisle_count as int,
                hours.spec_millis(),
            ),
    {
        let clusters = self.floor.clusters();
        let ghost cs = self.floor@;
        let mut slots: Vec<StowSlot> = Vec::new();
        let mut i: usize = 0;
        assert(slot_views(slots@) =~= fill_floor(cs, 0, max_aisle_count as int, hours.spec_millis()));
        while i < clusters.len()
            invariant
                i <= clusters@.len(),
                cs == views(clusters@),
                slot_views(slots@) == fill_floor(
                    cs,
                    i as int,
                    max_aisle_count as int,
                    hours.spec_millis(),
                ),
            decreases clusters@.len() - i,
        {
            assert(cs[i as int] == clusters@[i as int]@);
            fill_cluster_into(&clusters[i], max_aisle_count, hours, &mut slots);
            i = i + 1;
        }
        self.stow_slots = slots;
    }

    /// Prepares the headcount-target strategy: the windows of three
    /// pairs of every cluster are kept in `lowest_pph`, lowest rate
    /// first, and the floor is cut along its pairs with at most two
    /// pairs to a slot. How the number of slots is then brought to
    /// `algorithm.target_hc` is not laid down, and nothing is done to
    /// that end.
    pub fn start_algorithm_target_hc(&mut self, algorithm: AlgorithmConfig)
        ensures
            final(self).floor@ == old(self).floor@,
            slot_views(final(self).lowest_pph@) == candidates_upto(
                old(self).floor@,
                old(self).floor@.len() as int,
                3,
                algorithm.total_hours.spec_millis(),
            ),
            slot_views(final(self).stow_slots@) == fill_floor(
                old(self).floor@,
                old(self).floor@.len() as int,
                2,
                algorithm.total_hours.spec_millis(),
            ),
    {
        let hours = algorithm.total_hours;
        self.floor.generate_aisle_pairs();
        let clusters = self.floor.clusters();
        let ghost cs = self.floor@;
        let mut found: Vec<StowSlot> = Vec::new();
        let mut i: usize = 0;
        assert(slot_views(found@) =~= candidates_upto(cs, 0, 3, hours.spec_millis()));
        while i < clusters.len()
            invariant
                i <= clusters@.len(),
                cs == views(clusters@),
                slot_views(found@) == candidates_upto(cs, i as int, 3, hours.spec_millis()),
            decreases clusters@.len() - i,
        {
            assert(cs[i as int] == clusters@[i as int]@);
            collect_lowest(&clusters[i], 3, hours, &mut found);
            i = i + 1;
        }
        self.lowest_pph = found;
        self.fill_stow_slots_around_locked(2, hours);
    }

    /// Takes a slot composed by hand into the slots of the floor, or
    /// says why it cannot be taken. A slot with a locked aisle is refused
    /// before anything else is looked at. A slot that is taken has its
    /// aisles put in ascending order; where `is_locked` is set, the slot
    /// and its aisles on the floor are locked. A slot that is refused
    /// changes nothing.
    pub fn add_stow_slot(&mut self, stow_slot: StowSlot, is_locked: bool) -> (r: Result<
        (),
        Rejected,
    >)
        ensures
            r == proposal(old(self).floor@, stow_slot@, is_locked),
            any_locked(old(self).floor@, stow_slot@) ==> r == Err::<(), Rejected>(
                Rejected::LockedAisle,
            ),
            final(self).lowest_pph@ == old(self).lowest_pph@,
            r is Err ==> final(self).floor@ == old(self).floor@ && final(self).stow_slots@ == old(
                self,
            ).stow_slots@,
            r is Ok ==> slot_views(final(self).stow_slots@) == slot_views(
                old(self).stow_slots@,
            ).push(accepted(stow_slot@, is_locked)),
            r is Ok && is_locked ==> final(self).floor@ == lock_floor(
                old(self).floor@,
                stow_slot@.cluster,
                sorted_numbers(stow_slot@.aisles),
                true,
            ),
            r is Ok && !is_locked ==> final(self).floor@ == old(self).floor@,
    {
        let letter = stow_slot.cluster();
        let ghost cs = self.floor@;
        let ghost given = stow_slot@;
        let mut i: usize = 0;
        while i < stow_slot.aisles().len()
            invariant
                i <= given.aisles.len(),
                given == stow_slot@,
                letter == given.cluster,
                cs == self.floor@,
                forall|j: int|
                    0 <= j < i ==> !(#[trigger] floor_aisle_at(cs, letter, given.aisles[j] as int)
                        matches Some(a) && a.locked),
            decreases given.aisles.len() - i,
        {
            let n: u32 = stow_slot.aisles()[i];
            match self.floor.get_aisle_in_cluster(letter, n) {
                Some(a) => {
                    if a.locked {
                        assert(floor_aisle_at(cs, letter, given.aisles[i as int] as int)
                            matches Some(a) && a.locked);
                        return Err(Rejected::LockedAisle);
                    }
                },
                None => {},
            }
            i = i + 1;
        }
        assert(!any_locked(cs, given));
        let nums = sort_numbers(stow_slot.aisles());
        match self.floor.get_cluster(letter) {
            None => {
                return Err(Rejected::Unplaced);
            },
            Some(c) => {
                if nums.len() == 0 {
                    return Err(Rejected::Unplaced);
                }
                let pairs = c.aisle_pairs();
                let first = c.pair_position(nums[0]);
                let last = c.pair_position(nums[nums.len() - 1]);
                if first >= pairs.len() || last >= pairs.len() {
                    return Err(Rejected::Unplaced);
                }
                if is_left_blocked(c, first) || is_right_blocked(c, last) {
                    return Err(Rejected::NotAllowed);
                }
            },
        }
        if is_locked && stow_slot.locked() {
            return Err(Rejected::AlreadyLocked);
        }
        if is_locked {
            self.floor.set_locks(letter, &nums, true);
        }
        let slot = stow_slot.relisted(nums, is_locked);
        let ghost before = slot_views(self.stow_slots@);
        self.stow_slots.push(slot);
        assert(slot_views(self.stow_slots@) =~= before.push(accepted(given, is_locked)));
        Ok(())
    }

    /// The line of each slot, in the order of the slots; none for a slot
    /// without aisles.
    pub fn display_stow_slots(&self) -> (r: Vec<Option<String>>)
        ensures
            r@.len() == self.stow_slots@.len(),
            forall|i: int|
                0 <= i < r@.len() ==> ((#[trigger] r@[i]) is None
                    <==> self.stow_slots@[i]@.aisles.len() == 0),
            forall|i: int|
                0 <= i < r@.len() && (#[trigger] r@[i]) is Some ==> r@[i]->Some_0@
                    == self.stow_slots@[i]@.range_text(),
    {
        let mut lines: Vec<Option<String>> = Vec::new();
        let mut i: usize = 0;
        while i < self.stow_slots.len()
            invariant
                i <= self.stow_slots@.len(),
                lines@.len() == i,
                forall|j: int|
                    0 <= j < i ==> ((#[trigger] lines@[j]) is None
                        <==> self.stow_slots@[j]@.aisles.len() == 0),
                forall|j: int|
                    0 <= j < i && (#[trigger] lines@[j]) is Some ==> lines@[j]->Some_0@
                        == self.stow_slots@[j]@.range_text(),
            decreases self.stow_slots@.len() - i,
        {
            lines.push(self.stow_slots[i].display_aisle_range());
            i = i + 1;
        }
        lines
    }

    /// How many slots each cluster of the floor has, in the order of the
    /// floor.
    pub fn stow_slots_per_cluster(&self) -> (r: Vec<(char, usize)>)
        ensures
            r@.len() == self.floor@.len(),
            forall|i: int|
                0 <= i < r@.len() ==> (#[trigger] r@[i]).0 == self.floor@[i].letter && r@[i].1
                    == count_in(slot_views(self.stow_slots@), self.floor@[i].letter),
    {
        let clusters = self.floor.clusters();
        let mut counts: Vec<(char, usize)> = Vec::new();
        let mut i: usize = 0;
        while i < clusters.len()
            invariant
                i <= clusters@.len(),
                self.floor@ == views(clusters@),
                counts@.len() == i,
                forall|j: int|
                    0 <= j < i ==> (#[trigger] counts@[j]).0 == self.floor@[j].letter && counts@[j].1
                        == count_in(slot_views(self.stow_slots@), self.floor@[j].letter),
            decreases clusters@.len() - i,
        {
            let letter = clusters[i].letter();
            assert(self.floor@[i as int] == clusters@[i as int]@);
            counts.push((letter, self.slots_in_cluster(letter)));
            i = i + 1;
        }
        counts
    }

    /// How many of the slots are of cluster `letter`.
    pub fn slots_in_cluster(&self, letter: char) -> (r: usize)
        ensures
            r == count_in(slot_views(self.stow_slots@), letter),
    {
        let ghost all = slot_views(self.stow_slots@);
        let mut count: usize = 0;
        let mut i: usize = 0;
        assert(all.take(0) =~= Seq::<SlotView>::empty());
        while i < self.stow_slots.len()
            invariant
                i <= self.stow_slots@.len(),
                all == slot_views(self.stow_slots@),
                count == count_in(all.take(i as int), letter),
                count <= i,
            decreases self.stow_slots@.len() - i,
        {
            proof {
                assert(all.take(i + 1).drop_last() =~= all.take(i as int));
                assert(all.take(i + 1).last() == self.stow_slots@[i as int]@);
            }
            if self.stow_slots[i].cluster() == letter {
                count = count + 1;
            }
            i = i + 1;
        }
        assert(all.take(i as int) =~= all);
        count
    }

    /// The first slot that lists the aisle, open to change.
    pub fn get_stow_slot_from_aisle(&mut self, aisle: &Aisle) -> (r: Option<&mut StowSlot>)
        ensures
            r is Some <==> slot_index(
                slot_views(old(self).stow_slots@),
                aisle.cluster,
                aisle.aisle_num as int,
            ) < old(self).stow_slots@.len(),
            r matches Some(s) ==> *s == old(self).stow_slots@[slot_index(
                slot_views(old(self).stow_slots@),
                aisle.cluster,
                aisle.aisle_num as int,
            )] && final(self).stow_slots@ == old(self).stow_slots@.update(
                slot_index(
                    slot_views(old(self).stow_slots@),
                    aisle.cluster,
                    aisle.aisle_num as int,
                ),
                *final(s),
            ) && final(self).floor == old(self).floor && final(self).lowest_pph == old(
                self,
            ).lowest_pph,
            r is None ==> *final(self) == *old(self),
    {
        let i = find_slot(&self.stow_slots, aisle.cluster, aisle.aisle_num);
        if i < self.stow_slots.len() {
            Some(&mut self.stow_slots[i])
        } else {
            None
        }
    }

    /// Whether the allocator holds as many slots as `target_hc` or more:
    /// the state in which the headcount-target strategy would still have
    /// to bring the number of slots down.
    pub fn over_headcount(&self, target_hc: i32) -> (r: bool)
        ensures
            r == (self.stow_slots@.len() >= target_hc),
    {
        if target_hc <= 0 {
            true
        } else {
            self.stow_slots.len() >= target_hc as usize
        }
    }

    /// Runs the strategy that `algorithm` names.
    pub fn start_algorithm(&mut self, algorithm: AlgorithmConfig)
        ensures
            final(self).floor@ == old(self).floor@,
            algorithm.algorithm == Algorithm::TargetPPH ==> final(self).lowest_pph@ == old(
                self,
            ).lowest_pph@ && slot_views(final(self).stow_slots@) == pph_slots(
                old(self).floor@,
                algorithm.target_pph as int,
                algorithm.total_hours.spec_millis(),
            ),
            algorithm.algorithm == Algorithm::TargetHC ==> slot_views(final(self).lowest_pph@)
                == candidates_upto(
                old(self).floor@,
                old(self).floor@.len() as int,
                3,
                algorithm.total_hours.spec_millis(),
            ) && slot_views(final(self).stow_slots@) == fill_floor(
                old(self).floor@,
                old(self).floor@.len() as int,
                2,
                algorithm.total_hours.spec_millis(),
            ),
    {
        match algorithm.algorithm {
            Algorithm::TargetPPH => self.start_algorithm_target_pph(algorithm),
            Algorithm::TargetHC => self.start_algorithm_target_hc(algorithm),
        }
    }
}

} // verus!

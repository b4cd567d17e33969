use stow_slots::aisle::BagRecord;
use stow_slots::builder::StowSlotBuilder;
use stow_slots::config::{Algorithm, AlgorithmConfig};
use stow_slots::error::Rejected;
use stow_slots::floor::Floor;
use stow_slots::hours::Hours;
use stow_slots::zone::SortZone;

fn record(cluster: char, aisle: u32, packages: i32) -> BagRecord {
    BagRecord {
        sort_zone: SortZone { cluster, aisle, level: 1, column: 'A' },
        planned_bag_count: 1,
        planned_package_count: packages,
    }
}

fn config(algorithm: Algorithm, target_pph: i32, millis: u32) -> AlgorithmConfig {
    AlgorithmConfig {
        algorithm,
        target_pph,
        total_hours: Hours::from_millis(millis).unwrap(),
        target_hc: 30,
        max_aisle_count: 3,
        min_aisle_count: 2,
    }
}

fn four_aisles_of_a_hundred() -> Floor {
    Floor::new(vec![
        record('A', 1, 100),
        record('A', 2, 100),
        record('A', 3, 100),
        record('A', 4, 100),
    ])
}

// A slot takes an aisle on while its rate before the aisle is at most the
// target: at 250 the slot of aisles 1 and 2 stands at 200 and still takes
// aisle 3.
#[test]
fn throughput_target_250_over_four_aisles() {
    let mut builder = StowSlotBuilder::new(four_aisles_of_a_hundred());
    builder.start_algorithm_target_pph(config(Algorithm::TargetPPH, 250, 1000));
    assert_eq!(builder.total_stow_slots(), 2);
    assert_eq!(builder.stow_slots[0].aisles(), &vec![1, 2, 3]);
    assert_eq!(builder.stow_slots[1].aisles(), &vec![4]);
    assert_eq!(builder.stow_slots[0].total_packages(), 300);
    assert_eq!(builder.stow_slots[1].total_packages(), 100);
    assert_eq!(builder.stow_slots[0].cluster(), 'A');
    assert!(!builder.stow_slots[0].is_floater());
    assert!(builder.stow_slots[1].is_floater());
}

#[test]
fn throughput_target_150_cuts_four_aisles_into_two_pairs() {
    let mut builder = StowSlotBuilder::new(four_aisles_of_a_hundred());
    builder.start_algorithm_target_pph(config(Algorithm::TargetPPH, 150, 1000));
    assert_eq!(builder.total_stow_slots(), 2);
    assert_eq!(builder.stow_slots[0].aisles(), &vec![1, 2]);
    assert_eq!(builder.stow_slots[1].aisles(), &vec![3, 4]);
    assert_eq!(builder.stow_slots[0].total_packages(), 200);
    assert_eq!(builder.stow_slots[1].total_packages(), 200);
    assert!(builder.stow_slots[0].is_consecutive());
    assert!(builder.stow_slots[1].is_consecutive());
}

fn run(first: u32, last: u32, cluster: char, packages: i32) -> Vec<BagRecord> {
    let mut out = Vec::new();
    for n in first..=last {
        out.push(record(cluster, n, packages));
    }
    out
}

fn listed(builder: &StowSlotBuilder) -> Vec<(char, Vec<u32>, i128)> {
    let mut out = Vec::new();
    for s in &builder.stow_slots {
        out.push((s.cluster(), s.aisles().clone(), s.total_packages()));
    }
    out
}

#[test]
fn throughput_target_starts_a_slot_after_a_gap_and_in_each_cluster() {
    let mut records = vec![record('A', 1, 10), record('A', 2, 10), record('A', 4, 10)];
    records.push(record('B', 3, 10));
    records.push(record('A', 5, 10));
    records.push(record('B', 0, 10));
    let mut builder = Floor::new(records).create_stow_slot_builder();
    builder.start_algorithm_target_pph(config(Algorithm::TargetPPH, 1000, 1000));
    assert_eq!(
        listed(&builder),
        vec![
            ('A', vec![1, 2], 20),
            ('A', vec![4, 5], 20),
            ('B', vec![0], 10),
            ('B', vec![3], 10),
        ]
    );
    assert_eq!(builder.stow_slots_per_cluster(), vec![('A', 2), ('B', 2)]);
    assert_eq!(builder.slots_in_cluster('A'), 2);
    assert_eq!(builder.slots_in_cluster('C'), 0);
}

#[test]
fn throughput_target_below_every_rate_gives_one_slot_per_aisle() {
    let mut builder = StowSlotBuilder::new(four_aisles_of_a_hundred());
    builder.start_algorithm_target_pph(config(Algorithm::TargetPPH, 99, 1000));
    assert_eq!(
        listed(&builder),
        vec![('A', vec![1], 100), ('A', vec![2], 100), ('A', vec![3], 100), ('A', vec![4], 100)]
    );
}

#[test]
fn throughput_target_counts_the_hours() {
    // Over two hours each aisle is 50 an hour: at 100 a slot takes three.
    let mut builder = StowSlotBuilder::new(four_aisles_of_a_hundred());
    builder.start_algorithm_target_pph(config(Algorithm::TargetPPH, 100, 2000));
    assert_eq!(listed(&builder), vec![('A', vec![1, 2, 3], 300), ('A', vec![4], 100)]);
    assert!(builder.stow_slots[0].is_floater());
}

#[test]
fn throughput_target_starts_from_no_slot_each_run() {
    let mut builder = StowSlotBuilder::new(four_aisles_of_a_hundred());
    builder.start_algorithm_target_pph(config(Algorithm::TargetPPH, 150, 1000));
    builder.start_algorithm_target_pph(config(Algorithm::TargetPPH, 150, 1000));
    assert_eq!(builder.total_stow_slots(), 2);
}

#[test]
fn start_algorithm_runs_the_named_strategy() {
    let mut builder = StowSlotBuilder::new(four_aisles_of_a_hundred());
    builder.start_algorithm(config(Algorithm::TargetPPH, 150, 1000));
    assert_eq!(listed(&builder), vec![('A', vec![1, 2], 200), ('A', vec![3, 4], 200)]);
    assert!(builder.lowest_pph.is_empty());
    builder.start_algorithm(config(Algorithm::TargetHC, 150, 1000));
    assert_eq!(listed(&builder), vec![('A', vec![1, 2, 3, 4], 400)]);
}

#[test]
fn default_settings() {
    let c = AlgorithmConfig::default();
    assert_eq!(c.algorithm, Algorithm::TargetPPH);
    assert_eq!(c.target_pph, 250);
    assert_eq!(c.total_hours.millis(), 6500);
    assert_eq!(c.target_hc, 30);
    assert_eq!(c.max_aisle_count, 3);
    assert_eq!(c.min_aisle_count, 2);
    assert_eq!(Algorithm::default(), Algorithm::TargetPPH);
}

#[test]
fn found_slot_can_be_grown() {
    let mut builder = StowSlotBuilder::new(four_aisles_of_a_hundred());
    builder.start_algorithm_target_pph(config(Algorithm::TargetPPH, 150, 1000));
    let extra = stow_slots::aisle::Aisle::new('A', 9);
    let three = stow_slots::aisle::Aisle::new('A', 3);
    match builder.get_stow_slot_from_aisle(&three) {
        Some(slot) => slot.add_aisle(&extra),
        None => panic!("aisle 3 is in a slot"),
    }
    assert_eq!(listed(&builder), vec![('A', vec![1, 2], 200), ('A', vec![3, 4, 9], 200)]);
    assert!(builder.get_stow_slot_from_aisle(&stow_slots::aisle::Aisle::new('A', 5)).is_none());
    assert!(builder.get_stow_slot_from_aisle(&stow_slots::aisle::Aisle::new('B', 3)).is_none());
}

// Aisles 1 to 8 of cluster A with 80, 70, ... 10 packages.
fn eight() -> Vec<BagRecord> {
    let mut out = Vec::new();
    for n in 1..=8u32 {
        out.push(record('A', n, (9 - n as i32) * 10));
    }
    out
}

fn windows(slots: &Vec<stow_slots::slot::StowSlot>) -> Vec<(char, Vec<u32>, i128)> {
    let mut out = Vec::new();
    for s in slots {
        out.push((s.cluster(), s.aisles().clone(), s.total_packages()));
    }
    out
}

#[test]
fn lowest_windows_come_lowest_rate_first() {
    let builder = StowSlotBuilder::new(Floor::new(eight()));
    let hours = Hours::from_millis(1000).unwrap();
    let cluster = builder.floor.get_cluster('A').unwrap();
    let found = builder.get_lowest_pph(cluster, 3, 3, hours);
    assert_eq!(
        windows(&found),
        vec![('A', vec![3, 4, 5, 6, 7, 8], 210), ('A', vec![1, 2, 3, 4, 5, 6], 330)]
    );
    assert!(!found[0].locked());
    assert!(!found[0].is_floater());
    let each = builder.get_lowest_pph(cluster, 1, 3, hours);
    assert_eq!(
        windows(&each),
        vec![
            ('A', vec![7, 8], 30),
            ('A', vec![5, 6], 70),
            ('A', vec![3, 4], 110),
            ('A', vec![1, 2], 150),
        ]
    );
    assert!(each[3].is_floater());
    assert!(builder.get_lowest_pph(cluster, 5, 3, hours).is_empty());
    assert_eq!(windows(&builder.get_lowest_pph(cluster, 4, 3, hours)).len(), 1);
    assert!(builder.get_lowest_pph(cluster, usize::MAX, 3, hours).is_empty());
}

#[test]
fn lowest_windows_of_one_rate_keep_their_order() {
    let builder = StowSlotBuilder::new(Floor::new(run(1, 6, 'A', 10)));
    let hours = Hours::from_millis(1000).unwrap();
    let cluster = builder.floor.get_cluster('A').unwrap();
    assert_eq!(
        windows(&builder.get_lowest_pph(cluster, 1, 3, hours)),
        vec![('A', vec![1, 2], 20), ('A', vec![3, 4], 20), ('A', vec![5, 6], 20)]
    );
}

#[test]
fn lowest_windows_leave_out_locked_aisles() {
    let mut floor = Floor::new(eight());
    // Aisle 2 is the second aisle of the first pair.
    assert!(floor.toggle_lock('A', 2));
    let builder = StowSlotBuilder::new(floor);
    let hours = Hours::from_millis(1000).unwrap();
    let cluster = builder.floor.get_cluster('A').unwrap();
    assert_eq!(
        windows(&builder.get_lowest_pph(cluster, 3, 3, hours)),
        vec![('A', vec![3, 4, 5, 6, 7, 8], 210)]
    );
    let mut floor = Floor::new(eight());
    assert!(floor.toggle_lock('A', 3));
    let builder = StowSlotBuilder::new(floor);
    let cluster = builder.floor.get_cluster('A').unwrap();
    assert!(builder.get_lowest_pph(cluster, 3, 3, hours).is_empty());
}

#[test]
fn fill_takes_two_pairs_to_a_slot() {
    let mut builder = StowSlotBuilder::new(Floor::new(eight()));
    builder.fill_stow_slots_around_locked(2, Hours::from_millis(1000).unwrap());
    assert_eq!(
        listed(&builder),
        vec![('A', vec![1, 2, 3, 4], 260), ('A', vec![5, 6, 7, 8], 100)]
    );
    builder.fill_stow_slots_around_locked(3, Hours::from_millis(1000).unwrap());
    assert_eq!(
        listed(&builder),
        vec![('A', vec![1, 2, 3, 4, 5, 6], 330), ('A', vec![7, 8], 30)]
    );
    builder.fill_stow_slots_around_locked(1, Hours::from_millis(1000).unwrap());
    assert_eq!(builder.total_stow_slots(), 4);
    builder.fill_stow_slots_around_locked(9, Hours::from_millis(1000).unwrap());
    assert_eq!(listed(&builder), vec![('A', vec![1, 2, 3, 4, 5, 6, 7, 8], 360)]);
}

#[test]
fn fill_stops_at_a_locked_pair_and_leaves_it_out() {
    let mut floor = Floor::new(eight());
    assert!(floor.toggle_lock('A', 4));
    let mut builder = StowSlotBuilder::new(floor);
    builder.fill_stow_slots_around_locked(2, Hours::from_millis(1000).unwrap());
    assert_eq!(listed(&builder), vec![('A', vec![1, 2], 150), ('A', vec![5, 6, 7, 8], 100)]);
}

#[test]
fn fill_ends_each_cluster_with_a_slot_even_an_empty_one() {
    let mut floor = Floor::new(eight());
    assert!(floor.toggle_lock('A', 7));
    let mut builder = StowSlotBuilder::new(floor);
    builder.fill_stow_slots_around_locked(2, Hours::from_millis(1000).unwrap());
    assert_eq!(
        listed(&builder),
        vec![('A', vec![1, 2, 3, 4], 260), ('A', vec![5, 6], 70), ('A', vec![], 0)]
    );
    let mut bare = StowSlotBuilder::new(Floor::new(vec![record('A', 2, 5)]));
    bare.fill_stow_slots_around_locked(2, Hours::from_millis(1000).unwrap());
    assert_eq!(listed(&bare), vec![('A', vec![], 0)]);
    let mut none = StowSlotBuilder::new(Floor::new(Vec::new()));
    none.fill_stow_slots_around_locked(2, Hours::from_millis(1000).unwrap());
    assert!(none.stow_slots.is_empty());
}

#[test]
fn fill_with_no_room_closes_before_every_pair() {
    let mut builder = StowSlotBuilder::new(Floor::new(run(1, 4, 'A', 10)));
    builder.fill_stow_slots_around_locked(0, Hours::from_millis(1000).unwrap());
    assert_eq!(
        listed(&builder),
        vec![('A', vec![], 0), ('A', vec![1, 2], 20), ('A', vec![3, 4], 20)]
    );
}

#[test]
fn headcount_target_keeps_windows_and_fills() {
    let mut records = eight();
    records.extend(run(1, 6, 'B', 5));
    let mut builder = StowSlotBuilder::new(Floor::new(records));
    builder.start_algorithm_target_hc(config(Algorithm::TargetHC, 250, 1000));
    assert_eq!(
        windows(&builder.lowest_pph),
        vec![
            ('B', vec![1, 2, 3, 4, 5, 6], 30),
            ('A', vec![3, 4, 5, 6, 7, 8], 210),
            ('A', vec![1, 2, 3, 4, 5, 6], 330),
        ]
    );
    assert_eq!(
        listed(&builder),
        vec![
            ('A', vec![1, 2, 3, 4], 260),
            ('A', vec![5, 6, 7, 8], 100),
            ('B', vec![1, 2, 3, 4], 20),
            ('B', vec![5, 6], 10),
        ]
    );
    assert_eq!(builder.stow_slots_per_cluster(), vec![('A', 2), ('B', 2)]);
    assert!(builder.over_headcount(4));
    assert!(builder.over_headcount(3));
    assert!(!builder.over_headcount(5));
    assert!(builder.over_headcount(0));
    assert!(builder.over_headcount(-1));
}

fn proposal(builder: &StowSlotBuilder, cluster: char, aisles: &[u32]) -> stow_slots::slot::StowSlot {
    let mut found = Vec::new();
    for n in aisles {
        found.push(builder.floor.get_aisle_in_cluster(cluster, *n).unwrap());
    }
    stow_slots::slot::StowSlot::new(cluster, found, Hours::from_millis(1000).unwrap())
}

#[test]
fn proposal_is_taken_sorted_and_locked() {
    let mut builder = StowSlotBuilder::new(Floor::new(run(1, 6, 'A', 10)));
    let slot = proposal(&builder, 'A', &[2, 1]);
    assert_eq!(builder.add_stow_slot(slot, true), Ok(()));
    assert_eq!(listed(&builder), vec![('A', vec![1, 2], 20)]);
    assert!(builder.stow_slots[0].locked());
    assert!(builder.floor.get_aisle_in_cluster('A', 1).unwrap().locked);
    assert!(builder.floor.get_aisle_in_cluster('A', 2).unwrap().locked);
    assert!(!builder.floor.get_aisle_in_cluster('A', 3).unwrap().locked);
}

#[test]
fn proposal_without_lock_leaves_the_floor() {
    let mut builder = StowSlotBuilder::new(Floor::new(run(1, 6, 'A', 10)));
    let slot = proposal(&builder, 'A', &[1, 2]);
    assert_eq!(builder.add_stow_slot(slot, false), Ok(()));
    assert!(!builder.stow_slots[0].locked());
    assert!(!builder.floor.get_aisle_in_cluster('A', 1).unwrap().locked);
    let single = StowSlotBuilder::new(Floor::new(run(1, 2, 'A', 10)));
    let mut single = single;
    let slot = proposal(&single, 'A', &[2]);
    assert_eq!(single.add_stow_slot(slot, false), Ok(()));
}

#[test]
fn proposal_with_a_locked_aisle_is_refused_first() {
    let mut floor = Floor::new(run(1, 6, 'A', 10));
    assert!(floor.toggle_lock('A', 3));
    let mut builder = StowSlotBuilder::new(floor);
    // The second pair also has an unlocked pair before it, which alone
    // would forbid the slot.
    let slot = proposal(&builder, 'A', &[3, 4]);
    assert_eq!(builder.add_stow_slot(slot, false), Err(Rejected::LockedAisle));
    let slot = proposal(&builder, 'A', &[1, 3]);
    assert_eq!(builder.add_stow_slot(slot, true), Err(Rejected::LockedAisle));
    // Built elsewhere with an aisle that no pair holds beside the locked one.
    let stray = stow_slots::aisle::Aisle::new('A', 40);
    let three = stow_slots::aisle::Aisle::new('A', 3);
    let slot = stow_slots::slot::StowSlot::new(
        'A',
        vec![&stray, &three],
        Hours::from_millis(1000).unwrap(),
    );
    assert_eq!(builder.add_stow_slot(slot, false), Err(Rejected::LockedAisle));
    assert!(builder.stow_slots.is_empty());
    assert!(!builder.floor.get_aisle_in_cluster('A', 1).unwrap().locked);
}

#[test]
fn proposal_off_the_floor_is_refused() {
    let mut builder = StowSlotBuilder::new(Floor::new(vec![
        record('A', 1, 1),
        record('A', 2, 1),
        record('A', 4, 1),
    ]));
    let hours = Hours::from_millis(1000).unwrap();
    let empty = stow_slots::slot::StowSlot::new('A', Vec::new(), hours);
    assert_eq!(builder.add_stow_slot(empty, false), Err(Rejected::Unplaced));
    let one = stow_slots::aisle::Aisle::new('Z', 1);
    let other = stow_slots::slot::StowSlot::new('Z', vec![&one], hours);
    assert_eq!(builder.add_stow_slot(other, false), Err(Rejected::Unplaced));
    // Aisle 4 has no odd aisle below it and is in no pair.
    let unpaired = proposal(&builder, 'A', &[4]);
    assert_eq!(builder.add_stow_slot(unpaired, false), Err(Rejected::Unplaced));
    let mixed = proposal(&builder, 'A', &[1, 4]);
    assert_eq!(builder.add_stow_slot(mixed, false), Err(Rejected::Unplaced));
    assert!(builder.stow_slots.is_empty());
}

#[test]
fn proposal_is_refused_by_the_pairs_before_it() {
    // One pair before it, with an unlocked aisle.
    let mut builder = StowSlotBuilder::new(Floor::new(run(1, 6, 'A', 10)));
    let slot = proposal(&builder, 'A', &[3, 4]);
    assert_eq!(builder.add_stow_slot(slot, false), Err(Rejected::NotAllowed));
    // Two pairs before it: the far one locked, the near one not.
    let first = proposal(&builder, 'A', &[1, 2]);
    assert_eq!(builder.add_stow_slot(first, true), Ok(()));
    let slot = proposal(&builder, 'A', &[5, 6]);
    assert_eq!(builder.add_stow_slot(slot, false), Err(Rejected::NotAllowed));
    assert_eq!(builder.total_stow_slots(), 1);
    // With both pairs before it unlocked nothing forbids it.
    let mut open = StowSlotBuilder::new(Floor::new(run(1, 6, 'A', 10)));
    let slot = proposal(&open, 'A', &[5, 6]);
    assert_eq!(open.add_stow_slot(slot, false), Ok(()));
}

#[test]
fn proposal_is_refused_by_the_pairs_behind_it() {
    // One pair behind it, with an unlocked aisle.
    let mut builder = StowSlotBuilder::new(Floor::new(run(1, 4, 'A', 10)));
    let slot = proposal(&builder, 'A', &[1, 2]);
    assert_eq!(builder.add_stow_slot(slot, false), Err(Rejected::NotAllowed));
    // With that pair locked throughout the slot is taken.
    builder.floor.set_locks('A', &vec![3, 4], true);
    let slot = proposal(&builder, 'A', &[1, 2]);
    assert_eq!(builder.add_stow_slot(slot, false), Ok(()));
    // Two pairs behind it: the far one locked, the near one not.
    let mut floor = Floor::new(run(1, 6, 'A', 10));
    assert!(floor.toggle_lock('A', 5));
    let mut far = StowSlotBuilder::new(floor);
    let slot = proposal(&far, 'A', &[1, 2]);
    assert_eq!(far.add_stow_slot(slot, false), Err(Rejected::NotAllowed));
    // The far one locked and the near one locked throughout.
    far.floor.set_locks('A', &vec![3, 4], true);
    let slot = proposal(&far, 'A', &[1, 2]);
    assert_eq!(far.add_stow_slot(slot, false), Ok(()));
}

#[test]
fn proposal_that_is_locked_cannot_be_locked_again() {
    let mut builder = StowSlotBuilder::new(Floor::new(run(1, 6, 'A', 10)));
    let mut scratch = Floor::new(run(1, 6, 'A', 10));
    let mut slot = proposal(&builder, 'A', &[1, 2]);
    slot.toggle_lock(&mut scratch);
    assert!(slot.locked());
    assert_eq!(builder.add_stow_slot(slot, true), Err(Rejected::AlreadyLocked));
    assert!(builder.stow_slots.is_empty());
    let mut slot = proposal(&builder, 'A', &[1, 2]);
    slot.toggle_lock(&mut scratch);
    assert_eq!(builder.add_stow_slot(slot, false), Ok(()));
    assert!(builder.stow_slots[0].locked());
    assert!(!builder.floor.get_aisle_in_cluster('A', 1).unwrap().locked);
}

#[test]
fn rejection_messages() {
    assert_eq!(Rejected::LockedAisle.message(), "Stow slot contains locked aisles");
    assert_eq!(Rejected::Unplaced.message(), "Stow slot is not on the floor");
    assert_eq!(Rejected::NotAllowed.message(), "Stow slot is not allowed to be created");
    assert_eq!(Rejected::AlreadyLocked.message(), "Stow slot is already locked");
}

#[test]
fn slot_lines_of_the_allocator() {
    let mut floor = Floor::new(eight());
    assert!(floor.toggle_lock('A', 7));
    let mut builder = StowSlotBuilder::new(floor);
    builder.fill_stow_slots_around_locked(2, Hours::from_millis(2000).unwrap());
    assert_eq!(
        builder.display_stow_slots(),
        vec![
            Some("A-1 - A-4: 130 PPH, is floater: true".to_string()),
            Some("A-5 - A-6: 35 PPH, is floater: true".to_string()),
            None,
        ]
    );
}

use stow_slots::aisle::{Aisle, BagRecord};
use stow_slots::floor::Floor;
use stow_slots::hours::{Hours, Rate};
use stow_slots::slot::StowSlot;
use stow_slots::zone::SortZone;

fn aisle(cluster: char, aisle_num: u32, packages: &[i32]) -> Aisle {
    let mut a = Aisle::new(cluster, aisle_num);
    for p in packages {
        a.bag_records.push(BagRecord {
            sort_zone: SortZone { cluster, aisle: aisle_num, level: 1, column: 'A' },
            planned_bag_count: 1,
            planned_package_count: *p,
        });
    }
    a
}

fn hours(millis: u32) -> Hours {
    Hours::from_millis(millis).unwrap()
}

#[test]
fn hours_must_be_positive() {
    assert_eq!(Hours::from_millis(0).err(), Some(stow_slots::error::FormatError::TotalHours));
    assert_eq!(Hours::from_millis(1).unwrap().millis(), 1);
    assert_eq!(Hours::default().millis(), 6500);
    assert_eq!(Hours::from_millis(u32::MAX).unwrap().millis(), u32::MAX);
}

#[test]
fn rate_comparison_is_exact() {
    // 975 packages over 6.5 hours are exactly 150 an hour.
    let at = Rate { packages: 975, hours: hours(6500) };
    assert!(at.at_most(150));
    assert!(!at.at_most(149));
    assert!(at.is_floater());
    let above = Rate { packages: 976, hours: hours(6500) };
    assert!(!above.at_most(150));
    assert!(!above.is_floater());
    let below = Rate { packages: -1, hours: hours(1) };
    assert!(below.at_most(0));
    assert!(!below.at_most(-1001));
    assert!(below.at_most(-1000));
    let huge = Rate { packages: i128::MAX, hours: hours(u32::MAX) };
    assert!(!huge.at_most(i32::MAX));
    let tiny = Rate { packages: i128::MIN, hours: hours(u32::MAX) };
    assert!(tiny.at_most(i32::MIN));
    assert!(hours(2000).at_most(300, 150));
    assert!(!hours(2000).at_most(301, 150));
}

#[test]
fn new_slot_sums_its_aisles() {
    let a1 = aisle('A', 1, &[10, 20]);
    let a2 = aisle('A', 2, &[30]);
    let slot = StowSlot::new('A', vec![&a1, &a2], hours(1000));
    assert_eq!(slot.cluster(), 'A');
    assert_eq!(slot.aisles(), &vec![1, 2]);
    assert_eq!(slot.total_packages(), 60);
    assert_eq!(slot.pph().packages, 60);
    assert_eq!(slot.pph().hours.millis(), 1000);
    assert!(slot.is_floater());
    assert!(!slot.locked());
    let empty = StowSlot::new('B', Vec::new(), hours(1000));
    assert!(empty.aisles().is_empty());
    assert_eq!(empty.total_packages(), 0);
    assert!(empty.is_floater());
    assert!(empty.is_consecutive());
}

#[test]
fn floater_includes_exactly_150() {
    let at = aisle('A', 1, &[150]);
    let over = aisle('A', 2, &[151]);
    let under = aisle('A', 3, &[149]);
    assert!(StowSlot::new('A', vec![&at], hours(1000)).is_floater());
    assert!(!StowSlot::new('A', vec![&over], hours(1000)).is_floater());
    assert!(StowSlot::new('A', vec![&under], hours(1000)).is_floater());
    // The same packages over half an hour are 300 an hour.
    assert!(!StowSlot::new('A', vec![&at], hours(500)).is_floater());
    // 975 over 6.5 hours are 150 an hour; one more is above.
    let edge = aisle('A', 4, &[900, 75]);
    assert!(StowSlot::new('A', vec![&edge], hours(6500)).is_floater());
    let past = aisle('A', 5, &[900, 76]);
    assert!(!StowSlot::new('A', vec![&past], hours(6500)).is_floater());
}

#[test]
fn floater_is_taken_anew_with_each_aisle() {
    let a1 = aisle('A', 1, &[100]);
    let a2 = aisle('A', 2, &[50]);
    let a3 = aisle('A', 3, &[1]);
    let mut slot = StowSlot::new('A', vec![&a1], hours(1000));
    assert!(slot.is_floater());
    slot.add_aisle(&a2);
    assert_eq!(slot.total_packages(), 150);
    assert!(slot.is_floater());
    slot.add_aisle(&a3);
    assert_eq!(slot.total_packages(), 151);
    assert_eq!(slot.aisles(), &vec![1, 2, 3]);
    assert!(!slot.is_floater());
    let back = aisle('A', 4, &[-1]);
    slot.add_aisle(&back);
    assert!(slot.is_floater());
}

#[test]
fn add_aisles_appends_in_order() {
    let a1 = aisle('A', 1, &[1]);
    let a5 = aisle('A', 5, &[5]);
    let a3 = aisle('A', 3, &[3]);
    let mut slot = StowSlot::new('A', vec![&a1], hours(1000));
    slot.add_aisles(vec![&a5, &a3]);
    assert_eq!(slot.aisles(), &vec![1, 5, 3]);
    assert_eq!(slot.total_packages(), 9);
    slot.add_aisles(Vec::new());
    assert_eq!(slot.aisles(), &vec![1, 5, 3]);
}

#[test]
fn consecutive_means_steps_of_one() {
    let a1 = aisle('A', 1, &[1]);
    let a2 = aisle('A', 2, &[1]);
    let a3 = aisle('A', 3, &[1]);
    let top = aisle('A', u32::MAX, &[1]);
    let zero = aisle('A', 0, &[1]);
    assert!(StowSlot::new('A', vec![&a1, &a2, &a3], hours(1)).is_consecutive());
    assert!(StowSlot::new('A', vec![&a2], hours(1)).is_consecutive());
    assert!(!StowSlot::new('A', vec![&a1, &a3], hours(1)).is_consecutive());
    assert!(!StowSlot::new('A', vec![&a2, &a1], hours(1)).is_consecutive());
    assert!(!StowSlot::new('A', vec![&a1, &a1], hours(1)).is_consecutive());
    assert!(!StowSlot::new('A', vec![&top, &zero], hours(1)).is_consecutive());
}

#[test]
fn slot_lock_reaches_the_floor() {
    let mut records = Vec::new();
    for n in 1..=4u32 {
        records.push(BagRecord {
            sort_zone: SortZone { cluster: 'A', aisle: n, level: 1, column: 'A' },
            planned_bag_count: 1,
            planned_package_count: 10,
        });
    }
    let mut floor = Floor::new(records);
    let mut slot = StowSlot::new(
        'A',
        vec![
            floor.get_aisle_in_cluster('A', 2).unwrap(),
            floor.get_aisle_in_cluster('A', 3).unwrap(),
        ],
        hours(1000),
    );
    slot.toggle_lock(&mut floor);
    assert!(slot.locked());
    assert!(!floor.get_aisle_in_cluster('A', 1).unwrap().locked);
    assert!(floor.get_aisle_in_cluster('A', 2).unwrap().locked);
    assert!(floor.get_aisle_in_cluster('A', 3).unwrap().locked);
    assert!(!floor.get_aisle_in_cluster('A', 4).unwrap().locked);
    slot.toggle_lock(&mut floor);
    assert!(!slot.locked());
    assert!(!floor.get_aisle_in_cluster('A', 2).unwrap().locked);
    assert!(!floor.get_aisle_in_cluster('A', 3).unwrap().locked);
    assert_eq!(slot.aisles(), &vec![2, 3]);
    assert_eq!(slot.total_packages(), 20);
}

#[test]
fn whole_rate_cuts_toward_zero_and_saturates() {
    assert_eq!(Rate { packages: 181, hours: hours(6500) }.whole(), 27);
    assert_eq!(Rate { packages: 975, hours: hours(6500) }.whole(), 150);
    assert_eq!(Rate { packages: 0, hours: hours(1) }.whole(), 0);
    assert_eq!(Rate { packages: -1, hours: hours(3000) }.whole(), 0);
    assert_eq!(Rate { packages: -7, hours: hours(2000) }.whole(), -3);
    assert_eq!(Rate { packages: 7, hours: hours(2000) }.whole(), 3);
    assert_eq!(Rate { packages: i128::MAX, hours: hours(u32::MAX) }.whole(), i32::MAX);
    assert_eq!(Rate { packages: i128::MIN, hours: hours(u32::MAX) }.whole(), i32::MIN);
    assert_eq!(Rate { packages: 2147483647, hours: hours(1000) }.whole(), i32::MAX);
    assert_eq!(Rate { packages: 2147483648, hours: hours(1000) }.whole(), i32::MAX);
    assert_eq!(Rate { packages: -2147483648, hours: hours(1000) }.whole(), i32::MIN);
    assert_eq!(Rate { packages: -2147483649, hours: hours(1000) }.whole(), i32::MIN);
    assert_eq!(Rate { packages: -2147483647, hours: hours(1000) }.whole(), -2147483647);
    assert_eq!(Rate { packages: 3, hours: hours(1) }.whole(), 3000);
}

#[test]
fn slot_lines() {
    let a1 = aisle('A', 1, &[100]);
    let a2 = aisle('A', 12, &[81]);
    let slot = StowSlot::new('A', vec![&a1, &a2], hours(6500));
    assert_eq!(slot.display_aisles(), vec!["A-1".to_string(), "A-12".to_string()]);
    assert_eq!(
        slot.display_aisle_range(),
        Some("A-1 - A-12: 27 PPH, is floater: true".to_string())
    );
    let fast = StowSlot::new('B', vec![&a1], hours(500));
    assert_eq!(
        fast.display_aisle_range(),
        Some("A-1 - A-1: 200 PPH, is floater: false".replace("A-", "B-"))
    );
    let back = aisle('C', 7, &[-45]);
    let low = StowSlot::new('C', vec![&back], hours(1000));
    assert_eq!(
        low.display_aisle_range(),
        Some("C-7 - C-7: -45 PPH, is floater: true".to_string())
    );
    let empty = StowSlot::new('A', Vec::new(), hours(1000));
    assert_eq!(empty.display_aisle_range(), None);
    assert!(empty.display_aisles().is_empty());
}

#[test]
fn clones_hold_the_same() {
    let a = aisle('A', 3, &[5, 6]);
    let b = a.clone();
    assert_eq!(a, b);
    let mut slot = StowSlot::new('A', vec![&a], hours(1000));
    let copy = slot.clone();
    slot.add_aisle(&b);
    assert_eq!(copy.aisles(), &vec![3]);
    assert_eq!(copy.total_packages(), 11);
    assert_eq!(copy.cluster(), 'A');
    assert!(copy.is_floater());
    assert!(!copy.locked());
    assert_eq!(slot.aisles(), &vec![3, 3]);
}

use stow_slots::aisle::{Aisle, AislePair, BagRecord};
use stow_slots::floor::{Direction, Floor};
use stow_slots::hours::Hours;
use stow_slots::zone::SortZone;

fn bag(cluster: char, aisle: u32, level: u32, packages: i32) -> BagRecord {
    BagRecord {
        sort_zone: SortZone { cluster, aisle, level, column: 'A' },
        planned_bag_count: 2,
        planned_package_count: packages,
    }
}

fn plan() -> Vec<BagRecord> {
    vec![
        bag('B', 4, 1, 40),
        bag('A', 3, 1, 7),
        bag('B', 2, 1, 20),
        bag('A', 1, 1, 5),
        bag('A', 3, 2, 11),
        bag('C', 9, 1, -3),
        bag('A', 2, 1, 100),
        bag('B', 4, 2, 1),
    ]
}

fn numbers(aisles: &Vec<Aisle>) -> Vec<u32> {
    let mut out = Vec::new();
    for a in aisles {
        out.push(a.aisle_num);
    }
    out
}

#[test]
fn clusters_stand_in_order_of_first_mention() {
    let floor = Floor::new(plan());
    let mut letters = Vec::new();
    for c in floor.clusters() {
        letters.push(c.letter());
    }
    assert_eq!(letters, vec!['B', 'A', 'C']);
}

#[test]
fn aisles_are_unique_and_ascending() {
    let floor = Floor::new(plan());
    assert_eq!(numbers(floor.get_cluster('A').unwrap().aisles()), vec![1, 2, 3]);
    assert_eq!(numbers(floor.get_cluster('B').unwrap().aisles()), vec![2, 4]);
    assert_eq!(numbers(floor.cluster('C').unwrap().aisles()), vec![9]);
    assert!(floor.get_cluster('D').is_none());
    assert!(floor.cluster('D').is_none());
}

#[test]
fn records_stay_in_plan_order_within_an_aisle() {
    let floor = Floor::new(plan());
    let a3 = floor.get_aisle_in_cluster('A', 3).unwrap();
    assert_eq!(a3.bag_records, vec![bag('A', 3, 1, 7), bag('A', 3, 2, 11)]);
    assert_eq!(a3.cluster, 'A');
    assert_eq!(a3.aisle_num, 3);
    assert!(!a3.locked);
    assert_eq!(a3.total_packages(), 18);
    let b4 = floor.get_aisle_in_cluster('B', 4).unwrap();
    assert_eq!(b4.bag_records, vec![bag('B', 4, 1, 40), bag('B', 4, 2, 1)]);
    assert!(floor.get_aisle_in_cluster('B', 3).is_none());
    assert!(floor.get_aisle_in_cluster('Z', 1).is_none());
}

#[test]
fn total_packages_is_the_sum_of_the_plan() {
    let floor = Floor::new(plan());
    assert_eq!(floor.get_total_packages(), 181);
    assert_eq!(floor.get_total_stow_slots(), 181);
    assert_eq!(floor.get_cluster('A').unwrap().get_total_packages(), 123);
    assert_eq!(floor.get_cluster('B').unwrap().get_total_packages(), 61);
    assert_eq!(floor.get_cluster('C').unwrap().get_total_packages(), -3);
}

#[test]
fn total_packages_does_not_depend_on_the_order_of_the_plan() {
    let mut records = plan();
    let expected = Floor::new(records.clone()).get_total_packages();
    for _ in 0..records.len() {
        records.rotate_left(1);
        assert_eq!(Floor::new(records.clone()).get_total_packages(), expected);
        let mut reversed = records.clone();
        reversed.reverse();
        let floor = Floor::new(reversed);
        assert_eq!(floor.get_total_packages(), expected);
        assert_eq!(numbers(floor.get_cluster('A').unwrap().aisles()), vec![1, 2, 3]);
    }
}

#[test]
fn total_packages_holds_sums_beyond_32_bits() {
    let mut records = Vec::new();
    for i in 0..4u32 {
        records.push(bag('A', i, 1, i32::MAX));
    }
    let floor = Floor::new(records);
    assert_eq!(floor.get_total_packages(), 4 * (i32::MAX as i128));
}

#[test]
fn empty_plan_gives_an_empty_floor() {
    let floor = Floor::new(Vec::new());
    assert!(floor.clusters().is_empty());
    assert_eq!(floor.get_total_packages(), 0);
    assert!(floor.get_all_aisle_pairs().is_empty());
}

#[test]
fn packages_per_hour_keeps_packages_and_hours() {
    let floor = Floor::new(plan());
    let hours = Hours::from_millis(6500).unwrap();
    let rate = floor.packages_per_hour(hours);
    assert_eq!(rate.packages, 181);
    assert_eq!(rate.hours.millis(), 6500);
    // 181 / 6.5 is 27.8...
    assert!(rate.at_most(28));
    assert!(!rate.at_most(27));
    let aisle = floor.get_aisle_in_cluster('A', 2).unwrap().get_aisle_pph(hours);
    assert_eq!(aisle.packages, 100);
}

#[test]
fn neighbor_is_the_aisle_one_lower_or_one_higher() {
    let floor = Floor::new(plan());
    assert_eq!(floor.neighbor('A', 2, Direction::Previous).unwrap().aisle_num, 1);
    assert_eq!(floor.neighbor('A', 2, Direction::Next).unwrap().aisle_num, 3);
    assert_eq!(floor.neighbor('A', 2, Direction::Next).unwrap().cluster, 'A');
    let cluster = floor.get_cluster('A').unwrap();
    assert_eq!(cluster.get_next_aisle(1).unwrap().aisle_num, 2);
    assert_eq!(cluster.get_previous_aisle(3).unwrap().aisle_num, 2);
}

#[test]
fn neighbor_does_not_wrap_or_reach_further() {
    let floor = Floor::new(plan());
    // No aisle below the first or above the last, whatever other clusters hold.
    assert!(floor.neighbor('A', 1, Direction::Previous).is_none());
    assert!(floor.neighbor('A', 3, Direction::Next).is_none());
    // B has aisles 2 and 4: neither is next to the other.
    assert!(floor.neighbor('B', 2, Direction::Next).is_none());
    assert!(floor.neighbor('B', 4, Direction::Previous).is_none());
    // One next to an aisle that is not there.
    assert_eq!(floor.neighbor('B', 3, Direction::Next).unwrap().aisle_num, 4);
    assert_eq!(floor.neighbor('B', 3, Direction::Previous).unwrap().aisle_num, 2);
    assert!(floor.neighbor('Z', 2, Direction::Next).is_none());
    let edge = Floor::new(vec![bag('A', 0, 1, 1), bag('A', u32::MAX, 1, 1)]);
    assert!(edge.neighbor('A', 0, Direction::Previous).is_none());
    assert!(edge.neighbor('A', u32::MAX, Direction::Next).is_none());
    let cluster = edge.get_cluster('A').unwrap();
    assert!(cluster.get_previous_aisle(0).is_none());
    assert!(cluster.get_next_aisle(u32::MAX).is_none());
}

#[test]
fn first_and_last_aisle() {
    let floor = Floor::new(plan());
    let b = floor.get_cluster('B').unwrap();
    assert_eq!(b.get_first_aisle().unwrap().aisle_num, 2);
    assert_eq!(b.get_last_aisle().unwrap().aisle_num, 4);
    assert_eq!(b.get_aisle(4).unwrap().total_packages(), 41);
    assert!(b.get_aisle(3).is_none());
}

fn five() -> Floor {
    Floor::new(vec![
        bag('A', 3, 1, 30),
        bag('A', 1, 1, 10),
        bag('A', 5, 1, 50),
        bag('A', 2, 1, 20),
        bag('A', 4, 1, 40),
    ])
}

fn pair(a: u32, b: Option<u32>) -> AislePair {
    AislePair { aisle1: Some(a), aisle2: b }
}

#[test]
fn pairs_of_aisles_one_to_five() {
    let floor = five();
    let cluster = floor.get_cluster('A').unwrap();
    assert_eq!(cluster.aisle_pairs(), &vec![pair(1, Some(2)), pair(3, Some(4)), pair(5, None)]);
}

#[test]
fn even_aisles_alone_make_no_pair() {
    let floor = Floor::new(vec![bag('A', 2, 1, 1), bag('A', 4, 1, 1)]);
    assert!(floor.get_cluster('A').unwrap().aisle_pairs().is_empty());
}

#[test]
fn pairs_skip_gaps_and_the_largest_number() {
    let floor = Floor::new(vec![
        bag('A', 1, 1, 1),
        bag('A', 3, 1, 1),
        bag('A', 4, 1, 1),
        bag('A', 6, 1, 1),
        bag('A', 7, 1, 1),
        bag('A', u32::MAX, 1, 1),
    ]);
    let cluster = floor.get_cluster('A').unwrap();
    assert_eq!(
        cluster.aisle_pairs(),
        &vec![pair(1, None), pair(3, Some(4)), pair(7, None), pair(u32::MAX, None)]
    );
}

#[test]
fn pairs_are_rebuilt_to_the_same() {
    let mut floor = five();
    floor.generate_aisle_pairs();
    assert_eq!(floor.get_cluster('A').unwrap().aisle_pairs().len(), 3);
    let all = floor.get_all_aisle_pairs();
    assert_eq!(all, vec![&pair(1, Some(2)), &pair(3, Some(4)), &pair(5, None)]);
}

#[test]
fn all_pairs_run_cluster_after_cluster() {
    let floor = Floor::new(vec![bag('B', 1, 1, 1), bag('A', 3, 1, 1), bag('B', 2, 1, 1)]);
    assert_eq!(floor.get_all_aisle_pairs(), vec![&pair(1, Some(2)), &pair(3, None)]);
}

#[test]
fn pair_lookups() {
    let floor = five();
    let cluster = floor.get_cluster('A').unwrap();
    let second = cluster.aisle_pairs()[1];
    assert!(second.is_complete());
    assert!(!cluster.aisle_pairs()[2].is_complete());
    assert_eq!(second.get_aisles(), vec![3, 4]);
    assert_eq!(cluster.aisle_pairs()[2].get_aisles(), vec![5]);
    assert_eq!(second.total_packages(cluster), 70);
    assert_eq!(cluster.aisle_pairs()[2].total_packages(cluster), 50);
    let found = cluster.get_aisles_from_pair(&second);
    assert_eq!(found.len(), 2);
    assert_eq!(found[0].aisle_num, 3);
    assert_eq!(found[1].aisle_num, 4);
    let four = cluster.get_aisle(4).unwrap();
    let (index, holder) = cluster.get_pair_from_aisle(four).unwrap();
    assert_eq!(index, 1);
    assert_eq!(*holder, second);
    assert!(cluster.get_pair_from_aisle(&Aisle::new('A', 6)).is_none());
    assert!(!cluster.pair_is_locked(&second));
    assert!(cluster.pair_is_unlocked(&second));
}

#[test]
fn pair_and_aisle_labels() {
    assert_eq!(pair(1, Some(2)).display('A'), "A-1 & A-2");
    assert_eq!(pair(5, None).display('B'), "B-5 (unpaired)");
    assert_eq!(AislePair { aisle1: None, aisle2: Some(6) }.display('B'), "B-6 (unpaired)");
    assert_eq!(AislePair { aisle1: None, aisle2: None }.display('B'), "Empty pair");
    assert_eq!(Aisle::new('C', 120).display_aisle(), "C-120");
}

#[test]
fn aisle_lock_toggles() {
    let mut aisle = Aisle::new('A', 1);
    assert!(!aisle.locked);
    aisle.toggle_lock();
    assert!(aisle.locked);
    aisle.toggle_lock();
    assert!(!aisle.locked);
    let fresh = Aisle::default();
    assert_eq!(fresh.aisle_num, 0);
    assert!(fresh.bag_records.is_empty());
    assert!(!fresh.locked);
}

#[test]
fn floor_lock_toggles_one_aisle() {
    let mut floor = five();
    assert!(floor.toggle_lock('A', 3));
    assert!(floor.get_aisle_in_cluster('A', 3).unwrap().locked);
    assert!(!floor.get_aisle_in_cluster('A', 4).unwrap().locked);
    let cluster = floor.get_cluster('A').unwrap();
    assert!(cluster.pair_is_locked(&cluster.aisle_pairs()[1]));
    assert!(cluster.pair_is_unlocked(&cluster.aisle_pairs()[1]));
    assert!(!cluster.pair_is_locked(&cluster.aisle_pairs()[0]));
    assert_eq!(floor.get_total_packages(), 150);
    assert!(!floor.toggle_lock('A', 9));
    assert!(!floor.toggle_lock('Q', 3));
    assert!(floor.toggle_lock('A', 3));
    assert!(!floor.get_aisle_in_cluster('A', 3).unwrap().locked);
}

#[test]
fn floor_set_locks_sets_the_named_aisles() {
    let mut floor = five();
    floor.set_locks('A', &vec![1, 2, 8], true);
    let mut locked = Vec::new();
    for a in floor.get_cluster('A').unwrap().aisles() {
        locked.push(a.locked);
    }
    assert_eq!(locked, vec![true, true, false, false, false]);
    floor.set_locks('A', &vec![2], false);
    assert!(floor.get_aisle_in_cluster('A', 1).unwrap().locked);
    assert!(!floor.get_aisle_in_cluster('A', 2).unwrap().locked);
    let shared = floor.to_rc();
    assert!(shared.get_aisle_in_cluster('A', 1).unwrap().locked);
}

#[test]
fn cluster_on_its_own_keeps_its_pairs() {
    let mut clusters = five().into_clusters();
    assert_eq!(clusters.len(), 1);
    let cluster = &mut clusters[0];
    assert_eq!(cluster.aisle_pairs_len(), 3);
    cluster.generate_aisle_pairs();
    assert_eq!(cluster.aisle_pairs(), &vec![pair(1, Some(2)), pair(3, Some(4)), pair(5, None)]);
    assert!(cluster.toggle_aisle_lock(4));
    assert!(!cluster.toggle_aisle_lock(6));
    assert!(cluster.get_aisle(4).unwrap().locked);
    cluster.set_locks(&vec![4, 5], false);
    assert!(!cluster.get_aisle(4).unwrap().locked);
    assert_eq!(cluster.get_total_packages(), 150);
    let mut bare = stow_slots::cluster::Cluster::new('Q');
    assert_eq!(bare.letter(), 'Q');
    assert_eq!(bare.aisle_pairs_len(), 0);
    assert!(bare.get_first_aisle().is_none());
    assert!(bare.get_last_aisle().is_none());
    assert_eq!(bare.get_total_packages(), 0);
}

#[test]
fn floor_pairs_are_rebuilt_in_every_cluster() {
    let mut floor = Floor::new(vec![
        bag('A', 1, 1, 1),
        bag('B', 4, 1, 1),
        bag('A', 2, 1, 1),
        bag('B', 3, 1, 1),
        bag('B', 7, 1, 1),
        bag('C', 6, 1, 1),
    ]);
    assert!(floor.toggle_lock('B', 4));
    floor.generate_aisle_pairs();
    assert_eq!(floor.get_cluster('A').unwrap().aisle_pairs(), &vec![pair(1, Some(2))]);
    assert_eq!(
        floor.get_cluster('B').unwrap().aisle_pairs(),
        &vec![pair(3, Some(4)), pair(7, None)]
    );
    assert!(floor.get_cluster('C').unwrap().aisle_pairs().is_empty());
    assert!(floor.get_aisle_in_cluster('B', 4).unwrap().locked);
    assert_eq!(floor.get_total_packages(), 6);
}

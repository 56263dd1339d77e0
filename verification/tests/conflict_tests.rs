use blockpack::conflict::{AccessList, ConflictTracker, ConflictType, StorageSlot};

#[test]
fn test_access_list_no_conflict() {
    let mut a1 = AccessList::new();
    a1.add_read(100, 1);
    a1.add_write(100, 2);

    let mut a2 = AccessList::new();
    a2.add_read(100, 3);
    a2.add_write(100, 4);

    assert!(!a1.conflicts_with(&a2));
}

#[test]
fn test_access_list_write_write_conflict() {
    let mut a1 = AccessList::new();
    a1.add_write(100, 1);

    let mut a2 = AccessList::new();
    a2.add_write(100, 1);

    assert!(a1.conflicts_with(&a2));
}

#[test]
fn test_access_list_write_read_conflict() {
    let mut a1 = AccessList::new();
    a1.add_write(100, 1);

    let mut a2 = AccessList::new();
    a2.add_read(100, 1);

    assert!(a1.conflicts_with(&a2));
    assert!(a2.conflicts_with(&a1));
}

#[test]
fn test_access_list_read_read_no_conflict() {
    let mut a1 = AccessList::new();
    a1.add_read(100, 1);

    let mut a2 = AccessList::new();
    a2.add_read(100, 1);

    assert!(!a1.conflicts_with(&a2));
}

#[test]
fn test_must_precede() {
    let mut a1 = AccessList::new();
    a1.add_write(100, 1);

    let mut a2 = AccessList::new();
    a2.add_read(100, 1);

    assert!(a1.must_precede(&a2));
    assert!(!a2.must_precede(&a1));
}

#[test]
fn test_conflict_tracker_register() {
    let mut tracker = ConflictTracker::new();

    let mut a1 = AccessList::new();
    a1.add_write(100, 1);

    let mut a2 = AccessList::new();
    a2.add_read(100, 1);

    let mut a3 = AccessList::new();
    a3.add_read(100, 2);

    tracker.register(1, a1);
    tracker.register(2, a2);
    tracker.register(3, a3);

    assert!(tracker.conflicts(1, 2));
    assert!(!tracker.conflicts(1, 3));
    assert!(!tracker.conflicts(2, 3));

    assert_eq!(tracker.len(), 3);
    assert_eq!(tracker.conflict_count(), 1);
}

#[test]
fn test_conflict_tracker_remove() {
    let mut tracker = ConflictTracker::new();

    let mut a1 = AccessList::new();
    a1.add_write(100, 1);

    let mut a2 = AccessList::new();
    a2.add_read(100, 1);

    tracker.register(1, a1);
    tracker.register(2, a2);

    assert!(tracker.conflicts(1, 2));

    tracker.remove(1);

    assert!(!tracker.conflicts(1, 2));
    assert_eq!(tracker.len(), 1);
    assert_eq!(tracker.conflict_count(), 0);
}

#[test]
fn test_get_conflicts() {
    let mut tracker = ConflictTracker::new();

    let mut a1 = AccessList::new();
    a1.add_write(100, 1);

    let mut a2 = AccessList::new();
    a2.add_read(100, 1);

    let mut a3 = AccessList::new();
    a3.add_write(100, 1);

    tracker.register(1, a1);
    tracker.register(2, a2);
    tracker.register(3, a3);

    let conflicts = tracker.get_conflicts(1);
    assert_eq!(conflicts.len(), 2);
    assert!(conflicts.contains(&2));
    assert!(conflicts.contains(&3));
}

#[test]
fn test_conflict_type() {
    let mut tracker = ConflictTracker::new();

    let mut a1 = AccessList::new();
    a1.add_write(100, 1);

    let mut a2 = AccessList::new();
    a2.add_write(100, 1);

    let mut a3 = AccessList::new();
    a3.add_read(100, 1);

    tracker.register(1, a1);
    tracker.register(2, a2);
    tracker.register(3, a3);

    assert_eq!(tracker.conflict_type(1, 2), ConflictType::WriteWrite);
    assert_eq!(tracker.conflict_type(1, 3), ConflictType::WriteRead);
    assert_eq!(tracker.conflict_type(2, 3), ConflictType::WriteRead);
}

#[test]
fn test_find_non_conflicting() {
    let mut tracker = ConflictTracker::new();

    // TX 1 and TX 2 conflict
    let mut a1 = AccessList::new();
    a1.add_write(100, 1);

    let mut a2 = AccessList::new();
    a2.add_write(100, 1);

    // TX 3 doesn't conflict with anyone
    let mut a3 = AccessList::new();
    a3.add_write(100, 2);

    tracker.register(1, a1);
    tracker.register(2, a2);
    tracker.register(3, a3);

    let non_conflicting = tracker.find_non_conflicting(&[1, 2, 3]);

    // Should include TX 1 (first) and TX 3, but not TX 2 (conflicts with 1)
    assert_eq!(non_conflicting.len(), 2);
    assert!(non_conflicting.contains(&1));
    assert!(non_conflicting.contains(&3));
    assert!(!non_conflicting.contains(&2));
}

#[test]
fn conflict_test_clear() {
    let mut tracker = ConflictTracker::new();

    let mut a1 = AccessList::new();
    a1.add_write(100, 1);
    tracker.register(1, a1);

    assert_eq!(tracker.len(), 1);

    tracker.clear();

    assert!(tracker.is_empty());
    assert_eq!(tracker.conflict_count(), 0);
}

#[test]
fn conflict_is_symmetric_on_examples() {
    let mut a = AccessList::new();
    a.add_read(1, 1);
    a.add_write(2, 2);
    let mut b = AccessList::new();
    b.add_write(1, 1);
    let mut c = AccessList::new();
    c.add_read(2, 3);
    assert_eq!(a.conflicts_with(&b), b.conflicts_with(&a));
    assert!(a.conflicts_with(&b));
    assert_eq!(a.conflicts_with(&c), c.conflicts_with(&a));
    assert!(!a.conflicts_with(&c));
}

#[test]
fn unregistered_pairs_have_no_conflict() {
    let tracker = ConflictTracker::new();
    assert!(!tracker.conflicts(1, 2));
    assert_eq!(tracker.conflict_type(1, 2), ConflictType::NoConflict);
    assert!(tracker.get_conflicts(1).is_empty());
}

#[test]
fn selection_is_pairwise_conflict_free() {
    let mut tracker = ConflictTracker::new();
    for id in 1..=4u64 {
        let mut a = AccessList::new();
        a.add_write(100, id % 2);
        tracker.register(id, a);
    }
    // Odd ids share slot 1, even ids slot 0: the smallest of each is kept.
    assert_eq!(tracker.find_non_conflicting(&[1, 2, 3, 4]), vec![1, 2]);
    // Ids are taken in ascending order whatever the order given.
    assert_eq!(tracker.find_non_conflicting(&[4, 3, 9]), vec![3, 4, 9]);
    assert_eq!(tracker.find_non_conflicting(&[4, 3, 2, 1]), vec![1, 2]);
}

#[test]
fn selection_follows_ascending_ids() {
    let mut tracker = ConflictTracker::new();
    let mut a1 = AccessList::new();
    a1.add_write(100, 1);
    let mut a2 = AccessList::new();
    a2.add_write(100, 1);
    tracker.register(1, a1);
    tracker.register(2, a2);
    assert_eq!(tracker.find_non_conflicting(&[2, 1]), vec![1]);
    // Maximal: the left-out id conflicts with a chosen one.
    assert!(tracker.conflicts(1, 2));
}

#[test]
fn storage_slot_new_sets_fields() {
    let s = StorageSlot::new(5, 6);
    assert_eq!(s, StorageSlot { contract: 5, slot: 6 });
}

#[test]
fn add_contract_keeps_set_semantics() {
    let mut a = AccessList::new();
    a.add_contract(3);
    a.add_contract(3);
    a.add_read(3, 1);
    a.add_read(3, 1);
    assert_eq!(a.contracts_touched.len(), 1);
    assert_eq!(a.reads.len(), 1);
}

#[test]
fn registering_a_fresh_id_adds_one_pair_per_conflicting_list() {
    let mut tracker = ConflictTracker::new();
    for id in 1..=3u64 {
        let mut a = AccessList::new();
        a.add_write(100, id);
        tracker.register(id, a);
    }
    assert_eq!(tracker.conflict_count(), 0);
    let mut reader = AccessList::new();
    reader.add_read(100, 1);
    reader.add_read(100, 3);
    tracker.register(9, reader);
    assert_eq!(tracker.conflict_count(), 2);
    assert_eq!(tracker.len(), 4);
    tracker.remove(9);
    assert_eq!(tracker.len(), 3);
    tracker.remove(9);
    assert_eq!(tracker.len(), 3);
}

#[test]
fn registering_a_new_id_conflicts_exactly_with_conflicting_lists() {
    let mut tracker = ConflictTracker::new();
    let mut a1 = AccessList::new();
    a1.add_write(100, 1);
    let mut a2 = AccessList::new();
    a2.add_write(100, 2);
    tracker.register(1, a1);
    tracker.register(2, a2);
    let mut a3 = AccessList::new();
    a3.add_read(100, 1);
    tracker.register(3, a3);
    assert!(tracker.conflicts(3, 1));
    assert!(!tracker.conflicts(3, 2));
    assert!(!tracker.conflicts(1, 2));
    assert_eq!(tracker.conflict_count(), 1);
    assert_eq!(tracker.len(), 3);
}

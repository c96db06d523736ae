use fixed_sized_hash_set::{FixedSizeHashSet, InsertResult};

/// Keys whose home slot in a set of `capacity` slots is `slot`.
fn keys_with_home(capacity: usize, slot: u64, how_many: usize) -> Vec<i32> {
    let mut keys = Vec::new();
    let mut k: i32 = 0;
    while keys.len() < how_many {
        if FixedSizeHashSet::<i32>::HashFunc(&k) % capacity as u64 == slot {
            keys.push(k);
        }
        k += 1;
    }
    keys
}

#[test]
fn zero_capacity_rejects_every_insert() {
    let mut set = FixedSizeHashSet::<i32>::new(0);
    assert_eq!(0, set.capacity());
    assert_eq!(0, set.capacity_u64());
    assert_eq!(InsertResult::InsufficientCapacity(1), set.insert(1));
    assert_eq!(0, set.len());
    assert!(!set.contains(&1));
    assert_eq!(None, set.get(&1));
}

#[test]
fn capacity_u64_matches_capacity() {
    let set = FixedSizeHashSet::<i32>::new(7);
    assert_eq!(7u64, set.capacity_u64());
    assert_eq!(7, set.capacity());
}

#[test]
fn len_stays_within_capacity() {
    let mut set = FixedSizeHashSet::<i32>::new(3);
    for v in 0..10 {
        set.insert(v % 5);
        assert!(set.len() <= set.capacity());
        assert_eq!(3, set.capacity());
    }
    set.clear();
    assert_eq!(0, set.len());
    assert_eq!(3, set.capacity());
}

#[test]
fn no_two_slots_hold_equal_values() {
    let mut set = FixedSizeHashSet::<i32>::new(4);
    for v in [1, 2, 1, 2, 1, 3] {
        set.insert(v);
    }
    assert_eq!(3, set.len());
    let empty = FixedSizeHashSet::<i32>::new(1);
    let mut all: Vec<i32> = set.difference(&empty).into_iter().copied().collect();
    all.sort();
    assert_eq!(vec![1, 2, 3], all);
}

#[test]
fn inserted_values_are_found() {
    let mut set = FixedSizeHashSet::<i32>::new(5);
    for v in [10, -4, 99, 0] {
        assert_eq!(InsertResult::Success, set.insert(v));
        assert!(set.contains(&v));
        assert_eq!(Some(&v), set.get(&v));
    }
    assert!(!set.contains(&5));
    assert_eq!(None, set.get(&5));
}

#[test]
fn upsert_succeeds_when_full() {
    let mut set = FixedSizeHashSet::<i32>::new(3);
    for v in [4, 5, 6] {
        assert_eq!(InsertResult::Success, set.insert(v));
    }
    for v in [4, 5, 6] {
        assert_eq!(InsertResult::Duplicate(v), set.insert(v));
    }
    assert_eq!(3, set.len());
}

#[test]
fn exhaustion_after_capacity_distinct_values() {
    let mut set = FixedSizeHashSet::<i32>::new(3);
    for v in [7, 8, 9] {
        assert_eq!(InsertResult::Success, set.insert(v));
    }
    assert_eq!(InsertResult::InsufficientCapacity(10), set.insert(10));
    assert_eq!(3, set.len());
    assert!(!set.contains(&10));
}

#[test]
fn clear_forgets_every_value() {
    let mut set = FixedSizeHashSet::<i32>::new(4);
    for v in [1, 2, 3] {
        set.insert(v);
    }
    set.clear();
    assert_eq!(0, set.len());
    for v in [1, 2, 3] {
        assert!(!set.contains(&v));
        assert_eq!(None, set.get(&v));
    }
    assert_eq!(InsertResult::Success, set.insert(2));
}

#[test]
fn difference_and_intersection_of_disjoint_sets() {
    let mut a = FixedSizeHashSet::<i32>::new(4);
    let mut b = FixedSizeHashSet::<i32>::new(2);
    a.insert(1);
    a.insert(2);
    b.insert(3);
    assert!(a.intersection(&b).is_empty());
    let mut d: Vec<i32> = a.difference(&b).into_iter().copied().collect();
    d.sort();
    assert_eq!(vec![1, 2], d);
    assert!(b.difference(&b).is_empty());
}

#[test]
fn probing_wraps_around_the_end() {
    let capacity = 4;
    let keys = keys_with_home(capacity, 3, 4);
    let mut set = FixedSizeHashSet::<i32>::new(capacity);
    for k in &keys {
        assert_eq!(InsertResult::Success, set.insert(*k));
    }
    for k in &keys {
        assert!(set.contains(k));
        assert_eq!(Some(k), set.get(k));
    }
    assert_eq!(InsertResult::InsufficientCapacity(-1), set.insert(-1));
    assert_eq!(InsertResult::Duplicate(keys[3]), set.insert(keys[3]));
}

#[test]
fn explicit_hash_probes_from_its_slot() {
    let mut set = FixedSizeHashSet::<i32>::new(4);
    // Hash 7 selects slot 3; hash 3 selects it too, and its value wraps around to slot 0.
    assert_eq!(InsertResult::Success, set.insert_with_hash(7, 10));
    assert_eq!(InsertResult::Success, set.insert_with_hash(3, 20));
    assert!(set.contains_with_hash(3, &20));
    assert!(set.contains_with_hash(0, &20));
    assert!(!set.contains_with_hash(1, &20));
    assert_eq!(Some(&10), set.get_with_hash(11, &10));
    assert_eq!(None, set.get_with_hash(3, &30));
    assert_eq!(InsertResult::Duplicate(20), set.insert_with_hash(3, 20));
    assert_eq!(2, set.len());
}

use std::cell::Cell;
use std::collections::HashSet;
use std::hash::{Hash, Hasher};
use std::rc::Rc;

use fixed_sized_hash_set::{FixedSizeHashSet, InsertResult};

#[test]
fn new_hashset_is_empty() {
    let capacity = 4;
    let hashset = FixedSizeHashSet::<i32>::new(capacity);
    assert_eq!(0, hashset.len());
    assert_eq!(capacity, hashset.capacity());
}

#[test]
fn hashset_insert() {
    let capacity = 4;
    let mut hashset = FixedSizeHashSet::<i32>::new(capacity);
    assert_eq!(InsertResult::<i32>::Success, hashset.insert(42));

    assert_eq!(1, hashset.len());
    assert_eq!(capacity, hashset.capacity());
    assert!(hashset.contains(&42));
    assert_eq!(Some(&42), hashset.get(&42));
}

#[test]
fn hashset_multi_insert() {
    let capacity = 4;
    let mut hashset = FixedSizeHashSet::<i32>::new(capacity);
    for val in 0..capacity {
        assert_eq!(InsertResult::<i32>::Success, hashset.insert(val as i32));
    }

    assert_eq!(4, hashset.len());
    assert_eq!(capacity, hashset.capacity());

    for val in 0..capacity as i32 {
        assert!(hashset.contains(&val));
        assert_eq!(Some(&val), hashset.get(&val));
    }
}

#[test]
fn hashset_insert_duplicate() {
    let capacity = 4;
    let mut hashset = FixedSizeHashSet::<i32>::new(capacity);
    assert_eq!(InsertResult::<i32>::Success, hashset.insert(42));
    assert_eq!(InsertResult::<i32>::Duplicate(42), hashset.insert(42));

    assert_eq!(1, hashset.len());
    assert_eq!(capacity, hashset.capacity());
    assert!(hashset.contains(&42));
    assert_eq!(Some(&42), hashset.get(&42));
}

#[test]
fn hashset_insert_no_capacity() {
    let capacity = 1;
    let mut hashset = FixedSizeHashSet::<i32>::new(capacity);
    assert_eq!(InsertResult::<i32>::Success, hashset.insert(42));
    assert_eq!(
        InsertResult::<i32>::InsufficientCapacity(43),
        hashset.insert(43)
    );

    assert_eq!(1, hashset.len());
    assert_eq!(capacity, hashset.capacity());
    assert!(hashset.contains(&42));
    assert_eq!(Some(&42), hashset.get(&42));

    // Even without room, an equal value is still replaced.
    assert_eq!(InsertResult::<i32>::Duplicate(42), hashset.insert(42));
}

#[test]
fn hashset_clear() {
    let capacity = 4;
    let mut hashset = FixedSizeHashSet::<i32>::new(capacity);
    for val in 0..capacity {
        assert_eq!(InsertResult::<i32>::Success, hashset.insert(val as i32));
    }

    hashset.clear();

    assert_eq!(0, hashset.len());
    assert_eq!(capacity, hashset.capacity());
}

/// A value that counts, in a shared counter, how often one of its kind was dropped.
#[derive(Debug)]
struct DropCounter(i32, Rc<Cell<usize>>);

impl PartialEq for DropCounter {
    fn eq(&self, other: &Self) -> bool {
        self.0 == other.0
    }
}

impl Eq for DropCounter {}

impl Hash for DropCounter {
    fn hash<H: Hasher>(&self, state: &mut H) {
        self.0.hash(state);
    }
}

impl Drop for DropCounter {
    fn drop(&mut self) {
        self.1.set(self.1.get() + 1);
    }
}

#[test]
fn hashset_clear_drops_elements() {
    let counter = Rc::new(Cell::new(0usize));

    let capacity = 4;
    let mut hashset = FixedSizeHashSet::new(capacity);
    for val in 0..capacity {
        assert_eq!(
            InsertResult::<DropCounter>::Success,
            hashset.insert(DropCounter(val as i32, counter.clone()))
        );
    }

    // All 4 values are dropped by a clear.
    let drops_baseline = counter.get();
    hashset.clear();
    let drops_after_clear = counter.get();
    let drops_diff = drops_after_clear - drops_baseline;
    assert_eq!(4, drops_diff);
}

#[test]
fn hashset_difference() {
    let capacity = 8;
    let mut h1 = FixedSizeHashSet::new(capacity);
    let mut h2 = FixedSizeHashSet::new(capacity);

    h1.insert(2);
    h1.insert(3);
    h1.insert(5);
    h1.insert(7);
    h1.insert(11);
    h1.insert(13);

    h2.insert(3);
    h2.insert(5);
    h2.insert(13);

    let expected_difference: HashSet<&i32> = vec![&2, &7, &11].into_iter().collect();
    let difference: HashSet<&i32> = h1.difference(&h2).into_iter().collect();
    assert_eq!(expected_difference, difference);
}

#[test]
fn hashset_intersection() {
    let capacity = 8;
    let mut h1 = FixedSizeHashSet::new(capacity);
    let mut h2 = FixedSizeHashSet::new(capacity);

    h1.insert(2);
    h1.insert(3);
    h1.insert(5);
    h1.insert(7);
    h1.insert(11);
    h1.insert(13);

    h2.insert(3);
    h2.insert(5);
    h2.insert(13);

    let expected_union: HashSet<&i32> = vec![&3, &5, &13].into_iter().collect();
    let union: HashSet<&i32> = h1.intersection(&h2).into_iter().collect();
    assert_eq!(expected_union, union);
}

use crate::slots::{
    blocked, found_in_chain, insert_outcome, lemma_blocked_everywhere, lemma_empty_ends_chain,
    lemma_found_is_stored, lemma_insert_outcome_facts, lemma_occupied_all_empty, lemma_occupied_le,
    lemma_occupied_update, lemma_select_slots_holds, deref_all, occupied, pos, select_slots, values,
};
use std::collections::hash_map::DefaultHasher;
use std::hash::{Hash, Hasher};
use vstd::laws_eq::obeys_concrete_eq;
use vstd::prelude::*;

verus! {

/// What an insert reports.
#[derive(Debug, PartialEq, Eq)]
pub enum InsertResult<T> {
    /// The value took an empty slot.
    Success,
    /// An equal value was present: it was replaced, and is handed back.
    Duplicate(T),
    /// No empty slot and no equal value: the value is handed back unstored.
    InsufficientCapacity(T),
}

/// Remainder of `a` divided by `b`, always in `[0, b)`.
fn modulo(a: u64, b: u64) -> (r: u64)
    requires
        b > 0,
    ensures
        r == a % b,
        r < b,
{
    a % b
}

/// Relies on the `Hash` impl of `T` (`Hash::hash`) to feed `val` into `hasher`.
/// Nothing is assumed of what it writes.
#[verifier::external_body]
fn feed_hasher<T: Hash>(val: &T, hasher: &mut DefaultHasher) {
    val.hash(hasher);
}

/// Index of the slot `i` probing steps past `home`, wrapping around at `n`.
fn probe_index(home: usize, i: usize, n: usize) -> (r: usize)
    requires
        home < n,
        i < n,
    ensures
        r == pos(home as int, i as int, n as int),
        r < n,
{
    if i < n - home {
        home + i
    } else {
        i - (n - home)
    }
}

/// A set that holds at most a fixed number of values, all in one block of slots
/// allocated at construction. Collisions are resolved by linear probing that wraps around
/// the end of the block. Single values are never removed: `clear` empties the whole block.
///
/// The operations that compare values ask that `==` on `T` be equality of values
/// (`obeys_concrete_eq`). A value's home slot is its hash modulo the capacity. The
/// `*_with_hash` operations take the hash as an argument, and their contracts are exact in
/// it. `insert`, `get` and `contains` compute it with `HashFunc`, whose result depends on
/// the `Hash` impl of `T`, so what they promise holds whatever that hash is.
pub struct FixedSizeHashSet<T: Eq + Hash> {
    size: usize,
    data: Vec<Option<T>>,
    count: usize,
}

impl<T: Eq + Hash> View for FixedSizeHashSet<T> {
    type V = Seq<Option<T>>;

    closed spec fn view(&self) -> Seq<Option<T>> {
        self.data@
    }
}

impl<T: Eq + Hash> FixedSizeHashSet<T> {
    /// A well-formed set never holds more values than its capacity, and its slot block
    /// has one slot per unit of capacity.
    pub proof fn lemma_len_within_capacity(&self)
        requires
            self.wf(),
        ensures
            self.spec_len() <= self.spec_capacity(),
            self@.len() == self.spec_capacity(),
            self.spec_len() == occupied(self@),
    {
        lemma_occupied_le(self@);
    }

    /// The slot block has `capacity` slots and the count is the number of occupied ones.
    pub closed spec fn wf(&self) -> bool {
        &&& self.data@.len() == self.size
        &&& self.count == occupied(self.data@)
    }

    /// Number of values stored.
    pub closed spec fn spec_len(&self) -> nat {
        self.count as nat
    }

    /// Number of slots, fixed at construction.
    pub closed spec fn spec_capacity(&self) -> nat {
        self.size as nat
    }

    /// The values stored in the set.
    pub open spec fn contents(&self) -> Set<T> {
        values(self@)
    }

    /// Slot where probing for a value with hash `hash` starts.
    pub open spec fn home(&self, hash: u64) -> int {
        (hash as int) % (self.spec_capacity() as int)
    }

    /// Creates a set that can store `capacity` values, with every slot empty.
    pub fn new(capacity: usize) -> (s: Self)
        ensures
            s.wf(),
            s.spec_capacity() == capacity,
            s.spec_len() == 0,
            s.contents() == Set::<T>::empty(),
            forall|j: int| 0 <= j < capacity ==> s@[j] is None,
    {
        let mut data: Vec<Option<T>> = Vec::with_capacity(capacity);
        let mut i: usize = 0;
        while i < capacity
            invariant
                i <= capacity,
                data@.len() == i,
                forall|j: int| 0 <= j < i ==> data@[j] is None,
            decreases capacity - i,
        {
            data.push(None);
            i = i + 1;
        }
        proof {
            lemma_occupied_all_empty(data@);
        }
        let s = FixedSizeHashSet { size: capacity, data, count: 0 };
        assert(s.contents() =~= Set::<T>::empty());
        s
    }

    /// Inserts `val`, probing from the slot that `hash` selects: the value takes the first
    /// slot that is empty (`Success`) or that holds an equal value, which it replaces and
    /// which is handed back (`Duplicate`). When every slot holds another value, the set
    /// stays as it is and `val` is handed back (`InsufficientCapacity`).
    pub fn insert_with_hash(&mut self, hash: u64, val: T) -> (r: InsertResult<T>)
        requires
            old(self).wf(),
            obeys_concrete_eq::<T>(),
        ensures
            final(self).wf(),
            final(self).spec_capacity() == old(self).spec_capacity(),
            insert_outcome(old(self)@, old(self).home(hash), val, r, final(self)@),
            r is Success ==> {
                &&& final(self).contents() == old(self).contents().insert(val)
                &&& final(self).spec_len() == old(self).spec_len() + 1
            },
            r is Duplicate ==> {
                &&& r->Duplicate_0 == val
                &&& old(self).contents().contains(val)
                &&& final(self)@ == old(self)@
                &&& final(self).spec_len() == old(self).spec_len()
            },
            r is InsufficientCapacity ==> {
                &&& r->InsufficientCapacity_0 == val
                &&& !old(self).contents().contains(val)
                &&& old(self).spec_len() == old(self).spec_capacity()
                &&& final(self)@ == old(self)@
                &&& final(self).spec_len() == old(self).spec_len()
            },
            !old(self).contents().contains(val) ==> (r is Success <==> old(self).spec_len()
                < old(self).spec_capacity()),
    {
        let ghost before = self@;
        let r = self.place(hash, val);
        proof {
            lemma_insert_outcome_facts(before, self.home(hash), val, r, self@);
        }
        r
    }

    /// Probes from the slot that `hash` selects and puts `val` in the first slot that is
    /// empty or holds an equal value.
    fn place(&mut self, hash: u64, val: T) -> (r: InsertResult<T>)
        requires
            old(self).wf(),
            obeys_concrete_eq::<T>(),
        ensures
            final(self).wf(),
            final(self).spec_capacity() == old(self).spec_capacity(),
            insert_outcome(old(self)@, old(self).home(hash), val, r, final(self)@),
            final(self).spec_len() == old(self).spec_len() + if r is Success {
                1int
            } else {
                0int
            },
    {
        let n = self.size;
        if n == 0 {
            return InsertResult::InsufficientCapacity(val);
        }
        let home = modulo(hash, n as u64) as usize;
        let ghost start = self@;
        let mut i: usize = 0;
        while i < n
            invariant
                self.wf(),
                obeys_concrete_eq::<T>(),
                self.size == n,
                n > 0,
                home < n,
                self@ == start,
                self.count == old(self).count,
                start == old(self)@,
                n == old(self).size,
                home == old(self).home(hash),
                i <= n,
                blocked(start, home as int, i as int, val),
            decreases n - i,
        {
            let idx = probe_index(home, i, n);
            let stop: u8 = match &self.data[idx] {
                Some(x) => {
                    let same = x.eq(&val);
                    proof {
                        reveal(obeys_concrete_eq);
                        assert(same == (*x == val));
                    }
                    if same {
                        1
                    } else {
                        2
                    }
                },
                None => 0,
            };
            if stop == 0 {
                proof {
                    lemma_occupied_update(self@, idx as int, Some(val));
                    lemma_occupied_le(self@.update(idx as int, Some(val)));
                }
                self.data.set(idx, Some(val));
                self.count = self.count + 1;
                assert(blocked(start, home as int, i as int, val));
                return InsertResult::Success;
            } else if stop == 1 {
                let mut slot = Some(val);
                proof {
                    lemma_occupied_update(self@, idx as int, slot);
                }
                self.data.set_and_swap(idx, &mut slot);
                assert(slot == Some(val));
                return InsertResult::Duplicate(slot.unwrap());
            }
            assert(blocked(start, home as int, i as int + 1, val)) by {
                assert forall|k: int| 0 <= k < i + 1 implies {
                    let o = #[trigger] start[pos(home as int, k, start.len() as int)];
                    o is Some && o->0 != val
                } by {
                    if k < i {
                        assert(blocked(start, home as int, i as int, val));
                    }
                }
            }
            i = i + 1;
        }
        InsertResult::InsufficientCapacity(val)
    }

    /// Slot holding `val`, found by probing from the slot that `hash` selects and stopping at
    /// the first empty slot.
    fn find_with_hash(&self, hash: u64, val: &T) -> (r: Option<usize>)
        requires
            self.wf(),
            obeys_concrete_eq::<T>(),
        ensures
            r is Some <==> found_in_chain(self@, self.home(hash), *val),
            r is Some ==> r->0 < self@.len() && self@[r->0 as int] == Some(*val),
    {
        let n = self.size;
        if n == 0 {
            return None;
        }
        let home = modulo(hash, n as u64) as usize;
        let ghost s = self@;
        let mut i: usize = 0;
        while i < n
            invariant
                self.wf(),
                obeys_concrete_eq::<T>(),
                self.size == n,
                s == self@,
                n > 0,
                home < n,
                home == self.home(hash),
                i <= n,
                blocked(s, home as int, i as int, *val),
            decreases n - i,
        {
            let idx = probe_index(home, i, n);
            match &self.data[idx] {
                Some(x) => {
                    let same = x.eq(val);
                    proof {
                        reveal(obeys_concrete_eq);
                    }
                    if same {
                        assert(blocked(s, home as int, i as int, *val));
                        return Some(idx);
                    }
                },
                None => {
                    proof {
                        lemma_empty_ends_chain(s, home as int, i as int, *val);
                    }
                    return None;
                },
            }
            assert(blocked(s, home as int, i as int + 1, *val)) by {
                assert forall|k: int| 0 <= k < i + 1 implies {
                    let o = #[trigger] s[pos(home as int, k, s.len() as int)];
                    o is Some && o->0 != *val
                } by {
                    if k < i {
                        assert(blocked(s, home as int, i as int, *val));
                    }
                }
            }
            i = i + 1;
        }
        proof {
            lemma_blocked_everywhere(s, home as int, *val);
        }
        None
    }

    /// The stored value equal to `value`, found by probing from the slot that `hash` selects.
    pub fn get_with_hash(&self, hash: u64, value: &T) -> (r: Option<&T>)
        requires
            self.wf(),
            obeys_concrete_eq::<T>(),
        ensures
            r is Some <==> found_in_chain(self@, self.home(hash), *value),
            r is Some ==> *r->0 == *value,
    {
        match self.find_with_hash(hash, value) {
            Some(idx) => self.data[idx].as_ref(),
            None => None,
        }
    }

    /// Whether a value equal to `val` is found by probing from the slot that `hash` selects.
    pub fn contains_with_hash(&self, hash: u64, val: &T) -> (r: bool)
        requires
            self.wf(),
            obeys_concrete_eq::<T>(),
        ensures
            r == found_in_chain(self@, self.home(hash), *val),
    {
        self.find_with_hash(hash, val).is_some()
    }

    /// Inserts `val` into the slot that its hash selects or, past occupied slots, the next one
    /// that is empty or holds an equal value. Whatever the hash, a value that the set lacks
    /// is stored while there is room, an equal value is replaced and handed back, and a
    /// full set that lacks the value stays as it is and hands it back.
    pub fn insert(&mut self, val: T) -> (r: InsertResult<T>)
        requires
            old(self).wf(),
            obeys_concrete_eq::<T>(),
        ensures
            final(self).wf(),
            final(self).spec_capacity() == old(self).spec_capacity(),
            exists|hash: u64| insert_outcome(old(self)@, #[trigger] old(self).home(hash), val, r, final(self)@),
            r is Success ==> {
                &&& final(self).contents() == old(self).contents().insert(val)
                &&& final(self).spec_len() == old(self).spec_len() + 1
            },
            r is Duplicate ==> {
                &&& r->Duplicate_0 == val
                &&& old(self).contents().contains(val)
                &&& final(self)@ == old(self)@
                &&& final(self).spec_len() == old(self).spec_len()
            },
            r is InsufficientCapacity ==> {
                &&& r->InsufficientCapacity_0 == val
                &&& !old(self).contents().contains(val)
                &&& old(self).spec_len() == old(self).spec_capacity()
                &&& final(self)@ == old(self)@
                &&& final(self).spec_len() == old(self).spec_len()
            },
            !old(self).contents().contains(val) ==> (r is Success <==> old(self).spec_len()
                < old(self).spec_capacity()),
    {
        let hash = Self::HashFunc(&val);
        self.insert_with_hash(hash, val)
    }

    /// The stored value equal to `value`, searched for along the probe sequence of its hash.
    /// A value found is equal to `value`; a value that the set lacks is never found.
    pub fn get(&self, value: &T) -> (r: Option<&T>)
        requires
            self.wf(),
            obeys_concrete_eq::<T>(),
        ensures
            exists|hash: u64|
                (r is Some <==> found_in_chain(self@, #[trigger] self.home(hash), *value)),
            r is Some ==> *r->0 == *value && self.contents().contains(*value),
    {
        let hash = Self::HashFunc(value);
        let r = self.get_with_hash(hash, value);
        proof {
            lemma_found_is_stored(self@, self.home(hash), *value);
        }
        r
    }

    /// Whether the set holds a value equal to `val`, searched for along the probe sequence of
    /// its hash. A value that the set lacks is never reported.
    pub fn contains(&self, val: &T) -> (r: bool)
        requires
            self.wf(),
            obeys_concrete_eq::<T>(),
        ensures
            exists|hash: u64| r == found_in_chain(self@, #[trigger] self.home(hash), *val),
            r ==> self.contents().contains(*val),
    {
        let hash = Self::HashFunc(val);
        let r = self.contains_with_hash(hash, val);
        proof {
            lemma_found_is_stored(self@, self.home(hash), *val);
        }
        r
    }

    /// Number of values stored.
    pub fn len(&self) -> (r: usize)
        requires
            self.wf(),
        ensures
            r == self.spec_len(),
            r == occupied(self@),
    {
        self.count
    }

    /// Number of values the set can store.
    pub fn capacity(&self) -> (r: usize)
        requires
            self.wf(),
        ensures
            r == self.spec_capacity(),
            r == self@.len(),
    {
        self.size
    }

    /// Number of values the set can store, as a `u64`.
    pub fn capacity_u64(&self) -> (r: u64)
        requires
            self.wf(),
        ensures
            r == self.spec_capacity(),
    {
        self.size as u64
    }

    /// Empties every slot, dropping the values stored, and keeps the capacity.
    pub fn clear(&mut self)
        requires
            old(self).wf(),
        ensures
            final(self).wf(),
            final(self).spec_capacity() == old(self).spec_capacity(),
            final(self).spec_len() == 0,
            final(self).contents() == Set::<T>::empty(),
            forall|j: int| 0 <= j < final(self)@.len() ==> final(self)@[j] is None,
    {
        let fresh = Self::new(self.size);
        *self = fresh;
        assert(self.contents() =~= Set::<T>::empty());
    }

    /// Whether some slot holds a value equal to `val`, looking at every slot.
    fn holds_anywhere(&self, val: &T) -> (r: bool)
        requires
            self.wf(),
            obeys_concrete_eq::<T>(),
        ensures
            r == self.contents().contains(*val),
    {
        let mut i: usize = 0;
        while i < self.data.len()
            invariant
                self.wf(),
                obeys_concrete_eq::<T>(),
                i <= self@.len(),
                forall|j: int| 0 <= j < i ==> self@[j] != Some(*val),
            decreases self@.len() - i,
        {
            if let Some(x) = &self.data[i] {
                let same = x.eq(val);
                proof {
                    reveal(obeys_concrete_eq);
                }
                if same {
                    return true;
                }
            }
            i = i + 1;
        }
        false
    }

    /// The stored values, in slot order, that `other` holds (`inside`) or lacks (`!inside`).
    fn select<'a>(&'a self, other: &Self, inside: bool) -> (r: Vec<&'a T>)
        requires
            self.wf(),
            other.wf(),
            obeys_concrete_eq::<T>(),
        ensures
            deref_all(r@) == select_slots(self@, other.contents(), inside),
    {
        let mut r: Vec<&'a T> = Vec::new();
        let mut i: usize = 0;
        while i < self.data.len()
            invariant
                self.wf(),
                other.wf(),
                obeys_concrete_eq::<T>(),
                i <= self@.len(),
                deref_all(r@) == select_slots(self@.subrange(0, i as int), other.contents(), inside),
            decreases self@.len() - i,
        {
            let ghost before = r@;
            assert(self@.subrange(0, i as int + 1).drop_last() =~= self@.subrange(0, i as int));
            if let Some(x) = &self.data[i] {
                if other.holds_anywhere(x) == inside {
                    r.push(x);
                    assert(deref_all(r@) =~= deref_all(before).push(*x));
                }
            }
            i = i + 1;
        }
        assert(self@.subrange(0, self@.len() as int) =~= self@);
        r
    }

    /// The stored values that `other` lacks, each borrowed from this set, in slot order.
    pub fn difference<'a>(&'a self, other: &Self) -> (r: Vec<&'a T>)
        requires
            self.wf(),
            other.wf(),
            obeys_concrete_eq::<T>(),
        ensures
            deref_all(r@) == select_slots(self@, other.contents(), false),
            forall|x: T|
                deref_all(r@).contains(x) <==> self.contents().contains(x) && !other.contents().contains(x),
    {
        let r = self.select(other, false);
        assert forall|x: T|
            deref_all(r@).contains(x) <==> self.contents().contains(x) && !other.contents().contains(x) by {
            lemma_select_slots_holds(self@, other.contents(), false, x);
        }
        r
    }

    /// The stored values that `other` holds too, each borrowed from this set, in slot order.
    pub fn intersection<'a>(&'a self, other: &Self) -> (r: Vec<&'a T>)
        requires
            self.wf(),
            other.wf(),
            obeys_concrete_eq::<T>(),
        ensures
            deref_all(r@) == select_slots(self@, other.contents(), true),
            forall|x: T|
                deref_all(r@).contains(x) <==> self.contents().contains(x) && other.contents().contains(x),
    {
        let r = self.select(other, true);
        assert forall|x: T|
            deref_all(r@).contains(x) <==> self.contents().contains(x) && other.contents().contains(x) by {
            lemma_select_slots_holds(self@, other.contents(), true, x);
        }
        r
    }

    /// The 64-bit hash of `val`, as `DefaultHasher` computes it from `val`'s `Hash` impl.
    /// Nothing is promised of its value: it depends on that impl.
    #[allow(non_snake_case)]
    pub fn HashFunc(val: &T) -> u64 {
        let mut hasher = DefaultHasher::new();
        feed_hasher(val, &mut hasher);
        hasher.finish()
    }
}

} // verus!

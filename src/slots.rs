//! The slot block as a sequence of optional values, the probing that insert and lookup do
//! on it, and what holds of that probing.
use crate::fixed_size_hash_set::InsertResult;
use vstd::prelude::*;

verus! {

/// Slot reached after `i` steps of linear probing from `home`, wrapping around at `n`.
pub open spec fn pos(home: int, i: int, n: int) -> int {
    if home + i < n {
        home + i
    } else {
        home + i - n
    }
}

/// The first `i` slots probed from `home` all hold values other than `v`.
pub open spec fn blocked<T>(s: Seq<Option<T>>, home: int, i: int, v: T) -> bool {
    forall|k: int|
        0 <= k < i ==> {
            let o = #[trigger] s[pos(home, k, s.len() as int)];
            o is Some && o->0 != v
        }
}

/// Probing from `home` meets a slot holding `v` before any empty slot.
pub open spec fn found_in_chain<T>(s: Seq<Option<T>>, home: int, v: T) -> bool {
    exists|i: int|
        0 <= i < s.len() && #[trigger] blocked(s, home, i, v) && s[pos(home, i, s.len() as int)]
            == Some(v)
}

/// Number of occupied slots.
pub open spec fn occupied<T>(s: Seq<Option<T>>) -> nat
    decreases s.len(),
{
    if s.len() == 0 {
        0
    } else {
        occupied(s.drop_last()) + if s.last() is Some {
            1nat
        } else {
            0nat
        }
    }
}

/// The values held by some slot.
pub open spec fn values<T>(s: Seq<Option<T>>) -> Set<T> {
    Set::new(|v: T| exists|j: int| 0 <= j < s.len() && s[j] == Some(v))
}

/// Number of probing steps from `home` to slot `j`, wrapping around at `n`.
pub open spec fn offset(home: int, j: int, n: int) -> int {
    if j >= home {
        j - home
    } else {
        j + n - home
    }
}

/// Probing from `home` meets no empty slot before it reaches slot `j`.
pub open spec fn chain_unbroken<T>(s: Seq<Option<T>>, home: int, j: int) -> bool {
    forall|k: int|
        0 <= k < offset(home, j, s.len() as int) ==> (#[trigger] s[pos(home, k, s.len() as int)]) is Some
}

/// Every stored value is reached by probing from the home slot of its hash under `hf`
/// without meeting an empty slot.
pub open spec fn laid_out<T>(s: Seq<Option<T>>, hf: spec_fn(T) -> u64) -> bool {
    forall|j: int|
        0 <= j < s.len() && (#[trigger] s[j]) is Some ==> chain_unbroken(
            s,
            (hf(s[j]->0) as int) % (s.len() as int),
            j,
        )
}

/// No two slots hold equal values.
pub open spec fn distinct_slots<T>(s: Seq<Option<T>>) -> bool {
    forall|i: int, j: int|
        0 <= i < s.len() && 0 <= j < s.len() && (#[trigger] s[i]) is Some && s[i] == #[trigger] s[j]
            ==> i == j
}

/// The values behind a sequence of references.
pub open spec fn deref_all<T>(r: Seq<&T>) -> Seq<T> {
    r.map_values(|x: &T| *x)
}

/// The values of the occupied slots of `s`, in slot order, that `other` holds (`inside`)
/// or lacks (`!inside`).
pub open spec fn select_slots<T>(s: Seq<Option<T>>, other: Set<T>, inside: bool) -> Seq<T>
    decreases s.len(),
{
    if s.len() == 0 {
        Seq::empty()
    } else {
        let rest = select_slots(s.drop_last(), other, inside);
        match s.last() {
            Some(x) => if other.contains(x) == inside {
                rest.push(x)
            } else {
                rest
            },
            None => rest,
        }
    }
}

/// `t` is what an insert of `v` that probes from `home` makes of the slots `s`, with result `r`:
/// the value takes the first slot that is empty or holds an equal value, and the
/// slots stay as they are when every slot holds some other value.
pub open spec fn insert_outcome<T>(
    s: Seq<Option<T>>,
    home: int,
    v: T,
    r: InsertResult<T>,
    t: Seq<Option<T>>,
) -> bool {
    let n = s.len() as int;
    match r {
        InsertResult::Success => exists|i: int|
            0 <= i < n && #[trigger] blocked(s, home, i, v) && s[pos(home, i, n)] is None && t
                == s.update(pos(home, i, n), Some(v)),
        InsertResult::Duplicate(o) => exists|i: int|
            0 <= i < n && #[trigger] blocked(s, home, i, v) && s[pos(home, i, n)] == Some(o) && o
                == v && t == s.update(pos(home, i, n), Some(v)),
        InsertResult::InsufficientCapacity(o) => o == v && blocked(s, home, n, v) && t == s,
    }
}

/// Replacing one slot changes the count of occupied slots by what the two values add.
pub(crate) proof fn lemma_occupied_update<T>(s: Seq<Option<T>>, j: int, x: Option<T>)
    requires
        0 <= j < s.len(),
    ensures
        occupied(s.update(j, x)) + (if s[j] is Some {
            1int
        } else {
            0int
        }) == occupied(s) + (if x is Some {
            1int
        } else {
            0int
        }),
    decreases s.len(),
{
    let t = s.update(j, x);
    if j < s.len() - 1 {
        lemma_occupied_update(s.drop_last(), j, x);
        assert(t.drop_last() =~= s.drop_last().update(j, x));
    } else {
        assert(t.drop_last() =~= s.drop_last());
    }
}

/// Probing that meets an empty slot after `i` other values does not find `v`.
pub(crate) proof fn lemma_empty_ends_chain<T>(s: Seq<Option<T>>, home: int, i: int, v: T)
    requires
        0 <= home < s.len(),
        0 <= i < s.len(),
        blocked(s, home, i, v),
        s[pos(home, i, s.len() as int)] is None,
    ensures
        !found_in_chain(s, home, v),
{
    if found_in_chain(s, home, v) {
        let w = choose|w: int|
            0 <= w < s.len() && #[trigger] blocked(s, home, w, v) && s[pos(home, w, s.len() as int)]
                == Some(v);
        if w < i {
            assert(s[pos(home, w, s.len() as int)] is Some);
        } else if w > i {
            assert(s[pos(home, i, s.len() as int)] is Some);
        }
    }
}

/// Probing that meets only other values in every slot does not find `v`.
pub(crate) proof fn lemma_blocked_everywhere<T>(s: Seq<Option<T>>, home: int, v: T)
    requires
        blocked(s, home, s.len() as int, v),
    ensures
        !found_in_chain(s, home, v),
{
    if found_in_chain(s, home, v) {
        let w = choose|w: int|
            0 <= w < s.len() && #[trigger] blocked(s, home, w, v) && s[pos(home, w, s.len() as int)]
                == Some(v);
        assert(s[pos(home, w, s.len() as int)] is Some);
    }
}

/// A value found by probing is stored in some slot.
pub(crate) proof fn lemma_found_is_stored<T>(s: Seq<Option<T>>, home: int, v: T)
    requires
        0 <= home < s.len() || s.len() == 0,
    ensures
        found_in_chain(s, home, v) ==> values(s).contains(v),
{
    if found_in_chain(s, home, v) {
        let w = choose|w: int|
            0 <= w < s.len() && #[trigger] blocked(s, home, w, v) && s[pos(home, w, s.len() as int)]
                == Some(v);
        let j = pos(home, w, s.len() as int);
        assert(0 <= j < s.len() && s[j] == Some(v));
    }
}

/// What an insert does to the stored values and their count, whatever slot it probes from:
/// a value that the slots lack is stored while a slot is empty, and a full block of
/// slots that lacks the value rejects it and stays as it is.
pub proof fn lemma_insert_outcome_facts<T>(
    s: Seq<Option<T>>,
    home: int,
    v: T,
    r: InsertResult<T>,
    t: Seq<Option<T>>,
)
    requires
        0 <= home < s.len() || s.len() == 0,
        insert_outcome(s, home, v, r, t),
    ensures
        r is Success ==> values(t) == values(s).insert(v) && occupied(t) == occupied(s) + 1,
        r is Duplicate ==> r->Duplicate_0 == v && values(s).contains(v) && t == s,
        r is InsufficientCapacity ==> {
            &&& r->InsufficientCapacity_0 == v
            &&& !values(s).contains(v)
            &&& occupied(s) == s.len()
            &&& t == s
        },
        !values(s).contains(v) ==> (r is Success <==> occupied(s) < s.len()),
        occupied(s) == s.len() && !values(s).contains(v) ==> r is InsufficientCapacity && t == s,
{
    let n = s.len() as int;
    lemma_occupied_le(s);
    match r {
        InsertResult::Success => {
            let i = choose|i: int|
                0 <= i < n && #[trigger] blocked(s, home, i, v) && s[pos(home, i, n)] is None && t
                    == s.update(pos(home, i, n), Some(v));
            let p = pos(home, i, n);
            lemma_occupied_update(s, p, Some(v));
            lemma_occupied_le(t);
            assert(values(t) =~= values(s).insert(v)) by {
                assert(t[p] == Some(v));
                assert forall|x: T| values(s).contains(x) implies values(t).contains(x) by {
                    let j = choose|j: int| 0 <= j < n && s[j] == Some(x);
                    assert(t[j] == Some(x));
                }
            }
        },
        InsertResult::Duplicate(o) => {
            let i = choose|i: int|
                0 <= i < n && #[trigger] blocked(s, home, i, v) && s[pos(home, i, n)] == Some(o)
                    && o == v && t == s.update(pos(home, i, n), Some(v));
            let p = pos(home, i, n);
            assert(t =~= s);
            assert(s[p] == Some(v));
        },
        InsertResult::InsufficientCapacity(o) => {
            assert forall|j: int| 0 <= j < n implies #[trigger] s[j] is Some && s[j]->0 != v by {
                let k = if j >= home { j - home } else { j + n - home };
                assert(pos(home, k, n) == j);
                assert(s[pos(home, k, n)] is Some);
            }
            lemma_occupied_full(s);
        },
    }
}

/// Arithmetic of probing positions and offsets.
pub(crate) proof fn lemma_pos_offset(home: int, n: int)
    requires
        0 <= home < n,
    ensures
        forall|k: int| 0 <= k < n ==> 0 <= #[trigger] pos(home, k, n) < n,
        forall|k: int| 0 <= k < n ==> #[trigger] offset(home, pos(home, k, n), n) == k,
        forall|j: int| 0 <= j < n ==> 0 <= #[trigger] offset(home, j, n) < n,
        forall|j: int| 0 <= j < n ==> pos(home, #[trigger] offset(home, j, n), n) == j,
{
}

/// Slots that are all empty are laid out under every hash function and hold no two equal values.
pub proof fn lemma_empty_slots_laid_out<T>(s: Seq<Option<T>>, hf: spec_fn(T) -> u64)
    requires
        forall|j: int| 0 <= j < s.len() ==> s[j] is None,
    ensures
        laid_out(s, hf),
        distinct_slots(s),
        occupied(s) == 0,
{
    lemma_occupied_all_empty(s);
}

/// An insert that probes from the home slot of the value's hash under `hf` keeps the slots
/// laid out under `hf`, and keeps every value in at most one slot.
pub proof fn lemma_insert_keeps_distinct<T>(
    s: Seq<Option<T>>,
    hf: spec_fn(T) -> u64,
    v: T,
    r: InsertResult<T>,
    t: Seq<Option<T>>,
)
    requires
        laid_out(s, hf),
        distinct_slots(s),
        insert_outcome(s, (hf(v) as int) % (s.len() as int), v, r, t),
    ensures
        laid_out(t, hf),
        distinct_slots(t),
{
    let n = s.len() as int;
    let h = (hf(v) as int) % n;
    match r {
        InsertResult::Success => {
            let i = choose|i: int|
                0 <= i < n && #[trigger] blocked(s, h, i, v) && s[pos(h, i, n)] is None && t
                    == s.update(pos(h, i, n), Some(v));
            let p = pos(h, i, n);
            lemma_pos_offset(h, n);
            assert forall|j: int| 0 <= j < n && j != p && s[j] == Some(v) implies false by {
                assert(chain_unbroken(s, h, j));
                let d = offset(h, j, n);
                if d < i {
                    assert(s[pos(h, d, n)] is Some);
                } else if d > i {
                    assert(s[pos(h, i, n)] is Some);
                }
            }
            assert forall|a: int, b: int|
                0 <= a < n && 0 <= b < n && (#[trigger] t[a]) is Some && t[a] == #[trigger] t[b]
                    implies a == b by {
                if a != p && b != p {
                    assert(s[a] == t[a] && s[b] == t[b]);
                }
            }
            assert forall|j: int| 0 <= j < n && (#[trigger] t[j]) is Some implies chain_unbroken(
                t,
                (hf(t[j]->0) as int) % n,
                j,
            ) by {
                let hj = (hf(t[j]->0) as int) % n;
                if j == p {
                    assert forall|k: int| 0 <= k < offset(hj, j, n) implies (#[trigger] t[pos(
                        hj,
                        k,
                        n,
                    )]) is Some by {
                        assert(s[pos(h, k, n)] is Some);
                    }
                } else {
                    assert(s[j] is Some);
                    assert(chain_unbroken(s, hj, j));
                    assert forall|k: int| 0 <= k < offset(hj, j, n) implies (#[trigger] t[pos(
                        hj,
                        k,
                        n,
                    )]) is Some by {
                        assert(s[pos(hj, k, n)] is Some);
                    }
                }
            }
        },
        InsertResult::Duplicate(o) => {
            let i = choose|i: int|
                0 <= i < n && #[trigger] blocked(s, h, i, v) && s[pos(h, i, n)] == Some(o) && o == v
                    && t == s.update(pos(h, i, n), Some(v));
            assert(t =~= s);
        },
        InsertResult::InsufficientCapacity(o) => {},
    }
}

/// Right after an insert that stored `v` or replaced an equal value, probing from the same
/// home slot finds `v`.
pub proof fn lemma_insert_then_found<T>(
    s: Seq<Option<T>>,
    home: int,
    v: T,
    r: InsertResult<T>,
    t: Seq<Option<T>>,
)
    requires
        0 <= home < s.len(),
        insert_outcome(s, home, v, r, t),
        !(r is InsufficientCapacity),
    ensures
        found_in_chain(t, home, v),
{
    let n = s.len() as int;
    lemma_pos_offset(home, n);
    let i = if r is Success {
        choose|i: int|
            0 <= i < n && #[trigger] blocked(s, home, i, v) && s[pos(home, i, n)] is None && t
                == s.update(pos(home, i, n), Some(v))
    } else {
        choose|i: int|
            0 <= i < n && #[trigger] blocked(s, home, i, v) && s[pos(home, i, n)] == Some(r->Duplicate_0)
                && r->Duplicate_0 == v && t == s.update(pos(home, i, n), Some(v))
    };
    assert(0 <= i < n && blocked(s, home, i, v) && t == s.update(pos(home, i, n), Some(v)));
    assert forall|k: int| 0 <= k < i implies {
        let o = #[trigger] t[pos(home, k, t.len() as int)];
        o is Some && o->0 != v
    } by {
        assert(s[pos(home, k, n)] is Some);
    }
    assert(blocked(t, home, i, v));
    assert(t[pos(home, i, n)] == Some(v));
}

/// Inserting a value that the slots hold, probing from the home slot of its hash under
/// `hf`, replaces it: it never reports a lack of room.
pub proof fn lemma_present_is_replaced<T>(
    s: Seq<Option<T>>,
    hf: spec_fn(T) -> u64,
    v: T,
    r: InsertResult<T>,
    t: Seq<Option<T>>,
)
    requires
        laid_out(s, hf),
        values(s).contains(v),
        insert_outcome(s, (hf(v) as int) % (s.len() as int), v, r, t),
    ensures
        r is Duplicate,
        t == s,
{
    let n = s.len() as int;
    let h = (hf(v) as int) % n;
    let j = choose|j: int| 0 <= j < n && s[j] == Some(v);
    lemma_pos_offset(h, n);
    assert(chain_unbroken(s, h, j));
    let d = offset(h, j, n);
    match r {
        InsertResult::Success => {
            let i = choose|i: int|
                0 <= i < n && #[trigger] blocked(s, h, i, v) && s[pos(h, i, n)] is None && t
                    == s.update(pos(h, i, n), Some(v));
            if i < d {
                assert(s[pos(h, i, n)] is Some);
            } else {
                assert(s[pos(h, d, n)]->0 != v);
            }
        },
        InsertResult::Duplicate(o) => {
            let i = choose|i: int|
                0 <= i < n && #[trigger] blocked(s, h, i, v) && s[pos(h, i, n)] == Some(o) && o == v
                    && t == s.update(pos(h, i, n), Some(v));
            assert(t =~= s);
        },
        InsertResult::InsufficientCapacity(o) => {
            assert(s[pos(h, d, n)]->0 != v);
        },
    }
}

/// Slots that are all empty hold no value, and probing them finds nothing.
pub proof fn lemma_cleared_finds_nothing<T>(s: Seq<Option<T>>, home: int, v: T)
    requires
        0 <= home < s.len() || s.len() == 0,
        forall|j: int| 0 <= j < s.len() ==> s[j] is None,
    ensures
        !found_in_chain(s, home, v),
        !values(s).contains(v),
{
    if found_in_chain(s, home, v) {
        let w = choose|w: int|
            0 <= w < s.len() && #[trigger] blocked(s, home, w, v) && s[pos(home, w, s.len() as int)]
                == Some(v);
        assert(s[pos(home, w, s.len() as int)] is None);
    }
}

/// Every slot of `s` is occupied exactly when the count of occupied slots is its length.
pub(crate) proof fn lemma_occupied_full<T>(s: Seq<Option<T>>)
    ensures
        (forall|j: int| 0 <= j < s.len() ==> #[trigger] s[j] is Some) <==> occupied(s) == s.len(),
    decreases s.len(),
{
    if s.len() > 0 {
        lemma_occupied_full(s.drop_last());
        lemma_occupied_le(s.drop_last());
        if forall|j: int| 0 <= j < s.len() ==> #[trigger] s[j] is Some {
            assert forall|j: int| 0 <= j < s.drop_last().len() implies #[trigger] s.drop_last()[j] is Some by {
                assert(s[j] is Some);
            }
        } else if occupied(s) == s.len() {
            assert forall|j: int| 0 <= j < s.len() implies #[trigger] s[j] is Some by {
                if j < s.len() - 1 {
                    assert(s.drop_last()[j] is Some);
                }
            }
        }
    }
}

/// The values selected are the stored values that `other` holds (`inside`) or lacks.
pub(crate) proof fn lemma_select_slots_holds<T>(s: Seq<Option<T>>, other: Set<T>, inside: bool, x: T)
    ensures
        select_slots(s, other, inside).contains(x) <==> (values(s).contains(x) && other.contains(x)
            == inside),
    decreases s.len(),
{
    if s.len() > 0 {
        let d = s.drop_last();
        let rest = select_slots(d, other, inside);
        let all = select_slots(s, other, inside);
        lemma_select_slots_holds(d, other, inside, x);
        if values(s).contains(x) && other.contains(x) == inside {
            let j = choose|j: int| 0 <= j < s.len() && s[j] == Some(x);
            if j < s.len() - 1 {
                assert(d[j] == Some(x));
                assert(values(d).contains(x));
                assert(rest.contains(x));
                let k = choose|k: int| 0 <= k < rest.len() && rest[k] == x;
                assert(all[k] == x);
            } else {
                assert(all[rest.len() as int] == x);
            }
        }
        if all.contains(x) {
            let k = choose|k: int| 0 <= k < all.len() && all[k] == x;
            if k < rest.len() {
                assert(rest[k] == x);
                assert(rest.contains(x));
                assert(values(d).contains(x));
                let j = choose|j: int| 0 <= j < d.len() && d[j] == Some(x);
                assert(s[j] == Some(x));
            } else {
                assert(s[s.len() - 1] == Some(x));
            }
            assert(values(s).contains(x));
        }
    }
}

/// No more slots are occupied than there are slots.
pub(crate) proof fn lemma_occupied_le<T>(s: Seq<Option<T>>)
    ensures
        occupied(s) <= s.len(),
    decreases s.len(),
{
    if s.len() > 0 {
        lemma_occupied_le(s.drop_last());
    }
}

/// A sequence whose slots are all empty has no occupied slot.
pub(crate) proof fn lemma_occupied_all_empty<T>(s: Seq<Option<T>>)
    requires
        forall|j: int| 0 <= j < s.len() ==> s[j] is None,
    ensures
        occupied(s) == 0,
    decreases s.len(),
{
    if s.len() > 0 {
        lemma_occupied_all_empty(s.drop_last());
    }
}

} // verus!

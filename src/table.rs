use vstd::prelude::*;

use crate::hashable::Hashable;
use crate::slots::{
    dist, entry_key, entry_value, holds, inv, lemma_dist, lemma_dist_wrap, lemma_fill,
    lemma_set_value, lemma_taken_bound, lemma_taken_full, lemma_value_at, model,
    passes_over, path_full, start, taken, wrap,
};

verus! {

/// Number of slots of a freshly made table.
pub const INITIAL_CAPACITY: usize = 11;

/// A table of `capacity` slots, each empty or holding one key and its value.
pub struct HashMap<Key: View, Value> {
    cells: Vec<Option<(Key, Value)>>,
    taken_count: usize,
    keys: Ghost<Set<Key::V>>,
}

impl<Key: Hashable, Value> View for HashMap<Key, Value> {
    type V = Map<Key::V, Value>;

    /// The key-to-value mapping that the table holds.
    closed spec fn view(&self) -> Map<Key::V, Value> {
        model(self.cells@, self.keys@)
    }
}

impl<Key: Hashable, Value> HashMap<Key, Value> {
    /// Number of slots.
    pub closed spec fn spec_capacity(&self) -> nat {
        self.cells@.len()
    }

    /// Number of occupied slots.
    pub closed spec fn spec_count(&self) -> nat {
        self.taken_count as nat
    }

    /// What slot `i` holds, `None` when it is empty.
    pub closed spec fn spec_slot(&self, i: int) -> Option<(Key, Value)> {
        self.cells@[i]
    }

    /// The table's invariant: a positive capacity, a count that matches the
    /// occupied slots, no key twice, and every key reachable by probing from
    /// its home slot.
    pub closed spec fn wf(&self) -> bool {
        inv::<Key, Value>(self.cells@, self.taken_count as nat, self.keys@)
    }

    proof fn lemma_view_at(&self, i: int)
        requires
            self.wf(),
            0 <= i < self.cells@.len(),
            self.cells@[i] is Some,
        ensures
            self@.contains_key(entry_key(self.cells@[i])),
            self@[entry_key(self.cells@[i])] == entry_value(self.cells@[i]),
    {
        lemma_value_at(self.cells@, self.taken_count as nat, self.keys@, i);
    }

    /// An empty table with `capacity` slots.
    fn with_capacity(capacity: usize) -> (r: Self)
        requires
            capacity > 0,
        ensures
            r.wf(),
            r@ == Map::<Key::V, Value>::empty(),
            r.spec_capacity() == capacity,
            r.spec_count() == 0,
    {
        let mut cells: Vec<Option<(Key, Value)>> = Vec::new();
        let mut i: usize = 0;
        while i < capacity
            invariant
                i <= capacity,
                cells@.len() == i,
                forall|j: int| 0 <= j < i ==> cells@[j] is None,
            decreases capacity - i,
        {
            cells.push(None);
            i += 1;
        }
        let r = HashMap { cells, taken_count: 0, keys: Ghost(Set::empty()) };
        proof {
            crate::slots::lemma_taken_none(r.cells@);
            assert(r@ =~= Map::<Key::V, Value>::empty());
        }
        r
    }

    /// An empty table of the initial capacity.
    pub fn new() -> (r: Self)
        ensures
            r.wf(),
            r@ == Map::<Key::V, Value>::empty(),
            r.spec_capacity() == INITIAL_CAPACITY,
            r.spec_count() == 0,
    {
        Self::with_capacity(INITIAL_CAPACITY)
    }

    /// Walks the probe sequence of `key` from its home slot and returns the
    /// slot where the walk stopped and how many slots it passed: it stops at
    /// the first empty slot or slot holding `key`, and after `capacity` slots
    /// at the latest.
    fn scan(&self, key: &Key) -> (r: (usize, usize))
        requires
            self.wf(),
        ensures
            r.1 <= self.cells@.len(),
            r.0 == wrap(start::<Key>(key@, self.cells@.len() as int), r.1 as int, self.cells@.len() as int),
            passes_over(self.cells@, start::<Key>(key@, self.cells@.len() as int), r.1 as int, key@),
            r.1 < self.cells@.len() ==> (self.cells@[r.0 as int] is None || entry_key(self.cells@[r.0 as int]) == key@),
    {
        let n = self.cells.len();
        let ghost c = self.cells@;
        let ghost s = start::<Key>(key@, n as int);
        let mut index = key.hash() % n;
        let mut step: usize = 0;
        while step < n
            invariant
                n == c.len(),
                c == self.cells@,
                0 < n,
                s == start::<Key>(key@, n as int),
                step <= n,
                index == wrap(s, step as int, n as int),
                passes_over(c, s, step as int, key@),
            decreases n - step,
        {
            match &self.cells[index] {
                None => {
                    return (index, step);
                },
                Some(e) => {
                    if e.0.same_key(key) {
                        return (index, step);
                    }
                },
            }
            index = if index + 1 == n { 0 } else { index + 1 };
            step += 1;
        }
        (index, step)
    }

    /// Index of the slot holding `key`, or `None` when the table does not
    /// hold it.
    pub fn get_index(&self, key: &Key) -> (r: Option<usize>)
        requires
            self.wf(),
        ensures
            r is Some <==> self@.contains_key(key@),
            r matches Some(i) ==> i < self.spec_capacity() && self.spec_slot(i as int) is Some
                && entry_key(self.spec_slot(i as int)) == key@
                && entry_value(self.spec_slot(i as int)) == self@[key@],
    {
        let (index, step) = self.scan(key);
        let found = match &self.cells[index] {
            Some(e) => e.0.same_key(key),
            None => false,
        };
        proof {
            let c = self.cells@;
            let n = c.len() as int;
            let s = start::<Key>(key@, n);
            if found {
                self.lemma_view_at(index as int);
            } else if self@.contains_key(key@) {
                let i = choose|i: int| holds(c, i, key@);
                lemma_dist(i, s, n);
                let di = dist(i, s, n);
                if di < step {
                    assert(c[wrap(s, di, n)] is Some);
                } else {
                    assert(c[i] is Some);
                    assert(path_full(c, s, di));
                    if di > step {
                        assert(c[wrap(s, step as int, n)] is Some);
                    }
                }
            }
        }
        if found {
            Some(index)
        } else {
            None
        }
    }

    /// The value stored for `key`, or `None` when the table does not hold it.
    pub fn get(&self, key: &Key) -> (r: Option<&Value>)
        requires
            self.wf(),
        ensures
            r is Some <==> self@.contains_key(key@),
            r matches Some(v) ==> *v == self@[key@],
    {
        match self.get_index(key) {
            Some(index) => match &self.cells[index] {
                Some(e) => Some(&e.1),
                None => None,
            },
            None => None,
        }
    }

    /// A handle on the value stored for `key`, through which the caller may
    /// change it in place; `None` when the table does not hold `key`.
    pub fn get_mut(&mut self, key: &Key) -> (r: Option<&mut Value>)
        requires
            old(self).wf(),
        ensures
            r is Some <==> old(self)@.contains_key(key@),
            r is None ==> *final(self) == *old(self),
            r matches Some(v) ==> *v == old(self)@[key@] && final(self).wf() && final(self)@ == old(
                self,
            )@.insert(key@, *final(v)) && final(self).spec_capacity() == old(self).spec_capacity()
                && final(self).spec_count() == old(self).spec_count(),
    {
        match self.get_index(key) {
            Some(index) => {
                let ghost c = self.cells@;
                let ghost count = self.taken_count as nat;
                let ghost keys = self.keys@;
                match &mut self.cells[index] {
                    Some(e) => {
                        let v = &mut e.1;
                        proof {
                            lemma_set_value(c, count, keys, index as int, *final(v));
                        }
                        Some(v)
                    },
                    None => None,
                }
            },
            None => None,
        }
    }

    /// Stores a key that the table does not hold in the first empty slot of
    /// its probe sequence.
    fn place(&mut self, key: Key, value: Value)
        requires
            old(self).wf(),
            !old(self)@.contains_key(key@),
            old(self).taken_count < old(self).cells@.len(),
        ensures
            final(self).wf(),
            final(self)@ == old(self)@.insert(key@, value),
            final(self).cells@.len() == old(self).cells@.len(),
            final(self).taken_count == old(self).taken_count + 1,
            final(self).keys@ == old(self).keys@.insert(key@),
    {
        let n = self.cells.len();
        let ghost c = self.cells@;
        let ghost s = start::<Key>(key@, n as int);
        let mut index = key.hash() % n;
        let mut step: usize = 0;
        while self.cells[index].is_some()
            invariant
                self.cells@ == c,
                n == c.len(),
                self.wf(),
                self.taken_count < n,
                s == start::<Key>(key@, n as int),
                step < n,
                index == wrap(s, step as int, n as int),
                path_full(c, s, step as int),
            decreases n - step,
        {
            proof {
                lemma_dist_wrap(s, step as int, n as int);
                assert(path_full(c, s, step + 1));
                if step + 1 == n {
                    assert forall|j: int| 0 <= j < n implies c[j] is Some by {
                        lemma_dist(j, s, n as int);
                        assert(c[wrap(s, dist(j, s, n as int), n as int)] is Some);
                    }
                    lemma_taken_full(c);
                }
            }
            index = if index + 1 == n {
                0
            } else {
                index + 1
            };
            step += 1;
        }
        proof {
            lemma_fill(c, self.taken_count as nat, self.keys@, index as int, key, value, step as int);
        }
        self.cells.set(index, Some((key, value)));
        self.taken_count += 1;
        self.keys = Ghost(self.keys@.insert(key@));
    }

    /// Rebuilds the table with `2 * capacity + 1` slots, placing every entry
    /// again in the order of the old slots.
    pub fn extend(&mut self)
        requires
            old(self).wf(),
            old(self).spec_capacity() <= (usize::MAX - 1) / 2,
        ensures
            final(self).wf(),
            final(self)@ == old(self)@,
            final(self).spec_capacity() == 2 * old(self).spec_capacity() + 1,
            final(self).spec_count() == old(self).spec_count(),
    {
        let n = self.cells.len();
        let mut fresh = Self::with_capacity(n * 2 + 1);
        let ghost c = self.cells@;
        let ghost keys = self.keys@;
        let ghost count = self.taken_count;
        let mut i: usize = 0;
        while i < n
            invariant
                n == c.len(),
                inv::<Key, Value>(c, count as nat, keys),
                self.cells@.len() == n,
                forall|j: int| i <= j < n ==> self.cells@[j] == c[j],
                i <= n,
                fresh.wf(),
                fresh.cells@.len() == 2 * n + 1,
                fresh.taken_count <= i,
                forall|kk: Key::V|
                    #[trigger] fresh.keys@.contains(kk) <==> exists|j: int| 0 <= j < i && holds(c, j, kk),
                forall|j: int|
                    0 <= j < i && #[trigger] c[j] is Some ==> fresh@.contains_key(entry_key(c[j]))
                        && fresh@[entry_key(c[j])] == entry_value(c[j]),
            decreases n - i,
        {
            let slot = self.cells[i].take();
            match slot {
                Some(entry) => {
                    let (k, v) = entry;
                    proof {
                        if fresh.keys@.contains(k@) {
                            let j = choose|j: int| 0 <= j < i && holds(c, j, k@);
                            assert(holds(c, i as int, k@));
                        }
                    }
                    let ghost prev = fresh.keys@;
                    fresh.place(k, v);
                    proof {
                        assert forall|kk: Key::V|
                            #[trigger] fresh.keys@.contains(kk) <==> exists|j: int| 0 <= j < i + 1 && holds(c, j, kk) by {
                            if kk == entry_key(c[i as int]) {
                                assert(holds(c, i as int, kk));
                            } else if fresh.keys@.contains(kk) {
                                assert(prev.contains(kk));
                            } else if exists|j: int| 0 <= j < i + 1 && holds(c, j, kk) {
                                let j = choose|j: int| 0 <= j < i + 1 && holds(c, j, kk);
                                assert(0 <= j < i && holds(c, j, kk));
                            }
                        }
                    }
                },
                None => {
                    proof {
                        assert forall|kk: Key::V|
                            #[trigger] fresh.keys@.contains(kk) <==> exists|j: int| 0 <= j < i + 1 && holds(c, j, kk) by {
                            if exists|j: int| 0 <= j < i + 1 && holds(c, j, kk) {
                                let j = choose|j: int| 0 <= j < i + 1 && holds(c, j, kk);
                                assert(0 <= j < i && holds(c, j, kk));
                            }
                        }
                    }
                },
            }
            i += 1;
        }
        proof {
            assert forall|kk: Key::V| #[trigger] fresh.keys@.contains(kk) <==> keys.contains(kk) by {
                if keys.contains(kk) {
                    let j = choose|j: int| holds(c, j, kk);
                    assert(0 <= j < n && holds(c, j, kk));
                }
            }
            assert(fresh.keys@ =~= keys);
            assert forall|kk: Key::V| #[trigger] keys.contains(kk) implies fresh@[kk] == old(self)@[kk] by {
                let j = choose|j: int| holds(c, j, kk);
                lemma_value_at(c, count as nat, keys, j);
            }
            assert(fresh@ =~= old(self)@);
        }
        *self = fresh;
    }

    /// Stores `value` for `key`. A key the table holds gets its value
    /// replaced in place, with no growth even when the table is full; a new
    /// key first makes a full table rebuild itself at `2 * capacity + 1`
    /// slots, then takes the first empty slot of its probe sequence.
    pub fn insert(&mut self, key: Key, value: Value)
        requires
            old(self).wf(),
            old(self).spec_count() < old(self).spec_capacity() || old(self).spec_capacity() <= (
            usize::MAX - 1) / 2,
        ensures
            final(self).wf(),
            final(self)@ == old(self)@.insert(key@, value),
            final(self).spec_count() == if old(self)@.contains_key(key@) {
                old(self).spec_count()
            } else {
                old(self).spec_count() + 1
            },
            final(self).spec_capacity() == if !old(self)@.contains_key(key@) && old(self).spec_count()
                >= old(self).spec_capacity() {
                2 * old(self).spec_capacity() + 1
            } else {
                old(self).spec_capacity()
            },
    {
        if let Some(old_value) = self.get_mut(&key) {
            *old_value = value;
        } else {
            proof {
                lemma_taken_bound(self.cells@);
            }
            if self.taken_count >= self.cells.len() {
                self.extend();
            }
            self.place(key, value);
        }
    }

    /// Number of occupied slots.
    pub fn count(&self) -> (r: usize)
        ensures
            r == self.spec_count(),
    {
        self.taken_count
    }

    /// Number of slots.
    pub fn capacity(&self) -> (r: usize)
        ensures
            r == self.spec_capacity(),
    {
        self.cells.len()
    }

    /// The key and value in slot `index`, or `None` when that slot is empty.
    pub fn slot(&self, index: usize) -> (r: Option<(&Key, &Value)>)
        requires
            index < self.spec_capacity(),
        ensures
            r is Some <==> self.spec_slot(index as int) is Some,
            r matches Some(p) ==> self.spec_slot(index as int) == Some((*p.0, *p.1)),
    {
        match &self.cells[index] {
            Some(e) => Some((&e.0, &e.1)),
            None => None,
        }
    }
}

/// Applies inserts in order, each replacing what the previous ones stored
/// under the same key.
pub open spec fn insert_all<K, V>(m: Map<K, V>, ops: Seq<(K, V)>) -> Map<K, V>
    decreases ops.len(),
{
    if ops.len() == 0 {
        m
    } else {
        insert_all(m, ops.drop_last()).insert(ops.last().0, ops.last().1)
    }
}

/// Round trip: after `k` was inserted with `v`, any later inserts of other
/// keys leave `v` as what a lookup of `k` finds.
pub proof fn lemma_round_trip<K, V>(m: Map<K, V>, k: K, v: V, later: Seq<(K, V)>)
    requires
        forall|i: int| 0 <= i < later.len() ==> (#[trigger] later[i]).0 != k,
    ensures
        insert_all(m.insert(k, v), later).contains_key(k),
        insert_all(m.insert(k, v), later)[k] == v,
    decreases later.len(),
{
    if later.len() > 0 {
        let rest = later.drop_last();
        assert forall|i: int| 0 <= i < rest.len() implies (#[trigger] rest[i]).0 != k by {
            assert(rest[i] == later[i]);
        }
        assert(later[later.len() - 1] == later.last());
        lemma_round_trip(m, k, v, rest);
    }
}

/// Uniqueness: a well-formed table holds each key in one slot only, and its
/// count is both the number of distinct keys and the number of occupied
/// slots, never above the capacity.
pub proof fn lemma_unique_keys<Key: Hashable, Value>(t: &HashMap<Key, Value>)
    requires
        t.wf(),
    ensures
        t@.dom().finite(),
        t@.dom().len() == t.spec_count(),
        t.spec_count() == occupied(t),
        t.spec_count() <= t.spec_capacity(),
        forall|i: int, j: int|
            0 <= i < t.spec_capacity() && 0 <= j < t.spec_capacity() && t.spec_slot(i) is Some
                && t.spec_slot(j) is Some && entry_key(t.spec_slot(i)) == entry_key(t.spec_slot(j))
                ==> i == j,
{
    lemma_taken_bound(t.cells@);
    assert(t@.dom() =~= t.keys@);
    assert(Seq::new(t.spec_capacity(), |i: int| t.spec_slot(i)) =~= t.cells@);
}

/// Number of occupied slots of `t`.
pub open spec fn occupied<Key: Hashable, Value>(t: &HashMap<Key, Value>) -> nat {
    taken(Seq::new(t.spec_capacity(), |i: int| t.spec_slot(i)))
}


} // verus!

use vstd::prelude::*;

use crate::hashable::Hashable;

verus! {

/// Home slot of key `k` in a table of `n` slots.
pub open spec fn start<K: Hashable>(k: K::V, n: int) -> int {
    K::spec_hash(k) as int % n
}

/// The slot reached after `e` forward steps from slot `s`, wrapping at `n`
/// (for `s < n` and `e < n` this is `(s + e) % n`).
pub open spec fn wrap(s: int, e: int, n: int) -> int {
    if s + e < n {
        s + e
    } else {
        s + e - n
    }
}

/// How many forward steps lead from slot `s` to slot `i`.
pub open spec fn dist(i: int, s: int, n: int) -> int {
    if i >= s {
        i - s
    } else {
        i + n - s
    }
}

/// The first `d` slots of the probe sequence from `s` are all occupied.
pub open spec fn path_full<K, V>(c: Seq<Option<(K, V)>>, s: int, d: int) -> bool {
    forall|e: int|
        0 <= e < d ==> 0 <= wrap(s, e, c.len() as int) < c.len() && #[trigger] c[wrap(
            s,
            e,
            c.len() as int,
        )] is Some
}

/// The first `d` slots of the probe sequence from `s` are occupied by keys
/// other than `k`.
pub open spec fn passes_over<K: View, V>(c: Seq<Option<(K, V)>>, s: int, d: int, k: K::V) -> bool {
    forall|e: int|
        0 <= e < d ==> #[trigger] c[wrap(s, e, c.len() as int)] is Some && entry_key(
            c[wrap(s, e, c.len() as int)],
        ) != k
}

/// Key of an occupied slot.
pub open spec fn entry_key<K: View, V>(x: Option<(K, V)>) -> K::V {
    let p = x->0;
    p.0@
}

/// Value of an occupied slot.
pub open spec fn entry_value<K, V>(x: Option<(K, V)>) -> V {
    let p = x->0;
    p.1
}

/// An occupied slot with its value replaced by `v`.
pub open spec fn with_value<K, V>(x: Option<(K, V)>, v: V) -> Option<(K, V)> {
    let p = x->0;
    Some((p.0, v))
}

/// Slot `i` holds key `k`.
pub open spec fn holds<K: View, V>(c: Seq<Option<(K, V)>>, i: int, k: K::V) -> bool {
    0 <= i < c.len() && c[i] is Some && entry_key(c[i]) == k
}

/// The value stored beside key `k`.
pub open spec fn value_at<K: View, V>(c: Seq<Option<(K, V)>>, k: K::V) -> V {
    entry_value(c[choose|i: int| holds(c, i, k)])
}

/// Number of occupied slots.
pub open spec fn taken<K, V>(c: Seq<Option<(K, V)>>) -> nat
    decreases c.len(),
{
    if c.len() == 0 {
        0
    } else {
        taken(c.drop_last()) + if c.last() is Some {
            1nat
        } else {
            0nat
        }
    }
}

/// Slots that are all empty hold nothing.
pub proof fn lemma_taken_none<K, V>(c: Seq<Option<(K, V)>>)
    requires
        forall|j: int| 0 <= j < c.len() ==> c[j] is None,
    ensures
        taken(c) == 0,
    decreases c.len(),
{
    if c.len() > 0 {
        lemma_taken_none(c.drop_last());
    }
}

/// Slots that are all occupied are counted in full.
pub proof fn lemma_taken_full<K, V>(c: Seq<Option<(K, V)>>)
    requires
        forall|j: int| 0 <= j < c.len() ==> c[j] is Some,
    ensures
        taken(c) == c.len(),
    decreases c.len(),
{
    if c.len() > 0 {
        lemma_taken_full(c.drop_last());
    }
}

/// No more slots are occupied than there are.
pub proof fn lemma_taken_bound<K, V>(c: Seq<Option<(K, V)>>)
    ensures
        taken(c) <= c.len(),
    decreases c.len(),
{
    if c.len() > 0 {
        lemma_taken_bound(c.drop_last());
    }
}

/// Overwriting one slot changes the count by what left and what came.
pub proof fn lemma_taken_update<K, V>(c: Seq<Option<(K, V)>>, i: int, x: Option<(K, V)>)
    requires
        0 <= i < c.len(),
    ensures
        taken(c.update(i, x)) + (if c[i] is Some { 1int } else { 0int }) == taken(c) + (if x is Some {
            1int
        } else {
            0int
        }),
    decreases c.len(),
{
    let u = c.update(i, x);
    if i < c.len() - 1 {
        assert(u.drop_last() == c.drop_last().update(i, x));
        lemma_taken_update(c.drop_last(), i, x);
    } else {
        assert(u.drop_last() == c.drop_last());
    }
}

/// Stepping from slot `s` wraps around to slot `i` after `dist(i, s, n)` steps.
pub proof fn lemma_dist(i: int, s: int, n: int)
    requires
        0 <= i < n,
        0 <= s < n,
    ensures
        0 <= dist(i, s, n) < n,
        wrap(s, dist(i, s, n), n) == i,
{
}

/// `dist` undoes `wrap`.
pub proof fn lemma_dist_wrap(s: int, d: int, n: int)
    requires
        0 <= s < n,
        0 <= d < n,
    ensures
        dist(wrap(s, d, n), s, n) == d,
        0 <= wrap(s, d, n) < n,
{
}

/// The mapping held by slots `c` whose keys are `keys`.
pub open spec fn model<K: View, V>(c: Seq<Option<(K, V)>>, keys: Set<K::V>) -> Map<K::V, V> {
    keys.mk_map(|k: K::V| value_at(c, k))
}

/// The invariant of slots `c` with `count` occupied ones and key set `keys`:
/// a positive capacity, a count that matches the occupied slots, no key
/// twice, `keys` naming exactly the occupied keys, and every key reachable by
/// probing from its home slot over occupied slots only.
pub open spec fn inv<K: Hashable, V>(c: Seq<Option<(K, V)>>, count: nat, keys: Set<K::V>) -> bool {
    let n = c.len() as int;
    &&& 0 < n
    &&& count == taken(c)
    &&& keys.finite()
    &&& keys.len() == count
    &&& forall|i: int, j: int|
        0 <= i < n && 0 <= j < n && c[i] is Some && c[j] is Some && entry_key(c[i]) == entry_key(c[j])
            ==> i == j
    &&& forall|i: int| 0 <= i < n && #[trigger] c[i] is Some ==> keys.contains(entry_key(c[i]))
    &&& forall|k: K::V| #[trigger] keys.contains(k) ==> exists|i: int| holds(c, i, k)
    &&& forall|i: int|
        0 <= i < n && #[trigger] c[i] is Some ==> path_full(
            c,
            start::<K>(entry_key(c[i]), n),
            dist(i, start::<K>(entry_key(c[i]), n), n),
        )
}

/// The mapping holds each occupied slot's key with that slot's value.
pub proof fn lemma_value_at<K: Hashable, V>(c: Seq<Option<(K, V)>>, count: nat, keys: Set<K::V>, i: int)
    requires
        inv::<K, V>(c, count, keys),
        0 <= i < c.len(),
        c[i] is Some,
    ensures
        model(c, keys).contains_key(entry_key(c[i])),
        model(c, keys)[entry_key(c[i])] == entry_value(c[i]),
{
    let k = entry_key(c[i]);
    assert(holds(c, i, k));
    let j = choose|j: int| holds(c, j, k);
    assert(j == i);
}

/// Replacing the value in an occupied slot keeps the invariant and changes
/// the mapping at that slot's key only.
pub proof fn lemma_set_value<K: Hashable, V>(c: Seq<Option<(K, V)>>, count: nat, keys: Set<K::V>, i: int, x: V)
    requires
        inv::<K, V>(c, count, keys),
        0 <= i < c.len(),
        c[i] is Some,
    ensures
        inv::<K, V>(c.update(i, with_value(c[i], x)), count, keys),
        model(c.update(i, with_value(c[i], x)), keys) == model(c, keys).insert(entry_key(c[i]), x),
{
    let u = c.update(i, with_value(c[i], x));
    let k = entry_key(c[i]);
    lemma_taken_update(c, i, with_value(c[i], x));
    assert forall|kk: K::V| #[trigger] keys.contains(kk) implies exists|j: int| holds(u, j, kk) by {
        let j = choose|j: int| holds(c, j, kk);
        assert(holds(u, j, kk));
    }
    assert forall|s: int, d: int| #[trigger] path_full(c, s, d) implies path_full(u, s, d) by {
        assert forall|e: int| 0 <= e < d implies 0 <= wrap(s, e, u.len() as int) < u.len() && #[trigger] u[wrap(s, e, u.len() as int)] is Some by {
            assert(c[wrap(s, e, c.len() as int)] is Some);
        }
    }
    assert(inv::<K, V>(u, count, keys));
    assert forall|kk: K::V| #[trigger] keys.contains(kk) implies value_at(u, kk) == (if kk == k {
        x
    } else {
        value_at(c, kk)
    }) by {
        let j = choose|j: int| holds(u, j, kk);
        let j0 = choose|j: int| holds(c, j, kk);
        assert(holds(c, j, kk));
        assert(j == j0);
    }
    assert(model(u, keys) =~= model(c, keys).insert(k, x));
}

/// A probe path stays occupied when slots only become occupied.
pub proof fn lemma_path_grow<K, V>(c: Seq<Option<(K, V)>>, u: Seq<Option<(K, V)>>, s: int, d: int)
    requires
        path_full(c, s, d),
        u.len() == c.len(),
        forall|j: int| 0 <= j < c.len() && #[trigger] c[j] is Some ==> u[j] is Some,
    ensures
        path_full(u, s, d),
{
    assert forall|e: int| 0 <= e < d implies 0 <= wrap(s, e, u.len() as int) < u.len()
        && #[trigger] u[wrap(s, e, u.len() as int)] is Some by {
        assert(c[wrap(s, e, c.len() as int)] is Some);
    }
}

/// Storing a new key in the empty slot that ends its probe path keeps the
/// invariant and adds the key to the mapping.
pub proof fn lemma_fill<K: Hashable, V>(
    c: Seq<Option<(K, V)>>,
    count: nat,
    keys: Set<K::V>,
    i: int,
    k: K,
    v: V,
    d: int,
)
    requires
        inv::<K, V>(c, count, keys),
        !keys.contains(k@),
        0 <= d < c.len(),
        i == wrap(start::<K>(k@, c.len() as int), d, c.len() as int),
        path_full(c, start::<K>(k@, c.len() as int), d),
        c[i] is None,
    ensures
        inv::<K, V>(c.update(i, Some((k, v))), count + 1, keys.insert(k@)),
        model(c.update(i, Some((k, v))), keys.insert(k@)) == model(c, keys).insert(k@, v),
{
    let n = c.len() as int;
    let s = start::<K>(k@, n);
    let u = c.update(i, Some((k, v)));
    let ks = keys.insert(k@);
    lemma_dist_wrap(s, d, n);
    lemma_taken_update(c, i, Some((k, v)));
    assert forall|j: int| 0 <= j < n && #[trigger] u[j] is Some implies path_full(
        u,
        start::<K>(entry_key(u[j]), n),
        dist(j, start::<K>(entry_key(u[j]), n), n),
    ) by {
        if j == i {
            lemma_path_grow(c, u, s, d);
        } else {
            lemma_path_grow(
                c,
                u,
                start::<K>(entry_key(c[j]), n),
                dist(j, start::<K>(entry_key(c[j]), n), n),
            );
        }
    }
    assert forall|kk: K::V| #[trigger] ks.contains(kk) implies exists|j: int| holds(u, j, kk) by {
        if kk == k@ {
            assert(holds(u, i, kk));
        } else {
            let j = choose|j: int| holds(c, j, kk);
            assert(holds(u, j, kk));
        }
    }
    assert forall|a: int, b: int|
        0 <= a < n && 0 <= b < n && u[a] is Some && u[b] is Some && entry_key(u[a]) == entry_key(
            u[b],
        ) implies a == b by {
        if a != i && b != i {
        } else if a == i && b != i {
            assert(keys.contains(entry_key(c[b])));
        } else if a != i && b == i {
            assert(keys.contains(entry_key(c[a])));
        }
    }
    assert(inv::<K, V>(u, count + 1, ks));
    assert forall|kk: K::V| #[trigger] ks.contains(kk) implies value_at(u, kk) == (if kk == k@ {
        v
    } else {
        value_at(c, kk)
    }) by {
        let j = choose|j: int| holds(u, j, kk);
        if kk == k@ {
            assert(holds(u, i, kk));
        } else {
            let j0 = choose|j: int| holds(c, j, kk);
            assert(holds(c, j, kk));
            assert(j == j0);
        }
    }
    assert(model(u, ks) =~= model(c, keys).insert(k@, v));
}

} // verus!

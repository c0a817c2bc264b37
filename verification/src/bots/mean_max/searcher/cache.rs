//! A cache of bounded size that, when it is full, first drops the entries put
//! with the lowest priority.
//!
//! Entries are keyed by the `u128` encoding of a board and ranked by a `u64`
//! priority. A key put twice keeps its older ranking next to the newer one;
//! when the older one is dropped, the key goes with it.
use std::collections::{BTreeSet, HashMap};
use vstd::prelude::*;

verus! {

/// `a` comes no later than `b` in the order of `(priority, key)` pairs: by
/// priority first, then by key.
pub open spec fn precedes(a: (u64, u128), b: (u64, u128)) -> bool {
    a.0 < b.0 || (a.0 == b.0 && a.1 <= b.1)
}

/// `x` is in `s` and comes no later than any element of `s`.
pub open spec fn is_least(x: (u64, u128), s: Set<(u64, u128)>) -> bool {
    &&& s.contains(x)
    &&& forall|y: (u64, u128)| #[trigger] s.contains(y) ==> precedes(x, y)
}

/// The least element of `s`.
pub open spec fn least(s: Set<(u64, u128)>) -> (u64, u128) {
    choose|x: (u64, u128)| is_least(x, s)
}

/// A finite set that is not empty has a least element.
pub proof fn lemma_least_exists(s: Set<(u64, u128)>)
    requires
        s.finite(),
        s.len() > 0,
    ensures
        is_least(least(s), s),
    decreases s.len(),
{
    let a = s.choose();
    let rest = s.remove(a);
    if rest.len() == 0 {
        assert forall|y: (u64, u128)| #[trigger] s.contains(y) implies precedes(a, y) by {
            if y != a {
                assert(rest.contains(y));
            }
        }
        assert(is_least(a, s));
    } else {
        lemma_least_exists(rest);
        let b = least(rest);
        if precedes(a, b) {
            assert forall|y: (u64, u128)| #[trigger] s.contains(y) implies precedes(a, y) by {
                if y != a {
                    assert(rest.contains(y));
                }
            }
            assert(is_least(a, s));
        } else {
            assert forall|y: (u64, u128)| #[trigger] s.contains(y) implies precedes(b, y) by {
                if y != a {
                    assert(rest.contains(y));
                }
            }
            assert(is_least(b, s));
        }
    }
}

/// Two least elements of a set are the same.
pub proof fn lemma_least_unique(x: (u64, u128), s: Set<(u64, u128)>)
    requires
        is_least(x, s),
    ensures
        least(s) == x,
{
    assert(is_least(least(s), s));
}

/// Every key that has a value has a ranking.
pub open spec fn keys_ranked<V>(s: Set<(u64, u128)>, m: Map<u128, V>) -> bool {
    forall|k: u128| #[trigger] m.contains_key(k) ==> exists|p: u64| #[trigger] s.contains((p, k))
}

/// What is left of the rankings `s` and the values `m` once the lowest ranked
/// entries have been dropped, one by one, until fewer than `capacity` values
/// are left or no ranking is.
pub open spec fn evicted<V>(s: Set<(u64, u128)>, m: Map<u128, V>, capacity: nat) -> (Set<
    (u64, u128),
>, Map<u128, V>)
    decreases s.len(),
    when s.finite()
{
    if m.len() >= capacity && s.len() > 0 {
        proof {
            lemma_least_exists(s);
        }
        let x = least(s);
        evicted(s.remove(x), m.remove(x.1), capacity)
    } else {
        (s, m)
    }
}

/// The rankings and values after `key` is put with `value` and `priority`:
/// the lowest ranked entries are dropped first; where no room could be made,
/// nothing is put.
pub open spec fn after_put<V>(
    s: Set<(u64, u128)>,
    m: Map<u128, V>,
    capacity: nat,
    key: u128,
    value: V,
    priority: u64,
) -> (Set<(u64, u128)>, Map<u128, V>) {
    let (s1, m1) = evicted(s, m, capacity);
    if m1.len() >= capacity {
        (s1, m1)
    } else {
        (s1.insert((priority, key)), m1.insert(key, value))
    }
}

/// Dropping entries keeps every remaining key ranked, and ends with fewer
/// than `capacity` values or with no ranking and no value.
proof fn lemma_evicted<V>(s: Set<(u64, u128)>, m: Map<u128, V>, capacity: nat)
    requires
        s.finite(),
        m.dom().finite(),
        keys_ranked(s, m),
    ensures
        evicted(s, m, capacity).0.finite(),
        evicted(s, m, capacity).1.dom().finite(),
        keys_ranked(evicted(s, m, capacity).0, evicted(s, m, capacity).1),
        evicted(s, m, capacity).1.len() < capacity || (evicted(s, m, capacity).0.len() == 0
            && evicted(s, m, capacity).1.len() == 0),
    decreases s.len(),
{
    if m.len() >= capacity && s.len() > 0 {
        lemma_least_exists(s);
        let x = least(s);
        let s2 = s.remove(x);
        let m2 = m.remove(x.1);
        assert forall|k: u128| #[trigger] m2.contains_key(k) implies exists|p: u64|
            #[trigger] s2.contains((p, k)) by {
            let p = choose|p: u64| #[trigger] s.contains((p, k));
            assert(s2.contains((p, k)));
        }
        lemma_evicted(s2, m2, capacity);
    } else if s.len() == 0 {
        assert(m.len() == 0) by {
            if m.len() > 0 {
                let k = m.dom().choose();
                assert(m.contains_key(k));
                let p = choose|p: u64| #[trigger] s.contains((p, k));
                assert(s.contains((p, k)));
            }
        }
    }
}

/// Dropping entries keeps the values of the keys that stay.
proof fn lemma_evicted_entries<V>(s: Set<(u64, u128)>, m: Map<u128, V>, capacity: nat)
    requires
        s.finite(),
    ensures
        forall|k: u128| #[trigger] evicted(s, m, capacity).1.contains_key(k) ==> m.contains_key(k)
            && evicted(s, m, capacity).1[k] == m[k],
    decreases s.len(),
{
    if m.len() >= capacity && s.len() > 0 {
        lemma_least_exists(s);
        let x = least(s);
        let m2 = m.remove(x.1);
        lemma_evicted_entries(s.remove(x), m2, capacity);
        assert(evicted(s, m, capacity) == evicted(s.remove(x), m2, capacity));
        assert forall|k: u128| #[trigger] evicted(s, m, capacity).1.contains_key(k) implies m.contains_key(k)
            && evicted(s, m, capacity).1[k] == m[k] by {
            assert(m2.contains_key(k));
            assert(m2[k] == m[k]);
        }
    }
}

/// A cache holding at most `capacity` values (fewer once a key is ranked
/// twice), which drops its lowest ranked entries to make room.
pub struct PriorityCache<K, V, P> {
    priorities: BTreeSet<(P, K)>,
    values: HashMap<K, V>,
    capacity: usize,
}

impl<K, V, P> PriorityCache<K, V, P> {
    /// The `(priority, key)` rankings held.
    pub closed spec fn rankings(&self) -> Set<(P, K)> {
        self.priorities@
    }

    /// The values held, by key.
    pub closed spec fn contents(&self) -> Map<K, V> {
        self.values@
    }

    /// The number of values at which the cache starts to drop entries.
    pub closed spec fn capacity(&self) -> nat {
        self.capacity as nat
    }

    /// The rankings are finite and every key with a value is ranked.
    pub closed spec fn wf(&self) -> bool {
        &&& self.priorities@.finite()
        &&& forall|k: K| #[trigger] self.values@.contains_key(k) ==> exists|p: P|
            #[trigger] self.priorities@.contains((p, k))
    }

    /// An empty cache that holds fewer than `capacity` values before a put.
    pub fn new(capacity: usize) -> (r: Self)
        ensures
            r.wf(),
            r.rankings() == Set::<(P, K)>::empty(),
            r.contents() == Map::<K, V>::empty(),
            r.capacity() == capacity,
    {
        Self { priorities: BTreeSet::new(), values: HashMap::new(), capacity }
    }
}

/// `BTreeSet::pop_first`: removes the least element of the set and returns
/// it, or returns `None` when the set is empty. Tuples of integers are
/// ordered by their first field, then by their second.
#[verifier::external_body]
fn pop_lowest(set: &mut BTreeSet<(u64, u128)>) -> (r: Option<(u64, u128)>)
    ensures
        match r {
            Some(x) => is_least(x, old(set)@) && final(set)@ == old(set)@.remove(x),
            None => old(set)@.len() == 0 && final(set)@ == old(set)@,
        },
{
    set.pop_first()
}

impl<V> PriorityCache<u128, V, u64> {
    /// Puts `value` under `key` with `priority`. While the cache holds at
    /// least `capacity` values, the lowest ranked entry is dropped; if no
    /// ranking is left and there is still no room (a capacity of 0), nothing
    /// is put.
    pub fn put(&mut self, key: u128, value: V, priority: u64)
        requires
            old(self).wf(),
        ensures
            final(self).wf(),
            final(self).capacity() == old(self).capacity(),
            (final(self).rankings(), final(self).contents()) == after_put(
                old(self).rankings(),
                old(self).contents(),
                old(self).capacity(),
                key,
                value,
                priority,
            ),
    {
        let ghost cap = self.capacity as nat;
        let ghost target = evicted(self.priorities@, self.values@, cap);
        while self.values.len() >= self.capacity
            invariant
                self.wf(),
                self.capacity == cap,
                cap == old(self).capacity as nat,
                old(self).wf(),
                evicted(self.priorities@, self.values@, cap) == target,
                target == evicted(old(self).priorities@, old(self).values@, cap),
            decreases self.priorities@.len(),
        {
            let ghost s = self.priorities@;
            let ghost m = self.values@;
            match pop_lowest(&mut self.priorities) {
                Some(x) => {
                    proof {
                        lemma_least_unique(x, s);
                    }
                    self.values.remove(&x.1);
                    proof {
                        assert forall|k: u128| #[trigger] self.values@.contains_key(k) implies exists|
                            p: u64,
                        | #[trigger] self.priorities@.contains((p, k)) by {
                            assert(m.contains_key(k));
                            let p = choose|p: u64| #[trigger] s.contains((p, k));
                            assert(self.priorities@.contains((p, k)));
                        }
                    }
                },
                None => {
                    return ;
                },
            }
        }
        self.priorities.insert((priority, key));
        self.values.insert(key, value);
        proof {
            assert forall|k: u128| #[trigger] self.values@.contains_key(k) implies exists|p: u64|
                #[trigger] self.priorities@.contains((p, k)) by {
                if k == key {
                    assert(self.priorities@.contains((priority, key)));
                } else {
                    let p = choose|p: u64| #[trigger] target.0.contains((p, k));
                    assert(self.priorities@.contains((p, k)));
                }
            }
        }
    }

    /// The value held under `key`, if any.
    pub fn get(&self, key: &u128) -> (r: Option<&V>)
        ensures
            match r {
                Some(v) => self.contents().contains_key(*key) && *v == self.contents()[*key],
                None => !self.contents().contains_key(*key),
            },
    {
        self.values.get(key)
    }
}

/// A valid cache holds finitely many rankings and values, and every key that
/// has a value is ranked: the facts the laws about [`after_put`] start from.
pub proof fn lemma_wf_facts<V>(cache: PriorityCache<u128, V, u64>)
    requires
        cache.wf(),
    ensures
        cache.rankings().finite(),
        cache.contents().dom().finite(),
        keys_ranked(cache.rankings(), cache.contents()),
{
    assert(cache.contents().dom().finite());
}

/// With room for at least one value, a put is never lost: right after it the
/// key holds the value that was put, and the cache holds no more values than
/// its capacity.
pub proof fn lemma_put_then_get<V>(
    cache: PriorityCache<u128, V, u64>,
    key: u128,
    value: V,
    priority: u64,
)
    requires
        cache.wf(),
        cache.capacity() > 0,
    ensures
        after_put(cache.rankings(), cache.contents(), cache.capacity(), key, value, priority).1.contains_key(key),
        after_put(cache.rankings(), cache.contents(), cache.capacity(), key, value, priority).1[key] == value,
        after_put(cache.rankings(), cache.contents(), cache.capacity(), key, value, priority).1.len()
            <= cache.capacity(),
{
    let s = cache.rankings();
    let m = cache.contents();
    assert(m.dom().finite());
    lemma_evicted(s, m, cache.capacity());
}

/// A put alters no other value: after it, every other key either keeps the
/// value it had or is gone. With a capacity of 0 the cache holds nothing
/// after a put.
pub proof fn lemma_put_keeps_other_values<V>(
    cache: PriorityCache<u128, V, u64>,
    key: u128,
    value: V,
    priority: u64,
)
    requires
        cache.wf(),
    ensures
        forall|k: u128|
            k != key && #[trigger] after_put(
                cache.rankings(),
                cache.contents(),
                cache.capacity(),
                key,
                value,
                priority,
            ).1.contains_key(k) ==> cache.contents().contains_key(k) && after_put(
                cache.rankings(),
                cache.contents(),
                cache.capacity(),
                key,
                value,
                priority,
            ).1[k] == cache.contents()[k],
        cache.capacity() == 0 ==> after_put(
            cache.rankings(),
            cache.contents(),
            cache.capacity(),
            key,
            value,
            priority,
        ).1.len() == 0,
{
    let s = cache.rankings();
    let m = cache.contents();
    assert(m.dom().finite());
    lemma_evicted(s, m, cache.capacity());
    lemma_evicted_entries(s, m, cache.capacity());
}

/// The rankings and values after the puts `puts`, each a key, a value and a
/// priority, made in order on rankings `s` and values `m`.
pub open spec fn after_puts<V>(
    s: Set<(u64, u128)>,
    m: Map<u128, V>,
    capacity: nat,
    puts: Seq<(u128, V, u64)>,
) -> (Set<(u64, u128)>, Map<u128, V>)
    decreases puts.len(),
{
    if puts.len() == 0 {
        (s, m)
    } else {
        let before = after_puts(s, m, capacity, puts.drop_last());
        let last = puts.last();
        after_put(before.0, before.1, capacity, last.0, last.1, last.2)
    }
}

/// The value of the last put under `key` among `puts`, if there is one.
pub open spec fn last_put<V>(puts: Seq<(u128, V, u64)>, key: u128) -> Option<V>
    decreases puts.len(),
{
    if puts.len() == 0 {
        None
    } else if puts.last().0 == key {
        Some(puts.last().1)
    } else {
        last_put(puts.drop_last(), key)
    }
}

/// Puts on an empty cache keep every key ranked.
proof fn lemma_after_puts_wf<V>(capacity: nat, puts: Seq<(u128, V, u64)>)
    ensures
        after_puts(Set::empty(), Map::empty(), capacity, puts).0.finite(),
        after_puts(Set::empty(), Map::empty(), capacity, puts).1.dom().finite(),
        keys_ranked(
            after_puts(Set::empty(), Map::empty(), capacity, puts).0,
            after_puts(Set::empty(), Map::empty(), capacity, puts).1,
        ),
    decreases puts.len(),
{
    if puts.len() > 0 {
        lemma_after_puts_wf(capacity, puts.drop_last());
        let before = after_puts(Set::<(u64, u128)>::empty(), Map::<u128, V>::empty(), capacity, puts.drop_last());
        let last = puts.last();
        lemma_evicted(before.0, before.1, capacity);
        let ev = evicted(before.0, before.1, capacity);
        let after = after_put(before.0, before.1, capacity, last.0, last.1, last.2);
        if ev.1.len() < capacity {
            assert forall|k: u128| #[trigger] after.1.contains_key(k) implies exists|p: u64|
                #[trigger] after.0.contains((p, k)) by {
                if k == last.0 {
                    assert(after.0.contains((last.2, last.0)));
                } else {
                    assert(ev.1.contains_key(k));
                    let p = choose|p: u64| #[trigger] ev.0.contains((p, k));
                    assert(after.0.contains((p, k)));
                }
            }
        }
    } else {
        assert(keys_ranked(Set::<(u64, u128)>::empty(), Map::<u128, V>::empty()));
    }
}

/// Whatever puts are made on a new cache, each key then holds nothing or the
/// value of its most recent put, never an older value or that of another key;
/// the cache holds no more values than its capacity; and with room for one
/// value, the key of the last put holds the value that was put.
pub proof fn lemma_puts_then_get<V>(capacity: nat, puts: Seq<(u128, V, u64)>)
    ensures
        forall|key: u128|
            #[trigger] after_puts(Set::empty(), Map::empty(), capacity, puts).1.contains_key(key)
                ==> last_put(puts, key) == Some(
                after_puts(Set::<(u64, u128)>::empty(), Map::<u128, V>::empty(), capacity, puts).1[key],
            ),
        after_puts(Set::<(u64, u128)>::empty(), Map::<u128, V>::empty(), capacity, puts).1.len() <= capacity,
        capacity > 0 && puts.len() > 0 ==> after_puts(
            Set::<(u64, u128)>::empty(),
            Map::<u128, V>::empty(),
            capacity,
            puts,
        ).1.contains_key(puts.last().0) && after_puts(
            Set::<(u64, u128)>::empty(),
            Map::<u128, V>::empty(),
            capacity,
            puts,
        ).1[puts.last().0] == puts.last().1,
    decreases puts.len(),
{
    if puts.len() > 0 {
        let prev = puts.drop_last();
        lemma_puts_then_get(capacity, prev);
        lemma_after_puts_wf(capacity, prev);
        let before = after_puts(Set::<(u64, u128)>::empty(), Map::<u128, V>::empty(), capacity, prev);
        let last = puts.last();
        lemma_evicted(before.0, before.1, capacity);
        lemma_evicted_entries(before.0, before.1, capacity);
        let ev = evicted(before.0, before.1, capacity);
        let after = after_puts(Set::<(u64, u128)>::empty(), Map::<u128, V>::empty(), capacity, puts);
        assert(after == after_put(before.0, before.1, capacity, last.0, last.1, last.2));
        assert(ev.1.dom().finite());
        assert forall|key: u128| #[trigger] after.1.contains_key(key) implies last_put(puts, key) == Some(
            after.1[key],
        ) by {
            if key != last.0 {
                assert(ev.1.contains_key(key));
                assert(before.1.contains_key(key));
                assert(last_put(prev, key) == Some(before.1[key]));
            } else if ev.1.len() >= capacity {
                assert(ev.1.len() == 0);
                assert(ev.1.contains_key(key));
            }
        }
    } else {
        assert(after_puts(Set::<(u64, u128)>::empty(), Map::<u128, V>::empty(), capacity, puts).1 =~= Map::<
            u128,
            V,
        >::empty());
    }
}

} // verus!

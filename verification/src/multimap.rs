//! Maps from keys to sets of keys.

use vstd::prelude::*;

use crate::order;
use crate::order::Key;
use crate::ordmap::OrdMap;
use crate::ordset;
use crate::ordset::{Duplicate, OrdSet};

verus! {

/// The set at a key; an absent key has none.
pub open spec fn at<K, V>(m: Map<K, Set<V>>, key: K) -> Set<V> {
    if m.contains_key(key) {
        m[key]
    } else {
        Set::empty()
    }
}

/// The map after `value` joins the set at `key`.
pub open spec fn joined<K, V>(m: Map<K, Set<V>>, key: K, value: V) -> Map<K, Set<V>> {
    m.insert(key, at(m, key).insert(value))
}

/// The map after `value` leaves the set at `key`; an emptied set leaves too.
pub open spec fn parted<K, V>(m: Map<K, Set<V>>, key: K, value: V) -> Map<K, Set<V>> {
    if !m.contains_key(key) {
        m
    } else if m[key].remove(value) == Set::<V>::empty() {
        m.remove(key)
    } else {
        m.insert(key, m[key].remove(value))
    }
}

/// The map after `value` joins the sets at all of `keys`.
pub open spec fn joined_all<K, V>(m: Map<K, Set<V>>, keys: Set<K>, value: V) -> Map<K, Set<V>> {
    Map::new(
        |k: K| m.contains_key(k) || keys.contains(k),
        |k: K|
            if keys.contains(k) {
                at(m, k).insert(value)
            } else {
                m[k]
            },
    )
}

/// The members of all the sets.
pub open spec fn members<K, V>(m: Map<K, Set<V>>) -> Set<V> {
    Set::new(|v: V| exists|k: K| m.contains_key(k) && #[trigger] m[k].contains(v))
}

/// Whether `value` is in the set at `key`.
pub fn lists<K: Key, V: Key>(map: &OrdMap<K, OrdSet<V>>, key: &K, value: &V) -> (r: bool)
    ensures
        r == at(map@, *key).contains(*value),
{
    match map.get(key) {
        Some(set) => set.contains(value),
        None => false,
    }
}

/// The set at `key`, in order.
pub fn list_at<K: Key, V: Key>(map: &OrdMap<K, OrdSet<V>>, key: &K) -> (r: Vec<V>)
    ensures
        r@ == order::ascending(at(map@, *key)),
        order::is_ascending(r@),
        r@.no_duplicates(),
        r@.to_set() == at(map@, *key),
        forall|v: V| #[trigger] r@.contains(v) <==> at(map@, *key).contains(v),
        at(map@, *key).finite(),
{
    match map.get(key) {
        Some(set) => set.to_vec(),
        None => {
            let none: OrdSet<V> = OrdSet::new();
            none.to_vec()
        },
    }
}

/// Puts `value` into the set at `key`.
pub fn join<K: Key, V: Key>(map: &mut OrdMap<K, OrdSet<V>>, key: K, value: V)
    ensures
        final(map)@ == joined(old(map)@, key, value),
{
    let mut set = match map.remove(&key) {
        Some(set) => set,
        None => OrdSet::new(),
    };
    set.insert(value);
    map.insert(key, set);
    assert(map@ =~= joined(old(map)@, key, value));
}

/// Takes `value` out of the set at `key`.
pub fn part<K: Key, V: Key>(map: &mut OrdMap<K, OrdSet<V>>, key: &K, value: &V)
    ensures
        final(map)@ == parted(old(map)@, *key, *value),
{
    if let Some(found) = map.remove(key) {
        let mut set = found;
        set.remove(value);
        if !set.is_empty() {
            map.insert(*key, set);
        }
        assert(map@ =~= parted(old(map)@, *key, *value));
    } else {
        assert(map@ =~= old(map)@);
    }
}

/// Puts `value` into the sets at all of `keys`.
pub fn join_all<K: Key, V: Key>(map: &mut OrdMap<K, OrdSet<V>>, keys: &Vec<K>, value: V)
    ensures
        final(map)@ == joined_all(old(map)@, keys@.to_set(), value),
{
    let n: usize = keys.len();
    let ghost start = map@;
    assert(keys@.take(0).to_set() =~= Set::<K>::empty());
    assert(map@ =~= joined_all(start, keys@.take(0).to_set(), value));
    for i in 0..n
        invariant
            n == keys@.len(),
            map@ == joined_all(start, keys@.take(i as int).to_set(), value),
    {
        join(map, keys[i], value);
        proof {
            ordset::lemma_take_set(keys@, i as int);
            assert(map@ =~~= joined_all(start, keys@.take(i + 1).to_set(), value));
        }
    }
    assert(keys@.take(n as int) =~= keys@);
}

/// Collects the members of all the sets.
pub fn collect<K: Key, V: Key>(map: &OrdMap<K, OrdSet<V>>) -> (r: OrdSet<V>)
    ensures
        r@ == members(map@),
{
    let keys = map.keys();
    let n: usize = keys.len();
    let mut all: OrdSet<V> = OrdSet::new();
    for i in 0..n
        invariant
            n == keys@.len(),
            forall|k: K| #[trigger] keys@.contains(k) <==> map@.contains_key(k),
            forall|v: V| #[trigger]
                all@.contains(v) <==> exists|j: int|
                    0 <= j < i && map@[#[trigger] keys@[j]].contains(v),
    {
        let ghost before = all@;
        assert(keys@.contains(keys@[i as int]));
        all.extend(map.value(&keys[i]));
        assert forall|v: V| #[trigger] all@.contains(v) <==> exists|j: int|
            0 <= j < i + 1 && map@[#[trigger] keys@[j]].contains(v) by {
            if before.contains(v) {
                let j = choose|j: int| 0 <= j < i && map@[#[trigger] keys@[j]].contains(v);
                assert(map@[keys@[j]].contains(v));
            }
            if map@[keys@[i as int]].contains(v) {
                assert(all@.contains(v));
            }
        }
    }
    assert forall|v: V| #[trigger] all@.contains(v) <==> members(map@).contains(v) by {
        if all@.contains(v) {
            let j = choose|j: int| 0 <= j < n && map@[#[trigger] keys@[j]].contains(v);
            assert(keys@.contains(keys@[j]));
            assert(map@[keys@[j]].contains(v));
        }
        if members(map@).contains(v) {
            let k = choose|k: K| map@.contains_key(k) && #[trigger] map@[k].contains(v);
            assert(keys@.contains(k));
            let j = choose|j: int| 0 <= j < keys@.len() && keys@[j] == k;
            assert(map@[keys@[j]].contains(v));
        }
    }
    assert(all@ =~= members(map@));
    all
}

/// Copies the entries of `from` over those of `to`.
pub fn overwrite<K: Key, V: Duplicate>(to: &mut OrdMap<K, V>, from: &OrdMap<K, V>)
    ensures
        final(to)@ == old(to)@.union_prefer_right(from@),
{
    let keys = from.keys();
    let n: usize = keys.len();
    let ghost start = to@;
    assert(keys@.take(0).to_set() =~= Set::<K>::empty());
    assert(to@ =~= start.union_prefer_right(from@.restrict(keys@.take(0).to_set())));
    for i in 0..n
        invariant
            n == keys@.len(),
            forall|k: K| #[trigger] keys@.contains(k) <==> from@.contains_key(k),
            to@ == start.union_prefer_right(from@.restrict(keys@.take(i as int).to_set())),
    {
        assert(keys@.contains(keys@[i as int]));
        let v = from.value(&keys[i]).duplicate();
        to.insert(keys[i], v);
        proof {
            ordset::lemma_take_set(keys@, i as int);
            assert(to@ =~= start.union_prefer_right(
                from@.restrict(keys@.take(i + 1).to_set()),
            ));
        }
    }
    proof {
        assert(keys@.take(n as int) =~= keys@);
        assert(from@.restrict(keys@.to_set()) =~= from@);
    }
}

/// Drops the entries whose key is not in `kept`.
pub fn keep_only<K: Key, V: View>(map: &mut OrdMap<K, V>, kept: &OrdSet<K>)
    ensures
        final(map)@ == old(map)@.restrict(kept@),
{
    let keys = map.keys();
    let n: usize = keys.len();
    let ghost start = map@;
    assert(keys@.take(0).to_set() =~= Set::<K>::empty());
    assert(map@ =~= start.remove_keys(keys@.take(0).to_set().difference(kept@)));
    for i in 0..n
        invariant
            n == keys@.len(),
            map@ == start.remove_keys(keys@.take(i as int).to_set().difference(kept@)),
    {
        proof {
            ordset::lemma_take_set(keys@, i as int);
        }
        if !kept.contains(&keys[i]) {
            map.remove(&keys[i]);
        }
        assert(map@ =~= start.remove_keys(keys@.take(i + 1).to_set().difference(kept@)));
    }
    proof {
        assert(keys@.take(n as int) =~= keys@);
        assert(map@ =~= start.restrict(kept@));
    }
}

} // verus!

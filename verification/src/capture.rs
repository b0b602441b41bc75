//! Sparse records of what a map held, from which it can be restored.

use vstd::prelude::*;

use crate::order::Key;
use crate::ordmap::OrdMap;
use crate::ordset;
use crate::ordset::{Duplicate, OrdSet};

verus! {

/// What a key held: a value, or nothing.
#[derive(Debug, PartialEq, Eq)]
pub struct Prior<V> {
    pub held: Option<V>,
}

impl<V: View> View for Prior<V> {
    type V = Option<V::V>;

    open spec fn view(&self) -> Option<V::V> {
        match self.held {
            Some(v) => Some(v@),
            None => None,
        }
    }
}

impl<V: Duplicate> Duplicate for Prior<V> {
    fn duplicate(&self) -> (r: Self) {
        match &self.held {
            Some(v) => Prior { held: Some(v.duplicate()) },
            None => Prior { held: None },
        }
    }
}

/// What `m` holds at `key`.
pub open spec fn held<K, V>(m: Map<K, V>, key: K) -> Option<V> {
    if m.contains_key(key) {
        Some(m[key])
    } else {
        None
    }
}

/// The record after what `m` holds at `key` is noted; what was noted first
/// stays.
pub open spec fn noted<K, V>(saved: Map<K, Option<V>>, m: Map<K, V>, key: K) -> Map<K, Option<V>> {
    if saved.contains_key(key) {
        saved
    } else {
        saved.insert(key, held(m, key))
    }
}

/// The record after what `m` holds at all of `keys` is noted.
pub open spec fn noted_all<K, V>(
    saved: Map<K, Option<V>>,
    m: Map<K, V>,
    keys: Set<K>,
) -> Map<K, Option<V>> {
    Map::new(
        |k: K| saved.contains_key(k) || keys.contains(k),
        |k: K|
            if saved.contains_key(k) {
                saved[k]
            } else {
                held(m, k)
            },
    )
}

/// The map with the recorded keys as recorded.
pub open spec fn restored<K, V>(m: Map<K, V>, saved: Map<K, Option<V>>) -> Map<K, V> {
    Map::new(
        |k: K|
            if saved.contains_key(k) {
                saved[k] is Some
            } else {
                m.contains_key(k)
            },
        |k: K|
            if saved.contains_key(k) {
                saved[k]->0
            } else {
                m[k]
            },
    )
}

/// Whether the record is true of `base`, and whatever it does not record is
/// in `m` as in `base`.
pub open spec fn covers<K, V>(saved: Map<K, Option<V>>, base: Map<K, V>, m: Map<K, V>) -> bool {
    &&& forall|k: K| #[trigger] saved.contains_key(k) ==> saved[k] == held(base, k)
    &&& forall|k: K| !#[trigger] saved.contains_key(k) ==> held(m, k) == held(base, k)
}

/// A record that covers the difference restores the base.
pub proof fn covered_map_is_restored<K, V>(
    saved: Map<K, Option<V>>,
    base: Map<K, V>,
    m: Map<K, V>,
)
    requires
        covers(saved, base, m),
    ensures
        restored(m, saved) == base,
{
    assert forall|k: K| restored(m, saved).contains_key(k) <==> #[trigger] base.contains_key(k) by {
        if saved.contains_key(k) {
            assert(saved[k] == held(base, k));
        } else {
            assert(held(m, k) == held(base, k));
        }
    }
    assert forall|k: K| #[trigger] base.contains_key(k) implies restored(m, saved)[k] == base[k] by {
        if saved.contains_key(k) {
            assert(saved[k] == held(base, k));
        } else {
            assert(held(m, k) == held(base, k));
        }
    }
    assert(restored(m, saved) =~= base);
}

/// Noting from the base keeps a record true, and covers at least as much.
pub proof fn noting_keeps_coverage<K, V>(
    saved: Map<K, Option<V>>,
    base: Map<K, V>,
    m: Map<K, V>,
    keys: Set<K>,
)
    requires
        covers(saved, base, m),
    ensures
        covers(noted_all(saved, m, keys), base, m),
{
    let more = noted_all(saved, m, keys);
    assert forall|k: K| #[trigger] more.contains_key(k) implies more[k] == held(base, k) by {
        if !saved.contains_key(k) {
            assert(held(m, k) == held(base, k));
        }
    }
    assert forall|k: K| !#[trigger] more.contains_key(k) implies held(m, k) == held(base, k) by {
        assert(!saved.contains_key(k));
    }
}

/// Notes what `map` holds at `key`, unless the key is on record.
pub fn note<K: Key, V: Duplicate>(
    saved: &mut OrdMap<K, Prior<V>>,
    map: &OrdMap<K, V>,
    key: &K,
)
    ensures
        final(saved)@ == noted(old(saved)@, map@, *key),
{
    if !saved.contains_key(key) {
        let prior = match map.get(key) {
            Some(v) => Prior { held: Some(v.duplicate()) },
            None => Prior { held: None },
        };
        saved.insert(*key, prior);
    }
}

/// Notes what `map` holds at all of `keys`.
pub fn note_all<K: Key, V: Duplicate>(
    saved: &mut OrdMap<K, Prior<V>>,
    map: &OrdMap<K, V>,
    keys: &Vec<K>,
)
    ensures
        final(saved)@ == noted_all(old(saved)@, map@, keys@.to_set()),
{
    let n: usize = keys.len();
    let ghost start = saved@;
    assert(keys@.take(0).to_set() =~= Set::<K>::empty());
    assert(saved@ =~= noted_all(start, map@, keys@.take(0).to_set()));
    for i in 0..n
        invariant
            n == keys@.len(),
            saved@ == noted_all(start, map@, keys@.take(i as int).to_set()),
    {
        note(saved, map, &keys[i]);
        proof {
            ordset::lemma_take_set(keys@, i as int);
            assert(saved@ =~= noted_all(start, map@, keys@.take(i + 1).to_set()));
        }
    }
    assert(keys@.take(n as int) =~= keys@);
}

/// Puts the recorded keys of `map` back to what is recorded.
pub fn put_back<K: Key, V: Duplicate>(map: &mut OrdMap<K, V>, saved: &OrdMap<K, Prior<V>>)
    ensures
        final(map)@ == restored(old(map)@, saved@),
{
    let keys = saved.keys();
    let n: usize = keys.len();
    let ghost start = map@;
    assert(keys@.take(0).to_set() =~= Set::<K>::empty());
    assert(map@ =~= restored(start, saved@.restrict(keys@.take(0).to_set())));
    for i in 0..n
        invariant
            n == keys@.len(),
            forall|k: K| #[trigger] keys@.contains(k) <==> saved@.contains_key(k),
            map@ == restored(start, saved@.restrict(keys@.take(i as int).to_set())),
    {
        assert(keys@.contains(keys@[i as int]));
        match &saved.value(&keys[i]).held {
            Some(v) => {
                map.insert(keys[i], v.duplicate());
            },
            None => {
                map.remove(&keys[i]);
            },
        }
        proof {
            ordset::lemma_take_set(keys@, i as int);
            assert(map@ =~= restored(start, saved@.restrict(keys@.take(i + 1).to_set())));
        }
    }
    proof {
        assert(keys@.take(n as int) =~= keys@);
        assert(saved@.restrict(keys@.to_set()) =~= saved@);
    }
}

/// What a map holds at each of `keys`.
pub open spec fn sampled<K, V>(m: Map<K, V>, keys: Set<K>) -> Map<K, Option<V>> {
    Map::new(|k: K| keys.contains(k), |k: K| held(m, k))
}

/// Records what `map` holds at each of `keys`.
pub fn sample<K: Key, V: Duplicate>(map: &OrdMap<K, V>, keys: &OrdSet<K>) -> (r: OrdMap<
    K,
    Prior<V>,
>)
    ensures
        r@ == sampled(map@, keys@),
{
    let mut r: OrdMap<K, Prior<V>> = OrdMap::new();
    let list = keys.to_vec();
    note_all(&mut r, map, &list);
    assert(r@ =~= sampled(map@, keys@));
    r
}

/// Records what `from` records, where nothing is on record yet.
pub fn adopt<K: Key, V: Duplicate>(saved: &mut OrdMap<K, Prior<V>>, from: &OrdMap<K, Prior<V>>)
    ensures
        final(saved)@ == from@.union_prefer_right(old(saved)@),
{
    let keys = from.keys();
    let n: usize = keys.len();
    let ghost start = saved@;
    assert(keys@.take(0).to_set() =~= Set::<K>::empty());
    assert(saved@ =~= from@.restrict(keys@.take(0).to_set()).union_prefer_right(start));
    for i in 0..n
        invariant
            n == keys@.len(),
            forall|k: K| #[trigger] keys@.contains(k) <==> from@.contains_key(k),
            saved@ == from@.restrict(keys@.take(i as int).to_set()).union_prefer_right(start),
    {
        assert(keys@.contains(keys@[i as int]));
        if !saved.contains_key(&keys[i]) {
            saved.insert(keys[i], from.value(&keys[i]).duplicate());
        }
        proof {
            ordset::lemma_take_set(keys@, i as int);
            assert(saved@ =~= from@.restrict(keys@.take(i + 1).to_set()).union_prefer_right(
                start,
            ));
        }
    }
    proof {
        assert(keys@.take(n as int) =~= keys@);
        assert(from@.restrict(keys@.to_set()) =~= from@);
    }
}

} // verus!

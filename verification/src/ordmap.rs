//! Maps that list their keys in ascending order.

use vstd::prelude::*;

use crate::order;
use crate::order::Key;
use crate::ordset;
use crate::ordset::{copy_keys, locate, Duplicate};

verus! {

/// A finite map whose keys are kept in ascending order.
#[derive(Debug, PartialEq, Eq)]
#[verifier::reject_recursive_types(K)]
pub struct OrdMap<K: Key, V: View> {
    keys: Vec<K>,
    vals: Vec<V>,
}

impl<K: Key, V: View> View for OrdMap<K, V> {
    type V = Map<K, V::V>;

    closed spec fn view(&self) -> Map<K, V::V> {
        table(self.keys@, self.vals@)
    }
}

/// The map from each key to the view of the value in its place.
spec fn table<K: Key, V: View>(keys: Seq<K>, vals: Seq<V>) -> Map<K, V::V> {
    Map::new(|k: K| keys.contains(k), |k: K| vals[keys.index_of(k)]@)
}

proof fn lemma_table_at<K: Key, V: View>(keys: Seq<K>, vals: Seq<V>, i: int)
    requires
        order::is_ascending(keys),
        keys.len() == vals.len(),
        0 <= i < keys.len(),
    ensures
        table(keys, vals).contains_key(keys[i]),
        table(keys, vals)[keys[i]] == vals[i]@,
{
    order::lemma_ascending_distinct(keys);
    assert(keys.contains(keys[i]));
    assert(keys.index_of(keys[i]) == i);
}

/// A table is fixed by what stands at each place.
proof fn lemma_table_is<K: Key, V: View>(keys: Seq<K>, vals: Seq<V>, m: Map<K, V::V>)
    requires
        order::is_ascending(keys),
        keys.len() == vals.len(),
        keys.to_set() == m.dom(),
        forall|i: int| 0 <= i < keys.len() ==> m[#[trigger] keys[i]] == vals[i]@,
    ensures
        table(keys, vals) == m,
{
    let t = table(keys, vals);
    assert(t.dom() =~= m.dom()) by {
        assert forall|k: K| t.dom().contains(k) <==> #[trigger] m.dom().contains(k) by {
            assert(keys.to_set().contains(k) <==> keys.contains(k));
        }
    }
    assert forall|k: K| #[trigger] m.dom().contains(k) implies t[k] == m[k] by {
        assert(keys.to_set().contains(k));
        let i = choose|i: int| 0 <= i < keys.len() && keys[i] == k;
        lemma_table_at(keys, vals, i);
        assert(m[keys[i]] == vals[i]@);
    }
    assert(t =~= m);
}

impl<K: Key, V: View> OrdMap<K, V> {
    #[verifier::type_invariant]
    closed spec fn listed_in_order(self) -> bool {
        order::is_ascending(self.keys@) && self.keys@.len() == self.vals@.len()
    }

    pub fn new() -> (r: Self)
        ensures
            r@ == Map::<K, V::V>::empty(),
    {
        let keys: Vec<K> = Vec::new();
        let vals: Vec<V> = Vec::new();
        assert(table(keys@, vals@) =~= Map::<K, V::V>::empty());
        OrdMap { keys, vals }
    }

    pub fn len(&self) -> (n: usize)
        ensures
            self@.dom().finite(),
            n == self@.dom().len(),
            n == self@.len(),
    {
        proof {
            use_type_invariant(self);
            order::lemma_ascending_distinct(self.keys@);
            self.keys@.unique_seq_to_set();
            assert(self@.dom() =~= self.keys@.to_set());
        }
        self.keys.len()
    }

    pub fn is_empty(&self) -> (r: bool)
        ensures
            r <==> self@.dom() == Set::<K>::empty(),
            r <==> self@ == Map::<K, V::V>::empty(),
    {
        proof {
            use_type_invariant(self);
            if self.keys@.len() > 0 {
                assert(self.keys@.contains(self.keys@[0]));
                assert(self@.dom().contains(self.keys@[0]));
            } else {
                assert(self@.dom() =~= Set::<K>::empty());
                assert(self@ =~= Map::<K, V::V>::empty());
            }
        }
        self.keys.len() == 0
    }

    pub fn contains_key(&self, key: &K) -> (r: bool)
        ensures
            r == self@.contains_key(*key),
    {
        proof {
            use_type_invariant(self);
        }
        locate(&self.keys, key).0
    }

    pub fn get(&self, key: &K) -> (r: Option<&V>)
        ensures
            match r {
                Some(v) => self@.contains_key(*key) && v@ == self@[*key],
                None => !self@.contains_key(*key),
            },
    {
        proof {
            use_type_invariant(self);
        }
        let found = locate(&self.keys, key);
        if found.0 {
            proof {
                lemma_table_at(self.keys@, self.vals@, found.1 as int);
            }
            Some(&self.vals[found.1])
        } else {
            None
        }
    }

    /// The value under a key that is there.
    pub fn value(&self, key: &K) -> (v: &V)
        requires
            self@.contains_key(*key),
        ensures
            v@ == self@[*key],
    {
        proof {
            use_type_invariant(self);
        }
        let found = locate(&self.keys, key);
        proof {
            lemma_table_at(self.keys@, self.vals@, found.1 as int);
        }
        &self.vals[found.1]
    }

    /// The keys in ascending order.
    pub fn keys(&self) -> (r: Vec<K>)
        ensures
            r@ == order::ascending(self@.dom()),
            order::is_ascending(r@),
            r@.no_duplicates(),
            r@.to_set() == self@.dom(),
            forall|k: K| #[trigger] r@.contains(k) <==> self@.contains_key(k),
            self@.dom().finite(),
            r@.len() == self@.dom().len(),
    {
        proof {
            use_type_invariant(self);
            order::lemma_ascending_of(self.keys@);
            order::lemma_ascending_distinct(self.keys@);
            self.keys@.unique_seq_to_set();
            assert(self@.dom() =~= self.keys@.to_set());
        }
        copy_keys(&self.keys)
    }

    /// Binds `key` to `val`; the result is what it was bound to before.
    pub fn insert(&mut self, key: K, val: V) -> (prior: Option<V>)
        ensures
            final(self)@ == old(self)@.insert(key, val@),
            match prior {
                Some(v) => old(self)@.contains_key(key) && v@ == old(self)@[key],
                None => !old(self)@.contains_key(key),
            },
    {
        proof {
            use_type_invariant(&*self);
        }
        let ghost keys0 = self.keys@;
        let ghost vals0 = self.vals@;
        let ghost map0 = self@;
        let found = locate(&self.keys, &key);
        let at: usize = found.1;
        let mut whole = OrdMap::new();
        std::mem::swap(self, &mut whole);
        let OrdMap { mut keys, mut vals } = whole;
        assert(map0.dom() =~= keys0.to_set());
        let prior: Option<V>;
        if found.0 {
            proof {
                lemma_table_at(keys0, vals0, at as int);
            }
            vals.push(val);
            let was: V = vals.swap_remove(at);
            assert(vals@ =~= vals0.update(at as int, val));
            prior = Some(was);
            proof {
                assert(map0.insert(key, val@).dom() =~= map0.dom());
                order::lemma_ascending_distinct(keys0);
                assert forall|i: int| 0 <= i < keys@.len() implies map0.insert(key, val@)[
                #[trigger] keys@[i]] == vals@[i]@ by {
                    lemma_table_at(keys0, vals0, i);
                }
                lemma_table_is(keys@, vals@, map0.insert(key, val@));
            }
        } else {
            keys.insert(at, key);
            vals.insert(at, val);
            prior = None;
            proof {
                ordset::lemma_insert_ascending(keys0, at as int, key);
                assert(map0.insert(key, val@).dom() =~= keys0.to_set().insert(key));
                assert forall|i: int| 0 <= i < keys@.len() implies map0.insert(key, val@)[
                #[trigger] keys@[i]] == vals@[i]@ by {
                    if i < at {
                        lemma_table_at(keys0, vals0, i);
                        assert(keys0.contains(keys0[i]));
                    } else if i > at {
                        lemma_table_at(keys0, vals0, i - 1);
                        assert(keys0.contains(keys0[i - 1]));
                    }
                }
                lemma_table_is(keys@, vals@, map0.insert(key, val@));
            }
        }
        *self = OrdMap { keys, vals };
        prior
    }

    /// Takes the binding of `key` out.
    pub fn remove(&mut self, key: &K) -> (prior: Option<V>)
        ensures
            final(self)@ == old(self)@.remove(*key),
            match prior {
                Some(v) => old(self)@.contains_key(*key) && v@ == old(self)@[*key],
                None => !old(self)@.contains_key(*key),
            },
    {
        proof {
            use_type_invariant(&*self);
        }
        let ghost keys0 = self.keys@;
        let ghost vals0 = self.vals@;
        let ghost map0 = self@;
        let found = locate(&self.keys, key);
        let at: usize = found.1;
        if !found.0 {
            assert(map0.remove(*key) =~= map0);
            return None;
        }
        let mut whole = OrdMap::new();
        std::mem::swap(self, &mut whole);
        let OrdMap { mut keys, mut vals } = whole;
        assert(map0.dom() =~= keys0.to_set());
        let _ = keys.remove(at);
        let was: V = vals.remove(at);
        proof {
            lemma_table_at(keys0, vals0, at as int);
            order::lemma_ascending_distinct(keys0);
            ordset::lemma_remove_ascending(keys0, at as int);
            assert(map0.remove(*key).dom() =~= keys0.to_set().remove(*key));
            assert forall|i: int| 0 <= i < keys@.len() implies map0.remove(*key)[
            #[trigger] keys@[i]] == vals@[i]@ by {
                let j = if i < at { i } else { i + 1 };
                lemma_table_at(keys0, vals0, j);
                assert(keys@[i] == keys0[j]);
            }
            lemma_table_is(keys@, vals@, map0.remove(*key));
        }
        *self = OrdMap { keys, vals };
        Some(was)
    }
}

impl<K: Key, V: Duplicate> Duplicate for OrdMap<K, V> {
    fn duplicate(&self) -> (r: Self) {
        let mut r: OrdMap<K, V> = OrdMap::new();
        let ks = self.keys();
        let n: usize = ks.len();
        assert(ks@.take(0).to_set() =~= Set::<K>::empty());
        assert(self@.restrict(Set::<K>::empty()) =~= Map::<K, V::V>::empty());
        for i in 0..n
            invariant
                n == ks@.len(),
                forall|k: K| #[trigger] ks@.contains(k) <==> self@.contains_key(k),
                r@ == self@.restrict(ks@.take(i as int).to_set()),
        {
            assert(ks@.contains(ks@[i as int]));
            let v = self.value(&ks[i]);
            r.insert(ks[i], v.duplicate());
            proof {
                ordset::lemma_take_set(ks@, i as int);
                assert(r@ =~= self@.restrict(ks@.take(i + 1).to_set()));
            }
        }
        proof {
            assert(ks@.take(n as int) =~= ks@);
            assert(self@.restrict(ks@.to_set()) =~= self@);
        }
        r
    }
}

} // verus!

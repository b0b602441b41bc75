//! Maps and sets as lists, and back.

use vstd::prelude::*;

use crate::order;
use crate::order::Key;
use crate::ordmap::OrdMap;
use crate::ordset;
use crate::ordset::{Duplicate, OrdSet};

verus! {

/// The entries of a map, in the order of their keys.
pub open spec fn entries<K: Key, V>(m: Map<K, V>) -> Seq<(K, V)> {
    order::ascending(m.dom()).map_values(|k: K| (k, m[k]))
}

/// The keys of a list of entries.
pub open spec fn keys_of<K, V>(list: Seq<(K, V)>) -> Seq<K> {
    list.map_values(|p: (K, V)| p.0)
}

/// The map that a list of entries makes.
pub open spec fn table_of<K, V>(list: Seq<(K, V)>) -> Map<K, V> {
    Map::new(
        |k: K| keys_of(list).contains(k),
        |k: K| list[keys_of(list).index_of(k)].1,
    )
}

/// The entries of a map to sets, each set in order.
pub open spec fn lists_of<K: Key, V: Key>(m: Map<K, Set<V>>) -> Seq<(K, Seq<V>)> {
    order::ascending(m.dom()).map_values(|k: K| (k, order::ascending(m[k])))
}

/// The map to sets that a list of entries makes.
pub open spec fn sets_of<K, V>(list: Seq<(K, Seq<V>)>) -> Map<K, Set<V>> {
    Map::new(
        |k: K| keys_of(list).contains(k),
        |k: K| list[keys_of(list).index_of(k)].1.to_set(),
    )
}

/// Whether no list of the entries names anything twice.
pub open spec fn lists_are_unique<K, V>(list: Seq<(K, Seq<V>)>) -> bool {
    forall|i: int| 0 <= i < list.len() ==> (#[trigger] list[i]).1.no_duplicates()
}

/// The entries with the values' views.
pub open spec fn pair_view<K, V: View>(list: Seq<(K, V)>) -> Seq<(K, V::V)> {
    list.map_values(|p: (K, V)| (p.0, p.1@))
}

/// What stands at a place of a list of entries with distinct keys.
pub proof fn lemma_table_at<K, V>(list: Seq<(K, V)>, i: int)
    requires
        keys_of(list).no_duplicates(),
        0 <= i < list.len(),
    ensures
        table_of(list).contains_key(list[i].0),
        table_of(list)[list[i].0] == list[i].1,
        keys_of(list).index_of(list[i].0) == i,
{
    let keys = keys_of(list);
    assert(keys[i] == list[i].0);
    assert(keys.contains(list[i].0));
}

/// The entries of a map make it up again.
pub proof fn entries_make_the_map<K: Key, V>(m: Map<K, V>)
    requires
        m.dom().finite(),
    ensures
        keys_of(entries(m)).no_duplicates(),
        table_of(entries(m)) == m,
{
    ordset::lemma_listing(m.dom());
    let keys = order::ascending(m.dom());
    let list = entries(m);
    assert(keys_of(list) =~= keys);
    assert forall|k: K| #[trigger] table_of(list).contains_key(k) <==> m.contains_key(k) by {
        assert(keys.to_set().contains(k) <==> keys.contains(k));
    }
    assert forall|k: K| #[trigger] m.contains_key(k) implies table_of(list)[k] == m[k] by {
        assert(keys.to_set().contains(k));
        let i = keys.index_of(k);
        assert(keys[i] == k);
    }
    assert(table_of(list) =~= m);
}

/// The entries of a map to sets make it up again.
pub proof fn lists_make_the_sets<K: Key, V: Key>(m: Map<K, Set<V>>)
    requires
        m.dom().finite(),
        forall|k: K| #[trigger] m.contains_key(k) ==> m[k].finite(),
    ensures
        keys_of(lists_of(m)).no_duplicates(),
        lists_are_unique(lists_of(m)),
        sets_of(lists_of(m)) == m,
{
    ordset::lemma_listing(m.dom());
    let keys = order::ascending(m.dom());
    let list = lists_of(m);
    assert(keys_of(list) =~= keys);
    assert forall|i: int| 0 <= i < list.len() implies (#[trigger] list[i]).1.no_duplicates() by {
        assert(keys.contains(keys[i]));
        assert(keys.to_set().contains(keys[i]));
        assert(m.contains_key(keys[i]));
        ordset::lemma_listing(m[keys[i]]);
    }
    assert forall|k: K| #[trigger] sets_of(list).contains_key(k) <==> m.contains_key(k) by {
        assert(keys.to_set().contains(k) <==> keys.contains(k));
    }
    assert forall|k: K| #[trigger] m.contains_key(k) implies sets_of(list)[k] == m[k] by {
        assert(keys.to_set().contains(k));
        let i = keys.index_of(k);
        assert(keys[i] == k);
        ordset::lemma_listing(m[k]);
    }
    assert(sets_of(list) =~= m);
}

/// Lists the entries of a map.
pub fn list_map<K: Key, V: Duplicate>(map: &OrdMap<K, V>) -> (r: Vec<(K, V)>)
    ensures
        pair_view(r@) == entries(map@),
{
    let keys = map.keys();
    let n: usize = keys.len();
    let mut r: Vec<(K, V)> = Vec::new();
    for i in 0..n
        invariant
            n == keys@.len(),
            forall|k: K| #[trigger] keys@.contains(k) <==> map@.contains_key(k),
            r@.len() == i,
            forall|j: int|
                0 <= j < i ==> (#[trigger] r@[j]).0 == keys@[j] && r@[j].1@ == map@[keys@[j]],
    {
        assert(keys@.contains(keys@[i as int]));
        r.push((keys[i], map.value(&keys[i]).duplicate()));
    }
    assert(pair_view(r@) =~= entries(map@));
    r
}

/// Lists the entries of a map to sets.
pub fn list_sets<K: Key, V: Key>(map: &OrdMap<K, OrdSet<V>>) -> (r: Vec<(K, Vec<V>)>)
    ensures
        pair_view(r@) == lists_of(map@),
{
    let keys = map.keys();
    let n: usize = keys.len();
    let mut r: Vec<(K, Vec<V>)> = Vec::new();
    for i in 0..n
        invariant
            n == keys@.len(),
            forall|k: K| #[trigger] keys@.contains(k) <==> map@.contains_key(k),
            r@.len() == i,
            forall|j: int|
                0 <= j < i ==> (#[trigger] r@[j]).0 == keys@[j] && r@[j].1@ == order::ascending(
                    map@[keys@[j]],
                ),
    {
        assert(keys@.contains(keys@[i as int]));
        r.push((keys[i], map.value(&keys[i]).to_vec()));
    }
    assert(pair_view(r@) =~= lists_of(map@));
    r
}

/// The set of a list that names nothing twice.
pub fn read_set<T: Key>(list: &Vec<T>) -> (r: Option<OrdSet<T>>)
    ensures
        match r {
            Some(set) => list@.no_duplicates() && set@ == list@.to_set(),
            None => !list@.no_duplicates(),
        },
{
    let n: usize = list.len();
    let mut set: OrdSet<T> = OrdSet::new();
    assert(list@.take(0).to_set() =~= Set::<T>::empty());
    for i in 0..n
        invariant
            n == list@.len(),
            set@ == list@.take(i as int).to_set(),
            list@.take(i as int).no_duplicates(),
    {
        proof {
            ordset::lemma_take_set(list@, i as int);
        }
        if set.contains(&list[i]) {
            proof {
                let small = list@.take(i as int);
                assert(small.contains(list@[i as int]));
                let j = choose|j: int| 0 <= j < small.len() && small[j] == list@[i as int];
                assert(list@[j] == list@[i as int]);
            }
            return None;
        }
        proof {
            let small = list@.take(i as int);
            let big = list@.take(i + 1);
            assert forall|a: int, b: int|
                0 <= a < big.len() && 0 <= b < big.len() && a != b implies big[a] != big[b] by {
                if a == i {
                    assert(small[b] == big[b]);
                    assert(small.contains(small[b]));
                } else if b == i {
                    assert(small[a] == big[a]);
                    assert(small.contains(small[a]));
                } else {
                    assert(small[a] != small[b]);
                }
            }
        }
        set.insert(list[i]);
    }
    assert(list@.take(n as int) =~= list@);
    Some(set)
}

/// The map of a list of entries with distinct keys.
pub fn read_map<K: Key, V: Duplicate>(list: &Vec<(K, V)>) -> (r: Option<OrdMap<K, V>>)
    ensures
        match r {
            Some(m) => keys_of(pair_view(list@)).no_duplicates() && m@ == table_of(
                pair_view(list@),
            ),
            None => !keys_of(pair_view(list@)).no_duplicates(),
        },
{
    let n: usize = list.len();
    let ghost views = pair_view(list@);
    let ghost keys = keys_of(views);
    let mut map: OrdMap<K, V> = OrdMap::new();
    assert(views.take(0) =~= Seq::empty());
    assert(map@ =~= table_of(views.take(0)));
    for i in 0..n
        invariant
            n == list@.len(),
            views == pair_view(list@),
            keys == keys_of(views),
            map@ == table_of(views.take(i as int)),
            keys_of(views.take(i as int)).no_duplicates(),
    {
        let ghost small = views.take(i as int);
        let ghost big = views.take(i + 1);
        let ghost key = keys[i as int];
        assert(views[i as int] == (list@[i as int].0, list@[i as int].1@));
        assert(keys_of(small) =~= keys.take(i as int));
        assert(keys_of(big) =~= keys.take(i + 1));
        if map.contains_key(&list[i].0) {
            proof {
                assert(keys_of(small).contains(key));
                let j = choose|j: int| 0 <= j < small.len() && keys_of(small)[j] == key;
                assert(keys[j] == keys[i as int]);
            }
            return None;
        }
        proof {
            assert forall|a: int, b: int|
                0 <= a < big.len() && 0 <= b < big.len() && a != b implies keys_of(big)[a]
                != keys_of(big)[b] by {
                if a == i {
                    assert(keys_of(small)[b] == keys_of(big)[b]);
                    assert(keys_of(small).contains(keys_of(small)[b]));
                } else if b == i {
                    assert(keys_of(small)[a] == keys_of(big)[a]);
                    assert(keys_of(small).contains(keys_of(small)[a]));
                } else {
                    assert(keys_of(small)[a] != keys_of(small)[b]);
                }
            }
            assert(small =~= big.take(i as int));
            lemma_table_push(small, big, i as int);
        }
        map.insert(list[i].0, list[i].1.duplicate());
    }
    assert(views.take(n as int) =~= views);
    Some(map)
}

/// One more entry with a new key.
proof fn lemma_table_push<K, V>(small: Seq<(K, V)>, big: Seq<(K, V)>, i: int)
    requires
        big.len() == i + 1,
        small == big.take(i),
        i >= 0,
        keys_of(big).no_duplicates(),
    ensures
        table_of(big) == table_of(small).insert(big[i].0, big[i].1),
{
    let ks = keys_of(small);
    let kb = keys_of(big);
    assert(ks =~= kb.take(i));
    assert forall|a: int, b: int| 0 <= a < ks.len() && 0 <= b < ks.len() && a != b implies ks[a]
        != ks[b] by {
        assert(kb[a] != kb[b]);
    }
    let want = table_of(small).insert(big[i].0, big[i].1);
    assert forall|k: K| #[trigger] table_of(big).contains_key(k) <==> want.contains_key(k) by {
        if kb.contains(k) {
            let j = choose|j: int| 0 <= j < kb.len() && kb[j] == k;
            if j < i {
                assert(ks[j] == k);
            }
        }
        if ks.contains(k) {
            let j = choose|j: int| 0 <= j < ks.len() && ks[j] == k;
            assert(kb[j] == k);
        }
        if k == big[i].0 {
            assert(kb[i] == k);
        }
    }
    assert forall|k: K| #[trigger] table_of(big).contains_key(k) implies table_of(big)[k]
        == want[k] by {
        let j = choose|j: int| 0 <= j < kb.len() && kb[j] == k;
        assert(kb[j] == big[j].0);
        assert(kb[i] == big[i].0);
        lemma_table_at(big, j);
        if j < i {
            assert(small[j] == big[j]);
            lemma_table_at(small, j);
        }
    }
    assert(table_of(big) =~= want);
}

/// The map to sets of a list of entries with distinct keys, no set of which
/// names anything twice.
pub fn read_sets<K: Key, V: Key>(list: &Vec<(K, Vec<V>)>) -> (r: Option<OrdMap<K, OrdSet<V>>>)
    ensures
        match r {
            Some(m) => keys_of(pair_view(list@)).no_duplicates() && lists_are_unique(
                pair_view(list@),
            ) && m@ == sets_of(pair_view(list@)),
            None => !(keys_of(pair_view(list@)).no_duplicates() && lists_are_unique(
                pair_view(list@),
            )),
        },
{
    let n: usize = list.len();
    let ghost views = pair_view(list@);
    let mut pairs: Vec<(K, OrdSet<V>)> = Vec::new();
    for i in 0..n
        invariant
            n == list@.len(),
            views == pair_view(list@),
            pairs@.len() == i,
            forall|j: int|
                0 <= j < i ==> (#[trigger] pairs@[j]).0 == views[j].0 && pairs@[j].1@
                    == views[j].1.to_set() && views[j].1.no_duplicates(),
    {
        assert(views[i as int] == (list@[i as int].0, list@[i as int].1@));
        match read_set(&list[i].1) {
            Some(set) => {
                let ghost before = pairs@;
                pairs.push((list[i].0, set));
                proof {
                    assert(pairs@[i as int].0 == views[i as int].0);
                    assert forall|j: int| 0 <= j < i + 1 implies (#[trigger] pairs@[j]).0
                        == views[j].0 && pairs@[j].1@ == views[j].1.to_set()
                        && views[j].1.no_duplicates() by {
                        if j < i {
                            assert(pairs@[j] == before[j]);
                        }
                    }
                }
            },
            None => {
                assert(!views[i as int].1.no_duplicates());
                return None;
            },
        }
    }
    let ghost sets = pair_view(pairs@);
    proof {
        assert(keys_of(sets) =~= keys_of(views));
        assert forall|i: int| 0 <= i < views.len() implies (#[trigger] views[i]).1.no_duplicates() by {
            assert(pairs@[i].0 == views[i].0);
        }
        if keys_of(views).no_duplicates() {
            assert forall|k: K| #[trigger] table_of(sets).contains_key(k) implies table_of(sets)[k]
                == sets_of(views)[k] by {
                let i = keys_of(sets).index_of(k);
                assert(keys_of(sets)[i] == k);
                assert(pairs@[i].0 == views[i].0);
            }
            assert(table_of(sets) =~= sets_of(views));
        }
    }
    read_map(&pairs)
}

} // verus!

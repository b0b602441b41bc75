//! Sets that list their entries in ascending order.

use vstd::prelude::*;

use crate::order;
use crate::order::{Key, Rel};

verus! {

/// Makes an equal copy, as far as views go.
pub trait Duplicate: View + Sized {
    fn duplicate(&self) -> (r: Self)
        ensures
            r@ == self@,
    ;
}

/// Where `key` stands, or would stand, in the ascending sequence `items`.
pub fn locate<K: Key>(items: &Vec<K>, key: &K) -> (r: (bool, usize))
    requires
        order::is_ascending(items@),
    ensures
        r.1 <= items@.len(),
        r.0 <==> items@.contains(*key),
        r.0 ==> r.1 < items@.len() && items@[r.1 as int] == *key,
        forall|i: int| 0 <= i < r.1 ==> order::before(#[trigger] items@[i], *key),
        !r.0 ==> forall|i: int| r.1 <= i < items@.len() ==> order::before(*key, #[trigger] items@[i]),
{
    let mut lo: usize = 0;
    let mut hi: usize = items.len();
    while lo < hi
        invariant
            order::is_ascending(items@),
            lo <= hi <= items@.len(),
            forall|i: int| 0 <= i < lo ==> order::before(#[trigger] items@[i], *key),
            forall|i: int| hi <= i < items@.len() ==> order::before(*key, #[trigger] items@[i]),
        decreases hi - lo,
    {
        let mid: usize = lo + (hi - lo) / 2;
        let rel = items[mid].relate(key);
        match rel {
            Rel::Same => {
                assert forall|i: int| 0 <= i < mid implies order::before(#[trigger] items@[i], *key) by {
                    assert(order::before(items@[i], items@[mid as int]));
                }
                assert(items@.contains(items@[mid as int]));
                return (true, mid);
            },
            Rel::Below => {
                assert forall|i: int| 0 <= i < mid + 1 implies order::before(
                    #[trigger] items@[i],
                    *key,
                ) by {
                    if i < mid {
                        assert(order::before(items@[i], items@[mid as int]));
                        order::lemma_before_transitive(items@[i], items@[mid as int], *key);
                    }
                }
                lo = mid + 1;
            },
            Rel::Above => {
                assert forall|i: int| mid <= i < items@.len() implies order::before(
                    *key,
                    #[trigger] items@[i],
                ) by {
                    if mid < i {
                        assert(order::before(items@[mid as int], items@[i]));
                        order::lemma_before_transitive(*key, items@[mid as int], items@[i]);
                    }
                }
                hi = mid;
            },
        }
    }
    proof {
        assert forall|i: int| 0 <= i < items@.len() implies items@[i] != *key by {
            order::lemma_before_total(items@[i], *key);
            if i < lo {
                assert(order::before(items@[i], *key));
            } else {
                assert(order::before(*key, items@[i]));
            }
        }
    }
    (false, lo)
}

/// Inserting at the place `locate` found keeps the sequence ascending.
pub proof fn lemma_insert_ascending<K: Key>(items: Seq<K>, at: int, key: K)
    requires
        order::is_ascending(items),
        0 <= at <= items.len(),
        forall|i: int| 0 <= i < at ==> order::before(#[trigger] items[i], key),
        forall|i: int| at <= i < items.len() ==> order::before(key, #[trigger] items[i]),
    ensures
        order::is_ascending(items.insert(at, key)),
        items.insert(at, key).to_set() == items.to_set().insert(key),
{
    let r = items.insert(at, key);
    assert forall|i: int, j: int| 0 <= i < j < r.len() implies #[trigger] order::before(r[i], r[j]) by {
        if i < at && j > at {
            assert(order::before(items[i], items[j - 1]));
        } else if i > at {
            assert(order::before(items[i - 1], items[j - 1]));
        } else if j < at {
            assert(order::before(items[i], items[j]));
        } else if i == at {
            assert(order::before(key, items[j - 1]));
        } else {
            assert(order::before(items[i], key));
        }
    }
    assert forall|x: K| #[trigger] r.to_set().contains(x) <==> items.to_set().insert(
        key,
    ).contains(x) by {
        if r.contains(x) {
            let i = choose|i: int| 0 <= i < r.len() && r[i] == x;
            if i < at {
                assert(items[i] == x);
            } else if i > at {
                assert(items[i - 1] == x);
            }
        }
        if items.contains(x) {
            let i = choose|i: int| 0 <= i < items.len() && items[i] == x;
            if i < at {
                assert(r[i] == x);
            } else {
                assert(r[i + 1] == x);
            }
        }
        if x == key {
            assert(r[at] == x);
        }
    }
    assert(r.to_set() =~= items.to_set().insert(key));
}

/// Removing one entry keeps the sequence ascending.
pub proof fn lemma_remove_ascending<K: Key>(items: Seq<K>, at: int)
    requires
        order::is_ascending(items),
        0 <= at < items.len(),
    ensures
        order::is_ascending(items.remove(at)),
        items.remove(at).to_set() == items.to_set().remove(items[at]),
{
    let r = items.remove(at);
    order::lemma_ascending_distinct(items);
    assert forall|i: int, j: int| 0 <= i < j < r.len() implies #[trigger] order::before(r[i], r[j]) by {
        let i2 = if i < at { i } else { i + 1 };
        let j2 = if j < at { j } else { j + 1 };
        assert(order::before(items[i2], items[j2]));
    }
    assert forall|x: K| #[trigger] r.to_set().contains(x) <==> items.to_set().remove(
        items[at],
    ).contains(x) by {
        if r.contains(x) {
            let i = choose|i: int| 0 <= i < r.len() && r[i] == x;
            let i2 = if i < at { i } else { i + 1 };
            assert(items[i2] == x);
        }
        if items.contains(x) && x != items[at] {
            let i = choose|i: int| 0 <= i < items.len() && items[i] == x;
            if i < at {
                assert(r[i] == x);
            } else {
                assert(r[i - 1] == x);
            }
        }
    }
    assert(r.to_set() =~= items.to_set().remove(items[at]));
}

/// A finite set whose entries are kept in ascending order.
#[derive(Debug, PartialEq, Eq)]
pub struct OrdSet<K: Key> {
    items: Vec<K>,
}

impl<K: Key> View for OrdSet<K> {
    type V = Set<K>;

    closed spec fn view(&self) -> Set<K> {
        self.items@.to_set()
    }
}

impl<K: Key> Duplicate for OrdSet<K> {
    fn duplicate(&self) -> (r: Self) {
        proof {
            use_type_invariant(self);
        }
        let mut items: Vec<K> = Vec::new();
        let n: usize = self.items.len();
        for i in 0..n
            invariant
                n == self.items@.len(),
                items@ == self.items@.take(i as int),
        {
            items.push(self.items[i]);
            assert(self.items@.take(i + 1) =~= self.items@.take(i as int).push(
                self.items@[i as int],
            ));
        }
        assert(items@ =~= self.items@);
        OrdSet { items }
    }
}

impl<K: Key> OrdSet<K> {
    #[verifier::type_invariant]
    closed spec fn listed_in_order(self) -> bool {
        order::is_ascending(self.items@)
    }

    pub fn new() -> (r: Self)
        ensures
            r@ == Set::<K>::empty(),
    {
        let items: Vec<K> = Vec::new();
        assert(items@.to_set() =~= Set::<K>::empty());
        OrdSet { items }
    }

    pub fn len(&self) -> (n: usize)
        ensures
            self@.finite(),
            n == self@.len(),
            n == order::ascending(self@).len(),
    {
        proof {
            use_type_invariant(self);
            order::lemma_ascending_distinct(self.items@);
            order::lemma_ascending_of(self.items@);
            self.items@.unique_seq_to_set();
        }
        self.items.len()
    }

    pub fn is_empty(&self) -> (r: bool)
        ensures
            r <==> self@ == Set::<K>::empty(),
            r <==> self@.len() == 0,
            self@.finite(),
    {
        proof {
            use_type_invariant(self);
            order::lemma_ascending_distinct(self.items@);
            self.items@.unique_seq_to_set();
            if self.items@.len() > 0 {
                assert(self@.contains(self.items@[0]));
            } else {
                assert(self@ =~= Set::<K>::empty());
            }
        }
        self.items.len() == 0
    }

    pub fn contains(&self, key: &K) -> (r: bool)
        ensures
            r == self@.contains(*key),
    {
        proof {
            use_type_invariant(self);
        }
        locate(&self.items, key).0
    }

    /// Adds `key`; the result says whether it was new.
    pub fn insert(&mut self, key: K) -> (fresh: bool)
        ensures
            final(self)@ == old(self)@.insert(key),
            fresh == !old(self)@.contains(key),
    {
        proof {
            use_type_invariant(&*self);
        }
        let found = locate(&self.items, &key);
        if found.0 {
            assert(self@.insert(key) =~= self@);
            return false;
        }
        proof {
            lemma_insert_ascending(self.items@, found.1 as int, key);
        }
        let mut items: Vec<K> = Vec::new();
        std::mem::swap(&mut self.items, &mut items);
        items.insert(found.1, key);
        self.items = items;
        true
    }

    /// Takes `key` out; the result says whether it was there.
    pub fn remove(&mut self, key: &K) -> (there: bool)
        ensures
            final(self)@ == old(self)@.remove(*key),
            there == old(self)@.contains(*key),
    {
        proof {
            use_type_invariant(&*self);
        }
        let found = locate(&self.items, key);
        if !found.0 {
            assert(self@.remove(*key) =~= self@);
            return false;
        }
        proof {
            lemma_remove_ascending(self.items@, found.1 as int);
        }
        let mut items: Vec<K> = Vec::new();
        std::mem::swap(&mut self.items, &mut items);
        let _ = items.remove(found.1);
        self.items = items;
        true
    }

    /// The entries in ascending order.
    pub fn to_vec(&self) -> (r: Vec<K>)
        ensures
            r@ == order::ascending(self@),
            order::is_ascending(r@),
            r@.no_duplicates(),
            r@.to_set() == self@,
            forall|k: K| #[trigger] r@.contains(k) <==> self@.contains(k),
            self@.finite(),
            r@.len() == self@.len(),
    {
        proof {
            use_type_invariant(self);
            order::lemma_ascending_of(self.items@);
            order::lemma_ascending_distinct(self.items@);
            self.items@.unique_seq_to_set();
        }
        let mut items: Vec<K> = Vec::new();
        let n: usize = self.items.len();
        for i in 0..n
            invariant
                n == self.items@.len(),
                items@ == self.items@.take(i as int),
        {
            items.push(self.items[i]);
            assert(self.items@.take(i + 1) =~= self.items@.take(i as int).push(
                self.items@[i as int],
            ));
        }
        assert(items@ =~= self.items@);
        items
    }

    /// The least entry.
    pub fn first(&self) -> (r: Option<K>)
        ensures
            match r {
                Some(k) => self@.contains(k) && k == order::ascending(self@)[0]
                    && order::ascending(self@).len() > 0,
                None => self@ == Set::<K>::empty(),
            },
            self@.finite(),
    {
        proof {
            use_type_invariant(self);
            order::lemma_ascending_of(self.items@);
            order::lemma_ascending_distinct(self.items@);
            self.items@.unique_seq_to_set();
        }
        if self.items.len() == 0 {
            assert(self@ =~= Set::<K>::empty());
            None
        } else {
            assert(self.items@.contains(self.items@[0]));
            Some(self.items[0])
        }
    }

    /// Adds every entry of `other`.
    pub fn extend(&mut self, other: &OrdSet<K>)
        ensures
            final(self)@ == old(self)@.union(other@),
    {
        let items = other.to_vec();
        self.extend_vec(&items);
        assert(self@ =~= old(self)@.union(other@));
    }

    /// Adds every entry of `items`.
    pub fn extend_vec(&mut self, items: &Vec<K>)
        ensures
            final(self)@ == old(self)@.union(items@.to_set()),
    {
        let n: usize = items.len();
        let ghost start = self@;
        assert(start.union(items@.take(0).to_set()) =~= start);
        for i in 0..n
            invariant
                n == items@.len(),
                self@ == start.union(items@.take(i as int).to_set()),
        {
            self.insert(items[i]);
            proof {
                lemma_take_set(items@, i as int);
                assert(self@ =~= start.union(items@.take(i + 1).to_set()));
            }
        }
        assert(items@.take(n as int) =~= items@);
    }

    /// The set of the entries of `items`.
    pub fn from_vec(items: &Vec<K>) -> (r: Self)
        ensures
            r@ == items@.to_set(),
    {
        let mut r = OrdSet::new();
        r.extend_vec(items);
        assert(r@ =~= items@.to_set());
        r
    }

    /// Whether both sets hold the same entries.
    pub fn same(&self, other: &OrdSet<K>) -> (r: bool)
        ensures
            r <==> self@ == other@,
    {
        let a = self.to_vec();
        let b = other.to_vec();
        proof {
            if self@ == other@ {
                assert(a@ == b@);
            }
            if a@ == b@ {
                assert(self@ == other@);
            }
        }
        same_keys(&a, &b)
    }
}

/// The entries of a longer prefix are those of the shorter one and the next.
pub proof fn lemma_take_set<A>(s: Seq<A>, i: int)
    requires
        0 <= i < s.len(),
    ensures
        s.take(i + 1).to_set() == s.take(i).to_set().insert(s[i]),
{
    let a = s.take(i + 1).to_set();
    let b = s.take(i).to_set().insert(s[i]);
    assert forall|x: A| #[trigger] a.contains(x) <==> b.contains(x) by {
        let longer = s.take(i + 1);
        if longer.contains(x) {
            let j = choose|j: int| 0 <= j < longer.len() && longer[j] == x;
            if j < i {
                assert(s.take(i)[j] == x);
            }
        }
        if s.take(i).contains(x) {
            let j = choose|j: int| 0 <= j < i && s.take(i)[j] == x;
            assert(s.take(i + 1)[j] == x);
        }
        if x == s[i] {
            assert(s.take(i + 1)[i] == x);
        }
    }
    assert(a =~= b);
}

/// Whether both sequences hold the same keys in the same places.
pub fn same_keys<K: Key>(a: &Vec<K>, b: &Vec<K>) -> (r: bool)
    ensures
        r <==> a@ == b@,
{
    if a.len() != b.len() {
        return false;
    }
    let n: usize = a.len();
    for i in 0..n
        invariant
            n == a@.len(),
            n == b@.len(),
            forall|j: int| 0 <= j < i ==> a@[j] == b@[j],
    {
        match a[i].relate(&b[i]) {
            Rel::Same => {},
            _ => {
                assert(a@[i as int] != b@[i as int]);
                return false;
            },
        }
    }
    assert(a@ =~= b@);
    true
}

/// Whether `items` holds `key`.
pub fn holds<K: Key>(items: &Vec<K>, key: &K) -> (r: bool)
    ensures
        r == items@.contains(*key),
{
    let n: usize = items.len();
    for i in 0..n
        invariant
            n == items@.len(),
            forall|j: int| 0 <= j < i ==> items@[j] != *key,
    {
        match items[i].relate(key) {
            Rel::Same => {
                assert(items@[i as int] == *key);
                return true;
            },
            _ => {},
        }
    }
    false
}

/// Sorts `items` and drops repeats.
pub fn sort_unique<K: Key>(items: &Vec<K>) -> (r: Vec<K>)
    ensures
        r@ == order::ascending(items@.to_set()),
        order::is_ascending(r@),
        r@.no_duplicates(),
        r@.to_set() == items@.to_set(),
        forall|k: K| #[trigger] r@.contains(k) <==> items@.contains(k),
{
    let set = OrdSet::from_vec(items);
    let r = set.to_vec();
    assert forall|k: K| #[trigger] r@.contains(k) <==> items@.contains(k) by {
        assert(r@.contains(k) <==> set@.contains(k));
        assert(items@.to_set().contains(k) <==> items@.contains(k));
    }
    r
}

/// Appends the entries of `tail`.
pub fn append_keys<K: Key>(list: &mut Vec<K>, tail: &Vec<K>)
    ensures
        final(list)@ == old(list)@ + tail@,
{
    let n: usize = tail.len();
    let ghost start = list@;
    for i in 0..n
        invariant
            n == tail@.len(),
            list@ == start + tail@.take(i as int),
    {
        list.push(tail[i]);
        assert(list@ =~= start + tail@.take(i + 1));
    }
    assert(tail@.take(n as int) =~= tail@);
}

/// A copy of a key list.
pub fn copy_keys<K: Key>(items: &Vec<K>) -> (r: Vec<K>)
    ensures
        r@ == items@,
{
    let mut r: Vec<K> = Vec::new();
    append_keys(&mut r, items);
    assert(r@ =~= items@);
    r
}

/// Where a new key would stand in an ascending sequence.
proof fn lemma_place<K: Key>(items: Seq<K>, key: K) -> (at: int)
    requires
        order::is_ascending(items),
        !items.contains(key),
    ensures
        0 <= at <= items.len(),
        forall|i: int| 0 <= i < at ==> order::before(#[trigger] items[i], key),
        forall|i: int| at <= i < items.len() ==> order::before(key, #[trigger] items[i]),
    decreases items.len(),
{
    if items.len() == 0 {
        0
    } else {
        let last = items.last();
        assert(items.contains(last));
        order::lemma_before_total(last, key);
        if order::before(last, key) {
            assert forall|i: int| 0 <= i < items.len() implies order::before(
                #[trigger] items[i],
                key,
            ) by {
                if i < items.len() - 1 {
                    assert(order::before(items[i], items[items.len() - 1]));
                    order::lemma_before_transitive(items[i], last, key);
                }
            }
            items.len() as int
        } else {
            let rest = items.drop_last();
            assert(order::is_ascending(rest)) by {
                assert forall|i: int, j: int| 0 <= i < j < rest.len() implies #[trigger] order::before(
                    rest[i],
                    rest[j],
                ) by {
                    assert(order::before(items[i], items[j]));
                }
            }
            if rest.contains(key) {
                let i = choose|i: int| 0 <= i < rest.len() && rest[i] == key;
                assert(items[i] == key);
            }
            let at = lemma_place(rest, key);
            assert forall|i: int| 0 <= i < at implies order::before(#[trigger] items[i], key) by {
                assert(rest[i] == items[i]);
            }
            assert forall|i: int| at <= i < items.len() implies order::before(
                key,
                #[trigger] items[i],
            ) by {
                if i < rest.len() {
                    assert(rest[i] == items[i]);
                }
            }
            at
        }
    }
}

/// A finite set has a listing.
pub proof fn lemma_listing<K: Key>(set: Set<K>)
    requires
        set.finite(),
    ensures
        order::is_ascending(order::ascending(set)),
        order::ascending(set).to_set() == set,
        order::ascending(set).no_duplicates(),
        order::ascending(set).len() == set.len(),
        forall|k: K| #[trigger] order::ascending(set).contains(k) <==> set.contains(k),
    decreases set.len(),
{
    if set.len() == 0 {
        let none = Seq::<K>::empty();
        assert(set =~= Set::<K>::empty());
        assert(none.to_set() =~= set);
        assert(order::is_ascending(none));
    } else {
        let k = set.choose();
        lemma_listing(set.remove(k));
        let s = order::ascending(set.remove(k));
        assert(!s.contains(k)) by {
            assert(s.to_set().contains(k) <==> s.contains(k));
        }
        let at = lemma_place(s, k);
        lemma_insert_ascending(s, at, k);
        let t = s.insert(at, k);
        assert(t.to_set() =~= set);
        assert(order::is_ascending(t) && t.to_set() == set);
    }
    let all = order::ascending(set);
    order::lemma_ascending_distinct(all);
    all.unique_seq_to_set();
    assert forall|k: K| #[trigger] all.contains(k) <==> set.contains(k) by {
        assert(all.to_set().contains(k) <==> all.contains(k));
    }
}

/// The next entry of a list without repeats is new.
pub proof fn lemma_next_is_new<A>(s: Seq<A>, i: int)
    requires
        s.no_duplicates(),
        0 <= i < s.len(),
    ensures
        s.take(i + 1).to_set() == s.take(i).to_set().insert(s[i]),
        !s.take(i).to_set().contains(s[i]),
        s.take(i).to_set().finite(),
        s.take(i + 1).to_set().subset_of(s.to_set()),
{
    lemma_take_set(s, i);
    let small = s.take(i);
    let big = s.take(i + 1);
    if small.contains(s[i]) {
        let j = choose|j: int| 0 <= j < small.len() && small[j] == s[i];
        assert(s[j] == s[i]);
    }
    assert forall|x: A| big.to_set().contains(x) implies s.to_set().contains(x) by {
        assert(big.contains(x));
        let j = choose|j: int| 0 <= j < big.len() && big[j] == x;
        assert(s[j] == x);
        assert(s.contains(x));
    }
}

} // verus!

//! Total orders for map and set keys.
//!
//! A key is ordered by its `rank`, a sequence of integers compared
//! lexicographically.  Two keys with one rank are one key, so a strictly
//! ascending sequence is the only one that lists a given finite set.

use vstd::prelude::*;

verus! {

/// How one key stands to another.
#[derive(Clone, Copy, PartialEq, Eq, Structural, Debug)]
pub enum Rel {
    Below,
    Same,
    Above,
}

/// Lexicographic order on integer sequences; a proper prefix comes first.
pub open spec fn lex_lt(a: Seq<int>, b: Seq<int>) -> bool
    decreases a.len(),
{
    if b.len() == 0 {
        false
    } else if a.len() == 0 {
        true
    } else {
        a[0] < b[0] || (a[0] == b[0] && lex_lt(a.drop_first(), b.drop_first()))
    }
}

pub proof fn lemma_lex_irreflexive(a: Seq<int>)
    ensures
        !lex_lt(a, a),
    decreases a.len(),
{
    if a.len() > 0 {
        lemma_lex_irreflexive(a.drop_first());
    }
}

pub proof fn lemma_lex_transitive(a: Seq<int>, b: Seq<int>, c: Seq<int>)
    requires
        lex_lt(a, b),
        lex_lt(b, c),
    ensures
        lex_lt(a, c),
    decreases a.len(),
{
    if a.len() > 0 && a[0] == b[0] && b[0] == c[0] {
        lemma_lex_transitive(a.drop_first(), b.drop_first(), c.drop_first());
    }
}

pub proof fn lemma_lex_total(a: Seq<int>, b: Seq<int>)
    ensures
        lex_lt(a, b) || a == b || lex_lt(b, a),
    decreases a.len(),
{
    if a.len() > 0 && b.len() > 0 && a[0] == b[0] {
        lemma_lex_total(a.drop_first(), b.drop_first());
        if a.drop_first() == b.drop_first() {
            assert(a =~= seq![a[0]] + a.drop_first());
            assert(b =~= seq![b[0]] + b.drop_first());
        }
    } else if a.len() == 0 && b.len() == 0 {
        assert(a =~= b);
    }
}

/// A common prefix does not bear on the order.
pub proof fn lemma_lex_skip(a: Seq<int>, b: Seq<int>, n: int)
    requires
        0 <= n <= a.len(),
        n <= b.len(),
        a.take(n) == b.take(n),
    ensures
        lex_lt(a, b) == lex_lt(a.skip(n), b.skip(n)),
    decreases n,
{
    if n == 0 {
        assert(a.skip(0) =~= a);
        assert(b.skip(0) =~= b);
    } else {
        assert(a.take(n)[0] == a[0] && b.take(n)[0] == b[0]);
        assert(a.drop_first().take(n - 1) =~= a.take(n).drop_first());
        assert(b.drop_first().take(n - 1) =~= b.take(n).drop_first());
        lemma_lex_skip(a.drop_first(), b.drop_first(), n - 1);
        assert(a.drop_first().skip(n - 1) =~= a.skip(n));
        assert(b.drop_first().skip(n - 1) =~= b.skip(n));
    }
}

/// Two sequences that first differ at `n` stand as their entries there do.
pub proof fn lemma_lex_first_difference(a: Seq<int>, b: Seq<int>, n: int)
    requires
        0 <= n < a.len(),
        n < b.len(),
        a.take(n) == b.take(n),
    ensures
        a[n] < b[n] ==> lex_lt(a, b),
        a[n] > b[n] ==> lex_lt(b, a),
{
    lemma_lex_skip(a, b, n);
    lemma_lex_skip(b, a, n);
    assert(a.skip(n)[0] == a[n]);
    assert(b.skip(n)[0] == b[n]);
}

/// The bytes of a sequence as integers.
pub open spec fn ints(s: Seq<u8>) -> Seq<int> {
    s.map_values(|b: u8| b as int)
}

pub proof fn lemma_ints_injective(a: Seq<u8>, b: Seq<u8>)
    requires
        ints(a) == ints(b),
    ensures
        a == b,
{
    assert(ints(a).len() == a.len() && ints(b).len() == b.len());
    assert forall|i: int| 0 <= i < a.len() implies a[i] == b[i] by {
        assert(ints(a)[i] == a[i] as int);
        assert(ints(b)[i] == b[i] as int);
    }
    assert(a =~= b);
}

/// Compares two byte arrays of one length lexicographically.
pub fn rel_bytes<const N: usize>(a: &[u8; N], b: &[u8; N]) -> (r: Rel)
    ensures
        r == Rel::Below <==> lex_lt(ints(a@), ints(b@)),
        r == Rel::Same <==> a@ == b@,
        r == Rel::Above <==> lex_lt(ints(b@), ints(a@)),
{
    let mut i: usize = 0;
    while i < N
        invariant
            i <= N,
            a@.take(i as int) == b@.take(i as int),
        decreases N - i,
    {
        proof {
            assert(a@.len() == N && b@.len() == N);
            assert(ints(a@).take(i as int) =~= ints(a@.take(i as int)));
            assert(ints(b@).take(i as int) =~= ints(b@.take(i as int)));
        }
        if a[i] != b[i] {
            proof {
                lemma_lex_first_difference(ints(a@), ints(b@), i as int);
                lemma_lex_exclusive(ints(a@), ints(b@));
                assert(a@[i as int] != b@[i as int]);
            }
            return if a[i] < b[i] { Rel::Below } else { Rel::Above };
        }
        proof {
            assert(a@.take(i + 1) =~= a@.take(i as int).push(a@[i as int]));
            assert(b@.take(i + 1) =~= b@.take(i as int).push(b@[i as int]));
        }
        i += 1;
    }
    proof {
        assert(a@.take(N as int) =~= a@);
        assert(b@.take(N as int) =~= b@);
        lemma_lex_irreflexive(ints(a@));
    }
    Rel::Same
}

/// No two sequences each come before the other.
pub proof fn lemma_lex_exclusive(a: Seq<int>, b: Seq<int>)
    ensures
        !(lex_lt(a, b) && lex_lt(b, a)),
        lex_lt(a, b) ==> a != b,
{
    if lex_lt(a, b) && lex_lt(b, a) {
        lemma_lex_transitive(a, b, a);
        lemma_lex_irreflexive(a);
    }
    if a == b {
        lemma_lex_irreflexive(a);
    }
}

/// A prefix pair that differs decides the order of the concatenations.
pub proof fn lemma_lex_concat(a: Seq<int>, b: Seq<int>, x: Seq<int>, y: Seq<int>)
    requires
        a.len() == b.len(),
    ensures
        lex_lt(a, b) ==> lex_lt(a + x, b + y),
        a == b ==> (lex_lt(a + x, b + y) == lex_lt(x, y)),
    decreases a.len(),
{
    if a == b {
        assert((a + x).take(a.len() as int) =~= a);
        assert((b + y).take(a.len() as int) =~= b);
        lemma_lex_skip(a + x, b + y, a.len() as int);
        assert((a + x).skip(a.len() as int) =~= x);
        assert((b + y).skip(a.len() as int) =~= y);
    }
    if lex_lt(a, b) {
        assert((a + x)[0] == a[0]);
        assert((b + y)[0] == b[0]);
        lemma_lex_concat(a.drop_first(), b.drop_first(), x, y);
        assert((a + x).drop_first() =~= a.drop_first() + x);
        assert((b + y).drop_first() =~= b.drop_first() + y);
    }
}

/// A key type with a total order.
pub trait Key: Copy {
    /// What the key is ordered by.
    spec fn rank(self) -> Seq<int>;

    /// One rank, one key.
    proof fn rank_injective(a: Self, b: Self)
        requires
            a.rank() == b.rank(),
        ensures
            a == b,
    ;

    /// Compares two keys.
    fn relate(&self, other: &Self) -> (r: Rel)
        ensures
            r == Rel::Below <==> lex_lt(self.rank(), other.rank()),
            r == Rel::Same <==> *self == *other,
            r == Rel::Above <==> lex_lt(other.rank(), self.rank()),
    ;
}

/// `a` comes strictly before `b`.
pub open spec fn before<K: Key>(a: K, b: K) -> bool {
    lex_lt(a.rank(), b.rank())
}

pub proof fn lemma_before_total<K: Key>(a: K, b: K)
    ensures
        before(a, b) || a == b || before(b, a),
        !(before(a, b) && before(b, a)),
        before(a, b) ==> a != b,
{
    lemma_lex_total(a.rank(), b.rank());
    lemma_lex_exclusive(a.rank(), b.rank());
    if a.rank() == b.rank() {
        K::rank_injective(a, b);
    }
}

pub proof fn lemma_before_transitive<K: Key>(a: K, b: K, c: K)
    requires
        before(a, b),
        before(b, c),
    ensures
        before(a, c),
{
    lemma_lex_transitive(a.rank(), b.rank(), c.rank());
}

/// Every entry comes strictly before each later one.
pub open spec fn is_ascending<K: Key>(s: Seq<K>) -> bool {
    forall|i: int, j: int| 0 <= i < j < s.len() ==> #[trigger] before(s[i], s[j])
}

/// The entries of `set`, each once, in ascending order.
pub open spec fn ascending<K: Key>(set: Set<K>) -> Seq<K> {
    choose|s: Seq<K>| is_ascending(s) && #[trigger] s.to_set() == set
}

pub proof fn lemma_ascending_distinct<K: Key>(s: Seq<K>)
    requires
        is_ascending(s),
    ensures
        s.no_duplicates(),
{
    assert forall|i: int, j: int| 0 <= i < s.len() && 0 <= j < s.len() && i != j implies s[i]
        != s[j] by {
        if i < j {
            assert(before(s[i], s[j]));
            lemma_before_total(s[i], s[j]);
        } else {
            assert(before(s[j], s[i]));
            lemma_before_total(s[j], s[i]);
        }
    }
}

/// Only one ascending sequence lists a given set.
pub proof fn lemma_ascending_unique<K: Key>(a: Seq<K>, b: Seq<K>)
    requires
        is_ascending(a),
        is_ascending(b),
        a.to_set() == b.to_set(),
    ensures
        a == b,
    decreases a.len(),
{
    if a.len() == 0 {
        if b.len() > 0 {
            assert(b.to_set().contains(b[0]));
            assert(a.to_set().contains(b[0]));
        }
        assert(a =~= b);
    } else {
        assert(a.to_set().contains(a.last()));
        assert(b.contains(a.last()));
        assert(b.len() > 0);
        assert(b.to_set().contains(b.last()));
        assert(a.contains(b.last()));
        let j = choose|j: int| 0 <= j < b.len() && b[j] == a.last();
        let i = choose|i: int| 0 <= i < a.len() && a[i] == b.last();
        lemma_before_total(a.last(), b.last());
        if a.last() != b.last() {
            assert(before(b[j], b.last()));
            assert(before(a[i], a.last()));
            assert(false);
        }
        lemma_ascending_distinct(a);
        lemma_ascending_distinct(b);
        assert(a.drop_last().to_set() =~= a.to_set().remove(a.last())) by {
            lemma_drop_last_set(a);
        }
        assert(b.drop_last().to_set() =~= b.to_set().remove(b.last())) by {
            lemma_drop_last_set(b);
        }
        assert(is_ascending(a.drop_last()));
        assert(is_ascending(b.drop_last()));
        lemma_ascending_unique(a.drop_last(), b.drop_last());
        assert(a =~= a.drop_last().push(a.last()));
        assert(b =~= b.drop_last().push(b.last()));
    }
}

proof fn lemma_drop_last_set<K>(s: Seq<K>)
    requires
        s.len() > 0,
        s.no_duplicates(),
    ensures
        s.drop_last().to_set() =~= s.to_set().remove(s.last()),
{
    assert forall|x: K| #[trigger]
        s.drop_last().to_set().contains(x) <==> s.to_set().remove(s.last()).contains(x) by {
        if s.drop_last().contains(x) {
            let i = choose|i: int| 0 <= i < s.drop_last().len() && s.drop_last()[i] == x;
            assert(s[i] == x);
            assert(s.contains(x));
        }
        if s.contains(x) && x != s.last() {
            let i = choose|i: int| 0 <= i < s.len() && s[i] == x;
            assert(s.drop_last()[i] == x);
        }
    }
}

/// An ascending sequence is the listing of its own entries.
pub proof fn lemma_ascending_of<K: Key>(s: Seq<K>)
    requires
        is_ascending(s),
    ensures
        ascending(s.to_set()) == s,
{
    let t = ascending(s.to_set());
    assert(is_ascending(t) && t.to_set() == s.to_set());
    lemma_ascending_unique(s, t);
}

} // verus!

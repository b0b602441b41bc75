//! What the indexes are charged for a fact is what they come to hold more.

use vstd::prelude::*;

use crate::accounting;
use crate::admission;
use crate::canon;
use crate::content::{BodyView, ExclusiveCell};
use crate::continuation;
use crate::costs;
use crate::device::DeviceId;
use crate::fact::{Facts, FactView};
use crate::graph::{GraphView, RowView, Selection};
use crate::ids::FactId;
use crate::index;
use crate::multimap;
use crate::ordset::OrdSet;
use crate::provenance;
use crate::reach;
use crate::sums;

verus! {

/// The sum over two sets that share nothing.
proof fn lemma_sum_apart<A>(a: Set<A>, b: Set<A>, f: spec_fn(A) -> nat)
    requires
        a.finite(),
        b.finite(),
        a.disjoint(b),
    ensures
        sums::sum(a.union(b), f) == sums::sum(a, f) + sums::sum(b, f),
    decreases b.len(),
{
    if b.len() == 0 {
        assert(b =~= Set::empty());
        assert(a.union(b) =~= a);
    } else {
        let x = b.choose();
        assert(b.contains(x)) by {
            if !(exists|z: A| b.contains(z)) {
                assert(b =~= Set::empty());
            }
        }
        lemma_sum_apart(a, b.remove(x), f);
        sums::lemma_sum_remove(b, f, x);
        sums::lemma_sum_remove(a.union(b), f, x);
        assert(a.union(b).remove(x) =~= a.union(b.remove(x)));
    }
}

/// Sums add up.
proof fn lemma_sum_plus<A>(
    set: Set<A>,
    f: spec_fn(A) -> nat,
    g: spec_fn(A) -> nat,
    both: spec_fn(A) -> nat,
)
    requires
        set.finite(),
        forall|x: A| #[trigger] set.contains(x) ==> both(x) == f(x) + g(x),
    ensures
        sums::sum(set, both) == sums::sum(set, f) + sums::sum(set, g),
    decreases set.len(),
{
    if set.len() > 0 {
        let x = set.choose();
        assert(set.contains(x)) by {
            if !(exists|z: A| set.contains(z)) {
                assert(set =~= Set::empty());
            }
        }
        assert forall|z: A| #[trigger] set.remove(x).contains(z) implies both(z) == f(z) + g(z) by {
            assert(set.contains(z));
        }
        lemma_sum_plus(set.remove(x), f, g, both);
    }
}

/// Where a table changes at some keys alone, its sum changes by what they add
/// and remove.
proof fn lemma_sum_changed<A>(
    before: Set<A>,
    keys: Set<A>,
    f: spec_fn(A) -> nat,
    g: spec_fn(A) -> nat,
    added: spec_fn(A) -> nat,
    removed: spec_fn(A) -> nat,
)
    requires
        before.finite(),
        keys.finite(),
        forall|k: A| #[trigger] before.contains(k) && !keys.contains(k) ==> f(k) == g(k),
        forall|k: A| #[trigger]
            keys.contains(k) ==> g(k) + removed(k) == (if before.contains(k) {
                f(k)
            } else {
                0
            }) + added(k),
    ensures
        sums::sum(before.union(keys), g) + sums::sum(keys, removed) == sums::sum(before, f)
            + sums::sum(keys, added),
{
    let rest = before.difference(keys);
    let shared = before.intersect(keys);
    let fresh = keys.difference(before);
    let held = |k: A|
        if before.contains(k) {
            f(k)
        } else {
            0
        };
    lemma_sum_apart(rest, keys, g);
    assert(rest.union(keys) =~= before.union(keys));
    lemma_sum_apart(rest, shared, f);
    assert(rest.union(shared) =~= before);
    sums::lemma_sum_same(rest, f, g);
    lemma_sum_apart(shared, fresh, held);
    assert(shared.union(fresh) =~= keys);
    sums::lemma_sum_same(shared, f, held);
    let zero = |k: A| 0nat;
    sums::lemma_sum_same(fresh, held, zero);
    lemma_sum_zero(fresh, zero);
    let left = |k: A| g(k) + removed(k);
    let right = |k: A| held(k) + added(k);
    lemma_sum_plus(keys, g, removed, left);
    lemma_sum_plus(keys, held, added, right);
    sums::lemma_sum_same(keys, left, right);
}

proof fn lemma_sum_zero<A>(set: Set<A>, f: spec_fn(A) -> nat)
    requires
        set.finite(),
        forall|x: A| #[trigger] f(x) == 0,
    ensures
        sums::sum(set, f) == 0,
    decreases set.len(),
{
    if set.len() > 0 {
        lemma_sum_zero(set.remove(set.choose()), f);
    }
}

/// The bytes of a table of sets that changes at some keys.
proof fn lemma_sets_changed<K, V>(
    m: Map<K, Set<V>>,
    n: Map<K, Set<V>>,
    keys: Set<K>,
    entry: nat,
    each: nat,
    added: spec_fn(K) -> nat,
    removed: spec_fn(K) -> nat,
)
    requires
        m.dom().finite(),
        keys.finite(),
        n.dom() == m.dom().union(keys),
        forall|k: K| #[trigger] m.contains_key(k) && !keys.contains(k) ==> n[k] == m[k],
        forall|k: K| #[trigger]
            keys.contains(k) ==> entry + n[k].len() * each + removed(k) == (if m.contains_key(k) {
                entry + m[k].len() * each
            } else {
                0
            }) + added(k),
    ensures
        accounting::sets_bytes(n, entry, each) + sums::sum(keys, removed) == accounting::sets_bytes(
            m,
            entry,
            each,
        ) + sums::sum(keys, added),
{
    let f = |k: K| entry + m[k].len() * each;
    let g = |k: K| entry + n[k].len() * each;
    lemma_sum_changed(m.dom(), keys, f, g, added, removed);
}

/// The heads after a new fact joins are those that it does not have behind it,
/// and it.
proof fn lemma_replaced_size(facts: Facts, heads: Set<FactId>, f: FactView)
    requires
        canon::is_history(facts),
        canon::extends(facts, f),
        heads.finite(),
        !heads.contains(f.id),
    ensures
        index::replaced(facts.insert(f.id, f), heads, f.id).len() + heads.filter(
            |h: FactId| reach::is_dominated(facts, f.inputs(), h),
        ).len() == heads.len() + 1,
{
    let all = facts.insert(f.id, f);
    let gone = heads.filter(|h: FactId| reach::is_dominated(facts, f.inputs(), h));
    let left = heads.filter(|h: FactId| !reach::is_dominated(all, all[f.id].inputs(), h));
    canon::lemma_inputs_within(facts, f, f.inputs());
    assert(left =~= heads.difference(gone));
    assert(heads =~= left.union(gone));
    vstd::set_lib::lemma_set_subset_finite(heads, left);
    vstd::set_lib::lemma_set_subset_finite(heads, gone);
    vstd::set_lib::lemma_set_disjoint_lens(left, gone);
    assert(!left.contains(f.id));
}

/// The bytes of a table of heads after a new fact joins at some keys.
proof fn lemma_heads_charged<K>(
    facts: Facts,
    f: FactView,
    heads: Map<K, Set<FactId>>,
    keys: Set<K>,
    entry: nat,
    each: nat,
)
    requires
        canon::is_history(facts),
        canon::extends(facts, f),
        continuation::is_finite(heads),
        keys.finite(),
        forall|k: K| #[trigger] heads.contains_key(k) ==> heads[k].subset_of(facts.dom()),
    ensures
        accounting::sets_bytes(
            index::advanced(heads, facts.insert(f.id, f), keys, f.id),
            entry,
            each,
        ) + sums::sum(
            keys,
            |k: K|
                multimap::at(heads, k).filter(
                    |h: FactId| reach::is_dominated(facts, f.inputs(), h),
                ).len() * each,
        ) == accounting::sets_bytes(heads, entry, each) + sums::sum(
            keys,
            |k: K| costs::due(!heads.contains_key(k), entry) + each,
        ),
{
    let after = index::advanced(heads, facts.insert(f.id, f), keys, f.id);
    let removed = |k: K|
        multimap::at(heads, k).filter(
            |h: FactId| reach::is_dominated(facts, f.inputs(), h),
        ).len() * each;
    let added = |k: K| costs::due(!heads.contains_key(k), entry) + each;
    assert(after.dom() =~= heads.dom().union(keys));
    assert forall|k: K| #[trigger] keys.contains(k) implies entry + after[k].len() * each + removed(
        k,
    ) == (if heads.contains_key(k) {
        entry + heads[k].len() * each
    } else {
        0
    }) + added(k) by {
        let set = multimap::at(heads, k);
        lemma_replaced_size(facts, set, f);
        let a = after[k].len();
        let b = set.filter(|h: FactId| reach::is_dominated(facts, f.inputs(), h)).len();
        let c = set.len();
        assert(a * each + b * each == c * each + each) by (nonlinear_arith)
            requires
                a + b == c + 1,
        ;
        if !heads.contains_key(k) {
            assert(c == 0);
            assert(c * each == 0) by (nonlinear_arith)
                requires
                    c == 0,
            ;
        }
    }
    lemma_sets_changed(heads, after, keys, entry, each, added, removed);
}

/// The bytes of a table that a new value joins at some keys.
proof fn lemma_joined_charged<K, V>(
    m: Map<K, Set<V>>,
    keys: Set<K>,
    value: V,
    entry: nat,
    each: nat,
)
    requires
        continuation::is_finite(m),
        keys.finite(),
    ensures
        accounting::sets_bytes(multimap::joined_all(m, keys, value), entry, each)
            == accounting::sets_bytes(m, entry, each) + sums::sum(
            keys,
            |k: K|
                costs::due(!m.contains_key(k), entry) + costs::due(
                    !multimap::at(m, k).contains(value),
                    each,
                ),
        ),
{
    let after = multimap::joined_all(m, keys, value);
    let removed = |k: K| 0nat;
    let added = |k: K|
        costs::due(!m.contains_key(k), entry) + costs::due(
            !multimap::at(m, k).contains(value),
            each,
        );
    assert(after.dom() =~= m.dom().union(keys));
    assert forall|k: K| #[trigger] keys.contains(k) implies entry + after[k].len() * each + removed(
        k,
    ) == (if m.contains_key(k) {
        entry + m[k].len() * each
    } else {
        0
    }) + added(k) by {
        let set = multimap::at(m, k);
        assert(after[k] == set.insert(value));
        let a = after[k].len();
        let c = set.len();
        if set.contains(value) {
            assert(set.insert(value) =~= set);
        } else {
            assert(a == c + 1);
            assert(a * each == c * each + each) by (nonlinear_arith)
                requires
                    a == c + 1,
            ;
        }
        if !m.contains_key(k) {
            assert(c * each == 0) by (nonlinear_arith)
                requires
                    c == 0,
            ;
        }
    }
    lemma_sets_changed(m, after, keys, entry, each, added, removed);
    lemma_sum_zero(keys, removed);
}

proof fn lemma_sum_const<A>(set: Set<A>, f: spec_fn(A) -> nat, each: nat)
    requires
        set.finite(),
        forall|x: A| #[trigger] f(x) == each,
    ensures
        sums::sum(set, f) == set.len() * each,
    decreases set.len(),
{
    if set.len() > 0 {
        let rest = set.remove(set.choose());
        lemma_sum_const(rest, f, each);
        let a = set.len();
        let b = rest.len();
        assert(set.contains(set.choose())) by {
            if !(exists|z: A| set.contains(z)) {
                assert(set =~= Set::empty());
            }
        }
        assert(a * each == b * each + each) by (nonlinear_arith)
            requires
                a == b + 1,
        ;
    } else {
        let a = set.len();
        assert(a * each == 0) by (nonlinear_arith)
            requires
                a == 0,
        ;
    }
}

/// The bytes of a set that gains members.
proof fn lemma_set_charged<A>(set: Set<A>, keys: Set<A>, each: nat)
    requires
        set.finite(),
        keys.finite(),
    ensures
        set.union(keys).len() * each == set.len() * each + sums::sum(
            keys,
            |k: A| costs::due(!set.contains(k), each),
        ),
{
    let f = |k: A| each;
    let added = |k: A| costs::due(!set.contains(k), each);
    let removed = |k: A| 0nat;
    lemma_sum_changed(set, keys, f, f, added, removed);
    lemma_sum_zero(keys, removed);
    lemma_sum_const(set.union(keys), f, each);
    lemma_sum_const(set, f, each);
}

/// The bytes of a table that a value joins at one key.
proof fn lemma_one_charged<K, V>(m: Map<K, Set<V>>, key: K, value: V, entry: nat, each: nat)
    requires
        continuation::is_finite(m),
    ensures
        accounting::sets_bytes(multimap::joined(m, key, value), entry, each)
            == accounting::sets_bytes(m, entry, each) + costs::due(!m.contains_key(key), entry)
            + costs::due(!multimap::at(m, key).contains(value), each),
{
    let keys = set![key];
    let added = |k: K|
        costs::due(!m.contains_key(k), entry) + costs::due(
            !multimap::at(m, k).contains(value),
            each,
        );
    lemma_joined_charged(m, keys, value, entry, each);
    assert(multimap::joined(m, key, value) =~= multimap::joined_all(m, keys, value));
    sums::lemma_sum_insert(Set::<K>::empty(), added, key);
    sums::lemma_sum_empty(added);
    assert(Set::<K>::empty().insert(key) =~= keys);
}

/// The bytes of a table of rows some of which are replaced.
proof fn lemma_rows_charged(rows: Map<FactId, RowView>, changes: Map<FactId, RowView>)
    requires
        rows.dom().finite(),
        changes.dom().finite(),
    ensures
        accounting::rows_bytes(rows.union_prefer_right(changes)) + accounting::rows_bytes(
            rows.restrict(changes.dom()),
        ) == accounting::rows_bytes(rows) + accounting::rows_bytes(changes),
{
    let after = rows.union_prefer_right(changes);
    let keys = changes.dom();
    let f = |id: FactId| accounting::row_bytes(rows[id]);
    let g = |id: FactId| accounting::row_bytes(after[id]);
    let added = |id: FactId| accounting::row_bytes(changes[id]);
    let removed = |id: FactId|
        if rows.contains_key(id) {
            accounting::row_bytes(rows[id])
        } else {
            0
        };
    lemma_sum_changed(rows.dom(), keys, f, g, added, removed);
    assert(after.dom() =~= rows.dom().union(keys));
    let cut = rows.restrict(keys);
    let shared = rows.dom().intersect(keys);
    let fresh = keys.difference(rows.dom());
    assert(cut.dom() =~= shared);
    let h = |id: FactId| accounting::row_bytes(cut[id]);
    sums::lemma_sum_same(shared, h, removed);
    lemma_sum_apart(shared, fresh, removed);
    assert(shared.union(fresh) =~= keys);
    let zero = |id: FactId| 0nat;
    sums::lemma_sum_same(fresh, removed, zero);
    lemma_sum_zero(fresh, zero);
}

/// Whether the indexes of a graph are finite, and name facts at hand as heads.
pub open spec fn is_measured(g: GraphView) -> bool {
    let ix = g.index;
    &&& continuation::is_finite(ix.cell_heads)
    &&& continuation::is_finite(ix.authority_heads)
    &&& continuation::is_finite(ix.authority_facts)
    &&& continuation::is_finite(ix.selectors)
    &&& continuation::is_finite(ix.stand_down)
    &&& ix.cells.finite()
    &&& ix.provenance.dom().finite()
    &&& forall|c: ExclusiveCell| #[trigger]
        ix.cell_heads.contains_key(c) ==> ix.cell_heads[c].subset_of(g.facts.dom())
    &&& forall|s: DeviceId| #[trigger]
        ix.authority_heads.contains_key(s) ==> ix.authority_heads[s].subset_of(g.facts.dom())
}

/// What admitting a fact is charged to the indexes is exactly what they come
/// to keep resident more, and less.
pub proof fn index_charge_is_exact(g: GraphView, f: FactView, rows: Map<FactId, RowView>)
    requires
        canon::is_history(g.facts),
        canon::extends(g.facts, f),
        is_measured(g),
        f.participants() == f.head_subjects(),
        rows.dom().finite(),
        provenance::planned(g, f) == Ok::<Map<FactId, RowView>, crate::error::SemanticError>(rows),
        costs::exact_delta(g, f) is Ok,
    ensures
        accounting::residency(admission::indexed(g.index, g.facts.insert(f.id, f), f.id, rows))
            + costs::exact_delta(g, f)->Ok_0.removed == accounting::residency(g.index)
            + costs::exact_delta(g, f)->Ok_0.added,
{
    reveal(costs::exact_delta);
    let ix = g.index;
    let facts = g.facts;
    let all = facts.insert(f.id, f);
    let after = admission::indexed(ix, all, f.id, rows);
    let head = accounting::size::<FactId>();
    let cell = accounting::size::<ExclusiveCell>();
    let cell_entry = accounting::size::<(ExclusiveCell, OrdSet<FactId>)>();
    let entry = accounting::size::<(DeviceId, OrdSet<FactId>)>();
    let choice_entry = accounting::size::<(DeviceId, OrdSet<Selection>)>();
    let choice = accounting::size::<Selection>();
    let cells = f.content.body.cells().to_set();
    let subjects = f.participants();
    assert(subjects.finite()) by {
        let about = f.content.body.subjects(f.content.author);
        assert(f.head_subjects().subset_of(about));
        vstd::set_lib::lemma_set_subset_finite(about, f.head_subjects());
    }
    assert(all.contains_key(f.id) && all[f.id] == f);
    // cells
    lemma_set_charged(ix.cells, cells, cell);
    lemma_heads_charged(facts, f, ix.cell_heads, cells, cell_entry, head);
    let a1 = |c: ExclusiveCell| costs::due(!ix.cells.contains(c), cell);
    let a2 = |c: ExclusiveCell| costs::due(!ix.cell_heads.contains_key(c), cell_entry) + head;
    let a = |c: ExclusiveCell| costs::cell_share(g, c);
    lemma_sum_plus(cells, a1, a2, a);
    let r1 = |c: ExclusiveCell|
        multimap::at(ix.cell_heads, c).filter(
            |h: FactId| reach::is_dominated(facts, f.inputs(), h),
        ).len() * head;
    let q1 = |c: ExclusiveCell| costs::replaced_share(facts, ix.cell_heads, f, c);
    sums::lemma_sum_same(cells, r1, q1);
    // subjects
    lemma_joined_charged(ix.authority_facts, subjects, f.id, entry, head);
    lemma_heads_charged(facts, f, ix.authority_heads, subjects, entry, head);
    let b1 = |s: DeviceId|
        costs::due(!ix.authority_facts.contains_key(s), entry) + costs::due(
            !multimap::at(ix.authority_facts, s).contains(f.id),
            head,
        );
    let b2 = |s: DeviceId| costs::due(!ix.authority_heads.contains_key(s), entry) + head;
    let b = |s: DeviceId| costs::subject_share(g, f.id, s);
    lemma_sum_plus(subjects, b1, b2, b);
    let r2 = |s: DeviceId|
        multimap::at(ix.authority_heads, s).filter(
            |h: FactId| reach::is_dominated(facts, f.inputs(), h),
        ).len() * head;
    let q2 = |s: DeviceId| costs::replaced_share(facts, ix.authority_heads, f, s);
    sums::lemma_sum_same(subjects, r2, q2);
    // the rest
    if let BodyView::AuthorityLineageResolution { subject, selected_head, .. } = f.content.body {
        lemma_one_charged(
            ix.selectors,
            subject,
            Selection { selector: f.id, selected: selected_head },
            choice_entry,
            choice,
        );
    }
    if let Some(target) = f.content.body.stands_down() {
        lemma_one_charged(ix.stand_down, target, f.id, entry, head);
    }
    lemma_rows_charged(ix.provenance, rows);
}

} // verus!

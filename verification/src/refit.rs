//! The provenance of a history that the limits hold can be planned again.

use vstd::prelude::*;

use crate::accounting;
use crate::canon;
use crate::continuity;
use crate::error::SemanticError;
use crate::fact::Facts;
use crate::graph;
use crate::graph::{AuthoritySelectorRelation, GraphView, RowView};
use crate::ids::FactId;
use crate::order;
use crate::ordset;
use crate::provenance;
use crate::provenance::PlanView;
use crate::rebuild;
use crate::sums;

verus! {

/// Whether rows are part of other rows.
spec fn is_part(small: Map<FactId, RowView>, whole: Map<FactId, RowView>) -> bool {
    forall|id: FactId| #[trigger]
        small.contains_key(id) ==> whole.contains_key(id) && small[id].dom().subset_of(
            whole[id].dom(),
        )
}

/// Part of some rows takes no more than all of them.
proof fn lemma_part_is_less(small: Map<FactId, RowView>, whole: Map<FactId, RowView>)
    requires
        whole.dom().finite(),
        forall|id: FactId| #[trigger] whole.contains_key(id) ==> whole[id].dom().finite(),
        is_part(small, whole),
    ensures
        small.dom().finite(),
        accounting::rows_bytes(small) <= accounting::rows_bytes(whole),
    decreases whole.dom().len(),
{
    assert(small.dom().subset_of(whole.dom()));
    vstd::set_lib::lemma_set_subset_finite(whole.dom(), small.dom());
    let f = |id: FactId| accounting::row_bytes(small[id]);
    let g = |id: FactId| accounting::row_bytes(whole[id]);
    lemma_sum_less(small.dom(), f, g, small, whole);
    sums::lemma_sum_subset(small.dom(), whole.dom(), g);
}

proof fn lemma_sum_less(
    set: Set<FactId>,
    f: spec_fn(FactId) -> nat,
    g: spec_fn(FactId) -> nat,
    small: Map<FactId, RowView>,
    whole: Map<FactId, RowView>,
)
    requires
        set.finite(),
        set.subset_of(small.dom()),
        is_part(small, whole),
        forall|id: FactId| #[trigger] whole.contains_key(id) ==> whole[id].dom().finite(),
        f == (|id: FactId| accounting::row_bytes(small[id])),
        g == (|id: FactId| accounting::row_bytes(whole[id])),
    ensures
        sums::sum(set, f) <= sums::sum(set, g),
    decreases set.len(),
{
    if set.len() > 0 {
        let x = set.choose();
        assert(set.contains(x)) by {
            if !(exists|z: FactId| set.contains(z)) {
                assert(set =~= Set::empty());
            }
        }
        assert(small.dom().contains(x));
        assert(small.contains_key(x));
        lemma_sum_less(set.remove(x), f, g, small, whole);
        vstd::set_lib::lemma_len_subset(small[x].dom(), whole[x].dom());
        let a = small[x].dom().len();
        let b = whole[x].dom().len();
        let each = accounting::size::<(FactId, AuthoritySelectorRelation)>();
        assert(a * each <= b * each) by (nonlinear_arith)
            requires
                a <= b,
        ;
    }
}

/// A row that is entered or replaced takes what it is counted.
proof fn lemma_row_entered(changes: Map<FactId, RowView>, id: FactId, prior: RowView, s: FactId, r: AuthoritySelectorRelation)
    requires
        changes.dom().finite(),
        prior.dom().finite(),
        changes.contains_key(id) ==> changes[id] == prior,
    ensures
        accounting::rows_bytes(changes.insert(id, prior.insert(s, r))) == accounting::rows_bytes(
            changes,
        ) + (if changes.contains_key(id) {
            0
        } else {
            accounting::row_bytes(prior)
        }) + (if prior.contains_key(s) {
            0
        } else {
            accounting::size::<(FactId, AuthoritySelectorRelation)>()
        }),
{
    let row = prior.insert(s, r);
    let after = changes.insert(id, row);
    let rest = changes.dom().remove(id);
    let f = |x: FactId| accounting::row_bytes(changes[x]);
    let g = |x: FactId| accounting::row_bytes(after[x]);
    let each = accounting::size::<(FactId, AuthoritySelectorRelation)>();
    assert(after.dom() =~= rest.insert(id));
    sums::lemma_sum_insert(rest, g, id);
    sums::lemma_sum_same(rest, f, g);
    if changes.contains_key(id) {
        sums::lemma_sum_remove(changes.dom(), f, id);
    } else {
        assert(rest =~= changes.dom());
    }
    if prior.contains_key(s) {
        assert(row.dom() =~= prior.dom());
    } else {
        assert(row.dom() =~= prior.dom().insert(s));
        let a = row.dom().len();
        let b = prior.dom().len();
        assert(a * each == b * each + each) by (nonlinear_arith)
            requires
                a == b + 1,
        ;
    }
}

/// What rows a whole history has, and that the limits hold them.
spec fn is_fitting(g: GraphView) -> bool {
    let whole = canon::provenance_of(g.facts);
    &&& canon::is_history(g.facts)
    &&& g.fence.staged_cold_pending == 0
    &&& accounting::rows_bytes(whole) <= g.setting.limits.max_database_bytes
}

proof fn lemma_whole_finite(facts: Facts)
    requires
        facts.dom().finite(),
    ensures
        canon::provenance_of(facts).dom().finite(),
        forall|id: FactId| #[trigger]
            canon::provenance_of(facts).contains_key(id) ==> canon::provenance_of(
                facts,
            )[id].dom().finite(),
{
    let rows = canon::provenance_of(facts);
    assert forall|id: FactId| #[trigger] rows.dom().contains(id) implies facts.dom().contains(id) by {
        let s = choose|s: FactId| #[trigger] canon::is_related(facts, id, s);
    }
    vstd::set_lib::lemma_set_subset_finite(facts.dom(), rows.dom());
    assert forall|id: FactId| #[trigger] rows.contains_key(id) implies rows[id].dom().finite() by {
        assert(rows[id].dom().subset_of(facts.dom()));
        vstd::set_lib::lemma_set_subset_finite(facts.dom(), rows[id].dom());
    }
}

/// The relations to one selector can be entered.
proof fn lemma_ids_fit(
    g: GraphView,
    st: PlanView,
    some: Set<FactId>,
    s0: FactId,
    ids: Seq<FactId>,
    n: int,
)
    requires
        is_fitting(g),
        g.index.provenance == canon::provenance_to(g.facts, some),
        g.facts.contains_key(s0),
        g.facts[s0].is_selector(),
        ids.no_duplicates(),
        forall|i: int| 0 <= i < ids.len() ==> g.facts.contains_key(#[trigger] ids[i]),
        0 <= n <= ids.len(),
        forall|id: FactId| #[trigger]
            st.changes.contains_key(id) ==> st.changes[id] == canon::row_to(g.facts, some, id),
        is_part(st.changes, canon::provenance_of(g.facts)),
        st.bytes == accounting::rows_bytes(st.changes),
    ensures
        ({
            let out = provenance::plan_ids(
                g,
                g.facts,
                st,
                s0,
                canon::selected(g.facts[s0]),
                ids,
                n,
            );
            &&& out is Ok
            &&& is_part(out->Ok_0.changes, canon::provenance_of(g.facts))
            &&& out->Ok_0.bytes == accounting::rows_bytes(out->Ok_0.changes)
        }),
    decreases n,
{
    if n > 0 {
        let facts = g.facts;
        let whole = canon::provenance_of(facts);
        let branch = canon::selected(facts[s0]);
        let prior = |id: FactId| canon::row_to(facts, some, id);
        lemma_ids_fit(g, st, some, s0, ids, n - 1);
        assert forall|id: FactId| !#[trigger] st.changes.contains_key(id) implies provenance::row_at(
            g.index.provenance,
            id,
        ) == prior(id) by {
            canon::lemma_row_at(facts, some, id);
        }
        canon::lemma_plan_ids(g, facts, st, s0, branch, ids, n - 1, prior);
        let before = provenance::plan_ids(g, facts, st, s0, branch, ids, n - 1)->Ok_0;
        let id = ids[n - 1];
        continuity::lemma_walkable(facts, id);
        let relation = provenance::relation_between(facts, id, s0, branch);
        if relation.holds() {
            let short = ids.take(n - 1);
            assert(!short.contains(id)) by {
                if short.contains(id) {
                    let j = choose|j: int| 0 <= j < short.len() && short[j] == id;
                    assert(ids[j] == ids[n - 1]);
                }
            }
            assert(before.changes.contains_key(id) ==> before.changes[id] == prior(id));
            canon::lemma_row_at(facts, some, id);
            lemma_whole_finite(facts);
            lemma_part_is_less(before.changes, whole);
            assert(canon::is_related(facts, id, s0));
            assert(whole.contains_key(id));
            let row = prior(id).insert(s0, relation);
            assert forall|s: FactId| #[trigger] row.dom().contains(s) implies whole[id].dom().contains(
                s,
            ) by {
                if s != s0 {
                    assert(canon::is_related(facts, id, s));
                }
            }
            assert(prior(id).dom().subset_of(whole[id].dom()));
            vstd::set_lib::lemma_set_subset_finite(whole[id].dom(), prior(id).dom());
            lemma_row_entered(before.changes, id, prior(id), s0, relation);
            let after = before.changes.insert(id, row);
            assert(is_part(after, whole));
            lemma_part_is_less(after, whole);
        }
    }
}

/// A resident selector can be planned again.
proof fn lemma_selector_fits(g: GraphView, some: Set<FactId>, s0: FactId)
    requires
        is_fitting(g),
        g.index.provenance == canon::provenance_to(g.facts, some),
        g.facts.contains_key(s0),
        g.facts[s0].is_selector(),
    ensures
        provenance::planned(g, g.facts[s0]) is Ok,
{
    reveal(provenance::planned);
    let facts = g.facts;
    let f = facts[s0];
    let whole = canon::provenance_of(facts);
    let all = facts.insert(f.id, f);
    assert(all =~= facts);
    lemma_whole_finite(facts);
    canon::lemma_row_at(facts, some, s0);
    canon::lemma_nothing_inherited(facts, some, s0, f.content.parents.len() as int);
    let row = canon::row_to(facts, some, s0);
    let none = Map::<FactId, RowView>::empty();
    let zero = |id: FactId| accounting::row_bytes(none[id]);
    sums::lemma_sum_empty(zero);
    assert(none.dom() =~= Set::<FactId>::empty());
    assert(accounting::rows_bytes(none) == 0);
    let single = none.insert(s0, row);
    if row.dom() != Set::<FactId>::empty() {
        assert(exists|s: FactId| #[trigger] row.dom().contains(s)) by {
            if !(exists|s: FactId| #[trigger] row.dom().contains(s)) {
                assert(row.dom() =~= Set::<FactId>::empty());
            }
        }
        let s = choose|s: FactId| #[trigger] row.dom().contains(s);
        assert(canon::is_related(facts, s0, s));
        assert(whole.contains_key(s0));
        assert(row.dom().subset_of(whole[s0].dom()));
        assert(is_part(single, whole));
        lemma_part_is_less(single, whole);
        let one = |id: FactId| accounting::row_bytes(single[id]);
        sums::lemma_sum_insert(Set::<FactId>::empty(), one, s0);
        sums::lemma_sum_empty(one);
        assert(single.dom() =~= Set::<FactId>::empty().insert(s0));
        assert(accounting::rows_bytes(single) == accounting::row_bytes(row));
    }
    let st = provenance::plan_start(g, f)->Ok_0;
    assert(provenance::plan_start(g, f) is Ok);
    let contexts = provenance::contexts_of(g, f)->Ok_0;
    assert(contexts.dom() =~= set![s0]);
    let list = order::ascending(contexts.dom());
    ordset::lemma_listing(contexts.dom());
    assert(list.contains(s0));
    assert(list.len() == 1) by {
        assert(set![s0].len() == 1);
    }
    assert(list[0] == s0);
    let branch = canon::selected(f);
    assert(contexts[s0] == branch);
    assert(facts.contains_key(branch));
    continuity::lemma_walkable(facts, branch);
    let ids = order::ascending(all.dom());
    ordset::lemma_listing(all.dom());
    assert forall|i: int| 0 <= i < ids.len() implies facts.contains_key(#[trigger] ids[i]) by {
        assert(ids.contains(ids[i]));
    }
    lemma_ids_fit(g, st, some, s0, ids, ids.len() as int);
    assert(provenance::plan_contexts(g, all, st, contexts, list, 0) == Ok::<
        PlanView,
        SemanticError,
    >(st));
    assert(provenance::plan_contexts(g, all, st, contexts, list, 1) is Ok);
}

proof fn lemma_all_fit(g: GraphView, ids: Seq<FactId>, n: int)
    requires
        is_fitting(g),
        g.index.provenance == Map::<FactId, RowView>::empty(),
        ids.no_duplicates(),
        0 <= n <= ids.len(),
        forall|i: int|
            0 <= i < ids.len() ==> g.facts.contains_key(#[trigger] ids[i])
                && g.facts[ids[i]].is_selector(),
    ensures
        rebuild::with_all_planned(g, ids, n) is Ok,
    decreases n,
{
    if n > 0 {
        lemma_all_fit(g, ids, n - 1);
        canon::lemma_with_planned(g, ids, n - 1);
        lemma_selector_fits(
            rebuild::with_planned(g, ids, n - 1),
            ids.take(n - 1).to_set(),
            ids[n - 1],
        );
    }
}

/// A rebuild of a complete graph gives the indexes of its facts, where the
/// limits hold their provenance.
pub proof fn rebuild_gives_the_indexes(g: GraphView)
    requires
        g.is_complete(),
        g.fence.staged_cold_pending == 0,
        canon::is_history(g.facts),
        canon::is_acyclic(g.facts),
        accounting::rows_bytes(canon::provenance_of(g.facts)) <= g.setting.limits.max_database_bytes,
    ensures
        rebuild::rebuilt_index(g) == canon::index_of(g.facts),
{
    let facts = g.facts;
    canon::fresh_indexes_are_canonical(facts);
    let bare = GraphView { index: rebuild::fresh_index(facts), ..g };
    let chosen = facts.dom().filter(|id: FactId| facts[id].is_selector());
    let ids = rebuild::selector_ids(facts);
    vstd::set_lib::lemma_set_subset_finite(facts.dom(), chosen);
    ordset::lemma_listing(chosen);
    assert forall|i: int| 0 <= i < ids.len() implies facts.contains_key(#[trigger] ids[i])
        && facts[ids[i]].is_selector() by {
        assert(ids.contains(ids[i]));
    }
    lemma_all_fit(bare, ids, ids.len() as int);
    canon::rebuilt_indexes_are_canonical(g);
}

/// Planning all selectors over the provenance of all of them changes nothing.
proof fn lemma_replanned(g: GraphView, ids: Seq<FactId>, n: int)
    requires
        is_fitting(g),
        g.index.provenance == canon::provenance_of(g.facts),
        0 <= n <= ids.len(),
        forall|i: int|
            0 <= i < ids.len() ==> g.facts.contains_key(#[trigger] ids[i])
                && g.facts[ids[i]].is_selector(),
    ensures
        rebuild::with_all_planned(g, ids, n) == Ok::<GraphView, SemanticError>(g),
    decreases n,
{
    if n > 0 {
        lemma_replanned(g, ids, n - 1);
        let facts = g.facts;
        let some = facts.dom().filter(|id: FactId| facts[id].is_selector());
        let s0 = ids[n - 1];
        let whole = canon::provenance_of(facts);
        let made = canon::provenance_to(facts, some);
        assert forall|id: FactId| #[trigger] whole.contains_key(id) <==> made.contains_key(id) by {
            if whole.contains_key(id) {
                let s = choose|s: FactId| #[trigger] canon::is_related(facts, id, s);
                assert(canon::is_related(facts, id, s) && some.contains(s));
            }
            if made.contains_key(id) {
                let s = choose|s: FactId| #[trigger]
                    canon::is_related(facts, id, s) && some.contains(s);
                assert(canon::is_related(facts, id, s));
            }
        }
        assert forall|id: FactId| #[trigger] whole.contains_key(id) implies whole[id]
            == made[id] by {
            assert(whole[id] =~= made[id]);
        }
        assert(whole =~= made);
        lemma_selector_fits(g, some, s0);
        canon::lemma_planned_again(g, some, s0);
        assert(some.insert(s0) =~= some);
        let rows = provenance::planned(g, facts[s0])->Ok_0;
        assert(rebuild::with_rows(g, rows) =~= g);
    }
}

/// A closed part of a graph that is all of some history has the indexes of it,
/// where the limits hold them.
pub proof fn scoped_part_has_the_indexes(g: GraphView, ids: Set<FactId>)
    requires
        canon::is_history(g.facts.restrict(ids)),
        canon::is_acyclic(g.facts.restrict(ids)),
        g.facts.restrict(ids).dom().len() <= usize::MAX,
        accounting::residency(canon::index_of(g.facts.restrict(ids)))
            <= g.setting.limits.max_database_bytes,
    ensures
        rebuild::scoped_whole(g, ids) matches Ok(c) && c.facts == g.facts.restrict(ids) && c.index
            == canon::index_of(c.facts) && c.indexes_current() && c.setting == g.setting && c.cache
            is None,
{
    let facts = g.facts.restrict(ids);
    let start = GraphView { facts, ..graph::started(g.setting) };
    rebuild_gives_the_indexes(start);
    rebuild::lemma_rebuilt_frame(start);
    let part = rebuild::scoped(g, ids);
    let selectors = rebuild::selector_ids(facts);
    let chosen = facts.dom().filter(|id: FactId| facts[id].is_selector());
    vstd::set_lib::lemma_set_subset_finite(facts.dom(), chosen);
    ordset::lemma_listing(chosen);
    assert forall|i: int| 0 <= i < selectors.len() implies facts.contains_key(
        #[trigger] selectors[i],
    ) && facts[selectors[i]].is_selector() by {
        assert(selectors.contains(selectors[i]));
    }
    lemma_replanned(part, selectors, selectors.len() as int);
}

} // verus!

//! What a record gives back of a graph whose history was retired.

use vstd::prelude::*;

use crate::admission;
use crate::aggregate;
use crate::aggregate::GroupView;
use crate::canon;
use crate::capture;
use crate::causal_order;
use crate::cold;
use crate::content::ExclusiveCell;
use crate::costs;
use crate::costs::CostView;
use crate::coverage;
use crate::device::DeviceId;
use crate::error::SemanticError;
use crate::exactness;
use crate::fact::{Facts, FactView};
use crate::graph;
use crate::graph::{GraphView, IndexView, ProjectionView, RowView, Selection};
use crate::ids::FactId;
use crate::impact;
use crate::index;
use crate::journal;
use crate::journal::PreflightView;
use crate::multimap;
use crate::order;
use crate::ordset;
use crate::projection;
use crate::provenance;
use crate::provenance::PlanView;
use crate::quarantine;
use crate::reach;
use crate::rebuild;
use crate::retry;
use crate::retry::RetryView;
use crate::rollback;
use crate::rollback::RollbackView;
use crate::soundness;
use crate::sweep;
use crate::undo;

verus! {

/// Whether a graph holds a part of its history, with indexes that a rebuild
/// keeps.
pub open spec fn is_cold(g: GraphView) -> bool {
    &&& !g.is_complete()
    &&& g.index == rebuild::cold_index(g.index, g.facts)
    &&& g.indexes_current()
    &&& g.facts.dom().finite()
}

/// Whether a graph is another one again, with its indexes.  The cached
/// projection is the other's or none; where the other projects what its facts
/// give, both project the same.
pub open spec fn is_given_back(now: GraphView, base: GraphView) -> bool {
    &&& now == (GraphView { cache: now.cache, ..base })
    &&& now.cache is None || now.cache == base.cache
    &&& projection::current(base) == projection::projected(base.reading())
        ==> projection::current(now) == projection::current(base)
}

/// Whether a record covers how the indexes of a graph differ from those of
/// `base`.
pub open spec fn index_covered(rb: RollbackView, base: GraphView, g: GraphView) -> bool {
    &&& capture::covers(rb.provenance, base.index.provenance, g.index.provenance)
    &&& capture::covers(rb.authority_heads, base.index.authority_heads, g.index.authority_heads)
    &&& capture::covers(rb.cell_heads, base.index.cell_heads, g.index.cell_heads)
    &&& rebuild::resident_selections(g.index.selectors, base.facts)
        == rebuild::resident_selections(base.index.selectors, base.facts)
    &&& base.facts.dom().subset_of(g.facts.dom())
}

/// Whether the indexes of two graphs differ at most where one more fact has
/// entries.
pub open spec fn index_within(f: FactView, g: GraphView, h: GraphView) -> bool {
    let one = Set::<FactView>::empty().insert(f);
    &&& coverage::agree(
        g.index.provenance,
        h.index.provenance,
        rollback::rows_touched(g, one),
    )
    &&& coverage::agree(
        g.index.authority_heads,
        h.index.authority_heads,
        rollback::subjects_touched(one),
    )
    &&& coverage::agree(
        g.index.cell_heads,
        h.index.cell_heads,
        rollback::cells_touched(one),
    )
    &&& forall|facts: Facts|
        !facts.contains_key(f.id) ==> #[trigger] rebuild::resident_selections(
            h.index.selectors,
            facts,
        ) == rebuild::resident_selections(g.index.selectors, facts)
    &&& g.facts.dom().subset_of(h.facts.dom())
}

/// The rows that a plan may hold.
spec fn is_planned_for(g: GraphView, f: FactView, st: PlanView) -> bool {
    forall|id: FactId| #[trigger]
        st.changes.contains_key(id) ==> id == f.id || (g.facts.contains_key(id)
            && (g.fence.staged_cold_pending != 0 || f.is_selector()))
}

proof fn lemma_plan_ids_touch(
    g: GraphView,
    f: FactView,
    st: PlanView,
    selector: FactId,
    selected: FactId,
    ids: Seq<FactId>,
    n: int,
)
    requires
        is_planned_for(g, f, st),
        g.fence.staged_cold_pending != 0 || f.is_selector(),
        0 <= n <= ids.len(),
        forall|i: int|
            0 <= i < ids.len() ==> g.facts.insert(f.id, f).contains_key(#[trigger] ids[i]),
    ensures
        provenance::plan_ids(
            g,
            g.facts.insert(f.id, f),
            st,
            selector,
            selected,
            ids,
            n,
        ) matches Ok(end) ==> is_planned_for(g, f, end),
    decreases n,
{
    if n > 0 {
        lemma_plan_ids_touch(g, f, st, selector, selected, ids, n - 1);
        assert(g.facts.insert(f.id, f).contains_key(ids[n - 1]));
    }
}

proof fn lemma_plan_contexts_touch(
    g: GraphView,
    f: FactView,
    st: PlanView,
    contexts: Map<FactId, FactId>,
    list: Seq<FactId>,
    n: int,
)
    requires
        is_planned_for(g, f, st),
        g.facts.dom().finite(),
        g.fence.staged_cold_pending != 0 || f.is_selector() || list.len() == 0,
        0 <= n <= list.len(),
    ensures
        provenance::plan_contexts(
            g,
            g.facts.insert(f.id, f),
            st,
            contexts,
            list,
            n,
        ) matches Ok(end) ==> is_planned_for(g, f, end),
    decreases n,
{
    if n > 0 {
        lemma_plan_contexts_touch(g, f, st, contexts, list, n - 1);
        let all = g.facts.insert(f.id, f);
        if let Ok(before) = provenance::plan_contexts(g, all, st, contexts, list, n - 1) {
            let ids = order::ascending(all.dom());
            assert(all.dom() =~= g.facts.dom().insert(f.id));
            ordset::lemma_listing(all.dom());
            assert forall|i: int| 0 <= i < ids.len() implies all.contains_key(
                #[trigger] ids[i],
            ) by {
                assert(ids.to_set().contains(ids[i]));
            }
            lemma_plan_ids_touch(
                g,
                f,
                before,
                list[n - 1],
                contexts[list[n - 1]],
                ids,
                ids.len() as int,
            );
        }
    }
}

/// A fact changes its own row, and others only as a typed selector or beside
/// staged history.
pub proof fn lemma_planned_touch(g: GraphView, f: FactView)
    requires
        g.facts.dom().finite(),
    ensures
        provenance::planned(g, f) matches Ok(rows) ==> rows.dom().subset_of(
            rollback::rows_touched(g, Set::<FactView>::empty().insert(f)),
        ),
{
    reveal(provenance::planned);
    let one = Set::<FactView>::empty().insert(f);
    assert(one.contains(f));
    if let (Ok(st), Ok(contexts)) = (provenance::plan_start(g, f), provenance::contexts_of(g, f)) {
        let list = order::ascending(contexts.dom());
        assert(is_planned_for(g, f, st));
        if g.fence.staged_cold_pending == 0 && !f.is_selector() {
            assert(contexts.dom() =~= Set::<FactId>::empty());
            ordset::lemma_listing(contexts.dom());
            assert(list.len() == 0);
        }
        lemma_plan_contexts_touch(g, f, st, contexts, list, list.len() as int);
    }
}

/// What a selector selects leaves with it.
proof fn lemma_selection_leaves(g: GraphView, f: FactView, facts: Facts)
    requires
        !facts.contains_key(f.id),
    ensures
        rebuild::resident_selections(
            index::with_metadata(g.index, g.facts.insert(f.id, f), f.id).selectors,
            facts,
        ) == rebuild::resident_selections(g.index.selectors, facts),
{
    let was = g.index.selectors;
    let now = index::with_metadata(g.index, g.facts.insert(f.id, f), f.id).selectors;
    let a = rebuild::resident_selections(was, facts);
    let b = rebuild::resident_selections(now, facts);
    assert forall|d: DeviceId| #[trigger] a.contains_key(d) <==> b.contains_key(
        d,
    ) by {
        if a.contains_key(d) {
            let s = choose|s: Selection| #[trigger]
                was[d].contains(s) && facts.contains_key(s.selector);
            assert(now[d].contains(s));
        }
        if b.contains_key(d) {
            let s = choose|s: Selection| #[trigger]
                now[d].contains(s) && facts.contains_key(s.selector);
            assert(multimap::at(was, d).contains(s));
            assert(was[d].contains(s));
        }
    }
    assert forall|d: DeviceId| #[trigger] a.contains_key(d) implies a[d] == b[d] by {
        assert(a[d] =~= b[d]);
    }
    assert(a =~= b);
}

/// An offered fact changes the indexes where it has entries.
proof fn lemma_offered_index(
    g: GraphView,
    f: FactView,
    reserved: bool,
    supplied: Option<ProjectionView>,
    cost: Option<CostView>,
    staged: Set<FactId>,
)
    requires
        g.indexes_current(),
        g.facts.dom().finite(),
        cost is Some ==> !g.facts.contains_key(f.id),
    ensures
        ({
            let h = admission::offered(g, f, reserved, supplied, cost, staged).0;
            &&& index_within(f, g, h)
            &&& h.facts.dom().finite()
            &&& g.facts.contains_key(f.id) ==> h.index == g.index && h.facts == g.facts
        }),
{
    reveal(admission::offered);
    reveal(admission::entered);
    reveal(admission::cleared);
    reveal(admission::screened);
    admission::lemma_screened(g, f);
    let one = Set::<FactView>::empty().insert(f);
    assert(one.contains(f));
    let h = admission::offered(g, f, reserved, supplied, cost, staged).0;
    let bare = GraphView { cache: None, ..g };
    lemma_planned_touch(g, f);
    coverage::lemma_planned_alike(bare, g, f);
    assert forall|facts: Facts| !facts.contains_key(f.id) implies #[trigger] rebuild::resident_selections(
        h.index.selectors,
        facts,
    ) == rebuild::resident_selections(g.index.selectors, facts) by {
        lemma_selection_leaves(g, f, facts);
    }
    assert forall|s: DeviceId| f.head_subjects().contains(
        s,
    ) implies #[trigger] rollback::subjects_touched(one).contains(s) by {}
    assert forall|c: ExclusiveCell| f.content.body.cells().to_set().contains(
        c,
    ) implies #[trigger] rollback::cells_touched(one).contains(c) by {
        assert(f.advances(c));
    }
}

proof fn lemma_map_covers<K, V>(
    saved: Map<K, Option<V>>,
    base: Map<K, V>,
    g: Map<K, V>,
    h: Map<K, V>,
    keys: Set<K>,
    touched: Set<K>,
)
    requires
        capture::covers(saved, base, g),
        coverage::agree(g, h, touched),
        touched.subset_of(keys),
    ensures
        capture::covers(capture::noted_all(saved, g, keys), base, h),
{
    capture::noting_keeps_coverage(saved, base, g, keys);
    let more = capture::noted_all(saved, g, keys);
    assert forall|k: K| !#[trigger] more.contains_key(k) implies capture::held(h, k)
        == capture::held(base, k) by {
        assert(!touched.contains(k));
    }
}

/// Noting the entries of a fact covers what the fact changes.
proof fn lemma_noted_index(
    rb: RollbackView,
    base: GraphView,
    g: GraphView,
    h: GraphView,
    scope: rollback::ScopeView,
    candidate: Option<FactView>,
    f: FactView,
)
    requires
        index_covered(rb, base, g),
        index_within(f, g, h),
        rollback::indexed_facts(g, scope.ids, candidate).contains(f),
        !base.facts.contains_key(f.id),
    ensures
        index_covered(rollback::captured(rb, g, scope, candidate), base, h),
{
    let one = Set::<FactView>::empty().insert(f);
    let facts = rollback::indexed_facts(g, scope.ids, candidate);
    assert(one.contains(f));
    assert forall|x: FactView| #[trigger] one.contains(x) implies facts.contains(x) by {}
    assert(rollback::rows_touched(g, one).subset_of(rollback::rows_touched(g, facts)));
    assert(rollback::subjects_touched(one).subset_of(rollback::subjects_touched(facts)));
    assert(rollback::cells_touched(one).subset_of(rollback::cells_touched(facts)));
    lemma_map_covers(
        rb.provenance,
        base.index.provenance,
        g.index.provenance,
        h.index.provenance,
        rollback::rows_touched(g, facts),
        rollback::rows_touched(g, one),
    );
    lemma_map_covers(
        rb.authority_heads,
        base.index.authority_heads,
        g.index.authority_heads,
        h.index.authority_heads,
        rollback::subjects_touched(facts),
        rollback::subjects_touched(one),
    );
    lemma_map_covers(
        rb.cell_heads,
        base.index.cell_heads,
        g.index.cell_heads,
        h.index.cell_heads,
        rollback::cells_touched(facts),
        rollback::cells_touched(one),
    );
}

/// Noting more keeps the indexes covered.
proof fn lemma_more_index(
    rb: RollbackView,
    base: GraphView,
    g: GraphView,
    scope: rollback::ScopeView,
    candidate: Option<FactView>,
)
    requires
        index_covered(rb, base, g),
    ensures
        index_covered(rollback::captured(rb, g, scope, candidate), base, g),
{
    let facts = rollback::indexed_facts(g, scope.ids, candidate);
    capture::noting_keeps_coverage(
        rb.provenance,
        base.index.provenance,
        g.index.provenance,
        rollback::rows_touched(g, facts),
    );
    capture::noting_keeps_coverage(
        rb.authority_heads,
        base.index.authority_heads,
        g.index.authority_heads,
        rollback::subjects_touched(facts),
    );
    capture::noting_keeps_coverage(
        rb.cell_heads,
        base.index.cell_heads,
        g.index.cell_heads,
        rollback::cells_touched(facts),
    );
}

/// A record that covers a retired graph and its indexes gives both back.
pub proof fn covered_retired_graph_is_restored(rb: RollbackView, base: GraphView, g: GraphView)
    requires
        is_cold(base),
        coverage::covered(rb, base, g),
        index_covered(rb, base, g),
        rb.full is None,
        rb.cache == base.cache,
    ensures
        is_given_back(rollback::restored_graph(rb, g), base),
{
    coverage::covered_graph_is_restored(rb, base, g);
    let now = rollback::restored_graph(rb, g);
    reveal(rollback::restored_graph);
    let back = rollback::reverted(rb, g);
    rebuild::lemma_rebuilt_frame(back);
    capture::covered_map_is_restored(rb.facts, base.facts, g.facts);
    capture::covered_map_is_restored(
        rb.provenance,
        base.index.provenance,
        g.index.provenance,
    );
    capture::covered_map_is_restored(
        rb.authority_heads,
        base.index.authority_heads,
        g.index.authority_heads,
    );
    capture::covered_map_is_restored(
        rb.cell_heads,
        base.index.cell_heads,
        g.index.cell_heads,
    );
    assert(!back.is_complete());
    assert(now.index == rebuild::cold_index(back.index, base.facts));
    assert(rebuild::cold_index(back.index, base.facts) =~= rebuild::cold_index(
        base.index,
        base.facts,
    ));
    assert(now.index == base.index);
    assert(now.reading() == base.reading());
}

/// A refused fact leaves a retired graph as it was, with its indexes.
pub proof fn refusal_gives_back_a_retired_graph(g: GraphView, f: FactView)
    requires
        is_cold(g),
    ensures
        admission::admitted(g, f).1 is Err ==> is_given_back(admission::admitted(g, f).0, g),
{
    let rb = admission::recorded(g, f);
    let after = admission::offered(g, f, false, None, None, Set::empty()).0;
    undo::lemma_recorded(g, f);
    lemma_recorded_index(g, f);
    covered_retired_graph_is_restored(rb, g, after);
}

/// The record of an admission covers its indexes.
proof fn lemma_recorded_index(g: GraphView, f: FactView)
    requires
        is_cold(g),
    ensures
        index_covered(
            admission::recorded(g, f),
            g,
            admission::offered(g, f, false, None, None, Set::empty()).0,
        ),
{
    let scope = rollback::scope_admission(g, f);
    lemma_offered_index(g, f, false, None, None, Set::empty());
    assert(index_covered(rollback::begun(g), g, g));
    let h = admission::offered(g, f, false, None, None, Set::empty()).0;
    if g.facts.contains_key(f.id) {
        lemma_more_index(rollback::begun(g), g, g, scope, Some(f));
    } else {
        lemma_noted_index(rollback::begun(g), g, g, h, scope, Some(f), f);
    }
}

/// A record taken before an admission gives a retired graph back after it,
/// whatever became of the fact.
pub proof fn record_gives_back_a_retired_graph(g: GraphView, f: FactView)
    requires
        is_cold(g),
    ensures
        is_given_back(
            rollback::restored_graph(admission::recorded(g, f), admission::admitted(g, f).0),
            g,
        ),
{
    let rb = admission::recorded(g, f);
    let h = admission::admitted(g, f).0;
    undo::lemma_recorded(g, f);
    lemma_recorded_index(g, f);
    refusal_gives_back_a_retired_graph(g, f);
    if admission::admitted(g, f).1 is Err {
        let scope = rollback::scope_admission(g, f);
        coverage::lemma_begun(g);
        coverage::lemma_captured(rollback::begun(g), g, g, scope, Some(f));
        assert(coverage::covered(rb, g, h));
        assert(index_covered(rollback::begun(g), g, g));
        lemma_more_index(rollback::begun(g), g, g, scope, Some(f));
    }
    covered_retired_graph_is_restored(rb, g, h);
}

/// One more retried waiter keeps the indexes covered.
proof fn lemma_retried_index(st: RetryView, id: FactId, staged: Set<FactId>, base: GraphView)
    requires
        quarantine::owned(st.g),
        st.g.indexes_current(),
        retry::is_countable(st.g, 0),
        index_covered(st.rb, base, st.g),
    ensures
        index_covered(
            retry::retried(st, id, staged).rb,
            base,
            retry::retried(st, id, staged).g,
        ),
{
    reveal(retry::tried);
    let g = st.g;
    let scope = coverage::scope_retry(g, id);
    let (h, found) = quarantine::removed(g, id);
    let k = retry::tried(g, id, staged).0;
    lemma_more_index(st.rb, base, g, scope, None);
    assert(h.index == g.index && h.facts == g.facts && h.fence == g.fence);
    if let Ok(Some(f)) = found {
        assert(f == g.quarantine.facts[id]);
        lemma_offered_index(h, f, true, None, None, staged);
        let offer = admission::offered(h, f, true, None, None, staged).0;
        if costs::cost_of(h, f) is Ok {
            assert(k.index == offer.index && k.facts == offer.facts);
            if g.facts.contains_key(f.id) {
            } else {
                let one = Set::<FactView>::empty().insert(f);
                assert(rollback::rows_touched(h, one) =~= rollback::rows_touched(g, one));
                assert(index_within(f, g, k));
                assert(scope.ids.contains(id));
                assert(rollback::stored(g, id) == Some(f));
                assert(rollback::indexed_facts(g, scope.ids, None).contains(f));
                lemma_noted_index(st.rb, base, g, k, scope, None, f);
            }
        }
    }
}

proof fn lemma_retried_list_index(
    st: RetryView,
    list: Seq<FactId>,
    n: int,
    staged: Set<FactId>,
    base: GraphView,
)
    requires
        quarantine::owned(st.g),
        st.g.indexes_current(),
        retry::is_countable(st.g, 0),
        index_covered(st.rb, base, st.g),
        0 <= n <= list.len(),
    ensures
        ({
            let end = retry::retried_list(st, list, n, staged);
            &&& quarantine::owned(end.g)
            &&& end.g.indexes_current()
            &&& retry::is_countable(end.g, 0)
            &&& index_covered(end.rb, base, end.g)
        }),
    decreases n,
{
    if n > 0 {
        lemma_retried_list_index(st, list, n - 1, staged, base);
        let before = retry::retried_list(st, list, n - 1, staged);
        if before.refusal is None {
            retry::lemma_retried(before, list[n - 1], staged, base);
            lemma_retried_index(before, list[n - 1], staged, base);
        }
    }
}

proof fn lemma_retried_all_index(st: RetryView, limit: nat, staged: Set<FactId>, base: GraphView)
    requires
        quarantine::owned(st.g),
        st.g.indexes_current(),
        retry::is_countable(st.g, 0),
        index_covered(st.rb, base, st.g),
    ensures
        index_covered(
            retry::retried_all(st, limit, staged).rb,
            base,
            retry::retried_all(st, limit, staged).g,
        ),
    decreases limit - st.budget,
{
    let list = retry::frontier(st, limit);
    if list.len() > 0 {
        lemma_retried_list_index(st, list, list.len() as int, staged, base);
        let next = retry::retried_list(st, list, list.len() as int, staged);
        if next.refusal is Some || next.budget <= st.budget || next.budget > limit {
        } else {
            lemma_retried_all_index(next, limit, staged, base);
        }
    }
}

/// A journaled admission of a fact with its own preflight covers the indexes.
proof fn lemma_applied_index(
    g: GraphView,
    f: FactView,
    pf: PreflightView,
    beside: Option<Seq<FactId>>,
    budget: nat,
)
    requires
        is_cold(g),
        quarantine::owned(g),
        retry::is_countable(g, 1),
        pf.is_priced(f),
        !(pf.admission is AlreadyPresent) ==> !g.facts.contains_key(f.id),
    ensures
        ({
            let a = journal::applied(g, f, pf, Seq::empty(), None, beside, budget);
            match a.result {
                Err(_) => is_given_back(a.g, g),
                Ok(j) => {
                    &&& is_given_back(journal::rolled_back(j.rollback, j.staged, a.g), g)
                    &&& !(pf.admission is AlreadyPresent) ==> j.rollback is Some && index_covered(
                        j.rollback->0,
                        g,
                        a.g,
                    )
                },
            }
        }),
{
    reveal(journal::applied);
    reveal(journal::followed);
    reveal(cold::unstaged);
    let set = match beside {
        Some(list) => list.to_set(),
        None => Seq::<FactId>::empty().to_set(),
    };
    if pf.is_for(g, f) && !(pf.admission is AlreadyPresent) {
        let cost = pf.cost->0;
        let before = projection::base(g);
        let bare = GraphView { cache: None, ..g };
        assert(bare.reading() == g.reading());
        let rb = rollback::begun(g);
        coverage::lemma_begun(g);
        assert(coverage::covered(rb, g, bare));
        assert(index_covered(rb, g, bare));
        let prep = journal::prepared(bare, f, cost, rb, before, set);
        let offer = admission::offered(bare, f, false, Some(before), Some(cost), set);
        journal::lemma_prepared(bare, f, cost, rb, before, set, g);
        assert(quarantine::owned(bare));
        admission::lemma_offered(bare, f, false, Some(before), Some(cost), set);
        lemma_offered_index(bare, f, false, Some(before), Some(cost), set);
        lemma_prepared_index(bare, f, cost, rb, before, set, g, offer.0);
        covered_retired_graph_is_restored(prep.rb, g, offer.0);
        if let Ok(limit) = sweep::batch_limit(g.setting.limits) {
            let start = journal::retry_start(offer.0, prep.rb, budget);
            retry::lemma_offered_room(bare, f, false, Some(before), Some(cost), set);
            retry::lemma_retried_all(start, limit as nat, set, g);
            lemma_retried_all_index(start, limit as nat, set, g);
            let st = retry::retried_all(start, limit as nat, set);
            covered_retired_graph_is_restored(st.rb, g, st.g);
        }
    }
}

/// The record taken before a journaled offer covers the indexes.
proof fn lemma_prepared_index(
    g: GraphView,
    f: FactView,
    cost: CostView,
    rb: RollbackView,
    before: ProjectionView,
    staged: Set<FactId>,
    base: GraphView,
    h: GraphView,
)
    requires
        index_covered(rb, base, g),
        index_within(f, g, h),
        !base.facts.contains_key(f.id),
    ensures
        index_covered(journal::prepared(g, f, cost, rb, before, staged).rb, base, h),
{
    reveal(journal::prepared);
    let seeds = g.quarantine.ready.insert(f.id);
    let wide = rollback::scope_closure(g, seeds);
    let first = rollback::captured(rb, g, wide, None);
    lemma_more_index(rb, base, g, wide, None);
    let touched = impact::impact(g.reading(), f, staged).and(
        journal::waiting_impact(g, rollback::closure(g, seeds), staged),
    );
    let cells = capture::sampled(before.cells, touched.cells);
    let stand_down = capture::sampled(before.stand_down, touched.subjects);
    let second = rollback::with_sparse(first, cells, stand_down);
    assert(index_covered(second, base, g));
    let scope = journal::scope_candidate(g, f, cost);
    assert(rollback::indexed_facts(g, scope.ids, Some(f)).contains(f));
    lemma_noted_index(second, base, g, h, scope, Some(f), f);
}

/// A journaled admission that is refused leaves a retired graph as it was, and
/// one that is rolled back does too, with its indexes.
pub proof fn rollback_gives_back_a_retired_graph(g: GraphView, f: FactView)
    requires
        is_cold(g),
        quarantine::owned(g),
        retry::is_countable(g, 1),
    ensures
        match journal::journaled(g, f).1 {
            Err(_) => is_given_back(journal::journaled(g, f).0, g),
            Ok(j) => is_given_back(
                journal::rolled_back(j.rollback, j.staged, journal::journaled(g, f).0),
                g,
            ),
        },
{
    if let Ok(pf) = journal::preflighted(g, f) {
        admission::lemma_screened(g, f);
        lemma_applied_index(g, f, pf, None, 0);
    }
}

/// Entering heads leaves the other indexes.
proof fn lemma_heads_frame(ix: IndexView, facts: Facts, ids: Seq<FactId>)
    ensures
        ({
            let made = index::with_heads_of(ix, facts, ids);
            &&& made.authority_facts == ix.authority_facts
            &&& made.cells == ix.cells
            &&& made.stand_down == ix.stand_down
        }),
    decreases ids.len(),
{
    if ids.len() > 0 {
        lemma_heads_frame(ix, facts, ids.drop_last());
    }
}

/// What a rebuild of resident facts says of what they are about.
proof fn lemma_fresh_metadata(facts: Facts)
    requires
        facts.dom().finite(),
        forall|id: FactId| #[trigger] facts.contains_key(id) ==> facts[id].id == id,
    ensures
        ({
            let made = rebuild::fresh_index(facts);
            &&& made.authority_facts == index::participants_of(facts)
            &&& made.cells == index::cells_of(facts)
            &&& made.stand_down == index::stand_down_of(facts)
        }),
{
    let ids = order::ascending(facts.dom());
    ordset::lemma_listing(facts.dom());
    canon::lemma_metadata_of(facts, ids, ids.len() as int);
    assert(ids.take(ids.len() as int) =~= ids);
    assert(facts.restrict(ids.to_set()) =~= facts);
    lemma_heads_frame(
        index::with_metadata_of(graph::no_index(), facts, ids),
        facts,
        causal_order::causal_order(facts),
    );
}

/// A cell that some fact advances has a head.
proof fn lemma_cell_has_head(facts: Facts, c: ExclusiveCell) -> (t: FactId)
    requires
        exactness::is_signed_history(facts),
        index::cells_of(facts).contains(c),
    ensures
        canon::cell_heads_of(facts).contains_key(c),
        canon::cell_heads_of(facts)[c].contains(t),
        facts.contains_key(t),
        facts[t].advances(c),
{
    let list = choose|list: Seq<FactId>| #[trigger]
        causal_order::is_causal(facts, list) && list.to_set() == facts.dom();
    let x = choose|x: FactId| #[trigger] facts.contains_key(x) && facts[x].advances(c);
    assert(list.to_set().contains(x));
    let i = choose|i: int| 0 <= i < list.len() && list[i] == x;
    reach::lemma_reach_closed(reach::input_edges(facts), set![x]);
    assert(set![x].contains(x));
    let t = exactness::lemma_top_above(facts, list, exactness::cell_members(facts, c), x, i);
    t
}

/// Retirement of a sound graph that retires anything leaves one whose indexes
/// a rebuild keeps.
pub proof fn retired_graph_is_cold(g: GraphView)
    requires
        soundness::is_sound(g),
        cold::is_due(g),
        cold::retired(g).facts.dom().len() < g.facts.dom().len(),
    ensures
        is_cold(cold::retired(g)),
{
    reveal(cold::retired);
    let h = cold::retired(g);
    let heads = cold::live_rows(g, projection::current(g));
    let active = cold::active_selectors(g.reading(), heads);
    let kept = cold::kept_rows(g, projection::current(g), heads, active);
    let chosen = cold::kept_selectors(g, kept, active);
    let facts = h.facts;
    assert(facts == g.facts.restrict(kept));
    assert(facts.dom() =~= g.facts.dom().intersect(kept));
    vstd::set_lib::lemma_len_intersect(g.facts.dom(), kept);
    lemma_fresh_metadata(facts);
    let ix = h.index;
    let want = rebuild::cold_index(ix, facts);
    assert(ix == cold::kept_index(g, kept, chosen));
    assert(ix.provenance.restrict(facts.dom()) =~= ix.provenance) by {
        assert forall|id: FactId| #[trigger] ix.provenance.contains_key(id) implies facts.contains_key(
            id,
        ) by {
            assert(g.index.provenance.contains_key(id));
            let s = choose|s: FactId| #[trigger] canon::is_related(g.facts, id, s);
        }
    }
    assert(ix.cells =~= index::cells_of(facts)) by {
        assert forall|c: ExclusiveCell| #[trigger] index::cells_of(g.facts).contains(
            c,
        ) implies index::cells_of(facts).contains(c) by {
            let t = lemma_cell_has_head(g.facts, c);
            assert(multimap::members(g.index.cell_heads).contains(t));
            assert(heads.contains(t));
            assert(facts.contains_key(t));
        }
        assert forall|c: ExclusiveCell| #[trigger] index::cells_of(facts).contains(
            c,
        ) implies index::cells_of(g.facts).contains(c) by {
            let t = choose|t: FactId| #[trigger] facts.contains_key(t) && facts[t].advances(c);
            assert(g.facts.contains_key(t));
        }
    }
    assert(ix.stand_down =~= index::stand_down_of(facts)) by {
        lemma_cut_proofs(g.facts, kept);
    }
    assert(rebuild::resident_selections(ix.selectors, facts) =~= ix.selectors) by {
        assert forall|d: DeviceId| #[trigger] ix.selectors.contains_key(
            d,
        ) implies rebuild::resident_selections(ix.selectors, facts).contains_key(d)
            && rebuild::resident_selections(ix.selectors, facts)[d] == ix.selectors[d] by {
            let s = choose|s: Selection| #[trigger] cold::makes(facts, chosen, d, s);
            assert(ix.selectors[d].contains(s));
            assert forall|s: Selection| #[trigger] ix.selectors[d].contains(
                s,
            ) implies facts.contains_key(s.selector) by {
                assert(cold::makes(facts, chosen, d, s));
            }
            assert(rebuild::resident_selections(ix.selectors, facts)[d] =~= ix.selectors[d]);
        }
    }
    assert(ix =~= want);
}

/// The evidence among kept facts is the kept evidence.
proof fn lemma_cut_proofs(facts: Facts, kept: Set<FactId>)
    ensures
        cold::cut_sets(index::stand_down_of(facts), kept) == index::stand_down_of(
            facts.restrict(kept),
        ),
{
    let was = index::stand_down_of(facts);
    let a = cold::cut_sets(was, kept);
    let b = index::stand_down_of(facts.restrict(kept));
    let part = facts.restrict(kept);
    assert forall|d: DeviceId| #[trigger] a.contains_key(d) <==> b.contains_key(d) by {
        if a.contains_key(d) {
            let cut = was[d].intersect(kept);
            if forall|x: FactId| !cut.contains(x) {
                assert(cut =~= Set::<FactId>::empty());
            }
            let x = choose|x: FactId| cut.contains(x);
            assert(cut.contains(x));
            assert(part.contains_key(x) && part[x].content.body.stands_down() == Some(d));
        }
        if b.contains_key(d) {
            let x = choose|x: FactId| #[trigger]
                part.contains_key(x) && part[x].content.body.stands_down() == Some(d);
            assert(facts.contains_key(x));
            assert(was.contains_key(d));
            assert(was[d].intersect(kept).contains(x));
        }
    }
    assert forall|d: DeviceId| #[trigger] a.contains_key(d) implies a[d] == b[d] by {
        assert(a[d] =~= b[d]);
    }
    assert(a =~= b);
}

/// Whether every fact stands under its identifier.
pub open spec fn is_keyed(g: GraphView) -> bool {
    forall|id: FactId| #[trigger] g.facts.contains_key(id) ==> g.facts[id].id == id
}

/// A fact that joins a retired graph leaves indexes that a rebuild keeps.
proof fn lemma_joined_cold(g: GraphView, f: FactView, rows: Map<FactId, RowView>)
    requires
        is_cold(g),
        is_keyed(g),
        !g.facts.contains_key(f.id),
        provenance::planned(g, f) == Ok::<Map<FactId, RowView>, SemanticError>(rows),
    ensures
        ({
            let all = g.facts.insert(f.id, f);
            let ix = admission::indexed(g.index, all, f.id, rows);
            ix == rebuild::cold_index(ix, all)
        }),
{
    let facts = g.facts;
    let all = facts.insert(f.id, f);
    let ix = admission::indexed(g.index, all, f.id, rows);
    assert(all.dom() =~= facts.dom().insert(f.id));
    lemma_fresh_metadata(facts);
    lemma_fresh_metadata(all);
    let full = IndexView { selectors: canon::selections_of(facts), ..g.index };
    canon::lemma_metadata_advance(facts, f, full);
    lemma_planned_touch(g, f);
    let one = Set::<FactView>::empty().insert(f);
    assert(ix.provenance.restrict(all.dom()) =~= ix.provenance) by {
        assert forall|id: FactId| #[trigger] ix.provenance.contains_key(id) implies all.contains_key(
            id,
        ) by {
            if rows.contains_key(id) {
                assert(rollback::rows_touched(g, one).contains(id));
            } else {
                assert(g.index.provenance.contains_key(id));
                assert(g.index.provenance.restrict(facts.dom()).contains_key(id));
            }
        }
    }
    let was = g.index.selectors;
    let kept = rebuild::resident_selections(was, facts);
    assert(kept == was);
    let now = ix.selectors;
    let again = rebuild::resident_selections(now, all);
    assert forall|d: DeviceId| #[trigger] now.contains_key(d) implies again.contains_key(d)
        && again[d] == now[d] by {
        assert forall|x: Selection| #[trigger] now[d].contains(x) implies all.contains_key(
            x.selector,
        ) by {
            if multimap::at(was, d).contains(x) {
                assert(was.contains_key(d));
                assert(kept[d].contains(x));
            }
        }
        if was.contains_key(d) {
            assert(kept.contains_key(d));
            let x = choose|x: Selection| #[trigger]
                was[d].contains(x) && facts.contains_key(x.selector);
            assert(now[d].contains(x));
        } else {
            let x = Selection { selector: f.id, selected: canon::selected(f) };
            assert(now[d].contains(x));
        }
        assert(again[d] =~= now[d]);
    }
    assert(again =~= now);
    assert(ix =~= rebuild::cold_index(ix, all));
}

/// An offer to a retired graph that is not refused keeps what a rebuild keeps.
#[verifier::spinoff_prover]
#[verifier::rlimit(60)]
proof fn lemma_offered_cold(
    g: GraphView,
    f: FactView,
    reserved: bool,
    supplied: Option<ProjectionView>,
    cost: Option<CostView>,
)
    requires
        is_cold(g),
        is_keyed(g),
        quarantine::owned(g),
        retry::is_countable(g, 1),
        cost is Some ==> !g.facts.contains_key(f.id),
    ensures
        ({
            let (h, result) = admission::offered(g, f, reserved, supplied, cost, Set::empty());
            result is Ok ==> is_cold(h) && is_keyed(h)
        }),
{
    retry::lemma_offered_room(g, f, reserved, supplied, cost, Set::empty());
    lemma_offered_index(g, f, reserved, supplied, cost, Set::empty());
    reveal(admission::offered);
    reveal(admission::entered);
    reveal(admission::cleared);
    admission::lemma_screened(g, f);
    let bare = GraphView { cache: None, ..g };
    coverage::lemma_planned_alike(bare, g, f);
    if let Ok(rows) = provenance::planned(g, f) {
        if !g.facts.contains_key(f.id) {
            lemma_joined_cold(g, f, rows);
        }
    }
    assert(g.facts.insert(f.id, f).dom() =~= g.facts.dom().insert(f.id));
}

/// A retried waiter keeps a retired graph cold.
proof fn lemma_tried_cold(g: GraphView, id: FactId)
    requires
        is_cold(g),
        is_keyed(g),
        quarantine::owned(g),
        retry::is_countable(g, 0),
    ensures
        retry::tried(g, id, Set::empty()).1 is Ok ==> is_cold(
            retry::tried(g, id, Set::empty()).0,
        ) && is_keyed(retry::tried(g, id, Set::empty()).0),
{
    reveal(retry::tried);
    let (h, found) = quarantine::removed(g, id);
    if g.quarantine.facts.contains_key(id) {
        let f = g.quarantine.facts[id];
        quarantine::lemma_cost(g, f);
        if let Ok(cost) = costs::cost_of(g, f) {
            quarantine::lemma_dequeue(g, id, cost);
            assert(g.quarantine.facts.remove(id).dom() =~= g.quarantine.facts.dom().remove(id));
            assert(g.quarantine.facts.dom().contains(id));
            assert(retry::is_countable(h, 1));
            assert(h.index == g.index && h.facts == g.facts && h.fence == g.fence);
            assert(is_cold(h));
            lemma_offered_cold(h, f, true, None, None);
            admission::lemma_refused_unchanged(h, f, true);
        }
    }
}

proof fn lemma_retried_list_cold(st: RetryView, list: Seq<FactId>, n: int)
    requires
        is_cold(st.g),
        is_keyed(st.g),
        quarantine::owned(st.g),
        retry::is_countable(st.g, 0),
        st.refusal is None,
        0 <= n <= list.len(),
    ensures
        ({
            let end = retry::retried_list(st, list, n, Set::empty());
            &&& quarantine::owned(end.g)
            &&& retry::is_countable(end.g, 0)
            &&& end.refusal is None ==> is_cold(end.g) && is_keyed(end.g)
        }),
    decreases n,
{
    if n > 0 {
        lemma_retried_list_cold(st, list, n - 1);
        let before = retry::retried_list(st, list, n - 1, Set::empty());
        if before.refusal is None {
            retry::lemma_retried(before, list[n - 1], Set::empty(), before.g);
            lemma_tried_cold(before.g, list[n - 1]);
        }
    }
}

proof fn lemma_retried_all_cold(st: RetryView, limit: nat)
    requires
        is_cold(st.g),
        is_keyed(st.g),
        quarantine::owned(st.g),
        retry::is_countable(st.g, 0),
        st.refusal is None,
    ensures
        ({
            let end = retry::retried_all(st, limit, Set::empty());
            end.refusal is None ==> is_cold(end.g) && is_keyed(end.g)
        }),
    decreases limit - st.budget,
{
    let list = retry::frontier(st, limit);
    if list.len() > 0 {
        lemma_retried_list_cold(st, list, list.len() as int);
        let next = retry::retried_list(st, list, list.len() as int, Set::empty());
        if next.refusal is Some || next.budget <= st.budget || next.budget > limit {
        } else {
            lemma_retried_all_cold(next, limit);
        }
    }
}

/// A journaled admission to a retired graph keeps what a rebuild keeps.
proof fn lemma_applied_cold(
    g: GraphView,
    f: FactView,
    pf: PreflightView,
    beside: Option<Seq<FactId>>,
    budget: nat,
)
    requires
        is_cold(g),
        is_keyed(g),
        quarantine::owned(g),
        retry::is_countable(g, 1),
        pf.is_priced(f),
        !(pf.admission is AlreadyPresent) ==> !g.facts.contains_key(f.id),
        beside matches Some(list) ==> list.len() == 0,
    ensures
        is_cold(journal::applied(g, f, pf, Seq::empty(), None, beside, budget).g),
        is_keyed(journal::applied(g, f, pf, Seq::empty(), None, beside, budget).g),
{
    let a = journal::applied(g, f, pf, Seq::empty(), None, beside, budget);
    lemma_applied_index(g, f, pf, beside, budget);
    if a.result is Ok {
        reveal(journal::applied);
        reveal(journal::followed);
        let none = Set::<FactId>::empty();
        let set = match beside {
            Some(list) => list.to_set(),
            None => Seq::<FactId>::empty().to_set(),
        };
        assert(set =~= none);
        if !(pf.admission is AlreadyPresent) {
            let cost = pf.cost->0;
            let before = projection::base(g);
            let bare = GraphView { cache: None, ..g };
            assert(is_cold(bare));
            assert(quarantine::owned(bare));
            lemma_offered_cold(bare, f, false, Some(before), Some(cost));
            let (h, offered) = admission::offered(bare, f, false, Some(before), Some(cost), none);
            admission::lemma_offered(bare, f, false, Some(before), Some(cost), none);
            retry::lemma_offered_room(bare, f, false, Some(before), Some(cost), none);
            if offered->Ok_0 is Inserted {
                let prep = journal::prepared(
                    bare,
                    f,
                    cost,
                    journal::first_record(g, Seq::empty(), None),
                    before,
                    none,
                );
                let limit = sweep::batch_limit(g.setting.limits)->Ok_0;
                lemma_retried_all_cold(
                    journal::retry_start(h, prep.rb, budget),
                    limit as nat,
                );
            }
        }
    }
}

/// Selections among fewer facts are selections among the more.
proof fn lemma_selections_narrow(
    a: Map<DeviceId, Set<Selection>>,
    b: Map<DeviceId, Set<Selection>>,
    more: Facts,
    few: Facts,
)
    requires
        rebuild::resident_selections(a, more) == rebuild::resident_selections(b, more),
        few.dom().subset_of(more.dom()),
    ensures
        rebuild::resident_selections(a, few) == rebuild::resident_selections(b, few),
{
    let x = rebuild::resident_selections(a, few);
    let y = rebuild::resident_selections(b, few);
    let p = rebuild::resident_selections(a, more);
    let q = rebuild::resident_selections(b, more);
    assert forall|d: DeviceId, s: Selection|
        a.contains_key(d) && #[trigger] a[d].contains(s) && few.contains_key(
            s.selector,
        ) implies b.contains_key(d) && b[d].contains(s) by {
        assert(few.dom().contains(s.selector));
        assert(more.contains_key(s.selector));
        assert(p.contains_key(d) && p[d].contains(s));
        assert(q.contains_key(d) && q[d].contains(s));
    }
    assert forall|d: DeviceId, s: Selection|
        b.contains_key(d) && #[trigger] b[d].contains(s) && few.contains_key(
            s.selector,
        ) implies a.contains_key(d) && a[d].contains(s) by {
        assert(few.dom().contains(s.selector));
        assert(more.contains_key(s.selector));
        assert(q.contains_key(d) && q[d].contains(s));
        assert(p.contains_key(d) && p[d].contains(s));
    }
    assert forall|d: DeviceId| #[trigger] x.contains_key(d) <==> y.contains_key(d) by {
        if x.contains_key(d) {
            let s = choose|s: Selection| #[trigger]
                a[d].contains(s) && few.contains_key(s.selector);
            assert(b[d].contains(s));
        }
        if y.contains_key(d) {
            let s = choose|s: Selection| #[trigger]
                b[d].contains(s) && few.contains_key(s.selector);
            assert(a[d].contains(s));
        }
    }
    assert forall|d: DeviceId| #[trigger] x.contains_key(d) implies x[d] == y[d] by {
        assert(y.contains_key(d));
        assert(x[d] =~= y[d]);
    }
    assert(x =~= y);
}

/// A record that takes up another covers what both cover.
proof fn lemma_adopted_index(
    rb: RollbackView,
    inner: RollbackView,
    base: GraphView,
    mid: GraphView,
    now: GraphView,
)
    requires
        index_covered(rb, base, mid),
        index_covered(inner, mid, now),
    ensures
        index_covered(aggregate::adopted(rb, inner), base, now),
{
    aggregate::lemma_adopted_map(
        rb.provenance,
        inner.provenance,
        base.index.provenance,
        mid.index.provenance,
        now.index.provenance,
    );
    aggregate::lemma_adopted_map(
        rb.authority_heads,
        inner.authority_heads,
        base.index.authority_heads,
        mid.index.authority_heads,
        now.index.authority_heads,
    );
    aggregate::lemma_adopted_map(
        rb.cell_heads,
        inner.cell_heads,
        base.index.cell_heads,
        mid.index.cell_heads,
        now.index.cell_heads,
    );
    lemma_selections_narrow(
        now.index.selectors,
        mid.index.selectors,
        mid.facts,
        base.facts,
    );
}

/// A group on a retired graph stays undoable throughout, with the indexes.
proof fn lemma_grouped_cold(
    st: GroupView,
    facts: Seq<FactView>,
    n: int,
    base: GraphView,
    more: int,
)
    requires
        undo::is_undoable(st, base, more),
        is_cold(st.g),
        is_keyed(st.g),
        index_covered(st.rb, base, st.g),
        0 <= n <= more,
        n <= facts.len(),
    ensures
        ({
            let end = aggregate::grouped_upto(st, facts, n, Seq::empty());
            &&& undo::is_undoable(end, base, more - n)
            &&& is_cold(end.g)
            &&& is_keyed(end.g)
            &&& index_covered(end.rb, base, end.g)
        }),
    decreases n,
{
    if n > 0 {
        lemma_grouped_cold(st, facts, n - 1, base, more);
        let before = aggregate::grouped_upto(st, facts, n - 1, Seq::empty());
        undo::lemma_grouped_upto(st, facts, n, base, more);
        if before.stop is None {
            reveal(aggregate::grouped);
            let f = facts[n - 1];
            if let Ok(pf) = journal::preflighted(before.g, f) {
                if !(pf.admission is AlreadyPresent) {
                    admission::lemma_screened(before.g, f);
                    let beside = Some(Seq::<FactId>::empty());
                    lemma_applied_index(before.g, f, pf, beside, before.budget);
                    lemma_applied_cold(before.g, f, pf, beside, before.budget);
                    let a = journal::applied(
                        before.g,
                        f,
                        pf,
                        Seq::empty(),
                        None,
                        beside,
                        before.budget,
                    );
                    if let Ok(j) = a.result {
                        lemma_adopted_index(before.rb, j.rollback->0, base, before.g, a.g);
                    }
                }
            }
        }
    }
}

/// A group that is refused leaves a retired graph as it was, whatever its
/// inputs had changed until then, and one that is rolled back does too, with
/// its indexes.
pub proof fn group_rollback_gives_back_a_retired_graph(g: GraphView, facts: Seq<FactView>)
    requires
        is_cold(g),
        is_keyed(g),
        quarantine::owned(g),
        retry::is_countable(g, facts.len() as int),
    ensures
        match aggregate::batched(g, facts, Seq::empty()).1 {
            Err(_) => is_given_back(aggregate::batched(g, facts, Seq::empty()).0, g),
            Ok(j) => is_given_back(
                journal::rolled_back(
                    Some(j.rollback),
                    j.staged,
                    aggregate::batched(g, facts, Seq::empty()).0,
                ),
                g,
            ),
        },
{
    reveal(aggregate::batched);
    reveal(aggregate::closed_group);
    reveal(cold::staged);
    reveal(cold::unstaged);
    let none = Seq::<FactId>::empty();
    let no_history = Seq::<FactView>::empty();
    assert(cold::stage_check(g, no_history, 0) is Ok);
    let h = cold::staged(g, no_history).0;
    assert(h == g);
    let rb = rollback::begun(g);
    let base = projection::current(g);
    let touched = aggregate::group_impact(g, facts, none.to_set());
    let cells = capture::sampled(base.cells, touched.cells);
    let stand_down = capture::sampled(base.stand_down, touched.subjects);
    let start = aggregate::group_start(g, rollback::with_sparse(rb, cells, stand_down));
    coverage::lemma_begun(g);
    assert(coverage::covered(start.rb, g, g));
    assert(index_covered(start.rb, g, g));
    lemma_grouped_cold(start, facts, facts.len() as int, g, facts.len() as int);
    let st = aggregate::grouped_upto(start, facts, facts.len() as int, none);
    covered_retired_graph_is_restored(st.rb, g, st.g);
}

} // verus!

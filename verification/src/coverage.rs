//! When a record restores a graph.

use vstd::prelude::*;

use crate::admission;
use crate::capture;
use crate::costs::CostView;
use crate::fact::FactView;
use crate::graph::{GraphView, ProjectionView};
use crate::ids::FactId;
use crate::multimap;
use crate::provenance;
use crate::provenance::PlanView;
use crate::quarantine;
use crate::rebuild;
use crate::rollback;
use crate::rollback::{MembersView, RollbackView, ScopeView};

verus! {

/// Whether the record is true of `base`, and whatever it does not record is
/// in `now` as in `base`.
pub open spec fn members_cover(m: MembersView, base: Set<FactId>, now: Set<FactId>) -> bool {
    &&& m.held.subset_of(m.known)
    &&& forall|k: FactId| #[trigger] m.known.contains(k) ==> m.held.contains(k) == base.contains(k)
    &&& forall|k: FactId| !#[trigger] m.known.contains(k) ==> now.contains(k) == base.contains(k)
}

/// Whether the record covers how the quarantine and the retained usage of a
/// graph differ from those of `base`.
pub open spec fn custody_covered(rb: RollbackView, base: GraphView, g: GraphView) -> bool {
    &&& capture::covers(rb.quarantined, base.quarantine.facts, g.quarantine.facts)
    &&& capture::covers(rb.missing, base.quarantine.missing, g.quarantine.missing)
    &&& capture::covers(rb.waiting, base.quarantine.waiting, g.quarantine.waiting)
    &&& members_cover(rb.ready, base.quarantine.ready, g.quarantine.ready)
    &&& capture::covers(rb.by_author, base.quarantine.by_author, g.quarantine.by_author)
    &&& capture::covers(rb.retained, base.ledger.retained, g.ledger.retained)
    &&& rb.totals.quarantined_bytes == base.quarantine.bytes
    &&& rb.totals.quarantined_edges == base.quarantine.edges
    &&& g.setting == base.setting
}

/// Whether the record covers how a graph differs from `base`.
pub open spec fn covered(rb: RollbackView, base: GraphView, g: GraphView) -> bool {
    &&& custody_covered(rb, base, g)
    &&& capture::covers(rb.facts, base.facts, g.facts)
    &&& rb.totals == rollback::totals_of(base)
    &&& rb.fence == base.fence
    &&& rb.order_len == base.order.len()
    &&& base.order.is_prefix_of(g.order)
    &&& g.fence.staged_cold_pending == base.fence.staged_cold_pending
}

/// Whether the state of every key of a scope is on record.
pub open spec fn notes(rb: RollbackView, s: ScopeView) -> bool {
    &&& s.ids.subset_of(rb.facts.dom())
    &&& s.ids.subset_of(rb.quarantined.dom())
    &&& s.ids.subset_of(rb.missing.dom())
    &&& s.ids.subset_of(rb.ready.known)
    &&& s.dependencies.subset_of(rb.waiting.dom())
    &&& s.authors.subset_of(rb.by_author.dom())
    &&& s.authors.subset_of(rb.retained.dom())
}

/// Whether two maps agree at all keys but the given ones.
pub open spec fn agree<K, V>(a: Map<K, V>, b: Map<K, V>, but: Set<K>) -> bool {
    forall|k: K| !#[trigger] but.contains(k) ==> capture::held(a, k) == capture::held(b, k)
}

/// Whether the quarantine and the retained usage differ at the keys of a
/// scope alone.
pub open spec fn custody_within(s: ScopeView, g: GraphView, h: GraphView) -> bool {
    &&& agree(g.quarantine.facts, h.quarantine.facts, s.ids)
    &&& agree(g.quarantine.missing, h.quarantine.missing, s.ids)
    &&& forall|k: FactId| !#[trigger] s.ids.contains(k) ==> g.quarantine.ready.contains(k)
        == h.quarantine.ready.contains(k)
    &&& agree(g.quarantine.waiting, h.quarantine.waiting, s.dependencies)
    &&& agree(g.quarantine.by_author, h.quarantine.by_author, s.authors)
    &&& agree(g.ledger.retained, h.ledger.retained, s.authors)
    &&& g.setting == h.setting
}

/// Whether two graphs differ at the keys of a scope alone, and the second
/// only has more in its order.
pub open spec fn within(s: ScopeView, g: GraphView, h: GraphView) -> bool {
    &&& custody_within(s, g, h)
    &&& agree(g.facts, h.facts, s.ids)
    &&& g.order.is_prefix_of(h.order)
    &&& g.fence.staged_cold_pending == h.fence.staged_cold_pending
}

proof fn lemma_map_within<K, V>(
    saved: Map<K, Option<V>>,
    base: Map<K, V>,
    g: Map<K, V>,
    h: Map<K, V>,
    keys: Set<K>,
)
    requires
        capture::covers(saved, base, g),
        agree(g, h, keys),
        keys.subset_of(saved.dom()),
    ensures
        capture::covers(saved, base, h),
{
    assert forall|k: K| !#[trigger] saved.contains_key(k) implies capture::held(h, k)
        == capture::held(base, k) by {
        assert(!keys.contains(k));
    }
}

/// A change within recorded keys keeps the custody covered.
pub proof fn lemma_custody_within(
    rb: RollbackView,
    base: GraphView,
    g: GraphView,
    h: GraphView,
    s: ScopeView,
)
    requires
        custody_covered(rb, base, g),
        notes(rb, s),
        custody_within(s, g, h),
    ensures
        custody_covered(rb, base, h),
{
    lemma_map_within(rb.quarantined, base.quarantine.facts, g.quarantine.facts, h.quarantine.facts, s.ids);
    lemma_map_within(rb.missing, base.quarantine.missing, g.quarantine.missing, h.quarantine.missing, s.ids);
    lemma_map_within(
        rb.waiting,
        base.quarantine.waiting,
        g.quarantine.waiting,
        h.quarantine.waiting,
        s.dependencies,
    );
    lemma_map_within(
        rb.by_author,
        base.quarantine.by_author,
        g.quarantine.by_author,
        h.quarantine.by_author,
        s.authors,
    );
    lemma_map_within(
        rb.retained,
        base.ledger.retained,
        g.ledger.retained,
        h.ledger.retained,
        s.authors,
    );
    assert forall|k: FactId| !#[trigger] rb.ready.known.contains(k) implies h.quarantine.ready.contains(
        k,
    ) == base.quarantine.ready.contains(k) by {
        assert(!s.ids.contains(k));
    }
}

/// A change within recorded keys keeps a graph covered.
pub proof fn lemma_within(
    rb: RollbackView,
    base: GraphView,
    g: GraphView,
    h: GraphView,
    s: ScopeView,
)
    requires
        covered(rb, base, g),
        notes(rb, s),
        within(s, g, h),
    ensures
        covered(rb, base, h),
{
    lemma_custody_within(rb, base, g, h, s);
    lemma_map_within(rb.facts, base.facts, g.facts, h.facts, s.ids);
    assert forall|i: int| 0 <= i < base.order.len() implies base.order[i] == h.order[i] by {
        assert(base.order[i] == g.order[i]);
    }
}

/// Noting keeps what was on record, and puts the scope on record.
pub proof fn lemma_captured(
    rb: RollbackView,
    base: GraphView,
    g: GraphView,
    s: ScopeView,
    candidate: Option<FactView>,
)
    ensures
        notes(rollback::captured(rb, g, s, candidate), s),
        forall|old_scope: ScopeView| notes(rb, old_scope) ==> #[trigger] notes(
            rollback::captured(rb, g, s, candidate),
            old_scope,
        ),
        custody_covered(rb, base, g) ==> custody_covered(
            rollback::captured(rb, g, s, candidate),
            base,
            g,
        ),
        covered(rb, base, g) ==> covered(rollback::captured(rb, g, s, candidate), base, g),
{
    let more = rollback::captured(rb, g, s, candidate);
    if custody_covered(rb, base, g) {
        capture::noting_keeps_coverage(rb.quarantined, base.quarantine.facts, g.quarantine.facts, s.ids);
        capture::noting_keeps_coverage(rb.missing, base.quarantine.missing, g.quarantine.missing, s.ids);
        capture::noting_keeps_coverage(
            rb.waiting,
            base.quarantine.waiting,
            g.quarantine.waiting,
            s.dependencies,
        );
        capture::noting_keeps_coverage(
            rb.by_author,
            base.quarantine.by_author,
            g.quarantine.by_author,
            s.authors,
        );
        capture::noting_keeps_coverage(
            rb.retained,
            base.ledger.retained,
            g.ledger.retained,
            s.authors,
        );
        assert(members_cover(more.ready, base.quarantine.ready, g.quarantine.ready));
    }
    if covered(rb, base, g) {
        capture::noting_keeps_coverage(rb.facts, base.facts, g.facts, s.ids);
    }
}

/// A record that was just begun covers the graph that it was begun on.
pub proof fn lemma_begun(g: GraphView)
    ensures
        covered(rollback::begun(g), g, g),
{
    assert(g.order.is_prefix_of(g.order));
}

/// The keys that a retry of a quarantined fact can change.
pub open spec fn scope_retry(g: GraphView, id: FactId) -> ScopeView {
    if g.quarantine.facts.contains_key(id) {
        let f = g.quarantine.facts[id];
        ScopeView {
            ids: Set::empty().insert(id),
            dependencies: Set::empty(),
            authors: Set::empty().insert(f.content.author),
        }.and(rollback::scope_dependencies(g, f.inputs().insert(id)))
    } else {
        ScopeView {
            ids: Set::empty().insert(id),
            dependencies: Set::empty(),
            authors: Set::empty(),
        }
    }
}

/// Taking a fact out of the quarantine changes what a retry can change.
pub proof fn lemma_removed_within(g: GraphView, id: FactId)
    requires
        quarantine::owned(g),
    ensures
        within(scope_retry(g, id), g, quarantine::removed(g, id).0),
{
    let h = quarantine::removed(g, id).0;
    let s = scope_retry(g, id);
    assert(s.ids.contains(id));
    if g.quarantine.facts.contains_key(id) {
        let f = g.quarantine.facts[id];
        assert(s.authors.contains(f.content.author));
        assert forall|d: FactId| !#[trigger] s.dependencies.contains(d) implies capture::held(
            g.quarantine.waiting,
            d,
        ) == capture::held(h.quarantine.waiting, d) by {
            assert(!multimap::at(g.quarantine.missing, id).contains(d));
        }
    }
    assert(g.order.is_prefix_of(h.order));
}

/// What waits for a fact is in the scope of admitting it.
proof fn lemma_waiters_in_scope(g: GraphView, deps: Set<FactId>, d: FactId, w: FactId)
    requires
        deps.contains(d),
        multimap::at(g.quarantine.waiting, d).contains(w),
    ensures
        rollback::scope_dependencies(g, deps).ids.contains(w),
{
}

/// Offering a fact changes what is recorded for its admission.
pub proof fn lemma_offered_within(
    g: GraphView,
    f: FactView,
    reserved: bool,
    supplied: Option<ProjectionView>,
    cost: Option<CostView>,
    staged: Set<FactId>,
)
    requires
        cost matches Some(c) ==> admission::is_own(c, f),
    ensures
        custody_within(
            rollback::scope_admission(g, f),
            g,
            admission::offered(g, f, reserved, supplied, cost, staged).0,
        ) || !g.indexes_current(),
        g.indexes_current() ==> within(
            rollback::scope_admission(g, f),
            g,
            admission::offered(g, f, reserved, supplied, cost, staged).0,
        ),
{
    reveal(admission::offered);
    reveal(admission::entered);
    if g.indexes_current() {
        let s = rollback::scope_admission(g, f);
        let h = admission::offered(g, f, reserved, supplied, cost, staged).0;
        admission::lemma_screened(g, f);
        assert(s.ids.contains(f.id));
        assert(s.dependencies.contains(f.id));
        assert(s.authors.contains(f.content.author));
        assert(f.inputs().subset_of(s.dependencies));
        assert forall|w: FactId| !#[trigger] s.ids.contains(w) implies !multimap::at(
            g.quarantine.waiting,
            f.id,
        ).contains(w) by {
            if multimap::at(g.quarantine.waiting, f.id).contains(w) {
                lemma_waiters_in_scope(g, f.inputs().insert(f.id), f.id, w);
            }
        }
        assert(g.order.is_prefix_of(h.order));
    }
}

/// A record that covers the custody restores it.
pub proof fn covered_custody_is_restored(rb: RollbackView, base: GraphView, g: GraphView)
    requires
        custody_covered(rb, base, g),
    ensures
        admission::same_custody(rollback::restored_graph(rb, g), base),
{
    reveal(rollback::restored_graph);
    capture::covered_map_is_restored(rb.quarantined, base.quarantine.facts, g.quarantine.facts);
    capture::covered_map_is_restored(rb.missing, base.quarantine.missing, g.quarantine.missing);
    capture::covered_map_is_restored(rb.waiting, base.quarantine.waiting, g.quarantine.waiting);
    capture::covered_map_is_restored(
        rb.by_author,
        base.quarantine.by_author,
        g.quarantine.by_author,
    );
    capture::covered_map_is_restored(rb.retained, base.ledger.retained, g.ledger.retained);
    let ready = rollback::restored_members(g.quarantine.ready, rb.ready);
    assert forall|k: FactId| #[trigger] ready.contains(k) <==> base.quarantine.ready.contains(
        k,
    ) by {
        if rb.ready.known.contains(k) {
        } else {
            assert(!rb.ready.held.contains(k));
        }
    }
    assert(ready =~= base.quarantine.ready);
    rebuild::lemma_rebuilt_frame(rollback::reverted(rb, g));
    assert(rollback::restored_graph(rb, g).quarantine =~= base.quarantine);
}

/// Whether the indexes are what a rebuild derives from the facts, all of
/// which are resident.
pub open spec fn derived(g: GraphView) -> bool {
    &&& g.is_complete()
    &&& g.index == rebuild::rebuilt_index(g)
}

/// Whether two graphs give the same plans.
pub open spec fn plan_alike(a: GraphView, b: GraphView) -> bool {
    a.facts == b.facts && a.index == b.index && a.setting == b.setting
        && a.fence.staged_cold_pending == b.fence.staged_cold_pending
}

proof fn lemma_plan_ids_alike(
    a: GraphView,
    b: GraphView,
    all: crate::fact::Facts,
    st: PlanView,
    selector: FactId,
    selected: FactId,
    ids: Seq<FactId>,
    n: int,
)
    requires
        plan_alike(a, b),
    ensures
        provenance::plan_ids(a, all, st, selector, selected, ids, n) == provenance::plan_ids(
            b,
            all,
            st,
            selector,
            selected,
            ids,
            n,
        ),
    decreases n,
{
    if n > 0 {
        lemma_plan_ids_alike(a, b, all, st, selector, selected, ids, n - 1);
    }
}

proof fn lemma_plan_contexts_alike(
    a: GraphView,
    b: GraphView,
    all: crate::fact::Facts,
    st: PlanView,
    contexts: Map<FactId, FactId>,
    list: Seq<FactId>,
    n: int,
)
    requires
        plan_alike(a, b),
    ensures
        provenance::plan_contexts(a, all, st, contexts, list, n) == provenance::plan_contexts(
            b,
            all,
            st,
            contexts,
            list,
            n,
        ),
    decreases n,
{
    if n > 0 {
        lemma_plan_contexts_alike(a, b, all, st, contexts, list, n - 1);
        if let Ok(mid) = provenance::plan_contexts(a, all, st, contexts, list, n - 1) {
            let ids = crate::order::ascending(all.dom());
            lemma_plan_ids_alike(
                a,
                b,
                all,
                mid,
                list[n - 1],
                contexts[list[n - 1]],
                ids,
                ids.len() as int,
            );
        }
    }
}

/// Plans are read from the facts, the indexes and the limits alone.
pub proof fn lemma_planned_alike(a: GraphView, b: GraphView, f: FactView)
    requires
        plan_alike(a, b),
    ensures
        provenance::planned(a, f) == provenance::planned(b, f),
{
    reveal(provenance::planned);
    if let Ok(st) = provenance::plan_start(a, f) {
        if let Ok(contexts) = provenance::contexts_of(a, f) {
            let list = crate::order::ascending(contexts.dom());
            lemma_plan_contexts_alike(
                a,
                b,
                a.facts.insert(f.id, f),
                st,
                contexts,
                list,
                list.len() as int,
            );
        }
    }
}

proof fn lemma_with_planned_alike(a: GraphView, b: GraphView, ids: Seq<FactId>, n: int)
    requires
        plan_alike(a, b),
    ensures
        plan_alike(rebuild::with_planned(a, ids, n), rebuild::with_planned(b, ids, n)),
    decreases n,
{
    if n > 0 {
        lemma_with_planned_alike(a, b, ids, n - 1);
        let x = rebuild::with_planned(a, ids, n - 1);
        let y = rebuild::with_planned(b, ids, n - 1);
        lemma_planned_alike(x, y, x.facts[ids[n - 1]]);
    }
}

/// A rebuild reads the facts of a complete graph, and nothing else that a
/// graph holds but its limits.
pub proof fn lemma_rebuilt_index_alike(a: GraphView, b: GraphView)
    requires
        a.facts == b.facts,
        a.setting == b.setting,
        a.fence.staged_cold_pending == b.fence.staged_cold_pending,
        a.is_complete(),
        b.is_complete(),
    ensures
        rebuild::rebuilt_index(a) == rebuild::rebuilt_index(b),
{
    let ids = rebuild::selector_ids(a.facts);
    let x = GraphView { index: rebuild::fresh_index(a.facts), ..a };
    let y = GraphView { index: rebuild::fresh_index(b.facts), ..b };
    lemma_with_planned_alike(x, y, ids, ids.len() as int);
}

/// Whether a graph is another one again: all but the cached projection and
/// the derived indexes is the same, and the indexes are, where the other's
/// were what a rebuild derives.  The cached projection is the other's or none.
pub open spec fn is_back(now: GraphView, base: GraphView) -> bool {
    &&& now == (GraphView { index: now.index, cache: now.cache, ..base })
    &&& derived(base) ==> now.index == base.index
    &&& now.cache is None || now.cache == base.cache
}

/// A record that covers a graph restores it: every fact and its order, the
/// quarantine with its indexes and accounts, the counters and the revisions
/// come back as they were, and so do the derived indexes of a graph that
/// holds its whole history.
pub proof fn covered_graph_is_restored(rb: RollbackView, base: GraphView, g: GraphView)
    requires
        covered(rb, base, g),
        rb.full is None,
        rb.cache == base.cache,
    ensures
        is_back(rollback::restored_graph(rb, g), base),
{
    covered_custody_is_restored(rb, base, g);
    reveal(rollback::restored_graph);
    capture::covered_map_is_restored(rb.facts, base.facts, g.facts);
    let back = rollback::reverted(rb, g);
    rebuild::lemma_rebuilt_frame(back);
    if derived(base) {
        lemma_rebuilt_index_alike(back, base);
    }
    let r = rollback::restored_graph(rb, g);
    assert(rollback::cut(g.order, rb.order_len) =~= base.order);
    assert(r.facts == base.facts);
    assert(r.ledger =~= base.ledger);
    assert(r.fence == base.fence);
    assert(r =~= (GraphView { index: r.index, cache: r.cache, ..base }));
}

} // verus!

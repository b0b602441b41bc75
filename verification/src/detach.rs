//! Staged history leaves with the admission that it was staged for.

use vstd::prelude::*;

use crate::admission;
use crate::aggregate;
use crate::aggregate::GroupView;
use crate::capture;
use crate::cold;
use crate::costs::CostView;
use crate::coverage;
use crate::fact::FactView;
use crate::graph::{Fence, GraphView, ProjectionView};
use crate::ids::FactId;
use crate::journal;
use crate::linkage;
use crate::multimap;
use crate::order;
use crate::ordset;
use crate::projection;
use crate::quarantine;
use crate::reach;
use crate::rebuild;
use crate::retry;
use crate::retry::RetryView;
use crate::rollback;
use crate::rollback::{RollbackView, ScopeView};
use crate::sweep;
use crate::undo;

verus! {

/// Whether all that the quarantine has on its lists is in it, and waits for
/// what it is listed under.
pub open spec fn is_rostered(g: GraphView) -> bool {
    let q = g.quarantine;
    &&& forall|id: FactId| #[trigger] q.missing.contains_key(id) ==> q.facts.contains_key(id)
    &&& forall|id: FactId| #[trigger] q.ready.contains(id) ==> q.facts.contains_key(id)
    &&& forall|d: FactId, id: FactId| #[trigger]
        multimap::at(q.waiting, d).contains(id) ==> q.facts.contains_key(id) && multimap::at(
            q.missing,
            id,
        ).contains(d)
}

/// Whether the order lists nothing but facts that are held.
pub open spec fn is_listed(g: GraphView) -> bool {
    forall|i: int| 0 <= i < g.order.len() ==> g.facts.contains_key(#[trigger] g.order[i])
}

/// Where the waiters are linked to the graph, the lists of the quarantine are
/// of what is in it.
pub proof fn linked_graph_is_rostered(g: GraphView)
    requires
        linkage::is_linked(g),
    ensures
        is_rostered(g),
{
}

/// Whether some admitted facts are nowhere in the quarantine.
spec fn apart(g: GraphView, some: Set<FactId>) -> bool {
    &&& is_rostered(g)
    &&& some.subset_of(g.facts.dom())
    &&& forall|id: FactId| #[trigger] g.quarantine.facts.contains_key(id) ==> !some.contains(id)
}

/// Whether a record says nothing of some facts.
spec fn is_silent(rb: RollbackView, some: Set<FactId>) -> bool {
    forall|id: FactId| #[trigger] rb.facts.contains_key(id) ==> !some.contains(id)
}

/// Whether a record covers all but the revisions.
spec fn covered_but_fence(rb: RollbackView, base: GraphView, g: GraphView) -> bool {
    coverage::covered(RollbackView { fence: base.fence, ..rb }, base, g)
}

/// Whether a graph is another one with some rows attached.
spec fn is_attached(g: GraphView, h: GraphView, staged: Seq<FactId>) -> bool {
    &&& h == (GraphView { facts: h.facts, fence: h.fence, ..g })
    &&& h.facts.dom() == g.facts.dom().union(staged.to_set())
    &&& h.facts.dom().finite()
    &&& h.facts.dom().len() == g.facts.dom().len() + staged.len()
    &&& forall|id: FactId| #[trigger]
        g.facts.contains_key(id) ==> !staged.contains(id) && h.facts[id] == g.facts[id]
    &&& forall|id: FactId| #[trigger]
        staged.contains(id) ==> !g.quarantine.facts.contains_key(id)
}

proof fn lemma_stage_run(g: GraphView, history: Seq<FactView>, n: int)
    requires
        g.facts.dom().finite(),
        0 <= n <= history.len(),
    ensures
        ({
            let st = cold::stage_run(g, history, n);
            is_attached(g, GraphView { facts: st.facts, ..g }, st.staged) && st.staged.len() <= n
        }),
    decreases n,
{
    if n > 0 {
        lemma_stage_run(g, history, n - 1);
        let st = cold::stage_run(g, history, n - 1);
        let f = history[n - 1];
        let next = cold::stage_run(g, history, n);
        if st.refusal is None && !st.facts.contains_key(f.id)
            && !g.quarantine.facts.contains_key(f.id) {
            crate::content::lemma_push_set(st.staged, f.id);
            assert(next.facts.dom() =~= st.facts.dom().insert(f.id));
            assert(next.facts.dom() =~= g.facts.dom().union(next.staged.to_set()));
            assert forall|id: FactId| #[trigger]
                g.facts.contains_key(id) implies !next.staged.contains(id) && next.facts[id]
                == g.facts[id] by {
                assert(st.facts.dom().contains(id));
                assert(next.staged.contains(id) ==> next.staged.to_set().contains(id));
                assert(st.staged.to_set().contains(id) ==> st.staged.contains(id));
            }
            assert forall|id: FactId| #[trigger]
                next.staged.contains(id) implies !g.quarantine.facts.contains_key(id) by {
                assert(next.staged.to_set().contains(id));
                assert(st.staged.to_set().contains(id) ==> st.staged.contains(id));
            }
        }
    } else {
        assert(g.facts.dom() =~= g.facts.dom().union(Seq::<FactId>::empty().to_set()));
    }
}

/// The list without the members of a set that has none of them.
proof fn lemma_without_none(list: Seq<FactId>, gone: Set<FactId>)
    requires
        forall|i: int| 0 <= i < list.len() ==> !gone.contains(#[trigger] list[i]),
    ensures
        cold::without(list, gone) == list,
    decreases list.len(),
{
    reveal(Seq::filter);
    if list.len() > 0 {
        let rest = list.drop_last();
        assert forall|i: int| 0 <= i < rest.len() implies !gone.contains(#[trigger] rest[i]) by {
            assert(rest[i] == list[i]);
        }
        lemma_without_none(rest, gone);
        assert(!gone.contains(list[list.len() - 1]));
        assert(rest.push(list.last()) =~= list);
    }
}

/// What a list begins with stays where nothing of it is taken out.
proof fn lemma_without_tail(first: Seq<FactId>, list: Seq<FactId>, gone: Set<FactId>)
    requires
        first.is_prefix_of(list),
        forall|i: int| 0 <= i < first.len() ==> !gone.contains(#[trigger] first[i]),
    ensures
        first.is_prefix_of(cold::without(list, gone)),
    decreases list.len(),
{
    if list.len() == first.len() {
        assert(list =~= first);
        lemma_without_none(first, gone);
    } else {
        reveal(Seq::filter);
        let rest = list.drop_last();
        assert(first.is_prefix_of(rest)) by {
            assert(rest.subrange(0, first.len() as int) =~= list.subrange(0, first.len() as int));
        }
        lemma_without_tail(first, rest, gone);
        let kept = cold::without(rest, gone);
        if !gone.contains(list.last()) {
            assert(cold::without(list, gone) == kept.push(list.last()));
            assert(kept.push(list.last()).subrange(0, first.len() as int) =~= kept.subrange(
                0,
                first.len() as int,
            ));
        } else {
            assert(cold::without(list, gone) == kept);
        }
    }
}

/// Whether a graph is another one again: all but the cached projection and
/// the derived indexes is the same, and the indexes are, where the other's
/// were what a rebuild derives.  The cached projection is the other's or none,
/// or the graph answers with the same projection.
pub open spec fn is_returned(now: GraphView, base: GraphView) -> bool {
    &&& now == (GraphView { index: now.index, cache: now.cache, ..base })
    &&& coverage::derived(base) ==> now.index == base.index
    &&& now.cache is None || now.cache == base.cache || projection::current(now)
        == projection::current(base)
}

/// Detaching staged rows and restoring a record gives the graph as it was,
/// where the record gives back its facts.
proof fn lemma_let_go(rb: RollbackView, staged: Seq<FactId>, g: GraphView, k: GraphView)
    requires
        g.indexes_current(),
        is_listed(g),
        g.fence.staged_cold_pending == 0,
        k.fence.staged_cold_pending == staged.len() || k.fence.staged_cold_pending == 0,
        forall|id: FactId| #[trigger] g.facts.contains_key(id) ==> !staged.contains(id),
        coverage::custody_covered(rb, g, k),
        capture::restored(k.facts.remove_keys(staged.to_set()), rb.facts) == g.facts,
        rb.totals == rollback::totals_of(g),
        rb.order_len == g.order.len(),
        g.order.is_prefix_of(k.order),
        rb.fence == (Fence { indexed_fact_count: rb.fence.indexed_fact_count, ..g.fence }),
        match rb.full {
            Some(p) => p == projection::current(g),
            None => rb.fence == g.fence && rb.cache == g.cache,
        },
    ensures
        is_returned(journal::rolled_back(Some(rb), staged, k), g),
{
    reveal(cold::unstaged);
    reveal(rollback::restored_graph);
    let gone = staged.to_set();
    let u = cold::unstaged(k, staged);
    let r = journal::rolled_back(Some(rb), staged, k);
    if staged.len() > 0 {
        rebuild::lemma_rebuilt_frame(
            GraphView {
                facts: k.facts.remove_keys(gone),
                order: Seq::empty(),
                fence: Fence {
                    staged_cold_pending: 0,
                    facts_revision: (k.fence.facts_revision + 1) as u64,
                    ..k.fence
                },
                cache: None,
                ..k
            },
        );
    } else {
        assert(gone =~= Set::<FactId>::empty());
    }
    assert(u.facts =~= k.facts.remove_keys(gone));
    assert(u.fence.staged_cold_pending == 0);
    assert(u.quarantine =~= k.quarantine);
    assert(u.ledger.retained == k.ledger.retained);
    assert(u.setting == k.setting);
    assert(coverage::custody_covered(rb, g, u));
    coverage::covered_custody_is_restored(rb, g, u);
    assert forall|i: int| 0 <= i < g.order.len() implies !gone.contains(#[trigger] g.order[i]) by {
        assert(g.facts.contains_key(g.order[i]));
        assert(gone.contains(g.order[i]) ==> staged.contains(g.order[i]));
    }
    lemma_without_tail(g.order, k.order, gone);
    if staged.len() == 0 {
        lemma_without_none(k.order, gone);
    }
    assert(u.order == cold::without(k.order, gone));
    assert(rollback::cut(u.order, rb.order_len) =~= g.order);
    let back = rollback::reverted(rb, u);
    rebuild::lemma_rebuilt_frame(back);
    if coverage::derived(g) {
        coverage::lemma_rebuilt_index_alike(back, g);
    }
    assert(r.ledger =~= g.ledger);
    assert(r.fence == g.fence);
    assert(r =~= (GraphView { index: r.index, cache: r.cache, ..g }));
}

/// Detaching staged rows and restoring a record of the graph that had them
/// gives the graph as it was before they were attached.
proof fn lemma_detached(
    rb: RollbackView,
    staged: Seq<FactId>,
    g: GraphView,
    h: GraphView,
    k: GraphView,
)
    requires
        g.indexes_current(),
        is_listed(g),
        is_attached(g, h, staged),
        g.fence.staged_cold_pending == 0,
        h.fence.staged_cold_pending == staged.len() || h.fence.staged_cold_pending == 0,
        covered_but_fence(rb, h, k),
        is_silent(rb, staged.to_set()),
        rb.fence == (Fence { indexed_fact_count: rb.fence.indexed_fact_count, ..g.fence }),
        match rb.full {
            Some(p) => p == projection::current(g),
            None => rb.fence == g.fence && rb.cache == g.cache,
        },
    ensures
        is_returned(journal::rolled_back(Some(rb), staged, k), g),
{
    let gone = staged.to_set();
    let bare = k.facts.remove_keys(gone);
    assert(capture::restored(bare, rb.facts) =~= g.facts) by {
        assert forall|id: FactId|
            (#[trigger] capture::restored(bare, rb.facts).contains_key(id)
                <==> g.facts.contains_key(id)) && (g.facts.contains_key(id)
                ==> capture::restored(bare, rb.facts)[id] == g.facts[id]) by {
            assert(h.facts.contains_key(id) <==> g.facts.contains_key(id) || gone.contains(id));
            assert(gone.contains(id) <==> staged.contains(id));
            if rb.facts.contains_key(id) {
                assert(rb.facts[id] == capture::held(h.facts, id));
                assert(!gone.contains(id));
            } else {
                assert(capture::held(k.facts, id) == capture::held(h.facts, id));
            }
        }
    }
    assert(coverage::custody_covered(rb, g, k));
    lemma_let_go(rb, staged, g, k);
}

/// Taking note of keys that are none of some facts keeps a record silent.
proof fn lemma_silent(
    rb: RollbackView,
    g: GraphView,
    scope: ScopeView,
    candidate: Option<FactView>,
    some: Set<FactId>,
)
    requires
        is_silent(rb, some),
        forall|id: FactId| #[trigger] scope.ids.contains(id) ==> !some.contains(id),
    ensures
        is_silent(rollback::captured(rb, g, scope, candidate), some),
{
}

/// What waits is none of the facts that are apart.
proof fn lemma_waiters_apart(g: GraphView, ids: Set<FactId>, some: Set<FactId>)
    requires
        apart(g, some),
    ensures
        forall|w: FactId| #[trigger] rollback::waiters_of(g, ids).contains(w) ==> !some.contains(w),
{
    assert forall|w: FactId| #[trigger] rollback::waiters_of(g, ids).contains(w) implies !some.contains(
        w,
    ) by {
        let d = choose|d: FactId| #[trigger]
            ids.contains(d) && multimap::at(g.quarantine.waiting, d).contains(w);
        assert(multimap::at(g.quarantine.waiting, d).contains(w));
    }
}

/// What a retry can wake is none of the facts that are apart.
proof fn lemma_closure_apart(g: GraphView, f: FactView, some: Set<FactId>)
    requires
        apart(g, some),
        quarantine::owned(g),
        !some.contains(f.id),
    ensures
        forall|id: FactId| #[trigger]
            rollback::closure(g, g.quarantine.ready.insert(f.id)).contains(id) ==> !some.contains(
                id,
            ),
{
    let seeds = g.quarantine.ready.insert(f.id);
    let edges = reach::waiter_edges(g.quarantine.waiting);
    let others = Set::new(|id: FactId| !some.contains(id));
    assert forall|x: FactId, y: FactId|
        others.contains(x) && edges.contains_key(x) && #[trigger] edges[x].contains(
            y,
        ) implies #[trigger] others.contains(y) by {
        let set = multimap::at(g.quarantine.waiting, x);
        assert forall|id: FactId| #[trigger] set.contains(id) implies g.quarantine.facts.dom().contains(
            id,
        ) by {}
        vstd::set_lib::lemma_set_subset_finite(g.quarantine.facts.dom(), set);
        ordset::lemma_listing(set);
        assert(set.contains(y));
    }
    assert forall|id: FactId| #[trigger] seeds.contains(id) implies others.contains(id) by {
        if id != f.id {
            assert(g.quarantine.ready.contains(id));
        }
    }
    reach::lemma_reach_least(edges, seeds, others);
}

/// An offered fact leaves apart what was.
proof fn lemma_offered_apart(
    g: GraphView,
    f: FactView,
    reserved: bool,
    supplied: Option<ProjectionView>,
    cost: Option<CostView>,
    staged: Set<FactId>,
    some: Set<FactId>,
)
    requires
        g.indexes_current(),
        apart(g, some),
        !some.contains(f.id),
        !g.quarantine.facts.contains_key(f.id),
    ensures
        apart(admission::offered(g, f, reserved, supplied, cost, staged).0, some),
{
    reveal(admission::offered);
    reveal(admission::entered);
    let h = admission::offered(g, f, reserved, supplied, cost, staged).0;
    let q = g.quarantine;
    let r = h.quarantine;
    let c = match cost {
        Some(c) => Some(c),
        None => match admission::screened(g, f) {
            Ok(Some(c)) => Some(c),
            _ => None,
        },
    };
    if r.facts != q.facts {
        let missing = c->0.missing.to_set();
        assert(h == quarantine::enqueued(g, f, c->0, reserved));
        assert forall|d: FactId, id: FactId| #[trigger]
            multimap::at(r.waiting, d).contains(id) implies r.facts.contains_key(id)
            && multimap::at(r.missing, id).contains(d) by {
            if id != f.id {
                assert(multimap::at(q.waiting, d).contains(id));
            } else if !missing.contains(d) {
                assert(multimap::at(q.waiting, d).contains(id));
            }
        }
    } else if r != q {
        assert(r == quarantine::enqueued(g, f, c->0, reserved).quarantine || r
            == quarantine::woken(q, f.id));
        if r != quarantine::woken(q, f.id) {
            assert(r.facts.contains_key(f.id));
        }
        assert forall|d: FactId, id: FactId| #[trigger]
            multimap::at(r.waiting, d).contains(id) implies r.facts.contains_key(id)
            && multimap::at(r.missing, id).contains(d) by {
            assert(d != f.id);
            assert(multimap::at(q.waiting, d).contains(id));
        }
        assert forall|id: FactId| #[trigger] r.ready.contains(id) implies r.facts.contains_key(
            id,
        ) by {
            if !q.ready.contains(id) {
                assert(multimap::at(q.waiting, f.id).contains(id));
            }
        }
    }
}

/// A retried waiter leaves apart what was.
proof fn lemma_tried_apart(g: GraphView, id: FactId, staged: Set<FactId>, some: Set<FactId>)
    requires
        g.indexes_current(),
        quarantine::owned(g),
        apart(g, some),
    ensures
        apart(retry::tried(g, id, staged).0, some),
{
    reveal(retry::tried);
    let (h, found) = quarantine::removed(g, id);
    let q = g.quarantine;
    let r = h.quarantine;
    assert forall|d: FactId, x: FactId| #[trigger]
        multimap::at(r.waiting, d).contains(x) implies r.facts.contains_key(x) && multimap::at(
        r.missing,
        x,
    ).contains(d) by {
        assert(multimap::at(q.waiting, d).contains(x));
        if x == id && r != q && q.facts.contains_key(id) {
            assert(multimap::at(q.missing, id).contains(d));
        }
    }
    assert(apart(h, some));
    if let Ok(Some(f)) = found {
        lemma_offered_apart(h, f, true, None, None, staged, some);
    }
}

/// How far a retry came, in which the rows that were staged have no part.
spec fn is_sound(st: RetryView, base: GraphView, some: Set<FactId>) -> bool {
    &&& covered_but_fence(st.rb, base, st.g)
    &&& is_silent(st.rb, some)
    &&& apart(st.g, some)
    &&& quarantine::owned(st.g)
    &&& st.g.indexes_current()
    &&& retry::is_countable(st.g, 0)
}

proof fn lemma_retried_sound(
    st: RetryView,
    id: FactId,
    staged: Set<FactId>,
    base: GraphView,
    some: Set<FactId>,
)
    requires
        is_sound(st, base, some),
        !some.contains(id),
    ensures
        is_sound(retry::retried(st, id, staged), base, some),
{
    let other = RetryView { rb: RollbackView { fence: base.fence, ..st.rb }, ..st };
    let next = retry::retried(st, id, staged);
    retry::lemma_retried(other, id, staged, base);
    assert(retry::retried(other, id, staged).rb =~= (RollbackView {
        fence: base.fence,
        ..next.rb
    }));
    assert(retry::retried(other, id, staged).g == next.g);
    lemma_tried_apart(st.g, id, staged, some);
    let scope = coverage::scope_retry(st.g, id);
    if st.g.quarantine.facts.contains_key(id) {
        lemma_waiters_apart(st.g, st.g.quarantine.facts[id].inputs().insert(id), some);
    }
    lemma_silent(st.rb, st.g, scope, None, some);
}

proof fn lemma_retried_list_sound(
    st: RetryView,
    list: Seq<FactId>,
    n: int,
    staged: Set<FactId>,
    base: GraphView,
    some: Set<FactId>,
)
    requires
        is_sound(st, base, some),
        0 <= n <= list.len(),
        forall|i: int| 0 <= i < list.len() ==> !some.contains(#[trigger] list[i]),
    ensures
        is_sound(retry::retried_list(st, list, n, staged), base, some),
    decreases n,
{
    if n > 0 {
        lemma_retried_list_sound(st, list, n - 1, staged, base, some);
        let before = retry::retried_list(st, list, n - 1, staged);
        if before.refusal is None {
            lemma_retried_sound(before, list[n - 1], staged, base, some);
        }
    }
}

proof fn lemma_retried_all_sound(
    st: RetryView,
    limit: nat,
    staged: Set<FactId>,
    base: GraphView,
    some: Set<FactId>,
)
    requires
        is_sound(st, base, some),
    ensures
        is_sound(retry::retried_all(st, limit, staged), base, some),
    decreases limit - st.budget,
{
    let list = retry::frontier(st, limit);
    if list.len() > 0 {
        let ready = st.g.quarantine.ready;
        assert forall|id: FactId| #[trigger] ready.contains(id) implies st.g.quarantine.facts.dom().contains(
            id,
        ) by {}
        vstd::set_lib::lemma_set_subset_finite(st.g.quarantine.facts.dom(), ready);
        let open = retry::open_waiters(st);
        ordset::lemma_listing(open);
        assert forall|i: int| 0 <= i < list.len() implies !some.contains(#[trigger] list[i]) by {
            assert(order::ascending(open)[i] == list[i]);
            assert(order::ascending(open).contains(list[i]));
            assert(ready.contains(list[i]));
        }
        lemma_retried_list_sound(st, list, list.len() as int, staged, base, some);
        let next = retry::retried_list(st, list, list.len() as int, staged);
        if next.refusal is Some || next.budget <= st.budget || next.budget > limit {
        } else {
            lemma_retried_all_sound(next, limit, staged, base, some);
        }
    }
}

/// A retry that follows an offered fact has no part in the rows that were
/// staged.
proof fn lemma_started(
    h: GraphView,
    f: FactView,
    cost: CostView,
    rb: RollbackView,
    set: Set<FactId>,
    budget: nat,
    limit: nat,
    some: Set<FactId>,
)
    requires
        h.indexes_current(),
        quarantine::owned(h),
        retry::is_countable(h, 1),
        admission::is_own(cost, f),
        apart(h, some),
        !h.facts.contains_key(f.id),
        !h.quarantine.facts.contains_key(f.id),
        covered_but_fence(rb, h, h),
        is_silent(rb, some),
    ensures
        ({
            let bare = GraphView { cache: None, ..h };
            let before = projection::base(h);
            let prep = journal::prepared(bare, f, cost, rb, before, set);
            let offer = admission::offered(bare, f, false, Some(before), Some(cost), set);
            let start = journal::retry_start(offer.0, prep.rb, budget);
            let st = retry::retried_all(start, limit, set);
            &&& is_sound(start, h, some)
            &&& is_sound(st, h, some)
            &&& prep.rb.full == rb.full && prep.rb.cache == rb.cache && prep.rb.fence == rb.fence
            &&& st.rb.full == rb.full && st.rb.cache == rb.cache && st.rb.fence == rb.fence
        }),
{
    let bare = GraphView { cache: None, ..h };
    let before = projection::base(h);
    let prep = journal::prepared(bare, f, cost, rb, before, set);
    let offer = admission::offered(bare, f, false, Some(before), Some(cost), set);
    let start = journal::retry_start(offer.0, prep.rb, budget);
    let fenced = RollbackView { fence: h.fence, ..rb };
    journal::lemma_prepared(bare, f, cost, rb, before, set, h);
    journal::lemma_prepared(bare, f, cost, fenced, before, set, h);
    assert(coverage::covered(fenced, h, bare));
    assert(journal::prepared(bare, f, cost, fenced, before, set).rb =~= (RollbackView {
        fence: h.fence,
        ..prep.rb
    })) by {
        reveal(journal::prepared);
    }
    assert(quarantine::owned(bare));
    assert(apart(bare, some));
    assert(!some.contains(f.id));
    admission::lemma_offered(bare, f, false, Some(before), Some(cost), set);
    retry::lemma_offered_room(bare, f, false, Some(before), Some(cost), set);
    lemma_offered_apart(bare, f, false, Some(before), Some(cost), set, some);
    assert(is_silent(prep.rb, some)) by {
        reveal(journal::prepared);
        let seeds = bare.quarantine.ready.insert(f.id);
        let wide = rollback::scope_closure(bare, seeds);
        lemma_closure_apart(bare, f, some);
        lemma_waiters_apart(bare, rollback::closure(bare, seeds), some);
        lemma_silent(rb, bare, wide, None, some);
        let first = rollback::captured(rb, bare, wide, None);
        let second = rollback::with_sparse(first, prep.cells, prep.stand_down);
        let own = journal::scope_candidate(bare, f, cost);
        lemma_waiters_apart(bare, Set::empty().insert(f.id), some);
        lemma_waiters_apart(bare, cost.missing.to_set(), some);
        lemma_silent(second, bare, own, Some(f), some);
    }
    lemma_retried_all_sound(start, limit, set, h, some);
    retry::lemma_retried_all(start, limit, set, h);
}

/// Rows that were just attached are apart from the quarantine.
proof fn lemma_attached_apart(g: GraphView, h: GraphView, staged: Seq<FactId>)
    requires
        is_attached(g, h, staged),
        is_rostered(g),
    ensures
        apart(h, staged.to_set()),
{
    assert forall|id: FactId| #[trigger] h.quarantine.facts.contains_key(id) implies !staged.to_set().contains(
        id,
    ) by {
        if staged.to_set().contains(id) {
            assert(staged.contains(id));
        }
    }
}

/// A graph with rows attached is covered by a record of it without them, and
/// returns to what it was.
proof fn lemma_attached_returns(g: GraphView, h: GraphView, rb: RollbackView, staged: Seq<FactId>)
    requires
        g.indexes_current(),
        is_listed(g),
        is_attached(g, h, staged),
        g.fence.staged_cold_pending == 0,
        h.fence.staged_cold_pending == staged.len() || h.fence.staged_cold_pending == 0,
        rb == rollback::begun(g) || rb == rollback::with_full(
            rollback::begun(g),
            g.fence.generation,
            projection::current(g),
        ),
    ensures
        is_returned(journal::rolled_back(Some(rb), staged, h), g),
        covered_but_fence(rb, h, h),
        is_silent(rb, staged.to_set()),
{
    coverage::lemma_begun(h);
    assert(covered_but_fence(rb, h, h));
    lemma_detached(rb, staged, g, h, h);
}

/// What staging gives: the rows attached, or the graph as it was.
proof fn lemma_staged(g: GraphView, history: Seq<FactView>)
    requires
        g.indexes_current(),
        is_listed(g),
        retry::is_countable(g, history.len() as int),
        g.fence.staged_cold_pending == 0,
    ensures
        match cold::staged(g, history) {
            (h, Ok(staged)) => {
                &&& is_attached(g, h, staged)
                &&& h.fence == (Fence {
                    indexed_fact_count: h.facts.dom().len() as usize,
                    staged_cold_pending: staged.len() as usize,
                    ..g.fence
                })
                &&& h.indexes_current()
                &&& staged.len() <= history.len()
            },
            (h, Err(_)) => {
                &&& is_returned(rollback::restored_graph(rollback::begun(g), h), g)
                &&& is_returned(
                    rollback::restored_graph(
                        rollback::with_full(
                            rollback::begun(g),
                            g.fence.generation,
                            projection::current(g),
                        ),
                        h,
                    ),
                    g,
                )
            },
        },
{
    reveal(cold::staged);
    let n = history.len() as int;
    let rb = rollback::begun(g);
    let full = rollback::with_full(rb, g.fence.generation, projection::current(g));
    let none = Seq::<FactId>::empty();
    match cold::stage_check(g, history, n) {
        Err(_) => {
            reveal(cold::unstaged);
            assert(none.to_set() =~= Set::<FactId>::empty());
            assert(g.facts.dom() =~= g.facts.dom().union(none.to_set()));
            assert(is_attached(g, g, none));
            lemma_attached_returns(g, g, rb, none);
            lemma_attached_returns(g, g, full, none);
        },
        Ok(()) => {
            lemma_stage_run(g, history, n);
            let st = cold::stage_run(g, history, n);
            if st.refusal is Some {
                let h = GraphView { facts: st.facts, ..g };
                lemma_attached_returns(g, h, rb, st.staged);
                lemma_attached_returns(g, h, full, st.staged);
            }
        },
    }
}

/// The record of a replay lets the staged rows go.
proof fn lemma_replay_returns(g: GraphView, h: GraphView, staged: Seq<FactId>)
    requires
        g.indexes_current(),
        is_listed(g),
        is_rostered(g),
        g.fence.staged_cold_pending == 0,
        is_attached(g, h, staged),
        h.indexes_current(),
        h.fence == (Fence {
            indexed_fact_count: h.facts.dom().len() as usize,
            staged_cold_pending: staged.len() as usize,
            ..g.fence
        }),
        staged.len() <= usize::MAX,
    ensures
        is_returned(journal::rolled_back(journal::replay_record(h, staged), staged, h), g),
{
    let gone = staged.to_set();
    if staged.len() == 0 {
        reveal(cold::unstaged);
        assert(gone =~= Set::<FactId>::empty());
        assert(h.facts =~= g.facts);
        assert(h =~= g);
    } else {
        let rb = journal::replay_record(h, staged)->0;
        let bare = h.facts.remove_keys(gone);
        assert forall|id: FactId| #[trigger] gone.contains(id) <==> staged.contains(id) by {}
        assert(capture::restored(bare, rb.facts) =~= g.facts) by {
            assert forall|id: FactId|
                (#[trigger] capture::restored(bare, rb.facts).contains_key(id)
                    <==> g.facts.contains_key(id)) && (g.facts.contains_key(id)
                    ==> capture::restored(bare, rb.facts)[id] == g.facts[id]) by {
                assert(h.facts.contains_key(id) <==> g.facts.contains_key(id) || gone.contains(id));
            }
        }
        assert(g.order.is_prefix_of(h.order));
        assert(coverage::custody_covered(rb, g, h));
        lemma_let_go(rb, staged, g, h);
    }
}

/// A journaled admission beside staged history that is refused leaves the
/// graph as it was, without the history, and one that is rolled back does too.
pub proof fn rolled_back_history_leaves_no_trace(
    g: GraphView,
    f: FactView,
    history: Seq<FactView>,
)
    requires
        g.indexes_current(),
        g.fence.staged_cold_pending == 0,
        is_listed(g),
        is_rostered(g),
        quarantine::owned(g),
        retry::is_countable(g, history.len() as int + 1),
        sweep::batch_limit(g.setting.limits) is Ok,
    ensures
        match journal::journaled_with(g, f, history).1 {
            Err(_) => is_returned(journal::journaled_with(g, f, history).0, g),
            Ok(j) => is_returned(
                journal::rolled_back(
                    j.rollback,
                    j.staged,
                    journal::journaled_with(g, f, history).0,
                ),
                g,
            ),
        },
{
    lemma_staged(g, history);
    let full = projection::current(g);
    if let (h, Ok(staged)) = cold::staged(g, history) {
        lemma_attached_returns(g, h, rollback::begun(g), staged);
        lemma_attached_apart(g, h, staged);
        if let Ok(pf) = journal::preflighted(h, f) {
            reveal(journal::applied);
            reveal(journal::followed);
            admission::lemma_screened(h, f);
            lemma_replay_returns(g, h, staged);
            let some = staged.to_set();
            let rb = journal::first_record(h, staged, Some(full));
            coverage::lemma_begun(h);
            assert(covered_but_fence(rb, h, h));
            assert(quarantine::owned(h));
            if !(pf.admission is AlreadyPresent) {
                let cost = pf.cost->0;
                if let Ok(limit) = sweep::batch_limit(h.setting.limits) {
                    lemma_started(h, f, cost, rb, some, 0, limit as nat, some);
                    let bare = GraphView { cache: None, ..h };
                    let before = projection::base(h);
                    let prep = journal::prepared(bare, f, cost, rb, before, some);
                    let offer = admission::offered(
                        bare,
                        f,
                        false,
                        Some(before),
                        Some(cost),
                        some,
                    );
                    let start = journal::retry_start(offer.0, prep.rb, 0);
                    let st = retry::retried_all(start, limit as nat, some);
                    lemma_detached(prep.rb, staged, g, h, offer.0);
                    lemma_detached(st.rb, staged, g, h, st.g);
                }
            }
        }
    }
}

/// How far a group came, in which the rows that were staged have no part.
spec fn is_group_sound(st: GroupView, base: GraphView, some: Set<FactId>, more: int) -> bool {
    &&& covered_but_fence(st.rb, base, st.g)
    &&& is_silent(st.rb, some)
    &&& apart(st.g, some)
    &&& quarantine::owned(st.g)
    &&& st.g.indexes_current()
    &&& retry::is_countable(st.g, more)
}

proof fn lemma_grouped_sound(
    st: GroupView,
    f: FactView,
    staged: Seq<FactId>,
    base: GraphView,
    some: Set<FactId>,
    more: int,
)
    requires
        is_group_sound(st, base, some, more),
        more >= 1,
    ensures
        is_group_sound(aggregate::grouped(st, f, staged), base, some, more - 1),
        aggregate::grouped(st, f, staged).rb.full == st.rb.full,
        aggregate::grouped(st, f, staged).rb.cache == st.rb.cache,
        aggregate::grouped(st, f, staged).rb.fence == st.rb.fence,
{
    reveal(aggregate::grouped);
    if let Ok(pf) = journal::preflighted(st.g, f) {
        if !(pf.admission is AlreadyPresent) {
            admission::lemma_screened(st.g, f);
            undo::lemma_applied(st.g, f, pf, Some(staged), st.budget);
            let a = journal::applied(
                st.g,
                f,
                pf,
                Seq::empty(),
                None,
                Some(staged),
                st.budget,
            );
            if let Ok(j) = a.result {
                reveal(journal::applied);
                reveal(journal::followed);
                let limit = sweep::batch_limit(st.g.setting.limits)->Ok_0;
                coverage::lemma_begun(st.g);
                lemma_started(
                    st.g,
                    f,
                    pf.cost->0,
                    rollback::begun(st.g),
                    staged.to_set(),
                    st.budget,
                    limit as nat,
                    some,
                );
                assert(apart(a.g, some));
                assert(is_silent(j.rollback->0, some));
                let fenced = RollbackView { fence: base.fence, ..st.rb };
                aggregate::adopting_keeps_coverage(fenced, j.rollback->0, base, st.g, a.g);
                assert(aggregate::adopted(fenced, j.rollback->0) =~= (RollbackView {
                    fence: base.fence,
                    ..aggregate::adopted(st.rb, j.rollback->0)
                }));
            }
        }
    }
}

proof fn lemma_grouped_upto_sound(
    st: GroupView,
    facts: Seq<FactView>,
    n: int,
    staged: Seq<FactId>,
    base: GraphView,
    some: Set<FactId>,
    more: int,
)
    requires
        is_group_sound(st, base, some, more),
        0 <= n <= more,
    ensures
        is_group_sound(aggregate::grouped_upto(st, facts, n, staged), base, some, more - n),
        aggregate::grouped_upto(st, facts, n, staged).rb.full == st.rb.full,
        aggregate::grouped_upto(st, facts, n, staged).rb.cache == st.rb.cache,
        aggregate::grouped_upto(st, facts, n, staged).rb.fence == st.rb.fence,
    decreases n,
{
    if n > 0 {
        lemma_grouped_upto_sound(st, facts, n - 1, staged, base, some, more);
        let before = aggregate::grouped_upto(st, facts, n - 1, staged);
        if before.stop is None {
            lemma_grouped_sound(before, facts[n - 1], staged, base, some, more - n + 1);
        }
    }
}

/// A group beside staged history that is refused leaves the graph as it was,
/// without the history, whatever its inputs had changed until then, and one
/// that is rolled back does too.
pub proof fn rolled_back_group_with_history_leaves_no_trace(
    g: GraphView,
    facts: Seq<FactView>,
    history: Seq<FactView>,
)
    requires
        g.indexes_current(),
        g.fence.staged_cold_pending == 0,
        is_listed(g),
        is_rostered(g),
        quarantine::owned(g),
        retry::is_countable(g, (history.len() + facts.len()) as int),
    ensures
        match aggregate::batched(g, facts, history).1 {
            Err(_) => is_returned(aggregate::batched(g, facts, history).0, g),
            Ok(j) => is_returned(
                journal::rolled_back(
                    Some(j.rollback),
                    j.staged,
                    aggregate::batched(g, facts, history).0,
                ),
                g,
            ),
        },
{
    reveal(aggregate::batched);
    reveal(aggregate::closed_group);
    lemma_staged(g, history);
    let rb = aggregate::group_record(g, history.len() > 0);
    if let (h, Ok(staged)) = cold::staged(g, history) {
        let some = staged.to_set();
        let n = facts.len() as int;
        lemma_attached_returns(g, h, rb, staged);
        lemma_attached_apart(g, h, staged);
        let base = projection::current(h);
        let touched = aggregate::group_impact(h, facts, some);
        let cells = capture::sampled(base.cells, touched.cells);
        let stand_down = capture::sampled(base.stand_down, touched.subjects);
        let start = aggregate::group_start(h, rollback::with_sparse(rb, cells, stand_down));
        assert(is_group_sound(start, h, some, n));
        lemma_grouped_upto_sound(start, facts, n, staged, h, some, n);
        let st = aggregate::grouped_upto(start, facts, n, staged);
        lemma_detached(st.rb, staged, g, h, st.g);
    }
}

} // verus!

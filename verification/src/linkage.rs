//! Which facts wait for what: a waiter misses exactly its inputs that are not
//! admitted, and is ready exactly when it misses none.

use vstd::prelude::*;

use crate::admission;
use crate::costs;
use crate::costs::CostView;
use crate::fact::FactView;
use crate::graph;
use crate::graph::{GraphView, ProjectionView};
use crate::ids::FactId;
use crate::multimap;
use crate::quarantine;
use crate::retry;

verus! {

/// Whether the quarantine is linked to the graph: every waiter misses exactly
/// its inputs that are not admitted, is listed under each of them, and is
/// ready exactly when it misses none.
pub open spec fn is_linked(g: GraphView) -> bool {
    let q = g.quarantine;
    &&& forall|id: FactId| #[trigger]
        q.facts.contains_key(id) ==> q.facts[id].id == id && !g.facts.contains_key(id)
    &&& forall|id: FactId| #[trigger] q.missing.contains_key(id) <==> q.facts.contains_key(id)
    &&& forall|id: FactId| #[trigger]
        q.facts.contains_key(id) ==> q.missing[id] == costs::missing_inputs(g, q.facts[id])
    &&& forall|d: FactId, id: FactId| #[trigger]
        multimap::at(q.waiting, d).contains(id) <==> q.facts.contains_key(id)
            && q.missing[id].contains(d)
    &&& forall|id: FactId| #[trigger]
        q.ready.contains(id) <==> q.facts.contains_key(id) && q.missing[id] == Set::<
            FactId,
        >::empty()
}

/// Nothing waits in a graph that was just started.
pub proof fn started_graph_is_linked(setting: graph::SettingView)
    ensures
        is_linked(graph::started(setting)),
{
}

/// A waiter that is ready has all its inputs admitted; one that is not waits
/// for an input that is absent.
pub proof fn waiters_wake_when_their_inputs_are_here(g: GraphView, id: FactId)
    requires
        is_linked(g),
        g.quarantine.facts.contains_key(id),
    ensures
        g.quarantine.ready.contains(id) <==> g.quarantine.facts[id].inputs().subset_of(
            g.facts.dom(),
        ),
{
    let f = g.quarantine.facts[id];
    let missing = costs::missing_inputs(g, f);
    assert(g.quarantine.missing[id] == missing);
    if missing == Set::<FactId>::empty() {
        assert forall|x: FactId| #[trigger] f.inputs().contains(x) implies g.facts.dom().contains(
            x,
        ) by {
            assert(!missing.contains(x));
        }
    }
    if f.inputs().subset_of(g.facts.dom()) {
        assert(missing =~= Set::<FactId>::empty());
    }
}

proof fn lemma_enqueued_linked(g: GraphView, f: FactView, cost: CostView, reserved: bool)
    requires
        is_linked(g),
        !g.facts.contains_key(f.id),
        !g.quarantine.facts.contains_key(f.id),
        cost.missing.to_set() == costs::missing_inputs(g, f),
        cost.missing.len() > 0,
    ensures
        is_linked(quarantine::enqueued(g, f, cost, reserved)),
{
    let h = quarantine::enqueued(g, f, cost, reserved);
    let missing = cost.missing.to_set();
    assert(missing.contains(cost.missing[0]));
    assert forall|id: FactId| #[trigger] h.quarantine.facts.contains_key(
        id,
    ) implies h.quarantine.missing[id] == costs::missing_inputs(h, h.quarantine.facts[id]) by {
        if id != f.id {
            assert(g.quarantine.facts.contains_key(id));
            assert(costs::missing_inputs(h, h.quarantine.facts[id]) =~= costs::missing_inputs(
                g,
                g.quarantine.facts[id],
            ));
        } else {
            assert(costs::missing_inputs(h, f) =~= missing);
        }
    }
    assert forall|d: FactId, id: FactId| #[trigger]
        multimap::at(h.quarantine.waiting, d).contains(id) <==> h.quarantine.facts.contains_key(id)
            && h.quarantine.missing[id].contains(d) by {
        let before = multimap::at(g.quarantine.waiting, d);
        assert(before.contains(id) <==> g.quarantine.facts.contains_key(id)
            && g.quarantine.missing[id].contains(d));
        if missing.contains(d) {
            assert(multimap::at(h.quarantine.waiting, d) == before.insert(f.id));
        } else {
            assert(multimap::at(h.quarantine.waiting, d) == before);
        }
    }
}

/// A fact that joins a linked graph wakes exactly the waiters for it.
proof fn lemma_woken_linked(g: GraphView, h: GraphView, f: FactView)
    requires
        is_linked(g),
        !g.quarantine.facts.contains_key(f.id),
        h.facts == g.facts.insert(f.id, f),
        h.quarantine == quarantine::woken(g.quarantine, f.id),
    ensures
        is_linked(h),
{
    let q = g.quarantine;
    let r = h.quarantine;
    let waiters = multimap::at(q.waiting, f.id);
    assert(r.facts == q.facts);
    assert forall|id: FactId| #[trigger] r.facts.contains_key(id) implies r.missing[id]
        == costs::missing_inputs(h, r.facts[id]) by {
        assert(q.missing[id] == costs::missing_inputs(g, q.facts[id]));
        assert(waiters.contains(id) <==> q.missing[id].contains(f.id));
        assert(r.missing[id] =~= q.missing[id].remove(f.id));
        assert(costs::missing_inputs(h, r.facts[id]) =~= q.missing[id].remove(f.id));
    }
    assert forall|d: FactId, id: FactId| #[trigger]
        multimap::at(r.waiting, d).contains(id) <==> r.facts.contains_key(id)
            && r.missing[id].contains(d) by {
        assert(multimap::at(q.waiting, d).contains(id) <==> q.facts.contains_key(id)
            && q.missing[id].contains(d));
        assert(waiters.contains(id) <==> q.facts.contains_key(id) && q.missing[id].contains(f.id));
        if d != f.id {
            assert(multimap::at(r.waiting, d) == multimap::at(q.waiting, d));
        } else {
            assert(multimap::at(r.waiting, d) =~= Set::<FactId>::empty());
            if r.facts.contains_key(id) {
                assert(r.missing[id] == costs::missing_inputs(h, r.facts[id]));
            }
        }
    }
    assert forall|id: FactId| #[trigger] r.ready.contains(id) <==> r.facts.contains_key(id)
        && r.missing[id] == Set::<FactId>::empty() by {
        assert(q.ready.contains(id) <==> q.facts.contains_key(id) && q.missing[id] == Set::<
            FactId,
        >::empty());
        assert(waiters.contains(id) <==> q.facts.contains_key(id) && q.missing[id].contains(f.id));
        if q.facts.contains_key(id) && q.missing[id] == Set::<FactId>::empty() {
            assert(q.missing[id].remove(f.id) =~= Set::<FactId>::empty());
        }
    }
}

proof fn lemma_dequeued_linked(g: GraphView, id: FactId, cost: CostView)
    requires
        is_linked(g),
        g.quarantine.facts.contains_key(id),
    ensures
        is_linked(quarantine::dequeued(g, id, cost)),
{
    let q = g.quarantine;
    let h = quarantine::dequeued(g, id, cost);
    let r = h.quarantine;
    assert forall|x: FactId| #[trigger] r.facts.contains_key(x) implies r.missing[x]
        == costs::missing_inputs(h, r.facts[x]) by {
        assert(q.missing[x] == costs::missing_inputs(g, q.facts[x]));
        assert(costs::missing_inputs(h, r.facts[x]) =~= costs::missing_inputs(g, q.facts[x]));
    }
    assert forall|d: FactId, x: FactId| #[trigger]
        multimap::at(r.waiting, d).contains(x) <==> r.facts.contains_key(x) && r.missing[x].contains(
            d,
        ) by {
        let before = multimap::at(q.waiting, d);
        assert(before.contains(x) <==> q.facts.contains_key(x) && q.missing[x].contains(d));
        assert(before.contains(id) <==> q.missing[id].contains(d));
        assert(multimap::at(q.missing, id) == q.missing[id]);
        assert(multimap::at(r.waiting, d) =~= before.remove(id));
    }
}

/// An offered fact keeps the waiters linked.
pub proof fn offer_keeps_waiters_linked(
    g: GraphView,
    f: FactView,
    reserved: bool,
    supplied: Option<ProjectionView>,
)
    requires
        g.indexes_current(),
        is_linked(g),
    ensures
        admission::offered(g, f, reserved, supplied, None, Set::empty()).1 is Ok ==> is_linked(
            admission::offered(g, f, reserved, supplied, None, Set::empty()).0,
        ),
{
    reveal(admission::offered);
    reveal(admission::entered);
    admission::lemma_screened(g, f);
    if let Ok(Some(cost)) = admission::screened(g, f) {
        let (h, result) = admission::offered(g, f, reserved, supplied, None, Set::empty());
        if result is Ok {
            if cost.missing.len() > 0 {
                lemma_enqueued_linked(g, f, cost, reserved);
            } else {
                lemma_woken_linked(g, h, f);
            }
        }
    }
}

/// Admission keeps the waiters linked.
pub proof fn admission_keeps_waiters_linked(g: GraphView, f: FactView)
    requires
        g.indexes_current(),
        is_linked(g),
    ensures
        admission::admitted(g, f).1 is Ok ==> is_linked(admission::admitted(g, f).0),
{
    offer_keeps_waiters_linked(g, f, false, None);
}

/// Retrying a waiter keeps the others linked, whether it is promoted or
/// dropped for good.
pub proof fn promotion_keeps_waiters_linked(g: GraphView, id: FactId)
    requires
        g.indexes_current(),
        is_linked(g),
    ensures
        retry::tried(g, id, Set::empty()).1 is Ok ==> is_linked(
            retry::tried(g, id, Set::empty()).0,
        ),
{
    reveal(retry::tried);
    let (h, found) = quarantine::removed(g, id);
    if g.quarantine.facts.contains_key(id) {
        if let Ok(Some(f)) = found {
            let cost = costs::cost_of(g, f)->Ok_0;
            lemma_dequeued_linked(g, id, cost);
            offer_keeps_waiters_linked(h, f, true, None);
            if let (k, Err(e)) = admission::offered(h, f, true, None, None, Set::empty()) {
                if retry::is_terminal(k, f, e) {
                    admission::lemma_refused_unchanged(h, f, true);
                    assert(is_linked(k));
                    let after = retry::tried(g, id, Set::empty()).0;
                    assert(after.quarantine == k.quarantine && after.facts == k.facts);
                    lemma_same_linked(k, after);
                }
            }
        }
    } else {
        lemma_same_linked(g, h);
    }
}

/// Being linked is a matter of the facts and the quarantine.
proof fn lemma_same_linked(g: GraphView, h: GraphView)
    requires
        is_linked(g),
        h.facts == g.facts,
        h.quarantine == g.quarantine || exists|x: FactId|
            !g.quarantine.facts.contains_key(x) && h.quarantine == (graph::QuarantineView {
                ready: #[trigger] g.quarantine.ready.remove(x),
                ..g.quarantine
            }),
    ensures
        is_linked(h),
{
    assert forall|f: FactView| #[trigger] costs::missing_inputs(h, f) == costs::missing_inputs(g, f) by {
        assert(costs::missing_inputs(h, f) =~= costs::missing_inputs(g, f));
    }
    assert(h.quarantine.ready =~= g.quarantine.ready);
}

} // verus!

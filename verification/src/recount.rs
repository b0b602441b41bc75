//! Rebuilding gives what admission had counted and derived.

use vstd::prelude::*;

use crate::accounting;
use crate::admission;
use crate::canon;
use crate::causal_order;
use crate::content::ExclusiveCell;
use crate::costs;
use crate::coverage;
use crate::exactness;
use crate::fact::{Facts, FactView};
use crate::graph;
use crate::graph::GraphView;
use crate::ids::FactId;
use crate::projection;
use crate::quarantine;
use crate::rebuild;
use crate::soundness;
use crate::sums;
use crate::undo;

verus! {

/// Whether the bytes and edges on record are those of the facts at hand, the
/// admitted and the quarantined.
pub open spec fn is_tallied(g: GraphView) -> bool {
    &&& rebuild::totals(g.facts) == Some((g.ledger.bytes, g.ledger.edges))
    &&& rebuild::totals(g.quarantine.facts) == Some((g.quarantine.bytes, g.quarantine.edges))
}

/// One more fact adds its own bytes and edges.
proof fn lemma_totals_insert(facts: Facts, f: FactView, bytes: u64, edges: u64)
    requires
        facts.dom().finite(),
        !facts.contains_key(f.id),
        rebuild::measurable(f),
        rebuild::totals(facts) == Some((bytes, edges)),
        bytes + rebuild::bytes_of(f) <= u64::MAX,
        edges + accounting::edges_of(f) <= u64::MAX,
    ensures
        rebuild::totals(facts.insert(f.id, f)) == Some(
            ((bytes + rebuild::bytes_of(f)) as u64, (edges + accounting::edges_of(f)) as u64),
        ),
{
    let all = facts.insert(f.id, f);
    let b = |id: FactId| rebuild::bytes_of(all[id]);
    let e = |id: FactId| accounting::edges_of(all[id]);
    assert(all.dom() =~= facts.dom().insert(f.id));
    sums::lemma_sum_insert(facts.dom(), b, f.id);
    sums::lemma_sum_insert(facts.dom(), e, f.id);
    sums::lemma_sum_same(facts.dom(), b, |id: FactId| rebuild::bytes_of(facts[id]));
    sums::lemma_sum_same(facts.dom(), e, |id: FactId| accounting::edges_of(facts[id]));
    assert forall|id: FactId| #[trigger] all.contains_key(id) implies rebuild::measurable(
        all[id],
    ) by {
        if id != f.id {
            assert(facts.contains_key(id));
        }
    }
}

/// A graph that was just started is tallied.
pub proof fn started_graph_is_tallied(setting: graph::SettingView)
    ensures
        is_tallied(graph::started(setting)),
{
    let none = Map::<FactId, FactView>::empty();
    sums::lemma_sum_empty(|id: FactId| rebuild::bytes_of(none[id]));
    sums::lemma_sum_empty(|id: FactId| accounting::edges_of(none[id]));
    assert(none.dom() =~= Set::<FactId>::empty());
    let g = graph::started(setting);
    assert(g.facts == none);
    assert(g.quarantine.facts == none);
}

/// Admission keeps a graph tallied.
pub proof fn admission_keeps_graph_tallied(g: GraphView, f: FactView)
    requires
        g.indexes_current(),
        quarantine::owned(g),
        g.facts.dom().finite(),
        is_tallied(g),
    ensures
        is_tallied(admission::admitted(g, f).0),
{
    let (h, result) = admission::admitted(g, f);
    if result is Err {
        undo::refused_fact_leaves_no_trace(g, f);
    } else {
        reveal(admission::offered);
        reveal(admission::entered);
        reveal(admission::screened);
        reveal(admission::cleared);
        reveal(costs::cost_of);
        admission::lemma_screened(g, f);
        if let Ok(Some(c)) = admission::screened(g, f) {
            assert(rebuild::measurable(f));
            if c.missing.len() > 0 {
                lemma_totals_insert(
                    g.quarantine.facts,
                    f,
                    g.quarantine.bytes,
                    g.quarantine.edges,
                );
            } else {
                lemma_totals_insert(g.facts, f, g.ledger.bytes, g.ledger.edges);
            }
        }
    }
}

/// A second rebuild changes nothing.
pub proof fn second_rebuild_changes_nothing(g: GraphView)
    requires
        g.is_complete(),
        g.facts.dom().len() <= u64::MAX,
    ensures
        rebuild::rebuilt(rebuild::rebuilt(g)) == rebuild::rebuilt(g),
{
    let h = rebuild::rebuilt(g);
    rebuild::lemma_rebuilt_frame(g);
    assert(h.is_complete()) by {
        reveal(rebuild::rebuilt);
    }
    coverage::lemma_rebuilt_index_alike(h, g);
    reveal(rebuild::rebuilt);
    assert(rebuild::rebuilt(h) =~= h);
}

/// A rebuild gives what a graph that admitted the same facts has: the count,
/// bytes and edges of the facts and of the waiters, the indexes with what
/// they take, and the projection.  It lists every fact once, after all that it
/// builds on, and the heads of a cell are the facts on it that no other fact
/// on it has behind it.  What the counters and the indexes said before plays no part, as long as no
/// more facts are on record than are at hand.
pub proof fn rebuild_gives_what_was_admitted(g: GraphView, s: GraphView)
    requires
        soundness::is_sound(s),
        is_tallied(s),
        g.facts == s.facts,
        g.quarantine.facts == s.quarantine.facts,
        g.setting == s.setting,
        g.fence.staged_cold_pending == 0,
        g.is_complete(),
    ensures
        ({
            let h = rebuild::rebuilt(g);
            &&& h.ledger.fact_count == s.ledger.fact_count
            &&& h.ledger.bytes == s.ledger.bytes
            &&& h.ledger.edges == s.ledger.edges
            &&& h.ledger.index_bytes == s.ledger.index_bytes
            &&& h.quarantine.bytes == s.quarantine.bytes
            &&& h.quarantine.edges == s.quarantine.edges
            &&& h.index == s.index
            &&& h.indexes_current()
            &&& projection::current(h) == projection::current(s)
            &&& h.order == causal_order::causal_order(s.facts)
            &&& causal_order::is_causal(s.facts, h.order)
            &&& h.order.to_set() == s.facts.dom()
            &&& forall|c: ExclusiveCell| #[trigger]
                h.reading().raw_heads(c) == canon::tops(
                    s.facts,
                    exactness::cell_members(s.facts, c),
                )
        }),
{
    let h = rebuild::rebuilt(g);
    soundness::sound_graph_is_derived(s);
    coverage::lemma_rebuilt_index_alike(g, s);
    rebuild::lemma_rebuilt_frame(g);
    reveal(rebuild::rebuilt);
    assert(s.fence.indexed_fact_count == s.facts.dom().len());
    assert(h.reading() == s.reading());
    canon::lemma_acyclic_order(s.facts);
    causal_order::lemma_topological(s.facts, Seq::empty());
    assert(s.reading() == exactness::reading_of(s.facts));
    assert forall|c: ExclusiveCell| #[trigger] h.reading().raw_heads(c) == canon::tops(
        s.facts,
        exactness::cell_members(s.facts, c),
    ) by {
        exactness::lemma_cell_heads_read(s.facts, c);
    }
}

} // verus!

//! What a checkpoint gives back of the graph it was written from.

use vstd::prelude::*;

use crate::accounting;
use crate::checkpoint;
use crate::checkpoint::CheckpointError;
use crate::fact::{Facts, FactView};
use crate::graph;
use crate::graph::{Fence, GraphView, RowView};
use crate::ids::{FactId, MeshContextId};
use crate::index;
use crate::listing;
use crate::multimap;
use crate::order;
use crate::ordset;
use crate::policy::{SemanticAdmissionPolicy, VerifiedBootstrap};
use crate::projection;

verus! {

/// Whether facts are kept by their identifiers, verified, and of one mesh.
pub open spec fn are_sound(facts: Facts, context: MeshContextId) -> bool {
    &&& facts.dom().finite()
    &&& forall|id: FactId| #[trigger]
        facts.contains_key(id) ==> facts[id].id == id && facts[id].checked.refusal is None
            && facts[id].content.mesh_context == context
}

/// Whether an index is finite throughout.
pub open spec fn is_finite<K, V>(m: Map<K, Set<V>>) -> bool {
    m.dom().finite() && forall|k: K| #[trigger] m.contains_key(k) ==> m[k].finite()
}

/// Whether every provenance row is resident, says something and is witnessed.
pub open spec fn rows_are_witnessed(facts: Facts, rows: Map<FactId, RowView>) -> bool {
    &&& rows.dom().finite()
    &&& forall|id: FactId| #[trigger]
        rows.contains_key(id) ==> facts.contains_key(id) && rows[id].dom().finite()
            && rows[id].dom().len() > 0
    &&& forall|id: FactId, s: FactId|
        rows.contains_key(id) && #[trigger] rows[id].contains_key(s) ==> checkpoint::is_witnessed(
            facts,
            s,
            rows[id][s],
        )
}

/// Whether the counters of a graph are within its limits.
pub open spec fn is_within_limits(g: GraphView) -> bool {
    let limits = g.setting.limits;
    &&& g.facts.dom().len() <= g.ledger.fact_count <= limits.max_admitted_facts
    &&& g.quarantine.facts.dom().len() <= limits.max_quarantined_facts
    &&& g.ledger.bytes <= limits.max_admitted_bytes
    &&& g.quarantine.bytes <= limits.max_quarantined_bytes
    &&& g.ledger.edges + g.quarantine.edges <= u64::MAX
    &&& g.ledger.edges + g.quarantine.edges <= limits.max_dependency_edges
    &&& accounting::fits(limits, accounting::residency(g.index)) == Ok::<
        u64,
        crate::error::SemanticError,
    >(g.ledger.index_bytes)
}

/// Whether the custody of a graph is consistent.
pub open spec fn custody_is_sound(g: GraphView) -> bool {
    &&& are_sound(g.facts, g.setting.context_id)
    &&& are_sound(g.quarantine.facts, g.setting.context_id)
    &&& g.facts.dom().disjoint(g.quarantine.facts.dom())
    &&& g.order.no_duplicates()
    &&& g.order.to_set() == g.facts.dom()
    &&& g.quarantine.by_author.dom().finite()
    &&& g.ledger.retained.dom().finite()
    &&& is_finite(g.quarantine.missing)
    &&& is_finite(g.quarantine.waiting)
    &&& g.quarantine.ready.finite()
    &&& g.quarantine.ready.subset_of(g.quarantine.facts.dom())
    &&& g.quarantine.missing.dom().subset_of(g.quarantine.facts.dom())
}

/// Whether the derived state of a graph is consistent.
pub open spec fn index_is_sound(g: GraphView) -> bool {
    &&& is_finite(g.index.cell_heads)
    &&& is_finite(g.index.authority_heads)
    &&& is_finite(g.index.selectors)
    &&& is_finite(g.index.stand_down)
    &&& g.index.cells.finite()
    &&& rows_are_witnessed(g.facts, g.index.provenance)
    &&& multimap::members(g.index.cell_heads).subset_of(g.facts.dom())
    &&& multimap::members(g.index.authority_heads).subset_of(g.facts.dom())
    &&& multimap::members(g.index.stand_down).subset_of(g.facts.dom())
    &&& g.index.authority_facts == index::participants_of(g.facts)
    &&& g.fence.indexed_revision == g.fence.facts_revision
    &&& g.fence.indexed_fact_count == g.facts.dom().len()
    &&& projection::current(g).cells.dom().finite()
    &&& projection::current(g).stand_down.dom().finite()
    &&& checkpoint::is_resident(g.facts, projection::current(g))
}

/// The graph that continues where another stopped: cold-history work is
/// settled, and the projection is at hand.
pub open spec fn continued(g: GraphView) -> GraphView {
    GraphView {
        fence: Fence {
            cold_history_since_retirement: 0,
            staged_cold_pending: 0,
            ..g.fence
        },
        cache: Some((g.fence.generation, projection::current(g))),
        ..g
    }
}

/// The facts of a list of facts by their keys.
pub proof fn lemma_values(facts: Facts, context: MeshContextId, n: int)
    requires
        are_sound(facts, context),
        0 <= n <= order::ascending(facts.dom()).len(),
    ensures
        checkpoint::by_id(checkpoint::values_of(facts), n) == facts.restrict(
            order::ascending(facts.dom()).take(n).to_set(),
        ),
    decreases n,
{
    let keys = order::ascending(facts.dom());
    let list = checkpoint::values_of(facts);
    ordset::lemma_listing(facts.dom());
    if n == 0 {
        assert(keys.take(0).to_set() =~= Set::empty());
        assert(checkpoint::by_id(list, 0) =~= facts.restrict(keys.take(0).to_set()));
    } else {
        lemma_values(facts, context, n - 1);
        ordset::lemma_take_set(keys, n - 1);
        assert(keys.contains(keys[n - 1]));
        assert(keys.to_set().contains(keys[n - 1]));
        assert(list[n - 1] == facts[keys[n - 1]]);
        assert(checkpoint::by_id(list, n) =~= facts.restrict(keys.take(n).to_set()));
    }
}

/// Facts that are written are read back.
pub proof fn lemma_values_read(facts: Facts, context: MeshContextId)
    requires
        are_sound(facts, context),
    ensures
        checkpoint::by_id(
            checkpoint::values_of(facts),
            checkpoint::values_of(facts).len() as int,
        ) == facts,
        checkpoint::values_of(facts).len() == facts.dom().len(),
{
    let keys = order::ascending(facts.dom());
    ordset::lemma_listing(facts.dom());
    lemma_values(facts, context, keys.len() as int);
    assert(keys.take(keys.len() as int) =~= keys);
    assert(facts.restrict(facts.dom()) =~= facts);
    keys.unique_seq_to_set();
}

/// Facts that are written pass.
proof fn lemma_rows_pass(
    facts: Facts,
    context: MeshContextId,
    others: Facts,
    reason: &'static str,
    n: int,
)
    requires
        are_sound(facts, context),
        facts.dom().disjoint(others.dom()),
        0 <= n <= checkpoint::values_of(facts).len(),
    ensures
        checkpoint::rows_check(checkpoint::values_of(facts), context, others, reason, n) == Ok::<
            (),
            CheckpointError,
        >(()),
    decreases n,
{
    if n > 0 {
        let keys = order::ascending(facts.dom());
        ordset::lemma_listing(facts.dom());
        lemma_rows_pass(facts, context, others, reason, n - 1);
        lemma_values(facts, context, n - 1);
        ordset::lemma_next_is_new(keys, n - 1);
        assert(keys.contains(keys[n - 1]));
        assert(keys.to_set().contains(keys[n - 1]));
        assert(facts.contains_key(keys[n - 1]));
        assert(!keys.take(n - 1).to_set().contains(keys[n - 1]));
        assert(!others.dom().contains(keys[n - 1]));
    }
}

/// Provenance rows that are written pass.
proof fn lemma_provenance_pass(facts: Facts, rows: Map<FactId, RowView>, n: int)
    requires
        rows_are_witnessed(facts, rows),
        0 <= n <= checkpoint::rows_of(rows).len(),
    ensures
        checkpoint::provenance_check(checkpoint::rows_of(rows), facts, n) == Ok::<
            (),
            CheckpointError,
        >(()),
    decreases n,
{
    if n > 0 {
        let keys = order::ascending(rows.dom());
        let list = checkpoint::rows_of(rows);
        ordset::lemma_listing(rows.dom());
        lemma_provenance_pass(facts, rows, n - 1);
        let id = keys[n - 1];
        assert(keys.contains(id));
        assert(keys.to_set().contains(id));
        assert(rows.contains_key(id));
        let row = listing::entries(rows[id]);
        assert(list[n - 1] == (id, row));
        listing::entries_make_the_map(rows[id]);
        let inner = order::ascending(rows[id].dom());
        ordset::lemma_listing(rows[id].dom());
        inner.unique_seq_to_set();
        assert(row.len() == rows[id].dom().len());
        assert forall|i: int| 0 <= i < row.len() implies checkpoint::is_witnessed(
            facts,
            (#[trigger] row[i]).0,
            row[i].1,
        ) by {
            assert(inner.contains(inner[i]));
            assert(inner.to_set().contains(inner[i]));
            assert(rows[id].contains_key(inner[i]));
        }
        assert(listing::keys_of(list.take(n - 1)) =~= keys.take(n - 1));
        ordset::lemma_next_is_new(keys, n - 1);
        assert(!keys.take(n - 1).to_set().contains(id));
    }
}

/// Provenance rows that are written are read back.
proof fn lemma_provenance_read(rows: Map<FactId, RowView>)
    requires
        rows.dom().finite(),
        forall|id: FactId| #[trigger] rows.contains_key(id) ==> rows[id].dom().finite(),
    ensures
        checkpoint::rows_table(checkpoint::rows_of(rows)) == rows,
{
    let keys = order::ascending(rows.dom());
    let list = checkpoint::rows_of(rows);
    ordset::lemma_listing(rows.dom());
    assert(listing::keys_of(list) =~= keys);
    let table = checkpoint::rows_table(list);
    assert forall|id: FactId| #[trigger] table.contains_key(id) <==> rows.contains_key(id) by {
        assert(keys.to_set().contains(id) <==> keys.contains(id));
    }
    assert forall|id: FactId| #[trigger] rows.contains_key(id) implies table[id] == rows[id] by {
        assert(keys.to_set().contains(id));
        let i = keys.index_of(id);
        assert(keys[i] == id);
        listing::entries_make_the_map(rows[id]);
    }
    assert(table =~= rows);
}

/// What the parts of a written graph make up.
proof fn lemma_assembled(g: GraphView)
    requires
        custody_is_sound(g),
        index_is_sound(g),
    ensures
        checkpoint::assembled(g.setting, checkpoint::written(g)) == continued(g),
{
    reveal(checkpoint::written);
    let cp = checkpoint::written(g);
    let p = projection::current(g);
    lemma_values_read(g.facts, g.setting.context_id);
    lemma_values_read(g.quarantine.facts, g.setting.context_id);
    listing::entries_make_the_map(g.quarantine.by_author);
    listing::entries_make_the_map(g.ledger.retained);
    listing::entries_make_the_map(p.cells);
    listing::entries_make_the_map(p.stand_down);
    listing::lists_make_the_sets(g.quarantine.missing);
    listing::lists_make_the_sets(g.quarantine.waiting);
    listing::lists_make_the_sets(g.index.cell_heads);
    listing::lists_make_the_sets(g.index.authority_heads);
    listing::lists_make_the_sets(g.index.selectors);
    listing::lists_make_the_sets(g.index.stand_down);
    ordset::lemma_listing(g.quarantine.ready);
    ordset::lemma_listing(g.index.cells);
    lemma_provenance_read(g.index.provenance);
    let made = checkpoint::assembled(g.setting, cp);
    let want = continued(g);
    assert(made.index =~= want.index);
    assert(made.quarantine =~= want.quarantine);
    assert(made.ledger =~= want.ledger);
    assert(made.fence == want.fence);
}

/// What a graph of one mesh writes can be read back there, and gives back
/// that graph: every fact and its order, the quarantine with its indexes and
/// accounts, the derived indexes, the counters and the revisions.
pub proof fn checkpoint_is_read_back(
    bootstrap: VerifiedBootstrap,
    limits: SemanticAdmissionPolicy,
    g: GraphView,
)
    requires
        g.setting == graph::setting_of(bootstrap, limits),
        custody_is_sound(g),
        index_is_sound(g),
        is_within_limits(g),
    ensures
        checkpoint::decoded(bootstrap, limits, checkpoint::written(g)) == Ok::<
            GraphView,
            CheckpointError,
        >(continued(g)),
{
    lemma_assembled(g);
    reveal(checkpoint::written);
    reveal(checkpoint::decoded);
    let cp = checkpoint::written(g);
    let p = projection::current(g);
    let context = bootstrap.context;
    lemma_values_read(g.facts, context);
    lemma_values_read(g.quarantine.facts, context);
    assert(g.facts.dom().disjoint(Map::<FactId, FactView>::empty().dom()));
    lemma_rows_pass(
        g.facts,
        context,
        Map::empty(),
        "invalid or duplicate live checkpoint fact",
        cp.facts.len() as int,
    );
    lemma_rows_pass(
        g.quarantine.facts,
        context,
        g.facts,
        "invalid or duplicate live checkpoint quarantine",
        cp.quarantined.len() as int,
    );
    assert(checkpoint::head_check(context, limits, cp) is Ok);
    listing::entries_make_the_map(g.quarantine.by_author);
    listing::entries_make_the_map(g.ledger.retained);
    listing::lists_make_the_sets(g.quarantine.missing);
    listing::lists_make_the_sets(g.quarantine.waiting);
    ordset::lemma_listing(g.quarantine.ready);
    assert(checkpoint::custody_check(cp) is Ok);
    listing::lists_make_the_sets(g.index.cell_heads);
    listing::lists_make_the_sets(g.index.authority_heads);
    listing::lists_make_the_sets(g.index.selectors);
    listing::lists_make_the_sets(g.index.stand_down);
    ordset::lemma_listing(g.index.cells);
    lemma_provenance_pass(g.facts, g.index.provenance, cp.provenance.len() as int);
    assert(checkpoint::index_check(cp) is Ok);
    listing::entries_make_the_map(p.cells);
    listing::entries_make_the_map(p.stand_down);
    assert(checkpoint::projection_check(cp) is Ok);
    assert(checkpoint::tail_check(continued(g)) is Ok);
}

} // verus!

//! The limits: when each of them refuses, and what the refusal says.

use vstd::prelude::*;

use crate::content::BodyView;
use crate::costs;
use crate::costs::CostView;
use crate::device::DeviceId;
use crate::error::{SemanticCapacityDimension, SemanticError};
use crate::fact::FactView;
use crate::graph;
use crate::graph::{GraphView, Selection, Usage};
use crate::multimap;
use crate::policy;
use crate::policy::SemanticAdmissionPolicy;
use crate::provenance;
use crate::provenance::IndexResidencyDelta;

verus! {

/// A predecessor list is within a bound exactly where the widest is.
proof fn lemma_widest(uses: Seq<crate::content::UseView>, limit: nat)
    ensures
        costs::widest(uses) <= limit <==> forall|i: int|
            0 <= i < uses.len() ==> (#[trigger] uses[i]).predecessors.len() <= limit,
    decreases uses.len(),
{
    if uses.len() > 0 {
        let rest = uses.drop_last();
        lemma_widest(rest, limit);
        assert(forall|i: int| 0 <= i < rest.len() ==> rest[i] == uses[i]);
        if costs::widest(uses) <= limit {
            assert forall|i: int| 0 <= i < uses.len() implies (
            #[trigger] uses[i]).predecessors.len() <= limit by {
                if i < rest.len() {
                    assert(rest[i] == uses[i]);
                }
            }
        } else if forall|i: int|
            0 <= i < uses.len() ==> (#[trigger] uses[i]).predecessors.len() <= limit {
            assert forall|i: int| 0 <= i < rest.len() implies (
            #[trigger] rest[i]).predecessors.len() <= limit by {
                assert(rest[i] == uses[i]);
            }
            assert(uses[uses.len() - 1].predecessors.len() <= limit);
        }
    }
}

/// A single fact is within the limits exactly where its encoding, its inputs,
/// its lineages and each of their predecessor lists are; a value at the limit
/// is within it.
pub proof fn facts_are_bounded(limits: SemanticAdmissionPolicy, f: FactView, bytes: u64)
    requires
        f.dependencies().len() <= u64::MAX,
        f.content.authority_uses.len() <= u64::MAX,
        costs::widest(f.content.authority_uses) <= u64::MAX,
    ensures
        costs::fact_bounds(limits, f, bytes) is Ok <==> {
            &&& bytes <= limits.max_fact_encoded_bytes
            &&& f.dependencies().len() <= limits.max_dependencies_per_fact
            &&& f.content.authority_uses.len() <= limits.max_authority_uses_per_fact
            &&& forall|i: int|
                0 <= i < f.content.authority_uses.len() ==> (
                #[trigger] f.content.authority_uses[i]).predecessors.len()
                    <= limits.max_authority_predecessors_per_use
        },
{
    lemma_widest(
        f.content.authority_uses,
        limits.max_authority_predecessors_per_use as nat,
    );
}

/// A refusal of a single fact names the first limit that it exceeds, with the
/// limit and what was found.
pub proof fn refused_facts_exceed_the_limit_named(
    limits: SemanticAdmissionPolicy,
    f: FactView,
    bytes: u64,
    dimension: SemanticCapacityDimension,
    limit: u64,
    observed: u64,
)
    requires
        f.dependencies().len() <= u64::MAX,
        f.content.authority_uses.len() <= u64::MAX,
        costs::widest(f.content.authority_uses) <= u64::MAX,
        costs::fact_bounds(limits, f, bytes) == Err::<(), SemanticError>(
            SemanticError::CapacityExceeded { dimension, limit, observed },
        ),
    ensures
        observed > limit,
        match dimension {
            SemanticCapacityDimension::FactEncodedBytes => limit == limits.max_fact_encoded_bytes
                && observed == bytes,
            SemanticCapacityDimension::DependenciesPerFact => limit
                == limits.max_dependencies_per_fact && observed == f.dependencies().len() && bytes
                <= limits.max_fact_encoded_bytes,
            SemanticCapacityDimension::AuthorityUsesPerFact => limit
                == limits.max_authority_uses_per_fact && observed
                == f.content.authority_uses.len() && f.dependencies().len()
                <= limits.max_dependencies_per_fact,
            SemanticCapacityDimension::AuthorityPredecessorsPerUse => limit
                == limits.max_authority_predecessors_per_use && f.content.authority_uses.len()
                <= limits.max_authority_uses_per_fact,
            _ => false,
        },
{
}

/// One more fact has room in the history exactly where the count, the bytes,
/// the database with its indexes, the edges, and what its author retains,
/// unless that was reserved before, all stay within their limits.
pub proof fn history_is_bounded(g: GraphView, f: FactView, cost: CostView, reserved: bool)
    ensures
        costs::admitted_bounds(g, f, cost, reserved) is Ok <==> {
            let limits = g.setting.limits;
            let held = graph::usage_of(g.ledger.retained, f.content.author);
            &&& reserved || held.facts + 1 <= limits.max_retained_facts_per_author && held.bytes
                + cost.encoded_bytes <= limits.max_retained_bytes_per_author
            &&& g.ledger.fact_count + 1 <= limits.max_admitted_facts
            &&& g.ledger.bytes + cost.encoded_bytes <= limits.max_admitted_bytes
            &&& g.ledger.bytes + cost.encoded_bytes + g.ledger.index_bytes + cost.index_bytes
                <= limits.max_database_bytes
            &&& g.ledger.edges + g.quarantine.edges + cost.edges <= limits.max_dependency_edges
        },
{
}

/// One more fact may wait exactly where the quarantine's count and bytes, all
/// edges, what its author has there, and what its author retains, unless that
/// was reserved before, all stay within their limits.
pub proof fn quarantine_is_bounded(g: GraphView, f: FactView, cost: CostView, reserved: bool)
    requires
        g.quarantine.facts.dom().len() <= u64::MAX,
    ensures
        costs::quarantine_bounds(g, f, cost, reserved) is Ok <==> {
            let limits = g.setting.limits;
            let held = graph::usage_of(g.ledger.retained, f.content.author);
            let waiting = graph::usage_of(g.quarantine.by_author, f.content.author);
            &&& reserved || held.facts + 1 <= limits.max_retained_facts_per_author && held.bytes
                + cost.encoded_bytes <= limits.max_retained_bytes_per_author
            &&& g.quarantine.facts.dom().len() + 1 <= limits.max_quarantined_facts
            &&& g.quarantine.bytes + cost.encoded_bytes <= limits.max_quarantined_bytes
            &&& g.ledger.edges + g.quarantine.edges + cost.edges <= limits.max_dependency_edges
            &&& waiting.facts + 1 <= limits.max_quarantined_facts_per_author
            &&& waiting.bytes + cost.encoded_bytes <= limits.max_quarantined_bytes_per_author
        },
{
}

/// A refusal for want of room names a limit that is exceeded, and the limit is
/// the one that the policy sets for it.
pub proof fn refusals_name_the_limit(
    g: GraphView,
    f: FactView,
    cost: CostView,
    reserved: bool,
    waits: bool,
    e: SemanticError,
)
    requires
        g.quarantine.facts.dom().len() <= u64::MAX,
        waits ==> costs::quarantine_bounds(g, f, cost, reserved) == Err::<(), SemanticError>(e),
        !waits ==> costs::admitted_bounds(g, f, cost, reserved) == Err::<(), SemanticError>(e),
    ensures
        e matches SemanticError::CapacityExceeded { dimension, limit, observed } && {
            let limits = g.setting.limits;
            &&& observed > limit || observed == u64::MAX
            &&& match dimension {
                SemanticCapacityDimension::RetainedFactsPerAuthor => !reserved && limit
                    == limits.max_retained_facts_per_author,
                SemanticCapacityDimension::RetainedBytesPerAuthor => !reserved && limit
                    == limits.max_retained_bytes_per_author,
                SemanticCapacityDimension::AdmittedFacts => !waits && limit
                    == limits.max_admitted_facts,
                SemanticCapacityDimension::AdmittedBytes => !waits && (limit
                    == limits.max_admitted_bytes || limit == limits.max_database_bytes),
                SemanticCapacityDimension::QuarantinedFacts => waits && limit
                    == limits.max_quarantined_facts,
                SemanticCapacityDimension::QuarantinedBytes => waits && limit
                    == limits.max_quarantined_bytes,
                SemanticCapacityDimension::QuarantinedFactsPerAuthor => waits && limit
                    == limits.max_quarantined_facts_per_author,
                SemanticCapacityDimension::QuarantinedBytesPerAuthor => waits && limit
                    == limits.max_quarantined_bytes_per_author,
                SemanticCapacityDimension::DependencyEdges => limit == limits.max_dependency_edges,
                _ => false,
            }
        },
{
}

/// What is reserved for the indexes of a fact covers what they are charged in
/// the end; beside no staged history, and for a fact that is new, it is that
/// charge, but for relations that replace others.
pub proof fn reserves_cover_the_charge(
    g: GraphView,
    f: FactView,
    reserve: u64,
    d: IndexResidencyDelta,
    rows: IndexResidencyDelta,
)
    requires
        costs::index_reserve(g, f) == Ok::<u64, SemanticError>(reserve),
        costs::exact_delta(g, f) == Ok::<IndexResidencyDelta, SemanticError>(d),
        provenance::provenance_delta(g, f) == Ok::<IndexResidencyDelta, SemanticError>(rows),
    ensures
        d.added <= reserve + d.removed,
        g.fence.staged_cold_pending == 0 && (match f.content.body {
            BodyView::AuthorityLineageResolution { subject, selected_head, .. } => !multimap::at(
                g.index.selectors,
                subject,
            ).contains(Selection { selector: f.id, selected: selected_head }),
            BodyView::EvictionProof { target, .. } => !multimap::at(
                g.index.stand_down,
                target,
            ).contains(f.id),
            BodyView::SelfStandDown { device_id, .. } => !multimap::at(
                g.index.stand_down,
                device_id,
            ).contains(f.id),
            _ => true,
        }) ==> reserve + rows.added == d.added + (if rows.added >= rows.removed {
            rows.added - rows.removed
        } else {
            0
        }),
{
    reveal(costs::index_reserve);
    reveal(costs::exact_delta);
}

/// The limits of a graph for which none were chosen.
pub proof fn default_limits_are_nested()
    ensures
        ({
            let d = policy::default_policy();
            let kib: int = 1024;
            let mib: int = kib * 1024;
            &&& d.max_fact_encoded_bytes == 64 * kib - 1
            &&& d.max_dependencies_per_fact == 64
            &&& d.max_authority_uses_per_fact == 32
            &&& d.max_authority_predecessors_per_use == 64
            &&& d.max_admitted_facts == 100 * 1000
            &&& d.max_admitted_bytes == 128 * mib
            &&& d.max_quarantined_facts == 4 * kib
            &&& d.max_quarantined_bytes == 16 * mib
            &&& d.max_quarantined_facts_per_author == 256
            &&& d.max_quarantined_bytes_per_author == 4 * mib
            &&& d.max_retained_facts_per_author == 10 * 1000
            &&& d.max_retained_bytes_per_author == 16 * mib
            &&& d.max_hot_history_facts == 64
            &&& d.max_dependency_edges == 1000 * 1000
            &&& d.max_ready_batch == 256
            &&& d.max_pending_proofs == 10 * 1000
            &&& d.max_pending_proof_bytes == 16 * mib
            &&& d.max_database_bytes == 256 * mib
            &&& d.wal_checkpoint_threshold_bytes == 4 * mib
            &&& d.emergency_reserve_bytes == 8 * mib
            &&& d.max_quarantined_facts_per_author <= d.max_quarantined_facts
            &&& d.max_quarantined_bytes_per_author <= d.max_quarantined_bytes
            &&& d.max_retained_facts_per_author <= d.max_admitted_facts
            &&& d.max_admitted_bytes <= d.max_database_bytes
        }),
{
}

/// What an author retains grows by one fact and its bytes, and shrinks by as
/// much; no other author's changes.
pub proof fn usage_is_kept_by_author(
    m: Map<DeviceId, Usage>,
    author: DeviceId,
    other: DeviceId,
    bytes: u64,
)
    requires
        graph::usage_of(m, author).facts < u64::MAX,
        graph::usage_of(m, author).bytes + bytes <= u64::MAX,
        m.contains_key(author) ==> m[author].facts > 0,
    ensures
        ({
            let more = costs::kept(m, author, bytes);
            let back = costs::let_go(more, author, bytes);
            &&& graph::usage_of(more, author).facts == graph::usage_of(m, author).facts + 1
            &&& graph::usage_of(more, author).bytes == graph::usage_of(m, author).bytes + bytes
            &&& other != author ==> graph::usage_of(more, other) == graph::usage_of(m, other)
            &&& other != author ==> graph::usage_of(back, other) == graph::usage_of(m, other)
            &&& graph::usage_of(back, author) == graph::usage_of(m, author)
        }),
{
}

} // verus!

//! How an offered fact passes: what it is turned away for, and what it changes
//! where it joins, waits or is known already.

use vstd::prelude::*;

use crate::accounting;
use crate::admission;
use crate::admission::AdmissionView;
use crate::costs;
use crate::costs::CostView;
use crate::device::DeviceId;
use crate::dismissal;
use crate::error::SemanticError;
use crate::evaluator;
use crate::fact::FactView;
use crate::graph;
use crate::graph::{GraphView, LedgerView, ProjectionView, QuarantineView, RowView, Usage};
use crate::ids::FactId;
use crate::multimap;
use crate::order;
use crate::policy::VerifiedProjectPolicy;
use crate::projection;
use crate::provenance;
use crate::provenance::IndexResidencyDelta;
use crate::quarantine;
use crate::rebuild;
use crate::validation;

verus! {

/// A fact whose verification failed, of another mesh, or offered to an open
/// project changes nothing, and the refusal says which, in this order.
pub proof fn strangers_are_turned_away(
    g: GraphView,
    f: FactView,
    reserved: bool,
    supplied: Option<ProjectionView>,
    staged: Set<FactId>,
)
    requires
        g.indexes_current(),
    ensures
        ({
            let offer = admission::offered(g, f, reserved, supplied, None, staged);
            &&& f.checked.refusal matches Some(e) ==> offer == (
                g,
                Err::<AdmissionView, SemanticError>(e),
            )
            &&& f.checked.refusal is None && f.content.mesh_context != g.setting.context_id
                ==> offer == (
                g,
                Err::<AdmissionView, SemanticError>(
                    SemanticError::ContextMismatch {
                        expected: g.setting.context_id,
                        found: f.content.mesh_context,
                    },
                ),
            )
            &&& f.checked.refusal is None && f.content.mesh_context == g.setting.context_id
                && g.setting.policy == VerifiedProjectPolicy::Open ==> offer == (
                g,
                Err::<AdmissionView, SemanticError>(SemanticError::DomainMismatch),
            )
        }),
{
    reveal(admission::offered);
    reveal(admission::screened);
}

/// A fact that is held, admitted or waiting, is recognized and changes
/// nothing; another fact under its identifier is refused; and so is a fact
/// that names itself as a parent.
pub proof fn known_facts_are_recognized(
    g: GraphView,
    f: FactView,
    reserved: bool,
    supplied: Option<ProjectionView>,
    staged: Set<FactId>,
)
    requires
        g.indexes_current(),
        f.checked.refusal is None,
        f.content.mesh_context == g.setting.context_id,
        g.setting.policy == VerifiedProjectPolicy::Closed,
    ensures
        ({
            let offer = admission::offered(g, f, reserved, supplied, None, staged);
            &&& g.facts.contains_key(f.id) ==> offer == (
                g,
                if g.facts[f.id].id == f.id && g.facts[f.id].content == f.content
                    && g.facts[f.id].signature == f.signature {
                    Ok::<AdmissionView, SemanticError>(AdmissionView::AlreadyPresent)
                } else {
                    Err(SemanticError::DuplicateFact(f.id))
                },
            )
            &&& !g.facts.contains_key(f.id) && g.quarantine.facts.contains_key(f.id) ==> offer == (
                g,
                if g.quarantine.facts[f.id].id == f.id && g.quarantine.facts[f.id].content
                    == f.content && g.quarantine.facts[f.id].signature == f.signature {
                    Ok::<AdmissionView, SemanticError>(AdmissionView::AlreadyPresent)
                } else {
                    Err(SemanticError::DuplicateFact(f.id))
                },
            )
            &&& !g.facts.contains_key(f.id) && !g.quarantine.facts.contains_key(f.id)
                && f.content.parents.contains(f.id) ==> offer == (
                g,
                Err::<AdmissionView, SemanticError>(SemanticError::SelfParent),
            )
        }),
{
    reveal(admission::offered);
    reveal(admission::screened);
}

/// What a fact that joined changed: it is one more fact, the last in order;
/// the totals grew by what it takes, and so did what its author retains unless
/// that was reserved before; nothing entered or left the quarantine, the
/// setting is as it was, and the projection kept is of the new generation.
pub proof fn what_joins_is_counted_once(
    g: GraphView,
    f: FactView,
    reserved: bool,
    supplied: Option<ProjectionView>,
    staged: Set<FactId>,
)
    requires
        g.indexes_current(),
        g.facts.dom().finite(),
        g.facts.dom().len() < usize::MAX,
        admission::has_room(g, 1),
        g.ledger.fact_count < u64::MAX,
        admission::offered(g, f, reserved, supplied, None, staged).1 == Ok::<
            AdmissionView,
            SemanticError,
        >(AdmissionView::Inserted),
    ensures
        ({
            let h = admission::offered(g, f, reserved, supplied, None, staged).0;
            let author = f.content.author;
            &&& !g.facts.contains_key(f.id)
            &&& h.facts == g.facts.insert(f.id, f)
            &&& h.order == g.order.push(f.id)
            &&& h.indexes_current()
            &&& h.setting == g.setting
            &&& h.quarantine.facts == g.quarantine.facts
            &&& h.quarantine.bytes == g.quarantine.bytes
            &&& h.quarantine.edges == g.quarantine.edges
            &&& h.quarantine.by_author == g.quarantine.by_author
            &&& h.fence.facts_revision == g.fence.facts_revision + 1
            &&& h.fence.generation == g.fence.generation + 1
            &&& h.fence.staged_cold_pending == g.fence.staged_cold_pending
            &&& g.fence.cold_history_since_retirement < usize::MAX
                ==> h.fence.cold_history_since_retirement
                == g.fence.cold_history_since_retirement + 1
            &&& h.ledger.fact_count == g.ledger.fact_count + 1
            &&& h.ledger.bytes == g.ledger.bytes + rebuild::bytes_of(f)
            &&& h.ledger.edges == g.ledger.edges + f.dependencies().len()
                + f.content.authority_uses.len()
            &&& h.cache matches Some((generation, p)) && generation == h.fence.generation
            &&& reserved ==> h.ledger.retained == g.ledger.retained
            &&& !reserved ==> h.ledger.retained == g.ledger.retained.insert(
                author,
                Usage {
                    facts: (graph::usage_of(g.ledger.retained, author).facts + 1) as u64,
                    bytes: (graph::usage_of(g.ledger.retained, author).bytes + rebuild::bytes_of(
                        f,
                    )) as u64,
                },
            )
        }),
{
    reveal(admission::offered);
    reveal(admission::entered);
    reveal(admission::cleared);
    admission::lemma_screened(g, f);
    assert(g.facts.insert(f.id, f).dom() =~= g.facts.dom().insert(f.id));
}

/// What a fact that has to wait changed: it is in the quarantine, misses
/// exactly its inputs that were not admitted, is listed under each of them,
/// and is charged there and to its author; the facts are as they were.
pub proof fn what_waits_is_counted_once(
    g: GraphView,
    f: FactView,
    reserved: bool,
    supplied: Option<ProjectionView>,
    staged: Set<FactId>,
    missing: Seq<FactId>,
)
    requires
        g.indexes_current(),
        admission::offered(g, f, reserved, supplied, None, staged).1 == Ok::<
            AdmissionView,
            SemanticError,
        >(AdmissionView::Quarantined { missing }),
    ensures
        ({
            let h = admission::offered(g, f, reserved, supplied, None, staged).0;
            let author = f.content.author;
            let absent = f.inputs().difference(g.facts.dom());
            &&& h.facts == g.facts
            &&& h.index == g.index
            &&& h.order == g.order
            &&& h.fence == g.fence
            &&& h.cache == g.cache
            &&& absent != Set::<FactId>::empty()
            &&& missing == order::ascending(absent)
            &&& h.quarantine.facts == g.quarantine.facts.insert(f.id, f)
            &&& h.quarantine.missing == g.quarantine.missing.insert(f.id, absent)
            &&& h.quarantine.ready == g.quarantine.ready
            &&& forall|d: FactId| #[trigger]
                multimap::at(h.quarantine.waiting, d) == (if absent.contains(d) {
                    multimap::at(g.quarantine.waiting, d).insert(f.id)
                } else {
                    multimap::at(g.quarantine.waiting, d)
                })
            &&& h.quarantine.bytes == g.quarantine.bytes + rebuild::bytes_of(f)
            &&& h.quarantine.edges == g.quarantine.edges + f.dependencies().len()
                + f.content.authority_uses.len()
            &&& graph::usage_of(h.quarantine.by_author, author) == (Usage {
                facts: (graph::usage_of(g.quarantine.by_author, author).facts + 1) as u64,
                bytes: (graph::usage_of(g.quarantine.by_author, author).bytes + rebuild::bytes_of(
                    f,
                )) as u64,
            })
            &&& reserved ==> h.ledger == g.ledger
            &&& !reserved ==> graph::usage_of(h.ledger.retained, author) == (Usage {
                facts: (graph::usage_of(g.ledger.retained, author).facts + 1) as u64,
                bytes: (graph::usage_of(g.ledger.retained, author).bytes + rebuild::bytes_of(
                    f,
                )) as u64,
            })
        }),
{
    reveal(admission::offered);
    admission::lemma_screened(g, f);
    let cost = admission::screened(g, f)->Ok_0->0;
    if cost.missing.len() == 0 {
        reveal(admission::entered);
    }
    assert(cost.missing.to_set().contains(cost.missing[0]));
    assert(cost.missing.to_set() =~= f.inputs().difference(g.facts.dom()));
}

/// A new fact waits exactly where an input of it was not admitted; it joins
/// only where all were.
pub proof fn facts_wait_for_what_is_absent(
    g: GraphView,
    f: FactView,
    reserved: bool,
    supplied: Option<ProjectionView>,
    staged: Set<FactId>,
)
    requires
        g.indexes_current(),
    ensures
        ({
            let result = admission::offered(g, f, reserved, supplied, None, staged).1;
            &&& result matches Ok(AdmissionView::Quarantined { .. }) ==> !f.inputs().subset_of(
                g.facts.dom(),
            )
            &&& result matches Ok(AdmissionView::Inserted) ==> f.inputs().subset_of(g.facts.dom())
        }),
{
    reveal(admission::offered);
    admission::lemma_screened(g, f);
    if let Ok(Some(cost)) = admission::screened(g, f) {
        if cost.missing.len() == 0 {
            reveal(admission::entered);
            assert forall|x: FactId| #[trigger] f.inputs().contains(x) implies g.facts.dom().contains(
                x,
            ) by {
                if !g.facts.contains_key(x) {
                    assert(costs::missing_inputs(g, f).contains(x));
                    assert(cost.missing.to_set().contains(x));
                }
            }
        } else {
            assert(cost.missing.to_set().contains(cost.missing[0]));
            assert(costs::missing_inputs(g, f).contains(cost.missing[0]));
        }
    }
}

/// A fact that is verified, of the mesh, new, not its own parent, complete,
/// not redundant and accepted by its past joins, unless room or history is
/// wanting.
pub proof fn acceptable_facts_join_where_there_is_room(
    g: GraphView,
    f: FactView,
    reserved: bool,
    supplied: Option<ProjectionView>,
    staged: Set<FactId>,
    past: GraphView,
)
    requires
        g.indexes_current(),
        f.checked.refusal is None,
        f.content.mesh_context == g.setting.context_id,
        g.setting.policy == VerifiedProjectPolicy::Closed,
        !g.facts.contains_key(f.id),
        !g.quarantine.facts.contains_key(f.id),
        !f.content.parents.contains(f.id),
        f.inputs().subset_of(g.facts.dom()),
        rebuild::causal_view(g, f) == Ok::<GraphView, SemanticError>(past),
        f.content.body is Evict || f.content.body is EvictionProof || f.content.body is Attestation
            || evaluator::noop(past, f.content.body) is None,
        validation::candidate_check(past, f) is Ok,
    ensures
        match admission::offered(g, f, reserved, supplied, None, staged).1 {
            Ok(a) => a is Inserted,
            Err(e) => e is CapacityExceeded || e is MissingParent || e is EncodingFailed,
        },
{
    reveal(admission::offered);
    reveal(admission::screened);
    reveal(admission::cleared);
    reveal(admission::entered);
    dismissal::lemma_measuring_err(g, f);
    quarantine::lemma_cost(g, f);
    if let Ok(cost) = costs::cost_of(g, f) {
        dismissal::lemma_bounds_err(g, f, cost, reserved);
        if cost.missing.len() > 0 {
            assert(cost.missing.to_set().contains(cost.missing[0]));
            assert(costs::missing_inputs(g, f).contains(cost.missing[0]));
        }
    }
}

/// When a dependency becomes available, the waiters for it that miss nothing
/// else become ready, and no others; whoever waits for more still does.
pub proof fn the_last_input_wakes(q: QuarantineView, dependency: FactId, w: FactId)
    ensures
        ({
            let after = quarantine::woken(q, dependency);
            let waits = multimap::at(q.waiting, dependency).contains(w);
            &&& after.facts == q.facts
            &&& after.ready.contains(w) <==> q.ready.contains(w) || (waits
                && q.missing.contains_key(w) && forall|x: FactId| #[trigger]
                q.missing[w].contains(x) ==> x == dependency)
            &&& q.missing.contains_key(w) ==> forall|x: FactId| #[trigger]
                after.missing[w].contains(x) <==> q.missing[w].contains(x) && !(waits && x
                    == dependency)
            &&& multimap::at(after.waiting, dependency) == Set::<FactId>::empty()
            &&& forall|d: FactId| #[trigger]
                multimap::at(after.waiting, d) == (if d == dependency {
                    Set::<FactId>::empty()
                } else {
                    multimap::at(q.waiting, d)
                })
        }),
{
    let after = quarantine::woken(q, dependency);
    if q.waiting.contains_key(dependency) && q.missing.contains_key(w) {
        let left = q.missing[w].remove(dependency);
        if forall|x: FactId| #[trigger] q.missing[w].contains(x) ==> x == dependency {
            assert(left =~= Set::<FactId>::empty());
        } else {
            let x = choose|x: FactId| #[trigger] q.missing[w].contains(x) && x != dependency;
            assert(left.contains(x));
        }
    }
}

/// What enters the quarantine and leaves it again leaves no trace there, and
/// what its author retained is given back by releasing it.
pub proof fn leaving_the_quarantine_undoes_entering_it(
    g: GraphView,
    f: FactView,
    cost: CostView,
    a: DeviceId,
)
    requires
        !g.quarantine.facts.contains_key(f.id),
        !g.quarantine.missing.contains_key(f.id),
        !g.quarantine.ready.contains(f.id),
        forall|d: FactId| #[trigger] multimap::at(g.quarantine.waiting, d).contains(f.id) ==> false,
        forall|d: FactId| #[trigger]
            g.quarantine.waiting.contains_key(d) ==> g.quarantine.waiting[d] != Set::<
                FactId,
            >::empty(),
        g.quarantine.bytes + cost.encoded_bytes <= u64::MAX,
        g.quarantine.edges + cost.edges <= u64::MAX,
        graph::usage_of(g.quarantine.by_author, f.content.author).facts < u64::MAX,
        graph::usage_of(g.quarantine.by_author, f.content.author).bytes + cost.encoded_bytes
            <= u64::MAX,
        graph::usage_of(g.ledger.retained, f.content.author).facts < u64::MAX,
        graph::usage_of(g.ledger.retained, f.content.author).bytes + cost.encoded_bytes
            <= u64::MAX,
        g.ledger.retained.contains_key(f.content.author)
            ==> g.ledger.retained[f.content.author].facts > 0,
        g.quarantine.by_author.contains_key(f.content.author)
            ==> g.quarantine.by_author[f.content.author].facts > 0,
    ensures
        ({
            let inside = quarantine::enqueued(g, f, cost, false);
            let out = quarantine::dequeued(inside, f.id, cost);
            let back = quarantine::released(out, f.content.author, cost.encoded_bytes);
            &&& back.quarantine.facts == g.quarantine.facts
            &&& back.quarantine.missing == g.quarantine.missing
            &&& back.quarantine.waiting == g.quarantine.waiting
            &&& back.quarantine.ready == g.quarantine.ready
            &&& back.quarantine.bytes == g.quarantine.bytes
            &&& back.quarantine.edges == g.quarantine.edges
            &&& graph::usage_of(back.quarantine.by_author, a) == graph::usage_of(
                g.quarantine.by_author,
                a,
            )
            &&& graph::usage_of(back.ledger.retained, a) == graph::usage_of(g.ledger.retained, a)
            &&& back.facts == g.facts
        }),
{
    let inside = quarantine::enqueued(g, f, cost, false);
    let out = quarantine::dequeued(inside, f.id, cost);
    let missing = cost.missing.to_set();
    assert(out.quarantine.facts =~= g.quarantine.facts);
    assert(out.quarantine.missing =~= g.quarantine.missing);
    assert(out.quarantine.ready =~= g.quarantine.ready);
    assert forall|d: FactId| #[trigger] out.quarantine.waiting.contains_key(d)
        <==> g.quarantine.waiting.contains_key(d) by {
        let before = multimap::at(g.quarantine.waiting, d);
        if missing.contains(d) {
            assert(multimap::at(inside.quarantine.waiting, d) == before.insert(f.id));
            assert(!before.contains(f.id));
            assert(before.insert(f.id).remove(f.id) =~= before);
        }
    }
    assert forall|d: FactId| #[trigger]
        out.quarantine.waiting.contains_key(d) implies out.quarantine.waiting[d]
        == g.quarantine.waiting[d] by {
        let before = multimap::at(g.quarantine.waiting, d);
        assert(g.quarantine.waiting.contains_key(d));
        if missing.contains(d) {
            assert(multimap::at(inside.quarantine.waiting, d) == before.insert(f.id));
            assert(!before.contains(f.id));
            assert(before.insert(f.id).remove(f.id) =~= before);
        }
    }
    assert(out.quarantine.waiting =~= g.quarantine.waiting);
}

/// A projection that is kept is answered from only where it is of this very
/// generation and the indexes describe the facts; else the facts answer.
pub proof fn stale_projections_do_not_answer(g: GraphView)
    ensures
        match g.cache {
            Some((generation, p)) => {
                &&& generation == g.fence.generation && g.fence.indexed_revision
                    == g.fence.facts_revision && g.fence.indexed_fact_count == g.facts.dom().len()
                    ==> projection::current(g) == p
                &&& generation != g.fence.generation || g.fence.indexed_revision
                    != g.fence.facts_revision || g.fence.indexed_fact_count != g.facts.dom().len()
                    ==> projection::current(g) == projection::projected(g.reading())
            },
            None => projection::current(g) == projection::projected(g.reading()),
        },
{
}

/// Bringing some cells and devices up to date changes those alone.
pub proof fn updates_touch_what_they_name(
    p: ProjectionView,
    g: graph::Reading,
    cells: Set<crate::content::ExclusiveCell>,
    subjects: Set<DeviceId>,
    c: crate::content::ExclusiveCell,
    d: DeviceId,
)
    ensures
        ({
            let q = projection::updated(p, g, cells, subjects);
            &&& !cells.contains(c) ==> q.cells.contains_key(c) == p.cells.contains_key(c) && (
            p.cells.contains_key(c) ==> q.cells[c] == p.cells[c])
            &&& !subjects.contains(d) ==> q.stand_down.contains_key(d) == p.stand_down.contains_key(
                d,
            ) && (p.stand_down.contains_key(d) ==> q.stand_down[d] == p.stand_down[d])
            &&& cells.contains(c) && g.known_cells().contains(c) ==> q.cells.contains_key(c)
                == projection::projected(g).cells.contains_key(c) && (q.cells.contains_key(c)
                ==> q.cells[c] == projection::projected(g).cells[c])
            &&& subjects.contains(d) && g.evidence().contains_key(d) ==> q.stand_down.contains_key(
                d,
            ) == projection::projected(g).stand_down.contains_key(d) && (q.stand_down.contains_key(
                d,
            ) ==> q.stand_down[d] == projection::projected(g).stand_down[d])
        }),
{
}

/// A commitment takes thirty-two bytes, and ninety-six for each cell and each
/// stand-down projected.
pub proof fn commitments_grow_with_the_projection(p: ProjectionView, n: nat)
    requires
        p.cells.dom().len() + p.stand_down.dom().len() == n,
        32 + 96 * n <= u64::MAX,
    ensures
        projection::commitment_size(p) == 32 + 96 * n,
{
}

/// What a fact is charged: each distinct input once and each lineage that it
/// carries, and the bytes of its encoding.
pub proof fn facts_are_charged_for_what_they_name(g: GraphView, f: FactView)
    ensures
        costs::cost_of(g, f) matches Ok(cost) ==> {
            &&& f.checked.encoded_bytes == Some(cost.encoded_bytes)
            &&& cost.edges == f.inputs().len() + f.content.authority_uses.len()
            &&& cost.missing == order::ascending(f.inputs().difference(g.facts.dom()))
        },
        f.checked.encoded_bytes is None ==> costs::cost_of(g, f) == Err::<CostView, SemanticError>(
            SemanticError::EncodingFailed,
        ),
{
    reveal(costs::cost_of);
    crate::fact::lemma_inputs_finite(f);
    crate::ordset::lemma_listing(f.inputs());
    assert(accounting::edges_of(f) == f.inputs().len() + f.content.authority_uses.len());
}

/// A priced fact that its past accepts joins, where the limits have room for it
/// and for the projection with it in.
pub proof fn facts_with_room_join(
    g: GraphView,
    f: FactView,
    reserved: bool,
    before: ProjectionView,
    staged: Set<FactId>,
    cost: CostView,
    past: GraphView,
    d: IndexResidencyDelta,
    rows: Map<FactId, RowView>,
    index_bytes: u64,
)
    requires
        g.indexes_current(),
        cost.missing.len() == 0,
        rebuild::causal_view(g, f) == Ok::<GraphView, SemanticError>(past),
        validation::candidate_check(past, f) is Ok,
        costs::exact_delta(g, f) == Ok::<IndexResidencyDelta, SemanticError>(d),
        provenance::planned(g, f) == Ok::<Map<FactId, RowView>, SemanticError>(rows),
        costs::admitted_bounds(g, f, cost, reserved) is Ok,
        d.removed <= g.ledger.index_bytes,
        g.ledger.index_bytes - d.removed + d.added == index_bytes,
        ({
            let bare = admission::joined(g, f, cost, rows);
            let with = GraphView { ledger: LedgerView { index_bytes, ..bare.ledger }, ..bare };
            let after = admission::reprojected(with, f, before, staged);
            with.ledger.bytes + index_bytes + projection::commitment_size(after)
                <= g.setting.limits.max_database_bytes
        }),
    ensures
        admission::offered(g, f, reserved, Some(before), Some(cost), staged).1 == Ok::<
            AdmissionView,
            SemanticError,
        >(AdmissionView::Inserted),
{
    reveal(admission::offered);
    reveal(admission::cleared);
    reveal(admission::entered);
}

/// A fact can be priced wherever its encoding is known, a number holds what its
/// indexes take, and it is within the limits of a single fact.
pub proof fn measured_facts_are_priced(g: GraphView, f: FactView, bytes: u64)
    requires
        f.checked.encoded_bytes == Some(bytes),
        f.inputs().len() + f.content.authority_uses.len() <= u64::MAX,
        costs::index_reserve(g, f) is Ok,
        costs::fact_bounds(g.setting.limits, f, bytes) is Ok,
    ensures
        costs::cost_of(g, f) is Ok,
{
    reveal(costs::cost_of);
    crate::fact::lemma_inputs_finite(f);
    crate::ordset::lemma_listing(f.inputs());
}

/// A fact with a missing input waits, where its author has a role and the
/// quarantine has room.
pub proof fn facts_with_room_wait(
    g: GraphView,
    f: FactView,
    reserved: bool,
    supplied: Option<ProjectionView>,
    staged: Set<FactId>,
    cost: CostView,
)
    requires
        g.indexes_current(),
        cost.missing.len() > 0,
        evaluator::effective_role(g, f.content.author) is Some,
        costs::quarantine_bounds(g, f, cost, reserved) is Ok,
    ensures
        admission::offered(g, f, reserved, supplied, Some(cost), staged).1 == Ok::<
            AdmissionView,
            SemanticError,
        >(AdmissionView::Quarantined { missing: order::ascending(cost.missing.to_set()) }),
{
    reveal(admission::offered);
}

} // verus!

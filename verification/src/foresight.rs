//! What a preflight foretells, and for what it can be used.

use vstd::prelude::*;

use crate::admission;
use crate::admission::AdmissionView;
use crate::cold;
use crate::costs;
use crate::costs::CostView;
use crate::delta;
use crate::error::{SemanticCapacityDimension, SemanticError};
use crate::evaluator;
use crate::fact::FactView;
use crate::graph::{GraphView, ProjectionView};
use crate::ids::FactId;
use crate::journal;
use crate::journal::PreflightView;
use crate::order;
use crate::rebuild;
use crate::retry;
use crate::rollback;
use crate::sweep;

verus! {

/// What a preflight foretells: a fact that it finds present is recognized; one
/// that has to wait waits for what it says; one that is to be inserted misses
/// nothing, and never waits.
pub proof fn preflights_foretell(
    g: GraphView,
    f: FactView,
    staged: Set<FactId>,
    supplied: Option<ProjectionView>,
    pf: PreflightView,
)
    requires
        journal::preflighted(g, f) == Ok::<PreflightView, SemanticError>(pf),
    ensures
        g.indexes_current(),
        pf.is_for(g, f),
        pf.admission is AlreadyPresent <==> admission::offered(
            g,
            f,
            false,
            supplied,
            None,
            staged,
        ).1 == Ok::<AdmissionView, SemanticError>(AdmissionView::AlreadyPresent),
        pf.admission matches AdmissionView::Quarantined { missing } ==> admission::offered(
            g,
            f,
            false,
            supplied,
            None,
            staged,
        ).1 == Ok::<AdmissionView, SemanticError>(
            AdmissionView::Quarantined { missing: order::ascending(missing.to_set()) },
        ) && missing.to_set() == f.inputs().difference(g.facts.dom()),
        pf.admission is Inserted ==> f.inputs().subset_of(g.facts.dom()) && !(admission::offered(
            g,
            f,
            false,
            supplied,
            None,
            staged,
        ).1 matches Ok(AdmissionView::Quarantined { .. })),
        pf.cost is Some <==> !(pf.admission is AlreadyPresent),
{
    reveal(admission::offered);
    admission::lemma_screened(g, f);
    if let Ok(Some(cost)) = admission::screened(g, f) {
        if cost.missing.len() == 0 {
            reveal(admission::entered);
            assert forall|x: FactId| #[trigger] f.inputs().contains(x) implies g.facts.dom().contains(
                x,
            ) by {
                if !g.facts.contains_key(x) {
                    assert(crate::costs::missing_inputs(g, f).contains(x));
                    assert(cost.missing.to_set().contains(x));
                }
            }
        }
    }
}

/// What a preflight refuses, admission refuses too where the screening already
/// does, with the same refusal.
pub proof fn preflights_refuse_what_admission_refuses(
    g: GraphView,
    f: FactView,
    e: SemanticError,
)
    requires
        g.indexes_current(),
        admission::screened(g, f) == Err::<Option<CostView>, SemanticError>(e),
    ensures
        journal::preflighted(g, f) == Err::<PreflightView, SemanticError>(e),
        admission::offered(g, f, false, None, None, Set::empty()) == (
            g,
            Err::<AdmissionView, SemanticError>(e),
        ),
{
    reveal(admission::offered);
}

/// A preflight of another fact, of another signature or content, or of another
/// state of the graph changes nothing: it is refused as stale.
pub proof fn stale_preflights_are_refused(
    g: GraphView,
    f: FactView,
    pf: PreflightView,
    staged: Seq<FactId>,
    full: Option<ProjectionView>,
    impact_staged: Option<Seq<FactId>>,
    budget: nat,
)
    requires
        g.indexes_current(),
        pf.fact_id != f.id || pf.signature != f.signature || pf.content_id != f.checked.content_id
            || pf.facts_revision != g.fence.facts_revision || pf.generation != g.fence.generation,
    ensures
        ({
            let a = journal::applied(g, f, pf, staged, full, impact_staged, budget);
            &&& a.g == g
            &&& a.budget == budget
            &&& a.result == Err::<journal::JournalView, SemanticError>(
                SemanticError::NoOp("stale admission preflight"),
            )
        }),
{
    reveal(journal::applied);
}

/// Applying the preflight of a fact that is present changes nothing, and
/// records nothing.
pub proof fn replays_record_nothing(
    g: GraphView,
    f: FactView,
    pf: PreflightView,
    full: Option<ProjectionView>,
    impact_staged: Option<Seq<FactId>>,
    budget: nat,
)
    requires
        g.indexes_current(),
        pf.is_for(g, f),
        pf.admission is AlreadyPresent,
    ensures
        ({
            let a = journal::applied(g, f, pf, Seq::empty(), full, impact_staged, budget);
            &&& a.g == g
            &&& a.result matches Ok(j) && j.admission is AlreadyPresent && j.rollback is None
                && j.delta.rows.len() == 0 && j.delta.promoted.len() == 0 && j.delta.removed.len()
                == 0 && j.delta.projection is None
        }),
{
    reveal(journal::applied);
}

/// A journaled admission that is kept stays within the ready batch, and names
/// no fact twice; the journal tells what became of the fact.
pub proof fn journals_are_bounded(
    base_generation: u64,
    id: FactId,
    offer: (GraphView, Result<AdmissionView, SemanticError>),
    prep: journal::PreparedView,
    staged: Seq<FactId>,
    impact_staged: Set<FactId>,
    limit: usize,
    budget: nat,
    j: journal::JournalView,
)
    requires
        journal::followed(
            base_generation,
            id,
            offer,
            prep,
            staged,
            impact_staged,
            limit,
            budget,
        ).result == Ok::<journal::JournalView, SemanticError>(j),
    ensures
        offer.1 == Ok::<AdmissionView, SemanticError>(j.admission),
        ({
            let a = journal::followed(
                base_generation,
                id,
                offer,
                prep,
                staged,
                impact_staged,
                limit,
                budget,
            );
            let most = a.g.setting.limits.max_ready_batch;
            &&& j.delta.rows.len() <= most + 1
            &&& j.delta.promoted.len() <= most
            &&& j.delta.removed.len() <= most
            &&& j.delta.promoted.no_duplicates()
            &&& j.delta.removed.no_duplicates()
            &&& forall|x: int, y: int|
                0 <= x < y < j.delta.rows.len() ==> (#[trigger] j.delta.rows[x]).fact.id != (
                #[trigger] j.delta.rows[y]).fact.id
            &&& !(j.admission is Inserted) ==> a.g == offer.0
            &&& j.staged == staged
        }),
{
    reveal(journal::followed);
    let ids = delta::row_ids(j.delta.rows);
    assert forall|x: int, y: int| 0 <= x < y < j.delta.rows.len() implies (
    #[trigger] j.delta.rows[x]).fact.id != (#[trigger] j.delta.rows[y]).fact.id by {
        assert(ids[x] == j.delta.rows[x].fact.id && ids[y] == j.delta.rows[y].fact.id);
    }
}

/// A journaled admission whose record stays within the ready batch, with the
/// fact itself besides, and names no fact twice is kept.
pub proof fn bounded_journals_are_kept(
    base_generation: u64,
    id: FactId,
    offer: (GraphView, Result<AdmissionView, SemanticError>),
    prep: journal::PreparedView,
    staged: Seq<FactId>,
    impact_staged: Set<FactId>,
    limit: usize,
    budget: nat,
)
    requires
        offer.1 is Ok,
        offer.1->Ok_0 is Inserted ==> limit > 0,
        ({
            let st = if offer.1->Ok_0 is Inserted {
                retry::retried_all(
                    journal::retry_start(offer.0, prep.rb, budget),
                    limit as nat,
                    impact_staged,
                )
            } else {
                journal::retry_start(offer.0, prep.rb, budget)
            };
            let rec = journal::changed(
                st.g,
                id,
                offer.1->Ok_0,
                st.ids,
                impact_staged,
                base_generation,
                prep.cells,
                prep.stand_down,
            );
            let most = st.g.setting.limits.max_ready_batch;
            &&& st.refusal is None
            &&& most <= usize::MAX
            &&& rec.rows.len() <= most + 1
            &&& rec.promoted.len() <= most
            &&& rec.removed.len() <= most
            &&& delta::row_ids(rec.rows).no_duplicates()
            &&& rec.promoted.no_duplicates()
            &&& rec.removed.no_duplicates()
            &&& rec.provisional_added.no_duplicates()
            &&& rec.provisional_removed.no_duplicates()
        }),
    ensures
        journal::followed(
            base_generation,
            id,
            offer,
            prep,
            staged,
            impact_staged,
            limit,
            budget,
        ).result is Ok,
{
    reveal(journal::followed);
}

/// A journaled admission that is refused is taken back, whether the fact was
/// refused or a waiter that it woke ended the retry.
pub proof fn refused_journals_are_taken_back(
    base_generation: u64,
    id: FactId,
    offer: (GraphView, Result<AdmissionView, SemanticError>),
    prep: journal::PreparedView,
    staged: Seq<FactId>,
    impact_staged: Set<FactId>,
    limit: usize,
    budget: nat,
)
    ensures
        ({
            let a = journal::followed(
                base_generation,
                id,
                offer,
                prep,
                staged,
                impact_staged,
                limit,
                budget,
            );
            let st = retry::retried_all(
                journal::retry_start(offer.0, prep.rb, budget),
                limit as nat,
                impact_staged,
            );
            &&& offer.1 matches Err(e) ==> a.result == Err::<journal::JournalView, SemanticError>(e)
                && a.g == journal::rolled_back(Some(prep.rb), staged, offer.0)
            &&& offer.1 == Ok::<AdmissionView, SemanticError>(AdmissionView::Inserted) && limit > 0
                && st.refusal is Some ==> a.result == Err::<journal::JournalView, SemanticError>(
                st.refusal->0,
            ) && a.g == journal::rolled_back(Some(st.rb), staged, st.g)
            &&& offer.1 == Ok::<AdmissionView, SemanticError>(AdmissionView::Inserted) && limit == 0
                ==> a.result == Err::<journal::JournalView, SemanticError>(
                SemanticError::CapacityExceeded {
                    dimension: SemanticCapacityDimension::ReadyBatch,
                    limit: 0,
                    observed: 1,
                },
            )
        }),
{
    reveal(journal::followed);
}

/// A journaled admission beside history that cannot be staged is refused for
/// that, and one of a fact that the preflight refuses is refused for that; both
/// are taken back.
pub proof fn refused_history_refuses_the_journal(
    g: GraphView,
    f: FactView,
    history: Seq<FactView>,
)
    requires
        g.indexes_current(),
    ensures
        ({
            let (h, staging) = cold::staged(g, history);
            let (k, result) = journal::journaled_with(g, f, history);
            &&& staging matches Err(e) ==> result == Err::<journal::JournalView, SemanticError>(e)
                && k == rollback::restored_graph(rollback::begun(g), h)
            &&& staging matches Ok(staged) ==> (journal::preflighted(h, f) matches Err(e) ==> result
                == Err::<journal::JournalView, SemanticError>(e) && k == journal::rolled_back(
                Some(rollback::begun(g)),
                staged,
                h,
            ))
            &&& journal::preflighted(g, f) matches Err(e) ==> journal::journaled(g, f) == (
                g,
                Err::<journal::JournalView, SemanticError>(e),
            )
        }),
{
}

/// The batch that a policy lets be ready is its own number, where a machine
/// word can hold it.
pub proof fn batches_are_what_the_policy_says(
    limits: crate::policy::SemanticAdmissionPolicy,
)
    ensures
        limits.max_ready_batch <= usize::MAX ==> sweep::batch_limit(limits) == Ok::<
            usize,
            SemanticError,
        >(limits.max_ready_batch as usize),
        limits.max_ready_batch > usize::MAX ==> sweep::batch_limit(limits) is Err,
{
}

/// Indexes that are not current are made so before anything is answered from
/// them, and the facts, the setting and what waits are as they were.
pub proof fn rebuilding_keeps_what_is_held(g: GraphView)
    requires
        g.facts.dom().len() <= usize::MAX,
    ensures
        rebuild::ensured(g).indexes_current(),
        rebuild::ensured(g).facts == g.facts,
        rebuild::ensured(g).setting == g.setting,
        rebuild::ensured(g).quarantine.facts == g.quarantine.facts,
        rebuild::ensured(g).ledger.retained == g.ledger.retained,
        g.indexes_current() ==> rebuild::ensured(g) == g,
{
    rebuild::lemma_rebuilt_frame(g);
}

/// A preflight of a new fact is good for an insertion where nothing is missing
/// and the history has room, and for waiting where something is, its author has
/// a role and the quarantine has room.
pub proof fn preflights_are_given_where_there_is_room(g: GraphView, f: FactView, cost: CostView)
    requires
        g.indexes_current(),
        admission::screened(g, f) == Ok::<Option<CostView>, SemanticError>(Some(cost)),
    ensures
        cost.missing.len() == 0 && costs::admitted_bounds(g, f, cost, false) is Ok ==> (
        journal::preflighted(g, f) matches Ok(pf) && pf.admission is Inserted && pf.cost == Some(
            cost,
        )),
        cost.missing.len() > 0 && evaluator::effective_role(g, f.content.author) is Some
            && costs::quarantine_bounds(g, f, cost, false) is Ok ==> (journal::preflighted(g, f)
            matches Ok(pf) && pf.admission == (AdmissionView::Quarantined {
            missing: cost.missing,
        }) && pf.cost == Some(cost)),
        cost.missing.len() > 0 && evaluator::effective_role(g, f.content.author) is None
            ==> journal::preflighted(g, f) == Err::<PreflightView, SemanticError>(
            SemanticError::QuarantineSignerNotEligible,
        ),
{
}

} // verus!

//! What becomes of a waiter that is refused when its inputs are here, and what
//! a refusal tells.

use vstd::prelude::*;

use crate::admission;
use crate::admission::AdmissionView;
use crate::content::BodyView;
use crate::costs;
use crate::costs::CostView;
use crate::error::SemanticError;
use crate::evaluator;
use crate::fact::{Facts, FactView};
use crate::graph::{GraphView, ProjectionView};
use crate::ids::FactId;
use crate::journal;
use crate::order;
use crate::provenance;
use crate::provenance::PlanView;
use crate::quarantine;
use crate::rebuild;
use crate::retry;
use crate::retry::RetryView;
use crate::sweep;
use crate::validation;

verus! {

proof fn lemma_ids_err(
    g: GraphView,
    all: Facts,
    st: PlanView,
    selector: FactId,
    selected: FactId,
    ids: Seq<FactId>,
    n: int,
)
    ensures
        provenance::plan_ids(g, all, st, selector, selected, ids, n) matches Err(e) ==> e
            is CapacityExceeded || e is MissingParent,
    decreases n,
{
    if n > 0 {
        lemma_ids_err(g, all, st, selector, selected, ids, n - 1);
    }
}

proof fn lemma_contexts_err(
    g: GraphView,
    all: Facts,
    st: PlanView,
    contexts: Map<FactId, FactId>,
    list: Seq<FactId>,
    n: int,
)
    ensures
        provenance::plan_contexts(g, all, st, contexts, list, n) matches Err(e) ==> e
            is CapacityExceeded || e is MissingParent,
    decreases n,
{
    if n > 0 {
        lemma_contexts_err(g, all, st, contexts, list, n - 1);
        if let Ok(next) = provenance::plan_contexts(g, all, st, contexts, list, n - 1) {
            let ids = order::ascending(all.dom());
            lemma_ids_err(
                g,
                all,
                next,
                list[n - 1],
                contexts[list[n - 1]],
                ids,
                ids.len() as int,
            );
        }
    }
}

proof fn lemma_planned_err(g: GraphView, f: FactView)
    ensures
        provenance::planned(g, f) matches Err(e) ==> e is CapacityExceeded || e is MissingParent,
{
    reveal(provenance::planned);
    if let Ok(st) = provenance::plan_start(g, f) {
        if let Ok(contexts) = provenance::contexts_of(g, f) {
            let list = order::ascending(contexts.dom());
            lemma_contexts_err(
                g,
                g.facts.insert(f.id, f),
                st,
                contexts,
                list,
                list.len() as int,
            );
        }
    }
}

proof fn lemma_all_planned_err(g: GraphView, ids: Seq<FactId>, n: int)
    ensures
        rebuild::with_all_planned(g, ids, n) matches Err(e) ==> e is CapacityExceeded || e
            is MissingParent,
    decreases n,
{
    if n > 0 {
        lemma_all_planned_err(g, ids, n - 1);
        if let Ok(before) = rebuild::with_all_planned(g, ids, n - 1) {
            lemma_planned_err(before, before.facts[ids[n - 1]]);
        }
    }
}

/// What keeps a fact from being priced, measured or seen in its past is want
/// of room, of history, or of an encoding.
pub proof fn lemma_measuring_err(g: GraphView, f: FactView)
    ensures
        costs::cost_of(g, f) matches Err(e) ==> e is CapacityExceeded || e is MissingParent || e
            is EncodingFailed,
        costs::exact_delta(g, f) matches Err(e) ==> e is CapacityExceeded || e is MissingParent,
        rebuild::causal_view(g, f) matches Err(e) ==> e is CapacityExceeded || e is MissingParent,
        provenance::planned(g, f) matches Err(e) ==> e is CapacityExceeded || e is MissingParent,
{
    lemma_planned_err(g, f);
    reveal(costs::cost_of);
    reveal(costs::index_reserve);
    reveal(costs::exact_delta);
    reveal(rebuild::causal_view);
    if let Ok(ids) = crate::reach::walk(
        crate::reach::input_edges(g.facts),
        f.dependencies(),
        Set::empty(),
    ) {
        let part = rebuild::scoped(g, ids);
        let list = rebuild::selector_ids(part.facts);
        lemma_all_planned_err(part, list, list.len() as int);
    }
}

/// The limits refuse for want of room alone.
pub proof fn lemma_bounds_err(g: GraphView, f: FactView, cost: CostView, reserved: bool)
    ensures
        costs::admitted_bounds(g, f, cost, reserved) matches Err(e) ==> e is CapacityExceeded,
        costs::quarantine_bounds(g, f, cost, reserved) matches Err(e) ==> e is CapacityExceeded,
{
}

/// What the refusal of an offered fact tells: a fact that is verified, and is
/// refused for want of authority, has all its inputs admitted, is seen in its
/// past, and is refused there.
pub proof fn authority_is_judged_with_all_inputs_at_hand(
    g: GraphView,
    f: FactView,
    reserved: bool,
    supplied: Option<ProjectionView>,
    staged: Set<FactId>,
    e: SemanticError,
)
    requires
        f.checked.refusal is None,
        admission::offered(g, f, reserved, supplied, None, staged).1 == Err::<
            AdmissionView,
            SemanticError,
        >(e),
        e is UnauthorizedRoleGrant || e is UnauthorizedMembershipAdmit || e
            is UnauthorizedAttestation || e is UnauthorizedEviction || e is InvalidStandDownProof
            || e is InvalidAuthorityUse || e is InvalidEvictionEvidence,
    ensures
        ({
            let h = rebuild::ensured(g);
            &&& f.inputs().subset_of(h.facts.dom())
            &&& rebuild::causal_view(h, f) is Ok
            &&& validation::candidate_check(rebuild::causal_view(h, f)->Ok_0, f) == Err::<
                (),
                SemanticError,
            >(e)
            &&& admission::offered(g, f, reserved, supplied, None, staged).0 == h
        }),
{
    let h = rebuild::ensured(g);
    reveal(admission::offered);
    reveal(admission::screened);
    lemma_measuring_err(h, f);
    if let Ok(Some(cost)) = admission::screened(h, f) {
        lemma_bounds_err(h, f, cost, reserved);
        admission::lemma_screened(h, f);
        if cost.missing.len() == 0 {
            reveal(admission::cleared);
            lemma_none_missing(h, f, cost);
            if admission::cleared(h, f, cost, reserved) is Ok {
                reveal(admission::entered);
            }
        }
    }
}

/// A fact that misses nothing has all its inputs.
proof fn lemma_none_missing(g: GraphView, f: FactView, cost: CostView)
    requires
        cost.missing.to_set() == costs::missing_inputs(g, f),
        cost.missing.len() == 0,
    ensures
        f.inputs().subset_of(g.facts.dom()),
{
    assert forall|x: FactId| #[trigger] f.inputs().contains(x) implies g.facts.dom().contains(
        x,
    ) by {
        if !g.facts.contains_key(x) {
            assert(costs::missing_inputs(g, f).contains(x));
            assert(cost.missing.to_set().contains(x));
        }
    }
}

/// What validation can refuse a body for.
pub proof fn refusals_fit_the_body(past: GraphView, f: FactView, e: SemanticError)
    requires
        validation::candidate_check(past, f) == Err::<(), SemanticError>(e),
    ensures
        match f.content.body {
            BodyView::RoleGrant { .. } => e is UnauthorizedRoleGrant,
            BodyView::RoleRevoke { .. } => e is UnauthorizedRoleGrant,
            BodyView::Evict { .. } => e is UnauthorizedRoleGrant,
            BodyView::MembershipAdmit { .. } => e is UnauthorizedMembershipAdmit,
            BodyView::Attestation { .. } => e is UnauthorizedAttestation,
            BodyView::EvictionProof { .. } => e is UnauthorizedEviction || e
                is InvalidEvictionEvidence,
            BodyView::SelfStandDown { .. } => e is InvalidStandDownProof,
            BodyView::Resolution { .. } => e is UnauthorizedRoleGrant || e
                is ResolutionSelectionNotCited || e is IncompleteResolution || e
                is UnknownResolutionHead || e is ResolutionNotCurrent,
            BodyView::AuthorityLineageResolution { .. } => e is UnauthorizedRoleGrant || e
                is ResolutionSelectionNotCited || e is IncompleteResolution || e
                is InvalidAuthorityUse || e is ResolutionNotCurrent,
        },
{
    reveal(validation::candidate_check);
    if let BodyView::Resolution { cell, cited_heads, .. } = f.content.body {
        lemma_heads_err(past, f, cited_heads, cited_heads.len() as int);
    }
}

proof fn lemma_heads_err(c: GraphView, f: FactView, cited: Seq<FactId>, n: int)
    ensures
        validation::heads_check(c, f, cited, n) matches Err(e) ==> e is UnknownResolutionHead || e
            is IncompleteResolution,
    decreases n,
{
    if n > 0 {
        lemma_heads_err(c, f, cited, n - 1);
    }
}

/// A ready waiter that is refused for want of authority, for a stand-down that
/// does not hold or for a lineage that it may not use is dismissed: it leaves
/// the quarantine, nothing joins, its author gets back what it retained, and
/// the retry goes on.
pub proof fn unauthorized_waiters_are_dismissed(
    g: GraphView,
    id: FactId,
    staged: Set<FactId>,
    h: GraphView,
    cost: CostView,
    e: SemanticError,
)
    requires
        g.indexes_current(),
        g.quarantine.facts.contains_key(id),
        g.quarantine.facts[id].id == id,
        g.quarantine.facts[id].checked.refusal is None,
        quarantine::removed(g, id) == (
            h,
            Ok::<Option<FactView>, SemanticError>(Some(g.quarantine.facts[id])),
        ),
        costs::cost_of(h, g.quarantine.facts[id]) == Ok::<CostView, SemanticError>(cost),
        admission::offered(h, g.quarantine.facts[id], true, None, None, staged).1 == Err::<
            AdmissionView,
            SemanticError,
        >(e),
        e is UnauthorizedRoleGrant || e is UnauthorizedMembershipAdmit || e
            is UnauthorizedAttestation || e is UnauthorizedEviction || e is InvalidStandDownProof
            || e is InvalidAuthorityUse,
    ensures
        ({
            let (k, result) = retry::tried(g, id, staged);
            &&& result == Ok::<bool, SemanticError>(true)
            &&& !k.quarantine.facts.contains_key(id)
            &&& !k.quarantine.ready.contains(id)
            &&& k.facts == g.facts
            &&& k.index == g.index
            &&& k.order == g.order
            &&& k.ledger.retained == costs::let_go(
                g.ledger.retained,
                g.quarantine.facts[id].content.author,
                cost.encoded_bytes,
            )
        }),
{
    reveal(retry::tried);
    let f = g.quarantine.facts[id];
    authority_is_judged_with_all_inputs_at_hand(h, f, true, None, staged, e);
    assert(h.indexes_current());
    let past = rebuild::causal_view(h, f)->Ok_0;
    refusals_fit_the_body(past, f, e);
}

/// No retry of a verified waiter ends in a refusal for want of authority, for
/// a stand-down that does not hold or for a lineage that it may not use,
/// whatever the body of the waiter.
pub proof fn no_waiter_cancels_for_want_of_authority(g: GraphView, id: FactId, staged: Set<FactId>)
    requires
        g.indexes_current(),
        g.quarantine.facts.contains_key(id) ==> g.quarantine.facts[id].checked.refusal is None,
    ensures
        retry::tried(g, id, staged).1 matches Err(e) ==> !(e is UnauthorizedRoleGrant) && !(e
            is UnauthorizedMembershipAdmit) && !(e is UnauthorizedAttestation) && !(e
            is UnauthorizedEviction) && !(e is InvalidStandDownProof) && !(e
            is InvalidAuthorityUse),
        forall|x: FactId| #[trigger]
            retry::tried(g, id, staged).0.quarantine.facts.contains_key(x)
                ==> g.quarantine.facts.contains_key(x) && retry::tried(
                g,
                id,
                staged,
            ).0.quarantine.facts[x] == g.quarantine.facts[x] || g.quarantine.facts.contains_key(id)
                && retry::tried(g, id, staged).0.quarantine.facts[x] == g.quarantine.facts[id],
{
    reveal(retry::tried);
    let (h, found) = quarantine::removed(g, id);
    if g.quarantine.facts.contains_key(id) {
        let f = g.quarantine.facts[id];
        lemma_measuring_err(g, f);
        lemma_measuring_err(h, f);
        if found is Ok {
            let (k, result) = admission::offered(h, f, true, None, None, staged);
            assert(h.indexes_current());
            if let Err(e) = result {
                if e is UnauthorizedRoleGrant || e is UnauthorizedMembershipAdmit || e
                    is UnauthorizedAttestation || e is UnauthorizedEviction || e
                    is InvalidStandDownProof || e is InvalidAuthorityUse {
                    authority_is_judged_with_all_inputs_at_hand(h, f, true, None, staged, e);
                    refusals_fit_the_body(rebuild::causal_view(h, f)->Ok_0, f, e);
                }
                admission::refusal_keeps_custody(h, f, true, None, None, staged);
            } else {
                reveal(admission::offered);
                reveal(admission::entered);
            }
        }
    }
}

/// A waiter that is refused for what may still change, for room, for what it
/// would change, for evidence or for the heads that it cites, is not
/// dismissed: the retry ends with that refusal.
pub proof fn other_refusals_end_the_retry(
    g: GraphView,
    id: FactId,
    staged: Set<FactId>,
    h: GraphView,
    e: SemanticError,
)
    requires
        g.quarantine.facts.contains_key(id),
        quarantine::removed(g, id) == (
            h,
            Ok::<Option<FactView>, SemanticError>(Some(g.quarantine.facts[id])),
        ),
        costs::cost_of(h, g.quarantine.facts[id]) is Ok,
        admission::offered(h, g.quarantine.facts[id], true, None, None, staged).1 == Err::<
            AdmissionView,
            SemanticError,
        >(e),
        e is CapacityExceeded || e is NoOp || e is MissingParent || e is EncodingFailed || e
            is InvalidEvictionEvidence || e is ResolutionSelectionNotCited || e
            is IncompleteResolution || e is UnknownResolutionHead || e is ResolutionNotCurrent || e
            is QuarantineSignerNotEligible || e is ContextMismatch || e is DuplicateFact || e
            is SelfParent || e is Cycle,
    ensures
        retry::tried(g, id, staged).1 == Err::<bool, SemanticError>(e),
{
    reveal(retry::tried);
}

/// A waiter that is not refused is counted as changed, and leaves the
/// quarantine for the facts where all its inputs are here.
pub proof fn accepted_waiters_join(
    g: GraphView,
    id: FactId,
    staged: Set<FactId>,
    h: GraphView,
    a: AdmissionView,
)
    requires
        g.quarantine.facts.contains_key(id),
        quarantine::removed(g, id) == (
            h,
            Ok::<Option<FactView>, SemanticError>(Some(g.quarantine.facts[id])),
        ),
        costs::cost_of(h, g.quarantine.facts[id]) is Ok,
        admission::offered(h, g.quarantine.facts[id], true, None, None, staged).1 == Ok::<
            AdmissionView,
            SemanticError,
        >(a),
    ensures
        retry::tried(g, id, staged).1 == Ok::<bool, SemanticError>(true),
        a is Inserted && g.indexes_current() ==> retry::tried(g, id, staged).0.facts
            == g.facts.insert(g.quarantine.facts[id].id, g.quarantine.facts[id]),
        a is Inserted && g.indexes_current() && g.quarantine.facts[id].id == id ==> !retry::tried(
            g,
            id,
            staged,
        ).0.quarantine.facts.contains_key(id),
{
    reveal(retry::tried);
    reveal(admission::offered);
    reveal(admission::entered);
    assert(g.indexes_current() ==> h.indexes_current());
}

/// Whether all that waits was verified.
pub open spec fn is_verified(g: GraphView) -> bool {
    forall|id: FactId| #[trigger]
        g.quarantine.facts.contains_key(id) ==> g.quarantine.facts[id].checked.refusal is None
}

proof fn lemma_retried_list_goes_on(
    st: RetryView,
    list: Seq<FactId>,
    n: int,
    staged: Set<FactId>,
)
    requires
        st.refusal is None,
        is_verified(st.g),
        quarantine::owned(st.g),
        st.g.indexes_current(),
        retry::is_countable(st.g, 0),
    ensures
        ({
            let end = retry::retried_list(st, list, n, staged);
            &&& end.refusal matches Some(e) ==> !(e is UnauthorizedRoleGrant) && !(e
                is UnauthorizedMembershipAdmit) && !(e is UnauthorizedAttestation) && !(e
                is UnauthorizedEviction) && !(e is InvalidStandDownProof) && !(e
                is InvalidAuthorityUse)
            &&& is_verified(end.g)
        }),
    decreases n,
{
    if n > 0 {
        lemma_retried_list_goes_on(st, list, n - 1, staged);
        let before = retry::retried_list(st, list, n - 1, staged);
        retry::lemma_retried_list(st, list, n - 1, staged, st.g);
        if before.refusal is None {
            no_waiter_cancels_for_want_of_authority(before.g, list[n - 1], staged);
        }
    }
}

/// A retry of everything that became ready never ends because a waiter lacks
/// authority.
pub proof fn retries_go_on_past_the_unauthorized(st: RetryView, limit: nat, staged: Set<FactId>)
    requires
        st.refusal is None,
        is_verified(st.g),
        quarantine::owned(st.g),
        st.g.indexes_current(),
        retry::is_countable(st.g, 0),
    ensures
        retry::retried_all(st, limit, staged).refusal matches Some(e) ==> !(e
            is UnauthorizedRoleGrant) && !(e is UnauthorizedMembershipAdmit) && !(e
            is UnauthorizedAttestation) && !(e is UnauthorizedEviction) && !(e
            is InvalidStandDownProof) && !(e is InvalidAuthorityUse),
    decreases limit - st.budget,
{
    let list = retry::frontier(st, limit);
    if list.len() > 0 {
        lemma_retried_list_goes_on(st, list, list.len() as int, staged);
        retry::lemma_retried_list(st, list, list.len() as int, staged, st.g);
        let next = retry::retried_list(st, list, list.len() as int, staged);
        if next.refusal is Some || next.budget <= st.budget || next.budget > limit {
        } else {
            retries_go_on_past_the_unauthorized(next, limit, staged);
        }
    }
}

/// A fact that is itself admitted stays, whatever authority the waiters that
/// it wakes may lack: a journaled admission is refused for want of authority
/// only where the offered fact itself was.
pub proof fn waiters_never_cancel_what_woke_them(
    g: GraphView,
    f: FactView,
    limit: usize,
    offer: (GraphView, Result<AdmissionView, SemanticError>),
    prep: journal::PreparedView,
    staged: Seq<FactId>,
    impact_staged: Set<FactId>,
    budget: nat,
)
    requires
        offer.1 is Ok,
        is_verified(offer.0),
        quarantine::owned(offer.0),
        offer.0.indexes_current(),
        retry::is_countable(offer.0, 0),
    ensures
        journal::followed(
            g.fence.generation,
            f.id,
            offer,
            prep,
            staged,
            impact_staged,
            limit,
            budget,
        ).result matches Err(e) ==> !(e is UnauthorizedRoleGrant) && !(e
            is UnauthorizedMembershipAdmit) && !(e is UnauthorizedAttestation) && !(e
            is UnauthorizedEviction) && !(e is InvalidStandDownProof) && !(e
            is InvalidAuthorityUse),
{
    reveal(journal::followed);
    retries_go_on_past_the_unauthorized(
        journal::retry_start(offer.0, prep.rb, budget),
        limit as nat,
        impact_staged,
    );
}

/// A sweep drops a waiter that is refused, and reports the refusal unless it
/// is one of authority.
pub proof fn sweeps_report_all_but_want_of_authority(
    g: GraphView,
    id: FactId,
    h: GraphView,
    e: SemanticError,
)
    requires
        g.indexes_current(),
        g.quarantine.facts.contains_key(id),
        g.quarantine.facts[id].checked.refusal is None,
        quarantine::removed(g, id) == (
            h,
            Ok::<Option<FactView>, SemanticError>(Some(g.quarantine.facts[id])),
        ),
        costs::cost_of(h, g.quarantine.facts[id]) is Ok,
        admission::offered(h, g.quarantine.facts[id], true, None, None, Set::empty()).1 == Err::<
            AdmissionView,
            SemanticError,
        >(e),
    ensures
        ({
            let (k, result) = sweep::swept_waiter(g, id);
            &&& !k.quarantine.facts.contains_key(id)
            &&& result == Ok::<sweep::SweptView, SemanticError>(
                sweep::SweptView {
                    inserted: false,
                    refusal: if e is UnauthorizedRoleGrant || e is UnauthorizedMembershipAdmit || e
                        is UnauthorizedAttestation || e is UnauthorizedEviction {
                        None
                    } else {
                        Some(e)
                    },
                },
            )
        }),
{
    reveal(sweep::swept_waiter);
    let f = g.quarantine.facts[id];
    assert(h.indexes_current());
    if e is UnauthorizedRoleGrant || e is UnauthorizedMembershipAdmit || e
        is UnauthorizedAttestation || e is UnauthorizedEviction {
        authority_is_judged_with_all_inputs_at_hand(h, f, true, None, Set::empty(), e);
        refusals_fit_the_body(rebuild::causal_view(h, f)->Ok_0, f, e);
    }
    admission::refusal_keeps_custody(h, f, true, None, None, Set::empty());
}

/// A verified fact that waits for something has an author with a role, and
/// misses exactly the inputs that were not admitted; one whose author has no
/// role does not wait.
pub proof fn only_role_holders_wait(
    g: GraphView,
    f: FactView,
    reserved: bool,
    supplied: Option<ProjectionView>,
    cost: CostView,
    staged: Set<FactId>,
)
    requires
        g.indexes_current(),
        cost.missing.len() > 0,
    ensures
        evaluator::effective_role(g, f.content.author) is None ==> admission::offered(
            g,
            f,
            reserved,
            supplied,
            Some(cost),
            staged,
        ) == (g, Err::<AdmissionView, SemanticError>(SemanticError::QuarantineSignerNotEligible)),
        admission::offered(g, f, reserved, supplied, Some(cost), staged).1 matches Ok(a) ==> {
            let h = admission::offered(g, f, reserved, supplied, Some(cost), staged).0;
            &&& evaluator::effective_role(g, f.content.author) is Some
            &&& a == (AdmissionView::Quarantined {
                missing: order::ascending(cost.missing.to_set()),
            })
            &&& h.facts == g.facts
            &&& h.quarantine.facts == g.quarantine.facts.insert(f.id, f)
            &&& h.quarantine.missing[f.id] == cost.missing.to_set()
            &&& !g.quarantine.ready.contains(f.id) ==> !h.quarantine.ready.contains(f.id)
        },
{
    reveal(admission::offered);
}

} // verus!

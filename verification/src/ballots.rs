//! What proves an eviction, and what lets a device stand down.

use vstd::prelude::*;

use crate::admission;
use crate::admission::AdmissionView;
use crate::content::{AttestationDecision, BodyView, Role};
use crate::costs::CostView;
use crate::device::DeviceId;
use crate::error::SemanticError;
use crate::evaluator;
use crate::fact::FactView;
use crate::graph::{GraphView, ProjectionView};
use crate::ids::FactId;
use crate::rebuild;
use crate::validation;

verus! {

/// An eviction proof that holds rests on votes alone: every piece of its
/// evidence is at hand, is an attestation to evict, against the device that
/// the proof is against, signed by the device that authored it, which holds a
/// role.  An approval or a rejection is never evidence.
pub proof fn eviction_proofs_rest_on_votes_to_evict(
    past: GraphView,
    target: DeviceId,
    evidence: Seq<FactId>,
    author: DeviceId,
    i: int,
)
    requires
        validation::eviction_check(past, target, evidence, author) is Ok,
        0 <= i < evidence.len(),
    ensures
        past.facts.contains_key(evidence[i]),
        match past.facts[evidence[i]].content.body {
            BodyView::Attestation { target: against, decision, signer, .. } => {
                &&& decision == AttestationDecision::Evict
                &&& decision != AttestationDecision::Approve
                &&& decision != AttestationDecision::Reject
                &&& against == target
                &&& signer == past.facts[evidence[i]].content.author
                &&& evaluator::effective_role(past, signer) is Some
            },
            _ => false,
        },
{
    assert(validation::is_vote(past, target, evidence[i]));
}

/// One piece of evidence that is no such vote refuses the proof of a device
/// that may evict the target, whatever else the evidence holds.
pub proof fn one_false_vote_refuses_the_proof(
    past: GraphView,
    target: DeviceId,
    evidence: Seq<FactId>,
    author: DeviceId,
    i: int,
)
    requires
        evaluator::eval(past).authorizes(author, BodyView::Evict { target }),
        0 <= i < evidence.len(),
        past.facts.contains_key(evidence[i]) ==> match past.facts[evidence[i]].content.body {
            BodyView::Attestation { target: against, decision, signer, .. } => decision
                == AttestationDecision::Approve || decision == AttestationDecision::Reject
                || against != target || signer != past.facts[evidence[i]].content.author
                || evaluator::effective_role(past, signer) is None,
            _ => true,
        },
    ensures
        validation::eviction_check(past, target, evidence, author) == Err::<(), SemanticError>(
            SemanticError::InvalidEvictionEvidence,
        ),
{
    assert(!validation::is_vote(past, target, evidence[i]));
}

/// Votes to evict by devices that hold a role, as many as there are, prove the
/// eviction for a device that may evict the target.
pub proof fn votes_to_evict_prove_the_eviction(
    past: GraphView,
    target: DeviceId,
    evidence: Seq<FactId>,
    author: DeviceId,
)
    requires
        evaluator::eval(past).authorizes(author, BodyView::Evict { target }),
        forall|i: int|
            0 <= i < evidence.len() ==> past.facts.contains_key(#[trigger] evidence[i]) && match
            past.facts[evidence[i]].content.body {
                BodyView::Attestation { target: against, decision, signer, .. } => decision
                    == AttestationDecision::Evict && against == target && signer
                    == past.facts[evidence[i]].content.author && evaluator::effective_role(
                    past,
                    signer,
                ) is Some && past.reading().provenance_complete(signer),
                _ => false,
            },
    ensures
        validation::eviction_check(past, target, evidence, author) == Ok::<(), SemanticError>(()),
{
    assert forall|i: int| 0 <= i < evidence.len() implies validation::is_vote(
        past,
        target,
        #[trigger] evidence[i],
    ) by {
        assert(past.facts.contains_key(evidence[i]));
    }
}

/// Who may not evict a device proves its eviction with no evidence at all.
pub proof fn who_may_not_evict_proves_nothing(
    past: GraphView,
    target: DeviceId,
    evidence: Seq<FactId>,
    author: DeviceId,
)
    requires
        evaluator::effective_role(past, author) is None || evaluator::effective_role(past, author)
            == Some(Role::Member) || evaluator::effective_role(past, author) == Some(
            Role::Controller,
        ) && (evaluator::effective_role(past, target) is None || evaluator::effective_role(
            past,
            target,
        ) == Some(Role::Owner)),
    ensures
        validation::eviction_check(past, target, evidence, author) == Err::<(), SemanticError>(
            SemanticError::UnauthorizedEviction,
        ),
{
}

/// More evidence proves an eviction exactly when each part of it does.
pub proof fn evidence_is_weighed_piece_by_piece(
    past: GraphView,
    target: DeviceId,
    some: Seq<FactId>,
    more: Seq<FactId>,
    author: DeviceId,
)
    ensures
        validation::eviction_check(past, target, some + more, author) is Ok <==> (
        validation::eviction_check(past, target, some, author) is Ok && validation::eviction_check(
            past,
            target,
            more,
            author,
        ) is Ok),
{
    let all = some + more;
    if validation::eviction_check(past, target, all, author) is Ok {
        assert forall|i: int| 0 <= i < some.len() implies validation::is_vote(
            past,
            target,
            #[trigger] some[i],
        ) by {
            assert(all[i] == some[i]);
        }
        assert forall|i: int| 0 <= i < more.len() implies validation::is_vote(
            past,
            target,
            #[trigger] more[i],
        ) by {
            assert(all[some.len() + i] == more[i]);
        }
    }
}

/// A stand-down that holds is its author's own, and every piece of its
/// evidence is a proof, at hand, that the author was evicted.
pub proof fn stand_downs_rest_on_proofs_of_eviction(
    past: GraphView,
    device: DeviceId,
    evidence: Seq<FactId>,
    author: DeviceId,
)
    ensures
        validation::stand_down_check(past, device, evidence, author) is Ok <==> device == author
            && forall|i: int|
            0 <= i < evidence.len() ==> past.facts.contains_key(#[trigger] evidence[i]) && match
            past.facts[evidence[i]].content.body {
                BodyView::EvictionProof { target, .. } => target == device,
                _ => false,
            },
        validation::stand_down_check(past, device, evidence, author) matches Err(e) ==> e
            == SemanticError::InvalidStandDownProof,
{
    if validation::stand_down_check(past, device, evidence, author) is Ok {
        assert forall|i: int| 0 <= i < evidence.len() implies past.facts.contains_key(
            #[trigger] evidence[i],
        ) && match past.facts[evidence[i]].content.body {
            BodyView::EvictionProof { target, .. } => target == device,
            _ => false,
        } by {
            assert(validation::is_proof(past, device, evidence[i]));
        }
    } else if device == author {
        let i = choose|i: int|
            0 <= i < evidence.len() && !validation::is_proof(past, device, #[trigger] evidence[i]);
        assert(!validation::is_proof(past, device, evidence[i]));
    }
}

/// An eviction proof that joined a graph rests on votes to evict its target
/// that are among its inputs, and a stand-down that joined rests on proofs
/// that its author was evicted.
pub proof fn evidence_that_joined_was_good(
    g: GraphView,
    f: FactView,
    reserved: bool,
    supplied: Option<ProjectionView>,
    cost: Option<CostView>,
    staged: Set<FactId>,
)
    requires
        admission::offered(g, f, reserved, supplied, cost, staged).1 == Ok::<
            AdmissionView,
            SemanticError,
        >(AdmissionView::Inserted),
    ensures
        ({
            let past = rebuild::causal_view(rebuild::ensured(g), f)->Ok_0;
            match f.content.body {
                BodyView::EvictionProof { target, evidence } => forall|i: int|
                    0 <= i < evidence.len() ==> f.inputs().contains(#[trigger] evidence[i])
                        && past.facts.contains_key(evidence[i]) && (
                    past.facts[evidence[i]].content.body matches BodyView::Attestation {
                        target: against,
                        decision,
                        signer,
                        ..
                    } && against == target && decision == AttestationDecision::Evict && decision
                        != AttestationDecision::Approve && decision
                        != AttestationDecision::Reject && signer
                        == past.facts[evidence[i]].content.author && evaluator::effective_role(
                        past,
                        signer,
                    ) is Some),
                BodyView::SelfStandDown { device_id, evidence } => device_id == f.content.author
                    && forall|i: int|
                    0 <= i < evidence.len() ==> f.inputs().contains(#[trigger] evidence[i])
                        && past.facts.contains_key(evidence[i]) && (
                    past.facts[evidence[i]].content.body matches BodyView::EvictionProof {
                        target,
                        ..
                    } && target == device_id),
                _ => true,
            }
        }),
{
    reveal(admission::offered);
    reveal(admission::entered);
    reveal(admission::cleared);
    reveal(validation::candidate_check);
    let past = rebuild::causal_view(rebuild::ensured(g), f)->Ok_0;
    match f.content.body {
        BodyView::EvictionProof { target, evidence } => {
            assert forall|i: int| 0 <= i < evidence.len() implies f.inputs().contains(
                #[trigger] evidence[i],
            ) && past.facts.contains_key(evidence[i]) && (
            past.facts[evidence[i]].content.body matches BodyView::Attestation {
                target: against,
                decision,
                signer,
                ..
            } && against == target && decision == AttestationDecision::Evict && decision
                != AttestationDecision::Approve && decision != AttestationDecision::Reject && signer
                == past.facts[evidence[i]].content.author && evaluator::effective_role(
                past,
                signer,
            ) is Some) by {
                eviction_proofs_rest_on_votes_to_evict(
                    past,
                    target,
                    evidence,
                    f.content.author,
                    i,
                );
                assert(f.content.body.support().contains(evidence[i]));
            }
        },
        BodyView::SelfStandDown { device_id, evidence } => {
            stand_downs_rest_on_proofs_of_eviction(past, device_id, evidence, f.content.author);
            assert forall|i: int| 0 <= i < evidence.len() implies f.inputs().contains(
                #[trigger] evidence[i],
            ) by {
                assert(f.content.body.support().contains(evidence[i]));
            }
        },
        _ => {},
    }
}

/// A proof of eviction whose evidence holds something other than a vote to
/// evict its target does not join.
pub proof fn bad_evidence_is_refused(
    g: GraphView,
    f: FactView,
    reserved: bool,
    supplied: Option<ProjectionView>,
    cost: CostView,
    staged: Set<FactId>,
    past: GraphView,
    target: DeviceId,
    evidence: Seq<FactId>,
    i: int,
)
    requires
        g.indexes_current(),
        cost.missing.len() == 0,
        rebuild::causal_view(g, f) == Ok::<GraphView, SemanticError>(past),
        f.content.body == (BodyView::EvictionProof { target, evidence }),
        validation::carries_lineages(past, f),
        evaluator::eval(past).authorizes(f.content.author, BodyView::Evict { target }),
        0 <= i < evidence.len(),
        past.facts.contains_key(evidence[i]) ==> match past.facts[evidence[i]].content.body {
            BodyView::Attestation { target: against, decision, .. } => decision
                == AttestationDecision::Approve || decision == AttestationDecision::Reject
                || against != target,
            _ => true,
        },
    ensures
        admission::offered(g, f, reserved, supplied, Some(cost), staged) == (
            g,
            Err::<AdmissionView, SemanticError>(SemanticError::InvalidEvictionEvidence),
        ),
{
    reveal(admission::offered);
    reveal(admission::cleared);
    reveal(validation::candidate_check);
    one_false_vote_refuses_the_proof(past, target, evidence, f.content.author, i);
}

/// A proof whose evidence is votes to evict its target, by devices that hold a
/// role, is accepted by its past, where its author may evict and it carries the
/// lineages of its subjects; and so is a stand-down on proofs against its own
/// author.
pub proof fn good_evidence_is_accepted(past: GraphView, f: FactView)
    requires
        validation::carries_lineages(past, f),
        match f.content.body {
            BodyView::EvictionProof { target, evidence } => evaluator::eval(past).authorizes(
                f.content.author,
                BodyView::Evict { target },
            ) && forall|i: int|
                0 <= i < evidence.len() ==> past.facts.contains_key(#[trigger] evidence[i])
                    && match past.facts[evidence[i]].content.body {
                    BodyView::Attestation { target: against, decision, signer, .. } => decision
                        == AttestationDecision::Evict && against == target && signer
                        == past.facts[evidence[i]].content.author && evaluator::effective_role(
                        past,
                        signer,
                    ) is Some && past.reading().provenance_complete(signer),
                    _ => false,
                },
            BodyView::SelfStandDown { device_id, evidence } => device_id == f.content.author
                && forall|i: int|
                0 <= i < evidence.len() ==> past.facts.contains_key(#[trigger] evidence[i])
                    && match past.facts[evidence[i]].content.body {
                    BodyView::EvictionProof { target, .. } => target == device_id,
                    _ => false,
                },
            _ => false,
        },
    ensures
        validation::candidate_check(past, f) == Ok::<(), SemanticError>(()),
{
    reveal(validation::candidate_check);
    match f.content.body {
        BodyView::EvictionProof { target, evidence } => {
            votes_to_evict_prove_the_eviction(past, target, evidence, f.content.author);
        },
        BodyView::SelfStandDown { device_id, evidence } => {
            stand_downs_rest_on_proofs_of_eviction(past, device_id, evidence, f.content.author);
        },
        _ => {},
    }
}

} // verus!

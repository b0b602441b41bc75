//! Which operations would change nothing, and are refused for it.

use vstd::prelude::*;

use crate::admission;
use crate::admission::AdmissionView;
use crate::content::{BodyView, ExclusiveCell, Role};
use crate::costs;
use crate::costs::CostView;
use crate::device::DeviceId;
use crate::error::SemanticError;
use crate::evaluator;
use crate::fact::FactView;
use crate::graph::{CellView, GraphView, ProjectionView};
use crate::ids::FactId;
use crate::projection;
use crate::rebuild;
use crate::validation;

verus! {

/// A grant changes nothing exactly where its target has that very role: a
/// grant of a higher or a lower one does.
pub proof fn grants_of_the_role_held_change_nothing(past: GraphView, target: DeviceId, role: Role)
    ensures
        evaluator::noop(past, BodyView::RoleGrant { target, role }) is Some
            <==> evaluator::effective_role(past, target) == Some(role),
        evaluator::noop(past, BodyView::RoleGrant { target, role }) matches Some(m) ==> m
            == "role grant already effective",
{
}

/// A revocation changes nothing exactly where its target has no role to
/// lose: its role cell is settled at something other than a grant to it, or
/// never advanced and the target is no root.  A contested role can be
/// revoked.
pub proof fn revocations_need_a_role_to_take(past: GraphView, target: DeviceId)
    ensures
        evaluator::noop(past, BodyView::RoleRevoke { target }) is Some <==> ({
            let p = projection::current(past);
            let cell = ExclusiveCell::Role { subject: target };
            if p.cells.contains_key(cell) {
                match p.cells[cell] {
                    CellView::Conflict(_) => false,
                    CellView::Value(id) => !(past.facts.contains_key(id)
                        && (past.facts[id].content.body matches BodyView::RoleGrant {
                        target: t,
                        ..
                    } && t == target)),
                }
            } else {
                !(past.setting.roots.contains(target) && past.reading().raw_heads(cell) == Set::<
                    FactId,
                >::empty())
            }
        }),
        evaluator::noop(past, BodyView::RoleRevoke { target }) matches Some(m) ==> m
            == "role revoke targets an absent role",
{
}

/// An admission changes nothing exactly where its target is a member already;
/// one that was put out, or never admitted, can be admitted.
pub proof fn admissions_of_members_change_nothing(past: GraphView, target: DeviceId)
    ensures
        evaluator::noop(past, BodyView::MembershipAdmit { target }) is Some <==> evaluator::eval(
            past,
        ).membership(target) == Some(true),
        evaluator::noop(past, BodyView::MembershipAdmit { target }) matches Some(m) ==> m
            == "membership is already admitted",
{
}

/// A stand-down changes nothing exactly where its device stands down already.
pub proof fn devices_stand_down_once(past: GraphView, device: DeviceId, evidence: Seq<FactId>)
    ensures
        evaluator::noop(past, BodyView::SelfStandDown { device_id: device, evidence }) is Some
            <==> projection::current(past).stand_down.contains_key(device),
        evaluator::noop(past, BodyView::SelfStandDown { device_id: device, evidence }) matches Some(
            m,
        ) ==> m == "stand-down is already effective",
{
}

/// A resolution changes nothing exactly where nothing contends for its cell,
/// whatever kind of cell it is.
pub proof fn resolutions_need_a_conflict(
    past: GraphView,
    cell: ExclusiveCell,
    cited: Seq<FactId>,
    selected: FactId,
)
    ensures
        evaluator::noop(
            past,
            BodyView::Resolution { cell, cited_heads: cited, selected_head: selected },
        ) is Some <==> !(projection::current(past).cells.contains_key(cell) && projection::current(
            past,
        ).cells[cell] is Conflict),
        evaluator::noop(
            past,
            BodyView::Resolution { cell, cited_heads: cited, selected_head: selected },
        ) matches Some(m) ==> m == "resolution has no live conflict",
{
}

/// A selection in a lineage changes nothing exactly where the lineage has at
/// most one head.
pub proof fn selections_need_a_fork(
    past: GraphView,
    subject: DeviceId,
    cited: Seq<FactId>,
    selected: FactId,
)
    requires
        past.reading().authority_heads(subject).finite(),
    ensures
        evaluator::noop(
            past,
            BodyView::AuthorityLineageResolution {
                subject,
                cited_heads: cited,
                selected_head: selected,
            },
        ) is Some <==> past.reading().authority_heads(subject).len() <= 1,
        evaluator::noop(
            past,
            BodyView::AuthorityLineageResolution {
                subject,
                cited_heads: cited,
                selected_head: selected,
            },
        ) matches Some(m) ==> m == "authority-lineage resolution has no live conflict",
{
    crate::ordset::lemma_listing(past.reading().authority_heads(subject));
}

/// Redundancy is judged in the past of the fact; an eviction, a proof of one
/// and an attestation are never redundant.
pub proof fn redundancy_is_judged_in_the_past(g: GraphView, f: FactView)
    ensures
        f.content.body is Evict || f.content.body is EvictionProof || f.content.body is Attestation
            ==> validation::noop_for(g, f) == Ok::<Option<&'static str>, SemanticError>(None),
        !(f.content.body is Evict || f.content.body is EvictionProof || f.content.body
            is Attestation) ==> validation::noop_for(g, f) == (match rebuild::causal_view(g, f) {
            Ok(past) => Ok::<Option<&'static str>, SemanticError>(
                evaluator::noop(past, f.content.body),
            ),
            Err(e) => Err(e),
        }),
{
}

/// A fact that would change nothing in its own past does not join: it is
/// refused as such, and the graph is as it was.
pub proof fn redundant_facts_are_refused(
    g: GraphView,
    f: FactView,
    reserved: bool,
    supplied: Option<ProjectionView>,
    staged: Set<FactId>,
    past: GraphView,
    cost: CostView,
    why: &'static str,
)
    requires
        g.indexes_current(),
        f.checked.refusal is None,
        f.content.mesh_context == g.setting.context_id,
        g.setting.policy == crate::policy::VerifiedProjectPolicy::Closed,
        !g.facts.contains_key(f.id),
        !g.quarantine.facts.contains_key(f.id),
        !f.content.parents.contains(f.id),
        costs::cost_of(g, f) == Ok::<CostView, SemanticError>(cost),
        cost.missing.len() == 0,
        rebuild::causal_view(g, f) == Ok::<GraphView, SemanticError>(past),
        !(f.content.body is Evict || f.content.body is EvictionProof || f.content.body
            is Attestation),
        evaluator::noop(past, f.content.body) == Some(why),
    ensures
        admission::offered(g, f, reserved, supplied, None, staged) == (
            g,
            Err::<AdmissionView, SemanticError>(SemanticError::NoOp(why)),
        ),
{
    reveal(admission::offered);
    reveal(admission::screened);
}

/// A fact that joined without a price known before would have changed
/// something in its own past: its target did not have the role that it
/// grants, had one that it takes, was no member that it admits; its device did
/// not stand down; what it resolves was contested.
pub proof fn what_joined_changes_something(
    g: GraphView,
    f: FactView,
    reserved: bool,
    supplied: Option<ProjectionView>,
    staged: Set<FactId>,
)
    requires
        admission::offered(g, f, reserved, supplied, None, staged).1 == Ok::<
            AdmissionView,
            SemanticError,
        >(AdmissionView::Inserted),
    ensures
        ({
            let past = rebuild::causal_view(rebuild::ensured(g), f)->Ok_0;
            match f.content.body {
                BodyView::RoleGrant { target, role } => evaluator::effective_role(past, target)
                    != Some(role),
                BodyView::MembershipAdmit { target } => evaluator::eval(past).membership(target)
                    != Some(true),
                BodyView::SelfStandDown { device_id, .. } => !projection::current(
                    past,
                ).stand_down.contains_key(device_id),
                BodyView::Resolution { cell, .. } => projection::current(past).cells.contains_key(
                    cell,
                ) && projection::current(past).cells[cell] is Conflict,
                _ => true,
            }
        }),
{
    reveal(admission::offered);
    reveal(admission::screened);
    reveal(admission::entered);
    reveal(admission::cleared);
}

} // verus!

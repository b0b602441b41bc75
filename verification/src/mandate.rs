//! Who may do what: the authority that each operation takes of its author.

use vstd::prelude::*;

use crate::admission;
use crate::admission::AdmissionView;
use crate::content::{BodyView, ExclusiveCell, Role};
use crate::costs::CostView;
use crate::device::DeviceId;
use crate::error::SemanticError;
use crate::evaluator;
use crate::evaluator::EvalView;
use crate::fact::FactView;
use crate::graph::{GraphView, ProjectionView};
use crate::ids::FactId;
use crate::reach;
use crate::rebuild;
use crate::validation;

verus! {

/// What contends for a role is never less than a controller's.
proof fn lemma_cited_tier_is_high(
    g: GraphView,
    subject: DeviceId,
    cited: Seq<FactId>,
    visited: Set<FactId>,
    n: int,
)
    requires
        g.facts.dom().finite(),
    ensures
        evaluator::tier_of_cited(g, subject, cited, visited, n) != Some(Role::Member),
    decreases g.facts.dom().difference(visited).len(), 1int, n,
{
    if n > 0 {
        lemma_cited_tier_is_high(g, subject, cited, visited, n - 1);
        lemma_head_tier_is_high(g, subject, cited[n - 1], visited);
    }
}

proof fn lemma_head_tier_is_high(
    g: GraphView,
    subject: DeviceId,
    head: FactId,
    visited: Set<FactId>,
)
    requires
        g.facts.dom().finite(),
    ensures
        evaluator::tier_of_head(g, subject, head, visited) != Some(Role::Member),
    decreases g.facts.dom().difference(visited).len(), 0int, 0int,
{
    if !visited.contains(head) && g.facts.contains_key(head) {
        if let BodyView::Resolution { cell, cited_heads, .. } = g.facts[head].content.body {
            if cell == (ExclusiveCell::Role { subject }) {
                assert(reach::parent_edges(g.facts).dom() =~= g.facts.dom());
                reach::lemma_unseen(reach::parent_edges(g.facts), visited, head);
                lemma_cited_tier_is_high(
                    g,
                    subject,
                    cited_heads,
                    visited.insert(head),
                    cited_heads.len() as int,
                );
            }
        }
    }
}

/// A cited head that takes an owner makes the whole citation take one.
proof fn lemma_owner_is_highest(
    g: GraphView,
    subject: DeviceId,
    cited: Seq<FactId>,
    visited: Set<FactId>,
    i: int,
    n: int,
)
    requires
        g.facts.dom().finite(),
        0 <= i < n,
        evaluator::tier_of_head(g, subject, cited[i], visited) == Some(Role::Owner),
    ensures
        evaluator::tier_of_cited(g, subject, cited, visited, n) == Some(Role::Owner),
    decreases n,
{
    if i < n - 1 {
        lemma_owner_is_highest(g, subject, cited, visited, i, n - 1);
    }
}

/// A device without an effective role may do nothing but stand down, and so
/// may one whose selections are not all on record.
pub proof fn who_holds_no_role_may_only_stand_down(e: EvalView, author: DeviceId, body: BodyView)
    requires
        e.role(author) is None || !e.g.reading().provenance_complete(author),
        e.authorizes(author, body),
    ensures
        body matches BodyView::SelfStandDown { device_id, .. } && device_id == author,
{
}

/// A member may attest, and resolve what attestations contend for.  It may
/// grant, revoke, admit, evict, prove an eviction and resolve anything else
/// for nobody, whatever role the device has that it would act on.
pub proof fn members_may_only_attest(e: EvalView, member: DeviceId, body: BodyView)
    requires
        e.g.facts.dom().finite(),
        e.role(member) == Some(Role::Member),
        e.authorizes(member, body),
    ensures
        match body {
            BodyView::Attestation { .. } => true,
            BodyView::Resolution { cell: ExclusiveCell::Decision { .. }, .. } => true,
            BodyView::SelfStandDown { device_id, .. } => device_id == member,
            _ => false,
        },
{
    match body {
        BodyView::Resolution { cell: ExclusiveCell::Role { subject }, cited_heads, .. } => {
            lemma_cited_tier_is_high(
                e.g,
                subject,
                cited_heads,
                Set::empty(),
                cited_heads.len() as int,
            );
        },
        BodyView::AuthorityLineageResolution { subject, cited_heads, .. } => {
            lemma_cited_tier_is_high(
                e.g,
                subject,
                cited_heads,
                Set::empty(),
                cited_heads.len() as int,
            );
        },
        _ => {},
    }
}

/// A controller may make no owner, and may act on members and controllers
/// only: on no owner, and on no device without a role.
pub proof fn controllers_may_not_touch_owners(e: EvalView, controller: DeviceId, body: BodyView)
    requires
        e.role(controller) == Some(Role::Controller),
        e.authorizes(controller, body),
    ensures
        match body {
            BodyView::RoleGrant { role, .. } => role == Role::Member || role == Role::Controller,
            BodyView::RoleRevoke { target } => e.role(target) == Some(Role::Member) || e.role(
                target,
            ) == Some(Role::Controller),
            BodyView::Evict { target } => e.role(target) == Some(Role::Member) || e.role(target)
                == Some(Role::Controller),
            BodyView::EvictionProof { target, .. } => e.role(target) == Some(Role::Member)
                || e.role(target) == Some(Role::Controller),
            BodyView::Resolution { cell: ExclusiveCell::Membership { subject }, .. } => e.role(
                subject,
            ) == Some(Role::Member) || e.role(subject) == Some(Role::Controller),
            BodyView::SelfStandDown { device_id, .. } => device_id == controller,
            _ => true,
        },
{
}

/// Only an owner resolves a contest for a role, or for a lineage, in which
/// one of the cited heads makes its subject an owner.
pub proof fn only_owners_settle_who_owns(
    e: EvalView,
    author: DeviceId,
    body: BodyView,
    subject: DeviceId,
    cited: Seq<FactId>,
    i: int,
)
    requires
        e.g.facts.dom().finite(),
        e.authorizes(author, body),
        match body {
            BodyView::Resolution { cell, cited_heads, .. } => cell == (ExclusiveCell::Role {
                subject,
            }) && cited_heads == cited,
            BodyView::AuthorityLineageResolution { subject: s, cited_heads, .. } => s == subject
                && cited_heads == cited,
            _ => false,
        },
        0 <= i < cited.len(),
        e.g.facts.contains_key(cited[i]),
        e.g.facts[cited[i]].content.body == (BodyView::RoleGrant {
            target: subject,
            role: Role::Owner,
        }),
    ensures
        e.role(author) == Some(Role::Owner),
{
    lemma_owner_is_highest(e.g, subject, cited, Set::empty(), i, cited.len() as int);
}

/// Only an owner resolves a contest for a role, or for a lineage, in which
/// one of the cited heads took the role of an owner, or of a device without
/// one.
pub proof fn only_owners_settle_what_owners_lost(
    e: EvalView,
    author: DeviceId,
    body: BodyView,
    subject: DeviceId,
    cited: Seq<FactId>,
    i: int,
    past: GraphView,
)
    requires
        e.g.facts.dom().finite(),
        e.authorizes(author, body),
        match body {
            BodyView::Resolution { cell, cited_heads, .. } => cell == (ExclusiveCell::Role {
                subject,
            }) && cited_heads == cited,
            BodyView::AuthorityLineageResolution { subject: s, cited_heads, .. } => s == subject
                && cited_heads == cited,
            _ => false,
        },
        0 <= i < cited.len(),
        e.g.facts.contains_key(cited[i]),
        e.g.facts[cited[i]].content.body == (BodyView::RoleRevoke { target: subject }),
        rebuild::causal_view(e.g, e.g.facts[cited[i]]) == Ok::<GraphView, SemanticError>(past),
        evaluator::effective_role(past, subject) is None || evaluator::effective_role(past, subject)
            == Some(Role::Owner),
    ensures
        e.role(author) == Some(Role::Owner),
{
    lemma_owner_is_highest(e.g, subject, cited, Set::empty(), i, cited.len() as int);
}

/// A contest that a cited resolution already drew an owner's grant into takes
/// an owner again.
pub proof fn only_owners_settle_what_owners_settled(
    e: EvalView,
    author: DeviceId,
    body: BodyView,
    subject: DeviceId,
    cited: Seq<FactId>,
    i: int,
    inner: Seq<FactId>,
    j: int,
)
    requires
        e.g.facts.dom().finite(),
        e.authorizes(author, body),
        match body {
            BodyView::Resolution { cell, cited_heads, .. } => cell == (ExclusiveCell::Role {
                subject,
            }) && cited_heads == cited,
            BodyView::AuthorityLineageResolution { subject: s, cited_heads, .. } => s == subject
                && cited_heads == cited,
            _ => false,
        },
        0 <= i < cited.len(),
        e.g.facts.contains_key(cited[i]),
        e.g.facts[cited[i]].content.body matches BodyView::Resolution { cell, cited_heads, .. }
            && cell == (ExclusiveCell::Role { subject }) && cited_heads == inner,
        0 <= j < inner.len(),
        inner[j] != cited[i],
        e.g.facts.contains_key(inner[j]),
        e.g.facts[inner[j]].content.body == (BodyView::RoleGrant {
            target: subject,
            role: Role::Owner,
        }),
    ensures
        e.role(author) == Some(Role::Owner),
{
    let none = Set::<FactId>::empty();
    assert(reach::parent_edges(e.g.facts).dom() =~= e.g.facts.dom());
    reach::lemma_unseen(reach::parent_edges(e.g.facts), none, cited[i]);
    lemma_owner_is_highest(
        e.g,
        subject,
        inner,
        none.insert(cited[i]),
        j,
        inner.len() as int,
    );
    lemma_owner_is_highest(e.g, subject, cited, none, i, cited.len() as int);
}

proof fn lemma_lower_grants(
    g: GraphView,
    subject: DeviceId,
    cited: Seq<FactId>,
    visited: Set<FactId>,
    n: int,
)
    requires
        g.facts.dom().finite(),
        0 <= n <= cited.len(),
        forall|i: int|
            0 <= i < cited.len() ==> g.facts.contains_key(#[trigger] cited[i]) && (
            g.facts[cited[i]].content.body matches BodyView::RoleGrant { target, role } && target
                == subject && role != Role::Owner) && !visited.contains(cited[i]),
    ensures
        evaluator::tier_of_cited(g, subject, cited, visited, n) == (if n == 0 {
            None
        } else {
            Some(Role::Controller)
        }),
    decreases n,
{
    if n > 0 {
        lemma_lower_grants(g, subject, cited, visited, n - 1);
        assert(g.facts.contains_key(cited[n - 1]));
        assert(evaluator::tier_of_head(g, subject, cited[n - 1], visited) == Some(
            Role::Controller,
        ));
    }
}

/// A contest between grants of the two lower roles is a controller's to
/// resolve.
pub proof fn controllers_settle_lower_grants(
    e: EvalView,
    author: DeviceId,
    subject: DeviceId,
    cited: Seq<FactId>,
    selected: FactId,
)
    requires
        e.g.facts.dom().finite(),
        e.role(author) == Some(Role::Controller),
        e.g.reading().provenance_complete(author),
        cited.len() > 0,
        forall|i: int|
            0 <= i < cited.len() ==> e.g.facts.contains_key(#[trigger] cited[i]) && (
            e.g.facts[cited[i]].content.body matches BodyView::RoleGrant { target, role } && target
                == subject && role != Role::Owner),
    ensures
        e.authorizes(
            author,
            BodyView::Resolution {
                cell: ExclusiveCell::Role { subject },
                cited_heads: cited,
                selected_head: selected,
            },
        ),
        e.authorizes(
            author,
            BodyView::AuthorityLineageResolution {
                subject,
                cited_heads: cited,
                selected_head: selected,
            },
        ),
{
    lemma_lower_grants(e.g, subject, cited, Set::empty(), cited.len() as int);
}

proof fn lemma_no_contender(
    g: GraphView,
    subject: DeviceId,
    cited: Seq<FactId>,
    n: int,
)
    requires
        g.facts.dom().finite(),
        0 <= n <= cited.len(),
        forall|i: int|
            0 <= i < cited.len() ==> !g.facts.contains_key(#[trigger] cited[i]) || match
            g.facts[cited[i]].content.body {
                BodyView::RoleGrant { target, .. } => target != subject,
                BodyView::RoleRevoke { target } => target != subject,
                BodyView::Resolution { cell, .. } => cell != (ExclusiveCell::Role { subject }),
                _ => true,
            },
    ensures
        evaluator::tier_of_cited(g, subject, cited, Set::empty(), n) is None,
    decreases n,
{
    if n > 0 {
        lemma_no_contender(g, subject, cited, n - 1);
        let head = cited[n - 1];
        assert(evaluator::tier_of_head(g, subject, head, Set::empty()) is None);
    }
}

/// A resolution of a role, or a selection in a lineage, in which nothing cited
/// grants, takes or resolves that role takes what acting on the device takes.
pub proof fn other_contests_take_what_acting_takes(
    e: EvalView,
    author: DeviceId,
    subject: DeviceId,
    cited: Seq<FactId>,
    selected: FactId,
)
    requires
        e.g.facts.dom().finite(),
        forall|i: int|
            0 <= i < cited.len() ==> !e.g.facts.contains_key(#[trigger] cited[i]) || match
            e.g.facts[cited[i]].content.body {
                BodyView::RoleGrant { target, .. } => target != subject,
                BodyView::RoleRevoke { target } => target != subject,
                BodyView::Resolution { cell, .. } => cell != (ExclusiveCell::Role { subject }),
                _ => true,
            },
    ensures
        e.authorizes(
            author,
            BodyView::Resolution {
                cell: ExclusiveCell::Role { subject },
                cited_heads: cited,
                selected_head: selected,
            },
        ) == e.authorizes(author, BodyView::Evict { target: subject }),
        e.authorizes(
            author,
            BodyView::AuthorityLineageResolution {
                subject,
                cited_heads: cited,
                selected_head: selected,
            },
        ) == e.authorizes(author, BodyView::Evict { target: subject }),
{
    lemma_no_contender(e.g, subject, cited, cited.len() as int);
}

/// To resolve a membership takes what evicting the device takes.
pub proof fn membership_contests_take_what_acting_takes(
    e: EvalView,
    author: DeviceId,
    subject: DeviceId,
    cited: Seq<FactId>,
    selected: FactId,
)
    ensures
        e.authorizes(
            author,
            BodyView::Resolution {
                cell: ExclusiveCell::Membership { subject },
                cited_heads: cited,
                selected_head: selected,
            },
        ) == e.authorizes(author, BodyView::Evict { target: subject }),
{
}

/// What each role may do, given complete selections on record: an owner
/// everything but stand another device down; a controller grant the two lower
/// roles, admit, and revoke, evict and prove the eviction of their holders;
/// every role attest and resolve decisions.
pub proof fn roles_carry_their_mandate(e: EvalView, author: DeviceId, body: BodyView)
    requires
        e.g.reading().provenance_complete(author),
    ensures
        e.role(author) == Some(Role::Owner) && !(body is SelfStandDown) ==> e.authorizes(
            author,
            body,
        ),
        e.role(author) == Some(Role::Controller) ==> (match body {
            BodyView::RoleGrant { role, .. } => role == Role::Member || role == Role::Controller,
            BodyView::RoleRevoke { target } => e.role(target) == Some(Role::Member) || e.role(
                target,
            ) == Some(Role::Controller),
            BodyView::Evict { target } => e.role(target) == Some(Role::Member) || e.role(target)
                == Some(Role::Controller),
            BodyView::EvictionProof { target, .. } => e.role(target) == Some(Role::Member)
                || e.role(target) == Some(Role::Controller),
            BodyView::MembershipAdmit { .. } => true,
            BodyView::Resolution { cell: ExclusiveCell::Membership { subject }, .. } => e.role(
                subject,
            ) == Some(Role::Member) || e.role(subject) == Some(Role::Controller),
            _ => false,
        }) ==> e.authorizes(author, body),
        e.role(author) is Some && (match body {
            BodyView::Attestation { .. } => true,
            BodyView::Resolution { cell: ExclusiveCell::Decision { .. }, .. } => true,
            _ => false,
        }) ==> e.authorizes(author, body),
{
}

/// A device stands down itself and nobody else, whatever role it holds.
pub proof fn devices_stand_down_themselves(
    e: EvalView,
    author: DeviceId,
    device: DeviceId,
    evidence: Seq<FactId>,
)
    ensures
        e.authorizes(author, BodyView::SelfStandDown { device_id: device, evidence }) <==> author
            == device,
{
}

/// To put a device out, to take its role and to prove that it was put out
/// take the same authority.
pub proof fn ways_out_take_one_authority(
    e: EvalView,
    author: DeviceId,
    target: DeviceId,
    evidence: Seq<FactId>,
)
    ensures
        e.authorizes(author, BodyView::Evict { target }) == e.authorizes(
            author,
            BodyView::RoleRevoke { target },
        ),
        e.authorizes(author, BodyView::Evict { target }) == e.authorizes(
            author,
            BodyView::EvictionProof { target, evidence },
        ),
{
}

/// What one device may do, another with a higher role may too.
pub proof fn higher_roles_may_do_more(e: EvalView, low: DeviceId, high: DeviceId, body: BodyView)
    requires
        e.authorizes(low, body),
        !(body is SelfStandDown),
        e.g.reading().provenance_complete(high),
        match e.role(low) {
            Some(Role::Member) => e.role(high) is Some,
            Some(Role::Controller) => e.role(high) == Some(Role::Controller) || e.role(high)
                == Some(Role::Owner),
            _ => e.role(high) == Some(Role::Owner),
        },
    ensures
        e.authorizes(high, body),
{
}

/// Who holds at least a role is who holds it or a higher one, with its
/// selections on record.
pub proof fn tiers_are_ordered(e: EvalView, signer: DeviceId)
    ensures
        e.has_tier(signer, Role::Member) <==> e.g.reading().provenance_complete(signer) && e.role(
            signer,
        ) is Some,
        e.has_tier(signer, Role::Controller) <==> e.g.reading().provenance_complete(signer) && (
        e.role(signer) == Some(Role::Controller) || e.role(signer) == Some(Role::Owner)),
        e.has_tier(signer, Role::Owner) <==> e.g.reading().provenance_complete(signer) && e.role(
            signer,
        ) == Some(Role::Owner),
{
}

/// The tier that an author is told is the tier that authority takes: who holds
/// it may, and who does not may not.  A stand-down takes none.
pub proof fn required_tiers_are_what_authority_takes(
    e: EvalView,
    author: DeviceId,
    body: BodyView,
)
    ensures
        body is SelfStandDown <==> e.tier_for(body) is None,
        e.tier_for(body) == Some(Role::Member) ==> (e.authorizes(author, body)
            <==> e.g.reading().provenance_complete(author) && e.role(author) is Some),
        e.tier_for(body) == Some(Role::Controller) ==> (e.authorizes(author, body)
            <==> e.g.reading().provenance_complete(author) && (e.role(author) == Some(
            Role::Controller,
        ) || e.role(author) == Some(Role::Owner))),
        e.tier_for(body) == Some(Role::Owner) ==> (e.authorizes(author, body)
            <==> e.g.reading().provenance_complete(author) && e.role(author) == Some(Role::Owner)),
        match body {
            BodyView::RoleGrant { role, .. } => e.tier_for(body) == (if role == Role::Owner {
                Some(Role::Owner)
            } else {
                Some(Role::Controller)
            }),
            BodyView::MembershipAdmit { .. } => e.tier_for(body) == Some(Role::Controller),
            BodyView::Attestation { .. } => e.tier_for(body) == Some(Role::Member),
            BodyView::Evict { target } => e.tier_for(body) == (if e.role(target) == Some(
                Role::Member,
            ) || e.role(target) == Some(Role::Controller) {
                Some(Role::Controller)
            } else {
                Some(Role::Owner)
            }),
            BodyView::RoleRevoke { target } => e.tier_for(body) == e.tier_for(
                BodyView::Evict { target },
            ),
            BodyView::EvictionProof { target, .. } => e.tier_for(body) == e.tier_for(
                BodyView::Evict { target },
            ),
            _ => true,
        },
{
}

/// A fact that joined a graph had the authority for it in its own causal past:
/// an eviction, a revocation and a proof of eviction at least a controller's,
/// and an owner's against anyone but a member or a controller; a grant
/// likewise, by the role that it gives; an admission a controller's; an
/// attestation, and a resolution, any role; a stand-down its author's own.
pub proof fn what_joined_was_authorized(
    g: GraphView,
    f: FactView,
    reserved: bool,
    supplied: Option<ProjectionView>,
    cost: Option<CostView>,
    staged: Set<FactId>,
)
    requires
        admission::offered(g, f, reserved, supplied, cost, staged).1 == Ok::<
            AdmissionView,
            SemanticError,
        >(AdmissionView::Inserted),
    ensures
        rebuild::causal_view(rebuild::ensured(g), f) is Ok,
        ({
            let past = rebuild::causal_view(rebuild::ensured(g), f)->Ok_0;
            let held = evaluator::effective_role(past, f.content.author);
            match f.content.body {
                BodyView::RoleGrant { role, .. } => held == Some(Role::Owner) || held == Some(
                    Role::Controller,
                ) && role != Role::Owner,
                BodyView::RoleRevoke { target } => held == Some(Role::Owner) || held == Some(
                    Role::Controller,
                ) && (evaluator::effective_role(past, target) == Some(Role::Member)
                    || evaluator::effective_role(past, target) == Some(Role::Controller)),
                BodyView::Evict { target } => held == Some(Role::Owner) || held == Some(
                    Role::Controller,
                ) && (evaluator::effective_role(past, target) == Some(Role::Member)
                    || evaluator::effective_role(past, target) == Some(Role::Controller)),
                BodyView::EvictionProof { target, .. } => held == Some(Role::Owner) || held == Some(
                    Role::Controller,
                ) && (evaluator::effective_role(past, target) == Some(Role::Member)
                    || evaluator::effective_role(past, target) == Some(Role::Controller)),
                BodyView::MembershipAdmit { .. } => held == Some(Role::Owner) || held == Some(
                    Role::Controller,
                ),
                BodyView::Attestation { .. } => held is Some,
                BodyView::Resolution { .. } => held is Some,
                BodyView::AuthorityLineageResolution { .. } => held is Some,
                BodyView::SelfStandDown { device_id, .. } => device_id == f.content.author,
            }
        }),
{
    reveal(admission::offered);
    reveal(admission::entered);
    reveal(admission::cleared);
    reveal(validation::candidate_check);
}

/// The refusal of a candidate with all its inputs at hand that its author had
/// not the role for: nothing joins, and the refusal says what was lacking.
pub proof fn what_lacks_authority_is_refused(
    g: GraphView,
    f: FactView,
    reserved: bool,
    supplied: Option<ProjectionView>,
    cost: CostView,
    staged: Set<FactId>,
    past: GraphView,
)
    requires
        g.indexes_current(),
        cost.missing.len() == 0,
        rebuild::causal_view(g, f) == Ok::<GraphView, SemanticError>(past),
        ({
            let held = evaluator::effective_role(past, f.content.author);
            match f.content.body {
                BodyView::RoleGrant { role, .. } => held is None || held == Some(Role::Member)
                    || held == Some(Role::Controller) && role == Role::Owner,
                BodyView::RoleRevoke { target } => held is None || held == Some(Role::Member)
                    || held == Some(Role::Controller) && (evaluator::effective_role(past, target)
                    is None || evaluator::effective_role(past, target) == Some(Role::Owner)),
                BodyView::Evict { target } => held is None || held == Some(Role::Member) || held
                    == Some(Role::Controller) && (evaluator::effective_role(past, target) is None
                    || evaluator::effective_role(past, target) == Some(Role::Owner)),
                BodyView::EvictionProof { target, .. } => held is None || held == Some(
                    Role::Member,
                ) || held == Some(Role::Controller) && (evaluator::effective_role(past, target)
                    is None || evaluator::effective_role(past, target) == Some(Role::Owner)),
                BodyView::MembershipAdmit { .. } => held is None || held == Some(Role::Member),
                BodyView::Attestation { .. } => held is None,
                BodyView::SelfStandDown { device_id, .. } => device_id != f.content.author,
                _ => false,
            }
        }),
    ensures
        admission::offered(g, f, reserved, supplied, Some(cost), staged) == (
            g,
            Err::<AdmissionView, SemanticError>(
                match f.content.body {
                    BodyView::MembershipAdmit { .. } => SemanticError::UnauthorizedMembershipAdmit,
                    BodyView::Attestation { .. } => SemanticError::UnauthorizedAttestation,
                    BodyView::EvictionProof { .. } => SemanticError::UnauthorizedEviction,
                    BodyView::SelfStandDown { .. } => SemanticError::InvalidStandDownProof,
                    _ => SemanticError::UnauthorizedRoleGrant,
                },
            ),
        ),
{
    reveal(admission::offered);
    reveal(admission::cleared);
    reveal(validation::candidate_check);
}

/// A candidate that carries the lineages of its subjects, and whose author had
/// the role for it, is held to nothing more by the authority of its past.
pub proof fn what_has_authority_is_not_refused_it(past: GraphView, f: FactView)
    requires
        validation::carries_lineages(past, f),
        past.reading().provenance_complete(f.content.author),
        ({
            let held = evaluator::effective_role(past, f.content.author);
            match f.content.body {
                BodyView::RoleGrant { role, .. } => held == Some(Role::Owner) || held == Some(
                    Role::Controller,
                ) && role != Role::Owner,
                BodyView::RoleRevoke { target } => held == Some(Role::Owner) || held == Some(
                    Role::Controller,
                ) && (evaluator::effective_role(past, target) == Some(Role::Member)
                    || evaluator::effective_role(past, target) == Some(Role::Controller)),
                BodyView::Evict { target } => held == Some(Role::Owner) || held == Some(
                    Role::Controller,
                ) && (evaluator::effective_role(past, target) == Some(Role::Member)
                    || evaluator::effective_role(past, target) == Some(Role::Controller)),
                BodyView::MembershipAdmit { .. } => held == Some(Role::Owner) || held == Some(
                    Role::Controller,
                ),
                BodyView::Attestation { .. } => held is Some,
                _ => false,
            }
        }),
    ensures
        validation::candidate_check(past, f) == Ok::<(), SemanticError>(()),
{
    reveal(validation::candidate_check);
}

/// A resolution that cites what it must, carries the lineages of its subjects
/// and has an author that may resolve is accepted by its past.
pub proof fn authorized_resolutions_are_accepted(past: GraphView, f: FactView)
    requires
        f.content.body is Resolution || f.content.body is AuthorityLineageResolution,
        validation::resolution_check(past, f) is Ok,
        validation::carries_lineages(past, f),
        evaluator::eval(past).authorizes(f.content.author, f.content.body),
    ensures
        validation::candidate_check(past, f) == Ok::<(), SemanticError>(()),
{
    reveal(validation::candidate_check);
}

/// A resolution whose author may not resolve is refused for that, where it
/// cites what it must.
pub proof fn unauthorized_resolutions_are_refused(past: GraphView, f: FactView)
    requires
        f.content.body is Resolution || f.content.body is AuthorityLineageResolution,
        validation::resolution_check(past, f) is Ok,
        !evaluator::eval(past).authorizes(f.content.author, f.content.body),
    ensures
        validation::candidate_check(past, f) == Err::<(), SemanticError>(
            SemanticError::UnauthorizedRoleGrant,
        ),
{
    reveal(validation::candidate_check);
}

} // verus!

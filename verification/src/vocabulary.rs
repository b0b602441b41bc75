//! What each body is about: the cells that it contends for, the devices whose
//! authority it uses, and the facts that it rests on.

use vstd::prelude::*;

use crate::content::{AttestationDecision, BodyView, ExclusiveCell, FactDomain, Role};
use crate::device::DeviceId;
use crate::encode;
use crate::fact::FactView;
use crate::ids::FactId;
use crate::order;

verus! {

/// A grant and a revocation advance the role of their target, an admission its
/// membership, an eviction both; an attestation advances the decision on its
/// proposal, and a resolution the cell that it resolves.  Nothing else
/// advances a cell.
pub proof fn bodies_contend_where_they_act(body: BodyView, cell: ExclusiveCell)
    ensures
        body.cells().contains(cell) <==> match (body, cell) {
            (BodyView::RoleGrant { target, .. }, ExclusiveCell::Role { subject }) => target
                == subject,
            (BodyView::RoleRevoke { target }, ExclusiveCell::Role { subject }) => target
                == subject,
            (BodyView::Evict { target }, ExclusiveCell::Role { subject }) => target == subject,
            (BodyView::Evict { target }, ExclusiveCell::Membership { subject }) => target
                == subject,
            (BodyView::MembershipAdmit { target }, ExclusiveCell::Membership { subject }) => target
                == subject,
            (
                BodyView::Attestation { proposal, .. },
                ExclusiveCell::Decision { proposal: decided },
            ) => proposal == decided,
            (BodyView::Resolution { cell: resolved, .. }, _) => resolved == cell,
            _ => false,
        },
{
    let cells = body.cells();
    match body {
        BodyView::RoleGrant { target, .. } => {
            assert(cells[0] == (ExclusiveCell::Role { subject: target }));
        },
        BodyView::RoleRevoke { target } => {
            assert(cells[0] == (ExclusiveCell::Role { subject: target }));
        },
        BodyView::Evict { target } => {
            assert(cells[0] == (ExclusiveCell::Role { subject: target }));
            assert(cells[1] == (ExclusiveCell::Membership { subject: target }));
        },
        BodyView::MembershipAdmit { target } => {
            assert(cells[0] == (ExclusiveCell::Membership { subject: target }));
        },
        BodyView::Attestation { proposal, .. } => {
            assert(cells[0] == (ExclusiveCell::Decision { proposal }));
        },
        BodyView::Resolution { cell: resolved, .. } => {
            assert(cells[0] == resolved);
        },
        _ => {},
    }
}

/// A body uses the authority of its author and of the device that it is about;
/// an attestation, and a resolution of a decision, that of the author alone.
pub proof fn bodies_use_author_and_target(body: BodyView, author: DeviceId, d: DeviceId)
    ensures
        body.subjects(author).contains(d) <==> d == author || match body {
            BodyView::RoleGrant { target, .. } => target == d,
            BodyView::RoleRevoke { target } => target == d,
            BodyView::Evict { target } => target == d,
            BodyView::MembershipAdmit { target } => target == d,
            BodyView::EvictionProof { target, .. } => target == d,
            BodyView::SelfStandDown { device_id, .. } => device_id == d,
            BodyView::Attestation { .. } => false,
            BodyView::Resolution { cell: ExclusiveCell::Role { subject }, .. } => subject == d,
            BodyView::Resolution { cell: ExclusiveCell::Membership { subject }, .. } => subject
                == d,
            BodyView::Resolution { cell: ExclusiveCell::Decision { .. }, .. } => false,
            BodyView::AuthorityLineageResolution { subject, .. } => subject == d,
        },
{
}

/// A fact rests on its signed parents, on the predecessors of every lineage
/// that it carries, on its evidence, contributions or cited heads, and an
/// attestation on its proposal; and on nothing else.
pub proof fn facts_rest_on_all_they_name(f: FactView, x: FactId)
    ensures
        f.inputs().contains(x) <==> {
            ||| f.content.parents.contains(x)
            ||| exists|i: int|
                0 <= i < f.content.authority_uses.len() && (
                #[trigger] f.content.authority_uses[i]).predecessors.contains(x)
            ||| match f.content.body {
                BodyView::EvictionProof { evidence, .. } => evidence.contains(x),
                BodyView::SelfStandDown { evidence, .. } => evidence.contains(x),
                BodyView::Attestation { proposal, contributions, .. } => proposal == x
                    || contributions.contains(x),
                BodyView::Resolution { cited_heads, .. } => cited_heads.contains(x),
                BodyView::AuthorityLineageResolution { cited_heads, .. } => cited_heads.contains(x),
                _ => false,
            }
        },
{
    assert(f.content.parents.to_set().contains(x) <==> f.content.parents.contains(x));
}

/// A proof of eviction and a stand-down are evidence against a device, and no
/// other body is; they alone are in the domain of proofs.
pub proof fn only_proofs_stand_against_a_device(body: BodyView, d: DeviceId)
    ensures
        body.stands_down() == Some(d) <==> match body {
            BodyView::EvictionProof { target, .. } => target == d,
            BodyView::SelfStandDown { device_id, .. } => device_id == d,
            _ => false,
        },
        body.domain() == FactDomain::EvictionProof <==> body.stands_down() is Some,
        body.stands_down() is Some ==> body.cells().len() == 0,
{
}

/// The canonical form of a body has its list strictly ascending, and a proof
/// or a stand-down has evidence.
pub proof fn canonical_lists_ascend(body: BodyView)
    ensures
        body.canonical() <==> match body {
            BodyView::EvictionProof { evidence, .. } => evidence.len() > 0
                && order::is_ascending(evidence),
            BodyView::SelfStandDown { evidence, .. } => evidence.len() > 0
                && order::is_ascending(evidence),
            BodyView::Attestation { contributions, .. } => order::is_ascending(
                contributions,
            ),
            BodyView::Resolution { cited_heads, .. } => order::is_ascending(cited_heads),
            BodyView::AuthorityLineageResolution { cited_heads, .. } => order::is_ascending(
                cited_heads,
            ),
            _ => true,
        },
{
}

/// A fact takes part in the authority lineage of a device exactly where it
/// carries a lineage for it, unless it resolves the membership of that device
/// and the device is not its author.
pub proof fn membership_resolutions_join_no_foreign_lineage(f: FactView, d: DeviceId)
    ensures
        f.takes_part(d) <==> (exists|i: int|
            0 <= i < f.content.authority_uses.len()
                && #[trigger] f.content.authority_uses[i].subject == d) && !(d != f.content.author
            && (f.content.body matches BodyView::Resolution {
            cell: ExclusiveCell::Membership { subject },
            ..
        } && subject == d)),
        f.head_subjects().contains(d) <==> f.content.body.subjects(f.content.author).contains(d)
            && !(d != f.content.author && (f.content.body matches BodyView::Resolution {
            cell: ExclusiveCell::Membership { subject },
            ..
        } && subject == d)),
{
}

/// How kinds, roles, decisions and domains are spelled where they are signed.
pub proof fn kinds_are_spelled(body: BodyView)
    ensures
        encode::body_tag(body) == match body {
            BodyView::RoleGrant { .. } => "role_grant"@,
            BodyView::RoleRevoke { .. } => "role_revoke"@,
            BodyView::Evict { .. } => "evict"@,
            BodyView::MembershipAdmit { .. } => "membership_admit"@,
            BodyView::EvictionProof { .. } => "eviction_proof"@,
            BodyView::SelfStandDown { .. } => "self_stand_down"@,
            BodyView::Attestation { .. } => "attestation"@,
            BodyView::Resolution { .. } => "resolution"@,
            BodyView::AuthorityLineageResolution { .. } => "authority_lineage_resolution"@,
        },
        Role::Member.spec_tag() == "member"@,
        Role::Controller.spec_tag() == "controller"@,
        Role::Owner.spec_tag() == "owner"@,
        AttestationDecision::Evict.spec_tag() == "evict"@,
        AttestationDecision::Approve.spec_tag() == "approve"@,
        AttestationDecision::Reject.spec_tag() == "reject"@,
        FactDomain::Governance.spec_tag() == "governance"@,
        FactDomain::EvictionProof.spec_tag() == "eviction_proof"@,
{
}

/// A length is written in eight bytes, the most significant first.
pub proof fn lengths_are_written_from_the_top(n: u64)
    ensures
        encode::be64(n).len() == 8,
        ({
            let b = encode::be64(n);
            let high = ((b[0] * 256 + b[1]) * 256 + b[2]) * 256 + b[3];
            let low = ((b[4] * 256 + b[5]) * 256 + b[6]) * 256 + b[7];
            high * 0x1_0000_0000 + low == n
        }),
{
    assert(((((n >> 56u64) as u8) * 256 + ((n >> 48u64) as u8)) * 256 + ((n >> 40u64) as u8)) * 256
        + ((n >> 32u64) as u8) == n / 0x1_0000_0000) by (bit_vector);
    assert(((((n >> 24u64) as u8) * 256 + ((n >> 16u64) as u8)) * 256 + ((n >> 8u64) as u8)) * 256
        + (n as u8) == n % 0x1_0000_0000) by (bit_vector);
}

/// Putting a body in canonical form keeps what it says: the cells, the devices,
/// the facts that it rests on, whom it stands against and its domain.
pub proof fn normalizing_keeps_what_is_said(body: BodyView, author: DeviceId)
    ensures
        body.normalized().cells() == body.cells(),
        body.normalized().subjects(author) == body.subjects(author),
        body.normalized().support() == body.support(),
        body.normalized().stands_down() == body.stands_down(),
        body.normalized().domain() == body.domain(),
        encode::body_tag(body.normalized()) == encode::body_tag(body),
        match (body.listed(), body.normalized().listed()) {
            (Some(given), Some(kept)) => order::is_ascending(kept) && forall|x: FactId| #[trigger]
                kept.contains(x) <==> given.contains(x),
            (None, None) => body.normalized() == body,
            _ => false,
        },
{
    if let Some(list) = body.listed() {
        vstd::seq_lib::seq_to_set_is_finite(list);
        let kept = order::ascending(list.to_set());
        crate::ordset::lemma_listing(list.to_set());
        assert(kept.to_set() == list.to_set());
        assert forall|x: FactId| #[trigger] kept.contains(x) <==> list.contains(x) by {
            assert(list.to_set().contains(x) <==> list.contains(x));
        }
    }
}

/// What a fact signs for in a lineage is what the first use for that device
/// says.
pub proof fn the_first_use_is_what_is_signed(f: FactView, s: DeviceId, i: int)
    requires
        0 <= i < f.content.authority_uses.len(),
        f.content.authority_uses[i].subject == s,
        forall|j: int| 0 <= j < i ==> (#[trigger] f.content.authority_uses[j]).subject != s,
    ensures
        f.uses(s),
        f.predecessors(s) == Some(f.content.authority_uses[i].predecessors),
{
    let names = f.content.authority_uses.map_values(|u: crate::content::UseView| u.subject);
    assert(names[i] == s);
    assert(names.contains(s));
    names.index_of_first_ensures(s);
    let k = names.index_of_first(s)->0;
    if k < i {
        assert(names[k] == f.content.authority_uses[k].subject);
    }
    assert(f.uses(s)) by {
        assert(f.content.authority_uses[i].subject == s);
    }
}

/// Whoever puts a device out contends with whoever grants or revokes its role,
/// and with whoever admits it.
pub proof fn evictions_contend_with_grants_and_admissions(
    target: DeviceId,
    role: Role,
)
    ensures
        ({
            let out = BodyView::Evict { target }.cells();
            &&& forall|c: ExclusiveCell| #[trigger]
                BodyView::RoleGrant { target, role }.cells().contains(c) ==> out.contains(c)
            &&& forall|c: ExclusiveCell| #[trigger]
                BodyView::RoleRevoke { target }.cells().contains(c) ==> out.contains(c)
            &&& forall|c: ExclusiveCell| #[trigger]
                BodyView::MembershipAdmit { target }.cells().contains(c) ==> out.contains(c)
        }),
{
    let out = BodyView::Evict { target };
    assert forall|c: ExclusiveCell| #[trigger]
        BodyView::RoleGrant { target, role }.cells().contains(c) implies out.cells().contains(
        c,
    ) by {
        bodies_contend_where_they_act(BodyView::RoleGrant { target, role }, c);
        bodies_contend_where_they_act(out, c);
    }
    assert forall|c: ExclusiveCell| #[trigger]
        BodyView::RoleRevoke { target }.cells().contains(c) implies out.cells().contains(c) by {
        bodies_contend_where_they_act(BodyView::RoleRevoke { target }, c);
        bodies_contend_where_they_act(out, c);
    }
    assert forall|c: ExclusiveCell| #[trigger]
        BodyView::MembershipAdmit { target }.cells().contains(c) implies out.cells().contains(
        c,
    ) by {
        bodies_contend_where_they_act(BodyView::MembershipAdmit { target }, c);
        bodies_contend_where_they_act(out, c);
    }
}

} // verus!

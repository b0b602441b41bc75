//! Which devices may hold a session, and what their cells make of them.

use vstd::prelude::*;

use crate::content::{BodyView, ExclusiveCell, Role};
use crate::device::DeviceId;
use crate::evaluator;
use crate::evaluator::EvalView;
use crate::fact::FactView;
use crate::graph;
use crate::graph::{CellView, GraphView, SettingView};
use crate::ids::{FactId, MeshContextId};
use crate::ordset;
use crate::order;
use crate::policy::VerifiedProjectPolicy;
use crate::projection;

verus! {

/// A lineage with at most one head is singular, and one with two heads is
/// not.
pub proof fn lineages_fork_at_two_heads(e: EvalView, d: DeviceId)
    requires
        e.g.reading().authority_heads(d).finite(),
    ensures
        e.g.reading().is_singular(d) <==> forall|x: FactId, y: FactId|
            e.g.reading().authority_heads(d).contains(x) && e.g.reading().authority_heads(
                d,
            ).contains(y) ==> x == y,
{
    let heads = e.g.reading().authority_heads(d);
    let list = order::ascending(heads);
    ordset::lemma_listing(heads);
    if list.len() > 1 {
        assert(list.contains(list[0]) && list.contains(list[1]));
        assert(heads.contains(list[0]) && heads.contains(list[1]));
        assert(list[0] != list[1]);
    } else {
        assert forall|x: FactId, y: FactId| heads.contains(x) && heads.contains(y) implies x
            == y by {
            assert(list.contains(x) && list.contains(y));
        }
    }
}

/// In a closed project two devices hold a session whenever each of them has an
/// effective role, a lineage that is not forked, and was not put out,
/// whichever roles they hold; and never otherwise.
pub proof fn closed_sessions_take_standing_of_both(e: EvalView, local: DeviceId, remote: DeviceId)
    requires
        e.g.setting.policy == VerifiedProjectPolicy::Closed,
        e.g.reading().authority_heads(local).finite(),
        e.g.reading().authority_heads(remote).finite(),
    ensures
        e.admits_session(local, remote) <==> {
            &&& e.role(local) is Some
            &&& e.role(remote) is Some
            &&& e.membership(local) != Some(false)
            &&& e.membership(remote) != Some(false)
            &&& forall|x: FactId, y: FactId|
                e.g.reading().authority_heads(local).contains(x) && e.g.reading().authority_heads(
                    local,
                ).contains(y) ==> x == y
            &&& forall|x: FactId, y: FactId|
                e.g.reading().authority_heads(remote).contains(x) && e.g.reading().authority_heads(
                    remote,
                ).contains(y) ==> x == y
        },
{
    lineages_fork_at_two_heads(e, local);
    lineages_fork_at_two_heads(e, remote);
}

/// In an open project any two devices may hold a session.
pub proof fn open_sessions_take_nothing(e: EvalView, local: DeviceId, remote: DeviceId)
    requires
        e.g.setting.policy == VerifiedProjectPolicy::Open,
    ensures
        e.admits_session(local, remote),
{
}

/// A session rests on each device alone: two devices that could each hold one
/// with a device of their own standing can hold one with each other.
pub proof fn sessions_rest_on_each_device_alone(e: EvalView, a: DeviceId, b: DeviceId)
    ensures
        e.admits_session(a, b) <==> e.admits_session(a, a) && e.admits_session(b, b),
{
}

/// Which role a device holds does not bear on its sessions: where one of two
/// devices with a role may hold a session with a third, and the other has an
/// unforked lineage and was not put out, it may too.
pub proof fn sessions_do_not_depend_on_rank(e: EvalView, a: DeviceId, b: DeviceId, other: DeviceId)
    requires
        e.admits_session(a, other),
        e.role(b) is Some,
        e.membership(b) == e.membership(a),
        e.g.reading().is_singular(b),
    ensures
        e.admits_session(b, other),
        e.admits_session(other, b),
{
}

/// The role that policy goes by is the effective one of a device whose lineage
/// has at most one head and whose selections are all on record, and none
/// otherwise.
pub proof fn forked_devices_have_no_role_for_policy(e: EvalView, d: DeviceId)
    requires
        e.g.reading().authority_heads(d).finite(),
    ensures
        (forall|x: FactId, y: FactId|
            e.g.reading().authority_heads(d).contains(x) && e.g.reading().authority_heads(
                d,
            ).contains(y) ==> x == y) && e.g.reading().provenance_complete(d)
            ==> e.authorized_role(d) == e.role(d),
        (exists|x: FactId, y: FactId|
            e.g.reading().authority_heads(d).contains(x) && e.g.reading().authority_heads(
                d,
            ).contains(y) && x != y) || !e.g.reading().provenance_complete(d)
            ==> e.authorized_role(d) is None,
        e.authorized_role(d) is Some && e.membership(d) != Some(false) ==> e.admits_session(d, d),
{
    lineages_fork_at_two_heads(e, d);
}

/// A session is granted under the bootstrap of the graph's own mesh alone.
pub proof fn sessions_are_of_one_mesh(
    g: GraphView,
    context: MeshContextId,
    local: DeviceId,
    remote: DeviceId,
)
    ensures
        context != g.setting.context_id ==> !evaluator::policy_session(g, context, local, remote),
        context == g.setting.context_id ==> evaluator::policy_session(g, context, local, remote)
            == evaluator::eval(g).admits_session(local, remote),
{
}

/// The role of a device that does not stand down, where its role cell has a
/// value: what a grant to the device gives, and none where the value is
/// anything else.
pub proof fn roles_come_from_grants(e: EvalView, d: DeviceId, id: FactId)
    requires
        !e.p.stand_down.contains_key(d),
        e.p.cells.contains_key(ExclusiveCell::Role { subject: d }),
        e.p.cells[(ExclusiveCell::Role { subject: d })] == CellView::Value(id),
        e.g.facts.contains_key(id),
    ensures
        match e.g.facts[id].content.body {
            BodyView::RoleGrant { target, role } => e.role(d) == (if target == d {
                Some(role)
            } else {
                None
            }),
            _ => e.role(d) is None,
        },
{
}

/// A device whose role cell never advanced holds no role, unless it is a
/// bootstrap root, which owns; and one that stands down, or whose role is
/// contested, holds none in any case.
pub proof fn only_roots_own_without_a_grant(e: EvalView, d: DeviceId)
    ensures
        e.p.stand_down.contains_key(d) ==> e.role(d) is None,
        !e.p.stand_down.contains_key(d) && !e.p.cells.contains_key(
            ExclusiveCell::Role { subject: d },
        ) && e.g.reading().raw_heads((ExclusiveCell::Role { subject: d })) == Set::<
            FactId,
        >::empty() ==> e.role(d) == (if e.g.setting.roots.contains(d) {
            Some(Role::Owner)
        } else {
            None
        }),
        e.p.cells.contains_key(ExclusiveCell::Role { subject: d })
            && e.p.cells[(ExclusiveCell::Role { subject: d })] is Conflict ==> e.role(d) is None,
{
}

/// A project starts with its roots as owners and nobody else in any role; the
/// roots, and in an open project everyone, may hold sessions, and no device
/// stands down or was put out.
pub proof fn projects_start_with_their_roots(
    setting: SettingView,
    d: DeviceId,
    other: DeviceId,
    proposal: FactId,
)
    ensures
        ({
            let e = evaluator::eval(graph::started(setting));
            &&& e.g.facts == Map::<FactId, FactView>::empty()
            &&& e.g.quarantine.facts == Map::<FactId, FactView>::empty()
            &&& e.g.setting == setting
            &&& e.role(d) == (if setting.roots.contains(d) {
                Some(Role::Owner)
            } else {
                None
            })
            &&& e.membership(d) is None
            &&& e.decision(proposal) is None
            &&& !e.p.stand_down.contains_key(d)
            &&& e.g.reading().provenance_complete(d)
            &&& e.admits_session(d, other) <==> setting.policy == VerifiedProjectPolicy::Open || (
            setting.roots.contains(d) && setting.roots.contains(other))
        }),
{
    let g = graph::started(setting);
    let e = evaluator::eval(g);
    let r = g.reading();
    assert(g.facts.dom() =~= Set::<FactId>::empty());
    assert(g.indexes_current());
    let p = projection::projected(r);
    assert(r.known_cells() =~= Set::<ExclusiveCell>::empty());
    assert(r.evidence().dom() =~= Set::<DeviceId>::empty());
    assert(p.cells =~= Map::empty());
    assert(p.stand_down =~= Map::empty());
    assert forall|x: DeviceId| #[trigger] r.is_singular(x) by {
        assert(r.authority_heads(x) =~= Set::<FactId>::empty());
        ordset::lemma_listing(r.authority_heads(x));
    }
    assert(r.raw_heads((ExclusiveCell::Role { subject: d })) =~= Set::<FactId>::empty());
    assert(r.raw_heads((ExclusiveCell::Role { subject: other })) =~= Set::<FactId>::empty());
    assert(r.is_singular(d) && r.is_singular(other));
}

/// A device is a member where its membership cell is decided by an admission
/// of it, put out where it is decided by an eviction of it, and neither where
/// the cell has no value.
pub proof fn memberships_come_from_what_decides_them(e: EvalView, d: DeviceId, id: FactId)
    ensures
        !e.p.cells.contains_key(ExclusiveCell::Membership { subject: d }) ==> e.membership(
            d,
        ) is None,
        e.p.cells.contains_key(ExclusiveCell::Membership { subject: d })
            && e.p.cells[(ExclusiveCell::Membership { subject: d })] is Conflict ==> e.membership(
            d,
        ) is None,
        e.p.cells.contains_key(ExclusiveCell::Membership { subject: d })
            && e.p.cells[(ExclusiveCell::Membership { subject: d })] == CellView::Value(id)
            && e.g.facts.contains_key(id) ==> (match e.g.facts[id].content.body {
            BodyView::MembershipAdmit { target } => e.membership(d) == (if target == d {
                Some(true)
            } else {
                None
            }),
            BodyView::Evict { target } => e.membership(d) == (if target == d {
                Some(false)
            } else {
                None
            }),
            _ => e.membership(d) is None,
        }),
{
    let cell = ExclusiveCell::Membership { subject: d };
    if e.g.facts.contains_key(id) {
        let body = e.g.facts[id].content.body;
        match body {
            BodyView::MembershipAdmit { target } => {
                assert(body.cells()[0] == (ExclusiveCell::Membership { subject: target }));
                assert(target == d ==> body.cells().contains(cell));
            },
            BodyView::Evict { target } => {
                assert(body.cells()[1] == (ExclusiveCell::Membership { subject: target }));
                assert(target == d ==> body.cells().contains(cell));
            },
            _ => {},
        }
    }
}

/// A proposal is decided as the attestation that decides its cell says, and
/// undecided where attestations contend for it or none was made.
pub proof fn decisions_come_from_what_decides_them(e: EvalView, proposal: FactId, id: FactId)
    ensures
        !e.p.cells.contains_key(ExclusiveCell::Decision { proposal }) ==> e.decision(
            proposal,
        ) is None,
        e.p.cells.contains_key(ExclusiveCell::Decision { proposal })
            && e.p.cells[(ExclusiveCell::Decision { proposal })] is Conflict ==> e.decision(
            proposal,
        ) is None,
        e.p.cells.contains_key(ExclusiveCell::Decision { proposal })
            && e.p.cells[(ExclusiveCell::Decision { proposal })] == CellView::Value(id)
            && e.g.facts.contains_key(id) ==> (match e.g.facts[id].content.body {
            BodyView::Attestation { proposal: p, decision, .. } => e.decision(proposal) == (if p
                == proposal {
                Some(decision)
            } else {
                None
            }),
            _ => e.decision(proposal) is None,
        }),
{
    let cell = ExclusiveCell::Decision { proposal };
    if e.g.facts.contains_key(id) {
        let body = e.g.facts[id].content.body;
        if let BodyView::Attestation { proposal: p, .. } = body {
            assert(body.cells()[0] == (ExclusiveCell::Decision { proposal: p }));
            assert(p == proposal ==> body.cells().contains(cell));
        }
    }
}

} // verus!

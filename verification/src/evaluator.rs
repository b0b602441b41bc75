//! The authority evaluator: effective roles, required tiers and verdicts.

use vstd::prelude::*;

use crate::authority;
use crate::capture;
use crate::content::{AttestationDecision, BodyView, ExclusiveCell, FactBody, Role};
use crate::device::DeviceId;
use crate::fact::{FactView, SignedFact};
use crate::graph::{CellProjection, CellView, FactGraph, GraphView, Projection, ProjectionView};
use crate::ids::{FactId, MeshContextId};
use crate::order;
use crate::ordset::{holds, Duplicate, OrdSet};
use crate::policy::{VerifiedBootstrap, VerifiedProjectPolicy};
use crate::projection;
use crate::reach;
use crate::rebuild;

verus! {

/// The role that a body gives `subject`.
pub open spec fn projected_role(body: BodyView, subject: DeviceId) -> Option<Role> {
    match body {
        BodyView::RoleGrant { target, role } => if target == subject {
            Some(role)
        } else {
            None
        },
        _ => None,
    }
}

/// The membership that a body gives `subject`.
pub open spec fn projected_membership(body: BodyView, subject: DeviceId) -> Option<bool> {
    match body {
        BodyView::MembershipAdmit { target } => if target == subject {
            Some(true)
        } else {
            None
        },
        BodyView::Evict { target } => if target == subject {
            Some(false)
        } else {
            None
        },
        _ => None,
    }
}

/// The decision that a body takes on a proposal.
pub open spec fn projected_decision(body: BodyView, proposal: FactId) -> Option<
    AttestationDecision,
> {
    match body {
        BodyView::Attestation { proposal: p, decision, .. } => if p == proposal {
            Some(decision)
        } else {
            None
        },
        _ => None,
    }
}

/// A graph with the projection that its evaluator reads.
pub struct EvalView {
    pub g: GraphView,
    pub p: ProjectionView,
}

/// The tier that acting on a holder of `role` takes.
pub open spec fn tier_over(role: Option<Role>) -> Role {
    match role {
        Some(Role::Owner) => Role::Owner,
        Some(Role::Controller) => Role::Controller,
        Some(Role::Member) => Role::Controller,
        None => Role::Owner,
    }
}

/// The tier that granting `role` takes.
pub open spec fn tier_to_grant(role: Role) -> Role {
    match role {
        Role::Member | Role::Controller => Role::Controller,
        Role::Owner => Role::Owner,
    }
}

/// The height of a role.
pub open spec fn height(role: Role) -> int {
    match role {
        Role::Member => 0,
        Role::Controller => 1,
        Role::Owner => 2,
    }
}

/// The higher of two tiers.
pub open spec fn higher(a: Option<Role>, b: Option<Role>) -> Option<Role> {
    match (a, b) {
        (Some(x), Some(y)) => if height(x) < height(y) {
            Some(y)
        } else {
            Some(x)
        },
        (Some(x), None) => Some(x),
        (None, _) => b,
    }
}

/// The effective role of a device: what its role cell projects, or Owner for
/// a bootstrap root whose role cell never advanced.
pub open spec fn role_in(g: GraphView, p: ProjectionView, subject: DeviceId) -> Option<Role> {
    if p.stand_down.contains_key(subject) {
        None
    } else {
        match capture::held(p.cells, ExclusiveCell::Role { subject }) {
            Some(CellView::Conflict(_)) => None,
            Some(CellView::Value(id)) => if g.facts.contains_key(id) {
                projected_role(g.facts[id].content.body, subject)
            } else {
                None
            },
            None => if owns_by_bootstrap(g, subject) {
                Some(Role::Owner)
            } else {
                None
            },
        }
    }
}

/// Whether a device is a bootstrap root whose role cell never advanced.
pub open spec fn owns_by_bootstrap(g: GraphView, subject: DeviceId) -> bool {
    g.setting.roots.contains(subject) && g.reading().raw_heads((ExclusiveCell::Role { subject }))
        == Set::<FactId>::empty()
}

/// The effective role of a device in a graph.
pub open spec fn effective_role(g: GraphView, subject: DeviceId) -> Option<Role> {
    role_in(g, projection::current(g), subject)
}

/// The highest tier among the first `n` cited heads.
pub open spec fn tier_of_cited(
    g: GraphView,
    subject: DeviceId,
    cited: Seq<FactId>,
    visited: Set<FactId>,
    n: int,
) -> Option<Role>
    decreases g.facts.dom().difference(visited).len(), 1int, n,
    when g.facts.dom().finite()
{
    if n <= 0 {
        None
    } else {
        higher(
            tier_of_cited(g, subject, cited, visited, n - 1),
            tier_of_head(g, subject, cited[n - 1], visited),
        )
    }
}

/// The tier that one cited head of a role cell contends for.
pub open spec fn tier_of_head(
    g: GraphView,
    subject: DeviceId,
    head: FactId,
    visited: Set<FactId>,
) -> Option<Role>
    decreases g.facts.dom().difference(visited).len(), 0int, 0int,
    when g.facts.dom().finite()
{
    if visited.contains(head) || !g.facts.contains_key(head) {
        None
    } else {
        match g.facts[head].content.body {
            BodyView::RoleGrant { target, role } => if target == subject {
                Some(tier_to_grant(role))
            } else {
                None
            },
            BodyView::RoleRevoke { target } => if target == subject {
                match rebuild::causal_view(g, g.facts[head]) {
                    Ok(past) => Some(tier_over(effective_role(past, subject))),
                    Err(_) => None,
                }
            } else {
                None
            },
            BodyView::Resolution { cell, cited_heads, .. } => if cell == (ExclusiveCell::Role {
                subject,
            }) {
                proof {
                    assert(reach::parent_edges(g.facts).dom() =~= g.facts.dom());
                    reach::lemma_unseen(reach::parent_edges(g.facts), visited, head);
                }
                Some(
                    match tier_of_cited(
                        g,
                        subject,
                        cited_heads,
                        visited.insert(head),
                        cited_heads.len() as int,
                    ) {
                        Some(t) => t,
                        None => tier_over(effective_role(g, subject)),
                    },
                )
            } else {
                None
            },
            _ => None,
        }
    }
}

impl EvalView {
    pub open spec fn role(self, subject: DeviceId) -> Option<Role> {
        role_in(self.g, self.p, subject)
    }

    /// The fact that decides a cell, where it advances the cell.
    pub open spec fn deciding(self, cell: ExclusiveCell) -> Option<FactView> {
        match projection::value_of(self.p, cell) {
            Some(id) => if self.g.facts.contains_key(id) && self.g.facts[id].advances(cell) {
                Some(self.g.facts[id])
            } else {
                None
            },
            None => None,
        }
    }

    pub open spec fn membership(self, subject: DeviceId) -> Option<bool> {
        match self.deciding(ExclusiveCell::Membership { subject }) {
            Some(f) => projected_membership(f.content.body, subject),
            None => None,
        }
    }

    pub open spec fn decision(self, proposal: FactId) -> Option<AttestationDecision> {
        match self.deciding(ExclusiveCell::Decision { proposal }) {
            Some(f) => projected_decision(f.content.body, proposal),
            None => None,
        }
    }

    /// Whether a device holds at least a tier, with its selector provenance
    /// on record.
    pub open spec fn has_tier(self, signer: DeviceId, required: Role) -> bool {
        self.g.reading().provenance_complete(signer) && (self.role(signer) matches Some(actual)
            && height(actual) >= height(required))
    }

    pub open spec fn target_tier(self, target: DeviceId) -> Role {
        tier_over(self.role(target))
    }

    /// The tier that a resolution of a cell takes.
    pub open spec fn resolution_tier(self, cell: ExclusiveCell, cited: Seq<FactId>) -> Role {
        match cell {
            ExclusiveCell::Role { subject } => match tier_of_cited(
                self.g,
                subject,
                cited,
                Set::empty(),
                cited.len() as int,
            ) {
                Some(t) => t,
                None => self.target_tier(subject),
            },
            ExclusiveCell::Membership { subject } => self.target_tier(subject),
            ExclusiveCell::Decision { .. } => Role::Member,
        }
    }

    /// The tier that an operation takes; a stand-down is its subject's own.
    pub open spec fn tier_for(self, body: BodyView) -> Option<Role> {
        match body {
            BodyView::RoleGrant { role, .. } => Some(tier_to_grant(role)),
            BodyView::RoleRevoke { target } => Some(self.target_tier(target)),
            BodyView::Evict { target } => Some(self.target_tier(target)),
            BodyView::EvictionProof { target, .. } => Some(self.target_tier(target)),
            BodyView::MembershipAdmit { .. } => Some(Role::Controller),
            BodyView::Attestation { .. } => Some(Role::Member),
            BodyView::Resolution { cell, cited_heads, .. } => Some(
                self.resolution_tier(cell, cited_heads),
            ),
            BodyView::AuthorityLineageResolution { subject, cited_heads, .. } => Some(
                self.resolution_tier(ExclusiveCell::Role { subject }, cited_heads),
            ),
            BodyView::SelfStandDown { .. } => None,
        }
    }

    /// Whether an author may create an operation.
    pub open spec fn authorizes(self, author: DeviceId, body: BodyView) -> bool {
        match body {
            BodyView::SelfStandDown { device_id, .. } => author == device_id,
            _ => self.has_tier(author, self.tier_for(body)->0),
        }
    }

    /// Whether a device holds a role and was not put out of the membership.
    pub open spec fn role_admits(self, subject: DeviceId) -> bool {
        self.role(subject) is Some && self.membership(subject) != Some(false)
    }

    /// The role of a device for policy: none while its lineage is forked or
    /// its selections are not all on record.
    pub open spec fn authorized_role(self, subject: DeviceId) -> Option<Role> {
        if self.g.reading().provenance_complete(subject) && self.g.reading().is_singular(subject) {
            self.role(subject)
        } else {
            None
        }
    }

    /// Whether two devices may hold a session.
    pub open spec fn admits_session(self, local: DeviceId, remote: DeviceId) -> bool {
        self.g.setting.policy == VerifiedProjectPolicy::Open || (self.g.reading().is_singular(
            local,
        ) && self.g.reading().is_singular(remote) && self.role_admits(local) && self.role_admits(
            remote,
        ))
    }
}

/// A graph as its own evaluator reads it.
pub open spec fn eval(g: GraphView) -> EvalView {
    EvalView { g, p: projection::current(g) }
}

/// Whether two devices may hold a session in the mesh of a bootstrap.
pub open spec fn policy_session(
    g: GraphView,
    context: MeshContextId,
    local: DeviceId,
    remote: DeviceId,
) -> bool {
    g.setting.context_id == context && eval(g).admits_session(local, remote)
}

/// Why an operation would change nothing.  An eviction never would: it stands
/// against an admission that is concurrent with it, also one that is still to
/// arrive.
pub open spec fn noop(g: GraphView, body: BodyView) -> Option<&'static str> {
    let e = eval(g);
    match body {
        BodyView::RoleGrant { target, role } => if e.role(target) == Some(role) {
            Some("role grant already effective")
        } else {
            None
        },
        BodyView::RoleRevoke { target } => {
            let absent = match capture::held(e.p.cells, ExclusiveCell::Role { subject: target }) {
                None => !owns_by_bootstrap(g, target),
                Some(CellView::Conflict(_)) => false,
                Some(CellView::Value(id)) => !(g.facts.contains_key(id) && projected_role(
                    g.facts[id].content.body,
                    target,
                ) is Some),
            };
            if absent {
                Some("role revoke targets an absent role")
            } else {
                None
            }
        },
        BodyView::MembershipAdmit { target } => if e.membership(target) == Some(true) {
            Some("membership is already admitted")
        } else {
            None
        },
        BodyView::SelfStandDown { device_id, .. } => if e.p.stand_down.contains_key(device_id) {
            Some("stand-down is already effective")
        } else {
            None
        },
        BodyView::Resolution { cell, .. } => if !projection::conflicted(e.p, cell) {
            Some("resolution has no live conflict")
        } else {
            None
        },
        BodyView::AuthorityLineageResolution { subject, .. } => if g.reading().is_singular(
            subject,
        ) {
            Some("authority-lineage resolution has no live conflict")
        } else {
            None
        },
        _ => None,
    }
}

/// Canonical authority evaluator.  It is constructed only by a graph, so
/// callers cannot substitute a display identity, a compatibility role map, or
/// unrelated bootstrap roots.
pub struct SemanticEvaluator<'a> {
    graph: &'a FactGraph,
    projection: Projection,
}

impl<'a> View for SemanticEvaluator<'a> {
    type V = EvalView;

    closed spec fn view(&self) -> EvalView {
        EvalView { g: self.graph@, p: self.projection@ }
    }
}

fn role_of_body(body: &FactBody, subject: &DeviceId) -> (r: Option<Role>)
    ensures
        r == projected_role(body@, *subject),
{
    match body {
        FactBody::RoleGrant { target, role } => if target.same(subject) {
            Some(*role)
        } else {
            None
        },
        _ => None,
    }
}

fn grant_tier(role: Role) -> (r: Role)
    ensures
        r == tier_to_grant(role),
{
    match role {
        Role::Member | Role::Controller => Role::Controller,
        Role::Owner => Role::Owner,
    }
}

fn tier_above(role: Option<Role>) -> (r: Role)
    ensures
        r == tier_over(role),
{
    match role {
        Some(Role::Owner) => Role::Owner,
        Some(Role::Controller) => Role::Controller,
        Some(Role::Member) => Role::Controller,
        None => Role::Owner,
    }
}

fn at_least(actual: Role, required: Role) -> (r: bool)
    ensures
        r == (height(actual) >= height(required)),
{
    match (actual, required) {
        (Role::Owner, _) => true,
        (Role::Controller, Role::Controller) => true,
        (Role::Controller, Role::Member) => true,
        (Role::Member, Role::Member) => true,
        _ => false,
    }
}

fn higher_of(a: Option<Role>, b: Option<Role>) -> (r: Option<Role>)
    ensures
        r == higher(a, b),
{
    match (a, b) {
        (Some(x), Some(y)) => if at_least(x, y) {
            Some(x)
        } else {
            Some(y)
        },
        (Some(x), None) => Some(x),
        (None, _) => b,
    }
}

impl<'a> SemanticEvaluator<'a> {
    pub fn projection(&self) -> (r: &Projection)
        ensures
            r@ == self@.p,
    {
        &self.projection
    }

    /// Resolve the effective role from the projected role cell. The bootstrap
    /// root is an Owner only while its role cell has never advanced. A revoke,
    /// eviction, conflict, or stand-down therefore removes authority rather
    /// than falling back to the root.
    pub fn effective_role(&self, subject: &DeviceId) -> (r: Option<Role>)
        ensures
            r == self@.role(*subject),
    {
        if self.projection.is_stood_down(subject) {
            return None;
        }
        match self.projection.role_cell(subject) {
            Some(CellProjection::Conflict(_)) => None,
            Some(CellProjection::Value(id)) => self.effective_role_from_fact(id, subject),
            None => if self.graph.owns_by_bootstrap(subject) {
                Some(Role::Owner)
            } else {
                None
            },
        }
    }

    /// Effective role for policy projection.  A role-cell value is not enough
    /// to authorize a session while the subject's independent AuthorityUse
    /// relation is forked; the typed relation must be empty (bootstrap) or
    /// singular first.
    pub fn effective_authorized_role(&self, subject: &DeviceId) -> (r: Option<Role>)
        ensures
            r == (if self@.g.reading().provenance_complete(*subject)
                && self@.g.reading().is_singular(*subject) {
                self@.role(*subject)
            } else {
                None
            }),
            r == self@.authorized_role(*subject),
    {
        if !self.graph.selector_provenance_complete(subject) {
            return None;
        }
        if self.graph.authority_lineage(subject).is_singular() {
            self.effective_role(subject)
        } else {
            None
        }
    }

    fn effective_role_from_fact(&self, id: &FactId, subject: &DeviceId) -> (r: Option<Role>)
        ensures
            r == (if self@.g.facts.contains_key(*id) {
                projected_role(self@.g.facts[*id].content.body, *subject)
            } else {
                None
            }),
    {
        match self.graph.facts.get(id) {
            Some(f) => role_of_body(&f.content.body, subject),
            None => None,
        }
    }

    fn projected_fact(&self, cell: &ExclusiveCell) -> (r: Option<&SignedFact>)
        ensures
            match r {
                Some(f) => self@.deciding(*cell) == Some(f@),
                None => self@.deciding(*cell) is None,
            },
    {
        match self.projection.value(cell) {
            Some(id) => match self.graph.facts.get(&id) {
                Some(f) => {
                    let cells = f.content.body.exclusive_cells();
                    if holds(&cells, cell) {
                        Some(f)
                    } else {
                        None
                    }
                },
                None => None,
            },
            None => None,
        }
    }

    /// Effective membership is explicit when a membership cell has advanced;
    /// callers may treat `None` as the bootstrap-era implicit membership.
    pub fn effective_membership(&self, subject: &DeviceId) -> (r: Option<bool>)
        ensures
            r == self@.membership(*subject),
    {
        match self.projected_fact(&ExclusiveCell::membership(*subject)) {
            Some(f) => match &f.content.body {
                FactBody::MembershipAdmit { target } => if target.same(subject) {
                    Some(true)
                } else {
                    None
                },
                FactBody::Evict { target } => if target.same(subject) {
                    Some(false)
                } else {
                    None
                },
                _ => None,
            },
            None => None,
        }
    }

    /// Effective attestation decision for one proposal. Conflicts and
    /// malformed resolution chains return `None`.
    pub fn effective_decision(&self, proposal: &FactId) -> (r: Option<AttestationDecision>)
        ensures
            r == self@.decision(*proposal),
    {
        match self.projected_fact(&ExclusiveCell::decision(*proposal)) {
            Some(f) => match &f.content.body {
                FactBody::Attestation { proposal: p, decision, .. } => if p.same(proposal) {
                    Some(*decision)
                } else {
                    None
                },
                _ => None,
            },
            None => None,
        }
    }

    pub fn has_tier(&self, signer: &DeviceId, required: Role) -> (r: bool)
        ensures
            r == self@.has_tier(*signer, required),
    {
        if !self.graph.selector_provenance_complete(signer) {
            return false;
        }
        match self.effective_role(signer) {
            Some(actual) => at_least(actual, required),
            None => false,
        }
    }

    fn target_tier(&self, target: &DeviceId) -> (r: Role)
        ensures
            r == self@.target_tier(*target),
    {
        tier_above(self.effective_role(target))
    }

    /// Whether an author may create the supplied operation under the current
    /// projected authority. Controllers may grant or demote Controllers, but
    /// only an Owner may grant an Owner.
    pub fn authorizes(&self, author: &DeviceId, body: &FactBody) -> (r: bool)
        ensures
            r == self@.authorizes(*author, body@),
    {
        if let FactBody::SelfStandDown { device_id, .. } = body {
            return author.same(device_id);
        }
        match self.tier_for(body) {
            Some(required) => self.has_tier(author, required),
            None => false,
        }
    }

    fn tier_for(&self, body: &FactBody) -> (r: Option<Role>)
        ensures
            r == self@.tier_for(body@),
    {
        match body {
            FactBody::RoleGrant { role, .. } => Some(grant_tier(*role)),
            FactBody::RoleRevoke { target } | FactBody::Evict { target } => Some(
                self.target_tier(target),
            ),
            FactBody::EvictionProof { target, .. } => Some(self.target_tier(target)),
            FactBody::MembershipAdmit { .. } => Some(Role::Controller),
            FactBody::Attestation { .. } => Some(Role::Member),
            FactBody::Resolution { cell, cited_heads, .. } => Some(
                self.resolution_tier(cell, cited_heads),
            ),
            FactBody::AuthorityLineageResolution { subject, cited_heads, .. } => Some(
                self.resolution_tier(&ExclusiveCell::role(*subject), cited_heads),
            ),
            FactBody::SelfStandDown { .. } => None,
        }
    }

    /// The tier required by an authoring witness.  This is public so an
    /// authoring caller can use the same candidate-relative rule as admission
    /// without reconstructing predecessor state itself.
    pub fn required_tier(&self, body: &FactBody) -> (r: Option<Role>)
        ensures
            r == (if self@.g.setting.policy == VerifiedProjectPolicy::Open {
                None
            } else {
                self@.tier_for(body@)
            }),
    {
        if let VerifiedProjectPolicy::Open = self.graph.setting.policy {
            return None;
        }
        self.tier_for(body)
    }

    /// Session admission for the selected profile. Runtime presence is
    /// transport-local; only Closed membership projection is a durable gate.
    pub fn admits_closed_session(&self, local: &DeviceId, remote: &DeviceId) -> (r: bool)
        ensures
            r == self@.admits_session(*local, *remote),
    {
        if let VerifiedProjectPolicy::Open = self.graph.setting.policy {
            return true;
        }
        self.graph.authority_lineage(local).is_singular() && self.graph.authority_lineage(
            remote,
        ).is_singular() && self.role_admits(local) && self.role_admits(remote)
    }

    pub fn is_conflicted(&self, cell: &ExclusiveCell) -> (r: bool)
        ensures
            r == projection::conflicted(self@.p, *cell),
    {
        self.projection.is_conflicted(cell)
    }

    pub fn is_stood_down(&self, subject: &DeviceId) -> (r: bool)
        ensures
            r == self@.p.stand_down.contains_key(*subject),
    {
        self.projection.is_stood_down(subject)
    }

    fn role_admits(&self, subject: &DeviceId) -> (r: bool)
        ensures
            r == self@.role_admits(*subject),
    {
        if self.effective_role(subject).is_none() {
            return false;
        }
        match self.effective_membership(subject) {
            Some(joined) => joined,
            None => true,
        }
    }

    fn resolution_tier(&self, cell: &ExclusiveCell, cited_heads: &Vec<FactId>) -> (r: Role)
        ensures
            r == self@.resolution_tier(*cell, cited_heads@),
    {
        match cell {
            ExclusiveCell::Role { subject } => {
                let _ = self.graph.facts.len();
                match cited_tier(self.graph, subject, cited_heads, &OrdSet::new()) {
                    Some(t) => t,
                    None => self.target_tier(subject),
                }
            },
            ExclusiveCell::Membership { subject } => self.target_tier(subject),
            ExclusiveCell::Decision { .. } => Role::Member,
        }
    }
}

/// The highest tier among the cited heads of a role cell.
fn cited_tier(
    graph: &FactGraph,
    subject: &DeviceId,
    cited: &Vec<FactId>,
    visited: &OrdSet<FactId>,
) -> (r: Option<Role>)
    requires
        graph@.facts.dom().finite(),
    ensures
        r == tier_of_cited(graph@, *subject, cited@, visited@, cited@.len() as int),
    decreases graph@.facts.dom().difference(visited@).len(), 1int,
{
    let n: usize = cited.len();
    let mut best: Option<Role> = None;
    for i in 0..n
        invariant
            n == cited@.len(),
            graph@.facts.dom().finite(),
            best == tier_of_cited(graph@, *subject, cited@, visited@, i as int),
        decreases n - i,
    {
        best = higher_of(best, head_tier(graph, subject, &cited[i], visited));
    }
    best
}

/// The tier that one cited head of a role cell contends for.
fn head_tier(
    graph: &FactGraph,
    subject: &DeviceId,
    head: &FactId,
    visited: &OrdSet<FactId>,
) -> (r: Option<Role>)
    requires
        graph@.facts.dom().finite(),
    ensures
        r == tier_of_head(graph@, *subject, *head, visited@),
    decreases graph@.facts.dom().difference(visited@).len(), 0int,
{
    if visited.contains(head) {
        return None;
    }
    let fact = match graph.facts.get(head) {
        Some(f) => f,
        None => {
            return None;
        },
    };
    match &fact.content.body {
        FactBody::RoleGrant { target, role } => if target.same(subject) {
            Some(grant_tier(*role))
        } else {
            None
        },
        FactBody::RoleRevoke { target } => {
            if !target.same(subject) {
                return None;
            }
            match graph.causal_past(fact) {
                Ok(past) => Some(tier_above(past.graph().evaluator().effective_role(subject))),
                Err(_) => None,
            }
        },
        FactBody::Resolution { cell, cited_heads, .. } => {
            if !cell.same(&ExclusiveCell::role(*subject)) {
                return None;
            }
            let mut branch = visited.duplicate();
            branch.insert(*head);
            proof {
                assert(reach::parent_edges(graph@.facts).dom() =~= graph@.facts.dom());
                reach::lemma_unseen(reach::parent_edges(graph@.facts), visited@, *head);
            }
            match cited_tier(graph, subject, cited_heads, &branch) {
                Some(t) => Some(t),
                None => Some(tier_above(graph.evaluator().effective_role(subject))),
            }
        },
        _ => None,
    }
}

/// The causal inputs a caller must carry when authoring a fact.
///
/// Exclusive-cell predecessors are derived from the graph rather than guessed
/// by a caller.  Evidence and other non-cell dependencies remain explicit in
/// the signed body.
#[derive(Debug, PartialEq, Eq)]
pub struct AuthoringWitness {
    author: DeviceId,
    parents: Vec<FactId>,
    required_tier: Option<Role>,
}

/// What a witness says.
pub struct WitnessView {
    pub author: DeviceId,
    pub parents: Seq<FactId>,
    pub required_tier: Option<Role>,
}

impl View for AuthoringWitness {
    type V = WitnessView;

    closed spec fn view(&self) -> WitnessView {
        WitnessView {
            author: self.author,
            parents: self.parents@,
            required_tier: self.required_tier,
        }
    }
}

impl AuthoringWitness {
    pub fn author(&self) -> (r: &DeviceId)
        ensures
            *r == self@.author,
    {
        &self.author
    }

    pub fn parents(&self) -> (r: &[FactId])
        ensures
            r@ == self@.parents,
    {
        self.parents.as_slice()
    }

    pub fn required_tier(&self) -> (r: Option<Role>)
        ensures
            r == self@.required_tier,
    {
        self.required_tier
    }

    pub fn into_parents(self) -> (r: Vec<FactId>)
        ensures
            r@ == self@.parents,
    {
        self.parents
    }
}

/// The heads that a fact with `body` by `author` must carry.
pub open spec fn carried(g: GraphView, body: BodyView, author: DeviceId) -> Set<FactId> {
    Set::new(
        |id: FactId|
            {
                ||| exists|c: ExclusiveCell| #[trigger]
                    body.cells().contains(c) && authority::cell_heads(g.reading(), c).contains(id)
                ||| exists|s: DeviceId| #[trigger]
                    body.subjects(author).contains(s) && g.reading().authority_heads(s).contains(
                        id,
                    )
                ||| body matches BodyView::MembershipAdmit { target }
                    && authority::stand_down_heads(g.reading(), target).contains(id)
            },
    )
}

impl FactGraph {
    /// Construct the sealed evaluator for this graph's exact bootstrap policy.
    /// Callers cannot provide an alternate root, profile, or policy snapshot.
    pub fn evaluator(&self) -> (r: SemanticEvaluator<'_>)
        ensures
            r@ == eval(self@),
    {
        SemanticEvaluator { graph: self, projection: self.projection() }
    }

    pub fn is_authorized_signer(&self, signer: &DeviceId) -> (r: bool)
        ensures
            r == (effective_role(self@, *signer) is Some),
    {
        self.evaluator().effective_role(signer).is_some()
    }

    pub fn is_authorized_for(&self, body: &FactBody, author: &DeviceId) -> (r: bool)
        ensures
            r == eval(self@).authorizes(*author, body@),
    {
        self.evaluator().authorizes(author, body)
    }

    /// Decide the canonical session policy for two devices.  The bootstrap
    /// binding is checked here so callers cannot pair a graph with an
    /// unrelated policy or context; transport callers only consume this
    /// typed verdict.
    pub fn admits_policy_session(
        &self,
        bootstrap: &VerifiedBootstrap,
        local: &DeviceId,
        remote: &DeviceId,
    ) -> (r: bool)
        ensures
            r == (self@.setting.context_id == bootstrap.context && eval(self@).admits_session(
                *local,
                *remote,
            )),
            r == policy_session(self@, bootstrap.context, *local, *remote),
    {
        if !self.setting.context_id.same(&bootstrap.context) {
            return false;
        }
        self.evaluator().admits_closed_session(local, remote)
    }

    /// Whether a device is a bootstrap root whose role cell never advanced.
    pub(crate) fn owns_by_bootstrap(&self, subject: &DeviceId) -> (r: bool)
        ensures
            r == owns_by_bootstrap(self@, *subject),
    {
        if !self.setting.roots.contains(subject) {
            return false;
        }
        let heads = self.raw_cell_heads(&ExclusiveCell::role(*subject));
        proof {
            let set = self@.reading().raw_heads((ExclusiveCell::Role { subject: *subject }));
            if heads@.len() == 0 {
                assert(heads@.to_set() =~= Set::<FactId>::empty());
            } else {
                assert(heads@.contains(heads@[0]));
                assert(set.contains(heads@[0]));
            }
        }
        heads.len() == 0
    }

    /// Why an operation would change nothing.
    pub fn semantic_noop(&self, body: &FactBody) -> (r: Option<&'static str>)
        ensures
            r == noop(self@, body@),
    {
        let evaluator = self.evaluator();
        match body {
            FactBody::RoleGrant { target, role } => match evaluator.effective_role(target) {
                Some(held) => if held == *role {
                    Some("role grant already effective")
                } else {
                    None
                },
                None => None,
            },
            FactBody::RoleRevoke { target } => {
                let absent = match evaluator.projection().role_cell(target) {
                    None => !self.owns_by_bootstrap(target),
                    Some(CellProjection::Conflict(_)) => false,
                    Some(CellProjection::Value(id)) => evaluator.effective_role_from_fact(
                        id,
                        target,
                    ).is_none(),
                };
                if absent {
                    Some("role revoke targets an absent role")
                } else {
                    None
                }
            },
            FactBody::MembershipAdmit { target } => match evaluator.effective_membership(target) {
                Some(true) => Some("membership is already admitted"),
                _ => None,
            },
            FactBody::SelfStandDown { device_id, .. } => if evaluator.is_stood_down(device_id) {
                Some("stand-down is already effective")
            } else {
                None
            },
            FactBody::Resolution { cell, .. } => if !evaluator.is_conflicted(cell) {
                Some("resolution has no live conflict")
            } else {
                None
            },
            FactBody::AuthorityLineageResolution { subject, .. } => {
                if !self.authority_lineage(subject).is_conflicted() {
                    Some("authority-lineage resolution has no live conflict")
                } else {
                    None
                }
            },
            _ => None,
        }
    }

    /// Derive exclusive-cell predecessors and typed AuthorityUse predecessors
    /// from the current canonical graph. This signed profile prevents stale
    /// forks from silently regaining root fallback.
    pub fn authoring_witness(&self, body: &FactBody, author: &DeviceId) -> (r: AuthoringWitness)
        ensures
            r@.author == *author,
            r@.parents == order::ascending(carried(self@, body@, *author)),
            r@.parents.to_set() == carried(self@, body@, *author),
            r@.required_tier == (if self@.setting.policy == VerifiedProjectPolicy::Open {
                None
            } else {
                eval(self@).tier_for(body@)
            }),
    {
        let ghost g = self@.reading();
        let required_tier = self.evaluator().required_tier(body);
        let mut parents: OrdSet<FactId> = OrdSet::new();
        let cells = body.exclusive_cells();
        let n: usize = cells.len();
        for i in 0..n
            invariant
                n == cells@.len(),
                g == self@.reading(),
                forall|id: FactId| #[trigger]
                    parents@.contains(id) <==> exists|j: int|
                        0 <= j < i && authority::cell_heads(g, #[trigger] cells@[j]).contains(id),
        {
            let ghost before = parents@;
            let heads = self.cell_heads(&cells[i]);
            parents.extend_vec(&heads);
            assert forall|id: FactId| #[trigger] parents@.contains(id) <==> exists|j: int|
                0 <= j < i + 1 && authority::cell_heads(g, #[trigger] cells@[j]).contains(id) by {
                assert(heads@.to_set().contains(id) <==> heads@.contains(id));
                if before.contains(id) {
                    let j = choose|j: int|
                        0 <= j < i && authority::cell_heads(g, #[trigger] cells@[j]).contains(id);
                    assert(authority::cell_heads(g, cells@[j]).contains(id));
                }
                if heads@.contains(id) {
                    assert(authority::cell_heads(g, cells@[i as int]).contains(id));
                }
            }
        }
        let ghost from_cells = parents@;
        let subjects = body.authority_use_subjects(author);
        let m: usize = subjects.len();
        for i in 0..m
            invariant
                m == subjects@.len(),
                g == self@.reading(),
                forall|id: FactId| #[trigger]
                    parents@.contains(id) <==> from_cells.contains(id) || exists|j: int|
                        0 <= j < i && g.authority_heads(#[trigger] subjects@[j]).contains(id),
        {
            let ghost before = parents@;
            let heads = self.authority_use_heads(&subjects[i]);
            parents.extend_vec(&heads);
            assert forall|id: FactId| #[trigger] parents@.contains(id) <==> from_cells.contains(id)
                || exists|j: int|
                0 <= j < i + 1 && g.authority_heads(#[trigger] subjects@[j]).contains(id) by {
                if before.contains(id) && !from_cells.contains(id) {
                    let j = choose|j: int|
                        0 <= j < i && g.authority_heads(#[trigger] subjects@[j]).contains(id);
                    assert(g.authority_heads(subjects@[j]).contains(id));
                }
                if heads@.to_set().contains(id) {
                    assert(g.authority_heads(subjects@[i as int]).contains(id));
                }
            }
        }
        let ghost from_subjects = parents@;
        if let FactBody::MembershipAdmit { target } = body {
            let proofs = self.stand_down_heads(target);
            parents.extend_vec(&proofs);
        }
        proof {
            let want = carried(self@, body@, *author);
            assert forall|id: FactId| #[trigger] parents@.contains(id) <==> want.contains(id) by {
                if from_cells.contains(id) {
                    let j = choose|j: int|
                        0 <= j < n && authority::cell_heads(g, #[trigger] cells@[j]).contains(id);
                    assert(body@.cells().contains(cells@[j]));
                }
                if exists|c: ExclusiveCell| #[trigger]
                    body@.cells().contains(c) && authority::cell_heads(g, c).contains(id) {
                    let c = choose|c: ExclusiveCell| #[trigger]
                        body@.cells().contains(c) && authority::cell_heads(g, c).contains(id);
                    let j = choose|j: int| 0 <= j < cells@.len() && cells@[j] == c;
                    assert(authority::cell_heads(g, cells@[j]).contains(id));
                    assert(from_cells.contains(id));
                }
                if from_subjects.contains(id) && !from_cells.contains(id) {
                    let j = choose|j: int|
                        0 <= j < m && g.authority_heads(#[trigger] subjects@[j]).contains(id);
                    assert(subjects@.contains(subjects@[j]));
                    assert(body@.subjects(*author).contains(subjects@[j]));
                }
                if exists|s: DeviceId| #[trigger]
                    body@.subjects(*author).contains(s) && g.authority_heads(s).contains(id) {
                    let s = choose|s: DeviceId| #[trigger]
                        body@.subjects(*author).contains(s) && g.authority_heads(s).contains(id);
                    assert(subjects@.contains(s));
                    let j = choose|j: int| 0 <= j < subjects@.len() && subjects@[j] == s;
                    assert(g.authority_heads(subjects@[j]).contains(id));
                    assert(from_subjects.contains(id));
                }
            }
            assert(parents@ =~= want);
        }
        AuthoringWitness { author: *author, parents: parents.to_vec(), required_tier }
    }
}

/// A session that one device may hold with another, the other may hold with
/// the one.
pub proof fn sessions_are_mutual(g: GraphView, a: DeviceId, b: DeviceId)
    ensures
        eval(g).admits_session(a, b) == eval(g).admits_session(b, a),
{
}

/// Who holds a tier holds every lower one.
pub proof fn higher_tiers_include_lower(g: GraphView, signer: DeviceId, high: Role, low: Role)
    requires
        height(low) <= height(high),
    ensures
        eval(g).has_tier(signer, high) ==> eval(g).has_tier(signer, low),
{
}

/// A device whose role is contested or that stands down holds no tier and no
/// session in a closed project, a bootstrap root included.
pub proof fn contested_devices_hold_nothing(g: GraphView, s: DeviceId, other: DeviceId, tier: Role)
    requires
        projection::conflicted(projection::current(g), (ExclusiveCell::Role { subject: s }))
            || projection::current(g).stand_down.contains_key(s),
    ensures
        effective_role(g, s) is None,
        !eval(g).has_tier(s, tier),
        g.setting.policy == VerifiedProjectPolicy::Closed ==> !eval(g).admits_session(s, other),
{
}

/// A bootstrap root is an owner without a grant only while nothing has
/// advanced its role cell: once something did, its role is what a fact that is
/// projected there gives it, or none.
pub proof fn roots_own_until_their_role_advances(g: GraphView, s: DeviceId)
    requires
        g.reading().raw_heads((ExclusiveCell::Role { subject: s })) != Set::<FactId>::empty(),
    ensures
        effective_role(g, s) matches Some(role) ==> exists|id: FactId| #[trigger]
            g.facts.contains_key(id) && projection::value_of(
                projection::current(g),
                (ExclusiveCell::Role { subject: s }),
            ) == Some(id) && projected_role(g.facts[id].content.body, s) == Some(role),
{
    let p = projection::current(g);
    let cell = ExclusiveCell::Role { subject: s };
    if effective_role(g, s) is Some {
        let id = projection::value_of(p, cell)->0;
        assert(g.facts.contains_key(id));
    }
}

} // verus!

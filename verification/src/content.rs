//! Canonical, transport-independent semantic content.
//!
//! Authority-bearing values in this module are deliberately typed.  A display
//! label, carrier spelling, or alternate serialization cannot become a second
//! semantic identity or exclusive-cell key.

use vstd::prelude::*;
use vstd::string::StringExecFns;

use crate::device::DeviceId;
use crate::error::SemanticError;
use crate::ids::FactId;
use crate::order;
use crate::order::{Key, Rel};
use crate::ordset::{append_keys, copy_keys, sort_unique, Duplicate};

verus! {

/// Domain separation for the durable fact union.
#[derive(Clone, Copy, PartialEq, Eq, PartialOrd, Ord, Hash, Debug, Structural)]
pub enum FactDomain {
    Governance,
    EvictionProof,
}

impl FactDomain {
    /// The wire tag of a domain.
    pub open spec fn spec_tag(self) -> Seq<char> {
        match self {
            FactDomain::Governance => "governance"@,
            FactDomain::EvictionProof => "eviction_proof"@,
        }
    }

    pub fn tag(self) -> (r: &'static str)
        ensures
            r@ == self.spec_tag(),
    {
        match self {
            FactDomain::Governance => "governance",
            FactDomain::EvictionProof => "eviction_proof",
        }
    }
}

/// What one signed authority lineage says.
pub struct UseView {
    pub subject: DeviceId,
    pub predecessors: Seq<FactId>,
}

/// Signed, typed authority lineage for one authority-bearing subject.  The
/// predecessor list is part of the fact content, and so of its identity: a
/// receiver cannot silently substitute a later or unrelated role head.
#[derive(Debug, PartialEq, Eq)]
pub struct AuthorityUse {
    pub subject: DeviceId,
    pub predecessors: Vec<FactId>,
}

impl View for AuthorityUse {
    type V = UseView;

    open spec fn view(&self) -> UseView {
        UseView { subject: self.subject, predecessors: self.predecessors@ }
    }
}

impl Duplicate for AuthorityUse {
    fn duplicate(&self) -> (r: Self) {
        AuthorityUse { subject: self.subject, predecessors: copy_keys(&self.predecessors) }
    }
}

impl AuthorityUse {
    pub fn new(subject: DeviceId, predecessors: Vec<FactId>) -> (r: Self)
        ensures
            r.subject == subject,
            r.predecessors@ == order::ascending(predecessors@.to_set()),
            order::is_ascending(r.predecessors@),
            r.predecessors@.to_set() == predecessors@.to_set(),
    {
        AuthorityUse { subject, predecessors: sort_unique(&predecessors) }
    }
}

/// What an authority relation says.
pub struct LineageView {
    pub subject: DeviceId,
    pub heads: Seq<FactId>,
    pub selected_branch: Option<FactId>,
}

/// The semantic owner's typed authority relation for one subject.
///
/// `heads` is the complete current head set, calculated from the causal graph
/// rather than copied from a caller. An ordinary operation is authorizable
/// only when this relation is singular (or empty for the bootstrap root). A
/// typed `AuthorityLineageResolution` may cite the complete conflicting set
/// and select one branch; once admitted, that resolution is itself the sole
/// lineage head for descendants and re-grants.
#[derive(Debug, PartialEq, Eq)]
pub struct AuthorityLineage {
    subject: DeviceId,
    heads: Vec<FactId>,
    selected_branch: Option<FactId>,
}

impl View for AuthorityLineage {
    type V = LineageView;

    closed spec fn view(&self) -> LineageView {
        LineageView {
            subject: self.subject,
            heads: self.heads@,
            selected_branch: self.selected_branch,
        }
    }
}

impl AuthorityLineage {
    pub fn from_heads(
        subject: DeviceId,
        heads: Vec<FactId>,
        selected_branch: Option<FactId>,
    ) -> (r: Self)
        ensures
            r@ == (LineageView {
                subject,
                heads: order::ascending(heads@.to_set()),
                selected_branch,
            }),
            order::is_ascending(r@.heads),
            r@.heads.to_set() == heads@.to_set(),
    {
        AuthorityLineage { subject, heads: sort_unique(&heads), selected_branch }
    }

    pub fn subject(&self) -> (r: &DeviceId)
        ensures
            *r == self@.subject,
    {
        &self.subject
    }

    pub fn heads(&self) -> (r: &[FactId])
        ensures
            r@ == self@.heads,
    {
        self.heads.as_slice()
    }

    /// The sole head of the relation.  An empty relation, which is the
    /// bootstrap state, has none.
    pub fn effective_head(&self) -> (r: Option<FactId>)
        ensures
            r == (if self@.heads.len() == 1 {
                Some(self@.heads[0])
            } else {
                None
            }),
    {
        if self.heads.len() == 1 {
            Some(self.heads[0])
        } else {
            None
        }
    }

    /// Return the branch selected by the effective typed resolution, when
    /// this lineage descends from one. The selection remains attached to the
    /// subject relation even after a later regrant replaces the raw head.
    pub fn selected_branch(&self) -> (r: Option<FactId>)
        ensures
            r == self@.selected_branch,
    {
        self.selected_branch
    }

    /// Whether this relation has at most one effective head. An empty
    /// relation is the bootstrap state; an ordinary relation must be
    /// singular before it can authorize another ordinary operation.
    pub fn is_singular(&self) -> (r: bool)
        ensures
            r <==> self@.heads.len() <= 1,
    {
        self.heads.len() <= 1
    }

    /// Return the complete conflict set when this relation is forked. A
    /// lineage resolution must cite this exact set.
    pub fn complete_conflict_set(&self) -> (r: Option<&[FactId]>)
        ensures
            match r {
                Some(heads) => self@.heads.len() > 1 && heads@ == self@.heads,
                None => self@.heads.len() <= 1,
            },
    {
        if self.is_conflicted() {
            Some(self.heads.as_slice())
        } else {
            None
        }
    }

    pub fn is_conflicted(&self) -> (r: bool)
        ensures
            r <==> self@.heads.len() > 1,
    {
        self.heads.len() > 1
    }
}

/// Role tier.  The selected closed profile determines which tier may author
/// each governance operation; the fact body does not flatten that rule.
#[derive(Clone, Copy, PartialEq, Eq, PartialOrd, Ord, Hash, Debug, Structural)]
pub enum Role {
    Member,
    Controller,
    Owner,
}

#[derive(Clone, Copy, PartialEq, Eq, PartialOrd, Ord, Hash, Debug, Structural)]
pub enum AttestationDecision {
    Evict,
    Approve,
    Reject,
}

/// Closed typed union of semantic cells.  The subject type is fixed by the
/// variant, so a free-form `(subject, field)` pair cannot alias authority.
#[derive(Clone, Copy, PartialEq, Eq, PartialOrd, Ord, Hash, Debug)]
pub enum ExclusiveCell {
    Role { subject: DeviceId },
    Membership { subject: DeviceId },
    Decision { proposal: FactId },
}

impl ExclusiveCell {
    pub fn role(subject: DeviceId) -> (r: Self)
        ensures
            r == (ExclusiveCell::Role { subject }),
    {
        ExclusiveCell::Role { subject }
    }

    pub fn membership(subject: DeviceId) -> (r: Self)
        ensures
            r == (ExclusiveCell::Membership { subject }),
    {
        ExclusiveCell::Membership { subject }
    }

    pub fn decision(proposal: FactId) -> (r: Self)
        ensures
            r == (ExclusiveCell::Decision { proposal }),
    {
        ExclusiveCell::Decision { proposal }
    }

    pub fn same(&self, other: &ExclusiveCell) -> (r: bool)
        ensures
            r <==> *self == *other,
    {
        match self.relate(other) {
            Rel::Same => true,
            _ => false,
        }
    }

    /// The place of the cell's kind among the kinds.
    pub open spec fn tag(self) -> int {
        match self {
            ExclusiveCell::Role { .. } => 0,
            ExclusiveCell::Membership { .. } => 1,
            ExclusiveCell::Decision { .. } => 2,
        }
    }

    /// The device that a role or membership cell is about.
    pub open spec fn about(self) -> Option<DeviceId> {
        match self {
            ExclusiveCell::Role { subject } => Some(subject),
            ExclusiveCell::Membership { subject } => Some(subject),
            ExclusiveCell::Decision { .. } => None,
        }
    }

    pub fn subject(&self) -> (r: Option<DeviceId>)
        ensures
            r == self.about(),
    {
        match self {
            ExclusiveCell::Role { subject } => Some(*subject),
            ExclusiveCell::Membership { subject } => Some(*subject),
            ExclusiveCell::Decision { .. } => None,
        }
    }

    /// The kind and the subject of a cell that is about a device.  The
    /// proposal behind a decision has no spelling here.
    pub fn label(&self) -> (r: Option<String>)
        ensures
            match *self {
                ExclusiveCell::Role { subject } => r is Some && r->0@ == "role:"@
                    + crate::device::ascii_text(subject.spelled()),
                ExclusiveCell::Membership { subject } => r is Some && r->0@ == "membership:"@
                    + crate::device::ascii_text(subject.spelled()),
                ExclusiveCell::Decision { .. } => r is None,
            },
    {
        match self {
            ExclusiveCell::Role { subject } => {
                Some("role:".to_owned().concat(subject.base32().as_str()))
            },
            ExclusiveCell::Membership { subject } => {
                Some("membership:".to_owned().concat(subject.base32().as_str()))
            },
            ExclusiveCell::Decision { .. } => None,
        }
    }
}

impl Key for ExclusiveCell {
    open spec fn rank(self) -> Seq<int> {
        match self {
            ExclusiveCell::Role { subject } => seq![0int] + subject.rank(),
            ExclusiveCell::Membership { subject } => seq![1int] + subject.rank(),
            ExclusiveCell::Decision { proposal } => seq![2int] + proposal.rank(),
        }
    }

    proof fn rank_injective(a: Self, b: Self) {
        assert(a.rank()[0] == a.tag());
        assert(b.rank()[0] == b.tag());
        match (a, b) {
            (ExclusiveCell::Role { subject: x }, ExclusiveCell::Role { subject: y }) => {
                assert(a.rank().skip(1) =~= x.rank());
                assert(b.rank().skip(1) =~= y.rank());
                DeviceId::rank_injective(x, y);
            },
            (ExclusiveCell::Membership { subject: x }, ExclusiveCell::Membership { subject: y }) => {
                assert(a.rank().skip(1) =~= x.rank());
                assert(b.rank().skip(1) =~= y.rank());
                DeviceId::rank_injective(x, y);
            },
            (ExclusiveCell::Decision { proposal: x }, ExclusiveCell::Decision { proposal: y }) => {
                assert(a.rank().skip(1) =~= x.rank());
                assert(b.rank().skip(1) =~= y.rank());
                FactId::rank_injective(x, y);
            },
            _ => {
                assert(false);
            },
        }
    }

    fn relate(&self, other: &Self) -> (r: Rel) {
        proof {
            lemma_tagged(self.rank(), other.rank());
        }
        match (self, other) {
            (ExclusiveCell::Role { subject: x }, ExclusiveCell::Role { subject: y }) => {
                proof {
                    assert(self.rank().skip(1) =~= x.rank());
                    assert(other.rank().skip(1) =~= y.rank());
                }
                x.relate(y)
            },
            (ExclusiveCell::Membership { subject: x }, ExclusiveCell::Membership { subject: y }) => {
                proof {
                    assert(self.rank().skip(1) =~= x.rank());
                    assert(other.rank().skip(1) =~= y.rank());
                }
                x.relate(y)
            },
            (ExclusiveCell::Decision { proposal: x }, ExclusiveCell::Decision { proposal: y }) => {
                proof {
                    assert(self.rank().skip(1) =~= x.rank());
                    assert(other.rank().skip(1) =~= y.rank());
                }
                x.relate(y)
            },
            (ExclusiveCell::Role { .. }, _) => Rel::Below,
            (ExclusiveCell::Membership { .. }, ExclusiveCell::Decision { .. }) => Rel::Below,
            _ => Rel::Above,
        }
    }
}

/// How sequences with a leading tag compare.
proof fn lemma_tagged(a: Seq<int>, b: Seq<int>)
    requires
        a.len() > 0,
        b.len() > 0,
    ensures
        a[0] < b[0] ==> order::lex_lt(a, b) && !order::lex_lt(b, a),
        a[0] > b[0] ==> order::lex_lt(b, a) && !order::lex_lt(a, b),
        a[0] == b[0] ==> (order::lex_lt(a, b) <==> order::lex_lt(a.skip(1), b.skip(1))),
        a[0] == b[0] ==> (order::lex_lt(b, a) <==> order::lex_lt(b.skip(1), a.skip(1))),
{
    assert(a.drop_first() =~= a.skip(1));
    assert(b.drop_first() =~= b.skip(1));
}

impl View for ExclusiveCell {
    type V = ExclusiveCell;

    open spec fn view(&self) -> ExclusiveCell {
        *self
    }
}

impl Duplicate for ExclusiveCell {
    fn duplicate(&self) -> (r: Self) {
        *self
    }
}

/// What a fact body says.
pub enum BodyView {
    RoleGrant { target: DeviceId, role: Role },
    RoleRevoke { target: DeviceId },
    Evict { target: DeviceId },
    MembershipAdmit { target: DeviceId },
    EvictionProof { target: DeviceId, evidence: Seq<FactId> },
    SelfStandDown { device_id: DeviceId, evidence: Seq<FactId> },
    Attestation {
        target: DeviceId,
        proposal: FactId,
        decision: AttestationDecision,
        signer: DeviceId,
        contributions: Seq<FactId>,
    },
    Resolution { cell: ExclusiveCell, cited_heads: Seq<FactId>, selected_head: FactId },
    AuthorityLineageResolution {
        subject: DeviceId,
        cited_heads: Seq<FactId>,
        selected_head: FactId,
    },
}

/// The durable semantic union.  Context selection, topology, and compaction
/// evidence are outside this ordinary fact graph.
#[derive(Debug, PartialEq, Eq)]
pub enum FactBody {
    RoleGrant { target: DeviceId, role: Role },
    RoleRevoke { target: DeviceId },
    Evict { target: DeviceId },
    /// Controller-authorized closed membership restoration. Role authority
    /// remains a separate role-cell fact and must be carried causally when
    /// both are needed to restore session admission.
    MembershipAdmit { target: DeviceId },
    EvictionProof { target: DeviceId, evidence: Vec<FactId> },
    SelfStandDown { device_id: DeviceId, evidence: Vec<FactId> },
    Attestation {
        target: DeviceId,
        proposal: FactId,
        decision: AttestationDecision,
        signer: DeviceId,
        contributions: Vec<FactId>,
    },
    Resolution { cell: ExclusiveCell, cited_heads: Vec<FactId>, selected_head: FactId },
    /// Explicit selector for a subject's authority lineage. Unlike an
    /// ordinary cell resolution, this relation may cite heads from different
    /// exclusive cells, but it must carry the complete current lineage set.
    AuthorityLineageResolution {
        subject: DeviceId,
        cited_heads: Vec<FactId>,
        selected_head: FactId,
    },
}

impl View for FactBody {
    type V = BodyView;

    open spec fn view(&self) -> BodyView {
        match *self {
            FactBody::RoleGrant { target, role } => BodyView::RoleGrant { target, role },
            FactBody::RoleRevoke { target } => BodyView::RoleRevoke { target },
            FactBody::Evict { target } => BodyView::Evict { target },
            FactBody::MembershipAdmit { target } => BodyView::MembershipAdmit { target },
            FactBody::EvictionProof { target, evidence } => BodyView::EvictionProof {
                target,
                evidence: evidence@,
            },
            FactBody::SelfStandDown { device_id, evidence } => BodyView::SelfStandDown {
                device_id,
                evidence: evidence@,
            },
            FactBody::Attestation { target, proposal, decision, signer, contributions } =>
            BodyView::Attestation {
                target,
                proposal,
                decision,
                signer,
                contributions: contributions@,
            },
            FactBody::Resolution { cell, cited_heads, selected_head } => BodyView::Resolution {
                cell,
                cited_heads: cited_heads@,
                selected_head,
            },
            FactBody::AuthorityLineageResolution { subject, cited_heads, selected_head } =>
            BodyView::AuthorityLineageResolution {
                subject,
                cited_heads: cited_heads@,
                selected_head,
            },
        }
    }
}

impl Duplicate for FactBody {
    fn duplicate(&self) -> (r: Self) {
        match self {
            FactBody::RoleGrant { target, role } => FactBody::RoleGrant {
                target: *target,
                role: *role,
            },
            FactBody::RoleRevoke { target } => FactBody::RoleRevoke { target: *target },
            FactBody::Evict { target } => FactBody::Evict { target: *target },
            FactBody::MembershipAdmit { target } => FactBody::MembershipAdmit { target: *target },
            FactBody::EvictionProof { target, evidence } => FactBody::EvictionProof {
                target: *target,
                evidence: copy_keys(evidence),
            },
            FactBody::SelfStandDown { device_id, evidence } => FactBody::SelfStandDown {
                device_id: *device_id,
                evidence: copy_keys(evidence),
            },
            FactBody::Attestation { target, proposal, decision, signer, contributions } =>
            FactBody::Attestation {
                target: *target,
                proposal: *proposal,
                decision: *decision,
                signer: *signer,
                contributions: copy_keys(contributions),
            },
            FactBody::Resolution { cell, cited_heads, selected_head } => FactBody::Resolution {
                cell: *cell,
                cited_heads: copy_keys(cited_heads),
                selected_head: *selected_head,
            },
            FactBody::AuthorityLineageResolution { subject, cited_heads, selected_head } =>
            FactBody::AuthorityLineageResolution {
                subject: *subject,
                cited_heads: copy_keys(cited_heads),
                selected_head: *selected_head,
            },
        }
    }
}

impl BodyView {
    /// The list of fact identifiers that a body carries.
    pub open spec fn listed(self) -> Option<Seq<FactId>> {
        match self {
            BodyView::EvictionProof { evidence, .. } => Some(evidence),
            BodyView::SelfStandDown { evidence, .. } => Some(evidence),
            BodyView::Attestation { contributions, .. } => Some(contributions),
            BodyView::Resolution { cited_heads, .. } => Some(cited_heads),
            BodyView::AuthorityLineageResolution { cited_heads, .. } => Some(cited_heads),
            _ => None,
        }
    }

    /// The same body with another list.
    pub open spec fn relisted(self, list: Seq<FactId>) -> BodyView {
        match self {
            BodyView::EvictionProof { target, .. } => BodyView::EvictionProof {
                target,
                evidence: list,
            },
            BodyView::SelfStandDown { device_id, .. } => BodyView::SelfStandDown {
                device_id,
                evidence: list,
            },
            BodyView::Attestation { target, proposal, decision, signer, .. } =>
            BodyView::Attestation { target, proposal, decision, signer, contributions: list },
            BodyView::Resolution { cell, selected_head, .. } => BodyView::Resolution {
                cell,
                cited_heads: list,
                selected_head,
            },
            BodyView::AuthorityLineageResolution { subject, selected_head, .. } =>
            BodyView::AuthorityLineageResolution { subject, cited_heads: list, selected_head },
            _ => self,
        }
    }

    /// The same body with its list sorted and free of repeats.
    pub open spec fn normalized(self) -> BodyView {
        match self.listed() {
            Some(list) => self.relisted(order::ascending(list.to_set())),
            None => self,
        }
    }

    pub open spec fn domain(self) -> FactDomain {
        match self {
            BodyView::EvictionProof { .. } => FactDomain::EvictionProof,
            BodyView::SelfStandDown { .. } => FactDomain::EvictionProof,
            _ => FactDomain::Governance,
        }
    }

    /// The exclusive cells that a body advances.
    pub open spec fn cells(self) -> Seq<ExclusiveCell> {
        match self {
            BodyView::RoleGrant { target, .. } => seq![ExclusiveCell::Role { subject: target }],
            BodyView::RoleRevoke { target } => seq![ExclusiveCell::Role { subject: target }],
            BodyView::Evict { target } => seq![
                ExclusiveCell::Role { subject: target },
                ExclusiveCell::Membership { subject: target },
            ],
            BodyView::MembershipAdmit { target } => seq![
                ExclusiveCell::Membership { subject: target },
            ],
            BodyView::EvictionProof { .. } => seq![],
            BodyView::SelfStandDown { .. } => seq![],
            BodyView::Attestation { proposal, .. } => seq![ExclusiveCell::Decision { proposal }],
            BodyView::Resolution { cell, .. } => seq![cell],
            BodyView::AuthorityLineageResolution { .. } => seq![],
        }
    }

    /// The device besides the author whose authority a body uses.
    pub open spec fn payload_subject(self) -> Option<DeviceId> {
        match self {
            BodyView::RoleGrant { target, .. } => Some(target),
            BodyView::RoleRevoke { target } => Some(target),
            BodyView::Evict { target } => Some(target),
            BodyView::MembershipAdmit { target } => Some(target),
            BodyView::EvictionProof { target, .. } => Some(target),
            BodyView::SelfStandDown { device_id, .. } => Some(device_id),
            BodyView::Attestation { .. } => None,
            BodyView::Resolution { cell, .. } => cell.about(),
            BodyView::AuthorityLineageResolution { subject, .. } => Some(subject),
        }
    }

    /// The devices whose authority a body uses.
    pub open spec fn subjects(self, author: DeviceId) -> Set<DeviceId> {
        match self.payload_subject() {
            Some(subject) => set![author, subject],
            None => set![author],
        }
    }

    /// The facts besides cell predecessors that must be in a body's causal
    /// past.
    pub open spec fn support(self) -> Set<FactId> {
        match self {
            BodyView::Attestation { proposal, contributions, .. } => contributions.to_set().insert(
                proposal,
            ),
            _ => match self.listed() {
                Some(list) => list.to_set(),
                None => Set::empty(),
            },
        }
    }

    /// The device that a body is stand-down evidence against.
    pub open spec fn stands_down(self) -> Option<DeviceId> {
        match self {
            BodyView::EvictionProof { target, .. } => Some(target),
            BodyView::SelfStandDown { device_id, .. } => Some(device_id),
            _ => None,
        }
    }

    /// Whether a body is in canonical form.
    pub open spec fn canonical(self) -> bool {
        match self.listed() {
            Some(list) => order::is_ascending(list) && (self.domain()
                == FactDomain::EvictionProof ==> list.len() > 0),
            None => true,
        }
    }
}

impl FactBody {
    pub fn normalize(&mut self)
        ensures
            final(self)@ == old(self)@.normalized(),
    {
        match self {
            FactBody::EvictionProof { evidence, .. } => {
                *evidence = sort_unique(evidence);
            },
            FactBody::SelfStandDown { evidence, .. } => {
                *evidence = sort_unique(evidence);
            },
            FactBody::Attestation { contributions, .. } => {
                *contributions = sort_unique(contributions);
            },
            FactBody::Resolution { cited_heads, .. } => {
                *cited_heads = sort_unique(cited_heads);
            },
            FactBody::AuthorityLineageResolution { cited_heads, .. } => {
                *cited_heads = sort_unique(cited_heads);
            },
            _ => {},
        }
    }

    pub fn validate_canonical(&self) -> (r: Result<(), SemanticError>)
        ensures
            r is Ok <==> self@.canonical(),
            match r {
                Ok(()) => true,
                Err(e) => match self@ {
                    BodyView::EvictionProof { evidence, .. } => e == (if evidence.len() == 0 {
                        SemanticError::IncompleteEvictionProof
                    } else {
                        SemanticError::NonCanonicalSet("eviction evidence")
                    }),
                    BodyView::SelfStandDown { evidence, .. } => e == (if evidence.len() == 0 {
                        SemanticError::IncompleteEvictionProof
                    } else {
                        SemanticError::NonCanonicalSet("eviction evidence")
                    }),
                    BodyView::Attestation { .. } => e == SemanticError::NonCanonicalSet(
                        "attestation contributions",
                    ),
                    _ => e == SemanticError::NonCanonicalSet("resolution cited heads"),
                },
            },
    {
        match self {
            FactBody::EvictionProof { evidence, .. } | FactBody::SelfStandDown {
                evidence,
                ..
            } => {
                if evidence.len() == 0 {
                    return Err(SemanticError::IncompleteEvictionProof);
                }
                require_sorted_unique(evidence, "eviction evidence")
            },
            FactBody::Attestation { contributions, .. } => require_sorted_unique(
                contributions,
                "attestation contributions",
            ),
            FactBody::Resolution { cited_heads, .. } | FactBody::AuthorityLineageResolution {
                cited_heads,
                ..
            } => require_sorted_unique(cited_heads, "resolution cited heads"),
            _ => Ok(()),
        }
    }

    pub fn domain(&self) -> (r: FactDomain)
        ensures
            r == self@.domain(),
    {
        match self {
            FactBody::EvictionProof { .. } | FactBody::SelfStandDown { .. } => {
                FactDomain::EvictionProof
            },
            _ => FactDomain::Governance,
        }
    }

    pub fn exclusive_cells(&self) -> (r: Vec<ExclusiveCell>)
        ensures
            r@ == self@.cells(),
    {
        let r: Vec<ExclusiveCell> = match self {
            FactBody::RoleGrant { target, .. } | FactBody::RoleRevoke { target } => {
                vec![ExclusiveCell::role(*target)]
            },
            FactBody::Evict { target } => {
                vec![ExclusiveCell::role(*target), ExclusiveCell::membership(*target)]
            },
            FactBody::MembershipAdmit { target } => vec![ExclusiveCell::membership(*target)],
            FactBody::EvictionProof { .. } | FactBody::SelfStandDown { .. } => Vec::new(),
            FactBody::Attestation { proposal, .. } => vec![ExclusiveCell::decision(*proposal)],
            FactBody::Resolution { cell, .. } => vec![*cell],
            FactBody::AuthorityLineageResolution { .. } => Vec::new(),
        };
        assert(r@ =~= self@.cells());
        r
    }

    /// The devices whose authority the body uses, in order.
    pub fn authority_use_subjects(&self, author: &DeviceId) -> (r: Vec<DeviceId>)
        ensures
            r@ == order::ascending(self@.subjects(*author)),
            order::is_ascending(r@),
            r@.no_duplicates(),
            r@.to_set() == self@.subjects(*author),
            forall|d: DeviceId| #[trigger] r@.contains(d) <==> self@.subjects(*author).contains(d),
    {
        let payload: Option<DeviceId> = match self {
            FactBody::RoleGrant { target, .. } | FactBody::RoleRevoke { target } => Some(*target),
            FactBody::Evict { target } => Some(*target),
            FactBody::MembershipAdmit { target } | FactBody::EvictionProof { target, .. } => Some(
                *target,
            ),
            FactBody::SelfStandDown { device_id, .. } => Some(*device_id),
            FactBody::Attestation { .. } => None,
            FactBody::Resolution { cell, .. } => cell.subject(),
            FactBody::AuthorityLineageResolution { subject, .. } => Some(*subject),
        };
        let mut subjects: Vec<DeviceId> = vec![*author];
        if let Some(subject) = payload {
            subjects.push(subject);
        }
        proof {
            let want = self@.subjects(*author);
            assert(subjects@[0] == *author);
            match payload {
                Some(subject) => {
                    assert(subjects@ =~= seq![*author, subject]);
                    assert(subjects@[1] == subject);
                },
                None => {
                    assert(subjects@ =~= seq![*author]);
                },
            }
            assert forall|d: DeviceId| #[trigger] subjects@.to_set().contains(d) <==> want.contains(
                d,
            ) by {
                if subjects@.contains(d) {
                    let i = choose|i: int| 0 <= i < subjects@.len() && subjects@[i] == d;
                    assert(i == 0 || i == 1);
                }
            }
            assert(subjects@.to_set() =~= want);
        }
        let r = sort_unique(&subjects);
        assert forall|d: DeviceId| #[trigger] r@.contains(d) <==> self@.subjects(*author).contains(
            d,
        ) by {
            assert(r@.to_set().contains(d) <==> r@.contains(d));
        }
        r
    }

    /// Return the non-cell facts that must be in the causal past of this
    /// body.  Exclusive-cell predecessors come from the graph's authoring
    /// witness; evidence and cited heads are body-owned support and must be
    /// carried explicitly as parents as well.
    pub fn causal_support(&self) -> (r: Vec<FactId>)
        ensures
            r@ == order::ascending(self@.support()),
            order::is_ascending(r@),
            r@.no_duplicates(),
            r@.to_set() == self@.support(),
    {
        let mut support: Vec<FactId> = Vec::new();
        self.list_support(&mut support);
        proof {
            assert(Seq::<FactId>::empty().to_set() =~= Set::<FactId>::empty());
            assert(support@.to_set() =~= self@.support());
        }
        sort_unique(&support)
    }

    /// Appends the support of the body.
    pub(crate) fn list_support(&self, out: &mut Vec<FactId>)
        ensures
            final(out)@.to_set() == old(out)@.to_set().union(self@.support()),
    {
        let ghost start = out@;
        match self {
            FactBody::EvictionProof { evidence, .. } | FactBody::SelfStandDown {
                evidence,
                ..
            } => {
                append_keys(out, evidence);
                proof {
                    lemma_concat_set(start, evidence@);
                }
            },
            FactBody::Attestation { proposal, contributions, .. } => {
                out.push(*proposal);
                append_keys(out, contributions);
                proof {
                    lemma_concat_set(start.push(*proposal), contributions@);
                    lemma_push_set(start, *proposal);
                    assert(out@.to_set() =~= start.to_set().union(self@.support()));
                }
            },
            FactBody::Resolution { cited_heads, .. } | FactBody::AuthorityLineageResolution {
                cited_heads,
                ..
            } => {
                append_keys(out, cited_heads);
                proof {
                    lemma_concat_set(start, cited_heads@);
                }
            },
            _ => {
                assert(start.to_set() =~= start.to_set().union(self@.support()));
            },
        }
    }
}

/// The entries of a concatenation are those of both parts.
pub proof fn lemma_concat_set<A>(a: Seq<A>, b: Seq<A>)
    ensures
        (a + b).to_set() == a.to_set().union(b.to_set()),
{
    assert forall|x: A| #[trigger] (a + b).to_set().contains(x) <==> a.to_set().union(
        b.to_set(),
    ).contains(x) by {
        let c = a + b;
        if c.contains(x) {
            let i = choose|i: int| 0 <= i < c.len() && c[i] == x;
            if i < a.len() {
                assert(a[i] == x);
            } else {
                assert(b[i - a.len()] == x);
            }
        }
        if a.contains(x) {
            let i = choose|i: int| 0 <= i < a.len() && a[i] == x;
            assert(c[i] == x);
        }
        if b.contains(x) {
            let i = choose|i: int| 0 <= i < b.len() && b[i] == x;
            assert(c[i + a.len()] == x);
        }
    }
    assert((a + b).to_set() =~= a.to_set().union(b.to_set()));
}

/// The entries after a push.
pub proof fn lemma_push_set<A>(a: Seq<A>, x: A)
    ensures
        a.push(x).to_set() == a.to_set().insert(x),
{
    assert(a.push(x).take(a.len() as int) =~= a);
    assert(a.push(x).take(a.len() as int + 1) =~= a.push(x));
    crate::ordset::lemma_take_set(a.push(x), a.len() as int);
}

/// Accepts exactly the strictly ascending lists.
pub fn require_sorted_unique<K: Key>(values: &Vec<K>, field: &'static str) -> (r: Result<
    (),
    SemanticError,
>)
    ensures
        r is Ok <==> order::is_ascending(values@),
        match r {
            Ok(()) => true,
            Err(e) => e == SemanticError::NonCanonicalSet(field),
        },
{
    let n: usize = values.len();
    if n == 0 {
        return Ok(());
    }
    let mut i: usize = 1;
    while i < n
        invariant
            n == values@.len(),
            1 <= i <= n,
            order::is_ascending(values@.take(i as int)),
        decreases n - i,
    {
        match values[i - 1].relate(&values[i]) {
            Rel::Below => {},
            _ => {
                assert(!order::before(values@[i - 1], values@[i as int]));
                return Err(SemanticError::NonCanonicalSet(field));
            },
        }
        proof {
            let s = values@.take(i + 1);
            assert forall|a: int, b: int| 0 <= a < b < s.len() implies #[trigger] order::before(
                s[a],
                s[b],
            ) by {
                let t = values@.take(i as int);
                if b < i {
                    assert(order::before(t[a], t[b]));
                } else if a < i - 1 {
                    assert(order::before(t[a], t[i - 1]));
                    order::lemma_before_transitive(s[a], s[i - 1], s[b]);
                }
            }
        }
        i += 1;
    }
    assert(values@.take(n as int) =~= values@);
    Ok(())
}

/// Normalizing a body twice is normalizing it once, and a normalized body is
/// canonical unless it lacks the evidence that it needs.
pub proof fn normalizing_settles(body: BodyView)
    ensures
        body.normalized().normalized() == body.normalized(),
        body.normalized().canonical() <==> (body.domain() == FactDomain::EvictionProof ==> (
        body.listed() matches Some(list) && list.len() > 0)),
{
    if let Some(list) = body.listed() {
        let set = list.to_set();
        let sorted = order::ascending(set);
        crate::ordset::lemma_listing(set);
        assert(body.normalized().listed() == Some(sorted));
        if list.len() > 0 {
            assert(set.contains(list[0]));
            assert(sorted.contains(list[0]));
        } else {
            assert(set =~= Set::<FactId>::empty());
            assert(sorted.len() == 0);
        }
    }
}

} // verus!

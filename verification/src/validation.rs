//! What a candidate fact is held to in its own causal past.

use vstd::prelude::*;

use crate::content::{AttestationDecision, BodyView, ExclusiveCell, FactBody, Role};
use crate::costs;
use crate::device::DeviceId;
use crate::error::SemanticError;
use crate::evaluator;
use crate::fact::{is_payload_local_resolution, FactView, SignedFact};
use crate::graph::{FactGraph, GraphView};
use crate::ids::FactId;
use crate::order;
use crate::ordset::{holds, same_keys, sort_unique};
use crate::policy::VerifiedProjectPolicy;
use crate::rebuild;

verus! {

/// An open project takes no facts.
pub open spec fn domain_check(g: GraphView) -> Result<(), SemanticError> {
    if g.setting.policy == VerifiedProjectPolicy::Open {
        Err(SemanticError::DomainMismatch)
    } else {
        Ok(())
    }
}

/// Whether redundancy is judged in the causal past of the operation.
pub open spec fn judged_in_past(body: BodyView) -> bool {
    body is RoleGrant || body is RoleRevoke || body is MembershipAdmit || body is SelfStandDown
        || body is Resolution || body is AuthorityLineageResolution
}

/// Why a candidate would change nothing.  An eviction never would: it stands
/// against an admission that is concurrent with it, also one that is still to
/// arrive.
pub open spec fn noop_for(g: GraphView, f: FactView) -> Result<
    Option<&'static str>,
    SemanticError,
> {
    if judged_in_past(f.content.body) {
        match rebuild::causal_view(g, f) {
            Err(e) => Err(e),
            Ok(c) => Ok(evaluator::noop(c, f.content.body)),
        }
    } else {
        Ok(None)
    }
}

/// Whether a body is a typed selection in the lineage of `subject`.
pub open spec fn resolves_lineage(body: BodyView, subject: DeviceId) -> bool {
    match body {
        BodyView::AuthorityLineageResolution { subject: s, .. } => s == subject,
        _ => false,
    }
}

/// Whether a body resolves the role cell of `subject` from exactly the heads
/// of its lineage.
pub open spec fn resolves_role(
    c: GraphView,
    body: BodyView,
    subject: DeviceId,
    heads: Set<FactId>,
) -> bool {
    match body {
        BodyView::Resolution { cell: ExclusiveCell::Role { subject: s }, cited_heads, .. } => {
            &&& s == subject
            &&& cited_heads == order::ascending(heads)
            &&& forall|h: FactId| #[trigger]
                heads.contains(h) ==> c.facts.contains_key(h) && c.facts[h].advances(
                    ExclusiveCell::Role { subject },
                )
        },
        _ => false,
    }
}

/// Whether a fact carries the exact lineage of `subject`, and may.
pub open spec fn carries_lineage(c: GraphView, f: FactView, subject: DeviceId) -> bool {
    let heads = c.reading().authority_heads(subject);
    match f.predecessors(subject) {
        None => false,
        Some(list) => list.to_set() == heads && (heads.len() > 1 ==> (f.payload_local(subject)
            || resolves_lineage(f.content.body, subject) || resolves_role(
            c,
            f.content.body,
            subject,
            heads,
        ))),
    }
}

/// Whether a fact carries the exact lineage of each of its subjects.
pub open spec fn carries_lineages(c: GraphView, f: FactView) -> bool {
    forall|s: DeviceId| #[trigger]
        f.content.body.subjects(f.content.author).contains(s) ==> carries_lineage(c, f, s)
}

/// Whether `id` is a vote of a member to put `target` out.
pub open spec fn is_vote(c: GraphView, target: DeviceId, id: FactId) -> bool {
    c.facts.contains_key(id) && match c.facts[id].content.body {
        BodyView::Attestation { target: t, decision, signer, .. } => decision
            == AttestationDecision::Evict && t == target && evaluator::eval(c).has_tier(
            signer,
            Role::Member,
        ) && signer == c.facts[id].content.author,
        _ => false,
    }
}

/// What proof of an eviction is held to.
pub open spec fn eviction_check(
    c: GraphView,
    target: DeviceId,
    evidence: Seq<FactId>,
    author: DeviceId,
) -> Result<(), SemanticError> {
    if !evaluator::eval(c).authorizes(author, BodyView::Evict { target }) {
        Err(SemanticError::UnauthorizedEviction)
    } else if forall|i: int| 0 <= i < evidence.len() ==> is_vote(c, target, #[trigger] evidence[i]) {
        Ok(())
    } else {
        Err(SemanticError::InvalidEvictionEvidence)
    }
}

/// Whether `id` proves the eviction of `device`.
pub open spec fn is_proof(c: GraphView, device: DeviceId, id: FactId) -> bool {
    c.facts.contains_key(id) && match c.facts[id].content.body {
        BodyView::EvictionProof { target, .. } => target == device,
        _ => false,
    }
}

/// What a device that stands down is held to.
pub open spec fn stand_down_check(
    c: GraphView,
    device: DeviceId,
    evidence: Seq<FactId>,
    author: DeviceId,
) -> Result<(), SemanticError> {
    if device == author && forall|i: int|
        0 <= i < evidence.len() ==> is_proof(c, device, #[trigger] evidence[i]) {
        Ok(())
    } else {
        Err(SemanticError::InvalidStandDownProof)
    }
}

/// The refusal of a fact that mutates governance without authority.
pub open spec fn refusal_for(body: BodyView) -> Option<SemanticError> {
    match body {
        BodyView::RoleGrant { .. }
        | BodyView::RoleRevoke { .. }
        | BodyView::Evict { .. }
        | BodyView::Resolution { .. }
        | BodyView::AuthorityLineageResolution { .. } => Some(SemanticError::UnauthorizedRoleGrant),
        BodyView::MembershipAdmit { .. } => Some(SemanticError::UnauthorizedMembershipAdmit),
        BodyView::Attestation { .. } => Some(SemanticError::UnauthorizedAttestation),
        _ => None,
    }
}

/// Whether heads are cited in canonical order, at least two of them.
pub open spec fn is_citation(cited: Seq<FactId>) -> bool {
    cited.len() >= 2 && cited == order::ascending(cited.to_set())
}

/// Whether a cited head is known and carried.
pub open spec fn head_check(c: GraphView, f: FactView, head: FactId) -> Result<
    (),
    SemanticError,
> {
    if !c.facts.contains_key(head) {
        Err(SemanticError::UnknownResolutionHead(head))
    } else if !f.content.parents.contains(head) {
        Err(SemanticError::IncompleteResolution)
    } else {
        Ok(())
    }
}

/// The first refusal among the first `n` cited heads.
pub open spec fn heads_check(c: GraphView, f: FactView, cited: Seq<FactId>, n: int) -> Result<
    (),
    SemanticError,
>
    decreases n,
{
    if n <= 0 {
        Ok(())
    } else {
        costs::both(heads_check(c, f, cited, n - 1), head_check(c, f, cited[n - 1]))
    }
}

/// Whether a fact of the graph advances `cell`.
pub open spec fn advances_cell(c: GraphView, cell: ExclusiveCell, id: FactId) -> bool {
    c.facts.contains_key(id) && c.facts[id].advances(cell)
}

/// Whether a cited head is known, carried, and of the lineage.
pub open spec fn is_lineage_head(c: GraphView, f: FactView, subject: DeviceId, id: FactId) -> bool {
    c.facts.contains_key(id) && f.content.parents.contains(id) && c.facts[id].uses(subject)
}

/// What a resolution is held to.
pub open spec fn resolution_check(c: GraphView, f: FactView) -> Result<(), SemanticError> {
    match f.content.body {
        BodyView::Resolution { cell, cited_heads, selected_head } => if !cited_heads.contains(
            selected_head,
        ) {
            Err(SemanticError::ResolutionSelectionNotCited)
        } else if !is_citation(cited_heads) {
            Err(SemanticError::IncompleteResolution)
        } else {
            match heads_check(c, f, cited_heads, cited_heads.len() as int) {
                Err(e) => Err(e),
                Ok(()) => if !(forall|i: int|
                    0 <= i < cited_heads.len() ==> advances_cell(
                        c,
                        cell,
                        #[trigger] cited_heads[i],
                    )) {
                    Err(SemanticError::IncompleteResolution)
                } else if c.reading().raw_heads(cell) != cited_heads.to_set() {
                    Err(SemanticError::ResolutionNotCurrent)
                } else {
                    Ok(())
                },
            }
        },
        BodyView::AuthorityLineageResolution { subject, cited_heads, selected_head } => {
            if !cited_heads.contains(selected_head) {
                Err(SemanticError::ResolutionSelectionNotCited)
            } else if !is_citation(cited_heads) {
                Err(SemanticError::IncompleteResolution)
            } else if !(forall|i: int|
                0 <= i < cited_heads.len() ==> is_lineage_head(
                    c,
                    f,
                    subject,
                    #[trigger] cited_heads[i],
                )) {
                Err(SemanticError::InvalidAuthorityUse)
            } else if c.reading().authority_heads(subject) != cited_heads.to_set() {
                Err(SemanticError::ResolutionNotCurrent)
            } else {
                Ok(())
            }
        },
        _ => Ok(()),
    }
}

/// What a fact that mutates governance is held to.
pub open spec fn authority_check(c: GraphView, f: FactView) -> Result<(), SemanticError> {
    match refusal_for(f.content.body) {
        None => Ok(()),
        Some(e) => if carries_lineages(c, f) && evaluator::eval(c).authorizes(
            f.content.author,
            f.content.body,
        ) {
            Ok(())
        } else {
            Err(e)
        },
    }
}

/// What durable evidence is held to.
pub open spec fn proof_check(c: GraphView, f: FactView) -> Result<(), SemanticError> {
    match f.content.body {
        BodyView::EvictionProof { target, evidence } => if !carries_lineages(c, f) {
            Err(SemanticError::UnauthorizedEviction)
        } else {
            eviction_check(c, target, evidence, f.content.author)
        },
        BodyView::SelfStandDown { device_id, evidence } => if !carries_lineages(c, f) {
            Err(SemanticError::InvalidStandDownProof)
        } else {
            stand_down_check(c, device_id, evidence, f.content.author)
        },
        _ => Ok(()),
    }
}

/// What a candidate is held to in its causal past.
#[verifier::opaque]
pub open spec fn candidate_check(c: GraphView, f: FactView) -> Result<(), SemanticError> {
    costs::both(
        resolution_check(c, f),
        costs::both(authority_check(c, f), proof_check(c, f)),
    )
}

proof fn lemma_heads_check_err(c: GraphView, f: FactView, cited: Seq<FactId>, i: int, n: int)
    requires
        0 <= i <= n,
        heads_check(c, f, cited, i) is Err,
    ensures
        heads_check(c, f, cited, n) == heads_check(c, f, cited, i),
    decreases n - i,
{
    if i < n {
        lemma_heads_check_err(c, f, cited, i, n - 1);
    }
}

/// Whether heads are cited in canonical order, at least two of them.
fn cites_canonically(cited: &Vec<FactId>) -> (r: bool)
    ensures
        r == is_citation(cited@),
{
    let sorted = sort_unique(cited);
    sorted.len() >= 2 && same_keys(&sorted, cited)
}

/// The refusal of a fact that mutates governance without authority.
/// Participation and durable evidence keep their own rules; they do not
/// become implicitly authorized by this table.
pub fn authorization_error(body: &FactBody) -> (r: Option<SemanticError>)
    ensures
        r == refusal_for(body@),
{
    match body {
        FactBody::RoleGrant { .. }
        | FactBody::RoleRevoke { .. }
        | FactBody::Evict { .. }
        | FactBody::Resolution { .. }
        | FactBody::AuthorityLineageResolution { .. } => Some(SemanticError::UnauthorizedRoleGrant),
        FactBody::MembershipAdmit { .. } => Some(SemanticError::UnauthorizedMembershipAdmit),
        FactBody::Attestation { .. } => Some(SemanticError::UnauthorizedAttestation),
        _ => None,
    }
}

pub fn resolution_selects_authority_heads(body: &FactBody, subject: &DeviceId) -> (r: bool)
    ensures
        r == resolves_lineage(body@, *subject),
{
    match body {
        FactBody::AuthorityLineageResolution { subject: s, .. } => s.same(subject),
        _ => false,
    }
}

impl FactGraph {
    pub fn validate_domain(&self) -> (r: Result<(), SemanticError>)
        ensures
            r == domain_check(self@),
    {
        match self.setting.policy {
            VerifiedProjectPolicy::Open => Err(SemanticError::DomainMismatch),
            VerifiedProjectPolicy::Closed => Ok(()),
        }
    }

    /// Why a candidate would change nothing.  Redundancy is intrinsic to the
    /// causal past of the signed operation, not to a receiver's concurrent
    /// arrival order.  An eviction is never redundant: it stands against an
    /// admission that is concurrent with it, also one that is still to arrive.
    pub fn semantic_noop_for_candidate(&self, fact: &SignedFact) -> (r: Result<
        Option<&'static str>,
        SemanticError,
    >)
        ensures
            r == noop_for(self@, fact@),
    {
        match &fact.content.body {
            FactBody::RoleGrant { .. }
            | FactBody::RoleRevoke { .. }
            | FactBody::MembershipAdmit { .. }
            | FactBody::SelfStandDown { .. }
            | FactBody::Resolution { .. }
            | FactBody::AuthorityLineageResolution { .. } => match self.causal_past(fact) {
                Ok(causal) => Ok(causal.graph().semantic_noop(&fact.content.body)),
                Err(e) => Err(e),
            },
            _ => Ok(None),
        }
    }

    fn votes_to_evict(&self, target: &DeviceId, id: &FactId) -> (r: bool)
        ensures
            r == is_vote(self@, *target, *id),
    {
        match self.facts.get(id) {
            None => false,
            Some(f) => match &f.content.body {
                FactBody::Attestation { target: t, decision, signer, .. } => match decision {
                    AttestationDecision::Evict => t.same(target) && self.evaluator().has_tier(
                        signer,
                        Role::Member,
                    ) && signer.same(&f.content.author),
                    _ => false,
                },
                _ => false,
            },
        }
    }

    pub fn validate_eviction_proof(
        &self,
        target: &DeviceId,
        evidence: &Vec<FactId>,
        author: &DeviceId,
    ) -> (r: Result<(), SemanticError>)
        ensures
            r == eviction_check(self@, *target, evidence@, *author),
    {
        if !self.is_authorized_for(&FactBody::Evict { target: *target }, author) {
            return Err(SemanticError::UnauthorizedEviction);
        }
        let n: usize = evidence.len();
        for i in 0..n
            invariant
                n == evidence@.len(),
                evaluator::eval(self@).authorizes(*author, BodyView::Evict { target: *target }),
                forall|j: int| 0 <= j < i ==> is_vote(self@, *target, #[trigger] evidence@[j]),
        {
            if !self.votes_to_evict(target, &evidence[i]) {
                return Err(SemanticError::InvalidEvictionEvidence);
            }
        }
        Ok(())
    }

    fn proves_eviction(&self, device: &DeviceId, id: &FactId) -> (r: bool)
        ensures
            r == is_proof(self@, *device, *id),
    {
        match self.facts.get(id) {
            None => false,
            Some(f) => match &f.content.body {
                FactBody::EvictionProof { target, .. } => target.same(device),
                _ => false,
            },
        }
    }

    pub fn validate_self_stand_down(
        &self,
        device_id: &DeviceId,
        evidence: &Vec<FactId>,
        author: &DeviceId,
    ) -> (r: Result<(), SemanticError>)
        ensures
            r == stand_down_check(self@, *device_id, evidence@, *author),
    {
        if !device_id.same(author) {
            return Err(SemanticError::InvalidStandDownProof);
        }
        let n: usize = evidence.len();
        for i in 0..n
            invariant
                n == evidence@.len(),
                *device_id == *author,
                forall|j: int| 0 <= j < i ==> is_proof(self@, *device_id, #[trigger] evidence@[j]),
        {
            if !self.proves_eviction(device_id, &evidence[i]) {
                return Err(SemanticError::InvalidStandDownProof);
            }
        }
        Ok(())
    }

    fn head_advances(&self, cell: &ExclusiveCell, id: &FactId) -> (r: bool)
        ensures
            r == advances_cell(self@, *cell, *id),
    {
        match self.facts.get(id) {
            Some(f) => holds(&f.content.body.exclusive_cells(), cell),
            None => false,
        }
    }

    pub fn same_cell_role_resolution(
        &self,
        body: &FactBody,
        subject: &DeviceId,
        expected: &Vec<FactId>,
    ) -> (r: bool)
        requires
            expected@ == order::ascending(expected@.to_set()),
        ensures
            r == resolves_role(self@, body@, *subject, expected@.to_set()),
    {
        match body {
            FactBody::Resolution { cell: ExclusiveCell::Role { subject: s }, cited_heads, .. } => {
                if !s.same(subject) || !same_keys(cited_heads, expected) {
                    return false;
                }
                let n: usize = expected.len();
                for i in 0..n
                    invariant
                        n == expected@.len(),
                        resolves_role(self@, body@, *subject, expected@.to_set()) == forall|
                            h: FactId,
                        | #[trigger]
                            expected@.to_set().contains(h) ==> self@.facts.contains_key(h)
                                && self@.facts[h].advances(
                                ExclusiveCell::Role { subject: *subject },
                            ),
                        forall|j: int|
                            0 <= j < i ==> advances_cell(
                                self@,
                                ExclusiveCell::Role { subject: *subject },
                                #[trigger] expected@[j],
                            ),
                {
                    if !self.head_advances(&ExclusiveCell::Role { subject: *subject }, &expected[i]) {
                        assert(expected@.to_set().contains(expected@[i as int]));
                        return false;
                    }
                }
                assert forall|h: FactId| #[trigger] expected@.to_set().contains(
                    h,
                ) implies self@.facts.contains_key(h) && self@.facts[h].advances(
                    ExclusiveCell::Role { subject: *subject },
                ) by {
                    let j = choose|j: int| 0 <= j < expected@.len() && expected@[j] == h;
                    assert(advances_cell(
                        self@,
                        ExclusiveCell::Role { subject: *subject },
                        expected@[j],
                    ));
                }
                true
            },
            _ => false,
        }
    }

    fn lineage_is_carried(&self, fact: &SignedFact, subject: &DeviceId) -> (r: bool)
        ensures
            r == carries_lineage(self@, fact@, *subject),
    {
        let actual = match fact.find_use(subject) {
            None => {
                return false;
            },
            Some(i) => sort_unique(&fact.content.authority_uses[i].predecessors),
        };
        let expected = self.raw_authority_use_heads(subject);
        proof {
            expected@.unique_seq_to_set();
        }
        if !same_keys(&actual, &expected) {
            return false;
        }
        expected.len() <= 1 || is_payload_local_resolution(
            &fact.content.body,
            &fact.content.author,
            subject,
        ) || resolution_selects_authority_heads(&fact.content.body, subject)
            || self.same_cell_role_resolution(&fact.content.body, subject, &expected)
    }

    /// Require an authority-bearing candidate to carry each signed
    /// AuthorityUse predecessor set in its own causal past. Receiver arrival
    /// order is intentionally irrelevant; concurrent omitted forks remain
    /// explicit conflicts in projection.
    pub fn validate_authority_lineage(&self, fact: &SignedFact, error: SemanticError) -> (r: Result<
        (),
        SemanticError,
    >)
        ensures
            r == (if carries_lineages(self@, fact@) {
                Ok(())
            } else {
                Err::<(), SemanticError>(error)
            }),
    {
        let subjects = fact.content.body.authority_use_subjects(&fact.content.author);
        let n: usize = subjects.len();
        for i in 0..n
            invariant
                n == subjects@.len(),
                forall|d: DeviceId| #[trigger]
                    subjects@.contains(d) <==> fact@.content.body.subjects(
                        fact@.content.author,
                    ).contains(d),
                forall|j: int| 0 <= j < i ==> carries_lineage(self@, fact@, #[trigger] subjects@[j]),
        {
            if !self.lineage_is_carried(fact, &subjects[i]) {
                assert(subjects@.contains(subjects@[i as int]));
                return Err(error);
            }
        }
        assert forall|s: DeviceId| #[trigger]
            fact@.content.body.subjects(fact@.content.author).contains(
                s,
            ) implies carries_lineage(self@, fact@, s) by {
            assert(subjects@.contains(s));
            let j = choose|j: int| 0 <= j < subjects@.len() && subjects@[j] == s;
            assert(carries_lineage(self@, fact@, subjects@[j]));
        }
        Ok(())
    }

    fn validate_cited_heads(&self, fact: &SignedFact, cited: &Vec<FactId>) -> (r: Result<
        (),
        SemanticError,
    >)
        ensures
            r == heads_check(self@, fact@, cited@, cited@.len() as int),
    {
        let n: usize = cited.len();
        for i in 0..n
            invariant
                n == cited@.len(),
                heads_check(self@, fact@, cited@, i as int) == Ok::<(), SemanticError>(()),
        {
            let check: Result<(), SemanticError> = if !self.facts.contains_key(&cited[i]) {
                Err(SemanticError::UnknownResolutionHead(cited[i]))
            } else if !holds(&fact.content.parents, &cited[i]) {
                Err(SemanticError::IncompleteResolution)
            } else {
                Ok(())
            };
            assert(check == head_check(self@, fact@, cited@[i as int]));
            if check.is_err() {
                proof {
                    lemma_heads_check_err(self@, fact@, cited@, i + 1, n as int);
                }
                return check;
            }
        }
        Ok(())
    }

    fn all_advance(&self, cell: &ExclusiveCell, cited: &Vec<FactId>) -> (r: bool)
        ensures
            r == forall|i: int|
                0 <= i < cited@.len() ==> advances_cell(self@, *cell, #[trigger] cited@[i]),
    {
        let n: usize = cited.len();
        for i in 0..n
            invariant
                n == cited@.len(),
                forall|j: int| 0 <= j < i ==> advances_cell(self@, *cell, #[trigger] cited@[j]),
        {
            if !self.head_advances(cell, &cited[i]) {
                assert(!advances_cell(self@, *cell, cited@[i as int]));
                return false;
            }
        }
        true
    }

    fn all_of_lineage(&self, fact: &SignedFact, subject: &DeviceId, cited: &Vec<FactId>) -> (r:
        bool)
        ensures
            r == forall|i: int|
                0 <= i < cited@.len() ==> is_lineage_head(
                    self@,
                    fact@,
                    *subject,
                    #[trigger] cited@[i],
                ),
    {
        let n: usize = cited.len();
        for i in 0..n
            invariant
                n == cited@.len(),
                forall|j: int|
                    0 <= j < i ==> is_lineage_head(self@, fact@, *subject, #[trigger] cited@[j]),
        {
            let fits = match self.facts.get(&cited[i]) {
                Some(f) => holds(&fact.content.parents, &cited[i]) && f.find_use(subject).is_some(),
                None => false,
            };
            if !fits {
                assert(!is_lineage_head(self@, fact@, *subject, cited@[i as int]));
                return false;
            }
        }
        true
    }

    /// Holds a resolution to the heads that it cites.
    pub fn validate_resolution(&self, fact: &SignedFact) -> (r: Result<(), SemanticError>)
        ensures
            r == resolution_check(self@, fact@),
    {
        match &fact.content.body {
            FactBody::Resolution { cell, cited_heads, selected_head } => {
                if !holds(cited_heads, selected_head) {
                    return Err(SemanticError::ResolutionSelectionNotCited);
                }
                if !cites_canonically(cited_heads) {
                    return Err(SemanticError::IncompleteResolution);
                }
                if let Err(e) = self.validate_cited_heads(fact, cited_heads) {
                    return Err(e);
                }
                if !self.all_advance(cell, cited_heads) {
                    return Err(SemanticError::IncompleteResolution);
                }
                if !same_keys(&self.raw_cell_heads(cell), cited_heads) {
                    return Err(SemanticError::ResolutionNotCurrent);
                }
                Ok(())
            },
            FactBody::AuthorityLineageResolution { subject, cited_heads, selected_head } => {
                if !holds(cited_heads, selected_head) {
                    return Err(SemanticError::ResolutionSelectionNotCited);
                }
                if !cites_canonically(cited_heads) {
                    return Err(SemanticError::IncompleteResolution);
                }
                if !self.all_of_lineage(fact, subject, cited_heads) {
                    return Err(SemanticError::InvalidAuthorityUse);
                }
                if !same_keys(&self.raw_authority_use_heads(subject), cited_heads) {
                    return Err(SemanticError::ResolutionNotCurrent);
                }
                Ok(())
            },
            _ => Ok(()),
        }
    }

    /// Holds a candidate to its causal past, which this graph is.
    pub fn validate_candidate(&self, fact: &SignedFact) -> (r: Result<(), SemanticError>)
        ensures
            r == candidate_check(self@, fact@),
    {
        proof {
            reveal(candidate_check);
        }
        if let Err(e) = self.validate_resolution(fact) {
            return Err(e);
        }
        if let Some(error) = authorization_error(&fact.content.body) {
            if let Err(e) = self.validate_authority_lineage(fact, error) {
                return Err(e);
            }
            if !self.is_authorized_for(&fact.content.body, &fact.content.author) {
                return Err(error);
            }
        }
        match &fact.content.body {
            FactBody::EvictionProof { target, evidence } => {
                if let Err(e) = self.validate_authority_lineage(
                    fact,
                    SemanticError::UnauthorizedEviction,
                ) {
                    return Err(e);
                }
                self.validate_eviction_proof(target, evidence, &fact.content.author)
            },
            FactBody::SelfStandDown { device_id, evidence } => {
                if let Err(e) = self.validate_authority_lineage(
                    fact,
                    SemanticError::InvalidStandDownProof,
                ) {
                    return Err(e);
                }
                self.validate_self_stand_down(device_id, evidence, &fact.content.author)
            },
            _ => Ok(()),
        }
    }
}

} // verus!

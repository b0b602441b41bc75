//! Retrying quarantined facts that became ready.

use vstd::prelude::*;

use crate::admission;
use crate::capture;
use crate::content::FactBody;
use crate::costs;
use crate::costs::CostView;
use crate::coverage;
use crate::device::DeviceId;
use crate::error::{SemanticCapacityDimension, SemanticError};
use crate::fact::{dependencies, FactView, SignedFact};
use crate::graph;
use crate::graph::{FactGraph, GraphView};
use crate::ids::FactId;
use crate::order;
use crate::ordset;
use crate::ordset::{Duplicate, OrdSet};
use crate::quarantine;
use crate::rebuild;
use crate::rollback;
use crate::rollback::{GraphRollback, RollbackView, Scope};

verus! {

/// Whether the refusal of a waiter with all its dependencies is one of its
/// authority, and so final.
pub open spec fn is_unauthorized(g: GraphView, f: FactView, e: SemanticError) -> bool {
    f.inputs().subset_of(g.facts.dom()) && (e is UnauthorizedRoleGrant
        || e is UnauthorizedMembershipAdmit || e is UnauthorizedAttestation
        || e is UnauthorizedEviction) && !(f.content.body is SelfStandDown)
}

/// Whether the refusal of a waiter is final.
pub open spec fn is_terminal(g: GraphView, f: FactView, e: SemanticError) -> bool {
    e is UnsupportedVersion || e is EmptyField || e is DomainMismatch || e is UnsortedParents
        || e is DuplicateParent || e is AuthorMismatch || e is NonCanonicalSet
        || e is IncompleteEvictionProof || e is FactIdMismatch || e is InvalidSignature
        || e is InvalidStandDownProof || e is InvalidAuthorityUse || is_unauthorized(g, f, e)
}

/// How far a retry came: the graph and the record of it, the waiters touched
/// and which of them changed, and the refusal that ended it.
#[verifier::ext_equal]
pub struct RetryView {
    pub g: GraphView,
    pub rb: RollbackView,
    pub budget: nat,
    pub ids: Seq<FactId>,
    pub done: Set<FactId>,
    pub refusal: Option<SemanticError>,
}

/// What becomes of one ready waiter: the graph, and whether it changed or
/// why that failed.
#[verifier::opaque]
pub open spec fn tried(g: GraphView, id: FactId, staged: Set<FactId>) -> (
    GraphView,
    Result<bool, SemanticError>,
) {
    match quarantine::removed(g, id) {
        (h, Err(e)) => (h, Err(e)),
        (h, Ok(None)) => (h, Ok(false)),
        (h, Ok(Some(f))) => match costs::cost_of(h, f) {
            Err(e) => (h, Err(e)),
            Ok(cost) => match admission::offered(h, f, true, None, None, staged) {
                (k, Ok(_)) => (k, Ok(true)),
                (k, Err(e)) => if is_terminal(k, f, e) {
                    (quarantine::released(k, f.content.author, cost.encoded_bytes), Ok(true))
                } else {
                    (k, Err(e))
                },
            },
        },
    }
}

/// The retry after one more ready waiter.
pub open spec fn retried(st: RetryView, id: FactId, staged: Set<FactId>) -> RetryView {
    let (g, result) = tried(st.g, id, staged);
    RetryView {
        g,
        rb: rollback::captured(st.rb, st.g, coverage::scope_retry(st.g, id), None),
        budget: st.budget + 1,
        done: st.done.insert(id),
        ids: if result == Ok::<bool, SemanticError>(true) {
            st.ids.push(id)
        } else {
            st.ids
        },
        refusal: match result {
            Err(e) => Some(e),
            Ok(_) => None,
        },
    }
}

/// The retry after the first `n` of a list of ready waiters.
pub open spec fn retried_list(st: RetryView, list: Seq<FactId>, n: int, staged: Set<FactId>) -> RetryView
    decreases n,
{
    if n <= 0 {
        st
    } else {
        let before = retried_list(st, list, n - 1, staged);
        if before.refusal is Some {
            before
        } else {
            retried(before, list[n - 1], staged)
        }
    }
}

/// The ready waiters that were not touched yet.
pub open spec fn open_waiters(st: RetryView) -> Set<FactId> {
    st.g.quarantine.ready.difference(st.done)
}

/// The next ready waiters, as many as the limit leaves.
pub open spec fn frontier(st: RetryView, limit: nat) -> Seq<FactId> {
    let list = order::ascending(open_waiters(st));
    let left = if st.budget < limit {
        limit - st.budget
    } else {
        0
    };
    if list.len() <= left {
        list
    } else {
        list.take(left)
    }
}

/// The retry of the whole ready frontier, to a fixed point: every waiter
/// touched across all frontiers counts against one limit.
pub open spec fn retried_all(st: RetryView, limit: nat, staged: Set<FactId>) -> RetryView
    decreases limit - st.budget,
{
    let list = frontier(st, limit);
    if list.len() == 0 {
        if open_waiters(st) == Set::<FactId>::empty() {
            st
        } else {
            RetryView {
                refusal: Some(
                    SemanticError::CapacityExceeded {
                        dimension: SemanticCapacityDimension::ReadyBatch,
                        limit: limit as u64,
                        observed: if st.budget < u64::MAX {
                            (st.budget + 1) as u64
                        } else {
                            u64::MAX
                        },
                    },
                ),
                ..st
            }
        }
    } else {
        let next = retried_list(st, list, list.len() as int, staged);
        if next.refusal is Some || next.budget <= st.budget || next.budget > limit {
            next
        } else {
            retried_all(next, limit, staged)
        }
    }
}

/// Every waiter of a list counts once.
pub proof fn lemma_budget(st: RetryView, list: Seq<FactId>, n: int, staged: Set<FactId>)
    requires
        0 <= n <= list.len(),
        st.refusal is None,
    ensures
        retried_list(st, list, n, staged).refusal is None ==> retried_list(
            st,
            list,
            n,
            staged,
        ).budget == st.budget + n,
    decreases n,
{
    if n > 0 {
        lemma_budget(st, list, n - 1, staged);
    }
}

proof fn lemma_stopped(st: RetryView, list: Seq<FactId>, i: int, n: int, staged: Set<FactId>)
    requires
        0 <= i <= n,
        retried_list(st, list, i, staged).refusal is Some,
    ensures
        retried_list(st, list, n, staged) == retried_list(st, list, i, staged),
    decreases n - i,
{
    if i < n {
        lemma_stopped(st, list, i, n - 1, staged);
    }
}

/// Whether a graph can take all that it has in quarantine, and `n` facts
/// more, without exhausting its revisions.
pub open spec fn is_roomy(g: GraphView, n: int) -> bool {
    admission::has_room(g, g.quarantine.facts.dom().len() + n)
}

/// Whether the facts of a graph can be counted, the quarantined ones among
/// them.
pub open spec fn is_countable(g: GraphView, n: int) -> bool {
    g.facts.dom().finite() && g.facts.dom().len() + g.quarantine.facts.dom().len() + n
        <= usize::MAX
}

/// How many facts a graph holds, the quarantined ones among them.
pub open spec fn holding(g: GraphView) -> nat {
    g.facts.dom().len() + g.quarantine.facts.dom().len()
}

/// What an admission leaves of the quarantine, of the revisions and of the
/// currency of the indexes.
pub proof fn lemma_offered_room(
    g: GraphView,
    f: FactView,
    reserved: bool,
    supplied: Option<crate::graph::ProjectionView>,
    cost: Option<CostView>,
    staged: Set<FactId>,
)
    requires
        quarantine::owned(g),
    ensures
        ({
            let h = admission::offered(g, f, reserved, supplied, cost, staged).0;
            &&& forall|n: int| #[trigger] is_roomy(g, n + 1) ==> is_roomy(h, n)
            &&& g.indexes_current() && is_countable(g, 1) ==> h.indexes_current() && is_countable(
                h,
                0,
            ) && holding(h) <= holding(g) + 1
        }),
{
    reveal(admission::offered);
    reveal(admission::entered);
    rebuild::lemma_rebuilt_frame(g);
    let h = admission::offered(g, f, reserved, supplied, cost, staged).0;
    let q = g.quarantine.facts;
    let more = q.insert(f.id, f);
    assert(more.dom() =~= q.dom().insert(f.id));
    assert(g.facts.insert(f.id, f).dom() =~= g.facts.dom().insert(f.id));
    assert(h.quarantine.facts == q || h.quarantine.facts == more);
    assert(h.quarantine.facts == more && h.quarantine.facts != q ==> h.fence.facts_revision
        == g.fence.facts_revision && h.fence.generation == g.fence.generation && h.facts
        == g.facts);
    assert(h.fence.facts_revision <= g.fence.facts_revision + 1 || g.fence.facts_revision
        == u64::MAX);
}

/// What a retried waiter leaves: an owned quarantine, room, and current
/// indexes.
pub proof fn lemma_tried(g: GraphView, id: FactId, staged: Set<FactId>)
    requires
        quarantine::owned(g),
    ensures
        quarantine::owned(tried(g, id, staged).0),
        tried(g, id, staged).0.setting == g.setting,
        forall|n: int| n >= 0 && #[trigger] is_roomy(g, n) ==> is_roomy(tried(g, id, staged).0, n),
        g.indexes_current() && is_countable(g, 0) ==> tried(g, id, staged).0.indexes_current()
            && is_countable(tried(g, id, staged).0, 0) && holding(tried(g, id, staged).0)
            <= holding(g),
{
    reveal(tried);
    let (h, found) = quarantine::removed(g, id);
    if g.quarantine.facts.contains_key(id) {
        let f = g.quarantine.facts[id];
        quarantine::lemma_cost(g, f);
        if let Ok(cost) = costs::cost_of(g, f) {
            quarantine::lemma_dequeue(g, id, cost);
            assert(g.quarantine.facts.remove(id).dom() =~= g.quarantine.facts.dom().remove(id));
            assert(h.quarantine.facts.insert(f.id, f) =~= g.quarantine.facts);
            assert forall|n: int| n >= 0 && #[trigger] is_roomy(g, n) implies is_roomy(
                h,
                n + 1,
            ) by {}
            quarantine::lemma_cost(h, f);
            if let Ok(again) = costs::cost_of(h, f) {
                admission::lemma_offered(h, f, true, None, None, staged);
                lemma_offered_room(h, f, true, None, None, staged);
                let (k, result) = admission::offered(h, f, true, None, None, staged);
                if result is Err {
                    admission::refusal_keeps_custody(h, f, true, None, None, staged);
                    rebuild::lemma_rebuilt_frame(h);
                    let released = quarantine::released(
                        k,
                        f.content.author,
                        again.encoded_bytes,
                    );
                    assert(k.ledger.retained == g.ledger.retained);
                    assert(quarantine::owned(released));
                }
            }
        }
    }
}

/// A retried waiter changes what is recorded for it.
pub proof fn lemma_tried_within(g: GraphView, id: FactId, staged: Set<FactId>)
    requires
        quarantine::owned(g),
        g.indexes_current(),
    ensures
        coverage::within(coverage::scope_retry(g, id), g, tried(g, id, staged).0),
{
    reveal(tried);
    let s = coverage::scope_retry(g, id);
    let (h, found) = quarantine::removed(g, id);
    coverage::lemma_removed_within(g, id);
    if g.quarantine.facts.contains_key(id) {
        let f = g.quarantine.facts[id];
        if found is Ok {
            coverage::lemma_offered_within(h, f, true, None, None, staged);
            let narrow = rollback::scope_admission(h, f);
            lemma_narrower(g, h, f, id);
            let k = admission::offered(h, f, true, None, None, staged).0;
            lemma_within_twice(s, narrow, g, h, k);
            if let Ok(cost) = costs::cost_of(h, f) {
                let r = quarantine::released(k, f.content.author, cost.encoded_bytes);
                assert(s.authors.contains(f.content.author));
                assert(coverage::within(s, k, r)) by {
                    assert(k.order.is_prefix_of(r.order));
                }
                lemma_within_twice(s, s, g, k, r);
            }
        }
    }
}

/// What waits for a fact after it left the quarantine waited for it before.
pub proof fn lemma_narrower(g: GraphView, h: GraphView, f: FactView, id: FactId)
    requires
        quarantine::owned(g),
        g.quarantine.facts.contains_key(id),
        f == g.quarantine.facts[id],
        quarantine::removed(g, id) == (h, Ok::<Option<FactView>, SemanticError>(Some(f))),
    ensures
        rollback::scope_admission(h, f).ids.subset_of(coverage::scope_retry(g, id).ids),
        rollback::scope_admission(h, f).dependencies.subset_of(
            coverage::scope_retry(g, id).dependencies,
        ),
        rollback::scope_admission(h, f).authors.subset_of(coverage::scope_retry(g, id).authors),
{
    let deps = f.inputs().insert(id);
    assert(f.id == id);
    let a = rollback::scope_dependencies(h, deps);
    let b = rollback::scope_dependencies(g, deps);
    assert forall|w: FactId| #[trigger] a.ids.contains(w) implies b.ids.contains(w) by {
        let d = choose|d: FactId| #[trigger]
            deps.contains(d) && crate::multimap::at(h.quarantine.waiting, d).contains(w);
        assert(crate::multimap::at(g.quarantine.waiting, d).contains(w));
    }
    assert forall|x: DeviceId| #[trigger] a.authors.contains(x) implies b.authors.contains(x) by {
        let w = choose|w: FactId|
            #![trigger rollback::waiters_of(h, deps).contains(w)]
            rollback::waiters_of(h, deps).contains(w) && h.quarantine.facts.contains_key(w)
                && h.quarantine.facts[w].content.author == x;
        assert(a.ids.contains(w));
        assert(rollback::waiters_of(g, deps).contains(w));
    }
}

/// Two changes within a scope are one.
pub proof fn lemma_within_twice(
    s: crate::rollback::ScopeView,
    narrow: crate::rollback::ScopeView,
    g: GraphView,
    h: GraphView,
    k: GraphView,
)
    requires
        coverage::within(s, g, h),
        coverage::within(narrow, h, k),
        narrow.ids.subset_of(s.ids),
        narrow.dependencies.subset_of(s.dependencies),
        narrow.authors.subset_of(s.authors),
    ensures
        coverage::within(s, g, k),
{
    assert forall|x: FactId| !#[trigger] s.ids.contains(x) implies !narrow.ids.contains(x) by {}
    assert forall|x: FactId| !#[trigger] s.dependencies.contains(
        x,
    ) implies !narrow.dependencies.contains(x) by {}
    assert forall|x: DeviceId| !#[trigger] s.authors.contains(x) implies !narrow.authors.contains(
        x,
    ) by {}
    assert forall|i: int| 0 <= i < g.order.len() implies g.order[i] == k.order[i] by {
        assert(g.order[i] == h.order[i]);
    }
}

/// What holds of a retry whatever became of it.
pub proof fn lemma_retried(st: RetryView, id: FactId, staged: Set<FactId>, base: GraphView)
    requires
        quarantine::owned(st.g),
    ensures
        quarantine::owned(retried(st, id, staged).g),
        retried(st, id, staged).g.setting == st.g.setting,
        forall|n: int|
            n >= 0 && #[trigger] is_roomy(st.g, n) ==> is_roomy(retried(st, id, staged).g, n),
        st.g.indexes_current() && is_countable(st.g, 0) ==> retried(
            st,
            id,
            staged,
        ).g.indexes_current() && is_countable(retried(st, id, staged).g, 0) && holding(
            retried(st, id, staged).g,
        ) <= holding(st.g),
        st.g.indexes_current() ==> {
            &&& coverage::covered(st.rb, base, st.g) ==> coverage::covered(
                retried(st, id, staged).rb,
                base,
                retried(st, id, staged).g,
            )
            &&& coverage::custody_covered(st.rb, base, st.g) ==> coverage::custody_covered(
                retried(st, id, staged).rb,
                base,
                retried(st, id, staged).g,
            )
        },
        retried(st, id, staged).rb.full == st.rb.full,
        retried(st, id, staged).rb.cache == st.rb.cache,
        retried(st, id, staged).rb.fence == st.rb.fence,
{
    lemma_tried(st.g, id, staged);
    let s = coverage::scope_retry(st.g, id);
    coverage::lemma_captured(st.rb, base, st.g, s, None);
    if st.g.indexes_current() {
        lemma_tried_within(st.g, id, staged);
        let rb = rollback::captured(st.rb, st.g, s, None);
        let h = tried(st.g, id, staged).0;
        if coverage::covered(st.rb, base, st.g) {
            coverage::lemma_within(rb, base, st.g, h, s);
        }
        if coverage::custody_covered(st.rb, base, st.g) {
            coverage::lemma_custody_within(rb, base, st.g, h, s);
        }
    }
}

/// What holds of a retry of a list, whatever became of it.
pub proof fn lemma_retried_list(
    st: RetryView,
    list: Seq<FactId>,
    n: int,
    staged: Set<FactId>,
    base: GraphView,
)
    requires
        quarantine::owned(st.g),
    ensures
        quarantine::owned(retried_list(st, list, n, staged).g),
        retried_list(st, list, n, staged).g.setting == st.g.setting,
        forall|m: int|
            m >= 0 && #[trigger] is_roomy(st.g, m) ==> is_roomy(
                retried_list(st, list, n, staged).g,
                m,
            ),
        st.g.indexes_current() && is_countable(st.g, 0) ==> {
            &&& retried_list(st, list, n, staged).g.indexes_current()
            &&& is_countable(retried_list(st, list, n, staged).g, 0)
            &&& holding(retried_list(st, list, n, staged).g) <= holding(st.g)
            &&& coverage::covered(st.rb, base, st.g) ==> coverage::covered(
                retried_list(st, list, n, staged).rb,
                base,
                retried_list(st, list, n, staged).g,
            )
            &&& coverage::custody_covered(st.rb, base, st.g) ==> coverage::custody_covered(
                retried_list(st, list, n, staged).rb,
                base,
                retried_list(st, list, n, staged).g,
            )
        },
        retried_list(st, list, n, staged).rb.full == st.rb.full,
        retried_list(st, list, n, staged).rb.cache == st.rb.cache,
        retried_list(st, list, n, staged).rb.fence == st.rb.fence,
    decreases n,
{
    if n > 0 {
        lemma_retried_list(st, list, n - 1, staged, base);
        let before = retried_list(st, list, n - 1, staged);
        if before.refusal is None {
            lemma_retried(before, list[n - 1], staged, base);
        }
    }
}

/// What holds of a retry to the fixed point, whatever became of it.
pub proof fn lemma_retried_all(st: RetryView, limit: nat, staged: Set<FactId>, base: GraphView)
    requires
        quarantine::owned(st.g),
    ensures
        quarantine::owned(retried_all(st, limit, staged).g),
        retried_all(st, limit, staged).g.setting == st.g.setting,
        forall|m: int|
            m >= 0 && #[trigger] is_roomy(st.g, m) ==> is_roomy(
                retried_all(st, limit, staged).g,
                m,
            ),
        st.g.indexes_current() && is_countable(st.g, 0) ==> {
            &&& retried_all(st, limit, staged).g.indexes_current()
            &&& is_countable(retried_all(st, limit, staged).g, 0)
            &&& holding(retried_all(st, limit, staged).g) <= holding(st.g)
            &&& coverage::covered(st.rb, base, st.g) ==> coverage::covered(
                retried_all(st, limit, staged).rb,
                base,
                retried_all(st, limit, staged).g,
            )
            &&& coverage::custody_covered(st.rb, base, st.g) ==> coverage::custody_covered(
                retried_all(st, limit, staged).rb,
                base,
                retried_all(st, limit, staged).g,
            )
        },
        retried_all(st, limit, staged).rb.full == st.rb.full,
        retried_all(st, limit, staged).rb.cache == st.rb.cache,
        retried_all(st, limit, staged).rb.fence == st.rb.fence,
    decreases limit - st.budget,
{
    let list = frontier(st, limit);
    if list.len() > 0 {
        lemma_retried_list(st, list, list.len() as int, staged, base);
        let next = retried_list(st, list, list.len() as int, staged);
        if next.refusal is Some || next.budget <= st.budget || next.budget > limit {
        } else {
            lemma_retried_all(next, limit, staged, base);
        }
    }
}

/// Whether the refusal of a waiter with all its dependencies is one of its
/// authority.  Capacity and incomplete or unknown work remain transactional
/// errors.
pub(crate) fn is_terminal_authorization_waiter(
    graph: &FactGraph,
    fact: &SignedFact,
    error: &SemanticError,
) -> (r: bool)
    ensures
        r == is_unauthorized(graph@, fact@, *error),
{
    let refused = match error {
        SemanticError::UnauthorizedRoleGrant
        | SemanticError::UnauthorizedMembershipAdmit
        | SemanticError::UnauthorizedAttestation
        | SemanticError::UnauthorizedEviction => true,
        _ => false,
    };
    let bears = match &fact.content.body {
        FactBody::SelfStandDown { .. } => false,
        _ => true,
    };
    refused && bears && graph.holds_inputs(fact)
}

pub fn is_terminal_waiter_error(graph: &FactGraph, fact: &SignedFact, error: &SemanticError) -> (r:
    bool)
    ensures
        r == is_terminal(graph@, fact@, *error),
{
    match error {
        SemanticError::UnsupportedVersion(_)
        | SemanticError::EmptyField(_)
        | SemanticError::DomainMismatch
        | SemanticError::UnsortedParents
        | SemanticError::DuplicateParent
        | SemanticError::AuthorMismatch
        | SemanticError::NonCanonicalSet(_)
        | SemanticError::IncompleteEvictionProof
        | SemanticError::FactIdMismatch
        | SemanticError::InvalidSignature
        | SemanticError::InvalidStandDownProof
        | SemanticError::InvalidAuthorityUse => true,
        _ => is_terminal_authorization_waiter(graph, fact, error),
    }
}

impl GraphRollback {
    /// Notes what a retry of a quarantined fact can change.
    pub(crate) fn capture_retry(&mut self, graph: &FactGraph, id: &FactId)
        ensures
            final(self)@ == rollback::captured(
                old(self)@,
                graph@,
                coverage::scope_retry(graph@, *id),
                None,
            ),
    {
        let mut scope = Scope::new();
        scope.ids.insert(*id);
        if let Some(f) = graph.quarantine.facts.get(id) {
            scope.authors.insert(f.content.author);
            let ghost own = scope@;
            let mut deps = dependencies(f);
            let ghost inputs = deps@;
            deps.push(*id);
            scope.add_dependencies(graph, &deps);
            proof {
                crate::content::lemma_push_set(inputs, *id);
                assert(deps@.to_set() =~= f@.inputs().insert(*id));
                assert(own =~= crate::rollback::ScopeView {
                    ids: Set::empty().insert(*id),
                    dependencies: Set::empty(),
                    authors: Set::empty().insert(f@.content.author),
                });
            }
        }
        assert(scope@ =~= coverage::scope_retry(graph@, *id));
        self.capture(graph, &scope, None);
    }
}

impl FactGraph {
    /// Takes one ready waiter out of the quarantine and offers it again.  A
    /// final refusal drops the waiter and releases what its author retained.
    fn retry_waiter(&mut self, id: &FactId, staged_cold: &Vec<FactId>) -> (r: Result<
        bool,
        SemanticError,
    >)
        requires
            quarantine::owned(old(self)@),
            is_roomy(old(self)@, 0),
        ensures
            final(self)@ == tried(old(self)@, *id, staged_cold@.to_set()).0,
            r == tried(old(self)@, *id, staged_cold@.to_set()).1,
            old(self)@.indexes_current() ==> final(self)@.indexes_current(),
    {
        proof {
            reveal(tried);
            let g = self@;
            if g.quarantine.facts.contains_key(*id) {
                quarantine::lemma_cost(g, g.quarantine.facts[*id]);
                if let Ok(cost) = costs::cost_of(g, g.quarantine.facts[*id]) {
                    quarantine::lemma_dequeue(g, *id, cost);
                }
                assert(g.quarantine.facts.remove(*id).dom() =~= g.quarantine.facts.dom().remove(
                    *id,
                ));
                vstd::set::axiom_set_remove_len(g.quarantine.facts.dom(), *id);
            }
        }
        let ghost g = self@;
        let fact = match self.remove_quarantine(id) {
            Ok(Some(f)) => f,
            Ok(None) => {
                return Ok(false);
            },
            Err(e) => {
                return Err(e);
            },
        };
        let ghost h = self@;
        let cost = match self.fact_cost(&fact) {
            Ok(c) => c,
            Err(e) => {
                return Err(e);
            },
        };
        let copy = fact.duplicate();
        let author = fact.content.author;
        proof {
            assert(h.quarantine.facts.insert(fact@.id, fact@) =~= g.quarantine.facts);
            quarantine::lemma_cost(h, fact@);
        }
        match self.admit_inner_with_projection_staged(fact, true, None, None, staged_cold) {
            Ok(_) => Ok(true),
            Err(error) => {
                proof {
                    admission::refusal_keeps_custody(h, copy@, true, None, None, staged_cold@.to_set());
                    rebuild::lemma_rebuilt_frame(h);
                }
                if is_terminal_waiter_error(self, &copy, &error) {
                    self.release_author(&author, cost.encoded_bytes);
                    Ok(true)
                } else {
                    Err(error)
                }
            },
        }
    }

    /// The next ready waiters, as many as the limit leaves.
    fn ready_frontier(&self, done: &OrdSet<FactId>, limit: usize, budget: usize) -> (r: (
        Vec<FactId>,
        bool,
    ))
        ensures
            forall|st: RetryView|
                st.g == self@ && st.done == done@ && st.budget == budget ==> r.0@ == #[trigger]
                    frontier(st, limit as nat) && r.1 == (open_waiters(st) == Set::<
                    FactId,
                >::empty()),
    {
        let ready = self.quarantine.ready.to_vec();
        let n: usize = ready.len();
        let mut open: OrdSet<FactId> = OrdSet::new();
        assert(ready@.take(0).to_set() =~= Set::<FactId>::empty());
        assert(open@ =~= ready@.take(0).to_set().difference(done@));
        for i in 0..n
            invariant
                n == ready@.len(),
                open@ == ready@.take(i as int).to_set().difference(done@),
        {
            if !done.contains(&ready[i]) {
                open.insert(ready[i]);
            }
            proof {
                ordset::lemma_take_set(ready@, i as int);
                assert(open@ =~= ready@.take(i + 1).to_set().difference(done@));
            }
        }
        assert(ready@.take(n as int) =~= ready@);
        let none = open.is_empty();
        let mut list = open.to_vec();
        let left = limit.saturating_sub(budget);
        if list.len() > left {
            list.truncate(left);
        }
        (list, none)
    }

    /// Retry the indexed ready frontier to a fixed point, counting every
    /// waiter touched across all frontiers against the one admission's
    /// cumulative retry envelope, so a newly woken transitive waiter cannot
    /// reset the ready-batch budget.
    pub(crate) fn retry_quarantined_batch_bounded(
        &mut self,
        batch_limit: usize,
        staged_cold: &Vec<FactId>,
        rollback: &mut GraphRollback,
        retry_budget: &mut usize,
    ) -> (r: Result<Vec<FactId>, SemanticError>)
        requires
            quarantine::owned(old(self)@),
            is_roomy(old(self)@, 0),
            old(self)@.indexes_current(),
        ensures
            quarantine::owned(final(self)@),
            final(self)@.indexes_current(),
            forall|base: GraphView| #[trigger]
                coverage::custody_covered(old(rollback)@, base, old(self)@)
                    ==> coverage::custody_covered(final(rollback)@, base, final(self)@),
            ({
                let st = retried_all(
                    RetryView {
                        g: old(self)@,
                        rb: old(rollback)@,
                        budget: *old(retry_budget) as nat,
                        ids: Seq::empty(),
                        done: Set::empty(),
                        refusal: None,
                    },
                    batch_limit as nat,
                    staged_cold@.to_set(),
                );
                &&& final(self)@ == st.g
                &&& final(rollback)@ == st.rb
                &&& *final(retry_budget) == st.budget
                &&& match r {
                    Ok(ids) => ids@ == st.ids && st.refusal is None,
                    Err(e) => st.refusal == Some(e),
                }
            }),
    {
        let ghost staged = staged_cold@.to_set();
        let ghost limit = batch_limit as nat;
        let mut done: OrdSet<FactId> = OrdSet::new();
        let mut retry_ids: Vec<FactId> = Vec::new();
        let ghost start = RetryView {
            g: self@,
            rb: rollback@,
            budget: *retry_budget as nat,
            ids: Seq::empty(),
            done: Set::empty(),
            refusal: None,
        };
        let ghost mut st = start;
        assert(retry_ids@ =~= Seq::<FactId>::empty());
        assert(done@ =~= Set::<FactId>::empty());
        loop
            invariant
                staged == staged_cold@.to_set(),
                limit == batch_limit,
                retried_all(st, limit, staged) == retried_all(start, limit, staged),
                st.g == self@,
                st.rb == rollback@,
                st.budget == *retry_budget,
                st.ids == retry_ids@,
                st.done == done@,
                st.refusal is None,
                quarantine::owned(self@),
                is_roomy(self@, 0),
                self@.indexes_current(),
                forall|base: GraphView| #[trigger]
                    coverage::custody_covered(old(rollback)@, base, old(self)@)
                        ==> coverage::custody_covered(rollback@, base, self@),
                start == (RetryView {
                    g: old(self)@,
                    rb: old(rollback)@,
                    budget: *old(retry_budget) as nat,
                    ids: Seq::empty(),
                    done: Set::empty(),
                    refusal: None,
                }),
            decreases batch_limit - *retry_budget,
        {
            let (list, none) = self.ready_frontier(&done, batch_limit, *retry_budget);
            assert(list@ == frontier(st, limit));
            let n: usize = list.len();
            if n == 0 {
                if none {
                    return Ok(retry_ids);
                }
                return Err(
                    SemanticError::CapacityExceeded {
                        dimension: SemanticCapacityDimension::ReadyBatch,
                        limit: batch_limit as u64,
                        observed: (*retry_budget as u64).saturating_add(1),
                    },
                );
            }
            let ghost top = st;
            assert(*retry_budget + n <= batch_limit);
            for i in 0..n
                invariant
                    n == list@.len(),
                    staged == staged_cold@.to_set(),
                    limit == batch_limit,
                    list@ == frontier(top, limit),
                    n > 0,
                    top.budget + n <= batch_limit,
                    top.refusal is None,
                    st == retried_list(top, list@, i as int, staged),
                    st.budget == top.budget + i,
                    st.g == self@,
                    st.rb == rollback@,
                    st.budget == *retry_budget,
                    st.ids == retry_ids@,
                    st.done == done@,
                    st.refusal is None,
                    quarantine::owned(self@),
                    is_roomy(self@, 0),
                    self@.indexes_current(),
                    forall|base: GraphView| #[trigger]
                        coverage::custody_covered(old(rollback)@, base, old(self)@)
                            ==> coverage::custody_covered(rollback@, base, self@),
                    retried_all(top, limit, staged) == retried_all(start, limit, staged),
                    start == (RetryView {
                        g: old(self)@,
                        rb: old(rollback)@,
                        budget: *old(retry_budget) as nat,
                        ids: Seq::empty(),
                        done: Set::empty(),
                        refusal: None,
                    }),
            {
                let id = list[i];
                let ghost next = retried(st, id, staged);
                done.insert(id);
                *retry_budget = *retry_budget + 1;
                // All rollback entries for this waiter are captured before
                // the waiter is removed.
                rollback.capture_retry(self, &id);
                proof {
                    lemma_retried(st, id, staged, st.g);
                    assert(retried_list(top, list@, i + 1, staged) == next);
                    assert forall|base: GraphView| #[trigger]
                        coverage::custody_covered(
                            old(rollback)@,
                            base,
                            old(self)@,
                        ) implies coverage::custody_covered(next.rb, base, next.g) by {
                        lemma_retried(st, id, staged, base);
                    }
                }
                match self.retry_waiter(&id, staged_cold) {
                    Ok(true) => {
                        retry_ids.push(id);
                    },
                    Ok(false) => {},
                    Err(e) => {
                        proof {
                            lemma_stopped(top, list@, i + 1, n as int, staged);
                        }
                        return Err(e);
                    },
                }
                proof {
                    st = next;
                }
            }
            proof {
                assert(st == retried_list(top, list@, list@.len() as int, staged));
                assert(retried_all(st, limit, staged) == retried_all(top, limit, staged));
            }
        }
    }
}

} // verus!

//! Admitting one fact.

use vstd::prelude::*;

use crate::accounting;
use crate::capture;
use crate::costs;
use crate::costs::{keep, CostView, FactCost};
use crate::error::{SemanticCapacityDimension, SemanticError};
use crate::evaluator;
use crate::fact::{Facts, FactView, SignedFact};
use crate::graph;
use crate::graph::{
    Cached, FactGraph, Fence, GraphView, IndexView, LedgerView, Projection, ProjectionView, RowView,
};
use crate::ids::FactId;
use crate::impact;
use crate::index;
use crate::multimap;
use crate::multimap::overwrite;
use crate::order;
use crate::ordset;
use crate::ordset::{copy_keys, holds};
use crate::projection;
use crate::provenance;
use crate::provenance::IndexResidencyDelta;
use crate::quarantine;
use crate::rebuild;
use crate::rollback;
use crate::rollback::{GraphRollback, RollbackView};
use crate::validation;

verus! {

/// What became of a fact.
pub enum AdmissionView {
    Inserted,
    AlreadyPresent,
    Quarantined { missing: Seq<FactId> },
}

/// What became of a fact.
#[derive(Debug, PartialEq, Eq)]
pub enum Admission {
    Inserted,
    AlreadyPresent,
    Quarantined { missing: Vec<FactId> },
}

impl View for Admission {
    type V = AdmissionView;

    open spec fn view(&self) -> AdmissionView {
        match self {
            Admission::Inserted => AdmissionView::Inserted,
            Admission::AlreadyPresent => AdmissionView::AlreadyPresent,
            Admission::Quarantined { missing } => AdmissionView::Quarantined { missing: missing@ },
        }
    }
}

impl ordset::Duplicate for Admission {
    fn duplicate(&self) -> (r: Self) {
        match self {
            Admission::Inserted => Admission::Inserted,
            Admission::AlreadyPresent => Admission::AlreadyPresent,
            Admission::Quarantined { missing } => Admission::Quarantined {
                missing: copy_keys(missing),
            },
        }
    }
}

/// The view of a result that holds an admission.
pub open spec fn outcome(r: Result<Admission, SemanticError>) -> Result<
    AdmissionView,
    SemanticError,
> {
    match r {
        Ok(a) => Ok(a@),
        Err(e) => Err(e),
    }
}

/// The view of a cost that may be known.
pub open spec fn cost_view(cost: Option<FactCost>) -> Option<CostView> {
    match cost {
        Some(c) => Some(c@),
        None => None,
    }
}

/// Whether a fact of this identifier is held, and is the same.
pub open spec fn present(facts: Facts, f: FactView) -> Option<Result<(), SemanticError>> {
    if !facts.contains_key(f.id) {
        None
    } else if facts[f.id].same_as(f) {
        Some(Ok(()))
    } else {
        Some(Err(SemanticError::DuplicateFact(f.id)))
    }
}

/// What a candidate is held to before its causal past is: `None` where it is
/// held already, and else its cost.
#[verifier::opaque]
pub open spec fn screened(g: GraphView, f: FactView) -> Result<Option<CostView>, SemanticError> {
    if let Some(e) = f.checked.refusal {
        Err(e)
    } else if f.content.mesh_context != g.setting.context_id {
        Err(
            SemanticError::ContextMismatch {
                expected: g.setting.context_id,
                found: f.content.mesh_context,
            },
        )
    } else if let Err(e) = validation::domain_check(g) {
        Err(e)
    } else if let Some(held) = present(g.facts, f) {
        match held {
            Ok(()) => Ok(None),
            Err(e) => Err(e),
        }
    } else if let Some(held) = present(g.quarantine.facts, f) {
        match held {
            Ok(()) => Ok(None),
            Err(e) => Err(e),
        }
    } else if f.content.parents.contains(f.id) {
        Err(SemanticError::SelfParent)
    } else {
        match costs::cost_of(g, f) {
            Err(e) => Err(e),
            Ok(cost) => if cost.missing.len() > 0 {
                Ok(Some(cost))
            } else {
                match validation::noop_for(g, f) {
                    Err(e) => Err(e),
                    Ok(Some(operation)) => Err(SemanticError::NoOp(operation)),
                    Ok(None) => Ok(Some(cost)),
                }
            },
        }
    }
}

/// The graph after a fact with missing dependencies was offered.
pub open spec fn deferred(g: GraphView, f: FactView, cost: CostView, reserved: bool) -> (
    GraphView,
    Result<AdmissionView, SemanticError>,
) {
    if evaluator::effective_role(g, f.content.author) is None {
        (g, Err(SemanticError::QuarantineSignerNotEligible))
    } else {
        match costs::quarantine_bounds(g, f, cost, reserved) {
            Err(e) => (g, Err(e)),
            Ok(()) => (
                quarantine::enqueued(g, f, cost, reserved),
                Ok(AdmissionView::Quarantined { missing: order::ascending(cost.missing.to_set()) }),
            ),
        }
    }
}

/// What a candidate with all its dependencies is held to: its causal past,
/// and the limits.
#[verifier::opaque]
pub open spec fn cleared(g: GraphView, f: FactView, cost: CostView, reserved: bool) -> Result<
    (IndexResidencyDelta, Map<FactId, RowView>),
    SemanticError,
> {
    match rebuild::causal_view(g, f) {
        Err(e) => Err(e),
        Ok(past) => match validation::candidate_check(past, f) {
            Err(e) => Err(e),
            Ok(()) => match costs::exact_delta(g, f) {
                Err(e) => Err(e),
                Ok(delta) => match provenance::planned(g, f) {
                    Err(e) => Err(e),
                    Ok(rows) => match costs::admitted_bounds(g, f, cost, reserved) {
                        Err(e) => Err(e),
                        Ok(()) => Ok((delta, rows)),
                    },
                },
            },
        },
    }
}

/// The indexes after a fact and its provenance are entered.
pub open spec fn indexed(ix: IndexView, facts: Facts, id: FactId, rows: Map<FactId, RowView>) -> IndexView {
    let with_rows = IndexView { provenance: ix.provenance.union_prefer_right(rows), ..ix };
    index::with_heads(index::with_metadata(with_rows, facts, id), facts, id)
}

/// The graph after a cleared fact joined its facts and indexes.
pub open spec fn joined(
    g: GraphView,
    f: FactView,
    cost: CostView,
    rows: Map<FactId, RowView>,
) -> GraphView {
    let facts = g.facts.insert(f.id, f);
    GraphView {
        facts,
        order: g.order.push(f.id),
        index: indexed(g.index, facts, f.id, rows),
        ledger: LedgerView {
            fact_count: (g.ledger.fact_count + 1) as u64,
            bytes: (g.ledger.bytes + cost.encoded_bytes) as u64,
            edges: (g.ledger.edges + cost.edges) as u64,
            ..g.ledger
        },
        fence: Fence {
            indexed_fact_count: facts.dom().len() as usize,
            facts_revision: (g.fence.facts_revision + 1) as u64,
            indexed_revision: (g.fence.facts_revision + 1) as u64,
            generation: (g.fence.generation + 1) as u64,
            cold_history_since_retirement: if g.fence.cold_history_since_retirement < usize::MAX {
                (g.fence.cold_history_since_retirement + 1) as usize
            } else {
                usize::MAX
            },
            ..g.fence
        },
        ..g
    }
}

/// The projection after a fact joined the graph.
pub open spec fn reprojected(
    g: GraphView,
    f: FactView,
    before: ProjectionView,
    staged: Set<FactId>,
) -> ProjectionView {
    let touched = impact::impact(g.reading(), f, staged);
    projection::updated(before, g.reading(), touched.cells, touched.subjects)
}

/// The graph after a cleared fact joined it, or the refusal of what it would
/// keep resident.
#[verifier::opaque]
pub open spec fn entered(
    g: GraphView,
    f: FactView,
    cost: CostView,
    reserved: bool,
    before: ProjectionView,
    staged: Set<FactId>,
    delta: IndexResidencyDelta,
    rows: Map<FactId, RowView>,
) -> (GraphView, Result<AdmissionView, SemanticError>) {
    let limits = g.setting.limits;
    let with = joined(g, f, cost, rows);
    match costs::applied(limits, g.ledger.index_bytes, delta) {
        Err(e) => (with, Err(e)),
        Ok(index_bytes) => {
            let with = GraphView { ledger: LedgerView { index_bytes, ..with.ledger }, ..with };
            let after = reprojected(with, f, before, staged);
            match costs::envelope(
                limits,
                with.ledger.bytes as nat + index_bytes as nat + projection::commitment_size(after),
            ) {
                Err(e) => (with, Err(e)),
                Ok(()) => (
                    GraphView {
                        cache: Some((with.fence.generation, after)),
                        ledger: if reserved {
                            with.ledger
                        } else {
                            LedgerView {
                                retained: costs::kept(
                                    with.ledger.retained,
                                    f.content.author,
                                    cost.encoded_bytes,
                                ),
                                ..with.ledger
                            }
                        },
                        quarantine: quarantine::woken(with.quarantine, f.id),
                        ..with
                    },
                    Ok(AdmissionView::Inserted),
                ),
            }
        },
    }
}

/// The graph after a fact was offered at a known cost.
pub open spec fn priced(
    g: GraphView,
    f: FactView,
    cost: CostView,
    reserved: bool,
    supplied: Option<ProjectionView>,
    staged: Set<FactId>,
) -> (GraphView, Result<AdmissionView, SemanticError>) {
    if cost.missing.len() > 0 {
        deferred(g, f, cost, reserved)
    } else {
        match cleared(g, f, cost, reserved) {
            Err(e) => (g, Err(e)),
            Ok((delta, rows)) => match supplied {
                Some(before) => entered(g, f, cost, reserved, before, staged, delta, rows),
                None => entered(
                    GraphView { cache: None, ..g },
                    f,
                    cost,
                    reserved,
                    projection::base(g),
                    staged,
                    delta,
                    rows,
                ),
            },
        }
    }
}

/// The graph after a fact was offered.
#[verifier::opaque]
pub open spec fn offered(
    g: GraphView,
    f: FactView,
    reserved: bool,
    supplied: Option<ProjectionView>,
    cost: Option<CostView>,
    staged: Set<FactId>,
) -> (GraphView, Result<AdmissionView, SemanticError>) {
    let g = rebuild::ensured(g);
    match cost {
        Some(c) => priced(g, f, c, reserved, supplied, staged),
        None => match screened(g, f) {
            Err(e) => (g, Err(e)),
            Ok(None) => (g, Ok(AdmissionView::AlreadyPresent)),
            Ok(Some(c)) => priced(g, f, c, reserved, supplied, staged),
        },
    }
}

/// The record taken before a fact is offered.
pub open spec fn recorded(g: GraphView, f: FactView) -> RollbackView {
    rollback::captured(rollback::begun(g), g, rollback::scope_admission(g, f), Some(f))
}

/// The graph after a fact was offered, restored where it was refused.
pub open spec fn admitted(g: GraphView, f: FactView) -> (
    GraphView,
    Result<AdmissionView, SemanticError>,
) {
    let start = rebuild::ensured(g);
    let (after, result) = offered(start, f, false, None, None, Set::empty());
    match result {
        Ok(a) => (after, Ok(a)),
        Err(e) => (rollback::restored_graph(recorded(start, f), after), Err(e)),
    }
}

/// What two graphs have in common where only a refusal lies between them.
pub open spec fn same_custody(a: GraphView, b: GraphView) -> bool {
    a.quarantine == b.quarantine && a.ledger.retained == b.ledger.retained && a.setting
        == b.setting
}

/// A refused fact leaves the quarantine and the retained usage as they were.
pub proof fn refusal_keeps_custody(
    g: GraphView,
    f: FactView,
    reserved: bool,
    supplied: Option<ProjectionView>,
    cost: Option<CostView>,
    staged: Set<FactId>,
)
    ensures
        offered(g, f, reserved, supplied, cost, staged).1 is Err ==> same_custody(
            offered(g, f, reserved, supplied, cost, staged).0,
            rebuild::ensured(g),
        ),
{
    reveal(offered);
    reveal(entered);
}

/// A candidate that passed the screening has a cost that is its own.
pub proof fn lemma_screened(g: GraphView, f: FactView)
    ensures
        screened(g, f) matches Ok(Some(c)) ==> costs::cost_of(g, f) == Ok::<
            CostView,
            SemanticError,
        >(c) && c.encoded_bytes == rebuild::bytes_of(f) && c.edges == accounting::edges_of(f)
            && !g.facts.contains_key(f.id) && !g.quarantine.facts.contains_key(f.id)
            && c.missing.to_set() == costs::missing_inputs(g, f),
{
    reveal(screened);
    quarantine::lemma_cost(g, f);
}

/// Whether a graph can take one more fact without exhausting its revisions.
pub open spec fn has_room(g: GraphView, n: int) -> bool {
    g.fence.facts_revision + n <= u64::MAX && g.fence.generation + n <= u64::MAX
}

/// Whether what a fact costs is what it is charged.
pub open spec fn is_own(cost: CostView, f: FactView) -> bool {
    cost.encoded_bytes == rebuild::bytes_of(f) && cost.edges == accounting::edges_of(f)
        && cost.missing.to_set().subset_of(f.inputs())
}

/// Offering a fact keeps the quarantine owned, and uses up one revision at
/// most.
pub proof fn lemma_offered(
    g: GraphView,
    f: FactView,
    reserved: bool,
    supplied: Option<ProjectionView>,
    cost: Option<CostView>,
    staged: Set<FactId>,
)
    requires
        quarantine::owned(g),
        cost matches Some(c) ==> is_own(c, f),
        reserved ==> quarantine::funds(
            g.ledger.retained,
            g.quarantine.facts.insert(f.id, f),
        ),
    ensures
        quarantine::owned(offered(g, f, reserved, supplied, cost, staged).0),
        offered(g, f, reserved, supplied, cost, staged).0.setting == g.setting,
        forall|n: int| n >= 1 && has_room(g, n) ==> #[trigger] has_room(
            offered(g, f, reserved, supplied, cost, staged).0,
            n - 1,
        ),
        has_room(g, 1) ==> has_room(offered(g, f, reserved, supplied, cost, staged).0, 0),
{
    reveal(offered);
    quarantine::lemma_rebuilt_owned(g);
    rebuild::lemma_rebuilt_frame(g);
    let start = rebuild::ensured(g);
    lemma_screened(start, f);
    let c = match cost {
        Some(c) => Some(c),
        None => match screened(start, f) {
            Ok(Some(c)) => Some(c),
            _ => None,
        },
    };
    if let Some(c) = c {
        lemma_priced(start, f, c, reserved, supplied, staged);
    }
}

proof fn lemma_priced(
    g: GraphView,
    f: FactView,
    cost: CostView,
    reserved: bool,
    supplied: Option<ProjectionView>,
    staged: Set<FactId>,
)
    requires
        quarantine::owned(g),
        is_own(cost, f),
        reserved ==> quarantine::funds(
            g.ledger.retained,
            g.quarantine.facts.insert(f.id, f),
        ),
    ensures
        quarantine::owned(priced(g, f, cost, reserved, supplied, staged).0),
        priced(g, f, cost, reserved, supplied, staged).0.setting == g.setting,
        forall|n: int| n >= 1 && has_room(g, n) ==> #[trigger] has_room(
            priced(g, f, cost, reserved, supplied, staged).0,
            n - 1,
        ),
{
    reveal(entered);
    reveal(cleared);
    if cost.missing.len() > 0 {
        if costs::quarantine_bounds(g, f, cost, reserved) is Ok {
            quarantine::lemma_enqueue(g, f, cost, reserved);
        }
    } else if let Ok((delta, rows)) = cleared(g, f, cost, reserved) {
        let after = priced(g, f, cost, reserved, supplied, staged).0;
        let held = g.quarantine.facts;
        assert(after.quarantine.facts == held);
        assert(after.quarantine.by_author == g.quarantine.by_author);
        assert forall|id: FactId| #[trigger] held.contains_key(id) implies multimap::at(
            after.quarantine.missing,
            id,
        ).subset_of(held[id].inputs()) by {
            assert(multimap::at(g.quarantine.missing, id).subset_of(held[id].inputs()));
        }
        if !reserved {
            assert(quarantine::funds(
                costs::kept(g.ledger.retained, f.content.author, cost.encoded_bytes),
                held,
            )) by {
                let m = g.ledger.retained;
                let more = costs::kept(m, f.content.author, cost.encoded_bytes);
                assert(costs::retained_bounds(g, f.content.author, cost.encoded_bytes) is Ok);
                assert forall|a: crate::device::DeviceId| #[trigger]
                    graph::usage_of(more, a).facts >= quarantine::sum_by(
                        held,
                        quarantine::one_of(a),
                    ) && graph::usage_of(more, a).bytes >= quarantine::sum_by(
                        held,
                        quarantine::size_of(a),
                    ) by {
                    assert(graph::usage_of(m, a).facts >= quarantine::sum_by(
                        held,
                        quarantine::one_of(a),
                    ));
                }
            }
        }
    }
}

impl FactGraph {
    /// Whether a fact of this identifier is held already, and is the same.
    fn already_present(&self, fact: &SignedFact) -> (r: Option<Result<(), SemanticError>>)
        ensures
            r == (match present(self@.facts, fact@) {
                Some(held) => Some(held),
                None => present(self@.quarantine.facts, fact@),
            }),
    {
        if let Some(existing) = self.facts.get(&fact.id) {
            return if existing.same(fact) {
                Some(Ok(()))
            } else {
                Some(Err(SemanticError::DuplicateFact(fact.id)))
            };
        }
        if let Some(existing) = self.quarantine.facts.get(&fact.id) {
            return if existing.same(fact) {
                Some(Ok(()))
            } else {
                Some(Err(SemanticError::DuplicateFact(fact.id)))
            };
        }
        None
    }

    /// Holds a candidate to everything but its causal past.
    pub(crate) fn screen(&self, fact: &SignedFact) -> (r: Result<Option<FactCost>, SemanticError>)
        ensures
            match r {
                Ok(Some(c)) => screened(self@, fact@) == Ok::<Option<CostView>, SemanticError>(
                    Some(c@),
                ),
                Ok(None) => screened(self@, fact@) == Ok::<Option<CostView>, SemanticError>(None),
                Err(e) => screened(self@, fact@) == Err::<Option<CostView>, SemanticError>(e),
            },
    {
        proof {
            reveal(screened);
        }
        if let Err(e) = fact.verify() {
            return Err(e);
        }
        if !fact.content.mesh_context.same(&self.setting.context_id) {
            return Err(
                SemanticError::ContextMismatch {
                    expected: self.setting.context_id,
                    found: fact.content.mesh_context,
                },
            );
        }
        if let Err(e) = self.validate_domain() {
            return Err(e);
        }
        match self.already_present(fact) {
            Some(Ok(())) => {
                return Ok(None);
            },
            Some(Err(e)) => {
                return Err(e);
            },
            None => {},
        }
        if holds(&fact.content.parents, &fact.id) {
            return Err(SemanticError::SelfParent);
        }
        let cost = match self.fact_cost(fact) {
            Ok(c) => c,
            Err(e) => {
                return Err(e);
            },
        };
        if cost.missing.len() == 0 {
            match self.semantic_noop_for_candidate(fact) {
                Ok(Some(operation)) => {
                    return Err(SemanticError::NoOp(operation));
                },
                Ok(None) => {},
                Err(e) => {
                    return Err(e);
                },
            }
        }
        Ok(Some(cost))
    }

    /// Puts a fact with missing dependencies into the quarantine.
    pub(crate) fn admit_quarantined(
        &mut self,
        fact: SignedFact,
        cost: &FactCost,
        retained_reserved: bool,
    ) -> (r: Result<Admission, SemanticError>)
        ensures
            final(self)@ == deferred(old(self)@, fact@, cost@, retained_reserved).0,
            outcome(r) == deferred(old(self)@, fact@, cost@, retained_reserved).1,
    {
        if !self.is_authorized_signer(&fact.content.author) {
            return Err(SemanticError::QuarantineSignerNotEligible);
        }
        if let Err(e) = self.reserve_quarantine(&fact, cost, retained_reserved) {
            return Err(e);
        }
        self.enqueue(fact, cost, retained_reserved);
        Ok(Admission::Quarantined { missing: ordset::sort_unique(&cost.missing) })
    }

    /// Holds a candidate with all its dependencies to its causal past, and
    /// to the limits.
    fn clear(&self, fact: &SignedFact, cost: &FactCost, retained_reserved: bool) -> (r: Result<
        (IndexResidencyDelta, crate::ordmap::OrdMap<FactId, graph::Row>),
        SemanticError,
    >)
        ensures
            match r {
                Ok((delta, rows)) => cleared(self@, fact@, cost@, retained_reserved) == Ok::<
                    (IndexResidencyDelta, Map<FactId, RowView>),
                    SemanticError,
                >((delta, rows@)),
                Err(e) => cleared(self@, fact@, cost@, retained_reserved) == Err::<
                    (IndexResidencyDelta, Map<FactId, RowView>),
                    SemanticError,
                >(e),
            },
    {
        proof {
            reveal(cleared);
        }
        let checked = match self.causal_past(fact) {
            Ok(causal) => causal.graph().validate_candidate(fact),
            Err(e) => Err(e),
        };
        if let Err(e) = checked {
            return Err(e);
        }
        let delta = match self.exact_index_residency_delta(fact) {
            Ok(d) => d,
            Err(e) => {
                return Err(e);
            },
        };
        let rows = match self.planned_provenance(fact) {
            Ok(rows) => rows,
            Err(e) => {
                return Err(e);
            },
        };
        match self.reserve_admitted(fact, cost, retained_reserved) {
            Ok(()) => Ok((delta, rows)),
            Err(e) => Err(e),
        }
    }

    /// Enters a cleared fact.
    fn enter(
        &mut self,
        fact: SignedFact,
        cost: &FactCost,
        retained_reserved: bool,
        previous: Projection,
        staged_cold: &Vec<FactId>,
        delta: IndexResidencyDelta,
        rows: &crate::ordmap::OrdMap<FactId, graph::Row>,
    ) -> (r: Result<Admission, SemanticError>)
        requires
            has_room(old(self)@, 1),
            costs::admitted_bounds(old(self)@, fact@, cost@, retained_reserved) is Ok,
        ensures
            ({
                let e = entered(
                    old(self)@,
                    fact@,
                    cost@,
                    retained_reserved,
                    previous@,
                    staged_cold@.to_set(),
                    delta,
                    rows@,
                );
                final(self)@ == e.0 && outcome(r) == e.1
            }),
            final(self)@.indexes_current(),
    {
        proof {
            reveal(entered);
        }
        let ghost g = self@;
        let ghost f = fact@;
        let fact_id = fact.id;
        let author = fact.content.author;
        let limits = self.setting.limits;
        self.ledger.bytes = self.ledger.bytes + cost.encoded_bytes;
        self.ledger.edges = self.ledger.edges + cost.edges;
        self.facts.insert(fact_id, fact);
        self.ledger.fact_count = self.ledger.fact_count + 1;
        self.fence.cold_history_since_retirement =
        self.fence.cold_history_since_retirement.saturating_add(1);
        self.order.push(fact_id);
        self.fence.facts_revision = self.fence.facts_revision + 1;
        self.fence.generation = self.fence.generation + 1;
        overwrite(&mut self.index.provenance, rows);
        self.index.index_fact(&self.facts, fact_id);
        self.fence.indexed_fact_count = self.facts.len();
        self.fence.indexed_revision = self.fence.facts_revision;
        assert(self@ =~= joined(g, f, cost@, rows@));
        let index_bytes = match self.apply_index_residency_delta(self.ledger.index_bytes, delta) {
            Ok(n) => n,
            Err(e) => {
                return Err(e);
            },
        };
        self.ledger.index_bytes = index_bytes;
        let ghost with = self@;
        let touched = self.projection_impact_for_fact_with_staged(
            self.facts.value(&fact_id),
            staged_cold,
        );
        let projection = Projection::update_from_graph(
            self,
            previous,
            &touched.cells,
            &touched.subjects,
        );
        assert(projection@ == reprojected(with, f, previous@, staged_cold@.to_set()));
        let indexes = limits.checked_add_bytes(self.ledger.bytes, self.ledger.index_bytes);
        match limits.plus(indexes, Ok(projection.commitment_bytes())) {
            Ok(bytes) => {
                if let Err(e) = limits.check_capacity(
                    SemanticCapacityDimension::AdmittedBytes,
                    bytes,
                    limits.max_database_bytes,
                ) {
                    return Err(e);
                }
            },
            Err(e) => {
                return Err(e);
            },
        }
        self.cache = Some(Cached { generation: self.fence.generation, projection });
        if !retained_reserved {
            keep(&mut self.ledger.retained, &author, cost.encoded_bytes);
        }
        self.wake_dependency(fact_id);
        Ok(Admission::Inserted)
    }

    /// Offers a fact.  What a preflight established of its cost is not
    /// established again; the projection to update may be supplied.
    pub(crate) fn admit_inner_with_projection_staged(
        &mut self,
        fact: SignedFact,
        retained_reserved: bool,
        supplied_previous_projection: Option<Projection>,
        validated_cost: Option<FactCost>,
        staged_cold: &Vec<FactId>,
    ) -> (r: Result<Admission, SemanticError>)
        requires
            quarantine::owned(old(self)@),
            has_room(old(self)@, 1),
            validated_cost matches Some(c) ==> is_own(c@, fact@),
            retained_reserved ==> quarantine::funds(
                old(self)@.ledger.retained,
                old(self)@.quarantine.facts.insert(fact@.id, fact@),
            ),
        ensures
            ({
                let e = offered(
                    old(self)@,
                    fact@,
                    retained_reserved,
                    rollback::full_view(supplied_previous_projection),
                    cost_view(validated_cost),
                    staged_cold@.to_set(),
                );
                final(self)@ == e.0 && outcome(r) == e.1
            }),
            quarantine::owned(final(self)@),
            final(self)@.indexes_current(),
    {
        proof {
            reveal(offered);
            rebuild::lemma_rebuilt_frame(self@);
            lemma_offered(
                self@,
                fact@,
                retained_reserved,
                rollback::full_view(supplied_previous_projection),
                cost_view(validated_cost),
                staged_cold@.to_set(),
            );
        }
        self.ensure_indexes_current();
        let cost = match validated_cost {
            Some(c) => c,
            None => match self.screen(&fact) {
                Ok(Some(c)) => c,
                Ok(None) => {
                    return Ok(Admission::AlreadyPresent);
                },
                Err(e) => {
                    return Err(e);
                },
            },
        };
        if cost.missing.len() > 0 {
            return self.admit_quarantined(fact, &cost, retained_reserved);
        }
        let (delta, rows) = match self.clear(&fact, &cost, retained_reserved) {
            Ok(cleared) => cleared,
            Err(e) => {
                return Err(e);
            },
        };
        proof {
            reveal(cleared);
        }
        let previous = match supplied_previous_projection {
            Some(p) => p,
            None => self.projection_for_update(),
        };
        self.enter(fact, &cost, retained_reserved, previous, staged_cold, delta, &rows)
    }

    /// Offers a fact; a refusal leaves the graph as it was.
    pub fn admit_fact(&mut self, fact: SignedFact) -> (r: Result<Admission, SemanticError>)
        requires
            quarantine::owned(old(self)@),
            has_room(old(self)@, 1),
        ensures
            final(self)@ == admitted(old(self)@, fact@).0,
            outcome(r) == admitted(old(self)@, fact@).1,
            quarantine::owned(final(self)@),
    {
        proof {
            quarantine::lemma_rebuilt_owned(self@);
            rebuild::lemma_rebuilt_frame(self@);
        }
        self.ensure_indexes_current();
        let ghost start = self@;
        let mut rollback = GraphRollback::new(self);
        rollback.capture_admission(self, &fact);
        let ghost rb = rollback@;
        let none: Vec<FactId> = Vec::new();
        assert(none@.to_set() =~= Set::<FactId>::empty());
        let result = self.admit_inner_with_projection_staged(fact, false, None, None, &none);
        let ghost after = self@;
        if result.is_err() {
            proof {
                rebuild::lemma_rebuilt_frame(start);
                refusal_keeps_custody(start, fact@, false, None, None, Set::empty());
                lemma_restored_custody(start, after, fact@);
            }
            rollback.restore(self);
        }
        result
    }
}

/// A record of a graph puts the quarantine of a like one back.
proof fn lemma_restored_custody(g: GraphView, after: GraphView, f: FactView)
    requires
        quarantine::owned(g),
        same_custody(after, g),
    ensures
        quarantine::owned(rollback::restored_graph(recorded(g, f), after)),
{
    reveal(rollback::restored_graph);
    let rb = recorded(g, f);
    let back = rollback::reverted(rb, after);
    lemma_restored_noted(g.quarantine.facts, rollback::scope_admission(g, f).ids);
    lemma_restored_noted(g.quarantine.missing, rollback::scope_admission(g, f).ids);
    lemma_restored_noted(g.quarantine.by_author, rollback::scope_admission(g, f).authors);
    lemma_restored_noted(g.ledger.retained, rollback::scope_admission(g, f).authors);
    rebuild::lemma_rebuilt_frame(back);
}

/// A record of a map puts it back.
pub proof fn lemma_restored_noted<K, V>(m: Map<K, V>, keys: Set<K>)
    ensures
        capture::restored(m, capture::noted_all(Map::empty(), m, keys)) == m,
{
    assert(capture::restored(m, capture::noted_all(Map::empty(), m, keys)) =~= m);
}

/// Offering a fact that is held already changes nothing.
pub proof fn replay_changes_nothing(g: GraphView, f: FactView)
    requires
        g.indexes_current(),
        f.checked.refusal is None,
        f.content.mesh_context == g.setting.context_id,
        validation::domain_check(g) is Ok,
        present(g.facts, f) == Some(Ok::<(), SemanticError>(())),
    ensures
        admitted(g, f) == (g, Ok::<AdmissionView, SemanticError>(AdmissionView::AlreadyPresent)),
{
    reveal(offered);
    reveal(screened);
}

/// What is admitted stays within the limits of the graph.
pub proof fn admission_stays_within_limits(g: GraphView, f: FactView)
    requires
        g.indexes_current(),
    ensures
        ({
            let (h, result) = admitted(g, f);
            let limits = g.setting.limits;
            result == Ok::<AdmissionView, SemanticError>(AdmissionView::Inserted) ==> {
                &&& h.ledger.fact_count <= limits.max_admitted_facts
                &&& h.ledger.bytes <= limits.max_admitted_bytes
                &&& h.ledger.bytes + h.ledger.index_bytes <= limits.max_database_bytes
                &&& h.ledger.edges + h.quarantine.edges <= limits.max_dependency_edges
                &&& graph::usage_of(h.ledger.retained, f.content.author).facts
                    <= limits.max_retained_facts_per_author
                &&& graph::usage_of(h.ledger.retained, f.content.author).bytes
                    <= limits.max_retained_bytes_per_author
            }
        }),
{
    reveal(offered);
    reveal(screened);
    reveal(cleared);
    reveal(entered);
}

/// A refusal for anything but capacity leaves the graph alone.
pub proof fn lemma_refused_unchanged(g: GraphView, f: FactView, reserved: bool)
    requires
        g.indexes_current(),
    ensures
        ({
            let (h, result) = offered(g, f, reserved, None, None, Set::empty());
            result matches Err(e) ==> e is CapacityExceeded || h == g
        }),
{
    reveal(offered);
    reveal(entered);
}

} // verus!

//! Journaled admission: one fact, and the waiters that it wakes, behind a
//! record from which the graph can be put back.

use vstd::prelude::*;

use crate::admission;
use crate::admission::{Admission, AdmissionView};
use crate::capture;
use crate::capture::Prior;
use crate::cold;
use crate::content::ExclusiveCell;
use crate::costs;
use crate::costs::{CostView, FactCost};
use crate::coverage;
use crate::delta;
use crate::delta::{
    FactRowView, RecordView, SemanticDelta, SemanticFactRow, SemanticFactStatus,
};
use crate::device::DeviceId;
use crate::error::{SemanticCapacityDimension, SemanticError};
use crate::evaluator;
use crate::fact::{FactView, SignedFact};
use crate::graph::{
    CellProjection, CellView, FactGraph, Fence, GraphView, Projection, ProjectionView, StandDown,
};
use crate::ids::FactId;
use crate::impact;
use crate::impact::{Impact, ImpactView};
use crate::ordmap::OrdMap;
use crate::ordset;
use crate::ordset::{copy_keys, Duplicate, OrdSet};
use crate::projection;
use crate::projection::{DeltaView, ProjectionDelta};
use crate::quarantine;
use crate::rebuild;
use crate::retry;
use crate::retry::RetryView;
use crate::rollback;
use crate::rollback::{GraphRollback, RollbackView, Scope, ScopeView};
use crate::sweep;

verus! {

/// What a preflight established, and of which fact in which graph.
#[verifier::ext_equal]
pub struct PreflightView {
    pub admission: AdmissionView,
    pub cost: Option<CostView>,
    pub fact_id: FactId,
    pub content_id: FactId,
    pub signature: Seq<char>,
    pub facts_revision: u64,
    pub generation: u64,
}

/// A graph- and revision-fenced token: the allocation and identity checks of
/// one fact were made.
#[derive(Debug, PartialEq, Eq)]
pub struct AdmissionPreflight {
    pub admission: Admission,
    pub cost: Option<FactCost>,
    pub fact_id: FactId,
    pub content_id: FactId,
    pub signature: String,
    pub facts_revision: u64,
    pub generation: u64,
}

impl View for AdmissionPreflight {
    type V = PreflightView;

    open spec fn view(&self) -> PreflightView {
        PreflightView {
            admission: self.admission@,
            cost: admission::cost_view(self.cost),
            fact_id: self.fact_id,
            content_id: self.content_id,
            signature: self.signature@,
            facts_revision: self.facts_revision,
            generation: self.generation,
        }
    }
}

/// The token for a fact in a graph.
pub open spec fn token(g: GraphView, f: FactView, a: AdmissionView, cost: Option<CostView>) -> PreflightView {
    PreflightView {
        admission: a,
        cost,
        fact_id: f.id,
        content_id: f.checked.content_id,
        signature: f.signature,
        facts_revision: g.fence.facts_revision,
        generation: g.fence.generation,
    }
}

/// What a preflight finds.
pub open spec fn preflighted(g: GraphView, f: FactView) -> Result<PreflightView, SemanticError> {
    if !g.indexes_current() {
        Err(SemanticError::NoOp("stale semantic index"))
    } else {
        match admission::screened(g, f) {
            Err(e) => Err(e),
            Ok(None) => Ok(token(g, f, AdmissionView::AlreadyPresent, None)),
            Ok(Some(cost)) => if cost.missing.len() == 0 {
                match costs::admitted_bounds(g, f, cost, false) {
                    Err(e) => Err(e),
                    Ok(()) => Ok(token(g, f, AdmissionView::Inserted, Some(cost))),
                }
            } else if evaluator::effective_role(g, f.content.author) is None {
                Err(SemanticError::QuarantineSignerNotEligible)
            } else {
                match costs::quarantine_bounds(g, f, cost, false) {
                    Err(e) => Err(e),
                    Ok(()) => Ok(
                        token(
                            g,
                            f,
                            AdmissionView::Quarantined { missing: cost.missing },
                            Some(cost),
                        ),
                    ),
                }
            },
        }
    }
}

impl PreflightView {
    /// Whether the token was made for this fact in this graph as it is.
    pub open spec fn is_for(self, g: GraphView, f: FactView) -> bool {
        self.fact_id == f.id && self.content_id == f.checked.content_id && self.signature
            == f.signature && self.facts_revision == g.fence.facts_revision && self.generation
            == g.fence.generation
    }

    /// Whether a token of a new fact carries the fact's own cost.
    pub open spec fn is_priced(self, f: FactView) -> bool {
        self.admission is AlreadyPresent || (self.cost matches Some(c) && admission::is_own(c, f))
    }
}

impl AdmissionPreflight {
    fn new(graph: &FactGraph, fact: &SignedFact, admission: Admission, cost: Option<FactCost>) -> (r:
        Self)
        ensures
            r@ == token(graph@, fact@, admission@, admission::cost_view(cost)),
    {
        AdmissionPreflight {
            admission,
            cost,
            fact_id: fact.id,
            content_id: fact.checked.content_id,
            signature: fact.signature.as_str().to_owned(),
            facts_revision: graph.fence.facts_revision,
            generation: graph.fence.generation,
        }
    }

    pub fn admission(&self) -> (r: &Admission)
        ensures
            r@ == self@.admission,
    {
        &self.admission
    }

    pub fn encoded_bytes(&self) -> (r: Option<u64>)
        ensures
            r == (match self@.cost {
                Some(c) => Some(c.encoded_bytes),
                None => None,
            }),
    {
        match &self.cost {
            Some(c) => Some(c.encoded_bytes),
            None => None,
        }
    }

    pub fn validate_for(&self, graph: &FactGraph, fact: &SignedFact) -> (r: Result<
        (),
        SemanticError,
    >)
        ensures
            r == (if self@.is_for(graph@, fact@) {
                Ok(())
            } else {
                Err::<(), SemanticError>(SemanticError::NoOp("stale admission preflight"))
            }),
    {
        if !self.fact_id.same(&fact.id) || !self.content_id.same(&fact.checked.content_id)
            || !(self.signature == fact.signature) || self.facts_revision
            != graph.fence.facts_revision || self.generation != graph.fence.generation {
            return Err(SemanticError::NoOp("stale admission preflight"));
        }
        Ok(())
    }
}

/// What a journal holds.
#[verifier::ext_equal]
pub struct JournalView {
    pub rollback: Option<RollbackView>,
    pub staged: Seq<FactId>,
    pub delta: RecordView,
    pub admission: AdmissionView,
}

/// A move-only record of a graph mutation. The caller should commit it only
/// after the durable delta succeeds, or consume it with `rollback`.
#[derive(Debug, PartialEq, Eq)]
pub struct AdmissionJournal {
    pub rollback: Option<GraphRollback>,
    pub staged_cold: Vec<FactId>,
    pub delta: SemanticDelta,
    pub admission: Admission,
}

/// The view of a record that may be there.
pub open spec fn rollback_view(rb: Option<GraphRollback>) -> Option<RollbackView> {
    match rb {
        Some(rb) => Some(rb@),
        None => None,
    }
}

impl View for AdmissionJournal {
    type V = JournalView;

    open spec fn view(&self) -> JournalView {
        JournalView {
            rollback: rollback_view(self.rollback),
            staged: self.staged_cold@,
            delta: self.delta@,
            admission: self.admission@,
        }
    }
}

/// The graph after staged rows were detached and a record was restored.
pub open spec fn rolled_back(rb: Option<RollbackView>, staged: Seq<FactId>, g: GraphView) -> GraphView {
    let bare = cold::unstaged(g, staged);
    match rb {
        Some(rb) => rollback::restored_graph(rb, bare),
        None => bare,
    }
}

/// The graph after a journal was committed.
pub open spec fn committed(staged: Seq<FactId>, g: GraphView) -> GraphView {
    if staged.len() > 0 {
        cold::retired(g)
    } else {
        g
    }
}

/// What the quarantined ones among the given facts can change.
pub open spec fn waiting_impact(g: GraphView, ids: Set<FactId>, staged: Set<FactId>) -> ImpactView {
    ImpactView {
        cells: Set::new(
            |c: ExclusiveCell|
                exists|id: FactId| #[trigger]
                    ids.contains(id) && g.quarantine.facts.contains_key(id) && impact::impact(
                        g.reading(),
                        g.quarantine.facts[id],
                        staged,
                    ).cells.contains(c),
        ),
        subjects: Set::new(
            |d: DeviceId|
                exists|id: FactId| #[trigger]
                    ids.contains(id) && g.quarantine.facts.contains_key(id) && impact::impact(
                        g.reading(),
                        g.quarantine.facts[id],
                        staged,
                    ).subjects.contains(d),
        ),
    }
}

/// What is recorded before a fact is offered: the record itself, and a sample
/// of the projection.
#[verifier::ext_equal]
pub struct PreparedView {
    pub rb: RollbackView,
    pub cells: Map<ExclusiveCell, Option<CellView>>,
    pub stand_down: Map<DeviceId, Option<FactId>>,
}

/// The keys that the candidate of a journal can change.
pub open spec fn scope_candidate(g: GraphView, f: FactView, cost: CostView) -> ScopeView {
    ScopeView {
        ids: Set::empty().insert(f.id),
        dependencies: Set::empty(),
        authors: Set::empty().insert(f.content.author),
    }.and(
        rollback::scope_dependencies(
            g,
            if cost.missing.len() == 0 {
                Set::empty().insert(f.id)
            } else {
                cost.missing.to_set()
            },
        ),
    )
}

/// What is recorded before a fact is offered.
#[verifier::opaque]
pub open spec fn prepared(
    g: GraphView,
    f: FactView,
    cost: CostView,
    rb: RollbackView,
    before: ProjectionView,
    staged: Set<FactId>,
) -> PreparedView {
    let seeds = g.quarantine.ready.insert(f.id);
    let touched = impact::impact(g.reading(), f, staged).and(
        waiting_impact(g, rollback::closure(g, seeds), staged),
    );
    let cells = capture::sampled(before.cells, touched.cells);
    let stand_down = capture::sampled(before.stand_down, touched.subjects);
    let rb = rollback::captured(rb, g, rollback::scope_closure(g, seeds), None);
    let rb = rollback::with_sparse(rb, cells, stand_down);
    PreparedView {
        rb: rollback::captured(rb, g, scope_candidate(g, f, cost), Some(f)),
        cells,
        stand_down,
    }
}

/// The row of a fact, where it is held.
pub open spec fn own_row(g: GraphView, id: FactId) -> Seq<FactRowView> {
    if g.facts.contains_key(id) {
        seq![FactRowView { fact: g.facts[id], status: SemanticFactStatus::Admitted }]
    } else if g.quarantine.facts.contains_key(id) {
        seq![FactRowView { fact: g.quarantine.facts[id], status: SemanticFactStatus::Quarantined }]
    } else {
        Seq::empty()
    }
}

/// The record with the first `n` retried waiters.
pub open spec fn with_retried(g: GraphView, rec: RecordView, ids: Seq<FactId>, n: int) -> RecordView
    decreases n,
{
    if n <= 0 {
        rec
    } else {
        let before = with_retried(g, rec, ids, n - 1);
        let id = ids[n - 1];
        if g.facts.contains_key(id) {
            RecordView {
                promoted: before.promoted.push(id),
                provisional_removed: before.provisional_removed.push(id),
                rows: before.rows.push(
                    FactRowView { fact: g.facts[id], status: SemanticFactStatus::Admitted },
                ),
                ..before
            }
        } else {
            RecordView {
                removed: before.removed.push(id),
                provisional_removed: before.provisional_removed.push(id),
                ..before
            }
        }
    }
}

/// Whether some row is of an admitted fact.
pub open spec fn any_admitted(rows: Seq<FactRowView>) -> bool {
    exists|i: int|
        0 <= i < rows.len() && (#[trigger] rows[i]).status == SemanticFactStatus::Admitted
}

/// What a journaled admission changed.
#[verifier::opaque]
pub open spec fn changed(
    g: GraphView,
    id: FactId,
    a: AdmissionView,
    ids: Seq<FactId>,
    staged: Set<FactId>,
    base_generation: u64,
    cells: Map<ExclusiveCell, Option<CellView>>,
    stand_down: Map<DeviceId, Option<FactId>>,
) -> RecordView {
    let own = RecordView {
        rows: if a is AlreadyPresent {
            Seq::empty()
        } else {
            own_row(g, id)
        },
        ..delta::no_change()
    };
    let all = with_retried(g, own, ids, ids.len() as int);
    let touched = impact::impact_all(g.reading(), delta::admitted_rows(all.rows), staged);
    RecordView {
        provisional_added: if a is Quarantined {
            seq![id]
        } else {
            Seq::empty()
        },
        cells: touched.cells,
        subjects: touched.subjects,
        projection: if any_admitted(all.rows) {
            Some(
                DeltaView {
                    base_generation,
                    generation: g.fence.generation,
                    cells: projection::changes(projection::base(g).cells, cells),
                    stand_down: projection::changes(projection::base(g).stand_down, stand_down),
                },
            )
        } else {
            None
        },
        ..all
    }
}

/// What applying a preflight gives.
#[verifier::ext_equal]
pub struct AppliedView {
    pub g: GraphView,
    pub budget: nat,
    pub result: Result<JournalView, SemanticError>,
}

/// The record of a replay: where rows were staged, they are absent in it.
pub open spec fn replay_record(g: GraphView, staged: Seq<FactId>) -> Option<RollbackView> {
    if staged.len() == 0 {
        None
    } else {
        Some(
            rollback::without_staged(
                RollbackView {
                    fence: Fence {
                        staged_cold_pending: (g.fence.staged_cold_pending - staged.len()) as usize,
                        indexed_fact_count: (g.fence.indexed_fact_count - staged.len()) as usize,
                        ..g.fence
                    },
                    ..rollback::begun(g)
                },
                staged.to_set(),
            ),
        )
    }
}

/// The record that an application begins with.
pub open spec fn first_record(
    g: GraphView,
    staged: Seq<FactId>,
    full: Option<ProjectionView>,
) -> RollbackView {
    let rb = rollback::begun(g);
    match full {
        None => rb,
        Some(p) => rollback::with_full(
            RollbackView {
                fence: Fence {
                    staged_cold_pending: (g.fence.staged_cold_pending - staged.len()) as usize,
                    ..g.fence
                },
                ..rb
            },
            g.fence.generation,
            p,
        ),
    }
}

/// The retry that follows an insertion.
pub open spec fn retry_start(g: GraphView, rb: RollbackView, budget: nat) -> RetryView {
    RetryView {
        g,
        rb,
        budget,
        ids: Seq::empty(),
        done: Set::empty(),
        refusal: None,
    }
}

/// The refusal of a record that exceeds the ready batch.
pub open spec fn too_many(limits: crate::policy::SemanticAdmissionPolicy, rows: nat) -> SemanticError {
    SemanticError::CapacityExceeded {
        dimension: SemanticCapacityDimension::ReadyBatch,
        limit: limits.max_ready_batch,
        observed: rows as u64,
    }
}

/// What follows the offer of a fact: the waiters that it woke are retried,
/// and the changes are recorded.
#[verifier::opaque]
pub open spec fn followed(
    base_generation: u64,
    id: FactId,
    offer: (GraphView, Result<AdmissionView, SemanticError>),
    prep: PreparedView,
    staged: Seq<FactId>,
    impact_staged: Set<FactId>,
    limit: usize,
    budget: nat,
) -> AppliedView {
    match offer.1 {
        Err(e) => AppliedView {
            g: rolled_back(Some(prep.rb), staged, offer.0),
            budget,
            result: Err(e),
        },
        Ok(a) => if a is Inserted && limit == 0 {
            AppliedView {
                g: rolled_back(Some(prep.rb), staged, offer.0),
                budget,
                result: Err(sweep::no_batch()),
            }
        } else {
            let st = if a is Inserted {
                retry::retried_all(
                    retry_start(offer.0, prep.rb, budget),
                    limit as nat,
                    impact_staged,
                )
            } else {
                retry_start(offer.0, prep.rb, budget)
            };
            match st.refusal {
                Some(e) => AppliedView {
                    g: rolled_back(Some(st.rb), staged, st.g),
                    budget: st.budget,
                    result: Err(e),
                },
                None => {
                    let rec = changed(
                        st.g,
                        id,
                        a,
                        st.ids,
                        impact_staged,
                        base_generation,
                        prep.cells,
                        prep.stand_down,
                    );
                    if !rec.is_bounded_and_unique(st.g.setting.limits.max_ready_batch) {
                        AppliedView {
                            g: rolled_back(Some(st.rb), staged, st.g),
                            budget: st.budget,
                            result: Err(too_many(st.g.setting.limits, rec.rows.len())),
                        }
                    } else {
                        AppliedView {
                            g: st.g,
                            budget: st.budget,
                            result: Ok(
                                JournalView {
                                    rollback: Some(st.rb),
                                    staged,
                                    delta: rec,
                                    admission: a,
                                },
                            ),
                        }
                    }
                },
            }
        },
    }
}

/// What applying a preflight gives.
#[verifier::opaque]
pub open spec fn applied(
    g: GraphView,
    f: FactView,
    pf: PreflightView,
    staged: Seq<FactId>,
    full: Option<ProjectionView>,
    impact_staged: Option<Seq<FactId>>,
    budget: nat,
) -> AppliedView {
    let g = rebuild::ensured(g);
    let set = match impact_staged {
        Some(list) => list.to_set(),
        None => staged.to_set(),
    };
    if !pf.is_for(g, f) {
        AppliedView {
            g,
            budget,
            result: Err(SemanticError::NoOp("stale admission preflight")),
        }
    } else if pf.admission is AlreadyPresent {
        AppliedView {
            g,
            budget,
            result: Ok(
                JournalView {
                    rollback: replay_record(g, staged),
                    staged,
                    delta: delta::no_change(),
                    admission: pf.admission,
                },
            ),
        }
    } else {
        let cost = pf.cost->0;
        let before = projection::base(g);
        let bare = GraphView { cache: None, ..g };
        match sweep::batch_limit(g.setting.limits) {
            Err(e) => AppliedView { g: bare, budget, result: Err(e) },
            Ok(limit) => {
                let prep = prepared(bare, f, cost, first_record(g, staged, full), before, set);
                followed(
                    g.fence.generation,
                    f.id,
                    admission::offered(bare, f, false, Some(before), Some(cost), set),
                    prep,
                    staged,
                    set,
                    limit,
                    budget,
                )
            },
        }
    }
}

/// What a journaled admission gives.
pub open spec fn journaled(g: GraphView, f: FactView) -> (
    GraphView,
    Result<JournalView, SemanticError>,
) {
    match preflighted(g, f) {
        Err(e) => (g, Err(e)),
        Ok(pf) => {
            let a = applied(g, f, pf, Seq::empty(), None, None, 0);
            (a.g, a.result)
        },
    }
}

/// What a journaled admission beside staged history gives.
pub open spec fn journaled_with(g: GraphView, f: FactView, history: Seq<FactView>) -> (
    GraphView,
    Result<JournalView, SemanticError>,
) {
    let g = rebuild::ensured(g);
    let full = projection::current(g);
    let rb = rollback::begun(g);
    match cold::staged(g, history) {
        (h, Err(e)) => (rollback::restored_graph(rb, h), Err(e)),
        (h, Ok(staged)) => match preflighted(h, f) {
            Err(e) => (rolled_back(Some(rb), staged, h), Err(e)),
            Ok(pf) => {
                let a = applied(h, f, pf, staged, Some(full), None, 0);
                (a.g, a.result)
            },
        },
    }
}

/// The view of a result that holds a journal.
pub open spec fn journal_view(r: Result<AdmissionJournal, SemanticError>) -> Result<
    JournalView,
    SemanticError,
> {
    match r {
        Ok(j) => Ok(j@),
        Err(e) => Err(e),
    }
}

/// Detaching staged rows leaves the quarantine and the retained usage.
pub proof fn lemma_unstaged_custody(g: GraphView, staged: Seq<FactId>)
    ensures
        admission::same_custody(cold::unstaged(g, staged), g),
{
    reveal(cold::unstaged);
    if staged.len() > 0 {
        let bare = GraphView {
            facts: g.facts.remove_keys(staged.to_set()),
            order: Seq::empty(),
            fence: Fence {
                staged_cold_pending: if g.fence.staged_cold_pending >= staged.len() {
                    (g.fence.staged_cold_pending - staged.len()) as usize
                } else {
                    0
                },
                facts_revision: (g.fence.facts_revision + 1) as u64,
                ..g.fence
            },
            cache: None,
            ..g
        };
        rebuild::lemma_rebuilt_frame(bare);
        assert(cold::unstaged(g, staged).quarantine =~= g.quarantine);
    }
}

/// A covered custody is restored, staged rows or not.
pub proof fn lemma_rolled_back_custody(
    rb: RollbackView,
    base: GraphView,
    g: GraphView,
    staged: Seq<FactId>,
)
    requires
        coverage::custody_covered(rb, base, g),
    ensures
        admission::same_custody(rolled_back(Some(rb), staged, g), base),
{
    lemma_unstaged_custody(g, staged);
    coverage::covered_custody_is_restored(rb, base, cold::unstaged(g, staged));
}

/// A restored graph has the revisions on record.
pub proof fn lemma_rolled_back_fence(rb: RollbackView, staged: Seq<FactId>, g: GraphView)
    ensures
        rolled_back(Some(rb), staged, g).fence.facts_revision == rb.fence.facts_revision,
        rolled_back(Some(rb), staged, g).fence.generation == rb.fence.generation,
{
    reveal(rollback::restored_graph);
}

/// A rollback gives an owned graph, with as much room as before.
proof fn lemma_rolled_back(
    rb: RollbackView,
    base: GraphView,
    g: GraphView,
    staged: Seq<FactId>,
)
    requires
        coverage::custody_covered(rb, base, g),
        quarantine::owned(base),
        rb.fence.facts_revision == base.fence.facts_revision,
        rb.fence.generation == base.fence.generation,
    ensures
        quarantine::owned(rolled_back(Some(rb), staged, g)),
        forall|n: int| #[trigger] retry::is_roomy(base, n) ==> retry::is_roomy(
            rolled_back(Some(rb), staged, g),
            n,
        ),
{
    lemma_rolled_back_custody(rb, base, g, staged);
    lemma_owned_alike(rolled_back(Some(rb), staged, g), base);
    lemma_rolled_back_fence(rb, staged, g);
}

/// Graphs with one custody are owned alike.
pub proof fn lemma_owned_alike(a: GraphView, b: GraphView)
    requires
        admission::same_custody(a, b),
        quarantine::owned(b),
    ensures
        quarantine::owned(a),
{
}

/// What is recorded before a fact is offered covers the offer.
pub proof fn lemma_prepared(
    g: GraphView,
    f: FactView,
    cost: CostView,
    rb: RollbackView,
    before: ProjectionView,
    staged: Set<FactId>,
    base: GraphView,
)
    requires
        g.indexes_current(),
        admission::is_own(cost, f),
    ensures
        ({
            let prep = prepared(g, f, cost, rb, before, staged);
            let offer = admission::offered(g, f, false, Some(before), Some(cost), staged).0;
            &&& coverage::custody_covered(rb, base, g) ==> coverage::custody_covered(
                prep.rb,
                base,
                offer,
            )
            &&& coverage::covered(rb, base, g) ==> coverage::covered(prep.rb, base, offer)
            &&& prep.rb.full == rb.full
            &&& prep.rb.cache == rb.cache
            &&& prep.rb.fence == rb.fence
        }),
{
    reveal(prepared);
    let seeds = g.quarantine.ready.insert(f.id);
    let touched = impact::impact(g.reading(), f, staged).and(
        waiting_impact(g, rollback::closure(g, seeds), staged),
    );
    let first = rollback::captured(rb, g, rollback::scope_closure(g, seeds), None);
    let second = rollback::with_sparse(
        first,
        capture::sampled(before.cells, touched.cells),
        capture::sampled(before.stand_down, touched.subjects),
    );
    let s = scope_candidate(g, f, cost);
    coverage::lemma_captured(rb, base, g, rollback::scope_closure(g, seeds), None);
    coverage::lemma_captured(second, base, g, s, Some(f));
    let last = rollback::captured(second, g, s, Some(f));
    lemma_candidate_within(g, f, cost, before, staged);
    let h = admission::offered(g, f, false, Some(before), Some(cost), staged).0;
    if coverage::custody_covered(rb, base, g) {
        assert(coverage::custody_covered(second, base, g));
        coverage::lemma_custody_within(last, base, g, h, s);
    }
    if coverage::covered(rb, base, g) {
        assert(coverage::covered(second, base, g));
        coverage::lemma_within(last, base, g, h, s);
    }
}

/// Offering the candidate of a journal changes what is recorded for it.
proof fn lemma_candidate_within(
    g: GraphView,
    f: FactView,
    cost: CostView,
    before: ProjectionView,
    staged: Set<FactId>,
)
    requires
        g.indexes_current(),
        admission::is_own(cost, f),
    ensures
        coverage::within(
            scope_candidate(g, f, cost),
            g,
            admission::offered(g, f, false, Some(before), Some(cost), staged).0,
        ),
{
    reveal(admission::offered);
    reveal(admission::entered);
    let s = scope_candidate(g, f, cost);
    let h = admission::offered(g, f, false, Some(before), Some(cost), staged).0;
    assert(s.ids.contains(f.id));
    assert(s.authors.contains(f.content.author));
    if cost.missing.len() == 0 {
        let one = Set::<FactId>::empty().insert(f.id);
        assert(s.dependencies.contains(f.id));
        assert forall|w: FactId| !#[trigger] s.ids.contains(w) implies !crate::multimap::at(
            g.quarantine.waiting,
            f.id,
        ).contains(w) by {
            if crate::multimap::at(g.quarantine.waiting, f.id).contains(w) {
                assert(one.contains(f.id));
                assert(rollback::waiters_of(g, one).contains(w));
            }
        }
    }
    assert(g.order.is_prefix_of(h.order));
}

impl Scope {
    /// The keys that the candidate of a journal can change.
    fn of_candidate(graph: &FactGraph, fact: &SignedFact, cost: &FactCost) -> (r: Self)
        ensures
            r@ == scope_candidate(graph@, fact@, cost@),
    {
        let mut r = Scope::new();
        r.ids.insert(fact.id);
        r.authors.insert(fact.content.author);
        assert(r@ =~= ScopeView {
            ids: Set::empty().insert(fact@.id),
            dependencies: Set::empty(),
            authors: Set::empty().insert(fact@.content.author),
        });
        let ids = if cost.missing.len() == 0 {
            let mut own: Vec<FactId> = Vec::new();
            own.push(fact.id);
            proof {
                crate::content::lemma_push_set(Seq::<FactId>::empty(), fact.id);
                assert(own@ =~= Seq::<FactId>::empty().push(fact.id));
                assert(Seq::<FactId>::empty().to_set() =~= Set::<FactId>::empty());
            }
            own
        } else {
            copy_keys(&cost.missing)
        };
        r.add_dependencies(graph, &ids);
        r
    }
}

impl FactGraph {
    /// Run the allocation and identity checks without changing this graph.
    /// The apply phase consumes the returned graph- and revision-fenced token
    /// and performs only the candidate-relative authority checks that require
    /// the tentative graph mutation.
    pub fn preflight_admission(&self, fact: &SignedFact) -> (r: Result<
        AdmissionPreflight,
        SemanticError,
    >)
        ensures
            match r {
                Ok(pf) => preflighted(self@, fact@) == Ok::<PreflightView, SemanticError>(pf@)
                    && pf@.is_priced(fact@) && pf@.is_for(self@, fact@),
                Err(e) => preflighted(self@, fact@) == Err::<PreflightView, SemanticError>(e),
            },
    {
        if !self.indexes_current() {
            return Err(SemanticError::NoOp("stale semantic index"));
        }
        proof {
            admission::lemma_screened(self@, fact@);
        }
        let cost = match self.screen(fact) {
            Ok(Some(c)) => c,
            Ok(None) => {
                return Ok(AdmissionPreflight::new(self, fact, Admission::AlreadyPresent, None));
            },
            Err(e) => {
                return Err(e);
            },
        };
        if cost.missing.len() == 0 {
            if let Err(e) = self.reserve_admitted(fact, &cost, false) {
                return Err(e);
            }
            return Ok(AdmissionPreflight::new(self, fact, Admission::Inserted, Some(cost)));
        }
        if !self.is_authorized_signer(&fact.content.author) {
            return Err(SemanticError::QuarantineSignerNotEligible);
        }
        if let Err(e) = self.reserve_quarantine(fact, &cost, false) {
            return Err(e);
        }
        let missing = copy_keys(&cost.missing);
        Ok(AdmissionPreflight::new(self, fact, Admission::Quarantined { missing }, Some(cost)))
    }

    /// What the quarantined ones among the given facts can change.
    pub(crate) fn impact_of_waiters(&self, ids: &OrdSet<FactId>, staged: &Vec<FactId>) -> (r: Impact)
        ensures
            r@ == waiting_impact(self@, ids@, staged@.to_set()),
    {
        let ghost g = self@;
        let ghost st = staged@.to_set();
        let list = ids.to_vec();
        let n: usize = list.len();
        let mut r = Impact::new();
        assert(list@.take(0).to_set() =~= Set::<FactId>::empty());
        assert(r@ =~= waiting_impact(g, list@.take(0).to_set(), st));
        for i in 0..n
            invariant
                n == list@.len(),
                g == self@,
                st == staged@.to_set(),
                r@ == waiting_impact(g, list@.take(i as int).to_set(), st),
        {
            let ghost small = list@.take(i as int).to_set();
            let ghost id = list@[i as int];
            let ghost before = r@;
            if let Some(f) = self.quarantine.facts.get(&list[i]) {
                let more = self.projection_impact_for_fact_with_staged(f, staged);
                r.join(&more);
            }
            proof {
                ordset::lemma_take_set(list@, i as int);
                let big = list@.take(i + 1).to_set();
                let want = waiting_impact(g, big, st);
                assert forall|c: ExclusiveCell| #[trigger] r@.cells.contains(c)
                    <==> want.cells.contains(c) by {
                    if before.cells.contains(c) {
                        let x = choose|x: FactId| #[trigger]
                            small.contains(x) && g.quarantine.facts.contains_key(x)
                                && impact::impact(
                                g.reading(),
                                g.quarantine.facts[x],
                                st,
                            ).cells.contains(c);
                        assert(big.contains(x));
                    }
                    if want.cells.contains(c) {
                        let x = choose|x: FactId| #[trigger]
                            big.contains(x) && g.quarantine.facts.contains_key(x)
                                && impact::impact(
                                g.reading(),
                                g.quarantine.facts[x],
                                st,
                            ).cells.contains(c);
                        if x != id {
                            assert(small.contains(x));
                            assert(before.cells.contains(c));
                        }
                    }
                    if g.quarantine.facts.contains_key(id) && impact::impact(
                        g.reading(),
                        g.quarantine.facts[id],
                        st,
                    ).cells.contains(c) {
                        assert(big.contains(id));
                    }
                }
                assert forall|d: DeviceId| #[trigger] r@.subjects.contains(d)
                    <==> want.subjects.contains(d) by {
                    if before.subjects.contains(d) {
                        let x = choose|x: FactId| #[trigger]
                            small.contains(x) && g.quarantine.facts.contains_key(x)
                                && impact::impact(
                                g.reading(),
                                g.quarantine.facts[x],
                                st,
                            ).subjects.contains(d);
                        assert(big.contains(x));
                    }
                    if want.subjects.contains(d) {
                        let x = choose|x: FactId| #[trigger]
                            big.contains(x) && g.quarantine.facts.contains_key(x)
                                && impact::impact(
                                g.reading(),
                                g.quarantine.facts[x],
                                st,
                            ).subjects.contains(d);
                        if x != id {
                            assert(small.contains(x));
                            assert(before.subjects.contains(d));
                        }
                    }
                    if g.quarantine.facts.contains_key(id) && impact::impact(
                        g.reading(),
                        g.quarantine.facts[id],
                        st,
                    ).subjects.contains(d) {
                        assert(big.contains(id));
                    }
                }
                assert(r@ =~= want);
            }
        }
        assert(list@.take(n as int) =~= list@);
        r
    }

    /// Records what an offer can change.
    fn prepare(
        &self,
        fact: &SignedFact,
        cost: &FactCost,
        rollback: &mut GraphRollback,
        previous: &Projection,
        staged: &Vec<FactId>,
    ) -> (r: (OrdMap<ExclusiveCell, Prior<CellProjection>>, OrdMap<DeviceId, Prior<StandDown>>))
        ensures
            ({
                let prep = prepared(
                    self@,
                    fact@,
                    cost@,
                    old(rollback)@,
                    previous@,
                    staged@.to_set(),
                );
                final(rollback)@ == prep.rb && r.0@ == prep.cells && r.1@ == prep.stand_down
            }),
    {
        proof {
            reveal(prepared);
        }
        let mut touched = self.projection_impact_for_fact_with_staged(fact, staged);
        let mut seeds = self.quarantine.ready.to_vec();
        let ghost ready = seeds@;
        seeds.push(fact.id);
        proof {
            crate::content::lemma_push_set(ready, fact.id);
            assert(seeds@.to_set() =~= self@.quarantine.ready.insert(fact@.id));
        }
        let closure = rollback.capture_waiter_closure(self, &seeds);
        let more = self.impact_of_waiters(&closure, staged);
        touched.join(&more);
        let (cells, stand_down) = previous.sparse_entries(&touched.cells, &touched.subjects);
        rollback.capture_projection_sparse(&cells, &stand_down);
        let scope = Scope::of_candidate(self, fact, cost);
        rollback.capture(self, &scope, Some(fact));
        (cells, stand_down)
    }

    /// What changed in the projection since a sample of it was taken.
    pub(crate) fn projection_delta_from_sparse(
        &self,
        base_generation: u64,
        cells: &OrdMap<ExclusiveCell, Prior<CellProjection>>,
        stand_down: &OrdMap<DeviceId, Prior<StandDown>>,
    ) -> (r: ProjectionDelta)
        ensures
            r@ == (DeltaView {
                base_generation,
                generation: self@.fence.generation,
                cells: projection::changes(projection::base(self@).cells, cells@),
                stand_down: projection::changes(projection::base(self@).stand_down, stand_down@),
            }),
    {
        if let Some(c) = &self.cache {
            if c.generation == self.fence.generation {
                return c.projection.delta_from_sparse(
                    base_generation,
                    self.fence.generation,
                    cells,
                    stand_down,
                );
            }
        }
        Projection::from_graph(self).delta_from_sparse(
            base_generation,
            self.fence.generation,
            cells,
            stand_down,
        )
    }

    /// Lists what an admission changed.
    fn list_changes(
        &self,
        id: &FactId,
        admission: &Admission,
        retry_ids: &Vec<FactId>,
        staged: &Vec<FactId>,
        base_generation: u64,
        cells: &OrdMap<ExclusiveCell, Prior<CellProjection>>,
        stand_down: &OrdMap<DeviceId, Prior<StandDown>>,
    ) -> (r: SemanticDelta)
        ensures
            r@ == changed(
                self@,
                *id,
                admission@,
                retry_ids@,
                staged@.to_set(),
                base_generation,
                cells@,
                stand_down@,
            ),
    {
        proof {
            reveal(changed);
        }
        let ghost g = self@;
        let mut delta = SemanticDelta::new();
        let present = match admission {
            Admission::AlreadyPresent => true,
            _ => false,
        };
        if !present {
            if let Some(f) = self.facts.get(id) {
                delta.push_row(
                    SemanticFactRow { fact: f.duplicate(), status: SemanticFactStatus::Admitted },
                );
            } else if let Some(f) = self.quarantine.facts.get(id) {
                delta.push_row(
                    SemanticFactRow {
                        fact: f.duplicate(),
                        status: SemanticFactStatus::Quarantined,
                    },
                );
            }
        }
        let ghost own = delta@;
        proof {
            assert(own =~= RecordView {
                rows: if admission@ is AlreadyPresent {
                    Seq::empty()
                } else {
                    own_row(g, *id)
                },
                ..delta::no_change()
            });
        }
        let n: usize = retry_ids.len();
        for i in 0..n
            invariant
                n == retry_ids@.len(),
                g == self@,
                delta@ == with_retried(g, own, retry_ids@, i as int),
        {
            let ghost before = delta@;
            let waiter = retry_ids[i];
            if let Some(f) = self.facts.get(&waiter) {
                delta.promoted.push(waiter);
                delta.provisional_removed.push(waiter);
                delta.push_row(
                    SemanticFactRow { fact: f.duplicate(), status: SemanticFactStatus::Admitted },
                );
            } else {
                delta.removed.push(waiter);
                delta.provisional_removed.push(waiter);
            }
            assert(delta@ =~= with_retried(g, own, retry_ids@, i + 1));
        }
        let ghost all = delta@;
        let impacted = delta.admitted_ids();
        let touched = self.projection_impact_for_facts_with_staged(&impacted, staged);
        proof {
            if any_admitted(all.rows) {
                let i = choose|i: int|
                    0 <= i < all.rows.len() && (#[trigger] all.rows[i]).status
                        == SemanticFactStatus::Admitted;
                assert(delta::admitted_rows(all.rows).contains(all.rows[i].fact.id));
                assert(impacted@.to_set().contains(all.rows[i].fact.id));
                assert(impacted@.len() > 0);
            } else {
                assert(delta::admitted_rows(all.rows) =~= Set::<FactId>::empty());
                if impacted@.len() > 0 {
                    assert(impacted@.to_set().contains(impacted@[0]));
                }
            }
            lemma_retried_adds_none(g, own, retry_ids@, n as int);
        }
        let is_held = match admission {
            Admission::Quarantined { .. } => true,
            _ => false,
        };
        if is_held {
            delta.provisional_added.push(*id);
        }
        delta.affected_cells = touched.cells;
        delta.affected_subjects = touched.subjects;
        if impacted.len() > 0 {
            delta.projection_delta = Some(
                self.projection_delta_from_sparse(base_generation, cells, stand_down),
            );
        }
        assert(delta@ =~= changed(
            g,
            *id,
            admission@,
            retry_ids@,
            staged@.to_set(),
            base_generation,
            cells@,
            stand_down@,
        ));
        delta
    }
}

/// Retried waiters add nothing provisional, nor a projection.
proof fn lemma_retried_adds_none(g: GraphView, rec: RecordView, ids: Seq<FactId>, n: int)
    ensures
        with_retried(g, rec, ids, n).provisional_added == rec.provisional_added,
        with_retried(g, rec, ids, n).projection == rec.projection,
    decreases n,
{
    if n > 0 {
        lemma_retried_adds_none(g, rec, ids, n - 1);
    }
}

/// Whether a record leads a graph back to an owned one.
pub open spec fn is_base(base: GraphView, rb: RollbackView, g: GraphView) -> bool {
    quarantine::owned(base) && coverage::custody_covered(rb, base, g) && rb.fence.facts_revision
        == base.fence.facts_revision && rb.fence.generation == base.fence.generation
}

/// Whether the graph can lose so many staged rows.
pub open spec fn has_staged(g: GraphView, staged: Seq<FactId>) -> bool {
    staged.len() <= g.fence.staged_cold_pending && staged.len() <= g.facts.dom().len()
}

/// Every graph that a record led back to, its successor leads back to.
proof fn lemma_bases(
    rb: RollbackView,
    g: GraphView,
    later: RollbackView,
    now: GraphView,
    staged: Seq<FactId>,
)
    requires
        exists|base: GraphView| #[trigger] is_base(base, rb, g),
        forall|base: GraphView| #[trigger]
            coverage::custody_covered(rb, base, g) ==> coverage::custody_covered(later, base, now),
        later.fence == rb.fence,
    ensures
        quarantine::owned(rolled_back(Some(later), staged, now)),
        forall|base: GraphView| #[trigger]
            is_base(base, rb, g) ==> admission::same_custody(
                rolled_back(Some(later), staged, now),
                base,
            ),
        forall|base: GraphView, n: int|
            #![trigger is_base(base, rb, g), retry::is_roomy(base, n)]
            is_base(base, rb, g) && retry::is_roomy(base, n) ==> retry::is_roomy(
                rolled_back(Some(later), staged, now),
                n,
            ),
{
    let base = choose|base: GraphView| #[trigger] is_base(base, rb, g);
    assert(coverage::custody_covered(rb, base, g));
    lemma_rolled_back(later, base, now, staged);
    assert forall|base: GraphView| #[trigger] is_base(base, rb, g) implies admission::same_custody(
        rolled_back(Some(later), staged, now),
        base,
    ) by {
        assert(coverage::custody_covered(rb, base, g));
        lemma_rolled_back_custody(later, base, now, staged);
    }
    assert forall|base: GraphView, n: int|
        #![trigger is_base(base, rb, g), retry::is_roomy(base, n)]
        is_base(base, rb, g) && retry::is_roomy(base, n) implies retry::is_roomy(
        rolled_back(Some(later), staged, now),
        n,
    ) by {
        assert(coverage::custody_covered(rb, base, g));
        lemma_rolled_back(later, base, now, staged);
    }
}

impl FactGraph {
    /// Detaches staged rows and restores a record.
    fn roll_back(&mut self, rollback: GraphRollback, staged_cold: &Vec<FactId>)
        requires
            staged_cold@.len() > 0 ==> old(self)@.fence.facts_revision < u64::MAX,
        ensures
            final(self)@ == rolled_back(Some(rollback@), staged_cold@, old(self)@),
    {
        self.remove_staged_cold(staged_cold);
        rollback.restore(self);
    }

    /// Retries what an offer woke, and lists what changed.
    fn follow(
        &mut self,
        base_generation: u64,
        fact_id: FactId,
        offer: Result<Admission, SemanticError>,
        rollback: GraphRollback,
        cells: &OrdMap<ExclusiveCell, Prior<CellProjection>>,
        stand_down: &OrdMap<DeviceId, Prior<StandDown>>,
        staged_cold: Vec<FactId>,
        staged_for_impact: &Vec<FactId>,
        batch_limit: usize,
        retry_budget: &mut usize,
    ) -> (r: Result<AdmissionJournal, SemanticError>)
        requires
            quarantine::owned(old(self)@),
            retry::is_roomy(old(self)@, 1),
            old(self)@.indexes_current(),
            exists|base: GraphView| #[trigger] is_base(base, rollback@, old(self)@),
        ensures
            r matches Ok(j) ==> j@.rollback is Some && forall|base: GraphView| #[trigger]
                coverage::custody_covered(rollback@, base, old(self)@)
                    ==> coverage::custody_covered(j@.rollback->0, base, final(self)@),
            r is Err ==> forall|base: GraphView| #[trigger]
                is_base(base, rollback@, old(self)@) ==> admission::same_custody(
                    final(self)@,
                    base,
                ),
            forall|base: GraphView, n: int|
                #![trigger is_base(base, rollback@, old(self)@), retry::is_roomy(base, n)]
                n >= 0 && is_base(base, rollback@, old(self)@) && retry::is_roomy(base, n)
                    && retry::is_roomy(old(self)@, n) ==> retry::is_roomy(final(self)@, n),
            ({
                let a = followed(
                    base_generation,
                    fact_id,
                    (old(self)@, admission::outcome(offer)),
                    PreparedView { rb: rollback@, cells: cells@, stand_down: stand_down@ },
                    staged_cold@,
                    staged_for_impact@.to_set(),
                    batch_limit,
                    *old(retry_budget) as nat,
                );
                &&& final(self)@ == a.g
                &&& *final(retry_budget) == a.budget
                &&& journal_view(r) == a.result
            }),
            quarantine::owned(final(self)@),
            r is Ok ==> final(self)@.indexes_current(),
    {
        proof {
            reveal(followed);
        }
        let ghost base = choose|base: GraphView| #[trigger] is_base(base, rollback@, old(self)@);
        let mut record = rollback;
        let admission = match offer {
            Ok(a) => a,
            Err(e) => {
                proof {
                    lemma_bases(rollback@, old(self)@, record@, self@, staged_cold@);
                }
                self.roll_back(record, &staged_cold);
                return Err(e);
            },
        };
        let was_inserted = match &admission {
            Admission::Inserted => true,
            _ => false,
        };
        if was_inserted && batch_limit == 0 {
            proof {
                lemma_bases(rollback@, old(self)@, record@, self@, staged_cold@);
            }
            self.roll_back(record, &staged_cold);
            return Err(
                SemanticError::CapacityExceeded {
                    dimension: SemanticCapacityDimension::ReadyBatch,
                    limit: 0,
                    observed: 1,
                },
            );
        }
        let mut retry_ids: Vec<FactId> = Vec::new();
        assert(retry_ids@ =~= Seq::<FactId>::empty());
        if was_inserted {
            proof {
                retry::lemma_retried_all(
                    retry_start(self@, record@, *retry_budget as nat),
                    batch_limit as nat,
                    staged_for_impact@.to_set(),
                    base,
                );
                assert(retry::is_roomy(self@, 0));
            }
            match self.retry_quarantined_batch_bounded(
                batch_limit,
                staged_for_impact,
                &mut record,
                retry_budget,
            ) {
                Ok(ids) => {
                    retry_ids = ids;
                },
                Err(e) => {
                    proof {
                        lemma_bases(rollback@, old(self)@, record@, self@, staged_cold@);
                    }
                    self.roll_back(record, &staged_cold);
                    return Err(e);
                },
            }
        }
        let delta = self.list_changes(
            &fact_id,
            &admission,
            &retry_ids,
            staged_for_impact,
            base_generation,
            cells,
            stand_down,
        );
        let max = self.setting.limits.max_ready_batch;
        if !delta.is_bounded_and_unique(max) {
            let observed = delta.rows.len() as u64;
            proof {
                lemma_bases(rollback@, old(self)@, record@, self@, staged_cold@);
            }
            self.roll_back(record, &staged_cold);
            return Err(
                SemanticError::CapacityExceeded {
                    dimension: SemanticCapacityDimension::ReadyBatch,
                    limit: max,
                    observed,
                },
            );
        }
        Ok(AdmissionJournal { rollback: Some(record), staged_cold, delta, admission })
    }

    /// Apply a preflight result while retaining the journal guarantees.  The
    /// caller must hold the graph's publication fence between the read-only
    /// preflight and this method so the checked graph cannot change.
    pub(crate) fn apply_preflight_journaled_with_history_and_impact(
        &mut self,
        fact: SignedFact,
        preflight: AdmissionPreflight,
        staged_cold: Vec<FactId>,
        rollback_projection: Option<Projection>,
        impact_staged_cold: Option<&Vec<FactId>>,
        retry_budget: &mut usize,
    ) -> (r: Result<AdmissionJournal, SemanticError>)
        requires
            quarantine::owned(old(self)@),
            retry::is_roomy(old(self)@, 2),
            preflight@.is_priced(fact@),
            has_staged(old(self)@, staged_cold@),
        ensures
            ({
                let a = applied(
                    old(self)@,
                    fact@,
                    preflight@,
                    staged_cold@,
                    rollback::full_view(rollback_projection),
                    match impact_staged_cold {
                        Some(list) => Some(list@),
                        None => None,
                    },
                    *old(retry_budget) as nat,
                );
                &&& final(self)@ == a.g
                &&& *final(retry_budget) == a.budget
                &&& journal_view(r) == a.result
            }),
            quarantine::owned(final(self)@),
            forall|n: int|
                n >= 0 && #[trigger] retry::is_roomy(old(self)@, n + 1) ==> retry::is_roomy(
                    final(self)@,
                    n,
                ),
            r is Err ==> admission::same_custody(final(self)@, rebuild::ensured(old(self)@)),
            r matches Ok(j) ==> !(preflight@.admission is AlreadyPresent) ==> j@.rollback is Some
                && coverage::custody_covered(
                j@.rollback->0,
                rebuild::ensured(old(self)@),
                final(self)@,
            ),
    {
        proof {
            reveal(applied);
            quarantine::lemma_rebuilt_owned(self@);
            rebuild::lemma_rebuilt_frame(self@);
        }
        self.ensure_indexes_current();
        let _ = self.facts.len();
        let ghost g = self@;
        if let Err(e) = preflight.validate_for(self, &fact) {
            return Err(e);
        }
        let fact_id = fact.id;
        let replay = match &preflight.admission {
            Admission::AlreadyPresent => true,
            _ => false,
        };
        if replay {
            let rollback = if staged_cold.len() == 0 {
                None
            } else {
                let mut record = GraphRollback::new(self);
                record.fence.staged_cold_pending = record.fence.staged_cold_pending
                    - staged_cold.len();
                record.fence.indexed_fact_count = record.fence.indexed_fact_count
                    - staged_cold.len();
                record.capture_staged_absence(&staged_cold);
                Some(record)
            };
            assert(rollback_view(rollback) == replay_record(g, staged_cold@));
            return Ok(
                AdmissionJournal {
                    rollback,
                    staged_cold,
                    delta: SemanticDelta::new(),
                    admission: preflight.admission,
                },
            );
        }
        let cost = match preflight.cost {
            Some(c) => c,
            None => {
                assert(false);
                return Err(SemanticError::Cycle);
            },
        };
        let mut rollback = GraphRollback::new(self);
        if rollback_projection.is_some() && staged_cold.len() > 0 {
            // The journal baseline is the caller's pre-overlay ownership, so
            // only that transient increment leaves the captured scalar.
            rollback.fence.staged_cold_pending = rollback.fence.staged_cold_pending
                - staged_cold.len();
        }
        let previous_generation = self.fence.generation;
        let previous_projection = self.projection_for_update();
        if let Some(full) = &rollback_projection {
            rollback.capture_projection_full(previous_generation, full);
        }
        proof {
            assert(rollback@ =~= first_record(
                g,
                staged_cold@,
                rollback::full_view(rollback_projection),
            ));
        }
        let ghost bare = self@;
        let ghost first = rollback@;
        let batch_limit = match self.setting.limits.ready_batch() {
            Ok(n) => n,
            Err(e) => {
                return Err(e);
            },
        };
        let staged_for_impact: Vec<FactId> = match impact_staged_cold {
            Some(list) => copy_keys(list),
            None => copy_keys(&staged_cold),
        };
        let ghost set = staged_for_impact@.to_set();
        let (cells, stand_down) = self.prepare(
            &fact,
            &cost,
            &mut rollback,
            &previous_projection,
            &staged_for_impact,
        );
        let ghost before = previous_projection@;
        proof {
            coverage::lemma_begun(bare);
            assert(coverage::custody_covered(first, bare, bare));
            lemma_prepared(bare, fact@, cost@, first, before, set, bare);
            admission::lemma_offered(bare, fact@, false, Some(before), Some(cost@), set);
            retry::lemma_offered_room(bare, fact@, false, Some(before), Some(cost@), set);
            assert(retry::is_roomy(bare, 1int + 1));
            let offered = admission::offered(
                bare,
                fact@,
                false,
                Some(before),
                Some(cost@),
                set,
            ).0;
            assert(is_base(bare, rollback@, offered));
            assert forall|n: int|
                n >= 0 && #[trigger] retry::is_roomy(old(self)@, n + 1) implies retry::is_roomy(
                bare,
                n,
            ) && retry::is_roomy(offered, n) by {
                assert(retry::is_roomy(bare, n + 1));
            }
        }
        let offer = self.admit_inner_with_projection_staged(
            fact,
            false,
            Some(previous_projection),
            Some(cost),
            &staged_for_impact,
        );
        self.follow(
            previous_generation,
            fact_id,
            offer,
            rollback,
            &cells,
            &stand_down,
            staged_cold,
            &staged_for_impact,
            batch_limit,
            retry_budget,
        )
    }

    /// Apply a preflight result while retaining the journal guarantees.
    pub fn apply_preflight_journaled(
        &mut self,
        fact: SignedFact,
        preflight: AdmissionPreflight,
    ) -> (r: Result<AdmissionJournal, SemanticError>)
        requires
            quarantine::owned(old(self)@),
            retry::is_roomy(old(self)@, 2),
            preflight@.is_priced(fact@),
        ensures
            ({
                let a = applied(
                    old(self)@,
                    fact@,
                    preflight@,
                    Seq::empty(),
                    None,
                    None,
                    0,
                );
                final(self)@ == a.g && journal_view(r) == a.result
            }),
            quarantine::owned(final(self)@),
    {
        let mut retry_budget: usize = 0;
        let none: Vec<FactId> = Vec::new();
        assert(none@ =~= Seq::<FactId>::empty());
        self.apply_preflight_journaled_with_history_and_impact(fact, preflight, none, None, None, &mut retry_budget)
    }

    /// Mutate one fact and at most one owner-selected ready batch while
    /// retaining enough exact, touched-entry state to roll the graph back.
    /// The returned journal must be committed only after the corresponding
    /// durable delta succeeds; otherwise it is rolled back.
    pub fn admit_journaled(&mut self, fact: SignedFact) -> (r: Result<
        AdmissionJournal,
        SemanticError,
    >)
        requires
            quarantine::owned(old(self)@),
            retry::is_roomy(old(self)@, 2),
        ensures
            final(self)@ == journaled(old(self)@, fact@).0,
            journal_view(r) == journaled(old(self)@, fact@).1,
            quarantine::owned(final(self)@),
    {
        let preflight = match self.preflight_admission(&fact) {
            Ok(pf) => pf,
            Err(e) => {
                return Err(e);
            },
        };
        self.apply_preflight_journaled(fact, preflight)
    }

    /// Journals the admission of a fact beside staged durable history.  The
    /// complete logical projection is materialized before cold rows are
    /// attached; the hot graph alone may intentionally be too small to
    /// reconstruct it during a later rollback.
    pub fn admit_journaled_with_history(
        &mut self,
        fact: SignedFact,
        history: Vec<SignedFact>,
    ) -> (r: Result<AdmissionJournal, SemanticError>)
        requires
            quarantine::owned(old(self)@),
            retry::is_roomy(old(self)@, 2),
        ensures
            final(self)@ == journaled_with(
                old(self)@,
                fact@,
                cold::facts_view(history@),
            ).0,
            journal_view(r) == journaled_with(old(self)@, fact@, cold::facts_view(history@)).1,
            quarantine::owned(final(self)@),
    {
        proof {
            quarantine::lemma_rebuilt_owned(self@);
            rebuild::lemma_rebuilt_frame(self@);
        }
        self.ensure_indexes_current();
        let _ = self.facts.len();
        let ghost g = self@;
        let full = self.projection();
        let overlay = GraphRollback::new(self);
        proof {
            coverage::lemma_begun(g);
            lemma_staged(g, cold::facts_view(history@));
        }
        let staged_cold = match self.stage_cold_history(&history) {
            Ok(list) => list,
            Err(e) => {
                proof {
                    coverage::covered_custody_is_restored(overlay@, g, self@);
                    lemma_owned_alike(rollback::restored_graph(overlay@, self@), g);
                }
                overlay.restore(self);
                return Err(e);
            },
        };
        let preflight = match self.preflight_admission(&fact) {
            Ok(pf) => pf,
            Err(e) => {
                proof {
                    lemma_rolled_back_custody(overlay@, g, self@, staged_cold@);
                    lemma_owned_alike(
                        rolled_back(Some(overlay@), staged_cold@, self@),
                        g,
                    );
                }
                self.roll_back(overlay, &staged_cold);
                return Err(e);
            },
        };
        let _ = staged_cold.len();
        proof {
            lemma_owned_alike(self@, g);
        }
        let mut retry_budget: usize = 0;
        self.apply_preflight_journaled_with_history_and_impact(
            fact,
            preflight,
            staged_cold,
            Some(full),
            None,
            &mut retry_budget,
        )
    }
}

/// Staging leaves the quarantine, the retained usage and the revisions, and
/// attaches rows that can be detached.
pub proof fn lemma_staged(g: GraphView, history: Seq<FactView>)
    requires
        g.facts.dom().finite(),
    ensures
        admission::same_custody(cold::staged(g, history).0, g),
        cold::staged(g, history).1 matches Ok(list) ==> has_staged(
            cold::staged(g, history).0,
            list,
        ) || list.len() > usize::MAX,
        cold::staged(g, history).1 is Ok ==> cold::staged(g, history).0.fence.facts_revision
            == g.fence.facts_revision && cold::staged(g, history).0.fence.generation
            == g.fence.generation,
{
    reveal(cold::staged);
    let st = cold::stage_run(g, history, history.len() as int);
    lemma_stage_run(g, history, history.len() as int);
    lemma_unstaged_custody(GraphView { facts: st.facts, ..g }, st.staged);
    st.staged.unique_seq_to_set();
    assert(st.staged.to_set().subset_of(st.facts.dom()));
    vstd::set_lib::lemma_len_subset(st.staged.to_set(), st.facts.dom());
}

proof fn lemma_stage_run(g: GraphView, history: Seq<FactView>, n: int)
    requires
        g.facts.dom().finite(),
    ensures
        ({
            let st = cold::stage_run(g, history, n);
            &&& st.facts.dom().finite()
            &&& st.staged.no_duplicates()
            &&& forall|id: FactId| #[trigger] st.staged.contains(id) ==> st.facts.contains_key(id)
        }),
    decreases n,
{
    if n > 0 {
        lemma_stage_run(g, history, n - 1);
        let before = cold::stage_run(g, history, n - 1);
        let st = cold::stage_run(g, history, n);
        let id = history[n - 1].id;
        if st.staged != before.staged {
            assert forall|x: FactId| #[trigger] st.staged.contains(x) implies st.facts.contains_key(
                x,
            ) by {
                let j = choose|j: int| 0 <= j < st.staged.len() && st.staged[j] == x;
                if j < before.staged.len() {
                    assert(before.staged[j] == x);
                    assert(before.staged.contains(x));
                }
            }
            assert forall|i: int, j: int|
                0 <= i < st.staged.len() && 0 <= j < st.staged.len() && i != j implies st.staged[i]
                != st.staged[j] by {
                if i == before.staged.len() as int {
                    assert(before.staged.contains(before.staged[j]));
                } else if j == before.staged.len() as int {
                    assert(before.staged.contains(before.staged[i]));
                }
            }
        }
    }
}

impl AdmissionJournal {
    pub fn admission(&self) -> (r: &Admission)
        ensures
            r@ == self@.admission,
    {
        &self.admission
    }

    pub fn delta(&self) -> (r: &SemanticDelta)
        ensures
            r@ == self@.delta,
    {
        &self.delta
    }

    /// Puts the graph back to what it was before the journal.
    pub fn rollback(self, graph: &mut FactGraph)
        requires
            self@.staged.len() > 0 ==> old(graph)@.fence.facts_revision < u64::MAX,
        ensures
            final(graph)@ == rolled_back(self@.rollback, self@.staged, old(graph)@),
    {
        graph.remove_staged_cold(&self.staged_cold);
        if let Some(rollback) = self.rollback {
            rollback.restore(graph);
        }
    }

    /// Keeps the mutation.  Hydrated ancestors must not escape the journal as
    /// a second in-memory copy of durable history.
    pub fn commit(self, graph: &mut FactGraph)
        requires
            self@.staged.len() > 0 ==> cold::can_retire(old(graph)@),
        ensures
            final(graph)@ == committed(self@.staged, old(graph)@),
    {
        if self.staged_cold.len() > 0 {
            graph.retire_cold_history();
        }
    }
}

} // verus!

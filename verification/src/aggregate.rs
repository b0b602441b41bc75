//! Admitting a bounded group behind one durable handoff.

use vstd::prelude::*;

use crate::admission;
use crate::admission::{Admission, AdmissionView};
use crate::capture;
use crate::capture::{adopt, Prior};
use crate::cold;
use crate::content::ExclusiveCell;
use crate::coverage;
use crate::delta;
use crate::delta::{RecordView, SemanticDelta, SemanticFactRow, SemanticFactStatus};
use crate::device::DeviceId;
use crate::error::{SemanticCapacityDimension, SemanticError};
use crate::fact::{FactView, SignedFact};
use crate::graph::{
    CellProjection, CellView, FactGraph, GraphView, Projection, ProjectionView, StandDown,
};
use crate::ids::FactId;
use crate::impact;
use crate::impact::{Impact, ImpactView};
use crate::journal;
use crate::order;
use crate::ordmap::OrdMap;
use crate::ordset;
use crate::ordset::{Duplicate, OrdSet};
use crate::projection;
use crate::projection::DeltaView;
use crate::quarantine;
use crate::reach::{reach_set, WaiterEdges};
use crate::rebuild;
use crate::retry;
use crate::rollback;
use crate::rollback::{GraphRollback, Members, MembersView, RollbackView};
use crate::sweep;

verus! {

/// What became of one input.
pub enum OutcomeView {
    Inserted { fact_id: FactId },
    AlreadyPresent { fact_id: FactId },
    Quarantined { fact_id: FactId, missing: Seq<FactId> },
    Refused { fact_id: FactId, error: SemanticError },
}

/// The deterministic result for one input in an aggregate admission. A
/// semantic refusal is isolated to its input; it does not discard mutations
/// from earlier valid inputs in the same journal.
#[derive(Debug, PartialEq, Eq)]
pub enum AggregateAdmissionOutcome {
    Inserted { fact_id: FactId },
    AlreadyPresent { fact_id: FactId },
    Quarantined { fact_id: FactId, missing: Vec<FactId> },
    Refused { fact_id: FactId, error: SemanticError },
}

impl View for AggregateAdmissionOutcome {
    type V = OutcomeView;

    open spec fn view(&self) -> OutcomeView {
        match self {
            AggregateAdmissionOutcome::Inserted { fact_id } => OutcomeView::Inserted {
                fact_id: *fact_id,
            },
            AggregateAdmissionOutcome::AlreadyPresent { fact_id } => OutcomeView::AlreadyPresent {
                fact_id: *fact_id,
            },
            AggregateAdmissionOutcome::Quarantined { fact_id, missing } =>
            OutcomeView::Quarantined { fact_id: *fact_id, missing: missing@ },
            AggregateAdmissionOutcome::Refused { fact_id, error } => OutcomeView::Refused {
                fact_id: *fact_id,
                error: *error,
            },
        }
    }
}

/// What became of one input, and what that changed.
#[verifier::ext_equal]
pub struct ItemView {
    pub outcome: OutcomeView,
    pub delta: RecordView,
}

#[derive(Debug, PartialEq, Eq)]
pub struct AggregateAdmissionResult {
    pub outcome: AggregateAdmissionOutcome,
    pub delta: SemanticDelta,
}

impl View for AggregateAdmissionResult {
    type V = ItemView;

    open spec fn view(&self) -> ItemView {
        ItemView { outcome: self.outcome@, delta: self.delta@ }
    }
}

impl AggregateAdmissionResult {
    pub fn outcome(&self) -> (r: &AggregateAdmissionOutcome)
        ensures
            r@ == self@.outcome,
    {
        &self.outcome
    }

    pub fn delta(&self) -> (r: &SemanticDelta)
        ensures
            r@ == self@.delta,
    {
        &self.delta
    }
}

/// The views of a list of results.
pub open spec fn items_view(list: Seq<AggregateAdmissionResult>) -> Seq<ItemView> {
    list.map_values(|r: AggregateAdmissionResult| r@)
}

/// What an aggregate journal holds.
#[verifier::ext_equal]
pub struct AggregateView {
    pub rollback: RollbackView,
    pub staged: Seq<FactId>,
    pub results: Seq<ItemView>,
    pub delta: RecordView,
}

/// One externally committed aggregate graph mutation. Each input is applied
/// in enqueue order against the graph produced by earlier inputs. The outer
/// record is the only durable batch owner; what an input's own record noted
/// is taken over into it.
#[derive(Debug, PartialEq, Eq)]
pub struct AggregateAdmissionJournal {
    pub rollback: GraphRollback,
    pub staged_cold: Vec<FactId>,
    pub results: Vec<AggregateAdmissionResult>,
    pub delta: SemanticDelta,
}

impl View for AggregateAdmissionJournal {
    type V = AggregateView;

    open spec fn view(&self) -> AggregateView {
        AggregateView {
            rollback: self.rollback@,
            staged: self.staged_cold@,
            results: items_view(self.results@),
            delta: self.delta@,
        }
    }
}

/// A record with what another, begun later, noted besides.
pub open spec fn adopted(rb: RollbackView, inner: RollbackView) -> RollbackView {
    RollbackView {
        provenance: inner.provenance.union_prefer_right(rb.provenance),
        authority_heads: inner.authority_heads.union_prefer_right(rb.authority_heads),
        cell_heads: inner.cell_heads.union_prefer_right(rb.cell_heads),
        facts: inner.facts.union_prefer_right(rb.facts),
        quarantined: inner.quarantined.union_prefer_right(rb.quarantined),
        missing: inner.missing.union_prefer_right(rb.missing),
        waiting: inner.waiting.union_prefer_right(rb.waiting),
        ready: MembersView {
            known: rb.ready.known.union(inner.ready.known),
            held: rb.ready.held.union(inner.ready.held.difference(rb.ready.known)),
        },
        by_author: inner.by_author.union_prefer_right(rb.by_author),
        retained: inner.retained.union_prefer_right(rb.retained),
        ..rb
    }
}

pub proof fn lemma_adopted_map<K, V>(
    saved: Map<K, Option<V>>,
    inner: Map<K, Option<V>>,
    base: Map<K, V>,
    mid: Map<K, V>,
    now: Map<K, V>,
)
    requires
        capture::covers(saved, base, mid),
        capture::covers(inner, mid, now),
    ensures
        capture::covers(inner.union_prefer_right(saved), base, now),
{
    let both = inner.union_prefer_right(saved);
    assert forall|k: K| #[trigger] both.contains_key(k) implies both[k] == capture::held(base, k) by {
        if saved.contains_key(k) {
            assert(saved[k] == capture::held(base, k));
        } else {
            assert(inner.contains_key(k));
            assert(inner[k] == capture::held(mid, k));
            assert(capture::held(mid, k) == capture::held(base, k));
        }
    }
    assert forall|k: K| !#[trigger] both.contains_key(k) implies capture::held(now, k)
        == capture::held(base, k) by {
        assert(!saved.contains_key(k));
        assert(!inner.contains_key(k));
    }
}

/// Taking over a later record covers what it covers.
pub proof fn adopting_keeps_custody(
    rb: RollbackView,
    inner: RollbackView,
    base: GraphView,
    mid: GraphView,
    now: GraphView,
)
    requires
        coverage::custody_covered(rb, base, mid),
        coverage::custody_covered(inner, mid, now),
    ensures
        coverage::custody_covered(adopted(rb, inner), base, now),
{
    lemma_adopted_map(
        rb.quarantined,
        inner.quarantined,
        base.quarantine.facts,
        mid.quarantine.facts,
        now.quarantine.facts,
    );
    lemma_adopted_map(
        rb.missing,
        inner.missing,
        base.quarantine.missing,
        mid.quarantine.missing,
        now.quarantine.missing,
    );
    lemma_adopted_map(
        rb.waiting,
        inner.waiting,
        base.quarantine.waiting,
        mid.quarantine.waiting,
        now.quarantine.waiting,
    );
    lemma_adopted_map(
        rb.by_author,
        inner.by_author,
        base.quarantine.by_author,
        mid.quarantine.by_author,
        now.quarantine.by_author,
    );
    lemma_adopted_map(
        rb.retained,
        inner.retained,
        base.ledger.retained,
        mid.ledger.retained,
        now.ledger.retained,
    );
    let m = adopted(rb, inner).ready;
    assert forall|k: FactId| #[trigger] m.known.contains(k) implies m.held.contains(k)
        == base.quarantine.ready.contains(k) by {
        if rb.ready.known.contains(k) {
            assert(rb.ready.held.contains(k) == base.quarantine.ready.contains(k));
        } else {
            assert(inner.ready.known.contains(k));
            assert(!rb.ready.held.contains(k));
            assert(mid.quarantine.ready.contains(k) == base.quarantine.ready.contains(k));
        }
    }
    assert forall|k: FactId| !#[trigger] m.known.contains(k) implies now.quarantine.ready.contains(
        k,
    ) == base.quarantine.ready.contains(k) by {
        assert(!rb.ready.known.contains(k));
        assert(!inner.ready.known.contains(k));
    }
}

/// Taking over a later record covers what it covers, facts and all.
pub proof fn adopting_keeps_coverage(
    rb: RollbackView,
    inner: RollbackView,
    base: GraphView,
    mid: GraphView,
    now: GraphView,
)
    requires
        coverage::covered(rb, base, mid),
        coverage::covered(inner, mid, now),
    ensures
        coverage::covered(adopted(rb, inner), base, now),
{
    adopting_keeps_custody(rb, inner, base, mid, now);
    lemma_adopted_map(rb.facts, inner.facts, base.facts, mid.facts, now.facts);
    assert forall|i: int| 0 <= i < base.order.len() implies base.order[i] == now.order[i] by {
        assert(base.order[i] == mid.order[i]);
    }
}

/// Whether a refusal ends the whole group.
pub open spec fn is_fatal(e: SemanticError) -> bool {
    e is CapacityExceeded
}

/// How far a group came.
#[verifier::ext_equal]
pub struct GroupView {
    pub g: GraphView,
    pub rb: RollbackView,
    pub budget: nat,
    pub results: Seq<ItemView>,
    pub touched: Set<FactId>,
    pub cells: Set<ExclusiveCell>,
    pub subjects: Set<DeviceId>,
    pub stop: Option<SemanticError>,
}

/// The group with the outcome of an input that changed nothing.
pub open spec fn with_item(st: GroupView, outcome: OutcomeView) -> GroupView {
    GroupView {
        results: st.results.push(ItemView { outcome, delta: delta::no_change() }),
        ..st
    }
}

/// The group after an input was refused.
pub open spec fn refused(st: GroupView, id: FactId, e: SemanticError) -> GroupView {
    if is_fatal(e) {
        GroupView { stop: Some(e), ..st }
    } else {
        with_item(st, OutcomeView::Refused { fact_id: id, error: e })
    }
}

/// What an admission is called in a group.
pub open spec fn named(id: FactId, a: AdmissionView) -> OutcomeView {
    match a {
        AdmissionView::Inserted => OutcomeView::Inserted { fact_id: id },
        AdmissionView::AlreadyPresent => OutcomeView::AlreadyPresent { fact_id: id },
        AdmissionView::Quarantined { missing } => OutcomeView::Quarantined { fact_id: id, missing },
    }
}

/// The changes of one input, with all that they bear on.
pub open spec fn item_record(g: GraphView, rec: RecordView, staged: Set<FactId>) -> RecordView {
    let touched = impact::impact_all(g.reading(), rec.changed_ids().to_set(), staged);
    RecordView {
        cells: rec.cells.union(touched.cells),
        subjects: rec.subjects.union(touched.subjects),
        ..rec
    }
}

/// The group after one more input.
#[verifier::opaque]
pub open spec fn grouped(st: GroupView, f: FactView, staged: Seq<FactId>) -> GroupView {
    match journal::preflighted(st.g, f) {
        Err(e) => refused(st, f.id, e),
        Ok(pf) => if pf.admission is AlreadyPresent {
            with_item(st, OutcomeView::AlreadyPresent { fact_id: f.id })
        } else {
            let a = journal::applied(
                st.g,
                f,
                pf,
                Seq::empty(),
                None,
                Some(staged),
                st.budget,
            );
            match a.result {
                Err(e) => refused(GroupView { g: a.g, ..st }, f.id, e),
                Ok(j) => {
                    let rec = item_record(a.g, j.delta, staged.to_set());
                    GroupView {
                        g: a.g,
                        rb: adopted(st.rb, j.rollback->0),
                        budget: a.budget,
                        results: st.results.push(
                            ItemView { outcome: named(f.id, j.admission), delta: rec },
                        ),
                        touched: st.touched.union(rec.changed_ids().to_set()),
                        cells: st.cells.union(rec.cells),
                        subjects: st.subjects.union(rec.subjects),
                        ..st
                    }
                },
            }
        },
    }
}

/// The group after the first `n` inputs.
pub open spec fn grouped_upto(st: GroupView, facts: Seq<FactView>, n: int, staged: Seq<FactId>) -> GroupView
    decreases n,
{
    if n <= 0 {
        st
    } else {
        let before = grouped_upto(st, facts, n - 1, staged);
        if before.stop is Some {
            before
        } else {
            grouped(before, facts[n - 1], staged)
        }
    }
}

proof fn lemma_group_stopped(
    st: GroupView,
    facts: Seq<FactView>,
    i: int,
    n: int,
    staged: Seq<FactId>,
)
    requires
        0 <= i <= n,
        grouped_upto(st, facts, i, staged).stop is Some,
    ensures
        grouped_upto(st, facts, n, staged) == grouped_upto(st, facts, i, staged),
    decreases n - i,
{
    if i < n {
        lemma_group_stopped(st, facts, i, n - 1, staged);
    }
}

/// Whether a record has a value for `id`.
pub open spec fn had(saved: Map<FactId, Option<FactView>>, id: FactId) -> bool {
    saved.contains_key(id) && saved[id] is Some
}

/// The record with the first `n` touched facts, each as it is held in the
/// end.
pub open spec fn settled_rows(
    g: GraphView,
    rb: RollbackView,
    rec: RecordView,
    ids: Seq<FactId>,
    n: int,
) -> RecordView
    decreases n,
{
    if n <= 0 {
        rec
    } else {
        let before = settled_rows(g, rb, rec, ids, n - 1);
        let id = ids[n - 1];
        let was_admitted = had(rb.facts, id);
        let was_held = had(rb.quarantined, id);
        let is_admitted = g.facts.contains_key(id);
        let is_held = g.quarantine.facts.contains_key(id);
        RecordView {
            promoted: if was_held && is_admitted {
                before.promoted.push(id)
            } else {
                before.promoted
            },
            removed: if (was_admitted || was_held) && !is_admitted && !is_held {
                before.removed.push(id)
            } else {
                before.removed
            },
            provisional_added: if !was_held && is_held {
                before.provisional_added.push(id)
            } else {
                before.provisional_added
            },
            provisional_removed: if was_held && !is_held {
                before.provisional_removed.push(id)
            } else {
                before.provisional_removed
            },
            rows: before.rows + journal::own_row(g, id),
            ..before
        }
    }
}

/// The group's one delta, before its projection is compared.
pub open spec fn settled(st: GroupView) -> RecordView {
    let ids = order::ascending(st.touched);
    settled_rows(
        st.g,
        st.rb,
        RecordView { cells: st.cells, subjects: st.subjects, ..delta::no_change() },
        ids,
        ids.len() as int,
    )
}

/// What the inputs of a group, and what waits for them, can change.
pub open spec fn group_impact(g: GraphView, facts: Seq<FactView>, staged: Set<FactId>) -> ImpactView {
    let seeds = facts.map_values(|f: FactView| f.id).to_set().union(g.quarantine.ready);
    ImpactView {
        cells: Set::new(
            |c: ExclusiveCell|
                exists|i: int|
                    0 <= i < facts.len() && impact::impact(
                        g.reading(),
                        #[trigger] facts[i],
                        staged,
                    ).cells.contains(c),
        ),
        subjects: Set::new(
            |d: DeviceId|
                exists|i: int|
                    0 <= i < facts.len() && impact::impact(
                        g.reading(),
                        #[trigger] facts[i],
                        staged,
                    ).subjects.contains(d),
        ),
    }.and(
        journal::waiting_impact(
            g,
            g.quarantine.ready.union(
                rollback::waiters_of(g, rollback::closure(g, seeds)),
            ),
            staged,
        ),
    )
}

/// What a group gives once all its inputs were applied.
#[verifier::opaque]
pub open spec fn closed_group(
    st: GroupView,
    base_generation: u64,
    base: ProjectionView,
    cells: Map<ExclusiveCell, Option<CellView>>,
    stand_down: Map<DeviceId, Option<FactId>>,
    staged: Seq<FactId>,
) -> (GraphView, Result<AggregateView, SemanticError>) {
    let back = journal::rolled_back(Some(st.rb), staged, st.g);
    match st.stop {
        Some(e) => (back, Err(e)),
        None => {
            let rec = settled(st);
            let now = projection::current(st.g);
            let change = DeltaView {
                base_generation,
                generation: st.g.fence.generation,
                cells: projection::changes(now.cells, cells),
                stand_down: projection::changes(now.stand_down, stand_down),
            };
            let moved = now != base;
            if moved && change.cells.dom() == Set::<ExclusiveCell>::empty()
                && change.stand_down.dom() == Set::<DeviceId>::empty() {
                (back, Err(SemanticError::NoOp("aggregate projection impact incomplete")))
            } else {
                let rec = RecordView {
                    projection: if moved {
                        Some(change)
                    } else {
                        None
                    },
                    ..rec
                };
                if !rec.is_bounded_and_unique(st.g.setting.limits.max_ready_batch) {
                    (back, Err(journal::too_many(st.g.setting.limits, rec.rows.len())))
                } else {
                    (
                        st.g,
                        Ok(AggregateView { rollback: st.rb, staged, results: st.results, delta: rec }),
                    )
                }
            }
        },
    }
}

/// The record that a group begins with.
pub open spec fn group_record(g: GraphView, has_history: bool) -> RollbackView {
    if has_history {
        rollback::with_full(
            rollback::begun(g),
            g.fence.generation,
            projection::current(g),
        )
    } else {
        rollback::begun(g)
    }
}

/// A group whose history is staged and of which no input was applied.
pub open spec fn group_start(g: GraphView, rb: RollbackView) -> GroupView {
    GroupView {
        g,
        rb,
        budget: 0,
        results: Seq::empty(),
        touched: Set::empty(),
        cells: Set::empty(),
        subjects: Set::empty(),
        stop: None,
    }
}

/// What a group admission gives.
#[verifier::opaque]
pub open spec fn batched(g: GraphView, facts: Seq<FactView>, history: Seq<FactView>) -> (
    GraphView,
    Result<AggregateView, SemanticError>,
) {
    let g = rebuild::ensured(g);
    match sweep::batch_limit(g.setting.limits) {
        Err(e) => (g, Err(e)),
        Ok(limit) => if facts.len() > limit {
            (g, Err(journal::too_many(g.setting.limits, facts.len())))
        } else {
            let rb = group_record(g, history.len() > 0);
            match cold::staged(g, history) {
                (h, Err(e)) => (rollback::restored_graph(rb, h), Err(e)),
                (h, Ok(staged)) => {
                    let base = projection::current(h);
                    let touched = group_impact(h, facts, staged.to_set());
                    let cells = capture::sampled(base.cells, touched.cells);
                    let stand_down = capture::sampled(base.stand_down, touched.subjects);
                    let start = group_start(h, rollback::with_sparse(rb, cells, stand_down));
                    closed_group(
                        grouped_upto(start, facts, facts.len() as int, staged),
                        h.fence.generation,
                        base,
                        cells,
                        stand_down,
                        staged,
                    )
                },
            }
        },
    }
}

/// The view of a result that holds an aggregate journal.
pub open spec fn aggregate_view(r: Result<AggregateAdmissionJournal, SemanticError>) -> Result<
    AggregateView,
    SemanticError,
> {
    match r {
        Ok(j) => Ok(j@),
        Err(e) => Err(e),
    }
}

impl Members {
    fn adopt(&mut self, from: &Members)
        ensures
            final(self)@ == (MembersView {
                known: old(self)@.known.union(from@.known),
                held: old(self)@.held.union(from@.held.difference(old(self)@.known)),
            }),
    {
        let ghost start = self@;
        let list = from.held.to_vec();
        let n: usize = list.len();
        assert(list@.take(0).to_set() =~= Set::<FactId>::empty());
        assert(self.held@ =~= start.held.union(
            list@.take(0).to_set().difference(start.known),
        ));
        for i in 0..n
            invariant
                n == list@.len(),
                self.known@ == start.known,
                self.held@ == start.held.union(
                    list@.take(i as int).to_set().difference(start.known),
                ),
        {
            if !self.known.contains(&list[i]) {
                self.held.insert(list[i]);
            }
            proof {
                ordset::lemma_take_set(list@, i as int);
                assert(self.held@ =~= start.held.union(
                    list@.take(i + 1).to_set().difference(start.known),
                ));
            }
        }
        assert(list@.take(n as int) =~= list@);
        self.known.extend(&from.known);
    }
}

impl GraphRollback {
    /// Takes over what a record that was begun later noted besides.
    pub(crate) fn adopt_record(&mut self, inner: &GraphRollback)
        ensures
            final(self)@ == adopted(old(self)@, inner@),
    {
        adopt(&mut self.provenance, &inner.provenance);
        adopt(&mut self.authority_heads, &inner.authority_heads);
        adopt(&mut self.cell_heads, &inner.cell_heads);
        adopt(&mut self.facts, &inner.facts);
        adopt(&mut self.quarantined, &inner.quarantined);
        adopt(&mut self.missing, &inner.missing);
        adopt(&mut self.waiting, &inner.waiting);
        self.ready.adopt(&inner.ready);
        adopt(&mut self.by_author, &inner.by_author);
        adopt(&mut self.retained, &inner.retained);
        assert(self@ =~= adopted(old(self)@, inner@));
    }

    /// Whether a fact was admitted when the record was begun.
    fn had_admitted(&self, id: &FactId) -> (r: bool)
        ensures
            r == had(self@.facts, *id),
    {
        match self.facts.get(id) {
            Some(p) => p.held.is_some(),
            None => false,
        }
    }

    /// Whether a fact was quarantined when the record was begun.
    fn had_quarantined(&self, id: &FactId) -> (r: bool)
        ensures
            r == had(self@.quarantined, *id),
    {
        match self.quarantined.get(id) {
            Some(p) => p.held.is_some(),
            None => false,
        }
    }
}

fn is_aggregate_precommit_failure(error: &SemanticError) -> (r: bool)
    ensures
        r == is_fatal(*error),
{
    match error {
        SemanticError::CapacityExceeded { .. } => true,
        _ => false,
    }
}

/// What a group gathers while its inputs are applied.
struct Gathered {
    rollback: GraphRollback,
    budget: usize,
    results: Vec<AggregateAdmissionResult>,
    touched: OrdSet<FactId>,
    cells: OrdSet<ExclusiveCell>,
    subjects: OrdSet<DeviceId>,
}

impl Gathered {
    /// The group that the gathered values stand for.
    spec fn stands_for(&self, g: GraphView) -> GroupView {
        GroupView {
            g,
            rb: self.rollback@,
            budget: self.budget as nat,
            results: items_view(self.results@),
            touched: self.touched@,
            cells: self.cells@,
            subjects: self.subjects@,
            stop: None,
        }
    }

    fn push(&mut self, outcome: AggregateAdmissionOutcome, delta: SemanticDelta)
        ensures
            forall|g: GraphView| #[trigger]
                final(self).stands_for(g) == (GroupView {
                    results: old(self).stands_for(g).results.push(
                        ItemView { outcome: outcome@, delta: delta@ },
                    ),
                    ..old(self).stands_for(g)
                }),
    {
        let ghost before = items_view(self.results@);
        self.results.push(AggregateAdmissionResult { outcome, delta });
        assert(items_view(self.results@) =~= before.push(
            ItemView { outcome: outcome@, delta: delta@ },
        ));
    }
}

impl FactGraph {
    /// What the inputs of a group, and what waits for them, can change.
    fn impact_of_group(&self, facts: &Vec<SignedFact>, staged: &Vec<FactId>) -> (r: Impact)
        ensures
            r@ == group_impact(self@, cold::facts_view(facts@), staged@.to_set()),
    {
        let ghost g = self@;
        let ghost st = staged@.to_set();
        let ghost views = cold::facts_view(facts@);
        let n: usize = facts.len();
        let mut r = Impact::new();
        let mut seeds: Vec<FactId> = Vec::new();
        for i in 0..n
            invariant
                n == facts@.len(),
                g == self@,
                st == staged@.to_set(),
                views == cold::facts_view(facts@),
                seeds@.len() == i,
                forall|j: int| 0 <= j < i ==> seeds@[j] == (#[trigger] views[j]).id,
                forall|c: ExclusiveCell| #[trigger]
                    r@.cells.contains(c) <==> exists|j: int|
                        0 <= j < i && impact::impact(
                            g.reading(),
                            #[trigger] views[j],
                            st,
                        ).cells.contains(c),
                forall|d: DeviceId| #[trigger]
                    r@.subjects.contains(d) <==> exists|j: int|
                        0 <= j < i && impact::impact(
                            g.reading(),
                            #[trigger] views[j],
                            st,
                        ).subjects.contains(d),
        {
            let ghost before = r@;
            assert(views[i as int] == facts@[i as int]@);
            let more = self.projection_impact_for_fact_with_staged(&facts[i], staged);
            r.join(&more);
            seeds.push(facts[i].id);
            proof {
                let here = views[i as int];
                assert forall|c: ExclusiveCell| #[trigger] r@.cells.contains(c) <==> exists|j: int|
                    0 <= j < i + 1 && impact::impact(
                        g.reading(),
                        #[trigger] views[j],
                        st,
                    ).cells.contains(c) by {
                    if before.cells.contains(c) {
                        let j = choose|j: int|
                            0 <= j < i && impact::impact(
                                g.reading(),
                                #[trigger] views[j],
                                st,
                            ).cells.contains(c);
                        assert(impact::impact(g.reading(), views[j], st).cells.contains(c));
                    }
                    if impact::impact(g.reading(), here, st).cells.contains(c) {
                        assert(impact::impact(g.reading(), views[i as int], st).cells.contains(c));
                    }
                }
                assert forall|d: DeviceId| #[trigger] r@.subjects.contains(d) <==> exists|j: int|
                    0 <= j < i + 1 && impact::impact(
                        g.reading(),
                        #[trigger] views[j],
                        st,
                    ).subjects.contains(d) by {
                    if before.subjects.contains(d) {
                        let j = choose|j: int|
                            0 <= j < i && impact::impact(
                                g.reading(),
                                #[trigger] views[j],
                                st,
                            ).subjects.contains(d);
                        assert(impact::impact(g.reading(), views[j], st).subjects.contains(d));
                    }
                    if impact::impact(g.reading(), here, st).subjects.contains(d) {
                        assert(impact::impact(g.reading(), views[i as int], st).subjects.contains(
                            d,
                        ));
                    }
                }
            }
        }
        let ghost ids = seeds@;
        let ready = self.quarantine.ready.to_vec();
        ordset::append_keys(&mut seeds, &ready);
        proof {
            crate::content::lemma_concat_set(ids, ready@);
            assert(ids =~= views.map_values(|f: FactView| f.id));
            assert(seeds@.to_set() =~= views.map_values(|f: FactView| f.id).to_set().union(
                g.quarantine.ready,
            ));
        }
        let reached = reach_set(&WaiterEdges { waiting: &self.quarantine.waiting }, &seeds);
        let list = reached.to_vec();
        let mut scope = rollback::Scope::new();
        scope.add_dependencies(self, &list);
        let mut waiters = scope.ids;
        waiters.extend(&self.quarantine.ready);
        proof {
            assert(waiters@ =~= g.quarantine.ready.union(
                rollback::waiters_of(
                    g,
                    rollback::closure(
                        g,
                        views.map_values(|f: FactView| f.id).to_set().union(g.quarantine.ready),
                    ),
                ),
            ));
        }
        let more = self.impact_of_waiters(&waiters, staged);
        let ghost own = r@;
        r.join(&more);
        assert(r@ =~= group_impact(g, views, st));
        r
    }

    /// Lists the touched facts as they are held in the end.
    fn settle_rows(
        &self,
        rollback: &GraphRollback,
        touched: &OrdSet<FactId>,
        cells: OrdSet<ExclusiveCell>,
        subjects: OrdSet<DeviceId>,
    ) -> (r: SemanticDelta)
        ensures
            ({
                let ids = order::ascending(touched@);
                r@ == settled_rows(
                    self@,
                    rollback@,
                    RecordView { cells: cells@, subjects: subjects@, ..delta::no_change() },
                    ids,
                    ids.len() as int,
                )
            }),
    {
        let ghost g = self@;
        let ghost start = RecordView { cells: cells@, subjects: subjects@, ..delta::no_change() };
        let mut delta = SemanticDelta::new();
        delta.affected_cells = cells;
        delta.affected_subjects = subjects;
        assert(delta@ =~= start);
        let ids = touched.to_vec();
        let n: usize = ids.len();
        for i in 0..n
            invariant
                n == ids@.len(),
                g == self@,
                delta@ == settled_rows(g, rollback@, start, ids@, i as int),
        {
            let id = ids[i];
            let was_admitted = rollback.had_admitted(&id);
            let was_held = rollback.had_quarantined(&id);
            let is_admitted = self.facts.contains_key(&id);
            let is_held = self.quarantine.facts.contains_key(&id);
            let ghost before = delta@;
            if was_held && is_admitted {
                delta.promoted.push(id);
            }
            if (was_admitted || was_held) && !is_admitted && !is_held {
                delta.removed.push(id);
            }
            if !was_held && is_held {
                delta.provisional_added.push(id);
            }
            if was_held && !is_held {
                delta.provisional_removed.push(id);
            }
            if let Some(f) = self.facts.get(&id) {
                delta.push_row(
                    SemanticFactRow { fact: f.duplicate(), status: SemanticFactStatus::Admitted },
                );
            } else if let Some(f) = self.quarantine.facts.get(&id) {
                delta.push_row(
                    SemanticFactRow {
                        fact: f.duplicate(),
                        status: SemanticFactStatus::Quarantined,
                    },
                );
            }
            assert(delta@.rows =~= before.rows + journal::own_row(g, id));
            assert(delta@ =~= settled_rows(g, rollback@, start, ids@, i + 1));
        }
        delta
    }

    /// Applies one input of a group.  The outer record remains the sole owner
    /// of reverting earlier successful inputs.
    fn apply_group_input(
        &mut self,
        fact: &SignedFact,
        staged_cold: &Vec<FactId>,
        gathered: &mut Gathered,
    ) -> (r: Option<SemanticError>)
        requires
            quarantine::owned(old(self)@),
            retry::is_roomy(old(self)@, 2),
        ensures
            ({
                let st = grouped(
                    old(gathered).stands_for(old(self)@),
                    fact@,
                    staged_cold@,
                );
                &&& st.stop == r
                &&& GroupView { stop: None, ..st } == final(gathered).stands_for(final(self)@)
            }),
            quarantine::owned(final(self)@),
            forall|n: int|
                n >= 0 && #[trigger] retry::is_roomy(old(self)@, n + 1) ==> retry::is_roomy(
                    final(self)@,
                    n,
                ),
            forall|base: GraphView| #[trigger]
                coverage::custody_covered(old(gathered).rollback@, base, old(self)@)
                    ==> coverage::custody_covered(
                    final(gathered).rollback@,
                    base,
                    final(self)@,
                ),
            final(gathered).rollback@.fence == old(gathered).rollback@.fence,
    {
        proof {
            reveal(grouped);
            rebuild::lemma_rebuilt_frame(self@);
        }
        let ghost g = self@;
        let ghost st = gathered.stands_for(g);
        let fact_id = fact.id;
        let preflight = match self.preflight_admission(fact) {
            Ok(pf) => pf,
            Err(error) => {
                if is_aggregate_precommit_failure(&error) {
                    return Some(error);
                }
                gathered.push(
                    AggregateAdmissionOutcome::Refused { fact_id, error },
                    SemanticDelta::new(),
                );
                return None;
            },
        };
        let replay = match &preflight.admission {
            Admission::AlreadyPresent => true,
            _ => false,
        };
        if replay {
            gathered.push(
                AggregateAdmissionOutcome::AlreadyPresent { fact_id },
                SemanticDelta::new(),
            );
            return None;
        }
        let none: Vec<FactId> = Vec::new();
        assert(none@ =~= Seq::<FactId>::empty());
        assert(g.indexes_current());
        let mut budget: usize = gathered.budget;
        let journal = match self.apply_preflight_journaled_with_history_and_impact(
            fact.duplicate(),
            preflight,
            none,
            None,
            Some(staged_cold),
            &mut budget,
        ) {
            Ok(j) => j,
            Err(error) => {
                if is_aggregate_precommit_failure(&error) {
                    return Some(error);
                }
                gathered.push(
                    AggregateAdmissionOutcome::Refused { fact_id, error },
                    SemanticDelta::new(),
                );
                return None;
            },
        };
        let ghost now = self@;
        let mut delta = journal.delta;
        let ids = delta.changed_ids();
        let touched = self.projection_impact_for_facts_with_staged(&ids, staged_cold);
        delta.affected_cells.extend(&touched.cells);
        delta.affected_subjects.extend(&touched.subjects);
        assert(delta@ =~= item_record(now, journal.delta@, staged_cold@.to_set()));
        assert(delta@.changed_ids() == ids@);
        match &journal.rollback {
            Some(inner) => {
                proof {
                    assert forall|base: GraphView| #[trigger]
                        coverage::custody_covered(
                            gathered.rollback@,
                            base,
                            g,
                        ) implies coverage::custody_covered(
                        adopted(gathered.rollback@, inner@),
                        base,
                        now,
                    ) by {
                        adopting_keeps_custody(gathered.rollback@, inner@, base, g, now);
                    }
                }
                gathered.rollback.adopt_record(inner);
            },
            None => {
                assert(false);
            },
        }
        gathered.budget = budget;
        gathered.touched.extend_vec(&ids);
        gathered.cells.extend(&delta.affected_cells);
        gathered.subjects.extend(&delta.affected_subjects);
        let outcome = match journal.admission {
            Admission::Inserted => AggregateAdmissionOutcome::Inserted { fact_id },
            Admission::Quarantined { missing } => AggregateAdmissionOutcome::Quarantined {
                fact_id,
                missing,
            },
            Admission::AlreadyPresent => AggregateAdmissionOutcome::AlreadyPresent { fact_id },
        };
        gathered.push(outcome, delta);
        assert(gathered.stands_for(now) =~= (GroupView { stop: None, ..grouped(
            st,
            fact@,
            staged_cold@,
        ) }));
        None
    }
}

impl FactGraph {
    /// Compares the projections, and closes the group.
    fn close_group(
        &mut self,
        gathered: Gathered,
        base_generation: u64,
        base: &Projection,
        cells: &OrdMap<ExclusiveCell, Prior<CellProjection>>,
        stand_down: &OrdMap<DeviceId, Prior<StandDown>>,
        staged_cold: Vec<FactId>,
    ) -> (r: Result<AggregateAdmissionJournal, SemanticError>)
        requires
            staged_cold@.len() > 0 ==> old(self)@.fence.facts_revision < u64::MAX,
        ensures
            ({
                let a = closed_group(
                    gathered.stands_for(old(self)@),
                    base_generation,
                    base@,
                    cells@,
                    stand_down@,
                    staged_cold@,
                );
                final(self)@ == a.0 && aggregate_view(r) == a.1
            }),
    {
        proof {
            reveal(closed_group);
        }
        let ghost g = self@;
        let mut delta = self.settle_rows(
            &gathered.rollback,
            &gathered.touched,
            gathered.cells,
            gathered.subjects,
        );
        let ghost rec = delta@;
        assert(rec == settled(gathered.stands_for(g)));
        proof {
            lemma_settled_rows(
                g,
                gathered.rollback@,
                RecordView {
                    cells: gathered.cells@,
                    subjects: gathered.subjects@,
                    ..delta::no_change()
                },
                order::ascending(gathered.touched@),
                order::ascending(gathered.touched@).len() as int,
            );
        }
        let now = self.projection();
        if !now.same(base) {
            let change = now.delta_from_sparse(
                base_generation,
                self.fence.generation,
                cells,
                stand_down,
            );
            if change.cells.is_empty() && change.stand_down.is_empty() {
                self.remove_staged_cold(&staged_cold);
                gathered.rollback.restore(self);
                return Err(SemanticError::NoOp("aggregate projection impact incomplete"));
            }
            delta.projection_delta = Some(change);
        }
        let max = self.setting.limits.max_ready_batch;
        if !delta.is_bounded_and_unique(max) {
            let observed = delta.rows.len() as u64;
            self.remove_staged_cold(&staged_cold);
            gathered.rollback.restore(self);
            return Err(
                SemanticError::CapacityExceeded {
                    dimension: SemanticCapacityDimension::ReadyBatch,
                    limit: max,
                    observed,
                },
            );
        }
        Ok(
            AggregateAdmissionJournal {
                rollback: gathered.rollback,
                staged_cold,
                results: gathered.results,
                delta,
            },
        )
    }

    /// Admit a bounded group behind one durable handoff. Inputs are evaluated
    /// in enqueue order against the graph produced by earlier successful
    /// inputs. An input-local refusal is recorded and does not undo earlier
    /// valid mutations; only the returned aggregate journal owns rollback of
    /// the whole group.
    pub fn admit_journaled_batch_with_history(
        &mut self,
        facts: Vec<SignedFact>,
        history: Vec<SignedFact>,
    ) -> (r: Result<AggregateAdmissionJournal, SemanticError>)
        requires
            quarantine::owned(old(self)@),
            retry::is_roomy(old(self)@, facts@.len() as int + 2),
        ensures
            final(self)@ == batched(
                old(self)@,
                cold::facts_view(facts@),
                cold::facts_view(history@),
            ).0,
            aggregate_view(r) == batched(
                old(self)@,
                cold::facts_view(facts@),
                cold::facts_view(history@),
            ).1,
            quarantine::owned(final(self)@),
    {
        let ghost views = cold::facts_view(facts@);
        let ghost rows = cold::facts_view(history@);
        proof {
            reveal(batched);
            quarantine::lemma_rebuilt_owned(self@);
            rebuild::lemma_rebuilt_frame(self@);
        }
        self.ensure_indexes_current();
        let _ = self.facts.len();
        let ghost g = self@;
        let limits = self.setting.limits;
        let batch_limit = match limits.ready_batch() {
            Ok(n) => n,
            Err(e) => {
                return Err(e);
            },
        };
        if facts.len() > batch_limit {
            return Err(
                SemanticError::CapacityExceeded {
                    dimension: SemanticCapacityDimension::ReadyBatch,
                    limit: limits.max_ready_batch,
                    observed: facts.len() as u64,
                },
            );
        }
        // Cold rows remain store-owned. Materialize the logical projection
        // before staging them, and retain it only on this exceptional path.
        let mut rollback = GraphRollback::new(self);
        if history.len() > 0 {
            let projection = self.projection();
            rollback.capture_projection_full(self.fence.generation, &projection);
        }
        assert(rollback@ == group_record(g, rows.len() > 0));
        proof {
            coverage::lemma_begun(g);
            journal::lemma_staged(g, rows);
        }
        let staged_cold = match self.stage_cold_history(&history) {
            Ok(list) => list,
            Err(e) => {
                proof {
                    coverage::covered_custody_is_restored(rollback@, g, self@);
                    journal::lemma_owned_alike(rollback::restored_graph(rollback@, self@), g);
                }
                rollback.restore(self);
                return Err(e);
            },
        };
        let ghost h = self@;
        proof {
            journal::lemma_owned_alike(h, g);
        }
        let base_generation = self.fence.generation;
        let base = self.projection();
        let touched = self.impact_of_group(&facts, &staged_cold);
        let (cells, stand_down) = base.sparse_entries(&touched.cells, &touched.subjects);
        rollback.capture_projection_sparse(&cells, &stand_down);
        let mut gathered = Gathered {
            rollback,
            budget: 0,
            results: Vec::new(),
            touched: OrdSet::new(),
            cells: OrdSet::new(),
            subjects: OrdSet::new(),
        };
        let ghost start = gathered.stands_for(h);
        proof {
            assert(items_view(gathered.results@) =~= Seq::<ItemView>::empty());
            assert(start =~= group_start(h, rollback@));
            assert(coverage::custody_covered(gathered.rollback@, g, h));
        }
        let n: usize = facts.len();
        let ghost result = closed_group(
            grouped_upto(start, views, n as int, staged_cold@),
            base_generation,
            base@,
            cells@,
            stand_down@,
            staged_cold@,
        );
        for i in 0..n
            invariant
                n == facts@.len(),
                views == cold::facts_view(facts@),
                quarantine::owned(self@),
                quarantine::owned(g),
                retry::is_roomy(self@, n - i + 2),
                coverage::custody_covered(gathered.rollback@, g, self@),
                gathered.stands_for(self@) == grouped_upto(start, views, i as int, staged_cold@),
                result == closed_group(
                    grouped_upto(start, views, n as int, staged_cold@),
                    base_generation,
                    base@,
                    cells@,
                    stand_down@,
                    staged_cold@,
                ),
                result == batched(old(self)@, views, cold::facts_view(history@)),
        {
            assert(views[i as int] == facts@[i as int]@);
            let ghost here = self@;
            let ghost st = gathered.stands_for(here);
            proof {
                assert(retry::is_roomy(here, (n - i + 1) + 1));
            }
            if let Some(e) = self.apply_group_input(&facts[i], &staged_cold, &mut gathered) {
                proof {
                    assert(grouped_upto(start, views, i + 1, staged_cold@) == grouped(
                        st,
                        views[i as int],
                        staged_cold@,
                    ));
                    lemma_group_stopped(start, views, i + 1, n as int, staged_cold@);
                    reveal(closed_group);
                    journal::lemma_rolled_back_custody(
                        gathered.rollback@,
                        g,
                        self@,
                        staged_cold@,
                    );
                    journal::lemma_owned_alike(
                        journal::rolled_back(Some(gathered.rollback@), staged_cold@, self@),
                        g,
                    );
                    assert(retry::is_roomy(self@, n - i + 1));
                }
                self.remove_staged_cold(&staged_cold);
                gathered.rollback.restore(self);
                return Err(e);
            }
            proof {
                assert(gathered.stands_for(self@) =~= grouped(
                    st,
                    views[i as int],
                    staged_cold@,
                ));
            }
        }
        proof {
            journal::lemma_rolled_back_custody(gathered.rollback@, g, self@, staged_cold@);
            journal::lemma_owned_alike(
                journal::rolled_back(Some(gathered.rollback@), staged_cold@, self@),
                g,
            );
            reveal(closed_group);
        }
        self.close_group(gathered, base_generation, &base, &cells, &stand_down, staged_cold)
    }

    pub fn admit_journaled_batch(&mut self, facts: Vec<SignedFact>) -> (r: Result<
        AggregateAdmissionJournal,
        SemanticError,
    >)
        requires
            quarantine::owned(old(self)@),
            retry::is_roomy(old(self)@, facts@.len() as int + 2),
        ensures
            final(self)@ == batched(old(self)@, cold::facts_view(facts@), Seq::empty()).0,
            aggregate_view(r) == batched(
                old(self)@,
                cold::facts_view(facts@),
                Seq::empty(),
            ).1,
            quarantine::owned(final(self)@),
    {
        let none: Vec<SignedFact> = Vec::new();
        assert(cold::facts_view(none@) =~= Seq::<FactView>::empty());
        self.admit_journaled_batch_with_history(facts, none)
    }
}

/// The settled rows bring no projection.
proof fn lemma_settled_rows(
    g: GraphView,
    rb: RollbackView,
    rec: RecordView,
    ids: Seq<FactId>,
    n: int,
)
    ensures
        settled_rows(g, rb, rec, ids, n).projection == rec.projection,
    decreases n,
{
    if n > 0 {
        lemma_settled_rows(g, rb, rec, ids, n - 1);
    }
}

impl AggregateAdmissionJournal {
    pub fn results(&self) -> (r: &Vec<AggregateAdmissionResult>)
        ensures
            items_view(r@) == self@.results,
    {
        &self.results
    }

    pub fn delta(&self) -> (r: &SemanticDelta)
        ensures
            r@ == self@.delta,
    {
        &self.delta
    }

    /// Keeps the mutations.
    pub fn commit(self, graph: &mut FactGraph)
        requires
            self@.staged.len() > 0 ==> cold::can_retire(old(graph)@),
        ensures
            final(graph)@ == journal::committed(self@.staged, old(graph)@),
    {
        if self.staged_cold.len() > 0 {
            graph.retire_cold_history();
        }
    }

    /// Puts the graph back to what it was before the group.
    pub fn rollback(self, graph: &mut FactGraph)
        requires
            self@.staged.len() > 0 ==> old(graph)@.fence.facts_revision < u64::MAX,
        ensures
            final(graph)@ == journal::rolled_back(
                Some(self@.rollback),
                self@.staged,
                old(graph)@,
            ),
    {
        graph.remove_staged_cold(&self.staged_cold);
        self.rollback.restore(graph);
    }
}

} // verus!

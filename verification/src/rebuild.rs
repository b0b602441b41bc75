//! Rebuilding derived state from facts, and the graph that a candidate sees.

use vstd::prelude::*;

use crate::accounting;
use crate::causal_order;
use crate::causal_order::order_causally;
use crate::content::FactBody;
use crate::device::DeviceId;
use crate::error::SemanticError;
use crate::fact::{dependencies, Facts, FactView, SignedFact};
use crate::graph;
use crate::graph::{
    Fence, FactGraph, GraphView, IndexView, Indexes, LedgerView, QuarantineView, RowView, Selection,
};
use crate::ids::FactId;
use crate::index;
use crate::multimap::{keep_only, overwrite};
use crate::order;
use crate::ordmap::OrdMap;
use crate::ordset;
use crate::ordset::{holds, Duplicate, OrdSet};
use crate::policy::SemanticAdmissionPolicy;
use crate::provenance;
use crate::reach;
use crate::reach::{walk_all, InputEdges};
use crate::sums;

verus! {

/// Whether a fact can be measured.
pub open spec fn measurable(f: FactView) -> bool {
    f.checked.encoded_bytes is Some && accounting::edges_of(f) <= u64::MAX
}

/// The encoded bytes of a fact.
pub open spec fn bytes_of(f: FactView) -> nat {
    match f.checked.encoded_bytes {
        Some(n) => n as nat,
        None => 0,
    }
}

/// The encoded bytes of all facts.
pub open spec fn sum_bytes(facts: Facts) -> nat {
    sums::sum(facts.dom(), |id: FactId| bytes_of(facts[id]))
}

/// The dependency edges of all facts.
pub open spec fn sum_edges(facts: Facts) -> nat {
    sums::sum(facts.dom(), |id: FactId| accounting::edges_of(facts[id]))
}

/// The bytes and edges of all facts, where they can be measured.
pub open spec fn totals(facts: Facts) -> Option<(u64, u64)> {
    if (forall|id: FactId| #[trigger] facts.contains_key(id) ==> measurable(facts[id])) && sum_bytes(
        facts,
    ) <= u64::MAX && sum_edges(facts) <= u64::MAX {
        Some((sum_bytes(facts) as u64, sum_edges(facts) as u64))
    } else {
        None
    }
}

/// The typed selectors among the facts, in order.
pub open spec fn selector_ids(facts: Facts) -> Seq<FactId> {
    order::ascending(facts.dom().filter(|id: FactId| facts[id].is_selector()))
}

/// The graph with changed provenance rows.
pub open spec fn with_rows(g: GraphView, rows: Map<FactId, RowView>) -> GraphView {
    GraphView {
        index: IndexView { provenance: g.index.provenance.union_prefer_right(rows), ..g.index },
        ..g
    }
}

/// The graph after the provenance of the first `n` facts is entered, where it
/// can be planned.
pub open spec fn with_planned(g: GraphView, ids: Seq<FactId>, n: int) -> GraphView
    decreases n,
{
    if n <= 0 {
        g
    } else {
        let before = with_planned(g, ids, n - 1);
        match provenance::planned(before, before.facts[ids[n - 1]]) {
            Ok(rows) => with_rows(before, rows),
            Err(_) => before,
        }
    }
}

/// The graph after the provenance of the first `n` facts is entered, or why
/// it cannot be.
pub open spec fn with_all_planned(g: GraphView, ids: Seq<FactId>, n: int) -> Result<
    GraphView,
    SemanticError,
>
    decreases n,
{
    if n <= 0 {
        Ok(g)
    } else {
        match with_all_planned(g, ids, n - 1) {
            Err(e) => Err(e),
            Ok(before) => match provenance::planned(before, before.facts[ids[n - 1]]) {
                Ok(rows) => Ok(with_rows(before, rows)),
                Err(e) => Err(e),
            },
        }
    }
}

/// The indexes of the facts alone, without provenance.
pub open spec fn fresh_index(facts: Facts) -> IndexView {
    index::with_heads_of(
        index::with_metadata_of(graph::no_index(), facts, order::ascending(facts.dom())),
        facts,
        causal_order::causal_order(facts),
    )
}

/// The selections whose selector is resident; emptied subjects leave.
pub open spec fn resident_selections(
    selectors: Map<DeviceId, Set<Selection>>,
    facts: Facts,
) -> Map<DeviceId, Set<Selection>> {
    Map::new(
        |d: DeviceId|
            selectors.contains_key(d) && exists|s: Selection| #[trigger]
                selectors[d].contains(s) && facts.contains_key(s.selector),
        |d: DeviceId| selectors[d].filter(|s: Selection| facts.contains_key(s.selector)),
    )
}

/// The indexes of the resident part of a larger history: heads and provenance
/// stay as they were.
pub open spec fn cold_index(ix: IndexView, facts: Facts) -> IndexView {
    IndexView {
        provenance: ix.provenance.restrict(facts.dom()),
        authority_heads: ix.authority_heads,
        cell_heads: ix.cell_heads,
        selectors: resident_selections(ix.selectors, facts),
        ..fresh_index(facts)
    }
}

/// The indexes that a rebuild gives.
pub open spec fn rebuilt_index(g: GraphView) -> IndexView {
    if !g.is_complete() {
        cold_index(g.index, g.facts)
    } else {
        let ids = selector_ids(g.facts);
        with_planned(
            GraphView { index: fresh_index(g.facts), ..g },
            ids,
            ids.len() as int,
        ).index
    }
}

/// The graph after a rebuild.
#[verifier::opaque]
pub open spec fn rebuilt(g: GraphView) -> GraphView {
    let ix = rebuilt_index(g);
    let (bytes, edges, held_bytes, held_edges) = match (
        totals(g.facts),
        totals(g.quarantine.facts),
    ) {
        (Some(a), Some(q)) => (a.0, a.1, q.0, q.1),
        _ => (u64::MAX, u64::MAX, u64::MAX, u64::MAX),
    };
    GraphView {
        order: causal_order::causal_order(g.facts),
        index: ix,
        fence: Fence {
            indexed_fact_count: g.facts.dom().len() as usize,
            indexed_revision: g.fence.facts_revision,
            ..g.fence
        },
        ledger: LedgerView {
            fact_count: g.facts.dom().len() as u64,
            bytes,
            edges,
            index_bytes: if accounting::residency(ix) <= u64::MAX {
                accounting::residency(ix) as u64
            } else {
                u64::MAX
            },
            ..g.ledger
        },
        quarantine: QuarantineView { bytes: held_bytes, edges: held_edges, ..g.quarantine },
        cache: None,
        ..g
    }
}

/// The graph with current indexes.
pub open spec fn ensured(g: GraphView) -> GraphView {
    if g.indexes_current() {
        g
    } else {
        rebuilt(g)
    }
}

/// Whether a role operation carries every head that bears on it.
pub open spec fn carries_current_heads(g: GraphView, f: FactView) -> bool {
    &&& g.indexes_current()
    &&& f.content.body is RoleGrant || f.content.body is RoleRevoke
    &&& forall|c: crate::content::ExclusiveCell, h: FactId|
        f.advances(c) && #[trigger] g.reading().raw_heads(c).contains(h)
            ==> f.content.parents.contains(h)
    &&& forall|s: DeviceId, h: FactId|
        f.content.body.subjects(f.content.author).contains(s)
            && #[trigger] g.reading().authority_heads(s).contains(h) ==> f.content.parents.contains(
            h,
        )
}

/// The closed part of a graph behind a fact, as a graph of its own.
pub open spec fn scoped(g: GraphView, ids: Set<FactId>) -> GraphView {
    rebuilt(GraphView { facts: g.facts.restrict(ids), ..graph::started(g.setting) })
}

/// The closed part of a graph behind a fact, with its provenance planned
/// within the limits.
pub open spec fn scoped_whole(g: GraphView, ids: Set<FactId>) -> Result<GraphView, SemanticError> {
    let part = scoped(g, ids);
    let selectors = selector_ids(part.facts);
    match with_all_planned(part, selectors, selectors.len() as int) {
        Err(e) => Err(e),
        Ok(whole) => match accounting::fits(g.setting.limits, accounting::residency(whole.index)) {
            Err(e) => Err(e),
            Ok(bytes) => Ok(
                GraphView {
                    ledger: LedgerView { index_bytes: bytes, ..whole.ledger },
                    ..whole
                },
            ),
        },
    }
}

/// The exact graph visible to a candidate fact: what it builds on, and nothing
/// else that reached the graph.  Where that history was retired, a role
/// operation that carries every head that bears on it is seen by the heads.
#[verifier::opaque]
pub open spec fn causal_view(g: GraphView, f: FactView) -> Result<GraphView, SemanticError> {
    match reach::walk(reach::input_edges(g.facts), f.dependencies(), Set::empty()) {
        Err(x) => if carries_current_heads(g, f) {
            Ok(g)
        } else {
            Err(SemanticError::MissingParent(x))
        },
        Ok(ids) => if ids.len() == g.facts.dom().len() {
            Ok(g)
        } else {
            scoped_whole(g, ids)
        },
    }
}

impl SemanticAdmissionPolicy {
    /// The bytes and edges of all facts, where they can be measured.
    fn reconciled_totals(&self, facts: &OrdMap<FactId, SignedFact>) -> (r: Option<(u64, u64)>)
        ensures
            r == totals(facts@),
    {
        let ids = facts.keys();
        let n: usize = ids.len();
        let mut bytes: u64 = 0;
        let mut edges: u64 = 0;
        let ghost fb = |id: FactId| bytes_of(facts@[id]);
        let ghost fe = |id: FactId| accounting::edges_of(facts@[id]);
        assert(ids@.take(0).to_set() =~= Set::<FactId>::empty());
        for i in 0..n
            invariant
                n == ids@.len(),
                ids@.no_duplicates(),
                ids@.to_set() == facts@.dom(),
                facts@.dom().finite(),
                forall|k: FactId| #[trigger] ids@.contains(k) <==> facts@.contains_key(k),
                fb == (|id: FactId| bytes_of(facts@[id])),
                fe == (|id: FactId| accounting::edges_of(facts@[id])),
                bytes == sums::sum(ids@.take(i as int).to_set(), fb),
                edges == sums::sum(ids@.take(i as int).to_set(), fe),
                forall|j: int| 0 <= j < i ==> measurable(facts@[#[trigger] ids@[j]]),
        {
            let ghost done = ids@.take(i as int).to_set();
            let ghost key = ids@[i as int];
            proof {
                assert(ids@.contains(key));
                ordset::lemma_next_is_new(ids@, i as int);
                sums::lemma_sum_insert(done, fb, key);
                sums::lemma_sum_insert(done, fe, key);
                sums::lemma_sum_subset(done.insert(key), facts@.dom(), fb);
                sums::lemma_sum_subset(done.insert(key), facts@.dom(), fe);
            }
            let (b, e) = match self.fact_encoded_and_edges(facts.value(&ids[i])) {
                Ok(m) => m,
                Err(_) => {
                    assert(!measurable(facts@[key]));
                    return None;
                },
            };
            assert(measurable(facts@[key]));
            bytes = match bytes.checked_add(b) {
                Some(t) => t,
                None => {
                    return None;
                },
            };
            edges = match edges.checked_add(e) {
                Some(t) => t,
                None => {
                    return None;
                },
            };
        }
        proof {
            assert(ids@.take(n as int) =~= ids@);
            assert forall|id: FactId| #[trigger] facts@.contains_key(id) implies measurable(
                facts@[id],
            ) by {
                assert(ids@.contains(id));
                let j = choose|j: int| 0 <= j < ids@.len() && ids@[j] == id;
                assert(measurable(facts@[ids@[j]]));
            }
        }
        Some((bytes, edges))
    }
}

/// The typed selectors among the facts, in order.
fn list_selectors(facts: &OrdMap<FactId, SignedFact>) -> (r: Vec<FactId>)
    ensures
        r@ == selector_ids(facts@),
        forall|id: FactId| #[trigger] r@.contains(id) ==> facts@.contains_key(id),
{
    let ids = facts.keys();
    let n: usize = ids.len();
    let mut r: OrdSet<FactId> = OrdSet::new();
    let ghost keep = |id: FactId| facts@[id].is_selector();
    assert(ids@.take(0).to_set() =~= Set::<FactId>::empty());
    assert(r@ =~= ids@.take(0).to_set().filter(keep));
    for i in 0..n
        invariant
            n == ids@.len(),
            forall|k: FactId| #[trigger] ids@.contains(k) <==> facts@.contains_key(k),
            keep == (|id: FactId| facts@[id].is_selector()),
            r@ == ids@.take(i as int).to_set().filter(keep),
    {
        assert(ids@.contains(ids@[i as int]));
        if let FactBody::AuthorityLineageResolution { .. } = &facts.value(&ids[i]).content.body {
            r.insert(ids[i]);
        }
        proof {
            ordset::lemma_take_set(ids@, i as int);
            assert(r@ =~= ids@.take(i + 1).to_set().filter(keep));
        }
    }
    proof {
        assert(ids@.take(n as int) =~= ids@);
        assert(r@ =~= facts@.dom().filter(|id: FactId| facts@[id].is_selector()));
    }
    r.to_vec()
}

/// Drops the selections whose selector is not resident.
fn keep_resident_selections(
    selectors: &OrdMap<DeviceId, OrdSet<Selection>>,
    facts: &OrdMap<FactId, SignedFact>,
) -> (r: OrdMap<DeviceId, OrdSet<Selection>>)
    ensures
        r@ == resident_selections(selectors@, facts@),
{
    let subjects = selectors.keys();
    let n: usize = subjects.len();
    let mut r: OrdMap<DeviceId, OrdSet<Selection>> = OrdMap::new();
    assert(subjects@.take(0).to_set() =~= Set::<DeviceId>::empty());
    assert(r@ =~= resident_selections(
        selectors@.restrict(subjects@.take(0).to_set()),
        facts@,
    ));
    for i in 0..n
        invariant
            n == subjects@.len(),
            forall|k: DeviceId| #[trigger]
                subjects@.contains(k) <==> selectors@.contains_key(k),
            r@ == resident_selections(
                selectors@.restrict(subjects@.take(i as int).to_set()),
                facts@,
            ),
    {
        assert(subjects@.contains(subjects@[i as int]));
        let list = selectors.value(&subjects[i]).to_vec();
        let m: usize = list.len();
        let mut kept: OrdSet<Selection> = OrdSet::new();
        let ghost keep = |s: Selection| facts@.contains_key(s.selector);
        assert(list@.take(0).to_set() =~= Set::<Selection>::empty());
        assert(kept@ =~= list@.take(0).to_set().filter(keep));
        for j in 0..m
            invariant
                m == list@.len(),
                keep == (|s: Selection| facts@.contains_key(s.selector)),
                kept@ == list@.take(j as int).to_set().filter(keep),
        {
            if facts.contains_key(&list[j].selector) {
                kept.insert(list[j]);
            }
            proof {
                ordset::lemma_take_set(list@, j as int);
                assert(kept@ =~= list@.take(j + 1).to_set().filter(keep));
            }
        }
        assert(list@.take(m as int) =~= list@);
        let ghost d = subjects@[i as int];
        proof {
            assert(kept@ =~= selectors@[d].filter(keep));
            assert(kept@ == Set::<Selection>::empty() <==> !exists|s: Selection| #[trigger]
                selectors@[d].contains(s) && facts@.contains_key(s.selector)) by {
                if exists|s: Selection| #[trigger]
                    selectors@[d].contains(s) && facts@.contains_key(s.selector) {
                    let s = choose|s: Selection| #[trigger]
                        selectors@[d].contains(s) && facts@.contains_key(s.selector);
                    assert(kept@.contains(s));
                } else {
                    assert(kept@ =~= Set::<Selection>::empty());
                }
            }
        }
        let ghost before = r@;
        if !kept.is_empty() {
            r.insert(subjects[i], kept);
        }
        proof {
            ordset::lemma_take_set(subjects@, i as int);
            let small = selectors@.restrict(subjects@.take(i as int).to_set());
            let big = selectors@.restrict(subjects@.take(i + 1).to_set());
            let want = resident_selections(big, facts@);
            assert forall|x: DeviceId| #[trigger] r@.contains_key(x) <==> want.contains_key(x) by {
                if x != d {
                    assert(small.contains_key(x) <==> big.contains_key(x));
                    if small.contains_key(x) {
                        assert(small[x] == big[x]);
                    }
                } else {
                    assert(big[d] == selectors@[d]);
                }
            }
            assert(r@ =~= want);
        }
    }
    proof {
        assert(subjects@.take(n as int) =~= subjects@);
        assert(selectors@.restrict(subjects@.to_set()) =~= selectors@);
    }
    r
}

impl FactGraph {
    /// Enters the provenance of every typed selector that can be planned.
    fn plan_selectors(&mut self)
        ensures
            final(self)@ == with_planned(
                old(self)@,
                selector_ids(old(self)@.facts),
                selector_ids(old(self)@.facts).len() as int,
            ),
    {
        let selectors = list_selectors(&self.facts);
        let n: usize = selectors.len();
        let ghost start = self@;
        for i in 0..n
            invariant
                n == selectors@.len(),
                forall|id: FactId| #[trigger]
                    selectors@.contains(id) ==> start.facts.contains_key(id),
                self@.facts == start.facts,
                self@ == with_planned(start, selectors@, i as int),
        {
            assert(selectors@.contains(selectors@[i as int]));
            let ghost before = self@;
            let plan = self.planned_provenance(self.facts.value(&selectors[i]));
            if let Ok(rows) = plan {
                overwrite(&mut self.index.provenance, &rows);
                assert(self@ =~= with_rows(before, rows@));
            }
        }
    }

    /// Rebuild derived indexes in deterministic causal order.  Loaders and
    /// compaction may populate the durable map directly; those paths never
    /// get to make an index authoritative without this repair step.
    pub fn rebuild_indexes(&mut self)
        ensures
            final(self)@ == rebuilt(old(self)@),
    {
        proof {
            reveal(rebuilt);
        }
        let ghost g = self@;
        let preserve_cold = self.ledger.fact_count > self.facts.len() as u64;
        let mut fresh = Indexes::new();
        let ids = self.facts.keys();
        fresh.index_metadata_of(&self.facts, &ids);
        let ordered = order_causally(&self.facts);
        fresh.index_heads_of(&self.facts, &ordered);
        assert(fresh@ == fresh_index(g.facts));
        let mut prior = Indexes::new();
        std::mem::swap(&mut self.index, &mut prior);
        if preserve_cold {
            let selectors = keep_resident_selections(&prior.selectors, &self.facts);
            let mut rows = OrdMap::new();
            std::mem::swap(&mut rows, &mut prior.provenance);
            let resident = OrdSet::from_vec(&ids);
            keep_only(&mut rows, &resident);
            fresh.provenance = rows;
            fresh.authority_heads = prior.authority_heads;
            fresh.cell_heads = prior.cell_heads;
            fresh.selectors = selectors;
            self.index = fresh;
            assert(self@.index =~= rebuilt_index(g));
        } else {
            // Complete direct-loader graphs reconstruct provenance solely from
            // signed ancestry. No preexisting cache can bless a changed body.
            self.index = fresh;
            assert(self@ =~= (GraphView { index: fresh_index(g.facts), ..g }));
            self.plan_selectors();
            proof {
                let ids = selector_ids(g.facts);
                lemma_with_planned_frame(
                    GraphView { index: fresh_index(g.facts), ..g },
                    ids,
                    ids.len() as int,
                );
            }
        }
        self.order = ordered;
        self.fence.indexed_fact_count = self.facts.len();
        self.fence.indexed_revision = self.fence.facts_revision;
        self.ledger.fact_count = self.facts.len() as u64;
        // The maps are derived from the canonical fact set.  Reconcile the
        // scalar ownership ledger at the same boundary.  An overflow poisons
        // the scalars with the closed sentinel; the next checked admission
        // then refuses instead of silently underfunding the graph.
        let limits = self.setting.limits;
        match (
            limits.reconciled_totals(&self.facts),
            limits.reconciled_totals(&self.quarantine.facts),
        ) {
            (Some(admitted), Some(held)) => {
                self.ledger.bytes = admitted.0;
                self.ledger.edges = admitted.1;
                self.quarantine.bytes = held.0;
                self.quarantine.edges = held.1;
            },
            _ => {
                self.ledger.bytes = u64::MAX;
                self.ledger.edges = u64::MAX;
                self.quarantine.bytes = u64::MAX;
                self.quarantine.edges = u64::MAX;
            },
        }
        self.ledger.index_bytes = match limits.logical_index_residency_bytes(&self.index) {
            Ok(n) => n,
            Err(_) => u64::MAX,
        };
        self.cache = None;
        assert(self@ =~= rebuilt(g));
    }

    pub fn ensure_indexes_current(&mut self)
        ensures
            final(self)@ == ensured(old(self)@),
            final(self)@.indexes_current(),
    {
        if !self.indexes_current() {
            let _ = self.facts.len();
            proof {
                lemma_rebuilt_frame(self@);
            }
            self.rebuild_indexes();
        }
    }

    /// Enters the provenance of every typed selector, and measures it.
    fn rebuild_provenance_checked(&mut self) -> (r: Result<(), SemanticError>)
        ensures
            ({
                let ids = selector_ids(old(self)@.facts);
                match with_all_planned(old(self)@, ids, ids.len() as int) {
                    Err(e) => r == Err::<(), SemanticError>(e),
                    Ok(whole) => match accounting::fits(
                        old(self)@.setting.limits,
                        accounting::residency(whole.index),
                    ) {
                        Err(e) => r == Err::<(), SemanticError>(e),
                        Ok(bytes) => r == Ok::<(), SemanticError>(()) && final(self)@ == (
                        GraphView {
                            ledger: LedgerView { index_bytes: bytes, ..whole.ledger },
                            ..whole
                        }),
                    },
                }
            }),
    {
        let selectors = list_selectors(&self.facts);
        let n: usize = selectors.len();
        let ghost start = self@;
        let ghost whole = with_all_planned(start, selectors@, n as int);
        for i in 0..n
            invariant
                n == selectors@.len(),
                forall|id: FactId| #[trigger]
                    selectors@.contains(id) ==> start.facts.contains_key(id),
                self@.facts == start.facts,
                self@.setting == start.setting,
                start == old(self)@,
                selectors@ == selector_ids(start.facts),
                with_all_planned(start, selectors@, i as int) == Ok::<GraphView, SemanticError>(
                    self@,
                ),
                whole == with_all_planned(start, selectors@, n as int),
        {
            assert(selectors@.contains(selectors@[i as int]));
            let ghost before = self@;
            match self.planned_provenance(self.facts.value(&selectors[i])) {
                Ok(rows) => {
                    overwrite(&mut self.index.provenance, &rows);
                    assert(self@ =~= with_rows(before, rows@));
                },
                Err(e) => {
                    proof {
                        lemma_all_planned_err(start, selectors@, i + 1, n as int);
                    }
                    return Err(e);
                },
            }
        }
        let ghost planned = self@;
        match self.setting.limits.logical_index_residency_bytes(&self.index) {
            Ok(bytes) => {
                self.ledger.index_bytes = bytes;
                assert(self@ =~= (GraphView {
                    ledger: LedgerView { index_bytes: bytes, ..planned.ledger },
                    ..planned
                }));
                Ok(())
            },
            Err(e) => Err(e),
        }
    }

    /// Whether a normal current-head role operation carries every indexed
    /// head that can affect its authority or exclusive cell.
    pub fn current_heads_are_complete(&self, fact: &SignedFact) -> (r: bool)
        ensures
            r == carries_current_heads(self@, fact@),
    {
        if !self.indexes_current() {
            return false;
        }
        match &fact.content.body {
            FactBody::RoleGrant { .. } | FactBody::RoleRevoke { .. } => {},
            _ => {
                return false;
            },
        }
        let ghost g = self@.reading();
        let parents = &fact.content.parents;
        let cells = fact.content.body.exclusive_cells();
        let n: usize = cells.len();
        for i in 0..n
            invariant
                n == cells@.len(),
                g == self@.reading(),
                cells@ == fact@.content.body.cells(),
                parents == &fact.content.parents,
                forall|j: int, h: FactId|
                    0 <= j < i && #[trigger] g.raw_heads(cells@[j]).contains(h)
                        ==> parents@.contains(h),
        {
            let heads = self.raw_cell_heads(&cells[i]);
            match outsider(&heads, parents) {
                Some(h) => {
                    proof {
                        assert(heads@.to_set().contains(h));
                        assert(fact@.advances(cells@[i as int])) by {
                            assert(cells@.contains(cells@[i as int]));
                        }
                        assert(g.raw_heads(cells@[i as int]).contains(h));
                    }
                    return false;
                },
                None => {
                    assert forall|h: FactId| #[trigger]
                        g.raw_heads(cells@[i as int]).contains(h) implies parents@.contains(h) by {
                        assert(heads@.to_set().contains(h));
                        assert(heads@.contains(h));
                    }
                },
            }
        }
        let subjects = fact.content.body.authority_use_subjects(&fact.content.author);
        let m: usize = subjects.len();
        for i in 0..m
            invariant
                m == subjects@.len(),
                g == self@.reading(),
                forall|d: DeviceId| #[trigger]
                    subjects@.contains(d) <==> fact@.content.body.subjects(
                        fact@.content.author,
                    ).contains(d),
                parents == &fact.content.parents,
                forall|j: int, h: FactId|
                    0 <= j < i && #[trigger] g.authority_heads(subjects@[j]).contains(h)
                        ==> parents@.contains(h),
        {
            let heads = self.raw_authority_use_heads(&subjects[i]);
            match outsider(&heads, parents) {
                Some(h) => {
                    proof {
                        assert(heads@.to_set().contains(h));
                        assert(subjects@.contains(subjects@[i as int]));
                        assert(g.authority_heads(subjects@[i as int]).contains(h));
                    }
                    return false;
                },
                None => {
                    assert forall|h: FactId| #[trigger]
                        g.authority_heads(subjects@[i as int]).contains(
                            h,
                        ) implies parents@.contains(h) by {
                        assert(heads@.to_set().contains(h));
                        assert(heads@.contains(h));
                    }
                },
            }
        }
        proof {
            assert forall|c: crate::content::ExclusiveCell, h: FactId|
                fact@.advances(c) && #[trigger] g.raw_heads(c).contains(
                    h,
                ) implies fact@.content.parents.contains(h) by {
                let j = choose|j: int| 0 <= j < cells@.len() && cells@[j] == c;
                assert(g.raw_heads(cells@[j]).contains(h));
            }
            assert forall|s: DeviceId, h: FactId|
                fact@.content.body.subjects(fact@.content.author).contains(s)
                    && #[trigger] g.authority_heads(s).contains(
                    h,
                ) implies fact@.content.parents.contains(h) by {
                assert(subjects@.contains(s));
                let j = choose|j: int| 0 <= j < subjects@.len() && subjects@[j] == s;
                assert(g.authority_heads(subjects@[j]).contains(h));
            }
        }
        true
    }

    /// Build the exact graph visible to a candidate fact.  Facts that merely
    /// arrived earlier in this process, but are not ancestors or explicitly
    /// cited evidence, are deliberately excluded from authorization and head
    /// resolution.
    pub fn causal_past<'a>(&'a self, fact: &SignedFact) -> (r: Result<
        CausalAdmissionGraph<'a>,
        SemanticError,
    >)
        ensures
            match r {
                Ok(c) => causal_view(self@, fact@) == Ok::<GraphView, SemanticError>(c@),
                Err(e) => causal_view(self@, fact@) == Err::<GraphView, SemanticError>(e),
            },
    {
        proof {
            reveal(causal_view);
        }
        let inputs = dependencies(fact);
        let edges = InputEdges { facts: &self.facts };
        let ids = match walk_all(&edges, &inputs) {
            Ok(ids) => ids,
            Err(x) => {
                // A role operation on retired history carries every indexed
                // head that can affect its authority or exclusive cell.
                if self.current_heads_are_complete(fact) {
                    return Ok(CausalAdmissionGraph::Full(self));
                }
                return Err(SemanticError::MissingParent(x));
            },
        };
        if ids.len() == self.facts.len() {
            return Ok(CausalAdmissionGraph::Full(self));
        }
        let mut causal = FactGraph::empty(self.setting.duplicate());
        let mut facts = self.facts.duplicate();
        keep_only(&mut facts, &ids);
        causal.facts = facts;
        assert(causal@ =~= (GraphView {
            facts: self@.facts.restrict(ids@),
            ..graph::started(self@.setting)
        }));
        causal.rebuild_indexes();
        proof {
            lemma_rebuilt_frame(
                GraphView { facts: self@.facts.restrict(ids@), ..graph::started(self@.setting) },
            );
        }
        // A provenance capacity failure is transactional, never an apparent
        // authorization denial that retry could terminally discard.
        match causal.rebuild_provenance_checked() {
            Ok(()) => Ok(CausalAdmissionGraph::Scoped(causal)),
            Err(e) => Err(e),
        }
    }
}

/// The first of `ids` that is not among `parents`.
fn outsider(ids: &Vec<FactId>, parents: &Vec<FactId>) -> (r: Option<FactId>)
    ensures
        match r {
            Some(id) => ids@.contains(id) && !parents@.contains(id),
            None => forall|id: FactId| #[trigger] ids@.contains(id) ==> parents@.contains(id),
        },
{
    let n: usize = ids.len();
    for i in 0..n
        invariant
            n == ids@.len(),
            forall|j: int| 0 <= j < i ==> parents@.contains(#[trigger] ids@[j]),
    {
        if !holds(parents, &ids[i]) {
            assert(ids@.contains(ids@[i as int]));
            return Some(ids[i]);
        }
    }
    None
}

/// Candidate-relative read view used during admission.  A candidate whose
/// causal closure already covers the admitted graph can borrow that graph
/// directly; unrelated candidates retain an owned, exact closure.
pub enum CausalAdmissionGraph<'a> {
    Full(&'a FactGraph),
    Scoped(FactGraph),
}

impl<'a> View for CausalAdmissionGraph<'a> {
    type V = GraphView;

    open spec fn view(&self) -> GraphView {
        match *self {
            CausalAdmissionGraph::Full(g) => g@,
            CausalAdmissionGraph::Scoped(g) => g@,
        }
    }
}

impl<'a> CausalAdmissionGraph<'a> {
    pub fn graph(&self) -> (r: &FactGraph)
        ensures
            r@ == self@,
    {
        match self {
            CausalAdmissionGraph::Full(g) => g,
            CausalAdmissionGraph::Scoped(g) => g,
        }
    }
}

proof fn lemma_with_planned_frame(g: GraphView, ids: Seq<FactId>, n: int)
    ensures
        with_planned(g, ids, n) == (GraphView { index: with_planned(g, ids, n).index, ..g }),
    decreases n,
{
    if n > 0 {
        lemma_with_planned_frame(g, ids, n - 1);
    }
}

proof fn lemma_all_planned_err(g: GraphView, ids: Seq<FactId>, i: int, n: int)
    requires
        0 <= i <= n,
        with_all_planned(g, ids, i) is Err,
    ensures
        with_all_planned(g, ids, n) == with_all_planned(g, ids, i),
    decreases n - i,
{
    if i < n {
        lemma_all_planned_err(g, ids, i, n - 1);
    }
}

/// What a rebuild leaves as it is.
pub proof fn lemma_rebuilt_frame(g: GraphView)
    ensures
        rebuilt(g).facts == g.facts,
        rebuilt(g).setting == g.setting,
        rebuilt(g).cache is None,
        rebuilt(g).index == rebuilt_index(g),
        rebuilt(g).quarantine.facts == g.quarantine.facts,
        rebuilt(g).quarantine.missing == g.quarantine.missing,
        rebuilt(g).quarantine.waiting == g.quarantine.waiting,
        rebuilt(g).quarantine.ready == g.quarantine.ready,
        rebuilt(g).quarantine.by_author == g.quarantine.by_author,
        rebuilt(g).ledger.retained == g.ledger.retained,
        rebuilt(g).fence == (Fence {
            indexed_fact_count: g.facts.dom().len() as usize,
            indexed_revision: g.fence.facts_revision,
            ..g.fence
        }),
{
    reveal(rebuilt);
}

} // verus!

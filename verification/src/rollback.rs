//! Sparse records of a graph, from which it can be restored.

use vstd::prelude::*;

use crate::capture;
use crate::capture::{adopt, note_all, put_back, Prior};
use crate::content::ExclusiveCell;
use crate::device::DeviceId;
use crate::fact::{dependencies, FactView, SignedFact};
use crate::graph;
use crate::graph::{
    Cached, CellProjection, CellView, FactGraph, Fence, GraphView, IndexView, LedgerView,
    Projection, ProjectionView, QuarantineView, Row, RowView, StandDown, Usage,
};
use crate::ids::FactId;
use crate::multimap;
use crate::multimap::list_at;
use crate::ordmap::OrdMap;
use crate::ordset;
use crate::ordset::{Duplicate, OrdSet};
use crate::projection;
use crate::reach;
use crate::reach::{reach_set, WaiterEdges};
use crate::rebuild;

verus! {

/// The owner-funded scalars of a graph.
#[derive(Debug, Clone, Copy, PartialEq, Eq, Structural)]
pub struct Totals {
    pub fact_count: u64,
    pub bytes: u64,
    pub index_bytes: u64,
    pub edges: u64,
    pub quarantined_bytes: u64,
    pub quarantined_edges: u64,
}

/// The scalars of a graph.
pub open spec fn totals_of(g: GraphView) -> Totals {
    Totals {
        fact_count: g.ledger.fact_count,
        bytes: g.ledger.bytes,
        index_bytes: g.ledger.index_bytes,
        edges: g.ledger.edges,
        quarantined_bytes: g.quarantine.bytes,
        quarantined_edges: g.quarantine.edges,
    }
}

/// The graph with other scalars.
pub open spec fn with_totals(g: GraphView, t: Totals) -> GraphView {
    GraphView {
        ledger: LedgerView {
            fact_count: t.fact_count,
            bytes: t.bytes,
            index_bytes: t.index_bytes,
            edges: t.edges,
            ..g.ledger
        },
        quarantine: QuarantineView {
            bytes: t.quarantined_bytes,
            edges: t.quarantined_edges,
            ..g.quarantine
        },
        ..g
    }
}

/// What is on record of a set: which keys were looked at, and which of them
/// it held.
#[verifier::ext_equal]
pub struct MembersView {
    pub known: Set<FactId>,
    pub held: Set<FactId>,
}

/// What is on record of a set of identifiers.
#[derive(Debug, PartialEq, Eq)]
pub struct Members {
    pub known: OrdSet<FactId>,
    pub held: OrdSet<FactId>,
}

impl View for Members {
    type V = MembersView;

    open spec fn view(&self) -> MembersView {
        MembersView { known: self.known@, held: self.held@ }
    }
}

/// The record after what `set` holds of `keys` is noted.
pub open spec fn noted_members(m: MembersView, set: Set<FactId>, keys: Set<FactId>) -> MembersView {
    MembersView {
        known: m.known.union(keys),
        held: m.held.union(keys.difference(m.known).intersect(set)),
    }
}

/// The set with the recorded keys as recorded.
pub open spec fn restored_members(set: Set<FactId>, m: MembersView) -> Set<FactId> {
    set.difference(m.known).union(m.held)
}

/// The keys whose state is to be recorded.
#[verifier::ext_equal]
pub struct ScopeView {
    pub ids: Set<FactId>,
    pub dependencies: Set<FactId>,
    pub authors: Set<DeviceId>,
}

impl ScopeView {
    /// The keys of both.
    pub open spec fn and(self, other: ScopeView) -> ScopeView {
        ScopeView {
            ids: self.ids.union(other.ids),
            dependencies: self.dependencies.union(other.dependencies),
            authors: self.authors.union(other.authors),
        }
    }
}

/// The keys whose state is to be recorded.
pub struct Scope {
    pub ids: OrdSet<FactId>,
    pub dependencies: OrdSet<FactId>,
    pub authors: OrdSet<DeviceId>,
}

impl View for Scope {
    type V = ScopeView;

    open spec fn view(&self) -> ScopeView {
        ScopeView {
            ids: self.ids@,
            dependencies: self.dependencies@,
            authors: self.authors@,
        }
    }
}

/// No keys.
pub open spec fn no_scope() -> ScopeView {
    ScopeView { ids: Set::empty(), dependencies: Set::empty(), authors: Set::empty() }
}

/// The fact that the graph holds under `id`, admitted or not.
pub open spec fn stored(g: GraphView, id: FactId) -> Option<FactView> {
    if g.facts.contains_key(id) {
        Some(g.facts[id])
    } else if g.quarantine.facts.contains_key(id) {
        Some(g.quarantine.facts[id])
    } else {
        None
    }
}

/// The authors of the facts that wait for one of `ids`.
pub open spec fn waiting_authors(g: GraphView, ids: Set<FactId>) -> Set<DeviceId> {
    Set::new(
        |a: DeviceId|
            exists|w: FactId|
                #![trigger waiters_of(g, ids).contains(w)]
                waiters_of(g, ids).contains(w) && g.quarantine.facts.contains_key(w)
                    && g.quarantine.facts[w].content.author == a,
    )
}

/// What waits for one of `ids`.
pub open spec fn waiters_of(g: GraphView, ids: Set<FactId>) -> Set<FactId> {
    Set::new(
        |w: FactId|
            exists|d: FactId| #[trigger]
                ids.contains(d) && multimap::at(g.quarantine.waiting, d).contains(w),
    )
}

/// The dependencies `ids`, with what waits for them.
pub open spec fn scope_dependencies(g: GraphView, ids: Set<FactId>) -> ScopeView {
    ScopeView {
        ids: waiters_of(g, ids),
        dependencies: ids,
        authors: waiting_authors(g, ids),
    }
}

/// The authors of the facts that the graph holds under `ids`.
pub open spec fn authors_of(g: GraphView, ids: Set<FactId>) -> Set<DeviceId> {
    Set::new(
        |a: DeviceId|
            exists|id: FactId| #[trigger]
                ids.contains(id) && ((g.facts.contains_key(id) && g.facts[id].content.author == a)
                    || (g.quarantine.facts.contains_key(id) && g.quarantine.facts[id].content.author
                    == a)),
    )
}

/// What can change when one of `ids` becomes available.
pub open spec fn closure(g: GraphView, seeds: Set<FactId>) -> Set<FactId> {
    reach::reach(reach::waiter_edges(g.quarantine.waiting), seeds)
}

/// What can change when one of `ids` becomes available.
pub open spec fn scope_closure(g: GraphView, seeds: Set<FactId>) -> ScopeView {
    let ids = closure(g, seeds);
    ScopeView { ids, dependencies: Set::empty(), authors: authors_of(g, ids) }.and(
        scope_dependencies(g, ids),
    )
}

/// What admitting a fact can change.
pub open spec fn scope_admission(g: GraphView, f: FactView) -> ScopeView {
    ScopeView {
        ids: Set::empty().insert(f.id),
        dependencies: Set::empty(),
        authors: Set::empty().insert(f.content.author),
    }.and(scope_dependencies(g, f.inputs().insert(f.id)))
}

/// The facts whose index entries are to be recorded.
pub open spec fn indexed_facts(
    g: GraphView,
    ids: Set<FactId>,
    candidate: Option<FactView>,
) -> Set<FactView> {
    Set::new(
        |f: FactView|
            candidate == Some(f) || exists|id: FactId| #[trigger]
                ids.contains(id) && stored(g, id) == Some(f),
    )
}

/// The provenance rows that the facts can change.
pub open spec fn rows_touched(g: GraphView, facts: Set<FactView>) -> Set<FactId> {
    Set::new(
        |id: FactId|
            exists|f: FactView| #[trigger]
                facts.contains(f) && (f.id == id || ((g.fence.staged_cold_pending != 0
                    || f.is_selector()) && g.facts.contains_key(id))),
    )
}

/// The subjects whose heads the facts can change.
pub open spec fn subjects_touched(facts: Set<FactView>) -> Set<DeviceId> {
    Set::new(
        |s: DeviceId|
            exists|f: FactView| #[trigger]
                facts.contains(f) && f.content.body.subjects(f.content.author).contains(s),
    )
}

/// The cells whose heads the facts can change.
pub open spec fn cells_touched(facts: Set<FactView>) -> Set<ExclusiveCell> {
    Set::new(
        |c: ExclusiveCell|
            exists|f: FactView| #[trigger] facts.contains(f) && f.advances(c),
    )
}

/// What is on record of a graph.
#[verifier::ext_equal]
pub struct RollbackView {
    pub provenance: Map<FactId, Option<RowView>>,
    pub authority_heads: Map<DeviceId, Option<Set<FactId>>>,
    pub cell_heads: Map<ExclusiveCell, Option<Set<FactId>>>,
    pub facts: Map<FactId, Option<FactView>>,
    pub quarantined: Map<FactId, Option<FactView>>,
    pub missing: Map<FactId, Option<Set<FactId>>>,
    pub waiting: Map<FactId, Option<Set<FactId>>>,
    pub ready: MembersView,
    pub by_author: Map<DeviceId, Option<Usage>>,
    pub retained: Map<DeviceId, Option<Usage>>,
    pub totals: Totals,
    pub fence: Fence,
    pub order_len: nat,
    pub cache: Option<(u64, ProjectionView)>,
    pub full: Option<ProjectionView>,
    pub cells: Map<ExclusiveCell, Option<CellView>>,
    pub stand_down: Map<DeviceId, Option<FactId>>,
}

/// A sparse record of what a graph held before a mutation: the scalars, and
/// the entries that were captured before they could change.
#[derive(Debug, PartialEq, Eq)]
pub struct GraphRollback {
    pub provenance: OrdMap<FactId, Prior<Row>>,
    pub authority_heads: OrdMap<DeviceId, Prior<OrdSet<FactId>>>,
    pub cell_heads: OrdMap<ExclusiveCell, Prior<OrdSet<FactId>>>,
    pub facts: OrdMap<FactId, Prior<SignedFact>>,
    pub quarantined: OrdMap<FactId, Prior<SignedFact>>,
    pub missing: OrdMap<FactId, Prior<OrdSet<FactId>>>,
    pub waiting: OrdMap<FactId, Prior<OrdSet<FactId>>>,
    pub ready: Members,
    pub by_author: OrdMap<DeviceId, Prior<Usage>>,
    pub retained: OrdMap<DeviceId, Prior<Usage>>,
    pub totals: Totals,
    pub fence: Fence,
    pub order_len: usize,
    /// The projection that the cache held, against which a restored one is
    /// checked.
    pub cache: Option<Cached>,
    /// Cold-history hydration retains its complete pre-admission projection,
    /// so rollback does not have to reconstruct retired history from the
    /// bounded hot graph.
    pub full: Option<Projection>,
    pub cells: OrdMap<ExclusiveCell, Prior<CellProjection>>,
    pub stand_down: OrdMap<DeviceId, Prior<StandDown>>,
}

/// The view of a projection that may be there.
pub open spec fn full_view(full: Option<Projection>) -> Option<ProjectionView> {
    match full {
        Some(p) => Some(p@),
        None => None,
    }
}

impl View for GraphRollback {
    type V = RollbackView;

    open spec fn view(&self) -> RollbackView {
        RollbackView {
            provenance: self.provenance@,
            authority_heads: self.authority_heads@,
            cell_heads: self.cell_heads@,
            facts: self.facts@,
            quarantined: self.quarantined@,
            missing: self.missing@,
            waiting: self.waiting@,
            ready: self.ready@,
            by_author: self.by_author@,
            retained: self.retained@,
            totals: self.totals,
            fence: self.fence,
            order_len: self.order_len as nat,
            cache: graph::cache_view(self.cache),
            full: full_view(self.full),
            cells: self.cells@,
            stand_down: self.stand_down@,
        }
    }
}

/// A record of a graph's scalars alone.
pub open spec fn begun(g: GraphView) -> RollbackView {
    RollbackView {
        provenance: Map::empty(),
        authority_heads: Map::empty(),
        cell_heads: Map::empty(),
        facts: Map::empty(),
        quarantined: Map::empty(),
        missing: Map::empty(),
        waiting: Map::empty(),
        ready: MembersView { known: Set::empty(), held: Set::empty() },
        by_author: Map::empty(),
        retained: Map::empty(),
        totals: totals_of(g),
        fence: g.fence,
        order_len: g.order.len(),
        cache: g.cache,
        full: None,
        cells: Map::empty(),
        stand_down: Map::empty(),
    }
}

/// The record after the state of a scope, and of the index entries that its
/// facts and a candidate can change, is noted.
pub open spec fn captured(
    rb: RollbackView,
    g: GraphView,
    scope: ScopeView,
    candidate: Option<FactView>,
) -> RollbackView {
    let facts = indexed_facts(g, scope.ids, candidate);
    RollbackView {
        provenance: capture::noted_all(
            rb.provenance,
            g.index.provenance,
            rows_touched(g, facts),
        ),
        authority_heads: capture::noted_all(
            rb.authority_heads,
            g.index.authority_heads,
            subjects_touched(facts),
        ),
        cell_heads: capture::noted_all(
            rb.cell_heads,
            g.index.cell_heads,
            cells_touched(facts),
        ),
        facts: capture::noted_all(rb.facts, g.facts, scope.ids),
        quarantined: capture::noted_all(rb.quarantined, g.quarantine.facts, scope.ids),
        missing: capture::noted_all(rb.missing, g.quarantine.missing, scope.ids),
        ready: noted_members(rb.ready, g.quarantine.ready, scope.ids),
        waiting: capture::noted_all(rb.waiting, g.quarantine.waiting, scope.dependencies),
        by_author: capture::noted_all(rb.by_author, g.quarantine.by_author, scope.authors),
        retained: capture::noted_all(rb.retained, g.ledger.retained, scope.authors),
        ..rb
    }
}

/// A record in which the staged facts are absent.
pub open spec fn without_staged(rb: RollbackView, staged: Set<FactId>) -> RollbackView {
    RollbackView {
        facts: rb.facts.union_prefer_right(Map::new(|k: FactId| staged.contains(k), |k: FactId| None)),
        quarantined: rb.quarantined.union_prefer_right(
            Map::new(|k: FactId| staged.contains(k), |k: FactId| None),
        ),
        missing: rb.missing.union_prefer_right(
            Map::new(|k: FactId| staged.contains(k), |k: FactId| None),
        ),
        ready: MembersView {
            known: rb.ready.known.union(staged),
            held: rb.ready.held.difference(staged),
        },
        ..rb
    }
}

/// A record that also holds sampled entries of a projection.
pub open spec fn with_sparse(
    rb: RollbackView,
    cells: Map<ExclusiveCell, Option<CellView>>,
    stand_down: Map<DeviceId, Option<FactId>>,
) -> RollbackView {
    RollbackView {
        cells: cells.union_prefer_right(rb.cells),
        stand_down: stand_down.union_prefer_right(rb.stand_down),
        ..rb
    }
}

/// A record that also holds a complete projection.
pub open spec fn with_full(rb: RollbackView, generation: u64, p: ProjectionView) -> RollbackView {
    RollbackView {
        cache: match rb.cache {
            Some(c) => Some(c),
            None => Some((generation, p)),
        },
        full: Some(p),
        ..rb
    }
}

/// The graph with every recorded entry as recorded, before its indexes are
/// derived again.
pub open spec fn reverted(rb: RollbackView, g: GraphView) -> GraphView {
    with_totals(
        GraphView {
            facts: capture::restored(g.facts, rb.facts),
            order: Seq::empty(),
            index: IndexView {
                provenance: capture::restored(g.index.provenance, rb.provenance),
                authority_heads: capture::restored(g.index.authority_heads, rb.authority_heads),
                cell_heads: capture::restored(g.index.cell_heads, rb.cell_heads),
                ..g.index
            },
            quarantine: QuarantineView {
                facts: capture::restored(g.quarantine.facts, rb.quarantined),
                missing: capture::restored(g.quarantine.missing, rb.missing),
                waiting: capture::restored(g.quarantine.waiting, rb.waiting),
                ready: restored_members(g.quarantine.ready, rb.ready),
                by_author: capture::restored(g.quarantine.by_author, rb.by_author),
                ..g.quarantine
            },
            ledger: LedgerView {
                retained: capture::restored(g.ledger.retained, rb.retained),
                ..g.ledger
            },
            fence: Fence {
                generation: rb.fence.generation,
                facts_revision: rb.fence.facts_revision,
                ..g.fence
            },
            cache: None,
            ..g
        },
        rb.totals,
    )
}

/// The order up to the recorded length.
pub open spec fn cut(order: Seq<FactId>, len: nat) -> Seq<FactId> {
    if len <= order.len() {
        order.take(len as int)
    } else {
        order
    }
}

/// The restored graph without a projection.
pub open spec fn settled_back(rb: RollbackView, g: GraphView) -> GraphView {
    with_totals(
        GraphView {
            order: cut(g.order, rb.order_len),
            fence: rb.fence,
            ..rebuild::rebuilt(reverted(rb, g))
        },
        rb.totals,
    )
}

/// The projection that the record leaves, checked against the cached one.
pub open spec fn cache_back(rb: RollbackView, g: GraphView) -> Option<(u64, ProjectionView)> {
    match rb.cache {
        None => None,
        Some(c) => {
            let p = match g.cache {
                Some(now) => now.1,
                None => projection::projected(settled_back(rb, g).reading()),
            };
            let back = ProjectionView {
                cells: capture::restored(p.cells, rb.cells),
                stand_down: capture::restored(p.stand_down, rb.stand_down),
            };
            if back == c.1 {
                Some((c.0, back))
            } else {
                None
            }
        },
    }
}

/// The graph after a record of it is restored.
#[verifier::opaque]
pub open spec fn restored_graph(rb: RollbackView, g: GraphView) -> GraphView {
    let back = settled_back(rb, g);
    match rb.full {
        Some(p) => GraphView {
            fence: Fence {
                indexed_fact_count: back.facts.dom().len() as usize,
                indexed_revision: back.fence.facts_revision,
                ..back.fence
            },
            cache: Some((rb.fence.generation, p)),
            ..back
        },
        None => GraphView { cache: cache_back(rb, g), ..back },
    }
}

proof fn lemma_touched_union(
    g: GraphView,
    a: Set<FactView>,
    b: Set<FactView>,
    both: Set<FactView>,
)
    requires
        forall|f: FactView| #[trigger] both.contains(f) <==> a.contains(f) || b.contains(f),
    ensures
        rows_touched(g, both) == rows_touched(g, a).union(rows_touched(g, b)),
        subjects_touched(both) == subjects_touched(a).union(subjects_touched(b)),
        cells_touched(both) == cells_touched(a).union(cells_touched(b)),
{
    assert(both =~= a.union(b));
    assert forall|id: FactId| #[trigger] rows_touched(g, both).contains(id) <==> rows_touched(
        g,
        a,
    ).union(rows_touched(g, b)).contains(id) by {
        let hits = |f: FactView| f.id == id || ((g.fence.staged_cold_pending != 0
            || f.is_selector()) && g.facts.contains_key(id));
        if rows_touched(g, both).contains(id) {
            let f = choose|f: FactView| #[trigger]
                both.contains(f) && (f.id == id || ((g.fence.staged_cold_pending != 0
                    || f.is_selector()) && g.facts.contains_key(id)));
            assert(a.contains(f) || b.contains(f));
        }
        if rows_touched(g, a).contains(id) {
            let f = choose|f: FactView| #[trigger]
                a.contains(f) && (f.id == id || ((g.fence.staged_cold_pending != 0
                    || f.is_selector()) && g.facts.contains_key(id)));
            assert(both.contains(f));
        }
        if rows_touched(g, b).contains(id) {
            let f = choose|f: FactView| #[trigger]
                b.contains(f) && (f.id == id || ((g.fence.staged_cold_pending != 0
                    || f.is_selector()) && g.facts.contains_key(id)));
            assert(both.contains(f));
        }
    }
    assert(rows_touched(g, both) =~= rows_touched(g, a).union(rows_touched(g, b)));
    assert forall|s: DeviceId| #[trigger] subjects_touched(both).contains(s)
        <==> subjects_touched(a).union(subjects_touched(b)).contains(s) by {
        if subjects_touched(both).contains(s) {
            let f = choose|f: FactView| #[trigger]
                both.contains(f) && f.content.body.subjects(f.content.author).contains(s);
            assert(a.contains(f) || b.contains(f));
        }
        if subjects_touched(a).contains(s) {
            let f = choose|f: FactView| #[trigger]
                a.contains(f) && f.content.body.subjects(f.content.author).contains(s);
            assert(both.contains(f));
        }
        if subjects_touched(b).contains(s) {
            let f = choose|f: FactView| #[trigger]
                b.contains(f) && f.content.body.subjects(f.content.author).contains(s);
            assert(both.contains(f));
        }
    }
    assert(subjects_touched(both) =~= subjects_touched(a).union(subjects_touched(b)));
    assert forall|c: ExclusiveCell| #[trigger] cells_touched(both).contains(c) <==> cells_touched(
        a,
    ).union(cells_touched(b)).contains(c) by {
        if cells_touched(both).contains(c) {
            let f = choose|f: FactView| #[trigger] both.contains(f) && f.advances(c);
            assert(a.contains(f) || b.contains(f));
        }
        if cells_touched(a).contains(c) {
            let f = choose|f: FactView| #[trigger] a.contains(f) && f.advances(c);
            assert(both.contains(f));
        }
        if cells_touched(b).contains(c) {
            let f = choose|f: FactView| #[trigger] b.contains(f) && f.advances(c);
            assert(both.contains(f));
        }
    }
    assert(cells_touched(both) =~= cells_touched(a).union(cells_touched(b)));
}

impl Members {
    fn note_all(&mut self, set: &OrdSet<FactId>, keys: &Vec<FactId>)
        ensures
            final(self)@ == noted_members(old(self)@, set@, keys@.to_set()),
    {
        let n: usize = keys.len();
        let ghost start = self@;
        assert(keys@.take(0).to_set() =~= Set::<FactId>::empty());
        assert(self@ =~= noted_members(start, set@, keys@.take(0).to_set()));
        for i in 0..n
            invariant
                n == keys@.len(),
                self@ == noted_members(start, set@, keys@.take(i as int).to_set()),
        {
            if !self.known.contains(&keys[i]) {
                self.known.insert(keys[i]);
                if set.contains(&keys[i]) {
                    self.held.insert(keys[i]);
                }
            }
            proof {
                ordset::lemma_take_set(keys@, i as int);
                assert(self@ =~= noted_members(start, set@, keys@.take(i + 1).to_set()));
            }
        }
        assert(keys@.take(n as int) =~= keys@);
    }

    fn put_back(&self, set: &mut OrdSet<FactId>)
        ensures
            final(set)@ == restored_members(old(set)@, self@),
    {
        let keys = self.known.to_vec();
        let n: usize = keys.len();
        let ghost start = set@;
        assert(keys@.take(0).to_set() =~= Set::<FactId>::empty());
        assert(set@ =~= start.difference(keys@.take(0).to_set()));
        for i in 0..n
            invariant
                n == keys@.len(),
                set@ == start.difference(keys@.take(i as int).to_set()),
        {
            set.remove(&keys[i]);
            proof {
                ordset::lemma_take_set(keys@, i as int);
                assert(set@ =~= start.difference(keys@.take(i + 1).to_set()));
            }
        }
        assert(keys@.take(n as int) =~= keys@);
        set.extend(&self.held);
        assert(set@ =~= restored_members(start, self@));
    }
}

impl Scope {
    pub fn new() -> (r: Self)
        ensures
            r@ == no_scope(),
    {
        let r = Scope {
            ids: OrdSet::new(),
            dependencies: OrdSet::new(),
            authors: OrdSet::new(),
        };
        assert(r@ =~= no_scope());
        r
    }

    /// Adds dependencies, with what waits for them.
    pub(crate) fn add_dependencies(&mut self, graph: &FactGraph, ids: &Vec<FactId>)
        ensures
            final(self)@ == old(self)@.and(scope_dependencies(graph@, ids@.to_set())),
    {
        let ghost g = graph@;
        let ghost start = self@;
        let n: usize = ids.len();
        let mut waiters: OrdSet<FactId> = OrdSet::new();
        for i in 0..n
            invariant
                n == ids@.len(),
                g == graph@,
                forall|w: FactId| #[trigger]
                    waiters@.contains(w) <==> exists|j: int|
                        0 <= j < i && multimap::at(
                            g.quarantine.waiting,
                            #[trigger] ids@[j],
                        ).contains(w),
        {
            let ghost before = waiters@;
            let more = list_at(&graph.quarantine.waiting, &ids[i]);
            waiters.extend_vec(&more);
            assert forall|w: FactId| #[trigger] waiters@.contains(w) <==> exists|j: int|
                0 <= j < i + 1 && multimap::at(g.quarantine.waiting, #[trigger] ids@[j]).contains(
                    w,
                ) by {
                if before.contains(w) {
                    let j = choose|j: int|
                        0 <= j < i && multimap::at(
                            g.quarantine.waiting,
                            #[trigger] ids@[j],
                        ).contains(w);
                    assert(multimap::at(g.quarantine.waiting, ids@[j]).contains(w));
                }
                if more@.to_set().contains(w) {
                    assert(multimap::at(g.quarantine.waiting, ids@[i as int]).contains(w));
                }
            }
        }
        proof {
            let want = waiters_of(g, ids@.to_set());
            assert forall|w: FactId| #[trigger] waiters@.contains(w) <==> want.contains(w) by {
                if waiters@.contains(w) {
                    let j = choose|j: int|
                        0 <= j < n && multimap::at(
                            g.quarantine.waiting,
                            #[trigger] ids@[j],
                        ).contains(w);
                    assert(ids@.to_set().contains(ids@[j]));
                }
                if want.contains(w) {
                    let d = choose|d: FactId| #[trigger]
                        ids@.to_set().contains(d) && multimap::at(
                            g.quarantine.waiting,
                            d,
                        ).contains(w);
                    let j = choose|j: int| 0 <= j < ids@.len() && ids@[j] == d;
                    assert(multimap::at(g.quarantine.waiting, ids@[j]).contains(w));
                }
            }
            assert(waiters@ =~= want);
        }
        let list = waiters.to_vec();
        let m: usize = list.len();
        let mut authors: OrdSet<DeviceId> = OrdSet::new();
        for i in 0..m
            invariant
                m == list@.len(),
                g == graph@,
                forall|a: DeviceId| #[trigger]
                    authors@.contains(a) <==> exists|j: int|
                        0 <= j < i && g.quarantine.facts.contains_key(#[trigger] list@[j])
                            && g.quarantine.facts[list@[j]].content.author == a,
        {
            let ghost before = authors@;
            if let Some(f) = graph.quarantine.facts.get(&list[i]) {
                authors.insert(f.content.author);
            }
            assert forall|a: DeviceId| #[trigger] authors@.contains(a) <==> exists|j: int|
                0 <= j < i + 1 && g.quarantine.facts.contains_key(#[trigger] list@[j])
                    && g.quarantine.facts[list@[j]].content.author == a by {
                if before.contains(a) {
                    let j = choose|j: int|
                        0 <= j < i && g.quarantine.facts.contains_key(#[trigger] list@[j])
                            && g.quarantine.facts[list@[j]].content.author == a;
                    assert(g.quarantine.facts.contains_key(list@[j]));
                }
                if g.quarantine.facts.contains_key(list@[i as int])
                    && g.quarantine.facts[list@[i as int]].content.author == a {
                    assert(authors@.contains(a));
                }
            }
        }
        proof {
            let want = waiting_authors(g, ids@.to_set());
            assert forall|a: DeviceId| #[trigger] authors@.contains(a) <==> want.contains(a) by {
                if authors@.contains(a) {
                    let j = choose|j: int|
                        0 <= j < m && g.quarantine.facts.contains_key(#[trigger] list@[j])
                            && g.quarantine.facts[list@[j]].content.author == a;
                    assert(list@.contains(list@[j]));
                    assert(waiters_of(g, ids@.to_set()).contains(list@[j]));
                }
                if want.contains(a) {
                    let w = choose|w: FactId|
                        #![trigger waiters_of(g, ids@.to_set()).contains(w)]
                        waiters_of(g, ids@.to_set()).contains(w) && g.quarantine.facts.contains_key(
                            w,
                        ) && g.quarantine.facts[w].content.author == a;
                    assert(list@.contains(w));
                    let j = choose|j: int| 0 <= j < list@.len() && list@[j] == w;
                    assert(g.quarantine.facts.contains_key(list@[j]));
                }
            }
            assert(authors@ =~= want);
        }
        self.ids.extend(&waiters);
        self.dependencies.extend_vec(ids);
        self.authors.extend(&authors);
        assert(self@ =~= start.and(scope_dependencies(g, ids@.to_set())));
    }

    /// What admitting a fact can change.
    fn of_admission(graph: &FactGraph, fact: &SignedFact) -> (r: Self)
        ensures
            r@ == scope_admission(graph@, fact@),
    {
        let mut r = Scope::new();
        r.ids.insert(fact.id);
        r.authors.insert(fact.content.author);
        let ghost own = r@;
        let mut ids = dependencies(fact);
        let ghost inputs = ids@;
        ids.push(fact.id);
        r.add_dependencies(graph, &ids);
        proof {
            crate::content::lemma_push_set(inputs, fact.id);
            assert(ids@.to_set() =~= fact@.inputs().insert(fact.id));
            assert(own =~= ScopeView {
                ids: Set::empty().insert(fact@.id),
                dependencies: Set::empty(),
                authors: Set::empty().insert(fact@.content.author),
            });
            assert(r@ =~= scope_admission(graph@, fact@));
        }
        r
    }

    /// What can change when one of `seeds` becomes available.
    fn of_closure(graph: &FactGraph, seeds: &Vec<FactId>) -> (r: Self)
        ensures
            r@ == scope_closure(graph@, seeds@.to_set()),
            r.dependencies@ == closure(graph@, seeds@.to_set()),
    {
        let ghost g = graph@;
        let ids = reach_set(&WaiterEdges { waiting: &graph.quarantine.waiting }, seeds);
        let list = ids.to_vec();
        let n: usize = list.len();
        let mut authors: OrdSet<DeviceId> = OrdSet::new();
        let ghost writes = |id: FactId, a: DeviceId|
            (g.facts.contains_key(id) && g.facts[id].content.author == a)
                || (g.quarantine.facts.contains_key(id) && g.quarantine.facts[id].content.author
                == a);
        for i in 0..n
            invariant
                n == list@.len(),
                g == graph@,
                writes == (|id: FactId, a: DeviceId|
                    (g.facts.contains_key(id) && g.facts[id].content.author == a)
                        || (g.quarantine.facts.contains_key(id)
                        && g.quarantine.facts[id].content.author == a)),
                forall|a: DeviceId| #[trigger]
                    authors@.contains(a) <==> exists|j: int|
                        0 <= j < i && writes(#[trigger] list@[j], a),
        {
            let ghost before = authors@;
            if let Some(f) = graph.facts.get(&list[i]) {
                authors.insert(f.content.author);
            }
            if let Some(f) = graph.quarantine.facts.get(&list[i]) {
                authors.insert(f.content.author);
            }
            assert forall|a: DeviceId| #[trigger] authors@.contains(a) <==> exists|j: int|
                0 <= j < i + 1 && writes(#[trigger] list@[j], a) by {
                if before.contains(a) {
                    let j = choose|j: int| 0 <= j < i && writes(#[trigger] list@[j], a);
                    assert(writes(list@[j], a));
                }
                if writes(list@[i as int], a) {
                    assert(authors@.contains(a));
                }
                if authors@.contains(a) && !before.contains(a) {
                    assert(writes(list@[i as int], a));
                }
            }
        }
        proof {
            let want = authors_of(g, ids@);
            assert forall|a: DeviceId| #[trigger] authors@.contains(a) <==> want.contains(a) by {
                if authors@.contains(a) {
                    let j = choose|j: int| 0 <= j < n && writes(#[trigger] list@[j], a);
                    assert(list@.contains(list@[j]));
                    assert(ids@.contains(list@[j]));
                }
                if want.contains(a) {
                    let id = choose|id: FactId| #[trigger] ids@.contains(id) && writes(id, a);
                    assert(list@.contains(id));
                    let j = choose|j: int| 0 <= j < list@.len() && list@[j] == id;
                    assert(writes(list@[j], a));
                }
            }
            assert(authors@ =~= want);
        }
        let mut r = Scope { ids, dependencies: OrdSet::new(), authors };
        r.add_dependencies(graph, &list);
        proof {
            assert(r@ =~= scope_closure(g, seeds@.to_set()));
        }
        r
    }
}

impl GraphRollback {
    pub fn new(graph: &FactGraph) -> (r: Self)
        ensures
            r@ == begun(graph@),
    {
        let r = GraphRollback {
            provenance: OrdMap::new(),
            authority_heads: OrdMap::new(),
            cell_heads: OrdMap::new(),
            facts: OrdMap::new(),
            quarantined: OrdMap::new(),
            missing: OrdMap::new(),
            waiting: OrdMap::new(),
            ready: Members { known: OrdSet::new(), held: OrdSet::new() },
            by_author: OrdMap::new(),
            retained: OrdMap::new(),
            totals: Totals {
                fact_count: graph.ledger.fact_count,
                bytes: graph.ledger.bytes,
                index_bytes: graph.ledger.index_bytes,
                edges: graph.ledger.edges,
                quarantined_bytes: graph.quarantine.bytes,
                quarantined_edges: graph.quarantine.edges,
            },
            fence: graph.fence,
            order_len: graph.order.len(),
            cache: match &graph.cache {
                Some(c) => Some(
                    Cached { generation: c.generation, projection: c.projection.duplicate() },
                ),
                None => None,
            },
            full: None,
            cells: OrdMap::new(),
            stand_down: OrdMap::new(),
        };
        assert(r@ =~= begun(graph@));
        r
    }

    /// Notes the index entries that a fact can change.
    fn capture_provenance_admission(&mut self, graph: &FactGraph, fact: &SignedFact)
        ensures
            ({
                let facts = Set::<FactView>::empty().insert(fact@);
                final(self)@ == (RollbackView {
                    provenance: capture::noted_all(
                        old(self)@.provenance,
                        graph@.index.provenance,
                        rows_touched(graph@, facts),
                    ),
                    authority_heads: capture::noted_all(
                        old(self)@.authority_heads,
                        graph@.index.authority_heads,
                        subjects_touched(facts),
                    ),
                    cell_heads: capture::noted_all(
                        old(self)@.cell_heads,
                        graph@.index.cell_heads,
                        cells_touched(facts),
                    ),
                    ..old(self)@
                })
            }),
    {
        let ghost g = graph@;
        let ghost facts = Set::<FactView>::empty().insert(fact@);
        let mut rows: Vec<FactId> = Vec::new();
        let selects = match &fact.content.body {
            crate::content::FactBody::AuthorityLineageResolution { .. } => true,
            _ => false,
        };
        let all = graph.fence.staged_cold_pending != 0 || selects;
        if all {
            rows = graph.facts.keys();
        }
        let ghost listed = rows@;
        rows.push(fact.id);
        proof {
            crate::content::lemma_push_set(listed, fact.id);
            assert(facts.contains(fact@));
            assert forall|id: FactId| #[trigger] rows@.to_set().contains(id) <==> rows_touched(
                g,
                facts,
            ).contains(id) by {
                if rows_touched(g, facts).contains(id) {
                    let f = choose|f: FactView| #[trigger]
                        facts.contains(f) && (f.id == id || ((g.fence.staged_cold_pending != 0
                            || f.is_selector()) && g.facts.contains_key(id)));
                    assert(f == fact@);
                    if f.id != id {
                        assert(listed.contains(id));
                        assert(listed.to_set().contains(id));
                    }
                }
                if rows@.to_set().contains(id) && id != fact.id {
                    assert(listed.to_set().contains(id));
                    assert(listed.contains(id));
                }
            }
            assert(rows@.to_set() =~= rows_touched(g, facts));
        }
        note_all(&mut self.provenance, &graph.index.provenance, &rows);
        let subjects = fact.content.body.authority_use_subjects(&fact.content.author);
        note_all(&mut self.authority_heads, &graph.index.authority_heads, &subjects);
        let cells = fact.content.body.exclusive_cells();
        note_all(&mut self.cell_heads, &graph.index.cell_heads, &cells);
        proof {
            assert forall|s: DeviceId| #[trigger] subjects@.to_set().contains(s)
                <==> subjects_touched(facts).contains(s) by {
                if subjects_touched(facts).contains(s) {
                    let f = choose|f: FactView| #[trigger]
                        facts.contains(f) && f.content.body.subjects(f.content.author).contains(s);
                    assert(f == fact@);
                }
            }
            assert(subjects@.to_set() =~= subjects_touched(facts));
            assert forall|c: ExclusiveCell| #[trigger] cells@.to_set().contains(c)
                <==> cells_touched(facts).contains(c) by {
                if cells_touched(facts).contains(c) {
                    let f = choose|f: FactView| #[trigger] facts.contains(f) && f.advances(c);
                    assert(f == fact@);
                }
            }
            assert(cells@.to_set() =~= cells_touched(facts));
        }
    }

    /// Notes the state of a scope, and the index entries that its facts and
    /// a candidate can change.
    pub fn capture(&mut self, graph: &FactGraph, scope: &Scope, candidate: Option<&SignedFact>)
        ensures
            final(self)@ == captured(
                old(self)@,
                graph@,
                scope@,
                match candidate {
                    Some(f) => Some(f@),
                    None => None,
                },
            ),
    {
        let ghost g = graph@;
        let ghost start = self@;
        let ghost cv = match candidate {
            Some(f) => Some(f@),
            None => None,
        };
        let ids = scope.ids.to_vec();
        let deps = scope.dependencies.to_vec();
        let authors = scope.authors.to_vec();
        note_all(&mut self.facts, &graph.facts, &ids);
        note_all(&mut self.quarantined, &graph.quarantine.facts, &ids);
        note_all(&mut self.missing, &graph.quarantine.missing, &ids);
        self.ready.note_all(&graph.quarantine.ready, &ids);
        note_all(&mut self.waiting, &graph.quarantine.waiting, &deps);
        note_all(&mut self.by_author, &graph.quarantine.by_author, &authors);
        note_all(&mut self.retained, &graph.ledger.retained, &authors);
        let ghost mid = self@;
        let ghost mut seen: Set<FactView> = Set::empty();
        proof {
            lemma_nothing_touched(g);
            assert(self@ =~= with_entries(mid, g, seen));
        }
        if let Some(f) = candidate {
            self.capture_provenance_admission(graph, f);
            proof {
                lemma_entries_more(mid, g, seen, f@);
                seen = seen.insert(f@);
            }
        }
        let n: usize = ids.len();
        for i in 0..n
            invariant
                n == ids@.len(),
                g == graph@,
                self@ == with_entries(mid, g, seen),
                seen == indexed_facts(g, ids@.take(i as int).to_set(), cv),
        {
            let ghost done = ids@.take(i as int).to_set();
            let ghost now = stored(g, ids@[i as int]);
            let found: Option<&SignedFact> = match graph.facts.get(&ids[i]) {
                Some(f) => Some(f),
                None => graph.quarantine.facts.get(&ids[i]),
            };
            if let Some(f) = found {
                self.capture_provenance_admission(graph, f);
                proof {
                    lemma_entries_more(mid, g, seen, f@);
                }
            }
            proof {
                ordset::lemma_take_set(ids@, i as int);
                let more = ids@.take(i + 1).to_set();
                let want = indexed_facts(g, more, cv);
                assert forall|f: FactView| #[trigger] want.contains(f) <==> seen.contains(f) || now
                    == Some(f) by {
                    if want.contains(f) && cv != Some(f) {
                        let id = choose|id: FactId| #[trigger]
                            more.contains(id) && stored(g, id) == Some(f);
                        if id != ids@[i as int] {
                            assert(done.contains(id));
                        }
                    }
                    if seen.contains(f) && cv != Some(f) {
                        let id = choose|id: FactId| #[trigger]
                            done.contains(id) && stored(g, id) == Some(f);
                        assert(more.contains(id));
                    }
                    if now == Some(f) {
                        assert(more.contains(ids@[i as int]));
                    }
                }
                if let Some(f) = now {
                    assert(want =~= seen.insert(f));
                } else {
                    assert(want =~= seen);
                }
                seen = want;
            }
        }
        proof {
            assert(ids@.take(n as int) =~= ids@);
            assert(self@ =~= captured(start, g, scope@, cv));
        }
    }

    /// Notes what admitting a fact can change.
    pub fn capture_admission(&mut self, graph: &FactGraph, fact: &SignedFact)
        ensures
            final(self)@ == captured(
                old(self)@,
                graph@,
                scope_admission(graph@, fact@),
                Some(fact@),
            ),
    {
        let scope = Scope::of_admission(graph, fact);
        self.capture(graph, &scope, Some(fact));
    }

    /// Notes the complete bounded waiter closure that can be touched when
    /// any of `seeds` becomes available, and returns it. Each retry can make
    /// another waiter ready in the same journal.
    pub fn capture_waiter_closure(&mut self, graph: &FactGraph, seeds: &Vec<FactId>) -> (r: OrdSet<
        FactId,
    >)
        ensures
            final(self)@ == captured(
                old(self)@,
                graph@,
                scope_closure(graph@, seeds@.to_set()),
                None,
            ),
            r@ == closure(graph@, seeds@.to_set()),
    {
        let scope = Scope::of_closure(graph, seeds);
        self.capture(graph, &scope, None);
        scope.dependencies
    }

    /// Notes the rows of a projection that a mutation can change.
    pub fn capture_projection_sparse(
        &mut self,
        cells: &OrdMap<ExclusiveCell, Prior<CellProjection>>,
        stand_down: &OrdMap<DeviceId, Prior<StandDown>>,
    )
        ensures
            final(self)@ == with_sparse(old(self)@, cells@, stand_down@),
    {
        adopt(&mut self.cells, cells);
        adopt(&mut self.stand_down, stand_down);
        assert(self@ =~= with_sparse(old(self)@, cells@, stand_down@));
    }

    /// Notes a complete projection.  Staging cold history can deliberately
    /// leave the hot indexes incomplete; the explicit projection from before
    /// is the fence then.
    pub fn capture_projection_full(&mut self, generation: u64, projection: &Projection)
        ensures
            final(self)@ == with_full(old(self)@, generation, projection@),
    {
        if self.cache.is_none() {
            self.cache = Some(Cached { generation, projection: projection.duplicate() });
        }
        self.full = Some(projection.duplicate());
        assert(self@ =~= with_full(old(self)@, generation, projection@));
    }

    /// Marks staged rows as absent.
    pub fn capture_staged_absence(&mut self, staged: &Vec<FactId>)
        ensures
            final(self)@ == without_staged(old(self)@, staged@.to_set()),
    {
        let ghost start = self@;
        let n: usize = staged.len();
        assert(staged@.take(0).to_set() =~= Set::<FactId>::empty());
        assert(self@ =~= without_staged(start, staged@.take(0).to_set()));
        for i in 0..n
            invariant
                n == staged@.len(),
                self@ == without_staged(start, staged@.take(i as int).to_set()),
        {
            let id = staged[i];
            self.facts.insert(id, Prior { held: None });
            self.quarantined.insert(id, Prior { held: None });
            self.missing.insert(id, Prior { held: None });
            self.ready.known.insert(id);
            self.ready.held.remove(&id);
            proof {
                ordset::lemma_take_set(staged@, i as int);
                assert(self@ =~= without_staged(start, staged@.take(i + 1).to_set()));
            }
        }
        assert(staged@.take(n as int) =~= staged@);
    }

    /// Puts the graph back to what is on record.
    pub fn restore(self, graph: &mut FactGraph)
        ensures
            final(graph)@ == restored_graph(self@, old(graph)@),
    {
        proof {
            reveal(restored_graph);
        }
        let ghost g = graph@;
        let ghost rb = self@;
        let mut append_only_order: Vec<FactId> = Vec::new();
        std::mem::swap(&mut append_only_order, &mut graph.order);
        if self.order_len <= append_only_order.len() {
            append_only_order.truncate(self.order_len);
        }
        assert(append_only_order@ =~= cut(g.order, rb.order_len));
        let taken = graph.cache.take();
        put_back(&mut graph.facts, &self.facts);
        put_back(&mut graph.quarantine.facts, &self.quarantined);
        put_back(&mut graph.quarantine.missing, &self.missing);
        put_back(&mut graph.quarantine.waiting, &self.waiting);
        self.ready.put_back(&mut graph.quarantine.ready);
        put_back(&mut graph.quarantine.by_author, &self.by_author);
        put_back(&mut graph.ledger.retained, &self.retained);
        put_back(&mut graph.index.provenance, &self.provenance);
        put_back(&mut graph.index.authority_heads, &self.authority_heads);
        put_back(&mut graph.index.cell_heads, &self.cell_heads);
        graph.fence.generation = self.fence.generation;
        graph.fence.facts_revision = self.fence.facts_revision;
        graph.set_totals(&self.totals);
        assert(graph@ =~= reverted(rb, g));
        graph.rebuild_indexes();
        // Rebuilding indexes derives a dependency order, which is suitable
        // for loader repair but is not the exact pre-mutation admission
        // order.  It also reconciles canonical scalar totals; a rollback
        // restores the exact scalars nevertheless.
        graph.order = append_only_order;
        graph.set_totals(&self.totals);
        graph.fence = self.fence;
        proof {
            rebuild::lemma_rebuilt_frame(reverted(rb, g));
            assert(graph@ =~= settled_back(rb, g));
        }
        let restored_cache = match self.full {
            // This snapshot was materialized immediately before cold rows
            // were attached. It is the complete logical projection even when
            // the intentionally incomplete hot indexes had no usable cache.
            Some(projection) => {
                graph.fence.indexed_fact_count = graph.facts.len();
                graph.fence.indexed_revision = graph.fence.facts_revision;
                Some(Cached { generation: self.fence.generation, projection })
            },
            None => match self.cache {
                None => None,
                Some(c) => {
                    let mut projection = match taken {
                        Some(now) => now.projection,
                        None => Projection::from_graph(graph),
                    };
                    projection.restore_sparse_entries(&self.cells, &self.stand_down);
                    assert(projection@ =~= (ProjectionView {
                        cells: projection@.cells,
                        stand_down: projection@.stand_down,
                    }));
                    if projection.same(&c.projection) {
                        Some(Cached { generation: c.generation, projection })
                    } else {
                        None
                    }
                },
            },
        };
        graph.cache = restored_cache;
        assert(graph@ =~= restored_graph(rb, g));
    }
}

/// A record with the index entries of a set of facts noted.
pub open spec fn with_entries(rb: RollbackView, g: GraphView, facts: Set<FactView>) -> RollbackView {
    RollbackView {
        provenance: capture::noted_all(
            rb.provenance,
            g.index.provenance,
            rows_touched(g, facts),
        ),
        authority_heads: capture::noted_all(
            rb.authority_heads,
            g.index.authority_heads,
            subjects_touched(facts),
        ),
        cell_heads: capture::noted_all(
            rb.cell_heads,
            g.index.cell_heads,
            cells_touched(facts),
        ),
        ..rb
    }
}

proof fn lemma_nothing_touched(g: GraphView)
    ensures
        rows_touched(g, Set::empty()) == Set::<FactId>::empty(),
        subjects_touched(Set::empty()) == Set::<DeviceId>::empty(),
        cells_touched(Set::empty()) == Set::<ExclusiveCell>::empty(),
{
    assert(rows_touched(g, Set::empty()) =~= Set::<FactId>::empty());
    assert(subjects_touched(Set::empty()) =~= Set::<DeviceId>::empty());
    assert(cells_touched(Set::empty()) =~= Set::<ExclusiveCell>::empty());
}

proof fn lemma_entries_more(rb: RollbackView, g: GraphView, facts: Set<FactView>, f: FactView)
    ensures
        with_entries(with_entries(rb, g, facts), g, Set::empty().insert(f)) == with_entries(
            rb,
            g,
            facts.insert(f),
        ),
{
    let one = Set::<FactView>::empty().insert(f);
    lemma_touched_union(g, facts, one, facts.insert(f));
    let x = with_entries(with_entries(rb, g, facts), g, one);
    let y = with_entries(rb, g, facts.insert(f));
    assert(x.provenance =~= y.provenance);
    assert(x.authority_heads =~= y.authority_heads);
    assert(x.cell_heads =~= y.cell_heads);
}

impl FactGraph {
    /// Sets the owner-funded scalars.
    pub(crate) fn set_totals(&mut self, totals: &Totals)
        ensures
            final(self)@ == with_totals(old(self)@, *totals),
    {
        self.ledger.fact_count = totals.fact_count;
        self.ledger.bytes = totals.bytes;
        self.ledger.index_bytes = totals.index_bytes;
        self.ledger.edges = totals.edges;
        self.quarantine.bytes = totals.quarantined_bytes;
        self.quarantine.edges = totals.quarantined_edges;
        assert(self@ =~= with_totals(old(self)@, *totals));
    }

    /// The owner-funded scalars.
    pub(crate) fn totals(&self) -> (r: Totals)
        ensures
            r == totals_of(self@),
    {
        Totals {
            fact_count: self.ledger.fact_count,
            bytes: self.ledger.bytes,
            index_bytes: self.ledger.index_bytes,
            edges: self.ledger.edges,
            quarantined_bytes: self.quarantine.bytes,
            quarantined_edges: self.quarantine.edges,
        }
    }
}

} // verus!

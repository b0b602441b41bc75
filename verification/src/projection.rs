//! The projection of a graph: the state of each exclusive cell and the active
//! stand-downs.

use vstd::prelude::*;

use crate::authority;
use crate::capture;
use crate::capture::{put_back, sample, Prior};
use crate::content::{BodyView, ExclusiveCell, FactBody};
use crate::device::DeviceId;
use crate::fact::{dependencies, Facts};
use crate::graph::{
    CellProjection, CellView, FactGraph, GraphView, Projection, ProjectionView, Reading, StandDown,
};
use crate::ids::FactId;
use crate::index;
use crate::multimap;
use crate::multimap::list_at;
use crate::order;
use crate::ordmap::OrdMap;
use crate::ordset;
use crate::ordset::{same_keys, Duplicate, OrdSet};
use crate::reach;

verus! {

/// The end of a chain of resolutions of one cell, each selecting the next.
pub open spec fn settled(
    facts: Facts,
    cell: ExclusiveCell,
    id: FactId,
    seen: Set<FactId>,
) -> FactId
    decreases facts.dom().difference(seen).len(),
    when facts.dom().finite()
{
    if facts.contains_key(id) && !seen.contains(id) {
        match facts[id].content.body {
            BodyView::Resolution { cell: c, selected_head, .. } => if c == cell
                && !seen.insert(id).contains(selected_head) {
                proof {
                    assert(reach::parent_edges(facts).dom() =~= facts.dom());
                    reach::lemma_unseen(reach::parent_edges(facts), seen, id);
                }
                settled(facts, cell, selected_head, seen.insert(id))
            } else {
                id
            },
            _ => id,
        }
    } else {
        id
    }
}

/// The state of a cell: what its one head settles at, or its several heads.
#[verifier::opaque]
pub open spec fn cell_state(g: Reading, cell: ExclusiveCell) -> Option<CellView> {
    let heads = authority::cell_heads(g, cell);
    if heads.len() == 0 {
        None
    } else if heads.len() == 1 {
        Some(CellView::Value(settled(g.facts, cell, heads[0], Set::empty())))
    } else {
        Some(CellView::Conflict(heads))
    }
}

impl Reading {
    /// The cells that the graph knows of.
    pub open spec fn known_cells(self) -> Set<ExclusiveCell> {
        if self.current {
            self.index.cells
        } else {
            index::cells_of(self.facts)
        }
    }

    /// The stand-down evidence against each device.
    pub open spec fn evidence(self) -> Map<DeviceId, Set<FactId>> {
        if self.current {
            self.index.stand_down
        } else {
            index::stand_down_of(self.facts)
        }
    }
}

/// The least stand-down evidence against a device that counts.
#[verifier::opaque]
pub open spec fn stand_state(g: Reading, subject: DeviceId) -> Option<FactId> {
    let counting = multimap::at(g.evidence(), subject).filter(
        |id: FactId| authority::is_authoritative(g, id),
    );
    if counting == Set::<FactId>::empty() {
        None
    } else {
        Some(order::ascending(counting)[0])
    }
}

/// The projection with the given cells and subjects brought up to date.
pub open spec fn updated(
    p: ProjectionView,
    g: Reading,
    cells: Set<ExclusiveCell>,
    subjects: Set<DeviceId>,
) -> ProjectionView {
    ProjectionView {
        cells: capture::restored(
            p.cells,
            Map::new(|c: ExclusiveCell| cells.contains(c), |c: ExclusiveCell| cell_state(g, c)),
        ),
        stand_down: capture::restored(
            p.stand_down,
            Map::new(|s: DeviceId| subjects.contains(s), |s: DeviceId| stand_state(g, s)),
        ),
    }
}

/// The empty projection.
pub open spec fn nothing() -> ProjectionView {
    ProjectionView { cells: Map::empty(), stand_down: Map::empty() }
}

/// The projection of a graph.
pub open spec fn projected(g: Reading) -> ProjectionView {
    updated(nothing(), g, g.known_cells(), g.evidence().dom())
}

/// The projection that a graph answers from: the cached one where it is
/// current.
pub open spec fn current(g: GraphView) -> ProjectionView {
    match g.cache {
        Some((generation, p)) => if g.indexes_current() && generation == g.fence.generation {
            p
        } else {
            projected(g.reading())
        },
        None => projected(g.reading()),
    }
}

/// The projection that an update starts from: the cached one where its
/// generation is current.
pub open spec fn base(g: GraphView) -> ProjectionView {
    match g.cache {
        Some((generation, p)) => if generation == g.fence.generation {
            p
        } else {
            projected(g.reading())
        },
        None => projected(g.reading()),
    }
}

/// The fact that decides a cell.
pub open spec fn value_of(p: ProjectionView, cell: ExclusiveCell) -> Option<FactId> {
    match capture::held(p.cells, cell) {
        Some(CellView::Value(id)) => Some(id),
        _ => None,
    }
}

/// Whether several heads contend for a cell.
pub open spec fn conflicted(p: ProjectionView, cell: ExclusiveCell) -> bool {
    capture::held(p.cells, cell) matches Some(CellView::Conflict(_))
}

/// The bytes that a commitment to a projection keeps: a root digest, and for
/// each entry a key digest, a value digest and the digest of a node.
pub open spec fn commitment_size(p: ProjectionView) -> nat {
    let n = p.cells.dom().len() + p.stand_down.dom().len();
    if 32 + 96 * n <= u64::MAX {
        32 + 96 * n
    } else {
        u64::MAX as nat
    }
}

/// The entries at which a projection differs from a sample of another.
#[verifier::ext_equal]
pub struct DeltaView {
    pub base_generation: u64,
    pub generation: u64,
    pub cells: Map<ExclusiveCell, Option<CellView>>,
    pub stand_down: Map<DeviceId, Option<FactId>>,
}

/// The sampled keys whose entry changed, with what they hold now.
pub open spec fn changes<K, V>(now: Map<K, V>, before: Map<K, Option<V>>) -> Map<K, Option<V>> {
    Map::new(
        |k: K| before.contains_key(k) && before[k] != capture::held(now, k),
        |k: K| capture::held(now, k),
    )
}

/// What changed in a projection since a sample of it was taken.
#[derive(Debug, PartialEq, Eq)]
pub struct ProjectionDelta {
    pub base_generation: u64,
    pub generation: u64,
    pub cells: OrdMap<ExclusiveCell, Prior<CellProjection>>,
    pub stand_down: OrdMap<DeviceId, Prior<StandDown>>,
}

impl View for ProjectionDelta {
    type V = DeltaView;

    open spec fn view(&self) -> DeltaView {
        DeltaView {
            base_generation: self.base_generation,
            generation: self.generation,
            cells: self.cells@,
            stand_down: self.stand_down@,
        }
    }
}

impl Duplicate for ProjectionDelta {
    fn duplicate(&self) -> (r: Self) {
        ProjectionDelta {
            base_generation: self.base_generation,
            generation: self.generation,
            cells: self.cells.duplicate(),
            stand_down: self.stand_down.duplicate(),
        }
    }
}

impl CellProjection {
    pub fn same(&self, other: &CellProjection) -> (r: bool)
        ensures
            r <==> self@ == other@,
    {
        match (self, other) {
            (CellProjection::Value(a), CellProjection::Value(b)) => a.same(b),
            (CellProjection::Conflict(a), CellProjection::Conflict(b)) => same_keys(a, b),
            _ => false,
        }
    }
}

fn same_state(a: Option<&CellProjection>, b: &Option<CellProjection>) -> (r: bool)
    ensures
        r <==> (match (a, *b) {
            (Some(x), Some(y)) => x@ == y@,
            (None, None) => true,
            _ => false,
        }),
{
    match (a, b) {
        (Some(x), Some(y)) => x.same(y),
        (None, None) => true,
        _ => false,
    }
}

fn same_stand(a: Option<&StandDown>, b: &Option<StandDown>) -> (r: bool)
    ensures
        r <==> (match (a, *b) {
            (Some(x), Some(y)) => x@ == y@,
            (None, None) => true,
            _ => false,
        }),
{
    match (a, b) {
        (Some(x), Some(y)) => x.proof.same(&y.proof),
        (None, None) => true,
        _ => false,
    }
}

impl Projection {
    pub fn new() -> (r: Self)
        ensures
            r@ == nothing(),
    {
        Projection { cells: OrdMap::new(), stand_down: OrdMap::new() }
    }

    /// What the graph projects for one cell.
    fn cell_of(graph: &FactGraph, cell: &ExclusiveCell) -> (r: Prior<CellProjection>)
        ensures
            r@ == cell_state(graph@.reading(), *cell),
    {
        proof {
            reveal(cell_state);
        }
        let heads = graph.cell_heads(cell);
        if heads.len() == 0 {
            Prior { held: None }
        } else if heads.len() == 1 {
            Prior { held: Some(CellProjection::Value(settle(graph, cell, heads[0]))) }
        } else {
            Prior { held: Some(CellProjection::Conflict(heads)) }
        }
    }

    /// The active stand-down of one device.
    fn stand_down_of(graph: &FactGraph, subject: &DeviceId) -> (r: Prior<StandDown>)
        ensures
            r@ == stand_state(graph@.reading(), *subject),
    {
        proof {
            reveal(stand_state);
        }
        let list = if graph.indexes_current() {
            list_at(&graph.index.stand_down, subject)
        } else {
            list_at(&graph.indexed_stand_down_candidates(), subject)
        };
        let n: usize = list.len();
        let ghost g = graph@.reading();
        let ghost keep = |id: FactId| authority::is_authoritative(g, id);
        let mut counting: OrdSet<FactId> = OrdSet::new();
        assert(list@.take(0).to_set() =~= Set::<FactId>::empty());
        assert(counting@ =~= list@.take(0).to_set().filter(keep));
        for i in 0..n
            invariant
                n == list@.len(),
                g == graph@.reading(),
                keep == (|id: FactId| authority::is_authoritative(g, id)),
                counting@ == list@.take(i as int).to_set().filter(keep),
        {
            proof {
                ordset::lemma_take_set(list@, i as int);
            }
            if graph.fact_is_authoritative(&list[i]) {
                counting.insert(list[i]);
            }
            assert(counting@ =~= list@.take(i + 1).to_set().filter(keep));
        }
        proof {
            assert(list@.take(n as int) =~= list@);
            assert(counting@ =~= multimap::at(g.evidence(), *subject).filter(
                |id: FactId| authority::is_authoritative(g, id),
            ));
        }
        match counting.first() {
            Some(id) => Prior { held: Some(StandDown { proof: id }) },
            None => Prior { held: None },
        }
    }

    /// Brings the given cells and subjects up to date.
    pub fn update_from_graph(
        graph: &FactGraph,
        previous: Projection,
        cells: &OrdSet<ExclusiveCell>,
        subjects: &OrdSet<DeviceId>,
    ) -> (r: Projection)
        ensures
            r@ == updated(previous@, graph@.reading(), cells@, subjects@),
    {
        let mut fresh_cells: OrdMap<ExclusiveCell, Prior<CellProjection>> = OrdMap::new();
        let list = cells.to_vec();
        let n: usize = list.len();
        let ghost g = graph@.reading();
        assert(list@.take(0).to_set() =~= Set::<ExclusiveCell>::empty());
        assert(fresh_cells@ =~= Map::new(
            |c: ExclusiveCell| list@.take(0).to_set().contains(c),
            |c: ExclusiveCell| cell_state(g, c),
        ));
        for i in 0..n
            invariant
                n == list@.len(),
                g == graph@.reading(),
                fresh_cells@ == Map::new(
                    |c: ExclusiveCell| list@.take(i as int).to_set().contains(c),
                    |c: ExclusiveCell| cell_state(g, c),
                ),
        {
            fresh_cells.insert(list[i], Projection::cell_of(graph, &list[i]));
            proof {
                ordset::lemma_take_set(list@, i as int);
                assert(fresh_cells@ =~= Map::new(
                    |c: ExclusiveCell| list@.take(i + 1).to_set().contains(c),
                    |c: ExclusiveCell| cell_state(g, c),
                ));
            }
        }
        assert(list@.take(n as int) =~= list@);
        let mut fresh_subjects: OrdMap<DeviceId, Prior<StandDown>> = OrdMap::new();
        let names = subjects.to_vec();
        let m: usize = names.len();
        assert(names@.take(0).to_set() =~= Set::<DeviceId>::empty());
        assert(fresh_subjects@ =~= Map::new(
            |s: DeviceId| names@.take(0).to_set().contains(s),
            |s: DeviceId| stand_state(g, s),
        ));
        for i in 0..m
            invariant
                m == names@.len(),
                g == graph@.reading(),
                fresh_subjects@ == Map::new(
                    |s: DeviceId| names@.take(i as int).to_set().contains(s),
                    |s: DeviceId| stand_state(g, s),
                ),
        {
            fresh_subjects.insert(names[i], Projection::stand_down_of(graph, &names[i]));
            proof {
                ordset::lemma_take_set(names@, i as int);
                assert(fresh_subjects@ =~= Map::new(
                    |s: DeviceId| names@.take(i + 1).to_set().contains(s),
                    |s: DeviceId| stand_state(g, s),
                ));
            }
        }
        assert(names@.take(m as int) =~= names@);
        let mut r = previous;
        put_back(&mut r.cells, &fresh_cells);
        put_back(&mut r.stand_down, &fresh_subjects);
        proof {
            assert(fresh_cells@ =~= Map::new(
                |c: ExclusiveCell| cells@.contains(c),
                |c: ExclusiveCell| cell_state(g, c),
            ));
            assert(fresh_subjects@ =~= Map::new(
                |s: DeviceId| subjects@.contains(s),
                |s: DeviceId| stand_state(g, s),
            ));
        }
        r
    }

    /// Projects a graph from nothing.
    pub fn from_graph(graph: &FactGraph) -> (r: Projection)
        ensures
            r@ == projected(graph@.reading()),
    {
        let cells = graph.indexed_cells();
        let candidates = graph.indexed_stand_down_candidates();
        let names = candidates.keys();
        let subjects = OrdSet::from_vec(&names);
        Projection::update_from_graph(graph, Projection::new(), &cells, &subjects)
    }

    pub fn cell(&self, cell: &ExclusiveCell) -> (r: Option<&CellProjection>)
        ensures
            match r {
                Some(c) => capture::held(self@.cells, *cell) == Some(c@),
                None => capture::held(self@.cells, *cell) is None,
            },
    {
        self.cells.get(cell)
    }

    pub fn role_cell(&self, subject: &DeviceId) -> (r: Option<&CellProjection>)
        ensures
            match r {
                Some(c) => capture::held(
                    self@.cells,
                    ExclusiveCell::Role { subject: *subject },
                ) == Some(c@),
                None => capture::held(
                    self@.cells,
                    ExclusiveCell::Role { subject: *subject },
                ) is None,
            },
    {
        self.cell(&ExclusiveCell::role(*subject))
    }

    /// The fact that decides a cell.
    pub fn value(&self, cell: &ExclusiveCell) -> (r: Option<FactId>)
        ensures
            r == value_of(self@, *cell),
    {
        match self.cells.get(cell) {
            Some(CellProjection::Value(id)) => Some(*id),
            _ => None,
        }
    }

    pub fn is_conflicted(&self, cell: &ExclusiveCell) -> (r: bool)
        ensures
            r == conflicted(self@, *cell),
    {
        match self.cells.get(cell) {
            Some(CellProjection::Conflict(_)) => true,
            _ => false,
        }
    }

    pub fn stand_down(&self, subject: &DeviceId) -> (r: Option<StandDown>)
        ensures
            match r {
                Some(s) => capture::held(self@.stand_down, *subject) == Some(s@),
                None => capture::held(self@.stand_down, *subject) is None,
            },
    {
        match self.stand_down.get(subject) {
            Some(s) => Some(*s),
            None => None,
        }
    }

    pub fn is_stood_down(&self, subject: &DeviceId) -> (r: bool)
        ensures
            r == self@.stand_down.contains_key(*subject),
    {
        self.stand_down.contains_key(subject)
    }

    /// The bytes that a commitment to the projection keeps.
    pub fn commitment_bytes(&self) -> (r: u64)
        ensures
            r == commitment_size(self@),
    {
        let cells = self.cells.len() as u64;
        let stood = self.stand_down.len() as u64;
        match cells.checked_add(stood) {
            Some(n) => match n.checked_mul(96) {
                Some(bytes) => match bytes.checked_add(32) {
                    Some(bytes) => bytes,
                    None => u64::MAX,
                },
                None => u64::MAX,
            },
            None => u64::MAX,
        }
    }

    /// Whether two projections, and so the commitments to them, are equal.
    pub fn same(&self, other: &Projection) -> (r: bool)
        ensures
            r <==> self@ == other@,
    {
        let cells = same_cells(&self.cells, &other.cells);
        let stood = same_stand_downs(&self.stand_down, &other.stand_down);
        cells && stood
    }

    /// What the projection holds at the given cells and subjects.
    pub fn sparse_entries(
        &self,
        cells: &OrdSet<ExclusiveCell>,
        subjects: &OrdSet<DeviceId>,
    ) -> (r: (OrdMap<ExclusiveCell, Prior<CellProjection>>, OrdMap<DeviceId, Prior<StandDown>>))
        ensures
            r.0@ == capture::sampled(self@.cells, cells@),
            r.1@ == capture::sampled(self@.stand_down, subjects@),
    {
        (sample(&self.cells, cells), sample(&self.stand_down, subjects))
    }

    /// Puts the recorded entries back.
    pub fn restore_sparse_entries(
        &mut self,
        cells: &OrdMap<ExclusiveCell, Prior<CellProjection>>,
        stand_down: &OrdMap<DeviceId, Prior<StandDown>>,
    )
        ensures
            final(self)@.cells == capture::restored(old(self)@.cells, cells@),
            final(self)@.stand_down == capture::restored(old(self)@.stand_down, stand_down@),
    {
        put_back(&mut self.cells, cells);
        put_back(&mut self.stand_down, stand_down);
    }

    /// What changed since the sample was taken.
    pub fn delta_from_sparse(
        &self,
        base_generation: u64,
        generation: u64,
        cells: &OrdMap<ExclusiveCell, Prior<CellProjection>>,
        stand_down: &OrdMap<DeviceId, Prior<StandDown>>,
    ) -> (r: ProjectionDelta)
        ensures
            r@ == (DeltaView {
                base_generation,
                generation,
                cells: changes(self@.cells, cells@),
                stand_down: changes(self@.stand_down, stand_down@),
            }),
    {
        let mut changed: OrdMap<ExclusiveCell, Prior<CellProjection>> = OrdMap::new();
        let list = cells.keys();
        let n: usize = list.len();
        assert(list@.take(0).to_set() =~= Set::<ExclusiveCell>::empty());
        assert(changed@ =~= changes(self@.cells, cells@.restrict(list@.take(0).to_set())));
        for i in 0..n
            invariant
                n == list@.len(),
                forall|k: ExclusiveCell| #[trigger] list@.contains(k) <==> cells@.contains_key(k),
                changed@ == changes(self@.cells, cells@.restrict(list@.take(i as int).to_set())),
        {
            assert(list@.contains(list@[i as int]));
            let now = self.cells.get(&list[i]);
            if !same_state(now, &cells.value(&list[i]).held) {
                let entry = match now {
                    Some(c) => Prior { held: Some(c.duplicate()) },
                    None => Prior { held: None },
                };
                changed.insert(list[i], entry);
            }
            proof {
                ordset::lemma_take_set(list@, i as int);
                assert(changed@ =~= changes(
                    self@.cells,
                    cells@.restrict(list@.take(i + 1).to_set()),
                ));
            }
        }
        proof {
            assert(list@.take(n as int) =~= list@);
            assert(cells@.restrict(list@.to_set()) =~= cells@);
        }
        let mut stood: OrdMap<DeviceId, Prior<StandDown>> = OrdMap::new();
        let names = stand_down.keys();
        let m: usize = names.len();
        assert(names@.take(0).to_set() =~= Set::<DeviceId>::empty());
        assert(stood@ =~= changes(
            self@.stand_down,
            stand_down@.restrict(names@.take(0).to_set()),
        ));
        for i in 0..m
            invariant
                m == names@.len(),
                forall|k: DeviceId| #[trigger]
                    names@.contains(k) <==> stand_down@.contains_key(k),
                stood@ == changes(
                    self@.stand_down,
                    stand_down@.restrict(names@.take(i as int).to_set()),
                ),
        {
            assert(names@.contains(names@[i as int]));
            let now = self.stand_down.get(&names[i]);
            if !same_stand(now, &stand_down.value(&names[i]).held) {
                let entry = match now {
                    Some(s) => Prior { held: Some(*s) },
                    None => Prior { held: None },
                };
                stood.insert(names[i], entry);
            }
            proof {
                ordset::lemma_take_set(names@, i as int);
                assert(stood@ =~= changes(
                    self@.stand_down,
                    stand_down@.restrict(names@.take(i + 1).to_set()),
                ));
            }
        }
        proof {
            assert(names@.take(m as int) =~= names@);
            assert(stand_down@.restrict(names@.to_set()) =~= stand_down@);
        }
        ProjectionDelta { base_generation, generation, cells: changed, stand_down: stood }
    }
}

fn same_cells(
    a: &OrdMap<ExclusiveCell, CellProjection>,
    b: &OrdMap<ExclusiveCell, CellProjection>,
) -> (r: bool)
    ensures
        r <==> a@ == b@,
{
    let ka = a.keys();
    let kb = b.keys();
    if !same_keys(&ka, &kb) {
        assert(a@ == b@ ==> ka@ == kb@);
        return false;
    }
    let n: usize = ka.len();
    for i in 0..n
        invariant
            n == ka@.len(),
            forall|k: ExclusiveCell| #[trigger] ka@.contains(k) <==> a@.contains_key(k),
            forall|k: ExclusiveCell| #[trigger] ka@.contains(k) <==> b@.contains_key(k),
            forall|j: int| 0 <= j < i ==> a@[#[trigger] ka@[j]] == b@[ka@[j]],
    {
        assert(ka@.contains(ka@[i as int]));
        if !a.value(&ka[i]).same(b.value(&ka[i])) {
            return false;
        }
    }
    proof {
        assert forall|k: ExclusiveCell| #[trigger] a@.contains_key(k) implies a@[k] == b@[k] by {
            assert(ka@.contains(k));
            let j = choose|j: int| 0 <= j < ka@.len() && ka@[j] == k;
            assert(a@[ka@[j]] == b@[ka@[j]]);
        }
        assert(a@.dom() =~= b@.dom()) by {
            assert(ka@.to_set() == kb@.to_set());
        }
        assert(a@ =~= b@);
    }
    true
}

fn same_stand_downs(a: &OrdMap<DeviceId, StandDown>, b: &OrdMap<DeviceId, StandDown>) -> (r: bool)
    ensures
        r <==> a@ == b@,
{
    let ka = a.keys();
    let kb = b.keys();
    if !same_keys(&ka, &kb) {
        assert(a@ == b@ ==> ka@ == kb@);
        return false;
    }
    let n: usize = ka.len();
    for i in 0..n
        invariant
            n == ka@.len(),
            forall|k: DeviceId| #[trigger] ka@.contains(k) <==> a@.contains_key(k),
            forall|k: DeviceId| #[trigger] ka@.contains(k) <==> b@.contains_key(k),
            forall|j: int| 0 <= j < i ==> a@[#[trigger] ka@[j]] == b@[ka@[j]],
    {
        assert(ka@.contains(ka@[i as int]));
        if !a.value(&ka[i]).proof.same(&b.value(&ka[i]).proof) {
            return false;
        }
    }
    proof {
        assert forall|k: DeviceId| #[trigger] a@.contains_key(k) implies a@[k] == b@[k] by {
            assert(ka@.contains(k));
            let j = choose|j: int| 0 <= j < ka@.len() && ka@[j] == k;
            assert(a@[ka@[j]] == b@[ka@[j]]);
        }
        assert(a@.dom() =~= b@.dom()) by {
            assert(ka@.to_set() == kb@.to_set());
        }
        assert(a@ =~= b@);
    }
    true
}

/// Follows a chain of resolutions of one cell to its end.
fn settle(graph: &FactGraph, cell: &ExclusiveCell, head: FactId) -> (r: FactId)
    ensures
        r == settled(graph@.facts, *cell, head, Set::empty()),
{
    let ghost facts = graph@.facts;
    let _ = graph.facts.len();
    let mut id = head;
    let mut seen: OrdSet<FactId> = OrdSet::new();
    loop
        invariant
            facts == graph@.facts,
            facts.dom().finite(),
            settled(facts, *cell, id, seen@) == settled(facts, *cell, head, Set::empty()),
        decreases facts.dom().difference(seen@).len(),
    {
        let next = match graph.facts.get(&id) {
            Some(f) => match &f.content.body {
                FactBody::Resolution { cell: c, selected_head, .. } => if c.same(cell) {
                    Some(*selected_head)
                } else {
                    None
                },
                _ => None,
            },
            None => None,
        };
        match next {
            None => {
                return id;
            },
            Some(selected) => {
                let ghost before = seen@;
                if !seen.insert(id) {
                    return id;
                }
                if seen.contains(&selected) {
                    return id;
                }
                proof {
                    assert(reach::parent_edges(facts).dom() =~= facts.dom());
                    reach::lemma_unseen(reach::parent_edges(facts), before, id);
                }
                id = selected;
            },
        }
    }
}

impl FactGraph {
    pub fn projection(&self) -> (r: Projection)
        ensures
            r@ == current(self@),
    {
        if self.indexes_current() {
            if let Some(c) = &self.cache {
                if c.generation == self.fence.generation {
                    return c.projection.duplicate();
                }
            }
        }
        Projection::from_graph(self)
    }

    /// Takes the cached projection out to be updated.
    pub(crate) fn projection_for_update(&mut self) -> (r: Projection)
        ensures
            r@ == base(old(self)@),
            final(self)@ == (GraphView { cache: None, ..old(self)@ }),
    {
        let taken = self.cache.take();
        assert(self@ =~= (GraphView { cache: None, ..old(self)@ }));
        if let Some(c) = taken {
            if c.generation == self.fence.generation {
                return c.projection;
            }
        }
        Projection::from_graph(self)
    }

    /// Return the maximal active stand-down evidence for one subject.  These
    /// facts are outside the ordinary exclusive-cell union, so a restoration
    /// must carry them explicitly rather than silently omitting the proof.
    pub fn stand_down_heads(&self, subject: &DeviceId) -> (r: Vec<FactId>)
        ensures
            r@ == order::ascending(authority::stand_down_heads(self@.reading(), *subject)),
            r@.to_set() == authority::stand_down_heads(self@.reading(), *subject),
    {
        let ghost g = self@.reading();
        let current = self.indexes_current();
        let list = if current {
            list_at(&self.index.stand_down, subject)
        } else {
            self.facts.keys()
        };
        let n: usize = list.len();
        let ghost keep = |id: FactId|
            authority::is_authoritative(g, id) && (current || g.facts[id].content.body.stands_down()
                == Some(*subject));
        let mut all: OrdSet<FactId> = OrdSet::new();
        assert(list@.take(0).to_set() =~= Set::<FactId>::empty());
        assert(all@ =~= list@.take(0).to_set().filter(keep));
        for i in 0..n
            invariant
                n == list@.len(),
                g == self@.reading(),
                !current ==> forall|k: FactId| #[trigger]
                    list@.contains(k) <==> g.facts.contains_key(k),
                keep == (|id: FactId|
                    authority::is_authoritative(g, id) && (current
                        || g.facts[id].content.body.stands_down() == Some(*subject))),
                all@ == list@.take(i as int).to_set().filter(keep),
        {
            proof {
                ordset::lemma_take_set(list@, i as int);
                assert(list@.contains(list@[i as int]));
            }
            let about = current || match self.facts.get(&list[i]) {
                Some(f) => match f.content.body.stand_down_target() {
                    Some(t) => t.same(subject),
                    None => false,
                },
                None => false,
            };
            if about && self.fact_is_authoritative(&list[i]) {
                all.insert(list[i]);
            }
            assert(all@ =~= list@.take(i + 1).to_set().filter(keep));
        }
        assert(list@.take(n as int) =~= list@);
        if !current {
            assert(all@ =~= g.facts.dom().filter(
                |id: FactId|
                    g.facts[id].content.body.stands_down() == Some(*subject)
                        && authority::is_authoritative(g, id),
            ));
            return self.tops(&all).to_vec();
        }
        assert(all@ =~= multimap::at(g.index.stand_down, *subject).filter(
            |id: FactId| authority::is_authoritative(g, id),
        ));
        self.not_built_on(&all).to_vec()
    }

    /// Of `ids`, those that no other of them names as a direct input.
    fn not_built_on(&self, ids: &OrdSet<FactId>) -> (r: OrdSet<FactId>)
        ensures
            r@ == ids@.filter(
                |c: FactId|
                    !exists|other: FactId| #[trigger]
                        ids@.contains(other) && other != c && self@.facts.contains_key(other)
                            && self@.facts[other].inputs().contains(c),
            ),
    {
        let ghost facts = self@.facts;
        let list = ids.to_vec();
        let n: usize = list.len();
        let mut r = ids.duplicate();
        let ghost built = |c: FactId, other: FactId|
            other != c && facts.contains_key(other) && facts[other].inputs().contains(c);
        for i in 0..n
            invariant
                n == list@.len(),
                facts == self@.facts,
                forall|k: FactId| #[trigger] list@.contains(k) <==> ids@.contains(k),
                built == (|c: FactId, other: FactId|
                    other != c && facts.contains_key(other) && facts[other].inputs().contains(c)),
                forall|c: FactId| #[trigger]
                    r@.contains(c) <==> ids@.contains(c) && forall|j: int|
                        0 <= j < i ==> !built(c, #[trigger] list@[j]),
        {
            let ghost before = r@;
            let other = list[i];
            if let Some(f) = self.facts.get(&other) {
                let inputs = dependencies(f);
                let m: usize = inputs.len();
                assert(inputs@.take(0).to_set() =~= Set::<FactId>::empty());
                assert(r@ =~= before.difference(inputs@.take(0).to_set().remove(other)));
                for k in 0..m
                    invariant
                        m == inputs@.len(),
                        r@ == before.difference(inputs@.take(k as int).to_set().remove(other)),
                {
                    if !inputs[k].same(&other) {
                        r.remove(&inputs[k]);
                    }
                    proof {
                        ordset::lemma_take_set(inputs@, k as int);
                        assert(r@ =~= before.difference(
                            inputs@.take(k + 1).to_set().remove(other),
                        ));
                    }
                }
                assert(inputs@.take(m as int) =~= inputs@);
            }
            assert forall|c: FactId| #[trigger] r@.contains(c) <==> ids@.contains(c) && forall|
                j: int,
            |
                0 <= j < i + 1 ==> !built(c, #[trigger] list@[j]) by {
                assert(r@.contains(c) <==> before.contains(c) && !built(c, other));
                if r@.contains(c) {
                    assert forall|j: int| 0 <= j < i + 1 implies !built(c, #[trigger] list@[j]) by {
                        if j == i {
                            assert(list@[j] == other);
                        }
                    }
                }
                if ids@.contains(c) && forall|j: int|
                    0 <= j < i + 1 ==> !built(c, #[trigger] list@[j]) {
                    assert(!built(c, list@[i as int]));
                    assert(forall|j: int| 0 <= j < i ==> !built(c, #[trigger] list@[j]));
                }
            }
        }
        proof {
            let want = ids@.filter(
                |c: FactId|
                    !exists|other: FactId| #[trigger]
                        ids@.contains(other) && other != c && facts.contains_key(other)
                            && facts[other].inputs().contains(c),
            );
            assert forall|c: FactId| #[trigger] r@.contains(c) <==> want.contains(c) by {
                if r@.contains(c) {
                    assert forall|other: FactId| #[trigger] ids@.contains(other) implies !(other
                        != c && facts.contains_key(other) && facts[other].inputs().contains(
                        c,
                    )) by {
                        assert(list@.contains(other));
                        let j = choose|j: int| 0 <= j < list@.len() && list@[j] == other;
                        assert(!built(c, list@[j]));
                    }
                }
                if want.contains(c) {
                    assert forall|j: int| 0 <= j < n implies !built(c, #[trigger] list@[j]) by {
                        assert(list@.contains(list@[j]));
                        assert(ids@.contains(list@[j]));
                    }
                }
            }
            assert(r@ =~= want);
        }
        r
    }
}

} // verus!

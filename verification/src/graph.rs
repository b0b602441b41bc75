//! The fact graph: its parts and their views.

use vstd::prelude::*;

use crate::content::ExclusiveCell;
use crate::device::DeviceId;
use crate::fact::{Facts, SignedFact};
use crate::ids::{FactId, MeshContextId};
use crate::order;
use crate::order::{Key, Rel};
use crate::ordmap::OrdMap;
use crate::ordset::{copy_keys, Duplicate, OrdSet};
use crate::policy::{SemanticAdmissionPolicy, VerifiedBootstrap, VerifiedProjectPolicy};

verus! {

/// Read-only relations proved from admitted signed ancestry. All equalities
/// are inclusive; in particular a losing cited head is not post-selector.
#[derive(Debug, Clone, Copy, PartialEq, Eq)]
pub struct AuthoritySelectorRelation {
    pub selected: FactId,
    pub post_selector: bool,
    pub selected_before: bool,
    pub before_selected: bool,
}

impl View for AuthoritySelectorRelation {
    type V = AuthoritySelectorRelation;

    open spec fn view(&self) -> AuthoritySelectorRelation {
        *self
    }
}

impl Duplicate for AuthoritySelectorRelation {
    fn duplicate(&self) -> (r: Self) {
        *self
    }
}

impl AuthoritySelectorRelation {
    /// Whether one of the relations holds.
    pub open spec fn holds(self) -> bool {
        self.post_selector || self.selected_before || self.before_selected
    }

    pub fn any(&self) -> (r: bool)
        ensures
            r == self.holds(),
    {
        self.post_selector || self.selected_before || self.before_selected
    }

    pub fn same(&self, other: &AuthoritySelectorRelation) -> (r: bool)
        ensures
            r <==> *self == *other,
    {
        self.selected.same(&other.selected) && self.post_selector == other.post_selector
            && self.selected_before == other.selected_before && self.before_selected
            == other.before_selected
    }
}

/// A typed selector with the branch that it selects.
#[derive(Debug, Clone, Copy, PartialEq, Eq, PartialOrd, Ord, Hash)]
pub struct Selection {
    pub selector: FactId,
    pub selected: FactId,
}

impl View for Selection {
    type V = Selection;

    open spec fn view(&self) -> Selection {
        *self
    }
}

impl Key for Selection {
    open spec fn rank(self) -> Seq<int> {
        order::ints(self.selector.digest()) + order::ints(self.selected.digest())
    }

    proof fn rank_injective(a: Self, b: Self) {
        FactId::lemma_digest(a.selector, b.selector);
        FactId::lemma_digest(b.selector, a.selector);
        FactId::lemma_digest(a.selected, b.selected);
        let x = order::ints(a.selector.digest());
        let y = order::ints(b.selector.digest());
        assert(x =~= a.rank().take(32));
        assert(y =~= b.rank().take(32));
        assert(order::ints(a.selected.digest()) =~= a.rank().skip(32));
        assert(order::ints(b.selected.digest()) =~= b.rank().skip(32));
        order::lemma_ints_injective(a.selector.digest(), b.selector.digest());
        order::lemma_ints_injective(a.selected.digest(), b.selected.digest());
    }

    fn relate(&self, other: &Self) -> (r: Rel) {
        proof {
            FactId::lemma_digest(self.selector, other.selector);
            FactId::lemma_digest(other.selector, self.selector);
            FactId::lemma_order(self.selector, other.selector);
            FactId::lemma_order(other.selector, self.selector);
            FactId::lemma_order(self.selected, other.selected);
            FactId::lemma_order(other.selected, self.selected);
            let x = order::ints(self.selector.digest());
            let y = order::ints(other.selector.digest());
            let p = order::ints(self.selected.digest());
            let q = order::ints(other.selected.digest());
            order::lemma_lex_concat(x, y, p, q);
            order::lemma_lex_concat(y, x, q, p);
            order::lemma_lex_exclusive(self.rank(), other.rank());
            order::lemma_lex_exclusive(p, q);
        }
        match self.selector.relate(&other.selector) {
            Rel::Same => self.selected.relate(&other.selected),
            other => other,
        }
    }
}

/// What an author holds: how many facts, of how many bytes.
#[derive(Debug, Clone, Copy, PartialEq, Eq, Structural)]
pub struct Usage {
    pub facts: u64,
    pub bytes: u64,
}

impl View for Usage {
    type V = Usage;

    open spec fn view(&self) -> Usage {
        *self
    }
}

impl Duplicate for Usage {
    fn duplicate(&self) -> (r: Self) {
        *self
    }
}

/// The usage at an author; an absent author holds nothing.
pub open spec fn usage_of(m: Map<DeviceId, Usage>, author: DeviceId) -> Usage {
    if m.contains_key(author) {
        m[author]
    } else {
        Usage { facts: 0, bytes: 0 }
    }
}

pub fn usage_at(map: &OrdMap<DeviceId, Usage>, author: &DeviceId) -> (r: Usage)
    ensures
        r == usage_of(map@, *author),
{
    match map.get(author) {
        Some(u) => *u,
        None => Usage { facts: 0, bytes: 0 },
    }
}

/// The selectors that a fact is related to.
pub type RowView = Map<FactId, AuthoritySelectorRelation>;

pub type Row = OrdMap<FactId, AuthoritySelectorRelation>;

/// What the derived indexes hold.
#[verifier::ext_equal]
pub struct IndexView {
    pub cell_heads: Map<ExclusiveCell, Set<FactId>>,
    pub authority_heads: Map<DeviceId, Set<FactId>>,
    pub authority_facts: Map<DeviceId, Set<FactId>>,
    pub selectors: Map<DeviceId, Set<Selection>>,
    pub provenance: Map<FactId, RowView>,
    pub cells: Set<ExclusiveCell>,
    pub stand_down: Map<DeviceId, Set<FactId>>,
}

/// Indexes derived from the admitted graph.  Durable facts remain the sole
/// authority; the indexes are rebuilt whenever a loader has populated the
/// facts directly.
#[derive(Debug, PartialEq, Eq)]
pub struct Indexes {
    pub cell_heads: OrdMap<ExclusiveCell, OrdSet<FactId>>,
    pub authority_heads: OrdMap<DeviceId, OrdSet<FactId>>,
    /// Subject-scoped authority-use rows.
    pub authority_facts: OrdMap<DeviceId, OrdSet<FactId>>,
    pub selectors: OrdMap<DeviceId, OrdSet<Selection>>,
    /// Sparse per-row selector reachability, derived while canonical ancestry
    /// is available.
    pub provenance: OrdMap<FactId, Row>,
    pub cells: OrdSet<ExclusiveCell>,
    pub stand_down: OrdMap<DeviceId, OrdSet<FactId>>,
}

impl View for Indexes {
    type V = IndexView;

    open spec fn view(&self) -> IndexView {
        IndexView {
            cell_heads: self.cell_heads@,
            authority_heads: self.authority_heads@,
            authority_facts: self.authority_facts@,
            selectors: self.selectors@,
            provenance: self.provenance@,
            cells: self.cells@,
            stand_down: self.stand_down@,
        }
    }
}

impl Duplicate for Indexes {
    fn duplicate(&self) -> (r: Self) {
        Indexes {
            cell_heads: self.cell_heads.duplicate(),
            authority_heads: self.authority_heads.duplicate(),
            authority_facts: self.authority_facts.duplicate(),
            selectors: self.selectors.duplicate(),
            provenance: self.provenance.duplicate(),
            cells: self.cells.duplicate(),
            stand_down: self.stand_down.duplicate(),
        }
    }
}

/// Indexes of nothing.
pub open spec fn no_index() -> IndexView {
    IndexView {
        cell_heads: Map::empty(),
        authority_heads: Map::empty(),
        authority_facts: Map::empty(),
        selectors: Map::empty(),
        provenance: Map::empty(),
        cells: Set::empty(),
        stand_down: Map::empty(),
    }
}

impl Indexes {
    pub fn new() -> (r: Self)
        ensures
            r@ == no_index(),
    {
        Indexes {
            cell_heads: OrdMap::new(),
            authority_heads: OrdMap::new(),
            authority_facts: OrdMap::new(),
            selectors: OrdMap::new(),
            provenance: OrdMap::new(),
            cells: OrdSet::new(),
            stand_down: OrdMap::new(),
        }
    }
}

/// What the quarantine holds.
#[verifier::ext_equal]
pub struct QuarantineView {
    pub facts: Facts,
    pub missing: Map<FactId, Set<FactId>>,
    pub waiting: Map<FactId, Set<FactId>>,
    pub ready: Set<FactId>,
    pub bytes: u64,
    pub edges: u64,
    pub by_author: Map<DeviceId, Usage>,
}

/// Facts whose dependencies are not all admitted, with what each waits for.
#[derive(Debug, PartialEq, Eq)]
pub struct Quarantine {
    pub facts: OrdMap<FactId, SignedFact>,
    pub missing: OrdMap<FactId, OrdSet<FactId>>,
    pub waiting: OrdMap<FactId, OrdSet<FactId>>,
    pub ready: OrdSet<FactId>,
    pub bytes: u64,
    pub edges: u64,
    pub by_author: OrdMap<DeviceId, Usage>,
}

impl View for Quarantine {
    type V = QuarantineView;

    open spec fn view(&self) -> QuarantineView {
        QuarantineView {
            facts: self.facts@,
            missing: self.missing@,
            waiting: self.waiting@,
            ready: self.ready@,
            bytes: self.bytes,
            edges: self.edges,
            by_author: self.by_author@,
        }
    }
}

impl Duplicate for Quarantine {
    fn duplicate(&self) -> (r: Self) {
        Quarantine {
            facts: self.facts.duplicate(),
            missing: self.missing.duplicate(),
            waiting: self.waiting.duplicate(),
            ready: self.ready.duplicate(),
            bytes: self.bytes,
            edges: self.edges,
            by_author: self.by_author.duplicate(),
        }
    }
}

/// A quarantine that holds nothing.
pub open spec fn no_quarantine() -> QuarantineView {
    QuarantineView {
        facts: Map::empty(),
        missing: Map::empty(),
        waiting: Map::empty(),
        ready: Set::empty(),
        bytes: 0,
        edges: 0,
        by_author: Map::empty(),
    }
}

impl Quarantine {
    pub fn new() -> (r: Self)
        ensures
            r@ == no_quarantine(),
    {
        Quarantine {
            facts: OrdMap::new(),
            missing: OrdMap::new(),
            waiting: OrdMap::new(),
            ready: OrdSet::new(),
            bytes: 0,
            edges: 0,
            by_author: OrdMap::new(),
        }
    }
}

/// What the admitted history owns.
#[verifier::ext_equal]
pub struct LedgerView {
    pub fact_count: u64,
    pub bytes: u64,
    pub index_bytes: u64,
    pub edges: u64,
    pub retained: Map<DeviceId, Usage>,
}

/// Owner-funded totals of the admitted history, cold rows among it.
#[derive(Debug, PartialEq, Eq)]
pub struct Ledger {
    /// Total admitted history, with the rows whose signed bodies have been
    /// retired from the live continuation set.
    pub fact_count: u64,
    pub bytes: u64,
    /// Residency of the derived indexes, charged against the same envelope
    /// as durable facts.
    pub index_bytes: u64,
    pub edges: u64,
    pub retained: OrdMap<DeviceId, Usage>,
}

impl View for Ledger {
    type V = LedgerView;

    open spec fn view(&self) -> LedgerView {
        LedgerView {
            fact_count: self.fact_count,
            bytes: self.bytes,
            index_bytes: self.index_bytes,
            edges: self.edges,
            retained: self.retained@,
        }
    }
}

impl Duplicate for Ledger {
    fn duplicate(&self) -> (r: Self) {
        Ledger {
            fact_count: self.fact_count,
            bytes: self.bytes,
            index_bytes: self.index_bytes,
            edges: self.edges,
            retained: self.retained.duplicate(),
        }
    }
}

/// A ledger that owns nothing.
pub open spec fn no_ledger() -> LedgerView {
    LedgerView { fact_count: 0, bytes: 0, index_bytes: 0, edges: 0, retained: Map::empty() }
}

impl Ledger {
    pub fn new() -> (r: Self)
        ensures
            r@ == no_ledger(),
    {
        Ledger { fact_count: 0, bytes: 0, index_bytes: 0, edges: 0, retained: OrdMap::new() }
    }
}

/// Revisions and counters that fence derived state.
#[derive(Debug, Clone, Copy, PartialEq, Eq, Structural)]
pub struct Fence {
    pub indexed_fact_count: usize,
    pub facts_revision: u64,
    pub indexed_revision: u64,
    /// Local in-process projection revision; restore starts it from zero.
    pub generation: u64,
    pub cold_history_since_retirement: usize,
    pub staged_cold_pending: usize,
}

/// The fence of a graph that nothing happened to.
pub open spec fn no_fence() -> Fence {
    Fence {
        indexed_fact_count: 0,
        facts_revision: 0,
        indexed_revision: 0,
        generation: 0,
        cold_history_since_retirement: 0,
        staged_cold_pending: 0,
    }
}

impl Fence {
    pub fn new() -> (r: Self)
        ensures
            r == no_fence(),
    {
        Fence {
            indexed_fact_count: 0,
            facts_revision: 0,
            indexed_revision: 0,
            generation: 0,
            cold_history_since_retirement: 0,
            staged_cold_pending: 0,
        }
    }
}

/// What a graph is bound to.
#[verifier::ext_equal]
pub struct SettingView {
    pub context_id: MeshContextId,
    pub roots: Set<DeviceId>,
    pub policy: VerifiedProjectPolicy,
    pub limits: SemanticAdmissionPolicy,
}

/// The bootstrap context and the limits of a graph.
#[derive(Debug, PartialEq, Eq)]
pub struct Setting {
    pub context_id: MeshContextId,
    pub roots: OrdSet<DeviceId>,
    pub policy: VerifiedProjectPolicy,
    pub limits: SemanticAdmissionPolicy,
}

impl View for Setting {
    type V = SettingView;

    open spec fn view(&self) -> SettingView {
        SettingView {
            context_id: self.context_id,
            roots: self.roots@,
            policy: self.policy,
            limits: self.limits,
        }
    }
}

impl Duplicate for Setting {
    fn duplicate(&self) -> (r: Self) {
        Setting {
            context_id: self.context_id,
            roots: self.roots.duplicate(),
            policy: self.policy,
            limits: self.limits,
        }
    }
}

/// What is projected for a cell.
pub enum CellView {
    Value(FactId),
    Conflict(Seq<FactId>),
}

/// The projected state of a cell: the fact that decides it, or the heads
/// that no one of decides it.
#[derive(Debug, PartialEq, Eq)]
pub enum CellProjection {
    Value(FactId),
    Conflict(Vec<FactId>),
}

impl View for CellProjection {
    type V = CellView;

    open spec fn view(&self) -> CellView {
        match *self {
            CellProjection::Value(id) => CellView::Value(id),
            CellProjection::Conflict(ids) => CellView::Conflict(ids@),
        }
    }
}

impl Duplicate for CellProjection {
    fn duplicate(&self) -> (r: Self) {
        match self {
            CellProjection::Value(id) => CellProjection::Value(*id),
            CellProjection::Conflict(ids) => CellProjection::Conflict(copy_keys(ids)),
        }
    }
}

/// Active stand-down evidence against a device.
#[derive(Debug, Clone, Copy, PartialEq, Eq)]
pub struct StandDown {
    pub proof: FactId,
}

impl View for StandDown {
    type V = FactId;

    open spec fn view(&self) -> FactId {
        self.proof
    }
}

impl Duplicate for StandDown {
    fn duplicate(&self) -> (r: Self) {
        *self
    }
}

/// What a projection holds.
#[verifier::ext_equal]
pub struct ProjectionView {
    pub cells: Map<ExclusiveCell, CellView>,
    pub stand_down: Map<DeviceId, FactId>,
}

/// The projected state of every cell and the active stand-downs.
#[derive(Debug, PartialEq, Eq)]
pub struct Projection {
    pub cells: OrdMap<ExclusiveCell, CellProjection>,
    pub stand_down: OrdMap<DeviceId, StandDown>,
}

impl View for Projection {
    type V = ProjectionView;

    open spec fn view(&self) -> ProjectionView {
        ProjectionView { cells: self.cells@, stand_down: self.stand_down@ }
    }
}

impl Duplicate for Projection {
    fn duplicate(&self) -> (r: Self) {
        Projection { cells: self.cells.duplicate(), stand_down: self.stand_down.duplicate() }
    }
}

/// A projection with the generation that it was computed at.
#[derive(Debug, PartialEq, Eq)]
pub struct Cached {
    pub generation: u64,
    pub projection: Projection,
}

/// The view of a cached projection.
pub open spec fn cache_view(cache: Option<Cached>) -> Option<(u64, ProjectionView)> {
    match cache {
        Some(c) => Some((c.generation, c.projection@)),
        None => None,
    }
}

/// What a graph holds.
#[verifier::ext_equal]
pub struct GraphView {
    pub facts: Facts,
    pub order: Seq<FactId>,
    pub index: IndexView,
    pub quarantine: QuarantineView,
    pub ledger: LedgerView,
    pub fence: Fence,
    pub setting: SettingView,
    pub cache: Option<(u64, ProjectionView)>,
}

/// An arrival-order-independent set of verified canonical facts.
#[derive(Debug, PartialEq, Eq)]
pub struct FactGraph {
    pub facts: OrdMap<FactId, SignedFact>,
    /// Canonical admission order.
    pub order: Vec<FactId>,
    pub index: Indexes,
    pub quarantine: Quarantine,
    pub ledger: Ledger,
    pub fence: Fence,
    pub setting: Setting,
    pub cache: Option<Cached>,
}

impl View for FactGraph {
    type V = GraphView;

    open spec fn view(&self) -> GraphView {
        GraphView {
            facts: self.facts@,
            order: self.order@,
            index: self.index@,
            quarantine: self.quarantine@,
            ledger: self.ledger@,
            fence: self.fence,
            setting: self.setting@,
            cache: cache_view(self.cache),
        }
    }
}

/// The graph that a bootstrap starts.
pub open spec fn started(setting: SettingView) -> GraphView {
    GraphView {
        facts: Map::empty(),
        order: Seq::empty(),
        index: no_index(),
        quarantine: no_quarantine(),
        ledger: no_ledger(),
        fence: no_fence(),
        setting,
        cache: None,
    }
}

/// The setting that a bootstrap and limits make up.
pub open spec fn setting_of(
    bootstrap: VerifiedBootstrap,
    limits: SemanticAdmissionPolicy,
) -> SettingView {
    SettingView {
        context_id: bootstrap.context,
        roots: bootstrap.roots@.to_set(),
        policy: bootstrap.policy,
        limits,
    }
}

/// What authority is read from: facts, their indexes, and whether the indexes
/// are current.
#[verifier::ext_equal]
pub struct Reading {
    pub facts: Facts,
    pub index: IndexView,
    pub current: bool,
}

impl GraphView {
    /// What authority is read from.
    pub open spec fn reading(self) -> Reading {
        Reading { facts: self.facts, index: self.index, current: self.indexes_current() }
    }

    /// Whether the indexes describe the facts as they are.
    pub open spec fn indexes_current(self) -> bool {
        self.fence.indexed_fact_count == self.facts.dom().len() && self.fence.indexed_revision
            == self.fence.facts_revision
    }

    /// Whether the history is no larger than what is resident.
    pub open spec fn is_complete(self) -> bool {
        self.ledger.fact_count <= self.facts.dom().len()
    }
}

impl Duplicate for FactGraph {
    fn duplicate(&self) -> (r: Self) {
        FactGraph {
            facts: self.facts.duplicate(),
            order: copy_keys(&self.order),
            index: self.index.duplicate(),
            quarantine: self.quarantine.duplicate(),
            ledger: self.ledger.duplicate(),
            fence: self.fence,
            setting: self.setting.duplicate(),
            cache: match &self.cache {
                Some(c) => Some(
                    Cached { generation: c.generation, projection: c.projection.duplicate() },
                ),
                None => None,
            },
        }
    }
}

impl FactGraph {
    /// Construct a graph with an immutable, owner-selected aggregate budget.
    /// The graph owns the policy snapshot, so callers cannot supply an
    /// unrelated root set or leave the graph context unbound.
    pub fn from_bootstrap_with_policy(
        bootstrap: &VerifiedBootstrap,
        limits: SemanticAdmissionPolicy,
    ) -> (r: Self)
        ensures
            r@ == started(setting_of(*bootstrap, limits)),
            crate::quarantine::owned(r@),
    {
        proof {
            crate::standing::started_graph_stands(setting_of(*bootstrap, limits));
        }
        FactGraph::empty(
            Setting {
                context_id: bootstrap.context,
                roots: OrdSet::from_vec(&bootstrap.roots),
                policy: bootstrap.policy,
                limits,
            },
        )
    }

    pub fn from_bootstrap(bootstrap: &VerifiedBootstrap) -> (r: Self)
        ensures
            r@ == started(setting_of(*bootstrap, crate::policy::default_policy())),
            crate::quarantine::owned(r@),
    {
        FactGraph::from_bootstrap_with_policy(bootstrap, SemanticAdmissionPolicy::default())
    }

    pub(crate) fn empty(setting: Setting) -> (r: Self)
        ensures
            r@ == started(setting@),
    {
        let r = FactGraph {
            facts: OrdMap::new(),
            order: Vec::new(),
            index: Indexes::new(),
            quarantine: Quarantine::new(),
            ledger: Ledger::new(),
            fence: Fence::new(),
            setting,
            cache: None,
        };
        assert(r@ =~= started(setting@));
        r
    }

    pub fn context_id(&self) -> (r: MeshContextId)
        ensures
            r == self@.setting.context_id,
    {
        self.setting.context_id
    }

    /// The facts in the history, counted in the machine's word.
    pub fn len(&self) -> (r: usize)
        ensures
            r == (if self@.ledger.fact_count <= usize::MAX {
                self@.ledger.fact_count as usize
            } else {
                usize::MAX
            }),
    {
        if self.ledger.fact_count <= usize::MAX as u64 {
            self.ledger.fact_count as usize
        } else {
            usize::MAX
        }
    }

    pub fn admitted_fact_count(&self) -> (r: u64)
        ensures
            r == self@.ledger.fact_count,
    {
        self.ledger.fact_count
    }

    pub fn is_empty(&self) -> (r: bool)
        ensures
            r <==> self@.ledger.fact_count == 0,
    {
        self.ledger.fact_count == 0
    }

    pub fn get(&self, id: &FactId) -> (r: Option<&SignedFact>)
        ensures
            match r {
                Some(f) => self@.facts.contains_key(*id) && f@ == self@.facts[*id],
                None => !self@.facts.contains_key(*id),
            },
    {
        self.facts.get(id)
    }

    pub fn hot_fact_count(&self) -> (r: usize)
        ensures
            r == self@.facts.dom().len(),
    {
        self.facts.len()
    }

    pub fn indexes_current(&self) -> (r: bool)
        ensures
            r == self@.indexes_current(),
            self@.facts.dom().finite(),
    {
        self.fence.indexed_fact_count == self.facts.len() && self.fence.indexed_revision
            == self.fence.facts_revision
    }

    /// The resident fact identifiers, in order.
    pub fn ids(&self) -> (r: Vec<FactId>)
        ensures
            r@ == order::ascending(self@.facts.dom()),
            order::is_ascending(r@),
            r@.to_set() == self@.facts.dom(),
            self@.facts.dom().finite(),
    {
        self.facts.keys()
    }

    /// Return canonical fact ids strictly after an optional cursor. The
    /// cursor is a stable page boundary for bounded anti-entropy producers:
    /// facts inserted before it may be repaired by a later pass, while facts
    /// after it are observed in deterministic key order.
    pub fn ids_after(&self, cursor: Option<FactId>) -> (r: Vec<FactId>)
        ensures
            order::is_ascending(r@),
            forall|id: FactId| #[trigger]
                r@.contains(id) <==> self@.facts.contains_key(id) && match cursor {
                    Some(c) => order::before(c, id),
                    None => true,
                },
    {
        let all = self.facts.keys();
        let n: usize = all.len();
        let mut r: Vec<FactId> = Vec::new();
        for i in 0..n
            invariant
                n == all@.len(),
                order::is_ascending(all@),
                order::is_ascending(r@),
                forall|id: FactId| #[trigger]
                    r@.contains(id) <==> all@.take(i as int).contains(id) && match cursor {
                        Some(c) => order::before(c, id),
                        None => true,
                    },
        {
            let id = all[i];
            let after = match cursor {
                Some(c) => match c.relate(&id) {
                    Rel::Below => true,
                    _ => false,
                },
                None => true,
            };
            let ghost before = r@;
            if after {
                r.push(id);
                proof {
                    assert forall|a: int, b: int| 0 <= a < b < r@.len() implies #[trigger] order::before(
                        r@[a],
                        r@[b],
                    ) by {
                        if b < before.len() {
                            assert(order::before(before[a], before[b]));
                        } else {
                            let seen = all@.take(i as int);
                            assert(before.contains(before[a]));
                            assert(seen.contains(before[a]));
                            let k = choose|k: int| 0 <= k < seen.len() && seen[k] == before[a];
                            assert(order::before(all@[k], all@[i as int]));
                        }
                    }
                }
            }
            proof {
                crate::ordset::lemma_take_set(all@, i as int);
                crate::content::lemma_push_set(before, id);
                assert forall|x: FactId| #[trigger]
                    r@.contains(x) <==> all@.take(i + 1).contains(x) && match cursor {
                        Some(c) => order::before(c, x),
                        None => true,
                    } by {
                    assert(all@.take(i + 1).to_set().contains(x) <==> all@.take(i + 1).contains(x));
                    assert(all@.take(i as int).to_set().contains(x) <==> all@.take(
                        i as int,
                    ).contains(x));
                    assert(before.push(id).to_set().contains(x) <==> before.push(id).contains(x));
                    assert(before.to_set().contains(x) <==> before.contains(x));
                }
            }
        }
        assert(all@.take(n as int) =~= all@);
        r
    }

    /// The quarantined facts, in order.
    pub fn quarantined(&self) -> (r: Vec<FactId>)
        ensures
            r@ == order::ascending(self@.quarantine.facts.dom()),
            r@.to_set() == self@.quarantine.facts.dom(),
    {
        self.quarantine.facts.keys()
    }

    /// The quarantined fact with an identifier.
    pub fn get_quarantined(&self, id: &FactId) -> (r: Option<&SignedFact>)
        ensures
            match r {
                Some(f) => self@.quarantine.facts.contains_key(*id) && f@
                    == self@.quarantine.facts[*id],
                None => !self@.quarantine.facts.contains_key(*id),
            },
    {
        self.quarantine.facts.get(id)
    }

    /// The totals that a durable owner reconciles: history facts and bytes,
    /// quarantined facts and bytes, and all dependency edges.
    pub fn durable_usage_counters(&self) -> (r: (u64, u64, u64, u64, u64))
        ensures
            r.0 == self@.ledger.fact_count,
            r.1 == self@.ledger.bytes,
            r.2 == self@.quarantine.facts.dom().len(),
            r.3 == self@.quarantine.bytes,
            r.4 == (if self@.ledger.edges + self@.quarantine.edges <= u64::MAX {
                self@.ledger.edges + self@.quarantine.edges
            } else {
                u64::MAX as int
            }),
    {
        (
            self.ledger.fact_count,
            self.ledger.bytes,
            self.quarantine.facts.len() as u64,
            self.quarantine.bytes,
            self.ledger.edges.saturating_add(self.quarantine.edges),
        )
    }
}

} // verus!

//! The bounded continuation state of a graph, written and read back.

use vstd::prelude::*;

use crate::accounting;
use crate::content::{BodyView, ExclusiveCell, FactBody};
use crate::device::DeviceId;
use crate::error::SemanticError;
use crate::fact::{Facts, FactView, SignedFact};
use crate::graph;
use crate::graph::{
    AuthoritySelectorRelation, Cached, CellProjection, CellView, FactGraph, Fence, GraphView,
    IndexView, Indexes, Ledger, LedgerView, Projection, ProjectionView, Quarantine, QuarantineView,
    Row, RowView, Selection, Setting, StandDown, Usage,
};
use crate::ids::{FactId, MeshContextId};
use crate::index;
use crate::listing;
use crate::listing::{list_map, list_sets, read_map, read_set, read_sets};
use crate::multimap;
use crate::multimap::collect;
use crate::order;
use crate::ordmap::OrdMap;
use crate::ordset::{copy_keys, holds, Duplicate, OrdSet};
use crate::policy::{SemanticAdmissionPolicy, VerifiedBootstrap};
use crate::projection;
use crate::rollback::Totals;

verus! {

/// Why a checkpoint is not read back.
#[derive(Debug, Clone, Copy, PartialEq, Eq)]
pub enum CheckpointError {
    /// A signed row or an account is refused.
    Refused(SemanticError),
    /// The record contradicts itself or its history.
    Invalid(&'static str),
}

/// What a checkpoint says.
#[verifier::ext_equal]
pub struct CheckpointView {
    pub version: u16,
    pub context_id: MeshContextId,
    pub facts: Seq<FactView>,
    pub order: Seq<FactId>,
    pub quarantined: Seq<FactView>,
    pub totals: Totals,
    pub by_author: Seq<(DeviceId, Usage)>,
    pub retained: Seq<(DeviceId, Usage)>,
    pub missing: Seq<(FactId, Seq<FactId>)>,
    pub waiting: Seq<(FactId, Seq<FactId>)>,
    pub ready: Seq<FactId>,
    pub cell_heads: Seq<(ExclusiveCell, Seq<FactId>)>,
    pub authority_heads: Seq<(DeviceId, Seq<FactId>)>,
    pub selectors: Seq<(DeviceId, Seq<Selection>)>,
    pub provenance: Seq<(FactId, Seq<(FactId, AuthoritySelectorRelation)>)>,
    pub cells: Seq<ExclusiveCell>,
    pub stand_down: Seq<(DeviceId, Seq<FactId>)>,
    pub facts_revision: u64,
    pub indexed_revision: u64,
    pub generation: u64,
    pub projection_cells: Seq<(ExclusiveCell, CellView)>,
    pub projection_stand_down: Seq<(DeviceId, FactId)>,
    pub committed: ProjectionView,
}

/// Exact bounded continuation state persisted at a clean publication fence.
/// Historical signed bodies remain with their store; this record contains
/// only the live authority state that the next process needs before
/// accepting work.
#[derive(Debug, PartialEq, Eq)]
pub struct LiveFactGraphCheckpoint {
    pub version: u16,
    pub context_id: MeshContextId,
    pub facts: Vec<SignedFact>,
    pub admission_order: Vec<FactId>,
    pub quarantined: Vec<SignedFact>,
    pub totals: Totals,
    pub quarantined_by_author: Vec<(DeviceId, Usage)>,
    pub retained_by_author: Vec<(DeviceId, Usage)>,
    pub quarantine_missing: Vec<(FactId, Vec<FactId>)>,
    pub waiting_by_dependency: Vec<(FactId, Vec<FactId>)>,
    pub ready_quarantine: Vec<FactId>,
    pub cell_heads: Vec<(ExclusiveCell, Vec<FactId>)>,
    pub authority_heads: Vec<(DeviceId, Vec<FactId>)>,
    pub authority_selectors: Vec<(DeviceId, Vec<Selection>)>,
    pub authority_provenance: Vec<(FactId, Vec<(FactId, AuthoritySelectorRelation)>)>,
    pub cells: Vec<ExclusiveCell>,
    pub stand_down_heads: Vec<(DeviceId, Vec<FactId>)>,
    pub facts_revision: u64,
    pub indexed_revision: u64,
    pub generation: u64,
    pub projection_cells: Vec<(ExclusiveCell, CellProjection)>,
    pub projection_stand_down: Vec<(DeviceId, StandDown)>,
    /// The projection that the record is committed to.
    pub committed: Projection,
}

/// The views of a list of facts.
pub open spec fn facts_view(list: Seq<SignedFact>) -> Seq<FactView> {
    list.map_values(|f: SignedFact| f@)
}

impl View for LiveFactGraphCheckpoint {
    type V = CheckpointView;

    open spec fn view(&self) -> CheckpointView {
        CheckpointView {
            version: self.version,
            context_id: self.context_id,
            facts: facts_view(self.facts@),
            order: self.admission_order@,
            quarantined: facts_view(self.quarantined@),
            totals: self.totals,
            by_author: listing::pair_view(self.quarantined_by_author@),
            retained: listing::pair_view(self.retained_by_author@),
            missing: listing::pair_view(self.quarantine_missing@),
            waiting: listing::pair_view(self.waiting_by_dependency@),
            ready: self.ready_quarantine@,
            cell_heads: listing::pair_view(self.cell_heads@),
            authority_heads: listing::pair_view(self.authority_heads@),
            selectors: listing::pair_view(self.authority_selectors@),
            provenance: listing::pair_view(self.authority_provenance@),
            cells: self.cells@,
            stand_down: listing::pair_view(self.stand_down_heads@),
            facts_revision: self.facts_revision,
            indexed_revision: self.indexed_revision,
            generation: self.generation,
            projection_cells: listing::pair_view(self.projection_cells@),
            projection_stand_down: listing::pair_view(self.projection_stand_down@),
            committed: self.committed@,
        }
    }
}

/// The facts of a map, in the order of their keys.
pub open spec fn values_of(facts: Facts) -> Seq<FactView> {
    order::ascending(facts.dom()).map_values(|id: FactId| facts[id])
}

/// The rows of a provenance table, as lists.
pub open spec fn rows_of(rows: Map<FactId, RowView>) -> Seq<
    (FactId, Seq<(FactId, AuthoritySelectorRelation)>),
> {
    order::ascending(rows.dom()).map_values(|id: FactId| (id, listing::entries(rows[id])))
}

/// What a graph is written as.
#[verifier::opaque]
pub open spec fn written(g: GraphView) -> CheckpointView {
    let p = projection::current(g);
    CheckpointView {
        version: 1,
        context_id: g.setting.context_id,
        facts: values_of(g.facts),
        order: g.order,
        quarantined: values_of(g.quarantine.facts),
        totals: crate::rollback::totals_of(g),
        by_author: listing::entries(g.quarantine.by_author),
        retained: listing::entries(g.ledger.retained),
        missing: listing::lists_of(g.quarantine.missing),
        waiting: listing::lists_of(g.quarantine.waiting),
        ready: order::ascending(g.quarantine.ready),
        cell_heads: listing::lists_of(g.index.cell_heads),
        authority_heads: listing::lists_of(g.index.authority_heads),
        selectors: listing::lists_of(g.index.selectors),
        provenance: rows_of(g.index.provenance),
        cells: order::ascending(g.index.cells),
        stand_down: listing::lists_of(g.index.stand_down),
        facts_revision: g.fence.facts_revision,
        indexed_revision: g.fence.indexed_revision,
        generation: g.fence.generation,
        projection_cells: listing::entries(p.cells),
        projection_stand_down: listing::entries(p.stand_down),
        committed: p,
    }
}

/// The first `n` facts of a list by their identifiers; the last of two with
/// one identifier stands.
pub open spec fn by_id(list: Seq<FactView>, n: int) -> Facts
    decreases n,
{
    if n <= 0 {
        Map::empty()
    } else {
        by_id(list, n - 1).insert(list[n - 1].id, list[n - 1])
    }
}

/// What signed rows are held to: the first refusal among the first `n`.
/// `others` may not hold them, nor may two have one identifier.
pub open spec fn rows_check(
    list: Seq<FactView>,
    context: MeshContextId,
    others: Facts,
    reason: &'static str,
    n: int,
) -> Result<(), CheckpointError>
    decreases n,
{
    if n <= 0 {
        Ok(())
    } else {
        match rows_check(list, context, others, reason, n - 1) {
            Err(e) => Err(e),
            Ok(()) => {
                let f = list[n - 1];
                match f.checked.refusal {
                    Some(e) => Err(CheckpointError::Refused(e)),
                    None => if f.content.mesh_context != context || others.contains_key(f.id)
                        || by_id(list, n - 1).contains_key(f.id) {
                        Err(CheckpointError::Invalid(reason))
                    } else {
                        Ok(())
                    },
                }
            },
        }
    }
}

/// Whether the counters of a checkpoint are within the limits.
pub open spec fn within_policy(cp: CheckpointView, limits: SemanticAdmissionPolicy) -> bool {
    &&& cp.totals.fact_count >= cp.facts.len()
    &&& cp.totals.fact_count <= limits.max_admitted_facts
    &&& cp.quarantined.len() <= limits.max_quarantined_facts
    &&& cp.totals.bytes <= limits.max_admitted_bytes
    &&& cp.totals.quarantined_bytes <= limits.max_quarantined_bytes
    &&& cp.totals.edges + cp.totals.quarantined_edges <= u64::MAX
    &&& cp.totals.edges + cp.totals.quarantined_edges <= limits.max_dependency_edges
}

/// Whether a relation is witnessed by its signed typed selector.
pub open spec fn is_witnessed(
    facts: Facts,
    selector: FactId,
    relation: AuthoritySelectorRelation,
) -> bool {
    relation.holds() && facts.contains_key(relation.selected) && facts.contains_key(selector)
        && match facts[selector].content.body {
        BodyView::AuthorityLineageResolution { selected_head, cited_heads, .. } => selected_head
            == relation.selected && cited_heads.contains(selected_head),
        _ => false,
    }
}

/// Whether all relations of a row are witnessed.
pub open spec fn row_is_witnessed(facts: Facts, row: Seq<(FactId, AuthoritySelectorRelation)>) -> bool {
    forall|i: int|
        0 <= i < row.len() ==> is_witnessed(facts, (#[trigger] row[i]).0, row[i].1)
}

/// What provenance rows are held to: the first refusal among the first `n`.
pub open spec fn provenance_check(
    list: Seq<(FactId, Seq<(FactId, AuthoritySelectorRelation)>)>,
    facts: Facts,
    n: int,
) -> Result<(), CheckpointError>
    decreases n,
{
    if n <= 0 {
        Ok(())
    } else {
        match provenance_check(list, facts, n - 1) {
            Err(e) => Err(e),
            Ok(()) => {
                let (id, row) = list[n - 1];
                if !listing::keys_of(row).no_duplicates() {
                    Err(CheckpointError::Invalid("duplicate checkpoint selector provenance"))
                } else if row.len() == 0 || !facts.contains_key(id) || listing::keys_of(
                    list.take(n - 1),
                ).contains(id) {
                    Err(CheckpointError::Invalid("invalid checkpoint provenance row coverage"))
                } else if !row_is_witnessed(facts, row) {
                    Err(
                        CheckpointError::Invalid(
                            "checkpoint provenance lacks signed typed witnesses",
                        ),
                    )
                } else {
                    Ok(())
                }
            },
        }
    }
}

/// The provenance table of a list of rows.
pub open spec fn rows_table(list: Seq<(FactId, Seq<(FactId, AuthoritySelectorRelation)>)>) -> Map<
    FactId,
    RowView,
> {
    Map::new(
        |id: FactId| listing::keys_of(list).contains(id),
        |id: FactId| listing::table_of(list[listing::keys_of(list).index_of(id)].1),
    )
}

/// Whether a projected cell names resident facts only.
pub open spec fn cell_is_resident(facts: Facts, cell: CellView) -> bool {
    match cell {
        CellView::Value(id) => facts.contains_key(id),
        CellView::Conflict(ids) => ids.len() > 0 && forall|i: int|
            0 <= i < ids.len() ==> facts.contains_key(#[trigger] ids[i]),
    }
}

/// Whether a projection names resident facts only.
pub open spec fn is_resident(facts: Facts, p: ProjectionView) -> bool {
    &&& forall|c: ExclusiveCell| #[trigger]
        p.cells.contains_key(c) ==> cell_is_resident(facts, p.cells[c])
    &&& forall|s: DeviceId| #[trigger]
        p.stand_down.contains_key(s) ==> facts.contains_key(p.stand_down[s])
}

/// Whether the listed indexes name each key once, and nothing twice.
pub open spec fn is_index<K, V>(list: Seq<(K, Seq<V>)>) -> bool {
    listing::keys_of(list).no_duplicates() && listing::lists_are_unique(list)
}

/// The graph that the parts of a checkpoint make up.
pub open spec fn assembled(
    setting: graph::SettingView,
    cp: CheckpointView,
) -> GraphView {
    let facts = by_id(cp.facts, cp.facts.len() as int);
    GraphView {
        facts,
        order: cp.order,
        index: IndexView {
            cell_heads: listing::sets_of(cp.cell_heads),
            authority_heads: listing::sets_of(cp.authority_heads),
            authority_facts: index::participants_of(facts),
            selectors: listing::sets_of(cp.selectors),
            provenance: rows_table(cp.provenance),
            cells: cp.cells.to_set(),
            stand_down: listing::sets_of(cp.stand_down),
        },
        quarantine: QuarantineView {
            facts: by_id(cp.quarantined, cp.quarantined.len() as int),
            missing: listing::sets_of(cp.missing),
            waiting: listing::sets_of(cp.waiting),
            ready: cp.ready.to_set(),
            bytes: cp.totals.quarantined_bytes,
            edges: cp.totals.quarantined_edges,
            by_author: listing::table_of(cp.by_author),
        },
        ledger: LedgerView {
            fact_count: cp.totals.fact_count,
            bytes: cp.totals.bytes,
            index_bytes: cp.totals.index_bytes,
            edges: cp.totals.edges,
            retained: listing::table_of(cp.retained),
        },
        fence: Fence {
            indexed_fact_count: cp.facts.len() as usize,
            facts_revision: cp.facts_revision,
            indexed_revision: cp.indexed_revision,
            generation: cp.generation,
            cold_history_since_retirement: 0,
            staged_cold_pending: 0,
        },
        setting,
        cache: Some(
            (
                cp.generation,
                ProjectionView {
                    cells: listing::table_of(cp.projection_cells),
                    stand_down: listing::table_of(cp.projection_stand_down),
                },
            ),
        ),
    }
}

/// An outcome that stops at what is wrong.
pub open spec fn unless(wrong: bool, reason: &'static str) -> Result<(), CheckpointError> {
    if wrong {
        Err(CheckpointError::Invalid(reason))
    } else {
        Ok(())
    }
}

/// The first of two refusals.
pub open spec fn first(a: Result<(), CheckpointError>, b: Result<(), CheckpointError>) -> Result<
    (),
    CheckpointError,
> {
    match a {
        Err(e) => Err(e),
        Ok(()) => b,
    }
}

/// What the signed rows and the counters of a checkpoint are held to.
pub open spec fn head_check(
    context: MeshContextId,
    limits: SemanticAdmissionPolicy,
    cp: CheckpointView,
) -> Result<(), CheckpointError> {
    let facts = by_id(cp.facts, cp.facts.len() as int);
    first(
        unless(
            cp.version != 1 || cp.context_id != context,
            "live checkpoint version or context mismatch",
        ),
        first(
            rows_check(
                cp.facts,
                cp.context_id,
                Map::empty(),
                "invalid or duplicate live checkpoint fact",
                cp.facts.len() as int,
            ),
            first(
                rows_check(
                    cp.quarantined,
                    cp.context_id,
                    facts,
                    "invalid or duplicate live checkpoint quarantine",
                    cp.quarantined.len() as int,
                ),
                unless(!within_policy(cp, limits), "live checkpoint exceeds semantic policy"),
            ),
        ),
    )
}

/// What the order and the quarantine indexes of a checkpoint are held to.
pub open spec fn custody_check(cp: CheckpointView) -> Result<(), CheckpointError> {
    let facts = by_id(cp.facts, cp.facts.len() as int);
    let held = by_id(cp.quarantined, cp.quarantined.len() as int);
    first(
        unless(!cp.order.no_duplicates(), "duplicate live checkpoint admission id"),
        first(
            unless(
                cp.order.to_set() != facts.dom(),
                "live checkpoint admission order is incomplete",
            ),
            first(
                unless(
                    !listing::keys_of(cp.by_author).no_duplicates(),
                    "duplicate checkpoint quarantined author",
                ),
                first(
                    unless(
                        !listing::keys_of(cp.retained).no_duplicates(),
                        "duplicate checkpoint retained author",
                    ),
                    first(
                        unless(
                            !is_index(cp.missing),
                            "invalid checkpoint missing-dependency index",
                        ),
                        first(
                            unless(!is_index(cp.waiting), "invalid checkpoint waiting index"),
                            first(
                                unless(
                                    !cp.ready.no_duplicates(),
                                    "duplicate checkpoint ready id",
                                ),
                                unless(
                                    !cp.ready.to_set().subset_of(held.dom())
                                        || !listing::sets_of(cp.missing).dom().subset_of(
                                        held.dom(),
                                    ),
                                    "checkpoint quarantine index names a non-quarantined fact",
                                ),
                            ),
                        ),
                    ),
                ),
            ),
        ),
    )
}

/// What the derived indexes of a checkpoint are held to.
pub open spec fn index_check(cp: CheckpointView) -> Result<(), CheckpointError> {
    let facts = by_id(cp.facts, cp.facts.len() as int);
    first(
        unless(!is_index(cp.cell_heads), "invalid checkpoint cell heads"),
        first(
            unless(!is_index(cp.authority_heads), "invalid checkpoint authority heads"),
            first(
                unless(!is_index(cp.selectors), "invalid checkpoint authority selectors"),
                first(
                    provenance_check(cp.provenance, facts, cp.provenance.len() as int),
                    first(
                        unless(!cp.cells.no_duplicates(), "duplicate checkpoint cell"),
                        first(
                            unless(
                                !is_index(cp.stand_down),
                                "invalid checkpoint stand-down heads",
                            ),
                            unless(
                                !multimap::members(listing::sets_of(cp.cell_heads)).subset_of(
                                    facts.dom(),
                                ) || !multimap::members(
                                    listing::sets_of(cp.authority_heads),
                                ).subset_of(facts.dom()) || !multimap::members(
                                    listing::sets_of(cp.stand_down),
                                ).subset_of(facts.dom()),
                                "checkpoint head index names a non-resident fact",
                            ),
                        ),
                    ),
                ),
            ),
        ),
    )
}

/// What the projection of a checkpoint is held to.
pub open spec fn projection_check(cp: CheckpointView) -> Result<(), CheckpointError> {
    let facts = by_id(cp.facts, cp.facts.len() as int);
    let p = ProjectionView {
        cells: listing::table_of(cp.projection_cells),
        stand_down: listing::table_of(cp.projection_stand_down),
    };
    first(
        unless(
            !listing::keys_of(cp.projection_cells).no_duplicates() || !listing::keys_of(
                cp.projection_stand_down,
            ).no_duplicates(),
            "duplicate checkpoint projection entry",
        ),
        first(
            unless(p != cp.committed, "checkpoint projection commitment mismatch"),
            unless(!is_resident(facts, p), "checkpoint projection names a non-resident fact"),
        ),
    )
}

/// What the accounts and revisions of an assembled graph are held to.
pub open spec fn tail_check(g: GraphView) -> Result<(), CheckpointError> {
    match accounting::fits(g.setting.limits, accounting::residency(g.index)) {
        Err(e) => Err(CheckpointError::Refused(e)),
        Ok(bytes) => first(
            unless(
                bytes != g.ledger.index_bytes,
                "checkpoint derived-index residency mismatch",
            ),
            unless(
                g.fence.indexed_revision != g.fence.facts_revision,
                "checkpoint index revision mismatch",
            ),
        ),
    }
}

/// All that a checkpoint is held to on its own.
pub open spec fn checkpoint_check(
    context: MeshContextId,
    limits: SemanticAdmissionPolicy,
    cp: CheckpointView,
    g: GraphView,
) -> Result<(), CheckpointError> {
    first(
        head_check(context, limits, cp),
        first(
            custody_check(cp),
            first(index_check(cp), first(projection_check(cp), tail_check(g))),
        ),
    )
}

/// The graph that a checkpoint is read back as.
#[verifier::opaque]
pub open spec fn decoded(
    bootstrap: VerifiedBootstrap,
    limits: SemanticAdmissionPolicy,
    cp: CheckpointView,
) -> Result<GraphView, CheckpointError> {
    let g = assembled(graph::setting_of(bootstrap, limits), cp);
    match checkpoint_check(bootstrap.context, limits, cp, g) {
        Err(e) => Err(e),
        Ok(()) => Ok(g),
    }
}

/// The view of a graph that was read back, or the refusal.
pub open spec fn graph_view(r: Result<FactGraph, CheckpointError>) -> Result<
    GraphView,
    CheckpointError,
> {
    match r {
        Ok(g) => Ok(g@),
        Err(e) => Err(e),
    }
}

proof fn lemma_rows_check_err(
    list: Seq<FactView>,
    context: MeshContextId,
    others: Facts,
    reason: &'static str,
    i: int,
    n: int,
)
    requires
        0 <= i <= n,
        rows_check(list, context, others, reason, i) is Err,
    ensures
        rows_check(list, context, others, reason, n) == rows_check(
            list,
            context,
            others,
            reason,
            i,
        ),
    decreases n - i,
{
    if i < n {
        lemma_rows_check_err(list, context, others, reason, i, n - 1);
    }
}

proof fn lemma_provenance_check_err(
    list: Seq<(FactId, Seq<(FactId, AuthoritySelectorRelation)>)>,
    facts: Facts,
    i: int,
    n: int,
)
    requires
        0 <= i <= n,
        provenance_check(list, facts, i) is Err,
    ensures
        provenance_check(list, facts, n) == provenance_check(list, facts, i),
    decreases n - i,
{
    if i < n {
        lemma_provenance_check_err(list, facts, i, n - 1);
    }
}

/// Lists the facts of a map.
fn list_facts(facts: &OrdMap<FactId, SignedFact>) -> (r: Vec<SignedFact>)
    ensures
        facts_view(r@) == values_of(facts@),
{
    let ids = facts.keys();
    let n: usize = ids.len();
    let mut r: Vec<SignedFact> = Vec::new();
    for i in 0..n
        invariant
            n == ids@.len(),
            forall|k: FactId| #[trigger] ids@.contains(k) <==> facts@.contains_key(k),
            r@.len() == i,
            forall|j: int| 0 <= j < i ==> (#[trigger] r@[j])@ == facts@[ids@[j]],
    {
        assert(ids@.contains(ids@[i as int]));
        r.push(facts.value(&ids[i]).duplicate());
    }
    assert(facts_view(r@) =~= values_of(facts@));
    r
}

/// Lists the rows of a provenance table.
fn list_rows(rows: &OrdMap<FactId, Row>) -> (r: Vec<
    (FactId, Vec<(FactId, AuthoritySelectorRelation)>),
>)
    ensures
        listing::pair_view(r@) == rows_of(rows@),
{
    let ids = rows.keys();
    let n: usize = ids.len();
    let mut r: Vec<(FactId, Vec<(FactId, AuthoritySelectorRelation)>)> = Vec::new();
    for i in 0..n
        invariant
            n == ids@.len(),
            forall|k: FactId| #[trigger] ids@.contains(k) <==> rows@.contains_key(k),
            r@.len() == i,
            forall|j: int|
                0 <= j < i ==> (#[trigger] r@[j]).0 == ids@[j] && r@[j].1@ == listing::entries(
                    rows@[ids@[j]],
                ),
    {
        assert(ids@.contains(ids@[i as int]));
        let row = list_map(rows.value(&ids[i]));
        assert(row@ =~= listing::pair_view(row@));
        r.push((ids[i], row));
    }
    assert(listing::pair_view(r@) =~= rows_of(rows@));
    r
}

/// Reads signed rows.
pub(crate) fn read_facts(
    list: &Vec<SignedFact>,
    context: &MeshContextId,
    others: &OrdMap<FactId, SignedFact>,
    reason: &'static str,
) -> (r: Result<OrdMap<FactId, SignedFact>, CheckpointError>)
    ensures
        match r {
            Ok(m) => rows_check(
                facts_view(list@),
                *context,
                others@,
                reason,
                list@.len() as int,
            ) is Ok && m@ == by_id(facts_view(list@), list@.len() as int),
            Err(e) => rows_check(
                facts_view(list@),
                *context,
                others@,
                reason,
                list@.len() as int,
            ) == Err::<(), CheckpointError>(e),
        },
{
    let ghost views = facts_view(list@);
    let n: usize = list.len();
    let mut m: OrdMap<FactId, SignedFact> = OrdMap::new();
    for i in 0..n
        invariant
            n == list@.len(),
            views == facts_view(list@),
            m@ == by_id(views, i as int),
            rows_check(views, *context, others@, reason, i as int) == Ok::<(), CheckpointError>(()),
    {
        assert(views[i as int] == list@[i as int]@);
        if let Err(e) = list[i].verify() {
            proof {
                lemma_rows_check_err(views, *context, others@, reason, i + 1, n as int);
            }
            return Err(CheckpointError::Refused(e));
        }
        let id = list[i].id;
        if !list[i].content.mesh_context.same(context) || others.contains_key(&id)
            || m.contains_key(&id) {
            proof {
                lemma_rows_check_err(views, *context, others@, reason, i + 1, n as int);
            }
            return Err(CheckpointError::Invalid(reason));
        }
        m.insert(id, list[i].duplicate());
    }
    Ok(m)
}

/// Whether a relation is witnessed by its signed typed selector.
fn has_witness(
    facts: &OrdMap<FactId, SignedFact>,
    selector: &FactId,
    relation: &AuthoritySelectorRelation,
) -> (r: bool)
    ensures
        r == is_witnessed(facts@, *selector, *relation),
{
    if !relation.any() || !facts.contains_key(&relation.selected) {
        return false;
    }
    match facts.get(selector) {
        None => false,
        Some(f) => match &f.content.body {
            FactBody::AuthorityLineageResolution { selected_head, cited_heads, .. } => {
                selected_head.same(&relation.selected) && holds(cited_heads, selected_head)
            },
            _ => false,
        },
    }
}

/// Reads provenance rows.
fn read_rows(
    list: &Vec<(FactId, Vec<(FactId, AuthoritySelectorRelation)>)>,
    facts: &OrdMap<FactId, SignedFact>,
) -> (r: Result<OrdMap<FactId, Row>, CheckpointError>)
    ensures
        match r {
            Ok(m) => provenance_check(
                listing::pair_view(list@),
                facts@,
                list@.len() as int,
            ) is Ok && m@ == rows_table(listing::pair_view(list@)),
            Err(e) => provenance_check(
                listing::pair_view(list@),
                facts@,
                list@.len() as int,
            ) == Err::<(), CheckpointError>(e),
        },
{
    let ghost views = listing::pair_view(list@);
    let n: usize = list.len();
    let mut m: OrdMap<FactId, Row> = OrdMap::new();
    assert(views.take(0) =~= Seq::empty());
    assert(m@ =~= rows_table(views.take(0)));
    assert(listing::keys_of(views.take(0)).no_duplicates());
    for i in 0..n
        invariant
            n == list@.len(),
            views == listing::pair_view(list@),
            m@ == rows_table(views.take(i as int)),
            listing::keys_of(views.take(i as int)).no_duplicates(),
            provenance_check(views, facts@, i as int) == Ok::<(), CheckpointError>(()),
    {
        let id = list[i].0;
        let ghost row_view = views[i as int].1;
        assert(views[i as int] == (list@[i as int].0, list@[i as int].1@));
        assert(listing::pair_view(list@[i as int].1@) =~= row_view);
        let row = match read_map(&list[i].1) {
            Some(row) => row,
            None => {
                proof {
                    lemma_provenance_check_err(views, facts@, i + 1, n as int);
                }
                return Err(CheckpointError::Invalid("duplicate checkpoint selector provenance"));
            },
        };
        proof {
            if row_view.len() == 0 {
                assert(row@ =~= Map::empty());
            } else {
                listing::lemma_table_at(row_view, 0);
                assert(row@.contains_key(row_view[0].0));
            }
        }
        if row.is_empty() || !facts.contains_key(&id) || m.contains_key(&id) {
            proof {
                lemma_provenance_check_err(views, facts@, i + 1, n as int);
            }
            return Err(CheckpointError::Invalid("invalid checkpoint provenance row coverage"));
        }
        let relations = &list[i].1;
        let k: usize = relations.len();
        for j in 0..k
            invariant
                k == relations@.len(),
                i < n,
                n == list@.len(),
                views == listing::pair_view(list@),
                row_view == views[i as int].1,
                relations@ == row_view,
                listing::keys_of(row_view).no_duplicates(),
                row_view.len() > 0,
                facts@.contains_key(views[i as int].0),
                !listing::keys_of(views.take(i as int)).contains(views[i as int].0),
                provenance_check(views, facts@, i as int) == Ok::<(), CheckpointError>(()),
                forall|q: int|
                    0 <= q < j ==> is_witnessed(facts@, (#[trigger] row_view[q]).0, row_view[q].1),
        {
            if !has_witness(facts, &relations[j].0, &relations[j].1) {
                proof {
                    assert(!is_witnessed(facts@, row_view[j as int].0, row_view[j as int].1));
                    lemma_provenance_check_err(views, facts@, i + 1, n as int);
                }
                return Err(
                    CheckpointError::Invalid("checkpoint provenance lacks signed typed witnesses"),
                );
            }
        }
        proof {
            lemma_rows_table_push(views, i as int);
        }
        m.insert(id, row);
    }
    assert(views.take(n as int) =~= views);
    Ok(m)
}

proof fn lemma_rows_table_push(
    list: Seq<(FactId, Seq<(FactId, AuthoritySelectorRelation)>)>,
    i: int,
)
    requires
        0 <= i < list.len(),
        listing::keys_of(list.take(i)).no_duplicates(),
        !listing::keys_of(list.take(i)).contains(list[i].0),
    ensures
        listing::keys_of(list.take(i + 1)).no_duplicates(),
        rows_table(list.take(i + 1)) == rows_table(list.take(i)).insert(
            list[i].0,
            listing::table_of(list[i].1),
        ),
{
    let small = list.take(i);
    let big = list.take(i + 1);
    let ks = listing::keys_of(small);
    let kb = listing::keys_of(big);
    assert(kb.take(i) =~= ks);
    assert forall|a: int, b: int| 0 <= a < kb.len() && 0 <= b < kb.len() && a != b implies kb[a]
        != kb[b] by {
        if a == i {
            assert(ks[b] == kb[b]);
            assert(ks.contains(ks[b]));
        } else if b == i {
            assert(ks[a] == kb[a]);
            assert(ks.contains(ks[a]));
        } else {
            assert(ks[a] != ks[b]);
        }
    }
    let want = rows_table(small).insert(list[i].0, listing::table_of(list[i].1));
    assert forall|id: FactId| #[trigger] rows_table(big).contains_key(id) <==> want.contains_key(
        id,
    ) by {
        if kb.contains(id) {
            let j = choose|j: int| 0 <= j < kb.len() && kb[j] == id;
            if j < i {
                assert(ks[j] == id);
            }
        }
        if ks.contains(id) {
            let j = choose|j: int| 0 <= j < ks.len() && ks[j] == id;
            assert(kb[j] == id);
        }
        if id == list[i].0 {
            assert(kb[i] == id);
        }
    }
    assert forall|id: FactId| #[trigger] rows_table(big).contains_key(id) implies rows_table(
        big,
    )[id] == want[id] by {
        let j = choose|j: int| 0 <= j < kb.len() && kb[j] == id;
        listing::lemma_table_at(big, j);
        assert(kb[i] == list[i].0);
        if j < i {
            assert(small[j] == big[j]);
            listing::lemma_table_at(small, j);
        }
    }
    assert(rows_table(big) =~= want);
}

/// Whether all members of the sets are resident.
fn heads_are_resident<K: crate::order::Key>(
    heads: &OrdMap<K, OrdSet<FactId>>,
    facts: &OrdMap<FactId, SignedFact>,
) -> (r: bool)
    ensures
        r == multimap::members(heads@).subset_of(facts@.dom()),
{
    let all = collect(heads);
    is_among(&all, facts)
}

/// Whether all members of a set are resident.
fn is_among(set: &OrdSet<FactId>, facts: &OrdMap<FactId, SignedFact>) -> (r: bool)
    ensures
        r == set@.subset_of(facts@.dom()),
{
    let list = set.to_vec();
    let n: usize = list.len();
    for i in 0..n
        invariant
            n == list@.len(),
            list@.to_set() == set@,
            forall|j: int| 0 <= j < i ==> facts@.contains_key(#[trigger] list@[j]),
    {
        if !facts.contains_key(&list[i]) {
            assert(list@.to_set().contains(list@[i as int]));
            return false;
        }
    }
    assert forall|id: FactId| #[trigger] set@.contains(id) implies facts@.dom().contains(id) by {
        assert(list@.contains(id));
        let j = choose|j: int| 0 <= j < list@.len() && list@[j] == id;
        assert(facts@.contains_key(list@[j]));
    }
    true
}

/// Whether a projected cell names resident facts only.
fn cell_names_resident(cell: &CellProjection, facts: &OrdMap<FactId, SignedFact>) -> (r: bool)
    ensures
        r == cell_is_resident(facts@, cell@),
{
    match cell {
        CellProjection::Value(id) => facts.contains_key(id),
        CellProjection::Conflict(ids) => {
            let n: usize = ids.len();
            if n == 0 {
                return false;
            }
            for i in 0..n
                invariant
                    n == ids@.len(),
                    n > 0,
                    cell@ == CellView::Conflict(ids@),
                    forall|j: int| 0 <= j < i ==> facts@.contains_key(#[trigger] ids@[j]),
            {
                if !facts.contains_key(&ids[i]) {
                    assert(!facts@.contains_key(ids@[i as int]));
                    return false;
                }
            }
            true
        },
    }
}

/// Whether a projection names resident facts only.
fn projection_is_resident(p: &Projection, facts: &OrdMap<FactId, SignedFact>) -> (r: bool)
    ensures
        r == is_resident(facts@, p@),
{
    let cells = p.cells.keys();
    let n: usize = cells.len();
    for i in 0..n
        invariant
            n == cells@.len(),
            forall|c: ExclusiveCell| #[trigger] cells@.contains(c) <==> p@.cells.contains_key(c),
            forall|j: int|
                0 <= j < i ==> cell_is_resident(facts@, p@.cells[#[trigger] cells@[j]]),
    {
        assert(cells@.contains(cells@[i as int]));
        if !cell_names_resident(p.cells.value(&cells[i]), facts) {
            assert(p@.cells.contains_key(cells@[i as int]));
            return false;
        }
    }
    let subjects = p.stand_down.keys();
    let m: usize = subjects.len();
    proof {
        assert forall|c: ExclusiveCell| #[trigger]
            p@.cells.contains_key(c) implies cell_is_resident(facts@, p@.cells[c]) by {
            assert(cells@.contains(c));
            let j = choose|j: int| 0 <= j < cells@.len() && cells@[j] == c;
            assert(cell_is_resident(facts@, p@.cells[cells@[j]]));
        }
    }
    for i in 0..m
        invariant
            m == subjects@.len(),
            forall|c: ExclusiveCell| #[trigger]
                p@.cells.contains_key(c) ==> cell_is_resident(facts@, p@.cells[c]),
            forall|s: DeviceId| #[trigger]
                subjects@.contains(s) <==> p@.stand_down.contains_key(s),
            forall|j: int|
                0 <= j < i ==> facts@.contains_key(p@.stand_down[#[trigger] subjects@[j]]),
    {
        assert(subjects@.contains(subjects@[i as int]));
        if !facts.contains_key(&p.stand_down.value(&subjects[i]).proof) {
            assert(p@.stand_down.contains_key(subjects@[i as int]));
            return false;
        }
    }
    proof {
        assert forall|s: DeviceId| #[trigger]
            p@.stand_down.contains_key(s) implies facts@.contains_key(p@.stand_down[s]) by {
            assert(subjects@.contains(s));
            let j = choose|j: int| 0 <= j < subjects@.len() && subjects@[j] == s;
            assert(facts@.contains_key(p@.stand_down[subjects@[j]]));
        }
    }
    true
}

impl FactGraph {
    /// Writes the bounded continuation state.
    pub fn live_checkpoint(&self) -> (r: LiveFactGraphCheckpoint)
        ensures
            r@ == written(self@),
    {
        proof {
            reveal(written);
        }
        let committed = self.projection();
        let r = LiveFactGraphCheckpoint {
            version: 1,
            context_id: self.setting.context_id,
            facts: list_facts(&self.facts),
            admission_order: copy_keys(&self.order),
            quarantined: list_facts(&self.quarantine.facts),
            totals: self.totals(),
            quarantined_by_author: list_map(&self.quarantine.by_author),
            retained_by_author: list_map(&self.ledger.retained),
            quarantine_missing: list_sets(&self.quarantine.missing),
            waiting_by_dependency: list_sets(&self.quarantine.waiting),
            ready_quarantine: self.quarantine.ready.to_vec(),
            cell_heads: list_sets(&self.index.cell_heads),
            authority_heads: list_sets(&self.index.authority_heads),
            authority_selectors: list_sets(&self.index.selectors),
            authority_provenance: list_rows(&self.index.provenance),
            cells: self.index.cells.to_vec(),
            stand_down_heads: list_sets(&self.index.stand_down),
            facts_revision: self.fence.facts_revision,
            indexed_revision: self.fence.indexed_revision,
            generation: self.fence.generation,
            projection_cells: list_map(&committed.cells),
            projection_stand_down: list_map(&committed.stand_down),
            committed,
        };
        assert(r@ =~= written(self@));
        r
    }
}

/// What the order and the quarantine indexes of a checkpoint are read as.
struct Custody {
    missing: OrdMap<FactId, OrdSet<FactId>>,
    waiting: OrdMap<FactId, OrdSet<FactId>>,
    ready: OrdSet<FactId>,
    by_author: OrdMap<DeviceId, Usage>,
    retained: OrdMap<DeviceId, Usage>,
}

/// Reads the order and the quarantine indexes.
fn read_custody(
    cp: &LiveFactGraphCheckpoint,
    facts: &OrdMap<FactId, SignedFact>,
    held: &OrdMap<FactId, SignedFact>,
) -> (r: Result<Custody, CheckpointError>)
    requires
        facts@ == by_id(cp@.facts, cp@.facts.len() as int),
        held@ == by_id(cp@.quarantined, cp@.quarantined.len() as int),
    ensures
        match r {
            Ok(c) => custody_check(cp@) is Ok && c.missing@ == listing::sets_of(cp@.missing)
                && c.waiting@ == listing::sets_of(cp@.waiting) && c.ready@ == cp@.ready.to_set()
                && c.by_author@ == listing::table_of(cp@.by_author) && c.retained@
                == listing::table_of(cp@.retained),
            Err(e) => custody_check(cp@) == Err::<(), CheckpointError>(e),
        },
{
    let ids = match read_set(&cp.admission_order) {
        Some(s) => s,
        None => {
            return Err(CheckpointError::Invalid("duplicate live checkpoint admission id"));
        },
    };
    let whole = ids.len() == facts.len() && is_among(&ids, facts);
    proof {
        if whole {
            vstd::set_lib::lemma_subset_equality(ids@, facts@.dom());
        }
        assert(whole == (cp@.order.to_set() == facts@.dom()));
    }
    if !whole {
        return Err(CheckpointError::Invalid("live checkpoint admission order is incomplete"));
    }
    let by_author = match read_map(&cp.quarantined_by_author) {
        Some(m) => m,
        None => {
            return Err(CheckpointError::Invalid("duplicate checkpoint quarantined author"));
        },
    };
    let retained = match read_map(&cp.retained_by_author) {
        Some(m) => m,
        None => {
            return Err(CheckpointError::Invalid("duplicate checkpoint retained author"));
        },
    };
    let missing = match read_sets(&cp.quarantine_missing) {
        Some(m) => m,
        None => {
            return Err(CheckpointError::Invalid("invalid checkpoint missing-dependency index"));
        },
    };
    let waiting = match read_sets(&cp.waiting_by_dependency) {
        Some(m) => m,
        None => {
            return Err(CheckpointError::Invalid("invalid checkpoint waiting index"));
        },
    };
    let ready = match read_set(&cp.ready_quarantine) {
        Some(s) => s,
        None => {
            return Err(CheckpointError::Invalid("duplicate checkpoint ready id"));
        },
    };
    let waiters = missing.keys();
    let waiter_set = OrdSet::from_vec(&waiters);
    if !is_among(&ready, held) || !is_among(&waiter_set, held) {
        return Err(
            CheckpointError::Invalid("checkpoint quarantine index names a non-quarantined fact"),
        );
    }
    Ok(Custody { missing, waiting, ready, by_author, retained })
}

/// Reads the derived indexes.
fn read_index(cp: &LiveFactGraphCheckpoint, facts: &OrdMap<FactId, SignedFact>) -> (r: Result<
    Indexes,
    CheckpointError,
>)
    requires
        facts@ == by_id(cp@.facts, cp@.facts.len() as int),
    ensures
        match r {
            Ok(ix) => index_check(cp@) is Ok && ix@ == (IndexView {
                cell_heads: listing::sets_of(cp@.cell_heads),
                authority_heads: listing::sets_of(cp@.authority_heads),
                authority_facts: index::participants_of(facts@),
                selectors: listing::sets_of(cp@.selectors),
                provenance: rows_table(cp@.provenance),
                cells: cp@.cells.to_set(),
                stand_down: listing::sets_of(cp@.stand_down),
            }),
            Err(e) => index_check(cp@) == Err::<(), CheckpointError>(e),
        },
{
    let cell_heads = match read_sets(&cp.cell_heads) {
        Some(m) => m,
        None => {
            return Err(CheckpointError::Invalid("invalid checkpoint cell heads"));
        },
    };
    let authority_heads = match read_sets(&cp.authority_heads) {
        Some(m) => m,
        None => {
            return Err(CheckpointError::Invalid("invalid checkpoint authority heads"));
        },
    };
    let selectors = match read_sets(&cp.authority_selectors) {
        Some(m) => m,
        None => {
            return Err(CheckpointError::Invalid("invalid checkpoint authority selectors"));
        },
    };
    let provenance = match read_rows(&cp.authority_provenance, facts) {
        Ok(m) => m,
        Err(e) => {
            return Err(e);
        },
    };
    let cells = match read_set(&cp.cells) {
        Some(s) => s,
        None => {
            return Err(CheckpointError::Invalid("duplicate checkpoint cell"));
        },
    };
    let stand_down = match read_sets(&cp.stand_down_heads) {
        Some(m) => m,
        None => {
            return Err(CheckpointError::Invalid("invalid checkpoint stand-down heads"));
        },
    };
    if !heads_are_resident(&cell_heads, facts) || !heads_are_resident(&authority_heads, facts)
        || !heads_are_resident(&stand_down, facts) {
        return Err(CheckpointError::Invalid("checkpoint head index names a non-resident fact"));
    }
    let mut ix = Indexes {
        cell_heads,
        authority_heads,
        authority_facts: OrdMap::new(),
        selectors,
        provenance,
        cells,
        stand_down,
    };
    ix.rebuild_authority_facts_index(facts);
    Ok(ix)
}

/// Reads the projection.
fn read_projection(cp: &LiveFactGraphCheckpoint, facts: &OrdMap<FactId, SignedFact>) -> (r: Result<
    Projection,
    CheckpointError,
>)
    requires
        facts@ == by_id(cp@.facts, cp@.facts.len() as int),
    ensures
        match r {
            Ok(p) => projection_check(cp@) is Ok && p@ == (ProjectionView {
                cells: listing::table_of(cp@.projection_cells),
                stand_down: listing::table_of(cp@.projection_stand_down),
            }),
            Err(e) => projection_check(cp@) == Err::<(), CheckpointError>(e),
        },
{
    let parts = match (read_map(&cp.projection_cells), read_map(&cp.projection_stand_down)) {
        (Some(cells), Some(stand_down)) => Projection { cells, stand_down },
        _ => {
            return Err(CheckpointError::Invalid("duplicate checkpoint projection entry"));
        },
    };
    if !parts.same(&cp.committed) {
        return Err(CheckpointError::Invalid("checkpoint projection commitment mismatch"));
    }
    if !projection_is_resident(&parts, facts) {
        return Err(CheckpointError::Invalid("checkpoint projection names a non-resident fact"));
    }
    Ok(parts)
}

/// Whether the counters of a checkpoint are within the limits.
fn counters_fit(cp: &LiveFactGraphCheckpoint, limits: &SemanticAdmissionPolicy) -> (r: bool)
    ensures
        r == within_policy(cp@, *limits),
{
    let t = &cp.totals;
    let edges_fit = match t.edges.checked_add(t.quarantined_edges) {
        Some(edges) => edges <= limits.max_dependency_edges,
        None => false,
    };
    t.fact_count >= cp.facts.len() as u64 && t.fact_count <= limits.max_admitted_facts
        && cp.quarantined.len() as u64 <= limits.max_quarantined_facts && t.bytes
        <= limits.max_admitted_bytes && t.quarantined_bytes <= limits.max_quarantined_bytes
        && edges_fit
}

impl FactGraph {
    /// Reads a checkpoint back, held to what it says of itself.
    pub(crate) fn decode_live_checkpoint(
        bootstrap: &VerifiedBootstrap,
        limits: SemanticAdmissionPolicy,
        checkpoint: &LiveFactGraphCheckpoint,
    ) -> (r: Result<FactGraph, CheckpointError>)
        ensures
            graph_view(r) == decoded(*bootstrap, limits, checkpoint@),
    {
        proof {
            reveal(decoded);
        }
        let ghost cp = checkpoint@;
        if checkpoint.version != 1 || !checkpoint.context_id.same(&bootstrap.context) {
            return Err(CheckpointError::Invalid("live checkpoint version or context mismatch"));
        }
        let none: OrdMap<FactId, SignedFact> = OrdMap::new();
        let facts = match read_facts(
            &checkpoint.facts,
            &checkpoint.context_id,
            &none,
            "invalid or duplicate live checkpoint fact",
        ) {
            Ok(m) => m,
            Err(e) => {
                return Err(e);
            },
        };
        let held = match read_facts(
            &checkpoint.quarantined,
            &checkpoint.context_id,
            &facts,
            "invalid or duplicate live checkpoint quarantine",
        ) {
            Ok(m) => m,
            Err(e) => {
                return Err(e);
            },
        };
        if !counters_fit(checkpoint, &limits) {
            return Err(CheckpointError::Invalid("live checkpoint exceeds semantic policy"));
        }
        let custody = match read_custody(checkpoint, &facts, &held) {
            Ok(c) => c,
            Err(e) => {
                return Err(e);
            },
        };
        let index = match read_index(checkpoint, &facts) {
            Ok(ix) => ix,
            Err(e) => {
                return Err(e);
            },
        };
        let projection = match read_projection(checkpoint, &facts) {
            Ok(p) => p,
            Err(e) => {
                return Err(e);
            },
        };
        let totals = &checkpoint.totals;
        let graph = FactGraph {
            facts,
            order: copy_keys(&checkpoint.admission_order),
            index,
            quarantine: Quarantine {
                facts: held,
                missing: custody.missing,
                waiting: custody.waiting,
                ready: custody.ready,
                bytes: totals.quarantined_bytes,
                edges: totals.quarantined_edges,
                by_author: custody.by_author,
            },
            ledger: Ledger {
                fact_count: totals.fact_count,
                bytes: totals.bytes,
                index_bytes: totals.index_bytes,
                edges: totals.edges,
                retained: custody.retained,
            },
            fence: Fence {
                indexed_fact_count: checkpoint.facts.len(),
                facts_revision: checkpoint.facts_revision,
                indexed_revision: checkpoint.indexed_revision,
                generation: checkpoint.generation,
                cold_history_since_retirement: 0,
                staged_cold_pending: 0,
            },
            setting: Setting {
                context_id: checkpoint.context_id,
                roots: OrdSet::from_vec(&bootstrap.roots),
                policy: bootstrap.policy,
                limits,
            },
            cache: Some(Cached { generation: checkpoint.generation, projection }),
        };
        assert(graph@ =~= assembled(graph::setting_of(*bootstrap, limits), cp));
        match limits.logical_index_residency_bytes(&graph.index) {
            Ok(bytes) => {
                if bytes != graph.ledger.index_bytes {
                    return Err(
                        CheckpointError::Invalid("checkpoint derived-index residency mismatch"),
                    );
                }
            },
            Err(e) => {
                return Err(CheckpointError::Refused(e));
            },
        }
        if graph.fence.indexed_revision != graph.fence.facts_revision {
            return Err(CheckpointError::Invalid("checkpoint index revision mismatch"));
        }
        Ok(graph)
    }
}

} // verus!

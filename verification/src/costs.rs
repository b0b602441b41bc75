//! What a fact costs, and whether the limits can bear it.

use vstd::prelude::*;

use crate::accounting;
use crate::content::{BodyView, ExclusiveCell, FactBody, UseView};
use crate::device::DeviceId;
use crate::error::{SemanticCapacityDimension, SemanticError};
use crate::fact;
use crate::fact::{dependencies, Facts, FactView, SignedFact};
use crate::graph;
use crate::graph::{usage_at, FactGraph, GraphView, Row, Selection, Usage};
use crate::ids::FactId;
use crate::multimap;
use crate::multimap::lists;
use crate::order;
use crate::order::Key;
use crate::ordmap::OrdMap;
use crate::ordset;
use crate::ordset::{sort_unique, OrdSet};
use crate::policy::SemanticAdmissionPolicy;
use crate::provenance;
use crate::provenance::IndexResidencyDelta;
use crate::reach;
use crate::reach::{reach_set, InputEdges};
use crate::sums;

verus! {

/// An amount that is due where a condition holds.
pub open spec fn due(condition: bool, amount: nat) -> nat {
    if condition {
        amount
    } else {
        0
    }
}

/// The index bytes that a new head of `cell` takes.
pub open spec fn cell_share(g: GraphView, cell: ExclusiveCell) -> nat {
    due(!g.index.cells.contains(cell), accounting::size::<ExclusiveCell>()) + due(
        !g.index.cell_heads.contains_key(cell),
        accounting::size::<(ExclusiveCell, OrdSet<FactId>)>(),
    ) + accounting::size::<FactId>()
}

/// The index bytes that a new head of the lineage of `subject` takes.
pub open spec fn subject_share(g: GraphView, id: FactId, subject: DeviceId) -> nat {
    due(
        !g.index.authority_facts.contains_key(subject),
        accounting::size::<(DeviceId, OrdSet<FactId>)>(),
    ) + due(
        !multimap::at(g.index.authority_facts, subject).contains(id),
        accounting::size::<FactId>(),
    ) + due(
        !g.index.authority_heads.contains_key(subject),
        accounting::size::<(DeviceId, OrdSet<FactId>)>(),
    ) + accounting::size::<FactId>()
}

/// The index bytes that a fact's cells and subjects take.
pub open spec fn heads_share(g: GraphView, f: FactView) -> nat {
    sums::sum(f.content.body.cells().to_set(), |c: ExclusiveCell| cell_share(g, c)) + sums::sum(
        f.participants(),
        |s: DeviceId| subject_share(g, f.id, s),
    )
}

/// The bytes of the heads at a key that a fact has behind it.
pub open spec fn replaced_share<K>(
    facts: Facts,
    heads: Map<K, Set<FactId>>,
    f: FactView,
    key: K,
) -> nat {
    multimap::at(heads, key).filter(
        |h: FactId| reach::is_dominated(facts, f.inputs(), h),
    ).len() * accounting::size::<FactId>()
}

/// The bytes of all heads that a fact has behind it.
pub open spec fn heads_released(g: GraphView, f: FactView) -> nat {
    sums::sum(
        f.content.body.cells().to_set(),
        |c: ExclusiveCell| replaced_share(g.facts, g.index.cell_heads, f, c),
    ) + sums::sum(
        f.participants(),
        |s: DeviceId| replaced_share(g.facts, g.index.authority_heads, f, s),
    )
}

/// The index bytes reserved for a typed selection.
pub open spec fn selection_reserve(g: GraphView, f: FactView) -> nat {
    match f.content.body {
        BodyView::AuthorityLineageResolution { subject, .. } => due(
            !g.index.selectors.contains_key(subject),
            accounting::size::<(DeviceId, OrdSet<Selection>)>(),
        ) + accounting::size::<Selection>(),
        _ => 0,
    }
}

/// The index bytes that a typed selection takes.
pub open spec fn selection_share(g: GraphView, f: FactView) -> nat {
    match f.content.body {
        BodyView::AuthorityLineageResolution { subject, selected_head, .. } => due(
            !g.index.selectors.contains_key(subject),
            accounting::size::<(DeviceId, OrdSet<Selection>)>(),
        ) + due(
            !multimap::at(g.index.selectors, subject).contains(
                Selection { selector: f.id, selected: selected_head },
            ),
            accounting::size::<Selection>(),
        ),
        _ => 0,
    }
}

/// The index bytes reserved for stand-down evidence.
pub open spec fn evidence_reserve(g: GraphView, f: FactView) -> nat {
    match f.content.body.stands_down() {
        Some(target) => due(
            !g.index.stand_down.contains_key(target),
            accounting::size::<(DeviceId, OrdSet<FactId>)>(),
        ) + accounting::size::<FactId>(),
        None => 0,
    }
}

/// The index bytes that stand-down evidence takes.
pub open spec fn evidence_share(g: GraphView, f: FactView) -> nat {
    match f.content.body.stands_down() {
        Some(target) => due(
            !g.index.stand_down.contains_key(target),
            accounting::size::<(DeviceId, OrdSet<FactId>)>(),
        ) + due(
            !multimap::at(g.index.stand_down, target).contains(f.id),
            accounting::size::<FactId>(),
        ),
        None => 0,
    }
}

/// A total with more added to it, where a number can hold it.
pub open spec fn grown(
    limits: SemanticAdmissionPolicy,
    total: Result<u64, SemanticError>,
    more: Result<u64, SemanticError>,
) -> Result<u64, SemanticError> {
    match (total, more) {
        (Err(e), _) => Err(e),
        (_, Err(e)) => Err(e),
        (Ok(a), Ok(b)) => accounting::fits(limits, (a + b) as nat),
    }
}

/// The net growth that a provenance change reserves.
pub open spec fn net(d: Result<IndexResidencyDelta, SemanticError>) -> Result<u64, SemanticError> {
    match d {
        Err(e) => Err(e),
        Ok(d) => Ok(
            if d.added >= d.removed {
                (d.added - d.removed) as u64
            } else {
                0
            },
        ),
    }
}

/// The index bytes that admitting a fact reserves.
#[verifier::opaque]
pub open spec fn index_reserve(g: GraphView, f: FactView) -> Result<u64, SemanticError> {
    let limits = g.setting.limits;
    let base = accounting::fits(limits, heads_share(g, f) + selection_reserve(g, f));
    let planned = grown(limits, base, net(provenance::provenance_delta(g, f)));
    let cold = grown(limits, planned, provenance::cold_reserve(g, f));
    grown(limits, cold, accounting::fits(limits, evidence_reserve(g, f)))
}

/// The index bytes that admitting a fact adds and removes.
#[verifier::opaque]
pub open spec fn exact_delta(g: GraphView, f: FactView) -> Result<
    IndexResidencyDelta,
    SemanticError,
> {
    let limits = g.setting.limits;
    let base = accounting::fits(limits, heads_share(g, f) + selection_share(g, f));
    let gone = accounting::fits(limits, heads_released(g, f));
    match (base, gone) {
        (Err(e), _) => Err(e),
        (_, Err(e)) => Err(e),
        (Ok(a), Ok(r)) => match provenance::provenance_delta(g, f) {
            Err(e) => Err(e),
            Ok(d) => match (
                accounting::fits(limits, (a + d.added) as nat),
                accounting::fits(limits, (r + d.removed) as nat),
            ) {
                (Err(e), _) => Err(e),
                (_, Err(e)) => Err(e),
                (Ok(added), Ok(removed)) => match accounting::fits(
                    limits,
                    added as nat + evidence_share(g, f),
                ) {
                    Err(e) => Err(e),
                    Ok(added) => Ok(IndexResidencyDelta { added, removed }),
                },
            },
        },
    }
}

/// The resident bytes after a change.
pub open spec fn applied(
    limits: SemanticAdmissionPolicy,
    current: u64,
    d: IndexResidencyDelta,
) -> Result<u64, SemanticError> {
    if current < d.removed {
        Err(accounting::accounting_error(limits))
    } else {
        accounting::fits(limits, (current - d.removed + d.added) as nat)
    }
}

/// What a fact costs.
#[verifier::ext_equal]
pub struct CostView {
    pub encoded_bytes: u64,
    pub index_bytes: u64,
    pub edges: u64,
    pub missing: Seq<FactId>,
}

/// The largest predecessor list among authority uses.
pub open spec fn widest(uses: Seq<UseView>) -> nat
    decreases uses.len(),
{
    if uses.len() == 0 {
        0
    } else {
        let rest = widest(uses.drop_last());
        let last = uses.last().predecessors.len();
        if rest < last {
            last
        } else {
            rest
        }
    }
}

/// The first refusal of two checks in order.
pub open spec fn both(a: Result<(), SemanticError>, b: Result<(), SemanticError>) -> Result<
    (),
    SemanticError,
> {
    match a {
        Err(e) => Err(e),
        Ok(()) => b,
    }
}

/// A total without its amount.
pub open spec fn checked(r: Result<u64, SemanticError>) -> Result<(), SemanticError> {
    match r {
        Ok(_) => Ok(()),
        Err(e) => Err(e),
    }
}

/// The dependencies of a fact that are not admitted.
pub open spec fn missing_inputs(g: GraphView, f: FactView) -> Set<FactId> {
    f.inputs().difference(g.facts.dom())
}

/// The per-fact bounds, in the order in which they are checked.
pub open spec fn fact_bounds(limits: SemanticAdmissionPolicy, f: FactView, bytes: u64) -> Result<
    (),
    SemanticError,
> {
    both(
        accounting::within(
            SemanticCapacityDimension::FactEncodedBytes,
            bytes,
            limits.max_fact_encoded_bytes,
        ),
        both(
            accounting::within(
                SemanticCapacityDimension::DependenciesPerFact,
                f.dependencies().len() as u64,
                limits.max_dependencies_per_fact,
            ),
            both(
                accounting::within(
                    SemanticCapacityDimension::AuthorityUsesPerFact,
                    f.content.authority_uses.len() as u64,
                    limits.max_authority_uses_per_fact,
                ),
                accounting::within(
                    SemanticCapacityDimension::AuthorityPredecessorsPerUse,
                    widest(f.content.authority_uses) as u64,
                    limits.max_authority_predecessors_per_use,
                ),
            ),
        ),
    )
}

/// What admitting a fact costs, or why it is refused.
#[verifier::opaque]
pub open spec fn cost_of(g: GraphView, f: FactView) -> Result<CostView, SemanticError> {
    let limits = g.setting.limits;
    match accounting::measure(limits, f) {
        Err(e) => Err(e),
        Ok((bytes, edges)) => match index_reserve(g, f) {
            Err(e) => Err(e),
            Ok(index_bytes) => match fact_bounds(limits, f, bytes) {
                Err(e) => Err(e),
                Ok(()) => Ok(
                    CostView {
                        encoded_bytes: bytes,
                        index_bytes,
                        edges,
                        missing: order::ascending(missing_inputs(g, f)),
                    },
                ),
            },
        },
    }
}

/// Whether an author may retain one more fact.
pub open spec fn retained_bounds(g: GraphView, author: DeviceId, bytes: u64) -> Result<
    (),
    SemanticError,
> {
    let limits = g.setting.limits;
    let held = graph::usage_of(g.ledger.retained, author);
    both(
        checked(
            accounting::total_within(
                SemanticCapacityDimension::RetainedFactsPerAuthor,
                held.facts,
                1,
                limits.max_retained_facts_per_author,
            ),
        ),
        checked(
            accounting::total_within(
                SemanticCapacityDimension::RetainedBytesPerAuthor,
                held.bytes,
                bytes,
                limits.max_retained_bytes_per_author,
            ),
        ),
    )
}

/// Whether the dependency edges of one more fact fit.
pub open spec fn edge_bounds(g: GraphView, edges: u64) -> Result<(), SemanticError> {
    let limit = g.setting.limits.max_dependency_edges;
    if g.ledger.edges + g.quarantine.edges > u64::MAX {
        Err(
            SemanticError::CapacityExceeded {
                dimension: SemanticCapacityDimension::DependencyEdges,
                limit,
                observed: u64::MAX,
            },
        )
    } else {
        checked(
            accounting::total_within(
                SemanticCapacityDimension::DependencyEdges,
                (g.ledger.edges + g.quarantine.edges) as u64,
                edges,
                limit,
            ),
        )
    }
}

/// Whether the quarantine may hold one more fact.
pub open spec fn quarantine_bounds(g: GraphView, f: FactView, cost: CostView, reserved: bool) -> Result<
    (),
    SemanticError,
> {
    let limits = g.setting.limits;
    let held = graph::usage_of(g.quarantine.by_author, f.content.author);
    both(
        if reserved {
            Ok(())
        } else {
            retained_bounds(g, f.content.author, cost.encoded_bytes)
        },
        both(
            checked(
                accounting::total_within(
                    SemanticCapacityDimension::QuarantinedFacts,
                    g.quarantine.facts.dom().len() as u64,
                    1,
                    limits.max_quarantined_facts,
                ),
            ),
            both(
                checked(
                    accounting::total_within(
                        SemanticCapacityDimension::QuarantinedBytes,
                        g.quarantine.bytes,
                        cost.encoded_bytes,
                        limits.max_quarantined_bytes,
                    ),
                ),
                both(
                    edge_bounds(g, cost.edges),
                    both(
                        checked(
                            accounting::total_within(
                                SemanticCapacityDimension::QuarantinedFactsPerAuthor,
                                held.facts,
                                1,
                                limits.max_quarantined_facts_per_author,
                            ),
                        ),
                        checked(
                            accounting::total_within(
                                SemanticCapacityDimension::QuarantinedBytesPerAuthor,
                                held.bytes,
                                cost.encoded_bytes,
                                limits.max_quarantined_bytes_per_author,
                            ),
                        ),
                    ),
                ),
            ),
        ),
    )
}

/// Whether resident bytes fit in the database envelope.
pub open spec fn envelope(limits: SemanticAdmissionPolicy, bytes: nat) -> Result<
    (),
    SemanticError,
> {
    match accounting::fits(limits, bytes) {
        Err(e) => Err(e),
        Ok(n) => accounting::within(
            SemanticCapacityDimension::AdmittedBytes,
            n,
            limits.max_database_bytes,
        ),
    }
}

/// Whether the history may hold one more fact.
pub open spec fn admitted_bounds(g: GraphView, f: FactView, cost: CostView, reserved: bool) -> Result<
    (),
    SemanticError,
> {
    let limits = g.setting.limits;
    both(
        if reserved {
            Ok(())
        } else {
            retained_bounds(g, f.content.author, cost.encoded_bytes)
        },
        both(
            checked(
                accounting::total_within(
                    SemanticCapacityDimension::AdmittedFacts,
                    g.ledger.fact_count,
                    1,
                    limits.max_admitted_facts,
                ),
            ),
            both(
                checked(
                    accounting::total_within(
                        SemanticCapacityDimension::AdmittedBytes,
                        g.ledger.bytes,
                        cost.encoded_bytes,
                        limits.max_admitted_bytes,
                    ),
                ),
                both(
                    envelope(
                        limits,
                        (g.ledger.bytes + cost.encoded_bytes + g.ledger.index_bytes
                            + cost.index_bytes) as nat,
                    ),
                    edge_bounds(g, cost.edges),
                ),
            ),
        ),
    )
}

/// What authors hold after one retains one more fact.
pub open spec fn kept(m: Map<DeviceId, Usage>, author: DeviceId, bytes: u64) -> Map<
    DeviceId,
    Usage,
> {
    let held = graph::usage_of(m, author);
    m.insert(author, Usage { facts: (held.facts + 1) as u64, bytes: (held.bytes + bytes) as u64 })
}

/// What authors hold after one releases a fact.
pub open spec fn let_go(m: Map<DeviceId, Usage>, author: DeviceId, bytes: u64) -> Map<
    DeviceId,
    Usage,
> {
    if !m.contains_key(author) {
        m
    } else if m[author].facts == 1 {
        m.remove(author)
    } else {
        m.insert(
            author,
            Usage {
                facts: (m[author].facts - 1) as u64,
                bytes: (m[author].bytes - bytes) as u64,
            },
        )
    }
}

/// Enters one more fact with an author.
pub fn keep(map: &mut OrdMap<DeviceId, Usage>, author: &DeviceId, bytes: u64)
    requires
        graph::usage_of(old(map)@, *author).facts < u64::MAX,
        graph::usage_of(old(map)@, *author).bytes + bytes <= u64::MAX,
    ensures
        final(map)@ == kept(old(map)@, *author, bytes),
{
    let held = usage_at(map, author);
    map.insert(*author, Usage { facts: held.facts + 1, bytes: held.bytes + bytes });
}

/// Takes a fact from an author.
pub fn release(map: &mut OrdMap<DeviceId, Usage>, author: &DeviceId, bytes: u64)
    requires
        old(map)@.contains_key(*author) ==> old(map)@[*author].facts >= 1 && old(
            map,
        )@[*author].bytes >= bytes,
    ensures
        final(map)@ == let_go(old(map)@, *author, bytes),
{
    if map.contains_key(author) {
        let held = usage_at(map, author);
        if held.facts == 1 {
            map.remove(author);
        } else {
            map.insert(*author, Usage { facts: held.facts - 1, bytes: held.bytes - bytes });
        }
    }
}

/// What a fact costs.
#[derive(Debug, PartialEq, Eq)]
pub struct FactCost {
    pub encoded_bytes: u64,
    pub index_bytes: u64,
    pub edges: u64,
    pub missing: Vec<FactId>,
}

impl View for FactCost {
    type V = CostView;

    open spec fn view(&self) -> CostView {
        CostView {
            encoded_bytes: self.encoded_bytes,
            index_bytes: self.index_bytes,
            edges: self.edges,
            missing: self.missing@,
        }
    }
}

/// An amount that is due where a condition holds.
fn amount(condition: bool, bytes: u64) -> (r: u64)
    ensures
        r == due(condition, bytes as nat),
{
    if condition {
        bytes
    } else {
        0
    }
}

/// How many of `heads` are in `behind`.
fn count_in(heads: &OrdSet<FactId>, behind: &OrdSet<FactId>) -> (r: usize)
    ensures
        r == heads@.intersect(behind@).len(),
{
    let list = heads.to_vec();
    let n: usize = list.len();
    let mut both: OrdSet<FactId> = OrdSet::new();
    assert(list@.take(0).to_set() =~= Set::<FactId>::empty());
    assert(both@ =~= list@.take(0).to_set().intersect(behind@));
    for i in 0..n
        invariant
            n == list@.len(),
            both@ == list@.take(i as int).to_set().intersect(behind@),
    {
        if behind.contains(&list[i]) {
            both.insert(list[i]);
        }
        proof {
            ordset::lemma_take_set(list@, i as int);
            assert(both@ =~= list@.take(i + 1).to_set().intersect(behind@));
        }
    }
    assert(list@.take(n as int) =~= list@);
    both.len()
}

impl FactGraph {
    fn checked_cell_share(&self, cell: &ExclusiveCell) -> (r: Result<u64, SemanticError>)
        ensures
            r == accounting::fits(self@.setting.limits, cell_share(self@, *cell)),
    {
        let limits = self.setting.limits;
        let a = amount(
            !self.index.cells.contains(cell),
            limits.checked_size::<ExclusiveCell>(),
        );
        let b = amount(
            !self.index.cell_heads.contains_key(cell),
            limits.checked_size::<(ExclusiveCell, OrdSet<FactId>)>(),
        );
        limits.plus(
            limits.checked_add_bytes(a, b),
            Ok(limits.checked_size::<FactId>()),
        )
    }

    fn checked_subject_share(&self, id: &FactId, subject: &DeviceId) -> (r: Result<
        u64,
        SemanticError,
    >)
        ensures
            r == accounting::fits(self@.setting.limits, subject_share(self@, *id, *subject)),
    {
        let limits = self.setting.limits;
        let entry = limits.checked_size::<(DeviceId, OrdSet<FactId>)>();
        let head = limits.checked_size::<FactId>();
        let a = amount(!self.index.authority_facts.contains_key(subject), entry);
        let b = amount(!lists(&self.index.authority_facts, subject, id), head);
        let c = amount(!self.index.authority_heads.contains_key(subject), entry);
        limits.plus(limits.plus(limits.checked_add_bytes(a, b), Ok(c)), Ok(head))
    }

    /// The index bytes that a fact's cells and subjects take.
    fn checked_heads_share(&self, fact: &SignedFact) -> (r: Result<u64, SemanticError>)
        ensures
            r == accounting::fits(self@.setting.limits, heads_share(self@, fact@)),
    {
        let ghost g = self@;
        let limits = self.setting.limits;
        let cells = sort_unique(&fact.content.body.exclusive_cells());
        let n: usize = cells.len();
        let ghost fc = |c: ExclusiveCell| cell_share(g, c);
        let ghost all_cells = fact@.content.body.cells().to_set();
        let mut total: u64 = 0;
        assert(cells@.take(0).to_set() =~= Set::<ExclusiveCell>::empty());
        for i in 0..n
            invariant
                n == cells@.len(),
                g == self@,
                limits == g.setting.limits,
                cells@.no_duplicates(),
                cells@.to_set() == all_cells,
                all_cells == fact@.content.body.cells().to_set(),
                all_cells.finite(),
                fc == (|c: ExclusiveCell| cell_share(g, c)),
                total == sums::sum(cells@.take(i as int).to_set(), fc),
        {
            let ghost done = cells@.take(i as int).to_set();
            let ghost key = cells@[i as int];
            proof {
                ordset::lemma_next_is_new(cells@, i as int);
                sums::lemma_sum_insert(done, fc, key);
                sums::lemma_sum_subset(done.insert(key), all_cells, fc);
            }
            total = match limits.plus(Ok(total), self.checked_cell_share(&cells[i])) {
                Ok(t) => t,
                Err(e) => {
                    assert(sums::sum(done.insert(key), fc) > u64::MAX);
                    return Err(e);
                },
            };
        }
        assert(cells@.take(n as int) =~= cells@);
        let ghost by_cells = total;
        let subjects = fact.indexed_authority_subjects();
        let m: usize = subjects.len();
        let ghost fs = |s: DeviceId| subject_share(g, fact@.id, s);
        assert(subjects@.take(0).to_set() =~= Set::<DeviceId>::empty());
        for i in 0..m
            invariant
                m == subjects@.len(),
                g == self@,
                limits == g.setting.limits,
                subjects@.no_duplicates(),
                subjects@.to_set() == fact@.participants(),
                fact@.participants().finite(),
                by_cells == sums::sum(
                    fact@.content.body.cells().to_set(),
                    |c: ExclusiveCell| cell_share(g, c),
                ),
                fs == (|s: DeviceId| subject_share(g, fact@.id, s)),
                total == by_cells + sums::sum(subjects@.take(i as int).to_set(), fs),
        {
            let ghost done = subjects@.take(i as int).to_set();
            let ghost key = subjects@[i as int];
            proof {
                ordset::lemma_next_is_new(subjects@, i as int);
                sums::lemma_sum_insert(done, fs, key);
                sums::lemma_sum_subset(done.insert(key), fact@.participants(), fs);
            }
            total = match limits.plus(
                Ok(total),
                self.checked_subject_share(&fact.id, &subjects[i]),
            ) {
                Ok(t) => t,
                Err(e) => {
                    assert(by_cells + sums::sum(done.insert(key), fs) > u64::MAX);
                    return Err(e);
                },
            };
        }
        assert(subjects@.take(m as int) =~= subjects@);
        Ok(total)
    }

    /// The bytes of the heads at a key that are in `behind`.
    fn checked_replaced_share<K: Key>(
        &self,
        heads: &OrdMap<K, OrdSet<FactId>>,
        fact: &SignedFact,
        behind: &OrdSet<FactId>,
        key: &K,
    ) -> (r: Result<u64, SemanticError>)
        requires
            behind@ == reach::reach(reach::input_edges(self@.facts), fact@.inputs()),
        ensures
            r == accounting::fits(
                self@.setting.limits,
                replaced_share(self@.facts, heads@, fact@, *key),
            ),
    {
        let count: usize = match heads.get(key) {
            Some(set) => count_in(set, behind),
            None => 0,
        };
        let limits = self.setting.limits;
        proof {
            let at = multimap::at(heads@, *key);
            let gone = at.filter(
                |h: FactId| reach::is_dominated(self@.facts, fact@.inputs(), h),
            );
            assert(gone =~= at.intersect(behind@));
            if !heads@.contains_key(*key) {
                assert(gone =~= Set::<FactId>::empty());
            }
        }
        limits.checked_entry_bytes(0, count, limits.checked_size::<FactId>())
    }

    /// The bytes of all heads that a fact has behind it.
    fn checked_heads_released(&self, fact: &SignedFact) -> (r: Result<u64, SemanticError>)
        ensures
            r == accounting::fits(self@.setting.limits, heads_released(self@, fact@)),
    {
        let ghost g = self@;
        let limits = self.setting.limits;
        let inputs = dependencies(fact);
        let behind = reach_set(&InputEdges { facts: &self.facts }, &inputs);
        let cells = sort_unique(&fact.content.body.exclusive_cells());
        let n: usize = cells.len();
        let ghost fc = |c: ExclusiveCell|
            replaced_share(g.facts, g.index.cell_heads, fact@, c);
        let ghost all_cells = fact@.content.body.cells().to_set();
        let mut total: u64 = 0;
        assert(cells@.take(0).to_set() =~= Set::<ExclusiveCell>::empty());
        for i in 0..n
            invariant
                n == cells@.len(),
                g == self@,
                limits == g.setting.limits,
                behind@ == reach::reach(reach::input_edges(self@.facts), fact@.inputs()),
                cells@.no_duplicates(),
                cells@.to_set() == all_cells,
                all_cells == fact@.content.body.cells().to_set(),
                all_cells.finite(),
                fc == (|c: ExclusiveCell|
                    replaced_share(g.facts, g.index.cell_heads, fact@, c)),
                total == sums::sum(cells@.take(i as int).to_set(), fc),
        {
            let ghost done = cells@.take(i as int).to_set();
            let ghost key = cells@[i as int];
            proof {
                ordset::lemma_next_is_new(cells@, i as int);
                sums::lemma_sum_insert(done, fc, key);
                sums::lemma_sum_subset(done.insert(key), all_cells, fc);
            }
            total = match limits.plus(
                Ok(total),
                self.checked_replaced_share(&self.index.cell_heads, fact, &behind, &cells[i]),
            ) {
                Ok(t) => t,
                Err(e) => {
                    assert(sums::sum(done.insert(key), fc) > u64::MAX);
                    return Err(e);
                },
            };
        }
        assert(cells@.take(n as int) =~= cells@);
        let ghost by_cells = total;
        let subjects = fact.indexed_authority_subjects();
        let m: usize = subjects.len();
        let ghost fs = |s: DeviceId|
            replaced_share(g.facts, g.index.authority_heads, fact@, s);
        assert(subjects@.take(0).to_set() =~= Set::<DeviceId>::empty());
        for i in 0..m
            invariant
                m == subjects@.len(),
                g == self@,
                limits == g.setting.limits,
                behind@ == reach::reach(reach::input_edges(self@.facts), fact@.inputs()),
                subjects@.no_duplicates(),
                subjects@.to_set() == fact@.participants(),
                fact@.participants().finite(),
                by_cells == sums::sum(
                    fact@.content.body.cells().to_set(),
                    |c: ExclusiveCell| replaced_share(g.facts, g.index.cell_heads, fact@, c),
                ),
                fs == (|s: DeviceId|
                    replaced_share(g.facts, g.index.authority_heads, fact@, s)),
                total == by_cells + sums::sum(subjects@.take(i as int).to_set(), fs),
        {
            let ghost done = subjects@.take(i as int).to_set();
            let ghost key = subjects@[i as int];
            proof {
                ordset::lemma_next_is_new(subjects@, i as int);
                sums::lemma_sum_insert(done, fs, key);
                sums::lemma_sum_subset(done.insert(key), fact@.participants(), fs);
            }
            total = match limits.plus(
                Ok(total),
                self.checked_replaced_share(
                    &self.index.authority_heads,
                    fact,
                    &behind,
                    &subjects[i],
                ),
            ) {
                Ok(t) => t,
                Err(e) => {
                    assert(by_cells + sums::sum(done.insert(key), fs) > u64::MAX);
                    return Err(e);
                },
            };
        }
        assert(subjects@.take(m as int) =~= subjects@);
        Ok(total)
    }

    /// The index bytes that admitting a fact reserves: conservative where
    /// replaced heads and rows are only released by the exact accounting.
    pub fn index_residency_delta(&self, fact: &SignedFact) -> (r: Result<u64, SemanticError>)
        ensures
            r == index_reserve(self@, fact@),
    {
        proof {
            reveal(index_reserve);
        }
        let limits = self.setting.limits;
        let head = limits.checked_size::<FactId>();
        let selection: Result<u64, SemanticError> = match &fact.content.body {
            FactBody::AuthorityLineageResolution { subject, .. } => limits.checked_add_bytes(
                amount(
                    !self.index.selectors.contains_key(subject),
                    limits.checked_size::<(DeviceId, OrdSet<Selection>)>(),
                ),
                limits.checked_size::<Selection>(),
            ),
            _ => Ok(0),
        };
        let base = limits.plus(self.checked_heads_share(fact), selection);
        if let Err(e) = base {
            return Err(e);
        }
        let change = match self.provenance_residency_delta(fact) {
            Ok(d) => if d.added >= d.removed {
                Ok(d.added - d.removed)
            } else {
                Ok(0)
            },
            Err(e) => Err(e),
        };
        let planned = limits.plus(base, change);
        if let Err(e) = planned {
            return Err(e);
        }
        // The exact additional subject-index entries for cold witnesses are
        // reserved before commit can retain them.
        let cold = limits.plus(planned, self.cold_provenance_index_reserve(fact));
        let evidence: Result<u64, SemanticError> = match fact.content.body.stand_down_target() {
            Some(target) => limits.checked_add_bytes(
                amount(
                    !self.index.stand_down.contains_key(&target),
                    limits.checked_size::<(DeviceId, OrdSet<FactId>)>(),
                ),
                head,
            ),
            None => Ok(0),
        };
        limits.plus(cold, evidence)
    }

    /// The index bytes that admitting a fact adds and removes.
    pub fn exact_index_residency_delta(&self, fact: &SignedFact) -> (r: Result<
        IndexResidencyDelta,
        SemanticError,
    >)
        ensures
            r == exact_delta(self@, fact@),
    {
        proof {
            reveal(exact_delta);
        }
        let limits = self.setting.limits;
        let head = limits.checked_size::<FactId>();
        let selection: Result<u64, SemanticError> = match &fact.content.body {
            FactBody::AuthorityLineageResolution { subject, selected_head, .. } => {
                limits.checked_add_bytes(
                    amount(
                        !self.index.selectors.contains_key(subject),
                        limits.checked_size::<(DeviceId, OrdSet<Selection>)>(),
                    ),
                    amount(
                        !lists(
                            &self.index.selectors,
                            subject,
                            &Selection { selector: fact.id, selected: *selected_head },
                        ),
                        limits.checked_size::<Selection>(),
                    ),
                )
            },
            _ => Ok(0),
        };
        let base = match limits.plus(self.checked_heads_share(fact), selection) {
            Ok(n) => n,
            Err(e) => {
                return Err(e);
            },
        };
        let gone = match self.checked_heads_released(fact) {
            Ok(n) => n,
            Err(e) => {
                return Err(e);
            },
        };
        let change = match self.provenance_residency_delta(fact) {
            Ok(d) => d,
            Err(e) => {
                return Err(e);
            },
        };
        let added = match limits.checked_add_bytes(base, change.added) {
            Ok(n) => n,
            Err(e) => {
                return Err(e);
            },
        };
        let removed = match limits.checked_add_bytes(gone, change.removed) {
            Ok(n) => n,
            Err(e) => {
                return Err(e);
            },
        };
        let evidence: Result<u64, SemanticError> = match fact.content.body.stand_down_target() {
            Some(target) => limits.checked_add_bytes(
                amount(
                    !self.index.stand_down.contains_key(&target),
                    limits.checked_size::<(DeviceId, OrdSet<FactId>)>(),
                ),
                amount(!lists(&self.index.stand_down, &target, &fact.id), head),
            ),
            None => Ok(0),
        };
        match limits.plus(Ok(added), evidence) {
            Ok(added) => Ok(IndexResidencyDelta { added, removed }),
            Err(e) => Err(e),
        }
    }

    pub fn apply_index_residency_delta(&self, current: u64, delta: IndexResidencyDelta) -> (r:
        Result<u64, SemanticError>)
        ensures
            r == applied(self@.setting.limits, current, delta),
    {
        let limits = self.setting.limits;
        match current.checked_sub(delta.removed) {
            Some(rest) => limits.checked_add_bytes(rest, delta.added),
            None => Err(limits.accounting_error()),
        }
    }

    pub fn missing_dependencies(&self, fact: &SignedFact) -> (r: Vec<FactId>)
        ensures
            r@ == order::ascending(missing_inputs(self@, fact@)),
            r@.to_set() == missing_inputs(self@, fact@),
            order::is_ascending(r@),
            r@.no_duplicates(),
    {
        let inputs = dependencies(fact);
        let n: usize = inputs.len();
        let mut missing: OrdSet<FactId> = OrdSet::new();
        assert(inputs@.take(0).to_set() =~= Set::<FactId>::empty());
        assert(missing@ =~= inputs@.take(0).to_set().difference(self@.facts.dom()));
        for i in 0..n
            invariant
                n == inputs@.len(),
                missing@ == inputs@.take(i as int).to_set().difference(self@.facts.dom()),
        {
            if !self.facts.contains_key(&inputs[i]) {
                missing.insert(inputs[i]);
            }
            proof {
                ordset::lemma_take_set(inputs@, i as int);
                assert(missing@ =~= inputs@.take(i + 1).to_set().difference(self@.facts.dom()));
            }
        }
        assert(inputs@.take(n as int) =~= inputs@);
        missing.to_vec()
    }

    /// What admitting a fact costs, or why it is refused.
    pub fn fact_cost(&self, fact: &SignedFact) -> (r: Result<FactCost, SemanticError>)
        ensures
            match r {
                Ok(c) => cost_of(self@, fact@) == Ok::<CostView, SemanticError>(c@),
                Err(e) => cost_of(self@, fact@) == Err::<CostView, SemanticError>(e),
            },
    {
        proof {
            reveal(cost_of);
        }
        let limits = self.setting.limits;
        let (encoded_bytes, edges) = match limits.fact_encoded_and_edges(fact) {
            Ok(m) => m,
            Err(e) => {
                return Err(e);
            },
        };
        let index_bytes = match self.index_residency_delta(fact) {
            Ok(n) => n,
            Err(e) => {
                return Err(e);
            },
        };
        match check_fact_bounds(&limits, fact, encoded_bytes) {
            Ok(()) => Ok(
                FactCost {
                    encoded_bytes,
                    index_bytes,
                    edges,
                    missing: self.missing_dependencies(fact),
                },
            ),
            Err(e) => Err(e),
        }
    }

    pub fn reserve_retained(&self, author: &DeviceId, bytes: u64) -> (r: Result<(), SemanticError>)
        ensures
            r == retained_bounds(self@, *author, bytes),
    {
        let limits = self.setting.limits;
        let held = usage_at(&self.ledger.retained, author);
        if let Err(e) = limits.checked_total(
            SemanticCapacityDimension::RetainedFactsPerAuthor,
            held.facts,
            1,
            limits.max_retained_facts_per_author,
        ) {
            return Err(e);
        }
        match limits.checked_total(
            SemanticCapacityDimension::RetainedBytesPerAuthor,
            held.bytes,
            bytes,
            limits.max_retained_bytes_per_author,
        ) {
            Ok(_) => Ok(()),
            Err(e) => Err(e),
        }
    }

    fn reserve_edges(&self, edges: u64) -> (r: Result<(), SemanticError>)
        ensures
            r == edge_bounds(self@, edges),
    {
        let limits = self.setting.limits;
        match self.ledger.edges.checked_add(self.quarantine.edges) {
            Some(current) => match limits.checked_total(
                SemanticCapacityDimension::DependencyEdges,
                current,
                edges,
                limits.max_dependency_edges,
            ) {
                Ok(_) => Ok(()),
                Err(e) => Err(e),
            },
            None => Err(
                SemanticError::CapacityExceeded {
                    dimension: SemanticCapacityDimension::DependencyEdges,
                    limit: limits.max_dependency_edges,
                    observed: u64::MAX,
                },
            ),
        }
    }

    pub fn reserve_quarantine(
        &self,
        fact: &SignedFact,
        cost: &FactCost,
        retained_reserved: bool,
    ) -> (r: Result<(), SemanticError>)
        ensures
            r == quarantine_bounds(self@, fact@, cost@, retained_reserved),
    {
        let limits = self.setting.limits;
        if !retained_reserved {
            if let Err(e) = self.reserve_retained(&fact.content.author, cost.encoded_bytes) {
                return Err(e);
            }
        }
        if let Err(e) = limits.checked_total(
            SemanticCapacityDimension::QuarantinedFacts,
            self.quarantine.facts.len() as u64,
            1,
            limits.max_quarantined_facts,
        ) {
            return Err(e);
        }
        if let Err(e) = limits.checked_total(
            SemanticCapacityDimension::QuarantinedBytes,
            self.quarantine.bytes,
            cost.encoded_bytes,
            limits.max_quarantined_bytes,
        ) {
            return Err(e);
        }
        if let Err(e) = self.reserve_edges(cost.edges) {
            return Err(e);
        }
        let held = usage_at(&self.quarantine.by_author, &fact.content.author);
        if let Err(e) = limits.checked_total(
            SemanticCapacityDimension::QuarantinedFactsPerAuthor,
            held.facts,
            1,
            limits.max_quarantined_facts_per_author,
        ) {
            return Err(e);
        }
        match limits.checked_total(
            SemanticCapacityDimension::QuarantinedBytesPerAuthor,
            held.bytes,
            cost.encoded_bytes,
            limits.max_quarantined_bytes_per_author,
        ) {
            Ok(_) => Ok(()),
            Err(e) => Err(e),
        }
    }

    pub fn reserve_admitted(
        &self,
        fact: &SignedFact,
        cost: &FactCost,
        retained_reserved: bool,
    ) -> (r: Result<(), SemanticError>)
        ensures
            r == admitted_bounds(self@, fact@, cost@, retained_reserved),
    {
        let limits = self.setting.limits;
        if !retained_reserved {
            if let Err(e) = self.reserve_retained(&fact.content.author, cost.encoded_bytes) {
                return Err(e);
            }
        }
        if let Err(e) = limits.checked_total(
            SemanticCapacityDimension::AdmittedFacts,
            self.ledger.fact_count,
            1,
            limits.max_admitted_facts,
        ) {
            return Err(e);
        }
        if let Err(e) = limits.checked_total(
            SemanticCapacityDimension::AdmittedBytes,
            self.ledger.bytes,
            cost.encoded_bytes,
            limits.max_admitted_bytes,
        ) {
            return Err(e);
        }
        let facts = limits.checked_add_bytes(self.ledger.bytes, cost.encoded_bytes);
        let indexes = limits.plus(facts, Ok(self.ledger.index_bytes));
        let resident = limits.plus(indexes, Ok(cost.index_bytes));
        match resident {
            Ok(bytes) => {
                if let Err(e) = limits.check_capacity(
                    SemanticCapacityDimension::AdmittedBytes,
                    bytes,
                    limits.max_database_bytes,
                ) {
                    return Err(e);
                }
            },
            Err(e) => {
                return Err(e);
            },
        }
        self.reserve_edges(cost.edges)
    }

    /// The index bytes that a cold admission reserves for the rows it
    /// retains.
    pub fn cold_provenance_index_reserve(&self, fact: &SignedFact) -> (r: Result<
        u64,
        SemanticError,
    >)
        ensures
            r == provenance::cold_reserve(self@, fact@),
    {
        if self.fence.staged_cold_pending == 0 {
            return Ok(0);
        }
        let plan = match self.planned_provenance(fact) {
            Ok(p) => p,
            Err(e) => {
                return Err(e);
            },
        };
        let limits = self.setting.limits;
        let (selectors, subjects) = self.unlisted(fact, &plan);
        let by_selectors = limits.plus(
            limits.checked_entry_bytes(0, selectors, limits.checked_size::<Selection>()),
            limits.checked_entry_bytes(
                0,
                subjects,
                limits.checked_size::<(DeviceId, OrdSet<Selection>)>(),
            ),
        );
        let rows = self.cold_row_set(fact, &plan);
        let by_rows = limits.plus(by_selectors, self.checked_unlisted_uses(&rows));
        limits.plus(
            by_rows,
            limits.checked_entry_bytes(
                0,
                self.count_unknown_subjects(&rows),
                limits.checked_size::<(DeviceId, OrdSet<FactId>)>(),
            ),
        )
    }

    /// How many selectors of a plan, and how many of their subjects, the
    /// selector index does not list.
    fn unlisted(&self, fact: &SignedFact, plan: &OrdMap<FactId, Row>) -> (r: (usize, usize))
        ensures
            r.0 == provenance::unlisted_selectors(self@, fact@, plan@).len(),
            r.1 == provenance::unlisted_selector_subjects(self@, fact@, plan@).len(),
    {
        let ghost g = self@;
        let ghost want = provenance::unlisted_selectors(g, fact@, plan@);
        let list = rows_selectors(plan).to_vec();
        let n: usize = list.len();
        let mut found: OrdSet<FactId> = OrdSet::new();
        let mut subjects: OrdSet<DeviceId> = OrdSet::new();
        assert(list@.take(0).to_set() =~= Set::<FactId>::empty());
        assert(found@ =~= list@.take(0).to_set().intersect(want));
        for i in 0..n
            invariant
                n == list@.len(),
                g == self@,
                list@.to_set() == provenance::selectors_in(plan@),
                want == provenance::unlisted_selectors(g, fact@, plan@),
                found@ == list@.take(i as int).to_set().intersect(want),
                forall|d: DeviceId| #[trigger]
                    subjects@.contains(d) <==> !g.index.selectors.contains_key(d) && exists|
                        s: FactId,
                    | #[trigger]
                        found@.contains(s) && (g.facts[s].content.body
                            matches BodyView::AuthorityLineageResolution { subject, .. } && subject
                            == d),
        {
            let ghost found0 = found@;
            let ghost subjects0 = subjects@;
            let s = list[i];
            proof {
                ordset::lemma_take_set(list@, i as int);
                assert(list@.contains(s));
                assert(list@.to_set().contains(s));
            }
            if !s.same(&fact.id) {
                if let Some(f) = self.facts.get(&s) {
                    if let FactBody::AuthorityLineageResolution { subject, selected_head, .. } =
                        &f.content.body {
                        let selection = Selection { selector: s, selected: *selected_head };
                        if !lists(&self.index.selectors, subject, &selection) {
                            assert(want.contains(s));
                            found.insert(s);
                            if !self.index.selectors.contains_key(subject) {
                                subjects.insert(*subject);
                            }
                        }
                    }
                }
            }
            proof {
                assert(found@ =~= list@.take(i + 1).to_set().intersect(want));
                assert forall|d: DeviceId| #[trigger]
                    subjects@.contains(d) <==> !g.index.selectors.contains_key(d) && exists|
                        s: FactId,
                    | #[trigger]
                        found@.contains(s) && (g.facts[s].content.body
                            matches BodyView::AuthorityLineageResolution { subject, .. } && subject
                            == d) by {
                    if subjects0.contains(d) {
                        let x = choose|x: FactId| #[trigger]
                            found0.contains(x) && (g.facts[x].content.body
                                matches BodyView::AuthorityLineageResolution { subject, .. }
                                && subject == d);
                        assert(found@.contains(x));
                    }
                    if subjects@.contains(d) && !subjects0.contains(d) {
                        assert(found@.contains(s));
                    }
                    if !g.index.selectors.contains_key(d) && exists|x: FactId| #[trigger]
                        found@.contains(x) && (g.facts[x].content.body
                            matches BodyView::AuthorityLineageResolution { subject, .. } && subject
                            == d) {
                        let x = choose|x: FactId| #[trigger]
                            found@.contains(x) && (g.facts[x].content.body
                                matches BodyView::AuthorityLineageResolution { subject, .. }
                                && subject == d);
                        if x != s {
                            assert(found0.contains(x));
                        }
                    }
                }
            }
        }
        proof {
            assert(list@.take(n as int) =~= list@);
            assert(found@ =~= want);
            assert(subjects@ =~= provenance::unlisted_selector_subjects(g, fact@, plan@));
        }
        (found.len(), subjects.len())
    }

    /// The rows that a cold admission retains besides the candidate.
    fn cold_row_set(&self, fact: &SignedFact, plan: &OrdMap<FactId, Row>) -> (r: OrdSet<FactId>)
        ensures
            r@ == provenance::cold_rows(self@, fact@, plan@),
    {
        let ghost g = self@;
        let mut kept = self.provenance_live_roots();
        kept.insert(fact.id);
        kept.extend(&rows_selectors(plan));
        kept.extend(&rows_selected(plan));
        let ghost base = kept@;
        let list = kept.to_vec();
        let n: usize = list.len();
        let ghost all = g.facts.insert(fact@.id, fact@);
        assert(list@.take(0).to_set() =~= Set::<FactId>::empty());
        assert(kept@ =~= base.union(provenance::inputs_of(all, list@.take(0).to_set())));
        for i in 0..n
            invariant
                n == list@.len(),
                g == self@,
                all == g.facts.insert(fact@.id, fact@),
                kept@ == base.union(provenance::inputs_of(all, list@.take(i as int).to_set())),
        {
            let ghost before = kept@;
            let id = list[i];
            let source: Option<&SignedFact> = if id.same(&fact.id) {
                Some(fact)
            } else {
                self.facts.get(&id)
            };
            if let Some(f) = source {
                let inputs = dependencies(f);
                kept.extend_vec(&inputs);
            }
            proof {
                ordset::lemma_take_set(list@, i as int);
                let small = list@.take(i as int).to_set();
                let big = list@.take(i + 1).to_set();
                assert forall|x: FactId| #[trigger] kept@.contains(x) <==> base.union(
                    provenance::inputs_of(all, big),
                ).contains(x) by {
                    if provenance::inputs_of(all, small).contains(x) {
                        let y = choose|y: FactId| #[trigger]
                            small.contains(y) && all.contains_key(y) && all[y].inputs().contains(
                                x,
                            );
                        assert(big.contains(y));
                    }
                    if provenance::inputs_of(all, big).contains(x) {
                        let y = choose|y: FactId| #[trigger]
                            big.contains(y) && all.contains_key(y) && all[y].inputs().contains(x);
                        if y != id {
                            assert(small.contains(y));
                        }
                    }
                    if all.contains_key(id) && all[id].inputs().contains(x) {
                        assert(big.contains(id));
                    }
                }
                assert(kept@ =~= base.union(provenance::inputs_of(all, big)));
            }
        }
        proof {
            assert(list@.take(n as int) =~= list@);
            assert(kept@ =~= provenance::cold_retained(g, fact@, plan@));
        }
        kept.remove(&fact.id);
        let ids = kept.to_vec();
        let m: usize = ids.len();
        let mut r: OrdSet<FactId> = OrdSet::new();
        assert(ids@.take(0).to_set() =~= Set::<FactId>::empty());
        assert(r@ =~= ids@.take(0).to_set().intersect(g.facts.dom()));
        for i in 0..m
            invariant
                m == ids@.len(),
                g == self@,
                r@ == ids@.take(i as int).to_set().intersect(g.facts.dom()),
        {
            if self.facts.contains_key(&ids[i]) {
                r.insert(ids[i]);
            }
            proof {
                ordset::lemma_take_set(ids@, i as int);
                assert(r@ =~= ids@.take(i + 1).to_set().intersect(g.facts.dom()));
            }
        }
        assert(ids@.take(m as int) =~= ids@);
        r
    }

    /// The subjects whose lineage a row takes part in without being listed.
    fn unlisted_subject_set(&self, id: &FactId) -> (r: OrdSet<DeviceId>)
        requires
            self@.facts.contains_key(*id),
        ensures
            r@ == provenance::unlisted_subjects(self@, *id),
    {
        let ghost g = self@;
        let list = self.facts.value(id).indexed_authority_subjects();
        let n: usize = list.len();
        let mut r: OrdSet<DeviceId> = OrdSet::new();
        let ghost keep = |d: DeviceId| !multimap::at(g.index.authority_facts, d).contains(*id);
        assert(list@.take(0).to_set() =~= Set::<DeviceId>::empty());
        assert(r@ =~= list@.take(0).to_set().filter(keep));
        for i in 0..n
            invariant
                n == list@.len(),
                g == self@,
                keep == (|d: DeviceId|
                    !multimap::at(g.index.authority_facts, d).contains(*id)),
                r@ == list@.take(i as int).to_set().filter(keep),
        {
            if !lists(&self.index.authority_facts, &list[i], id) {
                r.insert(list[i]);
            }
            proof {
                ordset::lemma_take_set(list@, i as int);
                assert(r@ =~= list@.take(i + 1).to_set().filter(keep));
            }
        }
        assert(list@.take(n as int) =~= list@);
        assert(r@ =~= provenance::unlisted_subjects(g, *id));
        r
    }

    /// The bytes of the subject-index entries that the rows lack.
    fn checked_unlisted_uses(&self, rows: &OrdSet<FactId>) -> (r: Result<u64, SemanticError>)
        requires
            rows@.subset_of(self@.facts.dom()),
        ensures
            r == accounting::fits(
                self@.setting.limits,
                sums::sum(
                    rows@,
                    |id: FactId|
                        provenance::unlisted_subjects(self@, id).len() * accounting::size::<
                            FactId,
                        >(),
                ),
            ),
    {
        let ghost g = self@;
        let limits = self.setting.limits;
        let head = limits.checked_size::<FactId>();
        let list = rows.to_vec();
        let n: usize = list.len();
        let ghost f = |id: FactId|
            provenance::unlisted_subjects(g, id).len() * accounting::size::<FactId>();
        let mut total: u64 = 0;
        assert(list@.take(0).to_set() =~= Set::<FactId>::empty());
        for i in 0..n
            invariant
                n == list@.len(),
                g == self@,
                limits == g.setting.limits,
                head == accounting::size::<FactId>(),
                list@.no_duplicates(),
                list@.to_set() == rows@,
                rows@.finite(),
                rows@.subset_of(g.facts.dom()),
                f == (|id: FactId|
                    provenance::unlisted_subjects(g, id).len() * accounting::size::<FactId>()),
                total == sums::sum(list@.take(i as int).to_set(), f),
        {
            let ghost done = list@.take(i as int).to_set();
            let ghost key = list@[i as int];
            proof {
                ordset::lemma_next_is_new(list@, i as int);
                sums::lemma_sum_insert(done, f, key);
                sums::lemma_sum_subset(done.insert(key), rows@, f);
                assert(list@.contains(key));
                assert(rows@.contains(key));
            }
            let lacking = self.unlisted_subject_set(&list[i]).len();
            total = match limits.plus(Ok(total), limits.checked_entry_bytes(0, lacking, head)) {
                Ok(t) => t,
                Err(e) => {
                    assert(sums::sum(done.insert(key), f) > u64::MAX);
                    return Err(e);
                },
            };
        }
        assert(list@.take(n as int) =~= list@);
        Ok(total)
    }

    /// How many subjects of unlisted uses the subject index does not know.
    fn count_unknown_subjects(&self, rows: &OrdSet<FactId>) -> (r: usize)
        requires
            rows@.subset_of(self@.facts.dom()),
        ensures
            r == provenance::unknown_subjects(self@, rows@).len(),
    {
        let ghost g = self@;
        let list = rows.to_vec();
        let n: usize = list.len();
        let mut all: OrdSet<DeviceId> = OrdSet::new();
        for i in 0..n
            invariant
                n == list@.len(),
                g == self@,
                list@.to_set() == rows@,
                rows@.subset_of(g.facts.dom()),
                forall|d: DeviceId| #[trigger]
                    all@.contains(d) <==> exists|j: int|
                        0 <= j < i && provenance::unlisted_subjects(
                            g,
                            #[trigger] list@[j],
                        ).contains(d),
        {
            let ghost before = all@;
            proof {
                assert(list@.contains(list@[i as int]));
                assert(rows@.contains(list@[i as int]));
            }
            let more = self.unlisted_subject_set(&list[i]);
            all.extend(&more);
            assert forall|d: DeviceId| #[trigger] all@.contains(d) <==> exists|j: int|
                0 <= j < i + 1 && provenance::unlisted_subjects(g, #[trigger] list@[j]).contains(
                    d,
                ) by {
                if before.contains(d) {
                    let j = choose|j: int|
                        0 <= j < i && provenance::unlisted_subjects(
                            g,
                            #[trigger] list@[j],
                        ).contains(d);
                    assert(provenance::unlisted_subjects(g, list@[j]).contains(d));
                }
                if more@.contains(d) {
                    assert(provenance::unlisted_subjects(g, list@[i as int]).contains(d));
                }
            }
        }
        let names = all.to_vec();
        let m: usize = names.len();
        let mut unknown: OrdSet<DeviceId> = OrdSet::new();
        assert(names@.take(0).to_set() =~= Set::<DeviceId>::empty());
        assert(unknown@ =~= names@.take(0).to_set().difference(g.index.authority_facts.dom()));
        for i in 0..m
            invariant
                m == names@.len(),
                g == self@,
                unknown@ == names@.take(i as int).to_set().difference(
                    g.index.authority_facts.dom(),
                ),
        {
            if !self.index.authority_facts.contains_key(&names[i]) {
                unknown.insert(names[i]);
            }
            proof {
                ordset::lemma_take_set(names@, i as int);
                assert(unknown@ =~= names@.take(i + 1).to_set().difference(
                    g.index.authority_facts.dom(),
                ));
            }
        }
        proof {
            assert(names@.take(m as int) =~= names@);
            let want = provenance::unknown_subjects(g, rows@);
            assert forall|d: DeviceId| #[trigger] unknown@.contains(d) <==> want.contains(d) by {
                if all@.contains(d) {
                    let j = choose|j: int|
                        0 <= j < n && provenance::unlisted_subjects(
                            g,
                            #[trigger] list@[j],
                        ).contains(d);
                    assert(list@.contains(list@[j]));
                    assert(rows@.contains(list@[j]));
                }
                if want.contains(d) {
                    let id = choose|id: FactId| #[trigger]
                        rows@.contains(id) && provenance::unlisted_subjects(g, id).contains(d);
                    assert(list@.contains(id));
                    let j = choose|j: int| 0 <= j < list@.len() && list@[j] == id;
                    assert(provenance::unlisted_subjects(g, list@[j]).contains(d));
                }
            }
            assert(unknown@ =~= want);
        }
        unknown.len()
    }
}

/// The selectors that some row is related to.
pub fn rows_selectors(rows: &OrdMap<FactId, Row>) -> (r: OrdSet<FactId>)
    ensures
        r@ == provenance::selectors_in(rows@),
{
    let ids = rows.keys();
    let n: usize = ids.len();
    let mut r: OrdSet<FactId> = OrdSet::new();
    for i in 0..n
        invariant
            n == ids@.len(),
            forall|k: FactId| #[trigger] ids@.contains(k) <==> rows@.contains_key(k),
            forall|s: FactId| #[trigger]
                r@.contains(s) <==> exists|j: int|
                    0 <= j < i && rows@[#[trigger] ids@[j]].contains_key(s),
    {
        assert(ids@.contains(ids@[i as int]));
        let ghost before = r@;
        let more = rows.value(&ids[i]).keys();
        r.extend_vec(&more);
        assert forall|s: FactId| #[trigger] r@.contains(s) <==> exists|j: int|
            0 <= j < i + 1 && rows@[#[trigger] ids@[j]].contains_key(s) by {
            if before.contains(s) {
                let j = choose|j: int|
                    0 <= j < i && rows@[#[trigger] ids@[j]].contains_key(s);
                assert(rows@[ids@[j]].contains_key(s));
            }
            if more@.to_set().contains(s) {
                assert(rows@[ids@[i as int]].contains_key(s));
            }
        }
    }
    assert forall|s: FactId| #[trigger] r@.contains(s) <==> provenance::selectors_in(
        rows@,
    ).contains(s) by {
        if r@.contains(s) {
            let j = choose|j: int| 0 <= j < n && rows@[#[trigger] ids@[j]].contains_key(s);
            assert(ids@.contains(ids@[j]));
            assert(rows@.contains_key(ids@[j]));
        }
        if provenance::selectors_in(rows@).contains(s) {
            let id = choose|id: FactId| #[trigger]
                rows@.contains_key(id) && rows@[id].contains_key(s);
            assert(ids@.contains(id));
            let j = choose|j: int| 0 <= j < ids@.len() && ids@[j] == id;
            assert(rows@[ids@[j]].contains_key(s));
        }
    }
    assert(r@ =~= provenance::selectors_in(rows@));
    r
}

/// The branches that some relation names as selected.
fn rows_selected(rows: &OrdMap<FactId, Row>) -> (r: OrdSet<FactId>)
    ensures
        r@ == provenance::selected_in(rows@),
{
    let ids = rows.keys();
    let n: usize = ids.len();
    let mut r: OrdSet<FactId> = OrdSet::new();
    for i in 0..n
        invariant
            n == ids@.len(),
            forall|k: FactId| #[trigger] ids@.contains(k) <==> rows@.contains_key(k),
            forall|x: FactId| #[trigger]
                r@.contains(x) <==> exists|j: int, s: FactId|
                    0 <= j < i && #[trigger] rows@[ids@[j]].contains_key(s)
                        && rows@[ids@[j]][s].selected == x,
    {
        assert(ids@.contains(ids@[i as int]));
        let ghost before = r@;
        let row = rows.value(&ids[i]);
        let keys = row.keys();
        let m: usize = keys.len();
        for k in 0..m
            invariant
                m == keys@.len(),
                row@ == rows@[ids@[i as int]],
                forall|s: FactId| #[trigger] keys@.contains(s) <==> row@.contains_key(s),
                forall|x: FactId| #[trigger]
                    r@.contains(x) <==> before.contains(x) || exists|q: int|
                        0 <= q < k && row@[#[trigger] keys@[q]].selected == x,
        {
            assert(keys@.contains(keys@[k as int]));
            let ghost mid = r@;
            r.insert(row.value(&keys[k]).selected);
            assert forall|x: FactId| #[trigger] r@.contains(x) <==> before.contains(x) || exists|
                q: int,
            |
                0 <= q < k + 1 && row@[#[trigger] keys@[q]].selected == x by {
                if mid.contains(x) && !before.contains(x) {
                    let q = choose|q: int|
                        0 <= q < k && row@[#[trigger] keys@[q]].selected == x;
                    assert(row@[keys@[q]].selected == x);
                }
                if row@[keys@[k as int]].selected == x {
                    assert(r@.contains(x));
                }
            }
        }
        assert forall|x: FactId| #[trigger] r@.contains(x) <==> exists|j: int, s: FactId|
            0 <= j < i + 1 && #[trigger] rows@[ids@[j]].contains_key(s)
                && rows@[ids@[j]][s].selected == x by {
            if before.contains(x) {
                let (j, s) = choose|j: int, s: FactId|
                    0 <= j < i && #[trigger] rows@[ids@[j]].contains_key(s)
                        && rows@[ids@[j]][s].selected == x;
                assert(rows@[ids@[j]].contains_key(s));
            }
            if r@.contains(x) && !before.contains(x) {
                let q = choose|q: int| 0 <= q < m && row@[#[trigger] keys@[q]].selected == x;
                assert(keys@.contains(keys@[q]));
                assert(rows@[ids@[i as int]].contains_key(keys@[q]));
            }
            if exists|j: int, s: FactId|
                0 <= j < i + 1 && #[trigger] rows@[ids@[j]].contains_key(s)
                    && rows@[ids@[j]][s].selected == x {
                let (j, s) = choose|j: int, s: FactId|
                    0 <= j < i + 1 && #[trigger] rows@[ids@[j]].contains_key(s)
                        && rows@[ids@[j]][s].selected == x;
                if j == i {
                    assert(keys@.contains(s));
                    let q = choose|q: int| 0 <= q < keys@.len() && keys@[q] == s;
                    assert(row@[keys@[q]].selected == x);
                } else {
                    assert(before.contains(x));
                }
            }
        }
    }
    assert forall|x: FactId| #[trigger] r@.contains(x) <==> provenance::selected_in(
        rows@,
    ).contains(x) by {
        if r@.contains(x) {
            let (j, s) = choose|j: int, s: FactId|
                0 <= j < n && #[trigger] rows@[ids@[j]].contains_key(s)
                    && rows@[ids@[j]][s].selected == x;
            assert(ids@.contains(ids@[j]));
            assert(rows@[ids@[j]].contains_key(s));
        }
        if provenance::selected_in(rows@).contains(x) {
            let (id, s) = choose|id: FactId, s: FactId|
                rows@.contains_key(id) && #[trigger] rows@[id].contains_key(s)
                    && rows@[id][s].selected == x;
            assert(ids@.contains(id));
            let j = choose|j: int| 0 <= j < ids@.len() && ids@[j] == id;
            assert(rows@[ids@[j]].contains_key(s));
        }
    }
    assert(r@ =~= provenance::selected_in(rows@));
    r
}

/// The per-fact bounds, in order.
fn check_fact_bounds(limits: &SemanticAdmissionPolicy, fact: &SignedFact, bytes: u64) -> (r: Result<
    (),
    SemanticError,
>)
    ensures
        r == fact_bounds(*limits, fact@, bytes),
{
    if let Err(e) = limits.check_capacity(
        SemanticCapacityDimension::FactEncodedBytes,
        bytes,
        limits.max_fact_encoded_bytes,
    ) {
        return Err(e);
    }
    if let Err(e) = limits.check_capacity(
        SemanticCapacityDimension::DependenciesPerFact,
        dependencies(fact).len() as u64,
        limits.max_dependencies_per_fact,
    ) {
        return Err(e);
    }
    let uses = &fact.content.authority_uses;
    if let Err(e) = limits.check_capacity(
        SemanticCapacityDimension::AuthorityUsesPerFact,
        uses.len() as u64,
        limits.max_authority_uses_per_fact,
    ) {
        return Err(e);
    }
    let n: usize = uses.len();
    let mut most: usize = 0;
    let ghost views = fact@.content.authority_uses;
    for i in 0..n
        invariant
            n == uses@.len(),
            views == fact::uses_view(uses@),
            most == widest(views.take(i as int)),
    {
        proof {
            let longer = views.take(i + 1);
            assert(longer.drop_last() =~= views.take(i as int));
            assert(longer.last() == uses@[i as int]@);
        }
        let count = uses[i].predecessors.len();
        if most < count {
            most = count;
        }
    }
    assert(views.take(n as int) =~= views);
    limits.check_capacity(
        SemanticCapacityDimension::AuthorityPredecessorsPerUse,
        most as u64,
        limits.max_authority_predecessors_per_use,
    )
}

} // verus!

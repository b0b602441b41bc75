//! Selector provenance: how each retained row stands to the typed selectors,
//! derived while its signed ancestry is available.

use vstd::prelude::*;

use crate::accounting;
use crate::authority;
use crate::content::{BodyView, FactBody};
use crate::device::DeviceId;
use crate::error::{SemanticCapacityDimension, SemanticError};
use crate::fact::{dependencies, Facts, FactView, SignedFact};
use crate::graph::{AuthoritySelectorRelation, FactGraph, GraphView, Row, RowView, Selection};
use crate::ids::FactId;
use crate::multimap;
use crate::multimap::collect;
use crate::order;
use crate::ordmap::OrdMap;
use crate::ordset;
use crate::ordset::{append_keys, Duplicate, OrdSet};
use crate::reach;
use crate::reach::{walk_all, Edges, OverlayEdges};
use crate::sums;

verus! {

/// The signed ancestors of a fact, where all of them are at hand.
pub open spec fn ancestors_of(facts: Facts, id: FactId) -> Result<Set<FactId>, SemanticError> {
    match reach::walk(reach::parent_edges(facts), seq![id], Set::empty()) {
        Ok(all) => Ok(all.remove(id)),
        Err(x) => Err(SemanticError::MissingParent(x)),
    }
}

/// How a fact stands to a selector, by signed ancestry; both ends count.
pub open spec fn relation_between(
    facts: Facts,
    id: FactId,
    selector: FactId,
    selected: FactId,
) -> AuthoritySelectorRelation {
    let edges = reach::parent_edges(facts);
    AuthoritySelectorRelation {
        selected,
        post_selector: reach::reach(edges, set![id]).contains(selector),
        selected_before: reach::reach(edges, set![id]).contains(selected),
        before_selected: reach::reach(edges, set![selected]).contains(id),
    }
}

/// Whether a relation passes from a parent to its children.
pub open spec fn carries(r: AuthoritySelectorRelation) -> bool {
    r.post_selector || r.selected_before
}

/// A row with what a parent's row passes on.
pub open spec fn merged(row: RowView, parent: RowView) -> RowView {
    Map::new(
        |s: FactId| row.contains_key(s) || (parent.contains_key(s) && carries(parent[s])),
        |s: FactId|
            if parent.contains_key(s) && carries(parent[s]) {
                let own = if row.contains_key(s) {
                    row[s]
                } else {
                    AuthoritySelectorRelation {
                        selected: parent[s].selected,
                        post_selector: false,
                        selected_before: false,
                        before_selected: false,
                    }
                };
                AuthoritySelectorRelation {
                    post_selector: own.post_selector || parent[s].post_selector,
                    selected_before: own.selected_before || parent[s].selected_before,
                    ..own
                }
            } else {
                row[s]
            },
    )
}

/// A row with what the first `n` parents pass on.
pub open spec fn inherited(
    rows: Map<FactId, RowView>,
    row: RowView,
    parents: Seq<FactId>,
    n: int,
) -> RowView
    decreases n,
{
    if n <= 0 {
        row
    } else {
        let before = inherited(rows, row, parents, n - 1);
        if rows.contains_key(parents[n - 1]) {
            merged(before, rows[parents[n - 1]])
        } else {
            before
        }
    }
}

/// Changed rows, with the bytes that they take.
#[verifier::ext_equal]
pub struct PlanView {
    pub changes: Map<FactId, RowView>,
    pub bytes: u64,
}

/// A plan whose bytes grow to `next`, where the envelope allows it.
pub open spec fn grown(g: GraphView, changes: Map<FactId, RowView>, next: nat) -> Result<
    PlanView,
    SemanticError,
> {
    let limits = g.setting.limits;
    match accounting::fits(limits, next) {
        Err(e) => Err(e),
        Ok(bytes) => match accounting::within(
            SemanticCapacityDimension::AdmittedBytes,
            bytes,
            limits.max_database_bytes,
        ) {
            Err(e) => Err(e),
            Ok(()) => Ok(PlanView { changes, bytes }),
        },
    }
}

/// The row of `id`, or an empty one.
pub open spec fn row_at(rows: Map<FactId, RowView>, id: FactId) -> RowView {
    if rows.contains_key(id) {
        rows[id]
    } else {
        Map::empty()
    }
}

/// The plan that a fact's parents give it.
pub open spec fn plan_start(g: GraphView, f: FactView) -> Result<PlanView, SemanticError> {
    let rows = g.index.provenance;
    let parents = f.content.parents;
    let row = inherited(rows, row_at(rows, f.id), parents, parents.len() as int);
    if row.dom() == Set::<FactId>::empty() {
        Ok(PlanView { changes: Map::empty(), bytes: 0 })
    } else {
        grown(g, Map::empty().insert(f.id, row), accounting::row_bytes(row))
    }
}

/// All selections on record, subject by subject.
pub open spec fn all_selections(
    selectors: Map<DeviceId, Set<Selection>>,
    subjects: Seq<DeviceId>,
    n: int,
) -> Seq<Selection>
    decreases n,
{
    if n <= 0 {
        Seq::empty()
    } else {
        all_selections(selectors, subjects, n - 1) + order::ascending(
            selectors[subjects[n - 1]],
        )
    }
}

/// The selectors with what they select, after the first `n` of a list.
pub open spec fn entered(contexts: Map<FactId, FactId>, list: Seq<Selection>, n: int) -> Map<
    FactId,
    FactId,
>
    decreases n,
{
    if n <= 0 {
        contexts
    } else {
        entered(contexts, list, n - 1).insert(list[n - 1].selector, list[n - 1].selected)
    }
}

/// The selectors whose relations a fact changes, with what each selects.
pub open spec fn contexts_of(g: GraphView, f: FactView) -> Result<
    Map<FactId, FactId>,
    SemanticError,
> {
    let own = match f.content.body {
        BodyView::AuthorityLineageResolution { selected_head, .. } => Map::empty().insert(
            f.id,
            selected_head,
        ),
        _ => Map::empty(),
    };
    if g.fence.staged_cold_pending == 0 {
        Ok(own)
    } else {
        match ancestors_of(g.facts.insert(f.id, f), f.id) {
            Err(e) => Err(e),
            Ok(past) => {
                let found = Map::new(
                    |s: FactId| past.contains(s) && authority::selected_by(g.facts, s) is Some,
                    |s: FactId| authority::selected_by(g.facts, s)->0,
                );
                let subjects = order::ascending(g.index.selectors.dom());
                let list = all_selections(g.index.selectors, subjects, subjects.len() as int);
                Ok(entered(own.union_prefer_right(found), list, list.len() as int))
            },
        }
    }
}

/// The plan after one fact's relation to one selector is entered.
pub open spec fn plan_step(
    g: GraphView,
    all: Facts,
    st: PlanView,
    selector: FactId,
    selected: FactId,
    id: FactId,
) -> Result<PlanView, SemanticError> {
    match ancestors_of(all, id) {
        Err(e) => Err(e),
        Ok(_) => {
            let relation = relation_between(all, id, selector, selected);
            if !relation.holds() {
                Ok(st)
            } else {
                let rows = g.index.provenance;
                let fresh = !st.changes.contains_key(id);
                let prior = if fresh {
                    row_at(rows, id)
                } else {
                    st.changes[id]
                };
                let share = if fresh {
                    accounting::row_bytes(prior)
                } else {
                    0
                };
                let added = if prior.contains_key(selector) {
                    0
                } else {
                    accounting::size::<(FactId, AuthoritySelectorRelation)>()
                };
                grown(
                    g,
                    st.changes.insert(id, prior.insert(selector, relation)),
                    st.bytes as nat + share + added,
                )
            }
        },
    }
}

/// The plan after the first `n` facts' relations to one selector are entered.
pub open spec fn plan_ids(
    g: GraphView,
    all: Facts,
    st: PlanView,
    selector: FactId,
    selected: FactId,
    ids: Seq<FactId>,
    n: int,
) -> Result<PlanView, SemanticError>
    decreases n,
{
    if n <= 0 {
        Ok(st)
    } else {
        match plan_ids(g, all, st, selector, selected, ids, n - 1) {
            Err(e) => Err(e),
            Ok(st) => plan_step(g, all, st, selector, selected, ids[n - 1]),
        }
    }
}

/// The plan after the relations to the first `n` selectors are entered.
pub open spec fn plan_contexts(
    g: GraphView,
    all: Facts,
    st: PlanView,
    contexts: Map<FactId, FactId>,
    list: Seq<FactId>,
    n: int,
) -> Result<PlanView, SemanticError>
    decreases n,
{
    if n <= 0 {
        Ok(st)
    } else {
        match plan_contexts(g, all, st, contexts, list, n - 1) {
            Err(e) => Err(e),
            Ok(st) => match ancestors_of(all, contexts[list[n - 1]]) {
                Err(e) => Err(e),
                Ok(_) => {
                    let ids = order::ascending(all.dom());
                    plan_ids(
                        g,
                        all,
                        st,
                        list[n - 1],
                        contexts[list[n - 1]],
                        ids,
                        ids.len() as int,
                    )
                },
            },
        }
    }
}

/// The rows that a fact changes, where its dependencies are all admitted.
#[verifier::opaque]
pub open spec fn planned(g: GraphView, f: FactView) -> Result<
    Map<FactId, RowView>,
    SemanticError,
> {
    if !f.inputs().subset_of(g.facts.dom()) {
        Ok(Map::empty())
    } else {
        match plan_start(g, f) {
            Err(e) => Err(e),
            Ok(st) => match contexts_of(g, f) {
                Err(e) => Err(e),
                Ok(contexts) => {
                    let list = order::ascending(contexts.dom());
                    match plan_contexts(
                        g,
                        g.facts.insert(f.id, f),
                        st,
                        contexts,
                        list,
                        list.len() as int,
                    ) {
                        Err(e) => Err(e),
                        Ok(st) => Ok(st.changes),
                    }
                },
            },
        }
    }
}

/// The bytes that an index change adds and removes.
#[derive(Debug, Clone, Copy, PartialEq, Eq, Structural)]
pub struct IndexResidencyDelta {
    pub added: u64,
    pub removed: u64,
}

/// The bytes that a fact's provenance adds and removes.
pub open spec fn provenance_delta(g: GraphView, f: FactView) -> Result<
    IndexResidencyDelta,
    SemanticError,
> {
    let limits = g.setting.limits;
    match planned(g, f) {
        Err(e) => Err(e),
        Ok(changes) => match (
            accounting::fits(limits, accounting::rows_bytes(changes)),
            accounting::fits(
                limits,
                accounting::rows_bytes(g.index.provenance.restrict(changes.dom())),
            ),
        ) {
            (Ok(added), Ok(removed)) => Ok(IndexResidencyDelta { added, removed }),
            (Err(e), _) => Err(e),
            (_, Err(e)) => Err(e),
        },
    }
}

/// The rows that live authority state rests on.
pub open spec fn live_roots(g: GraphView) -> Set<FactId> {
    multimap::members(g.index.cell_heads).union(multimap::members(g.index.authority_heads)).union(
        multimap::members(g.index.stand_down),
    ).union(multimap::members(g.quarantine.missing).intersect(g.facts.dom()))
}

/// The selectors that some row is related to.
pub open spec fn selectors_in(rows: Map<FactId, RowView>) -> Set<FactId> {
    Set::new(
        |s: FactId|
            exists|id: FactId| #[trigger] rows.contains_key(id) && rows[id].contains_key(s),
    )
}

/// The branches that some relation names as selected.
pub open spec fn selected_in(rows: Map<FactId, RowView>) -> Set<FactId> {
    Set::new(
        |x: FactId|
            exists|id: FactId, s: FactId|
                rows.contains_key(id) && #[trigger] rows[id].contains_key(s)
                    && rows[id][s].selected == x,
    )
}

/// The inputs of the given facts.
pub open spec fn inputs_of(facts: Facts, ids: Set<FactId>) -> Set<FactId> {
    Set::new(
        |x: FactId|
            exists|id: FactId| #[trigger]
                ids.contains(id) && facts.contains_key(id) && facts[id].inputs().contains(x),
    )
}

/// What a cold admission would retain: the live roots, the candidate, its
/// selectors with their branches, and one layer of inputs.
pub open spec fn cold_retained(g: GraphView, f: FactView, plan: Map<FactId, RowView>) -> Set<
    FactId,
> {
    let kept = live_roots(g).insert(f.id).union(selectors_in(plan)).union(selected_in(plan));
    kept.union(inputs_of(g.facts.insert(f.id, f), kept))
}

/// The selectors of a plan that the selector index does not list yet.
pub open spec fn unlisted_selectors(g: GraphView, f: FactView, plan: Map<FactId, RowView>) -> Set<
    FactId,
> {
    selectors_in(plan).filter(
        |s: FactId|
            s != f.id && g.facts.contains_key(s) && (g.facts[s].content.body
                matches BodyView::AuthorityLineageResolution { subject, selected_head, .. }
                && !multimap::at(g.index.selectors, subject).contains(
                Selection { selector: s, selected: selected_head },
            )),
    )
}

/// The subjects of those selectors that the selector index does not know.
pub open spec fn unlisted_selector_subjects(
    g: GraphView,
    f: FactView,
    plan: Map<FactId, RowView>,
) -> Set<DeviceId> {
    Set::new(
        |d: DeviceId|
            !g.index.selectors.contains_key(d) && exists|s: FactId| #[trigger]
                unlisted_selectors(g, f, plan).contains(s) && (g.facts[s].content.body
                    matches BodyView::AuthorityLineageResolution { subject, .. } && subject == d),
    )
}

/// The subjects whose lineage `id` takes part in without being listed.
pub open spec fn unlisted_subjects(g: GraphView, id: FactId) -> Set<DeviceId> {
    g.facts[id].participants().filter(
        |d: DeviceId| !multimap::at(g.index.authority_facts, d).contains(id),
    )
}

/// The retained rows other than the candidate that are resident.
pub open spec fn cold_rows(g: GraphView, f: FactView, plan: Map<FactId, RowView>) -> Set<FactId> {
    cold_retained(g, f, plan).remove(f.id).intersect(g.facts.dom())
}

/// The subjects of unlisted uses that the subject index does not know.
pub open spec fn unknown_subjects(g: GraphView, rows: Set<FactId>) -> Set<DeviceId> {
    Set::new(
        |d: DeviceId|
            !g.index.authority_facts.contains_key(d) && exists|id: FactId| #[trigger]
                rows.contains(id) && unlisted_subjects(g, id).contains(d),
    )
}

/// The index bytes that a cold admission reserves for the rows it retains.
pub open spec fn cold_reserve(g: GraphView, f: FactView) -> Result<u64, SemanticError> {
    if g.fence.staged_cold_pending == 0 {
        Ok(0)
    } else {
        match planned(g, f) {
            Err(e) => Err(e),
            Ok(plan) => {
                let rows = cold_rows(g, f, plan);
                accounting::fits(
                    g.setting.limits,
                    unlisted_selectors(g, f, plan).len() * accounting::size::<Selection>()
                        + unlisted_selector_subjects(g, f, plan).len() * accounting::size::<
                        (DeviceId, OrdSet<Selection>),
                    >() + sums::sum(
                        rows,
                        |id: FactId|
                            unlisted_subjects(g, id).len() * accounting::size::<FactId>(),
                    ) + unknown_subjects(g, rows).len() * accounting::size::<
                        (DeviceId, OrdSet<FactId>),
                    >(),
                )
            },
        }
    }
}

/// Passes on to `row` what a parent's row carries.
fn merge_row(row: &mut Row, parent: &Row)
    ensures
        final(row)@ == merged(old(row)@, parent@),
{
    let keys = parent.keys();
    let n: usize = keys.len();
    let ghost start = row@;
    assert(keys@.take(0).to_set() =~= Set::<FactId>::empty());
    assert(row@ =~= merged(start, parent@.restrict(keys@.take(0).to_set())));
    for i in 0..n
        invariant
            n == keys@.len(),
            keys@.no_duplicates(),
            forall|k: FactId| #[trigger] keys@.contains(k) <==> parent@.contains_key(k),
            row@ == merged(start, parent@.restrict(keys@.take(i as int).to_set())),
    {
        assert(keys@.contains(keys@[i as int]));
        let s = keys[i];
        let r = *parent.value(&s);
        proof {
            ordset::lemma_next_is_new(keys@, i as int);
        }
        if r.post_selector || r.selected_before {
            let own = match row.get(&s) {
                Some(o) => *o,
                None => AuthoritySelectorRelation {
                    selected: r.selected,
                    post_selector: false,
                    selected_before: false,
                    before_selected: false,
                },
            };
            row.insert(
                s,
                AuthoritySelectorRelation {
                    selected: own.selected,
                    post_selector: own.post_selector || r.post_selector,
                    selected_before: own.selected_before || r.selected_before,
                    before_selected: own.before_selected,
                },
            );
        }
        assert(row@ =~= merged(start, parent@.restrict(keys@.take(i + 1).to_set())));
    }
    proof {
        assert(keys@.take(n as int) =~= keys@);
        assert(parent@.restrict(keys@.to_set()) =~= parent@);
    }
}

/// Changed rows under way.
struct Plan {
    changes: OrdMap<FactId, Row>,
    bytes: u64,
}

impl Plan {
    spec fn view(&self) -> PlanView {
        PlanView { changes: self.changes@, bytes: self.bytes }
    }
}

impl FactGraph {
    /// Collects the signed ancestors of `id`, with a candidate among the
    /// facts.
    pub fn complete_ancestors(&self, id: FactId, candidate: Option<&SignedFact>) -> (r: Result<
        OrdSet<FactId>,
        SemanticError,
    >)
        ensures
            match r {
                Ok(past) => {
                    let facts = reach::overlay(self@.facts, reach::candidate_view(candidate));
                    let all = reach::reach(reach::parent_edges(facts), set![id]);
                    ancestors_of(facts, id) == Ok::<Set<FactId>, SemanticError>(past@)
                        && past@ == all.remove(id) && all.contains(id) && all.subset_of(facts.dom())
                },
                Err(e) => ancestors_of(
                    reach::overlay(self@.facts, reach::candidate_view(candidate)),
                    id,
                ) == Err::<Set<FactId>, SemanticError>(e),
            },
    {
        let mut roots: Vec<FactId> = Vec::new();
        roots.push(id);
        let graph = OverlayEdges { facts: &self.facts, candidate };
        let ghost facts = reach::overlay(self@.facts, reach::candidate_view(candidate));
        proof {
            assert(roots@ =~= seq![id]);
            assert(roots@.to_set() =~= set![id]) by {
                assert(roots@[0] == id);
            }
            assert(graph.edges().dom() =~= facts.dom());
            reach::lemma_reach_closed(graph.edges(), set![id]);
        }
        match walk_all(&graph, &roots) {
            Ok(all) => {
                let mut past = all;
                past.remove(&id);
                Ok(past)
            },
            Err(x) => Err(SemanticError::MissingParent(x)),
        }
    }

    /// The plan that the fact's parents give it.
    fn inherited_plan(&self, fact: &SignedFact) -> (r: Result<Plan, SemanticError>)
        ensures
            match r {
                Ok(p) => plan_start(self@, fact@) == Ok::<PlanView, SemanticError>(p.view()),
                Err(e) => plan_start(self@, fact@) == Err::<PlanView, SemanticError>(e),
            },
    {
        let rows = &self.index.provenance;
        let ghost rv = self@.index.provenance;
        let mut row: Row = match rows.get(&fact.id) {
            Some(r) => r.duplicate(),
            None => OrdMap::new(),
        };
        let ghost own = row@;
        let parents = &fact.content.parents;
        let n: usize = parents.len();
        for i in 0..n
            invariant
                n == parents@.len(),
                rv == rows@,
                row@ == inherited(rv, own, parents@, i as int),
        {
            if let Some(p) = rows.get(&parents[i]) {
                merge_row(&mut row, p);
            }
        }
        let mut changes: OrdMap<FactId, Row> = OrdMap::new();
        if row.is_empty() {
            return Ok(Plan { changes, bytes: 0 });
        }
        let limits = self.setting.limits;
        let bytes = match limits.provenance_row_bytes(&row) {
            Ok(b) => b,
            Err(e) => {
                return Err(e);
            },
        };
        match limits.check_capacity(
            SemanticCapacityDimension::AdmittedBytes,
            bytes,
            limits.max_database_bytes,
        ) {
            Ok(()) => {},
            Err(e) => {
                return Err(e);
            },
        }
        changes.insert(fact.id, row);
        Ok(Plan { changes, bytes })
    }

    /// All selections on record, subject by subject.
    fn listed_selections(&self) -> (r: Vec<Selection>)
        ensures
            r@ == all_selections(
                self@.index.selectors,
                order::ascending(self@.index.selectors.dom()),
                order::ascending(self@.index.selectors.dom()).len() as int,
            ),
    {
        let subjects = self.index.selectors.keys();
        let n: usize = subjects.len();
        let mut r: Vec<Selection> = Vec::new();
        for i in 0..n
            invariant
                n == subjects@.len(),
                forall|k: DeviceId| #[trigger]
                    subjects@.contains(k) <==> self@.index.selectors.contains_key(k),
                r@ == all_selections(self@.index.selectors, subjects@, i as int),
        {
            assert(subjects@.contains(subjects@[i as int]));
            let more = self.index.selectors.value(&subjects[i]).to_vec();
            append_keys(&mut r, &more);
        }
        r
    }

    /// The selectors whose relations the fact changes.
    fn planned_contexts(&self, fact: &SignedFact) -> (r: Result<
        OrdMap<FactId, FactId>,
        SemanticError,
    >)
        ensures
            match r {
                Ok(c) => contexts_of(self@, fact@) == Ok::<Map<FactId, FactId>, SemanticError>(
                    c@,
                ),
                Err(e) => contexts_of(self@, fact@) == Err::<Map<FactId, FactId>, SemanticError>(
                    e,
                ),
            },
    {
        let mut contexts: OrdMap<FactId, FactId> = OrdMap::new();
        if let FactBody::AuthorityLineageResolution { selected_head, .. } = &fact.content.body {
            contexts.insert(fact.id, *selected_head);
        }
        if self.fence.staged_cold_pending == 0 {
            return Ok(contexts);
        }
        let ghost own = contexts@;
        let past = match self.complete_ancestors(fact.id, Some(fact)) {
            Ok(p) => p,
            Err(e) => {
                return Err(e);
            },
        };
        let ghost facts = self@.facts;
        let ghost found = Map::new(
            |s: FactId| past@.contains(s) && authority::selected_by(facts, s) is Some,
            |s: FactId| authority::selected_by(facts, s)->0,
        );
        let ids = past.to_vec();
        let n: usize = ids.len();
        assert(ids@.take(0).to_set() =~= Set::<FactId>::empty());
        assert(contexts@ =~= own.union_prefer_right(
            found.restrict(ids@.take(0).to_set()),
        ));
        for i in 0..n
            invariant
                n == ids@.len(),
                facts == self@.facts,
                forall|k: FactId| #[trigger] ids@.contains(k) <==> past@.contains(k),
                found == Map::new(
                    |s: FactId| past@.contains(s) && authority::selected_by(facts, s) is Some,
                    |s: FactId| authority::selected_by(facts, s)->0,
                ),
                contexts@ == own.union_prefer_right(
                    found.restrict(ids@.take(i as int).to_set()),
                ),
        {
            assert(ids@.contains(ids@[i as int]));
            if let Some(selected) = self.selection(&ids[i]) {
                contexts.insert(ids[i], selected);
            }
            proof {
                ordset::lemma_take_set(ids@, i as int);
                assert(contexts@ =~= own.union_prefer_right(
                    found.restrict(ids@.take(i + 1).to_set()),
                ));
            }
        }
        proof {
            assert(ids@.take(n as int) =~= ids@);
            assert(found.restrict(ids@.to_set()) =~= found);
        }
        let ghost base = contexts@;
        let list = self.listed_selections();
        let m: usize = list.len();
        for i in 0..m
            invariant
                m == list@.len(),
                contexts@ == entered(base, list@, i as int),
        {
            contexts.insert(list[i].selector, list[i].selected);
        }
        Ok(contexts)
    }

    /// Enters one fact's relation to one selector.
    fn plan_relation(
        &self,
        fact: &SignedFact,
        plan: Plan,
        selector: FactId,
        selected: FactId,
        before: &OrdSet<FactId>,
        id: FactId,
    ) -> (r: Result<Plan, SemanticError>)
        requires
            before@ == reach::reach(
                reach::parent_edges(self@.facts.insert(fact@.id, fact@)),
                set![selected],
            ).remove(selected),
        ensures
            match r {
                Ok(p) => plan_step(
                    self@,
                    self@.facts.insert(fact@.id, fact@),
                    plan.view(),
                    selector,
                    selected,
                    id,
                ) == Ok::<PlanView, SemanticError>(p.view()),
                Err(e) => plan_step(
                    self@,
                    self@.facts.insert(fact@.id, fact@),
                    plan.view(),
                    selector,
                    selected,
                    id,
                ) == Err::<PlanView, SemanticError>(e),
            },
    {
        let ghost all = self@.facts.insert(fact@.id, fact@);
        let past = match self.complete_ancestors(id, Some(fact)) {
            Ok(p) => p,
            Err(e) => {
                return Err(e);
            },
        };
        let relation = AuthoritySelectorRelation {
            selected,
            post_selector: id.same(&selector) || past.contains(&selector),
            selected_before: id.same(&selected) || past.contains(&selected),
            before_selected: id.same(&selected) || before.contains(&id),
        };
        proof {
            let edges = reach::parent_edges(all);
            reach::lemma_reach_closed(edges, set![selected]);
            reach::lemma_reach_closed(edges, set![id]);
            assert(set![selected].contains(selected));
            assert(set![id].contains(id));
            assert(relation == relation_between(all, id, selector, selected));
        }
        if !relation.any() {
            return Ok(plan);
        }
        let limits = self.setting.limits;
        let Plan { changes, bytes } = plan;
        let mut changes = changes;
        let (fresh, mut row): (bool, Row) = match changes.remove(&id) {
            Some(row) => (false, row),
            None => (
                true,
                match self.index.provenance.get(&id) {
                    Some(row) => row.duplicate(),
                    None => OrdMap::new(),
                },
            ),
        };
        let share = if fresh {
            limits.provenance_row_bytes(&row)
        } else {
            Ok(0)
        };
        let added: u64 = if row.contains_key(&selector) {
            0
        } else {
            limits.checked_size::<(FactId, AuthoritySelectorRelation)>()
        };
        let next = match limits.plus(Ok(bytes), limits.plus(share, Ok(added))) {
            Ok(n) => n,
            Err(e) => {
                return Err(e);
            },
        };
        match limits.check_capacity(
            SemanticCapacityDimension::AdmittedBytes,
            next,
            limits.max_database_bytes,
        ) {
            Ok(()) => {},
            Err(e) => {
                return Err(e);
            },
        }
        row.insert(selector, relation);
        changes.insert(id, row);
        proof {
            let prior = if fresh {
                row_at(self@.index.provenance, id)
            } else {
                plan.view().changes[id]
            };
            assert(changes@ =~= plan.view().changes.insert(id, prior.insert(selector, relation)));
        }
        Ok(Plan { changes, bytes: next })
    }

    /// The rows that a fact changes: what its parents pass on, and the
    /// relations to each selector that it introduces.  A quarantined candidate
    /// owns no admitted provenance yet.
    pub fn planned_provenance(&self, fact: &SignedFact) -> (r: Result<
        OrdMap<FactId, Row>,
        SemanticError,
    >)
        ensures
            match r {
                Ok(rows) => planned(self@, fact@) == Ok::<Map<FactId, RowView>, SemanticError>(
                    rows@,
                ),
                Err(e) => planned(self@, fact@) == Err::<Map<FactId, RowView>, SemanticError>(e),
            },
    {
        proof {
            reveal(planned);
        }
        if !self.holds_inputs(fact) {
            return Ok(OrdMap::new());
        }
        let mut plan = match self.inherited_plan(fact) {
            Ok(p) => p,
            Err(e) => {
                return Err(e);
            },
        };
        let contexts = match self.planned_contexts(fact) {
            Ok(c) => c,
            Err(e) => {
                return Err(e);
            },
        };
        let mut universe = self.facts.keys();
        universe.push(fact.id);
        let ids = ordset::sort_unique(&universe);
        let ghost all = self@.facts.insert(fact@.id, fact@);
        proof {
            crate::content::lemma_push_set(order::ascending(self@.facts.dom()), fact.id);
            assert(universe@.to_set() =~= all.dom());
        }
        let list = contexts.keys();
        let n: usize = list.len();
        let m: usize = ids.len();
        let ghost st0 = plan.view();
        let ghost g = self@;
        for i in 0..n
            invariant
                n == list@.len(),
                m == ids@.len(),
                g == self@,
                all == g.facts.insert(fact@.id, fact@),
                ids@ == order::ascending(all.dom()),
                forall|k: FactId| #[trigger] list@.contains(k) <==> contexts@.contains_key(k),
                plan_contexts(g, all, st0, contexts@, list@, i as int) == Ok::<
                    PlanView,
                    SemanticError,
                >(plan.view()),
                match plan_contexts(g, all, st0, contexts@, list@, n as int) {
                    Ok(st) => planned(g, fact@) == Ok::<Map<FactId, RowView>, SemanticError>(
                        st.changes,
                    ),
                    Err(e) => planned(g, fact@) == Err::<Map<FactId, RowView>, SemanticError>(e),
                },
        {
            assert(list@.contains(list@[i as int]));
            let selector = list[i];
            let selected = *contexts.value(&selector);
            let before = match self.complete_ancestors(selected, Some(fact)) {
                Ok(p) => p,
                Err(e) => {
                    proof {
                        lemma_plan_contexts_err(g, all, st0, contexts@, list@, i + 1, n as int);
                    }
                    return Err(e);
                },
            };
            let ghost st1 = plan.view();
            for j in 0..m
                invariant
                    m == ids@.len(),
                    n == list@.len(),
                    i < n,
                    g == self@,
                    all == g.facts.insert(fact@.id, fact@),
                    ids@ == order::ascending(all.dom()),
                    selector == list@[i as int],
                    selected == contexts@[selector],
                    before@ == reach::reach(reach::parent_edges(all), set![selected]).remove(
                        selected,
                    ),
                    ancestors_of(all, selected) is Ok,
                    plan_contexts(g, all, st0, contexts@, list@, i as int) == Ok::<
                        PlanView,
                        SemanticError,
                    >(st1),
                    plan_ids(g, all, st1, selector, selected, ids@, j as int) == Ok::<
                        PlanView,
                        SemanticError,
                    >(plan.view()),
                    match plan_contexts(g, all, st0, contexts@, list@, n as int) {
                        Ok(st) => planned(g, fact@) == Ok::<
                            Map<FactId, RowView>,
                            SemanticError,
                        >(st.changes),
                        Err(e) => planned(g, fact@) == Err::<Map<FactId, RowView>, SemanticError>(
                            e,
                        ),
                    },
            {
                plan = match self.plan_relation(fact, plan, selector, selected, &before, ids[j]) {
                    Ok(p) => p,
                    Err(e) => {
                        proof {
                            lemma_plan_ids_err(
                                g,
                                all,
                                st1,
                                selector,
                                selected,
                                ids@,
                                j + 1,
                                m as int,
                            );
                            lemma_plan_contexts_err(
                                g,
                                all,
                                st0,
                                contexts@,
                                list@,
                                i + 1,
                                n as int,
                            );
                        }
                        return Err(e);
                    },
                };
            }
        }
        Ok(plan.changes)
    }

    /// Whether every dependency of the fact is admitted.
    pub(crate) fn holds_inputs(&self, fact: &SignedFact) -> (r: bool)
        ensures
            r == fact@.inputs().subset_of(self@.facts.dom()),
    {
        let inputs = dependencies(fact);
        let n: usize = inputs.len();
        for i in 0..n
            invariant
                n == inputs@.len(),
                inputs@.to_set() == fact@.inputs(),
                forall|j: int| 0 <= j < i ==> self@.facts.contains_key(#[trigger] inputs@[j]),
        {
            if !self.facts.contains_key(&inputs[i]) {
                assert(inputs@.contains(inputs@[i as int]));
                assert(fact@.inputs().contains(inputs@[i as int]));
                return false;
            }
        }
        assert forall|x: FactId| fact@.inputs().contains(x) implies self@.facts.dom().contains(
            x,
        ) by {
            assert(inputs@.contains(x));
            let j = choose|j: int| 0 <= j < inputs@.len() && inputs@[j] == x;
            assert(self@.facts.contains_key(inputs@[j]));
        }
        true
    }

    /// What the provenance of a fact adds to the resident bytes, and removes.
    pub fn provenance_residency_delta(&self, fact: &SignedFact) -> (r: Result<
        IndexResidencyDelta,
        SemanticError,
    >)
        ensures
            r == provenance_delta(self@, fact@),
    {
        let plan = match self.planned_provenance(fact) {
            Ok(p) => p,
            Err(e) => {
                return Err(e);
            },
        };
        let limits = self.setting.limits;
        let added = match limits.checked_rows_bytes(&plan) {
            Ok(n) => n,
            Err(e) => {
                return Err(e);
            },
        };
        let mut replaced = self.index.provenance.duplicate();
        let keys = plan.keys();
        let kept = OrdSet::from_vec(&keys);
        multimap::keep_only(&mut replaced, &kept);
        match limits.checked_rows_bytes(&replaced) {
            Ok(removed) => Ok(IndexResidencyDelta { added, removed }),
            Err(e) => Err(e),
        }
    }

    /// The rows that live authority state rests on.
    pub fn provenance_live_roots(&self) -> (r: OrdSet<FactId>)
        ensures
            r@ == live_roots(self@),
    {
        let mut roots = collect(&self.index.cell_heads);
        roots.extend(&collect(&self.index.authority_heads));
        roots.extend(&collect(&self.index.stand_down));
        let wanted = collect(&self.quarantine.missing).to_vec();
        let n: usize = wanted.len();
        let ghost start = roots@;
        assert(wanted@.take(0).to_set() =~= Set::<FactId>::empty());
        assert(roots@ =~= start.union(
            wanted@.take(0).to_set().intersect(self@.facts.dom()),
        ));
        for i in 0..n
            invariant
                n == wanted@.len(),
                roots@ == start.union(
                    wanted@.take(i as int).to_set().intersect(self@.facts.dom()),
                ),
        {
            if self.facts.contains_key(&wanted[i]) {
                roots.insert(wanted[i]);
            }
            proof {
                ordset::lemma_take_set(wanted@, i as int);
                assert(roots@ =~= start.union(
                    wanted@.take(i + 1).to_set().intersect(self@.facts.dom()),
                ));
            }
        }
        assert(wanted@.take(n as int) =~= wanted@);
        roots
    }
}

proof fn lemma_plan_ids_err(
    g: GraphView,
    all: Facts,
    st: PlanView,
    selector: FactId,
    selected: FactId,
    ids: Seq<FactId>,
    i: int,
    n: int,
)
    requires
        0 <= i <= n,
        plan_ids(g, all, st, selector, selected, ids, i) is Err,
    ensures
        plan_ids(g, all, st, selector, selected, ids, n) == plan_ids(
            g,
            all,
            st,
            selector,
            selected,
            ids,
            i,
        ),
    decreases n - i,
{
    if i < n {
        lemma_plan_ids_err(g, all, st, selector, selected, ids, i, n - 1);
    }
}

proof fn lemma_plan_contexts_err(
    g: GraphView,
    all: Facts,
    st: PlanView,
    contexts: Map<FactId, FactId>,
    list: Seq<FactId>,
    i: int,
    n: int,
)
    requires
        0 <= i <= n,
        plan_contexts(g, all, st, contexts, list, i) is Err,
    ensures
        plan_contexts(g, all, st, contexts, list, n) == plan_contexts(
            g,
            all,
            st,
            contexts,
            list,
            i,
        ),
    decreases n - i,
{
    if i < n {
        lemma_plan_contexts_err(g, all, st, contexts, list, i, n - 1);
    }
}

} // verus!

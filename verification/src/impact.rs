//! Which cells and subjects an admission can change.

use vstd::prelude::*;

use crate::content::{BodyView, ExclusiveCell, FactBody};
use crate::device::DeviceId;
use crate::fact;
use crate::fact::{dependencies, Facts, FactView, SignedFact};
use crate::graph::{FactGraph, Reading};
use crate::ids::FactId;
use crate::multimap;
use crate::multimap::{join, join_all, list_at};
use crate::order;
use crate::ordmap::OrdMap;
use crate::ordset;
use crate::ordset::{holds, OrdSet};
use crate::reach;
use crate::reach::{reach_set, EdgeMap, Edges};

verus! {

/// Cells and subjects that may change.
#[verifier::ext_equal]
pub struct ImpactView {
    pub cells: Set<ExclusiveCell>,
    pub subjects: Set<DeviceId>,
}

/// Cells and subjects that may change.
#[derive(Debug, PartialEq, Eq)]
pub struct Impact {
    pub cells: OrdSet<ExclusiveCell>,
    pub subjects: OrdSet<DeviceId>,
}

impl View for Impact {
    type V = ImpactView;

    open spec fn view(&self) -> ImpactView {
        ImpactView { cells: self.cells@, subjects: self.subjects@ }
    }
}

/// No impact.
pub open spec fn untouched() -> ImpactView {
    ImpactView { cells: Set::empty(), subjects: Set::empty() }
}

impl ImpactView {
    pub open spec fn and(self, other: ImpactView) -> ImpactView {
        ImpactView {
            cells: self.cells.union(other.cells),
            subjects: self.subjects.union(other.subjects),
        }
    }
}

impl Impact {
    pub fn new() -> (r: Self)
        ensures
            r@ == untouched(),
    {
        Impact { cells: OrdSet::new(), subjects: OrdSet::new() }
    }

    pub fn join(&mut self, other: &Impact)
        ensures
            final(self)@ == old(self)@.and(other@),
    {
        self.cells.extend(&other.cells);
        self.subjects.extend(&other.subjects);
    }
}

impl FactView {
    /// Whether the fact bears on a device by itself.
    pub open spec fn touches(self, d: DeviceId) -> bool {
        (exists|c: ExclusiveCell| #[trigger] self.advances(c) && c.about() == Some(d))
            || self.content.body.stands_down() == Some(d)
    }

    /// What the fact bears on by itself.
    pub open spec fn own_impact(self) -> ImpactView {
        ImpactView {
            cells: self.content.body.cells().to_set(),
            subjects: Set::new(|d: DeviceId| self.touches(d)),
        }
    }

    /// The predecessors in all lineages that the fact carries for `subject`.
    pub open spec fn names(self, subject: DeviceId) -> Set<FactId> {
        Set::new(
            |p: FactId|
                exists|i: int|
                    0 <= i < self.content.authority_uses.len() && (
                    #[trigger] self.content.authority_uses[i]).subject == subject
                        && self.content.authority_uses[i].predecessors.contains(p),
        )
    }
}

/// The facts on record, or staged, that take part in the lineage of
/// `subject`.
pub open spec fn participants(g: Reading, subject: DeviceId, staged: Set<FactId>) -> Set<FactId> {
    multimap::at(g.index.authority_facts, subject).union(
        staged.filter(
            |id: FactId| g.facts.contains_key(id) && g.facts[id].takes_part(subject),
        ),
    )
}

/// The participants that build on `id`.
pub open spec fn dependents(
    g: Reading,
    subject: DeviceId,
    staged: Set<FactId>,
    id: FactId,
) -> Set<FactId> {
    participants(g, subject, staged).filter(
        |x: FactId|
            g.facts.contains_key(x) && !g.facts[x].payload_local(subject) && g.facts[x].names(
                subject,
            ).contains(id),
    )
}

/// From each fact to the participants that build on it.
pub open spec fn branch_edges(g: Reading, subject: DeviceId, staged: Set<FactId>) -> EdgeMap {
    Map::new(
        |id: FactId| g.facts.contains_key(id),
        |id: FactId| order::ascending(dependents(g, subject, staged, id)),
    )
}

/// What a set of facts bears on.
pub open spec fn impact_of(facts: Facts, ids: Set<FactId>) -> ImpactView {
    ImpactView {
        cells: Set::new(
            |c: ExclusiveCell|
                exists|id: FactId| #[trigger]
                    ids.contains(id) && facts.contains_key(id) && facts[id].advances(c),
        ),
        subjects: Set::new(
            |d: DeviceId|
                exists|id: FactId| #[trigger]
                    ids.contains(id) && facts.contains_key(id) && facts[id].touches(d),
        ),
    }
}

/// What the authority branches from `seeds` bear on.
pub open spec fn branch_impact(
    g: Reading,
    subject: DeviceId,
    seeds: Set<FactId>,
    staged: Set<FactId>,
) -> ImpactView {
    impact_of(g.facts, reach::reach(branch_edges(g, subject, staged), seeds))
}

/// What all participants' branches bear on.
pub open spec fn participant_impact(
    g: Reading,
    subject: DeviceId,
    seeds: Set<FactId>,
    staged: Set<FactId>,
) -> ImpactView {
    branch_impact(g, subject, seeds.union(participants(g, subject, staged)), staged)
}

/// The heads, with the staged participants, that a new fact may fork from.
pub open spec fn fork_heads(g: Reading, subject: DeviceId, staged: Set<FactId>) -> Set<FactId> {
    multimap::at(g.index.authority_heads, subject).union(
        staged.filter(
            |id: FactId| g.facts.contains_key(id) && g.facts[id].takes_part(subject),
        ),
    )
}

/// What an ordinary fact bears on through the lineage of `subject`: nothing
/// where it builds on every head.
pub open spec fn fork_impact(
    g: Reading,
    f: FactView,
    subject: DeviceId,
    staged: Set<FactId>,
) -> ImpactView {
    let heads = fork_heads(g, subject, staged);
    if exists|h: FactId| #[trigger] heads.contains(h) && h != f.id && !f.inputs().contains(h) {
        participant_impact(g, subject, heads, staged)
    } else {
        untouched()
    }
}

/// Whether a body is a resolution that selects in the lineage of `subject`.
pub open spec fn selects_for(body: BodyView, subject: DeviceId) -> bool {
    match body {
        BodyView::AuthorityLineageResolution { subject: s, .. } => s == subject,
        BodyView::Resolution { cell: ExclusiveCell::Role { subject: s }, .. } => s == subject,
        _ => false,
    }
}

/// The first signed predecessors for `subject`.
pub open spec fn seeds_of(f: FactView, subject: DeviceId) -> Set<FactId> {
    match f.predecessors(subject) {
        Some(list) => list.to_set(),
        None => Set::empty(),
    }
}

/// What a fact bears on through the lineage of one of its subjects.  A
/// resolution joins branches, so that a fact on any of them can start or stop
/// to count.
pub open spec fn subject_impact(
    g: Reading,
    f: FactView,
    subject: DeviceId,
    staged: Set<FactId>,
) -> ImpactView {
    if selects_for(f.content.body, subject) {
        participant_impact(g, subject, seeds_of(f, subject), staged)
    } else if !f.payload_local(subject) {
        fork_impact(g, f, subject, staged)
    } else {
        untouched()
    }
}

/// The cells and subjects that a fact can change.
#[verifier::opaque]
pub open spec fn impact(g: Reading, f: FactView, staged: Set<FactId>) -> ImpactView {
    let about = f.content.body.subjects(f.content.author);
    ImpactView {
        cells: Set::new(
            |c: ExclusiveCell|
                f.advances(c) || exists|s: DeviceId| #[trigger]
                    about.contains(s) && subject_impact(g, f, s, staged).cells.contains(c),
        ),
        subjects: Set::new(
            |d: DeviceId|
                f.touches(d) || about.contains(d) || exists|s: DeviceId| #[trigger]
                    about.contains(s) && subject_impact(g, f, s, staged).subjects.contains(d),
        ),
    }
}

/// The cells and subjects that some of the facts can change.
pub open spec fn impact_all(g: Reading, ids: Set<FactId>, staged: Set<FactId>) -> ImpactView {
    ImpactView {
        cells: Set::new(
            |c: ExclusiveCell|
                exists|id: FactId| #[trigger]
                    ids.contains(id) && g.facts.contains_key(id) && impact(
                        g,
                        g.facts[id],
                        staged,
                    ).cells.contains(c),
        ),
        subjects: Set::new(
            |d: DeviceId|
                exists|id: FactId| #[trigger]
                    ids.contains(id) && g.facts.contains_key(id) && impact(
                        g,
                        g.facts[id],
                        staged,
                    ).subjects.contains(d),
        ),
    }
}

/// Facts along a table of dependents.
struct TableEdges<'a> {
    facts: &'a OrdMap<FactId, SignedFact>,
    table: &'a OrdMap<FactId, OrdSet<FactId>>,
}

impl<'a> Edges for TableEdges<'a> {
    closed spec fn edges(&self) -> EdgeMap {
        Map::new(
            |id: FactId| self.facts@.contains_key(id),
            |id: FactId| order::ascending(multimap::at(self.table@, id)),
        )
    }

    fn out(&self, id: &FactId) -> (r: Option<Vec<FactId>>) {
        if self.facts.contains_key(id) {
            Some(list_at(self.table, id))
        } else {
            None
        }
    }

    fn no_entries(&self) -> (r: bool) {
        let _ = self.facts.len();
        assert(self.edges().dom() =~= self.facts@.dom());
        self.facts.is_empty()
    }
}

impl SignedFact {
    /// The predecessors in all lineages for `subject`.
    fn named(&self, subject: &DeviceId) -> (r: OrdSet<FactId>)
        ensures
            r@ == self@.names(*subject),
    {
        let uses = &self.content.authority_uses;
        let n: usize = uses.len();
        let ghost views = self@.content.authority_uses;
        let mut r: OrdSet<FactId> = OrdSet::new();
        for i in 0..n
            invariant
                n == uses@.len(),
                uses == &self.content.authority_uses,
                views == fact::uses_view(uses@),
                views == self@.content.authority_uses,
                forall|p: FactId| #[trigger]
                    r@.contains(p) <==> exists|j: int|
                        0 <= j < i && (#[trigger] views[j]).subject == *subject
                            && views[j].predecessors.contains(p),
        {
            let ghost before = r@;
            assert(views[i as int] == uses@[i as int]@);
            if uses[i].subject.same(subject) {
                r.extend_vec(&uses[i].predecessors);
            }
            assert forall|p: FactId| #[trigger] r@.contains(p) <==> exists|j: int|
                0 <= j < i + 1 && (#[trigger] views[j]).subject == *subject
                    && views[j].predecessors.contains(p) by {
                let last = views[i as int];
                assert(last.predecessors.to_set().contains(p) <==> last.predecessors.contains(p));
                if before.contains(p) {
                    let j = choose|j: int|
                        0 <= j < i && (#[trigger] views[j]).subject == *subject
                            && views[j].predecessors.contains(p);
                    assert(views[j].predecessors.contains(p));
                }
                if last.subject == *subject && last.predecessors.contains(p) {
                    assert(views[i as int].subject == *subject);
                }
            }
        }
        assert(r@ =~= self@.names(*subject));
        r
    }

    /// What the fact bears on by itself.
    fn direct_impact(&self) -> (r: Impact)
        ensures
            r@ == self@.own_impact(),
    {
        let cells = self.content.body.exclusive_cells();
        let mut r = Impact::new();
        let n: usize = cells.len();
        for i in 0..n
            invariant
                n == cells@.len(),
                r.cells@ == cells@.take(i as int).to_set(),
                forall|d: DeviceId| #[trigger]
                    r.subjects@.contains(d) <==> exists|j: int|
                        0 <= j < i && (#[trigger] cells@[j]).about() == Some(d),
        {
            let ghost before = r.subjects@;
            r.cells.insert(cells[i]);
            if let Some(d) = cells[i].subject() {
                r.subjects.insert(d);
            }
            proof {
                ordset::lemma_take_set(cells@, i as int);
                assert forall|d: DeviceId| #[trigger] r.subjects@.contains(d) <==> exists|j: int|
                    0 <= j < i + 1 && (#[trigger] cells@[j]).about() == Some(d) by {
                    if before.contains(d) {
                        let j = choose|j: int|
                            0 <= j < i && (#[trigger] cells@[j]).about() == Some(d);
                        assert(cells@[j].about() == Some(d));
                    }
                    if cells@[i as int].about() == Some(d) {
                        assert(r.subjects@.contains(d));
                    }
                }
            }
        }
        let ghost by_cells = r.subjects@;
        if let Some(target) = self.content.body.stand_down_target() {
            r.subjects.insert(target);
        }
        proof {
            assert(cells@.take(n as int) =~= cells@);
            assert forall|d: DeviceId| #[trigger] r.subjects@.contains(d) <==> self@.touches(d) by {
                if by_cells.contains(d) {
                    let j = choose|j: int|
                        0 <= j < n && (#[trigger] cells@[j]).about() == Some(d);
                    assert(cells@.contains(cells@[j]));
                    assert(self@.advances(cells@[j]));
                }
                if exists|c: ExclusiveCell| #[trigger] self@.advances(c) && c.about() == Some(d) {
                    let c = choose|c: ExclusiveCell| #[trigger]
                        self@.advances(c) && c.about() == Some(d);
                    let j = choose|j: int| 0 <= j < cells@.len() && cells@[j] == c;
                    assert(cells@[j].about() == Some(d));
                    assert(by_cells.contains(d));
                }
            }
            assert(r@ =~= self@.own_impact());
        }
        r
    }

    /// Whether the body is a resolution that selects in the lineage of
    /// `subject`.
    fn resolves_for(&self, subject: &DeviceId) -> (r: bool)
        ensures
            r == selects_for(self@.content.body, *subject),
    {
        match &self.content.body {
            FactBody::AuthorityLineageResolution { subject: s, .. } => s.same(subject),
            FactBody::Resolution { cell: ExclusiveCell::Role { subject: s }, .. } => s.same(
                subject,
            ),
            _ => false,
        }
    }
}

impl FactGraph {
    /// Adds the staged facts that take part in the lineage of `subject`.
    fn add_staged(&self, set: &mut OrdSet<FactId>, subject: &DeviceId, staged: &Vec<FactId>)
        ensures
            final(set)@ == old(set)@.union(
                staged@.to_set().filter(
                    |id: FactId|
                        self@.facts.contains_key(id) && self@.facts[id].takes_part(*subject),
                ),
            ),
    {
        let n: usize = staged.len();
        let ghost start = set@;
        let ghost keep = |id: FactId|
            self@.facts.contains_key(id) && self@.facts[id].takes_part(*subject);
        assert(staged@.take(0).to_set() =~= Set::<FactId>::empty());
        assert(set@ =~= start.union(staged@.take(0).to_set().filter(keep)));
        for i in 0..n
            invariant
                n == staged@.len(),
                keep == (|id: FactId|
                    self@.facts.contains_key(id) && self@.facts[id].takes_part(*subject)),
                set@ == start.union(staged@.take(i as int).to_set().filter(keep)),
        {
            if let Some(f) = self.facts.get(&staged[i]) {
                if f.find_use(subject).is_some() && !f.is_payload_local(subject) {
                    set.insert(staged[i]);
                }
            }
            proof {
                ordset::lemma_take_set(staged@, i as int);
                assert(set@ =~= start.union(staged@.take(i + 1).to_set().filter(keep)));
            }
        }
        assert(staged@.take(n as int) =~= staged@);
        assert(set@ =~= start.union(
            staged@.to_set().filter(
                |id: FactId|
                    self@.facts.contains_key(id) && self@.facts[id].takes_part(*subject),
            ),
        ));
    }

    fn participant_set(&self, subject: &DeviceId, staged: &Vec<FactId>) -> (r: OrdSet<FactId>)
        ensures
            r@ == participants(self@.reading(), *subject, staged@.to_set()),
    {
        let list = list_at(&self.index.authority_facts, subject);
        let mut r = OrdSet::from_vec(&list);
        self.add_staged(&mut r, subject, staged);
        r
    }

    /// Subject-local reverse edges, for the duration of one operation.
    fn dependents_table(&self, subject: &DeviceId, staged: &Vec<FactId>) -> (r: OrdMap<
        FactId,
        OrdSet<FactId>,
    >)
        ensures
            forall|id: FactId| #[trigger]
                multimap::at(r@, id) == dependents(
                    self@.reading(),
                    *subject,
                    staged@.to_set(),
                    id,
                ),
    {
        let ghost g = self@.reading();
        let ghost st = staged@.to_set();
        let list = self.participant_set(subject, staged).to_vec();
        let n: usize = list.len();
        let mut table: OrdMap<FactId, OrdSet<FactId>> = OrdMap::new();
        for i in 0..n
            invariant
                n == list@.len(),
                g == self@.reading(),
                forall|p: FactId, x: FactId| #[trigger]
                    multimap::at(table@, p).contains(x) <==> list@.take(
                        i as int,
                    ).to_set().contains(x) && g.facts.contains_key(x)
                        && !g.facts[x].payload_local(*subject) && g.facts[x].names(
                        *subject,
                    ).contains(p),
        {
            let ghost before = table@;
            if let Some(f) = self.facts.get(&list[i]) {
                if !f.is_payload_local(subject) {
                    let names = f.named(subject).to_vec();
                    join_all(&mut table, &names, list[i]);
                }
            }
            proof {
                ordset::lemma_take_set(list@, i as int);
                assert forall|p: FactId, x: FactId| #[trigger]
                    multimap::at(table@, p).contains(x) <==> list@.take(i + 1).to_set().contains(x)
                        && g.facts.contains_key(x) && !g.facts[x].payload_local(*subject)
                        && g.facts[x].names(*subject).contains(p) by {
                    assert(multimap::at(before, p).contains(x) <==> list@.take(
                        i as int,
                    ).to_set().contains(x) && g.facts.contains_key(x)
                        && !g.facts[x].payload_local(*subject) && g.facts[x].names(
                        *subject,
                    ).contains(p));
                }
            }
        }
        assert(list@.take(n as int) =~= list@);
        assert forall|id: FactId| #[trigger] multimap::at(table@, id) == dependents(
            g,
            *subject,
            st,
            id,
        ) by {
            assert(multimap::at(table@, id) =~= dependents(g, *subject, st, id));
        }
        table
    }

    /// What a set of resident facts bears on.
    fn impact_of_set(&self, ids: &OrdSet<FactId>) -> (r: Impact)
        ensures
            r@ == impact_of(self@.facts, ids@),
    {
        let list = ids.to_vec();
        let n: usize = list.len();
        let mut r = Impact::new();
        assert(list@.take(0).to_set() =~= Set::<FactId>::empty());
        assert(r@ =~= impact_of(self@.facts, list@.take(0).to_set()));
        for i in 0..n
            invariant
                n == list@.len(),
                r@ == impact_of(self@.facts, list@.take(i as int).to_set()),
        {
            if let Some(f) = self.facts.get(&list[i]) {
                r.join(&f.direct_impact());
            }
            proof {
                ordset::lemma_take_set(list@, i as int);
                lemma_impact_step(self@.facts, list@.take(i as int).to_set(), list@[i as int]);
            }
        }
        assert(list@.take(n as int) =~= list@);
        r
    }

    /// Collect only cells on an authority branch that a typed resolution can
    /// change.  The walk follows exact subject-scoped AuthorityUse edges.
    pub fn authority_branch_impact_with_staged(
        &self,
        subject: &DeviceId,
        seeds: &Vec<FactId>,
        staged: &Vec<FactId>,
    ) -> (r: Impact)
        ensures
            r@ == branch_impact(
                self@.reading(),
                *subject,
                seeds@.to_set(),
                staged@.to_set(),
            ),
    {
        let table = self.dependents_table(subject, staged);
        let graph = TableEdges { facts: &self.facts, table: &table };
        assert(graph.edges() =~= branch_edges(self@.reading(), *subject, staged@.to_set())) by {
            assert forall|id: FactId| graph.edges().contains_key(
                id,
            ) implies #[trigger] graph.edges()[id] == branch_edges(
                self@.reading(),
                *subject,
                staged@.to_set(),
            )[id] by {
                assert(multimap::at(table@, id) == dependents(
                    self@.reading(),
                    *subject,
                    staged@.to_set(),
                    id,
                ));
            }
        }
        let branch = reach_set(&graph, seeds);
        self.impact_of_set(&branch)
    }

    /// An exceptional selection can change ancestor propositions as well as
    /// descendants: every participant of the lineage is a seed.
    pub fn authority_participant_impact_with_staged(
        &self,
        subject: &DeviceId,
        seeds: &Vec<FactId>,
        staged: &Vec<FactId>,
    ) -> (r: Impact)
        ensures
            r@ == participant_impact(
                self@.reading(),
                *subject,
                seeds@.to_set(),
                staged@.to_set(),
            ),
    {
        let mut all = OrdSet::from_vec(seeds);
        all.extend(&self.participant_set(subject, staged));
        self.authority_branch_impact_with_staged(subject, &all.to_vec(), staged)
    }

    /// Once a new incomparable head is admitted, every participant of the
    /// lineage may lose authority.
    pub fn ordinary_authority_fork_impact_with_staged(
        &self,
        fact: &SignedFact,
        subject: &DeviceId,
        staged: &Vec<FactId>,
    ) -> (r: Impact)
        ensures
            r@ == fork_impact(self@.reading(), fact@, *subject, staged@.to_set()),
    {
        let known = list_at(&self.index.authority_heads, subject);
        let mut set = OrdSet::from_vec(&known);
        self.add_staged(&mut set, subject, staged);
        let heads = set.to_vec();
        let inputs = dependencies(fact);
        let n: usize = heads.len();
        for i in 0..n
            invariant
                n == heads@.len(),
                heads@.to_set() == fork_heads(self@.reading(), *subject, staged@.to_set()),
                forall|id: FactId| #[trigger]
                    inputs@.contains(id) <==> fact@.inputs().contains(id),
                forall|j: int|
                    0 <= j < i ==> #[trigger] heads@[j] == fact@.id || fact@.inputs().contains(
                        heads@[j],
                    ),
        {
            if !heads[i].same(&fact.id) && !holds(&inputs, &heads[i]) {
                proof {
                    let h = heads@[i as int];
                    assert(heads@.contains(h));
                    assert(fork_heads(self@.reading(), *subject, staged@.to_set()).contains(h));
                }
                return self.authority_participant_impact_with_staged(subject, &heads, staged);
            }
        }
        assert forall|h: FactId| #[trigger]
            fork_heads(self@.reading(), *subject, staged@.to_set()).contains(h) implies h
            == fact@.id || fact@.inputs().contains(h) by {
            assert(heads@.contains(h));
            let j = choose|j: int| 0 <= j < heads@.len() && heads@[j] == h;
            assert(heads@[j] == h);
        }
        Impact::new()
    }

    fn impact_through(&self, fact: &SignedFact, subject: &DeviceId, staged: &Vec<FactId>) -> (r:
        Impact)
        ensures
            r@ == subject_impact(self@.reading(), fact@, *subject, staged@.to_set()),
    {
        if fact.resolves_for(subject) {
            let none: Vec<FactId> = Vec::new();
            let seeds = match fact.find_use(subject) {
                Some(i) => &fact.content.authority_uses[i].predecessors,
                None => &none,
            };
            proof {
                assert(none@.to_set() =~= Set::<FactId>::empty());
                assert(seeds@.to_set() == seeds_of(fact@, *subject));
            }
            return self.authority_participant_impact_with_staged(subject, seeds, staged);
        }
        if !fact.is_payload_local(subject) {
            self.ordinary_authority_fork_impact_with_staged(fact, subject, staged)
        } else {
            Impact::new()
        }
    }

    /// The cells and subjects that a fact can change.
    pub fn projection_impact_for_fact_with_staged(
        &self,
        fact: &SignedFact,
        staged: &Vec<FactId>,
    ) -> (r: Impact)
        ensures
            r@ == impact(self@.reading(), fact@, staged@.to_set()),
    {
        proof {
            reveal(impact);
        }
        let ghost g = self@.reading();
        let ghost st = staged@.to_set();
        let mut r = fact.direct_impact();
        let subjects = fact.content.body.authority_use_subjects(&fact.content.author);
        let n: usize = subjects.len();
        let ghost own = r@;
        for i in 0..n
            invariant
                n == subjects@.len(),
                g == self@.reading(),
                st == staged@.to_set(),
                forall|c: ExclusiveCell| #[trigger]
                    r.cells@.contains(c) <==> own.cells.contains(c) || exists|j: int|
                        0 <= j < i && subject_impact(
                            g,
                            fact@,
                            #[trigger] subjects@[j],
                            st,
                        ).cells.contains(c),
                forall|d: DeviceId| #[trigger]
                    r.subjects@.contains(d) <==> own.subjects.contains(d) || exists|j: int|
                        0 <= j < i && (#[trigger] subjects@[j] == d || subject_impact(
                            g,
                            fact@,
                            subjects@[j],
                            st,
                        ).subjects.contains(d)),
        {
            let ghost before = r@;
            let more = self.impact_through(fact, &subjects[i], staged);
            r.join(&more);
            r.subjects.insert(subjects[i]);
            proof {
                let s = subjects@[i as int];
                assert forall|c: ExclusiveCell| #[trigger]
                    r.cells@.contains(c) <==> own.cells.contains(c) || exists|j: int|
                        0 <= j < i + 1 && subject_impact(
                            g,
                            fact@,
                            #[trigger] subjects@[j],
                            st,
                        ).cells.contains(c) by {
                    if before.cells.contains(c) && !own.cells.contains(c) {
                        let j = choose|j: int|
                            0 <= j < i && subject_impact(
                                g,
                                fact@,
                                #[trigger] subjects@[j],
                                st,
                            ).cells.contains(c);
                        assert(subject_impact(g, fact@, subjects@[j], st).cells.contains(c));
                    }
                    if more@.cells.contains(c) {
                        assert(subject_impact(g, fact@, subjects@[i as int], st).cells.contains(
                            c,
                        ));
                    }
                }
                assert forall|d: DeviceId| #[trigger]
                    r.subjects@.contains(d) <==> own.subjects.contains(d) || exists|j: int|
                        0 <= j < i + 1 && (#[trigger] subjects@[j] == d || subject_impact(
                            g,
                            fact@,
                            subjects@[j],
                            st,
                        ).subjects.contains(d)) by {
                    if before.subjects.contains(d) && !own.subjects.contains(d) {
                        let j = choose|j: int|
                            0 <= j < i && (#[trigger] subjects@[j] == d || subject_impact(
                                g,
                                fact@,
                                subjects@[j],
                                st,
                            ).subjects.contains(d));
                        assert(subjects@[j] == subjects@[j]);
                    }
                    if more@.subjects.contains(d) || d == s {
                        assert(subjects@[i as int] == s);
                    }
                }
            }
        }
        proof {
            let about = fact@.content.body.subjects(fact@.content.author);
            let want = impact(g, fact@, st);
            assert forall|c: ExclusiveCell| #[trigger]
                r.cells@.contains(c) <==> want.cells.contains(c) by {
                if r.cells@.contains(c) && !own.cells.contains(c) {
                    let j = choose|j: int|
                        0 <= j < n && subject_impact(
                            g,
                            fact@,
                            #[trigger] subjects@[j],
                            st,
                        ).cells.contains(c);
                    assert(subjects@.contains(subjects@[j]));
                    assert(about.contains(subjects@[j]));
                }
                if want.cells.contains(c) && !fact@.advances(c) {
                    let s = choose|s: DeviceId| #[trigger]
                        about.contains(s) && subject_impact(g, fact@, s, st).cells.contains(c);
                    assert(subjects@.contains(s));
                    let j = choose|j: int| 0 <= j < subjects@.len() && subjects@[j] == s;
                    assert(subject_impact(g, fact@, subjects@[j], st).cells.contains(c));
                }
            }
            assert forall|d: DeviceId| #[trigger]
                r.subjects@.contains(d) <==> want.subjects.contains(d) by {
                if r.subjects@.contains(d) && !own.subjects.contains(d) {
                    let j = choose|j: int|
                        0 <= j < n && (#[trigger] subjects@[j] == d || subject_impact(
                            g,
                            fact@,
                            subjects@[j],
                            st,
                        ).subjects.contains(d));
                    assert(subjects@.contains(subjects@[j]));
                    assert(about.contains(subjects@[j]));
                }
                if about.contains(d) {
                    assert(subjects@.contains(d));
                    let j = choose|j: int| 0 <= j < subjects@.len() && subjects@[j] == d;
                    assert(subjects@[j] == d);
                    assert(r.subjects@.contains(d));
                }
                if want.subjects.contains(d) && !fact@.touches(d) && !about.contains(d) {
                    let s = choose|s: DeviceId| #[trigger]
                        about.contains(s) && subject_impact(g, fact@, s, st).subjects.contains(d);
                    assert(subjects@.contains(s));
                    let j = choose|j: int| 0 <= j < subjects@.len() && subjects@[j] == s;
                    assert(subjects@[j] == s);
                }
            }
            assert(r@ =~= want);
        }
        r
    }

    /// Return the exact projection/roster subjects touched by a bounded
    /// journal delta.  The lookup starts from changed facts and the maintained
    /// subject-scoped index; it never enumerates the whole ledger.
    pub fn projection_impact_for_facts_with_staged(
        &self,
        ids: &Vec<FactId>,
        staged: &Vec<FactId>,
    ) -> (r: Impact)
        ensures
            r@ == impact_all(self@.reading(), ids@.to_set(), staged@.to_set()),
    {
        let ghost g = self@.reading();
        let ghost st = staged@.to_set();
        let n: usize = ids.len();
        let mut r = Impact::new();
        assert(ids@.take(0).to_set() =~= Set::<FactId>::empty());
        assert(r@ =~= impact_all(g, ids@.take(0).to_set(), st));
        for i in 0..n
            invariant
                n == ids@.len(),
                g == self@.reading(),
                st == staged@.to_set(),
                r@ == impact_all(g, ids@.take(i as int).to_set(), st),
        {
            if let Some(f) = self.facts.get(&ids[i]) {
                r.join(&self.projection_impact_for_fact_with_staged(f, staged));
            }
            proof {
                ordset::lemma_take_set(ids@, i as int);
                lemma_impact_all_step(g, ids@.take(i as int).to_set(), ids@[i as int], st);
            }
        }
        assert(ids@.take(n as int) =~= ids@);
        r
    }
}

proof fn lemma_impact_step(facts: Facts, ids: Set<FactId>, id: FactId)
    ensures
        impact_of(facts, ids.insert(id)) == (if facts.contains_key(id) {
            impact_of(facts, ids).and(facts[id].own_impact())
        } else {
            impact_of(facts, ids)
        }),
{
    let small = impact_of(facts, ids);
    let big = impact_of(facts, ids.insert(id));
    let want = if facts.contains_key(id) {
        small.and(facts[id].own_impact())
    } else {
        small
    };
    assert forall|c: ExclusiveCell| #[trigger] big.cells.contains(c) <==> want.cells.contains(
        c,
    ) by {
        if big.cells.contains(c) {
            let x = choose|x: FactId| #[trigger]
                ids.insert(id).contains(x) && facts.contains_key(x) && facts[x].advances(c);
            if x != id {
                assert(ids.contains(x));
            }
        }
        if small.cells.contains(c) {
            let x = choose|x: FactId| #[trigger]
                ids.contains(x) && facts.contains_key(x) && facts[x].advances(c);
            assert(ids.insert(id).contains(x));
        }
        if facts.contains_key(id) && facts[id].own_impact().cells.contains(c) {
            assert(ids.insert(id).contains(id));
        }
    }
    assert forall|d: DeviceId| #[trigger] big.subjects.contains(d) <==> want.subjects.contains(
        d,
    ) by {
        if big.subjects.contains(d) {
            let x = choose|x: FactId| #[trigger]
                ids.insert(id).contains(x) && facts.contains_key(x) && facts[x].touches(d);
            if x != id {
                assert(ids.contains(x));
            }
        }
        if small.subjects.contains(d) {
            let x = choose|x: FactId| #[trigger]
                ids.contains(x) && facts.contains_key(x) && facts[x].touches(d);
            assert(ids.insert(id).contains(x));
        }
        if facts.contains_key(id) && facts[id].own_impact().subjects.contains(d) {
            assert(ids.insert(id).contains(id));
        }
    }
    assert(big =~= want);
}

proof fn lemma_impact_all_step(g: Reading, ids: Set<FactId>, id: FactId, staged: Set<FactId>)
    ensures
        impact_all(g, ids.insert(id), staged) == (if g.facts.contains_key(id) {
            impact_all(g, ids, staged).and(impact(g, g.facts[id], staged))
        } else {
            impact_all(g, ids, staged)
        }),
{
    let facts = g.facts;
    let small = impact_all(g, ids, staged);
    let big = impact_all(g, ids.insert(id), staged);
    let want = if facts.contains_key(id) {
        small.and(impact(g, facts[id], staged))
    } else {
        small
    };
    assert forall|c: ExclusiveCell| #[trigger] big.cells.contains(c) <==> want.cells.contains(
        c,
    ) by {
        if big.cells.contains(c) {
            let x = choose|x: FactId| #[trigger]
                ids.insert(id).contains(x) && facts.contains_key(x) && impact(
                    g,
                    facts[x],
                    staged,
                ).cells.contains(c);
            if x != id {
                assert(ids.contains(x));
            }
        }
        if small.cells.contains(c) {
            let x = choose|x: FactId| #[trigger]
                ids.contains(x) && facts.contains_key(x) && impact(
                    g,
                    facts[x],
                    staged,
                ).cells.contains(c);
            assert(ids.insert(id).contains(x));
        }
        if facts.contains_key(id) && impact(g, facts[id], staged).cells.contains(c) {
            assert(ids.insert(id).contains(id));
        }
    }
    assert forall|d: DeviceId| #[trigger] big.subjects.contains(d) <==> want.subjects.contains(
        d,
    ) by {
        if big.subjects.contains(d) {
            let x = choose|x: FactId| #[trigger]
                ids.insert(id).contains(x) && facts.contains_key(x) && impact(
                    g,
                    facts[x],
                    staged,
                ).subjects.contains(d);
            if x != id {
                assert(ids.contains(x));
            }
        }
        if small.subjects.contains(d) {
            let x = choose|x: FactId| #[trigger]
                ids.contains(x) && facts.contains_key(x) && impact(
                    g,
                    facts[x],
                    staged,
                ).subjects.contains(d);
            assert(ids.insert(id).contains(x));
        }
        if facts.contains_key(id) && impact(g, facts[id], staged).subjects.contains(d) {
            assert(ids.insert(id).contains(id));
        }
    }
    assert(big =~= want);
}

} // verus!

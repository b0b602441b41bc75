//! Authority lineages: heads, typed selectors and which facts still count.

use vstd::prelude::*;

use crate::content::{AuthorityLineage, BodyView, ExclusiveCell, FactBody, LineageView};
use crate::device::DeviceId;
use crate::fact::{Facts, FactView, SignedFact};
use crate::graph::{AuthoritySelectorRelation, FactGraph, Reading, RowView};
use crate::ids::FactId;
use crate::index;
use crate::multimap;
use crate::multimap::list_at;
use crate::order;
use crate::ordmap::OrdMap;
use crate::ordset;
use crate::ordset::{append_keys, holds, same_keys, OrdSet};
use crate::reach;
use crate::reach::{reach_set, walk_all, Edges, ParentEdges};

verus! {

/// The relation of `id` to `selector`, where one is on record.
pub open spec fn relation_of(
    provenance: Map<FactId, RowView>,
    id: FactId,
    selector: FactId,
) -> Option<AuthoritySelectorRelation> {
    if provenance.contains_key(id) && provenance[id].contains_key(selector) {
        Some(provenance[id][selector])
    } else {
        None
    }
}

/// Whether `selector` is on record as at or behind `id`.
pub open spec fn is_post(provenance: Map<FactId, RowView>, id: FactId, selector: FactId) -> bool {
    relation_of(provenance, id, selector) matches Some(r) && r.post_selector
}

/// Whether a fact is a typed selector for `subject` that selects `selected`.
pub open spec fn selects(facts: Facts, id: FactId, subject: DeviceId, selected: FactId) -> bool {
    facts.contains_key(id) && (facts[id].content.body matches BodyView::AuthorityLineageResolution {
        subject: s,
        selected_head: h,
        ..
    } && s == subject && h == selected)
}

/// What a typed selector selects.
pub open spec fn selected_by(facts: Facts, id: FactId) -> Option<FactId> {
    if facts.contains_key(id) {
        match facts[id].content.body {
            BodyView::AuthorityLineageResolution { selected_head, .. } => Some(selected_head),
            _ => None,
        }
    } else {
        None
    }
}

/// The candidates that no other candidate has behind it.
pub open spec fn maxima(provenance: Map<FactId, RowView>, candidates: Set<FactId>) -> Set<FactId> {
    candidates.filter(
        |c: FactId|
            !exists|other: FactId|
                candidates.contains(other) && other != c && #[trigger] is_post(
                    provenance,
                    other,
                    c,
                ),
    )
}

/// Whether `selector` admits `id` to the branch that it selects.
pub open spec fn permits(g: Reading, selector: FactId, id: FactId) -> bool {
    selected_by(g.facts, selector) matches Some(selected) && relation_of(
        g.index.provenance,
        id,
        selector,
    ) matches Some(r) && r.selected == selected && r.holds()
}

/// Whether all the permits of a list admit `id`.
pub open spec fn all_permit(g: Reading, selectors: Seq<FactId>, id: FactId) -> bool {
    forall|i: int| 0 <= i < selectors.len() ==> permits(g, #[trigger] selectors[i], id)
}

/// The selectors that still count, the latest first: at each round the
/// maximal pending ones that all later ones admit.
pub open spec fn relevant_from(
    g: Reading,
    pending: Set<FactId>,
    relevant: Seq<FactId>,
) -> Option<Seq<FactId>>
    decreases pending.len(),
    when pending.finite()
{
    if pending == Set::<FactId>::empty() {
        Some(relevant)
    } else {
        let top = maxima(g.index.provenance, pending);
        if top == Set::<FactId>::empty() {
            None
        } else {
            proof {
                lemma_fewer(pending, top);
            }
            relevant_from(
                g,
                pending.difference(top),
                relevant + order::ascending(top.filter(|c: FactId| all_permit(g, relevant, c))),
            )
        }
    }
}

/// Taking some of a finite set away leaves fewer.
pub proof fn lemma_fewer(all: Set<FactId>, some: Set<FactId>)
    requires
        all.finite(),
        some.subset_of(all),
        some != Set::<FactId>::empty(),
    ensures
        all.difference(some).len() < all.len(),
        all.difference(some).finite(),
{
    assert(exists|x: FactId| some.contains(x)) by {
        if !(exists|x: FactId| some.contains(x)) {
            assert(some =~= Set::<FactId>::empty());
        }
    }
    let x = choose|x: FactId| some.contains(x);
    assert(all.difference(some).subset_of(all.remove(x)));
    vstd::set_lib::lemma_len_subset(all.difference(some), all.remove(x));
}

impl Reading {
    /// The heads of the authority lineage of `subject`.
    pub open spec fn authority_heads(self, subject: DeviceId) -> Set<FactId> {
        if self.current {
            multimap::at(self.index.authority_heads, subject).filter(
                |id: FactId|
                    self.facts.contains_key(id) && !self.facts[id].payload_local(subject),
            )
        } else {
            let all = self.facts.dom().filter(|id: FactId| self.facts[id].takes_part(subject));
            all.filter(|id: FactId| is_top(self.facts, all, id))
        }
    }

    /// The heads of `cell`.
    pub open spec fn raw_heads(self, cell: ExclusiveCell) -> Set<FactId> {
        if self.current {
            multimap::at(self.index.cell_heads, cell)
        } else {
            let all = self.facts.dom().filter(|id: FactId| self.facts[id].advances(cell));
            all.filter(|id: FactId| is_top(self.facts, all, id))
        }
    }

    /// Whether every selector for `subject` is on record as behind itself.
    pub open spec fn provenance_complete(self, subject: DeviceId) -> bool {
        forall|s: crate::graph::Selection| #[trigger]
            multimap::at(self.index.selectors, subject).contains(s) ==> (relation_of(
                self.index.provenance,
                s.selector,
                s.selector,
            ) matches Some(r) && r.post_selector && r.selected == s.selected)
    }

    /// The typed selectors for `subject` at or behind `heads`.
    pub open spec fn ancestral_selectors(self, subject: DeviceId, heads: Set<FactId>) -> Set<
        FactId,
    > {
        Set::new(
            |s: FactId|
                exists|h: FactId| #[trigger]
                    heads.contains(h) && is_post(self.index.provenance, h, s) && selects(
                        self.facts,
                        s,
                        subject,
                        self.index.provenance[h][s].selected,
                    ),
        )
    }

    /// The latest typed selectors for `subject` at or behind `heads`.
    pub open spec fn maximal_selectors(self, subject: DeviceId, heads: Set<FactId>) -> Set<FactId> {
        maxima(self.index.provenance, self.ancestral_selectors(subject, heads))
    }

    /// The selectors for `subject` that still count.
    pub open spec fn relevant_selectors(self, subject: DeviceId, heads: Set<FactId>) -> Option<
        Seq<FactId>,
    > {
        relevant_from(self, self.ancestral_selectors(subject, heads), Seq::empty())
    }

    /// The branch that the one latest selector behind the one head selects.
    pub open spec fn selected_branch(self, subject: DeviceId, heads: Set<FactId>) -> Option<FactId> {
        let latest = order::ascending(self.maximal_selectors(subject, heads));
        if order::ascending(heads).len() == 1 && latest.len() == 1 {
            selected_by(self.facts, latest[0])
        } else {
            None
        }
    }

    /// The authority relation of `subject`.
    pub open spec fn lineage(self, subject: DeviceId) -> LineageView {
        LineageView {
            subject,
            heads: order::ascending(self.authority_heads(subject)),
            selected_branch: self.selected_branch(subject, self.authority_heads(subject)),
        }
    }

    /// Whether the authority relation of `subject` has at most one head.
    pub open spec fn is_singular(self, subject: DeviceId) -> bool {
        self.lineage(subject).heads.len() <= 1
    }
}

/// Whether `id` is a signed ancestor of no other of `all`.
pub open spec fn is_top(facts: Facts, all: Set<FactId>, id: FactId) -> bool {
    !exists|other: FactId|
        all.contains(other) && other != id && #[trigger] reach::is_ancestor(facts, id, other)
}

/// Why an ancestry question has no answer yet.
#[derive(Debug, Clone, Copy, PartialEq, Eq)]
pub enum Gap {
    /// The history behind this fact is needed.
    Wanted(FactId),
    /// The supplied history does not hold up.
    Invalid(&'static str),
}

/// Supplied history rows, each set closed under the signed parents that its
/// loader was asked for.
pub type Pools = Seq<Facts>;

/// The answer that complete rows give: none where a signed parent is missing.
pub open spec fn reachability(facts: Facts, ancestor: FactId, descendant: FactId) -> Option<bool> {
    if reach::reach(reach::parent_edges(facts), set![descendant]).subset_of(facts.dom()) {
        Some(reach::is_ancestor(facts, ancestor, descendant))
    } else {
        None
    }
}

/// The latest pool that holds `id`.
pub open spec fn covering(pools: Pools, id: FactId) -> Option<Facts>
    decreases pools.len(),
{
    if pools.len() == 0 {
        None
    } else if pools.last().contains_key(id) {
        Some(pools.last())
    } else {
        covering(pools.drop_last(), id)
    }
}

/// Whether `ancestor` is a signed ancestor of `descendant`: by the resident
/// facts alone where no pools are given, else with the pools where the
/// resident ones are incomplete.
pub open spec fn ancestry(
    facts: Facts,
    pools: Option<Pools>,
    ancestor: FactId,
    descendant: FactId,
) -> Result<bool, Gap> {
    match pools {
        None => Ok(reach::is_ancestor(facts, ancestor, descendant)),
        Some(pools) => match reachability(facts, ancestor, descendant) {
            Some(r) => Ok(r),
            None => match covering(pools, descendant) {
                None => Err(Gap::Wanted(descendant)),
                Some(pool) => match reachability(pool, ancestor, descendant) {
                    Some(r) => Ok(r),
                    None => Err(Gap::Invalid("incomplete signed-parent ancestry")),
                },
            },
        },
    }
}

/// Whether `id` is or is behind each of `heads`, asked in order.
pub open spec fn is_common(
    facts: Facts,
    pools: Option<Pools>,
    id: FactId,
    heads: Seq<FactId>,
) -> Result<bool, Gap>
    decreases heads.len(),
{
    if heads.len() == 0 {
        Ok(true)
    } else if id == heads[0] {
        is_common(facts, pools, id, heads.drop_first())
    } else {
        match ancestry(facts, pools, id, heads[0]) {
            Ok(true) => is_common(facts, pools, id, heads.drop_first()),
            other => other,
        }
    }
}

/// Whether another of `others` has `id` behind it, asked in order.
pub open spec fn is_beaten(
    facts: Facts,
    pools: Option<Pools>,
    id: FactId,
    others: Seq<FactId>,
) -> Result<bool, Gap>
    decreases others.len(),
{
    if others.len() == 0 {
        Ok(false)
    } else if id == others[0] {
        is_beaten(facts, pools, id, others.drop_first())
    } else {
        match ancestry(facts, pools, id, others[0]) {
            Ok(false) => is_beaten(facts, pools, id, others.drop_first()),
            other => other,
        }
    }
}

/// The first `n` of `ids` that none of `ids` has behind it.
pub open spec fn unbeaten(
    facts: Facts,
    pools: Option<Pools>,
    ids: Seq<FactId>,
    n: int,
) -> Result<Seq<FactId>, Gap>
    decreases n,
{
    if n <= 0 {
        Ok(Seq::empty())
    } else {
        match unbeaten(facts, pools, ids, n - 1) {
            Err(e) => Err(e),
            Ok(kept) => match is_beaten(facts, pools, ids[n - 1], ids) {
                Err(e) => Err(e),
                Ok(true) => Ok(kept),
                Ok(false) => Ok(kept.push(ids[n - 1])),
            },
        }
    }
}

/// The first `n` parents that take part in the lineage of `subject`.
pub open spec fn direct_uses(facts: Facts, parents: Seq<FactId>, subject: DeviceId, n: int) -> Seq<
    FactId,
>
    decreases n,
{
    if n <= 0 {
        Seq::empty()
    } else {
        let rest = direct_uses(facts, parents, subject, n - 1);
        let id = parents[n - 1];
        if facts.contains_key(id) && facts[id].takes_part(subject) {
            rest.push(id)
        } else {
            rest
        }
    }
}

/// The lineage heads that a fact carries among its signed parents.
pub open spec fn heads_from_parents(
    facts: Facts,
    pools: Option<Pools>,
    f: FactView,
    subject: DeviceId,
) -> Result<Seq<FactId>, Gap> {
    let direct = direct_uses(facts, f.content.parents, subject, f.content.parents.len() as int);
    unbeaten(facts, pools, direct, direct.len() as int)
}

/// Whether a fact holds its place in the lineage of one of its subjects.
pub open spec fn subject_verdict(
    g: Reading,
    pools: Option<Pools>,
    f: FactView,
    subject: DeviceId,
) -> Result<bool, Gap> {
    let local = f.payload_local(subject);
    let heads = g.authority_heads(subject);
    let listed = order::ascending(heads);
    if !local && (!g.provenance_complete(subject) || order::ascending(
        g.maximal_selectors(subject, heads),
    ).len() > 1) {
        Ok(false)
    } else {
        let shared = if !local && listed.len() > 1 {
            is_common(g.facts, pools, f.id, listed)
        } else {
            Ok(true)
        };
        match shared {
            Ok(true) => match f.predecessors(subject) {
                None => Ok(false),
                Some(signed) => match heads_from_parents(g.facts, pools, f, subject) {
                    Err(e) => Err(e),
                    Ok(expected) => if signed != expected {
                        Ok(false)
                    } else if local {
                        Ok(true)
                    } else {
                        match g.relevant_selectors(subject, heads) {
                            None => Ok(false),
                            Some(selectors) => Ok(all_permit(g, selectors, f.id)),
                        }
                    },
                },
            },
            other => other,
        }
    }
}

/// Whether a fact holds its place in the lineage of all of `subjects`, asked
/// in order.
pub open spec fn subjects_verdict(
    g: Reading,
    pools: Option<Pools>,
    f: FactView,
    subjects: Seq<DeviceId>,
) -> Result<bool, Gap>
    decreases subjects.len(),
{
    if subjects.len() == 0 {
        Ok(true)
    } else {
        match subject_verdict(g, pools, f, subjects[0]) {
            Ok(true) => subjects_verdict(g, pools, f, subjects.drop_first()),
            other => other,
        }
    }
}

/// Whether one admitted fact still belongs to its signed profile lineage.
#[verifier::opaque]
pub open spec fn verdict(g: Reading, pools: Option<Pools>, id: FactId) -> Result<bool, Gap> {
    if g.facts.contains_key(id) {
        let f = g.facts[id];
        subjects_verdict(
            g,
            pools,
            f,
            order::ascending(f.content.body.subjects(f.content.author)),
        )
    } else {
        Ok(false)
    }
}

/// Whether the resident facts show that a fact counts.
pub open spec fn is_authoritative(g: Reading, id: FactId) -> bool {
    verdict(g, None, id) == Ok::<bool, Gap>(true)
}

/// The first `n` of `ids` that count.
pub open spec fn counted(g: Reading, pools: Option<Pools>, ids: Seq<FactId>, n: int) -> Result<
    Seq<FactId>,
    Gap,
>
    decreases n,
{
    if n <= 0 {
        Ok(Seq::empty())
    } else {
        match counted(g, pools, ids, n - 1) {
            Err(e) => Err(e),
            Ok(kept) => match verdict(g, pools, ids[n - 1]) {
                Err(e) => Err(e),
                Ok(true) => Ok(kept.push(ids[n - 1])),
                Ok(false) => Ok(kept),
            },
        }
    }
}

/// The heads of `cell` that count; all of them, where several are heads and
/// none counts.
pub open spec fn cell_heads_with(g: Reading, pools: Option<Pools>, cell: ExclusiveCell) -> Result<
    Seq<FactId>,
    Gap,
> {
    let raw = order::ascending(g.raw_heads(cell));
    match counted(g, pools, raw, raw.len() as int) {
        Err(e) => Err(e),
        Ok(kept) => if kept.len() == 0 && raw.len() > 1 {
            Ok(raw)
        } else {
            Ok(kept)
        },
    }
}

/// The heads of `cell` that the resident facts let count, in order; all heads
/// where several are heads and none counts.
pub open spec fn cell_heads(g: Reading, cell: ExclusiveCell) -> Seq<FactId> {
    let counting = g.raw_heads(cell).filter(|id: FactId| is_authoritative(g, id));
    if counting == Set::<FactId>::empty() && order::ascending(g.raw_heads(cell)).len() > 1 {
        order::ascending(g.raw_heads(cell))
    } else {
        order::ascending(counting)
    }
}

/// The stand-down evidence against `subject` that counts and that no other
/// such evidence builds on.
pub open spec fn stand_down_heads(g: Reading, subject: DeviceId) -> Set<FactId> {
    if g.current {
        let all = multimap::at(g.index.stand_down, subject).filter(
            |id: FactId| is_authoritative(g, id),
        );
        all.filter(
            |c: FactId|
                !exists|other: FactId| #[trigger]
                    all.contains(other) && other != c && g.facts.contains_key(other)
                        && g.facts[other].inputs().contains(c),
        )
    } else {
        let all = g.facts.dom().filter(
            |id: FactId|
                g.facts[id].content.body.stands_down() == Some(subject) && is_authoritative(g, id),
        );
        all.filter(|id: FactId| is_top(g.facts, all, id))
    }
}

/// Resident facts never leave an ancestry question open.
pub proof fn lemma_hot_verdict(g: Reading, id: FactId)
    ensures
        verdict(g, None, id) is Ok,
{
    reveal(verdict);
    if g.facts.contains_key(id) {
        let f = g.facts[id];
        lemma_hot_subjects(
            g,
            f,
            order::ascending(f.content.body.subjects(f.content.author)),
        );
    }
}

proof fn lemma_hot_common(facts: Facts, id: FactId, heads: Seq<FactId>)
    ensures
        is_common(facts, None, id, heads) is Ok,
    decreases heads.len(),
{
    if heads.len() > 0 {
        lemma_hot_common(facts, id, heads.drop_first());
    }
}

proof fn lemma_hot_beaten(facts: Facts, id: FactId, others: Seq<FactId>)
    ensures
        is_beaten(facts, None, id, others) is Ok,
    decreases others.len(),
{
    if others.len() > 0 {
        lemma_hot_beaten(facts, id, others.drop_first());
    }
}

proof fn lemma_hot_unbeaten(facts: Facts, ids: Seq<FactId>, n: int)
    ensures
        unbeaten(facts, None, ids, n) is Ok,
    decreases n,
{
    if n > 0 {
        lemma_hot_unbeaten(facts, ids, n - 1);
        lemma_hot_beaten(facts, ids[n - 1], ids);
    }
}

proof fn lemma_hot_subject(g: Reading, f: FactView, subject: DeviceId)
    ensures
        subject_verdict(g, None, f, subject) is Ok,
{
    lemma_hot_common(g.facts, f.id, order::ascending(g.authority_heads(subject)));
    let parents = f.content.parents;
    let direct = direct_uses(g.facts, parents, subject, parents.len() as int);
    lemma_hot_unbeaten(g.facts, direct, direct.len() as int);
}

proof fn lemma_hot_subjects(g: Reading, f: FactView, subjects: Seq<DeviceId>)
    ensures
        subjects_verdict(g, None, f, subjects) is Ok,
        subjects_verdict(g, None, f, subjects) == Ok::<bool, Gap>(true) <==> forall|i: int|
            0 <= i < subjects.len() ==> subject_verdict(g, None, f, #[trigger] subjects[i])
                == Ok::<bool, Gap>(true),
    decreases subjects.len(),
{
    if subjects.len() > 0 {
        lemma_hot_subject(g, f, subjects[0]);
        let rest = subjects.drop_first();
        lemma_hot_subjects(g, f, rest);
        assert(forall|i: int| 0 <= i < rest.len() ==> rest[i] == subjects[i + 1]);
        if subjects_verdict(g, None, f, subjects) == Ok::<bool, Gap>(true) {
            assert forall|i: int| 0 <= i < subjects.len() implies subject_verdict(
                g,
                None,
                f,
                #[trigger] subjects[i],
            ) == Ok::<bool, Gap>(true) by {
                if i > 0 {
                    assert(rest[i - 1] == subjects[i]);
                }
            }
        }
        if forall|i: int|
            0 <= i < subjects.len() ==> subject_verdict(g, None, f, #[trigger] subjects[i])
                == Ok::<bool, Gap>(true) {
            assert forall|i: int| 0 <= i < rest.len() implies subject_verdict(
                g,
                None,
                f,
                #[trigger] rest[i],
            ) == Ok::<bool, Gap>(true) by {
                assert(rest[i] == subjects[i + 1]);
            }
        }
    }
}

/// A fact counts exactly when it is resident and holds its place in the
/// authority lineage of each of its subjects.
pub proof fn counting_is_by_subject(g: Reading, id: FactId)
    ensures
        is_authoritative(g, id) <==> g.facts.contains_key(id) && forall|s: DeviceId| #[trigger]
            g.facts[id].content.body.subjects(g.facts[id].content.author).contains(s)
                ==> subject_verdict(g, None, g.facts[id], s) == Ok::<bool, Gap>(true),
{
    reveal(verdict);
    if g.facts.contains_key(id) {
        let f = g.facts[id];
        let set = f.content.body.subjects(f.content.author);
        let list = order::ascending(set);
        assert(set.finite());
        ordset::lemma_listing(set);
        lemma_hot_subjects(g, f, list);
        if is_authoritative(g, id) {
            assert forall|s: DeviceId| #[trigger] set.contains(s) implies subject_verdict(
                g,
                None,
                f,
                s,
            ) == Ok::<bool, Gap>(true) by {
                assert(list.contains(s));
                let i = choose|i: int| 0 <= i < list.len() && list[i] == s;
                assert(subject_verdict(g, None, f, list[i]) == Ok::<bool, Gap>(true));
            }
        }
        if forall|s: DeviceId| #[trigger]
            set.contains(s) ==> subject_verdict(g, None, f, s) == Ok::<bool, Gap>(true) {
            assert forall|i: int| 0 <= i < list.len() implies subject_verdict(
                g,
                None,
                f,
                #[trigger] list[i],
            ) == Ok::<bool, Gap>(true) by {
                assert(list.contains(list[i]));
                assert(set.contains(list[i]));
            }
        }
    }
}

/// Supplied rows by identifier.
#[derive(Debug, PartialEq, Eq)]
pub struct Pool {
    pub rows: OrdMap<FactId, SignedFact>,
}

impl View for Pool {
    type V = Facts;

    open spec fn view(&self) -> Facts {
        self.rows@
    }
}

/// The views of a list of pools.
pub open spec fn pools_view(pools: Seq<Pool>) -> Pools {
    pools.map_values(|p: Pool| p@)
}

/// The views of an optional list of pools.
pub open spec fn history_view(pools: Option<&Vec<Pool>>) -> Option<Pools> {
    match pools {
        Some(p) => Some(pools_view(p@)),
        None => None,
    }
}

/// None distinguishes missing bodies from a complete negative answer.
pub fn parent_reachability(
    facts: &OrdMap<FactId, SignedFact>,
    ancestor: &FactId,
    descendant: &FactId,
) -> (r: Option<bool>)
    ensures
        r == reachability(facts@, *ancestor, *descendant),
{
    let mut roots: Vec<FactId> = Vec::new();
    roots.push(*descendant);
    let graph = ParentEdges { facts };
    proof {
        assert(roots@ =~= seq![*descendant]);
        assert(roots@.to_set() =~= set![*descendant]) by {
            assert(roots@.contains(*descendant)) by {
                assert(roots@[0] == *descendant);
            }
        }
        assert(graph.edges().dom() =~= facts@.dom());
        reach::lemma_reach_step(graph.edges(), *descendant);
    }
    match walk_all(&graph, &roots) {
        Ok(_) => {
            proof {
                reach::lemma_reach_closed(graph.edges(), set![*descendant]);
            }
            match facts.get(descendant) {
                Some(f) => {
                    let behind = reach_set(&graph, &f.content.parents);
                    Some(behind.contains(ancestor))
                },
                None => {
                    assert(facts@.dom().contains(*descendant));
                    None
                },
            }
        },
        Err(_) => None,
    }
}

impl FactGraph {
    fn relation(&self, id: &FactId, selector: &FactId) -> (r: Option<AuthoritySelectorRelation>)
        ensures
            r == relation_of(self@.index.provenance, *id, *selector),
    {
        match self.index.provenance.get(id) {
            Some(row) => match row.get(selector) {
                Some(r) => Some(*r),
                None => None,
            },
            None => None,
        }
    }

    fn post(&self, id: &FactId, selector: &FactId) -> (r: bool)
        ensures
            r == is_post(self@.index.provenance, *id, *selector),
    {
        match self.relation(id, selector) {
            Some(r) => r.post_selector,
            None => false,
        }
    }

    /// What a typed selector selects.
    pub(crate) fn selection(&self, id: &FactId) -> (r: Option<FactId>)
        ensures
            r == selected_by(self@.facts, *id),
    {
        match self.facts.get(id) {
            Some(f) => match &f.content.body {
                FactBody::AuthorityLineageResolution { selected_head, .. } => Some(*selected_head),
                _ => None,
            },
            None => None,
        }
    }

    /// Of `ids`, those that are a signed ancestor of no other.
    pub(crate) fn tops(&self, ids: &OrdSet<FactId>) -> (r: OrdSet<FactId>)
        ensures
            r@ == ids@.filter(|id: FactId| is_top(self@.facts, ids@, id)),
    {
        let list = ids.to_vec();
        let n: usize = list.len();
        let mut r: OrdSet<FactId> = OrdSet::new();
        assert(list@.take(0).to_set() =~= Set::<FactId>::empty());
        assert(r@ =~= list@.take(0).to_set().filter(|id: FactId| is_top(self@.facts, ids@, id)));
        for i in 0..n
            invariant
                n == list@.len(),
                forall|k: FactId| #[trigger] list@.contains(k) <==> ids@.contains(k),
                r@ == list@.take(i as int).to_set().filter(
                    |id: FactId| is_top(self@.facts, ids@, id),
                ),
        {
            let mut beaten = false;
            for j in 0..n
                invariant
                    n == list@.len(),
                    i < n,
                    beaten <==> exists|k: int|
                        0 <= k < j && #[trigger] list@[k] != list@[i as int]
                            && reach::is_ancestor(self@.facts, list@[i as int], list@[k]),
            {
                if !list[i].same(&list[j]) && self.is_ancestor(&list[i], &list[j]) {
                    beaten = true;
                    assert(list@[j as int] != list@[i as int]);
                }
            }
            proof {
                let id = list@[i as int];
                assert(beaten <==> !is_top(self@.facts, ids@, id)) by {
                    if !is_top(self@.facts, ids@, id) {
                        let other = choose|other: FactId|
                            ids@.contains(other) && other != id && #[trigger] reach::is_ancestor(
                                self@.facts,
                                id,
                                other,
                            );
                        assert(list@.contains(other));
                        let k = choose|k: int| 0 <= k < list@.len() && list@[k] == other;
                        assert(list@[k] != id);
                    }
                    if beaten {
                        let k = choose|k: int|
                            0 <= k < n && #[trigger] list@[k] != list@[i as int]
                                && reach::is_ancestor(self@.facts, list@[i as int], list@[k]);
                        assert(list@.contains(list@[k]));
                    }
                }
                ordset::lemma_take_set(list@, i as int);
            }
            if !beaten {
                r.insert(list[i]);
            }
            assert(r@ =~= list@.take(i + 1).to_set().filter(
                |id: FactId| is_top(self@.facts, ids@, id),
            ));
        }
        assert(list@.take(n as int) =~= list@);
        r
    }

    fn authority_head_set(&self, subject: &DeviceId) -> (r: OrdSet<FactId>)
        ensures
            r@ == self@.reading().authority_heads(*subject),
    {
        let current = self.indexes_current();
        let list = if current {
            list_at(&self.index.authority_heads, subject)
        } else {
            self.facts.keys()
        };
        let n: usize = list.len();
        let mut r: OrdSet<FactId> = OrdSet::new();
        let ghost keep = |id: FactId|
            self@.facts.contains_key(id) && if current {
                !self@.facts[id].payload_local(*subject)
            } else {
                self@.facts[id].takes_part(*subject)
            };
        assert(list@.take(0).to_set() =~= Set::<FactId>::empty());
        assert(r@ =~= list@.take(0).to_set().filter(keep));
        for i in 0..n
            invariant
                n == list@.len(),
                keep == (|id: FactId|
                    self@.facts.contains_key(id) && if current {
                        !self@.facts[id].payload_local(*subject)
                    } else {
                        self@.facts[id].takes_part(*subject)
                    }),
                r@ == list@.take(i as int).to_set().filter(keep),
        {
            proof {
                ordset::lemma_take_set(list@, i as int);
            }
            if let Some(f) = self.facts.get(&list[i]) {
                let wanted = if current {
                    !f.is_payload_local(subject)
                } else {
                    f.find_use(subject).is_some() && !f.is_payload_local(subject)
                };
                if wanted {
                    r.insert(list[i]);
                }
            }
            assert(r@ =~= list@.take(i + 1).to_set().filter(keep));
        }
        assert(list@.take(n as int) =~= list@);
        if current {
            assert(r@ =~= self@.reading().authority_heads(*subject));
            r
        } else {
            let ghost all = self@.facts.dom().filter(
                |id: FactId| self@.facts[id].takes_part(*subject),
            );
            assert(r@ =~= all);
            self.tops(&r)
        }
    }

    pub fn raw_authority_use_heads(&self, subject: &DeviceId) -> (r: Vec<FactId>)
        ensures
            r@ == order::ascending(self@.reading().authority_heads(*subject)),
            order::is_ascending(r@),
            r@.no_duplicates(),
            r@.to_set() == self@.reading().authority_heads(*subject),
    {
        self.authority_head_set(subject).to_vec()
    }

    pub fn raw_cell_heads(&self, cell: &ExclusiveCell) -> (r: Vec<FactId>)
        ensures
            r@ == order::ascending(self@.reading().raw_heads(*cell)),
            order::is_ascending(r@),
            r@.no_duplicates(),
            r@.to_set() == self@.reading().raw_heads(*cell),
            forall|id: FactId| #[trigger] r@.contains(id) <==> self@.reading().raw_heads(*cell).contains(id),
    {
        if self.indexes_current() {
            return list_at(&self.index.cell_heads, cell);
        }
        let list = self.facts.keys();
        let n: usize = list.len();
        let mut all: OrdSet<FactId> = OrdSet::new();
        assert(list@.take(0).to_set() =~= Set::<FactId>::empty());
        let ghost keep = |id: FactId| self@.facts[id].advances(*cell);
        assert(all@ =~= list@.take(0).to_set().filter(keep));
        for i in 0..n
            invariant
                n == list@.len(),
                forall|k: FactId| #[trigger] list@.contains(k) <==> self@.facts.contains_key(k),
                keep == (|id: FactId| self@.facts[id].advances(*cell)),
                all@ == list@.take(i as int).to_set().filter(keep),
        {
            proof {
                ordset::lemma_take_set(list@, i as int);
                assert(list@.contains(list@[i as int]));
            }
            let cells = self.facts.value(&list[i]).content.body.exclusive_cells();
            if holds(&cells, cell) {
                all.insert(list[i]);
            }
            assert(all@ =~= list@.take(i + 1).to_set().filter(keep));
        }
        assert(list@.take(n as int) =~= list@);
        assert(all@ =~= self@.facts.dom().filter(
            |id: FactId| self@.facts[id].advances(*cell),
        ));
        self.tops(&all).to_vec()
    }

    pub fn selector_provenance_complete(&self, subject: &DeviceId) -> (r: bool)
        ensures
            r == self@.reading().provenance_complete(*subject),
    {
        let list = list_at(&self.index.selectors, subject);
        let n: usize = list.len();
        for i in 0..n
            invariant
                n == list@.len(),
                list@.to_set() == multimap::at(self@.index.selectors, *subject),
                forall|j: int|
                    0 <= j < i ==> (relation_of(
                        self@.index.provenance,
                        (#[trigger] list@[j]).selector,
                        list@[j].selector,
                    ) matches Some(r) && r.post_selector && r.selected == list@[j].selected),
        {
            let s = list[i];
            let good = match self.relation(&s.selector, &s.selector) {
                Some(r) => r.post_selector && r.selected.same(&s.selected),
                None => false,
            };
            if !good {
                assert(list@.contains(list@[i as int]));
                assert(multimap::at(self@.index.selectors, *subject).contains(s));
                return false;
            }
        }
        assert forall|s: crate::graph::Selection| #[trigger]
            multimap::at(self@.index.selectors, *subject).contains(s) implies (relation_of(
            self@.index.provenance,
            s.selector,
            s.selector,
        ) matches Some(r) && r.post_selector && r.selected == s.selected) by {
            assert(list@.contains(s));
            let j = choose|j: int| 0 <= j < list@.len() && list@[j] == s;
            assert(list@[j].selector == s.selector);
        }
        true
    }

    pub fn ancestral_typed_selectors(&self, subject: &DeviceId, heads: &Vec<FactId>) -> (r: OrdSet<
        FactId,
    >)
        ensures
            r@ == self@.reading().ancestral_selectors(*subject, heads@.to_set()),
    {
        let n: usize = heads.len();
        let mut r: OrdSet<FactId> = OrdSet::new();
        let ghost g = self@.reading();
        assert(r@ =~= g.ancestral_selectors(*subject, heads@.take(0).to_set())) by {
            assert(heads@.take(0).to_set() =~= Set::<FactId>::empty());
        }
        for i in 0..n
            invariant
                n == heads@.len(),
                g == self@.reading(),
                r@ == g.ancestral_selectors(*subject, heads@.take(i as int).to_set()),
        {
            let ghost before = r@;
            let head = heads[i];
            let ghost want = |s: FactId|
                is_post(g.index.provenance, head, s) && selects(
                    g.facts,
                    s,
                    *subject,
                    g.index.provenance[head][s].selected,
                );
            if let Some(row) = self.index.provenance.get(&head) {
                let keys = row.keys();
                let m: usize = keys.len();
                assert(keys@.take(0).to_set() =~= Set::<FactId>::empty());
                assert(r@ =~= before.union(keys@.take(0).to_set().filter(want)));
                for j in 0..m
                    invariant
                        m == keys@.len(),
                        g == self@.reading(),
                        g.index.provenance.contains_key(head),
                        row@ == g.index.provenance[head],
                        forall|k: FactId| #[trigger] keys@.contains(k) <==> row@.contains_key(k),
                        want == (|s: FactId|
                            is_post(g.index.provenance, head, s) && selects(
                                g.facts,
                                s,
                                *subject,
                                g.index.provenance[head][s].selected,
                            )),
                        r@ == before.union(keys@.take(j as int).to_set().filter(want)),
                {
                    proof {
                        ordset::lemma_take_set(keys@, j as int);
                        assert(keys@.contains(keys@[j as int]));
                    }
                    let s = keys[j];
                    let relation = row.value(&s);
                    if relation.post_selector {
                        if let Some(f) = self.facts.get(&s) {
                            if let FactBody::AuthorityLineageResolution {
                                subject: about,
                                selected_head,
                                ..
                            } = &f.content.body {
                                if about.same(subject) && selected_head.same(&relation.selected) {
                                    r.insert(s);
                                }
                            }
                        }
                    }
                    assert(r@ =~= before.union(keys@.take(j + 1).to_set().filter(want)));
                }
                assert(keys@.take(m as int) =~= keys@);
            }
            proof {
                ordset::lemma_take_set(heads@, i as int);
                let small = heads@.take(i as int).to_set();
                let big = heads@.take(i + 1).to_set();
                assert forall|s: FactId| #[trigger]
                    r@.contains(s) <==> g.ancestral_selectors(*subject, big).contains(s) by {
                    assert(r@.contains(s) <==> before.contains(s) || want(s));
                    if before.contains(s) {
                        let h = choose|h: FactId| #[trigger]
                            small.contains(h) && is_post(g.index.provenance, h, s) && selects(
                                g.facts,
                                s,
                                *subject,
                                g.index.provenance[h][s].selected,
                            );
                        assert(big.contains(h));
                    }
                    if want(s) {
                        assert(big.contains(head));
                    }
                    if g.ancestral_selectors(*subject, big).contains(s) {
                        let h = choose|h: FactId| #[trigger]
                            big.contains(h) && is_post(g.index.provenance, h, s) && selects(
                                g.facts,
                                s,
                                *subject,
                                g.index.provenance[h][s].selected,
                            );
                        if h != head {
                            assert(small.contains(h));
                        }
                    }
                }
                assert(r@ =~= g.ancestral_selectors(*subject, big));
            }
        }
        assert(heads@.take(n as int) =~= heads@);
        r
    }

    /// Of the candidates, those that no other has behind it.
    fn latest(&self, candidates: &OrdSet<FactId>) -> (r: OrdSet<FactId>)
        ensures
            r@ == maxima(self@.index.provenance, candidates@),
    {
        let list = candidates.to_vec();
        let n: usize = list.len();
        let mut r: OrdSet<FactId> = OrdSet::new();
        let ghost p = self@.index.provenance;
        let ghost top = |c: FactId|
            !exists|other: FactId|
                candidates@.contains(other) && other != c && #[trigger] is_post(p, other, c);
        assert(list@.take(0).to_set() =~= Set::<FactId>::empty());
        assert(r@ =~= list@.take(0).to_set().filter(top));
        for i in 0..n
            invariant
                n == list@.len(),
                p == self@.index.provenance,
                forall|k: FactId| #[trigger] list@.contains(k) <==> candidates@.contains(k),
                top == (|c: FactId|
                    !exists|other: FactId|
                        candidates@.contains(other) && other != c && #[trigger] is_post(
                            p,
                            other,
                            c,
                        )),
                r@ == list@.take(i as int).to_set().filter(top),
        {
            let mut beaten = false;
            for j in 0..n
                invariant
                    n == list@.len(),
                    i < n,
                    p == self@.index.provenance,
                    beaten <==> exists|k: int|
                        0 <= k < j && #[trigger] list@[k] != list@[i as int] && is_post(
                            p,
                            list@[k],
                            list@[i as int],
                        ),
            {
                if !list[i].same(&list[j]) && self.post(&list[j], &list[i]) {
                    beaten = true;
                    assert(list@[j as int] != list@[i as int]);
                }
            }
            proof {
                let id = list@[i as int];
                assert(beaten <==> !top(id)) by {
                    if !top(id) {
                        let other = choose|other: FactId|
                            candidates@.contains(other) && other != id && #[trigger] is_post(
                                p,
                                other,
                                id,
                            );
                        assert(list@.contains(other));
                        let k = choose|k: int| 0 <= k < list@.len() && list@[k] == other;
                        assert(list@[k] != id);
                    }
                    if beaten {
                        let k = choose|k: int|
                            0 <= k < n && #[trigger] list@[k] != list@[i as int] && is_post(
                                p,
                                list@[k],
                                list@[i as int],
                            );
                        assert(list@.contains(list@[k]));
                    }
                }
                ordset::lemma_take_set(list@, i as int);
            }
            if !beaten {
                r.insert(list[i]);
            }
            assert(r@ =~= list@.take(i + 1).to_set().filter(top));
        }
        assert(list@.take(n as int) =~= list@);
        assert(r@ =~= maxima(p, candidates@));
        r
    }

    pub fn maximal_typed_selectors(&self, subject: &DeviceId, heads: &Vec<FactId>) -> (r: Vec<
        FactId,
    >)
        ensures
            r@ == order::ascending(self@.reading().maximal_selectors(*subject, heads@.to_set())),
            r@.to_set() == self@.reading().maximal_selectors(*subject, heads@.to_set()),
    {
        let candidates = self.ancestral_typed_selectors(subject, heads);
        self.latest(&candidates).to_vec()
    }

    pub fn selector_permits_fact(&self, selector: &FactId, id: &FactId) -> (r: bool)
        ensures
            r == permits(self@.reading(), *selector, *id),
    {
        match (self.selection(selector), self.relation(id, selector)) {
            (Some(selected), Some(r)) => r.selected.same(&selected) && r.any(),
            _ => false,
        }
    }

    fn permitted_by_all(&self, selectors: &Vec<FactId>, id: &FactId) -> (r: bool)
        ensures
            r == all_permit(self@.reading(), selectors@, *id),
    {
        let n: usize = selectors.len();
        for i in 0..n
            invariant
                n == selectors@.len(),
                forall|j: int| 0 <= j < i ==> permits(self@.reading(), #[trigger] selectors@[j], *id),
        {
            if !self.selector_permits_fact(&selectors[i], id) {
                return false;
            }
        }
        true
    }

    /// Evaluate context relevance newest-first. A selector on the losing
    /// branch of a later selector must not veto its selected competitor; an
    /// earlier selector common to both later branches still applies.
    pub fn relevant_typed_selectors(&self, subject: &DeviceId, heads: &Vec<FactId>) -> (r: Option<
        Vec<FactId>,
    >)
        ensures
            match r {
                Some(list) => self@.reading().relevant_selectors(*subject, heads@.to_set()) == Some(list@),
                None => self@.reading().relevant_selectors(*subject, heads@.to_set()) is None,
            },
    {
        let ghost g = self@.reading();
        let mut pending = self.ancestral_typed_selectors(subject, heads);
        let mut relevant: Vec<FactId> = Vec::new();
        let ghost whole = g.relevant_selectors(*subject, heads@.to_set());
        let _ = pending.len();
        while !pending.is_empty()
            invariant
                g == self@.reading(),
                pending@.finite(),
                whole == g.relevant_selectors(*subject, heads@.to_set()),
                relevant_from(g, pending@, relevant@) == whole,
            decreases pending@.len(),
        {
            let top = self.latest(&pending);
            if top.is_empty() {
                // Canonical signed history is acyclic. A damaged in-memory
                // summary must not erase its exclusions on a cycle.
                assert(whole is None);
                return None;
            }
            let list = top.to_vec();
            let n: usize = list.len();
            let mut permitted: OrdSet<FactId> = OrdSet::new();
            let ghost pending0 = pending@;
            let ghost ok = |c: FactId| all_permit(g, relevant@, c);
            assert(list@.take(0).to_set() =~= Set::<FactId>::empty());
            assert(permitted@ =~= list@.take(0).to_set().filter(ok));
            assert(pending@ =~= pending0.difference(list@.take(0).to_set()));
            for i in 0..n
                invariant
                    n == list@.len(),
                    g == self@.reading(),
                    ok == (|c: FactId| all_permit(g, relevant@, c)),
                    permitted@ == list@.take(i as int).to_set().filter(ok),
                    pending@ == pending0.difference(list@.take(i as int).to_set()),
            {
                proof {
                    ordset::lemma_take_set(list@, i as int);
                }
                if self.permitted_by_all(&relevant, &list[i]) {
                    permitted.insert(list[i]);
                }
                pending.remove(&list[i]);
                assert(permitted@ =~= list@.take(i + 1).to_set().filter(ok));
                assert(pending@ =~= pending0.difference(list@.take(i + 1).to_set()));
            }
            proof {
                assert(list@.take(n as int) =~= list@);
                lemma_fewer(pending0, top@);
                assert(permitted@ =~= top@.filter(|c: FactId| all_permit(g, relevant@, c)));
            }
            let more = permitted.to_vec();
            append_keys(&mut relevant, &more);
        }
        assert(pending@ == Set::<FactId>::empty());
        Some(relevant)
    }

    /// Return a branch selected by the unique latest typed lineage selector.
    /// Ordinary same-cell resolutions never establish this persistent
    /// relation; their projection is handled by the exclusive cell itself.
    fn selected_authority_branch(&self, subject: &DeviceId, heads: &Vec<FactId>) -> (r: Option<
        FactId,
    >)
        requires
            order::is_ascending(heads@),
        ensures
            r == self@.reading().selected_branch(*subject, heads@.to_set()),
    {
        proof {
            order::lemma_ascending_of(heads@);
        }
        if heads.len() != 1 {
            return None;
        }
        let selectors = self.maximal_typed_selectors(subject, heads);
        if selectors.len() != 1 {
            return None;
        }
        self.selection(&selectors[0])
    }

    /// Return the semantic owner's complete current AuthorityLineage relation.
    /// The returned value is graph-derived and cannot be supplied by a fact,
    /// transport envelope, or compatibility role map.
    pub fn authority_lineage(&self, subject: &DeviceId) -> (r: AuthorityLineage)
        ensures
            r@ == self@.reading().lineage(*subject),
            r@.heads.to_set() == self@.reading().authority_heads(*subject),
            order::is_ascending(r@.heads),
    {
        let heads = self.raw_authority_use_heads(subject);
        let selected_branch = self.selected_authority_branch(subject, &heads);
        AuthorityLineage::from_heads(*subject, heads, selected_branch)
    }

    pub fn authority_use_heads(&self, subject: &DeviceId) -> (r: Vec<FactId>)
        ensures
            r@ == order::ascending(self@.reading().authority_heads(*subject)),
            order::is_ascending(r@),
            r@.no_duplicates(),
            r@.to_set() == self@.reading().authority_heads(*subject),
    {
        self.raw_authority_use_heads(subject)
    }

    fn ask(
        &self,
        pools: Option<&Vec<Pool>>,
        ancestor: &FactId,
        descendant: &FactId,
    ) -> (r: Result<bool, Gap>)
        ensures
            r == ancestry(self@.facts, history_view(pools), *ancestor, *descendant),
    {
        let list = match pools {
            None => {
                return Ok(self.is_ancestor(ancestor, descendant));
            },
            Some(p) => p,
        };
        if let Some(reachable) = parent_reachability(&self.facts, ancestor, descendant) {
            return Ok(reachable);
        }
        let ghost views = pools_view(list@);
        let mut i: usize = list.len();
        assert(views.take(i as int) =~= views);
        while i > 0
            invariant
                i <= list@.len(),
                pools == Some(list),
                views == pools_view(list@),
                reachability(self@.facts, *ancestor, *descendant) is None,
                covering(views, *descendant) == covering(views.take(i as int), *descendant),
            decreases i,
        {
            let pool = &list[i - 1];
            proof {
                let shorter = views.take(i as int);
                assert(shorter.last() == pool@);
                assert(shorter.drop_last() =~= views.take(i - 1));
            }
            if pool.rows.contains_key(descendant) {
                return match parent_reachability(&pool.rows, ancestor, descendant) {
                    Some(reachable) => Ok(reachable),
                    None => Err(Gap::Invalid("incomplete signed-parent ancestry")),
                };
            }
            i -= 1;
        }
        Err(Gap::Wanted(*descendant))
    }

    fn common_ancestor(&self, pools: Option<&Vec<Pool>>, id: &FactId, heads: &Vec<FactId>) -> (r:
        Result<bool, Gap>)
        ensures
            r == is_common(self@.facts, history_view(pools), *id, heads@),
    {
        let n: usize = heads.len();
        let ghost whole = is_common(self@.facts, history_view(pools), *id, heads@);
        assert(heads@.skip(0) =~= heads@);
        for i in 0..n
            invariant
                n == heads@.len(),
                whole == is_common(self@.facts, history_view(pools), *id, heads@),
                whole == is_common(self@.facts, history_view(pools), *id, heads@.skip(i as int)),
        {
            proof {
                let rest = heads@.skip(i as int);
                assert(rest[0] == heads@[i as int]);
                assert(rest.drop_first() =~= heads@.skip(i + 1));
            }
            if !id.same(&heads[i]) {
                match self.ask(pools, id, &heads[i]) {
                    Ok(true) => {},
                    other => {
                        return other;
                    },
                }
            }
        }
        Ok(true)
    }

    fn beaten(&self, pools: Option<&Vec<Pool>>, id: &FactId, others: &Vec<FactId>) -> (r: Result<
        bool,
        Gap,
    >)
        ensures
            r == is_beaten(self@.facts, history_view(pools), *id, others@),
    {
        let n: usize = others.len();
        let ghost whole = is_beaten(self@.facts, history_view(pools), *id, others@);
        assert(others@.skip(0) =~= others@);
        for i in 0..n
            invariant
                n == others@.len(),
                whole == is_beaten(self@.facts, history_view(pools), *id, others@),
                whole == is_beaten(self@.facts, history_view(pools), *id, others@.skip(i as int)),
        {
            proof {
                let rest = others@.skip(i as int);
                assert(rest[0] == others@[i as int]);
                assert(rest.drop_first() =~= others@.skip(i + 1));
            }
            if !id.same(&others[i]) {
                match self.ask(pools, id, &others[i]) {
                    Ok(false) => {},
                    other => {
                        return other;
                    },
                }
            }
        }
        Ok(false)
    }

    /// The lineage heads that a fact carries among its signed parents.
    /// Authoring witnesses carry the current AuthorityUse heads directly in
    /// the signed parent list: an incomplete signed witness is
    /// authority-negative.
    fn authority_use_heads_from_parents_with(
        &self,
        pools: Option<&Vec<Pool>>,
        fact: &SignedFact,
        subject: &DeviceId,
    ) -> (r: Result<Vec<FactId>, Gap>)
        ensures
            match r {
                Ok(list) => heads_from_parents(self@.facts, history_view(pools), fact@, *subject)
                    == Ok::<Seq<FactId>, Gap>(list@),
                Err(e) => heads_from_parents(self@.facts, history_view(pools), fact@, *subject)
                    == Err::<Seq<FactId>, Gap>(e),
            },
    {
        let parents = &fact.content.parents;
        let n: usize = parents.len();
        let mut direct: Vec<FactId> = Vec::new();
        for i in 0..n
            invariant
                n == parents@.len(),
                parents == &fact.content.parents,
                direct@ == direct_uses(self@.facts, parents@, *subject, i as int),
        {
            if let Some(f) = self.facts.get(&parents[i]) {
                if f.find_use(subject).is_some() && !f.is_payload_local(subject) {
                    direct.push(parents[i]);
                }
            }
        }
        let m: usize = direct.len();
        let mut kept: Vec<FactId> = Vec::new();
        let ghost whole = unbeaten(self@.facts, history_view(pools), direct@, m as int);
        for i in 0..m
            invariant
                m == direct@.len(),
                unbeaten(self@.facts, history_view(pools), direct@, i as int) == Ok::<
                    Seq<FactId>,
                    Gap,
                >(kept@),
                whole == unbeaten(self@.facts, history_view(pools), direct@, m as int),
                whole == heads_from_parents(self@.facts, history_view(pools), fact@, *subject),
        {
            match self.beaten(pools, &direct[i], &direct) {
                Ok(true) => {},
                Ok(false) => {
                    kept.push(direct[i]);
                },
                Err(e) => {
                    proof {
                        lemma_unbeaten_err(
                            self@.facts,
                            history_view(pools),
                            direct@,
                            i + 1,
                            m as int,
                        );
                    }
                    return Err(e);
                },
            }
        }
        Ok(kept)
    }

    /// Whether the fact holds its place in the lineage of one subject.
    fn holds_place(&self, pools: Option<&Vec<Pool>>, fact: &SignedFact, subject: &DeviceId) -> (r:
        Result<bool, Gap>)
        ensures
            r == subject_verdict(self@.reading(), history_view(pools), fact@, *subject),
    {
        let payload_local = fact.is_payload_local(subject);
        let heads = self.raw_authority_use_heads(subject);
        if !payload_local {
            if !self.selector_provenance_complete(subject) {
                return Ok(false);
            }
            if self.maximal_typed_selectors(subject, &heads).len() > 1 {
                return Ok(false);
            }
            if heads.len() > 1 {
                // Concurrent signed uses are an explicit authority fork. A
                // later resolution can supersede the fork because it becomes
                // the sole head and cites both branches. Common causal
                // ancestors remain authoritative.
                match self.common_ancestor(pools, &fact.id, &heads) {
                    Ok(true) => {},
                    other => {
                        return other;
                    },
                }
            }
        }
        let signed = match fact.find_use(subject) {
            Some(i) => &fact.content.authority_uses[i].predecessors,
            None => {
                return Ok(false);
            },
        };
        let expected = match self.authority_use_heads_from_parents_with(pools, fact, subject) {
            Ok(list) => list,
            Err(e) => {
                return Err(e);
            },
        };
        if !same_keys(signed, &expected) {
            return Ok(false);
        }
        if payload_local {
            return Ok(true);
        }
        match self.relevant_typed_selectors(subject, &heads) {
            // An unresolved ordinary fork selects no branch. It is not proof
            // that earlier typed exclusions disappeared: all still-relevant
            // selectors apply.
            Some(selectors) => Ok(self.permitted_by_all(&selectors, &fact.id)),
            None => Ok(false),
        }
    }

    fn fact_is_authoritative_with(&self, pools: Option<&Vec<Pool>>, id: &FactId) -> (r: Result<
        bool,
        Gap,
    >)
        ensures
            r == verdict(self@.reading(), history_view(pools), *id),
    {
        proof {
            reveal(verdict);
        }
        let fact = match self.facts.get(id) {
            Some(f) => f,
            None => {
                return Ok(false);
            },
        };
        let subjects = fact.content.body.authority_use_subjects(&fact.content.author);
        let n: usize = subjects.len();
        let ghost whole = subjects_verdict(self@.reading(), history_view(pools), fact@, subjects@);
        assert(subjects@.skip(0) =~= subjects@);
        for i in 0..n
            invariant
                n == subjects@.len(),
                whole == verdict(self@.reading(), history_view(pools), *id),
                whole == subjects_verdict(
                    self@.reading(),
                    history_view(pools),
                    fact@,
                    subjects@.skip(i as int),
                ),
        {
            proof {
                let rest = subjects@.skip(i as int);
                assert(rest[0] == subjects@[i as int]);
                assert(rest.drop_first() =~= subjects@.skip(i + 1));
            }
            match self.holds_place(pools, fact, &subjects[i]) {
                Ok(true) => {},
                other => {
                    return other;
                },
            }
        }
        Ok(true)
    }

    /// Whether one admitted fact still belongs to its signed profile lineage.
    /// The signed predecessor set is evaluated against the fact's own causal
    /// past, not receiver arrival order. Concurrent forks remain explicit
    /// conflicting heads and therefore fail closed in projection.
    pub fn fact_is_authoritative(&self, id: &FactId) -> (r: bool)
        ensures
            r == is_authoritative(self@.reading(), *id),
    {
        match self.fact_is_authoritative_with(None, id) {
            Ok(r) => r,
            Err(_) => false,
        }
    }

    pub(crate) fn cell_heads_with_ancestry(&self, pools: Option<&Vec<Pool>>, cell: &ExclusiveCell) -> (r:
        Result<Vec<FactId>, Gap>)
        ensures
            match r {
                Ok(list) => cell_heads_with(self@.reading(), history_view(pools), *cell) == Ok::<
                    Seq<FactId>,
                    Gap,
                >(list@),
                Err(e) => cell_heads_with(self@.reading(), history_view(pools), *cell) == Err::<
                    Seq<FactId>,
                    Gap,
                >(e),
            },
    {
        let raw = self.raw_cell_heads(cell);
        let n: usize = raw.len();
        let mut kept: Vec<FactId> = Vec::new();
        for i in 0..n
            invariant
                n == raw@.len(),
                raw@ == order::ascending(self@.reading().raw_heads(*cell)),
                counted(self@.reading(), history_view(pools), raw@, i as int) == Ok::<Seq<FactId>, Gap>(
                    kept@,
                ),
        {
            match self.fact_is_authoritative_with(pools, &raw[i]) {
                Ok(true) => {
                    kept.push(raw[i]);
                },
                Ok(false) => {},
                Err(e) => {
                    proof {
                        lemma_counted_err(self@.reading(), history_view(pools), raw@, i + 1, n as int);
                    }
                    return Err(e);
                },
            }
        }
        if kept.len() == 0 && raw.len() > 1 {
            // A concurrent AuthorityUse fork may make each branch
            // individually ineligible; retain the raw incomparable set so
            // projection exposes an explicit conflict rather than silently
            // erasing the cell.
            Ok(raw)
        } else {
            Ok(kept)
        }
    }

    pub fn cell_heads(&self, cell: &ExclusiveCell) -> (r: Vec<FactId>)
        ensures
            r@ == cell_heads(self@.reading(), *cell),
            order::is_ascending(r@),
            r@.no_duplicates(),
    {
        let raw = self.raw_cell_heads(cell);
        let n: usize = raw.len();
        let mut kept: OrdSet<FactId> = OrdSet::new();
        let ghost keep = |id: FactId| is_authoritative(self@.reading(), id);
        assert(raw@.take(0).to_set() =~= Set::<FactId>::empty());
        assert(kept@ =~= raw@.take(0).to_set().filter(keep));
        for i in 0..n
            invariant
                n == raw@.len(),
                keep == (|id: FactId| is_authoritative(self@.reading(), id)),
                kept@ == raw@.take(i as int).to_set().filter(keep),
        {
            proof {
                ordset::lemma_take_set(raw@, i as int);
            }
            if self.fact_is_authoritative(&raw[i]) {
                kept.insert(raw[i]);
            }
            assert(kept@ =~= raw@.take(i + 1).to_set().filter(keep));
        }
        proof {
            assert(raw@.take(n as int) =~= raw@);
            assert(kept@ =~= self@.reading().raw_heads(*cell).filter(
                |id: FactId| is_authoritative(self@.reading(), id),
            ));
        }
        if kept.is_empty() && raw.len() > 1 {
            raw
        } else {
            kept.to_vec()
        }
    }

    /// Return the incomparable head set only when the cell is conflicted.
    pub fn conflict_heads(&self, cell: &ExclusiveCell) -> (r: Option<Vec<FactId>>)
        ensures
            match r {
                Some(heads) => heads@ == cell_heads(self@.reading(), *cell) && heads@.len() > 1,
                None => cell_heads(self@.reading(), *cell).len() <= 1,
            },
    {
        let heads = self.cell_heads(cell);
        if heads.len() > 1 {
            Some(heads)
        } else {
            None
        }
    }
}

proof fn lemma_unbeaten_err(
    facts: Facts,
    pools: Option<Pools>,
    ids: Seq<FactId>,
    i: int,
    n: int,
)
    requires
        0 <= i <= n,
        unbeaten(facts, pools, ids, i) is Err,
    ensures
        unbeaten(facts, pools, ids, n) == unbeaten(facts, pools, ids, i),
    decreases n - i,
{
    if i < n {
        lemma_unbeaten_err(facts, pools, ids, i, n - 1);
    }
}

proof fn lemma_counted_err(g: Reading, pools: Option<Pools>, ids: Seq<FactId>, i: int, n: int)
    requires
        0 <= i <= n,
        counted(g, pools, ids, i) is Err,
    ensures
        counted(g, pools, ids, n) == counted(g, pools, ids, i),
    decreases n - i,
{
    if i < n {
        lemma_counted_err(g, pools, ids, i, n - 1);
    }
}

} // verus!

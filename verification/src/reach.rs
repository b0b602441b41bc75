//! Reachability along the edges of a finite graph.
//!
//! A set is closed when it holds whatever an edge leads to from its members.
//! What is reachable from some roots is what every closed set that holds the
//! roots holds.

use vstd::prelude::*;

use crate::content;
use crate::fact::{dependencies, Facts, FactView, SignedFact};
use crate::ids::FactId;
use crate::ordmap::OrdMap;
use crate::ordset::{append_keys, copy_keys, OrdSet};

verus! {

/// Where the edges of each node lead, in order.
pub type EdgeMap = Map<FactId, Seq<FactId>>;

/// Whether every edge from a member of `set` leads to a member.
pub open spec fn closed(edges: EdgeMap, set: Set<FactId>) -> bool {
    forall|x: FactId, y: FactId|
        set.contains(x) && edges.contains_key(x) && #[trigger] edges[x].contains(y)
            ==> #[trigger] set.contains(y)
}

/// What is reachable from `roots`, the roots among them.
pub open spec fn reach(edges: EdgeMap, roots: Set<FactId>) -> Set<FactId> {
    Set::new(
        |x: FactId|
            forall|set: Set<FactId>|
                #![trigger closed(edges, set)]
                closed(edges, set) && roots.subset_of(set) ==> set.contains(x),
    )
}

/// The signed parents of each fact.
pub open spec fn parent_edges(facts: Facts) -> EdgeMap {
    facts.map_values(|f: FactView| f.content.parents)
}

/// The dependencies of each fact.
pub open spec fn input_edges(facts: Facts) -> EdgeMap {
    facts.map_values(|f: FactView| f.dependencies())
}

/// The facts together with a candidate.
pub open spec fn overlay(facts: Facts, candidate: Option<FactView>) -> Facts {
    match candidate {
        Some(f) => facts.insert(f.id, f),
        None => facts,
    }
}

/// Whether a chain of signed parents leads from `descendant` to `ancestor`.
pub open spec fn is_ancestor(facts: Facts, ancestor: FactId, descendant: FactId) -> bool {
    facts.contains_key(descendant) && reach(
        parent_edges(facts),
        facts[descendant].content.parents.to_set(),
    ).contains(ancestor)
}

/// Whether `head` is among `inputs` or behind them.
pub open spec fn is_dominated(facts: Facts, inputs: Set<FactId>, head: FactId) -> bool {
    reach(input_edges(facts), inputs).contains(head)
}

pub proof fn lemma_reach_closed(edges: EdgeMap, roots: Set<FactId>)
    ensures
        closed(edges, reach(edges, roots)),
        roots.subset_of(reach(edges, roots)),
{
    let r = reach(edges, roots);
    assert forall|x: FactId, y: FactId|
        r.contains(x) && edges.contains_key(x) && #[trigger] edges[x].contains(
            y,
        ) implies #[trigger] r.contains(y) by {
        assert forall|set: Set<FactId>|
            #![trigger closed(edges, set)]
            closed(edges, set) && roots.subset_of(set) implies set.contains(y) by {
            assert(set.contains(x));
        }
    }
}

/// Every closed set that holds the roots holds what is reachable.
pub proof fn lemma_reach_least(edges: EdgeMap, roots: Set<FactId>, set: Set<FactId>)
    requires
        closed(edges, set),
        roots.subset_of(set),
    ensures
        reach(edges, roots).subset_of(set),
{
}

/// A closed set that holds the roots and nothing unreachable is what is
/// reachable.
pub proof fn lemma_reach_is(edges: EdgeMap, roots: Set<FactId>, set: Set<FactId>)
    requires
        closed(edges, set),
        roots.subset_of(set),
        set.subset_of(reach(edges, roots)),
    ensures
        reach(edges, roots) == set,
{
    lemma_reach_least(edges, roots, set);
    assert(reach(edges, roots) =~= set);
}

/// More roots reach more.
pub proof fn lemma_reach_monotone(edges: EdgeMap, a: Set<FactId>, b: Set<FactId>)
    requires
        a.subset_of(reach(edges, b)),
    ensures
        reach(edges, a).subset_of(reach(edges, b)),
{
    lemma_reach_closed(edges, b);
    lemma_reach_least(edges, a, reach(edges, b));
}

/// What a node reaches is itself and what its edges reach.
pub proof fn lemma_reach_step(edges: EdgeMap, x: FactId)
    ensures
        edges.contains_key(x) ==> reach(edges, set![x]) == reach(edges, edges[x].to_set()).insert(
            x,
        ),
        !edges.contains_key(x) ==> reach(edges, set![x]) == set![x],
{
    let all = reach(edges, set![x]);
    lemma_reach_closed(edges, set![x]);
    if edges.contains_key(x) {
        let next = edges[x].to_set();
        let rest = reach(edges, next);
        lemma_reach_closed(edges, next);
        let whole = rest.insert(x);
        assert(closed(edges, whole)) by {
            assert forall|a: FactId, b: FactId|
                whole.contains(a) && edges.contains_key(a) && #[trigger] edges[a].contains(
                    b,
                ) implies #[trigger] whole.contains(b) by {
                if a == x {
                    assert(next.contains(b));
                }
            }
        }
        assert(next.subset_of(all)) by {
            assert forall|b: FactId| next.contains(b) implies all.contains(b) by {
                assert(edges[x].contains(b));
                assert(all.contains(x));
            }
        }
        lemma_reach_monotone(edges, next, set![x]);
        lemma_reach_is(edges, set![x], whole);
    } else {
        assert(closed(edges, set![x])) by {
            assert forall|a: FactId, b: FactId|
                set![x].contains(a) && edges.contains_key(a) && #[trigger] edges[a].contains(
                    b,
                ) implies #[trigger] set![x].contains(b) by {
                assert(a == x);
            }
        }
        lemma_reach_is(edges, set![x], set![x]);
    }
}

/// Ancestry is transitive.
pub proof fn ancestry_is_transitive(facts: Facts, a: FactId, b: FactId, c: FactId)
    requires
        is_ancestor(facts, a, b),
        is_ancestor(facts, b, c),
    ensures
        is_ancestor(facts, a, c),
{
    let edges = parent_edges(facts);
    let from_c = facts[c].content.parents.to_set();
    let from_b = facts[b].content.parents.to_set();
    lemma_reach_closed(edges, from_c);
    assert(from_b.subset_of(reach(edges, from_c))) by {
        assert forall|y: FactId| from_b.contains(y) implies reach(edges, from_c).contains(y) by {
            assert(edges[b].contains(y));
        }
    }
    lemma_reach_monotone(edges, from_b, from_c);
}

/// The strict walk: takes the last pending node, and stops at one that has no
/// entry.
pub open spec fn walk(edges: EdgeMap, pending: Seq<FactId>, seen: Set<FactId>) -> Result<
    Set<FactId>,
    FactId,
>
    decreases edges.dom().difference(seen).len(), pending.len(),
    when edges.dom().finite()
{
    if pending.len() == 0 {
        Ok(seen)
    } else {
        let id = pending.last();
        if seen.contains(id) {
            walk(edges, pending.drop_last(), seen)
        } else if !edges.contains_key(id) {
            Err(id)
        } else {
            proof {
                lemma_unseen(edges, seen, id);
            }
            walk(edges, pending.drop_last() + edges[id], seen.insert(id))
        }
    }
}

/// Seeing a node leaves fewer unseen.
pub proof fn lemma_unseen(edges: EdgeMap, seen: Set<FactId>, id: FactId)
    requires
        edges.dom().finite(),
    ensures
        edges.dom().difference(seen).finite(),
        edges.contains_key(id) && !seen.contains(id) ==> edges.dom().difference(
            seen.insert(id),
        ).len() < edges.dom().difference(seen).len(),
        edges.dom().difference(seen.insert(id)).len() <= edges.dom().difference(seen).len(),
        !edges.contains_key(id) ==> edges.dom().difference(seen.insert(id)) == edges.dom().difference(
            seen,
        ),
{
    let rest = edges.dom().difference(seen);
    assert(edges.dom().difference(seen.insert(id)) =~= rest.remove(id));
    if !edges.contains_key(id) {
        assert(rest.remove(id) =~= rest);
    }
}

proof fn lemma_walk_from(edges: EdgeMap, pending: Seq<FactId>, seen: Set<FactId>)
    requires
        edges.dom().finite(),
    ensures
        match walk(edges, pending, seen) {
            Ok(all) => {
                &&& seen.subset_of(all)
                &&& pending.to_set().subset_of(all)
                &&& forall|x: FactId|
                    all.contains(x) && !seen.contains(x) ==> #[trigger] edges.contains_key(x)
                &&& forall|x: FactId, y: FactId|
                    all.contains(x) && !seen.contains(x) && #[trigger] edges[x].contains(y)
                        ==> #[trigger] all.contains(y)
                &&& forall|set: Set<FactId>|
                    #![trigger closed(edges, set)]
                    closed(edges, set) && seen.subset_of(set) && pending.to_set().subset_of(set)
                        ==> all.subset_of(set)
            },
            Err(x) => {
                &&& !edges.contains_key(x)
                &&& !seen.contains(x)
                &&& forall|set: Set<FactId>|
                    #![trigger closed(edges, set)]
                    closed(edges, set) && seen.subset_of(set) && pending.to_set().subset_of(set)
                        ==> set.contains(x)
            },
        },
    decreases edges.dom().difference(seen).len(), pending.len(),
{
    if pending.len() > 0 {
        let id = pending.last();
        let rest = pending.drop_last();
        assert(pending =~= rest.push(id));
        content::lemma_push_set(rest, id);
        if seen.contains(id) {
            lemma_walk_from(edges, rest, seen);
        } else if edges.contains_key(id) {
            lemma_unseen(edges, seen, id);
            let more = rest + edges[id];
            content::lemma_concat_set(rest, edges[id]);
            lemma_walk_from(edges, more, seen.insert(id));
            assert forall|set: Set<FactId>|
                #![trigger closed(edges, set)]
                closed(edges, set) && seen.subset_of(set) && pending.to_set().subset_of(
                    set,
                ) implies seen.insert(id).subset_of(set) && more.to_set().subset_of(set) by {
                assert forall|y: FactId| more.to_set().contains(y) implies set.contains(y) by {
                    if edges[id].to_set().contains(y) {
                        assert(edges[id].contains(y));
                    }
                }
            }
            if let Ok(all) = walk(edges, pending, seen) {
                assert forall|x: FactId, y: FactId|
                    all.contains(x) && !seen.contains(x) && #[trigger] edges[x].contains(
                        y,
                    ) implies #[trigger] all.contains(y) by {
                    if x == id {
                        assert(more.to_set().contains(y)) by {
                            assert(edges[id].to_set().contains(y));
                        }
                    }
                }
            }
        }
    } else {
        assert(pending.to_set() =~= Set::empty());
    }
}

/// The strict walk succeeds when everything reachable has an entry, and then
/// collects exactly that; it fails at something reachable that has none.
pub proof fn walk_collects_what_is_reachable(edges: EdgeMap, roots: Seq<FactId>)
    requires
        edges.dom().finite(),
    ensures
        match walk(edges, roots, Set::empty()) {
            Ok(all) => all == reach(edges, roots.to_set()) && all.subset_of(edges.dom()),
            Err(x) => reach(edges, roots.to_set()).contains(x) && !edges.contains_key(x),
        },
        walk(edges, roots, Set::empty()) is Ok <==> reach(edges, roots.to_set()).subset_of(
            edges.dom(),
        ),
{
    lemma_walk_from(edges, roots, Set::empty());
    if let Ok(all) = walk(edges, roots, Set::empty()) {
        lemma_reach_closed(edges, roots.to_set());
        lemma_reach_is(edges, roots.to_set(), all);
    }
}

/// A graph whose edges can be listed node by node.
pub trait Edges {
    spec fn edges(&self) -> EdgeMap;

    /// The targets of the edges of `id`, if it has an entry.
    fn out(&self, id: &FactId) -> (r: Option<Vec<FactId>>)
        ensures
            match r {
                Some(targets) => self.edges().contains_key(*id) && targets@ == self.edges()[*id],
                None => !self.edges().contains_key(*id),
            },
    ;

    /// Whether there is no entry.
    fn no_entries(&self) -> (r: bool)
        ensures
            self.edges().dom().finite(),
            r <==> self.edges().dom() == Set::<FactId>::empty(),
    ;
}

/// Facts along their signed parents.
pub struct ParentEdges<'a> {
    pub facts: &'a OrdMap<FactId, SignedFact>,
}

impl<'a> Edges for ParentEdges<'a> {
    open spec fn edges(&self) -> EdgeMap {
        parent_edges(self.facts@)
    }

    fn out(&self, id: &FactId) -> (r: Option<Vec<FactId>>) {
        match self.facts.get(id) {
            Some(f) => Some(copy_keys(&f.content.parents)),
            None => None,
        }
    }

    fn no_entries(&self) -> (r: bool) {
        let _ = self.facts.len();
        assert(parent_edges(self.facts@).dom() =~= self.facts@.dom());
        self.facts.is_empty()
    }
}

/// Facts along their dependencies.
pub struct InputEdges<'a> {
    pub facts: &'a OrdMap<FactId, SignedFact>,
}

impl<'a> Edges for InputEdges<'a> {
    open spec fn edges(&self) -> EdgeMap {
        input_edges(self.facts@)
    }

    fn out(&self, id: &FactId) -> (r: Option<Vec<FactId>>) {
        match self.facts.get(id) {
            Some(f) => Some(dependencies(f)),
            None => None,
        }
    }

    fn no_entries(&self) -> (r: bool) {
        let _ = self.facts.len();
        assert(input_edges(self.facts@).dom() =~= self.facts@.dom());
        self.facts.is_empty()
    }
}

/// Facts along their signed parents, with a candidate among them.
pub struct OverlayEdges<'a> {
    pub facts: &'a OrdMap<FactId, SignedFact>,
    pub candidate: Option<&'a SignedFact>,
}

/// The view of a candidate.
pub open spec fn candidate_view(candidate: Option<&SignedFact>) -> Option<FactView> {
    match candidate {
        Some(f) => Some(f@),
        None => None,
    }
}

impl<'a> Edges for OverlayEdges<'a> {
    open spec fn edges(&self) -> EdgeMap {
        parent_edges(overlay(self.facts@, candidate_view(self.candidate)))
    }

    fn out(&self, id: &FactId) -> (r: Option<Vec<FactId>>) {
        if let Some(f) = self.candidate {
            if f.id.same(id) {
                return Some(copy_keys(&f.content.parents));
            }
        }
        match self.facts.get(id) {
            Some(f) => Some(copy_keys(&f.content.parents)),
            None => None,
        }
    }

    fn no_entries(&self) -> (r: bool) {
        let _ = self.facts.len();
        let ghost all = overlay(self.facts@, candidate_view(self.candidate));
        assert(self.edges().dom() =~= all.dom());
        if let Some(f) = self.candidate {
            assert(all.dom() =~= self.facts@.dom().insert(f.id));
            assert(all.dom().contains(f.id));
            return false;
        }
        self.facts.is_empty()
    }
}

/// The waiters of each dependency.
pub open spec fn waiter_edges(waiting: Map<FactId, Set<FactId>>) -> EdgeMap {
    waiting.map_values(|s: Set<FactId>| crate::order::ascending(s))
}

/// Dependencies along their waiters.
pub struct WaiterEdges<'a> {
    pub waiting: &'a OrdMap<FactId, OrdSet<FactId>>,
}

impl<'a> Edges for WaiterEdges<'a> {
    open spec fn edges(&self) -> EdgeMap {
        waiter_edges(self.waiting@)
    }

    fn out(&self, id: &FactId) -> (r: Option<Vec<FactId>>) {
        match self.waiting.get(id) {
            Some(s) => Some(s.to_vec()),
            None => None,
        }
    }

    fn no_entries(&self) -> (r: bool) {
        let _ = self.waiting.len();
        assert(waiter_edges(self.waiting@).dom() =~= self.waiting@.dom());
        self.waiting.is_empty()
    }
}

/// Collects what is reachable from `roots`; a node without an entry is a
/// dead end.
pub fn reach_set<E: Edges>(graph: &E, roots: &Vec<FactId>) -> (r: OrdSet<FactId>)
    ensures
        r@ == reach(graph.edges(), roots@.to_set()),
{
    let ghost edges = graph.edges();
    let ghost start = roots@.to_set();
    let _ = graph.no_entries();
    let mut pending: Vec<FactId> = copy_keys(roots);
    let mut seen: OrdSet<FactId> = OrdSet::new();
    proof {
        lemma_reach_closed(edges, start);
    }
    while pending.len() > 0
        invariant
            edges == graph.edges(),
            start == roots@.to_set(),
            edges.dom().finite(),
            closed(edges, reach(edges, start)),
            seen@.subset_of(reach(edges, start)),
            pending@.to_set().subset_of(reach(edges, start)),
            start.subset_of(seen@.union(pending@.to_set())),
            forall|x: FactId, y: FactId|
                seen@.contains(x) && edges.contains_key(x) && #[trigger] edges[x].contains(y)
                    ==> seen@.contains(y) || #[trigger] pending@.to_set().contains(y),
        decreases edges.dom().difference(seen@).len(), pending@.len(),
    {
        let ghost before = pending@;
        let ghost seen0 = seen@;
        let id = pending.pop().unwrap();
        proof {
            assert(before =~= pending@.push(id));
            content::lemma_push_set(pending@, id);
            lemma_unseen(edges, seen0, id);
        }
        if seen.insert(id) {
            if let Some(targets) = graph.out(&id) {
                let ghost rest = pending@;
                append_keys(&mut pending, &targets);
                proof {
                    content::lemma_concat_set(rest, targets@);
                    assert forall|y: FactId| pending@.to_set().contains(y) implies reach(
                        edges,
                        start,
                    ).contains(y) by {
                        if targets@.to_set().contains(y) {
                            assert(edges[id].contains(y));
                        }
                    }
                    assert forall|x: FactId, y: FactId|
                        seen@.contains(x) && edges.contains_key(x) && #[trigger] edges[x].contains(
                            y,
                        ) implies seen@.contains(y) || #[trigger] pending@.to_set().contains(y) by {
                        if x == id {
                            assert(targets@.to_set().contains(y));
                        } else {
                            assert(seen0.contains(y) || before.to_set().contains(y));
                        }
                    }
                }
            } else {
                assert forall|x: FactId, y: FactId|
                    seen@.contains(x) && edges.contains_key(x) && #[trigger] edges[x].contains(
                        y,
                    ) implies seen@.contains(y) || #[trigger] pending@.to_set().contains(y) by {
                    assert(seen0.contains(y) || before.to_set().contains(y));
                }
            }
        } else {
            assert(seen@ =~= seen0);
            assert forall|x: FactId, y: FactId|
                seen@.contains(x) && edges.contains_key(x) && #[trigger] edges[x].contains(
                    y,
                ) implies seen@.contains(y) || #[trigger] pending@.to_set().contains(y) by {
                assert(seen0.contains(y) || before.to_set().contains(y));
            }
        }
    }
    proof {
        assert(pending@.to_set() =~= Set::empty());
        assert(closed(edges, seen@)) by {
            assert forall|x: FactId, y: FactId|
                seen@.contains(x) && edges.contains_key(x) && #[trigger] edges[x].contains(
                    y,
                ) implies #[trigger] seen@.contains(y) by {
                assert(seen@.contains(y) || pending@.to_set().contains(y));
            }
        }
        assert(start.subset_of(seen@)) by {
            assert forall|x: FactId| start.contains(x) implies seen@.contains(x) by {
                assert(seen@.union(pending@.to_set()).contains(x));
            }
        }
        lemma_reach_is(edges, start, seen@);
    }
    seen
}

/// Collects what is reachable from `roots`, or the first node without an
/// entry that the walk meets.
pub fn walk_all<E: Edges>(graph: &E, roots: &Vec<FactId>) -> (r: Result<OrdSet<FactId>, FactId>)
    ensures
        match r {
            Ok(all) => walk(graph.edges(), roots@, Set::empty()) == Ok::<Set<FactId>, FactId>(all@)
                && all@ == reach(graph.edges(), roots@.to_set()) && all@.subset_of(
                graph.edges().dom(),
            ),
            Err(x) => walk(graph.edges(), roots@, Set::empty()) == Err::<Set<FactId>, FactId>(x)
                && reach(graph.edges(), roots@.to_set()).contains(x) && !graph.edges().contains_key(
                x,
            ),
        },
        r is Ok <==> reach(graph.edges(), roots@.to_set()).subset_of(graph.edges().dom()),
        graph.edges().dom().finite(),
{
    let ghost edges = graph.edges();
    let _ = graph.no_entries();
    let mut pending: Vec<FactId> = copy_keys(roots);
    let mut seen: OrdSet<FactId> = OrdSet::new();
    proof {
        walk_collects_what_is_reachable(edges, roots@);
    }
    while pending.len() > 0
        invariant
            edges == graph.edges(),
            edges.dom().finite(),
            walk(edges, pending@, seen@) == walk(edges, roots@, Set::empty()),
        decreases edges.dom().difference(seen@).len(), pending@.len(),
    {
        let ghost before = pending@;
        let ghost seen0 = seen@;
        let id = pending.pop().unwrap();
        proof {
            assert(before.drop_last() =~= pending@);
            lemma_unseen(edges, seen0, id);
        }
        if seen.insert(id) {
            match graph.out(&id) {
                Some(targets) => {
                    append_keys(&mut pending, &targets);
                    assert(pending@ =~= before.drop_last() + edges[id]);
                },
                None => {
                    proof {
                        walk_collects_what_is_reachable(edges, roots@);
                    }
                    return Err(id);
                },
            }
        } else {
            assert(seen@ =~= seen0);
        }
    }
    Ok(seen)
}

} // verus!

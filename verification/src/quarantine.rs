//! How facts enter the quarantine, wake, and leave it.

use vstd::prelude::*;

use crate::accounting;
use crate::costs;
use crate::costs::{keep, release, CostView, FactCost};
use crate::device::DeviceId;
use crate::error::SemanticError;
use crate::fact;
use crate::fact::{Facts, FactView, SignedFact};
use crate::graph;
use crate::graph::{FactGraph, GraphView, LedgerView, QuarantineView, Usage};
use crate::ids::FactId;
use crate::multimap;
use crate::multimap::{join_all, part};
use crate::order::Key;
use crate::ordmap::OrdMap;
use crate::ordset;
use crate::ordset::OrdSet;
use crate::rebuild;
use crate::sums;

verus! {

/// The sum of a measure over facts.
pub open spec fn sum_by(facts: Facts, measure: spec_fn(FactView) -> nat) -> nat {
    sums::sum(facts.dom(), |id: FactId| measure(facts[id]))
}

/// One for each fact of an author.
pub open spec fn one_of(author: DeviceId) -> spec_fn(FactView) -> nat {
    |f: FactView|
        if f.content.author == author {
            1nat
        } else {
            0nat
        }
}

/// The bytes of each fact of an author.
pub open spec fn size_of(author: DeviceId) -> spec_fn(FactView) -> nat {
    |f: FactView|
        if f.content.author == author {
            rebuild::bytes_of(f)
        } else {
            0nat
        }
}

/// Whether the usage on record covers what each author has among the facts.
pub open spec fn funds(m: Map<DeviceId, Usage>, facts: Facts) -> bool {
    forall|a: DeviceId| #[trigger]
        graph::usage_of(m, a).facts >= sum_by(facts, one_of(a)) && graph::usage_of(m, a).bytes
            >= sum_by(facts, size_of(a))
}

/// Whether the quarantine keeps each fact under its identifier, has it wait
/// for its own inputs only, and the totals on record cover what it holds.
pub open spec fn owned(g: GraphView) -> bool {
    &&& g.quarantine.facts.dom().finite()
    &&& forall|id: FactId| #[trigger]
        g.quarantine.facts.contains_key(id) ==> g.quarantine.facts[id].id == id && multimap::at(
            g.quarantine.missing,
            id,
        ).subset_of(g.quarantine.facts[id].inputs())
    &&& g.quarantine.bytes >= rebuild::sum_bytes(g.quarantine.facts)
    &&& g.quarantine.edges >= rebuild::sum_edges(g.quarantine.facts)
    &&& funds(g.quarantine.by_author, g.quarantine.facts)
    &&& funds(g.ledger.retained, g.quarantine.facts)
}

/// The quarantine after a dependency became available.
pub open spec fn woken(q: QuarantineView, dependency: FactId) -> QuarantineView {
    if !q.waiting.contains_key(dependency) {
        q
    } else {
        let waiters = q.waiting[dependency];
        QuarantineView {
            waiting: q.waiting.remove(dependency),
            missing: Map::new(
                |k: FactId| q.missing.contains_key(k),
                |k: FactId|
                    if waiters.contains(k) {
                        q.missing[k].remove(dependency)
                    } else {
                        q.missing[k]
                    },
            ),
            ready: q.ready.union(
                waiters.filter(
                    |w: FactId|
                        q.missing.contains_key(w) && q.missing[w].remove(dependency) == Set::<
                            FactId,
                        >::empty(),
                ),
            ),
            ..q
        }
    }
}

/// The graph after a fact was put into the quarantine.
pub open spec fn enqueued(g: GraphView, f: FactView, cost: CostView, reserved: bool) -> GraphView {
    let missing = cost.missing.to_set();
    GraphView {
        quarantine: QuarantineView {
            facts: g.quarantine.facts.insert(f.id, f),
            missing: g.quarantine.missing.insert(f.id, missing),
            waiting: multimap::joined_all(g.quarantine.waiting, missing, f.id),
            bytes: (g.quarantine.bytes + cost.encoded_bytes) as u64,
            edges: (g.quarantine.edges + cost.edges) as u64,
            by_author: costs::kept(g.quarantine.by_author, f.content.author, cost.encoded_bytes),
            ..g.quarantine
        },
        ledger: if reserved {
            g.ledger
        } else {
            LedgerView {
                retained: costs::kept(g.ledger.retained, f.content.author, cost.encoded_bytes),
                ..g.ledger
            }
        },
        ..g
    }
}

/// The sets without `value` at all of `keys`; emptied ones are gone.
pub open spec fn parted_all<K, V>(m: Map<K, Set<V>>, keys: Set<K>, value: V) -> Map<K, Set<V>> {
    Map::new(
        |k: K|
            m.contains_key(k) && (keys.contains(k) ==> m[k].remove(value) != Set::<V>::empty()),
        |k: K|
            if keys.contains(k) {
                m[k].remove(value)
            } else {
                m[k]
            },
    )
}

/// The graph after a fact was taken out of the quarantine.
pub open spec fn dequeued(g: GraphView, id: FactId, cost: CostView) -> GraphView {
    GraphView {
        quarantine: QuarantineView {
            facts: g.quarantine.facts.remove(id),
            missing: g.quarantine.missing.remove(id),
            waiting: parted_all(
                g.quarantine.waiting,
                multimap::at(g.quarantine.missing, id),
                id,
            ),
            ready: g.quarantine.ready.remove(id),
            bytes: (g.quarantine.bytes - cost.encoded_bytes) as u64,
            edges: (g.quarantine.edges - cost.edges) as u64,
            by_author: costs::let_go(
                g.quarantine.by_author,
                g.quarantine.facts[id].content.author,
                cost.encoded_bytes,
            ),
        },
        ..g
    }
}

/// The graph after a fact was looked for in the quarantine and taken out.
pub open spec fn removed(g: GraphView, id: FactId) -> (
    GraphView,
    Result<Option<FactView>, SemanticError>,
) {
    if !g.quarantine.facts.contains_key(id) {
        (
            GraphView {
                quarantine: QuarantineView {
                    ready: g.quarantine.ready.remove(id),
                    ..g.quarantine
                },
                ..g
            },
            Ok(None),
        )
    } else {
        match costs::cost_of(g, g.quarantine.facts[id]) {
            Err(e) => (g, Err(e)),
            Ok(cost) => (dequeued(g, id, cost), Ok(Some(g.quarantine.facts[id]))),
        }
    }
}

/// The graph after an author released a retained fact.
pub open spec fn released(g: GraphView, author: DeviceId, bytes: u64) -> GraphView {
    GraphView {
        ledger: LedgerView {
            retained: costs::let_go(g.ledger.retained, author, bytes),
            ..g.ledger
        },
        ..g
    }
}

proof fn lemma_sum_by_remove(facts: Facts, id: FactId, h: spec_fn(FactView) -> nat)
    requires
        facts.dom().finite(),
        facts.contains_key(id),
    ensures
        sum_by(facts, h) == sum_by(facts.remove(id), h) + h(facts[id]),
{
    let f = |k: FactId| h(facts[k]);
    let g = |k: FactId| h(facts.remove(id)[k]);
    sums::lemma_sum_remove(facts.dom(), f, id);
    assert(facts.remove(id).dom() =~= facts.dom().remove(id));
    sums::lemma_sum_same(facts.dom().remove(id), f, g);
}

proof fn lemma_sum_by_insert(facts: Facts, id: FactId, v: FactView, h: spec_fn(FactView) -> nat)
    requires
        facts.dom().finite(),
    ensures
        sum_by(facts.insert(id, v), h) <= sum_by(facts, h) + h(v),
{
    let more = facts.insert(id, v);
    assert(more.dom() =~= facts.dom().insert(id));
    lemma_sum_by_remove(more, id, h);
    let rest = facts.remove(id);
    assert(more.remove(id) =~= rest);
    if facts.contains_key(id) {
        lemma_sum_by_remove(facts, id, h);
    } else {
        assert(rest =~= facts);
    }
}

proof fn lemma_sums_by(facts: Facts)
    requires
        facts.dom().finite(),
    ensures
        rebuild::sum_bytes(facts) == sum_by(facts, |f: FactView| rebuild::bytes_of(f)),
        rebuild::sum_edges(facts) == sum_by(facts, |f: FactView| accounting::edges_of(f)),
{
    let hb = |f: FactView| rebuild::bytes_of(f);
    let he = |f: FactView| accounting::edges_of(f);
    sums::lemma_sum_same(
        facts.dom(),
        |id: FactId| rebuild::bytes_of(facts[id]),
        |id: FactId| hb(facts[id]),
    );
    sums::lemma_sum_same(
        facts.dom(),
        |id: FactId| accounting::edges_of(facts[id]),
        |id: FactId| he(facts[id]),
    );
}

/// A fact with a cost is charged its own bytes and edges.
pub proof fn lemma_cost(g: GraphView, f: FactView)
    ensures
        costs::cost_of(g, f) matches Ok(c) ==> c.encoded_bytes == rebuild::bytes_of(f) && c.edges
            == accounting::edges_of(f) && c.missing.to_set() == costs::missing_inputs(g, f),
{
    reveal(costs::cost_of);
    if let Ok(c) = costs::cost_of(g, f) {
        fact::lemma_inputs_finite(f);
        ordset::lemma_listing(costs::missing_inputs(g, f));
    }
}

/// What leaves the quarantine was on record there.
pub proof fn lemma_dequeue(g: GraphView, id: FactId, cost: CostView)
    requires
        owned(g),
        g.quarantine.facts.contains_key(id),
        cost.encoded_bytes == rebuild::bytes_of(g.quarantine.facts[id]),
        cost.edges == accounting::edges_of(g.quarantine.facts[id]),
    ensures
        g.quarantine.bytes >= cost.encoded_bytes,
        g.quarantine.edges >= cost.edges,
        ({
            let author = g.quarantine.facts[id].content.author;
            let u = graph::usage_of(g.quarantine.by_author, author);
            let v = graph::usage_of(g.ledger.retained, author);
            u.facts >= 1 && u.bytes >= cost.encoded_bytes && v.facts >= 1 && v.bytes
                >= cost.encoded_bytes
        }),
        owned(dequeued(g, id, cost)),
        funds(
            costs::let_go(
                g.ledger.retained,
                g.quarantine.facts[id].content.author,
                cost.encoded_bytes,
            ),
            g.quarantine.facts.remove(id),
        ),
{
    let q = g.quarantine;
    let f = q.facts[id];
    let author = f.content.author;
    let rest = q.facts.remove(id);
    lemma_sums_by(q.facts);
    lemma_sums_by(rest);
    lemma_sum_by_remove(q.facts, id, |f: FactView| rebuild::bytes_of(f));
    lemma_sum_by_remove(q.facts, id, |f: FactView| accounting::edges_of(f));
    lemma_sum_by_remove(q.facts, id, one_of(author));
    lemma_sum_by_remove(q.facts, id, size_of(author));
    assert(graph::usage_of(q.by_author, author).facts >= 1);
    assert(graph::usage_of(g.ledger.retained, author).facts >= 1);
    lemma_let_go(q.by_author, q.facts, id);
    lemma_let_go(g.ledger.retained, q.facts, id);
    assert forall|a: DeviceId| #[trigger]
        graph::usage_of(g.ledger.retained, a).facts >= sum_by(rest, one_of(a))
            && graph::usage_of(g.ledger.retained, a).bytes >= sum_by(rest, size_of(a)) by {
        lemma_sum_by_remove(q.facts, id, one_of(a));
        lemma_sum_by_remove(q.facts, id, size_of(a));
    }
}

proof fn lemma_let_go(m: Map<DeviceId, Usage>, facts: Facts, id: FactId)
    requires
        facts.dom().finite(),
        facts.contains_key(id),
        funds(m, facts),
        rebuild::bytes_of(facts[id]) <= u64::MAX,
    ensures
        funds(
            costs::let_go(m, facts[id].content.author, rebuild::bytes_of(facts[id]) as u64),
            facts.remove(id),
        ),
{
    let author = facts[id].content.author;
    let bytes = rebuild::bytes_of(facts[id]) as u64;
    let after = costs::let_go(m, author, bytes);
    assert forall|a: DeviceId| #[trigger]
        graph::usage_of(after, a).facts >= sum_by(facts.remove(id), one_of(a)) && graph::usage_of(
            after,
            a,
        ).bytes >= sum_by(facts.remove(id), size_of(a)) by {
        lemma_sum_by_remove(facts, id, one_of(a));
        lemma_sum_by_remove(facts, id, size_of(a));
        let u = graph::usage_of(m, a);
        if a == author && u.facts == 1 {
            lemma_no_facts(facts.remove(id), a);
        }
    }
}

/// An author of no facts has no bytes.
proof fn lemma_no_facts(facts: Facts, a: DeviceId)
    requires
        facts.dom().finite(),
        sum_by(facts, one_of(a)) == 0,
    ensures
        sum_by(facts, size_of(a)) == 0,
{
    assert forall|id: FactId| #[trigger] facts.dom().contains(id) implies size_of(a)(facts[id])
        == 0 by {
        lemma_sum_by_remove(facts, id, one_of(a));
    }
    let zero = |id: FactId| 0nat;
    sums::lemma_sum_same(facts.dom(), |id: FactId| size_of(a)(facts[id]), zero);
    lemma_sum_zero(facts.dom());
}

proof fn lemma_sum_zero(set: Set<FactId>)
    requires
        set.finite(),
    ensures
        sums::sum(set, |id: FactId| 0nat) == 0,
    decreases set.len(),
{
    if set.len() > 0 {
        lemma_sum_zero(set.remove(set.choose()));
    }
}

proof fn lemma_kept(m: Map<DeviceId, Usage>, facts: Facts, f: FactView)
    requires
        facts.dom().finite(),
        funds(m, facts),
        rebuild::bytes_of(f) <= u64::MAX,
        graph::usage_of(m, f.content.author).facts < u64::MAX,
        graph::usage_of(m, f.content.author).bytes + rebuild::bytes_of(f) <= u64::MAX,
    ensures
        funds(
            costs::kept(m, f.content.author, rebuild::bytes_of(f) as u64),
            facts.insert(f.id, f),
        ),
{
    let after = costs::kept(m, f.content.author, rebuild::bytes_of(f) as u64);
    assert forall|a: DeviceId| #[trigger]
        graph::usage_of(after, a).facts >= sum_by(facts.insert(f.id, f), one_of(a))
            && graph::usage_of(after, a).bytes >= sum_by(facts.insert(f.id, f), size_of(a)) by {
        lemma_sum_by_insert(facts, f.id, f, one_of(a));
        lemma_sum_by_insert(facts, f.id, f, size_of(a));
        assert(graph::usage_of(m, a).facts >= sum_by(facts, one_of(a)));
    }
}

/// What enters the quarantine is put on record there.
pub proof fn lemma_enqueue(g: GraphView, f: FactView, cost: CostView, reserved: bool)
    requires
        owned(g),
        cost.encoded_bytes == rebuild::bytes_of(f),
        cost.edges == accounting::edges_of(f),
        cost.missing.to_set().subset_of(f.inputs()),
        g.quarantine.bytes + cost.encoded_bytes <= u64::MAX,
        g.quarantine.edges + cost.edges <= u64::MAX,
        graph::usage_of(g.quarantine.by_author, f.content.author).facts < u64::MAX,
        graph::usage_of(g.quarantine.by_author, f.content.author).bytes + cost.encoded_bytes
            <= u64::MAX,
        !reserved ==> graph::usage_of(g.ledger.retained, f.content.author).facts < u64::MAX
            && graph::usage_of(g.ledger.retained, f.content.author).bytes + cost.encoded_bytes
            <= u64::MAX,
        reserved ==> funds(g.ledger.retained, g.quarantine.facts.insert(f.id, f)),
    ensures
        owned(enqueued(g, f, cost, reserved)),
{
    let q = g.quarantine;
    let more = q.facts.insert(f.id, f);
    lemma_sums_by(q.facts);
    lemma_sums_by(more);
    lemma_sum_by_insert(q.facts, f.id, f, |f: FactView| rebuild::bytes_of(f));
    lemma_sum_by_insert(q.facts, f.id, f, |f: FactView| accounting::edges_of(f));
    lemma_kept(q.by_author, q.facts, f);
    if !reserved {
        lemma_kept(g.ledger.retained, q.facts, f);
    }
}

/// A rebuild keeps the totals above what the quarantine holds.
pub proof fn lemma_rebuilt_owned(g: GraphView)
    requires
        owned(g),
    ensures
        owned(rebuild::rebuilt(g)),
        owned(rebuild::ensured(g)),
{
    rebuild::lemma_rebuilt_frame(g);
    reveal(rebuild::rebuilt);
    let q = g.quarantine;
    let r = rebuild::rebuilt(g).quarantine;
    if rebuild::totals(q.facts) is None || rebuild::totals(g.facts) is None {
        assert(r.bytes == u64::MAX && r.edges == u64::MAX);
        assert(q.bytes >= rebuild::sum_bytes(q.facts));
    }
}

/// Puts what is at all of `keys` without `value`.
fn part_all<K: Key, V: Key>(map: &mut OrdMap<K, OrdSet<V>>, keys: &Vec<K>, value: &V)
    requires
        keys@.no_duplicates(),
    ensures
        final(map)@ == parted_all(old(map)@, keys@.to_set(), *value),
{
    let n: usize = keys.len();
    let ghost start = map@;
    assert(keys@.take(0).to_set() =~= Set::<K>::empty());
    assert(map@ =~= parted_all(start, keys@.take(0).to_set(), *value));
    for i in 0..n
        invariant
            n == keys@.len(),
            keys@.no_duplicates(),
            map@ == parted_all(start, keys@.take(i as int).to_set(), *value),
    {
        let ghost done = keys@.take(i as int).to_set();
        let ghost before = map@;
        part(map, &keys[i], value);
        proof {
            ordset::lemma_next_is_new(keys@, i as int);
            let key = keys@[i as int];
            assert(keys@.take(i + 1).to_set() == done.insert(key));
            assert(before.contains_key(key) <==> start.contains_key(key));
            assert(map@ =~= parted_all(start, done.insert(key), *value));
        }
    }
    assert(keys@.take(n as int) =~= keys@);
}

impl FactGraph {
    /// Wakes what waits for a dependency that became available.
    pub fn wake_dependency(&mut self, dependency: FactId)
        ensures
            final(self)@ == (GraphView {
                quarantine: woken(old(self)@.quarantine, dependency),
                ..old(self)@
            }),
    {
        let ghost g = self@;
        let waiters = match self.quarantine.waiting.remove(&dependency) {
            Some(w) => w,
            None => {
                assert(g.quarantine.waiting.remove(dependency) =~= g.quarantine.waiting);
                return;
            },
        };
        let list = waiters.to_vec();
        let n: usize = list.len();
        let ghost q = g.quarantine;
        let ghost done = list@.take(0).to_set();
        let ghost frees = |w: FactId|
            q.missing.contains_key(w) && q.missing[w].remove(dependency) == Set::<FactId>::empty();
        assert(list@.take(0).to_set() =~= Set::<FactId>::empty());
        assert(self@.quarantine.missing =~= Map::new(
            |k: FactId| q.missing.contains_key(k),
            |k: FactId|
                if list@.take(0).to_set().contains(k) {
                    q.missing[k].remove(dependency)
                } else {
                    q.missing[k]
                },
        ));
        assert(self@.quarantine.ready =~= q.ready.union(list@.take(0).to_set().filter(frees)));
        for i in 0..n
            invariant
                n == list@.len(),
                list@.no_duplicates(),
                q == g.quarantine,
                frees == (|w: FactId|
                    q.missing.contains_key(w) && q.missing[w].remove(dependency) == Set::<
                        FactId,
                    >::empty()),
                self@ == (GraphView {
                    quarantine: QuarantineView {
                        waiting: q.waiting.remove(dependency),
                        missing: Map::new(
                            |k: FactId| q.missing.contains_key(k),
                            |k: FactId|
                                if list@.take(i as int).to_set().contains(k) {
                                    q.missing[k].remove(dependency)
                                } else {
                                    q.missing[k]
                                },
                        ),
                        ready: q.ready.union(list@.take(i as int).to_set().filter(frees)),
                        ..q
                    },
                    ..g
                }),
        {
            let ghost done = list@.take(i as int).to_set();
            let waiter = list[i];
            proof {
                ordset::lemma_next_is_new(list@, i as int);
                assert(list@.take(i + 1).to_set() == done.insert(waiter));
            }
            let ghost missing0 = self@.quarantine.missing;
            if let Some(found) = self.quarantine.missing.remove(&waiter) {
                let mut missing = found;
                assert(missing0[waiter] == q.missing[waiter]);
                missing.remove(&dependency);
                if missing.is_empty() {
                    self.quarantine.ready.insert(waiter);
                }
                self.quarantine.missing.insert(waiter, missing);
            }
            proof {
                let want = Map::new(
                    |k: FactId| q.missing.contains_key(k),
                    |k: FactId|
                        if done.insert(waiter).contains(k) {
                            q.missing[k].remove(dependency)
                        } else {
                            q.missing[k]
                        },
                );
                assert(self@.quarantine.missing =~= want);
                assert(self@.quarantine.ready =~= q.ready.union(
                    done.insert(waiter).filter(frees),
                ));
            }
        }
        proof {
            assert(list@.take(n as int) =~= list@);
            assert(self@ =~= (GraphView { quarantine: woken(q, dependency), ..g }));
        }
    }

    /// Puts a fact into the quarantine.
    pub(crate) fn enqueue(&mut self, fact: SignedFact, cost: &FactCost, retained_reserved: bool)
        requires
            old(self)@.quarantine.bytes + cost.encoded_bytes <= u64::MAX,
            old(self)@.quarantine.edges + cost.edges <= u64::MAX,
            graph::usage_of(old(self)@.quarantine.by_author, fact@.content.author).facts
                < u64::MAX,
            graph::usage_of(old(self)@.quarantine.by_author, fact@.content.author).bytes
                + cost.encoded_bytes <= u64::MAX,
            !retained_reserved ==> graph::usage_of(
                old(self)@.ledger.retained,
                fact@.content.author,
            ).facts < u64::MAX && graph::usage_of(
                old(self)@.ledger.retained,
                fact@.content.author,
            ).bytes + cost.encoded_bytes <= u64::MAX,
        ensures
            final(self)@ == enqueued(old(self)@, fact@, cost@, retained_reserved),
    {
        let id = fact.id;
        let author = fact.content.author;
        let missing = OrdSet::from_vec(&cost.missing);
        join_all(&mut self.quarantine.waiting, &cost.missing, id);
        self.quarantine.missing.insert(id, missing);
        keep(&mut self.quarantine.by_author, &author, cost.encoded_bytes);
        self.quarantine.bytes = self.quarantine.bytes + cost.encoded_bytes;
        self.quarantine.edges = self.quarantine.edges + cost.edges;
        self.quarantine.facts.insert(id, fact);
        if !retained_reserved {
            keep(&mut self.ledger.retained, &author, cost.encoded_bytes);
        }
        assert(self@ =~= enqueued(old(self)@, fact@, cost@, retained_reserved));
    }

    /// Takes a fact out of the quarantine.
    pub fn remove_quarantine(&mut self, id: &FactId) -> (r: Result<
        Option<SignedFact>,
        SemanticError,
    >)
        requires
            owned(old(self)@),
        ensures
            final(self)@ == removed(old(self)@, *id).0,
            match r {
                Ok(Some(f)) => removed(old(self)@, *id).1 == Ok::<
                    Option<FactView>,
                    SemanticError,
                >(Some(f@)),
                Ok(None) => removed(old(self)@, *id).1 == Ok::<Option<FactView>, SemanticError>(
                    None,
                ),
                Err(e) => removed(old(self)@, *id).1 == Err::<Option<FactView>, SemanticError>(e),
            },
            owned(final(self)@),
    {
        let ghost g = self@;
        let cost = match self.quarantine.facts.get(id) {
            None => {
                self.quarantine.ready.remove(id);
                assert(self@ =~= removed(g, *id).0);
                return Ok(None);
            },
            Some(stored) => match self.fact_cost(stored) {
                Ok(c) => c,
                Err(e) => {
                    return Err(e);
                },
            },
        };
        proof {
            lemma_cost(g, g.quarantine.facts[*id]);
            lemma_dequeue(g, *id, cost@);
        }
        let fact = match self.quarantine.facts.remove(id) {
            Some(f) => f,
            None => {
                assert(false);
                return Ok(None);
            },
        };
        self.quarantine.ready.remove(id);
        let missing: Vec<FactId> = match self.quarantine.missing.remove(id) {
            Some(m) => m.to_vec(),
            None => Vec::new(),
        };
        proof {
            assert(missing@.to_set() =~= multimap::at(g.quarantine.missing, *id));
        }
        part_all(&mut self.quarantine.waiting, &missing, id);
        self.quarantine.bytes = self.quarantine.bytes - cost.encoded_bytes;
        self.quarantine.edges = self.quarantine.edges - cost.edges;
        release(&mut self.quarantine.by_author, &fact.content.author, cost.encoded_bytes);
        assert(self@ =~= dequeued(g, *id, cost@));
        Ok(Some(fact))
    }

    /// Releases a retained fact of an author.
    pub(crate) fn release_author(&mut self, author: &DeviceId, bytes: u64)
        requires
            old(self)@.ledger.retained.contains_key(*author) ==> old(
                self,
            )@.ledger.retained[*author].facts >= 1 && old(self)@.ledger.retained[*author].bytes
                >= bytes,
        ensures
            final(self)@ == released(old(self)@, *author, bytes),
    {
        release(&mut self.ledger.retained, author, bytes);
        assert(self@ =~= released(old(self)@, *author, bytes));
    }
}

} // verus!

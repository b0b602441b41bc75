//! Whether a graph can be worked on: what it holds is covered by its own
//! records, and its counters have room.

use vstd::prelude::*;

use crate::accounting;
use crate::admission;
use crate::admission::Admission;
use crate::device::DeviceId;
use crate::fact::{dependencies, SignedFact};
use crate::graph;
use crate::graph::{usage_at, FactGraph, Usage};
use crate::ids::FactId;
use crate::journal::AdmissionPreflight;
use crate::multimap;
use crate::multimap::list_at;
use crate::ordmap::OrdMap;
use crate::ordset;
use crate::ordset::holds;
use crate::quarantine;
use crate::rebuild;
use crate::retry;
use crate::sums;

verus! {

/// A graph that was just started is covered by its own records, and has all
/// the room that its counters give.
pub proof fn started_graph_stands(setting: graph::SettingView)
    ensures
        quarantine::owned(graph::started(setting)),
        admission::has_room(graph::started(setting), u64::MAX as int),
        retry::is_roomy(graph::started(setting), u64::MAX as int),
        retry::is_countable(graph::started(setting), usize::MAX as int),
{
    let none = graph::started(setting).quarantine.facts;
    assert(none.dom() =~= Set::<FactId>::empty());
    sums::lemma_sum_empty(|id: FactId| rebuild::bytes_of(none[id]));
    sums::lemma_sum_empty(|id: FactId| accounting::edges_of(none[id]));
    assert forall|a: DeviceId| #[trigger]
        graph::usage_of(Map::<DeviceId, Usage>::empty(), a).facts >= quarantine::sum_by(
            none,
            quarantine::one_of(a),
        ) && graph::usage_of(Map::<DeviceId, Usage>::empty(), a).bytes >= quarantine::sum_by(
            none,
            quarantine::size_of(a),
        ) by {
        let one = quarantine::one_of(a);
        let size = quarantine::size_of(a);
        sums::lemma_sum_empty(|id: FactId| one(none[id]));
        sums::lemma_sum_empty(|id: FactId| size(none[id]));
    }
}

/// Whether the usage of an author covers what it has among the facts.
fn covers_author(facts: &OrdMap<FactId, SignedFact>, author: &DeviceId, usage: &Usage) -> (r: bool)
    ensures
        r <==> usage.facts >= quarantine::sum_by(facts@, quarantine::one_of(*author)) && usage.bytes
            >= quarantine::sum_by(facts@, quarantine::size_of(*author)),
{
    let ids = facts.keys();
    let n: usize = ids.len();
    let mut count: u64 = 0;
    let mut bytes: u64 = 0;
    let ghost one = quarantine::one_of(*author);
    let ghost size = quarantine::size_of(*author);
    let ghost fo = |id: FactId| one(facts@[id]);
    let ghost fs = |id: FactId| size(facts@[id]);
    assert(ids@.take(0).to_set() =~= Set::<FactId>::empty());
    for i in 0..n
        invariant
            n == ids@.len(),
            ids@.no_duplicates(),
            ids@.to_set() == facts@.dom(),
            facts@.dom().finite(),
            forall|k: FactId| #[trigger] ids@.contains(k) <==> facts@.contains_key(k),
            one == quarantine::one_of(*author),
            size == quarantine::size_of(*author),
            fo == (|id: FactId| one(facts@[id])),
            fs == (|id: FactId| size(facts@[id])),
            count == sums::sum(ids@.take(i as int).to_set(), fo),
            bytes == sums::sum(ids@.take(i as int).to_set(), fs),
            count <= usage.facts,
            bytes <= usage.bytes,
    {
        let ghost done = ids@.take(i as int).to_set();
        let ghost key = ids@[i as int];
        proof {
            assert(ids@.contains(key));
            ordset::lemma_next_is_new(ids@, i as int);
            sums::lemma_sum_insert(done, fo, key);
            sums::lemma_sum_insert(done, fs, key);
            sums::lemma_sum_subset(done.insert(key), facts@.dom(), fo);
            sums::lemma_sum_subset(done.insert(key), facts@.dom(), fs);
        }
        let f = facts.value(&ids[i]);
        if f.content.author.same(author) {
            let more: u64 = match f.checked.encoded_bytes {
                Some(b) => b,
                None => 0,
            };
            if count == usage.facts || more > usage.bytes - bytes {
                return false;
            }
            count = count + 1;
            bytes = bytes + more;
        }
    }
    assert(ids@.take(n as int) =~= ids@);
    true
}

/// Whether the usage on record covers what each author has among the facts.
fn covers_authors(m: &OrdMap<DeviceId, Usage>, facts: &OrdMap<FactId, SignedFact>) -> (r: bool)
    ensures
        r <==> quarantine::funds(m@, facts@),
{
    let ids = facts.keys();
    let n: usize = ids.len();
    for i in 0..n
        invariant
            n == ids@.len(),
            ids@.to_set() == facts@.dom(),
            forall|k: FactId| #[trigger] ids@.contains(k) <==> facts@.contains_key(k),
            forall|j: int|
                0 <= j < i ==> {
                    let a = facts@[#[trigger] ids@[j]].content.author;
                    graph::usage_of(m@, a).facts >= quarantine::sum_by(
                        facts@,
                        quarantine::one_of(a),
                    ) && graph::usage_of(m@, a).bytes >= quarantine::sum_by(
                        facts@,
                        quarantine::size_of(a),
                    )
                },
    {
        assert(ids@.contains(ids@[i as int]));
        let author = facts.value(&ids[i]).content.author;
        let usage = usage_at(m, &author);
        if !covers_author(facts, &author, &usage) {
            assert(!(graph::usage_of(m@, author).facts >= quarantine::sum_by(
                facts@,
                quarantine::one_of(author),
            ) && graph::usage_of(m@, author).bytes >= quarantine::sum_by(
                facts@,
                quarantine::size_of(author),
            )));
            return false;
        }
    }
    proof {
        assert forall|a: DeviceId| #[trigger]
            graph::usage_of(m@, a).facts >= quarantine::sum_by(facts@, quarantine::one_of(a))
                && graph::usage_of(m@, a).bytes >= quarantine::sum_by(
                facts@,
                quarantine::size_of(a),
            ) by {
            if exists|id: FactId| #[trigger]
                facts@.contains_key(id) && facts@[id].content.author == a {
                let id = choose|id: FactId| #[trigger]
                    facts@.contains_key(id) && facts@[id].content.author == a;
                assert(ids@.contains(id));
                let j = choose|j: int| 0 <= j < ids@.len() && ids@[j] == id;
                assert(facts@[ids@[j]].content.author == a);
            } else {
                let one = quarantine::one_of(a);
                let size = quarantine::size_of(a);
                let nil = |id: FactId| 0nat;
                sums::lemma_sum_same(facts@.dom(), |id: FactId| one(facts@[id]), nil);
                sums::lemma_sum_same(facts@.dom(), |id: FactId| size(facts@[id]), nil);
                lemma_sum_nil(facts@.dom(), nil);
            }
        }
    }
    true
}

/// Nothing adds up to nothing.
proof fn lemma_sum_nil(set: Set<FactId>, nil: spec_fn(FactId) -> nat)
    requires
        set.finite(),
        forall|id: FactId| #[trigger] nil(id) == 0,
    ensures
        sums::sum(set, nil) == 0,
    decreases set.len(),
{
    if set == Set::<FactId>::empty() {
        sums::lemma_sum_empty(nil);
    } else {
        let x = set.choose();
        assert(set.contains(x)) by {
            if forall|y: FactId| !set.contains(y) {
                assert(set =~= Set::<FactId>::empty());
            }
        }
        sums::lemma_sum_remove(set, nil, x);
        lemma_sum_nil(set.remove(x), nil);
    }
}

/// Whether totals cover the bytes and the edges of all facts.
fn covers_totals(facts: &OrdMap<FactId, SignedFact>, all_bytes: u64, all_edges: u64) -> (r: bool)
    ensures
        r <==> all_bytes >= rebuild::sum_bytes(facts@) && all_edges >= rebuild::sum_edges(facts@),
{
    let ids = facts.keys();
    let n: usize = ids.len();
    let mut bytes: u64 = 0;
    let mut edges: u64 = 0;
    let ghost fb = |id: FactId| rebuild::bytes_of(facts@[id]);
    let ghost fe = |id: FactId| accounting::edges_of(facts@[id]);
    assert(ids@.take(0).to_set() =~= Set::<FactId>::empty());
    for i in 0..n
        invariant
            n == ids@.len(),
            ids@.no_duplicates(),
            ids@.to_set() == facts@.dom(),
            facts@.dom().finite(),
            forall|k: FactId| #[trigger] ids@.contains(k) <==> facts@.contains_key(k),
            fb == (|id: FactId| rebuild::bytes_of(facts@[id])),
            fe == (|id: FactId| accounting::edges_of(facts@[id])),
            bytes == sums::sum(ids@.take(i as int).to_set(), fb),
            edges == sums::sum(ids@.take(i as int).to_set(), fe),
            bytes <= all_bytes,
            edges <= all_edges,
    {
        let ghost done = ids@.take(i as int).to_set();
        let ghost key = ids@[i as int];
        proof {
            assert(ids@.contains(key));
            ordset::lemma_next_is_new(ids@, i as int);
            sums::lemma_sum_insert(done, fb, key);
            sums::lemma_sum_insert(done, fe, key);
            sums::lemma_sum_subset(done.insert(key), facts@.dom(), fb);
            sums::lemma_sum_subset(done.insert(key), facts@.dom(), fe);
        }
        let f = facts.value(&ids[i]);
        let b: u64 = match f.checked.encoded_bytes {
            Some(b) => b,
            None => 0,
        };
        let inputs = dependencies(f).len() as u64;
        let uses = f.content.authority_uses.len() as u64;
        if b > all_bytes - bytes || inputs > all_edges - edges || uses > all_edges - edges - inputs {
            return false;
        }
        bytes = bytes + b;
        edges = edges + inputs + uses;
    }
    assert(ids@.take(n as int) =~= ids@);
    true
}

/// Whether every member of a list is in another.
fn is_within(some: &Vec<FactId>, all: &Vec<FactId>) -> (r: bool)
    ensures
        r <==> some@.to_set().subset_of(all@.to_set()),
{
    let n: usize = some.len();
    for i in 0..n
        invariant
            n == some@.len(),
            forall|j: int| 0 <= j < i ==> all@.contains(#[trigger] some@[j]),
    {
        if !holds(all, &some[i]) {
            assert(some@.to_set().contains(some@[i as int]));
            assert(!all@.to_set().contains(some@[i as int]));
            return false;
        }
    }
    true
}

impl FactGraph {
    /// Whether the quarantine keeps each fact under its identifier, has it
    /// wait for its own inputs only, and the totals on record cover what it
    /// holds.
    pub fn is_owned(&self) -> (r: bool)
        ensures
            r <==> quarantine::owned(self@),
    {
        let facts = &self.quarantine.facts;
        let ids = facts.keys();
        let n: usize = ids.len();
        for i in 0..n
            invariant
                n == ids@.len(),
                facts == &self.quarantine.facts,
                ids@.to_set() == facts@.dom(),
                forall|k: FactId| #[trigger] ids@.contains(k) <==> facts@.contains_key(k),
                forall|j: int|
                    0 <= j < i ==> facts@[#[trigger] ids@[j]].id == ids@[j] && multimap::at(
                        self@.quarantine.missing,
                        ids@[j],
                    ).subset_of(facts@[ids@[j]].inputs()),
        {
            assert(ids@.contains(ids@[i as int]));
            let f = facts.value(&ids[i]);
            let missing = list_at(&self.quarantine.missing, &ids[i]);
            if !f.id.same(&ids[i]) || !is_within(&missing, &dependencies(f)) {
                assert(self@.quarantine.facts.contains_key(ids@[i as int]));
                return false;
            }
        }
        proof {
            assert forall|id: FactId| #[trigger] facts@.contains_key(id) implies facts@[id].id == id
                && multimap::at(self@.quarantine.missing, id).subset_of(facts@[id].inputs()) by {
                assert(ids@.contains(id));
                let j = choose|j: int| 0 <= j < ids@.len() && ids@[j] == id;
                assert(facts@[ids@[j]].id == ids@[j]);
            }
        }
        covers_totals(facts, self.quarantine.bytes, self.quarantine.edges) && covers_authors(
            &self.quarantine.by_author,
            facts,
        ) && covers_authors(&self.ledger.retained, facts)
    }

    /// Whether `n` more facts can be taken without exhausting the revisions.
    pub fn has_room(&self, n: u64) -> (r: bool)
        ensures
            r <==> admission::has_room(self@, n as int),
    {
        self.fence.facts_revision <= u64::MAX - n && self.fence.generation <= u64::MAX - n
    }

    /// Whether what is in quarantine, and `n` more facts, can be taken without
    /// exhausting the revisions.
    pub fn is_roomy(&self, n: u64) -> (r: bool)
        ensures
            r <==> retry::is_roomy(self@, n as int),
    {
        match (self.quarantine.facts.len() as u64).checked_add(n) {
            Some(all) => self.has_room(all),
            None => false,
        }
    }

    /// Whether what is held, and `n` more facts, can be counted.
    pub fn is_countable(&self, n: usize) -> (r: bool)
        ensures
            r <==> retry::is_countable(self@, n as int),
    {
        let held = self.facts.len();
        let waiting = self.quarantine.facts.len();
        match held.checked_add(waiting) {
            Some(all) => all.checked_add(n).is_some(),
            None => false,
        }
    }
}

impl AdmissionPreflight {
    /// Whether the preflight prices the fact that it is used for.
    pub fn is_priced(&self, fact: &SignedFact) -> (r: bool)
        ensures
            r == self@.is_priced(fact@),
    {
        match &self.admission {
            Admission::AlreadyPresent => true,
            _ => match &self.cost {
                None => false,
                Some(cost) => {
                    let inputs = dependencies(fact);
                    let bytes = match fact.checked.encoded_bytes {
                        Some(n) => n,
                        None => 0,
                    };
                    let priced = match (inputs.len() as u64).checked_add(
                        fact.content.authority_uses.len() as u64,
                    ) {
                        Some(edges) => cost.edges == edges,
                        None => false,
                    };
                    cost.encoded_bytes == bytes && priced && is_within(&cost.missing, &inputs)
                },
            },
        }
    }
}

} // verus!

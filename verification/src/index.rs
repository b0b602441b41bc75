//! Indexes derived from facts: who advances what, and which facts are heads.

use vstd::prelude::*;

use crate::content;
use crate::content::{BodyView, ExclusiveCell, FactBody};
use crate::device::DeviceId;
use crate::fact::{dependencies, Facts, SignedFact};
use crate::graph::{FactGraph, IndexView, Indexes, Selection};
use crate::ids::FactId;
use crate::multimap;
use crate::multimap::{join, join_all};
use crate::order::Key;
use crate::ordmap::OrdMap;
use crate::ordset;
use crate::ordset::{sort_unique, Duplicate, OrdSet};
use crate::reach;
use crate::reach::{reach_set, InputEdges, ParentEdges};

verus! {

/// The heads after `id` joins: those that it does not have behind it, and it.
pub open spec fn replaced(facts: Facts, heads: Set<FactId>, id: FactId) -> Set<FactId> {
    heads.filter(|h: FactId| !reach::is_dominated(facts, facts[id].inputs(), h)).insert(id)
}

/// The heads of each key after `id` joins at `keys`.
pub open spec fn advanced<K>(
    heads: Map<K, Set<FactId>>,
    facts: Facts,
    keys: Set<K>,
    id: FactId,
) -> Map<K, Set<FactId>> {
    Map::new(
        |k: K| heads.contains_key(k) || keys.contains(k),
        |k: K|
            if keys.contains(k) {
                replaced(facts, multimap::at(heads, k), id)
            } else {
                heads[k]
            },
    )
}

/// The indexes after what `id` is about is entered.
pub open spec fn with_metadata(ix: IndexView, facts: Facts, id: FactId) -> IndexView {
    if !facts.contains_key(id) {
        ix
    } else {
        let f = facts[id];
        IndexView {
            authority_facts: multimap::joined_all(ix.authority_facts, f.participants(), id),
            cells: ix.cells.union(f.content.body.cells().to_set()),
            stand_down: match f.content.body.stands_down() {
                Some(target) => multimap::joined(ix.stand_down, target, id),
                None => ix.stand_down,
            },
            selectors: match f.content.body {
                BodyView::AuthorityLineageResolution { subject, selected_head, .. } =>
                multimap::joined(
                    ix.selectors,
                    subject,
                    Selection { selector: id, selected: selected_head },
                ),
                _ => ix.selectors,
            },
            ..ix
        }
    }
}

/// The indexes after `id` joins the heads.
pub open spec fn with_heads(ix: IndexView, facts: Facts, id: FactId) -> IndexView {
    if !facts.contains_key(id) {
        ix
    } else {
        let f = facts[id];
        IndexView {
            cell_heads: advanced(ix.cell_heads, facts, f.content.body.cells().to_set(), id),
            authority_heads: advanced(ix.authority_heads, facts, f.head_subjects(), id),
            ..ix
        }
    }
}

/// The indexes after a list of facts joins the heads, one after the other.
pub open spec fn with_heads_of(ix: IndexView, facts: Facts, ids: Seq<FactId>) -> IndexView
    decreases ids.len(),
{
    if ids.len() == 0 {
        ix
    } else {
        with_heads(with_heads_of(ix, facts, ids.drop_last()), facts, ids.last())
    }
}

/// The indexes after what a list of facts is about is entered.
pub open spec fn with_metadata_of(ix: IndexView, facts: Facts, ids: Seq<FactId>) -> IndexView
    decreases ids.len(),
{
    if ids.len() == 0 {
        ix
    } else {
        with_metadata(with_metadata_of(ix, facts, ids.drop_last()), facts, ids.last())
    }
}

/// The facts that take part in each authority lineage.
pub open spec fn participants_of(facts: Facts) -> Map<DeviceId, Set<FactId>> {
    Map::new(
        |s: DeviceId|
            exists|id: FactId| #[trigger] facts.contains_key(id) && facts[id].takes_part(s),
        |s: DeviceId|
            Set::new(|id: FactId| facts.contains_key(id) && facts[id].takes_part(s)),
    )
}

/// The cells that some fact advances.
pub open spec fn cells_of(facts: Facts) -> Set<ExclusiveCell> {
    Set::new(
        |c: ExclusiveCell|
            exists|id: FactId| #[trigger] facts.contains_key(id) && facts[id].advances(c),
    )
}

/// The stand-down evidence against each device.
pub open spec fn stand_down_of(facts: Facts) -> Map<DeviceId, Set<FactId>> {
    Map::new(
        |d: DeviceId|
            exists|id: FactId| #[trigger]
                facts.contains_key(id) && facts[id].content.body.stands_down() == Some(d),
        |d: DeviceId|
            Set::new(
                |id: FactId|
                    facts.contains_key(id) && facts[id].content.body.stands_down() == Some(d),
            ),
    )
}

/// Drops the heads behind `id`, and enters it.
fn replace_heads(
    facts: &OrdMap<FactId, SignedFact>,
    heads: &OrdSet<FactId>,
    behind: &OrdSet<FactId>,
    id: FactId,
) -> (r: OrdSet<FactId>)
    requires
        facts@.contains_key(id),
        behind@ == reach::reach(reach::input_edges(facts@), facts@[id].inputs()),
    ensures
        r@ == replaced(facts@, heads@, id),
{
    let list = heads.to_vec();
    let n: usize = list.len();
    let mut r: OrdSet<FactId> = OrdSet::new();
    assert(list@.take(0).to_set() =~= Set::<FactId>::empty());
    assert(r@ =~= list@.take(0).to_set().difference(behind@));
    for i in 0..n
        invariant
            n == list@.len(),
            r@ == list@.take(i as int).to_set().difference(behind@),
    {
        proof {
            ordset::lemma_take_set(list@, i as int);
        }
        if !behind.contains(&list[i]) {
            r.insert(list[i]);
        }
        assert(r@ =~= list@.take(i + 1).to_set().difference(behind@));
    }
    assert(list@.take(n as int) =~= list@);
    r.insert(id);
    assert(r@ =~= replaced(facts@, heads@, id));
    r
}

/// Lets `id` join the heads at `keys`.
fn advance_heads<K: Key>(
    facts: &OrdMap<FactId, SignedFact>,
    heads: &mut OrdMap<K, OrdSet<FactId>>,
    keys: &Vec<K>,
    id: FactId,
)
    requires
        facts@.contains_key(id),
        keys@.no_duplicates(),
    ensures
        final(heads)@ == advanced(old(heads)@, facts@, keys@.to_set(), id),
{
    let inputs = dependencies(facts.value(&id));
    let behind = reach_set(&InputEdges { facts }, &inputs);
    let n: usize = keys.len();
    let ghost start = heads@;
    assert(keys@.take(0).to_set() =~= Set::<K>::empty());
    assert(heads@ =~= advanced(start, facts@, keys@.take(0).to_set(), id));
    for i in 0..n
        invariant
            n == keys@.len(),
            keys@.no_duplicates(),
            facts@.contains_key(id),
            behind@ == reach::reach(reach::input_edges(facts@), facts@[id].inputs()),
            heads@ == advanced(start, facts@, keys@.take(i as int).to_set(), id),
    {
        proof {
            ordset::lemma_take_set(keys@, i as int);
            let k = keys@[i as int];
            assert(!keys@.take(i as int).to_set().contains(k)) by {
                if keys@.take(i as int).contains(k) {
                    let j = choose|j: int| 0 <= j < i && keys@.take(i as int)[j] == k;
                    assert(keys@[j] == k);
                }
            }
        }
        let before = match heads.remove(&keys[i]) {
            Some(set) => set,
            None => OrdSet::new(),
        };
        let after = replace_heads(facts, &before, &behind, id);
        heads.insert(keys[i], after);
        assert(heads@ =~= advanced(start, facts@, keys@.take(i + 1).to_set(), id));
    }
    assert(keys@.take(n as int) =~= keys@);
}

/// The subjects whose authority heads the fact advances.
fn head_subjects(f: &SignedFact) -> (r: Vec<DeviceId>)
    ensures
        r@.no_duplicates(),
        r@.to_set() == f@.head_subjects(),
{
    let subjects = f.content.body.authority_use_subjects(&f.content.author);
    let n: usize = subjects.len();
    let mut set: OrdSet<DeviceId> = OrdSet::new();
    assert(subjects@.take(0).to_set() =~= Set::<DeviceId>::empty());
    for i in 0..n
        invariant
            n == subjects@.len(),
            set@ == subjects@.take(i as int).to_set().filter(
                |s: DeviceId| !f@.payload_local(s),
            ),
    {
        proof {
            ordset::lemma_take_set(subjects@, i as int);
        }
        if !f.is_payload_local(&subjects[i]) {
            set.insert(subjects[i]);
        }
        assert(set@ =~= subjects@.take(i + 1).to_set().filter(
            |s: DeviceId| !f@.payload_local(s),
        ));
    }
    assert(subjects@.take(n as int) =~= subjects@);
    assert(set@ =~= f@.head_subjects());
    set.to_vec()
}

impl FactBody {
    /// The device that the body is stand-down evidence against.
    pub fn stand_down_target(&self) -> (r: Option<DeviceId>)
        ensures
            r == self@.stands_down(),
    {
        match self {
            FactBody::EvictionProof { target, .. } => Some(*target),
            FactBody::SelfStandDown { device_id, .. } => Some(*device_id),
            _ => None,
        }
    }
}

impl Indexes {
    pub fn index_fact_metadata(&mut self, facts: &OrdMap<FactId, SignedFact>, fact_id: FactId)
        ensures
            final(self)@ == with_metadata(old(self)@, facts@, fact_id),
    {
        let f = match facts.get(&fact_id) {
            Some(f) => f,
            None => {
                return;
            },
        };
        let subjects = f.indexed_authority_subjects();
        join_all(&mut self.authority_facts, &subjects, fact_id);
        let cells = f.content.body.exclusive_cells();
        self.cells.extend_vec(&cells);
        if let Some(target) = f.content.body.stand_down_target() {
            join(&mut self.stand_down, target, fact_id);
        }
        if let FactBody::AuthorityLineageResolution { subject, selected_head, .. } =
            &f.content.body {
            join(
                &mut self.selectors,
                *subject,
                Selection { selector: fact_id, selected: *selected_head },
            );
        }
        assert(self@ =~= with_metadata(old(self)@, facts@, fact_id));
    }

    pub fn index_fact_heads(&mut self, facts: &OrdMap<FactId, SignedFact>, fact_id: FactId)
        ensures
            final(self)@ == with_heads(old(self)@, facts@, fact_id),
    {
        let f = match facts.get(&fact_id) {
            Some(f) => f,
            None => {
                return;
            },
        };
        let cells = sort_unique(&f.content.body.exclusive_cells());
        let subjects = head_subjects(f);
        advance_heads(facts, &mut self.cell_heads, &cells, fact_id);
        advance_heads(facts, &mut self.authority_heads, &subjects, fact_id);
        assert(self@ =~= with_heads(old(self)@, facts@, fact_id));
    }

    pub fn index_fact(&mut self, facts: &OrdMap<FactId, SignedFact>, fact_id: FactId)
        ensures
            final(self)@ == with_heads(
                with_metadata(old(self)@, facts@, fact_id),
                facts@,
                fact_id,
            ),
    {
        self.index_fact_metadata(facts, fact_id);
        self.index_fact_heads(facts, fact_id);
    }

    /// Enters what each of `ids` is about.
    pub fn index_metadata_of(&mut self, facts: &OrdMap<FactId, SignedFact>, ids: &Vec<FactId>)
        ensures
            final(self)@ == with_metadata_of(old(self)@, facts@, ids@),
    {
        let n: usize = ids.len();
        let ghost start = self@;
        for i in 0..n
            invariant
                n == ids@.len(),
                self@ == with_metadata_of(start, facts@, ids@.take(i as int)),
        {
            self.index_fact_metadata(facts, ids[i]);
            assert(ids@.take(i + 1).drop_last() =~= ids@.take(i as int));
        }
        assert(ids@.take(n as int) =~= ids@);
    }

    /// Lets each of `ids` join the heads, in order.
    pub fn index_heads_of(&mut self, facts: &OrdMap<FactId, SignedFact>, ids: &Vec<FactId>)
        ensures
            final(self)@ == with_heads_of(old(self)@, facts@, ids@),
    {
        let n: usize = ids.len();
        let ghost start = self@;
        for i in 0..n
            invariant
                n == ids@.len(),
                self@ == with_heads_of(start, facts@, ids@.take(i as int)),
        {
            self.index_fact_heads(facts, ids[i]);
            assert(ids@.take(i + 1).drop_last() =~= ids@.take(i as int));
        }
        assert(ids@.take(n as int) =~= ids@);
    }

    /// Lists anew which facts take part in each authority lineage.
    pub fn rebuild_authority_facts_index(&mut self, facts: &OrdMap<FactId, SignedFact>)
        ensures
            final(self)@ == (IndexView { authority_facts: participants_of(facts@), ..old(self)@ }),
    {
        let ids = facts.keys();
        let n: usize = ids.len();
        let mut table: OrdMap<DeviceId, OrdSet<FactId>> = OrdMap::new();
        let ghost none = Set::<FactId>::empty();
        assert(ids@.take(0).to_set() =~= none);
        assert(table@ =~= participants_of(facts@.restrict(ids@.take(0).to_set())));
        for i in 0..n
            invariant
                n == ids@.len(),
                forall|k: FactId| #[trigger] ids@.contains(k) <==> facts@.contains_key(k),
                table@ == participants_of(facts@.restrict(ids@.take(i as int).to_set())),
        {
            assert(ids@.contains(ids@[i as int]));
            let subjects = facts.value(&ids[i]).indexed_authority_subjects();
            join_all(&mut table, &subjects, ids[i]);
            proof {
                ordset::lemma_take_set(ids@, i as int);
                lemma_participants_step(
                    facts@,
                    ids@.take(i as int).to_set(),
                    ids@[i as int],
                );
            }
        }
        self.authority_facts = table;
        proof {
            assert(ids@.take(n as int) =~= ids@);
            assert(facts@.restrict(ids@.to_set()) =~= facts@);
        }
    }
}

proof fn lemma_participants_step(facts: Facts, done: Set<FactId>, id: FactId)
    requires
        facts.contains_key(id),
    ensures
        participants_of(facts.restrict(done.insert(id))) == multimap::joined_all(
            participants_of(facts.restrict(done)),
            facts[id].participants(),
            id,
        ),
{
    let small = facts.restrict(done);
    let big = facts.restrict(done.insert(id));
    let lhs = participants_of(big);
    let rhs = multimap::joined_all(participants_of(small), facts[id].participants(), id);
    assert forall|s: DeviceId| #[trigger] lhs.contains_key(s) <==> rhs.contains_key(s) by {
        if lhs.contains_key(s) {
            let x = choose|x: FactId| #[trigger] big.contains_key(x) && big[x].takes_part(s);
            if x != id {
                assert(small.contains_key(x) && small[x].takes_part(s));
            }
        }
        if participants_of(small).contains_key(s) {
            let x = choose|x: FactId| #[trigger] small.contains_key(x) && small[x].takes_part(s);
            assert(big.contains_key(x) && big[x].takes_part(s));
        }
        if facts[id].participants().contains(s) {
            assert(big.contains_key(id) && big[id].takes_part(s));
        }
    }
    assert forall|s: DeviceId| #[trigger] lhs.contains_key(s) implies lhs[s] == rhs[s] by {
        assert forall|x: FactId| lhs[s].contains(x) <==> rhs[s].contains(x) by {
            if big.contains_key(x) && x != id {
                assert(small.contains_key(x));
            }
        }
        assert(lhs[s] =~= rhs[s]);
    }
    assert(lhs =~= rhs);
}

impl FactGraph {
    pub fn is_ancestor(&self, ancestor: &FactId, descendant: &FactId) -> (r: bool)
        ensures
            r == reach::is_ancestor(self@.facts, *ancestor, *descendant),
    {
        match self.facts.get(descendant) {
            Some(f) => {
                let behind = reach_set(&ParentEdges { facts: &self.facts }, &f.content.parents);
                behind.contains(ancestor)
            },
            None => false,
        }
    }

    /// The candidates among `ids` that are behind no other.
    pub fn maximal_ids(&self, ids: &Vec<FactId>) -> (r: Vec<FactId>)
        ensures
            r@ == ids@.filter(|id: FactId| is_maximal(self@.facts, ids@, id)),
    {
        let n: usize = ids.len();
        let mut r: Vec<FactId> = Vec::new();
        let ghost keep = |id: FactId| is_maximal(self@.facts, ids@, id);
        assert(ids@.take(0).filter(keep) =~= Seq::empty());
        for i in 0..n
            invariant
                n == ids@.len(),
                keep == (|id: FactId| is_maximal(self@.facts, ids@, id)),
                r@ == ids@.take(i as int).filter(keep),
        {
            let mut beaten = false;
            for j in 0..n
                invariant
                    n == ids@.len(),
                    i < n,
                    beaten <==> exists|k: int|
                        0 <= k < j && #[trigger] ids@[k] != ids@[i as int] && reach::is_ancestor(
                            self@.facts,
                            ids@[i as int],
                            ids@[k],
                        ),
            {
                if !ids[i].same(&ids[j]) && self.is_ancestor(&ids[i], &ids[j]) {
                    beaten = true;
                    assert(ids@[j as int] != ids@[i as int]);
                }
            }
            if !beaten {
                r.push(ids[i]);
            }
            proof {
                let id = ids@[i as int];
                assert(beaten <==> !keep(id)) by {
                    if !keep(id) {
                        let other = choose|other: FactId|
                            ids@.contains(other) && other != id && #[trigger] reach::is_ancestor(
                                self@.facts,
                                id,
                                other,
                            );
                        let k = choose|k: int| 0 <= k < ids@.len() && ids@[k] == other;
                        assert(ids@[k] != id);
                    }
                    if beaten {
                        let k = choose|k: int|
                            0 <= k < n && #[trigger] ids@[k] != ids@[i as int]
                                && reach::is_ancestor(self@.facts, ids@[i as int], ids@[k]);
                        assert(ids@.contains(ids@[k]));
                    }
                }
                assert(ids@.take(i + 1) =~= ids@.take(i as int).push(id));
                reveal(Seq::filter);
                assert(ids@.take(i + 1).drop_last() =~= ids@.take(i as int));
            }
        }
        assert(ids@.take(n as int) =~= ids@);
        r
    }

    /// The cells that the graph knows of.
    pub fn indexed_cells(&self) -> (r: OrdSet<ExclusiveCell>)
        ensures
            r@ == (if self@.indexes_current() {
                self@.index.cells
            } else {
                cells_of(self@.facts)
            }),
    {
        if self.indexes_current() {
            return self.index.cells.duplicate();
        }
        let mut ix = Indexes::new();
        let ids = self.facts.keys();
        ix.index_metadata_of(&self.facts, &ids);
        proof {
            lemma_metadata(crate::graph::no_index(), self@.facts, ids@);
            assert(ix@.cells =~= cells_of(self@.facts)) by {
                assert forall|c: ExclusiveCell| cells_of(self@.facts).contains(c) implies ix@.cells.contains(c) by {
                    let id = choose|id: FactId| #[trigger]
                        self@.facts.contains_key(id) && self@.facts[id].advances(c);
                    assert(ids@.contains(id));
                }
                assert forall|c: ExclusiveCell| ix@.cells.contains(c) implies cells_of(self@.facts).contains(c) by {
                    let id = choose|id: FactId| #[trigger]
                        ids@.contains(id) && self@.facts.contains_key(id)
                            && self@.facts[id].advances(c);
                    assert(self@.facts.contains_key(id));
                }
            }
        }
        ix.cells
    }

    /// The stand-down evidence against each device.
    pub fn indexed_stand_down_candidates(&self) -> (r: OrdMap<DeviceId, OrdSet<FactId>>)
        ensures
            r@ == (if self@.indexes_current() {
                self@.index.stand_down
            } else {
                stand_down_of(self@.facts)
            }),
    {
        if self.indexes_current() {
            return self.index.stand_down.duplicate();
        }
        let mut ix = Indexes::new();
        let ids = self.facts.keys();
        ix.index_metadata_of(&self.facts, &ids);
        proof {
            lemma_metadata(crate::graph::no_index(), self@.facts, ids@);
            lemma_stand_down_all(self@.facts, ids@);
        }
        ix.stand_down
    }

    /// Return the complete canonical dependency edge set for one admitted row.
    pub fn canonical_dependency_edges(&self, id: &FactId) -> (r: Option<Vec<FactId>>)
        ensures
            match r {
                Some(edges) => self@.indexes_current() && self@.facts.contains_key(*id) && edges@
                    == self@.facts[*id].dependencies(),
                None => !self@.indexes_current() || !self@.facts.contains_key(*id),
            },
    {
        if !self.indexes_current() {
            return None;
        }
        match self.facts.get(id) {
            Some(f) => Some(dependencies(f)),
            None => None,
        }
    }
}

/// Whether `id` is behind no other of `ids`.
pub open spec fn is_maximal(facts: Facts, ids: Seq<FactId>, id: FactId) -> bool {
    !exists|other: FactId|
        ids.contains(other) && other != id && #[trigger] reach::is_ancestor(facts, id, other)
}

/// What entering a list of facts adds.
pub proof fn lemma_metadata(ix: IndexView, facts: Facts, ids: Seq<FactId>)
    ensures
        with_metadata_of(ix, facts, ids).cell_heads == ix.cell_heads,
        with_metadata_of(ix, facts, ids).authority_heads == ix.authority_heads,
        with_metadata_of(ix, facts, ids).provenance == ix.provenance,
        forall|c: ExclusiveCell| #[trigger]
            with_metadata_of(ix, facts, ids).cells.contains(c) <==> ix.cells.contains(c) || exists|
                id: FactId,
            | #[trigger] ids.contains(id) && facts.contains_key(id) && facts[id].advances(c),
        forall|d: DeviceId, x: FactId| #[trigger]
            multimap::at(with_metadata_of(ix, facts, ids).stand_down, d).contains(x)
                <==> multimap::at(ix.stand_down, d).contains(x) || (ids.contains(x)
                && facts.contains_key(x) && facts[x].content.body.stands_down() == Some(d)),
        forall|d: DeviceId| #[trigger]
            with_metadata_of(ix, facts, ids).stand_down.contains_key(d)
                <==> ix.stand_down.contains_key(d) || exists|x: FactId| #[trigger]
                ids.contains(x) && facts.contains_key(x) && facts[x].content.body.stands_down()
                    == Some(d),
    decreases ids.len(),
{
    if ids.len() > 0 {
        let rest = ids.drop_last();
        let last = ids.last();
        lemma_metadata(ix, facts, rest);
        assert(ids =~= rest.push(last));
        assert forall|x: FactId| #[trigger] ids.contains(x) <==> rest.contains(x) || x == last by {
            content::lemma_push_set(rest, last);
            assert(ids.to_set().contains(x) <==> ids.contains(x));
            assert(rest.to_set().contains(x) <==> rest.contains(x));
        }
        let small = with_metadata_of(ix, facts, rest);
        let big = with_metadata_of(ix, facts, ids);
        assert forall|c: ExclusiveCell| #[trigger]
            big.cells.contains(c) <==> ix.cells.contains(c) || exists|id: FactId| #[trigger]
                ids.contains(id) && facts.contains_key(id) && facts[id].advances(c) by {
            if big.cells.contains(c) && !ix.cells.contains(c) {
                if small.cells.contains(c) {
                    let id = choose|id: FactId| #[trigger]
                        rest.contains(id) && facts.contains_key(id) && facts[id].advances(c);
                    assert(ids.contains(id));
                } else {
                    assert(ids.contains(last) && facts[last].advances(c));
                }
            }
            if exists|id: FactId| #[trigger]
                ids.contains(id) && facts.contains_key(id) && facts[id].advances(c) {
                let id = choose|id: FactId| #[trigger]
                    ids.contains(id) && facts.contains_key(id) && facts[id].advances(c);
                if id != last {
                    assert(rest.contains(id));
                } else {
                    assert(facts[last].content.body.cells().to_set().contains(c));
                }
            }
        }
        assert forall|d: DeviceId, x: FactId| #[trigger]
            multimap::at(big.stand_down, d).contains(x) <==> multimap::at(
                ix.stand_down,
                d,
            ).contains(x) || (ids.contains(x) && facts.contains_key(x)
                && facts[x].content.body.stands_down() == Some(d)) by {
            assert(multimap::at(small.stand_down, d).contains(x) <==> multimap::at(
                ix.stand_down,
                d,
            ).contains(x) || (rest.contains(x) && facts.contains_key(x)
                && facts[x].content.body.stands_down() == Some(d)));
        }
        assert forall|d: DeviceId| #[trigger]
            big.stand_down.contains_key(d) <==> ix.stand_down.contains_key(d) || exists|
                x: FactId,
            | #[trigger]
                ids.contains(x) && facts.contains_key(x) && facts[x].content.body.stands_down()
                    == Some(d) by {
            if small.stand_down.contains_key(d) && !ix.stand_down.contains_key(d) {
                let x = choose|x: FactId| #[trigger]
                    rest.contains(x) && facts.contains_key(x)
                        && facts[x].content.body.stands_down() == Some(d);
                assert(ids.contains(x));
            }
            if big.stand_down.contains_key(d) && !small.stand_down.contains_key(d) {
                assert(ids.contains(last));
            }
            if exists|x: FactId| #[trigger]
                ids.contains(x) && facts.contains_key(x) && facts[x].content.body.stands_down()
                    == Some(d) {
                let x = choose|x: FactId| #[trigger]
                    ids.contains(x) && facts.contains_key(x)
                        && facts[x].content.body.stands_down() == Some(d);
                if x != last {
                    assert(rest.contains(x));
                }
            }
        }
    }
}

proof fn lemma_stand_down_all(facts: Facts, ids: Seq<FactId>)
    requires
        forall|id: FactId| #[trigger] ids.contains(id) <==> facts.contains_key(id),
    ensures
        with_metadata_of(crate::graph::no_index(), facts, ids).stand_down == stand_down_of(facts),
{
    let got = with_metadata_of(crate::graph::no_index(), facts, ids).stand_down;
    let want = stand_down_of(facts);
    lemma_metadata(crate::graph::no_index(), facts, ids);
    assert forall|d: DeviceId| #[trigger] got.contains_key(d) <==> want.contains_key(d) by {
        if got.contains_key(d) {
            let x = choose|x: FactId| #[trigger]
                ids.contains(x) && facts.contains_key(x) && facts[x].content.body.stands_down()
                    == Some(d);
            assert(facts.contains_key(x));
        }
        if want.contains_key(d) {
            let x = choose|x: FactId| #[trigger]
                facts.contains_key(x) && facts[x].content.body.stands_down() == Some(d);
            assert(ids.contains(x));
        }
    }
    assert forall|d: DeviceId| #[trigger] got.contains_key(d) implies got[d] == want[d] by {
        assert forall|x: FactId| got[d].contains(x) <==> want[d].contains(x) by {
            assert(multimap::at(got, d).contains(x) <==> ids.contains(x) && facts.contains_key(x)
                && facts[x].content.body.stands_down() == Some(d));
        }
        assert(got[d] =~= want[d]);
    }
    assert(got =~= want);
}

} // verus!

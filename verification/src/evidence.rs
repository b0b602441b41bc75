//! Evidence bundles, and the history that they rest on.

use vstd::prelude::*;

use crate::authority;
use crate::authority::{Gap, Pool, Pools};
use crate::capture;
use crate::checkpoint;
use crate::checks;
use crate::content::{BodyView, ExclusiveCell, FactBody};
use crate::device::DeviceId;
use crate::evaluator;
use crate::fact;
use crate::fact::{dependencies, Facts, FactView, SignedFact};
use crate::graph::{FactGraph, GraphView, Projection, Reading};
use crate::ids::{FactId, MeshContextId};
use crate::multimap;
use crate::order;
use crate::ordmap::OrdMap;
use crate::ordset;
use crate::ordset::{holds, Duplicate, OrdSet};
use crate::projection;
use crate::reach;
use crate::reach::{reach_set, walk_all, InputEdges, WaiterEdges};
use crate::rebuild;
use crate::rollback;

verus! {

/// What a supplied history row is held to.
pub open spec fn pool_row_check(facts: Facts, context: MeshContextId, f: FactView) -> Result<
    (),
    Gap,
> {
    if f.content.mesh_context != context {
        Err(Gap::Invalid("foreign ancestry context"))
    } else if f.checked.refusal is Some {
        Err(Gap::Invalid("invalid ancestry signature or content"))
    } else if facts.contains_key(f.id) && !facts[f.id].same_as(f) {
        Err(Gap::Invalid("ancestry differs from hot body"))
    } else {
        Ok(())
    }
}

/// The identifiers of a list of facts.
pub open spec fn ids_of(list: Seq<FactView>) -> Seq<FactId> {
    list.map_values(|f: FactView| f.id)
}

/// The rows that were loaded for `wanted`, by identifier: each row once, of
/// this mesh, verified, no other than the resident fact, and the wanted one
/// among them.
pub open spec fn pooled(g: GraphView, wanted: FactId, rows: Seq<FactView>) -> Result<Facts, Gap> {
    let table = checkpoint::by_id(rows, rows.len() as int);
    let ids = order::ascending(table.dom());
    if !ids_of(rows).no_duplicates() {
        Err(Gap::Invalid("duplicate ancestry row"))
    } else {
        match checks::run(
            |i: int| pool_row_check(g.facts, g.setting.context_id, table[ids[i]]),
            ids.len() as int,
        ) {
            Err(e) => Err(e),
            Ok(()) => if !table.contains_key(wanted) {
                Err(Gap::Invalid("incomplete signed-parent ancestry"))
            } else {
                Ok(table)
            },
        }
    }
}

/// What a candidate head is held to before any eligibility is evaluated.
pub open spec fn candidate_head_check(facts: Facts, id: FactId) -> Result<(), Gap> {
    if !facts.contains_key(id) {
        Err(Gap::Invalid("missing proof head"))
    } else if !facts[id].content.parents.to_set().subset_of(facts.dom()) {
        Err(Gap::Invalid("missing direct proof parent"))
    } else {
        Ok(())
    }
}

/// What the candidate heads of a cell are held to.
pub open spec fn candidate_heads_check(g: GraphView, cell: ExclusiveCell) -> Result<(), Gap> {
    let raw = order::ascending(g.reading().raw_heads(cell));
    checks::run(|k: int| candidate_head_check(g.facts, raw[k]), raw.len() as int)
}

/// The eligible heads of the first `n` cells, one cell after the other.
pub open spec fn eligible(g: GraphView, pools: Pools, cells: Seq<ExclusiveCell>, n: int) -> Result<
    Seq<FactId>,
    Gap,
>
    decreases n,
{
    if n <= 0 {
        Ok(Seq::empty())
    } else {
        match eligible(g, pools, cells, n - 1) {
            Err(e) => Err(e),
            Ok(heads) => match authority::cell_heads_with(
                g.reading(),
                Some(pools),
                cells[n - 1],
            ) {
                Err(e) => Err(e),
                Ok(more) => Ok(heads + more),
            },
        }
    }
}

/// The eligible heads of cells, by the resident indexes and the history that
/// was supplied so far.
pub open spec fn proof_heads(g: GraphView, pools: Pools, cells: Seq<ExclusiveCell>) -> Result<
    Seq<FactId>,
    Gap,
> {
    if !g.indexes_current() {
        Err(Gap::Invalid("stale proof head index"))
    } else {
        match checks::run(|i: int| candidate_heads_check(g, cells[i]), cells.len() as int) {
            Err(e) => Err(e),
            Ok(()) => eligible(g, pools, cells, cells.len() as int),
        }
    }
}

proof fn lemma_eligible_err(g: GraphView, pools: Pools, cells: Seq<ExclusiveCell>, i: int, n: int)
    requires
        0 <= i <= n,
        eligible(g, pools, cells, i) is Err,
    ensures
        eligible(g, pools, cells, n) == eligible(g, pools, cells, i),
    decreases n - i,
{
    if i < n {
        lemma_eligible_err(g, pools, cells, i, n - 1);
    }
}

/// What a list of optional heads is seen as.
pub open spec fn heads_view(r: Result<Vec<FactId>, Gap>) -> Result<Seq<FactId>, Gap> {
    match r {
        Ok(v) => Ok(v@),
        Err(e) => Err(e),
    }
}

/// What loaded rows are seen as.
pub open spec fn pool_view(r: Result<Pool, Gap>) -> Result<Facts, Gap> {
    match r {
        Ok(p) => Ok(p@),
        Err(e) => Err(e),
    }
}

/// The identifiers of a list of facts.
fn list_ids(rows: &Vec<SignedFact>) -> (r: Vec<FactId>)
    ensures
        r@ == ids_of(checkpoint::facts_view(rows@)),
{
    let n: usize = rows.len();
    let mut r: Vec<FactId> = Vec::new();
    for i in 0..n
        invariant
            n == rows@.len(),
            r@.len() == i,
            forall|j: int| 0 <= j < i ==> r@[j] == (#[trigger] rows@[j])@.id,
    {
        r.push(rows[i].id);
    }
    assert(r@ =~= ids_of(checkpoint::facts_view(rows@)));
    r
}

impl FactGraph {
    /// Checks one loaded row.
    fn check_pool_row(&self, row: &SignedFact) -> (r: Result<(), Gap>)
        ensures
            r == pool_row_check(self@.facts, self@.setting.context_id, row@),
    {
        if !row.content.mesh_context.same(&self.setting.context_id) {
            return Err(Gap::Invalid("foreign ancestry context"));
        }
        if row.verify().is_err() {
            return Err(Gap::Invalid("invalid ancestry signature or content"));
        }
        match self.facts.get(&row.id) {
            Some(hot) => if hot.same(row) {
                Ok(())
            } else {
                Err(Gap::Invalid("ancestry differs from hot body"))
            },
            None => Ok(()),
        }
    }

    /// Takes rows that were loaded for `wanted` as supplied history.
    pub fn proof_pool(&self, wanted: &FactId, rows: Vec<SignedFact>) -> (r: Result<Pool, Gap>)
        ensures
            pool_view(r) == pooled(self@, *wanted, checkpoint::facts_view(rows@)),
    {
        let ghost views = checkpoint::facts_view(rows@);
        let listed = list_ids(&rows);
        let n: usize = rows.len();
        let mut table: OrdMap<FactId, SignedFact> = OrdMap::new();
        for i in 0..n
            invariant
                n == rows@.len(),
                views == checkpoint::facts_view(rows@),
                listed@ == ids_of(views),
                table@ == checkpoint::by_id(views, i as int),
                forall|k: FactId| #[trigger]
                    table@.contains_key(k) <==> listed@.take(i as int).contains(k),
                listed@.take(i as int).no_duplicates(),
        {
            assert(views[i as int] == rows@[i as int]@);
            assert(listed@[i as int] == rows@[i as int]@.id);
            let ghost before = listed@.take(i as int);
            let ghost after = listed@.take(i + 1);
            if table.contains_key(&rows[i].id) {
                proof {
                    let j = choose|j: int|
                        0 <= j < before.len() && before[j] == listed@[i as int];
                    assert(listed@[j] == listed@[i as int]);
                }
                return Err(Gap::Invalid("duplicate ancestry row"));
            }
            table.insert(rows[i].id, rows[i].duplicate());
            proof {
                assert(after =~= before.push(listed@[i as int]));
                assert forall|k: FactId| #[trigger]
                    table@.contains_key(k) <==> after.contains(k) by {
                    if before.contains(k) {
                        let j = choose|j: int| 0 <= j < before.len() && before[j] == k;
                        assert(after[j] == k);
                    }
                    if k == listed@[i as int] {
                        assert(after[i as int] == k);
                    }
                }
                assert forall|a: int, b: int|
                    0 <= a < after.len() && 0 <= b < after.len() && a != b implies after[a]
                    != after[b] by {
                    if a == i {
                        assert(before[b] == after[b]);
                        assert(before.contains(before[b]));
                    } else if b == i {
                        assert(before[a] == after[a]);
                        assert(before.contains(before[a]));
                    } else {
                        assert(before[a] != before[b]);
                    }
                }
            }
        }
        assert(listed@.take(n as int) =~= listed@);
        let ids = table.keys();
        let m: usize = ids.len();
        let ghost check = |i: int|
            pool_row_check(self@.facts, self@.setting.context_id, table@[ids@[i]]);
        for i in 0..m
            invariant
                m == ids@.len(),
                forall|k: FactId| #[trigger] ids@.contains(k) <==> table@.contains_key(k),
                ids@ == order::ascending(table@.dom()),
                table@ == checkpoint::by_id(views, views.len() as int),
                views == checkpoint::facts_view(rows@),
                ids_of(views).no_duplicates(),
                check == (|i: int|
                    pool_row_check(self@.facts, self@.setting.context_id, table@[ids@[i]])),
                checks::run(check, i as int) == Ok::<(), Gap>(()),
        {
            assert(ids@.contains(ids@[i as int]));
            assert(checks::run(check, i + 1) == check(i as int));
            if let Err(e) = self.check_pool_row(table.value(&ids[i])) {
                proof {
                    checks::lemma_run_err(check, i + 1, m as int);
                }
                return Err(e);
            }
        }
        if !table.contains_key(wanted) {
            return Err(Gap::Invalid("incomplete signed-parent ancestry"));
        }
        Ok(Pool { rows: table })
    }

    /// Checks the candidate heads of a cell.
    fn check_candidate_heads(&self, cell: &ExclusiveCell) -> (r: Result<(), Gap>)
        ensures
            r == candidate_heads_check(self@, *cell),
    {
        let raw = self.raw_cell_heads(cell);
        let n: usize = raw.len();
        let ghost check = |k: int| candidate_head_check(self@.facts, raw@[k]);
        for i in 0..n
            invariant
                n == raw@.len(),
                raw@ == order::ascending(self@.reading().raw_heads(*cell)),
                check == (|k: int| candidate_head_check(self@.facts, raw@[k])),
                checks::run(check, i as int) == Ok::<(), Gap>(()),
        {
            assert(checks::run(check, i + 1) == check(i as int));
            let found: Result<(), Gap> = match self.facts.get(&raw[i]) {
                Some(f) => if self.holds_all(&f.content.parents) {
                    Ok(())
                } else {
                    Err(Gap::Invalid("missing direct proof parent"))
                },
                None => Err(Gap::Invalid("missing proof head")),
            };
            if let Err(e) = found {
                proof {
                    checks::lemma_run_err(check, i + 1, n as int);
                }
                return Err(e);
            }
        }
        Ok(())
    }

    /// Whether all of `ids` are admitted.
    fn holds_all(&self, ids: &Vec<FactId>) -> (r: bool)
        ensures
            r == ids@.to_set().subset_of(self@.facts.dom()),
    {
        let n: usize = ids.len();
        for i in 0..n
            invariant
                n == ids@.len(),
                forall|j: int| 0 <= j < i ==> self@.facts.contains_key(#[trigger] ids@[j]),
        {
            if !self.facts.contains_key(&ids[i]) {
                assert(ids@.to_set().contains(ids@[i as int]));
                return false;
            }
        }
        true
    }

    /// Select the same eligible cell heads as `cell_heads`, using supplied
    /// rows only when signed-parent reachability leaves the resident facts.
    /// Current indexes and selector provenance remain on this graph; the
    /// supplied rows never become a second graph or authority frontier.
    /// Where a history is still needed the answer says whose: load it, take
    /// it with [`FactGraph::proof_pool`], and ask again.
    pub fn proof_cell_heads_with_history(
        &self,
        cells: &Vec<ExclusiveCell>,
        pools: &Vec<Pool>,
    ) -> (r: Result<Vec<FactId>, Gap>)
        ensures
            heads_view(r) == proof_heads(self@, authority::pools_view(pools@), cells@),
    {
        if !self.indexes_current() {
            return Err(Gap::Invalid("stale proof head index"));
        }
        let ghost history = authority::pools_view(pools@);
        let n: usize = cells.len();
        let ghost check = |i: int| candidate_heads_check(self@, cells@[i]);
        for i in 0..n
            invariant
                n == cells@.len(),
                self@.indexes_current(),
                history == authority::pools_view(pools@),
                check == (|i: int| candidate_heads_check(self@, cells@[i])),
                checks::run(check, i as int) == Ok::<(), Gap>(()),
        {
            assert(checks::run(check, i + 1) == check(i as int));
            if let Err(e) = self.check_candidate_heads(&cells[i]) {
                proof {
                    checks::lemma_run_err(check, i + 1, n as int);
                }
                return Err(e);
            }
        }
        let mut heads: Vec<FactId> = Vec::new();
        for i in 0..n
            invariant
                n == cells@.len(),
                self@.indexes_current(),
                history == authority::pools_view(pools@),
                proof_heads(self@, history, cells@) == eligible(self@, history, cells@, n as int),
                eligible(self@, history, cells@, i as int) == Ok::<Seq<FactId>, Gap>(heads@),
        {
            match self.cell_heads_with_ancestry(Some(pools), &cells[i]) {
                Ok(more) => {
                    ordset::append_keys(&mut heads, &more);
                },
                Err(e) => {
                    proof {
                        lemma_eligible_err(self@, history, cells@, i + 1, n as int);
                    }
                    return Err(e);
                },
            }
        }
        Ok(heads)
    }
}

/// Whether the resident facts answer every ancestry question about a
/// reading's heads: every signed parent and every lineage head is resident.
pub open spec fn answers_itself(g: Reading) -> bool {
    &&& forall|id: FactId| #[trigger]
        g.facts.contains_key(id) ==> g.facts[id].content.parents.to_set().subset_of(g.facts.dom())
    &&& forall|s: DeviceId| #[trigger]
        g.authority_heads(s).finite() && g.authority_heads(s).subset_of(g.facts.dom())
}

proof fn lemma_resident_answer(g: Reading, pools: Pools, a: FactId, d: FactId)
    requires
        answers_itself(g),
        g.facts.contains_key(d),
    ensures
        authority::ancestry(g.facts, Some(pools), a, d) == authority::ancestry(
            g.facts,
            None,
            a,
            d,
        ),
{
    let edges = reach::parent_edges(g.facts);
    let all = g.facts.dom();
    reach::lemma_reach_least(edges, set![d], all);
}

proof fn lemma_resident_common(g: Reading, pools: Pools, id: FactId, heads: Seq<FactId>)
    requires
        answers_itself(g),
        forall|i: int| 0 <= i < heads.len() ==> g.facts.contains_key(#[trigger] heads[i]),
    ensures
        authority::is_common(g.facts, Some(pools), id, heads) == authority::is_common(
            g.facts,
            None,
            id,
            heads,
        ),
    decreases heads.len(),
{
    if heads.len() > 0 {
        lemma_resident_answer(g, pools, id, heads[0]);
        lemma_resident_common(g, pools, id, heads.drop_first());
    }
}

proof fn lemma_resident_beaten(g: Reading, pools: Pools, id: FactId, others: Seq<FactId>)
    requires
        answers_itself(g),
        forall|i: int| 0 <= i < others.len() ==> g.facts.contains_key(#[trigger] others[i]),
    ensures
        authority::is_beaten(g.facts, Some(pools), id, others) == authority::is_beaten(
            g.facts,
            None,
            id,
            others,
        ),
    decreases others.len(),
{
    if others.len() > 0 {
        lemma_resident_answer(g, pools, id, others[0]);
        lemma_resident_beaten(g, pools, id, others.drop_first());
    }
}

proof fn lemma_resident_unbeaten(g: Reading, pools: Pools, ids: Seq<FactId>, n: int)
    requires
        answers_itself(g),
        0 <= n <= ids.len(),
        forall|i: int| 0 <= i < ids.len() ==> g.facts.contains_key(#[trigger] ids[i]),
    ensures
        authority::unbeaten(g.facts, Some(pools), ids, n) == authority::unbeaten(
            g.facts,
            None,
            ids,
            n,
        ),
    decreases n,
{
    if n > 0 {
        lemma_resident_unbeaten(g, pools, ids, n - 1);
        lemma_resident_beaten(g, pools, ids[n - 1], ids);
    }
}

proof fn lemma_direct_resident(facts: Facts, parents: Seq<FactId>, subject: DeviceId, n: int)
    requires
        0 <= n <= parents.len(),
    ensures
        forall|i: int|
            0 <= i < authority::direct_uses(facts, parents, subject, n).len()
                ==> facts.contains_key(
                #[trigger] authority::direct_uses(facts, parents, subject, n)[i],
            ),
    decreases n,
{
    if n > 0 {
        lemma_direct_resident(facts, parents, subject, n - 1);
        let before = authority::direct_uses(facts, parents, subject, n - 1);
        let after = authority::direct_uses(facts, parents, subject, n);
        assert forall|i: int| 0 <= i < after.len() implies facts.contains_key(
            #[trigger] after[i],
        ) by {
            if i < before.len() {
                assert(facts.contains_key(before[i]));
            }
        }
    }
}

proof fn lemma_resident_subjects(g: Reading, pools: Pools, f: FactView, subjects: Seq<DeviceId>)
    requires
        answers_itself(g),
    ensures
        authority::subjects_verdict(g, Some(pools), f, subjects) == authority::subjects_verdict(
            g,
            None,
            f,
            subjects,
        ),
    decreases subjects.len(),
{
    if subjects.len() > 0 {
        let subject = subjects[0];
        let listed = order::ascending(g.authority_heads(subject));
        ordset::lemma_listing(g.authority_heads(subject));
        assert forall|i: int| 0 <= i < listed.len() implies g.facts.contains_key(
            #[trigger] listed[i],
        ) by {
            assert(listed.contains(listed[i]));
        }
        lemma_resident_common(g, pools, f.id, listed);
        let parents = f.content.parents;
        let direct = authority::direct_uses(g.facts, parents, subject, parents.len() as int);
        lemma_direct_resident(g.facts, parents, subject, parents.len() as int);
        lemma_resident_unbeaten(g, pools, direct, direct.len() as int);
        lemma_resident_subjects(g, pools, f, subjects.drop_first());
    }
}

proof fn lemma_resident_verdict(g: Reading, pools: Pools, id: FactId)
    requires
        answers_itself(g),
    ensures
        authority::verdict(g, Some(pools), id) == authority::verdict(g, None, id),
{
    reveal(authority::verdict);
    if g.facts.contains_key(id) {
        let f = g.facts[id];
        lemma_resident_subjects(
            g,
            pools,
            f,
            order::ascending(f.content.body.subjects(f.content.author)),
        );
    }
}

/// The counting ones among the first `n` of a list of heads.
proof fn lemma_counted(g: Reading, pools: Pools, cell: ExclusiveCell, n: int)
    requires
        answers_itself(g),
        g.raw_heads(cell).finite(),
        0 <= n <= order::ascending(g.raw_heads(cell)).len(),
    ensures
        ({
            let raw = order::ascending(g.raw_heads(cell));
            let kept = authority::counted(g, Some(pools), raw, n);
            &&& kept is Ok
            &&& order::is_ascending(kept->Ok_0)
            &&& kept->Ok_0.to_set() == raw.take(n).to_set().filter(
                |id: FactId| authority::is_authoritative(g, id),
            )
        }),
    decreases n,
{
    let raw = order::ascending(g.raw_heads(cell));
    let keep = |id: FactId| authority::is_authoritative(g, id);
    ordset::lemma_listing(g.raw_heads(cell));
    if n == 0 {
        assert(raw.take(0).to_set().filter(keep) =~= Set::empty());
        assert(Seq::<FactId>::empty().to_set() =~= Set::empty());
    } else {
        lemma_counted(g, pools, cell, n - 1);
        let before = authority::counted(g, Some(pools), raw, n - 1)->Ok_0;
        let id = raw[n - 1];
        lemma_resident_verdict(g, pools, id);
        authority::lemma_hot_verdict(g, id);
        ordset::lemma_next_is_new(raw, n - 1);
        assert forall|i: int| 0 <= i < before.len() implies order::before(
            #[trigger] before[i],
            id,
        ) by {
            assert(before.to_set().contains(before[i]));
            assert(raw.take(n - 1).to_set().contains(before[i]));
            let short = raw.take(n - 1);
            let k = choose|k: int| 0 <= k < short.len() && short[k] == before[i];
            assert(order::before(raw[k], raw[n - 1]));
        }
        if authority::is_authoritative(g, id) {
            ordset::lemma_insert_ascending(before, before.len() as int, id);
            assert(before.insert(before.len() as int, id) =~= before.push(id));
            assert(raw.take(n).to_set().filter(keep) =~= raw.take(n - 1).to_set().filter(
                keep,
            ).insert(id));
        } else {
            assert(raw.take(n).to_set().filter(keep) =~= raw.take(n - 1).to_set().filter(keep));
        }
    }
}

/// Where the resident facts answer for themselves, the heads with any
/// supplied history are the resident cell heads.
pub proof fn history_keeps_resident_heads(g: Reading, pools: Pools, cell: ExclusiveCell)
    requires
        answers_itself(g),
        g.raw_heads(cell).finite(),
    ensures
        authority::cell_heads_with(g, Some(pools), cell) == Ok::<Seq<FactId>, Gap>(
            authority::cell_heads(g, cell),
        ),
{
    let raw = order::ascending(g.raw_heads(cell));
    let keep = |id: FactId| authority::is_authoritative(g, id);
    ordset::lemma_listing(g.raw_heads(cell));
    lemma_counted(g, pools, cell, raw.len() as int);
    assert(raw.take(raw.len() as int) =~= raw);
    let kept = authority::counted(g, Some(pools), raw, raw.len() as int)->Ok_0;
    let counting = g.raw_heads(cell).filter(keep);
    assert(kept.to_set() == counting);
    order::lemma_ascending_of(kept);
    if kept.len() == 0 {
        assert(counting =~= Set::empty());
    } else {
        assert(kept.to_set().contains(kept[0]));
    }
}

/// The resident heads of the first `n` cells, one cell after the other.
pub open spec fn resident_heads(g: Reading, cells: Seq<ExclusiveCell>, n: int) -> Seq<FactId>
    decreases n,
{
    if n <= 0 {
        Seq::empty()
    } else {
        resident_heads(g, cells, n - 1) + authority::cell_heads(g, cells[n - 1])
    }
}

proof fn lemma_eligible_resident(g: GraphView, pools: Pools, cells: Seq<ExclusiveCell>, n: int)
    requires
        answers_itself(g.reading()),
        forall|c: ExclusiveCell| #[trigger] g.reading().raw_heads(c).finite(),
        0 <= n <= cells.len(),
    ensures
        eligible(g, pools, cells, n) == Ok::<Seq<FactId>, Gap>(
            resident_heads(g.reading(), cells, n),
        ),
    decreases n,
{
    if n > 0 {
        lemma_eligible_resident(g, pools, cells, n - 1);
        history_keeps_resident_heads(g.reading(), pools, cells[n - 1]);
    }
}

proof fn lemma_candidates_pass(g: GraphView, cell: ExclusiveCell, n: int)
    requires
        answers_itself(g.reading()),
        g.reading().raw_heads(cell).finite(),
        g.reading().raw_heads(cell).subset_of(g.facts.dom()),
        0 <= n <= order::ascending(g.reading().raw_heads(cell)).len(),
    ensures
        checks::run(
            |k: int|
                candidate_head_check(g.facts, order::ascending(g.reading().raw_heads(cell))[k]),
            n,
        ) is Ok,
    decreases n,
{
    if n > 0 {
        lemma_candidates_pass(g, cell, n - 1);
        let raw = order::ascending(g.reading().raw_heads(cell));
        ordset::lemma_listing(g.reading().raw_heads(cell));
        assert(raw.to_set().contains(raw[n - 1]));
        assert(g.reading().facts.contains_key(raw[n - 1]));
    }
}

proof fn lemma_all_pass(g: GraphView, cells: Seq<ExclusiveCell>, n: int)
    requires
        answers_itself(g.reading()),
        forall|c: ExclusiveCell| #[trigger]
            g.reading().raw_heads(c).finite() && g.reading().raw_heads(c).subset_of(g.facts.dom()),
        0 <= n <= cells.len(),
    ensures
        checks::run(|i: int| candidate_heads_check(g, cells[i]), n) is Ok,
    decreases n,
{
    if n > 0 {
        lemma_all_pass(g, cells, n - 1);
        let c = cells[n - 1];
        assert(g.reading().raw_heads(c).finite());
        lemma_candidates_pass(g, c, order::ascending(g.reading().raw_heads(c)).len() as int);
    }
}

/// Where the resident facts answer for themselves, a call with any supplied
/// history gives the resident heads of all its cells: more history never
/// changes the answer.
pub proof fn history_leaves_the_answer(g: GraphView, pools: Pools, cells: Seq<ExclusiveCell>)
    requires
        g.indexes_current(),
        answers_itself(g.reading()),
        forall|c: ExclusiveCell| #[trigger]
            g.reading().raw_heads(c).finite() && g.reading().raw_heads(c).subset_of(g.facts.dom()),
    ensures
        proof_heads(g, pools, cells) == Ok::<Seq<FactId>, Gap>(
            resident_heads(g.reading(), cells, cells.len() as int),
        ),
{
    assert forall|c: ExclusiveCell| #[trigger] g.reading().raw_heads(c).finite() by {}
    lemma_all_pass(g, cells, cells.len() as int);
    lemma_eligible_resident(g, pools, cells, cells.len() as int);
}

/// What evidence against a target rests on: the heads of its role and its
/// membership.
pub open spec fn target_heads(g: GraphView, target: DeviceId) -> Seq<FactId> {
    authority::cell_heads(g.reading(), (ExclusiveCell::Role { subject: target })) + authority::cell_heads(
        g.reading(),
        (ExclusiveCell::Membership { subject: target }),
    )
}

/// All that `roots` rest on, themselves included.
pub open spec fn causal_closure(facts: Facts, roots: Set<FactId>) -> Set<FactId> {
    reach::reach(reach::input_edges(facts), roots)
}

/// The complete causal closure of a projected eviction.
pub open spec fn eviction_bundle(g: GraphView, target: DeviceId) -> Option<Seq<FactView>> {
    let closure = causal_closure(g.facts, target_heads(g, target).to_set());
    if evaluator::eval(g).membership(target) == Some(false) && closure.subset_of(g.facts.dom()) {
        Some(order::ascending(closure).map_values(|id: FactId| g.facts[id]))
    } else {
        None
    }
}

/// Whether what a fact claims of its target is projected.
pub open spec fn claim_is_projected(g: GraphView, f: FactView) -> bool {
    match f.content.body {
        BodyView::Evict { target } => evaluator::eval(g).membership(target) == Some(false),
        BodyView::EvictionProof { target, .. } => projection::current(
            g,
        ).stand_down.contains_key(target),
        BodyView::SelfStandDown { device_id, .. } => projection::current(
            g,
        ).stand_down.contains_key(device_id),
        _ => true,
    }
}

/// The roots of the selected evidence against a target.
pub open spec fn evidence_roots(g: GraphView, target: DeviceId) -> Set<FactId> {
    let heads = target_heads(g, target).to_set();
    match capture::held(projection::current(g).stand_down, target) {
        Some(x) => heads.insert(x),
        None => heads,
    }
}

/// Whether a bundle is exactly the causal closure of the selected evidence
/// against a target that is currently stood down.
pub open spec fn bundle_is_exact(g: GraphView, target: DeviceId, bundle: Seq<FactView>) -> bool {
    let roots = evidence_roots(g, target);
    &&& projection::current(g).stand_down.contains_key(target)
    &&& forall|i: int|
        0 <= i < bundle.len() ==> g.facts.contains_key((#[trigger] bundle[i]).id)
            && g.facts[bundle[i].id].same_as(bundle[i])
    &&& causal_closure(g.facts, roots).subset_of(g.facts.dom())
    &&& ids_of(bundle).to_set() == causal_closure(g.facts, roots)
}

/// What an optional bundle is seen as.
pub open spec fn bundle_view(r: Option<Vec<SignedFact>>) -> Option<Seq<FactView>> {
    match r {
        Some(v) => Some(checkpoint::facts_view(v@)),
        None => None,
    }
}

/// A bundle that is handed out for an eviction is verified exactly where its
/// target is stood down and the projected proof of that is in the bundle.
pub proof fn eviction_bundles_verify(g: GraphView, target: DeviceId)
    requires
        g.facts.dom().finite(),
        forall|id: FactId| #[trigger] g.facts.contains_key(id) ==> g.facts[id].id == id,
        eviction_bundle(g, target) is Some,
    ensures
        bundle_is_exact(g, target, eviction_bundle(g, target)->Some_0) <==> (projection::current(
            g,
        ).stand_down.contains_key(target) && ids_of(eviction_bundle(g, target)->Some_0).contains(
            projection::current(g).stand_down[target],
        )),
{
    let edges = reach::input_edges(g.facts);
    let heads = target_heads(g, target).to_set();
    let closure = causal_closure(g.facts, heads);
    let bundle = eviction_bundle(g, target)->Some_0;
    vstd::set_lib::lemma_set_subset_finite(g.facts.dom(), closure);
    ordset::lemma_listing(closure);
    let ids = order::ascending(closure);
    assert forall|i: int| 0 <= i < bundle.len() implies g.facts.contains_key(
        (#[trigger] bundle[i]).id,
    ) && bundle[i].id == ids[i] by {
        assert(ids.contains(ids[i]));
    }
    assert(ids_of(bundle) =~= ids);
    if projection::current(g).stand_down.contains_key(target) {
        let x = projection::current(g).stand_down[target];
        let roots = evidence_roots(g, target);
        reach::lemma_reach_closed(edges, heads);
        reach::lemma_reach_closed(edges, roots);
        if closure.contains(x) {
            assert(roots.subset_of(closure));
            reach::lemma_reach_monotone(edges, roots, heads);
            reach::lemma_reach_monotone(edges, heads, roots);
            assert(causal_closure(g.facts, roots) =~= closure);
        } else {
            assert(roots.contains(x));
            assert(causal_closure(g.facts, roots).contains(x));
            assert(!ids.to_set().contains(x));
        }
    }
}

impl FactGraph {
    /// Recompute the complete resident graph projection, without reading or
    /// updating the incremental cache.
    pub fn full_projection_for_lab(&self) -> (r: Projection)
        ensures
            r@ == projection::projected(self@.reading()),
    {
        Projection::from_graph(self)
    }

    fn target_roots(&self, target: &DeviceId) -> (r: Vec<FactId>)
        ensures
            r@ == target_heads(self@, *target),
    {
        let mut r = self.cell_heads(&ExclusiveCell::role(*target));
        let more = self.cell_heads(&ExclusiveCell::membership(*target));
        ordset::append_keys(&mut r, &more);
        r
    }

    /// Return the complete causal closure for a currently projected Closed
    /// eviction.  The role and membership cells are both roots because an
    /// eviction advances both independent semantic cells.
    pub fn eviction_proof_bundle(&self, target: &DeviceId) -> (r: Option<Vec<SignedFact>>)
        ensures
            bundle_view(r) == eviction_bundle(self@, *target),
    {
        match self.evaluator().effective_membership(target) {
            Some(false) => {},
            _ => {
                return None;
            },
        }
        let roots = self.target_roots(target);
        assert(reach::input_edges(self@.facts).dom() =~= self@.facts.dom());
        let all = match walk_all(&InputEdges { facts: &self.facts }, &roots) {
            Ok(all) => all,
            Err(_) => {
                return None;
            },
        };
        let ids = all.to_vec();
        let n: usize = ids.len();
        let mut bundle: Vec<SignedFact> = Vec::new();
        for i in 0..n
            invariant
                n == ids@.len(),
                ids@.to_set() == all@,
                all@.subset_of(self@.facts.dom()),
                bundle@.len() == i,
                forall|j: int| 0 <= j < i ==> (#[trigger] bundle@[j])@ == self@.facts[ids@[j]],
        {
            assert(ids@.to_set().contains(ids@[i as int]));
            assert(self@.facts.dom().contains(ids@[i as int]));
            bundle.push(self.facts.value(&ids[i]).duplicate());
        }
        assert(checkpoint::facts_view(bundle@) =~= ids@.map_values(|id: FactId| self@.facts[id]));
        Some(bundle)
    }

    /// Verify projection conditions for a received ordinary fact bundle.
    /// The graph remains the sole authority; this method does not inspect its
    /// carrier or route.
    pub fn bundle_projection_is_verified(&self, facts: &Vec<SignedFact>) -> (r: bool)
        ensures
            r == (forall|i: int|
                0 <= i < facts@.len() ==> claim_is_projected(self@, (#[trigger] facts@[i])@)),
    {
        let evaluator = self.evaluator();
        let n: usize = facts.len();
        for i in 0..n
            invariant
                n == facts@.len(),
                evaluator@ == evaluator::eval(self@),
                forall|j: int| 0 <= j < i ==> claim_is_projected(self@, (#[trigger] facts@[j])@),
        {
            let fine = match &facts[i].content.body {
                FactBody::Evict { target } => match evaluator.effective_membership(target) {
                    Some(false) => true,
                    _ => false,
                },
                FactBody::EvictionProof { target, .. } => evaluator.is_stood_down(target),
                FactBody::SelfStandDown { device_id, .. } => evaluator.is_stood_down(device_id),
                _ => true,
            };
            assert(fine == claim_is_projected(self@, facts@[i as int]@));
            if !fine {
                return false;
            }
        }
        true
    }

    /// Verify that a proof bundle is exactly the causal closure of the
    /// selected target evidence and that the target is currently stood down.
    pub fn proof_bundle_is_verified(&self, target: &DeviceId, facts: &Vec<SignedFact>) -> (r: bool)
        ensures
            r == bundle_is_exact(self@, *target, checkpoint::facts_view(facts@)),
    {
        let ghost views = checkpoint::facts_view(facts@);
        let projection = self.projection();
        let proof_id = match projection.stand_down(target) {
            Some(s) => s.proof,
            None => {
                return false;
            },
        };
        let heads = self.target_roots(target);
        let mut roots: OrdSet<FactId> = OrdSet::from_vec(&heads);
        roots.insert(proof_id);
        assert(roots@ == evidence_roots(self@, *target));
        let n: usize = facts.len();
        for i in 0..n
            invariant
                n == facts@.len(),
                views == checkpoint::facts_view(facts@),
                forall|j: int|
                    0 <= j < i ==> self@.facts.contains_key((#[trigger] views[j]).id)
                        && self@.facts[views[j].id].same_as(views[j]),
        {
            assert(views[i as int] == facts@[i as int]@);
            let own = match self.facts.get(&facts[i].id) {
                Some(f) => f.same(&facts[i]),
                None => false,
            };
            if !own {
                return false;
            }
        }
        let listed = roots.to_vec();
        assert(reach::input_edges(self@.facts).dom() =~= self@.facts.dom());
        let delivered = OrdSet::from_vec(&list_ids(facts));
        match walk_all(&InputEdges { facts: &self.facts }, &listed) {
            Ok(all) => all.same(&delivered),
            Err(_) => false,
        }
    }
}

/// Whether something a fact advances or takes part in has a head that the
/// fact does not name.
pub open spec fn hides_head(g: GraphView, f: FactView) -> bool {
    ||| exists|c: ExclusiveCell, h: FactId|
        f.advances(c) && #[trigger] multimap::at(g.index.cell_heads, c).contains(h)
            && !f.inputs().contains(h)
    ||| exists|s: DeviceId, h: FactId|
        f.takes_part(s) && #[trigger] multimap::at(g.index.authority_heads, s).contains(h)
            && !f.inputs().contains(h)
}

/// Whether a fact stands in a relation that the resident facts may not show.
pub open spec fn is_cold_relation(g: GraphView, f: FactView) -> bool {
    hides_head(g, f) || (g.index.provenance.dom().len() > 0 && (!rebuild::carries_current_heads(
        g,
        f,
    ) || !f.inputs().subset_of(g.facts.dom()) || !f.content.parents.to_set().subset_of(
        evaluator::carried(g, f.content.body, f.content.author),
    )))
}

/// The waiting facts that the candidates and the ready ones may wake.
pub open spec fn wakeable(g: GraphView, candidates: Seq<FactView>) -> Set<FactId> {
    rollback::closure(g, g.quarantine.ready.union(ids_of(candidates).to_set()))
}

/// The facts that an operation may admit: the candidates and what they may
/// wake.
pub open spec fn may_enter(g: GraphView, candidates: Seq<FactView>, f: FactView) -> bool {
    ||| candidates.contains(f)
    ||| exists|id: FactId| #[trigger]
        wakeable(g, candidates).contains(id) && g.quarantine.facts.contains_key(id)
            && g.quarantine.facts[id] == f
}

/// Whether a fact that may enter needs the history.
pub open spec fn needs_history(g: GraphView, candidates: Seq<FactView>) -> bool {
    exists|f: FactView| #[trigger]
        may_enter(g, candidates, f) && (f.is_selector() || is_cold_relation(g, f))
}

/// The canonical roots needed before an operation can introduce new
/// reachability anchors.
pub open spec fn history_roots(g: GraphView, candidates: Seq<FactView>) -> Set<FactId> {
    if g.is_complete() || !needs_history(g, candidates) {
        Set::empty()
    } else {
        Set::new(
            |id: FactId|
                (g.facts.contains_key(id) || exists|f: FactView| #[trigger]
                    may_enter(g, candidates, f) && f.inputs().contains(id)) && !ids_of(
                    candidates,
                ).contains(id) && !g.quarantine.facts.contains_key(id),
        )
    }
}

impl FactGraph {
    /// Whether one of `heads` is not among `direct`.
    fn misses_head(&self, heads: &Vec<FactId>, direct: &Vec<FactId>) -> (r: bool)
        ensures
            r == exists|h: FactId| #[trigger] heads@.contains(h) && !direct@.contains(h),
    {
        let n: usize = heads.len();
        for i in 0..n
            invariant
                n == heads@.len(),
                forall|j: int| 0 <= j < i ==> direct@.contains(#[trigger] heads@[j]),
        {
            if !holds(direct, &heads[i]) {
                assert(heads@.contains(heads@[i as int]));
                return true;
            }
        }
        proof {
            assert forall|h: FactId| #[trigger] heads@.contains(h) implies direct@.contains(h) by {
                let j = choose|j: int| 0 <= j < heads@.len() && heads@[j] == h;
                assert(direct@.contains(heads@[j]));
            }
        }
        false
    }

    /// Whether a head hides behind a fact.
    fn has_hidden_head(&self, fact: &SignedFact, direct: &Vec<FactId>) -> (r: bool)
        requires
            forall|id: FactId| #[trigger] direct@.contains(id) <==> fact@.inputs().contains(id),
        ensures
            r == hides_head(self@, fact@),
    {
        let cells = fact.content.body.exclusive_cells();
        let n: usize = cells.len();
        for i in 0..n
            invariant
                n == cells@.len(),
                cells@ == fact@.content.body.cells(),
                forall|id: FactId| #[trigger] direct@.contains(id) <==> fact@.inputs().contains(id),
                forall|j: int, h: FactId|
                    0 <= j < i && #[trigger] multimap::at(
                        self@.index.cell_heads,
                        cells@[j],
                    ).contains(h) ==> fact@.inputs().contains(h),
        {
            let heads = multimap::list_at(&self.index.cell_heads, &cells[i]);
            if self.misses_head(&heads, direct) {
                proof {
                    let h = choose|h: FactId| #[trigger]
                        heads@.contains(h) && !direct@.contains(h);
                    assert(cells@.contains(cells@[i as int]));
                    assert(fact@.advances(cells@[i as int]));
                    assert(multimap::at(self@.index.cell_heads, cells@[i as int]).contains(h));
                }
                return true;
            }
            assert forall|h: FactId| #[trigger]
                multimap::at(self@.index.cell_heads, cells@[i as int]).contains(
                    h,
                ) implies fact@.inputs().contains(h) by {
                assert(heads@.contains(h));
            }
        }
        let subjects = fact.indexed_authority_subjects();
        let m: usize = subjects.len();
        for i in 0..m
            invariant
                m == subjects@.len(),
                forall|s: DeviceId| #[trigger] subjects@.contains(s) <==> fact@.takes_part(s),
                forall|id: FactId| #[trigger] direct@.contains(id) <==> fact@.inputs().contains(id),
                forall|j: int, h: FactId|
                    0 <= j < i && #[trigger] multimap::at(
                        self@.index.authority_heads,
                        subjects@[j],
                    ).contains(h) ==> fact@.inputs().contains(h),
        {
            let heads = multimap::list_at(&self.index.authority_heads, &subjects[i]);
            if self.misses_head(&heads, direct) {
                proof {
                    let h = choose|h: FactId| #[trigger]
                        heads@.contains(h) && !direct@.contains(h);
                    assert(subjects@.contains(subjects@[i as int]));
                    assert(multimap::at(self@.index.authority_heads, subjects@[i as int]).contains(
                        h,
                    ));
                }
                return true;
            }
            assert forall|h: FactId| #[trigger]
                multimap::at(self@.index.authority_heads, subjects@[i as int]).contains(
                    h,
                ) implies fact@.inputs().contains(h) by {
                assert(heads@.contains(h));
            }
        }
        proof {
            assert forall|c: ExclusiveCell, h: FactId|
                fact@.advances(c) && #[trigger] multimap::at(self@.index.cell_heads, c).contains(
                    h,
                ) implies fact@.inputs().contains(h) by {
                assert(cells@.contains(c));
                let j = choose|j: int| 0 <= j < cells@.len() && cells@[j] == c;
                assert(multimap::at(self@.index.cell_heads, cells@[j]).contains(h));
            }
            assert forall|s: DeviceId, h: FactId|
                fact@.takes_part(s) && #[trigger] multimap::at(
                    self@.index.authority_heads,
                    s,
                ).contains(h) implies fact@.inputs().contains(h) by {
                assert(subjects@.contains(s));
                let j = choose|j: int| 0 <= j < subjects@.len() && subjects@[j] == s;
                assert(multimap::at(self@.index.authority_heads, subjects@[j]).contains(h));
            }
        }
        false
    }

    /// Whether a fact needs the history to be admitted.
    fn asks_for_history(&self, fact: &SignedFact) -> (r: bool)
        ensures
            r == (fact@.is_selector() || is_cold_relation(self@, fact@)),
    {
        if let FactBody::AuthorityLineageResolution { .. } = &fact.content.body {
            return true;
        }
        let direct = dependencies(fact);
        if self.has_hidden_head(fact, &direct) {
            return true;
        }
        let rows: usize = self.index.provenance.len();
        if rows == 0 {
            return false;
        }
        if !self.current_heads_are_complete(fact) || !self.holds_all(&direct) {
            return true;
        }
        let witness = self.authoring_witness(&fact.content.body, &fact.content.author);
        let carried = witness.into_parents();
        let missed = self.misses_head(&fact.content.parents, &carried);
        proof {
            let all = evaluator::carried(self@, fact@.content.body, fact@.content.author);
            assert(carried@.to_set() == all);
            assert forall|h: FactId| #[trigger] carried@.contains(h) <==> all.contains(h) by {
                assert(carried@.to_set().contains(h) <==> carried@.contains(h));
            }
            let parents = fact@.content.parents;
            assert forall|h: FactId| #[trigger] parents.to_set().contains(h) <==> parents.contains(
                h,
            ) by {}
            if !missed {
                assert forall|h: FactId| #[trigger] parents.to_set().contains(
                    h,
                ) implies all.contains(h) by {
                    assert(fact.content.parents@.contains(h));
                    assert(carried@.contains(h));
                }
            } else {
                let h = choose|h: FactId| #[trigger]
                    fact.content.parents@.contains(h) && !carried@.contains(h);
                assert(parents.to_set().contains(h));
            }
        }
        missed
    }

    /// Canonical roots needed before a cold/new-selector operation can
    /// introduce new reachability anchors.  The publication owner resolves
    /// these once under its bounded history contract.
    pub fn selector_provenance_history_roots(&self, candidates: &Vec<SignedFact>) -> (r: Vec<
        FactId,
    >)
        ensures
            order::is_ascending(r@),
            r@.no_duplicates(),
            r@.to_set() == history_roots(self@, checkpoint::facts_view(candidates@)),
    {
        let ghost views = checkpoint::facts_view(candidates@);
        let ghost g = self@;
        if self.ledger.fact_count <= self.facts.len() as u64 {
            let r: Vec<FactId> = Vec::new();
            assert(r@.to_set() =~= Set::empty());
            return r;
        }
        let own = list_ids(candidates);
        let mut seeds = self.quarantine.ready.to_vec();
        let ghost ready = seeds@;
        ordset::append_keys(&mut seeds, &own);
        proof {
            assert(seeds@.to_set() =~= g.quarantine.ready.union(own@.to_set())) by {
                assert forall|id: FactId| #[trigger] seeds@.to_set().contains(
                    id,
                ) <==> g.quarantine.ready.union(own@.to_set()).contains(id) by {
                    if seeds@.contains(id) {
                        let j = choose|j: int| 0 <= j < seeds@.len() && seeds@[j] == id;
                        if j < ready.len() {
                            assert(ready[j] == id);
                            assert(ready.to_set().contains(id));
                        } else {
                            assert(own@[j - ready.len()] == id);
                        }
                    }
                    if g.quarantine.ready.contains(id) {
                        assert(ready.to_set().contains(id));
                        let j = choose|j: int| 0 <= j < ready.len() && ready[j] == id;
                        assert(seeds@[j] == id);
                    }
                    if own@.contains(id) {
                        let j = choose|j: int| 0 <= j < own@.len() && own@[j] == id;
                        assert(seeds@[ready.len() + j] == id);
                    }
                }
            }
        }
        let seen = reach_set(&WaiterEdges { waiting: &self.quarantine.waiting }, &seeds);
        assert(seen@ == wakeable(g, views));
        let listed = seen.to_vec();
        let n: usize = candidates.len();
        let m: usize = listed.len();
        let mut asked = false;
        let mut roots: OrdSet<FactId> = OrdSet::from_vec(&self.facts.keys());
        proof {
            assert(roots@ =~= g.facts.dom());
        }
        for i in 0..n
            invariant
                g == self@,
                n == candidates@.len(),
                views == checkpoint::facts_view(candidates@),
                asked == exists|j: int|
                    0 <= j < i && ((#[trigger] views[j]).is_selector() || is_cold_relation(
                        g,
                        views[j],
                    )),
                forall|id: FactId| #[trigger]
                    roots@.contains(id) <==> g.facts.contains_key(id) || exists|j: int|
                        0 <= j < i && (#[trigger] views[j]).inputs().contains(id),
        {
            assert(views[i as int] == candidates@[i as int]@);
            let ghost before = roots@;
            let ghost was = asked;
            if self.asks_for_history(&candidates[i]) {
                asked = true;
            }
            roots.extend_vec(&dependencies(&candidates[i]));
            proof {
                assert(asked == exists|j: int|
                    0 <= j < i + 1 && ((#[trigger] views[j]).is_selector() || is_cold_relation(
                        g,
                        views[j],
                    )));
                assert forall|id: FactId| #[trigger]
                    roots@.contains(id) <==> g.facts.contains_key(id) || exists|j: int|
                        0 <= j < i + 1 && (#[trigger] views[j]).inputs().contains(id) by {
                    if views[i as int].inputs().contains(id) {
                        assert(roots@.contains(id));
                    }
                }
            }
        }
        let ghost first = roots@;
        let ghost first_asked = asked;
        for i in 0..m
            invariant
                g == self@,
                m == listed@.len(),
                first_asked == exists|j: int|
                    0 <= j < views.len() && ((#[trigger] views[j]).is_selector()
                        || is_cold_relation(g, views[j])),
                asked == (first_asked || exists|j: int|
                    0 <= j < i && g.quarantine.facts.contains_key(#[trigger] listed@[j]) && (
                    g.quarantine.facts[listed@[j]].is_selector() || is_cold_relation(
                        g,
                        g.quarantine.facts[listed@[j]],
                    ))),
                forall|id: FactId| #[trigger]
                    roots@.contains(id) <==> first.contains(id) || exists|j: int|
                        0 <= j < i && g.quarantine.facts.contains_key(#[trigger] listed@[j])
                            && g.quarantine.facts[listed@[j]].inputs().contains(id),
        {
            if let Some(f) = self.quarantine.facts.get(&listed[i]) {
                if self.asks_for_history(f) {
                    asked = true;
                }
                roots.extend_vec(&dependencies(f));
                proof {
                    assert forall|id: FactId| #[trigger]
                        roots@.contains(id) <==> first.contains(id) || exists|j: int|
                            0 <= j < i + 1 && g.quarantine.facts.contains_key(#[trigger] listed@[j])
                                && g.quarantine.facts[listed@[j]].inputs().contains(id) by {
                        if g.quarantine.facts[listed@[i as int]].inputs().contains(id) {
                            assert(g.quarantine.facts.contains_key(listed@[i as int]));
                        }
                    }
                }
            }
        }
        proof {
            lemma_needs_history(g, views, listed@, asked);
        }
        if !asked {
            let r: Vec<FactId> = Vec::new();
            assert(r@.to_set() =~= Set::empty());
            return r;
        }
        let all = roots.to_vec();
        let k: usize = all.len();
        let mut kept: OrdSet<FactId> = OrdSet::new();
        let ghost keep = |id: FactId|
            !own@.contains(id) && !g.quarantine.facts.contains_key(id);
        assert(kept@ =~= all@.take(0).to_set().filter(keep));
        for i in 0..k
            invariant
                g == self@,
                k == all@.len(),
                keep == (|id: FactId| !own@.contains(id) && !g.quarantine.facts.contains_key(id)),
                kept@ == all@.take(i as int).to_set().filter(keep),
        {
            proof {
                ordset::lemma_take_set(all@, i as int);
            }
            if !holds(&own, &all[i]) && !self.quarantine.facts.contains_key(&all[i]) {
                kept.insert(all[i]);
            }
            assert(kept@ =~= all@.take(i + 1).to_set().filter(keep));
        }
        proof {
            assert(all@.take(k as int) =~= all@);
            assert(kept@ =~= history_roots(g, views)) by {
                assert forall|id: FactId| #[trigger] roots@.contains(id) <==> g.facts.contains_key(
                    id,
                ) || exists|f: FactView| #[trigger]
                    may_enter(g, views, f) && f.inputs().contains(id) by {
                    lemma_entering_inputs(g, views, listed@, id);
                }
            }
        }
        kept.to_vec()
    }
}

/// What the candidates and the listed waiting facts ask for is what the facts
/// that may enter ask for.
proof fn lemma_needs_history(g: GraphView, views: Seq<FactView>, listed: Seq<FactId>, asked: bool)
    requires
        listed.to_set() == wakeable(g, views),
        asked == ((exists|j: int|
            0 <= j < views.len() && ((#[trigger] views[j]).is_selector() || is_cold_relation(
                g,
                views[j],
            ))) || (exists|j: int|
            0 <= j < listed.len() && g.quarantine.facts.contains_key(#[trigger] listed[j]) && (
            g.quarantine.facts[listed[j]].is_selector() || is_cold_relation(
                g,
                g.quarantine.facts[listed[j]],
            )))),
    ensures
        asked == needs_history(g, views),
{
    if exists|j: int|
        0 <= j < views.len() && ((#[trigger] views[j]).is_selector() || is_cold_relation(
            g,
            views[j],
        )) {
        let j = choose|j: int|
            0 <= j < views.len() && ((#[trigger] views[j]).is_selector() || is_cold_relation(
                g,
                views[j],
            ));
        assert(views.contains(views[j]));
        assert(may_enter(g, views, views[j]));
    }
    if exists|j: int|
        0 <= j < listed.len() && g.quarantine.facts.contains_key(#[trigger] listed[j]) && (
        g.quarantine.facts[listed[j]].is_selector() || is_cold_relation(
            g,
            g.quarantine.facts[listed[j]],
        )) {
        let j = choose|j: int|
            0 <= j < listed.len() && g.quarantine.facts.contains_key(#[trigger] listed[j]) && (
            g.quarantine.facts[listed[j]].is_selector() || is_cold_relation(
                g,
                g.quarantine.facts[listed[j]],
            ));
        assert(listed.to_set().contains(listed[j]));
        assert(may_enter(g, views, g.quarantine.facts[listed[j]]));
    }
    if needs_history(g, views) {
        let f = choose|f: FactView| #[trigger]
            may_enter(g, views, f) && (f.is_selector() || is_cold_relation(g, f));
        if views.contains(f) {
            let j = choose|j: int| 0 <= j < views.len() && views[j] == f;
            assert(views[j].is_selector() || is_cold_relation(g, views[j]));
        } else {
            let id = choose|id: FactId| #[trigger]
                wakeable(g, views).contains(id) && g.quarantine.facts.contains_key(id)
                    && g.quarantine.facts[id] == f;
            assert(listed.to_set().contains(id));
            let j = choose|j: int| 0 <= j < listed.len() && listed[j] == id;
            assert(g.quarantine.facts.contains_key(listed[j]));
        }
    }
}

/// The inputs of the facts that may enter.
proof fn lemma_entering_inputs(g: GraphView, views: Seq<FactView>, listed: Seq<FactId>, id: FactId)
    requires
        listed.to_set() == wakeable(g, views),
    ensures
        (exists|f: FactView| #[trigger] may_enter(g, views, f) && f.inputs().contains(id)) <==> (
        exists|j: int| 0 <= j < views.len() && (#[trigger] views[j]).inputs().contains(id)) || (
        exists|j: int|
            0 <= j < listed.len() && g.quarantine.facts.contains_key(#[trigger] listed[j])
                && g.quarantine.facts[listed[j]].inputs().contains(id)),
{
    if exists|j: int| 0 <= j < views.len() && (#[trigger] views[j]).inputs().contains(id) {
        let j = choose|j: int| 0 <= j < views.len() && (#[trigger] views[j]).inputs().contains(id);
        assert(views.contains(views[j]));
        assert(may_enter(g, views, views[j]));
    }
    if exists|j: int|
        0 <= j < listed.len() && g.quarantine.facts.contains_key(#[trigger] listed[j])
            && g.quarantine.facts[listed[j]].inputs().contains(id) {
        let j = choose|j: int|
            0 <= j < listed.len() && g.quarantine.facts.contains_key(#[trigger] listed[j])
                && g.quarantine.facts[listed[j]].inputs().contains(id);
        assert(listed.to_set().contains(listed[j]));
        assert(may_enter(g, views, g.quarantine.facts[listed[j]]));
    }
    if exists|f: FactView| #[trigger] may_enter(g, views, f) && f.inputs().contains(id) {
        let f = choose|f: FactView| #[trigger] may_enter(g, views, f) && f.inputs().contains(id);
        if views.contains(f) {
            let j = choose|j: int| 0 <= j < views.len() && views[j] == f;
            assert(views[j].inputs().contains(id));
        } else {
            let w = choose|w: FactId| #[trigger]
                wakeable(g, views).contains(w) && g.quarantine.facts.contains_key(w)
                    && g.quarantine.facts[w] == f;
            assert(listed.to_set().contains(w));
            let j = choose|j: int| 0 <= j < listed.len() && listed[j] == w;
            assert(g.quarantine.facts.contains_key(listed[j]));
        }
    }
}

} // verus!

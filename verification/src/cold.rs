//! Cold history: rows that a store owns, staged for a moment or retired.

use vstd::prelude::*;

use crate::accounting;
use crate::authority;
use crate::content::{BodyView, ExclusiveCell, FactBody};
use crate::device::DeviceId;
use crate::error::SemanticError;
use crate::fact::{dependencies, Facts, FactView, SignedFact};
use crate::graph;
use crate::graph::{
    Cached, FactGraph, Fence, GraphView, IndexView, LedgerView, Projection, ProjectionView,
    Reading, Row, RowView, Selection,
};
use crate::ids::FactId;
use crate::index;
use crate::multimap;
use crate::multimap::{collect, join, keep_only};
use crate::ordmap::OrdMap;
use crate::ordset;
use crate::ordset::{Duplicate, OrdSet};
use crate::projection;
use crate::provenance;
use crate::quarantine;
use crate::rebuild;
use crate::rollback;

verus! {

/// The resident facts in admission order.
pub open spec fn hot_order(g: GraphView) -> Seq<FactId> {
    g.order.filter(|id: FactId| g.facts.contains_key(id))
}

/// A list without the given members.
pub open spec fn without(list: Seq<FactId>, gone: Set<FactId>) -> Seq<FactId> {
    list.filter(|id: FactId| !gone.contains(id))
}

/// The graph after staged rows were detached.
#[verifier::opaque]
pub open spec fn unstaged(g: GraphView, staged: Seq<FactId>) -> GraphView {
    if staged.len() == 0 {
        g
    } else {
        let bare = GraphView {
            facts: g.facts.remove_keys(staged.to_set()),
            order: Seq::empty(),
            fence: Fence {
                staged_cold_pending: if g.fence.staged_cold_pending >= staged.len() {
                    (g.fence.staged_cold_pending - staged.len()) as usize
                } else {
                    0
                },
                facts_revision: (g.fence.facts_revision + 1) as u64,
                ..g.fence
            },
            cache: None,
            ..g
        };
        rollback::with_totals(
            GraphView {
                order: without(g.order, staged.to_set()),
                cache: g.cache,
                ..rebuild::rebuilt(bare)
            },
            rollback::totals_of(g),
        )
    }
}

/// What staging holds every row to: the first refusal among the first `n`.
pub open spec fn stage_check(g: GraphView, history: Seq<FactView>, n: int) -> Result<
    (),
    SemanticError,
>
    decreases n,
{
    if n <= 0 {
        Ok(())
    } else {
        match stage_check(g, history, n - 1) {
            Err(e) => Err(e),
            Ok(()) => match history[n - 1].checked.refusal {
                Some(e) => Err(e),
                None => if history[n - 1].content.mesh_context != g.setting.context_id {
                    Err(
                        SemanticError::ContextMismatch {
                            expected: g.setting.context_id,
                            found: history[n - 1].content.mesh_context,
                        },
                    )
                } else {
                    Ok(())
                },
            },
        }
    }
}

/// How far staging came: the facts, the rows attached, and the refusal.
#[verifier::ext_equal]
pub struct StageView {
    pub facts: Facts,
    pub staged: Seq<FactId>,
    pub refusal: Option<SemanticError>,
}

/// Staging after the first `n` rows.
pub open spec fn stage_run(g: GraphView, history: Seq<FactView>, n: int) -> StageView
    decreases n,
{
    if n <= 0 {
        StageView { facts: g.facts, staged: Seq::empty(), refusal: None }
    } else {
        let st = stage_run(g, history, n - 1);
        let f = history[n - 1];
        if st.refusal is Some {
            st
        } else if st.facts.contains_key(f.id) {
            if st.facts[f.id].same_as(f) {
                st
            } else {
                StageView { refusal: Some(SemanticError::DuplicateFact(f.id)), ..st }
            }
        } else if g.quarantine.facts.contains_key(f.id) {
            StageView { refusal: Some(SemanticError::DuplicateFact(f.id)), ..st }
        } else {
            StageView { facts: st.facts.insert(f.id, f), staged: st.staged.push(f.id), ..st }
        }
    }
}

/// The graph after a durable causal closure was attached, and which rows
/// were.
#[verifier::opaque]
pub open spec fn staged(g: GraphView, history: Seq<FactView>) -> (
    GraphView,
    Result<Seq<FactId>, SemanticError>,
) {
    match stage_check(g, history, history.len() as int) {
        Err(e) => (g, Err(e)),
        Ok(()) => {
            let st = stage_run(g, history, history.len() as int);
            match st.refusal {
                Some(e) => (unstaged(GraphView { facts: st.facts, ..g }, st.staged), Err(e)),
                None => (
                    GraphView {
                        facts: st.facts,
                        fence: Fence {
                            indexed_fact_count: st.facts.dom().len() as usize,
                            staged_cold_pending: if g.fence.staged_cold_pending + st.staged.len()
                                <= usize::MAX {
                                (g.fence.staged_cold_pending + st.staged.len()) as usize
                            } else {
                                usize::MAX
                            },
                            ..g.fence
                        },
                        ..g
                    },
                    Ok(st.staged),
                ),
            }
        },
    }
}

/// The rows that live authority and projection state names.
pub open spec fn live_rows(g: GraphView, p: ProjectionView) -> Set<FactId> {
    multimap::members(g.index.cell_heads).union(multimap::members(g.index.authority_heads)).union(
        Set::new(
            |id: FactId|
                exists|s: DeviceId| #[trigger]
                    g.index.stand_down.contains_key(s) && p.stand_down.contains_key(s)
                        && p.stand_down[s] == id,
        ),
    ).union(multimap::members(g.quarantine.missing))
}

/// The typed selectors at or behind one of `heads`.
pub open spec fn active_selectors(g: Reading, heads: Set<FactId>) -> Set<FactId> {
    Set::new(
        |s: FactId|
            exists|h: FactId| #[trigger]
                heads.contains(h) && authority::is_post(g.index.provenance, h, s)
                    && authority::selected_by(g.facts, s) == Some(
                    g.index.provenance[h][s].selected,
                ),
    )
}

/// What the given selectors select.
pub open spec fn selections_of(facts: Facts, selectors: Set<FactId>) -> Set<FactId> {
    Set::new(
        |x: FactId|
            exists|s: FactId| #[trigger]
                selectors.contains(s) && authority::selected_by(facts, s) == Some(x),
    )
}

/// What the cells of a projection are settled at.
pub open spec fn settled_rows(p: ProjectionView) -> Set<FactId> {
    Set::new(
        |id: FactId|
            exists|c: ExclusiveCell| #[trigger] projection::value_of(p, c) == Some(id),
    )
}

/// The rows that stay resident: the live ones, their selectors with what
/// those select, the direct signed witness layer, and what the cells are
/// settled at, through however many resolutions.
pub open spec fn kept_rows(
    g: GraphView,
    p: ProjectionView,
    heads: Set<FactId>,
    active: Set<FactId>,
) -> Set<FactId> {
    let kept = heads.union(active).union(selections_of(g.facts, active));
    kept.union(provenance::inputs_of(g.facts, kept)).union(settled_rows(p))
}

/// The selectors that stay on record.
pub open spec fn kept_selectors(g: GraphView, kept: Set<FactId>, active: Set<FactId>) -> Set<
    FactId,
> {
    if g.facts.dom().subset_of(kept) {
        active.union(provenance::selectors_in(g.index.provenance))
    } else {
        active
    }
}

/// Whether one of the given selectors makes a selection for `subject`.
pub open spec fn makes(facts: Facts, selectors: Set<FactId>, subject: DeviceId, s: Selection) -> bool {
    selectors.contains(s.selector) && authority::selects(facts, s.selector, subject, s.selected)
}

/// The selections that the given selectors make.
pub open spec fn selector_table(facts: Facts, selectors: Set<FactId>) -> Map<
    DeviceId,
    Set<Selection>,
> {
    Map::new(
        |d: DeviceId| exists|s: Selection| #[trigger] makes(facts, selectors, d, s),
        |d: DeviceId| Set::new(|s: Selection| makes(facts, selectors, d, s)),
    )
}

/// Sets cut down to the given members; emptied ones are gone.
pub open spec fn cut_sets(m: Map<DeviceId, Set<FactId>>, kept: Set<FactId>) -> Map<
    DeviceId,
    Set<FactId>,
> {
    Map::new(
        |d: DeviceId|
            m.contains_key(d) && m[d].intersect(kept) != Set::<FactId>::empty(),
        |d: DeviceId| m[d].intersect(kept),
    )
}

/// Rows cut down to the given facts and selectors; emptied ones are gone.
pub open spec fn cut_rows(
    rows: Map<FactId, RowView>,
    kept: Set<FactId>,
    selectors: Set<FactId>,
) -> Map<FactId, RowView> {
    Map::new(
        |id: FactId|
            rows.contains_key(id) && kept.contains(id) && rows[id].restrict(selectors) != Map::<
                FactId,
                crate::graph::AuthoritySelectorRelation,
            >::empty(),
        |id: FactId| rows[id].restrict(selectors),
    )
}

/// The indexes after history was retired.
pub open spec fn kept_index(g: GraphView, kept: Set<FactId>, selectors: Set<FactId>) -> IndexView {
    let facts = g.facts.restrict(kept);
    IndexView {
        authority_facts: index::participants_of(facts),
        stand_down: cut_sets(g.index.stand_down, kept),
        selectors: selector_table(facts, selectors),
        provenance: cut_rows(g.index.provenance, kept, selectors),
        ..g.index
    }
}

/// Whether it is time to retire history.
pub open spec fn is_due(g: GraphView) -> bool {
    g.fence.staged_cold_pending != 0 || g.fence.cold_history_since_retirement
        >= g.setting.limits.max_hot_history_facts
}

/// The indexes that retirement leaves.
pub open spec fn retired_index(g: GraphView) -> IndexView {
    let p = projection::current(g);
    let heads = live_rows(g, p);
    let active = active_selectors(g.reading(), heads);
    let kept = kept_rows(g, p, heads, active);
    kept_index(g, kept, kept_selectors(g, kept, active))
}

/// The graph after history was retired.
#[verifier::opaque]
pub open spec fn retired(g: GraphView) -> GraphView {
    if !is_due(g) {
        g
    } else {
        let g = rebuild::ensured(g);
        let p = projection::current(g);
        let heads = live_rows(g, p);
        let kept = kept_rows(g, p, heads, active_selectors(g.reading(), heads));
        let facts = g.facts.restrict(kept);
        GraphView {
            facts,
            order: g.order.filter(|id: FactId| kept.contains(id)),
            index: retired_index(g),
            ledger: LedgerView {
                index_bytes: accounting::residency(retired_index(g)) as u64,
                ..g.ledger
            },
            fence: Fence {
                indexed_fact_count: facts.dom().len() as usize,
                facts_revision: (g.fence.facts_revision + 1) as u64,
                indexed_revision: (g.fence.facts_revision + 1) as u64,
                cold_history_since_retirement: 0,
                staged_cold_pending: 0,
                ..g.fence
            },
            cache: Some((g.fence.generation, p)),
            ..g
        }
    }
}

/// Whether retirement can be accounted for: the revision can advance, and a
/// number can hold what the indexes that stay take.
pub open spec fn can_retire(g: GraphView) -> bool {
    is_due(g) ==> g.fence.facts_revision < u64::MAX && accounting::residency(
        retired_index(rebuild::ensured(g)),
    ) <= u64::MAX
}

/// The graph that a durable restart continues from.
pub open spec fn sealed(g: GraphView) -> GraphView {
    retired(made_due(g))
}

/// The graph with its retirement made due.
pub open spec fn made_due(g: GraphView) -> GraphView {
    GraphView {
        fence: Fence {
            cold_history_since_retirement: if g.setting.limits.max_hot_history_facts
                <= usize::MAX {
                g.setting.limits.max_hot_history_facts as usize
            } else {
                usize::MAX
            },
            ..g.fence
        },
        ..g
    }
}

/// The views of a list of facts.
pub open spec fn facts_view(list: Seq<SignedFact>) -> Seq<FactView> {
    list.map_values(|f: SignedFact| f@)
}

proof fn lemma_stage_check_err(g: GraphView, history: Seq<FactView>, i: int, n: int)
    requires
        0 <= i <= n,
        stage_check(g, history, i) is Err,
    ensures
        stage_check(g, history, n) == stage_check(g, history, i),
    decreases n - i,
{
    if i < n {
        lemma_stage_check_err(g, history, i, n - 1);
    }
}

proof fn lemma_stage_stopped(g: GraphView, history: Seq<FactView>, i: int, n: int)
    requires
        0 <= i <= n,
        stage_run(g, history, i).refusal is Some,
    ensures
        stage_run(g, history, n) == stage_run(g, history, i),
    decreases n - i,
{
    if i < n {
        lemma_stage_stopped(g, history, i, n - 1);
    }
}

/// The members of `list` that are kept, in order.
fn filter_list(list: &Vec<FactId>, kept: &OrdSet<FactId>) -> (r: Vec<FactId>)
    ensures
        r@ == list@.filter(|id: FactId| kept@.contains(id)),
{
    let n: usize = list.len();
    let mut r: Vec<FactId> = Vec::new();
    let ghost keep = |id: FactId| kept@.contains(id);
    proof {
        reveal(Seq::filter);
        assert(list@.take(0).filter(keep) =~= Seq::<FactId>::empty());
    }
    for i in 0..n
        invariant
            n == list@.len(),
            keep == (|id: FactId| kept@.contains(id)),
            r@ == list@.take(i as int).filter(keep),
    {
        proof {
            reveal(Seq::filter);
            let longer = list@.take(i + 1);
            assert(longer.drop_last() =~= list@.take(i as int));
            assert(longer.last() == list@[i as int]);
        }
        if kept.contains(&list[i]) {
            r.push(list[i]);
        }
    }
    assert(list@.take(n as int) =~= list@);
    r
}

/// The members of `list` that are not among `gone`, in order.
fn drop_list(list: &Vec<FactId>, gone: &OrdSet<FactId>) -> (r: Vec<FactId>)
    ensures
        r@ == without(list@, gone@),
{
    let n: usize = list.len();
    let mut r: Vec<FactId> = Vec::new();
    let ghost keep = |id: FactId| !gone@.contains(id);
    proof {
        reveal(Seq::filter);
        assert(list@.take(0).filter(keep) =~= Seq::<FactId>::empty());
    }
    for i in 0..n
        invariant
            n == list@.len(),
            keep == (|id: FactId| !gone@.contains(id)),
            r@ == list@.take(i as int).filter(keep),
    {
        proof {
            reveal(Seq::filter);
            let longer = list@.take(i + 1);
            assert(longer.drop_last() =~= list@.take(i as int));
            assert(longer.last() == list@[i as int]);
        }
        if !gone.contains(&list[i]) {
            r.push(list[i]);
        }
    }
    assert(list@.take(n as int) =~= list@);
    r
}

/// Cuts sets down to the given members.
fn cut_set_table(map: &OrdMap<DeviceId, OrdSet<FactId>>, kept: &OrdSet<FactId>) -> (r: OrdMap<
    DeviceId,
    OrdSet<FactId>,
>)
    ensures
        r@ == cut_sets(map@, kept@),
{
    let keys = map.keys();
    let n: usize = keys.len();
    let mut r: OrdMap<DeviceId, OrdSet<FactId>> = OrdMap::new();
    assert(keys@.take(0).to_set() =~= Set::<DeviceId>::empty());
    assert(r@ =~= cut_sets(map@.restrict(keys@.take(0).to_set()), kept@));
    for i in 0..n
        invariant
            n == keys@.len(),
            forall|k: DeviceId| #[trigger] keys@.contains(k) <==> map@.contains_key(k),
            r@ == cut_sets(map@.restrict(keys@.take(i as int).to_set()), kept@),
    {
        let ghost d = keys@[i as int];
        assert(keys@.contains(d));
        let list = map.value(&keys[i]).to_vec();
        let m: usize = list.len();
        let mut left: OrdSet<FactId> = OrdSet::new();
        assert(list@.take(0).to_set() =~= Set::<FactId>::empty());
        assert(left@ =~= list@.take(0).to_set().intersect(kept@));
        for j in 0..m
            invariant
                m == list@.len(),
                left@ == list@.take(j as int).to_set().intersect(kept@),
        {
            if kept.contains(&list[j]) {
                left.insert(list[j]);
            }
            proof {
                ordset::lemma_take_set(list@, j as int);
                assert(left@ =~= list@.take(j + 1).to_set().intersect(kept@));
            }
        }
        assert(list@.take(m as int) =~= list@);
        assert(left@ =~= map@[d].intersect(kept@));
        if !left.is_empty() {
            r.insert(keys[i], left);
        }
        proof {
            ordset::lemma_take_set(keys@, i as int);
            let small = map@.restrict(keys@.take(i as int).to_set());
            let big = map@.restrict(keys@.take(i + 1).to_set());
            let want = cut_sets(big, kept@);
            assert forall|x: DeviceId| #[trigger] r@.contains_key(x) <==> want.contains_key(x) by {
                if x != d {
                    assert(small.contains_key(x) <==> big.contains_key(x));
                }
            }
            assert(r@ =~= want);
        }
    }
    proof {
        assert(keys@.take(n as int) =~= keys@);
        assert(map@.restrict(keys@.to_set()) =~= map@);
    }
    r
}

/// Cuts rows down to the given facts and selectors.
fn cut_row_table(
    rows: &OrdMap<FactId, Row>,
    kept: &OrdSet<FactId>,
    selectors: &OrdSet<FactId>,
) -> (r: OrdMap<FactId, Row>)
    ensures
        r@ == cut_rows(rows@, kept@, selectors@),
{
    let keys = rows.keys();
    let n: usize = keys.len();
    let mut r: OrdMap<FactId, Row> = OrdMap::new();
    assert(keys@.take(0).to_set() =~= Set::<FactId>::empty());
    assert(r@ =~= cut_rows(rows@.restrict(keys@.take(0).to_set()), kept@, selectors@));
    for i in 0..n
        invariant
            n == keys@.len(),
            forall|k: FactId| #[trigger] keys@.contains(k) <==> rows@.contains_key(k),
            r@ == cut_rows(rows@.restrict(keys@.take(i as int).to_set()), kept@, selectors@),
    {
        let ghost d = keys@[i as int];
        assert(keys@.contains(d));
        if kept.contains(&keys[i]) {
            let mut left = rows.value(&keys[i]).duplicate();
            keep_only(&mut left, selectors);
            if !left.is_empty() {
                r.insert(keys[i], left);
            }
        }
        proof {
            ordset::lemma_take_set(keys@, i as int);
            let small = rows@.restrict(keys@.take(i as int).to_set());
            let big = rows@.restrict(keys@.take(i + 1).to_set());
            let want = cut_rows(big, kept@, selectors@);
            assert forall|x: FactId| #[trigger] r@.contains_key(x) <==> want.contains_key(x) by {
                if x != d {
                    assert(small.contains_key(x) <==> big.contains_key(x));
                }
            }
            assert(r@ =~= want);
        }
    }
    proof {
        assert(keys@.take(n as int) =~= keys@);
        assert(rows@.restrict(keys@.to_set()) =~= rows@);
    }
    r
}

/// Tables the selections that the given selectors make.
fn table_selectors(facts: &OrdMap<FactId, SignedFact>, selectors: &OrdSet<FactId>) -> (r: OrdMap<
    DeviceId,
    OrdSet<Selection>,
>)
    ensures
        r@ == selector_table(facts@, selectors@),
{
    let list = selectors.to_vec();
    let n: usize = list.len();
    let mut r: OrdMap<DeviceId, OrdSet<Selection>> = OrdMap::new();
    assert(list@.take(0).to_set() =~= Set::<FactId>::empty());
    assert(r@ =~= selector_table(facts@, list@.take(0).to_set()));
    for i in 0..n
        invariant
            n == list@.len(),
            r@ == selector_table(facts@, list@.take(i as int).to_set()),
    {
        let ghost small = list@.take(i as int).to_set();
        let ghost big = list@.take(i + 1).to_set();
        let ghost before = r@;
        let id = list[i];
        proof {
            ordset::lemma_take_set(list@, i as int);
        }
        if let Some(f) = facts.get(&id) {
            if let FactBody::AuthorityLineageResolution { subject, selected_head, .. } =
                &f.content.body {
                let selection = Selection { selector: id, selected: *selected_head };
                join(&mut r, *subject, selection);
            }
        }
        proof {
            lemma_table_grows(facts@, small, id);
            assert(big == small.insert(id));
        }
    }
    assert(list@.take(n as int) =~= list@);
    r
}

proof fn lemma_table_grows(facts: Facts, small: Set<FactId>, id: FactId)
    ensures
        selector_table(facts, small.insert(id)) == (if facts.contains_key(id) {
            match facts[id].content.body {
                BodyView::AuthorityLineageResolution { subject, selected_head, .. } =>
                multimap::joined(
                    selector_table(facts, small),
                    subject,
                    Selection { selector: id, selected: selected_head },
                ),
                _ => selector_table(facts, small),
            }
        } else {
            selector_table(facts, small)
        }),
{
    let big = small.insert(id);
    let old = selector_table(facts, small);
    let new = selector_table(facts, big);
    if facts.contains_key(id) && facts[id].is_selector() {
        match facts[id].content.body {
            BodyView::AuthorityLineageResolution { subject, selected_head, .. } => {
                let own = Selection { selector: id, selected: selected_head };
                let want = multimap::joined(old, subject, own);
                assert(makes(facts, big, subject, own));
                assert forall|d: DeviceId| #[trigger] new.contains_key(d) <==> want.contains_key(
                    d,
                ) by {
                    if new.contains_key(d) && d != subject {
                        let s = choose|s: Selection| #[trigger] makes(facts, big, d, s);
                        assert(makes(facts, small, d, s));
                    }
                    if old.contains_key(d) {
                        let s = choose|s: Selection| #[trigger] makes(facts, small, d, s);
                        assert(makes(facts, big, d, s));
                    }
                }
                assert forall|d: DeviceId| #[trigger] new.contains_key(d) implies new[d]
                    == want[d] by {
                    if d == subject {
                        assert forall|s: Selection| #[trigger] new[d].contains(s)
                            <==> want[d].contains(s) by {
                            if makes(facts, small, d, s) {
                                assert(old.contains_key(d));
                            }
                            if old.contains_key(d) && old[d].contains(s) {
                                assert(makes(facts, small, d, s));
                            }
                        }
                        assert(new[d] =~= want[d]);
                    } else {
                        let s = choose|s: Selection| #[trigger] makes(facts, big, d, s);
                        assert(makes(facts, small, d, s));
                        assert(new[d] =~= old[d]);
                    }
                }
                assert(new =~= want);
            },
            _ => {},
        }
    } else {
        assert forall|d: DeviceId| #[trigger] new.contains_key(d) <==> old.contains_key(d) by {
            if new.contains_key(d) {
                let s = choose|s: Selection| #[trigger] makes(facts, big, d, s);
                assert(makes(facts, small, d, s));
            }
            if old.contains_key(d) {
                let s = choose|s: Selection| #[trigger] makes(facts, small, d, s);
                assert(makes(facts, big, d, s));
            }
        }
        assert forall|d: DeviceId| #[trigger] new.contains_key(d) implies new[d] == old[d] by {
            assert(new[d] =~= old[d]);
        }
        assert(new =~= old);
    }
}

/// Retirement keeps what is alive: the heads of every cell and lineage, the
/// stand-down proofs that the projection names, the dependencies that
/// waiters await, the direct inputs of all these, and what every cell is
/// settled at.  What stays besides is a typed selector at or behind one of
/// the live rows, what it selects, or a direct input of these; and every fact
/// that stays is the fact that it was.
pub proof fn retirement_keeps_live_rows(g: GraphView)
    requires
        g.indexes_current(),
        is_due(g),
    ensures
        ({
            let h = retired(g);
            let p = projection::current(g);
            let live = live_rows(g, p);
            let active = active_selectors(g.reading(), live);
            let first = live.union(active).union(selections_of(g.facts, active));
            &&& forall|id: FactId, c: ExclusiveCell|
                g.facts.contains_key(id) && g.index.cell_heads.contains_key(c)
                    && #[trigger] g.index.cell_heads[c].contains(id) ==> h.facts.contains_key(id)
            &&& forall|id: FactId, s: DeviceId|
                g.facts.contains_key(id) && g.index.authority_heads.contains_key(s)
                    && #[trigger] g.index.authority_heads[s].contains(id)
                    ==> h.facts.contains_key(id)
            &&& forall|s: DeviceId|
                g.index.stand_down.contains_key(s) && #[trigger] p.stand_down.contains_key(s)
                    && g.facts.contains_key(p.stand_down[s]) ==> h.facts.contains_key(
                    p.stand_down[s],
                )
            &&& forall|c: ExclusiveCell, id: FactId|
                g.facts.contains_key(id) && #[trigger] projection::value_of(p, c) == Some(id)
                    ==> #[trigger] h.facts.contains_key(id)
            &&& forall|id: FactId, k: FactId|
                g.facts.contains_key(id) && g.quarantine.missing.contains_key(k)
                    && #[trigger] g.quarantine.missing[k].contains(id) ==> h.facts.contains_key(id)
            &&& forall|id: FactId, x: FactId|
                live.contains(id) && g.facts.contains_key(id) && g.facts.contains_key(x)
                    && #[trigger] g.facts[id].inputs().contains(x) ==> h.facts.contains_key(x)
            &&& forall|x: FactId| #[trigger]
                h.facts.contains_key(x) ==> g.facts.contains_key(x) && h.facts[x] == g.facts[x] && (
                first.contains(x) || settled_rows(p).contains(x) || exists|id: FactId| #[trigger]
                    first.contains(id) && g.facts.contains_key(id) && g.facts[id].inputs().contains(
                        x,
                    ))
        }),
{
    reveal(retired);
    let h = retired(g);
    let p = projection::current(g);
    let live = live_rows(g, p);
    let active = active_selectors(g.reading(), live);
    let kept = kept_rows(g, p, live, active);
    let first = live.union(active).union(selections_of(g.facts, active));
    assert forall|id: FactId, c: ExclusiveCell|
        g.facts.contains_key(id) && g.index.cell_heads.contains_key(c)
            && #[trigger] g.index.cell_heads[c].contains(id) implies h.facts.contains_key(id) by {
        assert(multimap::members(g.index.cell_heads).contains(id));
        assert(kept.contains(id));
    }
    assert forall|id: FactId, s: DeviceId|
        g.facts.contains_key(id) && g.index.authority_heads.contains_key(s)
            && #[trigger] g.index.authority_heads[s].contains(id) implies h.facts.contains_key(id) by {
        assert(multimap::members(g.index.authority_heads).contains(id));
        assert(kept.contains(id));
    }
    assert forall|s: DeviceId|
        g.index.stand_down.contains_key(s) && #[trigger] p.stand_down.contains_key(s)
            && g.facts.contains_key(p.stand_down[s]) implies h.facts.contains_key(p.stand_down[s]) by {
        assert(live.contains(p.stand_down[s]));
        assert(kept.contains(p.stand_down[s]));
    }
    assert forall|c: ExclusiveCell, id: FactId|
        g.facts.contains_key(id) && #[trigger] projection::value_of(p, c) == Some(
            id,
        ) implies #[trigger] h.facts.contains_key(id) by {
        assert(settled_rows(p).contains(id));
        assert(kept.contains(id));
    }
    assert forall|id: FactId, k: FactId|
        g.facts.contains_key(id) && g.quarantine.missing.contains_key(k)
            && #[trigger] g.quarantine.missing[k].contains(id) implies h.facts.contains_key(id) by {
        assert(multimap::members(g.quarantine.missing).contains(id));
        assert(kept.contains(id));
    }
    assert forall|id: FactId, x: FactId|
        live.contains(id) && g.facts.contains_key(id) && g.facts.contains_key(x)
            && #[trigger] g.facts[id].inputs().contains(x) implies h.facts.contains_key(x) by {
        assert(first.contains(id));
        assert(provenance::inputs_of(g.facts, first).contains(x));
        assert(kept.contains(x));
    }
}

impl Projection {
    /// What the cells are settled at.
    fn settled_row_set(&self) -> (r: OrdSet<FactId>)
        ensures
            r@ == settled_rows(self@),
    {
        let ghost p = self@;
        let cells = self.cells.keys();
        let n: usize = cells.len();
        let mut r: OrdSet<FactId> = OrdSet::new();
        for i in 0..n
            invariant
                n == cells@.len(),
                p == self@,
                forall|id: FactId| #[trigger]
                    r@.contains(id) <==> exists|j: int|
                        0 <= j < i && projection::value_of(p, #[trigger] cells@[j]) == Some(id),
        {
            let ghost before = r@;
            if let Some(id) = self.value(&cells[i]) {
                r.insert(id);
            }
            assert forall|id: FactId| #[trigger] r@.contains(id) <==> exists|j: int|
                0 <= j < i + 1 && projection::value_of(p, #[trigger] cells@[j]) == Some(id) by {
                if before.contains(id) {
                    let j = choose|j: int|
                        0 <= j < i && projection::value_of(p, #[trigger] cells@[j]) == Some(id);
                    assert(projection::value_of(p, cells@[j]) == Some(id));
                }
                if projection::value_of(p, cells@[i as int]) == Some(id) {
                    assert(r@.contains(id));
                }
            }
        }
        assert forall|id: FactId| #[trigger] r@.contains(id) <==> settled_rows(p).contains(id) by {
            if settled_rows(p).contains(id) {
                let c = choose|c: ExclusiveCell| #[trigger] projection::value_of(p, c) == Some(id);
                assert(p.cells.contains_key(c));
                assert(cells@.contains(c));
                let j = choose|j: int| 0 <= j < cells@.len() && cells@[j] == c;
                assert(projection::value_of(p, cells@[j]) == Some(id));
            }
        }
        assert(r@ =~= settled_rows(p));
        r
    }
}

impl FactGraph {
    /// The currently cached signed bodies in admission order. Cold history is
    /// deliberately absent: its store owns it, while this bounded hot set
    /// exists only to continue admission and support diagnostics.
    pub fn hot_facts_in_admission_order(&self) -> (r: Vec<FactId>)
        ensures
            r@ == hot_order(self@),
    {
        let ids = self.facts.keys();
        let resident = OrdSet::from_vec(&ids);
        let r = filter_list(&self.order, &resident);
        proof {
            let a = |id: FactId| resident@.contains(id);
            let b = |id: FactId| self@.facts.contains_key(id);
            assert forall|id: FactId| #[trigger] a(id) == b(id) by {
                assert(ids@.to_set().contains(id) <==> ids@.contains(id));
            }
            assert(a =~= b);
        }
        r
    }

    /// Detaches staged rows.  Rebuilding repairs only the hot indexes; the
    /// logical counters and the projection still describe the complete
    /// history, and the append-only order is kept.
    pub(crate) fn remove_staged_cold(&mut self, staged: &Vec<FactId>)
        requires
            staged@.len() > 0 ==> old(self)@.fence.facts_revision < u64::MAX,
        ensures
            final(self)@ == unstaged(old(self)@, staged@),
    {
        proof {
            reveal(unstaged);
        }
        if staged.len() == 0 {
            return;
        }
        let ghost g = self@;
        let gone = OrdSet::from_vec(staged);
        let order = drop_list(&self.order, &gone);
        self.order = Vec::new();
        let totals = self.totals();
        let cache = self.cache.take();
        let n: usize = staged.len();
        assert(staged@.take(0).to_set() =~= Set::<FactId>::empty());
        assert(self@.facts =~= g.facts.remove_keys(staged@.take(0).to_set()));
        for i in 0..n
            invariant
                n == staged@.len(),
                self@ == (GraphView {
                    facts: g.facts.remove_keys(staged@.take(i as int).to_set()),
                    order: Seq::empty(),
                    cache: None,
                    ..g
                }),
        {
            self.facts.remove(&staged[i]);
            proof {
                ordset::lemma_take_set(staged@, i as int);
                assert(self@.facts =~= g.facts.remove_keys(staged@.take(i + 1).to_set()));
            }
        }
        assert(staged@.take(n as int) =~= staged@);
        self.fence.staged_cold_pending = self.fence.staged_cold_pending.saturating_sub(n);
        self.fence.facts_revision = self.fence.facts_revision + 1;
        self.rebuild_indexes();
        self.order = order;
        self.set_totals(&totals);
        self.cache = cache;
        assert(self@ =~= unstaged(g, staged@));
    }

    /// Temporarily attach an already-verified durable causal closure while a
    /// single candidate is checked. These rows are deliberately not added to
    /// the live-head indexes or logical usage counters: their store remains
    /// their owner, and the rows exist here only for candidate-relative
    /// validation.
    pub fn stage_cold_history(&mut self, history: &Vec<SignedFact>) -> (r: Result<
        Vec<FactId>,
        SemanticError,
    >)
        requires
            old(self)@.fence.facts_revision < u64::MAX,
        ensures
            final(self)@ == staged(old(self)@, facts_view(history@)).0,
            match r {
                Ok(list) => staged(old(self)@, facts_view(history@)).1 == Ok::<
                    Seq<FactId>,
                    SemanticError,
                >(list@),
                Err(e) => staged(old(self)@, facts_view(history@)).1 == Err::<
                    Seq<FactId>,
                    SemanticError,
                >(e),
            },
    {
        proof {
            reveal(staged);
        }
        let ghost g = self@;
        let ghost views = facts_view(history@);
        let n: usize = history.len();
        for i in 0..n
            invariant
                n == history@.len(),
                views == facts_view(history@),
                g == self@,
                g == old(self)@,
                stage_check(g, views, i as int) == Ok::<(), SemanticError>(()),
        {
            assert(views[i as int] == history@[i as int]@);
            if let Err(e) = history[i].verify() {
                proof {
                    lemma_stage_check_err(g, views, i + 1, n as int);
                    reveal(staged);
                }
                return Err(e);
            }
            if !history[i].content.mesh_context.same(&self.setting.context_id) {
                proof {
                    lemma_stage_check_err(g, views, i + 1, n as int);
                    reveal(staged);
                }
                return Err(
                    SemanticError::ContextMismatch {
                        expected: self.setting.context_id,
                        found: history[i].content.mesh_context,
                    },
                );
            }
        }
        let mut staged_rows: Vec<FactId> = Vec::new();
        for i in 0..n
            invariant
                n == history@.len(),
                views == facts_view(history@),
                g == old(self)@,
                self@ == (GraphView { facts: stage_run(g, views, i as int).facts, ..g }),
                staged_rows@ == stage_run(g, views, i as int).staged,
                stage_run(g, views, i as int).refusal is None,
                stage_check(g, views, n as int) == Ok::<(), SemanticError>(()),
                g.fence.facts_revision < u64::MAX,
        {
            let fact = &history[i];
            assert(views[i as int] == fact@);
            let id = fact.id;
            let clash = match self.facts.get(&id) {
                Some(existing) => Some(!existing.same(fact)),
                None => if self.quarantine.facts.contains_key(&id) {
                    Some(true)
                } else {
                    None
                },
            };
            match clash {
                Some(true) => {
                    proof {
                        lemma_stage_stopped(g, views, i + 1, n as int);
                        reveal(staged);
                    }
                    self.remove_staged_cold(&staged_rows);
                    return Err(SemanticError::DuplicateFact(id));
                },
                Some(false) => {},
                None => {
                    self.facts.insert(id, fact.duplicate());
                    staged_rows.push(id);
                },
            }
            assert(self@ =~= (GraphView { facts: stage_run(g, views, i + 1).facts, ..g }));
        }
        // The live indexes intentionally continue to describe only the hot
        // working set. Mark that state current so admission falls through to
        // its candidate-relative causal traversal when cold rows are needed.
        self.fence.indexed_fact_count = self.facts.len();
        self.fence.staged_cold_pending = self.fence.staged_cold_pending.saturating_add(
            staged_rows.len(),
        );
        assert(self@ =~= staged(g, views).0);
        Ok(staged_rows)
    }

    /// The rows that live authority and projection state names.
    fn live_row_set(&self, projection: &Projection) -> (r: OrdSet<FactId>)
        ensures
            r@ == live_rows(self@, projection@),
    {
        let ghost g = self@;
        let ghost p = projection@;
        let mut r = collect(&self.index.cell_heads);
        r.extend(&collect(&self.index.authority_heads));
        let ghost heads = r@;
        let subjects = self.index.stand_down.keys();
        let n: usize = subjects.len();
        for i in 0..n
            invariant
                n == subjects@.len(),
                g == self@,
                p == projection@,
                forall|id: FactId| #[trigger]
                    r@.contains(id) <==> heads.contains(id) || exists|j: int|
                        0 <= j < i && p.stand_down.contains_key(#[trigger] subjects@[j])
                            && p.stand_down[subjects@[j]] == id,
        {
            let ghost before = r@;
            if let Some(s) = projection.stand_down(&subjects[i]) {
                r.insert(s.proof);
            }
            assert forall|id: FactId| #[trigger] r@.contains(id) <==> heads.contains(id) || exists|
                j: int,
            |
                0 <= j < i + 1 && p.stand_down.contains_key(#[trigger] subjects@[j])
                    && p.stand_down[subjects@[j]] == id by {
                if before.contains(id) && !heads.contains(id) {
                    let j = choose|j: int|
                        0 <= j < i && p.stand_down.contains_key(#[trigger] subjects@[j])
                            && p.stand_down[subjects@[j]] == id;
                    assert(p.stand_down.contains_key(subjects@[j]));
                }
                if p.stand_down.contains_key(subjects@[i as int])
                    && p.stand_down[subjects@[i as int]] == id {
                    assert(r@.contains(id));
                }
            }
        }
        let ghost mid = r@;
        r.extend(&collect(&self.quarantine.missing));
        proof {
            let proofs = Set::new(
                |id: FactId|
                    exists|s: DeviceId| #[trigger]
                        g.index.stand_down.contains_key(s) && p.stand_down.contains_key(s)
                            && p.stand_down[s] == id,
            );
            assert forall|id: FactId| #[trigger] mid.contains(id) <==> heads.union(
                proofs,
            ).contains(id) by {
                if mid.contains(id) && !heads.contains(id) {
                    let j = choose|j: int|
                        0 <= j < n && p.stand_down.contains_key(#[trigger] subjects@[j])
                            && p.stand_down[subjects@[j]] == id;
                    assert(subjects@.contains(subjects@[j]));
                    assert(g.index.stand_down.contains_key(subjects@[j]));
                }
                if proofs.contains(id) {
                    let s = choose|s: DeviceId| #[trigger]
                        g.index.stand_down.contains_key(s) && p.stand_down.contains_key(s)
                            && p.stand_down[s] == id;
                    assert(subjects@.contains(s));
                    let j = choose|j: int| 0 <= j < subjects@.len() && subjects@[j] == s;
                    assert(p.stand_down.contains_key(subjects@[j]));
                }
            }
            assert(mid =~= heads.union(proofs));
            assert(r@ =~= live_rows(g, p));
        }
        r
    }

    /// The typed selectors at or behind one of `heads`.
    fn active_selector_set(&self, heads: &OrdSet<FactId>) -> (r: OrdSet<FactId>)
        ensures
            r@ == active_selectors(self@.reading(), heads@),
    {
        let ghost g = self@.reading();
        let list = heads.to_vec();
        let n: usize = list.len();
        let mut r: OrdSet<FactId> = OrdSet::new();
        assert(list@.take(0).to_set() =~= Set::<FactId>::empty());
        assert(r@ =~= active_selectors(g, list@.take(0).to_set()));
        for i in 0..n
            invariant
                n == list@.len(),
                g == self@.reading(),
                r@ == active_selectors(g, list@.take(i as int).to_set()),
        {
            let ghost small = list@.take(i as int).to_set();
            let ghost before = r@;
            let ghost h = list@[i as int];
            let ghost active = |s: FactId|
                authority::is_post(g.index.provenance, h, s) && authority::selected_by(g.facts, s)
                    == Some(g.index.provenance[h][s].selected);
            if let Some(row) = self.index.provenance.get(&list[i]) {
                let keys = row.keys();
                let m: usize = keys.len();
                for k in 0..m
                    invariant
                        m == keys@.len(),
                        g == self@.reading(),
                        g.index.provenance.contains_key(h),
                        row@ == g.index.provenance[h],
                        active == (|s: FactId|
                            authority::is_post(g.index.provenance, h, s)
                                && authority::selected_by(g.facts, s) == Some(
                                g.index.provenance[h][s].selected,
                            )),
                        forall|s: FactId| #[trigger] keys@.contains(s) <==> row@.contains_key(s),
                        forall|s: FactId| #[trigger]
                            r@.contains(s) <==> before.contains(s) || exists|q: int|
                                0 <= q < k && #[trigger] keys@[q] == s && active(s),
                {
                    assert(keys@.contains(keys@[k as int]));
                    let ghost mid = r@;
                    let relation = row.value(&keys[k]);
                    let fits = relation.post_selector && match self.selection(&keys[k]) {
                        Some(x) => x.same(&relation.selected),
                        None => false,
                    };
                    assert(fits == active(keys@[k as int]));
                    if fits {
                        r.insert(keys[k]);
                    }
                    assert forall|s: FactId| #[trigger] r@.contains(s) <==> before.contains(s)
                        || exists|q: int| 0 <= q < k + 1 && #[trigger] keys@[q] == s && active(s) by {
                        if mid.contains(s) && !before.contains(s) {
                            let q = choose|q: int|
                                0 <= q < k && #[trigger] keys@[q] == s && active(s);
                            assert(keys@[q] == s);
                        }
                        if r@.contains(s) && !mid.contains(s) {
                            assert(keys@[k as int] == s);
                        }
                    }
                }
                assert forall|s: FactId| #[trigger] r@.contains(s) <==> before.contains(s)
                    || active(s) by {
                    if active(s) {
                        assert(row@.contains_key(s));
                        assert(keys@.contains(s));
                        let q = choose|q: int| 0 <= q < keys@.len() && keys@[q] == s;
                        assert(keys@[q] == s);
                    }
                }
            }
            proof {
                ordset::lemma_take_set(list@, i as int);
                let big = list@.take(i + 1).to_set();
                assert forall|s: FactId| #[trigger] r@.contains(s) <==> active_selectors(
                    g,
                    big,
                ).contains(s) by {
                    if before.contains(s) {
                        let x = choose|x: FactId| #[trigger]
                            small.contains(x) && authority::is_post(g.index.provenance, x, s)
                                && authority::selected_by(g.facts, s) == Some(
                                g.index.provenance[x][s].selected,
                            );
                        assert(big.contains(x));
                    }
                    if active(s) {
                        assert(big.contains(h));
                    }
                    if active_selectors(g, big).contains(s) {
                        let x = choose|x: FactId| #[trigger]
                            big.contains(x) && authority::is_post(g.index.provenance, x, s)
                                && authority::selected_by(g.facts, s) == Some(
                                g.index.provenance[x][s].selected,
                            );
                        if x != h {
                            assert(small.contains(x));
                            assert(active_selectors(g, small).contains(s));
                        }
                    }
                }
                assert(r@ =~= active_selectors(g, big));
            }
        }
        assert(list@.take(n as int) =~= list@);
        r
    }

    /// The rows that stay resident.
    fn kept_row_set(
        &self,
        projection: &Projection,
        heads: &OrdSet<FactId>,
        active: &OrdSet<FactId>,
    ) -> (r: OrdSet<FactId>)
        ensures
            r@ == kept_rows(self@, projection@, heads@, active@),
    {
        let ghost g = self@;
        let mut r: OrdSet<FactId> = OrdSet::new();
        r.extend(heads);
        r.extend(active);
        let ghost start = r@;
        let list = active.to_vec();
        let n: usize = list.len();
        assert(list@.take(0).to_set() =~= Set::<FactId>::empty());
        assert(r@ =~= start.union(selections_of(g.facts, list@.take(0).to_set())));
        for i in 0..n
            invariant
                n == list@.len(),
                g == self@,
                r@ == start.union(selections_of(g.facts, list@.take(i as int).to_set())),
        {
            let ghost small = list@.take(i as int).to_set();
            let ghost before = r@;
            let selected = self.selection(&list[i]);
            if let Some(x) = selected {
                r.insert(x);
            }
            proof {
                ordset::lemma_take_set(list@, i as int);
                let big = list@.take(i + 1).to_set();
                assert forall|x: FactId| #[trigger] r@.contains(x) <==> start.union(
                    selections_of(g.facts, big),
                ).contains(x) by {
                    if selections_of(g.facts, small).contains(x) {
                        let s = choose|s: FactId| #[trigger]
                            small.contains(s) && authority::selected_by(g.facts, s) == Some(x);
                        assert(big.contains(s));
                    }
                    if selected == Some(x) {
                        assert(big.contains(list@[i as int]));
                    }
                    if selections_of(g.facts, big).contains(x) {
                        let s = choose|s: FactId| #[trigger]
                            big.contains(s) && authority::selected_by(g.facts, s) == Some(x);
                        if s != list@[i as int] {
                            assert(small.contains(s));
                            assert(selections_of(g.facts, small).contains(x));
                        }
                    }
                }
                assert(r@ =~= start.union(selections_of(g.facts, big)));
            }
        }
        assert(list@.take(n as int) =~= list@);
        let ghost kept = r@;
        let ids = r.to_vec();
        let m: usize = ids.len();
        assert(ids@.take(0).to_set() =~= Set::<FactId>::empty());
        assert(r@ =~= kept.union(provenance::inputs_of(g.facts, ids@.take(0).to_set())));
        for i in 0..m
            invariant
                m == ids@.len(),
                g == self@,
                r@ == kept.union(
                    provenance::inputs_of(g.facts, ids@.take(i as int).to_set()),
                ),
        {
            let ghost small = ids@.take(i as int).to_set();
            let ghost before = r@;
            if let Some(f) = self.facts.get(&ids[i]) {
                let inputs = dependencies(f);
                r.extend_vec(&inputs);
            }
            proof {
                ordset::lemma_take_set(ids@, i as int);
                let big = ids@.take(i + 1).to_set();
                let id = ids@[i as int];
                assert forall|x: FactId| #[trigger] r@.contains(x) <==> kept.union(
                    provenance::inputs_of(g.facts, big),
                ).contains(x) by {
                    if provenance::inputs_of(g.facts, small).contains(x) {
                        let y = choose|y: FactId| #[trigger]
                            small.contains(y) && g.facts.contains_key(y)
                                && g.facts[y].inputs().contains(x);
                        assert(big.contains(y));
                    }
                    if g.facts.contains_key(id) && g.facts[id].inputs().contains(x) {
                        assert(big.contains(id));
                    }
                    if provenance::inputs_of(g.facts, big).contains(x) {
                        let y = choose|y: FactId| #[trigger]
                            big.contains(y) && g.facts.contains_key(y)
                                && g.facts[y].inputs().contains(x);
                        if y != id {
                            assert(small.contains(y));
                            assert(provenance::inputs_of(g.facts, small).contains(x));
                        }
                    }
                }
                assert(r@ =~= kept.union(provenance::inputs_of(g.facts, big)));
            }
        }
        proof {
            assert(ids@.take(m as int) =~= ids@);
            assert(kept =~= heads@.union(active@).union(selections_of(g.facts, active@)));
        }
        r.extend(&projection.settled_row_set());
        assert(r@ =~= kept_rows(g, projection@, heads@, active@));
        r
    }

    /// Whether every resident fact is among the kept rows.
    fn all_kept(&self, kept: &OrdSet<FactId>) -> (r: bool)
        ensures
            r == self@.facts.dom().subset_of(kept@),
    {
        let ids = self.facts.keys();
        let n: usize = ids.len();
        for i in 0..n
            invariant
                n == ids@.len(),
                forall|k: FactId| #[trigger] ids@.contains(k) <==> self@.facts.contains_key(k),
                forall|j: int| 0 <= j < i ==> kept@.contains(#[trigger] ids@[j]),
        {
            if !kept.contains(&ids[i]) {
                assert(ids@.contains(ids@[i as int]));
                assert(self@.facts.dom().contains(ids@[i as int]));
                return false;
            }
        }
        assert forall|id: FactId| #[trigger] self@.facts.dom().contains(id) implies kept@.contains(
            id,
        ) by {
            assert(ids@.contains(id));
            let j = choose|j: int| 0 <= j < ids@.len() && ids@[j] == id;
            assert(kept@.contains(ids@[j]));
        }
        true
    }

    /// Lets everything go but the rows that live state rests on, with their
    /// indexes, and gives the projection as it is.
    fn keep_live_rows(&mut self) -> (projection: Projection)
        requires
            old(self)@.indexes_current(),
        ensures
            projection@ == projection::current(old(self)@),
            ({
                let g = old(self)@;
                let p = projection::current(g);
                let heads = live_rows(g, p);
                let kept = kept_rows(g, p, heads, active_selectors(g.reading(), heads));
                final(self)@ == (GraphView {
                    facts: g.facts.restrict(kept),
                    order: g.order.filter(|id: FactId| kept.contains(id)),
                    index: retired_index(g),
                    ..g
                })
            }),
    {
        let ghost g = self@;
        let projection = self.projection();
        let heads = self.live_row_set(&projection);
        // Context roots are live authority and projection rows, not auxiliary
        // selector witnesses. Otherwise retaining a selector's old selected
        // witness would recursively pin every obsolete selector forever.
        let mut active = self.active_selector_set(&heads);
        let ghost first = active@;
        // Keep the direct signed witness layer needed to validate the next
        // continuation, not recursive ancestry.
        let kept = self.kept_row_set(&projection, &heads, &active);
        if self.all_kept(&kept) {
            // A still-complete resident graph needs no context retirement.
            let all = crate::costs::rows_selectors(&self.index.provenance);
            active.extend(&all);
        }
        assert(active@ =~= kept_selectors(g, kept@, first));
        keep_only(&mut self.facts, &kept);
        self.order = filter_list(&self.order, &kept);
        self.index.rebuild_authority_facts_index(&self.facts);
        self.index.stand_down = cut_set_table(&self.index.stand_down, &kept);
        self.index.selectors = table_selectors(&self.facts, &active);
        self.index.provenance = cut_row_table(&self.index.provenance, &kept, &active);
        assert(self@.index =~= retired_index(g));
        projection
    }

    /// Whether retirement can be accounted for.
    pub fn can_retire(&self) -> (r: bool)
        ensures
            r == can_retire(self@),
    {
        if self.fence.staged_cold_pending == 0 && (self.fence.cold_history_since_retirement as u64)
            < self.setting.limits.max_hot_history_facts {
            return true;
        }
        if self.fence.facts_revision == u64::MAX {
            return false;
        }
        proof {
            rebuild::lemma_rebuilt_frame(self@);
        }
        let mut left = self.duplicate();
        left.ensure_indexes_current();
        let _ = left.keep_live_rows();
        self.setting.limits.logical_index_residency_bytes(&left.index).is_ok()
    }

    /// Retires the history that live state does not rest on.  The complete
    /// projection is sealed before any historical body leaves the map;
    /// incremental updates carry unchanged cells forward from there.
    pub fn retire_cold_history(&mut self)
        requires
            can_retire(old(self)@),
        ensures
            final(self)@ == retired(old(self)@),
    {
        proof {
            reveal(retired);
        }
        if self.fence.staged_cold_pending == 0 && (self.fence.cold_history_since_retirement as u64)
            < self.setting.limits.max_hot_history_facts {
            return;
        }
        proof {
            rebuild::lemma_rebuilt_frame(self@);
        }
        self.ensure_indexes_current();
        let projection = self.keep_live_rows();
        let limits = self.setting.limits;
        self.ledger.index_bytes = match limits.logical_index_residency_bytes(&self.index) {
            Ok(n) => n,
            Err(_) => {
                assert(false);
                0
            },
        };
        self.fence.indexed_fact_count = self.facts.len();
        self.fence.facts_revision = self.fence.facts_revision + 1;
        self.fence.indexed_revision = self.fence.facts_revision;
        self.fence.cold_history_since_retirement = 0;
        self.fence.staged_cold_pending = 0;
        self.cache = Some(Cached { generation: self.fence.generation, projection });
        assert(self@ =~= retired(old(self)@));
    }

    /// Seal the smallest exact continuation state for a durable restart.
    /// Unlike the amortized admission sweep, shutdown must not leave a
    /// partially filled retirement batch in the checkpoint.
    pub fn seal_live_checkpoint(&mut self)
        requires
            can_retire(made_due(old(self)@)),
        ensures
            final(self)@ == sealed(old(self)@),
    {
        let limit = self.setting.limits.max_hot_history_facts;
        self.fence.cold_history_since_retirement = if limit <= usize::MAX as u64 {
            limit as usize
        } else {
            usize::MAX
        };
        assert(self@ =~= made_due(old(self)@));
        self.retire_cold_history();
    }
}

/// Retiring history leaves the projection, and how much history is counted.
pub proof fn retirement_keeps_projection(g: GraphView)
    requires
        g.indexes_current(),
        g.facts.dom().finite(),
        g.fence.facts_revision < u64::MAX,
    ensures
        projection::current(retired(g)) == projection::current(g),
        retired(g).ledger.fact_count == g.ledger.fact_count,
        retired(g).facts.submap_of(g.facts),
{
    reveal(retired);
    if is_due(g) {
        let p = projection::current(g);
        let heads = live_rows(g, p);
        let kept = kept_rows(g, p, heads, active_selectors(g.reading(), heads));
        let facts = g.facts.restrict(kept);
        assert(g.fence.indexed_fact_count == g.facts.dom().len());
        assert(retired(g).facts == facts);
        assert(facts.dom().subset_of(g.facts.dom()));
        vstd::set_lib::lemma_len_subset(facts.dom(), g.facts.dom());
    }
}

} // verus!

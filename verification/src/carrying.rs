//! What a record says of the projection: the entries that it lists carry the
//! projection from before the fact to after it.

use vstd::prelude::*;

use crate::admission;
use crate::canon;
use crate::capture;
use crate::content::ExclusiveCell;
use crate::costs;
use crate::costs::CostView;
use crate::delta;
use crate::delta::{RecordView, SemanticFactStatus};
use crate::detach;
use crate::device::DeviceId;
use crate::exactness;
use crate::fact::{Facts, FactView};
use crate::graph::{GraphView, ProjectionView};
use crate::growth;
use crate::ids::FactId;
use crate::impact;
use crate::impact::ImpactView;
use crate::index;
use crate::journal;
use crate::multimap;
use crate::order;
use crate::ordset;
use crate::projection;
use crate::projection::DeltaView;
use crate::quarantine;
use crate::reach;
use crate::retry;
use crate::retry::RetryView;
use crate::rollback;
use crate::validation;

verus! {

/// The projection with the entries of a record in place.
pub open spec fn carried(p: ProjectionView, d: DeltaView) -> ProjectionView {
    ProjectionView {
        cells: capture::restored(p.cells, d.cells),
        stand_down: capture::restored(p.stand_down, d.stand_down),
    }
}

/// Whether one impact is within another, but for what a fact bears on by
/// itself.
spec fn within(a: ImpactView, b: ImpactView, f: FactView) -> bool {
    &&& forall|c: ExclusiveCell| #[trigger]
        a.cells.contains(c) ==> b.cells.contains(c) || f.advances(c)
    &&& forall|d: DeviceId| #[trigger]
        a.subjects.contains(d) ==> b.subjects.contains(d) || f.touches(d)
}

/// The participants in a lineage after a fact followed.
proof fn lemma_participants_after(facts: Facts, f: FactView, s: DeviceId)
    requires
        canon::is_history(facts),
        canon::extends(facts, f),
    ensures
        ({
            let none = Set::<FactId>::empty();
            let before = impact::participants(exactness::reading_of(facts), s, none);
            let after = impact::participants(
                exactness::reading_of(facts.insert(f.id, f)),
                s,
                none,
            );
            after.subset_of(before.insert(f.id)) && after.subset_of(
                facts.insert(f.id, f).dom(),
            ) && before.subset_of(facts.dom())
        }),
{
    let all = facts.insert(f.id, f);
    let none = Set::<FactId>::empty();
    let now = exactness::reading_of(all);
    let was = exactness::reading_of(facts);
    assert forall|x: FactId| #[trigger] impact::participants(now, s, none).contains(
        x,
    ) implies all.contains_key(x) && impact::participants(was, s, none).insert(f.id).contains(
        x,
    ) by {
        assert(multimap::at(index::participants_of(all), s).contains(x));
        if x != f.id {
            assert(facts.contains_key(x) && facts[x].takes_part(s));
            assert(multimap::at(index::participants_of(facts), s).contains(x));
        }
    }
    assert forall|x: FactId| #[trigger] impact::participants(was, s, none).contains(
        x,
    ) implies facts.contains_key(x) by {
        assert(multimap::at(index::participants_of(facts), s).contains(x));
    }
}

/// What the branches from some facts reach after a fact followed is what they
/// reached, and the fact itself.
proof fn lemma_branches_after(
    facts: Facts,
    f: FactView,
    s: DeviceId,
    more: Set<FactId>,
    seeds: Set<FactId>,
)
    requires
        canon::is_history(facts),
        canon::extends(facts, f),
        more.subset_of(seeds.insert(f.id)),
    ensures
        within(
            impact::branch_impact(
                exactness::reading_of(facts.insert(f.id, f)),
                s,
                more,
                Set::empty(),
            ),
            impact::branch_impact(exactness::reading_of(facts), s, seeds, Set::empty()),
            f,
        ),
{
    let all = facts.insert(f.id, f);
    let none = Set::<FactId>::empty();
    let now = exactness::reading_of(all);
    let was = exactness::reading_of(facts);
    let edges = impact::branch_edges(was, s, none);
    let wider = impact::branch_edges(now, s, none);
    let reached = reach::reach(edges, seeds);
    let whole = reached.insert(f.id);
    reach::lemma_reach_closed(edges, seeds);
    lemma_participants_after(facts, f, s);
    assert forall|x: FactId, y: FactId|
        whole.contains(x) && wider.contains_key(x) && #[trigger] wider[x].contains(
            y,
        ) implies #[trigger] whole.contains(y) by {
        let after = impact::dependents(now, s, none, x);
        assert(after.subset_of(all.dom()));
        vstd::set_lib::lemma_set_subset_finite(all.dom(), after);
        ordset::lemma_listing(after);
        assert(after.contains(y));
        if y != f.id {
            assert(facts.contains_key(y));
            assert(facts[y].names(s).contains(x));
            assert(facts[y].inputs().contains(x));
            assert(facts.contains_key(x));
            assert(impact::participants(was, s, none).contains(y));
            let before = impact::dependents(was, s, none, x);
            assert(before.contains(y));
            vstd::set_lib::lemma_set_subset_finite(facts.dom(), before);
            ordset::lemma_listing(before);
            assert(edges[x].contains(y));
            assert(reached.contains(x));
        }
    }
    reach::lemma_reach_least(wider, more, whole);
    let a = impact::branch_impact(now, s, more, none);
    let b = impact::branch_impact(was, s, seeds, none);
    assert forall|c: ExclusiveCell| #[trigger] a.cells.contains(c) implies b.cells.contains(c)
        || f.advances(c) by {
        let id = choose|id: FactId| #[trigger]
            reach::reach(wider, more).contains(id) && all.contains_key(id) && all[id].advances(c);
        assert(whole.contains(id));
        if id != f.id {
            assert(reached.contains(id) && facts.contains_key(id) && facts[id].advances(c));
        }
    }
    assert forall|d: DeviceId| #[trigger] a.subjects.contains(d) implies b.subjects.contains(d)
        || f.touches(d) by {
        let id = choose|id: FactId| #[trigger]
            reach::reach(wider, more).contains(id) && all.contains_key(id) && all[id].touches(d);
        assert(whole.contains(id));
        if id != f.id {
            assert(reached.contains(id) && facts.contains_key(id) && facts[id].touches(d));
        }
    }
}

/// What a fact can change through a lineage once it joined is what it could
/// change before.
proof fn lemma_subject_after(facts: Facts, f: FactView, s: DeviceId)
    requires
        canon::is_history(facts),
        canon::extends(facts, f),
        f.content.body.subjects(f.content.author).contains(s),
    ensures
        within(
            impact::subject_impact(
                exactness::reading_of(facts.insert(f.id, f)),
                f,
                s,
                Set::empty(),
            ),
            impact::subject_impact(exactness::reading_of(facts), f, s, Set::empty()),
            f,
        ),
{
    let all = facts.insert(f.id, f);
    let none = Set::<FactId>::empty();
    let now = exactness::reading_of(all);
    let was = exactness::reading_of(facts);
    let after = impact::participants(now, s, none);
    let before = impact::participants(was, s, none);
    lemma_participants_after(facts, f, s);
    if impact::selects_for(f.content.body, s) {
        let seeds = impact::seeds_of(f, s);
        lemma_branches_after(facts, f, s, seeds, seeds);
        lemma_branches_after(facts, f, s, seeds.union(after), seeds.union(before));
    } else if !f.payload_local(s) {
        let heads = impact::fork_heads(now, s, none);
        let past = impact::fork_heads(was, s, none);
        canon::lemma_extended(facts, f);
        exactness::lemma_heads_after(facts, f, s);
        exactness::lemma_heads_indexed(was, s);
        exactness::lemma_heads_indexed(now, s);
        assert forall|h: FactId| #[trigger] heads.contains(h) && h != f.id implies past.contains(
            h,
        ) by {
            assert(exactness::lineage_heads(all, s).contains(h));
            assert(exactness::lineage_heads(facts, s).contains(h));
        }
        lemma_branches_after(facts, f, s, heads.union(after), past.union(before));
    }
}

/// What a fact can change once it joined is what it could change before.
proof fn lemma_impact_after(facts: Facts, f: FactView)
    requires
        canon::is_history(facts),
        canon::extends(facts, f),
    ensures
        ({
            let after = impact::impact(
                exactness::reading_of(facts.insert(f.id, f)),
                f,
                Set::empty(),
            );
            let before = impact::impact(exactness::reading_of(facts), f, Set::empty());
            after.cells.subset_of(before.cells) && after.subjects.subset_of(before.subjects)
        }),
{
    reveal(impact::impact);
    let none = Set::<FactId>::empty();
    let now = exactness::reading_of(facts.insert(f.id, f));
    let was = exactness::reading_of(facts);
    let about = f.content.body.subjects(f.content.author);
    let after = impact::impact(now, f, none);
    let before = impact::impact(was, f, none);
    assert forall|c: ExclusiveCell| #[trigger] after.cells.contains(c) implies before.cells.contains(
        c,
    ) by {
        if !f.advances(c) {
            let s = choose|s: DeviceId| #[trigger]
                about.contains(s) && impact::subject_impact(now, f, s, none).cells.contains(c);
            lemma_subject_after(facts, f, s);
            assert(impact::subject_impact(was, f, s, none).cells.contains(c));
        }
    }
    assert forall|d: DeviceId| #[trigger]
        after.subjects.contains(d) implies before.subjects.contains(d) by {
        if !f.touches(d) && !about.contains(d) {
            let s = choose|s: DeviceId| #[trigger]
                about.contains(s) && impact::subject_impact(now, f, s, none).subjects.contains(d);
            lemma_subject_after(facts, f, s);
            assert(impact::subject_impact(was, f, s, none).subjects.contains(d));
        }
    }
}

/// The changes since a sample carry a map to what it became, where the sample
/// covers all that changed.
pub proof fn changes_carry_the_map<K, V>(before: Map<K, V>, now: Map<K, V>, keys: Set<K>)
    requires
        forall|k: K|
            !(#[trigger] keys.contains(k)) ==> capture::held(now, k) == capture::held(before, k),
    ensures
        capture::restored(
            before,
            projection::changes(now, capture::sampled(before, keys)),
        ) == now,
{
    let listed = projection::changes(now, capture::sampled(before, keys));
    let made = capture::restored(before, listed);
    assert forall|k: K| #[trigger] made.contains_key(k) <==> now.contains_key(k) by {
        assert(keys.contains(k) || capture::held(now, k) == capture::held(before, k));
    }
    assert forall|k: K| #[trigger] made.contains_key(k) implies made[k] == now[k] by {
        assert(keys.contains(k) || capture::held(now, k) == capture::held(before, k));
    }
    assert(made =~= now);
}

/// The entries in the record of a journaled fact carry the projection from
/// before the fact to after it, where no waiter is ready and none waits for
/// the fact.
pub proof fn record_carries_the_projection(g: GraphView, f: FactView)
    requires
        g.indexes_current(),
        g.fence.staged_cold_pending == 0,
        g.facts.dom().len() < usize::MAX,
        admission::has_room(g, 1),
        canon::is_history(g.facts),
        g.index == canon::index_of(g.facts),
        g.quarantine.ready == Set::<FactId>::empty(),
        multimap::at(g.quarantine.waiting, f.id) == Set::<FactId>::empty(),
    ensures
        ({
            let (h, result) = journal::journaled(g, f);
            match result {
                Ok(j) => match j.delta.projection {
                    Some(d) => {
                        &&& d.base_generation == g.fence.generation
                        &&& d.generation == h.fence.generation
                        &&& carried(projection::current(g), d) == projection::current(h)
                    },
                    None => h.facts == g.facts,
                },
                Err(_) => true,
            }
        }),
{
    reveal(journal::applied);
    reveal(journal::followed);
    reveal(journal::changed);
    reveal(journal::prepared);
    reveal(admission::offered);
    reveal(admission::entered);
    reveal(admission::cleared);
    reveal(validation::candidate_check);
    if let Ok(pf) = journal::preflighted(g, f) {
        let a = journal::applied(g, f, pf, Seq::empty(), None, None, 0);
        if a.result is Ok && !(pf.admission is AlreadyPresent) {
            admission::lemma_screened(g, f);
            let cost = pf.cost->0;
            let before = projection::base(g);
            let bare = GraphView { cache: None, ..g };
            let none = Set::<FactId>::empty();
            assert(Seq::<FactId>::empty().to_set() =~= none);
            assert(bare.reading() == g.reading());
            assert(g.reading() == exactness::reading_of(g.facts));
            assert(costs::missing_inputs(bare, f) == costs::missing_inputs(g, f));
            let (h, offered) = admission::offered(bare, f, false, Some(before), Some(cost), none);
            let prep = journal::prepared(
                bare,
                f,
                cost,
                journal::first_record(g, Seq::empty(), None),
                before,
                none,
            );
            if let Ok(found) = offered {
                if found is Inserted {
                    assert(f.inputs().subset_of(g.facts.dom())) by {
                        assert forall|x: FactId| #[trigger]
                            f.inputs().contains(x) implies g.facts.dom().contains(x) by {
                            if !g.facts.contains_key(x) {
                                assert(costs::missing_inputs(g, f).contains(x));
                                assert(cost.missing.to_set().contains(x));
                            }
                        }
                    }
                    if f.is_selector() {
                        assert(f.content.body.support().contains(canon::selected(f)));
                        assert(f.inputs().contains(canon::selected(f)));
                    }
                    let all = g.facts.insert(f.id, f);
                    canon::indexes_follow_the_facts(bare, f);
                    assert(all.dom() =~= g.facts.dom().insert(f.id));
                    assert(h.index == canon::index_of(all));
                    assert(h.indexes_current());
                    assert(h.reading() == exactness::reading_of(all));
                    lemma_impact_after(g.facts, f);
                    let after = impact::impact(h.reading(), f, none);
                    let touched = impact::impact(bare.reading(), f, none).and(
                        journal::waiting_impact(
                            bare,
                            rollback::closure(bare, bare.quarantine.ready.insert(f.id)),
                            none,
                        ),
                    );
                    let made = projection::updated(
                        before,
                        h.reading(),
                        after.cells,
                        after.subjects,
                    );
                    assert(projection::base(h) == made);
                    assert(after.cells.subset_of(touched.cells));
                    assert(after.subjects.subset_of(touched.subjects));
                    changes_carry_the_map(before.cells, made.cells, touched.cells);
                    changes_carry_the_map(before.stand_down, made.stand_down, touched.subjects);
                    assert(h.quarantine.ready =~= none);
                    let st = journal::retry_start(h, prep.rb, 0);
                    assert(retry::open_waiters(st) =~= none);
                    ordset::lemma_listing(retry::open_waiters(st));
                    let limit = crate::sweep::batch_limit(g.setting.limits)->Ok_0;
                    assert(retry::frontier(st, limit as nat).len() == 0);
                    assert(retry::retried_all(st, limit as nat, none) == st);
                    let rows = journal::own_row(h, f.id);
                    assert(rows[0].status == SemanticFactStatus::Admitted);
                    assert(journal::any_admitted(rows));
                    assert(a.g == h);
                    assert(a.result->Ok_0.delta.projection is Some);
                } else {
                    let rows = journal::own_row(h, f.id);
                    assert(h.facts == g.facts);
                    assert(a.g == h);
                    assert(!journal::any_admitted(rows));
                    assert(a.result->Ok_0.delta.projection is None);
                }
            }
        }
    }
}

/// Whether what is ready, and what waits for one of some facts, is among them.
spec fn is_enclosed(g: GraphView, some: Set<FactId>) -> bool {
    &&& g.quarantine.ready.subset_of(some)
    &&& forall|d: FactId, w: FactId|
        some.contains(d) && #[trigger] multimap::at(g.quarantine.waiting, d).contains(w)
            ==> some.contains(w)
}

proof fn lemma_offered_enclosed(
    g: GraphView,
    f: FactView,
    reserved: bool,
    supplied: Option<ProjectionView>,
    cost: Option<CostView>,
    staged: Set<FactId>,
    some: Set<FactId>,
)
    requires
        g.indexes_current(),
        is_enclosed(g, some),
        some.contains(f.id),
    ensures
        is_enclosed(admission::offered(g, f, reserved, supplied, cost, staged).0, some),
{
    reveal(admission::offered);
    reveal(admission::entered);
    let h = admission::offered(g, f, reserved, supplied, cost, staged).0;
    let q = g.quarantine;
    let r = h.quarantine;
    assert forall|d: FactId, w: FactId|
        some.contains(d) && #[trigger] multimap::at(r.waiting, d).contains(
            w,
        ) implies some.contains(w) by {
        assert(w == f.id || multimap::at(q.waiting, d).contains(w));
    }
    assert forall|w: FactId| #[trigger] r.ready.contains(w) implies some.contains(w) by {
        assert(q.ready.contains(w) || multimap::at(q.waiting, f.id).contains(w));
    }
}

proof fn lemma_tried_enclosed(g: GraphView, id: FactId, staged: Set<FactId>, some: Set<FactId>)
    requires
        g.indexes_current(),
        quarantine::owned(g),
        is_enclosed(g, some),
        some.contains(id),
    ensures
        is_enclosed(retry::tried(g, id, staged).0, some),
{
    reveal(retry::tried);
    let (h, found) = quarantine::removed(g, id);
    assert forall|d: FactId, w: FactId|
        some.contains(d) && #[trigger] multimap::at(h.quarantine.waiting, d).contains(
            w,
        ) implies some.contains(w) by {
        assert(multimap::at(g.quarantine.waiting, d).contains(w));
    }
    assert(is_enclosed(h, some));
    if let Ok(Some(f)) = found {
        assert(f.id == id);
        lemma_offered_enclosed(h, f, true, None, None, staged, some);
    }
}

/// Whether an impact has what every waiter among some facts can change.
spec fn foresees(g: GraphView, some: Set<FactId>, t: ImpactView) -> bool {
    forall|id: FactId| #[trigger]
        some.contains(id) && g.quarantine.facts.contains_key(id) ==> {
            let one = impact::impact(
                exactness::reading_of(g.facts),
                g.quarantine.facts[id],
                Set::empty(),
            );
            one.cells.subset_of(t.cells) && one.subjects.subset_of(t.subjects)
        }
}

/// How far a retry came that changed the projection nowhere but where an
/// impact has it.
spec fn is_foreseen(
    st: RetryView,
    g: GraphView,
    own: FactId,
    some: Set<FactId>,
    t: ImpactView,
) -> bool {
    &&& exactness::is_ready(st.g)
    &&& growth::is_grown(g.facts, st.g.facts, t)
    &&& growth::is_changed_within(g.facts, st.g.facts, t)
    &&& forall|id: FactId| #[trigger]
        st.g.quarantine.facts.contains_key(id) ==> g.quarantine.facts.contains_key(id)
            && st.g.quarantine.facts[id] == g.quarantine.facts[id]
    &&& is_enclosed(st.g, some)
    &&& st.g.facts.contains_key(own)
}

proof fn lemma_retried_foreseen(
    st: RetryView,
    id: FactId,
    g: GraphView,
    own: FactId,
    some: Set<FactId>,
    t: ImpactView,
)
    requires
        is_foreseen(st, g, own, some, t),
        foresees(g, some, t),
        some.contains(id),
    ensures
        retry::retried(st, id, Set::empty()).refusal is None ==> is_foreseen(
            retry::retried(st, id, Set::empty()),
            g,
            own,
            some,
            t,
        ),
{
    let none = Set::<FactId>::empty();
    let k = st.g;
    let next = retry::retried(st, id, none);
    lemma_tried_enclosed(k, id, none, some);
    if k.quarantine.facts.contains_key(id) {
        let f = k.quarantine.facts[id];
        exactness::lemma_retried_ready(st, id);
        assert(exactness::is_signed_through(f));
        assert(k.quarantine.facts.dom().contains(id));
        assert(k.quarantine.facts.dom().len() >= 1) by {
            if k.quarantine.facts.dom().len() == 0 {
                assert(k.quarantine.facts.dom() =~= Set::<FactId>::empty());
            }
        }
        exactness::promotion_keeps_graph_exact(k, id);
        assert(f.id == id);
        if next.refusal is None && next.g.facts != k.facts {
            growth::lemma_grows(g.facts, k.facts, f, t);
        }
    } else {
        reveal(retry::tried);
        exactness::lemma_retried_none(st, id);
    }
}

proof fn lemma_retried_list_foreseen(
    st: RetryView,
    list: Seq<FactId>,
    n: int,
    g: GraphView,
    own: FactId,
    some: Set<FactId>,
    t: ImpactView,
)
    requires
        is_foreseen(st, g, own, some, t),
        foresees(g, some, t),
        0 <= n <= list.len(),
        forall|i: int| 0 <= i < list.len() ==> some.contains(#[trigger] list[i]),
    ensures
        retry::retried_list(st, list, n, Set::empty()).refusal is None ==> is_foreseen(
            retry::retried_list(st, list, n, Set::empty()),
            g,
            own,
            some,
            t,
        ),
    decreases n,
{
    if n > 0 {
        lemma_retried_list_foreseen(st, list, n - 1, g, own, some, t);
        let before = retry::retried_list(st, list, n - 1, Set::empty());
        if before.refusal is None {
            lemma_retried_foreseen(before, list[n - 1], g, own, some, t);
        }
    }
}

proof fn lemma_retried_all_foreseen(
    st: RetryView,
    limit: nat,
    g: GraphView,
    own: FactId,
    some: Set<FactId>,
    t: ImpactView,
)
    requires
        is_foreseen(st, g, own, some, t),
        foresees(g, some, t),
        some.finite(),
    ensures
        retry::retried_all(st, limit, Set::empty()).refusal is None ==> is_foreseen(
            retry::retried_all(st, limit, Set::empty()),
            g,
            own,
            some,
            t,
        ),
    decreases limit - st.budget,
{
    let none = Set::<FactId>::empty();
    let list = retry::frontier(st, limit);
    if list.len() > 0 {
        let open = retry::open_waiters(st);
        vstd::set_lib::lemma_set_subset_finite(some, open);
        ordset::lemma_listing(open);
        assert forall|i: int| 0 <= i < list.len() implies some.contains(#[trigger] list[i]) by {
            assert(order::ascending(open)[i] == list[i]);
            assert(order::ascending(open).contains(list[i]));
            assert(st.g.quarantine.ready.contains(list[i]));
        }
        lemma_retried_list_foreseen(st, list, list.len() as int, g, own, some, t);
        let next = retry::retried_list(st, list, list.len() as int, none);
        if next.refusal is Some || next.budget <= st.budget || next.budget > limit {
        } else {
            lemma_retried_all_foreseen(next, limit, g, own, some, t);
        }
    }
}

/// A row of an admitted fact stays on record.
proof fn lemma_rows_stay(g: GraphView, rec: RecordView, ids: Seq<FactId>, n: int)
    requires
        journal::any_admitted(rec.rows),
    ensures
        journal::any_admitted(journal::with_retried(g, rec, ids, n).rows),
    decreases n,
{
    if n > 0 {
        lemma_rows_stay(g, rec, ids, n - 1);
        let before = journal::with_retried(g, rec, ids, n - 1).rows;
        let after = journal::with_retried(g, rec, ids, n).rows;
        let i = choose|i: int|
            0 <= i < before.len() && (#[trigger] before[i]).status == SemanticFactStatus::Admitted;
        assert(after[i] == before[i]);
    }
}

/// What a fact can wake is enclosed.
proof fn lemma_closure_encloses(g: GraphView, f: FactView)
    requires
        quarantine::owned(g),
        detach::is_rostered(g),
    ensures
        ({
            let some = rollback::closure(g, g.quarantine.ready.insert(f.id));
            is_enclosed(g, some) && some.contains(f.id) && some.finite()
        }),
{
    let q = g.quarantine;
    let seeds = q.ready.insert(f.id);
    let edges = reach::waiter_edges(q.waiting);
    let some = rollback::closure(g, seeds);
    let most = q.facts.dom().insert(f.id);
    reach::lemma_reach_closed(edges, seeds);
    assert(seeds.contains(f.id));
    assert forall|d: FactId| #[trigger] edges.contains_key(d) implies multimap::at(
        q.waiting,
        d,
    ).finite() && (forall|w: FactId| #[trigger]
        edges[d].contains(w) <==> multimap::at(q.waiting, d).contains(w)) by {
        let set = multimap::at(q.waiting, d);
        assert forall|w: FactId| #[trigger] set.contains(w) implies q.facts.dom().contains(w) by {}
        vstd::set_lib::lemma_set_subset_finite(q.facts.dom(), set);
        ordset::lemma_listing(set);
        assert(edges[d] == order::ascending(set));
    }
    assert forall|d: FactId, w: FactId|
        some.contains(d) && #[trigger] multimap::at(q.waiting, d).contains(w) implies some.contains(
        w,
    ) by {
        assert(edges.contains_key(d));
        assert(edges[d].contains(w));
    }
    assert forall|x: FactId, y: FactId|
        most.contains(x) && edges.contains_key(x) && #[trigger] edges[x].contains(
            y,
        ) implies #[trigger] most.contains(y) by {
        assert(multimap::at(q.waiting, x).contains(y));
    }
    reach::lemma_reach_least(edges, seeds, most);
    vstd::set_lib::lemma_set_subset_finite(most, some);
}

/// The entries in the record of a journaled fact carry the projection of an
/// exact graph from before the fact to after it and all the waiters that it
/// promoted or dropped.
pub proof fn record_with_waiters_carries_the_projection(g: GraphView, f: FactView)
    requires
        exactness::is_exact(g),
        quarantine::owned(g),
        detach::is_rostered(g),
        retry::is_roomy(g, 2),
        retry::is_countable(g, 1),
        exactness::are_signed_through(g.quarantine.facts),
        exactness::is_signed_through(f),
    ensures
        ({
            let (h, result) = journal::journaled(g, f);
            match result {
                Ok(j) => match j.delta.projection {
                    Some(d) => {
                        &&& d.base_generation == g.fence.generation
                        &&& d.generation == h.fence.generation
                        &&& carried(projection::current(g), d) == projection::current(h)
                    },
                    None => h.facts == g.facts,
                },
                Err(_) => true,
            }
        }),
{
    reveal(journal::applied);
    reveal(journal::followed);
    reveal(journal::changed);
    exactness::journaling_keeps_graph_exact(g, f);
    if let Ok(pf) = journal::preflighted(g, f) {
        let a = journal::applied(g, f, pf, Seq::empty(), None, None, 0);
        if a.result is Ok && !(pf.admission is AlreadyPresent) {
            admission::lemma_screened(g, f);
            let cost = pf.cost->0;
            let before = projection::base(g);
            let bare = GraphView { cache: None, ..g };
            let none = Set::<FactId>::empty();
            assert(Seq::<FactId>::empty().to_set() =~= none);
            assert(bare.reading() == g.reading());
            assert(g.reading() == exactness::reading_of(g.facts));
            assert(exactness::is_exact(bare));
            assert(costs::missing_inputs(bare, f) == costs::missing_inputs(g, f));
            exactness::offer_keeps_graph_exact(bare, f, false, Some(before), Some(cost));
            let (h, offered) = admission::offered(bare, f, false, Some(before), Some(cost), none);
            assert(quarantine::owned(bare));
            assert(admission::is_own(cost, f)) by {
                assert(cost.missing.to_set().subset_of(f.inputs()));
            }
            admission::lemma_offered(bare, f, false, Some(before), Some(cost), none);
            retry::lemma_offered_room(bare, f, false, Some(before), Some(cost), none);
            let one: int = 1;
            assert(retry::is_roomy(bare, one + 1));
            assert(retry::is_countable(bare, 1));
            let prep = journal::prepared(
                bare,
                f,
                cost,
                journal::first_record(g, Seq::empty(), None),
                before,
                none,
            );
            let some = rollback::closure(bare, bare.quarantine.ready.insert(f.id));
            let touched = impact::impact(bare.reading(), f, none).and(
                journal::waiting_impact(bare, some, none),
            );
            assert(prep.cells == capture::sampled(before.cells, touched.cells) && prep.stand_down
                == capture::sampled(before.stand_down, touched.subjects)) by {
                reveal(journal::prepared);
            }
            let found = offered->Ok_0;
            if found is Inserted {
                lemma_closure_encloses(bare, f);
                assert(foresees(g, some, touched)) by {
                    assert forall|id: FactId| #[trigger]
                        some.contains(id) && g.quarantine.facts.contains_key(id) implies ({
                        let v = impact::impact(
                            exactness::reading_of(g.facts),
                            g.quarantine.facts[id],
                            none,
                        );
                        v.cells.subset_of(touched.cells) && v.subjects.subset_of(touched.subjects)
                    }) by {
                        let wide = journal::waiting_impact(bare, some, none);
                        let v = impact::impact(
                            exactness::reading_of(g.facts),
                            g.quarantine.facts[id],
                            none,
                        );
                        assert(v.cells.subset_of(wide.cells));
                        assert(v.subjects.subset_of(wide.subjects));
                    }
                }
                growth::lemma_grown_start(g.facts, touched);
                growth::lemma_grows(g.facts, g.facts, f, touched);
                lemma_offered_enclosed(bare, f, false, Some(before), Some(cost), none, some);
                assert(exactness::are_signed_through(h.quarantine.facts));
                assert(exactness::is_ready(h));
                let start = journal::retry_start(h, prep.rb, 0);
                assert(h.quarantine.facts == g.quarantine.facts) by {
                    reveal(admission::offered);
                    reveal(admission::entered);
                }
                assert(is_foreseen(start, g, f.id, some, touched));
                let limit = crate::sweep::batch_limit(g.setting.limits)->Ok_0;
                lemma_retried_all_foreseen(start, limit as nat, g, f.id, some, touched);
                let st = retry::retried_all(start, limit as nat, none);
                assert(st.g.reading() == exactness::reading_of(st.g.facts));
                let now = projection::projected(st.g.reading());
                assert(projection::base(st.g) == now);
                changes_carry_the_map(before.cells, now.cells, touched.cells);
                changes_carry_the_map(before.stand_down, now.stand_down, touched.subjects);
                assert(a.g == st.g);
                let rec = RecordView { rows: journal::own_row(st.g, f.id), ..delta::no_change() };
                assert(rec.rows[0].status == SemanticFactStatus::Admitted);
                lemma_rows_stay(st.g, rec, st.ids, st.ids.len() as int);
                assert(a.result->Ok_0.delta.projection is Some);
            } else {
                assert(h.facts == g.facts);
                assert(a.g == h);
                assert(!journal::any_admitted(journal::own_row(h, f.id)));
            }
        }
    }
}

/// A record that was gathered over several admissions carries the projection
/// from before them to now, where it lists every cell and subject that
/// changed.
pub proof fn gathered_record_carries_the_projection(
    g: GraphView,
    previous: ProjectionView,
    rec: RecordView,
)
    requires
        forall|c: ExclusiveCell|
            !(#[trigger] rec.cells.contains(c)) ==> capture::held(
                projection::current(g).cells,
                c,
            ) == capture::held(previous.cells, c),
        forall|d: DeviceId|
            !(#[trigger] rec.subjects.contains(d)) ==> capture::held(
                projection::current(g).stand_down,
                d,
            ) == capture::held(previous.stand_down, d),
    ensures
        carried(previous, delta::settled(g, previous, rec).projection->0) == projection::current(g),
{
    let now = projection::current(g);
    changes_carry_the_map(previous.cells, now.cells, rec.cells);
    changes_carry_the_map(previous.stand_down, now.stand_down, rec.subjects);
}

} // verus!

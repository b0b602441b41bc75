//! Whatever is done to a sound graph leaves a sound graph.

use vstd::prelude::*;

use crate::accounting;
use crate::admission;
use crate::admission::AdmissionView;
use crate::aggregate;
use crate::aggregate::GroupView;
use crate::authority;
use crate::canon;
use crate::capture;
use crate::charge;
use crate::checkpoint;
use crate::checkpoint::CheckpointError;
use crate::cold;
use crate::coldback;
use crate::content::ExclusiveCell;
use crate::continuation;
use crate::continuity;
use crate::costs;
use crate::coverage;
use crate::device::DeviceId;
use crate::error::SemanticError;
use crate::evidence;
use crate::exactness;
use crate::fact::FactView;
use crate::graph;
use crate::graph::{GraphView, Selection};
use crate::ids::FactId;
use crate::journal;
use crate::journal::PreflightView;
use crate::multimap;
use crate::order;
use crate::ordset;
use crate::policy::{SemanticAdmissionPolicy, VerifiedBootstrap};
use crate::projection;
use crate::provenance;
use crate::quarantine;
use crate::residence;
use crate::restart;
use crate::retry;
use crate::retry::RetryView;
use crate::rollback;
use crate::soundness;
use crate::sweep;
use crate::sweep::SweepView;
use crate::undo;

verus! {

/// Whether a graph is sound, and its revisions and its facts can be counted
/// through `more` further admissions.
pub open spec fn is_kept(g: GraphView, more: int) -> bool {
    &&& soundness::is_sound(g)
    &&& retry::is_roomy(g, more)
    &&& retry::is_countable(g, more)
}

proof fn lemma_retried_list_kept(st: RetryView, list: Seq<FactId>, n: int)
    requires
        is_kept(st.g, 0),
        st.refusal is None,
        0 <= n <= list.len(),
    ensures
        retry::retried_list(st, list, n, Set::empty()).refusal is None ==> is_kept(
            retry::retried_list(st, list, n, Set::empty()).g,
            0,
        ),
    decreases n,
{
    if n > 0 {
        lemma_retried_list_kept(st, list, n - 1);
        let before = retry::retried_list(st, list, n - 1, Set::empty());
        if before.refusal is None {
            let id = list[n - 1];
            retry::lemma_retried(before, id, Set::empty(), before.g);
            soundness::promotion_keeps_graph_sound(before.g, id);
        }
    }
}

proof fn lemma_retried_all_kept(st: RetryView, limit: nat)
    requires
        is_kept(st.g, 0),
        st.refusal is None,
    ensures
        retry::retried_all(st, limit, Set::empty()).refusal is None ==> is_kept(
            retry::retried_all(st, limit, Set::empty()).g,
            0,
        ),
    decreases limit - st.budget,
{
    let list = retry::frontier(st, limit);
    if list.len() > 0 {
        lemma_retried_list_kept(st, list, list.len() as int);
        let next = retry::retried_list(st, list, list.len() as int, Set::empty());
        if next.refusal is Some || next.budget <= st.budget || next.budget > limit {
        } else {
            lemma_retried_all_kept(next, limit);
        }
    }
}

/// A graph without its cached projection is as sound.
proof fn lemma_bare_sound(g: GraphView)
    requires
        soundness::is_sound(g),
    ensures
        soundness::is_sound(GraphView { cache: None, ..g }),
{
    soundness::returned_graph_is_sound(GraphView { cache: None, ..g }, g);
}

/// A journaled admission of a fact with its own preflight keeps a graph.
pub proof fn lemma_applied_kept(
    g: GraphView,
    f: FactView,
    pf: PreflightView,
    beside: Option<Seq<FactId>>,
    budget: nat,
    room: int,
    more: int,
)
    requires
        soundness::is_sound(g),
        retry::is_roomy(g, room + 1),
        retry::is_countable(g, more + 1),
        room >= 0,
        more >= 0,
        soundness::is_matched(f),
        journal::preflighted(g, f) == Ok::<PreflightView, SemanticError>(pf),
        beside matches Some(list) ==> list.len() == 0,
    ensures
        ({
            let h = journal::applied(g, f, pf, Seq::empty(), None, beside, budget).g;
            &&& soundness::is_sound(h)
            &&& retry::is_roomy(h, room)
            &&& retry::is_countable(h, more)
        }),
{
    let a = journal::applied(g, f, pf, Seq::empty(), None, beside, budget);
    admission::lemma_screened(g, f);
    undo::lemma_applied(g, f, pf, beside, budget);
    reveal(journal::applied);
    reveal(journal::followed);
    let none = Set::<FactId>::empty();
    let set = match beside {
        Some(list) => list.to_set(),
        None => Seq::<FactId>::empty().to_set(),
    };
    assert(set =~= none);
    if a.result is Err {
        soundness::returned_graph_is_sound(a.g, g);
    } else if pf.admission is AlreadyPresent {
        assert(a.g == g);
    } else {
        let cost = pf.cost->0;
        let before = projection::base(g);
        assert(before == projection::current(g));
        let bare = GraphView { cache: None, ..g };
        lemma_bare_sound(g);
        assert(costs::missing_inputs(bare, f) == costs::missing_inputs(g, f));
        reveal(admission::screened);
        assert(soundness::is_candidate(bare, f));
        assert(admission::is_own(cost, f)) by {
            assert(cost.missing.to_set().subset_of(f.inputs()));
        }
        soundness::offer_keeps_graph_sound(bare, f, false, Some(before), Some(cost));
        let (h, offered) = admission::offered(bare, f, false, Some(before), Some(cost), none);
        admission::lemma_offered(bare, f, false, Some(before), Some(cost), none);
        retry::lemma_offered_room(bare, f, false, Some(before), Some(cost), none);
        assert(retry::is_roomy(bare, room + 1));
        assert(retry::is_countable(bare, 1));
        assert(retry::is_roomy(h, room));
        assert(is_kept(h, 0));
        if offered->Ok_0 is Inserted {
            let prep = journal::prepared(
                bare,
                f,
                cost,
                journal::first_record(g, Seq::empty(), None),
                before,
                none,
            );
            let limit = sweep::batch_limit(g.setting.limits)->Ok_0;
            let start = journal::retry_start(h, prep.rb, budget);
            lemma_retried_all_kept(start, limit as nat);
            retry::lemma_retried_all(start, limit as nat, none, g);
        }
    }
}

/// A journaled admission leaves a sound graph, with all the waiters that it
/// promoted or dropped, and so does a refused one.
pub proof fn journaling_keeps_graph_sound(g: GraphView, f: FactView)
    requires
        is_kept(g, 1),
        soundness::is_matched(f),
    ensures
        soundness::is_sound(journal::journaled(g, f).0),
{
    if let Ok(pf) = journal::preflighted(g, f) {
        lemma_applied_kept(g, f, pf, None, 0, 0, 0);
    }
}

/// What a rolled-back journal leaves is the graph as it was, with its indexes
/// and its projection.
pub proof fn rollback_gives_back_a_sound_graph(g: GraphView, f: FactView)
    requires
        is_kept(g, 1),
    ensures
        ({
            let (h, result) = journal::journaled(g, f);
            let back = match result {
                Ok(j) => journal::rolled_back(j.rollback, j.staged, h),
                Err(_) => h,
            };
            &&& soundness::is_sound(back)
            &&& back == (GraphView { cache: back.cache, ..g })
            &&& projection::current(back) == projection::current(g)
        }),
{
    undo::rolled_back_journal_leaves_no_trace(g, f);
    let (h, result) = journal::journaled(g, f);
    let back = match result {
        Ok(j) => journal::rolled_back(j.rollback, j.staged, h),
        Err(_) => h,
    };
    soundness::returned_graph_is_sound(back, g);
}

/// A record taken before an admission gives a sound graph back after it,
/// whatever became of the fact, with its indexes and its projection.
pub proof fn record_gives_back_a_sound_graph(g: GraphView, f: FactView)
    requires
        soundness::is_sound(g),
    ensures
        ({
            let back = rollback::restored_graph(
                admission::recorded(g, f),
                admission::admitted(g, f).0,
            );
            &&& soundness::is_sound(back)
            &&& back == (GraphView { cache: back.cache, ..g })
            &&& projection::current(back) == projection::current(g)
        }),
{
    undo::recorded_admission_can_be_undone(g, f);
    soundness::returned_graph_is_sound(
        rollback::restored_graph(admission::recorded(g, f), admission::admitted(g, f).0),
        g,
    );
}

/// A refused fact leaves the graph as it was, with its indexes and its
/// projection.
pub proof fn refusal_gives_back_a_sound_graph(g: GraphView, f: FactView)
    requires
        soundness::is_sound(g),
    ensures
        admission::admitted(g, f).1 is Err ==> {
            let back = admission::admitted(g, f).0;
            &&& soundness::is_sound(back)
            &&& back == (GraphView { cache: back.cache, ..g })
            &&& projection::current(back) == projection::current(g)
        },
{
    undo::refused_fact_leaves_no_trace(g, f);
    if admission::admitted(g, f).1 is Err {
        soundness::returned_graph_is_sound(admission::admitted(g, f).0, g);
    }
}

/// A group that is refused leaves the graph as it was, and one that is rolled
/// back does too, with its indexes and its projection.
pub proof fn group_rollback_gives_back_a_sound_graph(g: GraphView, facts: Seq<FactView>)
    requires
        is_kept(g, facts.len() as int),
    ensures
        ({
            let (h, result) = aggregate::batched(g, facts, Seq::empty());
            let back = match result {
                Ok(j) => journal::rolled_back(Some(j.rollback), j.staged, h),
                Err(_) => h,
            };
            &&& soundness::is_sound(back)
            &&& back == (GraphView { cache: back.cache, ..g })
            &&& projection::current(back) == projection::current(g)
        }),
{
    undo::rolled_back_group_leaves_no_trace(g, facts);
    let (h, result) = aggregate::batched(g, facts, Seq::empty());
    let back = match result {
        Ok(j) => journal::rolled_back(Some(j.rollback), j.staged, h),
        Err(_) => h,
    };
    soundness::returned_graph_is_sound(back, g);
}

proof fn lemma_grouped_kept(st: GroupView, facts: Seq<FactView>, n: int)
    requires
        is_kept(st.g, facts.len() as int),
        forall|i: int| 0 <= i < facts.len() ==> soundness::is_matched(#[trigger] facts[i]),
        0 <= n <= facts.len(),
    ensures
        is_kept(aggregate::grouped_upto(st, facts, n, Seq::empty()).g, facts.len() - n),
    decreases n,
{
    if n > 0 {
        lemma_grouped_kept(st, facts, n - 1);
        let before = aggregate::grouped_upto(st, facts, n - 1, Seq::empty());
        if before.stop is None {
            reveal(aggregate::grouped);
            let f = facts[n - 1];
            if let Ok(pf) = journal::preflighted(before.g, f) {
                lemma_applied_kept(
                    before.g,
                    f,
                    pf,
                    Some(Seq::empty()),
                    before.budget,
                    facts.len() - n,
                    facts.len() - n,
                );
            }
        }
    }
}

/// A group admission leaves a sound graph, and so does a refused one.
pub proof fn batching_keeps_graph_sound(g: GraphView, facts: Seq<FactView>)
    requires
        is_kept(g, facts.len() as int),
        forall|i: int| 0 <= i < facts.len() ==> soundness::is_matched(#[trigger] facts[i]),
    ensures
        soundness::is_sound(aggregate::batched(g, facts, Seq::empty()).0),
{
    let none = Seq::<FactId>::empty();
    let no_history = Seq::<FactView>::empty();
    let (h, result) = aggregate::batched(g, facts, no_history);
    undo::rolled_back_group_leaves_no_trace(g, facts);
    if result is Err {
        soundness::returned_graph_is_sound(h, g);
    } else {
        reveal(aggregate::batched);
        reveal(aggregate::closed_group);
        reveal(cold::staged);
        assert(cold::stage_check(g, no_history, 0) is Ok);
        let base = projection::current(g);
        let touched = aggregate::group_impact(g, facts, none.to_set());
        let cells = capture::sampled(base.cells, touched.cells);
        let stand_down = capture::sampled(base.stand_down, touched.subjects);
        let start = aggregate::group_start(
            g,
            rollback::with_sparse(rollback::begun(g), cells, stand_down),
        );
        lemma_grouped_kept(start, facts, facts.len() as int);
    }
}

/// One more swept waiter keeps a graph, unless its refusal is reported.
proof fn lemma_swept_kept(g: GraphView, id: FactId)
    requires
        is_kept(g, 0),
    ensures
        ({
            let (h, result) = sweep::swept_waiter(g, id);
            result matches Ok(w) && w.refusal is None ==> is_kept(h, 0)
        }),
{
    reveal(sweep::swept_waiter);
    reveal(retry::tried);
    retry::lemma_tried(g, id, Set::empty());
    soundness::promotion_keeps_graph_sound(g, id);
}

/// A swept waiter leaves the facts indexed and counted.
proof fn lemma_swept_counted(g: GraphView, id: FactId)
    requires
        quarantine::owned(g),
        g.indexes_current(),
        retry::is_countable(g, 0),
    ensures
        sweep::swept_waiter(g, id).0.indexes_current(),
        retry::is_countable(sweep::swept_waiter(g, id).0, 0),
{
    reveal(sweep::swept_waiter);
    let (h, found) = quarantine::removed(g, id);
    if g.quarantine.facts.contains_key(id) {
        let f = g.quarantine.facts[id];
        quarantine::lemma_cost(g, f);
        if let Ok(cost) = costs::cost_of(g, f) {
            quarantine::lemma_dequeue(g, id, cost);
            assert(g.quarantine.facts.remove(id).dom() =~= g.quarantine.facts.dom().remove(id));
            retry::lemma_offered_room(h, f, true, None, None, Set::empty());
        }
    }
}

/// How far a sweep of `base` came, and that it can be undone.
spec fn is_swept(st: SweepView, base: GraphView) -> bool {
    &&& coverage::covered(st.rb, base, st.g)
    &&& st.rb.full is None
    &&& st.rb.cache == base.cache
    &&& quarantine::owned(st.g)
    &&& st.g.indexes_current()
    &&& retry::is_countable(st.g, 0)
    &&& st.stop is None && st.first is None ==> is_kept(st.g, 0)
}

proof fn lemma_swept_list_kept(st: SweepView, list: Seq<FactId>, n: int, base: GraphView)
    requires
        is_swept(st, base),
        0 <= n <= list.len(),
    ensures
        is_swept(sweep::swept_list(st, list, n), base),
    decreases n,
{
    if n > 0 {
        lemma_swept_list_kept(st, list, n - 1, base);
        let before = sweep::swept_list(st, list, n - 1);
        if before.stop is None {
            let id = list[n - 1];
            let s = coverage::scope_retry(before.g, id);
            let h = sweep::swept_waiter(before.g, id).0;
            sweep::lemma_swept_waiter(before.g, id);
            coverage::lemma_captured(before.rb, base, before.g, s, None);
            let rb = rollback::captured(before.rb, before.g, s, None);
            coverage::lemma_within(rb, base, before.g, h, s);
            lemma_swept_counted(before.g, id);
            if before.first is None {
                lemma_swept_kept(before.g, id);
            }
        }
    }
}

proof fn lemma_swept_all_kept(st: SweepView, limit: nat, base: GraphView)
    requires
        is_swept(st, base),
    ensures
        is_swept(sweep::swept_all(st, limit), base),
    decreases limit - st.touched,
{
    let list = sweep::round_of(st, limit);
    if st.stop is None && list.len() > 0 {
        lemma_swept_list_kept(st, list, list.len() as int, base);
        let next = sweep::swept_list(st, list, list.len() as int);
        if next.touched <= st.touched || next.touched > limit {
        } else {
            lemma_swept_all_kept(next, limit, base);
        }
    }
}

/// A sweep leaves a sound graph; one that is refused leaves the graph as it
/// was, with its indexes and its projection.
pub proof fn sweeping_keeps_graph_sound(g: GraphView)
    requires
        is_kept(g, 0),
    ensures
        ({
            let (h, result) = sweep::sweep_of(g);
            &&& soundness::is_sound(h)
            &&& result is Err ==> h == (GraphView { cache: h.cache, ..g }) && projection::current(h)
                == projection::current(g)
        }),
{
    let (h, result) = sweep::sweep_of(g);
    let start = sweep::sweep_start(g);
    coverage::lemma_begun(g);
    coverage::covered_graph_is_restored(rollback::begun(g), g, g);
    if let Ok(limit) = sweep::batch_limit(g.setting.limits) {
        if limit > 0 {
            assert(is_swept(start, g));
            lemma_swept_all_kept(start, limit as nat, g);
            let end = sweep::swept_all(start, limit as nat);
            coverage::covered_graph_is_restored(end.rb, g, end.g);
        }
    }
    if result is Err {
        soundness::returned_graph_is_sound(h, g);
    }
}

/// A restart gives a sound graph back: from what it writes down and from its
/// history, a graph continues with the facts, the waiters, the counters, the
/// indexes and the projection that it had.
pub proof fn sound_graph_restarts(
    bootstrap: VerifiedBootstrap,
    limits: SemanticAdmissionPolicy,
    g: GraphView,
)
    requires
        g.setting == graph::setting_of(bootstrap, limits),
        soundness::is_sound(g),
    ensures
        restart::restarted(
            bootstrap,
            limits,
            checkpoint::written(g),
            checkpoint::values_of(g.facts),
        ) == Ok::<GraphView, CheckpointError>(continuation::continued(g)),
{
    soundness::consistent_graph_can_be_written(g);
    continuity::restart_gives_back_what_was_written(bootstrap, limits, g, g.facts);
}

/// Retirement leaves a sound graph consistent: its custody, the indexes that
/// stay and its counters.
pub proof fn retirement_keeps_graph_consistent(g: GraphView)
    requires
        soundness::is_sound(g),
        cold::can_retire(g),
    ensures
        continuation::custody_is_sound(cold::retired(g)),
        continuation::index_is_sound(cold::retired(g)),
        continuation::is_within_limits(cold::retired(g)),
        projection::current(cold::retired(g)) == projection::current(g),
{
    reveal(cold::retired);
    residence::retirement_keeps_what_is_projected(g);
    soundness::consistent_graph_can_be_written(g);
    if cold::is_due(g) {
        let h = cold::retired(g);
        let p = projection::current(g);
        let heads = cold::live_rows(g, p);
        let active = cold::active_selectors(g.reading(), heads);
        let kept = cold::kept_rows(g, projection::current(g), heads, active);
        let chosen = cold::kept_selectors(g, kept, active);
        assert(h.facts == g.facts.restrict(kept));
        assert(h.facts.dom() =~= g.facts.dom().intersect(kept));
        vstd::set_lib::lemma_len_intersect(g.facts.dom(), kept);
        lemma_kept_order(g.order, kept);
        assert(h.order.to_set() =~= h.facts.dom());
        assert(continuation::custody_is_sound(h));
        assert(continuation::is_within_limits(h));
        assert(projection::current(h) == p);
        assert(h.index == cold::kept_index(g, kept, chosen));
        lemma_kept_rows(g);
        assert forall|x: FactId| #[trigger] multimap::members(h.index.stand_down).contains(
            x,
        ) implies h.facts.dom().contains(x) by {
            let s = choose|s: DeviceId|
                h.index.stand_down.contains_key(s) && #[trigger] h.index.stand_down[s].contains(x);
            assert(g.index.stand_down.contains_key(s) && g.index.stand_down[s].contains(x));
            assert(multimap::members(g.index.stand_down).contains(x));
        }
        assert forall|x: FactId| #[trigger] multimap::members(h.index.cell_heads).contains(
            x,
        ) implies h.facts.dom().contains(x) by {
            assert(heads.contains(x));
        }
        assert forall|x: FactId| #[trigger] multimap::members(h.index.authority_heads).contains(
            x,
        ) implies h.facts.dom().contains(x) by {
            assert(heads.contains(x));
        }
        lemma_kept_sets(g.index.stand_down, kept);
    }
}

/// Sets that are cut down stay finite.
proof fn lemma_kept_sets(m: Map<DeviceId, Set<FactId>>, kept: Set<FactId>)
    requires
        continuation::is_finite(m),
    ensures
        continuation::is_finite(cold::cut_sets(m, kept)),
{
    let cut = cold::cut_sets(m, kept);
    assert(cut.dom().subset_of(m.dom()));
    vstd::set_lib::lemma_set_subset_finite(m.dom(), cut.dom());
}

/// The rows and the selections that stay are finite, and what they name is
/// resident.
proof fn lemma_kept_rows(g: GraphView)
    requires
        soundness::is_sound(g),
    ensures
        ({
            let heads = cold::live_rows(g, projection::current(g));
            let active = cold::active_selectors(g.reading(), heads);
            let kept = cold::kept_rows(g, projection::current(g), heads, active);
            let ix = cold::retired_index(g);
            &&& continuation::is_finite(ix.selectors)
            &&& continuation::rows_are_witnessed(g.facts.restrict(kept), ix.provenance)
        }),
{
    soundness::consistent_graph_can_be_written(g);
    let heads = cold::live_rows(g, projection::current(g));
    let active = cold::active_selectors(g.reading(), heads);
    let kept = cold::kept_rows(g, projection::current(g), heads, active);
    let chosen = cold::kept_selectors(g, kept, active);
    let facts = g.facts.restrict(kept);
    let was = g.index.provenance;
    let ix = cold::retired_index(g);
    let rows = ix.provenance;
    assert(rows == cold::cut_rows(was, kept, chosen));
    assert(rows.dom().subset_of(was.dom()));
    vstd::set_lib::lemma_set_subset_finite(was.dom(), rows.dom());
    assert forall|id: FactId| #[trigger] rows.contains_key(id) implies facts.contains_key(id)
        && rows[id].dom().finite() && rows[id].dom().len() > 0 by {
        assert(was.contains_key(id));
        assert(rows[id].dom().subset_of(was[id].dom()));
        vstd::set_lib::lemma_set_subset_finite(was[id].dom(), rows[id].dom());
        if rows[id].dom().len() == 0 {
            assert(rows[id].dom() =~= Set::empty());
            assert(rows[id] =~= Map::empty());
        }
    }
    assert forall|id: FactId, s: FactId|
        rows.contains_key(id) && #[trigger] rows[id].contains_key(s) implies checkpoint::is_witnessed(
        facts,
        s,
        rows[id][s],
    ) by {
        assert(was.contains_key(id) && was[id].contains_key(s));
        assert(checkpoint::is_witnessed(g.facts, s, was[id][s]));
        assert(chosen.contains(s));
        if g.facts.dom().subset_of(kept) {
            assert(facts =~= g.facts);
        } else {
            assert(active.contains(s));
            assert(authority::selected_by(g.facts, s) == Some(was[id][s].selected));
            assert(cold::selections_of(g.facts, active).contains(was[id][s].selected));
            assert(kept.contains(s));
        }
    }
    let was_selectors = g.index.selectors;
    assert forall|d: DeviceId| #[trigger] ix.selectors.contains_key(d) implies was_selectors.contains_key(
        d,
    ) && ix.selectors[d].subset_of(was_selectors[d]) by {
        assert forall|s: Selection| #[trigger] cold::makes(facts, chosen, d, s) implies was_selectors.contains_key(
            d,
        ) && was_selectors[d].contains(s) by {
            assert(authority::selects(g.facts, s.selector, d, s.selected));
        }
    }
    assert(ix.selectors.dom().subset_of(was_selectors.dom()));
    vstd::set_lib::lemma_set_subset_finite(was_selectors.dom(), ix.selectors.dom());
    assert forall|d: DeviceId| #[trigger] ix.selectors.contains_key(d) implies ix.selectors[d].finite() by {
        vstd::set_lib::lemma_set_subset_finite(was_selectors[d], ix.selectors[d]);
    }
}

/// The kept part of an order lists the kept members, each once.
proof fn lemma_kept_order(order: Seq<FactId>, kept: Set<FactId>)
    requires
        order.no_duplicates(),
    ensures
        order.filter(|id: FactId| kept.contains(id)).no_duplicates(),
        order.filter(|id: FactId| kept.contains(id)).to_set() == order.to_set().intersect(kept),
    decreases order.len(),
{
    reveal(Seq::filter);
    if order.len() > 0 {
        let rest = order.drop_last();
        lemma_kept_order(rest, kept);
        let q = |id: FactId| kept.contains(id);
        let part = rest.filter(q);
        let last = order.last();
        assert(order =~= rest.push(last));
        rest.lemma_push_to_set_commute(last);
        assert(!rest.to_set().contains(last)) by {
            if rest.contains(last) {
                let i = choose|i: int| 0 <= i < rest.len() && rest[i] == last;
                assert(order[i] == order[order.len() - 1]);
            }
        }
        if kept.contains(last) {
            assert(!part.contains(last)) by {
                if part.contains(last) {
                    assert(part.to_set().contains(last));
                }
            }
            assert(order.filter(q) == part.push(last));
            part.lemma_push_to_set_commute(last);
        }
    }
    assert(order.filter(|id: FactId| kept.contains(id)).to_set() =~= order.to_set().intersect(
        kept,
    ));
}

/// A restart gives a retired graph back, from what it writes down and from
/// the whole history.
pub proof fn retired_graph_restarts(
    bootstrap: VerifiedBootstrap,
    limits: SemanticAdmissionPolicy,
    g: GraphView,
)
    requires
        g.setting == graph::setting_of(bootstrap, limits),
        soundness::is_sound(g),
        cold::can_retire(g),
    ensures
        restart::restarted(
            bootstrap,
            limits,
            checkpoint::written(cold::retired(g)),
            checkpoint::values_of(g.facts),
        ) == Ok::<GraphView, CheckpointError>(continuation::continued(cold::retired(g))),
        projection::current(cold::retired(g)) == projection::current(g),
{
    retirement_keeps_graph_consistent(g);
    continuity::retired_graph_is_held(g);
    assert(cold::retired(g).setting == g.setting) by {
        reveal(cold::retired);
    }
    continuity::restart_gives_back_what_was_written(bootstrap, limits, cold::retired(g), g.facts);
}

/// A restart gives a sealed graph back, from what it writes down and from the
/// whole history.
pub proof fn sealed_graph_restarts(
    bootstrap: VerifiedBootstrap,
    limits: SemanticAdmissionPolicy,
    g: GraphView,
)
    requires
        g.setting == graph::setting_of(bootstrap, limits),
        soundness::is_sound(g),
        cold::can_retire(cold::made_due(g)),
    ensures
        restart::restarted(
            bootstrap,
            limits,
            checkpoint::written(cold::sealed(g)),
            checkpoint::values_of(g.facts),
        ) == Ok::<GraphView, CheckpointError>(continuation::continued(cold::sealed(g))),
        projection::current(cold::sealed(g)) == projection::current(g),
{
    let due = cold::made_due(g);
    assert(due.reading() == g.reading());
    assert(projection::current(due) == projection::current(g));
    assert(soundness::is_sound(due));
    retired_graph_restarts(bootstrap, limits, due);
}

/// A sound graph needs no supplied history: whatever is supplied, the answer
/// is the resident heads of all the cells that are asked for.
pub proof fn sound_graph_needs_no_history(
    g: GraphView,
    pools: authority::Pools,
    cells: Seq<ExclusiveCell>,
)
    requires
        soundness::is_sound(g),
    ensures
        evidence::proof_heads(g, pools, cells) == Ok::<Seq<FactId>, authority::Gap>(
            evidence::resident_heads(g.reading(), cells, cells.len() as int),
        ),
{
    assert(g.reading() == exactness::reading_of(g.facts));
    assert forall|id: FactId| #[trigger] g.facts.contains_key(
        id,
    ) implies g.facts[id].content.parents.to_set().subset_of(g.facts.dom()) by {
        assert forall|x: FactId| #[trigger] g.facts[id].content.parents.to_set().contains(
            x,
        ) implies g.facts.dom().contains(x) by {
            assert(g.facts[id].inputs().contains(x));
        }
    }
    assert forall|s: DeviceId| #[trigger]
        g.reading().authority_heads(s).finite() && g.reading().authority_heads(s).subset_of(
            g.facts.dom(),
        ) by {
        exactness::lemma_heads_read(g.facts, s);
    }
    assert forall|c: ExclusiveCell| #[trigger]
        g.reading().raw_heads(c).finite() && g.reading().raw_heads(c).subset_of(g.facts.dom()) by {
        exactness::lemma_cell_heads_read(g.facts, c);
    }
    evidence::history_leaves_the_answer(g, pools, cells);
}

/// What a swept waiter leaves of the others: those that are ready stay ready.
proof fn lemma_swept_others(g: GraphView, id: FactId, k: FactId)
    requires
        g.indexes_current(),
        quarantine::owned(g),
        g.quarantine.ready.contains(k),
        k != id,
    ensures
        sweep::swept_waiter(g, id).0.quarantine.ready.contains(k),
{
    reveal(sweep::swept_waiter);
    let (h, found) = quarantine::removed(g, id);
    assert(h.quarantine.ready.contains(k));
    if let Ok(Some(f)) = found {
        assert(f.id == id);
        admission::refusal_keeps_custody(h, f, true, None, None, Set::empty());
        reveal(admission::offered);
        reveal(admission::entered);
    }
}

proof fn lemma_swept_list_others(
    st: SweepView,
    list: Seq<FactId>,
    n: int,
    base: GraphView,
    k: FactId,
)
    requires
        is_swept(st, base),
        0 <= n <= list.len(),
        st.g.quarantine.ready.contains(k),
        forall|i: int| 0 <= i < n ==> #[trigger] list[i] != k,
    ensures
        sweep::swept_list(st, list, n).g.quarantine.ready.contains(k),
    decreases n,
{
    if n > 0 {
        lemma_swept_list_others(st, list, n - 1, base, k);
        lemma_swept_list_kept(st, list, n - 1, base);
        let before = sweep::swept_list(st, list, n - 1);
        if before.stop is None {
            lemma_swept_others(before.g, list[n - 1], k);
        }
    }
}

/// A sweep that the batch limit cuts short leaves the ready waiters that it
/// did not come to as ready as before.
#[verifier::rlimit(40)]
pub proof fn sweep_leaves_the_rest_ready(g: GraphView, i: int)
    requires
        is_kept(g, 0),
        g.setting.limits.max_ready_batch <= i < order::ascending(g.quarantine.ready).len(),
    ensures
        sweep::sweep_of(g).1 is Ok ==> sweep::sweep_of(g).0.quarantine.ready.contains(
            order::ascending(g.quarantine.ready)[i],
        ),
{
    let all = order::ascending(g.quarantine.ready);
    let k = all[i];
    ordset::lemma_listing(g.quarantine.ready);
    assert(all.to_set().contains(k));
    if let Ok(limit) = sweep::batch_limit(g.setting.limits) {
        if limit > 0 {
            let start = sweep::sweep_start(g);
            coverage::lemma_begun(g);
            assert(is_swept(start, g));
            let list = sweep::round_of(start, limit as nat);
            assert(list == all.take(limit as int));
            assert forall|j: int| 0 <= j < list.len() implies #[trigger] list[j] != k by {
                assert(all[j] == list[j]);
            }
            lemma_swept_list_others(start, list, list.len() as int, g, k);
            sweep::lemma_touched(start, list, list.len() as int);
            let next = sweep::swept_list(start, list, list.len() as int);
            if next.stop is None {
                assert(next.touched == limit);
                assert(sweep::round_of(next, limit as nat).len() == 0);
                assert(sweep::swept_all(next, limit as nat) == next);
            }
            assert(sweep::swept_all(start, limit as nat) == next || next.stop is Some);
        }
    }
}

/// What an insertion is charged to the indexes, priced before it, is exactly
/// what they come to take more, and less; and what is on record of them is
/// what they take.
pub proof fn admission_is_charged_exactly(g: GraphView, f: FactView)
    requires
        soundness::is_sound(g),
        soundness::is_matched(f),
        g.facts.dom().len() < usize::MAX,
        admission::has_room(g, 1),
        admission::admitted(g, f).1 == Ok::<AdmissionView, SemanticError>(AdmissionView::Inserted),
    ensures
        ({
            let h = admission::admitted(g, f).0;
            &&& costs::exact_delta(g, f) matches Ok(d) && accounting::residency(h.index) + d.removed
                == accounting::residency(g.index) + d.added
            &&& h.ledger.index_bytes == accounting::residency(h.index)
        }),
{
    let h = admission::admitted(g, f).0;
    soundness::admission_keeps_graph_sound(g, f);
    soundness::consistent_graph_can_be_written(g);
    exactness::offer_keeps_graph_exact(g, f, false, None, None);
    reveal(admission::offered);
    reveal(admission::entered);
    reveal(admission::cleared);
    let rows = provenance::planned(g, f)->Ok_0;
    coverage::lemma_planned_alike(GraphView { cache: None, ..g }, g, f);
    coldback::lemma_planned_touch(g, f);
    canon::lemma_extended(g.facts, f);
    let touched = rollback::rows_touched(g, Set::<FactView>::empty().insert(f));
    let most = g.facts.dom().insert(f.id);
    assert forall|id: FactId| #[trigger] rows.dom().contains(id) implies most.contains(id) by {
        assert(touched.contains(id));
    }
    vstd::set_lib::lemma_set_subset_finite(most, rows.dom());
    charge::index_charge_is_exact(g, f, rows);
}

} // verus!

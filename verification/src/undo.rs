//! What a refusal and a rollback leave behind: nothing.

use vstd::prelude::*;

use crate::admission;
use crate::aggregate;
use crate::aggregate::GroupView;
use crate::capture;
use crate::cold;
use crate::coverage;
use crate::fact::FactView;
use crate::graph::GraphView;
use crate::ids::FactId;
use crate::journal;
use crate::journal::PreflightView;
use crate::projection;
use crate::quarantine;
use crate::retry;
use crate::rollback;
use crate::sweep;

verus! {

/// A graph without its cached projection is that graph again.
proof fn lemma_bare_is_back(g: GraphView)
    ensures
        coverage::is_back(g, g),
        coverage::is_back(GraphView { cache: None, ..g }, g),
{
}

/// The record of an admission covers it.
pub proof fn lemma_recorded(g: GraphView, f: FactView)
    requires
        g.indexes_current(),
    ensures
        coverage::covered(
            admission::recorded(g, f),
            g,
            admission::offered(g, f, false, None, None, Set::empty()).0,
        ),
{
    let scope = rollback::scope_admission(g, f);
    coverage::lemma_begun(g);
    coverage::lemma_captured(rollback::begun(g), g, g, scope, Some(f));
    coverage::lemma_offered_within(g, f, false, None, None, Set::empty());
    coverage::lemma_within(
        admission::recorded(g, f),
        g,
        g,
        admission::offered(g, f, false, None, None, Set::empty()).0,
        scope,
    );
}

/// A refused fact leaves the graph as it was.
pub proof fn refused_fact_leaves_no_trace(g: GraphView, f: FactView)
    requires
        g.indexes_current(),
    ensures
        admission::admitted(g, f).1 is Err ==> coverage::is_back(
            admission::admitted(g, f).0,
            g,
        ),
{
    let after = admission::offered(g, f, false, None, None, Set::empty()).0;
    lemma_recorded(g, f);
    coverage::covered_graph_is_restored(admission::recorded(g, f), g, after);
}

/// A record taken before an admission puts the graph back after it, whatever
/// became of the fact.
pub proof fn recorded_admission_can_be_undone(g: GraphView, f: FactView)
    requires
        g.indexes_current(),
    ensures
        coverage::is_back(
            rollback::restored_graph(admission::recorded(g, f), admission::admitted(g, f).0),
            g,
        ),
{
    let rb = admission::recorded(g, f);
    let h = admission::admitted(g, f).0;
    lemma_recorded(g, f);
    refused_fact_leaves_no_trace(g, f);
    if admission::admitted(g, f).1 is Err {
        coverage::lemma_begun(g);
        coverage::lemma_captured(
            rollback::begun(g),
            g,
            g,
            rollback::scope_admission(g, f),
            Some(f),
        );
        assert(coverage::covered(rb, g, h));
    }
    coverage::covered_graph_is_restored(rb, g, h);
}

/// What a journaled admission of a fact with a preflight covers.
pub proof fn lemma_applied(
    g: GraphView,
    f: FactView,
    pf: PreflightView,
    beside: Option<Seq<FactId>>,
    budget: nat,
)
    requires
        g.indexes_current(),
        quarantine::owned(g),
        retry::is_countable(g, 1),
        pf.is_priced(f),
    ensures
        ({
            let a = journal::applied(g, f, pf, Seq::empty(), None, beside, budget);
            match a.result {
                Err(_) => coverage::is_back(a.g, g),
                Ok(j) => {
                    &&& coverage::is_back(journal::rolled_back(j.rollback, j.staged, a.g), g)
                    &&& !(pf.admission is AlreadyPresent) ==> {
                        &&& j.rollback is Some
                        &&& coverage::covered(j.rollback->0, g, a.g)
                        &&& quarantine::owned(a.g)
                        &&& a.g.indexes_current()
                        &&& a.g.facts.dom().finite()
                        &&& retry::holding(a.g) <= retry::holding(g) + 1
                    }
                },
            }
        }),
{
    reveal(journal::applied);
    reveal(journal::followed);
    reveal(cold::unstaged);
    lemma_bare_is_back(g);
    let set = match beside {
        Some(list) => list.to_set(),
        None => Seq::<FactId>::empty().to_set(),
    };
    if pf.is_for(g, f) && !(pf.admission is AlreadyPresent) {
        let cost = pf.cost->0;
        let before = projection::base(g);
        let bare = GraphView { cache: None, ..g };
        let rb = rollback::begun(g);
        coverage::lemma_begun(g);
        assert(coverage::covered(rb, g, bare));
        let prep = journal::prepared(bare, f, cost, rb, before, set);
        let offer = admission::offered(bare, f, false, Some(before), Some(cost), set);
        journal::lemma_prepared(bare, f, cost, rb, before, set, g);
        assert(quarantine::owned(bare));
        admission::lemma_offered(bare, f, false, Some(before), Some(cost), set);
        coverage::covered_graph_is_restored(prep.rb, g, offer.0);
        if let Ok(limit) = sweep::batch_limit(g.setting.limits) {
            let start = journal::retry_start(offer.0, prep.rb, budget);
            retry::lemma_offered_room(bare, f, false, Some(before), Some(cost), set);
            retry::lemma_retried_all(start, limit as nat, set, g);
            let st = retry::retried_all(start, limit as nat, set);
            coverage::covered_graph_is_restored(st.rb, g, st.g);
        }
    }
}

/// A journaled admission that is refused leaves the graph as it was, and one
/// that is rolled back does too.
pub proof fn rolled_back_journal_leaves_no_trace(g: GraphView, f: FactView)
    requires
        g.indexes_current(),
        quarantine::owned(g),
        retry::is_countable(g, 1),
    ensures
        match journal::journaled(g, f).1 {
            Err(_) => coverage::is_back(journal::journaled(g, f).0, g),
            Ok(j) => coverage::is_back(
                journal::rolled_back(j.rollback, j.staged, journal::journaled(g, f).0),
                g,
            ),
        },
{
    lemma_bare_is_back(g);
    if let Ok(pf) = journal::preflighted(g, f) {
        admission::lemma_screened(g, f);
        lemma_applied(g, f, pf, None, 0);
    }
}

/// Whether a group can still be undone.
pub open spec fn is_undoable(st: GroupView, base: GraphView, more: int) -> bool {
    &&& coverage::covered(st.rb, base, st.g)
    &&& st.rb.full is None
    &&& st.rb.cache == base.cache
    &&& quarantine::owned(st.g)
    &&& st.g.indexes_current()
    &&& retry::is_countable(st.g, more)
}

/// One more input leaves a group undoable.
proof fn lemma_grouped(st: GroupView, f: FactView, base: GraphView, more: int)
    requires
        is_undoable(st, base, more),
        more >= 1,
    ensures
        is_undoable(aggregate::grouped(st, f, Seq::empty()), base, more - 1),
{
    reveal(aggregate::grouped);
    if let Ok(pf) = journal::preflighted(st.g, f) {
        if !(pf.admission is AlreadyPresent) {
            admission::lemma_screened(st.g, f);
            lemma_applied(st.g, f, pf, Some(Seq::empty()), st.budget);
            let a = journal::applied(
                st.g,
                f,
                pf,
                Seq::empty(),
                None,
                Some(Seq::empty()),
                st.budget,
            );
            match a.result {
                Err(_) => {},
                Ok(j) => {
                    aggregate::adopting_keeps_coverage(st.rb, j.rollback->0, base, st.g, a.g);
                },
            }
        }
    }
}

/// A group stays undoable throughout.
pub proof fn lemma_grouped_upto(st: GroupView, facts: Seq<FactView>, n: int, base: GraphView, more: int)
    requires
        is_undoable(st, base, more),
        0 <= n <= more,
    ensures
        is_undoable(aggregate::grouped_upto(st, facts, n, Seq::empty()), base, more - n),
    decreases n,
{
    if n > 0 {
        lemma_grouped_upto(st, facts, n - 1, base, more);
        let before = aggregate::grouped_upto(st, facts, n - 1, Seq::empty());
        if before.stop is None {
            lemma_grouped(before, facts[n - 1], base, more - n + 1);
        }
    }
}

/// A group that is refused leaves the graph as it was, whatever its inputs
/// had changed until then, and one that is rolled back does too.
pub proof fn rolled_back_group_leaves_no_trace(g: GraphView, facts: Seq<FactView>)
    requires
        g.indexes_current(),
        quarantine::owned(g),
        retry::is_countable(g, facts.len() as int),
    ensures
        match aggregate::batched(g, facts, Seq::empty()).1 {
            Err(_) => coverage::is_back(aggregate::batched(g, facts, Seq::empty()).0, g),
            Ok(j) => coverage::is_back(
                journal::rolled_back(
                    Some(j.rollback),
                    j.staged,
                    aggregate::batched(g, facts, Seq::empty()).0,
                ),
                g,
            ),
        },
{
    reveal(aggregate::batched);
    reveal(aggregate::closed_group);
    reveal(cold::staged);
    reveal(cold::unstaged);
    lemma_bare_is_back(g);
    let none = Seq::<FactId>::empty();
    let no_history = Seq::<FactView>::empty();
    assert(cold::stage_check(g, no_history, 0) is Ok);
    let h = cold::staged(g, no_history).0;
    assert(h == g);
    let rb = rollback::begun(g);
    let base = projection::current(g);
    let touched = aggregate::group_impact(g, facts, none.to_set());
    let cells = capture::sampled(base.cells, touched.cells);
    let stand_down = capture::sampled(base.stand_down, touched.subjects);
    let start = aggregate::group_start(g, rollback::with_sparse(rb, cells, stand_down));
    coverage::lemma_begun(g);
    assert(coverage::covered(start.rb, g, g));
    lemma_grouped_upto(start, facts, facts.len() as int, g, facts.len() as int);
    let st = aggregate::grouped_upto(start, facts, facts.len() as int, none);
    coverage::covered_graph_is_restored(st.rb, g, st.g);
}

} // verus!

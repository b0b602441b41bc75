//! What journals and groups report of what they did, and how far retries go.

use vstd::prelude::*;

use crate::admission;
use crate::admission::AdmissionView;
use crate::aggregate;
use crate::aggregate::{GroupView, OutcomeView};
use crate::capture;
use crate::cold;
use crate::content::ExclusiveCell;
use crate::costs;
use crate::delta;
use crate::delta::{FactRowView, RecordView, SemanticFactStatus};
use crate::device::DeviceId;
use crate::error::{SemanticCapacityDimension, SemanticError};
use crate::fact::FactView;
use crate::graph::{CellView, GraphView, ProjectionView};
use crate::ids::FactId;
use crate::journal;
use crate::order;
use crate::ordset;
use crate::projection;
use crate::quarantine;
use crate::retry;
use crate::retry::RetryView;
use crate::rollback;
use crate::rollback::RollbackView;
use crate::sweep;
use crate::sweep::SweepView;

verus! {

/// One input of a group: a refusal other than for want of room is reported for
/// the input alone, and changes nothing; one for want of room ends the group.
pub proof fn refusals_stay_with_their_input(
    st: GroupView,
    f: FactView,
    staged: Seq<FactId>,
    e: SemanticError,
)
    requires
        st.stop is None,
        journal::preflighted(st.g, f) == Err::<journal::PreflightView, SemanticError>(e),
    ensures
        ({
            let next = aggregate::grouped(st, f, staged);
            &&& next.g == st.g
            &&& next.rb == st.rb
            &&& !(e is CapacityExceeded) ==> next.stop is None && next.results
                == st.results.push(
                aggregate::ItemView {
                    outcome: OutcomeView::Refused { fact_id: f.id, error: e },
                    delta: delta::no_change(),
                },
            )
            &&& e is CapacityExceeded ==> next.stop == Some(e) && next.results == st.results
        }),
{
    reveal(aggregate::grouped);
}

/// What a group names of one outcome.
proof fn lemma_grouped(st: GroupView, f: FactView, staged: Seq<FactId>)
    requires
        st.stop is None,
    ensures
        ({
            let next = aggregate::grouped(st, f, staged);
            &&& next.stop matches Some(e) ==> e is CapacityExceeded && next.results == st.results
            &&& next.stop is None ==> next.results.len() == st.results.len() + 1
                && next.results.take(st.results.len() as int) == st.results && match
            next.results.last().outcome {
                OutcomeView::Inserted { fact_id } => fact_id == f.id,
                OutcomeView::AlreadyPresent { fact_id } => fact_id == f.id,
                OutcomeView::Quarantined { fact_id, .. } => fact_id == f.id,
                OutcomeView::Refused { fact_id, error } => fact_id == f.id && !(error
                    is CapacityExceeded),
            }
        }),
{
    reveal(aggregate::grouped);
    let next = aggregate::grouped(st, f, staged);
    if next.stop is None {
        assert(next.results.take(st.results.len() as int) =~= st.results);
    }
}

/// A group ends early for want of room alone; one that does not reports every
/// input, in order, under its own identifier, and never as refused for want of
/// room.
pub proof fn groups_report_every_input(
    st: GroupView,
    facts: Seq<FactView>,
    n: int,
    staged: Seq<FactId>,
)
    requires
        st.stop is None,
        0 <= n <= facts.len(),
    ensures
        ({
            let end = aggregate::grouped_upto(st, facts, n, staged);
            &&& end.stop matches Some(e) ==> e is CapacityExceeded
            &&& end.stop is None ==> end.results.len() == st.results.len() + n
            &&& end.stop is None ==> end.results.take(st.results.len() as int) == st.results
            &&& end.stop is None ==> forall|i: int|
                0 <= i < n ==> match (
                #[trigger] end.results[st.results.len() + i]).outcome {
                    OutcomeView::Inserted { fact_id } => fact_id == facts[i].id,
                    OutcomeView::AlreadyPresent { fact_id } => fact_id == facts[i].id,
                    OutcomeView::Quarantined { fact_id, .. } => fact_id == facts[i].id,
                    OutcomeView::Refused { fact_id, error } => fact_id == facts[i].id && !(error
                        is CapacityExceeded),
                }
        }),
    decreases n,
{
    if n > 0 {
        groups_report_every_input(st, facts, n - 1, staged);
        let before = aggregate::grouped_upto(st, facts, n - 1, staged);
        let end = aggregate::grouped_upto(st, facts, n, staged);
        if before.stop is None {
            lemma_grouped(before, facts[n - 1], staged);
            if end.stop is None {
                let k = before.results.len() as int;
                assert(forall|i: int| 0 <= i < k ==> end.results.take(k)[i] == end.results[i]);
                assert(end.results.take(st.results.len() as int) =~= before.results.take(
                    st.results.len() as int,
                ));
                assert forall|i: int| 0 <= i < n implies match (
                #[trigger] end.results[st.results.len() + i]).outcome {
                    OutcomeView::Inserted { fact_id } => fact_id == facts[i].id,
                    OutcomeView::AlreadyPresent { fact_id } => fact_id == facts[i].id,
                    OutcomeView::Quarantined { fact_id, .. } => fact_id == facts[i].id,
                    OutcomeView::Refused { fact_id, error } => fact_id == facts[i].id && !(error
                        is CapacityExceeded),
                } by {
                    if i < n - 1 {
                        assert(end.results[st.results.len() + i] == before.results[st.results.len()
                            + i]);
                    } else {
                        assert(end.results[st.results.len() + i] == end.results.last());
                    }
                }
            }
        }
    } else {
        assert(st.results.take(st.results.len() as int) =~= st.results);
    }
}

/// A group that ended early is taken back whole, with the refusal that ended
/// it.
pub proof fn groups_that_end_early_are_taken_back(
    st: GroupView,
    base_generation: u64,
    base: ProjectionView,
    cells: Map<ExclusiveCell, Option<CellView>>,
    stand_down: Map<DeviceId, Option<FactId>>,
    staged: Seq<FactId>,
)
    requires
        st.stop is Some,
    ensures
        aggregate::closed_group(st, base_generation, base, cells, stand_down, staged) == (
            journal::rolled_back(Some(st.rb), staged, st.g),
            Err::<aggregate::AggregateView, SemanticError>(st.stop->0),
        ),
{
    reveal(aggregate::closed_group);
}

/// A group that is kept reports what became of its inputs, and compares the
/// projection with the one it began with.
pub proof fn kept_groups_report_their_results(
    st: GroupView,
    base_generation: u64,
    base: ProjectionView,
    cells: Map<ExclusiveCell, Option<CellView>>,
    stand_down: Map<DeviceId, Option<FactId>>,
    staged: Seq<FactId>,
)
    ensures
        ({
            let (g, result) = aggregate::closed_group(
                st,
                base_generation,
                base,
                cells,
                stand_down,
                staged,
            );
            &&& result matches Ok(report) ==> {
                &&& st.stop is None
                &&& g == st.g
                &&& report.results == st.results
                &&& report.rollback == st.rb
                &&& report.delta.projection is Some <==> projection::current(st.g) != base
                &&& report.delta.rows.len() <= st.g.setting.limits.max_ready_batch + 1
            }
            &&& result is Err ==> g == journal::rolled_back(Some(st.rb), staged, st.g)
        }),
{
    reveal(aggregate::closed_group);
}

proof fn lemma_with_retried(g: GraphView, rec: RecordView, ids: Seq<FactId>, n: int)
    requires
        0 <= n <= ids.len(),
    ensures
        ({
            let all = journal::with_retried(g, rec, ids, n);
            &&& forall|x: FactId| #[trigger]
                all.promoted.contains(x) <==> rec.promoted.contains(x) || exists|i: int|
                    0 <= i < n && #[trigger] ids[i] == x && g.facts.contains_key(x)
            &&& forall|x: FactId| #[trigger]
                all.removed.contains(x) <==> rec.removed.contains(x) || exists|i: int|
                    0 <= i < n && #[trigger] ids[i] == x && !g.facts.contains_key(x)
            &&& forall|x: FactId| #[trigger]
                all.provisional_removed.contains(x) <==> rec.provisional_removed.contains(x)
                    || exists|i: int| 0 <= i < n && #[trigger] ids[i] == x
            &&& forall|r: FactRowView| #[trigger]
                all.rows.contains(r) <==> rec.rows.contains(r) || exists|i: int|
                    0 <= i < n && g.facts.contains_key(#[trigger] ids[i]) && r == (FactRowView {
                        fact: g.facts[ids[i]],
                        status: SemanticFactStatus::Admitted,
                    })
        }),
    decreases n,
{
    if n > 0 {
        lemma_with_retried(g, rec, ids, n - 1);
        let before = journal::with_retried(g, rec, ids, n - 1);
        let all = journal::with_retried(g, rec, ids, n);
        let id = ids[n - 1];
        lemma_pushed(before.promoted, id);
        lemma_pushed(before.removed, id);
        lemma_pushed(before.provisional_removed, id);
        let row = FactRowView { fact: g.facts[id], status: SemanticFactStatus::Admitted };
        lemma_pushed(before.rows, row);
        assert forall|x: FactId| #[trigger] all.promoted.contains(x) <==> rec.promoted.contains(x)
            || exists|i: int| 0 <= i < n && #[trigger] ids[i] == x && g.facts.contains_key(x) by {
            if x == id && g.facts.contains_key(id) {
                assert(ids[n - 1] == x);
            }
        }
        assert forall|x: FactId| #[trigger] all.removed.contains(x) <==> rec.removed.contains(x)
            || exists|i: int| 0 <= i < n && #[trigger] ids[i] == x && !g.facts.contains_key(x) by {
            if x == id && !g.facts.contains_key(id) {
                assert(ids[n - 1] == x);
            }
        }
        assert forall|x: FactId| #[trigger]
            all.provisional_removed.contains(x) <==> rec.provisional_removed.contains(x)
                || exists|i: int| 0 <= i < n && #[trigger] ids[i] == x by {
            if x == id {
                assert(ids[n - 1] == x);
            }
        }
        assert forall|r: FactRowView| #[trigger] all.rows.contains(r) <==> rec.rows.contains(r)
            || exists|i: int|
            0 <= i < n && g.facts.contains_key(#[trigger] ids[i]) && r == (FactRowView {
                fact: g.facts[ids[i]],
                status: SemanticFactStatus::Admitted,
            }) by {
            if r == row && g.facts.contains_key(id) {
                assert(g.facts.contains_key(ids[n - 1]));
            }
        }
    }
}

proof fn lemma_pushed<A>(s: Seq<A>, a: A)
    ensures
        forall|x: A| #[trigger] s.push(a).contains(x) <==> s.contains(x) || x == a,
{
    assert forall|x: A| #[trigger] s.push(a).contains(x) <==> s.contains(x) || x == a by {
        if s.contains(x) {
            let i = choose|i: int| 0 <= i < s.len() && s[i] == x;
            assert(s.push(a)[i] == x);
        }
        assert(s.push(a)[s.len() as int] == a);
    }
}

/// What the record of a journaled admission says: a retried waiter was promoted
/// exactly where it is among the facts now, and removed exactly where it is
/// not; either way it left the quarantine.  The fact itself was added there
/// exactly where it has to wait.  Every row names a fact as it is held now.
pub proof fn records_say_what_became_of_waiters(
    g: GraphView,
    id: FactId,
    a: AdmissionView,
    ids: Seq<FactId>,
    staged: Set<FactId>,
    base_generation: u64,
    cells: Map<ExclusiveCell, Option<CellView>>,
    stand_down: Map<DeviceId, Option<FactId>>,
)
    ensures
        ({
            let rec = journal::changed(
                g,
                id,
                a,
                ids,
                staged,
                base_generation,
                cells,
                stand_down,
            );
            &&& forall|x: FactId| #[trigger]
                rec.promoted.contains(x) <==> ids.contains(x) && g.facts.contains_key(x)
            &&& forall|x: FactId| #[trigger]
                rec.removed.contains(x) <==> ids.contains(x) && !g.facts.contains_key(x)
            &&& forall|x: FactId| #[trigger]
                rec.provisional_removed.contains(x) <==> ids.contains(x)
            &&& forall|x: FactId| #[trigger]
                rec.provisional_added.contains(x) <==> x == id && a is Quarantined
            &&& forall|r: FactRowView| #[trigger]
                rec.rows.contains(r) <==> (exists|i: int|
                    0 <= i < ids.len() && g.facts.contains_key(#[trigger] ids[i]) && r == (
                    FactRowView {
                        fact: g.facts[ids[i]],
                        status: SemanticFactStatus::Admitted,
                    })) || !(a is AlreadyPresent) && if g.facts.contains_key(id) {
                    r == (FactRowView {
                        fact: g.facts[id],
                        status: SemanticFactStatus::Admitted,
                    })
                } else {
                    g.quarantine.facts.contains_key(id) && r == (FactRowView {
                        fact: g.quarantine.facts[id],
                        status: SemanticFactStatus::Quarantined,
                    })
                }
            &&& rec.projection matches Some(d) ==> d.base_generation == base_generation
                && d.generation == g.fence.generation
            &&& rec.projection is Some <==> exists|i: int|
                0 <= i < rec.rows.len() && (#[trigger] rec.rows[i]).status
                    == SemanticFactStatus::Admitted
        }),
{
    reveal(journal::changed);
    let own = RecordView {
        rows: if a is AlreadyPresent {
            Seq::empty()
        } else {
            journal::own_row(g, id)
        },
        ..delta::no_change()
    };
    let rec = journal::changed(g, id, a, ids, staged, base_generation, cells, stand_down);
    let n = ids.len() as int;
    lemma_with_retried(g, own, ids, n);
    let all = journal::with_retried(g, own, ids, n);
    assert forall|x: FactId| #[trigger] ids.contains(x) <==> exists|i: int|
        0 <= i < n && #[trigger] ids[i] == x by {}
    assert forall|x: FactId| #[trigger] rec.promoted.contains(x) <==> ids.contains(x)
        && g.facts.contains_key(x) by {
        assert(all.promoted.contains(x) == rec.promoted.contains(x));
        if ids.contains(x) {
            let i = choose|i: int| 0 <= i < n && #[trigger] ids[i] == x;
            assert(ids[i] == x);
        }
    }
    assert forall|x: FactId| #[trigger] rec.removed.contains(x) <==> ids.contains(x)
        && !g.facts.contains_key(x) by {
        assert(all.removed.contains(x) == rec.removed.contains(x));
        if ids.contains(x) {
            let i = choose|i: int| 0 <= i < n && #[trigger] ids[i] == x;
            assert(ids[i] == x);
        }
    }
    assert forall|x: FactId| #[trigger] rec.provisional_removed.contains(x) <==> ids.contains(
        x,
    ) by {
        assert(all.provisional_removed.contains(x) == rec.provisional_removed.contains(x));
    }
    assert forall|x: FactId| #[trigger] rec.provisional_added.contains(x) <==> x == id && a
        is Quarantined by {
        if a is Quarantined {
            assert(rec.provisional_added[0] == id);
        }
    }
    assert forall|r: FactRowView| #[trigger] own.rows.contains(r) <==> !(a is AlreadyPresent)
        && if g.facts.contains_key(id) {
        r == (FactRowView { fact: g.facts[id], status: SemanticFactStatus::Admitted })
    } else {
        g.quarantine.facts.contains_key(id) && r == (FactRowView {
            fact: g.quarantine.facts[id],
            status: SemanticFactStatus::Quarantined,
        })
    } by {
        if own.rows.len() > 0 {
            assert(own.rows.contains(own.rows[0]));
        }
    }
    assert(rec.rows == all.rows);
}

/// A change of a projection says what changed, and only that: the sampled
/// entries that differ now, each with what it holds now.
pub proof fn changes_are_what_differs<K, V>(
    now: Map<K, V>,
    before: Map<K, Option<V>>,
    k: K,
)
    ensures
        ({
            let d = projection::changes(now, before);
            let held = if now.contains_key(k) {
                Some(now[k])
            } else {
                None
            };
            &&& d.contains_key(k) <==> before.contains_key(k) && before[k] != held
            &&& d.contains_key(k) ==> d[k] == held
        }),
{
}

/// A group of more inputs than the ready batch is refused whole, with the batch
/// and the number of inputs; history that cannot be staged refuses it too; and
/// a group that is kept reports each input once, in order.
pub proof fn groups_are_bounded_and_complete(
    g: GraphView,
    facts: Seq<FactView>,
    history: Seq<FactView>,
)
    requires
        g.indexes_current(),
        g.setting.limits.max_ready_batch <= usize::MAX,
    ensures
        facts.len() > g.setting.limits.max_ready_batch ==> aggregate::batched(g, facts, history)
            == (
            g,
            Err::<aggregate::AggregateView, SemanticError>(
                SemanticError::CapacityExceeded {
                    dimension: SemanticCapacityDimension::ReadyBatch,
                    limit: g.setting.limits.max_ready_batch,
                    observed: facts.len() as u64,
                },
            ),
        ),
        cold::staged(g, history).1 is Err && facts.len() <= g.setting.limits.max_ready_batch
            ==> aggregate::batched(g, facts, history).1 == Err::<
            aggregate::AggregateView,
            SemanticError,
        >(cold::staged(g, history).1->Err_0),
        aggregate::batched(g, facts, history).1 matches Ok(report) ==> report.results.len()
            == facts.len() && forall|i: int|
            0 <= i < facts.len() ==> match (#[trigger] report.results[i]).outcome {
                OutcomeView::Inserted { fact_id } => fact_id == facts[i].id,
                OutcomeView::AlreadyPresent { fact_id } => fact_id == facts[i].id,
                OutcomeView::Quarantined { fact_id, .. } => fact_id == facts[i].id,
                OutcomeView::Refused { fact_id, error } => fact_id == facts[i].id && !(error
                    is CapacityExceeded),
            },
{
    reveal(aggregate::batched);
    if facts.len() <= g.setting.limits.max_ready_batch {
        let rb = aggregate::group_record(g, history.len() > 0);
        let (h, staging) = cold::staged(g, history);
        if let Ok(staged) = staging {
            let base = projection::current(h);
            let touched = aggregate::group_impact(h, facts, staged.to_set());
            let cells = capture::sampled(base.cells, touched.cells);
            let stand_down = capture::sampled(base.stand_down, touched.subjects);
            let start = aggregate::group_start(
                h,
                rollback::with_sparse(rb, cells, stand_down),
            );
            let end = aggregate::grouped_upto(start, facts, facts.len() as int, staged);
            groups_report_every_input(start, facts, facts.len() as int, staged);
            kept_groups_report_their_results(
                end,
                h.fence.generation,
                base,
                cells,
                stand_down,
                staged,
            );
            if let Ok(report) = aggregate::batched(g, facts, history).1 {
                assert forall|i: int| 0 <= i < facts.len() implies match (
                #[trigger] report.results[i]).outcome {
                    OutcomeView::Inserted { fact_id } => fact_id == facts[i].id,
                    OutcomeView::AlreadyPresent { fact_id } => fact_id == facts[i].id,
                    OutcomeView::Quarantined { fact_id, .. } => fact_id == facts[i].id,
                    OutcomeView::Refused { fact_id, error } => fact_id == facts[i].id && !(error
                        is CapacityExceeded),
                } by {
                    assert(report.results[i] == end.results[start.results.len() + i]);
                }
            }
        }
    }
}

/// Waiters are retried in ascending order, each at most once, and none that was
/// touched before.
pub proof fn waiters_are_retried_in_order(st: RetryView, limit: nat)
    requires
        st.g.quarantine.ready.finite(),
    ensures
        order::is_ascending(retry::frontier(st, limit)),
        forall|x: FactId| #[trigger]
            retry::frontier(st, limit).contains(x) ==> st.g.quarantine.ready.contains(x)
                && !st.done.contains(x),
        st.budget <= limit ==> retry::frontier(st, limit).len() + st.budget <= limit,
        st.budget + retry::open_waiters(st).len() <= limit ==> forall|x: FactId| #[trigger]
            st.g.quarantine.ready.contains(x) && !st.done.contains(x) ==> retry::frontier(
                st,
                limit,
            ).contains(x),
{
    let waiters = retry::open_waiters(st);
    vstd::set_lib::lemma_set_subset_finite(st.g.quarantine.ready, waiters);
    ordset::lemma_listing(waiters);
    let list = order::ascending(waiters);
    let front = retry::frontier(st, limit);
    assert forall|x: FactId| #[trigger] front.contains(x) implies st.g.quarantine.ready.contains(x)
        && !st.done.contains(x) by {
        let i = choose|i: int| 0 <= i < front.len() && front[i] == x;
        assert(list[i] == x);
        assert(list.contains(x));
        assert(waiters.contains(x));
    }
    if st.budget + waiters.len() <= limit {
        assert(front == list);
        assert forall|x: FactId| #[trigger]
            st.g.quarantine.ready.contains(x) && !st.done.contains(x) implies front.contains(
            x,
        ) by {
            assert(waiters.contains(x));
        }
    }
}

/// A sweep gives what it inserted only where nothing was refused; else it gives
/// the refusal that stopped it, or the first one, and the graph is put back.
pub proof fn sweeps_report_the_first_refusal(st: SweepView, id: FactId)
    ensures
        ({
            let (g, result) = sweep::sweep_result(st);
            &&& st.stop is None && st.first is None ==> result == Ok::<
                Seq<FactId>,
                SemanticError,
            >(st.inserted) && g == st.g
            &&& st.stop matches Some(e) ==> result == Err::<Seq<FactId>, SemanticError>(e)
            &&& st.stop is None && st.first is Some ==> result == Err::<
                Seq<FactId>,
                SemanticError,
            >(st.first->0)
            &&& result is Err ==> g == rollback::restored_graph(st.rb, st.g)
        }),
        ({
            let next = sweep::swept(st, id);
            let (g, result) = sweep::swept_waiter(st.g, id);
            &&& next.g == g
            &&& next.touched == st.touched + 1
            &&& st.first is Some ==> next.first == st.first
            &&& result matches Err(e) ==> next.stop == Some(e)
            &&& result matches Ok(w) ==> next.stop == st.stop && (st.first is None ==> next.first
                == w.refusal) && next.inserted == (if w.inserted {
                st.inserted.push(id)
            } else {
                st.inserted
            })
        }),
{
}

/// Whether an identifier is one of the first `n` of a list.
spec fn is_among(ids: Seq<FactId>, n: int, x: FactId) -> bool {
    exists|i: int| 0 <= i < n && #[trigger] ids[i] == x
}

proof fn lemma_settled_rows(
    g: GraphView,
    rb: RollbackView,
    rec: RecordView,
    ids: Seq<FactId>,
    n: int,
)
    requires
        0 <= n <= ids.len(),
    ensures
        ({
            let all = aggregate::settled_rows(g, rb, rec, ids, n);
            &&& forall|x: FactId| #[trigger]
                all.promoted.contains(x) <==> rec.promoted.contains(x) || is_among(ids, n, x) && rb.quarantined.contains_key(x)
                    && rb.quarantined[x] is Some && g.facts.contains_key(x)
            &&& forall|x: FactId| #[trigger]
                all.removed.contains(x) <==> rec.removed.contains(x) || is_among(ids, n, x) && (rb.facts.contains_key(x)
                    && rb.facts[x] is Some || rb.quarantined.contains_key(x) && rb.quarantined[x]
                    is Some) && !g.facts.contains_key(x) && !g.quarantine.facts.contains_key(x)
            &&& forall|x: FactId| #[trigger]
                all.provisional_added.contains(x) <==> rec.provisional_added.contains(x) || is_among(ids, n, x) && !(
                rb.quarantined.contains_key(x) && rb.quarantined[x] is Some)
                    && g.quarantine.facts.contains_key(x)
            &&& forall|x: FactId| #[trigger]
                all.provisional_removed.contains(x) <==> rec.provisional_removed.contains(x) || is_among(ids, n, x)
                    && rb.quarantined.contains_key(x) && rb.quarantined[x] is Some
                    && !g.quarantine.facts.contains_key(x)
        }),
    decreases n,
{
    if n > 0 {
        lemma_settled_rows(g, rb, rec, ids, n - 1);
        let before = aggregate::settled_rows(g, rb, rec, ids, n - 1);
        let id = ids[n - 1];
        lemma_pushed(before.promoted, id);
        lemma_pushed(before.removed, id);
        lemma_pushed(before.provisional_added, id);
        lemma_pushed(before.provisional_removed, id);
        assert forall|x: FactId| #[trigger] is_among(ids, n, x) <==> x == id || is_among(
            ids,
            n - 1,
            x,
        ) by {
            assert(ids[n - 1] == id);
        }
        assert forall|x: FactId| #[trigger] is_among(ids, n - 1, x) implies is_among(
            ids,
            n,
            x,
        ) by {}
    }
}

/// What the one record of a group says of the facts that it touched, by where
/// each was before and is now: promoted from waiting to the facts, removed for
/// good, newly waiting, or no longer waiting.
pub proof fn group_records_compare_before_and_now(st: GroupView, x: FactId)
    requires
        st.touched.finite(),
    ensures
        ({
            let rec = aggregate::settled(st);
            let waited = st.rb.quarantined.contains_key(x) && st.rb.quarantined[x] is Some;
            let held = st.rb.facts.contains_key(x) && st.rb.facts[x] is Some;
            let is_held = st.g.facts.contains_key(x);
            let waits = st.g.quarantine.facts.contains_key(x);
            &&& rec.promoted.contains(x) <==> st.touched.contains(x) && waited && is_held
            &&& rec.removed.contains(x) <==> st.touched.contains(x) && (held || waited) && !is_held
                && !waits
            &&& rec.provisional_added.contains(x) <==> st.touched.contains(x) && !waited && waits
            &&& rec.provisional_removed.contains(x) <==> st.touched.contains(x) && waited && !waits
        }),
{
    let ids = order::ascending(st.touched);
    ordset::lemma_listing(st.touched);
    lemma_settled_rows(
        st.g,
        st.rb,
        RecordView { cells: st.cells, subjects: st.subjects, ..delta::no_change() },
        ids,
        ids.len() as int,
    );
    assert(ids.contains(x) <==> is_among(ids, ids.len() as int, x));
}

/// A retry that was not refused leaves no ready waiter untouched, and touches
/// no more waiters than the limit lets it; a retry that runs out of its limit
/// says so, and a ready waiter was left.
pub proof fn retries_touch_all_that_is_ready(st: RetryView, limit: nat, staged: Set<FactId>)
    requires
        st.refusal is None,
        st.budget <= limit,
        limit <= u64::MAX,
    ensures
        ({
            let end = retry::retried_all(st, limit, staged);
            &&& end.refusal is None ==> end.budget <= limit
            &&& end.refusal is None ==> forall|x: FactId| #[trigger]
                end.g.quarantine.ready.contains(x) ==> end.done.contains(x)
        }),
    decreases limit - st.budget,
{
    let list = retry::frontier(st, limit);
    let waiters = retry::open_waiters(st);
    if list.len() == 0 {
        if waiters == Set::<FactId>::empty() {
            assert forall|x: FactId| #[trigger]
                st.g.quarantine.ready.contains(x) implies st.done.contains(x) by {
                assert(!waiters.contains(x));
            }
        }
    } else {
        retry::lemma_budget(st, list, list.len() as int, staged);
        let next = retry::retried_list(st, list, list.len() as int, staged);
        if next.refusal is None {
            assert(next.budget == st.budget + list.len());
            assert(list.len() <= limit - st.budget);
            retries_touch_all_that_is_ready(next, limit, staged);
        }
    }
}

/// A retry whose limit is used up while a waiter is ready that it did not touch
/// is refused for that, with the limit.
pub proof fn used_up_retries_are_refused(
    st: RetryView,
    limit: nat,
    staged: Set<FactId>,
    x: FactId,
)
    requires
        st.refusal is None,
        st.budget == limit,
        limit < u64::MAX,
        st.g.quarantine.ready.contains(x),
        !st.done.contains(x),
    ensures
        retry::retried_all(st, limit, staged).refusal == Some(
            SemanticError::CapacityExceeded {
                dimension: SemanticCapacityDimension::ReadyBatch,
                limit: limit as u64,
                observed: (limit + 1) as u64,
            },
        ),
{
    assert(retry::open_waiters(st).contains(x));
    assert(retry::frontier(st, limit).len() == 0);
}

/// A retried waiter is counted once, is not touched again, and is listed where
/// it changed; the retry ends where it was refused.
pub proof fn retries_count_each_waiter(st: RetryView, id: FactId, staged: Set<FactId>)
    ensures
        ({
            let next = retry::retried(st, id, staged);
            let (g, result) = retry::tried(st.g, id, staged);
            &&& next.g == g
            &&& next.budget == st.budget + 1
            &&& next.done == st.done.insert(id)
            &&& result == Ok::<bool, SemanticError>(true) ==> next.ids == st.ids.push(id)
                && next.refusal is None
            &&& result == Ok::<bool, SemanticError>(false) ==> next.ids == st.ids && next.refusal
                is None
            &&& result matches Err(e) ==> next.ids == st.ids && next.refusal == Some(e)
        }),
{
}

/// A sweep counts a waiter as inserted exactly where it joined the facts.
pub proof fn sweeps_count_what_joined(
    g: GraphView,
    id: FactId,
    h: GraphView,
    a: AdmissionView,
)
    requires
        g.quarantine.facts.contains_key(id),
        quarantine::removed(g, id) == (
            h,
            Ok::<Option<FactView>, SemanticError>(Some(g.quarantine.facts[id])),
        ),
        costs::cost_of(h, g.quarantine.facts[id]) is Ok,
        admission::offered(h, g.quarantine.facts[id], true, None, None, Set::empty()).1 == Ok::<
            AdmissionView,
            SemanticError,
        >(a),
    ensures
        sweep::swept_waiter(g, id).1 == Ok::<sweep::SweptView, SemanticError>(
            sweep::SweptView { inserted: a is Inserted, refusal: None },
        ),
{
    reveal(sweep::swept_waiter);
}

/// Staged history is attached as a whole: the facts are what was held and the
/// new rows, the rows are counted as pending, and what waits is as it was.
pub proof fn staged_rows_are_pending(g: GraphView, history: Seq<FactView>, staged: Seq<FactId>)
    requires
        cold::staged(g, history).1 == Ok::<Seq<FactId>, SemanticError>(staged),
        g.fence.staged_cold_pending + staged.len() <= usize::MAX,
    ensures
        ({
            let h = cold::staged(g, history).0;
            let st = cold::stage_run(g, history, history.len() as int);
            &&& st.refusal is None
            &&& staged == st.staged
            &&& h.facts == st.facts
            &&& h.quarantine == g.quarantine
            &&& h.index == g.index
            &&& h.order == g.order
            &&& h.ledger == g.ledger
            &&& h.fence.staged_cold_pending == g.fence.staged_cold_pending + staged.len()
            &&& h.fence.facts_revision == g.fence.facts_revision
            &&& h.fence.generation == g.fence.generation
        }),
{
    reveal(cold::staged);
}

} // verus!

//! Restoring a snapshot of facts, whatever order its rows are in.

use vstd::prelude::*;

use crate::admission;
use crate::admission::{Admission, AdmissionView};
use crate::causal_order;
use crate::causal_order::part_causally;
use crate::checkpoint;
use crate::checks;
use crate::coverage;
use crate::error::SemanticError;
use crate::fact::{dependencies, Facts, FactView, SignedFact};
use crate::graph::{FactGraph, GraphView};
use crate::ids::FactId;
use crate::journal;
use crate::order;
use crate::ordmap::OrdMap;
use crate::ordset::Duplicate;
use crate::quarantine;
use crate::rebuild;
use crate::retry;
use crate::rollback;
use crate::rollback::{GraphRollback, RollbackView};

verus! {

/// What a row of a snapshot is held to.
pub open spec fn snapshot_row_check(g: GraphView, list: Seq<FactView>, i: int) -> Result<
    (),
    SemanticError,
> {
    match list[i].checked.refusal {
        Some(e) => Err(e),
        None => if list[i].content.mesh_context != g.setting.context_id {
            Err(
                SemanticError::ContextMismatch {
                    expected: g.setting.context_id,
                    found: list[i].content.mesh_context,
                },
            )
        } else if checkpoint::by_id(list, i).contains_key(list[i].id) {
            Err(SemanticError::DuplicateFact(list[i].id))
        } else {
            Ok(())
        },
    }
}

/// What one dependency of a snapshot row is held to.
pub open spec fn dependency_check(g: GraphView, batch: Facts, id: FactId) -> Result<
    (),
    SemanticError,
> {
    if batch.contains_key(id) || g.facts.contains_key(id) {
        Ok(())
    } else {
        Err(SemanticError::MissingParent(id))
    }
}

/// What the dependencies of a snapshot row are held to.
pub open spec fn dependencies_check(g: GraphView, batch: Facts, f: FactView) -> Result<
    (),
    SemanticError,
> {
    let deps = f.dependencies();
    checks::run(|k: int| dependency_check(g, batch, deps[k]), deps.len() as int)
}

/// What the rows of a snapshot are held to before one is admitted.
pub open spec fn snapshot_check(g: GraphView, list: Seq<FactView>) -> Result<(), SemanticError> {
    let batch = checkpoint::by_id(list, list.len() as int);
    let ids = order::ascending(batch.dom());
    match checks::run(|i: int| snapshot_row_check(g, list, i), list.len() as int) {
        Err(e) => Err(e),
        Ok(()) => match checks::run(
            |i: int| dependencies_check(g, batch, batch[ids[i]]),
            ids.len() as int,
        ) {
            Err(e) => Err(e),
            Ok(()) => if causal_order::topological(batch, Seq::empty()).to_set() == batch.dom() {
                Ok(())
            } else {
                Err(SemanticError::Cycle)
            },
        },
    }
}

/// How far a restoration came: the graph, the record of it, and the refusal
/// that ended it.
#[verifier::ext_equal]
pub struct BulkView {
    pub g: GraphView,
    pub rb: RollbackView,
    pub stop: Option<SemanticError>,
}

/// The restoration after one more fact was offered, and what became of it.
pub open spec fn offered_next(st: BulkView, f: FactView) -> (
    BulkView,
    Result<AdmissionView, SemanticError>,
) {
    let rb = rollback::captured(st.rb, st.g, rollback::scope_admission(st.g, f), Some(f));
    let (g, result) = admission::offered(st.g, f, false, None, None, Set::empty());
    (BulkView { g, rb, stop: st.stop }, result)
}

/// The restoration after the first `n` admitted rows.
pub open spec fn bulk_admitted(st: BulkView, batch: Facts, list: Seq<FactId>, n: int) -> BulkView
    decreases n,
{
    if n <= 0 {
        st
    } else {
        let before = bulk_admitted(st, batch, list, n - 1);
        if before.stop is Some {
            before
        } else {
            let (next, result) = offered_next(before, batch[list[n - 1]]);
            match result {
                Ok(_) => next,
                Err(e) => BulkView { stop: Some(e), ..next },
            }
        }
    }
}

/// The restoration after the first `n` quarantined rows.
pub open spec fn bulk_quarantined(st: BulkView, list: Seq<FactView>, n: int) -> BulkView
    decreases n,
{
    if n <= 0 {
        st
    } else {
        let before = bulk_quarantined(st, list, n - 1);
        if before.stop is Some {
            before
        } else if let Some(e) = list[n - 1].checked.refusal {
            BulkView { stop: Some(e), ..before }
        } else {
            let (next, result) = offered_next(before, list[n - 1]);
            match result {
                Ok(AdmissionView::Quarantined { .. }) => next,
                Ok(_) => BulkView { stop: Some(SemanticError::DomainMismatch), ..next },
                Err(e) => BulkView { stop: Some(e), ..next },
            }
        }
    }
}

/// What a restoration came to.
pub open spec fn bulk_run(g: GraphView, admitted: Seq<FactView>, quarantined: Seq<FactView>) -> BulkView {
    let start = BulkView { g, rb: rollback::begun(g), stop: None };
    match snapshot_check(g, admitted) {
        Err(e) => BulkView { stop: Some(e), ..start },
        Ok(()) => {
            let batch = checkpoint::by_id(admitted, admitted.len() as int);
            let list = causal_order::topological(batch, Seq::empty());
            bulk_quarantined(
                bulk_admitted(start, batch, list, list.len() as int),
                quarantined,
                quarantined.len() as int,
            )
        },
    }
}

/// The graph after a snapshot was restored, or as it was where a row was
/// refused.
#[verifier::opaque]
pub open spec fn restored(g: GraphView, admitted: Seq<FactView>, quarantined: Seq<FactView>) -> (
    GraphView,
    Result<(), SemanticError>,
) {
    let st = bulk_run(rebuild::ensured(g), admitted, quarantined);
    match st.stop {
        None => (st.g, Ok(())),
        Some(e) => (rollback::restored_graph(st.rb, st.g), Err(e)),
    }
}

proof fn lemma_admitted_stopped(st: BulkView, batch: Facts, list: Seq<FactId>, i: int, n: int)
    requires
        0 <= i <= n,
        bulk_admitted(st, batch, list, i).stop is Some,
    ensures
        bulk_admitted(st, batch, list, n) == bulk_admitted(st, batch, list, i),
    decreases n - i,
{
    if i < n {
        lemma_admitted_stopped(st, batch, list, i, n - 1);
    }
}

proof fn lemma_quarantined_stopped(st: BulkView, list: Seq<FactView>, i: int, n: int)
    requires
        0 <= i <= n,
        bulk_quarantined(st, list, i).stop is Some,
    ensures
        bulk_quarantined(st, list, n) == bulk_quarantined(st, list, i),
    decreases n - i,
{
    if i < n {
        lemma_quarantined_stopped(st, list, i, n - 1);
    }
}

/// Whether a restoration can go on for `more` rows, and be undone.
pub open spec fn goes_on(st: BulkView, base: GraphView, more: int) -> bool {
    &&& coverage::covered(st.rb, base, st.g)
    &&& st.rb.full is None
    &&& st.rb.cache == base.cache
    &&& quarantine::owned(st.g)
    &&& st.g.indexes_current()
    &&& admission::has_room(st.g, more)
    &&& retry::is_countable(st.g, more)
}

/// A restoration can go on after one more row.
proof fn lemma_offered_next(st: BulkView, f: FactView, base: GraphView, more: int)
    requires
        goes_on(st, base, more),
        more >= 1,
    ensures
        goes_on(offered_next(st, f).0, base, more - 1),
{
    let scope = rollback::scope_admission(st.g, f);
    let next = offered_next(st, f).0;
    coverage::lemma_captured(st.rb, base, st.g, scope, Some(f));
    coverage::lemma_offered_within(st.g, f, false, None, None, Set::empty());
    coverage::lemma_within(next.rb, base, st.g, next.g, scope);
    admission::lemma_offered(st.g, f, false, None, None, Set::empty());
    retry::lemma_offered_room(st.g, f, false, None, None, Set::empty());
}

/// What is left of a restoration that ended is the graph that it began with.
proof fn lemma_undone(st: BulkView, base: GraphView, more: int)
    requires
        goes_on(st, base, more),
        quarantine::owned(base),
    ensures
        coverage::is_back(rollback::restored_graph(st.rb, st.g), base),
        quarantine::owned(rollback::restored_graph(st.rb, st.g)),
{
    coverage::covered_graph_is_restored(st.rb, base, st.g);
    journal::lemma_owned_alike(rollback::restored_graph(st.rb, st.g), base);
}

pub proof fn lemma_bulk_admitted(
    st: BulkView,
    batch: Facts,
    list: Seq<FactId>,
    n: int,
    base: GraphView,
    more: int,
)
    requires
        goes_on(st, base, more),
        0 <= n <= more,
    ensures
        goes_on(bulk_admitted(st, batch, list, n), base, more - n),
    decreases n,
{
    if n > 0 {
        lemma_bulk_admitted(st, batch, list, n - 1, base, more);
        let before = bulk_admitted(st, batch, list, n - 1);
        if before.stop is None {
            lemma_offered_next(before, batch[list[n - 1]], base, more - n + 1);
        }
    }
}

pub proof fn lemma_bulk_quarantined(
    st: BulkView,
    list: Seq<FactView>,
    n: int,
    base: GraphView,
    more: int,
)
    requires
        goes_on(st, base, more),
        0 <= n <= more,
    ensures
        goes_on(bulk_quarantined(st, list, n), base, more - n),
    decreases n,
{
    if n > 0 {
        lemma_bulk_quarantined(st, list, n - 1, base, more);
        let before = bulk_quarantined(st, list, n - 1);
        if before.stop is None {
            lemma_offered_next(before, list[n - 1], base, more - n + 1);
        }
    }
}

/// The facts of a list are no more than its rows.
pub proof fn lemma_by_id(list: Seq<FactView>, n: int)
    requires
        0 <= n <= list.len(),
    ensures
        checkpoint::by_id(list, n).dom().finite(),
        checkpoint::by_id(list, n).dom().len() <= n,
    decreases n,
{
    if n > 0 {
        lemma_by_id(list, n - 1);
        assert(checkpoint::by_id(list, n).dom() =~= checkpoint::by_id(list, n - 1).dom().insert(
            list[n - 1].id,
        ));
    }
}

/// What stands in causal order is no more than there is.
pub proof fn lemma_order_fits(batch: Facts)
    requires
        batch.dom().finite(),
    ensures
        causal_order::is_causal(batch, causal_order::topological(batch, Seq::empty())),
        causal_order::topological(batch, Seq::empty()).len() <= batch.dom().len(),
{
    let list = causal_order::topological(batch, Seq::empty());
    causal_order::lemma_topological(batch, Seq::empty());
    list.unique_seq_to_set();
    assert(list.to_set().subset_of(batch.dom())) by {
        assert forall|id: FactId| #[trigger] list.to_set().contains(id) implies batch.dom().contains(
            id,
        ) by {
            let i = choose|i: int| 0 <= i < list.len() && list[i] == id;
            assert(batch.contains_key(list[i]));
        }
    }
    vstd::set_lib::lemma_len_subset(list.to_set(), batch.dom());
}

/// A snapshot with a row that is refused leaves the graph as it was, whatever
/// was restored until then.
pub proof fn refused_snapshot_leaves_no_trace(
    g: GraphView,
    admitted: Seq<FactView>,
    quarantined: Seq<FactView>,
)
    requires
        g.indexes_current(),
        quarantine::owned(g),
        admission::has_room(g, admitted.len() as int + quarantined.len()),
        retry::is_countable(g, admitted.len() as int + quarantined.len()),
    ensures
        restored(g, admitted, quarantined).1 is Err ==> coverage::is_back(
            restored(g, admitted, quarantined).0,
            g,
        ),
{
    reveal(restored);
    let start = BulkView { g, rb: rollback::begun(g), stop: None };
    let more = admitted.len() + quarantined.len();
    coverage::lemma_begun(g);
    lemma_undone(start, g, more as int);
    lemma_undone(
        BulkView { stop: Some(SemanticError::Cycle), ..start },
        g,
        more as int,
    );
    let batch = checkpoint::by_id(admitted, admitted.len() as int);
    lemma_by_id(admitted, admitted.len() as int);
    lemma_order_fits(batch);
    let list = causal_order::topological(batch, Seq::empty());
    lemma_bulk_admitted(start, batch, list, list.len() as int, g, more as int);
    let mid = bulk_admitted(start, batch, list, list.len() as int);
    lemma_bulk_quarantined(
        mid,
        quarantined,
        quarantined.len() as int,
        g,
        more as int - list.len() as int,
    );
    lemma_undone(
        bulk_quarantined(mid, quarantined, quarantined.len() as int),
        g,
        more as int - list.len() as int - quarantined.len() as int,
    );
}

/// The view of a restoration in progress.
pub open spec fn bulk_view(g: FactGraph, rb: GraphRollback) -> BulkView {
    BulkView { g: g@, rb: rb@, stop: None }
}

impl FactGraph {
    /// Checks the dependencies of a snapshot row.
    fn check_dependencies(&self, batch: &OrdMap<FactId, SignedFact>, fact: &SignedFact) -> (r:
        Result<(), SemanticError>)
        ensures
            r == dependencies_check(self@, batch@, fact@),
    {
        let deps = dependencies(fact);
        let n: usize = deps.len();
        let ghost check = |k: int| dependency_check(self@, batch@, deps@[k]);
        for i in 0..n
            invariant
                n == deps@.len(),
                deps@ == fact@.dependencies(),
                check == (|k: int| dependency_check(self@, batch@, deps@[k])),
                checks::run(check, i as int) == Ok::<(), SemanticError>(()),
        {
            assert(checks::run(check, i + 1) == check(i as int));
            if !batch.contains_key(&deps[i]) && !self.facts.contains_key(&deps[i]) {
                proof {
                    checks::lemma_run_err(check, i + 1, n as int);
                }
                return Err(SemanticError::MissingParent(deps[i]));
            }
        }
        Ok(())
    }

    /// Checks the rows of a snapshot, and lists them in causal order.
    fn check_snapshot(&self, rows: &Vec<SignedFact>) -> (r: Result<
        (OrdMap<FactId, SignedFact>, Vec<FactId>),
        SemanticError,
    >)
        ensures
            match r {
                Ok((batch, list)) => snapshot_check(self@, checkpoint::facts_view(rows@)) is Ok
                    && batch@ == checkpoint::by_id(
                    checkpoint::facts_view(rows@),
                    rows@.len() as int,
                ) && list@ == causal_order::topological(batch@, Seq::empty()),
                Err(e) => snapshot_check(self@, checkpoint::facts_view(rows@)) == Err::<
                    (),
                    SemanticError,
                >(e),
            },
    {
        let ghost views = checkpoint::facts_view(rows@);
        let ghost row_check = |i: int| snapshot_row_check(self@, views, i);
        let n: usize = rows.len();
        let mut batch: OrdMap<FactId, SignedFact> = OrdMap::new();
        for i in 0..n
            invariant
                n == rows@.len(),
                views == checkpoint::facts_view(rows@),
                row_check == (|i: int| snapshot_row_check(self@, views, i)),
                batch@ == checkpoint::by_id(views, i as int),
                checks::run(row_check, i as int) == Ok::<(), SemanticError>(()),
        {
            assert(views[i as int] == rows@[i as int]@);
            assert(checks::run(row_check, i + 1) == row_check(i as int));
            let refused: Option<SemanticError> = match rows[i].verify() {
                Err(e) => Some(e),
                Ok(()) => if !rows[i].content.mesh_context.same(&self.setting.context_id) {
                    Some(
                        SemanticError::ContextMismatch {
                            expected: self.setting.context_id,
                            found: rows[i].content.mesh_context,
                        },
                    )
                } else if batch.contains_key(&rows[i].id) {
                    Some(SemanticError::DuplicateFact(rows[i].id))
                } else {
                    None
                },
            };
            if let Some(e) = refused {
                proof {
                    checks::lemma_run_err(row_check, i + 1, n as int);
                }
                return Err(e);
            }
            batch.insert(rows[i].id, rows[i].duplicate());
        }
        let ids = batch.keys();
        let m: usize = ids.len();
        let ghost check = |i: int| dependencies_check(self@, batch@, batch@[ids@[i]]);
        for i in 0..m
            invariant
                m == ids@.len(),
                views == checkpoint::facts_view(rows@),
                batch@ == checkpoint::by_id(views, views.len() as int),
                row_check == (|i: int| snapshot_row_check(self@, views, i)),
                checks::run(row_check, views.len() as int) == Ok::<(), SemanticError>(()),
                ids@ == order::ascending(batch@.dom()),
                forall|k: FactId| #[trigger] ids@.contains(k) <==> batch@.contains_key(k),
                check == (|i: int| dependencies_check(self@, batch@, batch@[ids@[i]])),
                checks::run(check, i as int) == Ok::<(), SemanticError>(()),
        {
            assert(ids@.contains(ids@[i as int]));
            assert(checks::run(check, i + 1) == check(i as int));
            if let Err(e) = self.check_dependencies(&batch, batch.value(&ids[i])) {
                proof {
                    checks::lemma_run_err(check, i + 1, m as int);
                }
                return Err(e);
            }
        }
        let (list, rest) = part_causally(&batch);
        proof {
            lemma_by_id(views, views.len() as int);
            lemma_order_fits(batch@);
            assert(list@.to_set().subset_of(batch@.dom())) by {
                assert forall|id: FactId| #[trigger] list@.to_set().contains(
                    id,
                ) implies batch@.dom().contains(id) by {
                    let i = choose|i: int| 0 <= i < list@.len() && list@[i] == id;
                    assert(batch@.contains_key(list@[i]));
                }
            }
        }
        if rest.len() > 0 {
            assert(rest@.to_set().contains(rest@[0]));
            return Err(SemanticError::Cycle);
        }
        proof {
            assert forall|id: FactId| #[trigger] batch@.dom().contains(
                id,
            ) implies list@.to_set().contains(id) by {
                if !list@.to_set().contains(id) {
                    assert(rest@.to_set().contains(id));
                    assert(rest@.contains(id));
                }
            }
            assert(list@.to_set() =~= batch@.dom());
        }
        Ok((batch, list))
    }

    /// Admits the rows of a snapshot in causal order, up to the first that is
    /// refused.
    fn restore_rows(
        &mut self,
        rollback: &mut GraphRollback,
        batch: &OrdMap<FactId, SignedFact>,
        list: &Vec<FactId>,
        Ghost(base): Ghost<GraphView>,
        Ghost(more): Ghost<int>,
    ) -> (r: Result<(), SemanticError>)
        requires
            goes_on(bulk_view(*old(self), *old(rollback)), base, more),
            list@.len() <= more,
            causal_order::is_causal(batch@, list@),
        ensures
            ({
                let st = bulk_admitted(
                    bulk_view(*old(self), *old(rollback)),
                    batch@,
                    list@,
                    list@.len() as int,
                );
                &&& st.g == final(self)@
                &&& st.rb == final(rollback)@
                &&& goes_on(st, base, more - list@.len())
                &&& match r {
                    Ok(()) => st.stop is None,
                    Err(e) => st.stop == Some(e),
                }
            }),
    {
        let ghost start = bulk_view(*self, *rollback);
        let none: Vec<FactId> = Vec::new();
        assert(none@.to_set() =~= Set::<FactId>::empty());
        let n: usize = list.len();
        proof {
            lemma_bulk_admitted(start, batch@, list@, n as int, base, more);
        }
        for i in 0..n
            invariant
                n == list@.len(),
                n <= more,
                none@.to_set() == Set::<FactId>::empty(),
                causal_order::is_causal(batch@, list@),
                start == bulk_view(*old(self), *old(rollback)),
                goes_on(start, base, more),
                bulk_view(*self, *rollback) == bulk_admitted(start, batch@, list@, i as int),
                goes_on(bulk_admitted(start, batch@, list@, n as int), base, more - n),
        {
            assert(batch@.contains_key(list@[i as int]));
            let fact = batch.value(&list[i]).duplicate();
            let ghost before = bulk_view(*self, *rollback);
            proof {
                lemma_bulk_admitted(start, batch@, list@, i as int, base, more);
            }
            rollback.capture_admission(self, &fact);
            let offer = self.admit_inner_with_projection_staged(fact, false, None, None, &none);
            assert(bulk_view(*self, *rollback) == offered_next(before, fact@).0);
            if let Err(e) = offer {
                proof {
                    lemma_admitted_stopped(start, batch@, list@, i + 1, n as int);
                }
                return Err(e);
            }
        }
        Ok(())
    }

    /// Offers the unresolved rows of a snapshot, up to the first that is not
    /// quarantined.
    fn restore_waiting(
        &mut self,
        rollback: &mut GraphRollback,
        rows: &Vec<SignedFact>,
        Ghost(base): Ghost<GraphView>,
        Ghost(more): Ghost<int>,
    ) -> (r: Result<(), SemanticError>)
        requires
            goes_on(bulk_view(*old(self), *old(rollback)), base, more),
            rows@.len() <= more,
        ensures
            ({
                let st = bulk_quarantined(
                    bulk_view(*old(self), *old(rollback)),
                    checkpoint::facts_view(rows@),
                    rows@.len() as int,
                );
                &&& st.g == final(self)@
                &&& st.rb == final(rollback)@
                &&& goes_on(st, base, more - rows@.len())
                &&& match r {
                    Ok(()) => st.stop is None,
                    Err(e) => st.stop == Some(e),
                }
            }),
    {
        let ghost start = bulk_view(*self, *rollback);
        let ghost views = checkpoint::facts_view(rows@);
        let none: Vec<FactId> = Vec::new();
        assert(none@.to_set() =~= Set::<FactId>::empty());
        let n: usize = rows.len();
        proof {
            lemma_bulk_quarantined(start, views, n as int, base, more);
        }
        for i in 0..n
            invariant
                n == rows@.len(),
                n <= more,
                views == checkpoint::facts_view(rows@),
                none@.to_set() == Set::<FactId>::empty(),
                start == bulk_view(*old(self), *old(rollback)),
                goes_on(start, base, more),
                bulk_view(*self, *rollback) == bulk_quarantined(start, views, i as int),
                goes_on(bulk_quarantined(start, views, n as int), base, more - n),
        {
            let fact = rows[i].duplicate();
            assert(views[i as int] == fact@);
            let ghost before = bulk_view(*self, *rollback);
            if let Err(e) = fact.verify() {
                proof {
                    lemma_quarantined_stopped(start, views, i + 1, n as int);
                }
                return Err(e);
            }
            proof {
                lemma_bulk_quarantined(start, views, i as int, base, more);
            }
            rollback.capture_admission(self, &fact);
            let offer = self.admit_inner_with_projection_staged(fact, false, None, None, &none);
            assert(bulk_view(*self, *rollback) == offered_next(before, fact@).0);
            let refused: Option<SemanticError> = match offer {
                Ok(Admission::Quarantined { .. }) => None,
                Ok(_) => Some(SemanticError::DomainMismatch),
                Err(e) => Some(e),
            };
            if let Some(e) = refused {
                proof {
                    lemma_quarantined_stopped(start, views, i + 1, n as int);
                }
                return Err(e);
            }
        }
        Ok(())
    }

    /// Deterministically restore a snapshot without making its row order
    /// authoritative. Facts are verified, dependency-complete, topologically
    /// ordered, and then admitted through the normal checked path. Unresolved
    /// rows are admitted afterward and are never silently promoted here.
    #[verifier::rlimit(40)]
    pub fn bulk_restore_admitted(
        &mut self,
        admitted: Vec<SignedFact>,
        quarantined: Vec<SignedFact>,
    ) -> (r: Result<(), SemanticError>)
        requires
            quarantine::owned(old(self)@),
            admission::has_room(old(self)@, admitted@.len() as int + quarantined@.len()),
            retry::is_countable(old(self)@, admitted@.len() as int + quarantined@.len()),
        ensures
            final(self)@ == restored(
                old(self)@,
                checkpoint::facts_view(admitted@),
                checkpoint::facts_view(quarantined@),
            ).0,
            r == restored(
                old(self)@,
                checkpoint::facts_view(admitted@),
                checkpoint::facts_view(quarantined@),
            ).1,
            quarantine::owned(final(self)@),
    {
        proof {
            reveal(restored);
            quarantine::lemma_rebuilt_owned(self@);
            rebuild::lemma_rebuilt_frame(self@);
        }
        let ghost views = checkpoint::facts_view(admitted@);
        let ghost held = checkpoint::facts_view(quarantined@);
        let ghost more = admitted@.len() + quarantined@.len();
        self.ensure_indexes_current();
        let ghost base = self@;
        let mut rollback = GraphRollback::new(self);
        let ghost start = bulk_view(*self, rollback);
        proof {
            coverage::lemma_begun(base);
            assert(goes_on(start, base, more as int));
        }
        let (batch, list) = match self.check_snapshot(&admitted) {
            Ok(found) => found,
            Err(e) => {
                proof {
                    lemma_undone(start, base, more as int);
                }
                rollback.restore(self);
                return Err(e);
            },
        };
        proof {
            lemma_by_id(views, views.len() as int);
            lemma_order_fits(batch@);
        }
        let rows = self.restore_rows(
            &mut rollback,
            &batch,
            &list,
            Ghost(base),
            Ghost(more as int),
        );
        let ghost mid = bulk_admitted(start, batch@, list@, list@.len() as int);
        if let Err(e) = rows {
            proof {
                lemma_undone(mid, base, more as int - list@.len() as int);
                lemma_quarantined_stopped(mid, held, 0, held.len() as int);
            }
            rollback.restore(self);
            return Err(e);
        }
        let waiting = self.restore_waiting(
            &mut rollback,
            &quarantined,
            Ghost(base),
            Ghost(more as int - list@.len() as int),
        );
        let ghost last = bulk_quarantined(mid, held, held.len() as int);
        if let Err(e) = waiting {
            proof {
                lemma_undone(
                    last,
                    base,
                    more as int - list@.len() as int - held.len() as int,
                );
            }
            rollback.restore(self);
            return Err(e);
        }
        Ok(())
    }
}

} // verus!

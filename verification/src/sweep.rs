//! Retrying what is ready, as far as the batch limit goes.

use vstd::prelude::*;

use crate::admission;
use crate::admission::Admission;
use crate::costs;
use crate::coverage;
use crate::error::{SemanticCapacityDimension, SemanticError};
use crate::graph::{FactGraph, GraphView};
use crate::ids::FactId;
use crate::order;
use crate::ordset;
use crate::ordset::Duplicate;
use crate::policy::SemanticAdmissionPolicy;
use crate::quarantine;
use crate::rebuild;
use crate::retry;
use crate::retry::is_terminal_authorization_waiter;
use crate::rollback;
use crate::rollback::{GraphRollback, RollbackView};

verus! {

/// The ready-batch limit in the machine's word.
pub open spec fn batch_limit(limits: SemanticAdmissionPolicy) -> Result<usize, SemanticError> {
    if limits.max_ready_batch <= usize::MAX {
        Ok(limits.max_ready_batch as usize)
    } else {
        Err(
            SemanticError::CapacityExceeded {
                dimension: SemanticCapacityDimension::ReadyBatch,
                limit: usize::MAX as u64,
                observed: limits.max_ready_batch,
            },
        )
    }
}

/// The view of a list of identifiers, or a refusal.
pub open spec fn ids_view(r: Result<Vec<FactId>, SemanticError>) -> Result<
    Seq<FactId>,
    SemanticError,
> {
    match r {
        Ok(ids) => Ok(ids@),
        Err(e) => Err(e),
    }
}

/// What a sweep of no batch is refused with.
pub open spec fn no_batch() -> SemanticError {
    SemanticError::CapacityExceeded {
        dimension: SemanticCapacityDimension::ReadyBatch,
        limit: 0,
        observed: 1,
    }
}

impl SemanticAdmissionPolicy {
    /// The ready-batch limit in the machine's word.
    pub(crate) fn ready_batch(&self) -> (r: Result<usize, SemanticError>)
        ensures
            r == batch_limit(*self),
    {
        if self.max_ready_batch <= usize::MAX as u64 {
            Ok(self.max_ready_batch as usize)
        } else {
            Err(
                SemanticError::CapacityExceeded {
                    dimension: SemanticCapacityDimension::ReadyBatch,
                    limit: usize::MAX as u64,
                    observed: self.max_ready_batch,
                },
            )
        }
    }
}

/// What became of a swept waiter: whether it was inserted, and a refusal
/// that the sweep has to report.
#[verifier::ext_equal]
pub struct SweptView {
    pub inserted: bool,
    pub refusal: Option<SemanticError>,
}

/// What becomes of one ready waiter.  A refused one is dropped: retaining it
/// would let one malformed fact starve every valid sibling.
#[verifier::opaque]
pub open spec fn swept_waiter(g: GraphView, id: FactId) -> (
    GraphView,
    Result<SweptView, SemanticError>,
) {
    match quarantine::removed(g, id) {
        (h, Err(e)) => (h, Err(e)),
        (h, Ok(None)) => (h, Ok(SweptView { inserted: false, refusal: None })),
        (h, Ok(Some(f))) => match costs::cost_of(h, f) {
            Err(e) => (h, Err(e)),
            Ok(cost) => match admission::offered(h, f, true, None, None, Set::empty()) {
                (k, Ok(a)) => (
                    k,
                    Ok(SweptView { inserted: a is Inserted, refusal: None }),
                ),
                (k, Err(e)) => (
                    quarantine::released(k, f.content.author, cost.encoded_bytes),
                    Ok(
                        SweptView {
                            inserted: false,
                            refusal: if retry::is_unauthorized(k, f, e) {
                                None
                            } else {
                                Some(e)
                            },
                        },
                    ),
                ),
            },
        },
    }
}

/// How far a sweep came: the graph and the record of it, how many waiters it
/// touched, what was inserted, the first refusal, and what ended it early.
#[verifier::ext_equal]
pub struct SweepView {
    pub g: GraphView,
    pub rb: RollbackView,
    pub touched: nat,
    pub inserted: Seq<FactId>,
    pub first: Option<SemanticError>,
    pub stop: Option<SemanticError>,
}

/// The sweep after one more waiter.
pub open spec fn swept(st: SweepView, id: FactId) -> SweepView {
    let (g, result) = swept_waiter(st.g, id);
    let rb = rollback::captured(st.rb, st.g, coverage::scope_retry(st.g, id), None);
    match result {
        Err(e) => SweepView { g, rb, touched: st.touched + 1, stop: Some(e), ..st },
        Ok(w) => SweepView {
            g,
            rb,
            touched: st.touched + 1,
            inserted: if w.inserted {
                st.inserted.push(id)
            } else {
                st.inserted
            },
            first: match st.first {
                Some(e) => Some(e),
                None => w.refusal,
            },
            ..st
        },
    }
}

/// The sweep after the first `n` of a list of waiters.
pub open spec fn swept_list(st: SweepView, list: Seq<FactId>, n: int) -> SweepView
    decreases n,
{
    if n <= 0 {
        st
    } else {
        let before = swept_list(st, list, n - 1);
        if before.stop is Some {
            before
        } else {
            swept(before, list[n - 1])
        }
    }
}

/// The waiters of one round: what is ready, as far as the limit leaves room.
pub open spec fn round_of(st: SweepView, limit: nat) -> Seq<FactId> {
    let list = order::ascending(st.g.quarantine.ready);
    let left = if st.touched < limit {
        limit - st.touched
    } else {
        0
    };
    if list.len() <= left {
        list
    } else {
        list.take(left)
    }
}

/// The sweep to its end: nothing is ready any more, the limit is reached, or
/// something stopped it.
pub open spec fn swept_all(st: SweepView, limit: nat) -> SweepView
    decreases limit - st.touched,
{
    let list = round_of(st, limit);
    if st.stop is Some || list.len() == 0 {
        st
    } else {
        let next = swept_list(st, list, list.len() as int);
        if next.touched <= st.touched || next.touched > limit {
            next
        } else {
            swept_all(next, limit)
        }
    }
}

/// A sweep that has not begun.
pub open spec fn sweep_start(g: GraphView) -> SweepView {
    SweepView {
        g,
        rb: rollback::begun(g),
        touched: 0,
        inserted: Seq::empty(),
        first: None,
        stop: None,
    }
}

/// What a sweep gives: what it inserted, or its first refusal with the graph
/// put back.
pub open spec fn sweep_result(st: SweepView) -> (GraphView, Result<Seq<FactId>, SemanticError>) {
    match (st.stop, st.first) {
        (Some(e), _) => (rollback::restored_graph(st.rb, st.g), Err(e)),
        (None, Some(e)) => (rollback::restored_graph(st.rb, st.g), Err(e)),
        (None, None) => (st.g, Ok(st.inserted)),
    }
}

/// What a sweep of a graph gives.
pub open spec fn sweep_of(g: GraphView) -> (GraphView, Result<Seq<FactId>, SemanticError>) {
    match batch_limit(g.setting.limits) {
        Err(e) => (rollback::restored_graph(rollback::begun(g), g), Err(e)),
        Ok(limit) => if limit == 0 {
            (rollback::restored_graph(rollback::begun(g), g), Err(no_batch()))
        } else {
            sweep_result(swept_all(sweep_start(g), limit as nat))
        },
    }
}

/// A sweep of a list touches each of its waiters once, unless it stops.
pub proof fn lemma_touched(st: SweepView, list: Seq<FactId>, n: int)
    requires
        0 <= n <= list.len(),
        st.stop is None,
        st.inserted.len() <= st.touched,
    ensures
        ({
            let next = swept_list(st, list, n);
            &&& next.stop is None ==> next.touched == st.touched + n
            &&& next.touched <= st.touched + n
            &&& n > 0 ==> next.touched > st.touched
            &&& next.inserted.len() <= next.touched
        }),
    decreases n,
{
    if n > 0 {
        lemma_touched(st, list, n - 1);
    }
}

proof fn lemma_bounded(st: SweepView, limit: nat)
    requires
        st.inserted.len() <= st.touched <= limit,
    ensures
        ({
            let end = swept_all(st, limit);
            &&& end.inserted.len() <= end.touched <= limit
            &&& end.stop is None && end.touched < limit && end.g.quarantine.ready.finite()
                ==> end.g.quarantine.ready == Set::<FactId>::empty()
        }),
    decreases limit - st.touched,
{
    let list = round_of(st, limit);
    if st.stop is None {
        if list.len() > 0 {
            lemma_touched(st, list, list.len() as int);
            let next = swept_list(st, list, list.len() as int);
            lemma_bounded(next, limit);
        } else if st.touched < limit && st.g.quarantine.ready.finite() {
            ordset::lemma_listing(st.g.quarantine.ready);
            assert(order::ascending(st.g.quarantine.ready).len() == 0);
            assert(st.g.quarantine.ready =~= Set::<FactId>::empty());
        }
    }
}

/// The batch limit bounds the retry work of one sweep: no more waiters are
/// inserted than it, and where fewer were touched, none is ready any more.
pub proof fn sweep_is_bounded(g: GraphView)
    ensures
        ({
            let (h, result) = sweep_of(g);
            let end = swept_all(sweep_start(g), g.setting.limits.max_ready_batch as nat);
            result matches Ok(ids) ==> {
                &&& ids.len() <= end.touched <= g.setting.limits.max_ready_batch
                &&& h == end.g
                &&& end.touched < g.setting.limits.max_ready_batch && h.quarantine.ready.finite()
                    ==> h.quarantine.ready == Set::<FactId>::empty()
            }
        }),
{
    if let Ok(limit) = batch_limit(g.setting.limits) {
        lemma_bounded(sweep_start(g), limit as nat);
    }
}

proof fn lemma_swept_stopped(st: SweepView, list: Seq<FactId>, i: int, n: int)
    requires
        0 <= i <= n,
        swept_list(st, list, i).stop is Some,
    ensures
        swept_list(st, list, n) == swept_list(st, list, i),
    decreases n - i,
{
    if i < n {
        lemma_swept_stopped(st, list, i, n - 1);
    }
}

/// What a swept waiter leaves.
pub proof fn lemma_swept_waiter(g: GraphView, id: FactId)
    requires
        quarantine::owned(g),
    ensures
        ({
            let h = swept_waiter(g, id).0;
            &&& quarantine::owned(h)
            &&& h.setting == g.setting
            &&& retry::is_roomy(g, 0) ==> retry::is_roomy(h, 0)
            &&& g.indexes_current() ==> coverage::within(coverage::scope_retry(g, id), g, h)
        }),
{
    reveal(swept_waiter);
    let (h, found) = quarantine::removed(g, id);
    coverage::lemma_removed_within(g, id);
    let s = coverage::scope_retry(g, id);
    if g.quarantine.facts.contains_key(id) {
        let f = g.quarantine.facts[id];
        quarantine::lemma_cost(g, f);
        if let Ok(cost) = costs::cost_of(g, f) {
            quarantine::lemma_dequeue(g, id, cost);
            assert(g.quarantine.facts.remove(id).dom() =~= g.quarantine.facts.dom().remove(id));
            assert(h.quarantine.facts.insert(f.id, f) =~= g.quarantine.facts);
            assert(retry::is_roomy(g, 0) ==> retry::is_roomy(h, 0int + 1));
            quarantine::lemma_cost(h, f);
            if let Ok(again) = costs::cost_of(h, f) {
                admission::lemma_offered(h, f, true, None, None, Set::empty());
                retry::lemma_offered_room(h, f, true, None, None, Set::empty());
                let (k, result) = admission::offered(h, f, true, None, None, Set::empty());
                if g.indexes_current() {
                    coverage::lemma_offered_within(h, f, true, None, None, Set::empty());
                    retry::lemma_narrower(g, h, f, id);
                    retry::lemma_within_twice(s, rollback::scope_admission(h, f), g, h, k);
                }
                if result is Err {
                    admission::refusal_keeps_custody(h, f, true, None, None, Set::empty());
                    rebuild::lemma_rebuilt_frame(h);
                    let r = quarantine::released(k, f.content.author, again.encoded_bytes);
                    assert(k.ledger.retained == g.ledger.retained);
                    assert(quarantine::owned(r));
                    if g.indexes_current() {
                        assert(s.authors.contains(f.content.author));
                        assert(coverage::within(s, k, r)) by {
                            assert(k.order.is_prefix_of(r.order));
                        }
                        retry::lemma_within_twice(s, s, g, k, r);
                    }
                }
            }
        }
    }
}

impl FactGraph {
    /// Takes one ready waiter out of the quarantine and offers it again.
    fn sweep_waiter(&mut self, id: &FactId) -> (r: Result<(bool, Option<SemanticError>), SemanticError>)
        requires
            quarantine::owned(old(self)@),
            retry::is_roomy(old(self)@, 0),
        ensures
            final(self)@ == swept_waiter(old(self)@, *id).0,
            match r {
                Ok(w) => swept_waiter(old(self)@, *id).1 == Ok::<SweptView, SemanticError>(
                    SweptView { inserted: w.0, refusal: w.1 },
                ),
                Err(e) => swept_waiter(old(self)@, *id).1 == Err::<SweptView, SemanticError>(e),
            },
            old(self)@.indexes_current() ==> final(self)@.indexes_current(),
    {
        let ghost g = self@;
        proof {
            reveal(swept_waiter);
            if g.quarantine.facts.contains_key(*id) {
                quarantine::lemma_cost(g, g.quarantine.facts[*id]);
                if let Ok(cost) = costs::cost_of(g, g.quarantine.facts[*id]) {
                    quarantine::lemma_dequeue(g, *id, cost);
                }
                assert(g.quarantine.facts.remove(*id).dom() =~= g.quarantine.facts.dom().remove(
                    *id,
                ));
                vstd::set::axiom_set_remove_len(g.quarantine.facts.dom(), *id);
            }
        }
        let fact = match self.remove_quarantine(id) {
            Ok(Some(f)) => f,
            Ok(None) => {
                return Ok((false, None));
            },
            Err(e) => {
                return Err(e);
            },
        };
        let ghost h = self@;
        let cost = match self.fact_cost(&fact) {
            Ok(c) => c,
            Err(e) => {
                return Err(e);
            },
        };
        let copy = fact.duplicate();
        let author = fact.content.author;
        let none: Vec<FactId> = Vec::new();
        proof {
            assert(none@.to_set() =~= Set::<FactId>::empty());
            assert(h.quarantine.facts.insert(fact@.id, fact@) =~= g.quarantine.facts);
            quarantine::lemma_cost(h, fact@);
        }
        match self.admit_inner_with_projection_staged(fact, true, None, None, &none) {
            Ok(Admission::Inserted) => Ok((true, None)),
            Ok(_) => Ok((false, None)),
            Err(error) => {
                proof {
                    admission::refusal_keeps_custody(h, copy@, true, None, None, Set::empty());
                    rebuild::lemma_rebuilt_frame(h);
                }
                let unauthorized = is_terminal_authorization_waiter(self, &copy, &error);
                self.release_author(&author, cost.encoded_bytes);
                Ok(
                    (
                        false,
                        if unauthorized {
                            None
                        } else {
                            Some(error)
                        },
                    ),
                )
            },
        }
    }

    /// Sweeps the ready waiters as far as the limit goes.
    fn sweep(&mut self, limit: usize, rollback: &mut GraphRollback) -> (r: Result<
        Vec<FactId>,
        SemanticError,
    >)
        requires
            quarantine::owned(old(self)@),
            retry::is_roomy(old(self)@, 0),
            old(self)@.indexes_current(),
            old(rollback)@ == rollback::begun(old(self)@),
        ensures
            quarantine::owned(final(self)@),
            coverage::custody_covered(final(rollback)@, old(self)@, final(self)@),
            ({
                let st = swept_all(sweep_start(old(self)@), limit as nat);
                &&& st.g == final(self)@
                &&& st.rb == final(rollback)@
                &&& match r {
                    Ok(ids) => st.stop is None && st.first is None && st.inserted == ids@,
                    Err(e) => st.stop == Some(e) || (st.stop is None && st.first == Some(e)),
                }
            }),
    {
        let ghost origin = self@;
        let ghost mut st = sweep_start(self@);
        let ghost end = swept_all(st, limit as nat);
        let mut touched: usize = 0;
        let mut inserted: Vec<FactId> = Vec::new();
        let mut first_error: Option<SemanticError> = None;
        proof {
            coverage::lemma_begun(self@);
            assert(inserted@ =~= Seq::<FactId>::empty());
        }
        while touched < limit && !self.quarantine.ready.is_empty()
            invariant
                origin == old(self)@,
                end == swept_all(sweep_start(origin), limit as nat),
                end == swept_all(st, limit as nat),
                st.g == self@,
                st.rb == rollback@,
                st.touched == touched,
                touched <= limit,
                st.inserted == inserted@,
                st.inserted.len() <= st.touched,
                st.first == first_error,
                st.stop is None,
                quarantine::owned(self@),
                retry::is_roomy(self@, 0),
                self@.indexes_current(),
                coverage::custody_covered(rollback@, origin, self@),
            decreases limit - touched,
        {
            let ghost top = st;
            let mut ready = self.quarantine.ready.to_vec();
            let ghost all = ready@;
            proof {
                assert(all.to_set() == self@.quarantine.ready);
                assert(all.len() > 0) by {
                    if all.len() == 0 {
                        assert(all.to_set() =~= Set::<FactId>::empty());
                    }
                }
            }
            let left: usize = limit - touched;
            if ready.len() > left {
                ready.truncate(left);
            }
            assert(ready@ == round_of(top, limit as nat));
            let m: usize = ready.len();
            for i in 0..m
                invariant
                    m == ready@.len(),
                    0 < m <= limit - touched,
                    origin == old(self)@,
                    end == swept_all(sweep_start(origin), limit as nat),
                    end == swept_all(top, limit as nat),
                    top.stop is None,
                    top.touched == touched,
                    top.inserted.len() <= top.touched,
                    ready@ == round_of(top, limit as nat),
                    st == swept_list(top, ready@, i as int),
                    st.g == self@,
                    st.rb == rollback@,
                    st.inserted == inserted@,
                    st.first == first_error,
                    st.stop is None,
                    quarantine::owned(self@),
                    retry::is_roomy(self@, 0),
                    self@.indexes_current(),
                    coverage::custody_covered(rollback@, origin, self@),
            {
                let id = ready[i];
                let ghost next = swept(st, id);
                let ghost here = self@;
                proof {
                    lemma_swept_waiter(here, id);
                    let s = coverage::scope_retry(here, id);
                    coverage::lemma_captured(st.rb, origin, here, s, None);
                    coverage::lemma_custody_within(next.rb, origin, here, next.g, s);
                    assert(swept_list(top, ready@, i + 1) == next);
                }
                rollback.capture_retry(self, &id);
                match self.sweep_waiter(&id) {
                    Ok((was_inserted, refusal)) => {
                        if was_inserted {
                            inserted.push(id);
                        }
                        if first_error.is_none() {
                            first_error = refusal;
                        }
                    },
                    Err(e) => {
                        proof {
                            lemma_swept_stopped(top, ready@, i + 1, m as int);
                            assert(swept_list(top, ready@, m as int) == next);
                            assert(swept_all(next, limit as nat) == next);
                            assert(end == next);
                        }
                        return Err(e);
                    },
                }
                proof {
                    st = next;
                }
            }
            proof {
                lemma_touched(top, ready@, m as int);
                assert(end == swept_all(st, limit as nat));
            }
            touched = touched + m;
        }
        proof {
            if touched < limit {
                ordset::lemma_listing(Set::<FactId>::empty());
            }
            assert(round_of(st, limit as nat).len() == 0);
            assert(end == st);
        }
        match first_error {
            Some(e) => Err(e),
            None => Ok(inserted),
        }
    }

    /// Retry only facts woken by a newly admitted dependency. The waiter
    /// index avoids scanning unrelated quarantine entries and the
    /// owner-selected batch limit bounds one admission's retry work: what it
    /// does not come to stays ready for the next call.
    pub fn retry_quarantined(&mut self) -> (r: Result<Vec<FactId>, SemanticError>)
        requires
            quarantine::owned(old(self)@),
            retry::is_roomy(old(self)@, 0),
        ensures
            quarantine::owned(final(self)@),
            (final(self)@, ids_view(r)) == sweep_of(rebuild::ensured(old(self)@)),
            r matches Ok(ids) ==> ids@.len() <= old(self)@.setting.limits.max_ready_batch,
    {
        proof {
            quarantine::lemma_rebuilt_owned(self@);
            rebuild::lemma_rebuilt_frame(self@);
            sweep_is_bounded(rebuild::ensured(self@));
        }
        self.ensure_indexes_current();
        let ghost g = self@;
        let mut rollback = GraphRollback::new(self);
        proof {
            coverage::lemma_begun(g);
        }
        let result = match self.setting.limits.ready_batch() {
            Err(e) => Err(e),
            Ok(limit) => if limit == 0 {
                Err(
                    SemanticError::CapacityExceeded {
                        dimension: SemanticCapacityDimension::ReadyBatch,
                        limit: 0,
                        observed: 1,
                    },
                )
            } else {
                self.sweep(limit, &mut rollback)
            },
        };
        if result.is_err() {
            proof {
                coverage::covered_custody_is_restored(rollback@, g, self@);
            }
            rollback.restore(self);
        }
        result
    }
}

} // verus!

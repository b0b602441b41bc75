//! What is asked of rows that come from outside: snapshots, staged history and
//! loaded ancestry.

use vstd::prelude::*;

use crate::admission;
use crate::admission::AdmissionView;
use crate::authority;
use crate::authority::Gap;
use crate::causal_order;
use crate::checkpoint;
use crate::checks;
use crate::cold;
use crate::content::{BodyView, ExclusiveCell};
use crate::device::DeviceId;
use crate::error::SemanticError;
use crate::evaluator;
use crate::evidence;
use crate::fact::{Facts, FactView};
use crate::graph::GraphView;
use crate::ids::FactId;
use crate::multimap;
use crate::order;
use crate::ordset;
use crate::projection;
use crate::reach;
use crate::rebuild;
use crate::reordering;
use crate::restore;
use crate::restore::BulkView;
use crate::rollback;

verus! {

/// Checks in order pass exactly where each of them does, and what they refuse
/// with is what one of them does.
pub proof fn all_checks_must_pass<E>(check: spec_fn(int) -> Result<(), E>, n: int)
    ensures
        checks::run(check, n) is Ok <==> forall|i: int| 0 <= i < n ==> #[trigger] check(i) is Ok,
        checks::run(check, n) matches Err(e) ==> exists|i: int|
            0 <= i < n && #[trigger] check(i) == Err::<(), E>(e),
    decreases n,
{
    if n > 0 {
        all_checks_must_pass(check, n - 1);
        if checks::run(check, n - 1) is Ok {
            if check(n - 1) is Ok {
                assert forall|i: int| 0 <= i < n implies #[trigger] check(i) is Ok by {
                    if i < n - 1 {
                        assert(check(i) is Ok);
                    }
                }
            } else {
                assert(check(n - 1) is Err);
            }
        } else {
            let i = choose|i: int| 0 <= i < n - 1 && !(#[trigger] check(i) is Ok);
            assert(!(check(i) is Ok));
        }
    }
}

/// A snapshot is taken on only where every row of it is verified, of this mesh
/// and listed once, each of its inputs is in it or admitted already, and the
/// rows can be put in causal order.
pub proof fn snapshots_are_whole(g: GraphView, list: Seq<FactView>)
    requires
        restore::snapshot_check(g, list) is Ok,
    ensures
        forall|i: int|
            0 <= i < list.len() ==> (#[trigger] list[i]).checked.refusal is None
                && list[i].content.mesh_context == g.setting.context_id,
        forall|i: int, j: int|
            0 <= i < j < list.len() ==> (#[trigger] list[i]).id != (#[trigger] list[j]).id,
        forall|i: int, x: FactId|
            0 <= i < list.len() && #[trigger] list[i].inputs().contains(x) ==> g.facts.contains_key(
                x,
            ) || exists|j: int| 0 <= j < list.len() && (#[trigger] list[j]).id == x,
        ({
            let batch = checkpoint::by_id(list, list.len() as int);
            causal_order::topological(batch, Seq::empty()).to_set() == batch.dom()
        }),
{
    let n = list.len() as int;
    let batch = checkpoint::by_id(list, n);
    let ids = order::ascending(batch.dom());
    let rows = |i: int| restore::snapshot_row_check(g, list, i);
    let deps = |i: int| restore::dependencies_check(g, batch, batch[ids[i]]);
    all_checks_must_pass(rows, n);
    all_checks_must_pass(deps, ids.len() as int);
    reordering::lemma_rows_by_id(list, n);
    restore::lemma_by_id(list, n);
    ordset::lemma_listing(batch.dom());
    assert forall|i: int| 0 <= i < list.len() implies (#[trigger] list[i]).checked.refusal is None
        && list[i].content.mesh_context == g.setting.context_id by {
        assert(rows(i) is Ok);
    }
    assert forall|i: int, j: int| 0 <= i < j < list.len() implies (#[trigger] list[i]).id != (
    #[trigger] list[j]).id by {
        assert(rows(j) is Ok);
        reordering::lemma_rows_by_id(list, j);
        if list[i].id == list[j].id {
            assert(checkpoint::by_id(list, j).contains_key(list[j].id));
        }
    }
    assert forall|i: int, x: FactId|
        0 <= i < list.len() && #[trigger] list[i].inputs().contains(x) implies g.facts.contains_key(
        x,
    ) || exists|j: int| 0 <= j < list.len() && (#[trigger] list[j]).id == x by {
        let id = list[i].id;
        assert(batch.contains_key(id));
        let k = choose|k: int| 0 <= k < n && #[trigger] list[k] == batch[id] && list[k].id == id;
        assert(k == i) by {
            if k < i {
                assert(list[k].id != list[i].id);
            }
            if i < k {
                assert(list[i].id != list[k].id);
            }
        }
        assert(ids.contains(id));
        let m = choose|m: int| 0 <= m < ids.len() && ids[m] == id;
        assert(deps(m) is Ok);
        let f = batch[id];
        let all = f.dependencies();
        let each = |k: int| restore::dependency_check(g, batch, all[k]);
        all_checks_must_pass(each, all.len() as int);
        crate::fact::lemma_inputs_finite(f);
        ordset::lemma_listing(f.inputs());
        assert(all.contains(x));
        let q = choose|q: int| 0 <= q < all.len() && all[q] == x;
        assert(each(q) is Ok);
        if !g.facts.contains_key(x) {
            assert(batch.contains_key(x));
        }
    }
}

/// A snapshot whose rows are verified, of this mesh, listed once, complete and
/// in some causal order is taken on.
pub proof fn whole_snapshots_are_taken_on(g: GraphView, list: Seq<FactView>)
    requires
        forall|i: int|
            0 <= i < list.len() ==> (#[trigger] list[i]).checked.refusal is None
                && list[i].content.mesh_context == g.setting.context_id,
        forall|i: int, j: int|
            0 <= i < j < list.len() ==> (#[trigger] list[i]).id != (#[trigger] list[j]).id,
        forall|i: int, x: FactId|
            0 <= i < list.len() && #[trigger] list[i].inputs().contains(x) ==> g.facts.contains_key(
                x,
            ) || exists|j: int| 0 <= j < list.len() && (#[trigger] list[j]).id == x,
        ({
            let batch = checkpoint::by_id(list, list.len() as int);
            causal_order::topological(batch, Seq::empty()).to_set() == batch.dom()
        }),
    ensures
        restore::snapshot_check(g, list) is Ok,
{
    let n = list.len() as int;
    let batch = checkpoint::by_id(list, n);
    let ids = order::ascending(batch.dom());
    let rows = |i: int| restore::snapshot_row_check(g, list, i);
    let deps = |i: int| restore::dependencies_check(g, batch, batch[ids[i]]);
    reordering::lemma_rows_by_id(list, n);
    restore::lemma_by_id(list, n);
    ordset::lemma_listing(batch.dom());
    assert forall|i: int| 0 <= i < n implies #[trigger] rows(i) is Ok by {
        assert(list[i].checked.refusal is None);
        reordering::lemma_rows_by_id(list, i);
        if checkpoint::by_id(list, i).contains_key(list[i].id) {
            let j = choose|j: int| 0 <= j < i && (#[trigger] list[j]).id == list[i].id;
            assert(list[j].id != list[i].id);
        }
    }
    all_checks_must_pass(rows, n);
    assert forall|m: int| 0 <= m < ids.len() implies #[trigger] deps(m) is Ok by {
        let id = ids[m];
        assert(ids.contains(id));
        assert(batch.contains_key(id));
        let k = choose|k: int| 0 <= k < n && #[trigger] list[k] == batch[id] && list[k].id == id;
        let f = batch[id];
        let all = f.dependencies();
        let each = |q: int| restore::dependency_check(g, batch, all[q]);
        crate::fact::lemma_inputs_finite(f);
        ordset::lemma_listing(f.inputs());
        assert forall|q: int| 0 <= q < all.len() implies #[trigger] each(q) is Ok by {
            assert(all.contains(all[q]));
            assert(list[k].inputs().contains(all[q]));
            if !g.facts.contains_key(all[q]) {
                let j = choose|j: int| 0 <= j < list.len() && (#[trigger] list[j]).id == all[q];
                assert(batch.contains_key(list[j].id));
            }
        }
        all_checks_must_pass(each, all.len() as int);
    }
    all_checks_must_pass(deps, ids.len() as int);
}

/// An offer keeps what is held: facts stay, and so does what waits.
proof fn lemma_offers_keep(g: GraphView, f: FactView, x: FactId)
    ensures
        ({
            let (h, result) = admission::offered(g, f, false, None, None, Set::empty());
            &&& g.facts.contains_key(x) ==> h.facts.contains_key(x)
            &&& g.quarantine.facts.contains_key(x) ==> h.quarantine.facts.contains_key(x)
            &&& result matches Ok(a) ==> match a {
                AdmissionView::Inserted => h.facts.contains_key(f.id),
                AdmissionView::Quarantined { .. } => h.quarantine.facts.contains_key(f.id),
                AdmissionView::AlreadyPresent => h.facts.contains_key(f.id)
                    || h.quarantine.facts.contains_key(f.id),
            }
        }),
{
    reveal(admission::offered);
    reveal(admission::entered);
    reveal(admission::screened);
    rebuild::lemma_rebuilt_frame(g);
}

proof fn lemma_bulk_admitted(st: BulkView, batch: Facts, list: Seq<FactId>, n: int, x: FactId)
    requires
        0 <= n <= list.len(),
        st.stop is None,
    ensures
        ({
            let end = restore::bulk_admitted(st, batch, list, n);
            &&& st.g.facts.contains_key(x) ==> end.g.facts.contains_key(x)
            &&& st.g.quarantine.facts.contains_key(x) ==> end.g.quarantine.facts.contains_key(x)
            &&& end.stop is None ==> forall|i: int|
                0 <= i < n && batch[#[trigger] list[i]].id == x ==> end.g.facts.contains_key(x)
                    || end.g.quarantine.facts.contains_key(x)
        }),
    decreases n,
{
    if n > 0 {
        lemma_bulk_admitted(st, batch, list, n - 1, x);
        let before = restore::bulk_admitted(st, batch, list, n - 1);
        if before.stop is None {
            lemma_offers_keep(before.g, batch[list[n - 1]], x);
        }
    }
}

proof fn lemma_bulk_quarantined(st: BulkView, list: Seq<FactView>, n: int, x: FactId)
    requires
        0 <= n <= list.len(),
    ensures
        ({
            let end = restore::bulk_quarantined(st, list, n);
            &&& st.g.facts.contains_key(x) ==> end.g.facts.contains_key(x)
            &&& st.g.quarantine.facts.contains_key(x) ==> end.g.quarantine.facts.contains_key(x)
            &&& end.stop is None ==> st.stop is None
            &&& end.stop is None ==> forall|i: int|
                0 <= i < n && (#[trigger] list[i]).id == x ==> end.g.quarantine.facts.contains_key(
                    x,
                ) && list[i].checked.refusal is None
        }),
    decreases n,
{
    if n > 0 {
        lemma_bulk_quarantined(st, list, n - 1, x);
        let before = restore::bulk_quarantined(st, list, n - 1);
        if before.stop is None {
            lemma_offers_keep(before.g, list[n - 1], x);
        }
    }
}

/// A snapshot that was restored is all there: every row listed as admitted is
/// held, and every row listed as waiting waits; nothing that was held before is
/// lost.
pub proof fn restored_snapshots_are_all_there(
    g: GraphView,
    admitted: Seq<FactView>,
    waiting: Seq<FactView>,
    i: int,
    x: FactId,
)
    requires
        g.indexes_current(),
        restore::restored(g, admitted, waiting).1 is Ok,
    ensures
        restore::snapshot_check(g, admitted) is Ok,
        ({
            let h = restore::restored(g, admitted, waiting).0;
            &&& g.facts.contains_key(x) ==> h.facts.contains_key(x)
            &&& 0 <= i < admitted.len() ==> h.facts.contains_key(admitted[i].id)
                || h.quarantine.facts.contains_key(admitted[i].id)
            &&& 0 <= i < waiting.len() ==> h.quarantine.facts.contains_key(waiting[i].id)
                && waiting[i].checked.refusal is None
        }),
{
    reveal(restore::restored);
    let n = admitted.len() as int;
    let start = BulkView { g, rb: rollback::begun(g), stop: None };
    let batch = checkpoint::by_id(admitted, n);
    let list = causal_order::topological(batch, Seq::empty());
    let mid = restore::bulk_admitted(start, batch, list, list.len() as int);
    lemma_bulk_quarantined(mid, waiting, waiting.len() as int, x);
    lemma_bulk_admitted(start, batch, list, list.len() as int, x);
    if 0 <= i < waiting.len() {
        lemma_bulk_quarantined(mid, waiting, waiting.len() as int, waiting[i].id);
    }
    if 0 <= i < n {
        let id = admitted[i].id;
        reordering::lemma_rows_by_id(admitted, n);
        assert(batch.contains_key(id));
        assert(list.to_set().contains(id));
        let k = choose|k: int| 0 <= k < list.len() && list[k] == id;
        let j = choose|j: int| 0 <= j < n && #[trigger] admitted[j] == batch[id] && admitted[j].id
            == id;
        assert(batch[list[k]].id == id);
        lemma_bulk_admitted(start, batch, list, list.len() as int, id);
        lemma_bulk_quarantined(mid, waiting, waiting.len() as int, id);
    }
}

/// A row listed as waiting that does not wait refuses the snapshot.
pub proof fn rows_listed_as_waiting_must_wait(
    st: BulkView,
    list: Seq<FactView>,
    n: int,
    a: AdmissionView,
)
    requires
        0 < n <= list.len(),
        restore::bulk_quarantined(st, list, n - 1).stop is None,
        list[n - 1].checked.refusal is None,
        restore::offered_next(restore::bulk_quarantined(st, list, n - 1), list[n - 1]).1 == Ok::<
            AdmissionView,
            SemanticError,
        >(a),
    ensures
        restore::bulk_quarantined(st, list, n).stop == (if a is Quarantined {
            None
        } else {
            Some(SemanticError::DomainMismatch)
        }),
{
}

/// History is staged only where every row of it is verified and of this mesh.
pub proof fn staged_history_is_verified(g: GraphView, history: Seq<FactView>, n: int)
    requires
        0 <= n <= history.len(),
    ensures
        cold::stage_check(g, history, n) is Ok <==> forall|i: int|
            0 <= i < n ==> (#[trigger] history[i]).checked.refusal is None
                && history[i].content.mesh_context == g.setting.context_id,
        cold::stage_check(g, history, n) matches Err(e) ==> exists|i: int|
            0 <= i < n && match (#[trigger] history[i]).checked.refusal {
                Some(why) => e == why,
                None => e == (SemanticError::ContextMismatch {
                    expected: g.setting.context_id,
                    found: history[i].content.mesh_context,
                }),
            },
    decreases n,
{
    if n > 0 {
        staged_history_is_verified(g, history, n - 1);
        if cold::stage_check(g, history, n) is Ok {
            assert forall|i: int| 0 <= i < n implies (
            #[trigger] history[i]).checked.refusal is None && history[i].content.mesh_context
                == g.setting.context_id by {
                if i == n - 1 {
                }
            }
        } else if cold::stage_check(g, history, n - 1) is Ok {
            assert(!(history[n - 1].checked.refusal is None && history[n - 1].content.mesh_context
                == g.setting.context_id));
        }
    }
}

/// Staging adds rows and changes none: what was held stays as it was, what is
/// new is a row of the history, listed once, and nothing that waits is staged;
/// a row that differs from what is held under its identifier, or that waits,
/// refuses the whole.
pub proof fn staging_only_adds(g: GraphView, history: Seq<FactView>, n: int)
    requires
        0 <= n <= history.len(),
    ensures
        ({
            let st = cold::stage_run(g, history, n);
            &&& forall|x: FactId| #[trigger]
                g.facts.contains_key(x) ==> st.facts.contains_key(x) && st.facts[x] == g.facts[x]
            &&& forall|x: FactId| #[trigger]
                st.staged.contains(x) <==> st.facts.contains_key(x) && !g.facts.contains_key(x)
            &&& st.staged.no_duplicates()
            &&& forall|x: FactId| #[trigger]
                st.staged.contains(x) ==> !g.quarantine.facts.contains_key(x) && exists|i: int|
                    0 <= i < n && #[trigger] history[i] == st.facts[x] && history[i].id == x
            &&& st.refusal is None ==> forall|i: int|
                0 <= i < n ==> st.facts.contains_key((#[trigger] history[i]).id)
                    && st.facts[history[i].id].content == history[i].content
                    && st.facts[history[i].id].signature == history[i].signature
            &&& st.refusal matches Some(e) ==> exists|i: int|
                0 <= i < n && e == SemanticError::DuplicateFact((#[trigger] history[i]).id)
        }),
    decreases n,
{
    if n > 0 {
        staging_only_adds(g, history, n - 1);
        let before = cold::stage_run(g, history, n - 1);
        let st = cold::stage_run(g, history, n);
        let f = history[n - 1];
        if before.refusal is Some {
            let i = choose|i: int|
                0 <= i < n - 1 && before.refusal->0 == SemanticError::DuplicateFact(
                    (#[trigger] history[i]).id,
                );
            assert(0 <= i < n && st.refusal->0 == SemanticError::DuplicateFact(history[i].id));
        } else if st.refusal is Some {
            assert(st.refusal->0 == SemanticError::DuplicateFact(history[n - 1].id));
        } else if before.facts.contains_key(f.id) {
            assert(st == before);
            assert(history[n - 1] == f);
        } else {
            assert(!before.staged.contains(f.id));
            assert forall|x: FactId| #[trigger] st.staged.contains(x) <==> before.staged.contains(x)
                || x == f.id by {
                if before.staged.contains(x) {
                    let i = choose|i: int| 0 <= i < before.staged.len() && before.staged[i] == x;
                    assert(st.staged[i] == x);
                }
                assert(st.staged[before.staged.len() as int] == f.id);
            }
            assert forall|x: FactId| #[trigger]
                st.staged.contains(x) implies !g.quarantine.facts.contains_key(x) && exists|i: int|
                0 <= i < n && #[trigger] history[i] == st.facts[x] && history[i].id == x by {
                if x == f.id {
                    assert(history[n - 1] == st.facts[x]);
                } else {
                    assert(before.staged.contains(x));
                    let i = choose|i: int|
                        0 <= i < n - 1 && #[trigger] history[i] == before.facts[x] && history[i].id
                            == x;
                    assert(history[i] == st.facts[x]);
                }
            }
            assert forall|i: int| 0 <= i < n implies st.facts.contains_key(
                (#[trigger] history[i]).id,
            ) && st.facts[history[i].id].content == history[i].content
                && st.facts[history[i].id].signature == history[i].signature by {
                if i < n - 1 {
                    assert(before.facts.contains_key(history[i].id));
                }
            }
        }
    }
}

/// History of which no row waits, and no two rows, nor a row and what is held,
/// differ under one identifier, is staged whole.
pub proof fn consistent_history_is_staged(g: GraphView, history: Seq<FactView>, n: int)
    requires
        0 <= n <= history.len(),
        forall|i: int|
            0 <= i < history.len() ==> !g.quarantine.facts.contains_key((#[trigger] history[i]).id)
                && (g.facts.contains_key(history[i].id) ==> g.facts[history[i].id].id
                == history[i].id && g.facts[history[i].id].content == history[i].content
                && g.facts[history[i].id].signature == history[i].signature),
        forall|i: int, j: int|
            0 <= i < j < history.len() && (#[trigger] history[i]).id == (#[trigger] history[j]).id
                ==> history[i].content == history[j].content && history[i].signature
                == history[j].signature,
    ensures
        cold::stage_run(g, history, n).refusal is None,
    decreases n,
{
    if n > 0 {
        consistent_history_is_staged(g, history, n - 1);
        staging_only_adds(g, history, n - 1);
        let before = cold::stage_run(g, history, n - 1);
        let f = history[n - 1];
        if before.facts.contains_key(f.id) {
            if g.facts.contains_key(f.id) {
                assert(before.facts[f.id] == g.facts[f.id]);
            } else {
                assert(before.staged.contains(f.id));
                let i = choose|i: int|
                    0 <= i < n - 1 && #[trigger] history[i] == before.facts[f.id] && history[i].id
                        == f.id;
                assert(history[i].id == history[n - 1].id);
            }
            assert(before.facts[f.id].same_as(f));
        }
    }
}

/// Rows that are listed once, verified, of this mesh and no other than what is
/// resident are used, where what was asked for is among them.
pub proof fn agreeing_ancestry_is_used(g: GraphView, wanted: FactId, rows: Seq<FactView>)
    requires
        forall|i: int, j: int|
            0 <= i < j < rows.len() ==> (#[trigger] rows[i]).id != (#[trigger] rows[j]).id,
        forall|i: int|
            0 <= i < rows.len() ==> (#[trigger] rows[i]).content.mesh_context
                == g.setting.context_id && rows[i].checked.refusal is None && (
            g.facts.contains_key(rows[i].id) ==> g.facts[rows[i].id].id == rows[i].id
                && g.facts[rows[i].id].content == rows[i].content
                && g.facts[rows[i].id].signature == rows[i].signature),
        exists|i: int| 0 <= i < rows.len() && (#[trigger] rows[i]).id == wanted,
    ensures
        evidence::pooled(g, wanted, rows) is Ok,
{
    let n = rows.len() as int;
    let table = checkpoint::by_id(rows, n);
    let ids = order::ascending(table.dom());
    let each = |i: int| evidence::pool_row_check(g.facts, g.setting.context_id, table[ids[i]]);
    reordering::lemma_rows_by_id(rows, n);
    restore::lemma_by_id(rows, n);
    ordset::lemma_listing(table.dom());
    let listed = evidence::ids_of(rows);
    assert(listed.no_duplicates()) by {
        assert forall|i: int, j: int|
            0 <= i < listed.len() && 0 <= j < listed.len() && i != j implies listed[i]
            != listed[j] by {
            assert(listed[i] == rows[i].id && listed[j] == rows[j].id);
            if i < j {
                assert(rows[i].id != rows[j].id);
            } else {
                assert(rows[j].id != rows[i].id);
            }
        }
    }
    assert forall|m: int| 0 <= m < ids.len() implies #[trigger] each(m) is Ok by {
        assert(ids.contains(ids[m]));
        let id = ids[m];
        assert(table.contains_key(id));
        let k = choose|k: int| 0 <= k < n && #[trigger] rows[k] == table[id] && rows[k].id == id;
        assert(rows[k].checked.refusal is None);
    }
    all_checks_must_pass(each, ids.len() as int);
    let i = choose|i: int| 0 <= i < rows.len() && (#[trigger] rows[i]).id == wanted;
    assert(table.contains_key(rows[i].id));
}

/// Loaded ancestry is used only where it lists each row once, every row is
/// verified, of this mesh and no other than the resident fact of its
/// identifier, and what was asked for is among them.
pub proof fn loaded_ancestry_agrees_with_what_is_held(
    g: GraphView,
    wanted: FactId,
    rows: Seq<FactView>,
    pool: Facts,
)
    requires
        evidence::pooled(g, wanted, rows) == Ok::<Facts, Gap>(pool),
    ensures
        pool.contains_key(wanted),
        forall|i: int, j: int|
            0 <= i < j < rows.len() ==> (#[trigger] rows[i]).id != (#[trigger] rows[j]).id,
        forall|i: int|
            0 <= i < rows.len() ==> pool.contains_key((#[trigger] rows[i]).id)
                && pool[rows[i].id] == rows[i],
        forall|id: FactId| #[trigger]
            pool.contains_key(id) ==> pool[id].content.mesh_context == g.setting.context_id
                && pool[id].checked.refusal is None && (g.facts.contains_key(id)
                ==> g.facts[id].content == pool[id].content && g.facts[id].signature
                == pool[id].signature),
{
    let n = rows.len() as int;
    let table = checkpoint::by_id(rows, n);
    let ids = order::ascending(table.dom());
    let each = |i: int| evidence::pool_row_check(g.facts, g.setting.context_id, table[ids[i]]);
    all_checks_must_pass(each, ids.len() as int);
    reordering::lemma_rows_by_id(rows, n);
    restore::lemma_by_id(rows, n);
    ordset::lemma_listing(table.dom());
    let listed = evidence::ids_of(rows);
    assert forall|i: int, j: int| 0 <= i < j < rows.len() implies (#[trigger] rows[i]).id != (
    #[trigger] rows[j]).id by {
        assert(listed[i] == rows[i].id && listed[j] == rows[j].id);
    }
    assert forall|i: int| 0 <= i < rows.len() implies pool.contains_key((#[trigger] rows[i]).id)
        && pool[rows[i].id] == rows[i] by {
        let id = rows[i].id;
        assert(table.contains_key(id));
        let k = choose|k: int| 0 <= k < n && #[trigger] rows[k] == table[id] && rows[k].id == id;
        assert(listed[k] == rows[k].id && listed[i] == rows[i].id);
    }
    assert forall|id: FactId| #[trigger] pool.contains_key(
        id,
    ) implies pool[id].content.mesh_context == g.setting.context_id
        && pool[id].checked.refusal is None && (g.facts.contains_key(id) ==> g.facts[id].content
        == pool[id].content && g.facts[id].signature == pool[id].signature) by {
        assert(ids.contains(id));
        let k = choose|k: int| 0 <= k < ids.len() && ids[k] == id;
        assert(each(k) is Ok);
        let i = choose|i: int| 0 <= i < n && #[trigger] rows[i] == table[id] && rows[i].id == id;
        assert(table[id].id == id);
    }
}

/// A bundle is handed out exactly for a device that is put out and whose case
/// is all at hand; it holds the heads of the device's role and membership that
/// count, and all that they rest on, and nothing else.
pub proof fn eviction_bundles_are_closed(g: GraphView, target: DeviceId)
    requires
        g.facts.dom().finite(),
        forall|id: FactId| #[trigger] g.facts.contains_key(id) ==> g.facts[id].id == id,
    ensures
        ({
            let bundle = evidence::eviction_bundle(g, target);
            let role = authority::cell_heads(g.reading(), (ExclusiveCell::Role { subject: target }));
            let membership = authority::cell_heads(
                g.reading(),
                (ExclusiveCell::Membership { subject: target }),
            );
            let roots = (role + membership).to_set();
            let closure = reach::reach(reach::input_edges(g.facts), roots);
            &&& bundle is Some <==> evaluator::eval(g).membership(target) == Some(false)
                && closure.subset_of(g.facts.dom())
            &&& bundle matches Some(list) ==> forall|f: FactView| #[trigger]
                list.contains(f) <==> closure.contains(f.id) && g.facts.contains_key(f.id)
                    && g.facts[f.id] == f
        }),
{
    let roots = evidence::target_heads(g, target).to_set();
    let closure = reach::reach(reach::input_edges(g.facts), roots);
    if let Some(list) = evidence::eviction_bundle(g, target) {
        vstd::set_lib::lemma_set_subset_finite(g.facts.dom(), closure);
        ordset::lemma_listing(closure);
        let ids = order::ascending(closure);
        assert forall|f: FactView| #[trigger] list.contains(f) <==> closure.contains(f.id)
            && g.facts.contains_key(f.id) && g.facts[f.id] == f by {
            if list.contains(f) {
                let i = choose|i: int| 0 <= i < list.len() && list[i] == f;
                assert(list[i] == g.facts[ids[i]]);
                assert(ids.contains(ids[i]));
                assert(g.facts.contains_key(ids[i]));
            }
            if closure.contains(f.id) && g.facts[f.id] == f {
                assert(ids.contains(f.id));
                let i = choose|i: int| 0 <= i < ids.len() && ids[i] == f.id;
                assert(list[i] == g.facts[ids[i]]);
            }
        }
    }
}

/// What is claimed of a device holds: an eviction where the device is put out,
/// a proof and a stand-down where it stands down; other facts claim nothing.
pub proof fn claims_hold_where_they_are_projected(g: GraphView, f: FactView)
    ensures
        evidence::claim_is_projected(g, f) <==> match f.content.body {
            BodyView::Evict { target } => evaluator::eval(g).membership(target) == Some(false),
            BodyView::EvictionProof { target, .. } => projection::current(
                g,
            ).stand_down.contains_key(target),
            BodyView::SelfStandDown { device_id, .. } => projection::current(
                g,
            ).stand_down.contains_key(device_id),
            _ => true,
        },
{
}

/// A delivered bundle is exact only for a device that stands down, with rows
/// that are held as they are, and with the projected proof and the counting
/// heads among them and all that these rest on.
pub proof fn exact_bundles_prove_the_stand_down(
    g: GraphView,
    target: DeviceId,
    bundle: Seq<FactView>,
)
    requires
        evidence::bundle_is_exact(g, target, bundle),
    ensures
        projection::current(g).stand_down.contains_key(target),
        forall|i: int|
            0 <= i < bundle.len() ==> g.facts.contains_key((#[trigger] bundle[i]).id)
                && g.facts[bundle[i].id].content == bundle[i].content
                && g.facts[bundle[i].id].signature == bundle[i].signature,
        exists|i: int|
            0 <= i < bundle.len() && (#[trigger] bundle[i]).id == projection::current(
                g,
            ).stand_down[target],
        forall|h: FactId| #[trigger]
            authority::cell_heads(
                g.reading(),
                (ExclusiveCell::Membership { subject: target }),
            ).contains(h) || authority::cell_heads(
                g.reading(),
                (ExclusiveCell::Role { subject: target }),
            ).contains(h) ==> exists|i: int| 0 <= i < bundle.len() && (#[trigger] bundle[i]).id
                == h,
        forall|i: int, x: FactId|
            0 <= i < bundle.len() && #[trigger] bundle[i].inputs().contains(x) ==> exists|j: int|
                0 <= j < bundle.len() && (#[trigger] bundle[j]).id == x,
{
    let roots = evidence::evidence_roots(g, target);
    let edges = reach::input_edges(g.facts);
    let closure = evidence::causal_closure(g.facts, roots);
    let ids = evidence::ids_of(bundle);
    reach::lemma_reach_closed(edges, roots);
    assert forall|x: FactId| #[trigger] closure.contains(x) implies exists|i: int|
        0 <= i < bundle.len() && (#[trigger] bundle[i]).id == x by {
        assert(ids.to_set().contains(x));
        let i = choose|i: int| 0 <= i < ids.len() && ids[i] == x;
        assert(bundle[i].id == x);
    }
    assert(roots.contains(projection::current(g).stand_down[target]));
    let role = authority::cell_heads(g.reading(), (ExclusiveCell::Role { subject: target }));
    let membership = authority::cell_heads(
        g.reading(),
        (ExclusiveCell::Membership { subject: target }),
    );
    crate::content::lemma_concat_set(role, membership);
    assert forall|h: FactId| #[trigger]
        membership.contains(h) || role.contains(h) implies exists|i: int|
        0 <= i < bundle.len() && (#[trigger] bundle[i]).id == h by {
        assert(role.to_set().contains(h) <==> role.contains(h));
        assert(membership.to_set().contains(h) <==> membership.contains(h));
        assert(roots.contains(h));
        assert(closure.contains(h));
    }
    assert forall|i: int, x: FactId|
        0 <= i < bundle.len() && #[trigger] bundle[i].inputs().contains(x) implies exists|j: int|
        0 <= j < bundle.len() && (#[trigger] bundle[j]).id == x by {
        let id = bundle[i].id;
        assert(ids[i] == id);
        assert(ids.to_set().contains(id));
        let f = g.facts[id];
        assert(f.inputs() == bundle[i].inputs());
        crate::fact::lemma_inputs_finite(f);
        ordset::lemma_listing(f.inputs());
        assert(f.dependencies().contains(x));
        assert(edges.contains_key(id) && edges[id].contains(x));
        assert(closure.contains(x));
    }
}

/// Whether a fact that enters makes the resident history insufficient: it is a
/// selection, leaves out a head of a cell that it advances or of a lineage that
/// it takes part in, or, where relations to selections are on record, is no
/// role operation that carries all heads, lacks an input, or has a parent that
/// its author need not carry.
pub proof fn history_matters_to_whom_it_may_change(g: GraphView, f: FactView)
    ensures
        f.is_selector() || evidence::is_cold_relation(g, f) <==> {
            ||| f.content.body is AuthorityLineageResolution
            ||| exists|c: ExclusiveCell, h: FactId|
                f.advances(c) && #[trigger] multimap::at(g.index.cell_heads, c).contains(h)
                    && !f.inputs().contains(h)
            ||| exists|s: DeviceId, h: FactId|
                f.takes_part(s) && #[trigger] multimap::at(g.index.authority_heads, s).contains(h)
                    && !f.inputs().contains(h)
            ||| g.index.provenance.dom().len() > 0 && (!(f.content.body is RoleGrant
                || f.content.body is RoleRevoke) || !rebuild::carries_current_heads(g, f)
                || !f.inputs().subset_of(g.facts.dom()) || (exists|h: FactId| #[trigger]
                f.content.parents.contains(h) && !evaluator::carried(
                    g,
                    f.content.body,
                    f.content.author,
                ).contains(h)))
        },
{
    let carried = evaluator::carried(g, f.content.body, f.content.author);
    if !f.content.parents.to_set().subset_of(carried) {
        let h = choose|h: FactId|
            f.content.parents.to_set().contains(h) && !carried.contains(h);
        assert(f.content.parents.contains(h));
    }
    if exists|h: FactId| #[trigger] f.content.parents.contains(h) && !carried.contains(h) {
        let h = choose|h: FactId| #[trigger] f.content.parents.contains(h) && !carried.contains(h);
        assert(f.content.parents.to_set().contains(h));
    }
    assert(!(f.content.body is RoleGrant || f.content.body is RoleRevoke)
        ==> !rebuild::carries_current_heads(g, f));
}

/// Resident history needs no more history.  Where some is missing, an operation
/// that brings in a fact to which it may matter asks for all that is resident
/// and for all inputs of what enters, but for the candidates themselves and what
/// waits; and one that does not asks for none.
pub proof fn history_is_asked_for_where_it_may_matter(
    g: GraphView,
    candidates: Seq<FactView>,
    x: FactId,
)
    ensures
        g.ledger.fact_count <= g.facts.dom().len() ==> evidence::history_roots(g, candidates)
            == Set::<FactId>::empty(),
        (forall|f: FactView| #[trigger]
            evidence::may_enter(g, candidates, f) ==> !f.is_selector()
                && !evidence::is_cold_relation(g, f)) ==> evidence::history_roots(g, candidates)
            == Set::<FactId>::empty(),
        g.ledger.fact_count > g.facts.dom().len() && (exists|f: FactView| #[trigger]
            evidence::may_enter(g, candidates, f) && (f.is_selector()
                || evidence::is_cold_relation(g, f))) ==> (evidence::history_roots(
            g,
            candidates,
        ).contains(x) <==> (g.facts.contains_key(x) || exists|f: FactView| #[trigger]
            evidence::may_enter(g, candidates, f) && f.inputs().contains(x)) && !(exists|i: int|
            0 <= i < candidates.len() && (#[trigger] candidates[i]).id == x)
            && !g.quarantine.facts.contains_key(x)),
        forall|f: FactView| #[trigger]
            candidates.contains(f) ==> evidence::may_enter(g, candidates, f),
        forall|id: FactId| #[trigger]
            g.quarantine.ready.contains(id) && g.quarantine.facts.contains_key(id)
                ==> evidence::may_enter(g, candidates, g.quarantine.facts[id]),
{
    let ids = evidence::ids_of(candidates);
    assert(ids.contains(x) <==> exists|i: int|
        0 <= i < candidates.len() && (#[trigger] candidates[i]).id == x) by {
        if ids.contains(x) {
            let i = choose|i: int| 0 <= i < ids.len() && ids[i] == x;
            assert(candidates[i].id == x);
        }
        if exists|i: int| 0 <= i < candidates.len() && (#[trigger] candidates[i]).id == x {
            let i = choose|i: int| 0 <= i < candidates.len() && (#[trigger] candidates[i]).id == x;
            assert(ids[i] == x);
        }
    }
    let seeds = g.quarantine.ready.union(ids.to_set());
    reach::lemma_reach_closed(reach::waiter_edges(g.quarantine.waiting), seeds);
    assert forall|id: FactId| #[trigger]
        g.quarantine.ready.contains(id) && g.quarantine.facts.contains_key(
            id,
        ) implies evidence::may_enter(g, candidates, g.quarantine.facts[id]) by {
        assert(seeds.contains(id));
        assert(evidence::wakeable(g, candidates).contains(id));
    }
}

/// Heads are proved only from current indexes, and only where each of them, and
/// each of its signed parents, is resident.
pub proof fn proof_heads_are_resident(
    g: GraphView,
    pools: authority::Pools,
    cells: Seq<ExclusiveCell>,
    i: int,
    h: FactId,
)
    requires
        evidence::proof_heads(g, pools, cells) is Ok,
        0 <= i < cells.len(),
        g.reading().raw_heads(cells[i]).finite(),
        g.reading().raw_heads(cells[i]).contains(h),
    ensures
        g.indexes_current(),
        g.facts.contains_key(h),
        forall|p: FactId| #[trigger]
            g.facts[h].content.parents.contains(p) ==> g.facts.contains_key(p),
{
    let each = |k: int| evidence::candidate_heads_check(g, cells[k]);
    all_checks_must_pass(each, cells.len() as int);
    assert(each(i) is Ok);
    let raw = order::ascending(g.reading().raw_heads(cells[i]));
    let one = |k: int| evidence::candidate_head_check(g.facts, raw[k]);
    all_checks_must_pass(one, raw.len() as int);
    ordset::lemma_listing(g.reading().raw_heads(cells[i]));
    assert(raw.contains(h));
    let k = choose|k: int| 0 <= k < raw.len() && raw[k] == h;
    assert(one(k) is Ok);
    assert forall|p: FactId| #[trigger]
        g.facts[h].content.parents.contains(p) implies g.facts.contains_key(p) by {
        assert(g.facts[h].content.parents.to_set().contains(p));
    }
}

/// Retirement lets go of all that nothing live needs: what stays is a head of a
/// cell or of a lineage, a projected stand-down, what a waiter misses, a value
/// of a cell, a selection at or behind one of these, what such a selects, or a
/// direct input of one of these.
pub proof fn retirement_lets_go_of_the_rest(g: GraphView, x: FactId)
    requires
        g.indexes_current(),
        cold::is_due(g),
        cold::retired(g).facts.contains_key(x),
    ensures
        g.facts.contains_key(x),
        ({
            let p = projection::current(g);
            let live = cold::live_rows(g, p);
            let active = cold::active_selectors(g.reading(), live);
            let named = live.union(active).union(cold::selections_of(g.facts, active));
            ||| named.contains(x)
            ||| exists|c: ExclusiveCell| #[trigger] projection::value_of(p, c) == Some(x)
            ||| exists|y: FactId| #[trigger]
                named.contains(y) && g.facts.contains_key(y) && g.facts[y].inputs().contains(x)
        }),
        cold::live_rows(g, projection::current(g)).contains(x) ==> {
            ||| exists|c: ExclusiveCell| #[trigger]
                multimap::at(g.index.cell_heads, c).contains(x)
            ||| exists|s: DeviceId| #[trigger]
                multimap::at(g.index.authority_heads, s).contains(x)
            ||| exists|s: DeviceId| #[trigger]
                projection::current(g).stand_down.contains_key(s) && projection::current(
                    g,
                ).stand_down[s] == x
            ||| exists|w: FactId| #[trigger] multimap::at(g.quarantine.missing, w).contains(x)
        },
{
    reveal(cold::retired);
    let p = projection::current(g);
    let live = cold::live_rows(g, p);
    if live.contains(x) {
        if multimap::members(g.index.cell_heads).contains(x) {
            let c = choose|c: ExclusiveCell|
                g.index.cell_heads.contains_key(c) && #[trigger] g.index.cell_heads[c].contains(x);
            assert(multimap::at(g.index.cell_heads, c).contains(x));
        } else if multimap::members(g.index.authority_heads).contains(x) {
            let s = choose|s: DeviceId|
                g.index.authority_heads.contains_key(s)
                    && #[trigger] g.index.authority_heads[s].contains(x);
            assert(multimap::at(g.index.authority_heads, s).contains(x));
        } else if multimap::members(g.quarantine.missing).contains(x) {
            let w = choose|w: FactId|
                g.quarantine.missing.contains_key(w) && #[trigger]
                g.quarantine.missing[w].contains(x);
            assert(multimap::at(g.quarantine.missing, w).contains(x));
        }
    }
}

/// History is retired once as many facts were admitted since as the limit has,
/// or where staged history is to be let go, and not before.
pub proof fn history_is_retired_when_due(g: GraphView)
    ensures
        cold::is_due(g) <==> g.fence.staged_cold_pending > 0
            || g.fence.cold_history_since_retirement >= g.setting.limits.max_hot_history_facts,
        g.fence.staged_cold_pending == 0 && g.fence.cold_history_since_retirement
            < g.setting.limits.max_hot_history_facts ==> cold::retired(g) == g,
        g.setting.limits.max_hot_history_facts <= usize::MAX ==> cold::is_due(cold::made_due(g)),
        cold::is_due(g) ==> cold::retired(g).fence.cold_history_since_retirement == 0
            && cold::retired(g).fence.staged_cold_pending == 0,
        cold::retired(g).quarantine.facts == crate::rebuild::ensured(g).quarantine.facts,
{
    reveal(cold::retired);
    crate::rebuild::lemma_rebuilt_frame(g);
}

} // verus!

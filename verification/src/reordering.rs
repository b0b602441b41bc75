//! What restoring a snapshot leaves, and that the order of its rows does not
//! matter.

use vstd::prelude::*;

use crate::admission;
use crate::causal_order;
use crate::checkpoint;
use crate::checks;
use crate::coverage;
use crate::fact::{Facts, FactView};
use crate::graph::GraphView;
use crate::ids::FactId;
use crate::projection;
use crate::rebuild;
use crate::restore;
use crate::restore::BulkView;
use crate::retry;
use crate::rollback;
use crate::soundness;

verus! {

/// Whether two snapshots have the same rows.
pub open spec fn same_rows(a: Seq<FactView>, b: Seq<FactView>) -> bool {
    a.len() == b.len() && forall|f: FactView| #[trigger] a.contains(f) <==> b.contains(f)
}

/// Whether every row of a snapshot is verified and of the mesh, and no
/// identifier occurs twice.
spec fn rows_stand(g: GraphView, list: Seq<FactView>) -> bool {
    &&& forall|i: int|
        0 <= i < list.len() ==> (#[trigger] list[i]).checked.refusal is None
            && list[i].content.mesh_context == g.setting.context_id
    &&& forall|i: int, j: int|
        0 <= i < j < list.len() ==> (#[trigger] list[i]).id != (#[trigger] list[j]).id
}

/// What the rows so far are by their identifiers.
pub proof fn lemma_rows_by_id(list: Seq<FactView>, n: int)
    requires
        0 <= n <= list.len(),
    ensures
        forall|id: FactId| #[trigger]
            checkpoint::by_id(list, n).contains_key(id) <==> exists|i: int|
                0 <= i < n && (#[trigger] list[i]).id == id,
        forall|id: FactId| #[trigger]
            checkpoint::by_id(list, n).contains_key(id) ==> exists|i: int|
                0 <= i < n && #[trigger] list[i] == checkpoint::by_id(list, n)[id] && list[i].id
                    == id,
    decreases n,
{
    if n > 0 {
        lemma_rows_by_id(list, n - 1);
        let was = checkpoint::by_id(list, n - 1);
        let now = checkpoint::by_id(list, n);
        assert forall|id: FactId| #[trigger] now.contains_key(id) <==> exists|i: int|
            0 <= i < n && (#[trigger] list[i]).id == id by {
            if now.contains_key(id) {
                if id == list[n - 1].id {
                    assert(list[n - 1].id == id);
                } else {
                    assert(was.contains_key(id));
                }
            }
            if exists|i: int| 0 <= i < n && (#[trigger] list[i]).id == id {
                let i = choose|i: int| 0 <= i < n && (#[trigger] list[i]).id == id;
                if i < n - 1 {
                    assert(was.contains_key(id));
                }
            }
        }
        assert forall|id: FactId| #[trigger] now.contains_key(id) implies exists|i: int|
            0 <= i < n && #[trigger] list[i] == now[id] && list[i].id == id by {
            if id == list[n - 1].id {
                assert(list[n - 1] == now[id]);
            } else {
                assert(was.contains_key(id));
                let i = choose|i: int|
                    0 <= i < n - 1 && #[trigger] list[i] == was[id] && list[i].id == id;
                assert(list[i] == now[id]);
            }
        }
    }
}

/// The row checks pass exactly where every row stands.
proof fn lemma_rows_stand(g: GraphView, list: Seq<FactView>, n: int)
    requires
        0 <= n <= list.len(),
    ensures
        checks::run(|i: int| restore::snapshot_row_check(g, list, i), n) is Ok <==> rows_stand(
            g,
            list.take(n),
        ),
    decreases n,
{
    let check = |i: int| restore::snapshot_row_check(g, list, i);
    let part = list.take(n);
    if n > 0 {
        lemma_rows_stand(g, list, n - 1);
        lemma_rows_by_id(list, n - 1);
        let less = list.take(n - 1);
        assert(less =~= part.drop_last());
        assert forall|i: int| 0 <= i < n - 1 implies less[i] == #[trigger] part[i] by {}
        let last = list[n - 1];
        if rows_stand(g, part) {
            assert(rows_stand(g, less)) by {
                assert forall|i: int| 0 <= i < less.len() implies (#[trigger] less[i]).checked.refusal is None
                    && less[i].content.mesh_context == g.setting.context_id by {
                    assert(part[i] == less[i]);
                }
                assert forall|i: int, j: int|
                    0 <= i < j < less.len() implies (#[trigger] less[i]).id != (
                #[trigger] less[j]).id by {
                    assert(part[i] == less[i] && part[j] == less[j]);
                }
            }
            assert(part[n - 1] == last);
            if checkpoint::by_id(list, n - 1).contains_key(last.id) {
                let i = choose|i: int| 0 <= i < n - 1 && (#[trigger] list[i]).id == last.id;
                assert(part[i].id == part[n - 1].id);
            }
            assert(check(n - 1) is Ok);
        }
        if checks::run(check, n) is Ok {
            assert(checks::run(check, n - 1) is Ok);
            assert(check(n - 1) is Ok);
            assert forall|i: int| 0 <= i < part.len() implies (#[trigger] part[i]).checked.refusal is None
                && part[i].content.mesh_context == g.setting.context_id by {
                if i < n - 1 {
                    assert(less[i] == part[i]);
                }
            }
            assert forall|i: int, j: int|
                0 <= i < j < part.len() implies (#[trigger] part[i]).id != (#[trigger] part[j]).id by {
                if j < n - 1 {
                    assert(less[i] == part[i] && less[j] == part[j]);
                } else {
                    assert(list[i] == part[i]);
                }
            }
        }
    }
}

/// Rows stand in any order.
proof fn lemma_rows_permuted(g: GraphView, a: Seq<FactView>, b: Seq<FactView>)
    requires
        same_rows(a, b),
        rows_stand(g, a),
    ensures
        rows_stand(g, b),
        checkpoint::by_id(a, a.len() as int) == checkpoint::by_id(b, b.len() as int),
{
    assert(a.no_duplicates()) by {
        assert forall|i: int, j: int| 0 <= i < a.len() && 0 <= j < a.len() && i != j implies a[i]
            != a[j] by {
            if i < j {
                assert(a[i].id != a[j].id);
            } else {
                assert(a[j].id != a[i].id);
            }
        }
    }
    assert(a.to_set() =~= b.to_set()) by {
        assert forall|f: FactView| #[trigger] a.to_set().contains(f) <==> b.to_set().contains(f) by {
            assert(a.contains(f) <==> b.contains(f));
        }
    }
    a.unique_seq_to_set();
    b.lemma_no_dup_set_cardinality();
    assert forall|i: int| 0 <= i < b.len() implies (#[trigger] b[i]).checked.refusal is None
        && b[i].content.mesh_context == g.setting.context_id by {
        assert(b.contains(b[i]));
        assert(a.contains(b[i]));
        let k = choose|k: int| 0 <= k < a.len() && a[k] == b[i];
        assert(a[k].checked.refusal is None);
    }
    assert forall|i: int, j: int| 0 <= i < j < b.len() implies (#[trigger] b[i]).id != (
    #[trigger] b[j]).id by {
        assert(b.contains(b[i]) && b.contains(b[j]));
        assert(a.contains(b[i]) && a.contains(b[j]));
        let k = choose|k: int| 0 <= k < a.len() && a[k] == b[i];
        let m = choose|m: int| 0 <= m < a.len() && a[m] == b[j];
        if k == m {
            assert(b[i] == b[j]);
        } else if k < m {
            assert(a[k].id != a[m].id);
        } else {
            assert(a[m].id != a[k].id);
        }
    }
    let x = checkpoint::by_id(a, a.len() as int);
    let y = checkpoint::by_id(b, b.len() as int);
    lemma_rows_by_id(a, a.len() as int);
    lemma_rows_by_id(b, b.len() as int);
    assert forall|id: FactId| #[trigger] x.contains_key(id) implies y.contains_key(id) && x[id]
        == y[id] by {
        let i = choose|i: int| 0 <= i < a.len() && #[trigger] a[i] == x[id] && a[i].id == id;
        assert(a.contains(a[i]));
        assert(b.contains(a[i]));
        let k = choose|k: int| 0 <= k < b.len() && b[k] == a[i];
        assert(b[k].id == id);
        assert(y.contains_key(id));
        let m = choose|m: int| 0 <= m < b.len() && #[trigger] b[m] == y[id] && b[m].id == id;
        if k < m {
            assert(b[k].id != b[m].id);
        } else if m < k {
            assert(b[m].id != b[k].id);
        }
    }
    assert forall|id: FactId| #[trigger] y.contains_key(id) implies x.contains_key(id) by {
        let m = choose|m: int| 0 <= m < b.len() && #[trigger] b[m] == y[id] && b[m].id == id;
        assert(b.contains(b[m]));
        assert(a.contains(b[m]));
        let i = choose|i: int| 0 <= i < a.len() && a[i] == b[m];
        assert(a[i].id == id);
    }
    assert(x =~= y);
}

/// The order of the admitted rows of a snapshot is not authoritative: the same
/// rows in another order end in the same graph, and in the same answer but
/// for the row that is named where some row is refused out of hand.
pub proof fn row_order_is_not_authoritative(
    g: GraphView,
    a: Seq<FactView>,
    b: Seq<FactView>,
    quarantined: Seq<FactView>,
)
    requires
        same_rows(a, b),
    ensures
        restore::restored(g, a, quarantined).0 == restore::restored(g, b, quarantined).0,
        restore::restored(g, a, quarantined).1 is Ok <==> restore::restored(g, b, quarantined).1 is Ok,
        restore::restored(g, a, quarantined).1 is Ok ==> restore::restored(g, a, quarantined) == restore::restored(
            g,
            b,
            quarantined,
        ),
{
    reveal(restore::restored);
    let start = rebuild::ensured(g);
    lemma_rows_stand(start, a, a.len() as int);
    lemma_rows_stand(start, b, b.len() as int);
    assert(a.take(a.len() as int) =~= a);
    assert(b.take(b.len() as int) =~= b);
    if rows_stand(start, a) {
        lemma_rows_permuted(start, a, b);
    } else if rows_stand(start, b) {
        assert(same_rows(b, a));
        lemma_rows_permuted(start, b, a);
    }
}

/// Whether all rows of a snapshot are matched.
pub open spec fn are_matched(list: Seq<FactView>) -> bool {
    forall|i: int| 0 <= i < list.len() ==> soundness::is_matched(#[trigger] list[i])
}

/// One more restored row keeps a graph sound.
proof fn lemma_next_sound(st: BulkView, f: FactView, base: GraphView, more: int)
    requires
        restore::goes_on(st, base, more),
        more >= 1,
        soundness::is_sound(st.g),
        soundness::is_matched(f),
    ensures
        restore::offered_next(st, f).1 is Ok ==> soundness::is_sound(
            restore::offered_next(st, f).0.g,
        ),
{
    soundness::offer_keeps_graph_sound(st.g, f, false, None, None);
}

proof fn lemma_admitted_sound(
    st: BulkView,
    batch: Facts,
    list: Seq<FactId>,
    n: int,
    base: GraphView,
    more: int,
)
    requires
        restore::goes_on(st, base, more),
        0 <= n <= more,
        n <= list.len(),
        st.stop is None ==> soundness::is_sound(st.g),
        forall|i: int|
            0 <= i < list.len() ==> soundness::is_matched(batch[#[trigger] list[i]]),
    ensures
        ({
            let end = restore::bulk_admitted(st, batch, list, n);
            end.stop is None ==> soundness::is_sound(end.g)
        }),
    decreases n,
{
    if n > 0 {
        lemma_admitted_sound(st, batch, list, n - 1, base, more);
        restore::lemma_bulk_admitted(st, batch, list, n - 1, base, more);
        let before = restore::bulk_admitted(st, batch, list, n - 1);
        if before.stop is None {
            assert(soundness::is_matched(batch[list[n - 1]]));
            lemma_next_sound(before, batch[list[n - 1]], base, more - n + 1);
        }
    }
}

proof fn lemma_quarantined_sound(
    st: BulkView,
    list: Seq<FactView>,
    n: int,
    base: GraphView,
    more: int,
)
    requires
        restore::goes_on(st, base, more),
        0 <= n <= more,
        n <= list.len(),
        st.stop is None ==> soundness::is_sound(st.g),
        are_matched(list),
    ensures
        ({
            let end = restore::bulk_quarantined(st, list, n);
            end.stop is None ==> soundness::is_sound(end.g)
        }),
    decreases n,
{
    if n > 0 {
        lemma_quarantined_sound(st, list, n - 1, base, more);
        restore::lemma_bulk_quarantined(st, list, n - 1, base, more);
        let before = restore::bulk_quarantined(st, list, n - 1);
        if before.stop is None {
            lemma_next_sound(before, list[n - 1], base, more - n + 1);
        }
    }
}

/// A restored snapshot leaves a sound graph, and a refused one leaves the graph
/// as it was, with its indexes and its projection.
pub proof fn restoring_keeps_graph_sound(
    g: GraphView,
    admitted: Seq<FactView>,
    quarantined: Seq<FactView>,
)
    requires
        soundness::is_sound(g),
        are_matched(admitted),
        are_matched(quarantined),
        admission::has_room(g, admitted.len() as int + quarantined.len()),
        retry::is_countable(g, admitted.len() as int + quarantined.len()),
    ensures
        ({
            let (h, result) = restore::restored(g, admitted, quarantined);
            &&& soundness::is_sound(h)
            &&& result is Err ==> h == (GraphView { cache: h.cache, ..g }) && projection::current(h)
                == projection::current(g)
        }),
{
    let (h, result) = restore::restored(g, admitted, quarantined);
    restore::refused_snapshot_leaves_no_trace(g, admitted, quarantined);
    if result is Err {
        soundness::returned_graph_is_sound(h, g);
    } else {
        reveal(restore::restored);
        let start = BulkView { g, rb: rollback::begun(g), stop: None };
        let more = admitted.len() as int + quarantined.len();
        coverage::lemma_begun(g);
        assert(restore::goes_on(start, g, more));
        let batch = checkpoint::by_id(admitted, admitted.len() as int);
        restore::lemma_by_id(admitted, admitted.len() as int);
        restore::lemma_order_fits(batch);
        let list = causal_order::topological(batch, Seq::empty());
        lemma_rows_by_id(admitted, admitted.len() as int);
        assert forall|i: int| 0 <= i < list.len() implies soundness::is_matched(
            batch[#[trigger] list[i]],
        ) by {
            assert(batch.contains_key(list[i]));
            let k = choose|k: int|
                0 <= k < admitted.len() && #[trigger] admitted[k] == batch[list[i]]
                    && admitted[k].id == list[i];
            assert(soundness::is_matched(admitted[k]));
        }
        lemma_admitted_sound(start, batch, list, list.len() as int, g, more);
        restore::lemma_bulk_admitted(start, batch, list, list.len() as int, g, more);
        let mid = restore::bulk_admitted(start, batch, list, list.len() as int);
        lemma_quarantined_sound(
            mid,
            quarantined,
            quarantined.len() as int,
            g,
            more - list.len() as int,
        );
    }
}

/// The order of snapshot rows is not authoritative: clones of one graph that
/// are given the same rows in different orders both restore them and are
/// alike in everything, or both refuse them and are as they were.
pub proof fn clones_restore_alike(g: GraphView, a: Seq<FactView>, b: Seq<FactView>)
    requires
        soundness::is_sound(g),
        same_rows(a, b),
        are_matched(a),
        admission::has_room(g, a.len() as int),
        retry::is_countable(g, a.len() as int),
    ensures
        ({
            let (x, first) = restore::restored(g, a, Seq::empty());
            let (y, second) = restore::restored(g, b, Seq::empty());
            &&& x == y
            &&& soundness::is_sound(x)
            &&& match (first, second) {
                (Ok(()), Ok(())) => true,
                (Err(_), Err(_)) => x == (GraphView { cache: x.cache, ..g })
                    && projection::current(x) == projection::current(g),
                _ => false,
            }
        }),
{
    let none = Seq::<FactView>::empty();
    row_order_is_not_authoritative(g, a, b, none);
    restoring_keeps_graph_sound(g, a, none);
}

} // verus!

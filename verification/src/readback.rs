//! What a graph that was read back is known to be, and what authors carry.

use vstd::prelude::*;

use crate::accounting;
use crate::authority;
use crate::checkpoint;
use crate::checkpoint::{CheckpointError, CheckpointView};
use crate::content::{BodyView, ExclusiveCell};
use crate::device::DeviceId;
use crate::evaluator;
use crate::fact::{Facts, FactView};
use crate::graph::{CellView, GraphView};
use crate::ids::{FactId, MeshContextId};
use crate::intake;
use crate::multimap;
use crate::order;
use crate::ordset;
use crate::policy::{SemanticAdmissionPolicy, VerifiedBootstrap};
use crate::projection;
use crate::provenance;
use crate::reach;
use crate::reordering;
use crate::restart;
use crate::restore;

verus! {

proof fn lemma_rows_pass(
    list: Seq<FactView>,
    context: MeshContextId,
    others: Facts,
    reason: &'static str,
    n: int,
)
    requires
        0 <= n <= list.len(),
        checkpoint::rows_check(list, context, others, reason, n) is Ok,
    ensures
        forall|i: int|
            0 <= i < n ==> (#[trigger] list[i]).checked.refusal is None
                && list[i].content.mesh_context == context && !others.contains_key(list[i].id),
        forall|i: int, j: int|
            0 <= i < j < n ==> (#[trigger] list[i]).id != (#[trigger] list[j]).id,
    decreases n,
{
    if n > 0 {
        lemma_rows_pass(list, context, others, reason, n - 1);
        reordering::lemma_rows_by_id(list, n - 1);
        assert forall|i: int, j: int| 0 <= i < j < n implies (#[trigger] list[i]).id != (
        #[trigger] list[j]).id by {
            if j == n - 1 && list[i].id == list[j].id {
                assert(checkpoint::by_id(list, n - 1).contains_key(list[j].id));
            }
        }
    }
}

proof fn lemma_table(list: Seq<FactView>)
    requires
        forall|i: int, j: int|
            0 <= i < j < list.len() ==> (#[trigger] list[i]).id != (#[trigger] list[j]).id,
    ensures
        forall|id: FactId| #[trigger]
            checkpoint::by_id(list, list.len() as int).contains_key(id) ==> exists|i: int|
                0 <= i < list.len() && #[trigger] list[i] == checkpoint::by_id(
                    list,
                    list.len() as int,
                )[id] && list[i].id == id,
        forall|i: int|
            0 <= i < list.len() ==> checkpoint::by_id(list, list.len() as int).contains_key(
                (#[trigger] list[i]).id,
            ) && checkpoint::by_id(list, list.len() as int)[list[i].id] == list[i],
{
    let n = list.len() as int;
    reordering::lemma_rows_by_id(list, n);
    let table = checkpoint::by_id(list, n);
    assert forall|i: int| 0 <= i < list.len() implies table.contains_key((#[trigger] list[i]).id)
        && table[list[i].id] == list[i] by {
        let id = list[i].id;
        assert(table.contains_key(id));
        let k = choose|k: int| 0 <= k < n && #[trigger] list[k] == table[id] && list[k].id == id;
        if k < i {
            assert(list[k].id != list[i].id);
        }
        if i < k {
            assert(list[i].id != list[k].id);
        }
    }
}

/// A graph that was read back is of this mesh and this format, holds verified
/// facts of it, each under its identifier, with none both admitted and waiting,
/// has an order that lists each fact once, stays within the limits, and says of
/// what waits nothing about what does not.
pub proof fn what_is_read_back_is_in_custody(
    bootstrap: VerifiedBootstrap,
    limits: SemanticAdmissionPolicy,
    cp: CheckpointView,
    g: GraphView,
)
    requires
        checkpoint::decoded(bootstrap, limits, cp) == Ok::<GraphView, CheckpointError>(g),
    ensures
        cp.version == 1,
        cp.context_id == bootstrap.context,
        g.setting.context_id == bootstrap.context,
        g.setting.policy == bootstrap.policy,
        g.setting.limits == limits,
        forall|d: DeviceId| #[trigger]
            g.setting.roots.contains(d) <==> bootstrap.roots@.contains(d),
        forall|id: FactId| #[trigger]
            g.facts.contains_key(id) ==> g.facts[id].id == id && g.facts[id].checked.refusal is None
                && g.facts[id].content.mesh_context == bootstrap.context
                && !g.quarantine.facts.contains_key(id),
        forall|id: FactId| #[trigger]
            g.quarantine.facts.contains_key(id) ==> g.quarantine.facts[id].id == id
                && g.quarantine.facts[id].checked.refusal is None
                && g.quarantine.facts[id].content.mesh_context == bootstrap.context,
        g.order.no_duplicates(),
        forall|id: FactId| #[trigger] g.order.contains(id) <==> g.facts.contains_key(id),
        g.ledger.fact_count <= limits.max_admitted_facts,
        g.ledger.fact_count >= cp.facts.len(),
        cp.quarantined.len() <= limits.max_quarantined_facts,
        g.ledger.bytes <= limits.max_admitted_bytes,
        g.quarantine.bytes <= limits.max_quarantined_bytes,
        g.ledger.edges + g.quarantine.edges <= limits.max_dependency_edges,
        forall|id: FactId| #[trigger]
            g.quarantine.ready.contains(id) ==> g.quarantine.facts.contains_key(id),
        forall|id: FactId| #[trigger]
            g.quarantine.missing.contains_key(id) ==> g.quarantine.facts.contains_key(id),
{
    reveal(checkpoint::decoded);
    let facts = checkpoint::by_id(cp.facts, cp.facts.len() as int);
    let held = checkpoint::by_id(cp.quarantined, cp.quarantined.len() as int);
    lemma_rows_pass(
        cp.facts,
        cp.context_id,
        Map::empty(),
        "invalid or duplicate live checkpoint fact",
        cp.facts.len() as int,
    );
    lemma_rows_pass(
        cp.quarantined,
        cp.context_id,
        facts,
        "invalid or duplicate live checkpoint quarantine",
        cp.quarantined.len() as int,
    );
    lemma_table(cp.facts);
    lemma_table(cp.quarantined);
    assert(g.facts == facts && g.quarantine.facts == held);
    assert forall|id: FactId| #[trigger] held.contains_key(id) implies held[id].id == id
        && held[id].checked.refusal is None && held[id].content.mesh_context == bootstrap.context
        && !facts.contains_key(id) by {
        let i = choose|i: int|
            0 <= i < cp.quarantined.len() && #[trigger] cp.quarantined[i] == held[id]
                && cp.quarantined[i].id == id;
        assert(!facts.contains_key(cp.quarantined[i].id));
    }
    assert forall|id: FactId| #[trigger] facts.contains_key(id) implies facts[id].id == id
        && facts[id].checked.refusal is None && facts[id].content.mesh_context
        == bootstrap.context && !held.contains_key(id) by {
        let i = choose|i: int|
            0 <= i < cp.facts.len() && #[trigger] cp.facts[i] == facts[id] && cp.facts[i].id == id;
        assert(cp.facts[i].checked.refusal is None);
    }
    assert forall|id: FactId| #[trigger] g.order.contains(id) <==> g.facts.contains_key(id) by {
        assert(g.order.to_set().contains(id) <==> g.order.contains(id));
        assert(cp.order.to_set() == facts.dom());
    }
    assert forall|id: FactId| #[trigger]
        g.quarantine.ready.contains(id) implies g.quarantine.facts.contains_key(id) by {
        assert(held.dom().contains(id));
    }
    assert forall|id: FactId| #[trigger]
        g.quarantine.missing.contains_key(id) implies g.quarantine.facts.contains_key(id) by {
        assert(held.dom().contains(id));
    }
    assert forall|d: DeviceId| #[trigger] g.setting.roots.contains(
        d,
    ) <==> bootstrap.roots@.contains(d) by {
        assert(bootstrap.roots@.to_set().contains(d) <==> bootstrap.roots@.contains(d));
    }
}

/// A graph that was read back answers for itself: its indexes are current and
/// charged exactly, name facts that are there, and record no selection without
/// the signed selector; its projection is the committed one, and names facts
/// that are there.
pub proof fn what_is_read_back_answers_for_itself(
    bootstrap: VerifiedBootstrap,
    limits: SemanticAdmissionPolicy,
    cp: CheckpointView,
    g: GraphView,
)
    requires
        checkpoint::decoded(bootstrap, limits, cp) == Ok::<GraphView, CheckpointError>(g),
    ensures
        g.fence.indexed_revision == g.fence.facts_revision,
        g.ledger.index_bytes == accounting::residency(g.index),
        forall|c: ExclusiveCell, h: FactId|
            g.index.cell_heads.contains_key(c) && #[trigger] g.index.cell_heads[c].contains(h)
                ==> g.facts.contains_key(h),
        forall|s: DeviceId, h: FactId|
            g.index.authority_heads.contains_key(s) && #[trigger]
            g.index.authority_heads[s].contains(h) ==> g.facts.contains_key(h),
        forall|s: DeviceId, h: FactId|
            g.index.stand_down.contains_key(s) && #[trigger] g.index.stand_down[s].contains(h)
                ==> g.facts.contains_key(h),
        g.cache == Some((g.fence.generation, cp.committed)),
        forall|c: ExclusiveCell| #[trigger]
            cp.committed.cells.contains_key(c) ==> match cp.committed.cells[c] {
                CellView::Value(id) => g.facts.contains_key(id),
                CellView::Conflict(ids) => ids.len() > 0 && forall|i: int|
                    0 <= i < ids.len() ==> g.facts.contains_key(#[trigger] ids[i]),
            },
        forall|s: DeviceId| #[trigger]
            cp.committed.stand_down.contains_key(s) ==> g.facts.contains_key(
                cp.committed.stand_down[s],
            ),
{
    reveal(checkpoint::decoded);
    let facts = checkpoint::by_id(cp.facts, cp.facts.len() as int);
    assert forall|c: ExclusiveCell, h: FactId|
        g.index.cell_heads.contains_key(c) && #[trigger] g.index.cell_heads[c].contains(
            h,
        ) implies g.facts.contains_key(h) by {
        assert(multimap::members(g.index.cell_heads).contains(h));
    }
    assert forall|s: DeviceId, h: FactId|
        g.index.authority_heads.contains_key(s) && #[trigger] g.index.authority_heads[s].contains(
            h,
        ) implies g.facts.contains_key(h) by {
        assert(multimap::members(g.index.authority_heads).contains(h));
    }
    assert forall|s: DeviceId, h: FactId|
        g.index.stand_down.contains_key(s) && #[trigger] g.index.stand_down[s].contains(
            h,
        ) implies g.facts.contains_key(h) by {
        assert(multimap::members(g.index.stand_down).contains(h));
    }
    assert forall|c: ExclusiveCell| #[trigger] cp.committed.cells.contains_key(c) implies match
    cp.committed.cells[c] {
        CellView::Value(id) => g.facts.contains_key(id),
        CellView::Conflict(ids) => ids.len() > 0 && forall|i: int|
            0 <= i < ids.len() ==> g.facts.contains_key(#[trigger] ids[i]),
    } by {
        assert(checkpoint::cell_is_resident(facts, cp.committed.cells[c]));
    }
}

proof fn lemma_provenance_pass(
    list: Seq<(FactId, Seq<(FactId, crate::graph::AuthoritySelectorRelation)>)>,
    facts: Facts,
    n: int,
    i: int,
    j: int,
)
    requires
        0 <= i < n <= list.len(),
        0 <= j < list[i].1.len(),
        checkpoint::provenance_check(list, facts, n) is Ok,
    ensures
        facts.contains_key(list[i].0),
        facts.contains_key(list[i].1[j].0),
        facts.contains_key(list[i].1[j].1.selected),
        facts[list[i].1[j].0].content.body matches BodyView::AuthorityLineageResolution {
            selected_head,
            cited_heads,
            ..
        } && selected_head == list[i].1[j].1.selected && cited_heads.contains(selected_head),
        list[i].1[j].1.post_selector || list[i].1[j].1.selected_before
            || list[i].1[j].1.before_selected,
    decreases n,
{
    if i < n - 1 {
        lemma_provenance_pass(list, facts, n - 1, i, j);
    } else {
        let row = list[i].1;
        assert(checkpoint::is_witnessed(facts, row[j].0, row[j].1));
    }
}

/// Every relation to a selection that is read back is of a fact that is there,
/// to a signed selection that is there and selects what the relation says.
pub proof fn selections_read_back_are_signed(
    bootstrap: VerifiedBootstrap,
    limits: SemanticAdmissionPolicy,
    cp: CheckpointView,
    g: GraphView,
    i: int,
    j: int,
)
    requires
        checkpoint::decoded(bootstrap, limits, cp) == Ok::<GraphView, CheckpointError>(g),
        0 <= i < cp.provenance.len(),
        0 <= j < cp.provenance[i].1.len(),
    ensures
        g.facts.contains_key(cp.provenance[i].0),
        g.facts.contains_key(cp.provenance[i].1[j].0),
        g.facts.contains_key(cp.provenance[i].1[j].1.selected),
        g.facts[cp.provenance[i].1[j].0].content.body matches BodyView::AuthorityLineageResolution {
            selected_head,
            cited_heads,
            ..
        } && selected_head == cp.provenance[i].1[j].1.selected && cited_heads.contains(
            selected_head,
        ),
        cp.provenance[i].1[j].1.post_selector || cp.provenance[i].1[j].1.selected_before
            || cp.provenance[i].1[j].1.before_selected,
{
    reveal(checkpoint::decoded);
    let facts = checkpoint::by_id(cp.facts, cp.facts.len() as int);
    lemma_provenance_pass(cp.provenance, facts, cp.provenance.len() as int, i, j);
}

/// A restart goes by the history alone: every row of it is verified, of this
/// mesh, and listed once, with all its inputs; what the checkpoint holds of it
/// is as the history has it; every fact of the history that advances a cell is,
/// or is behind, a declared head of it; and every declared head advances its
/// cell and is behind no other.
pub proof fn restarts_agree_with_history(
    bootstrap: VerifiedBootstrap,
    limits: SemanticAdmissionPolicy,
    cp: CheckpointView,
    history: Seq<FactView>,
    g: GraphView,
)
    requires
        restart::restarted(bootstrap, limits, cp, history) == Ok::<GraphView, CheckpointError>(g),
    ensures
        checkpoint::decoded(bootstrap, limits, cp) == Ok::<GraphView, CheckpointError>(g),
        ({
            let all = checkpoint::by_id(history, history.len() as int);
            &&& forall|i: int|
                0 <= i < history.len() ==> (#[trigger] history[i]).checked.refusal is None
                    && history[i].content.mesh_context == bootstrap.context
            &&& forall|i: int, j: int|
                0 <= i < j < history.len() ==> (#[trigger] history[i]).id != (
                #[trigger] history[j]).id
            &&& forall|id: FactId, x: FactId|
                all.contains_key(id) && #[trigger] all[id].inputs().contains(x) ==> all.contains_key(
                    x,
                )
            &&& forall|i: int|
                0 <= i < cp.facts.len() ==> all.contains_key((#[trigger] cp.facts[i]).id)
                    && all[cp.facts[i].id].content == cp.facts[i].content
                    && all[cp.facts[i].id].signature == cp.facts[i].signature
            &&& forall|id: FactId, c: ExclusiveCell|
                all.contains_key(id) && #[trigger] all[id].advances(c) ==> exists|h: FactId|
                    #[trigger]
                    multimap::at(g.index.cell_heads, c).contains(h) && (h == id
                        || reach::is_ancestor(all, id, h))
            &&& forall|c: ExclusiveCell, h: FactId|
                g.index.cell_heads.contains_key(c) && #[trigger] g.index.cell_heads[c].contains(h)
                    ==> all.contains_key(h) && all[h].advances(c)
            &&& forall|c: ExclusiveCell, h: FactId, o: FactId|
                g.index.cell_heads.contains_key(c) && #[trigger] g.index.cell_heads[c].contains(h)
                    && #[trigger] g.index.cell_heads[c].contains(o) && o != h
                    ==> !reach::is_ancestor(all, h, o)
        }),
{
    reveal(restart::restarted);
    let n = history.len() as int;
    let all = checkpoint::by_id(history, n);
    let rows = |i: int| restart::history_row_check(history, bootstrap.context, i);
    intake::all_checks_must_pass(rows, n);
    restore::lemma_by_id(history, n);
    let ids = order::ascending(all.dom());
    ordset::lemma_listing(all.dom());
    let cover = |i: int| restart::covered_check(all, g, ids[i]);
    intake::all_checks_must_pass(cover, ids.len() as int);
    assert forall|i: int| 0 <= i < history.len() implies (
    #[trigger] history[i]).checked.refusal is None && history[i].content.mesh_context
        == bootstrap.context by {
        assert(rows(i) is Ok);
    }
    assert forall|i: int, j: int| 0 <= i < j < history.len() implies (#[trigger] history[i]).id != (
    #[trigger] history[j]).id by {
        assert(rows(j) is Ok);
        reordering::lemma_rows_by_id(history, j);
        if history[i].id == history[j].id {
            assert(checkpoint::by_id(history, j).contains_key(history[j].id));
        }
    }
    assert forall|id: FactId, x: FactId|
        all.contains_key(id) && #[trigger] all[id].inputs().contains(x) implies all.contains_key(
        x,
    ) by {
        assert(all[id].inputs().subset_of(all.dom()));
    }
    assert forall|i: int| 0 <= i < cp.facts.len() implies all.contains_key(
        (#[trigger] cp.facts[i]).id,
    ) && all[cp.facts[i].id].content == cp.facts[i].content && all[cp.facts[i].id].signature
        == cp.facts[i].signature by {
        assert(all[cp.facts[i].id].same_as(cp.facts[i]));
    }
    assert forall|id: FactId, c: ExclusiveCell|
        all.contains_key(id) && #[trigger] all[id].advances(c) implies exists|h: FactId| #[trigger]
        multimap::at(g.index.cell_heads, c).contains(h) && (h == id || reach::is_ancestor(
            all,
            id,
            h,
        )) by {
        assert(ids.contains(id));
        let k = choose|k: int| 0 <= k < ids.len() && ids[k] == id;
        assert(cover(k) is Ok);
        assert(restart::is_reached(all, multimap::at(g.index.cell_heads, c), id));
    }
    assert forall|c: ExclusiveCell, h: FactId, o: FactId|
        g.index.cell_heads.contains_key(c) && #[trigger] g.index.cell_heads[c].contains(h)
            && #[trigger] g.index.cell_heads[c].contains(o) && o != h implies !reach::is_ancestor(
        all,
        h,
        o,
    ) by {
        assert(restart::is_undominated(all, g.index.cell_heads[c], h));
    }
}

/// A restart goes by the history in the lineages too, and in what is recorded
/// of selections: every fact is, or is behind, a declared head of each lineage
/// that it takes part in; every declared head takes part and is behind no
/// other; and a relation to a recorded selection is the one that the signed
/// ancestry shows.
pub proof fn restarts_agree_with_signed_ancestry(
    bootstrap: VerifiedBootstrap,
    limits: SemanticAdmissionPolicy,
    cp: CheckpointView,
    history: Seq<FactView>,
    g: GraphView,
    id: FactId,
    s: FactId,
)
    requires
        restart::restarted(bootstrap, limits, cp, history) == Ok::<GraphView, CheckpointError>(g),
        g.facts.contains_key(id),
        g.facts.dom().finite(),
        provenance::selectors_in(g.index.provenance).finite(),
        provenance::selectors_in(g.index.provenance).contains(s),
    ensures
        ({
            let all = checkpoint::by_id(history, history.len() as int);
            &&& forall|x: FactId, d: DeviceId|
                all.contains_key(x) && #[trigger] all[x].participants().contains(d) ==> exists|
                    h: FactId,
                | #[trigger]
                    multimap::at(g.index.authority_heads, d).contains(h) && (h == x
                        || reach::is_ancestor(all, x, h))
            &&& forall|d: DeviceId, h: FactId|
                g.index.authority_heads.contains_key(d) && #[trigger]
                g.index.authority_heads[d].contains(h) ==> all.contains_key(h)
                    && all[h].takes_part(d)
            &&& all.contains_key(s)
            &&& all[s].content.body matches BodyView::AuthorityLineageResolution {
                selected_head,
                ..
            } && ({
                let want = provenance::relation_between(all, id, s, selected_head);
                let found = authority::relation_of(g.index.provenance, id, s);
                &&& want.post_selector || want.selected_before || want.before_selected ==> found
                    == Some(want)
                &&& !(want.post_selector || want.selected_before || want.before_selected) ==> found
                    is None
            })
        }),
{
    reveal(restart::restarted);
    let n = history.len() as int;
    let all = checkpoint::by_id(history, n);
    restore::lemma_by_id(history, n);
    let ids = order::ascending(all.dom());
    ordset::lemma_listing(all.dom());
    let cover = |i: int| restart::covered_check(all, g, ids[i]);
    intake::all_checks_must_pass(cover, ids.len() as int);
    let held = order::ascending(g.facts.dom());
    ordset::lemma_listing(g.facts.dom());
    let contexts = provenance::selectors_in(g.index.provenance);
    let listed = order::ascending(contexts);
    ordset::lemma_listing(contexts);
    let rows = |i: int| restart::row_check(all, g, listed, held[i]);
    intake::all_checks_must_pass(rows, held.len() as int);
    assert(held.contains(id));
    let i = choose|i: int| 0 <= i < held.len() && held[i] == id;
    assert(rows(i) is Ok);
    let each = |k: int| restart::relation_check(all, g, id, listed[k]);
    intake::all_checks_must_pass(each, listed.len() as int);
    assert(listed.contains(s));
    let k = choose|k: int| 0 <= k < listed.len() && listed[k] == s;
    assert(each(k) is Ok);
    assert forall|x: FactId, d: DeviceId|
        all.contains_key(x) && #[trigger] all[x].participants().contains(d) implies exists|
        h: FactId,
    | #[trigger]
        multimap::at(g.index.authority_heads, d).contains(h) && (h == x || reach::is_ancestor(
            all,
            x,
            h,
        )) by {
        assert(ids.contains(x));
        let m = choose|m: int| 0 <= m < ids.len() && ids[m] == x;
        assert(cover(m) is Ok);
        assert(restart::is_reached(all, multimap::at(g.index.authority_heads, d), x));
    }
}

/// A restart has every selection on record that is at or behind a live row.
pub proof fn restarts_have_the_selections_that_matter(
    bootstrap: VerifiedBootstrap,
    limits: SemanticAdmissionPolicy,
    cp: CheckpointView,
    history: Seq<FactView>,
    g: GraphView,
    root: FactId,
    s: FactId,
)
    requires
        restart::restarted(bootstrap, limits, cp, history) == Ok::<GraphView, CheckpointError>(g),
        provenance::live_roots(g).finite(),
        provenance::live_roots(g).contains(root),
        ({
            let all = checkpoint::by_id(history, history.len() as int);
            &&& reach::reach(reach::parent_edges(all), set![root]).contains(s)
            &&& all.contains_key(s)
            &&& all[s].content.body is AuthorityLineageResolution
        }),
    ensures
        provenance::selectors_in(g.index.provenance).contains(s),
{
    reveal(restart::restarted);
    let n = history.len() as int;
    let all = checkpoint::by_id(history, n);
    restore::lemma_by_id(history, n);
    let contexts = provenance::selectors_in(g.index.provenance);
    let roots = order::ascending(provenance::live_roots(g));
    ordset::lemma_listing(provenance::live_roots(g));
    let each = |i: int| restart::root_check(all, contexts, roots[i]);
    intake::all_checks_must_pass(each, roots.len() as int);
    assert(roots.contains(root));
    let i = choose|i: int| 0 <= i < roots.len() && roots[i] == root;
    assert(each(i) is Ok);
    let edges = reach::parent_edges(all);
    assert(edges.dom() =~= all.dom());
    reach::walk_collects_what_is_reachable(edges, seq![root]);
    assert(seq![root].to_set() =~= set![root]) by {
        assert(seq![root][0] == root);
        assert forall|x: FactId| #[trigger] seq![root].to_set().contains(x) <==> x == root by {
            if x == root {
                assert(seq![root].contains(seq![root][0]));
            }
        }
    }
    let past = provenance::ancestors_of(all, root)->Ok_0;
    assert(past.insert(root).contains(s));
    assert(authority::selected_by(all, s) is Some);
}

/// What an author has to carry: all heads of its own lineage, the counting
/// heads of every cell that the body advances, the heads of the lineage of the
/// device that it is about, and, to admit a device, the evidence that stands
/// against it; and nothing else.
pub proof fn authors_carry_all_heads(g: GraphView, body: BodyView, author: DeviceId, h: FactId)
    ensures
        evaluator::carried(g, body, author).contains(h) <==> {
            ||| g.reading().authority_heads(author).contains(h)
            ||| match body {
                BodyView::RoleGrant { target, .. } => g.reading().authority_heads(target).contains(
                    h,
                ) || authority::cell_heads(
                    g.reading(),
                    (ExclusiveCell::Role { subject: target }),
                ).contains(h),
                BodyView::RoleRevoke { target } => g.reading().authority_heads(target).contains(h)
                    || authority::cell_heads(
                    g.reading(),
                    (ExclusiveCell::Role { subject: target }),
                ).contains(h),
                BodyView::Evict { target } => g.reading().authority_heads(target).contains(h)
                    || authority::cell_heads(
                    g.reading(),
                    (ExclusiveCell::Role { subject: target }),
                ).contains(h) || authority::cell_heads(
                    g.reading(),
                    (ExclusiveCell::Membership { subject: target }),
                ).contains(h),
                BodyView::MembershipAdmit { target } => g.reading().authority_heads(
                    target,
                ).contains(h) || authority::cell_heads(
                    g.reading(),
                    (ExclusiveCell::Membership { subject: target }),
                ).contains(h) || authority::stand_down_heads(g.reading(), target).contains(h),
                BodyView::EvictionProof { target, .. } => g.reading().authority_heads(
                    target,
                ).contains(h),
                BodyView::SelfStandDown { device_id, .. } => g.reading().authority_heads(
                    device_id,
                ).contains(h),
                BodyView::Attestation { proposal, .. } => authority::cell_heads(
                    g.reading(),
                    (ExclusiveCell::Decision { proposal }),
                ).contains(h),
                BodyView::Resolution { cell, .. } => authority::cell_heads(
                    g.reading(),
                    cell,
                ).contains(h) || (match cell {
                    ExclusiveCell::Role { subject } => g.reading().authority_heads(
                        subject,
                    ).contains(h),
                    ExclusiveCell::Membership { subject } => g.reading().authority_heads(
                        subject,
                    ).contains(h),
                    ExclusiveCell::Decision { .. } => false,
                }),
                BodyView::AuthorityLineageResolution { subject, .. } =>
                g.reading().authority_heads(subject).contains(h),
            }
        },
{
    let r = g.reading();
    assert forall|c: ExclusiveCell| #[trigger] body.cells().contains(c) <==> match (body, c) {
        (BodyView::RoleGrant { target, .. }, ExclusiveCell::Role { subject }) => target == subject,
        (BodyView::RoleRevoke { target }, ExclusiveCell::Role { subject }) => target == subject,
        (BodyView::Evict { target }, ExclusiveCell::Role { subject }) => target == subject,
        (BodyView::Evict { target }, ExclusiveCell::Membership { subject }) => target == subject,
        (BodyView::MembershipAdmit { target }, ExclusiveCell::Membership { subject }) => target
            == subject,
        (
            BodyView::Attestation { proposal, .. },
            ExclusiveCell::Decision { proposal: decided },
        ) => proposal == decided,
        (BodyView::Resolution { cell: resolved, .. }, _) => resolved == c,
        _ => false,
    } by {
        crate::vocabulary::bodies_contend_where_they_act(body, c);
    }
    assert(body.subjects(author).contains(author));
    match body {
        BodyView::RoleGrant { target, .. } => {
            assert(body.subjects(author).contains(target));
            assert(body.cells().contains(ExclusiveCell::Role { subject: target }));
        },
        BodyView::RoleRevoke { target } => {
            assert(body.subjects(author).contains(target));
            assert(body.cells().contains(ExclusiveCell::Role { subject: target }));
        },
        BodyView::Evict { target } => {
            assert(body.subjects(author).contains(target));
            assert(body.cells().contains(ExclusiveCell::Role { subject: target }));
            assert(body.cells().contains(ExclusiveCell::Membership { subject: target }));
        },
        BodyView::MembershipAdmit { target } => {
            assert(body.subjects(author).contains(target));
            assert(body.cells().contains(ExclusiveCell::Membership { subject: target }));
        },
        BodyView::EvictionProof { target, .. } => {
            assert(body.subjects(author).contains(target));
        },
        BodyView::SelfStandDown { device_id, .. } => {
            assert(body.subjects(author).contains(device_id));
        },
        BodyView::Attestation { proposal, .. } => {
            assert(body.cells().contains(ExclusiveCell::Decision { proposal }));
        },
        BodyView::Resolution { cell, .. } => {
            assert(body.cells().contains(cell));
            match cell {
                ExclusiveCell::Role { subject } => {
                    assert(body.subjects(author).contains(subject));
                },
                ExclusiveCell::Membership { subject } => {
                    assert(body.subjects(author).contains(subject));
                },
                _ => {},
            }
        },
        BodyView::AuthorityLineageResolution { subject, .. } => {
            assert(body.subjects(author).contains(subject));
        },
    }
}

/// The evidence against a device that an admission has to carry: what counts
/// and is an input of no other evidence that counts.
pub proof fn admissions_carry_the_latest_evidence(g: GraphView, d: DeviceId, x: FactId)
    requires
        g.indexes_current(),
        g.index.stand_down == crate::index::stand_down_of(g.facts),
    ensures
        authority::stand_down_heads(g.reading(), d).contains(x) <==> {
            &&& g.facts.contains_key(x)
            &&& authority::is_authoritative(g.reading(), x)
            &&& match g.facts[x].content.body {
                BodyView::EvictionProof { target, .. } => target == d,
                BodyView::SelfStandDown { device_id, .. } => device_id == d,
                _ => false,
            }
            &&& !exists|o: FactId| #[trigger]
                g.facts.contains_key(o) && o != x && authority::is_authoritative(g.reading(), o)
                    && (match g.facts[o].content.body {
                    BodyView::EvictionProof { target, .. } => target == d,
                    BodyView::SelfStandDown { device_id, .. } => device_id == d,
                    _ => false,
                }) && g.facts[o].inputs().contains(x)
        },
{
    let r = g.reading();
    let all = multimap::at(r.index.stand_down, d).filter(
        |id: FactId| authority::is_authoritative(r, id),
    );
    assert forall|o: FactId| #[trigger] all.contains(o) <==> g.facts.contains_key(o)
        && authority::is_authoritative(r, o) && match g.facts[o].content.body {
        BodyView::EvictionProof { target, .. } => target == d,
        BodyView::SelfStandDown { device_id, .. } => device_id == d,
        _ => false,
    } by {
        if g.facts.contains_key(o) && g.facts[o].content.body.stands_down() == Some(d) {
            assert(r.index.stand_down.contains_key(d));
        }
    }
    if exists|o: FactId| #[trigger]
        all.contains(o) && o != x && r.facts.contains_key(o) && r.facts[o].inputs().contains(x) {
        let o = choose|o: FactId| #[trigger]
            all.contains(o) && o != x && r.facts.contains_key(o) && r.facts[o].inputs().contains(x);
        assert(g.facts.contains_key(o));
    }
    if exists|o: FactId| #[trigger]
        g.facts.contains_key(o) && o != x && authority::is_authoritative(g.reading(), o) && (match
        g.facts[o].content.body {
            BodyView::EvictionProof { target, .. } => target == d,
            BodyView::SelfStandDown { device_id, .. } => device_id == d,
            _ => false,
        }) && g.facts[o].inputs().contains(x) {
        let o = choose|o: FactId| #[trigger]
            g.facts.contains_key(o) && o != x && authority::is_authoritative(g.reading(), o) && (
            match g.facts[o].content.body {
                BodyView::EvictionProof { target, .. } => target == d,
                BodyView::SelfStandDown { device_id, .. } => device_id == d,
                _ => false,
            }) && g.facts[o].inputs().contains(x);
        assert(all.contains(o));
    }
}

} // verus!

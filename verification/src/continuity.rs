//! A restart gives back the graph that was written.

use vstd::prelude::*;

use crate::authority;
use crate::canon;
use crate::causal_order;
use crate::checkpoint;
use crate::checkpoint::CheckpointError;
use crate::checks;
use crate::cold;
use crate::content::{BodyView, ExclusiveCell};
use crate::continuation;
use crate::device::DeviceId;
use crate::exactness;
use crate::fact::Facts;
use crate::graph;
use crate::graph::{CellView, GraphView};
use crate::ids::FactId;
use crate::multimap;
use crate::order;
use crate::ordset;
use crate::policy::{SemanticAdmissionPolicy, VerifiedBootstrap};
use crate::projection;
use crate::provenance;
use crate::reach;
use crate::restart;

verus! {

/// Whether every fact carries the lineages of exactly the subjects that its
/// body is about.
pub open spec fn uses_match(facts: Facts) -> bool {
    forall|id: FactId| #[trigger]
        facts.contains_key(id) ==> facts[id].participants() == facts[id].head_subjects()
}

/// Whether a graph is held by a history: its rows are in it, its heads are the
/// heads of it, and what it has on record of typed selectors is what the
/// history says, with every selector at or behind a live row.
pub open spec fn is_held_by(g: GraphView, history: Facts) -> bool {
    let contexts = provenance::selectors_in(g.index.provenance);
    &&& exactness::is_signed_history(history)
    &&& continuation::are_sound(history, g.setting.context_id)
    &&& uses_match(history)
    &&& g.facts.submap_of(history)
    &&& g.index.cell_heads == canon::cell_heads_of(history)
    &&& g.index.authority_heads == canon::lineage_heads_of(history)
    &&& forall|root: FactId, a: FactId|
        provenance::live_roots(g).contains(root) && history.contains_key(a)
            && history[a].is_selector() && #[trigger] reach::reach(
            reach::parent_edges(history),
            set![root],
        ).contains(a) ==> contexts.contains(a)
    &&& forall|s: FactId| #[trigger]
        contexts.contains(s) ==> history.contains_key(s) && history[s].is_selector()
    &&& forall|id: FactId, s: FactId|
        g.facts.contains_key(id) && contexts.contains(s)
            ==> #[trigger] authority::relation_of(g.index.provenance, id, s) == (
        if canon::relation_to(history, id, s).holds() {
            Some(canon::relation_to(history, id, s))
        } else {
            None
        })
}

proof fn lemma_all_pass(check: spec_fn(int) -> Result<(), CheckpointError>, n: int)
    requires
        forall|i: int| 0 <= i < n ==> #[trigger] check(i) == Ok::<(), CheckpointError>(()),
    ensures
        checks::run(check, n) == Ok::<(), CheckpointError>(()),
    decreases n,
{
    if n > 0 {
        lemma_all_pass(check, n - 1);
        assert(check(n - 1) == Ok::<(), CheckpointError>(()));
    }
}

/// A history can be walked from each of its facts.
pub proof fn lemma_walkable(facts: Facts, id: FactId)
    requires
        canon::is_history(facts),
        facts.contains_key(id),
    ensures
        provenance::ancestors_of(facts, id) is Ok,
        provenance::ancestors_of(facts, id)->Ok_0.insert(id) == reach::reach(
            reach::parent_edges(facts),
            set![id],
        ),
        reach::reach(reach::parent_edges(facts), set![id]).subset_of(facts.dom()),
{
    let edges = reach::parent_edges(facts);
    assert(edges.dom() =~= facts.dom());
    assert(seq![id].to_set() =~= set![id]) by {
        assert(seq![id][0] == id);
        assert(seq![id].contains(id));
    }
    reach::walk_collects_what_is_reachable(edges, seq![id]);
    assert forall|x: FactId, y: FactId|
        facts.dom().contains(x) && edges.contains_key(x) && #[trigger] edges[x].contains(
            y,
        ) implies #[trigger] facts.dom().contains(y) by {
        assert(facts[x].content.parents.to_set().contains(y));
        assert(facts[x].inputs().contains(y));
    }
    reach::lemma_reach_least(edges, set![id], facts.dom());
    reach::lemma_reach_closed(edges, set![id]);
    assert(set![id].contains(id));
    assert(provenance::ancestors_of(facts, id)->Ok_0.insert(id) =~= reach::reach(edges, set![id]));
}

/// What inputs reach, and what signed parents do.
proof fn lemma_behind(facts: Facts, x: FactId, t: FactId)
    requires
        exactness::is_signed_history(facts),
        facts.contains_key(t),
    ensures
        reach::is_ancestor(facts, x, t) == reach::is_dominated(facts, facts[t].inputs(), x),
        reach::reach(reach::input_edges(facts), set![t]).contains(x) <==> x == t
            || reach::is_ancestor(facts, x, t),
{
    let edges = reach::input_edges(facts);
    crate::fact::lemma_inputs_finite(facts[t]);
    ordset::lemma_listing(facts[t].inputs());
    reach::lemma_reach_step(edges, t);
    assert(edges[t].to_set() =~= facts[t].inputs());
    assert(exactness::is_signed_through(facts[t]));
    assert(facts[t].inputs() =~= facts[t].content.parents.to_set());
    exactness::lemma_same_reach(facts, facts[t].inputs());
}

/// A member is or is behind a top.
proof fn lemma_reached(facts: Facts, members: Set<FactId>, id: FactId)
    requires
        exactness::is_signed_history(facts),
        members.subset_of(facts.dom()),
        members.contains(id),
    ensures
        restart::is_reached(facts, canon::tops(facts, members), id),
{
    let list = choose|list: Seq<FactId>| #[trigger]
        causal_order::is_causal(facts, list) && list.to_set() == facts.dom();
    assert(facts.dom().contains(id));
    assert(list.to_set().contains(id));
    let i = choose|i: int| 0 <= i < list.len() && list[i] == id;
    reach::lemma_reach_closed(reach::input_edges(facts), set![id]);
    assert(set![id].contains(id));
    let t = exactness::lemma_top_above(facts, list, members, id, i);
    assert(facts.contains_key(t)) by {
        assert(members.contains(t));
    }
    lemma_behind(facts, id, t);
    assert(canon::tops(facts, members).contains(t));
}

/// No top has another behind it.
proof fn lemma_undominated(facts: Facts, members: Set<FactId>, h: FactId)
    requires
        exactness::is_signed_history(facts),
        members.subset_of(facts.dom()),
        canon::tops(facts, members).contains(h),
    ensures
        restart::is_undominated(facts, canon::tops(facts, members), h),
{
    let heads = canon::tops(facts, members);
    if exists|other: FactId| #[trigger]
        heads.contains(other) && other != h && reach::is_ancestor(facts, h, other) {
        let other = choose|other: FactId| #[trigger]
            heads.contains(other) && other != h && reach::is_ancestor(facts, h, other);
        assert(members.contains(other));
        assert(facts.dom().contains(other));
        lemma_behind(facts, h, other);
        assert(members.contains(other) && reach::is_dominated(facts, facts[other].inputs(), h));
    }
}

proof fn lemma_history_passes(g: GraphView, history: Facts)
    requires
        continuation::custody_is_sound(g),
        is_held_by(g, history),
    ensures
        restart::history_check(
            g.setting.context_id,
            checkpoint::written(g),
            checkpoint::values_of(history),
        ) == Ok::<(), CheckpointError>(()),
        checkpoint::by_id(
            checkpoint::values_of(history),
            checkpoint::values_of(history).len() as int,
        ) == history,
{
    reveal(checkpoint::written);
    let context = g.setting.context_id;
    let list = checkpoint::values_of(history);
    let cp = checkpoint::written(g);
    let keys = order::ascending(history.dom());
    continuation::lemma_values_read(history, context);
    ordset::lemma_listing(history.dom());
    let check = |i: int| restart::history_row_check(list, context, i);
    assert forall|i: int| 0 <= i < list.len() implies #[trigger] check(i) == Ok::<
        (),
        CheckpointError,
    >(()) by {
        continuation::lemma_values(history, context, i);
        ordset::lemma_next_is_new(keys, i);
        assert(keys.contains(keys[i]));
        assert(history.contains_key(keys[i]));
        assert(!keys.take(i).to_set().contains(keys[i]));
        assert(list[i] == history[keys[i]]);
    }
    lemma_all_pass(check, list.len() as int);
    assert(restart::is_closed(history));
    let own = order::ascending(g.facts.dom());
    ordset::lemma_listing(g.facts.dom());
    assert forall|i: int| 0 <= i < cp.facts.len() implies history.contains_key(
        (#[trigger] cp.facts[i]).id,
    ) && history[cp.facts[i].id].same_as(cp.facts[i]) by {
        assert(own.contains(own[i]));
        assert(g.facts.contains_key(own[i]));
        assert(cp.facts[i] == g.facts[own[i]]);
    }
}

proof fn lemma_canonical_passes(g: GraphView, history: Facts)
    requires
        continuation::index_is_sound(g),
        g.facts.dom().finite(),
        is_held_by(g, history),
    ensures
        restart::canonical_check(history, continuation::continued(g)) == Ok::<
            (),
            CheckpointError,
        >(()),
{
    let k = continuation::continued(g);
    let ids = order::ascending(history.dom());
    let roots = order::ascending(provenance::live_roots(k));
    let rows = order::ascending(k.facts.dom());
    let contexts = provenance::selectors_in(k.index.provenance);
    let listed = order::ascending(contexts);
    assert(provenance::live_roots(k) == provenance::live_roots(g));
    ordset::lemma_listing(history.dom());
    let covered = |i: int| restart::covered_check(history, k, ids[i]);
    assert forall|i: int| 0 <= i < ids.len() implies #[trigger] covered(i) == Ok::<
        (),
        CheckpointError,
    >(()) by {
        let id = ids[i];
        assert(ids.contains(id));
        assert forall|s: DeviceId| #[trigger]
            history[id].participants().contains(s) implies restart::is_reached(
            history,
            multimap::at(k.index.authority_heads, s),
            id,
        ) by {
            assert(history[id].head_subjects().contains(s));
            exactness::lemma_heads_read(history, s);
            let members = exactness::lineage_members(history, s);
            assert(members.contains(id));
            lemma_reached(history, members, id);
            assert(multimap::at(k.index.authority_heads, s) =~= exactness::lineage_heads(
                history,
                s,
            ));
        }
        assert forall|c: ExclusiveCell| #[trigger]
            history[id].advances(c) implies restart::is_reached(
            history,
            multimap::at(k.index.cell_heads, c),
            id,
        ) by {
            exactness::lemma_cell_heads_read(history, c);
            let members = exactness::cell_members(history, c);
            assert(members.contains(id));
            lemma_reached(history, members, id);
            assert(multimap::at(k.index.cell_heads, c) =~= canon::tops(history, members));
        }
    }
    lemma_all_pass(covered, ids.len() as int);
    assert(restart::uses_are_maximal(history, k.index.authority_heads)) by {
        assert forall|s: DeviceId, h: FactId|
            k.index.authority_heads.contains_key(s)
                && #[trigger] k.index.authority_heads[s].contains(h) implies history.contains_key(
            h,
        ) && history[h].takes_part(s) && restart::is_undominated(
            history,
            k.index.authority_heads[s],
            h,
        ) by {
            let members = exactness::lineage_members(history, s);
            assert(k.index.authority_heads[s] == canon::tops(history, members));
            lemma_undominated(history, members, h);
            assert(members.contains(h));
            assert(history[h].head_subjects().contains(s));
            assert(history[h].participants().contains(s));
        }
    }
    assert(restart::cells_are_maximal(history, k.index.cell_heads)) by {
        assert forall|c: ExclusiveCell, h: FactId|
            k.index.cell_heads.contains_key(c)
                && #[trigger] k.index.cell_heads[c].contains(h) implies history.contains_key(h)
            && history[h].advances(c) && restart::is_undominated(
            history,
            k.index.cell_heads[c],
            h,
        ) by {
            let members = exactness::cell_members(history, c);
            assert(k.index.cell_heads[c] == canon::tops(history, members));
            lemma_undominated(history, members, h);
            assert(members.contains(h));
        }
    }
    let live = provenance::live_roots(k);
    assert(live.subset_of(g.facts.dom()));
    vstd::set_lib::lemma_set_subset_finite(g.facts.dom(), live);
    ordset::lemma_listing(live);
    let rooted = |i: int| restart::root_check(history, contexts, roots[i]);
    assert forall|i: int| 0 <= i < roots.len() implies #[trigger] rooted(i) == Ok::<
        (),
        CheckpointError,
    >(()) by {
        let id = roots[i];
        assert(roots.contains(id));
        assert(g.facts.contains_key(id));
        lemma_walkable(history, id);
        let past = provenance::ancestors_of(history, id)->Ok_0;
        assert(!restart::omits_selector(history, past.insert(id), contexts)) by {
            assert forall|a: FactId| #[trigger]
                past.insert(id).contains(a) && authority::selected_by(
                    history,
                    a,
                ) is Some implies contexts.contains(a) by {
                assert(reach::reach(reach::parent_edges(history), set![id]).contains(a));
                assert(history[a].is_selector());
            }
        }
    }
    lemma_all_pass(rooted, roots.len() as int);
    ordset::lemma_listing(g.facts.dom());
    assert(contexts.subset_of(history.dom()));
    vstd::set_lib::lemma_set_subset_finite(history.dom(), contexts);
    ordset::lemma_listing(contexts);
    let row = |i: int| restart::row_check(history, k, listed, rows[i]);
    assert forall|i: int| 0 <= i < rows.len() implies #[trigger] row(i) == Ok::<
        (),
        CheckpointError,
    >(()) by {
        let id = rows[i];
        assert(rows.contains(id));
        assert(g.facts.contains_key(id));
        lemma_walkable(history, id);
        let related = |j: int| restart::relation_check(history, k, id, listed[j]);
        assert forall|j: int| 0 <= j < listed.len() implies #[trigger] related(j) == Ok::<
            (),
            CheckpointError,
        >(()) by {
            let s = listed[j];
            assert(listed.contains(s));
            assert(contexts.contains(s));
            assert(history.contains_key(canon::selected(history[s])));
            lemma_walkable(history, canon::selected(history[s]));
            assert(authority::relation_of(g.index.provenance, id, s) == (
            if canon::relation_to(history, id, s).holds() {
                Some(canon::relation_to(history, id, s))
            } else {
                None
            }));
        }
        lemma_all_pass(related, listed.len() as int);
    }
    lemma_all_pass(row, rows.len() as int);
}

/// What a graph that a history holds writes is accepted with that history, and
/// continues where the graph stopped: every fact and its order, the quarantine
/// with its indexes and accounts, the derived indexes, the counters, the
/// revisions and the projection are back.
pub proof fn restart_gives_back_what_was_written(
    bootstrap: VerifiedBootstrap,
    limits: SemanticAdmissionPolicy,
    g: GraphView,
    history: Facts,
)
    requires
        g.setting == graph::setting_of(bootstrap, limits),
        continuation::custody_is_sound(g),
        continuation::index_is_sound(g),
        continuation::is_within_limits(g),
        is_held_by(g, history),
    ensures
        restart::restarted(
            bootstrap,
            limits,
            checkpoint::written(g),
            checkpoint::values_of(history),
        ) == Ok::<GraphView, CheckpointError>(continuation::continued(g)),
{
    reveal(restart::restarted);
    continuation::checkpoint_is_read_back(bootstrap, limits, g);
    lemma_history_passes(g, history);
    lemma_canonical_passes(g, history);
}

/// A graph that holds its whole history, and the indexes of it, is held by it.
pub proof fn whole_graph_is_held(g: GraphView)
    requires
        exactness::is_signed_history(g.facts),
        continuation::are_sound(g.facts, g.setting.context_id),
        uses_match(g.facts),
        g.index == canon::index_of(g.facts),
    ensures
        is_held_by(g, g.facts),
{
    let facts = g.facts;
    let rows = g.index.provenance;
    let contexts = provenance::selectors_in(rows);
    assert forall|s: FactId| #[trigger] contexts.contains(s) implies facts.contains_key(s)
        && facts[s].is_selector() by {
        let id = choose|id: FactId| #[trigger] rows.contains_key(id) && rows[id].contains_key(s);
        assert(canon::is_related(facts, id, s));
    }
    assert forall|root: FactId, a: FactId|
        provenance::live_roots(g).contains(root) && facts.contains_key(a)
            && facts[a].is_selector() && #[trigger] reach::reach(
            reach::parent_edges(facts),
            set![root],
        ).contains(a) implies contexts.contains(a) by {
        lemma_live_is_resident(g, root);
        assert(canon::relation_to(facts, root, a).post_selector);
        assert(canon::is_related(facts, root, a));
        assert(rows.contains_key(root) && rows[root].contains_key(a));
    }
    assert forall|id: FactId, s: FactId|
        g.facts.contains_key(id) && contexts.contains(s) implies #[trigger] authority::relation_of(
        rows,
        id,
        s,
    ) == (if canon::relation_to(facts, id, s).holds() {
        Some(canon::relation_to(facts, id, s))
    } else {
        None
    }) by {
        if canon::relation_to(facts, id, s).holds() {
            assert(canon::is_related(facts, id, s));
        }
    }
}

/// What live state rests on is at hand.
proof fn lemma_live_is_resident(g: GraphView, root: FactId)
    requires
        canon::is_history(g.facts),
        g.index == canon::index_of(g.facts),
        provenance::live_roots(g).contains(root),
    ensures
        g.facts.contains_key(root),
{
    let ix = g.index;
    if multimap::members(ix.cell_heads).contains(root) {
        let c = choose|c: ExclusiveCell|
            ix.cell_heads.contains_key(c) && #[trigger] ix.cell_heads[c].contains(root);
        assert(exactness::cell_members(g.facts, c).contains(root));
    } else if multimap::members(ix.authority_heads).contains(root) {
        let s = choose|s: DeviceId|
            ix.authority_heads.contains_key(s) && #[trigger] ix.authority_heads[s].contains(root);
        assert(exactness::lineage_members(g.facts, s).contains(root));
    } else if multimap::members(ix.stand_down).contains(root) {
        let s = choose|s: DeviceId|
            ix.stand_down.contains_key(s) && #[trigger] ix.stand_down[s].contains(root);
    }
}

/// Whether a fact is at or behind a live row.
spec fn is_supporting(g: GraphView, heads: Set<FactId>, x: FactId) -> bool {
    exists|h: FactId| #[trigger]
        heads.contains(h) && g.facts.contains_key(h) && reach::reach(
            reach::parent_edges(g.facts),
            set![h],
        ).contains(x)
}

/// What an input or a selection of a supporting fact is, is supporting.
proof fn lemma_supporting_on(g: GraphView, heads: Set<FactId>, x: FactId, y: FactId)
    requires
        exactness::is_signed_history(g.facts),
        is_supporting(g, heads, x),
        g.facts.contains_key(x),
        g.facts[x].inputs().contains(y),
    ensures
        is_supporting(g, heads, y),
{
    let edges = reach::parent_edges(g.facts);
    let h = choose|h: FactId| #[trigger]
        heads.contains(h) && g.facts.contains_key(h) && reach::reach(edges, set![h]).contains(x);
    reach::lemma_reach_closed(edges, set![h]);
    assert(exactness::is_signed_through(g.facts[x]));
    assert(g.facts[x].content.parents.to_set().contains(y));
    assert(edges[x].contains(y));
    assert(reach::reach(edges, set![h]).contains(y));
}

/// Every row that stays is at or behind a live one, or not at hand.
proof fn lemma_kept_supports(g: GraphView, heads: Set<FactId>, x: FactId)
    requires
        exactness::is_signed_history(g.facts),
        g.index == canon::index_of(g.facts),
        g.facts.contains_key(x),
        projection::current(g) == projection::projected(g.reading()),
        multimap::members(g.index.cell_heads).subset_of(heads),
        g.indexes_current(),
        cold::kept_rows(
            g,
            projection::current(g),
            heads,
            cold::active_selectors(g.reading(), heads),
        ).contains(x),
    ensures
        is_supporting(g, heads, x),
{
    let edges = reach::parent_edges(g.facts);
    let active = cold::active_selectors(g.reading(), heads);
    let first = heads.union(active).union(cold::selections_of(g.facts, active));
    if first.contains(x) {
        lemma_first_supports(g, heads, x);
    } else if cold::settled_rows(projection::current(g)).contains(x) {
        lemma_settled_supports(g, heads, x);
    } else {
        let y = choose|y: FactId| #[trigger]
            first.contains(y) && g.facts.contains_key(y) && g.facts[y].inputs().contains(x);
        lemma_first_supports(g, heads, y);
        lemma_supporting_on(g, heads, y, x);
    }
}

/// What a cell is settled at is at or behind its head.
proof fn lemma_settled_supports(g: GraphView, heads: Set<FactId>, x: FactId)
    requires
        exactness::is_signed_history(g.facts),
        g.index == canon::index_of(g.facts),
        g.indexes_current(),
        projection::current(g) == projection::projected(g.reading()),
        multimap::members(g.index.cell_heads).subset_of(heads),
        cold::settled_rows(projection::current(g)).contains(x),
    ensures
        is_supporting(g, heads, x),
{
    let p = projection::current(g);
    let r = g.reading();
    let c = choose|c: ExclusiveCell| #[trigger] projection::value_of(p, c) == Some(x);
    reveal(projection::cell_state);
    assert(projection::cell_state(r, c) == Some(CellView::Value(x)));
    assert(r == exactness::reading_of(g.facts));
    exactness::lemma_cell_heads_read(g.facts, c);
    let raw = r.raw_heads(c);
    let counting = raw.filter(|id: FactId| authority::is_authoritative(r, id));
    vstd::set_lib::lemma_set_subset_finite(raw, counting);
    ordset::lemma_listing(raw);
    ordset::lemma_listing(counting);
    let list = authority::cell_heads(r, c);
    let h = list[0];
    assert(list.contains(h));
    assert(raw.contains(h));
    assert(g.index.cell_heads.contains_key(c));
    assert(g.index.cell_heads[c].contains(h));
    assert(multimap::members(g.index.cell_heads).contains(h));
    reach::lemma_reach_closed(reach::parent_edges(g.facts), set![h]);
    assert(set![h].contains(h));
    lemma_chain_supports(g, heads, c, h, Set::empty());
}

/// A chain of resolutions ends at or behind where it begins.
proof fn lemma_chain_supports(
    g: GraphView,
    heads: Set<FactId>,
    c: ExclusiveCell,
    id: FactId,
    seen: Set<FactId>,
)
    requires
        exactness::is_signed_history(g.facts),
        is_supporting(g, heads, id),
    ensures
        is_supporting(g, heads, projection::settled(g.facts, c, id, seen)),
    decreases g.facts.dom().difference(seen).len(),
{
    let facts = g.facts;
    if facts.contains_key(id) && !seen.contains(id) {
        match facts[id].content.body {
            BodyView::Resolution { cell, cited_heads, selected_head } => {
                if cell == c && !seen.insert(id).contains(selected_head) {
                    assert(exactness::is_signed_through(facts[id]));
                    assert(facts[id].content.body.support().contains(selected_head));
                    assert(facts[id].inputs().contains(selected_head));
                    lemma_supporting_on(g, heads, id, selected_head);
                    assert(reach::parent_edges(facts).dom() =~= facts.dom());
                    reach::lemma_unseen(reach::parent_edges(facts), seen, id);
                    lemma_chain_supports(g, heads, c, selected_head, seen.insert(id));
                }
            },
            _ => {},
        }
    }
}

proof fn lemma_first_supports(g: GraphView, heads: Set<FactId>, x: FactId)
    requires
        exactness::is_signed_history(g.facts),
        g.index == canon::index_of(g.facts),
        g.facts.contains_key(x),
        heads.union(cold::active_selectors(g.reading(), heads)).union(
            cold::selections_of(g.facts, cold::active_selectors(g.reading(), heads)),
        ).contains(x),
    ensures
        is_supporting(g, heads, x),
{
    let edges = reach::parent_edges(g.facts);
    let active = cold::active_selectors(g.reading(), heads);
    if heads.contains(x) {
        reach::lemma_reach_closed(edges, set![x]);
        assert(set![x].contains(x));
    } else if active.contains(x) {
        lemma_active_supports(g, heads, x);
    } else {
        let s = choose|s: FactId| #[trigger]
            active.contains(s) && authority::selected_by(g.facts, s) == Some(x);
        lemma_active_supports(g, heads, s);
        assert(g.facts[s].content.body.support().contains(x)) by {
            assert(exactness::is_signed_through(g.facts[s]));
        }
        assert(g.facts[s].inputs().contains(x));
        lemma_supporting_on(g, heads, s, x);
    }
}

proof fn lemma_active_supports(g: GraphView, heads: Set<FactId>, s: FactId)
    requires
        g.index == canon::index_of(g.facts),
        cold::active_selectors(g.reading(), heads).contains(s),
    ensures
        is_supporting(g, heads, s),
        g.facts.contains_key(s),
        g.facts[s].is_selector(),
{
    let h = choose|h: FactId| #[trigger]
        heads.contains(h) && authority::is_post(g.reading().index.provenance, h, s)
            && authority::selected_by(g.reading().facts, s) == Some(
            g.reading().index.provenance[h][s].selected,
        );
    assert(canon::is_related(g.facts, h, s));
}

/// A selector at or behind a supporting fact is active, and stays on record.
proof fn lemma_selector_stays(g: GraphView, heads: Set<FactId>, x: FactId, a: FactId)
    requires
        exactness::is_signed_history(g.facts),
        g.index == canon::index_of(g.facts),
        is_supporting(g, heads, x),
        g.facts.contains_key(a),
        g.facts[a].is_selector(),
        reach::reach(reach::parent_edges(g.facts), set![x]).contains(a),
    ensures
        cold::active_selectors(g.reading(), heads).contains(a),
        exists|h: FactId| #[trigger]
            heads.contains(h) && g.facts.contains_key(h) && g.index.provenance.contains_key(h)
                && g.index.provenance[h].contains_key(a),
{
    let edges = reach::parent_edges(g.facts);
    let h = choose|h: FactId| #[trigger]
        heads.contains(h) && g.facts.contains_key(h) && reach::reach(edges, set![h]).contains(x);
    assert(set![x].subset_of(reach::reach(edges, set![h])));
    reach::lemma_reach_monotone(edges, set![x], set![h]);
    assert(canon::relation_to(g.facts, h, a).post_selector);
    assert(canon::is_related(g.facts, h, a));
    assert(authority::is_post(g.index.provenance, h, a));
}

/// A graph that was retired is held by the history that it had.
pub proof fn retired_graph_is_held(g: GraphView)
    requires
        exactness::is_signed_history(g.facts),
        continuation::are_sound(g.facts, g.setting.context_id),
        uses_match(g.facts),
        g.index == canon::index_of(g.facts),
        g.indexes_current(),
        projection::current(g) == projection::projected(g.reading()),
    ensures
        is_held_by(cold::retired(g), g.facts),
{
    reveal(cold::retired);
    whole_graph_is_held(g);
    if cold::is_due(g) {
        let h = cold::retired(g);
        let facts = g.facts;
        let heads = cold::live_rows(g, projection::current(g));
        let active = cold::active_selectors(g.reading(), heads);
        let kept = cold::kept_rows(g, projection::current(g), heads, active);
        let sel = cold::kept_selectors(g, kept, active);
        let was = g.index.provenance;
        let rows = h.index.provenance;
        let contexts = provenance::selectors_in(rows);
        let before = provenance::selectors_in(was);
        assert(rows == cold::cut_rows(was, kept, sel));
        assert forall|s: FactId| #[trigger] contexts.contains(s) implies sel.contains(s)
            && before.contains(s) by {
            let id = choose|id: FactId| #[trigger] rows.contains_key(id) && rows[id].contains_key(
                s,
            );
            assert(was.contains_key(id) && was[id].contains_key(s));
        }
        assert forall|root: FactId, a: FactId|
            provenance::live_roots(h).contains(root) && facts.contains_key(a)
                && facts[a].is_selector() && #[trigger] reach::reach(
                reach::parent_edges(facts),
                set![root],
            ).contains(a) implies contexts.contains(a) by {
            assert(provenance::live_roots(g).contains(root)) by {
                if multimap::members(h.index.stand_down).contains(root) {
                    let s = choose|s: DeviceId|
                        h.index.stand_down.contains_key(s)
                            && #[trigger] h.index.stand_down[s].contains(root);
                    assert(g.index.stand_down.contains_key(s) && g.index.stand_down[s].contains(
                        root,
                    ));
                }
            }
            lemma_live_is_resident(g, root);
            assert(kept.contains(root)) by {
                if multimap::members(h.index.stand_down).contains(root) {
                    let s = choose|s: DeviceId|
                        h.index.stand_down.contains_key(s)
                            && #[trigger] h.index.stand_down[s].contains(root);
                }
            }
            lemma_kept_supports(g, heads, root);
            lemma_selector_stays(g, heads, root, a);
            let top = choose|top: FactId| #[trigger]
                heads.contains(top) && facts.contains_key(top) && was.contains_key(top)
                    && was[top].contains_key(a);
            assert(kept.contains(top));
            assert(was[top].restrict(sel).contains_key(a));
            assert(rows.contains_key(top) && rows[top].contains_key(a));
        }
        assert forall|id: FactId, s: FactId|
            h.facts.contains_key(id) && contexts.contains(
                s,
            ) implies #[trigger] authority::relation_of(rows, id, s) == (
        if canon::relation_to(facts, id, s).holds() {
            Some(canon::relation_to(facts, id, s))
        } else {
            None
        }) by {
            assert(authority::relation_of(was, id, s) == (if canon::relation_to(
                facts,
                id,
                s,
            ).holds() {
                Some(canon::relation_to(facts, id, s))
            } else {
                None
            }));
            assert(kept.contains(id));
            assert(authority::relation_of(rows, id, s) == authority::relation_of(was, id, s)) by {
                if was.contains_key(id) && was[id].contains_key(s) {
                    assert(was[id].restrict(sel).contains_key(s));
                }
            }
        }
    }
}

} // verus!

//! Graphs that admissions reach: their custody, indexes and counters agree.

use vstd::prelude::*;

use crate::accounting;
use crate::admission;
use crate::authority;
use crate::canon;
use crate::charge;
use crate::checkpoint;
use crate::content::ExclusiveCell;
use crate::continuation;
use crate::continuity;
use crate::costs;
use crate::costs::CostView;
use crate::coverage;
use crate::device::DeviceId;
use crate::error::SemanticError;
use crate::exactness;
use crate::fact::{Facts, FactView};
use crate::graph;
use crate::graph::{GraphView, ProjectionView, RowView, Selection};
use crate::ids::FactId;
use crate::index;
use crate::multimap;
use crate::order;
use crate::ordset;
use crate::projection;
use crate::provenance;
use crate::quarantine;
use crate::reach;
use crate::refit;
use crate::retry;
use crate::validation;

verus! {

/// Whether a fact signs for all that it builds on, and carries the lineages of
/// exactly the subjects that its body is about.
pub open spec fn is_matched(f: FactView) -> bool {
    exactness::is_signed_through(f) && f.participants() == f.head_subjects()
}

/// Whether a projection is finite and names facts at hand.
pub open spec fn is_settled(facts: Facts, p: ProjectionView) -> bool {
    &&& p.cells.dom().finite()
    &&& p.stand_down.dom().finite()
    &&& checkpoint::is_resident(facts, p)
}

/// Whether the derived state of a history is finite.
pub open spec fn is_bounded(g: GraphView) -> bool {
    let ix = g.index;
    &&& continuation::is_finite(ix.cell_heads)
    &&& continuation::is_finite(ix.authority_heads)
    &&& continuation::is_finite(ix.authority_facts)
    &&& continuation::is_finite(ix.selectors)
    &&& continuation::is_finite(ix.stand_down)
    &&& ix.cells.finite()
}

/// Whether a graph holds its whole history with the indexes of it, and its
/// custody and its counters agree with what it holds.
pub open spec fn is_consistent(g: GraphView) -> bool {
    &&& g.indexes_current()
    &&& g.fence.staged_cold_pending == 0
    &&& exactness::is_signed_history(g.facts)
    &&& g.index == canon::index_of(g.facts)
    &&& continuity::uses_match(g.facts)
    &&& forall|id: FactId| #[trigger]
        g.quarantine.facts.contains_key(id) ==> is_matched(g.quarantine.facts[id])
    &&& quarantine::owned(g)
    &&& continuation::custody_is_sound(g)
    &&& is_bounded(g)
    &&& is_settled(g.facts, projection::current(g))
    &&& continuation::is_within_limits(g)
    &&& g.ledger.fact_count == g.facts.dom().len()
    &&& g.ledger.index_bytes <= g.setting.limits.max_database_bytes
}

/// Whether a graph is consistent, and keeps the projection of its facts.
pub open spec fn is_sound(g: GraphView) -> bool {
    is_consistent(g) && exactness::is_exact(g)
}

/// The end of a chain of resolutions is at hand.
proof fn lemma_settled_resident(facts: Facts, c: ExclusiveCell, id: FactId, seen: Set<FactId>)
    requires
        exactness::is_signed_history(facts),
        facts.contains_key(id),
    ensures
        facts.contains_key(projection::settled(facts, c, id, seen)),
    decreases facts.dom().difference(seen).len(),
{
    if !seen.contains(id) {
        match facts[id].content.body {
            crate::content::BodyView::Resolution { cell, cited_heads, selected_head } => {
                if cell == c && !seen.insert(id).contains(selected_head) {
                    assert(exactness::is_signed_through(facts[id]));
                    assert(facts[id].content.body.support().contains(selected_head));
                    assert(facts[id].inputs().contains(selected_head));
                    assert(facts.dom().contains(selected_head));
                    assert(reach::parent_edges(facts).dom() =~= facts.dom());
                    reach::lemma_unseen(reach::parent_edges(facts), seen, id);
                    lemma_settled_resident(facts, c, selected_head, seen.insert(id));
                }
            },
            _ => {},
        }
    }
}

/// The state of a cell names facts at hand, and only a known cell has one.
proof fn lemma_cell_resident(facts: Facts, c: ExclusiveCell)
    requires
        exactness::is_signed_history(facts),
    ensures
        projection::cell_state(exactness::reading_of(facts), c) matches Some(s)
            ==> checkpoint::cell_is_resident(facts, s) && index::cells_of(facts).contains(c),
{
    reveal(projection::cell_state);
    let g = exactness::reading_of(facts);
    exactness::lemma_cell_heads_read(facts, c);
    let raw = g.raw_heads(c);
    vstd::set_lib::lemma_set_subset_finite(facts.dom(), raw);
    let counting = raw.filter(|id: FactId| authority::is_authoritative(g, id));
    vstd::set_lib::lemma_set_subset_finite(raw, counting);
    ordset::lemma_listing(raw);
    ordset::lemma_listing(counting);
    let heads = authority::cell_heads(g, c);
    assert forall|i: int| 0 <= i < heads.len() implies raw.contains(#[trigger] heads[i]) by {
        assert(heads.contains(heads[i]));
    }
    if heads.len() > 0 {
        assert(raw.contains(heads[0]));
        assert(facts.contains_key(heads[0]) && facts[heads[0]].advances(c));
        if heads.len() == 1 {
            lemma_settled_resident(facts, c, heads[0], Set::empty());
        } else {
            assert forall|i: int| 0 <= i < heads.len() implies facts.contains_key(
                #[trigger] heads[i],
            ) by {
                assert(raw.contains(heads[i]));
            }
        }
    }
}

/// The evidence that stands a device down is at hand.
proof fn lemma_stand_resident(facts: Facts, d: DeviceId)
    requires
        exactness::is_signed_history(facts),
    ensures
        projection::stand_state(exactness::reading_of(facts), d) matches Some(x)
            ==> facts.contains_key(x) && index::stand_down_of(facts).contains_key(d),
{
    reveal(projection::stand_state);
    let g = exactness::reading_of(facts);
    let all = multimap::at(g.evidence(), d);
    let counting = all.filter(|id: FactId| authority::is_authoritative(g, id));
    if counting != Set::<FactId>::empty() {
        assert(all.subset_of(facts.dom()));
        vstd::set_lib::lemma_set_subset_finite(facts.dom(), counting);
        ordset::lemma_listing(counting);
        let list = order::ascending(counting);
        assert(list.len() > 0) by {
            if list.len() == 0 {
                assert(list.to_set() =~= Set::<FactId>::empty());
            }
        }
        assert(list.contains(list[0]));
        assert(all.contains(list[0]));
    }
}

/// A projection brought up to date stays finite and names facts at hand.
proof fn lemma_updated_settled(
    facts: Facts,
    p: ProjectionView,
    cells: Set<ExclusiveCell>,
    subjects: Set<DeviceId>,
)
    requires
        exactness::is_signed_history(facts),
        is_settled(facts, p),
        index::cells_of(facts).finite(),
        index::stand_down_of(facts).dom().finite(),
    ensures
        is_settled(
            facts,
            projection::updated(p, exactness::reading_of(facts), cells, subjects),
        ),
{
    let g = exactness::reading_of(facts);
    let q = projection::updated(p, g, cells, subjects);
    assert forall|c: ExclusiveCell| #[trigger] q.cells.contains_key(
        c,
    ) implies checkpoint::cell_is_resident(facts, q.cells[c]) && (p.cells.contains_key(c)
        || index::cells_of(facts).contains(c)) by {
        if cells.contains(c) {
            lemma_cell_resident(facts, c);
        } else {
            assert(p.cells.contains_key(c));
        }
    }
    assert forall|d: DeviceId| #[trigger] q.stand_down.contains_key(d) implies facts.contains_key(
        q.stand_down[d],
    ) && (p.stand_down.contains_key(d) || index::stand_down_of(facts).contains_key(d)) by {
        if subjects.contains(d) {
            lemma_stand_resident(facts, d);
        } else {
            assert(p.stand_down.contains_key(d));
        }
    }
    let most = p.cells.dom().union(index::cells_of(facts));
    assert(q.cells.dom().subset_of(most));
    vstd::set_lib::lemma_set_subset_finite(most, q.cells.dom());
    let more = p.stand_down.dom().union(index::stand_down_of(facts).dom());
    assert(q.stand_down.dom().subset_of(more));
    vstd::set_lib::lemma_set_subset_finite(more, q.stand_down.dom());
}

/// The full projection of a history is finite and names facts at hand.
pub proof fn lemma_projected_settled(facts: Facts)
    requires
        exactness::is_signed_history(facts),
        index::cells_of(facts).finite(),
        index::stand_down_of(facts).dom().finite(),
    ensures
        is_settled(facts, projection::projected(exactness::reading_of(facts))),
{
    let g = exactness::reading_of(facts);
    lemma_updated_settled(facts, projection::nothing(), g.known_cells(), g.evidence().dom());
}

/// The indexes of a longer history stay finite.
proof fn lemma_bounded_on(facts: Facts, f: FactView)
    requires
        canon::is_history(facts),
        canon::extends(facts, f),
        f.participants() == f.head_subjects(),
        continuation::is_finite(canon::cell_heads_of(facts)),
        continuation::is_finite(canon::lineage_heads_of(facts)),
        continuation::is_finite(index::participants_of(facts)),
        continuation::is_finite(canon::selections_of(facts)),
        continuation::is_finite(index::stand_down_of(facts)),
        index::cells_of(facts).finite(),
    ensures
        ({
            let all = facts.insert(f.id, f);
            &&& continuation::is_finite(canon::cell_heads_of(all))
            &&& continuation::is_finite(canon::lineage_heads_of(all))
            &&& continuation::is_finite(index::participants_of(all))
            &&& continuation::is_finite(canon::selections_of(all))
            &&& continuation::is_finite(index::stand_down_of(all))
            &&& index::cells_of(all).finite()
        }),
{
    let all = facts.insert(f.id, f);
    assert(all.dom() =~= facts.dom().insert(f.id));
    let cells = f.content.body.cells().to_set();
    let about = f.content.body.subjects(f.content.author);
    let subjects = f.head_subjects();
    assert(subjects.subset_of(about));
    vstd::set_lib::lemma_set_subset_finite(about, subjects);
    assert forall|id: FactId| #[trigger] all.contains_key(id) implies id == f.id
        || facts.contains_key(id) by {}
    let a = canon::cell_heads_of(all);
    let a0 = canon::cell_heads_of(facts).dom().union(cells);
    assert forall|c: ExclusiveCell| #[trigger] a.dom().contains(c) implies a0.contains(c) by {
        let id = choose|id: FactId| #[trigger] all.contains_key(id) && all[id].advances(c);
        if id != f.id {
            assert(facts.contains_key(id) && facts[id].advances(c));
        }
    }
    vstd::set_lib::lemma_set_subset_finite(a0, a.dom());
    assert forall|c: ExclusiveCell| #[trigger] a.contains_key(c) implies a[c].finite() by {
        assert(a[c].subset_of(all.dom()));
        vstd::set_lib::lemma_set_subset_finite(all.dom(), a[c]);
    }
    let b = canon::lineage_heads_of(all);
    let b0 = canon::lineage_heads_of(facts).dom().union(subjects);
    assert forall|s: DeviceId| #[trigger] b.dom().contains(s) implies b0.contains(s) by {
        let id = choose|id: FactId| #[trigger]
            all.contains_key(id) && all[id].head_subjects().contains(s);
        if id != f.id {
            assert(facts.contains_key(id) && facts[id].head_subjects().contains(s));
        }
    }
    vstd::set_lib::lemma_set_subset_finite(b0, b.dom());
    assert forall|s: DeviceId| #[trigger] b.contains_key(s) implies b[s].finite() by {
        assert(b[s].subset_of(all.dom()));
        vstd::set_lib::lemma_set_subset_finite(all.dom(), b[s]);
    }
    let d = index::participants_of(all);
    let d0 = index::participants_of(facts).dom().union(subjects);
    assert forall|s: DeviceId| #[trigger] d.dom().contains(s) implies d0.contains(s) by {
        let id = choose|id: FactId| #[trigger] all.contains_key(id) && all[id].takes_part(s);
        if id != f.id {
            assert(facts.contains_key(id) && facts[id].takes_part(s));
        } else {
            assert(f.participants().contains(s));
        }
    }
    vstd::set_lib::lemma_set_subset_finite(d0, d.dom());
    assert forall|s: DeviceId| #[trigger] d.contains_key(s) implies d[s].finite() by {
        assert(d[s].subset_of(all.dom()));
        vstd::set_lib::lemma_set_subset_finite(all.dom(), d[s]);
    }
    let e = canon::selections_of(all);
    let e0 = canon::selections_of(facts).dom().union(subjects);
    assert forall|s: DeviceId| #[trigger] e.dom().contains(s) implies e0.contains(s) by {
        let id = choose|id: FactId| #[trigger]
            all.contains_key(id) && canon::selects_for(all[id], s);
        if id != f.id {
            assert(facts.contains_key(id) && canon::selects_for(facts[id], s));
        } else {
            assert(about.contains(s));
            assert(!f.payload_local(s));
        }
    }
    vstd::set_lib::lemma_set_subset_finite(e0, e.dom());
    assert forall|s: DeviceId| #[trigger] e.contains_key(s) implies e[s].finite() by {
        let old_set = multimap::at(canon::selections_of(facts), s);
        let more = old_set.insert(Selection { selector: f.id, selected: canon::selected(f) });
        assert forall|x: Selection| #[trigger] e[s].contains(x) implies more.contains(x) by {
            if x.selector != f.id {
                assert(facts.contains_key(x.selector) && canon::selects_for(
                    facts[x.selector],
                    s,
                ));
            }
        }
        vstd::set_lib::lemma_set_subset_finite(more, e[s]);
    }
    let h = index::stand_down_of(all);
    let h0 = match f.content.body.stands_down() {
        Some(x) => index::stand_down_of(facts).dom().insert(x),
        None => index::stand_down_of(facts).dom(),
    };
    assert forall|s: DeviceId| #[trigger] h.dom().contains(s) implies h0.contains(s) by {
        let id = choose|id: FactId| #[trigger]
            all.contains_key(id) && all[id].content.body.stands_down() == Some(s);
        if id != f.id {
            assert(facts.contains_key(id) && facts[id].content.body.stands_down() == Some(s));
        }
    }
    vstd::set_lib::lemma_set_subset_finite(h0, h.dom());
    assert forall|s: DeviceId| #[trigger] h.contains_key(s) implies h[s].finite() by {
        assert(h[s].subset_of(all.dom()));
        vstd::set_lib::lemma_set_subset_finite(all.dom(), h[s]);
    }
    let k = index::cells_of(all);
    let k0 = index::cells_of(facts).union(cells);
    assert forall|c: ExclusiveCell| #[trigger] k.contains(c) implies k0.contains(c) by {
        let id = choose|id: FactId| #[trigger] all.contains_key(id) && all[id].advances(c);
        if id != f.id {
            assert(facts.contains_key(id) && facts[id].advances(c));
        }
    }
    vstd::set_lib::lemma_set_subset_finite(k0, k);
}

/// The provenance of a history is finite and witnessed.
proof fn lemma_provenance_witnessed(facts: Facts)
    requires
        exactness::is_signed_history(facts),
    ensures
        continuation::rows_are_witnessed(facts, canon::provenance_of(facts)),
{
    let rows = canon::provenance_of(facts);
    assert(rows.dom().subset_of(facts.dom())) by {
        assert forall|id: FactId| #[trigger] rows.dom().contains(id) implies facts.dom().contains(
            id,
        ) by {
            let s = choose|s: FactId| #[trigger] canon::is_related(facts, id, s);
        }
    }
    vstd::set_lib::lemma_set_subset_finite(facts.dom(), rows.dom());
    assert forall|id: FactId| #[trigger] rows.contains_key(id) implies facts.contains_key(id)
        && rows[id].dom().finite() && rows[id].dom().len() > 0 by {
        assert(facts.dom().contains(id));
        assert(rows[id].dom().subset_of(facts.dom()));
        vstd::set_lib::lemma_set_subset_finite(facts.dom(), rows[id].dom());
        let s = choose|s: FactId| #[trigger] canon::is_related(facts, id, s);
        assert(rows[id].dom().contains(s));
        if rows[id].dom().len() == 0 {
            assert(rows[id].dom() =~= Set::<FactId>::empty());
        }
    }
    assert forall|id: FactId, s: FactId|
        rows.contains_key(id) && #[trigger] rows[id].contains_key(s) implies checkpoint::is_witnessed(
        facts,
        s,
        rows[id][s],
    ) by {
        assert(canon::is_related(facts, id, s));
        assert(exactness::is_signed_through(facts[s]));
        assert(facts.contains_key(canon::selected(facts[s])));
    }
}

/// The derived state of a consistent graph can be written and read.
pub proof fn consistent_graph_can_be_written(g: GraphView)
    requires
        is_consistent(g),
    ensures
        continuation::index_is_sound(g),
        continuity::is_held_by(g, g.facts),
        charge::is_measured(g),
{
    lemma_provenance_witnessed(g.facts);
    continuity::whole_graph_is_held(g);
    let ix = g.index;
    assert forall|x: FactId| #[trigger] multimap::members(ix.cell_heads).contains(
        x,
    ) implies g.facts.dom().contains(x) by {
        let c = choose|c: ExclusiveCell|
            ix.cell_heads.contains_key(c) && #[trigger] ix.cell_heads[c].contains(x);
        assert(exactness::cell_members(g.facts, c).contains(x));
    }
    assert forall|x: FactId| #[trigger] multimap::members(ix.authority_heads).contains(
        x,
    ) implies g.facts.dom().contains(x) by {
        let s = choose|s: DeviceId|
            ix.authority_heads.contains_key(s) && #[trigger] ix.authority_heads[s].contains(x);
        assert(exactness::lineage_members(g.facts, s).contains(x));
    }
    assert forall|x: FactId| #[trigger] multimap::members(ix.stand_down).contains(
        x,
    ) implies g.facts.dom().contains(x) by {
        let s = choose|s: DeviceId|
            ix.stand_down.contains_key(s) && #[trigger] ix.stand_down[s].contains(x);
    }
    assert forall|c: ExclusiveCell| #[trigger]
        ix.cell_heads.contains_key(c) implies ix.cell_heads[c].subset_of(g.facts.dom()) by {
        assert forall|x: FactId| #[trigger] ix.cell_heads[c].contains(x) implies g.facts.dom().contains(
            x,
        ) by {
            assert(exactness::cell_members(g.facts, c).contains(x));
        }
    }
    assert forall|s: DeviceId| #[trigger]
        ix.authority_heads.contains_key(s) implies ix.authority_heads[s].subset_of(
        g.facts.dom(),
    ) by {
        assert forall|x: FactId| #[trigger] ix.authority_heads[s].contains(
            x,
        ) implies g.facts.dom().contains(x) by {
            assert(exactness::lineage_members(g.facts, s).contains(x));
        }
    }
}

/// A graph that was just started is sound.
pub proof fn started_graph_is_sound(setting: graph::SettingView)
    ensures
        is_sound(graph::started(setting)),
{
    let g = graph::started(setting);
    exactness::started_graph_is_exact(setting);
    crate::standing::started_graph_stands(setting);
    canon::indexes_start_empty(setting);
    let none = Map::<FactId, FactView>::empty();
    assert(g.facts == none);
    assert(g.index == canon::index_of(none));
    assert(g.order.to_set() =~= g.facts.dom());
    let p = projection::projected(g.reading());
    assert(p.cells =~= Map::empty());
    assert(p.stand_down =~= Map::empty());
    assert(projection::current(g) == p);
    assert(accounting::residency(g.index) == 0) by {
        assert(g.index == graph::no_index());
    }
}

/// A fact that is new to a graph, verified, of its mesh, and matched.
pub open spec fn is_candidate(g: GraphView, f: FactView) -> bool {
    &&& f.checked.refusal is None
    &&& f.content.mesh_context == g.setting.context_id
    &&& is_matched(f)
    &&& !g.facts.contains_key(f.id)
    &&& !g.quarantine.facts.contains_key(f.id)
}

/// A waiter that joins the quarantine keeps the graph consistent.
proof fn lemma_deferred_consistent(g: GraphView, f: FactView, cost: CostView, reserved: bool)
    requires
        is_consistent(g),
        is_candidate(g, f),
        cost.missing.to_set() == costs::missing_inputs(g, f),
        quarantine::owned(admission::deferred(g, f, cost, reserved).0),
    ensures
        admission::deferred(g, f, cost, reserved).1 is Ok ==> is_consistent(
            admission::deferred(g, f, cost, reserved).0,
        ),
{
    let (h, result) = admission::deferred(g, f, cost, reserved);
    if result is Ok {
        let q = g.quarantine;
        let r = h.quarantine;
        let missing = cost.missing.to_set();
        assert(r.facts.dom() =~= q.facts.dom().insert(f.id));
        assert(r.missing.dom() =~= q.missing.dom().insert(f.id));
        assert(r.waiting.dom() =~= q.waiting.dom().union(missing));
        assert forall|k: FactId| #[trigger] r.waiting.contains_key(k) implies r.waiting[k].finite() by {
            if missing.contains(k) {
                assert(multimap::at(q.waiting, k).finite());
            }
        }
        assert forall|k: FactId| #[trigger] r.missing.contains_key(k) implies r.missing[k].finite() by {
            if k != f.id {
                assert(q.missing.contains_key(k));
            }
        }
        assert(h.facts.dom().disjoint(r.facts.dom()));
        assert(h.reading() == g.reading());
        assert(projection::current(h) == projection::current(g));
        assert(continuation::custody_is_sound(h));
        assert forall|id: FactId| #[trigger] r.facts.contains_key(id) implies is_matched(
            r.facts[id],
        ) by {
            if id != f.id {
                assert(q.facts.contains_key(id));
            }
        }
        assert(continuation::is_within_limits(h));
    }
}

/// A fact that joins the history keeps the graph consistent.
proof fn lemma_entered_consistent(
    g: GraphView,
    cache: Option<(u64, ProjectionView)>,
    f: FactView,
    cost: CostView,
    reserved: bool,
    before: ProjectionView,
    rows: Map<FactId, RowView>,
)
    requires
        is_consistent(g),
        is_candidate(g, f),
        canon::extends(g.facts, f),
        g.facts.dom().len() < usize::MAX,
        admission::has_room(g, 1),
        is_settled(g.facts, before),
        provenance::planned(g, f) == Ok::<Map<FactId, RowView>, SemanticError>(rows),
        costs::exact_delta(g, f) is Ok,
        costs::admitted_bounds(g, f, cost, reserved) is Ok,
        quarantine::owned(
            admission::entered(
                GraphView { cache, ..g },
                f,
                cost,
                reserved,
                before,
                Set::empty(),
                costs::exact_delta(g, f)->Ok_0,
                rows,
            ).0,
        ),
    ensures
        ({
            let (h, result) = admission::entered(
                GraphView { cache, ..g },
                f,
                cost,
                reserved,
                before,
                Set::empty(),
                costs::exact_delta(g, f)->Ok_0,
                rows,
            );
            result is Ok ==> is_consistent(h)
        }),
{
    reveal(admission::entered);
    let delta = costs::exact_delta(g, f)->Ok_0;
    let (h, result) = admission::entered(
        GraphView { cache, ..g },
        f,
        cost,
        reserved,
        before,
        Set::empty(),
        delta,
        rows,
    );
    if result is Ok {
        let facts = g.facts;
        let all = facts.insert(f.id, f);
        consistent_graph_can_be_written(g);
        exactness::signed_history_grows(facts, f);
        canon::indexes_follow_the_facts(g, f);
        assert(all.dom() =~= facts.dom().insert(f.id));
        assert(h.facts == all);
        assert(h.index == canon::index_of(all));
        lemma_bounded_on(facts, f);
        assert(h.indexes_current());
        assert(h.reading() == exactness::reading_of(all));
        assert(is_settled(all, before)) by {
            assert forall|c: ExclusiveCell| #[trigger] before.cells.contains_key(
                c,
            ) implies checkpoint::cell_is_resident(all, before.cells[c]) by {
                assert(checkpoint::cell_is_resident(facts, before.cells[c]));
            }
        }
        let touched = crate::impact::impact(h.reading(), f, Set::empty());
        lemma_updated_settled(all, before, touched.cells, touched.subjects);
        assert(projection::current(h) == projection::updated(
            before,
            h.reading(),
            touched.cells,
            touched.subjects,
        ));
        lemma_provenance_witnessed(all);
        assert(rows.dom().finite()) by {
            assert(admission::indexed(g.index, all, f.id, rows).provenance
                == g.index.provenance.union_prefer_right(rows));
            let whole = canon::provenance_of(all);
            assert(rows.dom().subset_of(whole.dom()));
            vstd::set_lib::lemma_set_subset_finite(whole.dom(), rows.dom());
        }
        charge::index_charge_is_exact(g, f, rows);
        assert(accounting::residency(h.index) == h.ledger.index_bytes);
        assert(h.order == g.order.push(f.id));
        crate::content::lemma_push_set(g.order, f.id);
        assert(!g.order.contains(f.id)) by {
            if g.order.contains(f.id) {
                assert(g.order.to_set().contains(f.id));
            }
        }
        assert(h.order.no_duplicates());
        assert(h.order.to_set() =~= all.dom());
        let q = g.quarantine;
        let r = h.quarantine;
        assert(r == quarantine::woken(q, f.id));
        assert(r.facts == q.facts);
        assert(r.waiting.dom().subset_of(q.waiting.dom()));
        vstd::set_lib::lemma_set_subset_finite(q.waiting.dom(), r.waiting.dom());
        assert(r.missing.dom() =~= q.missing.dom());
        assert forall|k: FactId| #[trigger] r.ready.contains(k) implies q.facts.contains_key(k) by {
            if !q.ready.contains(k) {
                assert(q.missing.dom().contains(k));
            }
        }
        assert(r.ready.finite()) by {
            assert(r.ready.subset_of(q.facts.dom()));
            vstd::set_lib::lemma_set_subset_finite(q.facts.dom(), r.ready);
        }
        assert(continuation::custody_is_sound(h));
        assert(continuation::is_within_limits(h));
        assert(continuity::uses_match(all)) by {
            assert forall|id: FactId| #[trigger] all.contains_key(id) implies all[id].participants()
                == all[id].head_subjects() by {
                if id != f.id {
                    assert(facts.contains_key(id));
                }
            }
        }
    }
}

/// An offered fact keeps a graph consistent, whether it joins the history or waits.
#[verifier::spinoff_prover]
#[verifier::rlimit(60)]
proof fn lemma_offered_consistent(
    g: GraphView,
    f: FactView,
    reserved: bool,
    supplied: Option<ProjectionView>,
    cost: Option<CostView>,
)
    requires
        is_consistent(g),
        is_matched(f),
        g.facts.dom().len() < usize::MAX,
        admission::has_room(g, 1),
        supplied matches Some(p) ==> is_settled(g.facts, p),
        is_settled(g.facts, projection::base(g)),
        cost matches Some(c) ==> is_candidate(g, f) && admission::is_own(c, f)
            && c.missing.to_set() == costs::missing_inputs(g, f),
        reserved ==> quarantine::funds(
            g.ledger.retained,
            g.quarantine.facts.insert(f.id, f),
        ),
    ensures
        admission::offered(g, f, reserved, supplied, cost, Set::empty()).1 is Ok ==> is_consistent(
            admission::offered(g, f, reserved, supplied, cost, Set::empty()).0,
        ),
{
    admission::lemma_offered(g, f, reserved, supplied, cost, Set::empty());
    reveal(admission::offered);
    admission::lemma_screened(g, f);
    reveal(admission::screened);
    reveal(validation::candidate_check);
    let known = match cost {
        Some(c) => Some(c),
        None => match admission::screened(g, f) {
            Ok(Some(c)) => Some(c),
            _ => None,
        },
    };
    if let Some(c) = known {
        assert(is_candidate(g, f));
        if c.missing.len() > 0 {
            lemma_deferred_consistent(g, f, c, reserved);
        } else if let Ok((delta, rows)) = admission::cleared(g, f, c, reserved) {
            reveal(admission::cleared);
            assert(f.inputs().subset_of(g.facts.dom())) by {
                assert forall|x: FactId| #[trigger] f.inputs().contains(x) implies g.facts.dom().contains(
                    x,
                ) by {
                    if !g.facts.contains_key(x) {
                        assert(costs::missing_inputs(g, f).contains(x));
                        assert(c.missing.to_set().contains(x));
                    }
                }
            }
            if f.is_selector() {
                assert(f.content.body.support().contains(canon::selected(f)));
                assert(f.inputs().contains(canon::selected(f)));
            }
            match supplied {
                Some(before) => {
                    lemma_entered_consistent(g, g.cache, f, c, reserved, before, rows);
                    assert(GraphView { cache: g.cache, ..g } == g);
                },
                None => {
                    let before = projection::base(g);
                    lemma_entered_consistent(g, None, f, c, reserved, before, rows);
                },
            }
        }
    }
}

/// An offered fact keeps a graph sound, whether it joins the history or waits.
pub proof fn offer_keeps_graph_sound(
    g: GraphView,
    f: FactView,
    reserved: bool,
    supplied: Option<ProjectionView>,
    cost: Option<CostView>,
)
    requires
        is_sound(g),
        is_matched(f),
        g.facts.dom().len() < usize::MAX,
        admission::has_room(g, 1),
        supplied matches Some(p) ==> p == projection::projected(g.reading()),
        cost matches Some(c) ==> is_candidate(g, f) && admission::is_own(c, f)
            && c.missing.to_set() == costs::missing_inputs(g, f),
        reserved ==> quarantine::funds(
            g.ledger.retained,
            g.quarantine.facts.insert(f.id, f),
        ),
    ensures
        admission::offered(g, f, reserved, supplied, cost, Set::empty()).1 is Ok ==> is_sound(
            admission::offered(g, f, reserved, supplied, cost, Set::empty()).0,
        ),
{
    exactness::offer_keeps_graph_exact(g, f, reserved, supplied, cost);
    assert(g.reading() == exactness::reading_of(g.facts));
    lemma_projected_settled(g.facts);
    lemma_offered_consistent(g, f, reserved, supplied, cost);
}

/// Admission keeps a graph sound.
pub proof fn admission_keeps_graph_sound(g: GraphView, f: FactView)
    requires
        is_sound(g),
        is_matched(f),
        g.facts.dom().len() < usize::MAX,
        admission::has_room(g, 1),
    ensures
        admission::admitted(g, f).1 is Ok ==> is_sound(admission::admitted(g, f).0),
{
    offer_keeps_graph_sound(g, f, false, None, None);
}

/// The indexes of a sound graph are what a rebuild derives.
pub proof fn sound_graph_is_derived(g: GraphView)
    requires
        is_sound(g),
    ensures
        coverage::derived(g),
{
    refit::rebuild_gives_the_indexes(g);
}

/// A sound graph answers with the projection of all its facts: what it keeps up
/// to date misses no cell and no subject.
pub proof fn sound_graph_projects_its_facts(g: GraphView)
    requires
        is_sound(g),
    ensures
        projection::current(g) == projection::projected(g.reading()),
{
}

/// What returns to a sound graph is that graph, and answers for itself: its
/// indexes and its projection are back.
pub proof fn returned_graph_is_sound(now: GraphView, base: GraphView)
    requires
        is_sound(base),
        coverage::is_back(now, base),
    ensures
        is_sound(now),
        now == (GraphView { cache: now.cache, ..base }),
        projection::current(now) == projection::current(base),
{
    sound_graph_is_derived(base);
    let again = GraphView { cache: now.cache, ..base };
    assert(now.index == base.index);
    assert(now == again);
    lemma_recached(base, now.cache);
}

/// A sound graph is as sound with its projection dropped.
proof fn lemma_recached(base: GraphView, cache: Option<(u64, ProjectionView)>)
    requires
        is_sound(base),
        cache is None || cache == base.cache,
    ensures
        is_sound(GraphView { cache, ..base }),
        projection::current(GraphView { cache, ..base }) == projection::current(base),
{
    let now = GraphView { cache, ..base };
    assert(now.reading() == base.reading());
    assert(base.reading() == exactness::reading_of(base.facts));
    lemma_projected_settled(base.facts);
    assert(projection::current(now) == projection::projected(base.reading()));
    assert(exactness::is_exact(now));
    assert(quarantine::owned(now));
    assert(continuation::custody_is_sound(now));
    assert(continuation::is_within_limits(now));
    assert(is_consistent(now));
}

/// Taking a waiter out of the quarantine keeps a graph sound.
proof fn lemma_removed_sound(g: GraphView, id: FactId)
    requires
        is_sound(g),
    ensures
        is_sound(quarantine::removed(g, id).0),
        quarantine::removed(g, id).1 matches Ok(Some(f)) ==> f == g.quarantine.facts[id]
            && g.quarantine.facts.contains_key(id) && is_candidate(
            quarantine::removed(g, id).0,
            f,
        ),
{
    let (h, found) = quarantine::removed(g, id);
    let q = g.quarantine;
    let r = h.quarantine;
    assert(h.reading() == g.reading());
    assert(projection::current(h) == projection::current(g));
    if q.facts.contains_key(id) {
        let f = q.facts[id];
        quarantine::lemma_cost(g, f);
        if let Ok(cost) = costs::cost_of(g, f) {
            quarantine::lemma_dequeue(g, id, cost);
            assert(r.facts.dom() =~= q.facts.dom().remove(id));
            assert(r.missing.dom() =~= q.missing.dom().remove(id));
            assert(r.waiting.dom().subset_of(q.waiting.dom()));
            vstd::set_lib::lemma_set_subset_finite(q.waiting.dom(), r.waiting.dom());
            assert forall|k: FactId| #[trigger] r.waiting.contains_key(
                k,
            ) implies r.waiting[k].finite() by {
                assert(q.waiting.contains_key(k));
            }
            assert forall|k: FactId| #[trigger] r.missing.contains_key(
                k,
            ) implies r.missing[k].finite() by {
                assert(q.missing.contains_key(k));
            }
            assert(h.facts.dom().disjoint(r.facts.dom()));
            assert(!h.facts.contains_key(f.id)) by {
                assert(q.facts.dom().contains(id));
            }
            assert(continuation::custody_is_sound(h));
            assert(q.facts.dom().contains(id));
            assert(continuation::is_within_limits(h));
            assert forall|k: FactId| #[trigger] r.facts.contains_key(k) implies is_matched(
                r.facts[k],
            ) by {
                assert(q.facts.contains_key(k));
            }
        }
    } else {
        assert(r.ready.subset_of(q.ready));
        assert(continuation::custody_is_sound(h));
    }
}

/// A retried waiter keeps a graph sound, whether it is promoted, goes on
/// waiting or is dropped for good.
pub proof fn promotion_keeps_graph_sound(g: GraphView, id: FactId)
    requires
        is_sound(g),
        retry::is_roomy(g, 0),
        retry::is_countable(g, 0),
    ensures
        retry::tried(g, id, Set::empty()).1 is Ok ==> is_sound(
            retry::tried(g, id, Set::empty()).0,
        ),
{
    reveal(retry::tried);
    retry::lemma_tried(g, id, Set::empty());
    lemma_removed_sound(g, id);
    let (h, found) = quarantine::removed(g, id);
    if let Ok(Some(f)) = found {
        lemma_waiter_room(g, id);
        lemma_waiter_funds(g, id);
        offer_keeps_graph_sound(h, f, true, None, None);
        admission::lemma_refused_unchanged(h, f, true);
        let (k, result) = admission::offered(h, f, true, None, None, Set::empty());
        if let Err(e) = result {
            if retry::is_terminal(k, f, e) {
                assert(k == h);
                let t = retry::tried(g, id, Set::empty()).0;
                if retry::tried(g, id, Set::empty()).1 is Ok {
                    assert(t.reading() == h.reading());
                    assert(projection::current(t) == projection::current(h));
                    assert(t.ledger.retained.dom().subset_of(h.ledger.retained.dom()));
                    vstd::set_lib::lemma_set_subset_finite(
                        h.ledger.retained.dom(),
                        t.ledger.retained.dom(),
                    );
                    assert(continuation::custody_is_sound(t));
                }
            }
        }
    }
}

/// A graph with a waiter has room for it.
proof fn lemma_waiter_room(g: GraphView, id: FactId)
    requires
        quarantine::owned(g),
        retry::is_roomy(g, 0),
        retry::is_countable(g, 0),
        g.quarantine.facts.contains_key(id),
    ensures
        admission::has_room(g, 1),
        g.facts.dom().len() < usize::MAX,
{
    assert(g.quarantine.facts.dom().contains(id));
    if g.quarantine.facts.dom().len() == 0 {
        assert(g.quarantine.facts.dom() =~= Set::<FactId>::empty());
    }
}

/// What is retained covers a waiter that was taken out.
proof fn lemma_waiter_funds(g: GraphView, id: FactId)
    requires
        quarantine::owned(g),
        g.quarantine.facts.contains_key(id),
        quarantine::removed(g, id).1 is Ok,
    ensures
        quarantine::funds(
            quarantine::removed(g, id).0.ledger.retained,
            quarantine::removed(g, id).0.quarantine.facts.insert(
                g.quarantine.facts[id].id,
                g.quarantine.facts[id],
            ),
        ),
{
    let h = quarantine::removed(g, id).0;
    let f = g.quarantine.facts[id];
    assert(h.quarantine.facts.insert(f.id, f) =~= g.quarantine.facts);
}

} // verus!

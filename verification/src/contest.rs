//! What the projection makes of facts that contend for a cell, and of the
//! evidence against a device.

use vstd::prelude::*;

use crate::authority;
use crate::causal_order;
use crate::content::{BodyView, ExclusiveCell};
use crate::device::DeviceId;
use crate::evaluator;
use crate::exactness;
use crate::fact::{Facts, FactView};
use crate::graph::{CellView, GraphView, ProjectionView, Reading};
use crate::ids::FactId;
use crate::multimap;
use crate::order;
use crate::ordset;
use crate::projection;
use crate::reach;
use crate::soundness;

verus! {

/// The heads of a cell that count, listed.
proof fn lemma_counting(g: Reading, cell: ExclusiveCell)
    requires
        g.raw_heads(cell).finite(),
    ensures
        ({
            let raw = g.raw_heads(cell);
            let counting = raw.filter(|id: FactId| authority::is_authoritative(g, id));
            &&& counting.finite()
            &&& order::is_ascending(order::ascending(counting))
            &&& order::ascending(counting).len() == counting.len()
            &&& order::ascending(counting).no_duplicates()
            &&& forall|x: FactId| #[trigger]
                order::ascending(counting).contains(x) <==> raw.contains(x)
                    && authority::is_authoritative(g, x)
            &&& order::is_ascending(order::ascending(raw))
            &&& order::ascending(raw).len() == raw.len()
            &&& order::ascending(raw).no_duplicates()
            &&& forall|x: FactId| #[trigger]
                order::ascending(raw).contains(x) <==> raw.contains(x)
        }),
{
    let raw = g.raw_heads(cell);
    let counting = raw.filter(|id: FactId| authority::is_authoritative(g, id));
    vstd::set_lib::lemma_set_subset_finite(raw, counting);
    ordset::lemma_listing(raw);
    ordset::lemma_listing(counting);
}

/// Two heads of a cell that both count leave it contested, whatever kind of
/// cell it is: what is projected is the conflict of exactly the heads that
/// count, and no value.
pub proof fn contested_cells_show_every_contender(
    g: Reading,
    cell: ExclusiveCell,
    a: FactId,
    b: FactId,
)
    requires
        g.known_cells().contains(cell),
        g.raw_heads(cell).finite(),
        a != b,
        g.raw_heads(cell).contains(a),
        g.raw_heads(cell).contains(b),
        authority::is_authoritative(g, a),
        authority::is_authoritative(g, b),
    ensures
        ({
            let p = projection::projected(g);
            &&& p.cells.contains_key(cell)
            &&& p.cells[cell] matches CellView::Conflict(heads) && order::is_ascending(heads)
                && forall|x: FactId| #[trigger]
                heads.contains(x) <==> g.raw_heads(cell).contains(x)
                    && authority::is_authoritative(g, x)
            &&& projection::conflicted(p, cell)
            &&& projection::value_of(p, cell) is None
        }),
{
    reveal(projection::cell_state);
    lemma_counting(g, cell);
    let counting = g.raw_heads(cell).filter(|id: FactId| authority::is_authoritative(g, id));
    let list = order::ascending(counting);
    assert(list.contains(a) && list.contains(b));
    if list.len() == 1 {
        assert(list[0] == a && list[0] == b);
    }
    assert(counting.contains(a));
}

/// Heads of a cell of which none counts leave it contested between them all.
pub proof fn uncounted_heads_stay_contested(
    g: Reading,
    cell: ExclusiveCell,
    a: FactId,
    b: FactId,
)
    requires
        g.known_cells().contains(cell),
        g.raw_heads(cell).finite(),
        a != b,
        g.raw_heads(cell).contains(a),
        g.raw_heads(cell).contains(b),
        forall|x: FactId| #[trigger]
            g.raw_heads(cell).contains(x) ==> !authority::is_authoritative(g, x),
    ensures
        ({
            let p = projection::projected(g);
            &&& p.cells.contains_key(cell)
            &&& p.cells[cell] matches CellView::Conflict(heads) && order::is_ascending(heads)
                && forall|x: FactId| #[trigger]
                heads.contains(x) <==> g.raw_heads(cell).contains(x)
            &&& projection::conflicted(p, cell)
            &&& projection::value_of(p, cell) is None
        }),
{
    reveal(projection::cell_state);
    lemma_counting(g, cell);
    let counting = g.raw_heads(cell).filter(|id: FactId| authority::is_authoritative(g, id));
    let list = order::ascending(g.raw_heads(cell));
    assert(counting =~= Set::<FactId>::empty());
    assert(list.contains(a) && list.contains(b));
    if list.len() == 1 {
        assert(list[0] == a && list[0] == b);
    }
}

/// A cell whose one head does not count, or that has none, projects nothing.
pub proof fn cells_without_a_counting_head_are_open(g: Reading, cell: ExclusiveCell)
    requires
        g.raw_heads(cell).finite(),
        forall|x: FactId| #[trigger]
            g.raw_heads(cell).contains(x) ==> !authority::is_authoritative(g, x),
        forall|x: FactId, y: FactId|
            g.raw_heads(cell).contains(x) && g.raw_heads(cell).contains(y) ==> x == y,
    ensures
        !projection::projected(g).cells.contains_key(cell),
{
    reveal(projection::cell_state);
    lemma_counting(g, cell);
    let raw = g.raw_heads(cell);
    let counting = raw.filter(|id: FactId| authority::is_authoritative(g, id));
    let list = order::ascending(raw);
    assert(counting =~= Set::<FactId>::empty());
    if list.len() > 1 {
        assert(list.contains(list[0]) && list.contains(list[1]));
        assert(raw.contains(list[0]) && raw.contains(list[1]));
    }
    let none = order::ascending(counting);
    if none.len() > 0 {
        assert(none.contains(none[0]));
    }
}

/// Where a chain of resolutions of one cell leads: each selects the next, and
/// the last of a history is no such resolution.
proof fn lemma_settled_chain(
    facts: Facts,
    cell: ExclusiveCell,
    id: FactId,
    seen: Set<FactId>,
) -> (chain: Seq<FactId>)
    requires
        facts.dom().finite(),
    ensures
        chain.len() > 0,
        chain[0] == id,
        chain.last() == projection::settled(facts, cell, id, seen),
        forall|i: int|
            0 <= i < chain.len() - 1 ==> facts.contains_key(#[trigger] chain[i]) && (
            facts[chain[i]].content.body matches BodyView::Resolution {
                cell: c,
                selected_head,
                ..
            } && c == cell && selected_head == chain[i + 1]),
    decreases facts.dom().difference(seen).len(),
{
    if facts.contains_key(id) && !seen.contains(id) {
        if let BodyView::Resolution { cell: c, selected_head, .. } = facts[id].content.body {
            if c == cell && !seen.insert(id).contains(selected_head) {
                assert(reach::parent_edges(facts).dom() =~= facts.dom());
                reach::lemma_unseen(reach::parent_edges(facts), seen, id);
                let rest = lemma_settled_chain(facts, cell, selected_head, seen.insert(id));
                let chain = seq![id] + rest;
                assert(chain.last() == rest.last());
                assert forall|i: int| 0 <= i < chain.len() - 1 implies facts.contains_key(
                    #[trigger] chain[i],
                ) && (facts[chain[i]].content.body matches BodyView::Resolution {
                    cell: c,
                    selected_head,
                    ..
                } && c == cell && selected_head == chain[i + 1]) by {
                    if i > 0 {
                        assert(chain[i] == rest[i - 1]);
                        assert(chain[i + 1] == rest[i]);
                    } else {
                        assert(chain[1] == rest[0]);
                    }
                }
                return chain;
            }
        }
    }
    seq![id]
}

/// The place of a fact in a causal order.
spec fn place(list: Seq<FactId>, id: FactId) -> int {
    choose|i: int| 0 <= i < list.len() && list[i] == id
}

proof fn lemma_settled_ends(
    facts: Facts,
    cell: ExclusiveCell,
    id: FactId,
    seen: Set<FactId>,
    list: Seq<FactId>,
)
    requires
        exactness::is_signed_history(facts),
        causal_order::is_causal(facts, list),
        list.to_set() == facts.dom(),
        facts.contains_key(id),
        forall|x: FactId| #[trigger]
            seen.contains(x) ==> facts.contains_key(x) && place(list, id) < place(list, x),
    ensures
        facts.contains_key(projection::settled(facts, cell, id, seen)),
        !(facts[projection::settled(facts, cell, id, seen)].content.body matches
            BodyView::Resolution { cell: c, .. } && c == cell),
    decreases facts.dom().difference(seen).len(),
{
    assert(list.to_set().contains(id));
    assert(!seen.contains(id));
    if let BodyView::Resolution { cell: c, cited_heads, selected_head } = facts[id].content.body {
        if c == cell {
            assert(exactness::is_signed_through(facts[id]));
            assert(facts[id].content.body.support().contains(selected_head));
            assert(facts[id].inputs().contains(selected_head));
            assert(facts.contains_key(selected_head));
            let i = place(list, id);
            assert(0 <= i < list.len() && list[i] == id);
            assert(causal_order::awaits(facts, list[i]).contains(selected_head));
            assert(list.take(i).to_set().contains(selected_head));
            let j = choose|j: int| 0 <= j < i && list.take(i)[j] == selected_head;
            assert(list[j] == selected_head);
            assert(list.to_set().contains(selected_head));
            let k = place(list, selected_head);
            assert(0 <= k < list.len() && list[k] == selected_head);
            assert(k == j);
            assert(reach::parent_edges(facts).dom() =~= facts.dom());
            reach::lemma_unseen(reach::parent_edges(facts), seen, id);
            assert(!seen.insert(id).contains(selected_head));
            assert forall|x: FactId| #[trigger] seen.insert(id).contains(
                x,
            ) implies facts.contains_key(x) && place(list, selected_head) < place(list, x) by {
                if x != id {
                    assert(seen.contains(x));
                }
            }
            lemma_settled_ends(facts, cell, selected_head, seen.insert(id), list);
        }
    }
}

/// A cell has a value only where exactly one of its heads counts; the value is
/// that head, or what it resolves the cell to, through however many
/// resolutions of the cell.
pub proof fn values_come_from_a_sole_head(g: Reading, cell: ExclusiveCell, v: FactId) -> (chain: Seq<
    FactId,
>)
    requires
        g.facts.dom().finite(),
        g.raw_heads(cell).finite(),
        projection::value_of(projection::projected(g), cell) == Some(v),
    ensures
        chain.len() > 0,
        g.raw_heads(cell).contains(chain[0]),
        authority::is_authoritative(g, chain[0]),
        forall|x: FactId| #[trigger]
            g.raw_heads(cell).contains(x) && authority::is_authoritative(g, x) ==> x == chain[0],
        chain.last() == v,
        forall|i: int|
            0 <= i < chain.len() - 1 ==> g.facts.contains_key(#[trigger] chain[i]) && (
            g.facts[chain[i]].content.body matches BodyView::Resolution {
                cell: c,
                selected_head,
                ..
            } && c == cell && selected_head == chain[i + 1]),
{
    reveal(projection::cell_state);
    lemma_counting(g, cell);
    let raw = g.raw_heads(cell);
    let counting = raw.filter(|id: FactId| authority::is_authoritative(g, id));
    let list = order::ascending(counting);
    let all = order::ascending(raw);
    if counting == Set::<FactId>::empty() && all.len() > 1 {
        assert(false);
    }
    assert(list.len() == 1);
    let h = list[0];
    assert(list.contains(h));
    assert forall|x: FactId| #[trigger] raw.contains(x) && authority::is_authoritative(
        g,
        x,
    ) implies x == h by {
        assert(list.contains(x));
    }
    lemma_settled_chain(g.facts, cell, h, Set::empty())
}

/// A history settles no cell at a resolution of that cell: what a value names
/// is what the resolutions select in the end.
pub proof fn values_are_no_resolutions(g: GraphView, cell: ExclusiveCell, v: FactId)
    requires
        soundness::is_sound(g),
        projection::value_of(projection::current(g), cell) == Some(v),
    ensures
        g.facts.contains_key(v),
        !(g.facts[v].content.body matches BodyView::Resolution { cell: c, .. } && c == cell),
{
    lemma_read(g, cell);
    let r = g.reading();
    let chain = values_come_from_a_sole_head(r, cell, v);
    reveal(projection::cell_state);
    lemma_counting(r, cell);
    let counting = r.raw_heads(cell).filter(|id: FactId| authority::is_authoritative(r, id));
    let list = order::ascending(counting);
    assert(list.contains(list[0]));
    assert(v == projection::settled(g.facts, cell, list[0], Set::empty()));
    let ord = choose|ord: Seq<FactId>| #[trigger]
        causal_order::is_causal(g.facts, ord) && ord.to_set() == g.facts.dom();
    lemma_settled_ends(g.facts, cell, list[0], Set::empty(), ord);
}

/// What a sound graph reads of a cell.
proof fn lemma_read(g: GraphView, cell: ExclusiveCell)
    requires
        soundness::is_sound(g),
    ensures
        g.reading() == exactness::reading_of(g.facts),
        g.facts.dom().finite(),
        projection::current(g) == projection::projected(g.reading()),
        g.reading().raw_heads(cell).finite(),
        g.reading().raw_heads(cell).subset_of(g.facts.dom()),
        forall|x: FactId| #[trigger]
            g.reading().raw_heads(cell).contains(x) <==> g.facts.contains_key(x)
                && g.facts[x].advances(cell) && !exists|m: FactId| #[trigger]
                g.facts.contains_key(m) && g.facts[m].advances(cell) && reach::is_dominated(
                    g.facts,
                    g.facts[m].inputs(),
                    x,
                ),
        forall|x: FactId| #[trigger]
            g.facts.contains_key(x) && g.facts[x].advances(cell)
                ==> g.reading().known_cells().contains(cell),
{
    soundness::sound_graph_projects_its_facts(g);
    let r = g.reading();
    assert(r == exactness::reading_of(g.facts));
    exactness::lemma_cell_heads_read(g.facts, cell);
    let members = exactness::cell_members(g.facts, cell);
    assert forall|x: FactId| #[trigger] r.raw_heads(cell).contains(x) <==> g.facts.contains_key(x)
        && g.facts[x].advances(cell) && !exists|m: FactId| #[trigger]
        g.facts.contains_key(m) && g.facts[m].advances(cell) && reach::is_dominated(
            g.facts,
            g.facts[m].inputs(),
            x,
        ) by {
        assert(members.contains(x) <==> g.facts.contains_key(x) && g.facts[x].advances(cell));
        if exists|m: FactId| #[trigger]
            g.facts.contains_key(m) && g.facts[m].advances(cell) && reach::is_dominated(
                g.facts,
                g.facts[m].inputs(),
                x,
            ) {
            let m = choose|m: FactId| #[trigger]
                g.facts.contains_key(m) && g.facts[m].advances(cell) && reach::is_dominated(
                    g.facts,
                    g.facts[m].inputs(),
                    x,
                );
            assert(members.contains(m));
        }
        if exists|m: FactId| #[trigger]
            members.contains(m) && reach::is_dominated(g.facts, g.facts[m].inputs(), x) {
            let m = choose|m: FactId| #[trigger]
                members.contains(m) && reach::is_dominated(g.facts, g.facts[m].inputs(), x);
            assert(g.facts.contains_key(m));
        }
    }
}

/// Two admitted facts that count and advance one cell, neither of them behind
/// another fact that advances it, contend for it: the cell is in conflict, both
/// are named, and it gives no role, membership or decision.
pub proof fn concurrent_facts_contend(g: GraphView, cell: ExclusiveCell, a: FactId, b: FactId)
    requires
        soundness::is_sound(g),
        a != b,
        g.facts.contains_key(a),
        g.facts.contains_key(b),
        g.facts[a].advances(cell),
        g.facts[b].advances(cell),
        forall|m: FactId| #[trigger]
            g.facts.contains_key(m) && g.facts[m].advances(cell) ==> !reach::is_dominated(
                g.facts,
                g.facts[m].inputs(),
                a,
            ) && !reach::is_dominated(g.facts, g.facts[m].inputs(), b),
        authority::is_authoritative(g.reading(), a),
        authority::is_authoritative(g.reading(), b),
    ensures
        ({
            let p = projection::current(g);
            &&& p.cells.contains_key(cell)
            &&& p.cells[cell] matches CellView::Conflict(heads) && heads.contains(a)
                && heads.contains(b)
            &&& projection::conflicted(p, cell)
            &&& projection::value_of(p, cell) is None
        }),
        match cell {
            ExclusiveCell::Role { subject } => evaluator::eval(g).role(subject) is None,
            ExclusiveCell::Membership { subject } => evaluator::eval(g).membership(subject) is None,
            ExclusiveCell::Decision { proposal } => evaluator::eval(g).decision(proposal) is None,
        },
{
    lemma_read(g, cell);
    contested_cells_show_every_contender(g.reading(), cell, a, b);
    assert(projection::current(g).cells[cell] matches CellView::Conflict(heads) && heads.contains(
        a,
    ) && heads.contains(b));
}

/// An admitted fact that counts, advances a cell, and has every other fact
/// that advances it behind it decides the cell: by itself, or by what it
/// selects, where it resolves the cell to a fact that is no resolution of it.
pub proof fn the_latest_fact_decides(g: GraphView, cell: ExclusiveCell, h: FactId)
    requires
        soundness::is_sound(g),
        g.facts.contains_key(h),
        g.facts[h].advances(cell),
        authority::is_authoritative(g.reading(), h),
        forall|m: FactId| #[trigger]
            g.facts.contains_key(m) && g.facts[m].advances(cell) ==> !reach::is_dominated(
                g.facts,
                g.facts[m].inputs(),
                h,
            ) && (m != h ==> reach::is_dominated(g.facts, g.facts[h].inputs(), m)),
    ensures
        !projection::conflicted(projection::current(g), cell),
        match g.facts[h].content.body {
            BodyView::Resolution { cell: c, selected_head, .. } => c == cell ==> !(
            g.facts[selected_head].content.body matches BodyView::Resolution { cell: d, .. } && d
                == cell) ==> projection::value_of(projection::current(g), cell) == Some(
                selected_head,
            ),
            _ => projection::value_of(projection::current(g), cell) == Some(h),
        },
{
    lemma_read(g, cell);
    let r = g.reading();
    reveal(projection::cell_state);
    lemma_counting(r, cell);
    let raw = r.raw_heads(cell);
    let counting = raw.filter(|id: FactId| authority::is_authoritative(r, id));
    let list = order::ascending(counting);
    assert(raw.contains(h));
    assert(list.contains(h));
    assert forall|x: FactId| #[trigger] raw.contains(x) implies x == h by {
        assert(g.facts.contains_key(x) && g.facts[x].advances(cell));
    }
    if list.len() > 1 {
        assert(list.contains(list[0]) && list.contains(list[1]));
    }
    assert(list.len() == 1 && list[0] == h) by {
        assert(list.contains(list[0]));
    }
    assert(counting.contains(h));
    assert(r.known_cells().contains(cell));
    let v = projection::settled(g.facts, cell, h, Set::empty());
    assert(projection::value_of(projection::current(g), cell) == Some(v));
    let ord = choose|ord: Seq<FactId>| #[trigger]
        causal_order::is_causal(g.facts, ord) && ord.to_set() == g.facts.dom();
    lemma_settled_ends(g.facts, cell, h, Set::empty(), ord);
    let chain = lemma_settled_chain(g.facts, cell, h, Set::empty());
    if let BodyView::Resolution { cell: c, selected_head, .. } = g.facts[h].content.body {
        if c == cell && !(g.facts[selected_head].content.body matches BodyView::Resolution {
            cell: d,
            ..
        } && d == cell) {
            assert(chain.len() > 1);
            assert(chain[1] == selected_head);
            if chain.len() > 2 {
                assert(g.facts.contains_key(chain[1]));
            }
            assert(chain.len() == 2);
        }
    } else {
        if chain.len() > 1 {
            assert(g.facts.contains_key(chain[0]));
        }
        assert(chain.len() == 1);
    }
}

/// A device stands down exactly where a proof of its eviction, or its own
/// stand-down, was admitted and counts; the proof on record is one of these,
/// and the least.
pub proof fn devices_stand_down_on_counting_evidence(g: GraphView, d: DeviceId)
    requires
        soundness::is_sound(g),
    ensures
        projection::current(g).stand_down.contains_key(d) <==> exists|id: FactId| #[trigger]
            g.facts.contains_key(id) && authority::is_authoritative(g.reading(), id) && match
            g.facts[id].content.body {
                BodyView::EvictionProof { target, .. } => target == d,
                BodyView::SelfStandDown { device_id, .. } => device_id == d,
                _ => false,
            },
        projection::current(g).stand_down.contains_key(d) ==> ({
            let least = projection::current(g).stand_down[d];
            &&& g.facts.contains_key(least)
            &&& authority::is_authoritative(g.reading(), least)
            &&& match g.facts[least].content.body {
                BodyView::EvictionProof { target, .. } => target == d,
                BodyView::SelfStandDown { device_id, .. } => device_id == d,
                _ => false,
            }
            &&& forall|id: FactId| #[trigger]
                g.facts.contains_key(id) && authority::is_authoritative(g.reading(), id) && (match
                g.facts[id].content.body {
                    BodyView::EvictionProof { target, .. } => target == d,
                    BodyView::SelfStandDown { device_id, .. } => device_id == d,
                    _ => false,
                }) ==> id == least || order::before(least, id)
        }),
        projection::current(g).stand_down.contains_key(d) ==> evaluator::eval(g).role(d) is None,
{
    lemma_evidence(g, d);
    lemma_stood_down(g.reading(), projection::current(g), d);
}

/// The least member of a set is the first of its listing.
proof fn lemma_least(set: Set<FactId>)
    requires
        set.finite(),
        set != Set::<FactId>::empty(),
    ensures
        set.contains(order::ascending(set)[0]),
        forall|id: FactId| #[trigger]
            set.contains(id) ==> id == order::ascending(set)[0] || order::before(
                order::ascending(set)[0],
                id,
            ),
{
    ordset::lemma_listing(set);
    let list = order::ascending(set);
    assert(exists|x: FactId| set.contains(x)) by {
        if forall|x: FactId| !set.contains(x) {
            assert(set =~= Set::<FactId>::empty());
        }
    }
    let some = choose|x: FactId| set.contains(x);
    assert(list.contains(some));
    assert(list.contains(list[0]));
    assert forall|id: FactId| #[trigger] set.contains(id) implies id == list[0] || order::before(
        list[0],
        id,
    ) by {
        assert(list.contains(id));
        let i = choose|i: int| 0 <= i < list.len() && list[i] == id;
        if i > 0 {
            assert(order::before(list[0], list[i]));
        }
    }
}

/// What the evidence that counts makes of a device.
proof fn lemma_stood_down(r: Reading, p: ProjectionView, d: DeviceId)
    requires
        r == exactness::reading_of(r.facts),
        r.facts.dom().finite(),
        ({
            let counting = multimap::at(r.evidence(), d).filter(
                |id: FactId| authority::is_authoritative(r, id),
            );
            &&& p.stand_down.contains_key(d) <==> counting != Set::<FactId>::empty()
            &&& counting != Set::<FactId>::empty() ==> p.stand_down[d] == order::ascending(
                counting,
            )[0]
        }),
    ensures
        p.stand_down.contains_key(d) <==> exists|id: FactId| #[trigger]
            r.facts.contains_key(id) && authority::is_authoritative(r, id) && match
            r.facts[id].content.body {
                BodyView::EvictionProof { target, .. } => target == d,
                BodyView::SelfStandDown { device_id, .. } => device_id == d,
                _ => false,
            },
        p.stand_down.contains_key(d) ==> ({
            let least = p.stand_down[d];
            &&& r.facts.contains_key(least)
            &&& authority::is_authoritative(r, least)
            &&& match r.facts[least].content.body {
                BodyView::EvictionProof { target, .. } => target == d,
                BodyView::SelfStandDown { device_id, .. } => device_id == d,
                _ => false,
            }
            &&& forall|id: FactId| #[trigger]
                r.facts.contains_key(id) && authority::is_authoritative(r, id) && (match
                r.facts[id].content.body {
                    BodyView::EvictionProof { target, .. } => target == d,
                    BodyView::SelfStandDown { device_id, .. } => device_id == d,
                    _ => false,
                }) ==> id == least || order::before(least, id)
        }),
{
    let counting = lemma_evidence_set(r, d);
    if counting != Set::<FactId>::empty() {
        lemma_least(counting);
        let least = order::ascending(counting)[0];
        assert(counting.contains(least));
        assert(r.facts.contains_key(least));
        assert forall|id: FactId| #[trigger]
            r.facts.contains_key(id) && authority::is_authoritative(r, id) && (match
            r.facts[id].content.body {
                BodyView::EvictionProof { target, .. } => target == d,
                BodyView::SelfStandDown { device_id, .. } => device_id == d,
                _ => false,
            }) implies id == least || order::before(least, id) by {
            assert(counting.contains(id));
        }
    } else {
        assert forall|id: FactId| #[trigger] r.facts.contains_key(id) implies !(
        authority::is_authoritative(r, id) && match r.facts[id].content.body {
            BodyView::EvictionProof { target, .. } => target == d,
            BodyView::SelfStandDown { device_id, .. } => device_id == d,
            _ => false,
        }) by {
            assert(!counting.contains(id));
        }
    }
}

/// The evidence against a device that counts.
proof fn lemma_evidence_set(r: Reading, d: DeviceId) -> (counting: Set<FactId>)
    requires
        r == exactness::reading_of(r.facts),
        r.facts.dom().finite(),
    ensures
        counting.finite(),
        counting == multimap::at(r.evidence(), d).filter(
            |id: FactId| authority::is_authoritative(r, id),
        ),
        counting != Set::<FactId>::empty() ==> r.evidence().contains_key(d),
        forall|id: FactId| #[trigger]
            counting.contains(id) <==> r.facts.contains_key(id) && authority::is_authoritative(
                r,
                id,
            ) && match r.facts[id].content.body {
                BodyView::EvictionProof { target, .. } => target == d,
                BodyView::SelfStandDown { device_id, .. } => device_id == d,
                _ => false,
            },
{
    let all = multimap::at(r.evidence(), d);
    let counting = all.filter(|id: FactId| authority::is_authoritative(r, id));
    assert(all.subset_of(r.facts.dom()));
    vstd::set_lib::lemma_set_subset_finite(r.facts.dom(), all);
    vstd::set_lib::lemma_set_subset_finite(all, counting);
    assert forall|id: FactId| #[trigger] counting.contains(id) <==> r.facts.contains_key(id)
        && authority::is_authoritative(r, id) && match r.facts[id].content.body {
        BodyView::EvictionProof { target, .. } => target == d,
        BodyView::SelfStandDown { device_id, .. } => device_id == d,
        _ => false,
    } by {
        if r.facts.contains_key(id) && r.facts[id].content.body.stands_down() == Some(d) {
            assert(r.evidence().contains_key(d));
        }
    }
    if !r.evidence().contains_key(d) {
        assert(counting =~= Set::<FactId>::empty());
    }
    counting
}

/// What is projected of the evidence against a device.
proof fn lemma_evidence(g: GraphView, d: DeviceId)
    requires
        soundness::is_sound(g),
    ensures
        g.reading() == exactness::reading_of(g.facts),
        g.facts.dom().finite(),
        ({
            let r = g.reading();
            let counting = multimap::at(r.evidence(), d).filter(
                |id: FactId| authority::is_authoritative(r, id),
            );
            &&& projection::current(g).stand_down.contains_key(d) <==> counting != Set::<
                FactId,
            >::empty()
            &&& counting != Set::<FactId>::empty() ==> projection::current(g).stand_down[d]
                == order::ascending(counting)[0]
        }),
{
    soundness::sound_graph_projects_its_facts(g);
    reveal(projection::stand_state);
    lemma_evidence_set(g.reading(), d);
}

/// A fork suspends its branches: a fact on one branch of the lineage of one of
/// its subjects, and not behind the other, counts for nothing while both heads
/// stand.
pub proof fn forks_suspend_their_branches(
    g: Reading,
    id: FactId,
    s: DeviceId,
    x: FactId,
    y: FactId,
)
    requires
        g.facts.contains_key(id),
        g.facts[id].id == id,
        g.facts[id].content.body.subjects(g.facts[id].content.author).contains(s),
        !g.facts[id].payload_local(s),
        g.authority_heads(s).finite(),
        g.authority_heads(s).contains(x),
        g.authority_heads(s).contains(y),
        x != y,
        id != y,
        !reach::is_ancestor(g.facts, id, y),
    ensures
        !authority::is_authoritative(g, id),
{
    authority::counting_is_by_subject(g, id);
    let heads = g.authority_heads(s);
    let list = order::ascending(heads);
    ordset::lemma_listing(heads);
    assert(list.contains(x) && list.contains(y));
    if list.len() <= 1 {
        assert(list[0] == x && list[0] == y);
    }
    lemma_uncommon(g.facts, id, list, y);
}

proof fn lemma_common(facts: Facts, id: FactId, heads: Seq<FactId>)
    requires
        forall|h: FactId| #[trigger]
            heads.contains(h) ==> h == id || reach::is_ancestor(facts, id, h),
    ensures
        authority::is_common(facts, None, id, heads) == Ok::<bool, authority::Gap>(true),
    decreases heads.len(),
{
    if heads.len() > 0 {
        let rest = heads.drop_first();
        assert(heads.contains(heads[0]));
        assert forall|h: FactId| #[trigger] rest.contains(h) implies h == id
            || reach::is_ancestor(facts, id, h) by {
            let i = choose|i: int| 0 <= i < rest.len() && rest[i] == h;
            assert(heads[i + 1] == h);
            assert(heads.contains(h));
        }
        lemma_common(facts, id, rest);
    }
}

/// What the branches of a fork share keeps counting: a fact that is, or is
/// behind, every head of a lineage without a selection holds its place exactly
/// where it signs for what its signed parents show.
pub proof fn shared_history_keeps_counting(g: Reading, f: FactView, s: DeviceId)
    requires
        g.provenance_complete(s),
        g.authority_heads(s).finite(),
        forall|h: FactId| #[trigger]
            g.authority_heads(s).contains(h) ==> h == f.id || reach::is_ancestor(g.facts, f.id, h),
        g.ancestral_selectors(s, g.authority_heads(s)) == Set::<FactId>::empty(),
        authority::heads_from_parents(g.facts, None, f, s) is Ok,
    ensures
        authority::subject_verdict(g, None, f, s) == Ok::<bool, authority::Gap>(
            f.uses(s) && f.predecessors(s)->0 == authority::heads_from_parents(
                g.facts,
                None,
                f,
                s,
            )->Ok_0,
        ),
{
    let heads = g.authority_heads(s);
    ordset::lemma_listing(heads);
    let list = order::ascending(heads);
    assert forall|h: FactId| #[trigger] list.contains(h) implies h == f.id || reach::is_ancestor(
        g.facts,
        f.id,
        h,
    ) by {
        assert(heads.contains(h));
    }
    lemma_common(g.facts, f.id, list);
    let latest = g.maximal_selectors(s, heads);
    assert(latest =~= Set::<FactId>::empty());
    ordset::lemma_listing(latest);
    assert(g.relevant_selectors(s, heads) == Some(Seq::<FactId>::empty()));
}

/// A resolution of the membership of another device counts whatever became of
/// that device's lineage, where it signs for what its signed parents show.
pub proof fn foreign_membership_resolutions_outlive_forks(g: Reading, f: FactView, s: DeviceId)
    requires
        f.content.body matches BodyView::Resolution {
            cell: ExclusiveCell::Membership { subject },
            ..
        } && subject == s,
        s != f.content.author,
        authority::heads_from_parents(g.facts, None, f, s) is Ok,
    ensures
        authority::subject_verdict(g, None, f, s) == Ok::<bool, authority::Gap>(
            f.uses(s) && f.predecessors(s)->0 == authority::heads_from_parents(
                g.facts,
                None,
                f,
                s,
            )->Ok_0,
        ),
{
}

proof fn lemma_uncommon(facts: Facts, id: FactId, heads: Seq<FactId>, y: FactId)
    requires
        heads.contains(y),
        id != y,
        !reach::is_ancestor(facts, id, y),
    ensures
        authority::is_common(facts, None, id, heads) != Ok::<bool, authority::Gap>(true),
    decreases heads.len(),
{
    if heads[0] != y {
        let rest = heads.drop_first();
        let i = choose|i: int| 0 <= i < heads.len() && heads[i] == y;
        assert(rest[i - 1] == y);
        lemma_uncommon(facts, id, rest, y);
    }
}

/// Without complete selections on record a device's part in a lineage counts
/// for nothing, and so it does where several latest selections stand.
pub proof fn unsettled_selections_suspend_the_lineage(g: Reading, id: FactId, s: DeviceId)
    requires
        g.facts.contains_key(id),
        g.facts[id].content.body.subjects(g.facts[id].content.author).contains(s),
        !g.facts[id].payload_local(s),
        !g.provenance_complete(s) || order::ascending(
            g.maximal_selectors(s, g.authority_heads(s)),
        ).len() > 1,
    ensures
        !authority::is_authoritative(g, id),
{
    authority::counting_is_by_subject(g, id);
}

/// A fact counts only where the lineage that it signs for each of its subjects
/// is the one that its signed parents show.
pub proof fn counting_facts_sign_what_their_parents_show(g: Reading, id: FactId, s: DeviceId)
    requires
        authority::is_authoritative(g, id),
        g.facts[id].content.body.subjects(g.facts[id].content.author).contains(s),
    ensures
        g.facts[id].uses(s),
        authority::heads_from_parents(g.facts, None, g.facts[id], s) == Ok::<
            Seq<FactId>,
            authority::Gap,
        >(g.facts[id].predecessors(s)->0),
{
    authority::counting_is_by_subject(g, id);
}

} // verus!

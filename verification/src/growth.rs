//! What several facts that join a history one after the other can change.

use vstd::prelude::*;

use crate::authority;
use crate::canon;
use crate::capture;
use crate::causal_order;
use crate::content::ExclusiveCell;
use crate::device::DeviceId;
use crate::exactness;
use crate::fact::{Facts, FactView};
use crate::ids::FactId;
use crate::impact;
use crate::impact::ImpactView;
use crate::index;
use crate::multimap;
use crate::ordset;
use crate::projection;
use crate::reach;

verus! {

/// Whether an impact has all that a fact bears on by itself.
pub open spec fn has_own(t: ImpactView, v: FactView) -> bool {
    &&& forall|c: ExclusiveCell| #[trigger] v.advances(c) ==> t.cells.contains(c)
    &&& forall|d: DeviceId| #[trigger] v.touches(d) ==> t.subjects.contains(d)
}

/// Whether an impact has what every participant in a lineage bears on.
pub open spec fn is_swept(old_facts: Facts, s: DeviceId, t: ImpactView) -> bool {
    forall|id: FactId| #[trigger]
        old_facts.contains_key(id) && old_facts[id].takes_part(s) ==> has_own(t, old_facts[id])
}

/// Whether a new fact leaves the old ones as they counted, but for what an
/// impact has.
pub open spec fn is_newcomer(old_facts: Facts, x: FactView, t: ImpactView) -> bool {
    &&& has_own(t, x)
    &&& forall|s: DeviceId| #[trigger]
        x.head_subjects().contains(s) ==> is_swept(old_facts, s, t) || (!canon::selects_for(x, s)
            && exactness::is_single(exactness::lineage_heads(old_facts, s))
            && exactness::lineage_heads(old_facts, s).subset_of(x.inputs()))
}

/// Whether facts grew out of old ones by newcomers.
#[verifier::opaque]
pub open spec fn is_grown(old_facts: Facts, facts: Facts, t: ImpactView) -> bool {
    &&& exactness::is_signed_history(old_facts)
    &&& exactness::is_signed_history(facts)
    &&& forall|id: FactId| #[trigger]
        old_facts.contains_key(id) ==> facts.contains_key(id) && facts[id] == old_facts[id]
    &&& forall|id: FactId| #[trigger]
        facts.contains_key(id) && !old_facts.contains_key(id) ==> is_newcomer(
            old_facts,
            facts[id],
            t,
        )
    &&& forall|s: DeviceId, x: FactId| #[trigger]
        exactness::lineage_heads(facts, s).contains(x) && old_facts.contains_key(x)
            ==> exactness::lineage_heads(old_facts, s).contains(x)
    &&& forall|s: DeviceId|
        has_newcomer(old_facts, facts, s) || #[trigger] exactness::lineage_heads(facts, s)
            == exactness::lineage_heads(old_facts, s)
    &&& forall|a: FactId, b: FactId|
        old_facts.contains_key(b) ==> #[trigger] reach::is_ancestor(facts, a, b)
            == reach::is_ancestor(old_facts, a, b)
}

/// Whether the projection of facts is that of the old ones, but for what an
/// impact has.
pub open spec fn is_changed_within(old_facts: Facts, facts: Facts, t: ImpactView) -> bool {
    let was = projection::projected(exactness::reading_of(old_facts));
    let now = projection::projected(exactness::reading_of(facts));
    &&& forall|c: ExclusiveCell|
        !(#[trigger] t.cells.contains(c)) ==> capture::held(now.cells, c) == capture::held(
            was.cells,
            c,
        )
    &&& forall|d: DeviceId|
        !(#[trigger] t.subjects.contains(d)) ==> capture::held(now.stand_down, d)
            == capture::held(was.stand_down, d)
}

/// Whether a new fact advances a lineage.
pub open spec fn has_newcomer(old_facts: Facts, facts: Facts, s: DeviceId) -> bool {
    exists|id: FactId| #[trigger]
        facts.contains_key(id) && !old_facts.contains_key(id) && facts[id].head_subjects().contains(
            s,
        )
}

/// A history grew out of itself.
pub proof fn lemma_grown_start(facts: Facts, t: ImpactView)
    requires
        exactness::is_signed_history(facts),
    ensures
        is_grown(facts, facts, t),
{
    reveal(is_grown);
}

/// What all branches of a lineage bear on has what every participant does.
proof fn lemma_swept(old_facts: Facts, s: DeviceId, seeds: Set<FactId>, t: ImpactView)
    requires
        ({
            let p = impact::participant_impact(
                exactness::reading_of(old_facts),
                s,
                seeds,
                Set::empty(),
            );
            p.cells.subset_of(t.cells) && p.subjects.subset_of(t.subjects)
        }),
    ensures
        is_swept(old_facts, s, t),
{
    let g = exactness::reading_of(old_facts);
    let none = Set::<FactId>::empty();
    let group = impact::participants(g, s, none);
    let edges = impact::branch_edges(g, s, none);
    let ids = reach::reach(edges, seeds.union(group));
    let p = impact::participant_impact(g, s, seeds, none);
    reach::lemma_reach_closed(edges, seeds.union(group));
    assert forall|id: FactId| #[trigger]
        old_facts.contains_key(id) && old_facts[id].takes_part(s) implies has_own(
        t,
        old_facts[id],
    ) by {
        assert(multimap::at(index::participants_of(old_facts), s).contains(id));
        assert(group.contains(id));
        assert(ids.contains(id));
        assert forall|c: ExclusiveCell| #[trigger]
            old_facts[id].advances(c) implies t.cells.contains(c) by {
            assert(p.cells.contains(c));
        }
        assert forall|d: DeviceId| #[trigger]
            old_facts[id].touches(d) implies t.subjects.contains(d) by {
            assert(p.subjects.contains(d));
        }
    }
}

/// A fact whose impact on the old facts an impact has is a newcomer.
proof fn lemma_newcomer(old_facts: Facts, facts: Facts, f: FactView, t: ImpactView)
    requires
        is_grown(old_facts, facts, t),
        canon::extends(facts, f),
        exactness::is_signed_through(f),
        exactness::follows_one(facts, f),
        impact::impact(exactness::reading_of(old_facts), f, Set::empty()).cells.subset_of(t.cells),
        impact::impact(exactness::reading_of(old_facts), f, Set::empty()).subjects.subset_of(
            t.subjects,
        ),
    ensures
        is_newcomer(old_facts, f, t),
{
    reveal(is_grown);
    reveal(impact::impact);
    let g = exactness::reading_of(old_facts);
    let none = Set::<FactId>::empty();
    let about = f.content.body.subjects(f.content.author);
    let whole = impact::impact(g, f, none);
    assert forall|s: DeviceId| #[trigger] f.head_subjects().contains(s) implies is_swept(
        old_facts,
        s,
        t,
    ) || (!canon::selects_for(f, s) && exactness::is_single(
        exactness::lineage_heads(old_facts, s),
    ) && exactness::lineage_heads(old_facts, s).subset_of(f.inputs())) by {
        assert(about.contains(s));
        let one = impact::subject_impact(g, f, s, none);
        assert forall|c: ExclusiveCell| #[trigger] one.cells.contains(c) implies t.cells.contains(
            c,
        ) by {
            assert(whole.cells.contains(c));
        }
        assert forall|d: DeviceId| #[trigger]
            one.subjects.contains(d) implies t.subjects.contains(d) by {
            assert(whole.subjects.contains(d));
        }
        if impact::selects_for(f.content.body, s) {
            lemma_swept(old_facts, s, impact::seeds_of(f, s), t);
        } else {
            let heads = impact::fork_heads(g, s, none);
            exactness::lemma_heads_indexed(g, s);
            assert(heads =~= exactness::lineage_heads(old_facts, s));
            if exists|h: FactId| #[trigger]
                heads.contains(h) && h != f.id && !f.inputs().contains(h) {
                lemma_swept(old_facts, s, heads, t);
            } else if !is_swept(old_facts, s, t) {
                assert forall|h: FactId| #[trigger] heads.contains(h) implies f.inputs().contains(
                    h,
                ) by {
                    assert(old_facts.contains_key(h));
                    assert(facts.contains_key(h));
                }
                if has_newcomer(old_facts, facts, s) {
                    let m = choose|m: FactId| #[trigger]
                        facts.contains_key(m) && !old_facts.contains_key(m)
                            && facts[m].head_subjects().contains(s);
                    assert(is_newcomer(old_facts, facts[m], t));
                } else {
                    let all = facts.insert(f.id, f);
                    reach::lemma_reach_closed(reach::input_edges(all), f.inputs());
                    assert forall|a: FactId, b: FactId| #[trigger]
                        heads.contains(a) && #[trigger] heads.contains(b) implies a == b by {
                        assert(exactness::lineage_heads(facts, s).contains(a));
                        assert(exactness::lineage_heads(facts, s).contains(b));
                        assert(reach::is_dominated(all, f.inputs(), a));
                        assert(reach::is_dominated(all, f.inputs(), b));
                    }
                }
            }
        }
    }
}

/// An old fact of a lineage that every newcomer builds on is shared by all
/// its heads.
proof fn lemma_shared_by_all(
    old_facts: Facts,
    facts: Facts,
    t: ImpactView,
    id: FactId,
    s: DeviceId,
)
    requires
        is_grown(old_facts, facts, t),
        old_facts.contains_key(id),
        old_facts[id].head_subjects().contains(s),
        !is_swept(old_facts, s, t),
        exactness::is_single(exactness::lineage_heads(old_facts, s)),
    ensures
        exactness::is_shared(facts, s, id),
{
    reveal(is_grown);
    let members = exactness::lineage_members(old_facts, s);
    let edges = reach::input_edges(old_facts);
    let list = choose|list: Seq<FactId>| #[trigger]
        causal_order::is_causal(old_facts, list) && list.to_set() == old_facts.dom();
    assert(old_facts.dom().contains(id));
    assert(list.to_set().contains(id));
    let i = choose|i: int| 0 <= i < list.len() && list[i] == id;
    reach::lemma_reach_closed(edges, set![id]);
    assert(set![id].contains(id));
    assert(members.contains(id));
    let p = exactness::lemma_top_above(old_facts, list, members, id, i);
    assert(exactness::lineage_heads(old_facts, s).contains(p));
    exactness::lemma_heads_read(old_facts, s);
    assert(old_facts.contains_key(p));
    crate::fact::lemma_inputs_finite(old_facts[p]);
    ordset::lemma_listing(old_facts[p].inputs());
    reach::lemma_reach_step(edges, p);
    assert(edges[p].to_set() =~= old_facts[p].inputs());
    assert(exactness::is_signed_through(old_facts[p]));
    assert(old_facts[p].inputs() =~= old_facts[p].content.parents.to_set());
    exactness::lemma_same_reach(old_facts, old_facts[p].inputs());
    assert(id == p || reach::is_ancestor(old_facts, id, p));
    assert forall|h: FactId| #[trigger]
        exactness::lineage_heads(facts, s).contains(h) implies id == h || reach::is_ancestor(
        facts,
        id,
        h,
    ) by {
        if old_facts.contains_key(h) {
            assert(exactness::lineage_heads(old_facts, s).contains(h));
            assert(h == p);
            assert(reach::is_ancestor(facts, id, p) == reach::is_ancestor(old_facts, id, p));
        } else {
            exactness::lemma_heads_read(facts, s);
            assert(facts.contains_key(h));
            assert(exactness::lineage_members(facts, s).contains(h));
            assert(facts[h].head_subjects().contains(s));
            assert(is_newcomer(old_facts, facts[h], t));
            assert(facts[h].inputs().contains(p));
            assert(exactness::is_signed_through(facts[h]));
            assert(facts[h].content.parents.to_set().contains(p));
            reach::lemma_reach_closed(
                reach::parent_edges(facts),
                facts[h].content.parents.to_set(),
            );
            assert(reach::is_ancestor(facts, p, h));
            if id != p {
                assert(reach::is_ancestor(facts, id, p));
                reach::ancestry_is_transitive(facts, id, p, h);
            }
        }
    }
}

/// Facts that a newcomer joins grew on.
proof fn lemma_grown_on(old_facts: Facts, facts: Facts, f: FactView, t: ImpactView)
    requires
        is_grown(old_facts, facts, t),
        canon::extends(facts, f),
        exactness::is_signed_through(f),
        is_newcomer(old_facts, f, t),
    ensures
        is_grown(old_facts, facts.insert(f.id, f), t),
{
    reveal(is_grown);
    let all = facts.insert(f.id, f);
    exactness::signed_history_grows(facts, f);
    assert(!old_facts.contains_key(f.id)) by {
        if old_facts.contains_key(f.id) {
            assert(facts.contains_key(f.id));
        }
    }
    assert forall|s: DeviceId, x: FactId| #[trigger]
        exactness::lineage_heads(all, s).contains(x) && old_facts.contains_key(
            x,
        ) implies exactness::lineage_heads(old_facts, s).contains(x) by {
        exactness::lemma_heads_after(facts, f, s);
        assert(exactness::lineage_heads(facts, s).contains(x));
    }
    assert forall|s: DeviceId|
        has_newcomer(old_facts, all, s) || #[trigger] exactness::lineage_heads(all, s)
            == exactness::lineage_heads(old_facts, s) by {
        exactness::lemma_heads_after(facts, f, s);
        if f.head_subjects().contains(s) {
            assert(all.contains_key(f.id) && !old_facts.contains_key(f.id)
                && all[f.id].head_subjects().contains(s));
        } else if has_newcomer(old_facts, facts, s) {
            let m = choose|m: FactId| #[trigger]
                facts.contains_key(m) && !old_facts.contains_key(m)
                    && facts[m].head_subjects().contains(s);
            assert(all.contains_key(m) && !old_facts.contains_key(m)
                && all[m].head_subjects().contains(s));
        } else {
            assert(exactness::lineage_heads(facts, s) == exactness::lineage_heads(old_facts, s));
        }
    }
    assert forall|a: FactId, b: FactId|
        old_facts.contains_key(b) implies #[trigger] reach::is_ancestor(all, a, b)
        == reach::is_ancestor(old_facts, a, b) by {
        assert(facts.contains_key(b));
        exactness::lemma_ancestors_stay(facts, f, a, b);
        assert(reach::is_ancestor(facts, a, b) == reach::is_ancestor(old_facts, a, b));
    }
    assert forall|id: FactId| #[trigger]
        old_facts.contains_key(id) implies all.contains_key(id) && all[id] == old_facts[id] by {
        assert(facts.contains_key(id));
    }
    assert forall|id: FactId| #[trigger]
        all.contains_key(id) && !old_facts.contains_key(id) implies is_newcomer(
        old_facts,
        all[id],
        t,
    ) by {
        if id != f.id {
            assert(facts.contains_key(id));
        }
    }
}

/// A fact that bears on something outside an impact counts as before when a
/// newcomer joins.
proof fn lemma_counts_on(old_facts: Facts, facts: Facts, f: FactView, t: ImpactView, id: FactId)
    requires
        is_grown(old_facts, facts, t),
        canon::extends(facts, f),
        exactness::is_signed_through(f),
        is_newcomer(old_facts, f, t),
        facts.contains_key(id),
        !has_own(t, facts[id]),
    ensures
        authority::is_authoritative(exactness::reading_of(facts.insert(f.id, f)), id)
            == authority::is_authoritative(exactness::reading_of(facts), id),
{
    let all = facts.insert(f.id, f);
    lemma_grown_on(old_facts, facts, f, t);
    reveal(is_grown);
    assert(old_facts.contains_key(id)) by {
        if !old_facts.contains_key(id) {
            assert(is_newcomer(old_facts, facts[id], t));
        }
    }
    assert(facts[id] == old_facts[id]);
    assert forall|s: DeviceId| #[trigger]
        facts[id].content.body.subjects(facts[id].content.author).contains(s)
            && facts[id].takes_part(s) implies !canon::selects_for(f, s) && exactness::is_shared(
        all,
        s,
        id,
    ) == exactness::is_shared(facts, s, id) by {
        if f.head_subjects().contains(s) {
            assert(!is_swept(old_facts, s, t)) by {
                assert(old_facts.contains_key(id) && old_facts[id].takes_part(s));
            }
            assert(old_facts[id].head_subjects().contains(s));
            lemma_shared_by_all(old_facts, facts, t, id, s);
            lemma_shared_by_all(old_facts, all, t, id, s);
        } else {
            exactness::lemma_shared_apart(facts, f, id, s);
            assert(!canon::selects_for(f, s)) by {
                if canon::selects_for(f, s) {
                    assert(f.content.body.subjects(f.content.author).contains(s));
                }
            }
        }
    }
    exactness::lemma_counting_alike(facts, f, id);
}

/// A fact whose impact on the old facts an impact has joins without changing
/// the projection elsewhere.
pub proof fn lemma_grows(old_facts: Facts, facts: Facts, f: FactView, t: ImpactView)
    requires
        is_grown(old_facts, facts, t),
        is_changed_within(old_facts, facts, t),
        canon::extends(facts, f),
        exactness::is_signed_through(f),
        exactness::follows_one(facts, f),
        impact::impact(exactness::reading_of(old_facts), f, Set::empty()).cells.subset_of(t.cells),
        impact::impact(exactness::reading_of(old_facts), f, Set::empty()).subjects.subset_of(
            t.subjects,
        ),
    ensures
        is_grown(old_facts, facts.insert(f.id, f), t),
        is_changed_within(old_facts, facts.insert(f.id, f), t),
{
    let all = facts.insert(f.id, f);
    lemma_newcomer(old_facts, facts, f, t);
    lemma_grown_on(old_facts, facts, f, t);
    assert(exactness::is_signed_history(facts)) by {
        reveal(is_grown);
    }
    let was = projection::projected(exactness::reading_of(old_facts));
    let mid = projection::projected(exactness::reading_of(facts));
    let now = projection::projected(exactness::reading_of(all));
    assert forall|c: ExclusiveCell| !(#[trigger] t.cells.contains(c)) implies capture::held(
        now.cells,
        c,
    ) == capture::held(was.cells, c) by {
        assert forall|x: FactId| #[trigger]
            facts.contains_key(x) && facts[x].advances(c) implies authority::is_authoritative(
            exactness::reading_of(all),
            x,
        ) == authority::is_authoritative(exactness::reading_of(facts), x) by {
            lemma_counts_on(old_facts, facts, f, t, x);
        }
        exactness::lemma_cell_unmoved(facts, f, c);
        assert(capture::held(now.cells, c) == capture::held(mid.cells, c));
    }
    assert forall|d: DeviceId| !(#[trigger] t.subjects.contains(d)) implies capture::held(
        now.stand_down,
        d,
    ) == capture::held(was.stand_down, d) by {
        assert forall|x: FactId| #[trigger]
            facts.contains_key(x) && facts[x].content.body.stands_down() == Some(
                d,
            ) implies authority::is_authoritative(exactness::reading_of(all), x)
            == authority::is_authoritative(exactness::reading_of(facts), x) by {
            assert(facts[x].touches(d));
            lemma_counts_on(old_facts, facts, f, t, x);
        }
        if f.content.body.stands_down() == Some(d) {
            assert(f.touches(d));
        }
        exactness::lemma_stand_unmoved(facts, f, d);
        assert(capture::held(now.stand_down, d) == capture::held(mid.stand_down, d));
    }
}

} // verus!

//! The projection that a graph keeps up to date is the one that its facts
//! give.

use vstd::prelude::*;

use crate::admission;
use crate::authority;
use crate::authority::Gap;
use crate::canon;
use crate::causal_order;
use crate::content::{BodyView, ExclusiveCell};
use crate::costs;
use crate::costs::CostView;
use crate::device::DeviceId;
use crate::error::SemanticError;
use crate::fact::{Facts, FactView};
use crate::graph;
use crate::graph::{GraphView, ProjectionView, Reading, RowView, Selection};
use crate::ids::FactId;
use crate::impact;
use crate::journal;
use crate::multimap;
use crate::order;
use crate::ordset;
use crate::projection;
use crate::quarantine;
use crate::reach;
use crate::rebuild;
use crate::retry;
use crate::retry::RetryView;
use crate::validation;

verus! {

/// Whether a fact signs for all that it builds on: its inputs are among its
/// parents, and a resolution cites what it selects.
pub open spec fn is_signed_through(f: FactView) -> bool {
    &&& f.inputs().subset_of(f.content.parents.to_set())
    &&& f.content.body matches BodyView::Resolution { cited_heads, selected_head, .. }
        ==> cited_heads.contains(selected_head)
    &&& f.content.body matches BodyView::AuthorityLineageResolution {
        cited_heads,
        selected_head,
        ..
    } ==> cited_heads.contains(selected_head)
}

/// Whether facts are a complete history in which every fact signs for all
/// that it builds on.
pub open spec fn is_signed_history(facts: Facts) -> bool {
    &&& canon::is_history(facts)
    &&& canon::is_acyclic(facts)
    &&& forall|id: FactId| #[trigger] facts.contains_key(id) ==> is_signed_through(facts[id])
}

/// What is read of a graph with these facts.
pub open spec fn reading_of(facts: Facts) -> Reading {
    Reading { facts, index: canon::index_of(facts), current: true }
}

/// The facts that advance the lineage of a subject.
pub open spec fn lineage_members(facts: Facts, s: DeviceId) -> Set<FactId> {
    canon::joining(facts, |f: FactView, s: DeviceId| f.head_subjects().contains(s), s)
}

/// The heads of the lineage of a subject.
pub open spec fn lineage_heads(facts: Facts, s: DeviceId) -> Set<FactId> {
    canon::tops(facts, lineage_members(facts, s))
}

/// The facts that advance a cell.
pub open spec fn cell_members(facts: Facts, c: ExclusiveCell) -> Set<FactId> {
    canon::joining(facts, |f: FactView, c: ExclusiveCell| f.advances(c), c)
}

/// The typed selectors for a subject.
pub open spec fn selectors_for(facts: Facts, s: DeviceId) -> Set<FactId> {
    Set::new(|id: FactId| facts.contains_key(id) && canon::selects_for(facts[id], s))
}

/// Whether a set has at most one member.
pub open spec fn is_single(set: Set<FactId>) -> bool {
    forall|a: FactId, b: FactId| #[trigger] set.contains(a) && #[trigger] set.contains(b) ==> a == b
}

/// Whether a fact is, or is behind, every head of the lineage of a subject,
/// or the lineage has one head at most.
pub open spec fn is_shared(facts: Facts, s: DeviceId, id: FactId) -> bool {
    is_single(lineage_heads(facts, s)) || forall|h: FactId| #[trigger]
        lineage_heads(facts, s).contains(h) ==> id == h || reach::is_ancestor(facts, id, h)
}

proof fn lemma_single(set: Set<FactId>)
    requires
        set.finite(),
    ensures
        order::ascending(set).len() <= 1 <==> is_single(set),
        set.len() <= 1 <==> is_single(set),
{
    let list = order::ascending(set);
    ordset::lemma_listing(set);
    if list.len() > 1 {
        assert(list.contains(list[0]) && list.contains(list[1]));
        assert(list[0] != list[1]);
    } else {
        assert forall|a: FactId, b: FactId| #[trigger]
            set.contains(a) && #[trigger] set.contains(b) implies a == b by {
            assert(list.contains(a) && list.contains(b));
        }
    }
}

/// The heads that are read are those of the facts, where the index of heads
/// is.
pub proof fn lemma_heads_indexed(g: Reading, s: DeviceId)
    requires
        canon::is_history(g.facts),
        g.current,
        g.index.authority_heads == canon::lineage_heads_of(g.facts),
    ensures
        g.authority_heads(s) == lineage_heads(g.facts, s),
        lineage_heads(g.facts, s).subset_of(g.facts.dom()),
        lineage_heads(g.facts, s).finite(),
{
    let facts = g.facts;
    let members = lineage_members(facts, s);
    let heads = lineage_heads(facts, s);
    let held = multimap::at(g.index.authority_heads, s);
    assert(heads.subset_of(facts.dom()));
    vstd::set_lib::lemma_set_subset_finite(facts.dom(), heads);
    if !g.index.authority_heads.contains_key(s) {
        assert forall|x: FactId| !(#[trigger] members.contains(x)) by {
            if members.contains(x) {
                assert(facts.contains_key(x) && facts[x].head_subjects().contains(s));
            }
        }
    }
    assert(held =~= heads);
    assert(g.authority_heads(s) =~= heads);
}

/// The heads that the indexes hold are those of the facts.
pub proof fn lemma_heads_read(facts: Facts, s: DeviceId)
    requires
        canon::is_history(facts),
    ensures
        reading_of(facts).authority_heads(s) == lineage_heads(facts, s),
        lineage_heads(facts, s).subset_of(facts.dom()),
        lineage_heads(facts, s).finite(),
{
    lemma_heads_indexed(reading_of(facts), s);
}

/// The heads of a cell that the indexes hold are those of the facts.
pub proof fn lemma_cell_heads_read(facts: Facts, c: ExclusiveCell)
    requires
        canon::is_history(facts),
    ensures
        reading_of(facts).raw_heads(c) == canon::tops(facts, cell_members(facts, c)),
        reading_of(facts).raw_heads(c).subset_of(facts.dom()),
        reading_of(facts).raw_heads(c).finite(),
{
    let g = reading_of(facts);
    let members = cell_members(facts, c);
    let heads = canon::tops(facts, members);
    assert(heads.subset_of(facts.dom()));
    vstd::set_lib::lemma_set_subset_finite(facts.dom(), heads);
    if !g.index.cell_heads.contains_key(c) {
        assert forall|x: FactId| !(#[trigger] members.contains(x)) by {
            if members.contains(x) {
                assert(facts.contains_key(x) && facts[x].advances(c));
            }
        }
    }
    assert(g.raw_heads(c) =~= heads);
}

/// Where facts sign for all that they build on, signed ancestry is all
/// ancestry.
pub proof fn lemma_same_reach(facts: Facts, roots: Set<FactId>)
    requires
        is_signed_history(facts),
    ensures
        reach::reach(reach::input_edges(facts), roots) == reach::reach(
            reach::parent_edges(facts),
            roots,
        ),
{
    let all = reach::input_edges(facts);
    let signed = reach::parent_edges(facts);
    assert forall|set: Set<FactId>| #[trigger] reach::closed(all, set) <==> reach::closed(
        signed,
        set,
    ) by {
        assert forall|x: FactId, y: FactId|
            facts.contains_key(x) implies (#[trigger] all[x].contains(y) <==> #[trigger] signed[x].contains(y)) by {
            crate::fact::lemma_inputs_finite(facts[x]);
            ordset::lemma_listing(facts[x].inputs());
            assert(is_signed_through(facts[x]));
            assert(facts[x].content.parents.to_set().contains(y) <==> signed[x].contains(y));
        }
        if reach::closed(all, set) {
            assert forall|x: FactId, y: FactId|
                set.contains(x) && signed.contains_key(x) && #[trigger] signed[x].contains(
                    y,
                ) implies #[trigger] set.contains(y) by {
                assert(all.contains_key(x) && all[x].contains(y));
            }
        }
        if reach::closed(signed, set) {
            assert forall|x: FactId, y: FactId|
                set.contains(x) && all.contains_key(x) && #[trigger] all[x].contains(
                    y,
                ) implies #[trigger] set.contains(y) by {
                assert(signed.contains_key(x) && signed[x].contains(y));
            }
        }
    }
    let a = reach::reach(all, roots);
    let b = reach::reach(signed, roots);
    reach::lemma_reach_closed(all, roots);
    reach::lemma_reach_closed(signed, roots);
    assert(reach::closed(all, a) && reach::closed(all, b));
    reach::lemma_reach_least(signed, roots, a);
    reach::lemma_reach_least(all, roots, b);
    assert(a =~= b);
}

/// Every member is or is behind a top.
pub proof fn lemma_top_above(
    facts: Facts,
    list: Seq<FactId>,
    members: Set<FactId>,
    x: FactId,
    i: int,
) -> (t: FactId)
    requires
        canon::is_history(facts),
        causal_order::is_causal(facts, list),
        list.to_set() == facts.dom(),
        members.subset_of(facts.dom()),
        0 <= i < list.len(),
        members.contains(list[i]),
        reach::reach(reach::input_edges(facts), set![list[i]]).contains(x),
    ensures
        canon::tops(facts, members).contains(t),
        reach::reach(reach::input_edges(facts), set![t]).contains(x),
    decreases list.len() - i,
{
    let edges = reach::input_edges(facts);
    let m = list[i];
    if canon::tops(facts, members).contains(m) {
        m
    } else {
        let over = choose|over: FactId| #[trigger]
            members.contains(over) && reach::is_dominated(facts, facts[over].inputs(), m);
        assert(facts.dom().contains(over));
        assert(list.to_set().contains(over));
        let j = choose|j: int| 0 <= j < list.len() && list[j] == over;
        canon::lemma_behind_is_before(facts, list, j, m);
        let k = choose|k: int| 0 <= k < list.take(j).len() && list.take(j)[k] == m;
        assert(list[k] == m && list[i] == m);
        assert(k == i);
        crate::fact::lemma_inputs_finite(facts[over]);
        ordset::lemma_listing(facts[over].inputs());
        reach::lemma_reach_step(edges, over);
        assert(edges[over].to_set() =~= facts[over].inputs());
        assert(reach::reach(edges, set![over]).contains(m));
        reach::lemma_reach_monotone(edges, set![m], set![over]);
        lemma_top_above(facts, list, members, x, j)
    }
}

/// The selectors at or behind the heads of a lineage are all selectors for
/// its subject.
pub proof fn lemma_ancestral(facts: Facts, s: DeviceId)
    requires
        is_signed_history(facts),
    ensures
        reading_of(facts).ancestral_selectors(s, lineage_heads(facts, s)) == selectors_for(
            facts,
            s,
        ),
        selectors_for(facts, s).finite(),
        selectors_for(facts, s).subset_of(facts.dom()),
{
    let g = reading_of(facts);
    let heads = lineage_heads(facts, s);
    let found = g.ancestral_selectors(s, heads);
    let want = selectors_for(facts, s);
    assert(want.subset_of(facts.dom()));
    vstd::set_lib::lemma_set_subset_finite(facts.dom(), want);
    let list = choose|list: Seq<FactId>| #[trigger]
        causal_order::is_causal(facts, list) && list.to_set() == facts.dom();
    assert forall|x: FactId| #[trigger] want.contains(x) implies found.contains(x) by {
        assert(facts.dom().contains(x));
        assert(list.to_set().contains(x));
        let i = choose|i: int| 0 <= i < list.len() && list[i] == x;
        let edges = reach::input_edges(facts);
        reach::lemma_reach_closed(edges, set![x]);
        assert(set![x].contains(x));
        assert(facts[x].head_subjects().contains(s));
        assert(lineage_members(facts, s).contains(x));
        let t = lemma_top_above(facts, list, lineage_members(facts, s), x, i);
        lemma_same_reach(facts, set![t]);
        assert(canon::relation_to(facts, t, x).post_selector);
        assert(canon::is_related(facts, t, x));
        assert(heads.contains(t));
        assert(authority::is_post(g.index.provenance, t, x));
    }
    assert(found =~= want);
}

/// How resident facts stand to each other is on record as before when a fact
/// follows.
proof fn lemma_rows_stay(facts: Facts, f: FactView, id: FactId, s: FactId)
    requires
        canon::is_history(facts),
        canon::extends(facts, f),
        facts.contains_key(id),
        facts.contains_key(s),
    ensures
        authority::relation_of(canon::provenance_of(facts.insert(f.id, f)), id, s)
            == authority::relation_of(canon::provenance_of(facts), id, s),
        authority::is_post(canon::provenance_of(facts.insert(f.id, f)), id, s)
            == authority::is_post(canon::provenance_of(facts), id, s),
{
    let all = facts.insert(f.id, f);
    if facts[s].is_selector() {
        canon::lemma_relation_stays(facts, f, id, s);
    }
    assert(canon::is_related(all, id, s) == canon::is_related(facts, id, s));
    if canon::is_related(facts, id, s) {
        assert(canon::is_related(all, id, s));
    }
}

/// The latest of some resident selectors stay the latest when a fact follows.
pub proof fn lemma_maxima_stay(facts: Facts, f: FactView, some: Set<FactId>)
    requires
        canon::is_history(facts),
        canon::extends(facts, f),
        some.subset_of(facts.dom()),
    ensures
        authority::maxima(canon::provenance_of(facts.insert(f.id, f)), some) == authority::maxima(
            canon::provenance_of(facts),
            some,
        ),
{
    let all = facts.insert(f.id, f);
    let now = canon::provenance_of(all);
    let before = canon::provenance_of(facts);
    assert forall|a: FactId, b: FactId| some.contains(a) && some.contains(b) implies #[trigger] authority::is_post(
        now,
        a,
        b,
    ) == authority::is_post(before, a, b) by {
        lemma_rows_stay(facts, f, a, b);
    }
    assert forall|x: FactId| #[trigger] authority::maxima(now, some).contains(x)
        <==> authority::maxima(before, some).contains(x) by {
        if some.contains(x) {
            if exists|o: FactId|
                some.contains(o) && o != x && #[trigger] authority::is_post(now, o, x) {
                let o = choose|o: FactId|
                    some.contains(o) && o != x && #[trigger] authority::is_post(now, o, x);
                assert(authority::is_post(before, o, x));
            }
            if exists|o: FactId|
                some.contains(o) && o != x && #[trigger] authority::is_post(before, o, x) {
                let o = choose|o: FactId|
                    some.contains(o) && o != x && #[trigger] authority::is_post(before, o, x);
                assert(authority::is_post(now, o, x));
            }
        }
    }
    assert(authority::maxima(now, some) =~= authority::maxima(before, some));
}

/// What resident selectors admit stays admitted when a fact follows.
proof fn lemma_permits_stay(facts: Facts, f: FactView, selectors: Seq<FactId>, id: FactId)
    requires
        canon::is_history(facts),
        canon::extends(facts, f),
        facts.contains_key(id),
        forall|i: int| 0 <= i < selectors.len() ==> facts.contains_key(#[trigger] selectors[i]),
    ensures
        authority::all_permit(reading_of(facts.insert(f.id, f)), selectors, id)
            == authority::all_permit(reading_of(facts), selectors, id),
{
    let all = facts.insert(f.id, f);
    assert forall|i: int| 0 <= i < selectors.len() implies #[trigger] authority::permits(
        reading_of(all),
        selectors[i],
        id,
    ) == authority::permits(reading_of(facts), selectors[i], id) by {
        lemma_rows_stay(facts, f, id, selectors[i]);
    }
    if authority::all_permit(reading_of(facts), selectors, id) {
        assert forall|i: int| 0 <= i < selectors.len() implies authority::permits(
            reading_of(all),
            #[trigger] selectors[i],
            id,
        ) by {
            assert(authority::permits(reading_of(facts), selectors[i], id));
        }
    }
    if authority::all_permit(reading_of(all), selectors, id) {
        assert forall|i: int| 0 <= i < selectors.len() implies authority::permits(
            reading_of(facts),
            #[trigger] selectors[i],
            id,
        ) by {
            assert(authority::permits(reading_of(all), selectors[i], id));
        }
    }
}

/// The selectors that count stay the same when a fact follows.
proof fn lemma_relevant_stay(
    facts: Facts,
    f: FactView,
    pending: Set<FactId>,
    relevant: Seq<FactId>,
)
    requires
        canon::is_history(facts),
        canon::extends(facts, f),
        pending.finite(),
        pending.subset_of(facts.dom()),
        forall|i: int| 0 <= i < relevant.len() ==> facts.contains_key(#[trigger] relevant[i]),
    ensures
        authority::relevant_from(reading_of(facts.insert(f.id, f)), pending, relevant)
            == authority::relevant_from(reading_of(facts), pending, relevant),
        authority::relevant_from(reading_of(facts), pending, relevant) matches Some(list)
            ==> forall|i: int| 0 <= i < list.len() ==> facts.contains_key(#[trigger] list[i]),
    decreases pending.len(),
{
    let all = facts.insert(f.id, f);
    let now = reading_of(all);
    let before = reading_of(facts);
    if pending != Set::<FactId>::empty() {
        lemma_maxima_stay(facts, f, pending);
        let top = authority::maxima(before.index.provenance, pending);
        if top != Set::<FactId>::empty() {
            authority::lemma_fewer(pending, top);
            let a = top.filter(|c: FactId| authority::all_permit(now, relevant, c));
            let b = top.filter(|c: FactId| authority::all_permit(before, relevant, c));
            assert forall|c: FactId| #[trigger] a.contains(c) <==> b.contains(c) by {
                if top.contains(c) {
                    assert(facts.dom().contains(c));
                    lemma_permits_stay(facts, f, relevant, c);
                }
            }
            assert(a =~= b);
            assert(b.subset_of(pending));
            vstd::set_lib::lemma_set_subset_finite(pending, b);
            ordset::lemma_listing(b);
            let longer = relevant + order::ascending(b);
            assert forall|i: int| 0 <= i < longer.len() implies facts.contains_key(
                #[trigger] longer[i],
            ) by {
                if i >= relevant.len() {
                    let x = order::ascending(b)[i - relevant.len()];
                    assert(order::ascending(b).contains(x));
                    assert(b.contains(x));
                    assert(facts.dom().contains(x));
                }
            }
            lemma_relevant_stay(facts, f, pending.difference(top), longer);
        }
    }
}

/// A fact that follows leaves the selectors for other subjects alone.
pub proof fn lemma_selectors_stay(facts: Facts, f: FactView, s: DeviceId)
    requires
        canon::is_history(facts),
        canon::extends(facts, f),
        !canon::selects_for(f, s),
    ensures
        selectors_for(facts.insert(f.id, f), s) == selectors_for(facts, s),
        reading_of(facts.insert(f.id, f)).provenance_complete(s) == reading_of(
            facts,
        ).provenance_complete(s),
{
    let all = facts.insert(f.id, f);
    let now = reading_of(all);
    let before = reading_of(facts);
    assert(selectors_for(all, s) =~= selectors_for(facts, s));
    let a = multimap::at(now.index.selectors, s);
    let b = multimap::at(before.index.selectors, s);
    assert forall|x: Selection| #[trigger] a.contains(x) <==> b.contains(x) by {
        if a.contains(x) {
            assert(facts.contains_key(x.selector) && canon::selects_for(facts[x.selector], s));
            assert(before.index.selectors.contains_key(s));
        }
        if b.contains(x) {
            assert(all.contains_key(x.selector) && canon::selects_for(all[x.selector], s));
            assert(now.index.selectors.contains_key(s));
        }
    }
    assert(a =~= b);
    assert forall|x: Selection| #[trigger] a.contains(x) implies authority::relation_of(
        now.index.provenance,
        x.selector,
        x.selector,
    ) == authority::relation_of(before.index.provenance, x.selector, x.selector) by {
        assert(facts.contains_key(x.selector));
        lemma_rows_stay(facts, f, x.selector, x.selector);
    }
}

/// Signed ancestry of a resident fact stays when a fact follows.
pub proof fn lemma_ancestors_stay(facts: Facts, f: FactView, a: FactId, b: FactId)
    requires
        canon::is_history(facts),
        canon::extends(facts, f),
        facts.contains_key(b),
    ensures
        reach::is_ancestor(facts.insert(f.id, f), a, b) == reach::is_ancestor(facts, a, b),
{
    let parents = facts[b].content.parents.to_set();
    assert(parents.subset_of(facts.dom())) by {
        assert(parents.subset_of(facts[b].inputs()));
    }
    canon::lemma_parents_within(facts, f, parents);
}

proof fn lemma_beaten_stays(facts: Facts, f: FactView, id: FactId, others: Seq<FactId>)
    requires
        canon::is_history(facts),
        canon::extends(facts, f),
        forall|i: int| 0 <= i < others.len() ==> facts.contains_key(#[trigger] others[i]),
    ensures
        authority::is_beaten(facts.insert(f.id, f), None, id, others) == authority::is_beaten(
            facts,
            None,
            id,
            others,
        ),
    decreases others.len(),
{
    if others.len() > 0 {
        let rest = others.drop_first();
        assert forall|i: int| 0 <= i < rest.len() implies facts.contains_key(#[trigger] rest[i]) by {
            assert(rest[i] == others[i + 1]);
        }
        lemma_beaten_stays(facts, f, id, rest);
        assert(facts.contains_key(others[0]));
        lemma_ancestors_stay(facts, f, id, others[0]);
    }
}

proof fn lemma_unbeaten_stays(facts: Facts, f: FactView, ids: Seq<FactId>, n: int)
    requires
        canon::is_history(facts),
        canon::extends(facts, f),
        0 <= n <= ids.len(),
        forall|i: int| 0 <= i < ids.len() ==> facts.contains_key(#[trigger] ids[i]),
    ensures
        authority::unbeaten(facts.insert(f.id, f), None, ids, n) == authority::unbeaten(
            facts,
            None,
            ids,
            n,
        ),
    decreases n,
{
    if n > 0 {
        lemma_unbeaten_stays(facts, f, ids, n - 1);
        lemma_beaten_stays(facts, f, ids[n - 1], ids);
    }
}

proof fn lemma_direct_stays(
    facts: Facts,
    f: FactView,
    parents: Seq<FactId>,
    s: DeviceId,
    n: int,
)
    requires
        !facts.contains_key(f.id),
        0 <= n <= parents.len(),
        forall|i: int| 0 <= i < parents.len() ==> facts.contains_key(#[trigger] parents[i]),
    ensures
        authority::direct_uses(facts.insert(f.id, f), parents, s, n) == authority::direct_uses(
            facts,
            parents,
            s,
            n,
        ),
        forall|i: int|
            0 <= i < authority::direct_uses(facts, parents, s, n).len() ==> facts.contains_key(
                #[trigger] authority::direct_uses(facts, parents, s, n)[i],
            ),
    decreases n,
{
    if n > 0 {
        lemma_direct_stays(facts, f, parents, s, n - 1);
        assert(facts.contains_key(parents[n - 1]));
    }
}

/// What a resident fact carries among its parents stays when a fact follows.
proof fn lemma_carried_stays(facts: Facts, f: FactView, id: FactId, s: DeviceId)
    requires
        canon::is_history(facts),
        canon::extends(facts, f),
        facts.contains_key(id),
    ensures
        authority::heads_from_parents(facts.insert(f.id, f), None, facts[id], s)
            == authority::heads_from_parents(facts, None, facts[id], s),
{
    let parents = facts[id].content.parents;
    assert forall|i: int| 0 <= i < parents.len() implies facts.contains_key(
        #[trigger] parents[i],
    ) by {
        assert(parents.to_set().contains(parents[i]));
        assert(facts[id].inputs().contains(parents[i]));
        assert(facts.dom().contains(parents[i]));
    }
    lemma_direct_stays(facts, f, parents, s, parents.len() as int);
    let direct = authority::direct_uses(facts, parents, s, parents.len() as int);
    lemma_unbeaten_stays(facts, f, direct, direct.len() as int);
}

/// What being common to all heads of a list comes to.
proof fn lemma_common_is(facts: Facts, id: FactId, heads: Seq<FactId>)
    ensures
        authority::is_common(facts, None, id, heads) == Ok::<bool, Gap>(
            forall|i: int|
                0 <= i < heads.len() ==> id == (#[trigger] heads[i]) || reach::is_ancestor(
                    facts,
                    id,
                    heads[i],
                ),
        ),
    decreases heads.len(),
{
    if heads.len() > 0 {
        let rest = heads.drop_first();
        lemma_common_is(facts, id, rest);
        let first = id == heads[0] || reach::is_ancestor(facts, id, heads[0]);
        assert forall|i: int| 0 <= i < rest.len() implies rest[i] == #[trigger] heads[i + 1] by {}
        if first && (forall|i: int|
            0 <= i < rest.len() ==> id == (#[trigger] rest[i]) || reach::is_ancestor(
                facts,
                id,
                rest[i],
            )) {
            assert forall|i: int| 0 <= i < heads.len() implies id == (#[trigger] heads[i])
                || reach::is_ancestor(facts, id, heads[i]) by {
                if i > 0 {
                    assert(rest[i - 1] == heads[i]);
                }
            }
        } else if first {
            let j = choose|j: int|
                0 <= j < rest.len() && !(id == (#[trigger] rest[j]) || reach::is_ancestor(
                    facts,
                    id,
                    rest[j],
                ));
            assert(heads[j + 1] == rest[j]);
        }
    }
}

/// Whether a fact carries the heads that its parents show.
spec fn is_carried(facts: Facts, id: FactId, s: DeviceId) -> bool {
    facts[id].predecessors(s) matches Some(signed) && authority::heads_from_parents(
        facts,
        None,
        facts[id],
        s,
    ) == Ok::<Seq<FactId>, Gap>(signed)
}

/// Whether the selectors for a subject leave a fact in place.
spec fn is_permitted(facts: Facts, id: FactId, s: DeviceId) -> bool {
    let g = reading_of(facts);
    let selectors = selectors_for(facts, s);
    &&& g.provenance_complete(s)
    &&& order::ascending(authority::maxima(g.index.provenance, selectors)).len() <= 1
    &&& authority::relevant_from(g, selectors, Seq::empty()) matches Some(list)
        && authority::all_permit(g, list, id)
}

/// Whether a fact holds its place in the lineage of a subject.
spec fn holds_place(facts: Facts, id: FactId, s: DeviceId) -> bool {
    is_carried(facts, id, s) && (facts[id].payload_local(s) || (is_permitted(facts, id, s)
        && is_shared(facts, s, id)))
}

proof fn lemma_verdict_is(facts: Facts, id: FactId, s: DeviceId)
    requires
        is_signed_history(facts),
        facts.contains_key(id),
    ensures
        authority::subject_verdict(reading_of(facts), None, facts[id], s) == Ok::<bool, Gap>(true)
            <==> holds_place(facts, id, s),
{
    let g = reading_of(facts);
    let f = facts[id];
    let heads = lineage_heads(facts, s);
    let listed = order::ascending(heads);
    lemma_heads_read(facts, s);
    lemma_ancestral(facts, s);
    lemma_single(heads);
    ordset::lemma_listing(heads);
    lemma_common_is(facts, id, listed);
    assert(f.id == id);
    assert((forall|i: int|
        0 <= i < listed.len() ==> id == (#[trigger] listed[i]) || reach::is_ancestor(
            facts,
            id,
            listed[i],
        )) <==> (forall|h: FactId| #[trigger]
        heads.contains(h) ==> id == h || reach::is_ancestor(facts, id, h))) by {
        if forall|i: int|
            0 <= i < listed.len() ==> id == (#[trigger] listed[i]) || reach::is_ancestor(
                facts,
                id,
                listed[i],
            ) {
            assert forall|h: FactId| #[trigger] heads.contains(h) implies id == h
                || reach::is_ancestor(facts, id, h) by {
                assert(listed.contains(h));
                let i = choose|i: int| 0 <= i < listed.len() && listed[i] == h;
                assert(id == listed[i] || reach::is_ancestor(facts, id, listed[i]));
            }
        }
        if forall|h: FactId| #[trigger]
            heads.contains(h) ==> id == h || reach::is_ancestor(facts, id, h) {
            assert forall|i: int| 0 <= i < listed.len() implies id == (#[trigger] listed[i])
                || reach::is_ancestor(facts, id, listed[i]) by {
                assert(listed.contains(listed[i]));
                assert(heads.contains(listed[i]));
            }
        }
    }
}

/// A fact that follows a signed history and signs for all that it builds on
/// makes a longer one.
pub proof fn signed_history_grows(facts: Facts, f: FactView)
    requires
        is_signed_history(facts),
        canon::extends(facts, f),
        is_signed_through(f),
    ensures
        is_signed_history(facts.insert(f.id, f)),
{
    let all = facts.insert(f.id, f);
    canon::lemma_extended(facts, f);
    let list = choose|list: Seq<FactId>| #[trigger]
        causal_order::is_causal(facts, list) && list.to_set() == facts.dom();
    let longer = list.push(f.id);
    assert(longer.drop_last() =~= list);
    assert(longer.no_duplicates()) by {
        assert forall|i: int, j: int|
            0 <= i < longer.len() && 0 <= j < longer.len() && i != j implies longer[i]
            != longer[j] by {
            if i < list.len() {
                assert(facts.contains_key(list[i]));
            }
            if j < list.len() {
                assert(facts.contains_key(list[j]));
            }
        }
    }
    assert forall|i: int| 0 <= i < longer.len() implies all.contains_key(#[trigger] longer[i])
        && causal_order::awaits(all, longer[i]).subset_of(longer.take(i).to_set()) by {
        assert(longer.take(i) =~= list.take(i));
        if i < list.len() {
            assert(longer[i] == list[i]);
            assert(facts.contains_key(list[i]));
            assert forall|x: FactId| #[trigger] causal_order::awaits(all, list[i]).contains(
                x,
            ) implies list.take(i).to_set().contains(x) by {
                assert(facts[list[i]].inputs().contains(x));
                assert(facts.dom().contains(x));
                assert(causal_order::awaits(facts, list[i]).contains(x));
            }
        } else {
            assert(list.take(i) =~= list);
            assert forall|x: FactId| #[trigger] causal_order::awaits(all, f.id).contains(
                x,
            ) implies list.to_set().contains(x) by {
                assert(f.inputs().contains(x));
                assert(facts.dom().contains(x));
            }
        }
    }
    assert(longer.to_set() =~= all.dom()) by {
        assert forall|x: FactId| #[trigger] longer.to_set().contains(x) <==> all.dom().contains(
            x,
        ) by {
            if all.dom().contains(x) && x != f.id {
                assert(list.to_set().contains(x));
                let i = choose|i: int| 0 <= i < list.len() && list[i] == x;
                assert(longer[i] == x);
            }
            if x == f.id {
                assert(longer[list.len() as int] == x);
            }
            if longer.to_set().contains(x) && x != f.id {
                let i = choose|i: int| 0 <= i < longer.len() && longer[i] == x;
                assert(facts.contains_key(list[i]));
            }
        }
    }
    assert(causal_order::is_causal(all, longer));
    assert forall|id: FactId| #[trigger] all.contains_key(id) implies is_signed_through(all[id]) by {
        if id != f.id {
            assert(facts.contains_key(id));
        }
    }
}

/// A fact keeps or misses its place as before, where the one that follows
/// selects nothing for the subject and leaves the fact as shared as it was.
proof fn lemma_place_stays(facts: Facts, f: FactView, id: FactId, s: DeviceId)
    requires
        is_signed_history(facts),
        canon::extends(facts, f),
        facts.contains_key(id),
        !facts[id].payload_local(s) ==> !canon::selects_for(f, s) && is_shared(facts, s, id)
            == is_shared(facts.insert(f.id, f), s, id),
    ensures
        holds_place(facts.insert(f.id, f), id, s) == holds_place(facts, id, s),
{
    let all = facts.insert(f.id, f);
    assert(all[id] == facts[id]);
    lemma_carried_stays(facts, f, id, s);
    if !facts[id].payload_local(s) {
        lemma_selectors_stay(facts, f, s);
        lemma_ancestral(facts, s);
        let selectors = selectors_for(facts, s);
        lemma_maxima_stay(facts, f, selectors);
        lemma_relevant_stay(facts, f, selectors, Seq::empty());
        if let Some(list) = authority::relevant_from(reading_of(facts), selectors, Seq::empty()) {
            lemma_permits_stay(facts, f, list, id);
        }
    }
}

/// The heads of a lineage after a fact followed.
pub proof fn lemma_heads_after(facts: Facts, f: FactView, s: DeviceId)
    requires
        canon::is_history(facts),
        canon::extends(facts, f),
    ensures
        !f.head_subjects().contains(s) ==> lineage_heads(facts.insert(f.id, f), s)
            == lineage_heads(facts, s),
        f.head_subjects().contains(s) ==> forall|x: FactId| #[trigger]
            lineage_heads(facts.insert(f.id, f), s).contains(x) <==> x == f.id || (lineage_heads(
                facts,
                s,
            ).contains(x) && !reach::is_dominated(facts.insert(f.id, f), f.inputs(), x)),
{
    let all = facts.insert(f.id, f);
    let before = lineage_members(facts, s);
    let after = lineage_members(all, s);
    if f.head_subjects().contains(s) {
        assert(after =~= before.insert(f.id));
    } else {
        assert(after =~= before);
    }
    assert forall|x: FactId| #[trigger] lineage_heads(all, s).contains(x) <==> (if f.head_subjects().contains(
        s,
    ) {
        x == f.id || (lineage_heads(facts, s).contains(x) && !reach::is_dominated(
            all,
            f.inputs(),
            x,
        ))
    } else {
        lineage_heads(facts, s).contains(x)
    }) by {
        canon::lemma_top(facts, f, before, after, x);
    }
    if !f.head_subjects().contains(s) {
        assert(lineage_heads(all, s) =~= lineage_heads(facts, s));
    }
}

/// A fact that does not join a lineage leaves all as shared as it was.
pub proof fn lemma_shared_apart(facts: Facts, f: FactView, id: FactId, s: DeviceId)
    requires
        canon::is_history(facts),
        canon::extends(facts, f),
        facts.contains_key(id),
        !f.head_subjects().contains(s),
    ensures
        is_shared(facts.insert(f.id, f), s, id) == is_shared(facts, s, id),
{
    let all = facts.insert(f.id, f);
    lemma_heads_after(facts, f, s);
    lemma_heads_read(facts, s);
    let heads = lineage_heads(facts, s);
    assert forall|h: FactId| #[trigger] heads.contains(h) implies reach::is_ancestor(all, id, h)
        == reach::is_ancestor(facts, id, h) by {
        assert(facts.dom().contains(h));
        lemma_ancestors_stay(facts, f, id, h);
    }
}

/// Whether the fact that follows builds on one head at most of each lineage
/// that it advances by the ordinary way.
pub open spec fn follows_one(facts: Facts, f: FactView) -> bool {
    forall|s: DeviceId, a: FactId, b: FactId|
        f.head_subjects().contains(s) && !impact::selects_for(f.content.body, s)
            && #[trigger] lineage_heads(facts, s).contains(a) && #[trigger] lineage_heads(
            facts,
            s,
        ).contains(b) && reach::is_dominated(facts.insert(f.id, f), f.inputs(), a)
            && reach::is_dominated(facts.insert(f.id, f), f.inputs(), b) ==> a == b
}

/// Whether what a fact bears on is brought up to date with the one that
/// follows.
spec fn is_covered(facts: Facts, f: FactView, id: FactId) -> bool {
    let touched = impact::impact(reading_of(facts.insert(f.id, f)), f, Set::empty());
    &&& forall|c: ExclusiveCell| #[trigger] facts[id].advances(c) ==> touched.cells.contains(c)
    &&& forall|d: DeviceId| #[trigger] facts[id].touches(d) ==> touched.subjects.contains(d)
}

proof fn lemma_covering(facts: Facts, f: FactView, id: FactId, s: DeviceId, ids: Set<FactId>)
    requires
        facts.contains_key(id),
        id != f.id,
        f.content.body.subjects(f.content.author).contains(s),
        ids.contains(id),
        impact::subject_impact(reading_of(facts.insert(f.id, f)), f, s, Set::empty())
            == impact::impact_of(facts.insert(f.id, f), ids),
    ensures
        is_covered(facts, f, id),
{
    reveal(impact::impact);
    let all = facts.insert(f.id, f);
    let one = impact::subject_impact(reading_of(all), f, s, Set::empty());
    assert(all.contains_key(id) && all[id] == facts[id]);
    assert forall|c: ExclusiveCell| #[trigger] facts[id].advances(c) implies one.cells.contains(
        c,
    ) by {
        assert(ids.contains(id) && all.contains_key(id) && all[id].advances(c));
    }
    assert forall|d: DeviceId| #[trigger] facts[id].touches(d) implies one.subjects.contains(d) by {
        assert(ids.contains(id) && all.contains_key(id) && all[id].touches(d));
    }
}

/// A fact of a lineage that another joins is brought up to date with it, or
/// stays as shared as it was.
proof fn lemma_joined(facts: Facts, f: FactView, id: FactId, s: DeviceId)
    requires
        is_signed_history(facts),
        canon::extends(facts, f),
        facts.contains_key(id),
        facts[id].takes_part(s),
        f.head_subjects().contains(s),
        follows_one(facts, f),
    ensures
        is_covered(facts, f, id) || (!canon::selects_for(f, s) && is_shared(
            facts.insert(f.id, f),
            s,
            id,
        ) == is_shared(facts, s, id)),
{
    let all = facts.insert(f.id, f);
    let g = reading_of(all);
    let staged = Set::<FactId>::empty();
    let group = impact::participants(g, s, staged);
    assert(group.contains(id)) by {
        assert(all.contains_key(id) && all[id].takes_part(s));
    }
    let edges = impact::branch_edges(g, s, staged);
    if impact::selects_for(f.content.body, s) {
        let seeds = impact::seeds_of(f, s);
        let ids = reach::reach(edges, seeds.union(group));
        reach::lemma_reach_closed(edges, seeds.union(group));
        lemma_covering(facts, f, id, s, ids);
    } else {
        let heads = impact::fork_heads(g, s, staged);
        lemma_heads_read(all, s);
        lemma_heads_after(facts, f, s);
        if exists|h: FactId| #[trigger] heads.contains(h) && h != f.id && !f.inputs().contains(h) {
            let ids = reach::reach(edges, heads.union(group));
            reach::lemma_reach_closed(edges, heads.union(group));
            lemma_covering(facts, f, id, s, ids);
        } else {
            reach::lemma_reach_closed(reach::input_edges(all), f.inputs());
            assert forall|a: FactId, b: FactId| #[trigger]
                lineage_heads(facts, s).contains(a) && #[trigger] lineage_heads(facts, s).contains(
                    b,
                ) implies a == b by {
                lemma_head_passed(facts, f, s, a);
                lemma_head_passed(facts, f, s, b);
            }
            assert(is_single(lineage_heads(facts, s)));
            assert forall|a: FactId, b: FactId| #[trigger]
                lineage_heads(all, s).contains(a) && #[trigger] lineage_heads(all, s).contains(
                    b,
                ) implies a == b by {
                lemma_no_other_head(facts, f, s, a);
                lemma_no_other_head(facts, f, s, b);
            }
            assert(is_single(lineage_heads(all, s)));
        }
    }
}

/// Where the fact that follows builds on every head, it is the one head.
proof fn lemma_no_other_head(facts: Facts, f: FactView, s: DeviceId, x: FactId)
    requires
        canon::is_history(facts),
        canon::extends(facts, f),
        f.head_subjects().contains(s),
        !exists|h: FactId| #[trigger]
            impact::fork_heads(reading_of(facts.insert(f.id, f)), s, Set::empty()).contains(h) && h
                != f.id && !f.inputs().contains(h),
        lineage_heads(facts.insert(f.id, f), s).contains(x),
    ensures
        x == f.id,
{
    let all = facts.insert(f.id, f);
    canon::lemma_extended(facts, f);
    lemma_heads_read(all, s);
    lemma_heads_after(facts, f, s);
    if x != f.id {
        let heads = impact::fork_heads(reading_of(all), s, Set::empty());
        assert(multimap::at(reading_of(all).index.authority_heads, s).contains(x));
        assert(heads.contains(x));
        assert(f.inputs().contains(x));
        reach::lemma_reach_closed(reach::input_edges(all), f.inputs());
        assert(reach::is_dominated(all, f.inputs(), x));
    }
}

/// Where the fact that follows builds on every head, every head is behind it.
proof fn lemma_head_passed(facts: Facts, f: FactView, s: DeviceId, x: FactId)
    requires
        canon::is_history(facts),
        canon::extends(facts, f),
        f.head_subjects().contains(s),
        !exists|h: FactId| #[trigger]
            impact::fork_heads(reading_of(facts.insert(f.id, f)), s, Set::empty()).contains(h) && h
                != f.id && !f.inputs().contains(h),
        lineage_heads(facts, s).contains(x),
    ensures
        reach::is_dominated(facts.insert(f.id, f), f.inputs(), x),
{
    let all = facts.insert(f.id, f);
    lemma_heads_after(facts, f, s);
    lemma_heads_read(facts, s);
    assert(facts.dom().contains(x));
    if !reach::is_dominated(all, f.inputs(), x) {
        assert(lineage_heads(all, s).contains(x));
        lemma_no_other_head(facts, f, s, x);
    }
}

/// A resident fact counts as before, where the one that follows selects
/// nothing in its lineages and leaves it as shared as it was.
pub proof fn lemma_counting_alike(facts: Facts, f: FactView, id: FactId)
    requires
        is_signed_history(facts),
        canon::extends(facts, f),
        is_signed_through(f),
        facts.contains_key(id),
        forall|s: DeviceId| #[trigger]
            facts[id].content.body.subjects(facts[id].content.author).contains(s)
                && facts[id].takes_part(s) ==> !canon::selects_for(f, s) && is_shared(
                facts.insert(f.id, f),
                s,
                id,
            ) == is_shared(facts, s, id),
    ensures
        authority::is_authoritative(reading_of(facts.insert(f.id, f)), id)
            == authority::is_authoritative(reading_of(facts), id),
{
    let all = facts.insert(f.id, f);
    signed_history_grows(facts, f);
    authority::counting_is_by_subject(reading_of(all), id);
    authority::counting_is_by_subject(reading_of(facts), id);
    let subjects = facts[id].content.body.subjects(facts[id].content.author);
    assert(all[id] == facts[id]);
    assert forall|s: DeviceId| #[trigger] subjects.contains(s) implies (
    authority::subject_verdict(reading_of(all), None, facts[id], s) == Ok::<bool, Gap>(true)) == (
    authority::subject_verdict(reading_of(facts), None, facts[id], s) == Ok::<bool, Gap>(true)) by {
        lemma_verdict_is(all, id, s);
        lemma_verdict_is(facts, id, s);
        if facts[id].payload_local(s) || facts[id].uses(s) {
            lemma_place_stays(facts, f, id, s);
        }
    }
}

/// A resident fact is brought up to date with the one that follows, or counts
/// as before.
proof fn lemma_counting_stays(facts: Facts, f: FactView, id: FactId)
    requires
        is_signed_history(facts),
        canon::extends(facts, f),
        is_signed_through(f),
        follows_one(facts, f),
        facts.contains_key(id),
    ensures
        is_covered(facts, f, id) || authority::is_authoritative(
            reading_of(facts.insert(f.id, f)),
            id,
        ) == authority::is_authoritative(reading_of(facts), id),
{
    let subjects = facts[id].content.body.subjects(facts[id].content.author);
    if !is_covered(facts, f, id) {
        assert forall|s: DeviceId| #[trigger]
            subjects.contains(s) && facts[id].takes_part(s) implies !canon::selects_for(f, s)
            && is_shared(facts.insert(f.id, f), s, id) == is_shared(facts, s, id) by {
            if f.head_subjects().contains(s) {
                lemma_joined(facts, f, id, s);
            } else {
                lemma_shared_apart(facts, f, id, s);
                assert(!canon::selects_for(f, s)) by {
                    if canon::selects_for(f, s) {
                        assert(f.content.body.subjects(f.content.author).contains(s));
                    }
                }
            }
        }
        lemma_counting_alike(facts, f, id);
    }
}

/// The end of a chain of resolutions stays when a fact follows.
proof fn lemma_settled_stays(
    facts: Facts,
    f: FactView,
    c: ExclusiveCell,
    id: FactId,
    seen: Set<FactId>,
)
    requires
        is_signed_history(facts),
        canon::extends(facts, f),
        facts.contains_key(id),
        !seen.contains(f.id),
    ensures
        projection::settled(facts.insert(f.id, f), c, id, seen) == projection::settled(
            facts,
            c,
            id,
            seen,
        ),
    decreases facts.dom().difference(seen).len(),
{
    let all = facts.insert(f.id, f);
    assert(all.dom() =~= facts.dom().insert(f.id));
    if !seen.contains(id) {
        match facts[id].content.body {
            BodyView::Resolution { cell, cited_heads, selected_head } => {
                if cell == c && !seen.insert(id).contains(selected_head) {
                    assert(is_signed_through(facts[id]));
                    assert(facts[id].content.body.support().contains(selected_head));
                    assert(facts[id].inputs().contains(selected_head));
                    assert(facts.dom().contains(selected_head));
                    assert(reach::parent_edges(facts).dom() =~= facts.dom());
                    reach::lemma_unseen(reach::parent_edges(facts), seen, id);
                    lemma_settled_stays(facts, f, c, selected_head, seen.insert(id));
                }
            },
            _ => {},
        }
    }
}

/// A cell that the fact that follows does not advance has the state that it
/// had, where what advances it counts as before.
pub proof fn lemma_cell_unmoved(facts: Facts, f: FactView, c: ExclusiveCell)
    requires
        is_signed_history(facts),
        canon::extends(facts, f),
        is_signed_through(f),
        !f.advances(c),
        forall|x: FactId| #[trigger]
            facts.contains_key(x) && facts[x].advances(c) ==> authority::is_authoritative(
                reading_of(facts.insert(f.id, f)),
                x,
            ) == authority::is_authoritative(reading_of(facts), x),
    ensures
        projection::cell_state(reading_of(facts.insert(f.id, f)), c) == projection::cell_state(
            reading_of(facts),
            c,
        ),
        reading_of(facts.insert(f.id, f)).known_cells().contains(c) == reading_of(
            facts,
        ).known_cells().contains(c),
{
    reveal(projection::cell_state);
    let all = facts.insert(f.id, f);
    let now = reading_of(all);
    let before = reading_of(facts);
    signed_history_grows(facts, f);
    lemma_cell_heads_read(all, c);
    lemma_cell_heads_read(facts, c);
    let members = cell_members(facts, c);
    assert(cell_members(all, c) =~= members);
    let raw = before.raw_heads(c);
    assert forall|x: FactId| #[trigger] now.raw_heads(c).contains(x) <==> raw.contains(x) by {
        canon::lemma_top(facts, f, members, members, x);
    }
    assert(now.raw_heads(c) =~= raw);
    assert forall|x: FactId| #[trigger] raw.contains(x) implies authority::is_authoritative(now, x)
        == authority::is_authoritative(before, x) by {
        assert(facts.contains_key(x) && facts[x].advances(c));
    }
    let a = raw.filter(|id: FactId| authority::is_authoritative(now, id));
    let b = raw.filter(|id: FactId| authority::is_authoritative(before, id));
    assert(a =~= b);
    let heads = authority::cell_heads(before, c);
    assert(authority::cell_heads(now, c) == heads);
    if heads.len() == 1 {
        vstd::set_lib::lemma_set_subset_finite(raw, b);
        ordset::lemma_listing(b);
        ordset::lemma_listing(raw);
        assert(heads.contains(heads[0]));
        assert(raw.contains(heads[0]));
        lemma_settled_stays(facts, f, c, heads[0], Set::empty());
    }
    if now.known_cells().contains(c) {
        let id = choose|id: FactId| #[trigger] all.contains_key(id) && all[id].advances(c);
        assert(facts.contains_key(id) && facts[id].advances(c));
    }
    if before.known_cells().contains(c) {
        let id = choose|id: FactId| #[trigger] facts.contains_key(id) && facts[id].advances(c);
        assert(all.contains_key(id) && all[id].advances(c));
    }
}

/// A cell that is not brought up to date with the fact that follows has the
/// state that it had.
proof fn lemma_cell_stays(facts: Facts, f: FactView, c: ExclusiveCell)
    requires
        is_signed_history(facts),
        canon::extends(facts, f),
        is_signed_through(f),
        follows_one(facts, f),
        !impact::impact(reading_of(facts.insert(f.id, f)), f, Set::empty()).cells.contains(c),
    ensures
        !f.advances(c),
        projection::cell_state(reading_of(facts.insert(f.id, f)), c) == projection::cell_state(
            reading_of(facts),
            c,
        ),
        reading_of(facts.insert(f.id, f)).known_cells().contains(c) == reading_of(
            facts,
        ).known_cells().contains(c),
{
    assert(!f.advances(c)) by {
        reveal(impact::impact);
    }
    assert forall|x: FactId| #[trigger]
        facts.contains_key(x) && facts[x].advances(c) implies authority::is_authoritative(
        reading_of(facts.insert(f.id, f)),
        x,
    ) == authority::is_authoritative(reading_of(facts), x) by {
        lemma_counting_stays(facts, f, x);
    }
    lemma_cell_unmoved(facts, f, c);
}

/// A device that the fact that follows does not stand down stands as it did,
/// where the evidence against it counts as before.
pub proof fn lemma_stand_unmoved(facts: Facts, f: FactView, d: DeviceId)
    requires
        is_signed_history(facts),
        canon::extends(facts, f),
        is_signed_through(f),
        f.content.body.stands_down() != Some(d),
        forall|x: FactId| #[trigger]
            facts.contains_key(x) && facts[x].content.body.stands_down() == Some(d)
                ==> authority::is_authoritative(reading_of(facts.insert(f.id, f)), x)
                == authority::is_authoritative(reading_of(facts), x),
    ensures
        projection::stand_state(reading_of(facts.insert(f.id, f)), d) == projection::stand_state(
            reading_of(facts),
            d,
        ),
        reading_of(facts.insert(f.id, f)).evidence().contains_key(d) == reading_of(
            facts,
        ).evidence().contains_key(d),
{
    reveal(projection::stand_state);
    let all = facts.insert(f.id, f);
    let now = reading_of(all);
    let before = reading_of(facts);
    let held = multimap::at(before.evidence(), d);
    let kept = multimap::at(now.evidence(), d);
    assert forall|x: FactId| #[trigger] kept.contains(x) <==> held.contains(x) by {
        if kept.contains(x) {
            assert(facts.contains_key(x) && facts[x].content.body.stands_down() == Some(d));
        }
        if held.contains(x) {
            assert(all.contains_key(x) && all[x].content.body.stands_down() == Some(d));
        }
    }
    assert(kept =~= held);
    assert forall|x: FactId| #[trigger] held.contains(x) implies authority::is_authoritative(now, x)
        == authority::is_authoritative(before, x) by {
        assert(facts.contains_key(x) && facts[x].content.body.stands_down() == Some(d));
    }
    assert(held.filter(|id: FactId| authority::is_authoritative(now, id)) =~= held.filter(
        |id: FactId| authority::is_authoritative(before, id),
    ));
    if now.evidence().contains_key(d) {
        let id = choose|id: FactId| #[trigger]
            all.contains_key(id) && all[id].content.body.stands_down() == Some(d);
        assert(facts.contains_key(id) && facts[id].content.body.stands_down() == Some(d));
    }
    if before.evidence().contains_key(d) {
        let id = choose|id: FactId| #[trigger]
            facts.contains_key(id) && facts[id].content.body.stands_down() == Some(d);
        assert(all.contains_key(id) && all[id].content.body.stands_down() == Some(d));
    }
}

/// A device that is not brought up to date with the fact that follows stands
/// as it did.
proof fn lemma_stand_stays(facts: Facts, f: FactView, d: DeviceId)
    requires
        is_signed_history(facts),
        canon::extends(facts, f),
        is_signed_through(f),
        follows_one(facts, f),
        !impact::impact(reading_of(facts.insert(f.id, f)), f, Set::empty()).subjects.contains(d),
    ensures
        f.content.body.stands_down() != Some(d),
        projection::stand_state(reading_of(facts.insert(f.id, f)), d) == projection::stand_state(
            reading_of(facts),
            d,
        ),
        reading_of(facts.insert(f.id, f)).evidence().contains_key(d) == reading_of(
            facts,
        ).evidence().contains_key(d),
{
    assert(f.content.body.stands_down() != Some(d)) by {
        reveal(impact::impact);
        if f.content.body.stands_down() == Some(d) {
            assert(f.touches(d));
        }
    }
    assert forall|x: FactId| #[trigger]
        facts.contains_key(x) && facts[x].content.body.stands_down() == Some(
            d,
        ) implies authority::is_authoritative(reading_of(facts.insert(f.id, f)), x)
        == authority::is_authoritative(reading_of(facts), x) by {
        assert(facts[x].touches(d));
        lemma_counting_stays(facts, f, x);
    }
    lemma_stand_unmoved(facts, f, d);
}

/// Bringing up to date what a fact can change gives the projection of all
/// facts.
proof fn lemma_brought_up(facts: Facts, f: FactView)
    requires
        is_signed_history(facts),
        canon::extends(facts, f),
        is_signed_through(f),
        follows_one(facts, f),
    ensures
        ({
            let now = reading_of(facts.insert(f.id, f));
            let touched = impact::impact(now, f, Set::empty());
            projection::updated(
                projection::projected(reading_of(facts)),
                now,
                touched.cells,
                touched.subjects,
            ) == projection::projected(now)
        }),
{
    let all = facts.insert(f.id, f);
    let now = reading_of(all);
    let before = reading_of(facts);
    let touched = impact::impact(now, f, Set::empty());
    let made = projection::updated(
        projection::projected(before),
        now,
        touched.cells,
        touched.subjects,
    );
    let want = projection::projected(now);
    signed_history_grows(facts, f);
    assert forall|c: ExclusiveCell|
        (#[trigger] made.cells.contains_key(c) <==> want.cells.contains_key(c)) && (
        made.cells.contains_key(c) ==> made.cells[c] == want.cells[c]) by {
        if touched.cells.contains(c) {
            if !now.known_cells().contains(c) {
                reveal(projection::cell_state);
                lemma_cell_heads_read(all, c);
                let raw = now.raw_heads(c);
                assert forall|x: FactId| !(#[trigger] raw.contains(x)) by {
                    if raw.contains(x) {
                        assert(all.contains_key(x) && all[x].advances(c));
                    }
                }
                assert(raw =~= Set::<FactId>::empty());
                assert(raw.filter(|id: FactId| authority::is_authoritative(now, id)) =~= raw);
                ordset::lemma_listing(raw);
                assert(projection::cell_state(now, c) is None);
            }
        } else {
            lemma_cell_stays(facts, f, c);
        }
    }
    assert(made.cells =~= want.cells);
    assert forall|d: DeviceId|
        (#[trigger] made.stand_down.contains_key(d) <==> want.stand_down.contains_key(d)) && (
        made.stand_down.contains_key(d) ==> made.stand_down[d] == want.stand_down[d]) by {
        if touched.subjects.contains(d) {
            if !now.evidence().contains_key(d) {
                reveal(projection::stand_state);
                assert(multimap::at(now.evidence(), d).filter(
                    |id: FactId| authority::is_authoritative(now, id),
                ) =~= Set::<FactId>::empty());
            }
        } else {
            lemma_stand_stays(facts, f, d);
        }
    }
    assert(made.stand_down =~= want.stand_down);
    assert(made =~= want);
}

/// Planning provenance changes nothing but the provenance.
proof fn lemma_planning_keeps(g: GraphView, ids: Seq<FactId>, n: int)
    ensures
        ({
            let h = rebuild::with_planned(g, ids, n);
            h.facts == g.facts && h.fence == g.fence && h.index.authority_heads
                == g.index.authority_heads
        }),
        rebuild::with_all_planned(g, ids, n) matches Ok(h) ==> h.facts == g.facts && h.fence
            == g.fence && h.index.authority_heads == g.index.authority_heads,
    decreases n,
{
    if n > 0 {
        lemma_planning_keeps(g, ids, n - 1);
    }
}

/// What a part of a causal history awaits comes before it in the part.
proof fn lemma_part_listed(
    facts: Facts,
    ids: Set<FactId>,
    list: Seq<FactId>,
    done: Seq<FactId>,
    i: int,
)
    requires
        causal_order::is_causal(facts, list),
        causal_order::ready_after(facts.restrict(ids), done.to_set()) == Set::<FactId>::empty(),
        0 <= i <= list.len(),
    ensures
        forall|j: int|
            0 <= j < i && ids.contains(#[trigger] list[j]) ==> done.to_set().contains(list[j]),
    decreases i,
{
    if i > 0 {
        lemma_part_listed(facts, ids, list, done, i - 1);
        let x = list[i - 1];
        let part = facts.restrict(ids);
        if ids.contains(x) && !done.to_set().contains(x) {
            assert(facts.contains_key(x) && part.contains_key(x));
            assert forall|y: FactId| #[trigger] causal_order::awaits(part, x).contains(
                y,
            ) implies done.to_set().contains(y) by {
                assert(causal_order::awaits(facts, x).contains(y));
                assert(list.take(i - 1).to_set().contains(y));
                let short = list.take(i - 1);
                let j = choose|j: int| 0 <= j < short.len() && short[j] == y;
                assert(list[j] == y);
                assert(ids.contains(y));
            }
            assert(causal_order::ready_after(part, done.to_set()).contains(x));
        }
    }
}

/// The facts behind a fact are a signed history.
proof fn lemma_past_is_history(facts: Facts, roots: Set<FactId>)
    requires
        is_signed_history(facts),
        roots.subset_of(facts.dom()),
    ensures
        is_signed_history(
            facts.restrict(reach::reach(reach::input_edges(facts), roots)),
        ),
{
    let edges = reach::input_edges(facts);
    let ids = reach::reach(edges, roots);
    let part = facts.restrict(ids);
    reach::lemma_reach_closed(edges, roots);
    assert(part.dom().subset_of(facts.dom()));
    vstd::set_lib::lemma_set_subset_finite(facts.dom(), part.dom());
    assert forall|id: FactId| #[trigger] part.contains_key(id) implies part[id].id == id
        && part[id].inputs().subset_of(part.dom()) && is_signed_through(part[id]) && (
    part[id].is_selector() ==> part.contains_key(canon::selected(part[id]))) by {
        assert(facts.contains_key(id) && ids.contains(id));
        crate::fact::lemma_inputs_finite(facts[id]);
        ordset::lemma_listing(facts[id].inputs());
        assert forall|y: FactId| #[trigger] part[id].inputs().contains(y) implies part.dom().contains(
            y,
        ) by {
            assert(edges[id].contains(y));
            assert(ids.contains(y));
            assert(facts.dom().contains(y));
        }
        assert(is_signed_through(facts[id]));
        if part[id].is_selector() {
            assert(part[id].content.body.support().contains(canon::selected(part[id])));
            assert(part[id].inputs().contains(canon::selected(part[id])));
        }
    }
    assert(canon::is_history(part));
    let list = choose|list: Seq<FactId>| #[trigger]
        causal_order::is_causal(facts, list) && list.to_set() == facts.dom();
    let done = causal_order::topological(part, Seq::empty());
    assert(causal_order::is_causal(part, Seq::empty()));
    causal_order::lemma_topological(part, Seq::empty());
    causal_order::lemma_topological_ends(part, Seq::empty());
    lemma_part_listed(facts, ids, list, done, list.len() as int);
    assert forall|x: FactId| #[trigger] done.to_set().contains(x) <==> part.dom().contains(x) by {
        if done.to_set().contains(x) {
            let i = choose|i: int| 0 <= i < done.len() && done[i] == x;
            assert(part.contains_key(done[i]));
        }
        if part.dom().contains(x) {
            assert(list.to_set().contains(x));
            let i = choose|i: int| 0 <= i < list.len() && list[i] == x;
            assert(ids.contains(list[i]));
        }
    }
    assert(done.to_set() =~= part.dom());
    assert(causal_order::is_causal(part, done) && done.to_set() == part.dom());
}

/// A head of a lineage that is behind a fact is a head in its past.
proof fn lemma_head_in_past(facts: Facts, roots: Set<FactId>, s: DeviceId, a: FactId)
    requires
        lineage_heads(facts, s).contains(a),
        reach::reach(reach::input_edges(facts), roots).contains(a),
    ensures
        lineage_heads(
            facts.restrict(reach::reach(reach::input_edges(facts), roots)),
            s,
        ).contains(a),
{
    let edges = reach::input_edges(facts);
    let ids = reach::reach(edges, roots);
    let part = facts.restrict(ids);
    let fewer = reach::input_edges(part);
    let members = lineage_members(part, s);
    assert(members.contains(a));
    assert forall|m: FactId| #[trigger] members.contains(m) implies !reach::is_dominated(
        part,
        part[m].inputs(),
        a,
    ) by {
        assert(lineage_members(facts, s).contains(m));
        let inputs = facts[m].inputs();
        assert(!reach::is_dominated(facts, inputs, a));
        let whole = reach::reach(edges, inputs);
        reach::lemma_reach_closed(edges, inputs);
        assert(reach::closed(fewer, whole)) by {
            assert forall|x: FactId, y: FactId|
                whole.contains(x) && fewer.contains_key(x) && #[trigger] fewer[x].contains(
                    y,
                ) implies #[trigger] whole.contains(y) by {
                assert(edges.contains_key(x) && edges[x].contains(y));
            }
        }
        reach::lemma_reach_least(fewer, inputs, whole);
    }
}

/// A candidate carries the lineages of its subjects, whatever its body.
proof fn lemma_checked_carries(c: GraphView, f: FactView)
    requires
        validation::candidate_check(c, f) is Ok,
    ensures
        validation::carries_lineages(c, f),
        f.content.body matches BodyView::Resolution { cited_heads, selected_head, .. }
            ==> cited_heads.contains(selected_head),
        f.content.body matches BodyView::AuthorityLineageResolution {
            cited_heads,
            selected_head,
            ..
        } ==> cited_heads.contains(selected_head),
{
    reveal(validation::candidate_check);
}

/// A cleared candidate builds on one head at most of each lineage that it
/// advances by the ordinary way.
proof fn lemma_cleared_follows(g: GraphView, f: FactView, c: GraphView)
    requires
        g.indexes_current(),
        g.index == canon::index_of(g.facts),
        is_signed_history(g.facts),
        canon::extends(g.facts, f),
        rebuild::causal_view(g, f) == Ok::<GraphView, SemanticError>(c),
        validation::candidate_check(c, f) is Ok,
    ensures
        follows_one(g.facts, f),
{
    reveal(rebuild::causal_view);
    reveal(rebuild::rebuilt);
    let facts = g.facts;
    let all = facts.insert(f.id, f);
    let edges = reach::input_edges(facts);
    lemma_checked_carries(c, f);
    crate::fact::lemma_inputs_finite(f);
    ordset::lemma_listing(f.inputs());
    canon::lemma_inputs_within(facts, f, f.inputs());
    assert(edges.dom() =~= facts.dom());
    reach::walk_collects_what_is_reachable(edges, f.dependencies());
    let ids = reach::reach(edges, f.inputs());
    let part = facts.restrict(ids);
    lemma_past_is_history(facts, f.inputs());
    let is_whole = c == g;
    if !is_whole {
        let start = GraphView { facts: part, ..graph::started(g.setting) };
        let bare = GraphView { index: rebuild::fresh_index(part), ..start };
        let selectors = rebuild::selector_ids(part);
        lemma_planning_keeps(bare, selectors, selectors.len() as int);
        lemma_planning_keeps(
            rebuild::scoped(g, ids),
            rebuild::selector_ids(rebuild::scoped(g, ids).facts),
            rebuild::selector_ids(rebuild::scoped(g, ids).facts).len() as int,
        );
        canon::fresh_indexes_are_canonical(part);
        assert(part.dom().subset_of(facts.dom()));
        vstd::set_lib::lemma_len_subset(part.dom(), facts.dom());
        assert(start.is_complete());
        assert(c.facts == part);
        assert(c.index.authority_heads == canon::lineage_heads_of(part));
        assert(c.indexes_current());
    }
    assert forall|s: DeviceId, a: FactId, b: FactId|
        f.head_subjects().contains(s) && !impact::selects_for(f.content.body, s)
            && #[trigger] lineage_heads(facts, s).contains(a) && #[trigger] lineage_heads(
            facts,
            s,
        ).contains(b) && reach::is_dominated(all, f.inputs(), a) && reach::is_dominated(
            all,
            f.inputs(),
            b,
        ) implies a == b by {
        assert(validation::carries_lineage(c, f, s));
        let heads = c.reading().authority_heads(s);
        assert(!f.payload_local(s));
        assert(heads.len() <= 1);
        if is_whole {
            lemma_heads_read(facts, s);
            lemma_single(heads);
        } else {
            lemma_heads_indexed(c.reading(), s);
            lemma_single(heads);
            lemma_head_in_past(facts, f.inputs(), s, a);
            lemma_head_in_past(facts, f.inputs(), s, b);
        }
    }
}

/// Whether a graph has the indexes of its facts and keeps the projection that
/// they give.
pub open spec fn is_exact(g: GraphView) -> bool {
    &&& g.indexes_current()
    &&& g.fence.staged_cold_pending == 0
    &&& is_signed_history(g.facts)
    &&& g.index == canon::index_of(g.facts)
    &&& projection::base(g) == projection::projected(g.reading())
}

/// A graph that was just started is exact.
pub proof fn started_graph_is_exact(setting: graph::SettingView)
    ensures
        is_exact(graph::started(setting)),
{
    let g = graph::started(setting);
    canon::indexes_start_empty(setting);
    let none = Seq::<FactId>::empty();
    assert(causal_order::is_causal(g.facts, none));
    assert(none.to_set() =~= g.facts.dom());
}

/// Exact graphs with the same facts answer with the same projection, whatever
/// order the facts came in.
pub proof fn equal_facts_project_equally(a: GraphView, b: GraphView)
    requires
        is_exact(a),
        is_exact(b),
        a.facts == b.facts,
    ensures
        projection::current(a) == projection::current(b),
        projection::current(a) == projection::projected(a.reading()),
{
}

/// The graph after a cleared fact joined an exact one keeps the projection
/// that its facts give.
proof fn lemma_entered_exact(
    g: GraphView,
    cache: Option<(u64, ProjectionView)>,
    f: FactView,
    cost: CostView,
    reserved: bool,
    before: ProjectionView,
    delta: crate::provenance::IndexResidencyDelta,
    rows: Map<FactId, RowView>,
)
    requires
        g.indexes_current(),
        g.fence.staged_cold_pending == 0,
        g.facts.dom().len() < usize::MAX,
        admission::has_room(g, 1),
        is_signed_history(g.facts),
        g.index == canon::index_of(g.facts),
        before == projection::projected(g.reading()),
        canon::extends(g.facts, f),
        is_signed_through(f),
        follows_one(g.facts, f),
        crate::provenance::planned(g, f) == Ok::<Map<FactId, RowView>, SemanticError>(rows),
    ensures
        ({
            let (h, result) = admission::entered(
                GraphView { cache, ..g },
                f,
                cost,
                reserved,
                before,
                Set::empty(),
                delta,
                rows,
            );
            result is Ok ==> is_exact(h) && h.facts == g.facts.insert(f.id, f)
                && result->Ok_0 is Inserted
        }),
{
    reveal(admission::entered);
    let all = g.facts.insert(f.id, f);
    signed_history_grows(g.facts, f);
    canon::indexes_follow_the_facts(g, f);
    let with = admission::joined(GraphView { cache, ..g }, f, cost, rows);
    assert(with.index == canon::index_of(all));
    assert(all.dom() =~= g.facts.dom().insert(f.id));
    assert(with.indexes_current());
    assert(with.reading() == reading_of(all));
    assert(g.reading() == reading_of(g.facts));
    lemma_brought_up(g.facts, f);
}

/// An offered fact keeps a graph exact: the projection brought up to date at
/// the cells and subjects that the fact can change is the projection of all
/// facts.  A refusal for anything but capacity leaves the graph alone.
pub proof fn offer_keeps_graph_exact(
    g: GraphView,
    f: FactView,
    reserved: bool,
    supplied: Option<ProjectionView>,
    cost: Option<CostView>,
)
    requires
        is_exact(g),
        g.facts.dom().len() < usize::MAX,
        admission::has_room(g, 1),
        is_signed_through(f),
        supplied matches Some(p) ==> p == projection::projected(g.reading()),
        cost matches Some(c) ==> c.missing.to_set() == costs::missing_inputs(g, f)
            && !g.facts.contains_key(f.id),
    ensures
        ({
            let (h, result) = admission::offered(g, f, reserved, supplied, cost, Set::empty());
            match result {
                Ok(a) => {
                    &&& is_exact(h)
                    &&& h.facts == (if a is Inserted {
                        g.facts.insert(f.id, f)
                    } else {
                        g.facts
                    })
                    &&& a is Inserted ==> canon::extends(g.facts, f) && follows_one(g.facts, f)
                    &&& h.quarantine.facts == g.quarantine.facts || h.quarantine.facts
                        == g.quarantine.facts.insert(f.id, f)
                },
                Err(e) => e is CapacityExceeded || h == g,
            }
        }),
{
    reveal(admission::offered);
    reveal(admission::entered);
    admission::lemma_screened(g, f);
    let known = match cost {
        Some(c) => Some(c),
        None => match admission::screened(g, f) {
            Ok(Some(c)) => Some(c),
            _ => None,
        },
    };
    if let Some(cost) = known {
        if cost.missing.len() == 0 {
            if let Ok((delta, rows)) = admission::cleared(g, f, cost, reserved) {
                reveal(admission::cleared);
                let past = rebuild::causal_view(g, f)->Ok_0;
                assert(f.inputs().subset_of(g.facts.dom())) by {
                    assert forall|x: FactId| #[trigger]
                        f.inputs().contains(x) implies g.facts.dom().contains(x) by {
                        if !g.facts.contains_key(x) {
                            assert(costs::missing_inputs(g, f).contains(x));
                            assert(cost.missing.to_set().contains(x));
                        }
                    }
                }
                if f.is_selector() {
                    assert(f.content.body.support().contains(canon::selected(f)));
                    assert(f.inputs().contains(canon::selected(f)));
                }
                lemma_cleared_follows(g, f, past);
                match supplied {
                    Some(before) => {
                        lemma_entered_exact(g, g.cache, f, cost, reserved, before, delta, rows);
                        assert(GraphView { cache: g.cache, ..g } == g);
                    },
                    None => {
                        let before = projection::base(g);
                        lemma_entered_exact(g, None, f, cost, reserved, before, delta, rows);
                    },
                }
            }
        }
    }
}

/// Admission keeps a graph exact.
pub proof fn admission_keeps_graph_exact(g: GraphView, f: FactView)
    requires
        is_exact(g),
        g.facts.dom().len() < usize::MAX,
        admission::has_room(g, 1),
        is_signed_through(f),
    ensures
        ({
            let (h, result) = admission::admitted(g, f);
            result matches Ok(a) ==> {
                &&& is_exact(h)
                &&& projection::current(h) == projection::projected(h.reading())
                &&& h.facts == (if a is Inserted {
                    g.facts.insert(f.id, f)
                } else {
                    g.facts
                })
            }
        }),
{
    offer_keeps_graph_exact(g, f, false, None, None);
}

/// Retrying a ready waiter keeps a graph exact, whether the waiter is
/// promoted or dropped for good.
pub proof fn promotion_keeps_graph_exact(g: GraphView, id: FactId)
    requires
        is_exact(g),
        g.facts.dom().len() < usize::MAX,
        admission::has_room(g, 1),
        g.quarantine.facts.contains_key(id) ==> is_signed_through(g.quarantine.facts[id]),
    ensures
        retry::tried(g, id, Set::empty()).1 is Ok ==> {
            let h = retry::tried(g, id, Set::empty()).0;
            &&& is_exact(h)
            &&& h.facts == g.facts || (h.facts == g.facts.insert(
                g.quarantine.facts[id].id,
                g.quarantine.facts[id],
            ) && g.quarantine.facts.contains_key(id) && canon::extends(
                g.facts,
                g.quarantine.facts[id],
            ) && follows_one(g.facts, g.quarantine.facts[id]))
            &&& h.quarantine.facts == g.quarantine.facts || h.quarantine.facts
                == g.quarantine.facts.remove(id) || h.quarantine.facts
                == g.quarantine.facts.remove(id).insert(
                g.quarantine.facts[id].id,
                g.quarantine.facts[id],
            )
        },
{
    reveal(retry::tried);
    let (h, found) = quarantine::removed(g, id);
    assert(h.facts == g.facts && h.index == g.index && h.fence == g.fence && h.cache == g.cache);
    assert(h.reading() == g.reading());
    assert(is_exact(h));
    if let Ok(Some(f)) = found {
        offer_keeps_graph_exact(h, f, true, None, None);
    }
}

/// Whether all of some facts sign for all that they build on.
pub open spec fn are_signed_through(facts: Facts) -> bool {
    forall|id: FactId| #[trigger] facts.contains_key(id) ==> is_signed_through(facts[id])
}

/// Whether a graph is exact, can take what it has in quarantine, and has facts
/// there that sign for all that they build on.
pub open spec fn is_ready(g: GraphView) -> bool {
    &&& is_exact(g)
    &&& quarantine::owned(g)
    &&& retry::is_roomy(g, 1)
    &&& retry::is_countable(g, 0)
    &&& are_signed_through(g.quarantine.facts)
}

pub proof fn lemma_retried_ready(st: RetryView, id: FactId)
    requires
        is_ready(st.g),
        st.g.quarantine.facts.contains_key(id),
    ensures
        retry::retried(st, id, Set::empty()).refusal is None ==> is_ready(
            retry::retried(st, id, Set::empty()).g,
        ),
{
    let g = st.g;
    let f = g.quarantine.facts[id];
    retry::lemma_retried(st, id, Set::empty(), g);
    assert(is_signed_through(f));
    assert(g.quarantine.facts.dom().contains(id));
    assert(g.quarantine.facts.dom().len() >= 1) by {
        if g.quarantine.facts.dom().len() == 0 {
            assert(g.quarantine.facts.dom() =~= Set::<FactId>::empty());
        }
    }
    promotion_keeps_graph_exact(g, id);
}

proof fn lemma_retried_list_ready(st: RetryView, list: Seq<FactId>, n: int)
    requires
        is_ready(st.g),
        st.refusal is None,
        0 <= n <= list.len(),
    ensures
        retry::retried_list(st, list, n, Set::empty()).refusal is None ==> is_ready(
            retry::retried_list(st, list, n, Set::empty()).g,
        ),
    decreases n,
{
    if n > 0 {
        lemma_retried_list_ready(st, list, n - 1);
        let before = retry::retried_list(st, list, n - 1, Set::empty());
        if before.refusal is None {
            let id = list[n - 1];
            if before.g.quarantine.facts.contains_key(id) {
                lemma_retried_ready(before, id);
            } else {
                lemma_retried_none(before, id);
            }
        }
    }
}

/// Retrying what is not in quarantine changes nothing that counts.
pub proof fn lemma_retried_none(st: RetryView, id: FactId)
    requires
        is_ready(st.g),
        !st.g.quarantine.facts.contains_key(id),
    ensures
        is_ready(retry::retried(st, id, Set::empty()).g),
{
    reveal(retry::tried);
    retry::lemma_retried(st, id, Set::empty(), st.g);
    let h = retry::tried(st.g, id, Set::empty()).0;
    assert(h.facts == st.g.facts && h.index == st.g.index && h.fence == st.g.fence && h.cache
        == st.g.cache);
    assert(h.reading() == st.g.reading());
}

pub proof fn lemma_retried_all_ready(st: RetryView, limit: nat)
    requires
        is_ready(st.g),
        st.refusal is None,
    ensures
        retry::retried_all(st, limit, Set::empty()).refusal is None ==> is_ready(
            retry::retried_all(st, limit, Set::empty()).g,
        ),
    decreases limit - st.budget,
{
    let list = retry::frontier(st, limit);
    if list.len() > 0 {
        lemma_retried_list_ready(st, list, list.len() as int);
        let next = retry::retried_list(st, list, list.len() as int, Set::empty());
        if next.refusal is Some || next.budget <= st.budget || next.budget > limit {
        } else {
            lemma_retried_all_ready(next, limit);
        }
    }
}

/// A journaled admission keeps a graph exact, with all the waiters that it
/// promoted or dropped.
pub proof fn journaling_keeps_graph_exact(g: GraphView, f: FactView)
    requires
        is_exact(g),
        quarantine::owned(g),
        retry::is_roomy(g, 2),
        retry::is_countable(g, 1),
        are_signed_through(g.quarantine.facts),
        is_signed_through(f),
    ensures
        ({
            let (h, result) = journal::journaled(g, f);
            result is Ok ==> is_exact(h) && projection::current(h) == projection::projected(
                h.reading(),
            )
        }),
{
    reveal(journal::applied);
    reveal(journal::followed);
    if let Ok(pf) = journal::preflighted(g, f) {
        let a = journal::applied(g, f, pf, Seq::empty(), None, None, 0);
        if a.result is Ok && !(pf.admission is AlreadyPresent) {
            admission::lemma_screened(g, f);
            let cost = pf.cost->0;
            let before = projection::base(g);
            let bare = GraphView { cache: None, ..g };
            let none = Set::<FactId>::empty();
            assert(Seq::<FactId>::empty().to_set() =~= none);
            assert(bare.reading() == g.reading());
            assert(is_exact(bare));
            assert(costs::missing_inputs(bare, f) == costs::missing_inputs(g, f));
            offer_keeps_graph_exact(bare, f, false, Some(before), Some(cost));
            let (h, offered) = admission::offered(bare, f, false, Some(before), Some(cost), none);
            assert(quarantine::owned(bare));
            assert(admission::is_own(cost, f)) by {
                assert(cost.missing.to_set().subset_of(f.inputs()));
            }
            admission::lemma_offered(bare, f, false, Some(before), Some(cost), none);
            retry::lemma_offered_room(bare, f, false, Some(before), Some(cost), none);
            let one: int = 1;
            assert(retry::is_roomy(bare, one + 1));
            assert(retry::is_countable(bare, 1));
            if let Ok(found) = offered {
                if found is Inserted {
                    assert(are_signed_through(h.quarantine.facts));
                    assert(is_ready(h));
                    let prep = journal::prepared(
                        bare,
                        f,
                        cost,
                        journal::first_record(g, Seq::empty(), None),
                        before,
                        none,
                    );
                    let limit = crate::sweep::batch_limit(g.setting.limits)->Ok_0;
                    lemma_retried_all_ready(
                        journal::retry_start(h, prep.rb, 0),
                        limit as nat,
                    );
                }
            }
        }
    }
}

} // verus!

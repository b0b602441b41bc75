//! What a selection settles, and for how long.

use vstd::prelude::*;

use crate::admission;
use crate::admission::AdmissionView;
use crate::authority;
use crate::canon;
use crate::content::{ExclusiveCell, LineageView};
use crate::device::DeviceId;
use crate::error::SemanticError;
use crate::exactness;
use crate::fact::{Facts, FactView};
use crate::graph::GraphView;
use crate::ids::FactId;
use crate::order;
use crate::ordset;
use crate::reach;

verus! {

/// The one member of a set is its listing.
proof fn lemma_one_listed(set: Set<FactId>, x: FactId)
    requires
        forall|y: FactId| #[trigger] set.contains(y) <==> y == x,
    ensures
        set.finite(),
        order::ascending(set) == seq![x],
{
    assert(set =~= Set::<FactId>::empty().insert(x));
    ordset::lemma_listing(set);
    let list = order::ascending(set);
    assert(list.to_set().contains(x));
    if list.len() > 1 {
        assert(list.contains(list[0]) && list.contains(list[1]));
        assert(set.contains(list[0]) && set.contains(list[1]));
        assert(list[0] != list[1]);
    }
    assert(list.contains(list[0]));
    assert(list =~= seq![x]);
}

/// A fact that follows all heads of a lineage is the one head of it.
proof fn lemma_sole_head(facts: Facts, f: FactView, s: DeviceId, x: FactId)
    requires
        canon::is_history(facts),
        canon::extends(facts, f),
        f.head_subjects().contains(s),
        exactness::lineage_heads(facts, s).subset_of(f.inputs()),
    ensures
        exactness::lineage_heads(facts.insert(f.id, f), s).contains(x) <==> x == f.id,
{
    exactness::lemma_heads_after(facts, f, s);
    let all = facts.insert(f.id, f);
    reach::lemma_reach_closed(reach::input_edges(all), f.inputs());
    if exactness::lineage_heads(facts, s).contains(x) {
        assert(f.inputs().contains(x));
        assert(reach::is_dominated(all, f.inputs(), x));
    }
}

/// No fact of a history has one behind it that follows the history.
proof fn lemma_not_behind(facts: Facts, f: FactView, o: FactId)
    requires
        canon::is_history(facts),
        canon::extends(facts, f),
        facts.contains_key(o),
    ensures
        !reach::reach(reach::parent_edges(facts.insert(f.id, f)), set![o]).contains(f.id),
{
    let all = facts.insert(f.id, f);
    let edges = reach::parent_edges(all);
    assert forall|x: FactId, y: FactId|
        facts.dom().contains(x) && edges.contains_key(x) && #[trigger] edges[x].contains(
            y,
        ) implies #[trigger] facts.dom().contains(y) by {
        assert(facts.contains_key(x));
        assert(facts[x].inputs().contains(y));
    }
    assert(reach::closed(edges, facts.dom()));
    reach::lemma_reach_least(edges, set![o], facts.dom());
}

/// A typed selection that follows all heads of a lineage becomes the one head
/// of it, and selects its branch.
pub proof fn selection_becomes_the_sole_head(facts: Facts, f: FactView, s: DeviceId)
    requires
        exactness::is_signed_history(facts),
        canon::extends(facts, f),
        exactness::is_signed_through(f),
        canon::selects_for(f, s),
        f.head_subjects().contains(s),
        exactness::lineage_heads(facts, s).subset_of(f.inputs()),
    ensures
        exactness::reading_of(facts.insert(f.id, f)).lineage(s) == (LineageView {
            subject: s,
            heads: seq![f.id],
            selected_branch: Some(canon::selected(f)),
        }),
{
    let all = facts.insert(f.id, f);
    exactness::signed_history_grows(facts, f);
    exactness::lemma_heads_read(all, s);
    exactness::lemma_ancestral(all, s);
    let r = exactness::reading_of(all);
    let heads = r.authority_heads(s);
    assert forall|x: FactId| #[trigger] heads.contains(x) <==> x == f.id by {
        lemma_sole_head(facts, f, s, x);
    }
    lemma_one_listed(heads, f.id);
    let found = exactness::selectors_for(all, s);
    let latest = r.maximal_selectors(s, heads);
    assert(r.ancestral_selectors(s, heads) == found);
    assert(found.contains(f.id));
    assert forall|x: FactId| #[trigger] latest.contains(x) <==> x == f.id by {
        if x == f.id {
            assert forall|o: FactId|
                found.contains(o) && o != x implies !#[trigger] authority::is_post(
                r.index.provenance,
                o,
                x,
            ) by {
                assert(facts.contains_key(o));
                lemma_not_behind(facts, f, o);
            }
        } else if found.contains(x) {
            assert(r.ancestral_selectors(s, heads).contains(x));
            let h = choose|h: FactId| #[trigger]
                heads.contains(h) && authority::is_post(r.index.provenance, h, x);
            assert(h == f.id);
            assert(authority::is_post(r.index.provenance, f.id, x));
        }
    }
    lemma_one_listed(latest, f.id);
    assert(authority::selected_by(all, f.id) == Some(canon::selected(f)));
}

/// A selection stays selected: a fact that makes no typed selection for the
/// subject, and follows the one head where it joins the lineage, leaves the
/// selected branch.
pub proof fn selection_stays_selected(facts: Facts, f: FactView, s: DeviceId)
    requires
        exactness::is_signed_history(facts),
        canon::extends(facts, f),
        exactness::is_signed_through(f),
        !canon::selects_for(f, s),
        f.head_subjects().contains(s) ==> exactness::lineage_heads(facts, s).subset_of(f.inputs()),
        exactness::reading_of(facts).lineage(s).selected_branch is Some,
    ensures
        ({
            let before = exactness::reading_of(facts).lineage(s);
            let after = exactness::reading_of(facts.insert(f.id, f)).lineage(s);
            &&& after.selected_branch == before.selected_branch
            &&& after.heads == (if f.head_subjects().contains(s) {
                seq![f.id]
            } else {
                before.heads
            })
        }),
{
    let all = facts.insert(f.id, f);
    exactness::signed_history_grows(facts, f);
    exactness::lemma_heads_read(facts, s);
    exactness::lemma_heads_read(all, s);
    exactness::lemma_ancestral(facts, s);
    exactness::lemma_ancestral(all, s);
    exactness::lemma_selectors_stay(facts, f, s);
    exactness::lemma_maxima_stay(facts, f, exactness::selectors_for(facts, s));
    exactness::lemma_heads_after(facts, f, s);
    let was = exactness::reading_of(facts);
    let now = exactness::reading_of(all);
    let heads = now.authority_heads(s);
    if f.head_subjects().contains(s) {
        assert forall|x: FactId| #[trigger] heads.contains(x) <==> x == f.id by {
            lemma_sole_head(facts, f, s, x);
        }
        lemma_one_listed(heads, f.id);
    }
    let latest = was.maximal_selectors(s, was.authority_heads(s));
    assert(now.maximal_selectors(s, heads) == latest);
    let list = order::ascending(latest);
    assert(latest.subset_of(facts.dom()));
    vstd::set_lib::lemma_set_subset_finite(facts.dom(), latest);
    ordset::lemma_listing(latest);
    assert(list.to_set().contains(list[0]));
    assert(facts.contains_key(list[0]));
    assert(list[0] != f.id);
}

/// An admitted typed selection that follows all heads of a lineage is its one
/// head, and what it selects is selected.
pub proof fn admitted_selection_is_the_sole_head(g: GraphView, f: FactView, s: DeviceId)
    requires
        exactness::is_exact(g),
        g.facts.dom().len() < usize::MAX,
        admission::has_room(g, 1),
        exactness::is_signed_through(f),
        canon::selects_for(f, s),
        f.head_subjects().contains(s),
        g.reading().authority_heads(s).subset_of(f.inputs()),
    ensures
        admission::admitted(g, f).1 == Ok::<AdmissionView, SemanticError>(AdmissionView::Inserted)
            ==> admission::admitted(g, f).0.reading().lineage(s) == (LineageView {
            subject: s,
            heads: seq![f.id],
            selected_branch: Some(canon::selected(f)),
        }),
{
    let h = admission::admitted(g, f).0;
    exactness::offer_keeps_graph_exact(g, f, false, None, None);
    if admission::admitted(g, f).1 == Ok::<AdmissionView, SemanticError>(AdmissionView::Inserted) {
        exactness::lemma_heads_read(g.facts, s);
        assert(g.reading() == exactness::reading_of(g.facts));
        assert(h.reading() == exactness::reading_of(h.facts));
        selection_becomes_the_sole_head(g.facts, f, s);
    }
}

/// An admitted grant, or whatever else makes no typed selection for a subject,
/// leaves the selected branch of its lineage, where it follows the head.
pub proof fn admission_leaves_the_selection(g: GraphView, f: FactView, s: DeviceId)
    requires
        exactness::is_exact(g),
        g.facts.dom().len() < usize::MAX,
        admission::has_room(g, 1),
        exactness::is_signed_through(f),
        !canon::selects_for(f, s),
        f.head_subjects().contains(s) ==> g.reading().authority_heads(s).subset_of(f.inputs()),
        g.reading().lineage(s).selected_branch is Some,
    ensures
        admission::admitted(g, f).1 is Ok
            ==> admission::admitted(g, f).0.reading().lineage(s).selected_branch
            == g.reading().lineage(s).selected_branch,
{
    let (h, result) = admission::admitted(g, f);
    exactness::offer_keeps_graph_exact(g, f, false, None, None);
    if result is Ok {
        exactness::lemma_heads_read(g.facts, s);
        assert(g.reading() == exactness::reading_of(g.facts));
        assert(h.reading() == exactness::reading_of(h.facts));
        if result == Ok::<AdmissionView, SemanticError>(AdmissionView::Inserted) {
            selection_stays_selected(g.facts, f, s);
        }
    }
}

/// An admitted fact that follows all heads of a cell is the one head of it: a
/// resolution that cites them all settles the cell.
pub proof fn admitted_resolution_is_the_sole_head(g: GraphView, f: FactView, c: ExclusiveCell)
    requires
        exactness::is_exact(g),
        g.facts.dom().len() < usize::MAX,
        admission::has_room(g, 1),
        exactness::is_signed_through(f),
        f.advances(c),
        g.reading().raw_heads(c).subset_of(f.inputs()),
    ensures
        admission::admitted(g, f).1 == Ok::<AdmissionView, SemanticError>(AdmissionView::Inserted)
            ==> admission::admitted(g, f).0.reading().raw_heads(c) == Set::<FactId>::empty().insert(
            f.id,
        ),
{
    let h = admission::admitted(g, f).0;
    exactness::offer_keeps_graph_exact(g, f, false, None, None);
    if admission::admitted(g, f).1 == Ok::<AdmissionView, SemanticError>(AdmissionView::Inserted) {
        let facts = g.facts;
        let all = facts.insert(f.id, f);
        canon::lemma_extended(facts, f);
        exactness::lemma_cell_heads_read(facts, c);
        exactness::lemma_cell_heads_read(all, c);
        assert(g.reading() == exactness::reading_of(facts));
        assert(h.reading() == exactness::reading_of(all));
        let before = exactness::cell_members(facts, c);
        let after = exactness::cell_members(all, c);
        assert(after =~= before.insert(f.id));
        reach::lemma_reach_closed(reach::input_edges(all), f.inputs());
        assert forall|x: FactId| #[trigger] canon::tops(all, after).contains(x) <==> x == f.id by {
            canon::lemma_top(facts, f, before, after, x);
            if canon::tops(facts, before).contains(x) {
                assert(f.inputs().contains(x));
                assert(reach::is_dominated(all, f.inputs(), x));
            }
        }
        assert(h.reading().raw_heads(c) =~= Set::<FactId>::empty().insert(f.id));
    }
}

} // verus!

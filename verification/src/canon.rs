//! What the indexes are of the facts, whatever order the facts came in.

use vstd::prelude::*;

use crate::admission;
use crate::authority;
use crate::causal_order;
use crate::content::{BodyView, ExclusiveCell};
use crate::costs;
use crate::device::DeviceId;
use crate::fact::{Facts, FactView};
use crate::graph;
use crate::graph::{AuthoritySelectorRelation, GraphView, IndexView, RowView, Selection};
use crate::ids::FactId;
use crate::index;
use crate::multimap;
use crate::order;
use crate::ordset;
use crate::projection;
use crate::provenance;
use crate::provenance::PlanView;
use crate::reach;
use crate::reach::EdgeMap;
use crate::rebuild;
use crate::validation;

verus! {

/// Whether facts are a complete history: each under its identifier, with all
/// its inputs, and with the branch that it selects.
pub open spec fn is_history(facts: Facts) -> bool {
    &&& facts.dom().finite()
    &&& forall|id: FactId| #[trigger]
        facts.contains_key(id) ==> facts[id].id == id && facts[id].inputs().subset_of(facts.dom())
    &&& forall|id: FactId| #[trigger]
        facts.contains_key(id) && facts[id].is_selector() ==> facts.contains_key(
            selected(facts[id]),
        )
}

/// The branch that a typed selector selects.
pub open spec fn selected(f: FactView) -> FactId {
    match f.content.body {
        BodyView::AuthorityLineageResolution { selected_head, .. } => selected_head,
        _ => f.id,
    }
}

/// Whether a fact is new to a history, and can follow it.
pub open spec fn extends(facts: Facts, f: FactView) -> bool {
    &&& !facts.contains_key(f.id)
    &&& f.inputs().subset_of(facts.dom())
    &&& f.is_selector() ==> facts.contains_key(selected(f))
}

/// The members that no other member has behind it.
pub open spec fn tops(facts: Facts, members: Set<FactId>) -> Set<FactId> {
    members.filter(
        |x: FactId|
            !exists|m: FactId| #[trigger]
                members.contains(m) && reach::is_dominated(facts, facts[m].inputs(), x),
    )
}

/// The facts that join a key.
pub open spec fn joining<K>(facts: Facts, joins: spec_fn(FactView, K) -> bool, key: K) -> Set<
    FactId,
> {
    Set::new(|id: FactId| facts.contains_key(id) && joins(facts[id], key))
}

/// The heads of every key that some fact joins: the facts that no other fact
/// which joins it has behind it.
pub open spec fn heads_of<K>(facts: Facts, joins: spec_fn(FactView, K) -> bool) -> Map<
    K,
    Set<FactId>,
> {
    Map::new(
        |k: K|
            exists|id: FactId| #[trigger] facts.contains_key(id) && joins(facts[id], k),
        |k: K| tops(facts, joining(facts, joins, k)),
    )
}

/// The heads of every cell.
pub open spec fn cell_heads_of(facts: Facts) -> Map<ExclusiveCell, Set<FactId>> {
    heads_of(facts, |f: FactView, c: ExclusiveCell| f.advances(c))
}

/// The heads of every authority lineage.
pub open spec fn lineage_heads_of(facts: Facts) -> Map<DeviceId, Set<FactId>> {
    heads_of(facts, |f: FactView, s: DeviceId| f.head_subjects().contains(s))
}

/// Whether a fact makes a typed selection for a subject.
pub open spec fn selects_for(f: FactView, subject: DeviceId) -> bool {
    f.content.body matches BodyView::AuthorityLineageResolution { subject: s, .. } && s == subject
}

/// The typed selections for every subject.
pub open spec fn selections_of(facts: Facts) -> Map<DeviceId, Set<Selection>> {
    Map::new(
        |s: DeviceId|
            exists|id: FactId| #[trigger] facts.contains_key(id) && selects_for(facts[id], s),
        |s: DeviceId|
            Set::new(
                |x: Selection|
                    facts.contains_key(x.selector) && selects_for(facts[x.selector], s)
                        && selected(facts[x.selector]) == x.selected,
            ),
    )
}

/// How a fact stands to a typed selector.
pub open spec fn relation_to(facts: Facts, id: FactId, s: FactId) -> AuthoritySelectorRelation {
    provenance::relation_between(facts, id, s, selected(facts[s]))
}

/// Whether a fact stands in a relation to a typed selector.
pub open spec fn is_related(facts: Facts, id: FactId, s: FactId) -> bool {
    facts.contains_key(id) && facts.contains_key(s) && facts[s].is_selector() && relation_to(
        facts,
        id,
        s,
    ).holds()
}

/// How every fact stands to the typed selectors that it is related to.
pub open spec fn provenance_of(facts: Facts) -> Map<FactId, RowView> {
    Map::new(
        |id: FactId| exists|s: FactId| #[trigger] is_related(facts, id, s),
        |id: FactId| row_of(facts, id),
    )
}

/// How a fact stands to the typed selectors that it is related to.
pub open spec fn row_of(facts: Facts, id: FactId) -> RowView {
    Map::new(|s: FactId| is_related(facts, id, s), |s: FactId| relation_to(facts, id, s))
}

/// The indexes of a history: a function of its facts.
pub open spec fn index_of(facts: Facts) -> IndexView {
    IndexView {
        cell_heads: cell_heads_of(facts),
        authority_heads: lineage_heads_of(facts),
        authority_facts: index::participants_of(facts),
        selectors: selections_of(facts),
        provenance: provenance_of(facts),
        cells: index::cells_of(facts),
        stand_down: index::stand_down_of(facts),
    }
}

/// Edges of a larger map reach no more from where the smaller one is closed.
proof fn lemma_reach_within(small: EdgeMap, big: EdgeMap, roots: Set<FactId>)
    requires
        forall|x: FactId| #[trigger]
            small.contains_key(x) ==> big.contains_key(x) && big[x] == small[x],
        forall|x: FactId, y: FactId|
            small.contains_key(x) && #[trigger] small[x].contains(y) ==> small.contains_key(y),
        roots.subset_of(small.dom()),
    ensures
        reach::reach(big, roots) == reach::reach(small, roots),
        reach::reach(big, roots).subset_of(small.dom()),
{
    let a = reach::reach(small, roots);
    let b = reach::reach(big, roots);
    assert(reach::closed(big, small.dom()));
    reach::lemma_reach_least(big, roots, small.dom());
    assert(reach::closed(small, small.dom()));
    reach::lemma_reach_least(small, roots, small.dom());
    reach::lemma_reach_closed(small, roots);
    reach::lemma_reach_closed(big, roots);
    assert(reach::closed(big, a)) by {
        assert forall|x: FactId, y: FactId|
            a.contains(x) && big.contains_key(x) && #[trigger] big[x].contains(
                y,
            ) implies #[trigger] a.contains(y) by {
            assert(small.contains_key(x));
            assert(small[x].contains(y));
        }
    }
    reach::lemma_reach_least(big, roots, a);
    assert(reach::closed(small, b)) by {
        assert forall|x: FactId, y: FactId|
            b.contains(x) && small.contains_key(x) && #[trigger] small[x].contains(
                y,
            ) implies #[trigger] b.contains(y) by {
            assert(big[x].contains(y));
        }
    }
    reach::lemma_reach_least(small, roots, b);
    assert(a =~= b);
}

/// What a history reaches, it reaches when a fact follows it.
pub proof fn lemma_inputs_within(facts: Facts, f: FactView, roots: Set<FactId>)
    requires
        is_history(facts),
        extends(facts, f),
        roots.subset_of(facts.dom()),
    ensures
        reach::reach(reach::input_edges(facts.insert(f.id, f)), roots) == reach::reach(
            reach::input_edges(facts),
            roots,
        ),
        reach::reach(reach::input_edges(facts.insert(f.id, f)), roots).subset_of(facts.dom()),
{
    let small = reach::input_edges(facts);
    let big = reach::input_edges(facts.insert(f.id, f));
    assert(small.dom() =~= facts.dom());
    assert forall|x: FactId, y: FactId|
        small.contains_key(x) && #[trigger] small[x].contains(y) implies small.contains_key(y) by {
        assert(facts.contains_key(x));
        crate::fact::lemma_inputs_finite(facts[x]);
        ordset::lemma_listing(facts[x].inputs());
        assert(facts[x].inputs().contains(y));
        assert(facts.dom().contains(y));
    }
    lemma_reach_within(small, big, roots);
}

/// The same of signed parents.
pub proof fn lemma_parents_within(facts: Facts, f: FactView, roots: Set<FactId>)
    requires
        is_history(facts),
        extends(facts, f),
        roots.subset_of(facts.dom()),
    ensures
        reach::reach(reach::parent_edges(facts.insert(f.id, f)), roots) == reach::reach(
            reach::parent_edges(facts),
            roots,
        ),
        reach::reach(reach::parent_edges(facts.insert(f.id, f)), roots).subset_of(facts.dom()),
{
    let small = reach::parent_edges(facts);
    let big = reach::parent_edges(facts.insert(f.id, f));
    assert(small.dom() =~= facts.dom());
    assert forall|x: FactId, y: FactId|
        small.contains_key(x) && #[trigger] small[x].contains(y) implies small.contains_key(y) by {
        assert(facts.contains_key(x));
        assert(facts[x].content.parents.to_set().contains(y));
        assert(facts[x].inputs().contains(y));
        assert(facts.dom().contains(y));
    }
    lemma_reach_within(small, big, roots);
}

/// A fact that follows a history makes a longer one.
pub proof fn lemma_extended(facts: Facts, f: FactView)
    requires
        is_history(facts),
        extends(facts, f),
    ensures
        is_history(facts.insert(f.id, f)),
{
    let all = facts.insert(f.id, f);
    assert(all.dom() =~= facts.dom().insert(f.id));
    assert forall|id: FactId| #[trigger] all.contains_key(id) implies all[id].id == id
        && all[id].inputs().subset_of(all.dom()) by {
        if id != f.id {
            assert(facts.contains_key(id));
        }
    }
    assert forall|id: FactId| #[trigger]
        all.contains_key(id) && all[id].is_selector() implies all.contains_key(
        selected(all[id]),
    ) by {
        if id != f.id {
            assert(facts.contains_key(id));
        }
    }
}

/// Letting a fact join the heads at its keys gives the heads of the longer
/// history.
proof fn lemma_heads_advance<K>(
    facts: Facts,
    f: FactView,
    joins: spec_fn(FactView, K) -> bool,
    keys: Set<K>,
)
    requires
        is_history(facts),
        extends(facts, f),
        forall|k: K| #[trigger] keys.contains(k) <==> joins(f, k),
    ensures
        index::advanced(heads_of(facts, joins), facts.insert(f.id, f), keys, f.id) == heads_of(
            facts.insert(f.id, f),
            joins,
        ),
{
    let all = facts.insert(f.id, f);
    let before = heads_of(facts, joins);
    let made = index::advanced(before, all, keys, f.id);
    let want = heads_of(all, joins);
    lemma_inputs_within(facts, f, f.inputs());
    assert forall|m: FactId, x: FactId|
        facts.contains_key(m) implies #[trigger] reach::is_dominated(all, all[m].inputs(), x)
        == reach::is_dominated(facts, facts[m].inputs(), x) && (reach::is_dominated(
        all,
        all[m].inputs(),
        x,
    ) ==> facts.contains_key(x)) by {
        lemma_inputs_within(facts, f, facts[m].inputs());
    }
    assert forall|k: K| #[trigger] made.contains_key(k) <==> want.contains_key(k) by {
        if before.contains_key(k) {
            let id = choose|id: FactId| #[trigger]
                facts.contains_key(id) && joins(facts[id], k);
            assert(all.contains_key(id) && joins(all[id], k));
        }
        if keys.contains(k) {
            assert(all.contains_key(f.id) && joins(all[f.id], k));
        }
        if want.contains_key(k) {
            let id = choose|id: FactId| #[trigger] all.contains_key(id) && joins(all[id], k);
            if id != f.id {
                assert(facts.contains_key(id) && joins(facts[id], k));
            }
        }
    }
    assert forall|k: K| #[trigger] made.contains_key(k) implies made[k] == want[k] by {
        let old_members = joining(facts, joins, k);
        let members = joining(all, joins, k);
        assert(multimap::at(before, k) =~= tops(facts, old_members)) by {
            if !before.contains_key(k) {
                assert forall|id: FactId| !#[trigger] old_members.contains(id) by {}
            }
        }
        if keys.contains(k) {
            assert(members =~= old_members.insert(f.id));
        } else {
            assert(members =~= old_members);
        }
        assert forall|x: FactId| #[trigger] made[k].contains(x) <==> want[k].contains(x) by {
            lemma_top(facts, f, old_members, members, x);
        }
        assert(made[k] =~= want[k]);
    }
    assert(made =~= want);
}

/// What stays a top when a fact joins, and what becomes one.
pub proof fn lemma_top(
    facts: Facts,
    f: FactView,
    before: Set<FactId>,
    after: Set<FactId>,
    x: FactId,
)
    requires
        is_history(facts),
        extends(facts, f),
        before.subset_of(facts.dom()),
        after == before || after == before.insert(f.id),
    ensures
        after == before.insert(f.id) ==> (tops(facts.insert(f.id, f), after).contains(x) <==> (x
            == f.id || (tops(facts, before).contains(x) && !reach::is_dominated(
            facts.insert(f.id, f),
            f.inputs(),
            x,
        )))),
        after == before ==> (tops(facts.insert(f.id, f), after).contains(x) <==> tops(
            facts,
            before,
        ).contains(x)),
{
    let all = facts.insert(f.id, f);
    lemma_inputs_within(facts, f, f.inputs());
    assert forall|m: FactId, y: FactId| #[trigger] before.contains(m) implies #[trigger] reach::is_dominated(
        all,
        all[m].inputs(),
        y,
    ) == reach::is_dominated(facts, facts[m].inputs(), y) && (reach::is_dominated(
        all,
        all[m].inputs(),
        y,
    ) ==> facts.dom().contains(y)) by {
        assert(facts.contains_key(m));
        lemma_inputs_within(facts, f, facts[m].inputs());
    }
    let beaten_before = exists|m: FactId| #[trigger]
        before.contains(m) && reach::is_dominated(facts, facts[m].inputs(), x);
    let beaten_after = exists|m: FactId| #[trigger]
        after.contains(m) && reach::is_dominated(all, all[m].inputs(), x);
    if beaten_before {
        let m = choose|m: FactId| #[trigger]
            before.contains(m) && reach::is_dominated(facts, facts[m].inputs(), x);
        assert(after.contains(m) && reach::is_dominated(all, all[m].inputs(), x));
    }
    if after == before.insert(f.id) {
        if reach::is_dominated(all, f.inputs(), x) {
            assert(after.contains(f.id) && reach::is_dominated(all, all[f.id].inputs(), x));
        }
        if beaten_after {
            let m = choose|m: FactId| #[trigger]
                after.contains(m) && reach::is_dominated(all, all[m].inputs(), x);
            if m != f.id {
                assert(before.contains(m));
                assert(reach::is_dominated(facts, facts[m].inputs(), x));
            }
        }
        assert(!before.contains(f.id));
    } else if beaten_after {
        let m = choose|m: FactId| #[trigger]
            after.contains(m) && reach::is_dominated(all, all[m].inputs(), x);
        assert(before.contains(m));
        assert(reach::is_dominated(facts, facts[m].inputs(), x));
    }
}

/// Entering what a fact is about gives the metadata of the longer history.
pub proof fn lemma_metadata_advance(facts: Facts, f: FactView, ix: IndexView)
    requires
        !facts.contains_key(f.id),
        ix.authority_facts == index::participants_of(facts),
        ix.cells == index::cells_of(facts),
        ix.stand_down == index::stand_down_of(facts),
        ix.selectors == selections_of(facts),
    ensures
        ({
            let all = facts.insert(f.id, f);
            let made = index::with_metadata(ix, all, f.id);
            &&& made.authority_facts == index::participants_of(all)
            &&& made.cells == index::cells_of(all)
            &&& made.stand_down == index::stand_down_of(all)
            &&& made.selectors == selections_of(all)
            &&& made.cell_heads == ix.cell_heads
            &&& made.authority_heads == ix.authority_heads
            &&& made.provenance == ix.provenance
        }),
{
    let all = facts.insert(f.id, f);
    let made = index::with_metadata(ix, all, f.id);
    assert(all.contains_key(f.id));
    assert forall|id: FactId| #[trigger] all.contains_key(id) && id != f.id implies facts.contains_key(
        id,
    ) && all[id] == facts[id] by {}
    assert forall|s: DeviceId| #[trigger] made.authority_facts.contains_key(s)
        <==> index::participants_of(all).contains_key(s) by {
        if index::participants_of(facts).contains_key(s) {
            let id = choose|id: FactId| #[trigger]
                facts.contains_key(id) && facts[id].takes_part(s);
            assert(all.contains_key(id) && all[id].takes_part(s));
        }
        if f.takes_part(s) {
            assert(all.contains_key(f.id) && all[f.id].takes_part(s));
        }
        if index::participants_of(all).contains_key(s) {
            let id = choose|id: FactId| #[trigger] all.contains_key(id) && all[id].takes_part(s);
            if id != f.id {
                assert(facts.contains_key(id) && facts[id].takes_part(s));
            }
        }
    }
    assert forall|s: DeviceId| #[trigger]
        made.authority_facts.contains_key(s) implies made.authority_facts[s]
        == index::participants_of(all)[s] by {
        if !index::participants_of(facts).contains_key(s) {
            assert forall|id: FactId| #[trigger]
                facts.contains_key(id) implies !facts[id].takes_part(s) by {}
        }
        assert(made.authority_facts[s] =~= index::participants_of(all)[s]);
    }
    assert(made.authority_facts =~= index::participants_of(all));
    assert forall|c: ExclusiveCell| #[trigger] made.cells.contains(c) <==> index::cells_of(
        all,
    ).contains(c) by {
        if index::cells_of(facts).contains(c) {
            let id = choose|id: FactId| #[trigger] facts.contains_key(id) && facts[id].advances(c);
            assert(all.contains_key(id) && all[id].advances(c));
        }
        if f.advances(c) {
            assert(all.contains_key(f.id) && all[f.id].advances(c));
        }
        if index::cells_of(all).contains(c) {
            let id = choose|id: FactId| #[trigger] all.contains_key(id) && all[id].advances(c);
            if id != f.id {
                assert(facts.contains_key(id) && facts[id].advances(c));
            }
        }
    }
    assert(made.cells =~= index::cells_of(all));
    lemma_stand_down_advance(facts, f, ix);
    lemma_selections_advance(facts, f, ix);
}

proof fn lemma_stand_down_advance(facts: Facts, f: FactView, ix: IndexView)
    requires
        !facts.contains_key(f.id),
        ix.stand_down == index::stand_down_of(facts),
    ensures
        index::with_metadata(ix, facts.insert(f.id, f), f.id).stand_down == index::stand_down_of(
            facts.insert(f.id, f),
        ),
{
    let all = facts.insert(f.id, f);
    let made = index::with_metadata(ix, all, f.id).stand_down;
    let want = index::stand_down_of(all);
    assert(all.contains_key(f.id));
    assert forall|d: DeviceId| #[trigger] made.contains_key(d) <==> want.contains_key(d) by {
        if ix.stand_down.contains_key(d) {
            let id = choose|id: FactId| #[trigger]
                facts.contains_key(id) && facts[id].content.body.stands_down() == Some(d);
            assert(all.contains_key(id) && all[id].content.body.stands_down() == Some(d));
        }
        if f.content.body.stands_down() == Some(d) {
            assert(all.contains_key(f.id) && all[f.id].content.body.stands_down() == Some(d));
        }
        if want.contains_key(d) {
            let id = choose|id: FactId| #[trigger]
                all.contains_key(id) && all[id].content.body.stands_down() == Some(d);
            if id != f.id {
                assert(facts.contains_key(id) && facts[id].content.body.stands_down() == Some(d));
            }
        }
    }
    assert forall|d: DeviceId| #[trigger] made.contains_key(d) implies made[d] == want[d] by {
        if !ix.stand_down.contains_key(d) {
            assert forall|id: FactId| #[trigger] facts.contains_key(
                id,
            ) implies facts[id].content.body.stands_down() != Some(d) by {}
        }
        assert(made[d] =~= want[d]);
    }
    assert(made =~= want);
}

proof fn lemma_selections_advance(facts: Facts, f: FactView, ix: IndexView)
    requires
        !facts.contains_key(f.id),
        ix.selectors == selections_of(facts),
    ensures
        index::with_metadata(ix, facts.insert(f.id, f), f.id).selectors == selections_of(
            facts.insert(f.id, f),
        ),
{
    let all = facts.insert(f.id, f);
    let made = index::with_metadata(ix, all, f.id).selectors;
    let want = selections_of(all);
    assert(all.contains_key(f.id));
    assert forall|s: DeviceId| #[trigger] made.contains_key(s) <==> want.contains_key(s) by {
        if ix.selectors.contains_key(s) {
            let id = choose|id: FactId| #[trigger]
                facts.contains_key(id) && selects_for(facts[id], s);
            assert(all.contains_key(id) && selects_for(all[id], s));
        }
        if selects_for(f, s) {
            assert(all.contains_key(f.id) && selects_for(all[f.id], s));
        }
        if want.contains_key(s) {
            let id = choose|id: FactId| #[trigger]
                all.contains_key(id) && selects_for(all[id], s);
            if id != f.id {
                assert(facts.contains_key(id) && selects_for(facts[id], s));
            }
        }
    }
    assert forall|s: DeviceId| #[trigger] made.contains_key(s) implies made[s] == want[s] by {
        if !ix.selectors.contains_key(s) {
            assert forall|id: FactId| #[trigger] facts.contains_key(
                id,
            ) implies !selects_for(facts[id], s) by {}
        }
        assert forall|x: Selection| #[trigger] made[s].contains(x) <==> want[s].contains(x) by {
            if x.selector != f.id {
                assert(all.contains_key(x.selector) <==> facts.contains_key(x.selector));
            }
        }
        assert(made[s] =~= want[s]);
    }
    assert(made =~= want);
}

/// What several roots reach is what each of them reaches.
proof fn lemma_reach_union(edges: EdgeMap, roots: Set<FactId>, x: FactId)
    ensures
        reach::reach(edges, roots).contains(x) <==> exists|r: FactId| #[trigger]
            roots.contains(r) && reach::reach(edges, set![r]).contains(x),
{
    let each = Set::new(
        |y: FactId|
            exists|r: FactId| #[trigger]
                roots.contains(r) && reach::reach(edges, set![r]).contains(y),
    );
    assert(reach::closed(edges, each)) by {
        assert forall|a: FactId, b: FactId|
            each.contains(a) && edges.contains_key(a) && #[trigger] edges[a].contains(
                b,
            ) implies #[trigger] each.contains(b) by {
            let r = choose|r: FactId| #[trigger]
                roots.contains(r) && reach::reach(edges, set![r]).contains(a);
            reach::lemma_reach_closed(edges, set![r]);
            assert(roots.contains(r) && reach::reach(edges, set![r]).contains(b));
        }
    }
    assert(roots.subset_of(each)) by {
        assert forall|r: FactId| #[trigger] roots.contains(r) implies each.contains(r) by {
            reach::lemma_reach_closed(edges, set![r]);
            assert(set![r].contains(r));
            assert(roots.contains(r) && reach::reach(edges, set![r]).contains(r));
        }
    }
    reach::lemma_reach_least(edges, roots, each);
    assert forall|r: FactId| #[trigger] roots.contains(r) && reach::reach(
        edges,
        set![r],
    ).contains(x) implies reach::reach(edges, roots).contains(x) by {
        reach::lemma_reach_closed(edges, roots);
        assert(set![r].subset_of(reach::reach(edges, roots)));
        reach::lemma_reach_monotone(edges, set![r], roots);
    }
}

/// Whether one of the first `n` parents is or has `x` behind it.
spec fn passes(facts: Facts, parents: Seq<FactId>, n: int, x: FactId) -> bool {
    exists|i: int|
        0 <= i < n && reach::reach(
            reach::parent_edges(facts),
            set![#[trigger] parents[i]],
        ).contains(x)
}

/// The row that the first `n` parents pass on.
spec fn passed_row(facts: Facts, parents: Seq<FactId>, n: int) -> RowView {
    Map::new(
        |s: FactId|
            facts.contains_key(s) && facts[s].is_selector() && (passes(facts, parents, n, s)
                || passes(facts, parents, n, selected(facts[s]))),
        |s: FactId|
            AuthoritySelectorRelation {
                selected: selected(facts[s]),
                post_selector: passes(facts, parents, n, s),
                selected_before: passes(facts, parents, n, selected(facts[s])),
                before_selected: false,
            },
    )
}

proof fn lemma_passes_step(facts: Facts, parents: Seq<FactId>, n: int, x: FactId)
    requires
        0 < n <= parents.len(),
    ensures
        passes(facts, parents, n, x) <==> passes(facts, parents, n - 1, x) || reach::reach(
            reach::parent_edges(facts),
            set![parents[n - 1]],
        ).contains(x),
{
    let edges = reach::parent_edges(facts);
    if passes(facts, parents, n, x) {
        let i = choose|i: int|
            0 <= i < n && reach::reach(edges, set![#[trigger] parents[i]]).contains(x);
        if i < n - 1 {
            assert(0 <= i < n - 1 && reach::reach(edges, set![parents[i]]).contains(x));
        }
    }
    if passes(facts, parents, n - 1, x) {
        let i = choose|i: int|
            0 <= i < n - 1 && reach::reach(edges, set![#[trigger] parents[i]]).contains(x);
        assert(0 <= i < n && reach::reach(edges, set![parents[i]]).contains(x));
    }
    if reach::reach(edges, set![parents[n - 1]]).contains(x) {
        assert(0 <= n - 1 < n && reach::reach(edges, set![parents[n - 1]]).contains(x));
    }
}

/// Merging the rows of parents gives the row that they pass on.
proof fn lemma_inherited(facts: Facts, parents: Seq<FactId>, n: int)
    requires
        is_history(facts),
        0 <= n <= parents.len(),
        parents.to_set().subset_of(facts.dom()),
    ensures
        provenance::inherited(provenance_of(facts), Map::empty(), parents, n) == passed_row(
            facts,
            parents,
            n,
        ),
    decreases n,
{
    let rows = provenance_of(facts);
    let made = provenance::inherited(rows, Map::empty(), parents, n);
    let want = passed_row(facts, parents, n);
    if n == 0 {
        assert(made =~= want);
    } else {
        lemma_inherited(facts, parents, n - 1);
        let before = passed_row(facts, parents, n - 1);
        let p = parents[n - 1];
        assert(parents.to_set().contains(p));
        assert(facts.dom().contains(p));
        assert forall|s: FactId| #[trigger] made.contains_key(s) <==> want.contains_key(s) by {
            lemma_passes_step(facts, parents, n, s);
            lemma_passes_step(facts, parents, n, selected(facts[s]));
            if is_related(facts, p, s) {
                assert(rows.contains_key(p));
            }
        }
        assert forall|s: FactId| #[trigger] made.contains_key(s) implies made[s] == want[s] by {
            lemma_passes_step(facts, parents, n, s);
            lemma_passes_step(facts, parents, n, selected(facts[s]));
            if is_related(facts, p, s) {
                assert(rows.contains_key(p));
            }
        }
        assert(made =~= want);
    }
}

/// How a resident fact stands to a resident selector does not change when a
/// fact follows.
pub proof fn lemma_relation_stays(facts: Facts, f: FactView, id: FactId, s: FactId)
    requires
        is_history(facts),
        extends(facts, f),
        facts.contains_key(id),
        facts.contains_key(s),
        facts[s].is_selector(),
    ensures
        relation_to(facts.insert(f.id, f), id, s) == relation_to(facts, id, s),
        is_related(facts.insert(f.id, f), id, s) == is_related(facts, id, s),
{
    assert(facts.contains_key(selected(facts[s])));
    lemma_parents_within(facts, f, set![id]);
    lemma_parents_within(facts, f, set![selected(facts[s])]);
}

/// What the fact that follows has behind it is what its parents have.
proof fn lemma_follower_reaches(facts: Facts, f: FactView, x: FactId)
    requires
        is_history(facts),
        extends(facts, f),
        x != f.id,
    ensures
        reach::reach(reach::parent_edges(facts.insert(f.id, f)), set![f.id]).contains(x) <==> passes(
            facts,
            f.content.parents,
            f.content.parents.len() as int,
            x,
        ),
{
    let all = facts.insert(f.id, f);
    let edges = reach::parent_edges(all);
    let parents = f.content.parents;
    assert(edges.contains_key(f.id) && edges[f.id] == parents);
    reach::lemma_reach_step(edges, f.id);
    lemma_reach_union(edges, parents.to_set(), x);
    assert forall|r: FactId| #[trigger] parents.to_set().contains(r) implies facts.contains_key(r)
        && reach::reach(edges, set![r]) == reach::reach(
        reach::parent_edges(facts),
        set![r],
    ) by {
        assert(f.inputs().contains(r));
        assert(facts.dom().contains(r));
        lemma_parents_within(facts, f, set![r]);
    }
    if passes(facts, parents, parents.len() as int, x) {
        let i = choose|i: int|
            0 <= i < parents.len() && reach::reach(
                reach::parent_edges(facts),
                set![#[trigger] parents[i]],
            ).contains(x);
        assert(parents.to_set().contains(parents[i]));
    }
    if reach::reach(edges, parents.to_set()).contains(x) {
        let r = choose|r: FactId| #[trigger]
            parents.to_set().contains(r) && reach::reach(edges, set![r]).contains(x);
        let i = choose|i: int| 0 <= i < parents.len() && parents[i] == r;
        assert(reach::reach(reach::parent_edges(facts), set![parents[i]]).contains(x));
    }
}

/// The row that a fact's parents pass on is its row, but for itself.
proof fn lemma_follower_row(facts: Facts, f: FactView)
    requires
        is_history(facts),
        extends(facts, f),
    ensures
        passed_row(facts, f.content.parents, f.content.parents.len() as int) == row_of(
            facts.insert(f.id, f),
            f.id,
        ).remove(f.id),
{
    let all = facts.insert(f.id, f);
    let n = f.content.parents.len() as int;
    let made = passed_row(facts, f.content.parents, n);
    let want = row_of(all, f.id).remove(f.id);
    assert forall|s: FactId| #[trigger] facts.contains_key(s) && facts[s].is_selector() implies ({
        let r = relation_to(all, f.id, s);
        &&& r.post_selector == passes(facts, f.content.parents, n, s)
        &&& r.selected_before == passes(facts, f.content.parents, n, selected(facts[s]))
        &&& !r.before_selected
        &&& r.selected == selected(facts[s])
    }) by {
        assert(facts.contains_key(selected(facts[s])));
        lemma_follower_reaches(facts, f, s);
        lemma_follower_reaches(facts, f, selected(facts[s]));
        lemma_parents_within(facts, f, set![selected(facts[s])]);
    }
    assert forall|s: FactId| #[trigger] made.contains_key(s) <==> want.contains_key(s) by {
        if s != f.id {
            assert(all.contains_key(s) <==> facts.contains_key(s));
        }
    }
    assert forall|s: FactId| #[trigger] made.contains_key(s) implies made[s] == want[s] by {
        assert(facts.contains_key(s) && facts[s].is_selector());
    }
    assert(made =~= want);
}

/// The row of a fact before its relation to a new selector is entered.
spec fn prior_row(facts: Facts, f: FactView, id: FactId) -> RowView {
    if id == f.id {
        row_of(facts.insert(f.id, f), f.id).remove(f.id)
    } else {
        provenance::row_at(provenance_of(facts), id)
    }
}

/// What the plan holds once the relations of the first `n` facts to a
/// selector are entered; `prior` is the row that each had.
pub proof fn lemma_plan_ids(
    g: GraphView,
    all: Facts,
    st: PlanView,
    selector: FactId,
    branch: FactId,
    ids: Seq<FactId>,
    n: int,
    prior: spec_fn(FactId) -> RowView,
)
    requires
        ids.no_duplicates(),
        0 <= n <= ids.len(),
        forall|id: FactId| #[trigger]
            st.changes.contains_key(id) ==> st.changes[id] == prior(id),
        forall|id: FactId| !#[trigger] st.changes.contains_key(id) ==> provenance::row_at(
            g.index.provenance,
            id,
        ) == prior(id),
        provenance::plan_ids(g, all, st, selector, branch, ids, n) is Ok,
    ensures
        ({
            let out = provenance::plan_ids(g, all, st, selector, branch, ids, n)->Ok_0.changes;
            &&& forall|id: FactId| #[trigger]
                out.contains_key(id) <==> st.changes.contains_key(id) || (ids.take(n).contains(id)
                    && provenance::relation_between(all, id, selector, branch).holds())
            &&& forall|id: FactId| #[trigger]
                out.contains_key(id) ==> out[id] == (if ids.take(n).contains(id)
                    && provenance::relation_between(all, id, selector, branch).holds() {
                    prior(id).insert(
                        selector,
                        provenance::relation_between(all, id, selector, branch),
                    )
                } else {
                    st.changes[id]
                })
        }),
    decreases n,
{
    if n > 0 {
        lemma_plan_ids(g, all, st, selector, branch, ids, n - 1, prior);
        let before = provenance::plan_ids(
            g,
            all,
            st,
            selector,
            branch,
            ids,
            n - 1,
        )->Ok_0.changes;
        let id = ids[n - 1];
        let short = ids.take(n - 1);
        let long = ids.take(n);
        assert(!short.contains(id)) by {
            if short.contains(id) {
                let j = choose|j: int| 0 <= j < short.len() && short[j] == id;
                assert(ids[j] == ids[n - 1]);
            }
        }
        assert forall|x: FactId| #[trigger] long.contains(x) <==> short.contains(x) || x == id by {
            if long.contains(x) {
                let j = choose|j: int| 0 <= j < long.len() && long[j] == x;
                if j < n - 1 {
                    assert(short[j] == x);
                }
            }
            if short.contains(x) {
                let j = choose|j: int| 0 <= j < short.len() && short[j] == x;
                assert(long[j] == x);
            }
            assert(long[n - 1] == id);
        }
        assert(before.contains_key(id) <==> st.changes.contains_key(id));
    }
}

/// The plan of a typed selector enters its own relations and no others.
proof fn lemma_own_context(g: GraphView, f: FactView, st: PlanView)
    requires
        f.is_selector(),
        g.fence.staged_cold_pending == 0,
        f.inputs().subset_of(g.facts.dom()),
        provenance::plan_start(g, f) == Ok::<PlanView, crate::error::SemanticError>(st),
        provenance::planned(g, f) is Ok,
        g.facts.dom().finite(),
    ensures
        ({
            let all = g.facts.insert(f.id, f);
            let ids = order::ascending(all.dom());
            let out = provenance::plan_ids(
                g,
                all,
                st,
                f.id,
                selected(f),
                ids,
                ids.len() as int,
            );
            &&& out is Ok
            &&& provenance::planned(g, f)->Ok_0 == out->Ok_0.changes
            &&& ids.no_duplicates()
            &&& forall|id: FactId| #[trigger] ids.contains(id) <==> all.contains_key(id)
        }),
{
    reveal(provenance::planned);
    let all = g.facts.insert(f.id, f);
    let contexts = provenance::contexts_of(g, f)->Ok_0;
    assert(contexts.dom() =~= set![f.id]);
    let list = order::ascending(contexts.dom());
    ordset::lemma_listing(contexts.dom());
    assert(list.contains(f.id));
    assert(list.len() == 1) by {
        assert(set![f.id].len() == 1);
    }
    assert(list[0] == f.id);
    assert(contexts[f.id] == selected(f));
    let ids = order::ascending(all.dom());
    assert(all.dom() =~= g.facts.dom().insert(f.id));
    ordset::lemma_listing(all.dom());
    assert(provenance::plan_contexts(g, all, st, contexts, list, 0) == Ok::<
        PlanView,
        crate::error::SemanticError,
    >(st));
    assert(provenance::plan_contexts(g, all, st, contexts, list, 1) == (
    match provenance::ancestors_of(all, contexts[list[0]]) {
        Err(e) => Err(e),
        Ok(_) => provenance::plan_ids(
            g,
            all,
            st,
            list[0],
            contexts[list[0]],
            ids,
            ids.len() as int,
        ),
    }));
}

/// Where a plan holds, its rows are those of the longer history.
proof fn lemma_planned(g: GraphView, f: FactView)
    requires
        is_history(g.facts),
        extends(g.facts, f),
        g.index.provenance == provenance_of(g.facts),
        g.fence.staged_cold_pending == 0,
        provenance::planned(g, f) is Ok,
    ensures
        g.index.provenance.union_prefer_right(provenance::planned(g, f)->Ok_0) == provenance_of(
            g.facts.insert(f.id, f),
        ),
{
    reveal(provenance::planned);
    let facts = g.facts;
    let all = facts.insert(f.id, f);
    let rows = provenance_of(facts);
    let parents = f.content.parents;
    assert(parents.to_set().subset_of(facts.dom())) by {
        assert forall|p: FactId| #[trigger] parents.to_set().contains(p) implies facts.dom().contains(
            p,
        ) by {
            assert(f.inputs().contains(p));
        }
    }
    assert(!rows.contains_key(f.id));
    lemma_inherited(facts, parents, parents.len() as int);
    lemma_follower_row(facts, f);
    let row = row_of(all, f.id).remove(f.id);
    let st = provenance::plan_start(g, f)->Ok_0;
    let start = if row.dom() == Set::<FactId>::empty() {
        Map::<FactId, RowView>::empty()
    } else {
        Map::empty().insert(f.id, row)
    };
    assert(st.changes == start);
    if row.dom() == Set::<FactId>::empty() {
        assert(row =~= Map::empty());
    }
    let changes = provenance::planned(g, f)->Ok_0;
    if f.is_selector() {
        let ids = order::ascending(all.dom());
        let prior = |id: FactId| prior_row(facts, f, id);
        lemma_own_context(g, f, st);
        lemma_plan_ids(g, all, st, f.id, selected(f), ids, ids.len() as int, prior);
        assert(ids.take(ids.len() as int) =~= ids);
        let edges = reach::parent_edges(all);
        reach::lemma_reach_closed(edges, set![f.id]);
        assert(set![f.id].contains(f.id));
        lemma_selector_rows(facts, f, changes);
    } else {
        assert(provenance::contexts_of(g, f)->Ok_0.dom() =~= Set::<FactId>::empty());
        ordset::lemma_listing(Set::<FactId>::empty());
        assert(changes == start);
        lemma_plain_rows(facts, f, changes);
    }
}

/// The rows that a selector changes make up those of the longer history.
proof fn lemma_selector_rows(facts: Facts, f: FactView, changes: Map<FactId, RowView>)
    requires
        is_history(facts),
        extends(facts, f),
        f.is_selector(),
        changes.contains_key(f.id),
        forall|id: FactId| #[trigger]
            changes.contains_key(id) <==> facts.insert(f.id, f).contains_key(id)
                && provenance::relation_between(
                facts.insert(f.id, f),
                id,
                f.id,
                selected(f),
            ).holds(),
        forall|id: FactId| #[trigger]
            changes.contains_key(id) ==> changes[id] == prior_row(facts, f, id).insert(
                f.id,
                provenance::relation_between(facts.insert(f.id, f), id, f.id, selected(f)),
            ),
    ensures
        provenance_of(facts).union_prefer_right(changes) == provenance_of(facts.insert(f.id, f)),
{
    let all = facts.insert(f.id, f);
    let made = provenance_of(facts).union_prefer_right(changes);
    let want = provenance_of(all);
    assert(all.contains_key(f.id) && all[f.id] == f);
    assert forall|id: FactId, s: FactId| #[trigger] is_related(all, id, s) <==> (if s == f.id {
        changes.contains_key(id)
    } else if id == f.id {
        row_of(all, f.id).remove(f.id).contains_key(s)
    } else {
        is_related(facts, id, s)
    }) by {
        if s != f.id && id != f.id && facts.contains_key(s) && facts[s].is_selector()
            && facts.contains_key(id) {
            lemma_relation_stays(facts, f, id, s);
        }
    }
    assert forall|id: FactId| #[trigger] made.contains_key(id) <==> want.contains_key(id) by {
        if changes.contains_key(id) {
            assert(is_related(all, id, f.id));
        } else {
            assert(id != f.id);
            if provenance_of(facts).contains_key(id) {
                let s = choose|s: FactId| #[trigger] is_related(facts, id, s);
                assert(s != f.id);
                assert(is_related(all, id, s));
            }
            if want.contains_key(id) {
                let s = choose|s: FactId| #[trigger] is_related(all, id, s);
                assert(s != f.id);
                assert(is_related(facts, id, s));
            }
        }
    }
    assert forall|id: FactId| #[trigger] made.contains_key(id) implies made[id] == want[id] by {
        assert forall|s: FactId| #[trigger] made[id].contains_key(s) <==> want[id].contains_key(
            s,
        ) by {
            assert(is_related(all, id, s) == want[id].contains_key(s));
            if id != f.id && s != f.id {
                assert(is_related(all, id, s) <==> is_related(facts, id, s));
                if is_related(facts, id, s) {
                    assert(provenance_of(facts).contains_key(id));
                }
            }
        }
        assert forall|s: FactId| #[trigger] made[id].contains_key(s) implies made[id][s]
            == want[id][s] by {
            if id != f.id && s != f.id {
                assert(is_related(all, id, s));
                assert(is_related(facts, id, s));
                lemma_relation_stays(facts, f, id, s);
            }
        }
        assert(made[id] =~= want[id]);
    }
    assert(made =~= want);
}

/// The rows that another fact changes make up those of the longer history.
proof fn lemma_plain_rows(facts: Facts, f: FactView, changes: Map<FactId, RowView>)
    requires
        is_history(facts),
        extends(facts, f),
        !f.is_selector(),
        changes == (if row_of(facts.insert(f.id, f), f.id).remove(f.id).dom() == Set::<
            FactId,
        >::empty() {
            Map::<FactId, RowView>::empty()
        } else {
            Map::empty().insert(f.id, row_of(facts.insert(f.id, f), f.id).remove(f.id))
        }),
    ensures
        provenance_of(facts).union_prefer_right(changes) == provenance_of(facts.insert(f.id, f)),
{
    let all = facts.insert(f.id, f);
    let row = row_of(all, f.id).remove(f.id);
    assert(row =~= row_of(all, f.id));
    let made = provenance_of(facts).union_prefer_right(changes);
    let want = provenance_of(all);
    assert forall|id: FactId, s: FactId| id != f.id implies #[trigger] is_related(all, id, s)
        == is_related(facts, id, s) by {
        if s != f.id && facts.contains_key(s) && facts[s].is_selector() && facts.contains_key(id) {
            lemma_relation_stays(facts, f, id, s);
        }
    }
    assert forall|id: FactId| #[trigger] made.contains_key(id) <==> want.contains_key(id) by {
        if id == f.id {
            assert(!provenance_of(facts).contains_key(f.id));
            if want.contains_key(id) {
                let s = choose|s: FactId| #[trigger] is_related(all, id, s);
                assert(row.dom().contains(s));
            }
            if row.dom() != Set::<FactId>::empty() {
                let s = row.dom().choose();
                assert(row.dom().contains(s)) by {
                    if !row.dom().contains(s) {
                        assert forall|x: FactId| !#[trigger] row.dom().contains(x) by {}
                        assert(row.dom() =~= Set::<FactId>::empty());
                    }
                }
                assert(is_related(all, id, s));
            }
        } else {
            if provenance_of(facts).contains_key(id) {
                let s = choose|s: FactId| #[trigger] is_related(facts, id, s);
                assert(is_related(all, id, s));
            }
            if want.contains_key(id) {
                let s = choose|s: FactId| #[trigger] is_related(all, id, s);
                assert(is_related(facts, id, s));
            }
        }
    }
    assert forall|id: FactId| #[trigger] made.contains_key(id) implies made[id] == want[id] by {
        if id != f.id {
            assert forall|s: FactId| #[trigger] made[id].contains_key(s) <==> want[id].contains_key(
                s,
            ) by {
                assert(is_related(all, id, s) == is_related(facts, id, s));
            }
            assert forall|s: FactId| #[trigger] made[id].contains_key(s) implies made[id][s]
                == want[id][s] by {
                assert(is_related(all, id, s) && is_related(facts, id, s));
                lemma_relation_stays(facts, f, id, s);
            }
            assert(made[id] =~= want[id]);
        }
    }
    assert(made =~= want);
}

/// Entering a fact that follows a history gives the indexes of the longer
/// history.
pub proof fn indexes_follow_the_facts(g: GraphView, f: FactView)
    requires
        is_history(g.facts),
        extends(g.facts, f),
        g.index == index_of(g.facts),
        g.fence.staged_cold_pending == 0,
        provenance::planned(g, f) is Ok,
    ensures
        is_history(g.facts.insert(f.id, f)),
        admission::indexed(
            g.index,
            g.facts.insert(f.id, f),
            f.id,
            provenance::planned(g, f)->Ok_0,
        ) == index_of(g.facts.insert(f.id, f)),
{
    let all = g.facts.insert(f.id, f);
    let rows = provenance::planned(g, f)->Ok_0;
    lemma_extended(g.facts, f);
    lemma_planned(g, f);
    let with_rows = IndexView {
        provenance: g.index.provenance.union_prefer_right(rows),
        ..g.index
    };
    lemma_metadata_advance(g.facts, f, with_rows);
    let meta = index::with_metadata(with_rows, all, f.id);
    let by_cell = |x: FactView, c: ExclusiveCell| x.advances(c);
    let by_subject = |x: FactView, s: DeviceId| x.head_subjects().contains(s);
    assert(all.contains_key(f.id));
    lemma_heads_advance(g.facts, f, by_cell, f.content.body.cells().to_set());
    lemma_heads_advance(g.facts, f, by_subject, f.head_subjects());
    assert(admission::indexed(g.index, all, f.id, rows) =~= index_of(all));
}

/// A graph that was just started has the indexes of its facts.
pub proof fn indexes_start_empty(setting: graph::SettingView)
    ensures
        is_history(graph::started(setting).facts),
        graph::started(setting).index == index_of(graph::started(setting).facts),
{
    let g = graph::started(setting);
    let want = index_of(g.facts);
    assert(g.index.cell_heads =~= want.cell_heads);
    assert(g.index.authority_heads =~= want.authority_heads);
    assert(g.index.authority_facts =~= want.authority_facts);
    assert(g.index.selectors =~= want.selectors);
    assert(g.index.provenance =~= want.provenance);
    assert(g.index.cells =~= want.cells);
    assert(g.index.stand_down =~= want.stand_down);
}

/// An admission keeps the indexes what the facts say, whatever became of the
/// fact.
pub proof fn admission_keeps_canonical_indexes(g: GraphView, f: FactView)
    requires
        g.indexes_current(),
        g.fence.staged_cold_pending == 0,
        is_history(g.facts),
        g.index == index_of(g.facts),
    ensures
        ({
            let (h, result) = admission::admitted(g, f);
            result is Ok ==> {
                &&& is_history(h.facts)
                &&& h.index == index_of(h.facts)
                &&& h.fence.staged_cold_pending == 0
                &&& h.facts == (if result->Ok_0 is Inserted {
                    g.facts.insert(f.id, f)
                } else {
                    g.facts
                })
            }
        }),
{
    reveal(admission::offered);
    reveal(admission::entered);
    reveal(admission::cleared);
    reveal(validation::candidate_check);
    admission::lemma_screened(g, f);
    if let Ok(Some(cost)) = admission::screened(g, f) {
        if cost.missing.len() == 0 {
            if let Ok((delta, rows)) = admission::cleared(g, f, cost, false) {
                assert(f.inputs().subset_of(g.facts.dom())) by {
                    assert forall|x: FactId| #[trigger] f.inputs().contains(x) implies g.facts.dom().contains(
                        x,
                    ) by {
                        if !g.facts.contains_key(x) {
                            assert(costs::missing_inputs(g, f).contains(x));
                            assert(cost.missing.to_set().contains(x));
                        }
                    }
                }
                if f.is_selector() {
                    assert(f.content.body.support().contains(selected(f)));
                    assert(f.inputs().contains(selected(f)));
                }
                indexes_follow_the_facts(g, f);
                let bare = GraphView { cache: None, ..g };
                assert(admission::joined(bare, f, cost, rows).index == index_of(
                    g.facts.insert(f.id, f),
                ));
            }
        }
    }
}

/// The facts decide all that is read of a graph, whatever order they were
/// admitted in: two graphs with the same facts have the same heads, lineages
/// and selectors, and project the same state.
pub proof fn arrival_order_does_not_matter(a: GraphView, b: GraphView)
    requires
        a.facts == b.facts,
        a.indexes_current(),
        b.indexes_current(),
        a.index == index_of(a.facts),
        b.index == index_of(b.facts),
    ensures
        a.reading() == b.reading(),
        projection::projected(a.reading()) == projection::projected(b.reading()),
        forall|c: ExclusiveCell| #[trigger]
            authority::cell_heads(a.reading(), c) == authority::cell_heads(b.reading(), c),
        forall|s: DeviceId| #[trigger] a.reading().lineage(s) == b.reading().lineage(s),
{
}

/// Whether facts can be put in causal order.
pub open spec fn is_acyclic(facts: Facts) -> bool {
    exists|list: Seq<FactId>| #[trigger]
        causal_order::is_causal(facts, list) && list.to_set() == facts.dom()
}

/// Where facts can be put in causal order, the least-first order is one.
pub proof fn lemma_acyclic_order(facts: Facts)
    requires
        facts.dom().finite(),
        is_acyclic(facts),
    ensures
        causal_order::topological(facts, Seq::empty()).to_set() == facts.dom(),
        causal_order::causal_order(facts) == causal_order::topological(facts, Seq::empty()),
{
    let done = causal_order::topological(facts, Seq::empty());
    causal_order::lemma_topological(facts, Seq::empty());
    causal_order::lemma_topological_ends(facts, Seq::empty());
    let list = choose|list: Seq<FactId>| #[trigger]
        causal_order::is_causal(facts, list) && list.to_set() == facts.dom();
    lemma_listed(facts, list, done, list.len() as int);
    assert(list.take(list.len() as int) =~= list);
    assert(done.to_set().subset_of(facts.dom())) by {
        assert forall|x: FactId| #[trigger] done.to_set().contains(x) implies facts.dom().contains(
            x,
        ) by {
            let i = choose|i: int| 0 <= i < done.len() && done[i] == x;
            assert(facts.contains_key(done[i]));
        }
    }
    assert(done.to_set() =~= facts.dom());
    assert(facts.dom().difference(done.to_set()) =~= Set::<FactId>::empty());
    ordset::lemma_listing(Set::<FactId>::empty());
    assert(causal_order::causal_order(facts) =~= done);
}

proof fn lemma_listed(facts: Facts, list: Seq<FactId>, done: Seq<FactId>, i: int)
    requires
        causal_order::is_causal(facts, list),
        causal_order::ready_after(facts, done.to_set()) == Set::<FactId>::empty(),
        0 <= i <= list.len(),
    ensures
        list.take(i).to_set().subset_of(done.to_set()),
    decreases i,
{
    if i == 0 {
        assert(list.take(0).to_set() =~= Set::<FactId>::empty());
    } else {
        lemma_listed(facts, list, done, i - 1);
        ordset::lemma_take_set(list, i - 1);
        let x = list[i - 1];
        assert(facts.contains_key(x));
        if !done.to_set().contains(x) {
            assert(causal_order::awaits(facts, x).subset_of(list.take(i - 1).to_set()));
            assert(causal_order::ready_after(facts, done.to_set()).contains(x));
        }
    }
}

/// What stands behind a fact stands before it in causal order.
pub proof fn lemma_behind_is_before(facts: Facts, list: Seq<FactId>, i: int, x: FactId)
    requires
        is_history(facts),
        causal_order::is_causal(facts, list),
        0 <= i < list.len(),
        reach::is_dominated(facts, facts[list[i]].inputs(), x),
    ensures
        list.take(i).to_set().contains(x),
{
    let before = list.take(i).to_set();
    let edges = reach::input_edges(facts);
    assert(facts.contains_key(list[i]));
    assert(causal_order::awaits(facts, list[i]).subset_of(before));
    assert(facts[list[i]].inputs().subset_of(before)) by {
        assert forall|y: FactId| #[trigger] facts[list[i]].inputs().contains(
            y,
        ) implies before.contains(y) by {
            assert(facts.dom().contains(y));
            assert(causal_order::awaits(facts, list[i]).contains(y));
        }
    }
    assert(reach::closed(edges, before)) by {
        assert forall|a: FactId, b: FactId|
            before.contains(a) && edges.contains_key(a) && #[trigger] edges[a].contains(
                b,
            ) implies #[trigger] before.contains(b) by {
            let short = list.take(i);
            let j = choose|j: int| 0 <= j < short.len() && short[j] == a;
            assert(list[j] == a);
            crate::fact::lemma_inputs_finite(facts[a]);
            ordset::lemma_listing(facts[a].inputs());
            assert(facts[a].inputs().contains(b));
            assert(facts.contains_key(list[j]));
            assert(facts.dom().contains(b));
            assert(causal_order::awaits(facts, list[j]).contains(b));
            assert(list.take(j).to_set().contains(b));
            let shorter = list.take(j);
            let k = choose|k: int| 0 <= k < shorter.len() && shorter[k] == b;
            assert(short[k] == b);
        }
    }
    reach::lemma_reach_least(edges, facts[list[i]].inputs(), before);
}

/// The heads of a key after the first `n` facts of a causal order joined.
spec fn heads_upto<K>(
    facts: Facts,
    joins: spec_fn(FactView, K) -> bool,
    list: Seq<FactId>,
    n: int,
) -> Map<K, Set<FactId>> {
    Map::new(
        |k: K|
            exists|i: int| 0 <= i < n && joins(facts[#[trigger] list[i]], k),
        |k: K| tops(facts, joining(facts, joins, k).intersect(list.take(n).to_set())),
    )
}

proof fn lemma_heads_step<K>(
    facts: Facts,
    joins: spec_fn(FactView, K) -> bool,
    list: Seq<FactId>,
    n: int,
    keys: Set<K>,
)
    requires
        is_history(facts),
        causal_order::is_causal(facts, list),
        0 < n <= list.len(),
        forall|k: K| #[trigger] keys.contains(k) <==> joins(facts[list[n - 1]], k),
    ensures
        index::advanced(heads_upto(facts, joins, list, n - 1), facts, keys, list[n - 1])
            == heads_upto(facts, joins, list, n),
{
    let id = list[n - 1];
    let before = heads_upto(facts, joins, list, n - 1);
    let made = index::advanced(before, facts, keys, id);
    let want = heads_upto(facts, joins, list, n);
    ordset::lemma_next_is_new(list, n - 1);
    assert(facts.contains_key(id));
    assert forall|k: K| #[trigger] made.contains_key(k) <==> want.contains_key(k) by {
        if before.contains_key(k) {
            let i = choose|i: int| 0 <= i < n - 1 && joins(facts[#[trigger] list[i]], k);
            assert(0 <= i < n && joins(facts[list[i]], k));
        }
        if keys.contains(k) {
            assert(0 <= n - 1 < n && joins(facts[list[n - 1]], k));
        }
        if want.contains_key(k) {
            let i = choose|i: int| 0 <= i < n && joins(facts[#[trigger] list[i]], k);
            if i < n - 1 {
                assert(0 <= i < n - 1 && joins(facts[list[i]], k));
            }
        }
    }
    assert forall|k: K| #[trigger] made.contains_key(k) implies made[k] == want[k] by {
        let small = joining(facts, joins, k).intersect(list.take(n - 1).to_set());
        let big = joining(facts, joins, k).intersect(list.take(n).to_set());
        assert(multimap::at(before, k) =~= tops(facts, small)) by {
            if !before.contains_key(k) {
                assert forall|x: FactId| !#[trigger] small.contains(x) by {
                    if small.contains(x) {
                        let short = list.take(n - 1);
                        let i = choose|i: int| 0 <= i < short.len() && short[i] == x;
                        assert(joins(facts[list[i]], k));
                    }
                }
            }
        }
        if keys.contains(k) {
            assert(big =~= small.insert(id));
            assert forall|x: FactId| #[trigger] made[k].contains(x) <==> want[k].contains(x) by {
                lemma_step_top(facts, list, n, small, x);
            }
            assert(made[k] =~= want[k]);
        } else {
            assert(big =~= small);
            assert(made[k] == want[k]);
        }
    }
    assert(made =~= want);
}

proof fn lemma_step_top(facts: Facts, list: Seq<FactId>, n: int, small: Set<FactId>, x: FactId)
    requires
        is_history(facts),
        causal_order::is_causal(facts, list),
        0 < n <= list.len(),
        small.subset_of(list.take(n - 1).to_set()),
    ensures
        tops(facts, small.insert(list[n - 1])).contains(x) <==> x == list[n - 1] || (tops(
            facts,
            small,
        ).contains(x) && !reach::is_dominated(facts, facts[list[n - 1]].inputs(), x)),
{
    let id = list[n - 1];
    let big = small.insert(id);
    ordset::lemma_next_is_new(list, n - 1);
    if reach::is_dominated(facts, facts[id].inputs(), id) {
        lemma_behind_is_before(facts, list, n - 1, id);
    }
    assert forall|m: FactId| #[trigger] small.contains(m) implies !reach::is_dominated(
        facts,
        facts[m].inputs(),
        id,
    ) by {
        if reach::is_dominated(facts, facts[m].inputs(), id) {
            let short = list.take(n - 1);
            assert(short.to_set().contains(m));
            let i = choose|i: int| 0 <= i < short.len() && short[i] == m;
            assert(list[i] == m);
            lemma_behind_is_before(facts, list, i, id);
            let shorter = list.take(i);
            let k = choose|k: int| 0 <= k < shorter.len() && shorter[k] == id;
            assert(list[k] == list[n - 1]);
        }
    }
    if exists|m: FactId| #[trigger]
        small.contains(m) && reach::is_dominated(facts, facts[m].inputs(), x) {
        let m = choose|m: FactId| #[trigger]
            small.contains(m) && reach::is_dominated(facts, facts[m].inputs(), x);
        assert(big.contains(m));
    }
    if exists|m: FactId| #[trigger]
        big.contains(m) && reach::is_dominated(facts, facts[m].inputs(), x) {
        let m = choose|m: FactId| #[trigger]
            big.contains(m) && reach::is_dominated(facts, facts[m].inputs(), x);
        if m != id {
            assert(small.contains(m));
        }
    }
    assert(big.contains(id));
    assert(!small.contains(id));
}

/// The heads after the first `n` facts of a causal order joined.
proof fn lemma_with_heads_of(facts: Facts, ix: IndexView, list: Seq<FactId>, n: int)
    requires
        is_history(facts),
        causal_order::is_causal(facts, list),
        0 <= n <= list.len(),
        ix.cell_heads == Map::<ExclusiveCell, Set<FactId>>::empty(),
        ix.authority_heads == Map::<DeviceId, Set<FactId>>::empty(),
    ensures
        index::with_heads_of(ix, facts, list.take(n)) == (IndexView {
            cell_heads: heads_upto(
                facts,
                |f: FactView, c: ExclusiveCell| f.advances(c),
                list,
                n,
            ),
            authority_heads: heads_upto(
                facts,
                |f: FactView, s: DeviceId| f.head_subjects().contains(s),
                list,
                n,
            ),
            ..ix
        }),
    decreases n,
{
    let by_cell = |f: FactView, c: ExclusiveCell| f.advances(c);
    let by_subject = |f: FactView, s: DeviceId| f.head_subjects().contains(s);
    let made = index::with_heads_of(ix, facts, list.take(n));
    if n == 0 {
        assert(heads_upto(facts, by_cell, list, 0) =~= ix.cell_heads);
        assert(heads_upto(facts, by_subject, list, 0) =~= ix.authority_heads);
    } else {
        lemma_with_heads_of(facts, ix, list, n - 1);
        assert(list.take(n).drop_last() =~= list.take(n - 1));
        assert(list.take(n).last() == list[n - 1]);
        let f = facts[list[n - 1]];
        assert(facts.contains_key(list[n - 1]));
        lemma_heads_step(facts, by_cell, list, n, f.content.body.cells().to_set());
        lemma_heads_step(facts, by_subject, list, n, f.head_subjects());
    }
}

/// The indexes of the facts alone are the canonical ones, but for the
/// provenance.
pub proof fn fresh_indexes_are_canonical(facts: Facts)
    requires
        is_history(facts),
        is_acyclic(facts),
    ensures
        rebuild::fresh_index(facts) == (IndexView {
            provenance: Map::empty(),
            ..index_of(facts)
        }),
{
    lemma_acyclic_order(facts);
    causal_order::lemma_topological(facts, Seq::empty());
    let list = causal_order::causal_order(facts);
    let ids = order::ascending(facts.dom());
    ordset::lemma_listing(facts.dom());
    let meta = index::with_metadata_of(graph::no_index(), facts, ids);
    assert(ids.take(ids.len() as int) =~= ids);
    lemma_metadata_of(facts, ids, ids.len() as int);
    assert(list.take(list.len() as int) =~= list);
    lemma_with_heads_of(facts, meta, list, list.len() as int);
    let by_cell = |f: FactView, c: ExclusiveCell| f.advances(c);
    let by_subject = |f: FactView, s: DeviceId| f.head_subjects().contains(s);
    lemma_heads_upto_all(facts, by_cell, list);
    lemma_heads_upto_all(facts, by_subject, list);
    assert(facts.restrict(facts.dom()) =~= facts);
    assert(rebuild::fresh_index(facts) =~= (IndexView {
        provenance: Map::empty(),
        ..index_of(facts)
    }));
}

proof fn lemma_heads_upto_all<K>(
    facts: Facts,
    joins: spec_fn(FactView, K) -> bool,
    list: Seq<FactId>,
)
    requires
        list.to_set() == facts.dom(),
    ensures
        heads_upto(facts, joins, list, list.len() as int) == heads_of(facts, joins),
{
    let n = list.len() as int;
    let made = heads_upto(facts, joins, list, n);
    let want = heads_of(facts, joins);
    assert(list.take(n) =~= list);
    assert forall|k: K| #[trigger] made.contains_key(k) <==> want.contains_key(k) by {
        if made.contains_key(k) {
            let i = choose|i: int| 0 <= i < n && joins(facts[#[trigger] list[i]], k);
            assert(list.to_set().contains(list[i]));
            assert(facts.contains_key(list[i]));
        }
        if want.contains_key(k) {
            let id = choose|id: FactId| #[trigger]
                facts.contains_key(id) && joins(facts[id], k);
            assert(list.to_set().contains(id));
            let i = choose|i: int| 0 <= i < list.len() && list[i] == id;
            assert(joins(facts[list[i]], k));
        }
    }
    assert forall|k: K| #[trigger] made.contains_key(k) implies made[k] == want[k] by {
        assert(joining(facts, joins, k).intersect(list.to_set()) =~= joining(facts, joins, k));
    }
    assert(made =~= want);
}

/// What the first `n` facts of a list are about.
pub proof fn lemma_metadata_of(facts: Facts, ids: Seq<FactId>, n: int)
    requires
        facts.dom().finite(),
        ids.no_duplicates(),
        ids.to_set() == facts.dom(),
        0 <= n <= ids.len(),
        forall|id: FactId| #[trigger] facts.contains_key(id) ==> facts[id].id == id,
    ensures
        ({
            let part = facts.restrict(ids.take(n).to_set());
            let made = index::with_metadata_of(graph::no_index(), facts, ids.take(n));
            &&& made.authority_facts == index::participants_of(part)
            &&& made.cells == index::cells_of(part)
            &&& made.stand_down == index::stand_down_of(part)
            &&& made.selectors == selections_of(part)
            &&& made.cell_heads == Map::<ExclusiveCell, Set<FactId>>::empty()
            &&& made.authority_heads == Map::<DeviceId, Set<FactId>>::empty()
            &&& made.provenance == Map::<FactId, RowView>::empty()
        }),
    decreases n,
{
    let part = facts.restrict(ids.take(n).to_set());
    let made = index::with_metadata_of(graph::no_index(), facts, ids.take(n));
    if n == 0 {
        assert(part =~= Map::empty());
        assert(made.authority_facts =~= index::participants_of(part));
        assert(made.cells =~= index::cells_of(part));
        assert(made.stand_down =~= index::stand_down_of(part));
        assert(made.selectors =~= selections_of(part));
    } else {
        lemma_metadata_of(facts, ids, n - 1);
        ordset::lemma_next_is_new(ids, n - 1);
        let id = ids[n - 1];
        assert(ids.to_set().contains(id));
        assert(facts.contains_key(id));
        let before = facts.restrict(ids.take(n - 1).to_set());
        let ix = index::with_metadata_of(graph::no_index(), facts, ids.take(n - 1));
        assert(ids.take(n).drop_last() =~= ids.take(n - 1));
        assert(ids.take(n).last() == id);
        assert(part =~= before.insert(id, facts[id]));
        let f = facts[id];
        assert(f.id == id);
        assert(index::with_metadata(ix, facts, id) == index::with_metadata(
            ix,
            before.insert(f.id, f),
            f.id,
        ));
        lemma_metadata_advance(before, f, ix);
    }
}

/// The relations to some of the typed selectors.
pub open spec fn provenance_to(facts: Facts, some: Set<FactId>) -> Map<FactId, RowView> {
    Map::new(
        |id: FactId| exists|s: FactId| #[trigger] is_related(facts, id, s) && some.contains(s),
        |id: FactId| row_to(facts, some, id),
    )
}

/// The relations of a fact to some of the typed selectors.
pub open spec fn row_to(facts: Facts, some: Set<FactId>, id: FactId) -> RowView {
    Map::new(
        |s: FactId| is_related(facts, id, s) && some.contains(s),
        |s: FactId| relation_to(facts, id, s),
    )
}

/// The row that a table of relations has for a fact.
pub proof fn lemma_row_at(facts: Facts, some: Set<FactId>, id: FactId)
    ensures
        provenance::row_at(provenance_to(facts, some), id) == row_to(facts, some, id),
{
    if !provenance_to(facts, some).contains_key(id) {
        assert forall|s: FactId| !#[trigger] row_to(facts, some, id).contains_key(s) by {
            if row_to(facts, some, id).contains_key(s) {
                assert(is_related(facts, id, s) && some.contains(s));
            }
        }
        assert(row_to(facts, some, id) =~= Map::empty());
    }
}

/// What a fact's parents pass on it has already.
pub proof fn lemma_nothing_inherited(facts: Facts, some: Set<FactId>, id: FactId, n: int)
    requires
        is_history(facts),
        facts.contains_key(id),
        0 <= n <= facts[id].content.parents.len(),
    ensures
        provenance::inherited(
            provenance_to(facts, some),
            row_to(facts, some, id),
            facts[id].content.parents,
            n,
        ) == row_to(facts, some, id),
    decreases n,
{
    if n > 0 {
        lemma_nothing_inherited(facts, some, id, n - 1);
        let edges = reach::parent_edges(facts);
        let rows = provenance_to(facts, some);
        let row = row_to(facts, some, id);
        let p = facts[id].content.parents[n - 1];
        if rows.contains_key(p) {
            assert(edges.contains_key(id) && edges[id].contains(p));
            reach::lemma_reach_closed(edges, set![id]);
            assert(set![id].contains(id));
            assert(reach::reach(edges, set![id]).contains(p));
            assert(set![p].subset_of(reach::reach(edges, set![id])));
            reach::lemma_reach_monotone(edges, set![p], set![id]);
            let made = provenance::merged(row, rows[p]);
            assert forall|s: FactId| #[trigger] made.contains_key(s) <==> row.contains_key(s) by {}
            assert forall|s: FactId| #[trigger] made.contains_key(s) implies made[s] == row[s] by {}
            assert(made =~= row);
        }
    }
}

/// Planning a resident selector again enters its relations.
pub proof fn lemma_planned_again(g: GraphView, some: Set<FactId>, s0: FactId)
    requires
        is_history(g.facts),
        g.facts.contains_key(s0),
        g.facts[s0].is_selector(),
        g.index.provenance == provenance_to(g.facts, some),
        g.fence.staged_cold_pending == 0,
        provenance::planned(g, g.facts[s0]) is Ok,
    ensures
        g.index.provenance.union_prefer_right(provenance::planned(g, g.facts[s0])->Ok_0)
            == provenance_to(g.facts, some.insert(s0)),
{
    reveal(provenance::planned);
    let facts = g.facts;
    let f = facts[s0];
    let rows = provenance_to(facts, some);
    let all = facts.insert(f.id, f);
    assert(all =~= facts);
    let st = provenance::plan_start(g, f)->Ok_0;
    lemma_row_at(facts, some, s0);
    lemma_nothing_inherited(facts, some, s0, f.content.parents.len() as int);
    let prior = |id: FactId| row_to(facts, some, id);
    assert forall|id: FactId| !#[trigger] st.changes.contains_key(id) implies provenance::row_at(
        rows,
        id,
    ) == prior(id) by {
        lemma_row_at(facts, some, id);
    }
    let ids = order::ascending(all.dom());
    lemma_own_context(g, f, st);
    lemma_plan_ids(g, all, st, s0, selected(f), ids, ids.len() as int, prior);
    assert(ids.take(ids.len() as int) =~= ids);
    let changes = provenance::planned(g, f)->Ok_0;
    let made = rows.union_prefer_right(changes);
    let more = some.insert(s0);
    let want = provenance_to(facts, more);
    let edges = reach::parent_edges(facts);
    reach::lemma_reach_closed(edges, set![s0]);
    assert(set![s0].contains(s0));
    assert forall|id: FactId| #[trigger] changes.contains_key(id) <==> is_related(
        facts,
        id,
        s0,
    ) by {
        if st.changes.contains_key(id) {
            assert(id == s0);
            assert(is_related(facts, s0, s0));
        }
    }
    assert forall|id: FactId| #[trigger] made.contains_key(id) <==> want.contains_key(id) by {
        if rows.contains_key(id) {
            let s = choose|s: FactId| #[trigger] is_related(facts, id, s) && some.contains(s);
            assert(is_related(facts, id, s) && more.contains(s));
        }
        if changes.contains_key(id) {
            assert(is_related(facts, id, s0) && more.contains(s0));
        }
        if want.contains_key(id) {
            let s = choose|s: FactId| #[trigger] is_related(facts, id, s) && more.contains(s);
            if s != s0 {
                assert(is_related(facts, id, s) && some.contains(s));
            }
        }
    }
    assert forall|id: FactId| #[trigger] made.contains_key(id) implies made[id] == want[id] by {
        if changes.contains_key(id) {
            assert(ids.contains(id));
            assert(made[id] =~= want[id]);
        } else {
            assert(made[id] =~= want[id]);
        }
    }
    assert(made =~= want);
}

/// The provenance after the first `n` selectors were planned.
pub proof fn lemma_with_planned(g: GraphView, ids: Seq<FactId>, n: int)
    requires
        is_history(g.facts),
        g.fence.staged_cold_pending == 0,
        g.index.provenance == Map::<FactId, RowView>::empty(),
        ids.no_duplicates(),
        0 <= n <= ids.len(),
        forall|i: int|
            0 <= i < ids.len() ==> g.facts.contains_key(#[trigger] ids[i])
                && g.facts[ids[i]].is_selector(),
        rebuild::with_all_planned(g, ids, n) is Ok,
    ensures
        rebuild::with_planned(g, ids, n) == (GraphView {
            index: IndexView {
                provenance: provenance_to(g.facts, ids.take(n).to_set()),
                ..g.index
            },
            ..g
        }),
        rebuild::with_all_planned(g, ids, n) == Ok::<GraphView, crate::error::SemanticError>(
            rebuild::with_planned(g, ids, n),
        ),
    decreases n,
{
    if n == 0 {
        assert(provenance_to(g.facts, ids.take(0).to_set()) =~= Map::empty());
    } else {
        lemma_with_planned(g, ids, n - 1);
        ordset::lemma_next_is_new(ids, n - 1);
        let before = rebuild::with_planned(g, ids, n - 1);
        lemma_planned_again(before, ids.take(n - 1).to_set(), ids[n - 1]);
    }
}

/// A rebuild gives the indexes of the facts, where their provenance can be
/// planned within the limits.
pub proof fn rebuilt_indexes_are_canonical(g: GraphView)
    requires
        g.is_complete(),
        g.fence.staged_cold_pending == 0,
        is_history(g.facts),
        is_acyclic(g.facts),
        rebuild::with_all_planned(
            GraphView { index: rebuild::fresh_index(g.facts), ..g },
            rebuild::selector_ids(g.facts),
            rebuild::selector_ids(g.facts).len() as int,
        ) is Ok,
    ensures
        rebuild::rebuilt_index(g) == index_of(g.facts),
{
    let facts = g.facts;
    fresh_indexes_are_canonical(facts);
    let bare = GraphView { index: rebuild::fresh_index(facts), ..g };
    let chosen = facts.dom().filter(|id: FactId| facts[id].is_selector());
    let ids = rebuild::selector_ids(facts);
    vstd::set_lib::lemma_set_subset_finite(facts.dom(), chosen);
    ordset::lemma_listing(chosen);
    assert forall|i: int| 0 <= i < ids.len() implies facts.contains_key(#[trigger] ids[i])
        && facts[ids[i]].is_selector() by {
        assert(ids.contains(ids[i]));
    }
    lemma_with_planned(bare, ids, ids.len() as int);
    assert(ids.take(ids.len() as int) =~= ids);
    let made = provenance_to(facts, chosen);
    let want = provenance_of(facts);
    assert forall|id: FactId| #[trigger] made.contains_key(id) <==> want.contains_key(id) by {
        if want.contains_key(id) {
            let s = choose|s: FactId| #[trigger] is_related(facts, id, s);
            assert(is_related(facts, id, s) && chosen.contains(s));
        }
    }
    assert forall|id: FactId| #[trigger] made.contains_key(id) implies made[id] == want[id] by {
        assert(made[id] =~= want[id]);
    }
    assert(made =~= want);
    assert(rebuild::rebuilt_index(g) =~= index_of(facts));
}

} // verus!

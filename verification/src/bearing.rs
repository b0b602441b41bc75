//! What a fact bears on: its own cells and devices, and through a fork or a
//! selection all that the branches hold.

use vstd::prelude::*;

use crate::admission::AdmissionView;
use crate::aggregate;
use crate::content::{BodyView, ExclusiveCell};
use crate::delta;
use crate::delta::{RecordView, SemanticFactStatus};
use crate::device::DeviceId;
use crate::fact::FactView;
use crate::graph::{CellView, GraphView, Reading};
use crate::ids::FactId;
use crate::impact;
use crate::journal;
use crate::multimap;
use crate::reach;

verus! {

/// A fact bears on the cells it advances, on its author, on the device it is
/// about, and on the device that it stands down.
pub proof fn facts_bear_on_what_they_name(g: Reading, f: FactView, staged: Set<FactId>)
    ensures
        forall|c: ExclusiveCell| #[trigger]
            f.content.body.cells().contains(c) ==> impact::impact(g, f, staged).cells.contains(c),
        impact::impact(g, f, staged).subjects.contains(f.content.author),
        match f.content.body {
            BodyView::RoleGrant { target, .. } => impact::impact(g, f, staged).subjects.contains(
                target,
            ),
            BodyView::RoleRevoke { target } => impact::impact(g, f, staged).subjects.contains(
                target,
            ),
            BodyView::MembershipAdmit { target } => impact::impact(
                g,
                f,
                staged,
            ).subjects.contains(target),
            BodyView::Evict { target } => impact::impact(g, f, staged).subjects.contains(target),
            BodyView::EvictionProof { target, .. } => impact::impact(
                g,
                f,
                staged,
            ).subjects.contains(target),
            BodyView::SelfStandDown { device_id, .. } => impact::impact(
                g,
                f,
                staged,
            ).subjects.contains(device_id),
            BodyView::AuthorityLineageResolution { subject, .. } => impact::impact(
                g,
                f,
                staged,
            ).subjects.contains(subject),
            BodyView::Attestation { .. } | BodyView::Resolution { .. } => true,
        },
{
    reveal(impact::impact);
}

/// A fact that is no resolution and builds on every head of its lineages bears
/// on nothing else.
pub proof fn facts_that_follow_bear_on_nothing_else(g: Reading, f: FactView)
    requires
        !(f.content.body is Resolution),
        !(f.content.body is AuthorityLineageResolution),
        forall|s: DeviceId, h: FactId|
            f.content.body.subjects(f.content.author).contains(s) && #[trigger] multimap::at(
                g.index.authority_heads,
                s,
            ).contains(h) ==> h == f.id || f.inputs().contains(h),
    ensures
        forall|c: ExclusiveCell| #[trigger]
            impact::impact(g, f, Set::empty()).cells.contains(c)
                ==> f.content.body.cells().contains(c),
        forall|d: DeviceId| #[trigger]
            impact::impact(g, f, Set::empty()).subjects.contains(d) ==> f.touches(d)
                || f.content.body.subjects(f.content.author).contains(d),
{
    reveal(impact::impact);
    let none = Set::<FactId>::empty();
    assert forall|s: DeviceId| #[trigger]
        f.content.body.subjects(f.content.author).contains(s) implies impact::subject_impact(
        g,
        f,
        s,
        none,
    ) == impact::untouched() by {
        let heads = impact::fork_heads(g, s, none);
        assert forall|h: FactId| #[trigger] heads.contains(h) implies h == f.id
            || f.inputs().contains(h) by {
            assert(multimap::at(g.index.authority_heads, s).contains(h));
        }
    }
}

/// A fact that passes over a head of a lineage that it continues, and a
/// resolution that selects in one, bear on every cell that a fact of that
/// lineage advances: any of them can stop or start to count.
pub proof fn forks_bear_on_all_branches(
    g: Reading,
    f: FactView,
    s: DeviceId,
    x: FactId,
    c: ExclusiveCell,
)
    requires
        f.content.body.subjects(f.content.author).contains(s),
        impact::selects_for(f.content.body, s) || (!f.payload_local(s) && exists|h: FactId|
            #[trigger]
            multimap::at(g.index.authority_heads, s).contains(h) && h != f.id
                && !f.inputs().contains(h)),
        multimap::at(g.index.authority_facts, s).contains(x),
        g.facts.contains_key(x),
        g.facts[x].content.body.cells().contains(c),
    ensures
        impact::impact(g, f, Set::empty()).cells.contains(c),
        c.about() matches Some(d) ==> impact::impact(g, f, Set::empty()).subjects.contains(d),
{
    reveal(impact::impact);
    let none = Set::<FactId>::empty();
    let edges = impact::branch_edges(g, s, none);
    let heads = impact::fork_heads(g, s, none);
    let parts = impact::participants(g, s, none);
    let seeds = if impact::selects_for(f.content.body, s) {
        impact::seeds_of(f, s)
    } else {
        heads
    };
    if !impact::selects_for(f.content.body, s) {
        let h = choose|h: FactId| #[trigger]
            multimap::at(g.index.authority_heads, s).contains(h) && h != f.id
                && !f.inputs().contains(h);
        assert(heads.contains(h));
    }
    reach::lemma_reach_closed(edges, seeds.union(parts));
    assert(parts.contains(x));
    assert(seeds.union(parts).contains(x));
    assert(reach::reach(edges, seeds.union(parts)).contains(x));
    assert(g.facts[x].advances(c));
    assert(impact::subject_impact(g, f, s, none) == impact::participant_impact(g, s, seeds, none));
    assert(impact::subject_impact(g, f, s, none).cells.contains(c));
    if let Some(d) = c.about() {
        assert(g.facts[x].touches(d));
        assert(impact::subject_impact(g, f, s, none).subjects.contains(d));
    }
}

/// Which lineage a resolution selects in: that of its subject, or that of the
/// device whose role is contested.
pub proof fn resolutions_select_for_their_subject(body: BodyView, s: DeviceId)
    ensures
        match body {
            BodyView::AuthorityLineageResolution { subject, .. } => impact::selects_for(body, s)
                <==> s == subject,
            BodyView::Resolution { cell, .. } => impact::selects_for(body, s) <==> cell == (
            ExclusiveCell::Role { subject: s }),
            _ => !impact::selects_for(body, s),
        },
{
}

/// A journal names every cell that an admitted row advances and every device
/// such a row is about; where no row is admitted it names none, and the
/// projection has not changed.
pub proof fn journals_name_what_admitted_rows_bear_on(
    g: GraphView,
    id: FactId,
    a: AdmissionView,
    ids: Seq<FactId>,
    staged: Set<FactId>,
    base_generation: u64,
    cells: Map<ExclusiveCell, Option<CellView>>,
    stand_down: Map<DeviceId, Option<FactId>>,
)
    ensures
        ({
            let rec = journal::changed(
                g,
                id,
                a,
                ids,
                staged,
                base_generation,
                cells,
                stand_down,
            );
            &&& forall|i: int|
                #![trigger rec.rows[i]]
                0 <= i < rec.rows.len() && rec.rows[i].status == SemanticFactStatus::Admitted
                    && g.facts.contains_key(rec.rows[i].fact.id) ==> {
                    let f = g.facts[rec.rows[i].fact.id];
                    &&& forall|c: ExclusiveCell| #[trigger]
                        f.content.body.cells().contains(c) ==> rec.cells.contains(c)
                    &&& forall|d: DeviceId| #[trigger]
                        f.content.body.subjects(f.content.author).contains(d)
                            ==> rec.subjects.contains(d)
                }
            &&& (forall|i: int|
                0 <= i < rec.rows.len() ==> (#[trigger] rec.rows[i]).status
                    != SemanticFactStatus::Admitted) ==> rec.cells == Set::<ExclusiveCell>::empty()
                && rec.subjects == Set::<DeviceId>::empty() && rec.projection is None
            &&& (exists|i: int|
                0 <= i < rec.rows.len() && (#[trigger] rec.rows[i]).status
                    == SemanticFactStatus::Admitted) ==> rec.projection is Some
        }),
{
    reveal(journal::changed);
    let rec = journal::changed(g, id, a, ids, staged, base_generation, cells, stand_down);
    let admitted = delta::admitted_rows(rec.rows);
    assert forall|i: int|
        #![trigger rec.rows[i]]
        0 <= i < rec.rows.len() && rec.rows[i].status == SemanticFactStatus::Admitted
            && g.facts.contains_key(rec.rows[i].fact.id) implies {
        let f = g.facts[rec.rows[i].fact.id];
        &&& forall|c: ExclusiveCell| #[trigger]
            f.content.body.cells().contains(c) ==> rec.cells.contains(c)
        &&& forall|d: DeviceId| #[trigger]
            f.content.body.subjects(f.content.author).contains(d) ==> rec.subjects.contains(d)
    } by {
        let f = g.facts[rec.rows[i].fact.id];
        assert(admitted.contains(rec.rows[i].fact.id));
        reveal(impact::impact);
    }
    if forall|i: int|
        0 <= i < rec.rows.len() ==> (#[trigger] rec.rows[i]).status
            != SemanticFactStatus::Admitted {
        assert(admitted =~= Set::<FactId>::empty());
        assert(rec.cells =~= Set::<ExclusiveCell>::empty());
        assert(rec.subjects =~= Set::<DeviceId>::empty());
    }
}

/// An input of a group names all that its journal named, and what the facts
/// that it changed bear on.
pub proof fn group_inputs_name_what_changed(g: GraphView, rec: RecordView, staged: Set<FactId>)
    ensures
        ({
            let item = aggregate::item_record(g, rec, staged);
            &&& rec.cells.subset_of(item.cells)
            &&& rec.subjects.subset_of(item.subjects)
            &&& item.rows == rec.rows
            &&& item.removed == rec.removed
            &&& item.promoted == rec.promoted
            &&& item.projection == rec.projection
            &&& forall|i: int|
                #![trigger rec.rows[i]]
                0 <= i < rec.rows.len() && g.facts.contains_key(rec.rows[i].fact.id) ==> {
                    let f = g.facts[rec.rows[i].fact.id];
                    &&& forall|c: ExclusiveCell| #[trigger]
                        f.content.body.cells().contains(c) ==> item.cells.contains(c)
                    &&& item.subjects.contains(f.content.author)
                }
        }),
{
    let item = aggregate::item_record(g, rec, staged);
    assert forall|i: int|
        #![trigger rec.rows[i]]
        0 <= i < rec.rows.len() && g.facts.contains_key(rec.rows[i].fact.id) implies {
        let f = g.facts[rec.rows[i].fact.id];
        &&& forall|c: ExclusiveCell| #[trigger]
            f.content.body.cells().contains(c) ==> item.cells.contains(c)
        &&& item.subjects.contains(f.content.author)
    } by {
        let f = g.facts[rec.rows[i].fact.id];
        assert(rec.changed_ids()[i] == rec.rows[i].fact.id);
        assert(rec.changed_ids().to_set().contains(rec.rows[i].fact.id));
        facts_bear_on_what_they_name(g.reading(), f, staged);
    }
}

} // verus!

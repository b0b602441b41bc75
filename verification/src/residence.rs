//! What a projection names stays resident through retirement.

use vstd::prelude::*;

use crate::authority;
use crate::checkpoint;
use crate::cold;
use crate::content::ExclusiveCell;
use crate::device::DeviceId;
use crate::exactness;
use crate::graph::GraphView;
use crate::ids::FactId;
use crate::multimap;
use crate::ordset;
use crate::projection;
use crate::soundness;

verus! {

/// Whether the indexes list every device that the projection has stood down.
pub open spec fn are_listed(g: GraphView) -> bool {
    projection::current(g).stand_down.dom().subset_of(g.index.stand_down.dom())
}

/// The indexes of a sound graph list every device that is stood down.
pub proof fn sound_graph_lists_its_proofs(g: GraphView)
    requires
        soundness::is_sound(g),
    ensures
        are_listed(g),
{
    let p = projection::projected(g.reading());
    assert forall|s: DeviceId| #[trigger] p.stand_down.dom().contains(
        s,
    ) implies g.index.stand_down.dom().contains(s) by {
        assert(p.stand_down.contains_key(s));
    }
}

/// The proof that a device is stood down stays resident through retirement,
/// with its direct inputs, as far as they were resident.
pub proof fn retirement_keeps_proofs(g: GraphView, s: DeviceId)
    requires
        g.indexes_current(),
        are_listed(g),
        projection::current(g).stand_down.contains_key(s),
    ensures
        ({
            let h = cold::retired(g);
            let proof_id = projection::current(g).stand_down[s];
            &&& g.facts.contains_key(proof_id) ==> h.facts.contains_key(proof_id)
            &&& forall|x: FactId|
                g.facts.contains_key(proof_id) && g.facts.contains_key(x)
                    && #[trigger] g.facts[proof_id].inputs().contains(x) ==> h.facts.contains_key(x)
        }),
{
    if !cold::is_due(g) {
        reveal(cold::retired);
    } else {
        let p = projection::current(g);
        let proof_id = p.stand_down[s];
        cold::retirement_keeps_live_rows(g);
        assert(p.stand_down.dom().contains(s));
        assert(g.index.stand_down.contains_key(s));
        assert(cold::live_rows(g, p).contains(proof_id));
    }
}

/// Retirement keeps all that the projection of a sound graph names.
pub proof fn retirement_keeps_what_is_projected(g: GraphView)
    requires
        soundness::is_sound(g),
    ensures
        checkpoint::is_resident(cold::retired(g).facts, projection::current(g)),
{
    let p = projection::current(g);
    assert(checkpoint::is_resident(g.facts, p));
    if !cold::is_due(g) {
        reveal(cold::retired);
    } else {
        cold::retirement_keeps_live_rows(g);
        sound_graph_lists_its_proofs(g);
        let facts = g.facts;
        let h = cold::retired(g);
        let r = g.reading();
        assert(r == exactness::reading_of(facts));
        assert(p == projection::projected(r));
        assert forall|c: ExclusiveCell| #[trigger]
            p.cells.contains_key(c) implies checkpoint::cell_is_resident(h.facts, p.cells[c]) by {
            reveal(projection::cell_state);
            assert(projection::cell_state(r, c) == Some(p.cells[c]));
            assert(checkpoint::cell_is_resident(facts, p.cells[c]));
            exactness::lemma_cell_heads_read(facts, c);
            let raw = r.raw_heads(c);
            let counting = raw.filter(|id: FactId| authority::is_authoritative(r, id));
            vstd::set_lib::lemma_set_subset_finite(raw, counting);
            ordset::lemma_listing(raw);
            ordset::lemma_listing(counting);
            let heads = authority::cell_heads(r, c);
            assert forall|i: int| 0 <= i < heads.len() implies h.facts.contains_key(
                #[trigger] heads[i],
            ) by {
                assert(heads.contains(heads[i]));
                assert(raw.contains(heads[i]));
                assert(g.index.cell_heads.contains_key(c));
                assert(g.index.cell_heads[c].contains(heads[i]));
                assert(multimap::members(g.index.cell_heads).contains(heads[i]));
            }
            if let Some(id) = projection::value_of(p, c) {
                assert(facts.contains_key(id));
                assert(projection::value_of(p, c) == Some(id));
                assert(h.facts.contains_key(id));
            }
        }
        assert forall|s: DeviceId| #[trigger] p.stand_down.contains_key(
            s,
        ) implies h.facts.contains_key(p.stand_down[s]) by {
            retirement_keeps_proofs(g, s);
        }
    }
}

} // verus!

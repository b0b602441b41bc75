//! Continuing from a checkpoint, held to the canonical history behind it.

use vstd::prelude::*;

use crate::authority;
use crate::checkpoint;
use crate::checkpoint::{CheckpointError, CheckpointView, LiveFactGraphCheckpoint};
use crate::checks;
use crate::content::ExclusiveCell;
use crate::costs::rows_selectors;
use crate::device::DeviceId;
use crate::error::SemanticError;
use crate::fact::{Facts, FactView, SignedFact};
use crate::graph;
use crate::graph::{AuthoritySelectorRelation, FactGraph, GraphView};
use crate::ids::{FactId, MeshContextId};
use crate::index;
use crate::multimap;
use crate::order;
use crate::order::Key;
use crate::ordmap::OrdMap;
use crate::ordset::{holds, Duplicate, OrdSet};
use crate::policy::{SemanticAdmissionPolicy, VerifiedBootstrap};
use crate::provenance;
use crate::reach;

verus! {

/// What a row of the canonical history is held to.
pub open spec fn history_row_check(
    list: Seq<FactView>,
    context: MeshContextId,
    i: int,
) -> Result<(), CheckpointError> {
    match list[i].checked.refusal {
        Some(e) => Err(CheckpointError::Refused(e)),
        None => if list[i].content.mesh_context != context {
            Err(CheckpointError::Invalid("canonical provenance context mismatch"))
        } else if checkpoint::by_id(list, i).contains_key(list[i].id) {
            Err(CheckpointError::Invalid("duplicate canonical provenance row"))
        } else {
            Ok(())
        },
    }
}

/// Whether the facts hold all their inputs.
pub open spec fn is_closed(facts: Facts) -> bool {
    forall|id: FactId| #[trigger]
        facts.contains_key(id) ==> facts[id].inputs().subset_of(facts.dom())
}

/// Whether every signed row is in the facts as it is.
pub open spec fn rows_agree(facts: Facts, rows: Seq<FactView>) -> bool {
    forall|i: int|
        0 <= i < rows.len() ==> facts.contains_key((#[trigger] rows[i]).id)
            && facts[rows[i].id].same_as(rows[i])
}

/// Whether a fact is one of `heads` or behind one.
pub open spec fn is_reached(facts: Facts, heads: Set<FactId>, id: FactId) -> bool {
    exists|h: FactId| #[trigger]
        heads.contains(h) && (h == id || reach::is_ancestor(facts, id, h))
}

/// Whether every lineage that a fact takes part in reaches a declared head.
pub open spec fn uses_are_covered(
    facts: Facts,
    heads: Map<DeviceId, Set<FactId>>,
    id: FactId,
) -> bool {
    forall|s: DeviceId| #[trigger]
        facts[id].participants().contains(s) ==> is_reached(facts, multimap::at(heads, s), id)
}

/// Whether every cell that a fact advances reaches a declared head.
pub open spec fn cells_are_covered(
    facts: Facts,
    heads: Map<ExclusiveCell, Set<FactId>>,
    id: FactId,
) -> bool {
    forall|c: ExclusiveCell| #[trigger]
        facts[id].advances(c) ==> is_reached(facts, multimap::at(heads, c), id)
}

/// What the declared heads are held to for one fact.
pub open spec fn covered_check(facts: Facts, g: GraphView, id: FactId) -> Result<
    (),
    CheckpointError,
> {
    if !uses_are_covered(facts, g.index.authority_heads, id) {
        Err(CheckpointError::Invalid("checkpoint authority-head coverage is incomplete"))
    } else if !cells_are_covered(facts, g.index.cell_heads, id) {
        Err(CheckpointError::Invalid("checkpoint cell-head coverage is incomplete"))
    } else {
        Ok(())
    }
}

/// Whether no other of `heads` has a head behind it.
pub open spec fn is_undominated(facts: Facts, heads: Set<FactId>, head: FactId) -> bool {
    !exists|other: FactId| #[trigger]
        heads.contains(other) && other != head && reach::is_ancestor(facts, head, other)
}

/// Whether every declared lineage head is a maximal use.
pub open spec fn uses_are_maximal(facts: Facts, heads: Map<DeviceId, Set<FactId>>) -> bool {
    forall|s: DeviceId, h: FactId|
        heads.contains_key(s) && #[trigger] heads[s].contains(h) ==> facts.contains_key(h)
            && facts[h].takes_part(s) && is_undominated(facts, heads[s], h)
}

/// Whether every declared cell head is maximal.
pub open spec fn cells_are_maximal(facts: Facts, heads: Map<ExclusiveCell, Set<FactId>>) -> bool {
    forall|c: ExclusiveCell, h: FactId|
        heads.contains_key(c) && #[trigger] heads[c].contains(h) ==> facts.contains_key(h)
            && facts[h].advances(c) && is_undominated(facts, heads[c], h)
}

/// Whether a typed selector among `past` is not on record.
pub open spec fn omits_selector(facts: Facts, past: Set<FactId>, contexts: Set<FactId>) -> bool {
    exists|a: FactId| #[trigger]
        past.contains(a) && authority::selected_by(facts, a) is Some && !contexts.contains(a)
}

/// What a live root is held to: every typed selector at or behind it is on
/// record.
pub open spec fn root_check(facts: Facts, contexts: Set<FactId>, id: FactId) -> Result<
    (),
    CheckpointError,
> {
    match provenance::ancestors_of(facts, id) {
        Err(e) => Err(CheckpointError::Refused(e)),
        Ok(past) => if omits_selector(facts, past.insert(id), contexts) {
            Err(CheckpointError::Invalid("checkpoint omits required selector provenance"))
        } else {
            Ok(())
        },
    }
}

/// What a row's relation to one selector is held to.
pub open spec fn relation_check(facts: Facts, g: GraphView, id: FactId, selector: FactId) -> Result<
    (),
    CheckpointError,
> {
    if !facts.contains_key(selector) {
        Err(CheckpointError::Invalid("canonical selector is missing"))
    } else {
        match authority::selected_by(facts, selector) {
            None => Err(CheckpointError::Invalid("canonical selector is not typed")),
            Some(selected) => match provenance::ancestors_of(facts, selected) {
                Err(e) => if id == selected {
                    relation_matches(facts, g, id, selector, selected)
                } else {
                    Err(CheckpointError::Refused(e))
                },
                Ok(_) => relation_matches(facts, g, id, selector, selected),
            },
        }
    }
}

/// Whether the relation on record is that of canonical ancestry.
pub open spec fn relation_matches(
    facts: Facts,
    g: GraphView,
    id: FactId,
    selector: FactId,
    selected: FactId,
) -> Result<(), CheckpointError> {
    let expected = provenance::relation_between(facts, id, selector, selected);
    let want = if expected.holds() {
        Some(expected)
    } else {
        None
    };
    if authority::relation_of(g.index.provenance, id, selector) != want {
        Err(CheckpointError::Invalid("checkpoint provenance differs from canonical ancestry"))
    } else {
        Ok(())
    }
}

/// What a row is held to.
pub open spec fn row_check(facts: Facts, g: GraphView, contexts: Seq<FactId>, id: FactId) -> Result<
    (),
    CheckpointError,
> {
    match provenance::ancestors_of(facts, id) {
        Err(e) => Err(CheckpointError::Refused(e)),
        Ok(_) => checks::run(
            |k: int| relation_check(facts, g, id, contexts[k]),
            contexts.len() as int,
        ),
    }
}

/// What the history itself, and the signed rows of a checkpoint in it, are
/// held to.
pub open spec fn history_check(
    context: MeshContextId,
    cp: CheckpointView,
    history: Seq<FactView>,
) -> Result<(), CheckpointError> {
    let facts = checkpoint::by_id(history, history.len() as int);
    checkpoint::first(
        checks::run(|i: int| history_row_check(history, context, i), history.len() as int),
        checkpoint::first(
            checkpoint::unless(
                !is_closed(facts),
                "canonical provenance dependency closure is incomplete",
            ),
            checkpoint::unless(
                !rows_agree(facts, cp.facts),
                "checkpoint signed row differs from canonical history",
            ),
        ),
    )
}

/// What a graph that was read back is held to by the canonical history.
pub open spec fn canonical_check(facts: Facts, g: GraphView) -> Result<(), CheckpointError> {
    let ids = order::ascending(facts.dom());
    let roots = order::ascending(provenance::live_roots(g));
    let rows = order::ascending(g.facts.dom());
    let contexts = provenance::selectors_in(g.index.provenance);
    let listed = order::ascending(contexts);
    checkpoint::first(
        checks::run(|i: int| covered_check(facts, g, ids[i]), ids.len() as int),
        checkpoint::first(
            checkpoint::unless(
                !uses_are_maximal(facts, g.index.authority_heads),
                "checkpoint authority head is not canonical maximal use",
            ),
            checkpoint::first(
                checkpoint::unless(
                    !cells_are_maximal(facts, g.index.cell_heads),
                    "checkpoint cell head is not canonical maximal use",
                ),
                checkpoint::first(
                    checks::run(|i: int| root_check(facts, contexts, roots[i]), roots.len() as int),
                    checks::run(|i: int| row_check(facts, g, listed, rows[i]), rows.len() as int),
                ),
            ),
        ),
    )
}

/// The graph that continues from a checkpoint and its history.
#[verifier::opaque]
pub open spec fn restarted(
    bootstrap: VerifiedBootstrap,
    limits: SemanticAdmissionPolicy,
    cp: CheckpointView,
    history: Seq<FactView>,
) -> Result<GraphView, CheckpointError> {
    match history_check(bootstrap.context, cp, history) {
        Err(e) => Err(e),
        Ok(()) => match checkpoint::decoded(bootstrap, limits, cp) {
            Err(e) => Err(e),
            Ok(g) => match canonical_check(
                checkpoint::by_id(history, history.len() as int),
                g,
            ) {
                Err(e) => Err(e),
                Ok(()) => Ok(g),
            },
        },
    }
}

impl LiveFactGraphCheckpoint {
    /// The signed live rows whose history a restart needs.  Roots come from
    /// them, never from claimed cache coverage.
    pub fn history_roots(&self) -> (r: Vec<FactId>)
        ensures
            r@ == self@.facts.map_values(|f: FactView| f.id),
    {
        let n: usize = self.facts.len();
        let mut r: Vec<FactId> = Vec::new();
        for i in 0..n
            invariant
                n == self.facts@.len(),
                r@.len() == i,
                forall|j: int| 0 <= j < i ==> r@[j] == (#[trigger] self.facts@[j])@.id,
        {
            r.push(self.facts[i].id);
        }
        assert(r@ =~= self@.facts.map_values(|f: FactView| f.id));
        r
    }
}

/// Reads the canonical history.
fn read_history(history: &Vec<SignedFact>, context: &MeshContextId) -> (r: Result<
    OrdMap<FactId, SignedFact>,
    CheckpointError,
>)
    ensures
        ({
            let views = checkpoint::facts_view(history@);
            let check = |i: int| history_row_check(views, *context, i);
            match r {
                Ok(m) => checks::run(check, views.len() as int) is Ok && m@ == checkpoint::by_id(
                    views,
                    views.len() as int,
                ),
                Err(e) => checks::run(check, views.len() as int) == Err::<(), CheckpointError>(e),
            }
        }),
{
    let ghost views = checkpoint::facts_view(history@);
    let ghost check = |i: int| history_row_check(views, *context, i);
    let n: usize = history.len();
    let mut m: OrdMap<FactId, SignedFact> = OrdMap::new();
    for i in 0..n
        invariant
            n == history@.len(),
            views == checkpoint::facts_view(history@),
            check == (|i: int| history_row_check(views, *context, i)),
            m@ == checkpoint::by_id(views, i as int),
            checks::run(check, i as int) == Ok::<(), CheckpointError>(()),
    {
        assert(views[i as int] == history@[i as int]@);
        assert(checks::run(check, i + 1) == check(i as int));
        let refused: Option<CheckpointError> = match history[i].verify() {
            Err(e) => Some(CheckpointError::Refused(e)),
            Ok(()) => if !history[i].content.mesh_context.same(context) {
                Some(CheckpointError::Invalid("canonical provenance context mismatch"))
            } else if m.contains_key(&history[i].id) {
                Some(CheckpointError::Invalid("duplicate canonical provenance row"))
            } else {
                None
            },
        };
        if let Some(e) = refused {
            proof {
                checks::lemma_run_err(check, i + 1, n as int);
            }
            return Err(e);
        }
        m.insert(history[i].id, history[i].duplicate());
    }
    Ok(m)
}

impl FactGraph {
    /// Whether every fact has its inputs.
    fn is_dependency_closed(&self) -> (r: bool)
        ensures
            r == is_closed(self@.facts),
    {
        let ids = self.facts.keys();
        let n: usize = ids.len();
        for i in 0..n
            invariant
                n == ids@.len(),
                forall|k: FactId| #[trigger] ids@.contains(k) <==> self@.facts.contains_key(k),
                forall|j: int|
                    0 <= j < i ==> self@.facts[#[trigger] ids@[j]].inputs().subset_of(
                        self@.facts.dom(),
                    ),
        {
            assert(ids@.contains(ids@[i as int]));
            if !self.holds_inputs(self.facts.value(&ids[i])) {
                assert(self@.facts.contains_key(ids@[i as int]));
                return false;
            }
        }
        assert forall|id: FactId| #[trigger]
            self@.facts.contains_key(id) implies self@.facts[id].inputs().subset_of(
            self@.facts.dom(),
        ) by {
            assert(ids@.contains(id));
            let j = choose|j: int| 0 <= j < ids@.len() && ids@[j] == id;
            assert(self@.facts[ids@[j]].inputs().subset_of(self@.facts.dom()));
        }
        true
    }

    /// Whether every signed row is among the facts as it is.
    fn holds_rows(&self, rows: &Vec<SignedFact>) -> (r: bool)
        ensures
            r == rows_agree(self@.facts, checkpoint::facts_view(rows@)),
    {
        let ghost views = checkpoint::facts_view(rows@);
        let n: usize = rows.len();
        for i in 0..n
            invariant
                n == rows@.len(),
                views == checkpoint::facts_view(rows@),
                forall|j: int|
                    0 <= j < i ==> self@.facts.contains_key((#[trigger] views[j]).id)
                        && self@.facts[views[j].id].same_as(views[j]),
        {
            assert(views[i as int] == rows@[i as int]@);
            let agrees = match self.facts.get(&rows[i].id) {
                Some(f) => f.same(&rows[i]),
                None => false,
            };
            if !agrees {
                assert(!(self@.facts.contains_key(views[i as int].id)
                    && self@.facts[views[i as int].id].same_as(views[i as int])));
                return false;
            }
        }
        true
    }

    /// Whether a fact is one of the heads at a key, or behind one.
    fn reaches_head<K: Key>(&self, heads: &OrdMap<K, OrdSet<FactId>>, key: &K, id: &FactId) -> (r:
        bool)
        ensures
            r == is_reached(self@.facts, multimap::at(heads@, *key), *id),
    {
        let list = multimap::list_at(heads, key);
        let n: usize = list.len();
        for i in 0..n
            invariant
                n == list@.len(),
                forall|h: FactId| #[trigger]
                    list@.contains(h) <==> multimap::at(heads@, *key).contains(h),
                forall|j: int|
                    0 <= j < i ==> !(#[trigger] list@[j] == *id || reach::is_ancestor(
                        self@.facts,
                        *id,
                        list@[j],
                    )),
        {
            if list[i].same(id) || self.is_ancestor(id, &list[i]) {
                assert(list@.contains(list@[i as int]));
                assert(multimap::at(heads@, *key).contains(list@[i as int]));
                return true;
            }
        }
        proof {
            if is_reached(self@.facts, multimap::at(heads@, *key), *id) {
                let h = choose|h: FactId| #[trigger]
                    multimap::at(heads@, *key).contains(h) && (h == *id || reach::is_ancestor(
                        self@.facts,
                        *id,
                        h,
                    ));
                assert(list@.contains(h));
                let j = choose|j: int| 0 <= j < list@.len() && list@[j] == h;
                assert(list@[j] == h);
            }
        }
        false
    }

    /// Whether one fact of the canonical history reaches declared heads.
    fn check_covered(&self, graph: &FactGraph, id: &FactId) -> (r: Result<(), CheckpointError>)
        requires
            self@.facts.contains_key(*id),
        ensures
            r == covered_check(self@.facts, graph@, *id),
    {
        let f = self.facts.value(id);
        let subjects = f.indexed_authority_subjects();
        let n: usize = subjects.len();
        for i in 0..n
            invariant
                n == subjects@.len(),
                f@ == self@.facts[*id],
                forall|s: DeviceId| #[trigger] subjects@.contains(s) <==> f@.takes_part(s),
                forall|j: int|
                    0 <= j < i ==> is_reached(
                        self@.facts,
                        multimap::at(graph@.index.authority_heads, #[trigger] subjects@[j]),
                        *id,
                    ),
        {
            if !self.reaches_head(&graph.index.authority_heads, &subjects[i], id) {
                proof {
                    assert(subjects@.contains(subjects@[i as int]));
                    assert(f@.participants().contains(subjects@[i as int]));
                }
                return Err(
                    CheckpointError::Invalid("checkpoint authority-head coverage is incomplete"),
                );
            }
        }
        proof {
            assert forall|s: DeviceId| #[trigger] f@.participants().contains(s) implies is_reached(
                self@.facts,
                multimap::at(graph@.index.authority_heads, s),
                *id,
            ) by {
                assert(subjects@.contains(s));
                let j = choose|j: int| 0 <= j < subjects@.len() && subjects@[j] == s;
                assert(is_reached(
                    self@.facts,
                    multimap::at(graph@.index.authority_heads, subjects@[j]),
                    *id,
                ));
            }
        }
        let cells = f.content.body.exclusive_cells();
        let m: usize = cells.len();
        for i in 0..m
            invariant
                m == cells@.len(),
                f@ == self@.facts[*id],
                cells@ == f@.content.body.cells(),
                uses_are_covered(self@.facts, graph@.index.authority_heads, *id),
                forall|j: int|
                    0 <= j < i ==> is_reached(
                        self@.facts,
                        multimap::at(graph@.index.cell_heads, #[trigger] cells@[j]),
                        *id,
                    ),
        {
            if !self.reaches_head(&graph.index.cell_heads, &cells[i], id) {
                proof {
                    assert(cells@.contains(cells@[i as int]));
                    assert(f@.advances(cells@[i as int]));
                }
                return Err(
                    CheckpointError::Invalid("checkpoint cell-head coverage is incomplete"),
                );
            }
        }
        proof {
            assert forall|c: ExclusiveCell| #[trigger]
                self@.facts[*id].advances(c) implies is_reached(
                self@.facts,
                multimap::at(graph@.index.cell_heads, c),
                *id,
            ) by {
                assert(cells@.contains(c));
                let j = choose|j: int| 0 <= j < cells@.len() && cells@[j] == c;
                assert(is_reached(
                    self@.facts,
                    multimap::at(graph@.index.cell_heads, cells@[j]),
                    *id,
                ));
            }
        }
        Ok(())
    }

    /// Whether no other of `heads` has a head behind it.
    fn head_is_undominated(&self, heads: &Vec<FactId>, head: &FactId) -> (r: bool)
        ensures
            r == is_undominated(self@.facts, heads@.to_set(), *head),
    {
        let n: usize = heads.len();
        for i in 0..n
            invariant
                n == heads@.len(),
                forall|j: int|
                    0 <= j < i ==> !(#[trigger] heads@[j] != *head && reach::is_ancestor(
                        self@.facts,
                        *head,
                        heads@[j],
                    )),
        {
            if !heads[i].same(head) && self.is_ancestor(head, &heads[i]) {
                assert(heads@.to_set().contains(heads@[i as int]));
                return false;
            }
        }
        proof {
            if !is_undominated(self@.facts, heads@.to_set(), *head) {
                let other = choose|other: FactId| #[trigger]
                    heads@.to_set().contains(other) && other != *head && reach::is_ancestor(
                        self@.facts,
                        *head,
                        other,
                    );
                let j = choose|j: int| 0 <= j < heads@.len() && heads@[j] == other;
                assert(heads@[j] == other);
            }
        }
        true
    }

    /// Whether every declared lineage head is a maximal use.
    fn check_use_heads(&self, heads: &OrdMap<DeviceId, OrdSet<FactId>>) -> (r: bool)
        ensures
            r == uses_are_maximal(self@.facts, heads@),
    {
        let ghost fits = |s: DeviceId, h: FactId|
            self@.facts.contains_key(h) && self@.facts[h].takes_part(s) && is_undominated(
                self@.facts,
                heads@[s],
                h,
            );
        let keys = heads.keys();
        let n: usize = keys.len();
        for i in 0..n
            invariant
                n == keys@.len(),
                fits == (|s: DeviceId, h: FactId|
                    self@.facts.contains_key(h) && self@.facts[h].takes_part(s)
                        && is_undominated(self@.facts, heads@[s], h)),
                forall|k: DeviceId| #[trigger] keys@.contains(k) <==> heads@.contains_key(k),
                forall|j: int, h: FactId|
                    0 <= j < i && #[trigger] heads@[keys@[j]].contains(h) ==> fits(keys@[j], h),
        {
            let s = keys[i];
            assert(keys@.contains(s));
            let list = heads.value(&s).to_vec();
            let m: usize = list.len();
            for k in 0..m
                invariant
                    m == list@.len(),
                    heads@.contains_key(s),
                    list@.to_set() == heads@[s],
                    fits == (|s: DeviceId, h: FactId|
                        self@.facts.contains_key(h) && self@.facts[h].takes_part(s)
                            && is_undominated(self@.facts, heads@[s], h)),
                    forall|q: int| 0 <= q < k ==> fits(s, #[trigger] list@[q]),
            {
                let takes_part = match self.facts.get(&list[k]) {
                    Some(f) => holds(&f.indexed_authority_subjects(), &s),
                    None => false,
                };
                if !takes_part || !self.head_is_undominated(&list, &list[k]) {
                    proof {
                        assert(list@.to_set().contains(list@[k as int]));
                        assert(heads@[s].contains(list@[k as int]));
                    }
                    return false;
                }
            }
            proof {
                assert forall|j: int, h: FactId|
                    0 <= j < i + 1 && #[trigger] heads@[keys@[j]].contains(h) implies fits(
                    keys@[j],
                    h,
                ) by {
                    if j == i {
                        assert(list@.to_set().contains(h));
                        let q = choose|q: int| 0 <= q < list@.len() && list@[q] == h;
                        assert(fits(s, list@[q]));
                    }
                }
            }
        }
        proof {
            assert forall|s: DeviceId, h: FactId|
                heads@.contains_key(s) && #[trigger] heads@[s].contains(h) implies fits(s, h) by {
                assert(keys@.contains(s));
                let j = choose|j: int| 0 <= j < keys@.len() && keys@[j] == s;
                assert(heads@[keys@[j]].contains(h));
            }
            assert forall|s: DeviceId, h: FactId|
                heads@.contains_key(s) && #[trigger] heads@[s].contains(
                    h,
                ) implies self@.facts.contains_key(h) && self@.facts[h].takes_part(s)
                && is_undominated(self@.facts, heads@[s], h) by {
                assert(fits(s, h));
            }
        }
        true
    }

    /// Whether every declared cell head is maximal.
    fn check_cell_heads(&self, heads: &OrdMap<ExclusiveCell, OrdSet<FactId>>) -> (r: bool)
        ensures
            r == cells_are_maximal(self@.facts, heads@),
    {
        let ghost fits = |c: ExclusiveCell, h: FactId|
            self@.facts.contains_key(h) && self@.facts[h].advances(c) && is_undominated(
                self@.facts,
                heads@[c],
                h,
            );
        let keys = heads.keys();
        let n: usize = keys.len();
        for i in 0..n
            invariant
                n == keys@.len(),
                fits == (|c: ExclusiveCell, h: FactId|
                    self@.facts.contains_key(h) && self@.facts[h].advances(c) && is_undominated(
                        self@.facts,
                        heads@[c],
                        h,
                    )),
                forall|k: ExclusiveCell| #[trigger] keys@.contains(k) <==> heads@.contains_key(k),
                forall|j: int, h: FactId|
                    0 <= j < i && #[trigger] heads@[keys@[j]].contains(h) ==> fits(keys@[j], h),
        {
            let c = keys[i];
            assert(keys@.contains(c));
            let list = heads.value(&c).to_vec();
            let m: usize = list.len();
            for k in 0..m
                invariant
                    m == list@.len(),
                    heads@.contains_key(c),
                    list@.to_set() == heads@[c],
                    fits == (|c: ExclusiveCell, h: FactId|
                        self@.facts.contains_key(h) && self@.facts[h].advances(c)
                            && is_undominated(self@.facts, heads@[c], h)),
                    forall|q: int| 0 <= q < k ==> fits(c, #[trigger] list@[q]),
            {
                let advances = match self.facts.get(&list[k]) {
                    Some(f) => holds(&f.content.body.exclusive_cells(), &c),
                    None => false,
                };
                if !advances || !self.head_is_undominated(&list, &list[k]) {
                    proof {
                        assert(list@.to_set().contains(list@[k as int]));
                        assert(heads@[c].contains(list@[k as int]));
                    }
                    return false;
                }
            }
            proof {
                assert forall|j: int, h: FactId|
                    0 <= j < i + 1 && #[trigger] heads@[keys@[j]].contains(h) implies fits(
                    keys@[j],
                    h,
                ) by {
                    if j == i {
                        assert(list@.to_set().contains(h));
                        let q = choose|q: int| 0 <= q < list@.len() && list@[q] == h;
                        assert(fits(c, list@[q]));
                    }
                }
            }
        }
        proof {
            assert forall|c: ExclusiveCell, h: FactId|
                heads@.contains_key(c) && #[trigger] heads@[c].contains(h) implies fits(c, h) by {
                assert(keys@.contains(c));
                let j = choose|j: int| 0 <= j < keys@.len() && keys@[j] == c;
                assert(heads@[keys@[j]].contains(h));
            }
            assert forall|c: ExclusiveCell, h: FactId|
                heads@.contains_key(c) && #[trigger] heads@[c].contains(
                    h,
                ) implies self@.facts.contains_key(h) && self@.facts[h].advances(c)
                && is_undominated(self@.facts, heads@[c], h) by {
                assert(fits(c, h));
            }
        }
        true
    }

    /// Whether every typed selector at or behind a live root is on record.
    fn check_root(&self, contexts: &OrdSet<FactId>, id: &FactId) -> (r: Result<
        (),
        CheckpointError,
    >)
        ensures
            r == root_check(self@.facts, contexts@, *id),
    {
        let past = match self.complete_ancestors(*id, None) {
            Ok(p) => p,
            Err(e) => {
                return Err(CheckpointError::Refused(e));
            },
        };
        let mut all = past.to_vec();
        let ghost before = all@;
        all.push(*id);
        proof {
            crate::content::lemma_push_set(before, *id);
            assert(all@.to_set() =~= past@.insert(*id));
        }
        let n: usize = all.len();
        for i in 0..n
            invariant
                n == all@.len(),
                all@.to_set() == past@.insert(*id),
                provenance::ancestors_of(self@.facts, *id) == Ok::<Set<FactId>, SemanticError>(
                    past@,
                ),
                forall|j: int|
                    0 <= j < i ==> !(authority::selected_by(self@.facts, #[trigger] all@[j]) is Some
                        && !contexts@.contains(all@[j])),
        {
            if self.selection(&all[i]).is_some() && !contexts.contains(&all[i]) {
                assert(all@.to_set().contains(all@[i as int]));
                assert(past@.insert(*id).contains(all@[i as int]));
                assert(omits_selector(self@.facts, past@.insert(*id), contexts@));
                return Err(
                    CheckpointError::Invalid("checkpoint omits required selector provenance"),
                );
            }
        }
        proof {
            if omits_selector(self@.facts, past@.insert(*id), contexts@) {
                let a = choose|a: FactId| #[trigger]
                    past@.insert(*id).contains(a) && authority::selected_by(self@.facts, a) is Some
                        && !contexts@.contains(a);
                assert(all@.to_set().contains(a));
                let j = choose|j: int| 0 <= j < all@.len() && all@[j] == a;
                assert(all@[j] == a);
            }
        }
        Ok(())
    }

    /// Whether a row's relation to one selector is that of canonical
    /// ancestry.
    fn check_relation(
        &self,
        graph: &FactGraph,
        past: &OrdSet<FactId>,
        id: &FactId,
        selector: &FactId,
    ) -> (r: Result<(), CheckpointError>)
        requires
            provenance::ancestors_of(self@.facts, *id) is Ok,
            past@ == reach::reach(reach::parent_edges(self@.facts), set![*id]).remove(*id),
            reach::reach(reach::parent_edges(self@.facts), set![*id]).contains(*id),
        ensures
            r == relation_check(self@.facts, graph@, *id, *selector),
    {
        if !self.facts.contains_key(selector) {
            return Err(CheckpointError::Invalid("canonical selector is missing"));
        }
        let selected = match self.selection(selector) {
            Some(x) => x,
            None => {
                return Err(CheckpointError::Invalid("canonical selector is not typed"));
            },
        };
        let before_selected = if id.same(&selected) {
            true
        } else {
            match self.complete_ancestors(selected, None) {
                Ok(behind) => behind.contains(id),
                Err(e) => {
                    return Err(CheckpointError::Refused(e));
                },
            }
        };
        let relation = AuthoritySelectorRelation {
            selected,
            post_selector: past.contains(selector) || selector.same(id),
            selected_before: past.contains(&selected) || selected.same(id),
            before_selected,
        };
        assert(relation == provenance::relation_between(self@.facts, *id, *selector, selected));
        let found: Option<AuthoritySelectorRelation> = match graph.index.provenance.get(id) {
            Some(row) => match row.get(selector) {
                Some(x) => Some(*x),
                None => None,
            },
            None => None,
        };
        assert(found == authority::relation_of(graph@.index.provenance, *id, *selector));
        let matches = match found {
            Some(x) => relation.any() && x.same(&relation),
            None => !relation.any(),
        };
        if !matches {
            return Err(
                CheckpointError::Invalid("checkpoint provenance differs from canonical ancestry"),
            );
        }
        Ok(())
    }

    /// Whether a row's relations are those of canonical ancestry.
    fn check_row(&self, graph: &FactGraph, contexts: &Vec<FactId>, id: &FactId) -> (r: Result<
        (),
        CheckpointError,
    >)
        ensures
            r == row_check(self@.facts, graph@, contexts@, *id),
    {
        let past = match self.complete_ancestors(*id, None) {
            Ok(p) => p,
            Err(e) => {
                return Err(CheckpointError::Refused(e));
            },
        };
        let ghost check = |k: int| relation_check(self@.facts, graph@, *id, contexts@[k]);
        let n: usize = contexts.len();
        for i in 0..n
            invariant
                n == contexts@.len(),
                check == (|k: int| relation_check(self@.facts, graph@, *id, contexts@[k])),
                provenance::ancestors_of(self@.facts, *id) is Ok,
                past@ == reach::reach(reach::parent_edges(self@.facts), set![*id]).remove(*id),
                reach::reach(reach::parent_edges(self@.facts), set![*id]).contains(*id),
                checks::run(check, i as int) == Ok::<(), CheckpointError>(()),
        {
            assert(checks::run(check, i + 1) == check(i as int));
            if let Err(e) = self.check_relation(graph, &past, id, &contexts[i]) {
                proof {
                    checks::lemma_run_err(check, i + 1, n as int);
                }
                return Err(e);
            }
        }
        Ok(())
    }

    /// Holds a graph that was read back to the canonical history, which this
    /// graph is.  Cache coverage cannot be hidden by also dropping a
    /// live-head index entry.
    fn check_continuation(&self, graph: &FactGraph) -> (r: Result<(), CheckpointError>)
        ensures
            r == canonical_check(self@.facts, graph@),
    {
        let ghost facts = self@.facts;
        let ghost g = graph@;
        let ids = self.facts.keys();
        let n: usize = ids.len();
        let ghost covers = |i: int| covered_check(facts, g, ids@[i]);
        for i in 0..n
            invariant
                n == ids@.len(),
                facts == self@.facts,
                g == graph@,
                ids@ == order::ascending(facts.dom()),
                forall|k: FactId| #[trigger] ids@.contains(k) <==> facts.contains_key(k),
                covers == (|i: int| covered_check(facts, g, ids@[i])),
                checks::run(covers, i as int) == Ok::<(), CheckpointError>(()),
        {
            assert(ids@.contains(ids@[i as int]));
            assert(checks::run(covers, i + 1) == covers(i as int));
            if let Err(e) = self.check_covered(graph, &ids[i]) {
                proof {
                    checks::lemma_run_err(covers, i + 1, n as int);
                }
                return Err(e);
            }
        }
        if !self.check_use_heads(&graph.index.authority_heads) {
            return Err(
                CheckpointError::Invalid("checkpoint authority head is not canonical maximal use"),
            );
        }
        if !self.check_cell_heads(&graph.index.cell_heads) {
            return Err(
                CheckpointError::Invalid("checkpoint cell head is not canonical maximal use"),
            );
        }
        let contexts = rows_selectors(&graph.index.provenance);
        let listed = contexts.to_vec();
        let roots = graph.provenance_live_roots().to_vec();
        let m: usize = roots.len();
        let ghost head = checkpoint::first(
            checks::run(covers, n as int),
            checkpoint::first(
                checkpoint::unless(
                    !uses_are_maximal(facts, g.index.authority_heads),
                    "checkpoint authority head is not canonical maximal use",
                ),
                checkpoint::unless(
                    !cells_are_maximal(facts, g.index.cell_heads),
                    "checkpoint cell head is not canonical maximal use",
                ),
            ),
        );
        let ghost rooted = |i: int| root_check(facts, contexts@, roots@[i]);
        let rows = graph.facts.keys();
        let k: usize = rows.len();
        let ghost related = |i: int| row_check(facts, g, listed@, rows@[i]);
        proof {
            assert(canonical_check(facts, g) == checkpoint::first(
                checks::run(rooted, m as int),
                checks::run(related, k as int),
            ));
        }
        for i in 0..m
            invariant
                m == roots@.len(),
                facts == self@.facts,
                g == graph@,
                rooted == (|i: int| root_check(facts, contexts@, roots@[i])),
                checks::run(rooted, i as int) == Ok::<(), CheckpointError>(()),
                canonical_check(facts, g) == checkpoint::first(
                    checks::run(rooted, m as int),
                    checks::run(related, k as int),
                ),
        {
            assert(checks::run(rooted, i + 1) == rooted(i as int));
            if let Err(e) = self.check_root(&contexts, &roots[i]) {
                proof {
                    checks::lemma_run_err(rooted, i + 1, m as int);
                }
                return Err(e);
            }
        }
        for i in 0..k
            invariant
                k == rows@.len(),
                facts == self@.facts,
                g == graph@,
                related == (|i: int| row_check(facts, g, listed@, rows@[i])),
                checks::run(related, i as int) == Ok::<(), CheckpointError>(()),
                canonical_check(facts, g) == checks::run(related, k as int),
        {
            assert(checks::run(related, i + 1) == related(i as int));
            if let Err(e) = self.check_row(graph, &listed, &rows[i]) {
                proof {
                    checks::lemma_run_err(related, i + 1, k as int);
                }
                return Err(e);
            }
        }
        Ok(())
    }

    /// Continue from a checkpoint and the canonical history behind its signed
    /// live rows.  Every required predecessor context is verified from
    /// canonical ancestry, not just maxima; only the existing live cache is
    /// retained after validation.
    pub fn from_live_checkpoint_with_history(
        bootstrap: &VerifiedBootstrap,
        limits: SemanticAdmissionPolicy,
        checkpoint: LiveFactGraphCheckpoint,
        history: Vec<SignedFact>,
    ) -> (r: Result<FactGraph, CheckpointError>)
        ensures
            checkpoint::graph_view(r) == restarted(
                *bootstrap,
                limits,
                checkpoint@,
                checkpoint::facts_view(history@),
            ),
    {
        proof {
            reveal(restarted);
        }
        let mut canonical = FactGraph::from_bootstrap_with_policy(bootstrap, limits);
        canonical.facts = match read_history(&history, &bootstrap.context) {
            Ok(m) => m,
            Err(e) => {
                return Err(e);
            },
        };
        if !canonical.is_dependency_closed() {
            return Err(
                CheckpointError::Invalid("canonical provenance dependency closure is incomplete"),
            );
        }
        if !canonical.holds_rows(&checkpoint.facts) {
            return Err(
                CheckpointError::Invalid("checkpoint signed row differs from canonical history"),
            );
        }
        let graph = match FactGraph::decode_live_checkpoint(bootstrap, limits, &checkpoint) {
            Ok(g) => g,
            Err(e) => {
                return Err(e);
            },
        };
        match canonical.check_continuation(&graph) {
            Ok(()) => Ok(graph),
            Err(e) => Err(e),
        }
    }

    /// Continue from a checkpoint that holds its own history.
    pub fn from_live_checkpoint(
        bootstrap: &VerifiedBootstrap,
        limits: SemanticAdmissionPolicy,
        checkpoint: LiveFactGraphCheckpoint,
    ) -> (r: Result<FactGraph, CheckpointError>)
        ensures
            checkpoint::graph_view(r) == restarted(
                *bootstrap,
                limits,
                checkpoint@,
                checkpoint@.facts,
            ),
    {
        let n: usize = checkpoint.facts.len();
        let mut history: Vec<SignedFact> = Vec::new();
        for i in 0..n
            invariant
                n == checkpoint.facts@.len(),
                history@.len() == i,
                forall|j: int| 0 <= j < i ==> (#[trigger] history@[j])@ == checkpoint.facts@[j]@,
        {
            history.push(checkpoint.facts[i].duplicate());
        }
        assert(checkpoint::facts_view(history@) =~= checkpoint@.facts);
        FactGraph::from_live_checkpoint_with_history(bootstrap, limits, checkpoint, history)
    }
}

} // verus!

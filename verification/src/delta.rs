//! The exact bounded durable changes that an admission produces.

use vstd::prelude::*;

use crate::capture;
use crate::content;
use crate::content::ExclusiveCell;
use crate::device::DeviceId;
use crate::fact::{FactView, SignedFact};
use crate::graph::{FactGraph, GraphView, Projection, ProjectionView};
use crate::ids::FactId;
use crate::ordset::{append_keys, copy_keys, sort_unique, Duplicate, OrdSet};
use crate::projection;
use crate::projection::{DeltaView, ProjectionDelta};

verus! {

#[derive(Debug, Clone, Copy, PartialEq, Eq, Structural)]
pub enum SemanticFactStatus {
    Admitted,
    Quarantined,
}

/// A changed fact with where it is held now.
#[verifier::ext_equal]
pub struct FactRowView {
    pub fact: FactView,
    pub status: SemanticFactStatus,
}

/// One bounded row changed by an admission. The row owns only the changed
/// signed fact; it is deliberately not a snapshot of the surrounding graph.
#[derive(Debug, PartialEq, Eq)]
pub struct SemanticFactRow {
    pub fact: SignedFact,
    pub status: SemanticFactStatus,
}

impl View for SemanticFactRow {
    type V = FactRowView;

    open spec fn view(&self) -> FactRowView {
        FactRowView { fact: self.fact@, status: self.status }
    }
}

impl Duplicate for SemanticFactRow {
    fn duplicate(&self) -> (r: Self) {
        SemanticFactRow { fact: self.fact.duplicate(), status: self.status }
    }
}

impl SemanticFactRow {
    pub fn fact(&self) -> (r: &SignedFact)
        ensures
            r@ == self@.fact,
    {
        &self.fact
    }

    pub fn status(&self) -> (r: SemanticFactStatus)
        ensures
            r == self@.status,
    {
        self.status
    }
}

/// What an admission changed.
#[verifier::ext_equal]
pub struct RecordView {
    pub rows: Seq<FactRowView>,
    pub promoted: Seq<FactId>,
    pub removed: Seq<FactId>,
    pub provisional_added: Seq<FactId>,
    pub provisional_removed: Seq<FactId>,
    pub cells: Set<ExclusiveCell>,
    pub subjects: Set<DeviceId>,
    pub projection: Option<DeltaView>,
}

/// The exact bounded durable changes produced by one journaled admission.
/// Store code can persist these rows and IDs without rebuilding the graph.
#[derive(Debug, PartialEq, Eq)]
pub struct SemanticDelta {
    pub rows: Vec<SemanticFactRow>,
    pub promoted: Vec<FactId>,
    pub removed: Vec<FactId>,
    pub provisional_added: Vec<FactId>,
    pub provisional_removed: Vec<FactId>,
    pub affected_cells: OrdSet<ExclusiveCell>,
    pub affected_subjects: OrdSet<DeviceId>,
    pub projection_delta: Option<ProjectionDelta>,
}

/// The views of a list of rows.
pub open spec fn rows_view(rows: Seq<SemanticFactRow>) -> Seq<FactRowView> {
    rows.map_values(|r: SemanticFactRow| r@)
}

/// The identifiers of a list of rows.
pub open spec fn row_ids(rows: Seq<FactRowView>) -> Seq<FactId> {
    rows.map_values(|r: FactRowView| r.fact.id)
}

/// The view of a change of a projection that may be there.
pub open spec fn change_view(d: Option<ProjectionDelta>) -> Option<DeltaView> {
    match d {
        Some(d) => Some(d@),
        None => None,
    }
}

impl View for SemanticDelta {
    type V = RecordView;

    open spec fn view(&self) -> RecordView {
        RecordView {
            rows: rows_view(self.rows@),
            promoted: self.promoted@,
            removed: self.removed@,
            provisional_added: self.provisional_added@,
            provisional_removed: self.provisional_removed@,
            cells: self.affected_cells@,
            subjects: self.affected_subjects@,
            projection: change_view(self.projection_delta),
        }
    }
}

/// A record of no change.
pub open spec fn no_change() -> RecordView {
    RecordView {
        rows: Seq::empty(),
        promoted: Seq::empty(),
        removed: Seq::empty(),
        provisional_added: Seq::empty(),
        provisional_removed: Seq::empty(),
        cells: Set::empty(),
        subjects: Set::empty(),
        projection: None,
    }
}

impl RecordView {
    /// The changes of this record, then those of `next`; of two changes of a
    /// projection the first stays.
    pub open spec fn and(self, next: RecordView) -> RecordView {
        RecordView {
            rows: self.rows + next.rows,
            promoted: self.promoted + next.promoted,
            removed: self.removed + next.removed,
            provisional_added: self.provisional_added + next.provisional_added,
            provisional_removed: self.provisional_removed + next.provisional_removed,
            cells: self.cells.union(next.cells),
            subjects: self.subjects.union(next.subjects),
            projection: if self.projection is Some {
                self.projection
            } else {
                next.projection
            },
        }
    }

    /// The facts that changed, the removed ones last.
    pub open spec fn changed_ids(self) -> Seq<FactId> {
        row_ids(self.rows) + self.removed
    }

    /// Whether no fact is listed twice, and no list exceeds the ready batch;
    /// the rows have the candidate besides.
    pub open spec fn is_bounded_and_unique(self, max_ready_batch: u64) -> bool {
        &&& max_ready_batch <= usize::MAX
        &&& row_ids(self.rows).no_duplicates()
        &&& self.promoted.no_duplicates()
        &&& self.removed.no_duplicates()
        &&& self.provisional_added.no_duplicates()
        &&& self.provisional_removed.no_duplicates()
        &&& self.rows.len() <= max_ready_batch + 1
        &&& self.promoted.len() <= max_ready_batch
        &&& self.removed.len() <= max_ready_batch
    }
}

/// Whether a list names nothing twice.
fn is_unique(ids: &Vec<FactId>) -> (r: bool)
    ensures
        r == ids@.no_duplicates(),
{
    let sorted = sort_unique(ids);
    proof {
        sorted@.unique_seq_to_set();
        if ids@.no_duplicates() {
            ids@.unique_seq_to_set();
        } else {
            lemma_repeats(ids@);
        }
    }
    sorted.len() == ids.len()
}

/// A list that names something twice has fewer members than places.
proof fn lemma_repeats(s: Seq<FactId>)
    requires
        !s.no_duplicates(),
    ensures
        s.to_set().len() < s.len(),
{
    let (i, j) = choose|i: int, j: int|
        0 <= i < s.len() && 0 <= j < s.len() && i != j && s[i] == s[j];
    let rest = s.remove(i);
    assert forall|x: FactId| #[trigger] s.to_set().contains(x) <==> rest.to_set().contains(x) by {
        if s.contains(x) {
            let k = choose|k: int| 0 <= k < s.len() && s[k] == x;
            let at = if k == i {
                j
            } else {
                k
            };
            if at < i {
                assert(rest[at] == x);
            } else {
                assert(rest[at - 1] == x);
            }
        }
        if rest.contains(x) {
            let k = choose|k: int| 0 <= k < rest.len() && rest[k] == x;
            if k < i {
                assert(s[k] == x);
            } else {
                assert(s[k + 1] == x);
            }
        }
    }
    assert(s.to_set() =~= rest.to_set());
    rest.lemma_cardinality_of_set();
}

impl SemanticDelta {
    pub fn new() -> (r: Self)
        ensures
            r@ == no_change(),
    {
        let r = SemanticDelta {
            rows: Vec::new(),
            promoted: Vec::new(),
            removed: Vec::new(),
            provisional_added: Vec::new(),
            provisional_removed: Vec::new(),
            affected_cells: OrdSet::new(),
            affected_subjects: OrdSet::new(),
            projection_delta: None,
        };
        assert(r@ =~= no_change());
        r
    }

    /// Adds a row.
    pub fn push_row(&mut self, row: SemanticFactRow)
        ensures
            final(self)@ == (RecordView { rows: old(self)@.rows.push(row@), ..old(self)@ }),
    {
        self.rows.push(row);
        assert(self@ =~= (RecordView { rows: old(self)@.rows.push(row@), ..old(self)@ }));
    }

    pub fn rows(&self) -> (r: &Vec<SemanticFactRow>)
        ensures
            rows_view(r@) == self@.rows,
    {
        &self.rows
    }

    pub fn promoted(&self) -> (r: &Vec<FactId>)
        ensures
            r@ == self@.promoted,
    {
        &self.promoted
    }

    pub fn removed(&self) -> (r: &Vec<FactId>)
        ensures
            r@ == self@.removed,
    {
        &self.removed
    }

    pub fn provisional_added(&self) -> (r: &Vec<FactId>)
        ensures
            r@ == self@.provisional_added,
    {
        &self.provisional_added
    }

    pub fn provisional_removed(&self) -> (r: &Vec<FactId>)
        ensures
            r@ == self@.provisional_removed,
    {
        &self.provisional_removed
    }

    pub fn affected_cells(&self) -> (r: &OrdSet<ExclusiveCell>)
        ensures
            r@ == self@.cells,
    {
        &self.affected_cells
    }

    pub fn affected_subjects(&self) -> (r: &OrdSet<DeviceId>)
        ensures
            r@ == self@.subjects,
    {
        &self.affected_subjects
    }

    pub fn projection_delta(&self) -> (r: Option<&ProjectionDelta>)
        ensures
            match r {
                Some(d) => self@.projection == Some(d@),
                None => self@.projection is None,
            },
    {
        self.projection_delta.as_ref()
    }

    /// The identifiers of the rows.
    fn list_rows(&self) -> (r: Vec<FactId>)
        ensures
            r@ == row_ids(self@.rows),
    {
        let mut r: Vec<FactId> = Vec::new();
        let n: usize = self.rows.len();
        for i in 0..n
            invariant
                n == self.rows@.len(),
                r@.len() == i,
                forall|j: int| 0 <= j < i ==> r@[j] == (#[trigger] self.rows@[j])@.fact.id,
        {
            r.push(self.rows[i].fact.id);
        }
        assert(r@ =~= row_ids(self@.rows));
        r
    }

    /// The facts that changed, the removed ones last.
    pub fn changed_ids(&self) -> (r: Vec<FactId>)
        ensures
            r@ == self@.changed_ids(),
    {
        let mut r = self.list_rows();
        append_keys(&mut r, &self.removed);
        r
    }

    /// The identifiers of the rows of admitted facts.
    pub(crate) fn admitted_ids(&self) -> (r: Vec<FactId>)
        ensures
            r@.to_set() == admitted_rows(self@.rows),
    {
        let ghost rows = self@.rows;
        let mut r: Vec<FactId> = Vec::new();
        let n: usize = self.rows.len();
        assert(r@.to_set() =~= admitted_rows(rows.take(0)));
        for i in 0..n
            invariant
                n == self.rows@.len(),
                rows == self@.rows,
                r@.to_set() == admitted_rows(rows.take(i as int)),
        {
            let ghost before = r@;
            assert(rows[i as int] == self.rows@[i as int]@);
            if let SemanticFactStatus::Admitted = self.rows[i].status {
                r.push(self.rows[i].fact.id);
                proof {
                    content::lemma_push_set(before, self.rows@[i as int].fact.id);
                }
            }
            proof {
                let small = rows.take(i as int);
                let big = rows.take(i + 1);
                let row = rows[i as int];
                assert forall|id: FactId| #[trigger] admitted_rows(big).contains(id)
                    <==> r@.to_set().contains(id) by {
                    if admitted_rows(small).contains(id) {
                        let j = choose|j: int|
                            0 <= j < small.len() && (#[trigger] small[j]).status
                                == SemanticFactStatus::Admitted && small[j].fact.id == id;
                        assert(big[j].fact.id == id);
                    }
                    if row.status == SemanticFactStatus::Admitted && row.fact.id == id {
                        assert(big[i as int].fact.id == id);
                    }
                    if admitted_rows(big).contains(id) {
                        let j = choose|j: int|
                            0 <= j < big.len() && (#[trigger] big[j]).status
                                == SemanticFactStatus::Admitted && big[j].fact.id == id;
                        if j < i {
                            assert(small[j].fact.id == id);
                            assert(admitted_rows(small).contains(id));
                        }
                    }
                }
                assert(r@.to_set() =~= admitted_rows(big));
            }
        }
        assert(rows.take(n as int) =~= rows);
        r
    }

    pub fn is_bounded_and_unique(&self, max_ready_batch: u64) -> (r: bool)
        ensures
            r == self@.is_bounded_and_unique(max_ready_batch),
    {
        if max_ready_batch > usize::MAX as u64 {
            return false;
        }
        let max = max_ready_batch as usize;
        is_unique(&self.list_rows()) && is_unique(&self.promoted) && is_unique(&self.removed)
            && is_unique(&self.provisional_added) && is_unique(&self.provisional_removed)
            && self.rows.len() <= max.saturating_add(1) && self.promoted.len() <= max
            && self.removed.len() <= max
    }

    /// Takes the changes of a later record into this one.  The first change of
    /// a projection stays.
    pub fn append_seed_delta(&mut self, next: Self)
        ensures
            final(self)@ == old(self)@.and(next@),
    {
        let ghost next_view = next@;
        let mut next = next;
        if self.projection_delta.is_none() {
            self.projection_delta = next.projection_delta.take();
        }
        self.rows.append(&mut next.rows);
        self.promoted.append(&mut next.promoted);
        self.removed.append(&mut next.removed);
        self.provisional_added.append(&mut next.provisional_added);
        self.provisional_removed.append(&mut next.provisional_removed);
        self.affected_cells.extend(&next.affected_cells);
        self.affected_subjects.extend(&next.affected_subjects);
        assert(self@ =~= old(self)@.and(next_view));
    }
}

impl FactGraph {
    /// Closes a record that was gathered over several admissions: what changed
    /// in the projection is read off once, at the cells and subjects that the
    /// record lists.
    pub fn finish_deferred_seed_delta(&self, previous: &Projection, delta: SemanticDelta) -> (r:
        SemanticDelta)
        ensures
            r@ == settled(self@, previous@, delta@),
    {
        let ghost given = delta@;
        let base_generation: u64 = match &delta.projection_delta {
            Some(d) => d.base_generation,
            None => self.fence.generation,
        };
        let (cells, stand_down) = previous.sparse_entries(
            &delta.affected_cells,
            &delta.affected_subjects,
        );
        let change = self.projection().delta_from_sparse(
            base_generation,
            self.fence.generation,
            &cells,
            &stand_down,
        );
        let mut delta = delta;
        delta.projection_delta = Some(change);
        assert(delta@ =~= settled(self@, previous@, given));
        delta
    }
}

/// The record with what changed in the projection at the cells and subjects
/// that it lists.
pub open spec fn settled(g: GraphView, previous: ProjectionView, rec: RecordView) -> RecordView {
    let now = projection::current(g);
    RecordView {
        projection: Some(
            DeltaView {
                base_generation: match rec.projection {
                    Some(d) => d.base_generation,
                    None => g.fence.generation,
                },
                generation: g.fence.generation,
                cells: projection::changes(
                    now.cells,
                    capture::sampled(previous.cells, rec.cells),
                ),
                stand_down: projection::changes(
                    now.stand_down,
                    capture::sampled(previous.stand_down, rec.subjects),
                ),
            },
        ),
        ..rec
    }
}

/// The identifiers of the rows of admitted facts.
pub open spec fn admitted_rows(rows: Seq<FactRowView>) -> Set<FactId> {
    Set::new(
        |id: FactId|
            exists|i: int|
                0 <= i < rows.len() && (#[trigger] rows[i]).status == SemanticFactStatus::Admitted
                    && rows[i].fact.id == id,
    )
}

impl Duplicate for SemanticDelta {
    fn duplicate(&self) -> (r: Self) {
        let n: usize = self.rows.len();
        let mut rows: Vec<SemanticFactRow> = Vec::new();
        for i in 0..n
            invariant
                n == self.rows@.len(),
                rows@.len() == i,
                forall|j: int| 0 <= j < i ==> (#[trigger] rows@[j])@ == self.rows@[j]@,
        {
            rows.push(self.rows[i].duplicate());
        }
        assert(rows_view(rows@) =~= rows_view(self.rows@));
        SemanticDelta {
            rows,
            promoted: copy_keys(&self.promoted),
            removed: copy_keys(&self.removed),
            provisional_added: copy_keys(&self.provisional_added),
            provisional_removed: copy_keys(&self.provisional_removed),
            affected_cells: self.affected_cells.duplicate(),
            affected_subjects: self.affected_subjects.duplicate(),
            projection_delta: match &self.projection_delta {
                Some(d) => Some(d.duplicate()),
                None => None,
            },
        }
    }
}

} // verus!

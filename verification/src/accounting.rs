//! Logical sizes and the capacity bounds that they are held to.

use vstd::prelude::*;

use crate::content::ExclusiveCell;
use crate::device::DeviceId;
use crate::error::{SemanticCapacityDimension, SemanticError};
use crate::fact::{dependencies, FactView, SignedFact};
use crate::graph::{
    AuthoritySelectorRelation, IndexView, Indexes, Row, RowView, Selection,
};
use crate::ids::FactId;
use crate::order::Key;
use crate::ordmap::OrdMap;
use crate::ordset;
use crate::ordset::OrdSet;
use crate::policy::SemanticAdmissionPolicy;
use crate::sums;

verus! {

/// The logical size of a value.
pub open spec fn size<T>() -> nat {
    vstd::layout::size_of::<T>()
}

/// The refusal of a total that no number can hold.
pub open spec fn accounting_error(limits: SemanticAdmissionPolicy) -> SemanticError {
    SemanticError::CapacityExceeded {
        dimension: SemanticCapacityDimension::AdmittedBytes,
        limit: limits.max_database_bytes,
        observed: u64::MAX,
    }
}

/// A total, where a number can hold it.
pub open spec fn fits(limits: SemanticAdmissionPolicy, n: nat) -> Result<u64, SemanticError> {
    if n <= u64::MAX {
        Ok(n as u64)
    } else {
        Err(accounting_error(limits))
    }
}

/// Whether a bound holds, and else how it is refused.
pub open spec fn within(
    dimension: SemanticCapacityDimension,
    observed: u64,
    limit: u64,
) -> Result<(), SemanticError> {
    if observed > limit {
        Err(SemanticError::CapacityExceeded { dimension, limit, observed })
    } else {
        Ok(())
    }
}

/// The total of a current and an additional amount under a bound.
pub open spec fn total_within(
    dimension: SemanticCapacityDimension,
    current: u64,
    additional: u64,
    limit: u64,
) -> Result<u64, SemanticError> {
    if current + additional > u64::MAX {
        Err(SemanticError::CapacityExceeded { dimension, limit, observed: u64::MAX })
    } else if current + additional > limit {
        Err(
            SemanticError::CapacityExceeded {
                dimension,
                limit,
                observed: (current + additional) as u64,
            },
        )
    } else {
        Ok((current + additional) as u64)
    }
}

/// The bytes of one row of selector relations.
pub open spec fn row_bytes(row: RowView) -> nat {
    size::<(FactId, Row)>() + row.dom().len() * size::<(FactId, AuthoritySelectorRelation)>()
}

/// The bytes of all rows of selector relations.
pub open spec fn rows_bytes(rows: Map<FactId, RowView>) -> nat {
    sums::sum(rows.dom(), |id: FactId| row_bytes(rows[id]))
}

/// The bytes of a map to sets: so much for each entry and for each member.
pub open spec fn sets_bytes<K, V>(m: Map<K, Set<V>>, entry: nat, each: nat) -> nat {
    sums::sum(m.dom(), |k: K| entry + m[k].len() * each)
}

/// The bytes that the derived indexes keep resident.
pub open spec fn residency(ix: IndexView) -> nat {
    sets_bytes(ix.cell_heads, size::<(ExclusiveCell, OrdSet<FactId>)>(), size::<FactId>())
        + sets_bytes(ix.authority_heads, size::<(DeviceId, OrdSet<FactId>)>(), size::<FactId>())
        + sets_bytes(ix.authority_facts, size::<(DeviceId, OrdSet<FactId>)>(), size::<FactId>())
        + sets_bytes(ix.selectors, size::<(DeviceId, OrdSet<Selection>)>(), size::<Selection>())
        + rows_bytes(ix.provenance) + ix.cells.len() * size::<ExclusiveCell>() + sets_bytes(
        ix.stand_down,
        size::<(DeviceId, OrdSet<FactId>)>(),
        size::<FactId>(),
    )
}

impl SemanticAdmissionPolicy {
    pub fn accounting_error(&self) -> (r: SemanticError)
        ensures
            r == accounting_error(*self),
    {
        SemanticError::CapacityExceeded {
            dimension: SemanticCapacityDimension::AdmittedBytes,
            limit: self.max_database_bytes,
            observed: u64::MAX,
        }
    }

    pub fn checked_size<T>(&self) -> (r: u64)
        ensures
            r == size::<T>(),
    {
        core::mem::size_of::<T>() as u64
    }

    pub fn checked_add_bytes(&self, left: u64, right: u64) -> (r: Result<u64, SemanticError>)
        ensures
            r == fits(*self, (left + right) as nat),
    {
        match left.checked_add(right) {
            Some(n) => Ok(n),
            None => Err(self.accounting_error()),
        }
    }

    pub fn checked_mul_bytes(&self, left: u64, right: u64) -> (r: Result<u64, SemanticError>)
        ensures
            r == fits(*self, (left * right) as nat),
    {
        proof {
            assert(0 <= left * right) by (nonlinear_arith)
                requires
                    left >= 0,
                    right >= 0,
            ;
        }
        match left.checked_mul(right) {
            Some(n) => Ok(n),
            None => Err(self.accounting_error()),
        }
    }

    /// The bytes of an entry with so many members.
    pub fn checked_entry_bytes(
        &self,
        inline_bytes: u64,
        value_count: usize,
        value_bytes: u64,
    ) -> (r: Result<u64, SemanticError>)
        ensures
            r == fits(*self, (inline_bytes + value_count * value_bytes) as nat),
    {
        proof {
            assert(0 <= value_count * value_bytes) by (nonlinear_arith)
                requires
                    value_count >= 0,
                    value_bytes >= 0,
            ;
        }
        match self.checked_mul_bytes(value_count as u64, value_bytes) {
            Ok(values) => self.checked_add_bytes(inline_bytes, values),
            Err(e) => Err(e),
        }
    }

    pub fn check_capacity(
        &self,
        dimension: SemanticCapacityDimension,
        observed: u64,
        limit: u64,
    ) -> (r: Result<(), SemanticError>)
        ensures
            r == within(dimension, observed, limit),
    {
        if observed > limit {
            Err(SemanticError::CapacityExceeded { dimension, limit, observed })
        } else {
            Ok(())
        }
    }

    pub fn checked_total(
        &self,
        dimension: SemanticCapacityDimension,
        current: u64,
        additional: u64,
        limit: u64,
    ) -> (r: Result<u64, SemanticError>)
        ensures
            r == total_within(dimension, current, additional, limit),
    {
        match current.checked_add(additional) {
            Some(observed) => match self.check_capacity(dimension, observed, limit) {
                Ok(()) => Ok(observed),
                Err(e) => Err(e),
            },
            None => Err(
                SemanticError::CapacityExceeded { dimension, limit, observed: u64::MAX },
            ),
        }
    }

    pub fn provenance_row_bytes(&self, row: &Row) -> (r: Result<u64, SemanticError>)
        ensures
            r == fits(*self, row_bytes(row@)),
    {
        self.checked_entry_bytes(
            self.checked_size::<(FactId, Row)>(),
            row.len(),
            self.checked_size::<(FactId, AuthoritySelectorRelation)>(),
        )
    }

    /// The bytes of a map to sets.
    fn checked_sets_bytes<K: Key, V: Key>(
        &self,
        map: &OrdMap<K, OrdSet<V>>,
        entry: u64,
        each: u64,
    ) -> (r: Result<u64, SemanticError>)
        ensures
            r == fits(*self, sets_bytes(map@, entry as nat, each as nat)),
    {
        let keys = map.keys();
        let n: usize = keys.len();
        let ghost f = |k: K| entry as nat + map@[k].len() * each as nat;
        let mut total: u64 = 0;
        assert(keys@.take(0).to_set() =~= Set::<K>::empty());
        for i in 0..n
            invariant
                n == keys@.len(),
                keys@.no_duplicates(),
                forall|k: K| #[trigger] keys@.contains(k) <==> map@.contains_key(k),
                keys@.to_set() == map@.dom(),
                map@.dom().finite(),
                f == (|k: K| entry as nat + map@[k].len() * each as nat),
                total == sums::sum(keys@.take(i as int).to_set(), f),
        {
            assert(keys@.contains(keys@[i as int]));
            let ghost done = keys@.take(i as int).to_set();
            let ghost key = keys@[i as int];
            proof {
                ordset::lemma_next_is_new(keys@, i as int);
                sums::lemma_sum_insert(done, f, key);
                sums::lemma_sum_subset(done.insert(key), map@.dom(), f);
            }
            let set = map.value(&keys[i]);
            let bytes = match self.checked_entry_bytes(entry, set.len(), each) {
                Ok(b) => b,
                Err(e) => {
                    assert(f(key) > u64::MAX);
                    return Err(e);
                },
            };
            total = match self.checked_add_bytes(total, bytes) {
                Ok(t) => t,
                Err(e) => {
                    return Err(e);
                },
            };
        }
        assert(keys@.take(n as int) =~= keys@);
        Ok(total)
    }

    pub(crate) fn checked_rows_bytes(&self, rows: &OrdMap<FactId, Row>) -> (r: Result<u64, SemanticError>)
        ensures
            r == fits(*self, rows_bytes(rows@)),
    {
        let keys = rows.keys();
        let n: usize = keys.len();
        let ghost f = |k: FactId| row_bytes(rows@[k]);
        let mut total: u64 = 0;
        assert(keys@.take(0).to_set() =~= Set::<FactId>::empty());
        for i in 0..n
            invariant
                n == keys@.len(),
                keys@.no_duplicates(),
                forall|k: FactId| #[trigger] keys@.contains(k) <==> rows@.contains_key(k),
                keys@.to_set() == rows@.dom(),
                rows@.dom().finite(),
                f == (|k: FactId| row_bytes(rows@[k])),
                total == sums::sum(keys@.take(i as int).to_set(), f),
        {
            assert(keys@.contains(keys@[i as int]));
            let ghost done = keys@.take(i as int).to_set();
            let ghost key = keys@[i as int];
            proof {
                ordset::lemma_next_is_new(keys@, i as int);
                sums::lemma_sum_insert(done, f, key);
                sums::lemma_sum_subset(done.insert(key), rows@.dom(), f);
            }
            let bytes = match self.provenance_row_bytes(rows.value(&keys[i])) {
                Ok(b) => b,
                Err(e) => {
                    assert(f(key) > u64::MAX);
                    return Err(e);
                },
            };
            total = match self.checked_add_bytes(total, bytes) {
                Ok(t) => t,
                Err(e) => {
                    return Err(e);
                },
            };
        }
        assert(keys@.take(n as int) =~= keys@);
        Ok(total)
    }

    /// The bytes that the derived indexes keep resident.
    pub fn logical_index_residency_bytes(&self, index: &Indexes) -> (r: Result<
        u64,
        SemanticError,
    >)
        ensures
            r == fits(*self, residency(index@)),
    {
        let head = self.checked_size::<FactId>();
        let subject_entry = self.checked_size::<(DeviceId, OrdSet<FactId>)>();
        let cell_entry = self.checked_size::<(ExclusiveCell, OrdSet<FactId>)>();
        let selector_entry = self.checked_size::<(DeviceId, OrdSet<Selection>)>();
        let selection = self.checked_size::<Selection>();
        let cell = self.checked_size::<ExclusiveCell>();
        let heads = self.plus(
            self.checked_sets_bytes(&index.cell_heads, cell_entry, head),
            self.checked_sets_bytes(&index.authority_heads, subject_entry, head),
        );
        let subjects = self.plus(
            heads,
            self.checked_sets_bytes(&index.authority_facts, subject_entry, head),
        );
        let selectors = self.plus(
            subjects,
            self.checked_sets_bytes(&index.selectors, selector_entry, selection),
        );
        let rows = self.plus(selectors, self.checked_rows_bytes(&index.provenance));
        let cells = self.plus(rows, self.checked_entry_bytes(0, index.cells.len(), cell));
        self.plus(cells, self.checked_sets_bytes(&index.stand_down, subject_entry, head))
    }

    /// The sum of two totals.
    pub(crate) fn plus(&self, left: Result<u64, SemanticError>, right: Result<u64, SemanticError>) -> (r:
        Result<u64, SemanticError>)
        ensures
            match (left, right) {
                (Ok(a), Ok(b)) => r == fits(*self, (a + b) as nat),
                (Err(e), _) => r == Err::<u64, SemanticError>(e),
                (_, Err(e)) => r == Err::<u64, SemanticError>(e),
            },
    {
        match (left, right) {
            (Ok(a), Ok(b)) => self.checked_add_bytes(a, b),
            (Err(e), _) => Err(e),
            (_, Err(e)) => Err(e),
        }
    }
}

/// The dependency edges that a fact is charged: each dependency once, and
/// each authority use.
pub open spec fn edges_of(f: FactView) -> nat {
    f.dependencies().len() + f.content.authority_uses.len()
}

/// The bytes and edges that a fact is charged.
pub open spec fn measure(limits: SemanticAdmissionPolicy, f: FactView) -> Result<
    (u64, u64),
    SemanticError,
> {
    match f.checked.encoded_bytes {
        None => Err(SemanticError::EncodingFailed),
        Some(bytes) => match fits(limits, edges_of(f)) {
            Ok(edges) => Ok((bytes, edges)),
            Err(e) => Err(e),
        },
    }
}

impl SemanticAdmissionPolicy {
    pub fn fact_encoded_and_edges(&self, fact: &SignedFact) -> (r: Result<
        (u64, u64),
        SemanticError,
    >)
        ensures
            r == measure(*self, fact@),
    {
        let bytes = match fact.checked.encoded_bytes {
            Some(b) => b,
            None => {
                return Err(SemanticError::EncodingFailed);
            },
        };
        let inputs = dependencies(fact);
        match self.checked_add_bytes(
            inputs.len() as u64,
            fact.content.authority_uses.len() as u64,
        ) {
            Ok(edges) => Ok((bytes, edges)),
            Err(e) => Err(e),
        }
    }
}

} // verus!

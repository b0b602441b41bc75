//! Admission limits and the verified bootstrap that a graph is bound to.

use vstd::prelude::*;

use crate::device::DeviceId;
use crate::ids::MeshContextId;
use crate::ordset::copy_keys;

verus! {

/// Owner-selected aggregate semantic admission limits.  The graph keeps the
/// checked snapshot, so admission never consults mutable global configuration.
#[derive(Debug, Clone, Copy, PartialEq, Eq, Structural)]
pub struct SemanticAdmissionPolicy {
    pub max_fact_encoded_bytes: u64,
    pub max_dependencies_per_fact: u64,
    pub max_authority_uses_per_fact: u64,
    pub max_authority_predecessors_per_use: u64,
    pub max_admitted_facts: u64,
    pub max_admitted_bytes: u64,
    pub max_quarantined_facts: u64,
    pub max_quarantined_bytes: u64,
    pub max_quarantined_facts_per_author: u64,
    pub max_quarantined_bytes_per_author: u64,
    pub max_retained_facts_per_author: u64,
    pub max_retained_bytes_per_author: u64,
    pub max_hot_history_facts: u64,
    pub max_dependency_edges: u64,
    pub max_ready_batch: u64,
    pub max_pending_proofs: u64,
    pub max_pending_proof_bytes: u64,
    pub max_database_bytes: u64,
    pub wal_checkpoint_threshold_bytes: u64,
    pub emergency_reserve_bytes: u64,
}

/// The finite limits of a graph for which none were chosen.
pub open spec fn default_policy() -> SemanticAdmissionPolicy {
    SemanticAdmissionPolicy {
        max_fact_encoded_bytes: 65_535,
        max_dependencies_per_fact: 64,
        max_authority_uses_per_fact: 32,
        max_authority_predecessors_per_use: 64,
        max_admitted_facts: 100_000,
        max_admitted_bytes: 134_217_728,
        max_quarantined_facts: 4_096,
        max_quarantined_bytes: 16_777_216,
        max_quarantined_facts_per_author: 256,
        max_quarantined_bytes_per_author: 4_194_304,
        max_retained_facts_per_author: 10_000,
        max_retained_bytes_per_author: 16_777_216,
        max_hot_history_facts: 64,
        max_dependency_edges: 1_000_000,
        max_ready_batch: 256,
        max_pending_proofs: 10_000,
        max_pending_proof_bytes: 16_777_216,
        max_database_bytes: 268_435_456,
        wal_checkpoint_threshold_bytes: 4_194_304,
        emergency_reserve_bytes: 8_388_608,
    }
}

impl Default for SemanticAdmissionPolicy {
    fn default() -> (r: Self)
        ensures
            r == default_policy(),
    {
        SemanticAdmissionPolicy {
            max_fact_encoded_bytes: 65_535,
            max_dependencies_per_fact: 64,
            max_authority_uses_per_fact: 32,
            max_authority_predecessors_per_use: 64,
            max_admitted_facts: 100_000,
            max_admitted_bytes: 134_217_728,
            max_quarantined_facts: 4_096,
            max_quarantined_bytes: 16_777_216,
            max_quarantined_facts_per_author: 256,
            max_quarantined_bytes_per_author: 4_194_304,
            max_retained_facts_per_author: 10_000,
            max_retained_bytes_per_author: 16_777_216,
            max_hot_history_facts: 64,
            max_dependency_edges: 1_000_000,
            max_ready_batch: 256,
            max_pending_proofs: 10_000,
            max_pending_proof_bytes: 16_777_216,
            max_database_bytes: 268_435_456,
            wal_checkpoint_threshold_bytes: 4_194_304,
            emergency_reserve_bytes: 8_388_608,
        }
    }
}

impl SemanticAdmissionPolicy {
    // The scalar configuration boundary stays explicit and one-to-one.
    #[allow(clippy::too_many_arguments)]
    pub fn from_config_values(
        max_fact_encoded_bytes: u64,
        max_dependencies_per_fact: u64,
        max_authority_uses_per_fact: u64,
        max_authority_predecessors_per_use: u64,
        max_admitted_facts: u64,
        max_admitted_bytes: u64,
        max_quarantined_facts: u64,
        max_quarantined_bytes: u64,
        max_quarantined_facts_per_author: u64,
        max_quarantined_bytes_per_author: u64,
        max_retained_facts_per_author: u64,
        max_retained_bytes_per_author: u64,
        max_hot_history_facts: u64,
        max_dependency_edges: u64,
        max_ready_batch: u64,
        max_pending_proofs: u64,
        max_pending_proof_bytes: u64,
        max_database_bytes: u64,
        wal_checkpoint_threshold_bytes: u64,
        emergency_reserve_bytes: u64,
    ) -> (r: Self)
        ensures
            r == (SemanticAdmissionPolicy {
                max_fact_encoded_bytes,
                max_dependencies_per_fact,
                max_authority_uses_per_fact,
                max_authority_predecessors_per_use,
                max_admitted_facts,
                max_admitted_bytes,
                max_quarantined_facts,
                max_quarantined_bytes,
                max_quarantined_facts_per_author,
                max_quarantined_bytes_per_author,
                max_retained_facts_per_author,
                max_retained_bytes_per_author,
                max_hot_history_facts,
                max_dependency_edges,
                max_ready_batch,
                max_pending_proofs,
                max_pending_proof_bytes,
                max_database_bytes,
                wal_checkpoint_threshold_bytes,
                emergency_reserve_bytes,
            }),
    {
        SemanticAdmissionPolicy {
            max_fact_encoded_bytes,
            max_dependencies_per_fact,
            max_authority_uses_per_fact,
            max_authority_predecessors_per_use,
            max_admitted_facts,
            max_admitted_bytes,
            max_quarantined_facts,
            max_quarantined_bytes,
            max_quarantined_facts_per_author,
            max_quarantined_bytes_per_author,
            max_retained_facts_per_author,
            max_retained_bytes_per_author,
            max_hot_history_facts,
            max_dependency_edges,
            max_ready_batch,
            max_pending_proofs,
            max_pending_proof_bytes,
            max_database_bytes,
            wal_checkpoint_threshold_bytes,
            emergency_reserve_bytes,
        }
    }
}

/// The verified profile of a project.
#[derive(Debug, Clone, Copy, PartialEq, Eq, Structural)]
pub enum VerifiedProjectPolicy {
    Open,
    Closed,
}

/// The verified, exact context that a graph is constructed from.
#[derive(Debug, PartialEq, Eq)]
pub struct VerifiedBootstrap {
    pub context: MeshContextId,
    pub roots: Vec<DeviceId>,
    pub policy: VerifiedProjectPolicy,
}

impl VerifiedBootstrap {
    pub fn context_id(&self) -> (r: MeshContextId)
        ensures
            r == self.context,
    {
        self.context
    }

    pub fn authority_roots(&self) -> (r: Vec<DeviceId>)
        ensures
            r@ == self.roots@,
    {
        copy_keys(&self.roots)
    }

    pub fn policy(&self) -> (r: VerifiedProjectPolicy)
        ensures
            r == self.policy,
    {
        self.policy
    }
}

} // verus!

//! Why a fact is refused.

use vstd::prelude::*;

use crate::ids::{FactId, MeshContextId};

verus! {

/// A bound of the admission policy.
#[derive(Clone, Copy, PartialEq, Eq, Structural, Debug)]
pub enum SemanticCapacityDimension {
    FactEncodedBytes,
    DependenciesPerFact,
    AuthorityUsesPerFact,
    AuthorityPredecessorsPerUse,
    AdmittedFacts,
    AdmittedBytes,
    QuarantinedFacts,
    QuarantinedBytes,
    QuarantinedFactsPerAuthor,
    QuarantinedBytesPerAuthor,
    RetainedFactsPerAuthor,
    RetainedBytesPerAuthor,
    DependencyEdges,
    ReadyBatch,
}

/// A refusal of the semantic layer.
#[derive(Clone, Copy, PartialEq, Eq, Debug)]
pub enum SemanticError {
    UnsupportedVersion(u16),
    EmptyField(&'static str),
    DomainMismatch,
    UnsortedParents,
    DuplicateParent,
    SelfParent,
    AuthorMismatch,
    NonCanonicalSet(&'static str),
    IncompleteEvictionProof,
    InvalidEvictionEvidence,
    FactIdMismatch,
    InvalidSignature,
    EncodingFailed,
    InvalidStandDownProof,
    InvalidAuthorityUse,
    UnauthorizedRoleGrant,
    UnauthorizedMembershipAdmit,
    UnauthorizedAttestation,
    UnauthorizedEviction,
    ContextMismatch { expected: MeshContextId, found: MeshContextId },
    DuplicateFact(FactId),
    MissingParent(FactId),
    Cycle,
    CapacityExceeded { dimension: SemanticCapacityDimension, limit: u64, observed: u64 },
    NoOp(&'static str),
    QuarantineSignerNotEligible,
    ResolutionSelectionNotCited,
    IncompleteResolution,
    UnknownResolutionHead(FactId),
    ResolutionNotCurrent,
}

} // verus!

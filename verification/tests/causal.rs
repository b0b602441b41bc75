//! Scenarios of causal admission: authority lineages, cells, quarantine,
//! journals, cold history and checkpoints.
use ed25519_dalek::{Signature, Signer, SigningKey, VerifyingKey};
use mesh_semantic::admission::Admission;
use mesh_semantic::aggregate::{
    AggregateAdmissionJournal, AggregateAdmissionOutcome, AggregateAdmissionResult,
};
use mesh_semantic::authority::{parent_reachability, Gap, Pool};
use mesh_semantic::checkpoint::{CheckpointError, LiveFactGraphCheckpoint};
use mesh_semantic::content::{
    AttestationDecision, AuthorityUse, ExclusiveCell, FactBody, Role,
};
use mesh_semantic::delta::{SemanticDelta, SemanticFactStatus};
use mesh_semantic::device::DeviceId;
use mesh_semantic::encode::Encoder;
use mesh_semantic::error::{SemanticCapacityDimension, SemanticError};
use mesh_semantic::evaluator::AuthoringWitness;
use mesh_semantic::fact::{
    dependencies, is_payload_local_resolution, Checked, FactContent, SignedFact,
};
use mesh_semantic::graph::{
    AuthoritySelectorRelation, Cached, CellProjection, FactGraph, Projection, Row, Selection,
};
use mesh_semantic::ids::{FactId, MeshContextId};
use mesh_semantic::journal::{AdmissionJournal, AdmissionPreflight};
use mesh_semantic::listing::{list_map, list_sets};
use mesh_semantic::ordmap::OrdMap;
use mesh_semantic::order::Key;
use mesh_semantic::ordset::{Duplicate, OrdSet};
use mesh_semantic::policy::{SemanticAdmissionPolicy, VerifiedBootstrap, VerifiedProjectPolicy};
use mesh_semantic::projection::ProjectionDelta;
use mesh_semantic::rebuild::CausalAdmissionGraph;
use mesh_semantic::retry::is_terminal_waiter_error;
use mesh_semantic::rollback::GraphRollback;
use std::collections::{BTreeMap, BTreeSet};

/// A copy of a value.
trait Dup {
    fn dup(&self) -> Self;
}

impl Dup for FactId {
    fn dup(&self) -> Self {
        *self
    }
}

impl Dup for DeviceId {
    fn dup(&self) -> Self {
        *self
    }
}

impl Dup for ExclusiveCell {
    fn dup(&self) -> Self {
        *self
    }
}

impl Dup for SigningKey {
    fn dup(&self) -> Self {
        self.clone()
    }
}

impl Dup for FactBody {
    fn dup(&self) -> Self {
        self.duplicate()
    }
}

impl Dup for SignedFact {
    fn dup(&self) -> Self {
        self.duplicate()
    }
}

impl Dup for FactGraph {
    fn dup(&self) -> Self {
        self.duplicate()
    }
}

impl Dup for Projection {
    fn dup(&self) -> Self {
        self.duplicate()
    }
}

impl<K: Key, V: Duplicate> Dup for OrdMap<K, V> {
    fn dup(&self) -> Self {
        self.duplicate()
    }
}

impl<T: Dup> Dup for Vec<T> {
    fn dup(&self) -> Self {
        self.iter().map(|item| item.dup()).collect()
    }
}

impl<T: Clone + Ord> Dup for BTreeSet<T> {
    fn dup(&self) -> Self {
        self.clone()
    }
}

impl Dup for LiveFactGraphCheckpoint {
    fn dup(&self) -> Self {
        LiveFactGraphCheckpoint {
            version: self.version,
            context_id: self.context_id,
            facts: self.facts.dup(),
            admission_order: self.admission_order.dup(),
            quarantined: self.quarantined.dup(),
            totals: self.totals,
            quarantined_by_author: self.quarantined_by_author.clone(),
            retained_by_author: self.retained_by_author.clone(),
            quarantine_missing: self.quarantine_missing.clone(),
            waiting_by_dependency: self.waiting_by_dependency.clone(),
            ready_quarantine: self.ready_quarantine.dup(),
            cell_heads: self.cell_heads.clone(),
            authority_heads: self.authority_heads.clone(),
            authority_selectors: self.authority_selectors.clone(),
            authority_provenance: self.authority_provenance.clone(),
            cells: self.cells.clone(),
            stand_down_heads: self.stand_down_heads.clone(),
            facts_revision: self.facts_revision,
            indexed_revision: self.indexed_revision,
            generation: self.generation,
            projection_cells: self
                .projection_cells
                .iter()
                .map(|(cell, value)| (*cell, value.duplicate()))
                .collect(),
            projection_stand_down: self.projection_stand_down.clone(),
            committed: self.committed.duplicate(),
        }
    }
}

/// The values of a map, in the order of its keys.
trait Values<V> {
    fn values(&self) -> std::vec::IntoIter<&V>;
}

impl<K: Key, V: Duplicate> Values<V> for OrdMap<K, V> {
    fn values(&self) -> std::vec::IntoIter<&V> {
        let mut rows = Vec::new();
        for key in &self.keys() {
            rows.push(self.value(key));
        }
        rows.into_iter()
    }
}

/// Changes an entry in place.
fn alter<K: Key, V: Duplicate>(map: &mut OrdMap<K, V>, key: K, change: impl FnOnce(&mut V)) {
    let mut value = map.remove(&key).expect("the altered entry is there");
    change(&mut value);
    map.insert(key, value);
}

/// A single journaled admission that is rolled back unless committed.
#[derive(Debug)]
struct Journal<'a> {
    graph: &'a mut FactGraph,
    inner: Option<AdmissionJournal>,
}

impl<'a> Journal<'a> {
    fn graph(&self) -> &FactGraph {
        self.graph
    }

    fn record(&self) -> &AdmissionJournal {
        self.inner.as_ref().expect("the journal is open")
    }

    fn delta(&self) -> &SemanticDelta {
        self.record().delta()
    }

    fn admission(&self) -> &Admission {
        self.record().admission()
    }

    fn rollback(mut self) {
        self.inner
            .take()
            .expect("the journal is open")
            .rollback(self.graph);
    }

    fn commit(mut self) {
        self.inner
            .take()
            .expect("the journal is open")
            .commit(self.graph);
    }
}

impl<'a> Drop for Journal<'a> {
    fn drop(&mut self) {
        if let Some(record) = self.inner.take() {
            record.rollback(self.graph);
        }
    }
}

/// A journaled group that is rolled back unless committed.
#[derive(Debug)]
struct Group<'a> {
    graph: &'a mut FactGraph,
    inner: Option<AggregateAdmissionJournal>,
}

impl<'a> Group<'a> {
    fn graph(&self) -> &FactGraph {
        self.graph
    }

    fn record(&self) -> &AggregateAdmissionJournal {
        self.inner.as_ref().expect("the journal is open")
    }

    fn results(&self) -> &Vec<AggregateAdmissionResult> {
        self.record().results()
    }

    fn delta(&self) -> &SemanticDelta {
        self.record().delta()
    }

    fn rollback(mut self) {
        self.inner
            .take()
            .expect("the journal is open")
            .rollback(self.graph);
    }

    fn commit(mut self) {
        self.inner
            .take()
            .expect("the journal is open")
            .commit(self.graph);
    }
}

impl<'a> Drop for Group<'a> {
    fn drop(&mut self) {
        if let Some(record) = self.inner.take() {
            record.rollback(self.graph);
        }
    }
}

/// Why the heads behind a proof could not be read.
#[derive(Debug)]
enum ProofAncestryError<E> {
    Invalid(&'static str),
    Read(E),
}

/// What the scenarios ask of a graph.
trait Scenario {
    fn begin(&mut self, fact: SignedFact) -> Result<Journal<'_>, SemanticError>;

    fn begin_checked(
        &mut self,
        fact: SignedFact,
        preflight: AdmissionPreflight,
    ) -> Result<Journal<'_>, SemanticError>;

    fn begin_with(
        &mut self,
        fact: SignedFact,
        history: Vec<SignedFact>,
    ) -> Result<Journal<'_>, SemanticError>;

    fn begin_batch(&mut self, facts: Vec<SignedFact>) -> Result<Group<'_>, SemanticError>;

    fn begin_batch_with(
        &mut self,
        facts: Vec<SignedFact>,
        history: Vec<SignedFact>,
    ) -> Result<Group<'_>, SemanticError>;

    fn proof_heads<E>(
        &self,
        cells: &[ExclusiveCell],
        load: impl FnMut(FactId) -> Result<Vec<SignedFact>, E>,
    ) -> Result<Vec<FactId>, ProofAncestryError<E>>;

    fn projection_impact_for_fact(
        &self,
        fact: &SignedFact,
    ) -> (OrdSet<ExclusiveCell>, OrdSet<DeviceId>);

    fn logical_index_residency_bytes(&self) -> Result<u64, SemanticError>;

    fn provenance_row_bytes(&self, row: &Row) -> Result<u64, SemanticError>;

    fn fact_encoded_and_edges(&self, fact: &SignedFact) -> Result<(u64, u64), SemanticError>;
}

impl Scenario for FactGraph {
    fn begin(&mut self, fact: SignedFact) -> Result<Journal<'_>, SemanticError> {
        let record = self.admit_journaled(fact)?;
        Ok(Journal {
            graph: self,
            inner: Some(record),
        })
    }

    fn begin_checked(
        &mut self,
        fact: SignedFact,
        preflight: AdmissionPreflight,
    ) -> Result<Journal<'_>, SemanticError> {
        let record = self.apply_preflight_journaled(fact, preflight)?;
        Ok(Journal {
            graph: self,
            inner: Some(record),
        })
    }

    fn begin_with(
        &mut self,
        fact: SignedFact,
        history: Vec<SignedFact>,
    ) -> Result<Journal<'_>, SemanticError> {
        let record = self.admit_journaled_with_history(fact, history)?;
        Ok(Journal {
            graph: self,
            inner: Some(record),
        })
    }

    fn begin_batch(&mut self, facts: Vec<SignedFact>) -> Result<Group<'_>, SemanticError> {
        let record = self.admit_journaled_batch(facts)?;
        Ok(Group {
            graph: self,
            inner: Some(record),
        })
    }

    fn begin_batch_with(
        &mut self,
        facts: Vec<SignedFact>,
        history: Vec<SignedFact>,
    ) -> Result<Group<'_>, SemanticError> {
        let record = self.admit_journaled_batch_with_history(facts, history)?;
        Ok(Group {
            graph: self,
            inner: Some(record),
        })
    }

    fn proof_heads<E>(
        &self,
        cells: &[ExclusiveCell],
        mut load: impl FnMut(FactId) -> Result<Vec<SignedFact>, E>,
    ) -> Result<Vec<FactId>, ProofAncestryError<E>> {
        let cells = cells.to_vec();
        let mut pools: Vec<Pool> = Vec::new();
        loop {
            match self.proof_cell_heads_with_history(&cells, &pools) {
                Ok(heads) => return Ok(heads),
                Err(Gap::Invalid(reason)) => return Err(ProofAncestryError::Invalid(reason)),
                Err(Gap::Wanted(id)) => {
                    let rows = match load(id) {
                        Ok(rows) => rows,
                        Err(error) => return Err(ProofAncestryError::Read(error)),
                    };
                    match self.proof_pool(&id, rows) {
                        Ok(pool) => pools.push(pool),
                        Err(Gap::Invalid(reason)) => {
                            return Err(ProofAncestryError::Invalid(reason))
                        }
                        Err(Gap::Wanted(_)) => unreachable!("a pool asks for nothing"),
                    }
                }
            }
        }
    }

    fn projection_impact_for_fact(
        &self,
        fact: &SignedFact,
    ) -> (OrdSet<ExclusiveCell>, OrdSet<DeviceId>) {
        let impact = self.projection_impact_for_fact_with_staged(fact, &Vec::new());
        (impact.cells, impact.subjects)
    }

    fn logical_index_residency_bytes(&self) -> Result<u64, SemanticError> {
        self.setting
            .limits
            .logical_index_residency_bytes(&self.index)
    }

    fn provenance_row_bytes(&self, row: &Row) -> Result<u64, SemanticError> {
        self.setting.limits.provenance_row_bytes(row)
    }

    fn fact_encoded_and_edges(&self, fact: &SignedFact) -> Result<(u64, u64), SemanticError> {
        self.setting.limits.fact_encoded_and_edges(fact)
    }
}

/// The exact change between two projections, over the named entries.
fn delta_between(
    after: &Projection,
    before: &Projection,
    base_generation: u64,
    generation: u64,
    cells: &OrdSet<ExclusiveCell>,
    subjects: &OrdSet<DeviceId>,
) -> ProjectionDelta {
    let (prior_cells, prior_stand_down) = before.sparse_entries(cells, subjects);
    after.delta_from_sparse(base_generation, generation, &prior_cells, &prior_stand_down)
}

/// The cells that a change sets or clears.
fn changed_cells(delta: &ProjectionDelta) -> BTreeMap<ExclusiveCell, Option<CellProjection>> {
    delta
        .cells
        .keys()
        .into_iter()
        .map(|cell| {
            let value = match &delta.cells.value(&cell).held {
                Some(value) => Some(value.duplicate()),
                None => None,
            };
            (cell, value)
        })
        .collect()
}

/// Restarts a graph from its checkpoint and the history that a loader finds
/// for the checkpoint's roots.
fn restore_with(
    bootstrap: &VerifiedBootstrap,
    limits: SemanticAdmissionPolicy,
    checkpoint: LiveFactGraphCheckpoint,
    load: impl FnOnce(&[FactId]) -> Result<Vec<SignedFact>, String>,
) -> Result<FactGraph, String> {
    let history = load(&checkpoint.history_roots())?;
    match FactGraph::from_live_checkpoint_with_history(bootstrap, limits, checkpoint, history) {
        Ok(graph) => Ok(graph),
        Err(CheckpointError::Invalid(reason)) => Err(reason.to_owned()),
        Err(CheckpointError::Refused(error)) => Err(format!("{error:?}")),
    }
}

/// The bytes that a signature covers.
fn signed_bytes(content: &FactContent) -> Vec<u8> {
    let mut out = Encoder::new();
    out.context(content.mesh_context);
    content.body.encode(&mut out);
    out.device(&content.author);
    out.list_ids(&content.parents);
    out.list_authority_uses(&content.authority_uses);
    out.finish()
}

/// A digest that tells the contents of a scenario apart.
fn digest(bytes: &[u8]) -> FactId {
    let mut id = [0u8; 32];
    for lane in 0..4usize {
        let mut state: u64 = 0xcbf2_9ce4_8422_2324 ^ (lane as u64).wrapping_mul(0x9e37_79b9_7f4a_7c15);
        for byte in bytes {
            state = (state ^ u64::from(*byte)).wrapping_mul(0x0000_0100_0000_01b3);
            state ^= state >> 29;
        }
        id[lane * 8..lane * 8 + 8].copy_from_slice(&(!state).to_be_bytes());
    }
    FactId::from_bytes(id)
}

fn hex(bytes: &[u8]) -> String {
    bytes.iter().map(|byte| format!("{byte:02x}")).collect()
}

fn unhex(text: &str) -> Option<[u8; 64]> {
    let digits = text.as_bytes();
    if digits.len() != 128 {
        return None;
    }
    let mut out = [0u8; 64];
    for (index, pair) in digits.chunks(2).enumerate() {
        let pair = std::str::from_utf8(pair).ok()?;
        out[index] = u8::from_str_radix(pair, 16).ok()?;
    }
    Some(out)
}

/// Examines the identifier and the signature of a fact anew.
fn recheck(fact: &mut SignedFact) {
    let bytes = signed_bytes(&fact.content);
    let content_id = digest(&bytes);
    let author = VerifyingKey::from_bytes(&fact.content.author.as_bytes());
    let signed = match (author, unhex(&fact.signature)) {
        (Ok(author), Some(signature)) => author
            .verify_strict(&bytes, &Signature::from_bytes(&signature))
            .is_ok(),
        _ => false,
    };
    let refusal = if content_id != fact.id {
        Some(SemanticError::FactIdMismatch)
    } else if !signed {
        Some(SemanticError::InvalidSignature)
    } else {
        None
    };
    fact.checked = Checked {
        refusal,
        content_id,
        encoded_bytes: Some((bytes.len() + fact.signature.len() + 32) as u64),
    };
}

fn sign_fact(content: FactContent, signing_key: &SigningKey) -> Result<SignedFact, SemanticError> {
    let bytes = signed_bytes(&content);
    let id = digest(&bytes);
    let mut fact = SignedFact {
        id,
        content,
        signature: hex(&signing_key.sign(&bytes).to_bytes()),
        checked: Checked {
            refusal: None,
            content_id: id,
            encoded_bytes: None,
        },
    };
    recheck(&mut fact);
    fact.verify()?;
    Ok(fact)
}

fn sorted(mut ids: Vec<FactId>) -> Vec<FactId> {
    ids.sort();
    ids.dedup();
    ids
}

/// Content whose authority uses all follow the parents.
fn content_new(
    context: MeshContextId,
    mut body: FactBody,
    author: DeviceId,
    parents: Vec<FactId>,
) -> FactContent {
    body.normalize();
    let parents = sorted(parents);
    let authority_uses = body
        .authority_use_subjects(&author)
        .into_iter()
        .map(|subject| AuthorityUse::new(subject, parents.clone()))
        .collect();
    FactContent {
        mesh_context: context,
        body,
        author,
        parents,
        authority_uses,
    }
}

/// Content that carries a witness and further parents; each authority use
/// follows the heads of its own lineage.
fn content_from_witness(
    graph: &FactGraph,
    mut body: FactBody,
    witness: &AuthoringWitness,
    extra: impl IntoIterator<Item = FactId>,
) -> FactContent {
    body.normalize();
    let author = *witness.author();
    let mut parents = witness.parents().to_vec();
    parents.extend(extra);
    let authority_uses = body
        .authority_use_subjects(&author)
        .into_iter()
        .map(|subject| AuthorityUse::new(subject, graph.authority_use_heads(&subject)))
        .collect();
    FactContent {
        mesh_context: graph.context_id(),
        body,
        author,
        parents: sorted(parents),
        authority_uses,
    }
}

fn key(seed: u8) -> SigningKey {
    SigningKey::from_bytes(&[seed; 32])
}

fn device(key: &SigningKey) -> DeviceId {
    DeviceId::from_public_key_bytes(*key.verifying_key().as_bytes())
        .expect("test key produces a canonical device")
}

fn closed(seed: u8) -> (VerifiedBootstrap, SigningKey) {
    let signing_key = key(seed);
    (
        VerifiedBootstrap {
            context: MeshContextId::from_bytes([seed; 32]),
            roots: vec![device(&signing_key)],
            policy: VerifiedProjectPolicy::Closed,
        },
        signing_key,
    )
}

fn open_bootstrap() -> VerifiedBootstrap {
    VerifiedBootstrap {
        context: MeshContextId::from_bytes([0; 32]),
        roots: Vec::new(),
        policy: VerifiedProjectPolicy::Open,
    }
}

fn cached(graph: &FactGraph) -> Option<Cached> {
    graph.cache.as_ref().map(|cached| Cached {
        generation: cached.generation,
        projection: cached.projection.duplicate(),
    })
}

fn fact(
    bootstrap: &VerifiedBootstrap,
    signing_key: &SigningKey,
    body: FactBody,
    parents: Vec<FactId>,
) -> SignedFact {
    sign_fact(
        content_new(
            bootstrap.context_id(),
            body,
            device(signing_key),
            parents,
        ),
        signing_key,
    )
    .expect("test fact signs")
}

fn fact_with_authority_predecessors(
    bootstrap: &VerifiedBootstrap,
    signing_key: &SigningKey,
    body: FactBody,
    parents: Vec<FactId>,
    overrides: &[(DeviceId, Vec<FactId>)],
) -> SignedFact {
    let mut content = content_new(
        bootstrap.context_id(),
        body,
        device(signing_key),
        parents,
    );
    for authority_use in &mut content.authority_uses {
        if let Some((_, predecessors)) = overrides
            .iter()
            .find(|(subject, _)| subject == &authority_use.subject)
        {
            let mut predecessors = predecessors.dup();
            predecessors.sort();
            predecessors.dedup();
            authority_use.predecessors = predecessors;
        }
    }
    sign_fact(content, signing_key).expect("authority lineage fact signs")
}

fn witnessed_fact(graph: &FactGraph, signing_key: &SigningKey, body: FactBody) -> SignedFact {
    let author = device(signing_key);
    let witness = graph.authoring_witness(&body, &author);
    sign_fact(
        content_from_witness(
            graph,
            body,
            &witness,
            std::iter::empty(),
        ),
        signing_key,
    )
    .expect("witnessed fact signs")
}

// An independent statement of when a resident fact is authoritative.
fn reference_hot_authoritative(graph: &FactGraph, id: &FactId) -> bool {
    let Some(fact) = graph.facts.get(id) else {
        return false;
    };
    for subject in fact
        .content
        .body
        .authority_use_subjects(&fact.content.author)
    {
        let payload_local = is_payload_local_resolution(
            &fact.content.body,
            &fact.content.author,
            &subject,
        );
        let lineage = graph.authority_lineage(&subject);
        if !payload_local && !graph.selector_provenance_complete(&subject) {
            return false;
        }
        if !payload_local
            && graph
                .maximal_typed_selectors(&subject, &lineage.heads().to_vec())
                .len()
                > 1
        {
            return false;
        }
        if !payload_local
            && !lineage.is_singular()
            && !lineage
                .heads()
                .iter()
                .all(|head| fact.id == *head || graph.is_ancestor(&fact.id, head))
        {
            return false;
        }
        let Some(use_) = fact
            .content
            .authority_uses
            .iter()
            .find(|use_| use_.subject == subject)
        else {
            return false;
        };
        let direct = fact
            .content
            .parents
            .iter()
            .copied()
            .filter(|id| {
                graph.facts.get(id).is_some_and(|parent| {
                    parent.content.authority_uses.iter().any(|use_| {
                        use_.subject == subject
                            && !is_payload_local_resolution(
                                &parent.content.body,
                                &parent.content.author,
                                &subject,
                            )
                    })
                })
            })
            .collect::<Vec<_>>();
        let expected = direct
            .iter()
            .copied()
            .filter(|candidate| {
                !direct
                    .iter()
                    .any(|other| candidate != other && graph.is_ancestor(candidate, other))
            })
            .collect::<Vec<_>>();
        if use_.predecessors != expected {
            return false;
        }
        if !payload_local {
            let Some(selectors) = graph.relevant_typed_selectors(&subject, &lineage.heads().to_vec())
            else {
                return false;
            };
            if selectors
                .into_iter()
                .any(|selector| !graph.selector_permits_fact(&selector, &fact.id))
            {
                return false;
            }
        }
    }
    true
}

fn assert_warm_proof_head_parity(graph: &FactGraph) {
    for id in &graph.facts.keys() {
        assert_eq!(
            graph.fact_is_authoritative(id),
            reference_hot_authoritative(graph, id)
        );
    }
    for cell in graph.indexed_cells().to_vec() {
        let raw = graph.raw_cell_heads(&cell);
        let eligible = raw
            .iter()
            .copied()
            .filter(|id| reference_hot_authoritative(graph, id))
            .collect::<Vec<_>>();
        let expected = if eligible.is_empty() && raw.len() > 1 {
            raw
        } else {
            eligible
        };
        assert_eq!(graph.cell_heads(&cell), expected);
        assert_eq!(
            graph
                .proof_heads(
                    &[cell],
                    |_| -> Result<Vec<SignedFact>, &'static str> {
                        panic!("complete warm ancestry must not load durable rows")
                    }
                )
                .unwrap(),
            expected
        );
    }
}

fn cold_proof_fixture() -> (FactGraph, FactGraph, DeviceId, Vec<FactId>, FactId) {
    let (bootstrap, root) = closed(221);
    let target = device(&key(222));
    let mut warm = FactGraph::from_bootstrap(&bootstrap);
    for body in [
        FactBody::RoleGrant {
            target: target.dup(),
            role: Role::Member,
        },
        FactBody::MembershipAdmit {
            target: target.dup(),
        },
    ] {
        let fact = witnessed_fact(&warm, &root, body);
        assert_eq!(warm.admit_fact(fact).unwrap(), Admission::Inserted);
    }
    let mut roles = Vec::new();
    for role in [
        Role::Controller,
        Role::Member,
        Role::Controller,
        Role::Member,
    ] {
        let fact = witnessed_fact(
            &warm,
            &root,
            FactBody::RoleGrant {
                target: target.dup(),
                role,
            },
        );
        roles.push(fact.id);
        assert_eq!(warm.admit_fact(fact).unwrap(), Admission::Inserted);
    }
    let evict = witnessed_fact(
        &warm,
        &root,
        FactBody::Evict {
            target: target.dup(),
        },
    );
    let evict_id = evict.id;
    assert_eq!(warm.admit_fact(evict).unwrap(), Admission::Inserted);
    let mut cold = warm.dup();
    cold.seal_live_checkpoint();
    assert!(
        cold.get(&roles[1]).is_none(),
        "middle C2 must actually be cold"
    );
    assert!(
        cold.get(&roles[3]).is_some(),
        "direct C4 endpoint stays hot"
    );
    assert!(cold.get(&evict_id).is_some());
    assert_eq!(cold.evaluator().effective_membership(&target), Some(false));
    (warm, cold, target, roles, evict_id)
}

fn proof_history_for_test(graph: &FactGraph, root: FactId) -> Vec<SignedFact> {
    let mut pending = vec![root];
    let mut ids = BTreeSet::new();
    while let Some(id) = pending.pop() {
        if ids.insert(id) {
            pending.extend(dependencies(graph.get(&id).unwrap()));
        }
    }
    ids.into_iter()
        .map(|id| graph.get(&id).unwrap().dup())
        .collect()
}

#[test]
fn proof_ancestry_cold_four_role_chain_preserves_exact_eligible_closure() {
    let (warm, cold, target, _, evict) = cold_proof_fixture();
    assert_warm_proof_head_parity(&warm);
    let cells = [
        ExclusiveCell::role(target.dup()),
        ExclusiveCell::membership(target.dup()),
    ];
    assert!(
        cold.cell_heads(&cells[0]).is_empty(),
        "the resident rows alone leave the head out"
    );
    let before = cold.live_checkpoint();
    let mut reads = Vec::new();
    let heads = cold
        .proof_heads(&cells, |root| {
            reads.push(root);
            // The exact closure of the descendant.
            Ok::<_, &'static str>(proof_history_for_test(&warm, root))
        })
        .unwrap();
    assert_eq!(heads, vec![evict, evict]);
    assert!((1..=2).contains(&reads.len()));
    assert_eq!(
        reads.iter().copied().collect::<BTreeSet<_>>().len(),
        reads.len(),
        "one pool reuses already covered descendants across both cells"
    );
    let expected = warm.eviction_proof_bundle(&target).unwrap();
    let mut pending = heads;
    let mut ids = BTreeSet::new();
    while let Some(id) = pending.pop() {
        if ids.insert(id) {
            pending.extend(dependencies(warm.get(&id).unwrap()));
        }
    }
    assert_eq!(
        ids.into_iter().collect::<Vec<_>>(),
        expected.iter().map(|fact| fact.id).collect::<Vec<_>>()
    );
    assert_eq!(
        cold.live_checkpoint(),
        before,
        "no hydration or mutation"
    );
}

#[test]
fn proof_ancestry_complete_hot_negative_never_loads_history() {
    let (warm, _, _, roles, _) = cold_proof_fixture();
    assert_eq!(
        parent_reachability(&warm.facts, &roles[3], &roles[0]),
        Some(false)
    );
    assert_warm_proof_head_parity(&warm);
}

#[test]
fn proof_ancestry_pool_membership_is_not_signed_parent_reachability() {
    let (warm, _, _, roles, evict) = cold_proof_fixture();
    assert!(warm.facts.contains_key(&evict));
    for ancestor in [evict, roles[0]] {
        let reachable = parent_reachability(&warm.facts, &ancestor, &roles[0]);
        assert_eq!(
            reachable,
            Some(false),
            "neither row presence nor self is an ancestor"
        );
    }
}

#[test]
fn proof_ancestry_warm_fork_keeps_original_raw_conflict_fallback() {
    let (bootstrap, root) = closed(223);
    let target = device(&key(224));
    let mut graph = FactGraph::from_bootstrap(&bootstrap);
    let first = witnessed_fact(
        &graph,
        &root,
        FactBody::RoleGrant {
            target: target.dup(),
            role: Role::Member,
        },
    );
    let second = witnessed_fact(
        &graph,
        &root,
        FactBody::RoleGrant {
            target: target.dup(),
            role: Role::Controller,
        },
    );
    assert_eq!(graph.admit_fact(first.dup()).unwrap(), Admission::Inserted);
    assert_eq!(graph.admit_fact(second.dup()).unwrap(), Admission::Inserted);
    assert!(!graph.fact_is_authoritative(&first.id));
    assert!(!graph.fact_is_authoritative(&second.id));
    let cell = ExclusiveCell::role(target);
    assert_eq!(graph.cell_heads(&cell).len(), 2);
    assert_warm_proof_head_parity(&graph);
}

#[test]
fn proof_ancestry_cold_common_ancestor_keeps_dynamic_fork_gate() {
    let (mut warm, _, target, _, evict) = cold_proof_fixture();
    let root = key(221);
    let other = device(&key(225));
    for role in [
        Role::Member,
        Role::Controller,
        Role::Member,
        Role::Controller,
    ] {
        let fact = witnessed_fact(
            &warm,
            &root,
            FactBody::RoleGrant {
                target: other.dup(),
                role,
            },
        );
        assert_eq!(warm.admit_fact(fact).unwrap(), Admission::Inserted);
    }
    let branches = [226, 227].map(|seed| {
        witnessed_fact(
            &warm,
            &root,
            FactBody::RoleGrant {
                target: device(&key(seed)),
                role: Role::Member,
            },
        )
    });
    for fact in &branches {
        assert_eq!(warm.admit_fact(fact.dup()).unwrap(), Admission::Inserted);
    }
    assert!(warm.authority_lineage(&device(&root)).is_conflicted());
    assert!(
        warm.fact_is_authoritative(&evict),
        "common ancestor is eligible under both branches"
    );
    let mut cold = warm.dup();
    cold.seal_live_checkpoint();
    assert!(!cold.is_ancestor(&evict, &branches[0].id));
    let mut queried = Vec::new();
    let heads = cold
        .proof_heads(&[ExclusiveCell::membership(target)], |descendant| {
            queried.push(descendant);
            Ok::<_, &'static str>(proof_history_for_test(&warm, descendant))
        })
        .unwrap();
    assert_eq!(heads, vec![evict]);
    assert!(
        queried
            .iter()
            .any(|id| branches.iter().any(|fact| fact.id == *id)),
        "dynamic lineage reachability, not only own-parent maxima, uses the resolver"
    );
}

#[test]
fn proof_ancestry_missing_candidate_direct_parent_and_stale_index_refuse() {
    let (_, cold, target, _, evict) = cold_proof_fixture();
    let cell = ExclusiveCell::role(target);
    for case in 0..3 {
        let mut broken = cold.dup();
        match case {
            0 => {
                broken.facts.remove(&evict);
                broken.fence.indexed_fact_count = broken.facts.len();
            }
            1 => {
                let parent = broken.get(&evict).unwrap().content.parents[0];
                broken.facts.remove(&parent);
                broken.fence.indexed_fact_count = broken.facts.len();
            }
            _ => {
                broken.fence.indexed_revision = broken.fence.indexed_revision.wrapping_add(1);
            }
        }
        let mut calls: u32 = 0;
        let result = broken.proof_heads(std::slice::from_ref(&cell), |_| {
            calls += 1;
            Ok::<_, &'static str>(Vec::new())
        });
        assert!(matches!(result, Err(ProofAncestryError::Invalid(_))));
        assert_eq!(calls, 0, "reject before any partial frontier or lookup");
    }
}

#[test]
fn proof_ancestry_invalid_supplemental_rows_and_read_limits_propagate() {
    let (warm, cold, target, roles, _) = cold_proof_fixture();
    let cell = ExclusiveCell::role(target);
    for case in 0..7 {
        let result = cold.proof_heads(std::slice::from_ref(&cell), |root| {
            let mut rows = warm.facts.values().map(|x| x.dup()).collect::<Vec<_>>();
            match case {
                0 => rows.retain(|fact| fact.id != root),
                1 => rows.retain(|fact| fact.id != roles[1]),
                2 => {
                    rows[0].signature.push('x');
                    recheck(&mut rows[0]);
                }
                3 => {
                    rows[0].content.mesh_context = MeshContextId::from_bytes([7; 32]);
                    recheck(&mut rows[0]);
                }
                4 => {
                    let again = rows[0].dup();
                    rows.push(again);
                }
                5 => return Err("proof history limit refusal"),
                _ => return Err("proof history read refusal"),
            }
            Ok(rows)
        });
        if case >= 5 {
            let expected = if case == 5 {
                "proof history limit refusal"
            } else {
                "proof history read refusal"
            };
            assert!(
                matches!(result, Err(ProofAncestryError::Read(error)) if error == expected)
            );
        } else {
            assert!(
                matches!(result, Err(ProofAncestryError::Invalid(_))),
                "case {case}: {result:?}"
            );
        }
    }
    // Corrupt the live overlap only: the durable row still has a valid
    // signature, so this specifically discriminates the exact-body gate.
    for change_signature in [true, false] {
        let mut changed = cold.dup();
        alter(&mut changed.facts, roles[3], |hot| {
        if change_signature {
            hot.signature.push('x');
        } else if let FactBody::RoleGrant { role, .. } = &mut hot.content.body {
            *role = Role::Owner;
        } else {
            panic!("C4 is a role grant");
        }
        });
        let result = changed.proof_heads(std::slice::from_ref(&cell), |_| {
            Ok::<_, &'static str>(warm.facts.values().map(|x| x.dup()).collect())
        });
        assert!(matches!(
            result,
            Err(ProofAncestryError::Invalid(
                "ancestry differs from hot body"
            ))
        ));
    }
}

#[test]
fn proof_ancestry_quarantined_intermediate_is_not_admitted_history() {
    let (warm, mut cold, target, roles, _) = cold_proof_fixture();
    let intermediate = warm.get(&roles[1]).unwrap().dup();
    cold.quarantine.facts.insert(intermediate.id, intermediate);
    let result =
        cold.proof_heads(&[ExclusiveCell::membership(target)], |_| {
            // The reader finds admitted rows only: provisional custody cannot
            // supply the missing one.
            Ok::<_, &'static str>(
                warm.facts
                    .values()
                    .filter(|fact| fact.id != roles[1])
                    .map(|x| x.dup())
                    .collect(),
            )
        });
    assert!(matches!(
        result,
        Err(ProofAncestryError::Invalid(
            "incomplete signed-parent ancestry"
        ))
    ));
}

#[test]
fn root_owner_fallback_stops_after_root_cell_advances() {
    let (bootstrap, root_key) = closed(41);
    let root = device(&root_key);
    let revoke = fact(
        &bootstrap,
        &root_key,
        FactBody::RoleRevoke {
            target: root.dup(),
        },
        Vec::new(),
    );
    let mut graph = FactGraph::from_bootstrap(&bootstrap);
    assert_eq!(graph.evaluator().effective_role(&root), Some(Role::Owner));
    graph
        .admit_fact(revoke)
        .expect("the root may revoke its own role cell");
    let evaluator = graph.evaluator();
    assert_eq!(evaluator.effective_role(&root), None);
    assert!(!evaluator.admits_closed_session(&root, &root));
}

#[test]
fn authoring_witness_carries_root_revoke_into_later_root_authored_fact() {
    let (bootstrap, root_key) = closed(48);
    let root = device(&root_key);
    let revoke = fact(
        &bootstrap,
        &root_key,
        FactBody::RoleRevoke {
            target: root.dup(),
        },
        Vec::new(),
    );
    let mut graph = FactGraph::from_bootstrap(&bootstrap);
    graph
        .admit_fact(revoke.dup())
        .expect("the root revoke is admitted into the canonical graph");

    let body = FactBody::RoleGrant {
        target: device(&key(49)),
        role: Role::Member,
    };
    let witness = graph.authoring_witness(&body, &root);
    assert!(
        witness.parents().contains(&revoke.id),
        "tiered root-authored work must carry the signed AuthorityUse predecessor"
    );
    let candidate = sign_fact(
        content_from_witness(
            &graph,
            body,
            &witness,
            std::iter::empty(),
        ),
        &root_key,
    )
    .expect("witness-derived candidate signs");
    assert_eq!(
        graph.admit_fact(candidate),
        Err(SemanticError::UnauthorizedRoleGrant),
        "the revoked root must not regain bootstrap-owner fallback"
    );
}

#[test]
fn projection_follows_nested_same_cell_resolutions() {
    let (bootstrap, root_key) = closed(40);
    let target = device(&key(41));
    let first = fact(
        &bootstrap,
        &root_key,
        FactBody::RoleGrant {
            target: target.dup(),
            role: Role::Member,
        },
        Vec::new(),
    );
    let second = fact(
        &bootstrap,
        &root_key,
        FactBody::RoleGrant {
            target: target.dup(),
            role: Role::Controller,
        },
        Vec::new(),
    );
    let third = fact(
        &bootstrap,
        &root_key,
        FactBody::RoleGrant {
            target: target.dup(),
            role: Role::Owner,
        },
        Vec::new(),
    );
    let first_resolution = fact(
        &bootstrap,
        &root_key,
        FactBody::Resolution {
            cell: ExclusiveCell::role(target.dup()),
            cited_heads: vec![first.id, second.id],
            selected_head: first.id,
        },
        vec![first.id, second.id],
    );
    let second_resolution = fact(
        &bootstrap,
        &root_key,
        FactBody::Resolution {
            cell: ExclusiveCell::role(target.dup()),
            cited_heads: vec![first_resolution.id, third.id],
            selected_head: first_resolution.id,
        },
        vec![first_resolution.id, third.id],
    );
    let terminal_resolution = second_resolution.id;
    let mut graph = FactGraph::from_bootstrap(&bootstrap);
    graph.facts.insert(first.id, first.dup());
    graph.facts.insert(second.id, second);
    graph.facts.insert(third.id, third);
    graph.facts.insert(first_resolution.id, first_resolution);
    graph.facts.insert(second_resolution.id, second_resolution);
    let evaluator = graph.evaluator();
    assert_eq!(
        evaluator.effective_role(&target),
        Some(Role::Member),
        "nested resolution selects the terminal same-cell head"
    );
    drop(evaluator);
    assert_eq!(graph.projection(), Projection::from_graph(&graph));
    graph.rebuild_indexes();
    assert_warm_proof_head_parity(&graph);
    let roots = graph
        .proof_heads(&[ExclusiveCell::role(target)], |_| {
            Err::<Vec<SignedFact>, _>("unexpected warm history read")
        })
        .unwrap();
    assert_eq!(
        roots,
        vec![terminal_resolution],
        "retain typed outer Resolution, not selected leaf"
    );
    let mut pending = roots;
    let mut closure = BTreeSet::new();
    while let Some(id) = pending.pop() {
        if closure.insert(id) {
            pending.extend(dependencies(graph.get(&id).unwrap()));
        }
    }
    assert_eq!(
        closure,
        graph.facts.keys().into_iter().collect(),
        "both nested cited branches remain in the closure"
    );
}

#[test]
fn shared_nested_controller_resolution_dag_is_path_local_and_accepted() {
    let (bootstrap, root_key) = closed(67);
    let controller_key = key(68);
    let controller = device(&controller_key);
    let left_key = key(70);
    let right_key = key(71);
    let left = device(&left_key);
    let right = device(&right_key);
    let target = device(&key(69));
    let controller_grant = fact(
        &bootstrap,
        &root_key,
        FactBody::RoleGrant {
            target: controller.dup(),
            role: Role::Controller,
        },
        Vec::new(),
    );
    let left_grant = fact(
        &bootstrap,
        &root_key,
        FactBody::RoleGrant {
            target: left.dup(),
            role: Role::Controller,
        },
        vec![controller_grant.id],
    );
    let right_grant = fact(
        &bootstrap,
        &root_key,
        FactBody::RoleGrant {
            target: right.dup(),
            role: Role::Controller,
        },
        vec![left_grant.id],
    );
    let base_a = fact(
        &bootstrap,
        &left_key,
        FactBody::RoleGrant {
            target: target.dup(),
            role: Role::Member,
        },
        vec![left_grant.id],
    );
    let base_b = fact(
        &bootstrap,
        &right_key,
        FactBody::RoleGrant {
            target: target.dup(),
            role: Role::Controller,
        },
        vec![right_grant.id],
    );
    let mut base_heads = vec![base_a.id, base_b.id];
    base_heads.sort();
    let nested_a = fact(
        &bootstrap,
        &left_key,
        FactBody::Resolution {
            cell: ExclusiveCell::role(target.dup()),
            cited_heads: base_heads.dup(),
            selected_head: base_a.id,
        },
        [vec![left_grant.id], base_heads.dup()].concat(),
    );
    let nested_b = fact(
        &bootstrap,
        &right_key,
        FactBody::Resolution {
            cell: ExclusiveCell::role(target.dup()),
            cited_heads: base_heads,
            selected_head: base_b.id,
        },
        [vec![right_grant.id], vec![base_a.id, base_b.id]].concat(),
    );
    let mut graph = FactGraph::from_bootstrap(&bootstrap);
    for fact in [
        controller_grant.dup(),
        left_grant,
        right_grant,
        base_a,
        base_b,
        nested_a.dup(),
        nested_b.dup(),
    ] {
        graph.facts.insert(fact.id, fact);
    }
    let mut nested_heads = vec![nested_a.id, nested_b.id];
    nested_heads.sort();
    let top = fact_with_authority_predecessors(
        &bootstrap,
        &controller_key,
        FactBody::Resolution {
            cell: ExclusiveCell::role(target.dup()),
            cited_heads: nested_heads.dup(),
            selected_head: nested_a.id,
        },
        vec![controller_grant.id, nested_a.id, nested_b.id],
        &[
            (controller.dup(), vec![controller_grant.id]),
            (target.dup(), nested_heads.dup()),
        ],
    );
    graph
        .admit_fact(top)
        .expect("Controller may resolve shared nested Controller-tier branches");
    assert_eq!(
        graph.evaluator().effective_role(&target),
        Some(Role::Member),
        "the selected nested branch remains the effective proposition"
    );
}

#[test]
fn conflicted_root_role_cell_fails_closed() {
    let (bootstrap, root_key) = closed(47);
    let root = device(&root_key);
    let member = fact(
        &bootstrap,
        &root_key,
        FactBody::RoleGrant {
            target: root.dup(),
            role: Role::Member,
        },
        Vec::new(),
    );
    let controller = fact(
        &bootstrap,
        &root_key,
        FactBody::RoleGrant {
            target: root.dup(),
            role: Role::Controller,
        },
        Vec::new(),
    );
    let mut graph = FactGraph::from_bootstrap(&bootstrap);
    member.verify().expect("first root branch verifies");
    controller.verify().expect("second root branch verifies");
    graph.facts.insert(member.id, member);
    graph.facts.insert(controller.id, controller);
    let evaluator = graph.evaluator();
    assert!(evaluator.is_conflicted(&ExclusiveCell::role(root.dup())));
    assert_eq!(evaluator.effective_role(&root), None);
    assert!(!evaluator.admits_closed_session(&root, &root));
}

#[test]
fn controller_can_grant_controller_but_not_owner() {
    let (bootstrap, root_key) = closed(42);
    let controller_key = key(43);
    let controller = device(&controller_key);
    let target_key = key(44);
    let target = device(&target_key);
    let grant_controller = fact(
        &bootstrap,
        &root_key,
        FactBody::RoleGrant {
            target: controller.dup(),
            role: Role::Controller,
        },
        Vec::new(),
    );
    let mut graph = FactGraph::from_bootstrap(&bootstrap);
    graph
        .admit_fact(grant_controller.dup())
        .expect("the root grants the controller tier");
    let controller_grant = fact_with_authority_predecessors(
        &bootstrap,
        &controller_key,
        FactBody::RoleGrant {
            target: target.dup(),
            role: Role::Controller,
        },
        vec![grant_controller.id],
        &[
            (controller.dup(), vec![grant_controller.id]),
            (target.dup(), vec![]),
        ],
    );
    graph
        .admit_fact(controller_grant.dup())
        .expect("a controller may grant another controller");
    assert_eq!(
        graph.evaluator().effective_role(&target),
        Some(Role::Controller)
    );
    let owner_grant = fact(
        &bootstrap,
        &controller_key,
        FactBody::RoleGrant {
            target,
            role: Role::Owner,
        },
        vec![controller_grant.id],
    );
    assert_eq!(
        graph.admit_fact(owner_grant),
        Err(SemanticError::UnauthorizedRoleGrant)
    );
}

#[test]
fn authorization_uses_candidate_causal_past_not_later_target_role() {
    let (bootstrap, root_key) = closed(51);
    let root = device(&root_key);
    let controller_key = key(52);
    let controller = device(&controller_key);
    let target_key = key(53);
    let target = device(&target_key);
    let grant_controller = fact(
        &bootstrap,
        &root_key,
        FactBody::RoleGrant {
            target: controller.dup(),
            role: Role::Controller,
        },
        Vec::new(),
    );
    let grant_member = fact_with_authority_predecessors(
        &bootstrap,
        &root_key,
        FactBody::RoleGrant {
            target: target.dup(),
            role: Role::Member,
        },
        vec![grant_controller.id],
        &[
            (root.dup(), vec![grant_controller.id]),
            (target.dup(), vec![]),
        ],
    );
    let later_owner = fact(
        &bootstrap,
        &root_key,
        FactBody::RoleGrant {
            target: target.dup(),
            role: Role::Owner,
        },
        vec![grant_member.id],
    );
    let revoke = fact_with_authority_predecessors(
        &bootstrap,
        &controller_key,
        FactBody::RoleRevoke {
            target: target.dup(),
        },
        vec![grant_controller.id, grant_member.id],
        &[
            (controller.dup(), vec![grant_controller.id]),
            (target.dup(), vec![grant_member.id]),
        ],
    );
    let mut graph = FactGraph::from_bootstrap(&bootstrap);
    graph
        .admit_fact(grant_controller)
        .expect("root controller grant admits");
    graph
        .admit_fact(grant_member.dup())
        .expect("root member grant admits");
    graph.admit_fact(later_owner).expect("later owner grant admits");
    graph
        .admit_fact(revoke)
        .expect("controller is authorized by the candidate's causal target role");
}

#[test]
fn resolution_authority_uses_selected_controller_proposition() {
    let (bootstrap, root_key) = closed(54);
    let controller_key = key(55);
    let controller = device(&controller_key);
    let left_key = key(57);
    let right_key = key(58);
    let left = device(&left_key);
    let right = device(&right_key);
    let target = device(&key(56));
    let controller_grant = fact(
        &bootstrap,
        &root_key,
        FactBody::RoleGrant {
            target: controller.dup(),
            role: Role::Controller,
        },
        Vec::new(),
    );
    let left_grant = fact_with_authority_predecessors(
        &bootstrap,
        &root_key,
        FactBody::RoleGrant {
            target: left,
            role: Role::Controller,
        },
        vec![controller_grant.id],
        &[
            (device(&root_key), vec![controller_grant.id]),
            (device(&left_key), vec![]),
        ],
    );
    let right_grant = fact_with_authority_predecessors(
        &bootstrap,
        &root_key,
        FactBody::RoleGrant {
            target: right,
            role: Role::Controller,
        },
        vec![left_grant.id],
        &[
            (device(&root_key), vec![left_grant.id]),
            (device(&right_key), vec![]),
        ],
    );
    let membership_admit = fact_with_authority_predecessors(
        &bootstrap,
        &root_key,
        FactBody::MembershipAdmit {
            target: target.dup(),
        },
        vec![right_grant.id],
        &[
            (device(&root_key), vec![right_grant.id]),
            (target.dup(), vec![]),
        ],
    );
    let member_head = fact_with_authority_predecessors(
        &bootstrap,
        &left_key,
        FactBody::RoleGrant {
            target: target.dup(),
            role: Role::Member,
        },
        vec![left_grant.id, membership_admit.id],
        &[
            (device(&left_key), vec![left_grant.id]),
            (target.dup(), vec![membership_admit.id]),
        ],
    );
    let controller_head = fact_with_authority_predecessors(
        &bootstrap,
        &right_key,
        FactBody::RoleGrant {
            target: target.dup(),
            role: Role::Controller,
        },
        vec![right_grant.id, membership_admit.id],
        &[
            (device(&right_key), vec![right_grant.id]),
            (target.dup(), vec![membership_admit.id]),
        ],
    );
    let resolution = fact_with_authority_predecessors(
        &bootstrap,
        &controller_key,
        FactBody::Resolution {
            cell: ExclusiveCell::role(target.dup()),
            cited_heads: vec![member_head.id, controller_head.id],
            selected_head: controller_head.id,
        },
        vec![controller_grant.id, member_head.id, controller_head.id],
        &[
            (controller.dup(), vec![controller_grant.id]),
            (target.dup(), vec![member_head.id, controller_head.id]),
        ],
    );
    let mut graph = FactGraph::from_bootstrap(&bootstrap);
    graph
        .admit_fact(controller_grant)
        .expect("root controller grant admits");
    graph
        .admit_fact(left_grant)
        .expect("left branch signer grant admits");
    graph
        .admit_fact(right_grant)
        .expect("right branch signer grant admits");
    graph
        .admit_fact(membership_admit)
        .expect("root admits membership before the authority fork");
    graph.admit_fact(member_head).expect("first target head admits");
    graph
        .admit_fact(controller_head)
        .expect("second target head admits");
    let mut retirement_graph = FactGraph::from_bootstrap(&bootstrap);
    retirement_graph.setting.limits.max_hot_history_facts = 1;
    let retirement_target = device(&key(76));
    let retired_fact = witnessed_fact(
        &retirement_graph,
        &root_key,
        FactBody::RoleGrant {
            target: retirement_target.dup(),
            role: Role::Member,
        },
    );
    retirement_graph
        .admit_fact(retired_fact.dup())
        .expect("retirement seed admits");
    let retained_fact = witnessed_fact(
        &retirement_graph,
        &root_key,
        FactBody::RoleGrant {
            target: retirement_target.dup(),
            role: Role::Controller,
        },
    );
    retirement_graph
        .admit_fact(retained_fact)
        .expect("retirement successor admits");
    let terminal_fact = witnessed_fact(
        &retirement_graph,
        &root_key,
        FactBody::RoleGrant {
            target: retirement_target,
            role: Role::Member,
        },
    );
    retirement_graph
        .admit_fact(terminal_fact)
        .expect("retirement terminal successor admits");
    retirement_graph.fence.cold_history_since_retirement = 1;
    retirement_graph.retire_cold_history();
    assert!(
        retirement_graph.get(&retired_fact.id).is_none(),
        "the signed fixture row was admitted and then retired"
    );
    // Keep the signed resolution transcript fixed while growing only
    // unrelated hot facts. The impact set must remain branch-local even
    // though the current authority implementation still derives each
    // indexed subject edge on demand; these counters expose that work
    // for later tuning without treating today's O(history) scan as a
    // performance gate.
    let baseline = graph.dup();
    let mut expanded = graph.dup();
    for seed in 180..196 {
        let unrelated = witnessed_fact(
            &expanded,
            &root_key,
            FactBody::RoleGrant {
                target: device(&key(seed)),
                role: Role::Member,
            },
        );
        expanded
            .admit_fact(unrelated)
            .expect("unrelated signed grant admits");
    }
    let baseline_impact = baseline.projection_impact_for_fact(&resolution);
    let expanded_impact = expanded.projection_impact_for_fact(&resolution);
    assert_eq!(baseline_impact, expanded_impact);
    assert_eq!(
        baseline.index.authority_facts.get(&target),
        expanded.index.authority_facts.get(&target),
        "unrelated subjects do not enter the selected-subject index"
    );

    // A verified, previously admitted-and-retired row is deliberately
    // absent from the live subject index. Keep the synthetic dependent
    // row as a branch discriminator, while the retired row proves that
    // the overlay accepts the same signed history representation that a
    // loader supplies. Neither row becomes live index residency.
    assert!(
        retirement_graph.get(&retired_fact.id).is_none(),
        "the overlay input remains absent from the hot graph"
    );
    let cited_head = match &resolution.content.body {
        FactBody::Resolution { cited_heads, .. } => cited_heads[0],
        _ => unreachable!("resolution fixture has a resolution body"),
    };
    let staged_fact = fact_with_authority_predecessors(
        &bootstrap,
        &root_key,
        FactBody::Evict {
            target: target.dup(),
        },
        vec![cited_head],
        &[
            (device(&root_key), vec![cited_head]),
            (target.dup(), vec![cited_head]),
        ],
    );
    let mut complete = graph.dup();
    complete
        .stage_cold_history(&vec![retired_fact.dup(), staged_fact.dup()])
        .expect("signed cold row stages");
    assert!(!complete
        .index.authority_facts
        .get(&target)
        .is_some_and(|ids| ids.contains(&staged_fact.id)));
    complete
        .index
        .rebuild_authority_facts_index(&complete.facts);
    assert!(complete
        .index.authority_facts
        .get(&target)
        .is_some_and(|ids| ids.contains(&staged_fact.id)));
    let complete_impact = complete.projection_impact_for_fact(&resolution);
    let cold_before = graph.dup();
    let cold_before_residency = graph
        .logical_index_residency_bytes()
        .expect("cold baseline index residency computes");
    let mut complete_reference = graph.dup();
    complete_reference
        .stage_cold_history(&vec![retired_fact.dup(), staged_fact.dup()])
        .expect("the identical signed cold rows stage in the complete reference");
    complete_reference
        .index
        .rebuild_authority_facts_index(&complete_reference.facts);
    complete_reference
        .admit_fact(resolution.dup())
        .expect("complete reference admits the same resolution");
    let cold_journal = graph
        .begin_with(
            resolution.dup(),
            vec![retired_fact.dup(), staged_fact],
        )
        .expect("resolution admits with verified cold history");
    assert_eq!(
        cold_journal.graph().projection(),
        complete_reference.projection(),
        "staged overlay mutation matches the complete projection"
    );
    let expected_cold_delta = delta_between(
        &complete_reference.projection(),
        &cold_before.projection(),
        cold_before.fence.generation,
        complete_reference.fence.generation,
        cold_journal.delta().affected_cells(),
        cold_journal.delta().affected_subjects(),
    );
    assert_eq!(
        cold_journal.delta().projection_delta(),
        Some(&expected_cold_delta),
        "staged overlay delta matches the complete reference"
    );
    assert_eq!(
        cold_journal.delta().affected_cells(),
        &complete_impact.0,
        "staged cold authority branch matches complete index impact"
    );
    assert_eq!(
        cold_journal.delta().affected_subjects(),
        &complete_impact.1,
        "staged cold authority subjects match complete index impact"
    );
    assert!(
        cold_journal
            .delta()
            .affected_cells
            .contains(&ExclusiveCell::membership(target.dup())),
        "cold dependent contributes its distinct membership cell"
    );
    cold_journal.rollback();
    assert_graph_state_eq(&graph, &cold_before);
    assert_eq!(
        graph
            .logical_index_residency_bytes()
            .expect("rolled-back cold index residency computes"),
        cold_before_residency,
        "cold overlay leaves live index charge unchanged"
    );
    let before_resolution = graph_snapshot(&graph);
    let preflight = graph
        .preflight_admission(&resolution)
        .expect("fixed signed resolution preflights");
    let journal = graph
        .begin_checked(resolution.dup(), preflight)
        .expect("fixed signed resolution journals");
    assert_eq!(
        journal.graph().projection(),
        Projection::from_graph(journal.graph())
    );
    journal.rollback();
    assert_graph_state_eq(&graph, &before_resolution);
    graph
        .admit_fact(resolution)
        .expect("a controller may resolve to a controller proposition");
    assert_eq!(graph.projection(), Projection::from_graph(&graph));
    graph.fence.cold_history_since_retirement =
        usize::try_from(graph.setting.limits.max_hot_history_facts).unwrap_or(usize::MAX);
    graph.retire_cold_history();
    let retired = graph.dup();
    graph.rebuild_indexes();
    assert_eq!(graph.index.authority_facts, retired.index.authority_facts);
    assert_eq!(graph.projection(), Projection::from_graph(&graph));
    keep_projection(&mut graph);
    assert_graph_state_eq(&graph, &retired);
}

#[test]
fn authority_lineage_selection_survives_cross_cell_forks_and_rejects_losers() {
    let (bootstrap, root_key) = closed(72);
    let controller_key = key(73);
    let controller = device(&controller_key);
    let target_key = key(74);
    let target = device(&target_key);
    let other_key = key(75);
    let other = device(&other_key);
    let grant_controller = fact(
        &bootstrap,
        &root_key,
        FactBody::RoleGrant {
            target: controller.dup(),
            role: Role::Controller,
        },
        Vec::new(),
    );
    let grant_other = fact_with_authority_predecessors(
        &bootstrap,
        &controller_key,
        FactBody::RoleGrant {
            target: other.dup(),
            role: Role::Member,
        },
        vec![grant_controller.id],
        &[
            (controller.dup(), vec![grant_controller.id]),
            (other.dup(), Vec::new()),
        ],
    );
    let revoke_controller = fact_with_authority_predecessors(
        &bootstrap,
        &root_key,
        FactBody::RoleRevoke {
            target: controller.dup(),
        },
        vec![grant_controller.id],
        &[
            (device(&root_key), vec![grant_controller.id]),
            (controller.dup(), vec![grant_controller.id]),
        ],
    );
    let mut branches = vec![grant_other.dup(), revoke_controller.dup()];
    branches.sort_by_key(|fact| fact.id);
    let branch_ids = [grant_other.id, revoke_controller.id];

    for selected in branch_ids {
        for reverse in [false, true] {
            let mut graph = FactGraph::from_bootstrap(&bootstrap);
            graph
                .admit_fact(grant_controller.dup())
                .expect("controller grant admits");
            let order = if reverse {
                branches.iter().rev().map(|x| x.dup()).collect::<Vec<_>>()
            } else {
                branches.dup()
            };
            for branch in order {
                graph.admit_fact(branch).expect("cross-cell branch admits");
            }
            let mut cited = branch_ids.to_vec();
            cited.sort();
            let resolution = fact_with_authority_predecessors(
                &bootstrap,
                &root_key,
                FactBody::AuthorityLineageResolution {
                    subject: controller.dup(),
                    cited_heads: cited.dup(),
                    selected_head: selected,
                },
                [vec![grant_controller.id], cited.dup()].concat(),
                &[
                    (device(&root_key), vec![revoke_controller.id]),
                    (controller.dup(), cited.dup()),
                ],
            );
            let resolution_id = resolution.id;
            let resolution_impact = graph.projection_impact_for_fact(&resolution);
            assert!(
                resolution_impact
                    .0
                    .contains(&ExclusiveCell::role(other.dup())),
                "selected branch cell is included in sparse authority impact"
            );
            assert!(
                resolution_impact
                    .0
                    .contains(&ExclusiveCell::role(controller.dup())),
                "losing branch cell is included in sparse authority impact"
            );
            let before_resolution = graph.dup();
            let preflight = graph
                .preflight_admission(&resolution)
                .expect("cross-cell authority resolution preflights");
            let journal = graph
                .begin_checked(resolution.dup(), preflight)
                .expect("cross-cell authority resolution applies");
            let journal_graph = journal.graph();
            assert_eq!(
                journal_graph.projection(),
                Projection::from_graph(journal_graph),
                "each branch selection matches the full projection"
            );
            journal.rollback();
            assert_eq!(graph.projection(), before_resolution.projection());
            graph
                .admit_fact(resolution)
                .expect("typed resolution selects either cross-cell branch");
            let lineage = graph.authority_lineage(&controller);
            assert_eq!(lineage.effective_head(), Some(resolution_id));
            assert_eq!(lineage.selected_branch(), Some(selected));
            assert_eq!(
                graph.projection(),
                Projection::from_graph(&graph),
                "fork/resolution sparse impact matches the full reference"
            );
            let loser = branch_ids
                .into_iter()
                .find(|id| *id != selected)
                .expect("two branch ids");
            assert!(
                graph.fact_is_authoritative(&grant_controller.id),
                "the common causal ancestor remains authoritative after selection"
            );
            assert!(!graph.fact_is_authoritative(&loser));

            let later = fact(
                &bootstrap,
                &root_key,
                FactBody::RoleRevoke {
                    target: controller.dup(),
                },
                vec![resolution_id],
            );
            assert_eq!(
                graph.admit_fact(later),
                Err(SemanticError::NoOp("role revoke targets an absent role"))
            );

            let loser_only = fact(
                &bootstrap,
                &controller_key,
                FactBody::RoleGrant {
                    target: target.dup(),
                    role: Role::Member,
                },
                vec![loser],
            );
            assert_eq!(
                graph.admit_fact(loser_only),
                Err(SemanticError::UnauthorizedRoleGrant),
                "a losing branch cannot revive authority after selection"
            );

            let both_branches = fact_with_authority_predecessors(
                &bootstrap,
                &controller_key,
                FactBody::RoleGrant {
                    target: target.dup(),
                    role: Role::Member,
                },
                branch_ids.to_vec(),
                &[
                    (controller.dup(), branch_ids.to_vec()),
                    (target.dup(), Vec::new()),
                ],
            );
            assert_eq!(
                graph.admit_fact(both_branches),
                Err(SemanticError::UnauthorizedRoleGrant),
                "an ordinary fact cannot merge incomparable AuthorityUse heads"
            );
        }
    }
}

#[test]
fn ordinary_role_resolution_cannot_join_cross_cell_authority_heads() {
    let (bootstrap, root_key) = closed(89);
    let controller_key = key(90);
    let target_key = key(91);
    let controller = device(&controller_key);
    let target = device(&target_key);
    let grant_controller = fact(
        &bootstrap,
        &root_key,
        FactBody::RoleGrant {
            target: controller.dup(),
            role: Role::Controller,
        },
        Vec::new(),
    );
    let outside_role = fact_with_authority_predecessors(
        &bootstrap,
        &controller_key,
        FactBody::RoleGrant {
            target: target.dup(),
            role: Role::Member,
        },
        vec![grant_controller.id],
        &[
            (controller.dup(), vec![grant_controller.id]),
            (target.dup(), Vec::new()),
        ],
    );
    let role_revoke = fact_with_authority_predecessors(
        &bootstrap,
        &root_key,
        FactBody::RoleRevoke {
            target: controller.dup(),
        },
        vec![grant_controller.id],
        &[
            (device(&root_key), vec![grant_controller.id]),
            (controller.dup(), vec![grant_controller.id]),
        ],
    );
    let role_grant = fact_with_authority_predecessors(
        &bootstrap,
        &root_key,
        FactBody::RoleGrant {
            target: controller.dup(),
            role: Role::Owner,
        },
        vec![grant_controller.id],
        &[
            (device(&root_key), vec![grant_controller.id]),
            (controller.dup(), vec![grant_controller.id]),
        ],
    );
    let mut role_heads = vec![role_revoke.id, role_grant.id];
    role_heads.sort();
    let ordinary = fact_with_authority_predecessors(
        &bootstrap,
        &root_key,
        FactBody::Resolution {
            cell: ExclusiveCell::role(controller.dup()),
            cited_heads: role_heads.dup(),
            selected_head: role_revoke.id,
        },
        vec![
            grant_controller.id,
            outside_role.id,
            role_revoke.id,
            role_grant.id,
        ],
        &[
            (device(&root_key), vec![grant_controller.id]),
            (
                controller.dup(),
                [vec![outside_role.id], role_heads.dup()].concat(),
            ),
        ],
    );
    let mut graph = FactGraph::from_bootstrap(&bootstrap);
    graph
        .admit_fact(grant_controller)
        .expect("Controller grant admits");
    graph.facts.insert(outside_role.id, outside_role.dup());
    graph.facts.insert(role_revoke.id, role_revoke);
    graph.facts.insert(role_grant.id, role_grant);
    assert_eq!(
        graph.admit_fact(ordinary),
        Err(SemanticError::UnauthorizedRoleGrant),
        "ordinary Role resolution cannot join an outside-cell AuthorityUse"
    );
    let mut expected_heads = vec![outside_role.id, role_heads[0], role_heads[1]];
    expected_heads.sort();
    assert_eq!(
        &graph.authority_lineage(&controller).heads().to_vec(),
        expected_heads.as_slice()
    );
    assert!(!graph.fact_is_authoritative(&outside_role.id));
    assert_eq!(
        graph.evaluator().effective_role(&target),
        None,
        "the outside-cell RoleGrant cannot project through the fork"
    );
}

#[test]
fn payload_resolution_does_not_join_a_transitive_role_fork() {
    let (bootstrap, root_key) = closed(80);
    let controller_key = key(81);
    let owner_a_key = key(82);
    let owner_d_key = key(83);
    let target_key = key(84);
    let controller = device(&controller_key);
    let owner_a = device(&owner_a_key);
    let owner_d = device(&owner_d_key);
    let target = device(&target_key);

    let grant_controller = fact(
        &bootstrap,
        &root_key,
        FactBody::RoleGrant {
            target: controller.dup(),
            role: Role::Controller,
        },
        Vec::new(),
    );
    let grant_a = fact_with_authority_predecessors(
        &bootstrap,
        &root_key,
        FactBody::RoleGrant {
            target: owner_a.dup(),
            role: Role::Owner,
        },
        vec![grant_controller.id],
        &[
            (device(&root_key), vec![grant_controller.id]),
            (owner_a.dup(), Vec::new()),
        ],
    );
    let grant_d = fact_with_authority_predecessors(
        &bootstrap,
        &root_key,
        FactBody::RoleGrant {
            target: owner_d.dup(),
            role: Role::Owner,
        },
        vec![grant_a.id],
        &[
            (device(&root_key), vec![grant_a.id]),
            (owner_d.dup(), Vec::new()),
        ],
    );
    let role_branch = fact_with_authority_predecessors(
        &bootstrap,
        &controller_key,
        FactBody::RoleGrant {
            target: target.dup(),
            role: Role::Member,
        },
        vec![grant_controller.id],
        &[
            (controller.dup(), vec![grant_controller.id]),
            (target.dup(), Vec::new()),
        ],
    );
    let revoke_branch = fact_with_authority_predecessors(
        &bootstrap,
        &owner_a_key,
        FactBody::RoleRevoke {
            target: controller.dup(),
        },
        vec![grant_a.id, grant_controller.id],
        &[
            (owner_a.dup(), vec![grant_a.id]),
            (controller.dup(), vec![grant_controller.id]),
        ],
    );
    let membership_branch = fact_with_authority_predecessors(
        &bootstrap,
        &owner_d_key,
        FactBody::MembershipAdmit {
            target: controller.dup(),
        },
        vec![grant_d.id, grant_controller.id],
        &[
            (owner_d.dup(), vec![grant_d.id]),
            (controller.dup(), vec![grant_controller.id]),
        ],
    );
    let evict_branch = fact_with_authority_predecessors(
        &bootstrap,
        &owner_d_key,
        FactBody::Evict {
            target: controller.dup(),
        },
        vec![grant_d.id, grant_controller.id],
        &[
            (owner_d.dup(), vec![grant_d.id]),
            (controller.dup(), vec![grant_controller.id]),
        ],
    );
    let mut cited_heads = vec![membership_branch.id, evict_branch.id];
    cited_heads.sort();
    let resolution = fact_with_authority_predecessors(
        &bootstrap,
        &owner_a_key,
        FactBody::Resolution {
            cell: ExclusiveCell::membership(controller.dup()),
            cited_heads: cited_heads.dup(),
            selected_head: evict_branch.id,
        },
        vec![
            role_branch.id,
            revoke_branch.id,
            membership_branch.id,
            evict_branch.id,
        ],
        &[
            (owner_a.dup(), vec![revoke_branch.id]),
            (
                controller.dup(),
                vec![
                    role_branch.id,
                    revoke_branch.id,
                    membership_branch.id,
                    evict_branch.id,
                ],
            ),
        ],
    );
    for branch in [
        &grant_controller,
        &grant_a,
        &grant_d,
        &role_branch,
        &revoke_branch,
        &membership_branch,
        &evict_branch,
        &resolution,
    ] {
        branch.verify().expect("fixture remains canonically signed");
    }

    let mut base = FactGraph::from_bootstrap(&bootstrap);
    base.admit_fact(grant_controller)
        .expect("controller grant admits");
    base.admit_fact(grant_a).expect("first Owner grant admits");
    base.admit_fact(grant_d).expect("second Owner grant admits");
    let role_branch_id = role_branch.id;
    let branches = [role_branch, revoke_branch, membership_branch, evict_branch];
    let mut expected_heads = cited_heads.dup();
    expected_heads.extend([branches[0].id, branches[1].id]);
    expected_heads.sort();
    for order in [[0usize, 1, 2, 3], [3, 2, 1, 0], [2, 0, 3, 1]] {
        let mut graph = base.dup();
        for index in order {
            let branch = &branches[index];
            graph.facts.insert(branch.id, branch.dup());
        }
        graph
            .admit_fact(resolution.dup())
            .expect("payload resolution admits against exact payload heads");
        let lineage = graph.authority_lineage(&controller);
        assert_eq!(lineage.heads(), expected_heads.as_slice());
        assert_eq!(
            lineage.selected_branch(),
            None,
            "a payload resolution cannot select the Role lineage"
        );
        assert!(graph.fact_is_authoritative(&resolution.id));
        assert!(
            !graph.fact_is_authoritative(&role_branch_id),
            "the losing Role branch remains inactive"
        );
        assert_eq!(graph.evaluator().effective_role(&target), None);
        assert_eq!(
            graph.evaluator().effective_membership(&controller),
            Some(false)
        );
    }
}

#[test]
fn selector_provenance_continuations_cold_restore_and_rollback() {
    let (bootstrap, root_key) = closed(171);
    let controller_key = key(172);
    let controller = device(&controller_key);
    let old_target = device(&key(173));
    let first_target = device(&key(174));
    let second_target = device(&key(175));
    let mut seed = FactGraph::from_bootstrap(&bootstrap);
    let grant = witnessed_fact(
        &seed,
        &root_key,
        FactBody::RoleGrant {
            target: controller.dup(),
            role: Role::Controller,
        },
    );
    assert_eq!(seed.admit_fact(grant.dup()).unwrap(), Admission::Inserted);
    let operation = witnessed_fact(
        &seed,
        &controller_key,
        FactBody::RoleGrant {
            target: old_target.dup(),
            role: Role::Member,
        },
    );
    let revoke = witnessed_fact(
        &seed,
        &root_key,
        FactBody::RoleRevoke {
            target: controller.dup(),
        },
    );
    let mut expected_transcript: Option<Vec<FactId>> = None;
    for order in [
        [operation.dup(), revoke.dup()],
        [revoke.dup(), operation.dup()],
    ] {
        let mut graph = seed.dup();
        for fact in order {
            assert_eq!(graph.admit_fact(fact).unwrap(), Admission::Inserted);
        }
        let mut cited = vec![operation.id, revoke.id];
        cited.sort();
        let selector = witnessed_fact(
            &graph,
            &root_key,
            FactBody::AuthorityLineageResolution {
                subject: controller.dup(),
                cited_heads: cited,
                selected_head: revoke.id,
            },
        );
        let competing_selector = witnessed_fact(
            &graph,
            &root_key,
            FactBody::AuthorityLineageResolution {
                subject: controller.dup(),
                cited_heads: vec![operation.id, revoke.id]
                    .into_iter()
                    .collect::<BTreeSet<_>>()
                    .into_iter()
                    .collect(),
                selected_head: operation.id,
            },
        );
        assert_eq!(graph.admit_fact(selector.dup()).unwrap(), Admission::Inserted);
        assert_eq!(graph.projection(), Projection::from_graph(&graph));
        assert!(!graph.fact_is_authoritative(&operation.id));
        assert_warm_proof_head_parity(&graph);
        {
            let mut competing = graph.dup();
            assert_eq!(
                competing.admit_fact(competing_selector).unwrap(),
                Admission::Inserted
            );
            assert_eq!(
                competing.authority_lineage(&controller).selected_branch(),
                None
            );
            assert!(competing.authority_lineage(&controller).is_conflicted());
            assert_eq!(
                competing
                    .maximal_typed_selectors(
                        &controller,
                        &competing.authority_lineage(&controller).heads().to_vec()
                    )
                    .len(),
                2
            );
            assert!(!competing.fact_is_authoritative(&operation.id));
            assert_eq!(competing.projection(), Projection::from_graph(&competing));
            assert_warm_proof_head_parity(&competing);
        }
        let regrant = witnessed_fact(
            &graph,
            &root_key,
            FactBody::RoleGrant {
                target: controller.dup(),
                role: Role::Owner,
            },
        );
        assert_eq!(graph.admit_fact(regrant).unwrap(), Admission::Inserted);
        assert_eq!(graph.projection(), Projection::from_graph(&graph));
        let first = witnessed_fact(
            &graph,
            &controller_key,
            FactBody::RoleGrant {
                target: first_target.dup(),
                role: Role::Member,
            },
        );
        assert_eq!(graph.admit_fact(first).unwrap(), Admission::Inserted);
        assert_eq!(graph.projection(), Projection::from_graph(&graph));
        let second = witnessed_fact(
            &graph,
            &controller_key,
            FactBody::RoleGrant {
                target: second_target.dup(),
                role: Role::Member,
            },
        );
        let second_id = second.id;
        assert_eq!(graph.admit_fact(second).unwrap(), Admission::Inserted);
        for index in 0..8 {
            assert_eq!(
                graph.authority_lineage(&controller).selected_branch(),
                Some(revoke.id)
            );
            assert!(!graph.fact_is_authoritative(&operation.id));
            assert_eq!(graph.evaluator().effective_role(&old_target), None);
            let full = Projection::from_graph(&graph);
            assert_eq!(graph.projection(), full);
            let fact = witnessed_fact(
                &graph,
                &controller_key,
                FactBody::RoleGrant {
                    target: second_target.dup(),
                    role: if index % 2 == 0 {
                        Role::Controller
                    } else {
                        Role::Member
                    },
                },
            );
            assert_eq!(graph.admit_fact(fact).unwrap(), Admission::Inserted);
        }
        let canonical_history = graph.facts.values().map(|x| x.dup()).collect::<Vec<_>>();
        let transcript = canonical_history
            .iter()
            .map(|fact| fact.id)
            .collect::<Vec<_>>();
        if let Some(expected) = &expected_transcript {
            assert_eq!(&transcript, expected);
        } else {
            expected_transcript = Some(transcript);
        }
        graph.fence.cold_history_since_retirement =
            graph.setting.limits.max_hot_history_facts as usize;
        graph.retire_cold_history();
        assert!(
            !graph.facts.contains_key(&second_id),
            "actual intermediate body retired"
        );
        assert!(
            graph.facts.contains_key(&selector.id),
            "actual signed selector retained"
        );
        assert!(
            graph.facts.contains_key(&revoke.id),
            "actual selected branch witness retained"
        );
        assert_eq!(graph.projection(), Projection::from_graph(&graph));
        assert_eq!(
            graph.logical_index_residency_bytes().unwrap(),
            graph.ledger.index_bytes
        );
        let checkpoint = graph.live_checkpoint();
        let restored = restore_with(
            &bootstrap,
            SemanticAdmissionPolicy::default(),
            checkpoint.dup(),
            |_| Ok(canonical_history.dup()),
        )
        .expect("pristine cold provenance validated without admission replay");
        assert_eq!(
            restored.authority_lineage(&controller).selected_branch(),
            Some(revoke.id)
        );
        assert_eq!(restored.projection(), Projection::from_graph(&restored));
        assert!(
            restored
                .proof_heads(
                    &[ExclusiveCell::role(old_target.dup())],
                    |_| Ok::<_, &'static str>(canonical_history.dup()),
                )
                .unwrap()
                .is_empty(),
            "complete historical rows never revive the selector's excluded operation"
        );
        let mut omitted = checkpoint.dup();
        let omitted_bytes = graph
            .index.provenance
            .values()
            .map(|row| graph.provenance_row_bytes(row).unwrap())
            .sum::<u64>();
        omitted.authority_provenance.clear();
        omitted.totals.index_bytes = omitted
            .totals.index_bytes
            .checked_sub(omitted_bytes)
            .unwrap();
        assert!(
            restore_with(
                &bootstrap,
                SemanticAdmissionPolicy::default(),
                omitted,
                |_| Ok(canonical_history.dup()),
            )
            .is_err(),
            "omitted required provenance is not selector-free"
        );
        let mut false_post = checkpoint.dup();
        let false_relation = AuthoritySelectorRelation {
            selected: revoke.id,
            post_selector: true,
            selected_before: false,
            before_selected: false,
        };
        assert!(!graph
            .index.provenance
            .get(&operation.id)
            .is_some_and(|row| row.contains_key(&selector.id)));
        let mut false_row = graph
            .index.provenance
            .get(&operation.id)
            .map(|x| x.dup())
            .unwrap_or_else(Row::new);
        let prior_bytes = if false_row.is_empty() {
            0
        } else {
            graph.provenance_row_bytes(&false_row).unwrap()
        };
        false_row.insert(selector.id, false_relation);
        false_post
            .authority_provenance
            .retain(|(id, _)| *id != operation.id);
        false_post.authority_provenance.push((
            operation.id,
            list_map(&false_row),
        ));
        false_post.totals.index_bytes = false_post
            .totals.index_bytes
            .checked_sub(prior_bytes)
            .unwrap()
            .checked_add(graph.provenance_row_bytes(&false_row).unwrap())
            .unwrap();
        assert!(
            restore_with(
                &bootstrap,
                SemanticAdmissionPolicy::default(),
                false_post,
                |_| Ok(canonical_history.dup()),
            )
            .is_err(),
            "a losing-parent edge is not post-selector provenance even with exact accounting"
        );
        let mut substituted = checkpoint;
        for (_, row) in &mut substituted.authority_provenance {
            for (_, relation) in row {
                if relation.selected == revoke.id {
                    relation.selected = operation.id;
                }
            }
        }
        assert!(
            restore_with(
                &bootstrap,
                SemanticAdmissionPolicy::default(),
                substituted,
                |_| Ok(canonical_history.dup()),
            )
            .is_err(),
            "selected losing-row substitution refuses"
        );
        let next = witnessed_fact(
            &graph,
            &controller_key,
            FactBody::RoleGrant {
                target: second_target.dup(),
                role: Role::Controller,
            },
        );
        let baseline = graph_snapshot(&graph);
        {
            let journal = graph.begin(next.dup()).unwrap();
            assert_eq!(journal.admission(), &Admission::Inserted);
            assert_eq!(
                journal.graph().projection(),
                Projection::from_graph(journal.graph())
            );
            assert_ne!(
                journal.graph().index.provenance,
                baseline.index.provenance
            );
        }
        assert_graph_state_eq(&graph, &baseline);
        graph.begin(next.dup()).unwrap().rollback();
        assert_graph_state_eq(&graph, &baseline);
        graph.begin(next).unwrap().commit();
        assert_eq!(
            graph.authority_lineage(&controller).selected_branch(),
            Some(revoke.id)
        );
        assert!(!graph.fact_is_authoritative(&operation.id));
        assert_eq!(graph.projection(), Projection::from_graph(&graph));
    }
}

#[test]
fn self_authored_membership_keeps_a_role_authority_fork_explicit() {
    let (bootstrap, root_key) = closed(86);
    let controller_key = key(87);
    let owner_a_key = key(88);
    let controller = device(&controller_key);
    let owner_a = device(&owner_a_key);

    let grant_controller = fact(
        &bootstrap,
        &root_key,
        FactBody::RoleGrant {
            target: controller.dup(),
            role: Role::Controller,
        },
        Vec::new(),
    );
    let membership = fact_with_authority_predecessors(
        &bootstrap,
        &controller_key,
        FactBody::MembershipAdmit {
            target: controller.dup(),
        },
        vec![grant_controller.id],
        &[(controller.dup(), vec![grant_controller.id])],
    );
    let evict = fact_with_authority_predecessors(
        &bootstrap,
        &controller_key,
        FactBody::Evict {
            target: controller.dup(),
        },
        vec![grant_controller.id],
        &[(controller.dup(), vec![grant_controller.id])],
    );
    let mut role_heads = vec![membership.id, evict.id];
    role_heads.sort();
    let role_resolution = fact_with_authority_predecessors(
        &bootstrap,
        &root_key,
        FactBody::AuthorityLineageResolution {
            subject: controller.dup(),
            cited_heads: role_heads.dup(),
            selected_head: evict.id,
        },
        [grant_controller.id]
            .into_iter()
            .chain(role_heads.iter().copied())
            .collect(),
        &[
            (device(&root_key), vec![grant_controller.id]),
            (controller.dup(), role_heads.dup()),
        ],
    );
    let role_resolution_id = role_resolution.id;
    let regrant = fact_with_authority_predecessors(
        &bootstrap,
        &root_key,
        FactBody::RoleGrant {
            target: controller.dup(),
            role: Role::Owner,
        },
        vec![role_resolution_id],
        &[
            (device(&root_key), vec![role_resolution_id]),
            (controller.dup(), vec![role_resolution_id]),
        ],
    );

    let mut graph = FactGraph::from_bootstrap(&bootstrap);
    graph
        .admit_fact(grant_controller)
        .expect("controller grant admits");
    graph.facts.insert(membership.id, membership.dup());
    graph.facts.insert(evict.id, evict.dup());
    graph
        .admit_fact(role_resolution)
        .expect("typed Role resolution over the complete C fork admits");
    graph
        .admit_fact(regrant.dup())
        .expect("causal Owner regrant admits");
    let grant_owner_a = fact_with_authority_predecessors(
        &bootstrap,
        &root_key,
        FactBody::RoleGrant {
            target: owner_a.dup(),
            role: Role::Owner,
        },
        vec![regrant.id],
        &[
            (device(&root_key), vec![regrant.id]),
            (owner_a.dup(), Vec::new()),
        ],
    );
    graph
        .admit_fact(grant_owner_a.dup())
        .expect("distinct Owner A grant admits");
    assert_eq!(
        graph.authority_lineage(&controller).selected_branch(),
        Some(evict.id)
    );

    let mut membership_heads = vec![membership.id, evict.id];
    membership_heads.sort();

    let self_membership = fact_with_authority_predecessors(
        &bootstrap,
        &controller_key,
        FactBody::Resolution {
            cell: ExclusiveCell::membership(controller.dup()),
            cited_heads: membership_heads.dup(),
            selected_head: membership.id,
        },
        vec![regrant.id, membership.id, evict.id],
        &[(controller.dup(), vec![regrant.id])],
    );
    let self_membership_id = self_membership.id;
    graph.facts.insert(self_membership.id, self_membership);
    assert!(graph.fact_is_authoritative(&self_membership_id));
    assert_eq!(
        graph.evaluator().effective_membership(&controller),
        Some(true)
    );

    let late_revoke = fact_with_authority_predecessors(
        &bootstrap,
        &root_key,
        FactBody::RoleRevoke {
            target: controller.dup(),
        },
        vec![grant_owner_a.id, regrant.id],
        &[
            (device(&root_key), vec![grant_owner_a.id]),
            (controller.dup(), vec![regrant.id]),
        ],
    );
    let late_revoke_id = late_revoke.id;
    graph.facts.insert(late_revoke.id, late_revoke);
    let mut explicit_heads = vec![self_membership_id, late_revoke_id];
    explicit_heads.sort();
    let lineage = graph.authority_lineage(&controller);
    assert_eq!(lineage.heads(), explicit_heads.as_slice());
    assert!(!lineage.is_singular());
    assert!(!graph.fact_is_authoritative(&self_membership_id));
    assert!(!graph.fact_is_authoritative(&late_revoke_id));
    assert_eq!(
        graph.evaluator().effective_membership(&controller),
        None,
        "the self-authored payload is suppressed by the Role fork"
    );

    let newer_resolution = fact_with_authority_predecessors(
        &bootstrap,
        &owner_a_key,
        FactBody::AuthorityLineageResolution {
            subject: controller.dup(),
            cited_heads: explicit_heads.dup(),
            selected_head: late_revoke_id,
        },
        [vec![grant_owner_a.id], explicit_heads.dup()].concat(),
        &[
            (owner_a.dup(), vec![grant_owner_a.id]),
            (controller.dup(), explicit_heads),
        ],
    );
    let newer_resolution_id = newer_resolution.id;
    graph
        .admit_fact(newer_resolution)
        .expect("Owner A selects the current root revoke");
    let later_regrant = fact_with_authority_predecessors(
        &bootstrap,
        &root_key,
        FactBody::RoleGrant {
            target: controller.dup(),
            role: Role::Owner,
        },
        vec![late_revoke_id, newer_resolution_id],
        &[
            (device(&root_key), vec![late_revoke_id]),
            (controller.dup(), vec![newer_resolution_id]),
        ],
    );
    assert!(
        later_regrant.content.parents.contains(&late_revoke_id)
            && later_regrant.content.parents.contains(&newer_resolution_id),
        "U2 retains the redundant R/T2 parent set"
    );
    graph
        .admit_fact(later_regrant)
        .expect("later Owner regrant admits on the selected branch");
    assert_eq!(
        graph.authority_lineage(&controller).selected_branch(),
        Some(late_revoke_id)
    );
    assert!(!graph.fact_is_authoritative(&self_membership_id));
    assert_eq!(
        graph.evaluator().effective_membership(&controller),
        None,
        "later Role resolution/regrant cannot revive the losing payload"
    );

    // Continue two ordinary authority-use steps beyond the typed
    // selector. These rows are the public-shaped T->U->F1->F2 case: the
    // active frontier must carry the selected branch even when the typed
    // selector itself is no longer a direct parent.
    let continuation_revoke = witnessed_fact(
        &graph,
        &root_key,
        FactBody::RoleRevoke {
            target: controller.dup(),
        },
    );
    graph
        .admit_fact(continuation_revoke)
        .expect("first ordinary continuation admits");
    assert_eq!(
        graph.authority_lineage(&controller).selected_branch(),
        Some(late_revoke_id)
    );
    let continuation_grant = witnessed_fact(
        &graph,
        &root_key,
        FactBody::RoleGrant {
            target: controller.dup(),
            role: Role::Owner,
        },
    );
    let continuation_grant_id = continuation_grant.id;
    graph
        .admit_fact(continuation_grant)
        .expect("second ordinary continuation admits");
    assert_eq!(
        graph.authority_lineage(&controller).selected_branch(),
        Some(late_revoke_id)
    );
    assert!(graph.fact_is_authoritative(&continuation_grant_id));
    assert_eq!(graph.projection(), Projection::from_graph(&graph));

    // A cache checksum is not a proof that a branch was selected. A
    // resident but losing signed row must not be substitutable for the
    // selected ID in the derived frontier summary.
    let valid_checkpoint = graph.live_checkpoint();
    FactGraph::from_live_checkpoint(
        &bootstrap,
        SemanticAdmissionPolicy::default(),
        valid_checkpoint.dup(),
    )
    .expect("complete resident typed-selector ancestry validates");
    let mut forged_checkpoint = valid_checkpoint.dup();
    let (_, row) = forged_checkpoint
        .authority_provenance
        .iter_mut()
        .find(|(id, _)| *id == continuation_grant_id)
        .expect("continuation has provenance");
    let (_, relation) = row
        .iter_mut()
        .find(|(_, relation)| relation.selected == late_revoke_id)
        .expect("controller selection has a persisted provenance relation");
    relation.selected = self_membership_id;
    assert!(
        FactGraph::from_live_checkpoint(
            &bootstrap,
            SemanticAdmissionPolicy::default(),
            forged_checkpoint,
        )
        .is_err(),
        "resident losing row is not typed-selector provenance"
    );
    assert_eq!(
        graph.logical_index_residency_bytes().unwrap(),
        graph.ledger.index_bytes
    );

    // A journaled continuation changes the compact frontier and must put
    // it back exactly on both Drop and explicit rollback.
    let rollback_candidate = witnessed_fact(
        &graph,
        &root_key,
        FactBody::RoleRevoke {
            target: controller.dup(),
        },
    );
    let before_continuation = graph_snapshot(&graph);
    let preflight = graph
        .preflight_admission(&rollback_candidate)
        .expect("frontier continuation preflights");
    let journal = graph
        .begin_checked(rollback_candidate.dup(), preflight)
        .expect("frontier continuation journals");
    assert_ne!(
        journal.graph().index.provenance,
        before_continuation.index.provenance,
        "journal mutates the compact selector frontier"
    );
    drop(journal);
    assert_graph_state_eq(&graph, &before_continuation);
    let preflight = graph
        .preflight_admission(&rollback_candidate)
        .expect("frontier continuation re-preflights");
    let journal = graph
        .begin_checked(rollback_candidate, preflight)
        .expect("frontier continuation re-journals");
    journal.rollback();
    assert_graph_state_eq(&graph, &before_continuation);

    // Retirement keeps signed selector/selected witnesses, not the
    // ordinary continuation chain. Restore independently checks the
    // derived relations against this same complete signed history.
    let canonical_history = graph.facts.values().map(|x| x.dup()).collect::<Vec<_>>();
    graph.fence.cold_history_since_retirement =
        usize::try_from(graph.setting.limits.max_hot_history_facts).unwrap_or(usize::MAX);
    graph.retire_cold_history();
    let checkpoint = graph.live_checkpoint();
    let restored = restore_with(
        &bootstrap,
        SemanticAdmissionPolicy::default(),
        checkpoint,
        |_| Ok(canonical_history.dup()),
    )
    .expect("selector provenance validates across the cold boundary");
    assert_eq!(
        restored.authority_lineage(&controller).selected_branch(),
        Some(late_revoke_id)
    );
    assert!(restored.fact_is_authoritative(&continuation_grant_id));
    assert_eq!(restored.projection(), Projection::from_graph(&restored));
}

#[test]
fn authority_resolution_tracks_distinct_membership_and_stand_down_branches() {
    let (bootstrap, root_key) = closed(120);
    let target_a = device(&key(122));
    let target_b = device(&key(123));
    let root = device(&root_key);

    let mut graph = FactGraph::from_bootstrap(&bootstrap);
    let grant_a = witnessed_fact(
        &graph,
        &root_key,
        FactBody::RoleGrant {
            target: target_a.dup(),
            role: Role::Member,
        },
    );
    graph.admit_fact(grant_a).expect("first target role admits");
    let grant_b = witnessed_fact(
        &graph,
        &root_key,
        FactBody::RoleGrant {
            target: target_b.dup(),
            role: Role::Member,
        },
    );
    graph.admit_fact(grant_b).expect("second target role admits");

    let proposal_b = witnessed_fact(
        &graph,
        &root_key,
        FactBody::Evict {
            target: target_b.dup(),
        },
    );
    graph
        .admit_fact(proposal_b.dup())
        .expect("eviction proposal admits");
    let attestation_b = witnessed_fact(
        &graph,
        &key(122),
        FactBody::Attestation {
            target: target_b.dup(),
            proposal: proposal_b.id,
            decision: AttestationDecision::Evict,
            signer: target_a.dup(),
            contributions: Vec::new(),
        },
    );
    graph
        .admit_fact(attestation_b.dup())
        .expect("member eviction attestation admits");

    let branch_membership = witnessed_fact(
        &graph,
        &root_key,
        FactBody::MembershipAdmit {
            target: target_a.dup(),
        },
    );
    let branch_stand_down = witnessed_fact(
        &graph,
        &root_key,
        FactBody::EvictionProof {
            target: target_b.dup(),
            evidence: vec![attestation_b.id],
        },
    );
    graph
        .admit_fact(branch_membership.dup())
        .expect("membership branch admits");
    graph
        .admit_fact(branch_stand_down.dup())
        .expect("stand-down branch admits without the other branch as a parent");
    graph.rebuild_indexes();

    let mut branch_ids = vec![branch_membership.id, branch_stand_down.id];
    branch_ids.sort();
    let cited_heads = branch_ids.dup();
    let baseline = graph.dup();
    for selected_head in cited_heads.iter().copied() {
        let mut graph = baseline.dup();
        let resolution = witnessed_fact(
            &graph,
            &root_key,
            FactBody::AuthorityLineageResolution {
                subject: root.dup(),
                cited_heads: cited_heads.dup(),
                selected_head,
            },
        );
        let impact = graph.projection_impact_for_fact(&resolution);
        assert!(
            impact
                .0
                .contains(&ExclusiveCell::membership(target_a.dup())),
            "membership branch cell is included"
        );
        assert!(
            impact.1.contains(&target_a) && impact.1.contains(&target_b),
            "membership and stand-down branch targets are both included"
        );
        let before = graph.dup();
        let preflight = graph
            .preflight_admission(&resolution)
            .expect("distinct-effect resolution preflights");
        let journal = graph
            .begin_checked(resolution.dup(), preflight)
            .expect("distinct-effect resolution applies");
        let journal_graph = journal.graph();
        assert_eq!(
            journal_graph.projection(),
            Projection::from_graph(journal_graph)
        );
        if selected_head == branch_membership.id {
            assert_eq!(
                journal_graph.evaluator().effective_membership(&target_a),
                Some(true)
            );
            assert!(!journal_graph.projection().is_stood_down(&target_b));
        } else {
            assert_eq!(
                journal_graph.evaluator().effective_membership(&target_a),
                None
            );
            assert!(journal_graph.projection().is_stood_down(&target_b));
        }
        journal.rollback();
        assert_eq!(graph.projection(), before.projection());
        assert_eq!(graph.index.stand_down, before.index.stand_down);
        graph
            .admit_fact(resolution)
            .expect("reapplying selected branch resolution succeeds");
        assert_eq!(graph.projection(), Projection::from_graph(&graph));
    }
}

#[test]
fn membership_resolution_does_not_select_authority_lineage_branch() {
    let (bootstrap, root_key) = closed(76);
    let target_key = key(77);
    let member_key = key(78);
    let resolver_key = key(79);
    let target = device(&target_key);
    let member = device(&member_key);
    let resolver = device(&resolver_key);
    let authored = |graph: &FactGraph, signing_key: &SigningKey, body: FactBody| {
        let author = device(signing_key);
        let witness = graph.authoring_witness(&body, &author);
        sign_fact(
            content_from_witness(
                graph,
                body,
                &witness,
                std::iter::empty(),
            ),
            signing_key,
        )
        .expect("witness-derived fact signs")
    };

    let mut graph = FactGraph::from_bootstrap(&bootstrap);
    let grant = authored(
        &graph,
        &root_key,
        FactBody::RoleGrant {
            target: target.dup(),
            role: Role::Member,
        },
    );
    graph.admit_fact(grant).expect("target grant admits");
    let member_grant = authored(
        &graph,
        &root_key,
        FactBody::RoleGrant {
            target: member.dup(),
            role: Role::Member,
        },
    );
    graph.admit_fact(member_grant).expect("member grant admits");
    let proposal = authored(
        &graph,
        &root_key,
        FactBody::Evict {
            target: target.dup(),
        },
    );
    graph
        .admit_fact(proposal.dup())
        .expect("eviction proposal admits");
    let attestation = authored(
        &graph,
        &member_key,
        FactBody::Attestation {
            target: target.dup(),
            proposal: proposal.id,
            decision: AttestationDecision::Evict,
            signer: member.dup(),
            contributions: Vec::new(),
        },
    );
    graph
        .admit_fact(attestation.dup())
        .expect("member eviction attestation admits");
    let proof = authored(
        &graph,
        &root_key,
        FactBody::EvictionProof {
            target: target.dup(),
            evidence: vec![attestation.id],
        },
    );
    graph.admit_fact(proof.dup()).expect("eviction proof admits");
    let resolver_grant = authored(
        &graph,
        &root_key,
        FactBody::RoleGrant {
            target: resolver.dup(),
            role: Role::Owner,
        },
    );
    graph
        .admit_fact(resolver_grant)
        .expect("distinct Owner resolver grant admits");

    let membership = authored(
        &graph,
        &root_key,
        FactBody::MembershipAdmit {
            target: target.dup(),
        },
    );
    let evict = authored(
        &graph,
        &resolver_key,
        FactBody::Evict {
            target: target.dup(),
        },
    );
    let mut concurrent = graph.dup();
    concurrent
        .admit_fact(membership)
        .expect("concurrent membership admit admits");
    concurrent
        .admit_fact(evict.dup())
        .expect("concurrent evict admits");
    let cell = ExclusiveCell::membership(target.dup());
    let mut cited_heads = concurrent.cell_heads(&cell);
    cited_heads.sort();
    let resolution = authored(
        &concurrent,
        &resolver_key,
        FactBody::Resolution {
            cell,
            cited_heads,
            selected_head: evict.id,
        },
    );
    let before_resolution = concurrent.dup();
    let resolution_impact = concurrent.projection_impact_for_fact(&resolution);
    assert!(
        resolution_impact.1.contains(&target),
        "stand-down target remains in the selected-branch impact"
    );
    let resolution_for_rollback = resolution.dup();
    let preflight = concurrent
        .preflight_admission(&resolution_for_rollback)
        .expect("stand-down branch resolution preflights");
    let journal = concurrent
        .begin_checked(resolution_for_rollback, preflight)
        .expect("stand-down branch resolution applies");
    let journal_graph = journal.graph();
    assert_eq!(
        journal_graph.projection(),
        Projection::from_graph(journal_graph),
        "selected stand-down branch matches full projection"
    );
    journal.rollback();
    assert_eq!(concurrent.projection(), before_resolution.projection());
    assert_eq!(
        concurrent.index.stand_down, before_resolution.index.stand_down,
        "stand-down branch rollback restores index ownership"
    );
    concurrent
        .admit_fact(resolution)
        .expect("membership resolution selects Evict");

    assert_eq!(
        concurrent.evaluator().effective_membership(&target),
        Some(false),
        "membership projection follows the selected Evict branch"
    );
    assert_eq!(
        concurrent.authority_lineage(&target).selected_branch(),
        None,
        "membership resolution must not select an authority branch"
    );
    assert!(
        concurrent.fact_is_authoritative(&proof.id),
        "prior eviction evidence remains authoritative"
    );
    assert!(concurrent.projection().is_stood_down(&target));
    assert_eq!(
        concurrent.projection(),
        Projection::from_graph(&concurrent),
        "stand-down selection remains equal to the full reference"
    );
}

#[test]
fn eviction_removes_closed_session_admission() {
    let (bootstrap, root_key) = closed(45);
    let controller_key = key(46);
    let controller = device(&controller_key);
    let root = device(&root_key);
    let grant = fact(
        &bootstrap,
        &root_key,
        FactBody::RoleGrant {
            target: controller.dup(),
            role: Role::Member,
        },
        Vec::new(),
    );
    let eviction = fact(
        &bootstrap,
        &root_key,
        FactBody::Evict {
            target: controller.dup(),
        },
        vec![grant.id],
    );
    let mut graph = FactGraph::from_bootstrap(&bootstrap);
    graph.admit_fact(grant).expect("member grant admits");
    assert!(graph.evaluator().admits_closed_session(&root, &controller));
    assert_eq!(graph.evaluator().effective_membership(&controller), None);
    graph.admit_fact(eviction).expect("root eviction admits");
    let evaluator = graph.evaluator();
    assert!(!evaluator.is_conflicted(&ExclusiveCell::role(controller.dup())));
    assert_eq!(evaluator.effective_role(&controller), None);
    assert_eq!(evaluator.effective_membership(&controller), Some(false));
    assert!(!evaluator.admits_closed_session(&root, &controller));
}

#[test]
fn membership_admit_restores_membership_but_not_role() {
    let (bootstrap, root_key) = closed(57);
    let root = device(&root_key);
    let target_key = key(58);
    let target = device(&target_key);
    let grant = fact(
        &bootstrap,
        &root_key,
        FactBody::RoleGrant {
            target: target.dup(),
            role: Role::Member,
        },
        Vec::new(),
    );
    let eviction = fact(
        &bootstrap,
        &root_key,
        FactBody::Evict {
            target: target.dup(),
        },
        vec![grant.id],
    );
    let mut graph = FactGraph::from_bootstrap(&bootstrap);
    graph.admit_fact(grant).expect("initial member grant admits");
    graph.admit_fact(eviction.dup()).expect("eviction admits");
    assert_eq!(graph.evaluator().effective_membership(&target), Some(false));

    let membership_body = FactBody::MembershipAdmit {
        target: target.dup(),
    };
    let witness = graph.authoring_witness(&membership_body, &root);
    assert!(witness.parents().contains(&eviction.id));
    let membership = sign_fact(
        content_from_witness(
            &graph,
            membership_body,
            &witness,
            std::iter::empty(),
        ),
        &root_key,
    )
    .expect("owner membership admit signs");
    graph.admit_fact(membership).expect("membership admit admits");
    let evaluator = graph.evaluator();
    assert_eq!(evaluator.effective_membership(&target), Some(true));
    assert_eq!(evaluator.effective_role(&target), None);
    assert!(!evaluator.admits_closed_session(&root, &target));

    let role_body = FactBody::RoleGrant {
        target: target.dup(),
        role: Role::Member,
    };
    let role_witness = graph.authoring_witness(&role_body, &root);
    assert!(
        role_witness.parents().contains(&eviction.id),
        "role restoration must retain the evicted role-cell head"
    );
    let role = sign_fact(
        content_from_witness(
            &graph,
            role_body,
            &role_witness,
            std::iter::empty(),
        ),
        &root_key,
    )
    .expect("owner role grant signs");
    graph.admit_fact(role).expect("causal role restoration admits");
    assert!(graph.evaluator().admits_closed_session(&root, &target));
}

#[test]
fn membership_admit_rejects_self_and_open_profile_facts() {
    let (bootstrap, root_key) = closed(59);
    let target_key = key(60);
    let target = device(&target_key);
    let grant = fact(
        &bootstrap,
        &root_key,
        FactBody::RoleGrant {
            target: target.dup(),
            role: Role::Member,
        },
        Vec::new(),
    );
    let eviction = fact(
        &bootstrap,
        &root_key,
        FactBody::Evict {
            target: target.dup(),
        },
        vec![grant.id],
    );
    let mut graph = FactGraph::from_bootstrap(&bootstrap);
    graph.admit_fact(grant).expect("initial member grant admits");
    graph.admit_fact(eviction).expect("eviction admits");
    let self_body = FactBody::MembershipAdmit {
        target: target.dup(),
    };
    let self_witness = graph.authoring_witness(&self_body, &target);
    let self_admit = sign_fact(
        content_from_witness(
            &graph,
            self_body,
            &self_witness,
            std::iter::empty(),
        ),
        &target_key,
    )
    .expect("self-authored candidate signs");
    assert_eq!(
        graph.admit_fact(self_admit),
        Err(SemanticError::UnauthorizedMembershipAdmit)
    );

    let open = open_bootstrap();
    let open_key = key(61);
    let open_target = device(&key(62));
    let open_admit = fact(
        &open,
        &open_key,
        FactBody::MembershipAdmit {
            target: open_target,
        },
        Vec::new(),
    );
    let mut open_graph = FactGraph::from_bootstrap(&open);
    assert_eq!(
        open_graph.admit_fact(open_admit),
        Err(SemanticError::DomainMismatch)
    );
}

#[test]
fn evaluator_derives_decision_from_the_selected_attestation() {
    let (bootstrap, root_key) = closed(46);
    let target = device(&key(47));
    let proposal = fact(
        &bootstrap,
        &root_key,
        FactBody::RoleGrant {
            target: target.dup(),
            role: Role::Member,
        },
        Vec::new(),
    );
    let attestation = fact_with_authority_predecessors(
        &bootstrap,
        &root_key,
        FactBody::Attestation {
            target,
            proposal: proposal.id,
            decision: AttestationDecision::Approve,
            signer: device(&root_key),
            contributions: Vec::new(),
        },
        vec![proposal.id],
        &[(device(&root_key), vec![proposal.id])],
    );
    let mut graph = FactGraph::from_bootstrap(&bootstrap);
    graph.admit_fact(proposal.dup()).expect("proposal admits");
    graph.admit_fact(attestation).expect("attestation admits");
    assert_eq!(
        graph.evaluator().effective_decision(&proposal.id),
        Some(AttestationDecision::Approve)
    );
}

#[test]
fn open_profile_has_no_durable_fact_domain() {
    let open = open_bootstrap();
    let participant_key = key(48);
    let participant = device(&participant_key);
    let fact = fact(
        &open,
        &participant_key,
        FactBody::RoleGrant {
            target: participant,
            role: Role::Member,
        },
        Vec::new(),
    );
    assert_eq!(
        FactGraph::from_bootstrap(&open).admit_fact(fact),
        Err(SemanticError::DomainMismatch)
    );
}

#[test]
fn admission_budget_refuses_n_plus_one_but_replays_duplicates() {
    let (bootstrap, root_key) = closed(62);
    let policy = SemanticAdmissionPolicy {
        max_admitted_facts: 1,
        ..SemanticAdmissionPolicy::default()
    };
    let mut graph = FactGraph::from_bootstrap_with_policy(&bootstrap, policy);
    let first = fact(
        &bootstrap,
        &root_key,
        FactBody::RoleGrant {
            target: device(&key(63)),
            role: Role::Member,
        },
        Vec::new(),
    );
    assert_eq!(graph.admit_fact(first.dup()), Ok(Admission::Inserted));
    assert_eq!(graph.admit_fact(first), Ok(Admission::AlreadyPresent));
    let second = fact(
        &bootstrap,
        &root_key,
        FactBody::RoleGrant {
            target: device(&key(64)),
            role: Role::Member,
        },
        Vec::new(),
    );
    assert!(matches!(
        graph.admit_fact(second),
        Err(SemanticError::CapacityExceeded {
            dimension: SemanticCapacityDimension::AdmittedFacts,
            ..
        })
    ));
    assert_eq!(graph.len(), 1);
}

#[test]
fn dependency_waiters_wake_only_after_their_parent_arrives() {
    let (bootstrap, root_key) = closed(65);
    let policy = SemanticAdmissionPolicy {
        max_ready_batch: 1,
        ..SemanticAdmissionPolicy::default()
    };
    let mut graph = FactGraph::from_bootstrap_with_policy(&bootstrap, policy);
    let parent = fact(
        &bootstrap,
        &root_key,
        FactBody::RoleGrant {
            target: device(&key(66)),
            role: Role::Member,
        },
        Vec::new(),
    );
    let child = fact(
        &bootstrap,
        &root_key,
        FactBody::RoleGrant {
            target: device(&key(66)),
            role: Role::Controller,
        },
        vec![parent.id],
    );
    assert!(matches!(
        graph.admit_fact(child.dup()),
        Ok(Admission::Quarantined { .. })
    ));
    assert!(graph.retry_quarantined().unwrap().is_empty());
    graph.admit_fact(parent).expect("parent admits");
    assert_eq!(graph.retry_quarantined().unwrap(), vec![child.id]);
    assert!(graph.get(&child.id).is_some());
}

#[test]
fn admitted_parent_is_ready_but_absent_parent_quarantines_exactly() {
    let (bootstrap, root_key) = closed(66);
    let target = device(&key(67));
    let parent = fact(
        &bootstrap,
        &root_key,
        FactBody::RoleGrant {
            target: target.dup(),
            role: Role::Member,
        },
        Vec::new(),
    );
    let child = fact(
        &bootstrap,
        &root_key,
        FactBody::RoleGrant {
            target: target.dup(),
            role: Role::Controller,
        },
        vec![parent.id],
    );
    let mut graph = FactGraph::from_bootstrap(&bootstrap);
    let child_cost_before = graph.fact_cost(&child).expect("child cost computes");
    assert_eq!(child_cost_before.missing, vec![parent.id]);
    assert_eq!(
        graph.admit_fact(parent.dup()),
        Ok(Admission::Inserted),
        "the root parent admits first"
    );

    let child_cost_after = graph.fact_cost(&child).expect("child cost recomputes");
    assert!(child_cost_after.missing.is_empty());
    assert_eq!(
        graph.admit_fact(child),
        Ok(Admission::Inserted),
        "an admitted causal parent is not quarantined"
    );
    assert_eq!(
        graph.ledger.edges,
        FactGraph::from_bootstrap(&bootstrap)
            .fact_cost(&parent)
            .expect("parent cost computes")
            .edges
            + child_cost_after.edges,
        "dependency accounting retains all canonical edges"
    );

    let absent = FactId::from_bytes([0xee; 32]);
    let missing_child = fact(
        &bootstrap,
        &root_key,
        FactBody::RoleGrant {
            target: device(&key(68)),
            role: Role::Member,
        },
        vec![absent],
    );
    let missing_cost = graph
        .fact_cost(&missing_child)
        .expect("missing-child cost computes");
    assert_eq!(missing_cost.missing, vec![absent]);
    assert_eq!(
        graph.admit_fact(missing_child),
        Ok(Admission::Quarantined {
            missing: vec![absent]
        }),
        "a truly absent dependency remains quarantined"
    );
    assert_eq!(
        graph.quarantine.edges, missing_cost.edges,
        "quarantine accounting retains all canonical edges"
    );
}

#[test]
fn retained_author_budget_spans_quarantine_and_promotion() {
    let (bootstrap, root_key) = closed(67);
    let target = device(&key(68));
    let parent = fact(
        &bootstrap,
        &root_key,
        FactBody::RoleGrant {
            target: target.dup(),
            role: Role::Member,
        },
        Vec::new(),
    );
    let child = fact(
        &bootstrap,
        &root_key,
        FactBody::Attestation {
            target: target.dup(),
            proposal: parent.id,
            decision: AttestationDecision::Approve,
            signer: device(&root_key),
            contributions: Vec::new(),
        },
        vec![parent.id],
    );
    let policy = SemanticAdmissionPolicy {
        max_retained_facts_per_author: 2,
        ..SemanticAdmissionPolicy::default()
    };
    let mut graph = FactGraph::from_bootstrap_with_policy(&bootstrap, policy);
    assert!(matches!(
        graph.admit_fact(child.dup()),
        Ok(Admission::Quarantined { .. })
    ));
    graph.admit_fact(parent).expect("parent admits");
    assert_eq!(graph.retry_quarantined().unwrap(), vec![child.id]);

    let third = fact(
        &bootstrap,
        &root_key,
        FactBody::Attestation {
            target,
            proposal: child.id,
            decision: AttestationDecision::Reject,
            signer: device(&root_key),
            contributions: Vec::new(),
        },
        vec![child.id],
    );
    assert!(matches!(
        graph.admit_fact(third),
        Err(SemanticError::CapacityExceeded {
            dimension: SemanticCapacityDimension::RetainedFactsPerAuthor,
            ..
        })
    ));
}

#[test]
fn semantic_noops_and_ineligible_quarantine_do_not_retain() {
    let (bootstrap, root_key) = closed(69);
    let target = device(&key(70));
    let grant = fact(
        &bootstrap,
        &root_key,
        FactBody::RoleGrant {
            target: target.dup(),
            role: Role::Member,
        },
        Vec::new(),
    );
    let mut graph = FactGraph::from_bootstrap(&bootstrap);
    graph.admit_fact(grant.dup()).expect("grant admits");
    let same_effect = fact(
        &bootstrap,
        &root_key,
        FactBody::RoleGrant {
            target,
            role: Role::Member,
        },
        vec![grant.id],
    );
    assert_eq!(
        graph.admit_fact(same_effect),
        Err(SemanticError::NoOp("role grant already effective"))
    );

    let unknown_key = key(71);
    let missing = fact(
        &bootstrap,
        &root_key,
        FactBody::RoleGrant {
            target: device(&key(72)),
            role: Role::Member,
        },
        Vec::new(),
    );
    let untrusted = fact(
        &bootstrap,
        &unknown_key,
        FactBody::RoleGrant {
            target: device(&key(73)),
            role: Role::Member,
        },
        vec![missing.id],
    );
    assert_eq!(
        graph.admit_fact(untrusted),
        Err(SemanticError::QuarantineSignerNotEligible)
    );
    assert_eq!(graph.quarantined().len(), 0);
}

fn signed_membership_maxima(
    facts: &OrdMap<FactId, SignedFact>,
    subject: &DeviceId,
) -> BTreeSet<FactId> {
    // Independent oracle: no maintained heads, selector summaries,
    // graph.is_ancestor, or maintained head-removal predicate.
    let cell = ExclusiveCell::membership(subject.dup());
    let members = facts
        .values()
        .filter(|fact| fact.content.body.exclusive_cells().contains(&cell))
        .map(|fact| fact.id)
        .collect::<BTreeSet<_>>();
    members
        .iter()
        .copied()
        .filter(|candidate| {
            !members
                .iter()
                .filter(|other| *other != candidate)
                .any(|other| {
                    let mut pending = dependencies(facts.get(other).unwrap());
                    let mut seen = BTreeSet::new();
                    while let Some(id) = pending.pop() {
                        if id == *candidate {
                            return true;
                        }
                        if seen.insert(id) {
                            pending.extend(dependencies(
                                facts
                                    .get(&id)
                                    .expect("oracle owns complete signed ancestry"),
                            ));
                        }
                    }
                    false
                })
        })
        .collect()
}

fn assert_historical_membership_boundary(
    graph: &FactGraph,
    complete: &FactGraph,
    subject: &DeviceId,
    old_membership: FactId,
    fresh_membership: FactId,
    expected_value: Option<FactId>,
    fresh_authoritative: bool,
) {
    let cell = ExclusiveCell::membership(subject.dup());
    let raw = signed_membership_maxima(&complete.facts, subject);
    assert_eq!(
        graph
            .raw_cell_heads(&cell)
            .into_iter()
            .collect::<BTreeSet<_>>(),
        raw
    );
    assert!(
        graph.get(&old_membership).is_some(),
        "old signed loser remains a retained selector witness"
    );
    assert!(!graph.fact_is_authoritative(&old_membership));
    if complete.get(&fresh_membership).is_some() {
        assert!(graph.get(&fresh_membership).is_some());
        assert_eq!(
            graph.fact_is_authoritative(&fresh_membership),
            fresh_authoritative
        );
        assert_eq!(raw, BTreeSet::from([fresh_membership]));
    }
    let full = Projection::from_graph(complete);
    assert_eq!(full.value(&cell), expected_value);
    assert_eq!(graph.projection(), full);
    assert_eq!(Projection::from_graph(graph), full);
    assert_eq!(
        graph.ledger.index_bytes,
        graph.logical_index_residency_bytes().unwrap()
    );
}

#[test]
fn historical_membership_exclusion_survives_later_selectors_and_cold_journals() {
    let (bootstrap, root_key) = closed(184);
    let controller_key = key(185);
    let other_owner_key = key(186);
    let controller = device(&controller_key);
    let policy = SemanticAdmissionPolicy {
        max_hot_history_facts: 4,
        ..SemanticAdmissionPolicy::default()
    };
    let mut seed = FactGraph::from_bootstrap_with_policy(&bootstrap, policy);
    for ordinal in 0..8 {
        let precursor = witnessed_fact(
            &seed,
            &root_key,
            FactBody::RoleGrant {
                target: device(&key(187)),
                role: if ordinal % 2 == 0 {
                    Role::Member
                } else {
                    Role::Controller
                },
            },
        );
        assert_eq!(seed.admit_fact(precursor), Ok(Admission::Inserted));
    }
    let owner = witnessed_fact(
        &seed,
        &root_key,
        FactBody::RoleGrant {
            target: device(&other_owner_key),
            role: Role::Owner,
        },
    );
    assert_eq!(seed.admit_fact(owner), Ok(Admission::Inserted));
    let grant = witnessed_fact(
        &seed,
        &root_key,
        FactBody::RoleGrant {
            target: controller.dup(),
            role: Role::Controller,
        },
    );
    assert_eq!(seed.admit_fact(grant), Ok(Admission::Inserted));
    let m = witnessed_fact(
        &seed,
        &controller_key,
        FactBody::MembershipAdmit {
            target: controller.dup(),
        },
    );
    let v = witnessed_fact(
        &seed,
        &root_key,
        FactBody::Evict {
            target: controller.dup(),
        },
    );
    let mut fork = seed.dup();
    assert_eq!(fork.admit_fact(m.dup()), Ok(Admission::Inserted));
    assert_eq!(fork.admit_fact(v.dup()), Ok(Admission::Inserted));
    let cited = vec![m.id, v.id]
        .into_iter()
        .collect::<BTreeSet<_>>()
        .into_iter()
        .collect::<Vec<_>>();
    let s = witnessed_fact(
        &fork,
        &root_key,
        FactBody::AuthorityLineageResolution {
            subject: controller.dup(),
            cited_heads: cited.dup(),
            selected_head: v.id,
        },
    );
    let alternative = witnessed_fact(
        &fork,
        &other_owner_key,
        FactBody::AuthorityLineageResolution {
            subject: controller.dup(),
            cited_heads: cited,
            selected_head: m.id,
        },
    );
    let mut selected = fork.dup();
    assert_eq!(selected.admit_fact(s.dup()), Ok(Admission::Inserted));
    let n = witnessed_fact(
        &selected,
        &root_key,
        FactBody::RoleGrant {
            target: controller.dup(),
            role: Role::Owner,
        },
    );
    assert_eq!(selected.admit_fact(n.dup()), Ok(Admission::Inserted));
    let q = witnessed_fact(
        &selected,
        &controller_key,
        FactBody::MembershipAdmit {
            target: controller.dup(),
        },
    );
    let r = witnessed_fact(
        &selected,
        &root_key,
        FactBody::RoleRevoke {
            target: controller.dup(),
        },
    );
    assert!(
        !dependencies(&q).contains(&m.id),
        "same public witness hides the losing raw M head"
    );
    assert!(dependencies(&q).contains(&v.id));
    assert!(dependencies(&q).contains(&n.id));
    assert_historical_membership_boundary(
        &selected,
        &selected,
        &controller,
        m.id,
        q.id,
        Some(v.id),
        false,
    );

    let mut after_q = selected.dup();
    let old_bytes = after_q.ledger.index_bytes;
    let priced = after_q.exact_index_residency_delta(&q).unwrap();
    let predicted = after_q
        .apply_index_residency_delta(old_bytes, priced)
        .unwrap();
    assert_eq!(after_q.admit_fact(q.dup()), Ok(Admission::Inserted));
    assert_eq!(
        after_q.ledger.index_bytes, predicted,
        "hidden-head removal is priced before mutation"
    );
    assert_historical_membership_boundary(
        &after_q,
        &after_q,
        &controller,
        m.id,
        q.id,
        Some(q.id),
        true,
    );
    let mut after_r = after_q.dup();
    assert_eq!(after_r.admit_fact(r.dup()), Ok(Admission::Inserted));
    assert_historical_membership_boundary(
        &after_r,
        &after_r,
        &controller,
        m.id,
        q.id,
        None,
        false,
    );
    let t2 = witnessed_fact(
        &after_r,
        &root_key,
        FactBody::AuthorityLineageResolution {
            subject: controller.dup(),
            cited_heads: vec![q.id, r.id]
                .into_iter()
                .collect::<BTreeSet<_>>()
                .into_iter()
                .collect(),
            selected_head: r.id,
        },
    );
    let mut after_t2 = after_r.dup();
    assert_eq!(after_t2.admit_fact(t2.dup()), Ok(Admission::Inserted));
    assert_historical_membership_boundary(
        &after_t2,
        &after_t2,
        &controller,
        m.id,
        q.id,
        None,
        false,
    );
    let u2 = witnessed_fact(
        &after_t2,
        &root_key,
        FactBody::RoleGrant {
            target: controller.dup(),
            role: Role::Owner,
        },
    );
    let mut after_u2 = after_t2.dup();
    assert_eq!(after_u2.admit_fact(u2.dup()), Ok(Admission::Inserted));
    assert_historical_membership_boundary(
        &after_u2,
        &after_u2,
        &controller,
        m.id,
        q.id,
        None,
        false,
    );
    let future = witnessed_fact(
        &after_u2,
        &controller_key,
        FactBody::RoleGrant {
            target: device(&key(188)),
            role: Role::Member,
        },
    );
    let mut final_graph = after_u2.dup();
    assert_eq!(final_graph.admit_fact(future.dup()), Ok(Admission::Inserted));
    assert_historical_membership_boundary(
        &final_graph,
        &final_graph,
        &controller,
        m.id,
        q.id,
        None,
        false,
    );

    // Both M/V and Q/R schedules use these exact signed bodies. The
    // independent raw oracle must agree before any checkpoint is made.
    for reverse_old in [false, true] {
        for reverse_new in [false, true] {
            let mut graph = seed.dup();
            for fact in if reverse_old {
                [v.dup(), m.dup()]
            } else {
                [m.dup(), v.dup()]
            } {
                assert_eq!(graph.admit_fact(fact), Ok(Admission::Inserted));
            }
            assert_eq!(graph.admit_fact(s.dup()), Ok(Admission::Inserted));
            assert_eq!(graph.admit_fact(n.dup()), Ok(Admission::Inserted));
            assert_historical_membership_boundary(
                &graph,
                &selected,
                &controller,
                m.id,
                q.id,
                Some(v.id),
                false,
            );
            for fact in if reverse_new {
                [r.dup(), q.dup()]
            } else {
                [q.dup(), r.dup()]
            } {
                assert_eq!(graph.admit_fact(fact), Ok(Admission::Inserted));
            }
            assert_historical_membership_boundary(
                &graph,
                &after_r,
                &controller,
                m.id,
                q.id,
                None,
                false,
            );
            for (fact, complete) in
                [(&t2, &after_t2), (&u2, &after_u2), (&future, &final_graph)]
            {
                assert_eq!(graph.admit_fact(fact.dup()), Ok(Admission::Inserted));
                assert_historical_membership_boundary(
                    &graph,
                    complete,
                    &controller,
                    m.id,
                    q.id,
                    None,
                    false,
                );
            }
            assert_eq!(graph.facts, final_graph.facts);
        }
    }

    for (base, candidate, complete, value, q_allowed) in [
        (&selected, &q, &after_q, Some(q.id), true),
        (&after_q, &r, &after_r, None, false),
        (&after_r, &t2, &after_t2, None, false),
        (&after_t2, &u2, &after_u2, None, false),
        (&after_u2, &future, &final_graph, None, false),
    ] {
        let mut rebuilt = complete.dup();
        rebuilt.rebuild_indexes();
        assert_historical_membership_boundary(
            &rebuilt,
            complete,
            &controller,
            m.id,
            q.id,
            value,
            q_allowed,
        );
        assert_eq!(rebuilt.index.provenance, complete.index.provenance);
        for cold in [false, true] {
            let history = base.facts.values().map(|x| x.dup()).collect::<Vec<_>>();
            let mut graph = base.dup();
            if cold {
                graph.retire_cold_history();
                assert!(graph.facts.len() < history.len());
            }
            graph.projection();
            let before = graph_snapshot(&graph);
            for terminal in 0..3 {
                let journal = if cold {
                    graph.begin_with(candidate.dup(), history.dup())
                } else {
                    graph.begin(candidate.dup())
                }
                .expect("same signed transition journals");
                assert_eq!(journal.admission(), &Admission::Inserted);
                assert_eq!(journal.delta().rows().len(), 1);
                assert_eq!(journal.delta().rows()[0].fact().id, candidate.id);
                assert!(journal.delta().removed().is_empty());
                assert_historical_membership_boundary(
                    journal.graph(),
                    complete,
                    &controller,
                    m.id,
                    q.id,
                    value,
                    q_allowed,
                );
                match terminal {
                    0 => journal.rollback(),
                    1 => drop(journal),
                    _ => journal.commit(),
                }
                if terminal < 2 {
                    assert_graph_state_eq(&graph, &before);
                }
            }
            assert_historical_membership_boundary(
                &graph,
                complete,
                &controller,
                m.id,
                q.id,
                value,
                q_allowed,
            );
            if cold {
                let canonical = complete.facts.values().map(|x| x.dup()).collect::<Vec<_>>();
                let restored = restore_with(
                    &bootstrap,
                    SemanticAdmissionPolicy {
                        max_hot_history_facts: 4,
                        ..Default::default()
                    },
                    graph.live_checkpoint(),
                    |_| Ok(canonical.dup()),
                )
                .expect("pristine cold provenance validates against complete signed history");
                assert_historical_membership_boundary(
                    &restored,
                    complete,
                    &controller,
                    m.id,
                    q.id,
                    value,
                    q_allowed,
                );
            }
        }
    }
    for cold in [false, true] {
        let mut graph = selected.dup();
        let history = graph.facts.values().map(|x| x.dup()).collect::<Vec<_>>();
        if cold {
            graph.retire_cold_history();
            assert!(graph.facts.len() < history.len());
        }
        graph.projection();
        let before = graph_snapshot(&graph);
        for terminal in 0..3 {
            let inputs = vec![q.dup(), r.dup(), t2.dup(), u2.dup(), future.dup()];
            let journal = graph
                .begin_batch_with(
                    inputs.dup(),
                    if cold { history.dup() } else { Vec::new() },
                )
                .expect("whole two-selector lifecycle fits one bounded group");
            assert_eq!(journal.results().len(), inputs.len());
            for (result, input) in journal.results().iter().zip(&inputs) {
                assert!(
                    matches!(result.outcome(), AggregateAdmissionOutcome::Inserted { fact_id } if *fact_id == input.id)
                );
            }
            assert_eq!(journal.delta().rows().len(), inputs.len());
            assert!(journal
                .delta()
                .rows()
                .iter()
                .all(|row| row.status() == SemanticFactStatus::Admitted));
            assert!(journal.delta().removed().is_empty());
            assert_historical_membership_boundary(
                journal.graph(),
                &final_graph,
                &controller,
                m.id,
                q.id,
                None,
                false,
            );
            match terminal {
                0 => journal.rollback(),
                1 => drop(journal),
                _ => journal.commit(),
            }
            if terminal < 2 {
                assert_graph_state_eq(&graph, &before);
            }
        }
        assert_historical_membership_boundary(
            &graph,
            &final_graph,
            &controller,
            m.id,
            q.id,
            None,
            false,
        );
    }

    // Balance the serialized index charge as well as omitting old S, so
    // this rejection tests canonical predecessor-context completeness,
    // not merely the earlier structural byte-accounting guard.
    let mut omitted = after_u2.dup();
    for id in omitted.index.provenance.keys() {
        let mut row = omitted.index.provenance.remove(&id).unwrap();
        row.remove(&s.id);
        if !row.is_empty() {
            omitted.index.provenance.insert(id, row);
        }
    }
    alter(&mut omitted.index.selectors, controller, |selections| {
        assert!(selections.remove(&Selection {
            selector: s.id,
            selected: v.id,
        }));
    });
    omitted.ledger.index_bytes = omitted.logical_index_residency_bytes().unwrap();
    let canonical = after_u2.facts.values().map(|x| x.dup()).collect::<Vec<_>>();
    let result = restore_with(
        &bootstrap,
        SemanticAdmissionPolicy {
            max_hot_history_facts: 4,
            ..Default::default()
        },
        omitted.live_checkpoint(),
        |_| Ok(canonical.dup()),
    );
    assert!(
        matches!(result, Err(error) if error == "checkpoint omits required selector provenance")
    );

    // A later selector can choose between competing selector bodies.
    // The losing selector's exclusion must NOT veto the selected one.
    let mut competitors = fork.dup();
    assert_eq!(competitors.admit_fact(s.dup()), Ok(Admission::Inserted));
    assert_eq!(
        competitors.admit_fact(alternative.dup()),
        Ok(Admission::Inserted)
    );
    assert_eq!(
        competitors
            .maximal_typed_selectors(
                &controller,
                &competitors.authority_lineage(&controller).heads().to_vec()
            )
            .len(),
        2
    );
    let winner = witnessed_fact(
        &competitors,
        &root_key,
        FactBody::AuthorityLineageResolution {
            subject: controller.dup(),
            cited_heads: vec![s.id, alternative.id]
                .into_iter()
                .collect::<BTreeSet<_>>()
                .into_iter()
                .collect(),
            selected_head: s.id,
        },
    );
    let role_cell = ExclusiveCell::role(controller.dup());
    let membership_cell = ExclusiveCell::membership(controller.dup());
    let before_winner_projection = Projection::from_graph(&competitors);
    assert_eq!(competitors.projection(), before_winner_projection);
    assert_eq!(before_winner_projection.value(&role_cell), None);
    assert!(
        matches!(before_winner_projection.cell(&membership_cell),
        Some(CellProjection::Conflict(ids))
            if ids.iter().copied().collect::<BTreeSet<_>>() == BTreeSet::from([m.id, v.id]))
    );
    let (impact_cells, impact_subjects) = competitors.projection_impact_for_fact(&winner);
    assert!(impact_cells.contains(&role_cell));
    assert!(impact_cells.contains(&membership_cell));
    assert!(impact_subjects.contains(&controller));
    let before_winner = graph_snapshot(&competitors);
    assert_eq!(competitors.admit_fact(winner.dup()), Ok(Admission::Inserted));
    let relevant = competitors
        .relevant_typed_selectors(
            &controller,
            &competitors.authority_lineage(&controller).heads().to_vec(),
        )
        .expect("signed selector ancestry is acyclic");
    assert!(relevant.contains(&s.id));
    assert!(relevant.contains(&winner.id));
    assert!(!relevant.contains(&alternative.id));
    assert_historical_membership_boundary(
        &competitors,
        &competitors,
        &controller,
        m.id,
        q.id,
        Some(v.id),
        false,
    );
    let final_projection = Projection::from_graph(&competitors);
    assert_eq!(final_projection.value(&role_cell), Some(v.id));
    assert_eq!(final_projection.value(&membership_cell), Some(v.id));
    let expected_cells = BTreeMap::from([
        (
            role_cell.dup(),
            Some(CellProjection::Value(v.id)),
        ),
        (
            membership_cell.dup(),
            Some(CellProjection::Value(v.id)),
        ),
    ]);
    // Winner changes exactly these two entries, not unrelated roles.
    let assert_delta = |delta: &ProjectionDelta,
                        base: &Projection| {
        assert_eq!(changed_cells(delta), expected_cells);
        assert!(delta.stand_down.is_empty());
        let mut changed = base.dup();
        for cell in delta.cells.keys() {
            changed.cells.remove(&cell);
            if let Some(value) = &delta.cells.value(&cell).held {
                changed.cells.insert(cell, value.duplicate());
            }
        }
        assert_eq!(changed, final_projection);
    };
    for reverse in [false, true] {
        let selectors = if reverse {
            vec![alternative.dup(), s.dup()]
        } else {
            vec![s.dup(), alternative.dup()]
        };
        let mut direct = fork.dup();
        for selector in &selectors {
            assert_eq!(direct.admit_fact(selector.dup()), Ok(Admission::Inserted));
            assert_eq!(direct.projection(), Projection::from_graph(&direct));
        }
        assert_eq!(direct.projection(), before_winner_projection);
        assert_eq!(direct.admit_fact(winner.dup()), Ok(Admission::Inserted));
        assert_eq!(direct.facts, competitors.facts);
        assert_historical_membership_boundary(
            &direct,
            &competitors,
            &controller,
            m.id,
            q.id,
            Some(v.id),
            false,
        );

        let mut ordered_before = fork.dup();
        for selector in &selectors {
            assert_eq!(
                ordered_before.admit_fact(selector.dup()),
                Ok(Admission::Inserted)
            );
        }
        assert_eq!(ordered_before.facts, before_winner.facts);
        for cold in [false, true] {
            let history = ordered_before.facts.values().map(|x| x.dup()).collect::<Vec<_>>();
            let mut single = ordered_before.dup();
            if cold {
                single.retire_cold_history();
                assert!(single.facts.len() < history.len());
            }
            assert_eq!(single.projection(), before_winner_projection);
            let baseline = graph_snapshot(&single);
            for terminal in 0..3 {
                let journal = if cold {
                    single.begin_with(winner.dup(), history.dup())
                } else {
                    single.begin(winner.dup())
                }
                .expect("winner single transaction has complete ancestor impact");
                assert_eq!(journal.admission(), &Admission::Inserted);
                assert_eq!(journal.delta().rows().len(), 1);
                assert_eq!(journal.delta().rows()[0].fact().id, winner.id);
                assert_eq!(
                    journal.delta().rows()[0].status(),
                    SemanticFactStatus::Admitted
                );
                assert!(journal.delta().promoted().is_empty());
                assert!(journal.delta().removed().is_empty());
                assert!(journal.delta().affected_cells().contains(&role_cell));
                assert!(journal.delta().affected_cells().contains(&membership_cell));
                let delta = journal
                    .delta()
                    .projection_delta()
                    .expect("winner publishes both changed cell entries");
                assert_delta(delta, &before_winner_projection);
                assert_eq!(delta.base_generation, baseline.fence.generation);
                assert_eq!(delta.generation, journal.graph().fence.generation);
                assert_historical_membership_boundary(
                    journal.graph(),
                    &competitors,
                    &controller,
                    m.id,
                    q.id,
                    Some(v.id),
                    false,
                );
                match terminal {
                    0 => journal.rollback(),
                    1 => drop(journal),
                    _ => journal.commit(),
                }
                if terminal < 2 {
                    assert_graph_state_eq(&single, &baseline);
                }
            }
            assert_historical_membership_boundary(
                &single,
                &competitors,
                &controller,
                m.id,
                q.id,
                Some(v.id),
                false,
            );
            assert_eq!(single.len(), competitors.len());

            // All three typed selectors are absent during outer
            // preplanning. The common M/V participants already exist.
            let mut aggregate = fork.dup();
            let history = aggregate.facts.values().map(|x| x.dup()).collect::<Vec<_>>();
            if cold {
                aggregate.retire_cold_history();
                assert!(aggregate.facts.len() < history.len());
            }
            let aggregate_projection = aggregate.projection();
            let baseline = graph_snapshot(&aggregate);
            for terminal in 0..3 {
                let mut inputs = selectors.dup();
                inputs.push(winner.dup());
                let journal = aggregate
                    .begin_batch_with(
                        inputs.dup(),
                        if cold { history.dup() } else { Vec::new() },
                    )
                    .expect(
                        "selector batch captures ancestor preimages before its first input",
                    );
                assert_eq!(journal.results().len(), 3);
                for (result, input) in journal.results().iter().zip(&inputs) {
                    assert!(
                        matches!(result.outcome(), AggregateAdmissionOutcome::Inserted { fact_id } if *fact_id == input.id)
                    );
                }
                assert_eq!(journal.delta().rows().len(), 3);
                assert_eq!(
                    journal
                        .delta()
                        .rows()
                        .iter()
                        .map(|row| row.fact().id)
                        .collect::<BTreeSet<_>>(),
                    inputs.iter().map(|fact| fact.id).collect::<BTreeSet<_>>()
                );
                assert!(journal
                    .delta()
                    .rows()
                    .iter()
                    .all(|row| row.status() == SemanticFactStatus::Admitted));
                assert!(journal.delta().promoted().is_empty());
                assert!(journal.delta().removed().is_empty());
                // Per-input records attribute sparse cell changes while
                // the group defers commitment rebuilding. Only the
                // normalized aggregate is a durable root boundary.
                let item_delta = journal.results()[2]
                    .delta()
                    .projection_delta()
                    .expect("winner per-input delta");
                assert_eq!(changed_cells(item_delta), expected_cells);
                assert!(item_delta.stand_down.is_empty());
                assert_eq!(item_delta.base_generation, baseline.fence.generation + 2);
                assert_eq!(item_delta.generation, baseline.fence.generation + 3);
                let delta = journal
                    .delta()
                    .projection_delta()
                    .expect("normalized aggregate projection delta");
                assert_delta(delta, &aggregate_projection);
                assert_eq!(delta.base_generation, baseline.fence.generation);
                assert_eq!(delta.generation, journal.graph().fence.generation);
                assert_historical_membership_boundary(
                    journal.graph(),
                    &competitors,
                    &controller,
                    m.id,
                    q.id,
                    Some(v.id),
                    false,
                );
                match terminal {
                    0 => journal.rollback(),
                    1 => drop(journal),
                    _ => journal.commit(),
                }
                if terminal < 2 {
                    assert_graph_state_eq(&aggregate, &baseline);
                }
            }
            assert_historical_membership_boundary(
                &aggregate,
                &competitors,
                &controller,
                m.id,
                q.id,
                Some(v.id),
                false,
            );
            assert_eq!(aggregate.len(), competitors.len());
        }
    }
}

fn assert_candidate_noop_projection(graph: &FactGraph, expected: &Projection) {
    let full = Projection::from_graph(graph);
    assert_eq!(&full, expected);
    assert_eq!(graph.projection(), full);
}

fn assert_intrinsic_noop_unchanged(
    base: &FactGraph,
    candidate: &SignedFact,
    operation: &'static str,
) {
    candidate
        .verify()
        .expect("intrinsic refusal has a genuine signature");
    let mut graph = base.dup();
    graph.projection();
    let before = graph_snapshot(&graph);
    assert!(matches!(graph.preflight_admission(candidate),
        Err(SemanticError::NoOp(reason)) if reason == operation));
    assert_graph_state_eq(&graph, &before);
    assert_eq!(
        graph.admit_fact(candidate.dup()),
        Err(SemanticError::NoOp(operation))
    );
    assert_graph_state_eq(&graph, &before);
    assert!(matches!(graph.begin(candidate.dup()),
        Err(SemanticError::NoOp(reason)) if reason == operation));
    assert_graph_state_eq(&graph, &before);
    let journal = graph
        .begin_batch(vec![candidate.dup()])
        .expect("input-local intrinsic refusal is attributed, not retained");
    assert!(matches!(journal.results()[0].outcome(),
        AggregateAdmissionOutcome::Refused { fact_id, error: SemanticError::NoOp(reason) }
            if *fact_id == candidate.id && *reason == operation));
    assert!(journal.delta().rows().is_empty());
    assert!(journal.delta().promoted().is_empty());
    assert!(journal.delta().removed().is_empty());
    journal.commit();
    assert_graph_state_eq(&graph, &before);

    let history = base.facts.values().map(|x| x.dup()).collect::<Vec<_>>();
    graph.retire_cold_history();
    assert!(
        graph.facts.len() < history.len(),
        "refusal really attaches retired history"
    );
    let cold_before = graph_snapshot(&graph);
    assert!(
        matches!(graph.begin_with(candidate.dup(), history),
        Err(SemanticError::NoOp(reason)) if reason == operation)
    );
    assert_graph_state_eq(&graph, &cold_before);
}

#[test]
fn candidate_relative_noops_preserve_concurrent_role_operations_across_journals() {
    // The very same signed bodies exercise grant/grant, revoke/revoke,
    // and competing ordinary resolutions. Their common support is also
    // delivered late, so the shared helper is exercised by ready retry.
    let (bootstrap, root_key) = closed(201);
    let left_key = key(202);
    let right_key = key(203);
    let target = device(&key(204));
    let policy = SemanticAdmissionPolicy {
        max_hot_history_facts: 4,
        ..SemanticAdmissionPolicy::default()
    };
    let mut eligible = FactGraph::from_bootstrap_with_policy(&bootstrap, policy);
    for ordinal in 0..8 {
        let support = witnessed_fact(
            &eligible,
            &root_key,
            FactBody::RoleGrant {
                target: device(&key(205)),
                role: if ordinal % 2 == 0 {
                    Role::Member
                } else {
                    Role::Controller
                },
            },
        );
        assert_eq!(eligible.admit_fact(support), Ok(Admission::Inserted));
    }
    for signer in [&left_key, &right_key] {
        let support = witnessed_fact(
            &eligible,
            &root_key,
            FactBody::RoleGrant {
                target: device(signer),
                role: Role::Controller,
            },
        );
        assert_eq!(eligible.admit_fact(support), Ok(Admission::Inserted));
    }
    for kind in 0..3 {
        let mut base = eligible.dup();
        let supports = if kind == 2 {
            let left = witnessed_fact(
                &base,
                &left_key,
                FactBody::RoleGrant {
                    target: target.dup(),
                    role: Role::Member,
                },
            );
            let right = witnessed_fact(
                &base,
                &right_key,
                FactBody::RoleGrant {
                    target: target.dup(),
                    role: Role::Controller,
                },
            );
            vec![left, right]
        } else {
            vec![witnessed_fact(
                &base,
                &root_key,
                FactBody::RoleGrant {
                    target: if kind == 0 {
                        device(&key(206))
                    } else {
                        target.dup()
                    },
                    role: Role::Member,
                },
            )]
        };
        for support in &supports {
            support
                .verify()
                .expect("same dependency-ordered signed support verifies");
            assert_eq!(base.admit_fact(support.dup()), Ok(Admission::Inserted));
        }
        let heads = base.raw_cell_heads(&ExclusiveCell::role(target.dup()));
        if kind == 2 {
            assert_eq!(heads.len(), 2);
            assert!(base
                .evaluator()
                .is_conflicted(&ExclusiveCell::role(target.dup())));
        }
        let mut pair = Vec::new();
        for (ordinal, signer) in [&left_key, &right_key].into_iter().enumerate() {
            let body = match kind {
                0 => FactBody::RoleGrant {
                    target: target.dup(),
                    role: Role::Member,
                },
                1 => FactBody::RoleRevoke {
                    target: target.dup(),
                },
                _ => FactBody::Resolution {
                    cell: ExclusiveCell::role(target.dup()),
                    cited_heads: heads.dup(),
                    selected_head: heads[ordinal],
                },
            };
            let witness = base.authoring_witness(&body, &device(signer));
            let signed = sign_fact(
                content_from_witness(
                    &base,
                    body,
                    &witness,
                    supports.iter().map(|fact| fact.id),
                ),
                signer,
            )
            .expect("complete canonical witness signs");
            signed.verify().expect("concurrent operation verifies");
            let mut independent = base.dup();
            assert_eq!(
                independent.admit_fact(signed.dup()),
                Ok(Admission::Inserted),
                "kind={kind} independently valid candidate={ordinal}"
            );
            assert_candidate_noop_projection(
                &independent,
                &Projection::from_graph(&independent),
            );
            pair.push(signed);
        }
        assert_ne!(pair[0].id, pair[1].id);
        let mut expected_ids = base.facts.keys().into_iter().collect::<BTreeSet<_>>();
        expected_ids.extend(pair.iter().map(|fact| fact.id));
        let mut reference = base.dup();
        for candidate in &pair {
            assert_eq!(reference.admit_fact(candidate.dup()), Ok(Admission::Inserted));
            assert_candidate_noop_projection(&reference, &Projection::from_graph(&reference));
        }
        let expected = Projection::from_graph(&reference);
        for reverse in [false, true] {
            let order = if reverse {
                vec![pair[1].dup(), pair[0].dup()]
            } else {
                pair.dup()
            };
            let mut direct = base.dup();
            for candidate in &order {
                assert_eq!(
                    direct.preflight_admission(candidate).unwrap().admission(),
                    &Admission::Inserted
                );
                assert_eq!(direct.admit_fact(candidate.dup()), Ok(Admission::Inserted));
                assert_candidate_noop_projection(&direct, &Projection::from_graph(&direct));
            }
            assert_eq!(
                direct.facts.keys().into_iter().collect::<BTreeSet<_>>(),
                expected_ids
            );
            assert_candidate_noop_projection(&direct, &expected);

            let mut single = base.dup();
            assert_eq!(single.admit_fact(order[0].dup()), Ok(Admission::Inserted));
            single.projection();
            let before = graph_snapshot(&single);
            for terminal in 0..3 {
                let journal = single
                    .begin(order[1].dup())
                    .expect("concurrent single input admits");
                assert_eq!(journal.admission(), &Admission::Inserted);
                assert_eq!(journal.delta().rows().len(), 1);
                assert_eq!(journal.delta().rows()[0].fact().id, order[1].id);
                assert_candidate_noop_projection(journal.graph(), &expected);
                match terminal {
                    0 => journal.rollback(),
                    1 => drop(journal),
                    _ => journal.commit(),
                }
                if terminal < 2 {
                    assert_graph_state_eq(&single, &before);
                }
            }
            assert_eq!(single.facts, direct.facts);

            let mut cold_single = before.dup();
            let history = cold_single.facts.values().map(|x| x.dup()).collect::<Vec<_>>();
            cold_single.retire_cold_history();
            assert!(cold_single.facts.len() < history.len());
            let cold_before = graph_snapshot(&cold_single);
            for terminal in 0..3 {
                let journal = cold_single
                    .begin_with(order[1].dup(), history.dup())
                    .expect("same concurrent second input admits with retired causal history");
                assert_eq!(journal.admission(), &Admission::Inserted);
                assert_eq!(journal.delta().rows().len(), 1);
                assert_eq!(journal.delta().rows()[0].fact().id, order[1].id);
                assert_candidate_noop_projection(journal.graph(), &expected);
                match terminal {
                    0 => journal.rollback(),
                    1 => drop(journal),
                    _ => journal.commit(),
                }
                if terminal < 2 {
                    assert_graph_state_eq(&cold_single, &cold_before);
                }
            }
            assert_eq!(cold_single.len(), direct.len());
            assert_eq!(cold_single.projection(), expected);

            for hydrated in [false, true] {
                let history = base.facts.values().map(|x| x.dup()).collect::<Vec<_>>();
                let mut aggregate = base.dup();
                if hydrated {
                    aggregate.retire_cold_history();
                    assert!(aggregate.facts.len() < history.len());
                }
                aggregate.projection();
                let before = graph_snapshot(&aggregate);
                for terminal in 0..3 {
                    let journal = if hydrated {
                        aggregate
                            .begin_batch_with(order.dup(), history.dup())
                    } else {
                        aggregate.begin_batch(order.dup())
                    }
                    .expect("same concurrent inputs admit atomically");
                    for (result, candidate) in journal.results().iter().zip(&order) {
                        assert!(
                            matches!(result.outcome(), AggregateAdmissionOutcome::Inserted { fact_id }
                            if *fact_id == candidate.id)
                        );
                    }
                    assert_eq!(journal.results().len(), 2);
                    assert_eq!(journal.delta().rows().len(), 2);
                    assert!(journal
                        .delta()
                        .rows()
                        .iter()
                        .all(|row| row.status() == SemanticFactStatus::Admitted));
                    assert_eq!(
                        journal
                            .delta()
                            .rows()
                            .iter()
                            .map(|row| row.fact().id)
                            .collect::<BTreeSet<_>>(),
                        order.iter().map(|fact| fact.id).collect::<BTreeSet<_>>()
                    );
                    assert!(journal.delta().promoted().is_empty());
                    assert!(journal.delta().removed().is_empty());
                    assert_candidate_noop_projection(journal.graph(), &expected);
                    match terminal {
                        0 => journal.rollback(),
                        1 => drop(journal),
                        _ => journal.commit(),
                    }
                    if terminal < 2 {
                        assert_graph_state_eq(&aggregate, &before);
                    }
                }
                assert_eq!(aggregate.len(), direct.len());
                assert_eq!(aggregate.projection(), expected);
            }

            let mut waiting = eligible.dup();
            for candidate in &order {
                let missing = dependencies(candidate)
                    .into_iter()
                    .filter(|id| !waiting.facts.contains_key(id))
                    .collect::<BTreeSet<_>>();
                assert!(!missing.is_empty());
                assert!(
                    matches!(waiting.admit_fact(candidate.dup()), Ok(Admission::Quarantined { missing: actual })
                    if actual.iter().copied().collect::<BTreeSet<_>>() == missing)
                );
            }
            let mut retry_single = waiting.dup();
            for support in &supports[..supports.len() - 1] {
                assert_eq!(retry_single.admit_fact(support.dup()), Ok(Admission::Inserted));
            }
            retry_single.projection();
            let retry_before = graph_snapshot(&retry_single);
            for terminal in 0..3 {
                let journal = retry_single
                    .begin(supports.last().unwrap().dup())
                    .expect("late support retries both concurrent operations");
                assert_eq!(journal.admission(), &Admission::Inserted);
                assert_eq!(
                    journal
                        .delta()
                        .promoted()
                        .iter()
                        .copied()
                        .collect::<BTreeSet<_>>(),
                    pair.iter().map(|fact| fact.id).collect::<BTreeSet<_>>()
                );
                assert!(journal.delta().removed().is_empty());
                assert_candidate_noop_projection(journal.graph(), &expected);
                match terminal {
                    0 => journal.rollback(),
                    1 => drop(journal),
                    _ => journal.commit(),
                }
                if terminal < 2 {
                    assert_graph_state_eq(&retry_single, &retry_before);
                }
            }
            assert_eq!(retry_single.facts, direct.facts);

            let mut retry_aggregate = waiting.dup();
            let journal = retry_aggregate
                .begin_batch(supports.dup())
                .expect("aggregate support delivery attributes both ready promotions");
            assert_eq!(
                journal
                    .delta()
                    .promoted()
                    .iter()
                    .copied()
                    .collect::<BTreeSet<_>>(),
                pair.iter().map(|fact| fact.id).collect::<BTreeSet<_>>()
            );
            assert!(journal.delta().removed().is_empty());
            assert_candidate_noop_projection(journal.graph(), &expected);
            journal.commit();
            assert_eq!(retry_aggregate.facts, direct.facts);
            for support in &supports {
                assert_eq!(waiting.admit_fact(support.dup()), Ok(Admission::Inserted));
            }
            assert_eq!(
                waiting
                    .retry_quarantined()
                    .unwrap()
                    .into_iter()
                    .collect::<BTreeSet<_>>(),
                pair.iter().map(|fact| fact.id).collect::<BTreeSet<_>>()
            );
            assert!(waiting.quarantine.facts.is_empty());
            assert_eq!(waiting.facts, direct.facts);
            assert_candidate_noop_projection(&waiting, &expected);
        }

        let mut intrinsic_base = base.dup();
        assert_eq!(
            intrinsic_base.admit_fact(pair[0].dup()),
            Ok(Admission::Inserted)
        );
        let redundant =
            witnessed_fact(&intrinsic_base, &right_key, pair[0].content.body.dup());
        assert_ne!(redundant.id, pair[0].id);
        assert_intrinsic_noop_unchanged(
            &intrinsic_base,
            &redundant,
            match kind {
                0 => "role grant already effective",
                1 => "role revoke targets an absent role",
                _ => "resolution has no live conflict",
            },
        );
        if kind == 2 {
            let typed = witnessed_fact(
                &base,
                &root_key,
                FactBody::AuthorityLineageResolution {
                    subject: target.dup(),
                    cited_heads: heads.dup(),
                    selected_head: heads[0],
                },
            );
            assert_eq!(base.admit_fact(typed), Ok(Admission::Inserted));
            assert!(!base
                .evaluator()
                .is_conflicted(&ExclusiveCell::role(target.dup())));
            let suppressed = witnessed_fact(&base, &right_key, pair[0].content.body.dup());
            assert_intrinsic_noop_unchanged(
                &base,
                &suppressed,
                "resolution has no live conflict",
            );
        }
    }
}

#[test]
fn journal_rolls_back_only_touched_rows_and_bounds_ready_promotions() {
    let (bootstrap, root_key) = closed(74);
    let target = device(&key(75));
    let parent = fact(
        &bootstrap,
        &root_key,
        FactBody::RoleGrant {
            target: target.dup(),
            role: Role::Member,
        },
        Vec::new(),
    );
    let first_child = fact(
        &bootstrap,
        &root_key,
        FactBody::RoleGrant {
            target: target.dup(),
            role: Role::Controller,
        },
        vec![parent.id],
    );
    let second_child = fact(
        &bootstrap,
        &root_key,
        FactBody::RoleRevoke { target },
        vec![parent.id],
    );
    let policy = SemanticAdmissionPolicy {
        max_ready_batch: 2,
        ..SemanticAdmissionPolicy::default()
    };
    let mut graph = FactGraph::from_bootstrap_with_policy(&bootstrap, policy);
    assert!(matches!(
        graph.admit_fact(first_child),
        Ok(Admission::Quarantined { .. })
    ));
    assert!(matches!(
        graph.admit_fact(second_child),
        Ok(Admission::Quarantined { .. })
    ));
    assert_eq!(graph.len(), 0);
    assert_eq!(graph.quarantined().len(), 2);
    let preflight = graph.preflight_admission(&parent).unwrap();
    assert_eq!(preflight.admission(), &Admission::Inserted);
    assert!(preflight.encoded_bytes().is_some());
    let before_rollback = graph.dup();

    let journal = graph
        .begin_checked(parent.dup(), preflight)
        .expect("parent and one bounded ready batch admit");
    assert_eq!(journal.admission(), &Admission::Inserted);
    assert_eq!(journal.delta().promoted().len(), 2);
    assert_eq!(journal.delta().rows().len(), 3);
    assert_eq!(journal.delta().provisional_removed().len(), 2);
    assert!(journal.delta().provisional_added().is_empty());
    assert!(journal.delta().removed().is_empty());
    let changed_ids = journal.delta().changed_ids().into_iter().collect::<BTreeSet<_>>();
    assert_eq!(changed_ids.len(), journal.delta().changed_ids().len());
    assert!(journal.delta().rows().len() <= 3);
    assert!(journal.delta().promoted().len() <= 2);
    assert!(journal.delta().removed().len() <= 1);
    let provisional_removed = journal
        .delta()
        .provisional_removed()
        .iter()
        .copied()
        .collect::<BTreeSet<_>>();
    assert_eq!(
        provisional_removed.len(),
        journal.delta().provisional_removed().len()
    );
    assert_eq!(
        journal.delta().rows()[0].status(),
        SemanticFactStatus::Admitted
    );
    assert_eq!(journal.delta().rows()[0].fact().id, parent.id);
    journal.rollback();
    assert_eq!(graph.facts, before_rollback.facts);
    assert_eq!(graph.quarantine.facts, before_rollback.quarantine.facts);
    assert_eq!(graph.setting.limits, before_rollback.setting.limits);
    assert_eq!(graph.ledger.bytes, before_rollback.ledger.bytes);
    assert_eq!(
        graph.ledger.index_bytes,
        before_rollback.ledger.index_bytes
    );
    assert_eq!(graph.quarantine.bytes, before_rollback.quarantine.bytes);
    assert_eq!(
        graph.ledger.edges,
        before_rollback.ledger.edges
    );
    assert_eq!(
        graph.quarantine.edges,
        before_rollback.quarantine.edges
    );
    assert_eq!(
        graph.quarantine.by_author,
        before_rollback.quarantine.by_author
    );
    assert_eq!(graph.ledger.retained, before_rollback.ledger.retained);
    assert_eq!(graph.quarantine.missing, before_rollback.quarantine.missing);
    assert_eq!(
        graph.quarantine.waiting,
        before_rollback.quarantine.waiting
    );
    assert_eq!(graph.quarantine.ready, before_rollback.quarantine.ready);
    assert_eq!(graph.setting.context_id, before_rollback.setting.context_id);
    assert_eq!(graph.setting.roots, before_rollback.setting.roots);
    assert_eq!(graph.setting.policy, before_rollback.setting.policy);

    graph.setting.limits.max_ready_batch = 1;
    let before_capacity = graph_snapshot(&graph);
    let preflight = graph.preflight_admission(&parent).unwrap();
    assert!(matches!(
        graph.begin_checked(parent.dup(), preflight),
        Err(SemanticError::CapacityExceeded {
            dimension: SemanticCapacityDimension::ReadyBatch,
            ..
        })
    ));
    assert_graph_state_eq(&graph, &before_capacity);
    graph.setting.limits.max_ready_batch = 2;

    // Dropping an unconsumed journal has the same exact rollback effect.
    let journal = graph
        .begin(parent.dup())
        .expect("parent and both bounded ready waiters admit");
    assert_eq!(journal.graph().len(), 3);
    drop(journal);
    assert_eq!(graph.len(), 0);
    assert_eq!(graph.quarantined().len(), 2);

    let journal = graph
        .begin(parent)
        .expect("repeat parent and both bounded ready waiters admit");
    journal.commit();
    assert_eq!(graph.len(), 3);
    assert_eq!(graph.quarantined().len(), 0);
}

#[test]
fn journal_retries_transitive_waiters_with_one_cumulative_bound() {
    let (bootstrap, root_key) = closed(173);
    let target = device(&key(174));
    let parent = fact(
        &bootstrap,
        &root_key,
        FactBody::RoleGrant {
            target: target.dup(),
            role: Role::Member,
        },
        Vec::new(),
    );
    let child = fact(
        &bootstrap,
        &root_key,
        FactBody::RoleGrant {
            target: target.dup(),
            role: Role::Controller,
        },
        vec![parent.id],
    );
    let grandchild = fact(
        &bootstrap,
        &root_key,
        FactBody::RoleGrant {
            target,
            role: Role::Owner,
        },
        vec![child.id],
    );
    let policy = SemanticAdmissionPolicy {
        max_ready_batch: 2,
        ..SemanticAdmissionPolicy::default()
    };
    let mut graph = FactGraph::from_bootstrap_with_policy(&bootstrap, policy);
    assert!(matches!(
        graph.admit_fact(grandchild.dup()),
        Ok(Admission::Quarantined { .. })
    ));
    assert!(matches!(
        graph.admit_fact(child.dup()),
        Ok(Admission::Quarantined { .. })
    ));
    let before = graph_snapshot(&graph);
    let preflight = graph.preflight_admission(&parent).unwrap();
    let journal = graph
        .begin_checked(parent.dup(), preflight)
        .expect("parent admits both generations within one retry envelope");
    assert_eq!(journal.delta().promoted(), &[child.id, grandchild.id]);
    assert_eq!(journal.delta().rows().len(), 3);
    assert!(journal.graph().get(&grandchild.id).is_some());
    journal.commit();

    let mut reference = FactGraph::from_bootstrap_with_policy(
        &bootstrap,
        SemanticAdmissionPolicy {
            max_ready_batch: 2,
            ..SemanticAdmissionPolicy::default()
        },
    );
    assert!(matches!(
        reference.admit_fact(grandchild.dup()),
        Ok(Admission::Quarantined { .. })
    ));
    assert!(matches!(
        reference.admit_fact(child.dup()),
        Ok(Admission::Quarantined { .. })
    ));
    reference.admit_fact(parent.dup()).unwrap();
    reference.retry_quarantined().unwrap();
    assert_graph_state_eq(&graph, &reference);

    let mut dropped = before.dup();
    let preflight = dropped.preflight_admission(&parent).unwrap();
    let journal = dropped
        .begin_checked(parent.dup(), preflight)
        .expect("rollback control reaches transitive promotion");
    drop(journal);
    assert_graph_state_eq(&dropped, &before);

    let mut explicitly_rolled_back = before.dup();
    let preflight = explicitly_rolled_back.preflight_admission(&parent).unwrap();
    let journal = explicitly_rolled_back
        .begin_checked(parent.dup(), preflight)
        .expect("explicit rollback control reaches transitive promotion");
    assert_eq!(journal.delta().promoted(), &[child.id, grandchild.id]);
    journal.rollback();
    assert_graph_state_eq(&explicitly_rolled_back, &before);

    let mut too_small = before.dup();
    too_small.setting.limits.max_ready_batch = 1;
    let before_refusal = graph_snapshot(&too_small);
    let preflight = too_small.preflight_admission(&parent).unwrap();
    assert!(matches!(
        too_small.begin_checked(parent, preflight),
        Err(SemanticError::CapacityExceeded {
            dimension: SemanticCapacityDimension::ReadyBatch,
            ..
        })
    ));
    assert_graph_state_eq(&too_small, &before_refusal);
}

#[test]
fn preflight_token_rejects_changed_fact_and_stale_graph() {
    let (bootstrap, root_key) = closed(175);
    let candidate = fact(
        &bootstrap,
        &root_key,
        FactBody::RoleGrant {
            target: device(&key(176)),
            role: Role::Member,
        },
        Vec::new(),
    );
    let mut graph = FactGraph::from_bootstrap(&bootstrap);
    let preflight = graph
        .preflight_admission(&candidate)
        .expect("candidate preflight succeeds");

    let mut changed = candidate.dup();
    changed.signature = "tampered".to_owned();
    recheck(&mut changed);
    assert!(graph.begin_checked(changed, preflight).is_err());
    assert!(graph.facts.is_empty());

    let stale = graph
        .preflight_admission(&candidate)
        .expect("candidate can be preflighted again");
    graph
        .admit_fact(fact(
            &bootstrap,
            &root_key,
            FactBody::RoleGrant {
                target: device(&key(177)),
                role: Role::Member,
            },
            Vec::new(),
        ))
        .expect("unrelated fact advances the graph fence");
    assert!(graph.begin_checked(candidate, stale).is_err());
}

#[test]
fn rollback_cache_fence_preserves_root_without_projection_map_clone() {
    let (bootstrap, root_key) = closed(178);
    let first = fact(
        &bootstrap,
        &root_key,
        FactBody::RoleGrant {
            target: device(&key(179)),
            role: Role::Member,
        },
        Vec::new(),
    );
    let mut graph = FactGraph::from_bootstrap(&bootstrap);
    graph.admit_fact(first).expect("initial fact admits");
    let before_root = graph.projection();
    let before_cache = cached(&graph);
    let rollback = GraphRollback::new(&graph);
    assert_eq!(rollback.cache, before_cache);
    drop(rollback);

    let second = fact(
        &bootstrap,
        &root_key,
        FactBody::RoleGrant {
            target: device(&key(180)),
            role: Role::Member,
        },
        Vec::new(),
    );
    let preflight = graph
        .preflight_admission(&second)
        .expect("sparse candidate preflights");
    let journal = graph
        .begin_checked(second, preflight)
        .expect("sparse candidate applies");
    journal.rollback();
    assert_eq!(graph.projection(), before_root);
    let after_cache = cached(&graph);
    assert_eq!(after_cache, before_cache);
}

#[test]
fn journal_records_terminal_ready_waiter_without_rolling_back_parent() {
    let (bootstrap, root_key) = closed(76);
    let target = device(&key(77));
    let parent = fact(
        &bootstrap,
        &root_key,
        FactBody::RoleGrant {
            target: target.dup(),
            role: Role::Member,
        },
        Vec::new(),
    );
    let child = fact(
        &bootstrap,
        &root_key,
        FactBody::RoleGrant {
            target,
            role: Role::Controller,
        },
        vec![parent.id],
    );
    let child_id = child.id;
    let mut graph = FactGraph::from_bootstrap_with_policy(
        &bootstrap,
        SemanticAdmissionPolicy {
            max_ready_batch: 1,
            ..SemanticAdmissionPolicy::default()
        },
    );
    assert!(matches!(
        graph.admit_fact(child),
        Ok(Admission::Quarantined { .. })
    ));
    alter(&mut graph.quarantine.facts, child_id, |waiter| {
        waiter.signature = "tampered".to_owned();
        recheck(waiter);
    });

    let journal = graph
        .begin(parent)
        .expect("a terminal waiter cannot cancel the valid parent");
    assert_eq!(journal.delta().removed(), &[child_id]);
    assert_eq!(journal.delta().promoted().len(), 0);
    assert_eq!(journal.delta().provisional_removed(), &[child_id]);
    assert!(journal
        .delta()
        .rows()
        .iter()
        .any(|row| row.status() == SemanticFactStatus::Admitted));
    journal.commit();
    assert_eq!(graph.len(), 1);
    assert_eq!(graph.quarantined().len(), 0);
}

#[test]
fn journal_terminally_removes_member_signed_unauthorized_owner_waiter() {
    let (bootstrap, root_key) = closed(181);
    let member_key = key(182);
    let member = device(&member_key);
    let member_grant = fact(
        &bootstrap,
        &root_key,
        FactBody::RoleGrant {
            target: member.dup(),
            role: Role::Member,
        },
        Vec::new(),
    );
    let parent_target = device(&key(183));
    let parent = fact_with_authority_predecessors(
        &bootstrap,
        &root_key,
        FactBody::RoleGrant {
            target: parent_target.dup(),
            role: Role::Member,
        },
        vec![member_grant.id],
        &[
            (device(&root_key), vec![member_grant.id]),
            (parent_target, Vec::new()),
        ],
    );
    let owner_target = device(&key(184));
    let waiter = fact_with_authority_predecessors(
        &bootstrap,
        &member_key,
        FactBody::RoleGrant {
            target: owner_target.dup(),
            role: Role::Owner,
        },
        vec![member_grant.id, parent.id],
        &[
            (member.dup(), vec![member_grant.id]),
            (owner_target, Vec::new()),
        ],
    );
    let waiter_id = waiter.id;
    let mut graph = FactGraph::from_bootstrap_with_policy(
        &bootstrap,
        SemanticAdmissionPolicy {
            max_ready_batch: 1,
            ..SemanticAdmissionPolicy::default()
        },
    );
    graph
        .admit_fact(member_grant)
        .expect("root grants the eligible member");
    assert_eq!(
        graph.evaluator().effective_authorized_role(&member),
        Some(Role::Member)
    );
    assert!(matches!(
        graph.admit_fact(waiter),
        Ok(Admission::Quarantined { missing }) if missing == vec![parent.id]
    ));

    graph.preflight_admission(&parent).unwrap();
    let journal = graph
        .begin(parent)
        .expect("valid parent remains admissible");
    assert_eq!(journal.delta().removed(), &[waiter_id]);
    assert!(journal.delta().promoted().is_empty());
    assert_eq!(journal.delta().provisional_removed(), &[waiter_id]);
    assert!(journal.graph().get(&waiter_id).is_none());
    journal.commit();
    assert_eq!(graph.quarantined().len(), 0);
    assert_eq!(graph.len(), 2);
}

#[test]
fn candidate_authorization_taxonomy_is_role_independent() {
    let (bootstrap, root_key) = closed(185);
    let member_key = key(186);
    let member = device(&member_key);
    let controller_key = key(187);
    let controller = device(&controller_key);
    let mut graph = FactGraph::from_bootstrap(&bootstrap);
    let member_grant = fact(
        &bootstrap,
        &root_key,
        FactBody::RoleGrant {
            target: member.dup(),
            role: Role::Member,
        },
        Vec::new(),
    );
    graph
        .admit_fact(member_grant.dup())
        .expect("member grant admits");
    let controller_grant = witnessed_fact(
        &graph,
        &root_key,
        FactBody::RoleGrant {
            target: controller.dup(),
            role: Role::Controller,
        },
    );
    graph
        .admit_fact(controller_grant.dup())
        .expect("controller grant admits");

    let denied = vec![
        (
            "member-controller",
            fact_with_authority_predecessors(
                &bootstrap,
                &member_key,
                FactBody::RoleGrant {
                    target: device(&key(188)),
                    role: Role::Controller,
                },
                vec![member_grant.id],
                &[
                    (member.dup(), vec![member_grant.id]),
                    (device(&key(188)), Vec::new()),
                ],
            ),
        ),
        (
            "member-owner",
            fact_with_authority_predecessors(
                &bootstrap,
                &member_key,
                FactBody::RoleGrant {
                    target: device(&key(189)),
                    role: Role::Owner,
                },
                vec![member_grant.id],
                &[
                    (member.dup(), vec![member_grant.id]),
                    (device(&key(189)), Vec::new()),
                ],
            ),
        ),
        (
            "controller-owner",
            fact_with_authority_predecessors(
                &bootstrap,
                &controller_key,
                FactBody::RoleGrant {
                    target: device(&key(190)),
                    role: Role::Owner,
                },
                vec![controller_grant.id],
                &[
                    (controller.dup(), vec![controller_grant.id]),
                    (device(&key(190)), Vec::new()),
                ],
            ),
        ),
    ];
    for (label, candidate) in denied {
        let candidate_for_classification = candidate.dup();
        let error = graph.admit_fact(candidate).expect_err(label);
        assert_eq!(error, SemanticError::UnauthorizedRoleGrant);
        assert!(is_terminal_waiter_error(
            &graph,
            &candidate_for_classification,
            &error,
        ));
    }

    let authorized = fact_with_authority_predecessors(
        &bootstrap,
        &controller_key,
        FactBody::RoleGrant {
            target: device(&key(191)),
            role: Role::Controller,
        },
        vec![controller_grant.id],
        &[
            (controller, vec![controller_grant.id]),
            (device(&key(191)), Vec::new()),
        ],
    );
    assert_eq!(graph.admit_fact(authorized), Ok(Admission::Inserted));
}

#[test]
fn journal_projection_capacity_refusal_restores_parent_and_ready_waiter() {
    let (bootstrap, root_key) = closed(189);
    let target = device(&key(190));
    let parent = fact(
        &bootstrap,
        &root_key,
        FactBody::RoleGrant {
            target: target.dup(),
            role: Role::Member,
        },
        Vec::new(),
    );
    let child = fact(
        &bootstrap,
        &root_key,
        FactBody::RoleGrant {
            target,
            role: Role::Controller,
        },
        vec![parent.id],
    );
    let mut graph = FactGraph::from_bootstrap_with_policy(
        &bootstrap,
        SemanticAdmissionPolicy {
            max_ready_batch: 1,
            ..SemanticAdmissionPolicy::default()
        },
    );
    graph
        .admit_fact(child.dup())
        .expect("child is retained as a waiter");

    let parent_cost = graph.fact_cost(&parent).expect("parent cost computes");
    let parent_reserve_bound = graph
        .ledger.bytes
        .checked_add(parent_cost.encoded_bytes)
        .and_then(|bytes| bytes.checked_add(graph.ledger.index_bytes))
        .and_then(|bytes| bytes.checked_add(parent_cost.index_bytes))
        .expect("parent reserve boundary remains representable");
    let mut after_parent = graph.dup();
    after_parent
        .admit_fact(parent.dup())
        .expect("parent admits without retrying waiter");
    let parent_resident = after_parent
        .ledger.bytes
        .checked_add(after_parent.ledger.index_bytes)
        .and_then(|bytes| bytes.checked_add(after_parent.projection().commitment_bytes()))
        .expect("parent resident boundary remains representable");
    let child_cost = after_parent.fact_cost(&child).expect("child cost computes");
    let child_reserve_bound = after_parent
        .ledger.bytes
        .checked_add(child_cost.encoded_bytes)
        .and_then(|bytes| bytes.checked_add(after_parent.ledger.index_bytes))
        .and_then(|bytes| bytes.checked_add(child_cost.index_bytes))
        .expect("waiter reserve boundary remains representable");
    let mut after_promotion = after_parent.dup();
    after_promotion
        .retry_quarantined()
        .expect("unbounded waiter promotion succeeds");
    let promoted_resident = after_promotion
        .ledger.bytes
        .checked_add(after_promotion.ledger.index_bytes)
        .and_then(|bytes| bytes.checked_add(after_promotion.projection().commitment_bytes()))
        .expect("promoted resident boundary remains representable");
    assert!(promoted_resident > parent_resident);
    assert!(promoted_resident > parent_reserve_bound);
    assert!(promoted_resident > child_reserve_bound);
    graph.setting.limits.max_database_bytes = promoted_resident - 1;
    assert!(graph.setting.limits.max_database_bytes >= parent_resident);
    assert!(graph.setting.limits.max_database_bytes >= parent_reserve_bound);
    assert!(graph.setting.limits.max_database_bytes >= child_reserve_bound);
    let before = graph_snapshot(&graph);

    let preflight = graph
        .preflight_admission(&parent)
        .expect("parent preflights before ready waiter retry");
    assert!(matches!(
        graph.begin_checked(parent, preflight),
        Err(SemanticError::CapacityExceeded { .. })
    ));
    assert_graph_state_eq(&graph, &before);
}

#[test]
fn indexed_projection_matches_reference_and_rollback_restores_indexes() {
    let (bootstrap, root_key) = closed(78);
    let first = fact(
        &bootstrap,
        &root_key,
        FactBody::RoleGrant {
            target: device(&key(79)),
            role: Role::Member,
        },
        Vec::new(),
    );
    let mut graph = FactGraph::from_bootstrap(&bootstrap);
    graph
        .admit_fact(first)
        .expect("first indexed admission succeeds");
    assert!(graph.indexes_current());
    let indexed = graph.projection();

    let mut reference = graph.dup();
    reference.fence.indexed_fact_count = 0;
    reference.cache = None;
    assert_eq!(indexed, Projection::from_graph(&reference));
    graph.rebuild_indexes();

    let second = fact(
        &bootstrap,
        &root_key,
        FactBody::RoleGrant {
            target: device(&key(80)),
            role: Role::Controller,
        },
        Vec::new(),
    );
    let before = graph.dup();
    let preflight = graph
        .preflight_admission(&second)
        .expect("second admission preflight succeeds");
    let journal = graph
        .begin_checked(second, preflight)
        .expect("second admission applies");
    journal.rollback();
    assert!(graph.indexes_current());
    assert_eq!(graph.projection(), before.projection());
    assert_eq!(graph.index.cell_heads, before.index.cell_heads);
    assert_eq!(graph.index.authority_heads, before.index.authority_heads);
    assert_eq!(
        graph.ledger.index_bytes, before.ledger.index_bytes,
        "rollback restores the exact derived logical-byte scalar"
    );
    assert_eq!(graph.index.cells, before.index.cells);
}

#[test]
fn rebuild_reconciles_loader_mutated_scalar_accounting() {
    let (bootstrap, root_key) = closed(121);
    let first = fact(
        &bootstrap,
        &root_key,
        FactBody::RoleGrant {
            target: device(&key(122)),
            role: Role::Member,
        },
        Vec::new(),
    );
    let mut expected = FactGraph::from_bootstrap(&bootstrap);
    expected
        .admit_fact(first.dup())
        .expect("first canonical row admits");
    let second = witnessed_fact(
        &expected,
        &root_key,
        FactBody::RoleGrant {
            target: device(&key(123)),
            role: Role::Controller,
        },
    );
    expected
        .admit_fact(second.dup())
        .expect("second canonical row admits");

    let mut loaded = FactGraph::from_bootstrap(&bootstrap);
    loaded
        .admit_fact(first)
        .expect("first canonical row admits into loader graph");
    loaded.facts.insert(second.id, second);
    loaded.fence.facts_revision = loaded
        .fence.facts_revision
        .checked_add(1)
        .expect("test revision remains representable");
    loaded.ledger.bytes = 0;
    loaded.ledger.index_bytes = 0;
    loaded.ledger.edges = 0;
    loaded.rebuild_indexes();

    assert_eq!(loaded.ledger.bytes, expected.ledger.bytes);
    assert_eq!(loaded.ledger.index_bytes, expected.ledger.index_bytes);
    assert_eq!(
        loaded.ledger.edges,
        expected.ledger.edges
    );
    assert_eq!(loaded.index.cell_heads, expected.index.cell_heads);
    assert_eq!(loaded.index.cells, expected.index.cells);
    assert_eq!(loaded.projection(), expected.projection());
}

#[test]
fn current_head_role_admission_uses_borrowed_causal_graph() {
    let (bootstrap, root_key) = closed(79);
    let target = device(&key(80));
    let first = fact(
        &bootstrap,
        &root_key,
        FactBody::RoleGrant {
            target: target.dup(),
            role: Role::Member,
        },
        Vec::new(),
    );
    let mut graph = FactGraph::from_bootstrap(&bootstrap);
    graph.admit_fact(first.dup()).expect("first role admits");
    let next = fact(
        &bootstrap,
        &root_key,
        FactBody::RoleRevoke { target },
        vec![first.id],
    );
    assert!(matches!(
        graph.causal_past(&next).expect("causal view resolves"),
        CausalAdmissionGraph::Full(_)
    ));

    let refusal_policy = SemanticAdmissionPolicy {
        max_database_bytes: 1,
        ..SemanticAdmissionPolicy::default()
    };
    let mut refused = FactGraph::from_bootstrap_with_policy(&bootstrap, refusal_policy);
    assert!(matches!(
        refused.admit_fact(first),
        Err(SemanticError::CapacityExceeded { .. })
    ));
    assert_eq!(refused.len(), 0);
    assert_eq!(refused.ledger.index_bytes, 0);
}

#[test]
fn warm_current_head_admission_is_sparse_over_an_unrelated_tail() {
    let (bootstrap, root_key) = closed(201);
    let indexed_key = |index: u16| {
        let mut bytes = [0u8; 32];
        bytes[..2].copy_from_slice(&index.to_le_bytes());
        SigningKey::from_bytes(&bytes)
    };
    let mut graph = FactGraph::from_bootstrap(&bootstrap);
    let mut previous_root = None;
    let tail = (0..1024u16)
        .map(|index| {
            let target = device(&indexed_key(index));
            let parents = previous_root.into_iter().collect::<Vec<_>>();
            let fact = fact_with_authority_predecessors(
                &bootstrap,
                &root_key,
                FactBody::RoleGrant {
                    target: target.dup(),
                    role: Role::Member,
                },
                parents.dup(),
                &[(target, Vec::new()), (device(&root_key), parents)],
            );
            previous_root = Some(fact.id);
            fact
        })
        .collect::<Vec<_>>();
    let latest_root = tail.last().expect("tail is nonempty").id;
    graph
        .bulk_restore_admitted(tail, Vec::new())
        .expect("large unrelated tail restores");

    let target = device(&indexed_key(777));
    let previous_head = graph
        .cell_heads(&ExclusiveCell::role(target.dup()))
        .into_iter()
        .next()
        .expect("tail role head exists");
    let candidate = fact_with_authority_predecessors(
        &bootstrap,
        &root_key,
        FactBody::RoleGrant {
            target: target.dup(),
            role: Role::Controller,
        },
        vec![previous_head, latest_root],
        &[
            (device(&root_key), vec![latest_root]),
            (target, vec![previous_head]),
        ],
    );
    let mut reference = graph.dup();
    reference
        .admit_fact(candidate.dup())
        .expect("reference replacement admits");
    let expected_derived = reference.ledger.index_bytes;

    graph
        .admit_fact(candidate)
        .expect("warm current-head replacement admits");
    assert_eq!(graph.ledger.index_bytes, expected_derived);
    assert_eq!(
        graph.ledger.index_bytes,
        graph
            .logical_index_residency_bytes()
            .expect("full residency reference remains representable")
    );
}

fn assert_graph_state_eq(actual: &FactGraph, expected: &FactGraph) {
    assert_eq!(actual.facts, expected.facts);
    assert_eq!(actual.quarantine.facts, expected.quarantine.facts);
    assert_eq!(actual.setting.limits, expected.setting.limits);
    assert_eq!(actual.ledger.fact_count, expected.ledger.fact_count);
    assert_eq!(actual.order, expected.order);
    assert_eq!(actual.ledger.bytes, expected.ledger.bytes);
    assert_eq!(actual.ledger.index_bytes, expected.ledger.index_bytes);
    assert_eq!(actual.quarantine.bytes, expected.quarantine.bytes);
    assert_eq!(
        actual.ledger.edges,
        expected.ledger.edges
    );
    assert_eq!(
        actual.quarantine.edges,
        expected.quarantine.edges
    );
    assert_eq!(actual.quarantine.by_author, expected.quarantine.by_author);
    assert_eq!(actual.ledger.retained, expected.ledger.retained);
    assert_eq!(actual.quarantine.missing, expected.quarantine.missing);
    assert_eq!(actual.quarantine.waiting, expected.quarantine.waiting);
    assert_eq!(actual.quarantine.ready, expected.quarantine.ready);
    assert_eq!(actual.setting.context_id, expected.setting.context_id);
    assert_eq!(actual.setting.roots, expected.setting.roots);
    assert_eq!(actual.setting.policy, expected.setting.policy);
    assert_eq!(actual.index.cell_heads, expected.index.cell_heads);
    assert_eq!(actual.index.authority_heads, expected.index.authority_heads);
    assert_eq!(actual.index.authority_facts, expected.index.authority_facts);
    assert_eq!(
        actual.index.selectors,
        expected.index.selectors
    );
    assert_eq!(actual.index.provenance, expected.index.provenance);
    assert_eq!(actual.index.cells, expected.index.cells);
    assert_eq!(actual.index.stand_down, expected.index.stand_down);
    assert_eq!(actual.fence.indexed_fact_count, expected.fence.indexed_fact_count);
    assert_eq!(actual.fence.facts_revision, expected.fence.facts_revision);
    assert_eq!(actual.fence.indexed_revision, expected.fence.indexed_revision);
    assert_eq!(actual.fence.generation, expected.fence.generation);
    assert_eq!(
        actual.fence.cold_history_since_retirement,
        expected.fence.cold_history_since_retirement
    );
    assert_eq!(actual.fence.staged_cold_pending, expected.fence.staged_cold_pending);
    if expected.cache.is_some() {
        assert_eq!(actual.cache, expected.cache);
    }
    assert_eq!(actual.projection(), expected.projection());
}

/// Keeps the projection of a graph with it.
fn keep_projection(graph: &mut FactGraph) {
    graph.cache = Some(Cached {
        generation: graph.fence.generation,
        projection: graph.projection(),
    });
}

fn graph_snapshot(graph: &FactGraph) -> FactGraph {
    graph.dup()
}

#[test]
fn direct_projection_capacity_refusal_restores_exact_graph_state() {
    let (bootstrap, root_key) = closed(181);
    let first = fact(
        &bootstrap,
        &root_key,
        FactBody::RoleGrant {
            target: device(&key(182)),
            role: Role::Member,
        },
        Vec::new(),
    );
    let second = fact(
        &bootstrap,
        &root_key,
        FactBody::RoleGrant {
            target: device(&key(183)),
            role: Role::Member,
        },
        Vec::new(),
    );
    let mut graph = FactGraph::from_bootstrap(&bootstrap);
    graph.admit_fact(first).expect("first fact admits");
    let cost = graph.fact_cost(&second).expect("second cost computes");
    graph.setting.limits.max_database_bytes = graph
        .ledger.bytes
        .checked_add(cost.encoded_bytes)
        .and_then(|bytes| bytes.checked_add(graph.ledger.index_bytes))
        .and_then(|bytes| bytes.checked_add(cost.index_bytes))
        .expect("pre-projection boundary remains representable");
    let before = graph_snapshot(&graph);

    assert!(matches!(
        graph.admit_fact(second),
        Err(SemanticError::CapacityExceeded { .. })
    ));
    assert_graph_state_eq(&graph, &before);
    assert_eq!(graph.facts, before.facts);
    assert_eq!(graph.quarantine.facts, before.quarantine.facts);
    assert_eq!(graph.index.cell_heads, before.index.cell_heads);
    assert_eq!(graph.index.authority_heads, before.index.authority_heads);
    assert_eq!(
        graph.index.selectors,
        before.index.selectors
    );
    assert_eq!(graph.index.cells, before.index.cells);
    assert_eq!(graph.index.stand_down, before.index.stand_down);
    assert_eq!(graph.ledger.bytes, before.ledger.bytes);
    assert_eq!(graph.ledger.index_bytes, before.ledger.index_bytes);
    assert_eq!(graph.quarantine.bytes, before.quarantine.bytes);
    assert_eq!(
        graph.ledger.edges,
        before.ledger.edges
    );
    assert_eq!(
        graph.quarantine.edges,
        before.quarantine.edges
    );
    assert_eq!(graph.ledger.retained, before.ledger.retained);
    assert_eq!(graph.quarantine.by_author, before.quarantine.by_author);
    assert_eq!(graph.quarantine.missing, before.quarantine.missing);
    assert_eq!(graph.quarantine.waiting, before.quarantine.waiting);
    assert_eq!(graph.quarantine.ready, before.quarantine.ready);
    assert_eq!(graph.fence.facts_revision, before.fence.facts_revision);
    assert_eq!(graph.fence.indexed_revision, before.fence.indexed_revision);
    assert_eq!(graph.fence.indexed_fact_count, before.fence.indexed_fact_count);
    assert_eq!(graph.fence.generation, before.fence.generation);
    assert_eq!(graph.projection(), before.projection());
}

#[test]
fn bulk_restore_error_restores_the_committed_prefix() {
    let (bootstrap, root_key) = closed(184);
    let first = fact(
        &bootstrap,
        &root_key,
        FactBody::RoleGrant {
            target: device(&key(185)),
            role: Role::Member,
        },
        Vec::new(),
    );
    let mut graph = FactGraph::from_bootstrap(&bootstrap);
    let mut after_first = graph.dup();
    after_first
        .admit_fact(first.dup())
        .expect("first prefix fact admits");
    let second = witnessed_fact(
        &after_first,
        &root_key,
        FactBody::RoleGrant {
            target: device(&key(186)),
            role: Role::Member,
        },
    );
    let second_cost = after_first
        .fact_cost(&second)
        .expect("second cost computes");
    let reserve_bound = after_first
        .ledger.bytes
        .checked_add(second_cost.encoded_bytes)
        .and_then(|bytes| bytes.checked_add(after_first.ledger.index_bytes))
        .and_then(|bytes| bytes.checked_add(second_cost.index_bytes))
        .expect("pre-projection capacity boundary remains representable");
    let mut after_second = after_first.dup();
    after_second
        .admit_fact(second.dup())
        .expect("unbounded second fact admits");
    let post_second_resident = after_second
        .ledger.bytes
        .checked_add(after_second.ledger.index_bytes)
        .and_then(|bytes| bytes.checked_add(after_second.projection().commitment_bytes()))
        .expect("post-mutation capacity remains representable");
    assert!(post_second_resident > reserve_bound);
    assert!(post_second_resident > after_first.ledger.bytes);
    graph.setting.limits.max_database_bytes = post_second_resident - 1;
    assert!(graph.setting.limits.max_database_bytes >= reserve_bound);
    let before = graph_snapshot(&graph);

    assert!(matches!(
        graph.bulk_restore_admitted(vec![first, second], Vec::new()),
        Err(SemanticError::CapacityExceeded { .. })
    ));
    assert_graph_state_eq(&graph, &before);
    assert_eq!(graph.facts, before.facts);
    assert_eq!(graph.index.cell_heads, before.index.cell_heads);
    assert_eq!(graph.index.authority_heads, before.index.authority_heads);
    assert_eq!(graph.ledger.bytes, before.ledger.bytes);
    assert_eq!(graph.ledger.index_bytes, before.ledger.index_bytes);
    assert_eq!(graph.fence.facts_revision, before.fence.facts_revision);
    assert_eq!(graph.fence.generation, before.fence.generation);
    assert_eq!(graph.projection(), before.projection());
}

#[test]
fn retry_projection_capacity_refusal_restores_quarantine_and_waiters() {
    let (bootstrap, root_key) = closed(186);
    let parent = fact(
        &bootstrap,
        &root_key,
        FactBody::RoleGrant {
            target: device(&key(187)),
            role: Role::Member,
        },
        Vec::new(),
    );
    let mut witness_graph = FactGraph::from_bootstrap(&bootstrap);
    witness_graph
        .admit_fact(parent.dup())
        .expect("witness parent admits");
    let child = witnessed_fact(
        &witness_graph,
        &root_key,
        FactBody::RoleGrant {
            target: device(&key(188)),
            role: Role::Member,
        },
    );
    let mut graph = FactGraph::from_bootstrap(&bootstrap);
    graph
        .admit_fact(child.dup())
        .expect("child is retained as a waiter");
    graph.admit_fact(parent).expect("parent admits");
    let cost = graph.fact_cost(&child).expect("ready child cost computes");
    let reserve_bound = graph
        .ledger.bytes
        .checked_add(cost.encoded_bytes)
        .and_then(|bytes| bytes.checked_add(graph.ledger.index_bytes))
        .and_then(|bytes| bytes.checked_add(cost.index_bytes))
        .expect("retry pre-projection boundary remains representable");
    let mut after_retry = graph.dup();
    after_retry
        .retry_quarantined()
        .expect("unbounded ready child admits");
    let post_retry_resident = after_retry
        .ledger.bytes
        .checked_add(after_retry.ledger.index_bytes)
        .and_then(|bytes| bytes.checked_add(after_retry.projection().commitment_bytes()))
        .expect("post-retry capacity remains representable");
    assert!(post_retry_resident > reserve_bound);
    graph.setting.limits.max_database_bytes = post_retry_resident - 1;
    assert!(graph.setting.limits.max_database_bytes >= reserve_bound);
    let before = graph_snapshot(&graph);

    assert!(matches!(
        graph.retry_quarantined(),
        Err(SemanticError::CapacityExceeded { .. })
    ));
    assert_graph_state_eq(&graph, &before);
    assert_eq!(graph.quarantine.facts, before.quarantine.facts);
    assert_eq!(graph.quarantine.missing, before.quarantine.missing);
    assert_eq!(graph.quarantine.waiting, before.quarantine.waiting);
    assert_eq!(graph.quarantine.ready, before.quarantine.ready);
    assert_eq!(graph.quarantine.bytes, before.quarantine.bytes);
    assert_eq!(graph.ledger.bytes, before.ledger.bytes);
    assert_eq!(graph.ledger.index_bytes, before.ledger.index_bytes);
    assert_eq!(graph.ledger.retained, before.ledger.retained);
    assert_eq!(graph.quarantine.by_author, before.quarantine.by_author);
    assert_eq!(graph.facts, before.facts);
    assert_eq!(graph.fence.facts_revision, before.fence.facts_revision);
    assert_eq!(graph.fence.generation, before.fence.generation);
    assert_eq!(graph.projection(), before.projection());
}

#[test]
fn authority_impact_stays_sparse_and_matches_full_projection() {
    let (bootstrap, root_key) = closed(116);
    let root = device(&root_key);
    let mut graph = FactGraph::from_bootstrap(&bootstrap);
    let mut targets = Vec::new();
    for seed in 117..137 {
        let target = device(&key(seed));
        let candidate = witnessed_fact(
            &graph,
            &root_key,
            FactBody::RoleGrant {
                target: target.dup(),
                role: Role::Member,
            },
        );
        let (cells, _) = graph.projection_impact_for_fact(&candidate);
        assert_eq!(
            cells.len(),
            1,
            "a current-head grant does not rescan historical authority cells"
        );
        graph.admit_fact(candidate).expect("current-head grant admits");
        assert_eq!(graph.projection(), Projection::from_graph(&graph));
        targets.push(target);
    }

    let revoke = witnessed_fact(
        &graph,
        &root_key,
        FactBody::RoleRevoke {
            target: targets[0].dup(),
        },
    );
    let (cells, _) = graph.projection_impact_for_fact(&revoke);
    assert_eq!(cells.len(), 1, "revoke impact remains cell-local");
    graph.admit_fact(revoke).expect("member revoke admits");
    assert_eq!(graph.projection(), Projection::from_graph(&graph));

    let before = graph.projection();
    let pending = witnessed_fact(
        &graph,
        &root_key,
        FactBody::RoleGrant {
            target: device(&key(137)),
            role: Role::Member,
        },
    );
    let preflight = graph
        .preflight_admission(&pending)
        .expect("rollback candidate preflights");
    let journal = graph
        .begin_checked(pending, preflight)
        .expect("rollback candidate applies");
    assert_eq!(journal.delta().affected_cells().len(), 1);
    journal.rollback();
    assert_eq!(graph.projection(), before);
    assert_eq!(graph.projection(), Projection::from_graph(&graph));
    assert!(graph.authority_lineage(&root).is_singular());
}

#[test]
fn bulk_restore_is_deterministic_and_matches_incremental_projection() {
    let (bootstrap, root_key) = closed(80);
    let first = fact(
        &bootstrap,
        &root_key,
        FactBody::RoleGrant {
            target: device(&key(81)),
            role: Role::Member,
        },
        Vec::new(),
    );
    let mut incremental = FactGraph::from_bootstrap(&bootstrap);
    incremental
        .admit_fact(first.dup())
        .expect("first incremental fact admits");
    let second_body = FactBody::RoleGrant {
        target: device(&key(82)),
        role: Role::Controller,
    };
    let second_witness = incremental.authoring_witness(&second_body, &device(&root_key));
    let second = sign_fact(
        content_from_witness(
            &incremental,
            second_body,
            &second_witness,
            std::iter::empty(),
        ),
        &root_key,
    )
    .expect("exact authoring witness signs the second fact");
    incremental
        .admit_fact(second.dup())
        .expect("second incremental fact admits");

    let mut restored = FactGraph::from_bootstrap(&bootstrap);
    restored
        .bulk_restore_admitted(vec![second, first], Vec::new())
        .expect("bulk restore validates and orders dependencies");
    assert_eq!(restored.projection(), incremental.projection());
    let first_id = incremental.ids().into_iter().next().expect("restored fact id");
    assert_eq!(
        restored.canonical_dependency_edges(&first_id),
        incremental.canonical_dependency_edges(&first_id)
    );
}

#[test]
fn canonical_dependencies_include_declared_authority_predecessors() {
    let (bootstrap, root_key) = closed(83);
    let predecessor = FactId::from_bytes([0xabu8; 32]);
    let target = device(&key(84));
    let fact = fact_with_authority_predecessors(
        &bootstrap,
        &root_key,
        FactBody::RoleGrant {
            target,
            role: Role::Member,
        },
        vec![predecessor],
        &[(device(&root_key), vec![predecessor])],
    );
    assert!(dependencies(&fact).contains(&predecessor));
    let graph = FactGraph::from_bootstrap(&bootstrap);
    assert_eq!(
        graph
            .fact_cost(&fact)
            .expect("fact cost computes")
            .edges,
        dependencies(&fact).len() as u64 + fact.content.authority_uses.len() as u64,
        "canonical dependency rows and authority-use rows are each charged once"
    );
}

#[test]
fn cold_history_retirement_keeps_constant_live_state_and_hydrates_exact_dependencies() {
    let (bootstrap, root_key) = closed(85);
    let author = device(&root_key);
    let target = device(&key(86));
    let mut complete = FactGraph::from_bootstrap(&bootstrap);
    let mut live = FactGraph::from_bootstrap(&bootstrap);
    let mut history = Vec::new();

    for index in 0..64 {
        let body = FactBody::RoleGrant {
            target: target.dup(),
            role: if index % 2 == 0 {
                Role::Member
            } else {
                Role::Controller
            },
        };
        let witness = live.authoring_witness(&body, &author);
        let fact = sign_fact(
            content_from_witness(
                &live,
                body,
                &witness,
                std::iter::empty(),
            ),
            &root_key,
        )
        .expect("cold-history fact signs");
        complete
            .admit_fact(fact.dup())
            .expect("complete reference admits fact");
        live.admit_fact(fact.dup()).expect("live graph admits fact");
        live.retire_cold_history();
        history.push(fact);

        assert_eq!(live.len(), index + 1, "logical history remains exact");
        assert_eq!(live.projection(), complete.projection());
        assert!(
            live.facts.len()
                <= usize::try_from(live.setting.limits.max_hot_history_facts)
                    .unwrap_or(usize::MAX)
                    .saturating_add(4),
            "live continuation stays independent of total history"
        );
        assert_eq!(
            live.ledger.index_bytes,
            live.logical_index_residency_bytes()
                .expect("live index footprint is measurable"),
            "retirement accounting describes only resident indexes"
        );
    }

    let cold = history.first().expect("history has a cold row").dup();
    assert!(live.get(&cold.id).is_none(), "old row is owned by the store");
    let next_body = FactBody::RoleGrant {
        target: target.dup(),
        role: Role::Member,
    };
    let next_witness = live.authoring_witness(&next_body, &author);
    let next = sign_fact(
        content_from_witness(
            &live,
            next_body,
            &next_witness,
            [cold.id],
        ),
        &root_key,
    )
    .expect("cold-dependent fact signs");
    let complete_before_next = complete.dup();
    complete
        .admit_fact(next.dup())
        .expect("complete reference admits cold-dependent fact");
    let next_journal = live
        .begin_with(next, history.dup())
        .expect("durable cold dependency hydrates for admission");
    assert_eq!(
        next_journal.graph().projection(),
        complete.projection(),
        "hydrated single admission matches the complete projection before commit"
    );
    let next_projection_delta = next_journal
        .delta()
        .projection_delta()
        .expect("cold-dependent admission carries a projection delta");
    let expected_next_delta = delta_between(
        &complete.projection(),
        &complete_before_next.projection(),
        complete_before_next.fence.generation,
        complete.fence.generation,
        next_journal.delta().affected_cells(),
        next_journal.delta().affected_subjects(),
    );
    assert_eq!(
        next_projection_delta, &expected_next_delta,
        "single hydrated delta is exact against the complete graph"
    );
    next_journal.commit();
    live.retire_cold_history();
    assert_eq!(live.len(), complete.len());
    assert_eq!(live.projection(), complete.projection());

    // An AlreadyPresent candidate may still have attached cold rows. Its
    // journal must release that overlay on both Drop and explicit
    // rollback, restoring the pre-overlay revision/index/cache fence.
    let already_before = graph_snapshot(&live);
    let already_drop = live
        .begin_with(cold.dup(), history.dup())
        .expect("cold duplicate preflights as AlreadyPresent");
    assert_eq!(already_drop.admission(), &Admission::AlreadyPresent);
    assert!(already_drop.graph().get(&cold.id).is_some());
    drop(already_drop);
    assert_graph_state_eq(&live, &already_before);

    let already_before = graph_snapshot(&live);
    let already_rollback = live
        .begin_with(cold.dup(), history.dup())
        .expect("cold duplicate preflights as AlreadyPresent");
    assert_eq!(already_rollback.admission(), &Admission::AlreadyPresent);
    already_rollback.rollback();
    assert_graph_state_eq(&live, &already_before);

    let aggregate_cold = history[2].dup();
    assert!(
        live.get(&aggregate_cold.id).is_none(),
        "aggregate hydration uses an actually retired signed row"
    );
    let aggregate_before = live.dup();
    let aggregate_body = FactBody::RoleGrant {
        target: target.dup(),
        role: Role::Controller,
    };
    let aggregate_witness = live.authoring_witness(&aggregate_body, &author);
    let aggregate_fact = sign_fact(
        content_from_witness(
            &live,
            aggregate_body,
            &aggregate_witness,
            [aggregate_cold.id],
        ),
        &root_key,
    )
    .expect("aggregate cold-dependent fact signs");
    let mut aggregate_complete = complete.dup();
    aggregate_complete
        .admit_fact(aggregate_fact.dup())
        .expect("complete reference admits aggregate cold-dependent fact");
    let aggregate_journal = live
        .begin_batch_with(vec![aggregate_fact], history.dup())
        .expect("aggregate hydration admits against retired history");
    assert_eq!(
        aggregate_journal.results().len(),
        1,
        "aggregate hydration retains ordered per-input attribution"
    );
    assert!(matches!(
        aggregate_journal.results()[0].outcome(),
        AggregateAdmissionOutcome::Inserted { .. }
    ));
    assert_eq!(
        aggregate_journal.graph().projection(),
        aggregate_complete.projection(),
        "aggregate hydration matches the complete projection before rollback"
    );
    let expected_aggregate_delta = delta_between(
        &aggregate_complete.projection(),
        &aggregate_before.projection(),
        aggregate_before.fence.generation,
        aggregate_complete.fence.generation,
        aggregate_journal.delta().affected_cells(),
        aggregate_journal.delta().affected_subjects(),
    );
    assert_eq!(
        aggregate_journal.delta().projection_delta(),
        Some(&expected_aggregate_delta),
        "aggregate hydrated delta is exact against the complete graph"
    );
    aggregate_journal.rollback();
    assert_graph_state_eq(&live, &aggregate_before);
    assert_eq!(
        live.projection(),
        complete.projection(),
        "rollback retains the canonical projection beyond the bounded hot set"
    );

    let rollback_cold = history[1].dup();
    assert!(live.get(&rollback_cold.id).is_none());
    let before = live.dup();
    let rollback_body = FactBody::RoleGrant {
        target,
        role: Role::Controller,
    };
    let rollback_witness = live.authoring_witness(&rollback_body, &author);
    let rollback_fact = sign_fact(
        content_from_witness(
            &live,
            rollback_body,
            &rollback_witness,
            [rollback_cold.id],
        ),
        &root_key,
    )
    .expect("rollback fact signs");
    live.begin_with(rollback_fact, history)
        .expect("rollback candidate hydrates")
        .rollback();
    assert_eq!(live.len(), before.len());
    assert_eq!(live.projection(), before.projection());
    assert_eq!(live.facts, before.facts);
    assert!(
        live.get(&rollback_cold.id).is_none(),
        "rollback releases cold staging"
    );
    assert_eq!(live.ledger.retained, before.ledger.retained);
}

#[test]
fn ordinary_authority_fork_invalidation_is_order_independent_and_journaled() {
    let (bootstrap, root_key) = closed(251);
    let controller_key = key(252);
    let controller = device(&controller_key);
    let other = device(&key(253));
    let grant_controller = fact(
        &bootstrap,
        &root_key,
        FactBody::RoleGrant {
            target: controller.dup(),
            role: Role::Controller,
        },
        Vec::new(),
    );
    let grant_other = fact_with_authority_predecessors(
        &bootstrap,
        &controller_key,
        FactBody::RoleGrant {
            target: other.dup(),
            role: Role::Member,
        },
        vec![grant_controller.id],
        &[
            (controller.dup(), vec![grant_controller.id]),
            (other.dup(), Vec::new()),
        ],
    );
    let revoke_controller = fact_with_authority_predecessors(
        &bootstrap,
        &root_key,
        FactBody::RoleRevoke {
            target: controller.dup(),
        },
        vec![grant_controller.id],
        &[
            (device(&root_key), vec![grant_controller.id]),
            (controller.dup(), vec![grant_controller.id]),
        ],
    );
    let deeper = device(&key(254));
    let grant_deeper = fact_with_authority_predecessors(
        &bootstrap,
        &controller_key,
        FactBody::RoleGrant {
            target: deeper.dup(),
            role: Role::Member,
        },
        vec![grant_other.id],
        &[
            (controller.dup(), vec![grant_other.id]),
            (deeper.dup(), Vec::new()),
        ],
    );
    let branches = [grant_other, grant_deeper, revoke_controller];

    for reverse in [false, true] {
        let mut seeded = FactGraph::from_bootstrap(&bootstrap);
        seeded
            .admit_fact(grant_controller.dup())
            .expect("common authority parent admits");
        let order = if reverse {
            [
                branches[2].dup(),
                branches[0].dup(),
                branches[1].dup(),
            ]
        } else {
            [
                branches[0].dup(),
                branches[1].dup(),
                branches[2].dup(),
            ]
        };

        let mut direct = seeded.dup();
        direct
            .admit_fact(order[0].dup())
            .expect("first cross-cell branch admits");
        direct
            .admit_fact(order[1].dup())
            .expect("second cross-cell branch or descendant admits");
        let impact = direct.projection_impact_for_fact(&order[2]);
        let prior_cells = [
            ExclusiveCell::role(other.dup()),
            ExclusiveCell::role(deeper.dup()),
            ExclusiveCell::role(controller.dup()),
        ];
        for prior_cell in prior_cells {
            assert!(
                impact.0.contains(&prior_cell),
                "ordinary fork impact retains every earlier branch cell"
            );
        }
        direct
            .admit_fact(order[2].dup())
            .expect("third cross-cell branch admits");
        assert!(direct.get(&grant_controller.id).is_some());
        let mut expected_heads = vec![branches[1].id, branches[2].id];
        expected_heads.sort();
        assert_eq!(
            direct.authority_use_heads(&controller),
            expected_heads,
            "the unresolved authority fork retains both signed heads"
        );
        assert!(direct.projection().role_cell(&other).is_none());
        assert!(direct.projection().role_cell(&deeper).is_none());
        assert!(direct.projection().role_cell(&controller).is_none());
        assert_eq!(direct.projection(), Projection::from_graph(&direct));

        let mut journaled = seeded;
        journaled
            .admit_fact(order[0].dup())
            .expect("journal first branch admits");
        journaled
            .admit_fact(order[1].dup())
            .expect("journal second branch or descendant admits");
        let before_second = graph_snapshot(&journaled);
        let preflight = journaled
            .preflight_admission(&order[2])
            .expect("third branch preflights");
        let journal = journaled
            .begin_checked(order[2].dup(), preflight)
            .expect("third branch journals");
        assert_eq!(
            journal.graph().projection(),
            Projection::from_graph(journal.graph())
        );
        for prior_cell in [
            ExclusiveCell::role(other.dup()),
            ExclusiveCell::role(deeper.dup()),
            ExclusiveCell::role(controller.dup()),
        ] {
            assert!(
                journal.delta().affected_cells().contains(&prior_cell),
                "journal delta explicitly removes every fork branch cell"
            );
        }
        journal.rollback();
        assert_graph_state_eq(&journaled, &before_second);

        let preflight = journaled
            .preflight_admission(&order[2])
            .expect("third branch re-preflights after rollback");
        let journal = journaled
            .begin_checked(order[2].dup(), preflight)
            .expect("third branch re-journals");
        journal.commit();
        assert_eq!(journaled.authority_use_heads(&controller), expected_heads);
        assert_eq!(journaled.projection(), direct.projection());

        let mut aggregate = FactGraph::from_bootstrap(&bootstrap);
        aggregate
            .admit_fact(grant_controller.dup())
            .expect("aggregate common authority parent admits");
        aggregate
            .admit_fact(order[0].dup())
            .expect("aggregate first branch admits");
        aggregate
            .admit_fact(order[1].dup())
            .expect("aggregate second branch or descendant admits");
        let aggregate_before = graph_snapshot(&aggregate);
        let aggregate_journal = aggregate
            .begin_batch(vec![order[2].dup()])
            .expect("aggregate third branch journals");
        for prior_cell in [
            ExclusiveCell::role(other.dup()),
            ExclusiveCell::role(deeper.dup()),
            ExclusiveCell::role(controller.dup()),
        ] {
            assert!(
                aggregate_journal
                    .delta()
                    .affected_cells()
                    .contains(&prior_cell),
                "aggregate delta explicitly removes every fork branch cell"
            );
        }
        assert_eq!(
            aggregate_journal.graph().projection(),
            Projection::from_graph(aggregate_journal.graph())
        );
        drop(aggregate_journal);
        assert_graph_state_eq(&aggregate, &aggregate_before);
        let aggregate_journal = aggregate
            .begin_batch(vec![order[2].dup()])
            .expect("aggregate third branch re-journals");
        aggregate_journal.rollback();
        assert_graph_state_eq(&aggregate, &aggregate_before);
    }
}

fn frontier_fixture(
    bootstrap_seed: u8,
    child_count: u8,
) -> (FactGraph, SignedFact, FactGraph, Vec<FactId>, Vec<FactId>) {
    let (bootstrap, root_key) = closed(bootstrap_seed);
    let root = device(&root_key);
    let policy = SemanticAdmissionPolicy {
        max_ready_batch: 1,
        ..SemanticAdmissionPolicy::default()
    };
    let mut graph = FactGraph::from_bootstrap_with_policy(&bootstrap, policy);
    let mut root_head = None;
    let mut supports = Vec::new();
    for offset in 0..child_count {
        let author_key = key(bootstrap_seed.wrapping_add(10 + offset));
        let author = device(&author_key);
        let target = device(&key(bootstrap_seed.wrapping_add(40 + offset)));
        let root_parents = root_head.into_iter().collect::<Vec<_>>();
        let author_support = fact_with_authority_predecessors(
            &bootstrap,
            &root_key,
            FactBody::RoleGrant {
                target: author.dup(),
                role: Role::Owner,
            },
            root_parents.dup(),
            &[(root.dup(), root_parents), (author.dup(), Vec::new())],
        );
        graph
            .admit_fact(author_support.dup())
            .expect("support grant admits before the waiter frontier");
        root_head = Some(author_support.id);
        let target_parents = root_head.into_iter().collect::<Vec<_>>();
        let target_support = fact_with_authority_predecessors(
            &bootstrap,
            &root_key,
            FactBody::RoleGrant {
                target: target.dup(),
                role: Role::Member,
            },
            target_parents.dup(),
            &[(root.dup(), target_parents), (target, Vec::new())],
        );
        graph
            .admit_fact(target_support.dup())
            .expect("target support admits before the waiter frontier");
        root_head = Some(target_support.id);
        supports.push((author_key, author_support, target_support));
    }
    let parent_target = device(&key(bootstrap_seed.wrapping_add(1)));
    let parent_parents = root_head.into_iter().collect::<Vec<_>>();
    let parent = fact_with_authority_predecessors(
        &bootstrap,
        &root_key,
        FactBody::RoleGrant {
            target: parent_target.dup(),
            role: Role::Member,
        },
        parent_parents.dup(),
        &[
            (root.dup(), parent_parents),
            (device(&key(bootstrap_seed.wrapping_add(1))), Vec::new()),
        ],
    );
    let mut children = Vec::new();
    for (author_key, author_support, target_support) in &supports {
        let author = device(author_key);
        let target = match &target_support.content.body {
            FactBody::RoleGrant { target, .. } => target.dup(),
            _ => unreachable!("target support is a role grant"),
        };
        let child = fact_with_authority_predecessors(
            &bootstrap,
            author_key,
            FactBody::RoleGrant {
                target: target.dup(),
                role: Role::Controller,
            },
            vec![parent.id, author_support.id, target_support.id],
            &[
                (author.dup(), vec![author_support.id]),
                (target, vec![target_support.id]),
            ],
        );
        children.push(child);
    }
    let mut grandchildren = Vec::new();
    for (offset, child) in children.iter().enumerate() {
        let (author_key, _, target_support) = &supports[offset];
        let target = match &target_support.content.body {
            FactBody::RoleGrant { target, .. } => target.dup(),
            _ => unreachable!("target support is a role grant"),
        };
        let grandchild = fact_with_authority_predecessors(
            &bootstrap,
            author_key,
            FactBody::RoleGrant {
                target: target.dup(),
                role: Role::Owner,
            },
            vec![child.id],
            &[
                (device(author_key), vec![child.id]),
                (target, vec![child.id]),
            ],
        );
        grandchildren.push(grandchild);
    }
    let trigger = fact_with_authority_predecessors(
        &bootstrap,
        &root_key,
        FactBody::RoleGrant {
            target: device(&key(bootstrap_seed.wrapping_add(100))),
            role: Role::Member,
        },
        vec![parent.id],
        &[
            (root.dup(), vec![parent.id]),
            (device(&key(bootstrap_seed.wrapping_add(100))), Vec::new()),
        ],
    );

    // Prove the exact signed rows are dependency-valid before placing
    // the same rows into the intentionally incomplete quarantine graph.
    let mut reference = FactGraph::from_bootstrap_with_policy(&bootstrap, policy);
    for (_, author_support, target_support) in &supports {
        assert_eq!(
            reference.admit_fact(author_support.dup()),
            Ok(Admission::Inserted)
        );
        assert_eq!(
            reference.admit_fact(target_support.dup()),
            Ok(Admission::Inserted)
        );
    }
    assert_eq!(reference.admit_fact(parent.dup()), Ok(Admission::Inserted));
    for child in &children {
        assert_eq!(reference.admit_fact(child.dup()), Ok(Admission::Inserted));
    }
    for grandchild in &grandchildren {
        assert_eq!(reference.admit_fact(grandchild.dup()), Ok(Admission::Inserted));
    }
    assert_eq!(reference.admit_fact(trigger.dup()), Ok(Admission::Inserted));

    for child in &children {
        assert!(matches!(
            graph.admit_fact(child.dup()),
            Ok(Admission::Quarantined { .. })
        ));
    }
    for grandchild in &grandchildren {
        assert!(matches!(
            graph.admit_fact(grandchild.dup()),
            Ok(Admission::Quarantined { .. })
        ));
    }
    graph
        .admit_fact(parent.dup())
        .expect("parent admits one ready child");
    assert_eq!(
        graph.quarantine.ready.len(),
        usize::from(child_count),
        "admit wakes the full frontier; journaled apply enforces the promotion bound"
    );
    let child_ids = children.iter().map(|child| child.id).collect();
    let grandchild_ids = grandchildren.iter().map(|fact| fact.id).collect();
    (graph, trigger, reference, child_ids, grandchild_ids)
}

#[test]
fn aggregate_preplanning_work_tracks_ready_frontier_without_extra_promotion() {
    let (mut small, small_trigger, small_reference, small_children, small_grandchildren) =
        frontier_fixture(197, 2);
    let (
        mut expanded,
        expanded_trigger,
        _expanded_reference,
        _expanded_children,
        _expanded_grandchildren,
    ) = frontier_fixture(217, 8);
    let small_before = graph_snapshot(&small);
    let expanded_before = graph_snapshot(&expanded);

    // End the journal-bearing Result's drop scope before borrowing the graph again.
    {
        let small_result = small.begin_batch(vec![small_trigger.dup()]);
        match small_result {
            Err(error) => assert!(
                matches!(
                    &error,
                    SemanticError::CapacityExceeded {
                        dimension: SemanticCapacityDimension::ReadyBatch,
                        ..
                    }
                ),
                "small frontier returned unexpected error: {error:?}"
            ),
            Ok(journal) => {
                let outcomes = journal
                    .results()
                    .iter()
                    .map(|result| format!("{:?}", result.outcome()))
                    .collect::<Vec<_>>();
                panic!(
                "small frontier unexpectedly succeeded: outcomes={outcomes:?} ready={} rows={} promoted={} removed={}",
                journal.graph().quarantine.ready.len(),
                journal.delta().rows().len(),
                journal.delta().promoted().len(),
                journal.delta().removed().len(),
            );
            }
        }
    }

    {
        let expanded_result = expanded.begin_batch(vec![expanded_trigger]);
        match expanded_result {
            Err(error) => assert!(
                matches!(
                    &error,
                    SemanticError::CapacityExceeded {
                        dimension: SemanticCapacityDimension::ReadyBatch,
                        ..
                    }
                ),
                "expanded frontier returned unexpected error: {error:?}"
            ),
            Ok(journal) => {
                let outcomes = journal
                    .results()
                    .iter()
                    .map(|result| format!("{:?}", result.outcome()))
                    .collect::<Vec<_>>();
                panic!(
                "expanded frontier unexpectedly succeeded: outcomes={outcomes:?} ready={} rows={} promoted={} removed={}",
                journal.graph().quarantine.ready.len(),
                journal.delta().rows().len(),
                journal.delta().promoted().len(),
                journal.delta().removed().len(),
            );
            }
        }
    }

    assert_graph_state_eq(&small, &small_before);
    assert_graph_state_eq(&expanded, &expanded_before);
    assert_eq!(small.projection(), Projection::from_graph(&small));
    assert_eq!(expanded.projection(), Projection::from_graph(&expanded));

    small.setting.limits.max_ready_batch = 4;
    let sufficient_before = graph_snapshot(&small);
    let small_trigger_id = small_trigger.id;
    let sufficient_journal = small
        .begin_batch(vec![small_trigger.dup()])
        .expect("sufficient canonical retry envelope reaches its fixed point");
    assert!(matches!(
        sufficient_journal.results()[0].outcome(),
        AggregateAdmissionOutcome::Inserted { fact_id } if *fact_id == small_trigger_id
    ));
    let expected_promoted = small_children
        .iter()
        .chain(&small_grandchildren)
        .copied()
        .collect::<BTreeSet<_>>();
    assert_eq!(
        sufficient_journal.results()[0]
            .delta()
            .promoted()
            .iter()
            .copied()
            .collect::<BTreeSet<_>>(),
        expected_promoted
    );
    assert_eq!(
        sufficient_journal
            .delta()
            .promoted()
            .iter()
            .copied()
            .collect::<BTreeSet<_>>(),
        expected_promoted
    );
    assert!(sufficient_journal.results()[0].delta().removed().is_empty());
    assert!(sufficient_journal.delta().removed().is_empty());
    assert_eq!(sufficient_journal.results()[0].delta().promoted().len(), 4);
    assert_eq!(sufficient_journal.delta().promoted().len(), 4);
    for delta in [
        sufficient_journal.results()[0].delta(),
        sufficient_journal.delta(),
    ] {
        assert_eq!(delta.rows().len(), 5);
        assert!(delta
            .rows()
            .iter()
            .all(|row| row.status() == SemanticFactStatus::Admitted));
    }
    assert_eq!(sufficient_journal.graph().quarantined().len(), 0);
    let admitted_rows = sufficient_journal.results()[0]
        .delta()
        .rows()
        .iter()
        .map(|row| row.fact().id)
        .collect::<BTreeSet<_>>();
    let mut expected_rows = expected_promoted.dup();
    expected_rows.insert(small_trigger_id);
    assert_eq!(admitted_rows, expected_rows);
    let aggregate_rows = sufficient_journal
        .delta()
        .rows()
        .iter()
        .map(|row| row.fact().id)
        .collect::<BTreeSet<_>>();
    assert_eq!(aggregate_rows, expected_rows);
    assert_eq!(
        sufficient_journal.graph().projection(),
        small_reference.projection()
    );
    sufficient_journal.rollback();
    assert_graph_state_eq(&small, &sufficient_before);

    let mut dropped = sufficient_before.dup();
    let drop_journal = dropped
        .begin_batch(vec![small_trigger.dup()])
        .expect("drop control reaches the same transitive fixed point");
    assert_eq!(
        drop_journal.results()[0]
            .delta()
            .promoted()
            .iter()
            .copied()
            .collect::<BTreeSet<_>>(),
        expected_promoted
    );
    drop(drop_journal);
    assert_graph_state_eq(&dropped, &sufficient_before);
}

#[test]
fn aggregate_ready_leaf_rollback_and_drop_preserve_seed_ownership() {
    // A ready leaf has no descendant waiter through which rollback could
    // discover its preimage. Exercise both promotion and terminal removal
    // from the same exact ready-leaf baseline.
    let (leaf_bootstrap, leaf_root_key) = closed(247);
    let leaf_parent_target = device(&key(248));
    let leaf_parent = fact(
        &leaf_bootstrap,
        &leaf_root_key,
        FactBody::RoleGrant {
            target: leaf_parent_target,
            role: Role::Member,
        },
        Vec::new(),
    );
    let leaf_target = device(&key(249));
    let leaf = fact_with_authority_predecessors(
        &leaf_bootstrap,
        &leaf_root_key,
        FactBody::RoleGrant {
            target: leaf_target.dup(),
            role: Role::Controller,
        },
        vec![leaf_parent.id],
        &[
            (device(&leaf_root_key), vec![leaf_parent.id]),
            (leaf_target, Vec::new()),
        ],
    );
    let leaf_id = leaf.id;
    let leaf_trigger = fact_with_authority_predecessors(
        &leaf_bootstrap,
        &leaf_root_key,
        FactBody::RoleGrant {
            target: device(&key(250)),
            role: Role::Member,
        },
        vec![leaf_parent.id],
        &[
            (device(&leaf_root_key), vec![leaf_parent.id]),
            (device(&key(250)), Vec::new()),
        ],
    );
    let mut leaf_graph = FactGraph::from_bootstrap_with_policy(
        &leaf_bootstrap,
        SemanticAdmissionPolicy {
            max_ready_batch: 2,
            ..SemanticAdmissionPolicy::default()
        },
    );
    // Prove the exact signed rows are legal before staging a missing
    // dependency. A fresh target has no authority predecessor even though
    // the author's lineage and generic dependency cite the parent.
    let mut reference = graph_snapshot(&leaf_graph);
    for row in [&leaf_parent, &leaf, &leaf_trigger] {
        assert!(row.verify().is_ok());
        assert_eq!(reference.admit_fact(row.dup()), Ok(Admission::Inserted));
    }
    // Both signed siblings are retained, but neither remains authoritative
    // after the root's fork. Recompute independently of either admission
    // cache: only their common parent's distinct role cell remains.
    let full_reference = Projection::from_graph(&reference);
    assert_eq!(reference.projection(), full_reference);
    assert_eq!(full_reference.cells.len(), 1);
    assert_eq!(
        full_reference.value(&ExclusiveCell::role(device(&key(248)))),
        Some(leaf_parent.id)
    );
    assert!(full_reference.role_cell(&device(&key(249))).is_none());
    assert!(full_reference.role_cell(&device(&key(250))).is_none());
    let mut expected_heads = vec![leaf_id, leaf_trigger.id];
    expected_heads.sort();
    assert_eq!(
        reference.authority_use_heads(&device(&leaf_root_key)),
        expected_heads
    );
    assert!(matches!(
        leaf_graph.admit_fact(leaf),
        Ok(Admission::Quarantined { .. })
    ));
    assert_eq!(
        leaf_graph.admit_fact(leaf_parent.dup()),
        Ok(Admission::Inserted)
    );
    assert_eq!(
        leaf_graph
            .quarantine.ready.to_vec(),
        [leaf_id]
    );
    let leaf_before = graph_snapshot(&leaf_graph);

    let mut leaf_promoted = leaf_before.dup();
    let leaf_journal = leaf_promoted
        .begin_batch(vec![leaf_trigger.dup()])
        .expect("ready leaf promotion remains bounded");
    assert_eq!(leaf_journal.results()[0].delta().promoted(), &[leaf_id]);
    assert!(leaf_journal.results()[0].delta().removed().is_empty());
    assert_eq!(leaf_journal.delta().promoted(), &[leaf_id]);
    let full_journal = Projection::from_graph(leaf_journal.graph());
    assert_eq!(full_journal, full_reference);
    assert_eq!(leaf_journal.graph().projection(), full_journal);
    assert_eq!(
        leaf_journal.graph().ids().into_iter().collect::<BTreeSet<_>>(),
        [leaf_parent.id, leaf_id, leaf_trigger.id]
            .into_iter()
            .collect::<BTreeSet<_>>()
    );
    leaf_journal.rollback();
    assert_graph_state_eq(&leaf_promoted, &leaf_before);

    let mut leaf_dropped = leaf_before.dup();
    let leaf_journal = leaf_dropped
        .begin_batch(vec![leaf_trigger.dup()])
        .expect("ready leaf Drop control remains bounded");
    assert_eq!(leaf_journal.results()[0].delta().promoted(), &[leaf_id]);
    assert_eq!(Projection::from_graph(leaf_journal.graph()), full_reference);
    assert_eq!(leaf_journal.graph().projection(), full_reference);
    drop(leaf_journal);
    assert_graph_state_eq(&leaf_dropped, &leaf_before);

    let mut terminal_leaf = leaf_before.dup();
    let original_cost = terminal_leaf
        .fact_encoded_and_edges(terminal_leaf.quarantine.facts.get(&leaf_id).unwrap())
        .expect("original ready leaf cost is measurable");
    alter(&mut terminal_leaf.quarantine.facts, leaf_id, |waiter| {
        let replacement = if waiter.signature.starts_with('a') {
            "b"
        } else {
            "a"
        };
        waiter.signature.replace_range(..1, replacement);
            recheck(waiter);
        assert!(matches!(
            waiter.verify(),
            Err(SemanticError::InvalidSignature)
        ));
    });
    assert_eq!(
        terminal_leaf
            .fact_encoded_and_edges(terminal_leaf.quarantine.facts.get(&leaf_id).unwrap())
            .expect("tampered ready leaf cost is measurable"),
        original_cost,
        "terminal corruption preserves the exact funded cost"
    );
    let terminal_before = graph_snapshot(&terminal_leaf);
    let terminal_journal = terminal_leaf
        .begin_batch(vec![leaf_trigger.dup()])
        .expect("terminal ready leaf removal remains bounded");
    assert!(terminal_journal.results()[0].delta().promoted().is_empty());
    assert_eq!(terminal_journal.results()[0].delta().removed(), &[leaf_id]);
    assert_eq!(terminal_journal.delta().removed(), &[leaf_id]);
    terminal_journal.rollback();
    assert_graph_state_eq(&terminal_leaf, &terminal_before);

    let mut terminal_dropped = terminal_before.dup();
    let terminal_journal = terminal_dropped
        .begin_batch(vec![leaf_trigger])
        .expect("terminal ready leaf Drop control remains bounded");
    assert_eq!(terminal_journal.results()[0].delta().removed(), &[leaf_id]);
    drop(terminal_journal);
    assert_graph_state_eq(&terminal_dropped, &terminal_before);
}

#[test]
fn aggregate_retry_budget_is_cumulative_across_inputs() {
    let (bootstrap, root_key) = closed(228);
    let target_a = device(&key(229));
    let target_b = device(&key(230));
    let parent_a = fact(
        &bootstrap,
        &root_key,
        FactBody::RoleGrant {
            target: target_a.dup(),
            role: Role::Member,
        },
        Vec::new(),
    );
    let parent_b = fact(
        &bootstrap,
        &root_key,
        FactBody::RoleGrant {
            target: target_b.dup(),
            role: Role::Member,
        },
        Vec::new(),
    );
    let child_a = fact(
        &bootstrap,
        &root_key,
        FactBody::RoleGrant {
            target: target_a,
            role: Role::Controller,
        },
        vec![parent_a.id],
    );
    let terminal_a = fact(
        &bootstrap,
        &root_key,
        FactBody::RoleGrant {
            target: device(&key(229)),
            role: Role::Owner,
        },
        vec![parent_a.id],
    );
    let child_b = fact(
        &bootstrap,
        &root_key,
        FactBody::RoleGrant {
            target: target_b,
            role: Role::Controller,
        },
        vec![parent_b.id],
    );
    let mut graph = FactGraph::from_bootstrap_with_policy(
        &bootstrap,
        SemanticAdmissionPolicy {
            max_ready_batch: 2,
            ..SemanticAdmissionPolicy::default()
        },
    );
    assert!(matches!(
        graph.admit_fact(child_a.dup()),
        Ok(Admission::Quarantined { .. })
    ));
    assert!(matches!(
        graph.admit_fact(terminal_a.dup()),
        Ok(Admission::Quarantined { .. })
    ));
    assert!(matches!(
        graph.admit_fact(child_b.dup()),
        Ok(Admission::Quarantined { .. })
    ));
    for id in [child_a.id, terminal_a.id] {
        let original_cost = graph
            .fact_encoded_and_edges(graph.quarantine.facts.get(&id).unwrap())
            .expect("original terminal waiter cost is measurable");
        alter(&mut graph.quarantine.facts, id, |waiter| {
            // Corrupt authentication without changing its funded encoded
            // size. Appending bytes would invalidate the fixture ledger.
            let replacement = if waiter.signature.starts_with('a') {
                "b"
            } else {
                "a"
            };
            waiter.signature.replace_range(..1, replacement);
            recheck(waiter);
            assert!(matches!(
                waiter.verify(),
                Err(SemanticError::InvalidSignature)
            ));
        });
        assert_eq!(
            graph
                .fact_encoded_and_edges(graph.quarantine.facts.get(&id).unwrap())
                .expect("tampered terminal waiter cost is measurable"),
            original_cost,
            "terminal corruption preserves funded bytes and dependency edges"
        );
    }
    let before = graph_snapshot(&graph);
    assert!(matches!(
        graph.begin_batch(vec![parent_a.dup(), parent_b.dup()]),
        Err(SemanticError::CapacityExceeded {
            dimension: SemanticCapacityDimension::ReadyBatch,
            limit: 2,
            observed: 3,
        })
    ));
    assert_graph_state_eq(&graph, &before);

    // A reset-per-input implementation would incorrectly accept this
    // shape: parent A consumes two terminal waiter removals, while
    // parent B wakes one valid promotion.  The cumulative envelope must
    // account for all three retry entries and restore the outer graph.
    let mut sufficient = before.dup();
    sufficient.setting.limits.max_ready_batch = 3;
    let journal = sufficient
        .begin_batch(vec![parent_a.dup(), parent_b.dup()])
        .expect("B3 permits both terminal removals and the promotion");
    assert_eq!(journal.delta().rows().len(), 3);
    assert_eq!(journal.delta().removed().len(), 2);
    assert_eq!(journal.delta().promoted().len(), 1);
    assert!(journal.delta().removed().contains(&child_a.id));
    assert!(journal.delta().removed().contains(&terminal_a.id));
    assert!(journal.delta().promoted().contains(&child_b.id));
    assert!(journal.graph().get(&parent_a.id).is_some());
    assert!(journal.graph().get(&parent_b.id).is_some());
    assert!(journal.graph().get(&child_b.id).is_some());
    assert!(journal.graph().get(&child_a.id).is_none());
    assert!(journal.graph().get(&terminal_a.id).is_none());
    journal.commit();
    assert_eq!(sufficient.quarantined().len(), 0);

    // The aggregate journal owns the same mixed closure and must restore
    // every scalar, index, and projection on Drop.
    let mut dropped = before;
    dropped.setting.limits.max_ready_batch = 3;
    let dropped_before = graph_snapshot(&dropped);
    let journal = dropped
        .begin_batch(vec![parent_a, parent_b])
        .expect("drop control reaches the mixed retry closure");
    assert_eq!(journal.delta().removed().len(), 2);
    assert_eq!(journal.delta().promoted().len(), 1);
    drop(journal);
    assert_graph_state_eq(&dropped, &dropped_before);
}

#[test]
fn aggregate_journal_is_ordered_and_isolates_input_refusal() {
    let (bootstrap, root_key) = closed(231);
    let first = fact(
        &bootstrap,
        &root_key,
        FactBody::RoleGrant {
            target: device(&key(232)),
            role: Role::Member,
        },
        Vec::new(),
    );
    let mut refused = first.dup();
    refused.signature.push('x');
    recheck(&mut refused);
    let second = fact(
        &bootstrap,
        &root_key,
        FactBody::RoleGrant {
            target: device(&key(233)),
            role: Role::Member,
        },
        Vec::new(),
    );
    let mut graph = FactGraph::from_bootstrap(&bootstrap);
    let before = graph_snapshot(&graph);
    let journal = graph
        .begin_batch(vec![first.dup(), first.dup(), refused, second.dup()])
        .expect("input-local refusal does not abort valid group members");
    assert_eq!(journal.results().len(), 4);
    assert!(matches!(
        journal.results()[0].outcome(),
        AggregateAdmissionOutcome::Inserted { fact_id } if *fact_id == first.id
    ));
    assert!(matches!(
        journal.results()[1].outcome(),
        AggregateAdmissionOutcome::AlreadyPresent { fact_id } if *fact_id == first.id
    ));
    assert!(matches!(
        journal.results()[2].outcome(),
        AggregateAdmissionOutcome::Refused {
            fact_id,
            error: SemanticError::InvalidSignature,
        } if *fact_id == first.id
    ));
    assert!(matches!(
        journal.results()[3].outcome(),
        AggregateAdmissionOutcome::Inserted { fact_id } if *fact_id == second.id
    ));
    assert_eq!(journal.delta().rows().len(), 2);
    assert!(journal.graph().get(&first.id).is_some());
    assert!(journal.graph().get(&second.id).is_some());
    journal.rollback();
    assert_graph_state_eq(&graph, &before);
}

#[test]
fn aggregate_journal_evolves_graph_and_attributes_promotions() {
    let (bootstrap, root_key) = closed(234);
    let target = device(&key(235));
    let parent = fact(
        &bootstrap,
        &root_key,
        FactBody::RoleGrant {
            target: target.dup(),
            role: Role::Member,
        },
        Vec::new(),
    );
    let child = fact(
        &bootstrap,
        &root_key,
        FactBody::RoleGrant {
            target,
            role: Role::Controller,
        },
        vec![parent.id],
    );
    let grandchild = fact(
        &bootstrap,
        &root_key,
        FactBody::RoleGrant {
            target: device(&key(235)),
            role: Role::Owner,
        },
        vec![child.id],
    );
    let trigger = fact(
        &bootstrap,
        &root_key,
        FactBody::RoleGrant {
            target: device(&key(236)),
            role: Role::Member,
        },
        Vec::new(),
    );
    let mut graph = FactGraph::from_bootstrap(&bootstrap);
    let aggregate_before = graph_snapshot(&graph);
    let parent_id = parent.id;
    let child_id = child.id;
    let grandchild_id = grandchild.id;
    let journal = graph
        .begin_batch(vec![grandchild.dup(), child.dup(), parent.dup()])
        .expect("bounded group admits against its evolving graph");
    assert!(matches!(
        journal.results()[0].outcome(),
        AggregateAdmissionOutcome::Quarantined { fact_id, missing }
            if *fact_id == grandchild.id && missing == &vec![child.id]
    ));
    assert!(matches!(
        journal.results()[1].outcome(),
        AggregateAdmissionOutcome::Quarantined { fact_id, missing }
            if *fact_id == child.id && missing == &vec![parent.id]
    ));
    assert!(matches!(
        journal.results()[2].outcome(),
        AggregateAdmissionOutcome::Inserted { fact_id } if *fact_id == parent.id
    ));
    assert!(journal.results()[2].delta().promoted().contains(&child.id));
    assert!(journal.results()[2]
        .delta()
        .promoted()
        .contains(&grandchild.id));
    assert!(journal.graph().get(&grandchild.id).is_some());
    journal.commit();
    assert!(graph.get(&parent.id).is_some());
    assert!(graph.get(&child.id).is_some());
    assert!(graph.get(&grandchild.id).is_some());

    let dropped_before = aggregate_before.dup();
    let mut dropped = aggregate_before;
    let journal = dropped
        .begin_batch(vec![grandchild.dup(), child.dup(), parent.dup()])
        .expect("aggregate drop reaches transitive promotion");
    assert_eq!(journal.delta().rows().len(), 3);
    assert!(journal.delta().promoted().is_empty());
    let mut row_ids = BTreeSet::new();
    for row in journal.delta().rows() {
        assert_eq!(row.status(), SemanticFactStatus::Admitted);
        row_ids.insert(row.fact().id);
    }
    assert_eq!(
        row_ids,
        [parent_id, child_id, grandchild_id]
            .into_iter()
            .collect::<BTreeSet<_>>()
    );
    assert!(journal.results()[2].delta().promoted().contains(&child_id));
    assert!(journal.results()[2]
        .delta()
        .promoted()
        .contains(&grandchild_id));
    assert!(journal.graph().get(&parent_id).is_some());
    assert!(journal.graph().get(&child_id).is_some());
    assert!(journal.graph().get(&grandchild_id).is_some());
    drop(journal);
    assert_graph_state_eq(&dropped, &dropped_before);

    let journal = graph
        .begin_batch(vec![trigger.dup()])
        .expect("a later bounded group retries the transitive waiter");
    assert!(matches!(
        journal.results()[0].outcome(),
        AggregateAdmissionOutcome::Inserted { fact_id } if *fact_id == trigger.id
    ));
    assert!(!journal.results()[0]
        .delta()
        .promoted()
        .contains(&grandchild.id));
    assert!(journal.graph().get(&grandchild.id).is_some());
    journal.commit();
    assert!(graph.get(&grandchild.id).is_some());
}

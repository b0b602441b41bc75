//! What holds of every graph, on chosen values: identities and encodings,
//! lineages, refusals, journals, checkpoints and projections.
use data_encoding::BASE32_NOPAD;
use ed25519_dalek::{Signature, Signer, SigningKey, VerifyingKey};
use mesh_semantic::admission::Admission;
use mesh_semantic::capture::{note, put_back, Prior};
use mesh_semantic::checkpoint::CheckpointError;
use mesh_semantic::content::{
    AttestationDecision, AuthorityLineage, AuthorityUse, ExclusiveCell, FactBody, FactDomain, Role,
};
use mesh_semantic::delta::SemanticDelta;
use mesh_semantic::device::{DeviceId, DeviceIdError};
use mesh_semantic::encode::Encoder;
use mesh_semantic::error::{SemanticCapacityDimension, SemanticError};
use mesh_semantic::evaluator::AuthoringWitness;
use mesh_semantic::fact::{dependencies, Checked, FactContent, SignedFact};
use mesh_semantic::graph::{CellProjection, FactGraph, Projection, Usage};
use mesh_semantic::ids::{FactId, MeshContextId};
use mesh_semantic::listing::{list_map, list_sets, read_map, read_set, read_sets};
use mesh_semantic::ordmap::OrdMap;
use mesh_semantic::ordset::{Duplicate, OrdSet};
use mesh_semantic::policy::{SemanticAdmissionPolicy, VerifiedBootstrap, VerifiedProjectPolicy};
use mesh_semantic::rollback::GraphRollback;

/// The bytes that a signature covers.
fn signed_bytes(content: &FactContent) -> Vec<u8> {
    let mut out = Encoder::new();
    out.context(content.mesh_context);
    content.body.encode(&mut out);
    out.device(&content.author);
    out.list_ids(&content.parents);
    out.list_authority_uses(&content.authority_uses);
    out.finish()
}

/// A digest that tells the contents of a scenario apart.
fn digest(bytes: &[u8]) -> FactId {
    let mut id = [0u8; 32];
    for lane in 0..4usize {
        let mut state: u64 = 0xcbf2_9ce4_8422_2324 ^ (lane as u64).wrapping_mul(0x9e37_79b9_7f4a_7c15);
        for byte in bytes {
            state = (state ^ u64::from(*byte)).wrapping_mul(0x0000_0100_0000_01b3);
            state ^= state >> 29;
        }
        id[lane * 8..lane * 8 + 8].copy_from_slice(&(!state).to_be_bytes());
    }
    FactId::from_bytes(id)
}

fn hex(bytes: &[u8]) -> String {
    bytes.iter().map(|byte| format!("{byte:02x}")).collect()
}

fn unhex(text: &str) -> Option<[u8; 64]> {
    let digits = text.as_bytes();
    if digits.len() != 128 {
        return None;
    }
    let mut out = [0u8; 64];
    for (index, pair) in digits.chunks(2).enumerate() {
        let pair = std::str::from_utf8(pair).ok()?;
        out[index] = u8::from_str_radix(pair, 16).ok()?;
    }
    Some(out)
}

/// Examines the identifier and the signature of a fact anew.
fn recheck(fact: &mut SignedFact) {
    let bytes = signed_bytes(&fact.content);
    let content_id = digest(&bytes);
    let author = VerifyingKey::from_bytes(&fact.content.author.as_bytes());
    let signed = match (author, unhex(&fact.signature)) {
        (Ok(author), Some(signature)) => author
            .verify_strict(&bytes, &Signature::from_bytes(&signature))
            .is_ok(),
        _ => false,
    };
    let refusal = if content_id != fact.id {
        Some(SemanticError::FactIdMismatch)
    } else if !signed {
        Some(SemanticError::InvalidSignature)
    } else {
        None
    };
    fact.checked = Checked {
        refusal,
        content_id,
        encoded_bytes: Some((bytes.len() + fact.signature.len() + 32) as u64),
    };
}

fn sign_fact(content: FactContent, signing_key: &SigningKey) -> Result<SignedFact, SemanticError> {
    let bytes = signed_bytes(&content);
    let id = digest(&bytes);
    let mut fact = SignedFact {
        id,
        content,
        signature: hex(&signing_key.sign(&bytes).to_bytes()),
        checked: Checked {
            refusal: None,
            content_id: id,
            encoded_bytes: None,
        },
    };
    recheck(&mut fact);
    fact.verify()?;
    Ok(fact)
}

fn sorted(mut ids: Vec<FactId>) -> Vec<FactId> {
    ids.sort();
    ids.dedup();
    ids
}

/// Content whose authority uses all follow the parents.
fn content_new(
    context: MeshContextId,
    mut body: FactBody,
    author: DeviceId,
    parents: Vec<FactId>,
) -> FactContent {
    body.normalize();
    let parents = sorted(parents);
    let authority_uses = body
        .authority_use_subjects(&author)
        .into_iter()
        .map(|subject| AuthorityUse::new(subject, parents.clone()))
        .collect();
    FactContent {
        mesh_context: context,
        body,
        author,
        parents,
        authority_uses,
    }
}

/// Content that carries a witness and further parents; each authority use
/// follows the heads of its own lineage.
fn content_from_witness(
    graph: &FactGraph,
    mut body: FactBody,
    witness: &AuthoringWitness,
    extra: impl IntoIterator<Item = FactId>,
) -> FactContent {
    body.normalize();
    let author = *witness.author();
    let mut parents = witness.parents().to_vec();
    parents.extend(extra);
    let authority_uses = body
        .authority_use_subjects(&author)
        .into_iter()
        .map(|subject| AuthorityUse::new(subject, graph.authority_use_heads(&subject)))
        .collect();
    FactContent {
        mesh_context: graph.context_id(),
        body,
        author,
        parents: sorted(parents),
        authority_uses,
    }
}

fn key(seed: u8) -> SigningKey {
    SigningKey::from_bytes(&[seed; 32])
}

fn device(key: &SigningKey) -> DeviceId {
    DeviceId::from_public_key_bytes(*key.verifying_key().as_bytes()).unwrap()
}

fn closed(seed: u8) -> (VerifiedBootstrap, SigningKey) {
    let signing_key = key(seed);
    (
        VerifiedBootstrap {
            context: MeshContextId::from_bytes([seed; 32]),
            roots: vec![device(&signing_key)],
            policy: VerifiedProjectPolicy::Closed,
        },
        signing_key,
    )
}

fn fact(
    bootstrap: &VerifiedBootstrap,
    signing_key: &SigningKey,
    body: FactBody,
    parents: Vec<FactId>,
) -> SignedFact {
    sign_fact(
        content_new(bootstrap.context_id(), body, device(signing_key), parents),
        signing_key,
    )
    .unwrap()
}

fn witnessed(graph: &FactGraph, signing_key: &SigningKey, body: FactBody) -> SignedFact {
    let witness = graph.authoring_witness(&body, &device(signing_key));
    sign_fact(
        content_from_witness(graph, body, &witness, std::iter::empty()),
        signing_key,
    )
    .unwrap()
}

fn grant(target: DeviceId, role: Role) -> FactBody {
    FactBody::RoleGrant { target, role }
}

fn id(byte: u8) -> FactId {
    FactId::from_bytes([byte; 32])
}

/// A graph with a member that was put out.
fn put_out(seed: u8) -> (FactGraph, VerifiedBootstrap, SigningKey, SigningKey, DeviceId) {
    let (bootstrap, root) = closed(seed);
    let voter = key(seed.wrapping_add(1));
    let target = device(&key(seed.wrapping_add(2)));
    let mut graph = FactGraph::from_bootstrap(&bootstrap);
    for body in [
        grant(device(&voter), Role::Member),
        grant(target, Role::Member),
        FactBody::Evict { target },
    ] {
        let fact = witnessed(&graph, &root, body);
        assert_eq!(graph.admit_fact(fact), Ok(Admission::Inserted));
    }
    (graph, bootstrap, root, voter, target)
}

/// A graph with a member that was put out, a vote for it and the proof of it.
fn evicted(seed: u8) -> (FactGraph, VerifiedBootstrap, SigningKey, DeviceId) {
    let (mut graph, bootstrap, root, voter, target) = put_out(seed);
    let proposal = graph.cell_heads(&ExclusiveCell::membership(target))[0];
    let vote = witnessed(
        &graph,
        &voter,
        FactBody::Attestation {
            target,
            proposal,
            decision: AttestationDecision::Evict,
            signer: device(&voter),
            contributions: Vec::new(),
        },
    );
    let vote_id = vote.id;
    assert_eq!(graph.admit_fact(vote), Ok(Admission::Inserted));
    let proof = witnessed(
        &graph,
        &root,
        FactBody::EvictionProof {
            target,
            evidence: vec![vote_id],
        },
    );
    assert_eq!(graph.admit_fact(proof), Ok(Admission::Inserted));
    (graph, bootstrap, root, target)
}

#[test]
fn spelling_is_lowercase_unpadded_base32() {
    for seed in [1u8, 2, 3, 250] {
        let bytes = key(seed).verifying_key().to_bytes();
        let spelled = BASE32_NOPAD.encode(&bytes).to_ascii_lowercase();
        let identity = DeviceId::from_public_key_bytes(bytes).unwrap();
        assert_eq!(identity.base32(), spelled);
        assert_eq!(identity.as_bytes(), bytes);
        assert_eq!(DeviceId::canonical_key_bytes(&spelled), Ok(bytes));
        assert_eq!(DeviceId::from_canonical_str(&spelled), Ok(identity));
        assert_ne!(identity.base32().as_bytes()[..32], bytes);
    }
}

#[test]
fn each_refused_spelling_says_why() {
    let spelled = device(&key(9)).base32();
    assert_eq!(
        DeviceId::canonical_key_bytes(&spelled[..51]),
        Err(DeviceIdError::Length)
    );
    assert_eq!(
        DeviceId::canonical_key_bytes(&spelled.to_ascii_uppercase()),
        Err(DeviceIdError::NotLowercase)
    );
    let mut loose_end = spelled.clone();
    loose_end.replace_range(51..52, "b");
    assert_eq!(
        DeviceId::canonical_key_bytes(&loose_end),
        Err(DeviceIdError::NotBase32)
    );
    let no_key = (0u8..=255)
        .map(|byte| [byte; 32])
        .find(|bytes| VerifyingKey::from_bytes(bytes).is_err())
        .unwrap();
    assert_eq!(
        DeviceId::canonical_key_bytes(&BASE32_NOPAD.encode(&no_key).to_ascii_lowercase()),
        Err(DeviceIdError::InvalidKey)
    );
    assert_eq!(
        DeviceId::from_public_key_bytes(no_key),
        Err(DeviceIdError::InvalidKey)
    );
    assert_eq!(
        DeviceId::from_canonical_str(""),
        Err(DeviceIdError::NotLowercase)
    );
    assert_eq!(
        DeviceId::from_canonical_str("aa"),
        Err(DeviceIdError::KeyLength)
    );
    assert_eq!(
        DeviceId::from_canonical_str("a1"),
        Err(DeviceIdError::NotBase32)
    );
}

#[test]
fn lengths_stand_before_fields() {
    let mut out = Encoder::new();
    out.tag("ab");
    out.bytes(&[7, 8, 9]);
    out.list_ids(&vec![id(1)]);
    let mut want = vec![0, 0, 0, 0, 0, 0, 0, 2, b'a', b'b'];
    want.extend([0, 0, 0, 0, 0, 0, 0, 3, 7, 8, 9]);
    want.extend([0, 0, 0, 0, 0, 0, 0, 1]);
    want.extend([1u8; 32]);
    assert_eq!(out.finish(), want);
}

#[test]
fn bodies_with_one_encoding_are_one_body() {
    let target = device(&key(3));
    let bodies = vec![
        grant(target, Role::Member),
        grant(target, Role::Owner),
        FactBody::RoleRevoke { target },
        FactBody::Evict { target },
        FactBody::MembershipAdmit { target },
        FactBody::EvictionProof {
            target,
            evidence: vec![id(1)],
        },
        FactBody::SelfStandDown {
            device_id: target,
            evidence: vec![id(1)],
        },
        FactBody::Resolution {
            cell: ExclusiveCell::role(target),
            cited_heads: vec![id(1), id(2)],
            selected_head: id(1),
        },
        FactBody::Resolution {
            cell: ExclusiveCell::membership(target),
            cited_heads: vec![id(1), id(2)],
            selected_head: id(1),
        },
        FactBody::AuthorityLineageResolution {
            subject: target,
            cited_heads: vec![id(1), id(2)],
            selected_head: id(2),
        },
    ];
    let codes: Vec<Vec<u8>> = bodies
        .iter()
        .map(|body| {
            let mut out = Encoder::new();
            body.encode(&mut out);
            out.finish()
        })
        .collect();
    for (i, left) in codes.iter().enumerate() {
        for (j, right) in codes.iter().enumerate() {
            assert_eq!(i == j, left == right);
        }
    }
    assert_eq!(
        codes[0].len(),
        8 + "role_grant".len() + 32 + 8 + "member".len()
    );
}

#[test]
fn tags_name_domains() {
    let target = device(&key(3));
    assert_eq!(grant(target, Role::Member).domain(), FactDomain::Governance);
    assert_eq!(FactDomain::Governance.tag(), "governance");
    assert_eq!(
        FactBody::EvictionProof {
            target,
            evidence: Vec::new()
        }
        .domain()
        .tag(),
        "eviction_proof"
    );
}

#[test]
fn normalizing_twice_is_normalizing_once() {
    let target = device(&key(3));
    let mut body = FactBody::EvictionProof {
        target,
        evidence: vec![id(3), id(1), id(3), id(2)],
    };
    assert_eq!(
        body.validate_canonical(),
        Err(SemanticError::NonCanonicalSet("eviction evidence"))
    );
    body.normalize();
    let once = body.duplicate();
    body.normalize();
    assert_eq!(body, once);
    assert_eq!(
        body,
        FactBody::EvictionProof {
            target,
            evidence: vec![id(1), id(2), id(3)],
        }
    );
    assert_eq!(body.validate_canonical(), Ok(()));
    assert_eq!(
        FactBody::SelfStandDown {
            device_id: target,
            evidence: Vec::new()
        }
        .validate_canonical(),
        Err(SemanticError::IncompleteEvictionProof)
    );
    assert_eq!(
        FactBody::Attestation {
            target,
            proposal: id(1),
            decision: AttestationDecision::Reject,
            signer: target,
            contributions: vec![id(2), id(2)],
        }
        .validate_canonical(),
        Err(SemanticError::NonCanonicalSet("attestation contributions"))
    );
    assert_eq!(
        FactBody::Resolution {
            cell: ExclusiveCell::role(target),
            cited_heads: vec![id(2), id(1)],
            selected_head: id(1),
        }
        .validate_canonical(),
        Err(SemanticError::NonCanonicalSet("resolution cited heads"))
    );
}

#[test]
fn a_lineage_is_singular_or_conflicted() {
    let subject = device(&key(3));
    let none = AuthorityLineage::from_heads(subject, Vec::new(), None);
    let one = AuthorityLineage::from_heads(subject, vec![id(1), id(1)], None);
    let two = AuthorityLineage::from_heads(subject, vec![id(2), id(1)], None);
    assert_eq!(none.effective_head(), None);
    assert_eq!(one.effective_head(), Some(id(1)));
    assert_eq!(two.effective_head(), None);
    assert_eq!(two.heads(), &[id(1), id(2)]);
    assert_eq!(
        two.complete_conflict_set(),
        Some(&[id(1), id(2)][..])
    );
    for lineage in [&none, &one, &two] {
        assert_ne!(lineage.is_singular(), lineage.is_conflicted());
        assert_eq!(lineage.subject(), &subject);
        assert_eq!(lineage.selected_branch(), None);
    }
    let selected = AuthorityLineage::from_heads(subject, vec![id(1)], Some(id(7)));
    assert_eq!(selected.selected_branch(), Some(id(7)));
    assert_eq!(
        AuthorityUse::new(subject, vec![id(2), id(1), id(2)]).predecessors,
        vec![id(1), id(2)]
    );
}

#[test]
fn recorded_entries_are_put_back() {
    let mut map: OrdMap<FactId, Usage> = OrdMap::new();
    map.insert(id(1), Usage { facts: 1, bytes: 10 });
    let before = map.duplicate();
    let mut saved: OrdMap<FactId, Prior<Usage>> = OrdMap::new();
    note(&mut saved, &map, &id(1));
    note(&mut saved, &map, &id(2));
    map.insert(id(1), Usage { facts: 5, bytes: 50 });
    note(&mut saved, &map, &id(1));
    map.insert(id(2), Usage { facts: 2, bytes: 20 });
    put_back(&mut map, &saved);
    assert_eq!(map, before);
}

#[test]
fn listings_are_read_back_once() {
    let mut map: OrdMap<FactId, Usage> = OrdMap::new();
    map.insert(id(2), Usage { facts: 1, bytes: 10 });
    map.insert(id(1), Usage { facts: 2, bytes: 20 });
    let mut list = list_map(&map);
    assert_eq!(list[0].0, id(1));
    assert_eq!(read_map(&list), Some(map));
    list.push((id(1), Usage { facts: 0, bytes: 0 }));
    assert_eq!(read_map(&list), None);
    let mut sets: OrdMap<FactId, OrdSet<FactId>> = OrdMap::new();
    sets.insert(id(1), OrdSet::from_vec(&vec![id(9), id(8), id(9)]));
    let listed = list_sets(&sets);
    assert_eq!(listed, vec![(id(1), vec![id(8), id(9)])]);
    assert_eq!(read_sets(&listed), Some(sets));
    assert_eq!(read_set(&vec![id(1), id(1)]), None);
}

#[test]
fn ancestry_is_transitive_over_signed_parents() {
    let (bootstrap, root) = closed(11);
    let mut graph = FactGraph::from_bootstrap(&bootstrap);
    let mut ids = Vec::new();
    for role in [Role::Member, Role::Controller, Role::Member] {
        let fact = witnessed(&graph, &root, grant(device(&key(12)), role));
        ids.push(fact.id);
        assert_eq!(graph.admit_fact(fact), Ok(Admission::Inserted));
    }
    assert!(graph.is_ancestor(&ids[0], &ids[1]));
    assert!(graph.is_ancestor(&ids[1], &ids[2]));
    assert!(graph.is_ancestor(&ids[0], &ids[2]));
    assert!(!graph.is_ancestor(&ids[2], &ids[0]));
    assert!(!graph.is_ancestor(&ids[1], &ids[1]));
    assert_eq!(graph.maximal_ids(&ids), vec![ids[2]]);
}

#[test]
fn arrival_order_leaves_no_mark() {
    let (bootstrap, root) = closed(21);
    let other = key(22);
    let mut first = FactGraph::from_bootstrap(&bootstrap);
    let base = witnessed(&first, &root, grant(device(&other), Role::Owner));
    assert_eq!(first.admit_fact(base.duplicate()), Ok(Admission::Inserted));
    let mut second = first.duplicate();
    let left = witnessed(&first, &root, grant(device(&key(23)), Role::Member));
    let right = witnessed(&first, &other, grant(device(&key(24)), Role::Member));
    for (graph, order) in [
        (&mut first, [&left, &right]),
        (&mut second, [&right, &left]),
    ] {
        for fact in order {
            assert_eq!(graph.admit_fact(fact.duplicate()), Ok(Admission::Inserted));
            assert_eq!(graph.projection(), Projection::from_graph(graph));
        }
    }
    assert_eq!(first.facts, second.facts);
    assert_eq!(first.index, second.index);
    assert_eq!(first.projection(), second.projection());
    let mut rebuilt = first.duplicate();
    rebuilt.rebuild_indexes();
    assert_eq!(rebuilt.index, first.index);
}

#[test]
fn a_fresh_graph_has_empty_indexes() {
    let (bootstrap, _) = closed(25);
    let graph = FactGraph::from_bootstrap(&bootstrap);
    assert!(graph.is_empty());
    assert!(graph.indexes_current());
    assert!(graph.index.cell_heads.is_empty());
    assert!(graph.index.provenance.is_empty());
    assert!(graph.projection().cells.is_empty());
    let mut again = graph.duplicate();
    again.rebuild_indexes();
    assert_eq!(again.index, graph.index);
}

#[test]
fn a_checkpoint_is_read_back() {
    let (mut graph, bootstrap, root, _) = evicted(31);
    let parent = fact(&bootstrap, &root, grant(device(&key(40)), Role::Member), Vec::new());
    let child = fact(
        &bootstrap,
        &root,
        grant(device(&key(41)), Role::Member),
        vec![parent.id],
    );
    assert!(matches!(
        graph.admit_fact(child),
        Ok(Admission::Quarantined { .. })
    ));
    let limits = graph.setting.limits;
    let restored =
        FactGraph::from_live_checkpoint(&bootstrap, limits, graph.live_checkpoint()).unwrap();
    assert_eq!(restored.facts, graph.facts);
    assert_eq!(restored.order, graph.order);
    assert_eq!(restored.index, graph.index);
    assert_eq!(restored.quarantine, graph.quarantine);
    assert_eq!(restored.ledger, graph.ledger);
    assert_eq!(restored.projection(), graph.projection());
}

#[test]
fn a_checkpoint_that_contradicts_itself_is_refused() {
    let (graph, bootstrap, _, _) = evicted(51);
    let limits = graph.setting.limits;
    let refuse = |change: &dyn Fn(&mut mesh_semantic::checkpoint::LiveFactGraphCheckpoint)| {
        let mut checkpoint = graph.live_checkpoint();
        change(&mut checkpoint);
        FactGraph::from_live_checkpoint(&bootstrap, limits, checkpoint).err()
    };
    assert_eq!(refuse(&|_| {}), None);
    assert_eq!(
        refuse(&|c| c.version = c.version.wrapping_add(1)),
        Some(CheckpointError::Invalid(
            "live checkpoint version or context mismatch"
        ))
    );
    assert_eq!(
        refuse(&|c| c.context_id = MeshContextId::from_bytes([0; 32])),
        Some(CheckpointError::Invalid(
            "live checkpoint version or context mismatch"
        ))
    );
    assert_eq!(
        refuse(&|c| {
            let last = c.admission_order[0];
            c.admission_order.push(last);
        }),
        Some(CheckpointError::Invalid(
            "duplicate live checkpoint admission id"
        ))
    );
    assert_eq!(
        refuse(&|c| {
            c.admission_order.pop();
        }),
        Some(CheckpointError::Invalid(
            "live checkpoint admission order is incomplete"
        ))
    );
    assert_eq!(
        refuse(&|c| c.totals.index_bytes += 1),
        Some(CheckpointError::Invalid(
            "checkpoint derived-index residency mismatch"
        ))
    );
    assert_eq!(
        refuse(&|c| {
            c.projection_cells.pop();
        }),
        Some(CheckpointError::Invalid(
            "checkpoint projection commitment mismatch"
        ))
    );
    assert!(matches!(
        refuse(&|c| {
            c.facts[0].signature.push('x');
            recheck(&mut c.facts[0]);
        }),
        Some(CheckpointError::Refused(SemanticError::InvalidSignature))
    ));
}

/// The resident facts at and behind some of them.
fn closure(graph: &FactGraph, mut pending: Vec<FactId>) -> Vec<SignedFact> {
    let mut ids = Vec::new();
    while let Some(id) = pending.pop() {
        if !ids.contains(&id) {
            ids.push(id);
            pending.extend(dependencies(graph.get(&id).unwrap()));
        }
    }
    sorted(ids)
        .iter()
        .map(|id| graph.get(id).unwrap().duplicate())
        .collect()
}

#[test]
fn an_eviction_bundle_verifies_where_the_target_stood_down() {
    let (graph, _, _, _, target) = put_out(61);
    let bundle = graph.eviction_proof_bundle(&target).unwrap();
    assert!(!bundle.is_empty());
    assert!(graph.bundle_projection_is_verified(&bundle));
    assert!(!graph.evaluator().is_stood_down(&target));
    assert!(!graph.proof_bundle_is_verified(&target, &bundle));
    let heads = graph
        .proof_cell_heads_with_history(&vec![ExclusiveCell::membership(target)], &Vec::new())
        .unwrap();
    assert_eq!(heads, graph.cell_heads(&ExclusiveCell::membership(target)));

    let (graph, _, _, target) = evicted(61);
    assert!(graph.evaluator().is_stood_down(&target));
    let mut named = graph.cell_heads(&ExclusiveCell::role(target));
    named.extend(graph.cell_heads(&ExclusiveCell::membership(target)));
    named.push(graph.projection().stand_down(&target).unwrap().proof);
    let bundle = closure(&graph, named);
    assert!(graph.proof_bundle_is_verified(&target, &bundle));
    assert!(!graph.proof_bundle_is_verified(&device(&key(1)), &bundle));
    let mut shorter: Vec<SignedFact> = bundle.iter().map(|fact| fact.duplicate()).collect();
    shorter.pop();
    assert!(!graph.proof_bundle_is_verified(&target, &shorter));
}

#[test]
fn a_root_owns_only_until_its_role_advances() {
    let (bootstrap, root_key) = closed(41);
    let root = device(&root_key);
    let mut graph = FactGraph::from_bootstrap(&bootstrap);
    assert_eq!(graph.evaluator().effective_role(&root), Some(Role::Owner));
    let revoke = fact(&bootstrap, &root_key, FactBody::RoleRevoke { target: root }, vec![]);
    assert_eq!(graph.admit_fact(revoke), Ok(Admission::Inserted));
    let other = fact(&bootstrap, &root_key, grant(device(&key(42)), Role::Member), vec![]);
    assert_eq!(graph.admit_fact(other), Ok(Admission::Inserted));
    assert_eq!(graph.evaluator().effective_role(&root), None);
}

#[test]
fn concurrent_membership_operations_arrive_in_any_order() {
    let (mut graph, _, root, target) = evicted(62);
    let second = key(66);
    let owner = witnessed(&graph, &root, grant(device(&second), Role::Owner));
    assert_eq!(graph.admit_fact(owner), Ok(Admission::Inserted));
    assert_eq!(graph.evaluator().effective_membership(&target), Some(false));
    let entry = witnessed(&graph, &root, FactBody::MembershipAdmit { target });
    let evict = witnessed(&graph, &second, FactBody::Evict { target });
    let mut first = graph.duplicate();
    assert_eq!(first.admit_fact(entry.duplicate()), Ok(Admission::Inserted));
    assert_eq!(first.admit_fact(evict.duplicate()), Ok(Admission::Inserted));
    let mut last = graph.duplicate();
    assert_eq!(last.admit_fact(evict), Ok(Admission::Inserted));
    assert_eq!(last.admit_fact(entry), Ok(Admission::Inserted));
    assert_eq!(first.facts, last.facts);
    assert_eq!(first.projection(), last.projection());
    assert!(first
        .evaluator()
        .is_conflicted(&ExclusiveCell::membership(target)));
}

#[test]
fn a_redundant_membership_is_refused_in_its_own_past() {
    let (mut graph, _, root, target) = evicted(63);
    let back = witnessed(&graph, &root, FactBody::MembershipAdmit { target });
    assert_eq!(graph.admit_fact(back), Ok(Admission::Inserted));
    let again = witnessed(&graph, &root, FactBody::MembershipAdmit { target });
    assert_eq!(
        graph.admit_fact(again),
        Err(SemanticError::NoOp("membership is already admitted"))
    );
}

#[test]
fn one_sweep_goes_as_far_as_the_batch_limit() {
    let (bootstrap, root) = closed(64);
    let mut source = FactGraph::from_bootstrap(&bootstrap);
    let parent = witnessed(&source, &root, grant(device(&key(65)), Role::Member));
    assert_eq!(source.admit_fact(parent.duplicate()), Ok(Admission::Inserted));
    let waiters: Vec<SignedFact> = [67u8, 68]
        .iter()
        .map(|seed| witnessed(&source, &root, grant(device(&key(*seed)), Role::Member)))
        .collect();
    let mut graph = FactGraph::from_bootstrap_with_policy(
        &bootstrap,
        SemanticAdmissionPolicy {
            max_ready_batch: 1,
            ..SemanticAdmissionPolicy::default()
        },
    );
    for waiter in &waiters {
        assert!(matches!(
            graph.admit_fact(waiter.duplicate()),
            Ok(Admission::Quarantined { .. })
        ));
    }
    assert_eq!(graph.admit_fact(parent), Ok(Admission::Inserted));
    let ready = graph.quarantine.ready.to_vec();
    assert_eq!(ready.len(), 2);
    assert_eq!(graph.retry_quarantined(), Ok(vec![ready[0]]));
    assert_eq!(graph.quarantine.ready.to_vec(), vec![ready[1]]);
    assert_eq!(graph.retry_quarantined(), Ok(vec![ready[1]]));
    assert!(graph.quarantined().is_empty());
}

/// All facts of a graph, in the order of their identifiers.
fn all_facts(graph: &FactGraph) -> Vec<SignedFact> {
    sorted(graph.ids())
        .iter()
        .map(|id| graph.get(id).unwrap().duplicate())
        .collect()
}

#[test]
fn a_restart_gives_back_what_was_written() {
    let (whole, bootstrap, _, _) = evicted(32);
    let limits = whole.setting.limits;
    let mut sealed = whole.duplicate();
    assert!(sealed.can_retire());
    sealed.seal_live_checkpoint();
    for graph in [&whole, &sealed] {
        let back = FactGraph::from_live_checkpoint_with_history(
            &bootstrap,
            limits,
            graph.live_checkpoint(),
            all_facts(&whole),
        )
        .unwrap();
        assert_eq!(back.facts, graph.facts);
        assert_eq!(back.order, graph.order);
        assert_eq!(back.index, graph.index);
        assert_eq!(back.quarantine, graph.quarantine);
        assert_eq!(back.ledger, graph.ledger);
        assert_eq!(back.projection(), whole.projection());
    }
}

#[test]
fn a_record_puts_the_graph_back_whatever_became_of_the_fact() {
    let (bootstrap, root) = closed(33);
    let mut graph = FactGraph::from_bootstrap_with_policy(
        &bootstrap,
        SemanticAdmissionPolicy {
            max_hot_history_facts: 4,
            ..SemanticAdmissionPolicy::default()
        },
    );
    let target = device(&key(34));
    for round in 0..6u32 {
        let role = if round % 2 == 0 { Role::Member } else { Role::Controller };
        let next = witnessed(&graph, &root, grant(target, role));
        assert_eq!(graph.admit_fact(next), Ok(Admission::Inserted));
    }
    let mut retired = graph.duplicate();
    retired.retire_cold_history();
    assert!(retired.hot_fact_count() < graph.hot_fact_count());
    for base in [&graph, &retired] {
        let unheard = key(35);
        for next in [
            witnessed(base, &root, grant(device(&key(36)), Role::Member)),
            witnessed(base, &unheard, grant(device(&key(36)), Role::Member)),
        ] {
            let mut changed = base.duplicate();
            let mut record = GraphRollback::new(&changed);
            record.capture_admission(&changed, &next);
            let accepted = changed.admit_fact(next).is_ok();
            assert_eq!(accepted, changed.facts != base.facts);
            record.restore(&mut changed);
            assert_eq!(changed.facts, base.facts);
            assert_eq!(changed.order, base.order);
            assert_eq!(changed.index, base.index);
            assert_eq!(changed.quarantine, base.quarantine);
            assert_eq!(changed.ledger, base.ledger);
            assert_eq!(changed.fence, base.fence);
            assert_eq!(changed.projection(), base.projection());
        }
    }
}

#[test]
fn a_rebuild_gives_what_was_admitted() {
    let (graph, _, _, _) = evicted(37);
    let mut loaded = graph.duplicate();
    loaded.ledger.bytes = 1;
    loaded.ledger.edges = 2;
    loaded.ledger.index_bytes = 3;
    loaded.ledger.fact_count = 0;
    loaded.order = Vec::new();
    loaded.rebuild_indexes();
    assert_eq!(loaded.ledger, graph.ledger);
    assert_eq!(loaded.index, graph.index);
    assert_eq!(loaded.projection(), graph.projection());
    let once = loaded.duplicate();
    loaded.rebuild_indexes();
    assert_eq!(loaded, once);
}

#[test]
fn a_typed_selection_is_the_sole_head_and_stays_selected() {
    let (bootstrap, root) = closed(43);
    let (left, right) = (key(44), key(45));
    let target = device(&key(46));
    let mut graph = FactGraph::from_bootstrap(&bootstrap);
    for signer in [&left, &right] {
        let fact = witnessed(&graph, &root, grant(device(signer), Role::Controller));
        assert_eq!(graph.admit_fact(fact), Ok(Admission::Inserted));
    }
    let one = witnessed(&graph, &left, grant(target, Role::Member));
    let two = witnessed(&graph, &right, grant(target, Role::Controller));
    for fact in [&one, &two] {
        assert_eq!(graph.admit_fact(fact.duplicate()), Ok(Admission::Inserted));
    }
    assert!(graph.authority_lineage(&target).is_conflicted());
    let selection = witnessed(
        &graph,
        &root,
        FactBody::AuthorityLineageResolution {
            subject: target,
            cited_heads: sorted(vec![one.id, two.id]),
            selected_head: one.id,
        },
    );
    let selection_id = selection.id;
    assert_eq!(graph.admit_fact(selection), Ok(Admission::Inserted));
    let lineage = graph.authority_lineage(&target);
    assert_eq!(lineage.heads(), &[selection_id]);
    assert_eq!(lineage.selected_branch(), Some(one.id));
    for role in [Role::Controller, Role::Member] {
        let later = witnessed(&graph, &root, grant(target, role));
        let later_id = later.id;
        assert_eq!(graph.admit_fact(later), Ok(Admission::Inserted));
        let lineage = graph.authority_lineage(&target);
        assert_eq!(lineage.heads(), &[later_id]);
        assert_eq!(lineage.selected_branch(), Some(one.id));
    }
}

#[test]
fn the_order_of_snapshot_rows_is_not_authoritative() {
    let (source, bootstrap, _, _) = evicted(47);
    let rows = all_facts(&source);
    let reversed: Vec<SignedFact> = rows.iter().rev().map(|fact| fact.duplicate()).collect();
    let mut first = FactGraph::from_bootstrap(&bootstrap);
    let mut last = FactGraph::from_bootstrap(&bootstrap);
    assert_eq!(first.bulk_restore_admitted(rows, Vec::new()), Ok(()));
    assert_eq!(last.bulk_restore_admitted(reversed, Vec::new()), Ok(()));
    assert_eq!(first, last);
    assert_eq!(first.facts, source.facts);
    assert_eq!(first.projection(), source.projection());
}

#[test]
fn the_index_charge_is_what_the_indexes_take() {
    let (graph, _, _, _) = evicted(48);
    assert_eq!(
        graph.setting.limits.logical_index_residency_bytes(&graph.index),
        Ok(graph.ledger.index_bytes)
    );
}

#[test]
fn retirement_keeps_heads_and_their_inputs() {
    let (mut graph, _, root, target) = evicted(49);
    let later = witnessed(&graph, &root, grant(device(&key(52)), Role::Member));
    assert_eq!(graph.admit_fact(later), Ok(Admission::Inserted));
    let heads: Vec<FactId> = [ExclusiveCell::role(target), ExclusiveCell::membership(target)]
        .iter()
        .flat_map(|cell| graph.cell_heads(cell))
        .collect();
    let proof = graph.projection().stand_down(&target).unwrap().proof;
    let mut kept = heads.clone();
    for head in &heads {
        kept.extend(dependencies(graph.get(head).unwrap()));
    }
    kept.push(proof);
    graph.seal_live_checkpoint();
    for id in kept {
        assert!(graph.get(&id).is_some());
    }
}

#[test]
fn a_resolved_role_brings_back_what_counts_again() {
    for putting_out in [false, true] {
        let (bootstrap, root) = closed(53);
        let (owner, signer) = (key(54), key(55));
        let target = device(&key(56));
        let mut graph = FactGraph::from_bootstrap(&bootstrap);
        for body in [
            grant(device(&owner), Role::Owner),
            grant(device(&signer), Role::Controller),
            grant(target, Role::Member),
        ] {
            let fact = witnessed(&graph, &root, body);
            assert_eq!(graph.admit_fact(fact), Ok(Admission::Inserted));
        }
        let granted = graph.duplicate();
        let body = if putting_out {
            FactBody::Evict { target }
        } else {
            FactBody::MembershipAdmit { target }
        };
        let act = witnessed(&graph, &signer, body);
        assert_eq!(graph.admit_fact(act), Ok(Admission::Inserted));
        assert_eq!(
            graph.evaluator().effective_membership(&target),
            Some(!putting_out)
        );
        let one = witnessed(&graph, &root, grant(device(&signer), Role::Member));
        let two = witnessed(&granted, &owner, grant(device(&signer), Role::Owner));
        for fact in [&one, &two] {
            assert_eq!(graph.admit_fact(fact.duplicate()), Ok(Admission::Inserted));
            assert_eq!(graph.projection(), Projection::from_graph(&graph));
        }
        assert_eq!(graph.evaluator().effective_membership(&target), None);
        let resolution = witnessed(
            &graph,
            &root,
            FactBody::Resolution {
                cell: ExclusiveCell::role(device(&signer)),
                cited_heads: sorted(vec![one.id, two.id]),
                selected_head: two.id,
            },
        );
        let mut journaled = graph.duplicate();
        let journal = journaled.admit_journaled(resolution.duplicate()).unwrap();
        assert!(journal
            .delta()
            .affected_cells
            .contains(&ExclusiveCell::membership(target)));
        journal.commit(&mut journaled);
        assert_eq!(graph.admit_fact(resolution), Ok(Admission::Inserted));
        for settled in [&graph, &journaled] {
            assert_eq!(settled.projection(), Projection::from_graph(settled));
            assert_eq!(
                settled.evaluator().effective_membership(&target),
                Some(!putting_out)
            );
        }
    }
}

#[test]
fn receivers_judge_a_fact_by_its_own_past() {
    let (bootstrap, root) = closed(57);
    let (owner, signer) = (key(58), key(59));
    let target = device(&key(60));
    let mut graph = FactGraph::from_bootstrap(&bootstrap);
    for body in [
        grant(device(&owner), Role::Owner),
        grant(device(&signer), Role::Controller),
    ] {
        let fact = witnessed(&graph, &root, body);
        assert_eq!(graph.admit_fact(fact), Ok(Admission::Inserted));
    }
    let before = graph.duplicate();
    let granted = witnessed(&graph, &signer, grant(target, Role::Member));
    assert_eq!(graph.admit_fact(granted), Ok(Admission::Inserted));
    let again = witnessed(&graph, &root, grant(target, Role::Member));
    let raised = witnessed(&graph, &root, grant(target, Role::Controller));
    let beside = witnessed(&before, &owner, grant(device(&signer), Role::Member));
    let mut busy = graph.duplicate();
    assert_eq!(busy.admit_fact(beside), Ok(Admission::Inserted));
    assert_eq!(busy.evaluator().effective_role(&target), None);
    for receiver in [&graph, &busy] {
        let mut receiver = receiver.duplicate();
        assert_eq!(
            receiver.admit_fact(again.duplicate()),
            Err(SemanticError::NoOp("role grant already effective"))
        );
        assert_eq!(
            receiver.admit_fact(raised.duplicate()),
            Ok(Admission::Inserted)
        );
    }
}

#[test]
fn a_sealed_graph_keeps_what_nested_resolutions_settle() {
    let (bootstrap, root) = closed(65);
    let (owner, left, right) = (key(66), key(67), key(68));
    let target = device(&key(69));
    let mut graph = FactGraph::from_bootstrap(&bootstrap);
    for body in [
        grant(device(&owner), Role::Owner),
        grant(device(&left), Role::Controller),
        grant(device(&right), Role::Controller),
    ] {
        let fact = witnessed(&graph, &root, body);
        assert_eq!(graph.admit_fact(fact), Ok(Admission::Inserted));
    }
    let one = witnessed(&graph, &left, grant(target, Role::Member));
    let two = witnessed(&graph, &right, grant(target, Role::Controller));
    for fact in [&one, &two] {
        assert_eq!(graph.admit_fact(fact.duplicate()), Ok(Admission::Inserted));
    }
    let cell = ExclusiveCell::role(target);
    let resolve = |graph: &FactGraph, signer: &SigningKey, heads: [FactId; 2], selected: FactId| {
        witnessed(
            graph,
            signer,
            FactBody::Resolution {
                cell,
                cited_heads: sorted(heads.to_vec()),
                selected_head: selected,
            },
        )
    };
    let first = resolve(&graph, &root, [one.id, two.id], one.id);
    let second = resolve(&graph, &owner, [one.id, two.id], two.id);
    for fact in [&first, &second] {
        assert_eq!(graph.admit_fact(fact.duplicate()), Ok(Admission::Inserted));
    }
    let third = resolve(&graph, &root, [first.id, second.id], first.id);
    let fourth = resolve(&graph, &owner, [first.id, second.id], second.id);
    for fact in [&third, &fourth] {
        assert_eq!(graph.admit_fact(fact.duplicate()), Ok(Admission::Inserted));
    }
    let outer = resolve(&graph, &root, [third.id, fourth.id], third.id);
    assert_eq!(graph.admit_fact(outer), Ok(Admission::Inserted));
    for role in [Role::Member, Role::Controller, Role::Member, Role::Controller, Role::Member] {
        let fact = witnessed(&graph, &root, grant(device(&key(70)), role));
        assert_eq!(graph.admit_fact(fact), Ok(Admission::Inserted));
    }
    assert_eq!(graph.evaluator().effective_role(&target), Some(Role::Member));
    let mut sealed = graph.duplicate();
    sealed.seal_live_checkpoint();
    assert!(sealed.hot_fact_count() < graph.hot_fact_count());
    assert!(sealed.get(&one.id).is_some());
    assert_eq!(sealed.evaluator().effective_role(&target), Some(Role::Member));
    let back = FactGraph::from_live_checkpoint_with_history(
        &bootstrap,
        graph.setting.limits,
        sealed.live_checkpoint(),
        all_facts(&graph),
    )
    .unwrap();
    assert_eq!(back.facts, sealed.facts);
    assert_eq!(back.projection(), graph.projection());
    assert_eq!(back.evaluator().effective_role(&target), Some(Role::Member));
}

#[test]
fn a_refused_fact_leaves_no_trace() {
    let (mut graph, bootstrap, root, _) = evicted(71);
    let before = graph.duplicate();
    let unheard = key(99);
    let refused = witnessed(&graph, &unheard, grant(device(&unheard), Role::Owner));
    assert_eq!(
        graph.admit_fact(refused),
        Err(SemanticError::UnauthorizedRoleGrant)
    );
    assert_eq!(graph, before);
    let mut foreign = fact(&bootstrap, &root, grant(device(&key(98)), Role::Member), Vec::new());
    foreign.content.mesh_context = MeshContextId::from_bytes([1; 32]);
    foreign.id = digest(&signed_bytes(&foreign.content));
    foreign.signature = hex(&root.sign(&signed_bytes(&foreign.content)).to_bytes());
    recheck(&mut foreign);
    assert_eq!(
        graph.admit_fact(foreign),
        Err(SemanticError::ContextMismatch {
            expected: graph.context_id(),
            found: MeshContextId::from_bytes([1; 32]),
        })
    );
    assert_eq!(graph, before);
}

#[test]
fn rolled_back_journals_leave_no_trace() {
    let (mut graph, _, root, _) = evicted(81);
    let before = graph.duplicate();
    let next = witnessed(&graph, &root, grant(device(&key(90)), Role::Member));
    let journal = graph.admit_journaled(next.duplicate()).unwrap();
    assert_ne!(graph.facts, before.facts);
    journal.rollback(&mut graph);
    assert_eq!(graph, before);
    let group = graph
        .admit_journaled_batch(vec![next.duplicate(), next.duplicate()])
        .unwrap();
    assert_eq!(group.results().len(), 2);
    group.rollback(&mut graph);
    assert_eq!(graph, before);
    let mut plain = before.duplicate();
    assert_eq!(plain.admit_fact(next.duplicate()), Ok(Admission::Inserted));
    let journal = graph.admit_journaled(next).unwrap();
    journal.commit(&mut graph);
    assert_eq!(graph.projection(), plain.projection());
    assert_eq!(graph.index, plain.index);
}

#[test]
fn a_refused_snapshot_leaves_no_trace() {
    let (bootstrap, root) = closed(91);
    let mut graph = FactGraph::from_bootstrap(&bootstrap);
    let first = fact(&bootstrap, &root, grant(device(&key(92)), Role::Member), Vec::new());
    let orphan = fact(
        &bootstrap,
        &root,
        grant(device(&key(93)), Role::Member),
        vec![id(5)],
    );
    let before = graph.duplicate();
    assert_eq!(
        graph.bulk_restore_admitted(vec![first.duplicate(), orphan], Vec::new()),
        Err(SemanticError::MissingParent(id(5)))
    );
    assert_eq!(graph, before);
    assert_eq!(
        graph.bulk_restore_admitted(vec![first.duplicate(), first.duplicate()], Vec::new()),
        Err(SemanticError::DuplicateFact(first.id))
    );
    assert_eq!(graph, before);
    assert_eq!(
        graph.bulk_restore_admitted(vec![first], Vec::new()),
        Ok(())
    );
    assert_eq!(graph.len(), 1);
}

#[test]
fn the_same_fact_twice_is_present_already() {
    let (mut graph, _, root, _) = evicted(101);
    let next = witnessed(&graph, &root, grant(device(&key(110)), Role::Member));
    assert_eq!(graph.admit_fact(next.duplicate()), Ok(Admission::Inserted));
    let before = graph.duplicate();
    assert_eq!(
        graph.admit_fact(next.duplicate()),
        Ok(Admission::AlreadyPresent)
    );
    assert_eq!(graph, before);
    let mut other = next.duplicate();
    other.signature = "other".to_owned();
    assert_eq!(
        graph.admit_fact(other),
        Err(SemanticError::DuplicateFact(next.id))
    );
    let mut own_parent = witnessed(&graph, &root, grant(device(&key(111)), Role::Member));
    let own_id = own_parent.id;
    own_parent.content.parents.push(own_id);
    assert_eq!(graph.admit_fact(own_parent), Err(SemanticError::SelfParent));
}

#[test]
fn each_authority_refusal_has_its_name() {
    let (mut graph, bootstrap, root, target) = evicted(111);
    let outsider = key(150);
    let outside = device(&outsider);
    for (body, refusal) in [
        (
            grant(outside, Role::Member),
            SemanticError::UnauthorizedRoleGrant,
        ),
        (
            FactBody::Evict { target: outside },
            SemanticError::UnauthorizedRoleGrant,
        ),
        (
            FactBody::MembershipAdmit { target },
            SemanticError::UnauthorizedMembershipAdmit,
        ),
        (
            FactBody::Attestation {
                target,
                proposal: graph.ids()[0],
                decision: AttestationDecision::Approve,
                signer: outside,
                contributions: Vec::new(),
            },
            SemanticError::UnauthorizedAttestation,
        ),
        (
            FactBody::EvictionProof {
                target,
                evidence: vec![graph.ids()[0]],
            },
            SemanticError::UnauthorizedEviction,
        ),
    ] {
        let candidate = witnessed(&graph, &outsider, body);
        assert_eq!(graph.admit_fact(candidate), Err(refusal));
    }
    let unproved = witnessed(
        &graph,
        &root,
        FactBody::EvictionProof {
            target: outside,
            evidence: vec![graph.order[0]],
        },
    );
    assert_eq!(
        graph.admit_fact(unproved),
        Err(SemanticError::InvalidEvictionEvidence)
    );
    let stood = witnessed(
        &graph,
        &root,
        FactBody::SelfStandDown {
            device_id: device(&root),
            evidence: vec![graph.order[0]],
        },
    );
    assert_eq!(
        graph.admit_fact(stood),
        Err(SemanticError::InvalidStandDownProof)
    );
    let open = VerifiedBootstrap {
        context: bootstrap.context,
        roots: Vec::new(),
        policy: VerifiedProjectPolicy::Open,
    };
    let mut nowhere = FactGraph::from_bootstrap(&open);
    assert_eq!(
        nowhere.admit_fact(fact(&open, &root, grant(outside, Role::Member), Vec::new())),
        Err(SemanticError::DomainMismatch)
    );
}

#[test]
fn each_resolution_refusal_has_its_name() {
    let (bootstrap, root) = closed(121);
    let (left, right) = (key(122), key(123));
    let target = device(&key(124));
    let mut graph = FactGraph::from_bootstrap(&bootstrap);
    for signer in [&left, &right] {
        let fact = witnessed(&graph, &root, grant(device(signer), Role::Controller));
        assert_eq!(graph.admit_fact(fact), Ok(Admission::Inserted));
    }
    let one = witnessed(&graph, &left, grant(target, Role::Member));
    let two = witnessed(&graph, &right, grant(target, Role::Controller));
    let cell = ExclusiveCell::role(target);
    for fact in [&one, &two] {
        assert_eq!(graph.admit_fact(fact.duplicate()), Ok(Admission::Inserted));
    }
    let cited = sorted(vec![one.id, two.id]);
    assert_eq!(graph.conflict_heads(&cell), Some(cited.clone()));
    let unselected = witnessed(
        &graph,
        &root,
        FactBody::Resolution {
            cell,
            cited_heads: cited.clone(),
            selected_head: graph.order[0],
        },
    );
    assert_eq!(
        graph.admit_fact(unselected),
        Err(SemanticError::ResolutionSelectionNotCited)
    );
    let uncarried = sign_fact(
        FactContent {
            parents: vec![one.id],
            ..content_new(
                bootstrap.context,
                FactBody::Resolution {
                    cell,
                    cited_heads: cited.clone(),
                    selected_head: one.id,
                },
                device(&root),
                cited.clone(),
            )
        },
        &root,
    )
    .unwrap();
    assert_eq!(
        graph.admit_fact(uncarried),
        Err(SemanticError::IncompleteResolution)
    );
    let selector_for = |heads: Vec<FactId>, selected: FactId| FactBody::AuthorityLineageResolution {
        subject: target,
        cited_heads: heads,
        selected_head: selected,
    };
    let stale = witnessed(
        &graph,
        &root,
        selector_for(sorted(vec![one.id, graph.order[0]]), one.id),
    );
    assert_eq!(
        graph.admit_fact(stale),
        Err(SemanticError::InvalidAuthorityUse)
    );
    let mut settled = graph.duplicate();
    let resolution = witnessed(
        &settled,
        &root,
        FactBody::Resolution {
            cell,
            cited_heads: cited.clone(),
            selected_head: two.id,
        },
    );
    assert_eq!(settled.admit_fact(resolution), Ok(Admission::Inserted));
    assert_eq!(settled.projection().value(&cell), Some(two.id));
    assert_eq!(settled.projection(), Projection::from_graph(&settled));
    assert_eq!(
        settled.evaluator().effective_role(&target),
        Some(Role::Controller)
    );
    let selector = witnessed(&graph, &root, selector_for(cited, one.id));
    assert_eq!(graph.admit_fact(selector), Ok(Admission::Inserted));
    assert_eq!(graph.projection(), Projection::from_graph(&graph));
    assert_eq!(graph.projection().value(&cell), Some(one.id));
}

#[test]
fn each_limit_names_its_dimension() {
    let (bootstrap, root) = closed(131);
    let target = device(&key(132));
    let candidate = fact(&bootstrap, &root, grant(target, Role::Member), Vec::new());
    let waiting = fact(
        &bootstrap,
        &root,
        grant(target, Role::Controller),
        vec![id(1), id(2)],
    );
    let refused = |limits: SemanticAdmissionPolicy, fact: &SignedFact| {
        let mut graph = FactGraph::from_bootstrap_with_policy(&bootstrap, limits);
        match graph.admit_fact(fact.duplicate()) {
            Err(SemanticError::CapacityExceeded { dimension, .. }) => Some(dimension),
            _ => None,
        }
    };
    let none = SemanticAdmissionPolicy::default();
    assert_eq!(refused(none, &candidate), None);
    assert_eq!(refused(none, &waiting), None);
    assert_eq!(
        refused(
            SemanticAdmissionPolicy {
                max_fact_encoded_bytes: 1,
                ..none
            },
            &candidate
        ),
        Some(SemanticCapacityDimension::FactEncodedBytes)
    );
    assert_eq!(
        refused(
            SemanticAdmissionPolicy {
                max_dependencies_per_fact: 1,
                ..none
            },
            &waiting
        ),
        Some(SemanticCapacityDimension::DependenciesPerFact)
    );
    assert_eq!(
        refused(
            SemanticAdmissionPolicy {
                max_authority_uses_per_fact: 1,
                ..none
            },
            &candidate
        ),
        Some(SemanticCapacityDimension::AuthorityUsesPerFact)
    );
    assert_eq!(
        refused(
            SemanticAdmissionPolicy {
                max_authority_predecessors_per_use: 1,
                ..none
            },
            &waiting
        ),
        Some(SemanticCapacityDimension::AuthorityPredecessorsPerUse)
    );
    assert_eq!(
        refused(
            SemanticAdmissionPolicy {
                max_admitted_facts: 0,
                ..none
            },
            &candidate
        ),
        Some(SemanticCapacityDimension::AdmittedFacts)
    );
    assert_eq!(
        refused(
            SemanticAdmissionPolicy {
                max_admitted_bytes: 1,
                ..none
            },
            &candidate
        ),
        Some(SemanticCapacityDimension::AdmittedBytes)
    );
    assert_eq!(
        refused(
            SemanticAdmissionPolicy {
                max_quarantined_facts: 0,
                ..none
            },
            &waiting
        ),
        Some(SemanticCapacityDimension::QuarantinedFacts)
    );
    assert_eq!(
        refused(
            SemanticAdmissionPolicy {
                max_quarantined_bytes: 1,
                ..none
            },
            &waiting
        ),
        Some(SemanticCapacityDimension::QuarantinedBytes)
    );
    assert_eq!(
        refused(
            SemanticAdmissionPolicy {
                max_quarantined_facts_per_author: 0,
                ..none
            },
            &waiting
        ),
        Some(SemanticCapacityDimension::QuarantinedFactsPerAuthor)
    );
    assert_eq!(
        refused(
            SemanticAdmissionPolicy {
                max_quarantined_bytes_per_author: 1,
                ..none
            },
            &waiting
        ),
        Some(SemanticCapacityDimension::QuarantinedBytesPerAuthor)
    );
    assert_eq!(
        refused(
            SemanticAdmissionPolicy {
                max_retained_facts_per_author: 0,
                ..none
            },
            &candidate
        ),
        Some(SemanticCapacityDimension::RetainedFactsPerAuthor)
    );
    assert_eq!(
        refused(
            SemanticAdmissionPolicy {
                max_retained_bytes_per_author: 1,
                ..none
            },
            &candidate
        ),
        Some(SemanticCapacityDimension::RetainedBytesPerAuthor)
    );
    assert_eq!(
        refused(
            SemanticAdmissionPolicy {
                max_dependency_edges: 1,
                ..none
            },
            &candidate
        ),
        Some(SemanticCapacityDimension::DependencyEdges)
    );
    let mut unmeasured = candidate.duplicate();
    unmeasured.checked.encoded_bytes = None;
    let mut graph = FactGraph::from_bootstrap(&bootstrap);
    assert_eq!(
        graph.admit_fact(unmeasured),
        Err(SemanticError::EncodingFailed)
    );
}

#[test]
fn sessions_are_admitted_both_ways() {
    let (graph, bootstrap, root, target) = evicted(141);
    let owner = device(&root);
    let member = device(&key(142));
    for (local, remote, admitted) in [
        (owner, owner, true),
        (owner, member, true),
        (owner, target, false),
        (member, target, false),
    ] {
        assert_eq!(
            graph.admits_policy_session(&bootstrap, &local, &remote),
            admitted
        );
        assert_eq!(
            graph.admits_policy_session(&bootstrap, &remote, &local),
            admitted
        );
    }
    assert!(graph.evaluator().is_stood_down(&target));
    let (elsewhere, _) = closed(143);
    assert!(!graph.admits_policy_session(&elsewhere, &owner, &owner));
}

#[test]
fn tiers_are_ordered() {
    let (graph, _, root, _) = evicted(151);
    let evaluator = graph.evaluator();
    let member = device(&key(152));
    assert!(evaluator.has_tier(&device(&root), Role::Owner));
    assert!(evaluator.has_tier(&device(&root), Role::Member));
    assert!(evaluator.has_tier(&member, Role::Member));
    assert!(!evaluator.has_tier(&member, Role::Controller));
    assert_eq!(
        evaluator.required_tier(&grant(member, Role::Owner)),
        Some(Role::Owner)
    );
    assert_eq!(
        evaluator.required_tier(&grant(member, Role::Controller)),
        Some(Role::Controller)
    );
}

#[test]
fn retirement_keeps_the_projection() {
    let (bootstrap, root) = closed(161);
    let target = device(&key(162));
    let mut graph = FactGraph::from_bootstrap_with_policy(
        &bootstrap,
        SemanticAdmissionPolicy {
            max_hot_history_facts: 4,
            ..SemanticAdmissionPolicy::default()
        },
    );
    for index in 0..12u32 {
        let role = if index % 2 == 0 {
            Role::Member
        } else {
            Role::Controller
        };
        let fact = witnessed(&graph, &root, grant(target, role));
        assert_eq!(graph.admit_fact(fact), Ok(Admission::Inserted));
    }
    let before = graph.projection();
    let count = graph.len();
    graph.retire_cold_history();
    assert!(graph.hot_fact_count() < count);
    assert_eq!(graph.len(), count);
    assert_eq!(graph.projection(), before);
    assert!(matches!(
        graph.projection().role_cell(&target),
        Some(CellProjection::Value(_))
    ));
}

#[test]
fn a_record_is_bounded_and_names_each_fact_once() {
    let (mut graph, _, root, _) = evicted(171);
    let next = witnessed(&graph, &root, grant(device(&key(180)), Role::Member));
    let next_id = next.id;
    assert!(dependencies(&next).iter().all(|input| graph.get(input).is_some()));
    let journal = graph.admit_journaled(next).unwrap();
    assert!(journal.delta().is_bounded_and_unique(1));
    assert_eq!(journal.delta().changed_ids(), vec![next_id]);
    journal.commit(&mut graph);
    assert!(SemanticDelta::new().is_bounded_and_unique(0));
}

#[test]
fn a_waiter_is_ready_once_its_inputs_are_here() {
    let (bootstrap, root) = closed(181);
    let mut source = FactGraph::from_bootstrap(&bootstrap);
    let target = device(&key(182));
    let mut facts = Vec::new();
    for role in [Role::Member, Role::Controller, Role::Member] {
        let next = witnessed(&source, &root, grant(target, role));
        assert_eq!(source.admit_fact(next.duplicate()), Ok(Admission::Inserted));
        facts.push(next);
    }
    let mut graph = FactGraph::from_bootstrap(&bootstrap);
    for late in [2, 1] {
        assert_eq!(
            graph.admit_fact(facts[late].duplicate()),
            Ok(Admission::Quarantined {
                missing: sorted(dependencies(&facts[late])),
            })
        );
    }
    assert!(graph.quarantine.ready.is_empty());
    assert_eq!(graph.admit_fact(facts[0].duplicate()), Ok(Admission::Inserted));
    assert_eq!(graph.quarantine.ready.to_vec(), vec![facts[1].id]);
    assert_eq!(
        graph.retry_quarantined().map(sorted),
        Ok(sorted(vec![facts[1].id, facts[2].id]))
    );
    assert!(graph.quarantined().is_empty());
    assert_eq!(graph.projection(), source.projection());
    assert_eq!(graph.index, source.index);
}

#[test]
fn a_fresh_graph_stands() {
    let (bootstrap, root) = closed(191);
    let mut graph = FactGraph::from_bootstrap(&bootstrap);
    assert!(graph.is_owned());
    assert!(graph.has_room(u64::MAX - graph.fence.generation.max(graph.fence.facts_revision)));
    assert!(graph.is_roomy(2));
    assert!(graph.is_countable(1));
    graph.fence.generation = u64::MAX - 1;
    assert!(graph.has_room(1));
    assert!(!graph.has_room(2));
    assert!(!graph.is_roomy(2));
    let orphan = fact(
        &bootstrap,
        &root,
        grant(device(&key(192)), Role::Member),
        vec![id(5)],
    );
    let mut other = FactGraph::from_bootstrap(&bootstrap);
    assert_eq!(
        other.admit_fact(orphan),
        Ok(Admission::Quarantined {
            missing: vec![id(5)],
        })
    );
    assert!(other.is_owned());
    other.quarantine.bytes = 0;
    assert!(!other.is_owned());
}

#[test]
fn a_record_carries_the_projection() {
    let (mut graph, _, root, target) = evicted(201);
    let before = graph.projection();
    let next = witnessed(&graph, &root, grant(device(&key(210)), Role::Member));
    let journal = graph.admit_journaled(next).unwrap();
    let change = journal.delta().projection_delta().unwrap();
    assert_eq!(change.generation, graph.fence.generation);
    let mut carried = before.duplicate();
    carried.restore_sparse_entries(&change.cells, &change.stand_down);
    assert_eq!(carried, graph.projection());
    assert_ne!(carried, before);
    assert!(change
        .cells
        .contains_key(&ExclusiveCell::role(device(&key(210)))));
    assert!(!change.cells.contains_key(&ExclusiveCell::role(target)));
    journal.commit(&mut graph);
}

#[test]
fn a_gathered_record_carries_the_projection() {
    let (mut graph, _, root, _) = evicted(211);
    let before = graph.projection();
    let start = graph.fence.generation;
    let mut gathered = SemanticDelta::new();
    let mut ids = Vec::new();
    for seed in [220, 221] {
        let next = witnessed(&graph, &root, grant(device(&key(seed)), Role::Member));
        ids.push(next.id);
        let journal = graph.admit_journaled(next).unwrap();
        gathered.append_seed_delta(journal.delta().duplicate());
        journal.commit(&mut graph);
    }
    assert_eq!(gathered.changed_ids(), ids);
    assert_eq!(
        gathered.projection_delta().unwrap().generation,
        start + 1
    );
    let closed = graph.finish_deferred_seed_delta(&before, gathered);
    let change = closed.projection_delta().unwrap();
    assert_eq!(change.base_generation, start);
    assert_eq!(change.generation, start + 2);
    let mut carried = before.duplicate();
    carried.restore_sparse_entries(&change.cells, &change.stand_down);
    assert_eq!(carried, graph.projection());
    assert_ne!(carried, before);
}

#[test]
fn rolled_back_history_leaves_with_its_journal() {
    let (bootstrap, root) = closed(221);
    let target = device(&key(222));
    let mut graph = FactGraph::from_bootstrap_with_policy(
        &bootstrap,
        SemanticAdmissionPolicy {
            max_hot_history_facts: 4,
            ..SemanticAdmissionPolicy::default()
        },
    );
    let mut history = Vec::new();
    for index in 0..12u32 {
        let role = if index % 2 == 0 {
            Role::Member
        } else {
            Role::Controller
        };
        let fact = witnessed(&graph, &root, grant(target, role));
        history.push(fact.duplicate());
        assert_eq!(graph.admit_fact(fact), Ok(Admission::Inserted));
    }
    graph.retire_cold_history();
    let held = graph.hot_fact_count();
    assert!(held < history.len());
    let next = witnessed(&graph, &root, grant(device(&key(223)), Role::Member));
    let before = graph.duplicate();
    let rows = |list: &Vec<SignedFact>| -> Vec<SignedFact> {
        list.iter().map(|fact| fact.duplicate()).collect()
    };
    let journal = graph
        .admit_journaled_with_history(next.duplicate(), rows(&history))
        .unwrap();
    assert_eq!(graph.facts.len(), history.len() + 1);
    journal.rollback(&mut graph);
    assert_eq!(graph.facts, before.facts);
    assert_eq!(graph.order, before.order);
    assert_eq!(graph.quarantine, before.quarantine);
    assert_eq!(graph.ledger, before.ledger);
    assert_eq!(graph.fence, before.fence);
    assert_eq!(graph.projection(), before.projection());
    let group = graph
        .admit_journaled_batch_with_history(vec![next.duplicate()], rows(&history))
        .unwrap();
    group.rollback(&mut graph);
    assert_eq!(graph.facts, before.facts);
    assert_eq!(graph.order, before.order);
    assert_eq!(graph.quarantine, before.quarantine);
    assert_eq!(graph.fence, before.fence);
    assert_eq!(graph.projection(), before.projection());
    let mut foreign = rows(&history);
    foreign[0].content.mesh_context = MeshContextId::from_bytes([1; 32]);
    assert!(graph
        .admit_journaled_with_history(next, foreign)
        .is_err());
    assert_eq!(graph.facts, before.facts);
    assert_eq!(graph.projection(), before.projection());
}

#[test]
fn a_record_carries_promoted_waiters_too() {
    let (bootstrap, root) = closed(231);
    let mut source = FactGraph::from_bootstrap(&bootstrap);
    let target = device(&key(232));
    let mut facts = Vec::new();
    for role in [Role::Member, Role::Controller, Role::Member] {
        let next = witnessed(&source, &root, grant(target, role));
        assert_eq!(source.admit_fact(next.duplicate()), Ok(Admission::Inserted));
        facts.push(next);
    }
    let mut graph = FactGraph::from_bootstrap(&bootstrap);
    for late in [2, 1] {
        assert!(matches!(
            graph.admit_fact(facts[late].duplicate()),
            Ok(Admission::Quarantined { .. })
        ));
    }
    let before = graph.projection();
    let journal = graph.admit_journaled(facts[0].duplicate()).unwrap();
    assert_eq!(
        sorted(journal.delta().promoted().to_vec()),
        sorted(vec![facts[1].id, facts[2].id])
    );
    let change = journal.delta().projection_delta().unwrap();
    let mut carried = before.duplicate();
    carried.restore_sparse_entries(&change.cells, &change.stand_down);
    assert_eq!(carried, source.projection());
    assert_eq!(carried, graph.projection());
    journal.commit(&mut graph);
}

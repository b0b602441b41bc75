//! Canonical identities, cells and content.
use data_encoding::BASE32_NOPAD;
use ed25519_dalek::{SigningKey, VerifyingKey};
use mesh_semantic::content::{ExclusiveCell, FactBody, Role};
use mesh_semantic::device::DeviceId;
use mesh_semantic::encode::Encoder;
use mesh_semantic::ids::FactId;
use std::collections::hash_map::DefaultHasher;
use std::hash::{Hash, Hasher};

fn device() -> DeviceId {
    let key = SigningKey::from_bytes(&[7; 32]);
    DeviceId::from_public_key_bytes(*key.verifying_key().as_bytes()).unwrap()
}

#[test]
fn device_aliases_are_rejected_before_fact_construction() {
    let canonical = device().base32();
    assert!(DeviceId::from_canonical_str(&canonical).is_ok());
    assert!(DeviceId::from_canonical_str(&canonical.to_uppercase()).is_err());
    assert!(DeviceId::from_canonical_str(&format!("{canonical}-label")).is_err());
    assert!(DeviceId::from_canonical_str(&format!("{canonical}=")).is_err());
}

#[test]
fn bounded_device_validation_matches_ordinary_canonical_acceptance() {
    for seed in [11, 37, 91, 173] {
        let signing = SigningKey::from_bytes(&[seed; 32]);
        let key = signing.verifying_key().to_bytes();
        let canonical = BASE32_NOPAD.encode(&key).to_ascii_lowercase();
        assert_eq!(DeviceId::canonical_key_bytes(&canonical), Ok(key));
        let owned = DeviceId::from_canonical_str_uninterned(&canonical).unwrap();
        assert_eq!(owned, DeviceId::from_canonical_str(&canonical).unwrap());
        let mut bad_tail = canonical.clone();
        bad_tail.replace_range(51..52, "b");
        for invalid in [
            String::new(),
            canonical[..51].to_owned(),
            format!("{canonical}a"),
            canonical.to_ascii_uppercase(),
            format!("{canonical}="),
            format!("{canonical}-label"),
            format!(" {}", &canonical[1..]),
            format!("0{}", &canonical[1..]),
            format!("é{}", &canonical[2..]),
            bad_tail,
            "a".repeat(4_096),
        ] {
            assert!(DeviceId::canonical_key_bytes(&invalid).is_err());
            assert!(DeviceId::from_canonical_str_uninterned(&invalid).is_err());
            assert!(DeviceId::from_canonical_str(&invalid).is_err());
        }
    }
    // Exercise canonical base32 which fails the same Ed25519 validation,
    // without assuming a particular repeated-byte key is invalid.
    let invalid_key = (0u8..=255)
        .map(|byte| [byte; 32])
        .find(|key| VerifyingKey::from_bytes(key).is_err())
        .expect("the finite corpus holds an invalid compressed point");
    let encoded = BASE32_NOPAD.encode(&invalid_key).to_ascii_lowercase();
    assert!(DeviceId::canonical_key_bytes(&encoded).is_err());
    assert!(DeviceId::from_canonical_str_uninterned(&encoded).is_err());
    assert!(DeviceId::from_canonical_str(&encoded).is_err());
}

#[test]
fn uninterned_identity_preserves_order_hash_serde_and_fact_bytes() {
    let mut ordinary = Vec::new();
    let mut uninterned = Vec::new();
    for seed in [19, 41, 83] {
        let signing = SigningKey::from_bytes(&[seed; 32]);
        let key = signing.verifying_key().to_bytes();
        let spelling = BASE32_NOPAD.encode(&key).to_ascii_lowercase();
        let owned = DeviceId::from_canonical_str_uninterned(&spelling).unwrap();
        let interned = DeviceId::from_canonical_str(&spelling).unwrap();
        assert_eq!(interned, DeviceId::from_public_key_bytes(key).unwrap());
        assert_eq!(owned, interned);
        let mut owned_hash = DefaultHasher::new();
        let mut interned_hash = DefaultHasher::new();
        owned.hash(&mut owned_hash);
        interned.hash(&mut interned_hash);
        assert_eq!(owned_hash.finish(), interned_hash.finish());
        assert_eq!(owned.base32(), interned.base32());
        assert_eq!(
            DeviceId::from_canonical_str(&owned.base32()).unwrap(),
            interned
        );
        ordinary.push(interned);
        uninterned.push(owned);
    }
    ordinary.sort();
    uninterned.sort();
    assert_eq!(ordinary, uninterned);
    let content = |ids: &[DeviceId]| {
        let mut out = Encoder::new();
        FactBody::RoleGrant {
            target: ids[1],
            role: Role::Member,
        }
        .encode(&mut out);
        out.device(&ids[0]);
        out.finish()
    };
    assert_eq!(content(&ordinary), content(&uninterned));
}

#[test]
fn exclusive_cells_are_a_closed_typed_union() {
    let id = device();
    assert_ne!(ExclusiveCell::role(id), ExclusiveCell::membership(id));
    assert_eq!(
        ExclusiveCell::role(id).label(),
        Some(format!("role:{}", id.base32()))
    );
    assert_eq!(
        ExclusiveCell::membership(id).label(),
        Some(format!("membership:{}", id.base32()))
    );
    assert_eq!(
        ExclusiveCell::decision(FactId::from_bytes([1; 32])).label(),
        None
    );
}

use poly_derive::errors::CommonError;
use poly_derive::new_types::{
    CAP26Index, CAP26IndexRange, DerivationPath, DerivationRequestInKeySpace,
    FactorInstanceInSecurifiedSpace, FactorInstanceInUnsecurifiedSpace, KeySpace, KeySpaced,
    BIP32_HARDENED, BIP32_SECURIFIED_HALF, KEY_SPACE_BOUNDARY,
};
use poly_derive::sargon_types::{
    CAP26EntityKind, CAP26KeyKind, FactorInstance, FactorSourceIDFromHash, FactorSourceKind,
    NetworkID, PublicKey, PublicKeyHash,
};

fn fsid(kind: FactorSourceKind, seed: u8) -> FactorSourceIDFromHash {
    let key = PublicKey { bytes: vec![seed; 32] };
    FactorSourceIDFromHash { public_key_hash: PublicKeyHash::hashing(&key), factor_source_kind: kind }
}

fn path_at(id: FactorSourceIDFromHash, network_id: NetworkID, raw_index: u32) -> DerivationPath {
    let index = CAP26Index::new(raw_index);
    let key_space = index.key_space();
    DerivationPath::new_with_factor_source_id(
        id,
        network_id,
        CAP26EntityKind::Account,
        CAP26KeyKind::T9n,
        key_space,
        index,
    )
}

fn instance_at(id: FactorSourceIDFromHash, raw_index: u32, key_seed: u8) -> FactorInstance {
    let path = path_at(id, NetworkID::Mainnet, raw_index);
    FactorInstance::new(path, PublicKey { bytes: vec![key_seed; 32] })
}

#[test]
fn classify_below_boundary_is_unsecurified() {
    assert_eq!(CAP26Index::new(0).key_space(), KeySpace::Unsecurified);
    assert_eq!(CAP26Index::new(1).key_space(), KeySpace::Unsecurified);
    assert_eq!(CAP26Index::new(BIP32_HARDENED).key_space(), KeySpace::Unsecurified);
}

#[test]
fn classify_at_boundary_is_unsecurified() {
    let boundary = BIP32_HARDENED + BIP32_SECURIFIED_HALF;
    assert_eq!(boundary, KEY_SPACE_BOUNDARY);
    let index = CAP26Index::new(boundary);
    assert_eq!(index.key_space(), KeySpace::Unsecurified);
    assert_eq!(index.base_index(), boundary);
}

#[test]
fn classify_above_boundary_is_securified() {
    let index = CAP26Index::new(KEY_SPACE_BOUNDARY + 1);
    assert_eq!(index.key_space(), KeySpace::Securified);
    assert_eq!(index.base_index(), KEY_SPACE_BOUNDARY + 1);
    assert_eq!(CAP26Index::new(u32::MAX).key_space(), KeySpace::Securified);
}

#[test]
fn index_is_in_its_own_key_space_only() {
    let unsec = CAP26Index::new(7);
    assert!(unsec.is_in_key_space(KeySpace::Unsecurified));
    assert!(!unsec.is_in_key_space(KeySpace::Securified));
    let sec = CAP26Index::new(KEY_SPACE_BOUNDARY + 7);
    assert!(sec.is_in_key_space(KeySpace::Securified));
    assert!(!sec.is_in_key_space(KeySpace::Unsecurified));
}

#[test]
fn range_spanning_the_boundary_is_in_no_key_space() {
    let range = CAP26IndexRange {
        start: CAP26Index::new(KEY_SPACE_BOUNDARY - 1),
        end: CAP26Index::new(KEY_SPACE_BOUNDARY + 2),
    };
    assert!(!range.is_in_key_space(KeySpace::Unsecurified));
    assert!(!range.is_in_key_space(KeySpace::Securified));
    let unsec_range = CAP26IndexRange { start: CAP26Index::new(0), end: CAP26Index::new(10) };
    assert!(unsec_range.is_in_key_space(KeySpace::Unsecurified));
    let empty = CAP26IndexRange { start: CAP26Index::new(5), end: CAP26Index::new(5) };
    assert!(empty.is_in_key_space(KeySpace::Unsecurified));
    assert!(empty.is_in_key_space(KeySpace::Securified));
}

#[test]
fn unsecurified_wrapper_refuses_securified_instance() {
    let id = fsid(FactorSourceKind::Device, 1);
    let securified = instance_at(id, KEY_SPACE_BOUNDARY + 5, 9);
    let refused = FactorInstanceInUnsecurifiedSpace::new(securified);
    assert_eq!(refused.unwrap_err(), CommonError::InvalidKeySpace);
}

#[test]
fn securified_wrapper_refuses_unsecurified_instance() {
    let id = fsid(FactorSourceKind::Device, 1);
    let unsecurified = instance_at(id, 5, 9);
    let refused = FactorInstanceInSecurifiedSpace::new(unsecurified);
    assert_eq!(refused.unwrap_err(), CommonError::InvalidKeySpace);
}

#[test]
fn wrappers_accept_instances_of_their_own_space() {
    let id = fsid(FactorSourceKind::Device, 1);
    let unsecurified = instance_at(id.clone(), 5, 9);
    let wrapped = FactorInstanceInUnsecurifiedSpace::new(unsecurified.clone()).unwrap();
    assert_eq!(wrapped.instance(), unsecurified);
    let securified = instance_at(id, KEY_SPACE_BOUNDARY + 5, 9);
    let wrapped = FactorInstanceInSecurifiedSpace::new(securified.clone()).unwrap();
    assert_eq!(wrapped.instance(), securified);
}

#[test]
fn erasing_a_path_keeps_everything_but_the_index() {
    let id = fsid(FactorSourceKind::Ledger, 3);
    let path = path_at(id.clone(), NetworkID::Testnet, 11);
    let erased = path.erase_to_in_key_space();
    let expected = DerivationRequestInKeySpace::new(
        id,
        NetworkID::Testnet,
        CAP26EntityKind::Account,
        CAP26KeyKind::T9n,
        KeySpace::Unsecurified,
    );
    assert_eq!(erased, expected);
}

#[test]
fn instance_reports_the_key_space_of_its_path() {
    let id = fsid(FactorSourceKind::Device, 2);
    let instance = instance_at(id.clone(), 0, 4);
    assert_eq!(instance.key_space(), KeySpace::Unsecurified);
    assert_eq!(instance.factor_source_id(), id);
    let instance = instance_at(id, u32::MAX, 4);
    assert_eq!(instance.key_space(), KeySpace::Securified);
}

#[test]
fn public_key_hash_is_the_truncated_digest() {
    // SHA-256 of thirty-two zero bytes, independently computed.
    let digest_hex = "66687aadf862bd776c8fc18b8e9f8e20089714856ee233b3902a591d0d5f2925";
    let digest = hex::decode(digest_hex).unwrap();
    let key = PublicKey { bytes: vec![0u8; 32] };
    let hash = PublicKeyHash::hashing(&key);
    assert_eq!(hash.bytes.len(), 29);
    assert_eq!(hash.bytes[..], digest[..29]);
    // The hash is not the key itself.
    assert_ne!(hash.bytes, vec![0u8; 29]);
}

use poly_derive::errors::CommonError;
use poly_derive::new_types::{
    AbstractDerivationRequests, CAP26Index, DerivationPath,
    DerivationRequestAbstractFactorAbstractIndex, DerivationRequestInKeySpace,
    FactorInstanceInUnsecurifiedSpace, FactorInstances, FactorSources, KeySpace,
};
use poly_derive::sargon_types::{
    Account, CAP26EntityKind, CAP26KeyKind, FactorInstance, FactorSource, FactorSourceIDFromHash,
    FactorSourceKind, NetworkID, Profile, PublicKey, PublicKeyHash,
};

fn fsid(kind: FactorSourceKind, seed: u8) -> FactorSourceIDFromHash {
    let key = PublicKey { bytes: vec![seed; 32] };
    FactorSourceIDFromHash { public_key_hash: PublicKeyHash::hashing(&key), factor_source_kind: kind }
}

fn source(kind: FactorSourceKind, seed: u8) -> FactorSource {
    FactorSource { factor_source_id: fsid(kind, seed) }
}

fn instance_at(id: FactorSourceIDFromHash, raw_index: u32) -> FactorInstance {
    let index = CAP26Index::new(raw_index);
    let key_space = index.key_space();
    let path = DerivationPath::new_with_factor_source_id(
        id,
        NetworkID::Mainnet,
        CAP26EntityKind::Account,
        CAP26KeyKind::T9n,
        key_space,
        index,
    );
    let mut bytes = vec![0u8; 32];
    bytes[0] = (raw_index & 0xff) as u8;
    FactorInstance::new(path, PublicKey { bytes })
}

#[test]
fn factor_instances_from_drops_duplicates_and_keeps_order() {
    let id = fsid(FactorSourceKind::Device, 1);
    let a = instance_at(id.clone(), 0);
    let b = instance_at(id, 1);
    let pool = FactorInstances::from(vec![a.clone(), b.clone(), a.clone()]);
    assert_eq!(pool.len(), 2);
    assert_eq!(pool.0[0], a);
    assert_eq!(pool.0[1], b);
    assert!(pool.contains_instance(&a));
}

#[test]
fn factor_sources_from_iter_drops_duplicates() {
    let a = source(FactorSourceKind::Device, 1);
    let b = source(FactorSourceKind::Ledger, 2);
    let sources = FactorSources::from_iter(vec![a.clone(), b.clone(), a.clone()]);
    assert_eq!(sources.len(), 2);
    assert!(sources.contains_source(&a));
    assert!(sources.contains_source(&b));
}

#[test]
fn factor_sources_insert_refuses_a_duplicate() {
    let a = source(FactorSourceKind::Device, 1);
    let mut sources = FactorSources::just(a.clone());
    assert_eq!(sources.insert(a).unwrap_err(), CommonError::DuplicateFactorSource);
    let b = source(FactorSourceKind::Ledger, 2);
    sources.insert(b).unwrap();
    assert_eq!(sources.len(), 2);
}

#[test]
fn profile_new_keeps_the_first_account_per_address() {
    let id = fsid(FactorSourceKind::Device, 1);
    let veci = instance_at(id, 0);
    let wrapped = FactorInstanceInUnsecurifiedSpace::new(veci).unwrap();
    let account = Account::new_unsecurified(wrapped, NetworkID::Mainnet);
    let profile = Profile::new(
        FactorSources(Vec::new()),
        vec![account.clone(), account.clone()],
    );
    assert_eq!(profile.accounts.len(), 1);
    assert_eq!(profile.accounts[0].address(), account.address());
}

#[test]
fn binding_abstract_requests_to_sources_covers_every_pair_once() {
    let a = source(FactorSourceKind::Device, 1);
    let b = source(FactorSourceKind::Ledger, 2);
    let shapes = AbstractDerivationRequests::from(vec![
        DerivationRequestAbstractFactorAbstractIndex {
            abstract_factor: (),
            network_id: NetworkID::Mainnet,
            entity_kind: CAP26EntityKind::Account,
            key_kind: CAP26KeyKind::T9n,
            key_space: KeySpace::Unsecurified,
            abstract_last_component: KeySpace::Unsecurified,
        },
        DerivationRequestAbstractFactorAbstractIndex {
            abstract_factor: (),
            network_id: NetworkID::Mainnet,
            entity_kind: CAP26EntityKind::Account,
            key_kind: CAP26KeyKind::Rola,
            key_space: KeySpace::Unsecurified,
            abstract_last_component: KeySpace::Unsecurified,
        },
    ]);
    let bound = shapes.for_each_factor_sources(FactorSources::from_iter(vec![
        a.clone(),
        b.clone(),
        a.clone(),
    ]));
    assert_eq!(bound.len(), 4);
    let expected = DerivationRequestInKeySpace::new(
        a.factor_source_id,
        NetworkID::Mainnet,
        CAP26EntityKind::Account,
        CAP26KeyKind::T9n,
        KeySpace::Unsecurified,
    );
    assert!(bound.iter().any(|r| *r == expected));
}

#[test]
fn error_messages_name_their_cause() {
    assert!(CommonError::InvalidKeySpace.message().contains("key space"));
    assert!(CommonError::MaxIterationsExceeded.message().contains("bound"));
}

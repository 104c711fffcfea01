use poly_derive::cache::Cache;
use poly_derive::new_types::{
    CAP26Index, DerivationPath, DerivationRequestInKeySpace, KeySpace, ProbablyFreeFactorInstances,
};
use poly_derive::sargon_types::{
    CAP26EntityKind, CAP26KeyKind, FactorInstance, FactorSourceIDFromHash, FactorSourceKind,
    NetworkID, PublicKey, PublicKeyHash,
};

fn fsid(seed: u8) -> FactorSourceIDFromHash {
    let key = PublicKey { bytes: vec![seed; 32] };
    FactorSourceIDFromHash {
        public_key_hash: PublicKeyHash::hashing(&key),
        factor_source_kind: FactorSourceKind::Device,
    }
}

fn instance_at(id: FactorSourceIDFromHash, raw_index: u32, key_seed: u8) -> FactorInstance {
    let index = CAP26Index::new(raw_index);
    let key_space = index.key_space();
    let path = DerivationPath::new_with_factor_source_id(
        id,
        NetworkID::Mainnet,
        CAP26EntityKind::Account,
        CAP26KeyKind::T9n,
        key_space,
        index,
    );
    FactorInstance::new(path, PublicKey { bytes: vec![key_seed; 32] })
}

fn request_for(id: FactorSourceIDFromHash) -> DerivationRequestInKeySpace {
    DerivationRequestInKeySpace::new(
        id,
        NetworkID::Mainnet,
        CAP26EntityKind::Account,
        CAP26KeyKind::T9n,
        KeySpace::Unsecurified,
    )
}

#[test]
fn load_of_seeded_keys_satisfies_and_consumes() {
    let id_a = fsid(1);
    let id_b = fsid(2);
    let pool = ProbablyFreeFactorInstances(vec![
        instance_at(id_a.clone(), 0, 10),
        instance_at(id_a.clone(), 1, 11),
        instance_at(id_b.clone(), 0, 12),
    ]);
    let mut cache = Cache::new(pool);
    let requests = vec![request_for(id_a.clone()), request_for(id_b.clone())];

    let outcome = cache.load(requests.clone());
    assert!(outcome.is_satisfying_all_requests);
    assert!(!outcome.should_derive_more);
    assert!(!outcome.is_empty());
    let total: usize = outcome.factor_instances.0.iter().map(|e| e.1 .0.len()).sum();
    assert_eq!(total, 3);

    // Consumption: the same load finds nothing the second time.
    let second = cache.load(requests);
    assert!(!second.is_satisfying_all_requests);
    assert!(second.should_derive_more);
    assert!(second.is_empty());
}

#[test]
fn load_of_unknown_request_misses() {
    let id_a = fsid(1);
    let id_b = fsid(2);
    let pool = ProbablyFreeFactorInstances(vec![instance_at(id_a.clone(), 0, 10)]);
    let mut cache = Cache::new(pool);

    let outcome = cache.load(vec![request_for(id_b)]);
    assert!(!outcome.is_satisfying_all_requests);
    assert!(outcome.should_derive_more);
    assert!(outcome.is_empty());
    // The pool for the other key is untouched.
    assert!(cache.get(&request_for(id_a)).is_some());
}

#[test]
fn a_miss_does_not_short_circuit_the_other_requests() {
    let id_a = fsid(1);
    let id_b = fsid(2);
    let pool = ProbablyFreeFactorInstances(vec![instance_at(id_a.clone(), 0, 10)]);
    let mut cache = Cache::new(pool);

    let outcome = cache.load(vec![request_for(id_a.clone()), request_for(id_b)]);
    assert!(!outcome.is_satisfying_all_requests);
    assert!(outcome.should_derive_more);
    // The present key was still served (and consumed).
    assert_eq!(outcome.factor_instances.0.len(), 1);
    assert!(cache.get(&request_for(id_a)).is_none());
}

#[test]
fn seeding_groups_by_abstract_request() {
    let id_a = fsid(1);
    let id_b = fsid(2);
    let pool = ProbablyFreeFactorInstances(vec![
        instance_at(id_a.clone(), 0, 10),
        instance_at(id_b.clone(), 0, 11),
        instance_at(id_a.clone(), 1, 12),
    ]);
    let cache = Cache::new(pool);
    assert_eq!(cache.factor_instances_for_requests.0.len(), 2);
    let pool_a = cache.get(&request_for(id_a)).unwrap();
    assert_eq!(pool_a.0.len(), 2);
    let pool_b = cache.get(&request_for(id_b)).unwrap();
    assert_eq!(pool_b.0.len(), 1);
}

#[test]
fn seeding_drops_duplicate_instances() {
    let id_a = fsid(1);
    let duplicate = instance_at(id_a.clone(), 0, 10);
    let pool = ProbablyFreeFactorInstances(vec![duplicate.clone(), duplicate]);
    let cache = Cache::new(pool);
    let pool_a = cache.get(&request_for(id_a)).unwrap();
    assert_eq!(pool_a.0.len(), 1);
}

#[test]
fn take_instance_consumes_one_and_keeps_siblings() {
    let id_a = fsid(1);
    let pool = ProbablyFreeFactorInstances(vec![
        instance_at(id_a.clone(), 0, 10),
        instance_at(id_a.clone(), 1, 11),
    ]);
    let mut cache = Cache::new(pool);
    let request = request_for(id_a.clone());

    let first = cache.take_instance(&request);
    assert!(first.is_some());
    let second = cache.take_instance(&request);
    assert!(second.is_some());
    assert_ne!(first.unwrap(), second.unwrap());
    let third = cache.take_instance(&request);
    assert!(third.is_none());
}

#[test]
fn insert_instance_makes_a_key_loadable() {
    let id_a = fsid(1);
    let mut cache = Cache::empty();
    cache.insert_instance(instance_at(id_a.clone(), 0, 10));
    let outcome = cache.load(vec![request_for(id_a)]);
    assert!(outcome.is_satisfying_all_requests);
}

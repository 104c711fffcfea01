use poly_derive::errors::CommonError;
use poly_derive::new_types::{
    CAP26Index, DerivationPath, DerivationRequestInKeySpace, DerivedFactorInstances, KeySpace,
    ProbablyFreeFactorInstances,
};
use poly_derive::poly_derive::{
    AlwaysDone, FactorSourceSelector, IsDerivationDoneQuery, WhenDerivedInstancesForFactorSource,
    WhenMatchingSingle,
};
use poly_derive::new_types::IntermediaryDerivationsAndAnalysis;
use poly_derive::sargon_types::{
    CAP26EntityKind, CAP26KeyKind, FactorInstance, FactorSource, FactorSourceIDFromHash,
    FactorSourceKind, MatrixOfAbstractFactor, MatrixOfFactorSources, NetworkID, PublicKey,
    PublicKeyHash,
};

fn fsid(kind: FactorSourceKind, seed: u8) -> FactorSourceIDFromHash {
    let key = PublicKey { bytes: vec![seed; 32] };
    FactorSourceIDFromHash { public_key_hash: PublicKeyHash::hashing(&key), factor_source_kind: kind }
}

fn source(kind: FactorSourceKind, seed: u8) -> FactorSource {
    FactorSource { factor_source_id: fsid(kind, seed) }
}

fn instance_at(id: FactorSourceIDFromHash, raw_index: u32) -> FactorInstance {
    let index = CAP26Index::new(raw_index);
    let key_space = index.key_space();
    let path = DerivationPath::new_with_factor_source_id(
        id,
        NetworkID::Mainnet,
        CAP26EntityKind::Account,
        CAP26KeyKind::T9n,
        key_space,
        index,
    );
    let mut bytes = vec![0u8; 32];
    bytes[0] = (raw_index & 0xff) as u8;
    bytes[1] = ((raw_index >> 8) & 0xff) as u8;
    FactorInstance::new(path, PublicKey { bytes })
}

fn analysis_with_free(instances: Vec<FactorInstance>) -> IntermediaryDerivationsAndAnalysis {
    IntermediaryDerivationsAndAnalysis {
        derived_instances: DerivedFactorInstances::empty(),
        probably_free: ProbablyFreeFactorInstances(instances),
    }
}

#[test]
fn device_count_predicate_is_false_at_nineteen_and_true_at_twenty() {
    let id = fsid(FactorSourceKind::Device, 1);
    let query = WhenDerivedInstancesForFactorSource {
        factor_source_selector: FactorSourceSelector::NewOfKind(FactorSourceKind::Device),
    };
    let mut instances = Vec::new();
    for i in 0..19u32 {
        instances.push(instance_at(id.clone(), i));
    }
    let nineteen = analysis_with_free(instances.clone());
    assert_eq!(query.is_done(&nineteen).unwrap(), false);

    instances.push(instance_at(id, 19));
    let twenty = analysis_with_free(instances);
    assert_eq!(query.is_done(&twenty).unwrap(), true);
}

#[test]
fn ledger_count_predicate_turns_at_ten() {
    let id = fsid(FactorSourceKind::Ledger, 1);
    let query = WhenDerivedInstancesForFactorSource {
        factor_source_selector: FactorSourceSelector::Specific(id.clone()),
    };
    let mut instances = Vec::new();
    for i in 0..9u32 {
        instances.push(instance_at(id.clone(), i));
    }
    assert_eq!(query.is_done(&analysis_with_free(instances.clone())).unwrap(), false);
    instances.push(instance_at(id, 9));
    assert_eq!(query.is_done(&analysis_with_free(instances)).unwrap(), true);
}

#[test]
fn count_predicate_ignores_other_sources() {
    let device = fsid(FactorSourceKind::Device, 1);
    let other = fsid(FactorSourceKind::Device, 2);
    let query = WhenDerivedInstancesForFactorSource {
        factor_source_selector: FactorSourceSelector::Specific(device.clone()),
    };
    let mut instances = Vec::new();
    for i in 0..20u32 {
        instances.push(instance_at(other.clone(), i));
    }
    assert_eq!(query.is_done(&analysis_with_free(instances)).unwrap(), false);
}

#[test]
fn matching_single_predicate_needs_a_matching_free_instance() {
    let id = fsid(FactorSourceKind::Device, 1);
    let request = DerivationRequestInKeySpace::new(
        id.clone(),
        NetworkID::Mainnet,
        CAP26EntityKind::Account,
        CAP26KeyKind::T9n,
        KeySpace::Unsecurified,
    );
    let query = WhenMatchingSingle { request };
    let empty = analysis_with_free(Vec::new());
    assert_eq!(query.is_done(&empty).unwrap(), false);
    let matching = analysis_with_free(vec![instance_at(id, 0)]);
    assert_eq!(query.is_done(&matching).unwrap(), true);
}

#[test]
fn always_done_is_done() {
    let query = AlwaysDone;
    assert_eq!(query.is_done(&analysis_with_free(Vec::new())).unwrap(), true);
}

#[test]
fn matrix_with_threshold_above_factor_count_is_refused() {
    let a = source(FactorSourceKind::Device, 1);
    let refused = MatrixOfFactorSources::new(vec![a], 2, Vec::new());
    assert_eq!(refused.unwrap_err(), CommonError::ThresholdExceedsFactorCount);
}

#[test]
fn matrix_with_threshold_equal_to_factor_count_is_accepted() {
    let a = source(FactorSourceKind::Device, 1);
    let b = source(FactorSourceKind::Ledger, 2);
    let matrix = MatrixOfFactorSources::new(vec![a, b], 2, Vec::new()).unwrap();
    assert_eq!(matrix.threshold, 2);
    assert_eq!(matrix.threshold_factors.len(), 2);
}

#[test]
fn matrix_with_a_source_in_both_groups_is_refused() {
    let a = source(FactorSourceKind::Device, 1);
    let b = source(FactorSourceKind::Ledger, 2);
    let refused = MatrixOfFactorSources::new(vec![a.clone(), b], 1, vec![a]);
    assert_eq!(refused.unwrap_err(), CommonError::DuplicateFactorSource);
}

#[test]
fn all_factor_sources_unites_both_groups_without_duplicates() {
    let a = source(FactorSourceKind::Device, 1);
    let b = source(FactorSourceKind::Ledger, 2);
    // A matrix assembled by hand, sidestepping the checked constructor, so
    // that the union has something to de-duplicate.
    let matrix = MatrixOfAbstractFactor {
        threshold_factors: vec![a.clone(), b.clone()],
        threshold: 1,
        override_factors: vec![a.clone()],
    };
    let all = matrix.all_factor_sources();
    assert_eq!(all.0.len(), 2);
    assert!(all.contains_source(&a));
    assert!(all.contains_source(&b));
}

#[test]
fn batch_sizes_per_kind() {
    assert_eq!(FactorSourceKind::Device.derivation_batch_size(), 20);
    assert_eq!(FactorSourceKind::Ledger.derivation_batch_size(), 10);
}

use std::cell::Cell;

use poly_derive::cache::Cache;
use poly_derive::errors::CommonError;
use poly_derive::new_types::{
    CAP26Index, DerivationInteractors, DerivationPath, DerivationRequestInKeySpace,
    FactorInstances, FactorSources, Gateway, KeySpace,
};
use poly_derive::poly_derive::{
    build_matrix_of_instances_from_cache, mars, oars, FactorSourceSelector, PolyDerivation,
    WhenDerivedInstancesForFactorSource,
};
use poly_derive::sargon_types::{
    Account, AccountAddress, CAP26EntityKind, CAP26KeyKind, FactorInstance, FactorSource,
    FactorSourceIDFromHash, FactorSourceKind, MatrixOfAbstractFactor, MatrixOfFactorSources, NetworkID, Profile,
    PublicKey, PublicKeyHash,
};

fn fsid(kind: FactorSourceKind, seed: u8) -> FactorSourceIDFromHash {
    let key = PublicKey { bytes: vec![seed; 32] };
    FactorSourceIDFromHash { public_key_hash: PublicKeyHash::hashing(&key), factor_source_kind: kind }
}

fn source(kind: FactorSourceKind, seed: u8) -> FactorSource {
    FactorSource { factor_source_id: fsid(kind, seed) }
}

/// The public key the test provider invents for a path: a function of the
/// path's index and its factor source, so every slot gets a distinct key.
fn test_public_key(path: &DerivationPath) -> PublicKey {
    let raw = path.index().base_index();
    let mut bytes = vec![0u8; 32];
    bytes[0] = (raw & 0xff) as u8;
    bytes[1] = ((raw >> 8) & 0xff) as u8;
    bytes[2] = ((raw >> 16) & 0xff) as u8;
    bytes[3] = ((raw >> 24) & 0xff) as u8;
    bytes[4] = path.abstract_factor.public_key_hash.bytes[0];
    bytes[5] = path.abstract_factor.public_key_hash.bytes[1];
    PublicKey { bytes }
}

struct TestInteractors {
    calls: Cell<usize>,
    paths_derived: Cell<usize>,
}

impl TestInteractors {
    fn new() -> Self {
        TestInteractors { calls: Cell::new(0), paths_derived: Cell::new(0) }
    }
}

impl DerivationInteractors for &TestInteractors {
    fn derive(&self, paths: &Vec<DerivationPath>) -> Result<FactorInstances, CommonError> {
        self.calls.set(self.calls.get() + 1);
        self.paths_derived.set(self.paths_derived.get() + paths.len());
        let mut out = Vec::new();
        for path in paths {
            let key = test_public_key(path);
            out.push(FactorInstance::new(path.clone(), key));
        }
        Ok(FactorInstances(out))
    }
}

struct AllFreeGateway;

impl Gateway for AllFreeGateway {
    fn is_address_taken(&self, _address: &AccountAddress) -> Result<bool, CommonError> {
        Ok(false)
    }
}

struct TakenAddressesGateway {
    taken: Vec<AccountAddress>,
}

impl Gateway for TakenAddressesGateway {
    fn is_address_taken(&self, address: &AccountAddress) -> Result<bool, CommonError> {
        Ok(self.taken.iter().any(|t| t == address))
    }
}

struct FailingGateway;

impl Gateway for FailingGateway {
    fn is_address_taken(&self, _address: &AccountAddress) -> Result<bool, CommonError> {
        Err(CommonError::AnalyzerFailure)
    }
}

fn device_count_query() -> WhenDerivedInstancesForFactorSource {
    WhenDerivedInstancesForFactorSource {
        factor_source_selector: FactorSourceSelector::NewOfKind(FactorSourceKind::Device),
    }
}

/// The instance the test provider yields for the unsecurified
/// account-signing slot `raw_index` of `factor_source` on mainnet.
fn expected_instance(factor_source: &FactorSource, raw_index: u32) -> FactorInstance {
    let index = CAP26Index::new(raw_index);
    let path = DerivationPath::new_with_factor_source_id(
        factor_source.factor_source_id.clone(),
        NetworkID::Mainnet,
        CAP26EntityKind::Account,
        CAP26KeyKind::T9n,
        index.key_space(),
        index,
    );
    let key = test_public_key(&path);
    FactorInstance::new(path, key)
}

fn cache_instance_count(cache: &Cache) -> usize {
    cache.factor_instances_for_requests.0.iter().map(|e| e.1 .0.len()).sum()
}

#[test]
fn oars_with_nothing_on_chain_keeps_all_twenty_as_free() {
    let device = source(FactorSourceKind::Device, 1);
    let interactors = TestInteractors::new();
    let sources = FactorSources::just(device);

    let (profile, cache) = oars(sources, &interactors, AllFreeGateway, device_count_query())
        .unwrap();

    // Exactly one batch of twenty was derived, in one provider call.
    assert_eq!(interactors.calls.get(), 1);
    assert_eq!(interactors.paths_derived.get(), 20);
    // Nothing was in use, so the profile has no accounts and the cache
    // retains all twenty instances as probably free.
    assert_eq!(profile.accounts.len(), 0);
    assert_eq!(profile.factor_sources.len(), 1);
    assert_eq!(cache_instance_count(&cache), 20);
}

#[test]
fn oars_recovers_the_account_of_a_taken_instance() {
    let device = source(FactorSourceKind::Device, 1);
    let interactors = TestInteractors::new();
    let sources = FactorSources::just(device.clone());

    // The ledger reports the third derived instance (index two) as used.
    let third = expected_instance(&device, 2);
    let third_address = AccountAddress::new(&third, NetworkID::Mainnet);
    let gateway = TakenAddressesGateway { taken: vec![third_address.clone()] };

    let (profile, cache) = oars(sources, &interactors, gateway, device_count_query()).unwrap();

    assert_eq!(profile.accounts.len(), 1);
    let account = &profile.accounts[0];
    let unsecurified = account.as_unsecurified().unwrap();
    assert_eq!(unsecurified.veci, third);
    assert_eq!(unsecurified.address, third_address);
    // The remaining nineteen stay pooled for future use.
    assert_eq!(cache_instance_count(&cache), 19);
}

#[test]
fn oars_aborts_when_the_gateway_fails() {
    let device = source(FactorSourceKind::Device, 1);
    let interactors = TestInteractors::new();
    let sources = FactorSources::just(device);

    let refused = oars(sources, &interactors, FailingGateway, device_count_query());
    assert_eq!(refused.unwrap_err(), CommonError::AnalyzerFailure);
}

#[test]
fn mars_adds_recovered_accounts_to_the_profile() {
    let device = source(FactorSourceKind::Device, 1);
    let interactors = TestInteractors::new();
    let mut profile = Profile::new(FactorSources::just(device.clone()), Vec::new());

    let fifth = expected_instance(&device, 4);
    let fifth_address = AccountAddress::new(&fifth, NetworkID::Mainnet);
    let gateway = TakenAddressesGateway { taken: vec![fifth_address] };

    let cache = mars(device, &interactors, gateway, &mut profile, None, device_count_query())
        .unwrap();

    assert_eq!(profile.accounts.len(), 1);
    assert_eq!(profile.accounts[0].as_unsecurified().unwrap().veci, fifth);
    assert_eq!(cache_instance_count(&cache), 19);
}

#[test]
fn mars_reuses_a_caller_provided_cache_without_deriving() {
    let device = source(FactorSourceKind::Device, 1);
    let interactors = TestInteractors::new();
    let mut profile = Profile::new(FactorSources::just(device.clone()), Vec::new());

    // Seed a cache holding a full batch for the device's request key.
    let mut seeded = Cache::empty();
    for i in 0..20u32 {
        seeded.insert_instance(expected_instance(&device, i));
    }

    let cache = mars(
        device,
        &interactors,
        AllFreeGateway,
        &mut profile,
        Some(seeded),
        device_count_query(),
    )
    .unwrap();

    // The whole demand was served from the pool: no provider call at all.
    assert_eq!(interactors.calls.get(), 0);
    assert_eq!(profile.accounts.len(), 0);
    assert_eq!(cache_instance_count(&cache), 20);
}

#[test]
fn new_virtual_account_takes_a_fresh_unused_instance() {
    let device = source(FactorSourceKind::Device, 1);
    let interactors = TestInteractors::new();
    let profile = Profile::new(FactorSources::just(device.clone()), Vec::new());

    let derivation = PolyDerivation::new_virtual_unsecurified_account(
        NetworkID::Mainnet,
        &device,
        Some(AllFreeGateway),
        None,
        profile,
        &interactors,
    );
    let analysis = derivation.poly_derive().unwrap();
    let mut cache = analysis.cache;

    let request = DerivationRequestInKeySpace::new(
        device.factor_source_id.clone(),
        NetworkID::Mainnet,
        CAP26EntityKind::Account,
        CAP26KeyKind::T9n,
        KeySpace::Unsecurified,
    );
    let veci = cache.take_instance(&request).unwrap();
    assert_eq!(veci.key_space(), KeySpace::Unsecurified);
    let wrapped = poly_derive::new_types::FactorInstanceInUnsecurifiedSpace::new(veci).unwrap();
    let account = Account::new_unsecurified(wrapped, NetworkID::Mainnet);
    assert!(account.as_unsecurified().is_some());
    // One batch was derived; the rest stays pooled.
    assert_eq!(cache_instance_count(&cache), 19);
}

#[test]
fn pre_derive_fills_the_cache_for_a_new_factor_source() {
    let device = source(FactorSourceKind::Device, 7);
    let interactors = TestInteractors::new();
    let profile = Profile::new(FactorSources(Vec::new()), Vec::new());

    let derivation = PolyDerivation::pre_derive_instance_for_new_factor_source(
        &device,
        None::<AllFreeGateway>,
        None,
        profile,
        &interactors,
    );
    let analysis = derivation.poly_derive().unwrap();
    assert_eq!(interactors.paths_derived.get(), 20);
    assert_eq!(cache_instance_count(&analysis.cache), 20);
    assert_eq!(analysis.derived_instances.unsecurified_factor_instances.len(), 0);
}

#[test]
fn securify_builds_a_matrix_from_freshly_derived_instances() {
    let device = source(FactorSourceKind::Device, 1);
    let ledger = source(FactorSourceKind::Ledger, 2);
    let interactors = TestInteractors::new();

    // A profile holding one unsecurified account to upgrade.
    let veci = expected_instance(&device, 0);
    let wrapped = poly_derive::new_types::FactorInstanceInUnsecurifiedSpace::new(veci).unwrap();
    let account = Account::new_unsecurified(wrapped, NetworkID::Mainnet);
    let address = account.address();
    let profile = Profile::new(FactorSources::just(device.clone()), vec![account]);

    let matrix_of_factor_sources =
        MatrixOfFactorSources::new(vec![device.clone(), ledger.clone()], 2, Vec::new()).unwrap();

    let derivation = PolyDerivation::securify_unsecurified_account(
        address,
        matrix_of_factor_sources.clone(),
        None::<AllFreeGateway>,
        None,
        profile,
        &interactors,
    )
    .unwrap();
    let analysis = derivation.poly_derive().unwrap();
    let mut cache = analysis.cache;

    let matrix = build_matrix_of_instances_from_cache(
        &mut cache,
        &matrix_of_factor_sources,
        NetworkID::Mainnet,
    )
    .unwrap();
    assert_eq!(matrix.threshold, 2);
    assert_eq!(matrix.threshold_factors.len(), 2);
    assert_eq!(matrix.override_factors.len(), 0);
    for wrapped in &matrix.threshold_factors {
        assert_eq!(wrapped.instance().key_space(), KeySpace::Securified);
    }
}

#[test]
fn securify_with_an_invalid_policy_is_refused() {
    let device = source(FactorSourceKind::Device, 1);
    let interactors = TestInteractors::new();

    let veci = expected_instance(&device, 0);
    let wrapped = poly_derive::new_types::FactorInstanceInUnsecurifiedSpace::new(veci).unwrap();
    let account = Account::new_unsecurified(wrapped, NetworkID::Mainnet);
    let address = account.address();
    let profile = Profile::new(FactorSources::just(device.clone()), vec![account]);

    // The threshold exceeds the threshold factor count; the flow refuses
    // the policy before any account lookup or derivation.
    let overdrawn = MatrixOfAbstractFactor {
        threshold_factors: vec![device.clone()],
        threshold: 2,
        override_factors: Vec::new(),
    };
    let refused = PolyDerivation::<_, AllFreeGateway, _>::securify_unsecurified_account(
        address.clone(),
        overdrawn,
        None,
        None,
        profile.clone(),
        &interactors,
    );
    assert_eq!(refused.err().unwrap(), CommonError::ThresholdExceedsFactorCount);

    // A source in both groups is refused as a duplicate.
    let doubled = MatrixOfAbstractFactor {
        threshold_factors: vec![device.clone()],
        threshold: 1,
        override_factors: vec![device.clone()],
    };
    let refused = PolyDerivation::<_, AllFreeGateway, _>::securify_unsecurified_account(
        address,
        doubled,
        None,
        None,
        profile,
        &interactors,
    );
    assert_eq!(refused.err().unwrap(), CommonError::DuplicateFactorSource);
}

#[test]
fn securify_of_an_unknown_address_is_refused() {
    let device = source(FactorSourceKind::Device, 1);
    let interactors = TestInteractors::new();
    let profile = Profile::new(FactorSources::just(device.clone()), Vec::new());
    let other = expected_instance(&device, 3);
    let unknown_address = AccountAddress::new(&other, NetworkID::Mainnet);
    let matrix = MatrixOfFactorSources::new(vec![device], 1, Vec::new()).unwrap();

    let refused = PolyDerivation::<_, AllFreeGateway, _>::securify_unsecurified_account(
        unknown_address,
        matrix,
        None,
        None,
        profile,
        &interactors,
    );
    assert_eq!(refused.err().unwrap(), CommonError::AccountNotFound);
}

#[test]
fn profile_refuses_duplicate_factor_sources_and_accounts() {
    let device = source(FactorSourceKind::Device, 1);
    let mut profile = Profile::new(FactorSources::just(device.clone()), Vec::new());
    assert_eq!(
        profile.add_factor_source(device.clone()).unwrap_err(),
        CommonError::DuplicateFactorSource
    );

    let veci = expected_instance(&device, 0);
    let wrapped = poly_derive::new_types::FactorInstanceInUnsecurifiedSpace::new(veci).unwrap();
    let account = Account::new_unsecurified(wrapped, NetworkID::Mainnet);
    profile.insert_accounts(vec![account.clone()]).unwrap();
    assert_eq!(
        profile.insert_accounts(vec![account.clone()]).unwrap_err(),
        CommonError::DuplicateAccount
    );
    let looked_up = profile.get_account(&account.address()).unwrap();
    assert_eq!(looked_up.address(), account.address());

    let missing = expected_instance(&device, 9);
    let missing_address = AccountAddress::new(&missing, NetworkID::Mainnet);
    assert_eq!(profile.get_account(&missing_address).unwrap_err(), CommonError::AccountNotFound);
}

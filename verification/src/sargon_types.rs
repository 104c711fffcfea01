//! The wallet-domain value types: factor sources, public keys and their
//! hashes, factor instances, account addresses and security matrices.

use vstd::prelude::*;
use vstd::std_specs::cmp::PartialEqSpec;

use crate::errors::CommonError;
use crate::hashing::{compute_public_key_hash, public_key_hash_bytes, PUBLIC_KEY_HASH_LEN};
use crate::new_types::{
    sources_distinct, sources_has, DerivationPath, DerivationRequestInKeySpace,
    FactorInstanceInSecurifiedSpace, FactorInstanceInUnsecurifiedSpace, FactorSources, KeySpace,
    SecurifiedAccount, UnsecurifiedAccount,
};

verus! {

/// The kind of signing source behind a factor source.
#[derive(Clone, Copy, Debug, PartialEq, Eq, Hash, Structural)]
pub enum FactorSourceKind {
    Device,
    Ledger,
}

impl FactorSourceKind {
    /// How many instances one derivation round requests from a source of
    /// this kind.
    pub fn derivation_batch_size(&self) -> (r: usize)
        ensures
            r == self.spec_derivation_batch_size(),
    {
        match self {
            Self::Device => 20,
            Self::Ledger => 10,
        }
    }

    pub open spec fn spec_derivation_batch_size(&self) -> usize {
        match self {
            FactorSourceKind::Device => 20usize,
            FactorSourceKind::Ledger => 10usize,
        }
    }
}

/// The network an entity lives on.
#[derive(Clone, Copy, Debug, PartialEq, Eq, Hash, Structural)]
pub enum NetworkID {
    Mainnet,
    Testnet,
}

/// What a derived key signs: transactions or ownership proofs.
#[derive(Clone, Copy, Debug, PartialEq, Eq, Hash, Structural)]
pub enum CAP26KeyKind {
    T9n,
    Rola,
}

/// The kind of entity a derived key belongs to.
#[derive(Clone, Copy, Debug, PartialEq, Eq, Hash, Structural)]
pub enum CAP26EntityKind {
    Account,
    Identity,
}

/// A public key, as raw bytes.
#[derive(Debug)]
pub struct PublicKey {
    pub bytes: Vec<u8>,
}

impl PublicKey {
    /// Whether `self` and `other` hold the same bytes.
    pub open spec fn eqv(&self, other: &Self) -> bool {
        self.bytes@ == other.bytes@
    }
}

impl Clone for PublicKey {
    fn clone(&self) -> (r: Self)
        ensures
            r.eqv(self),
    {
        let bytes = self.bytes.clone();
        proof {
            assert(bytes@ =~= self.bytes@);
        }
        PublicKey { bytes }
    }
}

impl PartialEq for PublicKey {
    fn eq(&self, other: &Self) -> (r: bool) {
        let r = self.bytes == other.bytes;
        proof {
            if r {
                assert(self.bytes@ =~= other.bytes@);
            }
        }
        r
    }
}

impl vstd::std_specs::cmp::PartialEqSpecImpl for PublicKey {
    open spec fn obeys_eq_spec() -> bool {
        true
    }

    open spec fn eq_spec(&self, other: &Self) -> bool {
        self.eqv(other)
    }
}

/// The first 29 bytes of the SHA-256 digest of a public key.
#[derive(Debug)]
pub struct PublicKeyHash {
    pub bytes: Vec<u8>,
}

impl PublicKeyHash {
    /// Whether `self` and `other` hold the same bytes.
    pub open spec fn eqv(&self, other: &Self) -> bool {
        self.bytes@ == other.bytes@
    }

    pub open spec fn wf(&self) -> bool {
        self.bytes@.len() == PUBLIC_KEY_HASH_LEN
    }

    /// Hash a public key.
    pub fn hashing(public_key: &PublicKey) -> (r: Self)
        ensures
            r.bytes@ == public_key_hash_bytes(public_key.bytes@),
            r.wf(),
    {
        PublicKeyHash { bytes: compute_public_key_hash(&public_key.bytes) }
    }
}

impl Clone for PublicKeyHash {
    fn clone(&self) -> (r: Self)
        ensures
            r.eqv(self),
    {
        let bytes = self.bytes.clone();
        proof {
            assert(bytes@ =~= self.bytes@);
        }
        PublicKeyHash { bytes }
    }
}

impl PartialEq for PublicKeyHash {
    fn eq(&self, other: &Self) -> (r: bool) {
        let r = self.bytes == other.bytes;
        proof {
            if r {
                assert(self.bytes@ =~= other.bytes@);
            }
        }
        r
    }
}

impl vstd::std_specs::cmp::PartialEqSpecImpl for PublicKeyHash {
    open spec fn obeys_eq_spec() -> bool {
        true
    }

    open spec fn eq_spec(&self, other: &Self) -> bool {
        self.eqv(other)
    }
}

/// The identity of a factor source: the hash of a public key at a special
/// node, together with the source's kind.
#[derive(Debug)]
pub struct FactorSourceIDFromHash {
    pub public_key_hash: PublicKeyHash,
    pub factor_source_kind: FactorSourceKind,
}

impl FactorSourceIDFromHash {
    /// Whether `self` and `other` name the same factor source.
    pub open spec fn eqv(&self, other: &Self) -> bool {
        self.public_key_hash.eqv(&other.public_key_hash) && self.factor_source_kind
            == other.factor_source_kind
    }
}

impl Clone for FactorSourceIDFromHash {
    fn clone(&self) -> (r: Self)
        ensures
            r.eqv(self),
    {
        FactorSourceIDFromHash {
            public_key_hash: self.public_key_hash.clone(),
            factor_source_kind: self.factor_source_kind,
        }
    }
}

impl PartialEq for FactorSourceIDFromHash {
    fn eq(&self, other: &Self) -> bool {
        self.public_key_hash == other.public_key_hash && self.factor_source_kind
            == other.factor_source_kind
    }
}

impl vstd::std_specs::cmp::PartialEqSpecImpl for FactorSourceIDFromHash {
    open spec fn obeys_eq_spec() -> bool {
        true
    }

    open spec fn eq_spec(&self, other: &Self) -> bool {
        self.eqv(other)
    }
}

/// The identity of a signing source.
#[derive(Debug)]
pub struct FactorSource {
    pub factor_source_id: FactorSourceIDFromHash,
}

impl FactorSource {
    /// Whether `self` and `other` are the same source.
    pub open spec fn eqv(&self, other: &Self) -> bool {
        self.factor_source_id.eqv(&other.factor_source_id)
    }
}

impl Clone for FactorSource {
    fn clone(&self) -> (r: Self)
        ensures
            r.eqv(self),
    {
        FactorSource { factor_source_id: self.factor_source_id.clone() }
    }
}

impl PartialEq for FactorSource {
    fn eq(&self, other: &Self) -> bool {
        self.factor_source_id == other.factor_source_id
    }
}

impl vstd::std_specs::cmp::PartialEqSpecImpl for FactorSource {
    open spec fn obeys_eq_spec() -> bool {
        true
    }

    open spec fn eq_spec(&self, other: &Self) -> bool {
        self.eqv(other)
    }
}

/// The externally visible identity of an account: a public-key hash plus
/// the network the account lives on.
#[derive(Debug)]
pub struct AccountAddress {
    pub network_id: NetworkID,
    pub public_key_hash: PublicKeyHash,
}

impl AccountAddress {
    /// Whether `self` and `other` are the same address.
    pub open spec fn eqv(&self, other: &Self) -> bool {
        self.network_id == other.network_id && self.public_key_hash.eqv(&other.public_key_hash)
    }
}

impl Clone for AccountAddress {
    fn clone(&self) -> (r: Self)
        ensures
            r.eqv(self),
    {
        AccountAddress {
            network_id: self.network_id,
            public_key_hash: self.public_key_hash.clone(),
        }
    }
}

impl PartialEq for AccountAddress {
    fn eq(&self, other: &Self) -> bool {
        self.network_id == other.network_id && self.public_key_hash == other.public_key_hash
    }
}

impl vstd::std_specs::cmp::PartialEqSpecImpl for AccountAddress {
    open spec fn obeys_eq_spec() -> bool {
        true
    }

    open spec fn eq_spec(&self, other: &Self) -> bool {
        self.eqv(other)
    }
}

/// Whether `addr` is the address that `public_key` yields on `network_id`.
pub open spec fn addr_matches_key(addr: AccountAddress, public_key: Seq<u8>, network_id: NetworkID) -> bool {
    addr.network_id == network_id && addr.public_key_hash.bytes@ == public_key_hash_bytes(
        public_key,
    )
}

/// A derived key instance: a public key bound to the derivation path that
/// produced it and to the factor source that derived it.
#[derive(Debug)]
pub struct FactorInstance {
    pub derivation_path: DerivationPath,
    pub public_key: PublicKey,
    pub factor_source_id: FactorSourceIDFromHash,
}

impl FactorInstance {
    /// Whether `self` and `other` are the same instance.
    pub open spec fn eqv(&self, other: &Self) -> bool {
        self.derivation_path.eqv(&other.derivation_path) && self.public_key.eqv(&other.public_key)
            && self.factor_source_id.eqv(&other.factor_source_id)
    }

    /// The instance's factor source is the one embedded in its derivation
    /// path, and the path itself is consistent.
    pub open spec fn wf(&self) -> bool {
        self.derivation_path.wf() && self.factor_source_id.eqv(
            &self.derivation_path.abstract_factor,
        )
    }

    /// Bind a freshly derived public key to the path that produced it.
    pub fn new(derivation_path: DerivationPath, public_key: PublicKey) -> (r: Self)
        requires
            derivation_path.wf(),
        ensures
            r.derivation_path == derivation_path,
            r.public_key == public_key,
            r.factor_source_id.eqv(&derivation_path.abstract_factor),
            r.wf(),
    {
        let factor_source_id = derivation_path.factor_source_id();
        FactorInstance { derivation_path, public_key, factor_source_id }
    }

    pub fn public_key(&self) -> (r: PublicKey)
        ensures
            r.eqv(&self.public_key),
    {
        self.public_key.clone()
    }

    pub fn derivation_path(&self) -> (r: DerivationPath)
        ensures
            r.eqv(&self.derivation_path),
            r.wf() == self.derivation_path.wf(),
    {
        self.derivation_path.clone()
    }

    /// The abstract request this instance answers.
    pub open spec fn spec_derivation_in_key_space(&self) -> DerivationRequestInKeySpace {
        self.derivation_path.spec_erased()
    }

    pub fn derivation_in_key_space(&self) -> (r: DerivationRequestInKeySpace)
        requires
            self.wf(),
        ensures
            r.eqv(&self.spec_derivation_in_key_space()),
            r.abstract_last_component == self.derivation_path.key_space,
            r.wf(),
    {
        self.derivation_path.erase_to_in_key_space()
    }

    pub open spec fn spec_key_space(&self) -> KeySpace {
        self.derivation_path.key_space
    }

    pub fn key_space(&self) -> (r: KeySpace)
        ensures
            r == self.spec_key_space(),
    {
        self.derivation_path.key_space
    }

    pub fn factor_source_id(&self) -> (r: FactorSourceIDFromHash)
        ensures
            r.eqv(&self.factor_source_id),
    {
        self.factor_source_id.clone()
    }
}

impl Clone for FactorInstance {
    fn clone(&self) -> (r: Self)
        ensures
            r.eqv(self),
            r.wf() == self.wf(),
    {
        FactorInstance {
            derivation_path: self.derivation_path.clone(),
            public_key: self.public_key.clone(),
            factor_source_id: self.factor_source_id.clone(),
        }
    }
}

impl PartialEq for FactorInstance {
    fn eq(&self, other: &Self) -> bool {
        self.derivation_path == other.derivation_path && self.public_key == other.public_key
            && self.factor_source_id == other.factor_source_id
    }
}

impl vstd::std_specs::cmp::PartialEqSpecImpl for FactorInstance {
    open spec fn obeys_eq_spec() -> bool {
        true
    }

    open spec fn eq_spec(&self, other: &Self) -> bool {
        self.eqv(other)
    }
}

impl PublicKeyHash {
    /// The hash that identifies accounts backed by this instance's key.
    pub fn new(factor_instance: &FactorInstance) -> (r: Self)
        ensures
            r.bytes@ == public_key_hash_bytes(factor_instance.public_key.bytes@),
            r.wf(),
    {
        Self::hashing(&factor_instance.public_key)
    }
}

impl AccountAddress {
    /// The address an instance's public key yields on the given network.
    pub fn new(factor_instance: &FactorInstance, network_id: NetworkID) -> (r: Self)
        ensures
            addr_matches_key(r, factor_instance.public_key.bytes@, network_id),
            r.wf(),
    {
        AccountAddress { network_id, public_key_hash: PublicKeyHash::new(factor_instance) }
    }

    pub open spec fn wf(&self) -> bool {
        self.public_key_hash.wf()
    }
}

/// An account: either a single-factor account backed by one veci, or a
/// securified account controlled by a matrix of factor instances.
#[derive(Debug)]
pub enum Account {
    Unsecurified(UnsecurifiedAccount),
    Securified(SecurifiedAccount),
}

impl Account {
    /// The externally visible identity of the account.
    pub open spec fn spec_address(&self) -> AccountAddress {
        match self {
            Account::Unsecurified(a) => a.address,
            Account::Securified(a) => a.address,
        }
    }

    pub open spec fn eqv(&self, other: &Self) -> bool {
        match self {
            Account::Unsecurified(a) => match other {
                Account::Unsecurified(b) => a.eqv(b),
                Account::Securified(_) => false,
            },
            Account::Securified(a) => match other {
                Account::Unsecurified(_) => false,
                Account::Securified(b) => a.eqv(b),
            },
        }
    }

    pub open spec fn wf(&self) -> bool {
        match self {
            Account::Unsecurified(a) => a.wf(),
            Account::Securified(a) => a.wf(),
        }
    }

    /// The account a key-space-checked instance creates on a network.
    pub fn new_unsecurified(instance: FactorInstanceInUnsecurifiedSpace, network_id: NetworkID) -> (r:
        Self)
        requires
            instance.wf(),
        ensures
            r is Unsecurified,
            r->Unsecurified_0.veci.eqv(&instance.factor_instance),
            addr_matches_key(r.spec_address(), instance.factor_instance.public_key.bytes@, network_id),
            r.spec_address().network_id == network_id,
            r.wf(),
    {
        Account::Unsecurified(UnsecurifiedAccount::new(instance, network_id))
    }

    /// Renaming is not recorded; the account is unchanged.
    pub fn set_name(&mut self, name: &str)
        ensures
            *final(self) == *old(self),
    {
        let _ = name;
    }

    pub fn address(&self) -> (r: AccountAddress)
        ensures
            r.eqv(&self.spec_address()),
    {
        match self {
            Self::Unsecurified(a) => a.address.clone(),
            Self::Securified(a) => a.address.clone(),
        }
    }

    /// The unsecurified view of the account, where it has one.
    pub fn as_unsecurified(&self) -> (r: Option<&UnsecurifiedAccount>)
        ensures
            self is Unsecurified ==> r is Some && *r->Some_0 == self->Unsecurified_0,
            self is Securified ==> r is None,
    {
        match self {
            Self::Unsecurified(a) => Some(a),
            Self::Securified(_) => None,
        }
    }

    /// The securified view of the account, where it has one.
    pub fn as_securified(&self) -> (r: Option<&SecurifiedAccount>)
        ensures
            self is Securified ==> r is Some && *r->Some_0 == self->Securified_0,
            self is Unsecurified ==> r is None,
    {
        match self {
            Self::Unsecurified(_) => None,
            Self::Securified(a) => Some(a),
        }
    }
}

impl From<UnsecurifiedAccount> for Account {
    fn from(value: UnsecurifiedAccount) -> Self {
        Account::Unsecurified(value)
    }
}

impl vstd::std_specs::convert::FromSpecImpl<UnsecurifiedAccount> for Account {
    open spec fn obeys_from_spec() -> bool {
        true
    }

    open spec fn from_spec(v: UnsecurifiedAccount) -> Self {
        Account::Unsecurified(v)
    }
}

impl Clone for Account {
    fn clone(&self) -> (r: Self)
        ensures
            r.eqv(self),
            self.wf() ==> r.wf(),
            r.spec_address().eqv(&self.spec_address()),
            (r is Unsecurified) == (self is Unsecurified),
    {
        match self {
            Self::Unsecurified(a) => Self::Unsecurified(a.clone()),
            Self::Securified(a) => Self::Securified(a.clone()),
        }
    }
}

/// Membership of an address among accounts.
pub open spec fn accounts_has_address(s: Seq<Account>, addr: AccountAddress) -> bool {
    exists|i: int| 0 <= i < s.len() && (#[trigger] s[i]).spec_address().eqv(&addr)
}

/// No two accounts share an address.
pub open spec fn accounts_distinct(s: Seq<Account>) -> bool {
    forall|i: int, j: int|
        #![trigger s[i], s[j]]
        0 <= i < j < s.len() ==> !s[i].spec_address().eqv(&s[j].spec_address())
}

/// Every account is internally consistent.
pub open spec fn accounts_wf_each(s: Seq<Account>) -> bool {
    forall|i: int| 0 <= i < s.len() ==> (#[trigger] s[i]).wf()
}

/// The caller-owned wallet state: its factor sources and its accounts,
/// unique by address.
#[derive(Debug)]
pub struct Profile {
    pub factor_sources: FactorSources,
    pub accounts: Vec<Account>,
}

impl Profile {
    pub open spec fn wf(&self) -> bool {
        self.factor_sources.wf() && accounts_distinct(self.accounts@) && accounts_wf_each(
            self.accounts@,
        )
    }

    pub open spec fn spec_has_address(&self, addr: AccountAddress) -> bool {
        accounts_has_address(self.accounts@, addr)
    }

    /// Collect a profile, dropping accounts whose address was already
    /// seen and keeping first-seen order.
    pub fn new(factor_sources: FactorSources, accounts: Vec<Account>) -> (r: Self)
        ensures
            r.factor_sources == factor_sources,
            accounts_distinct(r.accounts@),
            forall|a: AccountAddress|
                accounts_has_address(r.accounts@, a) == accounts_has_address(accounts@, a),
            forall|j: int|
                0 <= j < r.accounts@.len() ==> exists|k: int|
                    0 <= k < accounts@.len() && (#[trigger] r.accounts@[j]).eqv(&accounts@[k]),
            accounts_wf_each(accounts@) && factor_sources.wf() ==> r.wf(),
            r.accounts@.len() <= accounts@.len(),
    {
        let n = accounts.len();
        let mut kept: Vec<Account> = Vec::new();
        for i in 0..n
            invariant
                n == accounts@.len(),
                kept@.len() <= i,
                accounts_distinct(kept@),
                forall|a: AccountAddress|
                    accounts_has_address(kept@, a) == accounts_has_address(
                        accounts@.take(i as int),
                        a,
                    ),
                forall|j: int|
                    0 <= j < kept@.len() ==> exists|k: int|
                        0 <= k < accounts@.len() && (#[trigger] kept@[j]).eqv(&accounts@[k]),
                accounts_wf_each(accounts@) ==> accounts_wf_each(kept@),
        {
            let x = accounts[i].clone();
            let ghost prev = kept@;
            let addr = x.address();
            let mut seen = false;
            let m = kept.len();
            for j in 0..m
                invariant
                    m == kept@.len(),
                    seen ==> accounts_has_address(kept@, addr),
                    !seen ==> forall|l: int|
                        0 <= l < j ==> !(#[trigger] kept@[l]).spec_address().eqv(&addr),
            {
                if kept[j].address() == addr {
                    seen = true;
                }
            }
            if !seen {
                kept.push(x);
            }
            proof {
                if !accounts_has_address(prev, addr) {
                    assert(kept@ == prev.push(kept@[prev.len() as int]));
                    assert(kept@[prev.len() as int].spec_address().eqv(&addr));
                    assert(kept@[prev.len() as int].eqv(&accounts@[i as int]));
                }
                lemma_accounts_step(accounts@, i as int, prev, kept@, addr);
            }
        }
        proof {
            assert(accounts@.take(n as int) =~= accounts@);
        }
        Profile { factor_sources, accounts: kept }
    }

    /// The network this profile operates on.
    pub fn current_network(&self) -> (r: NetworkID)
        ensures
            r == NetworkID::Mainnet,
    {
        NetworkID::Mainnet
    }

    /// Look an account up by address; an unknown address is refused.
    pub fn get_account(&self, address: &AccountAddress) -> (r: Result<Account, CommonError>)
        ensures
            self.spec_has_address(*address) ==> {
                &&& r is Ok
                &&& r->Ok_0.spec_address().eqv(address)
                &&& exists|i: int|
                    0 <= i < self.accounts@.len() && (#[trigger] self.accounts@[i]).eqv(&r->Ok_0)
            },
            !self.spec_has_address(*address) ==> r is Err && r->Err_0 == CommonError::AccountNotFound,
    {
        let n = self.accounts.len();
        for i in 0..n
            invariant
                n == self.accounts@.len(),
                forall|j: int| 0 <= j < i ==> !(#[trigger] self.accounts@[j]).spec_address().eqv(
                    address,
                ),
        {
            if self.accounts[i].address() == *address {
                let found = self.accounts[i].clone();
                proof {
                    assert(self.accounts@[i as int].eqv(&found));
                }
                return Ok(found);
            }
        }
        Err(CommonError::AccountNotFound)
    }

    /// Add accounts; a batch that would duplicate any address, against the
    /// profile or within itself, is refused whole.
    pub fn insert_accounts(&mut self, accounts: Vec<Account>) -> (r: Result<(), CommonError>)
        ensures
            ({
                &&& accounts_distinct(accounts@)
                &&& forall|i: int|
                    0 <= i < accounts@.len() ==> !old(self).spec_has_address(
                        (#[trigger] accounts@[i]).spec_address(),
                    )
            }) ==> {
                &&& r is Ok
                &&& final(self).accounts@.len() == old(self).accounts@.len() + accounts@.len()
                &&& forall|i: int|
                    0 <= i < old(self).accounts@.len() ==> final(self).accounts@[i] == old(
                        self,
                    ).accounts@[i]
                &&& forall|i: int|
                    old(self).accounts@.len() <= i < final(self).accounts@.len() ==> (
                    #[trigger] final(self).accounts@[i]).eqv(
                        &accounts@[i - old(self).accounts@.len()],
                    )
            },
            !({
                &&& accounts_distinct(accounts@)
                &&& forall|i: int|
                    0 <= i < accounts@.len() ==> !old(self).spec_has_address(
                        (#[trigger] accounts@[i]).spec_address(),
                    )
            }) ==> {
                &&& r is Err
                &&& r->Err_0 == CommonError::DuplicateAccount
                &&& final(self).accounts@ == old(self).accounts@
            },
            final(self).factor_sources == old(self).factor_sources,
            old(self).wf() && accounts_wf_each(accounts@) ==> final(self).wf(),
    {
        let n = accounts.len();
        // Validate the whole batch first: the profile is left untouched
        // unless every address is new.
        for i in 0..n
            invariant
                n == accounts@.len(),
                *self == *old(self),
                forall|j: int|
                    0 <= j < i ==> !self.spec_has_address(
                        (#[trigger] accounts@[j]).spec_address(),
                    ),
                forall|j: int, k: int|
                    #![trigger accounts@[j], accounts@[k]]
                    0 <= j < k < i ==> !accounts@[j].spec_address().eqv(
                        &accounts@[k].spec_address(),
                    ),
        {
            let addr = accounts[i].address();
            let m = self.accounts.len();
            for j in 0..m
                invariant
                    m == self.accounts@.len(),
                    *self == *old(self),
                    n == accounts@.len(),
                    i < n,
                    addr.eqv(&accounts@[i as int].spec_address()),
                    forall|l: int|
                        0 <= l < j ==> !(#[trigger] self.accounts@[l]).spec_address().eqv(&addr),
            {
                if self.accounts[j].address() == addr {
                    proof {
                        assert(self.accounts@[j as int].spec_address().eqv(
                            &accounts@[i as int].spec_address(),
                        ));
                        assert(old(self).spec_has_address(accounts@[i as int].spec_address()));
                    }
                    return Err(CommonError::DuplicateAccount);
                }
            }
            for j in 0..i
                invariant
                    n == accounts@.len(),
                    *self == *old(self),
                    i < n,
                    addr.eqv(&accounts@[i as int].spec_address()),
                    forall|l: int|
                        0 <= l < j ==> !(#[trigger] accounts@[l]).spec_address().eqv(&addr),
            {
                if accounts[j].address() == addr {
                    proof {
                        assert(accounts@[j as int].spec_address().eqv(
                            &accounts@[i as int].spec_address(),
                        ));
                        assert(!accounts_distinct(accounts@));
                    }
                    return Err(CommonError::DuplicateAccount);
                }
            }
        }
        for i in 0..n
            invariant
                n == accounts@.len(),
                self.accounts@.len() == old(self).accounts@.len() + i,
                forall|j: int|
                    0 <= j < old(self).accounts@.len() ==> self.accounts@[j] == old(
                        self,
                    ).accounts@[j],
                forall|j: int|
                    old(self).accounts@.len() <= j < self.accounts@.len() ==> (
                    #[trigger] self.accounts@[j]).eqv(&accounts@[j - old(self).accounts@.len()]),
                self.factor_sources == old(self).factor_sources,
                accounts_wf_each(old(self).accounts@) && accounts_wf_each(accounts@)
                    ==> accounts_wf_each(self.accounts@),
        {
            self.accounts.push(accounts[i].clone());
        }
        proof {
            if old(self).wf() && accounts_wf_each(accounts@) {
                let base = old(self).accounts@.len() as int;
                assert forall|p: int, q: int|
                    #![trigger self.accounts@[p], self.accounts@[q]]
                    0 <= p < q < self.accounts@.len() implies !self.accounts@[p].spec_address().eqv(
                    &self.accounts@[q].spec_address(),
                ) by {
                    if q < base {
                    } else if p < base {
                        assert(self.accounts@[q].eqv(&accounts@[q - base]));
                        assert(!old(self).spec_has_address(accounts@[q - base].spec_address()));
                        assert(!old(self).accounts@[p].spec_address().eqv(
                            &accounts@[q - base].spec_address(),
                        ));
                    } else {
                        assert(self.accounts@[p].eqv(&accounts@[p - base]));
                        assert(self.accounts@[q].eqv(&accounts@[q - base]));
                        assert(!accounts@[p - base].spec_address().eqv(
                            &accounts@[q - base].spec_address(),
                        ));
                    }
                }
            }
        }
        Ok(())
    }

    /// Add a factor source; one already present is refused.
    pub fn add_factor_source(&mut self, factor_source: FactorSource) -> (r: Result<(), CommonError>)
        ensures
            sources_has(old(self).factor_sources.0@, factor_source) ==> {
                &&& r is Err
                &&& r->Err_0 == CommonError::DuplicateFactorSource
                &&& final(self).factor_sources.0@ == old(self).factor_sources.0@
            },
            !sources_has(old(self).factor_sources.0@, factor_source) ==> {
                &&& r is Ok
                &&& final(self).factor_sources.0@ == old(self).factor_sources.0@.push(
                    factor_source,
                )
            },
            final(self).accounts@ == old(self).accounts@,
            old(self).wf() ==> final(self).wf(),
    {
        self.factor_sources.insert(factor_source)
    }
}

impl Clone for MatrixOfFactorSources {
    fn clone(&self) -> (r: Self)
        ensures
            r.eqv(self),
            r.wf() == self.wf(),
    {
        let mut threshold_factors: Vec<FactorSource> = Vec::new();
        let n = self.threshold_factors.len();
        for i in 0..n
            invariant
                n == self.threshold_factors@.len(),
                threshold_factors@.len() == i,
                forall|j: int|
                    0 <= j < i ==> (#[trigger] threshold_factors@[j]).eqv(
                        &self.threshold_factors@[j],
                    ),
        {
            threshold_factors.push(self.threshold_factors[i].clone());
        }
        let mut override_factors: Vec<FactorSource> = Vec::new();
        let m = self.override_factors.len();
        for i in 0..m
            invariant
                m == self.override_factors@.len(),
                override_factors@.len() == i,
                forall|j: int|
                    0 <= j < i ==> (#[trigger] override_factors@[j]).eqv(
                        &self.override_factors@[j],
                    ),
        {
            override_factors.push(self.override_factors[i].clone());
        }
        MatrixOfFactorSources { threshold_factors, threshold: self.threshold, override_factors }
    }
}

impl Clone for Profile {
    fn clone(&self) -> (r: Self)
        ensures
            r.factor_sources.0@.len() == self.factor_sources.0@.len(),
            r.accounts@.len() == self.accounts@.len(),
            forall|i: int| 0 <= i < r.accounts@.len() ==> (#[trigger] r.accounts@[i]).eqv(
                &self.accounts@[i],
            ),
            forall|a: AccountAddress|
                #![trigger r.spec_has_address(a)]
                r.spec_has_address(a) == self.spec_has_address(a),
            self.wf() ==> r.wf(),
    {
        let factor_sources = self.factor_sources.clone();
        let mut accounts: Vec<Account> = Vec::new();
        let n = self.accounts.len();
        for i in 0..n
            invariant
                n == self.accounts@.len(),
                accounts@.len() == i,
                forall|j: int| 0 <= j < i ==> (#[trigger] accounts@[j]).eqv(&self.accounts@[j])
                    && accounts@[j].spec_address().eqv(&self.accounts@[j].spec_address()) && (
                self.accounts@[j].wf() ==> accounts@[j].wf()),
        {
            accounts.push(self.accounts[i].clone());
        }
        let r = Profile { factor_sources, accounts };
        proof {
            assert forall|a: AccountAddress| r.spec_has_address(a) == self.spec_has_address(a) by {
                if r.spec_has_address(a) {
                    let k = choose|k: int|
                        0 <= k < r.accounts@.len() && (#[trigger] r.accounts@[k]).spec_address().eqv(
                            &a,
                        );
                    assert(self.accounts@[k].spec_address().eqv(&a));
                }
                if self.spec_has_address(a) {
                    let k = choose|k: int|
                        0 <= k < self.accounts@.len() && (
                        #[trigger] self.accounts@[k]).spec_address().eqv(&a);
                    assert(r.accounts@[k].spec_address().eqv(&a));
                }
            }
        }
        r
    }
}

/// Walking an account list and appending each account whose address is
/// unseen keeps address membership in step with the prefix walked so far.
proof fn lemma_accounts_step(
    s: Seq<Account>,
    i: int,
    prev: Seq<Account>,
    cur: Seq<Account>,
    addr: AccountAddress,
)
    requires
        0 <= i < s.len(),
        addr.eqv(&s[i].spec_address()),
        forall|a: AccountAddress|
            accounts_has_address(prev, a) == accounts_has_address(s.take(i), a),
        accounts_has_address(prev, addr) ==> cur == prev,
        !accounts_has_address(prev, addr) ==> exists|x: Account|
            cur == prev.push(x) && (#[trigger] x.spec_address()).eqv(&addr),
    ensures
        forall|a: AccountAddress|
            accounts_has_address(cur, a) == accounts_has_address(s.take(i + 1), a),
{
    assert forall|a: AccountAddress| accounts_has_address(cur, a) implies accounts_has_address(
        s.take(i + 1),
        a,
    ) by {
        let k = choose|k: int| 0 <= k < cur.len() && (#[trigger] cur[k]).spec_address().eqv(&a);
        if k < prev.len() {
            assert(prev[k].spec_address().eqv(&a));
            assert(accounts_has_address(prev, a));
            assert(accounts_has_address(s.take(i), a));
            let l = choose|l: int|
                0 <= l < s.take(i).len() && (#[trigger] s.take(i)[l]).spec_address().eqv(&a);
            assert(s.take(i + 1)[l].spec_address().eqv(&a));
        } else {
            assert(cur[k].spec_address().eqv(&addr));
            assert(s.take(i + 1)[i].spec_address().eqv(&a));
        }
    }
    assert forall|a: AccountAddress| accounts_has_address(s.take(i + 1), a) implies
        accounts_has_address(cur, a) by {
        let k = choose|k: int|
            0 <= k < s.take(i + 1).len() && (#[trigger] s.take(i + 1)[k]).spec_address().eqv(&a);
        if k < i {
            assert(s.take(i)[k].spec_address().eqv(&a));
            assert(accounts_has_address(s.take(i), a));
            assert(accounts_has_address(prev, a));
            let l = choose|l: int|
                0 <= l < prev.len() && (#[trigger] prev[l]).spec_address().eqv(&a);
            assert(cur[l].spec_address().eqv(&a));
        } else {
            assert(s[i].spec_address().eqv(&a));
            if accounts_has_address(prev, addr) {
                let l = choose|l: int|
                    0 <= l < prev.len() && (#[trigger] prev[l]).spec_address().eqv(&addr);
                assert(cur[l].spec_address().eqv(&a));
            } else {
                let x = choose|x: Account|
                    cur == prev.push(x) && (#[trigger] x.spec_address()).eqv(&addr);
                assert(cur[prev.len() as int].spec_address().eqv(&a));
            }
        }
    }
}

/// A security matrix over factors of type `T`: signing needs `threshold`
/// of the threshold factors, or any single override factor.
#[derive(Debug)]
pub struct MatrixOfAbstractFactor<T> {
    pub threshold_factors: Vec<T>,
    pub threshold: usize,
    pub override_factors: Vec<T>,
}

pub type MatrixOfFactorSources = MatrixOfAbstractFactor<FactorSource>;

pub type MatrixOfFactorInstances = MatrixOfAbstractFactor<FactorInstanceInSecurifiedSpace>;

impl MatrixOfFactorSources {
    /// Whether `self` and `other` are the same policy.
    pub open spec fn eqv(&self, other: &Self) -> bool {
        &&& self.threshold == other.threshold
        &&& self.threshold_factors@.len() == other.threshold_factors@.len()
        &&& forall|i: int|
            0 <= i < self.threshold_factors@.len() ==> (#[trigger] self.threshold_factors@[i]).eqv(
                &other.threshold_factors@[i],
            )
        &&& self.override_factors@.len() == other.override_factors@.len()
        &&& forall|i: int|
            0 <= i < self.override_factors@.len() ==> (#[trigger] self.override_factors@[i]).eqv(
                &other.override_factors@[i],
            )
    }

    /// The two factor groups are disjoint and each is duplicate-free.
    pub open spec fn spec_factors_distinct(&self) -> bool {
        sources_distinct(self.threshold_factors@ + self.override_factors@)
    }

    /// All factor sources of the policy, threshold factors first, without
    /// duplicates.
    pub fn all_factor_sources(&self) -> (r: FactorSources)
        ensures
            r.wf(),
            forall|x: FactorSource|
                sources_has(r.0@, x) == sources_has(
                    self.threshold_factors@ + self.override_factors@,
                    x,
                ),
    {
        let mut all: Vec<FactorSource> = Vec::new();
        let n = self.threshold_factors.len();
        for i in 0..n
            invariant
                n == self.threshold_factors@.len(),
                all@.len() == i,
                forall|j: int| 0 <= j < i ==> (#[trigger] all@[j]).eqv(&self.threshold_factors@[j]),
        {
            all.push(self.threshold_factors[i].clone());
        }
        let m = self.override_factors.len();
        for i in 0..m
            invariant
                n == self.threshold_factors@.len(),
                m == self.override_factors@.len(),
                all@.len() == n + i,
                forall|j: int| 0 <= j < n ==> (#[trigger] all@[j]).eqv(&self.threshold_factors@[j]),
                forall|j: int|
                    n <= j < n + i ==> (#[trigger] all@[j]).eqv(&self.override_factors@[j - n]),
        {
            all.push(self.override_factors[i].clone());
        }
        let ghost all_view = all@;
        let r = FactorSources::from_iter(all);
        proof {
            let both = self.threshold_factors@ + self.override_factors@;
            assert(all_view.len() == both.len());
            assert forall|j: int| 0 <= j < both.len() implies (#[trigger] all_view[j]).eqv(
                &both[j],
            ) by {
                if j < self.threshold_factors@.len() {
                    assert(both[j] == self.threshold_factors@[j]);
                } else {
                    assert(both[j] == self.override_factors@[j - self.threshold_factors@.len()]);
                }
            }
            assert forall|x: FactorSource| sources_has(all_view, x) == sources_has(both, x) by {
                if sources_has(all_view, x) {
                    let k = choose|k: int|
                        0 <= k < all_view.len() && (#[trigger] all_view[k]).eqv(&x);
                    assert(both[k].eqv(&x));
                }
                if sources_has(both, x) {
                    let k = choose|k: int| 0 <= k < both.len() && (#[trigger] both[k]).eqv(&x);
                    assert(all_view[k].eqv(&x));
                }
            }
        }
        r
    }
}

impl<T> MatrixOfAbstractFactor<T> {
    /// The threshold never exceeds the number of threshold factors.
    pub open spec fn wf(&self) -> bool {
        self.threshold <= self.threshold_factors@.len()
    }
}

impl MatrixOfFactorSources {
    /// Whether the two factor groups, flattened, hold no source twice.
    pub fn factors_distinct(&self) -> (r: bool)
        ensures
            r == self.spec_factors_distinct(),
    {
        let mut all: Vec<FactorSource> = Vec::new();
        let n = self.threshold_factors.len();
        for i in 0..n
            invariant
                n == self.threshold_factors@.len(),
                all@.len() == i,
                forall|j: int| 0 <= j < i ==> (#[trigger] all@[j]).eqv(&self.threshold_factors@[j]),
        {
            all.push(self.threshold_factors[i].clone());
        }
        let m = self.override_factors.len();
        for i in 0..m
            invariant
                n == self.threshold_factors@.len(),
                m == self.override_factors@.len(),
                all@.len() == n + i,
                forall|j: int| 0 <= j < n ==> (#[trigger] all@[j]).eqv(&self.threshold_factors@[j]),
                forall|j: int|
                    n <= j < n + i ==> (#[trigger] all@[j]).eqv(&self.override_factors@[j - n]),
        {
            all.push(self.override_factors[i].clone());
        }
        proof {
            assert(all@.len() == (self.threshold_factors@ + self.override_factors@).len());
            assert forall|j: int| 0 <= j < (self.threshold_factors@ + self.override_factors@).len() implies (#[trigger] all@[j]).eqv(&(self.threshold_factors@ + self.override_factors@)[j]) by {
                if j < self.threshold_factors@.len() {
                    assert((self.threshold_factors@ + self.override_factors@)[j] == self.threshold_factors@[j]);
                } else {
                    assert((self.threshold_factors@ + self.override_factors@)[j] == self.override_factors@[j - self.threshold_factors@.len()]);
                }
            }
        }
        let total = all.len();
        for i in 0..total
            invariant
                total == all@.len(),
                all@.len() == (self.threshold_factors@ + self.override_factors@).len(),
                forall|j: int| 0 <= j < (self.threshold_factors@ + self.override_factors@).len() ==> (#[trigger] all@[j]).eqv(&(self.threshold_factors@ + self.override_factors@)[j]),
                forall|p: int, q: int|
                    #![trigger all@[p], all@[q]]
                    0 <= p < q < all@.len() && p < i ==> !all@[p].eqv(&all@[q]),
        {
            let mut j = i + 1;
            while j < total
                invariant
                    total == all@.len(),
                    all@.len() == (self.threshold_factors@ + self.override_factors@).len(),
                    i < j,
                    i < total,
                    forall|j2: int| 0 <= j2 < (self.threshold_factors@ + self.override_factors@).len() ==> (#[trigger] all@[j2]).eqv(&(self.threshold_factors@ + self.override_factors@)[j2]),
                    forall|q: int| i < q < j ==> !all@[i as int].eqv(&(#[trigger] all@[q])),
                decreases total - j,
            {
                if all[i] == all[j] {
                    proof {
                        assert((self.threshold_factors@ + self.override_factors@)[i as int].eqv(&(self.threshold_factors@ + self.override_factors@)[j as int]));
                        assert(!sources_distinct((self.threshold_factors@ + self.override_factors@)));
                    }
                    return false;
                }
                j = j + 1;
            }
        }
        proof {
            assert forall|p: int, q: int|
                #![trigger (self.threshold_factors@ + self.override_factors@)[p], (self.threshold_factors@ + self.override_factors@)[q]]
                0 <= p < q < (self.threshold_factors@ + self.override_factors@).len() implies !(self.threshold_factors@ + self.override_factors@)[p].eqv(&(self.threshold_factors@ + self.override_factors@)[q]) by {
                assert(!all@[p].eqv(&all@[q]));
            }
        }
        true
    }

    /// Build a factor-source matrix; a threshold above the threshold
    /// factor count, or a source occurring twice across the two groups, is
    /// refused.
    pub fn new(
        threshold_factors: Vec<FactorSource>,
        threshold: usize,
        override_factors: Vec<FactorSource>,
    ) -> (r: Result<Self, CommonError>)
        ensures
            threshold > threshold_factors@.len() ==> r is Err && r->Err_0
                == CommonError::ThresholdExceedsFactorCount,
            threshold <= threshold_factors@.len() && !sources_distinct(
                threshold_factors@ + override_factors@,
            ) ==> r is Err && r->Err_0 == CommonError::DuplicateFactorSource,
            threshold <= threshold_factors@.len() && sources_distinct(
                threshold_factors@ + override_factors@,
            ) ==> {
                &&& r is Ok
                &&& r->Ok_0.threshold_factors == threshold_factors
                &&& r->Ok_0.threshold == threshold
                &&& r->Ok_0.override_factors == override_factors
                &&& r->Ok_0.wf()
                &&& r->Ok_0.spec_factors_distinct()
            },
    {
        if threshold > threshold_factors.len() {
            return Err(CommonError::ThresholdExceedsFactorCount);
        }
        let candidate = Self { threshold_factors, threshold, override_factors };
        if candidate.factors_distinct() {
            Ok(candidate)
        } else {
            Err(CommonError::DuplicateFactorSource)
        }
    }
}

} // verus!

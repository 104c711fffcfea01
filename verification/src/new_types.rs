//! Key spaces, derivation indices and the derivation-request model.
//!
//! A raw index belongs to exactly one key space, decided by a fixed
//! protocol boundary. Requests describe "what kind of key, for which factor
//! source, network, entity kind and key kind" at two levels of specificity:
//! a concrete index (a full derivation path) or an abstract key space (a
//! cache key, before an index is chosen).

use vstd::prelude::*;

use crate::cache::{seq_has_req, Cache};
use crate::errors::CommonError;
use crate::sargon_types::{
    accounts_has_address, addr_matches_key, Account, AccountAddress, CAP26EntityKind,
    CAP26KeyKind, FactorInstance, FactorSource, FactorSourceIDFromHash, MatrixOfFactorInstances,
    NetworkID, Profile,
};

verus! {

/// The partition of derivation indices: single-factor (unsecurified) keys
/// versus multi-factor threshold (securified) keys.
#[derive(Clone, Copy, Debug, PartialEq, Eq, Hash, Structural)]
pub enum KeySpace {
    Unsecurified,
    Securified,
}

/// The BIP32 hardening offset.
pub const BIP32_HARDENED: u32 = 0x8000_0000;

/// Half of the hardened space, granted to the securified key space.
pub const BIP32_SECURIFIED_HALF: u32 = 0x4000_0000;

/// The last raw index that classifies as unsecurified.
pub const KEY_SPACE_BOUNDARY: u32 = 0xC000_0000;

pub type HDPathValue = u32;

/// A raw derivation index, self-describing its key space.
#[derive(Clone, Copy, Debug, PartialEq, Eq, Hash, PartialOrd, Structural)]
pub enum CAP26Index {
    Unsecurified(HDPathValue),
    Securified(HDPathValue),
}

/// The key space a raw index belongs to: indices up to the fixed boundary
/// are unsecurified, indices above it are securified.
pub open spec fn spec_classify(base_index: u32) -> KeySpace {
    if base_index <= KEY_SPACE_BOUNDARY {
        KeySpace::Unsecurified
    } else {
        KeySpace::Securified
    }
}

impl CAP26Index {
    /// Classify a raw index into its key space.
    pub fn new(base_index: HDPathValue) -> (r: Self)
        ensures
            r == (if spec_classify(base_index) == KeySpace::Unsecurified {
                CAP26Index::Unsecurified(base_index)
            } else {
                CAP26Index::Securified(base_index)
            }),
            r.spec_key_space() == spec_classify(base_index),
            r.spec_base_index() == base_index,
    {
        if base_index <= BIP32_HARDENED + BIP32_SECURIFIED_HALF {
            Self::Unsecurified(base_index)
        } else {
            Self::Securified(base_index)
        }
    }

    pub open spec fn spec_base_index(&self) -> HDPathValue {
        match self {
            CAP26Index::Unsecurified(v) => *v,
            CAP26Index::Securified(v) => *v,
        }
    }

    pub open spec fn spec_key_space(&self) -> KeySpace {
        match self {
            CAP26Index::Unsecurified(_) => KeySpace::Unsecurified,
            CAP26Index::Securified(_) => KeySpace::Securified,
        }
    }

    /// Whether the variant agrees with the classification of the raw index.
    pub open spec fn wf(&self) -> bool {
        self.spec_key_space() == spec_classify(self.spec_base_index())
    }

    pub fn base_index(&self) -> (r: HDPathValue)
        ensures
            r == self.spec_base_index(),
    {
        match self {
            CAP26Index::Unsecurified(v) => *v,
            CAP26Index::Securified(v) => *v,
        }
    }

    pub fn key_space(&self) -> (r: KeySpace)
        ensures
            r == self.spec_key_space(),
    {
        match self {
            CAP26Index::Unsecurified(_) => KeySpace::Unsecurified,
            CAP26Index::Securified(_) => KeySpace::Securified,
        }
    }
}

/// Something that either lies in a key space or does not.
pub trait KeySpaced: Sized {
    /// Internal consistency of the component itself.
    spec fn component_wf(&self) -> bool;

    spec fn spec_in_key_space(&self, key_space: KeySpace) -> bool;

    fn is_in_key_space(&self, key_space: KeySpace) -> (r: bool)
        ensures
            r == self.spec_in_key_space(key_space),
    ;
}

impl KeySpaced for CAP26Index {
    open spec fn component_wf(&self) -> bool {
        self.wf()
    }

    open spec fn spec_in_key_space(&self, key_space: KeySpace) -> bool {
        self.spec_key_space() == key_space
    }

    fn is_in_key_space(&self, key_space: KeySpace) -> (r: bool) {
        self.key_space() == key_space
    }
}

impl KeySpaced for KeySpace {
    open spec fn component_wf(&self) -> bool {
        true
    }

    open spec fn spec_in_key_space(&self, key_space: KeySpace) -> bool {
        *self == key_space
    }

    fn is_in_key_space(&self, key_space: KeySpace) -> (r: bool) {
        *self == key_space
    }
}

/// A half-open range of raw indices, `start` inclusive to `end` exclusive.
#[derive(Clone, Copy, Debug, PartialEq, Eq, Hash, Structural)]
pub struct CAP26IndexRange {
    pub start: CAP26Index,
    pub end: CAP26Index,
}

impl KeySpaced for CAP26IndexRange {
    open spec fn component_wf(&self) -> bool {
        self.start.wf() && self.end.wf()
    }

    open spec fn spec_in_key_space(&self, key_space: KeySpace) -> bool {
        forall|v: u32|
            self.start.spec_base_index() <= v < self.end.spec_base_index() ==> spec_classify(v)
                == key_space
    }

    fn is_in_key_space(&self, key_space: KeySpace) -> (r: bool) {
        let s = self.start.base_index();
        let e = self.end.base_index();
        if s >= e {
            true
        } else {
            let first_ok = match key_space {
                KeySpace::Unsecurified => s <= KEY_SPACE_BOUNDARY,
                KeySpace::Securified => s > KEY_SPACE_BOUNDARY,
            };
            let last_ok = match key_space {
                KeySpace::Unsecurified => e - 1 <= KEY_SPACE_BOUNDARY,
                KeySpace::Securified => true,
            };
            proof {
                // Classification is monotone, so the endpoints decide the
                // whole range; name them so the quantifier sees them.
                let last: u32 = (e - 1) as u32;
                assert(s <= s < e && s <= last < e);
                assert(spec_classify(s) == (if s <= KEY_SPACE_BOUNDARY {
                    KeySpace::Unsecurified
                } else {
                    KeySpace::Securified
                }));
                assert(spec_classify(last) == (if last <= KEY_SPACE_BOUNDARY {
                    KeySpace::Unsecurified
                } else {
                    KeySpace::Securified
                }));
            }
            first_ok && last_ok
        }
    }
}

/// A derivation request, generic over how specific its factor (`T`) and its
/// final path component (`U`) are. The component must lie in the request's
/// key space; construction refuses anything else.
#[derive(Debug)]
pub struct DerivationRequestAbstractFactorAbstractIndex<T, U: KeySpaced> {
    pub abstract_factor: T,
    pub network_id: NetworkID,
    pub entity_kind: CAP26EntityKind,
    pub key_kind: CAP26KeyKind,
    pub key_space: KeySpace,
    pub abstract_last_component: U,
}

impl<T, U: KeySpaced> DerivationRequestAbstractFactorAbstractIndex<T, U> {
    /// The construction-time invariant: the final component is internally
    /// consistent and lies in the request's key space.
    pub open spec fn wf(&self) -> bool {
        self.abstract_last_component.component_wf() && self.abstract_last_component
            .spec_in_key_space(self.key_space)
    }

    pub fn abstract_abstract_new(
        abstract_factor: T,
        network_id: NetworkID,
        entity_kind: CAP26EntityKind,
        key_kind: CAP26KeyKind,
        key_space: KeySpace,
        abstract_last_component: U,
    ) -> (r: Self)
        requires
            abstract_last_component.component_wf(),
            abstract_last_component.spec_in_key_space(key_space),
        ensures
            r == (Self {
                abstract_factor,
                network_id,
                entity_kind,
                key_kind,
                key_space,
                abstract_last_component,
            }),
            r.wf(),
    {
        Self { abstract_factor, network_id, entity_kind, key_kind, key_space, abstract_last_component }
    }
}

/// A derivation request whose factor is pinned to a concrete factor source.
pub type DerivationPathAbstractIndex<U> = DerivationRequestAbstractFactorAbstractIndex<
    FactorSourceIDFromHash,
    U,
>;

/// A request for a whole range of concrete indices.
pub type DerivationRequestWithRange = DerivationPathAbstractIndex<CAP26IndexRange>;

/// A request that names only a key space: the cache key, and the shape of a
/// "slot request" before an index is chosen.
pub type DerivationRequestInKeySpace = DerivationPathAbstractIndex<KeySpace>;

/// A full derivation path: a request with a concrete index.
pub type DerivationPath = DerivationPathAbstractIndex<CAP26Index>;

/// A key-space request that has not yet been bound to a factor source.
pub type DerivationRequestWithoutFactorInKeySpace = DerivationRequestAbstractFactorAbstractIndex<
    (),
    KeySpace,
>;

impl<U: KeySpaced> DerivationRequestAbstractFactorAbstractIndex<FactorSourceIDFromHash, U> {
    pub fn factor_source_id(&self) -> (r: FactorSourceIDFromHash)
        ensures
            r.eqv(&self.abstract_factor),
    {
        self.abstract_factor.clone()
    }

    pub fn new_with_factor_source_id(
        factor_source_id: FactorSourceIDFromHash,
        network_id: NetworkID,
        entity_kind: CAP26EntityKind,
        key_kind: CAP26KeyKind,
        key_space: KeySpace,
        abstract_last_component: U,
    ) -> (r: Self)
        requires
            abstract_last_component.component_wf(),
            abstract_last_component.spec_in_key_space(key_space),
        ensures
            r == (Self {
                abstract_factor: factor_source_id,
                network_id,
                entity_kind,
                key_kind,
                key_space,
                abstract_last_component,
            }),
            r.wf(),
    {
        Self::abstract_abstract_new(
            factor_source_id,
            network_id,
            entity_kind,
            key_kind,
            key_space,
            abstract_last_component,
        )
    }
}

impl DerivationRequestAbstractFactorAbstractIndex<FactorSourceIDFromHash, KeySpace> {
    /// Whether `self` and `other` are the same abstract request.
    pub open spec fn eqv(&self, other: &Self) -> bool {
        self.abstract_factor.eqv(&other.abstract_factor) && self.network_id == other.network_id
            && self.entity_kind == other.entity_kind && self.key_kind == other.key_kind
            && self.key_space == other.key_space && self.abstract_last_component
            == other.abstract_last_component
    }

    pub fn new(
        factor_source_id: FactorSourceIDFromHash,
        network_id: NetworkID,
        entity_kind: CAP26EntityKind,
        key_kind: CAP26KeyKind,
        key_space: KeySpace,
    ) -> (r: Self)
        ensures
            r == (Self {
                abstract_factor: factor_source_id,
                network_id,
                entity_kind,
                key_kind,
                key_space,
                abstract_last_component: key_space,
            }),
            r.wf(),
    {
        Self::new_with_factor_source_id(
            factor_source_id,
            network_id,
            entity_kind,
            key_kind,
            key_space,
            key_space,
        )
    }
}

impl Clone for DerivationRequestAbstractFactorAbstractIndex<FactorSourceIDFromHash, KeySpace> {
    fn clone(&self) -> (r: Self)
        ensures
            r.eqv(self),
            r.wf() == self.wf(),
    {
        Self {
            abstract_factor: self.abstract_factor.clone(),
            network_id: self.network_id,
            entity_kind: self.entity_kind,
            key_kind: self.key_kind,
            key_space: self.key_space,
            abstract_last_component: self.abstract_last_component,
        }
    }
}

impl PartialEq for DerivationRequestAbstractFactorAbstractIndex<FactorSourceIDFromHash, KeySpace> {
    fn eq(&self, other: &Self) -> bool {
        self.abstract_factor == other.abstract_factor && self.network_id == other.network_id
            && self.entity_kind == other.entity_kind && self.key_kind == other.key_kind
            && self.key_space == other.key_space && self.abstract_last_component
            == other.abstract_last_component
    }
}

impl vstd::std_specs::cmp::PartialEqSpecImpl for DerivationRequestAbstractFactorAbstractIndex<FactorSourceIDFromHash, KeySpace> {
    open spec fn obeys_eq_spec() -> bool {
        true
    }

    open spec fn eq_spec(&self, other: &Self) -> bool {
        self.eqv(other)
    }
}

impl DerivationRequestAbstractFactorAbstractIndex<FactorSourceIDFromHash, CAP26IndexRange> {
    pub fn new(
        factor_source_id: FactorSourceIDFromHash,
        network_id: NetworkID,
        entity_kind: CAP26EntityKind,
        key_kind: CAP26KeyKind,
        key_space: KeySpace,
        range: CAP26IndexRange,
    ) -> (r: Self)
        requires
            range.component_wf(),
            range.spec_in_key_space(key_space),
        ensures
            r == (Self {
                abstract_factor: factor_source_id,
                network_id,
                entity_kind,
                key_kind,
                key_space,
                abstract_last_component: range,
            }),
            r.wf(),
    {
        Self::new_with_factor_source_id(
            factor_source_id,
            network_id,
            entity_kind,
            key_kind,
            key_space,
            range,
        )
    }
}

impl DerivationRequestAbstractFactorAbstractIndex<FactorSourceIDFromHash, CAP26Index> {
    /// Whether `self` and `other` are the same path.
    pub open spec fn eqv(&self, other: &Self) -> bool {
        self.abstract_factor.eqv(&other.abstract_factor) && self.network_id == other.network_id
            && self.entity_kind == other.entity_kind && self.key_kind == other.key_kind
            && self.key_space == other.key_space && self.abstract_last_component
            == other.abstract_last_component
    }

    pub fn index(&self) -> (r: CAP26Index)
        ensures
            r == self.abstract_last_component,
    {
        self.abstract_last_component
    }

    pub fn key_space(&self) -> (r: KeySpace)
        requires
            self.wf(),
        ensures
            r == self.key_space,
            r == self.abstract_last_component.spec_key_space(),
    {
        self.key_space
    }

    /// The abstract request this path answers: the same request with the
    /// concrete index erased to its key space.
    pub open spec fn spec_erased(&self) -> DerivationRequestInKeySpace {
        DerivationRequestAbstractFactorAbstractIndex {
            abstract_factor: self.abstract_factor,
            network_id: self.network_id,
            entity_kind: self.entity_kind,
            key_kind: self.key_kind,
            key_space: self.key_space,
            abstract_last_component: self.key_space,
        }
    }

    pub fn erase_to_in_key_space(&self) -> (r: DerivationRequestInKeySpace)
        requires
            self.wf(),
        ensures
            r.eqv(&self.spec_erased()),
            r.abstract_last_component == self.key_space,
            r.wf(),
    {
        DerivationRequestInKeySpace::new(
            self.factor_source_id(),
            self.network_id,
            self.entity_kind,
            self.key_kind,
            self.key_space(),
        )
    }
}

impl Clone for DerivationRequestAbstractFactorAbstractIndex<FactorSourceIDFromHash, CAP26Index> {
    fn clone(&self) -> (r: Self)
        ensures
            r.eqv(self),
            r.wf() == self.wf(),
    {
        Self {
            abstract_factor: self.abstract_factor.clone(),
            network_id: self.network_id,
            entity_kind: self.entity_kind,
            key_kind: self.key_kind,
            key_space: self.key_space,
            abstract_last_component: self.abstract_last_component,
        }
    }
}

impl PartialEq for DerivationRequestAbstractFactorAbstractIndex<FactorSourceIDFromHash, CAP26Index> {
    fn eq(&self, other: &Self) -> bool {
        self.abstract_factor == other.abstract_factor && self.network_id == other.network_id
            && self.entity_kind == other.entity_kind && self.key_kind == other.key_kind
            && self.key_space == other.key_space && self.abstract_last_component
            == other.abstract_last_component
    }
}

impl vstd::std_specs::cmp::PartialEqSpecImpl for DerivationRequestAbstractFactorAbstractIndex<FactorSourceIDFromHash, CAP26Index> {
    open spec fn obeys_eq_spec() -> bool {
        true
    }

    open spec fn eq_spec(&self, other: &Self) -> bool {
        self.eqv(other)
    }
}

impl DerivationRequestAbstractFactorAbstractIndex<(), KeySpace> {
    /// Bind the request to a concrete factor source.
    pub fn with_factor_source(self, factor_source: &FactorSource) -> (r: DerivationRequestInKeySpace)
        ensures
            r.abstract_factor.eqv(&factor_source.factor_source_id),
            r.network_id == self.network_id,
            r.entity_kind == self.entity_kind,
            r.key_kind == self.key_kind,
            r.key_space == self.key_space,
            r.wf(),
    {
        DerivationRequestInKeySpace::new(
            factor_source.factor_source_id.clone(),
            self.network_id,
            self.entity_kind,
            self.key_kind,
            self.key_space,
        )
    }
}

impl Clone for DerivationRequestAbstractFactorAbstractIndex<(), KeySpace> {
    fn clone(&self) -> (r: Self)
        ensures
            r.network_id == self.network_id,
            r.entity_kind == self.entity_kind,
            r.key_kind == self.key_kind,
            r.key_space == self.key_space,
            r.abstract_last_component == self.abstract_last_component,
    {
        Self {
            abstract_factor: (),
            network_id: self.network_id,
            entity_kind: self.entity_kind,
            key_kind: self.key_kind,
            key_space: self.key_space,
            abstract_last_component: self.abstract_last_component,
        }
    }
}

/// The request that a factor-less key-space request yields once bound to
/// the given factor source.
pub open spec fn spec_with_factor(
    request: DerivationRequestWithoutFactorInKeySpace,
    factor_source_id: FactorSourceIDFromHash,
) -> DerivationRequestInKeySpace {
    DerivationRequestAbstractFactorAbstractIndex {
        abstract_factor: factor_source_id,
        network_id: request.network_id,
        entity_kind: request.entity_kind,
        key_kind: request.key_kind,
        key_space: request.key_space,
        abstract_last_component: request.key_space,
    }
}

/// An instance that is known to live in the unsecurified key space, so
/// that it can back a single-factor account and nothing else.
#[derive(Debug)]
pub struct FactorInstanceInUnsecurifiedSpace {
    pub factor_instance: FactorInstance,
}

impl FactorInstanceInUnsecurifiedSpace {
    pub open spec fn eqv(&self, other: &Self) -> bool {
        self.factor_instance.eqv(&other.factor_instance)
    }

    pub open spec fn wf(&self) -> bool {
        self.factor_instance.wf() && self.factor_instance.spec_key_space()
            == KeySpace::Unsecurified
    }

    /// Wrap an instance; one whose path classifies as securified is
    /// refused.
    pub fn new(factor_instance: FactorInstance) -> (r: Result<Self, CommonError>)
        requires
            factor_instance.wf(),
        ensures
            factor_instance.spec_key_space() == KeySpace::Unsecurified ==> {
                &&& r is Ok
                &&& r->Ok_0.factor_instance == factor_instance
                &&& r->Ok_0.wf()
            },
            factor_instance.spec_key_space() != KeySpace::Unsecurified ==> r is Err && r->Err_0
                == CommonError::InvalidKeySpace,
    {
        if factor_instance.key_space() == KeySpace::Unsecurified {
            Ok(Self { factor_instance })
        } else {
            Err(CommonError::InvalidKeySpace)
        }
    }

    pub fn instance(&self) -> (r: FactorInstance)
        ensures
            r.eqv(&self.factor_instance),
            r.wf() == self.factor_instance.wf(),
    {
        self.factor_instance.clone()
    }
}

impl Clone for FactorInstanceInUnsecurifiedSpace {
    fn clone(&self) -> (r: Self)
        ensures
            r.eqv(self),
            r.wf() == self.wf(),
    {
        Self { factor_instance: self.factor_instance.clone() }
    }
}

impl PartialEq for FactorInstanceInUnsecurifiedSpace {
    fn eq(&self, other: &Self) -> bool {
        self.factor_instance == other.factor_instance
    }
}

impl vstd::std_specs::cmp::PartialEqSpecImpl for FactorInstanceInUnsecurifiedSpace {
    open spec fn obeys_eq_spec() -> bool {
        true
    }

    open spec fn eq_spec(&self, other: &Self) -> bool {
        self.eqv(other)
    }
}

impl From<FactorInstanceInUnsecurifiedSpace> for FactorInstance {
    fn from(value: FactorInstanceInUnsecurifiedSpace) -> Self {
        value.factor_instance
    }
}

impl vstd::std_specs::convert::FromSpecImpl<FactorInstanceInUnsecurifiedSpace> for FactorInstance {
    open spec fn obeys_from_spec() -> bool {
        true
    }

    open spec fn from_spec(v: FactorInstanceInUnsecurifiedSpace) -> Self {
        v.factor_instance
    }
}

/// An instance that is known to live in the securified key space, so that
/// it can stand in a multi-factor security matrix and nothing else.
#[derive(Debug)]
pub struct FactorInstanceInSecurifiedSpace {
    pub factor_instance: FactorInstance,
}

impl FactorInstanceInSecurifiedSpace {
    pub open spec fn eqv(&self, other: &Self) -> bool {
        self.factor_instance.eqv(&other.factor_instance)
    }

    pub open spec fn wf(&self) -> bool {
        self.factor_instance.wf() && self.factor_instance.spec_key_space() == KeySpace::Securified
    }

    /// Wrap an instance; one whose path classifies as unsecurified is
    /// refused.
    pub fn new(factor_instance: FactorInstance) -> (r: Result<Self, CommonError>)
        requires
            factor_instance.wf(),
        ensures
            factor_instance.spec_key_space() == KeySpace::Securified ==> {
                &&& r is Ok
                &&& r->Ok_0.factor_instance == factor_instance
                &&& r->Ok_0.wf()
            },
            factor_instance.spec_key_space() != KeySpace::Securified ==> r is Err && r->Err_0
                == CommonError::InvalidKeySpace,
    {
        if factor_instance.key_space() == KeySpace::Securified {
            Ok(Self { factor_instance })
        } else {
            Err(CommonError::InvalidKeySpace)
        }
    }

    pub fn instance(&self) -> (r: FactorInstance)
        ensures
            r.eqv(&self.factor_instance),
            r.wf() == self.factor_instance.wf(),
    {
        self.factor_instance.clone()
    }
}

impl Clone for FactorInstanceInSecurifiedSpace {
    fn clone(&self) -> (r: Self)
        ensures
            r.eqv(self),
            r.wf() == self.wf(),
    {
        Self { factor_instance: self.factor_instance.clone() }
    }
}

impl PartialEq for FactorInstanceInSecurifiedSpace {
    fn eq(&self, other: &Self) -> bool {
        self.factor_instance == other.factor_instance
    }
}

impl vstd::std_specs::cmp::PartialEqSpecImpl for FactorInstanceInSecurifiedSpace {
    open spec fn obeys_eq_spec() -> bool {
        true
    }

    open spec fn eq_spec(&self, other: &Self) -> bool {
        self.eqv(other)
    }
}

impl From<FactorInstanceInSecurifiedSpace> for FactorInstance {
    fn from(value: FactorInstanceInSecurifiedSpace) -> Self {
        value.factor_instance
    }
}

impl vstd::std_specs::convert::FromSpecImpl<FactorInstanceInSecurifiedSpace> for FactorInstance {
    open spec fn obeys_from_spec() -> bool {
        true
    }

    open spec fn from_spec(v: FactorInstanceInSecurifiedSpace) -> Self {
        v.factor_instance
    }
}

/// Membership of an instance in a pool, up to value equality.
pub open spec fn pool_has(s: Seq<FactorInstance>, x: FactorInstance) -> bool {
    exists|i: int| 0 <= i < s.len() && (#[trigger] s[i]).eqv(&x)
}

/// No instance occurs twice in the pool.
pub open spec fn pool_distinct(s: Seq<FactorInstance>) -> bool {
    forall|i: int, j: int| #![trigger s[i], s[j]] 0 <= i < j < s.len() ==> !s[i].eqv(&s[j])
}

/// Every instance in the pool is internally consistent.
pub open spec fn pool_wf_each(s: Seq<FactorInstance>) -> bool {
    forall|i: int| 0 <= i < s.len() ==> (#[trigger] s[i]).wf()
}

/// An ordered, de-duplicated collection of factor instances.
#[derive(Debug)]
pub struct FactorInstances(pub Vec<FactorInstance>);

impl FactorInstances {
    pub open spec fn wf(&self) -> bool {
        pool_distinct(self.0@) && pool_wf_each(self.0@)
    }

    pub fn empty() -> (r: Self)
        ensures
            r.0@.len() == 0,
            r.wf(),
    {
        FactorInstances(Vec::new())
    }

    pub fn len(&self) -> (r: usize)
        ensures
            r == self.0@.len(),
    {
        self.0.len()
    }

    pub fn contains_instance(&self, x: &FactorInstance) -> (r: bool)
        ensures
            r == pool_has(self.0@, *x),
    {
        let n = self.0.len();
        for i in 0..n
            invariant
                n == self.0@.len(),
                forall|j: int| 0 <= j < i ==> !(#[trigger] self.0@[j]).eqv(x),
        {
            if &self.0[i] == x {
                return true;
            }
        }
        false
    }

    /// Append `x` unless an equal instance is already present.
    pub fn push_if_absent(&mut self, x: FactorInstance)
        ensures
            pool_has(old(self).0@, x) ==> final(self).0@ == old(self).0@,
            !pool_has(old(self).0@, x) ==> final(self).0@ == old(self).0@.push(x),
            pool_distinct(old(self).0@) ==> pool_distinct(final(self).0@),
            pool_wf_each(old(self).0@) && x.wf() ==> pool_wf_each(final(self).0@),
            old(self).wf() && x.wf() ==> final(self).wf(),
    {
        if !self.contains_instance(&x) {
            self.0.push(x);
        }
    }

    /// Collect instances, dropping duplicates and keeping first-seen order.
    pub fn from(instances: Vec<FactorInstance>) -> (r: Self)
        ensures
            pool_distinct(r.0@),
            forall|x: FactorInstance| pool_has(r.0@, x) == pool_has(instances@, x),
            pool_wf_each(instances@) ==> r.wf(),
            r.0@.len() <= instances@.len(),
    {
        let n = instances.len();
        let mut r = FactorInstances(Vec::new());
        for i in 0..n
            invariant
                n == instances@.len(),
                pool_distinct(r.0@),
                r.0@.len() <= i,
                forall|x: FactorInstance| pool_has(r.0@, x) == pool_has(instances@.take(i as int), x),
                pool_wf_each(instances@) ==> pool_wf_each(r.0@),
        {
            let x = instances[i].clone();
            proof {
                assert(instances@[i as int].wf() ==> x.wf());
            }
            let ghost prev = r.0@;
            r.push_if_absent(x);
            proof {
                lemma_pool_step(instances@, i as int, prev, r.0@, x);
            }
        }
        proof {
            assert(instances@.take(n as int) =~= instances@);
        }
        r
    }
}

/// Walking a pool and appending each unseen element keeps membership in
/// step with the prefix walked so far.
proof fn lemma_pool_step(
    s: Seq<FactorInstance>,
    i: int,
    prev: Seq<FactorInstance>,
    cur: Seq<FactorInstance>,
    x: FactorInstance,
)
    requires
        0 <= i < s.len(),
        x.eqv(&s[i]),
        forall|y: FactorInstance| pool_has(prev, y) == pool_has(s.take(i), y),
        pool_has(prev, x) ==> cur == prev,
        !pool_has(prev, x) ==> cur == prev.push(x),
    ensures
        forall|y: FactorInstance| pool_has(cur, y) == pool_has(s.take(i + 1), y),
{
    assert forall|y: FactorInstance| pool_has(cur, y) implies pool_has(s.take(i + 1), y) by {
        let k = choose|k: int| 0 <= k < cur.len() && (#[trigger] cur[k]).eqv(&y);
        if k < prev.len() {
            assert(prev[k].eqv(&y));
            assert(pool_has(prev, y));
            let l = choose|l: int| 0 <= l < s.take(i).len() && (#[trigger] s.take(i)[l]).eqv(&y);
            assert(s.take(i + 1)[l].eqv(&y));
        } else {
            assert(cur[k] == x);
            assert(s.take(i + 1)[i].eqv(&y));
        }
    }
    assert forall|y: FactorInstance| pool_has(s.take(i + 1), y) implies pool_has(cur, y) by {
        let k = choose|k: int|
            0 <= k < s.take(i + 1).len() && (#[trigger] s.take(i + 1)[k]).eqv(&y);
        if k < i {
            assert(s.take(i)[k].eqv(&y));
            assert(pool_has(s.take(i), y));
            assert(pool_has(prev, y));
            let l = choose|l: int| 0 <= l < prev.len() && (#[trigger] prev[l]).eqv(&y);
            assert(cur[l].eqv(&y));
        } else {
            assert(s[i].eqv(&y));
            if pool_has(prev, x) {
                let l = choose|l: int| 0 <= l < prev.len() && (#[trigger] prev[l]).eqv(&x);
                assert(cur[l].eqv(&y));
            } else {
                assert(cur[prev.len() as int].eqv(&y));
            }
        }
    }
}

impl Clone for FactorInstances {
    fn clone(&self) -> (r: Self)
        ensures
            r.0@.len() == self.0@.len(),
            forall|i: int| 0 <= i < self.0@.len() ==> (#[trigger] r.0@[i]).eqv(&self.0@[i]),
            forall|i: int|
                0 <= i < self.0@.len() ==> (#[trigger] r.0@[i]).wf() == self.0@[i].wf(),
            self.wf() ==> r.wf(),
            forall|x: FactorInstance| pool_has(r.0@, x) == pool_has(self.0@, x),
    {
        let n = self.0.len();
        let mut out: Vec<FactorInstance> = Vec::new();
        for i in 0..n
            invariant
                n == self.0@.len(),
                out@.len() == i,
                forall|j: int| 0 <= j < i ==> (#[trigger] out@[j]).eqv(&self.0@[j]),
                forall|j: int| 0 <= j < i ==> (#[trigger] out@[j]).wf() == self.0@[j].wf(),
        {
            out.push(self.0[i].clone());
        }
        let r = FactorInstances(out);
        proof {
            assert forall|x: FactorInstance| pool_has(r.0@, x) == pool_has(self.0@, x) by {
                if pool_has(r.0@, x) {
                    let k = choose|k: int| 0 <= k < r.0@.len() && (#[trigger] r.0@[k]).eqv(&x);
                    assert(self.0@[k].eqv(&x));
                }
                if pool_has(self.0@, x) {
                    let k = choose|k: int| 0 <= k < self.0@.len() && (#[trigger] self.0@[k]).eqv(&x);
                    assert(r.0@[k].eqv(&x));
                }
            }
        }
        r
    }
}

/// Instances believed unused: not yet bound to any on-chain or profile
/// account, free to be consumed by a future request.
#[derive(Debug)]
pub struct ProbablyFreeFactorInstances(pub Vec<FactorInstance>);

impl ProbablyFreeFactorInstances {
    pub open spec fn wf(&self) -> bool {
        pool_distinct(self.0@) && pool_wf_each(self.0@)
    }

    pub fn empty() -> (r: Self)
        ensures
            r.0@.len() == 0,
            r.wf(),
    {
        ProbablyFreeFactorInstances(Vec::new())
    }

    pub fn contains_instance(&self, x: &FactorInstance) -> (r: bool)
        ensures
            r == pool_has(self.0@, *x),
    {
        let n = self.0.len();
        for i in 0..n
            invariant
                n == self.0@.len(),
                forall|j: int| 0 <= j < i ==> !(#[trigger] self.0@[j]).eqv(x),
        {
            if &self.0[i] == x {
                return true;
            }
        }
        false
    }

    /// Append `x` unless an equal instance is already present.
    pub fn push_if_absent(&mut self, x: FactorInstance)
        ensures
            pool_has(old(self).0@, x) ==> final(self).0@ == old(self).0@,
            !pool_has(old(self).0@, x) ==> final(self).0@ == old(self).0@.push(x),
            pool_distinct(old(self).0@) ==> pool_distinct(final(self).0@),
            pool_wf_each(old(self).0@) && x.wf() ==> pool_wf_each(final(self).0@),
            old(self).wf() && x.wf() ==> final(self).wf(),
    {
        if !self.contains_instance(&x) {
            self.0.push(x);
        }
    }
}

impl Clone for FactorSources {
    fn clone(&self) -> (r: Self)
        ensures
            r.0@.len() == self.0@.len(),
            forall|i: int| 0 <= i < self.0@.len() ==> (#[trigger] r.0@[i]).eqv(&self.0@[i]),
            self.wf() ==> r.wf(),
            forall|x: FactorSource| sources_has(r.0@, x) == sources_has(self.0@, x),
    {
        let out = FactorSources(self.factor_sources());
        proof {
            assert forall|x: FactorSource| sources_has(out.0@, x) == sources_has(self.0@, x) by {
                if sources_has(out.0@, x) {
                    let k = choose|k: int| 0 <= k < out.0@.len() && (#[trigger] out.0@[k]).eqv(&x);
                    assert(self.0@[k].eqv(&x));
                }
                if sources_has(self.0@, x) {
                    let k = choose|k: int|
                        0 <= k < self.0@.len() && (#[trigger] self.0@[k]).eqv(&x);
                    assert(out.0@[k].eqv(&x));
                }
            }
        }
        out
    }
}

/// Whether a wrapped unsecurified instance equal to `x` is present.
pub open spec fn wrapped_pool_has(s: Seq<FactorInstanceInUnsecurifiedSpace>, x: FactorInstance) -> bool {
    exists|i: int| 0 <= i < s.len() && (#[trigger] s[i]).factor_instance.eqv(&x)
}

/// No wrapped instance occurs twice.
pub open spec fn wrapped_pool_distinct(s: Seq<FactorInstanceInUnsecurifiedSpace>) -> bool {
    forall|i: int, j: int| #![trigger s[i], s[j]] 0 <= i < j < s.len() ==> !s[i].eqv(&s[j])
}

/// Every wrapped instance is consistent and unsecurified.
pub open spec fn wrapped_pool_wf_each(s: Seq<FactorInstanceInUnsecurifiedSpace>) -> bool {
    forall|i: int| 0 <= i < s.len() ==> (#[trigger] s[i]).wf()
}

/// What a scan has found to be already in use: unsecurified instances
/// backing known accounts, and matrices recovered for securified ones.
#[derive(Debug)]
pub struct DerivedFactorInstances {
    pub unsecurified_factor_instances: Vec<FactorInstanceInUnsecurifiedSpace>,
    pub securified_matrices_of_factor_instances: Vec<MatrixOfFactorInstances>,
}

impl DerivedFactorInstances {
    pub open spec fn wf(&self) -> bool {
        &&& wrapped_pool_distinct(self.unsecurified_factor_instances@)
        &&& wrapped_pool_wf_each(self.unsecurified_factor_instances@)
        &&& forall|i: int|
            0 <= i < self.securified_matrices_of_factor_instances@.len() ==> matrix_wf(
                &(#[trigger] self.securified_matrices_of_factor_instances@[i]),
            )
    }

    pub fn empty() -> (r: Self)
        ensures
            r.unsecurified_factor_instances@.len() == 0,
            r.securified_matrices_of_factor_instances@.len() == 0,
            r.wf(),
    {
        DerivedFactorInstances {
            unsecurified_factor_instances: Vec::new(),
            securified_matrices_of_factor_instances: Vec::new(),
        }
    }

    /// Record a known-taken unsecurified instance, unless already present.
    pub fn push_unsecurified_if_absent(&mut self, w: FactorInstanceInUnsecurifiedSpace)
        ensures
            wrapped_pool_has(old(self).unsecurified_factor_instances@, w.factor_instance)
                ==> final(self).unsecurified_factor_instances@ == old(
                self,
            ).unsecurified_factor_instances@,
            !wrapped_pool_has(old(self).unsecurified_factor_instances@, w.factor_instance)
                ==> final(self).unsecurified_factor_instances@ == old(
                self,
            ).unsecurified_factor_instances@.push(w),
            old(self).wf() && w.wf() ==> final(self).wf(),
            final(self).securified_matrices_of_factor_instances@ == old(
                self,
            ).securified_matrices_of_factor_instances@,
            forall|x: FactorInstance|
                #![trigger wrapped_pool_has(final(self).unsecurified_factor_instances@, x)]
                wrapped_pool_has(final(self).unsecurified_factor_instances@, x) == (
                wrapped_pool_has(old(self).unsecurified_factor_instances@, x) || x.eqv(
                    &w.factor_instance,
                )),
    {
        let n = self.unsecurified_factor_instances.len();
        let mut present = false;
        for i in 0..n
            invariant
                n == self.unsecurified_factor_instances@.len(),
                *self == *old(self),
                present ==> wrapped_pool_has(
                    self.unsecurified_factor_instances@,
                    w.factor_instance,
                ),
                !present ==> forall|j: int|
                    0 <= j < i ==> !(#[trigger] self.unsecurified_factor_instances@[j]).factor_instance.eqv(
                        &w.factor_instance,
                    ),
        {
            if self.unsecurified_factor_instances[i].factor_instance == w.factor_instance {
                present = true;
            }
        }
        if !present {
            self.unsecurified_factor_instances.push(w);
        }
        proof {
            let ghost ows = old(self).unsecurified_factor_instances@;
            assert forall|x: FactorInstance|
                #![trigger wrapped_pool_has(self.unsecurified_factor_instances@, x)]
                wrapped_pool_has(self.unsecurified_factor_instances@, x) == (wrapped_pool_has(
                ows,
                x,
            ) || x.eqv(&w.factor_instance)) by {
                let ws = self.unsecurified_factor_instances@;
                if wrapped_pool_has(ws, x) {
                    let k = choose|k: int|
                        0 <= k < ws.len() && (#[trigger] ws[k]).factor_instance.eqv(&x);
                    if k < ows.len() {
                        assert(ows[k].factor_instance.eqv(&x));
                    } else {
                        assert(ws[k] == w);
                        assert(x.eqv(&w.factor_instance));
                    }
                }
                if wrapped_pool_has(ows, x) {
                    let k = choose|k: int|
                        0 <= k < ows.len() && (#[trigger] ows[k]).factor_instance.eqv(&x);
                    assert(ws[k].factor_instance.eqv(&x));
                }
                if x.eqv(&w.factor_instance) {
                    if present {
                        let k = choose|k: int|
                            0 <= k < ows.len() && (#[trigger] ows[k]).factor_instance.eqv(
                                &w.factor_instance,
                            );
                        assert(ws[k].factor_instance.eqv(&x));
                    } else {
                        assert(ws[ows.len() as int].factor_instance.eqv(&x));
                    }
                }
            }
        }
    }

    /// Whether a known-taken instance equal to `x` is present.
    pub fn contains_instance(&self, x: &FactorInstance) -> (r: bool)
        ensures
            r == wrapped_pool_has(self.unsecurified_factor_instances@, *x),
    {
        let n = self.unsecurified_factor_instances.len();
        for i in 0..n
            invariant
                n == self.unsecurified_factor_instances@.len(),
                forall|j: int|
                    0 <= j < i ==> !(
                    #[trigger] self.unsecurified_factor_instances@[j]).factor_instance.eqv(x),
        {
            if &self.unsecurified_factor_instances[i].factor_instance == x {
                return true;
            }
        }
        false
    }

    /// The known-taken unsecurified instances, in order.
    pub fn unsecurified_factor_instances(&self) -> (r: Vec<FactorInstanceInUnsecurifiedSpace>)
        ensures
            r@.len() == self.unsecurified_factor_instances@.len(),
            forall|i: int|
                0 <= i < r@.len() ==> (#[trigger] r@[i]).eqv(
                    &self.unsecurified_factor_instances@[i],
                ) && r@[i].wf() == self.unsecurified_factor_instances@[i].wf(),
    {
        let n = self.unsecurified_factor_instances.len();
        let mut out: Vec<FactorInstanceInUnsecurifiedSpace> = Vec::new();
        for i in 0..n
            invariant
                n == self.unsecurified_factor_instances@.len(),
                out@.len() == i,
                forall|j: int|
                    0 <= j < i ==> (#[trigger] out@[j]).eqv(
                        &self.unsecurified_factor_instances@[j],
                    ) && out@[j].wf() == self.unsecurified_factor_instances@[j].wf(),
        {
            out.push(self.unsecurified_factor_instances[i].clone());
        }
        out
    }

    /// One account per known-taken unsecurified instance, on `network_id`.
    pub fn unsecurified_accounts(&self, network_id: NetworkID) -> (r: Vec<UnsecurifiedAccount>)
        requires
            self.wf(),
        ensures
            r@.len() == self.unsecurified_factor_instances@.len(),
            forall|i: int|
                0 <= i < r@.len() ==> (#[trigger] r@[i]).veci.eqv(
                    &self.unsecurified_factor_instances@[i].factor_instance,
                ) && r@[i].address.network_id == network_id && r@[i].wf(),
    {
        let n = self.unsecurified_factor_instances.len();
        let mut out: Vec<UnsecurifiedAccount> = Vec::new();
        for i in 0..n
            invariant
                self.wf(),
                n == self.unsecurified_factor_instances@.len(),
                out@.len() == i,
                forall|j: int|
                    0 <= j < i ==> (#[trigger] out@[j]).veci.eqv(
                        &self.unsecurified_factor_instances@[j].factor_instance,
                    ) && out@[j].address.network_id == network_id && out@[j].wf(),
        {
            let w = self.unsecurified_factor_instances[i].clone();
            out.push(UnsecurifiedAccount::new(w, network_id));
        }
        out
    }

    /// The same accounts, as the account union type.
    pub fn accounts_unsecurified(&self, network_id: NetworkID) -> (r: Vec<Account>)
        requires
            self.wf(),
        ensures
            r@.len() == self.unsecurified_factor_instances@.len(),
            forall|i: int|
                0 <= i < r@.len() ==> (#[trigger] r@[i]) is Unsecurified
                    && r@[i]->Unsecurified_0.veci.eqv(
                    &self.unsecurified_factor_instances@[i].factor_instance,
                ) && r@[i].spec_address().network_id == network_id && r@[i].wf(),
    {
        let n = self.unsecurified_factor_instances.len();
        let mut out: Vec<Account> = Vec::new();
        for i in 0..n
            invariant
                self.wf(),
                n == self.unsecurified_factor_instances@.len(),
                out@.len() == i,
                forall|j: int|
                    0 <= j < i ==> (#[trigger] out@[j]) is Unsecurified
                        && out@[j]->Unsecurified_0.veci.eqv(
                        &self.unsecurified_factor_instances@[j].factor_instance,
                    ) && out@[j].spec_address().network_id == network_id && out@[j].wf(),
        {
            let w = self.unsecurified_factor_instances[i].clone();
            out.push(Account::new_unsecurified(w, network_id));
        }
        out
    }
}

/// What one scan has accumulated so far: the instances found to be taken,
/// and those believed free.
#[derive(Debug)]
#[verifier::ext_equal]
pub struct IntermediaryDerivationsAndAnalysis {
    pub derived_instances: DerivedFactorInstances,
    pub probably_free: ProbablyFreeFactorInstances,
}

impl IntermediaryDerivationsAndAnalysis {
    pub open spec fn wf(&self) -> bool {
        self.derived_instances.wf() && self.probably_free.wf()
    }

    /// Whether the scan has seen an instance equal to `x`, as taken or as
    /// probably free.
    pub open spec fn spec_has_instance(&self, x: FactorInstance) -> bool {
        pool_has(self.probably_free.0@, x) || wrapped_pool_has(
            self.derived_instances.unsecurified_factor_instances@,
            x,
        )
    }

    /// No instance is both taken and free.
    pub open spec fn taken_free_disjoint(&self) -> bool {
        forall|i: int|
            0 <= i < self.derived_instances.unsecurified_factor_instances@.len() ==> !pool_has(
                self.probably_free.0@,
                (#[trigger] self.derived_instances.unsecurified_factor_instances@[i]).factor_instance,
            )
    }

    pub fn empty() -> (r: Self)
        ensures
            r.derived_instances.unsecurified_factor_instances@.len() == 0,
            r.derived_instances.securified_matrices_of_factor_instances@.len() == 0,
            r.probably_free.0@.len() == 0,
            r.wf(),
            r.taken_free_disjoint(),
    {
        IntermediaryDerivationsAndAnalysis {
            derived_instances: DerivedFactorInstances::empty(),
            probably_free: ProbablyFreeFactorInstances::empty(),
        }
    }
}

/// What a finished scan hands back: the taken instances (the accounts to
/// build), the free ones retained for reuse, and the refreshed cache that
/// holds them.
#[derive(Debug)]
pub struct FinalDerivationsFinalAndAnalysis {
    pub derived_instances: DerivedFactorInstances,
    pub probably_free: ProbablyFreeFactorInstances,
    pub cache: Cache,
}

/// The abstract network transport behind the on-chain analyzer. Outside
/// implementations answer from the ledger; nothing is promised of their
/// answers, and a failure aborts the scan.
pub trait Gateway {
    fn is_address_taken(&self, address: &AccountAddress) -> Result<bool, CommonError>;
}

/// A gateway that is not there: it reports every address as unused.
#[derive(Clone, Copy, Debug)]
pub struct NoGateway;

impl Gateway for NoGateway {
    fn is_address_taken(&self, address: &AccountAddress) -> Result<bool, CommonError> {
        Ok(false)
    }
}

/// Classifies candidate instances as already-used on the ledger. Without
/// a gateway it reports nothing as taken.
#[derive(Debug)]
pub struct OnChainAnalyzer<G: Gateway> {
    pub gateway: Option<G>,
}

impl<G: Gateway> OnChainAnalyzer<G> {
    pub fn new(gateway: Option<G>) -> (r: Self)
        ensures
            (r.gateway is Some) == (gateway is Some),
    {
        OnChainAnalyzer { gateway }
    }

    pub fn with_gateway(gateway: G) -> (r: Self)
        ensures
            r.gateway is Some,
    {
        Self::new(Some(gateway))
    }

    /// Whether the ledger knows the address. Without a gateway the answer
    /// is no; with one, the answer is the gateway's.
    pub fn is_address_taken(&self, address: &AccountAddress) -> (r: Result<bool, CommonError>)
        ensures
            self.gateway is None ==> r == Ok::<bool, CommonError>(false),
    {
        match &self.gateway {
            Some(gateway) => gateway.is_address_taken(address),
            None => Ok(false),
        }
    }
}

impl OnChainAnalyzer<NoGateway> {
    /// An analyzer with no gateway: everything is reported unused.
    pub fn dummy() -> (r: Self)
        ensures
            r.gateway is None,
    {
        OnChainAnalyzer { gateway: None }
    }
}

/// Classifies candidate instances as already present in the local wallet
/// profile. Local and non-failing; without a profile nothing is taken.
#[derive(Debug)]
pub struct ProfileAnalyzer {
    pub profile: Option<Profile>,
}

impl ProfileAnalyzer {
    pub fn with_profile(profile: Profile) -> (r: Self)
        ensures
            r.profile == Some(profile),
    {
        ProfileAnalyzer { profile: Some(profile) }
    }

    pub fn dummy() -> (r: Self)
        ensures
            r.profile is None,
    {
        ProfileAnalyzer { profile: None }
    }

    /// Whether an account with this address already exists in the profile.
    pub fn is_address_taken(&self, address: &AccountAddress) -> (r: bool)
        ensures
            r == match self.profile {
                Some(p) => p.spec_has_address(*address),
                None => false,
            },
    {
        match &self.profile {
            Some(p) => {
                let n = p.accounts.len();
                for i in 0..n
                    invariant
                        n == p.accounts@.len(),
                        self.profile is Some,
                        *p == self.profile->Some_0,
                        forall|j: int|
                            0 <= j < i ==> !(#[trigger] p.accounts@[j]).spec_address().eqv(
                                address,
                            ),
                {
                    if p.accounts[i].address() == *address {
                        proof {
                            assert(p.accounts@[i as int].spec_address().eqv(address));
                            assert(accounts_has_address(p.accounts@, *address));
                            assert(self.profile is Some);
                            assert(self.profile->Some_0.spec_has_address(*address));
                        }
                        return true;
                    }
                }
                false
            },
            None => false,
        }
    }
}

/// The external key-derivation provider: given concrete derivation paths
/// it returns one public-key instance per path, in order, each bound to
/// the path that produced it. Outside implementations are trusted to meet
/// this; the orchestrator never sees private key material.
pub trait DerivationInteractors {
    fn derive(&self, paths: &Vec<DerivationPath>) -> (r: Result<FactorInstances, CommonError>)
        requires
            forall|i: int| 0 <= i < paths@.len() ==> (#[trigger] paths@[i]).wf(),
        ensures
            r is Ok ==> r->Ok_0.0@.len() == paths@.len(),
            r is Ok ==> forall|i: int|
                0 <= i < paths@.len() ==> (#[trigger] r->Ok_0.0@[i]).wf()
                    && r->Ok_0.0@[i].derivation_path.eqv(&paths@[i])
                    && r->Ok_0.0@[i].factor_source_id.eqv(&paths@[i].abstract_factor),
    ;
}

/// Gathers the concrete paths of one derivation round and has the
/// provider derive them.
#[derive(Debug)]
pub struct KeysCollector {
    pub paths: Vec<DerivationPath>,
}

impl KeysCollector {
    pub fn new(paths: Vec<DerivationPath>) -> (r: Result<KeysCollector, CommonError>)
        ensures
            r is Ok,
            r->Ok_0.paths == paths,
    {
        Ok(KeysCollector { paths })
    }

    /// Ask the provider for one instance per collected path.
    pub fn derive<K: DerivationInteractors>(&self, interactors: &K) -> (r: Result<
        FactorInstances,
        CommonError,
    >)
        requires
            forall|i: int| 0 <= i < self.paths@.len() ==> (#[trigger] self.paths@[i]).wf(),
        ensures
            r is Ok ==> r->Ok_0.0@.len() == self.paths@.len(),
            r is Ok ==> forall|i: int|
                0 <= i < self.paths@.len() ==> (#[trigger] r->Ok_0.0@[i]).wf()
                    && r->Ok_0.0@[i].derivation_path.eqv(&self.paths@[i])
                    && r->Ok_0.0@[i].factor_source_id.eqv(&self.paths@[i].abstract_factor),
    {
        interactors.derive(&self.paths)
    }
}

/// Requests not yet bound to factor sources: the shape of a request kind's
/// demand, to be combined with each factor source in play.
#[derive(Debug)]
pub struct AbstractDerivationRequests(pub Vec<DerivationRequestWithoutFactorInKeySpace>);

/// Whether some combination of an abstract request with a factor source
/// yields the request `k`.
pub open spec fn combos_have(
    reqs: Seq<DerivationRequestWithoutFactorInKeySpace>,
    srcs: Seq<FactorSource>,
    k: DerivationRequestInKeySpace,
) -> bool {
    exists|a: int, b: int|
        #![trigger srcs[a], reqs[b]]
        0 <= a < srcs.len() && 0 <= b < reqs.len() && spec_with_factor(
            reqs[b],
            srcs[a].factor_source_id,
        ).eqv(&k)
}

/// No request occurs twice.
pub open spec fn reqs_distinct(s: Seq<DerivationRequestInKeySpace>) -> bool {
    forall|i: int, j: int| #![trigger s[i], s[j]] 0 <= i < j < s.len() ==> !s[i].eqv(&s[j])
}

impl AbstractDerivationRequests {
    pub fn from(requests: Vec<DerivationRequestWithoutFactorInKeySpace>) -> (r: Self)
        ensures
            r.0 == requests,
    {
        AbstractDerivationRequests(requests)
    }

    /// Bind every abstract request to every factor source, dropping
    /// duplicates: the full demand a scan over those sources opens with.
    pub fn for_each_factor_sources(&self, factor_sources: FactorSources) -> (r: Vec<
        DerivationRequestInKeySpace,
    >)
        ensures
            reqs_distinct(r@),
            forall|i: int|
                #![trigger r@[i]]
                0 <= i < r@.len() ==> r@[i].wf() && combos_have(self.0@, factor_sources.0@, r@[i]),
            forall|a: int, b: int|
                #![trigger factor_sources.0@[a], self.0@[b]]
                0 <= a < factor_sources.0@.len() && 0 <= b < self.0@.len() ==> seq_has_req(
                    r@,
                    spec_with_factor(self.0@[b], factor_sources.0@[a].factor_source_id),
                ),
    {
        let src_count = factor_sources.0.len();
        let req_count = self.0.len();
        let mut out: Vec<DerivationRequestInKeySpace> = Vec::new();
        for a in 0..src_count
            invariant
                src_count == factor_sources.0@.len(),
                req_count == self.0@.len(),
                reqs_distinct(out@),
                forall|i: int|
                    #![trigger out@[i]]
                    0 <= i < out@.len() ==> out@[i].wf() && combos_have(
                        self.0@,
                        factor_sources.0@,
                        out@[i],
                    ),
                forall|a2: int, b2: int|
                    #![trigger factor_sources.0@[a2], self.0@[b2]]
                    0 <= a2 < a && 0 <= b2 < req_count ==> seq_has_req(
                        out@,
                        spec_with_factor(self.0@[b2], factor_sources.0@[a2].factor_source_id),
                    ),
        {
            for b in 0..req_count
                invariant
                    src_count == factor_sources.0@.len(),
                    req_count == self.0@.len(),
                    a < src_count,
                    reqs_distinct(out@),
                    forall|i: int|
                        #![trigger out@[i]]
                        0 <= i < out@.len() ==> out@[i].wf() && combos_have(
                            self.0@,
                            factor_sources.0@,
                            out@[i],
                        ),
                    forall|a2: int, b2: int|
                        #![trigger factor_sources.0@[a2], self.0@[b2]]
                        0 <= a2 < a && 0 <= b2 < req_count ==> seq_has_req(
                            out@,
                            spec_with_factor(self.0@[b2], factor_sources.0@[a2].factor_source_id),
                        ),
                    forall|b2: int|
                        #![trigger self.0@[b2]]
                        0 <= b2 < b ==> seq_has_req(
                            out@,
                            spec_with_factor(self.0@[b2], factor_sources.0@[a as int].factor_source_id),
                        ),
            {
                let candidate = self.0[b].clone().with_factor_source(&factor_sources.0[a]);
                proof {
                    assert(candidate.eqv(
                        &spec_with_factor(
                            self.0@[b as int],
                            factor_sources.0@[a as int].factor_source_id,
                        ),
                    ));
                }
                let ghost prev = out@;
                let mut present = false;
                let out_len = out.len();
                for i in 0..out_len
                    invariant
                        out_len == out@.len(),
                        out@ == prev,
                        present ==> seq_has_req(out@, candidate),
                        !present ==> forall|j: int|
                            0 <= j < i ==> !(#[trigger] out@[j]).eqv(&candidate),
                {
                    if out[i] == candidate {
                        present = true;
                    }
                }
                if !present {
                    out.push(candidate);
                }
                proof {
                    crate::cache::lemma_seq_has_req_congruent(out@);
                    crate::cache::lemma_seq_has_req_congruent(prev);
                    let combo = spec_with_factor(
                        self.0@[b as int],
                        factor_sources.0@[a as int].factor_source_id,
                    );
                    if !present {
                        assert(out@ == prev.push(candidate));
                        assert(out@[prev.len() as int].eqv(&combo));
                        assert(seq_has_req(out@, combo));
                        // an appended request never collides with earlier
                        // ones, so distinctness is kept
                        assert forall|i: int, j: int|
                            #![trigger out@[i], out@[j]]
                            0 <= i < j < out@.len() implies !out@[i].eqv(&out@[j]) by {
                            if j == prev.len() as int {
                                assert(!prev[i].eqv(&candidate));
                            }
                        }
                    } else {
                        assert(seq_has_req(prev, candidate));
                        assert(seq_has_req(out@, combo));
                    }
                    // everything previously covered stays covered
                    assert forall|a2: int, b2: int|
                        #![trigger factor_sources.0@[a2], self.0@[b2]]
                        0 <= a2 < a && 0 <= b2 < req_count implies seq_has_req(
                        out@,
                        spec_with_factor(self.0@[b2], factor_sources.0@[a2].factor_source_id),
                    ) by {
                        let c2 = spec_with_factor(
                            self.0@[b2],
                            factor_sources.0@[a2].factor_source_id,
                        );
                        assert(seq_has_req(prev, c2));
                        let w = choose|w: int| 0 <= w < prev.len() && (#[trigger] prev[w]).eqv(&c2);
                        assert(out@[w].eqv(&c2));
                    }
                    assert forall|b2: int| #![trigger self.0@[b2]] 0 <= b2 < b + 1 implies
                        seq_has_req(
                        out@,
                        spec_with_factor(
                            self.0@[b2],
                            factor_sources.0@[a as int].factor_source_id,
                        ),
                    ) by {
                        let c2 = spec_with_factor(
                            self.0@[b2],
                            factor_sources.0@[a as int].factor_source_id,
                        );
                        if b2 < b {
                            assert(seq_has_req(prev, c2));
                            let w = choose|w: int|
                                0 <= w < prev.len() && (#[trigger] prev[w]).eqv(&c2);
                            assert(out@[w].eqv(&c2));
                        } else {
                            assert(seq_has_req(out@, combo));
                        }
                    }
                    // new candidates are genuine combinations
                    assert forall|i: int| #![trigger out@[i]] 0 <= i < out@.len() implies
                        out@[i].wf() && combos_have(self.0@, factor_sources.0@, out@[i]) by {
                        if i >= prev.len() {
                            assert(out@[i].eqv(&combo));
                            assert(spec_with_factor(
                                self.0@[b as int],
                                factor_sources.0@[a as int].factor_source_id,
                            ).eqv(&out@[i]));
                        }
                    }
                }
            }
        }
        out
    }
}

/// Whether two optional instances are the same.
pub open spec fn opt_instance_eqv(a: Option<FactorInstance>, b: Option<FactorInstance>) -> bool {
    match a {
        Some(x) => match b {
            Some(y) => x.eqv(&y),
            None => false,
        },
        None => b is None,
    }
}

/// A single-factor account: one "veci" instance backs it, and its address
/// is derived from that instance's public key.
#[derive(Debug)]
pub struct UnsecurifiedAccount {
    pub address: AccountAddress,
    pub veci: FactorInstance,
}

impl UnsecurifiedAccount {
    pub open spec fn eqv(&self, other: &Self) -> bool {
        self.address.eqv(&other.address) && self.veci.eqv(&other.veci)
    }

    pub open spec fn wf(&self) -> bool {
        &&& self.address.wf()
        &&& self.veci.wf()
        &&& self.veci.spec_key_space() == KeySpace::Unsecurified
        &&& addr_matches_key(self.address, self.veci.public_key.bytes@, self.address.network_id)
    }

    /// The account a key-space-checked instance creates on a network.
    pub fn new(veci: FactorInstanceInUnsecurifiedSpace, network_id: NetworkID) -> (r: Self)
        requires
            veci.wf(),
        ensures
            r.veci.eqv(&veci.factor_instance),
            r.address.network_id == network_id,
            addr_matches_key(r.address, veci.factor_instance.public_key.bytes@, network_id),
            r.wf(),
    {
        let instance = veci.instance();
        let address = AccountAddress::new(&instance, network_id);
        UnsecurifiedAccount { address, veci: instance }
    }
}

impl Clone for UnsecurifiedAccount {
    fn clone(&self) -> (r: Self)
        ensures
            r.eqv(self),
            r.wf() == self.wf(),
    {
        UnsecurifiedAccount { address: self.address.clone(), veci: self.veci.clone() }
    }
}

/// A multi-factor account: its address, the veci that originally created
/// it (if known), and the security matrix that now controls it.
#[derive(Debug)]
pub struct SecurifiedAccount {
    pub address: AccountAddress,
    pub veci: Option<FactorInstance>,
    pub matrix: MatrixOfFactorInstances,
}

/// Whether two instance matrices are the same.
pub open spec fn matrix_eqv(a: &MatrixOfFactorInstances, b: &MatrixOfFactorInstances) -> bool {
    &&& a.threshold == b.threshold
    &&& a.threshold_factors@.len() == b.threshold_factors@.len()
    &&& forall|i: int|
        0 <= i < a.threshold_factors@.len() ==> (#[trigger] a.threshold_factors@[i]).eqv(
            &b.threshold_factors@[i],
        )
    &&& a.override_factors@.len() == b.override_factors@.len()
    &&& forall|i: int|
        0 <= i < a.override_factors@.len() ==> (#[trigger] a.override_factors@[i]).eqv(
            &b.override_factors@[i],
        )
}

/// Every instance of the matrix is consistent and securified.
pub open spec fn matrix_wf(m: &MatrixOfFactorInstances) -> bool {
    &&& m.wf()
    &&& forall|i: int|
        0 <= i < m.threshold_factors@.len() ==> (#[trigger] m.threshold_factors@[i]).wf()
    &&& forall|i: int|
        0 <= i < m.override_factors@.len() ==> (#[trigger] m.override_factors@[i]).wf()
}

impl Clone for MatrixOfFactorInstances {
    fn clone(&self) -> (r: Self)
        ensures
            matrix_eqv(&r, self),
            matrix_wf(self) ==> matrix_wf(&r),
    {
        let mut threshold_factors: Vec<FactorInstanceInSecurifiedSpace> = Vec::new();
        let n = self.threshold_factors.len();
        for i in 0..n
            invariant
                n == self.threshold_factors@.len(),
                threshold_factors@.len() == i,
                forall|j: int|
                    0 <= j < i ==> (#[trigger] threshold_factors@[j]).eqv(
                        &self.threshold_factors@[j],
                    ),
                forall|j: int|
                    0 <= j < i ==> (#[trigger] threshold_factors@[j]).wf()
                        == self.threshold_factors@[j].wf(),
        {
            threshold_factors.push(self.threshold_factors[i].clone());
        }
        let mut override_factors: Vec<FactorInstanceInSecurifiedSpace> = Vec::new();
        let m = self.override_factors.len();
        for i in 0..m
            invariant
                m == self.override_factors@.len(),
                override_factors@.len() == i,
                forall|j: int|
                    0 <= j < i ==> (#[trigger] override_factors@[j]).eqv(
                        &self.override_factors@[j],
                    ),
                forall|j: int|
                    0 <= j < i ==> (#[trigger] override_factors@[j]).wf()
                        == self.override_factors@[j].wf(),
        {
            override_factors.push(self.override_factors[i].clone());
        }
        MatrixOfFactorInstances { threshold_factors, threshold: self.threshold, override_factors }
    }
}

/// No securified instance occurs twice.
pub open spec fn securified_pool_distinct(s: Seq<FactorInstanceInSecurifiedSpace>) -> bool {
    forall|i: int, j: int| #![trigger s[i], s[j]] 0 <= i < j < s.len() ==> !s[i].eqv(&s[j])
}

/// The two instance groups of a matrix, flattened, hold no instance twice.
pub open spec fn matrix_instances_distinct(m: &MatrixOfFactorInstances) -> bool {
    securified_pool_distinct(m.threshold_factors@ + m.override_factors@)
}

impl MatrixOfFactorInstances {
    /// Build an instance matrix; a threshold above the threshold factor
    /// count, or an instance occurring twice across the two groups, is
    /// refused.
    pub fn new(
        threshold_factors: Vec<FactorInstanceInSecurifiedSpace>,
        threshold: usize,
        override_factors: Vec<FactorInstanceInSecurifiedSpace>,
    ) -> (r: Result<Self, CommonError>)
        ensures
            threshold > threshold_factors@.len() ==> r is Err && r->Err_0
                == CommonError::ThresholdExceedsFactorCount,
            threshold <= threshold_factors@.len() && !securified_pool_distinct(
                threshold_factors@ + override_factors@,
            ) ==> r is Err && r->Err_0 == CommonError::DuplicateFactorSource,
            threshold <= threshold_factors@.len() && securified_pool_distinct(
                threshold_factors@ + override_factors@,
            ) ==> {
                &&& r is Ok
                &&& r->Ok_0.threshold_factors == threshold_factors
                &&& r->Ok_0.threshold == threshold
                &&& r->Ok_0.override_factors == override_factors
                &&& r->Ok_0.wf()
                &&& matrix_instances_distinct(&r->Ok_0)
            },
    {
        if threshold > threshold_factors.len() {
            return Err(CommonError::ThresholdExceedsFactorCount);
        }
        let candidate = Self { threshold_factors, threshold, override_factors };
        if candidate.instances_distinct() {
            Ok(candidate)
        } else {
            Err(CommonError::DuplicateFactorSource)
        }
    }

    /// Whether the two instance groups, flattened, hold no instance twice.
    pub fn instances_distinct(&self) -> (r: bool)
        ensures
            r == matrix_instances_distinct(self),
    {
        let mut all: Vec<FactorInstanceInSecurifiedSpace> = Vec::new();
        let n = self.threshold_factors.len();
        for i in 0..n
            invariant
                n == self.threshold_factors@.len(),
                all@.len() == i,
                forall|j: int| 0 <= j < i ==> (#[trigger] all@[j]).eqv(&self.threshold_factors@[j]),
        {
            all.push(self.threshold_factors[i].clone());
        }
        let m = self.override_factors.len();
        for i in 0..m
            invariant
                n == self.threshold_factors@.len(),
                m == self.override_factors@.len(),
                all@.len() == n + i,
                forall|j: int| 0 <= j < n ==> (#[trigger] all@[j]).eqv(&self.threshold_factors@[j]),
                forall|j: int|
                    n <= j < n + i ==> (#[trigger] all@[j]).eqv(&self.override_factors@[j - n]),
        {
            all.push(self.override_factors[i].clone());
        }
        proof {
            assert(all@.len() == (self.threshold_factors@ + self.override_factors@).len());
            assert forall|j: int| 0 <= j < (self.threshold_factors@ + self.override_factors@).len() implies (#[trigger] all@[j]).eqv(&(self.threshold_factors@ + self.override_factors@)[j]) by {
                if j < self.threshold_factors@.len() {
                    assert((self.threshold_factors@ + self.override_factors@)[j] == self.threshold_factors@[j]);
                } else {
                    assert((self.threshold_factors@ + self.override_factors@)[j] == self.override_factors@[j - self.threshold_factors@.len()]);
                }
            }
        }
        let total = all.len();
        for i in 0..total
            invariant
                total == all@.len(),
                all@.len() == (self.threshold_factors@ + self.override_factors@).len(),
                forall|j2: int| 0 <= j2 < (self.threshold_factors@ + self.override_factors@).len() ==> (#[trigger] all@[j2]).eqv(&(self.threshold_factors@ + self.override_factors@)[j2]),
                forall|p: int, q: int|
                    #![trigger all@[p], all@[q]]
                    0 <= p < q < all@.len() && p < i ==> !all@[p].eqv(&all@[q]),
        {
            let mut j = i + 1;
            while j < total
                invariant
                    total == all@.len(),
                    all@.len() == (self.threshold_factors@ + self.override_factors@).len(),
                    i < j,
                    i < total,
                    forall|j2: int| 0 <= j2 < (self.threshold_factors@ + self.override_factors@).len() ==> (#[trigger] all@[j2]).eqv(&(self.threshold_factors@ + self.override_factors@)[j2]),
                    forall|q: int| i < q < j ==> !all@[i as int].eqv(&(#[trigger] all@[q])),
                decreases total - j,
            {
                if all[i] == all[j] {
                    proof {
                        assert((self.threshold_factors@ + self.override_factors@)[i as int].eqv(&(self.threshold_factors@ + self.override_factors@)[j as int]));
                        assert(!securified_pool_distinct((self.threshold_factors@ + self.override_factors@)));
                    }
                    return false;
                }
                j = j + 1;
            }
        }
        proof {
            assert forall|p: int, q: int|
                #![trigger (self.threshold_factors@ + self.override_factors@)[p], (self.threshold_factors@ + self.override_factors@)[q]]
                0 <= p < q < (self.threshold_factors@ + self.override_factors@).len() implies !(self.threshold_factors@ + self.override_factors@)[p].eqv(&(self.threshold_factors@ + self.override_factors@)[q]) by {
                assert(!all@[p].eqv(&all@[q]));
            }
        }
        true
    }
}

impl SecurifiedAccount {
    pub open spec fn eqv(&self, other: &Self) -> bool {
        self.address.eqv(&other.address) && opt_instance_eqv(self.veci, other.veci) && matrix_eqv(
            &self.matrix,
            &other.matrix,
        )
    }

    pub open spec fn wf(&self) -> bool {
        self.address.wf() && matrix_wf(&self.matrix)
    }
}

impl Clone for SecurifiedAccount {
    fn clone(&self) -> (r: Self)
        ensures
            r.eqv(self),
            self.wf() ==> r.wf(),
    {
        let veci = match &self.veci {
            Some(v) => Some(v.clone()),
            None => None,
        };
        SecurifiedAccount { address: self.address.clone(), veci, matrix: self.matrix.clone() }
    }
}

/// Membership of a source in a list, up to value equality.
pub open spec fn sources_has(s: Seq<FactorSource>, x: FactorSource) -> bool {
    exists|i: int| 0 <= i < s.len() && (#[trigger] s[i]).eqv(&x)
}

/// No source occurs twice.
pub open spec fn sources_distinct(s: Seq<FactorSource>) -> bool {
    forall|i: int, j: int| #![trigger s[i], s[j]] 0 <= i < j < s.len() ==> !s[i].eqv(&s[j])
}

/// Walking a source list and appending each unseen element keeps
/// membership in step with the prefix walked so far.
proof fn lemma_sources_step(
    s: Seq<FactorSource>,
    i: int,
    prev: Seq<FactorSource>,
    cur: Seq<FactorSource>,
    x: FactorSource,
)
    requires
        0 <= i < s.len(),
        x.eqv(&s[i]),
        forall|y: FactorSource| sources_has(prev, y) == sources_has(s.take(i), y),
        sources_has(prev, x) ==> cur == prev,
        !sources_has(prev, x) ==> cur == prev.push(x),
    ensures
        forall|y: FactorSource| sources_has(cur, y) == sources_has(s.take(i + 1), y),
{
    assert forall|y: FactorSource| sources_has(cur, y) implies sources_has(s.take(i + 1), y) by {
        let k = choose|k: int| 0 <= k < cur.len() && (#[trigger] cur[k]).eqv(&y);
        if k < prev.len() {
            assert(prev[k].eqv(&y));
            assert(sources_has(prev, y));
            let l = choose|l: int| 0 <= l < s.take(i).len() && (#[trigger] s.take(i)[l]).eqv(&y);
            assert(s.take(i + 1)[l].eqv(&y));
        } else {
            assert(cur[k] == x);
            assert(s.take(i + 1)[i].eqv(&y));
        }
    }
    assert forall|y: FactorSource| sources_has(s.take(i + 1), y) implies sources_has(cur, y) by {
        let k = choose|k: int|
            0 <= k < s.take(i + 1).len() && (#[trigger] s.take(i + 1)[k]).eqv(&y);
        if k < i {
            assert(s.take(i)[k].eqv(&y));
            assert(sources_has(s.take(i), y));
            assert(sources_has(prev, y));
            let l = choose|l: int| 0 <= l < prev.len() && (#[trigger] prev[l]).eqv(&y);
            assert(cur[l].eqv(&y));
        } else {
            assert(s[i].eqv(&y));
            if sources_has(prev, x) {
                let l = choose|l: int| 0 <= l < prev.len() && (#[trigger] prev[l]).eqv(&x);
                assert(cur[l].eqv(&y));
            } else {
                assert(cur[prev.len() as int].eqv(&y));
            }
        }
    }
}

/// The factor sources of a profile: insertion-ordered and unique.
#[derive(Debug)]
pub struct FactorSources(pub Vec<FactorSource>);

impl FactorSources {
    pub open spec fn wf(&self) -> bool {
        sources_distinct(self.0@)
    }

    pub fn just(factor_source: FactorSource) -> (r: Self)
        ensures
            r.0@.len() == 1,
            r.0@[0] == factor_source,
            r.wf(),
    {
        FactorSources(vec![factor_source])
    }

    pub fn contains_source(&self, x: &FactorSource) -> (r: bool)
        ensures
            r == sources_has(self.0@, *x),
    {
        let n = self.0.len();
        for i in 0..n
            invariant
                n == self.0@.len(),
                forall|j: int| 0 <= j < i ==> !(#[trigger] self.0@[j]).eqv(x),
        {
            if &self.0[i] == x {
                return true;
            }
        }
        false
    }

    /// Collect sources, dropping duplicates and keeping first-seen order.
    pub fn from_iter(sources: Vec<FactorSource>) -> (r: Self)
        ensures
            r.wf(),
            forall|x: FactorSource| sources_has(r.0@, x) == sources_has(sources@, x),
            r.0@.len() <= sources@.len(),
    {
        let n = sources.len();
        let mut out = FactorSources(Vec::new());
        for i in 0..n
            invariant
                n == sources@.len(),
                sources_distinct(out.0@),
                out.0@.len() <= i,
                forall|x: FactorSource| sources_has(out.0@, x) == sources_has(
                    sources@.take(i as int),
                    x,
                ),
        {
            let x = sources[i].clone();
            let ghost prev = out.0@;
            let had = out.contains_source(&x);
            if !had {
                out.0.push(x);
            }
            proof {
                lemma_sources_step(sources@, i as int, prev, out.0@, x);
            }
        }
        proof {
            assert(sources@.take(n as int) =~= sources@);
        }
        out
    }

    /// The sources as a list, in order.
    pub fn factor_sources(&self) -> (r: Vec<FactorSource>)
        ensures
            r@.len() == self.0@.len(),
            forall|i: int| 0 <= i < self.0@.len() ==> (#[trigger] r@[i]).eqv(&self.0@[i]),
    {
        let n = self.0.len();
        let mut out: Vec<FactorSource> = Vec::new();
        for i in 0..n
            invariant
                n == self.0@.len(),
                out@.len() == i,
                forall|j: int| 0 <= j < i ==> (#[trigger] out@[j]).eqv(&self.0@[j]),
        {
            out.push(self.0[i].clone());
        }
        out
    }

    /// How many sources there are.
    pub fn len(&self) -> (r: usize)
        ensures
            r == self.0@.len(),
    {
        self.0.len()
    }

    /// Add a source; one already present is refused.
    pub fn insert(&mut self, factor_source: FactorSource) -> (r: Result<(), CommonError>)
        ensures
            sources_has(old(self).0@, factor_source) ==> {
                &&& r is Err
                &&& r->Err_0 == CommonError::DuplicateFactorSource
                &&& final(self).0@ == old(self).0@
            },
            !sources_has(old(self).0@, factor_source) ==> {
                &&& r is Ok
                &&& final(self).0@ == old(self).0@.push(factor_source)
            },
            old(self).wf() ==> final(self).wf(),
    {
        if self.contains_source(&factor_source) {
            Err(CommonError::DuplicateFactorSource)
        } else {
            self.0.push(factor_source);
            Ok(())
        }
    }
}

} // verus!

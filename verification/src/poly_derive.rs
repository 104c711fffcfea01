//! The derivation orchestrator: given a request kind, it repeatedly
//! consults the cache and the external key-derivation provider, classifies
//! what came back through the on-chain and profile analyzers, and stops
//! once the request kind's completion predicate is satisfied — or after a
//! fixed number of rounds, so a predicate that never comes true cannot
//! loop forever.

use vstd::prelude::*;

use crate::cache::{
    entries_have_instance, entries_have_key, entries_sound, entry_sound, seq_has_req, Cache,
    CacheLoadOutcome,
};
use crate::errors::CommonError;
use crate::new_types::{
    pool_has, sources_has, spec_classify, wrapped_pool_has, CAP26Index, DerivationPath,
    DerivationRequestAbstractFactorAbstractIndex, DerivationRequestInKeySpace,
    DerivationInteractors, FactorInstanceInSecurifiedSpace, FactorInstanceInUnsecurifiedSpace,
    FactorInstances, FactorSources, FinalDerivationsFinalAndAnalysis, Gateway,
    IntermediaryDerivationsAndAnalysis,
    KeySpace, KeySpaced, KeysCollector, OnChainAnalyzer, ProfileAnalyzer, SecurifiedAccount,
    UnsecurifiedAccount, KEY_SPACE_BOUNDARY,
};
use crate::sargon_types::{
    accounts_distinct, AccountAddress, CAP26EntityKind, CAP26KeyKind, FactorInstance,
    FactorSource, FactorSourceIDFromHash, FactorSourceKind, MatrixOfAbstractFactor,
    MatrixOfFactorInstances, MatrixOfFactorSources, NetworkID, Profile,
};

verus! {

/// Picks the factor sources a scan cares about: any source of a kind, or
/// one specific source.
#[derive(Debug)]
pub enum FactorSourceSelector {
    NewOfKind(FactorSourceKind),
    Specific(FactorSourceIDFromHash),
}

impl FactorSourceSelector {
    pub open spec fn spec_matches(&self, path: DerivationPath) -> bool {
        match self {
            FactorSourceSelector::NewOfKind(kind) => path.abstract_factor.factor_source_kind
                == *kind,
            FactorSourceSelector::Specific(id) => id.eqv(&path.abstract_factor),
        }
    }

    pub open spec fn spec_kind(&self) -> FactorSourceKind {
        match self {
            FactorSourceSelector::NewOfKind(kind) => *kind,
            FactorSourceSelector::Specific(id) => id.factor_source_kind,
        }
    }

    pub fn matches_derivation_path(&self, path: &DerivationPath) -> (r: bool)
        ensures
            r == self.spec_matches(*path),
    {
        match self {
            Self::NewOfKind(kind) => path.abstract_factor.factor_source_kind == *kind,
            Self::Specific(id) => *id == path.abstract_factor,
        }
    }

    pub fn factor_source_kind(&self) -> (r: FactorSourceKind)
        ensures
            r == self.spec_kind(),
    {
        match self {
            Self::NewOfKind(kind) => *kind,
            Self::Specific(id) => id.factor_source_kind,
        }
    }
}

/// What a caller wants from a scan.
#[derive(Debug)]
pub enum PolyDeriveRequestKind {
    /// Onboarding Account Recovery Scan; assumes mainnet.
    OARS { factor_sources: FactorSources },
    /// Manual Account Recovery Scan, over a single factor source.
    MARS { factor_source: FactorSource, network_id: NetworkID },
    /// Pre-derive a batch of instances for a factor source being added.
    PreDeriveInstancesForNewFactorSource { factor_source: FactorSource },
    /// Create a new virtual unsecurified account.
    NewVirtualUnsecurifiedAccount { network_id: NetworkID, factor_source: FactorSource },
    /// Securify an unsecurified account under a matrix policy.
    SecurifyUnsecurifiedAccount {
        unsecurified_account: UnsecurifiedAccount,
        matrix_of_factor_sources: MatrixOfFactorSources,
    },
    /// Re-derive a securified account's matrix under a new policy.
    UpdateSecurifiedAccount {
        securified_account: SecurifiedAccount,
        matrix_of_factor_sources: MatrixOfFactorSources,
    },
}

/// The next derivation index offset to use, per request key; offsets only
/// ever grow, so one scan never hands out the same index twice for a key.
#[derive(Debug)]
pub struct FactorInstancesCacheCursors {
    pub map: Vec<(DerivationRequestInKeySpace, u32)>,
}

/// The offset recorded for `k`: the first entry whose key equals `k`, or
/// zero if there is none.
pub open spec fn spec_cursor(s: Seq<(DerivationRequestInKeySpace, u32)>, k: DerivationRequestInKeySpace) -> u32
    decreases s.len(),
{
    if s.len() == 0 {
        0u32
    } else if s[0].0.eqv(&k) {
        s[0].1
    } else {
        spec_cursor(s.drop_first(), k)
    }
}

impl FactorInstancesCacheCursors {
    pub fn empty() -> (r: Self)
        ensures
            r.map@.len() == 0,
    {
        FactorInstancesCacheCursors { map: Vec::new() }
    }

    pub fn cursor_for(&self, k: &DerivationRequestInKeySpace) -> (r: u32)
        ensures
            r == spec_cursor(self.map@, *k),
    {
        let n = self.map.len();
        proof {
            assert(self.map@.skip(0) =~= self.map@);
        }
        for i in 0..n
            invariant
                n == self.map@.len(),
                forall|j: int| 0 <= j < i ==> !(#[trigger] self.map@[j]).0.eqv(k),
                spec_cursor(self.map@, *k) == spec_cursor(self.map@.skip(i as int), *k),
        {
            let e = &self.map[i];
            proof {
                assert(self.map@.skip(i as int)[0] == self.map@[i as int]);
                assert(self.map@.skip(i as int).drop_first() =~= self.map@.skip(i as int + 1));
            }
            if e.0 == *k {
                return e.1;
            }
        }
        proof {
            assert(self.map@.skip(n as int) =~= Seq::<(DerivationRequestInKeySpace, u32)>::empty());
        }
        0
    }

    /// Record the offset for `k`; the newest record wins, and every other
    /// key keeps its offset.
    pub fn set_cursor(&mut self, k: &DerivationRequestInKeySpace, v: u32)
        ensures
            spec_cursor(final(self).map@, *k) == v,
            forall|k2: DerivationRequestInKeySpace|
                #![trigger spec_cursor(final(self).map@, k2)]
                !k.eqv(&k2) ==> spec_cursor(final(self).map@, k2) == spec_cursor(
                    old(self).map@,
                    k2,
                ),
    {
        self.map.insert(0, (k.clone(), v));
        proof {
            assert(self.map@[0].0.eqv(k));
            assert(self.map@.drop_first() =~= old(self).map@);
            assert forall|k2: DerivationRequestInKeySpace| !k.eqv(&k2) implies spec_cursor(
                self.map@,
                k2,
            ) == spec_cursor(old(self).map@, k2) by {
                if self.map@[0].0.eqv(&k2) {
                    assert(k.eqv(&k2));
                }
            }
        }
    }
}

/// The policy deciding when a scan has produced enough material. Every
/// implementation's executable answer must agree with its own `done_spec`.
pub trait IsDerivationDoneQuery {
    spec fn done_spec(&self, analysis: &IntermediaryDerivationsAndAnalysis) -> bool;

    fn is_done(&self, analysis: &IntermediaryDerivationsAndAnalysis) -> (r: Result<
        bool,
        CommonError,
    >)
        requires
            analysis.wf(),
        ensures
            r is Ok ==> r->Ok_0 == self.done_spec(analysis),
    ;
}

/// Satisfied immediately after one derivation round: used when the caller
/// needs exactly the instances of a single, fully specified request.
#[derive(Clone, Copy, Debug)]
pub struct AlwaysDone;

impl IsDerivationDoneQuery for AlwaysDone {
    open spec fn done_spec(&self, analysis: &IntermediaryDerivationsAndAnalysis) -> bool {
        true
    }

    fn is_done(&self, analysis: &IntermediaryDerivationsAndAnalysis) -> (r: Result<
        bool,
        CommonError,
    >)
        ensures
            r is Ok,
    {
        Ok(true)
    }
}

/// Satisfied once the accumulated free result holds an instance answering
/// one specific abstract request: a fresh account must be backed by an
/// instance that is not already in use.
#[derive(Debug)]
pub struct WhenMatchingSingle {
    pub request: DerivationRequestInKeySpace,
}

impl IsDerivationDoneQuery for WhenMatchingSingle {
    open spec fn done_spec(&self, analysis: &IntermediaryDerivationsAndAnalysis) -> bool {
        exists|i: int|
            0 <= i < analysis.probably_free.0@.len() && (
            #[trigger] analysis.probably_free.0@[i]).spec_derivation_in_key_space().eqv(
                &self.request,
            )
    }

    fn is_done(&self, analysis: &IntermediaryDerivationsAndAnalysis) -> (r: Result<
        bool,
        CommonError,
    >)
        ensures
            r is Ok,
    {
        let free = &analysis.probably_free.0;
        let n = free.len();
        for i in 0..n
            invariant
                n == free@.len(),
                analysis.wf(),
                free == &analysis.probably_free.0,
                forall|j: int|
                    0 <= j < i ==> !(#[trigger] free@[j]).spec_derivation_in_key_space().eqv(
                        &self.request,
                    ),
        {
            let erased = free[i].derivation_in_key_space();
            if erased == self.request {
                return Ok(true);
            }
        }
        Ok(false)
    }
}

/// Whether a free instance counts towards a selector's batch: its path
/// matches and it lives in the unsecurified key space.
pub open spec fn free_counts_for(x: FactorInstance, selector: FactorSourceSelector) -> bool {
    selector.spec_matches(x.derivation_path) && x.spec_key_space() == KeySpace::Unsecurified
}

/// How many accumulated free instances count towards the selector.
pub open spec fn count_free_matching(s: Seq<FactorInstance>, selector: FactorSourceSelector) -> nat
    decreases s.len(),
{
    if s.len() == 0 {
        0nat
    } else {
        count_free_matching(s.drop_last(), selector) + (if free_counts_for(s.last(), selector) {
            1nat
        } else {
            0nat
        })
    }
}

/// How many known-taken unsecurified instances count towards the selector.
pub open spec fn count_taken_matching(
    s: Seq<FactorInstanceInUnsecurifiedSpace>,
    selector: FactorSourceSelector,
) -> nat
    decreases s.len(),
{
    if s.len() == 0 {
        0nat
    } else {
        count_taken_matching(s.drop_last(), selector) + (if selector.spec_matches(
            s.last().factor_instance.derivation_path,
        ) {
            1nat
        } else {
            0nat
        })
    }
}

/// Satisfied once the count of accumulated unsecurified instances whose
/// derivation path matches the selector reaches the selector's per-kind
/// batch size: used for onboarding and manual recovery scans and for
/// pre-deriving a batch for a new factor source.
#[derive(Debug)]
pub struct WhenDerivedInstancesForFactorSource {
    pub factor_source_selector: FactorSourceSelector,
}

impl WhenDerivedInstancesForFactorSource {
    /// All accumulated unsecurified instances matching the selector.
    pub open spec fn spec_count(&self, analysis: &IntermediaryDerivationsAndAnalysis) -> nat {
        count_taken_matching(
            analysis.derived_instances.unsecurified_factor_instances@,
            self.factor_source_selector,
        ) + count_free_matching(analysis.probably_free.0@, self.factor_source_selector)
    }
}

impl IsDerivationDoneQuery for WhenDerivedInstancesForFactorSource {
    open spec fn done_spec(&self, analysis: &IntermediaryDerivationsAndAnalysis) -> bool {
        self.spec_count(analysis)
            >= self.factor_source_selector.spec_kind().spec_derivation_batch_size()
    }

    fn is_done(&self, analysis: &IntermediaryDerivationsAndAnalysis) -> (r: Result<
        bool,
        CommonError,
    >)
        ensures
            r is Ok,
    {
        let expected_count = self.factor_source_kind_batch();
        let taken = &analysis.derived_instances.unsecurified_factor_instances;
        let n = taken.len();
        let mut count_taken: usize = 0;
        for i in 0..n
            invariant
                n == taken@.len(),
                taken == &analysis.derived_instances.unsecurified_factor_instances,
                count_taken <= i,
                count_taken == count_taken_matching(taken@.take(i as int), self.factor_source_selector),
        {
            proof {
                assert(taken@.take(i + 1).drop_last() =~= taken@.take(i as int));
                assert(taken@.take(i + 1).last() == taken@[i as int]);
            }
            if self.factor_source_selector.matches_derivation_path(
                &taken[i].factor_instance.derivation_path,
            ) {
                count_taken = count_taken + 1;
            }
        }
        proof {
            assert(taken@.take(n as int) =~= taken@);
        }
        let free = &analysis.probably_free.0;
        let m = free.len();
        let mut count_free: usize = 0;
        for i in 0..m
            invariant
                m == free@.len(),
                free == &analysis.probably_free.0,
                count_free <= i,
                count_free == count_free_matching(free@.take(i as int), self.factor_source_selector),
        {
            proof {
                assert(free@.take(i + 1).drop_last() =~= free@.take(i as int));
                assert(free@.take(i + 1).last() == free@[i as int]);
            }
            if self.factor_source_selector.matches_derivation_path(&free[i].derivation_path)
                && free[i].key_space() == KeySpace::Unsecurified {
                count_free = count_free + 1;
            }
        }
        proof {
            assert(free@.take(m as int) =~= free@);
        }
        let total = (count_taken as u128) + (count_free as u128);
        Ok(total >= expected_count as u128)
    }
}

impl WhenDerivedInstancesForFactorSource {
    /// The batch size demanded by the selector's factor source kind.
    fn factor_source_kind_batch(&self) -> (r: usize)
        ensures
            r == self.factor_source_selector.spec_kind().spec_derivation_batch_size(),
    {
        self.factor_source_selector.factor_source_kind().derivation_batch_size()
    }
}

/// Law: the per-source-count policy for a device source turns exactly at
/// its batch of twenty — it is not satisfied with nineteen accumulated
/// matching instances, and is satisfied with twenty.
pub proof fn lemma_device_count_threshold(
    query: WhenDerivedInstancesForFactorSource,
    analysis: IntermediaryDerivationsAndAnalysis,
)
    requires
        query.factor_source_selector.spec_kind() == FactorSourceKind::Device,
    ensures
        query.spec_count(&analysis) == 19 ==> !query.done_spec(&analysis),
        query.spec_count(&analysis) == 20 ==> query.done_spec(&analysis),
{
}

/// Law: accumulating more instances never turns the per-source-count
/// policy's verdict from satisfied to unsatisfied — extending either pool
/// can only grow the matching count.
pub proof fn lemma_count_policy_monotone(
    query: WhenDerivedInstancesForFactorSource,
    before: IntermediaryDerivationsAndAnalysis,
    after: IntermediaryDerivationsAndAnalysis,
)
    requires
        before.derived_instances.unsecurified_factor_instances@.is_prefix_of(
            after.derived_instances.unsecurified_factor_instances@,
        ),
        before.probably_free.0@.is_prefix_of(after.probably_free.0@),
    ensures
        query.done_spec(&before) ==> query.done_spec(&after),
{
    lemma_count_taken_prefix(
        after.derived_instances.unsecurified_factor_instances@,
        query.factor_source_selector,
        before.derived_instances.unsecurified_factor_instances@.len() as int,
    );
    lemma_count_free_prefix(
        after.probably_free.0@,
        query.factor_source_selector,
        before.probably_free.0@.len() as int,
    );
    assert(before.derived_instances.unsecurified_factor_instances@
        =~= after.derived_instances.unsecurified_factor_instances@.take(
        before.derived_instances.unsecurified_factor_instances@.len() as int,
    ));
    assert(before.probably_free.0@ =~= after.probably_free.0@.take(
        before.probably_free.0@.len() as int,
    ));
}

/// A prefix never counts more matches than the whole.
proof fn lemma_count_free_prefix(s: Seq<FactorInstance>, selector: FactorSourceSelector, n: int)
    requires
        0 <= n <= s.len(),
    ensures
        count_free_matching(s.take(n), selector) <= count_free_matching(s, selector),
    decreases s.len() - n,
{
    if n < s.len() {
        assert(s.take(n + 1).drop_last() =~= s.take(n));
        assert(s.take(n + 1).last() == s[n]);
        lemma_count_free_prefix(s, selector, n + 1);
    } else {
        assert(s.take(n) =~= s);
    }
}

/// A prefix never counts more matches than the whole.
proof fn lemma_count_taken_prefix(
    s: Seq<FactorInstanceInUnsecurifiedSpace>,
    selector: FactorSourceSelector,
    n: int,
)
    requires
        0 <= n <= s.len(),
    ensures
        count_taken_matching(s.take(n), selector) <= count_taken_matching(s, selector),
    decreases s.len() - n,
{
    if n < s.len() {
        assert(s.take(n + 1).drop_last() =~= s.take(n));
        assert(s.take(n + 1).last() == s[n]);
        lemma_count_taken_prefix(s, selector, n + 1);
    } else {
        assert(s.take(n) =~= s);
    }
}

/// The most rounds of the derive/check cycle one scan may run.
pub const MAX_DERIVATION_ROUNDS: usize = 32;

/// Offsets beyond this ceiling abort the scan; it is far above anything
/// the bounded loop can reach, and keeps every derived index inside its
/// key space.
const CURSOR_CEILING: u32 = 0x1000_0000;

/// The shape every request issued by a scan has: an account transaction
/// signing key for one factor source, network and key space.
pub open spec fn request_shape(
    r: DerivationRequestInKeySpace,
    factor_source_id: FactorSourceIDFromHash,
    network_id: NetworkID,
    key_space: KeySpace,
) -> bool {
    &&& r.abstract_factor.eqv(&factor_source_id)
    &&& r.network_id == network_id
    &&& r.entity_kind == CAP26EntityKind::Account
    &&& r.key_kind == CAP26KeyKind::T9n
    &&& r.key_space == key_space
    &&& r.abstract_last_component == key_space
    &&& r.wf()
}

/// The requests a securify flow opens with: one securified request per
/// factor source of the policy, each source asked once.
pub open spec fn securify_requests_shape(
    rs: Seq<DerivationRequestInKeySpace>,
    matrix: &MatrixOfFactorSources,
    network_id: NetworkID,
) -> bool {
    &&& forall|i: int|
        #![trigger rs[i]]
        0 <= i < rs.len() ==> rs[i].wf() && rs[i].network_id == network_id && rs[i].entity_kind
            == CAP26EntityKind::Account && rs[i].key_kind == CAP26KeyKind::T9n && rs[i].key_space
            == KeySpace::Securified && rs[i].abstract_last_component == KeySpace::Securified
            && sources_has(
            matrix.threshold_factors@ + matrix.override_factors@,
            (FactorSource { factor_source_id: rs[i].abstract_factor }),
        )
    &&& forall|j: int|
        #![trigger (matrix.threshold_factors@ + matrix.override_factors@)[j]]
        0 <= j < (matrix.threshold_factors@ + matrix.override_factors@).len() ==> seq_has_req(
            rs,
            spec_account_request(
                (matrix.threshold_factors@ + matrix.override_factors@)[j].factor_source_id,
                network_id,
                KeySpace::Securified,
            ),
        )
}

/// The request for an account transaction-signing key of one factor
/// source, network and key space.
pub open spec fn spec_account_request(
    factor_source_id: FactorSourceIDFromHash,
    network_id: NetworkID,
    key_space: KeySpace,
) -> DerivationRequestInKeySpace {
    DerivationRequestAbstractFactorAbstractIndex {
        abstract_factor: factor_source_id,
        network_id,
        entity_kind: CAP26EntityKind::Account,
        key_kind: CAP26KeyKind::T9n,
        key_space,
        abstract_last_component: key_space,
    }
}

/// Whether `k` is the securified signing request of some source of the
/// policy, on the given network.
pub open spec fn some_policy_source_requests(
    matrix: &MatrixOfFactorSources,
    network_id: NetworkID,
    k: DerivationRequestInKeySpace,
) -> bool {
    exists|a: int|
        0 <= a < (matrix.threshold_factors@ + matrix.override_factors@).len() && k.eqv(
            &spec_account_request(
                (#[trigger] (matrix.threshold_factors@ + matrix.override_factors@)[a]).factor_source_id,
                network_id,
                KeySpace::Securified,
            ),
        )
}

/// Whether `k` is one of the abstract requests the request kind demands.
pub open spec fn kind_has_request(
    kind: &PolyDeriveRequestKind,
    k: DerivationRequestInKeySpace,
) -> bool {
    match kind {
        PolyDeriveRequestKind::OARS { factor_sources } => exists|a: int|
            0 <= a < factor_sources.0@.len() && k.eqv(
                &spec_account_request(
                    (#[trigger] factor_sources.0@[a]).factor_source_id,
                    NetworkID::Mainnet,
                    KeySpace::Unsecurified,
                ),
            ),
        PolyDeriveRequestKind::MARS { factor_source, network_id } => k.eqv(
            &spec_account_request(
                factor_source.factor_source_id,
                *network_id,
                KeySpace::Unsecurified,
            ),
        ),
        PolyDeriveRequestKind::PreDeriveInstancesForNewFactorSource { factor_source } => k.eqv(
            &spec_account_request(
                factor_source.factor_source_id,
                NetworkID::Mainnet,
                KeySpace::Unsecurified,
            ),
        ),
        PolyDeriveRequestKind::NewVirtualUnsecurifiedAccount { network_id, factor_source } => k.eqv(
            &spec_account_request(
                factor_source.factor_source_id,
                *network_id,
                KeySpace::Unsecurified,
            ),
        ),
        PolyDeriveRequestKind::SecurifyUnsecurifiedAccount {
            unsecurified_account,
            matrix_of_factor_sources,
        } => some_policy_source_requests(
            matrix_of_factor_sources,
            unsecurified_account.address.network_id,
            k,
        ),
        PolyDeriveRequestKind::UpdateSecurifiedAccount {
            securified_account,
            matrix_of_factor_sources,
        } => some_policy_source_requests(
            matrix_of_factor_sources,
            securified_account.address.network_id,
            k,
        ),
    }
}

/// Whether the scan's accumulation answers the abstract request `k`, with
/// a probably-free or a known-taken instance.
pub open spec fn accumulated_for_request(
    a: IntermediaryDerivationsAndAnalysis,
    k: DerivationRequestInKeySpace,
) -> bool {
    ||| exists|i: int|
        0 <= i < a.probably_free.0@.len() && (
        #[trigger] a.probably_free.0@[i]).spec_derivation_in_key_space().eqv(&k)
    ||| exists|i: int|
        0 <= i < a.derived_instances.unsecurified_factor_instances@.len() && (
        #[trigger] a.derived_instances.unsecurified_factor_instances@[i]).factor_instance.spec_derivation_in_key_space().eqv(
            &k,
        )
}

/// Value-equal instances are accumulated alike.
proof fn lemma_analysis_has_congruent(
    a: IntermediaryDerivationsAndAnalysis,
    x1: FactorInstance,
    x2: FactorInstance,
)
    requires
        x1.eqv(&x2),
    ensures
        a.spec_has_instance(x1) == a.spec_has_instance(x2),
{
    if pool_has(a.probably_free.0@, x1) {
        let l = choose|l: int|
            0 <= l < a.probably_free.0@.len() && (#[trigger] a.probably_free.0@[l]).eqv(&x1);
        assert(a.probably_free.0@[l].eqv(&x2));
    }
    if pool_has(a.probably_free.0@, x2) {
        let l = choose|l: int|
            0 <= l < a.probably_free.0@.len() && (#[trigger] a.probably_free.0@[l]).eqv(&x2);
        assert(a.probably_free.0@[l].eqv(&x1));
    }
    if wrapped_pool_has(a.derived_instances.unsecurified_factor_instances@, x1) {
        let taken = a.derived_instances.unsecurified_factor_instances@;
        let l = choose|l: int|
            0 <= l < taken.len() && (#[trigger] taken[l]).factor_instance.eqv(&x1);
        assert(taken[l].factor_instance.eqv(&x2));
    }
    if wrapped_pool_has(a.derived_instances.unsecurified_factor_instances@, x2) {
        let taken = a.derived_instances.unsecurified_factor_instances@;
        let l = choose|l: int|
            0 <= l < taken.len() && (#[trigger] taken[l]).factor_instance.eqv(&x2);
        assert(taken[l].factor_instance.eqv(&x1));
    }
}

/// The abstract requests a request kind opens with: one unsecurified
/// signing-key request per factor source in play, or, when securifying,
/// one securified request per factor source of the matrix policy.
pub fn initial_requests(request_kind: &PolyDeriveRequestKind) -> (r: Vec<
    DerivationRequestInKeySpace,
>)
    ensures
        forall|i: int| 0 <= i < r@.len() ==> (#[trigger] r@[i]).wf(),
        forall|i: int|
            #![trigger r@[i]]
            0 <= i < r@.len() ==> r@[i].abstract_last_component == r@[i].key_space
                && kind_has_request(request_kind, r@[i]),
        forall|k: DerivationRequestInKeySpace|
            #![trigger kind_has_request(request_kind, k)]
            kind_has_request(request_kind, k) ==> seq_has_req(r@, k),
        match request_kind {
            PolyDeriveRequestKind::OARS { factor_sources } => {
                &&& r@.len() == factor_sources.0@.len()
                &&& forall|i: int|
                    0 <= i < r@.len() ==> request_shape(
                        #[trigger] r@[i],
                        factor_sources.0@[i].factor_source_id,
                        NetworkID::Mainnet,
                        KeySpace::Unsecurified,
                    )
            },
            PolyDeriveRequestKind::MARS { factor_source, network_id } => r@.len() == 1
                && request_shape(
                r@[0],
                factor_source.factor_source_id,
                *network_id,
                KeySpace::Unsecurified,
            ),
            PolyDeriveRequestKind::PreDeriveInstancesForNewFactorSource { factor_source } => r@.len()
                == 1 && request_shape(
                r@[0],
                factor_source.factor_source_id,
                NetworkID::Mainnet,
                KeySpace::Unsecurified,
            ),
            PolyDeriveRequestKind::NewVirtualUnsecurifiedAccount { network_id, factor_source } => r@.len()
                == 1 && request_shape(
                r@[0],
                factor_source.factor_source_id,
                *network_id,
                KeySpace::Unsecurified,
            ),
            PolyDeriveRequestKind::SecurifyUnsecurifiedAccount {
                unsecurified_account,
                matrix_of_factor_sources,
            } => securify_requests_shape(
                r@,
                matrix_of_factor_sources,
                unsecurified_account.address.network_id,
            ),
            PolyDeriveRequestKind::UpdateSecurifiedAccount {
                securified_account,
                matrix_of_factor_sources,
            } => securify_requests_shape(
                r@,
                matrix_of_factor_sources,
                securified_account.address.network_id,
            ),
        },
{
    match request_kind {
        PolyDeriveRequestKind::OARS { factor_sources } => {
            let n = factor_sources.0.len();
            let mut out: Vec<DerivationRequestInKeySpace> = Vec::new();
            for i in 0..n
                invariant
                    n == factor_sources.0@.len(),
                    out@.len() == i,
                    forall|j: int|
                        0 <= j < i ==> request_shape(
                            #[trigger] out@[j],
                            factor_sources.0@[j].factor_source_id,
                            NetworkID::Mainnet,
                            KeySpace::Unsecurified,
                        ),
            {
                out.push(
                    DerivationRequestInKeySpace::new(
                        factor_sources.0[i].factor_source_id.clone(),
                        NetworkID::Mainnet,
                        CAP26EntityKind::Account,
                        CAP26KeyKind::T9n,
                        KeySpace::Unsecurified,
                    ),
                );
            }
            proof {
                assert forall|i: int| 0 <= i < out@.len() implies kind_has_request(
                    request_kind,
                    #[trigger] out@[i],
                ) by {
                    assert(out@[i].eqv(
                        &spec_account_request(
                            factor_sources.0@[i].factor_source_id,
                            NetworkID::Mainnet,
                            KeySpace::Unsecurified,
                        ),
                    ));
                }
                assert forall|k: DerivationRequestInKeySpace|
                    #![trigger kind_has_request(request_kind, k)]
                    kind_has_request(request_kind, k) implies seq_has_req(out@, k) by {
                    let a = choose|a: int|
                        0 <= a < factor_sources.0@.len() && k.eqv(
                            &spec_account_request(
                                (#[trigger] factor_sources.0@[a]).factor_source_id,
                                NetworkID::Mainnet,
                                KeySpace::Unsecurified,
                            ),
                        );
                    assert(out@[a].eqv(&k));
                }
            }
            out
        },
        PolyDeriveRequestKind::MARS { factor_source, network_id } => {
            let mut out: Vec<DerivationRequestInKeySpace> = Vec::new();
            out.push(
                DerivationRequestInKeySpace::new(
                    factor_source.factor_source_id.clone(),
                    *network_id,
                    CAP26EntityKind::Account,
                    CAP26KeyKind::T9n,
                    KeySpace::Unsecurified,
                ),
            );
            proof {
                assert(out@[0].eqv(
                    &spec_account_request(factor_source.factor_source_id, *network_id, KeySpace::Unsecurified),
                ));
                assert(kind_has_request(request_kind, out@[0]));
                assert forall|k: DerivationRequestInKeySpace|
                    #![trigger kind_has_request(request_kind, k)]
                    kind_has_request(request_kind, k) implies seq_has_req(out@, k) by {
                    assert(out@[0].eqv(&k));
                }
            }
            out
        },
        PolyDeriveRequestKind::PreDeriveInstancesForNewFactorSource { factor_source } => {
            let mut out: Vec<DerivationRequestInKeySpace> = Vec::new();
            out.push(
                DerivationRequestInKeySpace::new(
                    factor_source.factor_source_id.clone(),
                    NetworkID::Mainnet,
                    CAP26EntityKind::Account,
                    CAP26KeyKind::T9n,
                    KeySpace::Unsecurified,
                ),
            );
            proof {
                assert(out@[0].eqv(
                    &spec_account_request(factor_source.factor_source_id, NetworkID::Mainnet, KeySpace::Unsecurified),
                ));
                assert(kind_has_request(request_kind, out@[0]));
                assert forall|k: DerivationRequestInKeySpace|
                    #![trigger kind_has_request(request_kind, k)]
                    kind_has_request(request_kind, k) implies seq_has_req(out@, k) by {
                    assert(out@[0].eqv(&k));
                }
            }
            out
        },
        PolyDeriveRequestKind::NewVirtualUnsecurifiedAccount { network_id, factor_source } => {
            let mut out: Vec<DerivationRequestInKeySpace> = Vec::new();
            out.push(
                DerivationRequestInKeySpace::new(
                    factor_source.factor_source_id.clone(),
                    *network_id,
                    CAP26EntityKind::Account,
                    CAP26KeyKind::T9n,
                    KeySpace::Unsecurified,
                ),
            );
            proof {
                assert(out@[0].eqv(
                    &spec_account_request(factor_source.factor_source_id, *network_id, KeySpace::Unsecurified),
                ));
                assert(kind_has_request(request_kind, out@[0]));
                assert forall|k: DerivationRequestInKeySpace|
                    #![trigger kind_has_request(request_kind, k)]
                    kind_has_request(request_kind, k) implies seq_has_req(out@, k) by {
                    assert(out@[0].eqv(&k));
                }
            }
            out
        },
        PolyDeriveRequestKind::SecurifyUnsecurifiedAccount {
            unsecurified_account,
            matrix_of_factor_sources,
        } => {
            let out = securify_requests(
                matrix_of_factor_sources,
                unsecurified_account.address.network_id,
            );
            proof {
                lemma_securify_requests_characterize(
                    out@,
                    matrix_of_factor_sources,
                    unsecurified_account.address.network_id,
                );
            }
            out
        },
        PolyDeriveRequestKind::UpdateSecurifiedAccount {
            securified_account,
            matrix_of_factor_sources,
        } => {
            let out = securify_requests(
                matrix_of_factor_sources,
                securified_account.address.network_id,
            );
            proof {
                lemma_securify_requests_characterize(
                    out@,
                    matrix_of_factor_sources,
                    securified_account.address.network_id,
                );
            }
            out
        },
    }
}

fn securify_requests(matrix: &MatrixOfFactorSources, network_id: NetworkID) -> (r: Vec<
    DerivationRequestInKeySpace,
>)
    ensures
        forall|i: int| 0 <= i < r@.len() ==> (#[trigger] r@[i]).wf(),
        securify_requests_shape(r@, matrix, network_id),
{
    let all = matrix.all_factor_sources();
    let n = all.0.len();
    let mut out: Vec<DerivationRequestInKeySpace> = Vec::new();
    for i in 0..n
        invariant
            n == all.0@.len(),
            out@.len() == i,
            forall|j: int|
                0 <= j < i ==> request_shape(
                    #[trigger] out@[j],
                    all.0@[j].factor_source_id,
                    network_id,
                    KeySpace::Securified,
                ),
    {
        out.push(
            DerivationRequestInKeySpace::new(
                all.0[i].factor_source_id.clone(),
                network_id,
                CAP26EntityKind::Account,
                CAP26KeyKind::T9n,
                KeySpace::Securified,
            ),
        );
    }
    proof {
        assert forall|i: int| #![trigger out@[i]] 0 <= i < out@.len() implies out@[i].wf()
            && out@[i].network_id == network_id && out@[i].entity_kind == CAP26EntityKind::Account
            && out@[i].key_kind == CAP26KeyKind::T9n && out@[i].key_space == KeySpace::Securified
            && out@[i].abstract_last_component == KeySpace::Securified && sources_has(
            matrix.threshold_factors@ + matrix.override_factors@,
            (FactorSource { factor_source_id: out@[i].abstract_factor }),
        ) by {
            assert(all.0@[i].eqv(&all.0@[i]));
            assert(sources_has(all.0@, all.0@[i]));
            assert(sources_has(matrix.threshold_factors@ + matrix.override_factors@, all.0@[i]));
            let j = choose|j: int|
                0 <= j < (matrix.threshold_factors@ + matrix.override_factors@).len() && (
                #[trigger] (matrix.threshold_factors@ + matrix.override_factors@)[j]).eqv(
                    &all.0@[i],
                );
            assert((matrix.threshold_factors@ + matrix.override_factors@)[j].eqv(
                &(FactorSource { factor_source_id: out@[i].abstract_factor }),
            ));
        }
        assert forall|j: int|
            #![trigger (matrix.threshold_factors@ + matrix.override_factors@)[j]]
            0 <= j < (matrix.threshold_factors@ + matrix.override_factors@).len() implies
            seq_has_req(
            out@,
            spec_account_request(
                (matrix.threshold_factors@ + matrix.override_factors@)[j].factor_source_id,
                network_id,
                KeySpace::Securified,
            ),
        ) by {
            let src = (matrix.threshold_factors@ + matrix.override_factors@)[j];
            assert(src.eqv(&src));
            assert(sources_has(matrix.threshold_factors@ + matrix.override_factors@, src));
            assert(sources_has(all.0@, src));
            let i = choose|i: int| 0 <= i < all.0@.len() && (#[trigger] all.0@[i]).eqv(&src);
            assert(out@[i].eqv(
                &spec_account_request(src.factor_source_id, network_id, KeySpace::Securified),
            ));
        }
    }
    out
}

/// Requests of a securify flow, characterized pointwise: each is the
/// securified signing request of some policy source, and every policy
/// source's request occurs.
proof fn lemma_securify_requests_characterize(
    rs: Seq<DerivationRequestInKeySpace>,
    matrix: &MatrixOfFactorSources,
    network_id: NetworkID,
)
    requires
        securify_requests_shape(rs, matrix, network_id),
    ensures
        forall|i: int|
            #![trigger rs[i]]
            0 <= i < rs.len() ==> some_policy_source_requests(matrix, network_id, rs[i]),
        forall|k: DerivationRequestInKeySpace|
            #![trigger some_policy_source_requests(matrix, network_id, k)]
            some_policy_source_requests(matrix, network_id, k) ==> seq_has_req(rs, k),
{
    assert forall|i: int| #![trigger rs[i]] 0 <= i < rs.len() implies some_policy_source_requests(
        matrix,
        network_id,
        rs[i],
    ) by {
        assert(sources_has(
            matrix.threshold_factors@ + matrix.override_factors@,
            (FactorSource { factor_source_id: rs[i].abstract_factor }),
        ));
        let a = choose|a: int|
            0 <= a < (matrix.threshold_factors@ + matrix.override_factors@).len() && (#[trigger] (
            matrix.threshold_factors@ + matrix.override_factors@)[a]).eqv(
                &(FactorSource { factor_source_id: rs[i].abstract_factor }),
            );
        assert(rs[i].eqv(
            &spec_account_request(
                (matrix.threshold_factors@ + matrix.override_factors@)[a].factor_source_id,
                network_id,
                KeySpace::Securified,
            ),
        ));
    }
    assert forall|k: DerivationRequestInKeySpace|
        #![trigger some_policy_source_requests(matrix, network_id, k)]
        some_policy_source_requests(matrix, network_id, k) implies seq_has_req(rs, k) by {
        let a = choose|a: int|
            0 <= a < (matrix.threshold_factors@ + matrix.override_factors@).len() && k.eqv(
                &spec_account_request(
                    (#[trigger] (matrix.threshold_factors@ + matrix.override_factors@)[a]).factor_source_id,
                    network_id,
                    KeySpace::Securified,
                ),
            );
        assert(seq_has_req(
            rs,
            spec_account_request(
                (matrix.threshold_factors@ + matrix.override_factors@)[a].factor_source_id,
                network_id,
                KeySpace::Securified,
            ),
        ));
        let w = choose|w: int|
            0 <= w < rs.len() && (#[trigger] rs[w]).eqv(
                &spec_account_request(
                    (matrix.threshold_factors@ + matrix.override_factors@)[a].factor_source_id,
                    network_id,
                    KeySpace::Securified,
                ),
            );
        assert(rs[w].eqv(&k));
    }
}

/// Record a candidate as probably free — unless the scan already counts
/// it among the taken instances, in which case it is in use, not free.
fn absorb_free_instance(analysis: &mut IntermediaryDerivationsAndAnalysis, x: FactorInstance)
    requires
        old(analysis).wf(),
        old(analysis).taken_free_disjoint(),
        x.wf(),
    ensures
        final(analysis).wf(),
        final(analysis).taken_free_disjoint(),
        final(analysis).derived_instances == old(analysis).derived_instances,
        !wrapped_pool_has(
            old(analysis).derived_instances.unsecurified_factor_instances@,
            x,
        ) ==> pool_has(final(analysis).probably_free.0@, x),
        wrapped_pool_has(old(analysis).derived_instances.unsecurified_factor_instances@, x)
            ==> final(analysis).probably_free.0@ == old(analysis).probably_free.0@,
        forall|y: FactorInstance|
            #![trigger pool_has(final(analysis).probably_free.0@, y)]
            pool_has(final(analysis).probably_free.0@, y) == (pool_has(
                old(analysis).probably_free.0@,
                y,
            ) || (!wrapped_pool_has(
                old(analysis).derived_instances.unsecurified_factor_instances@,
                x,
            ) && y.eqv(&x))),
{
    if !analysis.derived_instances.contains_instance(&x) {
        let ghost prev = analysis.probably_free.0@;
        analysis.probably_free.push_if_absent(x);
        proof {
            if !pool_has(prev, x) {
                assert(analysis.probably_free.0@[prev.len() as int].eqv(&x));
            }
            assert forall|y: FactorInstance| pool_has(analysis.probably_free.0@, y) == (pool_has(
                prev,
                y,
            ) || y.eqv(&x)) by {
                if pool_has(analysis.probably_free.0@, y) {
                    let l = choose|l: int|
                        0 <= l < analysis.probably_free.0@.len() && (
                        #[trigger] analysis.probably_free.0@[l]).eqv(&y);
                    if l < prev.len() {
                        assert(prev[l].eqv(&y));
                    } else {
                        assert(analysis.probably_free.0@[l] == x);
                    }
                }
                if pool_has(prev, y) {
                    let l = choose|l: int| 0 <= l < prev.len() && (#[trigger] prev[l]).eqv(&y);
                    assert(analysis.probably_free.0@[l].eqv(&y));
                }
                if y.eqv(&x) && pool_has(prev, x) {
                    let l = choose|l: int| 0 <= l < prev.len() && (#[trigger] prev[l]).eqv(&x);
                    assert(prev[l].eqv(&y));
                }
            }
            assert forall|i: int|
                0 <= i < analysis.derived_instances.unsecurified_factor_instances@.len() implies
                !pool_has(
                analysis.probably_free.0@,
                (#[trigger] analysis.derived_instances.unsecurified_factor_instances@[i]).factor_instance,
            ) by {
                let fi =
                    analysis.derived_instances.unsecurified_factor_instances@[i].factor_instance;
                if pool_has(analysis.probably_free.0@, fi) {
                    let l = choose|l: int|
                        0 <= l < analysis.probably_free.0@.len() && (
                        #[trigger] analysis.probably_free.0@[l]).eqv(&fi);
                    if l < prev.len() {
                        assert(pool_has(prev, fi));
                    } else {
                        assert(analysis.probably_free.0@[l] == x);
                        assert(analysis.derived_instances.unsecurified_factor_instances@[i].factor_instance.eqv(
                            &x,
                        ));
                        assert(wrapped_pool_has(
                            analysis.derived_instances.unsecurified_factor_instances@,
                            x,
                        ));
                    }
                }
            }
        }
    }
}

/// Whether the wallet profile behind the analyzer already has an account
/// at the address that `x`'s public key yields on its own network.
pub open spec fn spec_profile_reports_taken(
    profile_analyser: &ProfileAnalyzer,
    x: FactorInstance,
) -> bool {
    match profile_analyser.profile {
        Some(p) => exists|i: int|
            0 <= i < p.accounts@.len() && (#[trigger] p.accounts@[i]).spec_address().network_id
                == x.derivation_path.network_id
                && p.accounts@[i].spec_address().public_key_hash.bytes@
                == crate::hashing::public_key_hash_bytes(x.public_key.bytes@),
        None => false,
    }
}

/// Classify one freshly derived instance: an address that the profile or
/// the ledger knows is taken, anything else is probably free. The profile
/// decides first; the ledger is asked only for addresses the profile does
/// not know, and its failure aborts the scan rather than guessing that
/// the instance is free.
fn classify_and_absorb<G: Gateway>(
    onchain_analyser: &OnChainAnalyzer<G>,
    profile_analyser: &ProfileAnalyzer,
    analysis: &mut IntermediaryDerivationsAndAnalysis,
    x: FactorInstance,
) -> (r: Result<(), CommonError>)
    requires
        old(analysis).wf(),
        old(analysis).taken_free_disjoint(),
        x.wf(),
    ensures
        final(analysis).wf(),
        final(analysis).taken_free_disjoint(),
        // The two pools only ever gain, and gain nothing but `x`.
        forall|y: FactorInstance|
            #![trigger pool_has(final(analysis).probably_free.0@, y)]
            #![trigger pool_has(old(analysis).probably_free.0@, y)]
            pool_has(final(analysis).probably_free.0@, y) == (pool_has(
                old(analysis).probably_free.0@,
                y,
            ) || (pool_has(final(analysis).probably_free.0@, x) && y.eqv(&x))),
        forall|y: FactorInstance|
            #![trigger wrapped_pool_has(final(analysis).derived_instances.unsecurified_factor_instances@, y)]
            #![trigger wrapped_pool_has(old(analysis).derived_instances.unsecurified_factor_instances@, y)]
            wrapped_pool_has(final(analysis).derived_instances.unsecurified_factor_instances@, y)
                == (wrapped_pool_has(
                old(analysis).derived_instances.unsecurified_factor_instances@,
                y,
            ) || (wrapped_pool_has(
                final(analysis).derived_instances.unsecurified_factor_instances@,
                x,
            ) && y.eqv(&x))),
        final(analysis).derived_instances.securified_matrices_of_factor_instances@
            == old(analysis).derived_instances.securified_matrices_of_factor_instances@,
        // A candidate the scan already knows changes nothing.
        old(analysis).spec_has_instance(x) ==> r is Ok
            && final(analysis).probably_free.0@ == old(analysis).probably_free.0@
            && final(analysis).derived_instances == old(analysis).derived_instances,
        // An address the profile knows is taken, never asked of the ledger.
        !old(analysis).spec_has_instance(x) && spec_profile_reports_taken(profile_analyser, x)
            ==> r is Ok && final(analysis).probably_free.0@ == old(analysis).probably_free.0@ && (
        x.spec_key_space() == KeySpace::Unsecurified ==> wrapped_pool_has(
            final(analysis).derived_instances.unsecurified_factor_instances@,
            x,
        )),
        // Without a gateway, an address the profile does not know is free.
        !old(analysis).spec_has_instance(x) && !spec_profile_reports_taken(profile_analyser, x)
            && onchain_analyser.gateway is None ==> r is Ok && pool_has(
            final(analysis).probably_free.0@,
            x,
        ) && final(analysis).derived_instances == old(analysis).derived_instances,
        // Whatever the ledger answered: an unsecurified candidate is never
        // dropped, and a failure leaves the scan's accumulation untouched.
        r is Ok && x.spec_key_space() == KeySpace::Unsecurified ==> final(analysis).spec_has_instance(x),
        r is Err ==> final(analysis).probably_free.0@ == old(analysis).probably_free.0@
            && final(analysis).derived_instances == old(analysis).derived_instances,
{
    let known_free = analysis.probably_free.contains_instance(&x);
    let known_taken = analysis.derived_instances.contains_instance(&x);
    if known_free || known_taken {
        proof {
            assert(analysis.spec_has_instance(x));
        }
        return Ok(());
    }
    let network_id = x.derivation_path.network_id;
    let address = AccountAddress::new(&x, network_id);
    let profile_taken = profile_analyser.is_address_taken(&address);
    proof {
        lemma_profile_answer_matches(profile_analyser, x, address, profile_taken);
    }
    if profile_taken {
        absorb_taken_instance(analysis, x);
        return Ok(());
    }
    let chain_taken = match onchain_analyser.is_address_taken(&address) {
        Ok(b) => b,
        Err(e) => {
            return Err(e);
        },
    };
    if chain_taken {
        absorb_taken_instance(analysis, x);
    } else {
        absorb_free_instance(analysis, x);
    }
    Ok(())
}

/// The profile analyzer's answer for an instance's own address is exactly
/// whether the profile holds an account at that address.
proof fn lemma_profile_answer_matches(
    profile_analyser: &ProfileAnalyzer,
    x: FactorInstance,
    address: AccountAddress,
    answer: bool,
)
    requires
        crate::sargon_types::addr_matches_key(
            address,
            x.public_key.bytes@,
            x.derivation_path.network_id,
        ),
        answer == match profile_analyser.profile {
            Some(p) => p.spec_has_address(address),
            None => false,
        },
    ensures
        answer == spec_profile_reports_taken(profile_analyser, x),
{
    match profile_analyser.profile {
        Some(p) => {
            if p.spec_has_address(address) {
                let i = choose|i: int|
                    0 <= i < p.accounts@.len() && (#[trigger] p.accounts@[i]).spec_address().eqv(
                        &address,
                    );
                assert(p.accounts@[i].spec_address().network_id == x.derivation_path.network_id);
                assert(p.accounts@[i].spec_address().public_key_hash.bytes@
                    == crate::hashing::public_key_hash_bytes(x.public_key.bytes@));
            }
            if spec_profile_reports_taken(profile_analyser, x) {
                let i = choose|i: int|
                    0 <= i < p.accounts@.len() && (#[trigger] p.accounts@[i]).spec_address().network_id
                        == x.derivation_path.network_id
                        && p.accounts@[i].spec_address().public_key_hash.bytes@
                        == crate::hashing::public_key_hash_bytes(x.public_key.bytes@);
                assert(p.accounts@[i].spec_address().eqv(&address));
            }
        },
        None => {},
    }
}

/// One `Deriving` step: consult the cache for the request kind's demand,
/// derive fresh instances for every request the cache missed, and fold
/// everything into the accumulated analysis. On success, everything the
/// cache held for the demand is accumulated, and every unsecurified
/// request of the kind is answered by some accumulated instance.
/// Consult the cache for the request kind's demand and absorb whatever it
/// serves into the accumulation, as probably free.
#[verifier::rlimit(100)]
#[verifier::spinoff_prover]
fn consult_cache<'a>(
    request_kind: &PolyDeriveRequestKind,
    cache: &mut Cache,
    analysis: &mut IntermediaryDerivationsAndAnalysis,
) -> (outcome: CacheLoadOutcome)
    requires
        old(cache).wf(),
        old(analysis).wf(),
        old(analysis).taken_free_disjoint(),
        forall|i: int|
            0 <= i < old(analysis).derived_instances.unsecurified_factor_instances@.len()
                ==> !old(cache).spec_has_instance(
                (
                #[trigger] old(analysis).derived_instances.unsecurified_factor_instances@[i]).factor_instance,
            ),
    ensures
        final(cache).wf(),
        final(analysis).wf(),
        final(analysis).taken_free_disjoint(),
        outcome.factor_instances.wf(),
        forall|j: int|
            #![trigger outcome.requests@[j]]
            0 <= j < outcome.requests@.len() ==> outcome.requests@[j].wf()
                && outcome.requests@[j].abstract_last_component == outcome.requests@[j].key_space
                && kind_has_request(request_kind, outcome.requests@[j]),
        forall|k: DerivationRequestInKeySpace|
            #![trigger kind_has_request(request_kind, k)]
            kind_has_request(request_kind, k) ==> seq_has_req(outcome.requests@, k),
        outcome.is_satisfying_all_requests == (forall|j: int|
            0 <= j < outcome.requests@.len() ==> old(cache).spec_has_key(
                #[trigger] outcome.requests@[j],
            )),
        outcome.should_derive_more == !outcome.is_satisfying_all_requests,
        forall|k: DerivationRequestInKeySpace|
            #![trigger outcome.factor_instances.spec_has_key(k)]
            outcome.factor_instances.spec_has_key(k) == (old(cache).spec_has_key(k) && seq_has_req(
                outcome.requests@,
                k,
            )),
        forall|y: FactorInstance|
            #![trigger outcome.factor_instances.spec_has_instance(y)]
            outcome.factor_instances.spec_has_instance(y) == (old(cache).spec_has_instance(y)
                && seq_has_req(outcome.requests@, y.spec_derivation_in_key_space())),
        forall|x: FactorInstance|
            #![trigger final(cache).spec_has_instance(x)]
            final(cache).spec_has_instance(x) ==> old(cache).spec_has_instance(x),
        forall|k: DerivationRequestInKeySpace|
            #![trigger final(cache).spec_has_key(k)]
            seq_has_req(outcome.requests@, k) ==> !final(cache).spec_has_key(k),
        forall|y: FactorInstance|
            #![trigger old(analysis).spec_has_instance(y)]
            old(analysis).spec_has_instance(y) ==> final(analysis).spec_has_instance(y),
        forall|y: FactorInstance|
            #![trigger entries_have_instance(outcome.factor_instances.0@, y)]
            entries_have_instance(outcome.factor_instances.0@, y)
                ==> final(analysis).spec_has_instance(y),
        forall|i: int|
            0 <= i < final(analysis).derived_instances.unsecurified_factor_instances@.len()
                ==> !final(cache).spec_has_instance(
                (
                #[trigger] final(analysis).derived_instances.unsecurified_factor_instances@[i]).factor_instance,
            ),
{
    let requests = initial_requests(request_kind);
    let outcome = cache.load(requests);
    let ghost rq = outcome.requests@;
    proof {
        // Every requested key has been consumed.
        assert forall|k: DerivationRequestInKeySpace|
            #![trigger cache.spec_has_key(k)]
            seq_has_req(rq, k) implies !cache.spec_has_key(k) by {}
        // Known-taken instances stay outside the (shrunken) cache.
        assert forall|i: int|
            0 <= i < analysis.derived_instances.unsecurified_factor_instances@.len() implies
            !cache.spec_has_instance(
            (#[trigger] analysis.derived_instances.unsecurified_factor_instances@[i]).factor_instance,
        ) by {}
    }
    // Instances served from the cache were classified probably-free when
    // they were pooled; absorb them as such.
    let entry_count = outcome.factor_instances.0.len();
    for ei in 0..entry_count
        invariant
            entry_count == outcome.factor_instances.0@.len(),
            outcome.factor_instances.wf(),
            rq == outcome.requests@,
            analysis.wf(),
            analysis.taken_free_disjoint(),
            cache.wf(),
            forall|x: FactorInstance|
                #![trigger cache.spec_has_instance(x)]
                cache.spec_has_instance(x) ==> old(cache).spec_has_instance(x),
            forall|k: DerivationRequestInKeySpace|
                #![trigger cache.spec_has_key(k)]
                seq_has_req(rq, k) ==> !cache.spec_has_key(k),
            forall|y: FactorInstance|
                #![trigger old(analysis).spec_has_instance(y)]
                old(analysis).spec_has_instance(y) ==> analysis.spec_has_instance(y),
            forall|l: int, m: int|
                #![trigger outcome.factor_instances.0@[l].1.0@[m]]
                0 <= l < ei && 0 <= m < outcome.factor_instances.0@[l].1.0@.len()
                    ==> analysis.spec_has_instance(outcome.factor_instances.0@[l].1.0@[m]),
            forall|i: int|
                0 <= i < analysis.derived_instances.unsecurified_factor_instances@.len()
                    ==> !cache.spec_has_instance(
                    (
                    #[trigger] analysis.derived_instances.unsecurified_factor_instances@[i]).factor_instance,
                ),
    {
        let pool_len = outcome.factor_instances.0[ei].1.0.len();
        for ii in 0..pool_len
            invariant
                entry_count == outcome.factor_instances.0@.len(),
                ei < entry_count,
                pool_len == outcome.factor_instances.0@[ei as int].1.0@.len(),
                outcome.factor_instances.wf(),
                rq == outcome.requests@,
                analysis.wf(),
                analysis.taken_free_disjoint(),
                cache.wf(),
                forall|x: FactorInstance|
                    #![trigger cache.spec_has_instance(x)]
                    cache.spec_has_instance(x) ==> old(cache).spec_has_instance(x),
                forall|k: DerivationRequestInKeySpace|
                    #![trigger cache.spec_has_key(k)]
                    seq_has_req(rq, k) ==> !cache.spec_has_key(k),
                forall|y: FactorInstance|
                    #![trigger old(analysis).spec_has_instance(y)]
                    old(analysis).spec_has_instance(y) ==> analysis.spec_has_instance(y),
                forall|l: int, m: int|
                    #![trigger outcome.factor_instances.0@[l].1.0@[m]]
                    0 <= l < ei && 0 <= m < outcome.factor_instances.0@[l].1.0@.len()
                        ==> analysis.spec_has_instance(outcome.factor_instances.0@[l].1.0@[m]),
                forall|m: int|
                    0 <= m < ii ==> analysis.spec_has_instance(
                        #[trigger] outcome.factor_instances.0@[ei as int].1.0@[m],
                    ),
                forall|i: int|
                    0 <= i < analysis.derived_instances.unsecurified_factor_instances@.len()
                        ==> !cache.spec_has_instance(
                        (
                        #[trigger] analysis.derived_instances.unsecurified_factor_instances@[i]).factor_instance,
                    ),
        {
            let x = outcome.factor_instances.0[ei].1.0[ii].clone();
            let ghost orig = outcome.factor_instances.0@[ei as int].1.0@[ii as int];
            proof {
                assert(crate::cache::entry_sound(outcome.factor_instances.0@[ei as int]));
                assert(orig.wf());
            }
            let ghost pa = *analysis;
            absorb_free_instance(analysis, x);
            proof {
                assert(analysis.spec_has_instance(x)) by {
                    if wrapped_pool_has(pa.derived_instances.unsecurified_factor_instances@, x) {
                        assert(analysis.derived_instances == pa.derived_instances);
                    }
                }
                lemma_analysis_has_congruent(*analysis, x, orig);
                assert forall|y: FactorInstance| pa.spec_has_instance(y) implies
                    analysis.spec_has_instance(y) by {}
                assert forall|m: int| 0 <= m < ii + 1 implies analysis.spec_has_instance(
                    #[trigger] outcome.factor_instances.0@[ei as int].1.0@[m],
                ) by {
                    if m < ii {
                        assert(pa.spec_has_instance(
                            outcome.factor_instances.0@[ei as int].1.0@[m],
                        ));
                    }
                }
            }
        }
    }
    let ghost analysis_after_absorb = *analysis;
    proof {
        assert forall|y: FactorInstance|
            #![trigger entries_have_instance(outcome.factor_instances.0@, y)]
            entries_have_instance(outcome.factor_instances.0@, y) implies
            analysis_after_absorb.spec_has_instance(y) by {
            let es = outcome.factor_instances.0@;
            let l = choose|l: int| 0 <= l < es.len() && pool_has((#[trigger] es[l]).1.0@, y);
            let m = choose|m: int| 0 <= m < es[l].1.0@.len() && (#[trigger] es[l].1.0@[m]).eqv(&y);
            assert(analysis_after_absorb.spec_has_instance(es[l].1.0@[m]));
            lemma_analysis_has_congruent(analysis_after_absorb, es[l].1.0@[m], y);
        }
    }
    outcome
}

/// For every request the cache could not serve, lay out the next cursor
/// batch of concrete derivation paths; each missed request contributes a
/// full batch at its own per-key offset, which then advances.
#[verifier::rlimit(100)]
#[verifier::spinoff_prover]
fn build_missing_paths(
    outcome: &CacheLoadOutcome,
    cursors: &mut FactorInstancesCacheCursors,
    Ghost(rq): Ghost<Seq<DerivationRequestInKeySpace>>,
) -> (r: Result<Vec<DerivationPath>, CommonError>)
    requires
        rq == outcome.requests@,
        forall|j: int|
            #![trigger rq[j]]
            0 <= j < rq.len() ==> rq[j].wf() && rq[j].abstract_last_component == rq[j].key_space,
    ensures
        r is Ok ==> ({
            let paths = r->Ok_0@;
            &&& forall|l: int|
                #![trigger paths[l]]
                0 <= l < paths.len() ==> paths[l].wf() && seq_has_req(rq, paths[l].spec_erased())
            &&& forall|j: int|
                #![trigger rq[j]]
                0 <= j < rq.len() ==> outcome.factor_instances.spec_has_key(rq[j]) || exists|
                    l: int,
                |
                    #![trigger paths[l]]
                    0 <= l < paths.len() && paths[l].spec_erased().eqv(&rq[j]) && paths[l].key_space
                        == rq[j].key_space
        }),
        r is Err ==> r->Err_0 == CommonError::MaxIterationsExceeded,
{
        let mut all_paths: Vec<DerivationPath> = Vec::new();
        let request_count = outcome.requests.len();
        for qi in 0..request_count
            invariant
                request_count == outcome.requests@.len(),
                rq == outcome.requests@,
                forall|j: int|
                    #![trigger rq[j]]
                    0 <= j < rq.len() ==> rq[j].wf() && rq[j].abstract_last_component
                        == rq[j].key_space,
                forall|l: int|
                    #![trigger all_paths@[l]]
                    0 <= l < all_paths@.len() ==> all_paths@[l].wf() && seq_has_req(
                        rq,
                        all_paths@[l].spec_erased(),
                    ),
                forall|j: int|
                    #![trigger rq[j]]
                    0 <= j < qi ==> outcome.factor_instances.spec_has_key(rq[j]) || exists|l: int|
                        #![trigger all_paths@[l]]
                        0 <= l < all_paths@.len() && all_paths@[l].spec_erased().eqv(&rq[j])
                            && all_paths@[l].key_space == rq[j].key_space,
        {
            let ghost prev_paths = all_paths@;
            let req = &outcome.requests[qi];
            let hit = outcome.factor_instances.contains_key(req);
            if !hit {
                let batch = req.abstract_factor.factor_source_kind.derivation_batch_size();
                proof {
                    assert(10 <= batch <= 20);
                }
                let cursor = cursors.cursor_for(req);
                if cursor > CURSOR_CEILING {
                    return Err(CommonError::MaxIterationsExceeded);
                }
                let ghost paths_start = all_paths@.len();
                let mut j: usize = 0;
                while j < batch
                    invariant
                        j <= batch,
                        batch <= 20,
                        cursor <= CURSOR_CEILING,
                        request_count == outcome.requests@.len(),
                        rq == outcome.requests@,
                        qi < request_count,
                        rq[qi as int].wf(),
                        rq[qi as int].abstract_last_component == rq[qi as int].key_space,
                        all_paths@.len() == paths_start + j,
                        paths_start == prev_paths.len(),
                        forall|l: int| 0 <= l < paths_start ==> all_paths@[l] == prev_paths[l],
                        forall|l: int|
                            #![trigger all_paths@[l]]
                            0 <= l < all_paths@.len() ==> all_paths@[l].wf() && seq_has_req(
                                rq,
                                all_paths@[l].spec_erased(),
                            ),
                        forall|l: int|
                            #![trigger all_paths@[l]]
                            paths_start <= l < all_paths@.len()
                                ==> all_paths@[l].spec_erased().eqv(&rq[qi as int])
                                && all_paths@[l].key_space == rq[qi as int].key_space,
                    decreases batch - j,
                {
                    let req2 = &outcome.requests[qi];
                    let base: u32 = if req2.key_space == KeySpace::Unsecurified {
                        cursor + (j as u32)
                    } else {
                        KEY_SPACE_BOUNDARY + 1 + cursor + (j as u32)
                    };
                    let index = CAP26Index::new(base);
                    proof {
                        if req2.key_space == KeySpace::Unsecurified {
                            assert(spec_classify(base) == KeySpace::Unsecurified);
                        } else {
                            assert(spec_classify(base) == KeySpace::Securified);
                            assert(req2.key_space == KeySpace::Securified);
                        }
                        assert(index.spec_in_key_space(req2.key_space));
                    }
                    let path = DerivationPath::new_with_factor_source_id(
                        req2.factor_source_id(),
                        req2.network_id,
                        req2.entity_kind,
                        req2.key_kind,
                        req2.key_space,
                        index,
                    );
                    all_paths.push(path);
                    proof {
                        let p = all_paths@[all_paths@.len() - 1];
                        assert(p.spec_erased().eqv(&rq[qi as int]));
                        assert(rq[qi as int].eqv(&p.spec_erased()));
                        assert(seq_has_req(rq, p.spec_erased()));
                    }
                    j = j + 1;
                }
                cursors.set_cursor(req, cursor + (batch as u32));
                proof {
                    assert(all_paths@[paths_start as int].spec_erased().eqv(&rq[qi as int]));
                }
            }
            proof {
                assert forall|j: int| #![trigger rq[j]] 0 <= j < qi + 1 implies
                    outcome.factor_instances.spec_has_key(rq[j]) || exists|l: int|
                    #![trigger all_paths@[l]]
                    0 <= l < all_paths@.len() && all_paths@[l].spec_erased().eqv(&rq[j])
                        && all_paths@[l].key_space == rq[j].key_space by {
                    if j < qi {
                        if !outcome.factor_instances.spec_has_key(rq[j]) {
                            let l = choose|l: int|
                                0 <= l < prev_paths.len() && (#[trigger] prev_paths[l]).spec_erased().eqv(
                                    &rq[j],
                                ) && prev_paths[l].key_space == rq[j].key_space;
                            assert(all_paths@[l] == prev_paths[l]);
                        }
                    } else {
                        if !hit {
                            assert(all_paths@[prev_paths.len() as int].spec_erased().eqv(
                                &rq[qi as int],
                            ));
                        }
                    }
                }
            }
        }
        Ok(all_paths)
}

/// Derive and classify one laid-out batch, and conclude that every
/// unsecurified request of the kind is now answered.
#[verifier::rlimit(100)]
#[verifier::spinoff_prover]
fn classify_batch<K: DerivationInteractors, G: Gateway>(
    request_kind: &PolyDeriveRequestKind,
    outcome: &CacheLoadOutcome,
    paths: Vec<DerivationPath>,
    cache: &Cache,
    onchain_analyser: &OnChainAnalyzer<G>,
    profile_analyser: &ProfileAnalyzer,
    derivation_interactors: &K,
    analysis: &mut IntermediaryDerivationsAndAnalysis,
    Ghost(rq): Ghost<Seq<DerivationRequestInKeySpace>>,
) -> (r: Result<(), CommonError>)
    requires
        rq == outcome.requests@,
        cache.wf(),
        outcome.factor_instances.wf(),
        old(analysis).wf(),
        old(analysis).taken_free_disjoint(),
        forall|k: DerivationRequestInKeySpace|
            #![trigger kind_has_request(request_kind, k)]
            kind_has_request(request_kind, k) ==> seq_has_req(rq, k),
        forall|k: DerivationRequestInKeySpace|
            #![trigger cache.spec_has_key(k)]
            seq_has_req(rq, k) ==> !cache.spec_has_key(k),
        forall|y: FactorInstance|
            #![trigger entries_have_instance(outcome.factor_instances.0@, y)]
            entries_have_instance(outcome.factor_instances.0@, y) ==> old(
                analysis,
            ).spec_has_instance(y),
        forall|i: int|
            0 <= i < old(analysis).derived_instances.unsecurified_factor_instances@.len()
                ==> !cache.spec_has_instance(
                (
                #[trigger] old(analysis).derived_instances.unsecurified_factor_instances@[i]).factor_instance,
            ),
        forall|l: int|
            #![trigger paths@[l]]
            0 <= l < paths@.len() ==> paths@[l].wf() && seq_has_req(rq, paths@[l].spec_erased()),
        forall|j: int|
            #![trigger rq[j]]
            0 <= j < rq.len() ==> outcome.factor_instances.spec_has_key(rq[j]) || exists|l: int|
                #![trigger paths@[l]]
                0 <= l < paths@.len() && paths@[l].spec_erased().eqv(&rq[j]) && paths@[l].key_space
                    == rq[j].key_space,
    ensures
        final(analysis).wf(),
        final(analysis).taken_free_disjoint(),
        forall|y: FactorInstance|
            #![trigger old(analysis).spec_has_instance(y)]
            old(analysis).spec_has_instance(y) ==> final(analysis).spec_has_instance(y),
        forall|i: int|
            0 <= i < final(analysis).derived_instances.unsecurified_factor_instances@.len()
                ==> !cache.spec_has_instance(
                (
                #[trigger] final(analysis).derived_instances.unsecurified_factor_instances@[i]).factor_instance,
            ),
        r is Ok ==> forall|k: DerivationRequestInKeySpace|
            #![trigger kind_has_request(request_kind, k)]
            kind_has_request(request_kind, k) && k.key_space == KeySpace::Unsecurified
                ==> accumulated_for_request(*final(analysis), k),
{
    let ghost paths_view = paths@;
    let ghost mid = *old(analysis);
    let classified = derive_and_classify(
        paths,
        cache,
        onchain_analyser,
        profile_analyser,
        derivation_interactors,
        analysis,
        Ghost(rq),
    );
    match classified {
        Ok(()) => {},
        Err(e) => {
            return Err(e);
        },
    }
    proof {
        lemma_round_requests_answered(
            request_kind,
            rq,
            outcome.factor_instances.0@,
            paths_view,
            *analysis,
            mid,
        );
    }
    Ok(())
}

/// Have the provider derive one instance per path and classify each one
/// through the analyzers; every unsecurified path ends up answered in the
/// accumulation.
#[verifier::rlimit(100)]
#[verifier::spinoff_prover]
fn derive_and_classify<K: DerivationInteractors, G: Gateway>(
    paths: Vec<DerivationPath>,
    cache: &Cache,
    onchain_analyser: &OnChainAnalyzer<G>,
    profile_analyser: &ProfileAnalyzer,
    derivation_interactors: &K,
    analysis: &mut IntermediaryDerivationsAndAnalysis,
    Ghost(rq): Ghost<Seq<DerivationRequestInKeySpace>>,
) -> (r: Result<(), CommonError>)
    requires
        cache.wf(),
        old(analysis).wf(),
        old(analysis).taken_free_disjoint(),
        forall|l: int|
            #![trigger paths@[l]]
            0 <= l < paths@.len() ==> paths@[l].wf() && seq_has_req(rq, paths@[l].spec_erased()),
        forall|k: DerivationRequestInKeySpace|
            #![trigger cache.spec_has_key(k)]
            seq_has_req(rq, k) ==> !cache.spec_has_key(k),
        forall|i: int|
            0 <= i < old(analysis).derived_instances.unsecurified_factor_instances@.len()
                ==> !cache.spec_has_instance(
                (
                #[trigger] old(analysis).derived_instances.unsecurified_factor_instances@[i]).factor_instance,
            ),
    ensures
        final(analysis).wf(),
        final(analysis).taken_free_disjoint(),
        forall|y: FactorInstance|
            #![trigger old(analysis).spec_has_instance(y)]
            old(analysis).spec_has_instance(y) ==> final(analysis).spec_has_instance(y),
        forall|i: int|
            0 <= i < final(analysis).derived_instances.unsecurified_factor_instances@.len()
                ==> !cache.spec_has_instance(
                (
                #[trigger] final(analysis).derived_instances.unsecurified_factor_instances@[i]).factor_instance,
            ),
        r is Ok ==> forall|l: int|
            #![trigger paths@[l]]
            0 <= l < paths@.len() ==> (paths@[l].key_space == KeySpace::Unsecurified
                ==> accumulated_for_request(*final(analysis), paths@[l].spec_erased())),
{
    let ghost paths_view = paths@;
    let collector = match KeysCollector::new(paths) {
        Ok(c) => c,
        Err(_) => {
            proof {
                assert(false);
            }
            return Err(CommonError::DerivationProviderFailure);
        },
    };
    let derived = match collector.derive(derivation_interactors) {
        Ok(d) => d,
        Err(e) => {
            return Err(e);
        },
    };
    proof {
        lemma_derived_answer_paths(rq, paths_view, derived.0@);
    }
    let classified = classify_derived(
        onchain_analyser,
        profile_analyser,
        analysis,
        cache,
        &derived,
        Ghost(rq),
    );
    match classified {
        Ok(()) => {},
        Err(e) => {
            return Err(e);
        },
    }
    proof {
        assert forall|l: int| #![trigger paths_view[l]] 0 <= l < paths_view.len() implies (
        paths_view[l].key_space == KeySpace::Unsecurified ==> accumulated_for_request(
            *analysis,
            paths_view[l].spec_erased(),
        )) by {
            if paths_view[l].key_space == KeySpace::Unsecurified {
                assert(derived.0@[l].spec_key_space() == KeySpace::Unsecurified);
                assert(analysis.spec_has_instance(derived.0@[l]));
                lemma_accumulated_witness(
                    *analysis,
                    derived.0@[l],
                    paths_view[l].spec_erased(),
                );
            }
        }
    }
    Ok(())
}

/// Classify every freshly derived instance through the analyzers and fold
/// it into the accumulation. The derived instances answer requests whose
/// keys the cache no longer serves, so nothing classified here can sit in
/// the cache.
#[verifier::rlimit(100)]
#[verifier::spinoff_prover]
fn classify_derived<G: Gateway>(
    onchain_analyser: &OnChainAnalyzer<G>,
    profile_analyser: &ProfileAnalyzer,
    analysis: &mut IntermediaryDerivationsAndAnalysis,
    cache: &Cache,
    derived: &FactorInstances,
    Ghost(rq): Ghost<Seq<DerivationRequestInKeySpace>>,
) -> (r: Result<(), CommonError>)
    requires
        cache.wf(),
        old(analysis).wf(),
        old(analysis).taken_free_disjoint(),
        forall|l: int|
            #![trigger derived.0@[l]]
            0 <= l < derived.0@.len() ==> derived.0@[l].wf() && seq_has_req(
                rq,
                derived.0@[l].spec_derivation_in_key_space(),
            ),
        forall|k: DerivationRequestInKeySpace|
            #![trigger cache.spec_has_key(k)]
            seq_has_req(rq, k) ==> !cache.spec_has_key(k),
        forall|i: int|
            0 <= i < old(analysis).derived_instances.unsecurified_factor_instances@.len()
                ==> !cache.spec_has_instance(
                (
                #[trigger] old(analysis).derived_instances.unsecurified_factor_instances@[i]).factor_instance,
            ),
    ensures
        final(analysis).wf(),
        final(analysis).taken_free_disjoint(),
        forall|y: FactorInstance|
            #![trigger old(analysis).spec_has_instance(y)]
            old(analysis).spec_has_instance(y) ==> final(analysis).spec_has_instance(y),
        forall|i: int|
            0 <= i < final(analysis).derived_instances.unsecurified_factor_instances@.len()
                ==> !cache.spec_has_instance(
                (
                #[trigger] final(analysis).derived_instances.unsecurified_factor_instances@[i]).factor_instance,
            ),
        r is Ok ==> forall|l: int|
            #![trigger derived.0@[l]]
            0 <= l < derived.0@.len() ==> (derived.0@[l].spec_key_space()
                == KeySpace::Unsecurified ==> final(analysis).spec_has_instance(derived.0@[l])),
{
    let derived_count = derived.0.len();
    for di in 0..derived_count
        invariant
            derived_count == derived.0@.len(),
            cache.wf(),
            forall|l: int|
                #![trigger derived.0@[l]]
                0 <= l < derived.0@.len() ==> derived.0@[l].wf() && seq_has_req(
                    rq,
                    derived.0@[l].spec_derivation_in_key_space(),
                ),
            forall|k: DerivationRequestInKeySpace|
                #![trigger cache.spec_has_key(k)]
                seq_has_req(rq, k) ==> !cache.spec_has_key(k),
            analysis.wf(),
            analysis.taken_free_disjoint(),
            forall|y: FactorInstance|
                #![trigger old(analysis).spec_has_instance(y)]
                old(analysis).spec_has_instance(y) ==> analysis.spec_has_instance(y),
            forall|l: int|
                #![trigger derived.0@[l]]
                0 <= l < di ==> (derived.0@[l].spec_key_space() == KeySpace::Unsecurified
                    ==> analysis.spec_has_instance(derived.0@[l])),
            forall|i: int|
                0 <= i < analysis.derived_instances.unsecurified_factor_instances@.len()
                    ==> !cache.spec_has_instance(
                    (
                    #[trigger] analysis.derived_instances.unsecurified_factor_instances@[i]).factor_instance,
                ),
    {
        let x = derived.0[di].clone();
        let ghost pa = *analysis;
        let outcome_of_classify = classify_and_absorb(
            onchain_analyser,
            profile_analyser,
            analysis,
            x,
        );
        proof {
            assert forall|y: FactorInstance| pa.spec_has_instance(y) implies
                analysis.spec_has_instance(y) by {}
            // Anything newly counted taken is the fresh instance, whose
            // request key the load has consumed.
            assert forall|i: int|
                0 <= i < analysis.derived_instances.unsecurified_factor_instances@.len() implies
                !cache.spec_has_instance(
                (
                #[trigger] analysis.derived_instances.unsecurified_factor_instances@[i]).factor_instance,
            ) by {
                let taken = analysis.derived_instances.unsecurified_factor_instances@;
                let fi = taken[i].factor_instance;
                assert(taken[i].factor_instance.eqv(&fi));
                assert(wrapped_pool_has(taken, fi));
                if wrapped_pool_has(pa.derived_instances.unsecurified_factor_instances@, fi) {
                    let l = choose|l: int|
                        0 <= l < pa.derived_instances.unsecurified_factor_instances@.len() && (
                        #[trigger] pa.derived_instances.unsecurified_factor_instances@[l]).factor_instance.eqv(
                            &fi,
                        );
                    if cache.spec_has_instance(fi) {
                        crate::cache::lemma_cache_has_instance_congruent(
                            *cache,
                            fi,
                            pa.derived_instances.unsecurified_factor_instances@[l].factor_instance,
                        );
                    }
                } else {
                    assert(fi.eqv(&x));
                    assert(seq_has_req(rq, x.spec_derivation_in_key_space())) by {
                        assert(x.eqv(&derived.0@[di as int]));
                        crate::cache::lemma_seq_has_req_congruent(rq);
                    }
                    if cache.spec_has_instance(fi) {
                        crate::cache::lemma_cache_has_instance_congruent(*cache, fi, x);
                        crate::cache::lemma_cache_instance_implies_key(*cache, x);
                    }
                }
            }
        }
        match outcome_of_classify {
            Ok(()) => {
                proof {
                    if derived.0@[di as int].spec_key_space() == KeySpace::Unsecurified {
                        assert(x.spec_key_space() == KeySpace::Unsecurified);
                        assert(analysis.spec_has_instance(x));
                        lemma_analysis_has_congruent(*analysis, x, derived.0@[di as int]);
                    }
                }
            },
            Err(e) => {
                return Err(e);
            },
        }
    }
    Ok(())
}

/// `Deriving`, the fresh half: lay out cursor batches for the missed
/// requests, have the provider derive them, and classify what came back.
#[verifier::rlimit(100)]
#[verifier::spinoff_prover]
fn derive_fresh<K: DerivationInteractors, G: Gateway>(
    request_kind: &PolyDeriveRequestKind,
    outcome: &CacheLoadOutcome,
    cache: &Cache,
    cursors: &mut FactorInstancesCacheCursors,
    onchain_analyser: &OnChainAnalyzer<G>,
    profile_analyser: &ProfileAnalyzer,
    derivation_interactors: &K,
    analysis: &mut IntermediaryDerivationsAndAnalysis,
    Ghost(rq): Ghost<Seq<DerivationRequestInKeySpace>>,
) -> (r: Result<(), CommonError>)
    requires
        rq == outcome.requests@,
        cache.wf(),
        outcome.factor_instances.wf(),
        old(analysis).wf(),
        old(analysis).taken_free_disjoint(),
        forall|j: int|
            #![trigger rq[j]]
            0 <= j < rq.len() ==> rq[j].wf() && rq[j].abstract_last_component == rq[j].key_space
                && kind_has_request(request_kind, rq[j]),
        forall|k: DerivationRequestInKeySpace|
            #![trigger kind_has_request(request_kind, k)]
            kind_has_request(request_kind, k) ==> seq_has_req(rq, k),
        forall|k: DerivationRequestInKeySpace|
            #![trigger cache.spec_has_key(k)]
            seq_has_req(rq, k) ==> !cache.spec_has_key(k),
        forall|y: FactorInstance|
            #![trigger entries_have_instance(outcome.factor_instances.0@, y)]
            entries_have_instance(outcome.factor_instances.0@, y)
                ==> old(analysis).spec_has_instance(y),
        forall|i: int|
            0 <= i < old(analysis).derived_instances.unsecurified_factor_instances@.len()
                ==> !cache.spec_has_instance(
                (
                #[trigger] old(analysis).derived_instances.unsecurified_factor_instances@[i]).factor_instance,
            ),
        exists|j: int|
            0 <= j < rq.len() && !outcome.factor_instances.spec_has_key(#[trigger] rq[j]),
    ensures
        final(analysis).wf(),
        final(analysis).taken_free_disjoint(),
        forall|y: FactorInstance|
            #![trigger old(analysis).spec_has_instance(y)]
            old(analysis).spec_has_instance(y) ==> final(analysis).spec_has_instance(y),
        forall|i: int|
            0 <= i < final(analysis).derived_instances.unsecurified_factor_instances@.len()
                ==> !cache.spec_has_instance(
                (
                #[trigger] final(analysis).derived_instances.unsecurified_factor_instances@[i]).factor_instance,
            ),
        r is Ok ==> forall|k: DerivationRequestInKeySpace|
            #![trigger kind_has_request(request_kind, k)]
            kind_has_request(request_kind, k) && k.key_space == KeySpace::Unsecurified
                ==> accumulated_for_request(*final(analysis), k),
{
    let ghost analysis_after_absorb = *old(analysis);
    let built = build_missing_paths(outcome, cursors, Ghost(rq));
    let all_paths = match built {
        Ok(paths) => paths,
        Err(e) => {
            return Err(e);
        },
    };
    if all_paths.len() > 0 {
        let batch = classify_batch(
            request_kind,
            outcome,
            all_paths,
            cache,
            onchain_analyser,
            profile_analyser,
            derivation_interactors,
            analysis,
            Ghost(rq),
        );
        match batch {
            Ok(()) => {},
            Err(e) => {
                return Err(e);
            },
        }
    } else {
        proof {
            // A missed request contributed at least one path, so the
            // built batch cannot be empty.
            let j = choose|j: int|
                0 <= j < rq.len() && !outcome.factor_instances.spec_has_key(#[trigger] rq[j]);
            assert(false);
        }
    }
    Ok(())
}

#[verifier::rlimit(100)]
#[verifier::spinoff_prover]
fn derive_round<K: DerivationInteractors, G: Gateway>(
    request_kind: &PolyDeriveRequestKind,
    cache: &mut Cache,
    cursors: &mut FactorInstancesCacheCursors,
    onchain_analyser: &OnChainAnalyzer<G>,
    profile_analyser: &ProfileAnalyzer,
    derivation_interactors: &K,
    analysis: &mut IntermediaryDerivationsAndAnalysis,
) -> (r: Result<(), CommonError>)
    requires
        old(cache).wf(),
        old(analysis).wf(),
        old(analysis).taken_free_disjoint(),
        forall|i: int|
            0 <= i < old(analysis).derived_instances.unsecurified_factor_instances@.len()
                ==> !old(cache).spec_has_instance(
                (
                #[trigger] old(analysis).derived_instances.unsecurified_factor_instances@[i]).factor_instance,
            ),
    ensures
        final(cache).wf(),
        final(analysis).wf(),
        final(analysis).taken_free_disjoint(),
        forall|x: FactorInstance|
            #![trigger final(cache).spec_has_instance(x)]
            final(cache).spec_has_instance(x) ==> old(cache).spec_has_instance(x),
        forall|y: FactorInstance|
            #![trigger old(analysis).spec_has_instance(y)]
            old(analysis).spec_has_instance(y) ==> final(analysis).spec_has_instance(y),
        forall|i: int|
            0 <= i < final(analysis).derived_instances.unsecurified_factor_instances@.len()
                ==> !final(cache).spec_has_instance(
                (
                #[trigger] final(analysis).derived_instances.unsecurified_factor_instances@[i]).factor_instance,
            ),
        r is Ok ==> forall|y: FactorInstance|
            #![trigger old(cache).spec_has_instance(y)]
            old(cache).spec_has_instance(y) && kind_has_request(
                request_kind,
                y.spec_derivation_in_key_space(),
            ) ==> final(analysis).spec_has_instance(y),
        r is Ok ==> forall|k: DerivationRequestInKeySpace|
            #![trigger kind_has_request(request_kind, k)]
            kind_has_request(request_kind, k) && k.key_space == KeySpace::Unsecurified
                ==> accumulated_for_request(*final(analysis), k),
{
    let outcome = consult_cache(request_kind, cache, analysis);
    let ghost rq = outcome.requests@;
    let ghost analysis_after_absorb = *analysis;
    // Derive fresh instances for every request the cache could not serve.
    if outcome.should_derive_more {
        proof {
            assert(!outcome.is_satisfying_all_requests);
            let j = choose|j: int| 0 <= j < rq.len() && !old(cache).spec_has_key(#[trigger] rq[j]);
            assert(rq[j].eqv(&rq[j]));
            assert(seq_has_req(rq, rq[j]));
            assert(!outcome.factor_instances.spec_has_key(rq[j]));
        }
        let fresh = derive_fresh(
            request_kind,
            &outcome,
            cache,
            cursors,
            onchain_analyser,
            profile_analyser,
            derivation_interactors,
            analysis,
            Ghost(rq),
        );
        match fresh {
            Ok(()) => {},
            Err(e) => {
                return Err(e);
            },
        }
    } else {
        proof {
            assert forall|j: int| 0 <= j < rq.len() implies entries_have_key(
                outcome.factor_instances.0@,
                #[trigger] rq[j],
            ) by {
                assert(rq[j].eqv(&rq[j]));
                assert(seq_has_req(rq, rq[j]));
                assert(old(cache).spec_has_key(rq[j]));
                assert(outcome.factor_instances.spec_has_key(rq[j]));
            }
            lemma_round_requests_answered_all_hit(
                request_kind,
                rq,
                outcome.factor_instances.0@,
                *analysis,
            );
        }
    }
    proof {
        lemma_round_cached_absorbed(
            request_kind,
            rq,
            *old(cache),
            &outcome,
            analysis_after_absorb,
            *analysis,
        );
    }
    Ok(())
}

/// Instances the provider derived answer exactly the requests their paths
/// were laid out for.
proof fn lemma_derived_answer_paths(
    rq: Seq<DerivationRequestInKeySpace>,
    paths: Seq<DerivationPath>,
    derived: Seq<FactorInstance>,
)
    requires
        derived.len() == paths.len(),
        forall|l: int|
            #![trigger paths[l]]
            0 <= l < paths.len() ==> paths[l].wf() && seq_has_req(rq, paths[l].spec_erased()),
        forall|l: int|
            #![trigger derived[l]]
            0 <= l < paths.len() ==> derived[l].wf() && derived[l].derivation_path.eqv(&paths[l]),
    ensures
        forall|l: int|
            #![trigger derived[l]]
            0 <= l < derived.len() ==> derived[l].wf()
                && derived[l].spec_derivation_in_key_space().eqv(&paths[l].spec_erased())
                && derived[l].spec_key_space() == paths[l].key_space && seq_has_req(
                rq,
                derived[l].spec_derivation_in_key_space(),
            ),
{
    lemma_seq_has_req_congruent_local(rq);
    assert forall|l: int|
        #![trigger derived[l]]
        0 <= l < derived.len() implies derived[l].wf()
        && derived[l].spec_derivation_in_key_space().eqv(&paths[l].spec_erased())
        && derived[l].spec_key_space() == paths[l].key_space && seq_has_req(
        rq,
        derived[l].spec_derivation_in_key_space(),
    ) by {
        assert(derived[l].derivation_path.eqv(&paths[l]));
        assert(seq_has_req(rq, paths[l].spec_erased()));
    }
}

/// Value-equal requests occur together in a request list.
proof fn lemma_seq_has_req_congruent_local(rs: Seq<DerivationRequestInKeySpace>)
    ensures
        forall|k1: DerivationRequestInKeySpace, k2: DerivationRequestInKeySpace|
            #![trigger seq_has_req(rs, k1), seq_has_req(rs, k2)]
            k1.eqv(&k2) ==> seq_has_req(rs, k1) == seq_has_req(rs, k2),
{
    crate::cache::lemma_seq_has_req_congruent(rs);
}

/// Everything the cache held for the round's demand has been absorbed
/// into the accumulation.
proof fn lemma_round_cached_absorbed(
    request_kind: &PolyDeriveRequestKind,
    rq: Seq<DerivationRequestInKeySpace>,
    c0: Cache,
    outcome: &CacheLoadOutcome,
    mid: IntermediaryDerivationsAndAnalysis,
    a: IntermediaryDerivationsAndAnalysis,
)
    requires
        rq == outcome.requests@,
        forall|k: DerivationRequestInKeySpace|
            #![trigger kind_has_request(request_kind, k)]
            kind_has_request(request_kind, k) ==> seq_has_req(rq, k),
        forall|y: FactorInstance|
            #![trigger outcome.factor_instances.spec_has_instance(y)]
            outcome.factor_instances.spec_has_instance(y) == (c0.spec_has_instance(y)
                && seq_has_req(rq, y.spec_derivation_in_key_space())),
        forall|y: FactorInstance|
            #![trigger entries_have_instance(outcome.factor_instances.0@, y)]
            entries_have_instance(outcome.factor_instances.0@, y) ==> mid.spec_has_instance(y),
        forall|y: FactorInstance|
            #![trigger mid.spec_has_instance(y)]
            mid.spec_has_instance(y) ==> a.spec_has_instance(y),
    ensures
        forall|y: FactorInstance|
            #![trigger c0.spec_has_instance(y)]
            c0.spec_has_instance(y) && kind_has_request(
                request_kind,
                y.spec_derivation_in_key_space(),
            ) ==> a.spec_has_instance(y),
{
    assert forall|y: FactorInstance|
        #![trigger c0.spec_has_instance(y)]
        c0.spec_has_instance(y) && kind_has_request(
            request_kind,
            y.spec_derivation_in_key_space(),
        ) implies a.spec_has_instance(y) by {
        assert(seq_has_req(rq, y.spec_derivation_in_key_space()));
        assert(outcome.factor_instances.spec_has_instance(y));
        assert(mid.spec_has_instance(y));
    }
}

/// After a round whose misses were all derived: every unsecurified
/// request of the kind is answered by an accumulated instance — a hit
/// key's pool was absorbed, a missed key got a fresh derived instance.
proof fn lemma_round_requests_answered(
    request_kind: &PolyDeriveRequestKind,
    rq: Seq<DerivationRequestInKeySpace>,
    found: Seq<(DerivationRequestInKeySpace, FactorInstances)>,
    paths: Seq<DerivationPath>,
    a: IntermediaryDerivationsAndAnalysis,
    mid: IntermediaryDerivationsAndAnalysis,
)
    requires
        forall|k: DerivationRequestInKeySpace|
            #![trigger kind_has_request(request_kind, k)]
            kind_has_request(request_kind, k) ==> seq_has_req(rq, k),
        entries_sound(found),
        forall|j: int|
            #![trigger rq[j]]
            0 <= j < rq.len() ==> entries_have_key(found, rq[j]) || exists|l: int|
                #![trigger paths[l]]
                0 <= l < paths.len() && paths[l].spec_erased().eqv(&rq[j]) && paths[l].key_space
                    == rq[j].key_space,
        forall|y: FactorInstance|
            #![trigger entries_have_instance(found, y)]
            entries_have_instance(found, y) ==> mid.spec_has_instance(y),
        forall|y: FactorInstance|
            #![trigger mid.spec_has_instance(y)]
            mid.spec_has_instance(y) ==> a.spec_has_instance(y),
        forall|l: int|
            #![trigger paths[l]]
            0 <= l < paths.len() ==> (paths[l].key_space == KeySpace::Unsecurified
                ==> accumulated_for_request(a, paths[l].spec_erased())),
    ensures
        forall|k: DerivationRequestInKeySpace|
            #![trigger kind_has_request(request_kind, k)]
            kind_has_request(request_kind, k) && k.key_space == KeySpace::Unsecurified
                ==> accumulated_for_request(a, k),
{
    assert forall|k: DerivationRequestInKeySpace|
        #![trigger kind_has_request(request_kind, k)]
        kind_has_request(request_kind, k) && k.key_space == KeySpace::Unsecurified implies
        accumulated_for_request(a, k) by {
        assert(seq_has_req(rq, k));
        let j = choose|j: int| 0 <= j < rq.len() && (#[trigger] rq[j]).eqv(&k);
        if entries_have_key(found, rq[j]) {
            let l = choose|l: int| 0 <= l < found.len() && (#[trigger] found[l]).0.eqv(&rq[j]);
            assert(entry_sound(found[l]));
            let y = found[l].1.0@[0];
            assert(y.eqv(&y));
            assert(pool_has(found[l].1.0@, y));
            assert(entries_have_instance(found, y));
            assert(a.spec_has_instance(y));
            assert(y.spec_derivation_in_key_space().eqv(&k));
            lemma_accumulated_witness(a, y, k);
        } else {
            let l = choose|l: int|
                0 <= l < paths.len() && (#[trigger] paths[l]).spec_erased().eqv(&rq[j])
                    && paths[l].key_space == rq[j].key_space;
            assert(rq[j].key_space == k.key_space);
            assert(accumulated_for_request(a, paths[l].spec_erased()));
            lemma_accumulated_congruent(a, paths[l].spec_erased(), k);
        }
    }
}

/// Value-equal requests are accumulated alike.
proof fn lemma_accumulated_congruent(
    a: IntermediaryDerivationsAndAnalysis,
    k1: DerivationRequestInKeySpace,
    k2: DerivationRequestInKeySpace,
)
    requires
        accumulated_for_request(a, k1),
        k1.eqv(&k2),
    ensures
        accumulated_for_request(a, k2),
{
    if exists|i: int|
        0 <= i < a.probably_free.0@.len() && (
        #[trigger] a.probably_free.0@[i]).spec_derivation_in_key_space().eqv(&k1) {
        let i = choose|i: int|
            0 <= i < a.probably_free.0@.len() && (
            #[trigger] a.probably_free.0@[i]).spec_derivation_in_key_space().eqv(&k1);
        assert(a.probably_free.0@[i].spec_derivation_in_key_space().eqv(&k2));
    } else {
        let taken = a.derived_instances.unsecurified_factor_instances@;
        let i = choose|i: int|
            0 <= i < taken.len() && (
            #[trigger] taken[i]).factor_instance.spec_derivation_in_key_space().eqv(&k1);
        assert(taken[i].factor_instance.spec_derivation_in_key_space().eqv(&k2));
    }
}

/// A round served entirely from the cache answers every unsecurified/// A round served entirely from the cache answers every unsecurified
/// request of the kind out of the absorbed pools.
proof fn lemma_round_requests_answered_all_hit(
    request_kind: &PolyDeriveRequestKind,
    rq: Seq<DerivationRequestInKeySpace>,
    found: Seq<(DerivationRequestInKeySpace, FactorInstances)>,
    a: IntermediaryDerivationsAndAnalysis,
)
    requires
        forall|k: DerivationRequestInKeySpace|
            #![trigger kind_has_request(request_kind, k)]
            kind_has_request(request_kind, k) ==> seq_has_req(rq, k),
        entries_sound(found),
        forall|j: int| #![trigger rq[j]] 0 <= j < rq.len() ==> entries_have_key(found, rq[j]),
        forall|y: FactorInstance|
            #![trigger entries_have_instance(found, y)]
            entries_have_instance(found, y) ==> a.spec_has_instance(y),
    ensures
        forall|k: DerivationRequestInKeySpace|
            #![trigger kind_has_request(request_kind, k)]
            kind_has_request(request_kind, k) && k.key_space == KeySpace::Unsecurified
                ==> accumulated_for_request(a, k),
{
    assert forall|k: DerivationRequestInKeySpace|
        #![trigger kind_has_request(request_kind, k)]
        kind_has_request(request_kind, k) && k.key_space == KeySpace::Unsecurified implies
        accumulated_for_request(a, k) by {
        assert(seq_has_req(rq, k));
        let j = choose|j: int| 0 <= j < rq.len() && (#[trigger] rq[j]).eqv(&k);
        let l = choose|l: int| 0 <= l < found.len() && (#[trigger] found[l]).0.eqv(&rq[j]);
        assert(entry_sound(found[l]));
        let y = found[l].1.0@[0];
        assert(y.eqv(&y));
        assert(pool_has(found[l].1.0@, y));
        assert(entries_have_instance(found, y));
        assert(a.spec_has_instance(y));
        assert(y.spec_derivation_in_key_space().eqv(&k));
        lemma_accumulated_witness(a, y, k);
    }
}

/// An accumulated instance answers every request its own request equals.
proof fn lemma_accumulated_witness(
    a: IntermediaryDerivationsAndAnalysis,
    y: FactorInstance,
    k: DerivationRequestInKeySpace,
)
    requires
        a.spec_has_instance(y),
        y.spec_derivation_in_key_space().eqv(&k),
    ensures
        accumulated_for_request(a, k),
{
    if pool_has(a.probably_free.0@, y) {
        let m = choose|m: int|
            0 <= m < a.probably_free.0@.len() && (#[trigger] a.probably_free.0@[m]).eqv(&y);
        assert(a.probably_free.0@[m].spec_derivation_in_key_space().eqv(&k));
    } else {
        let taken = a.derived_instances.unsecurified_factor_instances@;
        let m = choose|m: int| 0 <= m < taken.len() && (#[trigger] taken[m]).factor_instance.eqv(&y);
        assert(taken[m].factor_instance.spec_derivation_in_key_space().eqv(&k));
    }
}

/// `Finalizing`: merge everything still believed free back into the
/// cache, so future scans can reuse it, and hand the caller the taken
/// instances together with the refreshed cache.
fn finalize(cache: Cache, analysis: IntermediaryDerivationsAndAnalysis) -> (r:
    FinalDerivationsFinalAndAnalysis)
    requires
        cache.wf(),
        analysis.wf(),
        analysis.taken_free_disjoint(),
    ensures
        r.derived_instances == analysis.derived_instances,
        r.probably_free == analysis.probably_free,
        r.cache.wf(),
        forall|x: FactorInstance|
            #![trigger pool_has(r.probably_free.0@, x)]
            pool_has(r.probably_free.0@, x) ==> r.cache.spec_has_instance(x),
        forall|x: FactorInstance|
            #![trigger r.cache.spec_has_instance(x)]
            r.cache.spec_has_instance(x) ==> (cache.spec_has_instance(x) || pool_has(
                analysis.probably_free.0@,
                x,
            )),
{
    let ghost cache0 = cache;
    let mut refreshed = cache;
    let n = analysis.probably_free.0.len();
    for i in 0..n
        invariant
            n == analysis.probably_free.0@.len(),
            analysis.wf(),
            refreshed.wf(),
            forall|j: int|
                0 <= j < i ==> refreshed.spec_has_instance(
                    #[trigger] analysis.probably_free.0@[j],
                ),
            forall|x: FactorInstance|
                #![trigger refreshed.spec_has_instance(x)]
                refreshed.spec_has_instance(x) ==> (cache0.spec_has_instance(x) || pool_has(
                    analysis.probably_free.0@,
                    x,
                )),
    {
        let x = analysis.probably_free.0[i].clone();
        refreshed.insert_instance(x);
        proof {
            assert(x.eqv(&analysis.probably_free.0@[i as int]));
            assert(refreshed.spec_has_instance(analysis.probably_free.0@[i as int]));
            assert forall|y: FactorInstance| refreshed.spec_has_instance(y) implies (
            cache0.spec_has_instance(y) || pool_has(analysis.probably_free.0@, y)) by {
                if y.eqv(&x) {
                    assert(analysis.probably_free.0@[i as int].eqv(&y));
                    assert(pool_has(analysis.probably_free.0@, y));
                }
            }
        }
    }
    let r = FinalDerivationsFinalAndAnalysis {
        derived_instances: analysis.derived_instances,
        probably_free: analysis.probably_free,
        cache: refreshed,
    };
    proof {
        assert forall|x: FactorInstance| pool_has(r.probably_free.0@, x) implies
            r.cache.spec_has_instance(x) by {
            let j = choose|j: int|
                0 <= j < r.probably_free.0@.len() && (#[trigger] r.probably_free.0@[j]).eqv(&x);
            assert(r.cache.spec_has_instance(r.probably_free.0@[j]));
            let es = r.cache.factor_instances_for_requests.0@;
            let l = choose|l: int|
                0 <= l < es.len() && pool_has((#[trigger] es[l]).1.0@, r.probably_free.0@[j]);
            let m = choose|m: int|
                0 <= m < es[l].1.0@.len() && (#[trigger] es[l].1.0@[m]).eqv(&r.probably_free.0@[j]);
            assert(es[l].1.0@[m].eqv(&x));
            assert(pool_has(es[l].1.0@, x));
        }
    }
    r
}

/// Record a candidate as known taken — unless the scan already knows it,
/// or it is not an unsecurified instance. A securified instance reported
/// taken is dropped: its matrix cannot be rebuilt here, and a taken
/// instance must not re-enter the free pool.
fn absorb_taken_instance(analysis: &mut IntermediaryDerivationsAndAnalysis, x: FactorInstance)
    requires
        old(analysis).wf(),
        old(analysis).taken_free_disjoint(),
        x.wf(),
    ensures
        final(analysis).wf(),
        final(analysis).taken_free_disjoint(),
        final(analysis).probably_free == old(analysis).probably_free,
        final(analysis).derived_instances.securified_matrices_of_factor_instances@ == old(
            analysis,
        ).derived_instances.securified_matrices_of_factor_instances@,
        !pool_has(old(analysis).probably_free.0@, x) && x.spec_key_space()
            == KeySpace::Unsecurified ==> wrapped_pool_has(
            final(analysis).derived_instances.unsecurified_factor_instances@,
            x,
        ),
        forall|y: FactorInstance|
            #![trigger wrapped_pool_has(final(analysis).derived_instances.unsecurified_factor_instances@, y)]
            wrapped_pool_has(final(analysis).derived_instances.unsecurified_factor_instances@, y)
                == (wrapped_pool_has(
                old(analysis).derived_instances.unsecurified_factor_instances@,
                y,
            ) || (!pool_has(old(analysis).probably_free.0@, x) && x.spec_key_space()
                == KeySpace::Unsecurified && y.eqv(&x))),
{
    if analysis.probably_free.contains_instance(&x) {
        return ;
    }
    if analysis.derived_instances.contains_instance(&x) {
        proof {
            let taken = analysis.derived_instances.unsecurified_factor_instances@;
            assert forall|y: FactorInstance| y.eqv(&x) implies wrapped_pool_has(taken, y) by {
                let l = choose|l: int|
                    0 <= l < taken.len() && (#[trigger] taken[l]).factor_instance.eqv(&x);
                assert(taken[l].factor_instance.eqv(&y));
            }
        }
        return ;
    }
    if x.key_space() == KeySpace::Unsecurified {
        let ghost prev = analysis.derived_instances.unsecurified_factor_instances@;
        match FactorInstanceInUnsecurifiedSpace::new(x) {
            Ok(w) => {
                analysis.derived_instances.push_unsecurified_if_absent(w);
                proof {
                    assert forall|i: int|
                        0 <= i < analysis.derived_instances.unsecurified_factor_instances@.len()
                        implies !pool_has(
                        analysis.probably_free.0@,
                        (
                        #[trigger] analysis.derived_instances.unsecurified_factor_instances@[i]).factor_instance,
                    ) by {
                        let ws = analysis.derived_instances.unsecurified_factor_instances@;
                        if i < prev.len() {
                            assert(ws[i] == prev[i]);
                        } else {
                            assert(ws[i] == w);
                        }
                    }
                }
            },
            Err(_) => {
                // Refused only for a securified instance, and this one is
                // unsecurified.
                proof {
                    assert(false);
                }
            },
        }
    }
}


/// The derivation orchestrator: one scan over one request kind, holding
/// the cache it consults, the analyzers that classify what comes back,
/// the provider that derives fresh instances, and the completion policy.
pub struct PolyDerivation<K: DerivationInteractors, G: Gateway, Q: IsDerivationDoneQuery> {
    pub request_kind: PolyDeriveRequestKind,
    /// If no cache is given, a new empty one is created and filled.
    pub cache: Cache,
    /// Without a gateway, a dummy that reports everything unused.
    pub onchain_analyser: OnChainAnalyzer<G>,
    /// Without a profile, a dummy that reports everything unused.
    pub profile_analyser: ProfileAnalyzer,
    pub derivation_interactors: K,
    pub is_derivation_done_query: Q,
    pub cursors: FactorInstancesCacheCursors,
}

impl<K: DerivationInteractors, G: Gateway, Q: IsDerivationDoneQuery> PolyDerivation<K, G, Q> {
    pub open spec fn wf(&self) -> bool {
        self.cache.wf()
    }

    /// Assemble a scan. At least one of cache, gateway and profile must be
    /// there: a scan with no source of information at all is a programming
    /// error.
    pub fn new(
        request_kind: PolyDeriveRequestKind,
        maybe_cache: Option<Cache>,
        onchain_analyser: OnChainAnalyzer<G>,
        profile_analyser: ProfileAnalyzer,
        derivation_interactors: K,
        is_derivation_done_query: Q,
    ) -> (r: Self)
        requires
            !(maybe_cache is None && onchain_analyser.gateway is None && profile_analyser.profile
                is None),
            maybe_cache is Some ==> maybe_cache->Some_0.wf(),
        ensures
            r.wf(),
            r.request_kind == request_kind,
            r.onchain_analyser == onchain_analyser,
            r.profile_analyser == profile_analyser,
            r.derivation_interactors == derivation_interactors,
            r.is_derivation_done_query == is_derivation_done_query,
            maybe_cache is Some ==> r.cache == maybe_cache->Some_0,
            maybe_cache is None ==> forall|x: FactorInstance| !r.cache.spec_has_instance(x),
    {
        let cache = match maybe_cache {
            Some(c) => c,
            None => Cache::empty(),
        };
        PolyDerivation {
            request_kind,
            cache,
            onchain_analyser,
            profile_analyser,
            derivation_interactors,
            is_derivation_done_query,
            cursors: FactorInstancesCacheCursors::empty(),
        }
    }

    /// Run the scan: check the completion policy, derive more while it is
    /// not satisfied, and finalize once it is. The derive/check cycle is
    /// bounded; exhausting the bound is a reported failure, never a silent
    /// success.
    pub fn poly_derive(self) -> (r: Result<FinalDerivationsFinalAndAnalysis, CommonError>)
        requires
            self.wf(),
        ensures
            r is Ok ==> ({
                let a = r->Ok_0;
                &&& a.derived_instances.wf()
                &&& a.probably_free.wf()
                &&& a.cache.wf()
                &&& self.is_derivation_done_query.done_spec(
                    &(IntermediaryDerivationsAndAnalysis {
                        derived_instances: a.derived_instances,
                        probably_free: a.probably_free,
                    }),
                )
                &&& forall|i: int|
                    0 <= i < a.derived_instances.unsecurified_factor_instances@.len()
                        ==> !pool_has(
                        a.probably_free.0@,
                        (
                        #[trigger] a.derived_instances.unsecurified_factor_instances@[i]).factor_instance,
                    )
                &&& forall|x: FactorInstance|
                    #![trigger pool_has(a.probably_free.0@, x)]
                    pool_has(a.probably_free.0@, x) ==> a.cache.spec_has_instance(x)
                &&& forall|x: FactorInstance|
                    #![trigger a.cache.spec_has_instance(x)]
                    a.cache.spec_has_instance(x) ==> (self.cache.spec_has_instance(x) || pool_has(
                        a.probably_free.0@,
                        x,
                    ))
                &&& forall|i: int|
                    0 <= i < a.derived_instances.unsecurified_factor_instances@.len()
                        ==> !a.cache.spec_has_instance(
                        (
                        #[trigger] a.derived_instances.unsecurified_factor_instances@[i]).factor_instance,
                    )
                &&& forall|y: FactorInstance|
                    #![trigger self.cache.spec_has_instance(y)]
                    self.cache.spec_has_instance(y) && kind_has_request(
                        &self.request_kind,
                        y.spec_derivation_in_key_space(),
                    ) ==> (IntermediaryDerivationsAndAnalysis {
                        derived_instances: a.derived_instances,
                        probably_free: a.probably_free,
                    }).spec_has_instance(y)
                &&& forall|k: DerivationRequestInKeySpace|
                    #![trigger kind_has_request(&self.request_kind, k)]
                    kind_has_request(&self.request_kind, k) && k.key_space
                        == KeySpace::Unsecurified ==> accumulated_for_request(
                        (IntermediaryDerivationsAndAnalysis {
                            derived_instances: a.derived_instances,
                            probably_free: a.probably_free,
                        }),
                        k,
                    )
            }),
    {
        let PolyDerivation {
            request_kind,
            mut cache,
            onchain_analyser,
            profile_analyser,
            derivation_interactors,
            is_derivation_done_query,
            mut cursors,
        } = self;
        let mut analysis = IntermediaryDerivationsAndAnalysis::empty();
        let mut rounds: usize = 0;
        while rounds < MAX_DERIVATION_ROUNDS
            invariant
                rounds <= MAX_DERIVATION_ROUNDS,
                cache.wf(),
                analysis.wf(),
                analysis.taken_free_disjoint(),
                is_derivation_done_query == self.is_derivation_done_query,
                request_kind == self.request_kind,
                forall|x: FactorInstance|
                    #![trigger cache.spec_has_instance(x)]
                    cache.spec_has_instance(x) ==> self.cache.spec_has_instance(x),
                rounds == 0 ==> cache == self.cache,
                forall|i: int|
                    0 <= i < analysis.derived_instances.unsecurified_factor_instances@.len()
                        ==> !cache.spec_has_instance(
                        (
                        #[trigger] analysis.derived_instances.unsecurified_factor_instances@[i]).factor_instance,
                    ),
                rounds > 0 ==> forall|y: FactorInstance|
                    #![trigger self.cache.spec_has_instance(y)]
                    self.cache.spec_has_instance(y) && kind_has_request(
                        &self.request_kind,
                        y.spec_derivation_in_key_space(),
                    ) ==> analysis.spec_has_instance(y),
            decreases MAX_DERIVATION_ROUNDS - rounds,
        {
            let round = derive_round(
                &request_kind,
                &mut cache,
                &mut cursors,
                &onchain_analyser,
                &profile_analyser,
                &derivation_interactors,
                &mut analysis,
            );
            match round {
                Ok(()) => {},
                Err(e) => {
                    return Err(e);
                },
            }
            let done = match is_derivation_done_query.is_done(&analysis) {
                Ok(b) => b,
                Err(e) => {
                    return Err(e);
                },
            };
            if done {
                let ghost final_analysis = analysis;
                let ghost final_cache = cache;
                let out = finalize(cache, analysis);
                proof {
                    assert((IntermediaryDerivationsAndAnalysis {
                        derived_instances: out.derived_instances,
                        probably_free: out.probably_free,
                    }) =~= final_analysis);
                    // A known-taken instance sits neither in the leftover
                    // cache nor in the free pool folded back into it.
                    assert forall|i: int|
                        0 <= i
                            < out.derived_instances.unsecurified_factor_instances@.len() implies
                        !out.cache.spec_has_instance(
                        (
                        #[trigger] out.derived_instances.unsecurified_factor_instances@[i]).factor_instance,
                    ) by {
                        let fi =
                            out.derived_instances.unsecurified_factor_instances@[i].factor_instance;
                        if out.cache.spec_has_instance(fi) {
                            assert(!final_cache.spec_has_instance(fi));
                            assert(!pool_has(final_analysis.probably_free.0@, fi));
                        }
                    }
                    // Everything the caller's cache held for the demand is
                    // in the returned split, and every unsecurified request
                    // of the kind is answered by it.
                    assert forall|y: FactorInstance|
                        #![trigger self.cache.spec_has_instance(y)]
                        self.cache.spec_has_instance(y) && kind_has_request(
                            &self.request_kind,
                            y.spec_derivation_in_key_space(),
                        ) implies final_analysis.spec_has_instance(y) by {
                        assert(kind_has_request(&request_kind, y.spec_derivation_in_key_space()));
                    }
                    assert forall|k: DerivationRequestInKeySpace|
                        #![trigger kind_has_request(&self.request_kind, k)]
                        kind_has_request(&self.request_kind, k) && k.key_space
                            == KeySpace::Unsecurified implies accumulated_for_request(
                        final_analysis,
                        k,
                    ) by {
                        assert(kind_has_request(&request_kind, k));
                    }
                }
                return Ok(out);
            }
            rounds = rounds + 1;
        }
        Err(CommonError::MaxIterationsExceeded)
    }
}


/// Consume one securified instance for the factor source from the cache
/// and check its key space.
fn take_securified_instance(
    cache: &mut Cache,
    factor_source_id: &FactorSourceIDFromHash,
    network_id: NetworkID,
) -> (r: Result<FactorInstanceInSecurifiedSpace, CommonError>)
    requires
        old(cache).wf(),
    ensures
        final(cache).wf(),
        (r is Ok) == old(cache).spec_has_key(
            spec_account_request(*factor_source_id, network_id, KeySpace::Securified),
        ),
        r is Ok ==> r->Ok_0.wf() && r->Ok_0.factor_instance.factor_source_id.eqv(factor_source_id)
            && r->Ok_0.factor_instance.derivation_path.network_id == network_id,
        r is Err ==> r->Err_0 == CommonError::NoSecurifiedInstanceForFactorSource,
        forall|x: FactorInstance|
            #![trigger final(cache).spec_has_instance(x)]
            final(cache).spec_has_instance(x) ==> old(cache).spec_has_instance(x),
        forall|k: DerivationRequestInKeySpace|
            #![trigger final(cache).spec_has_key(k)]
            !k.eqv(&spec_account_request(*factor_source_id, network_id, KeySpace::Securified))
                ==> final(cache).spec_has_key(k) == old(cache).spec_has_key(k),
{
    let request = DerivationRequestInKeySpace::new(
        factor_source_id.clone(),
        network_id,
        CAP26EntityKind::Account,
        CAP26KeyKind::T9n,
        KeySpace::Securified,
    );
    proof {
        assert(request.eqv(
            &spec_account_request(*factor_source_id, network_id, KeySpace::Securified),
        ));
        crate::cache::lemma_cache_has_key_congruent(
            *old(cache),
            request,
            spec_account_request(*factor_source_id, network_id, KeySpace::Securified),
        );
    }
    match cache.take_instance(&request) {
        Some(instance) => {
            proof {
                assert(instance.spec_derivation_in_key_space().eqv(&request));
                assert(instance.spec_key_space() == KeySpace::Securified);
                assert(instance.factor_source_id.eqv(factor_source_id));
                assert forall|k: DerivationRequestInKeySpace|
                    !k.eqv(
                        &spec_account_request(
                            *factor_source_id,
                            network_id,
                            KeySpace::Securified,
                        ),
                    ) implies final(cache).spec_has_key(k) == old(cache).spec_has_key(k) by {
                    if k.eqv(&request) {
                        assert(k.eqv(
                            &spec_account_request(
                                *factor_source_id,
                                network_id,
                                KeySpace::Securified,
                            ),
                        ));
                    }
                }
            }
            match FactorInstanceInSecurifiedSpace::new(instance) {
                Ok(w) => Ok(w),
                Err(_) => {
                    // The instance answers a securified request, so its
                    // key space cannot be refused.
                    proof {
                        assert(false);
                    }
                    Err(CommonError::NoSecurifiedInstanceForFactorSource)
                },
            }
        },
        None => {
            proof {
                assert forall|k: DerivationRequestInKeySpace|
                    !k.eqv(
                        &spec_account_request(
                            *factor_source_id,
                            network_id,
                            KeySpace::Securified,
                        ),
                    ) implies final(cache).spec_has_key(k) == old(cache).spec_has_key(k) by {
                    if k.eqv(&request) {
                        assert(k.eqv(
                            &spec_account_request(
                                *factor_source_id,
                                network_id,
                                KeySpace::Securified,
                            ),
                        ));
                    }
                }
            }
            Err(CommonError::NoSecurifiedInstanceForFactorSource)
        },
    }
}


/// Whether the cache can serve a securified request for every source.
pub open spec fn sources_requests_present(
    c: Cache,
    srcs: Seq<FactorSource>,
    network_id: NetworkID,
) -> bool {
    forall|j: int|
        0 <= j < srcs.len() ==> c.spec_has_key(
            spec_account_request(
                (#[trigger] srcs[j]).factor_source_id,
                network_id,
                KeySpace::Securified,
            ),
        )
}

/// Realize a matrix policy: substitute each factor source with a freshly
/// derived, key-space-checked securified instance taken from the cache.
/// The build succeeds exactly when the cache holds a securified instance
/// for every factor source of the policy.
pub fn build_matrix_of_instances_from_cache(
    cache: &mut Cache,
    matrix_of_factor_sources: &MatrixOfFactorSources,
    network_id: NetworkID,
) -> (r: Result<MatrixOfFactorInstances, CommonError>)
    requires
        old(cache).wf(),
    ensures
        final(cache).wf(),
        forall|x: FactorInstance|
            #![trigger final(cache).spec_has_instance(x)]
            final(cache).spec_has_instance(x) ==> old(cache).spec_has_instance(x),
        matrix_of_factor_sources.threshold > matrix_of_factor_sources.threshold_factors@.len()
            ==> r is Err && r->Err_0 == CommonError::ThresholdExceedsFactorCount && *final(cache)
            == *old(cache),
        matrix_of_factor_sources.wf() && !matrix_of_factor_sources.spec_factors_distinct() ==> r
            is Err && r->Err_0 == CommonError::DuplicateFactorSource && *final(cache) == *old(
            cache,
        ),
        matrix_of_factor_sources.wf() && matrix_of_factor_sources.spec_factors_distinct() ==> {
            &&& (r is Ok) == (sources_requests_present(
                *old(cache),
                matrix_of_factor_sources.threshold_factors@,
                network_id,
            ) && sources_requests_present(
                *old(cache),
                matrix_of_factor_sources.override_factors@,
                network_id,
            ))
            &&& (r is Err ==> r->Err_0 == CommonError::NoSecurifiedInstanceForFactorSource)
        },
        r is Ok ==> ({
            let m = r->Ok_0;
            &&& crate::new_types::matrix_wf(&m)
            &&& crate::new_types::matrix_instances_distinct(&m)
            &&& m.threshold == matrix_of_factor_sources.threshold
            &&& m.threshold_factors@.len() == matrix_of_factor_sources.threshold_factors@.len()
            &&& m.override_factors@.len() == matrix_of_factor_sources.override_factors@.len()
            &&& forall|i: int|
                0 <= i < m.threshold_factors@.len() ==> (
                #[trigger] m.threshold_factors@[i]).factor_instance.factor_source_id.eqv(
                    &matrix_of_factor_sources.threshold_factors@[i].factor_source_id,
                )
            &&& forall|i: int|
                0 <= i < m.override_factors@.len() ==> (
                #[trigger] m.override_factors@[i]).factor_instance.factor_source_id.eqv(
                    &matrix_of_factor_sources.override_factors@[i].factor_source_id,
                )
        }),
{
    if matrix_of_factor_sources.threshold > matrix_of_factor_sources.threshold_factors.len() {
        return Err(CommonError::ThresholdExceedsFactorCount);
    }
    if !matrix_of_factor_sources.factors_distinct() {
        return Err(CommonError::DuplicateFactorSource);
    }
    let ghost both = matrix_of_factor_sources.threshold_factors@
        + matrix_of_factor_sources.override_factors@;
    let n = matrix_of_factor_sources.threshold_factors.len();
    let m = matrix_of_factor_sources.override_factors.len();
    let mut threshold_factors: Vec<FactorInstanceInSecurifiedSpace> = Vec::new();
    for i in 0..n
        invariant
            n == matrix_of_factor_sources.threshold_factors@.len(),
            m == matrix_of_factor_sources.override_factors@.len(),
            matrix_of_factor_sources.threshold <= n,
            matrix_of_factor_sources.spec_factors_distinct(),
            both == matrix_of_factor_sources.threshold_factors@
                + matrix_of_factor_sources.override_factors@,
            threshold_factors@.len() == i,
            cache.wf(),
            forall|x: FactorInstance|
                #![trigger cache.spec_has_instance(x)]
                cache.spec_has_instance(x) ==> old(cache).spec_has_instance(x),
            forall|j: int|
                0 <= j < i ==> (#[trigger] threshold_factors@[j]).wf()
                    && threshold_factors@[j].factor_instance.factor_source_id.eqv(
                    &matrix_of_factor_sources.threshold_factors@[j].factor_source_id,
                ),
            forall|j: int|
                0 <= j < i ==> old(cache).spec_has_key(
                    spec_account_request(
                        (#[trigger] matrix_of_factor_sources.threshold_factors@[j]).factor_source_id,
                        network_id,
                        KeySpace::Securified,
                    ),
                ),
            forall|j: int|
                i <= j < n ==> cache.spec_has_key(
                    spec_account_request(
                        (#[trigger] matrix_of_factor_sources.threshold_factors@[j]).factor_source_id,
                        network_id,
                        KeySpace::Securified,
                    ),
                ) == old(cache).spec_has_key(
                    spec_account_request(
                        matrix_of_factor_sources.threshold_factors@[j].factor_source_id,
                        network_id,
                        KeySpace::Securified,
                    ),
                ),
            forall|j: int|
                0 <= j < m ==> cache.spec_has_key(
                    spec_account_request(
                        (#[trigger] matrix_of_factor_sources.override_factors@[j]).factor_source_id,
                        network_id,
                        KeySpace::Securified,
                    ),
                ) == old(cache).spec_has_key(
                    spec_account_request(
                        matrix_of_factor_sources.override_factors@[j].factor_source_id,
                        network_id,
                        KeySpace::Securified,
                    ),
                ),
    {
        let ghost cache_before = *cache;
        let src = &matrix_of_factor_sources.threshold_factors[i];
        match take_securified_instance(cache, &src.factor_source_id, network_id) {
            Ok(w) => {
                threshold_factors.push(w);
                proof {
                    lemma_matrix_take_preserves_keys(
                        matrix_of_factor_sources,
                        network_id,
                        cache_before,
                        *cache,
                        i as int,
                        true,
                    );
                }
            },
            Err(e) => {
                return Err(e);
            },
        }
    }
    let mut override_factors: Vec<FactorInstanceInSecurifiedSpace> = Vec::new();
    for i in 0..m
        invariant
            n == matrix_of_factor_sources.threshold_factors@.len(),
            m == matrix_of_factor_sources.override_factors@.len(),
            matrix_of_factor_sources.threshold <= n,
            matrix_of_factor_sources.spec_factors_distinct(),
            both == matrix_of_factor_sources.threshold_factors@
                + matrix_of_factor_sources.override_factors@,
            threshold_factors@.len() == n,
            override_factors@.len() == i,
            cache.wf(),
            forall|x: FactorInstance|
                #![trigger cache.spec_has_instance(x)]
                cache.spec_has_instance(x) ==> old(cache).spec_has_instance(x),
            forall|j: int|
                0 <= j < n ==> (#[trigger] threshold_factors@[j]).wf()
                    && threshold_factors@[j].factor_instance.factor_source_id.eqv(
                    &matrix_of_factor_sources.threshold_factors@[j].factor_source_id,
                ),
            forall|j: int|
                0 <= j < i ==> (#[trigger] override_factors@[j]).wf()
                    && override_factors@[j].factor_instance.factor_source_id.eqv(
                    &matrix_of_factor_sources.override_factors@[j].factor_source_id,
                ),
            sources_requests_present(
                *old(cache),
                matrix_of_factor_sources.threshold_factors@,
                network_id,
            ),
            forall|j: int|
                0 <= j < i ==> old(cache).spec_has_key(
                    spec_account_request(
                        (#[trigger] matrix_of_factor_sources.override_factors@[j]).factor_source_id,
                        network_id,
                        KeySpace::Securified,
                    ),
                ),
            forall|j: int|
                i <= j < m ==> cache.spec_has_key(
                    spec_account_request(
                        (#[trigger] matrix_of_factor_sources.override_factors@[j]).factor_source_id,
                        network_id,
                        KeySpace::Securified,
                    ),
                ) == old(cache).spec_has_key(
                    spec_account_request(
                        matrix_of_factor_sources.override_factors@[j].factor_source_id,
                        network_id,
                        KeySpace::Securified,
                    ),
                ),
    {
        let ghost cache_before = *cache;
        let src = &matrix_of_factor_sources.override_factors[i];
        match take_securified_instance(cache, &src.factor_source_id, network_id) {
            Ok(w) => {
                override_factors.push(w);
                proof {
                    lemma_matrix_take_preserves_keys(
                        matrix_of_factor_sources,
                        network_id,
                        cache_before,
                        *cache,
                        i as int,
                        false,
                    );
                }
            },
            Err(e) => {
                return Err(e);
            },
        }
    }
    proof {
        // Distinct policy sources yield pairwise distinct instances: each
        // taken instance carries its own source's identity.
        let tf = threshold_factors@;
        let of = override_factors@;
        let all = tf + of;
        assert forall|p: int, q: int|
            #![trigger all[p], all[q]]
            0 <= p < q < all.len() implies !all[p].eqv(&all[q]) by {
            if p < tf.len() as int {
                assert(all[p] == tf[p]);
                assert(both[p] == matrix_of_factor_sources.threshold_factors@[p]);
                assert(all[p].factor_instance.factor_source_id.eqv(&both[p].factor_source_id));
            } else {
                assert(all[p] == of[p - tf.len()]);
                assert(both[p] == matrix_of_factor_sources.override_factors@[p - tf.len()]);
                assert(all[p].factor_instance.factor_source_id.eqv(&both[p].factor_source_id));
            }
            if q < tf.len() as int {
                assert(all[q] == tf[q]);
                assert(both[q] == matrix_of_factor_sources.threshold_factors@[q]);
                assert(all[q].factor_instance.factor_source_id.eqv(&both[q].factor_source_id));
            } else {
                assert(all[q] == of[q - tf.len()]);
                assert(both[q] == matrix_of_factor_sources.override_factors@[q - tf.len()]);
                assert(all[q].factor_instance.factor_source_id.eqv(&both[q].factor_source_id));
            }
            assert(!both[p].eqv(&both[q]));
        }
    }
    match MatrixOfFactorInstances::new(
        threshold_factors,
        matrix_of_factor_sources.threshold,
        override_factors,
    ) {
        Ok(matrix) => Ok(matrix),
        Err(_) => {
            // The policy's threshold fits and its sources are distinct, so
            // neither refusal can fire.
            proof {
                assert(false);
            }
            Err(CommonError::NoSecurifiedInstanceForFactorSource)
        },
    }
}

/// After taking the instance for one source of a duplicate-free policy,
/// the securified requests of every other source are served exactly as
/// before.
proof fn lemma_matrix_take_preserves_keys(
    matrix: &MatrixOfFactorSources,
    network_id: NetworkID,
    before: Cache,
    after: Cache,
    i: int,
    threshold_side: bool,
)
    requires
        matrix.spec_factors_distinct(),
        threshold_side ==> 0 <= i < matrix.threshold_factors@.len(),
        !threshold_side ==> 0 <= i < matrix.override_factors@.len(),
        forall|k: DerivationRequestInKeySpace|
            #![trigger after.spec_has_key(k)]
            !k.eqv(
                &spec_account_request(
                    (if threshold_side {
                        matrix.threshold_factors@[i]
                    } else {
                        matrix.override_factors@[i]
                    }).factor_source_id,
                    network_id,
                    KeySpace::Securified,
                ),
            ) ==> after.spec_has_key(k) == before.spec_has_key(k),
    ensures
        forall|j: int|
            0 <= j < matrix.threshold_factors@.len() && (!threshold_side || j != i)
                ==> after.spec_has_key(
                spec_account_request(
                    (#[trigger] matrix.threshold_factors@[j]).factor_source_id,
                    network_id,
                    KeySpace::Securified,
                ),
            ) == before.spec_has_key(
                spec_account_request(
                    matrix.threshold_factors@[j].factor_source_id,
                    network_id,
                    KeySpace::Securified,
                ),
            ),
        forall|j: int|
            0 <= j < matrix.override_factors@.len() && (threshold_side || j != i)
                ==> after.spec_has_key(
                spec_account_request(
                    (#[trigger] matrix.override_factors@[j]).factor_source_id,
                    network_id,
                    KeySpace::Securified,
                ),
            ) == before.spec_has_key(
                spec_account_request(
                    matrix.override_factors@[j].factor_source_id,
                    network_id,
                    KeySpace::Securified,
                ),
            ),
{
    let both = matrix.threshold_factors@ + matrix.override_factors@;
    let taken_src = if threshold_side {
        matrix.threshold_factors@[i]
    } else {
        matrix.override_factors@[i]
    };
    let taken_idx: int = if threshold_side {
        i
    } else {
        matrix.threshold_factors@.len() + i
    };
    assert(both[taken_idx] == taken_src);
    assert forall|j: int|
        0 <= j < matrix.threshold_factors@.len() && (!threshold_side || j != i) implies
        after.spec_has_key(
        spec_account_request(
            (#[trigger] matrix.threshold_factors@[j]).factor_source_id,
            network_id,
            KeySpace::Securified,
        ),
    ) == before.spec_has_key(
        spec_account_request(
            matrix.threshold_factors@[j].factor_source_id,
            network_id,
            KeySpace::Securified,
        ),
    ) by {
        assert(both[j] == matrix.threshold_factors@[j]);
        assert(!both[j].eqv(&both[taken_idx]) && !both[taken_idx].eqv(&both[j]));
        let k = spec_account_request(
            matrix.threshold_factors@[j].factor_source_id,
            network_id,
            KeySpace::Securified,
        );
        assert(!k.eqv(
            &spec_account_request(taken_src.factor_source_id, network_id, KeySpace::Securified),
        ));
        assert(after.spec_has_key(k) == before.spec_has_key(k));
    }
    assert forall|j: int|
        0 <= j < matrix.override_factors@.len() && (threshold_side || j != i) implies
        after.spec_has_key(
        spec_account_request(
            (#[trigger] matrix.override_factors@[j]).factor_source_id,
            network_id,
            KeySpace::Securified,
        ),
    ) == before.spec_has_key(
        spec_account_request(
            matrix.override_factors@[j].factor_source_id,
            network_id,
            KeySpace::Securified,
        ),
    ) by {
        let jj = matrix.threshold_factors@.len() + j;
        assert(both[jj] == matrix.override_factors@[j]);
        assert(!both[jj].eqv(&both[taken_idx]) && !both[taken_idx].eqv(&both[jj]));
        let k = spec_account_request(
            matrix.override_factors@[j].factor_source_id,
            network_id,
            KeySpace::Securified,
        );
        assert(!k.eqv(
            &spec_account_request(taken_src.factor_source_id, network_id, KeySpace::Securified),
        ));
        assert(after.spec_has_key(k) == before.spec_has_key(k));
    }
}


impl<K: DerivationInteractors, G: Gateway, Q: IsDerivationDoneQuery> PolyDerivation<K, G, Q> {
    /// A scan for onboarding account recovery: every given factor source,
    /// mainnet, a fresh cache, the ledger as the only analyzer.
    pub fn oars(
        factor_sources: &FactorSources,
        gateway: G,
        derivation_interactors: K,
        is_derivation_done_query: Q,
    ) -> (r: Self)
        ensures
            r.wf(),
            r.is_derivation_done_query == is_derivation_done_query,
            forall|x: FactorInstance| !r.cache.spec_has_instance(x),
            match r.request_kind {
                PolyDeriveRequestKind::OARS { factor_sources: fs } => fs.0@.len()
                    == factor_sources.0@.len() && forall|i: int|
                    0 <= i < fs.0@.len() ==> (#[trigger] fs.0@[i]).eqv(&factor_sources.0@[i]),
                _ => false,
            },
    {
        Self::new(
            PolyDeriveRequestKind::OARS { factor_sources: factor_sources.clone() },
            None,
            OnChainAnalyzer::with_gateway(gateway),
            ProfileAnalyzer::dummy(),
            derivation_interactors,
            is_derivation_done_query,
        )
    }

    /// A scan for manual account recovery over a single factor source, on
    /// the profile's network, against both the ledger and the profile.
    pub fn mars(
        factor_source: &FactorSource,
        gateway: G,
        cache: Option<Cache>,
        profile: Profile,
        derivation_interactors: K,
        is_derivation_done_query: Q,
    ) -> (r: Self)
        requires
            cache is Some ==> cache->Some_0.wf(),
        ensures
            r.wf(),
            r.is_derivation_done_query == is_derivation_done_query,
            cache is Some ==> r.cache == cache->Some_0,
            match r.request_kind {
                PolyDeriveRequestKind::MARS { factor_source: fs, network_id } => fs.eqv(
                    factor_source,
                ) && network_id == NetworkID::Mainnet,
                _ => false,
            },
    {
        let network_id = profile.current_network();
        Self::new(
            PolyDeriveRequestKind::MARS { factor_source: factor_source.clone(), network_id },
            cache,
            OnChainAnalyzer::with_gateway(gateway),
            ProfileAnalyzer::with_profile(profile),
            derivation_interactors,
            is_derivation_done_query,
        )
    }
}

impl<K: DerivationInteractors, G: Gateway> PolyDerivation<
    K,
    G,
    WhenDerivedInstancesForFactorSource,
> {
    /// A scan that pre-derives a batch of instances for a factor source
    /// being added to the wallet; done once the batch for its kind is in.
    pub fn pre_derive_instance_for_new_factor_source(
        factor_source: &FactorSource,
        gateway: Option<G>,
        cache: Option<Cache>,
        profile: Profile,
        derivation_interactors: K,
    ) -> (r: Self)
        requires
            cache is Some ==> cache->Some_0.wf(),
        ensures
            r.wf(),
            match r.request_kind {
                PolyDeriveRequestKind::PreDeriveInstancesForNewFactorSource { factor_source: fs } => fs.eqv(
                    factor_source,
                ),
                _ => false,
            },
            match r.is_derivation_done_query.factor_source_selector {
                FactorSourceSelector::NewOfKind(kind) => kind
                    == factor_source.factor_source_id.factor_source_kind,
                _ => false,
            },
            r.profile_analyser.profile == Some(profile),
    {
        let selector = FactorSourceSelector::NewOfKind(
            factor_source.factor_source_id.factor_source_kind,
        );
        Self::new(
            PolyDeriveRequestKind::PreDeriveInstancesForNewFactorSource {
                factor_source: factor_source.clone(),
            },
            cache,
            OnChainAnalyzer::new(gateway),
            ProfileAnalyzer::with_profile(profile),
            derivation_interactors,
            WhenDerivedInstancesForFactorSource { factor_source_selector: selector },
        )
    }
}

impl<K: DerivationInteractors, G: Gateway> PolyDerivation<K, G, WhenMatchingSingle> {
    /// A scan that produces the one instance backing a new virtual
    /// unsecurified account; done once a free instance answers it.
    pub fn new_virtual_unsecurified_account(
        network_id: NetworkID,
        factor_source: &FactorSource,
        gateway: Option<G>,
        cache: Option<Cache>,
        profile: Profile,
        derivation_interactors: K,
    ) -> (r: Self)
        requires
            cache is Some ==> cache->Some_0.wf(),
        ensures
            r.wf(),
            match r.request_kind {
                PolyDeriveRequestKind::NewVirtualUnsecurifiedAccount {
                    network_id: nid,
                    factor_source: fs,
                } => fs.eqv(factor_source) && nid == network_id,
                _ => false,
            },
            r.is_derivation_done_query.request.eqv(
                &spec_account_request(
                    factor_source.factor_source_id,
                    network_id,
                    KeySpace::Unsecurified,
                ),
            ),
    {
        let request = DerivationRequestInKeySpace::new(
            factor_source.factor_source_id.clone(),
            network_id,
            CAP26EntityKind::Account,
            CAP26KeyKind::T9n,
            KeySpace::Unsecurified,
        );
        Self::new(
            PolyDeriveRequestKind::NewVirtualUnsecurifiedAccount {
                network_id,
                factor_source: factor_source.clone(),
            },
            cache,
            OnChainAnalyzer::new(gateway),
            ProfileAnalyzer::with_profile(profile),
            derivation_interactors,
            WhenMatchingSingle { request },
        )
    }
}

impl<K: DerivationInteractors, G: Gateway> PolyDerivation<K, G, AlwaysDone> {
    /// A scan that securifies an unsecurified account: one round derives
    /// a securified instance batch per factor source of the policy. An
    /// address with no unsecurified account behind it is refused.
    pub fn securify_unsecurified_account(
        account_address: AccountAddress,
        matrix_of_factor_sources: MatrixOfFactorSources,
        gateway: Option<G>,
        cache: Option<Cache>,
        profile: Profile,
        derivation_interactors: K,
    ) -> (r: Result<Self, CommonError>)
        requires
            cache is Some ==> cache->Some_0.wf(),
            profile.wf(),
        ensures
            matrix_of_factor_sources.threshold > matrix_of_factor_sources.threshold_factors@.len()
                ==> r is Err && r->Err_0 == CommonError::ThresholdExceedsFactorCount,
            matrix_of_factor_sources.wf() && !matrix_of_factor_sources.spec_factors_distinct()
                ==> r is Err && r->Err_0 == CommonError::DuplicateFactorSource,
            matrix_of_factor_sources.wf() && matrix_of_factor_sources.spec_factors_distinct()
                ==> {
                &&& (r is Ok) == exists|i: int|
                    0 <= i < profile.accounts@.len() && (#[trigger] profile.accounts@[i])
                        is Unsecurified && profile.accounts@[i].spec_address().eqv(
                        &account_address,
                    )
                &&& (r is Err ==> r->Err_0 == CommonError::AccountNotFound)
            },
            r is Ok ==> ({
                let d = r->Ok_0;
                &&& d.wf()
                &&& match d.request_kind {
                    PolyDeriveRequestKind::SecurifyUnsecurifiedAccount {
                        unsecurified_account: u,
                        matrix_of_factor_sources: mx,
                    } => u.address.eqv(&account_address) && mx == matrix_of_factor_sources
                        && mx.wf() && mx.spec_factors_distinct(),
                    _ => false,
                }
            }),
    {
        if matrix_of_factor_sources.threshold > matrix_of_factor_sources.threshold_factors.len() {
            return Err(CommonError::ThresholdExceedsFactorCount);
        }
        if !matrix_of_factor_sources.factors_distinct() {
            return Err(CommonError::DuplicateFactorSource);
        }
        let account = match profile.get_account(&account_address) {
            Ok(a) => a,
            Err(e) => {
                proof {
                    assert forall|i: int|
                        0 <= i < profile.accounts@.len() implies !((
                        #[trigger] profile.accounts@[i]) is Unsecurified
                        && profile.accounts@[i].spec_address().eqv(&account_address)) by {
                        if profile.accounts@[i].spec_address().eqv(&account_address) {
                            assert(profile.spec_has_address(account_address));
                        }
                    }
                }
                return Err(e);
            },
        };
        let unsecurified_account = match account.as_unsecurified() {
            Some(u) => u.clone(),
            None => {
                // The address names a securified account; there is no
                // unsecurified account to upgrade.
                proof {
                    let i0 = choose|i: int|
                        0 <= i < profile.accounts@.len() && (#[trigger] profile.accounts@[i]).eqv(
                            &account,
                        );
                    assert(profile.accounts@[i0] is Securified);
                    assert(profile.accounts@[i0].spec_address().eqv(&account_address));
                    assert forall|i: int|
                        0 <= i < profile.accounts@.len() implies !((
                        #[trigger] profile.accounts@[i]) is Unsecurified
                        && profile.accounts@[i].spec_address().eqv(&account_address)) by {
                        if i != i0 && profile.accounts@[i].spec_address().eqv(&account_address) {
                            assert(profile.accounts@[i].spec_address().eqv(
                                &profile.accounts@[i0].spec_address(),
                            ));
                            assert(false);
                        }
                    }
                }
                return Err(CommonError::AccountNotFound);
            },
        };
        proof {
            let i0 = choose|i: int|
                0 <= i < profile.accounts@.len() && (#[trigger] profile.accounts@[i]).eqv(
                    &account,
                );
            assert(profile.accounts@[i0] is Unsecurified);
            assert(profile.accounts@[i0].spec_address().eqv(&account_address));
        }
        Ok(
            Self::new(
                PolyDeriveRequestKind::SecurifyUnsecurifiedAccount {
                    unsecurified_account,
                    matrix_of_factor_sources,
                },
                cache,
                OnChainAnalyzer::new(gateway),
                ProfileAnalyzer::with_profile(profile),
                derivation_interactors,
                AlwaysDone,
            ),
        )
    }
}

/// Onboarding account recovery scan: derive until the completion policy
/// is satisfied, then build a fresh profile out of every account the scan
/// found in use, returning it with the refreshed cache.
pub fn oars<K: DerivationInteractors, G: Gateway, Q: IsDerivationDoneQuery>(
    factor_sources: FactorSources,
    interactors: K,
    gateway: G,
    is_derivation_done_query: Q,
) -> (r: Result<(Profile, Cache), CommonError>)
    ensures
        r is Ok ==> ({
            let profile = r->Ok_0.0;
            &&& profile.factor_sources == factor_sources
            &&& accounts_distinct(profile.accounts@)
            &&& forall|j: int|
                0 <= j < profile.accounts@.len() ==> (#[trigger] profile.accounts@[j])
                    is Unsecurified && profile.accounts@[j].wf()
                    && profile.accounts@[j].spec_address().network_id == NetworkID::Mainnet
            &&& forall|j: int|
                0 <= j < profile.accounts@.len() ==> !r->Ok_0.1.spec_has_instance(
                    (#[trigger] profile.accounts@[j])->Unsecurified_0.veci,
                )
            &&& r->Ok_0.1.wf()
        }),
{
    let derivation = PolyDerivation::oars(
        &factor_sources,
        gateway,
        interactors,
        is_derivation_done_query,
    );
    let analysis = match derivation.poly_derive() {
        Ok(a) => a,
        Err(e) => {
            return Err(e);
        },
    };
    let accounts = analysis.derived_instances.accounts_unsecurified(NetworkID::Mainnet);
    let ghost accounts_view = accounts@;
    let profile = Profile::new(factor_sources, accounts);
    proof {
        assert forall|j: int| 0 <= j < profile.accounts@.len() implies (
        #[trigger] profile.accounts@[j]) is Unsecurified && profile.accounts@[j].wf()
            && profile.accounts@[j].spec_address().network_id == NetworkID::Mainnet
            && !analysis.cache.spec_has_instance(profile.accounts@[j]->Unsecurified_0.veci) by {
            let k = choose|k: int|
                0 <= k < accounts_view.len() && (#[trigger] profile.accounts@[j]).eqv(
                    &accounts_view[k],
                );
            let taken = analysis.derived_instances.unsecurified_factor_instances@;
            assert(accounts_view[k]->Unsecurified_0.veci.eqv(&taken[k].factor_instance));
            assert(!analysis.cache.spec_has_instance(taken[k].factor_instance));
            if analysis.cache.spec_has_instance(profile.accounts@[j]->Unsecurified_0.veci) {
                crate::cache::lemma_cache_has_instance_congruent(
                    analysis.cache,
                    profile.accounts@[j]->Unsecurified_0.veci,
                    taken[k].factor_instance,
                );
            }
        }
    }
    Ok((profile, analysis.cache))
}

/// Manual account recovery scan over one factor source: derive until the
/// completion policy is satisfied, add every account found in use to the
/// profile, and return the refreshed cache. A failed scan leaves the
/// profile's accounts untouched.
pub fn mars<K: DerivationInteractors, G: Gateway, Q: IsDerivationDoneQuery>(
    factor_source: FactorSource,
    interactors: K,
    gateway: G,
    profile: &mut Profile,
    cache: Option<Cache>,
    is_derivation_done_query: Q,
) -> (r: Result<Cache, CommonError>)
    requires
        old(profile).wf(),
        cache is Some ==> cache->Some_0.wf(),
    ensures
        final(profile).factor_sources == old(profile).factor_sources,
        r is Err ==> final(profile).accounts@ == old(profile).accounts@,
        r is Ok ==> ({
            &&& r->Ok_0.wf()
            &&& final(profile).wf()
            &&& final(profile).accounts@.len() >= old(profile).accounts@.len()
            &&& forall|i: int|
                0 <= i < old(profile).accounts@.len() ==> final(profile).accounts@[i] == old(
                    profile,
                ).accounts@[i]
            &&& forall|i: int|
                old(profile).accounts@.len() <= i < final(profile).accounts@.len() ==> (
                #[trigger] final(profile).accounts@[i]) is Unsecurified
                    && final(profile).accounts@[i].wf()
        }),
{
    let network_id = profile.current_network();
    let derivation = PolyDerivation::mars(
        &factor_source,
        gateway,
        cache,
        profile.clone(),
        interactors,
        is_derivation_done_query,
    );
    let analysis = match derivation.poly_derive() {
        Ok(a) => a,
        Err(e) => {
            return Err(e);
        },
    };
    let accounts = analysis.derived_instances.accounts_unsecurified(network_id);
    match profile.insert_accounts(accounts) {
        Ok(()) => {},
        Err(e) => {
            return Err(e);
        },
    }
    Ok(analysis.cache)
}

} // verus!

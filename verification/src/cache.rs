//! The instance cache: a pool of not-yet-consumed factor instances, keyed
//! by abstract derivation request.
//!
//! A bulk `load` reports, per request, whether the pool could serve it, and
//! consumes what it hands out: an instance is never issued twice. Absence
//! is reported through the outcome's flags, never as an error.

use vstd::prelude::*;

use crate::new_types::{
    pool_has, DerivationRequestInKeySpace, FactorInstances, ProbablyFreeFactorInstances,
};
use crate::sargon_types::FactorInstance;

verus! {

/// Membership of a request among requests, up to value equality.
pub open spec fn seq_has_req(rs: Seq<DerivationRequestInKeySpace>, k: DerivationRequestInKeySpace) -> bool {
    exists|i: int| 0 <= i < rs.len() && (#[trigger] rs[i]).eqv(&k)
}

/// One cache entry: the pool serving one abstract request.
pub open spec fn entry_sound(e: (DerivationRequestInKeySpace, FactorInstances)) -> bool {
    &&& e.0.wf()
    &&& e.1.wf()
    &&& e.1.0@.len() > 0
    &&& forall|j: int|
        0 <= j < e.1.0@.len() ==> (#[trigger] e.1.0@[j]).spec_derivation_in_key_space().eqv(&e.0)
}

/// Every entry holds a nonempty, consistent pool answering its own key.
pub open spec fn entries_sound(es: Seq<(DerivationRequestInKeySpace, FactorInstances)>) -> bool {
    forall|i: int| 0 <= i < es.len() ==> entry_sound(#[trigger] es[i])
}

/// No two entries serve the same request.
pub open spec fn entries_keys_distinct(es: Seq<(DerivationRequestInKeySpace, FactorInstances)>) -> bool {
    forall|i: int, j: int| #![trigger es[i], es[j]] 0 <= i < j < es.len() ==> !es[i].0.eqv(&es[j].0)
}

/// Whether some entry serves the request `k`.
pub open spec fn entries_have_key(
    es: Seq<(DerivationRequestInKeySpace, FactorInstances)>,
    k: DerivationRequestInKeySpace,
) -> bool {
    exists|i: int| 0 <= i < es.len() && (#[trigger] es[i]).0.eqv(&k)
}

/// Whether some entry's pool holds the instance `x`.
pub open spec fn entries_have_instance(
    es: Seq<(DerivationRequestInKeySpace, FactorInstances)>,
    x: FactorInstance,
) -> bool {
    exists|i: int| 0 <= i < es.len() && pool_has((#[trigger] es[i]).1.0@, x)
}

/// The cache's content: pools of unused instances, one per request key.
#[derive(Debug)]
pub struct CachedFactorInstances(pub Vec<(DerivationRequestInKeySpace, FactorInstances)>);

impl CachedFactorInstances {
    pub open spec fn wf(&self) -> bool {
        entries_keys_distinct(self.0@) && entries_sound(self.0@)
    }

    pub open spec fn spec_has_key(&self, k: DerivationRequestInKeySpace) -> bool {
        entries_have_key(self.0@, k)
    }

    pub open spec fn spec_has_instance(&self, x: FactorInstance) -> bool {
        entries_have_instance(self.0@, x)
    }

    pub fn empty() -> (r: Self)
        ensures
            r.0@.len() == 0,
            r.wf(),
    {
        CachedFactorInstances(Vec::new())
    }

    /// Whether some entry serves `k`.
    pub fn contains_key(&self, k: &DerivationRequestInKeySpace) -> (r: bool)
        ensures
            r == self.spec_has_key(*k),
    {
        self.find_key(k).is_some()
    }

    /// The index of the entry serving `k`, if any.
    fn find_key(&self, k: &DerivationRequestInKeySpace) -> (r: Option<usize>)
        ensures
            r is Some ==> 0 <= r->Some_0 < self.0@.len() && self.0@[r->Some_0 as int].0.eqv(k),
            (r is Some) == self.spec_has_key(*k),
    {
        let n = self.0.len();
        for i in 0..n
            invariant
                n == self.0@.len(),
                forall|j: int| 0 <= j < i ==> !(#[trigger] self.0@[j]).0.eqv(k),
        {
            let e = &self.0[i];
            if e.0 == *k {
                return Some(i);
            }
            proof {
                assert(!self.0@[i as int].0.eqv(k));
            }
        }
        None
    }
}

/// What a bulk load returned: which requests could be served from the
/// pool, and the pools that were handed out (and thereby consumed).
#[derive(Debug)]
pub struct CacheLoadOutcome {
    pub requests: Vec<DerivationRequestInKeySpace>,
    /// Response to `requests`.
    pub factor_instances: CachedFactorInstances,
    /// Whether every request had at least one available instance.
    pub is_satisfying_all_requests: bool,
    /// Whether more instances should be derived, because some request
    /// could not be served from the pool.
    pub should_derive_more: bool,
}

impl CacheLoadOutcome {
    pub fn is_empty(&self) -> (r: bool)
        ensures
            r == (self.factor_instances.0@.len() == 0),
    {
        self.factor_instances.0.len() == 0
    }
}

/// The shared pool of pre-derived, not-yet-consumed factor instances.
#[derive(Debug)]
pub struct Cache {
    pub factor_instances_for_requests: CachedFactorInstances,
}

impl Cache {
    pub open spec fn wf(&self) -> bool {
        self.factor_instances_for_requests.wf()
    }

    pub open spec fn spec_has_key(&self, k: DerivationRequestInKeySpace) -> bool {
        self.factor_instances_for_requests.spec_has_key(k)
    }

    pub open spec fn spec_has_instance(&self, x: FactorInstance) -> bool {
        self.factor_instances_for_requests.spec_has_instance(x)
    }

    /// A cache holding the given pools.
    pub fn with_map(map: CachedFactorInstances) -> (r: Self)
        ensures
            r.factor_instances_for_requests == map,
    {
        Cache { factor_instances_for_requests: map }
    }

    /// A cache with nothing in it.
    pub fn empty() -> (r: Self)
        ensures
            r.wf(),
            r.factor_instances_for_requests.0@.len() == 0,
            forall|k: DerivationRequestInKeySpace| !r.spec_has_key(k),
            forall|x: FactorInstance| !r.spec_has_instance(x),
    {
        Cache::with_map(CachedFactorInstances::empty())
    }

    /// The pool serving `key`, if any, without consuming it.
    pub fn get(&self, key: &DerivationRequestInKeySpace) -> (r: Option<FactorInstances>)
        ensures
            (r is Some) == self.spec_has_key(*key),
            r is Some ==> forall|x: FactorInstance|
                pool_has(r->Some_0.0@, x) ==> self.spec_has_instance(x),
            self.wf() && r is Some ==> r->Some_0.wf() && r->Some_0.0@.len() > 0,
    {
        let entries = &self.factor_instances_for_requests;
        match entries.find_key(key) {
            Some(i) => {
                let pool = entries.0[i].1.clone();
                proof {
                    assert forall|x: FactorInstance| pool_has(pool.0@, x) implies
                        self.spec_has_instance(x) by {
                        assert(pool_has(entries.0@[i as int].1.0@, x));
                    }
                }
                Some(pool)
            },
            None => None,
        }
    }

    /// Put one instance into the pool of its own request key.
    pub fn insert_instance(&mut self, instance: FactorInstance)
        requires
            instance.wf(),
        ensures
            old(self).wf() ==> final(self).wf(),
            forall|k: DerivationRequestInKeySpace|
                #![trigger final(self).spec_has_key(k)]
                #![trigger old(self).spec_has_key(k)]
                final(self).spec_has_key(k) == (old(self).spec_has_key(k)
                    || instance.spec_derivation_in_key_space().eqv(&k)),
            forall|x: FactorInstance|
                #![trigger final(self).spec_has_instance(x)]
                #![trigger old(self).spec_has_instance(x)]
                final(self).spec_has_instance(x) == (old(self).spec_has_instance(x) || x.eqv(
                    &instance,
                )),
    {
        let key = instance.derivation_in_key_space();
        let entries = &mut self.factor_instances_for_requests;
        let found = entries.find_key(&key);
        match found {
            Some(i) => {
                let ghost es0 = entries.0@;
                let mut entry = entries.0.remove(i);
                entry.1.push_if_absent(instance);
                entries.0.insert(i, entry);
                proof {
                    let es1 = entries.0@;
                    assert(es1.len() == es0.len());
                    assert(forall|j: int| 0 <= j < es0.len() && j != i ==> es1[j] == es0[j]);
                    assert(es1[i as int].0 == es0[i as int].0);
                    lemma_insert_into_entry(es0, es1, i as int, instance, key);
                }
            },
            None => {
                let ghost es0 = entries.0@;
                let mut pool = FactorInstances::empty();
                pool.push_if_absent(instance);
                entries.0.push((key, pool));
                proof {
                    lemma_insert_new_entry(es0, entries.0@, instance, key);
                }
            },
        }
    }

    /// Serve a batch of requests from the pool. Every request is evaluated
    /// independently; a miss for one key never short-circuits the others.
    /// Whatever is handed out is removed from the pool, so no instance is
    /// ever issued twice; a key whose pool was consumed reports a miss on
    /// the next load.
    pub fn load(&mut self, requests: Vec<DerivationRequestInKeySpace>) -> (outcome: CacheLoadOutcome)
        requires
            old(self).wf(),
        ensures
            outcome.requests == requests,
            outcome.is_satisfying_all_requests == (forall|j: int|
                0 <= j < requests@.len() ==> old(self).spec_has_key(#[trigger] requests@[j])),
            outcome.should_derive_more == !outcome.is_satisfying_all_requests,
            forall|k: DerivationRequestInKeySpace|
                #![trigger outcome.factor_instances.spec_has_key(k)]
                outcome.factor_instances.spec_has_key(k) == (old(self).spec_has_key(k)
                    && seq_has_req(requests@, k)),
            forall|k: DerivationRequestInKeySpace|
                #![trigger final(self).spec_has_key(k)]
                final(self).spec_has_key(k) == (old(self).spec_has_key(k) && !seq_has_req(
                    requests@,
                    k,
                )),
            forall|y: FactorInstance|
                #![trigger outcome.factor_instances.spec_has_instance(y)]
                outcome.factor_instances.spec_has_instance(y) == (old(self).spec_has_instance(y)
                    && seq_has_req(requests@, y.spec_derivation_in_key_space())),
            forall|y: FactorInstance|
                #![trigger final(self).spec_has_instance(y)]
                final(self).spec_has_instance(y) == (old(self).spec_has_instance(y)
                    && !seq_has_req(requests@, y.spec_derivation_in_key_space())),
            final(self).wf(),
            outcome.factor_instances.wf(),
    {
        // First decide, per request, whether the pool can serve it.
        let mut all_hit = true;
        let n = requests.len();
        for idx in 0..n
            invariant
                *self == *old(self),
                self.wf(),
                n == requests@.len(),
                all_hit == (forall|j: int|
                    0 <= j < idx ==> old(self).spec_has_key(#[trigger] requests@[j])),
        {
            let present = self.factor_instances_for_requests.find_key(&requests[idx]).is_some();
            if !present {
                all_hit = false;
            }
        }
        // Then move every entry whose key was requested out of the pool.
        let mut entries_vec: Vec<(DerivationRequestInKeySpace, FactorInstances)> = Vec::new();
        core::mem::swap(&mut entries_vec, &mut self.factor_instances_for_requests.0);
        let ghost es = entries_vec@;
        let ghost rq = requests@;
        let mut found = CachedFactorInstances(Vec::new());
        let mut remaining = CachedFactorInstances(Vec::new());
        let ghost mut i: int = 0;
        while entries_vec.len() > 0
            invariant
                entries_keys_distinct(es) && entries_sound(es),
                0 <= i,
                i + entries_vec@.len() == es.len(),
                entries_vec@ == es.skip(i),
                rq == requests@,
                entries_keys_distinct(found.0@) && entries_sound(found.0@),
                entries_keys_distinct(remaining.0@) && entries_sound(remaining.0@),
                forall|k: DerivationRequestInKeySpace|
                    #![trigger entries_have_key(found.0@, k)]
                    entries_have_key(found.0@, k) == (entries_have_key(es.take(i), k)
                        && seq_has_req(rq, k)),
                forall|k: DerivationRequestInKeySpace|
                    #![trigger entries_have_key(remaining.0@, k)]
                    entries_have_key(remaining.0@, k) == (entries_have_key(es.take(i), k)
                        && !seq_has_req(rq, k)),
                forall|y: FactorInstance|
                    #![trigger entries_have_instance(found.0@, y)]
                    entries_have_instance(found.0@, y) == (entries_have_instance(es.take(i), y)
                        && seq_has_req(rq, y.spec_derivation_in_key_space())),
                forall|y: FactorInstance|
                    #![trigger entries_have_instance(remaining.0@, y)]
                    entries_have_instance(remaining.0@, y) == (entries_have_instance(es.take(i), y)
                        && !seq_has_req(rq, y.spec_derivation_in_key_space())),
            decreases entries_vec@.len(),
        {
            let e = entries_vec.remove(0);
            proof {
                assert(es.skip(i)[0] == es[i]);
                assert(entries_vec@ =~= es.skip(i + 1));
            }
            let ghost pf = found.0@;
            let ghost pr = remaining.0@;
            let hit = req_list_contains(&requests, &e.0);
            if hit {
                found.0.push(e);
            } else {
                remaining.0.push(e);
            }
            proof {
                lemma_load_split_step(es, rq, i, pf, found.0@, pr, remaining.0@, hit);
                i = i + 1;
            }
        }
        proof {
            assert(es.take(es.len() as int) =~= es);
        }
        self.factor_instances_for_requests = remaining;
        CacheLoadOutcome {
            requests,
            factor_instances: found,
            is_satisfying_all_requests: all_hit,
            should_derive_more: !all_hit,
        }
    }

    /// Consume one instance answering `key`: the pool for the key is
    /// loaded, one instance is handed out, and the siblings are pooled
    /// again. Pools of other keys are untouched.
    pub fn take_instance(&mut self, key: &DerivationRequestInKeySpace) -> (r: Option<
        FactorInstance,
    >)
        requires
            old(self).wf(),
        ensures
            final(self).wf(),
            (r is Some) == old(self).spec_has_key(*key),
            r is Some ==> r->Some_0.wf() && r->Some_0.spec_derivation_in_key_space().eqv(key)
                && old(self).spec_has_instance(r->Some_0),
            forall|x: FactorInstance|
                #![trigger final(self).spec_has_instance(x)]
                final(self).spec_has_instance(x) ==> old(self).spec_has_instance(x),
            forall|k: DerivationRequestInKeySpace|
                #![trigger final(self).spec_has_key(k)]
                !k.eqv(key) ==> final(self).spec_has_key(k) == old(self).spec_has_key(k),
    {
        let mut requests: Vec<DerivationRequestInKeySpace> = Vec::new();
        requests.push(key.clone());
        let ghost rq = requests@;
        let outcome = self.load(requests);
        proof {
            lemma_entries_have_key_congruent(
                old(self).factor_instances_for_requests.0@,
                rq[0],
                *key,
            );
        }
        let mut taken: Option<FactorInstance> = None;
        let entry_count = outcome.factor_instances.0.len();
        for ei in 0..entry_count
            invariant
                entry_count == outcome.factor_instances.0@.len(),
                outcome.factor_instances.wf(),
                rq.len() == 1,
                rq[0].eqv(key),
                forall|k: DerivationRequestInKeySpace|
                    #![trigger outcome.factor_instances.spec_has_key(k)]
                    outcome.factor_instances.spec_has_key(k) ==> seq_has_req(rq, k),
                forall|y: FactorInstance|
                    #![trigger outcome.factor_instances.spec_has_instance(y)]
                    outcome.factor_instances.spec_has_instance(y) ==> old(self).spec_has_instance(
                        y,
                    ),
                self.wf(),
                ei > 0 ==> taken is Some,
                taken is Some ==> {
                    let t = taken->Some_0;
                    &&& t.wf()
                    &&& t.spec_derivation_in_key_space().eqv(key)
                    &&& old(self).spec_has_instance(t)
                },
                forall|x: FactorInstance|
                    #![trigger self.spec_has_instance(x)]
                    self.spec_has_instance(x) ==> old(self).spec_has_instance(x),
                forall|k: DerivationRequestInKeySpace|
                    #![trigger self.spec_has_key(k)]
                    !k.eqv(key) ==> self.spec_has_key(k) == old(self).spec_has_key(k),
        {
            let pool_len = outcome.factor_instances.0[ei].1.0.len();
            for ii in 0..pool_len
                invariant
                    entry_count == outcome.factor_instances.0@.len(),
                    ei < entry_count,
                    pool_len == outcome.factor_instances.0@[ei as int].1.0@.len(),
                    outcome.factor_instances.wf(),
                    rq.len() == 1,
                    rq[0].eqv(key),
                    forall|k: DerivationRequestInKeySpace|
                        #![trigger outcome.factor_instances.spec_has_key(k)]
                        outcome.factor_instances.spec_has_key(k) ==> seq_has_req(rq, k),
                    forall|y: FactorInstance|
                        #![trigger outcome.factor_instances.spec_has_instance(y)]
                        outcome.factor_instances.spec_has_instance(y) ==> old(
                            self,
                        ).spec_has_instance(y),
                    self.wf(),
                    ii > 0 || ei > 0 ==> taken is Some,
                    taken is Some ==> {
                        let t = taken->Some_0;
                        &&& t.wf()
                        &&& t.spec_derivation_in_key_space().eqv(key)
                        &&& old(self).spec_has_instance(t)
                    },
                    forall|x: FactorInstance|
                        #![trigger self.spec_has_instance(x)]
                        self.spec_has_instance(x) ==> old(self).spec_has_instance(x),
                    forall|k: DerivationRequestInKeySpace|
                        #![trigger self.spec_has_key(k)]
                        !k.eqv(key) ==> self.spec_has_key(k) == old(self).spec_has_key(k),
            {
                let x = outcome.factor_instances.0[ei].1.0[ii].clone();
                let ghost orig = outcome.factor_instances.0@[ei as int].1.0@[ii as int];
                proof {
                    assert(entry_sound(outcome.factor_instances.0@[ei as int]));
                    assert(orig.wf());
                    assert(pool_has(outcome.factor_instances.0@[ei as int].1.0@, orig));
                    assert(outcome.factor_instances.spec_has_instance(orig));
                    // The pool entry answers a requested key, and the only
                    // request is (equal to) `key`.
                    assert(orig.spec_derivation_in_key_space().eqv(
                        &outcome.factor_instances.0@[ei as int].0,
                    ));
                    assert(outcome.factor_instances.spec_has_key(
                        outcome.factor_instances.0@[ei as int].0,
                    )) by {
                        assert(outcome.factor_instances.0@[ei as int].0.eqv(
                            &outcome.factor_instances.0@[ei as int].0,
                        ));
                    }
                    assert(seq_has_req(rq, outcome.factor_instances.0@[ei as int].0));
                    assert(orig.spec_derivation_in_key_space().eqv(key));
                    assert(x.spec_derivation_in_key_space().eqv(key));
                    assert(old(self).spec_has_instance(x)) by {
                        let es = old(self).factor_instances_for_requests.0@;
                        let l = choose|l: int|
                            0 <= l < es.len() && pool_has((#[trigger] es[l]).1.0@, orig);
                        let m = choose|m: int|
                            0 <= m < es[l].1.0@.len() && (#[trigger] es[l].1.0@[m]).eqv(&orig);
                        assert(es[l].1.0@[m].eqv(&x));
                        assert(pool_has(es[l].1.0@, x));
                    }
                }
                if taken.is_none() {
                    taken = Some(x);
                } else {
                    let ghost mid = *self;
                    self.insert_instance(x);
                    proof {
                        assert forall|y: FactorInstance| self.spec_has_instance(y) implies old(
                            self,
                        ).spec_has_instance(y) by {
                            if !mid.spec_has_instance(y) {
                                assert(y.eqv(&x));
                                let es = old(self).factor_instances_for_requests.0@;
                                let l = choose|l: int|
                                    0 <= l < es.len() && pool_has((#[trigger] es[l]).1.0@, x);
                                let m = choose|m: int|
                                    0 <= m < es[l].1.0@.len() && (#[trigger] es[l].1.0@[m]).eqv(
                                        &x,
                                    );
                                assert(es[l].1.0@[m].eqv(&y));
                                assert(pool_has(es[l].1.0@, y));
                            }
                        }
                        assert forall|k: DerivationRequestInKeySpace| !k.eqv(key) implies
                            self.spec_has_key(k) == old(self).spec_has_key(k) by {
                            if x.spec_derivation_in_key_space().eqv(&k) {
                                assert(k.eqv(key));
                            }
                            assert(self.spec_has_key(k) == mid.spec_has_key(k));
                        }
                    }
                }
            }
            proof {
                if pool_len > 0 {
                    assert(taken is Some);
                } else {
                    assert(entry_sound(outcome.factor_instances.0@[ei as int]));
                    assert(false);
                }
            }
        }
        proof {
            if old(self).spec_has_key(*key) {
                assert(outcome.factor_instances.spec_has_key(rq[0])) by {
                    assert(seq_has_req(rq, rq[0])) by {
                        assert(rq[0].eqv(&rq[0]));
                    }
                    lemma_entries_have_key_congruent(
                        old(self).factor_instances_for_requests.0@,
                        rq[0],
                        *key,
                    );
                }
                assert(outcome.factor_instances.0@.len() > 0) by {
                    let l = choose|l: int|
                        0 <= l < outcome.factor_instances.0@.len() && (
                        #[trigger] outcome.factor_instances.0@[l]).0.eqv(&rq[0]);
                }
                assert(taken is Some);
            }
            if taken is Some {
                let t = taken->Some_0;
                assert(old(self).spec_has_instance(t));
                let es = old(self).factor_instances_for_requests.0@;
                let l = choose|l: int| 0 <= l < es.len() && pool_has((#[trigger] es[l]).1.0@, t);
                let m = choose|m: int|
                    0 <= m < es[l].1.0@.len() && (#[trigger] es[l].1.0@[m]).eqv(&t);
                assert(es[l].1.0@[m].spec_derivation_in_key_space().eqv(&es[l].0));
                assert(es[l].0.eqv(key));
                assert(old(self).spec_has_key(*key));
            }
        }
        taken
    }

    /// Seed a cache: group the instances by their abstracted derivation
    /// request, each group becoming that key's pool.
    pub fn new(probably_free_factor_instances: ProbablyFreeFactorInstances) -> (r: Self)
        requires
            forall|i: int|
                0 <= i < probably_free_factor_instances.0@.len() ==> (
                #[trigger] probably_free_factor_instances.0@[i]).wf(),
        ensures
            r.wf(),
            forall|x: FactorInstance|
                r.spec_has_instance(x) == pool_has(probably_free_factor_instances.0@, x),
            forall|k: DerivationRequestInKeySpace|
                r.spec_has_key(k) == (exists|i: int|
                    0 <= i < probably_free_factor_instances.0@.len() && (
                    #[trigger] probably_free_factor_instances.0@[i]).spec_derivation_in_key_space().eqv(
                        &k,
                    )),
    {
        let instances = probably_free_factor_instances.0;
        let n = instances.len();
        let mut r = Cache::empty();
        for i in 0..n
            invariant
                n == instances@.len(),
                forall|j: int| 0 <= j < n ==> (#[trigger] instances@[j]).wf(),
                r.wf(),
                forall|x: FactorInstance|
                    r.spec_has_instance(x) == pool_has(instances@.take(i as int), x),
                forall|k: DerivationRequestInKeySpace|
                    r.spec_has_key(k) == (exists|j: int|
                        0 <= j < i && (#[trigger] instances@[j]).spec_derivation_in_key_space().eqv(
                            &k,
                        )),
        {
            let x = instances[i].clone();
            let ghost prev = r;
            r.insert_instance(x);
            proof {
                assert forall|y: FactorInstance| r.spec_has_instance(y) == pool_has(
                    instances@.take(i + 1),
                    y,
                ) by {
                    if pool_has(instances@.take(i + 1), y) {
                        let k = choose|k: int|
                            0 <= k < instances@.take(i + 1).len() && (#[trigger] instances@.take(
                                i + 1,
                            )[k]).eqv(&y);
                        if k < i {
                            assert(instances@.take(i as int)[k].eqv(&y));
                            assert(pool_has(instances@.take(i as int), y));
                            assert(prev.spec_has_instance(y));
                            assert(r.spec_has_instance(y));
                        } else {
                            assert(instances@[i as int].eqv(&y));
                            assert(y.eqv(&x));
                            assert(r.spec_has_instance(y));
                        }
                    }
                    if r.spec_has_instance(y) {
                        if prev.spec_has_instance(y) {
                            assert(pool_has(instances@.take(i as int), y));
                            let k = choose|k: int|
                                0 <= k < instances@.take(i as int).len() && (
                                #[trigger] instances@.take(i as int)[k]).eqv(&y);
                            assert(instances@.take(i + 1)[k].eqv(&y));
                            assert(pool_has(instances@.take(i + 1), y));
                        } else {
                            assert(y.eqv(&x));
                            assert(instances@.take(i + 1)[i as int].eqv(&y));
                            assert(pool_has(instances@.take(i + 1), y));
                        }
                    }
                }
                assert forall|k: DerivationRequestInKeySpace| r.spec_has_key(k) == (exists|j: int|
                    0 <= j <= i && (#[trigger] instances@[j]).spec_derivation_in_key_space().eqv(
                        &k,
                    )) by {
                    if r.spec_has_key(k) {
                        if prev.spec_has_key(k) {
                            let j = choose|j: int|
                                0 <= j < i && (#[trigger] instances@[j]).spec_derivation_in_key_space().eqv(
                                    &k,
                                );
                            assert(instances@[j].spec_derivation_in_key_space().eqv(&k));
                        } else {
                            assert(x.spec_derivation_in_key_space().eqv(&k));
                            assert(instances@[i as int].spec_derivation_in_key_space().eqv(&k));
                        }
                    }
                    if exists|j: int|
                        0 <= j <= i && (#[trigger] instances@[j]).spec_derivation_in_key_space().eqv(
                            &k,
                        ) {
                        let j = choose|j: int|
                            0 <= j <= i && (#[trigger] instances@[j]).spec_derivation_in_key_space().eqv(
                                &k,
                            );
                        if j < i {
                            assert(prev.spec_has_key(k));
                        } else {
                            assert(x.spec_derivation_in_key_space().eqv(&k));
                        }
                    }
                }
            }
        }
        proof {
            assert(instances@.take(n as int) =~= instances@);
        }
        r
    }
}

/// Value-equal instances are pooled alike.
pub proof fn lemma_cache_has_instance_congruent(c: Cache, x1: FactorInstance, x2: FactorInstance)
    requires
        x1.eqv(&x2),
    ensures
        c.spec_has_instance(x1) == c.spec_has_instance(x2),
{
    let es = c.factor_instances_for_requests.0@;
    if c.spec_has_instance(x1) {
        let l = choose|l: int| 0 <= l < es.len() && pool_has((#[trigger] es[l]).1.0@, x1);
        let m = choose|m: int| 0 <= m < es[l].1.0@.len() && (#[trigger] es[l].1.0@[m]).eqv(&x1);
        assert(es[l].1.0@[m].eqv(&x2));
        assert(pool_has(es[l].1.0@, x2));
    }
    if c.spec_has_instance(x2) {
        let l = choose|l: int| 0 <= l < es.len() && pool_has((#[trigger] es[l]).1.0@, x2);
        let m = choose|m: int| 0 <= m < es[l].1.0@.len() && (#[trigger] es[l].1.0@[m]).eqv(&x2);
        assert(es[l].1.0@[m].eqv(&x1));
        assert(pool_has(es[l].1.0@, x1));
    }
}

/// In a consistent cache an instance sits in the pool of its own request,
/// so holding the instance means holding its key.
pub proof fn lemma_cache_instance_implies_key(c: Cache, x: FactorInstance)
    requires
        c.wf(),
        c.spec_has_instance(x),
    ensures
        c.spec_has_key(x.spec_derivation_in_key_space()),
{
    let es = c.factor_instances_for_requests.0@;
    let l = choose|l: int| 0 <= l < es.len() && pool_has((#[trigger] es[l]).1.0@, x);
    let m = choose|m: int| 0 <= m < es[l].1.0@.len() && (#[trigger] es[l].1.0@[m]).eqv(&x);
    assert(entry_sound(es[l]));
    assert(es[l].1.0@[m].spec_derivation_in_key_space().eqv(&es[l].0));
    assert(es[l].0.eqv(&x.spec_derivation_in_key_space()));
}

/// Value-equal requests are served by the same pools of a cache.
pub proof fn lemma_cache_has_key_congruent(
    c: Cache,
    k1: DerivationRequestInKeySpace,
    k2: DerivationRequestInKeySpace,
)
    requires
        k1.eqv(&k2),
    ensures
        c.spec_has_key(k1) == c.spec_has_key(k2),
{
    lemma_entries_have_key_congruent(c.factor_instances_for_requests.0@, k1, k2);
}

/// Value-equal requests are served by the same entries.
proof fn lemma_entries_have_key_congruent(
    es: Seq<(DerivationRequestInKeySpace, FactorInstances)>,
    k1: DerivationRequestInKeySpace,
    k2: DerivationRequestInKeySpace,
)
    requires
        k1.eqv(&k2),
    ensures
        entries_have_key(es, k1) == entries_have_key(es, k2),
{
    if entries_have_key(es, k1) {
        let j = choose|j: int| 0 <= j < es.len() && (#[trigger] es[j]).0.eqv(&k1);
        assert(es[j].0.eqv(&k2));
    }
    if entries_have_key(es, k2) {
        let j = choose|j: int| 0 <= j < es.len() && (#[trigger] es[j]).0.eqv(&k2);
        assert(es[j].0.eqv(&k1));
    }
}

/// Law: a cache seeded from a pool serves every request whose key some
/// pool instance answers, so a load of such requests reports that it
/// satisfied them all. The premises are exactly what `Cache::new` ensures
/// of the seeded cache.
pub proof fn lemma_seeded_cache_satisfies(
    c: Cache,
    pool: Seq<FactorInstance>,
    requests: Seq<DerivationRequestInKeySpace>,
)
    requires
        forall|k: DerivationRequestInKeySpace|
            #![trigger c.spec_has_key(k)]
            c.spec_has_key(k) == (exists|i: int|
                0 <= i < pool.len() && (#[trigger] pool[i]).spec_derivation_in_key_space().eqv(
                    &k,
                )),
        forall|j: int|
            #![trigger requests[j]]
            0 <= j < requests.len() ==> exists|i: int|
                0 <= i < pool.len() && (#[trigger] pool[i]).spec_derivation_in_key_space().eqv(
                    &requests[j],
                ),
    ensures
        forall|j: int| 0 <= j < requests.len() ==> c.spec_has_key(#[trigger] requests[j]),
{
}

/// Law: loading consumes. The premises are exactly what `Cache::load`
/// ensures of the cache it leaves behind; every key that the load served
/// now misses, so a second identical load satisfies nothing it consumed.
pub proof fn lemma_no_double_issue(
    c0: Cache,
    c1: Cache,
    requests: Seq<DerivationRequestInKeySpace>,
)
    requires
        forall|k: DerivationRequestInKeySpace|
            #![trigger c1.spec_has_key(k)]
            c1.spec_has_key(k) == (c0.spec_has_key(k) && !seq_has_req(requests, k)),
    ensures
        forall|j: int| 0 <= j < requests.len() ==> !c1.spec_has_key(#[trigger] requests[j]),
        requests.len() > 0 ==> !(forall|j: int|
            0 <= j < requests.len() ==> c1.spec_has_key(#[trigger] requests[j])),
{
    assert forall|j: int| 0 <= j < requests.len() implies !c1.spec_has_key(
        #[trigger] requests[j],
    ) by {
        assert(seq_has_req(requests, requests[j]));
    }
    if requests.len() > 0 {
        assert(!c1.spec_has_key(requests[0]));
    }
}

/// Whether `k` occurs among `requests`.
fn req_list_contains(
    requests: &Vec<DerivationRequestInKeySpace>,
    k: &DerivationRequestInKeySpace,
) -> (r: bool)
    ensures
        r == seq_has_req(requests@, *k),
{
    let n = requests.len();
    for i in 0..n
        invariant
            n == requests@.len(),
            forall|j: int| 0 <= j < i ==> !(#[trigger] requests@[j]).eqv(k),
    {
        if &requests[i] == k {
            return true;
        }
    }
    false
}

/// Value-equal requests are served by the same pools.
pub proof fn lemma_seq_has_req_congruent(rs: Seq<DerivationRequestInKeySpace>)
    ensures
        forall|k1: DerivationRequestInKeySpace, k2: DerivationRequestInKeySpace|
            #![trigger seq_has_req(rs, k1), seq_has_req(rs, k2)]
            k1.eqv(&k2) ==> seq_has_req(rs, k1) == seq_has_req(rs, k2),
{
    assert forall|k1: DerivationRequestInKeySpace, k2: DerivationRequestInKeySpace|
        #![trigger seq_has_req(rs, k1), seq_has_req(rs, k2)]
        k1.eqv(&k2) implies seq_has_req(rs, k1) == seq_has_req(rs, k2) by {
        if seq_has_req(rs, k1) {
            let j = choose|j: int| 0 <= j < rs.len() && (#[trigger] rs[j]).eqv(&k1);
            assert(rs[j].eqv(&k2));
        }
        if seq_has_req(rs, k2) {
            let j = choose|j: int| 0 <= j < rs.len() && (#[trigger] rs[j]).eqv(&k2);
            assert(rs[j].eqv(&k1));
        }
    }
}

/// One step of splitting the pool by request hits: the side that receives
/// the entry at `i`.
proof fn lemma_split_side_push(
    es: Seq<(DerivationRequestInKeySpace, FactorInstances)>,
    i: int,
    prev: Seq<(DerivationRequestInKeySpace, FactorInstances)>,
    cur: Seq<(DerivationRequestInKeySpace, FactorInstances)>,
    key_cond: spec_fn(DerivationRequestInKeySpace) -> bool,
    inst_cond: spec_fn(FactorInstance) -> bool,
)
    requires
        0 <= i < es.len(),
        entries_keys_distinct(es),
        entries_sound(es),
        key_cond(es[i].0),
        forall|k1: DerivationRequestInKeySpace, k2: DerivationRequestInKeySpace|
            #![trigger key_cond(k1), key_cond(k2)]
            k1.eqv(&k2) ==> key_cond(k1) == key_cond(k2),
        forall|y: FactorInstance|
            #[trigger] inst_cond(y) == key_cond(y.spec_derivation_in_key_space()),
        entries_keys_distinct(prev),
        entries_sound(prev),
        forall|k: DerivationRequestInKeySpace|
            #![trigger entries_have_key(prev, k)]
            entries_have_key(prev, k) == (entries_have_key(es.take(i), k) && key_cond(k)),
        forall|y: FactorInstance|
            #![trigger entries_have_instance(prev, y)]
            entries_have_instance(prev, y) == (entries_have_instance(es.take(i), y) && inst_cond(
                y,
            )),
        cur == prev.push(es[i]),
    ensures
        entries_keys_distinct(cur),
        entries_sound(cur),
        forall|k: DerivationRequestInKeySpace|
            #![trigger entries_have_key(cur, k)]
            entries_have_key(cur, k) == (entries_have_key(es.take(i + 1), k) && key_cond(k)),
        forall|y: FactorInstance|
            #![trigger entries_have_instance(cur, y)]
            entries_have_instance(cur, y) == (entries_have_instance(es.take(i + 1), y)
                && inst_cond(y)),
{
    let t0 = es.take(i);
    let t1 = es.take(i + 1);
    assert forall|k: DerivationRequestInKeySpace| entries_have_key(cur, k) == (entries_have_key(
        t1,
        k,
    ) && key_cond(k)) by {
        if entries_have_key(cur, k) {
            let j = choose|j: int| 0 <= j < cur.len() && (#[trigger] cur[j]).0.eqv(&k);
            if j < prev.len() {
                assert(prev[j].0.eqv(&k));
                assert(entries_have_key(prev, k));
                let l = choose|l: int| 0 <= l < t0.len() && (#[trigger] t0[l]).0.eqv(&k);
                assert(t1[l].0.eqv(&k));
                assert(entries_have_key(t1, k));
            } else {
                assert(cur[j] == es[i]);
                assert(es[i].0.eqv(&k));
                assert(t1[i].0.eqv(&k));
                assert(entries_have_key(t1, k));
                assert(key_cond(es[i].0) == key_cond(k));
            }
        }
        if entries_have_key(t1, k) && key_cond(k) {
            let j = choose|j: int| 0 <= j < t1.len() && (#[trigger] t1[j]).0.eqv(&k);
            if j < i {
                assert(t0[j].0.eqv(&k));
                assert(entries_have_key(t0, k));
                assert(entries_have_key(prev, k));
                let l = choose|l: int| 0 <= l < prev.len() && (#[trigger] prev[l]).0.eqv(&k);
                assert(cur[l].0.eqv(&k));
                assert(entries_have_key(cur, k));
            } else {
                assert(es[i].0.eqv(&k));
                assert(cur[prev.len() as int].0.eqv(&k));
                assert(entries_have_key(cur, k));
            }
        }
    }
    assert forall|y: FactorInstance| entries_have_instance(cur, y) == (entries_have_instance(
        t1,
        y,
    ) && inst_cond(y)) by {
        if entries_have_instance(cur, y) {
            let j = choose|j: int| 0 <= j < cur.len() && pool_has((#[trigger] cur[j]).1.0@, y);
            if j < prev.len() {
                assert(pool_has(prev[j].1.0@, y));
                assert(entries_have_instance(prev, y));
                let l = choose|l: int| 0 <= l < t0.len() && pool_has((#[trigger] t0[l]).1.0@, y);
                assert(pool_has(t1[l].1.0@, y));
                assert(entries_have_instance(t1, y));
            } else {
                assert(cur[j] == es[i]);
                assert(pool_has(es[i].1.0@, y));
                assert(pool_has(t1[i].1.0@, y));
                assert(entries_have_instance(t1, y));
                let l = choose|l: int| 0 <= l < es[i].1.0@.len() && (#[trigger] es[i].1.0@[l]).eqv(
                    &y,
                );
                assert(entry_sound(es[i]));
                assert(es[i].1.0@[l].spec_derivation_in_key_space().eqv(&es[i].0));
                assert(y.spec_derivation_in_key_space().eqv(&es[i].0));
                assert(key_cond(y.spec_derivation_in_key_space()) == key_cond(es[i].0));
                assert(inst_cond(y));
            }
        }
        if entries_have_instance(t1, y) && inst_cond(y) {
            let j = choose|j: int| 0 <= j < t1.len() && pool_has((#[trigger] t1[j]).1.0@, y);
            if j < i {
                assert(pool_has(t0[j].1.0@, y));
                assert(entries_have_instance(t0, y));
                assert(entries_have_instance(prev, y));
                let l = choose|l: int| 0 <= l < prev.len() && pool_has((#[trigger] prev[l]).1.0@, y);
                assert(pool_has(cur[l].1.0@, y));
                assert(entries_have_instance(cur, y));
            } else {
                assert(pool_has(es[i].1.0@, y));
                assert(pool_has(cur[prev.len() as int].1.0@, y));
                assert(entries_have_instance(cur, y));
            }
        }
    }
    assert forall|p: int, q: int|
        #![trigger cur[p], cur[q]]
        0 <= p < q < cur.len() implies !cur[p].0.eqv(&cur[q].0) by {
        if q < prev.len() {
            assert(!prev[p].0.eqv(&prev[q].0));
        } else {
            assert(cur[q] == es[i]);
            if cur[p].0.eqv(&cur[q].0) {
                assert(prev[p].0.eqv(&es[i].0));
                assert(entries_have_key(prev, es[i].0));
                assert(entries_have_key(t0, es[i].0));
                let l = choose|l: int| 0 <= l < t0.len() && (#[trigger] t0[l]).0.eqv(&es[i].0);
                assert(es[l] == t0[l]);
                assert(false);
            }
        }
    }
    assert forall|j: int| 0 <= j < cur.len() implies entry_sound(#[trigger] cur[j]) by {
        if j < prev.len() {
            assert(entry_sound(prev[j]));
        } else {
            assert(cur[j] == es[i]);
            assert(entry_sound(es[i]));
        }
    }
}

/// One step of splitting the pool by request hits: the side that does not
/// receive the entry at `i`.
proof fn lemma_split_side_keep(
    es: Seq<(DerivationRequestInKeySpace, FactorInstances)>,
    i: int,
    side: Seq<(DerivationRequestInKeySpace, FactorInstances)>,
    key_cond: spec_fn(DerivationRequestInKeySpace) -> bool,
    inst_cond: spec_fn(FactorInstance) -> bool,
)
    requires
        0 <= i < es.len(),
        entries_sound(es),
        !key_cond(es[i].0),
        forall|k1: DerivationRequestInKeySpace, k2: DerivationRequestInKeySpace|
            #![trigger key_cond(k1), key_cond(k2)]
            k1.eqv(&k2) ==> key_cond(k1) == key_cond(k2),
        forall|y: FactorInstance|
            #[trigger] inst_cond(y) == key_cond(y.spec_derivation_in_key_space()),
        forall|k: DerivationRequestInKeySpace|
            #![trigger entries_have_key(side, k)]
            entries_have_key(side, k) == (entries_have_key(es.take(i), k) && key_cond(k)),
        forall|y: FactorInstance|
            #![trigger entries_have_instance(side, y)]
            entries_have_instance(side, y) == (entries_have_instance(es.take(i), y) && inst_cond(
                y,
            )),
    ensures
        forall|k: DerivationRequestInKeySpace|
            #![trigger entries_have_key(side, k)]
            entries_have_key(side, k) == (entries_have_key(es.take(i + 1), k) && key_cond(k)),
        forall|y: FactorInstance|
            #![trigger entries_have_instance(side, y)]
            entries_have_instance(side, y) == (entries_have_instance(es.take(i + 1), y)
                && inst_cond(y)),
{
    let t0 = es.take(i);
    let t1 = es.take(i + 1);
    assert forall|k: DerivationRequestInKeySpace| entries_have_key(side, k) == (entries_have_key(
        t1,
        k,
    ) && key_cond(k)) by {
        if entries_have_key(t1, k) && key_cond(k) {
            let j = choose|j: int| 0 <= j < t1.len() && (#[trigger] t1[j]).0.eqv(&k);
            if j < i {
                assert(t0[j].0.eqv(&k));
                assert(entries_have_key(t0, k));
            } else {
                assert(es[i].0.eqv(&k));
                assert(key_cond(es[i].0) == key_cond(k));
                assert(false);
            }
        }
        if entries_have_key(t0, k) {
            let j = choose|j: int| 0 <= j < t0.len() && (#[trigger] t0[j]).0.eqv(&k);
            assert(t1[j].0.eqv(&k));
            assert(entries_have_key(t1, k));
        }
    }
    assert forall|y: FactorInstance| entries_have_instance(side, y) == (entries_have_instance(
        t1,
        y,
    ) && inst_cond(y)) by {
        if entries_have_instance(t1, y) && inst_cond(y) {
            let j = choose|j: int| 0 <= j < t1.len() && pool_has((#[trigger] t1[j]).1.0@, y);
            if j < i {
                assert(pool_has(t0[j].1.0@, y));
                assert(entries_have_instance(t0, y));
            } else {
                assert(pool_has(es[i].1.0@, y));
                let l = choose|l: int| 0 <= l < es[i].1.0@.len() && (#[trigger] es[i].1.0@[l]).eqv(
                    &y,
                );
                assert(entry_sound(es[i]));
                assert(y.spec_derivation_in_key_space().eqv(&es[i].0));
                assert(key_cond(y.spec_derivation_in_key_space()) == key_cond(es[i].0));
                assert(false);
            }
        }
        if entries_have_instance(t0, y) {
            let j = choose|j: int| 0 <= j < t0.len() && pool_has((#[trigger] t0[j]).1.0@, y);
            assert(pool_has(t1[j].1.0@, y));
            assert(entries_have_instance(t1, y));
        }
    }
}

/// One step of the load split: the entry at `i` goes to `found` when its
/// key was requested, else to `remaining`; membership tracks the prefix.
proof fn lemma_load_split_step(
    es: Seq<(DerivationRequestInKeySpace, FactorInstances)>,
    rq: Seq<DerivationRequestInKeySpace>,
    i: int,
    pf: Seq<(DerivationRequestInKeySpace, FactorInstances)>,
    cf: Seq<(DerivationRequestInKeySpace, FactorInstances)>,
    pr: Seq<(DerivationRequestInKeySpace, FactorInstances)>,
    cr: Seq<(DerivationRequestInKeySpace, FactorInstances)>,
    hit: bool,
)
    requires
        0 <= i < es.len(),
        entries_keys_distinct(es),
        entries_sound(es),
        hit == seq_has_req(rq, es[i].0),
        entries_keys_distinct(pf),
        entries_sound(pf),
        entries_keys_distinct(pr),
        entries_sound(pr),
        forall|k: DerivationRequestInKeySpace|
            #![trigger entries_have_key(pf, k)]
            entries_have_key(pf, k) == (entries_have_key(es.take(i), k) && seq_has_req(rq, k)),
        forall|k: DerivationRequestInKeySpace|
            #![trigger entries_have_key(pr, k)]
            entries_have_key(pr, k) == (entries_have_key(es.take(i), k) && !seq_has_req(rq, k)),
        forall|y: FactorInstance|
            #![trigger entries_have_instance(pf, y)]
            entries_have_instance(pf, y) == (entries_have_instance(es.take(i), y) && seq_has_req(
                rq,
                y.spec_derivation_in_key_space(),
            )),
        forall|y: FactorInstance|
            #![trigger entries_have_instance(pr, y)]
            entries_have_instance(pr, y) == (entries_have_instance(es.take(i), y) && !seq_has_req(
                rq,
                y.spec_derivation_in_key_space(),
            )),
        hit ==> cf == pf.push(es[i]) && cr == pr,
        !hit ==> cf == pf && cr == pr.push(es[i]),
    ensures
        entries_keys_distinct(cf),
        entries_sound(cf),
        entries_keys_distinct(cr),
        entries_sound(cr),
        forall|k: DerivationRequestInKeySpace|
            #![trigger entries_have_key(cf, k)]
            entries_have_key(cf, k) == (entries_have_key(es.take(i + 1), k) && seq_has_req(rq, k)),
        forall|k: DerivationRequestInKeySpace|
            #![trigger entries_have_key(cr, k)]
            entries_have_key(cr, k) == (entries_have_key(es.take(i + 1), k) && !seq_has_req(
                rq,
                k,
            )),
        forall|y: FactorInstance|
            #![trigger entries_have_instance(cf, y)]
            entries_have_instance(cf, y) == (entries_have_instance(es.take(i + 1), y)
                && seq_has_req(rq, y.spec_derivation_in_key_space())),
        forall|y: FactorInstance|
            #![trigger entries_have_instance(cr, y)]
            entries_have_instance(cr, y) == (entries_have_instance(es.take(i + 1), y)
                && !seq_has_req(rq, y.spec_derivation_in_key_space())),
{
    lemma_seq_has_req_congruent(rq);
    let key_hit = |k: DerivationRequestInKeySpace| seq_has_req(rq, k);
    let key_miss = |k: DerivationRequestInKeySpace| !seq_has_req(rq, k);
    let inst_hit = |y: FactorInstance| seq_has_req(rq, y.spec_derivation_in_key_space());
    let inst_miss = |y: FactorInstance| !seq_has_req(rq, y.spec_derivation_in_key_space());
    if hit {
        lemma_split_side_push(es, i, pf, cf, key_hit, inst_hit);
        lemma_split_side_keep(es, i, cr, key_miss, inst_miss);
    } else {
        lemma_split_side_push(es, i, pr, cr, key_miss, inst_miss);
        lemma_split_side_keep(es, i, cf, key_hit, inst_hit);
    }
}

/// Extending the pool at index `i` with `x` adds exactly `x` to the
/// cache's instances and nothing to its keys.
proof fn lemma_insert_into_entry(
    es0: Seq<(DerivationRequestInKeySpace, FactorInstances)>,
    es1: Seq<(DerivationRequestInKeySpace, FactorInstances)>,
    i: int,
    x: FactorInstance,
    key: DerivationRequestInKeySpace,
)
    requires
        0 <= i < es0.len(),
        es1.len() == es0.len(),
        forall|j: int| 0 <= j < es0.len() && j != i ==> es1[j] == es0[j],
        es1[i].0 == es0[i].0,
        es0[i].0.eqv(&key),
        x.wf(),
        x.spec_derivation_in_key_space().eqv(&key),
        pool_has(es0[i].1.0@, x) ==> es1[i].1.0@ == es0[i].1.0@,
        !pool_has(es0[i].1.0@, x) ==> es1[i].1.0@ == es0[i].1.0@.push(x),
        es0[i].1.wf() ==> es1[i].1.wf(),
    ensures
        forall|k: DerivationRequestInKeySpace|
            entries_have_key(es1, k) == entries_have_key(es0, k),
        forall|y: FactorInstance|
            entries_have_instance(es1, y) == (entries_have_instance(es0, y) || y.eqv(&x)),
        entries_keys_distinct(es0) ==> entries_keys_distinct(es1),
        entries_sound(es0) ==> entries_sound(es1),
{
    assert forall|k: DerivationRequestInKeySpace| entries_have_key(es1, k) == entries_have_key(
        es0,
        k,
    ) by {
        if entries_have_key(es1, k) {
            let j = choose|j: int| 0 <= j < es1.len() && (#[trigger] es1[j]).0.eqv(&k);
            assert(es0[j].0.eqv(&k));
        }
        if entries_have_key(es0, k) {
            let j = choose|j: int| 0 <= j < es0.len() && (#[trigger] es0[j]).0.eqv(&k);
            assert(es1[j].0.eqv(&k));
        }
    }
    assert forall|y: FactorInstance| entries_have_instance(es1, y) == (entries_have_instance(
        es0,
        y,
    ) || y.eqv(&x)) by {
        if entries_have_instance(es1, y) {
            let j = choose|j: int| 0 <= j < es1.len() && pool_has((#[trigger] es1[j]).1.0@, y);
            if j != i {
                assert(pool_has(es0[j].1.0@, y));
            } else {
                let l = choose|l: int|
                    0 <= l < es1[i].1.0@.len() && (#[trigger] es1[i].1.0@[l]).eqv(&y);
                if l < es0[i].1.0@.len() {
                    assert(es0[i].1.0@[l].eqv(&y));
                    assert(pool_has(es0[i].1.0@, y));
                } else {
                    assert(es1[i].1.0@[l] == x);
                }
            }
        }
        if entries_have_instance(es0, y) {
            let j = choose|j: int| 0 <= j < es0.len() && pool_has((#[trigger] es0[j]).1.0@, y);
            if j != i {
                assert(pool_has(es1[j].1.0@, y));
            } else {
                let l = choose|l: int|
                    0 <= l < es0[i].1.0@.len() && (#[trigger] es0[i].1.0@[l]).eqv(&y);
                assert(es1[i].1.0@[l].eqv(&y));
                assert(pool_has(es1[i].1.0@, y));
            }
        }
        if y.eqv(&x) {
            if pool_has(es0[i].1.0@, y) {
                assert(entries_have_instance(es0, y));
            } else {
                if pool_has(es0[i].1.0@, x) {
                    let l = choose|l: int|
                        0 <= l < es0[i].1.0@.len() && (#[trigger] es0[i].1.0@[l]).eqv(&x);
                    assert(es0[i].1.0@[l].eqv(&y));
                    assert(pool_has(es0[i].1.0@, y));
                } else {
                    assert(es1[i].1.0@[es0[i].1.0@.len() as int].eqv(&y));
                    assert(pool_has(es1[i].1.0@, y));
                }
            }
        }
    }
    if entries_sound(es0) {
        assert forall|j: int| 0 <= j < es1.len() implies entry_sound(#[trigger] es1[j]) by {
            assert(entry_sound(es0[j]));
            if j == i {
                if !pool_has(es0[i].1.0@, x) {
                    assert forall|l: int| 0 <= l < es1[i].1.0@.len() implies (
                    #[trigger] es1[i].1.0@[l]).spec_derivation_in_key_space().eqv(&es1[i].0) by {
                        if l < es0[i].1.0@.len() {
                            assert(es0[i].1.0@[l].spec_derivation_in_key_space().eqv(&es0[i].0));
                        } else {
                            assert(es1[i].1.0@[l] == x);
                        }
                    }
                }
            }
        }
    }
}

/// Appending a fresh single-instance entry adds exactly `x` to the
/// cache's instances and exactly its request to the keys.
proof fn lemma_insert_new_entry(
    es0: Seq<(DerivationRequestInKeySpace, FactorInstances)>,
    es1: Seq<(DerivationRequestInKeySpace, FactorInstances)>,
    x: FactorInstance,
    key: DerivationRequestInKeySpace,
)
    requires
        !entries_have_key(es0, key),
        x.wf(),
        x.spec_derivation_in_key_space().eqv(&key),
        key.wf(),
        es1.len() == es0.len() + 1,
        forall|j: int| 0 <= j < es0.len() ==> es1[j] == es0[j],
        es1[es0.len() as int].0 == key,
        es1[es0.len() as int].1.0@.len() == 1,
        es1[es0.len() as int].1.0@[0] == x,
    ensures
        forall|k: DerivationRequestInKeySpace|
            entries_have_key(es1, k) == (entries_have_key(es0, k) || key.eqv(&k)),
        forall|y: FactorInstance|
            entries_have_instance(es1, y) == (entries_have_instance(es0, y) || y.eqv(&x)),
        entries_keys_distinct(es0) ==> entries_keys_distinct(es1),
        entries_sound(es0) ==> entries_sound(es1),
{
    let last = es0.len() as int;
    assert forall|k: DerivationRequestInKeySpace| entries_have_key(es1, k) == (entries_have_key(
        es0,
        k,
    ) || key.eqv(&k)) by {
        if entries_have_key(es1, k) {
            let j = choose|j: int| 0 <= j < es1.len() && (#[trigger] es1[j]).0.eqv(&k);
            if j < last {
                assert(es0[j].0.eqv(&k));
            } else {
                assert(key.eqv(&k));
            }
        }
        if entries_have_key(es0, k) {
            let j = choose|j: int| 0 <= j < es0.len() && (#[trigger] es0[j]).0.eqv(&k);
            assert(es1[j].0.eqv(&k));
        }
        if key.eqv(&k) {
            assert(es1[last].0.eqv(&k));
        }
    }
    assert forall|y: FactorInstance| entries_have_instance(es1, y) == (entries_have_instance(
        es0,
        y,
    ) || y.eqv(&x)) by {
        if entries_have_instance(es1, y) {
            let j = choose|j: int| 0 <= j < es1.len() && pool_has((#[trigger] es1[j]).1.0@, y);
            if j < last {
                assert(pool_has(es0[j].1.0@, y));
            } else {
                let l = choose|l: int|
                    0 <= l < es1[last].1.0@.len() && (#[trigger] es1[last].1.0@[l]).eqv(&y);
                assert(es1[last].1.0@[0].eqv(&y));
            }
        }
        if entries_have_instance(es0, y) {
            let j = choose|j: int| 0 <= j < es0.len() && pool_has((#[trigger] es0[j]).1.0@, y);
            assert(pool_has(es1[j].1.0@, y));
        }
        if y.eqv(&x) {
            assert(es1[last].1.0@[0].eqv(&y));
            assert(pool_has(es1[last].1.0@, y));
        }
    }
    if entries_keys_distinct(es0) {
        assert forall|i: int, j: int|
            #![trigger es1[i], es1[j]]
            0 <= i < j < es1.len() implies !es1[i].0.eqv(&es1[j].0) by {
            if j < last {
                assert(es1[i] == es0[i] && es1[j] == es0[j]);
            } else {
                assert(es1[i] == es0[i]);
                if es1[i].0.eqv(&es1[j].0) {
                    assert(es0[i].0.eqv(&key));
                    assert(entries_have_key(es0, key));
                }
            }
        }
    }
    if entries_sound(es0) {
        assert forall|j: int| 0 <= j < es1.len() implies entry_sound(#[trigger] es1[j]) by {
            if j < last {
                assert(entry_sound(es0[j]));
            } else {
                assert(es1[last].1.0@[0] == x);
                assert(crate::new_types::pool_distinct(es1[last].1.0@));
            }
        }
    }
}

} // verus!

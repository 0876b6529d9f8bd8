pub mod eviction_map;
pub mod local_object;
pub mod policy;
pub mod global_object;
pub mod reconstructed_stack;
pub mod evictions;

use vstd::prelude::*;
use crate::access::{Access, Key};
use crate::curve::Curve;
use crate::histogram::Histogram;
use crate::kosmo::eviction_map::EvictionMapPolicy;
use crate::kosmo::evictions::Evictions;
use crate::kosmo::global_object::GlobalObject;
use crate::kosmo::policy::KosmoPolicy;
use crate::kosmo::reconstructed_stack::ReconstructedStackPolicy;
use crate::shards::Shards;

verus! {

/// Cache-size samples per access when reconstructing stacks.
pub const GRANULARITY: u64 = 10;

/// The smallest cache size worth reconstructing.
pub const MIN_RECONSTRUCTED_STACK_SIZE: u64 = 1024;

/// Ceiling on the tracked working-set size.
pub const TOTAL_SIZE_CAP: u64 = 0x4000000000000000;

/// A rejected Kosmo configuration.
#[derive(Debug, Clone, Copy, PartialEq, Eq, Structural)]
pub enum KosmoConfigError {
    /// No policy was configured.
    NoPolicies,
    /// The same policy was configured twice.
    DuplicatePolicy,
}

/// Whether two configured policies coincide.
pub open spec fn has_duplicate_policies(s: Seq<KosmoPolicy>) -> bool {
    exists|i: int, j: int| 0 <= i < j < s.len() && s[i] == s[j]
}

/// The rounded, unscaled form in which a raw reuse distance reaches a
/// histogram bucket under the given sampler state.
pub open spec fn recorded_distance(rd: u64, shards: Option<Shards>) -> u64 {
    crate::histogram::spec_rounded_reuse_distance(
        match shards {
            Some(s) => crate::shards::spec_unscale(rd, s.spec_global_t()),
            None => rd,
        },
    )
}

/// The sampler threshold (if any) that histogram updates see.
pub open spec fn threshold_of(shards: Option<Shards>) -> Option<u64> {
    match shards {
        Some(s) => Some(s.spec_global_t()),
        None => None,
    }
}

pub open spec fn table_keys_distinct(s: Seq<GlobalObject>) -> bool {
    forall|i: int, j: int| 0 <= i < j < s.len() ==> s[i].object.key != s[j].object.key
}

pub open spec fn table_wf(s: Seq<GlobalObject>) -> bool {
    &&& table_keys_distinct(s)
    &&& forall|i: int| 0 <= i < s.len() ==> (#[trigger] s[i]).wf()
}

/// Every object in the table carries one eviction map per policy.
pub open spec fn table_maps_len(s: Seq<GlobalObject>, n: int) -> bool {
    forall|i: int| 0 <= i < s.len() ==> (#[trigger] s[i]).eviction_maps@.len() == n
}

pub open spec fn table_has_key(s: Seq<GlobalObject>, k: Key) -> bool {
    exists|i: int| 0 <= i < s.len() && s[i].object.key == k
}

/// The single-pass Kosmo MRC generator: one reuse-distance histogram
/// per policy, fed by per-object eviction maps and refreshed by
/// synthetic evictions found through stack reconstruction.
pub struct Kosmo {
    pub global_table: Vec<GlobalObject>,
    pub total_size: u64,
    pub policies: Vec<KosmoPolicy>,
    pub granularity: u64,
    pub shards: Option<Shards>,
    pub histograms: Vec<Histogram>,
}

impl Kosmo {
    pub open spec fn wf(&self) -> bool {
        &&& table_wf(self.global_table@)
        &&& self.policies@.len() >= 1
        &&& self.histograms@.len() == self.policies@.len()
        &&& forall|i: int| 0 <= i < self.policies@.len() ==> (#[trigger] self.policies@[i]).wf()
        &&& forall|i: int|
            0 <= i < self.histograms@.len() ==> (#[trigger] self.histograms@[i]).wf()
        &&& forall|i: int|
            0 <= i < self.global_table@.len() ==> (#[trigger] self.global_table@[i]).eviction_maps@.len() == self.policies@.len()
        &&& match self.shards {
            Some(s) => s.wf() && s.ready(),
            None => true,
        }
        &&& self.granularity == GRANULARITY
        &&& self.total_size <= TOTAL_SIZE_CAP
    }

    /// Configures Kosmo; every policy must be distinct and at least
    /// one is required.
    pub fn new(policies: &Vec<KosmoPolicy>, shards: Option<Shards>) -> (r: Result<
        Kosmo,
        KosmoConfigError,
    >)
        requires
            forall|i: int| 0 <= i < policies@.len() ==> (#[trigger] policies@[i]).wf(),
            match shards {
                Some(s) => s.wf() && s.ready(),
                None => true,
            },
        ensures
            r == if policies@.len() == 0 {
                Err::<Kosmo, KosmoConfigError>(KosmoConfigError::NoPolicies)
            } else if has_duplicate_policies(policies@) {
                Err::<Kosmo, KosmoConfigError>(KosmoConfigError::DuplicatePolicy)
            } else {
                r
            },
            policies@.len() >= 1 && !has_duplicate_policies(policies@) ==> {
                &&& r is Ok
                &&& r->Ok_0.wf()
                &&& r->Ok_0.policies@ == policies@
                &&& r->Ok_0.global_table@.len() == 0
                &&& r->Ok_0.total_size == 0
                &&& r->Ok_0.granularity == GRANULARITY
                &&& r->Ok_0.shards == shards
                &&& r->Ok_0.histograms@.len() == policies@.len()
                &&& forall|p: int|
                    0 <= p < policies@.len() ==> (#[trigger] r->Ok_0.histograms@[p]).buckets@.len()
                        == 0 && r->Ok_0.histograms@[p].infinity.count == crate::COUNT_UNIT
            },
    {
        let n = policies.len();
        if n == 0 {
            return Err(KosmoConfigError::NoPolicies);
        }
        // Reject duplicate policies.
        let mut i: usize = 0;
        while i < n
            invariant
                i <= n,
                n == policies@.len(),
                forall|a: int, b: int| 0 <= a < b < n && a < i ==> policies@[a] != policies@[b],
            decreases n - i,
        {
            let mut j: usize = i + 1;
            while j < n
                invariant
                    i < j <= n,
                    n == policies@.len(),
                    forall|b: int| i < b < j ==> policies@[i as int] != policies@[b],
                decreases n - j,
            {
                if policy_eq(&policies[i], &policies[j]) {
                    proof {
                        assert(policies@[i as int] == policies@[j as int]);
                        assert(has_duplicate_policies(policies@));
                    }
                    return Err(KosmoConfigError::DuplicatePolicy);
                }
                j = j + 1;
            }
            i = i + 1;
        }
        proof {
            assert(!has_duplicate_policies(policies@)) by {
                if has_duplicate_policies(policies@) {
                    let (a, b) = choose|a: int, b: int|
                        0 <= a < b < policies@.len() && policies@[a] == policies@[b];
                    assert(policies@[a] != policies@[b]);
                }
            }
        }
        let mut histograms: Vec<Histogram> = Vec::new();
        let mut k: usize = 0;
        while k < n
            invariant
                k <= n,
                histograms@.len() == k,
                forall|p: int|
                    0 <= p < k ==> (#[trigger] histograms@[p]).wf() && histograms@[
                    p].buckets@.len() == 0 && histograms@[p].infinity.count == crate::COUNT_UNIT,
                match shards {
                    Some(s) => s.wf(),
                    None => true,
                },
            decreases n - k,
        {
            let ghost h0 = histograms@;
            let h = Histogram::new(shards.as_ref());
            histograms.push(h);
            proof {
                assert(forall|p: int| 0 <= p < h0.len() ==> histograms@[p] == h0[p]);
            }
            k = k + 1;
        }
        let mut own_policies: Vec<KosmoPolicy> = Vec::new();
        let mut p: usize = 0;
        while p < n
            invariant
                p <= n,
                n == policies@.len(),
                own_policies@ == policies@.subrange(0, p as int),
                forall|q: int| 0 <= q < policies@.len() ==> (#[trigger] policies@[q]).wf(),
            decreases n - p,
        {
            own_policies.push(policies[p]);
            proof {
                assert(own_policies@ =~= policies@.subrange(0, p + 1));
            }
            p = p + 1;
        }
        proof {
            assert(own_policies@ =~= policies@);
        }
        Ok(
            Kosmo {
                global_table: Vec::new(),
                total_size: 0,
                policies: own_policies,
                granularity: GRANULARITY,
                shards,
                histograms,
            },
        )
    }

    /// Handles one trace access: invalid accesses change nothing,
    /// unsampled accesses only advance the sampler's counters, and an
    /// accepted access is processed after at most one sampler removal.
    pub fn handle(&mut self, access: &Access)
        requires
            old(self).wf(),
        ensures
            final(self).wf(),
            !(access.command == crate::access::Command::Get && access.size > 0) ==> (*final(self)
                == *old(self)),
            final(self).policies@ == old(self).policies@,
            (access.command == crate::access::Command::Get && access.size > 0 && match old(
                self,
            ).shards {
                None => false,
                Some(s) => !(crate::shards::key_threshold(access.key) < s.spec_global_t()),
            }) ==> {
                &&& final(self).global_table@ == old(self).global_table@
                &&& final(self).histograms@ == old(self).histograms@
                &&& final(self).total_size == old(self).total_size
            },
            (access.command == crate::access::Command::Get && access.size > 0 && match old(
                self,
            ).shards {
                None => true,
                Some(s) => crate::shards::key_threshold(access.key) < s.spec_global_t(),
            }) ==> table_has_key(final(self).global_table@, access.key),
    {
        if !access.is_valid_self_populating() {
            return ;
        }
        if !self.verify_shards(access) {
            return ;
        }
        self.process(access);
    }

    /// Consults the sampler; on a sampled access, applies at most one
    /// removal notification.  An access is accepted exactly when no
    /// sampler is configured or the key's hash coordinate falls under
    /// the threshold.
    pub fn verify_shards(&mut self, access: &Access) -> (r: bool)
        requires
            old(self).wf(),
        ensures
            final(self).wf(),
            r == match old(self).shards {
                None => true,
                Some(s) => crate::shards::key_threshold(access.key) < s.spec_global_t(),
            },
            final(self).policies@ == old(self).policies@,
            final(self).histograms@ == old(self).histograms@,
            final(self).total_size == old(self).total_size,
            !r ==> final(self).global_table@ == old(self).global_table@,
            forall|k: Key|
                table_has_key(final(self).global_table@, k) ==> table_has_key(
                    old(self).global_table@,
                    k,
                ),
    {
        let sampled = match &mut self.shards {
            Some(s) => {
                proof {
                    assert(s.wf() && s.ready());
                }
                let ok = s.sample(access);
                if !ok {
                    false
                } else {
                    match s.get_removal() {
                        Some(key) => {
                            proof {
                                assert(s.wf() && s.ready());
                            }
                            remove_key(
                                &mut self.global_table,
                                key,
                                Ghost(self.policies@.len() as int),
                            );
                            true
                        },
                        None => true,
                    }
                }
            },
            None => true,
        };
        sampled
    }

    /// Processes one sampled, valid access: records the per-policy
    /// reuse distances (or cold misses), admits new objects, then
    /// reconstructs stacks over sampled cache sizes and records the
    /// synthetic evictions they produce.
    pub fn process(&mut self, access: &Access)
        requires
            old(self).wf(),
            access.size >= 1,
        ensures
            final(self).wf(),
            table_has_key(final(self).global_table@, access.key),
            final(self).policies@ == old(self).policies@,
            final(self).shards == old(self).shards,
            final(self).histograms@.len() == old(self).histograms@.len(),
            !table_has_key(old(self).global_table@, access.key) ==> {
                &&& final(self).global_table@.len() == old(self).global_table@.len() + 1
                &&& final(self).total_size == if old(self).total_size + access.size
                    <= TOTAL_SIZE_CAP {
                    (old(self).total_size + access.size) as u64
                } else {
                    TOTAL_SIZE_CAP
                }
                &&& forall|p: int|
                    0 <= p < final(self).histograms@.len() ==> (#[trigger] final(self).histograms@[p]).buckets@ == old(self).histograms@[p].buckets@ && final(self).histograms@[p].infinity
                        == crate::histogram::bucket_touched(
                        old(self).histograms@[p].infinity,
                        threshold_of(old(self).shards),
                    )
            },
            table_has_key(old(self).global_table@, access.key) ==> {
                &&& final(self).global_table@.len() == old(self).global_table@.len()
                &&& final(self).total_size == old(self).total_size
                &&& exists|idx: int|
                    {
                        &&& 0 <= idx < old(self).global_table@.len()
                        &&& (#[trigger] old(self).global_table@[idx]).object.key == access.key
                        &&& forall|p: int|
                            0 <= p < final(self).histograms@.len()
                                ==> crate::histogram::increment_transition(
                                old(self).histograms@[p].buckets@,
                                (#[trigger] final(self).histograms@[p]).buckets@,
                                recorded_distance(
                                    old(self).global_table@[idx].eviction_maps@[p].spec_reuse_distance(old(self).global_table@[idx].object),
                                    old(self).shards,
                                ),
                                threshold_of(old(self).shards),
                            ) && final(self).histograms@[p].infinity == old(self).histograms@[p].infinity
                    }
            },
    {
        let max_rd = self.update_histograms(access);
        let simulate_size: u64 = match max_rd {
            Some(rd) => if rd > TOTAL_SIZE_CAP {
                TOTAL_SIZE_CAP
            } else {
                rd
            },
            None => {
                let obj = GlobalObject::new(access, &self.policies);
                let ghost t0 = self.global_table@;
                self.global_table.push(obj);
                proof {
                    assert(forall|i: int| 0 <= i < t0.len() ==> self.global_table@[i] == t0[i]);
                    assert(self.global_table@.last().object.key == access.key);
                    assert(table_keys_distinct(self.global_table@)) by {
                        assert forall|i: int, j: int|
                            0 <= i < j < self.global_table@.len() implies self.global_table@[i].object.key != self.global_table@[j].object.key by {
                            if j < t0.len() {
                                assert(self.global_table@[i] == t0[i]);
                                assert(self.global_table@[j] == t0[j]);
                            } else {
                                assert(self.global_table@[i] == t0[i]);
                                assert(!table_has_key(t0, access.key));
                            }
                        }
                    }
                }
                let sz = access.size as u64;
                self.total_size = if self.total_size <= TOTAL_SIZE_CAP - sz {
                    self.total_size + sz
                } else {
                    TOTAL_SIZE_CAP
                };
                self.total_size
            },
        };
        self.perform_evictions(access, simulate_size);
    }

    /// Updates every policy's histogram with this access's reuse
    /// distance (`None`: a cold miss), updating the object's maps on a
    /// re-access; returns the largest recorded distance, or `None` for
    /// a cold access.
    fn update_histograms(&mut self, access: &Access) -> (r: Option<u64>)
        requires
            old(self).wf(),
            access.size >= 1,
        ensures
            final(self).wf(),
            final(self).policies@ == old(self).policies@,
            final(self).total_size == old(self).total_size,
            final(self).shards == old(self).shards,
            final(self).histograms@.len() == old(self).histograms@.len(),
            r is None <==> !table_has_key(old(self).global_table@, access.key),
            r is None ==> final(self).global_table@ == old(self).global_table@ && forall|p: int|
                0 <= p < final(self).histograms@.len() ==> (#[trigger] final(self).histograms@[p]).buckets@ == old(self).histograms@[p].buckets@ && final(self).histograms@[p].infinity
                    == crate::histogram::bucket_touched(
                    old(self).histograms@[p].infinity,
                    threshold_of(old(self).shards),
                ),
            r is Some ==> table_has_key(final(self).global_table@, access.key) && exists|idx: int|
                {
                    &&& 0 <= idx < old(self).global_table@.len()
                    &&& (#[trigger] old(self).global_table@[idx]).object.key == access.key
                    &&& forall|p: int|
                        0 <= p < old(self).global_table@[idx].eviction_maps@.len() ==> (
                        #[trigger] old(self).global_table@[idx].eviction_maps@[p]).spec_reuse_distance(old(self).global_table@[idx].object) <= r->0
                    &&& exists|p: int|
                        0 <= p < old(self).global_table@[idx].eviction_maps@.len() && (
                        #[trigger] old(self).global_table@[idx].eviction_maps@[p]).spec_reuse_distance(old(self).global_table@[idx].object) == r->0
                    &&& final(self).global_table@[idx].object.key == access.key
                    &&& final(self).global_table@[idx].object.timestamp == access.timestamp
                    &&& final(self).global_table@[idx].object.size == old(self).global_table@[idx].object.size
                    &&& forall|j: int|
                        0 <= j < final(self).global_table@.len() && j != idx ==> (#[trigger] final(self).global_table@[j]) == old(self).global_table@[j]
                    &&& forall|p: int|
                        0 <= p < final(self).histograms@.len()
                            ==> crate::histogram::increment_transition(
                            old(self).histograms@[p].buckets@,
                            (#[trigger] final(self).histograms@[p]).buckets@,
                            recorded_distance(
                                old(self).global_table@[idx].eviction_maps@[p].spec_reuse_distance(
                                    old(self).global_table@[idx].object,
                                ),
                                old(self).shards,
                            ),
                            threshold_of(old(self).shards),
                        ) && final(self).histograms@[p].infinity == old(self).histograms@[p].infinity
                },
            final(self).global_table@.len() == old(self).global_table@.len(),
    {
        let pos = find_object(&self.global_table, access.key);
        match pos {
            Some(idx) => {
                let distances = self.global_table[idx].reuse_distances();
                let ghost t0 = self.global_table@;
                let obj = &mut self.global_table[idx];
                obj.update(access);
                proof {
                    assert forall|i: int, j: int|
                        0 <= i < j < self.global_table@.len() implies self.global_table@[i].object.key != self.global_table@[j].object.key by {
                        if i != idx && j != idx {
                            assert(self.global_table@[i] == t0[i]);
                            assert(self.global_table@[j] == t0[j]);
                        } else if i == idx {
                            assert(self.global_table@[j] == t0[j]);
                        } else {
                            assert(self.global_table@[i] == t0[i]);
                        }
                    }
                    assert forall|i: int|
                        0 <= i < self.global_table@.len() implies (#[trigger] self.global_table@[i]).wf() && self.global_table@[i].eviction_maps@.len()
                        == self.policies@.len() by {
                        if i != idx {
                            assert(self.global_table@[i] == t0[i]);
                        }
                    }
                    assert(self.global_table@[idx as int].object.key == access.key);
                    assert(forall|j: int|
                        0 <= j < self.global_table@.len() && j != idx ==> (#[trigger] self.global_table@[j]) == t0[j]);
                    assert(t0 == old(self).global_table@);
                    assert(table_has_key(old(self).global_table@, access.key)) by {
                        assert(old(self).global_table@[idx as int].object.key == access.key);
                    }
                }
                let mut max_rd: u64 = 0;
                let ghost hold_table = self.global_table@;
                let ghost h_init = self.histograms@;
                let n = self.histograms.len();
                let mut i: usize = 0;
                while i < n
                    invariant
                        i <= n,
                        n == self.histograms@.len(),
                        h_init.len() == n,
                        h_init == old(self).histograms@,
                        distances@.len() == n,
                        0 <= idx < old(self).global_table@.len(),
                        old(self).global_table@[idx as int].object.key == access.key,
                        forall|j: int|
                            0 <= j < n ==> (#[trigger] distances@[j]) == Some(
                                old(self).global_table@[idx as int].eviction_maps@[j].spec_reuse_distance(old(self).global_table@[idx as int].object),
                            ),
                        forall|j: int|
                            0 <= j < i ==> distances@[j]->0 <= max_rd,
                        i > 0 ==> exists|j: int| 0 <= j < i && (#[trigger] distances@[j])->0 == max_rd,
                        i == 0 ==> max_rd == 0,
                        forall|j: int|
                            0 <= j < i ==> crate::histogram::increment_transition(
                                h_init[j].buckets@,
                                (#[trigger] self.histograms@[j]).buckets@,
                                recorded_distance(distances@[j]->0, old(self).shards),
                                threshold_of(old(self).shards),
                            ) && self.histograms@[j].infinity == h_init[j].infinity,
                        forall|j: int|
                            i <= j < n ==> (#[trigger] self.histograms@[j]) == h_init[j],
                        forall|j: int|
                            0 <= j < self.histograms@.len() ==> (#[trigger] self.histograms@[j]).wf(),
                        self.policies@ == old(self).policies@,
                        self.total_size == old(self).total_size,
                        self.shards == old(self).shards,
                        self.histograms@.len() == self.policies@.len(),
                        self.policies@.len() >= 1,
                        self.granularity == GRANULARITY,
                        self.total_size <= TOTAL_SIZE_CAP,
                        table_wf(self.global_table@),
                        forall|j: int|
                            0 <= j < self.global_table@.len() ==> (#[trigger] self.global_table@[j]).eviction_maps@.len() == self.policies@.len(),
                        match self.shards {
                            Some(s) => s.wf() && s.ready(),
                            None => true,
                        },
                        self.global_table@ == hold_table,
                        table_has_key(self.global_table@, access.key),
                        self.global_table@.len() == old(self).global_table@.len(),
                        forall|j: int|
                            0 <= j < self.global_table@.len() && j != idx ==> (#[trigger] self.global_table@[j]) == old(self).global_table@[j],
                        idx < self.global_table@.len(),
                        self.global_table@[idx as int].object.key == access.key,
                        self.global_table@[idx as int].object.timestamp == access.timestamp,
                        self.global_table@[idx as int].object.size == old(self).global_table@[idx as int].object.size,
                    decreases n - i,
                {
                    let ghost h0 = self.histograms@;
                    let d = distances[i];
                    match d {
                        Some(rd) => {
                            if rd > max_rd {
                                max_rd = rd;
                            }
                        },
                        None => {},
                    }
                    let h = &mut self.histograms[i];
                    h.increment(self.shards.as_ref(), d);
                    proof {
                        assert forall|j: int|
                            0 <= j < self.histograms@.len() implies (#[trigger] self.histograms@[j]).wf() by {
                            if j != i {
                                assert(self.histograms@[j] == h0[j]);
                            }
                        }
                    }
                    i = i + 1;
                }
                proof {
                    assert(0 <= idx < old(self).global_table@.len());
                    assert(old(self).global_table@[idx as int].object.key == access.key);
                    assert(old(self).global_table@[idx as int].eviction_maps@.len() == n);
                    let g = old(self).global_table@[idx as int];
                    assert forall|p: int|
                        0 <= p < g.eviction_maps@.len() implies (#[trigger] g.eviction_maps@[p]).spec_reuse_distance(g.object) <= max_rd by {
                        assert(distances@[p]->0 <= max_rd);
                        assert(distances@[p] == Some(
                            g.eviction_maps@[p].spec_reuse_distance(g.object),
                        ));
                    }
                    let jw = choose|j: int| 0 <= j < n && (#[trigger] distances@[j])->0 == max_rd;
                    assert(g.eviction_maps@[jw].spec_reuse_distance(g.object) == max_rd);
                    assert forall|p: int|
                        0 <= p < self.histograms@.len() implies crate::histogram::increment_transition(
                        old(self).histograms@[p].buckets@,
                        (#[trigger] self.histograms@[p]).buckets@,
                        recorded_distance(
                            g.eviction_maps@[p].spec_reuse_distance(g.object),
                            old(self).shards,
                        ),
                        threshold_of(old(self).shards),
                    ) && self.histograms@[p].infinity == old(self).histograms@[p].infinity by {
                        assert(distances@[p] == Some(
                            g.eviction_maps@[p].spec_reuse_distance(g.object),
                        ));
                        assert(crate::histogram::increment_transition(
                            h_init[p].buckets@,
                            self.histograms@[p].buckets@,
                            recorded_distance(distances@[p]->0, old(self).shards),
                            threshold_of(old(self).shards),
                        ));
                    }
                }
                Some(max_rd)
            },
            None => {
                let ghost h_init = self.histograms@;
                let n = self.histograms.len();
                let mut i: usize = 0;
                while i < n
                    invariant
                        i <= n,
                        n == self.histograms@.len(),
                        h_init == old(self).histograms@,
                        h_init.len() == n,
                        forall|j: int|
                            0 <= j < i ==> (#[trigger] self.histograms@[j]).buckets@ == h_init[j].buckets@ && self.histograms@[j].infinity
                                == crate::histogram::bucket_touched(
                                h_init[j].infinity,
                                threshold_of(old(self).shards),
                            ),
                        forall|j: int|
                            i <= j < n ==> (#[trigger] self.histograms@[j]) == h_init[j],
                        forall|j: int|
                            0 <= j < self.histograms@.len() ==> (#[trigger] self.histograms@[j]).wf(),
                        self.policies@ == old(self).policies@,
                        self.total_size == old(self).total_size,
                        self.shards == old(self).shards,
                        self.histograms@.len() == self.policies@.len(),
                        self.policies@.len() >= 1,
                        self.granularity == GRANULARITY,
                        self.total_size <= TOTAL_SIZE_CAP,
                        table_wf(self.global_table@),
                        forall|j: int|
                            0 <= j < self.global_table@.len() ==> (#[trigger] self.global_table@[j]).eviction_maps@.len() == self.policies@.len(),
                        match self.shards {
                            Some(s) => s.wf() && s.ready(),
                            None => true,
                        },
                        self.global_table@ == old(self).global_table@,
                        !table_has_key(self.global_table@, access.key),
                    decreases n - i,
                {
                    let ghost h0 = self.histograms@;
                    let h = &mut self.histograms[i];
                    h.increment(self.shards.as_ref(), None);
                    proof {
                        assert forall|j: int|
                            0 <= j < self.histograms@.len() implies (#[trigger] self.histograms@[j]).wf() by {
                            if j != i {
                                assert(self.histograms@[j] == h0[j]);
                            }
                        }
                    }
                    i = i + 1;
                }
                None
            },
        }
    }

    /// Reconstructs per-policy stacks at evenly spaced cache sizes up
    /// to the simulated size, all against one snapshot of the global
    /// table, then records the synthetic evictions in descending size
    /// order so that the smallest cache's eviction is recorded last
    /// and wins.
    fn perform_evictions(&mut self, access: &Access, simulate_size: u64)
        requires
            old(self).wf(),
            simulate_size <= TOTAL_SIZE_CAP,
        ensures
            final(self).wf(),
            final(self).policies@ == old(self).policies@,
            final(self).histograms@ == old(self).histograms@,
            final(self).shards == old(self).shards,
            final(self).total_size == old(self).total_size,
            final(self).global_table@.len() == old(self).global_table@.len(),
            forall|k: Key|
                table_has_key(final(self).global_table@, k) == table_has_key(
                    old(self).global_table@,
                    k,
                ),
    {
        let mut step: u64 = MIN_RECONSTRUCTED_STACK_SIZE;
        if (access.size as u64) > step {
            step = access.size as u64;
        }
        let ceil = simulate_size / self.granularity + if simulate_size % self.granularity != 0 {
            1
        } else {
            0
        };
        if ceil > step {
            step = ceil;
        }
        if step > simulate_size {
            return ;
        }
        let count = simulate_size / step;
        proof {
            vstd::arithmetic::div_mod::lemma_fundamental_div_mod(
                simulate_size as int,
                step as int,
            );
            vstd::arithmetic::div_mod::lemma_fundamental_div_mod(
                simulate_size as int,
                self.granularity as int,
            );
            assert(count * step <= simulate_size && count <= 19) by (nonlinear_arith)
                requires
                    simulate_size == (step as int) * count + (simulate_size as int) % (
                    step as int),
                    0 <= (simulate_size as int) % (step as int) < step,
                    0 <= (simulate_size as int) % (self.granularity as int)
                        < self.granularity,
                    simulate_size == (self.granularity as int) * (simulate_size as int / (
                    self.granularity as int)) + (simulate_size as int) % (
                    self.granularity as int),
                    self.granularity == 10,
                    step >= simulate_size as int / (self.granularity as int),
                    step >= 1,
                    step <= simulate_size,
                    count >= 0,
            {}
        }
        // Phase one: every per-size eviction list is computed against
        // this access's snapshot of the table.
        let mut all_evictions: Vec<Evictions> = Vec::new();
        let np = self.policies.len();
        let mut k: u64 = 1;
        while k <= count + 1
            invariant
                self.wf(),
                1 <= k <= count + 2,
                count <= 19,
                step >= 1,
                step <= simulate_size,
                count * step <= simulate_size,
                simulate_size <= TOTAL_SIZE_CAP,
                np == self.policies@.len(),
                all_evictions@.len() == k - 1,
                forall|j: int|
                    0 <= j < all_evictions@.len() ==> (#[trigger] all_evictions@[j]).wf()
                        && all_evictions@[j].policy_evictions@.len() == np,
                self.global_table@ == old(self).global_table@,
                self.policies@ == old(self).policies@,
                self.histograms@ == old(self).histograms@,
                self.total_size == old(self).total_size,
                self.shards == old(self).shards,
            decreases count + 2 - k,
        {
            proof {
                assert(k * step <= simulate_size + step) by (nonlinear_arith)
                    requires
                        k <= count + 1,
                        count * step <= simulate_size,
                        step >= 1,
                        k >= 1,
                {}
            }
            let cache_size: u64 = k * step;
            let ghost a0 = all_evictions@;
            let ev = self.reconstruct_at_size(access.key, cache_size);
            all_evictions.push(ev);
            proof {
                assert(forall|j: int| 0 <= j < a0.len() ==> all_evictions@[j] == a0[j]);
            }
            k = k + 1;
        }
        // Phase two: apply in descending size order.
        let mut k: u64 = count + 1;
        while k > 0
            invariant
                self.wf(),
                k <= count + 1,
                count <= 19,
                step >= 1,
                step <= simulate_size,
                count * step <= simulate_size,
                simulate_size <= TOTAL_SIZE_CAP,
                np == self.policies@.len(),
                all_evictions@.len() == count + 1,
                forall|j: int|
                    0 <= j < all_evictions@.len() ==> (#[trigger] all_evictions@[j]).wf()
                        && all_evictions@[j].policy_evictions@.len() == np,
                self.policies@ == old(self).policies@,
                self.histograms@ == old(self).histograms@,
                self.shards == old(self).shards,
                self.total_size == old(self).total_size,
                self.global_table@.len() == old(self).global_table@.len(),
                forall|key: Key|
                    table_has_key(self.global_table@, key) == table_has_key(
                        old(self).global_table@,
                        key,
                    ),
            decreases k,
        {
            proof {
                assert(k * step <= simulate_size + step) by (nonlinear_arith)
                    requires
                        k <= count + 1,
                        count * step <= simulate_size,
                        step >= 1,
                        k >= 1,
                {}
            }
            let cache_size: u64 = k * step;
            let ghost a0 = all_evictions@;
            let idx: usize = (k - 1) as usize;
            let evictions = &mut all_evictions[idx];
            self.apply_evictions_at(evictions, cache_size);
            proof {
                assert forall|j: int|
                    0 <= j < all_evictions@.len() implies (#[trigger] all_evictions@[j]).wf()
                        && all_evictions@[j].policy_evictions@.len() == np by {
                    if j != idx {
                        assert(all_evictions@[j] == a0[j]);
                    }
                }
            }
            k = k - 1;
        }
    }

    /// Builds every policy's stack at one cache size against the
    /// current table and drains each stack's eviction list; the table
    /// is only read.
    fn reconstruct_at_size(&self, access_key: Key, cache_size: u64) -> (r: Evictions)
        requires
            self.wf(),
        ensures
            r.wf(),
            r.policy_evictions@.len() == self.policies@.len(),
    {
        let mut stacks: Vec<ReconstructedStackPolicy> = Vec::new();
        let np = self.policies.len();
        let mut p: usize = 0;
        while p < np
            invariant
                p <= np,
                np == self.policies@.len(),
                self.wf(),
                stacks@.len() == p,
                forall|j: int| 0 <= j < p ==> (#[trigger] stacks@[j]).wf(),
            decreases np - p,
        {
            let ghost s0 = stacks@;
            let st = ReconstructedStackPolicy::new(&self.policies[p], cache_size);
            stacks.push(st);
            proof {
                assert(forall|j: int| 0 <= j < s0.len() ==> stacks@[j] == s0[j]);
            }
            p = p + 1;
        }
        // Project every object into every policy's stack.
        let nt = self.global_table.len();
        let mut t: usize = 0;
        while t < nt
            invariant
                t <= nt,
                nt == self.global_table@.len(),
                self.wf(),
                stacks@.len() == np,
                np == self.policies@.len(),
                forall|j: int| 0 <= j < stacks@.len() ==> (#[trigger] stacks@[j]).wf(),
            decreases nt - t,
        {
            let mut p2: usize = 0;
            while p2 < np
                invariant
                    p2 <= np,
                    t < nt,
                    nt == self.global_table@.len(),
                    self.wf(),
                    stacks@.len() == np,
                    np == self.policies@.len(),
                    forall|j: int| 0 <= j < stacks@.len() ==> (#[trigger] stacks@[j]).wf(),
                decreases np - p2,
            {
                let ghost s0 = stacks@;
                let local = self.global_table[t].eviction_maps[p2].as_local_object(
                    self.global_table[t].object(),
                    cache_size,
                );
                let st = &mut stacks[p2];
                st.insert(local);
                proof {
                    assert forall|j: int|
                        0 <= j < stacks@.len() implies (#[trigger] stacks@[j]).wf() by {
                        if j != p2 {
                            assert(stacks@[j] == s0[j]);
                        }
                    }
                }
                p2 = p2 + 1;
            }
            t = t + 1;
        }
        Evictions::new(&mut stacks, access_key)
    }

    /// Applies one cache size's eviction lists to the eviction maps.
    fn apply_evictions_at(&mut self, evictions: &mut Evictions, cache_size: u64)
        requires
            old(self).wf(),
            old(evictions).wf(),
            old(evictions).policy_evictions@.len() == old(self).policies@.len(),
            cache_size < u64::MAX,
        ensures
            final(self).wf(),
            final(evictions).wf(),
            final(evictions).policy_evictions@.len() == final(self).policies@.len(),
            final(self).policies@ == old(self).policies@,
            final(self).histograms@ == old(self).histograms@,
            final(self).shards == old(self).shards,
            final(self).total_size == old(self).total_size,
            final(self).global_table@.len() == old(self).global_table@.len(),
            forall|k: Key|
                table_has_key(final(self).global_table@, k) == table_has_key(
                    old(self).global_table@,
                    k,
                ),
    {
        let np = self.policies.len();
        let mut p3: usize = 0;
        while p3 < np
            invariant
                p3 <= np,
                np == self.policies@.len(),
                self.wf(),
                cache_size < u64::MAX,
                evictions.wf(),
                evictions.policy_evictions@.len() == np,
                self.policies@ == old(self).policies@,
                self.histograms@ == old(self).histograms@,
                self.shards == old(self).shards,
                self.total_size == old(self).total_size,
                self.global_table@.len() == old(self).global_table@.len(),
                forall|k: Key|
                    table_has_key(self.global_table@, k) == table_has_key(
                        old(self).global_table@,
                        k,
                    ),
            decreases np - p3,
        {
            loop
                invariant
                    p3 < np,
                    np == self.policies@.len(),
                    self.wf(),
                    cache_size < u64::MAX,
                    evictions.wf(),
                    evictions.policy_evictions@.len() == np,
                    self.policies@ == old(self).policies@,
                    self.histograms@ == old(self).histograms@,
                    self.shards == old(self).shards,
                    self.total_size == old(self).total_size,
                    self.global_table@.len() == old(self).global_table@.len(),
                    forall|k: Key|
                        table_has_key(self.global_table@, k) == table_has_key(
                            old(self).global_table@,
                            k,
                        ),
                decreases evictions.policy_evictions@[p3 as int].len(),
            {
                let key = match evictions.get_key(p3) {
                    Some(k) => k,
                    None => {
                        break ;
                    },
                };
                self.evict_with_key(p3, key, cache_size);
            }
            p3 = p3 + 1;
        }
    }

    /// Records one synthetic eviction on the named object's map: the
    /// victim's map for this policy takes the insertion at this cache
    /// size and nothing else changes.
    fn evict_with_key(&mut self, policy_index: usize, key: Key, cache_size: u64)
        requires
            old(self).wf(),
            policy_index < old(self).policies@.len(),
            cache_size < u64::MAX,
        ensures
            final(self).wf(),
            final(self).policies@ == old(self).policies@,
            final(self).histograms@ == old(self).histograms@,
            final(self).shards == old(self).shards,
            final(self).total_size == old(self).total_size,
            final(self).global_table@.len() == old(self).global_table@.len(),
            !table_has_key(old(self).global_table@, key) ==> final(self).global_table@ == old(
                self,
            ).global_table@,
            table_has_key(old(self).global_table@, key) ==> exists|i: int|
                {
                    &&& 0 <= i < old(self).global_table@.len()
                    &&& (#[trigger] old(self).global_table@[i]).object.key == key
                    &&& final(self).global_table@[i].object == old(self).global_table@[i].object
                    &&& EvictionMapPolicy::insert_rel(
                        old(self).global_table@[i].eviction_maps@[policy_index as int],
                        final(self).global_table@[i].eviction_maps@[policy_index as int],
                        cache_size,
                    )
                    &&& forall|p: int|
                        0 <= p < final(self).global_table@[i].eviction_maps@.len() && p
                            != policy_index ==> (#[trigger] final(self).global_table@[i].eviction_maps@[p]) == old(self).global_table@[i].eviction_maps@[p]
                    &&& forall|j: int|
                        0 <= j < final(self).global_table@.len() && j != i ==> (#[trigger] final(self).global_table@[j]) == old(self).global_table@[j]
                },
            forall|k: Key|
                table_has_key(final(self).global_table@, k) == table_has_key(
                    old(self).global_table@,
                    k,
                ),
    {
        let pos = find_object(&self.global_table, key);
        match pos {
            Some(idx) => {
                let ghost t0 = self.global_table@;
                let obj = &mut self.global_table[idx];
                obj.evict_by_policy_index(policy_index, cache_size);
                proof {
                    assert forall|i: int|
                        0 <= i < self.global_table@.len() implies (#[trigger] self.global_table@[i]).wf() && self.global_table@[i].eviction_maps@.len()
                        == self.policies@.len() by {
                        if i != idx {
                            assert(self.global_table@[i] == t0[i]);
                        }
                    }
                    assert forall|i: int, j: int|
                        0 <= i < j < self.global_table@.len() implies self.global_table@[i].object.key != self.global_table@[j].object.key by {
                        if i != idx {
                            assert(self.global_table@[i] == t0[i]);
                        }
                        if j != idx {
                            assert(self.global_table@[j] == t0[j]);
                        }
                    }
                    assert(t0[idx as int].object.key == key);
                    assert(self.global_table@[idx as int].object == t0[idx as int].object);
                    assert forall|k: Key|
                        table_has_key(self.global_table@, k) == table_has_key(t0, k) by {
                        assert forall|k2: Key|
                            table_has_key(t0, k2) implies table_has_key(
                            self.global_table@,
                            k2,
                        ) by {
                            let i = choose|i: int|
                                0 <= i < t0.len() && t0[i].object.key == k2;
                            assert(self.global_table@[i].object.key == k2);
                        }
                        assert forall|k2: Key|
                            table_has_key(self.global_table@, k2) implies table_has_key(
                            t0,
                            k2,
                        ) by {
                            let i = choose|i: int|
                                0 <= i < self.global_table@.len() && self.global_table@[i].object.key == k2;
                            assert(t0[i].object.key == k2);
                        }
                    }
                }
            },
            None => {},
        }
    }

    /// Drops the object with the given key from the global table.
    pub fn remove(&mut self, key: Key)
        requires
            old(self).wf(),
        ensures
            final(self).wf(),
    {
        remove_key(&mut self.global_table, key, Ghost(self.policies@.len() as int));
    }

    /// Clears every histogram.
    pub fn clean(&mut self)
        requires
            old(self).wf(),
        ensures
            final(self).wf(),
    {
        let n = self.histograms.len();
        let mut i: usize = 0;
        while i < n
            invariant
                i <= n,
                n == self.histograms@.len(),
                self.wf(),
            decreases n - i,
        {
            let ghost h0 = self.histograms@;
            let h = &mut self.histograms[i];
            h.clear();
            proof {
                assert forall|j: int|
                    0 <= j < self.histograms@.len() implies (#[trigger] self.histograms@[j]).wf() by {
                    if j != i {
                        assert(self.histograms@[j] == h0[j]);
                    }
                }
            }
            i = i + 1;
        }
    }

    /// Shrinks the simulated range: drops objects absent everywhere at
    /// `size` and histogram buckets beyond it.
    pub fn resize(&mut self, size: u64)
        requires
            old(self).wf(),
        ensures
            final(self).wf(),
    {
        let mut kept: Vec<GlobalObject> = Vec::new();
        loop
            invariant
                self.wf(),
                forall|i: int| 0 <= i < kept@.len() ==> (#[trigger] kept@[i]).wf(),
                forall|i: int|
                    0 <= i < kept@.len() ==> (#[trigger] kept@[i]).eviction_maps@.len()
                        == self.policies@.len(),
                forall|i: int, j: int|
                    0 <= i < j < kept@.len() ==> kept@[i].object.key != kept@[j].object.key,
                forall|i: int, j: int|
                    0 <= i < kept@.len() && 0 <= j < self.global_table@.len() ==> kept@[i].object.key != self.global_table@[j].object.key,
            decreases self.global_table@.len(),
        {
            if self.global_table.len() == 0 {
                break ;
            }
            let ghost t0 = self.global_table@;
            let obj = self.global_table.remove(0);
            proof {
                assert(self.global_table@ =~= t0.subrange(1, t0.len() as int));
                assert(forall|j: int|
                    0 <= j < self.global_table@.len() ==> self.global_table@[j] == t0[j + 1]);
            }
            if obj.exists_at(size) {
                let ghost k0 = kept@;
                kept.push(obj);
                proof {
                    assert(forall|i: int| 0 <= i < k0.len() ==> kept@[i] == k0[i]);
                    assert(kept@.last() == obj);
                    assert(obj == t0[0]);
                }
            }
        }
        self.global_table = kept;
        let n = self.histograms.len();
        let mut i: usize = 0;
        while i < n
            invariant
                i <= n,
                n == self.histograms@.len(),
                self.wf(),
            decreases n - i,
        {
            let ghost h0 = self.histograms@;
            let h = &mut self.histograms[i];
            h.resize(size);
            proof {
                assert forall|j: int|
                    0 <= j < self.histograms@.len() implies (#[trigger] self.histograms@[j]).wf() by {
                    if j != i {
                        assert(self.histograms@[j] == h0[j]);
                    }
                }
            }
            i = i + 1;
        }
    }

    /// The curve of one configured policy: its histogram re-expressed
    /// under the final threshold and corrected, when SHARDS is active.
    pub fn policy_curve(&mut self, policy: &KosmoPolicy) -> (r: Option<Curve>)
        requires
            old(self).wf(),
        ensures
            final(self).wf(),
            final(self).policies@ == old(self).policies@,
            final(self).global_table@ == old(self).global_table@,
            final(self).shards == old(self).shards,
            final(self).total_size == old(self).total_size,
            (r is Some) <==> exists|i: int|
                0 <= i < old(self).policies@.len() && old(self).policies@[i] == *policy,
            r is Some ==> ({
                let idx = policy_index(old(self).policies@, *policy);
                &&& r->0.wf()
                &&& forall|j: int|
                    0 <= j < final(self).histograms@.len() && j != idx ==> (#[trigger] final(self).histograms@[j]) == old(self).histograms@[j]
                &&& match old(self).shards {
                    None => final(self).histograms@ == old(self).histograms@
                        && r->0.points@ == crate::curve::plain_curve_points(
                        &final(self).histograms@[idx],
                    ),
                    Some(sh) => {
                        &&& final(self).histograms@[idx].infinity == old(self).histograms@[idx].infinity
                        &&& final(self).histograms@[idx].buckets@.len() == old(self).histograms@[idx].buckets@.len()
                        &&& forall|b: int|
                            0 <= b < final(self).histograms@[idx].buckets@.len() ==> (
                            #[trigger] final(self).histograms@[idx].buckets@[b])
                                == crate::histogram::bucket_rescaled(
                                old(self).histograms@[idx].buckets@[b],
                                sh.spec_global_t(),
                            )
                        &&& r->0.points@ == crate::curve::corrected_curve_points(
                            &final(self).histograms@[idx],
                            &sh,
                        )
                    },
                }
            }),
            r is None ==> final(self).histograms@ == old(self).histograms@,
    {
        let pos = find_policy(&self.policies, policy);
        let idx = match pos {
            Some(i) => i,
            None => {
                return None;
            },
        };
        match &self.shards {
            Some(s) => {
                let ghost h0 = self.histograms@;
                let h = &mut self.histograms[idx];
                h.rescale_buckets(s);
                proof {
                    assert forall|j: int|
                        0 <= j < self.histograms@.len() implies (#[trigger] self.histograms@[j]).wf() by {
                        if j != idx {
                            assert(self.histograms@[j] == h0[j]);
                        }
                    }
                }
                Some(Curve::from_corrected_histogram(&self.histograms[idx], s))
            },
            None => Some(Curve::from_histogram(&self.histograms[idx])),
        }
    }

    /// The curve of the first configured policy.
    pub fn curve(&mut self) -> (r: Curve)
        requires
            old(self).wf(),
        ensures
            final(self).wf(),
            r.wf(),
            final(self).policies@ == old(self).policies@,
            match old(self).shards {
                None => final(self).histograms@ == old(self).histograms@ && r.points@
                    == crate::curve::plain_curve_points(&final(self).histograms@[0]),
                Some(sh) => r.points@ == crate::curve::corrected_curve_points(
                    &final(self).histograms@[0],
                    &sh,
                ),
            },
    {
        let p = self.policies[0];
        proof {
            assert(old(self).policies@[0] == p);
            assert(policy_index(old(self).policies@, p) == 0);
        }
        match self.policy_curve(&p) {
            Some(c) => c,
            None => {
                proof {
                    assert(false);
                }
                Curve::new()
            },
        }
    }
}

/// The first position of a policy in the configured list.
pub open spec fn policy_index(s: Seq<KosmoPolicy>, p: KosmoPolicy) -> int
    decreases s.len(),
{
    if s.len() == 0 {
        0
    } else if s[0] == p {
        0
    } else {
        1 + policy_index(s.subrange(1, s.len() as int), p)
    }
}

/// Finds the first configured occurrence of a policy.
fn find_policy(policies: &Vec<KosmoPolicy>, p: &KosmoPolicy) -> (r: Option<usize>)
    ensures
        match r {
            Some(i) => i < policies@.len() && policies@[i as int] == *p && i == policy_index(
                policies@,
                *p,
            ),
            None => !exists|i: int| 0 <= i < policies@.len() && policies@[i] == *p,
        },
{
    let n = policies.len();
    let mut i: usize = 0;
    while i < n
        invariant
            i <= n,
            n == policies@.len(),
            forall|j: int| 0 <= j < i ==> policies@[j] != *p,
        decreases n - i,
    {
        if policy_eq(&policies[i], p) {
            proof {
                lemma_policy_index_of_first(policies@, *p, i as int);
            }
            return Some(i);
        }
        i = i + 1;
    }
    None
}

proof fn lemma_policy_index_of_first(s: Seq<KosmoPolicy>, p: KosmoPolicy, i: int)
    requires
        0 <= i < s.len(),
        s[i] == p,
        forall|j: int| 0 <= j < i ==> s[j] != p,
    ensures
        policy_index(s, p) == i,
    decreases i,
{
    if i > 0 {
        let tail = s.subrange(1, s.len() as int);
        assert(forall|j: int| 0 <= j < i - 1 ==> tail[j] != p);
        assert(tail[i - 1] == p);
        lemma_policy_index_of_first(tail, p, i - 1);
    }
}

/// Structural equality of two policies.
fn policy_eq(a: &KosmoPolicy, b: &KosmoPolicy) -> (r: bool)
    ensures
        r == (a == b),
{
    match (a, b) {
        (KosmoPolicy::Lru, KosmoPolicy::Lru) => true,
        (KosmoPolicy::Fifo, KosmoPolicy::Fifo) => true,
        (KosmoPolicy::Lfu, KosmoPolicy::Lfu) => true,
        (KosmoPolicy::TwoQ(a1, a2), KosmoPolicy::TwoQ(b1, b2)) => a1.num == b1.num && a1.den
            == b1.den && a2.num == b2.num && a2.den == b2.den,
        _ => false,
    }
}

/// Finds the table index of a key.
fn find_object(table: &Vec<GlobalObject>, key: Key) -> (r: Option<usize>)
    ensures
        match r {
            Some(i) => i < table@.len() && table@[i as int].object.key == key,
            None => !table_has_key(table@, key),
        },
{
    let n = table.len();
    let mut i: usize = 0;
    while i < n
        invariant
            i <= n,
            n == table@.len(),
            forall|j: int| 0 <= j < i ==> (#[trigger] table@[j]).object.key != key,
        decreases n - i,
    {
        if table[i].object.key == key {
            return Some(i);
        }
        i = i + 1;
    }
    None
}

/// Removes the object with the given key, if present.
fn remove_key(table: &mut Vec<GlobalObject>, key: Key, nmaps: Ghost<int>)
    requires
        table_wf(old(table)@),
        table_maps_len(old(table)@, nmaps@),
    ensures
        table_wf(final(table)@),
        !table_has_key(final(table)@, key),
        table_maps_len(final(table)@, nmaps@),
        forall|k: Key| table_has_key(final(table)@, k) ==> table_has_key(old(table)@, k),
{
    let pos = find_object(table, key);
    match pos {
        Some(idx) => {
            let ghost t0 = table@;
            table.remove(idx);
            proof {
                assert forall|i: int|
                    0 <= i < table@.len() implies (#[trigger] table@[i]).wf() && table@[
                i].eviction_maps@.len() == nmaps@ by {
                    if i < idx {
                        assert(table@[i] == t0[i]);
                    } else {
                        assert(table@[i] == t0[i + 1]);
                    }
                }
                assert forall|k: Key|
                    table_has_key(table@, k) implies table_has_key(t0, k) by {
                    if table_has_key(table@, k) {
                        let i = choose|i: int| 0 <= i < table@.len() && table@[i].object.key == k;
                        if i < idx {
                            assert(t0[i].object.key == k);
                        } else {
                            assert(t0[i + 1].object.key == k);
                        }
                    }
                }
                assert forall|i: int, j: int|
                    0 <= i < j < table@.len() implies table@[i].object.key != table@[j].object.key by {
                    let a = if i < idx {
                        i
                    } else {
                        i + 1
                    };
                    let b = if j < idx {
                        j
                    } else {
                        j + 1
                    };
                    assert(table@[i] == t0[a] && table@[j] == t0[b]);
                }
                assert(!table_has_key(table@, key)) by {
                    if table_has_key(table@, key) {
                        let i = choose|i: int|
                            0 <= i < table@.len() && table@[i].object.key == key;
                        let a = if i < idx {
                            i
                        } else {
                            i + 1
                        };
                        assert(table@[i] == t0[a] && a != idx);
                    }
                }
            }
        },
        None => {},
    }
}

} // verus!

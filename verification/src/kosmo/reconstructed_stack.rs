use vstd::prelude::*;
use crate::access::Key;
use crate::kosmo::local_object::{LocalObjectPolicy, StackLocation};
use crate::kosmo::policy::KosmoPolicy;

verus! {

/// The eviction priority of a local object, as a lexicographic pair:
/// the smaller pair leaves the cache first.
pub open spec fn eviction_priority(o: LocalObjectPolicy) -> (int, int) {
    match o {
        LocalObjectPolicy::Lru(x) => (x.timestamp as int, 0),
        LocalObjectPolicy::Fifo(x) => (
            match x.inserted_timestamp {
                Some(ts) => ts as int,
                None => 0,
            },
            0,
        ),
        LocalObjectPolicy::Lfu(x) => (
            match x.count {
                Some(c) => c as int,
                None => 0,
            },
            x.timestamp as int,
        ),
        LocalObjectPolicy::TwoQ(x) => (
            match x.stack_location {
                Some(StackLocation::A1(ts)) => ts as int,
                _ => x.timestamp as int,
            },
            0,
        ),
    }
}

/// Whether `a` leaves the cache before `b`.
pub open spec fn evicts_before(a: LocalObjectPolicy, b: LocalObjectPolicy) -> bool {
    let pa = eviction_priority(a);
    let pb = eviction_priority(b);
    pa.0 < pb.0 || (pa.0 == pb.0 && pa.1 < pb.1)
}

/// Does some entry of `s` carry key `k`?
pub open spec fn stack_has_key(s: Seq<LocalObjectPolicy>, k: Key) -> bool {
    exists|i: int| 0 <= i < s.len() && s[i].spec_key() == k
}

/// Whether a 2Q local object sits in the protected queue.
pub open spec fn am_located(o: LocalObjectPolicy) -> bool {
    match o {
        LocalObjectPolicy::TwoQ(x) => x.stack_location == Some(StackLocation::Am),
        _ => false,
    }
}

/// A pool size grown by one object, saturating.
pub open spec fn grown(used: u64, sz: u32) -> u64 {
    if used + sz <= u64::MAX {
        (used + sz) as u64
    } else {
        u64::MAX
    }
}

/// The tracked sizes of the two pools, summed with saturation.
pub open spec fn pool_total(a1_used: u64, am_used: u64) -> int {
    if a1_used + am_used <= u64::MAX {
        a1_used + am_used
    } else {
        u64::MAX as int
    }
}

/// The index the eviction loop pops next: the earliest entry that no
/// other entry evicts before.
pub open spec fn victim_of(s: Seq<LocalObjectPolicy>) -> int
    decreases s.len(),
{
    if s.len() <= 1 {
        0
    } else {
        let m = victim_of(s.drop_last());
        if evicts_before(s.last(), s[m]) {
            s.len() - 1
        } else {
            m
        }
    }
}

pub proof fn lemma_victim_of_props(s: Seq<LocalObjectPolicy>)
    requires
        s.len() > 0,
    ensures
        0 <= victim_of(s) < s.len(),
        forall|j: int| 0 <= j < s.len() ==> !evicts_before(#[trigger] s[j], s[victim_of(s)]),
        forall|j: int| 0 <= j < victim_of(s) ==> evicts_before(s[victim_of(s)], #[trigger] s[j]),
    decreases s.len(),
{
    if s.len() > 1 {
        let head = s.drop_last();
        lemma_victim_of_props(head);
        let m = victim_of(head);
        assert(forall|j: int| 0 <= j < head.len() ==> head[j] == s[j]);
        if evicts_before(s.last(), s[m]) {
            assert forall|j: int|
                0 <= j < victim_of(s) implies evicts_before(s[victim_of(s)], #[trigger] s[j]) by {
                if j != m {
                    assert(!evicts_before(s[j], s[m]));
                }
            }
        }
    }
}

/// The state of the single-pool eviction loop: the keys it emits, the
/// entries it leaves, and the remaining tracked size.  Victims leave
/// in eviction order until the pool fits; the excluded key is never
/// emitted and frees no space.
pub open spec fn drain(s: Seq<LocalObjectPolicy>, used: int, max: u64, ex: Key) -> (
    Seq<Key>,
    Seq<LocalObjectPolicy>,
    int,
)
    decreases s.len(),
    via drain_decreases
{
    if used <= max || s.len() == 0 {
        (Seq::empty(), s, used)
    } else {
        let v = victim_of(s);
        let k = s[v].spec_key();
        let rest = s.remove(v);
        if k == ex {
            drain(rest, used, max, ex)
        } else {
            let freed = if used >= s[v].spec_size() {
                used - s[v].spec_size()
            } else {
                0
            };
            let tail = drain(rest, freed, max, ex);
            (seq![k] + tail.0, tail.1, tail.2)
        }
    }
}

#[via_fn]
proof fn drain_decreases(s: Seq<LocalObjectPolicy>, used: int, max: u64, ex: Key) {
    if !(used <= max || s.len() == 0) {
        lemma_victim_of_props(s);
    }
}

fn beats(a: &LocalObjectPolicy, b: &LocalObjectPolicy) -> (r: bool)
    ensures
        r == evicts_before(*a, *b),
{
    let (a0, a1) = priority_of(a);
    let (b0, b1) = priority_of(b);
    a0 < b0 || (a0 == b0 && a1 < b1)
}

fn priority_of(o: &LocalObjectPolicy) -> (r: (u64, u64))
    ensures
        r.0 == eviction_priority(*o).0,
        r.1 == eviction_priority(*o).1,
{
    match o {
        LocalObjectPolicy::Lru(x) => (x.timestamp, 0),
        LocalObjectPolicy::Fifo(x) => (
            match x.inserted_timestamp {
                Some(ts) => ts,
                None => 0,
            },
            0,
        ),
        LocalObjectPolicy::Lfu(x) => (
            match x.count {
                Some(c) => c,
                None => 0,
            },
            x.timestamp,
        ),
        LocalObjectPolicy::TwoQ(x) => (
            match x.stack_location {
                Some(StackLocation::A1(ts)) => ts,
                _ => x.timestamp,
            },
            0,
        ),
    }
}

/// Finds the entry that leaves first: no other entry evicts before it,
/// and among ties the earliest admitted wins.
fn find_victim(stack: &Vec<LocalObjectPolicy>) -> (r: usize)
    requires
        stack@.len() > 0,
    ensures
        r < stack@.len(),
        forall|j: int|
            0 <= j < stack@.len() ==> !evicts_before(#[trigger] stack@[j], stack@[r as int]),
        forall|j: int| 0 <= j < r ==> evicts_before(stack@[r as int], #[trigger] stack@[j]),
        r == victim_of(stack@),
{
    let mut best: usize = 0;
    let mut i: usize = 1;
    while i < stack.len()
        invariant
            best < i <= stack@.len(),
            forall|j: int|
                0 <= j < i ==> !evicts_before(#[trigger] stack@[j], stack@[best as int]),
            forall|j: int|
                0 <= j < best ==> evicts_before(stack@[best as int], #[trigger] stack@[j]),
        decreases stack@.len() - i,
    {
        if beats(&stack[i], &stack[best]) {
            best = i;
        }
        i = i + 1;
    }
    proof {
        lemma_victim_of_props(stack@);
        let v = victim_of(stack@);
        if v < best {
            assert(evicts_before(stack@[best as int], stack@[v]));
        }
        if best < v {
            assert(evicts_before(stack@[v], stack@[best as int]));
            assert(!evicts_before(stack@[v], stack@[best as int]));
        }
    }
    best
}

/// A reconstructed eviction stack for one policy at one cache size:
/// the resident local objects of every global object, evicted in the
/// policy's order until the contents fit.  2Q uses two pools with its
/// cascade rule.
pub struct ReconstructedStackPolicy {
    pub policy: KosmoPolicy,
    pub max_size: u64,
    pub a1_used: u64,
    pub am_used: u64,
    pub a1: Vec<LocalObjectPolicy>,
    pub am: Vec<LocalObjectPolicy>,
}

impl ReconstructedStackPolicy {
    pub open spec fn wf(&self) -> bool {
        self.policy.wf()
    }

    pub fn new(policy: &KosmoPolicy, size: u64) -> (r: ReconstructedStackPolicy)
        requires
            policy.wf(),
        ensures
            r.wf(),
            r.policy == *policy,
            r.max_size == size,
            r.a1@.len() == 0,
            r.am@.len() == 0,
    {
        ReconstructedStackPolicy {
            policy: *policy,
            max_size: size,
            a1_used: 0,
            am_used: 0,
            a1: Vec::new(),
            am: Vec::new(),
        }
    }

    /// Admits one local object if it is resident at this cache size.
    /// Protected 2Q objects go to the protected pool, everything else
    /// to the probation pool.
    pub fn insert(&mut self, local: LocalObjectPolicy)
        requires
            old(self).wf(),
        ensures
            final(self).wf(),
            final(self).policy == old(self).policy,
            final(self).max_size == old(self).max_size,
            !local.spec_resident() ==> *final(self) == *old(self),
            local.spec_resident() && am_located(local) ==> {
                &&& final(self).am@ == old(self).am@.push(local)
                &&& final(self).a1@ == old(self).a1@
                &&& final(self).am_used == grown(old(self).am_used, local.spec_size())
                &&& final(self).a1_used == old(self).a1_used
            },
            local.spec_resident() && !am_located(local) ==> {
                &&& final(self).a1@ == old(self).a1@.push(local)
                &&& final(self).am@ == old(self).am@
                &&& final(self).a1_used == grown(old(self).a1_used, local.spec_size())
                &&& final(self).am_used == old(self).am_used
            },
            forall|k: Key|
                stack_has_key(final(self).a1@, k) || stack_has_key(final(self).am@, k) ==> (
                stack_has_key(old(self).a1@, k) || stack_has_key(old(self).am@, k) || (
                local.spec_resident() && local.spec_key() == k)),
            local.spec_resident() ==> stack_has_key(final(self).a1@, local.spec_key())
                || stack_has_key(final(self).am@, local.spec_key()),
    {
        if !local.is_resident() {
            return ;
        }
        let sz = local.size() as u64;
        let to_am: bool = match &local {
            LocalObjectPolicy::TwoQ(x) => {
                match x.stack_location {
                    Some(StackLocation::Am) => true,
                    _ => false,
                }
            },
            _ => false,
        };
        if to_am {
            let ghost m0 = self.am@;
            self.am.push(local);
            self.am_used = if self.am_used <= u64::MAX - sz {
                self.am_used + sz
            } else {
                u64::MAX
            };
            proof {
                assert(forall|i: int| 0 <= i < m0.len() ==> self.am@[i] == m0[i]);
                assert(self.am@.last() == local);
                assert forall|k: Key|
                    stack_has_key(self.am@, k) implies stack_has_key(m0, k) || local.spec_key()
                    == k by {
                    let i = choose|i: int| 0 <= i < self.am@.len() && self.am@[i].spec_key() == k;
                    if i < m0.len() {
                        assert(m0[i].spec_key() == k);
                    }
                }
            }
        } else {
            let ghost m0 = self.a1@;
            self.a1.push(local);
            self.a1_used = if self.a1_used <= u64::MAX - sz {
                self.a1_used + sz
            } else {
                u64::MAX
            };
            proof {
                assert(forall|i: int| 0 <= i < m0.len() ==> self.a1@[i] == m0[i]);
                assert(self.a1@.last() == local);
                assert forall|k: Key|
                    stack_has_key(self.a1@, k) implies stack_has_key(m0, k) || local.spec_key()
                    == k by {
                    let i = choose|i: int| 0 <= i < self.a1@.len() && self.a1@[i].spec_key() == k;
                    if i < m0.len() {
                        assert(m0[i].spec_key() == k);
                    }
                }
            }
        }
    }

    /// Pops victims in eviction order until the contents fit, leaving
    /// out the excluded key (the access being processed) from both the
    /// freed space and the reported evictions.  For the single-pool
    /// policies the result is exactly the `drain` fold of the pool.
    pub fn get_evictions(&mut self, exclude_key: Key) -> (r: Vec<Key>)
        requires
            old(self).wf(),
        ensures
            final(self).wf(),
            final(self).max_size == old(self).max_size,
            forall|i: int|
                0 <= i < r@.len() ==> (stack_has_key(old(self).a1@, #[trigger] r@[i])
                    || stack_has_key(old(self).am@, r@[i])) && r@[i] != exclude_key,
            pool_total(final(self).a1_used, final(self).am_used) <= final(self).max_size
                || final(self).a1@.len() == 0 || final(self).am@.len() == 0,
            (!(old(self).policy is TwoQ) && old(self).am@.len() == 0 && old(self).am_used == 0)
                ==> ({
                let d = drain(
                    old(self).a1@,
                    old(self).a1_used as int,
                    old(self).max_size,
                    exclude_key,
                );
                &&& r@ == d.0
                &&& final(self).a1@ == d.1
                &&& final(self).a1_used == d.2
            }),
    {
        let mut keys: Vec<Key> = Vec::new();
        let use_cascade: bool = match &self.policy {
            KosmoPolicy::TwoQ(_, _) => true,
            _ => false,
        };
        let (ain_cap, a1_cap): (u64, u64) = match &self.policy {
            KosmoPolicy::TwoQ(kin, kout) => (
                kin.scale(self.max_size),
                kin.scale_sum(*kout, self.max_size),
            ),
            _ => (0, 0),
        };
        let ghost plain = !(old(self).policy is TwoQ) && old(self).am@.len() == 0 && old(
            self,
        ).am_used == 0;
        let ghost d0 = drain(
            old(self).a1@,
            old(self).a1_used as int,
            old(self).max_size,
            exclude_key,
        );
        let mut stop: bool = false;
        while (self.a1.len() > 0 || self.am.len() > 0) && !stop
            invariant
                self.wf(),
                self.max_size == old(self).max_size,
                use_cascade == (self.policy is TwoQ),
                self.policy == old(self).policy,
                plain == (!(old(self).policy is TwoQ) && old(self).am@.len() == 0 && old(
                    self,
                ).am_used == 0),
                d0 == drain(
                    old(self).a1@,
                    old(self).a1_used as int,
                    old(self).max_size,
                    exclude_key,
                ),
                plain ==> self.am@.len() == 0 && self.am_used == 0,
                plain ==> d0.0 == keys@ + drain(
                    self.a1@,
                    self.a1_used as int,
                    self.max_size,
                    exclude_key,
                ).0 && d0.1 == drain(
                    self.a1@,
                    self.a1_used as int,
                    self.max_size,
                    exclude_key,
                ).1 && d0.2 == drain(
                    self.a1@,
                    self.a1_used as int,
                    self.max_size,
                    exclude_key,
                ).2,
                plain && stop ==> self.a1_used <= self.max_size || self.a1@.len() == 0,
                stop ==> pool_total(self.a1_used, self.am_used) <= self.max_size
                    || self.a1@.len() == 0 || self.am@.len() == 0,
                forall|i: int|
                    0 <= i < self.a1@.len() ==> stack_has_key(old(self).a1@, (
                    #[trigger] self.a1@[i]).spec_key()) || stack_has_key(
                        old(self).am@,
                        self.a1@[i].spec_key(),
                    ),
                forall|i: int|
                    0 <= i < self.am@.len() ==> stack_has_key(old(self).a1@, (
                    #[trigger] self.am@[i]).spec_key()) || stack_has_key(
                        old(self).am@,
                        self.am@[i].spec_key(),
                    ),
                forall|i: int|
                    0 <= i < keys@.len() ==> (stack_has_key(old(self).a1@, #[trigger] keys@[i])
                        || stack_has_key(old(self).am@, keys@[i])) && keys@[i] != exclude_key,
            decreases self.a1@.len() + self.am@.len(), (if stop { 0int } else { 1int }),
        {
            let total = if self.a1_used <= u64::MAX - self.am_used {
                self.a1_used + self.am_used
            } else {
                u64::MAX
            };
            let from_a1: bool = if use_cascade {
                self.a1_used > a1_cap || (self.a1_used > ain_cap && total > self.max_size)
            } else {
                total > self.max_size
            };
            if from_a1 {
                if self.a1.len() == 0 {
                    stop = true;
                } else {
                    let ghost used0 = self.a1_used;
                    let v = find_victim(&self.a1);
                    let ghost s0 = self.a1@;
                    let victim = self.a1.remove(v);
                    proof {
                        lemma_remove_keeps_keys(s0, v as int);
                        if plain {
                            assert(used0 > self.max_size);
                            assert(v as int == victim_of(s0));
                        }
                    }
                    if victim.key() != exclude_key {
                        let sz = victim.size() as u64;
                        self.a1_used = if self.a1_used >= sz {
                            self.a1_used - sz
                        } else {
                            0
                        };
                        let ghost k0 = keys@;
                        keys.push(victim.key());
                        proof {
                            assert(forall|i: int| 0 <= i < k0.len() ==> keys@[i] == k0[i]);
                            assert(keys@.last() == victim.spec_key());
                            assert(s0[v as int] == victim);
                            assert(stack_has_key(old(self).a1@, victim.spec_key())
                                || stack_has_key(old(self).am@, victim.spec_key()));
                            if plain {
                                let rest = drain(
                                    self.a1@,
                                    self.a1_used as int,
                                    self.max_size,
                                    exclude_key,
                                );
                                assert(drain(s0, used0 as int, self.max_size, exclude_key).0
                                    == seq![victim.spec_key()] + rest.0);
                                assert(keys@ + rest.0 =~= k0 + (seq![victim.spec_key()]
                                    + rest.0));
                            }
                        }
                    } else {
                        proof {
                            if plain {
                                assert(drain(s0, used0 as int, self.max_size, exclude_key)
                                    == drain(
                                    self.a1@,
                                    self.a1_used as int,
                                    self.max_size,
                                    exclude_key,
                                ));
                            }
                        }
                    }
                }
            } else if !use_cascade || total <= self.max_size {
                stop = true;
            } else if self.am.len() == 0 {
                stop = true;
            } else {
                let v = find_victim(&self.am);
                let ghost s0 = self.am@;
                let victim = self.am.remove(v);
                proof {
                    lemma_remove_keeps_keys(s0, v as int);
                }
                if victim.key() != exclude_key {
                    let sz = victim.size() as u64;
                    self.am_used = if self.am_used >= sz {
                        self.am_used - sz
                    } else {
                        0
                    };
                    let ghost k0 = keys@;
                    keys.push(victim.key());
                    proof {
                        assert(forall|i: int| 0 <= i < k0.len() ==> keys@[i] == k0[i]);
                        assert(keys@.last() == victim.spec_key());
                        assert(s0[v as int] == victim);
                    }
                }
            }
        }
        keys
    }
}

/// Removing one entry keeps every remaining key a key of the original.
proof fn lemma_remove_keeps_keys(s: Seq<LocalObjectPolicy>, v: int)
    requires
        0 <= v < s.len(),
    ensures
        forall|i: int|
            0 <= i < s.remove(v).len() ==> stack_has_key(s, (#[trigger] s.remove(v)[i]).spec_key()),
        stack_has_key(s, s[v].spec_key()),
{
    let t = s.remove(v);
    assert forall|i: int| 0 <= i < t.len() implies stack_has_key(s, (#[trigger] t[i]).spec_key()) by {
        if i < v {
            assert(t[i] == s[i]);
            assert(s[i].spec_key() == t[i].spec_key());
        } else {
            assert(t[i] == s[i + 1]);
        }
    }
}

} // verus!

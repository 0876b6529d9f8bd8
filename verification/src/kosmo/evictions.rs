use vstd::prelude::*;
use crate::access::Key;
use crate::kosmo::reconstructed_stack::ReconstructedStackPolicy;

verus! {

/// Whether a key occurs in a key list.
pub open spec fn key_in(s: Seq<Key>, k: Key) -> bool {
    exists|i: int| 0 <= i < s.len() && s[i] == k
}

/// The evictions every policy's reconstructed stack produced at one
/// cache size, drained one key at a time with duplicates suppressed.
pub struct Evictions {
    pub policy_evictions: Vec<Vec<Key>>,
    pub evicted_policy_keys: Vec<Vec<Key>>,
}

impl Evictions {
    pub open spec fn wf(&self) -> bool {
        self.policy_evictions@.len() == self.evicted_policy_keys@.len()
    }

    /// Drains every stack at this cache size.
    pub fn new(stacks: &mut Vec<ReconstructedStackPolicy>, exclude_key: Key) -> (r: Evictions)
        requires
            forall|i: int| 0 <= i < old(stacks)@.len() ==> (#[trigger] old(stacks)@[i]).wf(),
        ensures
            r.wf(),
            r.policy_evictions@.len() == old(stacks)@.len(),
    {
        let mut policy_evictions: Vec<Vec<Key>> = Vec::new();
        let mut evicted_policy_keys: Vec<Vec<Key>> = Vec::new();
        let n = stacks.len();
        let mut i: usize = 0;
        while i < n
            invariant
                i <= n,
                n == stacks@.len(),
                forall|j: int| 0 <= j < stacks@.len() ==> (#[trigger] stacks@[j]).wf(),
                policy_evictions@.len() == i,
                evicted_policy_keys@.len() == i,
            decreases n - i,
        {
            let ghost s0 = stacks@;
            let stack = &mut stacks[i];
            let keys = stack.get_evictions(exclude_key);
            proof {
                assert forall|j: int|
                    0 <= j < stacks@.len() implies (#[trigger] stacks@[j]).wf() by {
                    if j != i {
                        assert(stacks@[j] == s0[j]);
                    }
                }
            }
            policy_evictions.push(keys);
            evicted_policy_keys.push(Vec::new());
            i = i + 1;
        }
        Evictions { policy_evictions, evicted_policy_keys }
    }

    /// Hands out the next eviction of one policy, popping its list
    /// from the back.  The first repeated key ends the stream for that
    /// policy.
    pub fn get_key(&mut self, policy_index: usize) -> (r: Option<Key>)
        requires
            old(self).wf(),
            policy_index < old(self).policy_evictions@.len(),
        ensures
            final(self).wf(),
            final(self).policy_evictions@.len() == old(self).policy_evictions@.len(),
            forall|j: int|
                0 <= j < final(self).policy_evictions@.len() && j != policy_index ==> (
                #[trigger] final(self).policy_evictions@[j]) == old(self).policy_evictions@[j],
            forall|j: int|
                0 <= j < final(self).evicted_policy_keys@.len() && j != policy_index ==> (
                #[trigger] final(self).evicted_policy_keys@[j]) == old(self).evicted_policy_keys@[j],
            ({
                let l = old(self).policy_evictions@[policy_index as int]@;
                let seen = old(self).evicted_policy_keys@[policy_index as int]@;
                if l.len() == 0 {
                    &&& r is None
                    &&& final(self).policy_evictions@[policy_index as int]@ == l
                    &&& final(self).evicted_policy_keys@[policy_index as int]@ == seen
                } else {
                    &&& final(self).policy_evictions@[policy_index as int]@ == l.drop_last()
                    &&& if key_in(seen, l.last()) {
                        r is None && final(self).evicted_policy_keys@[policy_index as int]@
                            == seen
                    } else {
                        r == Some(l.last()) && final(self).evicted_policy_keys@[
                        policy_index as int]@ == seen.push(l.last())
                    }
                }
            }),
            r is Some ==> final(self).policy_evictions@[policy_index as int].len() == old(
                self,
            ).policy_evictions@[policy_index as int].len() - 1,
    {
        let ghost p0 = self.policy_evictions@;
        let mut list = self.policy_evictions.remove(policy_index);
        let popped = list.pop();
        let r: Option<Key> = match popped {
            None => None,
            Some(key) => {
                let mut seen = self.evicted_policy_keys.remove(policy_index);
                let mut i: usize = 0;
                let n = seen.len();
                let mut dup: bool = false;
                while i < n && !dup
                    invariant
                        i <= n,
                        n == seen@.len(),
                        dup ==> key_in(seen@, key),
                        !dup ==> forall|j: int| 0 <= j < i ==> seen@[j] != key,
                    decreases n - i,
                {
                    if seen[i] == key {
                        dup = true;
                        proof {
                            assert(seen@[i as int] == key);
                        }
                    }
                    i = i + 1;
                }
                proof {
                    if !dup {
                        assert(!key_in(seen@, key)) by {
                            if key_in(seen@, key) {
                                let j = choose|j: int|
                                    0 <= j < seen@.len() && seen@[j] == key;
                            }
                        }
                    }
                }
                if !dup {
                    seen.push(key);
                }
                self.evicted_policy_keys.insert(policy_index, seen);
                if dup {
                    None
                } else {
                    Some(key)
                }
            },
        };
        self.policy_evictions.insert(policy_index, list);
        r
    }
}

} // verus!

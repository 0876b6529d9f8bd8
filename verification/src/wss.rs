use vstd::prelude::*;
use crate::access::{Access, Command, Key};

verus! {

/// The keys of the valid accesses among the first `n` of `s`.
pub open spec fn seen_keys(s: Seq<Access>, n: int) -> Set<Key>
    decreases n,
{
    if n <= 0 {
        Set::empty()
    } else if s[n - 1].command == Command::Get && s[n - 1].size > 0 {
        seen_keys(s, n - 1).insert(s[n - 1].key)
    } else {
        seen_keys(s, n - 1)
    }
}

/// The working-set size of a prefix: the summed sizes of the first
/// valid access of every distinct key.
pub open spec fn spec_wss(s: Seq<Access>, n: int) -> int
    decreases n,
{
    if n <= 0 {
        0
    } else if s[n - 1].command == Command::Get && s[n - 1].size > 0 && !seen_keys(s, n - 1).contains(
        s[n - 1].key,
    ) {
        spec_wss(s, n - 1) + s[n - 1].size
    } else {
        spec_wss(s, n - 1)
    }
}

/// Sums the size of each distinct key's first valid access, saturating
/// at the largest representable value.
pub fn working_set_size(accesses: &Vec<Access>) -> (r: u64)
    ensures
        r == if spec_wss(accesses@, accesses@.len() as int) <= u64::MAX {
            spec_wss(accesses@, accesses@.len() as int) as u64
        } else {
            u64::MAX
        },
{
    let mut keys: Vec<Key> = Vec::new();
    let mut wss: u64 = 0;
    let n = accesses.len();
    let mut i: usize = 0;
    proof {
        lemma_wss_nonneg(accesses@, 0);
    }
    while i < n
        invariant
            i <= n,
            n == accesses@.len(),
            keys@.to_set() == seen_keys(accesses@, i as int),
            wss == if spec_wss(accesses@, i as int) <= u64::MAX {
                spec_wss(accesses@, i as int) as u64
            } else {
                u64::MAX
            },
        decreases n - i,
    {
        proof {
            lemma_wss_nonneg(accesses@, i as int);
            lemma_wss_nonneg(accesses@, i + 1);
        }
        let a = &accesses[i];
        if a.is_valid_self_populating() {
            let mut found: bool = false;
            let mut j: usize = 0;
            let m = keys.len();
            while j < m && !found
                invariant
                    j <= m,
                    m == keys@.len(),
                    found ==> keys@.contains(a.key),
                    !found ==> forall|p: int| 0 <= p < j ==> keys@[p] != a.key,
                decreases m - j,
            {
                if keys[j] == a.key {
                    found = true;
                }
                j = j + 1;
            }
            proof {
                if !found {
                    assert(!keys@.contains(a.key)) by {
                        if keys@.contains(a.key) {
                            let p = choose|p: int| 0 <= p < keys@.len() && keys@[p] == a.key;
                        }
                    }
                    assert(!seen_keys(accesses@, i as int).contains(a.key)) by {
                        assert(keys@.to_set() == seen_keys(accesses@, i as int));
                        if seen_keys(accesses@, i as int).contains(a.key) {
                            assert(keys@.to_set().contains(a.key));
                        }
                    }
                } else {
                    assert(seen_keys(accesses@, i as int).contains(a.key)) by {
                        assert(keys@.to_set().contains(a.key));
                    }
                }
            }
            if !found {
                let ghost k0 = keys@;
                keys.push(a.key);
                let sz = a.size as u64;
                wss = if wss <= u64::MAX - sz {
                    wss + sz
                } else {
                    u64::MAX
                };
                proof {
                    assert(keys@.to_set() =~= k0.to_set().insert(a.key)) by {
                        assert(keys@ =~= k0.push(a.key));
                        assert(keys@.to_set() =~= k0.to_set().insert(a.key)) by {
                            assert forall|k: Key| keys@.to_set().contains(k) implies k0.to_set(
                            ).insert(a.key).contains(k) by {
                                let p = choose|p: int|
                                    0 <= p < keys@.len() && keys@[p] == k;
                                if p < k0.len() {
                                    assert(k0[p] == k);
                                    assert(k0.contains(k));
                                }
                            }
                            assert forall|k: Key|
                                k0.to_set().insert(a.key).contains(k) implies keys@.to_set(
                            ).contains(k) by {
                                if k == a.key {
                                    assert(keys@[keys@.len() - 1] == k);
                                    assert(keys@.contains(k));
                                } else {
                                    let p = choose|p: int| 0 <= p < k0.len() && k0[p] == k;
                                    assert(keys@[p] == k);
                                    assert(keys@.contains(k));
                                }
                            }
                        }
                    }
                }
            }
        }
        i = i + 1;
    }
    wss
}

proof fn lemma_wss_nonneg(s: Seq<Access>, n: int)
    ensures
        spec_wss(s, n) >= 0,
    decreases n,
{
    if n > 0 {
        lemma_wss_nonneg(s, n - 1);
    }
}

} // verus!

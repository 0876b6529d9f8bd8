use vstd::prelude::*;
use vstd::string::StringSliceAdditionalSpecFns;
use crate::cache::policy::PolicyError;
use crate::frac::Frac;

verus! {

/// A policy Kosmo can simulate.
#[derive(Debug, Clone, Copy, PartialEq, Eq, Structural)]
pub enum KosmoPolicy {
    Lru,
    Fifo,
    Lfu,
    TwoQ(Frac, Frac),
}

impl KosmoPolicy {
    pub open spec fn wf(self) -> bool {
        match self {
            KosmoPolicy::TwoQ(kin, kout) => {
                &&& kin.wf()
                &&& kout.wf()
                &&& kin.is_positive()
                &&& kout.is_positive()
                &&& kin.spec_sum_num(kout) <= kin.spec_sum_den(kout)
            },
            _ => true,
        }
    }
}

/// The Kosmo policy grammar: the four policy names, with the standard
/// queue fractions for 2Q.
pub open spec fn spec_parse_kosmo_policy(bs: Seq<u8>) -> Result<KosmoPolicy, PolicyError> {
    if bs =~= seq![108u8, 114u8, 117u8] {
        Ok(KosmoPolicy::Lru)
    } else if bs =~= seq![108u8, 102u8, 117u8] {
        Ok(KosmoPolicy::Lfu)
    } else if bs =~= seq![102u8, 105u8, 102u8, 111u8] {
        Ok(KosmoPolicy::Fifo)
    } else if bs =~= seq![50u8, 113u8] {
        Ok(KosmoPolicy::TwoQ(Frac { num: 1, den: 4 }, Frac { num: 1, den: 2 }))
    } else {
        Err(PolicyError::InvalidPolicyConfig)
    }
}

impl KosmoPolicy {
    /// Parses a Kosmo policy name.
    pub fn parse(s: &str) -> (r: Result<KosmoPolicy, PolicyError>)
        ensures
            r == spec_parse_kosmo_policy(s.spec_bytes()),
            r is Ok ==> r->Ok_0.wf(),
    {
        let bs = s.as_bytes();
        let n = bs.len();
        if n == 3 && bs[0] == 108 && bs[1] == 114 && bs[2] == 117 {
            proof {
                assert(bs@ =~= seq![108u8, 114u8, 117u8]);
            }
            return Ok(KosmoPolicy::Lru);
        }
        if n == 3 && bs[0] == 108 && bs[1] == 102 && bs[2] == 117 {
            proof {
                assert(bs@ =~= seq![108u8, 102u8, 117u8]);
            }
            return Ok(KosmoPolicy::Lfu);
        }
        if n == 4 && bs[0] == 102 && bs[1] == 105 && bs[2] == 102 && bs[3] == 111 {
            proof {
                assert(bs@ =~= seq![102u8, 105u8, 102u8, 111u8]);
            }
            return Ok(KosmoPolicy::Fifo);
        }
        if n == 2 && bs[0] == 50 && bs[1] == 113 {
            proof {
                assert(bs@ =~= seq![50u8, 113u8]);
            }
            return Ok(KosmoPolicy::TwoQ(Frac { num: 1, den: 4 }, Frac { num: 1, den: 2 }));
        }
        proof {
            assert(!(bs@ =~= seq![108u8, 114u8, 117u8]));
            assert(!(bs@ =~= seq![108u8, 102u8, 117u8]));
            assert(!(bs@ =~= seq![102u8, 105u8, 102u8, 111u8]));
            assert(!(bs@ =~= seq![50u8, 113u8]));
        }
        Err(PolicyError::InvalidPolicyConfig)
    }
}

impl core::str::FromStr for KosmoPolicy {
    type Err = PolicyError;

    fn from_str(value: &str) -> Result<KosmoPolicy, PolicyError> {
        KosmoPolicy::parse(value)
    }
}

} // verus!

use vstd::prelude::*;
use crate::access::{Access, Key, Size, Timestamp};

verus! {

/// An object as the MRC algorithms track it: identified by its key,
/// carrying the timestamp and size of its latest access.
#[derive(Debug, Clone, Copy)]
pub struct Object {
    pub timestamp: Timestamp,
    pub key: Key,
    pub size: Size,
}

impl Object {
    pub fn new(access: &Access) -> (r: Object)
        ensures
            r.timestamp == access.timestamp,
            r.key == access.key,
            r.size == access.size,
    {
        Object { timestamp: access.timestamp, key: access.key, size: access.size }
    }

    /// A re-access refreshes the timestamp and nothing else.
    pub fn update(&mut self, access: &Access)
        ensures
            final(self).timestamp == access.timestamp,
            final(self).key == old(self).key,
            final(self).size == old(self).size,
    {
        self.timestamp = access.timestamp;
    }
}

} // verus!

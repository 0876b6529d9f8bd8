use vstd::prelude::*;
use crate::access::{Key, Size, Timestamp};

verus! {

/// Where an object stands in a reconstructed 2Q cache: the pooled
/// probation queue (with its admission timestamp) or the protected
/// queue.
#[derive(Debug, Clone, Copy, PartialEq, Eq, Structural)]
pub enum StackLocation {
    A1(Timestamp),
    Am,
}

/// A lightweight view of a global object under one policy at one
/// cache size, ready for eviction-order comparison.
pub trait LocalObject {
    fn key(&self) -> Key;

    fn size(&self) -> Size;

    /// Whether the object would be resident at the chosen cache size.
    fn is_resident(&self) -> bool;
}

/// An LRU local object: eviction order goes by the access timestamp,
/// oldest first.
#[derive(Debug, Clone, Copy)]
pub struct LruLocalObject {
    pub key: Key,
    pub size: Size,
    pub timestamp: Timestamp,
    pub resident: bool,
}

impl LocalObject for LruLocalObject {
    fn key(&self) -> (r: Key)
        ensures
            r == self.key,
    {
        self.key
    }

    fn size(&self) -> (r: Size)
        ensures
            r == self.size,
    {
        self.size
    }

    fn is_resident(&self) -> (r: bool)
        ensures
            r == self.resident,
    {
        self.resident
    }
}

/// A FIFO local object: eviction order goes by the admission
/// timestamp, oldest first.
#[derive(Debug, Clone, Copy)]
pub struct FifoLocalObject {
    pub key: Key,
    pub size: Size,
    pub inserted_timestamp: Option<Timestamp>,
}

impl LocalObject for FifoLocalObject {
    fn key(&self) -> (r: Key)
        ensures
            r == self.key,
    {
        self.key
    }

    fn size(&self) -> (r: Size)
        ensures
            r == self.size,
    {
        self.size
    }

    fn is_resident(&self) -> (r: bool)
        ensures
            r == (self.inserted_timestamp is Some),
    {
        self.inserted_timestamp.is_some()
    }
}

/// An LFU local object: eviction order goes by the effective count,
/// smallest first, ties broken by the access timestamp.
#[derive(Debug, Clone, Copy)]
pub struct LfuLocalObject {
    pub key: Key,
    pub size: Size,
    pub timestamp: Timestamp,
    pub count: Option<u64>,
}

impl LocalObject for LfuLocalObject {
    fn key(&self) -> (r: Key)
        ensures
            r == self.key,
    {
        self.key
    }

    fn size(&self) -> (r: Size)
        ensures
            r == self.size,
    {
        self.size
    }

    fn is_resident(&self) -> (r: bool)
        ensures
            r == (self.count is Some),
    {
        self.count.is_some()
    }
}

/// A 2Q local object: the probation queue evicts before the protected
/// one, each oldest-first.
#[derive(Debug, Clone, Copy)]
pub struct TwoQLocalObject {
    pub key: Key,
    pub size: Size,
    pub timestamp: Timestamp,
    pub stack_location: Option<StackLocation>,
}

impl TwoQLocalObject {
    pub fn stack_location(&self) -> (r: Option<StackLocation>)
        ensures
            r == self.stack_location,
    {
        self.stack_location
    }
}

impl LocalObject for TwoQLocalObject {
    fn key(&self) -> (r: Key)
        ensures
            r == self.key,
    {
        self.key
    }

    fn size(&self) -> (r: Size)
        ensures
            r == self.size,
    {
        self.size
    }

    fn is_resident(&self) -> (r: bool)
        ensures
            r == (self.stack_location is Some),
    {
        self.stack_location.is_some()
    }
}

/// One policy's local object.
#[derive(Debug, Clone, Copy)]
pub enum LocalObjectPolicy {
    Lru(LruLocalObject),
    Fifo(FifoLocalObject),
    Lfu(LfuLocalObject),
    TwoQ(TwoQLocalObject),
}

impl LocalObjectPolicy {
    pub open spec fn spec_key(&self) -> Key {
        match self {
            LocalObjectPolicy::Lru(o) => o.key,
            LocalObjectPolicy::Fifo(o) => o.key,
            LocalObjectPolicy::Lfu(o) => o.key,
            LocalObjectPolicy::TwoQ(o) => o.key,
        }
    }

    pub open spec fn spec_size(&self) -> u32 {
        match self {
            LocalObjectPolicy::Lru(o) => o.size,
            LocalObjectPolicy::Fifo(o) => o.size,
            LocalObjectPolicy::Lfu(o) => o.size,
            LocalObjectPolicy::TwoQ(o) => o.size,
        }
    }

    pub open spec fn spec_resident(&self) -> bool {
        match self {
            LocalObjectPolicy::Lru(o) => o.resident,
            LocalObjectPolicy::Fifo(o) => o.inserted_timestamp is Some,
            LocalObjectPolicy::Lfu(o) => o.count is Some,
            LocalObjectPolicy::TwoQ(o) => o.stack_location is Some,
        }
    }

    pub fn key(&self) -> (r: Key)
        ensures
            r == self.spec_key(),
    {
        match self {
            LocalObjectPolicy::Lru(o) => o.key,
            LocalObjectPolicy::Fifo(o) => o.key,
            LocalObjectPolicy::Lfu(o) => o.key,
            LocalObjectPolicy::TwoQ(o) => o.key,
        }
    }

    pub fn size(&self) -> (r: Size)
        ensures
            r == self.spec_size(),
    {
        match self {
            LocalObjectPolicy::Lru(o) => o.size,
            LocalObjectPolicy::Fifo(o) => o.size,
            LocalObjectPolicy::Lfu(o) => o.size,
            LocalObjectPolicy::TwoQ(o) => o.size,
        }
    }

    pub fn is_resident(&self) -> (r: bool)
        ensures
            r == self.spec_resident(),
    {
        match self {
            LocalObjectPolicy::Lru(o) => o.resident,
            LocalObjectPolicy::Fifo(o) => o.inserted_timestamp.is_some(),
            LocalObjectPolicy::Lfu(o) => o.count.is_some(),
            LocalObjectPolicy::TwoQ(o) => o.stack_location.is_some(),
        }
    }
}

} // verus!

//! Per-peer counters and their sum. Counters wrap around at 2^64, as atomic
//! counters do.
use vstd::prelude::*;

verus! {

/// `a + b`, wrapped at 2^64.
pub open spec fn wrap_add(a: u64, b: u64) -> u64 {
    ((a as int + b as int) % 0x1_0000_0000_0000_0000) as u64
}

/// `a + b`, wrapped at 2^64.
pub fn wrapping_sum(a: u64, b: u64) -> (r: u64)
    ensures
        r == wrap_add(a, b),
{
    if a <= u64::MAX - b {
        a + b
    } else {
        b - (u64::MAX - a) - 1
    }
}

/// Counters of what was exchanged with a peer.
#[derive(Clone, Copy, Debug, PartialEq, Eq, Structural)]
pub struct Stats {
    /// Blocks sent.
    pub sent_blocks: u64,
    /// Blocks received that the store did not hold yet.
    pub received_blocks: u64,
    /// Data bytes of those blocks.
    pub received_data: u64,
    /// Blocks received that the store held already.
    pub duplicate_blocks: u64,
    /// Data bytes of those blocks.
    pub duplicate_data: u64,
}

/// All counters zero.
pub open spec fn zero_stats() -> Stats {
    Stats { sent_blocks: 0, received_blocks: 0, received_data: 0, duplicate_blocks: 0, duplicate_data: 0 }
}

/// The field-wise sum of two sets of counters.
pub open spec fn stats_add(a: Stats, b: Stats) -> Stats {
    Stats {
        sent_blocks: wrap_add(a.sent_blocks, b.sent_blocks),
        received_blocks: wrap_add(a.received_blocks, b.received_blocks),
        received_data: wrap_add(a.received_data, b.received_data),
        duplicate_blocks: wrap_add(a.duplicate_blocks, b.duplicate_blocks),
        duplicate_data: wrap_add(a.duplicate_data, b.duplicate_data),
    }
}

/// `s` after `n` blocks were sent.
pub open spec fn outgoing_added(s: Stats, n: u64) -> Stats {
    Stats { sent_blocks: wrap_add(s.sent_blocks, n), ..s }
}

/// `s` after a block of `bytes` bytes arrived that was new to the store.
pub open spec fn unique_added(s: Stats, bytes: u64) -> Stats {
    Stats {
        received_blocks: wrap_add(s.received_blocks, 1),
        received_data: wrap_add(s.received_data, bytes),
        ..s
    }
}

/// `s` after a block of `bytes` bytes arrived that the store held already.
pub open spec fn duplicate_added(s: Stats, bytes: u64) -> Stats {
    Stats {
        duplicate_blocks: wrap_add(s.duplicate_blocks, 1),
        duplicate_data: wrap_add(s.duplicate_data, bytes),
        ..s
    }
}

impl Stats {
    /// All counters zero.
    pub fn new() -> (r: Stats)
        ensures
            r == zero_stats(),
    {
        Stats { sent_blocks: 0, received_blocks: 0, received_data: 0, duplicate_blocks: 0, duplicate_data: 0 }
    }

    /// Counts `n` blocks sent.
    pub fn update_outgoing(&mut self, n: u64)
        ensures
            *final(self) == outgoing_added(*old(self), n),
    {
        self.sent_blocks = wrapping_sum(self.sent_blocks, n);
    }

    /// Counts a received block of `bytes` bytes that was new to the store.
    pub fn update_incoming_unique(&mut self, bytes: u64)
        ensures
            *final(self) == unique_added(*old(self), bytes),
    {
        self.received_blocks = wrapping_sum(self.received_blocks, 1);
        self.received_data = wrapping_sum(self.received_data, bytes);
    }

    /// Counts a received block of `bytes` bytes that the store held already.
    pub fn update_incoming_duplicate(&mut self, bytes: u64)
        ensures
            *final(self) == duplicate_added(*old(self), bytes),
    {
        self.duplicate_blocks = wrapping_sum(self.duplicate_blocks, 1);
        self.duplicate_data = wrapping_sum(self.duplicate_data, bytes);
    }

    /// Adds `other` field by field.
    pub fn add_assign(&mut self, other: &Stats)
        ensures
            *final(self) == stats_add(*old(self), *other),
    {
        self.sent_blocks = wrapping_sum(self.sent_blocks, other.sent_blocks);
        self.received_blocks = wrapping_sum(self.received_blocks, other.received_blocks);
        self.received_data = wrapping_sum(self.received_data, other.received_data);
        self.duplicate_blocks = wrapping_sum(self.duplicate_blocks, other.duplicate_blocks);
        self.duplicate_data = wrapping_sum(self.duplicate_data, other.duplicate_data);
    }
}

} // verus!

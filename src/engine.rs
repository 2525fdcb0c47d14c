//! The engine: owns the ledgers of the connected peers, the table of wanted
//! blocks with their waiters, and the per-peer counters. Each event is handled
//! between two suspension points of the caller's loop; what has to happen
//! outside (sending, block-store lookups and stores, deliveries) is returned.
use vstd::prelude::*;
use crate::content_id::{Block, Cid};
use crate::keyed::{
    cids_unique, find_entry, find_peer, keys_unique, lemma_map_of_at, lemma_peer_map_of_at,
    lemma_peer_map_of_key, map_insert, map_of, map_remove, peer_insert, peer_map_of, peer_remove,
    peers_unique, set_of, lemma_peer_update, lemma_map_of_take,
};
use crate::ledger::{fresh_message, Ledger, Message, Priority};
use crate::stats::{duplicate_added, outgoing_added, stats_add, unique_added, zero_stats, Stats};

verus! {

/// A connected peer, as a handle that the transport hands out.
pub type PeerId = u64;

/// Peer lifecycle events, and the blocks that a block-store lookup found.
pub enum ProtocolEvent {
    NewPeer(PeerId),
    DeadPeer(PeerId),
    Blocks(PeerId, Vec<Block>),
}

/// `b` is `a` with `c` added to the queued cancels.
pub open spec fn cancel_added(a: Ledger, b: Ledger, c: Seq<u8>) -> bool {
    &&& b.wf()
    &&& b.sent_entries() == a.sent_entries()
    &&& b.received_entries() == a.received_entries()
    &&& b.queued().cancel_set() == a.queued().cancel_set().insert(c)
    &&& b.queued().want_entries() == a.queued().want_entries()
    &&& b.queued().have_entries() == a.queued().have_entries()
    &&& b.queued().dont_have_entries() == a.queued().dont_have_entries()
    &&& b.queued().full_flag() == a.queued().full_flag()
    &&& b.queued().block_seq() == a.queued().block_seq()
}

/// `b` is `a` with a queued want of `c` at `p`.
pub open spec fn want_added(a: Ledger, b: Ledger, c: Seq<u8>, p: Priority) -> bool {
    &&& b.wf()
    &&& b.sent_entries() == a.sent_entries()
    &&& b.received_entries() == a.received_entries()
    &&& b.queued().want_map() == a.queued().want_map().insert(c, p)
    &&& b.queued().cancel_entries() == a.queued().cancel_entries()
    &&& b.queued().have_entries() == a.queued().have_entries()
    &&& b.queued().dont_have_entries() == a.queued().dont_have_entries()
    &&& b.queued().full_flag() == a.queued().full_flag()
    &&& b.queued().block_seq() == a.queued().block_seq()
}

/// Each identifier of `s`, at priority 1.
pub open spec fn at_priority_one(s: Set<Seq<u8>>) -> Map<Seq<u8>, Priority> {
    Map::new(|k: Seq<u8>| s.contains(k), |k: Seq<u8>| 1i32)
}

/// A block that came in: the waiters it is to be delivered to, and the block,
/// which is to be stored.
pub struct ReceivedBlock {
    pub waiters: Vec<u64>,
    pub block: Block,
}

/// What an incoming message asks of the caller: look up `lookups` in the
/// block store for the sender, and deliver and store each received block.
pub struct Incoming {
    pub lookups: Vec<Cid>,
    pub received: Vec<ReceivedBlock>,
}

/// The identifiers of a sequence of blocks.
pub open spec fn block_cids(s: Seq<Block>) -> Set<Seq<u8>> {
    Set::new(|k: Seq<u8>| exists|i: int| 0 <= i < s.len() && s[i].cid@ == k)
}

/// The waiters that the block at `t` of `s` reaches: those of its identifier
/// in `w`, unless an earlier block of `s` had the same identifier.
pub open spec fn waiters_reached(w: Map<Seq<u8>, Seq<u64>>, s: Seq<Block>, t: int) -> Seq<u64> {
    if w.contains_key(s[t].cid@) && !block_cids(s.take(t)).contains(s[t].cid@) {
        w[s[t].cid@]
    } else {
        Seq::empty()
    }
}

/// `b` is `a` with every identifier of `cs` added to the queued cancels; what
/// the peer wants may differ.
pub open spec fn cancels_added(a: Ledger, b: Ledger, cs: Set<Seq<u8>>) -> bool {
    &&& b.wf()
    &&& b.sent_entries() == a.sent_entries()
    &&& b.queued().cancel_set() == a.queued().cancel_set().union(cs)
    &&& b.queued().want_entries() == a.queued().want_entries()
    &&& b.queued().have_entries() == a.queued().have_entries()
    &&& b.queued().dont_have_entries() == a.queued().dont_have_entries()
    &&& b.queued().full_flag() == a.queued().full_flag()
    &&& b.queued().block_seq() == a.queued().block_seq()
}

/// What a peer wants after a message of it: its cancels are dropped, and its
/// wants that the local user does not share are added.
pub open spec fn received_after(
    r: Map<Seq<u8>, Priority>,
    m: Message,
    local: Set<Seq<u8>>,
) -> Map<Seq<u8>, Priority> {
    r.remove_keys(m.cancel_set()).union_prefer_right(m.want_map().remove_keys(local))
}

/// Every ledger of a map is well formed.
pub proof fn lemma_entries_wf(s: Seq<(PeerId, Ledger)>)
    requires
        peers_unique(s),
        forall|p: PeerId| #[trigger] peer_map_of(s).contains_key(p) ==> peer_map_of(s)[p].wf(),
    ensures
        forall|i: int| 0 <= i < s.len() ==> (#[trigger] s[i]).1.wf(),
{
    assert forall|i: int| 0 <= i < s.len() implies (#[trigger] s[i]).1.wf() by {
        lemma_peer_map_of_at(s, i);
    }
}

/// The field-wise sum of the counters of a sequence of peers.
pub open spec fn stats_sum(s: Seq<(PeerId, Stats)>) -> Stats
    decreases s.len(),
{
    if s.len() == 0 {
        zero_stats()
    } else {
        stats_add(stats_sum(s.drop_last()), s.last().1)
    }
}

/// The engine state.
pub struct Bitswap {
    wanted_blocks: Vec<(Cid, Vec<u64>)>,
    connected_peers: Vec<(PeerId, Ledger)>,
    stats: Vec<(PeerId, Stats)>,
}

impl Bitswap {
    /// The wanted identifiers, each with its waiters in the order they came.
    pub closed spec fn wanted(&self) -> Map<Seq<u8>, Seq<u64>> {
        map_of(self.wanted_blocks@).map_values(|v: Vec<u64>| v@)
    }

    /// The ledgers of the connected peers.
    pub closed spec fn ledgers(&self) -> Map<PeerId, Ledger> {
        peer_map_of(self.connected_peers@)
    }

    /// The counters of every peer seen so far.
    pub closed spec fn peer_stats(&self) -> Map<PeerId, Stats> {
        peer_map_of(self.stats@)
    }

    /// The counters, one entry per peer, in the order the peers came.
    pub closed spec fn stats_entries(&self) -> Seq<(PeerId, Stats)> {
        self.stats@
    }

    pub closed spec fn wf(&self) -> bool {
        &&& keys_unique(self.wanted_blocks@)
        &&& peers_unique(self.connected_peers@)
        &&& peers_unique(self.stats@)
        &&& forall|i: int| 0 <= i < self.connected_peers@.len() ==> (#[trigger] self.connected_peers@[i]).1.wf()
        &&& forall|p: PeerId| #[trigger] self.ledgers().contains_key(p) ==> self.peer_stats().contains_key(p)
        &&& forall|i: int| 0 <= i < self.wanted_blocks@.len() ==> (#[trigger] self.wanted_blocks@[i]).1@.len() > 0
    }

    /// Every wanted identifier has at least one waiter: an entry is made by a
    /// want, which brings its waiter, and goes away whole.
    pub proof fn lemma_wanted_has_waiters(&self)
        requires
            self.wf(),
        ensures
            forall|c: Seq<u8>| #[trigger] self.wanted().contains_key(c) ==> self.wanted()[c].len() > 0,
    {
        assert forall|c: Seq<u8>| #[trigger] self.wanted().contains_key(c) implies self.wanted()[c].len() > 0 by {
            let s = self.wanted_blocks@;
            let i = choose|i: int| 0 <= i < s.len() && s[i].0@ == c;
            lemma_map_of_at(s, i);
            assert(s[i].1@.len() > 0);
        }
    }

    /// Every ledger is well formed and every connected peer has counters.
    pub proof fn lemma_wf(&self)
        requires
            self.wf(),
        ensures
            forall|p: PeerId| #[trigger] self.ledgers().contains_key(p) ==> self.ledgers()[p].wf()
                && self.peer_stats().contains_key(p),
            peer_map_of(self.stats_entries()) == self.peer_stats(),
            peers_unique(self.stats_entries()),
    {
        assert forall|p: PeerId| #[trigger] self.ledgers().contains_key(p) implies self.ledgers()[p].wf() by {
            let i = lemma_peer_map_of_key(self.connected_peers@, p);
            assert(self.connected_peers@[i].1.wf());
        }
    }

    /// An engine with no peers, no wants and no counters.
    pub fn new() -> (r: Bitswap)
        ensures
            r.wf(),
            r.wanted().is_empty(),
            r.ledgers().is_empty(),
            r.peer_stats().is_empty(),
    {
        let r = Bitswap { wanted_blocks: Vec::new(), connected_peers: Vec::new(), stats: Vec::new() };
        proof {
            assert(r.wanted() =~= Map::empty());
            assert(r.ledgers() =~= Map::empty());
            assert(r.peer_stats() =~= Map::empty());
        }
        r
    }

    /// Replaces the counters at index `j`.
    fn set_stats(&mut self, j: usize, st: Stats)
        requires
            old(self).wf(),
            j < old(self).stats_entries().len(),
        ensures
            final(self).wf(),
            final(self).stats_entries() == old(self).stats_entries().update(
                j as int,
                (old(self).stats_entries()[j as int].0, st),
            ),
            final(self).peer_stats() == old(self).peer_stats().insert(
                old(self).stats_entries()[j as int].0,
                st,
            ),
            final(self).wanted() == old(self).wanted(),
            final(self).ledgers() == old(self).ledgers(),
    {
        let ghost s0 = self.stats@;
        let p = self.stats[j].0;
        self.stats.set(j, (p, st));
        proof {
            let s = self.stats@;
            let m = peer_map_of(s0).insert(p, st);
            assert forall|a: int, b: int|
                0 <= a < s.len() && 0 <= b < s.len() && #[trigger] s[a].0 == #[trigger] s[b].0 implies a == b by {
                assert(s0[a].0 == s0[b].0);
            }
            assert forall|i: int| 0 <= i < s.len() implies #[trigger] m.contains_key(s[i].0) && m[s[i].0]
                == s[i].1 by {
                if i != j {
                    lemma_peer_map_of_at(s0, i);
                }
            }
            assert forall|k: u64| #[trigger] m.contains_key(k) implies exists|i: int|
                0 <= i < s.len() && s[i].0 == k by {
                if k == p {
                    assert(s[j as int].0 == k);
                } else {
                    let i = choose|i: int| 0 <= i < s0.len() && s0[i].0 == k;
                    assert(s[i].0 == k);
                }
            }
            crate::keyed::lemma_peer_map_of_ext(s, m);
            assert forall|q: PeerId| #[trigger] self.ledgers().contains_key(q) implies self.peer_stats().contains_key(q) by {
                assert(old(self).ledgers().contains_key(q));
                assert(old(self).peer_stats().contains_key(q));
            }
        }
    }

    /// Queues a cancel of `c` on every connected ledger.
    fn cancel_all(&mut self, c: &Cid)
        requires
            old(self).wf(),
        ensures
            final(self).wf(),
            final(self).wanted() == old(self).wanted(),
            final(self).peer_stats() == old(self).peer_stats(),
            final(self).stats_entries() == old(self).stats_entries(),
            final(self).ledgers().dom() == old(self).ledgers().dom(),
            forall|p: PeerId| #[trigger] old(self).ledgers().contains_key(p) ==> cancel_added(
                old(self).ledgers()[p],
                final(self).ledgers()[p],
                c@,
            ),
    {
        let ghost s0 = self.connected_peers@;
        let mut i: usize = 0;
        while i < self.connected_peers.len()
            invariant
                i <= self.connected_peers@.len(),
                self.connected_peers@.len() == s0.len(),
                peers_unique(s0),
                forall|j: int| 0 <= j < s0.len() ==> (#[trigger] s0[j]).1.wf(),
                forall|j: int| 0 <= j < i ==> #[trigger] self.connected_peers@[j].0 == s0[j].0
                    && cancel_added(s0[j].1, self.connected_peers@[j].1, c@),
                forall|j: int| i <= j < s0.len() ==> #[trigger] self.connected_peers@[j] == s0[j],
                self.wanted_blocks == old(self).wanted_blocks,
                self.stats == old(self).stats,
            decreases s0.len() - i,
        {
            let (p, mut l) = self.connected_peers.remove(i);
            proof {
                assert(l == s0[i as int].1);
            }
            l.cancel_block(c);
            self.connected_peers.insert(i, (p, l));
            proof {
                assert forall|j: int| i < j < s0.len() implies #[trigger] self.connected_peers@[j] == s0[j] by {}
            }
            i = i + 1;
        }
        proof {
            let s = self.connected_peers@;
            assert forall|a: int, b: int|
                0 <= a < s.len() && 0 <= b < s.len() && #[trigger] s[a].0 == #[trigger] s[b].0 implies a == b by {
                assert(s0[a].0 == s0[b].0);
            }
            assert forall|j: int| 0 <= j < s.len() implies (#[trigger] s[j]).1.wf() by {
                assert(s[j].0 == s0[j].0);
                assert(cancel_added(s0[j].1, s[j].1, c@));
            }
            assert forall|p: PeerId| #[trigger] old(self).ledgers().contains_key(p) implies
                self.ledgers().contains_key(p) && cancel_added(old(self).ledgers()[p], self.ledgers()[p], c@) by {
                let j = lemma_peer_map_of_key(s0, p);
                lemma_peer_map_of_at(s, j);
            }
            assert forall|p: PeerId| #[trigger] self.ledgers().contains_key(p) implies
                old(self).ledgers().contains_key(p) by {
                let j = lemma_peer_map_of_key(s, p);
                lemma_peer_map_of_at(s0, j);
            }
            assert(self.ledgers().dom() =~= old(self).ledgers().dom());
        }
    }

    /// Queues a want of `c` at `priority` on every connected ledger.
    fn want_all(&mut self, c: &Cid, priority: Priority)
        requires
            old(self).wf(),
        ensures
            final(self).wf(),
            final(self).wanted() == old(self).wanted(),
            final(self).peer_stats() == old(self).peer_stats(),
            final(self).stats_entries() == old(self).stats_entries(),
            final(self).ledgers().dom() == old(self).ledgers().dom(),
            forall|p: PeerId| #[trigger] old(self).ledgers().contains_key(p) ==> want_added(
                old(self).ledgers()[p],
                final(self).ledgers()[p],
                c@,
                priority,
            ),
    {
        let ghost s0 = self.connected_peers@;
        let mut i: usize = 0;
        while i < self.connected_peers.len()
            invariant
                i <= self.connected_peers@.len(),
                self.connected_peers@.len() == s0.len(),
                peers_unique(s0),
                forall|j: int| 0 <= j < s0.len() ==> (#[trigger] s0[j]).1.wf(),
                forall|j: int| 0 <= j < i ==> #[trigger] self.connected_peers@[j].0 == s0[j].0
                    && want_added(s0[j].1, self.connected_peers@[j].1, c@, priority),
                forall|j: int| i <= j < s0.len() ==> #[trigger] self.connected_peers@[j] == s0[j],
                self.wanted_blocks == old(self).wanted_blocks,
                self.stats == old(self).stats,
            decreases s0.len() - i,
        {
            let (p, mut l) = self.connected_peers.remove(i);
            proof {
                assert(l == s0[i as int].1);
            }
            l.want_block(c, priority);
            self.connected_peers.insert(i, (p, l));
            proof {
                assert forall|j: int| i < j < s0.len() implies #[trigger] self.connected_peers@[j] == s0[j] by {}
            }
            i = i + 1;
        }
        proof {
            let s = self.connected_peers@;
            assert forall|a: int, b: int|
                0 <= a < s.len() && 0 <= b < s.len() && #[trigger] s[a].0 == #[trigger] s[b].0 implies a == b by {
                assert(s0[a].0 == s0[b].0);
            }
            assert forall|j: int| 0 <= j < s.len() implies (#[trigger] s[j]).1.wf() by {
                assert(s[j].0 == s0[j].0);
                assert(want_added(s0[j].1, s[j].1, c@, priority));
            }
            assert forall|p: PeerId| #[trigger] old(self).ledgers().contains_key(p) implies
                self.ledgers().contains_key(p) && want_added(old(self).ledgers()[p], self.ledgers()[p], c@, priority) by {
                let j = lemma_peer_map_of_key(s0, p);
                lemma_peer_map_of_at(s, j);
            }
            assert forall|p: PeerId| #[trigger] self.ledgers().contains_key(p) implies
                old(self).ledgers().contains_key(p) by {
                let j = lemma_peer_map_of_key(s, p);
                lemma_peer_map_of_at(s0, j);
            }
            assert(self.ledgers().dom() =~= old(self).ledgers().dom());
        }
    }
}

impl Bitswap {
    /// Records a user's want of `cid` at `priority`, with `waiter` to be told
    /// when the block comes. Every connected ledger queues the want; nothing is
    /// sent yet.
    pub fn want_block(&mut self, cid: Cid, priority: Priority, waiter: u64)
        requires
            old(self).wf(),
        ensures
            final(self).wf(),
            final(self).wanted() == old(self).wanted().insert(
                cid@,
                (if old(self).wanted().contains_key(cid@) {
                    old(self).wanted()[cid@]
                } else {
                    Seq::empty()
                }).push(waiter),
            ),
            final(self).peer_stats() == old(self).peer_stats(),
            final(self).stats_entries() == old(self).stats_entries(),
            final(self).ledgers().dom() == old(self).ledgers().dom(),
            forall|p: PeerId| #[trigger] old(self).ledgers().contains_key(p) ==> want_added(
                old(self).ledgers()[p],
                final(self).ledgers()[p],
                cid@,
                priority,
            ),
    {
        self.want_all(&cid, priority);
        let ghost s0 = self.wanted_blocks@;
        let ghost w0 = map_of(s0);
        let mut waiters = match map_remove(&mut self.wanted_blocks, &cid) {
            Some(v) => v,
            None => Vec::new(),
        };
        let ghost before = waiters@;
        waiters.push(waiter);
        let ghost k = cid@;
        map_insert(&mut self.wanted_blocks, cid, waiters);
        proof {
            let w1 = map_of(self.wanted_blocks@);
            assert forall|i: int| 0 <= i < self.wanted_blocks@.len() implies (#[trigger] self.wanted_blocks@[i]).1@.len() > 0 by {
                let s = self.wanted_blocks@;
                lemma_map_of_at(s, i);
                if s[i].0@ != k {
                    assert(w0.contains_key(s[i].0@));
                    let j = choose|j: int| 0 <= j < s0.len() && s0[j].0@ == s[i].0@;
                    lemma_map_of_at(s0, j);
                    assert(s0[j].1@.len() > 0);
                }
            }
            assert(w1 == w0.remove(k).insert(k, waiters));
            if w0.contains_key(k) {
                assert(before == w0[k]@);
            } else {
                assert(before =~= Seq::<u64>::empty());
            }
            assert(self.wanted() =~= old(self).wanted().insert(
                k,
                (if old(self).wanted().contains_key(k) {
                    old(self).wanted()[k]
                } else {
                    Seq::empty()
                }).push(waiter),
            ));
        }
    }

    /// Drops the user's want of `cid`: every connected ledger queues a cancel,
    /// and the waiters of `cid` are handed back, to be dropped undelivered.
    pub fn cancel_block(&mut self, cid: &Cid) -> (r: Vec<u64>)
        requires
            old(self).wf(),
        ensures
            final(self).wf(),
            final(self).wanted() == old(self).wanted().remove(cid@),
            r@ == (if old(self).wanted().contains_key(cid@) {
                old(self).wanted()[cid@]
            } else {
                Seq::empty()
            }),
            final(self).peer_stats() == old(self).peer_stats(),
            final(self).stats_entries() == old(self).stats_entries(),
            final(self).ledgers().dom() == old(self).ledgers().dom(),
            forall|p: PeerId| #[trigger] old(self).ledgers().contains_key(p) ==> cancel_added(
                old(self).ledgers()[p],
                final(self).ledgers()[p],
                cid@,
            ),
    {
        self.cancel_all(cid);
        let ghost s0 = self.wanted_blocks@;
        let r = match map_remove(&mut self.wanted_blocks, cid) {
            Some(v) => v,
            None => Vec::new(),
        };
        proof {
            assert forall|i: int| 0 <= i < self.wanted_blocks@.len() implies (#[trigger] self.wanted_blocks@[i]).1@.len() > 0 by {
                let s = self.wanted_blocks@;
                lemma_map_of_at(s, i);
                assert(map_of(s0).contains_key(s[i].0@));
                let j = choose|j: int| 0 <= j < s0.len() && s0[j].0@ == s[i].0@;
                lemma_map_of_at(s0, j);
                assert(s0[j].1@.len() > 0);
            }
            assert(self.wanted() =~= old(self).wanted().remove(cid@));
            if !old(self).wanted().contains_key(cid@) {
                assert(r@ =~= Seq::<u64>::empty());
            }
        }
        r
    }

    /// The identifiers that the local user wants.
    pub fn local_wantlist(&self) -> (r: Vec<Cid>)
        requires
            self.wf(),
        ensures
            cids_unique(r@),
            set_of(r@) == self.wanted().dom(),
    {
        let mut r: Vec<Cid> = Vec::new();
        let mut i: usize = 0;
        while i < self.wanted_blocks.len()
            invariant
                i <= self.wanted_blocks@.len(),
                keys_unique(self.wanted_blocks@),
                r@.len() == i,
                forall|j: int| 0 <= j < i ==> #[trigger] r@[j]@ == self.wanted_blocks@[j].0@,
            decreases self.wanted_blocks@.len() - i,
        {
            r.push(self.wanted_blocks[i].0.duplicate());
            i = i + 1;
        }
        proof {
            let s = self.wanted_blocks@;
            assert forall|a: int, b: int|
                0 <= a < r@.len() && 0 <= b < r@.len() && #[trigger] r@[a]@ == #[trigger] r@[b]@ implies a == b by {
                assert(s[a].0@ == s[b].0@);
            }
            assert forall|k: Seq<u8>| #[trigger] set_of(r@).contains(k) implies self.wanted().dom().contains(k) by {
                let j = choose|j: int| 0 <= j < r@.len() && r@[j]@ == k;
                lemma_map_of_at(s, j);
            }
            assert forall|k: Seq<u8>| self.wanted().dom().contains(k) implies #[trigger] set_of(r@).contains(k) by {
                let j = choose|j: int| 0 <= j < s.len() && s[j].0@ == k;
                assert(r@[j]@ == k);
            }
            assert(set_of(r@) =~= self.wanted().dom());
        }
        r
    }

    /// The connected peers.
    pub fn peers(&self) -> (r: Vec<PeerId>)
        requires
            self.wf(),
        ensures
            r@.no_duplicates(),
            r@.to_set() == self.ledgers().dom(),
    {
        let mut r: Vec<PeerId> = Vec::new();
        let mut i: usize = 0;
        while i < self.connected_peers.len()
            invariant
                i <= self.connected_peers@.len(),
                peers_unique(self.connected_peers@),
                r@.len() == i,
                forall|j: int| 0 <= j < i ==> #[trigger] r@[j] == self.connected_peers@[j].0,
            decreases self.connected_peers@.len() - i,
        {
            r.push(self.connected_peers[i].0);
            i = i + 1;
        }
        proof {
            let s = self.connected_peers@;
            assert forall|a: int, b: int| 0 <= a < r@.len() && 0 <= b < r@.len() && a != b implies r@[a] != r@[b] by {
                assert(s[a].0 != s[b].0);
            }
            assert forall|k: PeerId| #[trigger] r@.to_set().contains(k) implies self.ledgers().dom().contains(k) by {
                let j = choose|j: int| 0 <= j < r@.len() && r@[j] == k;
                lemma_peer_map_of_at(s, j);
            }
            assert forall|k: PeerId| self.ledgers().dom().contains(k) implies #[trigger] r@.to_set().contains(k) by {
                let j = lemma_peer_map_of_key(s, k);
                assert(r@[j] == k);
            }
            assert(r@.to_set() =~= self.ledgers().dom());
        }
        r
    }

    /// The ledger of `peer`, if it is connected.
    pub fn ledger(&self, peer: PeerId) -> (r: Option<&Ledger>)
        requires
            self.wf(),
        ensures
            r is Some <==> self.ledgers().contains_key(peer),
            r matches Some(l) ==> *l == self.ledgers()[peer],
    {
        match find_peer(&self.connected_peers, peer) {
            Some(i) => {
                proof {
                    lemma_peer_map_of_at(self.connected_peers@, i as int);
                }
                Some(&self.connected_peers[i].1)
            },
            None => None,
        }
    }

    /// What peer `peer` wants, if it is connected.
    pub fn peer_wantlist(&self, peer: PeerId) -> (r: Option<Vec<(Cid, Priority)>>)
        requires
            self.wf(),
        ensures
            r is Some <==> self.ledgers().contains_key(peer),
            r matches Some(v) ==> keys_unique(v@) && map_of(v@) == self.ledgers()[peer].received_map(),
    {
        match find_peer(&self.connected_peers, peer) {
            Some(i) => {
                proof {
                    lemma_peer_map_of_at(self.connected_peers@, i as int);
                }
                Some(self.connected_peers[i].1.wantlist())
            },
            None => None,
        }
    }

    /// The answer to a wantlist request: the local wants at priority 1 where
    /// no peer is named; else the named peer's wants, or nothing where it is
    /// not connected.
    pub fn control_wantlist(&self, peer: Option<PeerId>) -> (r: Vec<(Cid, Priority)>)
        requires
            self.wf(),
        ensures
            keys_unique(r@),
            map_of(r@) == match peer {
                None => at_priority_one(self.wanted().dom()),
                Some(p) => if self.ledgers().contains_key(p) {
                    self.ledgers()[p].received_map()
                } else {
                    Map::empty()
                },
            },
    {
        match peer {
            Some(p) => match self.peer_wantlist(p) {
                Some(v) => v,
                None => {
                    let v: Vec<(Cid, Priority)> = Vec::new();
                    proof {
                        assert(map_of(v@) =~= Map::empty());
                    }
                    v
                },
            },
            None => {
                let mut r: Vec<(Cid, Priority)> = Vec::new();
                let mut i: usize = 0;
                while i < self.wanted_blocks.len()
                    invariant
                        i <= self.wanted_blocks@.len(),
                        keys_unique(self.wanted_blocks@),
                        r@.len() == i,
                        forall|j: int| 0 <= j < i ==> #[trigger] r@[j].0@ == self.wanted_blocks@[j].0@
                            && r@[j].1 == 1,
                    decreases self.wanted_blocks@.len() - i,
                {
                    r.push((self.wanted_blocks[i].0.duplicate(), 1));
                    i = i + 1;
                }
                proof {
                    let s = self.wanted_blocks@;
                    let m = at_priority_one(self.wanted().dom());
                    assert forall|a: int, b: int|
                        0 <= a < r@.len() && 0 <= b < r@.len() && #[trigger] r@[a].0@ == #[trigger] r@[b].0@ implies a == b by {
                        assert(s[a].0@ == s[b].0@);
                    }
                    assert forall|j: int| 0 <= j < r@.len() implies #[trigger] m.contains_key(r@[j].0@)
                        && m[r@[j].0@] == r@[j].1 by {
                        lemma_map_of_at(s, j);
                    }
                    assert forall|k: Seq<u8>| #[trigger] m.contains_key(k) implies exists|j: int|
                        0 <= j < r@.len() && r@[j].0@ == k by {
                        let j = choose|j: int| 0 <= j < s.len() && s[j].0@ == k;
                        assert(r@[j].0@ == k);
                    }
                    crate::keyed::lemma_map_of_ext(r@, r@, m);
                }
                r
            },
        }
    }

    /// The sum of the counters of every peer seen so far.
    pub fn stats(&self) -> (r: Stats)
        requires
            self.wf(),
        ensures
            r == stats_sum(self.stats_entries()),
    {
        let mut acc = Stats::new();
        let mut i: usize = 0;
        while i < self.stats.len()
            invariant
                i <= self.stats@.len(),
                acc == stats_sum(self.stats@.take(i as int)),
            decreases self.stats@.len() - i,
        {
            proof {
                assert(self.stats@.take(i + 1).drop_last() =~= self.stats@.take(i as int));
            }
            acc.add_assign(&self.stats[i].1);
            i = i + 1;
        }
        proof {
            assert(self.stats@.take(i as int) =~= self.stats@);
        }
        acc
    }

    /// Counts a block of `bytes` bytes from `peer` that the store took:
    /// `newly` tells whether the store did not hold it yet. Nothing changes
    /// for a peer never seen.
    pub fn record_put(&mut self, peer: PeerId, bytes: u64, newly: bool)
        requires
            old(self).wf(),
        ensures
            final(self).wf(),
            final(self).peer_stats() == (if old(self).peer_stats().contains_key(peer) {
                old(self).peer_stats().insert(
                    peer,
                    if newly {
                        unique_added(old(self).peer_stats()[peer], bytes)
                    } else {
                        duplicate_added(old(self).peer_stats()[peer], bytes)
                    },
                )
            } else {
                old(self).peer_stats()
            }),
            final(self).wanted() == old(self).wanted(),
            final(self).ledgers() == old(self).ledgers(),
    {
        match find_peer(&self.stats, peer) {
            Some(j) => {
                proof {
                    lemma_peer_map_of_at(self.stats@, j as int);
                }
                let mut st = self.stats[j].1;
                if newly {
                    st.update_incoming_unique(bytes);
                } else {
                    st.update_incoming_duplicate(bytes);
                }
                self.set_stats(j, st);
            },
            None => {},
        }
    }
}

impl Bitswap {
    /// A message that wants every locally wanted identifier at priority 1.
    fn wantlist_message(&self) -> (m: Message)
        requires
            self.wf(),
        ensures
            m.wf(),
            m.want_map() == at_priority_one(self.wanted().dom()),
            m.cancel_set().is_empty(),
            m.have_set().is_empty(),
            m.dont_have_set().is_empty(),
            !m.full_flag(),
            m.block_seq().len() == 0,
    {
        let mut m = Message::new();
        let ghost s = self.wanted_blocks@;
        let mut i: usize = 0;
        proof {
            assert(map_of(s.take(0)).dom() =~= Set::empty());
            assert(m.want_map() =~= at_priority_one(map_of(s.take(0)).dom()));
        }
        while i < self.wanted_blocks.len()
            invariant
                s == self.wanted_blocks@,
                i <= s.len(),
                keys_unique(s),
                m.wf(),
                m.want_map() == at_priority_one(map_of(s.take(i as int)).dom()),
                m.cancel_set().is_empty(),
                m.have_set().is_empty(),
                m.dont_have_set().is_empty(),
                !m.full_flag(),
                m.block_seq().len() == 0,
            decreases s.len() - i,
        {
            proof {
                lemma_map_of_take(s, i as int);
                assert(at_priority_one(map_of(s.take(i + 1)).dom()) =~= at_priority_one(
                    map_of(s.take(i as int)).dom(),
                ).insert(s[i as int].0@, 1));
            }
            m.want_block(&self.wanted_blocks[i].0, 1);
            i = i + 1;
        }
        proof {
            assert(s.take(i as int) =~= s);
            assert(self.wanted().dom() =~= map_of(s).dom());
        }
        m
    }

    /// A new peer: it gets a fresh ledger and, if it has none yet, zero
    /// counters. Where the local user wants anything, the message returned
    /// wants all of it at priority 1; it is to be sent to the peer as it is,
    /// without being recorded in the ledger.
    pub fn handle_new_peer(&mut self, p: PeerId) -> (r: Option<Message>)
        requires
            old(self).wf(),
        ensures
            final(self).wf(),
            final(self).wanted() == old(self).wanted(),
            final(self).ledgers().contains_key(p),
            final(self).ledgers().remove(p) == old(self).ledgers().remove(p),
            final(self).ledgers()[p].sent_map().is_empty(),
            final(self).ledgers()[p].received_map().is_empty(),
            fresh_message(final(self).ledgers()[p].queued()),
            final(self).peer_stats() == (if old(self).peer_stats().contains_key(p) {
                old(self).peer_stats()
            } else {
                old(self).peer_stats().insert(p, zero_stats())
            }),
            final(self).stats_entries() == (if old(self).peer_stats().contains_key(p) {
                old(self).stats_entries()
            } else {
                old(self).stats_entries().push((p, zero_stats()))
            }),
            old(self).wanted().is_empty() ==> r is None,
            !old(self).wanted().is_empty() ==> (r matches Some(m) && {
                &&& m.wf()
                &&& m.want_map() == at_priority_one(old(self).wanted().dom())
                &&& m.cancel_set().is_empty()
                &&& m.have_set().is_empty()
                &&& m.dont_have_set().is_empty()
                &&& !m.full_flag()
                &&& m.block_seq().len() == 0
            }),
    {
        proof {
            old(self).lemma_wf();
        }
        let l = Ledger::new();
        let ghost lv = l;
        peer_insert(&mut self.connected_peers, p, l);
        proof {
            assert(self.ledgers() == old(self).ledgers().insert(p, lv));
            assert(self.ledgers().remove(p) =~= old(self).ledgers().remove(p));
            lemma_entries_wf(self.connected_peers@);
        }
        match find_peer(&self.stats, p) {
            Some(_) => {},
            None => {
                let ghost s0 = self.stats@;
                self.stats.push((p, Stats::new()));
                proof {
                    let s = self.stats@;
                    let m = peer_map_of(s0).insert(p, zero_stats());
                    assert forall|a: int, b: int|
                        0 <= a < s.len() && 0 <= b < s.len() && #[trigger] s[a].0 == #[trigger] s[b].0 implies a == b by {
                        if a < s0.len() && b < s0.len() {
                            assert(s0[a].0 == s0[b].0);
                        } else if a < s0.len() {
                            lemma_peer_map_of_at(s0, a);
                        } else if b < s0.len() {
                            lemma_peer_map_of_at(s0, b);
                        }
                    }
                    assert forall|j: int| 0 <= j < s.len() implies #[trigger] m.contains_key(s[j].0) && m[s[j].0]
                        == s[j].1 by {
                        if j < s0.len() {
                            lemma_peer_map_of_at(s0, j);
                        }
                    }
                    assert forall|k: u64| #[trigger] m.contains_key(k) implies exists|j: int|
                        0 <= j < s.len() && s[j].0 == k by {
                        if k == p {
                            assert(s[s0.len() as int].0 == k);
                        } else {
                            let j = choose|j: int| 0 <= j < s0.len() && s0[j].0 == k;
                            assert(s[j].0 == k);
                        }
                    }
                    crate::keyed::lemma_peer_map_of_ext(s, m);
                }
            },
        }
        proof {
            assert forall|q: PeerId| #[trigger] self.ledgers().contains_key(q) implies self.peer_stats().contains_key(q) by {
                if q != p {
                    assert(old(self).ledgers().contains_key(q));
                }
            }
        }
        if self.wanted_blocks.len() == 0 {
            proof {
                assert(old(self).wanted().dom() =~= Set::empty());
            }
            None
        } else {
            proof {
                assert(self.wanted().contains_key(self.wanted_blocks@[0].0@));
            }
            Some(self.wantlist_message())
        }
    }

    /// A peer went away: its ledger is dropped; its counters stay.
    pub fn handle_dead_peer(&mut self, p: PeerId)
        requires
            old(self).wf(),
        ensures
            final(self).wf(),
            final(self).wanted() == old(self).wanted(),
            final(self).ledgers() == old(self).ledgers().remove(p),
            final(self).peer_stats() == old(self).peer_stats(),
            final(self).stats_entries() == old(self).stats_entries(),
    {
        proof {
            old(self).lemma_wf();
        }
        peer_remove(&mut self.connected_peers, p);
        proof {
            lemma_entries_wf(self.connected_peers@);
            assert forall|q: PeerId| #[trigger] self.ledgers().contains_key(q) implies self.peer_stats().contains_key(q) by {
                assert(old(self).ledgers().contains_key(q));
            }
        }
    }

    /// Blocks that the block store found for `peer`: they are queued on its
    /// ledger, and whatever the ledger has queued is taken out to be sent,
    /// with the sent blocks counted.
    pub fn handle_blocks(&mut self, peer: PeerId, blocks: Vec<Block>) -> (r: Option<Message>)
        requires
            old(self).wf(),
            old(self).ledgers().contains_key(peer),
        ensures
            final(self).wf(),
            final(self).wanted() == old(self).wanted(),
            final(self).ledgers().dom() == old(self).ledgers().dom(),
            final(self).ledgers().remove(peer) == old(self).ledgers().remove(peer),
            r is None <==> old(self).ledgers()[peer].queued().empty_spec() && blocks@.len() == 0,
            r is None ==> final(self).ledgers() == old(self).ledgers() && final(self).peer_stats()
                == old(self).peer_stats(),
            r matches Some(m) ==> {
                let l0 = old(self).ledgers()[peer];
                let l1 = final(self).ledgers()[peer];
                &&& m.wf()
                &&& m.want_entries() == l0.queued().want_entries()
                &&& m.cancel_entries() == l0.queued().cancel_entries()
                &&& m.have_entries() == l0.queued().have_entries()
                &&& m.dont_have_entries() == l0.queued().dont_have_entries()
                &&& m.full_flag() == l0.queued().full_flag()
                &&& m.block_seq() == l0.queued().block_seq() + blocks@
                &&& fresh_message(l1.queued())
                &&& l1.received_entries() == l0.received_entries()
                &&& l1.sent_map() == l0.sent_map().remove_keys(l0.queued().cancel_set()).union_prefer_right(
                    l0.queued().want_map(),
                )
                &&& final(self).peer_stats() == old(self).peer_stats().insert(
                    peer,
                    outgoing_added(old(self).peer_stats()[peer], m.block_seq().len() as u64),
                )
            },
    {
        proof {
            old(self).lemma_wf();
        }
        let i = find_peer(&self.connected_peers, peer).unwrap();
        let ghost s0 = self.connected_peers@;
        proof {
            lemma_peer_map_of_at(s0, i as int);
        }
        let (p, mut l) = self.connected_peers.remove(i);
        let ghost l0 = l;
        let mut rest = blocks;
        let ghost all = rest@;
        let ghost mut k: int = 0;
        if rest.len() > 0 {
            while rest.len() > 0
                invariant
                    0 <= k <= all.len(),
                    rest@ == all.skip(k),
                    l.wf(),
                    l.queued().block_seq() == l0.queued().block_seq() + all.take(k),
                    l.queued().want_entries() == l0.queued().want_entries(),
                    l.queued().cancel_entries() == l0.queued().cancel_entries(),
                    l.queued().have_entries() == l0.queued().have_entries(),
                    l.queued().dont_have_entries() == l0.queued().dont_have_entries(),
                    l.queued().full_flag() == l0.queued().full_flag(),
                    l.sent_entries() == l0.sent_entries(),
                    l.received_entries() == l0.received_entries(),
                decreases rest@.len(),
            {
                let b = rest.remove(0);
                proof {
                    assert(all.take(k + 1) =~= all.take(k).push(b));
                    assert(l0.queued().block_seq() + all.take(k + 1) =~= (l0.queued().block_seq() + all.take(k)).push(b));
                }
                l.add_block(b);
                proof {
                    assert(rest@ =~= all.skip(k + 1));
                    k = k + 1;
                }
            }
        }
        proof {
            assert(all.take(k) =~= all);
            if all.len() == 0 {
                assert(l.queued().block_seq() =~= l0.queued().block_seq());
                assert(l.queued().want_map() == l0.queued().want_map());
                assert(l.queued().cancel_set() == l0.queued().cancel_set());
            }
            assert(l.sent_map() == l0.sent_map());
            assert(l.queued().want_map() == l0.queued().want_map());
            assert(l.queued().cancel_set() == l0.queued().cancel_set());
        }
        let r = l.send();
        let ghost l1 = l;
        self.connected_peers.insert(i, (p, l));
        proof {
            assert(self.connected_peers@ =~= s0.update(i as int, (p, l1)));
            lemma_peer_update(s0, i as int, l1);
            assert(self.ledgers() == old(self).ledgers().insert(peer, l1));
            assert(self.ledgers().remove(peer) =~= old(self).ledgers().remove(peer));
            assert(self.ledgers().dom() =~= old(self).ledgers().dom());
            lemma_entries_wf(self.connected_peers@);
            assert forall|q: PeerId| #[trigger] self.ledgers().contains_key(q) implies self.peer_stats().contains_key(q) by {
                assert(old(self).ledgers().contains_key(q));
            }
        }
        match r {
            Some(m) => {
                let j = find_peer(&self.stats, peer).unwrap();
                proof {
                    lemma_peer_map_of_at(self.stats@, j as int);
                }
                let mut st = self.stats[j].1;
                st.update_outgoing(m.num_of_blocks() as u64);
                self.set_stats(j, st);
                Some(m)
            },
            None => {
                proof {
                    if all.len() == 0 && l0.queued().empty_spec() {
                        assert(self.ledgers() =~= old(self).ledgers());
                    }
                }
                None
            },
        }
    }
}

impl Bitswap {
    /// A block came in: the waiters of its identifier are handed back, to be
    /// delivered to, and every connected ledger queues a cancel of it.
    pub fn handle_received_block(&mut self, block: &Block) -> (r: Vec<u64>)
        requires
            old(self).wf(),
        ensures
            final(self).wf(),
            final(self).wanted() == old(self).wanted().remove(block.cid@),
            r@ == (if old(self).wanted().contains_key(block.cid@) {
                old(self).wanted()[block.cid@]
            } else {
                Seq::empty()
            }),
            final(self).peer_stats() == old(self).peer_stats(),
            final(self).stats_entries() == old(self).stats_entries(),
            final(self).ledgers().dom() == old(self).ledgers().dom(),
            forall|p: PeerId| #[trigger] old(self).ledgers().contains_key(p) ==> cancel_added(
                old(self).ledgers()[p],
                final(self).ledgers()[p],
                block.cid@,
            ),
    {
        self.cancel_block(&block.cid)
    }

    /// Applies the cancels and wants of `message` to the ledger of `source`,
    /// returning the identifiers to look up.
    fn apply_peer_wants(&mut self, source: PeerId, message: &Message) -> (lookups: Vec<Cid>)
        requires
            old(self).wf(),
            old(self).ledgers().contains_key(source),
            message.wf(),
        ensures
            final(self).wf(),
            final(self).wanted() == old(self).wanted(),
            final(self).peer_stats() == old(self).peer_stats(),
            final(self).stats_entries() == old(self).stats_entries(),
            final(self).ledgers().contains_key(source),
            final(self).ledgers().remove(source) == old(self).ledgers().remove(source),
            cids_unique(lookups@),
            set_of(lookups@) == message.want_map().dom().difference(old(self).wanted().dom()),
            ({
                let l0 = old(self).ledgers()[source];
                let l1 = final(self).ledgers()[source];
                &&& l1.wf()
                &&& l1.sent_entries() == l0.sent_entries()
                &&& l1.queued() == l0.queued()
                &&& l1.received_map() == received_after(l0.received_map(), *message, old(self).wanted().dom())
            }),
    {
        proof {
            old(self).lemma_wf();
        }
        let ghost w0 = self.wanted().dom();
        let i = find_peer(&self.connected_peers, source).unwrap();
        let ghost s0 = self.connected_peers@;
        proof {
            lemma_peer_map_of_at(s0, i as int);
        }
        let (p, mut l) = self.connected_peers.remove(i);
        let ghost l0 = l;
        let cancels = message.cancel();
        let mut j: usize = 0;
        while j < cancels.len()
            invariant
                cancels@ == message.cancel_entries(),
                j <= cancels@.len(),
                l.wf(),
                l.sent_entries() == l0.sent_entries(),
                l.queued() == l0.queued(),
                l.received_map() == l0.received_map().remove_keys(set_of(cancels@.take(j as int))),
            decreases cancels@.len() - j,
        {
            proof {
                crate::keyed::lemma_set_of_take(cancels@, j as int);
                assert(l0.received_map().remove_keys(set_of(cancels@.take(j + 1))) =~= l0.received_map().remove_keys(
                    set_of(cancels@.take(j as int)),
                ).remove(cancels@[j as int]@));
            }
            l.record_cancel(&cancels[j]);
            j = j + 1;
        }
        proof {
            assert(cancels@.take(j as int) =~= cancels@);
        }
        let ghost r1 = l.received_map();
        let wants = message.want();
        let mut lookups: Vec<Cid> = Vec::new();
        let mut j: usize = 0;
        proof {
            assert(map_of(wants@.take(0)) =~= Map::empty());
            assert(r1.union_prefer_right(map_of(wants@.take(0)).remove_keys(w0)) =~= r1);
            assert(set_of(lookups@) =~= map_of(wants@.take(0)).dom().difference(w0));
        }
        while j < wants.len()
            invariant
                wants@ == message.want_entries(),
                keys_unique(wants@),
                j <= wants@.len(),
                w0 == map_of(self.wanted_blocks@).dom(),
                l.wf(),
                l.sent_entries() == l0.sent_entries(),
                l.queued() == l0.queued(),
                l.received_map() == r1.union_prefer_right(map_of(wants@.take(j as int)).remove_keys(w0)),
                cids_unique(lookups@),
                set_of(lookups@) == map_of(wants@.take(j as int)).dom().difference(w0),
            decreases wants@.len() - j,
        {
            proof {
                lemma_map_of_take(wants@, j as int);
            }
            let ghost c = wants@[j as int].0@;
            let ghost pr = wants@[j as int].1;
            let ghost before = lookups@;
            let ghost m0 = map_of(wants@.take(j as int));
            proof {
                if m0.contains_key(c) {
                    let t = choose|t: int| 0 <= t < wants@.take(j as int).len() && wants@.take(j as int)[t].0@ == c;
                    assert(wants@[t].0@ == wants@[j as int].0@);
                }
            }
            match find_entry(&self.wanted_blocks, &wants[j].0) {
                Some(_) => {
                    proof {
                        assert(w0.contains(c));
                        assert(m0.insert(c, pr).remove_keys(w0) =~= m0.remove_keys(w0));
                        assert(m0.insert(c, pr).dom().difference(w0) =~= m0.dom().difference(w0));
                    }
                },
                None => {
                    l.record_want(&wants[j].0, wants[j].1);
                    lookups.push(wants[j].0.duplicate());
                    proof {
                        assert(!w0.contains(c));
                        assert(r1.union_prefer_right(m0.insert(c, pr).remove_keys(w0)) =~= r1.union_prefer_right(
                            m0.remove_keys(w0),
                        ).insert(c, pr));
                        assert forall|k: Seq<u8>| #[trigger] set_of(lookups@).contains(k) <==> m0.insert(c, pr).dom().difference(w0).contains(k) by {
                            if set_of(lookups@).contains(k) {
                                let t = choose|t: int| 0 <= t < lookups@.len() && lookups@[t]@ == k;
                                if t < before.len() {
                                    assert(set_of(before).contains(k));
                                }
                            }
                            if m0.insert(c, pr).dom().difference(w0).contains(k) {
                                if k == c {
                                    assert(lookups@[before.len() as int]@ == k);
                                } else {
                                    assert(set_of(before).contains(k));
                                    let t = choose|t: int| 0 <= t < before.len() && before[t]@ == k;
                                    assert(lookups@[t]@ == k);
                                }
                            }
                        }
                        assert(set_of(lookups@) =~= m0.insert(c, pr).dom().difference(w0));
                        assert forall|a: int, b: int|
                            0 <= a < lookups@.len() && 0 <= b < lookups@.len() && #[trigger] lookups@[a]@
                                == #[trigger] lookups@[b]@ implies a == b by {
                            if a < before.len() && b == before.len() {
                                assert(set_of(before).contains(c));
                            } else if b < before.len() && a == before.len() {
                                assert(set_of(before).contains(c));
                            } else if a < before.len() && b < before.len() {
                                assert(before[a]@ == before[b]@);
                            }
                        }
                    }
                },
            }
            j = j + 1;
        }
        proof {
            assert(wants@.take(j as int) =~= wants@);
            assert(l.received_map() =~= received_after(l0.received_map(), *message, w0));
        }
        let ghost l1 = l;
        self.connected_peers.insert(i, (p, l));
        proof {
            assert(self.connected_peers@ =~= s0.update(i as int, (p, l1)));
            lemma_peer_update(s0, i as int, l1);
            assert(self.ledgers().remove(source) =~= old(self).ledgers().remove(source));
            lemma_entries_wf(self.connected_peers@);
            assert forall|q: PeerId| #[trigger] self.ledgers().contains_key(q) implies self.peer_stats().contains_key(q) by {
                assert(old(self).ledgers().contains_key(q));
            }
        }
        lookups
    }
}

impl Bitswap {
    /// A message from `source`. Its cancels and its wants that the local user
    /// does not share update what `source` wants; those wants are returned for
    /// lookup. Each block it carries reaches the waiters of its identifier,
    /// which stops being wanted, and is cancelled on every connected ledger.
    pub fn handle_incoming_message(&mut self, source: PeerId, message: Message) -> (r: Incoming)
        requires
            old(self).wf(),
            old(self).ledgers().contains_key(source),
            message.wf(),
        ensures
            final(self).wf(),
            final(self).wanted() == old(self).wanted().remove_keys(block_cids(message.block_seq())),
            final(self).peer_stats() == old(self).peer_stats(),
            final(self).stats_entries() == old(self).stats_entries(),
            final(self).ledgers().dom() == old(self).ledgers().dom(),
            forall|p: PeerId| #[trigger] old(self).ledgers().contains_key(p) ==> cancels_added(
                old(self).ledgers()[p],
                final(self).ledgers()[p],
                block_cids(message.block_seq()),
            ),
            forall|p: PeerId| #[trigger] old(self).ledgers().contains_key(p) && p != source
                ==> final(self).ledgers()[p].received_entries() == old(self).ledgers()[p].received_entries(),
            final(self).ledgers()[source].received_map() == received_after(
                old(self).ledgers()[source].received_map(),
                message,
                old(self).wanted().dom(),
            ),
            cids_unique(r.lookups@),
            set_of(r.lookups@) == message.want_map().dom().difference(old(self).wanted().dom()),
            r.received@.len() == message.block_seq().len(),
            forall|t: int| 0 <= t < r.received@.len() ==> (#[trigger] r.received@[t]).block
                == message.block_seq()[t] && r.received@[t].waiters@ == waiters_reached(
                old(self).wanted(),
                message.block_seq(),
                t,
            ),
    {
        let ghost w0 = self.wanted();
        let lookups = self.apply_peer_wants(source, &message);
        let ghost mid = self.ledgers();
        proof {
            assert forall|p: PeerId| #[trigger] old(self).ledgers().contains_key(p) implies mid.contains_key(p) by {
                if p != source {
                    assert(old(self).ledgers().remove(source).contains_key(p));
                }
            }
            assert forall|p: PeerId| #[trigger] mid.contains_key(p) implies old(self).ledgers().contains_key(p) by {
                if p != source {
                    assert(mid.remove(source).contains_key(p));
                }
            }
            assert(mid.dom() =~= old(self).ledgers().dom());
        }
        let mut message = message;
        let mut rest = message.take_blocks();
        let ghost all = rest@;
        let mut received: Vec<ReceivedBlock> = Vec::new();
        let ghost mut k: int = 0;
        proof {
            assert(block_cids(all.take(0)) =~= Set::empty());
            assert(w0.remove_keys(block_cids(all.take(0))) =~= w0);
            assert forall|p: PeerId| #[trigger] mid.contains_key(p) implies cancels_added(mid[p], self.ledgers()[p], block_cids(all.take(0))) by {
                self.lemma_wf();
                assert(mid[p].queued().cancel_set().union(Set::empty()) =~= mid[p].queued().cancel_set());
            }
        }
        while rest.len() > 0
            invariant
                0 <= k <= all.len(),
                rest@ == all.skip(k),
                self.wf(),
                self.wanted() == w0.remove_keys(block_cids(all.take(k))),
                self.peer_stats() == old(self).peer_stats(),
                self.stats_entries() == old(self).stats_entries(),
                self.ledgers().dom() == mid.dom(),
                forall|p: PeerId| #[trigger] mid.contains_key(p) ==> cancels_added(mid[p], self.ledgers()[p], block_cids(all.take(k)))
                    && self.ledgers()[p].received_entries() == mid[p].received_entries(),
                received@.len() == k,
                forall|t: int| 0 <= t < k ==> (#[trigger] received@[t]).block == all[t]
                    && received@[t].waiters@ == waiters_reached(w0, all, t),
            decreases rest@.len(),
        {
            let b = rest.remove(0);
            let ghost cur = self.ledgers();
            let ghost bk = block_cids(all.take(k));
            proof {
                assert(b == all[k]);
                assert(block_cids(all.take(k + 1)) =~= bk.insert(b.cid@)) by {
                    assert forall|x: Seq<u8>| #[trigger] block_cids(all.take(k + 1)).contains(x) implies bk.insert(b.cid@).contains(x) by {
                        let s1 = all.take(k + 1);
                        let t = choose|t: int| 0 <= t < s1.len() && s1[t].cid@ == x;
                        if t < k {
                            assert(all.take(k)[t].cid@ == x);
                        }
                    }
                    assert forall|x: Seq<u8>| #[trigger] bk.insert(b.cid@).contains(x) implies block_cids(all.take(k + 1)).contains(x) by {
                        if x == b.cid@ {
                            assert(all.take(k + 1)[k].cid@ == x);
                        } else {
                            let s0 = all.take(k);
                            let t = choose|t: int| 0 <= t < s0.len() && s0[t].cid@ == x;
                            assert(all.take(k + 1)[t].cid@ == x);
                        }
                    }
                }
            }
            let waiters = self.handle_received_block(&b);
            proof {
                assert(waiters@ == waiters_reached(w0, all, k)) by {
                    assert(all.take(k) =~= all.take(k));
                }
                assert(self.wanted() =~= w0.remove_keys(bk.insert(b.cid@)));
                assert forall|p: PeerId| #[trigger] mid.contains_key(p) implies cancels_added(mid[p], self.ledgers()[p], bk.insert(b.cid@))
                    && self.ledgers()[p].received_entries() == mid[p].received_entries() by {
                    assert(cur.contains_key(p));
                    assert(cancel_added(cur[p], self.ledgers()[p], b.cid@));
                    assert(mid[p].queued().cancel_set().union(bk.insert(b.cid@)) =~= mid[p].queued().cancel_set().union(bk).insert(b.cid@));
                }
            }
            received.push(ReceivedBlock { waiters, block: b });
            proof {
                assert(rest@ =~= all.skip(k + 1));
                k = k + 1;
            }
        }
        proof {
            assert(all.take(k) =~= all);
            assert forall|p: PeerId| #[trigger] old(self).ledgers().contains_key(p) && p != source
                implies self.ledgers()[p].received_entries() == old(self).ledgers()[p].received_entries() by {
                assert(mid.contains_key(p));
                assert(mid.remove(source)[p] == old(self).ledgers().remove(source)[p]);
            }
            assert forall|p: PeerId| #[trigger] old(self).ledgers().contains_key(p) implies cancels_added(
                old(self).ledgers()[p], self.ledgers()[p], block_cids(all)) by {
                assert(mid.contains_key(p));
                if p != source {
                    assert(mid.remove(source)[p] == old(self).ledgers().remove(source)[p]);
                }
            }
        }
        Incoming { lookups, received }
    }
}

impl Bitswap {
    /// A peer lifecycle event; returns the message to send and its peer, if any.
    pub fn handle_event(&mut self, evt: ProtocolEvent) -> (r: Option<(PeerId, Message)>)
        requires
            old(self).wf(),
            evt matches ProtocolEvent::Blocks(p, _) ==> old(self).ledgers().contains_key(p),
        ensures
            final(self).wf(),
            final(self).wanted() == old(self).wanted(),
            match evt {
                ProtocolEvent::NewPeer(p) => {
                    &&& final(self).ledgers().contains_key(p)
                    &&& final(self).ledgers().remove(p) == old(self).ledgers().remove(p)
                    &&& final(self).ledgers()[p].sent_map().is_empty()
                    &&& final(self).ledgers()[p].received_map().is_empty()
                    &&& fresh_message(final(self).ledgers()[p].queued())
                    &&& final(self).peer_stats() == (if old(self).peer_stats().contains_key(p) {
                        old(self).peer_stats()
                    } else {
                        old(self).peer_stats().insert(p, zero_stats())
                    })
                    &&& (r is Some <==> !old(self).wanted().is_empty())
                    &&& (r matches Some(x) ==> {
                        &&& x.0 == p
                        &&& x.1.wf()
                        &&& x.1.want_map() == at_priority_one(old(self).wanted().dom())
                        &&& x.1.cancel_set().is_empty()
                        &&& x.1.have_set().is_empty()
                        &&& x.1.dont_have_set().is_empty()
                        &&& !x.1.full_flag()
                        &&& x.1.block_seq().len() == 0
                    })
                },
                ProtocolEvent::DeadPeer(p) => {
                    &&& final(self).ledgers() == old(self).ledgers().remove(p)
                    &&& final(self).peer_stats() == old(self).peer_stats()
                    &&& r is None
                },
                ProtocolEvent::Blocks(p, bs) => {
                    &&& final(self).ledgers().dom() == old(self).ledgers().dom()
                    &&& final(self).ledgers().remove(p) == old(self).ledgers().remove(p)
                    &&& (r is None <==> old(self).ledgers()[p].queued().empty_spec() && bs@.len() == 0)
                    &&& (r is None ==> final(self).ledgers() == old(self).ledgers()
                        && final(self).peer_stats() == old(self).peer_stats())
                    &&& (r matches Some(x) ==> {
                        let l0 = old(self).ledgers()[p];
                        let l1 = final(self).ledgers()[p];
                        &&& x.0 == p
                        &&& x.1.wf()
                        &&& x.1.want_entries() == l0.queued().want_entries()
                        &&& x.1.cancel_entries() == l0.queued().cancel_entries()
                        &&& x.1.have_entries() == l0.queued().have_entries()
                        &&& x.1.dont_have_entries() == l0.queued().dont_have_entries()
                        &&& x.1.full_flag() == l0.queued().full_flag()
                        &&& x.1.block_seq() == l0.queued().block_seq() + bs@
                        &&& fresh_message(l1.queued())
                        &&& l1.received_entries() == l0.received_entries()
                        &&& l1.sent_map() == l0.sent_map().remove_keys(l0.queued().cancel_set()).union_prefer_right(
                            l0.queued().want_map(),
                        )
                        &&& final(self).peer_stats() == old(self).peer_stats().insert(
                            p,
                            outgoing_added(old(self).peer_stats()[p], x.1.block_seq().len() as u64),
                        )
                    })
                },
            },
    {
        match evt {
            ProtocolEvent::NewPeer(p) => match self.handle_new_peer(p) {
                Some(m) => Some((p, m)),
                None => None,
            },
            ProtocolEvent::DeadPeer(p) => {
                self.handle_dead_peer(p);
                None
            },
            ProtocolEvent::Blocks(p, bs) => match self.handle_blocks(p, bs) {
                Some(m) => Some((p, m)),
                None => None,
            },
        }
    }
}

} // verus!

//! Messages of the protocol and the per-peer ledger that queues them.
use vstd::prelude::*;
use crate::content_id::{Block, Cid};
use crate::keyed::{
    cids_unique, keys_unique, map_insert, map_of, map_remove, set_insert, set_of,
    lemma_map_of_take, lemma_set_of_take, copy_entries,
};

verus! {

/// How urgent a want is; higher is more urgent.
pub type Priority = i32;

/// The total number of data bytes of a sequence of blocks.
pub open spec fn bytes_total(s: Seq<Block>) -> int
    decreases s.len(),
{
    if s.len() == 0 {
        0
    } else {
        bytes_total(s.drop_last()) + s.last().data@.len()
    }
}

/// A message of the protocol: wants, cancels, presences and blocks.
#[derive(Debug)]
pub struct Message {
    want: Vec<(Cid, Priority)>,
    cancel: Vec<Cid>,
    haves: Vec<Cid>,
    dont_haves: Vec<Cid>,
    full: bool,
    blocks: Vec<Block>,
}

impl Message {
    /// The collections hold no key twice.
    pub open spec fn wf(&self) -> bool {
        &&& keys_unique(self.want_entries())
        &&& cids_unique(self.cancel_entries())
        &&& cids_unique(self.have_entries())
        &&& cids_unique(self.dont_have_entries())
    }

    pub closed spec fn want_entries(&self) -> Seq<(Cid, Priority)> {
        self.want@
    }

    pub closed spec fn cancel_entries(&self) -> Seq<Cid> {
        self.cancel@
    }

    pub closed spec fn have_entries(&self) -> Seq<Cid> {
        self.haves@
    }

    pub closed spec fn dont_have_entries(&self) -> Seq<Cid> {
        self.dont_haves@
    }

    /// The wanted identifiers with their priorities.
    pub open spec fn want_map(&self) -> Map<Seq<u8>, Priority> {
        map_of(self.want_entries())
    }

    /// The cancelled identifiers.
    pub open spec fn cancel_set(&self) -> Set<Seq<u8>> {
        set_of(self.cancel_entries())
    }

    /// The identifiers that the sender has.
    pub open spec fn have_set(&self) -> Set<Seq<u8>> {
        set_of(self.have_entries())
    }

    /// The identifiers that the sender does not have.
    pub open spec fn dont_have_set(&self) -> Set<Seq<u8>> {
        set_of(self.dont_have_entries())
    }

    /// Whether the wantlist is a full snapshot.
    pub closed spec fn full_flag(&self) -> bool {
        self.full
    }

    /// The blocks, in order.
    pub closed spec fn block_seq(&self) -> Seq<Block> {
        self.blocks@
    }

    /// Nothing wanted, cancelled or carried.
    pub open spec fn empty_spec(&self) -> bool {
        self.want_map().is_empty() && self.cancel_set().is_empty() && self.block_seq().len() == 0
    }

    /// An empty message.
    pub fn new() -> (r: Message)
        ensures
            r.wf(),
            r.want_map().is_empty(),
            r.cancel_set().is_empty(),
            r.have_set().is_empty(),
            r.dont_have_set().is_empty(),
            !r.full_flag(),
            r.block_seq().len() == 0,
    {
        let r = Message {
            want: Vec::new(),
            cancel: Vec::new(),
            haves: Vec::new(),
            dont_haves: Vec::new(),
            full: false,
            blocks: Vec::new(),
        };
        proof {
            assert(r.want_map() =~= Map::empty());
            assert(r.cancel_set() =~= Set::empty());
            assert(r.have_set() =~= Set::empty());
            assert(r.dont_have_set() =~= Set::empty());
        }
        r
    }

    /// Checks whether the message is empty: no wants, no cancels, no blocks.
    pub fn is_empty(&self) -> (r: bool)
        ensures
            r == self.empty_spec(),
    {
        proof {
            if self.want@.len() > 0 {
                assert(self.want_map().contains_key(self.want@[0].0@));
            } else {
                assert(self.want_map() =~= Map::empty());
            }
            if self.cancel@.len() > 0 {
                assert(self.cancel_set().contains(self.cancel@[0]@));
            } else {
                assert(self.cancel_set() =~= Set::empty());
            }
        }
        self.want.len() == 0 && self.cancel.len() == 0 && self.blocks.len() == 0
    }

    /// The blocks of the message.
    pub fn blocks(&self) -> (r: &[Block])
        ensures
            r@ == self.block_seq(),
    {
        self.blocks.as_slice()
    }

    /// The number of blocks.
    pub fn num_of_blocks(&self) -> (r: usize)
        ensures
            r == self.block_seq().len(),
    {
        self.blocks.len()
    }

    /// The total number of data bytes in the blocks.
    pub fn bytes_of_blocks(&self) -> (r: usize)
        requires
            bytes_total(self.block_seq()) <= usize::MAX,
        ensures
            r == bytes_total(self.block_seq()),
    {
        let mut acc: usize = 0;
        let mut i: usize = 0;
        while i < self.blocks.len()
            invariant
                i <= self.blocks@.len(),
                acc == bytes_total(self.blocks@.take(i as int)),
                bytes_total(self.blocks@) <= usize::MAX,
            decreases self.blocks@.len() - i,
        {
            proof {
                assert(self.blocks@.take(i + 1).drop_last() =~= self.blocks@.take(i as int));
                lemma_bytes_total_prefix(self.blocks@, i + 1);
            }
            acc = acc + self.blocks[i].data.len();
            i = i + 1;
        }
        proof {
            assert(self.blocks@.take(i as int) =~= self.blocks@);
        }
        acc
    }

    /// Moves the blocks out, leaving none.
    pub fn take_blocks(&mut self) -> (r: Vec<Block>)
        ensures
            r@ == old(self).block_seq(),
            final(self).block_seq().len() == 0,
            final(self).want_entries() == old(self).want_entries(),
            final(self).cancel_entries() == old(self).cancel_entries(),
            final(self).have_entries() == old(self).have_entries(),
            final(self).dont_have_entries() == old(self).dont_have_entries(),
            final(self).full_flag() == old(self).full_flag(),
    {
        let mut r: Vec<Block> = Vec::new();
        std::mem::swap(&mut self.blocks, &mut r);
        r
    }

    /// The wanted identifiers with their priorities.
    pub fn want(&self) -> (r: &Vec<(Cid, Priority)>)
        ensures
            r@ == self.want_entries(),
    {
        &self.want
    }

    /// The cancelled identifiers.
    pub fn cancel(&self) -> (r: &Vec<Cid>)
        ensures
            r@ == self.cancel_entries(),
    {
        &self.cancel
    }

    /// The identifiers that the sender has.
    pub fn have(&self) -> (r: &Vec<Cid>)
        ensures
            r@ == self.have_entries(),
    {
        &self.haves
    }

    /// The identifiers that the sender does not have.
    pub fn dont_have(&self) -> (r: &Vec<Cid>)
        ensures
            r@ == self.dont_have_entries(),
    {
        &self.dont_haves
    }

    /// Whether the wantlist is a full snapshot.
    pub fn full(&self) -> (r: bool)
        ensures
            r == self.full_flag(),
    {
        self.full
    }

    /// Adds `cid` to the set of identifiers that the sender has.
    pub fn have_block(&mut self, cid: &Cid)
        requires
            old(self).wf(),
        ensures
            final(self).wf(),
            final(self).have_set() == old(self).have_set().insert(cid@),
            final(self).want_entries() == old(self).want_entries(),
            final(self).cancel_entries() == old(self).cancel_entries(),
            final(self).dont_have_entries() == old(self).dont_have_entries(),
            final(self).full_flag() == old(self).full_flag(),
            final(self).block_seq() == old(self).block_seq(),
    {
        set_insert(&mut self.haves, cid.duplicate());
    }

    /// Adds `cid` to the set of identifiers that the sender does not have.
    pub fn dont_have_block(&mut self, cid: &Cid)
        requires
            old(self).wf(),
        ensures
            final(self).wf(),
            final(self).dont_have_set() == old(self).dont_have_set().insert(cid@),
            final(self).want_entries() == old(self).want_entries(),
            final(self).cancel_entries() == old(self).cancel_entries(),
            final(self).have_entries() == old(self).have_entries(),
            final(self).full_flag() == old(self).full_flag(),
            final(self).block_seq() == old(self).block_seq(),
    {
        set_insert(&mut self.dont_haves, cid.duplicate());
    }

    /// Appends a block.
    pub fn add_block(&mut self, block: Block)
        ensures
            final(self).block_seq() == old(self).block_seq().push(block),
            final(self).want_entries() == old(self).want_entries(),
            final(self).cancel_entries() == old(self).cancel_entries(),
            final(self).have_entries() == old(self).have_entries(),
            final(self).dont_have_entries() == old(self).dont_have_entries(),
            final(self).full_flag() == old(self).full_flag(),
    {
        self.blocks.push(block);
    }

    /// Removes every block with identifier `cid`, keeping the order of the others.
    pub fn remove_block(&mut self, cid: &Cid)
        ensures
            final(self).block_seq() == old(self).block_seq().filter(other_than(cid@)),
            final(self).want_entries() == old(self).want_entries(),
            final(self).cancel_entries() == old(self).cancel_entries(),
            final(self).have_entries() == old(self).have_entries(),
            final(self).dont_have_entries() == old(self).dont_have_entries(),
            final(self).full_flag() == old(self).full_flag(),
    {
        let ghost orig = self.blocks@;
        let ghost keep = other_than(cid@);
        let mut rest: Vec<Block> = Vec::new();
        std::mem::swap(&mut self.blocks, &mut rest);
        let mut kept: Vec<Block> = Vec::new();
        let ghost mut i: int = 0;
        while rest.len() > 0
            invariant
                0 <= i <= orig.len(),
                keep == other_than(cid@),
                rest@ == orig.skip(i),
                kept@ == orig.take(i).filter(keep),
            decreases rest@.len(),
        {
            let b = rest.remove(0);
            proof {
                assert(orig.take(i + 1).drop_last() =~= orig.take(i));
                assert(orig.take(i + 1).last() == b);
                reveal_with_fuel(Seq::filter, 1);
                assert(orig.take(i + 1).filter(keep) == if keep(b) {
                    orig.take(i).filter(keep).push(b)
                } else {
                    orig.take(i).filter(keep)
                });
            }
            let ghost bb = b;
            if !b.cid.same(cid) {
                proof {
                    assert(keep(bb));
                }
                kept.push(b);
            } else {
                proof {
                    assert(!keep(bb));
                }
            }
            proof {
                assert(rest@ =~= orig.skip(i + 1));
                i = i + 1;
            }
        }
        proof {
            assert(orig.take(i) =~= orig);
        }
        self.blocks = kept;
    }

    /// Wants `cid` at `priority`, replacing an earlier priority.
    pub fn want_block(&mut self, cid: &Cid, priority: Priority)
        requires
            old(self).wf(),
        ensures
            final(self).wf(),
            final(self).want_map() == old(self).want_map().insert(cid@, priority),
            final(self).cancel_entries() == old(self).cancel_entries(),
            final(self).have_entries() == old(self).have_entries(),
            final(self).dont_have_entries() == old(self).dont_have_entries(),
            final(self).full_flag() == old(self).full_flag(),
            final(self).block_seq() == old(self).block_seq(),
    {
        map_insert(&mut self.want, cid.duplicate(), priority);
    }

    /// Cancels `cid`.
    pub fn cancel_block(&mut self, cid: &Cid)
        requires
            old(self).wf(),
        ensures
            final(self).wf(),
            final(self).cancel_set() == old(self).cancel_set().insert(cid@),
            final(self).want_entries() == old(self).want_entries(),
            final(self).have_entries() == old(self).have_entries(),
            final(self).dont_have_entries() == old(self).dont_have_entries(),
            final(self).full_flag() == old(self).full_flag(),
            final(self).block_seq() == old(self).block_seq(),
    {
        set_insert(&mut self.cancel, cid.duplicate());
    }

    /// No longer wants `cid`.
    pub fn remove_want_block(&mut self, cid: &Cid)
        requires
            old(self).wf(),
        ensures
            final(self).wf(),
            final(self).want_map() == old(self).want_map().remove(cid@),
            final(self).cancel_entries() == old(self).cancel_entries(),
            final(self).have_entries() == old(self).have_entries(),
            final(self).dont_have_entries() == old(self).dont_have_entries(),
            final(self).full_flag() == old(self).full_flag(),
            final(self).block_seq() == old(self).block_seq(),
    {
        let _ = map_remove(&mut self.want, cid);
    }
}

/// The record of what was exchanged with one peer.
#[derive(Debug)]
pub struct Ledger {
    sent_want_list: Vec<(Cid, Priority)>,
    received_want_list: Vec<(Cid, Priority)>,
    message: Message,
}

/// The queued message is empty and holds no presences.
pub open spec fn fresh_message(m: Message) -> bool {
    &&& m.wf()
    &&& m.empty_spec()
    &&& m.have_set().is_empty()
    &&& m.dont_have_set().is_empty()
    &&& !m.full_flag()
}

impl Ledger {
    pub open spec fn wf(&self) -> bool {
        &&& keys_unique(self.sent_entries())
        &&& keys_unique(self.received_entries())
        &&& self.queued().wf()
    }

    pub closed spec fn sent_entries(&self) -> Seq<(Cid, Priority)> {
        self.sent_want_list@
    }

    pub closed spec fn received_entries(&self) -> Seq<(Cid, Priority)> {
        self.received_want_list@
    }

    /// The message queued for the peer.
    pub closed spec fn queued(&self) -> Message {
        self.message
    }

    /// The wants that were sent to the peer and not cancelled.
    pub open spec fn sent_map(&self) -> Map<Seq<u8>, Priority> {
        map_of(self.sent_entries())
    }

    /// The wants that the peer expressed and did not cancel.
    pub open spec fn received_map(&self) -> Map<Seq<u8>, Priority> {
        map_of(self.received_entries())
    }

    /// A ledger with no history and nothing queued.
    pub fn new() -> (r: Ledger)
        ensures
            r.wf(),
            r.sent_map().is_empty(),
            r.received_map().is_empty(),
            fresh_message(r.queued()),
    {
        let r = Ledger { sent_want_list: Vec::new(), received_want_list: Vec::new(), message: Message::new() };
        proof {
            assert(r.sent_map() =~= Map::empty());
            assert(r.received_map() =~= Map::empty());
        }
        r
    }

    /// Queues a block for the peer.
    pub fn add_block(&mut self, block: Block)
        requires
            old(self).wf(),
        ensures
            final(self).wf(),
            final(self).queued().block_seq() == old(self).queued().block_seq().push(block),
            final(self).queued().want_entries() == old(self).queued().want_entries(),
            final(self).queued().cancel_entries() == old(self).queued().cancel_entries(),
            final(self).queued().have_entries() == old(self).queued().have_entries(),
            final(self).queued().dont_have_entries() == old(self).queued().dont_have_entries(),
            final(self).queued().full_flag() == old(self).queued().full_flag(),
            final(self).sent_entries() == old(self).sent_entries(),
            final(self).received_entries() == old(self).received_entries(),
    {
        self.message.add_block(block);
    }

    /// Queues a want of `cid` at `priority`.
    pub fn want_block(&mut self, cid: &Cid, priority: Priority)
        requires
            old(self).wf(),
        ensures
            final(self).wf(),
            final(self).queued().want_map() == old(self).queued().want_map().insert(cid@, priority),
            final(self).queued().cancel_entries() == old(self).queued().cancel_entries(),
            final(self).queued().have_entries() == old(self).queued().have_entries(),
            final(self).queued().dont_have_entries() == old(self).queued().dont_have_entries(),
            final(self).queued().full_flag() == old(self).queued().full_flag(),
            final(self).queued().block_seq() == old(self).queued().block_seq(),
            final(self).sent_entries() == old(self).sent_entries(),
            final(self).received_entries() == old(self).received_entries(),
    {
        self.message.want_block(cid, priority);
    }

    /// Queues a cancel of `cid`.
    pub fn cancel_block(&mut self, cid: &Cid)
        requires
            old(self).wf(),
        ensures
            final(self).wf(),
            final(self).queued().cancel_set() == old(self).queued().cancel_set().insert(cid@),
            final(self).queued().want_entries() == old(self).queued().want_entries(),
            final(self).queued().have_entries() == old(self).queued().have_entries(),
            final(self).queued().dont_have_entries() == old(self).queued().dont_have_entries(),
            final(self).queued().full_flag() == old(self).queued().full_flag(),
            final(self).queued().block_seq() == old(self).queued().block_seq(),
            final(self).sent_entries() == old(self).sent_entries(),
            final(self).received_entries() == old(self).received_entries(),
    {
        self.message.cancel_block(cid);
    }

    /// Records that the peer wants `cid` at `priority`.
    pub fn record_want(&mut self, cid: &Cid, priority: Priority)
        requires
            old(self).wf(),
        ensures
            final(self).wf(),
            final(self).received_map() == old(self).received_map().insert(cid@, priority),
            final(self).sent_entries() == old(self).sent_entries(),
            final(self).queued() == old(self).queued(),
    {
        map_insert(&mut self.received_want_list, cid.duplicate(), priority);
    }

    /// Records that the peer no longer wants `cid`.
    pub fn record_cancel(&mut self, cid: &Cid)
        requires
            old(self).wf(),
        ensures
            final(self).wf(),
            final(self).received_map() == old(self).received_map().remove(cid@),
            final(self).sent_entries() == old(self).sent_entries(),
            final(self).queued() == old(self).queued(),
    {
        let _ = map_remove(&mut self.received_want_list, cid);
    }

    /// The blocks that the peer wants, in no particular order.
    pub fn wantlist(&self) -> (r: Vec<(Cid, Priority)>)
        requires
            self.wf(),
        ensures
            keys_unique(r@),
            map_of(r@) == self.received_map(),
    {
        copy_entries(&self.received_want_list)
    }

    /// The wants that were sent to the peer and not cancelled, in no
    /// particular order.
    pub fn sent_wantlist(&self) -> (r: Vec<(Cid, Priority)>)
        requires
            self.wf(),
        ensures
            keys_unique(r@),
            map_of(r@) == self.sent_map(),
    {
        copy_entries(&self.sent_want_list)
    }

    /// The message queued for the peer.
    pub fn queued_message(&self) -> (r: &Message)
        ensures
            *r == self.queued(),
    {
        &self.message
    }

    /// Takes the queued message out, if it is not empty, and records its
    /// wants and cancels as sent.
    pub fn send(&mut self) -> (r: Option<Message>)
        requires
            old(self).wf(),
        ensures
            final(self).wf(),
            final(self).received_entries() == old(self).received_entries(),
            old(self).queued().empty_spec() ==> r is None && *final(self) == *old(self),
            !old(self).queued().empty_spec() ==> {
                &&& r == Some(old(self).queued())
                &&& fresh_message(final(self).queued())
                &&& final(self).sent_map() == old(self).sent_map().remove_keys(
                    old(self).queued().cancel_set(),
                ).union_prefer_right(old(self).queued().want_map())
            },
    {
        if self.message.is_empty() {
            return None;
        }
        let ghost sent0 = self.sent_map();
        let mut m = Message::new();
        std::mem::swap(&mut self.message, &mut m);
        let mut i: usize = 0;
        while i < m.cancel.len()
            invariant
                i <= m.cancel@.len(),
                self.received_want_list@ == old(self).received_want_list@,
                keys_unique(self.received_want_list@),
                fresh_message(self.message),
                keys_unique(self.sent_want_list@),
                map_of(self.sent_want_list@) == sent0.remove_keys(set_of(m.cancel@.take(i as int))),
            decreases m.cancel@.len() - i,
        {
            proof {
                lemma_set_of_take(m.cancel@, i as int);
                assert(sent0.remove_keys(set_of(m.cancel@.take(i + 1))) =~= sent0.remove_keys(
                    set_of(m.cancel@.take(i as int)),
                ).remove(m.cancel@[i as int]@));
            }
            let _ = map_remove(&mut self.sent_want_list, &m.cancel[i]);
            i = i + 1;
        }
        proof {
            assert(m.cancel@.take(i as int) =~= m.cancel@);
        }
        let ghost base = map_of(self.sent_want_list@);
        let mut j: usize = 0;
        while j < m.want.len()
            invariant
                j <= m.want@.len(),
                keys_unique(m.want@),
                self.received_want_list@ == old(self).received_want_list@,
                keys_unique(self.received_want_list@),
                fresh_message(self.message),
                keys_unique(self.sent_want_list@),
                map_of(self.sent_want_list@) == base.union_prefer_right(map_of(m.want@.take(j as int))),
            decreases m.want@.len() - j,
        {
            proof {
                lemma_map_of_take(m.want@, j as int);
                assert(base.union_prefer_right(map_of(m.want@.take(j + 1))) =~= base.union_prefer_right(
                    map_of(m.want@.take(j as int)),
                ).insert(m.want@[j as int].0@, m.want@[j as int].1));
            }
            map_insert(&mut self.sent_want_list, m.want[j].0.duplicate(), m.want[j].1);
            j = j + 1;
        }
        proof {
            assert(m.want@.take(j as int) =~= m.want@);
        }
        Some(m)
    }
}

/// Keeps the blocks whose identifier is not `c`.
pub open spec fn other_than(c: Seq<u8>) -> spec_fn(Block) -> bool {
    |b: Block| b.cid@ != c
}

/// The total of a prefix is at most the total of the whole.
pub proof fn lemma_bytes_total_prefix(s: Seq<Block>, n: int)
    requires
        0 <= n <= s.len(),
    ensures
        bytes_total(s.take(n)) <= bytes_total(s),
    decreases s.len() - n,
{
    if n < s.len() {
        lemma_bytes_total_prefix(s, n + 1);
        assert(s.take(n + 1).drop_last() =~= s.take(n));
    } else {
        assert(s.take(n) =~= s);
    }
}

} // verus!

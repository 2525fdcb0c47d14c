use bitswap::{Bitswap, Block, Cid, Message, ProtocolEvent};
use cid::multihash::{Code, MultihashDigest};

fn make_cid(data: &[u8]) -> Cid {
    let c = cid::Cid::new_v1(0x55, Code::Sha2_256.digest(data));
    Cid::from_bytes(&c.to_bytes()).unwrap()
}

fn make_block(data: &[u8]) -> Block {
    Block::new(make_cid(data), data.to_vec())
}

fn cancels_of(engine: &Bitswap, peer: u64) -> Vec<Vec<u8>> {
    let l = engine.ledger(peer).unwrap();
    l.queued_message().cancel().iter().map(|c| c.to_bytes()).collect()
}

#[test]
fn want_then_deliver() {
    let mut e = Bitswap::new();
    assert!(e.handle_new_peer(1).is_none());
    assert!(e.handle_new_peer(2).is_none());
    e.want_block(make_cid(b"one"), 1, 7);
    let mut m = Message::new();
    m.add_block(make_block(b"one"));
    let out = e.handle_incoming_message(1, m);
    assert_eq!(out.received.len(), 1);
    assert_eq!(out.received[0].waiters, vec![7]);
    assert_eq!(out.received[0].block.cid.to_bytes(), make_cid(b"one").to_bytes());
    assert!(e.local_wantlist().is_empty());
    let c1 = make_cid(b"one").to_bytes();
    assert!(cancels_of(&e, 1).contains(&c1));
    assert!(cancels_of(&e, 2).contains(&c1));
    e.record_put(1, 3, true);
    let s = e.stats();
    assert_eq!(s.received_data, 3);
    assert_eq!(s.received_blocks, 1);
    assert_eq!(s.duplicate_data, 0);
}

#[test]
fn duplicate_block_still_delivered() {
    let mut e = Bitswap::new();
    e.handle_new_peer(1);
    e.want_block(make_cid(b"one"), 1, 7);
    let mut m = Message::new();
    m.add_block(make_block(b"one"));
    let out = e.handle_incoming_message(1, m);
    assert_eq!(out.received[0].waiters, vec![7]);
    e.record_put(1, 3, false);
    let s = e.stats();
    assert_eq!(s.duplicate_data, 3);
    assert_eq!(s.duplicate_blocks, 1);
    assert_eq!(s.received_data, 0);
}

#[test]
fn bootstrap_snapshot_to_new_peer() {
    let mut e = Bitswap::new();
    e.want_block(make_cid(b"one"), 1, 1);
    e.want_block(make_cid(b"two"), 1, 2);
    let m = e.handle_new_peer(5).unwrap();
    assert_eq!(m.want().len(), 2);
    assert!(m.want().iter().all(|(_, p)| *p == 1));
    let keys: Vec<Vec<u8>> = m.want().iter().map(|(c, _)| c.to_bytes()).collect();
    assert!(keys.contains(&make_cid(b"one").to_bytes()));
    assert!(keys.contains(&make_cid(b"two").to_bytes()));
    assert!(m.cancel().is_empty());
    assert!(m.blocks().is_empty());
    assert!(e.ledger(5).unwrap().sent_wantlist().is_empty());
}

#[test]
fn serve_a_wanted_block() {
    let mut e = Bitswap::new();
    e.handle_new_peer(1);
    let mut m = Message::new();
    m.want_block(&make_cid(b"three"), 5);
    let out = e.handle_incoming_message(1, m);
    assert_eq!(out.lookups.len(), 1);
    assert_eq!(out.lookups[0].to_bytes(), make_cid(b"three").to_bytes());
    let wl = e.peer_wantlist(1).unwrap();
    assert_eq!(wl.len(), 1);
    assert_eq!(wl[0].1, 5);
    let sent = e.handle_blocks(1, vec![make_block(b"three")]).unwrap();
    assert_eq!(sent.num_of_blocks(), 1);
    assert_eq!(sent.blocks()[0].cid.to_bytes(), make_cid(b"three").to_bytes());
    assert_eq!(e.stats().sent_blocks, 1);
    assert!(e.ledger(1).unwrap().queued_message().is_empty());
}

#[test]
fn want_overlap_suppressed() {
    let mut e = Bitswap::new();
    e.handle_new_peer(1);
    e.want_block(make_cid(b"four"), 1, 3);
    let mut m = Message::new();
    m.want_block(&make_cid(b"four"), 7);
    let out = e.handle_incoming_message(1, m);
    assert!(out.lookups.is_empty());
    assert!(e.peer_wantlist(1).unwrap().is_empty());
}

#[test]
fn cancel_drops_waiters() {
    let mut e = Bitswap::new();
    e.handle_new_peer(1);
    e.want_block(make_cid(b"five"), 1, 9);
    let dropped = e.cancel_block(&make_cid(b"five"));
    assert_eq!(dropped, vec![9]);
    assert!(cancels_of(&e, 1).contains(&make_cid(b"five").to_bytes()));
    assert!(e.local_wantlist().is_empty());
    let mut m = Message::new();
    m.add_block(make_block(b"five"));
    let out = e.handle_incoming_message(1, m);
    assert!(out.received[0].waiters.is_empty());
}

#[test]
fn peers_follow_lifecycle_events() {
    let mut e = Bitswap::new();
    assert!(e.handle_event(ProtocolEvent::NewPeer(1)).is_none());
    e.handle_event(ProtocolEvent::NewPeer(2));
    let mut p = e.peers();
    p.sort();
    assert_eq!(p, vec![1, 2]);
    e.handle_event(ProtocolEvent::DeadPeer(1));
    assert_eq!(e.peers(), vec![2]);
    assert!(e.ledger(1).is_none());
    assert!(e.peer_wantlist(1).is_none());
}

#[test]
fn stats_total_is_sum_of_peers() {
    let mut e = Bitswap::new();
    e.handle_new_peer(1);
    e.handle_new_peer(2);
    e.record_put(1, 10, true);
    e.record_put(2, 5, true);
    e.record_put(2, 4, false);
    e.handle_dead_peer(2);
    let s = e.stats();
    assert_eq!(s.received_data, 15);
    assert_eq!(s.received_blocks, 2);
    assert_eq!(s.duplicate_data, 4);
    e.record_put(9, 100, true);
    assert_eq!(e.stats().received_data, 15);
}

#[test]
fn two_waiters_both_receive() {
    let mut e = Bitswap::new();
    e.handle_new_peer(1);
    e.want_block(make_cid(b"x"), 1, 1);
    e.want_block(make_cid(b"x"), 1, 2);
    let mut m = Message::new();
    m.add_block(make_block(b"x"));
    m.add_block(make_block(b"x"));
    let out = e.handle_incoming_message(1, m);
    assert_eq!(out.received[0].waiters, vec![1, 2]);
    assert!(out.received[1].waiters.is_empty());
}

#[test]
fn control_wantlist_answers() {
    let mut e = Bitswap::new();
    e.handle_new_peer(1);
    e.want_block(make_cid(b"a"), 4, 1);
    let local = e.control_wantlist(None);
    assert_eq!(local.len(), 1);
    assert_eq!(local[0].1, 1);
    assert!(e.control_wantlist(Some(3)).is_empty());
    let mut m = Message::new();
    m.want_block(&make_cid(b"b"), 8);
    e.handle_incoming_message(1, m);
    let theirs = e.control_wantlist(Some(1));
    assert_eq!(theirs.len(), 1);
    assert_eq!(theirs[0].1, 8);
    let mut m = Message::new();
    m.cancel_block(&make_cid(b"b"));
    e.handle_incoming_message(1, m);
    assert!(e.control_wantlist(Some(1)).is_empty());
}

#[test]
fn want_is_queued_on_every_ledger_without_sending() {
    let mut e = Bitswap::new();
    e.handle_new_peer(1);
    e.handle_new_peer(2);
    e.want_block(make_cid(b"q"), 3, 1);
    for p in [1u64, 2] {
        let q = e.ledger(p).unwrap().queued_message();
        assert_eq!(q.want().len(), 1);
        assert_eq!(q.want()[0].1, 3);
    }
    let sent = e.handle_blocks(1, vec![]).unwrap();
    assert_eq!(sent.want().len(), 1);
    assert_eq!(sent.num_of_blocks(), 0);
    assert_eq!(e.ledger(1).unwrap().sent_wantlist().len(), 1);
    assert!(e.handle_blocks(1, vec![]).is_none());
}

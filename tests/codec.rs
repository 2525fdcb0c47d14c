use bitswap::codec::decode_prefix;
use bitswap::{BitswapError, Block, Cid, Ledger, Message, Stats};
use cid::multihash::{Code, MultihashDigest};

fn make_cid(data: &[u8]) -> Cid {
    let c = cid::Cid::new_v1(0x55, Code::Sha2_256.digest(data));
    Cid::from_bytes(&c.to_bytes()).unwrap()
}

fn make_block(data: &[u8]) -> Block {
    Block::new(make_cid(data), data.to_vec())
}

fn sorted_keys(v: &[Cid]) -> Vec<Vec<u8>> {
    let mut k: Vec<Vec<u8>> = v.iter().map(|c| c.to_bytes()).collect();
    k.sort();
    k
}

#[test]
fn round_trip_want_cancel_blocks() {
    let mut m = Message::new();
    m.want_block(&make_cid(b"a"), 3);
    m.want_block(&make_cid(b"b"), -2);
    m.cancel_block(&make_cid(b"c"));
    m.add_block(make_block(b"hello"));
    m.add_block(make_block(b"world"));
    let bytes = m.to_bytes();
    let d = Message::from_bytes(&bytes).unwrap();
    let mut w: Vec<(Vec<u8>, i32)> = d.want().iter().map(|(c, p)| (c.to_bytes(), *p)).collect();
    w.sort();
    let mut e = vec![(make_cid(b"a").to_bytes(), 3), (make_cid(b"b").to_bytes(), -2)];
    e.sort();
    assert_eq!(w, e);
    assert_eq!(sorted_keys(d.cancel()), vec![make_cid(b"c").to_bytes()]);
    assert_eq!(d.num_of_blocks(), 2);
    assert_eq!(d.blocks()[0].cid.to_bytes(), make_cid(b"hello").to_bytes());
    assert_eq!(d.blocks()[1].data(), b"world");
    assert_eq!(d.bytes_of_blocks(), 10);
}

#[test]
fn empty_message_encodes_to_nothing() {
    let m = Message::new();
    assert!(m.to_bytes().is_empty());
    let d = Message::from_bytes(&[]).unwrap();
    assert!(d.is_empty());
}

#[test]
fn exact_bytes_of_one_want() {
    let c = make_cid(b"a");
    let cb = c.to_bytes();
    let mut m = Message::new();
    m.want_block(&c, 1);
    let mut entry = vec![0x0a, cb.len() as u8];
    entry.extend_from_slice(&cb);
    entry.extend_from_slice(&[0x10, 0x01]);
    let mut wl = vec![0x0a, entry.len() as u8];
    wl.extend_from_slice(&entry);
    let mut expected = vec![0x0a, wl.len() as u8];
    expected.extend_from_slice(&wl);
    assert_eq!(m.to_bytes(), expected);
}

#[test]
fn decoding_ignores_full_and_pending_bytes() {
    let c = make_cid(b"a");
    let cb = c.to_bytes();
    let mut entry = vec![0x0a, cb.len() as u8];
    entry.extend_from_slice(&cb);
    entry.extend_from_slice(&[0x10, 0x02, 0x20, 0x01, 0x28, 0x01]);
    let mut wl = vec![0x0a, entry.len() as u8];
    wl.extend_from_slice(&entry);
    wl.extend_from_slice(&[0x10, 0x01]);
    let mut bytes = vec![0x0a, wl.len() as u8];
    bytes.extend_from_slice(&wl);
    bytes.extend_from_slice(&[0x28, 0x07]);
    let d = Message::from_bytes(&bytes).unwrap();
    assert!(!d.full());
    assert_eq!(d.want().len(), 1);
    assert_eq!(d.want()[0].1, 2);
}

#[test]
fn malformed_prefix_is_invalid_data() {
    // payload with a prefix whose varint never ends
    let bytes = vec![0x1a, 0x05, 0x0a, 0x01, 0x80, 0x12, 0x00];
    assert_eq!(Message::from_bytes(&bytes).unwrap_err(), BitswapError::InvalidData);
    // payload with an empty prefix
    let bytes = vec![0x1a, 0x03, 0x12, 0x01, 0x61];
    assert_eq!(Message::from_bytes(&bytes).unwrap_err(), BitswapError::InvalidData);
}

#[test]
fn corrupt_cid_is_invalid_data() {
    let bytes = vec![0x0a, 0x06, 0x0a, 0x04, 0x0a, 0x02, 0x07, 0x07];
    assert_eq!(Message::from_bytes(&bytes).unwrap_err(), BitswapError::InvalidData);
}

#[test]
fn truncated_frame_is_invalid_data() {
    assert_eq!(Message::from_bytes(&[0x0a, 0x05, 0x00]).unwrap_err(), BitswapError::InvalidData);
}

#[test]
fn block_presences_parsed() {
    let cb = make_cid(b"p").to_bytes();
    let mut pres = vec![0x0a, cb.len() as u8];
    pres.extend_from_slice(&cb);
    pres.extend_from_slice(&[0x10, 0x01]);
    let mut bytes = vec![0x22, pres.len() as u8];
    bytes.extend_from_slice(&pres);
    let d = Message::from_bytes(&bytes).unwrap();
    assert_eq!(d.dont_have().len(), 1);
    assert!(d.have().is_empty());
    assert!(d.is_empty());
    // the encoder writes no presences
    assert!(d.to_bytes().is_empty());
    let n = pres.len();
    pres[n - 1] = 0x05;
    let mut bad = vec![0x22, pres.len() as u8];
    bad.extend_from_slice(&pres);
    assert_eq!(Message::from_bytes(&bad).unwrap_err(), BitswapError::InvalidData);
}

#[test]
fn prefix_of_cid_reads_back() {
    let c = make_cid(b"z");
    let (v, codec, t, l) = c.prefix();
    assert_eq!((v, codec, t, l), (1, 0x55, 0x12, 32));
    assert_eq!(decode_prefix(&[0x01, 0x55, 0x12, 0x20]).unwrap(), (1, 0x55, 0x12, 32));
    assert_eq!(decode_prefix(&[]).unwrap_err(), BitswapError::InvalidData);
    let rebuilt = Cid::for_data(1, 0x55, 0x12, b"z").unwrap();
    assert_eq!(rebuilt.to_bytes(), c.to_bytes());
    assert!(Cid::for_data(7, 0x55, 0x12, b"z").is_none());
    assert!(Cid::from_bytes(&[0x07, 0x07]).is_none());
}

#[test]
fn message_collections() {
    let mut m = Message::new();
    assert!(m.is_empty());
    m.want_block(&make_cid(b"a"), 1);
    m.want_block(&make_cid(b"a"), 9);
    assert_eq!(m.want().len(), 1);
    assert_eq!(m.want()[0].1, 9);
    m.remove_want_block(&make_cid(b"a"));
    assert!(m.is_empty());
    m.cancel_block(&make_cid(b"a"));
    m.cancel_block(&make_cid(b"a"));
    assert_eq!(m.cancel().len(), 1);
    m.have_block(&make_cid(b"h"));
    m.dont_have_block(&make_cid(b"d"));
    assert_eq!(m.have().len(), 1);
    assert_eq!(m.dont_have().len(), 1);
    m.add_block(make_block(b"x"));
    m.add_block(make_block(b"yy"));
    m.add_block(make_block(b"x"));
    m.remove_block(&make_cid(b"x"));
    assert_eq!(m.num_of_blocks(), 1);
    assert_eq!(m.bytes_of_blocks(), 2);
    let taken = m.take_blocks();
    assert_eq!(taken.len(), 1);
    assert_eq!(m.num_of_blocks(), 0);
}

#[test]
fn ledger_send_commits_wants_and_cancels() {
    let mut l = Ledger::new();
    assert!(l.send().is_none());
    l.want_block(&make_cid(b"a"), 2);
    l.want_block(&make_cid(b"b"), 3);
    let m = l.send().unwrap();
    assert_eq!(m.want().len(), 2);
    assert_eq!(l.sent_wantlist().len(), 2);
    assert!(l.queued_message().is_empty());
    l.cancel_block(&make_cid(b"a"));
    l.add_block(make_block(b"blk"));
    let m = l.send().unwrap();
    assert_eq!(m.num_of_blocks(), 1);
    let sent = l.sent_wantlist();
    assert_eq!(sent.len(), 1);
    assert_eq!(sent[0].0.to_bytes(), make_cid(b"b").to_bytes());
    assert!(l.wantlist().is_empty());
}

#[test]
fn stats_counters_wrap() {
    let mut s = Stats::new();
    s.update_outgoing(u64::MAX);
    s.update_outgoing(2);
    assert_eq!(s.sent_blocks, 1);
    s.update_incoming_unique(4);
    s.update_incoming_duplicate(6);
    let mut t = Stats::new();
    t.add_assign(&s);
    t.add_assign(&s);
    assert_eq!(t.received_data, 8);
    assert_eq!(t.duplicate_data, 12);
    assert_eq!(t.received_blocks, 2);
    assert_eq!(t.sent_blocks, 2);
}

#[test]
fn cid_from_bytes_keeps_canonical_form() {
    let cb = make_cid(b"t").to_bytes();
    let mut longer = cb.clone();
    longer.extend_from_slice(&[0x01, 0x02]);
    let c = Cid::from_bytes(&longer).unwrap();
    assert_eq!(c.to_bytes(), cb);
    assert!(c.same(&make_cid(b"t")));
    assert!(!c.same(&make_cid(b"u")));
}

#[test]
fn negative_priority_is_sign_extended() {
    let c = make_cid(b"n");
    let mut m = Message::new();
    m.want_block(&c, -1);
    let bytes = m.to_bytes();
    let tail = &bytes[bytes.len() - 11..];
    assert_eq!(tail, &[0x10, 0xff, 0xff, 0xff, 0xff, 0xff, 0xff, 0xff, 0xff, 0xff, 0x01]);
    let d = Message::from_bytes(&bytes).unwrap();
    assert_eq!(d.want()[0].1, -1);
}

#[test]
fn identifier_that_does_not_read_back_is_refused() {
    // parses as a version-0 identifier, but its canonical form does not parse
    assert!(Cid::from_bytes(&[0x00, 0x70, 0x12, 0x01, 0xab]).is_none());
    let cb = [0x00u8, 0x70, 0x12, 0x01, 0xab];
    let mut entry = vec![0x0a, cb.len() as u8];
    entry.extend_from_slice(&cb);
    let mut wl = vec![0x0a, entry.len() as u8];
    wl.extend_from_slice(&entry);
    let mut bytes = vec![0x0a, wl.len() as u8];
    bytes.extend_from_slice(&wl);
    assert_eq!(Message::from_bytes(&bytes).unwrap_err(), BitswapError::InvalidData);
}

#[test]
fn round_trip_has_no_presences() {
    let mut m = Message::new();
    m.want_block(&make_cid(b"a"), 1);
    m.add_block(make_block(b"b"));
    let d = Message::from_bytes(&m.to_bytes()).unwrap();
    assert!(d.have().is_empty());
    assert!(d.dont_have().is_empty());
    assert!(!d.full());
}

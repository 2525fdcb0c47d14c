//! The wire form of a message: protocol-buffer fields, written and read here;
//! each varint goes through `prost::encoding`.
use vstd::prelude::*;
use crate::content_id::{cid_for_data, cid_prefix, cid_read, Block, Cid};
use crate::ledger::{Message, Priority};

verus! {

/// Failures of the protocol.
#[derive(Clone, Copy, Debug, PartialEq, Eq, Structural)]
pub enum BitswapError {
    /// A frame, a block presence or an identifier could not be decoded.
    InvalidData,
    /// The control channel closed.
    Closing,
}

/// The LEB128 encoding of `v`: seven bits per byte, least significant first,
/// the high bit set on every byte but the last.
pub open spec fn varint(v: nat) -> Seq<u8>
    decreases v,
{
    if v < 128 {
        seq![v as u8]
    } else {
        seq![((v % 128) + 128) as u8] + varint(v / 128)
    }
}

/// Relies on `prost::encoding::encode_varint`: appends the LEB128 encoding of `v`.
#[verifier::external_body]
fn put_varint(v: u64, out: &mut Vec<u8>)
    ensures
        final(out)@ == old(out)@ + varint(v as nat),
{
    prost::encoding::encode_varint(v, out)
}

/// Relies on `prost::encoding::decode_varint` over a byte slice: reads one
/// varint of at most ten bytes from `b[pos..]`, its value kept modulo 2^64,
/// and reads the encoding of a value back as that value. Returns the value
/// and the bytes left.
#[verifier::external_body]
fn take_varint(b: &[u8], pos: usize) -> (r: Option<(u64, usize)>)
    requires
        pos <= b@.len(),
    ensures
        r == match leb_read(b@.subrange(pos as int, b@.len() as int)) {
            Some((v, n)) => Some((v, (b@.len() - pos - n) as usize)),
            None => None::<(u64, usize)>,
        },
        r matches Some((v, left)) ==> left < b@.len() - pos && b@.len() - pos - left <= 10,
        pos == b@.len() ==> r is None,
        forall|v: u64|
            #![trigger varint(v as nat)]
            pos + varint(v as nat).len() <= b@.len() && b@.subrange(pos as int, pos + varint(v as nat).len())
                == varint(v as nat) ==> r == Some((v, (b@.len() - pos - varint(v as nat).len()) as usize)),
{
    let mut s = &b[pos..];
    prost::encoding::decode_varint(&mut s).ok().map(|v| (v, s.len()))
}

/// The bits of an `int32` field as the wire carries them: sign-extended to 64.
pub open spec fn int32_bits(p: i32) -> nat {
    if p < 0 {
        (p as int + 0x1_0000_0000_0000_0000) as nat
    } else {
        p as nat
    }
}

/// A length-delimited field.
pub open spec fn len_field(f: nat, body: Seq<u8>) -> Seq<u8> {
    varint(f * 8 + 2) + varint(body.len()) + body
}

/// A varint field.
pub open spec fn varint_field(f: nat, v: nat) -> Seq<u8> {
    varint(f * 8) + varint(v)
}

/// A wantlist entry; fields at their default value are left out.
pub open spec fn entry_bytes(cid: Seq<u8>, p: i32, cancel: bool) -> Seq<u8> {
    (if cid.len() == 0 { Seq::empty() } else { len_field(1, cid) }) + (if p == 0 {
        Seq::empty()
    } else {
        varint_field(2, int32_bits(p))
    }) + (if cancel { varint_field(3, 1) } else { Seq::empty() })
}

/// The entries for wants, in the order held.
pub open spec fn want_entries_bytes(s: Seq<(Cid, Priority)>) -> Seq<u8>
    decreases s.len(),
{
    if s.len() == 0 {
        Seq::empty()
    } else {
        want_entries_bytes(s.drop_last()) + len_field(1, entry_bytes(s.last().0@, s.last().1, false))
    }
}

/// The entries for cancels, in the order held.
pub open spec fn cancel_entries_bytes(s: Seq<Cid>) -> Seq<u8>
    decreases s.len(),
{
    if s.len() == 0 {
        Seq::empty()
    } else {
        cancel_entries_bytes(s.drop_last()) + len_field(1, entry_bytes(s.last()@, 0, true))
    }
}

/// The prefix of an identifier: version, codec, multihash code and length.
pub open spec fn prefix_bytes(p: (u64, u64, u64, u64)) -> Seq<u8> {
    varint(p.0 as nat) + varint(p.1 as nat) + varint(p.2 as nat) + varint(p.3 as nat)
}

/// A block: its identifier's prefix and its data.
pub open spec fn block_bytes(b: Block) -> Seq<u8> {
    len_field(1, prefix_bytes(cid_prefix(b.cid@).unwrap())) + (if b.data@.len() == 0 {
        Seq::empty()
    } else {
        len_field(2, b.data@)
    })
}

/// The blocks, in order.
pub open spec fn payload_bytes(s: Seq<Block>) -> Seq<u8>
    decreases s.len(),
{
    if s.len() == 0 {
        Seq::empty()
    } else {
        payload_bytes(s.drop_last()) + len_field(3, block_bytes(s.last()))
    }
}

/// The wire form of a message: a wantlist, where there is an entry, then the
/// blocks. Presences and the full flag are not written.
pub open spec fn message_bytes(m: Message) -> Seq<u8> {
    let wl = want_entries_bytes(m.want_entries()) + cancel_entries_bytes(m.cancel_entries());
    (if wl.len() == 0 { Seq::empty() } else { len_field(1, wl) }) + payload_bytes(m.block_seq())
}

/// Appends a length-delimited field.
fn put_len_field(out: &mut Vec<u8>, f: u64, body: &mut Vec<u8>)
    requires
        f < 0x1000_0000,
    ensures
        final(out)@ == old(out)@ + len_field(f as nat, old(body)@),
{
    let ghost b = body@;
    put_varint(f * 8 + 2, out);
    put_varint(body.len() as u64, out);
    out.append(body);
    proof {
        assert(final(out)@ =~= old(out)@ + len_field(f as nat, b));
    }
}

/// Appends a varint field.
fn put_varint_field(out: &mut Vec<u8>, f: u64, v: u64)
    requires
        f < 0x1000_0000,
    ensures
        final(out)@ == old(out)@ + varint_field(f as nat, v as nat),
{
    put_varint(f * 8, out);
    put_varint(v, out);
    proof {
        assert(final(out)@ =~= old(out)@ + varint_field(f as nat, v as nat));
    }
}

/// The bytes of one wantlist entry.
fn entry_to_bytes(cid: &Cid, p: Priority, cancel: bool) -> (r: Vec<u8>)
    ensures
        r@ == entry_bytes(cid@, p, cancel),
{
    let mut r: Vec<u8> = Vec::new();
    let mut c = cid.to_bytes();
    if c.len() > 0 {
        put_len_field(&mut r, 1, &mut c);
    }
    if p != 0 {
        let bits: u64 = if p < 0 {
            let a: u64 = (-(p as i64)) as u64;
            u64::MAX - (a - 1)
        } else {
            p as u64
        };
        proof {
            assert(bits as nat == int32_bits(p));
        }
        put_varint_field(&mut r, 2, bits);
    }
    if cancel {
        put_varint_field(&mut r, 3, 1);
    }
    proof {
        assert(r@ =~= entry_bytes(cid@, p, cancel));
    }
    r
}

/// The bytes of one block.
fn block_to_bytes(b: &Block) -> (r: Vec<u8>)
    ensures
        r@ == block_bytes(*b),
{
    let (v, c, t, l) = b.cid.prefix();
    let mut pre: Vec<u8> = Vec::new();
    put_varint(v, &mut pre);
    put_varint(c, &mut pre);
    put_varint(t, &mut pre);
    put_varint(l, &mut pre);
    let mut r: Vec<u8> = Vec::new();
    proof {
        assert(pre@ =~= prefix_bytes(cid_prefix(b.cid@).unwrap()));
    }
    put_len_field(&mut r, 1, &mut pre);
    if b.data.len() > 0 {
        let mut d = b.data.clone();
        proof {
            assert(d@ =~= b.data@);
        }
        put_len_field(&mut r, 2, &mut d);
    }
    proof {
        assert(r@ =~= block_bytes(*b));
    }
    r
}

/// The index after the last byte of the varint at index `i` of `s` and on:
/// the first byte below 0x80, within ten bytes.
pub open spec fn leb_end(s: Seq<u8>, i: nat) -> Option<nat>
    decreases 10 - i,
{
    if i >= 10 || i >= s.len() {
        None
    } else if s[i as int] < 128 {
        Some(i + 1)
    } else {
        leb_end(s, i + 1)
    }
}

/// A varint ends after its start and within the bytes.
pub proof fn lemma_leb_end_bounds(s: Seq<u8>, i: nat)
    ensures
        leb_end(s, i) matches Some(n) ==> i < n <= s.len() && n <= 10,
    decreases 10 - i,
{
    if i < 10 && i < s.len() && s[i as int] >= 128 {
        lemma_leb_end_bounds(s, i + 1);
    }
}

/// `128` to the power `e`.
pub open spec fn pow128(e: nat) -> int
    decreases e,
{
    if e == 0 {
        1
    } else {
        128 * pow128((e - 1) as nat)
    }
}

/// The value of the low seven bits of the first `n` bytes of `s`, least
/// significant first.
pub open spec fn leb_value(s: Seq<u8>, n: nat) -> int
    decreases n,
{
    if n == 0 {
        0
    } else {
        leb_value(s, (n - 1) as nat) + (s[n - 1] % 128) * pow128((n - 1) as nat)
    }
}

/// A varint read from the front of `s`: its value, kept modulo 2^64, and its
/// length.
pub open spec fn leb_read(s: Seq<u8>) -> Option<(u64, nat)> {
    match leb_end(s, 0) {
        Some(n) => Some(((leb_value(s, n) % 0x1_0000_0000_0000_0000) as u64, n)),
        None => None,
    }
}

/// The varint at `pos`, which must end by `end`, and the position after it.
pub open spec fn sp_varint(b: Seq<u8>, pos: int, end: int) -> Option<(u64, int)> {
    if pos >= end || pos < 0 || end > b.len() {
        None
    } else {
        match leb_read(b.subrange(pos, b.len() as int)) {
            Some((v, n)) => if pos + n <= end {
                Some((v, pos + n))
            } else {
                None
            },
            None => None,
        }
    }
}

/// The field number, wire type and position after the key at `pos`.
pub open spec fn sp_key(b: Seq<u8>, pos: int, end: int) -> Option<(u64, u64, int)> {
    match sp_varint(b, pos, end) {
        Some((k, np)) => if k > 0xffff_ffff || k % 8 > 5 || k / 8 == 0 {
            None
        } else {
            Some((k / 8, k % 8, np))
        },
        None => None,
    }
}

/// Where the body of the length-delimited field at `pos` starts and ends.
pub open spec fn sp_len(b: Seq<u8>, pos: int, end: int) -> Option<(int, int)> {
    match sp_varint(b, pos, end) {
        Some((n, s)) => if n > end - s {
            None
        } else {
            Some((s, s + n))
        },
        None => None,
    }
}

/// The position after the body of a field of wire type `wt` at `pos`.
pub open spec fn sp_skip(b: Seq<u8>, wt: u64, pos: int, end: int) -> Option<int> {
    if wt == 0 {
        match sp_varint(b, pos, end) {
            Some((_, np)) => Some(np),
            None => None,
        }
    } else if wt == 1 {
        if end - pos >= 8 { Some(pos + 8) } else { None }
    } else if wt == 2 {
        match sp_len(b, pos, end) {
            Some((_, e)) => Some(e),
            None => None,
        }
    } else if wt == 5 {
        if end - pos >= 4 { Some(pos + 4) } else { None }
    } else {
        None
    }
}

/// An `int32` field's value from the bits the wire carries.
pub open spec fn int32_of(v: u64) -> i32 {
    let low = v as int % 0x1_0000_0000;
    if low >= 0x8000_0000 {
        (low - 0x1_0000_0000) as i32
    } else {
        low as i32
    }
}

/// What the decoder keeps of a message: wants, cancels, presences and the
/// blocks as identifier and data.
pub type WireView = (
    Map<Seq<u8>, Priority>,
    Set<Seq<u8>>,
    Set<Seq<u8>>,
    Set<Seq<u8>>,
    Seq<(Seq<u8>, Seq<u8>)>,
);

/// The view of a message with nothing in it.
pub open spec fn empty_view() -> WireView {
    (Map::empty(), Set::empty(), Set::empty(), Set::empty(), Seq::empty())
}

/// The fields of a wantlist entry from `pos` on: the identifier's range, the
/// priority and the cancel flag, the last occurrence of each winning.
pub open spec fn sp_entry_fields(b: Seq<u8>, pos: int, end: int, acc: (int, int, i32, bool)) -> Option<
    (int, int, i32, bool),
>
    decreases end - pos,
{
    if pos >= end {
        Some(acc)
    } else {
        match sp_key(b, pos, end) {
            None => None,
            Some((f, wt, np)) => if np <= pos {
                None
            } else if f == 1 {
                if wt != 2 {
                    None
                } else {
                    match sp_len(b, np, end) {
                        Some((s, e)) => if e >= np {
                            sp_entry_fields(b, e, end, (s, e, acc.2, acc.3))
                        } else {
                            None
                        },
                        None => None,
                    }
                }
            } else if f == 2 || f == 3 || f == 4 || f == 5 {
                if wt != 0 {
                    None
                } else {
                    match sp_varint(b, np, end) {
                        Some((v, p2)) => if p2 > np {
                            sp_entry_fields(
                                b,
                                p2,
                                end,
                                (
                                    acc.0,
                                    acc.1,
                                    if f == 2 { int32_of(v) } else { acc.2 },
                                    if f == 3 { v != 0 } else { acc.3 },
                                ),
                            )
                        } else {
                            None
                        },
                        None => None,
                    }
                }
            } else {
                match sp_skip(b, wt, np, end) {
                    Some(p2) => if p2 >= np {
                        sp_entry_fields(b, p2, end, acc)
                    } else {
                        None
                    },
                    None => None,
                }
            },
        }
    }
}

/// A wantlist entry from `s` to `e` applied to `mv`: a cancel, or a want at
/// its priority.
pub open spec fn sp_entry(b: Seq<u8>, s: int, e: int, mv: WireView) -> Option<WireView> {
    match sp_entry_fields(b, s, e, (s, s, 0, false)) {
        Some((cs, ce, p, c)) => match cid_read(b.subrange(cs, ce)) {
            Some(cid) => if c {
                Some((mv.0, mv.1.insert(cid), mv.2, mv.3, mv.4))
            } else {
                Some((mv.0.insert(cid, p), mv.1, mv.2, mv.3, mv.4))
            },
            None => None,
        },
        None => None,
    }
}

/// The fields of a wantlist from `pos` on, applied to `mv`.
pub open spec fn sp_wantlist(b: Seq<u8>, pos: int, end: int, mv: WireView) -> Option<WireView>
    decreases end - pos,
{
    if pos >= end {
        Some(mv)
    } else {
        match sp_key(b, pos, end) {
            None => None,
            Some((f, wt, np)) => if np <= pos {
                None
            } else if f == 1 {
                if wt != 2 {
                    None
                } else {
                    match sp_len(b, np, end) {
                        Some((s, e)) => if e >= np {
                            match sp_entry(b, s, e, mv) {
                                Some(mv2) => sp_wantlist(b, e, end, mv2),
                                None => None,
                            }
                        } else {
                            None
                        },
                        None => None,
                    }
                }
            } else if f == 2 {
                if wt != 0 {
                    None
                } else {
                    match sp_varint(b, np, end) {
                        Some((_, p2)) => if p2 > np {
                            sp_wantlist(b, p2, end, mv)
                        } else {
                            None
                        },
                        None => None,
                    }
                }
            } else {
                match sp_skip(b, wt, np, end) {
                    Some(p2) => if p2 >= np {
                        sp_wantlist(b, p2, end, mv)
                    } else {
                        None
                    },
                    None => None,
                }
            },
        }
    }
}

/// The prefix read from `p`: four varints, what follows them ignored.
pub open spec fn sp_prefix(p: Seq<u8>) -> Option<(u64, u64, u64, u64)> {
    let end = p.len() as int;
    match sp_varint(p, 0, end) {
        Some((v, a)) => match sp_varint(p, a, end) {
            Some((c, b)) => match sp_varint(p, b, end) {
                Some((t, d)) => match sp_varint(p, d, end) {
                    Some((l, _)) => Some((v, c, t, l)),
                    None => None,
                },
                None => None,
            },
            None => None,
        },
        None => None,
    }
}

/// The fields of a block from `pos` on: the ranges of the prefix and of the data.
pub open spec fn sp_block_fields(b: Seq<u8>, pos: int, end: int, acc: (int, int, int, int)) -> Option<
    (int, int, int, int),
>
    decreases end - pos,
{
    if pos >= end {
        Some(acc)
    } else {
        match sp_key(b, pos, end) {
            None => None,
            Some((f, wt, np)) => if np <= pos {
                None
            } else if f == 1 || f == 2 {
                if wt != 2 {
                    None
                } else {
                    match sp_len(b, np, end) {
                        Some((s, e)) => if e >= np {
                            sp_block_fields(
                                b,
                                e,
                                end,
                                if f == 1 { (s, e, acc.2, acc.3) } else { (acc.0, acc.1, s, e) },
                            )
                        } else {
                            None
                        },
                        None => None,
                    }
                }
            } else {
                match sp_skip(b, wt, np, end) {
                    Some(p2) => if p2 >= np {
                        sp_block_fields(b, p2, end, acc)
                    } else {
                        None
                    },
                    None => None,
                }
            },
        }
    }
}

/// A block from `s` to `e`: its identifier, rebuilt from the prefix's
/// version, codec and multihash code applied to the data, and its data. The
/// prefix's multihash length is read and not used: the hash sets it.
pub open spec fn sp_block(b: Seq<u8>, s: int, e: int) -> Option<(Seq<u8>, Seq<u8>)> {
    match sp_block_fields(b, s, e, (s, s, s, s)) {
        Some((p0, p1, d0, d1)) => match sp_prefix(b.subrange(p0, p1)) {
            Some((v, c, t, _)) => match cid_for_data(v, c, t, b.subrange(d0, d1)) {
                Some(cid) => Some((cid, b.subrange(d0, d1))),
                None => None,
            },
            None => None,
        },
        None => None,
    }
}

/// The fields of a block presence from `pos` on: the identifier's range and
/// the type.
pub open spec fn sp_presence_fields(b: Seq<u8>, pos: int, end: int, acc: (int, int, u64)) -> Option<
    (int, int, u64),
>
    decreases end - pos,
{
    if pos >= end {
        Some(acc)
    } else {
        match sp_key(b, pos, end) {
            None => None,
            Some((f, wt, np)) => if np <= pos {
                None
            } else if f == 1 {
                if wt != 2 {
                    None
                } else {
                    match sp_len(b, np, end) {
                        Some((s, e)) => if e >= np {
                            sp_presence_fields(b, e, end, (s, e, acc.2))
                        } else {
                            None
                        },
                        None => None,
                    }
                }
            } else if f == 2 {
                if wt != 0 {
                    None
                } else {
                    match sp_varint(b, np, end) {
                        Some((v, p2)) => if p2 > np {
                            sp_presence_fields(b, p2, end, (acc.0, acc.1, v))
                        } else {
                            None
                        },
                        None => None,
                    }
                }
            } else {
                match sp_skip(b, wt, np, end) {
                    Some(p2) => if p2 >= np {
                        sp_presence_fields(b, p2, end, acc)
                    } else {
                        None
                    },
                    None => None,
                }
            },
        }
    }
}

/// A block presence from `s` to `e` applied to `mv`: type 0 adds a have, type
/// 1 a don't-have; any other type is refused.
pub open spec fn sp_presence(b: Seq<u8>, s: int, e: int, mv: WireView) -> Option<WireView> {
    match sp_presence_fields(b, s, e, (s, s, 0)) {
        Some((c0, c1, k)) => match cid_read(b.subrange(c0, c1)) {
            Some(cid) => if k as int % 0x1_0000_0000 == 0 {
                Some((mv.0, mv.1, mv.2.insert(cid), mv.3, mv.4))
            } else if k as int % 0x1_0000_0000 == 1 {
                Some((mv.0, mv.1, mv.2, mv.3.insert(cid), mv.4))
            } else {
                None
            },
            None => None,
        },
        None => None,
    }
}

/// The top-level fields of a message from `pos` on, applied to `mv`.
pub open spec fn sp_message(b: Seq<u8>, pos: int, end: int, mv: WireView) -> Option<WireView>
    decreases end - pos,
{
    if pos >= end {
        Some(mv)
    } else {
        match sp_key(b, pos, end) {
            None => None,
            Some((f, wt, np)) => if np <= pos {
                None
            } else if f == 1 || f == 2 || f == 3 || f == 4 {
                if wt != 2 {
                    None
                } else {
                    match sp_len(b, np, end) {
                        Some((s, e)) => if e < np {
                            None
                        } else if f == 1 {
                            match sp_wantlist(b, s, e, mv) {
                                Some(mv2) => sp_message(b, e, end, mv2),
                                None => None,
                            }
                        } else if f == 3 {
                            match sp_block(b, s, e) {
                                Some(blk) => sp_message(b, e, end, (mv.0, mv.1, mv.2, mv.3, mv.4.push(blk))),
                                None => None,
                            }
                        } else if f == 4 {
                            match sp_presence(b, s, e, mv) {
                                Some(mv2) => sp_message(b, e, end, mv2),
                                None => None,
                            }
                        } else {
                            sp_message(b, e, end, mv)
                        },
                        None => None,
                    }
                }
            } else if f == 5 {
                if wt != 0 {
                    None
                } else {
                    match sp_varint(b, np, end) {
                        Some((_, p2)) => if p2 > np {
                            sp_message(b, p2, end, mv)
                        } else {
                            None
                        },
                        None => None,
                    }
                }
            } else {
                match sp_skip(b, wt, np, end) {
                    Some(p2) => if p2 >= np {
                        sp_message(b, p2, end, mv)
                    } else {
                        None
                    },
                    None => None,
                }
            },
        }
    }
}

/// What the wire form `b` decodes to, or `None` where it breaks the grammar:
/// malformed protobuf, a wrong wire type for a known field, an identifier
/// that does not parse, a presence type other than 0 or 1, a malformed
/// prefix, or a prefix and data that build no identifier. The full flag,
/// want types, send-dont-have flags and pending bytes leave no trace.
pub open spec fn wire_decode(b: Seq<u8>) -> Option<WireView> {
    sp_message(b, 0, b.len() as int, empty_view())
}

/// What a message holds, as the decoder sees it.
pub open spec fn wire_view(m: Message) -> WireView {
    (
        m.want_map(),
        m.cancel_set(),
        m.have_set(),
        m.dont_have_set(),
        Seq::new(m.block_seq().len(), |i: int| (m.block_seq()[i].cid@, m.block_seq()[i].data@)),
    )
}

/// Reads a varint at `pos`, within `end`; returns it and the position after it.
fn read_varint(b: &[u8], pos: usize, end: usize) -> (r: Result<(u64, usize), BitswapError>)
    requires
        pos <= end <= b@.len(),
    ensures
        r is Ok <==> sp_varint(b@, pos as int, end as int) is Some,
        r matches Ok((v, np)) ==> sp_varint(b@, pos as int, end as int) == Some((v, np as int)) && pos < np <= end,
        r matches Err(e) ==> e == BitswapError::InvalidData,
        forall|v: u64|
            #![trigger varint(v as nat)]
            pos + varint(v as nat).len() <= end && b@.subrange(pos as int, pos + varint(v as nat).len())
                == varint(v as nat) ==> r == Ok::<(u64, usize), BitswapError>((v, (pos + varint(v as nat).len()) as usize)),
{
    if pos == end {
        return Err(BitswapError::InvalidData);
    }
    let ghost sub = b@.subrange(pos as int, b@.len() as int);
    let blen = b.len();
    let tv = take_varint(b, pos);
    proof {
        assert(blen == b@.len());
        lemma_leb_end_bounds(sub, 0);
    }
    match tv {
        Some((v, left)) => {
            proof {
                assert(leb_read(sub) is Some);
                let (v2, n) = leb_read(sub).unwrap();
                assert(tv == Some((v2, (b@.len() - pos - n) as usize)));
                assert(v2 == v);
                assert(leb_end(sub, 0) == Some(n));
                assert(sub.len() == b@.len() - pos);
                assert(n <= sub.len());
                assert(0 <= b@.len() - pos - n <= usize::MAX);
                assert(left == b@.len() - pos - n);
            }
            let np = b.len() - left;
            if np <= end {
                Ok((v, np))
            } else {
                Err(BitswapError::InvalidData)
            }
        },
        None => {
            proof {
                assert(leb_read(sub) is None);
            }
            Err(BitswapError::InvalidData)
        },
    }
}

/// Reads a field key at `pos`: the field number and the wire type.
fn read_key(b: &[u8], pos: usize, end: usize) -> (r: Result<(u64, u64, usize), BitswapError>)
    requires
        pos <= end <= b@.len(),
    ensures
        r is Ok <==> sp_key(b@, pos as int, end as int) is Some,
        r matches Ok((f, wt, np)) ==> sp_key(b@, pos as int, end as int) == Some((f, wt, np as int))
            && pos < np <= end,
        r matches Err(e) ==> e == BitswapError::InvalidData,
{
    let (key, np) = read_varint(b, pos, end)?;
    if key > 0xffff_ffff {
        return Err(BitswapError::InvalidData);
    }
    let wt = key % 8;
    let f = key / 8;
    if wt > 5 || f == 0 {
        return Err(BitswapError::InvalidData);
    }
    Ok((f, wt, np))
}

/// Reads the length of a length-delimited field at `pos`; returns where its
/// body starts and ends.
fn read_len(b: &[u8], pos: usize, end: usize) -> (r: Result<(usize, usize), BitswapError>)
    requires
        pos <= end <= b@.len(),
    ensures
        r is Ok <==> sp_len(b@, pos as int, end as int) is Some,
        r matches Ok((s, e)) ==> sp_len(b@, pos as int, end as int) == Some((s as int, e as int))
            && pos < s <= e <= end,
        r matches Err(e) ==> e == BitswapError::InvalidData,
{
    let (len, s) = read_varint(b, pos, end)?;
    if len > (end - s) as u64 {
        return Err(BitswapError::InvalidData);
    }
    Ok((s, s + len as usize))
}

/// Skips the body of a field of wire type `wt` at `pos`.
fn skip_field(b: &[u8], wt: u64, pos: usize, end: usize) -> (r: Result<usize, BitswapError>)
    requires
        pos <= end <= b@.len(),
    ensures
        r is Ok <==> sp_skip(b@, wt, pos as int, end as int) is Some,
        r matches Ok(np) ==> sp_skip(b@, wt, pos as int, end as int) == Some(np as int) && pos <= np <= end,
        r matches Err(e) ==> e == BitswapError::InvalidData,
{
    if wt == 0 {
        let (_, np) = read_varint(b, pos, end)?;
        Ok(np)
    } else if wt == 1 {
        if end - pos >= 8 {
            Ok(pos + 8)
        } else {
            Err(BitswapError::InvalidData)
        }
    } else if wt == 2 {
        let (_, e) = read_len(b, pos, end)?;
        Ok(e)
    } else if wt == 5 {
        if end - pos >= 4 {
            Ok(pos + 4)
        } else {
            Err(BitswapError::InvalidData)
        }
    } else {
        Err(BitswapError::InvalidData)
    }
}

/// The bytes of `b` from `s` to `e`.
fn copy_range(b: &[u8], s: usize, e: usize) -> (r: Vec<u8>)
    requires
        s <= e <= b@.len(),
    ensures
        r@ == b@.subrange(s as int, e as int),
{
    let mut r: Vec<u8> = Vec::new();
    let mut i = s;
    while i < e
        invariant
            s <= i <= e <= b@.len(),
            r@ == b@.subrange(s as int, i as int),
        decreases e - i,
    {
        r.push(b[i]);
        proof {
            assert(r@ =~= b@.subrange(s as int, i + 1));
        }
        i = i + 1;
    }
    r
}

/// The `int32` value of a varint.
fn to_int32(v: u64) -> (r: i32)
    ensures
        r == int32_of(v),
{
    let low = v % 0x1_0000_0000;
    if low >= 0x8000_0000 {
        (low as i64 - 0x1_0000_0000) as i32
    } else {
        low as i32
    }
}

/// Reads one wantlist entry into `msg`: a cancel, or a want at its priority.
fn decode_entry(b: &[u8], start: usize, end: usize, msg: &mut Message) -> (r: Result<(), BitswapError>)
    requires
        start <= end <= b@.len(),
        old(msg).wf(),
    ensures
        final(msg).wf(),
        final(msg).full_flag() == old(msg).full_flag(),
        final(msg).block_seq() == old(msg).block_seq(),
        r is Ok <==> sp_entry(b@, start as int, end as int, wire_view(*old(msg))) is Some,
        r is Ok ==> sp_entry(b@, start as int, end as int, wire_view(*old(msg))) == Some(wire_view(*final(msg))),
        r matches Err(e) ==> e == BitswapError::InvalidData,
{
    let ghost bv = b@;
    let mut pos = start;
    let mut cid_range: (usize, usize) = (start, start);
    let mut priority: i32 = 0;
    let mut cancel = false;
    while pos < end
        invariant
            bv == b@,
            start <= pos <= end <= b@.len(),
            cid_range.0 <= cid_range.1 <= end,
            *msg == *old(msg),
            msg.wf(),
            msg.full_flag() == old(msg).full_flag(),
            msg.block_seq() == old(msg).block_seq(),
            sp_entry_fields(bv, pos as int, end as int, (cid_range.0 as int, cid_range.1 as int, priority, cancel))
                == sp_entry_fields(bv, start as int, end as int, (start as int, start as int, 0i32, false)),
        decreases end - pos,
    {
        let (f, wt, np) = read_key(b, pos, end)?;
        if f == 1 {
            if wt != 2 {
                return Err(BitswapError::InvalidData);
            }
            let (s, e) = read_len(b, np, end)?;
            cid_range = (s, e);
            pos = e;
        } else if f == 2 || f == 3 || f == 4 || f == 5 {
            if wt != 0 {
                return Err(BitswapError::InvalidData);
            }
            let (v, p2) = read_varint(b, np, end)?;
            if f == 2 {
                priority = to_int32(v);
            } else if f == 3 {
                cancel = v != 0;
            }
            pos = p2;
        } else {
            pos = skip_field(b, wt, np, end)?;
        }
    }
    let bytes = copy_range(b, cid_range.0, cid_range.1);
    match Cid::from_bytes(bytes.as_slice()) {
        Some(cid) => {
            if cancel {
                msg.cancel_block(&cid);
            } else {
                msg.want_block(&cid, priority);
            }
            Ok(())
        },
        None => Err(BitswapError::InvalidData),
    }
}

/// Reads a wantlist into `msg`. Its full flag is not kept.
fn decode_wantlist(b: &[u8], start: usize, end: usize, msg: &mut Message) -> (r: Result<(), BitswapError>)
    requires
        start <= end <= b@.len(),
        old(msg).wf(),
    ensures
        final(msg).wf(),
        final(msg).full_flag() == old(msg).full_flag(),
        final(msg).block_seq() == old(msg).block_seq(),
        r is Ok <==> sp_wantlist(b@, start as int, end as int, wire_view(*old(msg))) is Some,
        r is Ok ==> sp_wantlist(b@, start as int, end as int, wire_view(*old(msg))) == Some(wire_view(*final(msg))),
        r matches Err(e) ==> e == BitswapError::InvalidData,
{
    let ghost bv = b@;
    let mut pos = start;
    while pos < end
        invariant
            bv == b@,
            start <= pos <= end <= b@.len(),
            msg.wf(),
            msg.full_flag() == old(msg).full_flag(),
            msg.block_seq() == old(msg).block_seq(),
            sp_wantlist(bv, pos as int, end as int, wire_view(*msg)) == sp_wantlist(
                bv,
                start as int,
                end as int,
                wire_view(*old(msg)),
            ),
        decreases end - pos,
    {
        let (f, wt, np) = read_key(b, pos, end)?;
        if f == 1 {
            if wt != 2 {
                return Err(BitswapError::InvalidData);
            }
            let (s, e) = read_len(b, np, end)?;
            decode_entry(b, s, e, msg)?;
            pos = e;
        } else if f == 2 {
            if wt != 0 {
                return Err(BitswapError::InvalidData);
            }
            let (_, p2) = read_varint(b, np, end)?;
            pos = p2;
        } else {
            pos = skip_field(b, wt, np, end)?;
        }
    }
    Ok(())
}

/// Reads a prefix: version, codec, multihash code and multihash length, as
/// four varints; what follows them is ignored.
#[verifier::rlimit(80)]
#[verifier::spinoff_prover]
pub fn decode_prefix(p: &[u8]) -> (r: Result<(u64, u64, u64, u64), BitswapError>)
    ensures
        r is Ok <==> sp_prefix(p@) is Some,
        r matches Ok(x) ==> sp_prefix(p@) == Some(x),
        r matches Err(e) ==> e == BitswapError::InvalidData,
        p@.len() == 0 ==> r is Err,
        forall|v: (u64, u64, u64, u64)|
            #![trigger prefix_bytes(v)]
            p@ == prefix_bytes(v) ==> r == Ok::<(u64, u64, u64, u64), BitswapError>(v),
{
    let end = p.len();
    let ghost pv = p@;
    proof {
        assert forall|v: (u64, u64, u64, u64)| #![trigger prefix_bytes(v)] pv == prefix_bytes(v) implies {
            let l0 = varint(v.0 as nat).len() as int;
            let l1 = varint(v.1 as nat).len() as int;
            let l2 = varint(v.2 as nat).len() as int;
            let l3 = varint(v.3 as nat).len() as int;
            &&& l0 + l1 + l2 + l3 == pv.len()
            &&& pv.subrange(0, l0 as int) == varint(v.0 as nat)
            &&& pv.subrange(l0 as int, l0 + l1) == varint(v.1 as nat)
            &&& pv.subrange(l0 + l1, l0 + l1 + l2) == varint(v.2 as nat)
            &&& pv.subrange(l0 + l1 + l2, l0 + l1 + l2 + l3) == varint(v.3 as nat)
        } by {
            let s0 = varint(v.0 as nat);
            let s1 = varint(v.1 as nat);
            let s2 = varint(v.2 as nat);
            let s3 = varint(v.3 as nat);
            let l0 = s0.len() as int;
            let l1 = s1.len() as int;
            let l2 = s2.len() as int;
            let l3 = s3.len() as int;
            assert(pv.subrange(0, l0) =~= s0);
            assert(pv.subrange(l0, l0 + l1) =~= s1);
            assert(pv.subrange(l0 + l1, l0 + l1 + l2) =~= s2);
            assert(pv.subrange(l0 + l1 + l2, l0 + l1 + l2 + l3) =~= s3);
        }
    }
    let (version, a) = read_varint(p, 0, end)?;
    let (codec, b) = read_varint(p, a, end)?;
    let (mh_type, c) = read_varint(p, b, end)?;
    let (mh_len, _) = read_varint(p, c, end)?;
    Ok((version, codec, mh_type, mh_len))
}

/// Reads a block: its identifier is rebuilt from the prefix and the data.
fn decode_block(b: &[u8], start: usize, end: usize) -> (r: Result<Block, BitswapError>)
    requires
        start <= end <= b@.len(),
    ensures
        r is Ok <==> sp_block(b@, start as int, end as int) is Some,
        r matches Ok(blk) ==> sp_block(b@, start as int, end as int) == Some((blk.cid@, blk.data@)),
        r matches Err(e) ==> e == BitswapError::InvalidData,
{
    let ghost bv = b@;
    let mut pos = start;
    let mut prefix: (usize, usize) = (start, start);
    let mut data: (usize, usize) = (start, start);
    while pos < end
        invariant
            bv == b@,
            start <= pos <= end <= b@.len(),
            prefix.0 <= prefix.1 <= end,
            data.0 <= data.1 <= end,
            sp_block_fields(bv, pos as int, end as int, (prefix.0 as int, prefix.1 as int, data.0 as int, data.1 as int))
                == sp_block_fields(bv, start as int, end as int, (start as int, start as int, start as int, start as int)),
        decreases end - pos,
    {
        let (f, wt, np) = read_key(b, pos, end)?;
        if f == 1 || f == 2 {
            if wt != 2 {
                return Err(BitswapError::InvalidData);
            }
            let (s, e) = read_len(b, np, end)?;
            if f == 1 {
                prefix = (s, e);
            } else {
                data = (s, e);
            }
            pos = e;
        } else {
            pos = skip_field(b, wt, np, end)?;
        }
    }
    let pre = copy_range(b, prefix.0, prefix.1);
    let (version, codec, mh_type, _) = decode_prefix(pre.as_slice())?;
    let bytes = copy_range(b, data.0, data.1);
    match Cid::for_data(version, codec, mh_type, bytes.as_slice()) {
        Some(cid) => Ok(Block::new(cid, bytes)),
        None => Err(BitswapError::InvalidData),
    }
}

/// Reads a block presence into `msg`.
fn decode_presence(b: &[u8], start: usize, end: usize, msg: &mut Message) -> (r: Result<(), BitswapError>)
    requires
        start <= end <= b@.len(),
        old(msg).wf(),
    ensures
        final(msg).wf(),
        final(msg).full_flag() == old(msg).full_flag(),
        final(msg).block_seq() == old(msg).block_seq(),
        r is Ok <==> sp_presence(b@, start as int, end as int, wire_view(*old(msg))) is Some,
        r is Ok ==> sp_presence(b@, start as int, end as int, wire_view(*old(msg))) == Some(wire_view(*final(msg))),
        r matches Err(e) ==> e == BitswapError::InvalidData,
{
    let ghost bv = b@;
    let mut pos = start;
    let mut cid_range: (usize, usize) = (start, start);
    let mut kind: u64 = 0;
    while pos < end
        invariant
            bv == b@,
            start <= pos <= end <= b@.len(),
            cid_range.0 <= cid_range.1 <= end,
            *msg == *old(msg),
            msg.wf(),
            msg.full_flag() == old(msg).full_flag(),
            msg.block_seq() == old(msg).block_seq(),
            sp_presence_fields(bv, pos as int, end as int, (cid_range.0 as int, cid_range.1 as int, kind))
                == sp_presence_fields(bv, start as int, end as int, (start as int, start as int, 0u64)),
        decreases end - pos,
    {
        let (f, wt, np) = read_key(b, pos, end)?;
        if f == 1 {
            if wt != 2 {
                return Err(BitswapError::InvalidData);
            }
            let (s, e) = read_len(b, np, end)?;
            cid_range = (s, e);
            pos = e;
        } else if f == 2 {
            if wt != 0 {
                return Err(BitswapError::InvalidData);
            }
            let (v, p2) = read_varint(b, np, end)?;
            kind = v;
            pos = p2;
        } else {
            pos = skip_field(b, wt, np, end)?;
        }
    }
    let bytes = copy_range(b, cid_range.0, cid_range.1);
    let cid = match Cid::from_bytes(bytes.as_slice()) {
        Some(c) => c,
        None => {
            return Err(BitswapError::InvalidData);
        },
    };
    let kind32 = kind % 0x1_0000_0000;
    if kind32 == 0 {
        msg.have_block(&cid);
        Ok(())
    } else if kind32 == 1 {
        msg.dont_have_block(&cid);
        Ok(())
    } else {
        Err(BitswapError::InvalidData)
    }
}

impl Message {
    /// Reads a message from its wire form: exactly what `wire_decode` gives,
    /// and `InvalidData` where that is `None`.
    pub fn from_bytes(b: &[u8]) -> (r: Result<Message, BitswapError>)
        ensures
            r is Ok <==> wire_decode(b@) is Some,
            r matches Ok(m) ==> wire_decode(b@) == Some(wire_view(m)) && m.wf() && !m.full_flag(),
            r matches Err(e) ==> e == BitswapError::InvalidData,
    {
        let ghost bv = b@;
        let mut msg = Message::new();
        proof {
            assert(wire_view(msg) =~= empty_view());
        }
        let end = b.len();
        let mut pos: usize = 0;
        while pos < end
            invariant
                bv == b@,
                pos <= end == b@.len(),
                msg.wf(),
                !msg.full_flag(),
                sp_message(bv, pos as int, end as int, wire_view(msg)) == wire_decode(bv),
            decreases end - pos,
        {
            let (f, wt, np) = read_key(b, pos, end)?;
            if f == 1 || f == 2 || f == 3 || f == 4 {
                if wt != 2 {
                    return Err(BitswapError::InvalidData);
                }
                let (s, e) = read_len(b, np, end)?;
                if f == 1 {
                    decode_wantlist(b, s, e, &mut msg)?;
                } else if f == 3 {
                    let block = decode_block(b, s, e)?;
                    let ghost before = wire_view(msg);
                    let ghost bk = (block.cid@, block.data@);
                    msg.add_block(block);
                    proof {
                        assert(wire_view(msg) =~= (before.0, before.1, before.2, before.3, before.4.push(bk)));
                    }
                } else if f == 4 {
                    decode_presence(b, s, e, &mut msg)?;
                }
                pos = e;
            } else if f == 5 {
                if wt != 0 {
                    return Err(BitswapError::InvalidData);
                }
                let (_, p2) = read_varint(b, np, end)?;
                pos = p2;
            } else {
                pos = skip_field(b, wt, np, end)?;
            }
        }
        Ok(msg)
    }

    /// The wire form of the message.
    pub fn to_bytes(&self) -> (r: Vec<u8>)
        ensures
            r@ == message_bytes(*self),
    {
        let want = self.want();
        let cancel = self.cancel();
        let blocks = self.blocks();
        let mut wl: Vec<u8> = Vec::new();
        let mut i: usize = 0;
        while i < want.len()
            invariant
                i <= want@.len(),
                wl@ == want_entries_bytes(want@.take(i as int)),
            decreases want@.len() - i,
        {
            let mut e = entry_to_bytes(&want[i].0, want[i].1, false);
            proof {
                assert(want@.take(i + 1).drop_last() =~= want@.take(i as int));
            }
            put_len_field(&mut wl, 1, &mut e);
            i = i + 1;
        }
        proof {
            assert(want@.take(i as int) =~= want@);
        }
        let ghost w = wl@;
        let mut j: usize = 0;
        while j < cancel.len()
            invariant
                j <= cancel@.len(),
                wl@ == w + cancel_entries_bytes(cancel@.take(j as int)),
            decreases cancel@.len() - j,
        {
            let mut e = entry_to_bytes(&cancel[j], 0, true);
            proof {
                assert(cancel@.take(j + 1).drop_last() =~= cancel@.take(j as int));
            }
            put_len_field(&mut wl, 1, &mut e);
            proof {
                assert(wl@ =~= w + cancel_entries_bytes(cancel@.take(j + 1)));
            }
            j = j + 1;
        }
        proof {
            assert(cancel@.take(j as int) =~= cancel@);
        }
        let mut out: Vec<u8> = Vec::new();
        if wl.len() > 0 {
            put_len_field(&mut out, 1, &mut wl);
        }
        let ghost o = out@;
        let mut k: usize = 0;
        while k < blocks.len()
            invariant
                k <= blocks@.len(),
                out@ == o + payload_bytes(blocks@.take(k as int)),
            decreases blocks@.len() - k,
        {
            let mut e = block_to_bytes(&blocks[k]);
            proof {
                assert(blocks@.take(k + 1).drop_last() =~= blocks@.take(k as int));
            }
            put_len_field(&mut out, 3, &mut e);
            proof {
                assert(out@ =~= o + payload_bytes(blocks@.take(k + 1)));
            }
            k = k + 1;
        }
        proof {
            assert(blocks@.take(k as int) =~= blocks@);
            assert(out@ =~= message_bytes(*self));
        }
        out
    }
}

} // verus!

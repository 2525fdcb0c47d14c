//! Small keyed collections held in vectors: maps from identifiers (or peers)
//! to values, with unique keys, and sets of identifiers.
use vstd::prelude::*;
use crate::content_id::Cid;

verus! {

/// No two entries share a key.
pub open spec fn keys_unique<V>(s: Seq<(Cid, V)>) -> bool {
    forall|i: int, j: int|
        0 <= i < s.len() && 0 <= j < s.len() && #[trigger] s[i].0@ == #[trigger] s[j].0@ ==> i == j
}

/// The map that a vector of entries with unique keys stands for.
pub open spec fn map_of<V>(s: Seq<(Cid, V)>) -> Map<Seq<u8>, V> {
    Map::new(
        |k: Seq<u8>| exists|i: int| 0 <= i < s.len() && s[i].0@ == k,
        |k: Seq<u8>| s[choose|i: int| 0 <= i < s.len() && s[i].0@ == k].1,
    )
}

/// No identifier occurs twice.
pub open spec fn cids_unique(s: Seq<Cid>) -> bool {
    forall|i: int, j: int|
        0 <= i < s.len() && 0 <= j < s.len() && #[trigger] s[i]@ == #[trigger] s[j]@ ==> i == j
}

/// The set of identifiers in a vector.
pub open spec fn set_of(s: Seq<Cid>) -> Set<Seq<u8>> {
    Set::new(|k: Seq<u8>| exists|i: int| 0 <= i < s.len() && s[i]@ == k)
}

/// The entry at `i` is what the map holds for its key.
pub proof fn lemma_map_of_at<V>(s: Seq<(Cid, V)>, i: int)
    requires
        keys_unique(s),
        0 <= i < s.len(),
    ensures
        map_of(s).contains_key(s[i].0@),
        map_of(s)[s[i].0@] == s[i].1,
{
    let k = s[i].0@;
    assert(exists|j: int| 0 <= j < s.len() && s[j].0@ == k);
    let j = choose|j: int| 0 <= j < s.len() && s[j].0@ == k;
    assert(s[j].0@ == s[i].0@);
}

/// Two vectors with unique keys whose entries name the same keys with the same
/// values stand for the same map.
pub proof fn lemma_map_of_ext<V>(s: Seq<(Cid, V)>, t: Seq<(Cid, V)>, m: Map<Seq<u8>, V>)
    requires
        keys_unique(s),
        forall|i: int| 0 <= i < s.len() ==> #[trigger] m.contains_key(s[i].0@) && m[s[i].0@] == s[i].1,
        forall|k: Seq<u8>| #[trigger] m.contains_key(k) ==> exists|i: int| 0 <= i < s.len() && s[i].0@ == k,
        t == s,
    ensures
        map_of(t) == m,
{
    assert forall|k: Seq<u8>| #[trigger] map_of(s).contains_key(k) implies m.contains_key(k) && map_of(s)[k] == m[k] by {
        let i = choose|i: int| 0 <= i < s.len() && s[i].0@ == k;
        lemma_map_of_at(s, i);
    }
    assert forall|k: Seq<u8>| #[trigger] m.contains_key(k) implies map_of(s).contains_key(k) by {
        let i = choose|i: int| 0 <= i < s.len() && s[i].0@ == k;
        lemma_map_of_at(s, i);
    }
    assert(map_of(s) =~= m);
}

/// Entries that agree pointwise on keys and values stand for the same map.
pub proof fn lemma_map_of_same<V>(s: Seq<(Cid, V)>, t: Seq<(Cid, V)>)
    requires
        keys_unique(s),
        s.len() == t.len(),
        forall|i: int| 0 <= i < s.len() ==> #[trigger] t[i].0@ == s[i].0@ && t[i].1 == s[i].1,
    ensures
        keys_unique(t),
        map_of(t) == map_of(s),
{
    assert forall|a: int, b: int|
        0 <= a < t.len() && 0 <= b < t.len() && #[trigger] t[a].0@ == #[trigger] t[b].0@ implies a == b by {
        assert(s[a].0@ == s[b].0@);
    }
    assert forall|i: int| 0 <= i < t.len() implies #[trigger] map_of(s).contains_key(t[i].0@)
        && map_of(s)[t[i].0@] == t[i].1 by {
        lemma_map_of_at(s, i);
    }
    assert forall|k: Seq<u8>| #[trigger] map_of(s).contains_key(k) implies exists|i: int|
        0 <= i < t.len() && t[i].0@ == k by {
        let i = choose|i: int| 0 <= i < s.len() && s[i].0@ == k;
        assert(t[i].0@ == k);
    }
    lemma_map_of_ext(t, t, map_of(s));
}

/// Taking one more entry of a vector adds that entry to the map.
pub proof fn lemma_map_of_take<V>(s: Seq<(Cid, V)>, j: int)
    requires
        keys_unique(s),
        0 <= j < s.len(),
    ensures
        keys_unique(s.take(j)),
        keys_unique(s.take(j + 1)),
        map_of(s.take(j + 1)) == map_of(s.take(j)).insert(s[j].0@, s[j].1),
{
    let a = s.take(j);
    let b = s.take(j + 1);
    assert forall|x: int, y: int|
        0 <= x < a.len() && 0 <= y < a.len() && #[trigger] a[x].0@ == #[trigger] a[y].0@ implies x == y by {
        assert(s[x].0@ == s[y].0@);
    }
    assert forall|x: int, y: int|
        0 <= x < b.len() && 0 <= y < b.len() && #[trigger] b[x].0@ == #[trigger] b[y].0@ implies x == y by {
        assert(s[x].0@ == s[y].0@);
    }
    let m = map_of(a).insert(s[j].0@, s[j].1);
    assert forall|i: int| 0 <= i < b.len() implies #[trigger] m.contains_key(b[i].0@) && m[b[i].0@]
        == b[i].1 by {
        if i < j {
            lemma_map_of_at(a, i);
            assert(s[i].0@ != s[j].0@);
        }
    }
    assert forall|k: Seq<u8>| #[trigger] m.contains_key(k) implies exists|i: int|
        0 <= i < b.len() && b[i].0@ == k by {
        if k == s[j].0@ {
            assert(b[j].0@ == k);
        } else {
            let i = choose|i: int| 0 <= i < a.len() && a[i].0@ == k;
            assert(b[i].0@ == k);
        }
    }
    lemma_map_of_ext(b, b, m);
}

/// Taking one more identifier of a vector adds it to the set.
pub proof fn lemma_set_of_take(s: Seq<Cid>, j: int)
    requires
        0 <= j < s.len(),
    ensures
        set_of(s.take(j + 1)) == set_of(s.take(j)).insert(s[j]@),
{
    let a = s.take(j);
    let b = s.take(j + 1);
    assert forall|k: Seq<u8>| #[trigger] set_of(b).contains(k) implies set_of(a).insert(s[j]@).contains(k) by {
        let i = choose|i: int| 0 <= i < b.len() && b[i]@ == k;
        if i < j {
            assert(a[i]@ == k);
        }
    }
    assert forall|k: Seq<u8>| #[trigger] set_of(a).insert(s[j]@).contains(k) implies set_of(b).contains(k) by {
        if k == s[j]@ {
            assert(b[j]@ == k);
        } else {
            let i = choose|i: int| 0 <= i < a.len() && a[i]@ == k;
            assert(b[i]@ == k);
        }
    }
    assert(set_of(b) =~= set_of(a).insert(s[j]@));
}

/// A copy of a vector of entries.
pub fn copy_entries(s: &Vec<(Cid, i32)>) -> (r: Vec<(Cid, i32)>)
    requires
        keys_unique(s@),
    ensures
        keys_unique(r@),
        map_of(r@) == map_of(s@),
        r@.len() == s@.len(),
        forall|i: int| 0 <= i < s@.len() ==> #[trigger] r@[i].0@ == s@[i].0@ && r@[i].1 == s@[i].1,
{
    let mut r: Vec<(Cid, i32)> = Vec::new();
    let mut i: usize = 0;
    while i < s.len()
        invariant
            i <= s@.len(),
            r@.len() == i,
            forall|j: int| 0 <= j < i ==> #[trigger] r@[j].0@ == s@[j].0@ && r@[j].1 == s@[j].1,
        decreases s@.len() - i,
    {
        r.push((s[i].0.duplicate(), s[i].1));
        i = i + 1;
    }
    proof {
        lemma_map_of_same(s@, r@);
    }
    r
}

/// The index of the entry for `c`, if there is one.
pub fn find_entry<V>(s: &Vec<(Cid, V)>, c: &Cid) -> (r: Option<usize>)
    ensures
        match r {
            Some(i) => i < s@.len() && s@[i as int].0@ == c@,
            None => !map_of(s@).contains_key(c@),
        },
{
    let mut i: usize = 0;
    while i < s.len()
        invariant
            i <= s@.len(),
            forall|j: int| 0 <= j < i ==> s@[j].0@ != c@,
        decreases s@.len() - i,
    {
        if s[i].0.same(c) {
            return Some(i);
        }
        i = i + 1;
    }
    None
}

/// Sets the value of `c` to `v`, adding the key where it is missing.
pub fn map_insert<V>(s: &mut Vec<(Cid, V)>, c: Cid, v: V)
    requires
        keys_unique(old(s)@),
    ensures
        keys_unique(final(s)@),
        map_of(final(s)@) == map_of(old(s)@).insert(c@, v),
{
    let ghost s0 = s@;
    let ghost m = map_of(s0).insert(c@, v);
    match find_entry(s, &c) {
        Some(i) => {
            s.set(i, (c, v));
            proof {
                assert forall|j: int| 0 <= j < s@.len() implies #[trigger] m.contains_key(s@[j].0@)
                    && m[s@[j].0@] == s@[j].1 by {
                    if j != i {
                        lemma_map_of_at(s0, j);
                    }
                }
                assert forall|k: Seq<u8>| #[trigger] m.contains_key(k) implies exists|j: int|
                    0 <= j < s@.len() && s@[j].0@ == k by {
                    if k != s@[i as int].0@ {
                        let j = choose|j: int| 0 <= j < s0.len() && s0[j].0@ == k;
                        assert(s@[j].0@ == k);
                    }
                }
                lemma_map_of_ext(s@, s@, m);
            }
        },
        None => {
            s.push((c, v));
            proof {
                assert forall|j: int| 0 <= j < s@.len() implies #[trigger] m.contains_key(s@[j].0@)
                    && m[s@[j].0@] == s@[j].1 by {
                    if j < s0.len() {
                        lemma_map_of_at(s0, j);
                    }
                }
                assert forall|k: Seq<u8>| #[trigger] m.contains_key(k) implies exists|j: int|
                    0 <= j < s@.len() && s@[j].0@ == k by {
                    if k != c@ {
                        let j = choose|j: int| 0 <= j < s0.len() && s0[j].0@ == k;
                        assert(s@[j].0@ == k);
                    } else {
                        assert(s@[s0.len() as int].0@ == k);
                    }
                }
                lemma_map_of_ext(s@, s@, m);
            }
        },
    }
}

/// Removes the entry for `c`, handing back its value.
pub fn map_remove<V>(s: &mut Vec<(Cid, V)>, c: &Cid) -> (r: Option<V>)
    requires
        keys_unique(old(s)@),
    ensures
        keys_unique(final(s)@),
        map_of(final(s)@) == map_of(old(s)@).remove(c@),
        r == (if map_of(old(s)@).contains_key(c@) { Some(map_of(old(s)@)[c@]) } else { None }),
{
    let ghost s0 = s@;
    let ghost m = map_of(s0).remove(c@);
    match find_entry(s, c) {
        Some(i) => {
            proof {
                lemma_map_of_at(s0, i as int);
            }
            let e = s.remove(i);
            proof {
                assert(s@ =~= s0.remove(i as int));
                assert forall|a: int, b: int|
                    0 <= a < s@.len() && 0 <= b < s@.len() && #[trigger] s@[a].0@ == #[trigger] s@[b].0@ implies a == b by {
                    let a0 = if a < i { a } else { a + 1 };
                    let b0 = if b < i { b } else { b + 1 };
                    assert(s0[a0].0@ == s0[b0].0@);
                }
                assert forall|j: int| 0 <= j < s@.len() implies #[trigger] m.contains_key(s@[j].0@)
                    && m[s@[j].0@] == s@[j].1 by {
                    let j0 = if j < i { j } else { j + 1 };
                    lemma_map_of_at(s0, j0);
                    assert(s0[j0].0@ != c@);
                }
                assert forall|k: Seq<u8>| #[trigger] m.contains_key(k) implies exists|j: int|
                    0 <= j < s@.len() && s@[j].0@ == k by {
                    let j0 = choose|j: int| 0 <= j < s0.len() && s0[j].0@ == k;
                    if j0 < i {
                        assert(s@[j0].0@ == k);
                    } else {
                        assert(j0 != i);
                        assert(s@[j0 - 1].0@ == k);
                    }
                }
                lemma_map_of_ext(s@, s@, m);
            }
            Some(e.1)
        },
        None => {
            proof {
                assert(map_of(s0) =~= m);
            }
            None
        },
    }
}

/// Whether `c` is in the set.
pub fn set_contains(s: &Vec<Cid>, c: &Cid) -> (r: bool)
    ensures
        r == set_of(s@).contains(c@),
{
    let mut i: usize = 0;
    while i < s.len()
        invariant
            i <= s@.len(),
            forall|j: int| 0 <= j < i ==> s@[j]@ != c@,
        decreases s@.len() - i,
    {
        if s[i].same(c) {
            return true;
        }
        i = i + 1;
    }
    false
}

/// Adds `c` to the set.
pub fn set_insert(s: &mut Vec<Cid>, c: Cid)
    requires
        cids_unique(old(s)@),
    ensures
        cids_unique(final(s)@),
        set_of(final(s)@) == set_of(old(s)@).insert(c@),
{
    let ghost s0 = s@;
    if !set_contains(s, &c) {
        s.push(c);
        proof {
            assert forall|k: Seq<u8>| #[trigger] set_of(s0).insert(c@).contains(k) implies set_of(s@).contains(k) by {
                if k == c@ {
                    assert(s@[s0.len() as int]@ == k);
                } else {
                    let j = choose|j: int| 0 <= j < s0.len() && s0[j]@ == k;
                    assert(s@[j]@ == k);
                }
            }
            assert forall|k: Seq<u8>| #[trigger] set_of(s@).contains(k) implies set_of(s0).insert(c@).contains(k) by {
                let j = choose|j: int| 0 <= j < s@.len() && s@[j]@ == k;
                if j < s0.len() {
                    assert(s0[j]@ == k);
                }
            }
            assert(set_of(s@) =~= set_of(s0).insert(c@));
        }
    } else {
        proof {
            assert(set_of(s0).insert(c@) =~= set_of(s0));
        }
    }
}

/// No two entries share a peer.
pub open spec fn peers_unique<V>(s: Seq<(u64, V)>) -> bool {
    forall|i: int, j: int|
        0 <= i < s.len() && 0 <= j < s.len() && #[trigger] s[i].0 == #[trigger] s[j].0 ==> i == j
}

/// The map that a vector of entries with unique peers stands for.
pub open spec fn peer_map_of<V>(s: Seq<(u64, V)>) -> Map<u64, V> {
    Map::new(
        |k: u64| exists|i: int| 0 <= i < s.len() && s[i].0 == k,
        |k: u64| s[choose|i: int| 0 <= i < s.len() && s[i].0 == k].1,
    )
}

/// The entry at `i` is what the map holds for its peer.
pub proof fn lemma_peer_map_of_at<V>(s: Seq<(u64, V)>, i: int)
    requires
        peers_unique(s),
        0 <= i < s.len(),
    ensures
        peer_map_of(s).contains_key(s[i].0),
        peer_map_of(s)[s[i].0] == s[i].1,
{
    let k = s[i].0;
    assert(exists|j: int| 0 <= j < s.len() && s[j].0 == k);
    let j = choose|j: int| 0 <= j < s.len() && s[j].0 == k;
    assert(s[j].0 == s[i].0);
}

/// A key of the map has an entry.
pub proof fn lemma_peer_map_of_key<V>(s: Seq<(u64, V)>, k: u64) -> (i: int)
    requires
        peers_unique(s),
        peer_map_of(s).contains_key(k),
    ensures
        0 <= i < s.len(),
        s[i].0 == k,
        peer_map_of(s)[k] == s[i].1,
{
    let i = choose|i: int| 0 <= i < s.len() && s[i].0 == k;
    lemma_peer_map_of_at(s, i);
    i
}

/// Two vectors with unique peers, one the other with values changed in place,
/// stand for maps with the same keys.
pub proof fn lemma_peer_map_of_ext<V>(s: Seq<(u64, V)>, m: Map<u64, V>)
    requires
        peers_unique(s),
        forall|i: int| 0 <= i < s.len() ==> #[trigger] m.contains_key(s[i].0) && m[s[i].0] == s[i].1,
        forall|k: u64| #[trigger] m.contains_key(k) ==> exists|i: int| 0 <= i < s.len() && s[i].0 == k,
    ensures
        peer_map_of(s) == m,
{
    assert forall|k: u64| #[trigger] peer_map_of(s).contains_key(k) implies m.contains_key(k)
        && peer_map_of(s)[k] == m[k] by {
        let i = choose|i: int| 0 <= i < s.len() && s[i].0 == k;
        lemma_peer_map_of_at(s, i);
    }
    assert forall|k: u64| #[trigger] m.contains_key(k) implies peer_map_of(s).contains_key(k) by {
        let i = choose|i: int| 0 <= i < s.len() && s[i].0 == k;
        lemma_peer_map_of_at(s, i);
    }
    assert(peer_map_of(s) =~= m);
}

/// Changing the value at one index changes the map at that index's peer.
pub proof fn lemma_peer_update<V>(s: Seq<(u64, V)>, i: int, v: V)
    requires
        peers_unique(s),
        0 <= i < s.len(),
    ensures
        peers_unique(s.update(i, (s[i].0, v))),
        peer_map_of(s.update(i, (s[i].0, v))) == peer_map_of(s).insert(s[i].0, v),
{
    let t = s.update(i, (s[i].0, v));
    let m = peer_map_of(s).insert(s[i].0, v);
    assert forall|a: int, b: int|
        0 <= a < t.len() && 0 <= b < t.len() && #[trigger] t[a].0 == #[trigger] t[b].0 implies a == b by {
        assert(s[a].0 == s[b].0);
    }
    assert forall|j: int| 0 <= j < t.len() implies #[trigger] m.contains_key(t[j].0) && m[t[j].0] == t[j].1 by {
        if j != i {
            lemma_peer_map_of_at(s, j);
        }
    }
    assert forall|k: u64| #[trigger] m.contains_key(k) implies exists|j: int| 0 <= j < t.len() && t[j].0 == k by {
        if k == s[i].0 {
            assert(t[i].0 == k);
        } else {
            let j = choose|j: int| 0 <= j < s.len() && s[j].0 == k;
            assert(t[j].0 == k);
        }
    }
    lemma_peer_map_of_ext(t, m);
}

/// The index of the entry for peer `p`, if there is one.
pub fn find_peer<V>(s: &Vec<(u64, V)>, p: u64) -> (r: Option<usize>)
    ensures
        match r {
            Some(i) => i < s@.len() && s@[i as int].0 == p,
            None => !peer_map_of(s@).contains_key(p),
        },
{
    let mut i: usize = 0;
    while i < s.len()
        invariant
            i <= s@.len(),
            forall|j: int| 0 <= j < i ==> s@[j].0 != p,
        decreases s@.len() - i,
    {
        if s[i].0 == p {
            return Some(i);
        }
        i = i + 1;
    }
    None
}

/// Sets the value of peer `p` to `v`, adding the peer where it is missing.
pub fn peer_insert<V>(s: &mut Vec<(u64, V)>, p: u64, v: V)
    requires
        peers_unique(old(s)@),
    ensures
        peers_unique(final(s)@),
        peer_map_of(final(s)@) == peer_map_of(old(s)@).insert(p, v),
{
    let ghost s0 = s@;
    let ghost m = peer_map_of(s0).insert(p, v);
    match find_peer(s, p) {
        Some(i) => {
            s.set(i, (p, v));
            proof {
                assert forall|j: int| 0 <= j < s@.len() implies #[trigger] m.contains_key(s@[j].0)
                    && m[s@[j].0] == s@[j].1 by {
                    if j != i {
                        lemma_peer_map_of_at(s0, j);
                    }
                }
                assert forall|k: u64| #[trigger] m.contains_key(k) implies exists|j: int|
                    0 <= j < s@.len() && s@[j].0 == k by {
                    if k != p {
                        let j = choose|j: int| 0 <= j < s0.len() && s0[j].0 == k;
                        assert(s@[j].0 == k);
                    } else {
                        assert(s@[i as int].0 == k);
                    }
                }
                lemma_peer_map_of_ext(s@, m);
            }
        },
        None => {
            s.push((p, v));
            proof {
                assert forall|j: int| 0 <= j < s@.len() implies #[trigger] m.contains_key(s@[j].0)
                    && m[s@[j].0] == s@[j].1 by {
                    if j < s0.len() {
                        lemma_peer_map_of_at(s0, j);
                    }
                }
                assert forall|k: u64| #[trigger] m.contains_key(k) implies exists|j: int|
                    0 <= j < s@.len() && s@[j].0 == k by {
                    if k != p {
                        let j = choose|j: int| 0 <= j < s0.len() && s0[j].0 == k;
                        assert(s@[j].0 == k);
                    } else {
                        assert(s@[s0.len() as int].0 == k);
                    }
                }
                lemma_peer_map_of_ext(s@, m);
            }
        },
    }
}

/// Removes the entry for peer `p`.
pub fn peer_remove<V>(s: &mut Vec<(u64, V)>, p: u64)
    requires
        peers_unique(old(s)@),
    ensures
        peers_unique(final(s)@),
        peer_map_of(final(s)@) == peer_map_of(old(s)@).remove(p),
{
    let ghost s0 = s@;
    let ghost m = peer_map_of(s0).remove(p);
    match find_peer(s, p) {
        Some(i) => {
            let _ = s.remove(i);
            proof {
                assert(s@ =~= s0.remove(i as int));
                assert forall|a: int, b: int|
                    0 <= a < s@.len() && 0 <= b < s@.len() && #[trigger] s@[a].0 == #[trigger] s@[b].0 implies a == b by {
                    let a0 = if a < i { a } else { a + 1 };
                    let b0 = if b < i { b } else { b + 1 };
                    assert(s0[a0].0 == s0[b0].0);
                }
                assert forall|j: int| 0 <= j < s@.len() implies #[trigger] m.contains_key(s@[j].0)
                    && m[s@[j].0] == s@[j].1 by {
                    let j0 = if j < i { j } else { j + 1 };
                    lemma_peer_map_of_at(s0, j0);
                    assert(s0[j0].0 != p);
                }
                assert forall|k: u64| #[trigger] m.contains_key(k) implies exists|j: int|
                    0 <= j < s@.len() && s@[j].0 == k by {
                    let j0 = choose|j: int| 0 <= j < s0.len() && s0[j].0 == k;
                    if j0 < i {
                        assert(s@[j0].0 == k);
                    } else {
                        assert(j0 != i);
                        assert(s@[j0 - 1].0 == k);
                    }
                }
                lemma_peer_map_of_ext(s@, m);
            }
        },
        None => {
            proof {
                assert(peer_map_of(s0) =~= m);
            }
        },
    }
}

} // verus!


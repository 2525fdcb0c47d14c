use vstd::prelude::*;
use ::cid::multihash::MultihashDigest;

verus! {

/// What `Cid::try_from(bytes)` followed by `to_bytes()` gives: the canonical
/// byte form of the identifier that `bytes` starts with, or `None` where
/// `bytes` does not start with a valid identifier.
pub uninterp spec fn cid_canonical(b: Seq<u8>) -> Option<Seq<u8>>;

/// The identifier that `b` starts with, where its canonical form reads back
/// as itself.
pub open spec fn cid_read(b: Seq<u8>) -> Option<Seq<u8>> {
    match cid_canonical(b) {
        Some(c) => if cid_canonical(c) == Some(c) { Some(c) } else { None },
        None => None,
    }
}

/// The prefix (version, codec, multihash code, multihash length) of the
/// identifier that `b` starts with.
pub uninterp spec fn cid_prefix(b: Seq<u8>) -> Option<(u64, u64, u64, u64)>;

/// The canonical bytes of the identifier of `data` under the given version,
/// codec and multihash code.
pub uninterp spec fn cid_for_data(version: u64, codec: u64, mh_type: u64, data: Seq<u8>) -> Option<
    Seq<u8>,
>;

/// Relies on `cid::Cid::try_from(&[u8])` and `Cid::to_bytes`: parses an
/// identifier and writes it back in canonical form.
#[verifier::external_body]
fn parse_canonical(b: &[u8]) -> (r: Option<Vec<u8>>)
    ensures
        r is Some <==> cid_canonical(b@) is Some,
        r matches Some(c) ==> cid_canonical(b@) == Some(c@),
{
    ::cid::Cid::try_from(b).ok().map(|c| c.to_bytes())
}


/// Relies on `cid::Cid::try_from(&[u8])` and the accessors `version`, `codec`,
/// `hash().code()` and `hash().size()`: the prefix of a parsed identifier.
#[verifier::external_body]
fn parse_prefix(b: &[u8]) -> (r: Option<(u64, u64, u64, u64)>)
    ensures
        r == cid_prefix(b@),
        r is Some <==> cid_canonical(b@) is Some,
{
    ::cid::Cid::try_from(b).ok().map(
        |c| (u64::from(c.version()), c.codec(), c.hash().code(), c.hash().size() as u64),
    )
}

/// Relies on `cid::Version::try_from`, `multihash::Code::try_from`,
/// `MultihashDigest::digest`, `cid::Cid::new` and `Cid::to_bytes`: hashes
/// `data` and assembles the identifier; a built identifier reads back as
/// itself.
#[verifier::external_body]
fn build_for_data(version: u64, codec: u64, mh_type: u64, data: &[u8]) -> (r: Option<Vec<u8>>)
    ensures
        r is Some <==> cid_for_data(version, codec, mh_type, data@) is Some,
        r matches Some(c) ==> cid_for_data(version, codec, mh_type, data@) == Some(c@)
            && cid_canonical(c@) == Some(c@),
{
    let v = ::cid::Version::try_from(version).ok()?;
    let code = ::cid::multihash::Code::try_from(mh_type).ok()?;
    ::cid::Cid::new(v, codec, code.digest(data)).ok().map(|c| c.to_bytes())
}

/// A content identifier, held in its canonical byte form.
#[derive(Debug)]
pub struct Cid {
    bytes: Vec<u8>,
}

impl View for Cid {
    type V = Seq<u8>;

    closed spec fn view(&self) -> Seq<u8> {
        self.bytes@
    }
}

impl Cid {
    #[verifier::type_invariant]
    spec fn canonical(self) -> bool {
        cid_canonical(self.bytes@) == Some(self.bytes@)
    }

    /// Parses an identifier from the start of `b`. An identifier whose
    /// canonical form does not read back as itself is refused.
    pub fn from_bytes(b: &[u8]) -> (r: Option<Cid>)
        ensures
            r is Some <==> cid_read(b@) is Some,
            r matches Some(c) ==> cid_read(b@) == Some(c@),
    {
        match parse_canonical(b) {
            Some(bytes) => match parse_canonical(bytes.as_slice()) {
                Some(again) => {
                    if again == bytes {
                        proof {
                            assert(again@ =~= bytes@);
                        }
                        Some(Cid { bytes })
                    } else {
                        proof {
                            if again@ == bytes@ {
                                assert(again@ =~= bytes@);
                            }
                        }
                        None
                    }
                },
                None => None,
            },
            None => None,
        }
    }

    /// Builds the identifier of `data` from a prefix.
    pub fn for_data(version: u64, codec: u64, mh_type: u64, data: &[u8]) -> (r: Option<Cid>)
        ensures
            r is Some <==> cid_for_data(version, codec, mh_type, data@) is Some,
            r matches Some(c) ==> cid_for_data(version, codec, mh_type, data@) == Some(c@),
    {
        match build_for_data(version, codec, mh_type, data) {
            Some(bytes) => Some(Cid { bytes }),
            None => None,
        }
    }

    /// The canonical byte form.
    pub fn to_bytes(&self) -> (r: Vec<u8>)
        ensures
            r@ == self@,
            cid_canonical(r@) == Some(r@),
    {
        proof {
            use_type_invariant(self);
        }
        let r = self.bytes.clone();
        proof {
            assert(r@ =~= self.bytes@);
        }
        r
    }

    /// The prefix: version, codec, multihash code and multihash length.
    pub fn prefix(&self) -> (r: (u64, u64, u64, u64))
        ensures
            cid_prefix(self@) == Some(r),
    {
        proof {
            use_type_invariant(self);
        }
        let p = parse_prefix(self.bytes.as_slice());
        p.unwrap()
    }

    /// Equality of identifiers is equality of their canonical bytes.
    pub fn same(&self, other: &Cid) -> (r: bool)
        ensures
            r == (self@ == other@),
    {
        let r = self.bytes == other.bytes;
        proof {
            if r {
                assert(self.bytes@ =~= other.bytes@);
            }
        }
        r
    }

    /// A copy of this identifier.
    pub fn duplicate(&self) -> (r: Cid)
        ensures
            r@ == self@,
    {
        proof {
            use_type_invariant(self);
        }
        let bytes = self.bytes.clone();
        proof {
            assert(bytes@ =~= self.bytes@);
        }
        Cid { bytes }
    }
}

/// A block: a content identifier and the bytes it names.
#[derive(Debug)]
pub struct Block {
    pub cid: Cid,
    pub data: Vec<u8>,
}

impl Block {
    pub fn new(cid: Cid, data: Vec<u8>) -> (r: Block)
        ensures
            r.cid@ == cid@,
            r.data@ == data@,
    {
        Block { cid, data }
    }

    /// The identifier of the block.
    pub fn cid(&self) -> (r: &Cid)
        ensures
            r@ == self.cid@,
    {
        &self.cid
    }

    /// The bytes of the block.
    pub fn data(&self) -> (r: &[u8])
        ensures
            r@ == self.data@,
    {
        self.data.as_slice()
    }

    /// A copy of this block.
    pub fn duplicate(&self) -> (r: Block)
        ensures
            r.cid@ == self.cid@,
            r.data@ == self.data@,
    {
        let data = self.data.clone();
        proof {
            assert(data@ =~= self.data@);
        }
        Block { cid: self.cid.duplicate(), data }
    }
}

} // verus!

//! A description of an active connection.
use vstd::prelude::*;
use std::time::Duration;
use crate::engine::PeerId;

verus! {

/// An address together with the peer reached at it.
#[derive(Clone, Debug, PartialEq, Eq)]
pub struct MultiaddrWithPeerId {
    /// The address, in its byte form.
    pub multiaddr: Vec<u8>,
    /// The peer.
    pub peer_id: PeerId,
}

/// A description of a currently active connection.
#[derive(Clone, Debug, PartialEq, Eq)]
pub struct Connection {
    /// The connected peer along with its address.
    pub addr: MultiaddrWithPeerId,
    /// Latest ping report on any of the connections.
    pub rtt: Option<Duration>,
}

} // verus!

//! A block-exchange protocol engine: content-addressed blocks are asked for,
//! served and delivered over a set of peer connections.
//!
//! The engine is a state machine: every function takes the current state and
//! an event and returns what the caller has to do next (send a message, look
//! blocks up, deliver a block to waiters, store a block).
pub mod content_id;
pub mod keyed;
pub mod ledger;
pub mod codec;
pub mod stats;
pub mod engine;
pub mod swarm;

pub use content_id::{Block, Cid};
pub use ledger::{Ledger, Message, Priority};
pub use codec::BitswapError;
pub use stats::Stats;
pub use engine::{Bitswap, Incoming, PeerId, ProtocolEvent, ReceivedBlock};
pub use swarm::{Connection, MultiaddrWithPeerId};

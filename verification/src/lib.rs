//! A message-oriented transport protocol layered over a reliable byte
//! stream: peer identities, multiplexed streams with per-stream delivery
//! promises, message fragmentation and reassembly, and priority-based
//! frame scheduling.

use vstd::prelude::*;

pub mod channel;
pub mod error;
pub mod frame;
pub mod handshake;
pub mod multiplex;
pub mod promises;
pub mod scheduler;
pub mod store;
pub mod types;
pub mod wire;

verus! {

/// Identifier of one application-level message within a stream.
pub type Mid = u64;

/// Identifier of one physical connection (channel) between two participants.
pub type Cid = u64;

/// Priority of a stream; lower numbers are served first.
pub type Prio = u8;

} // verus!

//! Peer-to-peer network synchronization core for a small multiplayer arena
//! game: a wire codec with size-adaptive compression, a peer session manager
//! with host/client role determination, a per-tick event bus, and a state
//! synchronizer that applies remote full-state updates to local entity pools.
//!
//! The host engine (rendering, input, transport I/O) is an external
//! collaborator: it hands this crate peer transitions and received byte
//! packets each tick and carries the returned broadcast bytes to the peers.

pub mod bus;
pub mod codec;
pub mod packet;
pub mod session;
pub mod sync;

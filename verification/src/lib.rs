//! Core of a tick-synchronized multiplayer world server.
//!
//! The crate covers the pieces that share one hard constraint, the fixed
//! global tick, and one hard performance constraint, near-zero per-event
//! allocation:
//!
//! * a frame decoder that turns an append-only byte stream into discrete,
//!   validated protocol frames,
//! * an outbound byte buffer that may be pinned by kernel I/O and therefore
//!   grows through a staging copy,
//! * a fixed-capacity event queue and per-worker accumulators that are filled
//!   during a tick and drained at its boundary,
//! * a per-connection chunk-streaming scheduler that sends the nearest
//!   pending chunks first under a fixed per-tick budget.

pub mod buffer;
pub mod byteseq;
pub mod chunk_comm;
pub mod decoder;
pub mod event_queue;
pub mod net;
pub mod ore;
pub mod sim;
pub mod skin;
pub mod thread_local;
pub mod varint;

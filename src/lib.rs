//! Core of an obfuscated, FEC-protected, multiplexed datagram transport: packet buffers,
//! shard framing for the erasure coder, replay filtering, loss counting, the per-stream
//! inflight tracker and reorder buffer, pacing, dejittering, the listener's session table
//! and the client's worker-outlier rounds. Everything here is verified except a few thin
//! wrappers over `rand`, `blake3` and `Arc::clone`, whose contracts are trusted. Clocks are
//! passed in as microseconds, and I/O happens in the callers.

pub mod buffer;
pub mod client;
pub mod congestion;
pub mod connvars;
pub mod dejitter;
pub mod fec;
pub mod recent;
pub mod inflight;
pub mod oob;
pub mod outlier;
pub mod minqueue;
pub mod mux;
pub mod pacer;
pub mod protocol;
pub mod reorder;
pub mod replay;
pub mod rloss;
pub mod rtt;
mod rng;
pub mod session;
pub mod sniff;
pub mod stream;
pub mod table;

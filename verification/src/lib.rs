//! Core engine of a WebSocket inspection server.
//!
//! The crate models the server's lifecycle, its registry of live client
//! connections, and the command surface a controller uses (check an address,
//! start, stop, send a text frame, force-close a client).  All decisions are
//! made here and verified; the surrounding process performs the actual
//! network I/O and feeds the resulting events back in.

pub mod address;
pub mod engine;
pub mod error;
pub mod laws;
pub mod messages;
pub mod model;

//! Core logic of a line-based chat service: room registry, membership,
//! per-room fanout with bounded drop-oldest buffers, and the per-connection
//! command dispatcher.  All protocol decisions live here; the surrounding
//! process only moves lines between sockets and these functions.

pub mod ids;
pub mod model;
pub mod relay;
pub mod session;
pub mod text;

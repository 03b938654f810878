//! A single-producer broadcast ring that carries variable-sized framed
//! messages through a byte region. A transmitter appends records into a
//! power-of-two-sized circular data area; receivers follow the stream through
//! three monotone counters, detect when they have been lapped, and
//! resynchronize to the newest committed record.

pub mod broadcast;
pub mod bytes;
pub mod laws;

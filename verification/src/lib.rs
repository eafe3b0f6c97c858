//! A point-to-point tunnel engine for satellite links.
//!
//! Frames taken from a virtual interface are split into fragments that fit one
//! datagram each, carried to the peer, and put together again there. This
//! crate holds everything that decides and computes: the frame check
//! sequence, the layout of a fragment, the buffer pool, the two state
//! machines, and the steps of both directions of the tunnel.

pub mod crc;
pub mod label;
pub mod frame;
pub mod pool;
pub mod encap;
pub mod decap;
pub mod tunnel;
pub mod laws;
pub mod cli;

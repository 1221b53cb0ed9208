//! Packet-level forward error correction for lossy datagram transports.
//!
//! Application datagrams are framed as fixed-size symbols, grouped, and
//! protected by Reed-Solomon parity symbols over GF(2^8).  The decoder keeps a
//! bounded sliding window of groups and reconstructs lost datagrams as soon as
//! a parity symbol makes a group decodable.

pub mod de;
pub mod en;
pub mod proto;
pub mod rs;

//! Wire-format layer of a peer-to-peer VPN overlay.
//!
//! Two independent components share this crate: a control-message codec
//! that serializes and parses `NodeInfo` (peer lists, claimed address
//! ranges, an optional timeout hint) in an extensible tagged-field format,
//! and a payload dissector that recovers source and destination addresses
//! from raw tunneled Ethernet frames and IP packets.

pub mod messages;
pub mod payload;
pub mod types;
pub mod util;

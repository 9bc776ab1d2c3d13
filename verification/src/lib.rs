//! A small reliable-message layer over datagrams: messages are cut into
//! fragments, framed into big-endian packets, reassembled by the receiver
//! and acknowledged.

pub mod addr_server;
pub mod app;
pub mod bichannel;
pub mod clock;
pub mod connection;
pub mod digest;
pub mod enode;
pub mod message;
pub mod messagecacher;
pub mod net;
pub mod node;
pub mod node_shell;
pub mod packet;
pub mod pieces;
pub mod show_message;
pub mod stats;
pub mod test;
pub mod transfer;
pub mod utility;
pub mod worker;

use vstd::prelude::*;

verus! {

/// Marker of an exchange between two nodes.
pub struct Exch;

} // verus!

//! The message layer that a node runs per peer.

pub mod messagecacher;

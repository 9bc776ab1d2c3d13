//! Message building for the load-test client.

pub mod client;

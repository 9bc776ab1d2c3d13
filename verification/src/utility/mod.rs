//! Small containers.

pub mod buffer;

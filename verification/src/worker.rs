//! Where a job comes from.

use vstd::prelude::*;

verus! {

/// The origin of a message handled by a worker.
pub enum Source {
    Local,
    Peer,
}

} // verus!

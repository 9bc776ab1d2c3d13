//! The decisions of a node's polling loop.

use vstd::prelude::*;

use crate::connection::TrySendResult;

verus! {

/// A message cannot be queued now.
pub enum SendError {
    Block,
}

/// A connection to that peer exists already.
pub enum ConnectError {
    AllReadyExist,
}

/// What handling a node event gave.
pub enum HandleNodeEventResult {
    Block,
    Exit,
}

/// What one receive attempt gave.
pub enum NodeReceiveResult {
    Received,
    Block,
}

/// Rounds that the loop keeps spinning after the last packet arrived.
pub const SPIN_ROUNDS: usize = 1000;

/// The rest of one polling round: the spin counter after it, and whether
/// the loop should sleep. A packet restarts the spin counter; without one
/// a running counter counts down and keeps the loop awake.
pub open spec fn poll_round(block_count: usize, had_event: bool, had_packet: bool, any_active: bool) -> (usize, bool) {
    if had_packet {
        (SPIN_ROUNDS, false)
    } else if block_count > 0 {
        ((block_count - 1) as usize, false)
    } else {
        (block_count, !had_event && !any_active)
    }
}

/// Decides the end of one polling round: `had_event` when a local event was
/// handled, `had_packet` when a packet was received, `any_active` when some
/// connection had a message on its way.
pub fn next_poll(block_count: usize, had_event: bool, had_packet: bool, any_active: bool) -> (res: (
    usize,
    bool,
))
    ensures
        res == poll_round(block_count, had_event, had_packet, any_active),
        had_packet ==> res == (SPIN_ROUNDS, false),
{
    let mut idle = true;
    let mut count = block_count;
    if had_event {
        idle = false;
    }
    if had_packet {
        idle = false;
        count = SPIN_ROUNDS;
    } else if count > 0 {
        count = count - 1;
        idle = false;
    }
    if any_active {
        idle = false;
    }
    (count, idle)
}

/// The spin counter `k` quiet rounds (no event, no packet, nothing being
/// sent) after a packet arrived.
pub open spec fn spin_after(k: nat) -> usize
    decreases k,
{
    if k == 0 {
        poll_round(0, false, true, false).0
    } else {
        poll_round(spin_after((k - 1) as nat), false, false, false).0
    }
}

/// A packet keeps the loop awake: the `SPIN_ROUNDS` quiet rounds that follow
/// it do not sleep, and the counter runs down by one each round.
pub proof fn lemma_spin(k: nat)
    requires
        k <= SPIN_ROUNDS,
    ensures
        spin_after(k) == SPIN_ROUNDS - k,
        k < SPIN_ROUNDS ==> !poll_round(spin_after(k), false, false, false).1,
    decreases k,
{
    if k > 0 {
        lemma_spin((k - 1) as nat);
    }
}

/// Every round with a packet restarts the spin counter at `SPIN_ROUNDS`
/// and keeps the loop awake, whatever the counter was; a round without one
/// never raises the counter, and a running counter only counts down.
pub proof fn lemma_packet_restarts_spin(block_count: usize, had_event: bool, any_active: bool)
    ensures
        poll_round(block_count, had_event, true, any_active) == (SPIN_ROUNDS, false),
        poll_round(block_count, had_event, false, any_active).0 <= block_count,
        block_count > 0 ==> poll_round(block_count, had_event, false, any_active) == (
            (block_count - 1) as usize,
            false,
        ),
{
}

/// Whether a sending round left the node idle: no connection at all, or one
/// of them with nothing to send.
pub fn start_send_idle(results: &Vec<TrySendResult>) -> (res: bool)
    ensures
        res == (results@.len() == 0 || exists|i: int| 0 <= i < results@.len() && #[trigger] results@[i] is Empty),
{
    let mut is_idle = results.len() == 0;
    let mut i: usize = 0;
    while i < results.len()
        invariant
            i <= results@.len(),
            is_idle == (results@.len() == 0 || exists|j: int| 0 <= j < i && #[trigger] results@[j] is Empty),
        decreases results@.len() - i,
    {
        match results[i] {
            TrySendResult::Empty => {
                is_idle = true;
            },
            _ => {},
        }
        i = i + 1;
    }
    is_idle
}

} // verus!

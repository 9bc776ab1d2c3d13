//! Counters of the messages sent and received over one connection.

use vstd::prelude::*;

use crate::clock::precise_now;

verus! {

/// Totals, and counts since the last rate report.
pub struct Stats {
    pub receive_count: usize,
    pub send_count: usize,
    pub receive_count_for_rate: usize,
    pub send_count_for_rate: usize,
    /// When the last rate report was made, in `precise_now` time.
    pub start: u64,
}

impl Stats {
    /// All counters at zero.
    pub fn new() -> (res: Stats)
        ensures
            res.receive_count == 0,
            res.send_count == 0,
            res.receive_count_for_rate == 0,
            res.send_count_for_rate == 0,
    {
        Stats {
            receive_count: 0,
            send_count: 0,
            start: precise_now(),
            receive_count_for_rate: 0,
            send_count_for_rate: 0,
        }
    }

    /// Counts one message received.
    pub fn receive_increase(&mut self)
        requires
            old(self).receive_count < usize::MAX,
            old(self).receive_count_for_rate < usize::MAX,
        ensures
            *final(self) == (Stats {
                receive_count: (old(self).receive_count + 1) as usize,
                receive_count_for_rate: (old(self).receive_count_for_rate + 1) as usize,
                ..*old(self)
            }),
    {
        self.receive_count = self.receive_count + 1;
        self.receive_count_for_rate = self.receive_count_for_rate + 1;
    }

    /// Counts one message sent.
    pub fn send_increase(&mut self)
        requires
            old(self).send_count < usize::MAX,
            old(self).send_count_for_rate < usize::MAX,
        ensures
            *final(self) == (Stats {
                send_count: (old(self).send_count + 1) as usize,
                send_count_for_rate: (old(self).send_count_for_rate + 1) as usize,
                ..*old(self)
            }),
    {
        self.send_count = self.send_count + 1;
        self.send_count_for_rate = self.send_count_for_rate + 1;
    }

    /// Messages received in all.
    pub fn get_receive_count(&self) -> (res: usize)
        ensures
            res == self.receive_count,
    {
        self.receive_count
    }

    /// Messages sent in all.
    pub fn get_send_count(&self) -> (res: usize)
        ensures
            res == self.send_count,
    {
        self.send_count
    }

    /// Ends a reporting period of `duration` seconds: returns the send and
    /// receive rates per second and starts counting anew.
    pub fn show(&mut self, duration: usize) -> (res: (usize, usize))
        requires
            duration > 0,
        ensures
            res == ((old(self).send_count_for_rate / duration) as usize, (old(self).receive_count_for_rate
                / duration) as usize),
            final(self).receive_count == old(self).receive_count,
            final(self).send_count == old(self).send_count,
            final(self).receive_count_for_rate == 0,
            final(self).send_count_for_rate == 0,
    {
        let rates = (self.send_count_for_rate / duration, self.receive_count_for_rate / duration);
        self.receive_count_for_rate = 0;
        self.send_count_for_rate = 0;
        self.start = precise_now();
        rates
    }
}

} // verus!

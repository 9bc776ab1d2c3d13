//! A pair of channels joined crosswise, so that each end sends to the other.

use vstd::prelude::*;

verus! {

/// `std::sync::mpsc::Sender`, carried through unseen.
#[verifier::external_type_specification]
#[verifier::external_body]
#[verifier::reject_recursive_types(T)]
pub struct ExSender<T>(std::sync::mpsc::Sender<T>);

/// `std::sync::mpsc::Receiver`, carried through unseen.
#[verifier::external_type_specification]
#[verifier::external_body]
#[verifier::reject_recursive_types(T)]
pub struct ExReceiver<T>(std::sync::mpsc::Receiver<T>);

/// `std::sync::mpsc::RecvError`, carried through unseen.
#[verifier::external_type_specification]
#[verifier::external_body]
pub struct ExRecvError(std::sync::mpsc::RecvError);

/// The sending half of a channel, with the identity of its channel.
#[verifier::reject_recursive_types(T)]
struct ChannelSender<T> {
    sender: std::sync::mpsc::Sender<T>,
    channel: Ghost<int>,
}

/// The receiving half of a channel, with the identity of its channel.
#[verifier::reject_recursive_types(T)]
struct ChannelReceiver<T> {
    receiver: std::sync::mpsc::Receiver<T>,
    channel: Ghost<int>,
}

/// `std::sync::mpsc::channel`: a new asynchronous channel, whose sender
/// feeds its receiver; the two halves carry the same channel identity.
/// Whether two calls give different identities is not stated.
#[verifier::external_body]
fn new_channel<T>() -> (res: (ChannelSender<T>, ChannelReceiver<T>))
    ensures
        res.0.channel@ == res.1.channel@,
{
    let (sender, receiver) = std::sync::mpsc::channel();
    (ChannelSender { sender, channel: Ghost(0) }, ChannelReceiver { receiver, channel: Ghost(0) })
}

/// `Sender::send`: hands `t` to the channel. It fails when the receiving
/// end is gone, and its error then carries the unsent value, which is
/// handed back here; that value is `t`. Whether it fails depends on the
/// other end, so that is not stated.
#[verifier::external_body]
fn channel_send<T>(sender: &ChannelSender<T>, t: T) -> (res: Result<(), T>)
    ensures
        res matches Err(v) ==> v == t,
{
    sender.sender.send(t).map_err(|e| e.0)
}

/// `Receiver::recv`: waits for a value; it fails when every sender is
/// gone. That depends on the other end, so nothing is stated.
#[verifier::external_body]
fn channel_recv<T>(receiver: &ChannelReceiver<T>) -> (res: Result<T, std::sync::mpsc::RecvError>) {
    receiver.receiver.recv()
}

/// One end of a two-way channel.
#[verifier::reject_recursive_types(T)]
pub struct BiChannel<T> {
    sender: ChannelSender<T>,
    receiver: ChannelReceiver<T>,
}

impl<T> BiChannel<T> {
    /// The channel that this end sends into.
    pub closed spec fn sends_to(&self) -> int {
        self.sender.channel@
    }

    /// The channel that this end receives from.
    pub closed spec fn receives_from(&self) -> int {
        self.receiver.channel@
    }

    /// Two ends joined crosswise: what one end sends, the other receives.
    pub fn channel() -> (res: (BiChannel<T>, BiChannel<T>))
        ensures
            res.0.sends_to() == res.1.receives_from(),
            res.1.sends_to() == res.0.receives_from(),
    {
        let (sender1, receiver1) = new_channel();
        let (sender2, receiver2) = new_channel();
        let local = BiChannel { sender: sender1, receiver: receiver2 };
        let peer = BiChannel { sender: sender2, receiver: receiver1 };
        (local, peer)
    }

    /// Sends `t` to the other end; when the other end is gone, `t` comes
    /// back as the error.
    pub fn send(&self, t: T) -> (res: Result<(), T>)
        ensures
            res matches Err(v) ==> v == t,
    {
        channel_send(&self.sender, t)
    }

    /// Waits for a value from the other end.
    pub fn recv(&self) -> (res: Result<T, std::sync::mpsc::RecvError>) {
        channel_recv(&self.receiver)
    }
}

} // verus!

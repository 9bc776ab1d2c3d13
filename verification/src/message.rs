//! The application message carried between nodes.

use vstd::prelude::*;
use vstd::string::StringSliceAdditionalSpecFns;

verus! {

/// A message type.
pub type MSGTYPE = u16;

/// A node identifier.
pub type NODEIDTYPE = u16;

/// Messages that are shown to the user.
pub const SHOWMESSAGE: MSGTYPE = 1;

/// Messages that ask a node to pass a text on.
pub const SENDMESSAGE: MSGTYPE = 2;

/// Messages that announce node addresses.
pub const ADDRMESSAGE: MSGTYPE = 3;

/// A message: sender, receiver, task, type, subtype and payload.
pub struct Message {
    pub sendid: NODEIDTYPE,
    pub recvid: NODEIDTYPE,
    /// A task made of several messages; its messages go to the same worker.
    pub taskid: u16,
    pub mstype: MSGTYPE,
    pub subtype: MSGTYPE,
    /// Payload length, cut to 16 bits.
    pub msglen: u16,
    pub msgdata: Vec<u8>,
}

impl Message {
    /// A message to be shown, carrying the UTF-8 bytes of `message`.
    pub fn create_man_message(message: &str) -> (res: Message)
        ensures
            res.sendid == 0,
            res.recvid == 0,
            res.taskid == 0,
            res.mstype == SHOWMESSAGE,
            res.subtype == SHOWMESSAGE,
            res.msglen == message.spec_bytes().len() as u16,
            res.msgdata@ == message.spec_bytes(),
    {
        let bytes = message.as_bytes();
        let mut msgdata: Vec<u8> = Vec::new();
        let mut i: usize = 0;
        while i < bytes.len()
            invariant
                i <= bytes@.len(),
                msgdata@ == bytes@.subrange(0, i as int),
            decreases bytes@.len() - i,
        {
            msgdata.push(bytes[i]);
            i = i + 1;
            assert(msgdata@ =~= bytes@.subrange(0, i as int));
        }
        assert(bytes@.subrange(0, bytes@.len() as int) =~= bytes@);
        Message {
            sendid: 0,
            recvid: 0,
            taskid: 0,
            mstype: SHOWMESSAGE,
            subtype: SHOWMESSAGE,
            msglen: message.len() as u16,
            msgdata,
        }
    }

    /// Turns a message that was to be passed on into one to be shown.
    pub fn set_show(&mut self)
        ensures
            *final(self) == (Message { mstype: SHOWMESSAGE, ..*old(self) }),
    {
        self.mstype = SHOWMESSAGE;
    }
}

} // verus!

//! The messages that the load-test client sends.

use vstd::prelude::*;
use vstd::string::StringSliceAdditionalSpecFns;

use crate::message::{Message, NODEIDTYPE, SHOWMESSAGE};

verus! {

/// A message to be shown, from `sendid` to `recvid`, carrying the UTF-8
/// bytes of `message`.
pub fn create_man_message(sendid: NODEIDTYPE, recvid: NODEIDTYPE, message: &str) -> (res: Message)
    ensures
        res.sendid == sendid,
        res.recvid == recvid,
        res.taskid == 0,
        res.mstype == SHOWMESSAGE,
        res.subtype == SHOWMESSAGE,
        res.msglen == message.spec_bytes().len() as u16,
        res.msgdata@ == message.spec_bytes(),
{
    let mut m = Message::create_man_message(message);
    m.sendid = sendid;
    m.recvid = recvid;
    m
}

} // verus!

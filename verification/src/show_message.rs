//! The command that shows a message.

use vstd::prelude::*;

use crate::message::{MSGTYPE, SHOWMESSAGE};

verus! {

/// Shows the messages of type `SHOWMESSAGE`.
pub struct ShowMessage {}

impl ShowMessage {
    /// The command.
    pub fn new() -> (res: ShowMessage)
        ensures
            res == (ShowMessage {}),
    {
        ShowMessage {}
    }

    /// The message type that the command handles.
    pub fn get_msgtype(&self) -> (res: MSGTYPE)
        ensures
            res == SHOWMESSAGE,
    {
        SHOWMESSAGE
    }
}

} // verus!

//! The commands that a node runs on the messages it receives.

pub mod show_message;

use vstd::prelude::*;

use crate::message::{MSGTYPE, ADDRMESSAGE, SENDMESSAGE, SHOWMESSAGE};

verus! {

/// The command that handles a message type.
pub enum CommandKind {
    /// Show the message.
    Show,
    /// Pass the message on, to be shown.
    Send,
    /// Record and spread node addresses.
    Addr,
}

/// The command to make for a message of type `msgtype`, if there is one.
pub fn create_commnand_handler(msgtype: MSGTYPE) -> (res: Option<CommandKind>)
    ensures
        msgtype == SHOWMESSAGE ==> res == Some(CommandKind::Show),
        msgtype == SENDMESSAGE ==> res == Some(CommandKind::Send),
        msgtype == ADDRMESSAGE ==> res == Some(CommandKind::Addr),
        msgtype != SHOWMESSAGE && msgtype != SENDMESSAGE && msgtype != ADDRMESSAGE ==> res is None,
{
    if msgtype == SHOWMESSAGE {
        Some(CommandKind::Show)
    } else if msgtype == SENDMESSAGE {
        Some(CommandKind::Send)
    } else if msgtype == ADDRMESSAGE {
        Some(CommandKind::Addr)
    } else {
        None
    }
}

/// The message type that a command handles.
pub fn command_msgtype(kind: &CommandKind) -> (res: MSGTYPE)
    ensures
        res == match kind {
            CommandKind::Show => SHOWMESSAGE,
            CommandKind::Send => SENDMESSAGE,
            CommandKind::Addr => ADDRMESSAGE,
        },
{
    match kind {
        CommandKind::Show => SHOWMESSAGE,
        CommandKind::Send => SENDMESSAGE,
        CommandKind::Addr => ADDRMESSAGE,
    }
}

} // verus!

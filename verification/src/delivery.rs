//! What the sender of a message hears of its delivery.

use vstd::prelude::*;

verus! {

/// Why a mailbox gave no reply.
#[derive(Clone, Copy, Debug, PartialEq, Eq)]
pub enum MailboxError {
    Closed,
    Timeout,
}

/// Why a message got no reply.
#[derive(Clone, Copy, Debug, PartialEq, Eq)]
pub enum SendError {
    Closed,
    Timeout,
}

/// What the sender hears when the mailbox answered, or did not.
pub fn reply_to_sender<R>(reply: Result<R, MailboxError>) -> (r: Result<R, SendError>)
    ensures
        r == match reply {
            Ok(v) => Ok::<R, SendError>(v),
            Err(MailboxError::Closed) => Err(SendError::Closed),
            Err(MailboxError::Timeout) => Err(SendError::Timeout),
        },
{
    match reply {
        Ok(v) => Ok(v),
        Err(MailboxError::Closed) => Err(SendError::Closed),
        Err(MailboxError::Timeout) => Err(SendError::Timeout),
    }
}

} // verus!

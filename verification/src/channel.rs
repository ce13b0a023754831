//! The channels that carry state updates and wake-up signals to the render
//! loop.  They are `async_channel` channels, used here only through their
//! calls that return at once.
//!
//! A channel is shared with whoever holds its other handles, so nothing that a
//! call returns can be foretold from the handle alone: the contracts below
//! promise nothing, and the code that calls them is proved for every answer.

use vstd::prelude::*;

verus! {

/// `async_channel::Sender`: one of the sending handles of a channel.
#[verifier::external_type_specification]
#[verifier::external_body]
#[verifier::reject_recursive_types(T)]
pub struct ExSender<T>(async_channel::Sender<T>);

/// `async_channel::Receiver`: one of the receiving handles of a channel.
#[verifier::external_type_specification]
#[verifier::external_body]
#[verifier::reject_recursive_types(T)]
pub struct ExReceiver<T>(async_channel::Receiver<T>);

/// `async_channel::unbounded`: a new channel without a limit, as its two
/// handles.  Nothing is claimed of them.
#[verifier::external_body]
pub(crate) fn unbounded<T>() -> (r: (async_channel::Sender<T>, async_channel::Receiver<T>)) {
    async_channel::unbounded()
}

/// `async_channel::bounded`: the two handles of a new channel with room for
/// `cap` messages.  The function panics on a capacity of zero, which is ruled
/// out.  Nothing is claimed of the handles.
#[verifier::external_body]
pub(crate) fn bounded<T>(cap: usize) -> (r: (async_channel::Sender<T>, async_channel::Receiver<T>))
    requires
        cap > 0,
{
    async_channel::bounded(cap)
}

/// `Sender::try_send`: offers a message to the channel and says whether it was
/// taken.  A full or closed channel refuses, and the message is dropped.
/// Nothing is claimed of the answer.
#[verifier::external_body]
pub(crate) fn try_send<T>(sender: &async_channel::Sender<T>, message: T) -> (sent: bool) {
    sender.try_send(message).is_ok()
}

/// `Receiver::try_recv`: the oldest message that waits in the channel, or
/// `None` when none waits or the channel is closed and empty.  Nothing is
/// claimed of the answer.
#[verifier::external_body]
pub(crate) fn try_recv<T>(receiver: &async_channel::Receiver<T>) -> (message: Option<T>) {
    receiver.try_recv().ok()
}

/// `Receiver::len`: how many messages wait in the channel at this moment.
/// Nothing is claimed of the number.
#[verifier::external_body]
pub(crate) fn waiting<T>(receiver: &async_channel::Receiver<T>) -> (count: usize) {
    receiver.len()
}

/// `Sender::clone`: another sending handle of the same channel.  A sender
/// is nothing but the handle of its channel, and the clone holds that of the
/// same channel: as a value it is the sender that was cloned.
#[verifier::external_body]
pub(crate) fn clone_sender<T>(sender: &async_channel::Sender<T>) -> (r: async_channel::Sender<T>)
    ensures
        r == *sender,
{
    sender.clone()
}

} // verus!

use vstd::prelude::*;

use crate::graph::Error;

verus! {

#[verifier::external_type_specification]
#[verifier::external_body]
#[verifier::reject_recursive_types(T)]
pub struct ExSender<T>(std::sync::mpsc::Sender<T>);

#[verifier::external_type_specification]
#[verifier::external_body]
#[verifier::reject_recursive_types(T)]
pub struct ExReceiver<T>(std::sync::mpsc::Receiver<T>);

/// Relies on std::sync::mpsc::channel: allocates one fresh unbounded
/// FIFO channel and returns its two halves.
#[verifier::external_body]
pub(crate) fn new_channel<T>() -> (std::sync::mpsc::Sender<T>, std::sync::mpsc::Receiver<T>) {
    std::sync::mpsc::channel()
}

/// Relies on std::sync::mpsc::Sender::send: hands `msg` to the receiving
/// half, or reports failure once the receiver is gone.  Which of the two
/// happens depends on the peer process, so nothing more is promised.
#[verifier::external_body]
pub(crate) fn send_msg<T>(s: &std::sync::mpsc::Sender<T>, msg: T) -> (r: Result<(), Error>)
    ensures
        r matches Err(e) ==> e is ChannelClosed,
{
    match s.send(msg) {
        Ok(()) => Ok(()),
        Err(_) => Err(Error::ChannelClosed),
    }
}

/// Relies on std::sync::mpsc::Receiver::recv: blocks until one message
/// arrives, or reports failure once every sending half is gone.  What
/// arrives depends on the peer process, so nothing more is promised.
#[verifier::external_body]
pub(crate) fn recv_msg<T>(r: &std::sync::mpsc::Receiver<T>) -> (res: Result<T, Error>)
    ensures
        res matches Err(e) ==> e is ChannelClosed,
{
    match r.recv() {
        Ok(v) => Ok(v),
        Err(_) => Err(Error::ChannelClosed),
    }
}

} // verus!

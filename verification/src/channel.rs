//! The per-pane output channel.
//!
//! Every pane has one unbounded channel of byte chunks. The control
//! connection holds the sending end and the pane's handle the receiving end.
//! The channel itself comes from the `flume` crate; what follows makes its
//! types and the four operations used here known to the verifier. Creating,
//! sending and receiving are given no postcondition: what a send or a
//! receive returns depends on what other holders of the channel's ends have
//! done. Cloning a receiving end gives the same receiving end again.

use vstd::prelude::*;

verus! {

/// `flume::Sender<T>`, the sending end of a channel. Opaque to the verifier.
#[verifier::external_type_specification]
#[verifier::external_body]
#[verifier::reject_recursive_types(T)]
pub struct ExSender<T>(flume::Sender<T>);

/// `flume::Receiver<T>`, the receiving end of a channel. Opaque to the
/// verifier.
#[verifier::external_type_specification]
#[verifier::external_body]
#[verifier::reject_recursive_types(T)]
pub struct ExReceiver<T>(flume::Receiver<T>);

/// `flume::SendError<T>`, which hands back a message that could not be sent
/// because every receiver is gone. Opaque to the verifier.
#[verifier::external_type_specification]
#[verifier::external_body]
#[verifier::reject_recursive_types(T)]
pub struct ExSendError<T>(flume::SendError<T>);

/// `flume::RecvError`, which reports that every sender is gone and the
/// channel is empty. Opaque to the verifier.
#[verifier::external_type_specification]
#[verifier::external_body]
pub struct ExRecvError(flume::RecvError);

/// `flume::unbounded` creates a channel without a capacity limit and returns
/// its two ends. Nothing is claimed of them.
pub assume_specification<T>[ flume::unbounded::<T> ]() -> (ends: (
    flume::Sender<T>,
    flume::Receiver<T>,
));

/// `flume::Sender::send` puts a message into the channel, or returns it
/// inside an error when every receiver has been dropped. Which of the two
/// happens is not claimed.
pub assume_specification<T>[ flume::Sender::<T>::send ](
    sender: &flume::Sender<T>,
    msg: T,
) -> (sent: Result<(), flume::SendError<T>>);

/// `flume::Receiver::recv` waits for the next message, or returns an error
/// when the channel is empty and every sender has been dropped. Which message
/// comes, or whether one comes, is not claimed.
pub assume_specification<T>[ flume::Receiver::<T>::recv ](receiver: &flume::Receiver<T>) -> (got:
    Result<T, flume::RecvError>);

/// `Clone::clone` on a `flume::Receiver` returns another receiving end of the
/// same channel: the only field of a receiver is its pointer to the channel's
/// shared state, and the clone holds a clone of that pointer. As values the
/// two are the same receiving end, which is what the contract claims. That
/// the channel counts one receiver more is not part of either value.
pub assume_specification<T>[ <flume::Receiver<T> as Clone>::clone ](
    receiver: &flume::Receiver<T>,
) -> (other: flume::Receiver<T>)
    ensures
        other == *receiver,
;

} // verus!

//! The one-to-one transport under each receiver: std's `mpsc` channel.

use vstd::prelude::*;

verus! {

/// `mpsc::Sender`, held opaque: the producer end of one link.
#[verifier::external_type_specification]
#[verifier::external_body]
#[verifier::reject_recursive_types(T)]
pub struct ExLinkSender<T>(std::sync::mpsc::Sender<T>);

/// `mpsc::Receiver`, held opaque: the consumer end of one link.
#[verifier::external_type_specification]
#[verifier::external_body]
#[verifier::reject_recursive_types(T)]
pub struct ExLinkReceiver<T>(std::sync::mpsc::Receiver<T>);

/// `mpsc::SendError`, whose one public field is the value that was refused.
#[verifier::external_type_specification]
#[verifier::reject_recursive_types(T)]
pub struct ExSendError<T>(std::sync::mpsc::SendError<T>);

/// `mpsc::RecvError`: the link is closed and empty.
#[verifier::external_type_specification]
pub struct ExRecvError(std::sync::mpsc::RecvError);

/// `mpsc::RecvTimeoutError`: timed out, or closed.
#[verifier::external_type_specification]
pub struct ExRecvTimeoutError(std::sync::mpsc::RecvTimeoutError);

/// `mpsc::TryRecvError`: empty for now, or closed.
#[verifier::external_type_specification]
pub struct ExTryRecvError(std::sync::mpsc::TryRecvError);

/// Relies on `std::sync::mpsc::channel`: a fresh link, its producer end and its consumer end.
pub assume_specification<T>[ std::sync::mpsc::channel::<T> ]() -> (std::sync::mpsc::Sender<T>, std::sync::mpsc::Receiver<T>);

/// Relies on `std::sync::mpsc::Sender::send`: it never blocks, and a refused value comes
/// back unchanged inside the error.
pub assume_specification<T>[ std::sync::mpsc::Sender::<T>::send ](
    link: &std::sync::mpsc::Sender<T>,
    t: T,
) -> (r: Result<(), std::sync::mpsc::SendError<T>>)
    ensures
        r is Err ==> r->Err_0.0 == t,
;

/// Relies on `std::sync::mpsc::Receiver::recv`: blocks until a value or the end of the link.
pub assume_specification<T>[ std::sync::mpsc::Receiver::<T>::recv ](
    link: &std::sync::mpsc::Receiver<T>,
) -> Result<T, std::sync::mpsc::RecvError>;

/// Relies on `std::sync::mpsc::Receiver::recv_timeout`: as `recv`, bounded by the duration.
pub assume_specification<T>[ std::sync::mpsc::Receiver::<T>::recv_timeout ](
    link: &std::sync::mpsc::Receiver<T>,
    timeout: std::time::Duration,
) -> Result<T, std::sync::mpsc::RecvTimeoutError>;

/// Relies on `std::sync::mpsc::Receiver::try_recv`: a receive that never blocks.
pub assume_specification<T>[ std::sync::mpsc::Receiver::<T>::try_recv ](
    link: &std::sync::mpsc::Receiver<T>,
) -> Result<T, std::sync::mpsc::TryRecvError>;

} // verus!

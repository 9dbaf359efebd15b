//! The consuming side: one handle per link, and a single-pass sequence over it.
use std::sync::mpsc;
use std::time::Duration;
use vstd::prelude::*;

verus! {

/// The consumer end of one link of the channel.
#[verifier::reject_recursive_types(T)]
pub struct Receiver<T> {
    pub(crate) inner: mpsc::Receiver<T>,
    pub(crate) id: Ghost<nat>,
}

/// A receiver taken as a sequence of values: it ends for good once the
/// producer end of its link is gone.
#[verifier::reject_recursive_types(T)]
pub struct IntoIter<T> {
    rx: Receiver<T>,
    done: bool,
}

impl<T> Receiver<T> {
    /// The identifier of this receiver's link among the sender's links.
    pub open(crate) spec fn id(&self) -> nat {
        self.id@
    }

    /// Blocks until a value arrives, or fails once the sender is gone and
    /// nothing is left to take.
    pub fn recv(&self) -> (r: Result<T, mpsc::RecvError>) {
        self.inner.recv()
    }

    /// As `recv`, but fails with a timeout once `timeout` has passed with no
    /// value; a value is never taken on a timeout.
    pub fn recv_timeout(&self, timeout: Duration) -> (r: Result<T, mpsc::RecvTimeoutError>) {
        self.inner.recv_timeout(timeout)
    }

    /// Takes a value if one is waiting; tells an empty link from a closed one.
    pub fn try_recv(&self) -> (r: Result<T, mpsc::TryRecvError>) {
        self.inner.try_recv()
    }

    /// Turns the receiver into a sequence of the values it receives.
    pub fn into_iter(self) -> (r: IntoIter<T>)
        ensures
            r.id() == self.id(),
            !r.is_done(),
    {
        IntoIter { rx: self, done: false }
    }
}

impl<T> IntoIter<T> {
    /// The identifier of the link this sequence reads.
    pub closed spec fn id(&self) -> nat {
        self.rx.id()
    }

    /// Whether the sequence has ended.
    pub closed spec fn is_done(&self) -> bool {
        self.done
    }

    /// The next value, blocking until one arrives; `None` once the link is
    /// closed, and from then on always `None`.
    pub fn next(&mut self) -> (r: Option<T>)
        ensures
            final(self).id() == old(self).id(),
            old(self).is_done() ==> r is None,
            final(self).is_done() == (r is None),
    {
        if self.done {
            return None;
        }
        match self.rx.recv() {
            Ok(t) => Some(t),
            Err(_) => {
                self.done = true;
                None
            },
        }
    }
}

} // verus!

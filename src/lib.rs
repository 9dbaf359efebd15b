//! A single-producer channel that fans out to a growing set of receivers:
//! each value goes to exactly one live receiver, chosen by a rotating cursor,
//! and receivers found abandoned on the way are pruned.
pub mod link;
pub mod receiver;
pub mod rotation;
pub mod sender;

pub use receiver::{IntoIter, Receiver};
pub use sender::{channel, Sender};

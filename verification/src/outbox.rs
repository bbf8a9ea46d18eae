//! The sending side of a connection's bounded queue, with the record of every frame
//! handed to it.
//!
//! The record is written here and nowhere else: the only way to add to it is to hand a
//! frame to the queue.

use vstd::prelude::*;

use tokio::sync::mpsc::error::TrySendError;
use tokio::sync::mpsc::Sender;

use crate::protocol::Frame;
use crate::registry::Delivery;

verus! {

/// A connection's queue, and the text of every frame handed to it, in order, whether
/// or not the queue took it.
pub struct Outbox {
    tx: Sender<Frame>,
    handed: Ghost<Seq<Seq<char>>>,
}

impl Outbox {
    /// Every frame handed to this queue so far, in order.
    pub closed spec fn handed(&self) -> Seq<Seq<char>> {
        self.handed@
    }

    /// The queue behind `tx`, with nothing handed to it yet.
    pub fn new(tx: Sender<Frame>) -> (outbox: Outbox)
        ensures
            outbox.handed() == Seq::<Seq<char>>::empty(),
    {
        Outbox { tx, handed: Ghost(Seq::empty()) }
    }
}

/// `Sender::try_send`: hands `frame` to the queue without waiting; the record of
/// frames handed to the queue gains its text.
///
/// Nothing is stated of the outcome: it depends on how much of the queue the
/// connection's task has drained, which changes independently of this crate.
#[verifier::external_body]
pub fn try_send(outbox: &mut Outbox, frame: Frame) -> (d: Delivery)
    ensures
        final(outbox).handed() == old(outbox).handed().push(frame@),
{
    match outbox.tx.try_send(frame) {
        Ok(()) => Delivery::Queued,
        Err(TrySendError::Full(_)) => Delivery::Full,
        Err(TrySendError::Closed(_)) => Delivery::Closed,
    }
}

} // verus!

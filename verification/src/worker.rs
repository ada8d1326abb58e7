use crate::address::SocketAddress;
use crate::id::InfoHash;
use crate::message::Message;
use crate::transaction::TransactionID;
use vstd::prelude::*;

pub mod bootstrap;
pub mod handler;
pub mod lookup;
pub mod refresh;

verus! {

/// What the worker tells the client above it.
#[derive(Clone, Copy, Debug, PartialEq, Eq, Structural)]
pub enum DhtEvent {
    /// The bootstrap has come to an end and the table is in use.
    BootstrapCompleted,
    /// The bootstrap found no node at all; the worker stops.
    BootstrapFailed,
    /// The lookup of the info-hash has come to an end.
    LookupCompleted(InfoHash),
    /// A peer of the info-hash was found at the address.
    PeerFound(InfoHash, SocketAddress),
}

/// What the client above asks of the worker.
#[derive(Debug)]
pub enum OneshotTask {
    /// Bootstrap from the routers and nodes at these addresses.
    StartBootstrap(Vec<SocketAddress>, Vec<SocketAddress>),
    /// Look the info-hash up, and announce the client for it if the flag is set.
    StartLookup(InfoHash, bool),
}

/// What the timer hands back when a deadline is reached.
#[derive(Clone, Copy, Debug, PartialEq, Eq, Structural)]
pub enum ScheduledTaskCheck {
    /// The next refresh of the table is due.
    TableRefresh(TransactionID),
    /// A probe of the bootstrap went unanswered.
    BootstrapTimeout(TransactionID),
    /// A probe of a lookup went unanswered.
    LookupTimeout(TransactionID),
    /// The settle window of a lookup is over.
    LookupEndGame(TransactionID),
}

/// What the worker wants done for it: a message sent or the client told.
#[derive(Debug)]
pub enum Effect {
    /// Send the message to the address.
    Send(Message, SocketAddress),
    /// Tell the client.
    Event(DhtEvent),
}

impl ScheduledTaskCheck {
    /// The transaction that the deadline belongs to.
    pub open spec fn spec_transaction_id(&self) -> TransactionID {
        match *self {
            ScheduledTaskCheck::TableRefresh(id) => id,
            ScheduledTaskCheck::BootstrapTimeout(id) => id,
            ScheduledTaskCheck::LookupTimeout(id) => id,
            ScheduledTaskCheck::LookupEndGame(id) => id,
        }
    }

    /// The transaction that the deadline belongs to.
    #[verifier::when_used_as_spec(spec_transaction_id)]
    pub fn transaction_id(&self) -> (id: TransactionID)
        ensures
            id == self.spec_transaction_id(),
    {
        match *self {
            ScheduledTaskCheck::TableRefresh(id) => id,
            ScheduledTaskCheck::BootstrapTimeout(id) => id,
            ScheduledTaskCheck::LookupTimeout(id) => id,
            ScheduledTaskCheck::LookupEndGame(id) => id,
        }
    }
}

} // verus!

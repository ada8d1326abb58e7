use crate::address::SocketAddress;
use crate::clock::Timestamp;
use crate::id::NodeId;
use vstd::prelude::*;

verus! {

/// How long after its last message a node still counts as seen recently:
/// 15 minutes, in nanoseconds.
pub const MAX_LAST_SEEN: u128 = 900_000_000_000;

/// The number of consecutive unanswered requests that makes a node bad.
pub const MAX_STRIKES: u8 = 3;

/// The number of most recent requests whose outcomes a node remembers.
pub const RECENT_REQUESTS: u8 = 3;

/// How far a node can be relied on.
#[derive(Clone, Copy, Debug, PartialEq, Eq, Hash, Structural)]
pub enum NodeStatus {
    Bad,
    Questionable,
    Good,
}

/// What identifies a node: its id together with its address. The same id
/// at another address is another node.
#[derive(Clone, Copy, Debug, PartialEq, Eq, Hash, Structural)]
pub struct NodeHandle {
    pub id: NodeId,
    pub addr: SocketAddress,
}

/// The outcomes of the most recent requests sent to a node, newest first.
/// Only the first `count` of them have happened.
#[derive(Clone, Copy, Debug, PartialEq, Eq, Hash, Structural)]
pub struct RequestLog {
    pub newest: bool,
    pub middle: bool,
    pub oldest: bool,
    pub count: u8,
}

/// An entry of the routing table: a node and what is known of its health.
#[derive(Clone, Copy, Debug, PartialEq, Eq, Hash, Structural)]
pub struct Node {
    pub handle: NodeHandle,
    /// When the last message from the node was received, if any was.
    pub last_seen: Option<Timestamp>,
    /// When the last request to the node was sent, while it is unanswered.
    pub last_request: Option<Timestamp>,
    /// Whether the node ever sent a request of its own.
    pub unsolicited: bool,
    /// How many requests in a row the node has left unanswered.
    pub strikes: u8,
    /// The outcomes of the most recent requests.
    pub log: RequestLog,
}

impl NodeStatus {
    /// The place of the status in the order in which nodes are preferred:
    /// good first, then questionable, then bad.
    pub open spec fn spec_rank(self) -> nat {
        match self {
            NodeStatus::Good => 0,
            NodeStatus::Questionable => 1,
            NodeStatus::Bad => 2,
        }
    }

    pub fn rank(&self) -> (r: u8)
        ensures
            r == self.spec_rank(),
    {
        match self {
            NodeStatus::Good => 0,
            NodeStatus::Questionable => 1,
            NodeStatus::Bad => 2,
        }
    }
}

impl NodeHandle {
    pub fn new(id: NodeId, addr: SocketAddress) -> (handle: NodeHandle)
        ensures
            handle == (NodeHandle { id, addr }),
    {
        NodeHandle { id, addr }
    }
}

impl RequestLog {
    pub open spec fn wf(self) -> bool {
        self.count <= RECENT_REQUESTS
    }

    /// The log of a node to which no request was sent yet.
    pub open spec fn spec_empty() -> RequestLog {
        RequestLog { newest: false, middle: false, oldest: false, count: 0 }
    }

    /// How many of the remembered requests were answered.
    pub open spec fn spec_answered(self) -> nat {
        (if self.count >= 1 && self.newest {
            1nat
        } else {
            0nat
        }) + (if self.count >= 2 && self.middle {
            1nat
        } else {
            0nat
        }) + (if self.count >= 3 && self.oldest {
            1nat
        } else {
            0nat
        })
    }

    /// Whether more than half of the remembered requests were answered.
    pub open spec fn spec_majority_answered(self) -> bool {
        2 * self.spec_answered() > self.count
    }

    /// The log with one more outcome; the oldest is forgotten when the log is full.
    pub open spec fn spec_record(self, answered: bool) -> RequestLog {
        RequestLog {
            newest: answered,
            middle: self.newest,
            oldest: self.middle,
            count: if self.count < RECENT_REQUESTS {
                (self.count + 1) as u8
            } else {
                RECENT_REQUESTS
            },
        }
    }

    pub fn empty() -> (log: RequestLog)
        ensures
            log == RequestLog::spec_empty(),
            log.wf(),
    {
        RequestLog { newest: false, middle: false, oldest: false, count: 0 }
    }

    pub fn majority_answered(&self) -> (r: bool)
        ensures
            r == self.spec_majority_answered(),
    {
        let mut answered: u8 = 0;
        if self.count >= 1 && self.newest {
            answered += 1;
        }
        if self.count >= 2 && self.middle {
            answered += 1;
        }
        if self.count >= 3 && self.oldest {
            answered += 1;
        }
        2 * answered > self.count
    }

    pub fn record(&self, answered: bool) -> (log: RequestLog)
        ensures
            log == self.spec_record(answered),
            log.wf(),
    {
        RequestLog {
            newest: answered,
            middle: self.newest,
            oldest: self.middle,
            count: if self.count < RECENT_REQUESTS {
                self.count + 1
            } else {
                RECENT_REQUESTS
            },
        }
    }
}

impl Node {
    pub open spec fn wf(self) -> bool {
        self.log.wf()
    }

    /// A node from which a response has just arrived.
    pub open spec fn spec_as_good(id: NodeId, addr: SocketAddress, now: Timestamp) -> Node {
        Node {
            handle: NodeHandle { id, addr },
            last_seen: Some(now),
            last_request: None,
            unsolicited: false,
            strikes: 0,
            log: RequestLog::spec_empty().spec_record(true),
        }
    }

    /// A node that was only heard of.
    pub open spec fn spec_as_questionable(id: NodeId, addr: SocketAddress) -> Node {
        Node {
            handle: NodeHandle { id, addr },
            last_seen: None,
            last_request: None,
            unsolicited: false,
            strikes: 0,
            log: RequestLog::spec_empty(),
        }
    }

    /// A node that has failed the maximum number of requests in a row.
    pub open spec fn spec_as_bad(id: NodeId, addr: SocketAddress) -> Node {
        Node {
            handle: NodeHandle { id, addr },
            last_seen: None,
            last_request: None,
            unsolicited: false,
            strikes: MAX_STRIKES,
            log: RequestLog { newest: false, middle: false, oldest: false, count: RECENT_REQUESTS },
        }
    }

    /// Whether a message from the node arrived within the last 15 minutes before `now`.
    pub open spec fn seen_recently(self, now: Timestamp) -> bool {
        match self.last_seen {
            Some(seen) => now < seen || now - seen < MAX_LAST_SEEN,
            None => false,
        }
    }

    /// The status of the node at `now`. A node is bad when it has left
    /// three requests in a row unanswered. Otherwise it is good when it was
    /// seen recently and has either sent a request of its own or answered
    /// most of the recent requests. Otherwise it is questionable.
    pub open spec fn spec_status(self, now: Timestamp) -> NodeStatus {
        if self.strikes >= MAX_STRIKES {
            NodeStatus::Bad
        } else if self.seen_recently(now) && (self.unsolicited
            || self.log.spec_majority_answered()) {
            NodeStatus::Good
        } else {
            NodeStatus::Questionable
        }
    }

    /// The node after a request of its own arrived from it at `now`.
    pub open spec fn spec_remote_request(self, now: Timestamp) -> Node {
        Node { last_seen: Some(now), unsolicited: true, ..self }
    }

    /// The node after a request was sent to it at `now`.
    pub open spec fn spec_local_request(self, now: Timestamp) -> Node {
        Node { last_request: Some(now), ..self }
    }

    /// The node after it answered a request at `now`.
    pub open spec fn spec_local_response(self, now: Timestamp) -> Node {
        Node {
            last_seen: Some(now),
            last_request: None,
            strikes: 0,
            log: self.log.spec_record(true),
            ..self
        }
    }

    /// The node after a request to it went unanswered.
    pub open spec fn spec_local_timeout(self) -> Node {
        Node {
            last_request: None,
            strikes: if self.strikes < u8::MAX {
                (self.strikes + 1) as u8
            } else {
                u8::MAX
            },
            log: self.log.spec_record(false),
            ..self
        }
    }

    pub fn as_good(id: NodeId, addr: SocketAddress, now: Timestamp) -> (node: Node)
        ensures
            node == Node::spec_as_good(id, addr, now),
            node.wf(),
            node.spec_status(now) == NodeStatus::Good,
    {
        Node {
            handle: NodeHandle { id, addr },
            last_seen: Some(now),
            last_request: None,
            unsolicited: false,
            strikes: 0,
            log: RequestLog::empty().record(true),
        }
    }

    pub fn as_questionable(id: NodeId, addr: SocketAddress) -> (node: Node)
        ensures
            node == Node::spec_as_questionable(id, addr),
            node.wf(),
            forall|now: Timestamp| node.spec_status(now) == NodeStatus::Questionable,
    {
        Node {
            handle: NodeHandle { id, addr },
            last_seen: None,
            last_request: None,
            unsolicited: false,
            strikes: 0,
            log: RequestLog::empty(),
        }
    }

    pub fn as_bad(id: NodeId, addr: SocketAddress) -> (node: Node)
        ensures
            node == Node::spec_as_bad(id, addr),
            node.wf(),
            forall|now: Timestamp| node.spec_status(now) == NodeStatus::Bad,
    {
        Node {
            handle: NodeHandle { id, addr },
            last_seen: None,
            last_request: None,
            unsolicited: false,
            strikes: MAX_STRIKES,
            log: RequestLog { newest: false, middle: false, oldest: false, count: RECENT_REQUESTS },
        }
    }

    pub fn handle(&self) -> (handle: NodeHandle)
        ensures
            handle == self.handle,
    {
        self.handle
    }

    pub fn id(&self) -> (id: NodeId)
        ensures
            id == self.handle.id,
    {
        self.handle.id
    }

    pub fn addr(&self) -> (addr: SocketAddress)
        ensures
            addr == self.handle.addr,
    {
        self.handle.addr
    }

    /// The status of the node at `now`.
    pub fn status(&self, now: Timestamp) -> (status: NodeStatus)
        ensures
            status == self.spec_status(now),
    {
        if self.strikes >= MAX_STRIKES {
            return NodeStatus::Bad;
        }
        let seen_recently = match self.last_seen {
            Some(seen) => now < seen || now - seen < MAX_LAST_SEEN,
            None => false,
        };
        if seen_recently && (self.unsolicited || self.log.majority_answered()) {
            NodeStatus::Good
        } else {
            NodeStatus::Questionable
        }
    }

    /// Records that a request of the node's own arrived at `now`.
    pub fn remote_request(&mut self, now: Timestamp)
        ensures
            *final(self) == old(self).spec_remote_request(now),
            old(self).wf() ==> final(self).wf(),
    {
        self.last_seen = Some(now);
        self.unsolicited = true;
    }

    /// Records that a request was sent to the node at `now`.
    pub fn local_request(&mut self, now: Timestamp)
        ensures
            *final(self) == old(self).spec_local_request(now),
            old(self).wf() ==> final(self).wf(),
    {
        self.last_request = Some(now);
    }

    /// Records that the node answered a request at `now`.
    pub fn local_response(&mut self, now: Timestamp)
        ensures
            *final(self) == old(self).spec_local_response(now),
            final(self).wf(),
    {
        self.last_seen = Some(now);
        self.last_request = None;
        self.strikes = 0;
        self.log = self.log.record(true);
    }

    /// Records that a request to the node went unanswered.
    pub fn local_timeout(&mut self)
        ensures
            *final(self) == old(self).spec_local_timeout(),
            final(self).wf(),
    {
        self.last_request = None;
        if self.strikes < u8::MAX {
            self.strikes += 1;
        }
        self.log = self.log.record(false);
    }
}

} // verus!

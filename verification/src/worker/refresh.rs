use crate::clock::Timestamp;
use crate::id::NodeId;
use crate::message::{FindNodeRequest, Message, MessageBody, Request};
use crate::routing::node::{Node, NodeStatus};
use crate::routing::table::{RoutingTable, TableView, MAX_BUCKETS};
use crate::timer::{deadline_after, Timeout, Timer};
use crate::transaction::{successor, ActionID, MIDGenerator, TransactionID};
use crate::worker::{Effect, ScheduledTaskCheck};
use vstd::prelude::*;

verus! {

/// The time from one refresh to the next: 6 seconds, in nanoseconds.
pub const REFRESH_INTERVAL_TIMEOUT: u128 = 6_000_000_000;

/// Keeps the routing table fresh: at every tick it probes one questionable
/// node near the range of one bucket, bucket after bucket.
pub struct TableRefresh {
    pub id_generator: MIDGenerator,
    pub curr_refresh_bucket: usize,
}

/// Whether `i` is the place of the first questionable node of `nodes` at `now`.
pub open spec fn is_first_questionable(nodes: Seq<Node>, now: Timestamp, i: int) -> bool {
    &&& 0 <= i < nodes.len()
    &&& nodes[i].spec_status(now) == NodeStatus::Questionable
    &&& forall|j: int|
        0 <= j < i ==> (#[trigger] nodes[j]).spec_status(now) != NodeStatus::Questionable
}

/// The place of the first questionable node, if there is one.
pub fn first_questionable(nodes: &Vec<Node>, now: Timestamp) -> (found: Option<usize>)
    ensures
        match found {
            Some(i) => is_first_questionable(nodes@, now, i as int),
            None => forall|j: int|
                0 <= j < nodes@.len() ==> (#[trigger] nodes@[j]).spec_status(now)
                    != NodeStatus::Questionable,
        },
{
    let mut i: usize = 0;
    while i < nodes.len()
        invariant
            i <= nodes@.len(),
            forall|j: int|
                0 <= j < i ==> (#[trigger] nodes@[j]).spec_status(now) != NodeStatus::Questionable,
        decreases nodes@.len() - i,
    {
        if nodes[i].status(now) == NodeStatus::Questionable {
            return Some(i);
        }
        i += 1;
    }
    None
}

impl TableRefresh {
    pub fn new(id_generator: MIDGenerator) -> (refresh: TableRefresh)
        ensures
            refresh.id_generator == id_generator,
            refresh.curr_refresh_bucket == 0,
    {
        TableRefresh { id_generator, curr_refresh_bucket: 0 }
    }

    pub fn action_id(&self) -> (action_id: ActionID)
        ensures
            action_id == self.id_generator.action_id,
    {
        self.id_generator.action_id()
    }

    /// The bucket that the next tick refreshes: the cursor, or the first
    /// bucket again once the cursor has passed the last.
    pub open spec fn spec_bucket(self) -> int {
        if self.curr_refresh_bucket >= MAX_BUCKETS {
            0
        } else {
            self.curr_refresh_bucket as int
        }
    }

    /// The id that the next tick asks for: the table's own id with the bit
    /// of the bucket inverted.
    pub open spec fn spec_target(self, node_id: NodeId) -> NodeId {
        node_id.spec_flip_bit(self.spec_bucket())
    }

    /// Whether a tick at `now`, with the nodes of the table listed as
    /// `listed`, makes `table_after` of the table and `out_after` of what is
    /// to be sent. If a node of `listed` is questionable, the first such is
    /// sent one find-node request for the target, with the next transaction
    /// id of the refresh, and the table records the request. Otherwise
    /// nothing is sent and the table stays as it is.
    pub open spec fn probed(
        self,
        listed: Seq<Node>,
        now: Timestamp,
        table_before: TableView,
        table_after: TableView,
        out_before: Seq<Effect>,
        out_after: Seq<Effect>,
    ) -> bool {
        if exists|i: int| is_first_questionable(listed, now, i) {
            exists|i: int|
                {
                    &&& #[trigger] is_first_questionable(listed, now, i)
                    &&& table_before.replaced(
                        listed[i],
                        listed[i].spec_local_request(now),
                        table_after,
                    )
                    &&& out_after.len() == out_before.len() + 1
                    &&& out_after.take(out_before.len() as int) == out_before
                    &&& out_after.last() matches Effect::Send(message, to) && to
                        == listed[i].handle.addr && message.is_find_node(
                        (TransactionID {
                            action: self.id_generator.action_id.id,
                            message: self.id_generator.next_alloc,
                        }).spec_to_bytes(),
                        table_before.node_id,
                        self.spec_target(table_before.node_id),
                    )
                }
        } else {
            table_after == table_before && out_after == out_before
        }
    }

    /// One tick of the refresh at `now`. The nodes of the table are listed
    /// for the target of the bucket under the cursor. If one of them is
    /// questionable, the first such is sent one find-node request for the
    /// target, and the table records the request. Whether or not a request
    /// was sent, the next tick is scheduled and the cursor moves on.
    pub fn continue_refresh(
        &mut self,
        table: &mut RoutingTable,
        timer: &mut Timer<ScheduledTaskCheck>,
        out: &mut Vec<Effect>,
        now: Timestamp,
    )
        requires
            old(table)@.wf(),
        ensures
            final(table)@.wf(),
            final(self).curr_refresh_bucket == old(self).spec_bucket() + 1,
            final(self).id_generator.action_id == old(self).id_generator.action_id,
            final(self).id_generator.next_alloc == successor(old(self).id_generator.next_alloc),
            final(timer)@ == old(timer)@.push(
                Timeout {
                    deadline: deadline_after(now, REFRESH_INTERVAL_TIMEOUT),
                    token: ScheduledTaskCheck::TableRefresh(
                        TransactionID {
                            action: old(self).id_generator.action_id.id,
                            message: old(self).id_generator.next_alloc,
                        },
                    ),
                },
            ),
            exists|listed: Seq<Node>|
                {
                    &&& #[trigger] old(table)@.closest_nodes(
                        old(self).spec_target(old(table)@.node_id),
                        now,
                        listed,
                    )
                    &&& old(self).probed(
                        listed,
                        now,
                        old(table)@,
                        final(table)@,
                        old(out)@,
                        final(out)@,
                    )
                },
    {
        if self.curr_refresh_bucket >= MAX_BUCKETS {
            self.curr_refresh_bucket = 0;
        }
        let target_id = table.node_id().flip_bit(self.curr_refresh_bucket);
        let trans_id = self.id_generator.generate();
        let ghost before = table@;
        let ghost sent = out@;

        // Ping the closest questionable node
        let listed = table.closest_nodes(target_id, now);
        match first_questionable(&listed, now) {
            Some(i) => {
                let node = listed[i];

                // Construct the message
                let find_node_req = FindNodeRequest {
                    id: table.node_id(),
                    target: target_id,
                    want: None,
                };
                let find_node_msg = Message {
                    transaction_id: trans_id.to_bytes(),
                    body: MessageBody::Request(Request::FindNode(find_node_req)),
                };

                // Send the message
                out.push(Effect::Send(find_node_msg, node.handle.addr));

                // Mark that we requested from the node
                proof {
                    assert(listed@.contains(listed@[i as int]));
                    table.lemma_stored(node);
                }
                let ghost stored = node;
                let mut requested = node;
                requested.local_request(now);
                table.update_node(requested);
                proof {
                    table.lemma_replaced_same(before, stored, requested);
                    assert(out@.take(sent.len() as int) =~= sent);
                    assert(is_first_questionable(listed@, now, i as int));
                }
            },
            None => {
                proof {
                    assert forall|i: int| !is_first_questionable(listed@, now, i) by {}
                }
            },
        }

        proof {
            assert(target_id == old(self).spec_target(before.node_id));
            assert(before == old(table)@);
            assert(sent == old(out)@);
            assert(before.closest_nodes(old(self).spec_target(before.node_id), now, listed@));
            assert(old(self).probed(listed@, now, before, table@, sent, out@));
        }

        // Start a timer for the next refresh
        timer.schedule_in(REFRESH_INTERVAL_TIMEOUT, ScheduledTaskCheck::TableRefresh(trans_id), now);

        self.curr_refresh_bucket += 1;
    }
}

} // verus!

use crate::address::SocketAddress;
use crate::clock::Timestamp;
use crate::id::NodeId;
use crate::message::{FindNodeRequest, Message, MessageBody, Request};
use crate::routing::node::Node;
use crate::routing::table::{RoutingTable, TableView, MAX_BUCKETS};
use crate::timer::{deadline_after, Timeout, Timer};
use crate::transaction::{
    lemma_nth_successor, nth_successor, ActionID, MIDGenerator, TransactionID,
};
use crate::worker::{Effect, ScheduledTaskCheck};
use vstd::prelude::*;

verus! {

/// How long a probe of the bootstrap waits for its answer: 5 seconds, in nanoseconds.
pub const BOOTSTRAP_NODE_TIMEOUT: u128 = 5_000_000_000;

/// The most nodes that are asked in one phase after the first.
pub const BOOTSTRAP_PINGS_PER_BUCKET: usize = 8;

/// How far a bootstrap has come.
#[derive(Clone, Copy, Debug, PartialEq, Eq, Structural)]
pub enum BootstrapStatus {
    /// Nothing was started, because there is nobody to ask.
    Idle,
    /// Probes are under way.
    Bootstrapping,
    /// Nobody answered and the table holds no good node.
    Failed,
    /// Every phase is over.
    Completed,
}

/// A probe that waits for its answer.
#[derive(Clone, Copy, Debug, PartialEq, Eq, Structural)]
pub struct Ping {
    pub id: TransactionID,
    pub addr: SocketAddress,
}

/// Fills the routing table, phase by phase: one phase for each bucket, in
/// which nodes are asked for the nodes near an id in the range of that bucket.
pub struct TableBootstrap {
    pub id_generator: MIDGenerator,
    pub starting_nodes: Vec<SocketAddress>,
    pub starting_routers: Vec<SocketAddress>,
    /// The probes of the current phase that are neither answered nor timed out.
    pub active_messages: Vec<Ping>,
    /// The phase that is under way.
    pub curr_bootstrap_bucket: usize,
    /// Whether a probe of the current phase was answered.
    pub phase_answered: bool,
}

/// The probes with another transaction id than `id`.
pub open spec fn other_ping(id: TransactionID) -> spec_fn(Ping) -> bool {
    |ping: Ping| ping.id != id
}

/// The nodes at addresses that are not among `routers`.
pub open spec fn non_router(routers: Seq<SocketAddress>) -> spec_fn(Node) -> bool {
    |node: Node| !routers.contains(node.handle.addr)
}

/// Whom a phase after the first asks: the first eight of the listed nodes
/// that are no routers, fewer if there are fewer.
pub open spec fn phase_recipients(listed: Seq<Node>, routers: Seq<SocketAddress>) -> Seq<
    SocketAddress,
> {
    let eligible = listed.filter(non_router(routers));
    Seq::new(
        if eligible.len() < BOOTSTRAP_PINGS_PER_BUCKET {
            eligible.len()
        } else {
            BOOTSTRAP_PINGS_PER_BUCKET as nat
        },
        |j: int| eligible[j].handle.addr,
    )
}

/// The transaction id that a generator hands out after `steps` others.
pub open spec fn tid_at(generator: MIDGenerator, steps: int) -> TransactionID {
    TransactionID {
        action: generator.action_id.id,
        message: nth_successor(generator.next_alloc, steps as nat),
    }
}

/// Whether one find-node request for `target` went out to each of
/// `recipients`, in their order, with the transaction ids of `generator` in
/// sequence; a timeout was scheduled for each request, and each was added
/// to the probes that wait for an answer.
pub open spec fn probes_sent(
    generator: MIDGenerator,
    id: NodeId,
    target: NodeId,
    recipients: Seq<SocketAddress>,
    now: Timestamp,
    out_before: Seq<Effect>,
    out_after: Seq<Effect>,
    timer_before: Seq<Timeout<ScheduledTaskCheck>>,
    timer_after: Seq<Timeout<ScheduledTaskCheck>>,
    pinged_before: Seq<Ping>,
    pinged_after: Seq<Ping>,
) -> bool {
    &&& out_after.len() == out_before.len() + recipients.len()
    &&& out_after.take(out_before.len() as int) == out_before
    &&& forall|k: int|
        out_before.len() <= k < out_after.len() ==> (#[trigger] out_after[k] matches Effect::Send(
            message,
            to,
        ) && to == recipients[k - out_before.len()] && message.is_find_node(
            tid_at(generator, k - out_before.len()).spec_to_bytes(),
            id,
            target,
        ))
    &&& timer_after == timer_before + Seq::new(
        recipients.len(),
        |j: int|
            Timeout {
                deadline: deadline_after(now, BOOTSTRAP_NODE_TIMEOUT),
                token: ScheduledTaskCheck::BootstrapTimeout(tid_at(generator, j)),
            },
    )
    &&& pinged_after == pinged_before + Seq::new(
        recipients.len(),
        |j: int| Ping { id: tid_at(generator, j), addr: recipients[j] },
    )
}

impl TableBootstrap {
    pub open spec fn wf(self) -> bool {
        self.curr_bootstrap_bucket <= MAX_BUCKETS
    }

    /// Whether `after` differs from `self` in nothing but the probes, the
    /// cursor, the generator's counter and the flag of the phase.
    pub open spec fn same_setup(self, after: TableBootstrap) -> bool {
        &&& after.id_generator.action_id == self.id_generator.action_id
        &&& after.starting_nodes == self.starting_nodes
        &&& after.starting_routers == self.starting_routers
    }

    /// Whether the bootstrap is over after the phase `self.curr_bootstrap_bucket`:
    /// nothing is sent and nothing waits.
    pub open spec fn finished(
        self,
        after: TableBootstrap,
        status: BootstrapStatus,
        timer_before: Seq<Timeout<ScheduledTaskCheck>>,
        timer_after: Seq<Timeout<ScheduledTaskCheck>>,
        out_before: Seq<Effect>,
        out_after: Seq<Effect>,
    ) -> bool {
        &&& status == BootstrapStatus::Completed
        &&& after.curr_bootstrap_bucket == MAX_BUCKETS
        &&& after.active_messages@.len() == 0
        &&& after.id_generator == self.id_generator
        &&& after.phase_answered == false
        &&& timer_after == timer_before
        &&& out_after == out_before
    }

    /// Whether the phase `next` was taken up with the nodes of the table
    /// listed as `listed`. The first eight of them that are no routers are
    /// asked for the nodes near `target`. If there is nobody to ask, no later
    /// phase has anybody to ask either, and the bootstrap is over.
    pub open spec fn phase_started(
        self,
        listed: Seq<Node>,
        next: int,
        id: NodeId,
        now: Timestamp,
        after: TableBootstrap,
        status: BootstrapStatus,
        timer_before: Seq<Timeout<ScheduledTaskCheck>>,
        timer_after: Seq<Timeout<ScheduledTaskCheck>>,
        out_before: Seq<Effect>,
        out_after: Seq<Effect>,
    ) -> bool {
        let recipients = phase_recipients(listed, self.starting_routers@);
        if recipients.len() == 0 {
            self.finished(after, status, timer_before, timer_after, out_before, out_after)
        } else {
            &&& status == BootstrapStatus::Bootstrapping
            &&& after.curr_bootstrap_bucket == next
            &&& after.phase_answered == false
            &&& after.id_generator.next_alloc == nth_successor(
                self.id_generator.next_alloc,
                recipients.len(),
            )
            &&& probes_sent(
                self.id_generator,
                id,
                id.spec_flip_bit(next),
                recipients,
                now,
                out_before,
                out_after,
                timer_before,
                timer_after,
                Seq::empty(),
                after.active_messages@,
            )
        }
    }

    /// Whether the bootstrap went on from the phase under the cursor to the
    /// next: after the last phase it is over, and otherwise the next phase
    /// is taken up.
    pub open spec fn advanced(
        self,
        table: TableView,
        now: Timestamp,
        after: TableBootstrap,
        status: BootstrapStatus,
        timer_before: Seq<Timeout<ScheduledTaskCheck>>,
        timer_after: Seq<Timeout<ScheduledTaskCheck>>,
        out_before: Seq<Effect>,
        out_after: Seq<Effect>,
    ) -> bool {
        let next = self.curr_bootstrap_bucket + 1;
        if next >= MAX_BUCKETS {
            self.finished(after, status, timer_before, timer_after, out_before, out_after)
        } else {
            exists|listed: Seq<Node>|
                {
                    &&& #[trigger] table.closest_nodes(
                        table.node_id.spec_flip_bit(next),
                        now,
                        listed,
                    )
                    &&& self.phase_started(
                        listed,
                        next,
                        table.node_id,
                        now,
                        after,
                        status,
                        timer_before,
                        timer_after,
                        out_before,
                        out_after,
                    )
                }
        }
    }

    /// Whether the probe `id` came to its end, by an answer or by a timeout.
    /// The probe no longer waits. While others wait the bootstrap goes on as
    /// it is. When none waits the phase is over: if no probe of it was
    /// answered and the table holds no good node, the bootstrap has failed;
    /// otherwise it goes on to the next phase.
    pub open spec fn resolved(
        self,
        id: TransactionID,
        answered: bool,
        table: TableView,
        now: Timestamp,
        after: TableBootstrap,
        status: BootstrapStatus,
        timer_before: Seq<Timeout<ScheduledTaskCheck>>,
        timer_after: Seq<Timeout<ScheduledTaskCheck>>,
        out_before: Seq<Effect>,
        out_after: Seq<Effect>,
    ) -> bool {
        let remaining = self.active_messages@.filter(other_ping(id));
        let any_answer = self.phase_answered || answered;
        if remaining.len() > 0 {
            &&& status == BootstrapStatus::Bootstrapping
            &&& after.active_messages@ == remaining
            &&& after.curr_bootstrap_bucket == self.curr_bootstrap_bucket
            &&& after.phase_answered == any_answer
            &&& after.id_generator == self.id_generator
            &&& timer_after == timer_before
            &&& out_after == out_before
        } else if !any_answer && table.num_good(now) == 0 {
            &&& status == BootstrapStatus::Failed
            &&& after.active_messages@.len() == 0
            &&& after.curr_bootstrap_bucket == self.curr_bootstrap_bucket
            &&& after.phase_answered == false
            &&& after.id_generator == self.id_generator
            &&& timer_after == timer_before
            &&& out_after == out_before
        } else {
            self.advanced(
                table,
                now,
                after,
                status,
                timer_before,
                timer_after,
                out_before,
                out_after,
            )
        }
    }

    /// A bootstrap from the nodes and routers at the given addresses, which
    /// has sent nothing yet.
    pub fn new(
        id_generator: MIDGenerator,
        nodes: Vec<SocketAddress>,
        routers: Vec<SocketAddress>,
    ) -> (bootstrap: TableBootstrap)
        ensures
            bootstrap.wf(),
            bootstrap.id_generator == id_generator,
            bootstrap.starting_nodes == nodes,
            bootstrap.starting_routers == routers,
            bootstrap.active_messages@.len() == 0,
            bootstrap.curr_bootstrap_bucket == 0,
            !bootstrap.phase_answered,
    {
        TableBootstrap {
            id_generator,
            starting_nodes: nodes,
            starting_routers: routers,
            active_messages: Vec::new(),
            curr_bootstrap_bucket: 0,
            phase_answered: false,
        }
    }

    /// The action that the bootstrap runs as.
    pub fn action_id(&self) -> (action_id: ActionID)
        ensures
            action_id == self.id_generator.action_id,
    {
        self.id_generator.action_id()
    }

    /// Whether `addr` is the address of one of the routers.
    pub fn is_router(&self, addr: &SocketAddress) -> (r: bool)
        ensures
            r == self.starting_routers@.contains(*addr),
    {
        contains_addr(&self.starting_routers, addr)
    }

    /// Starts the bootstrap over with its first phase: every router and
    /// every node is asked for the nodes near the id `table_id` with its
    /// first bit inverted, the routers first. With nobody to ask nothing is
    /// started.
    pub fn start_bootstrap(
        &mut self,
        table_id: NodeId,
        timer: &mut Timer<ScheduledTaskCheck>,
        out: &mut Vec<Effect>,
        now: Timestamp,
    ) -> (status: BootstrapStatus)
        ensures
            final(self).wf(),
            old(self).same_setup(*final(self)),
            final(self).curr_bootstrap_bucket == 0,
            !final(self).phase_answered,
            status == if old(self).starting_routers@.len() + old(self).starting_nodes@.len() == 0 {
                BootstrapStatus::Idle
            } else {
                BootstrapStatus::Bootstrapping
            },
            final(self).id_generator.next_alloc == nth_successor(
                old(self).id_generator.next_alloc,
                old(self).starting_routers@.len() + old(self).starting_nodes@.len(),
            ),
            probes_sent(
                old(self).id_generator,
                table_id,
                table_id.spec_flip_bit(0),
                old(self).starting_routers@ + old(self).starting_nodes@,
                now,
                old(out)@,
                final(out)@,
                old(timer)@,
                final(timer)@,
                Seq::empty(),
                final(self).active_messages@,
            ),
    {
        // Reset the bootstrap state
        self.active_messages = Vec::new();
        self.curr_bootstrap_bucket = 0;
        self.phase_answered = false;

        // Ask every router and every node for the nodes near the first target
        let mut recipients: Vec<SocketAddress> = Vec::new();
        let mut i: usize = 0;
        while i < self.starting_routers.len()
            invariant
                i <= self.starting_routers@.len(),
                recipients@ == self.starting_routers@.take(i as int),
            decreases self.starting_routers@.len() - i,
        {
            recipients.push(self.starting_routers[i]);
            proof {
                assert(self.starting_routers@.take(i + 1) =~= self.starting_routers@.take(
                    i as int,
                ).push(self.starting_routers@[i as int]));
            }
            i += 1;
        }
        proof {
            assert(self.starting_routers@.take(i as int) =~= self.starting_routers@);
        }
        let mut j: usize = 0;
        while j < self.starting_nodes.len()
            invariant
                j <= self.starting_nodes@.len(),
                recipients@ == self.starting_routers@ + self.starting_nodes@.take(j as int),
            decreases self.starting_nodes@.len() - j,
        {
            recipients.push(self.starting_nodes[j]);
            proof {
                assert(self.starting_nodes@.take(j + 1) =~= self.starting_nodes@.take(
                    j as int,
                ).push(self.starting_nodes@[j as int]));
                assert(recipients@ =~= self.starting_routers@ + self.starting_nodes@.take(j + 1));
            }
            j += 1;
        }
        proof {
            assert(self.starting_nodes@.take(j as int) =~= self.starting_nodes@);
        }
        self.send_probes(table_id, table_id.flip_bit(0), &recipients, timer, out, now);
        if recipients.len() == 0 {
            BootstrapStatus::Idle
        } else {
            BootstrapStatus::Bootstrapping
        }
    }

    /// Takes in the answer to the probe `trans_id`, which came from `addr`.
    pub fn recv_response(
        &mut self,
        addr: SocketAddress,
        trans_id: &TransactionID,
        table: &RoutingTable,
        timer: &mut Timer<ScheduledTaskCheck>,
        out: &mut Vec<Effect>,
        now: Timestamp,
    ) -> (status: BootstrapStatus)
        requires
            old(self).wf(),
            table@.wf(),
        ensures
            final(self).wf(),
            old(self).same_setup(*final(self)),
            old(self).resolved(
                *trans_id,
                true,
                table@,
                now,
                *final(self),
                status,
                old(timer)@,
                final(timer)@,
                old(out)@,
                final(out)@,
            ),
    {
        self.resolve(trans_id, true, table, timer, out, now)
    }

    /// Takes in that the probe `trans_id` went unanswered.
    pub fn recv_timeout(
        &mut self,
        trans_id: &TransactionID,
        table: &RoutingTable,
        timer: &mut Timer<ScheduledTaskCheck>,
        out: &mut Vec<Effect>,
        now: Timestamp,
    ) -> (status: BootstrapStatus)
        requires
            old(self).wf(),
            table@.wf(),
        ensures
            final(self).wf(),
            old(self).same_setup(*final(self)),
            old(self).resolved(
                *trans_id,
                false,
                table@,
                now,
                *final(self),
                status,
                old(timer)@,
                final(timer)@,
                old(out)@,
                final(out)@,
            ),
    {
        self.resolve(trans_id, false, table, timer, out, now)
    }

    /// Ends the probe `trans_id`, and the phase with it if no other probe waits.
    fn resolve(
        &mut self,
        trans_id: &TransactionID,
        answered: bool,
        table: &RoutingTable,
        timer: &mut Timer<ScheduledTaskCheck>,
        out: &mut Vec<Effect>,
        now: Timestamp,
    ) -> (status: BootstrapStatus)
        requires
            old(self).wf(),
            table@.wf(),
        ensures
            final(self).wf(),
            old(self).same_setup(*final(self)),
            old(self).resolved(
                *trans_id,
                answered,
                table@,
                now,
                *final(self),
                status,
                old(timer)@,
                final(timer)@,
                old(out)@,
                final(out)@,
            ),
    {
        // Remove the probe from the probes that wait
        let ghost pinged = self.active_messages@;
        let mut remaining: Vec<Ping> = Vec::new();
        let mut i: usize = 0;
        proof {
            assert(pinged.take(0) =~= Seq::<Ping>::empty());
            assert(pinged.take(0).filter(other_ping(*trans_id)) =~= Seq::<Ping>::empty());
        }
        while i < self.active_messages.len()
            invariant
                i <= pinged.len(),
                self.active_messages@ == pinged,
                remaining@ == pinged.take(i as int).filter(other_ping(*trans_id)),
            decreases pinged.len() - i,
        {
            proof {
                assert(pinged.take(i + 1) =~= pinged.take(i as int).push(pinged[i as int]));
                pinged.take(i as int).lemma_filter_push(pinged[i as int], other_ping(*trans_id));
            }
            if self.active_messages[i].id != *trans_id {
                remaining.push(self.active_messages[i]);
            }
            i += 1;
        }
        proof {
            assert(pinged.take(i as int) =~= pinged);
        }
        let waiting = remaining.len();
        self.active_messages = remaining;
        if answered {
            self.phase_answered = true;
        }
        // Check if we are still waiting for probes of this phase
        if waiting > 0 {
            return BootstrapStatus::Bootstrapping;
        }
        if !self.phase_answered && table.num_good_nodes(now) == 0 {
            self.phase_answered = false;
            return BootstrapStatus::Failed;
        }
        let ghost before = *self;
        let status = self.bootstrap_next_bucket(table, timer, out, now);
        proof {
            assert(before.curr_bootstrap_bucket == old(self).curr_bootstrap_bucket);
            assert(before.id_generator == old(self).id_generator);
            assert(before.starting_routers == old(self).starting_routers);
        }
        status
    }

    /// Goes on to the next phase.
    fn bootstrap_next_bucket(
        &mut self,
        table: &RoutingTable,
        timer: &mut Timer<ScheduledTaskCheck>,
        out: &mut Vec<Effect>,
        now: Timestamp,
    ) -> (status: BootstrapStatus)
        requires
            old(self).wf(),
            old(self).active_messages@.len() == 0,
            table@.wf(),
        ensures
            final(self).wf(),
            old(self).same_setup(*final(self)),
            old(self).advanced(
                table@,
                now,
                *final(self),
                status,
                old(timer)@,
                final(timer)@,
                old(out)@,
                final(out)@,
            ),
    {
        self.phase_answered = false;
        let next = self.curr_bootstrap_bucket + 1;
        if next >= MAX_BUCKETS {
            self.curr_bootstrap_bucket = MAX_BUCKETS;
            return BootstrapStatus::Completed;
        }
        let target = table.node_id().flip_bit(next);
        let listed = table.closest_nodes(target, now);

        // Pick the closest nodes that are no routers
        let ghost routers = self.starting_routers@;
        let mut eligible: Vec<Node> = Vec::new();
        let mut i: usize = 0;
        proof {
            assert(listed@.take(0) =~= Seq::<Node>::empty());
            assert(listed@.take(0).filter(non_router(routers)) =~= Seq::<Node>::empty());
        }
        while i < listed.len()
            invariant
                i <= listed@.len(),
                routers == self.starting_routers@,
                eligible@ == listed@.take(i as int).filter(non_router(routers)),
            decreases listed@.len() - i,
        {
            proof {
                assert(listed@.take(i + 1) =~= listed@.take(i as int).push(listed@[i as int]));
                listed@.take(i as int).lemma_filter_push(listed@[i as int], non_router(routers));
            }
            if !self.is_router(&listed[i].handle.addr) {
                eligible.push(listed[i]);
            }
            i += 1;
        }
        proof {
            assert(listed@.take(i as int) =~= listed@);
        }
        let mut recipients: Vec<SocketAddress> = Vec::new();
        let mut j: usize = 0;
        while j < eligible.len() && j < BOOTSTRAP_PINGS_PER_BUCKET
            invariant
                j <= eligible@.len(),
                j <= BOOTSTRAP_PINGS_PER_BUCKET,
                recipients@.len() == j,
                forall|k: int| 0 <= k < j ==> #[trigger] recipients@[k] == eligible@[k].handle.addr,
            decreases eligible@.len() - j,
        {
            recipients.push(eligible[j].handle.addr);
            j += 1;
        }
        proof {
            assert(recipients@ =~= phase_recipients(listed@, routers));
        }
        if recipients.len() == 0 {
            self.curr_bootstrap_bucket = MAX_BUCKETS;
            proof {
                assert(old(self).phase_started(
                    listed@,
                    next as int,
                    table@.node_id,
                    now,
                    *self,
                    BootstrapStatus::Completed,
                    old(timer)@,
                    timer@,
                    old(out)@,
                    out@,
                ));
            }
            return BootstrapStatus::Completed;
        }
        self.curr_bootstrap_bucket = next;
        self.send_probes(table.node_id(), target, &recipients, timer, out, now);
        proof {
            assert(old(self).phase_started(
                listed@,
                next as int,
                table@.node_id,
                now,
                *self,
                BootstrapStatus::Bootstrapping,
                old(timer)@,
                timer@,
                old(out)@,
                out@,
            ));
        }
        BootstrapStatus::Bootstrapping
    }

    /// Sends one find-node request for `target` to each of `recipients`.
    fn send_probes(
        &mut self,
        id: NodeId,
        target: NodeId,
        recipients: &Vec<SocketAddress>,
        timer: &mut Timer<ScheduledTaskCheck>,
        out: &mut Vec<Effect>,
        now: Timestamp,
    )
        ensures
            old(self).same_setup(*final(self)),
            final(self).curr_bootstrap_bucket == old(self).curr_bootstrap_bucket,
            final(self).phase_answered == old(self).phase_answered,
            final(self).id_generator.next_alloc == nth_successor(
                old(self).id_generator.next_alloc,
                recipients@.len(),
            ),
            probes_sent(
                old(self).id_generator,
                id,
                target,
                recipients@,
                now,
                old(out)@,
                final(out)@,
                old(timer)@,
                final(timer)@,
                old(self).active_messages@,
                final(self).active_messages@,
            ),
    {
        let ghost generator = self.id_generator;
        let ghost out_before = out@;
        let ghost timer_before = timer@;
        let ghost pinged_before = self.active_messages@;
        let mut i: usize = 0;
        proof {
            lemma_nth_successor(generator.next_alloc, 0);
            assert(out@.take(out_before.len() as int) =~= out_before);
            assert(timer@ =~= timer_before + Seq::new(
                0,
                |j: int|
                    Timeout {
                        deadline: deadline_after(now, BOOTSTRAP_NODE_TIMEOUT),
                        token: ScheduledTaskCheck::BootstrapTimeout(tid_at(generator, j)),
                    },
            ));
            assert(self.active_messages@ =~= pinged_before + Seq::new(
                0,
                |j: int| Ping { id: tid_at(generator, j), addr: recipients@[j] },
            ));
        }
        while i < recipients.len()
            invariant
                i <= recipients@.len(),
                generator == old(self).id_generator,
                old(self).same_setup(*self),
                self.curr_bootstrap_bucket == old(self).curr_bootstrap_bucket,
                self.phase_answered == old(self).phase_answered,
                self.id_generator.action_id == generator.action_id,
                self.id_generator.next_alloc == nth_successor(generator.next_alloc, i as nat),
                probes_sent(
                    generator,
                    id,
                    target,
                    recipients@.take(i as int),
                    now,
                    out_before,
                    out@,
                    timer_before,
                    timer@,
                    pinged_before,
                    self.active_messages@,
                ),
            decreases recipients@.len() - i,
        {
            let ghost out_mid = out@;
            let ghost timer_mid = timer@;
            let ghost pinged_mid = self.active_messages@;
            let addr = recipients[i];
            let trans_id = self.id_generator.generate();
            let find_node_req = FindNodeRequest { id, target, want: None };
            let find_node_msg = Message {
                transaction_id: trans_id.to_bytes(),
                body: MessageBody::Request(Request::FindNode(find_node_req)),
            };
            out.push(Effect::Send(find_node_msg, addr));
            timer.schedule_in(
                BOOTSTRAP_NODE_TIMEOUT,
                ScheduledTaskCheck::BootstrapTimeout(trans_id),
                now,
            );
            self.active_messages.push(Ping { id: trans_id, addr });
            proof {
                lemma_nth_successor(generator.next_alloc, i as nat);
                let sent = recipients@.take(i as int);
                let sent_next = recipients@.take(i + 1);
                assert(trans_id == tid_at(generator, i as int));
                assert(out@.take(out_before.len() as int) =~= out_mid.take(
                    out_before.len() as int,
                ));
                assert forall|k: int| out_before.len() <= k < out@.len() implies (
                #[trigger] out@[k] matches Effect::Send(message, to) && to == sent_next[k
                    - out_before.len()] && message.is_find_node(
                    tid_at(generator, k - out_before.len()).spec_to_bytes(),
                    id,
                    target,
                )) by {
                    if k < out_mid.len() {
                        assert(out@[k] == out_mid[k]);
                        assert(sent_next[k - out_before.len()] == sent[k - out_before.len()]);
                    }
                }
                assert(timer@ =~= timer_before + Seq::new(
                    sent_next.len(),
                    |j: int|
                        Timeout {
                            deadline: deadline_after(now, BOOTSTRAP_NODE_TIMEOUT),
                            token: ScheduledTaskCheck::BootstrapTimeout(tid_at(generator, j)),
                        },
                ));
                assert(self.active_messages@ =~= pinged_before + Seq::new(
                    sent_next.len(),
                    |j: int| Ping { id: tid_at(generator, j), addr: sent_next[j] },
                ));
            }
            i += 1;
        }
        proof {
            assert(recipients@.take(i as int) =~= recipients@);
        }
    }
}

/// Whether `addr` is among `addrs`.
pub fn contains_addr(addrs: &Vec<SocketAddress>, addr: &SocketAddress) -> (r: bool)
    ensures
        r == addrs@.contains(*addr),
{
    let mut i: usize = 0;
    while i < addrs.len()
        invariant
            i <= addrs@.len(),
            forall|j: int| 0 <= j < i ==> addrs@[j] != *addr,
        decreases addrs@.len() - i,
    {
        if addrs[i] == *addr {
            return true;
        }
        i += 1;
    }
    false
}

} // verus!

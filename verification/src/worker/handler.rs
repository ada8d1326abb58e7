use crate::address::{AddressFamily, SocketAddress};
use crate::clock::Timestamp;
use crate::error_code;
use crate::id::InfoHash;
use crate::message::{
    AnnouncePeerRequest, Error, FindNodeRequest, GetPeersRequest, GetPeersResponse, Message,
    MessageBody, OtherResponse, PingRequest, Request, Response, Want,
};
use crate::routing::node::{Node, NodeHandle};
use crate::routing::table::{RoutingTable, TableView};
use crate::storage::{contacts_of, prune, spec_add, AnnounceStorage};
use crate::timer::{deadline_after, is_earliest, Timeout, Timer};
use crate::token::{bytes_of_u32, Token, TokenStore};
use crate::transaction::{successor, AIDGenerator, ActionID, MIDGenerator, TransactionID};
use crate::worker::bootstrap::{probes_sent, BootstrapStatus, TableBootstrap};
use crate::worker::lookup::{
    announces_added, fresh_values, get_peers_added, seeds, token_view, LookupStatus, LookupView,
    TableLookup, MAX_ACTIVE_SEARCHES,
};
use crate::worker::refresh::{TableRefresh, REFRESH_INTERVAL_TIMEOUT};
use crate::worker::{DhtEvent, Effect, OneshotTask, ScheduledTaskCheck};
use std::collections::HashMap;
use vstd::prelude::*;

verus! {

broadcast use vstd::std_specs::hash::group_hash_axioms;

/// The most times that a bootstrap is started before it is given up.
pub const MAX_BOOTSTRAP_ATTEMPTS: usize = 3;

/// The number of good nodes up to which a finished bootstrap is started over.
pub const BOOTSTRAP_GOOD_NODE_THRESHOLD: usize = 10;

/// The most nodes that an answer names.
pub const MAX_NODES_RETURNED: usize = 8;

/// Actions that we can perform on our RoutingTable.
pub enum TableAction {
    /// Lookup action.
    Lookup(TableLookup),
    /// Refresh action.
    Refresh(TableRefresh),
    /// Bootstrap action, with the number of times that it was started over.
    Bootstrap(TableBootstrap, usize),
}

/// Actions that we want to perform on our RoutingTable after bootstrapping finishes.
pub enum PostBootstrapAction {
    /// Future lookup action.
    Lookup(InfoHash, bool),
    /// Future refresh action.
    Refresh(TableRefresh, TransactionID),
}

/// The state of the worker: the routing table, the procedures that are
/// under way, the storage of announced peers, the tokens and the timer.
pub struct DhtHandler {
    pub running: bool,
    pub timer: Timer<ScheduledTaskCheck>,
    pub read_only: bool,
    pub announce_port: Option<u16>,
    pub token_store: TokenStore,
    pub aid_generator: AIDGenerator,
    pub bootstrapping: bool,
    pub routing_table: RoutingTable,
    pub active_stores: AnnounceStorage,
    /// What is to be done once the bootstrap is over. While this is not
    /// empty before the first bootstrap, the refresh has not begun.
    pub future_actions: Vec<PostBootstrapAction>,
    pub table_actions: HashMap<u32, TableAction>,
}

/// Whether `action` can be registered under `key`: it runs as the action
/// `key`, and a bootstrap has attempts left.
pub open spec fn action_wf(key: u32, action: TableAction) -> bool {
    match action {
        TableAction::Lookup(lookup) => lookup.wf() && lookup.id_generator.action_id.id == key,
        TableAction::Refresh(refresh) => refresh.id_generator.action_id.id == key,
        TableAction::Bootstrap(bootstrap, attempts) => bootstrap.wf()
            && bootstrap.id_generator.action_id.id == key && attempts < MAX_BOOTSTRAP_ATTEMPTS,
    }
}

/// Whether every action is registered under its own id, which is one of
/// the ids before `next_alloc`.
pub open spec fn actions_wf(actions: Map<u32, TableAction>, next_alloc: u32) -> bool {
    forall|k: u32|
        #![trigger actions.contains_key(k)]
        actions.contains_key(k) ==> action_wf(k, actions[k]) && k < next_alloc
}

/// Actions that are registered under ids before one number are registered
/// under ids before any larger number.
pub proof fn lemma_actions_wf(actions: Map<u32, TableAction>, next_alloc: u32, later: u32)
    requires
        actions_wf(actions, next_alloc),
        next_alloc <= later,
    ensures
        actions_wf(actions, later),
{
}

/// Whether every action of `before`, but the one under `except`, is
/// registered in `after` as it was.
pub open spec fn others_kept(
    before: Map<u32, TableAction>,
    after: Map<u32, TableAction>,
    except: u32,
) -> bool {
    forall|k: u32|
        k != except && #[trigger] before.contains_key(k) ==> after.contains_key(k) && after[k]
            == before[k]
}

/// Whether every action of `before` is registered in `after` as it was.
pub open spec fn all_kept(before: Map<u32, TableAction>, after: Map<u32, TableAction>) -> bool {
    forall|k: u32| #[trigger] before.contains_key(k) ==> after.contains_key(k) && after[k] == before[k]
}

/// Whether `after` is `before` with effects appended.
pub open spec fn extends(before: Seq<Effect>, after: Seq<Effect>) -> bool {
    &&& before.len() <= after.len()
    &&& forall|i: int| 0 <= i < before.len() ==> #[trigger] after[i] == before[i]
}

/// A sequence whose head is `before` extends `before`.
pub proof fn lemma_extends(before: Seq<Effect>, after: Seq<Effect>)
    requires
        before.len() <= after.len(),
        after.take(before.len() as int) == before,
    ensures
        extends(before, after),
{
    assert forall|i: int| 0 <= i < before.len() implies #[trigger] after[i] == before[i] by {
        assert(after.take(before.len() as int)[i] == after[i]);
    }
}

/// What is kept from one map to a second, and from the second to a third,
/// is kept from the first to the third.
pub proof fn lemma_kept(
    first: Map<u32, TableAction>,
    second: Map<u32, TableAction>,
    third: Map<u32, TableAction>,
    except: u32,
)
    requires
        others_kept(first, second, except),
        others_kept(second, third, except) || all_kept(second, third),
    ensures
        others_kept(first, third, except),
{
    assert forall|k: u32| k != except && #[trigger] first.contains_key(k) implies third.contains_key(
        k,
    ) && third[k] == first[k] by {
        assert(second.contains_key(k));
    }
}

/// The nodes whose address is of the family `family`.
pub open spec fn of_family(family: AddressFamily) -> spec_fn(Node) -> bool {
    |node: Node| node.handle.addr.ip.spec_family() == family
}

/// The addresses of version 4.
pub open spec fn is_v4() -> spec_fn(SocketAddress) -> bool {
    |addr: SocketAddress| addr.spec_is_ipv4()
}

/// The handles of the first eight of `nodes`, of all if there are fewer.
pub open spec fn first_handles(nodes: Seq<Node>) -> Seq<NodeHandle> {
    Seq::new(
        if nodes.len() < MAX_NODES_RETURNED {
            nodes.len()
        } else {
            MAX_NODES_RETURNED as nat
        },
        |i: int| nodes[i].handle,
    )
}

/// The handles that an answer names of the nodes that are listed for its
/// target: the first eight of the family `family`, or none where the
/// family is not wanted.
pub open spec fn wanted_handles(listed: Seq<Node>, family: AddressFamily, want: Want) -> Seq<
    NodeHandle,
> {
    if want == Want::Both || (want == Want::V4 && family == AddressFamily::V4) || (want
        == Want::V6 && family == AddressFamily::V6) {
        first_handles(listed.filter(of_family(family)))
    } else {
        Seq::empty()
    }
}

/// The families of which the sender of a find-node request wants nodes:
/// those that it names, or else the family of the local socket, if that is known.
pub open spec fn effective_want(want: Option<Want>, local_family: Option<AddressFamily>) -> Option<
    Want,
> {
    match want {
        Some(want) => Some(want),
        None => match local_family {
            Some(AddressFamily::V4) => Some(Want::V4),
            Some(AddressFamily::V6) => Some(Want::V6),
            None => None,
        },
    }
}

/// The address under which an announce from `addr` is stored: `addr` with
/// the port that the request names, or `addr` itself where it names none.
pub open spec fn connect_addr(addr: SocketAddress, port: Option<u16>) -> SocketAddress {
    match port {
        Some(port) => SocketAddress { ip: addr.ip, port },
        None => addr,
    }
}

/// Whether `after` is `before` with a request at `now` noted from the node
/// with the handle, where the table holds that node.
pub open spec fn request_noted(
    before: TableView,
    handle: NodeHandle,
    now: Timestamp,
    after: TableView,
) -> bool {
    if before.has_handle(handle) {
        exists|stored: Node|
            stored.handle == handle && #[trigger] before.replaced(
                stored,
                stored.spec_remote_request(now),
                after,
            )
    } else {
        after == before
    }
}

/// Whether a response with the tag `tag` is expected: the tag is a
/// transaction id of ours, an action is registered under its action id,
/// and the response is of the kind that the action asks for.
pub open spec fn response_expected(
    actions: Map<u32, TableAction>,
    tag: Seq<u8>,
    response: Response,
) -> bool {
    match TransactionID::spec_from_bytes(tag) {
        Some(id) => actions.contains_key(id.action) && match (actions[id.action], response) {
            (TableAction::Lookup(_), Response::GetPeers(_)) => true,
            (TableAction::Refresh(_), Response::Other(_)) => true,
            (TableAction::Bootstrap(_, _), Response::Other(_)) => true,
            _ => false,
        },
        None => false,
    }
}

/// The number of good nodes in the routing table at `now`.
pub fn num_good_nodes(table: &RoutingTable, now: Timestamp) -> (n: usize)
    requires
        table@.wf(),
    ensures
        n == table@.num_good(now),
{
    table.num_good_nodes(now)
}

/// We should rebootstrap if we have a low number of nodes.
pub fn should_rebootstrap(table: &RoutingTable, now: Timestamp) -> (again: bool)
    requires
        table@.wf(),
    ensures
        again == (table@.num_good(now) <= BOOTSTRAP_GOOD_NODE_THRESHOLD),
{
    num_good_nodes(table, now) <= BOOTSTRAP_GOOD_NODE_THRESHOLD
}

/// Attempt to rebootstrap, or give up if we have no nodes after
/// rebootstrapping multiple times. Returns `None` if the worker is to shut
/// down, `Some(true)` if the bootstrap was started over, and `Some(false)`
/// if it is not started over.
///
/// The attempt is counted. If that was the last attempt, nothing is sent:
/// the worker gives up if the table holds no good node, and goes on with
/// the table as it is otherwise. If attempts are left, the bootstrap starts
/// over with its first phase, unless it has nobody to ask.
pub fn attempt_rebootstrap(
    bootstrap: &mut TableBootstrap,
    attempts: &mut usize,
    routing_table: &RoutingTable,
    timer: &mut Timer<ScheduledTaskCheck>,
    out: &mut Vec<Effect>,
    now: Timestamp,
) -> (started: Option<bool>)
    requires
        routing_table@.wf(),
        *old(attempts) < MAX_BOOTSTRAP_ATTEMPTS,
    ensures
        *final(attempts) == *old(attempts) + 1,
        old(bootstrap).same_setup(*final(bootstrap)),
        started == Some(true) ==> *final(attempts) < MAX_BOOTSTRAP_ATTEMPTS && final(bootstrap).wf(),
        if *old(attempts) + 1 >= MAX_BOOTSTRAP_ATTEMPTS {
            &&& started == if routing_table@.num_good(now) == 0 {
                None::<bool>
            } else {
                Some(false)
            }
            &&& *final(bootstrap) == *old(bootstrap)
            &&& final(timer)@ == old(timer)@
            &&& final(out)@ == old(out)@
        } else {
            &&& started == Some(
                old(bootstrap).starting_routers@.len() + old(bootstrap).starting_nodes@.len() != 0,
            )
            &&& final(bootstrap).curr_bootstrap_bucket == 0
            &&& probes_sent(
                old(bootstrap).id_generator,
                routing_table@.node_id,
                routing_table@.node_id.spec_flip_bit(0),
                old(bootstrap).starting_routers@ + old(bootstrap).starting_nodes@,
                now,
                old(out)@,
                final(out)@,
                old(timer)@,
                final(timer)@,
                Seq::empty(),
                final(bootstrap).active_messages@,
            )
        },
{
    // Increment the bootstrap counter
    *attempts += 1;

    // Check if we reached the maximum bootstrap attempts
    if *attempts >= MAX_BOOTSTRAP_ATTEMPTS {
        if num_good_nodes(routing_table, now) == 0 {
            // Failed to get any nodes in the rebootstrap attempts, shut down
            None
        } else {
            Some(false)
        }
    } else {
        let bootstrap_status = bootstrap.start_bootstrap(routing_table.node_id(), timer, out, now);
        match bootstrap_status {
            BootstrapStatus::Idle => Some(false),
            BootstrapStatus::Bootstrapping => Some(true),
            BootstrapStatus::Failed => None,
            BootstrapStatus::Completed => Some(false),
        }
    }
}

impl DhtHandler {
    /// The table and the storage are well formed, and every action is
    /// registered under its own id, which the generator has handed out.
    pub open spec fn wf(&self) -> bool {
        &&& self.routing_table@.wf()
        &&& self.active_stores.wf()
        &&& actions_wf(self.table_actions@, self.aid_generator.next_alloc)
    }

    /// Whether `after` has the setup of `self`: the same mode, the same port
    /// to announce and the same id.
    pub open spec fn same_setup(&self, after: &DhtHandler) -> bool {
        &&& after.read_only == self.read_only
        &&& after.announce_port == self.announce_port
        &&& after.routing_table@.node_id == self.routing_table@.node_id
    }

    /// Whether `after` differs from `self` in nothing but that it has stopped.
    pub open spec fn stopped(&self, after: &DhtHandler) -> bool {
        &&& !after.running
        &&& after.timer@ == self.timer@
        &&& after.read_only == self.read_only
        &&& after.announce_port == self.announce_port
        &&& after.token_store == self.token_store
        &&& after.aid_generator == self.aid_generator
        &&& after.bootstrapping == self.bootstrapping
        &&& after.routing_table == self.routing_table
        &&& after.active_stores == self.active_stores
        &&& after.future_actions == self.future_actions
        &&& after.table_actions == self.table_actions
    }

    /// Whether `cleared` is `self` at the end of the bootstrap that ran
    /// under `key`: it is no longer bootstrapping, nothing waits for the end
    /// of the bootstrap, and no action is registered under `key`.
    pub open spec fn cleared(&self, key: u32, cleared: &DhtHandler) -> bool {
        &&& cleared.running == self.running
        &&& cleared.timer@ == self.timer@
        &&& cleared.read_only == self.read_only
        &&& cleared.announce_port == self.announce_port
        &&& cleared.token_store == self.token_store
        &&& cleared.aid_generator == self.aid_generator
        &&& !cleared.bootstrapping
        &&& cleared.routing_table == self.routing_table
        &&& cleared.active_stores == self.active_stores
        &&& cleared.future_actions@.len() == 0
        &&& cleared.table_actions@ == self.table_actions@.remove(key)
    }

    /// Whether `action`, which waited for the end of the bootstrap, was
    /// begun at `now`. A lookup is begun as a command to look up begins it.
    /// The refresh is registered under its action id and makes its first
    /// tick; a refresh whose action id is in use or was never handed out is
    /// dropped.
    pub open spec fn action_begun(
        &self,
        action: PostBootstrapAction,
        now: Timestamp,
        after: &DhtHandler,
        out_before: Seq<Effect>,
        out_after: Seq<Effect>,
    ) -> bool {
        match action {
            PostBootstrapAction::Lookup(info_hash, should_announce) => self.lookup_begun(
                info_hash,
                should_announce,
                now,
                after,
                out_before,
                out_after,
            ),
            PostBootstrapAction::Refresh(refresh, id) => {
                let key = refresh.id_generator.action_id.id;
                if key == id.action && key < self.aid_generator.next_alloc
                    && !self.table_actions@.contains_key(key) {
                    exists|registered: DhtHandler|
                        {
                            &&& self.same_but_actions(&registered)
                            &&& registered.table_actions@ == self.table_actions@.insert(
                                key,
                                TableAction::Refresh(refresh),
                            )
                            &&& #[trigger] registered.refresh_ticked(
                                key,
                                now,
                                after,
                                out_before,
                                out_after,
                            )
                        }
                } else {
                    *after == *self && out_after == out_before
                }
            },
        }
    }

    /// Whether the actions `waiting` were begun at `now`, one after the other.
    pub open spec fn actions_begun(
        &self,
        waiting: Seq<PostBootstrapAction>,
        now: Timestamp,
        after: &DhtHandler,
        out_before: Seq<Effect>,
        out_after: Seq<Effect>,
    ) -> bool
        decreases waiting.len(),
    {
        if waiting.len() == 0 {
            *after == *self && out_after == out_before
        } else {
            exists|mid: DhtHandler, out_mid: Seq<Effect>|
                self.actions_begun(waiting.drop_last(), now, &mid, out_before, out_mid)
                    && #[trigger] mid.action_begun(waiting.last(), now, after, out_mid, out_after)
        }
    }

    /// Whether the end of the bootstrap that ran under `key` was made known
    /// at `now`: the client is told first of all, the worker is no longer
    /// bootstrapping, and what waited for the end of the bootstrap is begun
    /// in its order.
    pub open spec fn completed(
        &self,
        key: u32,
        now: Timestamp,
        after: &DhtHandler,
        out_before: Seq<Effect>,
        out_after: Seq<Effect>,
    ) -> bool {
        &&& after.running == self.running
        &&& !after.bootstrapping
        &&& after.future_actions@.len() == 0
        &&& out_after.len() > out_before.len()
        &&& out_after[out_before.len() as int] == Effect::Event(DhtEvent::BootstrapCompleted)
        &&& exists|cleared: DhtHandler|
            self.cleared(key, &cleared) && #[trigger] cleared.actions_begun(
                self.future_actions@,
                now,
                after,
                out_before.push(Effect::Event(DhtEvent::BootstrapCompleted)),
                out_after,
            )
    }

    /// Whether the bootstrap `bootstrap` goes on with `attempts` restarts
    /// behind it: it is registered under its action id, and nothing else
    /// changes but the timer.
    pub open spec fn carried_on(
        &self,
        bootstrap: TableBootstrap,
        attempts: usize,
        after: &DhtHandler,
    ) -> bool {
        &&& after.running == self.running
        &&& after.read_only == self.read_only
        &&& after.announce_port == self.announce_port
        &&& after.token_store == self.token_store
        &&& after.aid_generator == self.aid_generator
        &&& after.bootstrapping == self.bootstrapping
        &&& after.routing_table == self.routing_table
        &&& after.active_stores == self.active_stores
        &&& after.future_actions == self.future_actions
        &&& after.table_actions@ == self.table_actions@.insert(
            bootstrap.id_generator.action_id.id,
            TableAction::Bootstrap(bootstrap, attempts),
        )
    }

    /// Whether the worker has acted on what a step of `bootstrap` has
    /// yielded. A bootstrap that goes on is registered again. A bootstrap
    /// that has failed ends the worker, and the client is told. A bootstrap
    /// that had nothing to do is completed. A bootstrap whose phases are
    /// over is completed if the table holds more good nodes than the
    /// threshold. Otherwise the attempt is counted: after the last attempt
    /// the worker gives up if the table holds no good node and completes the
    /// bootstrap if it holds any; before that the bootstrap starts over,
    /// and is completed if it has nobody to ask.
    pub open spec fn concluded(
        &self,
        bootstrap: TableBootstrap,
        attempts: usize,
        status: BootstrapStatus,
        now: Timestamp,
        after: &DhtHandler,
        out_before: Seq<Effect>,
        out_after: Seq<Effect>,
    ) -> bool {
        let good = self.routing_table@.num_good(now);
        let askable = bootstrap.starting_routers@.len() + bootstrap.starting_nodes@.len();
        let key = bootstrap.id_generator.action_id.id;
        match status {
            BootstrapStatus::Idle => self.completed(key, now, after, out_before, out_after),
            BootstrapStatus::Bootstrapping => self.carried_on(bootstrap, attempts, after)
                && after.timer@ == self.timer@ && out_after == out_before,
            BootstrapStatus::Failed => self.stopped(after) && out_after == out_before.push(
                Effect::Event(DhtEvent::BootstrapFailed),
            ),
            BootstrapStatus::Completed => if good > BOOTSTRAP_GOOD_NODE_THRESHOLD {
                self.completed(key, now, after, out_before, out_after)
            } else if attempts + 1 >= MAX_BOOTSTRAP_ATTEMPTS {
                if good == 0 {
                    self.stopped(after) && out_after == out_before.push(
                        Effect::Event(DhtEvent::BootstrapFailed),
                    )
                } else {
                    self.completed(key, now, after, out_before, out_after)
                }
            } else if askable == 0 {
                self.completed(key, now, after, out_before, out_after)
            } else {
                exists|restarted: TableBootstrap|
                    {
                        &&& #[trigger] self.carried_on(restarted, (attempts + 1) as usize, after)
                        &&& bootstrap.same_setup(restarted)
                        &&& restarted.curr_bootstrap_bucket == 0
                        &&& probes_sent(
                            bootstrap.id_generator,
                            self.routing_table@.node_id,
                            self.routing_table@.node_id.spec_flip_bit(0),
                            bootstrap.starting_routers@ + bootstrap.starting_nodes@,
                            now,
                            out_before,
                            out_after,
                            self.timer@,
                            after.timer@,
                            Seq::empty(),
                            restarted.active_messages@,
                        )
                    }
            },
        }
    }

    /// Whether a bootstrap from `routers` and `nodes` was begun at `now`.
    /// Without an action id to run it under, the worker stops and the client
    /// is told that the bootstrap has failed. With nobody to ask, the
    /// bootstrap is completed at once. Otherwise every router and every
    /// node is asked for the nodes near the worker's own id with its first
    /// bit inverted, and the bootstrap is registered under the next action
    /// id with no restart behind it.
    pub open spec fn bootstrap_begun(
        &self,
        routers: Seq<SocketAddress>,
        nodes: Seq<SocketAddress>,
        now: Timestamp,
        after: &DhtHandler,
        out_before: Seq<Effect>,
        out_after: Seq<Effect>,
    ) -> bool {
        let key = self.aid_generator.next_alloc;
        if key == u32::MAX {
            self.stopped(after) && out_after == out_before.push(
                Effect::Event(DhtEvent::BootstrapFailed),
            )
        } else if routers.len() + nodes.len() == 0 {
            exists|begun: DhtHandler|
                {
                    &&& begun.aid_generator.next_alloc == key + 1
                    &&& begun.running == self.running
                    &&& begun.timer@ == self.timer@
                    &&& begun.token_store == self.token_store
                    &&& begun.routing_table == self.routing_table
                    &&& begun.active_stores == self.active_stores
                    &&& begun.future_actions == self.future_actions
                    &&& begun.table_actions == self.table_actions
                    &&& #[trigger] begun.completed(key, now, after, out_before, out_after)
                }
        } else {
            &&& after.running == self.running
            &&& after.bootstrapping
            &&& after.aid_generator.next_alloc == key + 1
            &&& after.token_store == self.token_store
            &&& after.routing_table == self.routing_table
            &&& after.active_stores == self.active_stores
            &&& after.future_actions == self.future_actions
            &&& after.table_actions@.dom() == self.table_actions@.dom().insert(key)
            &&& after.table_actions@[key] matches TableAction::Bootstrap(bootstrap, attempts)
                && attempts == 0 && bootstrap.curr_bootstrap_bucket == 0
                && bootstrap.starting_routers@ == routers && bootstrap.starting_nodes@ == nodes
                && probes_sent(
                MIDGenerator { action_id: ActionID { id: key }, next_alloc: 0 },
                self.routing_table@.node_id,
                self.routing_table@.node_id.spec_flip_bit(0),
                routers + nodes,
                now,
                out_before,
                out_after,
                self.timer@,
                after.timer@,
                Seq::empty(),
                bootstrap.active_messages@,
            )
        }
    }

    /// Whether the lookup of `info_hash` was begun at `now`. While a
    /// bootstrap is under way the lookup is put last in the line of what
    /// waits for its end, and nothing else changes: nothing is sent.
    /// Otherwise the lookup is registered under the next action id: the
    /// first eight nodes that the table lists for `info_hash` are its
    /// shortlist, and it goes on with its search from there, so that what
    /// is sent are requests for the peers of `info_hash`, at most three.
    /// Without an action id to run it under, the lookup ends at once.
    pub open spec fn lookup_begun(
        &self,
        info_hash: InfoHash,
        should_announce: bool,
        now: Timestamp,
        after: &DhtHandler,
        out_before: Seq<Effect>,
        out_after: Seq<Effect>,
    ) -> bool {
        let key = self.aid_generator.next_alloc;
        if self.bootstrapping {
            &&& after.future_actions@ == self.future_actions@.push(
                PostBootstrapAction::Lookup(info_hash, should_announce),
            )
            &&& after.running == self.running
            &&& after.bootstrapping
            &&& after.aid_generator == self.aid_generator
            &&& after.token_store == self.token_store
            &&& after.active_stores == self.active_stores
            &&& after.table_actions == self.table_actions
            &&& after.routing_table == self.routing_table
            &&& after.timer == self.timer
            &&& out_after == out_before
        } else if key == u32::MAX {
            &&& *after == *self
            &&& out_after == out_before.push(Effect::Event(DhtEvent::LookupCompleted(info_hash)))
        } else {
            &&& after.running == self.running
            &&& !after.bootstrapping
            &&& after.aid_generator.next_alloc == key + 1
            &&& after.token_store == self.token_store
            &&& after.active_stores == self.active_stores
            &&& after.future_actions == self.future_actions
            &&& after.table_actions@.dom() == self.table_actions@.dom().insert(key)
            &&& after.table_actions@[key] matches TableAction::Lookup(lookup) && exists|
                listed: Seq<Node>,
            |
                #[trigger] self.routing_table@.closest_nodes(info_hash, now, listed) && lookup@
                    == self.seeded(info_hash, should_announce, listed).continued() && self.seeded(
                    info_hash,
                    should_announce,
                    listed,
                ).search_effects(
                    self.routing_table@.node_id,
                    now,
                    out_before,
                    out_after,
                    self.timer@,
                    after.timer@,
                    self.routing_table@,
                    after.routing_table@,
                )
            &&& get_peers_added(out_before, out_after, self.routing_table@.node_id, info_hash)
            &&& out_after.len() <= out_before.len() + MAX_ACTIVE_SEARCHES
        }
    }

    /// The lookup of `info_hash` under the next action id, with the first
    /// eight of the listed nodes in its shortlist and nothing asked yet.
    pub open spec fn seeded(
        &self,
        info_hash: InfoHash,
        should_announce: bool,
        listed: Seq<Node>,
    ) -> LookupView {
        LookupView::empty(
            MIDGenerator {
                action_id: ActionID { id: self.aid_generator.next_alloc },
                next_alloc: 0,
            },
            info_hash,
            should_announce,
        ).merged(seeds(listed), self.routing_table@.node_id)
    }

    /// Whether `mid` is `self` with the action under `key` taken off, and
    /// with a timer of its own.
    pub open spec fn action_taken(&self, key: u32, mid: &DhtHandler) -> bool {
        &&& mid.running == self.running
        &&& mid.read_only == self.read_only
        &&& mid.announce_port == self.announce_port
        &&& mid.token_store == self.token_store
        &&& mid.aid_generator == self.aid_generator
        &&& mid.bootstrapping == self.bootstrapping
        &&& mid.routing_table == self.routing_table
        &&& mid.active_stores == self.active_stores
        &&& mid.future_actions == self.future_actions
        &&& mid.table_actions@ == self.table_actions@.remove(key)
    }

    /// Whether an action of the kind of `token` is registered under the
    /// action id of `token`.
    pub open spec fn awaits(&self, token: ScheduledTaskCheck) -> bool {
        let key = token.spec_transaction_id().action;
        self.table_actions@.contains_key(key) && match (token, self.table_actions@[key]) {
            (ScheduledTaskCheck::TableRefresh(_), TableAction::Refresh(_)) => true,
            (ScheduledTaskCheck::BootstrapTimeout(_), TableAction::Bootstrap(_, _)) => true,
            (ScheduledTaskCheck::LookupTimeout(_), TableAction::Lookup(_)) => true,
            (ScheduledTaskCheck::LookupEndGame(_), TableAction::Lookup(_)) => true,
            _ => false,
        }
    }

    /// Whether the bootstrap that is registered under the action id of `id`
    /// took in the end of its probe `id`, by an answer or by a timeout, and
    /// the worker acted on what that yielded: `stepped` is the bootstrap
    /// after the step and `status` what the step yielded, `mid` the worker
    /// and `out_mid` what was to be sent between the step and the
    /// conclusion.
    pub open spec fn bootstrap_step(
        &self,
        id: TransactionID,
        answered: bool,
        now: Timestamp,
        after: &DhtHandler,
        out_before: Seq<Effect>,
        out_after: Seq<Effect>,
        mid: DhtHandler,
        stepped: TableBootstrap,
        status: BootstrapStatus,
        out_mid: Seq<Effect>,
    ) -> bool {
        &&& self.table_actions@[id.action] matches TableAction::Bootstrap(bootstrap, attempts)
            && bootstrap.resolved(
            id,
            answered,
            self.routing_table@,
            now,
            stepped,
            status,
            self.timer@,
            mid.timer@,
            out_before,
            out_mid,
        ) && mid.concluded(stepped, attempts, status, now, after, out_mid, out_after)
        &&& self.action_taken(id.action, &mid)
    }

    /// Whether the bootstrap that is registered under the action id of `id`
    /// took in the end of its probe `id`, and the worker acted on what that
    /// yielded.
    pub open spec fn bootstrap_stepped(
        &self,
        id: TransactionID,
        answered: bool,
        now: Timestamp,
        after: &DhtHandler,
        out_before: Seq<Effect>,
        out_after: Seq<Effect>,
    ) -> bool {
        exists|
            mid: DhtHandler,
            stepped: TableBootstrap,
            status: BootstrapStatus,
            out_mid: Seq<Effect>,
        |
            #[trigger] self.bootstrap_step(
                id,
                answered,
                now,
                after,
                out_before,
                out_after,
                mid,
                stepped,
                status,
                out_mid,
            )
    }

    /// Whether the refresh that is registered under `key` made one tick at
    /// `now`: the next tick is scheduled under the next transaction id of
    /// the refresh, the cursor has moved on, and the first questionable
    /// node among the nodes listed for the target of the tick, if there is
    /// one, was sent a find-node request. Nothing else changes.
    pub open spec fn refresh_ticked(
        &self,
        key: u32,
        now: Timestamp,
        after: &DhtHandler,
        out_before: Seq<Effect>,
        out_after: Seq<Effect>,
    ) -> bool {
        &&& self.same_procedures_but(key, after)
        &&& after.token_store == self.token_store
        &&& after.active_stores == self.active_stores
        &&& self.table_actions@[key] matches TableAction::Refresh(refresh) && (
        after.table_actions@[key] matches TableAction::Refresh(ticked)
            && ticked.curr_refresh_bucket == refresh.spec_bucket() + 1
            && ticked.id_generator.action_id == refresh.id_generator.action_id
            && ticked.id_generator.next_alloc == successor(refresh.id_generator.next_alloc)
            && after.timer@ == self.timer@.push(
            Timeout {
                deadline: deadline_after(now, REFRESH_INTERVAL_TIMEOUT),
                token: ScheduledTaskCheck::TableRefresh(
                    TransactionID {
                        action: refresh.id_generator.action_id.id,
                        message: refresh.id_generator.next_alloc,
                    },
                ),
            },
        ) && exists|listed: Seq<Node>|
            {
                &&& #[trigger] self.routing_table@.closest_nodes(
                    refresh.spec_target(self.routing_table@.node_id),
                    now,
                    listed,
                )
                &&& refresh.probed(
                    listed,
                    now,
                    self.routing_table@,
                    after.routing_table@,
                    out_before,
                    out_after,
                )
            })
    }

    /// Whether `after` has the actions of `self` under the same ids, all
    /// but the one under `key` as they were, and is a worker in the same
    /// state of running and bootstrapping with the same line of what waits
    /// for the end of the bootstrap.
    pub open spec fn same_procedures_but(&self, key: u32, after: &DhtHandler) -> bool {
        &&& after.running == self.running
        &&& after.bootstrapping == self.bootstrapping
        &&& after.aid_generator == self.aid_generator
        &&& after.future_actions == self.future_actions
        &&& after.table_actions@.dom() == self.table_actions@.dom()
        &&& others_kept(self.table_actions@, after.table_actions@, key)
    }

    /// Whether the lookup that is registered under the action id of `id`
    /// took in at `now` that its probe `id` went unanswered: the node that
    /// the probe was sent to has failed and has taken a strike in the
    /// table, and the lookup has gone on with its search. It reports
    /// nothing.
    pub open spec fn lookup_timed_out(
        &self,
        id: TransactionID,
        now: Timestamp,
        after: &DhtHandler,
        out_before: Seq<Effect>,
        out_after: Seq<Effect>,
    ) -> bool {
        &&& self.same_procedures_but(id.action, after)
        &&& after.token_store == self.token_store
        &&& after.active_stores == self.active_stores
        &&& self.table_actions@[id.action] matches TableAction::Lookup(lookup) && (
        after.table_actions@[id.action] matches TableAction::Lookup(stepped) && stepped@
            == lookup@.unanswered(id).continued() && exists|struck: TableView|
            {
                &&& match lookup@.asked_node(id) {
                    Some(handle) => self.routing_table@.timed_out(handle, struck),
                    None => struck == self.routing_table@,
                }
                &&& #[trigger] lookup@.unanswered(id).search_effects(
                    self.routing_table@.node_id,
                    now,
                    out_before,
                    out_after,
                    self.timer@,
                    after.timer@,
                    struck,
                    after.routing_table@,
                )
            })
    }

    /// Whether the lookup that is registered under `key` came to its end:
    /// its action is taken off and nothing else changes. If the client is
    /// to be announced, every node of the shortlist that has answered and
    /// handed out a token is sent an announce request with that token and
    /// the port of the worker's setup. Last of all the client is told that
    /// the lookup is completed.
    pub open spec fn lookup_ended(
        &self,
        key: u32,
        after: &DhtHandler,
        out_before: Seq<Effect>,
        out_after: Seq<Effect>,
    ) -> bool {
        &&& self.action_taken(key, after)
        &&& after.timer == self.timer
        &&& self.table_actions@[key] matches TableAction::Lookup(lookup) && out_after.len() > 0
            && out_after.last() == Effect::Event(DhtEvent::LookupCompleted(lookup.target_id))
            && if lookup.will_announce {
            announces_added(
                out_before,
                out_after.drop_last(),
                lookup@.shortlist,
                lookup@.shortlist.len() as int,
                lookup.id_generator,
                self.routing_table@.node_id,
                lookup.target_id,
                self.announce_port,
            )
        } else {
            out_after.drop_last() == out_before
        }
    }

    /// Whether the deadline `token` was taken in at `now`. A token goes to
    /// the action that its transaction id names, if that action is
    /// registered and of the kind that schedules such tokens. Any other
    /// token is dropped: nothing is sent, and no action changes.
    pub open spec fn timed_out(
        &self,
        token: ScheduledTaskCheck,
        now: Timestamp,
        after: &DhtHandler,
        out_before: Seq<Effect>,
        out_after: Seq<Effect>,
    ) -> bool {
        if self.awaits(token) {
            match token {
                ScheduledTaskCheck::TableRefresh(id) => self.refresh_ticked(
                    id.action,
                    now,
                    after,
                    out_before,
                    out_after,
                ),
                ScheduledTaskCheck::BootstrapTimeout(id) => self.bootstrap_stepped(
                    id,
                    false,
                    now,
                    after,
                    out_before,
                    out_after,
                ),
                ScheduledTaskCheck::LookupTimeout(id) => self.lookup_timed_out(
                    id,
                    now,
                    after,
                    out_before,
                    out_after,
                ),
                ScheduledTaskCheck::LookupEndGame(id) => self.lookup_ended(
                    id.action,
                    after,
                    out_before,
                    out_after,
                ),
            }
        } else {
            &&& self.same_but_actions(after)
            &&& after.table_actions@ == self.table_actions@
            &&& out_after == out_before
        }
    }

    /// Whether `after` differs from `self` in nothing but the registered actions.
    pub open spec fn same_but_actions(&self, after: &DhtHandler) -> bool {
        &&& after.running == self.running
        &&& after.timer == self.timer
        &&& after.read_only == self.read_only
        &&& after.announce_port == self.announce_port
        &&& after.token_store == self.token_store
        &&& after.aid_generator == self.aid_generator
        &&& after.bootstrapping == self.bootstrapping
        &&& after.routing_table == self.routing_table
        &&& after.active_stores == self.active_stores
        &&& after.future_actions == self.future_actions
    }

    /// Takes the action that is registered under `key` off, if there is one.
    fn take_action(&mut self, key: u32) -> (taken: Option<TableAction>)
        requires
            old(self).wf(),
        ensures
            final(self).wf(),
            old(self).same_but_actions(final(self)),
            final(self).table_actions@ == old(self).table_actions@.remove(key),
            match taken {
                Some(action) => old(self).table_actions@.contains_key(key) && action == old(
                    self,
                ).table_actions@[key] && action_wf(key, action) && key < old(
                    self,
                ).aid_generator.next_alloc,
                None => !old(self).table_actions@.contains_key(key) && *final(self) == *old(self),
            },
    {
        let ghost actions = self.table_actions@;
        if !self.table_actions.contains_key(&key) {
            proof {
                assert(actions.remove(key) =~= actions);
            }
            return None;
        }
        let taken = self.table_actions.remove(&key);
        proof {
            assert(action_wf(key, actions[key]));
        }
        taken
    }

    /// Registers `action` under `key`.
    fn put_action(&mut self, key: u32, action: TableAction)
        requires
            old(self).wf(),
            action_wf(key, action),
            key < old(self).aid_generator.next_alloc,
        ensures
            final(self).wf(),
            old(self).same_but_actions(final(self)),
            final(self).table_actions@ == old(self).table_actions@.insert(key, action),
    {
        let ghost actions = self.table_actions@;
        self.table_actions.insert(key, action);
        proof {
            assert forall|k: u32|
                self.table_actions@.contains_key(k) implies #[trigger] action_wf(
                k,
                self.table_actions@[k],
            ) && k < self.aid_generator.next_alloc by {
                if k != key {
                    assert(action_wf(k, actions[k]));
                }
            }
        }
    }

    /// No action is registered under an id that the generator has not handed out.
    proof fn lemma_fresh_key(&self, key: u32)
        requires
            self.wf(),
            key >= self.aid_generator.next_alloc,
        ensures
            !self.table_actions@.contains_key(key),
    {
        if self.table_actions@.contains_key(key) {
            assert(action_wf(key, self.table_actions@[key]));
        }
    }

    /// A bootstrap is registered only while it has been started over fewer
    /// times than the most that it may: with the first start, no bootstrap
    /// is started more than three times before it is completed or given up.
    pub proof fn lemma_attempts_bounded(&self, key: u32)
        requires
            self.wf(),
            self.table_actions@.contains_key(key),
            self.table_actions@[key] is Bootstrap,
        ensures
            self.table_actions@[key]->Bootstrap_1 < MAX_BOOTSTRAP_ATTEMPTS,
    {
        assert(action_wf(key, self.table_actions@[key]));
    }

    /// A worker on `table`, which has begun nothing yet. The refresh of the
    /// table waits for the end of the first bootstrap.
    pub fn new(table: RoutingTable, read_only: bool, announce_port: Option<u16>) -> (handler:
        DhtHandler)
        requires
            table@.wf(),
        ensures
            handler.wf(),
            handler.running,
            !handler.bootstrapping,
            handler.read_only == read_only,
            handler.announce_port == announce_port,
            handler.routing_table == table,
            handler.table_actions@.len() == 0,
            handler.timer@.len() == 0,
            handler.active_stores@.len() == 0,
            handler.aid_generator.next_alloc == 1,
            handler.future_actions@.len() == 1,
            handler.future_actions@[0] == PostBootstrapAction::Refresh(
                TableRefresh {
                    id_generator: MIDGenerator { action_id: ActionID { id: 0 }, next_alloc: 1 },
                    curr_refresh_bucket: 0,
                },
                TransactionID { action: 0, message: 0 },
            ),
    {
        let mut aid_generator = AIDGenerator::new();

        // Insert the refresh task to execute after the bootstrap
        let mut mid_generator = aid_generator.generate();
        let refresh_trans_id = mid_generator.generate();
        let table_refresh = TableRefresh::new(mid_generator);
        let mut future_actions: Vec<PostBootstrapAction> = Vec::new();
        future_actions.push(PostBootstrapAction::Refresh(table_refresh, refresh_trans_id));

        DhtHandler {
            running: true,
            timer: Timer::new(),
            read_only,
            announce_port,
            token_store: TokenStore::new(),
            aid_generator,
            bootstrapping: false,
            routing_table: table,
            active_stores: AnnounceStorage::new(),
            future_actions,
            table_actions: HashMap::new(),
        }
    }

    /// Whether the worker has not shut down.
    pub fn is_running(&self) -> (running: bool)
        ensures
            running == self.running,
    {
        self.running
    }

    /// The time at which the next deadline is reached, if any is scheduled.
    pub fn next_deadline(&self) -> (deadline: Option<Timestamp>)
        ensures
            match deadline {
                Some(d) => exists|i: int|
                    #[trigger] is_earliest(self.timer@, i) && self.timer@[i].deadline == d,
                None => self.timer@.len() == 0,
            },
    {
        self.timer.next_deadline()
    }

    /// Takes the next token whose deadline is reached at `now` from the timer.
    pub fn next_timeout(&mut self, now: Timestamp) -> (due: Option<ScheduledTaskCheck>)
        requires
            old(self).wf(),
        ensures
            final(self).wf(),
            old(self).same_setup(final(self)),
            final(self).running == old(self).running,
            final(self).token_store == old(self).token_store,
            final(self).aid_generator == old(self).aid_generator,
            final(self).bootstrapping == old(self).bootstrapping,
            final(self).active_stores == old(self).active_stores,
            final(self).future_actions == old(self).future_actions,
            final(self).table_actions == old(self).table_actions,
            final(self).routing_table == old(self).routing_table,
            match due {
                Some(token) => exists|i: int|
                    {
                        &&& #[trigger] is_earliest(old(self).timer@, i)
                        &&& old(self).timer@[i].deadline <= now
                        &&& old(self).timer@[i].token == token
                        &&& final(self).timer@ == old(self).timer@.remove(i)
                    },
                None => final(self).timer@ == old(self).timer@ && forall|i: int|
                    is_earliest(old(self).timer@, i) ==> old(self).timer@[i].deadline > now,
            },
    {
        self.timer.next(now)
    }

    /// Carries out a command of the client at `now`.
    pub fn handle_command(&mut self, task: OneshotTask, now: Timestamp) -> (out: Vec<Effect>)
        requires
            old(self).wf(),
        ensures
            final(self).wf(),
            old(self).same_setup(final(self)),
            all_kept(old(self).table_actions@, final(self).table_actions@),
            match task {
                OneshotTask::StartBootstrap(routers, nodes) => old(self).bootstrap_begun(
                    routers@,
                    nodes@,
                    now,
                    final(self),
                    Seq::empty(),
                    out@,
                ),
                OneshotTask::StartLookup(info_hash, should_announce) => old(self).lookup_begun(
                    info_hash,
                    should_announce,
                    now,
                    final(self),
                    Seq::empty(),
                    out@,
                ),
            },
    {
        let mut out: Vec<Effect> = Vec::new();
        match task {
            OneshotTask::StartBootstrap(routers, nodes) => {
                self.handle_start_bootstrap(routers, nodes, &mut out, now);
            },
            OneshotTask::StartLookup(info_hash, should_announce) => {
                self.handle_start_lookup(info_hash, should_announce, &mut out, now);
            },
        }
        out
    }

    /// Takes in that the deadline of `token` is reached at `now`. The token
    /// goes to the action that its transaction id names, if that action is
    /// registered and of the kind that schedules such tokens. A token of an
    /// action that is gone is dropped.
    pub fn handle_timeout(&mut self, token: ScheduledTaskCheck, now: Timestamp) -> (out: Vec<Effect>)
        requires
            old(self).wf(),
        ensures
            final(self).wf(),
            old(self).same_setup(final(self)),
            !old(self).table_actions@.contains_key(token.transaction_id().action) ==> *final(self)
                == *old(self) && out@.len() == 0,
            others_kept(
                old(self).table_actions@,
                final(self).table_actions@,
                token.transaction_id().action,
            ),
            old(self).timed_out(token, now, final(self), Seq::empty(), out@),
    {
        let mut out: Vec<Effect> = Vec::new();
        match token {
            ScheduledTaskCheck::TableRefresh(trans_id) => {
                self.handle_check_table_refresh(trans_id, &mut out, now);
            },
            ScheduledTaskCheck::BootstrapTimeout(trans_id) => {
                self.handle_check_bootstrap_timeout(trans_id, &mut out, now);
            },
            ScheduledTaskCheck::LookupTimeout(trans_id) => {
                self.handle_check_lookup_timeout(trans_id, &mut out, now);
            },
            ScheduledTaskCheck::LookupEndGame(trans_id) => {
                self.handle_check_lookup_endgame(trans_id, &mut out, now);
            },
        }
        out
    }

    /// Begins a bootstrap from the routers and nodes at the given addresses.
    /// No registered action changes.
    pub fn handle_start_bootstrap(
        &mut self,
        routers: Vec<SocketAddress>,
        nodes: Vec<SocketAddress>,
        out: &mut Vec<Effect>,
        now: Timestamp,
    )
        requires
            old(self).wf(),
        ensures
            final(self).wf(),
            old(self).same_setup(final(self)),
            extends(old(out)@, final(out)@),
            all_kept(old(self).table_actions@, final(self).table_actions@),
            old(self).bootstrap_begun(
                routers@,
                nodes@,
                now,
                final(self),
                old(out)@,
                final(out)@,
            ),
    {
        let ghost key = self.aid_generator.next_alloc;
        let mut mid_generator = match self.aid_generator.try_generate() {
            Some(mid_generator) => mid_generator,
            None => {
                // No action id is left to run the bootstrap under
                out.push(Effect::Event(DhtEvent::BootstrapFailed));
                self.shutdown();
                return ;
            },
        };
        let action_id = mid_generator.action_id();
        let mut table_bootstrap = TableBootstrap::new(mid_generator, nodes, routers);
        proof {
            old(self).lemma_fresh_key(action_id.id);
        }

        // Begin the bootstrap operation
        let bootstrap_status = table_bootstrap.start_bootstrap(
            self.routing_table.node_id(),
            &mut self.timer,
            out,
            now,
        );
        self.bootstrapping = true;
        proof {
            lemma_extends(old(out)@, out@);
            lemma_actions_wf(
                old(self).table_actions@,
                old(self).aid_generator.next_alloc,
                self.aid_generator.next_alloc,
            );
        }
        let ghost mid = *self;
        let ghost mid_out = out@;
        let ghost started = table_bootstrap;
        self.conclude_bootstrap(table_bootstrap, 0, bootstrap_status, out, now);
        proof {
            if routers@.len() + nodes@.len() == 0 {
                assert(mid_out =~= old(out)@);
                assert(mid.completed(key, now, self, old(out)@, out@));
            } else {
                assert(mid.carried_on(started, 0, self));
                assert(self.table_actions@.dom() =~= old(self).table_actions@.dom().insert(key));
                assert(mid_generator == (MIDGenerator { action_id: ActionID { id: key }, next_alloc: 0 }));
            }
        }
    }

    /// Takes in that a probe of a bootstrap went unanswered. No action but
    /// the one that the transaction id names changes.
    pub fn handle_check_bootstrap_timeout(
        &mut self,
        trans_id: TransactionID,
        out: &mut Vec<Effect>,
        now: Timestamp,
    )
        requires
            old(self).wf(),
        ensures
            final(self).wf(),
            old(self).same_setup(final(self)),
            extends(old(out)@, final(out)@),
            others_kept(old(self).table_actions@, final(self).table_actions@, trans_id.action),
            old(self).timed_out(
                ScheduledTaskCheck::BootstrapTimeout(trans_id),
                now,
                final(self),
                old(out)@,
                final(out)@,
            ),
            !old(self).table_actions@.contains_key(trans_id.action) ==> *final(self) == *old(self)
                && final(out)@ == old(out)@,
    {
        let ghost actions = self.table_actions@;
        match self.take_action(trans_id.action) {
            Some(TableAction::Bootstrap(mut bootstrap, attempts)) => {
                let status = bootstrap.recv_timeout(
                    &trans_id,
                    &self.routing_table,
                    &mut self.timer,
                    out,
                    now,
                );
                proof {
                    lemma_bootstrap_extends(
                        actions[trans_id.action]->Bootstrap_0,
                        trans_id,
                        false,
                        self.routing_table@,
                        now,
                        bootstrap,
                        status,
                        old(self).timer@,
                        self.timer@,
                        old(out)@,
                        out@,
                    );
                }
                let ghost taken = self.table_actions@;
                let ghost mid = *self;
                let ghost stepped = bootstrap;
                let ghost out_mid = out@;
                self.conclude_bootstrap(bootstrap, attempts, status, out, now);
                proof {
                    lemma_kept(actions, taken, self.table_actions@, trans_id.action);
                    assert(old(self).action_taken(trans_id.action, &mid));
                    assert(old(self).bootstrap_step(
                        trans_id,
                        false,
                        now,
                        self,
                        old(out)@,
                        out@,
                        mid,
                        stepped,
                        status,
                        out_mid,
                    ));
                }
            },
            Some(other) => {
                // The deadline belongs to an action of another kind
                self.put_action(trans_id.action, other);
                proof {
                    assert(self.table_actions@ =~= old(self).table_actions@);
                }
            },
            None => {},
        }
    }

    /// Acts on what a step of a bootstrap has yielded. A bootstrap that goes
    /// on is registered again. A bootstrap that has failed ends the worker.
    /// A bootstrap that is over is started again if the table holds few good
    /// nodes and attempts are left; otherwise the client is told that the
    /// bootstrap is completed, and what waited for that is begun.
    fn conclude_bootstrap(
        &mut self,
        bootstrap: TableBootstrap,
        attempts: usize,
        status: BootstrapStatus,
        out: &mut Vec<Effect>,
        now: Timestamp,
    )
        requires
            old(self).wf(),
            bootstrap.wf(),
            attempts < MAX_BOOTSTRAP_ATTEMPTS,
            bootstrap.id_generator.action_id.id < old(self).aid_generator.next_alloc,
            !old(self).table_actions@.contains_key(bootstrap.id_generator.action_id.id),
        ensures
            final(self).wf(),
            old(self).same_setup(final(self)),
            extends(old(out)@, final(out)@),
            all_kept(old(self).table_actions@, final(self).table_actions@),
            old(self).concluded(
                bootstrap,
                attempts,
                status,
                now,
                final(self),
                old(out)@,
                final(out)@,
            ),
    {
        let action_id = bootstrap.action_id();
        let ghost given = bootstrap;
        let mut bootstrap = bootstrap;
        let ghost tried = attempts;
        let mut attempts = attempts;
        let ghost actions = self.table_actions@;
        match status {
            BootstrapStatus::Idle => {
                self.finish_bootstrap(action_id, out, now);
                assert(old(self).concluded(given, tried, status, now, self, old(out)@, out@));
            },
            BootstrapStatus::Bootstrapping => {
                self.put_action(action_id.id, TableAction::Bootstrap(bootstrap, attempts));
                assert(old(self).concluded(given, tried, status, now, self, old(out)@, out@));
            },
            BootstrapStatus::Failed => {
                out.push(Effect::Event(DhtEvent::BootstrapFailed));
                self.shutdown();
                assert(old(self).concluded(given, tried, status, now, self, old(out)@, out@));
            },
            BootstrapStatus::Completed => {
                // Check if our bootstrap was actually good
                if should_rebootstrap(&self.routing_table, now) {
                    let ghost out_mid = out@;
                    let started = attempt_rebootstrap(
                        &mut bootstrap,
                        &mut attempts,
                        &self.routing_table,
                        &mut self.timer,
                        out,
                        now,
                    );
                    proof {
                        if attempts < MAX_BOOTSTRAP_ATTEMPTS {
                            lemma_extends(out_mid, out@);
                        }
                    }
                    match started {
                        Some(true) => {
                            self.put_action(
                                action_id.id,
                                TableAction::Bootstrap(bootstrap, attempts),
                            );
                            proof {
                                assert(old(self).carried_on(bootstrap, attempts, self));
                                assert(attempts == (tried + 1) as usize);
                                assert(old(self).carried_on(bootstrap, (tried + 1) as usize, self));
                                assert(given.same_setup(bootstrap));
                                assert(probes_sent(
                                    given.id_generator,
                                    old(self).routing_table@.node_id,
                                    old(self).routing_table@.node_id.spec_flip_bit(0),
                                    given.starting_routers@ + given.starting_nodes@,
                                    now,
                                    old(out)@,
                                    out@,
                                    old(self).timer@,
                                    self.timer@,
                                    Seq::empty(),
                                    bootstrap.active_messages@,
                                ));
                                assert(old(self).concluded(
                                    given,
                                    tried,
                                    status,
                                    now,
                                    self,
                                    old(out)@,
                                    out@,
                                ));
                            }
                        },
                        Some(false) => {
                            proof {
                                if attempts < MAX_BOOTSTRAP_ATTEMPTS {
                                    assert(out@ =~= out_mid);
                                }
                            }
                            self.finish_bootstrap(action_id, out, now);
                            assert(old(self).concluded(
                                given,
                                tried,
                                status,
                                now,
                                self,
                                old(out)@,
                                out@,
                            ));
                        },
                        None => {
                            out.push(Effect::Event(DhtEvent::BootstrapFailed));
                            self.shutdown();
                            assert(old(self).concluded(
                                given,
                                tried,
                                status,
                                now,
                                self,
                                old(out)@,
                                out@,
                            ));
                        },
                    }
                } else {
                    self.finish_bootstrap(action_id, out, now);
                    assert(old(self).concluded(given, tried, status, now, self, old(out)@, out@));
                }
            },
        }
    }

    /// Makes the end of the bootstrap known, where no action is registered
    /// under the id of the bootstrap any more.
    fn finish_bootstrap(&mut self, action_id: ActionID, out: &mut Vec<Effect>, now: Timestamp)
        requires
            old(self).wf(),
            !old(self).table_actions@.contains_key(action_id.id),
        ensures
            final(self).wf(),
            old(self).same_setup(final(self)),
            extends(old(out)@, final(out)@),
            all_kept(old(self).table_actions@, final(self).table_actions@),
            old(self).completed(action_id.id, now, final(self), old(out)@, final(out)@),
    {
        let ghost actions = self.table_actions@;
        self.broadcast_bootstrap_completed(action_id, out, now);
        proof {
            assert forall|k: u32| #[trigger] actions.contains_key(k) implies self.table_actions@.contains_key(
                k,
            ) && self.table_actions@[k] == actions[k] by {
                assert(k != action_id.id);
            }
        }
    }

    /// Broadcast that the bootstrap has completed: the client is told, the
    /// action of the bootstrap is taken off, and what waited for the end of
    /// the bootstrap is begun, the refresh of the table and the lookups. No
    /// other registered action changes.
    pub fn broadcast_bootstrap_completed(
        &mut self,
        action_id: ActionID,
        out: &mut Vec<Effect>,
        now: Timestamp,
    )
        requires
            old(self).wf(),
        ensures
            final(self).wf(),
            old(self).same_setup(final(self)),
            final(self).running == old(self).running,
            !final(self).bootstrapping,
            final(self).future_actions@.len() == 0,
            extends(old(out)@, final(out)@),
            final(out)@.len() > old(out)@.len(),
            final(out)@[old(out)@.len() as int] == Effect::Event(DhtEvent::BootstrapCompleted),
            others_kept(old(self).table_actions@, final(self).table_actions@, action_id.id),
            old(self).completed(action_id.id, now, final(self), old(out)@, final(out)@),
    {
        let ghost actions = self.table_actions@;
        let ghost sent = out@;
        let ghost waiting = self.future_actions@;

        // Send notification that the bootstrap has completed.
        out.push(Effect::Event(DhtEvent::BootstrapCompleted));

        // Indicates we are out of the bootstrapping phase
        self.bootstrapping = false;

        // Remove the bootstrap action from our table actions
        self.take_action(action_id.id);

        // Start the post bootstrap actions.
        let mut future_actions = self.future_actions.split_off(0);
        let ghost cleared = *self;
        let ghost told = out@;
        let ghost mut begun: int = 0;
        proof {
            assert(future_actions@ =~= waiting);
            assert(waiting.take(0) =~= Seq::<PostBootstrapAction>::empty());
            assert(old(self).cleared(action_id.id, &cleared));
        }
        while future_actions.len() > 0
            invariant
                0 <= begun <= waiting.len(),
                future_actions@ == waiting.skip(begun),
                cleared.actions_begun(waiting.take(begun), now, self, told, out@),
                self.wf(),
                old(self).same_setup(self),
                self.running == old(self).running,
                !self.bootstrapping,
                self.future_actions@.len() == 0,
                sent == old(out)@,
                actions == old(self).table_actions@,
                extends(sent, out@),
                out@.len() > sent.len(),
                out@[sent.len() as int] == Effect::Event(DhtEvent::BootstrapCompleted),
                others_kept(actions, self.table_actions@, action_id.id),
            decreases future_actions@.len(),
        {
            let ghost out_mid = out@;
            let ghost actions_mid = self.table_actions@;
            let ghost mid = *self;
            let ghost next = future_actions@[0];
            let table_action = future_actions.remove(0);
            proof {
                assert(next == waiting[begun]);
                assert(waiting.take(begun + 1).drop_last() =~= waiting.take(begun));
                assert(waiting.take(begun + 1).last() == next);
                assert(future_actions@ =~= waiting.skip(begun + 1));
            }
            match table_action {
                PostBootstrapAction::Lookup(info_hash, should_announce) => {
                    self.handle_start_lookup(info_hash, should_announce, out, now);
                    proof {
                        lemma_kept(actions, actions_mid, self.table_actions@, action_id.id);
                        assert(mid.action_begun(next, now, self, out_mid, out@));
                    }
                },
                PostBootstrapAction::Refresh(refresh, trans_id) => {
                    let key = refresh.action_id().id;
                    if key == trans_id.action && key < self.aid_generator.next_alloc
                        && !self.table_actions.contains_key(&key) {
                        self.put_action(key, TableAction::Refresh(refresh));
                        let ghost actions_in = self.table_actions@;
                        let ghost registered = *self;
                        self.handle_check_table_refresh(trans_id, out, now);
                        proof {
                            assert(registered.awaits(ScheduledTaskCheck::TableRefresh(trans_id)));
                            assert(registered.refresh_ticked(key, now, self, out_mid, out@));
                            assert(mid.action_begun(next, now, self, out_mid, out@));
                            assert forall|k: u32|
                                k != action_id.id && #[trigger] actions.contains_key(
                                    k,
                                ) implies self.table_actions@.contains_key(k)
                                && self.table_actions@[k] == actions[k] by {
                                assert(actions_mid.contains_key(k) && actions_mid[k] == actions[k]);
                                assert(k != key);
                                assert(actions_in.contains_key(k) && actions_in[k] == actions_mid[k]);
                            }
                        }
                    } else {
                        proof {
                            assert(mid.action_begun(next, now, self, out_mid, out@));
                        }
                    }
                },
            }
            proof {
                assert(out@[sent.len() as int] == out_mid[sent.len() as int]);
                assert(cleared.actions_begun(waiting.take(begun + 1), now, self, told, out@));
                begun = begun + 1;
            }
        }
        proof {
            assert(waiting.take(begun) =~= waiting);
            assert(told == old(out)@.push(Effect::Event(DhtEvent::BootstrapCompleted)));
        }
    }

    /// Begins the lookup of `info_hash`, or lets it wait for the end of the
    /// bootstrap while one is under way. No registered action changes.
    pub fn handle_start_lookup(
        &mut self,
        info_hash: InfoHash,
        should_announce: bool,
        out: &mut Vec<Effect>,
        now: Timestamp,
    )
        requires
            old(self).wf(),
        ensures
            final(self).wf(),
            old(self).same_setup(final(self)),
            final(self).running == old(self).running,
            final(self).bootstrapping == old(self).bootstrapping,
            extends(old(out)@, final(out)@),
            all_kept(old(self).table_actions@, final(self).table_actions@),
            old(self).bootstrapping ==> final(self).table_actions == old(self).table_actions,
            !old(self).bootstrapping ==> final(self).future_actions == old(self).future_actions,
            old(self).lookup_begun(
                info_hash,
                should_announce,
                now,
                final(self),
                old(out)@,
                final(out)@,
            ),
    {
        let ghost key = self.aid_generator.next_alloc;
        if self.bootstrapping {
            // Queue it up if we are currently bootstrapping
            self.future_actions.push(PostBootstrapAction::Lookup(info_hash, should_announce));
        } else {
            // Start the lookup right now if not bootstrapping
            let ghost actions = self.table_actions@;
            match self.aid_generator.try_generate() {
                Some(mid_generator) => {
                    let action_id = mid_generator.action_id();
                    proof {
                        old(self).lemma_fresh_key(action_id.id);
                    }
                    let lookup = TableLookup::new(
                        info_hash,
                        mid_generator,
                        should_announce,
                        &mut self.routing_table,
                        &mut self.timer,
                        out,
                        now,
                    );
                    proof {
                        lemma_extends(old(out)@, out@);
                    }
                    self.put_action(action_id.id, TableAction::Lookup(lookup));
                    proof {
                        assert(self.table_actions@.dom() =~= old(self).table_actions@.dom().insert(key));
                    }
                },
                None => {
                    // No action id is left to run the lookup under
                    out.push(Effect::Event(DhtEvent::LookupCompleted(info_hash)));
                },
            }
        }
    }

    /// Takes in that a probe of a lookup went unanswered. No action but the
    /// one that the transaction id names changes.
    pub fn handle_check_lookup_timeout(
        &mut self,
        trans_id: TransactionID,
        out: &mut Vec<Effect>,
        now: Timestamp,
    )
        requires
            old(self).wf(),
        ensures
            final(self).wf(),
            old(self).same_setup(final(self)),
            extends(old(out)@, final(out)@),
            others_kept(old(self).table_actions@, final(self).table_actions@, trans_id.action),
            final(self).table_actions@.dom() == old(self).table_actions@.dom(),
            old(self).timed_out(
                ScheduledTaskCheck::LookupTimeout(trans_id),
                now,
                final(self),
                old(out)@,
                final(out)@,
            ),
            !old(self).table_actions@.contains_key(trans_id.action) ==> *final(self) == *old(self)
                && final(out)@ == old(out)@,
    {
        let ghost actions = self.table_actions@;
        match self.take_action(trans_id.action) {
            Some(TableAction::Lookup(mut lookup)) => {
                let status = lookup.recv_timeout(
                    &trans_id,
                    &mut self.routing_table,
                    &mut self.timer,
                    out,
                    now,
                );
                let info_hash = lookup.info_hash();
                proof {
                    lemma_extends(old(out)@, out@);
                }
                let ghost stepped = lookup;
                self.put_action(trans_id.action, TableAction::Lookup(lookup));
                report_lookup(status, info_hash, out);
                proof {
                    assert(self.table_actions@.dom() =~= actions.dom());
                    assert(self.table_actions@[trans_id.action] == TableAction::Lookup(stepped));
                    assert(old(self).same_procedures_but(trans_id.action, self));
                    assert(old(self).lookup_timed_out(trans_id, now, self, old(out)@, out@));
                }
            },
            Some(other) => {
                // The deadline belongs to an action of another kind
                self.put_action(trans_id.action, other);
                proof {
                    assert(self.table_actions@ =~= actions);
                }
            },
            None => {},
        }
    }

    /// Whether a lookup is registered under `action`.
    pub open spec fn ends_lookup(&self, action: u32) -> bool {
        self.table_actions@.contains_key(action) && self.table_actions@[action] is Lookup
    }

    /// Takes in that the settle window of a lookup is over: the lookup
    /// ends, its action is taken off, and the client is told. No other
    /// registered action changes.
    pub fn handle_check_lookup_endgame(
        &mut self,
        trans_id: TransactionID,
        out: &mut Vec<Effect>,
        now: Timestamp,
    )
        requires
            old(self).wf(),
        ensures
            final(self).wf(),
            old(self).same_setup(final(self)),
            extends(old(out)@, final(out)@),
            others_kept(old(self).table_actions@, final(self).table_actions@, trans_id.action),
            old(self).ends_lookup(trans_id.action) ==> !final(self).table_actions@.contains_key(
                trans_id.action,
            ) && final(out)@.len() > 0 && final(out)@.last() == Effect::Event(
                DhtEvent::LookupCompleted(
                    old(self).table_actions@[trans_id.action]->Lookup_0.target_id,
                ),
            ),
            old(self).timed_out(
                ScheduledTaskCheck::LookupEndGame(trans_id),
                now,
                final(self),
                old(out)@,
                final(out)@,
            ),
            !old(self).table_actions@.contains_key(trans_id.action) ==> *final(self) == *old(self)
                && final(out)@ == old(out)@,
    {
        match self.take_action(trans_id.action) {
            Some(TableAction::Lookup(mut lookup)) => {
                let status = lookup.recv_finished(self.announce_port, &self.routing_table, out);
                let info_hash = lookup.info_hash();
                let ghost announced = out@;
                proof {
                    if lookup.will_announce {
                        lemma_extends(old(out)@, out@);
                    }
                }
                report_lookup(status, info_hash, out);
                proof {
                    assert(out@.drop_last() =~= announced);
                    assert(old(self).lookup_ended(trans_id.action, self, old(out)@, out@));
                }
            },
            Some(other) => {
                // The deadline belongs to an action of another kind
                self.put_action(trans_id.action, other);
                proof {
                    assert(self.table_actions@ =~= old(self).table_actions@);
                }
            },
            None => {},
        }
    }

    /// Takes in that the next refresh of the table is due. No action but
    /// the one that the transaction id names changes.
    pub fn handle_check_table_refresh(
        &mut self,
        trans_id: TransactionID,
        out: &mut Vec<Effect>,
        now: Timestamp,
    )
        requires
            old(self).wf(),
        ensures
            final(self).wf(),
            old(self).same_setup(final(self)),
            final(self).running == old(self).running,
            final(self).bootstrapping == old(self).bootstrapping,
            final(self).future_actions == old(self).future_actions,
            extends(old(out)@, final(out)@),
            others_kept(old(self).table_actions@, final(self).table_actions@, trans_id.action),
            final(self).table_actions@.dom() == old(self).table_actions@.dom(),
            old(self).timed_out(
                ScheduledTaskCheck::TableRefresh(trans_id),
                now,
                final(self),
                old(out)@,
                final(out)@,
            ),
            !old(self).table_actions@.contains_key(trans_id.action) ==> *final(self) == *old(self)
                && final(out)@ == old(out)@,
    {
        let ghost actions = self.table_actions@;
        match self.take_action(trans_id.action) {
            Some(TableAction::Refresh(mut refresh)) => {
                let ghost listed_before = out@;
                refresh.continue_refresh(&mut self.routing_table, &mut self.timer, out, now);
                proof {
                    lemma_refresh_extends(
                        actions[trans_id.action]->Refresh_0,
                        now,
                        old(self).routing_table@,
                        self.routing_table@,
                        old(out)@,
                        out@,
                    );
                }
                let ghost ticked = refresh;
                self.put_action(trans_id.action, TableAction::Refresh(refresh));
                proof {
                    assert(self.table_actions@.dom() =~= actions.dom());
                    assert(self.table_actions@[trans_id.action] == TableAction::Refresh(ticked));
                    assert(old(self).same_procedures_but(trans_id.action, self));
                    assert(old(self).refresh_ticked(trans_id.action, now, self, old(out)@, out@));
                }
            },
            Some(other) => {
                // The deadline belongs to an action of another kind
                self.put_action(trans_id.action, other);
                proof {
                    assert(self.table_actions@ =~= actions);
                }
            },
            None => {},
        }
    }

    /// Whether the message is dropped without a trace: a response that is
    /// not expected, a request to a worker that only reads, or an error.
    pub open spec fn discards(&self, message: Message) -> bool {
        match message.body {
            MessageBody::Response(response) => !response_expected(
                self.table_actions@,
                message.transaction_id@,
                response,
            ),
            MessageBody::Request(_) => self.read_only,
            MessageBody::Error(_) => true,
        }
    }

    /// Whether `after` differs from `self` in nothing but the routing table.
    pub open spec fn same_but_table(&self, after: &DhtHandler) -> bool {
        &&& after.running == self.running
        &&& after.timer == self.timer
        &&& after.read_only == self.read_only
        &&& after.announce_port == self.announce_port
        &&& after.token_store == self.token_store
        &&& after.aid_generator == self.aid_generator
        &&& after.bootstrapping == self.bootstrapping
        &&& after.active_stores == self.active_stores
        &&& after.future_actions == self.future_actions
        &&& after.table_actions == self.table_actions
        &&& after.routing_table@.node_id == self.routing_table@.node_id
    }

    /// Whether `after` differs from `self` in nothing but the routing
    /// table, the storage and the tokens.
    pub open spec fn same_procedures(&self, after: &DhtHandler) -> bool {
        &&& after.running == self.running
        &&& after.timer == self.timer
        &&& after.read_only == self.read_only
        &&& after.announce_port == self.announce_port
        &&& after.aid_generator == self.aid_generator
        &&& after.bootstrapping == self.bootstrapping
        &&& after.future_actions == self.future_actions
        &&& after.table_actions == self.table_actions
        &&& after.routing_table@.node_id == self.routing_table@.node_id
    }

    /// Whether a ping from `addr` was answered: the request is noted in the
    /// table, and one answer goes back to `addr` with the tag of the
    /// request and the worker's id, naming no nodes.
    pub open spec fn answered_ping(
        &self,
        ping: PingRequest,
        tag: Seq<u8>,
        addr: SocketAddress,
        now: Timestamp,
        after: &DhtHandler,
        out: Seq<Effect>,
    ) -> bool {
        &&& self.same_but_table(after)
        &&& request_noted(
            self.routing_table@,
            NodeHandle { id: ping.id, addr },
            now,
            after.routing_table@,
        )
        &&& out.len() == 1
        &&& out[0] matches Effect::Send(message, to) && to == addr && message.is_other_response(
            tag,
            self.routing_table@.node_id,
            Seq::empty(),
            Seq::empty(),
        )
    }

    /// Whether a find-node request from `addr` was answered: the request is
    /// noted in the table, and one answer goes back to `addr` with the tag
    /// of the request, which names the first eight nodes of each wanted
    /// family among the nodes that the table lists for the target. Where
    /// the request names no family and the family of the local socket is
    /// not known, nothing goes back.
    pub open spec fn answered_find_node(
        &self,
        find: FindNodeRequest,
        tag: Seq<u8>,
        addr: SocketAddress,
        local_family: Option<AddressFamily>,
        now: Timestamp,
        after: &DhtHandler,
        out: Seq<Effect>,
    ) -> bool {
        &&& self.same_but_table(after)
        &&& request_noted(
            self.routing_table@,
            NodeHandle { id: find.id, addr },
            now,
            after.routing_table@,
        )
        &&& match effective_want(find.want, local_family) {
            Some(want) => exists|listed: Seq<Node>|
                {
                    &&& #[trigger] after.routing_table@.closest_nodes(find.target, now, listed)
                    &&& out.len() == 1
                    &&& out[0] matches Effect::Send(message, to) && to == addr
                        && message.is_other_response(
                        tag,
                        self.routing_table@.node_id,
                        wanted_handles(listed, AddressFamily::V4, want),
                        wanted_handles(listed, AddressFamily::V6, want),
                    )
                },
            None => out.len() == 0,
        }
    }

    /// Whether a get-peers request from `addr` was answered: the request is
    /// noted in the table, the storage has dropped what has expired, and one
    /// answer goes back to `addr` with the tag of the request. It names the
    /// stored peers of the info-hash that have an address of version 4, the
    /// first eight nodes that the table lists for the info-hash, and a
    /// token for the address of the sender, handed out at `now`.
    pub open spec fn answered_get_peers(
        &self,
        get: GetPeersRequest,
        tag: Seq<u8>,
        addr: SocketAddress,
        now: Timestamp,
        after: &DhtHandler,
        out: Seq<Effect>,
    ) -> bool {
        &&& self.same_procedures(after)
        &&& request_noted(
            self.routing_table@,
            NodeHandle { id: get.id, addr },
            now,
            after.routing_table@,
        )
        &&& after.active_stores@ == prune(self.active_stores@, now)
        &&& exists|listed: Seq<Node>, found: Seq<SocketAddress>, token: Token|
            #[trigger] self.get_peers_answer(get, tag, addr, now, after, out, listed, found, token)
    }

    /// Whether `out` is the answer to a get-peers request from `addr` that
    /// names the addresses of version 4 among `found`, which are the stored
    /// peers of the info-hash, the first eight of `listed`, which are the
    /// nodes of the table as it lists them for the info-hash, and `token`,
    /// which the token store has handed out for `addr`.
    pub open spec fn get_peers_answer(
        &self,
        get: GetPeersRequest,
        tag: Seq<u8>,
        addr: SocketAddress,
        now: Timestamp,
        after: &DhtHandler,
        out: Seq<Effect>,
        listed: Seq<Node>,
        found: Seq<SocketAddress>,
        token: Token,
    ) -> bool {
        &&& after.routing_table@.closest_nodes(get.info_hash, now, listed)
        &&& found.no_duplicates()
        &&& found.to_set() == contacts_of(after.active_stores@, get.info_hash)
        &&& self.token_handed_out(addr, token, now, after)
        &&& out.len() == 1
        &&& out[0] matches Effect::Send(message, to) && to == addr
            && message.is_get_peers_response(
            tag,
            self.routing_table@.node_id,
            found.filter(is_v4()),
            first_handles(listed),
            bytes_of_u32(token.value),
        )
    }

    /// Whether `token` is the token that the store handed out for `addr`
    /// at `now`, with whatever secret would become the current one if the
    /// rotation was due.
    pub open spec fn token_handed_out(
        &self,
        addr: SocketAddress,
        token: Token,
        now: Timestamp,
        after: &DhtHandler,
    ) -> bool {
        exists|fresh: u32|
            (after.token_store@, token) == #[trigger] self.token_store@.checkout(
                addr.ip,
                now,
                fresh,
            )
    }

    /// Whether the token of an announce from `addr` was checked at `now`
    /// with the result `valid`: a token of the wrong length is not valid,
    /// and any other is offered to the store, with whatever secret would
    /// become the current one if the rotation was due.
    pub open spec fn token_checked(
        &self,
        bytes: Seq<u8>,
        addr: SocketAddress,
        valid: bool,
        now: Timestamp,
        after: &DhtHandler,
    ) -> bool {
        match Token::spec_new(bytes) {
            Ok(token) => exists|fresh: u32|
                (after.token_store@, valid) == #[trigger] self.token_store@.checkin(
                    addr.ip,
                    token,
                    now,
                    fresh,
                ),
            Err(_) => !valid && after.token_store@ == self.token_store@,
        }
    }

    /// Whether an announce from `addr` was answered: the request is noted
    /// in the table and its token is checked. With a token that is not
    /// valid, a protocol error goes back and the storage stays as it is.
    /// Otherwise the sender is announced for the info-hash, at its own
    /// address with the port that the request names; if the storage takes
    /// it, an answer that names no nodes goes back, and if the storage is
    /// full, a server error.
    pub open spec fn answered_announce_peer(
        &self,
        announce: AnnouncePeerRequest,
        tag: Seq<u8>,
        addr: SocketAddress,
        now: Timestamp,
        after: &DhtHandler,
        out: Seq<Effect>,
    ) -> bool {
        &&& self.same_procedures(after)
        &&& request_noted(
            self.routing_table@,
            NodeHandle { id: announce.id, addr },
            now,
            after.routing_table@,
        )
        &&& exists|valid: bool|
            #[trigger] self.announce_answer(announce, tag, addr, now, after, out, valid)
    }

    /// Whether `out` is the answer to an announce from `addr` whose token
    /// was found valid or not as `valid` says.
    pub open spec fn announce_answer(
        &self,
        announce: AnnouncePeerRequest,
        tag: Seq<u8>,
        addr: SocketAddress,
        now: Timestamp,
        after: &DhtHandler,
        out: Seq<Effect>,
        valid: bool,
    ) -> bool {
        &&& self.token_checked(announce.token@, addr, valid, now, after)
        &&& out.len() == 1
        &&& out[0] matches Effect::Send(message, to) && to == addr && if !valid {
            &&& after.active_stores@ == self.active_stores@
            &&& message.is_error(tag, error_code::PROTOCOL_ERROR, "received an invalid token"@)
        } else {
            let stored = spec_add(
                self.active_stores@,
                announce.info_hash,
                connect_addr(addr, announce.port),
                now,
            );
            &&& after.active_stores@ == stored.0
            &&& if stored.1 {
                message.is_other_response(
                    tag,
                    self.routing_table@.node_id,
                    Seq::empty(),
                    Seq::empty(),
                )
            } else {
                message.is_error(tag, error_code::SERVER_ERROR, "announce storage is full"@)
            }
        }
    }

    /// Takes in a message that arrived from `addr` at `now`, and hands back
    /// what is to be sent and told in answer. `local_family` is the family
    /// of the local socket, if it is known.
    ///
    /// A response that is not expected, a request to a worker that only
    /// reads, and an error change nothing and are not answered. A request
    /// is answered as its kind asks. A response goes to the action that its
    /// tag names, and no other registered action changes.
    pub fn handle_incoming(
        &mut self,
        message: Message,
        addr: SocketAddress,
        local_family: Option<AddressFamily>,
        now: Timestamp,
    ) -> (out: Vec<Effect>)
        requires
            old(self).wf(),
        ensures
            final(self).wf(),
            old(self).same_setup(final(self)),
            old(self).discards(message) ==> *final(self) == *old(self) && out@.len() == 0,
            !old(self).discards(message) ==> match message.body {
                MessageBody::Request(Request::Ping(ping)) => old(self).answered_ping(
                    ping,
                    message.transaction_id@,
                    addr,
                    now,
                    final(self),
                    out@,
                ),
                MessageBody::Request(Request::FindNode(find)) => old(self).answered_find_node(
                    find,
                    message.transaction_id@,
                    addr,
                    local_family,
                    now,
                    final(self),
                    out@,
                ),
                MessageBody::Request(Request::GetPeers(get)) => old(self).answered_get_peers(
                    get,
                    message.transaction_id@,
                    addr,
                    now,
                    final(self),
                    out@,
                ),
                MessageBody::Request(Request::AnnouncePeer(announce)) => old(
                    self,
                ).answered_announce_peer(
                    announce,
                    message.transaction_id@,
                    addr,
                    now,
                    final(self),
                    out@,
                ),
                MessageBody::Response(response) => {
                    let id = TransactionID::spec_from_bytes(message.transaction_id@)->Some_0;
                    &&& others_kept(
                        old(self).table_actions@,
                        final(self).table_actions@,
                        id.action,
                    )
                    &&& match response {
                        Response::Other(other) => old(self).other_response_taken(
                            other,
                            id,
                            addr,
                            now,
                            final(self),
                            Seq::empty(),
                            out@,
                        ),
                        Response::GetPeers(get) => old(self).get_peers_response_taken(
                            get,
                            id,
                            addr,
                            now,
                            final(self),
                            Seq::empty(),
                            out@,
                        ),
                    }
                },
                MessageBody::Error(_) => true,
            },
    {
        let mut out: Vec<Effect> = Vec::new();
        let Message { transaction_id, body } = message;
        match body {
            MessageBody::Request(request) => {
                // Do not process requests if we are read only
                if self.read_only {
                    return out;
                }
                match request {
                    Request::Ping(p) => {
                        self.handle_ping(p, transaction_id, addr, &mut out, now);
                    },
                    Request::FindNode(f) => {
                        self.handle_find_node(f, transaction_id, addr, local_family, &mut out, now);
                    },
                    Request::GetPeers(g) => {
                        self.handle_get_peers(g, transaction_id, addr, &mut out, now);
                    },
                    Request::AnnouncePeer(a) => {
                        self.handle_announce_peer(a, transaction_id, addr, &mut out, now);
                    },
                }
            },
            MessageBody::Response(response) => {
                // Check if we can interpret the response transaction id as one of ours,
                // and match the response action id with our current actions
                let trans_id = match self.expected_response(&transaction_id, &response) {
                    Some(trans_id) => trans_id,
                    None => {
                        return out;
                    },
                };
                match response {
                    Response::Other(f) => {
                        self.handle_other_response(f, trans_id, addr, &mut out, now);
                    },
                    Response::GetPeers(g) => {
                        self.handle_get_peers_response(g, trans_id, addr, &mut out, now);
                    },
                }
            },
            MessageBody::Error(_) => {},
        }
        out
    }

    /// The transaction id of a response, if the response is expected.
    fn expected_response(&self, tag: &Vec<u8>, response: &Response) -> (id: Option<TransactionID>)
        requires
            self.wf(),
        ensures
            match id {
                Some(id) => response_expected(self.table_actions@, tag@, *response)
                    && TransactionID::spec_from_bytes(tag@) == Some(id),
                None => !response_expected(self.table_actions@, tag@, *response),
            },
    {
        let trans_id = match TransactionID::from_bytes(tag.as_slice()) {
            Some(trans_id) => trans_id,
            None => {
                return None;
            },
        };
        let expected = match (self.table_actions.get(&trans_id.action), response) {
            (Some(TableAction::Lookup(_)), Response::GetPeers(_)) => true,
            (Some(TableAction::Refresh(_)), Response::Other(_)) => true,
            (Some(TableAction::Bootstrap(_, _)), Response::Other(_)) => true,
            _ => false,
        };
        if expected {
            Some(trans_id)
        } else {
            None
        }
    }

    /// Notes in the table that a request arrived from the node `id` at `addr`.
    fn note_request(&mut self, id: crate::id::NodeId, addr: SocketAddress, now: Timestamp)
        requires
            old(self).wf(),
        ensures
            final(self).wf(),
            old(self).same_but_table(final(self)),
            request_noted(
                old(self).routing_table@,
                NodeHandle { id, addr },
                now,
                final(self).routing_table@,
            ),
    {
        let node = NodeHandle::new(id, addr);

        // Node requested from us, mark it in the Routingtable
        self.routing_table.remote_request(&node, now);
    }

    /// Answers a ping.
    fn handle_ping(
        &mut self,
        p: PingRequest,
        transaction_id: Vec<u8>,
        addr: SocketAddress,
        out: &mut Vec<Effect>,
        now: Timestamp,
    )
        requires
            old(self).wf(),
            old(out)@.len() == 0,
        ensures
            final(self).wf(),
            old(self).answered_ping(p, transaction_id@, addr, now, final(self), final(out)@),
    {
        self.note_request(p.id, addr, now);
        let ping_rsp = OtherResponse {
            id: self.routing_table.node_id(),
            nodes_v4: Vec::new(),
            nodes_v6: Vec::new(),
        };
        let ping_msg = Message {
            transaction_id,
            body: MessageBody::Response(Response::Other(ping_rsp)),
        };
        out.push(Effect::Send(ping_msg, addr));
    }

    /// Answers a find-node request.
    fn handle_find_node(
        &mut self,
        f: FindNodeRequest,
        transaction_id: Vec<u8>,
        addr: SocketAddress,
        local_family: Option<AddressFamily>,
        out: &mut Vec<Effect>,
        now: Timestamp,
    )
        requires
            old(self).wf(),
            old(out)@.len() == 0,
        ensures
            final(self).wf(),
            old(self).answered_find_node(
                f,
                transaction_id@,
                addr,
                local_family,
                now,
                final(self),
                final(out)@,
            ),
    {
        self.note_request(f.id, addr, now);
        let want = match f.want {
            Some(want) => want,
            None => match local_family {
                Some(AddressFamily::V4) => Want::V4,
                Some(AddressFamily::V6) => Want::V6,
                None => {
                    return ;
                },
            },
        };

        // Grab the closest nodes
        let listed = self.routing_table.closest_nodes(f.target, now);
        let nodes_v4 = if want == Want::V4 || want == Want::Both {
            closest_handles(&listed, Some(AddressFamily::V4))
        } else {
            Vec::new()
        };
        let nodes_v6 = if want == Want::V6 || want == Want::Both {
            closest_handles(&listed, Some(AddressFamily::V6))
        } else {
            Vec::new()
        };
        proof {
            assert(nodes_v4@ =~= wanted_handles(listed@, AddressFamily::V4, want));
            assert(nodes_v6@ =~= wanted_handles(listed@, AddressFamily::V6, want));
        }
        let find_node_rsp = OtherResponse { id: self.routing_table.node_id(), nodes_v4, nodes_v6 };
        let find_node_msg = Message {
            transaction_id,
            body: MessageBody::Response(Response::Other(find_node_rsp)),
        };
        out.push(Effect::Send(find_node_msg, addr));
    }

    /// Answers a get-peers request.
    fn handle_get_peers(
        &mut self,
        g: GetPeersRequest,
        transaction_id: Vec<u8>,
        addr: SocketAddress,
        out: &mut Vec<Effect>,
        now: Timestamp,
    )
        requires
            old(self).wf(),
            old(out)@.len() == 0,
        ensures
            final(self).wf(),
            old(self).answered_get_peers(g, transaction_id@, addr, now, final(self), final(out)@),
    {
        self.note_request(g.id, addr, now);
        let found = self.active_stores.find(&g.info_hash, now);
        let values = filter_v4(&found);

        // Grab the closest nodes
        let listed = self.routing_table.closest_nodes(g.info_hash, now);
        let nodes = closest_handles(&listed, None);
        let fresh = self.token_store.draw_secret(now);
        let token = self.token_store.checkout_at(addr.ip(), now, fresh);
        let get_peers_rsp = GetPeersResponse {
            id: self.routing_table.node_id(),
            values,
            nodes,
            token: Some(token.to_bytes()),
        };
        let get_peers_msg = Message {
            transaction_id,
            body: MessageBody::Response(Response::GetPeers(get_peers_rsp)),
        };
        out.push(Effect::Send(get_peers_msg, addr));
        proof {
            assert(old(self).token_handed_out(addr, token, now, self));
            assert(self.routing_table@.closest_nodes(g.info_hash, now, listed@));
            assert(old(self).get_peers_answer(
                g,
                transaction_id@,
                addr,
                now,
                self,
                out@,
                listed@,
                found@,
                token,
            ));
        }
    }

    /// Answers an announce.
    fn handle_announce_peer(
        &mut self,
        a: AnnouncePeerRequest,
        transaction_id: Vec<u8>,
        addr: SocketAddress,
        out: &mut Vec<Effect>,
        now: Timestamp,
    )
        requires
            old(self).wf(),
            old(out)@.len() == 0,
        ensures
            final(self).wf(),
            old(self).answered_announce_peer(
                a,
                transaction_id@,
                addr,
                now,
                final(self),
                final(out)@,
            ),
    {
        self.note_request(a.id, addr, now);
        let ghost tag = transaction_id@;

        // Validate the token
        let is_valid = match Token::new(a.token.as_slice()) {
            Ok(t) => {
                let fresh = self.token_store.draw_secret(now);
                self.token_store.checkin_at(addr.ip(), t, now, fresh)
            },
            Err(_) => false,
        };
        proof {
            assert(old(self).token_checked(a.token@, addr, is_valid, now, self));
        }

        // Create a socket address based on the implied/explicit port number
        let connect_addr = match a.port {
            None => addr,
            Some(port) => addr.with_port(port),
        };

        // Resolve type of response we are going to send
        let response_msg = if !is_valid {
            // Node gave us an invalid token
            Message {
                transaction_id,
                body: MessageBody::Error(
                    Error {
                        code: error_code::PROTOCOL_ERROR,
                        message: "received an invalid token".to_owned(),
                    },
                ),
            }
        } else if self.active_stores.add(a.info_hash, connect_addr, now) {
            // Node successfully stored the value with us, send an announce response
            Message {
                transaction_id,
                body: MessageBody::Response(
                    Response::Other(
                        OtherResponse {
                            id: self.routing_table.node_id(),
                            nodes_v4: Vec::new(),
                            nodes_v6: Vec::new(),
                        },
                    ),
                ),
            }
        } else {
            // Node unsuccessfully stored the value with us, send them an error message
            Message {
                transaction_id,
                body: MessageBody::Error(
                    Error {
                        code: error_code::SERVER_ERROR,
                        message: "announce storage is full".to_owned(),
                    },
                ),
            }
        };
        out.push(Effect::Send(response_msg, addr));
        proof {
            assert(old(self).announce_answer(a, tag, addr, now, self, out@, is_valid));
        }
    }

    /// The nodes that an answer names, as nodes that were only heard of.
    pub open spec fn heard_of(handles: Seq<NodeHandle>) -> Seq<Node> {
        Seq::new(
            handles.len(),
            |i: int| Node::spec_as_questionable(handles[i].id, handles[i].addr),
        )
    }

    /// Whether the sender of an expected answer to a find-node request or to
    /// a ping is offered to the table: the sender of an answer to the
    /// refresh is, and the sender of an answer to a bootstrap is unless it
    /// is one of the routers.
    pub open spec fn admits(&self, key: u32, addr: SocketAddress) -> bool {
        match self.table_actions@[key] {
            TableAction::Refresh(_) => true,
            TableAction::Bootstrap(bootstrap, _) => !bootstrap.starting_routers@.contains(addr),
            TableAction::Lookup(_) => false,
        }
    }

    /// The nodes that are offered to the table on an expected answer to a
    /// find-node request or to a ping: the nodes of version 4 that it names,
    /// as nodes that were only heard of, and after them its sender as a
    /// good node, if the sender is admitted.
    pub open spec fn learned(
        &self,
        response: OtherResponse,
        key: u32,
        addr: SocketAddress,
        now: Timestamp,
    ) -> Seq<Node> {
        if self.admits(key, addr) {
            Self::heard_of(response.nodes_v4@).push(Node::spec_as_good(response.id, addr, now))
        } else {
            Self::heard_of(response.nodes_v4@)
        }
    }

    /// Whether an expected answer to a find-node request or to a ping was
    /// taken in. The nodes of version 4 that it names are offered to the
    /// table as nodes that were only heard of, and after them its sender as
    /// a good node, if the sender is admitted. An answer to a bootstrap
    /// then moves the bootstrap on. Nothing else changes.
    pub open spec fn other_response_taken(
        &self,
        response: OtherResponse,
        id: TransactionID,
        addr: SocketAddress,
        now: Timestamp,
        after: &DhtHandler,
        out_before: Seq<Effect>,
        out_after: Seq<Effect>,
    ) -> bool {
        exists|noted: DhtHandler|
            {
                &&& self.same_but_table(&noted)
                &&& noted.wf()
                &&& #[trigger] self.routing_table@.offered(
                    self.learned(response, id.action, addr, now),
                    now,
                    noted.routing_table@,
                )
                &&& if self.table_actions@[id.action] is Bootstrap {
                    noted.bootstrap_stepped(id, true, now, after, out_before, out_after)
                } else {
                    &&& noted.same_but_actions(after)
                    &&& after.table_actions@ == noted.table_actions@
                    &&& out_after == out_before
                }
            }
    }

    /// Whether an expected answer to a get-peers request was taken in. Its
    /// sender is offered to the table as a good node. The lookup that asked
    /// takes the answer in and goes on with its search. The peers that the
    /// answer names and that the lookup has not reported before are told to
    /// the client, each once and in their order, after the requests that the
    /// lookup sends on. Nothing else changes.
    pub open spec fn get_peers_response_taken(
        &self,
        response: GetPeersResponse,
        id: TransactionID,
        addr: SocketAddress,
        now: Timestamp,
        after: &DhtHandler,
        out_before: Seq<Effect>,
        out_after: Seq<Effect>,
    ) -> bool {
        &&& self.same_procedures_but(id.action, after)
        &&& after.token_store == self.token_store
        &&& after.active_stores == self.active_stores
        &&& if self.table_actions@[id.action] is Lookup {
            &&& after.table_actions@[id.action] is Lookup
            &&& exists|noted: TableView, asked: Seq<Effect>|
                #[trigger] self.lookup_answered(
                    self.table_actions@[id.action]->Lookup_0,
                    response,
                    id,
                    addr,
                    now,
                    after,
                    after.table_actions@[id.action]->Lookup_0,
                    out_before,
                    out_after,
                    noted,
                    asked,
                )
        } else {
            after.table_actions@ == self.table_actions@ && out_after == out_before
        }
    }

    /// Whether `stepped` is the lookup `lookup` after it has taken in the
    /// answer `response` to its probe `id`: `noted` is the table after the
    /// sender was offered to it, `asked` what was to be sent after the
    /// lookup had gone on with its search, and after that the client is
    /// told of every new peer.
    pub open spec fn lookup_answered(
        &self,
        lookup: TableLookup,
        response: GetPeersResponse,
        id: TransactionID,
        addr: SocketAddress,
        now: Timestamp,
        after: &DhtHandler,
        stepped: TableLookup,
        out_before: Seq<Effect>,
        out_after: Seq<Effect>,
        noted: TableView,
        asked: Seq<Effect>,
    ) -> bool {
        let own = self.routing_table@.node_id;
        let answered = lookup@.answered(
            response.id,
            id,
            response.values@,
            response.nodes@,
            token_view(response.token),
            own,
        );
        let fresh = fresh_values(lookup.values_seen@, response.values@);
        &&& self.routing_table@.offered(
            seq![Node::spec_as_good(response.id, addr, now)],
            now,
            noted,
        )
        &&& stepped@ == answered.continued()
        &&& answered.search_effects(
            own,
            now,
            out_before,
            asked,
            self.timer@,
            after.timer@,
            noted,
            after.routing_table@,
        )
        &&& out_after == asked + Seq::new(
            fresh.len(),
            |i: int| Effect::Event(DhtEvent::PeerFound(lookup.target_id, fresh[i])),
        )
    }

    /// Offers a node to the routing table.
    fn offer_node(&mut self, node: Node, now: Timestamp, Ghost(offered): Ghost<Seq<Node>>, Ghost(
        before,
    ): Ghost<TableView>)
        requires
            old(self).wf(),
            node.wf(),
            before.offered(offered, now, old(self).routing_table@),
        ensures
            final(self).wf(),
            old(self).same_but_table(final(self)),
            before.offered(offered.push(node), now, final(self).routing_table@),
    {
        let ghost mid = self.routing_table@;
        let outcome = self.routing_table.add_node(node, now);
        proof {
            self.lemma_table_changed(old(self));
            let all = offered.push(node);
            assert(all.drop_last() =~= offered);
            assert(all.last() == node);
            assert(mid.add_node(all.last(), now, self.routing_table@, outcome));
        }
    }

    /// Takes in an expected answer to a find-node request or to a ping.
    fn handle_other_response(
        &mut self,
        f: OtherResponse,
        trans_id: TransactionID,
        addr: SocketAddress,
        out: &mut Vec<Effect>,
        now: Timestamp,
    )
        requires
            old(self).wf(),
            old(self).table_actions@.contains_key(trans_id.action),
        ensures
            final(self).wf(),
            old(self).same_setup(final(self)),
            extends(old(out)@, final(out)@),
            others_kept(old(self).table_actions@, final(self).table_actions@, trans_id.action),
            old(self).other_response_taken(
                f,
                trans_id,
                addr,
                now,
                final(self),
                old(out)@,
                final(out)@,
            ),
    {
        let node = Node::as_good(f.id, addr, now);
        let admitted = match self.table_actions.get(&trans_id.action) {
            Some(TableAction::Refresh(_)) => true,
            Some(TableAction::Bootstrap(bootstrap, _)) => !bootstrap.is_router(&addr),
            _ => false,
        };
        let ghost table_before = self.routing_table@;
        let ghost heard = Self::heard_of(f.nodes_v4@);

        // Add the payload nodes as questionable
        let mut i: usize = 0;
        proof {
            assert(heard.take(0) =~= Seq::<Node>::empty());
        }
        while i < f.nodes_v4.len()
            invariant
                i <= f.nodes_v4@.len(),
                old(self).wf(),
                self.wf(),
                old(self).same_but_table(self),
                heard == Self::heard_of(f.nodes_v4@),
                table_before == old(self).routing_table@,
                table_before.offered(heard.take(i as int), now, self.routing_table@),
            decreases f.nodes_v4@.len() - i,
        {
            let heard_of = f.nodes_v4[i];
            self.offer_node(
                Node::as_questionable(heard_of.id, heard_of.addr),
                now,
                Ghost(heard.take(i as int)),
                Ghost(table_before),
            );
            proof {
                assert(heard.take(i + 1) =~= heard.take(i as int).push(heard[i as int]));
            }
            i += 1;
        }
        proof {
            assert(heard.take(i as int) =~= heard);
        }
        if admitted {
            self.offer_node(node, now, Ghost(heard), Ghost(table_before));
        }
        let ghost noted = *self;
        proof {
            assert(admitted == old(self).admits(trans_id.action, addr));
            assert(table_before.offered(
                old(self).learned(f, trans_id.action, addr, now),
                now,
                noted.routing_table@,
            ));
        }
        let ghost actions = self.table_actions@;
        match self.take_action(trans_id.action) {
            Some(TableAction::Bootstrap(mut bootstrap, attempts)) => {
                let ghost out_before = out@;
                let ghost timer_before = self.timer@;
                let ghost before = bootstrap;
                let status = bootstrap.recv_response(
                    addr,
                    &trans_id,
                    &self.routing_table,
                    &mut self.timer,
                    out,
                    now,
                );
                proof {
                    lemma_bootstrap_extends(
                        before,
                        trans_id,
                        true,
                        self.routing_table@,
                        now,
                        bootstrap,
                        status,
                        timer_before,
                        self.timer@,
                        out_before,
                        out@,
                    );
                }
                let ghost taken = self.table_actions@;
                let ghost mid = *self;
                let ghost stepped = bootstrap;
                let ghost out_mid = out@;
                self.conclude_bootstrap(bootstrap, attempts, status, out, now);
                proof {
                    lemma_kept(actions, taken, self.table_actions@, trans_id.action);
                    assert(noted.action_taken(trans_id.action, &mid));
                    assert(noted.bootstrap_step(
                        trans_id,
                        true,
                        now,
                        self,
                        old(out)@,
                        out@,
                        mid,
                        stepped,
                        status,
                        out_mid,
                    ));
                }
            },
            Some(other) => {
                // Nothing is left to do for an answer to the refresh
                self.put_action(trans_id.action, other);
                proof {
                    assert(self.table_actions@ =~= actions);
                    assert(noted.same_but_actions(self));
                }
            },
            None => {},
        }
    }

    /// Takes in an expected answer to a get-peers request.
    fn handle_get_peers_response(
        &mut self,
        g: GetPeersResponse,
        trans_id: TransactionID,
        addr: SocketAddress,
        out: &mut Vec<Effect>,
        now: Timestamp,
    )
        requires
            old(self).wf(),
            old(self).table_actions@.contains_key(trans_id.action),
        ensures
            final(self).wf(),
            old(self).same_setup(final(self)),
            extends(old(out)@, final(out)@),
            others_kept(old(self).table_actions@, final(self).table_actions@, trans_id.action),
            old(self).get_peers_response_taken(
                g,
                trans_id,
                addr,
                now,
                final(self),
                old(out)@,
                final(out)@,
            ),
    {
        let node = Node::as_good(g.id, addr, now);
        let ghost response = g;
        let ghost table_before = self.routing_table@;
        let outcome = self.routing_table.add_node(node, now);
        let ghost noted = self.routing_table@;
        proof {
            self.lemma_table_changed(old(self));
            let offered = seq![node];
            assert(offered.drop_last() =~= Seq::<Node>::empty());
            assert(table_before.offered(offered.drop_last(), now, table_before));
            assert(table_before.add_node(offered.last(), now, noted, outcome));
            assert(table_before.offered(offered, now, noted));
        }
        let ghost actions = self.table_actions@;
        match self.take_action(trans_id.action) {
            Some(TableAction::Lookup(mut lookup)) => {
                let ghost asking = lookup;
                let status = lookup.recv_response(
                    node,
                    &trans_id,
                    g,
                    &mut self.routing_table,
                    &mut self.timer,
                    out,
                    now,
                );
                let info_hash = lookup.info_hash();
                let ghost asked = out@;
                let ghost stepped = lookup;
                proof {
                    lemma_extends(old(out)@, out@);
                }
                self.put_action(trans_id.action, TableAction::Lookup(lookup));
                report_lookup(status, info_hash, out);
                proof {
                    let fresh = fresh_values(asking.values_seen@, response.values@);
                    assert(self.table_actions@.dom() =~= actions.dom());
                    assert(self.table_actions@[trans_id.action] == TableAction::Lookup(stepped));
                    assert(out@ =~= asked + Seq::new(
                        fresh.len(),
                        |i: int| Effect::Event(DhtEvent::PeerFound(asking.target_id, fresh[i])),
                    ));
                    assert(old(self).lookup_answered(
                        asking,
                        response,
                        trans_id,
                        addr,
                        now,
                        self,
                        stepped,
                        old(out)@,
                        out@,
                        noted,
                        asked,
                    ));
                    assert(old(self).lookup_answered(
                        old(self).table_actions@[trans_id.action]->Lookup_0,
                        response,
                        trans_id,
                        addr,
                        now,
                        self,
                        self.table_actions@[trans_id.action]->Lookup_0,
                        old(out)@,
                        out@,
                        noted,
                        asked,
                    ));
                }
            },
            Some(other) => {
                // The answer was resolved to an action of another kind
                self.put_action(trans_id.action, other);
                proof {
                    assert(self.table_actions@ =~= actions);
                }
            },
            None => {},
        }
    }

    /// A change of the routing table that keeps it well formed and leaves
    /// its id as it is keeps the worker well formed.
    proof fn lemma_table_changed(&self, before: &DhtHandler)
        requires
            before.wf(),
            self.routing_table@.wf(),
            self.routing_table@.node_id == before.routing_table@.node_id,
            self.running == before.running,
            self.timer == before.timer,
            self.read_only == before.read_only,
            self.announce_port == before.announce_port,
            self.token_store == before.token_store,
            self.aid_generator == before.aid_generator,
            self.bootstrapping == before.bootstrapping,
            self.active_stores == before.active_stores,
            self.future_actions == before.future_actions,
            self.table_actions == before.table_actions,
        ensures
            self.wf(),
            before.same_but_table(self),
    {
    }

    /// Stops the worker.
    pub fn shutdown(&mut self)
        ensures
            !final(self).running,
            final(self).timer == old(self).timer,
            final(self).read_only == old(self).read_only,
            final(self).announce_port == old(self).announce_port,
            final(self).token_store == old(self).token_store,
            final(self).aid_generator == old(self).aid_generator,
            final(self).bootstrapping == old(self).bootstrapping,
            final(self).routing_table == old(self).routing_table,
            final(self).active_stores == old(self).active_stores,
            final(self).future_actions == old(self).future_actions,
            final(self).table_actions == old(self).table_actions,
    {
        self.running = false;
    }
}

/// A tick of the refresh only appends to what is to be sent.
pub proof fn lemma_refresh_extends(
    refresh: TableRefresh,
    now: Timestamp,
    table_before: TableView,
    table_after: TableView,
    out_before: Seq<Effect>,
    out_after: Seq<Effect>,
)
    requires
        exists|listed: Seq<Node>|
            {
                &&& #[trigger] table_before.closest_nodes(
                    refresh.spec_target(table_before.node_id),
                    now,
                    listed,
                )
                &&& refresh.probed(listed, now, table_before, table_after, out_before, out_after)
            },
    ensures
        extends(out_before, out_after),
{
    let listed = choose|listed: Seq<Node>|
        {
            &&& #[trigger] table_before.closest_nodes(
                refresh.spec_target(table_before.node_id),
                now,
                listed,
            )
            &&& refresh.probed(listed, now, table_before, table_after, out_before, out_after)
        };
    if exists|i: int| crate::worker::refresh::is_first_questionable(listed, now, i) {
        lemma_extends(out_before, out_after);
    }
}

/// A step of the bootstrap only appends to what is to be sent.
pub proof fn lemma_bootstrap_extends(
    bootstrap: TableBootstrap,
    id: TransactionID,
    answered: bool,
    table: TableView,
    now: Timestamp,
    after: TableBootstrap,
    status: BootstrapStatus,
    timer_before: Seq<Timeout<ScheduledTaskCheck>>,
    timer_after: Seq<Timeout<ScheduledTaskCheck>>,
    out_before: Seq<Effect>,
    out_after: Seq<Effect>,
)
    requires
        bootstrap.resolved(
            id,
            answered,
            table,
            now,
            after,
            status,
            timer_before,
            timer_after,
            out_before,
            out_after,
        ),
    ensures
        extends(out_before, out_after),
{
    if out_after != out_before {
        let next = bootstrap.curr_bootstrap_bucket + 1;
        let listed = choose|listed: Seq<Node>|
            {
                &&& #[trigger] table.closest_nodes(table.node_id.spec_flip_bit(next), now, listed)
                &&& bootstrap.phase_started(
                    listed,
                    next,
                    table.node_id,
                    now,
                    after,
                    status,
                    timer_before,
                    timer_after,
                    out_before,
                    out_after,
                )
            };
        lemma_extends(out_before, out_after);
    }
}

/// Tells the client what a step of the lookup of `info_hash` has yielded:
/// every new peer, or the end of the lookup.
pub fn report_lookup(status: LookupStatus, info_hash: InfoHash, out: &mut Vec<Effect>)
    ensures
        extends(old(out)@, final(out)@),
        match status {
            LookupStatus::Searching => final(out)@ == old(out)@,
            LookupStatus::Completed => final(out)@ == old(out)@.push(
                Effect::Event(DhtEvent::LookupCompleted(info_hash)),
            ),
            LookupStatus::Values(values) => final(out)@ == old(out)@ + Seq::new(
                values@.len(),
                |i: int| Effect::Event(DhtEvent::PeerFound(info_hash, values@[i])),
            ),
        },
{
    match status {
        LookupStatus::Searching => {},
        LookupStatus::Completed => {
            out.push(Effect::Event(DhtEvent::LookupCompleted(info_hash)));
        },
        LookupStatus::Values(values) => {
            let mut i: usize = 0;
            proof {
                assert(out@ =~= old(out)@ + Seq::new(
                    0,
                    |i: int| Effect::Event(DhtEvent::PeerFound(info_hash, values@[i])),
                ));
            }
            while i < values.len()
                invariant
                    i <= values@.len(),
                    out@ == old(out)@ + Seq::new(
                        i as nat,
                        |j: int| Effect::Event(DhtEvent::PeerFound(info_hash, values@[j])),
                    ),
                decreases values@.len() - i,
            {
                out.push(Effect::Event(DhtEvent::PeerFound(info_hash, values[i])));
                proof {
                    assert(out@ =~= old(out)@ + Seq::new(
                        (i + 1) as nat,
                        |j: int| Effect::Event(DhtEvent::PeerFound(info_hash, values@[j])),
                    ));
                }
                i += 1;
            }
        },
    }
}

/// The handles of the first eight of the listed nodes that are of the
/// family `family`, or of the first eight of all where no family is named.
pub fn closest_handles(listed: &Vec<Node>, family: Option<AddressFamily>) -> (handles: Vec<
    NodeHandle,
>)
    ensures
        handles@ == first_handles(
            match family {
                Some(family) => listed@.filter(of_family(family)),
                None => listed@,
            },
        ),
{
    let mut eligible: Vec<Node> = Vec::new();
    let mut i: usize = 0;
    let ghost pred = match family {
        Some(family) => of_family(family),
        None => of_family(AddressFamily::V4),
    };
    proof {
        assert(listed@.take(0) =~= Seq::<Node>::empty());
        assert(listed@.take(0).filter(pred) =~= Seq::<Node>::empty());
    }
    while i < listed.len()
        invariant
            i <= listed@.len(),
            pred == match family {
                Some(family) => of_family(family),
                None => of_family(AddressFamily::V4),
            },
            eligible@ == match family {
                Some(_) => listed@.take(i as int).filter(pred),
                None => listed@.take(i as int),
            },
        decreases listed@.len() - i,
    {
        proof {
            assert(listed@.take(i + 1) =~= listed@.take(i as int).push(listed@[i as int]));
            listed@.take(i as int).lemma_filter_push(listed@[i as int], pred);
        }
        let take = match family {
            Some(family) => listed[i].handle.addr.ip.family() == family,
            None => true,
        };
        if take {
            eligible.push(listed[i]);
        }
        i += 1;
    }
    proof {
        assert(listed@.take(i as int) =~= listed@);
    }
    let mut handles: Vec<NodeHandle> = Vec::new();
    let mut j: usize = 0;
    while j < eligible.len() && j < MAX_NODES_RETURNED
        invariant
            j <= eligible@.len(),
            j <= MAX_NODES_RETURNED,
            handles@.len() == j,
            forall|k: int| 0 <= k < j ==> #[trigger] handles@[k] == eligible@[k].handle,
        decreases eligible@.len() - j,
    {
        handles.push(eligible[j].handle);
        j += 1;
    }
    proof {
        assert(handles@ =~= first_handles(eligible@));
    }
    handles
}

/// The addresses of version 4 among `addrs`, in their order.
pub fn filter_v4(addrs: &Vec<SocketAddress>) -> (values: Vec<SocketAddress>)
    ensures
        values@ == addrs@.filter(is_v4()),
{
    let mut values: Vec<SocketAddress> = Vec::new();
    let mut i: usize = 0;
    proof {
        assert(addrs@.take(0) =~= Seq::<SocketAddress>::empty());
        assert(addrs@.take(0).filter(is_v4()) =~= Seq::<SocketAddress>::empty());
    }
    while i < addrs.len()
        invariant
            i <= addrs@.len(),
            values@ == addrs@.take(i as int).filter(is_v4()),
        decreases addrs@.len() - i,
    {
        proof {
            assert(addrs@.take(i + 1) =~= addrs@.take(i as int).push(addrs@[i as int]));
            addrs@.take(i as int).lemma_filter_push(addrs@[i as int], is_v4());
        }
        if addrs[i].is_ipv4() {
            values.push(addrs[i]);
        }
        i += 1;
    }
    proof {
        assert(addrs@.take(i as int) =~= addrs@);
    }
    values
}

} // verus!

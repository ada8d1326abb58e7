use crate::address::SocketAddress;
use crate::clock::Timestamp;
use crate::id::{InfoHash, NodeId};
use crate::message::{
    AnnouncePeerRequest, GetPeersRequest, GetPeersResponse, Message, MessageBody, Request,
};
use crate::routing::node::{Node, NodeHandle};
use crate::routing::table::{RoutingTable, TableView};
use crate::timer::{deadline_after, Timeout, Timer};
use crate::transaction::{
    lemma_nth_successor, nth_successor, successor, ActionID, MIDGenerator, TransactionID,
};
use crate::worker::bootstrap::contains_addr;
use crate::worker::{Effect, ScheduledTaskCheck};
use vstd::prelude::*;

verus! {

/// How long a probe of a lookup waits for its answer: 5 seconds, in nanoseconds.
pub const LOOKUP_TIMEOUT: u128 = 5_000_000_000;

/// How long a lookup waits for late answers before it ends: 5 seconds, in nanoseconds.
pub const ENDGAME_TIMEOUT: u128 = 5_000_000_000;

/// The most probes of one lookup that wait for an answer at the same time.
pub const MAX_ACTIVE_SEARCHES: usize = 3;

/// The number of nearest nodes that a lookup works on.
pub const LOOKUP_WIDTH: usize = 8;

/// What a lookup has done with a node of its shortlist.
#[derive(Clone, Copy, Debug, PartialEq, Eq, Structural)]
pub enum LookupNodeState {
    /// The node was not asked yet.
    Idle,
    /// The node was asked and has not answered yet.
    Requested,
    /// The node has answered.
    Responded,
    /// The node did not answer in time.
    Failed,
}

/// A node that a lookup knows of.
#[derive(Debug)]
pub struct LookupEntry {
    pub handle: NodeHandle,
    pub state: LookupNodeState,
    /// The token that the node handed out with its answer, if it did.
    pub token: Option<Vec<u8>>,
}

/// What a lookup knows of a node.
#[verifier::ext_equal]
pub struct EntryView {
    pub handle: NodeHandle,
    pub state: LookupNodeState,
    pub token: Option<Seq<u8>>,
}

impl View for LookupEntry {
    type V = EntryView;

    open spec fn view(&self) -> EntryView {
        EntryView {
            handle: self.handle,
            state: self.state,
            token: match self.token {
                Some(token) => Some(token@),
                None => None,
            },
        }
    }
}

/// A probe of a lookup that waits for its answer.
#[derive(Clone, Copy, Debug, PartialEq, Eq, Structural)]
pub struct ActiveProbe {
    pub id: TransactionID,
    pub handle: NodeHandle,
}

/// What a step of a lookup yields.
#[derive(Debug)]
pub enum LookupStatus {
    /// The lookup goes on.
    Searching,
    /// Peers that were not reported before.
    Values(Vec<SocketAddress>),
    /// The lookup is over.
    Completed,
}

/// An iterative search for the peers of an info-hash.
pub struct TableLookup {
    pub id_generator: MIDGenerator,
    pub target_id: InfoHash,
    pub will_announce: bool,
    /// The nodes that the lookup knows of, from the nearest to the target to the farthest.
    pub shortlist: Vec<LookupEntry>,
    /// The probes that wait for an answer.
    pub active_lookups: Vec<ActiveProbe>,
    /// The peers that were reported already.
    pub values_seen: Vec<SocketAddress>,
    /// Whether the lookup only waits for late answers.
    pub in_endgame: bool,
}

/// The state of a lookup.
#[verifier::ext_equal]
pub struct LookupView {
    pub generator: MIDGenerator,
    pub target: InfoHash,
    pub will_announce: bool,
    pub shortlist: Seq<EntryView>,
    pub active: Seq<ActiveProbe>,
    pub seen: Seq<SocketAddress>,
    pub endgame: bool,
}

impl View for TableLookup {
    type V = LookupView;

    open spec fn view(&self) -> LookupView {
        LookupView {
            generator: self.id_generator,
            target: self.target_id,
            will_announce: self.will_announce,
            shortlist: Seq::new(self.shortlist@.len(), |i: int| self.shortlist@[i]@),
            active: self.active_lookups@,
            seen: self.values_seen@,
            endgame: self.in_endgame,
        }
    }
}

/// The peers among `offered` that are new: those that are neither in `seen`
/// nor earlier in `offered`, in their order.
pub open spec fn fresh_values(seen: Seq<SocketAddress>, offered: Seq<SocketAddress>) -> Seq<
    SocketAddress,
>
    decreases offered.len(),
{
    if offered.len() == 0 {
        Seq::empty()
    } else {
        let earlier = fresh_values(seen, offered.drop_last());
        if seen.contains(offered.last()) || earlier.contains(offered.last()) {
            earlier
        } else {
            earlier.push(offered.last())
        }
    }
}

/// The peers that a lookup reports for a sequence of answers, each with the
/// peers that it offers, when `seen` were reported before.
pub open spec fn reported(seen: Seq<SocketAddress>, answers: Seq<Seq<SocketAddress>>) -> Seq<
    SocketAddress,
>
    decreases answers.len(),
{
    if answers.len() == 0 {
        Seq::empty()
    } else {
        let earlier = reported(seen, answers.drop_last());
        earlier + fresh_values(seen + earlier, answers.last())
    }
}

/// The new peers of an answer were offered by it, were not seen before, and
/// are each new only once.
pub proof fn lemma_fresh_values(seen: Seq<SocketAddress>, offered: Seq<SocketAddress>)
    ensures
        forall|i: int|
            0 <= i < fresh_values(seen, offered).len() ==> !seen.contains(
                #[trigger] fresh_values(seen, offered)[i],
            ) && offered.contains(fresh_values(seen, offered)[i]),
        forall|i: int|
            0 <= i < offered.len() ==> seen.contains(#[trigger] offered[i]) || fresh_values(
                seen,
                offered,
            ).contains(offered[i]),
        fresh_values(seen, offered).no_duplicates(),
        seen.no_duplicates() ==> (seen + fresh_values(seen, offered)).no_duplicates(),
    decreases offered.len(),
{
    let fresh = fresh_values(seen, offered);
    if offered.len() > 0 {
        let head = offered.drop_last();
        let earlier = fresh_values(seen, head);
        lemma_fresh_values(seen, head);
        assert forall|i: int| 0 <= i < fresh.len() implies !seen.contains(#[trigger] fresh[i])
            && offered.contains(fresh[i]) by {
            if i < earlier.len() {
                assert(fresh[i] == earlier[i]);
                assert(head.contains(earlier[i]));
                let j = choose|j: int| 0 <= j < head.len() && head[j] == earlier[i];
                assert(offered[j] == fresh[i]);
            } else {
                assert(offered[offered.len() - 1] == fresh[i]);
            }
        }
        assert forall|i: int| 0 <= i < offered.len() implies seen.contains(#[trigger] offered[i])
            || fresh.contains(offered[i]) by {
            if i < head.len() {
                assert(head[i] == offered[i]);
                if !seen.contains(head[i]) {
                    assert(earlier.contains(head[i]));
                    let j = choose|j: int| 0 <= j < earlier.len() && earlier[j] == head[i];
                    assert(fresh[j] == offered[i]);
                }
            } else {
                if !seen.contains(offered[i]) {
                    if earlier.contains(offered[i]) {
                        let j = choose|j: int| 0 <= j < earlier.len() && earlier[j] == offered[i];
                        assert(fresh[j] == offered[i]);
                    } else {
                        assert(fresh[fresh.len() - 1] == offered[i]);
                    }
                }
            }
        }
        assert forall|i: int, j: int| 0 <= i < fresh.len() && 0 <= j < fresh.len() && i
            != j implies fresh[i] != fresh[j] by {
            if i < earlier.len() && j < earlier.len() {
                assert(earlier[i] != earlier[j]);
            } else if i < earlier.len() {
                assert(earlier.contains(earlier[i]));
            } else if j < earlier.len() {
                assert(earlier.contains(earlier[j]));
            }
        }
        if seen.no_duplicates() {
            let all = seen + fresh;
            assert forall|i: int, j: int| 0 <= i < all.len() && 0 <= j < all.len() && i
                != j implies all[i] != all[j] by {
                if i < seen.len() && j < seen.len() {
                } else if i < seen.len() {
                    assert(!seen.contains(fresh[j - seen.len()]));
                } else if j < seen.len() {
                    assert(!seen.contains(fresh[i - seen.len()]));
                } else {
                    assert(fresh[i - seen.len()] != fresh[j - seen.len()]);
                }
            }
        }
    } else {
        assert(seen + fresh =~= seen);
    }
}

/// Whatever answers come in, and whatever peers they offer, no peer is
/// reported twice, and none that was seen before is reported again.
pub proof fn lemma_reported_once(seen: Seq<SocketAddress>, answers: Seq<Seq<SocketAddress>>)
    requires
        seen.no_duplicates(),
    ensures
        (seen + reported(seen, answers)).no_duplicates(),
        reported(seen, answers).no_duplicates(),
    decreases answers.len(),
{
    let all = reported(seen, answers);
    if answers.len() == 0 {
        assert(seen + all =~= seen);
    } else {
        let earlier = reported(seen, answers.drop_last());
        lemma_reported_once(seen, answers.drop_last());
        lemma_fresh_values(seen + earlier, answers.last());
        assert(seen + all =~= (seen + earlier) + fresh_values(seen + earlier, answers.last()));
    }
    let whole = seen + all;
    assert forall|i: int, j: int| 0 <= i < all.len() && 0 <= j < all.len() && i != j implies all[i]
        != all[j] by {
        assert(whole[seen.len() + i] == all[i]);
        assert(whole[seen.len() + j] == all[j]);
    }
}

/// Whether the entries are in the order of their distance to `target`, no
/// two at the same distance.
pub open spec fn shortlist_sorted(entries: Seq<EntryView>, target: NodeId) -> bool {
    forall|i: int, j: int|
        0 <= i < j < entries.len() ==> (#[trigger] entries[i]).handle.id.spec_nearer(
            (#[trigger] entries[j]).handle.id,
            target,
        )
}

/// Whether `after` is `before` with requests appended that all ask for the
/// peers of `info_hash` in the name of `id`.
pub open spec fn get_peers_added(
    before: Seq<Effect>,
    after: Seq<Effect>,
    id: NodeId,
    info_hash: InfoHash,
) -> bool {
    &&& before.len() <= after.len()
    &&& after.take(before.len() as int) == before
    &&& forall|k: int|
        before.len() <= k < after.len() ==> (#[trigger] after[k] matches Effect::Send(message, _)
            && (message.body matches MessageBody::Request(Request::GetPeers(get)) && get.id == id
            && get.info_hash == info_hash))
}

/// The probes with the transaction id `id`.
pub open spec fn is_probe(id: TransactionID) -> spec_fn(ActiveProbe) -> bool {
    |probe: ActiveProbe| probe.id == id
}

/// The probes with another transaction id than `id`.
pub open spec fn other_probe(id: TransactionID) -> spec_fn(ActiveProbe) -> bool {
    |probe: ActiveProbe| probe.id != id
}

/// Whether `entry` has answered and handed out a token.
pub open spec fn can_announce(entry: EntryView) -> bool {
    entry.state == LookupNodeState::Responded && entry.token is Some
}

/// The number of entries among the first `count` that have answered and handed out a token.
pub open spec fn num_announced(entries: Seq<EntryView>, count: int) -> nat
    decreases count,
{
    if count <= 0 {
        0
    } else {
        num_announced(entries, count - 1) + if can_announce(entries[count - 1]) {
            1nat
        } else {
            0nat
        }
    }
}

/// Whether `after` is `before` with one announce request appended for each
/// of the first `count` entries that has answered and handed out a token,
/// in the order of the entries: each goes to the address of its entry, with
/// the token of its entry, the port `port`, and the next transaction id of
/// `generator`.
pub open spec fn announces_added(
    before: Seq<Effect>,
    after: Seq<Effect>,
    entries: Seq<EntryView>,
    count: int,
    generator: MIDGenerator,
    id: NodeId,
    info_hash: InfoHash,
    port: Option<u16>,
) -> bool {
    &&& after.len() == before.len() + num_announced(entries, count)
    &&& after.take(before.len() as int) == before
    &&& forall|i: int|
        0 <= i < count && can_announce(#[trigger] entries[i]) ==> (after[(before.len()
            + num_announced(entries, i)) as int] matches Effect::Send(message, to) && to
            == entries[i].handle.addr && message.is_announce_peer(
            (TransactionID {
                action: generator.action_id.id,
                message: nth_successor(generator.next_alloc, num_announced(entries, i)),
            }).spec_to_bytes(),
            id,
            info_hash,
            entries[i].token->Some_0,
            port,
        ))
}

/// The timeouts of the probes, one for each in their order.
pub open spec fn probe_timeouts(probes: Seq<ActiveProbe>, now: Timestamp) -> Seq<
    Timeout<ScheduledTaskCheck>,
> {
    Seq::new(
        probes.len(),
        |k: int|
            Timeout {
                deadline: deadline_after(now, LOOKUP_TIMEOUT),
                token: ScheduledTaskCheck::LookupTimeout(probes[k].id),
            },
    )
}

/// The nodes that the probes were sent to, in the order of the probes.
pub open spec fn probed_nodes(probes: Seq<ActiveProbe>) -> Seq<NodeHandle> {
    Seq::new(probes.len(), |k: int| probes[k].handle)
}

impl LookupView {
    /// The shortlist is in order, no peer was seen twice, and no more
    /// probes wait than may.
    pub open spec fn wf(self) -> bool {
        &&& shortlist_sorted(self.shortlist, self.target)
        &&& self.seen.no_duplicates()
        &&& self.active.len() <= MAX_ACTIVE_SEARCHES
    }

    /// The node that the probe `id` was sent to, if the probe waits.
    pub open spec fn asked_node(self, id: TransactionID) -> Option<NodeHandle> {
        let hits = self.active.filter(is_probe(id));
        if hits.len() > 0 {
            Some(hits[0].handle)
        } else {
            None
        }
    }

    /// The lookup without the probe `id` among the probes that wait.
    pub open spec fn without_probe(self, id: TransactionID) -> LookupView {
        LookupView { active: self.active.filter(other_probe(id)), ..self }
    }

    /// The lookup with the node `id` marked as having answered with `token`.
    pub open spec fn responded(self, id: NodeId, token: Option<Seq<u8>>) -> LookupView {
        LookupView {
            shortlist: Seq::new(
                self.shortlist.len(),
                |i: int|
                    if self.shortlist[i].handle.id == id {
                        EntryView {
                            handle: self.shortlist[i].handle,
                            state: LookupNodeState::Responded,
                            token,
                        }
                    } else {
                        self.shortlist[i]
                    },
            ),
            ..self
        }
    }

    /// The lookup with the node `id` marked as having failed, if it was
    /// asked and has not answered.
    pub open spec fn failed(self, id: NodeId) -> LookupView {
        LookupView {
            shortlist: Seq::new(
                self.shortlist.len(),
                |i: int|
                    if self.shortlist[i].handle.id == id && self.shortlist[i].state
                        == LookupNodeState::Requested {
                        EntryView {
                            handle: self.shortlist[i].handle,
                            state: LookupNodeState::Failed,
                            token: None,
                        }
                    } else {
                        self.shortlist[i]
                    },
            ),
            ..self
        }
    }

    /// Whether `p` is the place of the shortlist where a node with the id
    /// `id` belongs: every entry before it is nearer to the target, and the
    /// entry at it is not.
    pub open spec fn is_insertion_point(self, id: NodeId, p: int) -> bool {
        &&& 0 <= p <= self.shortlist.len()
        &&& forall|k: int|
            0 <= k < p ==> (#[trigger] self.shortlist[k]).handle.id.spec_nearer(id, self.target)
        &&& p < self.shortlist.len() ==> !self.shortlist[p].handle.id.spec_nearer(id, self.target)
    }

    /// The place of the shortlist where a node with the id `id` belongs.
    pub open spec fn insertion_point(self, id: NodeId) -> int {
        choose|p: int| self.is_insertion_point(id, p)
    }

    /// The lookup with the node taken into the shortlist as one that was not
    /// asked yet, if the shortlist does not know its id and fewer than eight
    /// of its nodes are nearer to the target.
    pub open spec fn with_candidate(self, handle: NodeHandle) -> LookupView {
        let p = self.insertion_point(handle.id);
        if p >= LOOKUP_WIDTH || (p < self.shortlist.len() && self.shortlist[p].handle.id
            == handle.id) {
            self
        } else {
            LookupView {
                shortlist: self.shortlist.insert(
                    p,
                    EntryView { handle, state: LookupNodeState::Idle, token: None },
                ),
                ..self
            }
        }
    }

    /// The lookup with the nodes taken into the shortlist one after the
    /// other, all but those with the id `own`.
    pub open spec fn merged(self, nodes: Seq<NodeHandle>, own: NodeId) -> LookupView
        decreases nodes.len(),
    {
        if nodes.len() == 0 {
            self
        } else {
            let earlier = self.merged(nodes.drop_last(), own);
            if nodes.last().id == own {
                earlier
            } else {
                earlier.with_candidate(nodes.last())
            }
        }
    }

    /// The lookup with the new peers among `offered` seen.
    pub open spec fn with_values(self, offered: Seq<SocketAddress>) -> LookupView {
        LookupView { seen: self.seen + fresh_values(self.seen, offered), ..self }
    }

    /// Whether `i` is the place of the nearest of the first eight entries
    /// that was not asked yet.
    pub open spec fn is_next_idle(self, i: int) -> bool {
        &&& 0 <= i < self.shortlist.len()
        &&& i < LOOKUP_WIDTH
        &&& self.shortlist[i].state == LookupNodeState::Idle
        &&& forall|j: int|
            0 <= j < i ==> (#[trigger] self.shortlist[j]).state != LookupNodeState::Idle
    }

    /// Whether one of the first eight entries was not asked yet.
    pub open spec fn has_idle(self) -> bool {
        exists|i: int| self.is_next_idle(i)
    }

    /// The place of the nearest of the first eight entries that was not asked yet.
    pub open spec fn next_idle(self) -> int {
        choose|i: int| self.is_next_idle(i)
    }

    /// Whether the lookup asks another node: it does not yet wait for late
    /// answers, fewer than three probes wait, and one of the first eight
    /// entries was not asked yet.
    pub open spec fn can_ask(self) -> bool {
        !self.endgame && self.active.len() < MAX_ACTIVE_SEARCHES && self.has_idle()
    }

    /// The probe that the lookup sends next: to the nearest node that was
    /// not asked yet, with the next transaction id.
    pub open spec fn next_probe(self) -> ActiveProbe {
        ActiveProbe {
            id: TransactionID {
                action: self.generator.action_id.id,
                message: self.generator.next_alloc,
            },
            handle: self.shortlist[self.next_idle()].handle,
        }
    }

    /// The lookup after it has sent the next probe.
    pub open spec fn asked(self) -> LookupView {
        let i = self.next_idle();
        LookupView {
            generator: MIDGenerator {
                action_id: self.generator.action_id,
                next_alloc: successor(self.generator.next_alloc),
            },
            shortlist: self.shortlist.update(
                i,
                EntryView {
                    handle: self.shortlist[i].handle,
                    state: LookupNodeState::Requested,
                    token: None,
                },
            ),
            active: self.active.push(self.next_probe()),
            ..self
        }
    }

    /// The lookup after it has asked as many nodes as it can.
    pub open spec fn searched(self) -> LookupView
        decreases MAX_ACTIVE_SEARCHES - self.active.len(),
    {
        if self.can_ask() {
            self.asked().searched()
        } else {
            self
        }
    }

    /// The probes that the lookup sends when it asks as many nodes as it can.
    pub open spec fn probes(self) -> Seq<ActiveProbe>
        decreases MAX_ACTIVE_SEARCHES - self.active.len(),
    {
        if self.can_ask() {
            seq![self.next_probe()] + self.asked().probes()
        } else {
            Seq::empty()
        }
    }

    /// Whether the lookup begins to wait for late answers: it does not do
    /// so yet, no probe waits, and none of the first eight entries is left
    /// to ask.
    pub open spec fn settles(self) -> bool {
        !self.endgame && self.active.len() == 0 && !self.has_idle()
    }

    /// The lookup after it has begun to wait for late answers, if it does.
    pub open spec fn settled(self) -> LookupView {
        if self.settles() {
            LookupView {
                generator: MIDGenerator {
                    action_id: self.generator.action_id,
                    next_alloc: successor(self.generator.next_alloc),
                },
                endgame: true,
                ..self
            }
        } else {
            self
        }
    }

    /// The lookup after it has gone on with its search: it has asked as many
    /// nodes as it can, and has begun to wait for late answers if nothing is
    /// left to do.
    pub open spec fn continued(self) -> LookupView {
        self.searched().settled()
    }

    /// Whether the lookup has gone on with its search at `now`, with these
    /// effects: one request for the peers of the target went out for each
    /// probe, in the name of `own`; a timeout was scheduled for each probe,
    /// and after them the end of the wait for late answers if that wait has
    /// begun; and the table has noted a request to each node that was asked.
    pub open spec fn search_effects(
        self,
        own: NodeId,
        now: Timestamp,
        out_before: Seq<Effect>,
        out_after: Seq<Effect>,
        timer_before: Seq<Timeout<ScheduledTaskCheck>>,
        timer_after: Seq<Timeout<ScheduledTaskCheck>>,
        table_before: TableView,
        table_after: TableView,
    ) -> bool {
        let probes = self.probes();
        let searched = self.searched();
        &&& out_after.len() == out_before.len() + probes.len()
        &&& out_after.take(out_before.len() as int) == out_before
        &&& forall|k: int|
            out_before.len() <= k < out_after.len() ==> (
            #[trigger] out_after[k] matches Effect::Send(message, to) && to == probes[k
                - out_before.len()].handle.addr && message.is_get_peers(
                probes[k - out_before.len()].id.spec_to_bytes(),
                own,
                self.target,
            ))
        &&& timer_after == timer_before + probe_timeouts(probes, now) + if searched.settles() {
            seq![
                Timeout {
                    deadline: deadline_after(now, ENDGAME_TIMEOUT),
                    token: ScheduledTaskCheck::LookupEndGame(
                        TransactionID {
                            action: searched.generator.action_id.id,
                            message: searched.generator.next_alloc,
                        },
                    ),
                },
            ]
        } else {
            Seq::empty()
        }
        &&& table_before.requested(probed_nodes(probes), now, table_after)
    }

    /// The lookup with nothing in it.
    pub open spec fn empty(generator: MIDGenerator, target: InfoHash, will_announce: bool) -> LookupView {
        LookupView {
            generator,
            target,
            will_announce,
            shortlist: Seq::empty(),
            active: Seq::empty(),
            seen: Seq::empty(),
            endgame: false,
        }
    }

    /// The lookup after the answer of the node `sender` to the probe `id` is
    /// taken in, before it goes on with its search: the probe no longer
    /// waits; the sender is marked as having answered, with its token; the
    /// nodes that the answer names are taken into the shortlist; and the
    /// peers that it names are seen.
    pub open spec fn answered(
        self,
        sender: NodeId,
        id: TransactionID,
        values: Seq<SocketAddress>,
        nodes: Seq<NodeHandle>,
        token: Option<Seq<u8>>,
        own: NodeId,
    ) -> LookupView {
        self.without_probe(id).responded(sender, token).merged(nodes, own).with_values(values)
    }

    /// The lookup after the probe `id` went unanswered, before it goes on
    /// with its search: the probe no longer waits, and the node that it was
    /// sent to is marked as having failed.
    pub open spec fn unanswered(self, id: TransactionID) -> LookupView {
        match self.asked_node(id) {
            Some(handle) => self.without_probe(id).failed(handle.id),
            None => self.without_probe(id),
        }
    }

    /// The lookup after it has come to its end: the generator has handed
    /// out one transaction id for each announce request.
    pub open spec fn finished(self) -> LookupView {
        if self.will_announce {
            LookupView {
                generator: MIDGenerator {
                    action_id: self.generator.action_id,
                    next_alloc: nth_successor(
                        self.generator.next_alloc,
                        num_announced(self.shortlist, self.shortlist.len() as int),
                    ),
                },
                ..self
            }
        } else {
            self
        }
    }
}

/// At most one place of the shortlist is the place where a node belongs.
pub proof fn lemma_insertion_point(lookup: LookupView, id: NodeId, p: int)
    requires
        lookup.is_insertion_point(id, p),
    ensures
        lookup.insertion_point(id) == p,
{
    let q = lookup.insertion_point(id);
    assert(lookup.is_insertion_point(id, q));
    if q < p {
        assert(lookup.shortlist[q].handle.id.spec_nearer(id, lookup.target));
    } else if p < q {
        assert(lookup.shortlist[p].handle.id.spec_nearer(id, lookup.target));
    }
}

/// At most one place of the shortlist is the place of the nearest entry
/// that was not asked yet.
pub proof fn lemma_next_idle(lookup: LookupView, i: int)
    requires
        lookup.is_next_idle(i),
    ensures
        lookup.has_idle(),
        lookup.next_idle() == i,
{
    let j = lookup.next_idle();
    assert(lookup.is_next_idle(j));
    if j < i {
        assert(lookup.shortlist[j].state != LookupNodeState::Idle);
    } else if i < j {
        assert(lookup.shortlist[i].state != LookupNodeState::Idle);
    }
}

/// A lookup that goes on with its search stays well formed, sends at most
/// as many probes as may still wait, and changes nothing but its
/// shortlist, its probes and the counter of its generator.
pub proof fn lemma_searched(lookup: LookupView)
    requires
        lookup.wf(),
    ensures
        lookup.searched().wf(),
        lookup.continued().wf(),
        lookup.probes().len() + lookup.active.len() <= MAX_ACTIVE_SEARCHES,
        lookup.searched().active == lookup.active + lookup.probes(),
        lookup.continued().target == lookup.target,
        lookup.continued().will_announce == lookup.will_announce,
        lookup.continued().seen == lookup.seen,
        lookup.continued().generator.action_id == lookup.generator.action_id,
        forall|k: int|
            0 <= k < lookup.probes().len() ==> (#[trigger] lookup.probes()[k]).id.action
                == lookup.generator.action_id.id,
    decreases MAX_ACTIVE_SEARCHES - lookup.active.len(),
{
    if lookup.can_ask() {
        let next = lookup.asked();
        let i = lookup.next_idle();
        assert(lookup.is_next_idle(i));
        assert forall|a: int, b: int| 0 <= a < b < next.shortlist.len() implies (
        #[trigger] next.shortlist[a]).handle.id.spec_nearer(
            (#[trigger] next.shortlist[b]).handle.id,
            next.target,
        ) by {
            assert(lookup.shortlist[a].handle.id.spec_nearer(
                lookup.shortlist[b].handle.id,
                lookup.target,
            ));
        }
        lemma_searched(next);
        assert(lookup.searched().active =~= lookup.active + lookup.probes());
        assert forall|k: int| 0 <= k < lookup.probes().len() implies (
        #[trigger] lookup.probes()[k]).id.action == lookup.generator.action_id.id by {
            if k > 0 {
                assert(lookup.probes()[k] == next.probes()[k - 1]);
            }
        }
    } else {
        assert(lookup.searched().active =~= lookup.active + lookup.probes());
    }
}

impl TableLookup {
    /// The shortlist is in order, no peer was seen twice, and no more
    /// probes wait than may.
    pub open spec fn wf(self) -> bool {
        self@.wf()
    }

    /// Whether `after` is the same lookup.
    pub open spec fn same_lookup(self, after: TableLookup) -> bool {
        &&& after.target_id == self.target_id
        &&& after.will_announce == self.will_announce
        &&& after.id_generator.action_id == self.id_generator.action_id
    }

    /// The info-hash that is looked up.
    pub fn info_hash(&self) -> (info_hash: InfoHash)
        ensures
            info_hash == self.target_id,
    {
        self.target_id
    }

    /// The action that the lookup runs as.
    pub fn action_id(&self) -> (action_id: ActionID)
        ensures
            action_id == self.id_generator.action_id,
    {
        self.id_generator.action_id()
    }

    /// Starts a lookup of `target_id` at `now`: the first eight nodes that
    /// the table lists for the target are taken into the shortlist, and the
    /// lookup goes on with its search from there.
    pub fn new(
        target_id: InfoHash,
        id_generator: MIDGenerator,
        will_announce: bool,
        table: &mut RoutingTable,
        timer: &mut Timer<ScheduledTaskCheck>,
        out: &mut Vec<Effect>,
        now: Timestamp,
    ) -> (lookup: TableLookup)
        requires
            old(table)@.wf(),
        ensures
            final(table)@.wf(),
            final(table)@.node_id == old(table)@.node_id,
            lookup.wf(),
            lookup.target_id == target_id,
            lookup.will_announce == will_announce,
            lookup.id_generator.action_id == id_generator.action_id,
            lookup.values_seen@.len() == 0,
            exists|listed: Seq<Node>|
                #[trigger] old(table)@.closest_nodes(target_id, now, listed) && lookup@
                    == LookupView::empty(id_generator, target_id, will_announce).merged(
                    seeds(listed),
                    old(table)@.node_id,
                ).continued() && LookupView::empty(id_generator, target_id, will_announce).merged(
                    seeds(listed),
                    old(table)@.node_id,
                ).search_effects(
                    old(table)@.node_id,
                    now,
                    old(out)@,
                    final(out)@,
                    old(timer)@,
                    final(timer)@,
                    old(table)@,
                    final(table)@,
                ),
            get_peers_added(old(out)@, final(out)@, old(table)@.node_id, target_id),
            final(out)@.len() <= old(out)@.len() + MAX_ACTIVE_SEARCHES,
            old(timer)@.len() <= final(timer)@.len(),
            final(timer)@.take(old(timer)@.len() as int) == old(timer)@,
    {
        let mut lookup = TableLookup {
            id_generator,
            target_id,
            will_announce,
            shortlist: Vec::new(),
            active_lookups: Vec::new(),
            values_seen: Vec::new(),
            in_endgame: false,
        };
        let own = table.node_id();
        let listed = table.closest_nodes(target_id, now);
        let ghost start = LookupView::empty(id_generator, target_id, will_announce);
        let ghost wanted = seeds(listed@);
        proof {
            assert(lookup@ =~= start);
            assert(wanted.take(0) =~= Seq::<NodeHandle>::empty());
        }
        let mut i: usize = 0;
        while i < listed.len() && i < LOOKUP_WIDTH
            invariant
                i <= listed@.len(),
                i <= LOOKUP_WIDTH,
                wanted == seeds(listed@),
                lookup.wf(),
                lookup@ == start.merged(wanted.take(i as int), own),
                lookup.target_id == target_id,
                lookup.will_announce == will_announce,
                lookup.id_generator == id_generator,
                lookup.values_seen@.len() == 0,
            decreases listed@.len() - i,
        {
            proof {
                assert(wanted.take(i + 1).drop_last() =~= wanted.take(i as int));
                assert(wanted.take(i + 1).last() == listed@[i as int].handle);
            }
            if listed[i].handle.id != own {
                lookup.insert_candidate(listed[i].handle);
            }
            i += 1;
        }
        proof {
            assert(wanted.take(i as int) =~= wanted);
        }
        lookup.continue_search(table, timer, out, now);
        lookup
    }

    /// Takes in the answer `msg` of `node` to the probe `trans_id` at
    /// `now`. The probe no longer waits, and the node is marked as having
    /// answered, with its token. The nodes that the answer names are taken
    /// into the shortlist where they are new and near enough. The peers
    /// that it names and that were not reported before are handed back,
    /// and the lookup goes on with its search.
    pub fn recv_response(
        &mut self,
        node: Node,
        trans_id: &TransactionID,
        msg: GetPeersResponse,
        table: &mut RoutingTable,
        timer: &mut Timer<ScheduledTaskCheck>,
        out: &mut Vec<Effect>,
        now: Timestamp,
    ) -> (status: LookupStatus)
        requires
            old(self).wf(),
            old(table)@.wf(),
        ensures
            final(self).wf(),
            old(self).same_lookup(*final(self)),
            final(table)@.wf(),
            final(table)@.node_id == old(table)@.node_id,
            final(self)@ == old(self)@.answered(
                node.handle.id,
                *trans_id,
                msg.values@,
                msg.nodes@,
                token_view(msg.token),
                old(table)@.node_id,
            ).continued(),
            old(self)@.answered(
                node.handle.id,
                *trans_id,
                msg.values@,
                msg.nodes@,
                token_view(msg.token),
                old(table)@.node_id,
            ).search_effects(
                old(table)@.node_id,
                now,
                old(out)@,
                final(out)@,
                old(timer)@,
                final(timer)@,
                old(table)@,
                final(table)@,
            ),
            final(self).values_seen@ == old(self).values_seen@ + fresh_values(
                old(self).values_seen@,
                msg.values@,
            ),
            match status {
                LookupStatus::Values(values) => values@.len() > 0 && values@ == fresh_values(
                    old(self).values_seen@,
                    msg.values@,
                ),
                LookupStatus::Searching => fresh_values(old(self).values_seen@, msg.values@).len()
                    == 0,
                LookupStatus::Completed => false,
            },
            get_peers_added(old(out)@, final(out)@, old(table)@.node_id, old(self).target_id),
            final(out)@.len() <= old(out)@.len() + MAX_ACTIVE_SEARCHES,
            old(timer)@.len() <= final(timer)@.len(),
            final(timer)@.take(old(timer)@.len() as int) == old(timer)@,
    {
        let own = table.node_id();

        // The probe no longer waits, and the node has answered
        self.remove_probe(trans_id);
        let GetPeersResponse { id: _, values, nodes, token } = msg;
        self.mark_responded(&node.handle.id, token);

        // Take in the nodes that the answer names
        let ghost marked = self@;
        let mut i: usize = 0;
        proof {
            assert(nodes@.take(0) =~= Seq::<NodeHandle>::empty());
        }
        while i < nodes.len()
            invariant
                i <= nodes@.len(),
                self.wf(),
                self@ == marked.merged(nodes@.take(i as int), own),
                old(self).same_lookup(*self),
                self.values_seen@ == old(self).values_seen@,
            decreases nodes@.len() - i,
        {
            proof {
                assert(nodes@.take(i + 1).drop_last() =~= nodes@.take(i as int));
                assert(nodes@.take(i + 1).last() == nodes@[i as int]);
            }
            if nodes[i].id != own {
                self.insert_candidate(nodes[i]);
            }
            i += 1;
        }
        proof {
            assert(nodes@.take(i as int) =~= nodes@);
        }

        // Pick out the peers that were not reported before
        let ghost merged = self@;
        let ghost seen = self.values_seen@;
        let mut fresh: Vec<SocketAddress> = Vec::new();
        let mut j: usize = 0;
        proof {
            assert(values@.take(0) =~= Seq::<SocketAddress>::empty());
            assert(self.values_seen@ =~= seen + fresh@);
        }
        while j < values.len()
            invariant
                j <= values@.len(),
                seen == merged.seen,
                seen == old(self).values_seen@,
                merged.wf(),
                old(self).same_lookup(*self),
                self@ == (LookupView { seen: seen + fresh@, ..merged }),
                fresh@ == fresh_values(seen, values@.take(j as int)),
            decreases values@.len() - j,
        {
            proof {
                assert(values@.take(j + 1).drop_last() =~= values@.take(j as int));
                assert(values@.take(j + 1).last() == values@[j as int]);
            }
            let value = values[j];
            let known = contains_addr(&self.values_seen, &value);
            proof {
                let all = seen + fresh@;
                if known {
                    let k = choose|k: int| 0 <= k < all.len() && all[k] == value;
                    if k >= seen.len() {
                        assert(fresh@[k - seen.len()] == value);
                    } else {
                        assert(seen[k] == value);
                    }
                } else {
                    if seen.contains(value) {
                        let k = choose|k: int| 0 <= k < seen.len() && seen[k] == value;
                        assert(all[k] == value);
                    }
                    if fresh@.contains(value) {
                        let k = choose|k: int| 0 <= k < fresh@.len() && fresh@[k] == value;
                        assert(all[seen.len() + k] == value);
                    }
                }
            }
            if !known {
                self.values_seen.push(value);
                fresh.push(value);
                proof {
                    assert(self.values_seen@ =~= seen + fresh@);
                    assert(self@.shortlist =~= merged.shortlist);
                }
            }
            j += 1;
        }
        proof {
            assert(values@.take(j as int) =~= values@);
            lemma_fresh_values(seen, values@);
            assert(self@ =~= merged.with_values(values@));
        }
        self.continue_search(table, timer, out, now);
        if fresh.len() > 0 {
            LookupStatus::Values(fresh)
        } else {
            LookupStatus::Searching
        }
    }

    /// Takes in at `now` that the probe `trans_id` went unanswered. The
    /// probe no longer waits. The node that it was sent to is marked as
    /// having failed and takes a strike in the table. The lookup goes on
    /// with its search and reports nothing.
    pub fn recv_timeout(
        &mut self,
        trans_id: &TransactionID,
        table: &mut RoutingTable,
        timer: &mut Timer<ScheduledTaskCheck>,
        out: &mut Vec<Effect>,
        now: Timestamp,
    ) -> (status: LookupStatus)
        requires
            old(self).wf(),
            old(table)@.wf(),
        ensures
            final(self).wf(),
            old(self).same_lookup(*final(self)),
            final(self).values_seen@ == old(self).values_seen@,
            final(table)@.wf(),
            final(table)@.node_id == old(table)@.node_id,
            status is Searching,
            final(self)@ == old(self)@.unanswered(*trans_id).continued(),
            exists|struck: TableView|
                {
                    &&& match old(self)@.asked_node(*trans_id) {
                        Some(handle) => old(table)@.timed_out(handle, struck),
                        None => struck == old(table)@,
                    }
                    &&& #[trigger] old(self)@.unanswered(*trans_id).search_effects(
                        old(table)@.node_id,
                        now,
                        old(out)@,
                        final(out)@,
                        old(timer)@,
                        final(timer)@,
                        struck,
                        final(table)@,
                    )
                },
            get_peers_added(old(out)@, final(out)@, old(table)@.node_id, old(self).target_id),
            final(out)@.len() <= old(out)@.len() + MAX_ACTIVE_SEARCHES,
            old(timer)@.len() <= final(timer)@.len(),
            final(timer)@.take(old(timer)@.len() as int) == old(timer)@,
    {
        if let Some(handle) = self.remove_probe(trans_id) {
            self.mark_failed(&handle.id);
            table.local_timeout(&handle);
        }
        let ghost struck = table@;
        let ghost before = self@;
        self.continue_search(table, timer, out, now);
        proof {
            assert(before == old(self)@.unanswered(*trans_id));
            assert(before.search_effects(
                old(table)@.node_id,
                now,
                old(out)@,
                out@,
                old(timer)@,
                timer@,
                struck,
                table@,
            ));
        }
        LookupStatus::Searching
    }

    /// Ends the lookup. If the client is to be announced, every node of the
    /// shortlist that has answered and handed out a token is sent an
    /// announce request with that token and with `announce_port`, where an
    /// absent port stands for the port that the request comes from.
    pub fn recv_finished(
        &mut self,
        announce_port: Option<u16>,
        table: &RoutingTable,
        out: &mut Vec<Effect>,
    ) -> (status: LookupStatus)
        requires
            old(self).wf(),
        ensures
            final(self).wf(),
            old(self).same_lookup(*final(self)),
            final(self).values_seen@ == old(self).values_seen@,
            final(self)@ == old(self)@.finished(),
            status is Completed,
            if old(self).will_announce {
                announces_added(
                    old(out)@,
                    final(out)@,
                    old(self)@.shortlist,
                    old(self)@.shortlist.len() as int,
                    old(self).id_generator,
                    table@.node_id,
                    old(self).target_id,
                    announce_port,
                )
            } else {
                final(out)@ == old(out)@
            },
    {
        if self.will_announce {
            let ghost before = out@;
            let ghost entries = self@.shortlist;
            let ghost generator = self.id_generator;
            let mut i: usize = 0;
            proof {
                assert(out@.take(before.len() as int) =~= before);
                lemma_nth_successor(generator.next_alloc, 0);
                assert(entries.len() == self.shortlist@.len());
            }
            while i < self.shortlist.len()
                invariant
                    i <= entries.len(),
                    entries == old(self)@.shortlist,
                    entries.len() == self.shortlist@.len(),
                    generator == old(self).id_generator,
                    self.shortlist == old(self).shortlist,
                    self.active_lookups == old(self).active_lookups,
                    self.values_seen == old(self).values_seen,
                    self.target_id == old(self).target_id,
                    self.will_announce == old(self).will_announce,
                    self.in_endgame == old(self).in_endgame,
                    self.id_generator.action_id == generator.action_id,
                    self.id_generator.next_alloc == nth_successor(
                        generator.next_alloc,
                        num_announced(entries, i as int),
                    ),
                    announces_added(
                        before,
                        out@,
                        entries,
                        i as int,
                        generator,
                        table@.node_id,
                        self.target_id,
                        announce_port,
                    ),
                decreases entries.len() - i,
            {
                let ghost mid = out@;
                proof {
                    assert(entries[i as int] == self.shortlist@[i as int]@);
                }
                if self.shortlist[i].state == LookupNodeState::Responded {
                    if self.shortlist[i].token.is_some() {
                        let trans_id = self.id_generator.generate();
                        let token = copy_bytes(self.shortlist[i].token.as_ref().unwrap());
                        let announce_peer_req = AnnouncePeerRequest {
                            id: table.node_id(),
                            info_hash: self.target_id,
                            token,
                            port: announce_port,
                        };
                        let announce_peer_msg = Message {
                            transaction_id: trans_id.to_bytes(),
                            body: MessageBody::Request(Request::AnnouncePeer(announce_peer_req)),
                        };
                        out.push(Effect::Send(announce_peer_msg, self.shortlist[i].handle.addr));
                        proof {
                            lemma_nth_successor(
                                generator.next_alloc,
                                num_announced(entries, i as int),
                            );
                        }
                    }
                }
                proof {
                    assert(out@.take(before.len() as int) =~= mid.take(before.len() as int));
                    assert forall|k: int| 0 <= k < i + 1 && can_announce(
                        #[trigger] entries[k],
                    ) implies (out@[(before.len() + num_announced(
                        entries,
                        k,
                    )) as int] matches Effect::Send(message, to) && to == entries[k].handle.addr
                        && message.is_announce_peer(
                        (TransactionID {
                            action: generator.action_id.id,
                            message: nth_successor(
                                generator.next_alloc,
                                num_announced(entries, k),
                            ),
                        }).spec_to_bytes(),
                        table@.node_id,
                        self.target_id,
                        entries[k].token->Some_0,
                        announce_port,
                    )) by {
                        if k < i {
                            lemma_num_announced_bound(entries, k, i as int);
                            assert(out@[(before.len() + num_announced(entries, k)) as int]
                                == mid[(before.len() + num_announced(entries, k)) as int]);
                        }
                    }
                }
                i += 1;
            }
            proof {
                assert(self@.shortlist =~= entries);
                assert(self@ =~= old(self)@.finished());
            }
        }
        LookupStatus::Completed
    }

    /// Takes the probe `trans_id` from the probes that wait, and hands back
    /// the node that it was sent to.
    fn remove_probe(&mut self, trans_id: &TransactionID) -> (asked: Option<NodeHandle>)
        requires
            old(self).wf(),
        ensures
            final(self).wf(),
            final(self)@ == old(self)@.without_probe(*trans_id),
            asked == old(self)@.asked_node(*trans_id),
    {
        let ghost active = self.active_lookups@;
        let mut kept: Vec<ActiveProbe> = Vec::new();
        let mut asked: Option<NodeHandle> = None;
        let mut i: usize = 0;
        proof {
            assert(active.take(0) =~= Seq::<ActiveProbe>::empty());
            assert(active.take(0).filter(other_probe(*trans_id)) =~= Seq::<ActiveProbe>::empty());
            assert(active.take(0).filter(is_probe(*trans_id)) =~= Seq::<ActiveProbe>::empty());
        }
        while i < self.active_lookups.len()
            invariant
                i <= active.len(),
                self.active_lookups@ == active,
                *self == *old(self),
                kept@ == active.take(i as int).filter(other_probe(*trans_id)),
                asked == if active.take(i as int).filter(is_probe(*trans_id)).len() > 0 {
                    Some(active.take(i as int).filter(is_probe(*trans_id))[0].handle)
                } else {
                    None
                },
            decreases active.len() - i,
        {
            proof {
                assert(active.take(i + 1) =~= active.take(i as int).push(active[i as int]));
                active.take(i as int).lemma_filter_push(active[i as int], other_probe(*trans_id));
                active.take(i as int).lemma_filter_push(active[i as int], is_probe(*trans_id));
            }
            if self.active_lookups[i].id != *trans_id {
                kept.push(self.active_lookups[i]);
            } else if asked.is_none() {
                asked = Some(self.active_lookups[i].handle);
            }
            i += 1;
        }
        proof {
            assert(active.take(i as int) =~= active);
            active.lemma_filter_len(other_probe(*trans_id));
        }
        self.active_lookups = kept;
        proof {
            assert(self@.shortlist =~= old(self)@.shortlist);
        }
        asked
    }

    /// The place of the entry with the id `id`, if the shortlist has one.
    fn find_entry(&self, id: &NodeId) -> (found: Option<usize>)
        ensures
            match found {
                Some(i) => i < self.shortlist@.len() && self.shortlist@[i as int].handle.id == *id,
                None => forall|i: int|
                    0 <= i < self.shortlist@.len() ==> (#[trigger] self.shortlist@[i]).handle.id
                        != *id,
            },
    {
        let mut i: usize = 0;
        while i < self.shortlist.len()
            invariant
                i <= self.shortlist@.len(),
                forall|j: int| 0 <= j < i ==> (#[trigger] self.shortlist@[j]).handle.id != *id,
            decreases self.shortlist@.len() - i,
        {
            if self.shortlist[i].handle.id == *id {
                return Some(i);
            }
            i += 1;
        }
        None
    }

    /// Puts an entry in the place of the entry at `i`, which has the same handle.
    fn set_entry(&mut self, i: usize, entry: LookupEntry)
        requires
            old(self).wf(),
            i < old(self).shortlist@.len(),
            entry.handle == old(self).shortlist@[i as int].handle,
        ensures
            final(self).wf(),
            final(self)@ == (LookupView {
                shortlist: old(self)@.shortlist.update(i as int, entry@),
                ..old(self)@
            }),
    {
        let ghost before = self@.shortlist;
        self.shortlist[i] = entry;
        proof {
            let after = self@.shortlist;
            assert(after =~= before.update(i as int, entry@));
            assert forall|k: int, l: int| 0 <= k < l < after.len() implies (
            #[trigger] after[k]).handle.id.spec_nearer(
                (#[trigger] after[l]).handle.id,
                self.target_id,
            ) by {
                assert(before[k].handle.id.spec_nearer(before[l].handle.id, self.target_id));
            }
        }
    }

    /// Two entries of a shortlist in order do not have the same id.
    proof fn lemma_ids_distinct(self, i: int, j: int)
        requires
            self.wf(),
            0 <= i < self@.shortlist.len(),
            0 <= j < self@.shortlist.len(),
            self@.shortlist[i].handle.id == self@.shortlist[j].handle.id,
        ensures
            i == j,
    {
        if i < j {
            assert(self@.shortlist[i].handle.id.spec_nearer(
                self@.shortlist[j].handle.id,
                self.target_id,
            ));
        } else if j < i {
            assert(self@.shortlist[j].handle.id.spec_nearer(
                self@.shortlist[i].handle.id,
                self.target_id,
            ));
        }
    }

    /// Marks the node with the id `id` as having answered, with its token.
    fn mark_responded(&mut self, id: &NodeId, token: Option<Vec<u8>>)
        requires
            old(self).wf(),
        ensures
            final(self).wf(),
            final(self)@ == old(self)@.responded(*id, token_view(token)),
    {
        if let Some(i) = self.find_entry(id) {
            let entry = LookupEntry {
                handle: self.shortlist[i].handle,
                state: LookupNodeState::Responded,
                token,
            };
            self.set_entry(i, entry);
            proof {
                let wanted = old(self)@.responded(*id, token_view(token)).shortlist;
                assert forall|k: int| 0 <= k < wanted.len() implies self@.shortlist[k]
                    == wanted[k] by {
                    if k != i && old(self)@.shortlist[k].handle.id == *id {
                        old(self).lemma_ids_distinct(k, i as int);
                    }
                }
                assert(self@.shortlist =~= wanted);
            }
        } else {
            proof {
                assert(self@.shortlist =~= old(self)@.responded(*id, token_view(token)).shortlist);
            }
        }
    }

    /// Marks the node with the id `id` as having failed, unless it has answered.
    fn mark_failed(&mut self, id: &NodeId)
        requires
            old(self).wf(),
        ensures
            final(self).wf(),
            final(self)@ == old(self)@.failed(*id),
    {
        let found = self.find_entry(id);
        let mut changed = false;
        if let Some(i) = found {
            if self.shortlist[i].state == LookupNodeState::Requested {
                let entry = LookupEntry {
                    handle: self.shortlist[i].handle,
                    state: LookupNodeState::Failed,
                    token: None,
                };
                self.set_entry(i, entry);
                changed = true;
            }
        }
        proof {
            let wanted = old(self)@.failed(*id).shortlist;
            assert forall|k: int| 0 <= k < wanted.len() implies self@.shortlist[k] == wanted[k] by {
                if found is Some && k != found->Some_0 && old(self)@.shortlist[k].handle.id == *id {
                    old(self).lemma_ids_distinct(k, found->Some_0 as int);
                }
            }
            assert(self@.shortlist =~= wanted);
        }
    }

    /// Takes a node into the shortlist as one that was not asked yet, if
    /// the shortlist does not know its id and fewer than eight of its nodes
    /// are nearer to the target.
    fn insert_candidate(&mut self, handle: NodeHandle)
        requires
            old(self).wf(),
        ensures
            final(self).wf(),
            final(self)@ == old(self)@.with_candidate(handle),
    {
        let ghost before = self@.shortlist;
        let ghost target = self.target_id;
        let mut p: usize = 0;
        while p < self.shortlist.len() && self.shortlist[p].handle.id.nearer(
            &handle.id,
            &self.target_id,
        )
            invariant
                *self == *old(self),
                p <= self.shortlist@.len(),
                forall|k: int|
                    0 <= k < p ==> (#[trigger] self@.shortlist[k]).handle.id.spec_nearer(
                        handle.id,
                        self.target_id,
                    ),
            decreases self.shortlist@.len() - p,
        {
            p += 1;
        }
        proof {
            if p < before.len() {
                assert(before[p as int] == self.shortlist@[p as int]@);
            }
            assert(self@.is_insertion_point(handle.id, p as int));
            lemma_insertion_point(self@, handle.id, p as int);
        }
        if p >= LOOKUP_WIDTH {
            return ;
        }
        if p < self.shortlist.len() && self.shortlist[p].handle.id == handle.id {
            return ;
        }
        let entry = LookupEntry { handle, state: LookupNodeState::Idle, token: None };
        self.shortlist.insert(p, entry);
        proof {
            let after = self@.shortlist;
            let wanted = before.insert(p as int, entry@);
            assert forall|k: int| 0 <= k < after.len() implies #[trigger] after[k] == (if k < p {
                before[k]
            } else if k == p {
                entry@
            } else {
                before[k - 1]
            }) by {
                if k < p {
                    assert(self.shortlist@[k] == old(self).shortlist@[k]);
                } else if k > p {
                    assert(self.shortlist@[k] == old(self).shortlist@[k - 1]);
                }
            }
            assert(after =~= wanted);
            if p < before.len() {
                let here = before[p as int].handle.id;
                if here.spec_distance(target) == handle.id.spec_distance(target) {
                    crate::id::Id::lemma_value_injective(here.xor(target), handle.id.xor(target));
                    crate::id::Id::lemma_distance_injective(here, handle.id, target);
                }
                assert(handle.id.spec_nearer(here, target));
            }
            assert forall|k: int, l: int| 0 <= k < l < after.len() implies (
            #[trigger] after[k]).handle.id.spec_nearer((#[trigger] after[l]).handle.id, target) by {
                if l < p {
                    assert(before[k].handle.id.spec_nearer(before[l].handle.id, target));
                } else if l == p {
                    assert(before[k].handle.id.spec_nearer(handle.id, target));
                } else if k == p {
                    if p < l - 1 {
                        assert(before[p as int].handle.id.spec_nearer(
                            before[l - 1].handle.id,
                            target,
                        ));
                    }
                } else if k < p {
                    assert(before[k].handle.id.spec_nearer(before[l - 1].handle.id, target));
                } else {
                    assert(before[k - 1].handle.id.spec_nearer(before[l - 1].handle.id, target));
                }
            }
        }
    }

    /// The place of the nearest of the first eight entries that was not asked yet.
    fn next_idle(&self) -> (found: Option<usize>)
        ensures
            match found {
                Some(i) => self@.is_next_idle(i as int) && self@.has_idle() && self@.next_idle()
                    == i,
                None => !self@.has_idle(),
            },
    {
        let mut i: usize = 0;
        while i < self.shortlist.len() && i < LOOKUP_WIDTH
            invariant
                i <= self.shortlist@.len(),
                i <= LOOKUP_WIDTH,
                forall|j: int|
                    0 <= j < i ==> (#[trigger] self@.shortlist[j]).state != LookupNodeState::Idle,
            decreases self.shortlist@.len() - i,
        {
            proof {
                assert(self@.shortlist[i as int] == self.shortlist@[i as int]@);
            }
            if self.shortlist[i].state == LookupNodeState::Idle {
                proof {
                    lemma_next_idle(self@, i as int);
                }
                return Some(i);
            }
            i += 1;
        }
        proof {
            if self@.has_idle() {
                let j = choose|j: int| self@.is_next_idle(j);
                assert(self@.shortlist[j].state != LookupNodeState::Idle);
            }
        }
        None
    }

    /// Goes on with the search at `now`: asks the nearest nodes that were
    /// not asked yet, as long as fewer than three probes wait. When no
    /// probe waits and none of the first eight entries is left to ask, the
    /// lookup begins to wait for late answers, and the end of that wait is
    /// scheduled.
    fn continue_search(
        &mut self,
        table: &mut RoutingTable,
        timer: &mut Timer<ScheduledTaskCheck>,
        out: &mut Vec<Effect>,
        now: Timestamp,
    )
        requires
            old(self).wf(),
            old(table)@.wf(),
        ensures
            final(self).wf(),
            old(self).same_lookup(*final(self)),
            final(self).values_seen@ == old(self).values_seen@,
            final(table)@.wf(),
            final(table)@.node_id == old(table)@.node_id,
            final(self)@ == old(self)@.continued(),
            old(self)@.search_effects(
                old(table)@.node_id,
                now,
                old(out)@,
                final(out)@,
                old(timer)@,
                final(timer)@,
                old(table)@,
                final(table)@,
            ),
            get_peers_added(old(out)@, final(out)@, old(table)@.node_id, old(self).target_id),
            final(out)@.len() <= old(out)@.len() + MAX_ACTIVE_SEARCHES,
            old(timer)@.len() <= final(timer)@.len(),
            final(timer)@.take(old(timer)@.len() as int) == old(timer)@,
    {
        let ghost start = self@;
        let ghost out_before = out@;
        let ghost timer_before = timer@;
        let ghost table_before = table@;
        let ghost own = table@.node_id;
        let ghost mut issued: Seq<ActiveProbe> = Seq::empty();
        proof {
            lemma_searched(start);
            assert(out@.take(out_before.len() as int) =~= out_before);
            assert(timer@ =~= timer_before + probe_timeouts(issued, now));
            assert(issued + self@.probes() =~= start.probes());
            assert(probed_nodes(issued) =~= Seq::<NodeHandle>::empty());
        }
        loop
            invariant
                self.wf(),
                table@.wf(),
                table@.node_id == own,
                start == old(self)@,
                out_before == old(out)@,
                timer_before == old(timer)@,
                table_before == old(table)@,
                own == old(table)@.node_id,
                self@.searched() == start.searched(),
                issued + self@.probes() == start.probes(),
                self@.target == start.target,
                out@.len() == out_before.len() + issued.len(),
                out@.take(out_before.len() as int) == out_before,
                forall|k: int|
                    out_before.len() <= k < out@.len() ==> (#[trigger] out@[k] matches Effect::Send(
                        message,
                        to,
                    ) && to == issued[k - out_before.len()].handle.addr && message.is_get_peers(
                        issued[k - out_before.len()].id.spec_to_bytes(),
                        own,
                        start.target,
                    )),
                timer@ == timer_before + probe_timeouts(issued, now),
                table_before.requested(probed_nodes(issued), now, table@),
            ensures
                !self@.can_ask(),
            decreases MAX_ACTIVE_SEARCHES - self@.active.len(),
        {
            if self.in_endgame || self.active_lookups.len() >= MAX_ACTIVE_SEARCHES {
                break ;
            }
            let found = self.next_idle();
            if found.is_none() {
                break ;
            }
            let i = found.unwrap();
            let ghost before = self@;
            let ghost out_mid = out@;
            let ghost timer_mid = timer@;
            let ghost table_mid = table@;
            let handle = self.shortlist[i].handle;
            let trans_id = self.id_generator.generate();
            proof {
                assert(before.shortlist[i as int] == self.shortlist@[i as int]@);
                assert(ActiveProbe { id: trans_id, handle } == before.next_probe());
            }

            // Ask the node for the peers of the target
            let get_peers_req = GetPeersRequest { id: table.node_id(), info_hash: self.target_id };
            let get_peers_msg = Message {
                transaction_id: trans_id.to_bytes(),
                body: MessageBody::Request(Request::GetPeers(get_peers_req)),
            };
            out.push(Effect::Send(get_peers_msg, handle.addr));
            timer.schedule_in(LOOKUP_TIMEOUT, ScheduledTaskCheck::LookupTimeout(trans_id), now);
            table.local_request(&handle, now);
            self.set_entry(
                i,
                LookupEntry { handle, state: LookupNodeState::Requested, token: None },
            );
            self.active_lookups.push(ActiveProbe { id: trans_id, handle });
            proof {
                let probe = before.next_probe();
                let earlier = issued;
                issued = issued.push(probe);
                assert(self@ == before.asked());
                assert(before.can_ask());
                assert(before.probes() =~= seq![probe] + self@.probes());
                assert(issued + self@.probes() =~= earlier + before.probes());
                assert(out@.take(out_before.len() as int) =~= out_mid.take(
                    out_before.len() as int,
                ));
                assert forall|k: int| out_before.len() <= k < out@.len() implies (
                #[trigger] out@[k] matches Effect::Send(message, to) && to == issued[k
                    - out_before.len()].handle.addr && message.is_get_peers(
                    issued[k - out_before.len()].id.spec_to_bytes(),
                    own,
                    start.target,
                )) by {
                    if k < out_mid.len() {
                        assert(out@[k] == out_mid[k]);
                        assert(issued[k - out_before.len()] == earlier[k - out_before.len()]);
                    }
                }
                assert(timer@ =~= timer_before + probe_timeouts(issued, now));
                assert(probed_nodes(issued).drop_last() =~= probed_nodes(earlier));
                assert(probed_nodes(issued).last() == handle);
                assert(table_mid.local_request_noted(probed_nodes(issued).last(), now, table@));
            }
        }
        proof {
            assert(self@.searched() == self@);
            assert(self@.probes() =~= Seq::<ActiveProbe>::empty());
            assert(issued =~= start.probes());
            assert(self@ == start.searched());
        }

        // Begin to wait for late answers when there is nothing left to do
        if !self.in_endgame && self.active_lookups.len() == 0 {
            let idle = self.next_idle();
            if idle.is_none() {
                let trans_id = self.id_generator.generate();
                self.in_endgame = true;
                timer.schedule_in(ENDGAME_TIMEOUT, ScheduledTaskCheck::LookupEndGame(trans_id), now);
                proof {
                    assert(self@.shortlist =~= start.searched().shortlist);
                    assert(start.searched().settles());
                    assert(self@ =~= start.searched().settled());
                }
            }
        }
        proof {
            assert(self@ =~= start.continued());
            assert(timer@ =~= timer_before + probe_timeouts(start.probes(), now) + if start.searched().settles() {
                seq![
                    Timeout {
                        deadline: deadline_after(now, ENDGAME_TIMEOUT),
                        token: ScheduledTaskCheck::LookupEndGame(
                            TransactionID {
                                action: start.searched().generator.action_id.id,
                                message: start.searched().generator.next_alloc,
                            },
                        ),
                    },
                ]
            } else {
                Seq::empty()
            });
            assert(timer@.take(timer_before.len() as int) =~= timer_before);
            assert forall|k: int| out_before.len() <= k < out@.len() implies (
            #[trigger] out@[k] matches Effect::Send(message, _) && (
            message.body matches MessageBody::Request(Request::GetPeers(get)) && get.id == own
                && get.info_hash == start.target)) by {}
        }
    }
}

/// The bytes of a token, if there is one.
pub open spec fn token_view(token: Option<Vec<u8>>) -> Option<Seq<u8>> {
    match token {
        Some(token) => Some(token@),
        None => None,
    }
}

/// The handles of the first eight of the listed nodes, of all if there are fewer.
pub open spec fn seeds(listed: Seq<Node>) -> Seq<NodeHandle> {
    Seq::new(
        if listed.len() < LOOKUP_WIDTH {
            listed.len()
        } else {
            LOOKUP_WIDTH as nat
        },
        |i: int| listed[i].handle,
    )
}

/// The number of announcing entries among the first `k` is at most that among the first `n`.
pub proof fn lemma_num_announced_bound(entries: Seq<EntryView>, k: int, n: int)
    requires
        0 <= k < n,
    ensures
        num_announced(entries, k) + (if can_announce(entries[k]) {
            1nat
        } else {
            0nat
        }) <= num_announced(entries, n),
    decreases n - k,
{
    if k + 1 < n {
        lemma_num_announced_bound(entries, k, n - 1);
    }
}

/// A copy of a sequence of bytes.
pub fn copy_bytes(bytes: &Vec<u8>) -> (copy: Vec<u8>)
    ensures
        copy@ == bytes@,
{
    let mut copy: Vec<u8> = Vec::new();
    let mut i: usize = 0;
    while i < bytes.len()
        invariant
            i <= bytes@.len(),
            copy@ == bytes@.take(i as int),
        decreases bytes@.len() - i,
    {
        copy.push(bytes[i]);
        proof {
            assert(bytes@.take(i + 1) =~= bytes@.take(i as int).push(bytes@[i as int]));
        }
        i += 1;
    }
    proof {
        assert(bytes@.take(i as int) =~= bytes@);
    }
    copy
}

} // verus!

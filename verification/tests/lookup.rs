use btdht::address::{IpAddress, SocketAddress};
use btdht::id::Id;
use btdht::message::{GetPeersResponse, MessageBody, Request};
use btdht::routing::node::{Node, NodeHandle};
use btdht::routing::table::RoutingTable;
use btdht::timer::Timer;
use btdht::transaction::{ActionID, MIDGenerator, TransactionID};
use btdht::worker::lookup::{
    copy_bytes, LookupNodeState, LookupStatus, TableLookup, ENDGAME_TIMEOUT, LOOKUP_TIMEOUT,
    LOOKUP_WIDTH, MAX_ACTIVE_SEARCHES,
};
use btdht::worker::{Effect, ScheduledTaskCheck};

fn addr(port: u16) -> SocketAddress {
    SocketAddress::new(IpAddress::v4(10, 0, 0, 1), port)
}

fn peer(port: u16) -> SocketAddress {
    SocketAddress::new(IpAddress::v4(192, 168, 0, 1), port)
}

fn node_id(n: u64) -> Id {
    Id { hi: 0x8000_0000, mid: 0, lo: n }
}

fn table_with(count: u64) -> RoutingTable {
    let mut table = RoutingTable::new(Id::zero());
    // ids of different prefix lengths, so that the table can hold them all
    for n in 1..=count {
        let id = Id::zero().flip_bit(n as usize);
        table.add_node(Node::as_good(id, addr(n as u16), 0), 0);
    }
    table
}

fn get_peers_sends(out: &[Effect]) -> Vec<(SocketAddress, TransactionID)> {
    out.iter()
        .filter_map(|effect| match effect {
            Effect::Send(message, to) => match &message.body {
                MessageBody::Request(Request::GetPeers(get)) => {
                    assert_eq!(get.id, Id::zero());
                    Some((*to, TransactionID::from_bytes(&message.transaction_id).unwrap()))
                }
                _ => None,
            },
            _ => None,
        })
        .collect()
}

fn response(id: Id, values: Vec<SocketAddress>, nodes: Vec<NodeHandle>, token: Option<Vec<u8>>) -> GetPeersResponse {
    GetPeersResponse { id, values, nodes, token }
}

#[test]
fn lookup_constants() {
    assert_eq!(LOOKUP_TIMEOUT, 5_000_000_000);
    assert_eq!(ENDGAME_TIMEOUT, 5_000_000_000);
    assert_eq!(MAX_ACTIVE_SEARCHES, 3);
    assert_eq!(LOOKUP_WIDTH, 8);
}

#[test]
fn new_lookup_seeds_eight_and_asks_three() {
    let mut table = table_with(12);
    let mut timer = Timer::new();
    let mut out = Vec::new();
    let target = Id::zero().flip_bit(1);
    let lookup = TableLookup::new(
        target,
        MIDGenerator::new(ActionID::new(5)),
        false,
        &mut table,
        &mut timer,
        &mut out,
        10,
    );
    assert_eq!(lookup.info_hash(), target);
    assert_eq!(lookup.action_id(), ActionID::new(5));
    assert_eq!(lookup.shortlist.len(), 8);
    assert_eq!(lookup.active_lookups.len(), 3);
    assert!(!lookup.in_endgame);
    // the shortlist is in the order of the distance to the target
    for pair in lookup.shortlist.windows(2) {
        assert!(pair[0].handle.id.nearer(&pair[1].handle.id, &target));
    }
    let sent = get_peers_sends(&out);
    assert_eq!(sent.len(), 3);
    // the three nearest are asked, the nearest first
    for (i, (to, id)) in sent.iter().enumerate() {
        assert_eq!(*to, lookup.shortlist[i].handle.addr);
        assert_eq!(*id, TransactionID { action: 5, message: i as u32 });
        assert_eq!(lookup.shortlist[i].state, LookupNodeState::Requested);
    }
    assert_eq!(lookup.shortlist[3].state, LookupNodeState::Idle);
    assert_eq!(timer.len(), 3);
    assert_eq!(timer.next_deadline(), Some(10 + LOOKUP_TIMEOUT));
    // the table has noted the requests
    let asked = table.find_node(&lookup.shortlist[0].handle).unwrap();
    assert_eq!(asked.last_request, Some(10));
}

#[test]
fn lookup_on_an_empty_table_goes_straight_to_the_endgame() {
    let mut table = RoutingTable::new(Id::zero());
    let mut timer = Timer::new();
    let mut out = Vec::new();
    let lookup = TableLookup::new(
        node_id(1),
        MIDGenerator::new(ActionID::new(5)),
        true,
        &mut table,
        &mut timer,
        &mut out,
        0,
    );
    assert!(lookup.in_endgame);
    assert!(out.is_empty());
    assert_eq!(
        timer.next(ENDGAME_TIMEOUT),
        Some(ScheduledTaskCheck::LookupEndGame(TransactionID { action: 5, message: 0 }))
    );
}

#[test]
fn response_reports_new_peers_once() {
    let mut table = table_with(1);
    let mut timer = Timer::new();
    let mut out = Vec::new();
    let target = node_id(7);
    let mut lookup = TableLookup::new(
        target,
        MIDGenerator::new(ActionID::new(5)),
        false,
        &mut table,
        &mut timer,
        &mut out,
        0,
    );
    let (to, id) = get_peers_sends(&out)[0];
    let sender = Node::as_good(Id::zero().flip_bit(1), to, 1);
    let status = lookup.recv_response(
        sender,
        &id,
        response(sender.id(), vec![peer(1), peer(2), peer(1)], vec![], None),
        &mut table,
        &mut timer,
        &mut out,
        1,
    );
    match status {
        LookupStatus::Values(values) => assert_eq!(values, vec![peer(1), peer(2)]),
        other => panic!("unexpected status {:?}", other),
    }
    assert_eq!(lookup.values_seen, vec![peer(1), peer(2)]);
    // a second answer with the same peers and one more
    let status = lookup.recv_response(
        sender,
        &id,
        response(sender.id(), vec![peer(2), peer(3)], vec![], None),
        &mut table,
        &mut timer,
        &mut out,
        2,
    );
    match status {
        LookupStatus::Values(values) => assert_eq!(values, vec![peer(3)]),
        other => panic!("unexpected status {:?}", other),
    }
    // and a third with nothing new
    let status = lookup.recv_response(
        sender,
        &id,
        response(sender.id(), vec![peer(3), peer(1)], vec![], None),
        &mut table,
        &mut timer,
        &mut out,
        3,
    );
    assert!(matches!(status, LookupStatus::Searching));
    assert_eq!(lookup.values_seen, vec![peer(1), peer(2), peer(3)]);
}

#[test]
fn response_marks_the_sender_and_merges_the_nodes_it_names() {
    let mut table = table_with(1);
    let mut timer = Timer::new();
    let mut out = Vec::new();
    let target = Id { hi: 0x4000_0000, mid: 0, lo: 0 };
    let mut lookup = TableLookup::new(
        target,
        MIDGenerator::new(ActionID::new(5)),
        false,
        &mut table,
        &mut timer,
        &mut out,
        0,
    );
    assert_eq!(lookup.shortlist.len(), 1);
    let (to, id) = get_peers_sends(&out)[0];
    out.clear();
    let sender = Node::as_good(Id::zero().flip_bit(1), to, 1);
    let nearer = NodeHandle::new(Id { hi: 0x4000_0000, mid: 0, lo: 1 }, addr(50));
    let farther = NodeHandle::new(Id { hi: 0xc000_0000, mid: 0, lo: 1 }, addr(51));
    let own = NodeHandle::new(Id::zero(), addr(52));
    let status = lookup.recv_response(
        sender,
        &id,
        response(sender.id(), vec![], vec![farther, nearer, own, nearer], Some(vec![1, 2, 3])),
        &mut table,
        &mut timer,
        &mut out,
        1,
    );
    assert!(matches!(status, LookupStatus::Searching));
    let ids: Vec<Id> = lookup.shortlist.iter().map(|e| e.handle.id).collect();
    // the sender has the id of the target itself
    assert_eq!(ids, vec![sender.id(), nearer.id, farther.id]);
    assert_eq!(lookup.shortlist[0].state, LookupNodeState::Responded);
    assert_eq!(lookup.shortlist[0].token, Some(vec![1, 2, 3]));
    // the two new nodes are asked at once
    let sent = get_peers_sends(&out);
    assert_eq!(sent.iter().map(|s| s.0).collect::<Vec<_>>(), vec![addr(50), addr(51)]);
    assert_eq!(lookup.active_lookups.len(), 2);
    assert!(!lookup.in_endgame);
}

#[test]
fn timeout_fails_the_node_and_gives_it_a_strike() {
    let mut table = table_with(1);
    let mut timer = Timer::new();
    let mut out = Vec::new();
    let mut lookup = TableLookup::new(
        node_id(7),
        MIDGenerator::new(ActionID::new(5)),
        false,
        &mut table,
        &mut timer,
        &mut out,
        0,
    );
    let (_, id) = get_peers_sends(&out)[0];
    let handle = lookup.shortlist[0].handle;
    let status = lookup.recv_timeout(&id, &mut table, &mut timer, &mut out, LOOKUP_TIMEOUT);
    assert!(matches!(status, LookupStatus::Searching));
    assert_eq!(lookup.shortlist[0].state, LookupNodeState::Failed);
    assert_eq!(table.find_node(&handle).unwrap().strikes, 1);
    assert!(lookup.active_lookups.is_empty());
    // nothing is left to ask: the endgame begins
    assert!(lookup.in_endgame);
    assert_eq!(timer.len(), 2);
    // a timeout that belongs to no probe changes nothing
    let stale = TransactionID { action: 5, message: 99 };
    lookup.recv_timeout(&stale, &mut table, &mut timer, &mut out, LOOKUP_TIMEOUT);
    assert_eq!(table.find_node(&handle).unwrap().strikes, 1);
}

#[test]
fn no_more_than_three_probes_wait_at_any_time() {
    let mut table = table_with(12);
    let mut timer = Timer::new();
    let mut out = Vec::new();
    let mut lookup = TableLookup::new(
        Id::zero().flip_bit(1),
        MIDGenerator::new(ActionID::new(5)),
        false,
        &mut table,
        &mut timer,
        &mut out,
        0,
    );
    let mut answered = 0;
    loop {
        assert!(lookup.active_lookups.len() <= MAX_ACTIVE_SEARCHES);
        let waiting = lookup.active_lookups.clone();
        if waiting.is_empty() {
            break;
        }
        let probe = waiting[0];
        let sender = Node::as_good(probe.handle.id, probe.handle.addr, 1);
        lookup.recv_response(
            sender,
            &probe.id,
            response(sender.id(), vec![], vec![], None),
            &mut table,
            &mut timer,
            &mut out,
            1,
        );
        answered += 1;
    }
    assert_eq!(answered, 8);
    assert!(lookup.in_endgame);
    assert_eq!(get_peers_sends(&out).len(), 8);
    for entry in lookup.shortlist.iter() {
        assert_eq!(entry.state, LookupNodeState::Responded);
    }
}

#[test]
fn finish_announces_to_the_nodes_that_gave_a_token() {
    let mut table = table_with(3);
    let mut timer = Timer::new();
    let mut out = Vec::new();
    let target = Id::zero().flip_bit(1);
    let mut lookup = TableLookup::new(
        target,
        MIDGenerator::new(ActionID::new(5)),
        true,
        &mut table,
        &mut timer,
        &mut out,
        0,
    );
    let probes = lookup.active_lookups.clone();
    assert_eq!(probes.len(), 3);
    // the first gives a token, the second gives none, the third times out
    let first = Node::as_good(probes[0].handle.id, probes[0].handle.addr, 1);
    lookup.recv_response(
        first,
        &probes[0].id,
        response(first.id(), vec![], vec![], Some(vec![9, 9])),
        &mut table,
        &mut timer,
        &mut out,
        1,
    );
    let second = Node::as_good(probes[1].handle.id, probes[1].handle.addr, 1);
    lookup.recv_response(
        second,
        &probes[1].id,
        response(second.id(), vec![], vec![], None),
        &mut table,
        &mut timer,
        &mut out,
        1,
    );
    lookup.recv_timeout(&probes[2].id, &mut table, &mut timer, &mut out, 2);
    assert!(lookup.in_endgame);
    out.clear();
    let status = lookup.recv_finished(Some(6881), &table, &mut out);
    assert!(matches!(status, LookupStatus::Completed));
    assert_eq!(out.len(), 1);
    match &out[0] {
        Effect::Send(message, to) => {
            assert_eq!(*to, probes[0].handle.addr);
            match &message.body {
                MessageBody::Request(Request::AnnouncePeer(announce)) => {
                    assert_eq!(announce.id, Id::zero());
                    assert_eq!(announce.info_hash, target);
                    assert_eq!(announce.token, vec![9, 9]);
                    assert_eq!(announce.port, Some(6881));
                }
                other => panic!("unexpected body {:?}", other),
            }
        }
        other => panic!("unexpected effect {:?}", other),
    }
}

#[test]
fn finish_without_announce_sends_nothing() {
    let mut table = table_with(1);
    let mut timer = Timer::new();
    let mut out = Vec::new();
    let mut lookup = TableLookup::new(
        node_id(1),
        MIDGenerator::new(ActionID::new(5)),
        false,
        &mut table,
        &mut timer,
        &mut out,
        0,
    );
    let probe = lookup.active_lookups[0];
    let sender = Node::as_good(probe.handle.id, probe.handle.addr, 1);
    lookup.recv_response(
        sender,
        &probe.id,
        response(sender.id(), vec![], vec![], Some(vec![1])),
        &mut table,
        &mut timer,
        &mut out,
        1,
    );
    out.clear();
    let status = lookup.recv_finished(None, &table, &mut out);
    assert!(matches!(status, LookupStatus::Completed));
    assert!(out.is_empty());
}

#[test]
fn copy_bytes_copies() {
    assert_eq!(copy_bytes(&vec![1, 2, 3]), vec![1, 2, 3]);
    assert_eq!(copy_bytes(&vec![]), Vec::<u8>::new());
}

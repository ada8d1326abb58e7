use btdht::address::{AddressFamily, IpAddress, SocketAddress};
use btdht::error_code;
use btdht::id::{Id, InfoHash};
use btdht::message::{
    AnnouncePeerRequest, Error, FindNodeRequest, GetPeersRequest, GetPeersResponse, Message,
    MessageBody, OtherResponse, PingRequest, Request, Response, Want,
};
use btdht::routing::node::{Node, NodeHandle, NodeStatus};
use btdht::routing::table::RoutingTable;
use btdht::storage::{EXPIRATION_TIME, MAX_ITEMS_STORED};
use btdht::transaction::TransactionID;
use btdht::worker::handler::{
    attempt_rebootstrap, closest_handles, filter_v4, num_good_nodes, report_lookup,
    should_rebootstrap, DhtHandler, TableAction, BOOTSTRAP_GOOD_NODE_THRESHOLD,
    MAX_BOOTSTRAP_ATTEMPTS,
};
use btdht::worker::bootstrap::TableBootstrap;
use btdht::worker::lookup::LookupStatus;
use btdht::timer::Timer;
use btdht::transaction::{ActionID, MIDGenerator};
use btdht::worker::{DhtEvent, Effect, OneshotTask, ScheduledTaskCheck};

const SECOND: u128 = 1_000_000_000;

fn addr(port: u16) -> SocketAddress {
    SocketAddress::new(IpAddress::v4(10, 0, 0, 1), port)
}

fn addr_v6(port: u16) -> SocketAddress {
    SocketAddress::new(IpAddress::V6(0xfe80 << 112 | 1), port)
}

fn own_id() -> Id {
    Id::zero()
}

fn remote_id(n: u64) -> Id {
    Id { hi: 0x8000_0000, mid: 0, lo: n }
}

/// The id and the address of the n-th node of a table of nodes with different prefix lengths.
fn nth_node(n: usize) -> NodeHandle {
    NodeHandle::new(own_id().flip_bit(n), addr(1000 + n as u16))
}

fn table_with(count: usize) -> RoutingTable {
    let mut table = RoutingTable::new(own_id());
    for n in 0..count {
        let handle = nth_node(n);
        table.add_node(Node::as_good(handle.id, handle.addr, 0), 0);
    }
    table
}

fn handler_with(count: usize) -> DhtHandler {
    DhtHandler::new(table_with(count), false, Some(6881))
}

fn request(tag: &[u8], request: Request) -> Message {
    Message { transaction_id: tag.to_vec(), body: MessageBody::Request(request) }
}

fn other_response(tag: Vec<u8>, id: Id, nodes_v4: Vec<NodeHandle>) -> Message {
    Message {
        transaction_id: tag,
        body: MessageBody::Response(Response::Other(OtherResponse {
            id,
            nodes_v4,
            nodes_v6: vec![],
        })),
    }
}

fn get_peers_response(tag: Vec<u8>, id: Id, values: Vec<SocketAddress>, token: Option<Vec<u8>>) -> Message {
    Message {
        transaction_id: tag,
        body: MessageBody::Response(Response::GetPeers(GetPeersResponse {
            id,
            values,
            nodes: vec![],
            token,
        })),
    }
}

fn events(out: &[Effect]) -> Vec<DhtEvent> {
    out.iter()
        .filter_map(|effect| match effect {
            Effect::Event(event) => Some(*event),
            _ => None,
        })
        .collect()
}

fn sends(out: &[Effect]) -> Vec<(&Message, SocketAddress)> {
    out.iter()
        .filter_map(|effect| match effect {
            Effect::Send(message, to) => Some((message, *to)),
            _ => None,
        })
        .collect()
}

fn single_reply(out: &[Effect]) -> (&Message, SocketAddress) {
    assert_eq!(out.len(), 1);
    sends(out)[0]
}

fn is_find_node(message: &Message) -> bool {
    matches!(message.body, MessageBody::Request(Request::FindNode(_)))
}

fn is_get_peers(message: &Message) -> bool {
    matches!(message.body, MessageBody::Request(Request::GetPeers(_)))
}

fn node_at(address: SocketAddress) -> Option<NodeHandle> {
    (0..160).map(nth_node).find(|handle| handle.addr == address)
}

#[test]
fn handler_constants() {
    assert_eq!(MAX_BOOTSTRAP_ATTEMPTS, 3);
    assert_eq!(BOOTSTRAP_GOOD_NODE_THRESHOLD, 10);
}

#[test]
fn new_handler_waits_with_the_refresh() {
    let handler = handler_with(0);
    assert!(handler.is_running());
    assert!(!handler.bootstrapping);
    assert!(handler.table_actions.is_empty());
    assert_eq!(handler.future_actions.len(), 1);
    assert_eq!(handler.next_deadline(), None);
}

#[test]
fn num_good_nodes_and_should_rebootstrap() {
    let table = table_with(10);
    assert_eq!(num_good_nodes(&table, 0), 10);
    assert!(should_rebootstrap(&table, 0));
    let table = table_with(11);
    assert_eq!(num_good_nodes(&table, 0), 11);
    assert!(!should_rebootstrap(&table, 0));
    // after fifteen minutes none is good any more
    assert_eq!(num_good_nodes(&table, 900 * SECOND), 0);
    assert!(should_rebootstrap(&table, 900 * SECOND));
}

#[test]
fn attempt_rebootstrap_counts_and_stops_at_the_third() {
    let table = table_with(0);
    let mut timer = Timer::new();
    let mut out = Vec::new();
    let mut bootstrap =
        TableBootstrap::new(MIDGenerator::new(ActionID::new(1)), vec![], vec![addr(1)]);
    let mut attempts = 0;
    assert_eq!(
        attempt_rebootstrap(&mut bootstrap, &mut attempts, &table, &mut timer, &mut out, 0),
        Some(true)
    );
    assert_eq!(attempts, 1);
    assert_eq!(out.len(), 1);
    assert_eq!(
        attempt_rebootstrap(&mut bootstrap, &mut attempts, &table, &mut timer, &mut out, 0),
        Some(true)
    );
    assert_eq!(attempts, 2);
    assert_eq!(out.len(), 2);
    // the third attempt is the last: nothing is sent, and without a good node it is over
    assert_eq!(
        attempt_rebootstrap(&mut bootstrap, &mut attempts, &table, &mut timer, &mut out, 0),
        None
    );
    assert_eq!(attempts, 3);
    assert_eq!(out.len(), 2);
}

#[test]
fn attempt_rebootstrap_goes_on_with_what_it_has() {
    let table = table_with(1);
    let mut timer = Timer::new();
    let mut out = Vec::new();
    let mut bootstrap =
        TableBootstrap::new(MIDGenerator::new(ActionID::new(1)), vec![], vec![addr(1)]);
    let mut attempts = 2;
    assert_eq!(
        attempt_rebootstrap(&mut bootstrap, &mut attempts, &table, &mut timer, &mut out, 0),
        Some(false)
    );
    assert_eq!(attempts, 3);
    assert!(out.is_empty());
    // a bootstrap with nobody to ask is not started over
    let mut idle = TableBootstrap::new(MIDGenerator::new(ActionID::new(1)), vec![], vec![]);
    let mut attempts = 0;
    assert_eq!(
        attempt_rebootstrap(&mut idle, &mut attempts, &table, &mut timer, &mut out, 0),
        Some(false)
    );
    assert_eq!(attempts, 1);
}

#[test]
fn bootstrap_with_no_routers_completes_immediately() {
    let mut handler = handler_with(0);
    let out = handler.handle_command(OneshotTask::StartBootstrap(vec![], vec![]), 0);
    assert!(matches!(out[0], Effect::Event(DhtEvent::BootstrapCompleted)));
    assert_eq!(events(&out), vec![DhtEvent::BootstrapCompleted]);
    assert!(!handler.bootstrapping);
    assert!(handler.is_running());
    // the refresh has begun: its next tick is scheduled
    assert!(handler.future_actions.is_empty());
    assert_eq!(handler.table_actions.len(), 1);
    assert!(matches!(handler.table_actions.get(&0), Some(TableAction::Refresh(_))));
    assert_eq!(handler.next_deadline(), Some(6 * SECOND));
}

#[test]
fn lookup_during_bootstrap_waits_for_its_end() {
    let mut handler = handler_with(16);
    let router = addr(1);
    let info_hash: InfoHash = remote_id(77);
    let now = 1;

    let out = handler.handle_command(OneshotTask::StartBootstrap(vec![router], vec![]), now);
    assert!(handler.bootstrapping);
    assert!(events(&out).is_empty());
    let mut pending: Vec<(Vec<u8>, SocketAddress)> =
        sends(&out).iter().map(|(m, to)| (m.transaction_id.clone(), *to)).collect();
    assert_eq!(pending.len(), 1);
    assert_eq!(pending[0].1, router);

    // the lookup is put in line, and nothing goes out for it
    let out = handler.handle_command(OneshotTask::StartLookup(info_hash, false), now);
    assert!(out.is_empty());
    assert_eq!(handler.future_actions.len(), 2);

    // every probe of the bootstrap is answered
    let mut seen: Vec<DhtEvent> = Vec::new();
    let mut lookup_probes: Vec<(Vec<u8>, SocketAddress)> = Vec::new();
    let mut answered = 0;
    while let Some((tag, to)) = pending.pop() {
        let id = match node_at(to) {
            Some(handle) => handle.id,
            None => remote_id(1),
        };
        let out = handler.handle_incoming(other_response(tag, id, vec![]), to, None, now);
        answered += 1;
        let before_completion = !seen.contains(&DhtEvent::BootstrapCompleted);
        for (position, effect) in out.iter().enumerate() {
            match effect {
                Effect::Event(event) => seen.push(*event),
                Effect::Send(message, to) => {
                    if is_get_peers(message) {
                        // no lookup message goes out before the bootstrap is completed
                        assert!(seen.contains(&DhtEvent::BootstrapCompleted));
                        assert!(position > 0);
                        lookup_probes.push((message.transaction_id.clone(), *to));
                    } else if is_find_node(message) && before_completion
                        && !seen.contains(&DhtEvent::BootstrapCompleted)
                    {
                        pending.push((message.transaction_id.clone(), *to));
                    }
                }
            }
        }
        assert!(answered < 5000);
    }
    assert_eq!(seen, vec![DhtEvent::BootstrapCompleted]);
    assert!(!handler.bootstrapping);
    assert!(handler.is_running());
    assert_eq!(lookup_probes.len(), 3);

    // the nodes answer the lookup, and what is left times out
    let mut rounds = 0;
    loop {
        rounds += 1;
        assert!(rounds < 100);
        if let Some((tag, to)) = lookup_probes.pop() {
            let id = node_at(to).unwrap().id;
            let out = handler.handle_incoming(get_peers_response(tag, id, vec![], None), to, None, now);
            for effect in out.iter() {
                match effect {
                    Effect::Event(event) => seen.push(*event),
                    Effect::Send(message, to) => {
                        assert!(is_get_peers(message));
                        lookup_probes.push((message.transaction_id.clone(), *to));
                    }
                }
            }
            continue;
        }
        break;
    }
    // run the timer out: stale deadlines are dropped, the end of the lookup is reached
    let later = now + 6 * SECOND;
    let mut fired = 0;
    while let Some(token) = handler.next_timeout(later) {
        fired += 1;
        assert!(fired < 10_000);
        let wait = matches!(token, ScheduledTaskCheck::TableRefresh(_));
        let out = handler.handle_timeout(token, later);
        seen.extend(events(&out));
        if wait && seen.contains(&DhtEvent::LookupCompleted(info_hash)) {
            break;
        }
    }
    let completed: Vec<&DhtEvent> =
        seen.iter().filter(|e| matches!(e, DhtEvent::LookupCompleted(_))).collect();
    assert_eq!(completed, vec![&DhtEvent::LookupCompleted(info_hash)]);
}

#[test]
fn bootstrap_is_given_up_after_three_attempts_without_a_good_node() {
    let mut handler = handler_with(0);
    let router = addr(1);
    let out = handler.handle_command(OneshotTask::StartBootstrap(vec![router], vec![]), 0);
    let mut tag = single_reply(&out).0.transaction_id.clone();
    let mut starts = 1;
    let mut seen = Vec::new();
    loop {
        // the router answers, but it is never taken into the table
        let out = handler.handle_incoming(other_response(tag.clone(), remote_id(1), vec![]), router, None, 1);
        seen.extend(events(&out));
        let restarted: Vec<Vec<u8>> = sends(&out)
            .iter()
            .filter(|(m, _)| is_find_node(m))
            .map(|(m, _)| m.transaction_id.clone())
            .collect();
        if restarted.is_empty() {
            break;
        }
        assert_eq!(restarted.len(), 1);
        tag = restarted[0].clone();
        starts += 1;
        assert!(starts <= MAX_BOOTSTRAP_ATTEMPTS);
    }
    // the third completion is the end: the bootstrap was started three times in all
    assert_eq!(starts, MAX_BOOTSTRAP_ATTEMPTS);
    assert_eq!(seen, vec![DhtEvent::BootstrapFailed]);
    assert!(!handler.is_running());
}

#[test]
fn bootstrap_without_answer_fails() {
    let mut handler = handler_with(0);
    let out = handler.handle_command(OneshotTask::StartBootstrap(vec![addr(1)], vec![]), 0);
    let tag = single_reply(&out).0.transaction_id.clone();
    let id = TransactionID::from_bytes(&tag).unwrap();
    let out = handler.handle_timeout(ScheduledTaskCheck::BootstrapTimeout(id), 5 * SECOND);
    assert_eq!(events(&out), vec![DhtEvent::BootstrapFailed]);
    assert!(!handler.is_running());
}

#[test]
fn ping_is_answered_with_the_own_id() {
    let mut handler = handler_with(3);
    let sender = nth_node(1);
    let out = handler.handle_incoming(
        request(b"aa", Request::Ping(PingRequest { id: sender.id })),
        sender.addr,
        None,
        5,
    );
    let (reply, to) = single_reply(&out);
    assert_eq!(to, sender.addr);
    assert_eq!(reply.transaction_id, b"aa".to_vec());
    match &reply.body {
        MessageBody::Response(Response::Other(other)) => {
            assert_eq!(other.id, own_id());
            assert!(other.nodes_v4.is_empty());
            assert!(other.nodes_v6.is_empty());
        }
        other => panic!("unexpected body {:?}", other),
    }
    // the request is noted on the node
    let stored = handler.routing_table.find_node(&sender).unwrap();
    assert!(stored.unsolicited);
    assert_eq!(stored.last_seen, Some(5));
}

#[test]
fn ping_from_an_unknown_node_leaves_the_table_alone() {
    let mut handler = handler_with(3);
    let out = handler.handle_incoming(
        request(b"aa", Request::Ping(PingRequest { id: remote_id(9) })),
        addr(9),
        None,
        5,
    );
    assert_eq!(out.len(), 1);
    assert_eq!(handler.routing_table.closest_nodes(own_id(), 0).len(), 3);
    assert_eq!(handler.routing_table.find_node(&NodeHandle::new(remote_id(9), addr(9))), None);
}

#[test]
fn find_node_names_the_eight_closest_of_the_wanted_family() {
    let mut table = table_with(12);
    let v6_node = NodeHandle::new(Id { hi: 0xffff_0000, mid: 1, lo: 1 }, addr_v6(7));
    table.add_node(Node::as_good(v6_node.id, v6_node.addr, 0), 0);
    let mut handler = DhtHandler::new(table, false, None);
    let target = own_id().flip_bit(5);
    let listed = handler.routing_table.closest_nodes(target, 0);
    let expected_v4: Vec<NodeHandle> =
        listed.iter().filter(|n| n.addr().is_ipv4()).take(8).map(|n| n.handle()).collect();

    let find = |want| Request::FindNode(FindNodeRequest { id: remote_id(1), target, want });
    let out = handler.handle_incoming(request(b"t1", find(Some(Want::V4))), addr(9), None, 0);
    match &single_reply(&out).0.body {
        MessageBody::Response(Response::Other(other)) => {
            assert_eq!(other.nodes_v4, expected_v4);
            assert_eq!(other.nodes_v4.len(), 8);
            assert_eq!(other.nodes_v4[0], nth_node(5));
            assert!(other.nodes_v6.is_empty());
        }
        other => panic!("unexpected body {:?}", other),
    }
    let out = handler.handle_incoming(request(b"t2", find(Some(Want::V6))), addr(9), None, 0);
    match &single_reply(&out).0.body {
        MessageBody::Response(Response::Other(other)) => {
            assert!(other.nodes_v4.is_empty());
            assert_eq!(other.nodes_v6, vec![v6_node]);
        }
        other => panic!("unexpected body {:?}", other),
    }
    let out = handler.handle_incoming(request(b"t3", find(Some(Want::Both))), addr(9), None, 0);
    match &single_reply(&out).0.body {
        MessageBody::Response(Response::Other(other)) => {
            assert_eq!(other.nodes_v4, expected_v4);
            assert_eq!(other.nodes_v6, vec![v6_node]);
        }
        other => panic!("unexpected body {:?}", other),
    }
    // without a wanted family the family of the local socket decides
    let out = handler.handle_incoming(
        request(b"t4", find(None)),
        addr(9),
        Some(AddressFamily::V6),
        0,
    );
    match &single_reply(&out).0.body {
        MessageBody::Response(Response::Other(other)) => {
            assert!(other.nodes_v4.is_empty());
            assert_eq!(other.nodes_v6, vec![v6_node]);
        }
        other => panic!("unexpected body {:?}", other),
    }
    // and without that nothing is answered
    let out = handler.handle_incoming(request(b"t5", find(None)), addr(9), None, 0);
    assert!(out.is_empty());
}

#[test]
fn announce_with_a_valid_token_is_stored_and_found() {
    let mut handler = handler_with(2);
    let sender = addr(4000);
    let info_hash = remote_id(500);
    let get = Request::GetPeers(GetPeersRequest { id: remote_id(1), info_hash });
    let out = handler.handle_incoming(request(b"g1", get), sender, None, 10);
    let token = match &single_reply(&out).0.body {
        MessageBody::Response(Response::GetPeers(get)) => {
            assert_eq!(get.id, own_id());
            assert!(get.values.is_empty());
            assert_eq!(get.nodes, vec![nth_node(0), nth_node(1)]);
            get.token.clone().unwrap()
        }
        other => panic!("unexpected body {:?}", other),
    };
    assert_eq!(token.len(), 4);

    // announce with the port of the request
    let announce = Request::AnnouncePeer(AnnouncePeerRequest {
        id: remote_id(1),
        info_hash,
        token: token.clone(),
        port: Some(6881),
    });
    let out = handler.handle_incoming(request(b"a1", announce), sender, None, 11);
    let (reply, to) = single_reply(&out);
    assert_eq!(to, sender);
    assert_eq!(reply.transaction_id, b"a1".to_vec());
    match &reply.body {
        MessageBody::Response(Response::Other(other)) => {
            assert_eq!(other.id, own_id());
            assert!(other.nodes_v4.is_empty());
        }
        other => panic!("unexpected body {:?}", other),
    }

    // announce with the implied port
    let announce = Request::AnnouncePeer(AnnouncePeerRequest {
        id: remote_id(1),
        info_hash,
        token,
        port: None,
    });
    handler.handle_incoming(request(b"a2", announce), sender, None, 12);

    let get = Request::GetPeers(GetPeersRequest { id: remote_id(2), info_hash });
    let out = handler.handle_incoming(request(b"g2", get), addr(4001), None, 13);
    match &single_reply(&out).0.body {
        MessageBody::Response(Response::GetPeers(get)) => {
            assert_eq!(get.values, vec![sender.with_port(6881), sender]);
        }
        other => panic!("unexpected body {:?}", other),
    }
    // a day later the peers are gone
    let get = Request::GetPeers(GetPeersRequest { id: remote_id(2), info_hash });
    let out = handler.handle_incoming(request(b"g3", get), addr(4001), None, 12 + EXPIRATION_TIME);
    match &single_reply(&out).0.body {
        MessageBody::Response(Response::GetPeers(get)) => assert!(get.values.is_empty()),
        other => panic!("unexpected body {:?}", other),
    }
}

fn error_of(out: &[Effect]) -> (u16, String) {
    match &single_reply(out).0.body {
        MessageBody::Error(Error { code, message }) => (*code, message.clone()),
        other => panic!("unexpected body {:?}", other),
    }
}

#[test]
fn announce_with_an_invalid_token_is_a_protocol_error() {
    let mut handler = handler_with(2);
    let info_hash = remote_id(500);
    for token in [vec![], vec![1, 2, 3], vec![0; 20]] {
        let announce = Request::AnnouncePeer(AnnouncePeerRequest {
            id: remote_id(1),
            info_hash,
            token,
            port: None,
        });
        let out = handler.handle_incoming(request(b"a1", announce), addr(9), None, 0);
        assert_eq!(error_of(&out), (203, "received an invalid token".to_string()));
        assert_eq!(error_code::PROTOCOL_ERROR, 203);
    }
    // a token that was handed out for another address
    let get = Request::GetPeers(GetPeersRequest { id: remote_id(1), info_hash });
    let out = handler.handle_incoming(request(b"g1", get), addr(9), None, 0);
    let token = match &single_reply(&out).0.body {
        MessageBody::Response(Response::GetPeers(get)) => get.token.clone().unwrap(),
        other => panic!("unexpected body {:?}", other),
    };
    let elsewhere = SocketAddress::new(IpAddress::v4(10, 0, 0, 2), 9);
    let announce = Request::AnnouncePeer(AnnouncePeerRequest {
        id: remote_id(1),
        info_hash,
        token,
        port: None,
    });
    let out = handler.handle_incoming(request(b"a2", announce), elsewhere, None, 0);
    assert_eq!(error_of(&out).0, 203);
    assert_eq!(handler.active_stores.len(), 0);
}

#[test]
fn announce_to_a_full_storage_is_a_server_error() {
    let mut handler = handler_with(2);
    let sender = addr(9);
    let info_hash = remote_id(500);
    let get = Request::GetPeers(GetPeersRequest { id: remote_id(1), info_hash });
    let out = handler.handle_incoming(request(b"g1", get), sender, None, 0);
    let token = match &single_reply(&out).0.body {
        MessageBody::Response(Response::GetPeers(get)) => get.token.clone().unwrap(),
        other => panic!("unexpected body {:?}", other),
    };
    for port in 0..MAX_ITEMS_STORED as u16 {
        let announce = Request::AnnouncePeer(AnnouncePeerRequest {
            id: remote_id(1),
            info_hash,
            token: token.clone(),
            port: Some(port),
        });
        let out = handler.handle_incoming(request(b"a1", announce), sender, None, 1);
        assert!(matches!(single_reply(&out).0.body, MessageBody::Response(_)));
    }
    let announce = Request::AnnouncePeer(AnnouncePeerRequest {
        id: remote_id(1),
        info_hash,
        token: token.clone(),
        port: Some(60000),
    });
    let out = handler.handle_incoming(request(b"a2", announce), sender, None, 2);
    assert_eq!(error_of(&out), (202, "announce storage is full".to_string()));
    assert_eq!(error_code::SERVER_ERROR, 202);
    // a renewal is still taken
    let announce = Request::AnnouncePeer(AnnouncePeerRequest {
        id: remote_id(1),
        info_hash,
        token,
        port: Some(3),
    });
    let out = handler.handle_incoming(request(b"a3", announce), sender, None, 3);
    assert!(matches!(single_reply(&out).0.body, MessageBody::Response(_)));
    assert_eq!(handler.active_stores.len(), MAX_ITEMS_STORED);
}

#[test]
fn get_peers_names_only_peers_of_version_four() {
    let mut handler = handler_with(0);
    let info_hash = remote_id(500);
    handler.active_stores.add(info_hash, addr_v6(1), 0);
    handler.active_stores.add(info_hash, addr(2), 0);
    let get = Request::GetPeers(GetPeersRequest { id: remote_id(1), info_hash });
    let out = handler.handle_incoming(request(b"g1", get), addr(9), None, 1);
    match &single_reply(&out).0.body {
        MessageBody::Response(Response::GetPeers(get)) => assert_eq!(get.values, vec![addr(2)]),
        other => panic!("unexpected body {:?}", other),
    }
}

#[test]
fn read_only_worker_discards_requests() {
    let mut handler = DhtHandler::new(table_with(3), true, None);
    let sender = nth_node(1);
    let out = handler.handle_incoming(
        request(b"aa", Request::Ping(PingRequest { id: sender.id })),
        sender.addr,
        None,
        5,
    );
    assert!(out.is_empty());
    assert!(!handler.routing_table.find_node(&sender).unwrap().unsolicited);
}

#[test]
fn unexpected_responses_are_discarded() {
    let mut handler = handler_with(0);
    handler.handle_command(OneshotTask::StartBootstrap(vec![], vec![]), 0);
    let newcomer = NodeHandle::new(remote_id(5), addr(5));
    // a tag that is no transaction id of ours
    let out = handler.handle_incoming(other_response(vec![1, 2], newcomer.id, vec![]), newcomer.addr, None, 1);
    assert!(out.is_empty());
    // an action that is not registered
    let unknown = TransactionID { action: 99, message: 0 }.to_bytes();
    let out = handler.handle_incoming(other_response(unknown, newcomer.id, vec![]), newcomer.addr, None, 1);
    assert!(out.is_empty());
    // an answer of the wrong kind for the refresh, which is registered under action 0
    let refresh = TransactionID { action: 0, message: 0 }.to_bytes();
    let out = handler.handle_incoming(
        get_peers_response(refresh.clone(), newcomer.id, vec![addr(1)], None),
        newcomer.addr,
        None,
        1,
    );
    assert!(out.is_empty());
    assert_eq!(handler.routing_table.find_node(&newcomer), None);
    // an answer of the right kind is taken in: the sender is a good node now
    let out = handler.handle_incoming(
        other_response(refresh, newcomer.id, vec![nth_node(3)]),
        newcomer.addr,
        None,
        1,
    );
    assert!(out.is_empty());
    assert_eq!(handler.routing_table.find_node(&newcomer).unwrap().status(1), NodeStatus::Good);
    assert_eq!(
        handler.routing_table.find_node(&nth_node(3)).unwrap().status(1),
        NodeStatus::Questionable
    );
}

#[test]
fn errors_are_dropped() {
    let mut handler = handler_with(1);
    let message = Message {
        transaction_id: vec![0, 0, 0, 0, 0, 0, 0, 0],
        body: MessageBody::Error(Error { code: 201, message: "no".to_string() }),
    };
    let out = handler.handle_incoming(message, addr(1), None, 0);
    assert!(out.is_empty());
}

#[test]
fn stale_deadlines_are_dropped() {
    let mut handler = handler_with(2);
    let gone = TransactionID { action: 42, message: 0 };
    for token in [
        ScheduledTaskCheck::TableRefresh(gone),
        ScheduledTaskCheck::BootstrapTimeout(gone),
        ScheduledTaskCheck::LookupTimeout(gone),
        ScheduledTaskCheck::LookupEndGame(gone),
    ] {
        let out = handler.handle_timeout(token, 10);
        assert!(out.is_empty());
        assert!(handler.table_actions.is_empty());
    }
    // a deadline of another kind than its action changes nothing either
    handler.handle_command(OneshotTask::StartBootstrap(vec![], vec![]), 0);
    let refresh = TransactionID { action: 0, message: 0 };
    let out = handler.handle_timeout(ScheduledTaskCheck::LookupEndGame(refresh), 10);
    assert!(out.is_empty());
    assert!(matches!(handler.table_actions.get(&0), Some(TableAction::Refresh(_))));
}

#[test]
fn lookup_reports_each_peer_once_and_ends_once() {
    let mut handler = handler_with(2);
    let info_hash = remote_id(500);
    let out = handler.handle_command(OneshotTask::StartLookup(info_hash, true), 0);
    let probes: Vec<(Vec<u8>, SocketAddress)> =
        sends(&out).iter().map(|(m, to)| (m.transaction_id.clone(), *to)).collect();
    assert_eq!(probes.len(), 2);
    let peer = |port| SocketAddress::new(IpAddress::v4(172, 16, 0, 1), port);

    let (tag, to) = probes[0].clone();
    let out = handler.handle_incoming(
        get_peers_response(tag, node_at(to).unwrap().id, vec![peer(1), peer(2)], Some(vec![7])),
        to,
        None,
        1,
    );
    assert_eq!(
        events(&out),
        vec![DhtEvent::PeerFound(info_hash, peer(1)), DhtEvent::PeerFound(info_hash, peer(2))]
    );
    let (tag, to) = probes[1].clone();
    let out = handler.handle_incoming(
        get_peers_response(tag, node_at(to).unwrap().id, vec![peer(2), peer(3)], None),
        to,
        None,
        2,
    );
    assert_eq!(events(&out), vec![DhtEvent::PeerFound(info_hash, peer(3))]);

    // the settle window is scheduled; when it is over the lookup announces and ends
    let mut ended = Vec::new();
    let mut announced = Vec::new();
    let later = 2 + 5 * SECOND;
    while let Some(token) = handler.next_timeout(later) {
        let out = handler.handle_timeout(token, later);
        ended.extend(events(&out));
        for (message, to) in sends(&out) {
            if let MessageBody::Request(Request::AnnouncePeer(announce)) = &message.body {
                announced.push((to, announce.token.clone(), announce.port));
            }
        }
    }
    assert_eq!(ended, vec![DhtEvent::LookupCompleted(info_hash)]);
    assert_eq!(announced, vec![(probes[0].1, vec![7], Some(6881))]);
    assert!(handler.table_actions.is_empty());
}

#[test]
fn report_lookup_tells_the_client() {
    let info_hash = remote_id(1);
    let mut out = Vec::new();
    report_lookup(LookupStatus::Searching, info_hash, &mut out);
    assert!(out.is_empty());
    report_lookup(LookupStatus::Values(vec![addr(1), addr(2)]), info_hash, &mut out);
    report_lookup(LookupStatus::Completed, info_hash, &mut out);
    assert_eq!(
        events(&out),
        vec![
            DhtEvent::PeerFound(info_hash, addr(1)),
            DhtEvent::PeerFound(info_hash, addr(2)),
            DhtEvent::LookupCompleted(info_hash),
        ]
    );
}

#[test]
fn closest_handles_and_filter_v4() {
    let nodes: Vec<Node> = (0..10)
        .map(|n| {
            let address = if n % 2 == 0 { addr(n) } else { addr_v6(n) };
            Node::as_good(remote_id(n as u64), address, 0)
        })
        .collect();
    assert_eq!(closest_handles(&nodes, None).len(), 8);
    assert_eq!(closest_handles(&nodes, None)[0], nodes[0].handle());
    let v4 = closest_handles(&nodes, Some(AddressFamily::V4));
    assert_eq!(v4, vec![0, 2, 4, 6, 8].into_iter().map(|n| nodes[n].handle()).collect::<Vec<_>>());
    let v6 = closest_handles(&nodes, Some(AddressFamily::V6));
    assert_eq!(v6.len(), 5);
    assert_eq!(filter_v4(&vec![addr(1), addr_v6(2), addr(3)]), vec![addr(1), addr(3)]);
}

#[test]
fn response_goes_only_to_the_action_that_its_tag_names() {
    let mut handler = handler_with(4);
    let first = remote_id(500);
    let second = remote_id(600);
    let out = handler.handle_command(OneshotTask::StartLookup(first, false), 0);
    let first_probes: Vec<(Vec<u8>, SocketAddress)> =
        sends(&out).iter().map(|(m, to)| (m.transaction_id.clone(), *to)).collect();
    let out = handler.handle_command(OneshotTask::StartLookup(second, false), 0);
    let second_probes: Vec<(Vec<u8>, SocketAddress)> =
        sends(&out).iter().map(|(m, to)| (m.transaction_id.clone(), *to)).collect();
    assert_eq!(TransactionID::from_bytes(&first_probes[0].0).unwrap().action, 1);
    assert_eq!(TransactionID::from_bytes(&second_probes[0].0).unwrap().action, 2);

    let peer = SocketAddress::new(IpAddress::v4(172, 16, 0, 1), 1);
    let (tag, to) = first_probes[0].clone();
    let out = handler.handle_incoming(
        get_peers_response(tag, node_at(to).unwrap().id, vec![peer], None),
        to,
        None,
        1,
    );
    assert_eq!(events(&out), vec![DhtEvent::PeerFound(first, peer)]);
    match (handler.table_actions.get(&1), handler.table_actions.get(&2)) {
        (Some(TableAction::Lookup(one)), Some(TableAction::Lookup(two))) => {
            assert_eq!(one.values_seen, vec![peer]);
            assert!(two.values_seen.is_empty());
            assert_eq!(two.active_lookups.len(), 3);
            assert_eq!(two.info_hash(), second);
        }
        _ => panic!("both lookups are registered"),
    }
    // the same peer is new to the second lookup
    let (tag, to) = second_probes[0].clone();
    let out = handler.handle_incoming(
        get_peers_response(tag, node_at(to).unwrap().id, vec![peer], None),
        to,
        None,
        2,
    );
    assert_eq!(events(&out), vec![DhtEvent::PeerFound(second, peer)]);
}

#[test]
fn worker_without_action_ids_left_starts_nothing() {
    let mut handler = handler_with(2);
    handler.aid_generator.next_alloc = u32::MAX;
    let out = handler.handle_command(OneshotTask::StartLookup(remote_id(1), false), 0);
    assert_eq!(events(&out), vec![DhtEvent::LookupCompleted(remote_id(1))]);
    assert!(handler.table_actions.is_empty());
    let out = handler.handle_command(OneshotTask::StartBootstrap(vec![addr(1)], vec![]), 0);
    assert_eq!(events(&out), vec![DhtEvent::BootstrapFailed]);
    assert!(!handler.is_running());
}

#[test]
fn token_is_accepted_for_one_rotation_of_the_secrets() {
    let mut handler = handler_with(2);
    let sender = addr(9);
    let info_hash = remote_id(500);
    let minute = 60 * SECOND;
    let get = Request::GetPeers(GetPeersRequest { id: remote_id(1), info_hash });
    let out = handler.handle_incoming(request(b"g1", get), sender, None, minute);
    let token = match &single_reply(&out).0.body {
        MessageBody::Response(Response::GetPeers(get)) => get.token.clone().unwrap(),
        other => panic!("unexpected body {:?}", other),
    };
    let announce = |port| {
        Request::AnnouncePeer(AnnouncePeerRequest {
            id: remote_id(1),
            info_hash,
            token: token.clone(),
            port: Some(port),
        })
    };
    // the secrets are rotated at this call, and the token is still good
    let out = handler.handle_incoming(request(b"a1", announce(1)), sender, None, 6 * minute);
    assert!(matches!(single_reply(&out).0.body, MessageBody::Response(_)));
    // they are rotated again at this one, and the token is good no longer
    let out = handler.handle_incoming(request(b"a2", announce(2)), sender, None, 12 * minute);
    assert_eq!(error_of(&out).0, 203);
    assert_eq!(handler.active_stores.len(), 1);
}

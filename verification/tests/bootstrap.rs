use btdht::address::{IpAddress, SocketAddress};
use btdht::id::Id;
use btdht::message::{MessageBody, Request};
use btdht::routing::node::Node;
use btdht::routing::table::RoutingTable;
use btdht::timer::Timer;
use btdht::transaction::{ActionID, MIDGenerator, TransactionID};
use btdht::worker::bootstrap::{
    contains_addr, BootstrapStatus, TableBootstrap, BOOTSTRAP_NODE_TIMEOUT,
};
use btdht::worker::{Effect, ScheduledTaskCheck};

fn addr(port: u16) -> SocketAddress {
    SocketAddress::new(IpAddress::v4(10, 0, 0, 1), port)
}

fn find_node_targets(out: &[Effect]) -> Vec<(SocketAddress, Id, Vec<u8>)> {
    out.iter()
        .map(|effect| match effect {
            Effect::Send(message, to) => match &message.body {
                MessageBody::Request(Request::FindNode(find)) => {
                    (*to, find.target, message.transaction_id.clone())
                }
                other => panic!("unexpected body {:?}", other),
            },
            other => panic!("unexpected effect {:?}", other),
        })
        .collect()
}

fn tid(action: u32, message: u32) -> TransactionID {
    TransactionID { action, message }
}

#[test]
fn probe_timeout_is_five_seconds() {
    assert_eq!(BOOTSTRAP_NODE_TIMEOUT, 5_000_000_000);
}

#[test]
fn bootstrap_with_nobody_to_ask_is_idle() {
    let mut bootstrap = TableBootstrap::new(MIDGenerator::new(ActionID::new(2)), vec![], vec![]);
    let mut timer = Timer::new();
    let mut out = Vec::new();
    let status = bootstrap.start_bootstrap(Id::zero(), &mut timer, &mut out, 0);
    assert_eq!(status, BootstrapStatus::Idle);
    assert!(out.is_empty());
    assert!(timer.is_empty());
}

#[test]
fn first_phase_asks_every_router_and_every_node() {
    let routers = vec![addr(1), addr(2)];
    let nodes = vec![addr(3)];
    let mut bootstrap =
        TableBootstrap::new(MIDGenerator::new(ActionID::new(2)), nodes, routers);
    let mut timer = Timer::new();
    let mut out = Vec::new();
    let status = bootstrap.start_bootstrap(Id::zero(), &mut timer, &mut out, 7);
    assert_eq!(status, BootstrapStatus::Bootstrapping);
    let sent = find_node_targets(&out);
    let target = Id::zero().flip_bit(0);
    assert_eq!(
        sent,
        vec![
            (addr(1), target, tid(2, 0).to_bytes()),
            (addr(2), target, tid(2, 1).to_bytes()),
            (addr(3), target, tid(2, 2).to_bytes()),
        ]
    );
    assert_eq!(bootstrap.active_messages.len(), 3);
    assert_eq!(timer.len(), 3);
    assert_eq!(timer.next_deadline(), Some(7 + BOOTSTRAP_NODE_TIMEOUT));
    assert_eq!(
        timer.next(7 + BOOTSTRAP_NODE_TIMEOUT),
        Some(ScheduledTaskCheck::BootstrapTimeout(tid(2, 0)))
    );
    assert!(bootstrap.is_router(&addr(1)));
    assert!(!bootstrap.is_router(&addr(3)));
}

#[test]
fn phase_goes_on_while_probes_wait() {
    let mut bootstrap = TableBootstrap::new(
        MIDGenerator::new(ActionID::new(2)),
        vec![addr(3)],
        vec![addr(1)],
    );
    let table = RoutingTable::new(Id::zero());
    let mut timer = Timer::new();
    let mut out = Vec::new();
    bootstrap.start_bootstrap(Id::zero(), &mut timer, &mut out, 0);
    let status = bootstrap.recv_response(addr(1), &tid(2, 0), &table, &mut timer, &mut out, 1);
    assert_eq!(status, BootstrapStatus::Bootstrapping);
    assert_eq!(bootstrap.active_messages.len(), 1);
    assert_eq!(bootstrap.curr_bootstrap_bucket, 0);
    assert_eq!(out.len(), 2);
}

#[test]
fn unanswered_phase_with_no_good_node_fails() {
    let mut bootstrap =
        TableBootstrap::new(MIDGenerator::new(ActionID::new(2)), vec![], vec![addr(1)]);
    let table = RoutingTable::new(Id::zero());
    let mut timer = Timer::new();
    let mut out = Vec::new();
    bootstrap.start_bootstrap(Id::zero(), &mut timer, &mut out, 0);
    let status = bootstrap.recv_timeout(&tid(2, 0), &table, &mut timer, &mut out, 5);
    assert_eq!(status, BootstrapStatus::Failed);
}

#[test]
fn unanswered_phase_goes_on_when_the_table_has_a_good_node() {
    let mut bootstrap =
        TableBootstrap::new(MIDGenerator::new(ActionID::new(2)), vec![], vec![addr(1)]);
    let mut table = RoutingTable::new(Id::zero());
    let known = Node::as_good(Id::zero().flip_bit(3), addr(9), 0);
    table.add_node(known, 0);
    let mut timer = Timer::new();
    let mut out = Vec::new();
    bootstrap.start_bootstrap(Id::zero(), &mut timer, &mut out, 0);
    out.clear();
    let status = bootstrap.recv_timeout(&tid(2, 0), &table, &mut timer, &mut out, 5);
    assert_eq!(status, BootstrapStatus::Bootstrapping);
    assert_eq!(bootstrap.curr_bootstrap_bucket, 1);
    let sent = find_node_targets(&out);
    assert_eq!(sent, vec![(addr(9), Id::zero().flip_bit(1), tid(2, 1).to_bytes())]);
}

#[test]
fn answered_phase_with_an_empty_table_completes() {
    let mut bootstrap =
        TableBootstrap::new(MIDGenerator::new(ActionID::new(2)), vec![], vec![addr(1)]);
    let table = RoutingTable::new(Id::zero());
    let mut timer = Timer::new();
    let mut out = Vec::new();
    bootstrap.start_bootstrap(Id::zero(), &mut timer, &mut out, 0);
    let status = bootstrap.recv_response(addr(1), &tid(2, 0), &table, &mut timer, &mut out, 1);
    assert_eq!(status, BootstrapStatus::Completed);
    assert_eq!(bootstrap.curr_bootstrap_bucket, 160);
}

#[test]
fn later_phases_skip_routers_and_ask_at_most_eight() {
    let router = addr(1);
    let mut bootstrap =
        TableBootstrap::new(MIDGenerator::new(ActionID::new(2)), vec![], vec![router]);
    let mut table = RoutingTable::new(Id::zero());
    // the router is in the table, with ten other nodes
    table.add_node(Node::as_good(Id { hi: 0x8000_0000, mid: 0, lo: 0 }, router, 0), 0);
    for n in 1..=5u64 {
        table.add_node(Node::as_good(Id { hi: 0x8000_0000, mid: 0, lo: n }, addr(10 + n as u16), 0), 0);
    }
    for n in 1..=5u64 {
        table.add_node(Node::as_good(Id { hi: 0x4000_0000, mid: 0, lo: n }, addr(20 + n as u16), 0), 0);
    }
    let mut timer = Timer::new();
    let mut out = Vec::new();
    bootstrap.start_bootstrap(Id::zero(), &mut timer, &mut out, 0);
    out.clear();
    let status = bootstrap.recv_response(router, &tid(2, 0), &table, &mut timer, &mut out, 1);
    assert_eq!(status, BootstrapStatus::Bootstrapping);
    assert_eq!(bootstrap.curr_bootstrap_bucket, 1);
    let sent = find_node_targets(&out);
    assert_eq!(sent.len(), 8);
    for (to, target, _) in sent.iter() {
        assert_ne!(*to, router);
        assert_eq!(*target, Id::zero().flip_bit(1));
    }
    // the five nodes of the target's own bucket come first
    let first: Vec<SocketAddress> = sent.iter().take(5).map(|s| s.0).collect();
    for n in 1..=5u16 {
        assert!(first.contains(&addr(20 + n)));
    }
    assert_eq!(bootstrap.active_messages.len(), 8);
}

#[test]
fn bootstrap_runs_through_all_phases() {
    let seed = addr(3);
    let mut bootstrap =
        TableBootstrap::new(MIDGenerator::new(ActionID::new(2)), vec![seed], vec![]);
    let mut table = RoutingTable::new(Id::zero());
    table.add_node(Node::as_good(Id::zero().flip_bit(0), seed, 0), 0);
    let mut timer = Timer::new();
    let mut out = Vec::new();
    let mut status = bootstrap.start_bootstrap(Id::zero(), &mut timer, &mut out, 0);
    let mut phases = 0;
    while status == BootstrapStatus::Bootstrapping {
        let sent = find_node_targets(&out);
        let (to, target, tag) = sent.last().unwrap().clone();
        assert_eq!(to, seed);
        assert_eq!(target, Id::zero().flip_bit(phases));
        let id = TransactionID::from_bytes(&tag).unwrap();
        status = bootstrap.recv_response(seed, &id, &table, &mut timer, &mut out, 0);
        phases += 1;
    }
    assert_eq!(status, BootstrapStatus::Completed);
    assert_eq!(phases, 160);
    assert_eq!(out.len(), 160);
}

#[test]
fn contains_addr_looks_the_address_up() {
    let addrs = vec![addr(1), addr(2)];
    assert!(contains_addr(&addrs, &addr(2)));
    assert!(!contains_addr(&addrs, &addr(3)));
    assert!(!contains_addr(&vec![], &addr(3)));
}

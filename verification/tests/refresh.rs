use btdht::address::{IpAddress, SocketAddress};
use btdht::id::Id;
use btdht::message::{MessageBody, Request};
use btdht::routing::node::Node;
use btdht::routing::table::RoutingTable;
use btdht::timer::Timer;
use btdht::transaction::{ActionID, MIDGenerator, TransactionID};
use btdht::worker::refresh::{first_questionable, TableRefresh, REFRESH_INTERVAL_TIMEOUT};
use btdht::worker::{Effect, ScheduledTaskCheck};

fn addr(port: u16) -> SocketAddress {
    SocketAddress::new(IpAddress::v4(10, 0, 0, 1), port)
}

#[test]
fn refresh_interval_is_six_seconds() {
    assert_eq!(REFRESH_INTERVAL_TIMEOUT, 6_000_000_000);
}

#[test]
fn new_refresh_starts_at_bucket_zero() {
    let refresh = TableRefresh::new(MIDGenerator::new(ActionID::new(4)));
    assert_eq!(refresh.curr_refresh_bucket, 0);
    assert_eq!(refresh.action_id(), ActionID::new(4));
}

#[test]
fn tick_without_questionable_node_only_reschedules() {
    let mut refresh = TableRefresh::new(MIDGenerator::new(ActionID::new(4)));
    let mut table = RoutingTable::new(Id::zero());
    table.add_node(Node::as_good(Id::zero().flip_bit(0), addr(1), 0), 0);
    let mut timer = Timer::new();
    let mut out = Vec::new();
    refresh.continue_refresh(&mut table, &mut timer, &mut out, 100);
    assert!(out.is_empty());
    assert_eq!(refresh.curr_refresh_bucket, 1);
    assert_eq!(timer.next_deadline(), Some(100 + REFRESH_INTERVAL_TIMEOUT));
    assert_eq!(
        timer.next(100 + REFRESH_INTERVAL_TIMEOUT),
        Some(ScheduledTaskCheck::TableRefresh(TransactionID { action: 4, message: 0 }))
    );
}

#[test]
fn tick_probes_the_first_listed_questionable_node() {
    let mut refresh = TableRefresh::new(MIDGenerator::new(ActionID::new(9)));
    let mut table = RoutingTable::new(Id::zero());
    let good = Node::as_good(Id { hi: 0x8000_0000, mid: 0, lo: 1 }, addr(1), 0);
    let far = Node::as_questionable(Id { hi: 0xffff_0000, mid: 0, lo: 2 }, addr(2));
    let near = Node::as_questionable(Id { hi: 0x8000_0000, mid: 0, lo: 3 }, addr(3));
    table.add_node(good, 0);
    table.add_node(far, 0);
    table.add_node(near, 0);
    let mut timer = Timer::new();
    let mut out = Vec::new();
    refresh.continue_refresh(&mut table, &mut timer, &mut out, 50);
    // the target of bucket 0 is the own id with its first bit inverted
    let target = Id::zero().flip_bit(0);
    assert_eq!(out.len(), 1);
    match &out[0] {
        Effect::Send(message, to) => {
            assert_eq!(*to, addr(3));
            assert_eq!(message.transaction_id, vec![0, 0, 0, 9, 0, 0, 0, 0]);
            match &message.body {
                MessageBody::Request(Request::FindNode(find)) => {
                    assert_eq!(find.id, Id::zero());
                    assert_eq!(find.target, target);
                    assert_eq!(find.want, None);
                }
                other => panic!("unexpected body {:?}", other),
            }
        }
        other => panic!("unexpected effect {:?}", other),
    }
    assert_eq!(table.find_node(&near.handle()).unwrap().last_request, Some(50));
    assert_eq!(table.find_node(&far.handle()).unwrap().last_request, None);
    assert_eq!(refresh.curr_refresh_bucket, 1);
    assert_eq!(timer.len(), 1);
}

#[test]
fn cursor_wraps_after_the_last_bucket() {
    let mut refresh = TableRefresh::new(MIDGenerator::new(ActionID::new(1)));
    let mut table = RoutingTable::new(Id::zero());
    let mut timer = Timer::new();
    let mut out = Vec::new();
    for tick in 0..160usize {
        assert_eq!(refresh.curr_refresh_bucket, tick);
        refresh.continue_refresh(&mut table, &mut timer, &mut out, 0);
    }
    assert_eq!(refresh.curr_refresh_bucket, 160);
    refresh.continue_refresh(&mut table, &mut timer, &mut out, 0);
    assert_eq!(refresh.curr_refresh_bucket, 1);
    assert_eq!(timer.len(), 161);
    assert!(out.is_empty());
}

#[test]
fn first_questionable_finds_the_first() {
    let nodes = vec![
        Node::as_good(Id::zero(), addr(1), 0),
        Node::as_bad(Id::zero(), addr(2)),
        Node::as_questionable(Id::zero(), addr(3)),
        Node::as_questionable(Id::zero(), addr(4)),
    ];
    assert_eq!(first_questionable(&nodes, 0), Some(2));
    assert_eq!(first_questionable(&nodes[..2].to_vec(), 0), None);
    // after fifteen minutes the good node is questionable too
    assert_eq!(first_questionable(&nodes, 900_000_000_000), Some(0));
}

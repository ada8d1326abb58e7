use btdht::address::{IpAddress, SocketAddress};
use btdht::id::Id;
use btdht::routing::node::{
    Node, NodeHandle, NodeStatus, RequestLog, MAX_LAST_SEEN, MAX_STRIKES, RECENT_REQUESTS,
};

fn addr(port: u16) -> SocketAddress {
    SocketAddress::new(IpAddress::v4(10, 0, 0, 1), port)
}

const MINUTE: u128 = 60_000_000_000;

#[test]
fn constants_match_the_protocol() {
    assert_eq!(MAX_LAST_SEEN, 15 * MINUTE);
    assert_eq!(MAX_STRIKES, 3);
    assert_eq!(RECENT_REQUESTS, 3);
}

#[test]
fn status_ranks_good_first() {
    assert_eq!(NodeStatus::Good.rank(), 0);
    assert_eq!(NodeStatus::Questionable.rank(), 1);
    assert_eq!(NodeStatus::Bad.rank(), 2);
}

#[test]
fn handle_is_id_and_address() {
    let a = NodeHandle::new(Id::zero(), addr(1));
    let b = NodeHandle::new(Id::zero(), addr(2));
    assert_ne!(a, b);
    assert_eq!(a, NodeHandle { id: Id::zero(), addr: addr(1) });
}

#[test]
fn as_good_is_good_for_fifteen_minutes() {
    let node = Node::as_good(Id::zero(), addr(1), 100);
    assert_eq!(node.handle(), NodeHandle::new(Id::zero(), addr(1)));
    assert_eq!(node.id(), Id::zero());
    assert_eq!(node.addr(), addr(1));
    assert_eq!(node.status(100), NodeStatus::Good);
    assert_eq!(node.status(100 + MAX_LAST_SEEN - 1), NodeStatus::Good);
    assert_eq!(node.status(100 + MAX_LAST_SEEN), NodeStatus::Questionable);
    assert_eq!(node.status(50), NodeStatus::Good);
}

#[test]
fn as_questionable_and_as_bad() {
    let questionable = Node::as_questionable(Id::zero(), addr(1));
    assert_eq!(questionable.status(0), NodeStatus::Questionable);
    assert_eq!(questionable.status(u128::MAX), NodeStatus::Questionable);
    let bad = Node::as_bad(Id::zero(), addr(1));
    assert_eq!(bad.status(0), NodeStatus::Bad);
    assert_eq!(bad.strikes, 3);
}

#[test]
fn unsolicited_request_makes_a_fresh_node_good() {
    let mut node = Node::as_questionable(Id::zero(), addr(1));
    node.remote_request(1000);
    assert!(node.unsolicited);
    assert_eq!(node.last_seen, Some(1000));
    assert_eq!(node.status(1000), NodeStatus::Good);
    assert_eq!(node.status(1000 + MAX_LAST_SEEN), NodeStatus::Questionable);
}

#[test]
fn three_timeouts_in_a_row_make_a_node_bad() {
    let mut node = Node::as_good(Id::zero(), addr(1), 0);
    node.local_request(1);
    assert_eq!(node.last_request, Some(1));
    node.local_timeout();
    assert_eq!(node.last_request, None);
    assert_eq!(node.strikes, 1);
    // one answer out of two is no strict majority
    assert_eq!(node.status(2), NodeStatus::Questionable);
    node.local_timeout();
    assert_eq!(node.strikes, 2);
    assert_eq!(node.status(2), NodeStatus::Questionable);
    node.local_timeout();
    assert_eq!(node.strikes, 3);
    assert_eq!(node.status(2), NodeStatus::Bad);
}

#[test]
fn a_response_clears_the_strikes() {
    let mut node = Node::as_bad(Id::zero(), addr(1));
    node.local_response(500);
    assert_eq!(node.strikes, 0);
    assert_eq!(node.last_seen, Some(500));
    // one answer out of the last three
    assert_eq!(node.status(500), NodeStatus::Questionable);
    node.local_response(600);
    assert_eq!(node.status(600), NodeStatus::Good);
}

#[test]
fn bad_wins_over_recent_unsolicited_traffic() {
    let mut node = Node::as_bad(Id::zero(), addr(1));
    node.remote_request(10);
    assert_eq!(node.status(10), NodeStatus::Bad);
}

#[test]
fn strikes_saturate() {
    let mut node = Node::as_questionable(Id::zero(), addr(1));
    for _ in 0..300 {
        node.local_timeout();
    }
    assert_eq!(node.strikes, u8::MAX);
    assert_eq!(node.status(0), NodeStatus::Bad);
}

#[test]
fn request_log_remembers_the_last_three() {
    let log = RequestLog::empty();
    assert!(!log.majority_answered());
    let log = log.record(true);
    assert_eq!(log.count, 1);
    assert!(log.majority_answered());
    let log = log.record(false);
    assert!(!log.majority_answered());
    let log = log.record(true);
    assert_eq!(log.count, 3);
    assert!(log.majority_answered());
    let log = log.record(false);
    assert_eq!(log.count, 3);
    assert_eq!((log.newest, log.middle, log.oldest), (false, true, false));
    assert!(!log.majority_answered());
}

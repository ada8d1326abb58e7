use btdht::address::{IpAddress, SocketAddress};
use btdht::id::Id;
use btdht::routing::bucket::{node_listed_before, AddOutcome, Bucket, MAX_BUCKET_SIZE};
use btdht::routing::node::{Node, NodeHandle, NodeStatus};

fn addr(port: u16) -> SocketAddress {
    SocketAddress::new(IpAddress::v4(10, 0, 0, 1), port)
}

fn id(n: u64) -> Id {
    Id { hi: 0, mid: 0, lo: n }
}

fn full_bucket_of_good_nodes(now: u128) -> Bucket {
    let mut bucket = Bucket::new();
    for n in 0..MAX_BUCKET_SIZE as u64 {
        assert_eq!(bucket.add_node(Node::as_good(id(n), addr(n as u16), now), now), AddOutcome::Added);
    }
    bucket
}

#[test]
fn bucket_capacity_is_eight() {
    assert_eq!(MAX_BUCKET_SIZE, 8);
    let bucket = full_bucket_of_good_nodes(0);
    assert_eq!(bucket.len(), 8);
    assert!(bucket.is_full());
}

#[test]
fn new_bucket_is_empty() {
    let bucket = Bucket::new();
    assert_eq!(bucket.len(), 0);
    assert!(!bucket.is_full());
    assert!(bucket.pending.is_none());
}

#[test]
fn add_appends_while_there_is_room() {
    let mut bucket = Bucket::new();
    let a = Node::as_questionable(id(1), addr(1));
    let b = Node::as_questionable(id(2), addr(2));
    assert_eq!(bucket.add_node(a, 0), AddOutcome::Added);
    assert_eq!(bucket.add_node(b, 0), AddOutcome::Added);
    assert_eq!(bucket.nodes, vec![a, b]);
    assert_eq!(bucket.position(&a.handle), Some(0));
    assert_eq!(bucket.position(&b.handle), Some(1));
    assert_eq!(bucket.find_node(&b.handle), Some(b));
    assert_eq!(bucket.find_node(&NodeHandle::new(id(3), addr(3))), None);
}

#[test]
fn same_id_at_another_address_is_another_node() {
    let mut bucket = Bucket::new();
    assert_eq!(bucket.add_node(Node::as_questionable(id(1), addr(1)), 0), AddOutcome::Added);
    assert_eq!(bucket.add_node(Node::as_questionable(id(1), addr(2)), 0), AddOutcome::Added);
    assert_eq!(bucket.len(), 2);
}

#[test]
fn adding_a_known_node_replaces_it_only_if_better() {
    let mut bucket = Bucket::new();
    let questionable = Node::as_questionable(id(1), addr(1));
    let good = Node::as_good(id(1), addr(1), 5);
    assert_eq!(bucket.add_node(questionable, 5), AddOutcome::Added);
    assert_eq!(bucket.add_node(good, 5), AddOutcome::Updated);
    assert_eq!(bucket.nodes, vec![good]);
    assert_eq!(bucket.add_node(questionable, 5), AddOutcome::Updated);
    assert_eq!(bucket.nodes, vec![good]);
    let later = Node::as_good(id(1), addr(1), 6);
    assert_eq!(bucket.add_node(later, 6), AddOutcome::Updated);
    assert_eq!(bucket.nodes, vec![good]);
}

#[test]
fn full_bucket_evicts_the_first_bad_node() {
    let mut bucket = full_bucket_of_good_nodes(0);
    bucket.replace_at(2, Node::as_bad(id(2), addr(2)));
    bucket.replace_at(5, Node::as_bad(id(5), addr(5)));
    let newcomer = Node::as_good(id(100), addr(100), 0);
    assert_eq!(
        bucket.add_node(newcomer, 0),
        AddOutcome::Evicted(NodeHandle::new(id(2), addr(2)))
    );
    assert_eq!(bucket.nodes[2], newcomer);
    assert_eq!(bucket.len(), 8);
    assert_eq!(bucket.find_node(&NodeHandle::new(id(2), addr(2))), None);
}

#[test]
fn full_bucket_of_good_nodes_turns_newcomers_away() {
    let mut bucket = full_bucket_of_good_nodes(0);
    let before = bucket.nodes.clone();
    assert_eq!(bucket.add_node(Node::as_good(id(100), addr(100), 0), 0), AddOutcome::Rejected);
    assert_eq!(bucket.nodes, before);
    assert!(bucket.pending.is_none());
}

#[test]
fn full_bucket_queues_newcomer_and_names_the_least_recently_seen_questionable() {
    let minute: u128 = 60_000_000_000;
    let mut bucket = Bucket::new();
    // seen at 0, 1, 2, ... minutes
    for n in 0..8u64 {
        bucket.add_node(Node::as_good(id(n), addr(n as u16), n as u128 * minute), 0);
    }
    // at 16.5 minutes the nodes seen at minute 0 and 1 are questionable
    let now = 16 * minute + minute / 2;
    assert_eq!(bucket.nodes[0].status(now), NodeStatus::Questionable);
    assert_eq!(bucket.nodes[1].status(now), NodeStatus::Questionable);
    assert_eq!(bucket.nodes[2].status(now), NodeStatus::Good);
    let newcomer = Node::as_good(id(100), addr(100), now);
    let outcome = bucket.add_node(newcomer, now);
    assert_eq!(outcome, AddOutcome::Pending(NodeHandle::new(id(0), addr(0))));
    assert_eq!(bucket.len(), 8);
    let waiting = bucket.pending.unwrap();
    assert_eq!(waiting.node, newcomer);
    assert_eq!(waiting.probe, NodeHandle::new(id(0), addr(0)));
}

#[test]
fn never_seen_node_is_the_least_recently_seen() {
    let mut bucket = Bucket::new();
    for n in 0..7u64 {
        bucket.add_node(Node::as_good(id(n), addr(n as u16), 0), 0);
    }
    bucket.add_node(Node::as_questionable(id(7), addr(7)), 0);
    let now = 20 * 60_000_000_000u128;
    let outcome = bucket.add_node(Node::as_good(id(100), addr(100), now), now);
    assert_eq!(outcome, AddOutcome::Pending(NodeHandle::new(id(7), addr(7))));
}

#[test]
fn pending_is_promoted_on_timeout_of_the_probed_node() {
    let minute: u128 = 60_000_000_000;
    let mut bucket = full_bucket_of_good_nodes(0);
    let now = 16 * minute;
    let newcomer = Node::as_good(id(100), addr(100), now);
    let probe = NodeHandle::new(id(0), addr(0));
    assert_eq!(bucket.add_node(newcomer, now), AddOutcome::Pending(probe));
    // the timeout of another node only costs that node a strike
    assert!(!bucket.timed_out(&NodeHandle::new(id(3), addr(3))));
    assert_eq!(bucket.nodes[3].strikes, 1);
    assert!(bucket.pending.is_some());
    // the timeout of the probed node lets the newcomer in
    assert!(bucket.timed_out(&probe));
    assert_eq!(bucket.nodes[0], newcomer);
    assert!(bucket.pending.is_none());
    assert_eq!(bucket.find_node(&probe), None);
}

#[test]
fn pending_is_discarded_on_reply_of_the_probed_node() {
    let minute: u128 = 60_000_000_000;
    let mut bucket = full_bucket_of_good_nodes(0);
    let now = 16 * minute;
    let newcomer = Node::as_good(id(100), addr(100), now);
    let probe = NodeHandle::new(id(0), addr(0));
    assert_eq!(bucket.add_node(newcomer, now), AddOutcome::Pending(probe));
    let reply = Node::as_good(id(0), addr(0), now);
    assert_eq!(bucket.add_node(reply, now), AddOutcome::Updated);
    assert!(bucket.pending.is_none());
    assert_eq!(bucket.nodes[0], reply);
    assert_eq!(bucket.find_node(&newcomer.handle), None);
}

#[test]
fn timeout_of_an_unknown_node_changes_nothing() {
    let mut bucket = full_bucket_of_good_nodes(0);
    let before = bucket.nodes.clone();
    assert!(!bucket.timed_out(&NodeHandle::new(id(55), addr(55))));
    assert_eq!(bucket.nodes, before);
}

#[test]
fn sorted_lists_good_before_questionable_before_bad_then_by_distance() {
    let mut bucket = Bucket::new();
    let far_good = Node::as_good(id(0b1000), addr(1), 0);
    let near_questionable = Node::as_questionable(id(0b0001), addr(2));
    let near_good = Node::as_good(id(0b0010), addr(3), 0);
    let bad = Node::as_bad(id(0b0000), addr(4));
    let far_questionable = Node::as_questionable(id(0b0100), addr(5));
    for node in [far_good, near_questionable, near_good, bad, far_questionable] {
        bucket.add_node(node, 0);
    }
    let target = id(0);
    let listed = bucket.sorted(&target, 0);
    assert_eq!(listed, vec![near_good, far_good, near_questionable, far_questionable, bad]);
    // distance is measured with xor
    let listed = bucket.sorted(&id(0b1000), 0);
    assert_eq!(listed, vec![far_good, near_good, near_questionable, far_questionable, bad]);
    assert!(node_listed_before(&near_good, &far_good, &target, 0));
    assert!(!node_listed_before(&bad, &far_questionable, &target, 0));
}

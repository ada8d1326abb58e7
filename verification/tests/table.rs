use btdht::address::{IpAddress, SocketAddress};
use btdht::id::Id;
use btdht::routing::bucket::AddOutcome;
use btdht::routing::node::{Node, NodeHandle, NodeStatus};
use btdht::routing::table::{RoutingTable, MAX_BUCKETS};

fn addr(port: u16) -> SocketAddress {
    SocketAddress::new(IpAddress::v4(10, 0, 0, 1), port)
}

/// An id that shares exactly `prefix` leading bits with the all-zero id.
fn id_with_prefix(prefix: usize, salt: u64) -> Id {
    let mut id = Id::zero().flip_bit(prefix);
    if prefix < 96 {
        id.lo = salt;
    } else {
        // keep the salt below the flipped bit
        id.lo |= salt & ((1u64 << (159 - prefix)) - 1);
    }
    id
}

fn ids(nodes: &[Node]) -> Vec<Id> {
    nodes.iter().map(|n| n.id()).collect()
}

#[test]
fn new_table_has_one_empty_bucket() {
    let table = RoutingTable::new(Id::zero());
    assert_eq!(MAX_BUCKETS, 160);
    assert_eq!(table.node_id(), Id::zero());
    assert_eq!(table.buckets().len(), 1);
    assert_eq!(table.buckets()[0].len(), 0);
    assert!(table.closest_nodes(Id::zero(), 0).is_empty());
    assert_eq!(table.num_good_nodes(0), 0);
}

#[test]
fn the_own_id_is_not_stored() {
    let mut table = RoutingTable::new(Id::zero());
    assert_eq!(table.add_node(Node::as_good(Id::zero(), addr(1), 0), 0), AddOutcome::Rejected);
    assert!(table.closest_nodes(Id::zero(), 0).is_empty());
}

#[test]
fn add_and_find() {
    let mut table = RoutingTable::new(Id::zero());
    let node = Node::as_good(id_with_prefix(3, 9), addr(1), 0);
    assert_eq!(table.add_node(node, 0), AddOutcome::Added);
    assert_eq!(table.find_node(&node.handle), Some(node));
    assert_eq!(table.find_node(&NodeHandle::new(node.id(), addr(2))), None);
    assert_eq!(table.bucket_index(&node.id()), 0);
}

#[test]
fn ninth_node_splits_the_last_bucket() {
    let mut table = RoutingTable::new(Id::zero());
    for n in 0..8u64 {
        // half of them share no bit with the own id, half share one or more
        let prefix = if n % 2 == 0 { 0 } else { 1 };
        assert_eq!(
            table.add_node(Node::as_good(id_with_prefix(prefix, n), addr(n as u16), 0), 0),
            AddOutcome::Added
        );
    }
    assert_eq!(table.buckets().len(), 1);
    let ninth = Node::as_good(id_with_prefix(2, 50), addr(50), 0);
    assert_eq!(table.add_node(ninth, 0), AddOutcome::Added);
    assert_eq!(table.buckets().len(), 2);
    assert_eq!(table.buckets()[0].len(), 4);
    assert_eq!(table.buckets()[1].len(), 5);
    for node in table.buckets()[0].nodes.iter() {
        assert_eq!(Id::zero().common_prefix_len(&node.id()), 0);
    }
    for node in table.buckets()[1].nodes.iter() {
        assert!(Id::zero().common_prefix_len(&node.id()) >= 1);
    }
    assert_eq!(table.closest_nodes(Id::zero(), 0).len(), 9);
}

#[test]
fn full_bucket_that_cannot_be_split_applies_the_bucket_policy() {
    let mut table = RoutingTable::new(Id::zero());
    // nine nodes that share no leading bit with the own id
    for n in 0..8u64 {
        table.add_node(Node::as_good(id_with_prefix(0, n), addr(n as u16), 0), 0);
    }
    // one node on the other side makes the table split
    table.add_node(Node::as_good(id_with_prefix(5, 1), addr(99), 0), 0);
    assert_eq!(table.buckets().len(), 2);
    assert_eq!(table.buckets()[0].len(), 8);
    // bucket 0 is full of good nodes and is not the last: the newcomer is turned away
    let newcomer = Node::as_good(id_with_prefix(0, 1000), addr(1000), 0);
    assert_eq!(table.add_node(newcomer, 0), AddOutcome::Rejected);
    assert_eq!(table.buckets().len(), 2);
    assert_eq!(table.find_node(&newcomer.handle), None);
}

#[test]
fn splitting_goes_on_until_the_node_fits() {
    let mut table = RoutingTable::new(Id::zero());
    // eight nodes that all share exactly five leading bits with the own id
    for n in 0..8u64 {
        table.add_node(Node::as_good(id_with_prefix(5, n), addr(n as u16), 0), 0);
    }
    // a node that shares nine bits needs buckets 0..=6 at least
    let deep = Node::as_good(id_with_prefix(9, 1), addr(100), 0);
    assert_eq!(table.add_node(deep, 0), AddOutcome::Added);
    assert_eq!(table.buckets().len(), 7);
    assert_eq!(table.buckets()[5].len(), 8);
    assert_eq!(table.buckets()[6].len(), 1);
    assert_eq!(table.bucket_index(&deep.id()), 6);
    assert_eq!(table.find_node(&deep.handle), Some(deep));
}

#[test]
fn closest_nodes_walks_the_buckets_outward() {
    let mut table = RoutingTable::new(Id::zero());
    // fill bucket after bucket, so that the table has buckets 0..=4
    let mut salt = 0u64;
    for prefix in [0, 1, 2, 3] {
        for _ in 0..8 {
            salt += 1;
            table.add_node(Node::as_good(id_with_prefix(prefix, salt), addr(salt as u16), 0), 0);
        }
    }
    table.add_node(Node::as_good(id_with_prefix(4, 1), addr(500), 0), 0);
    assert_eq!(table.buckets().len(), 5);
    let target = id_with_prefix(2, 0);
    assert_eq!(table.bucket_index(&target), 2);
    let listed = table.closest_nodes(target, 0);
    assert_eq!(listed.len(), 33);
    let turns: Vec<usize> = listed.iter().map(|n| table.bucket_index(&n.id())).collect();
    let mut expected = vec![2; 8];
    expected.extend(vec![1; 8]);
    expected.extend(vec![3; 8]);
    expected.extend(vec![0; 8]);
    expected.extend(vec![4; 1]);
    assert_eq!(turns, expected);
    // within the first bucket the nodes come by distance to the target
    for pair in listed[..8].windows(2) {
        assert!(pair[0].id().nearer(&pair[1].id(), &target));
    }
}

#[test]
fn closest_nodes_lists_good_before_questionable_before_bad_in_a_bucket() {
    let mut table = RoutingTable::new(Id::zero());
    let bad = Node::as_bad(id_with_prefix(0, 1), addr(1));
    let questionable = Node::as_questionable(id_with_prefix(0, 2), addr(2));
    let good = Node::as_good(id_with_prefix(0, 3), addr(3), 0);
    table.add_node(questionable, 0);
    table.add_node(good, 0);
    // a bad node only gets a place by update of a known node
    table.add_node(Node::as_questionable(bad.id(), bad.addr()), 0);
    table.update_node(bad);
    let listed = table.closest_nodes(id_with_prefix(0, 1), 0);
    assert_eq!(ids(&listed), vec![good.id(), questionable.id(), bad.id()]);
    assert_eq!(table.num_good_nodes(0), 1);
}

#[test]
fn insertion_never_loses_an_id_unless_a_bad_node_is_evicted() {
    let mut table = RoutingTable::new(Id::zero());
    let mut known: Vec<Id> = Vec::new();
    let mut salt = 0u64;
    for round in 0..40u64 {
        salt += 1;
        let prefix = (round % 7) as usize;
        let node = Node::as_good(id_with_prefix(prefix, salt), addr(salt as u16), 0);
        let before = ids(&table.closest_nodes(Id::zero(), 0));
        let outcome = table.add_node(node, 0);
        let after = ids(&table.closest_nodes(Id::zero(), 0));
        for id in before.iter() {
            assert!(after.contains(id));
        }
        assert!(!matches!(outcome, AddOutcome::Evicted(_)));
        if matches!(outcome, AddOutcome::Added) {
            known.push(node.id());
        }
    }
    let listed = ids(&table.closest_nodes(Id::zero(), 0));
    assert_eq!(listed.len(), known.len());
    for id in known {
        assert!(listed.contains(&id));
    }
}

#[test]
fn eviction_of_a_bad_node_loses_its_id() {
    let mut table = RoutingTable::new(Id::zero());
    for n in 0..8u64 {
        table.add_node(Node::as_good(id_with_prefix(0, n), addr(n as u16), 0), 0);
    }
    table.add_node(Node::as_good(id_with_prefix(3, 1), addr(99), 0), 0);
    let victim = Node::as_bad(id_with_prefix(0, 4), addr(4));
    assert!(table.update_node(victim));
    let newcomer = Node::as_good(id_with_prefix(0, 77), addr(77), 0);
    assert_eq!(table.add_node(newcomer, 0), AddOutcome::Evicted(victim.handle));
    let listed = ids(&table.closest_nodes(Id::zero(), 0));
    assert!(!listed.contains(&victim.id()));
    assert!(listed.contains(&newcomer.id()));
}

#[test]
fn events_update_the_stored_node() {
    let mut table = RoutingTable::new(Id::zero());
    let node = Node::as_questionable(id_with_prefix(1, 1), addr(1));
    table.add_node(node, 0);
    assert!(table.remote_request(&node.handle, 10));
    assert_eq!(table.find_node(&node.handle).unwrap().status(10), NodeStatus::Good);
    assert!(table.local_request(&node.handle, 11));
    assert_eq!(table.find_node(&node.handle).unwrap().last_request, Some(11));
    assert!(table.local_response(&node.handle, 12));
    let stored = table.find_node(&node.handle).unwrap();
    assert_eq!(stored.last_request, None);
    assert_eq!(stored.last_seen, Some(12));
    assert!(!table.local_timeout(&node.handle));
    assert_eq!(table.find_node(&node.handle).unwrap().strikes, 1);
    let unknown = NodeHandle::new(id_with_prefix(1, 2), addr(2));
    assert!(!table.remote_request(&unknown, 10));
    assert!(!table.local_request(&unknown, 10));
    assert!(!table.local_response(&unknown, 10));
    assert!(!table.update_node(Node::as_good(unknown.id, unknown.addr, 0)));
}

#[test]
fn num_good_nodes_counts_over_all_buckets() {
    let mut table = RoutingTable::new(Id::zero());
    let mut salt = 0u64;
    for prefix in [0, 1, 2] {
        for _ in 0..8 {
            salt += 1;
            table.add_node(Node::as_good(id_with_prefix(prefix, salt), addr(salt as u16), 0), 0);
        }
    }
    table.add_node(Node::as_questionable(id_with_prefix(3, 1), addr(900)), 0);
    assert_eq!(table.num_good_nodes(0), 24);
    assert_eq!(table.num_good_nodes(15 * 60_000_000_000), 0);
}

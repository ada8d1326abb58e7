use btdht::address::{IpAddress, SocketAddress};
use btdht::id::{InfoHash, INFO_HASH_LEN};
use btdht::storage::{AnnounceStorage, EXPIRATION_TIME, MAX_ITEMS_STORED};

fn dummy_socket_addr_v4() -> SocketAddress {
    SocketAddress::new(IpAddress::v4(127, 0, 0, 1), 0)
}

fn dummy_block_socket_addrs(num_addrs: u16) -> Vec<SocketAddress> {
    let mut addr_block = Vec::with_capacity(num_addrs as usize);
    for port in 0..num_addrs {
        addr_block.push(SocketAddress::new(IpAddress::v4(127, 0, 0, 1), port));
    }
    addr_block
}

#[test]
fn positive_add_and_retrieve_contact() {
    let mut announce_store = AnnounceStorage::new();
    let info_hash: InfoHash = [0u8; INFO_HASH_LEN].into();
    let sock_addr = dummy_socket_addr_v4();

    assert!(announce_store.add_item(info_hash, sock_addr));

    let items: Vec<_> = announce_store.find_items(&info_hash);
    assert_eq!(items.len(), 1);

    assert_eq!(items[0], sock_addr);
}

#[test]
fn positive_add_and_retrieve_contacts() {
    let mut announce_store = AnnounceStorage::new();
    let info_hash: InfoHash = [0u8; INFO_HASH_LEN].into();
    let sock_addrs = dummy_block_socket_addrs(MAX_ITEMS_STORED as u16);

    for sock_addr in sock_addrs.iter() {
        assert!(announce_store.add_item(info_hash, *sock_addr));
    }

    let items: Vec<_> = announce_store.find_items(&info_hash);
    assert_eq!(items.len(), MAX_ITEMS_STORED);

    for item in items.iter() {
        assert!(sock_addrs.iter().any(|s| s == item));
    }
}

#[test]
fn positive_renew_contacts() {
    let mut announce_store = AnnounceStorage::new();
    let info_hash: InfoHash = [0u8; INFO_HASH_LEN].into();
    let sock_addrs = dummy_block_socket_addrs((MAX_ITEMS_STORED + 1) as u16);

    for sock_addr in sock_addrs.iter().take(MAX_ITEMS_STORED) {
        assert!(announce_store.add_item(info_hash, *sock_addr));
    }

    // Try to add a new item
    let other_info_hash: InfoHash = [1u8; INFO_HASH_LEN].into();

    // Returns false because it wasnt added
    assert!(!announce_store.add_item(other_info_hash, sock_addrs[sock_addrs.len() - 1]));
    // Iterator is empty because it wasnt added
    let count = announce_store.find_items(&other_info_hash).len();
    assert_eq!(count, 0);

    // Try to add all of the initial nodes again (renew)
    for sock_addr in sock_addrs.iter().take(MAX_ITEMS_STORED) {
        assert!(announce_store.add_item(info_hash, *sock_addr));
    }
}

#[test]
fn positive_full_storage_expire_one_infohash() {
    let mut announce_store = AnnounceStorage::new();
    let info_hash: InfoHash = [0u8; INFO_HASH_LEN].into();
    let sock_addrs = dummy_block_socket_addrs((MAX_ITEMS_STORED + 1) as u16);

    // Fill up the announce storage completely
    for sock_addr in sock_addrs.iter().take(MAX_ITEMS_STORED) {
        assert!(announce_store.add_item(info_hash, *sock_addr));
    }

    // Try to add a new item into the storage (under a different info hash)
    let other_info_hash: InfoHash = [1u8; INFO_HASH_LEN].into();

    // Returned false because it wasnt added
    assert!(!announce_store.add_item(other_info_hash, sock_addrs[sock_addrs.len() - 1]));
    // Iterator is empty because it wasnt added
    let count = announce_store.find_items(&other_info_hash).len();
    assert_eq!(count, 0);

    // Try to add a new item into the storage mocking the current time
    let mock_current_time = announce_store.now() + EXPIRATION_TIME;
    assert!(announce_store.add(
        other_info_hash,
        sock_addrs[sock_addrs.len() - 1],
        mock_current_time
    ));
    // Iterator is not empty because it was added
    let count = announce_store.find_items(&other_info_hash).len();
    assert_eq!(count, 1);
}

#[test]
fn positive_full_storage_expire_two_infohash() {
    let mut announce_store = AnnounceStorage::new();
    let info_hash_one: InfoHash = [0u8; INFO_HASH_LEN].into();
    let info_hash_two: InfoHash = [1u8; INFO_HASH_LEN].into();
    let sock_addrs = dummy_block_socket_addrs((MAX_ITEMS_STORED + 1) as u16);

    // Fill up first info hash
    let num_contacts_first = MAX_ITEMS_STORED / 2;
    for sock_addr in sock_addrs.iter().take(num_contacts_first) {
        assert!(announce_store.add_item(info_hash_one, *sock_addr));
    }

    // Fill up second info hash
    let num_contacts_second = MAX_ITEMS_STORED - num_contacts_first;
    for sock_addr in sock_addrs
        .iter()
        .skip(num_contacts_first)
        .take(num_contacts_second)
    {
        assert!(announce_store.add_item(info_hash_two, *sock_addr));
    }

    // Try to add a third info hash with a contact
    let info_hash_three: InfoHash = [2u8; INFO_HASH_LEN].into();
    assert!(!announce_store.add_item(info_hash_three, sock_addrs[sock_addrs.len() - 1]));
    // Iterator is empty because it was not added
    let count = announce_store.find_items(&info_hash_three).len();
    assert_eq!(count, 0);

    // Try to add a new item into the storage mocking the current time
    let mock_current_time = announce_store.now() + EXPIRATION_TIME;
    assert!(announce_store.add(
        info_hash_three,
        sock_addrs[sock_addrs.len() - 1],
        mock_current_time
    ));
    // Iterator is not empty because it was added
    let count = announce_store.find_items(&info_hash_three).len();
    assert_eq!(count, 1);
}

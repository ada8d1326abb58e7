use btdht::address::{IpAddress, SocketAddress};
use btdht::id::{InfoHash, INFO_HASH_LEN};
use btdht::storage::{
    AnnounceItem, AnnounceStorage, ItemExpiration, EXPIRATION_TIME, MAX_ITEMS_STORED,
};

fn addr(port: u16) -> SocketAddress {
    SocketAddress::new(IpAddress::v4(127, 0, 0, 1), port)
}

fn hash(byte: u8) -> InfoHash {
    [byte; INFO_HASH_LEN].into()
}

fn full_storage() -> AnnounceStorage {
    let mut store = AnnounceStorage::new();
    for port in 0..MAX_ITEMS_STORED as u16 {
        assert!(store.add(hash(0), addr(port), port as u128));
    }
    store
}

#[test]
fn storage_constants() {
    assert_eq!(MAX_ITEMS_STORED, 500);
    assert_eq!(EXPIRATION_TIME, 24 * 60 * 60 * 1_000_000_000);
}

#[test]
fn storage_add_and_find() {
    let mut store = AnnounceStorage::new();
    assert!(store.add(hash(0), SocketAddress::new(IpAddress::v4(127, 0, 0, 1), 6881), 0));
    assert_eq!(store.find(&hash(0), 0), vec![SocketAddress::new(IpAddress::v4(127, 0, 0, 1), 6881)]);
    assert_eq!(store.find(&hash(1), 0), vec![]);
    assert_eq!(store.len(), 1);
}

#[test]
fn fill_to_cap() {
    let mut store = full_storage();
    assert_eq!(store.len(), 500);
    assert!(!store.add(hash(1), addr(500), 500));
    assert!(store.find(&hash(1), 500).is_empty());
    assert_eq!(store.len(), 500);
}

#[test]
fn expire_then_accept() {
    let mut store = full_storage();
    assert!(!store.add(hash(1), addr(500), 500));
    // a day after the first announcement only that one has expired
    assert!(store.add(hash(1), addr(500), EXPIRATION_TIME));
    assert_eq!(store.len(), 500);
    assert_eq!(store.find(&hash(1), EXPIRATION_TIME), vec![addr(500)]);
    assert!(!store.find(&hash(0), EXPIRATION_TIME).contains(&addr(0)));
    assert!(store.find(&hash(0), EXPIRATION_TIME).contains(&addr(1)));
    // a day after the last all of them have
    assert!(store.find(&hash(0), EXPIRATION_TIME + 499).is_empty());
    assert_eq!(store.find(&hash(1), EXPIRATION_TIME + 499), vec![addr(500)]);
    assert_eq!(store.len(), 1);
}

#[test]
fn renew_is_idempotent() {
    let mut store = full_storage();
    for port in 0..MAX_ITEMS_STORED as u16 {
        assert!(store.add(hash(0), addr(port), 1000 + port as u128));
        assert_eq!(store.len(), 500);
    }
    assert_eq!(store.find(&hash(0), 2000).len(), 500);
}

#[test]
fn renewal_moves_the_expiration() {
    let mut store = AnnounceStorage::new();
    assert!(store.add(hash(0), addr(1), 100));
    assert!(store.add(hash(0), addr(2), 200));
    assert!(store.add(hash(0), addr(1), 300));
    // the first announcement of the first contact has expired, but it was renewed
    assert_eq!(store.find(&hash(0), 100 + EXPIRATION_TIME), vec![addr(1), addr(2)]);
    // the second contact goes first now
    assert_eq!(store.find(&hash(0), 200 + EXPIRATION_TIME), vec![addr(1)]);
    assert_eq!(store.find(&hash(0), 300 + EXPIRATION_TIME - 1), vec![addr(1)]);
    assert!(store.find(&hash(0), 300 + EXPIRATION_TIME).is_empty());
}

#[test]
fn expiration_is_at_exactly_one_day() {
    let mut store = AnnounceStorage::new();
    assert!(store.add(hash(3), addr(1), 5));
    assert_eq!(store.find(&hash(3), 5 + EXPIRATION_TIME - 1), vec![addr(1)]);
    assert!(store.find(&hash(3), 5 + EXPIRATION_TIME).is_empty());
    assert_eq!(store.len(), 0);
    // a time before the announcement expires nothing
    assert!(store.add(hash(3), addr(1), 5));
    assert_eq!(store.find(&hash(3), 0), vec![addr(1)]);
}

#[test]
fn pruning_stops_at_the_first_entry_that_has_not_expired() {
    let mut store = AnnounceStorage::new();
    // the clock runs backwards between the two announcements
    assert!(store.add(hash(0), addr(1), 1000));
    assert!(store.add(hash(0), addr(2), 100));
    let found = store.find(&hash(0), 100 + EXPIRATION_TIME);
    assert_eq!(found, vec![addr(1), addr(2)]);
}

#[test]
fn same_address_under_two_hashes_counts_twice() {
    let mut store = AnnounceStorage::new();
    assert!(store.add(hash(0), addr(1), 0));
    assert!(store.add(hash(1), addr(1), 0));
    assert_eq!(store.len(), 2);
    assert_eq!(store.find(&hash(0), 1), vec![addr(1)]);
    assert_eq!(store.find(&hash(1), 1), vec![addr(1)]);
}

#[test]
fn cap_holds_over_any_sequence() {
    let mut store = AnnounceStorage::new();
    let mut now = 0u128;
    for round in 0..2000u32 {
        now += (round as u128 % 7) * EXPIRATION_TIME / 100;
        let h = hash((round % 3) as u8);
        if round % 5 == 4 {
            store.find(&h, now);
        } else {
            store.add(h, addr((round * 7 % 1500) as u16), now);
        }
        assert!(store.len() <= MAX_ITEMS_STORED);
    }
}

#[test]
fn items_and_expirations() {
    let item = AnnounceItem::new(hash(1), addr(2), 30);
    assert_eq!(item.info_hash(), hash(1));
    assert_eq!(item.address(), addr(2));
    let expiration = item.expiration();
    assert_eq!(expiration.info_hash(), hash(1));
    assert_eq!(expiration.address(), addr(2));
    assert_eq!(expiration.inserted, 30);
    assert!(!expiration.is_expired(30 + EXPIRATION_TIME - 1));
    assert!(expiration.is_expired(30 + EXPIRATION_TIME));
    assert!(!expiration.is_expired(0));
    // entries are equal when they are the same contact, whenever they were announced
    assert_eq!(expiration, ItemExpiration::new(hash(1), addr(2), 99));
    assert_ne!(expiration, ItemExpiration::new(hash(1), addr(3), 30));
    assert_ne!(expiration, ItemExpiration::new(hash(2), addr(2), 30));
    assert_eq!(item, AnnounceItem::new(hash(1), addr(2), 0));
}

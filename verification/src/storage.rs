use crate::address::SocketAddress;
use crate::clock::{Clock, Timestamp};
use crate::id::InfoHash;
use vstd::prelude::*;
use vstd::std_specs::cmp::PartialEqSpecImpl;

verus! {

/// The most contacts that the storage holds at any time, over all info-hashes.
pub const MAX_ITEMS_STORED: usize = 500;

/// How long a contact is kept after it was last announced: 24 hours, in nanoseconds.
pub const EXPIRATION_TIME: u128 = 86_400_000_000_000;

/// One entry of the expiration queue: a contact for an info-hash and the
/// time at which it was last announced.
#[derive(Debug, Clone, Copy)]
pub struct ItemExpiration {
    pub address: SocketAddress,
    pub inserted: Timestamp,
    pub info_hash: InfoHash,
}

impl ItemExpiration {
    pub fn new(info_hash: InfoHash, address: SocketAddress, inserted: Timestamp) -> (item:
        ItemExpiration)
        ensures
            item == (ItemExpiration { address, inserted, info_hash }),
    {
        ItemExpiration { address, inserted, info_hash }
    }

    /// Whether the entry has been in the queue for the whole expiration
    /// time at `now`. An entry announced after `now` has not expired.
    pub open spec fn spec_is_expired(self, now: Timestamp) -> bool {
        now >= self.inserted && now - self.inserted >= EXPIRATION_TIME
    }

    /// Whether the entry is the contact `address` for `info_hash`.
    pub open spec fn is_contact(self, info_hash: InfoHash, address: SocketAddress) -> bool {
        self.info_hash == info_hash && self.address == address
    }

    pub fn is_expired(&self, now: Timestamp) -> (expired: bool)
        ensures
            expired == self.spec_is_expired(now),
    {
        now >= self.inserted && now - self.inserted >= EXPIRATION_TIME
    }

    pub fn info_hash(&self) -> (info_hash: InfoHash)
        ensures
            info_hash == self.info_hash,
    {
        self.info_hash
    }

    pub fn address(&self) -> (address: SocketAddress)
        ensures
            address == self.address,
    {
        self.address
    }
}

/// Two entries are equal when they are the same contact for the same
/// info-hash, whenever they were announced.
impl PartialEq for ItemExpiration {
    fn eq(&self, other: &ItemExpiration) -> (r: bool) {
        self.address == other.address && self.info_hash == other.info_hash
    }
}

impl PartialEqSpecImpl for ItemExpiration {
    open spec fn obeys_eq_spec() -> bool {
        true
    }

    open spec fn eq_spec(&self, other: &ItemExpiration) -> bool {
        self.address == other.address && self.info_hash == other.info_hash
    }
}

impl Eq for ItemExpiration {

}

/// A stored contact.
#[derive(Debug, Clone, Copy)]
pub struct AnnounceItem {
    pub expiration: ItemExpiration,
}

impl AnnounceItem {
    pub fn new(info_hash: InfoHash, address: SocketAddress, inserted: Timestamp) -> (item:
        AnnounceItem)
        ensures
            item.expiration == (ItemExpiration { address, inserted, info_hash }),
    {
        AnnounceItem { expiration: ItemExpiration::new(info_hash, address, inserted) }
    }

    pub fn expiration(&self) -> (expiration: ItemExpiration)
        ensures
            expiration == self.expiration,
    {
        self.expiration
    }

    pub fn address(&self) -> (address: SocketAddress)
        ensures
            address == self.expiration.address,
    {
        self.expiration.address()
    }

    pub fn info_hash(&self) -> (info_hash: InfoHash)
        ensures
            info_hash == self.expiration.info_hash,
    {
        self.expiration.info_hash()
    }
}

impl PartialEq for AnnounceItem {
    fn eq(&self, other: &AnnounceItem) -> (r: bool) {
        self.expiration == other.expiration
    }
}

impl PartialEqSpecImpl for AnnounceItem {
    open spec fn obeys_eq_spec() -> bool {
        true
    }

    open spec fn eq_spec(&self, other: &AnnounceItem) -> bool {
        self.expiration.address == other.expiration.address && self.expiration.info_hash
            == other.expiration.info_hash
    }
}

impl Eq for AnnounceItem {

}

/// Whether the queue holds the contact `address` for `info_hash`.
pub open spec fn queue_has(
    queue: Seq<ItemExpiration>,
    info_hash: InfoHash,
    address: SocketAddress,
) -> bool {
    exists|j: int| 0 <= j < queue.len() && (#[trigger] queue[j]).is_contact(info_hash, address)
}

/// No contact occurs twice in the queue.
pub open spec fn queue_unique(queue: Seq<ItemExpiration>) -> bool {
    forall|i: int, j: int|
        0 <= i < j < queue.len() ==> !(#[trigger] queue[i]).is_contact(
            (#[trigger] queue[j]).info_hash,
            queue[j].address,
        )
}

/// The entries are in the order of their announcement times.
pub open spec fn queue_chronological(queue: Seq<ItemExpiration>) -> bool {
    forall|i: int, j: int|
        0 <= i < j < queue.len() ==> (#[trigger] queue[i]).inserted <= (#[trigger] queue[j]).inserted
}

/// The contacts that the queue holds for `info_hash`.
pub open spec fn contacts_of(queue: Seq<ItemExpiration>, info_hash: InfoHash) -> Set<
    SocketAddress,
> {
    Set::new(|address: SocketAddress| queue_has(queue, info_hash, address))
}

/// The number of entries at the head of the queue that have expired at `now`.
pub open spec fn expired_prefix_len(queue: Seq<ItemExpiration>, now: Timestamp) -> nat
    decreases queue.len(),
{
    if queue.len() == 0 || !queue[0].spec_is_expired(now) {
        0
    } else {
        1 + expired_prefix_len(queue.drop_first(), now)
    }
}

/// The queue without the entries at its head that have expired at `now`.
/// The scan stops at the first entry that has not expired.
pub open spec fn prune(queue: Seq<ItemExpiration>, now: Timestamp) -> Seq<ItemExpiration> {
    queue.skip(expired_prefix_len(queue, now) as int)
}

/// The queue without the contact `address` for `info_hash`.
pub open spec fn without_contact(
    queue: Seq<ItemExpiration>,
    info_hash: InfoHash,
    address: SocketAddress,
) -> Seq<ItemExpiration> {
    queue.filter(other_contact(info_hash, address))
}

/// The entries that are not the contact `address` for `info_hash`.
pub open spec fn other_contact(info_hash: InfoHash, address: SocketAddress) -> spec_fn(
    ItemExpiration,
) -> bool {
    |e: ItemExpiration| !e.is_contact(info_hash, address)
}

/// What announcing `address` for `info_hash` at `now` makes of the queue,
/// and whether the contact is stored afterwards. Expired entries leave
/// first. A contact that is present moves to the tail with the new time. A
/// new contact is appended while there is room, and refused otherwise.
pub open spec fn spec_add(
    queue: Seq<ItemExpiration>,
    info_hash: InfoHash,
    address: SocketAddress,
    now: Timestamp,
) -> (Seq<ItemExpiration>, bool) {
    let live = prune(queue, now);
    let entry = ItemExpiration { address, inserted: now, info_hash };
    if queue_has(live, info_hash, address) {
        (without_contact(live, info_hash, address).push(entry), true)
    } else if live.len() < MAX_ITEMS_STORED {
        (live.push(entry), true)
    } else {
        (live, false)
    }
}

/// The contacts listed under one info-hash, in the order of their first announcement.
struct ContactList {
    info_hash: InfoHash,
    items: Vec<AnnounceItem>,
}

spec fn list_has(list: ContactList, address: SocketAddress) -> bool {
    exists|m: int| 0 <= m < list.items@.len() && (#[trigger] list.items@[m]).expiration.address == address
}

spec fn list_wf(list: ContactList) -> bool {
    &&& list.items@.len() > 0
    &&& forall|m: int|
        0 <= m < list.items@.len() ==> (#[trigger] list.items@[m]).expiration.info_hash
            == list.info_hash
    &&& forall|m: int, n: int|
        0 <= m < n < list.items@.len() ==> (#[trigger] list.items@[m]).expiration.address != (
        #[trigger] list.items@[n]).expiration.address
}

spec fn store_has(store: Seq<ContactList>, info_hash: InfoHash, address: SocketAddress) -> bool {
    exists|k: int| 0 <= k < store.len() && (#[trigger] store[k]).info_hash == info_hash && list_has(store[k], address)
}

spec fn store_wf(store: Seq<ContactList>) -> bool {
    &&& forall|k: int| 0 <= k < store.len() ==> list_wf(#[trigger] store[k])
    &&& forall|k: int, l: int|
        0 <= k < l < store.len() ==> (#[trigger] store[k]).info_hash != (#[trigger] store[l]).info_hash
}

/// The index of the list kept for `info_hash`, if there is one.
fn find_list(store: &Vec<ContactList>, info_hash: InfoHash) -> (found: Option<usize>)
    ensures
        match found {
            Some(k) => k < store@.len() && store@[k as int].info_hash == info_hash,
            None => forall|k: int| 0 <= k < store@.len() ==> (#[trigger] store@[k]).info_hash != info_hash,
        },
{
    let mut k: usize = 0;
    while k < store.len()
        invariant
            k <= store@.len(),
            forall|l: int| 0 <= l < k ==> (#[trigger] store@[l]).info_hash != info_hash,
        decreases store@.len() - k,
    {
        if store[k].info_hash == info_hash {
            return Some(k);
        }
        k += 1;
    }
    None
}

/// The index of `address` in a list, if it is there.
fn find_address(items: &Vec<AnnounceItem>, address: SocketAddress) -> (found: Option<usize>)
    ensures
        match found {
            Some(m) => m < items@.len() && items@[m as int].expiration.address == address,
            None => forall|m: int|
                0 <= m < items@.len() ==> (#[trigger] items@[m]).expiration.address != address,
        },
{
    let mut m: usize = 0;
    while m < items.len()
        invariant
            m <= items@.len(),
            forall|n: int| 0 <= n < m ==> (#[trigger] items@[n]).expiration.address != address,
        decreases items@.len() - m,
    {
        if items[m].expiration.address == address {
            return Some(m);
        }
        m += 1;
    }
    None
}

/// Whether the store lists `address` under `info_hash`.
fn store_contains(store: &Vec<ContactList>, info_hash: InfoHash, address: SocketAddress) -> (r: bool)
    requires
        store_wf(store@),
    ensures
        r == store_has(store@, info_hash, address),
{
    match find_list(store, info_hash) {
        Some(k) => {
            let found = find_address(&store[k].items, address);
            proof {
                if found is None && store_has(store@, info_hash, address) {
                    let l = choose|l: int|
                        0 <= l < store@.len() && (#[trigger] store@[l]).info_hash == info_hash
                            && list_has(store@[l], address);
                    assert(l == k);
                }
            }
            found.is_some()
        },
        None => false,
    }
}

/// Lists a contact that the store does not hold yet.
fn store_insert(store: &mut Vec<ContactList>, item: AnnounceItem)
    requires
        store_wf(old(store)@),
        !store_has(old(store)@, item.expiration.info_hash, item.expiration.address),
    ensures
        store_wf(final(store)@),
        forall|h: InfoHash, a: SocketAddress|
            #![trigger store_has(final(store)@, h, a)]
            store_has(final(store)@, h, a) == (store_has(old(store)@, h, a) || (h
                == item.expiration.info_hash && a == item.expiration.address)),
{
    let info_hash = item.expiration.info_hash;
    let address = item.expiration.address;
    let ghost before = store@;
    match find_list(store, info_hash) {
        Some(k) => {
            let mut list = store.remove(k);
            proof {
                assert(list_wf(before[k as int]));
                assert forall|m: int| 0 <= m < list.items@.len() implies (
                #[trigger] list.items@[m]).expiration.address != address by {
                    if list.items@[m].expiration.address == address {
                        assert(list_has(before[k as int], address));
                        assert(store_has(before, info_hash, address));
                    }
                }
            }
            let ghost old_items = list.items@;
            list.items.push(item);
            store.insert(k, list);
            proof {
                let after = store@;
                assert(after.len() == before.len());
                assert(after[k as int].items@ == old_items.push(item));
                assert forall|l: int| 0 <= l < after.len() && l != k implies after[l] == before[l] by {}
                assert(store_wf(after)) by {
                    assert forall|l: int| 0 <= l < after.len() implies list_wf(
                        #[trigger] after[l],
                    ) by {
                        if l != k {
                            assert(list_wf(before[l]));
                        }
                    }
                    assert forall|l: int, n: int| 0 <= l < n < after.len() implies (
                    #[trigger] after[l]).info_hash != (#[trigger] after[n]).info_hash by {
                        assert(before[l].info_hash != before[n].info_hash);
                    }
                }
                assert forall|h: InfoHash, a: SocketAddress|
                    store_has(after, h, a) == (store_has(before, h, a) || (h == info_hash && a
                        == address)) by {
                    if store_has(after, h, a) {
                        let l = choose|l: int|
                            0 <= l < after.len() && (#[trigger] after[l]).info_hash == h
                                && list_has(after[l], a);
                        if l != k {
                            assert(list_has(before[l], a));
                        } else {
                            let m = choose|m: int|
                                0 <= m < after[l].items@.len() && (
                                #[trigger] after[l].items@[m]).expiration.address == a;
                            if m < old_items.len() {
                                assert(before[k as int].items@[m].expiration.address == a);
                                assert(list_has(before[k as int], a));
                            }
                        }
                    }
                    if store_has(before, h, a) {
                        let l = choose|l: int|
                            0 <= l < before.len() && (#[trigger] before[l]).info_hash == h
                                && list_has(before[l], a);
                        let m = choose|m: int|
                            0 <= m < before[l].items@.len() && (
                            #[trigger] before[l].items@[m]).expiration.address == a;
                        assert(after[l].items@[m].expiration.address == a);
                        assert(list_has(after[l], a));
                    }
                    if h == info_hash && a == address {
                        assert(after[k as int].items@[old_items.len() as int].expiration.address
                            == a);
                        assert(list_has(after[k as int], a));
                    }
                }
            }
        },
        None => {
            let mut items: Vec<AnnounceItem> = Vec::new();
            items.push(item);
            store.push(ContactList { info_hash, items });
            proof {
                let after = store@;
                let last = before.len() as int;
                assert(after[last].items@[0] == item);
                assert forall|l: int| 0 <= l < before.len() implies after[l] == before[l] by {}
                assert(store_wf(after)) by {
                    assert forall|l: int| 0 <= l < after.len() implies list_wf(
                        #[trigger] after[l],
                    ) by {
                        if l < last {
                            assert(list_wf(before[l]));
                        }
                    }
                    assert forall|l: int, n: int| 0 <= l < n < after.len() implies (
                    #[trigger] after[l]).info_hash != (#[trigger] after[n]).info_hash by {
                        if n < last {
                            assert(before[l].info_hash != before[n].info_hash);
                        } else {
                            assert(before[l].info_hash != info_hash);
                        }
                    }
                }
                assert forall|h: InfoHash, a: SocketAddress|
                    store_has(after, h, a) == (store_has(before, h, a) || (h == info_hash && a
                        == address)) by {
                    if store_has(after, h, a) {
                        let l = choose|l: int|
                            0 <= l < after.len() && (#[trigger] after[l]).info_hash == h
                                && list_has(after[l], a);
                        if l < last {
                            assert(before[l].info_hash == h && list_has(before[l], a));
                        } else {
                            let m = choose|m: int|
                                0 <= m < after[l].items@.len() && (
                                #[trigger] after[l].items@[m]).expiration.address == a;
                            assert(m == 0);
                        }
                    }
                    if store_has(before, h, a) {
                        let l = choose|l: int|
                            0 <= l < before.len() && (#[trigger] before[l]).info_hash == h
                                && list_has(before[l], a);
                        assert(after[l].info_hash == h && list_has(after[l], a));
                    }
                    if h == info_hash && a == address {
                        assert(list_has(after[last], a));
                    }
                }
            }
        },
    }
}

/// Takes a contact off the store, and its list with it when that becomes empty.
fn store_remove(store: &mut Vec<ContactList>, info_hash: InfoHash, address: SocketAddress)
    requires
        store_wf(old(store)@),
    ensures
        store_wf(final(store)@),
        forall|h: InfoHash, a: SocketAddress|
            #![trigger store_has(final(store)@, h, a)]
            store_has(final(store)@, h, a) == (store_has(old(store)@, h, a) && !(h == info_hash
                && a == address)),
{
    let ghost before = store@;
    let found = find_list(store, info_hash);
    if found.is_none() {
        proof {
            assert forall|h: InfoHash, a: SocketAddress|
                store_has(before, h, a) implies !(h == info_hash && a == address) by {
                let l = choose|l: int|
                    0 <= l < before.len() && (#[trigger] before[l]).info_hash == h && list_has(
                        before[l],
                        a,
                    );
            }
        }
        return ;
    }
    let k = found.unwrap();
    let position = find_address(&store[k].items, address);
    if position.is_none() {
        proof {
            assert forall|h: InfoHash, a: SocketAddress|
                store_has(before, h, a) implies !(h == info_hash && a == address) by {
                let l = choose|l: int|
                    0 <= l < before.len() && (#[trigger] before[l]).info_hash == h && list_has(
                        before[l],
                        a,
                    );
                if h == info_hash && a == address {
                    assert(l == k);
                    let m = choose|m: int|
                        0 <= m < before[l].items@.len() && (
                        #[trigger] before[l].items@[m]).expiration.address == a;
                }
            }
        }
        return ;
    }
    let m = position.unwrap();
    let mut list = store.remove(k);
    let ghost old_items = list.items@;
    let ghost rest = store@;
    list.items.remove(m);
    let ghost new_items = list.items@;
    proof {
        assert(list_wf(before[k as int]));
        assert(new_items == old_items.remove(m as int));
        assert forall|n: int| 0 <= n < new_items.len() implies (
        #[trigger] new_items[n]).expiration.address != address && new_items[n].expiration.info_hash
            == info_hash by {
            if n < m {
                assert(new_items[n] == old_items[n]);
            } else {
                assert(new_items[n] == old_items[n + 1]);
            }
        }
    }
    if list.items.len() > 0 {
        store.insert(k, list);
        proof {
            let after = store@;
            assert(after.len() == before.len());
            assert forall|l: int| 0 <= l < after.len() && l != k implies after[l] == before[l] by {}
            assert(after[k as int].items@ == new_items);
            assert(list_wf(after[k as int])) by {
                assert forall|n: int, o: int| 0 <= n < o < new_items.len() implies (
                #[trigger] new_items[n]).expiration.address != (
                #[trigger] new_items[o]).expiration.address by {
                    let n2 = if n < m { n } else { n + 1 };
                    let o2 = if o < m { o } else { o + 1 };
                    assert(new_items[n] == old_items[n2]);
                    assert(new_items[o] == old_items[o2]);
                }
            }
            assert(store_wf(after)) by {
                assert forall|l: int| 0 <= l < after.len() implies list_wf(#[trigger] after[l]) by {
                    if l != k {
                        assert(list_wf(before[l]));
                    }
                }
                assert forall|l: int, n: int| 0 <= l < n < after.len() implies (
                #[trigger] after[l]).info_hash != (#[trigger] after[n]).info_hash by {
                    assert(before[l].info_hash != before[n].info_hash);
                }
            }
            assert forall|h: InfoHash, a: SocketAddress|
                store_has(after, h, a) == (store_has(before, h, a) && !(h == info_hash && a
                    == address)) by {
                if store_has(after, h, a) {
                    let l = choose|l: int|
                        0 <= l < after.len() && (#[trigger] after[l]).info_hash == h && list_has(
                            after[l],
                            a,
                        );
                    if l != k {
                        assert(list_has(before[l], a));
                        assert(before[l].info_hash != before[k as int].info_hash);
                    } else {
                        let n = choose|n: int|
                            0 <= n < new_items.len() && (
                            #[trigger] after[l].items@[n]).expiration.address == a;
                        let n2 = if n < m { n } else { n + 1 };
                        assert(new_items[n] == old_items[n2]);
                        assert(before[k as int].items@[n2].expiration.address == a);
                        assert(list_has(before[k as int], a));
                    }
                }
                if store_has(before, h, a) && !(h == info_hash && a == address) {
                    let l = choose|l: int|
                        0 <= l < before.len() && (#[trigger] before[l]).info_hash == h && list_has(
                            before[l],
                            a,
                        );
                    if l != k {
                        assert(after[l].info_hash == h && list_has(after[l], a));
                    } else {
                        let n = choose|n: int|
                            0 <= n < old_items.len() && (
                            #[trigger] before[l].items@[n]).expiration.address == a;
                        assert(n != m);
                        let n2 = if n < m { n } else { n - 1 };
                        assert(new_items[n2] == old_items[n]);
                        assert(after[k as int].items@[n2].expiration.address == a);
                        assert(list_has(after[k as int], a));
                    }
                }
            }
        }
    } else {
        proof {
            let after = store@;
            assert(after == before.remove(k as int));
            assert(old_items.len() == 1);
            assert(store_wf(after)) by {
                assert forall|l: int| 0 <= l < after.len() implies list_wf(#[trigger] after[l]) by {
                    let l2 = if l < k { l } else { l + 1 };
                    assert(after[l] == before[l2]);
                    assert(list_wf(before[l2]));
                }
                assert forall|l: int, n: int| 0 <= l < n < after.len() implies (
                #[trigger] after[l]).info_hash != (#[trigger] after[n]).info_hash by {
                    let l2 = if l < k { l } else { l + 1 };
                    let n2 = if n < k { n } else { n + 1 };
                    assert(after[l] == before[l2]);
                    assert(after[n] == before[n2]);
                    assert(before[l2].info_hash != before[n2].info_hash);
                }
            }
            assert forall|h: InfoHash, a: SocketAddress|
                store_has(after, h, a) == (store_has(before, h, a) && !(h == info_hash && a
                    == address)) by {
                if store_has(after, h, a) {
                    let l = choose|l: int|
                        0 <= l < after.len() && (#[trigger] after[l]).info_hash == h && list_has(
                            after[l],
                            a,
                        );
                    let l2 = if l < k { l } else { l + 1 };
                    assert(after[l] == before[l2]);
                    assert(before[l2].info_hash == h && list_has(before[l2], a));
                    assert(before[l2].info_hash != before[k as int].info_hash);
                }
                if store_has(before, h, a) && !(h == info_hash && a == address) {
                    let l = choose|l: int|
                        0 <= l < before.len() && (#[trigger] before[l]).info_hash == h && list_has(
                            before[l],
                            a,
                        );
                    if l == k {
                        let n = choose|n: int|
                            0 <= n < old_items.len() && (
                            #[trigger] before[l].items@[n]).expiration.address == a;
                        assert(n == m);
                    } else {
                        let l2 = if l < k { l } else { l - 1 };
                        assert(after[l2] == before[l]);
                        assert(after[l2].info_hash == h && list_has(after[l2], a));
                    }
                }
            }
        }
    }
}

/// What taking a contact out of a queue keeps and what it drops.
pub proof fn lemma_without_contact(
    queue: Seq<ItemExpiration>,
    info_hash: InfoHash,
    address: SocketAddress,
)
    ensures
        !queue_has(without_contact(queue, info_hash, address), info_hash, address),
        forall|h: InfoHash, a: SocketAddress|
            !(h == info_hash && a == address) ==> queue_has(
                without_contact(queue, info_hash, address),
                h,
                a,
            ) == queue_has(queue, h, a),
        without_contact(queue, info_hash, address).len() <= queue.len(),
        queue_has(queue, info_hash, address) ==> without_contact(queue, info_hash, address).len()
            < queue.len(),
        !queue_has(queue, info_hash, address) ==> without_contact(queue, info_hash, address)
            == queue,
        queue_unique(queue) ==> queue_unique(without_contact(queue, info_hash, address)),
        queue_chronological(queue) ==> queue_chronological(
            without_contact(queue, info_hash, address),
        ),
        forall|i: int|
            0 <= i < without_contact(queue, info_hash, address).len() ==> queue.contains(
                #[trigger] without_contact(queue, info_hash, address)[i],
            ),
    decreases queue.len(),
{
    let pred = other_contact(info_hash, address);
    let kept = without_contact(queue, info_hash, address);
    if queue.len() == 0 {
        assert(kept =~= queue);
    } else {
        let head = queue.drop_last();
        let last = queue.last();
        let kept_head = without_contact(head, info_hash, address);
        lemma_without_contact(head, info_hash, address);
        assert(queue =~= head.push(last));
        head.lemma_filter_push(last, pred);
        assert(kept == if pred(last) {
            kept_head.push(last)
        } else {
            kept_head
        });
        assert(!queue_has(kept, info_hash, address)) by {
            if queue_has(kept, info_hash, address) {
                let j = choose|j: int|
                    0 <= j < kept.len() && (#[trigger] kept[j]).is_contact(info_hash, address);
                if j < kept_head.len() {
                    assert(kept_head[j].is_contact(info_hash, address));
                }
            }
        }
        assert forall|h: InfoHash, a: SocketAddress| !(h == info_hash && a == address) implies queue_has(
            kept,
            h,
            a,
        ) == queue_has(queue, h, a) by {
            if queue_has(kept, h, a) {
                let j = choose|j: int| 0 <= j < kept.len() && (#[trigger] kept[j]).is_contact(h, a);
                if j < kept_head.len() {
                    assert(kept_head[j].is_contact(h, a));
                    assert(queue_has(head, h, a));
                    let i = choose|i: int| 0 <= i < head.len() && (#[trigger] head[i]).is_contact(h, a);
                    assert(queue[i].is_contact(h, a));
                } else {
                    assert(queue[queue.len() - 1].is_contact(h, a));
                }
            }
            if queue_has(queue, h, a) {
                let i = choose|i: int| 0 <= i < queue.len() && (#[trigger] queue[i]).is_contact(h, a);
                if i < head.len() {
                    assert(head[i].is_contact(h, a));
                    assert(queue_has(head, h, a));
                    assert(queue_has(kept_head, h, a));
                    let j = choose|j: int|
                        0 <= j < kept_head.len() && (#[trigger] kept_head[j]).is_contact(h, a);
                    assert(kept[j].is_contact(h, a));
                } else {
                    assert(kept[kept.len() - 1].is_contact(h, a));
                }
            }
        }
        if queue_has(queue, info_hash, address) {
            let i = choose|i: int|
                0 <= i < queue.len() && (#[trigger] queue[i]).is_contact(info_hash, address);
            if i < head.len() {
                assert(head[i].is_contact(info_hash, address));
            }
        } else {
            if queue_has(head, info_hash, address) {
                let i = choose|i: int|
                    0 <= i < head.len() && (#[trigger] head[i]).is_contact(info_hash, address);
                assert(queue[i].is_contact(info_hash, address));
            }
            assert(queue[queue.len() - 1] == last);
            assert(kept =~= queue);
        }
        assert forall|i: int| 0 <= i < kept.len() implies queue.contains(#[trigger] kept[i]) by {
            if i < kept_head.len() {
                assert(head.contains(kept_head[i]));
                let j = choose|j: int| 0 <= j < head.len() && head[j] == kept_head[i];
                assert(queue[j] == kept[i]);
            } else {
                assert(queue[queue.len() - 1] == kept[i]);
            }
        }
        if queue_unique(queue) {
            assert(queue_unique(head)) by {
                assert forall|i: int, j: int| 0 <= i < j < head.len() implies !(
                #[trigger] head[i]).is_contact((#[trigger] head[j]).info_hash, head[j].address) by {
                    assert(!queue[i].is_contact(queue[j].info_hash, queue[j].address));
                }
            }
            assert forall|i: int, j: int| 0 <= i < j < kept.len() implies !(
            #[trigger] kept[i]).is_contact((#[trigger] kept[j]).info_hash, kept[j].address) by {
                if j < kept_head.len() {
                    assert(!kept_head[i].is_contact(kept_head[j].info_hash, kept_head[j].address));
                } else {
                    assert(head.contains(kept_head[i]));
                    let l = choose|l: int| 0 <= l < head.len() && head[l] == kept_head[i];
                    assert(!queue[l].is_contact(
                        queue[queue.len() - 1].info_hash,
                        queue[queue.len() - 1].address,
                    ));
                }
            }
        }
        if queue_chronological(queue) {
            assert(queue_chronological(head)) by {
                assert forall|i: int, j: int| 0 <= i < j < head.len() implies (
                #[trigger] head[i]).inserted <= (#[trigger] head[j]).inserted by {
                    assert(queue[i].inserted <= queue[j].inserted);
                }
            }
            assert forall|i: int, j: int| 0 <= i < j < kept.len() implies (
            #[trigger] kept[i]).inserted <= (#[trigger] kept[j]).inserted by {
                if j < kept_head.len() {
                    assert(kept_head[i].inserted <= kept_head[j].inserted);
                } else {
                    assert(head.contains(kept_head[i]));
                    let l = choose|l: int| 0 <= l < head.len() && head[l] == kept_head[i];
                    assert(queue[l].inserted <= queue[queue.len() - 1].inserted);
                }
            }
        }
    }
}

/// The expired head of a queue is as long as a count from the front finds it.
pub proof fn lemma_expired_prefix_len(queue: Seq<ItemExpiration>, now: Timestamp, n: int)
    requires
        0 <= n <= queue.len(),
        forall|j: int| 0 <= j < n ==> (#[trigger] queue[j]).spec_is_expired(now),
        n < queue.len() ==> !queue[n].spec_is_expired(now),
    ensures
        expired_prefix_len(queue, now) == n,
    decreases n,
{
    if n > 0 {
        assert(queue[0].spec_is_expired(now));
        let rest = queue.drop_first();
        assert forall|j: int| 0 <= j < n - 1 implies (#[trigger] rest[j]).spec_is_expired(now) by {
            assert(rest[j] == queue[j + 1]);
        }
        lemma_expired_prefix_len(rest, now, n - 1);
    }
}

/// Pruning drops a head of expired entries and stops at an entry that has not expired.
pub proof fn lemma_prune(queue: Seq<ItemExpiration>, now: Timestamp)
    ensures
        expired_prefix_len(queue, now) <= queue.len(),
        forall|j: int|
            0 <= j < expired_prefix_len(queue, now) ==> (#[trigger] queue[j]).spec_is_expired(now),
        expired_prefix_len(queue, now) < queue.len() ==> !queue[expired_prefix_len(
            queue,
            now,
        ) as int].spec_is_expired(now),
        prune(queue, now).len() <= queue.len(),
        prune(queue, now).len() > 0 ==> !prune(queue, now)[0].spec_is_expired(now),
        forall|h: InfoHash, a: SocketAddress|
            queue_has(prune(queue, now), h, a) ==> queue_has(queue, h, a),
        queue_unique(queue) ==> queue_unique(prune(queue, now)),
        queue_chronological(queue) ==> queue_chronological(prune(queue, now)),
    decreases queue.len(),
{
    let n = expired_prefix_len(queue, now) as int;
    if queue.len() == 0 || !queue[0].spec_is_expired(now) {
    } else {
        let rest = queue.drop_first();
        lemma_prune(rest, now);
        assert forall|j: int| 0 <= j < n implies (#[trigger] queue[j]).spec_is_expired(now) by {
            if j > 0 {
                assert(queue[j] == rest[j - 1]);
            }
        }
        if n < queue.len() {
            assert(queue[n] == rest[n - 1]);
        }
    }
    let live = prune(queue, now);
    assert forall|h: InfoHash, a: SocketAddress| queue_has(live, h, a) implies queue_has(
        queue,
        h,
        a,
    ) by {
        let j = choose|j: int| 0 <= j < live.len() && (#[trigger] live[j]).is_contact(h, a);
        assert(queue[j + n].is_contact(h, a));
    }
    if queue_unique(queue) {
        assert forall|i: int, j: int| 0 <= i < j < live.len() implies !(
        #[trigger] live[i]).is_contact((#[trigger] live[j]).info_hash, live[j].address) by {
            assert(!queue[i + n].is_contact(queue[j + n].info_hash, queue[j + n].address));
        }
    }
    if queue_chronological(queue) {
        assert forall|i: int, j: int| 0 <= i < j < live.len() implies (
        #[trigger] live[i]).inserted <= (#[trigger] live[j]).inserted by {
            assert(queue[i + n].inserted <= queue[j + n].inserted);
        }
    }
}

/// The queue without the contact `address` for `info_hash`.
fn queue_without(queue: &Vec<ItemExpiration>, info_hash: InfoHash, address: SocketAddress) -> (kept:
    Vec<ItemExpiration>)
    ensures
        kept@ == without_contact(queue@, info_hash, address),
{
    let mut kept: Vec<ItemExpiration> = Vec::new();
    let mut i: usize = 0;
    let item = ItemExpiration::new(info_hash, address, 0);
    proof {
        assert(queue@.take(0) =~= Seq::<ItemExpiration>::empty());
        assert(without_contact(queue@.take(0), info_hash, address) =~= Seq::<
            ItemExpiration,
        >::empty());
    }
    while i < queue.len()
        invariant
            i <= queue@.len(),
            item.is_contact(info_hash, address),
            kept@ == without_contact(queue@.take(i as int), info_hash, address),
        decreases queue@.len() - i,
    {
        proof {
            assert(queue@.take(i + 1) =~= queue@.take(i as int).push(queue@[i as int]));
            queue@.take(i as int).lemma_filter_push(
                queue@[i as int],
                other_contact(info_hash, address),
            );
        }
        if queue[i] != item {
            kept.push(queue[i]);
        }
        i += 1;
    }
    proof {
        assert(queue@.take(i as int) =~= queue@);
    }
    kept
}

/// Storage of the contacts that were announced for info-hashes. A contact
/// is kept for the expiration time after its last announcement, and the
/// storage holds a bounded number of contacts in all.
pub struct AnnounceStorage {
    storage: Vec<ContactList>,
    expires: Vec<ItemExpiration>,
    clock: Clock,
}

impl View for AnnounceStorage {
    type V = Seq<ItemExpiration>;

    /// The expiration queue: every stored contact once, from the one
    /// announced longest ago to the one announced last.
    closed spec fn view(&self) -> Seq<ItemExpiration> {
        self.expires@
    }
}

impl AnnounceStorage {
    /// The lists by info-hash hold the contacts of the queue, each once.
    pub closed spec fn wf(&self) -> bool {
        &&& store_wf(self.storage@)
        &&& queue_unique(self.expires@)
        &&& self.expires@.len() <= MAX_ITEMS_STORED
        &&& forall|h: InfoHash, a: SocketAddress|
            #![trigger store_has(self.storage@, h, a)]
            #![trigger queue_has(self.expires@, h, a)]
            store_has(self.storage@, h, a) == queue_has(self.expires@, h, a)
    }

    /// A well-formed storage holds no contact twice and no more than the maximum.
    pub proof fn lemma_wf(&self)
        requires
            self.wf(),
        ensures
            queue_unique(self@),
            self@.len() <= MAX_ITEMS_STORED,
    {
    }

    /// Creates an empty storage.
    pub fn new() -> (storage: AnnounceStorage)
        ensures
            storage.wf(),
            storage@ == Seq::<ItemExpiration>::empty(),
    {
        let storage = AnnounceStorage {
            storage: Vec::new(),
            expires: Vec::new(),
            clock: Clock::new(),
        };
        proof {
            assert forall|h: InfoHash, a: SocketAddress|
                store_has(storage.storage@, h, a) == queue_has(storage.expires@, h, a) by {}
        }
        storage
    }

    /// The current time on the storage's own clock, which `add_item` and
    /// `find_items` go by.
    pub fn now(&self) -> Timestamp {
        self.clock.now()
    }

    /// Number of contacts stored, expired ones that were not yet pruned included.
    pub fn len(&self) -> (n: usize)
        ensures
            n == self@.len(),
    {
        self.expires.len()
    }

    /// Announces `address` for `info_hash` at the current time. Returns true
    /// if the contact was added or its expiration renewed, false if the
    /// storage is full.
    pub fn add_item(&mut self, info_hash: InfoHash, address: SocketAddress) -> (added: bool)
        requires
            old(self).wf(),
        ensures
            final(self).wf(),
            exists|now: Timestamp|
                (final(self)@, added) == #[trigger] spec_add(old(self)@, info_hash, address, now),
    {
        let now = self.clock.now();
        self.add(info_hash, address, now)
    }

    /// Announces `address` for `info_hash` at `curr_time`.
    pub fn add(&mut self, info_hash: InfoHash, address: SocketAddress, curr_time: Timestamp) -> (added:
        bool)
        requires
            old(self).wf(),
        ensures
            final(self).wf(),
            (final(self)@, added) == spec_add(old(self)@, info_hash, address, curr_time),
    {
        // Clear out any old contacts that we have stored
        self.remove_expired_items(curr_time);
        let item = AnnounceItem::new(info_hash, address, curr_time);
        let item_expiration = item.expiration();
        let ghost live = self.expires@;
        let ghost store = self.storage@;

        // Check if we already have the item and want to update its expiration
        match self.insert_contact(item) {
            Some(true) => {
                let kept = queue_without(&self.expires, info_hash, address);
                self.expires = kept;
                self.expires.push(item_expiration);
                proof {
                    lemma_without_contact(live, info_hash, address);
                    let kept = without_contact(live, info_hash, address);
                    lemma_push_contact(kept, item_expiration);
                    assert forall|h: InfoHash, a: SocketAddress|
                        store_has(self.storage@, h, a) == queue_has(self.expires@, h, a) by {
                        assert(queue_has(kept.push(item_expiration), h, a) == (queue_has(kept, h, a)
                            || item_expiration.is_contact(h, a)));
                        if h == info_hash && a == address {
                        } else {
                            assert(queue_has(kept, h, a) == queue_has(live, h, a));
                        }
                    }
                }
                true
            },
            Some(false) => {
                self.expires.push(item_expiration);
                proof {
                    lemma_push_contact(live, item_expiration);
                    assert forall|h: InfoHash, a: SocketAddress|
                        store_has(self.storage@, h, a) == queue_has(self.expires@, h, a) by {
                        assert(queue_has(live.push(item_expiration), h, a) == (queue_has(live, h, a)
                            || item_expiration.is_contact(h, a)));
                    }
                }
                true
            },
            None => {
                proof {
                    assert forall|h: InfoHash, a: SocketAddress|
                        store_has(self.storage@, h, a) == queue_has(self.expires@, h, a) by {}
                }
                false
            },
        }
    }

    /// The contacts stored for `info_hash` at the current time, each once.
    pub fn find_items(&mut self, info_hash: &InfoHash) -> (found: Vec<SocketAddress>)
        requires
            old(self).wf(),
        ensures
            final(self).wf(),
            exists|now: Timestamp| final(self)@ == #[trigger] prune(old(self)@, now),
            found@.no_duplicates(),
            found@.to_set() == contacts_of(final(self)@, *info_hash),
    {
        let now = self.clock.now();
        self.find(info_hash, now)
    }

    /// The contacts stored for `info_hash` at `curr_time`, each once.
    pub fn find(&mut self, info_hash: &InfoHash, curr_time: Timestamp) -> (found: Vec<SocketAddress>)
        requires
            old(self).wf(),
        ensures
            final(self).wf(),
            final(self)@ == prune(old(self)@, curr_time),
            found@.no_duplicates(),
            found@.to_set() == contacts_of(final(self)@, *info_hash),
    {
        // Clear out any old contacts that we have stored
        self.remove_expired_items(curr_time);
        let mut found: Vec<SocketAddress> = Vec::new();
        match find_list(&self.storage, *info_hash) {
            Some(k) => {
                let items = &self.storage[k].items;
                let mut m: usize = 0;
                while m < items.len()
                    invariant
                        m <= items@.len(),
                        found@.len() == m,
                        forall|n: int| 0 <= n < m ==> #[trigger] found@[n] == items@[n].expiration.address,
                    decreases items@.len() - m,
                {
                    found.push(items[m].address());
                    m += 1;
                }
                proof {
                    assert(list_wf(self.storage@[k as int]));
                    assert forall|i: int, j: int| 0 <= i < j < found@.len() implies found@[i]
                        != found@[j] by {
                        assert(items@[i].expiration.address != items@[j].expiration.address);
                    }
                    assert forall|a: SocketAddress|
                        found@.to_set().contains(a) == contacts_of(self@, *info_hash).contains(
                            a,
                        ) by {
                        if found@.contains(a) {
                            let n = choose|n: int| 0 <= n < found@.len() && found@[n] == a;
                            assert(items@[n].expiration.address == a);
                            assert(list_has(self.storage@[k as int], a));
                            assert(store_has(self.storage@, *info_hash, a));
                        }
                        if store_has(self.storage@, *info_hash, a) {
                            let l = choose|l: int|
                                0 <= l < self.storage@.len() && (
                                #[trigger] self.storage@[l]).info_hash == *info_hash && list_has(
                                    self.storage@[l],
                                    a,
                                );
                            assert(l == k);
                            let n = choose|n: int|
                                0 <= n < items@.len() && (#[trigger] items@[n]).expiration.address
                                    == a;
                            assert(found@[n] == a);
                        }
                    }
                    assert(found@.to_set() =~= contacts_of(self@, *info_hash));
                }
            },
            None => {
                proof {
                    assert forall|a: SocketAddress|
                        found@.to_set().contains(a) == contacts_of(self@, *info_hash).contains(
                            a,
                        ) by {
                        if store_has(self.storage@, *info_hash, a) {
                            let l = choose|l: int|
                                0 <= l < self.storage@.len() && (
                                #[trigger] self.storage@[l]).info_hash == *info_hash && list_has(
                                    self.storage@[l],
                                    a,
                                );
                        }
                    }
                    assert(found@.to_set() =~= contacts_of(self@, *info_hash));
                }
            },
        }
        found
    }

    /// Lists the contact in the store unless the queue holds it already or
    /// is full. Returns `None` if the contact could not be listed,
    /// `Some(true)` if it was listed already, and `Some(false)` if it was
    /// not and is now.
    fn insert_contact(&mut self, item: AnnounceItem) -> (listed: Option<bool>)
        requires
            old(self).wf(),
        ensures
            final(self).expires == old(self).expires,
            store_wf(final(self).storage@),
            listed == if queue_has(
                old(self)@,
                item.expiration.info_hash,
                item.expiration.address,
            ) {
                Some(true)
            } else if old(self)@.len() < MAX_ITEMS_STORED {
                Some(false)
            } else {
                None
            },
            forall|h: InfoHash, a: SocketAddress|
                #![trigger store_has(final(self).storage@, h, a)]
                store_has(final(self).storage@, h, a) == (queue_has(old(self)@, h, a) || (listed
                    == Some(false) && h == item.expiration.info_hash && a
                    == item.expiration.address)),
    {
        let item_info_hash = item.info_hash();

        // Check if the contact is already in our list
        let already_in_list = store_contains(&self.storage, item_info_hash, item.address());

        // Check if we need to insert it into the list and if we have room
        if already_in_list {
            Some(true)
        } else if self.expires.len() < MAX_ITEMS_STORED {
            // Place it into the appropriate list
            store_insert(&mut self.storage, item);
            Some(false)
        } else {
            None
        }
    }

    /// Prunes all expired items from the head of the queue.
    fn remove_expired_items(&mut self, curr_time: Timestamp)
        requires
            old(self).wf(),
        ensures
            final(self).wf(),
            final(self)@ == prune(old(self)@, curr_time),
    {
        let ghost queue = self.expires@;
        let mut num_expired_items: usize = 0;
        while num_expired_items < self.expires.len() && self.expires[num_expired_items].is_expired(
            curr_time,
        )
            invariant
                self.expires@ == queue,
                num_expired_items <= queue.len(),
                forall|j: int|
                    0 <= j < num_expired_items ==> (#[trigger] queue[j]).spec_is_expired(curr_time),
            decreases queue.len() - num_expired_items,
        {
            num_expired_items += 1;
        }
        proof {
            lemma_expired_prefix_len(queue, curr_time, num_expired_items as int);
            assert(queue.skip(0) =~= queue);
        }

        // Remove the contacts of the expired entries from their lists
        let mut i: usize = 0;
        while i < num_expired_items
            invariant
                i <= num_expired_items <= queue.len(),
                self.expires@ == queue,
                queue_unique(queue),
                store_wf(self.storage@),
                forall|h: InfoHash, a: SocketAddress|
                    #![trigger store_has(self.storage@, h, a)]
                    store_has(self.storage@, h, a) == queue_has(queue.skip(i as int), h, a),
            decreases num_expired_items - i,
        {
            let item_expiration = self.expires[i];
            store_remove(&mut self.storage, item_expiration.info_hash(), item_expiration.address());
            proof {
                lemma_skip_contact(queue, i as int);
            }
            i += 1;
        }

        // Remove the expired entries from the head of the queue
        let live = self.expires.split_off(num_expired_items);
        self.expires = live;
        proof {
            assert(self.expires@ =~= queue.skip(num_expired_items as int));
            lemma_prune(queue, curr_time);
        }
    }
}

/// What a queue holds once an entry is appended to it.
pub proof fn lemma_push_contact(queue: Seq<ItemExpiration>, entry: ItemExpiration)
    ensures
        forall|h: InfoHash, a: SocketAddress|
            #![trigger queue_has(queue.push(entry), h, a)]
            queue_has(queue.push(entry), h, a) == (queue_has(queue, h, a) || entry.is_contact(
                h,
                a,
            )),
        queue_unique(queue) && !queue_has(queue, entry.info_hash, entry.address) ==> queue_unique(
            queue.push(entry),
        ),
{
    let after = queue.push(entry);
    assert forall|h: InfoHash, a: SocketAddress|
        queue_has(after, h, a) == (queue_has(queue, h, a) || entry.is_contact(h, a)) by {
        if queue_has(after, h, a) {
            let j = choose|j: int| 0 <= j < after.len() && (#[trigger] after[j]).is_contact(h, a);
            if j < queue.len() {
                assert(queue[j].is_contact(h, a));
            }
        }
        if queue_has(queue, h, a) {
            let j = choose|j: int| 0 <= j < queue.len() && (#[trigger] queue[j]).is_contact(h, a);
            assert(after[j].is_contact(h, a));
        }
        if entry.is_contact(h, a) {
            assert(after[queue.len() as int].is_contact(h, a));
        }
    }
    if queue_unique(queue) && !queue_has(queue, entry.info_hash, entry.address) {
        assert forall|i: int, j: int| 0 <= i < j < after.len() implies !(
        #[trigger] after[i]).is_contact((#[trigger] after[j]).info_hash, after[j].address) by {
            if j < queue.len() {
                assert(!queue[i].is_contact(queue[j].info_hash, queue[j].address));
            } else {
                assert(queue[i] == after[i]);
            }
        }
    }
}

/// In a queue without repetitions, what follows an entry holds every
/// contact that the queue holds from that entry on, but the entry's own.
pub proof fn lemma_skip_contact(queue: Seq<ItemExpiration>, i: int)
    requires
        0 <= i < queue.len(),
        queue_unique(queue),
    ensures
        forall|h: InfoHash, a: SocketAddress|
            #![trigger queue_has(queue.skip(i + 1), h, a)]
            queue_has(queue.skip(i + 1), h, a) == (queue_has(queue.skip(i), h, a) && !queue[i].is_contact(
                h,
                a,
            )),
{
    let from = queue.skip(i);
    let after = queue.skip(i + 1);
    assert forall|h: InfoHash, a: SocketAddress|
        queue_has(after, h, a) == (queue_has(from, h, a) && !queue[i].is_contact(h, a)) by {
        if queue_has(after, h, a) {
            let j = choose|j: int| 0 <= j < after.len() && (#[trigger] after[j]).is_contact(h, a);
            assert(from[j + 1].is_contact(h, a));
            assert(!queue[i].is_contact(queue[i + 1 + j].info_hash, queue[i + 1 + j].address));
        }
        if queue_has(from, h, a) && !queue[i].is_contact(h, a) {
            let j = choose|j: int| 0 <= j < from.len() && (#[trigger] from[j]).is_contact(h, a);
            assert(j > 0);
            assert(after[j - 1].is_contact(h, a));
        }
    }
}

} // verus!

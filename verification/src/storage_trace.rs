use crate::address::SocketAddress;
use crate::clock::Timestamp;
use crate::id::InfoHash;
use crate::storage::{
    contacts_of, expired_prefix_len, lemma_prune, lemma_push_contact, lemma_without_contact,
    other_contact, prune, queue_chronological, queue_has, queue_unique, spec_add,
    without_contact, ItemExpiration, EXPIRATION_TIME, MAX_ITEMS_STORED,
};
use vstd::prelude::*;

verus! {

/// One call on the announce storage, with the time at which it is made.
pub enum StorageOp {
    /// `address` is announced for `info_hash`.
    Add { info_hash: InfoHash, address: SocketAddress, now: Timestamp },
    /// The contacts of `info_hash` are asked for.
    Find { info_hash: InfoHash, now: Timestamp },
}

impl StorageOp {
    /// The time at which the call is made.
    pub open spec fn time(self) -> Timestamp {
        match self {
            StorageOp::Add { now, .. } => now,
            StorageOp::Find { now, .. } => now,
        }
    }

    /// Whether the call announces `address` for `info_hash`.
    pub open spec fn announces(self, info_hash: InfoHash, address: SocketAddress) -> bool {
        match self {
            StorageOp::Add { info_hash: h, address: a, .. } => h == info_hash && a == address,
            StorageOp::Find { .. } => false,
        }
    }
}

/// The queue after one call.
pub open spec fn apply(queue: Seq<ItemExpiration>, op: StorageOp) -> Seq<ItemExpiration> {
    match op {
        StorageOp::Add { info_hash, address, now } => spec_add(queue, info_hash, address, now).0,
        StorageOp::Find { now, .. } => prune(queue, now),
    }
}

/// The queue after a sequence of calls, made in order.
pub open spec fn run(queue: Seq<ItemExpiration>, ops: Seq<StorageOp>) -> Seq<ItemExpiration>
    decreases ops.len(),
{
    if ops.len() == 0 {
        queue
    } else {
        apply(run(queue, ops.drop_last()), ops.last())
    }
}

/// A queue as the storage keeps it: no contact twice, no more than the maximum.
pub open spec fn queue_valid(queue: Seq<ItemExpiration>) -> bool {
    queue_unique(queue) && queue.len() <= MAX_ITEMS_STORED
}

/// Every entry of the queue was announced at `now` or before.
pub open spec fn queue_until(queue: Seq<ItemExpiration>, now: Timestamp) -> bool {
    forall|j: int| 0 <= j < queue.len() ==> (#[trigger] queue[j]).inserted <= now
}

/// None of the calls is made before `start`, and none at `end` or later.
pub open spec fn ops_between(ops: Seq<StorageOp>, start: Timestamp, end: int) -> bool {
    forall|i: int| 0 <= i < ops.len() ==> start <= (#[trigger] ops[i]).time() < end
}

/// The calls are made in the order of their times, none before `start` and none at `end` or later.
pub open spec fn ops_within(ops: Seq<StorageOp>, start: Timestamp, end: int) -> bool {
    &&& ops_between(ops, start, end)
    &&& forall|i: int, j: int|
        0 <= i < j < ops.len() ==> (#[trigger] ops[i]).time() <= (#[trigger] ops[j]).time()
}

/// The queue holds the contact with an announcement time of `since` or later.
pub open spec fn held_since(
    queue: Seq<ItemExpiration>,
    info_hash: InfoHash,
    address: SocketAddress,
    since: Timestamp,
) -> bool {
    exists|j: int|
        0 <= j < queue.len() && (#[trigger] queue[j]).is_contact(info_hash, address) && queue[j].inserted
            >= since
}

/// Every entry for the contact was announced at `until` or before.
pub open spec fn announced_until(
    queue: Seq<ItemExpiration>,
    info_hash: InfoHash,
    address: SocketAddress,
    until: Timestamp,
) -> bool {
    forall|j: int|
        0 <= j < queue.len() && (#[trigger] queue[j]).is_contact(info_hash, address)
            ==> queue[j].inserted <= until
}

/// An announcement leaves the queue valid, and stores the contact with the
/// time of the call unless it is refused.
pub proof fn lemma_add_valid(
    queue: Seq<ItemExpiration>,
    info_hash: InfoHash,
    address: SocketAddress,
    now: Timestamp,
)
    requires
        queue_valid(queue),
    ensures
        queue_valid(spec_add(queue, info_hash, address, now).0),
        spec_add(queue, info_hash, address, now).1 ==> held_since(
            spec_add(queue, info_hash, address, now).0,
            info_hash,
            address,
            now,
        ),
        !spec_add(queue, info_hash, address, now).1 ==> spec_add(queue, info_hash, address, now).0.len()
            == MAX_ITEMS_STORED && !queue_has(
            spec_add(queue, info_hash, address, now).0,
            info_hash,
            address,
        ),
{
    let live = prune(queue, now);
    let entry = ItemExpiration { address, inserted: now, info_hash };
    lemma_prune(queue, now);
    lemma_without_contact(live, info_hash, address);
    let kept = without_contact(live, info_hash, address);
    lemma_push_contact(kept, entry);
    lemma_push_contact(live, entry);
    let after = spec_add(queue, info_hash, address, now).0;
    if spec_add(queue, info_hash, address, now).1 {
        assert(after[after.len() - 1] == entry);
    }
}

/// Every call leaves a valid queue valid.
pub proof fn lemma_apply_valid(queue: Seq<ItemExpiration>, op: StorageOp)
    requires
        queue_valid(queue),
    ensures
        queue_valid(apply(queue, op)),
{
    match op {
        StorageOp::Add { info_hash, address, now } => {
            lemma_add_valid(queue, info_hash, address, now);
        },
        StorageOp::Find { now, .. } => {
            lemma_prune(queue, now);
        },
    }
}

/// Whatever is announced and asked for, in whatever order and at whatever
/// times, the storage never holds more than the maximum number of
/// contacts, and holds none twice.
pub proof fn lemma_capacity(ops: Seq<StorageOp>)
    ensures
        run(Seq::empty(), ops).len() <= MAX_ITEMS_STORED,
        queue_unique(run(Seq::empty(), ops)),
{
    lemma_run_valid(Seq::empty(), ops);
}

/// A sequence of calls leaves a valid queue valid.
pub proof fn lemma_run_valid(queue: Seq<ItemExpiration>, ops: Seq<StorageOp>)
    requires
        queue_valid(queue),
    ensures
        queue_valid(run(queue, ops)),
    decreases ops.len(),
{
    if ops.len() > 0 {
        lemma_run_valid(queue, ops.drop_last());
        lemma_apply_valid(run(queue, ops.drop_last()), ops.last());
    }
}

/// An entry that has not expired is not pruned.
pub proof fn lemma_prune_keeps(queue: Seq<ItemExpiration>, now: Timestamp, j: int)
    requires
        0 <= j < queue.len(),
        !queue[j].spec_is_expired(now),
    ensures
        j >= expired_prefix_len(queue, now),
        prune(queue, now)[j - expired_prefix_len(queue, now)] == queue[j],
{
    lemma_prune(queue, now);
}

/// In a queue that is in the order of the announcement times, an entry
/// that has expired is pruned.
pub proof fn lemma_prune_drops(queue: Seq<ItemExpiration>, now: Timestamp, j: int)
    requires
        0 <= j < queue.len(),
        queue_chronological(queue),
        queue[j].spec_is_expired(now),
    ensures
        j < expired_prefix_len(queue, now),
{
    lemma_prune(queue, now);
    let n = expired_prefix_len(queue, now) as int;
    if n <= j {
        if n < j {
            assert(queue[n].inserted <= queue[j].inserted);
        }
        assert(queue[n].spec_is_expired(now));
    }
}

/// A contact that was announced at `since` or later is still held after a
/// call made less than the expiration time after `since`, and not before it.
pub proof fn lemma_apply_keeps(
    queue: Seq<ItemExpiration>,
    op: StorageOp,
    info_hash: InfoHash,
    address: SocketAddress,
    since: Timestamp,
)
    requires
        queue_valid(queue),
        held_since(queue, info_hash, address, since),
        since <= op.time() < since + EXPIRATION_TIME,
    ensures
        held_since(apply(queue, op), info_hash, address, since),
{
    let now = op.time();
    let j = choose|j: int|
        0 <= j < queue.len() && (#[trigger] queue[j]).is_contact(info_hash, address) && queue[j].inserted
            >= since;
    let live = prune(queue, now);
    let n = expired_prefix_len(queue, now) as int;
    lemma_prune_keeps(queue, now, j);
    assert(live[j - n] == queue[j]);
    assert(held_since(live, info_hash, address, since));
    match op {
        StorageOp::Add { info_hash: h, address: a, now } => {
            let entry = ItemExpiration { address: a, inserted: now, info_hash: h };
            let after = spec_add(queue, h, a, now).0;
            if queue_has(live, h, a) {
                let kept = without_contact(live, h, a);
                assert(after == kept.push(entry));
                if h == info_hash && a == address {
                    assert(after[after.len() - 1] == entry);
                } else {
                    live.lemma_filter_contains(other_contact(h, a), j - n);
                    let i = choose|i: int| 0 <= i < kept.len() && kept[i] == queue[j];
                    assert(after[i] == queue[j]);
                }
            } else if live.len() < MAX_ITEMS_STORED {
                assert(after[j - n] == queue[j]);
            } else {
            }
        },
        StorageOp::Find { .. } => {},
    }
}

/// A contact that is announced at `renewed` and accepted is found at every
/// time from then until the expiration time has gone by, whatever calls
/// are made in between, as long as none of them is made with a time before
/// `renewed`.
pub proof fn lemma_renewal(
    queue: Seq<ItemExpiration>,
    info_hash: InfoHash,
    address: SocketAddress,
    renewed: Timestamp,
    ops: Seq<StorageOp>,
    asked: Timestamp,
)
    requires
        queue_valid(queue),
        spec_add(queue, info_hash, address, renewed).1,
        ops_between(ops, renewed, renewed + EXPIRATION_TIME),
        renewed <= asked < renewed + EXPIRATION_TIME,
    ensures
        contacts_of(
            prune(run(spec_add(queue, info_hash, address, renewed).0, ops), asked),
            info_hash,
        ).contains(address),
{
    let start = spec_add(queue, info_hash, address, renewed).0;
    lemma_add_valid(queue, info_hash, address, renewed);
    lemma_run_keeps(start, ops, info_hash, address, renewed);
    lemma_run_valid(start, ops);
    lemma_apply_keeps(
        run(start, ops),
        StorageOp::Find { info_hash, now: asked },
        info_hash,
        address,
        renewed,
    );
}

/// A contact announced at `since` or later is still held after calls that
/// are all made less than the expiration time after `since`.
pub proof fn lemma_run_keeps(
    queue: Seq<ItemExpiration>,
    ops: Seq<StorageOp>,
    info_hash: InfoHash,
    address: SocketAddress,
    since: Timestamp,
)
    requires
        queue_valid(queue),
        held_since(queue, info_hash, address, since),
        ops_between(ops, since, since + EXPIRATION_TIME),
    ensures
        held_since(run(queue, ops), info_hash, address, since),
    decreases ops.len(),
{
    if ops.len() > 0 {
        let head = ops.drop_last();
        assert(ops_between(head, since, since + EXPIRATION_TIME)) by {
            assert forall|i: int| 0 <= i < head.len() implies since <= (#[trigger] head[i]).time()
                < since + EXPIRATION_TIME by {
                assert(head[i] == ops[i]);
            }
        }
        lemma_run_keeps(queue, head, info_hash, address, since);
        lemma_run_valid(queue, head);
        assert(ops.last() == ops[ops.len() - 1]);
        lemma_apply_keeps(run(queue, head), ops.last(), info_hash, address, since);
    }
}

/// A call made no earlier than every announcement in the queue keeps the
/// queue in the order of the announcement times, and a contact that it does
/// not announce keeps its announcement time.
pub proof fn lemma_apply_ordered(
    queue: Seq<ItemExpiration>,
    op: StorageOp,
    info_hash: InfoHash,
    address: SocketAddress,
    until: Timestamp,
)
    requires
        queue_chronological(queue),
        queue_until(queue, op.time()),
        announced_until(queue, info_hash, address, until),
        !op.announces(info_hash, address),
    ensures
        queue_chronological(apply(queue, op)),
        queue_until(apply(queue, op), op.time()),
        announced_until(apply(queue, op), info_hash, address, until),
{
    let now = op.time();
    let live = prune(queue, now);
    let n = expired_prefix_len(queue, now) as int;
    lemma_prune(queue, now);
    assert forall|j: int| 0 <= j < live.len() implies (#[trigger] live[j]) == queue[j + n] by {}
    match op {
        StorageOp::Add { info_hash: h, address: a, now } => {
            let entry = ItemExpiration { address: a, inserted: now, info_hash: h };
            let after = spec_add(queue, h, a, now).0;
            lemma_without_contact(live, h, a);
            let kept = without_contact(live, h, a);
            assert forall|i: int| 0 <= i < kept.len() implies (#[trigger] kept[i]).inserted <= now
                && (kept[i].is_contact(info_hash, address) ==> kept[i].inserted <= until) by {
                assert(live.contains(kept[i]));
                let l = choose|l: int| 0 <= l < live.len() && live[l] == kept[i];
                assert(live[l] == queue[l + n]);
            }
            if queue_has(live, h, a) {
                assert(after == kept.push(entry));
                assert forall|i: int, j: int| 0 <= i < j < after.len() implies (
                #[trigger] after[i]).inserted <= (#[trigger] after[j]).inserted by {
                    if j < kept.len() {
                        assert(kept[i].inserted <= kept[j].inserted);
                    } else {
                        assert(after[i] == kept[i]);
                    }
                }
                assert forall|j: int| 0 <= j < after.len() implies (#[trigger] after[j]).inserted
                    <= now by {
                    if j < kept.len() {
                        assert(after[j] == kept[j]);
                    }
                }
                assert forall|j: int|
                    0 <= j < after.len() && (#[trigger] after[j]).is_contact(
                        info_hash,
                        address,
                    ) implies after[j].inserted <= until by {
                    if j < kept.len() {
                        assert(after[j] == kept[j]);
                    }
                }
            } else if live.len() < MAX_ITEMS_STORED {
                assert(after == live.push(entry));
                assert forall|i: int, j: int| 0 <= i < j < after.len() implies (
                #[trigger] after[i]).inserted <= (#[trigger] after[j]).inserted by {
                    if j < live.len() {
                        assert(live[i].inserted <= live[j].inserted);
                    } else {
                        assert(after[i] == live[i]);
                    }
                }
                assert forall|j: int| 0 <= j < after.len() implies (#[trigger] after[j]).inserted
                    <= now by {
                    if j < live.len() {
                        assert(after[j] == live[j]);
                    }
                }
                assert forall|j: int|
                    0 <= j < after.len() && (#[trigger] after[j]).is_contact(
                        info_hash,
                        address,
                    ) implies after[j].inserted <= until by {
                    if j < live.len() {
                        assert(after[j] == live[j]);
                    }
                }
            } else {
            }
        },
        StorageOp::Find { .. } => {},
    }
}

/// Calls in the order of their times, none of which announces the contact,
/// keep the queue in the order of the announcement times and leave the
/// contact's announcement time as it was.
pub proof fn lemma_run_ordered(
    queue: Seq<ItemExpiration>,
    ops: Seq<StorageOp>,
    info_hash: InfoHash,
    address: SocketAddress,
    start: Timestamp,
    end: int,
)
    requires
        queue_chronological(queue),
        queue_until(queue, start),
        announced_until(queue, info_hash, address, start),
        ops_within(ops, start, end),
        forall|i: int| 0 <= i < ops.len() ==> !(#[trigger] ops[i]).announces(info_hash, address),
    ensures
        queue_chronological(run(queue, ops)),
        announced_until(run(queue, ops), info_hash, address, start),
        forall|now: Timestamp| now < end && (forall|i: int| 0 <= i < ops.len() ==> (#[trigger] ops[i]).time() <= now) && start <= now
            ==> queue_until(run(queue, ops), now),
    decreases ops.len(),
{
    if ops.len() > 0 {
        let head = ops.drop_last();
        let last = ops.last();
        assert(last == ops[ops.len() - 1]);
        assert(ops_within(head, start, end)) by {
            assert forall|i: int| 0 <= i < head.len() implies start <= (#[trigger] head[i]).time()
                < end by {
                assert(head[i] == ops[i]);
            }
            assert forall|i: int, j: int| 0 <= i < j < head.len() implies (
            #[trigger] head[i]).time() <= (#[trigger] head[j]).time() by {
                assert(head[i] == ops[i] && head[j] == ops[j]);
            }
        }
        assert forall|i: int| 0 <= i < head.len() implies !(#[trigger] head[i]).announces(
            info_hash,
            address,
        ) by {
            assert(head[i] == ops[i]);
        }
        lemma_run_ordered(queue, head, info_hash, address, start, end);
        let before = run(queue, head);
        assert(queue_until(before, last.time())) by {
            assert forall|i: int| 0 <= i < head.len() implies (#[trigger] head[i]).time()
                <= last.time() by {
                assert(head[i] == ops[i]);
                assert(ops[i].time() <= ops[ops.len() - 1].time());
            }
        }
        lemma_apply_ordered(before, last, info_hash, address, start);
        let after = run(queue, ops);
        assert forall|now: Timestamp|
            now < end && (forall|i: int| 0 <= i < ops.len() ==> (#[trigger] ops[i]).time() <= now)
                && start <= now implies queue_until(after, now) by {
            assert(ops[ops.len() - 1].time() <= now);
        }
    }
}

/// A contact that is announced at `added` and not announced again is no
/// longer found once the expiration time has gone by, provided that time
/// does not run backwards: the queue holds nothing announced after
/// `added`, and the calls that follow are made in the order of their times.
pub proof fn lemma_expiration(
    queue: Seq<ItemExpiration>,
    info_hash: InfoHash,
    address: SocketAddress,
    added: Timestamp,
    ops: Seq<StorageOp>,
    asked: Timestamp,
)
    requires
        queue_valid(queue),
        queue_chronological(queue),
        queue_until(queue, added),
        ops_within(ops, added, asked + 1),
        forall|i: int| 0 <= i < ops.len() ==> !(#[trigger] ops[i]).announces(info_hash, address),
        asked >= added + EXPIRATION_TIME,
    ensures
        !contacts_of(
            prune(run(spec_add(queue, info_hash, address, added).0, ops), asked),
            info_hash,
        ).contains(address),
{
    let start = spec_add(queue, info_hash, address, added).0;
    let live = prune(queue, added);
    let n = expired_prefix_len(queue, added) as int;
    let entry = ItemExpiration { address, inserted: added, info_hash };
    lemma_prune(queue, added);
    lemma_without_contact(live, info_hash, address);
    let kept = without_contact(live, info_hash, address);
    assert forall|j: int| 0 <= j < live.len() implies (#[trigger] live[j]) == queue[j + n] by {}
    assert forall|i: int| 0 <= i < kept.len() implies (#[trigger] kept[i]).inserted <= added by {
        assert(live.contains(kept[i]));
        let l = choose|l: int| 0 <= l < live.len() && live[l] == kept[i];
        assert(live[l] == queue[l + n]);
    }
    assert(queue_chronological(start) && queue_until(start, added)) by {
        if queue_has(live, info_hash, address) {
            assert(start == kept.push(entry));
            assert forall|i: int, j: int| 0 <= i < j < start.len() implies (
            #[trigger] start[i]).inserted <= (#[trigger] start[j]).inserted by {
                if j < kept.len() {
                    assert(kept[i].inserted <= kept[j].inserted);
                } else {
                    assert(start[i] == kept[i]);
                }
            }
            assert forall|j: int| 0 <= j < start.len() implies (#[trigger] start[j]).inserted
                <= added by {
                if j < kept.len() {
                    assert(start[j] == kept[j]);
                }
            }
        } else if live.len() < MAX_ITEMS_STORED {
            assert(start == live.push(entry));
            assert forall|i: int, j: int| 0 <= i < j < start.len() implies (
            #[trigger] start[i]).inserted <= (#[trigger] start[j]).inserted by {
                if j < live.len() {
                    assert(live[i].inserted <= live[j].inserted);
                } else {
                    assert(start[i] == live[i]);
                }
            }
            assert forall|j: int| 0 <= j < start.len() implies (#[trigger] start[j]).inserted
                <= added by {
                if j < live.len() {
                    assert(start[j] == live[j]);
                }
            }
        } else {
        }
    }
    lemma_run_ordered(start, ops, info_hash, address, added, asked + 1);
    let last = run(start, ops);
    let found = prune(last, asked);
    let m = expired_prefix_len(last, asked) as int;
    lemma_prune(last, asked);
    if queue_has(found, info_hash, address) {
        let j = choose|j: int| 0 <= j < found.len() && (#[trigger] found[j]).is_contact(info_hash, address);
        assert(found[j] == last[j + m]);
        assert(last[j + m].is_contact(info_hash, address));
        assert(last[j + m].inserted <= added);
        lemma_prune_drops(last, asked, j + m);
    }
}

} // verus!

use crate::clock::Timestamp;
use crate::id::NodeId;
use crate::routing::node::{Node, NodeHandle, NodeStatus};
use vstd::prelude::*;

verus! {

/// The most nodes that a bucket holds.
pub const MAX_BUCKET_SIZE: usize = 8;

/// A node that waits for a place in a full bucket, and the node of the
/// bucket whose silence would make room for it.
#[derive(Clone, Copy, Debug, PartialEq, Eq, Structural)]
pub struct Replacement {
    pub node: Node,
    pub probe: NodeHandle,
}

/// What became of a node that was offered to a bucket.
#[derive(Clone, Copy, Debug, PartialEq, Eq, Structural)]
pub enum AddOutcome {
    /// The node was appended.
    Added,
    /// The bucket held the node already.
    Updated,
    /// The node took the place of the bad node with this handle.
    Evicted(NodeHandle),
    /// The node waits for a place; the node with this handle is to be pinged.
    Pending(NodeHandle),
    /// The node was turned away.
    Rejected,
}

/// A bounded sequence of nodes and at most one node that waits to replace one of them.
pub struct Bucket {
    pub nodes: Vec<Node>,
    pub pending: Option<Replacement>,
}

/// What a bucket holds.
pub struct BucketView {
    pub nodes: Seq<Node>,
    pub pending: Option<Replacement>,
}

impl View for Bucket {
    type V = BucketView;

    open spec fn view(&self) -> BucketView {
        BucketView { nodes: self.nodes@, pending: self.pending }
    }
}

/// Whether one of the nodes has the handle.
pub open spec fn contains_handle(nodes: Seq<Node>, handle: NodeHandle) -> bool {
    exists|i: int| 0 <= i < nodes.len() && (#[trigger] nodes[i]).handle == handle
}

/// No two of the nodes have the same handle.
pub open spec fn handles_distinct(nodes: Seq<Node>) -> bool {
    forall|i: int, j: int|
        0 <= i < j < nodes.len() ==> (#[trigger] nodes[i]).handle != (#[trigger] nodes[j]).handle
}

/// Whether `i` is the place of the first bad node.
pub open spec fn is_first_bad(nodes: Seq<Node>, now: Timestamp, i: int) -> bool {
    &&& 0 <= i < nodes.len()
    &&& nodes[i].spec_status(now) == NodeStatus::Bad
    &&& forall|j: int| 0 <= j < i ==> (#[trigger] nodes[j]).spec_status(now) != NodeStatus::Bad
}

/// The time of the last message from a node, for comparison: a node that
/// was never heard from comes before every node that was.
pub open spec fn seen_key(node: Node) -> int {
    match node.last_seen {
        Some(seen) => seen as int,
        None => -1,
    }
}

/// Whether `i` is the place of the questionable node that was seen longest
/// ago, the first of them where several were seen at the same time.
pub open spec fn is_least_recently_seen(nodes: Seq<Node>, now: Timestamp, i: int) -> bool {
    &&& 0 <= i < nodes.len()
    &&& nodes[i].spec_status(now) == NodeStatus::Questionable
    &&& forall|j: int|
        0 <= j < nodes.len() && (#[trigger] nodes[j]).spec_status(now) == NodeStatus::Questionable
            ==> seen_key(nodes[i]) <= seen_key(nodes[j])
    &&& forall|j: int|
        0 <= j < i && (#[trigger] nodes[j]).spec_status(now) == NodeStatus::Questionable ==> seen_key(
            nodes[i],
        ) < seen_key(nodes[j])
}

/// Whether `a` comes strictly before `b` where the nodes of one bucket are
/// listed for `target` at `now`: good nodes before questionable ones before
/// bad ones, and within each class the node nearer to `target` first. Of
/// two nodes of one class at the same distance, which then have the same
/// id, the one with the address that comes first in the order of the
/// addresses is first.
pub open spec fn listed_before(a: Node, b: Node, target: NodeId, now: Timestamp) -> bool {
    let rank_a = a.spec_status(now).spec_rank();
    let rank_b = b.spec_status(now).spec_rank();
    let distance_a = a.handle.id.spec_distance(target);
    let distance_b = b.handle.id.spec_distance(target);
    rank_a < rank_b || (rank_a == rank_b && (distance_a < distance_b || (distance_a
        == distance_b && a.handle.addr.spec_before(b.handle.addr))))
}

/// Whether no node of the sequence comes strictly before a node that precedes it.
pub open spec fn listed_in_order(nodes: Seq<Node>, target: NodeId, now: Timestamp) -> bool {
    forall|p: int, q: int|
        0 <= p < q < nodes.len() ==> !listed_before(#[trigger] nodes[q], #[trigger] nodes[p], target, now)
}

impl BucketView {
    /// At most eight nodes, no handle twice; a node waits only while the
    /// bucket is full, and is not itself in the bucket.
    pub open spec fn wf(self) -> bool {
        &&& self.nodes.len() <= MAX_BUCKET_SIZE
        &&& handles_distinct(self.nodes)
        &&& forall|i: int| 0 <= i < self.nodes.len() ==> (#[trigger] self.nodes[i]).wf()
        &&& match self.pending {
            Some(replacement) => self.nodes.len() == MAX_BUCKET_SIZE && replacement.node.wf()
                && !contains_handle(self.nodes, replacement.node.handle),
            None => true,
        }
    }

    /// The waiting node after a node with the handle `entered` came into the
    /// bucket and the node with the handle `left`, if any, went: it stays
    /// unless it is the one that entered or waited for the one that left.
    pub open spec fn pending_after(self, entered: NodeHandle, left: Option<NodeHandle>) -> Option<
        Replacement,
    > {
        match self.pending {
            Some(replacement) => if replacement.node.handle == entered || left == Some(
                replacement.probe,
            ) {
                None
            } else {
                self.pending
            },
            None => None,
        }
    }

    /// Whether offering `node` at `now` makes `after` of the bucket with the
    /// outcome `outcome`.
    ///
    /// A node that the bucket holds takes the place of its entry if its
    /// status is better, and a good one ends the wait of a node that waited
    /// for its silence. Otherwise the node is appended while there is room.
    /// In a full bucket it takes the place of the first bad node. Where none
    /// is bad it waits, and the questionable node seen longest ago is to be
    /// pinged. Where all are good it is turned away.
    pub open spec fn add_node(
        self,
        node: Node,
        now: Timestamp,
        after: BucketView,
        outcome: AddOutcome,
    ) -> bool {
        if contains_handle(self.nodes, node.handle) {
            &&& outcome == AddOutcome::Updated
            &&& exists|i: int|
                0 <= i < self.nodes.len() && (#[trigger] self.nodes[i]).handle == node.handle
                    && after.nodes == if node.spec_status(now).spec_rank()
                    < self.nodes[i].spec_status(now).spec_rank() {
                    self.nodes.update(i, node)
                } else {
                    self.nodes
                }
            &&& after.pending == match self.pending {
                Some(replacement) => if replacement.probe == node.handle && node.spec_status(now)
                    == NodeStatus::Good {
                    None
                } else {
                    self.pending
                },
                None => None,
            }
        } else if self.nodes.len() < MAX_BUCKET_SIZE {
            &&& outcome == AddOutcome::Added
            &&& after.nodes == self.nodes.push(node)
            &&& after.pending == self.pending
        } else if exists|i: int| is_first_bad(self.nodes, now, i) {
            exists|i: int|
                {
                    &&& #[trigger] is_first_bad(self.nodes, now, i)
                    &&& outcome == AddOutcome::Evicted(self.nodes[i].handle)
                    &&& after.nodes == self.nodes.update(i, node)
                    &&& after.pending == self.pending_after(
                        node.handle,
                        Some(self.nodes[i].handle),
                    )
                }
        } else if exists|i: int| is_least_recently_seen(self.nodes, now, i) {
            exists|i: int|
                {
                    &&& #[trigger] is_least_recently_seen(self.nodes, now, i)
                    &&& outcome == AddOutcome::Pending(self.nodes[i].handle)
                    &&& after.nodes == self.nodes
                    &&& after.pending == Some(Replacement { node, probe: self.nodes[i].handle })
                }
        } else {
            &&& outcome == AddOutcome::Rejected
            &&& after == self
        }
    }

    /// The bucket after a request to the node with the handle went
    /// unanswered. The node takes a strike. If a node waited for its
    /// silence, that node takes its place.
    pub open spec fn timed_out(self, handle: NodeHandle, after: BucketView) -> bool {
        if contains_handle(self.nodes, handle) {
            exists|i: int|
                {
                    &&& 0 <= i < self.nodes.len()
                    &&& (#[trigger] self.nodes[i]).handle == handle
                    &&& match self.pending {
                        Some(replacement) if replacement.probe == handle => after == (BucketView {
                            nodes: self.nodes.update(i, replacement.node),
                            pending: None,
                        }),
                        _ => after == (BucketView {
                            nodes: self.nodes.update(i, self.nodes[i].spec_local_timeout()),
                            pending: self.pending,
                        }),
                    }
                }
        } else {
            after == self
        }
    }
}

impl Bucket {
    /// An empty bucket.
    pub fn new() -> (bucket: Bucket)
        ensures
            bucket@.wf(),
            bucket@.nodes.len() == 0,
            bucket@.pending is None,
    {
        Bucket { nodes: Vec::new(), pending: None }
    }

    /// Number of nodes in the bucket.
    pub fn len(&self) -> (n: usize)
        ensures
            n == self@.nodes.len(),
    {
        self.nodes.len()
    }

    /// Whether the bucket holds as many nodes as it can.
    pub fn is_full(&self) -> (full: bool)
        ensures
            full == (self@.nodes.len() >= MAX_BUCKET_SIZE),
    {
        self.nodes.len() >= MAX_BUCKET_SIZE
    }

    /// The place of the node with the handle, if the bucket holds it.
    pub fn position(&self, handle: &NodeHandle) -> (found: Option<usize>)
        ensures
            match found {
                Some(i) => i < self@.nodes.len() && self@.nodes[i as int].handle == *handle,
                None => !contains_handle(self@.nodes, *handle),
            },
    {
        let mut i: usize = 0;
        while i < self.nodes.len()
            invariant
                i <= self.nodes@.len(),
                forall|j: int| 0 <= j < i ==> (#[trigger] self.nodes@[j]).handle != *handle,
            decreases self.nodes@.len() - i,
        {
            if self.nodes[i].handle == *handle {
                return Some(i);
            }
            i += 1;
        }
        None
    }

    /// The node with the handle, if the bucket holds it.
    pub fn find_node(&self, handle: &NodeHandle) -> (found: Option<Node>)
        ensures
            match found {
                Some(node) => node.handle == *handle && self@.nodes.contains(node),
                None => !contains_handle(self@.nodes, *handle),
            },
    {
        match self.position(handle) {
            Some(i) => {
                assert(self@.nodes[i as int] == self.nodes@[i as int]);
                Some(self.nodes[i])
            },
            None => None,
        }
    }

    /// The place of the first bad node, if there is one.
    fn first_bad(&self, now: Timestamp) -> (found: Option<usize>)
        ensures
            match found {
                Some(i) => is_first_bad(self@.nodes, now, i as int),
                None => forall|i: int| !is_first_bad(self@.nodes, now, i),
            },
    {
        let mut i: usize = 0;
        while i < self.nodes.len()
            invariant
                i <= self.nodes@.len(),
                forall|j: int|
                    0 <= j < i ==> (#[trigger] self.nodes@[j]).spec_status(now) != NodeStatus::Bad,
            decreases self.nodes@.len() - i,
        {
            if self.nodes[i].status(now) == NodeStatus::Bad {
                return Some(i);
            }
            i += 1;
        }
        None
    }

    /// The place of the questionable node that was seen longest ago, if any is questionable.
    fn least_recently_seen(&self, now: Timestamp) -> (found: Option<usize>)
        ensures
            match found {
                Some(i) => is_least_recently_seen(self@.nodes, now, i as int),
                None => forall|i: int| !is_least_recently_seen(self@.nodes, now, i),
            },
    {
        let mut best: Option<usize> = None;
        let mut i: usize = 0;
        while i < self.nodes.len()
            invariant
                i <= self.nodes@.len(),
                match best {
                    Some(b) => b < i && is_least_recently_seen(
                        self.nodes@.take(i as int),
                        now,
                        b as int,
                    ),
                    None => forall|j: int|
                        0 <= j < i ==> (#[trigger] self.nodes@[j]).spec_status(now)
                            != NodeStatus::Questionable,
                },
            decreases self.nodes@.len() - i,
        {
            let ghost before = self.nodes@.take(i as int);
            let ghost after = self.nodes@.take(i + 1);
            proof {
                assert forall|j: int| 0 <= j < i implies #[trigger] after[j] == before[j] by {}
                assert(after[i as int] == self.nodes@[i as int]);
            }
            if self.nodes[i].status(now) == NodeStatus::Questionable {
                match best {
                    Some(b) => {
                        if older(&self.nodes[i], &self.nodes[b]) {
                            best = Some(i);
                        }
                    },
                    None => {
                        best = Some(i);
                    },
                }
            }
            i += 1;
        }
        proof {
            assert(self.nodes@.take(i as int) =~= self.nodes@);
        }
        best
    }

    /// Offers a node to the bucket at `now`.
    pub fn add_node(&mut self, node: Node, now: Timestamp) -> (outcome: AddOutcome)
        requires
            old(self)@.wf(),
            node.wf(),
        ensures
            final(self)@.wf(),
            old(self)@.add_node(node, now, final(self)@, outcome),
    {
        let ghost before = self@;
        if let Some(i) = self.position(&node.handle) {
            if node.status(now).rank() < self.nodes[i].status(now).rank() {
                self.nodes[i] = node;
            }
            if let Some(replacement) = self.pending {
                if replacement.probe == node.handle && node.status(now) == NodeStatus::Good {
                    self.pending = None;
                }
            }
            proof {
                let after = self@;
                assert(before.nodes[i as int].handle == node.handle);
                assert forall|k: int, l: int| 0 <= k < l < after.nodes.len() implies (
                #[trigger] after.nodes[k]).handle != (#[trigger] after.nodes[l]).handle by {
                    assert(before.nodes[k].handle != before.nodes[l].handle);
                }
                if after.pending is Some {
                    let waiting = after.pending->Some_0.node.handle;
                    if contains_handle(after.nodes, waiting) {
                        let k = choose|k: int|
                            0 <= k < after.nodes.len() && (#[trigger] after.nodes[k]).handle
                                == waiting;
                        assert(before.nodes[k].handle == waiting);
                    }
                }
            }
            return AddOutcome::Updated;
        }
        if self.nodes.len() < MAX_BUCKET_SIZE {
            self.nodes.push(node);
            proof {
                let after = self@;
                assert forall|k: int, l: int| 0 <= k < l < after.nodes.len() implies (
                #[trigger] after.nodes[k]).handle != (#[trigger] after.nodes[l]).handle by {
                    if l < before.nodes.len() {
                        assert(before.nodes[k].handle != before.nodes[l].handle);
                    } else {
                        assert(before.nodes[k].handle != node.handle);
                    }
                }
            }
            return AddOutcome::Added;
        }
        if let Some(i) = self.first_bad(now) {
            let evicted = self.nodes[i].handle;
            self.nodes[i] = node;
            if let Some(replacement) = self.pending {
                if replacement.node.handle == node.handle || replacement.probe == evicted {
                    self.pending = None;
                }
            }
            proof {
                let after = self@;
                assert(after.nodes == before.nodes.update(i as int, node));
                assert forall|k: int, l: int| 0 <= k < l < after.nodes.len() implies (
                #[trigger] after.nodes[k]).handle != (#[trigger] after.nodes[l]).handle by {
                    assert(before.nodes[k].handle != before.nodes[l].handle);
                    assert(before.nodes[k].handle != node.handle);
                    assert(before.nodes[l].handle != node.handle);
                }
                if after.pending is Some {
                    let waiting = after.pending->Some_0.node.handle;
                    if contains_handle(after.nodes, waiting) {
                        let k = choose|k: int|
                            0 <= k < after.nodes.len() && (#[trigger] after.nodes[k]).handle
                                == waiting;
                        assert(before.nodes[k].handle == waiting);
                    }
                }
            }
            return AddOutcome::Evicted(evicted);
        }
        if let Some(i) = self.least_recently_seen(now) {
            let probe = self.nodes[i].handle;
            self.pending = Some(Replacement { node, probe });
            return AddOutcome::Pending(probe);
        }
        AddOutcome::Rejected
    }

    /// Puts `node` in the place of the entry at `i`, which has the same handle.
    pub fn replace_at(&mut self, i: usize, node: Node)
        requires
            old(self)@.wf(),
            node.wf(),
            i < old(self)@.nodes.len(),
            old(self)@.nodes[i as int].handle == node.handle,
        ensures
            final(self)@.wf(),
            final(self)@.nodes == old(self)@.nodes.update(i as int, node),
            final(self)@.pending == old(self)@.pending,
    {
        let ghost before = self@;
        self.nodes[i] = node;
        proof {
            let after = self@;
            assert forall|k: int, l: int| 0 <= k < l < after.nodes.len() implies (
            #[trigger] after.nodes[k]).handle != (#[trigger] after.nodes[l]).handle by {
                assert(before.nodes[k].handle != before.nodes[l].handle);
            }
            if after.pending is Some {
                let waiting = after.pending->Some_0.node.handle;
                if contains_handle(after.nodes, waiting) {
                    let k = choose|k: int|
                        0 <= k < after.nodes.len() && (#[trigger] after.nodes[k]).handle == waiting;
                    assert(before.nodes[k].handle == waiting);
                }
            }
        }
    }

    /// The nodes of the bucket as they are listed for `target` at `now`:
    /// good nodes first, then questionable ones, then bad ones, and within
    /// each class from the nearest to `target` to the farthest.
    pub fn sorted(&self, target: &NodeId, now: Timestamp) -> (listed: Vec<Node>)
        ensures
            listed@.len() == self@.nodes.len(),
            forall|node: Node| listed@.contains(node) <==> self@.nodes.contains(node),
            listed_in_order(listed@, *target, now),
    {
        let mut listed: Vec<Node> = Vec::new();
        let mut j: usize = 0;
        while j < self.nodes.len()
            invariant
                j <= self.nodes@.len(),
                listed@.len() == j,
                forall|node: Node|
                    listed@.contains(node) <==> self.nodes@.take(j as int).contains(node),
                listed_in_order(listed@, *target, now),
            decreases self.nodes@.len() - j,
        {
            let node = self.nodes[j];
            let mut p: usize = 0;
            while p < listed.len() && !node_listed_before(&node, &listed[p], target, now)
                invariant
                    p <= listed@.len(),
                    forall|k: int|
                        0 <= k < p ==> !listed_before(node, #[trigger] listed@[k], *target, now),
                decreases listed@.len() - p,
            {
                p += 1;
            }
            let ghost before = listed@;
            listed.insert(p, node);
            proof {
                let after = listed@;
                assert(after == before.insert(p as int, node));
                assert forall|k: int| 0 <= k < after.len() implies #[trigger] after[k] == (if k
                    < p {
                    before[k]
                } else if k == p {
                    node
                } else {
                    before[k - 1]
                }) by {}
                assert forall|a: int, b: int| 0 <= a < b < after.len() implies !listed_before(
                    #[trigger] after[b],
                    #[trigger] after[a],
                    *target,
                    now,
                ) by {
                    if b < p {
                        assert(!listed_before(before[b], before[a], *target, now));
                    } else if b == p {
                    } else if a == p {
                        if p < b - 1 {
                            assert(!listed_before(before[b - 1], before[p as int], *target, now));
                        }
                    } else if a < p {
                        assert(!listed_before(before[b - 1], before[a], *target, now));
                    } else {
                        assert(!listed_before(before[b - 1], before[a - 1], *target, now));
                    }
                }
                let seen = self.nodes@.take(j as int);
                let seen_next = self.nodes@.take(j + 1);
                assert(seen_next =~= seen.push(node));
                assert forall|x: Node| after.contains(x) <==> seen_next.contains(x) by {
                    if after.contains(x) {
                        let k = choose|k: int| 0 <= k < after.len() && after[k] == x;
                        if k < p {
                            assert(before[k] == x);
                            assert(before.contains(x));
                        } else if k > p {
                            assert(before[k - 1] == x);
                            assert(before.contains(x));
                        }
                        if x != node {
                            assert(seen.contains(x));
                            let l = choose|l: int| 0 <= l < seen.len() && seen[l] == x;
                            assert(seen_next[l] == x);
                        } else {
                            assert(seen_next[j as int] == x);
                        }
                    }
                    if seen_next.contains(x) {
                        let l = choose|l: int| 0 <= l < seen_next.len() && seen_next[l] == x;
                        if l < j {
                            assert(seen[l] == x);
                            assert(before.contains(x));
                            let k = choose|k: int| 0 <= k < before.len() && before[k] == x;
                            if k < p {
                                assert(after[k] == x);
                            } else {
                                assert(after[k + 1] == x);
                            }
                        } else {
                            assert(after[p as int] == x);
                        }
                    }
                }
            }
            j += 1;
        }
        proof {
            assert(self.nodes@.take(j as int) =~= self.nodes@);
        }
        listed
    }

    /// Records that a request to the node with the handle went unanswered.
    /// Returns whether a waiting node took its place.
    pub fn timed_out(&mut self, handle: &NodeHandle) -> (promoted: bool)
        requires
            old(self)@.wf(),
        ensures
            final(self)@.wf(),
            old(self)@.timed_out(*handle, final(self)@),
            promoted == (contains_handle(old(self)@.nodes, *handle) && old(self)@.pending is Some
                && old(self)@.pending->Some_0.probe == *handle),
    {
        let ghost before = self@;
        let found = self.position(handle);
        if found.is_none() {
            return false;
        }
        let i = found.unwrap();
        let mut promoted = false;
        let mut node = self.nodes[i];
        if let Some(replacement) = self.pending {
            if replacement.probe == *handle {
                node = replacement.node;
                self.pending = None;
                promoted = true;
            }
        }
        if !promoted {
            node.local_timeout();
        }
        self.nodes[i] = node;
        proof {
            let after = self@;
            assert(after.nodes == before.nodes.update(i as int, node));
            assert forall|k: int, l: int| 0 <= k < l < after.nodes.len() implies (
            #[trigger] after.nodes[k]).handle != (#[trigger] after.nodes[l]).handle by {
                assert(before.nodes[k].handle != before.nodes[l].handle);
                if promoted {
                    assert(before.nodes[k].handle != node.handle);
                    assert(before.nodes[l].handle != node.handle);
                }
            }
            if after.pending is Some {
                let waiting = after.pending->Some_0.node.handle;
                if contains_handle(after.nodes, waiting) {
                    let k = choose|k: int|
                        0 <= k < after.nodes.len() && (#[trigger] after.nodes[k]).handle == waiting;
                    assert(before.nodes[k].handle == waiting);
                }
            }
        }
        promoted
    }
}

/// Whether `a` comes strictly before `b` where nodes are listed for `target` at `now`.
pub fn node_listed_before(a: &Node, b: &Node, target: &NodeId, now: Timestamp) -> (r: bool)
    ensures
        r == listed_before(*a, *b, *target, now),
{
    let rank_a = a.status(now).rank();
    let rank_b = b.status(now).rank();
    rank_a < rank_b || (rank_a == rank_b && (a.handle.id.nearer(&b.handle.id, target) || (
    !b.handle.id.nearer(&a.handle.id, target) && a.handle.addr.before(&b.handle.addr))))
}

/// Whether the last message from `a` came before the last message from `b`.
fn older(a: &Node, b: &Node) -> (r: bool)
    ensures
        r == (seen_key(*a) < seen_key(*b)),
{
    match (a.last_seen, b.last_seen) {
        (None, Some(_)) => true,
        (Some(x), Some(y)) => x < y,
        _ => false,
    }
}

} // verus!

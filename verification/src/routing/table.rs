use crate::clock::Timestamp;
use crate::id::NodeId;
use crate::routing::bucket::{
    contains_handle, handles_distinct, listed_before, AddOutcome, Bucket, BucketView,
    MAX_BUCKET_SIZE,
};
use crate::routing::node::{Node, NodeHandle, NodeStatus};
use vstd::prelude::*;

verus! {

/// The most buckets that a routing table holds: one for each bit of an identifier.
pub const MAX_BUCKETS: usize = 160;

/// The buckets of a node, by the number of leading bits that the ids of
/// their nodes share with the id of the node itself.
pub struct RoutingTable {
    pub buckets: Vec<Bucket>,
    pub node_id: NodeId,
}

/// What a routing table holds.
pub struct TableView {
    pub node_id: NodeId,
    pub buckets: Seq<BucketView>,
}

impl View for RoutingTable {
    type V = TableView;

    open spec fn view(&self) -> TableView {
        TableView {
            node_id: self.node_id,
            buckets: Seq::new(self.buckets@.len(), |i: int| self.buckets@[i]@),
        }
    }
}

/// The bucket, of `count` buckets, in which an id belongs: the one for the
/// number of leading bits that it shares with `local`, and the last one
/// where it shares that many or more.
pub open spec fn bucket_index_of(local: NodeId, id: NodeId, count: int) -> int {
    if local.spec_common_prefix_len(id) < count - 1 {
        local.spec_common_prefix_len(id) as int
    } else {
        count - 1
    }
}

/// The nodes of a sequence whose ids share exactly `prefix` leading bits with `local`.
pub open spec fn with_prefix(local: NodeId, prefix: int) -> spec_fn(Node) -> bool {
    |node: Node| local.spec_common_prefix_len(node.handle.id) == prefix
}

/// The nodes of a sequence whose ids share more than `prefix` leading bits with `local`.
pub open spec fn beyond_prefix(local: NodeId, prefix: int) -> spec_fn(Node) -> bool {
    |node: Node| local.spec_common_prefix_len(node.handle.id) != prefix
}

/// The nodes that are good at `now`.
pub open spec fn is_good(now: Timestamp) -> spec_fn(Node) -> bool {
    |node: Node| node.spec_status(now) == NodeStatus::Good
}

/// The turn of bucket `i` when the buckets are visited from bucket `start`
/// outward, the lower neighbour before the upper one at each distance.
pub open spec fn visit_rank(start: int, i: int) -> int {
    if i == start {
        0
    } else if i < start {
        2 * (start - i) - 1
    } else {
        2 * (i - start)
    }
}

impl TableView {
    /// The turn of the bucket of `node` when the buckets are visited for `target`.
    pub open spec fn turn(self, node: Node, target: NodeId) -> int {
        visit_rank(
            bucket_index_of(self.node_id, target, self.buckets.len() as int),
            bucket_index_of(self.node_id, node.handle.id, self.buckets.len() as int),
        )
    }

    /// Whether `a` comes strictly before `b` where the nodes of the table
    /// are listed for `target` at `now`: by the turn of their buckets, and
    /// within a bucket good nodes before questionable ones before bad ones
    /// and the nearer to `target` first.
    pub open spec fn closer(self, a: Node, b: Node, target: NodeId, now: Timestamp) -> bool {
        self.turn(a, target) < self.turn(b, target) || (self.turn(a, target) == self.turn(
            b,
            target,
        ) && listed_before(a, b, target, now))
    }

    /// Whether `listed` holds the nodes of the table, each once, in the
    /// order in which they are listed for `target` at `now`.
    pub open spec fn closest_nodes(self, target: NodeId, now: Timestamp, listed: Seq<Node>) -> bool {
        &&& forall|node: Node| listed.contains(node) <==> self.has_node(node)
        &&& handles_distinct(listed)
        &&& forall|p: int, q: int|
            0 <= p < q < listed.len() ==> !self.closer(
                #[trigger] listed[q],
                #[trigger] listed[p],
                target,
                now,
            )
    }

    /// Whether offering `nodes` one after the other at `now` makes `after` of
    /// the table.
    pub open spec fn offered(self, nodes: Seq<Node>, now: Timestamp, after: TableView) -> bool
        decreases nodes.len(),
    {
        if nodes.len() == 0 {
            after == self
        } else {
            exists|mid: TableView, outcome: AddOutcome|
                self.offered(nodes.drop_last(), now, mid) && #[trigger] mid.add_node(
                    nodes.last(),
                    now,
                    after,
                    outcome,
                )
        }
    }

    /// Whether `after` is the table with a request at `now` noted on the
    /// node with the handle, where the table holds that node.
    pub open spec fn local_request_noted(
        self,
        handle: NodeHandle,
        now: Timestamp,
        after: TableView,
    ) -> bool {
        if self.has_handle(handle) {
            exists|stored: Node|
                stored.handle == handle && #[trigger] self.replaced(
                    stored,
                    stored.spec_local_request(now),
                    after,
                )
        } else {
            after == self
        }
    }

    /// Whether `after` is the table with a request at `now` noted on each
    /// of the nodes with the handles, one after the other.
    pub open spec fn requested(
        self,
        handles: Seq<NodeHandle>,
        now: Timestamp,
        after: TableView,
    ) -> bool
        decreases handles.len(),
    {
        if handles.len() == 0 {
            after == self
        } else {
            exists|mid: TableView|
                self.requested(handles.drop_last(), now, mid) && #[trigger] mid.local_request_noted(
                    handles.last(),
                    now,
                    after,
                )
        }
    }

    /// Whether `after` is the table after a request to the node with the
    /// handle went unanswered: in the bucket of the handle the node has
    /// taken a strike, or has given its place to the node that waited for
    /// its silence, and no other bucket has changed.
    pub open spec fn timed_out(self, handle: NodeHandle, after: TableView) -> bool {
        &&& after.node_id == self.node_id
        &&& after.buckets.len() == self.buckets.len()
        &&& forall|i: int|
            0 <= i < self.buckets.len() ==> if i == bucket_index_of(
                self.node_id,
                handle.id,
                self.buckets.len() as int,
            ) {
                self.buckets[i].timed_out(handle, #[trigger] after.buckets[i])
            } else {
                after.buckets[i] == self.buckets[i]
            }
    }

    /// Whether `after` is the table with the entry `stored` replaced by `node`.
    pub open spec fn replaced(self, stored: Node, node: Node, after: TableView) -> bool {
        exists|i: int, j: int|
            {
                &&& 0 <= i < self.buckets.len()
                &&& 0 <= j < self.buckets[i].nodes.len()
                &&& #[trigger] self.buckets[i].nodes[j] == stored
                &&& after.node_id == self.node_id
                &&& after.buckets == self.buckets.update(
                    i,
                    BucketView {
                        nodes: self.buckets[i].nodes.update(j, node),
                        pending: self.buckets[i].pending,
                    },
                )
            }
    }

    /// Whether bucket `i` is the right place for a node with the id `id`,
    /// which is not the table's own.
    pub open spec fn belongs(self, id: NodeId, i: int) -> bool {
        id != self.node_id && bucket_index_of(self.node_id, id, self.buckets.len() as int) == i
    }

    /// Between one and 160 well-formed buckets, every node in the bucket
    /// where its id belongs, and the table's own id nowhere.
    pub open spec fn wf(self) -> bool {
        &&& 1 <= self.buckets.len() <= MAX_BUCKETS
        &&& forall|i: int| 0 <= i < self.buckets.len() ==> (#[trigger] self.buckets[i]).wf()
        &&& forall|i: int, j: int|
            0 <= i < self.buckets.len() && 0 <= j < self.buckets[i].nodes.len() ==> self.belongs(
                (#[trigger] self.buckets[i].nodes[j]).handle.id,
                i,
            )
        &&& forall|i: int|
            0 <= i < self.buckets.len() && (#[trigger] self.buckets[i]).pending is Some
                ==> self.belongs(self.buckets[i].pending->Some_0.node.handle.id, i)
    }

    /// Whether the table holds a node with the handle.
    pub open spec fn has_handle(self, handle: NodeHandle) -> bool {
        exists|i: int|
            0 <= i < self.buckets.len() && contains_handle(
                (#[trigger] self.buckets[i]).nodes,
                handle,
            )
    }

    /// Whether the table holds the node.
    pub open spec fn has_node(self, node: Node) -> bool {
        exists|i: int|
            0 <= i < self.buckets.len() && (#[trigger] self.buckets[i]).nodes.contains(node)
    }

    /// Whether the table holds a node with the id.
    pub open spec fn has_id(self, id: NodeId) -> bool {
        exists|i: int, j: int|
            0 <= i < self.buckets.len() && 0 <= j < self.buckets[i].nodes.len() && (
            #[trigger] self.buckets[i].nodes[j]).handle.id == id
    }

    /// The number of nodes in the table.
    pub open spec fn num_nodes(self) -> nat
        decreases self.buckets.len(),
    {
        if self.buckets.len() == 0 {
            0
        } else {
            (TableView { node_id: self.node_id, buckets: self.buckets.drop_last() }).num_nodes()
                + self.buckets.last().nodes.len()
        }
    }

    /// The number of nodes in the first `count` buckets that are good at `now`.
    pub open spec fn num_good_in(self, now: Timestamp, count: int) -> nat
        decreases count,
    {
        if count <= 0 {
            0
        } else {
            self.num_good_in(now, count - 1) + self.buckets[count - 1].nodes.filter(
                is_good(now),
            ).len()
        }
    }

    /// The number of nodes in the table that are good at `now`.
    pub open spec fn num_good(self, now: Timestamp) -> nat {
        self.num_good_in(now, self.buckets.len() as int)
    }

    /// Whether the last bucket has to be split before a node with the handle
    /// can be offered to it: the node belongs in the last bucket, the bucket
    /// is full and does not hold the node, and there is room for one more bucket.
    pub open spec fn needs_split(self, handle: NodeHandle) -> bool {
        &&& 1 <= self.buckets.len() < MAX_BUCKETS
        &&& self.belongs(handle.id, self.buckets.len() - 1)
        &&& self.buckets.last().nodes.len() >= MAX_BUCKET_SIZE
        &&& !contains_handle(self.buckets.last().nodes, handle)
    }

    /// The table with its last bucket split in two: the nodes that share
    /// exactly as many leading bits with the table's id as the bucket's
    /// place says stay, the others move to a new last bucket. A node that
    /// waited for a place in the bucket is forgotten.
    pub open spec fn split_last(self) -> TableView {
        let last = self.buckets.len() - 1;
        let nodes = self.buckets.last().nodes;
        TableView {
            node_id: self.node_id,
            buckets: self.buckets.drop_last().push(
                BucketView { nodes: nodes.filter(with_prefix(self.node_id, last)), pending: None },
            ).push(
                BucketView {
                    nodes: nodes.filter(beyond_prefix(self.node_id, last)),
                    pending: None,
                },
            ),
        }
    }

    /// The table with its last bucket split as often as a node with the handle needs it.
    pub open spec fn settle(self, handle: NodeHandle) -> TableView
        decreases MAX_BUCKETS - self.buckets.len(),
    {
        if self.needs_split(handle) {
            self.split_last().settle(handle)
        } else {
            self
        }
    }

    /// Whether offering `node` at `now` makes `after` of the table with the
    /// outcome `outcome`. The table's own id is turned away. For any other
    /// node the last bucket is split as often as needed, and the node is
    /// offered to the bucket in which it then belongs. No other bucket changes.
    pub open spec fn add_node(
        self,
        node: Node,
        now: Timestamp,
        after: TableView,
        outcome: AddOutcome,
    ) -> bool {
        if node.handle.id == self.node_id {
            outcome == AddOutcome::Rejected && after == self
        } else {
            let settled = self.settle(node.handle);
            let place = bucket_index_of(self.node_id, node.handle.id, settled.buckets.len() as int);
            &&& after.node_id == self.node_id
            &&& after.buckets.len() == settled.buckets.len()
            &&& settled.buckets[place].add_node(node, now, after.buckets[place], outcome)
            &&& forall|i: int|
                0 <= i < settled.buckets.len() && i != place ==> #[trigger] after.buckets[i]
                    == settled.buckets[i]
        }
    }
}

/// Filtering keeps the nodes apart that were apart.
pub proof fn lemma_filter_nodes(nodes: Seq<Node>, pred: spec_fn(Node) -> bool)
    ensures
        nodes.filter(pred).len() <= nodes.len(),
        forall|i: int|
            0 <= i < nodes.filter(pred).len() ==> pred(#[trigger] nodes.filter(pred)[i])
                && nodes.contains(nodes.filter(pred)[i]),
        forall|i: int| 0 <= i < nodes.len() && pred(nodes[i]) ==> nodes.filter(pred).contains(#[trigger] nodes[i]),
        handles_distinct(nodes) ==> handles_distinct(nodes.filter(pred)),
    decreases nodes.len(),
{
    let kept = nodes.filter(pred);
    if nodes.len() == 0 {
        assert(kept =~= nodes);
    } else {
        let head = nodes.drop_last();
        let last = nodes.last();
        let kept_head = head.filter(pred);
        lemma_filter_nodes(head, pred);
        assert(nodes =~= head.push(last));
        head.lemma_filter_push(last, pred);
        assert forall|i: int| 0 <= i < kept.len() implies pred(#[trigger] kept[i])
            && nodes.contains(kept[i]) by {
            if i < kept_head.len() {
                assert(head.contains(kept_head[i]));
                let j = choose|j: int| 0 <= j < head.len() && head[j] == kept_head[i];
                assert(nodes[j] == kept[i]);
            } else {
                assert(nodes[nodes.len() - 1] == kept[i]);
            }
        }
        assert forall|i: int| 0 <= i < nodes.len() && pred(nodes[i]) implies kept.contains(
            #[trigger] nodes[i],
        ) by {
            if i < head.len() {
                assert(head[i] == nodes[i]);
                assert(kept_head.contains(head[i]));
                let j = choose|j: int| 0 <= j < kept_head.len() && kept_head[j] == head[i];
                assert(kept[j] == nodes[i]);
            } else {
                assert(kept[kept.len() - 1] == nodes[i]);
            }
        }
        if handles_distinct(nodes) {
            assert(handles_distinct(head)) by {
                assert forall|i: int, j: int| 0 <= i < j < head.len() implies (
                #[trigger] head[i]).handle != (#[trigger] head[j]).handle by {
                    assert(nodes[i].handle != nodes[j].handle);
                }
            }
            assert forall|i: int, j: int| 0 <= i < j < kept.len() implies (
            #[trigger] kept[i]).handle != (#[trigger] kept[j]).handle by {
                if j < kept_head.len() {
                    assert(kept_head[i].handle != kept_head[j].handle);
                } else {
                    assert(head.contains(kept_head[i]));
                    let l = choose|l: int| 0 <= l < head.len() && head[l] == kept_head[i];
                    assert(nodes[l].handle != nodes[nodes.len() - 1].handle);
                }
            }
        }
    }
}

/// The nodes that pass a test, in their order.
fn filter_nodes_by_prefix(nodes: &Vec<Node>, local: &NodeId, prefix: usize, keep: bool) -> (kept:
    Vec<Node>)
    ensures
        kept@ == nodes@.filter(
            if keep {
                with_prefix(*local, prefix as int)
            } else {
                beyond_prefix(*local, prefix as int)
            },
        ),
{
    let ghost pred = if keep {
        with_prefix(*local, prefix as int)
    } else {
        beyond_prefix(*local, prefix as int)
    };
    let mut kept: Vec<Node> = Vec::new();
    let mut i: usize = 0;
    proof {
        assert(nodes@.take(0) =~= Seq::<Node>::empty());
        assert(nodes@.take(0).filter(pred) =~= Seq::<Node>::empty());
    }
    while i < nodes.len()
        invariant
            i <= nodes@.len(),
            pred == if keep {
                with_prefix(*local, prefix as int)
            } else {
                beyond_prefix(*local, prefix as int)
            },
            kept@ == nodes@.take(i as int).filter(pred),
        decreases nodes@.len() - i,
    {
        proof {
            assert(nodes@.take(i + 1) =~= nodes@.take(i as int).push(nodes@[i as int]));
            nodes@.take(i as int).lemma_filter_push(nodes@[i as int], pred);
        }
        let shared = local.common_prefix_len(&nodes[i].handle.id);
        if (shared == prefix) == keep {
            kept.push(nodes[i]);
        }
        i += 1;
    }
    proof {
        assert(nodes@.take(i as int) =~= nodes@);
    }
    kept
}

impl RoutingTable {
    /// A table for the node with the id `node_id`, with one empty bucket.
    pub fn new(node_id: NodeId) -> (table: RoutingTable)
        ensures
            table@.wf(),
            table@.node_id == node_id,
            table@.buckets.len() == 1,
            table@.buckets[0].nodes.len() == 0,
            table@.buckets[0].pending is None,
    {
        let mut buckets: Vec<Bucket> = Vec::new();
        buckets.push(Bucket::new());
        RoutingTable { buckets, node_id }
    }

    /// The id of the node whose table this is.
    pub fn node_id(&self) -> (id: NodeId)
        ensures
            id == self@.node_id,
    {
        self.node_id
    }

    /// The buckets, from the one for no shared leading bit upward.
    pub fn buckets(&self) -> (buckets: &Vec<Bucket>)
        ensures
            buckets@.len() == self@.buckets.len(),
            forall|i: int| 0 <= i < buckets@.len() ==> (#[trigger] buckets@[i])@ == self@.buckets[i],
    {
        &self.buckets
    }

    /// The place of the bucket in which the id belongs.
    pub fn bucket_index(&self, id: &NodeId) -> (place: usize)
        requires
            self@.buckets.len() >= 1,
        ensures
            place == bucket_index_of(self@.node_id, *id, self@.buckets.len() as int),
            place < self@.buckets.len(),
    {
        let shared = self.node_id.common_prefix_len(id);
        if shared < self.buckets.len() - 1 {
            shared
        } else {
            self.buckets.len() - 1
        }
    }

    /// The node with the handle, if the table holds it.
    pub fn find_node(&self, handle: &NodeHandle) -> (found: Option<Node>)
        requires
            self@.wf(),
        ensures
            match found {
                Some(node) => node.handle == *handle && self@.has_node(node),
                None => !self@.has_handle(*handle),
            },
    {
        let place = self.bucket_index(&handle.id);
        let found = self.buckets[place].find_node(handle);
        proof {
            assert(self@.buckets[place as int] == self.buckets@[place as int]@);
            if found is None && self@.has_handle(*handle) {
                let i = choose|i: int|
                    0 <= i < self@.buckets.len() && contains_handle(
                        (#[trigger] self@.buckets[i]).nodes,
                        *handle,
                    );
                let j = choose|j: int|
                    0 <= j < self@.buckets[i].nodes.len() && (
                    #[trigger] self@.buckets[i].nodes[j]).handle == *handle;
                assert(self@.belongs(self@.buckets[i].nodes[j].handle.id, i));
            }
        }
        found
    }

    /// The number of nodes in the table that are good at `now`.
    pub fn num_good_nodes(&self, now: Timestamp) -> (n: usize)
        requires
            self@.wf(),
        ensures
            n == self@.num_good(now),
            n <= MAX_BUCKETS * MAX_BUCKET_SIZE,
    {
        let mut n: usize = 0;
        let mut i: usize = 0;
        while i < self.buckets.len()
            invariant
                self@.wf(),
                i <= self.buckets@.len(),
                n == self@.num_good_in(now, i as int),
                n <= i * MAX_BUCKET_SIZE,
            decreases self.buckets@.len() - i,
        {
            let nodes = &self.buckets[i].nodes;
            let ghost all = nodes@;
            proof {
                assert(self@.buckets[i as int] == self.buckets@[i as int]@);
                assert(self@.buckets[i as int].wf());
                assert(all.take(0) =~= Seq::<Node>::empty());
                assert(all.take(0).filter(is_good(now)) =~= Seq::<Node>::empty());
            }
            let mut good: usize = 0;
            let mut j: usize = 0;
            while j < nodes.len()
                invariant
                    j <= nodes@.len(),
                    all == nodes@,
                    all.len() <= MAX_BUCKET_SIZE,
                    good == all.take(j as int).filter(is_good(now)).len(),
                    good <= j,
                decreases nodes@.len() - j,
            {
                proof {
                    assert(all.take(j + 1) =~= all.take(j as int).push(all[j as int]));
                    all.take(j as int).lemma_filter_push(all[j as int], is_good(now));
                }
                if nodes[j].status(now) == NodeStatus::Good {
                    good += 1;
                }
                j += 1;
            }
            proof {
                assert(all.take(j as int) =~= all);
            }
            n += good;
            i += 1;
        }
        n
    }

    /// Puts `node` in the place of the entry with the same handle. Returns
    /// false, and changes nothing, if the table holds no such entry.
    pub fn update_node(&mut self, node: Node) -> (known: bool)
        requires
            old(self)@.wf(),
            node.wf(),
        ensures
            final(self)@.wf(),
            known == old(self)@.has_handle(node.handle),
            known ==> exists|stored: Node|
                stored.handle == node.handle && #[trigger] old(self)@.replaced(
                    stored,
                    node,
                    final(self)@,
                ),
            !known ==> final(self)@ == old(self)@,
    {
        let ghost before = self@;
        let place = self.bucket_index(&node.handle.id);
        proof {
            assert(before.buckets[place as int] == self.buckets@[place as int]@);
        }
        let found = self.buckets[place].position(&node.handle);
        if found.is_none() {
            proof {
                if before.has_handle(node.handle) {
                    let i = choose|i: int|
                        0 <= i < before.buckets.len() && contains_handle(
                            (#[trigger] before.buckets[i]).nodes,
                            node.handle,
                        );
                    let j = choose|j: int|
                        0 <= j < before.buckets[i].nodes.len() && (
                        #[trigger] before.buckets[i].nodes[j]).handle == node.handle;
                    assert(before.belongs(before.buckets[i].nodes[j].handle.id, i));
                }
            }
            return false;
        }
        let j = found.unwrap();
        self.buckets[place].replace_at(j, node);
        proof {
            let after = self@;
            let stored = before.buckets[place as int].nodes[j as int];
            assert(after.buckets[place as int] == self.buckets@[place as int]@);
            assert forall|i: int| 0 <= i < before.buckets.len() && i != place implies #[trigger] after.buckets[i]
                == before.buckets[i] by {
                assert(after.buckets[i] == self.buckets@[i]@);
            }
            assert(after.buckets =~= before.buckets.update(
                place as int,
                BucketView {
                    nodes: before.buckets[place as int].nodes.update(j as int, node),
                    pending: before.buckets[place as int].pending,
                },
            ));
            assert(before.replaced(stored, node, after));
            assert(contains_handle(before.buckets[place as int].nodes, node.handle));
            assert forall|i: int, k: int|
                0 <= i < after.buckets.len() && 0 <= k < after.buckets[i].nodes.len() implies after.belongs(
                (#[trigger] after.buckets[i].nodes[k]).handle.id,
                i,
            ) by {
                assert(before.belongs(before.buckets[i].nodes[k].handle.id, i));
            }
            assert forall|i: int|
                0 <= i < after.buckets.len() && (#[trigger] after.buckets[i]).pending is Some implies after.belongs(
                after.buckets[i].pending->Some_0.node.handle.id,
                i,
            ) by {
                assert(before.buckets[i].pending is Some);
            }
            assert forall|i: int| 0 <= i < after.buckets.len() implies (
            #[trigger] after.buckets[i]).wf() by {
                if i != place {
                    assert(before.buckets[i].wf());
                }
            }
        }
        true
    }

    /// Records that a request arrived at `now` from the node with the
    /// handle. Returns whether the table holds the node.
    pub fn remote_request(&mut self, handle: &NodeHandle, now: Timestamp) -> (known: bool)
        requires
            old(self)@.wf(),
        ensures
            final(self)@.wf(),
            known == old(self)@.has_handle(*handle),
            known ==> exists|stored: Node|
                stored.handle == *handle && #[trigger] old(self)@.replaced(
                    stored,
                    stored.spec_remote_request(now),
                    final(self)@,
                ),
            !known ==> final(self)@ == old(self)@,
    {
        match self.find_node(handle) {
            Some(stored) => {
                proof {
                    self.lemma_stored(stored);
                }
                let mut node = stored;
                node.remote_request(now);
                let ghost before = self@;
                let known = self.update_node(node);
                proof {
                    self.lemma_replaced_same(before, stored, node);
                }
                known
            },
            None => false,
        }
    }

    /// Records that a request was sent at `now` to the node with the
    /// handle. Returns whether the table holds the node.
    pub fn local_request(&mut self, handle: &NodeHandle, now: Timestamp) -> (known: bool)
        requires
            old(self)@.wf(),
        ensures
            final(self)@.wf(),
            known == old(self)@.has_handle(*handle),
            old(self)@.local_request_noted(*handle, now, final(self)@),
            final(self)@.node_id == old(self)@.node_id,
    {
        match self.find_node(handle) {
            Some(stored) => {
                proof {
                    self.lemma_stored(stored);
                }
                let mut node = stored;
                node.local_request(now);
                let ghost before = self@;
                let known = self.update_node(node);
                proof {
                    self.lemma_replaced_same(before, stored, node);
                }
                known
            },
            None => false,
        }
    }

    /// Records that the node with the handle answered a request at `now`.
    /// Returns whether the table holds the node.
    pub fn local_response(&mut self, handle: &NodeHandle, now: Timestamp) -> (known: bool)
        requires
            old(self)@.wf(),
        ensures
            final(self)@.wf(),
            known == old(self)@.has_handle(*handle),
            known ==> exists|stored: Node|
                stored.handle == *handle && #[trigger] old(self)@.replaced(
                    stored,
                    stored.spec_local_response(now),
                    final(self)@,
                ),
            !known ==> final(self)@ == old(self)@,
    {
        match self.find_node(handle) {
            Some(stored) => {
                proof {
                    self.lemma_stored(stored);
                }
                let mut node = stored;
                node.local_response(now);
                let ghost before = self@;
                let known = self.update_node(node);
                proof {
                    self.lemma_replaced_same(before, stored, node);
                }
                known
            },
            None => false,
        }
    }

    /// Records that a request to the node with the handle went unanswered:
    /// the node takes a strike, or gives its place to the node that waited
    /// for its silence. No bucket but the node's own changes.
    pub fn local_timeout(&mut self, handle: &NodeHandle) -> (promoted: bool)
        requires
            old(self)@.wf(),
        ensures
            final(self)@.wf(),
            old(self)@.timed_out(*handle, final(self)@),
    {
        let ghost before = self@;
        let place = self.bucket_index(&handle.id);
        proof {
            assert(before.buckets[place as int] == self.buckets@[place as int]@);
        }
        let promoted = self.buckets[place].timed_out(handle);
        proof {
            let after = self@;
            assert(after.buckets[place as int] == self.buckets@[place as int]@);
            assert forall|i: int| 0 <= i < before.buckets.len() && i != place implies #[trigger] after.buckets[i]
                == before.buckets[i] by {
                assert(after.buckets[i] == self.buckets@[i]@);
            }
            assert forall|i: int, k: int|
                0 <= i < after.buckets.len() && 0 <= k < after.buckets[i].nodes.len() implies after.belongs(
                (#[trigger] after.buckets[i].nodes[k]).handle.id,
                i,
            ) by {
                assert(before.belongs(before.buckets[i].nodes[k].handle.id, i));
                if i == place && before.buckets[i].pending is Some {
                    assert(before.belongs(before.buckets[i].pending->Some_0.node.handle.id, i));
                }
            }
            assert forall|i: int|
                0 <= i < after.buckets.len() && (#[trigger] after.buckets[i]).pending is Some implies after.belongs(
                after.buckets[i].pending->Some_0.node.handle.id,
                i,
            ) by {
                assert(before.buckets[i].pending is Some);
            }
            assert forall|i: int| 0 <= i < after.buckets.len() implies (
            #[trigger] after.buckets[i]).wf() by {
                if i != place {
                    assert(before.buckets[i].wf());
                }
            }
        }
        promoted
    }

    /// A node that the table holds is well formed.
    pub proof fn lemma_stored(&self, stored: Node)
        requires
            self@.wf(),
            self@.has_node(stored),
        ensures
            stored.wf(),
            self@.has_handle(stored.handle),
    {
        let i = choose|i: int|
            0 <= i < self@.buckets.len() && (#[trigger] self@.buckets[i]).nodes.contains(stored);
        let j = choose|j: int|
            0 <= j < self@.buckets[i].nodes.len() && self@.buckets[i].nodes[j] == stored;
        assert(self@.buckets[i].wf());
        assert(self@.buckets[i].nodes[j].wf());
        assert(contains_handle(self@.buckets[i].nodes, stored.handle));
    }

    /// The entry that was replaced is the only one with its handle.
    pub proof fn lemma_replaced_same(&self, before: TableView, stored: Node, node: Node)
        requires
            before.wf(),
            before.has_node(stored),
            stored.handle == node.handle,
            exists|other: Node|
                other.handle == node.handle && #[trigger] before.replaced(other, node, self@),
        ensures
            before.replaced(stored, node, self@),
    {
        let other = choose|other: Node|
            other.handle == node.handle && #[trigger] before.replaced(other, node, self@);
        let (i, j) = choose|i: int, j: int|
            {
                &&& 0 <= i < before.buckets.len()
                &&& 0 <= j < before.buckets[i].nodes.len()
                &&& #[trigger] before.buckets[i].nodes[j] == other
                &&& self@.node_id == before.node_id
                &&& self@.buckets == before.buckets.update(
                    i,
                    BucketView {
                        nodes: before.buckets[i].nodes.update(j, node),
                        pending: before.buckets[i].pending,
                    },
                )
            };
        let k = choose|k: int|
            0 <= k < before.buckets.len() && (#[trigger] before.buckets[k]).nodes.contains(stored);
        let l = choose|l: int|
            0 <= l < before.buckets[k].nodes.len() && before.buckets[k].nodes[l] == stored;
        assert(before.belongs(before.buckets[k].nodes[l].handle.id, k));
        assert(before.belongs(before.buckets[i].nodes[j].handle.id, i));
        assert(k == i);
        assert(before.buckets[i].wf());
        if l != j {
            if l < j {
                assert(before.buckets[i].nodes[l].handle != before.buckets[i].nodes[j].handle);
            } else {
                assert(before.buckets[i].nodes[j].handle != before.buckets[i].nodes[l].handle);
            }
        }
    }

    /// Every node of the table, each once: bucket by bucket from the bucket
    /// of `target` outward, the lower neighbour before the upper one, and
    /// within a bucket good nodes before questionable ones before bad ones,
    /// each class from the nearest to `target` to the farthest. There is
    /// one such list only.
    pub fn closest_nodes(&self, target: NodeId, now: Timestamp) -> (listed: Vec<Node>)
        requires
            self@.wf(),
        ensures
            self@.closest_nodes(target, now, listed@),
            forall|other: Seq<Node>|
                #[trigger] self@.closest_nodes(target, now, other) ==> other == listed@,
    {
        let start = self.bucket_index(&target);
        let count = self.buckets.len();
        let mut listed: Vec<Node> = Vec::new();
        self.list_bucket(&mut listed, start, Ghost(-1), target, now);
        let mut d: usize = 1;
        while d < count
            invariant
                self@.wf(),
                count == self@.buckets.len(),
                start == bucket_index_of(self@.node_id, target, count as int),
                1 <= d <= count,
                self.listed_through(target, now, listed@, 2 * d - 2),
            decreases count - d,
        {
            if d <= start {
                self.list_bucket(&mut listed, start - d, Ghost(2 * d - 2), target, now);
            } else {
                proof {
                    self.lemma_no_bucket_at(target, now, listed@, 2 * d - 2);
                }
            }
            if d < count - start {
                self.list_bucket(&mut listed, start + d, Ghost(2 * d - 1), target, now);
            } else {
                proof {
                    self.lemma_no_bucket_at(target, now, listed@, 2 * d - 1);
                }
            }
            d += 1;
        }
        proof {
            assert forall|node: Node| listed@.contains(node) <==> self@.has_node(node) by {
                if self@.has_node(node) {
                    let i = choose|i: int|
                        0 <= i < self@.buckets.len() && (#[trigger] self@.buckets[i]).nodes.contains(
                            node,
                        );
                    assert(visit_rank(start as int, i) <= 2 * d - 2);
                }
            }
            assert forall|other: Seq<Node>|
                #[trigger] self@.closest_nodes(target, now, other) implies other == listed@ by {
                lemma_closest_nodes_unique(self@, target, now, other, listed@);
            }
        }
        listed
    }

    /// Whether `listed` holds the nodes of the buckets whose turn is
    /// `through` or earlier, each once and in order.
    pub open spec fn listed_through(
        &self,
        target: NodeId,
        now: Timestamp,
        listed: Seq<Node>,
        through: int,
    ) -> bool {
        let start = bucket_index_of(self@.node_id, target, self@.buckets.len() as int);
        &&& forall|i: int|
            0 <= i < self@.buckets.len() && visit_rank(start, i) <= through ==> forall|node: Node|
                (#[trigger] self@.buckets[i]).nodes.contains(node) ==> listed.contains(node)
        &&& forall|p: int|
            0 <= p < listed.len() ==> self@.has_node(#[trigger] listed[p]) && self@.turn(
                listed[p],
                target,
            ) <= through
        &&& handles_distinct(listed)
        &&& forall|p: int, q: int|
            0 <= p < q < listed.len() ==> !self@.closer(
                #[trigger] listed[q],
                #[trigger] listed[p],
                target,
                now,
            )
    }

    /// Where no bucket has the next turn, what is listed is listed through that turn too.
    proof fn lemma_no_bucket_at(&self, target: NodeId, now: Timestamp, listed: Seq<Node>, through: int)
        requires
            self.listed_through(target, now, listed, through),
            forall|i: int|
                0 <= i < self@.buckets.len() ==> visit_rank(
                    bucket_index_of(self@.node_id, target, self@.buckets.len() as int),
                    i,
                ) != through + 1,
        ensures
            self.listed_through(target, now, listed, through + 1),
    {
    }

    /// Appends the nodes of one bucket, in their order for `target`, to
    /// what is listed of the buckets with earlier turns.
    fn list_bucket(
        &self,
        listed: &mut Vec<Node>,
        place: usize,
        Ghost(through): Ghost<int>,
        target: NodeId,
        now: Timestamp,
    )
        requires
            self@.wf(),
            place < self@.buckets.len(),
            visit_rank(
                bucket_index_of(self@.node_id, target, self@.buckets.len() as int),
                place as int,
            ) == through + 1,
            through == -1 ==> old(listed)@.len() == 0,
            through >= 0 ==> self.listed_through(target, now, old(listed)@, through),
        ensures
            self.listed_through(target, now, final(listed)@, through + 1),
    {
        let ghost before = listed@;
        let ghost start = bucket_index_of(self@.node_id, target, self@.buckets.len() as int);
        let mut segment = self.buckets[place].sorted(&target, now);
        let ghost added = segment@;
        let ghost bucket = self@.buckets[place as int];
        proof {
            assert(bucket == self.buckets@[place as int]@);
            assert(bucket.wf());
        }
        listed.append(&mut segment);
        proof {
            let after = listed@;
            assert(after == before + added);
            assert forall|p: int| 0 <= p < added.len() implies bucket.nodes.contains(
                #[trigger] added[p],
            ) && self@.turn(added[p], target) == through + 1 by {
                assert(added.contains(added[p]));
                let l = choose|l: int| 0 <= l < bucket.nodes.len() && bucket.nodes[l] == added[p];
                assert(self@.belongs(self@.buckets[place as int].nodes[l].handle.id, place as int));
            }
            assert forall|p: int| 0 <= p < after.len() implies self@.has_node(#[trigger] after[p])
                && self@.turn(after[p], target) <= through + 1 by {
                if p < before.len() {
                    assert(after[p] == before[p]);
                } else {
                    assert(after[p] == added[p - before.len()]);
                }
            }
            assert forall|i: int|
                0 <= i < self@.buckets.len() && visit_rank(start, i) <= through
                    + 1 implies forall|node: Node|
                (#[trigger] self@.buckets[i]).nodes.contains(node) ==> after.contains(node) by {
                assert forall|node: Node| self@.buckets[i].nodes.contains(node) implies after.contains(
                    node,
                ) by {
                    if i == place {
                        assert(added.contains(node));
                        let l = choose|l: int| 0 <= l < added.len() && added[l] == node;
                        assert(after[before.len() + l] == node);
                    } else {
                        assert(visit_rank(start, i) <= through);
                        assert(before.contains(node));
                        let l = choose|l: int| 0 <= l < before.len() && before[l] == node;
                        assert(after[l] == node);
                    }
                }
            }
            assert forall|p: int, q: int| 0 <= p < q < after.len() implies (
            #[trigger] after[p]).handle != (#[trigger] after[q]).handle && !self@.closer(
                after[q],
                after[p],
                target,
                now,
            ) by {
                if q < before.len() {
                    assert(before[p].handle != before[q].handle);
                    assert(!self@.closer(before[q], before[p], target, now));
                } else if p < before.len() {
                    assert(after[q] == added[q - before.len()]);
                    assert(self@.turn(before[p], target) <= through);
                    assert(self@.turn(added[q - before.len()], target) == through + 1);
                    if before[p].handle == after[q].handle {
                    }
                } else {
                    let a = p - before.len();
                    let b = q - before.len();
                    assert(after[p] == added[a] && after[q] == added[b]);
                    assert(!listed_before(added[b], added[a], target, now));
                    lemma_listed_distinct(bucket.nodes, added, a, b);
                }
            }
        }
    }

    /// Splits the last bucket in two.
    fn split_last(&mut self)
        requires
            old(self)@.wf(),
            old(self)@.buckets.len() < MAX_BUCKETS,
        ensures
            final(self)@.wf(),
            final(self)@ == old(self)@.split_last(),
            final(self)@.buckets.len() == old(self)@.buckets.len() + 1,
    {
        let ghost before = self@;
        let last = self.buckets.len() - 1;
        let stay = filter_nodes_by_prefix(&self.buckets[last].nodes, &self.node_id, last, true);
        let moved = filter_nodes_by_prefix(&self.buckets[last].nodes, &self.node_id, last, false);
        proof {
            assert(before.buckets[last as int] == self.buckets@[last as int]@);
            assert(before.buckets[last as int].wf());
            lemma_filter_nodes(before.buckets.last().nodes, with_prefix(self.node_id, last as int));
            lemma_filter_nodes(
                before.buckets.last().nodes,
                beyond_prefix(self.node_id, last as int),
            );
        }
        self.buckets.pop();
        self.buckets.push(Bucket { nodes: stay, pending: None });
        self.buckets.push(Bucket { nodes: moved, pending: None });
        proof {
            let after = self@;
            let split = before.split_last();
            assert(after.buckets.len() == split.buckets.len());
            assert forall|i: int| 0 <= i < after.buckets.len() implies after.buckets[i]
                == split.buckets[i] by {
                if i < last {
                    assert(after.buckets[i] == self.buckets@[i]@);
                    assert(before.buckets[i] == old(self).buckets@[i]@);
                }
            }
            assert(after.buckets =~= split.buckets);
            let old_nodes = before.buckets.last().nodes;
            assert forall|i: int| 0 <= i < after.buckets.len() implies (
            #[trigger] after.buckets[i]).wf() by {
                if i < last {
                    assert(before.buckets[i].wf());
                } else {
                    assert forall|j: int| 0 <= j < after.buckets[i].nodes.len() implies (
                    #[trigger] after.buckets[i].nodes[j]).wf() by {
                        let node = after.buckets[i].nodes[j];
                        assert(old_nodes.contains(node));
                        let l = choose|l: int| 0 <= l < old_nodes.len() && old_nodes[l] == node;
                        assert(old_nodes[l].wf());
                    }
                }
            }
            assert forall|i: int, j: int|
                0 <= i < after.buckets.len() && 0 <= j < after.buckets[i].nodes.len() implies after.belongs(
                (#[trigger] after.buckets[i].nodes[j]).handle.id,
                i,
            ) by {
                let node = after.buckets[i].nodes[j];
                if i < last {
                    assert(before.belongs(before.buckets[i].nodes[j].handle.id, i));
                } else {
                    assert(old_nodes.contains(node));
                    let l = choose|l: int| 0 <= l < old_nodes.len() && old_nodes[l] == node;
                    assert(before.belongs(before.buckets[last as int].nodes[l].handle.id, last as int));
                }
            }
        }
    }

    /// Offers a node to the table at `now`.
    pub fn add_node(&mut self, node: Node, now: Timestamp) -> (outcome: AddOutcome)
        requires
            old(self)@.wf(),
            node.wf(),
        ensures
            final(self)@.wf(),
            old(self)@.add_node(node, now, final(self)@, outcome),
    {
        if node.handle.id == self.node_id {
            return AddOutcome::Rejected;
        }
        let ghost before = self@;
        loop
            invariant
                before == old(self)@,
                self@.wf(),
                self@.node_id == before.node_id,
                node.wf(),
                node.handle.id != self@.node_id,
                self@.settle(node.handle) == before.settle(node.handle),
            decreases MAX_BUCKETS - self@.buckets.len(),
        {
            let place = self.bucket_index(&node.handle.id);
            let ghost current = self@;
            proof {
                assert(current.buckets[place as int] == self.buckets@[place as int]@);
            }
            let splittable = self.buckets.len() < MAX_BUCKETS && place == self.buckets.len() - 1
                && self.buckets[place].is_full() && self.buckets[place].position(
                &node.handle,
            ).is_none();
            if !splittable {
                assert(!current.needs_split(node.handle));
                assert(current.settle(node.handle) == current);
                let outcome = self.buckets[place].add_node(node, now);
                proof {
                    let after = self@;
                    assert(after.buckets.len() == current.buckets.len());
                    assert(after.buckets[place as int] == self.buckets@[place as int]@);
                    assert forall|i: int|
                        0 <= i < current.buckets.len() && i != place implies #[trigger] after.buckets[i]
                        == current.buckets[i] by {
                        assert(after.buckets[i] == self.buckets@[i]@);
                    }
                    lemma_bucket_add_keeps(
                        current.buckets[place as int],
                        node,
                        now,
                        after.buckets[place as int],
                        outcome,
                    );
                    assert forall|i: int, j: int|
                        0 <= i < after.buckets.len() && 0 <= j < after.buckets[i].nodes.len() implies after.belongs(
                        (#[trigger] after.buckets[i].nodes[j]).handle.id,
                        i,
                    ) by {
                        if i != place {
                            assert(current.belongs(current.buckets[i].nodes[j].handle.id, i));
                        } else {
                            let entry = after.buckets[i].nodes[j];
                            if entry != node {
                                assert(current.buckets[i].nodes.contains(entry));
                                let l = choose|l: int|
                                    0 <= l < current.buckets[i].nodes.len()
                                        && current.buckets[i].nodes[l] == entry;
                                assert(current.belongs(current.buckets[i].nodes[l].handle.id, i));
                            }
                        }
                    }
                    assert forall|i: int|
                        0 <= i < after.buckets.len() && (#[trigger] after.buckets[i]).pending is Some implies after.belongs(
                        after.buckets[i].pending->Some_0.node.handle.id,
                        i,
                    ) by {
                        if i != place {
                            assert(current.buckets[i].pending is Some);
                        }
                    }
                    assert forall|i: int| 0 <= i < after.buckets.len() implies (
                    #[trigger] after.buckets[i]).wf() by {
                        if i != place {
                            assert(current.buckets[i].wf());
                        }
                    }
                }
                return outcome;
            }
            assert(current.needs_split(node.handle));
            assert(current.settle(node.handle) == current.split_last().settle(node.handle));
            self.split_last();
        }
    }
}

/// Two places in a rearrangement of nodes with distinct handles hold nodes
/// with distinct handles.
pub proof fn lemma_listed_distinct(nodes: Seq<Node>, listed: Seq<Node>, a: int, b: int)
    requires
        handles_distinct(nodes),
        listed.len() == nodes.len(),
        forall|node: Node| listed.contains(node) <==> nodes.contains(node),
        0 <= a < b < listed.len(),
    ensures
        listed[a].handle != listed[b].handle,
{
    // The map from places of `nodes` to places of `listed` is onto a set of
    // the same size, so no node is listed twice.
    lemma_listed_injective(nodes, listed);
}

/// A rearrangement of nodes with distinct handles has distinct handles.
pub proof fn lemma_listed_injective(nodes: Seq<Node>, listed: Seq<Node>)
    requires
        handles_distinct(nodes),
        listed.len() == nodes.len(),
        forall|node: Node| listed.contains(node) <==> nodes.contains(node),
    ensures
        handles_distinct(listed),
{
    assert(nodes.no_duplicates()) by {
        assert forall|i: int, j: int| 0 <= i < nodes.len() && 0 <= j < nodes.len() && i
            != j implies nodes[i] != nodes[j] by {
            if i < j {
                assert(nodes[i].handle != nodes[j].handle);
            } else {
                assert(nodes[j].handle != nodes[i].handle);
            }
        }
    }
    nodes.unique_seq_to_set();
    assert(listed.to_set() =~= nodes.to_set()) by {
        assert forall|node: Node| listed.to_set().contains(node) <==> nodes.to_set().contains(
            node,
        ) by {
            assert(listed.contains(node) <==> nodes.contains(node));
        }
    }
    listed.lemma_no_dup_set_cardinality();
    assert(listed.no_duplicates());
    assert forall|p: int, q: int| 0 <= p < q < listed.len() implies (#[trigger] listed[p]).handle
        != (#[trigger] listed[q]).handle by {
        assert(listed[p] != listed[q]);
        assert(nodes.contains(listed[p]));
        assert(nodes.contains(listed[q]));
        let i = choose|i: int| 0 <= i < nodes.len() && nodes[i] == listed[p];
        let j = choose|j: int| 0 <= j < nodes.len() && nodes[j] == listed[q];
        if i < j {
            assert(nodes[i].handle != nodes[j].handle);
        } else if j < i {
            assert(nodes[j].handle != nodes[i].handle);
        }
    }
}

/// After a node was offered to a bucket, every node of the bucket is the
/// offered node or was in the bucket before, and a node that waits is the
/// offered node or waited before.
pub proof fn lemma_bucket_add_keeps(
    before: BucketView,
    node: Node,
    now: Timestamp,
    after: BucketView,
    outcome: AddOutcome,
)
    requires
        before.add_node(node, now, after, outcome),
    ensures
        forall|j: int|
            0 <= j < after.nodes.len() ==> #[trigger] after.nodes[j] == node || before.nodes.contains(
                after.nodes[j],
            ),
        after.pending is Some ==> after.pending->Some_0.node == node || after.pending
            == before.pending,
        forall|j: int|
            0 <= j < before.nodes.len() ==> after.nodes.contains(#[trigger] before.nodes[j])
                || before.nodes[j].handle == node.handle || outcome == AddOutcome::Evicted(
                before.nodes[j].handle,
            ),
{
    assert forall|j: int| 0 <= j < after.nodes.len() implies #[trigger] after.nodes[j] == node
        || before.nodes.contains(after.nodes[j]) by {
        if after.nodes[j] != node {
            if j < before.nodes.len() {
                assert(before.nodes[j] == after.nodes[j]);
            }
        }
    }
    assert forall|j: int| 0 <= j < before.nodes.len() implies after.nodes.contains(
        #[trigger] before.nodes[j],
    ) || before.nodes[j].handle == node.handle || outcome == AddOutcome::Evicted(
        before.nodes[j].handle,
    ) by {
        if before.nodes[j].handle != node.handle && outcome != AddOutcome::Evicted(
            before.nodes[j].handle,
        ) {
            assert(after.nodes[j] == before.nodes[j]);
        }
    }
}

/// Splitting the last bucket loses no id.
pub proof fn lemma_split_keeps(table: TableView, id: NodeId)
    requires
        table.buckets.len() >= 1,
        table.has_id(id),
    ensures
        table.split_last().has_id(id),
{
    let after = table.split_last();
    let last = table.buckets.len() - 1;
    let (i, j) = choose|i: int, j: int|
        0 <= i < table.buckets.len() && 0 <= j < table.buckets[i].nodes.len() && (
        #[trigger] table.buckets[i].nodes[j]).handle.id == id;
    if i < last {
        assert(after.buckets[i].nodes[j].handle.id == id);
    } else {
        let nodes = table.buckets.last().nodes;
        let node = nodes[j];
        let stay = with_prefix(table.node_id, last);
        let go = beyond_prefix(table.node_id, last);
        lemma_filter_nodes(nodes, stay);
        lemma_filter_nodes(nodes, go);
        if stay(node) {
            assert(nodes.filter(stay).contains(nodes[j]));
            let l = choose|l: int| 0 <= l < nodes.filter(stay).len() && nodes.filter(stay)[l] == node;
            assert(after.buckets[last].nodes[l].handle.id == id);
        } else {
            assert(go(node));
            assert(nodes.filter(go).contains(nodes[j]));
            let l = choose|l: int| 0 <= l < nodes.filter(go).len() && nodes.filter(go)[l] == node;
            assert(after.buckets[last + 1].nodes[l].handle.id == id);
        }
    }
}

/// Splitting the last bucket as often as a node needs it loses no id.
pub proof fn lemma_settle_keeps(table: TableView, handle: NodeHandle, id: NodeId)
    requires
        table.has_id(id),
    ensures
        table.settle(handle).has_id(id),
    decreases MAX_BUCKETS - table.buckets.len(),
{
    if table.needs_split(handle) {
        lemma_split_keeps(table, id);
        lemma_settle_keeps(table.split_last(), handle, id);
    }
}

/// Offering a node to the table loses no id, unless the node takes the
/// place of a bad node: then the id of that node may be lost.
pub proof fn lemma_add_node_keeps(
    before: TableView,
    node: Node,
    now: Timestamp,
    after: TableView,
    outcome: AddOutcome,
    id: NodeId,
)
    requires
        before.add_node(node, now, after, outcome),
        before.has_id(id),
        outcome is Evicted ==> outcome->Evicted_0.id != id,
    ensures
        after.has_id(id),
{
    if node.handle.id != before.node_id {
        let settled = before.settle(node.handle);
        lemma_settle_keeps(before, node.handle, id);
        let place = bucket_index_of(before.node_id, node.handle.id, settled.buckets.len() as int);
        let (i, j) = choose|i: int, j: int|
            0 <= i < settled.buckets.len() && 0 <= j < settled.buckets[i].nodes.len() && (
            #[trigger] settled.buckets[i].nodes[j]).handle.id == id;
        if i != place {
            assert(after.buckets[i] == settled.buckets[i]);
            assert(after.buckets[i].nodes[j].handle.id == id);
        } else {
            lemma_bucket_add_keeps(settled.buckets[place], node, now, after.buckets[place], outcome);
            let stored = settled.buckets[i].nodes[j];
            if after.buckets[place].nodes.contains(stored) {
                let l = choose|l: int|
                    0 <= l < after.buckets[place].nodes.len() && after.buckets[place].nodes[l]
                        == stored;
                assert(after.buckets[place].nodes[l].handle.id == id);
            } else {
                assert(stored.handle == node.handle);
                assert(contains_handle(settled.buckets[place].nodes, node.handle));
                let l = choose|l: int|
                    0 <= l < settled.buckets[place].nodes.len() && (
                    #[trigger] settled.buckets[place].nodes[l]).handle == node.handle
                        && after.buckets[place].nodes == if node.spec_status(now).spec_rank()
                        < settled.buckets[place].nodes[l].spec_status(now).spec_rank() {
                        settled.buckets[place].nodes.update(l, node)
                    } else {
                        settled.buckets[place].nodes
                    };
                assert(after.buckets[place].nodes[l].handle.id == id);
            }
        }
    }
}

/// The ids among the nodes that are listed for a target are the ids that the table holds.
pub proof fn lemma_listed_ids(
    table: TableView,
    target: NodeId,
    now: Timestamp,
    listed: Seq<Node>,
    id: NodeId,
)
    requires
        table.closest_nodes(target, now, listed),
    ensures
        table.has_id(id) <==> exists|p: int| 0 <= p < listed.len() && (#[trigger] listed[p]).handle.id == id,
{
    if table.has_id(id) {
        let (i, j) = choose|i: int, j: int|
            0 <= i < table.buckets.len() && 0 <= j < table.buckets[i].nodes.len() && (
            #[trigger] table.buckets[i].nodes[j]).handle.id == id;
        let node = table.buckets[i].nodes[j];
        assert(table.buckets[i].nodes.contains(node));
        assert(table.has_node(node));
        assert(listed.contains(node));
        let p = choose|p: int| 0 <= p < listed.len() && listed[p] == node;
        assert(listed[p].handle.id == id);
    }
    if exists|p: int| 0 <= p < listed.len() && (#[trigger] listed[p]).handle.id == id {
        let p = choose|p: int| 0 <= p < listed.len() && (#[trigger] listed[p]).handle.id == id;
        assert(listed.contains(listed[p]));
        assert(table.has_node(listed[p]));
        let i = choose|i: int|
            0 <= i < table.buckets.len() && (#[trigger] table.buckets[i]).nodes.contains(listed[p]);
        let j = choose|j: int|
            0 <= j < table.buckets[i].nodes.len() && table.buckets[i].nodes[j] == listed[p];
        assert(table.buckets[i].nodes[j].handle.id == id);
    }
}

/// An id that is among the nodes listed before a node is offered to the
/// table is among the nodes listed afterwards too, for whatever targets and
/// at whatever times the nodes are listed, unless the node took the place
/// of a bad node with that id.
pub proof fn lemma_insertion_monotone(
    before: TableView,
    node: Node,
    now: Timestamp,
    after: TableView,
    outcome: AddOutcome,
    id: NodeId,
    target_before: NodeId,
    time_before: Timestamp,
    nodes_before: Seq<Node>,
    target_after: NodeId,
    time_after: Timestamp,
    nodes_after: Seq<Node>,
)
    requires
        before.add_node(node, now, after, outcome),
        before.closest_nodes(target_before, time_before, nodes_before),
        after.closest_nodes(target_after, time_after, nodes_after),
        exists|p: int| 0 <= p < nodes_before.len() && (#[trigger] nodes_before[p]).handle.id == id,
        outcome is Evicted ==> outcome->Evicted_0.id != id,
    ensures
        exists|q: int| 0 <= q < nodes_after.len() && (#[trigger] nodes_after[q]).handle.id == id,
{
    lemma_listed_ids(before, target_before, time_before, nodes_before, id);
    lemma_add_node_keeps(before, node, now, after, outcome, id);
    lemma_listed_ids(after, target_after, time_after, nodes_after, id);
}

/// Of two nodes of the table with different handles, one comes strictly
/// before the other where the nodes are listed, and not the other way round.
pub proof fn lemma_closer_total(table: TableView, target: NodeId, now: Timestamp, a: Node, b: Node)
    requires
        table.wf(),
        table.has_node(a),
        table.has_node(b),
        a.handle != b.handle,
    ensures
        table.closer(a, b, target, now) != table.closer(b, a, target, now),
{
    let i = choose|i: int| 0 <= i < table.buckets.len() && (#[trigger] table.buckets[i]).nodes.contains(a);
    let k = choose|k: int| 0 <= k < table.buckets[i].nodes.len() && table.buckets[i].nodes[k] == a;
    let j = choose|j: int| 0 <= j < table.buckets.len() && (#[trigger] table.buckets[j]).nodes.contains(b);
    let l = choose|l: int| 0 <= l < table.buckets[j].nodes.len() && table.buckets[j].nodes[l] == b;
    assert(table.belongs(table.buckets[i].nodes[k].handle.id, i));
    assert(table.belongs(table.buckets[j].nodes[l].handle.id, j));
    if i == j {
        let near_a = a.handle.id.xor(target);
        let near_b = b.handle.id.xor(target);
        if a.handle.id.spec_distance(target) == b.handle.id.spec_distance(target) {
            crate::id::Id::lemma_value_injective(near_a, near_b);
            crate::id::Id::lemma_distance_injective(a.handle.id, b.handle.id, target);
            assert(a.handle.addr != b.handle.addr);
        }
    }
}

/// A table holds at most one node with a handle.
pub proof fn lemma_one_node(table: TableView, a: Node, b: Node)
    requires
        table.wf(),
        table.has_node(a),
        table.has_node(b),
        a.handle == b.handle,
    ensures
        a == b,
{
    let i = choose|i: int| 0 <= i < table.buckets.len() && (#[trigger] table.buckets[i]).nodes.contains(a);
    let k = choose|k: int| 0 <= k < table.buckets[i].nodes.len() && table.buckets[i].nodes[k] == a;
    let j = choose|j: int| 0 <= j < table.buckets.len() && (#[trigger] table.buckets[j]).nodes.contains(b);
    let l = choose|l: int| 0 <= l < table.buckets[j].nodes.len() && table.buckets[j].nodes[l] == b;
    assert(table.belongs(table.buckets[i].nodes[k].handle.id, i));
    assert(table.belongs(table.buckets[j].nodes[l].handle.id, j));
    assert(table.buckets[i].wf());
    if k < l {
        assert(table.buckets[i].nodes[k].handle != table.buckets[i].nodes[l].handle);
    } else if l < k {
        assert(table.buckets[i].nodes[l].handle != table.buckets[i].nodes[k].handle);
    }
}

/// Two sequences of nodes of the table that hold the same nodes, each
/// once and in the order in which nodes are listed, are the same.
pub proof fn lemma_listed_equal(
    table: TableView,
    target: NodeId,
    now: Timestamp,
    first: Seq<Node>,
    second: Seq<Node>,
)
    requires
        table.wf(),
        forall|node: Node| first.contains(node) <==> second.contains(node),
        forall|p: int| 0 <= p < first.len() ==> table.has_node(#[trigger] first[p]),
        handles_distinct(first),
        handles_distinct(second),
        forall|p: int, q: int|
            0 <= p < q < first.len() ==> !table.closer(
                #[trigger] first[q],
                #[trigger] first[p],
                target,
                now,
            ),
        forall|p: int, q: int|
            0 <= p < q < second.len() ==> !table.closer(
                #[trigger] second[q],
                #[trigger] second[p],
                target,
                now,
            ),
    ensures
        first == second,
    decreases first.len(),
{
    if first.len() == 0 {
        if second.len() > 0 {
            assert(second.contains(second[0]));
        }
        assert(first =~= second);
    } else {
        assert(first.contains(first[0]));
        assert(second.contains(first[0]));
        let r = choose|r: int| 0 <= r < second.len() && second[r] == first[0];
        assert(second.contains(second[0]));
        assert(first.contains(second[0]));
        let q = choose|q: int| 0 <= q < first.len() && first[q] == second[0];
        if first[0] != second[0] {
            assert(q > 0 && r > 0);
            assert(table.has_node(first[q]));
            if first[0].handle == second[0].handle {
                lemma_one_node(table, first[0], second[0]);
            }
            lemma_closer_total(table, target, now, first[0], second[0]);
            assert(!table.closer(first[q], first[0], target, now));
            assert(!table.closer(second[r], second[0], target, now));
        }
        let rest_first = first.drop_first();
        let rest_second = second.drop_first();
        assert forall|node: Node| rest_first.contains(node) <==> rest_second.contains(node) by {
            if rest_first.contains(node) {
                let p = choose|p: int| 0 <= p < rest_first.len() && rest_first[p] == node;
                assert(first[p + 1] == node);
                assert(first[0].handle != first[p + 1].handle);
                assert(first.contains(node));
                let t = choose|t: int| 0 <= t < second.len() && second[t] == node;
                assert(t > 0);
                assert(rest_second[t - 1] == node);
            }
            if rest_second.contains(node) {
                let p = choose|p: int| 0 <= p < rest_second.len() && rest_second[p] == node;
                assert(second[p + 1] == node);
                assert(second[0].handle != second[p + 1].handle);
                assert(second.contains(node));
                let t = choose|t: int| 0 <= t < first.len() && first[t] == node;
                assert(t > 0);
                assert(rest_first[t - 1] == node);
            }
        }
        assert forall|p: int| 0 <= p < rest_first.len() implies table.has_node(
            #[trigger] rest_first[p],
        ) by {
            assert(rest_first[p] == first[p + 1]);
        }
        assert(handles_distinct(rest_first)) by {
            assert forall|p: int, q: int| 0 <= p < q < rest_first.len() implies (
            #[trigger] rest_first[p]).handle != (#[trigger] rest_first[q]).handle by {
                assert(first[p + 1].handle != first[q + 1].handle);
            }
        }
        assert(handles_distinct(rest_second)) by {
            assert forall|p: int, q: int| 0 <= p < q < rest_second.len() implies (
            #[trigger] rest_second[p]).handle != (#[trigger] rest_second[q]).handle by {
                assert(second[p + 1].handle != second[q + 1].handle);
            }
        }
        assert forall|p: int, q: int| 0 <= p < q < rest_first.len() implies !table.closer(
            #[trigger] rest_first[q],
            #[trigger] rest_first[p],
            target,
            now,
        ) by {
            assert(!table.closer(first[q + 1], first[p + 1], target, now));
        }
        assert forall|p: int, q: int| 0 <= p < q < rest_second.len() implies !table.closer(
            #[trigger] rest_second[q],
            #[trigger] rest_second[p],
            target,
            now,
        ) by {
            assert(!table.closer(second[q + 1], second[p + 1], target, now));
        }
        lemma_listed_equal(table, target, now, rest_first, rest_second);
        assert(first =~= seq![first[0]] + rest_first);
        assert(second =~= seq![second[0]] + rest_second);
    }
}

/// The nodes of a table are listed for a target at a time in one way only.
pub proof fn lemma_closest_nodes_unique(
    table: TableView,
    target: NodeId,
    now: Timestamp,
    first: Seq<Node>,
    second: Seq<Node>,
)
    requires
        table.wf(),
        table.closest_nodes(target, now, first),
        table.closest_nodes(target, now, second),
    ensures
        first == second,
{
    assert forall|p: int| 0 <= p < first.len() implies table.has_node(#[trigger] first[p]) by {
        assert(first.contains(first[p]));
    }
    lemma_listed_equal(table, target, now, first, second);
}

} // verus!

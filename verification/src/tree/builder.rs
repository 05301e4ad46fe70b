//! Breadth-first construction of a tree, one step at a time.
//!
//! A builder owns the training samples, an index vector that it reorders in
//! place, a queue of nodes still to be decided and the arena built so far.
//! It decides everything but the threshold of a split: `advance` runs until
//! a threshold is needed and says for which feature and between which keys,
//! `supply` takes the threshold (or the news that there is none) and the
//! builder goes on from there.

use crate::tree::node::Impurity;
use crate::tree::node::Node;
use crate::tree::tree::arena_wf;
use crate::tree::tree::conserves_at;
use crate::tree::tree::counts_conserved;
use crate::tree::tree::has_parent;
use crate::tree::tree::holds_child;
use crate::tree::tree::labels_in;
use crate::tree::tree::lands;
use crate::tree::tree::leaf_holds;
use crate::tree::tree::leaf_samples;
use crate::tree::tree::lemma_on_way_ends;
use crate::tree::tree::lemma_on_way_extended;
use crate::tree::tree::lemma_on_way_kept;
use crate::tree::tree::on_way;
use crate::tree::tree::routed;
use crate::tree::tree::rules_within;
use crate::tree::tree::Arena;
use crate::tree::tree::StandardSplit;
use crate::utils::random::lemma_shuffle_keeps_distinct;
use crate::utils::random::shuffle;
use crate::utils::random::RandomGenerator;
use crate::utils::split::feature_bounds;
use crate::utils::split::identity_order;
use crate::utils::split::indexes;
use crate::utils::split::key_at;
use crate::utils::split::split_samples;
use crate::utils::split::stays;
use crate::utils::statistics::is_majority;
use crate::utils::statistics::majority_label;
use crate::utils::structures::rectangular;
use crate::utils::structures::Sample;
use std::collections::VecDeque;
use vstd::prelude::*;

verus! {

/// A node still to be decided: its range of the index vector, its depth,
/// its parent, the features that may still vary in it, and the impurity
/// that its parent's split left.
pub struct WorkItem {
    pub start: usize,
    pub end: usize,
    pub depth: usize,
    pub parent: Option<usize>,
    pub features: Vec<usize>,
    pub impurity: Impurity,
}

/// What a builder asks of its driver.
#[derive(Clone, Copy, Debug, PartialEq, Eq, Structural)]
pub enum BuildAction {
    /// A threshold is wanted for `feature`, whose keys in the node under
    /// work range from `low` to `high`.
    Draw { feature: usize, low: i64, high: i64 },
    /// The tree is complete.
    Done,
}

/// The state of a tree under construction.
pub struct TreeBuilder {
    max_depth: usize,
    min_samples_split: usize,
    min_samples_leaf: usize,
    width: usize,
    samples: Vec<Sample>,
    order: Vec<usize>,
    queue: VecDeque<WorkItem>,
    nodes: Arena,
    current: Option<WorkItem>,
    candidate: Option<usize>,
    home: Ghost<Seq<int>>,
    ranges: Ghost<Seq<(int, int)>>,
}

/// The rule that ends a branch: the depth limit is reached, the node is too
/// small to split or to give two leaves of the least size, no feature is
/// left to split on, or the incoming impurity is zero.
pub open spec fn must_stop(
    max_depth: nat,
    min_samples_split: nat,
    min_samples_leaf: nat,
    depth: nat,
    n_samples: nat,
    pool: nat,
    impurity: Impurity,
) -> bool {
    ||| depth >= max_depth
    ||| n_samples < min_samples_split
    ||| n_samples < 2 * min_samples_leaf
    ||| pool == 0
    ||| impurity == Impurity::Zero
}

/// Every internal node lies above the depth limit and is large enough to
/// have been split, and every node but the root is large enough to be a
/// child and holds at least one sample.
pub open spec fn respects_limits(
    nodes: Seq<Node<StandardSplit>>,
    max_depth: nat,
    min_samples_split: nat,
    min_samples_leaf: nat,
) -> bool {
    &&& forall|i: int|
        0 <= i < nodes.len() ==> match #[trigger] nodes[i] {
            Node::External { .. } => true,
            Node::Internal { depth, n_samples, .. } => {
                &&& depth < max_depth
                &&& n_samples >= min_samples_split
                &&& n_samples >= 2 * min_samples_leaf
            },
        }
    &&& forall|v: int|
        1 <= v < nodes.len() ==> (#[trigger] nodes[v]).samples_of() >= min_samples_leaf && nodes[v].samples_of()
            >= 1
}

/// `cut` lies strictly between the least and the greatest of `keys`: a key
/// is below it and a key is above it.
pub open spec fn strictly_inside(keys: Seq<i64>, cut: i64) -> bool {
    &&& exists|i: int| 0 <= i < keys.len() && #[trigger] keys[i] < cut
    &&& exists|j: int| 0 <= j < keys.len() && #[trigger] keys[j] > cut
}

/// How many of `keys` are at least `threshold`.
pub open spec fn count_at_least(keys: Seq<i64>, threshold: i64) -> int
    decreases keys.len(),
{
    if keys.len() == 0 {
        0
    } else {
        count_at_least(keys.drop_last(), threshold) + if keys.last() >= threshold {
            1int
        } else {
            0int
        }
    }
}

/// As many keys are at least the threshold as are not below it: none where
/// all are below, all where none is.
pub proof fn lemma_count_at_least(keys: Seq<i64>, threshold: i64)
    ensures
        0 <= count_at_least(keys, threshold) <= keys.len(),
        (exists|i: int| 0 <= i < keys.len() && #[trigger] keys[i] >= threshold) ==> count_at_least(
            keys,
            threshold,
        ) >= 1,
        (exists|i: int| 0 <= i < keys.len() && #[trigger] keys[i] < threshold) ==> count_at_least(
            keys,
            threshold,
        ) <= keys.len() - 1,
    decreases keys.len(),
{
    if keys.len() > 0 {
        let front = keys.drop_last();
        lemma_count_at_least(front, threshold);
        if exists|i: int| 0 <= i < keys.len() && #[trigger] keys[i] >= threshold {
            let i = choose|i: int| 0 <= i < keys.len() && #[trigger] keys[i] >= threshold;
            if i < front.len() {
                assert(front[i] >= threshold);
            }
        }
        if exists|i: int| 0 <= i < keys.len() && #[trigger] keys[i] < threshold {
            let i = choose|i: int| 0 <= i < keys.len() && #[trigger] keys[i] < threshold;
            if i < front.len() {
                assert(front[i] < threshold);
            }
        }
    }
}

/// Number of samples of an open node.
pub open spec fn span(item: WorkItem) -> int {
    item.end - item.start
}

/// Number of samples of the open nodes together.
spec fn pending_samples(items: Seq<WorkItem>) -> int
    decreases items.len(),
{
    if items.len() == 0 {
        0
    } else {
        pending_samples(items.drop_last()) + span(items.last())
    }
}

/// The open nodes in order: the one in hand, if any, and then the queue.
spec fn open_of(hand: Option<WorkItem>, queue: Seq<WorkItem>) -> Seq<WorkItem> {
    match hand {
        Some(item) => seq![item] + queue,
        None => queue,
    }
}

/// Number of samples of the node in hand; 0 without one.
spec fn hand_span(hand: Option<WorkItem>) -> int {
    match hand {
        Some(item) => span(item),
        None => 0,
    }
}

/// Sample count of the node numbered `c`, built or still open.
spec fn size_at(nodes: Seq<Node<StandardSplit>>, open: Seq<WorkItem>, c: int) -> int {
    if c < nodes.len() {
        nodes[c].samples_of() as int
    } else {
        span(open[c - nodes.len()])
    }
}

/// Depth of the node numbered `c`, built or still open.
spec fn depth_at(nodes: Seq<Node<StandardSplit>>, open: Seq<WorkItem>, c: int) -> int {
    if c < nodes.len() {
        nodes[c].depth_of() as int
    } else {
        open[c - nodes.len()].depth as int
    }
}

/// Child `c` of node `i`, while it is still open, names `i` as its parent.
spec fn child_linked(
    nodes: Seq<Node<StandardSplit>>,
    open: Seq<WorkItem>,
    i: int,
    c: int,
) -> bool {
    c >= nodes.len() ==> open[c - nodes.len()].parent == Some(i as usize)
}

/// What holds of node `i` while the tree grows: an internal node is
/// binary, within the limits, and names as its children the two numbers
/// that follow each other and stand for what it was split into.
spec fn node_ok(
    nodes: Seq<Node<StandardSplit>>,
    open: Seq<WorkItem>,
    i: int,
    width: nat,
    max_depth: nat,
    min_samples_split: nat,
    min_samples_leaf: nat,
) -> bool {
    &&& nodes[i].id_of() == i
    &&& match nodes[i] {
        Node::External { .. } => true,
        Node::Internal { split_params, children, n_children, depth, n_samples, .. } => {
            &&& n_children == 2
            &&& children@.len() == 2
            &&& split_params.feature < width
            &&& i < children@[0]
            &&& children@[1] == children@[0] + 1
            &&& children@[1] < nodes.len() + open.len()
            &&& depth < max_depth
            &&& n_samples >= min_samples_split
            &&& n_samples >= 2 * min_samples_leaf
            &&& depth_at(nodes, open, children@[0] as int) == depth + 1
            &&& depth_at(nodes, open, children@[1] as int) == depth + 1
            &&& size_at(nodes, open, children@[0] as int) + size_at(
                nodes,
                open,
                children@[1] as int,
            ) == n_samples
            &&& child_linked(nodes, open, i, children@[0] as int)
            &&& child_linked(nodes, open, i, children@[1] as int)
        },
    }
}

/// Every feature of a pool is a feature of the samples.
spec fn pool_ok(features: Seq<usize>, width: nat) -> bool {
    forall|f: int| 0 <= f < features.len() ==> #[trigger] features[f] < width
}

/// What holds of open node `j`: its range lies in the index vector, its
/// pool holds features, and its parent, if it has one, names it as a child.
spec fn item_ok(
    nodes: Seq<Node<StandardSplit>>,
    open: Seq<WorkItem>,
    j: int,
    n: nat,
    width: nat,
    min_samples_leaf: nat,
) -> bool {
    let item = open[j];
    &&& item.start <= item.end <= n
    &&& pool_ok(item.features@, width)
    &&& match item.parent {
        Some(p) => {
            &&& p < nodes.len()
            &&& nodes[p as int] is Internal
            &&& (nodes[p as int].children_of()[0] == nodes.len() + j
                || nodes[p as int].children_of()[1] == nodes.len() + j)
            &&& span(item) >= min_samples_leaf
            &&& span(item) >= 1
        },
        None => {
            &&& nodes.len() == 0
            &&& j == 0
            &&& item.depth == 0
            &&& item.start == 0
            &&& item.end == n
        },
    }
}

/// Children of later nodes stand later.
spec fn in_order(nodes: Seq<Node<StandardSplit>>, p: int, q: int) -> bool {
    nodes[p] is Internal && nodes[q] is Internal && p < q ==> nodes[p].children_of()[1]
        < nodes[q].children_of()[0]
}

/// A node more among the open ones adds its samples to theirs.
proof fn lemma_pending_push(items: Seq<WorkItem>, item: WorkItem)
    ensures
        pending_samples(items.push(item)) == pending_samples(items) + span(item),
{
    assert(items.push(item).drop_last() == items);
}

/// Without their first node the open ones lack its samples.
proof fn lemma_pending_pop(items: Seq<WorkItem>)
    requires
        items.len() > 0,
    ensures
        pending_samples(items.subrange(1, items.len() as int)) == pending_samples(items) - span(
            items[0],
        ),
    decreases items.len(),
{
    let rest = items.subrange(1, items.len() as int);
    if items.len() == 1 {
        assert(items.drop_last().len() == 0);
        assert(pending_samples(items.drop_last()) == 0);
    } else {
        lemma_pending_pop(items.drop_last());
        assert(rest.drop_last() == items.drop_last().subrange(1, items.len() - 1));
        assert(rest.last() == items.last());
    }
}

/// The leaves among the first nodes count the same in two arenas that
/// agree on those nodes.
proof fn lemma_leaf_samples_prefix(
    a: Seq<Node<StandardSplit>>,
    b: Seq<Node<StandardSplit>>,
    upto: int,
)
    requires
        0 <= upto <= a.len(),
        upto <= b.len(),
        forall|i: int| 0 <= i < upto ==> a[i] == b[i],
    ensures
        leaf_samples(a, upto) == leaf_samples(b, upto),
    decreases upto,
{
    if upto > 0 {
        lemma_leaf_samples_prefix(a, b, upto - 1);
    }
}

/// The keys of one feature over the samples that `order[start..end]` names.
pub open spec fn focus_of(
    samples: Seq<Sample>,
    order: Seq<usize>,
    feature: int,
    start: int,
    end: int,
) -> Seq<i64> {
    Seq::new((end - start) as nat, |k: int| key_at(samples, order, start + k, feature))
}

/// The samples that a rule keeps in branch 0 are those whose key is at
/// least its threshold.
proof fn lemma_stays_counts(
    samples: Seq<Sample>,
    order: Seq<usize>,
    split: StandardSplit,
    start: int,
    end: int,
)
    requires
        start <= end,
    ensures
        stays(samples, order, split, start, end) == count_at_least(
            focus_of(samples, order, split.feature as int, start, end),
            split.threshold,
        ),
    decreases end - start,
{
    let keys = focus_of(samples, order, split.feature as int, start, end);
    if start < end {
        lemma_stays_counts(samples, order, split, start, end - 1);
        assert(keys.drop_last() == focus_of(
            samples,
            order,
            split.feature as int,
            start,
            end - 1,
        ));
        assert(keys.last() == key_at(samples, order, end - 1, split.feature as int));
    }
}

/// Feature `feature` takes more than one key over the samples that
/// `order[start..end]` names.
pub open spec fn varies(
    samples: Seq<Sample>,
    order: Seq<usize>,
    start: int,
    end: int,
    feature: int,
) -> bool {
    exists|k: int|
        start <= k < end && #[trigger] key_at(samples, order, k, feature) != key_at(
            samples,
            order,
            start,
            feature,
        )
}

/// The node can be split: it need not stop, and one of the features in its
/// pool varies over its samples.
pub open spec fn splittable(
    samples: Seq<Sample>,
    order: Seq<usize>,
    item: WorkItem,
    max_depth: nat,
    min_samples_split: nat,
    min_samples_leaf: nat,
) -> bool {
    &&& !must_stop(
        max_depth,
        min_samples_split,
        min_samples_leaf,
        item.depth as nat,
        span(item) as nat,
        item.features@.len(),
        item.impurity,
    )
    &&& exists|f: int|
        0 <= f < item.features@.len() && varies(
            samples,
            order,
            item.start as int,
            item.end as int,
            #[trigger] item.features@[f] as int,
        )
}

/// `node` is the leaf that the open node `item` becomes: at its depth, with
/// its samples, and with a most frequent label of theirs as its class.
pub open spec fn is_leaf_for(
    node: Node<StandardSplit>,
    samples: Seq<Sample>,
    order: Seq<usize>,
    item: WorkItem,
) -> bool {
    &&& node is External
    &&& node.depth_of() == item.depth
    &&& node.samples_of() == span(item)
    &&& is_majority(labels_in(samples, order, item.start as int, item.end as int), node.class_of())
}

/// `stay` and `leave` are the children of the open node `parent` split at
/// `mid` into node `id`: its two parts, one level deeper, each with `pool`.
pub open spec fn are_children(
    stay: WorkItem,
    leave: WorkItem,
    parent: WorkItem,
    id: int,
    mid: int,
    pool: Seq<usize>,
) -> bool {
    &&& stay.start == parent.start
    &&& stay.end == mid
    &&& leave.start == mid
    &&& leave.end == parent.end
    &&& stay.depth == parent.depth + 1
    &&& leave.depth == parent.depth + 1
    &&& stay.parent == Some(id as usize)
    &&& leave.parent == Some(id as usize)
    &&& stay.features@ == pool
    &&& leave.features@ == pool
    &&& stay.impurity == Impurity::Unknown
    &&& leave.impurity == Impurity::Unknown
}

/// The sample at position `k` is on its way to the node that `home`
/// names for the position: a leaf whose range holds the position, or an
/// open node whose range does.
spec fn place_ok(
    nodes: Seq<Node<StandardSplit>>,
    open: Seq<WorkItem>,
    samples: Seq<Sample>,
    order: Seq<usize>,
    home: Seq<int>,
    ranges: Seq<(int, int)>,
    k: int,
) -> bool {
    let at = home[k];
    &&& 0 <= at
    &&& on_way(nodes, samples[order[k] as int].features@, 0, at)
    &&& if at < nodes.len() {
        nodes[at] is External && ranges[at].0 <= k < ranges[at].1
    } else {
        at - nodes.len() < open.len() && open[at - nodes.len()].start <= k < open[at
            - nodes.len()].end
    }
}

/// Every position in the range of open node `j` names it as its home.
spec fn cover_ok(built: int, open: Seq<WorkItem>, home: Seq<int>, j: int) -> bool {
    forall|k: int| open[j].start <= k < open[j].end ==> #[trigger] home[k] == built + j
}

/// Node `v`, if a leaf, has a range as long as its count, every position
/// of which names it as its home, and its class is a most frequent label
/// of the samples there.
spec fn leaf_ok(
    nodes: Seq<Node<StandardSplit>>,
    samples: Seq<Sample>,
    order: Seq<usize>,
    home: Seq<int>,
    ranges: Seq<(int, int)>,
    v: int,
) -> bool {
    nodes[v] is External ==> {
        let (first, last) = ranges[v];
        &&& 0 <= first <= last <= order.len()
        &&& last - first == nodes[v].samples_of()
        &&& forall|k: int| first <= k < last ==> #[trigger] home[k] == v
        &&& is_majority(labels_in(samples, order, first, last), nodes[v].class_of())
    }
}

/// Two open nodes are one node but for their pools.
pub open spec fn same_place(a: WorkItem, b: WorkItem) -> bool {
    &&& a.start == b.start
    &&& a.end == b.end
    &&& a.depth == b.depth
    &&& a.parent == b.parent
    &&& a.impurity == b.impurity
}

/// A feature whose least key is its greatest does not vary, and one whose
/// least key is below its greatest does.
proof fn lemma_bounds_decide(
    samples: Seq<Sample>,
    order: Seq<usize>,
    start: int,
    end: int,
    feature: int,
    low: i64,
    high: i64,
)
    requires
        start < end,
        forall|k: int| start <= k < end ==> low <= #[trigger] key_at(samples, order, k, feature) <= high,
        exists|k: int| start <= k < end && #[trigger] key_at(samples, order, k, feature) == low,
        exists|k: int| start <= k < end && #[trigger] key_at(samples, order, k, feature) == high,
    ensures
        varies(samples, order, start, end, feature) <==> low < high,
{
    if low < high {
        let at_low = choose|k: int|
            start <= k < end && #[trigger] key_at(samples, order, k, feature) == low;
        let at_high = choose|k: int|
            start <= k < end && #[trigger] key_at(samples, order, k, feature) == high;
        let first = key_at(samples, order, start, feature);
        if first == low {
            assert(key_at(samples, order, at_high, feature) != first);
        } else {
            assert(key_at(samples, order, at_low, feature) != first);
        }
    } else {
        assert(key_at(samples, order, start, feature) == low);
    }
}

impl TreeBuilder {
    /// The arena built so far.
    pub closed spec fn arena(&self) -> Seq<Node<StandardSplit>> {
        self.nodes@
    }

    /// The training samples.
    pub closed spec fn data(&self) -> Seq<Sample> {
        self.samples@
    }

    /// The depth at which every branch ends.
    pub closed spec fn depth_limit(&self) -> usize {
        self.max_depth
    }

    /// The least number of samples of a node that is split.
    pub closed spec fn split_floor(&self) -> usize {
        self.min_samples_split
    }

    /// The least number of samples of a child.
    pub closed spec fn leaf_floor(&self) -> usize {
        self.min_samples_leaf
    }

    /// The nodes still to be decided, in the order in which they will be:
    /// the node under work, if there is one, and then the queue.
    pub closed spec fn open(&self) -> Seq<WorkItem> {
        open_of(self.current, self.queue@)
    }

    /// The index vector: a node's samples are a range of it.
    pub closed spec fn ranking(&self) -> Seq<usize> {
        self.order@
    }

    /// Number of feature keys of every training sample.
    pub closed spec fn feature_count(&self) -> usize {
        self.width
    }

    /// Room is left to number two more nodes.
    closed spec fn has_room(&self) -> bool {
        self.nodes@.len() + self.queue@.len() + 2 <= usize::MAX
    }

    /// A threshold has been asked for and not yet supplied.
    pub closed spec fn awaiting(&self) -> bool {
        self.candidate is Some
    }

    /// Nothing is left to decide.
    pub open spec fn finished(&self) -> bool {
        !self.awaiting() && self.open().len() == 0
    }

    /// The feature for which a threshold has been asked.
    pub closed spec fn asked_feature(&self) -> usize {
        self.candidate.unwrap()
    }

    /// The keys of feature `feature` over the samples of the node under
    /// work, in their present order.
    pub open spec fn focus_keys(&self, feature: int) -> Seq<i64> {
        focus_of(
            self.data(),
            self.ranking(),
            feature,
            self.open()[0].start as int,
            self.open()[0].end as int,
        )
    }

    /// Depth of the node under work.
    pub open spec fn focus_depth(&self) -> usize {
        self.open()[0].depth
    }

    /// The shape of the tree so far: what holds of every node and of every
    /// open node, the order of the children, and the count of the samples.
    closed spec fn inv(&self, hand: Option<WorkItem>) -> bool {
        let nodes = self.nodes@;
        let open = open_of(hand, self.queue@);
        let n = self.samples@.len();
        &&& n >= 1
        &&& rectangular(self.samples@, self.width as nat)
        &&& self.order@.len() == n
        &&& indexes(self.order@, n)
        &&& forall|i: int|
            0 <= i < nodes.len() ==> #[trigger] node_ok(
                nodes,
                open,
                i,
                self.width as nat,
                self.max_depth as nat,
                self.min_samples_split as nat,
                self.min_samples_leaf as nat,
            )
        &&& forall|j: int|
            0 <= j < open.len() ==> #[trigger] item_ok(
                nodes,
                open,
                j,
                n,
                self.width as nat,
                self.min_samples_leaf as nat,
            )
        &&& forall|p: int, q: int|
            0 <= p < nodes.len() && 0 <= q < nodes.len() ==> #[trigger] in_order(nodes, p, q)
        &&& forall|v: int| 1 <= v < nodes.len() ==> #[trigger] has_parent(nodes, v)
        &&& leaf_samples(nodes, nodes.len() as int) + hand_span(hand) + pending_samples(
            self.queue@,
        ) == n
        &&& nodes.len() == 0 ==> open.len() == 1
        &&& nodes.len() > 0 ==> nodes[0].samples_of() == n && nodes[0].depth_of() == 0
        &&& forall|v: int|
            1 <= v < nodes.len() ==> (#[trigger] nodes[v]).samples_of() >= self.min_samples_leaf
                && nodes[v].samples_of() >= 1
    }

    /// Where the samples are: every position has a home on the way of its
    /// sample, open nodes and leaves are the homes of their ranges, and no
    /// sample stands twice in the index vector.
    closed spec fn routes(&self, hand: Option<WorkItem>) -> bool {
        let nodes = self.nodes@;
        let open = open_of(hand, self.queue@);
        let n = self.samples@.len();
        &&& self.order@.no_duplicates()
        &&& self.home@.len() == n
        &&& self.ranges@.len() == nodes.len()
        &&& forall|k: int|
            0 <= k < n ==> #[trigger] place_ok(
                nodes,
                open,
                self.samples@,
                self.order@,
                self.home@,
                self.ranges@,
                k,
            )
        &&& forall|j: int| 0 <= j < open.len() ==> #[trigger] cover_ok(
            nodes.len() as int,
            open,
            self.home@,
            j,
        )
        &&& forall|v: int|
            0 <= v < nodes.len() ==> #[trigger] leaf_ok(
                nodes,
                self.samples@,
                self.order@,
                self.home@,
                self.ranges@,
                v,
            )
    }

    /// The builder's invariant.
    pub closed spec fn wf(&self) -> bool {
        &&& self.inv(self.current)
        &&& self.routes(self.current)
        &&& match self.candidate {
            Some(feature) => {
                &&& self.current is Some
                &&& feature < self.width
                &&& self.current.unwrap().depth < self.max_depth
                &&& span(self.current.unwrap()) >= self.min_samples_split
                &&& span(self.current.unwrap()) >= 2 * self.min_samples_leaf
            },
            None => true,
        }
        &&& match self.current {
            Some(item) => {
                &&& item.depth < self.max_depth
                &&& span(item) >= self.min_samples_split
                &&& span(item) >= 2 * self.min_samples_leaf
                &&& item.impurity != Impurity::Zero
            },
            None => true,
        }
    }

    /// A builder over `samples` with the given limits. Its one open node is
    /// the root: all samples in their given order, depth 0, every feature
    /// still in play.
    pub fn new(
        samples: Vec<Sample>,
        max_depth: usize,
        min_samples_split: usize,
        min_samples_leaf: usize,
    ) -> (builder: Self)
        requires
            samples@.len() >= 1,
            rectangular(samples@, samples@[0].features@.len()),
        ensures
            builder.wf(),
            !builder.awaiting(),
            !builder.finished(),
            builder.arena().len() == 0,
            builder.data() == samples@,
            builder.feature_count() == samples@[0].features@.len(),
            builder.depth_limit() == max_depth,
            builder.split_floor() == min_samples_split,
            builder.leaf_floor() == min_samples_leaf,
            builder.ranking().len() == samples@.len(),
            forall|k: int| 0 <= k < samples@.len() ==> #[trigger] builder.ranking()[k] == k,
            builder.open().len() == 1,
            builder.open()[0].start == 0,
            builder.open()[0].end == samples@.len(),
            builder.open()[0].depth == 0,
            builder.open()[0].parent is None,
            builder.open()[0].impurity == Impurity::Positive,
            builder.open()[0].features@.len() == samples@[0].features@.len(),
            forall|f: int|
                0 <= f < samples@[0].features@.len() ==> #[trigger] builder.open()[0].features@[f]
                    == f,
    {
        let width: usize = samples[0].features.len();
        let n: usize = samples.len();
        let order = identity_order(n);
        let features = identity_order(width);
        let root = WorkItem {
            start: 0,
            end: n,
            depth: 0,
            parent: None,
            features,
            impurity: Impurity::Positive,
        };
        let mut queue: VecDeque<WorkItem> = VecDeque::new();
        queue.push_back(root);
        let builder = TreeBuilder {
            max_depth,
            min_samples_split,
            min_samples_leaf,
            width,
            samples,
            order,
            queue,
            nodes: Vec::new(),
            current: None,
            candidate: None,
            home: Ghost(Seq::new(n as nat, |k: int| 0int)),
            ranges: Ghost(Seq::empty()),
        };
        proof {
            let open = open_of(None, builder.queue@);
            assert(open.len() == 1);
            assert(open[0] == root);
            assert(item_ok(
                builder.nodes@,
                open,
                0,
                n as nat,
                width as nat,
                min_samples_leaf as nat,
            ));
            assert(builder.queue@.drop_last().len() == 0);
            assert(pending_samples(builder.queue@.drop_last()) == 0);
            assert(pending_samples(builder.queue@) == n);
        }
        builder
    }

    /// Number of feature keys of every training sample.
    pub fn width(&self) -> (width: usize)
        ensures
            width == self.feature_count(),
    {
        self.width
    }

    /// The keys of the asked feature over the samples of the node under
    /// work, in their present order.
    pub fn focus(&self) -> (keys: Vec<i64>)
        requires
            self.wf(),
            self.awaiting(),
        ensures
            keys@ == self.focus_keys(self.asked_feature() as int),
    {
        let mut keys: Vec<i64> = Vec::new();
        match (&self.current, &self.candidate) {
            (Some(item), Some(feature)) => {
                let ghost open = open_of(Some(*item), self.queue@);
                assert(open[0] == *item);
                assert(item_ok(
                    self.nodes@,
                    open,
                    0,
                    self.samples@.len() as nat,
                    self.width as nat,
                    self.min_samples_leaf as nat,
                ));
                let mut k: usize = item.start;
                while k < item.end
                    invariant
                        item.start <= k <= item.end <= self.order@.len(),
                        self.order@.len() == self.samples@.len(),
                        indexes(self.order@, self.samples@.len() as nat),
                        rectangular(self.samples@, self.width as nat),
                        *feature < self.width,
                        keys@ == focus_of(
                            self.samples@,
                            self.order@,
                            *feature as int,
                            item.start as int,
                            k as int,
                        ),
                    decreases item.end - k,
                {
                    keys.push(self.samples[self.order[k]].features[*feature]);
                    assert(focus_of(
                        self.samples@,
                        self.order@,
                        *feature as int,
                        item.start as int,
                        k + 1,
                    ) == focus_of(
                        self.samples@,
                        self.order@,
                        *feature as int,
                        item.start as int,
                        k as int,
                    ).push(key_at(self.samples@, self.order@, k as int, *feature as int)));
                    k += 1;
                }
            },
            _ => {},
        }
        keys
    }

    /// The index vector: the samples of every node stand side by side in
    /// it.
    pub fn get_order(&self) -> (order: &Vec<usize>)
        ensures
            order@ == self.ranking(),
    {
        &self.order
    }

    /// Whether a threshold is awaited.
    pub fn is_awaiting(&self) -> (yes: bool)
        ensures
            yes == self.awaiting(),
    {
        self.candidate.is_some()
    }

    /// Whether the tree is complete.
    pub fn is_finished(&self) -> (yes: bool)
        ensures
            yes == self.finished(),
    {
        self.candidate.is_none() && self.current.is_none() && self.queue.len() == 0
    }

    /// The shape of the tree does not depend on the pool of the node in
    /// hand.
    proof fn lemma_repool(&self, before: WorkItem, after: WorkItem)
        requires
            self.inv(Some(before)),
            after.start == before.start,
            after.end == before.end,
            after.depth == before.depth,
            after.parent == before.parent,
            pool_ok(after.features@, self.width as nat),
        ensures
            self.inv(Some(after)),
    {
        let nodes = self.nodes@;
        let open = open_of(Some(before), self.queue@);
        let open2 = open_of(Some(after), self.queue@);
        let n = self.samples@.len();
        assert forall|i: int| 0 <= i < nodes.len() implies #[trigger] node_ok(
            nodes,
            open2,
            i,
            self.width as nat,
            self.max_depth as nat,
            self.min_samples_split as nat,
            self.min_samples_leaf as nat,
        ) by {
            assert(node_ok(
                nodes,
                open,
                i,
                self.width as nat,
                self.max_depth as nat,
                self.min_samples_split as nat,
                self.min_samples_leaf as nat,
            ));
        }
        assert forall|j: int| 0 <= j < open2.len() implies #[trigger] item_ok(
            nodes,
            open2,
            j,
            n,
            self.width as nat,
            self.min_samples_leaf as nat,
        ) by {
            assert(item_ok(nodes, open, j, n, self.width as nat, self.min_samples_leaf as nat));
        }
    }

    /// Where the samples are does not depend on the pools of the open
    /// nodes, nor on which of them is in hand.
    proof fn lemma_routes_same(
        &self,
        before: &TreeBuilder,
        hand_before: Option<WorkItem>,
        hand: Option<WorkItem>,
    )
        requires
            before.routes(hand_before),
            self.nodes@ == before.nodes@,
            self.samples@ == before.samples@,
            self.order@ == before.order@,
            self.home@ == before.home@,
            self.ranges@ == before.ranges@,
            open_of(hand, self.queue@).len() == open_of(hand_before, before.queue@).len(),
            forall|j: int|
                0 <= j < open_of(hand, self.queue@).len() ==> (#[trigger] open_of(
                    hand,
                    self.queue@,
                )[j]).start == open_of(hand_before, before.queue@)[j].start && open_of(
                    hand,
                    self.queue@,
                )[j].end == open_of(hand_before, before.queue@)[j].end,
        ensures
            self.routes(hand),
    {
        let nodes = self.nodes@;
        let open = open_of(hand, self.queue@);
        let was = open_of(hand_before, before.queue@);
        assert forall|k: int| 0 <= k < self.samples@.len() implies #[trigger] place_ok(
            nodes,
            open,
            self.samples@,
            self.order@,
            self.home@,
            self.ranges@,
            k,
        ) by {
            assert(place_ok(nodes, was, self.samples@, self.order@, self.home@, self.ranges@, k));
            let at = self.home@[k];
            if at >= nodes.len() {
                assert(open[at - nodes.len()].start == was[at - nodes.len()].start);
            }
        }
        assert forall|j: int| 0 <= j < open.len() implies #[trigger] cover_ok(
            nodes.len() as int,
            open,
            self.home@,
            j,
        ) by {
            assert(cover_ok(nodes.len() as int, was, self.home@, j));
            assert(open[j].start == was[j].start);
        }
        assert forall|v: int| 0 <= v < nodes.len() implies #[trigger] leaf_ok(
            nodes,
            self.samples@,
            self.order@,
            self.home@,
            self.ranges@,
            v,
        ) by {
            assert(leaf_ok(nodes, self.samples@, self.order@, self.home@, self.ranges@, v));
        }
    }

    /// The samples are where they were once the node in hand is a leaf.
    proof fn lemma_leaf_routes(&self, before: &TreeBuilder, item: WorkItem)
        requires
            before.inv(Some(item)),
            before.routes(Some(item)),
            self.samples@ == before.samples@,
            self.order@ == before.order@,
            self.queue@ == before.queue@,
            self.home@ == before.home@,
            self.nodes@.len() == before.nodes@.len() + 1,
            self.nodes@.take(before.nodes@.len() as int) == before.nodes@,
            self.ranges@ == before.ranges@.push((item.start as int, item.end as int)),
            is_leaf_for(self.nodes@.last(), self.samples@, self.order@, item),
        ensures
            self.routes(None),
    {
        let nodes = self.nodes@;
        let was = before.nodes@;
        let open = open_of(Some(item), before.queue@);
        let rest = open_of(None, self.queue@);
        let built = was.len() as int;
        assert(open[0] == item);
        assert forall|k: int| 0 <= k < self.samples@.len() implies #[trigger] place_ok(
            nodes,
            rest,
            self.samples@,
            self.order@,
            self.home@,
            self.ranges@,
            k,
        ) by {
            assert(place_ok(was, open, self.samples@, self.order@, self.home@, before.ranges@, k));
            let at = self.home@[k];
            lemma_on_way_kept(was, nodes, self.samples@[self.order@[k] as int].features@, 0, at);
            if at < built {
                assert(nodes[at] == was[at]);
                assert(self.ranges@[at] == before.ranges@[at]);
            } else if at == built {
                assert(nodes[at] == nodes.last());
            } else {
                assert(rest[at - nodes.len()] == open[at - built]);
            }
        }
        assert forall|j: int| 0 <= j < rest.len() implies #[trigger] cover_ok(
            nodes.len() as int,
            rest,
            self.home@,
            j,
        ) by {
            assert(cover_ok(built, open, self.home@, j + 1));
            assert(rest[j] == open[j + 1]);
        }
        assert forall|v: int| 0 <= v < nodes.len() implies #[trigger] leaf_ok(
            nodes,
            self.samples@,
            self.order@,
            self.home@,
            self.ranges@,
            v,
        ) by {
            if v < built {
                assert(leaf_ok(was, self.samples@, self.order@, self.home@, before.ranges@, v));
                assert(nodes[v] == was[v]);
                assert(self.ranges@[v] == before.ranges@[v]);
            } else {
                assert(nodes[v] == nodes.last());
                assert(cover_ok(built, open, self.home@, 0));
                assert(item_ok(
                    was,
                    open,
                    0,
                    self.samples@.len() as nat,
                    before.width as nat,
                    before.min_samples_leaf as nat,
                ));
            }
        }
    }

    /// The samples of a node that has been split are on their ways to its
    /// children: to the first those that its rule sends to branch 0, to the
    /// second the others.
    proof fn lemma_internal_routes(
        &self,
        before: &TreeBuilder,
        item: WorkItem,
        split: StandardSplit,
        mid: int,
        stay: WorkItem,
        leave: WorkItem,
    )
        requires
            before.inv(Some(item)),
            before.routes(Some(item)),
            item.start <= mid <= item.end,
            self.samples@ == before.samples@,
            self.order@ == before.order@,
            self.queue@ == before.queue@.push(stay).push(leave),
            stay.start == item.start,
            stay.end == mid,
            leave.start == mid,
            leave.end == item.end,
            self.nodes@.len() == before.nodes@.len() + 1,
            self.nodes@.take(before.nodes@.len() as int) == before.nodes@,
            self.nodes@.last() matches Node::Internal { split_params, children, .. }
                && split_params == split && children@ == seq![
                (before.nodes@.len() + before.queue@.len() + 1) as usize,
                (before.nodes@.len() + before.queue@.len() + 2) as usize,
            ],
            before.nodes@.len() + before.queue@.len() + 2 <= usize::MAX,
            self.ranges@ == before.ranges@.push((item.start as int, item.end as int)),
            self.home@.len() == before.home@.len(),
            forall|k: int|
                0 <= k < self.home@.len() ==> #[trigger] self.home@[k] == (if item.start <= k < mid {
                    (before.nodes@.len() + before.queue@.len() + 1) as int
                } else if mid <= k < item.end {
                    (before.nodes@.len() + before.queue@.len() + 2) as int
                } else {
                    before.home@[k]
                }),
            forall|k: int|
                item.start <= k < mid ==> split.branch_of(
                    (#[trigger] before.samples@[before.order@[k] as int]).features@,
                ) == 0,
            forall|k: int|
                mid <= k < item.end ==> split.branch_of(
                    (#[trigger] before.samples@[before.order@[k] as int]).features@,
                ) == 1,
        ensures
            self.routes(None),
    {
        let nodes = self.nodes@;
        let was = before.nodes@;
        let open = open_of(Some(item), before.queue@);
        let rest = open_of(None, self.queue@);
        let built = was.len() as int;
        let waiting = before.queue@.len() as int;
        let first = built + waiting + 1;
        let n = self.samples@.len();
        assert(open[0] == item);
        assert(item_ok(was, open, 0, n as nat, before.width as nat, before.min_samples_leaf as nat));
        assert(rest[waiting] == stay);
        assert(rest[waiting + 1] == leave);
        assert(nodes.last().children_of()[0] == first);
        assert(nodes.last().children_of()[1] == first + 1);
        assert forall|k: int| 0 <= k < n implies #[trigger] place_ok(
            nodes,
            rest,
            self.samples@,
            self.order@,
            self.home@,
            self.ranges@,
            k,
        ) by {
            assert(place_ok(was, open, self.samples@, self.order@, before.home@, before.ranges@, k));
            let sample = self.samples@[self.order@[k] as int];
            let features = sample.features@;
            if item.start <= k < item.end {
                assert(cover_ok(built, open, before.home@, 0));
                assert(before.home@[k] == built);
                lemma_on_way_extended(was, nodes, features, 0);
                if k < mid {
                    assert(split.branch_of(sample.features@) == 0);
                } else {
                    assert(split.branch_of(sample.features@) == 1);
                }
            } else {
                let at = before.home@[k];
                lemma_on_way_kept(was, nodes, features, 0, at);
                if at < built {
                    assert(nodes[at] == was[at]);
                    assert(self.ranges@[at] == before.ranges@[at]);
                } else {
                    assert(at != built);
                    assert(rest[at - nodes.len()] == open[at - built]);
                }
            }
        }
        assert forall|j: int| 0 <= j < rest.len() implies #[trigger] cover_ok(
            nodes.len() as int,
            rest,
            self.home@,
            j,
        ) by {
            if j < waiting {
                assert(cover_ok(built, open, before.home@, j + 1));
                assert(cover_ok(built, open, before.home@, 0));
                assert(rest[j] == open[j + 1]);
                assert(item_ok(
                    was,
                    open,
                    j + 1,
                    n as nat,
                    before.width as nat,
                    before.min_samples_leaf as nat,
                ));
                assert forall|k: int| rest[j].start <= k < rest[j].end implies #[trigger] self.home@[k]
                    == nodes.len() + j by {
                    assert(before.home@[k] == built + j + 1);
                    if item.start <= k < item.end {
                        assert(before.home@[k] == built);
                    }
                }
            }
        }
        assert forall|v: int| 0 <= v < nodes.len() implies #[trigger] leaf_ok(
            nodes,
            self.samples@,
            self.order@,
            self.home@,
            self.ranges@,
            v,
        ) by {
            if v < built {
                assert(leaf_ok(was, self.samples@, self.order@, before.home@, before.ranges@, v));
                assert(nodes[v] == was[v]);
                assert(self.ranges@[v] == before.ranges@[v]);
                if was[v] is External {
                    let (low, high) = before.ranges@[v];
                    assert(cover_ok(built, open, before.home@, 0));
                    assert forall|k: int| low <= k < high implies #[trigger] self.home@[k] == v by {
                        assert(before.home@[k] == v);
                        if item.start <= k < item.end {
                            assert(before.home@[k] == built);
                        }
                    }
                }
            } else {
                assert(nodes[v] == nodes.last());
            }
        }
    }

    /// The samples are where they were when the samples of the node in hand
    /// change places among themselves.
    proof fn lemma_reordered_routes(&self, before: &TreeBuilder, item: WorkItem)
        requires
            before.inv(Some(item)),
            before.routes(Some(item)),
            self.nodes@ == before.nodes@,
            self.samples@ == before.samples@,
            self.queue@ == before.queue@,
            self.home@ == before.home@,
            self.ranges@ == before.ranges@,
            self.order@.len() == before.order@.len(),
            forall|k: int|
                0 <= k < item.start || item.end <= k < before.order@.len() ==> self.order@[k]
                    == before.order@[k],
            self.order@.subrange(item.start as int, item.end as int).to_multiset()
                == before.order@.subrange(item.start as int, item.end as int).to_multiset(),
        ensures
            self.routes(Some(item)),
    {
        let nodes = self.nodes@;
        let open = open_of(Some(item), self.queue@);
        let n = self.samples@.len();
        let built = nodes.len() as int;
        let old_range = before.order@.subrange(item.start as int, item.end as int);
        let new_range = self.order@.subrange(item.start as int, item.end as int);
        assert(open[0] == item);
        assert(item_ok(nodes, open, 0, n as nat, before.width as nat, before.min_samples_leaf as nat));
        assert(cover_ok(built, open, self.home@, 0));
        old_range.to_multiset_ensures();
        new_range.to_multiset_ensures();
        assert(old_range.no_duplicates()) by {
            assert forall|a: int, b: int|
                0 <= a < old_range.len() && 0 <= b < old_range.len() && a != b implies old_range[a]
                != old_range[b] by {
                assert(before.order@[item.start + a] != before.order@[item.start + b]);
            }
        }
        lemma_shuffle_keeps_distinct(old_range, new_range);
        assert forall|a: int, b: int|
            0 <= a < self.order@.len() && 0 <= b < self.order@.len() && a != b implies self.order@[a]
            != self.order@[b] by {
            let inside_a = item.start <= a < item.end;
            let inside_b = item.start <= b < item.end;
            if inside_a && inside_b {
                assert(new_range[a - item.start] != new_range[b - item.start]);
            } else if inside_a {
                assert(new_range[a - item.start] == self.order@[a]);
                assert(old_range.contains(self.order@[a]));
                let i = choose|i: int| 0 <= i < old_range.len() && old_range[i] == self.order@[a];
                assert(before.order@[item.start + i] != before.order@[b]);
            } else if inside_b {
                assert(new_range[b - item.start] == self.order@[b]);
                assert(old_range.contains(self.order@[b]));
                let i = choose|i: int| 0 <= i < old_range.len() && old_range[i] == self.order@[b];
                assert(before.order@[item.start + i] != before.order@[a]);
            } else {
                assert(before.order@[a] != before.order@[b]);
            }
        }
        assert forall|k: int| 0 <= k < n implies #[trigger] place_ok(
            nodes,
            open,
            self.samples@,
            self.order@,
            self.home@,
            self.ranges@,
            k,
        ) by {
            assert(place_ok(nodes, open, self.samples@, before.order@, self.home@, self.ranges@, k));
            if item.start <= k < item.end {
                assert(new_range[k - item.start] == self.order@[k]);
                assert(old_range.contains(self.order@[k]));
                let i = choose|i: int| 0 <= i < old_range.len() && old_range[i] == self.order@[k];
                assert(place_ok(
                    nodes,
                    open,
                    self.samples@,
                    before.order@,
                    self.home@,
                    self.ranges@,
                    item.start + i,
                ));
                assert(self.home@[item.start + i] == built);
                assert(self.home@[k] == built);
            }
        }
        assert forall|j: int| 0 <= j < open.len() implies #[trigger] cover_ok(
            built,
            open,
            self.home@,
            j,
        ) by {
            assert(cover_ok(built, open, before.home@, j));
        }
        assert forall|v: int| 0 <= v < nodes.len() implies #[trigger] leaf_ok(
            nodes,
            self.samples@,
            self.order@,
            self.home@,
            self.ranges@,
            v,
        ) by {
            assert(leaf_ok(nodes, self.samples@, before.order@, self.home@, self.ranges@, v));
            if nodes[v] is External {
                let (low, high) = self.ranges@[v];
                assert forall|k: int| low <= k < high implies self.order@[k] == before.order@[k] by {
                    assert(self.home@[k] == v);
                    if item.start <= k < item.end {
                        assert(self.home@[k] == built);
                    }
                }
                assert(labels_in(self.samples@, self.order@, low, high) == labels_in(
                    self.samples@,
                    before.order@,
                    low,
                    high,
                ));
            }
        }
    }

    /// Once nothing is open, every leaf holds the training samples that
    /// fall into it.
    proof fn lemma_done_routed(&self)
        requires
            self.inv(None),
            self.routes(None),
            self.queue@.len() == 0,
        ensures
            routed(self.nodes@, self.samples@, self.order@),
            self.order@.no_duplicates(),
            self.order@.len() == self.samples@.len(),
            indexes(self.order@, self.samples@.len()),
    {
        let nodes = self.nodes@;
        let open = open_of(None, self.queue@);
        let n = self.samples@.len();
        self.lemma_done_tree();
        assert forall|leaf: int| 0 <= leaf < nodes.len() && (#[trigger] nodes[leaf]) is External implies exists|
            first: int,
        |
            leaf_holds(nodes, self.samples@, self.order@, leaf, first) by {
            assert(leaf_ok(nodes, self.samples@, self.order@, self.home@, self.ranges@, leaf));
            let (low, high) = self.ranges@[leaf];
            assert forall|k: int| 0 <= k < self.order@.len() implies (#[trigger] lands(
                nodes,
                self.samples@,
                self.order@,
                k,
            ) == leaf <==> low <= k < high) by {
                assert(place_ok(nodes, open, self.samples@, self.order@, self.home@, self.ranges@, k));
                let features = self.samples@[self.order@[k] as int].features@;
                let at = self.home@[k];
                lemma_on_way_ends(nodes, features, 0, at);
                if low <= k < high {
                    assert(self.home@[k] == leaf);
                }
            }
            assert(leaf_holds(nodes, self.samples@, self.order@, leaf, low));
        }
    }

    /// Records the node in hand as a leaf.
    fn emit_leaf(&mut self, item: WorkItem)
        requires
            old(self).current is None,
            old(self).candidate is None,
            old(self).inv(Some(item)),
            old(self).routes(Some(item)),
        ensures
            final(self).inv(None),
            final(self).routes(None),
            final(self).current is None,
            final(self).candidate is None,
            final(self).queue@ == old(self).queue@,
            final(self).samples@ == old(self).samples@,
            final(self).order@ == old(self).order@,
            final(self).width == old(self).width,
            final(self).max_depth == old(self).max_depth,
            final(self).min_samples_split == old(self).min_samples_split,
            final(self).min_samples_leaf == old(self).min_samples_leaf,
            final(self).nodes@.len() == old(self).nodes@.len() + 1,
            final(self).nodes@.take(old(self).nodes@.len() as int) == old(self).nodes@,
            is_leaf_for(final(self).nodes@.last(), old(self).samples@, old(self).order@, item),
    {
        let id: usize = self.nodes.len();
        let ghost open = open_of(Some(item), self.queue@);
        assert(open[0] == item);
        assert(item_ok(
            self.nodes@,
            open,
            0,
            self.samples@.len() as nat,
            self.width as nat,
            self.min_samples_leaf as nat,
        ));
        let mut labels: Vec<isize> = Vec::new();
        let mut k: usize = item.start;
        while k < item.end
            invariant
                item.start <= k <= item.end <= self.order@.len(),
                self.order@.len() == self.samples@.len(),
                indexes(self.order@, self.samples@.len() as nat),
                labels@ == labels_in(self.samples@, self.order@, item.start as int, k as int),
            decreases item.end - k,
        {
            labels.push(self.samples[self.order[k]].target);
            assert(labels_in(self.samples@, self.order@, item.start as int, k + 1) == labels_in(
                self.samples@,
                self.order@,
                item.start as int,
                k as int,
            ).push(self.samples@[self.order@[k as int] as int].target));
            k += 1;
        }
        let class: isize = majority_label(&labels);
        let leaf = Node::External { id, class, depth: item.depth, n_samples: item.end - item.start };
        let ghost before = self.nodes@;
        let ghost entry = *self;
        self.nodes.push(leaf);
        self.ranges = Ghost(self.ranges@.push((item.start as int, item.end as int)));
        proof {
            assert(self.nodes@.take(before.len() as int) == before);
            self.lemma_leaf_routes(&entry, item);
        }
        proof {
            let nodes = self.nodes@;
            let rest = open_of(None, self.queue@);
            let n = self.samples@.len();
            assert(nodes.take(before.len() as int) == before);
            assert forall|i: int| 0 <= i < nodes.len() implies #[trigger] node_ok(
                nodes,
                rest,
                i,
                self.width as nat,
                self.max_depth as nat,
                self.min_samples_split as nat,
                self.min_samples_leaf as nat,
            ) by {
                if i < before.len() {
                    assert(node_ok(
                        before,
                        open,
                        i,
                        self.width as nat,
                        self.max_depth as nat,
                        self.min_samples_split as nat,
                        self.min_samples_leaf as nat,
                    ));
                    assert(nodes[i] == before[i]);
                }
            }
            assert forall|j: int| 0 <= j < rest.len() implies #[trigger] item_ok(
                nodes,
                rest,
                j,
                n,
                self.width as nat,
                self.min_samples_leaf as nat,
            ) by {
                assert(item_ok(
                    before,
                    open,
                    j + 1,
                    n,
                    self.width as nat,
                    self.min_samples_leaf as nat,
                ));
                assert(rest[j] == open[j + 1]);
            }
            assert forall|p: int, q: int|
                0 <= p < nodes.len() && 0 <= q < nodes.len() implies #[trigger] in_order(
                nodes,
                p,
                q,
            ) by {
                if p < before.len() && q < before.len() {
                    assert(in_order(before, p, q));
                }
            }
            assert forall|v: int| 1 <= v < nodes.len() implies #[trigger] has_parent(nodes, v) by {
                if v < before.len() {
                    assert(has_parent(before, v));
                    let p = choose|p: int| #[trigger] holds_child(before, p, v);
                    let slot = choose|slot: int|
                        0 <= slot < before[p].children_of().len()
                            && #[trigger] before[p].children_of()[slot] == v;
                    assert(nodes[p].children_of()[slot] == v);
                    assert(holds_child(nodes, p, v));
                } else {
                    let p = item.parent.unwrap() as int;
                    assert(node_ok(
                        before,
                        open,
                        p,
                        self.width as nat,
                        self.max_depth as nat,
                        self.min_samples_split as nat,
                        self.min_samples_leaf as nat,
                    ));
                    assert(nodes[p] == before[p]);
                    if before[p].children_of()[0] == v {
                        assert(nodes[p].children_of()[0] == v);
                    } else {
                        assert(nodes[p].children_of()[1] == v);
                    }
                    assert(holds_child(nodes, p, v));
                }
            }
            lemma_leaf_samples_prefix(nodes, before, before.len() as int);
            assert forall|v: int| 1 <= v < nodes.len() implies (#[trigger] nodes[v]).samples_of()
                >= self.min_samples_leaf && nodes[v].samples_of() >= 1 by {
                if v < before.len() {
                    assert(nodes[v] == before[v]);
                }
            }
            if before.len() > 0 {
                assert(nodes[0] == before[0]);
            }
        }
    }

    /// Records the node in hand as an internal node ruled by `split`, and
    /// queues its two children: the samples before `mid` and those from
    /// `mid` on.
    fn emit_internal(&mut self, item: WorkItem, split: StandardSplit, mid: usize)
        requires
            old(self).current is None,
            old(self).candidate is None,
            old(self).inv(Some(item)),
            old(self).has_room(),
            item.start <= mid <= item.end,
            mid - item.start >= old(self).min_samples_leaf,
            item.end - mid >= old(self).min_samples_leaf,
            mid - item.start >= 1,
            item.end - mid >= 1,
            item.depth < old(self).max_depth,
            span(item) >= old(self).min_samples_split,
            span(item) >= 2 * old(self).min_samples_leaf,
            split.feature < old(self).width,
            old(self).routes(Some(item)),
            forall|k: int|
                item.start <= k < mid ==> split.branch_of(
                    (#[trigger] old(self).samples@[old(self).order@[k] as int]).features@,
                ) == 0,
            forall|k: int|
                mid <= k < item.end ==> split.branch_of(
                    (#[trigger] old(self).samples@[old(self).order@[k] as int]).features@,
                ) == 1,
        ensures
            final(self).inv(None),
            final(self).routes(None),
            final(self).current is None,
            final(self).candidate is None,
            final(self).samples@ == old(self).samples@,
            final(self).order@ == old(self).order@,
            final(self).width == old(self).width,
            final(self).max_depth == old(self).max_depth,
            final(self).min_samples_split == old(self).min_samples_split,
            final(self).min_samples_leaf == old(self).min_samples_leaf,
            final(self).queue@.len() == old(self).queue@.len() + 2,
            final(self).nodes@.len() == old(self).nodes@.len() + 1,
            final(self).nodes@.take(old(self).nodes@.len() as int) == old(self).nodes@,
            final(self).nodes@.last() matches Node::Internal {
                split_params,
                depth,
                n_samples,
                impurity,
                ..
            } && split_params == split && depth == item.depth && n_samples == span(item)
                && impurity == Impurity::Unknown,
            final(self).nodes@.last().children_of() == seq![
                (old(self).nodes@.len() + old(self).queue@.len() + 1) as usize,
                (old(self).nodes@.len() + old(self).queue@.len() + 2) as usize,
            ],
            final(self).queue@.take(old(self).queue@.len() as int) == old(self).queue@,
            are_children(
                final(self).queue@[old(self).queue@.len() as int],
                final(self).queue@[(old(self).queue@.len() + 1) as int],
                item,
                old(self).nodes@.len() as int,
                mid as int,
                item.features@,
            ),
    {
        let id: usize = self.nodes.len();
        let first: usize = id + self.queue.len() + 1;
        let ghost open = open_of(Some(item), self.queue@);
        let ghost before = self.nodes@;
        let ghost waiting = self.queue@;
        assert(open[0] == item);
        assert(item_ok(
            before,
            open,
            0,
            self.samples@.len() as nat,
            self.width as nat,
            self.min_samples_leaf as nat,
        ));
        let node = Node::Internal {
            id,
            split_params: split,
            children: vec![first, first + 1],
            n_children: 2,
            depth: item.depth,
            impurity: Impurity::Unknown,
            n_samples: item.end - item.start,
        };
        let pool: Vec<usize> = item.features.clone();
        let stay = WorkItem {
            start: item.start,
            end: mid,
            depth: item.depth + 1,
            parent: Some(id),
            features: pool,
            impurity: Impurity::Unknown,
        };
        let leave = WorkItem {
            start: mid,
            end: item.end,
            depth: item.depth + 1,
            parent: Some(id),
            features: item.features,
            impurity: Impurity::Unknown,
        };
        let ghost entry = *self;
        self.nodes.push(node);
        self.queue.push_back(stay);
        self.queue.push_back(leave);
        self.ranges = Ghost(self.ranges@.push((item.start as int, item.end as int)));
        self.home = Ghost(
            Seq::new(
                self.home@.len(),
                |k: int|
                    if item.start <= k < mid {
                        first as int
                    } else if mid <= k < item.end {
                        (first + 1) as int
                    } else {
                        entry.home@[k]
                    },
            ),
        );
        proof {
            assert(self.nodes@.take(before.len() as int) == before);
            self.lemma_internal_routes(&entry, item, split, mid as int, stay, leave);
        }
        proof {
            let nodes = self.nodes@;
            let rest = open_of(None, self.queue@);
            let n = self.samples@.len();
            assert(nodes.take(before.len() as int) == before);
            assert(rest == waiting.push(stay).push(leave));
            assert(pool@ == item.features@);
            assert(nodes[id as int].children_of() == seq![first, (first + 1) as usize]);
            assert forall|i: int| 0 <= i < nodes.len() implies #[trigger] node_ok(
                nodes,
                rest,
                i,
                self.width as nat,
                self.max_depth as nat,
                self.min_samples_split as nat,
                self.min_samples_leaf as nat,
            ) by {
                if i < before.len() {
                    assert(node_ok(
                        before,
                        open,
                        i,
                        self.width as nat,
                        self.max_depth as nat,
                        self.min_samples_split as nat,
                        self.min_samples_leaf as nat,
                    ));
                    assert(nodes[i] == before[i]);
                } else {
                    assert(rest[first - nodes.len()] == stay);
                    assert(rest[first + 1 - nodes.len()] == leave);
                }
            }
            assert forall|j: int| 0 <= j < rest.len() implies #[trigger] item_ok(
                nodes,
                rest,
                j,
                n,
                self.width as nat,
                self.min_samples_leaf as nat,
            ) by {
                if j < waiting.len() {
                    assert(item_ok(
                        before,
                        open,
                        j + 1,
                        n,
                        self.width as nat,
                        self.min_samples_leaf as nat,
                    ));
                    assert(rest[j] == open[j + 1]);
                    let p = rest[j].parent.unwrap() as int;
                    assert(nodes[p] == before[p]);
                } else if j == waiting.len() {
                    assert(rest[j] == stay);
                } else {
                    assert(rest[j] == leave);
                }
            }
            assert forall|p: int, q: int|
                0 <= p < nodes.len() && 0 <= q < nodes.len() implies #[trigger] in_order(
                nodes,
                p,
                q,
            ) by {
                if p < before.len() && q < before.len() {
                    assert(in_order(before, p, q));
                } else if p < before.len() {
                    assert(node_ok(
                        before,
                        open,
                        p,
                        self.width as nat,
                        self.max_depth as nat,
                        self.min_samples_split as nat,
                        self.min_samples_leaf as nat,
                    ));
                    assert(nodes[p] == before[p]);
                }
            }
            assert forall|v: int| 1 <= v < nodes.len() implies #[trigger] has_parent(nodes, v) by {
                if v < before.len() {
                    assert(has_parent(before, v));
                    let p = choose|p: int| #[trigger] holds_child(before, p, v);
                    let slot = choose|slot: int|
                        0 <= slot < before[p].children_of().len()
                            && #[trigger] before[p].children_of()[slot] == v;
                    assert(nodes[p].children_of()[slot] == v);
                    assert(holds_child(nodes, p, v));
                } else {
                    let p = item.parent.unwrap() as int;
                    assert(node_ok(
                        before,
                        open,
                        p,
                        self.width as nat,
                        self.max_depth as nat,
                        self.min_samples_split as nat,
                        self.min_samples_leaf as nat,
                    ));
                    assert(nodes[p] == before[p]);
                    if before[p].children_of()[0] == v {
                        assert(nodes[p].children_of()[0] == v);
                    } else {
                        assert(nodes[p].children_of()[1] == v);
                    }
                    assert(holds_child(nodes, p, v));
                }
            }
            lemma_leaf_samples_prefix(nodes, before, before.len() as int);
            lemma_pending_push(waiting, stay);
            lemma_pending_push(waiting.push(stay), leave);
            assert forall|v: int| 1 <= v < nodes.len() implies (#[trigger] nodes[v]).samples_of()
                >= self.min_samples_leaf && nodes[v].samples_of() >= 1 by {
                if v < before.len() {
                    assert(nodes[v] == before[v]);
                }
            }
            if before.len() > 0 {
                assert(nodes[0] == before[0]);
            }
        }
    }


    /// Whether the node in hand ends its branch.
    fn stops(&self, item: &WorkItem) -> (stop: bool)
        requires
            item.start <= item.end,
        ensures
            stop == must_stop(
                self.max_depth as nat,
                self.min_samples_split as nat,
                self.min_samples_leaf as nat,
                item.depth as nat,
                span(*item) as nat,
                item.features@.len(),
                item.impurity,
            ),
    {
        let size: usize = item.end - item.start;
        item.depth >= self.max_depth || size < self.min_samples_split || size / 2
            < self.min_samples_leaf || item.features.len() == 0 || item.impurity == Impurity::Zero
    }

    /// What links the builder's open nodes to those at the start of a run
    /// that has turned `added` of them into leaves: the queue is what was
    /// left of them, and the node under work is the next of them with a
    /// pool that lacks only features that do not vary.
    closed spec fn tracks(&self, start: Seq<WorkItem>, added: int) -> bool {
        &&& 0 <= added <= start.len()
        &&& match self.current {
            Some(item) => {
                &&& added < start.len()
                &&& same_place(item, start[added])
                &&& self.queue@ == start.subrange(added + 1, start.len() as int)
                &&& forall|f: int|
                    0 <= f < item.features@.len() ==> start[added].features@.contains(
                        #[trigger] item.features@[f],
                    )
                &&& forall|f: int|
                    0 <= f < start[added].features@.len() ==> item.features@.contains(
                        #[trigger] start[added].features@[f],
                    ) || !varies(
                        self.samples@,
                        self.order@,
                        item.start as int,
                        item.end as int,
                        start[added].features@[f] as int,
                    )
            },
            None => self.queue@ == start.subrange(added, start.len() as int),
        }
    }

    /// Runs until a threshold is needed or nothing is left to decide.
    ///
    /// Open nodes are taken in order. A node that must stop becomes a leaf.
    /// Otherwise its features are shuffled and tried from the last one: a
    /// feature that does not vary over the node's samples is dropped, and
    /// for the first one that varies the builder asks for a threshold. A
    /// node whose features are all dropped becomes a leaf.
    ///
    /// So whatever the shuffles give: the nodes passed over could not be
    /// split and are leaves now, and a threshold is asked for the first
    /// open node that can be split, on a feature of its pool that varies.
    pub fn advance(&mut self, random_state: &mut RandomGenerator) -> (action: BuildAction)
        requires
            old(self).wf(),
            !old(self).awaiting(),
        ensures
            final(self).wf(),
            final(self).data() == old(self).data(),
            final(self).ranking() == old(self).ranking(),
            final(self).feature_count() == old(self).feature_count(),
            final(self).depth_limit() == old(self).depth_limit(),
            final(self).split_floor() == old(self).split_floor(),
            final(self).leaf_floor() == old(self).leaf_floor(),
            final(self).arena().len() >= old(self).arena().len(),
            final(self).arena().len() - old(self).arena().len() <= old(self).open().len(),
            final(self).arena().take(old(self).arena().len() as int) == old(self).arena(),
            forall|j: int|
                0 <= j < final(self).arena().len() - old(self).arena().len() ==> is_leaf_for(
                    #[trigger] final(self).arena()[old(self).arena().len() + j],
                    old(self).data(),
                    old(self).ranking(),
                    old(self).open()[j],
                ) && !splittable(
                    old(self).data(),
                    old(self).ranking(),
                    old(self).open()[j],
                    old(self).depth_limit() as nat,
                    old(self).split_floor() as nat,
                    old(self).leaf_floor() as nat,
                ),
            final(self).open().len() == old(self).open().len() - (final(self).arena().len() - old(
                self,
            ).arena().len()),
            forall|j: int|
                1 <= j < final(self).open().len() ==> #[trigger] final(self).open()[j] == old(
                    self,
                ).open()[final(self).arena().len() - old(self).arena().len() + j],
            match action {
                BuildAction::Done => final(self).finished() && final(self).open().len() == 0,
                BuildAction::Draw { feature, low, high } => {
                    let keys = final(self).focus_keys(feature as int);
                    let passed = final(self).arena().len() - old(self).arena().len();
                    &&& final(self).awaiting()
                    &&& final(self).asked_feature() == feature
                    &&& feature < final(self).feature_count()
                    &&& low < high
                    &&& keys.contains(low)
                    &&& keys.contains(high)
                    &&& forall|k: int| 0 <= k < keys.len() ==> low <= #[trigger] keys[k] <= high
                    &&& final(self).open().len() >= 1
                    &&& same_place(final(self).open()[0], old(self).open()[passed])
                    &&& old(self).open()[passed].features@.contains(feature)
                    &&& forall|f: int|
                        0 <= f < final(self).open()[0].features@.len() ==> old(
                            self,
                        ).open()[passed].features@.contains(
                            #[trigger] final(self).open()[0].features@[f],
                        )
                    &&& forall|f: int|
                        0 <= f < old(self).open()[passed].features@.len() ==> {
                            let kept = #[trigger] old(self).open()[passed].features@[f];
                            ||| kept == feature
                            ||| final(self).open()[0].features@.contains(kept)
                            ||| !varies(
                                old(self).data(),
                                old(self).ranking(),
                                old(self).open()[passed].start as int,
                                old(self).open()[passed].end as int,
                                kept as int,
                            )
                        }
                    &&& splittable(
                        old(self).data(),
                        old(self).ranking(),
                        old(self).open()[passed],
                        old(self).depth_limit() as nat,
                        old(self).split_floor() as nat,
                        old(self).leaf_floor() as nat,
                    )
                },
            },
    {
        let ghost start = self.open();
        let ghost base = self.nodes@.len() as int;
        proof {
            if self.current is Some {
                assert(start[0] == self.current.unwrap());
                assert(self.queue@ == start.subrange(1, start.len() as int));
            } else {
                assert(self.queue@ == start.subrange(0, start.len() as int));
            }
        }
        loop
            invariant
                self.wf(),
                self.candidate is None,
                self.samples@ == old(self).samples@,
                self.order@ == old(self).order@,
                self.width == old(self).width,
                self.max_depth == old(self).max_depth,
                self.min_samples_split == old(self).min_samples_split,
                self.min_samples_leaf == old(self).min_samples_leaf,
                start == old(self).open(),
                base == old(self).nodes@.len(),
                self.nodes@.len() >= base,
                self.nodes@.take(base) == old(self).nodes@,
                self.tracks(start, self.nodes@.len() - base),
                self.leaves_made(self.nodes@, start, base),
            decreases
                    2 * self.queue@.len() + (if self.current is Some {
                        1nat
                    } else {
                        0nat
                    }),
                    (if self.current is Some {
                        self.current.unwrap().features@.len()
                    } else {
                        0nat
                    }),
        {
            let ghost entry = *self;
            let ghost grown = self.nodes@;
            let ghost added = self.nodes@.len() - base;
            match self.current.take() {
                None => {
                    let ghost waiting = self.queue@;
                    assert(self.inv(None));
                    assert(open_of(None, waiting) == waiting);
                    match self.queue.pop_front() {
                        None => {
                            assert(self.open().len() == 0);
                            proof {
                                self.lemma_leaves_same(&entry, start, base);
                            }
                            return BuildAction::Done;
                        },
                        Some(next) => {
                            proof {
                                lemma_pending_pop(waiting);
                                assert(open_of(Some(next), self.queue@) == waiting);
                                assert(item_ok(
                                    self.nodes@,
                                    waiting,
                                    0,
                                    self.samples@.len() as nat,
                                    self.width as nat,
                                    self.min_samples_leaf as nat,
                                ));
                                assert(next == start[added]);
                                assert(self.queue@ == start.subrange(added + 1, start.len() as int));
                                self.lemma_routes_same(&entry, None, Some(next));
                            }
                            if self.stops(&next) {
                                proof {
                                    assert(!splittable(
                                        self.samples@,
                                        self.order@,
                                        start[added],
                                        self.max_depth as nat,
                                        self.min_samples_split as nat,
                                        self.min_samples_leaf as nat,
                                    ));
                                }
                                self.emit_leaf(next);
                                proof {
                                    assert(is_leaf_for(
                                        self.nodes@.last(),
                                        self.samples@,
                                        self.order@,
                                        start[added],
                                    ));
                                    self.lemma_leaves_kept(&entry, grown, start, base);
                                }
                            } else {
                                let mut next = next;
                                let ghost pool = next.features@;
                                let ghost unshuffled = next;
                                shuffle(&mut next.features, random_state);
                                proof {
                                    next.features@.to_multiset_ensures();
                                    pool.to_multiset_ensures();
                                    assert forall|f: int|
                                        0 <= f < next.features@.len() implies pool.contains(
                                        #[trigger] next.features@[f],
                                    ) by {
                                        let x = next.features@[f];
                                        assert(next.features@.contains(x));
                                        assert(next.features@.to_multiset().count(x) > 0);
                                        assert(pool.to_multiset().count(x) > 0);
                                    }
                                    assert forall|f: int|
                                        0 <= f < pool.len() implies next.features@.contains(
                                        #[trigger] pool[f],
                                    ) by {
                                        let x = pool[f];
                                        assert(pool.contains(x));
                                        assert(pool.to_multiset().count(x) > 0);
                                        assert(next.features@.to_multiset().count(x) > 0);
                                    }
                                    assert forall|f: int|
                                        0 <= f < next.features@.len() implies #[trigger] next.features@[f]
                                        < self.width by {
                                        let x = next.features@[f];
                                        assert(pool.contains(x));
                                        let at = choose|at: int| 0 <= at < pool.len() && pool[at] == x;
                                        assert(pool[at] < self.width);
                                    }
                                    self.lemma_repool(unshuffled, next);
                                }
                                let ghost popped = *self;
                                self.current = Some(next);
                                proof {
                                    self.lemma_routes_same(&popped, Some(unshuffled), Some(next));
                                    self.lemma_leaves_same(&entry, start, base);
                                }
                            }
                        },
                    }
                },
                Some(held) => {
                    let mut item = held;
                    let ghost before = held;
                    assert(self.inv(Some(item)));
                    proof {
                        self.lemma_routes_same(&entry, Some(held), Some(held));
                    }
                    let ghost taken = *self;
                    proof {
                        assert(open_of(Some(item), self.queue@)[0] == item);
                        assert(item_ok(
                            self.nodes@,
                            open_of(Some(item), self.queue@),
                            0,
                            self.samples@.len() as nat,
                            self.width as nat,
                            self.min_samples_leaf as nat,
                        ));
                    }
                    match item.features.pop() {
                        None => {
                            proof {
                                self.lemma_repool(before, item);
                                self.lemma_routes_same(&taken, Some(before), Some(item));
                                assert(!splittable(
                                    self.samples@,
                                    self.order@,
                                    start[added],
                                    self.max_depth as nat,
                                    self.min_samples_split as nat,
                                    self.min_samples_leaf as nat,
                                ));
                            }
                            self.emit_leaf(item);
                            proof {
                                assert(is_leaf_for(
                                    self.nodes@.last(),
                                    self.samples@,
                                    self.order@,
                                    start[added],
                                ));
                                self.lemma_leaves_kept(&entry, grown, start, base);
                            }
                        },
                        Some(feature) => {
                            proof {
                                assert(before.features@[before.features@.len() - 1] == feature);
                                assert(before.features@ == item.features@.push(feature));
                                self.lemma_repool(before, item);
                            }
                            let bounds = feature_bounds(
                                &self.samples,
                                &self.order,
                                item.start,
                                item.end,
                                feature,
                            );
                            let ghost first = item.start as int;
                            let ghost end = item.end as int;
                            let ghost reduced = item;
                            self.current = Some(item);
                            proof {
                                self.lemma_routes_same(&taken, Some(before), Some(reduced));
                            }
                            let asks: bool = match bounds {
                                Some((low, high)) => low < high,
                                None => false,
                            };
                            proof {
                                match bounds {
                                    Some((low, high)) => {
                                        lemma_bounds_decide(
                                            self.samples@,
                                            self.order@,
                                            first,
                                            end,
                                            feature as int,
                                            low,
                                            high,
                                        );
                                    },
                                    None => {},
                                }
                                assert(asks == varies(
                                    self.samples@,
                                    self.order@,
                                    first,
                                    end,
                                    feature as int,
                                ));
                                assert(before.features@.contains(feature));
                            }
                            if asks {
                                let (low, high) = match bounds {
                                    Some(pair) => pair,
                                    None => (0, 0),
                                };
                                self.candidate = Some(feature);
                                proof {
                                    let keys = self.focus_keys(feature as int);
                                    let at_low = choose|k: int|
                                        first <= k < end && #[trigger] key_at(
                                            self.samples@,
                                            self.order@,
                                            k,
                                            feature as int,
                                        ) == low;
                                    let at_high = choose|k: int|
                                        first <= k < end && #[trigger] key_at(
                                            self.samples@,
                                            self.order@,
                                            k,
                                            feature as int,
                                        ) == high;
                                    assert(keys[at_low - first] == low);
                                    assert(keys[at_high - first] == high);
                                    assert forall|k: int| 0 <= k < keys.len() implies low
                                        <= #[trigger] keys[k] <= high by {
                                        assert(keys[k] == key_at(
                                            self.samples@,
                                            self.order@,
                                            first + k,
                                            feature as int,
                                        ));
                                    }
                                    let target = start[added];
                                    assert(target.features@.contains(feature));
                                    let at = choose|at: int|
                                        0 <= at < target.features@.len() && target.features@[at]
                                            == feature;
                                    assert(varies(
                                        self.samples@,
                                        self.order@,
                                        target.start as int,
                                        target.end as int,
                                        target.features@[at] as int,
                                    ));
                                    assert(self.open()[0] == reduced);
                                    assert forall|j: int| 1 <= j < self.open().len() implies #[trigger] self.open()[j]
                                        == start[added + j] by {
                                        assert(self.open()[j] == self.queue@[j - 1]);
                                    }
                                    assert forall|f: int|
                                        0 <= f < reduced.features@.len() implies target.features@.contains(
                                        #[trigger] reduced.features@[f],
                                    ) by {
                                        assert(before.features@[f] == reduced.features@[f]);
                                    }
                                    assert forall|f: int|
                                        0 <= f < target.features@.len() implies ({
                                        let kept = #[trigger] target.features@[f];
                                        ||| kept == feature
                                        ||| reduced.features@.contains(kept)
                                        ||| !varies(
                                            self.samples@,
                                            self.order@,
                                            target.start as int,
                                            target.end as int,
                                            kept as int,
                                        )
                                    }) by {
                                        let kept = target.features@[f];
                                        if before.features@.contains(kept) && kept != feature {
                                            let at = choose|at: int|
                                                0 <= at < before.features@.len()
                                                    && before.features@[at] == kept;
                                            assert(reduced.features@[at] == kept);
                                        }
                                    }
                                }
                                proof {
                                    self.lemma_leaves_same(&entry, start, base);
                                }
                                return BuildAction::Draw { feature, low, high };
                            }
                            proof {
                                self.lemma_leaves_same(&entry, start, base);
                                let target = start[added];
                                assert forall|f: int|
                                    0 <= f < reduced.features@.len() implies target.features@.contains(
                                    #[trigger] reduced.features@[f],
                                ) by {
                                    assert(before.features@[f] == reduced.features@[f]);
                                }
                                assert forall|f: int|
                                    0 <= f < target.features@.len() implies reduced.features@.contains(
                                    #[trigger] target.features@[f],
                                ) || !varies(
                                    self.samples@,
                                    self.order@,
                                    reduced.start as int,
                                    reduced.end as int,
                                    target.features@[f] as int,
                                ) by {
                                    let g = target.features@[f];
                                    if before.features@.contains(g) && g != feature {
                                        let at = choose|at: int|
                                            0 <= at < before.features@.len() && before.features@[at]
                                                == g;
                                        assert(reduced.features@[at] == g);
                                    }
                                }
                            }
                        },
                    }
                },
            }
        }
    }

    /// The nodes of `nodes` from `base` on are the leaves of the first open
    /// nodes of `start`, none of which could be split.
    closed spec fn leaves_made(
        &self,
        nodes: Seq<Node<StandardSplit>>,
        start: Seq<WorkItem>,
        base: int,
    ) -> bool {
        forall|j: int|
            0 <= j < nodes.len() - base ==> is_leaf_for(
                #[trigger] nodes[base + j],
                self.samples@,
                self.order@,
                start[j],
            ) && !splittable(
                self.samples@,
                self.order@,
                start[j],
                self.max_depth as nat,
                self.min_samples_split as nat,
                self.min_samples_leaf as nat,
            )
    }

    /// Leaves that a run has made stay what they are when one more is
    /// added, and the one added is the leaf of the next open node.
    proof fn lemma_leaves_kept(
        &self,
        before: &TreeBuilder,
        grown: Seq<Node<StandardSplit>>,
        start: Seq<WorkItem>,
        base: int,
    )
        requires
            0 <= base <= grown.len(),
            before.samples@ == self.samples@,
            before.order@ == self.order@,
            before.max_depth == self.max_depth,
            before.min_samples_split == self.min_samples_split,
            before.min_samples_leaf == self.min_samples_leaf,
            self.nodes@.len() == grown.len() + 1,
            self.nodes@.take(grown.len() as int) == grown,
            grown.len() - base < start.len(),
            is_leaf_for(self.nodes@.last(), self.samples@, self.order@, start[grown.len() - base]),
            !splittable(
                self.samples@,
                self.order@,
                start[grown.len() - base],
                self.max_depth as nat,
                self.min_samples_split as nat,
                self.min_samples_leaf as nat,
            ),
            before.leaves_made(grown, start, base),
        ensures
            self.nodes@.take(base) == grown.take(base),
            self.leaves_made(self.nodes@, start, base),
    {
        assert(self.nodes@.take(base) == grown.take(base));
        assert forall|j: int| 0 <= j < self.nodes@.len() - base implies is_leaf_for(
            #[trigger] self.nodes@[base + j],
            self.samples@,
            self.order@,
            start[j],
        ) && !splittable(
            self.samples@,
            self.order@,
            start[j],
            self.max_depth as nat,
            self.min_samples_split as nat,
            self.min_samples_leaf as nat,
        ) by {
            if j < grown.len() - base {
                assert(self.nodes@[base + j] == grown[base + j]);
            }
        }
    }

    /// What was made stays made while the arena, the samples and their
    /// order stay.
    proof fn lemma_leaves_same(
        &self,
        before: &TreeBuilder,
        start: Seq<WorkItem>,
        base: int,
    )
        requires
            before.samples@ == self.samples@,
            before.order@ == self.order@,
            before.max_depth == self.max_depth,
            before.min_samples_split == self.min_samples_split,
            before.min_samples_leaf == self.min_samples_leaf,
            before.nodes@ == self.nodes@,
            before.leaves_made(before.nodes@, start, base),
        ensures
            self.leaves_made(self.nodes@, start, base),
    {
    }

    /// Whether `threshold` on the asked feature would split the node under
    /// work: both sides get at least the least leaf size, and two more nodes
    /// can be numbered.
    pub open spec fn accepts(&self, threshold: i64) -> bool {
        let keys = self.focus_keys(self.asked_feature() as int);
        let staying = count_at_least(keys, threshold);
        &&& staying >= self.leaf_floor()
        &&& keys.len() - staying >= self.leaf_floor()
        &&& self.arena().len() + self.open().len() + 1 <= usize::MAX
    }

    /// Takes the answer to a `Draw`.
    ///
    /// Without a threshold the asked feature is dropped from the node's
    /// pool. A threshold lies strictly between the least and the greatest
    /// key of the feature in the node, so neither side of its split is
    /// empty. With one, the node's samples are partitioned: those whose key
    /// is at least the threshold come first. A split that leaves either
    /// side under the least leaf size is rejected and the feature dropped.
    /// An accepted split puts the feature back into the pool, records the
    /// node as internal and queues its two children, one level deeper, with
    /// copies of the pool.
    pub fn supply(&mut self, threshold: Option<i64>)
        requires
            old(self).wf(),
            old(self).awaiting(),
            threshold matches Some(cut) ==> strictly_inside(
                old(self).focus_keys(old(self).asked_feature() as int),
                cut,
            ),
        ensures
            final(self).wf(),
            !final(self).awaiting(),
            final(self).data() == old(self).data(),
            final(self).feature_count() == old(self).feature_count(),
            final(self).depth_limit() == old(self).depth_limit(),
            final(self).split_floor() == old(self).split_floor(),
            final(self).leaf_floor() == old(self).leaf_floor(),
            final(self).arena().take(old(self).arena().len() as int) == old(self).arena(),
            final(self).ranking().len() == old(self).ranking().len(),
            forall|k: int|
                0 <= k < old(self).open()[0].start || old(self).open()[0].end <= k < old(
                    self,
                ).ranking().len() ==> #[trigger] final(self).ranking()[k] == old(self).ranking()[k],
            final(self).ranking().subrange(
                old(self).open()[0].start as int,
                old(self).open()[0].end as int,
            ).to_multiset() == old(self).ranking().subrange(
                old(self).open()[0].start as int,
                old(self).open()[0].end as int,
            ).to_multiset(),
            match threshold {
                Some(cut) => {
                    let focus = old(self).open()[0];
                    let feature = old(self).asked_feature() as int;
                    let mid = focus.start + count_at_least(old(self).focus_keys(feature), cut);
                    &&& forall|k: int|
                        focus.start <= k < mid ==> #[trigger] key_at(
                            final(self).data(),
                            final(self).ranking(),
                            k,
                            feature,
                        ) >= cut
                    &&& forall|k: int|
                        mid <= k < focus.end ==> #[trigger] key_at(
                            final(self).data(),
                            final(self).ranking(),
                            k,
                            feature,
                        ) < cut
                },
                None => final(self).ranking() == old(self).ranking(),
            },
            match threshold {
                Some(cut) if old(self).accepts(cut) => {
                    let grown = old(self).arena().len();
                    let waiting = old(self).open().len();
                    &&& final(self).arena().len() == grown + 1
                    &&& final(self).arena().last() matches Node::Internal {
                        split_params,
                        depth,
                        n_samples,
                        impurity,
                        ..
                    } && split_params == (StandardSplit {
                        feature: old(self).asked_feature(),
                        threshold: cut,
                    }) && depth == old(self).focus_depth() && n_samples == old(self).focus_keys(
                        old(self).asked_feature() as int,
                    ).len() && impurity == Impurity::Unknown
                    &&& final(self).arena().last().children_of() == seq![
                        (grown + waiting) as usize,
                        (grown + waiting + 1) as usize,
                    ]
                    &&& final(self).arena().last().samples_of() >= 2
                    &&& strictly_inside(
                        old(self).focus_keys(old(self).asked_feature() as int),
                        cut,
                    )
                    &&& final(self).open().len() == waiting + 1
                    &&& forall|j: int|
                        0 <= j < waiting - 1 ==> #[trigger] final(self).open()[j] == old(
                            self,
                        ).open()[j + 1]
                    &&& are_children(
                        final(self).open()[waiting - 1],
                        final(self).open()[waiting as int],
                        old(self).open()[0],
                        grown as int,
                        old(self).open()[0].start + count_at_least(
                            old(self).focus_keys(old(self).asked_feature() as int),
                            cut,
                        ),
                        old(self).open()[0].features@.push(old(self).asked_feature()),
                    )
                },
                _ => {
                    &&& final(self).arena() == old(self).arena()
                    &&& final(self).open().len() == old(self).open().len()
                    &&& same_place(final(self).open()[0], old(self).open()[0])
                    &&& final(self).open()[0].features@ == old(self).open()[0].features@
                    &&& forall|j: int|
                        1 <= j < old(self).open().len() ==> #[trigger] final(self).open()[j] == old(
                            self,
                        ).open()[j]
                },
            },
    {
        let feature: usize = match self.candidate.take() {
            Some(feature) => feature,
            None => vstd::pervasive::unreached(),
        };
        let mut item: WorkItem = match self.current.take() {
            Some(item) => item,
            None => vstd::pervasive::unreached(),
        };
        let ghost held = item;
        let ghost keys = old(self).focus_keys(feature as int);
        proof {
            self.lemma_routes_same(old(self), Some(held), Some(held));
        }
        let ghost taken = *self;
        proof {
            assert(open_of(Some(item), self.queue@)[0] == item);
            assert(item_ok(
                self.nodes@,
                open_of(Some(item), self.queue@),
                0,
                self.samples@.len() as nat,
                self.width as nat,
                self.min_samples_leaf as nat,
            ));
        }
        let ghost waiting = self.queue@;
        assert(old(self).open()[0] == held);
        match threshold {
            None => {
                self.current = Some(item);
                assert(self.nodes@.take(self.nodes@.len() as int) == self.nodes@);
                proof {
                    self.lemma_routes_same(&taken, Some(held), Some(held));
                    assert(self.open()[0] == held);
                    assert forall|j: int| 1 <= j < old(self).open().len() implies #[trigger] self.open()[j]
                        == old(self).open()[j] by {
                        assert(self.open()[j] == waiting[j - 1]);
                    }
                }
            },
            Some(cut) => {
                let split = StandardSplit { feature, threshold: cut };
                let ghost before = self.order@;
                proof {
                    lemma_stays_counts(
                        self.samples@,
                        before,
                        split,
                        item.start as int,
                        item.end as int,
                    );
                    assert(keys == focus_of(
                        self.samples@,
                        before,
                        feature as int,
                        item.start as int,
                        item.end as int,
                    ));
                }
                let mid: usize = split_samples(
                    &split,
                    &self.samples,
                    &mut self.order,
                    item.start,
                    item.end,
                );
                proof {
                    self.lemma_reordered_routes(&taken, held);
                    lemma_count_at_least(keys, cut);
                    assert(mid - item.start >= 1 && item.end - mid >= 1);
                }
                let ghost parted = *self;
                proof {
                    assert forall|k: int| item.start <= k < mid implies #[trigger] key_at(
                        self.samples@,
                        self.order@,
                        k,
                        feature as int,
                    ) >= cut by {
                        assert(split.branch_of(self.samples@[self.order@[k] as int].features@) == 0);
                    }
                    assert forall|k: int| mid <= k < item.end implies #[trigger] key_at(
                        self.samples@,
                        self.order@,
                        k,
                        feature as int,
                    ) < cut by {
                        assert(split.branch_of(self.samples@[self.order@[k] as int].features@) == 1);
                    }
                }
                let room: bool = self.nodes.len() <= usize::MAX - 2 && self.queue.len()
                    <= usize::MAX - 2 - self.nodes.len();
                if mid - item.start < self.min_samples_leaf || item.end - mid
                    < self.min_samples_leaf || !room {
                    self.current = Some(item);
                    assert(self.nodes@.take(self.nodes@.len() as int) == self.nodes@);
                    proof {
                        self.lemma_routes_same(&parted, Some(held), Some(held));
                        assert(self.open()[0] == held);
                        assert forall|j: int| 1 <= j < old(self).open().len() implies #[trigger] self.open()[j]
                            == old(self).open()[j] by {
                            assert(self.open()[j] == waiting[j - 1]);
                        }
                    }
                } else {
                    item.features.push(feature);
                    proof {
                        self.lemma_repool(held, item);
                        self.lemma_routes_same(&parted, Some(held), Some(item));
                    }
                    self.emit_internal(item, split, mid);
                    proof {
                        assert forall|j: int| 0 <= j < waiting.len() implies #[trigger] self.open()[j]
                            == old(self).open()[j + 1] by {
                            assert(self.queue@.take(waiting.len() as int)[j] == waiting[j]);
                        }
                    }
                }
            },
        }
    }

    /// What holds of a node once nothing is open.
    proof fn lemma_done_node(&self, i: int)
        requires
            self.inv(None),
            self.queue@.len() == 0,
            0 <= i < self.nodes@.len(),
        ensures
            self.nodes@[i].id_of() == i,
            conserves_at(self.nodes@, i),
            match self.nodes@[i] {
                Node::External { .. } => true,
                Node::Internal { split_params, children, n_children, depth, n_samples, .. } => {
                    &&& n_children == StandardSplit::branches()
                    &&& children@.len() == n_children
                    &&& split_params.feature < self.width
                    &&& i < children@[0] < self.nodes@.len()
                    &&& i < children@[1] < self.nodes@.len()
                    &&& children@[1] == children@[0] + 1
                    &&& self.nodes@[children@[0] as int].depth_of() == depth + 1
                    &&& self.nodes@[children@[1] as int].depth_of() == depth + 1
                    &&& depth < self.max_depth
                    &&& n_samples >= self.min_samples_split
                    &&& n_samples >= 2 * self.min_samples_leaf
                },
            },
    {
        assert(node_ok(
            self.nodes@,
            open_of(None, self.queue@),
            i,
            self.width as nat,
            self.max_depth as nat,
            self.min_samples_split as nat,
            self.min_samples_leaf as nat,
        ));
    }

    /// Once nothing is open, no node is listed twice.
    proof fn lemma_done_distinct(&self, p: int, k: int, q: int, j: int)
        requires
            self.inv(None),
            self.queue@.len() == 0,
            0 <= p < self.nodes@.len(),
            0 <= q < self.nodes@.len(),
            0 <= k < self.nodes@[p].children_of().len(),
            0 <= j < self.nodes@[q].children_of().len(),
            self.nodes@[p].children_of()[k] == self.nodes@[q].children_of()[j],
        ensures
            p == q,
            k == j,
    {
        self.lemma_done_node(p);
        self.lemma_done_node(q);
        assert(in_order(self.nodes@, p, q));
        assert(in_order(self.nodes@, q, p));
    }

    /// Once nothing is open, a child stands after its parent and one level
    /// deeper.
    proof fn lemma_done_child(&self, p: int, k: int)
        requires
            self.inv(None),
            self.queue@.len() == 0,
            0 <= p < self.nodes@.len(),
            0 <= k < self.nodes@[p].children_of().len(),
        ensures
            p < self.nodes@[p].children_of()[k] < self.nodes@.len(),
            self.nodes@[self.nodes@[p].children_of()[k] as int].depth_of() == self.nodes@[p].depth_of()
                + 1,
    {
        self.lemma_done_node(p);
    }

    /// Once nothing is open, the arena is a tree.
    proof fn lemma_done_tree(&self)
        requires
            self.inv(None),
            self.queue@.len() == 0,
        ensures
            arena_wf(self.nodes@),
    {
        let nodes = self.nodes@;
        assert(nodes.len() >= 1);
        assert forall|i: int| 0 <= i < nodes.len() implies (#[trigger] nodes[i]).id_of() == i by {
            self.lemma_done_node(i);
        }
        assert forall|i: int| 0 <= i < nodes.len() implies match #[trigger] nodes[i] {
            Node::External { .. } => true,
            Node::Internal { children, n_children, .. } => {
                &&& n_children == StandardSplit::branches()
                &&& children@.len() == n_children
            },
        } by {
            self.lemma_done_node(i);
        }
        assert forall|p: int, k: int|
            0 <= p < nodes.len() && 0 <= k < nodes[p].children_of().len() implies {
            let c = #[trigger] nodes[p].children_of()[k];
            &&& p < c < nodes.len()
            &&& nodes[c as int].depth_of() == nodes[p].depth_of() + 1
        } by {
            self.lemma_done_child(p, k);
        }
        assert forall|p: int, k: int, q: int, j: int|
            0 <= p < nodes.len() && 0 <= k < nodes[p].children_of().len() && 0 <= q < nodes.len()
                && 0 <= j < nodes[q].children_of().len() && #[trigger] nodes[p].children_of()[k]
                == #[trigger] nodes[q].children_of()[j] implies p == q && k == j by {
            self.lemma_done_distinct(p, k, q, j);
        }
    }

    /// Once nothing is open, the rules read features of the samples, the
    /// counts add up and the limits are kept.
    proof fn lemma_done_rules(&self)
        requires
            self.inv(None),
            self.queue@.len() == 0,
        ensures
            rules_within(self.nodes@, self.width as nat),
            counts_conserved(self.nodes@),
            respects_limits(
                self.nodes@,
                self.max_depth as nat,
                self.min_samples_split as nat,
                self.min_samples_leaf as nat,
            ),
    {
        let nodes = self.nodes@;
        assert forall|i: int| 0 <= i < nodes.len() implies match #[trigger] nodes[i] {
            Node::External { .. } => true,
            Node::Internal { split_params, .. } => split_params.feature < self.width,
        } by {
            self.lemma_done_node(i);
        }
        assert forall|i: int| 0 <= i < nodes.len() implies #[trigger] conserves_at(nodes, i) by {
            self.lemma_done_node(i);
        }
        assert forall|i: int| 0 <= i < nodes.len() implies match #[trigger] nodes[i] {
            Node::External { .. } => true,
            Node::Internal { depth, n_samples, .. } => {
                &&& depth < self.max_depth
                &&& n_samples >= self.min_samples_split
                &&& n_samples >= 2 * self.min_samples_leaf
            },
        } by {
            self.lemma_done_node(i);
        }
    }

    /// Hands out the finished arena.
    ///
    /// The arena is a tree whose leaves hold all training samples between
    /// them, the root holds them all at depth 0, every internal node holds
    /// what its two children hold together, and the limits the builder was
    /// made with are kept.
    pub fn finish(self) -> (nodes: Arena)
        requires
            self.wf(),
            self.finished(),
        ensures
            nodes@ == self.arena(),
            arena_wf(nodes@),
            rules_within(nodes@, self.feature_count() as nat),
            counts_conserved(nodes@),
            leaf_samples(nodes@, nodes@.len() as int) == self.data().len(),
            nodes@[0].samples_of() == self.data().len(),
            nodes@[0].depth_of() == 0,
            respects_limits(
                nodes@,
                self.depth_limit() as nat,
                self.split_floor() as nat,
                self.leaf_floor() as nat,
            ),
            routed(nodes@, self.data(), self.ranking()),
            self.ranking().no_duplicates(),
            self.ranking().len() == self.data().len(),
            indexes(self.ranking(), self.data().len()),
    {
        proof {
            assert(open_of(None, self.queue@).len() == 0);
            assert(pending_samples(self.queue@) == 0);
            self.lemma_done_tree();
            self.lemma_done_rules();
            self.lemma_done_routed();
        }
        self.nodes
    }

}

} // verus!

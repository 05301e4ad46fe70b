//! The node arena of a fitted tree: its shape, and the walks over it.
//!
//! A tree is a vector of nodes. A node is named by its position, the root is
//! at position 0, and every child stands after its parent.

use crate::tree::node::Node;
use crate::utils::statistics::is_majority;
use crate::utils::structures::Sample;
use vstd::prelude::*;

verus! {

/// An axis-parallel rule: a feature and a threshold on its key.
#[derive(Clone, Copy, Debug, PartialEq, Eq, Structural, PartialOrd, Ord)]
pub struct StandardSplit {
    pub feature: usize,
    pub threshold: i64,
}

impl StandardSplit {
    /// Number of branches of the rule.
    pub open spec fn branches() -> nat {
        2
    }

    /// The branch a feature vector takes: 1 below the threshold, 0 at or
    /// above it.
    pub open spec fn branch_of(self, features: Seq<i64>) -> int {
        if features[self.feature as int] < self.threshold {
            1
        } else {
            0
        }
    }

    /// Routes a sample: 1 when its feature lies below the threshold, 0
    /// otherwise.
    pub fn split(&self, sample: &Sample) -> (branch: usize)
        requires
            self.feature < sample.features@.len(),
        ensures
            branch == self.branch_of(sample.features@),
    {
        if sample.features[self.feature] < self.threshold {
            1
        } else {
            0
        }
    }
}

/// The nodes of a tree over `StandardSplit` rules.
pub type Arena = Vec<Node<StandardSplit>>;

/// Node `parent` lists `child` among its children.
pub open spec fn holds_child(nodes: Seq<Node<StandardSplit>>, parent: int, child: int) -> bool {
    &&& 0 <= parent < nodes.len()
    &&& exists|slot: int|
        0 <= slot < nodes[parent].children_of().len() && #[trigger] nodes[parent].children_of()[slot]
            == child
}

/// Some node lists `child` among its children.
pub open spec fn has_parent(nodes: Seq<Node<StandardSplit>>, child: int) -> bool {
    exists|parent: int| #[trigger] holds_child(nodes, parent, child)
}

/// Every rule of the arena reads one of the first `width` features.
pub open spec fn rules_within(nodes: Seq<Node<StandardSplit>>, width: nat) -> bool {
    forall|i: int|
        0 <= i < nodes.len() ==> match #[trigger] nodes[i] {
            Node::External { .. } => true,
            Node::Internal { split_params, .. } => split_params.feature < width,
        }
}

/// A tree in an arena: it has a root, positions are ids, every internal
/// node lists one child per branch of its rule, children stand after their
/// parent and one level deeper, no node is listed twice, and every node but
/// the root is listed by some node.
pub open spec fn arena_wf(nodes: Seq<Node<StandardSplit>>) -> bool {
    &&& nodes.len() >= 1
    &&& forall|i: int| 0 <= i < nodes.len() ==> (#[trigger] nodes[i]).id_of() == i
    &&& forall|i: int|
        0 <= i < nodes.len() ==> match #[trigger] nodes[i] {
            Node::External { .. } => true,
            Node::Internal { children, n_children, .. } => {
                &&& n_children == StandardSplit::branches()
                &&& children@.len() == n_children
            },
        }
    &&& forall|p: int, k: int|
        0 <= p < nodes.len() && 0 <= k < nodes[p].children_of().len() ==> {
            let c = #[trigger] nodes[p].children_of()[k];
            &&& p < c < nodes.len()
            &&& nodes[c as int].depth_of() == nodes[p].depth_of() + 1
        }
    &&& forall|p: int, k: int, q: int, j: int|
        0 <= p < nodes.len() && 0 <= k < nodes[p].children_of().len() && 0 <= q < nodes.len() && 0
            <= j < nodes[q].children_of().len() && #[trigger] nodes[p].children_of()[k]
            == #[trigger] nodes[q].children_of()[j] ==> p == q && k == j
    &&& forall|v: int| 1 <= v < nodes.len() ==> #[trigger] has_parent(nodes, v)
}

/// Node `i`, if internal, holds as many samples as its two children
/// together.
pub open spec fn conserves_at(nodes: Seq<Node<StandardSplit>>, i: int) -> bool {
    match nodes[i] {
        Node::External { .. } => true,
        Node::Internal { children, n_samples, .. } => {
            &&& children@.len() == 2
            &&& 0 <= children@[0] < nodes.len()
            &&& 0 <= children@[1] < nodes.len()
            &&& n_samples == nodes[children@[0] as int].samples_of()
                + nodes[children@[1] as int].samples_of()
        },
    }
}

/// Every internal node holds as many samples as its children together.
pub open spec fn counts_conserved(nodes: Seq<Node<StandardSplit>>) -> bool {
    forall|i: int| 0 <= i < nodes.len() ==> #[trigger] conserves_at(nodes, i)
}

/// Sum of the sample counts of the leaves among the first `upto` nodes.
pub open spec fn leaf_samples(nodes: Seq<Node<StandardSplit>>, upto: int) -> int
    decreases upto,
{
    if upto <= 0 {
        0
    } else {
        leaf_samples(nodes, upto - 1) + match nodes[upto - 1] {
            Node::External { n_samples, .. } => n_samples as int,
            Node::Internal { .. } => 0,
        }
    }
}

/// The leaf that a feature vector reaches when it starts at node `from` and
/// follows the rules downwards.
pub open spec fn descend(nodes: Seq<Node<StandardSplit>>, features: Seq<i64>, from: int) -> int
    decreases nodes.len() - from,
{
    if 0 <= from < nodes.len() {
        match nodes[from] {
            Node::External { .. } => from,
            Node::Internal { split_params, children, .. } => {
                let branch = split_params.branch_of(features);
                if branch < children@.len() && from < children@[branch] < nodes.len() {
                    descend(nodes, features, children@[branch] as int)
                } else {
                    from
                }
            },
        }
    } else {
        from
    }
}

/// The rules that a feature vector meets from node `from` down to its leaf,
/// in the order met.
pub open spec fn rules_from(nodes: Seq<Node<StandardSplit>>, features: Seq<i64>, from: int) -> Seq<
    StandardSplit,
>
    decreases nodes.len() - from,
{
    if 0 <= from < nodes.len() {
        match nodes[from] {
            Node::External { .. } => Seq::empty(),
            Node::Internal { split_params, children, .. } => {
                let branch = split_params.branch_of(features);
                if branch < children@.len() && from < children@[branch] < nodes.len() {
                    seq![split_params] + rules_from(nodes, features, children@[branch] as int)
                } else {
                    seq![split_params]
                }
            },
        }
    } else {
        Seq::empty()
    }
}

/// The leaf of `nodes` that `sample` falls into.
pub fn predict_leaf<'a>(nodes: &'a Arena, sample: &Sample) -> (leaf: &'a Node<StandardSplit>)
    requires
        arena_wf(nodes@),
        rules_within(nodes@, sample.features@.len()),
    ensures
        0 <= descend(nodes@, sample.features@, 0) < nodes@.len(),
        *leaf == nodes@[descend(nodes@, sample.features@, 0)],
        leaf.is_leaf(),
{
    let mut at: usize = 0;
    loop
        invariant
            arena_wf(nodes@),
        rules_within(nodes@, sample.features@.len()),
            0 <= at < nodes@.len(),
            descend(nodes@, sample.features@, at as int) == descend(nodes@, sample.features@, 0),
        decreases nodes@.len() - at,
    {
        match &nodes[at] {
            Node::External { .. } => {
                return &nodes[at];
            },
            Node::Internal { split_params, children, .. } => {
                let branch = split_params.split(sample);
                assert(nodes@[at as int].children_of() == children@);
                let ghost next = nodes@[at as int].children_of()[branch as int];
                at = children[branch];
            },
        }
    }
}

/// The rules on the way of `sample` from the root to its leaf, root first.
pub fn get_splits(nodes: &Arena, sample: &Sample) -> (path: Vec<StandardSplit>)
    requires
        arena_wf(nodes@),
        rules_within(nodes@, sample.features@.len()),
    ensures
        path@ == rules_from(nodes@, sample.features@, 0),
{
    let mut path: Vec<StandardSplit> = Vec::new();
    let mut at: usize = 0;
    loop
        invariant
            arena_wf(nodes@),
        rules_within(nodes@, sample.features@.len()),
            0 <= at < nodes@.len(),
            path@ + rules_from(nodes@, sample.features@, at as int) == rules_from(
                nodes@,
                sample.features@,
                0,
            ),
        decreases nodes@.len() - at,
    {
        match &nodes[at] {
            Node::External { .. } => {
                assert(path@ + Seq::<StandardSplit>::empty() == path@);
                return path;
            },
            Node::Internal { split_params, children, .. } => {
                let branch = split_params.split(sample);
                assert(nodes@[at as int].children_of() == children@);
                let ghost next = nodes@[at as int].children_of()[branch as int];
                let ghost rest = rules_from(nodes@, sample.features@, next as int);
                assert(path@.push(*split_params) + rest == path@ + (seq![*split_params] + rest));
                path.push(*split_params);
                at = children[branch];
            },
        }
    }
}

/// Node `target` lies on the way that a feature vector takes from node
/// `from` downwards. The way ends at a leaf, or where it leaves the nodes
/// that the arena holds so far.
pub open spec fn on_way(
    nodes: Seq<Node<StandardSplit>>,
    features: Seq<i64>,
    from: int,
    target: int,
) -> bool
    decreases nodes.len() - from,
{
    if from == target {
        true
    } else if 0 <= from < nodes.len() {
        match nodes[from] {
            Node::External { .. } => false,
            Node::Internal { split_params, children, .. } => {
                let branch = split_params.branch_of(features);
                if branch < children@.len() && from < children@[branch] {
                    if children@[branch] < nodes.len() {
                        on_way(nodes, features, children@[branch] as int, target)
                    } else {
                        children@[branch] == target
                    }
                } else {
                    false
                }
            },
        }
    } else {
        false
    }
}

/// A node on a way stays on it when the arena grows.
pub proof fn lemma_on_way_kept(
    nodes: Seq<Node<StandardSplit>>,
    more: Seq<Node<StandardSplit>>,
    features: Seq<i64>,
    from: int,
    target: int,
)
    requires
        more.len() == nodes.len() + 1,
        more.take(nodes.len() as int) == nodes,
        on_way(nodes, features, from, target),
    ensures
        on_way(more, features, from, target),
    decreases nodes.len() - from,
{
    if from != target {
        assert(more[from] == nodes[from]);
        match nodes[from] {
            Node::External { .. } => {},
            Node::Internal { split_params, children, .. } => {
                let branch = split_params.branch_of(features);
                if children@[branch] < nodes.len() {
                    lemma_on_way_kept(nodes, more, features, children@[branch] as int, target);
                }
            },
        }
    }
}

/// A way that reaches the place of the next node goes on, once that node is
/// an internal one, to the child that its rule picks.
pub proof fn lemma_on_way_extended(
    nodes: Seq<Node<StandardSplit>>,
    more: Seq<Node<StandardSplit>>,
    features: Seq<i64>,
    from: int,
)
    requires
        more.len() == nodes.len() + 1,
        more.take(nodes.len() as int) == nodes,
        more.last() is Internal,
        more.last().children_of().len() == 2,
        more.last().children_of()[0] >= more.len(),
        more.last().children_of()[1] >= more.len(),
        on_way(nodes, features, from, nodes.len() as int),
    ensures
        more.last() matches Node::Internal { split_params, children, .. } && on_way(
            more,
            features,
            from,
            children@[split_params.branch_of(features)] as int,
        ),
    decreases nodes.len() - from,
{
    if from != nodes.len() {
        assert(more[from] == nodes[from]);
        match nodes[from] {
            Node::External { .. } => {},
            Node::Internal { split_params, children, .. } => {
                let branch = split_params.branch_of(features);
                if children@[branch] < nodes.len() {
                    lemma_on_way_extended(nodes, more, features, children@[branch] as int);
                } else {
                    lemma_on_way_extended(nodes, more, features, nodes.len() as int);
                }
            },
        }
    } else {
        assert(more[from] == more.last());
    }
}

/// In a finished tree a leaf on the way of a feature vector is the leaf
/// that the vector falls into.
pub proof fn lemma_on_way_ends(
    nodes: Seq<Node<StandardSplit>>,
    features: Seq<i64>,
    from: int,
    leaf: int,
)
    requires
        arena_wf(nodes),
        0 <= leaf < nodes.len(),
        nodes[leaf] is External,
        on_way(nodes, features, from, leaf),
    ensures
        descend(nodes, features, from) == leaf,
    decreases nodes.len() - from,
{
    if from != leaf {
        match nodes[from] {
            Node::External { .. } => {},
            Node::Internal { split_params, children, .. } => {
                let branch = split_params.branch_of(features);
                assert(nodes[from].children_of()[branch] == children@[branch]);
                lemma_on_way_ends(nodes, features, children@[branch] as int, leaf);
            },
        }
    }
}

/// The leaf that the sample at position `k` of `order` falls into.
pub open spec fn lands(
    nodes: Seq<Node<StandardSplit>>,
    samples: Seq<Sample>,
    order: Seq<usize>,
    k: int,
) -> int {
    descend(nodes, samples[order[k] as int].features@, 0)
}

/// The labels of the samples that `order[start..end]` names.
pub open spec fn labels_in(samples: Seq<Sample>, order: Seq<usize>, start: int, end: int) -> Seq<
    isize,
> {
    Seq::new((end - start) as nat, |k: int| samples[order[start + k] as int].target)
}

/// Leaf `leaf` holds the samples at the positions from `first` on, as many
/// as it counts: they and no others fall into it, and its class is a most
/// frequent label of theirs.
pub open spec fn leaf_holds(
    nodes: Seq<Node<StandardSplit>>,
    samples: Seq<Sample>,
    order: Seq<usize>,
    leaf: int,
    first: int,
) -> bool {
    let last = first + nodes[leaf].samples_of();
    &&& 0 <= first
    &&& last <= order.len()
    &&& forall|k: int|
        0 <= k < order.len() ==> (#[trigger] lands(nodes, samples, order, k) == leaf <==> first <= k
            < last)
    &&& is_majority(labels_in(samples, order, first, last), nodes[leaf].class_of())
}

/// Every leaf holds the training samples that fall into it: they stand
/// side by side in `order`, the leaf counts them, and its class is a most
/// frequent label of theirs.
pub open spec fn routed(
    nodes: Seq<Node<StandardSplit>>,
    samples: Seq<Sample>,
    order: Seq<usize>,
) -> bool {
    forall|leaf: int|
        0 <= leaf < nodes.len() && (#[trigger] nodes[leaf]) is External ==> exists|first: int|
            leaf_holds(nodes, samples, order, leaf, first)
}

} // verus!

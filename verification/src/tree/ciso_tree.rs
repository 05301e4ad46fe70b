//! An isolation tree over descriptors of random sub-intervals of a series.
//!
//! A tree draws its sub-intervals and its descriptors once, when it is
//! made. A series is then reduced to one feature per pair of a sub-interval
//! and a descriptor, and the tree is grown on those features.

use crate::forest::ciso_forest::CIsoForestConfig;
use crate::tree::ancestor::compute_ancestor;
use crate::tree::ancestor::lowest_common;
use crate::tree::builder::respects_limits;
use crate::tree::builder::TreeBuilder;
use crate::tree::node::Node;
use crate::tree::tree::arena_wf;
use crate::tree::tree::counts_conserved;
use crate::tree::tree::descend;
use crate::tree::tree::leaf_samples;
use crate::tree::tree::routed;
use crate::tree::tree::rules_from;
use crate::tree::tree::rules_within;
use crate::tree::tree::Arena;
use crate::tree::tree::StandardSplit;
use crate::utils::random::draw_within;
use crate::utils::random::lemma_shuffle_keeps_distinct;
use crate::utils::random::shuffle;
use crate::utils::random::RandomGenerator;
use crate::utils::split::identity_order;
use crate::utils::structures::floor_log;
use crate::utils::structures::power;
use crate::utils::structures::rectangular;
use crate::utils::structures::Sample;
use vstd::prelude::*;

verus! {

/// Number of descriptors in the catalogue.
pub const N_DESCRIPTORS: usize = 23;

/// The least length of a sub-interval, whatever the length of the series.
pub const MIN_INTERVALS_LEN: usize = 3;

/// Settings of one tree.
#[derive(Clone, Copy, Debug)]
pub struct CIsoTreeConfig {
    pub max_depth: usize,
    pub min_samples_split: usize,
    pub min_samples_leaf: usize,
    pub n_features: usize,
    pub n_intervals: usize,
    pub n_attributes: usize,
}

/// The least length of a sub-interval of a series of `n_features` points: a
/// tenth of the series, rounded up, and at least three points.
pub open spec fn min_interval_len(n_features: nat) -> nat {
    let tenth = (n_features + 9) / 10;
    if tenth >= 3 {
        tenth
    } else {
        3
    }
}

/// The least length of a sub-interval of a series of `n_features` points.
pub fn least_interval(n_features: usize) -> (least: usize)
    ensures
        least == min_interval_len(n_features as nat),
{
    let tenth: usize = n_features / 10 + if n_features % 10 == 0 {
        0
    } else {
        1
    };
    if tenth >= MIN_INTERVALS_LEN {
        tenth
    } else {
        MIN_INTERVALS_LEN
    }
}

/// The depth limit of a tree grown from `max_samples` samples when none is
/// set: one more than the least number of halvings that bring the samples,
/// taken as two at least, down to one.
pub open spec fn is_default_depth(max_samples: nat, depth: nat) -> bool {
    let size = if max_samples >= 2 {
        max_samples
    } else {
        2
    };
    &&& depth >= 2
    &&& power(2, (depth - 1) as nat) >= size
    &&& power(2, (depth - 2) as nat) < size
}

/// The depth limit of a tree grown from `max_samples` samples when none is
/// set.
pub fn default_depth(max_samples: usize) -> (depth: usize)
    ensures
        is_default_depth(max_samples as nat, depth as nat),
{
    let size: usize = if max_samples >= 2 {
        max_samples
    } else {
        2
    };
    let halvings: usize = floor_log(2, size - 1);
    proof {
        let k = halvings as nat;
        assert(power(2, k + 1) == 2 * power(2, k));
        assert(power(2, k) <= size - 1 < power(2, k + 1));
        assert(halvings + 2 <= usize::MAX) by {
            lemma_power_exceeds(k);
        }
    }
    halvings + 2
}

/// A power of 2 exceeds its exponent.
proof fn lemma_power_exceeds(k: nat)
    ensures
        power(2, k) > k,
    decreases k,
{
    if k > 0 {
        lemma_power_exceeds((k - 1) as nat);
    }
}

/// An isolation tree.
#[derive(Debug)]
pub struct CIsoTree {
    nodes: Arena,
    config: CIsoTreeConfig,
    intervals: Vec<(usize, usize)>,
    attributes: Vec<usize>,
    width: usize,
}

impl CIsoTree {
    /// The tree's arena; empty until the tree is fitted.
    pub closed spec fn arena(&self) -> Seq<Node<StandardSplit>> {
        self.nodes@
    }

    /// The tree's settings.
    pub closed spec fn settings(&self) -> CIsoTreeConfig {
        self.config
    }

    /// The tree's sub-intervals, as pairs of a first point and the point
    /// after the last.
    pub closed spec fn drawn_intervals(&self) -> Seq<(usize, usize)> {
        self.intervals@
    }

    /// The tree's descriptors.
    pub closed spec fn drawn_attributes(&self) -> Seq<usize> {
        self.attributes@
    }

    /// Number of features of the samples that the tree was grown on.
    pub closed spec fn feature_count(&self) -> usize {
        self.width
    }

    /// The tree has been grown: its arena holds a node.
    pub open spec fn fitted(&self) -> bool {
        self.arena().len() > 0
    }

    /// The tree's invariant: its sub-intervals lie inside the series and
    /// have the least length, its descriptors are distinct entries of the
    /// catalogue, and its arena, once grown, is a tree whose rules read the
    /// features that it was grown on.
    pub closed spec fn wf(&self) -> bool {
        &&& self.intervals@.len() == self.config.n_intervals
        &&& forall|i: int|
            0 <= i < self.intervals@.len() ==> {
                let (start, end) = #[trigger] self.intervals@[i];
                start + min_interval_len(self.config.n_features as nat) <= end
                    <= self.config.n_features
            }
        &&& self.attributes@.len() == (if self.config.n_attributes <= N_DESCRIPTORS {
            self.config.n_attributes
        } else {
            N_DESCRIPTORS
        })
        &&& self.attributes@.no_duplicates()
        &&& forall|a: int|
            0 <= a < self.attributes@.len() ==> #[trigger] self.attributes@[a] < N_DESCRIPTORS
        &&& self.nodes@.len() > 0 ==> arena_wf(self.nodes@) && rules_within(
            self.nodes@,
            self.width as nat,
        )
    }

    /// What `wf` says of the sub-intervals and the descriptors.
    pub proof fn lemma_wf(&self)
        requires
            self.wf(),
        ensures
            self.drawn_intervals().len() == self.settings().n_intervals,
            forall|i: int|
                0 <= i < self.drawn_intervals().len() ==> {
                    let (start, end) = #[trigger] self.drawn_intervals()[i];
                    start + min_interval_len(self.settings().n_features as nat) <= end
                        <= self.settings().n_features
                },
            self.drawn_attributes().len() == (if self.settings().n_attributes <= N_DESCRIPTORS {
                self.settings().n_attributes
            } else {
                N_DESCRIPTORS
            }),
            self.drawn_attributes().no_duplicates(),
            forall|a: int|
                0 <= a < self.drawn_attributes().len() ==> #[trigger] self.drawn_attributes()[a]
                    < N_DESCRIPTORS,
            !self.fitted() <==> self.arena().len() == 0,
            self.fitted() ==> arena_wf(self.arena()) && rules_within(
                self.arena(),
                self.feature_count() as nat,
            ),
    {
    }

    /// A tree that is not grown yet. It draws `n_intervals` sub-intervals,
    /// each by its first point and then its end, and `n_attributes`
    /// distinct descriptors, the first of a shuffle of the catalogue.
    pub fn new(config: CIsoTreeConfig, random_state: &mut RandomGenerator) -> (tree: Self)
        requires
            config.n_features >= min_interval_len(config.n_features as nat),
        ensures
            tree.wf(),
            !tree.fitted(),
            tree.settings() == config,
    {
        let least: usize = least_interval(config.n_features);
        let mut intervals: Vec<(usize, usize)> = Vec::new();
        let mut i: usize = 0;
        while i < config.n_intervals
            invariant
                i <= config.n_intervals,
                least == min_interval_len(config.n_features as nat),
                least <= config.n_features,
                intervals@.len() == i,
                forall|k: int|
                    0 <= k < intervals@.len() ==> {
                        let (start, end) = #[trigger] intervals@[k];
                        start + least <= end <= config.n_features
                    },
            decreases config.n_intervals - i,
        {
            let start: usize = draw_within(random_state, 0, config.n_features - least);
            let end: usize = draw_within(random_state, start + least, config.n_features);
            intervals.push((start, end));
            i += 1;
        }
        let mut attributes = identity_order(N_DESCRIPTORS);
        let ghost catalogue = attributes@;
        assert(catalogue.no_duplicates());
        shuffle(&mut attributes, random_state);
        proof {
            lemma_shuffle_keeps_distinct(catalogue, attributes@);
            assert forall|a: int| 0 <= a < attributes@.len() implies #[trigger] attributes@[a]
                < N_DESCRIPTORS by {
                assert(attributes@.contains(attributes@[a]));
                let at = choose|at: int| 0 <= at < catalogue.len() && catalogue[at] == attributes@[a];
                assert(catalogue[at] == at);
            }
        }
        if config.n_attributes < N_DESCRIPTORS {
            attributes.truncate(config.n_attributes);
        }
        CIsoTree { nodes: Vec::new(), config, intervals, attributes, width: 0 }
    }

    /// A tree for an ensemble: the ensemble's limits, the depth limit that
    /// it sets or else the default for `max_samples`, and as many
    /// sub-intervals as its policy gives for series of `n_features` points.
    pub fn from_config(
        config: &CIsoForestConfig,
        max_samples: usize,
        n_features: usize,
        random_state: &mut RandomGenerator,
    ) -> (tree: Self)
        requires
            n_features >= min_interval_len(n_features as nat),
        ensures
            tree.wf(),
            !tree.fitted(),
            tree.settings().n_features == n_features,
            tree.settings().min_samples_split == config.outlier_config.min_samples_split,
            tree.settings().min_samples_leaf == config.outlier_config.min_samples_leaf,
            tree.settings().n_attributes == config.n_attributes,
            config.n_intervals.interval_count(
                n_features as nat,
                tree.settings().n_intervals as nat,
            ),
            match config.outlier_config.max_depth {
                Some(depth) => tree.settings().max_depth == depth,
                None => is_default_depth(max_samples as nat, tree.settings().max_depth as nat),
            },
    {
        let max_depth: usize = match config.outlier_config.max_depth {
            Some(depth) => depth,
            None => default_depth(max_samples),
        };
        CIsoTree::new(
            CIsoTreeConfig {
                max_depth,
                min_samples_split: config.outlier_config.min_samples_split,
                min_samples_leaf: config.outlier_config.min_samples_leaf,
                n_features,
                n_intervals: config.n_intervals.get_interval(n_features),
                n_attributes: config.n_attributes,
            },
            random_state,
        )
    }

    /// The depth at which every branch ends.
    pub fn get_max_depth(&self) -> (depth: usize)
        ensures
            depth == self.settings().max_depth,
    {
        self.config.max_depth
    }

    /// The least number of samples of a node that is split.
    pub fn get_min_samples_split(&self) -> (floor: usize)
        ensures
            floor == self.settings().min_samples_split,
    {
        self.config.min_samples_split
    }

    /// The least number of samples of a child.
    pub fn get_min_samples_leaf(&self) -> (floor: usize)
        ensures
            floor == self.settings().min_samples_leaf,
    {
        self.config.min_samples_leaf
    }

    /// The tree's sub-intervals.
    pub fn get_intervals(&self) -> (intervals: &Vec<(usize, usize)>)
        ensures
            intervals@ == self.drawn_intervals(),
    {
        &self.intervals
    }

    /// The tree's descriptors.
    pub fn get_attributes(&self) -> (attributes: &Vec<usize>)
        ensures
            attributes@ == self.drawn_attributes(),
    {
        &self.attributes
    }

    /// Whether the tree has been grown.
    pub fn is_fitted(&self) -> (yes: bool)
        ensures
            yes == self.fitted(),
    {
        self.nodes.len() > 0
    }

    /// Number of nodes of the tree.
    pub fn node_count(&self) -> (count: usize)
        ensures
            count == self.arena().len(),
    {
        self.nodes.len()
    }

    /// Number of features of the samples that the tree was grown on.
    pub fn get_width(&self) -> (width: usize)
        ensures
            width == self.feature_count(),
    {
        self.width
    }

    /// The root of a grown tree.
    pub fn get_root(&self) -> (root: &Node<StandardSplit>)
        requires
            self.fitted(),
        ensures
            *root == self.arena()[0],
    {
        &self.nodes[0]
    }

    /// The node at position `id`.
    pub fn get_node_at(&self, id: usize) -> (node: &Node<StandardSplit>)
        requires
            id < self.arena().len(),
        ensures
            *node == self.arena()[id as int],
    {
        &self.nodes[id]
    }

    /// Gives the tree an arena whose rules read the first `width` features.
    pub fn set_nodes(&mut self, nodes: Arena, width: usize)
        requires
            old(self).wf(),
            arena_wf(nodes@),
            rules_within(nodes@, width as nat),
        ensures
            final(self).wf(),
            final(self).fitted(),
            final(self).arena() == nodes@,
            final(self).feature_count() == width,
            final(self).settings() == old(self).settings(),
            final(self).drawn_intervals() == old(self).drawn_intervals(),
            final(self).drawn_attributes() == old(self).drawn_attributes(),
    {
        self.nodes = nodes;
        self.width = width;
    }

    /// A builder over `samples` with the tree's limits.
    pub fn start_fit(&self, samples: Vec<Sample>) -> (builder: TreeBuilder)
        requires
            samples@.len() >= 1,
            rectangular(samples@, samples@[0].features@.len()),
        ensures
            builder.wf(),
            !builder.awaiting(),
            !builder.finished(),
            builder.arena().len() == 0,
            builder.data() == samples@,
            builder.feature_count() == samples@[0].features@.len(),
            builder.depth_limit() == self.settings().max_depth,
            builder.split_floor() == self.settings().min_samples_split,
            builder.leaf_floor() == self.settings().min_samples_leaf,
    {
        TreeBuilder::new(
            samples,
            self.config.max_depth,
            self.config.min_samples_split,
            self.config.min_samples_leaf,
        )
    }

    /// Takes the arena of a builder that has finished.
    pub fn fit(&mut self, builder: TreeBuilder)
        requires
            old(self).wf(),
            builder.wf(),
            builder.finished(),
        ensures
            final(self).wf(),
            final(self).fitted(),
            final(self).arena() == builder.arena(),
            final(self).feature_count() == builder.feature_count(),
            final(self).settings() == old(self).settings(),
            final(self).drawn_intervals() == old(self).drawn_intervals(),
            final(self).drawn_attributes() == old(self).drawn_attributes(),
            counts_conserved(final(self).arena()),
            final(self).arena()[0].samples_of() == builder.data().len(),
            final(self).arena()[0].depth_of() == 0,
            leaf_samples(final(self).arena(), final(self).arena().len() as int)
                == builder.data().len(),
            respects_limits(
                final(self).arena(),
                builder.depth_limit() as nat,
                builder.split_floor() as nat,
                builder.leaf_floor() as nat,
            ),
            routed(final(self).arena(), builder.data(), builder.ranking()),
    {
        let ghost width = builder.feature_count();
        let width: usize = builder.width();
        let nodes = builder.finish();
        self.set_nodes(nodes, width);
    }

    /// The leaf that `sample` falls into.
    pub fn predict_leaf(&self, sample: &Sample) -> (leaf: &Node<StandardSplit>)
        requires
            self.wf(),
            self.fitted(),
            sample.features@.len() >= self.feature_count(),
        ensures
            0 <= descend(self.arena(), sample.features@, 0) < self.arena().len(),
            *leaf == self.arena()[descend(self.arena(), sample.features@, 0)],
            leaf.is_leaf(),
    {
        proof {
            lemma_rules_widen(self.nodes@, self.width as nat, sample.features@.len());
        }
        crate::tree::tree::predict_leaf(&self.nodes, sample)
    }

    /// The depth of the leaf that `sample` falls into, and the number of
    /// training samples in that leaf.
    pub fn path_profile(&self, sample: &Sample) -> (profile: (usize, usize))
        requires
            self.wf(),
            self.fitted(),
            sample.features@.len() >= self.feature_count(),
        ensures
            profile.0 == self.arena()[descend(self.arena(), sample.features@, 0)].depth_of(),
            profile.1 == self.arena()[descend(self.arena(), sample.features@, 0)].samples_of(),
    {
        let leaf = self.predict_leaf(sample);
        (leaf.get_depth(), leaf.get_n_samples())
    }

    /// The class of the leaf of every sample of `data`.
    pub fn predict(&self, data: &Vec<Sample>) -> (classes: Vec<isize>)
        requires
            self.wf(),
            self.fitted(),
            forall|i: int|
                0 <= i < data@.len() ==> (#[trigger] data@[i]).features@.len()
                    >= self.feature_count(),
        ensures
            classes@.len() == data@.len(),
            forall|i: int|
                0 <= i < data@.len() ==> #[trigger] classes@[i] == self.arena()[descend(
                    self.arena(),
                    data@[i].features@,
                    0,
                )].class_of(),
    {
        let mut classes: Vec<isize> = Vec::new();
        let mut i: usize = 0;
        while i < data.len()
            invariant
                i <= data@.len(),
                self.wf(),
                self.fitted(),
                forall|k: int|
                    0 <= k < data@.len() ==> (#[trigger] data@[k]).features@.len()
                        >= self.feature_count(),
                classes@.len() == i,
                forall|k: int|
                    0 <= k < i ==> #[trigger] classes@[k] == self.arena()[descend(
                        self.arena(),
                        data@[k].features@,
                        0,
                    )].class_of(),
            decreases data@.len() - i,
        {
            let leaf = self.predict_leaf(&data[i]);
            classes.push(leaf.get_class());
            i += 1;
        }
        classes
    }

    /// For every node of a grown tree, the lowest common ancestor that it
    /// shares with the leaf `target`.
    pub fn compute_ancestor(&self, target: usize) -> (ancestors: Vec<usize>)
        requires
            self.wf(),
            target < self.arena().len(),
            self.arena()[target as int].is_leaf(),
        ensures
            ancestors@.len() == self.arena().len(),
            forall|v: int|
                0 <= v < self.arena().len() ==> #[trigger] ancestors@[v] == lowest_common(
                    self.arena(),
                    target as int,
                    v,
                ),
    {
        compute_ancestor(&self.nodes, target)
    }

    /// Every rule on a way through the tree reads one of the features that
    /// the tree was grown on.
    pub proof fn lemma_rules_read(&self, features: Seq<i64>)
        requires
            self.wf(),
            self.fitted(),
        ensures
            forall|k: int|
                0 <= k < rules_from(self.arena(), features, 0).len() ==> (#[trigger] rules_from(
                    self.arena(),
                    features,
                    0,
                )[k]).feature < self.feature_count(),
    {
        lemma_rules_from_within(self.nodes@, self.width as nat, features, 0);
    }

    /// The rules that `sample` meets on its way from the root to its leaf.
    pub fn get_splits(&self, sample: &Sample) -> (path: Vec<StandardSplit>)
        requires
            self.wf(),
            self.fitted(),
            sample.features@.len() >= self.feature_count(),
        ensures
            path@ == rules_from(self.arena(), sample.features@, 0),
    {
        proof {
            lemma_rules_widen(self.nodes@, self.width as nat, sample.features@.len());
        }
        crate::tree::tree::get_splits(&self.nodes, sample)
    }
}

/// The rules met on a way through an arena are rules of the arena.
pub proof fn lemma_rules_from_within(
    nodes: Seq<Node<StandardSplit>>,
    width: nat,
    features: Seq<i64>,
    from: int,
)
    requires
        rules_within(nodes, width),
    ensures
        forall|k: int|
            0 <= k < rules_from(nodes, features, from).len() ==> (#[trigger] rules_from(
                nodes,
                features,
                from,
            )[k]).feature < width,
    decreases nodes.len() - from,
{
    if 0 <= from < nodes.len() {
        match nodes[from] {
            Node::External { .. } => {},
            Node::Internal { split_params, children, .. } => {
                let branch = split_params.branch_of(features);
                let all = rules_from(nodes, features, from);
                assert(split_params.feature < width);
                if branch < children@.len() && from < children@[branch] < nodes.len() {
                    let rest = rules_from(nodes, features, children@[branch] as int);
                    lemma_rules_from_within(nodes, width, features, children@[branch] as int);
                    assert(all == seq![split_params] + rest);
                    assert forall|k: int| 0 <= k < all.len() implies (#[trigger] all[k]).feature
                        < width by {
                        if k > 0 {
                            assert(all[k] == rest[k - 1]);
                        }
                    }
                } else {
                    assert(all == seq![split_params]);
                }
            },
        }
    }
}

/// Rules that read the first `narrow` features read the first `wide` ones.
pub proof fn lemma_rules_widen(nodes: Seq<Node<StandardSplit>>, narrow: nat, wide: nat)
    requires
        rules_within(nodes, narrow),
        narrow <= wide,
    ensures
        rules_within(nodes, wide),
{
}

} // verus!

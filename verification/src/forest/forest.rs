//! What every ensemble shares: its settings, how it draws the samples of
//! a tree and the generators of its trees.

use crate::forest::ciso_forest::CIsoForestConfig;
use crate::forest::distance::apart;
use crate::forest::distance::breiman_tree;
use crate::forest::distance::fits;
use crate::forest::distance::leaf_of;
use crate::forest::distance::ratiorf_ratio;
use crate::forest::distance::ratiorf_tree;
use crate::forest::distance::zhu_ratio;
use crate::forest::distance::zhu_tree;
use crate::forest::distance::Ratio;
use crate::tree::ciso_tree::is_default_depth;
use crate::tree::ciso_tree::least_interval;
use crate::tree::ciso_tree::min_interval_len;
use crate::tree::builder::TreeBuilder;
use crate::tree::ciso_tree::CIsoTree;
use crate::tree::tree::rules_from;
use crate::utils::aggregation::Combiner;
use crate::utils::statistics::is_majority;
use crate::utils::statistics::majority_label;
use crate::utils::statistics::transpose;
use crate::utils::structures::Sample;
use crate::utils::random::child_generator;
use crate::utils::random::draw_below;
use crate::utils::random::lemma_shuffle_keeps_distinct;
use crate::utils::random::shuffle;
use crate::utils::random::RandomGenerator;
use crate::utils::split::identity_order;
use crate::utils::structures::MaxFeatures;
use vstd::prelude::*;

verus! {

/// The most samples that a tree of a sub-sampling ensemble is grown from.
pub const SUBSAMPLE_SIZE: usize = 256;

/// Settings of an ensemble.
#[derive(Clone, Copy)]
pub struct ForestConfig {
    pub n_trees: usize,
    pub max_depth: Option<usize>,
    pub min_samples_split: usize,
    pub min_samples_leaf: usize,
    pub max_features: MaxFeatures,
    pub aggregation: Option<Combiner>,
}

/// Why an ensemble cannot be fitted.
#[derive(Clone, Copy, Debug, PartialEq, Eq, Structural)]
pub enum FitError {
    /// There are no samples.
    EmptyInput,
    /// The series are shorter than the shortest sub-interval.
    SeriesTooShort,
}

/// How an ensemble draws the samples of its trees.
#[derive(Clone, Copy, Debug, PartialEq, Eq, Structural)]
pub struct SamplingPolicy {
    pub max_samples: usize,
    pub with_replacement: bool,
}

/// `n_samples` positions in `0..n_population`.
///
/// With replacement each position is drawn on its own, so positions may
/// repeat. Without replacement the positions are the first `n_samples` of a
/// shuffle of the population, or all of it when it is smaller: no position
/// repeats.
pub fn generate_indices(
    n_samples: usize,
    n_population: usize,
    with_replacement: bool,
    random_state: &mut RandomGenerator,
) -> (indices: Vec<usize>)
    requires
        with_replacement && n_samples > 0 ==> n_population > 0,
    ensures
        forall|k: int| 0 <= k < indices@.len() ==> #[trigger] indices@[k] < n_population,
        with_replacement ==> indices@.len() == n_samples,
        !with_replacement ==> indices@.len() == (if n_samples <= n_population {
            n_samples
        } else {
            n_population
        }) && indices@.no_duplicates(),
{
    if with_replacement {
        let mut indices: Vec<usize> = Vec::new();
        let mut k: usize = 0;
        while k < n_samples
            invariant
                k <= n_samples,
                n_samples > 0 ==> n_population > 0,
                indices@.len() == k,
                forall|j: int| 0 <= j < indices@.len() ==> #[trigger] indices@[j] < n_population,
            decreases n_samples - k,
        {
            let drawn: usize = draw_below(random_state, 0, n_population);
            indices.push(drawn);
            k += 1;
        }
        indices
    } else {
        let mut population = identity_order(n_population);
        let ghost before = population@;
        assert(before.no_duplicates());
        shuffle(&mut population, random_state);
        proof {
            lemma_shuffle_keeps_distinct(before, population@);
            assert forall|k: int| 0 <= k < population@.len() implies #[trigger] population@[k]
                < n_population by {
                assert(population@.contains(population@[k]));
                let at = choose|at: int| 0 <= at < before.len() && before[at] == population@[k];
                assert(before[at] == at);
            }
        }
        if n_samples < n_population {
            population.truncate(n_samples);
        }
        population
    }
}

/// One generator per tree, drawn from `random_state` in the order of the
/// trees.
pub fn tree_generators(n_trees: usize, random_state: &mut RandomGenerator) -> (generators: Vec<
    RandomGenerator,
>)
    ensures
        generators@.len() == n_trees,
{
    let mut generators: Vec<RandomGenerator> = Vec::new();
    let mut t: usize = 0;
    while t < n_trees
        invariant
            t <= n_trees,
            generators@.len() == t,
        decreases n_trees - t,
    {
        match child_generator(random_state) {
            Some(generator) => {
                generators.push(generator);
            },
            None => {},
        }
        t += 1;
    }
    generators
}

/// What a tree starts from: the positions of its samples in the data, the
/// tree with its sub-intervals and descriptors drawn, and the generator
/// that its splits are drawn from.
pub struct Seedling {
    pub indices: Vec<usize>,
    pub tree: CIsoTree,
    pub random_state: RandomGenerator,
}

/// The trees of an ensemble with their settings.
pub struct Forest {
    trees: Vec<CIsoTree>,
    config: CIsoForestConfig,
    max_samples: usize,
}

/// Every tree is grown and sound.
pub open spec fn all_fitted(trees: Seq<CIsoTree>) -> bool {
    forall|t: int| 0 <= t < trees.len() ==> (#[trigger] trees[t]).wf() && trees[t].fitted()
}

/// `ds` holds one data set per tree, each of `n` samples with a key for
/// every feature that its tree reads.
pub open spec fn per_tree(trees: Seq<CIsoTree>, ds: Seq<Vec<Sample>>, n: nat) -> bool {
    &&& ds.len() == trees.len()
    &&& forall|t: int|
        0 <= t < trees.len() ==> (#[trigger] ds[t])@.len() == n && fits(&trees[t], ds[t]@)
}

/// The second of two per-tree data sets: the one given, or else the first.
pub open spec fn second_set<'a>(
    ds_a: &'a Vec<Vec<Sample>>,
    ds_b: Option<&'a Vec<Vec<Sample>>>,
) -> &'a Vec<Vec<Sample>> {
    match ds_b {
        Some(other) => other,
        None => ds_a,
    }
}

/// In how many of the first `upto` trees sample `i` of the first data set
/// and sample `j` of the second fall into different leaves.
pub open spec fn disagreements(
    trees: Seq<CIsoTree>,
    ds_a: Seq<Vec<Sample>>,
    ds_b: Seq<Vec<Sample>>,
    i: int,
    j: int,
    upto: int,
) -> nat
    decreases upto,
{
    if upto <= 0 {
        0
    } else {
        disagreements(trees, ds_a, ds_b, i, j, upto - 1) + if apart(
            &trees[upto - 1],
            ds_a[upto - 1]@[i],
            ds_b[upto - 1]@[j],
        ) {
            1nat
        } else {
            0nat
        }
    }
}

/// Two samples are apart in no more trees than there are.
pub proof fn lemma_disagreements_bounded(
    trees: Seq<CIsoTree>,
    ds_a: Seq<Vec<Sample>>,
    ds_b: Seq<Vec<Sample>>,
    i: int,
    j: int,
    upto: int,
)
    requires
        0 <= upto,
    ensures
        disagreements(trees, ds_a, ds_b, i, j, upto) <= upto,
    decreases upto,
{
    if upto > 0 {
        lemma_disagreements_bounded(trees, ds_a, ds_b, i, j, upto - 1);
    }
}

/// Comparing data with nothing is comparing it with itself.
pub proof fn lemma_second_set_default(ds_a: &Vec<Vec<Sample>>)
    ensures
        second_set(ds_a, None) == second_set(ds_a, Some(ds_a)),
{
}

/// A sample is apart from itself in no tree.
pub proof fn lemma_disagreements_self(trees: Seq<CIsoTree>, ds: Seq<Vec<Sample>>, i: int, upto: int)
    ensures
        disagreements(trees, ds, ds, i, i, upto) == 0,
    decreases upto,
{
    if upto > 0 {
        lemma_disagreements_self(trees, ds, i, upto - 1);
    }
}

impl Forest {
    /// The trees of the ensemble.
    pub closed spec fn grown(&self) -> Seq<CIsoTree> {
        self.trees@
    }

    /// The settings of the ensemble.
    pub closed spec fn settings(&self) -> CIsoForestConfig {
        self.config
    }

    /// The number of samples that every tree was grown from.
    pub closed spec fn sample_size(&self) -> usize {
        self.max_samples
    }

    /// The ensemble's invariant: every tree is grown and sound.
    pub closed spec fn wf(&self) -> bool {
        all_fitted(self.trees@)
    }

    /// What `wf` says: every tree is grown and sound.
    pub proof fn lemma_wf(&self)
        requires
            self.wf(),
        ensures
            all_fitted(self.grown()),
    {
    }

    /// An ensemble without trees.
    pub fn new(config: &CIsoForestConfig) -> (forest: Self)
        ensures
            forest.wf(),
            forest.grown().len() == 0,
            forest.settings() == *config,
            forest.sample_size() == 0,
    {
        Forest { trees: Vec::new(), config: *config, max_samples: 0 }
    }

    /// The settings shared by every ensemble, and those of this one.
    pub fn get_forest_config(&self) -> (configs: (&ForestConfig, &CIsoForestConfig))
        ensures
            *configs.0 == self.settings().outlier_config,
            *configs.1 == self.settings(),
    {
        (&self.config.outlier_config, &self.config)
    }

    /// The number of samples that every tree was grown from.
    pub fn get_max_samples(&self) -> (max_samples: usize)
        ensures
            max_samples == self.sample_size(),
    {
        self.max_samples
    }

    /// The trees of the ensemble.
    pub fn get_trees(&self) -> (trees: &Vec<CIsoTree>)
        ensures
            trees@ == self.grown(),
    {
        &self.trees
    }

    /// Sets the number of samples that every tree is grown from.
    pub fn set_max_samples(&mut self, max_samples: usize)
        ensures
            final(self).sample_size() == max_samples,
            final(self).grown() == old(self).grown(),
            final(self).settings() == old(self).settings(),
    {
        self.max_samples = max_samples;
    }

    /// Replaces the trees of the ensemble.
    pub fn set_trees(&mut self, trees: Vec<CIsoTree>)
        requires
            all_fitted(trees@),
        ensures
            final(self).wf(),
            final(self).grown() == trees@,
            final(self).settings() == old(self).settings(),
            final(self).sample_size() == old(self).sample_size(),
    {
        self.trees = trees;
    }

    /// Gives the ensemble the trees that were grown from `seedlings`: tree
    /// `t` takes the arena that builder `t` has finished. Afterwards the
    /// ensemble holds one tree per seedling, in their order, and the root
    /// of each holds as many samples as its seedling has positions.
    pub fn install(&mut self, seedlings: Vec<Seedling>, builders: Vec<TreeBuilder>)
        requires
            seedlings@.len() == builders@.len(),
            forall|t: int|
                0 <= t < builders@.len() ==> (#[trigger] builders@[t]).wf() && builders@[t].finished()
                    && seedlings@[t].tree.wf() && builders@[t].data().len()
                    == seedlings@[t].indices@.len(),
        ensures
            final(self).wf(),
            final(self).grown().len() == seedlings@.len(),
            forall|t: int|
                0 <= t < seedlings@.len() ==> grown_from(
                    #[trigger] final(self).grown()[t],
                    seedlings@[t],
                    builders@[t],
                ),
            final(self).settings() == old(self).settings(),
            final(self).sample_size() == old(self).sample_size(),
    {
        let ghost starts = seedlings@;
        let ghost ends = builders@;
        let ghost n = seedlings@.len();
        let mut seedlings = seedlings;
        let mut builders = builders;
        let mut reversed_trees: Vec<CIsoTree> = Vec::new();
        while seedlings.len() > 0
            invariant
                seedlings@.len() == builders@.len(),
                seedlings@.len() + reversed_trees@.len() == n,
                n == starts.len(),
                n == ends.len(),
                seedlings@ == starts.take(seedlings@.len() as int),
                builders@ == ends.take(builders@.len() as int),
                forall|t: int|
                    0 <= t < n ==> (#[trigger] ends[t]).wf() && ends[t].finished()
                        && starts[t].tree.wf() && ends[t].data().len() == starts[t].indices@.len(),
                forall|k: int|
                    0 <= k < reversed_trees@.len() ==> grown_from(
                        #[trigger] reversed_trees@[k],
                        starts[n - 1 - k],
                        ends[n - 1 - k],
                    ),
            decreases seedlings@.len(),
        {
            let ghost at = seedlings@.len() - 1;
            match (seedlings.pop(), builders.pop()) {
                (Some(seedling), Some(builder)) => {
                    assert(seedling == starts[at]);
                    assert(builder == ends[at]);
                    let mut tree = seedling.tree;
                    tree.fit(builder);
                    reversed_trees.push(tree);
                },
                _ => {},
            }
        }
        let mut trees: Vec<CIsoTree> = Vec::new();
        while reversed_trees.len() > 0
            invariant
                reversed_trees@.len() + trees@.len() == n,
                n == starts.len(),
                n == ends.len(),
                forall|k: int|
                    0 <= k < reversed_trees@.len() ==> grown_from(
                        #[trigger] reversed_trees@[k],
                        starts[n - 1 - k],
                        ends[n - 1 - k],
                    ),
                forall|t: int|
                    0 <= t < trees@.len() ==> grown_from(#[trigger] trees@[t], starts[t], ends[t]),
            decreases reversed_trees@.len(),
        {
            match reversed_trees.pop() {
                Some(tree) => {
                    trees.push(tree);
                },
                None => {},
            }
        }
        self.trees = trees;
    }

    /// Prepares the trees of the ensemble for `n_population` series of
    /// `n_features` points each.
    ///
    /// Nothing is prepared when there are no series, or when the series
    /// are shorter than the shortest sub-interval. Otherwise the sample
    /// size is recorded, the old trees are dropped, one generator per tree
    /// is drawn from `random_state` in the order of the trees, and from its
    /// own generator every tree draws first the positions of its samples
    /// and then its sub-intervals and descriptors.
    pub fn fit_(
        &mut self,
        n_population: usize,
        n_features: usize,
        policy: SamplingPolicy,
        random_state: &mut RandomGenerator,
    ) -> (seedlings: Result<Vec<Seedling>, FitError>)
        ensures
            fit_outcome(*old(self), *final(self), n_population, n_features, policy, seedlings),
    {
        if n_population == 0 {
            return Err(FitError::EmptyInput);
        }
        if n_features < least_interval(n_features) {
            return Err(FitError::SeriesTooShort);
        }
        self.max_samples = policy.max_samples;
        self.trees = Vec::new();
        let n_trees: usize = self.config.outlier_config.n_trees;
        let mut generators = tree_generators(n_trees, random_state);
        let mut reversed_plans: Vec<Seedling> = Vec::new();
        while generators.len() > 0
            invariant
                n_population > 0,
                n_features >= min_interval_len(n_features as nat),
                self.config == old(self).config,
                generators@.len() + reversed_plans@.len() == n_trees,
                forall|t: int|
                    0 <= t < reversed_plans@.len() ==> starts_well(
                        #[trigger] reversed_plans@[t],
                        self.config,
                        n_population,
                        n_features,
                        policy,
                    ),
            decreases generators@.len(),
        {
            match generators.pop() {
                Some(mut generator) => {
                    let indices = generate_indices(
                        policy.max_samples,
                        n_population,
                        policy.with_replacement,
                        &mut generator,
                    );
                    let tree = CIsoTree::from_config(
                        &self.config,
                        policy.max_samples,
                        n_features,
                        &mut generator,
                    );
                    reversed_plans.push(Seedling { indices, tree, random_state: generator });
                },
                None => {},
            }
        }
        let mut plans: Vec<Seedling> = Vec::new();
        while reversed_plans.len() > 0
            invariant
                reversed_plans@.len() + plans@.len() == n_trees,
                forall|t: int|
                    0 <= t < reversed_plans@.len() ==> starts_well(
                        #[trigger] reversed_plans@[t],
                        self.config,
                        n_population,
                        n_features,
                        policy,
                    ),
                forall|t: int|
                    0 <= t < plans@.len() ==> starts_well(
                        #[trigger] plans@[t],
                        self.config,
                        n_population,
                        n_features,
                        policy,
                    ),
            decreases reversed_plans@.len(),
        {
            match reversed_plans.pop() {
                Some(plan) => {
                    plans.push(plan);
                },
                None => {},
            }
        }
        Ok(plans)
    }

    /// For every pair of a sample of the first data set and a sample of
    /// the second, the number of trees in which the two fall into
    /// different leaves; without a second data set the first is compared
    /// with itself.
    pub fn pairwise_breiman(
        &self,
        ds_a: &Vec<Vec<Sample>>,
        ds_b: Option<&Vec<Vec<Sample>>>,
        n_a: usize,
        n_b: usize,
    ) -> (counts:
        Vec<Vec<usize>>)
        requires
            self.wf(),
            per_tree(self.grown(), ds_a@, n_a as nat),
            per_tree(self.grown(), second_set(ds_a, ds_b)@, n_b as nat),
        ensures
            counts@.len() == n_a,
            forall|i: int| 0 <= i < n_a ==> (#[trigger] counts@[i])@.len() == n_b,
            forall|i: int, j: int|
                0 <= i < n_a && 0 <= j < n_b ==> #[trigger] counts@[i]@[j] == disagreements(
                    self.grown(),
                    ds_a@,
                    second_set(ds_a, ds_b)@,
                    i,
                    j,
                    self.grown().len() as int,
                ) && counts@[i]@[j] <= self.grown().len(),
    {
        let second: &Vec<Vec<Sample>> = match ds_b {
            Some(other) => other,
            None => ds_a,
        };
        let mut counts: Vec<Vec<usize>> = Vec::new();
        let mut i: usize = 0;
        while i < n_a
            invariant
                i <= n_a,
                counts@.len() == i,
                forall|r: int| 0 <= r < i ==> (#[trigger] counts@[r])@.len() == n_b,
                forall|r: int, c: int|
                    0 <= r < i && 0 <= c < n_b ==> #[trigger] counts@[r]@[c] == 0,
            decreases n_a - i,
        {
            let mut row: Vec<usize> = Vec::new();
            let mut j: usize = 0;
            while j < n_b
                invariant
                    j <= n_b,
                    row@.len() == j,
                    forall|c: int| 0 <= c < j ==> #[trigger] row@[c] == 0,
                decreases n_b - j,
            {
                row.push(0);
                j += 1;
            }
            counts.push(row);
            i += 1;
        }
        let mut t: usize = 0;
        while t < self.trees.len()
            invariant
                t <= self.trees@.len(),
                self.wf(),
                second == second_set(ds_a, ds_b),
                per_tree(self.trees@, ds_a@, n_a as nat),
                per_tree(self.trees@, second@, n_b as nat),
                counts@.len() == n_a,
                forall|r: int| 0 <= r < n_a ==> (#[trigger] counts@[r])@.len() == n_b,
                forall|r: int, c: int|
                    0 <= r < n_a && 0 <= c < n_b ==> #[trigger] counts@[r]@[c] == disagreements(
                        self.trees@,
                        ds_a@,
                        second@,
                        r,
                        c,
                        t as int,
                    ),
            decreases self.trees@.len() - t,
        {
            let tree = &self.trees[t];
            assert(ds_a@[t as int]@.len() == n_a && fits(&self.trees@[t as int], ds_a@[t as int]@));
            assert(second@[t as int]@.len() == n_b && fits(
                &self.trees@[t as int],
                second@[t as int]@,
            ));
            let marks = breiman_tree(tree, &ds_a[t], Some(&second[t]));
            let ghost before = counts@;
            let mut next: Vec<Vec<usize>> = Vec::new();
            let mut i: usize = 0;
            while i < n_a
                invariant
                    i <= n_a,
                    t < self.trees@.len(),
                    ds_a@.len() == self.trees@.len(),
                    second@.len() == self.trees@.len(),
                    ds_a@[t as int]@.len() == n_a,
                    second@[t as int]@.len() == n_b,
                    counts@ == before,
                    counts@.len() == n_a,
                    marks@.len() == n_a,
                    forall|r: int| 0 <= r < n_a ==> (#[trigger] counts@[r])@.len() == n_b,
                    forall|r: int| 0 <= r < n_a ==> (#[trigger] marks@[r])@.len() == n_b,
                    forall|r: int, c: int|
                        0 <= r < n_a && 0 <= c < n_b ==> #[trigger] counts@[r]@[c] == disagreements(
                            self.trees@,
                            ds_a@,
                            second@,
                            r,
                            c,
                            t as int,
                        ),
                    forall|r: int, c: int|
                        0 <= r < n_a && 0 <= c < n_b ==> #[trigger] marks@[r]@[c] == apart(
                            &self.trees@[t as int],
                            ds_a@[t as int]@[r],
                            second@[t as int]@[c],
                        ),
                    next@.len() == i,
                    forall|r: int| 0 <= r < i ==> (#[trigger] next@[r])@.len() == n_b,
                    forall|r: int, c: int|
                        0 <= r < i && 0 <= c < n_b ==> #[trigger] next@[r]@[c] == disagreements(
                            self.trees@,
                            ds_a@,
                            second@,
                            r,
                            c,
                            t + 1,
                        ),
                decreases n_a - i,
            {
                let mut row: Vec<usize> = Vec::new();
                let mut j: usize = 0;
                while j < n_b
                    invariant
                        i < n_a,
                        j <= n_b,
                        t < self.trees@.len(),
                        ds_a@.len() == self.trees@.len(),
                        second@.len() == self.trees@.len(),
                        ds_a@[t as int]@.len() == n_a,
                        second@[t as int]@.len() == n_b,
                        counts@.len() == n_a,
                        marks@.len() == n_a,
                        counts@[i as int]@.len() == n_b,
                        marks@[i as int]@.len() == n_b,
                        forall|c: int|
                            0 <= c < n_b ==> #[trigger] counts@[i as int]@[c] == disagreements(
                                self.trees@,
                                ds_a@,
                                second@,
                                i as int,
                                c,
                                t as int,
                            ),
                        forall|c: int|
                            0 <= c < n_b ==> #[trigger] marks@[i as int]@[c] == apart(
                                &self.trees@[t as int],
                                ds_a@[t as int]@[i as int],
                                second@[t as int]@[c],
                            ),
                        row@.len() == j,
                        forall|c: int|
                            0 <= c < j ==> #[trigger] row@[c] == disagreements(
                                self.trees@,
                                ds_a@,
                                second@,
                                i as int,
                                c,
                                t + 1,
                            ),
                    decreases n_b - j,
                {
                    let so_far: usize = counts[i][j];
                    let n_trees: usize = self.trees.len();
                    proof {
                        lemma_disagreements_bounded(
                            self.trees@,
                            ds_a@,
                            second@,
                            i as int,
                            j as int,
                            t as int,
                        );
                        assert(so_far == counts@[i as int]@[j as int]);
                        assert(so_far <= t);
                    }
                    let entry: usize = if marks[i][j] {
                        so_far + 1
                    } else {
                        so_far
                    };
                    row.push(entry);
                    j += 1;
                }
                next.push(row);
                i += 1;
            }
            counts = next;
            t += 1;
        }
        proof {
            assert forall|i: int, j: int| 0 <= i < n_a && 0 <= j < n_b implies #[trigger] counts@[i]@[j]
                <= self.trees@.len() by {
                lemma_disagreements_bounded(
                    self.trees@,
                    ds_a@,
                    second@,
                    i,
                    j,
                    self.trees@.len() as int,
                );
            }
        }
        counts
    }

    /// For every tree, and in it for every pair of a sample of the first
    /// data set and a sample of the second, the share of the deeper leaf's
    /// depth that the lowest common ancestor of their leaves reaches.
    pub fn pairwise_zhu(
        &self,
        ds_a: &Vec<Vec<Sample>>,
        ds_b: Option<&Vec<Vec<Sample>>>,
        n_a: usize,
        n_b: usize,
    ) -> (shares:
        Vec<Vec<Vec<Ratio>>>)
        requires
            self.wf(),
            per_tree(self.grown(), ds_a@, n_a as nat),
            per_tree(self.grown(), second_set(ds_a, ds_b)@, n_b as nat),
        ensures
            shares@.len() == self.grown().len(),
            forall|t: int|
                0 <= t < shares@.len() ==> zhu_of(
                    &self.grown()[t],
                    ds_a@[t]@,
                    second_set(ds_a, ds_b)@[t]@,
                    #[trigger] shares@[t],
                ),
    {
        let second: &Vec<Vec<Sample>> = match ds_b {
            Some(other) => other,
            None => ds_a,
        };
        let mut shares: Vec<Vec<Vec<Ratio>>> = Vec::new();
        let mut t: usize = 0;
        while t < self.trees.len()
            invariant
                t <= self.trees@.len(),
                self.wf(),
                second == second_set(ds_a, ds_b),
                per_tree(self.trees@, ds_a@, n_a as nat),
                per_tree(self.trees@, second@, n_b as nat),
                shares@.len() == t,
                forall|k: int|
                    0 <= k < t ==> zhu_of(
                        &self.trees@[k],
                        ds_a@[k]@,
                        second@[k]@,
                        #[trigger] shares@[k],
                    ),
            decreases self.trees@.len() - t,
        {
            assert(ds_a@[t as int]@.len() == n_a && fits(&self.trees@[t as int], ds_a@[t as int]@));
            assert(second@[t as int]@.len() == n_b && fits(
                &self.trees@[t as int],
                second@[t as int]@,
            ));
            let matrix = zhu_tree(&self.trees[t], &ds_a[t], Some(&second[t]));
            shares.push(matrix);
            t += 1;
        }
        shares
    }

    /// For every tree, and in it for every pair of a sample of the first
    /// data set and a sample of the second, the share of the distinct
    /// rules on their two ways on which they agree.
    pub fn pairwise_ratiorf(
        &self,
        ds_a: &Vec<Vec<Sample>>,
        ds_b: Option<&Vec<Vec<Sample>>>,
        n_a: usize,
        n_b: usize,
    ) -> (shares:
        Vec<Vec<Vec<Ratio>>>)
        requires
            self.wf(),
            per_tree(self.grown(), ds_a@, n_a as nat),
            per_tree(self.grown(), second_set(ds_a, ds_b)@, n_b as nat),
        ensures
            shares@.len() == self.grown().len(),
            forall|t: int|
                0 <= t < shares@.len() ==> ratiorf_of(
                    &self.grown()[t],
                    ds_a@[t]@,
                    second_set(ds_a, ds_b)@[t]@,
                    #[trigger] shares@[t],
                ),
    {
        let second: &Vec<Vec<Sample>> = match ds_b {
            Some(other) => other,
            None => ds_a,
        };
        let mut shares: Vec<Vec<Vec<Ratio>>> = Vec::new();
        let mut t: usize = 0;
        while t < self.trees.len()
            invariant
                t <= self.trees@.len(),
                self.wf(),
                second == second_set(ds_a, ds_b),
                per_tree(self.trees@, ds_a@, n_a as nat),
                per_tree(self.trees@, second@, n_b as nat),
                shares@.len() == t,
                forall|k: int|
                    0 <= k < t ==> ratiorf_of(
                        &self.trees@[k],
                        ds_a@[k]@,
                        second@[k]@,
                        #[trigger] shares@[k],
                    ),
            decreases self.trees@.len() - t,
        {
            assert(ds_a@[t as int]@.len() == n_a && fits(&self.trees@[t as int], ds_a@[t as int]@));
            assert(second@[t as int]@.len() == n_b && fits(
                &self.trees@[t as int],
                second@[t as int]@,
            ));
            let matrix = ratiorf_tree(&self.trees[t], &ds_a[t], Some(&second[t]));
            shares.push(matrix);
            t += 1;
        }
        shares
    }

    /// For every sample the class that most trees give it; with no trees,
    /// class 0.
    pub fn predict_(&self, ds: &Vec<Vec<Sample>>, n_samples: usize) -> (classes: Vec<isize>)
        requires
            self.wf(),
            per_tree(self.grown(), ds@, n_samples as nat),
        ensures
            classes@.len() == n_samples,
            forall|i: int|
                0 <= i < n_samples ==> is_majority(
                    votes_for(self.grown(), ds@, i),
                    #[trigger] classes@[i],
                ),
    {
        let mut predictions: Vec<Vec<isize>> = Vec::new();
        let mut t: usize = 0;
        while t < self.trees.len()
            invariant
                t <= self.trees@.len(),
                self.wf(),
                per_tree(self.trees@, ds@, n_samples as nat),
                predictions@.len() == t,
                forall|k: int| 0 <= k < t ==> (#[trigger] predictions@[k])@.len() == n_samples,
                forall|k: int, i: int|
                    0 <= k < t && 0 <= i < n_samples ==> #[trigger] predictions@[k]@[i] == vote_of(
                        &self.trees@[k],
                        ds@[k]@[i],
                    ),
            decreases self.trees@.len() - t,
        {
            assert(ds@[t as int]@.len() == n_samples && fits(&self.trees@[t as int], ds@[t as int]@));
            let classes = self.trees[t].predict(&ds[t]);
            predictions.push(classes);
            t += 1;
        }
        let mut classes: Vec<isize> = Vec::new();
        let mut i: usize = 0;
        while i < n_samples
            invariant
                i <= n_samples,
                predictions@.len() == self.trees@.len(),
                forall|k: int|
                    0 <= k < predictions@.len() ==> (#[trigger] predictions@[k])@.len() == n_samples,
                forall|k: int, s: int|
                    0 <= k < predictions@.len() && 0 <= s < n_samples ==> #[trigger] predictions@[k]@[s]
                        == vote_of(&self.trees@[k], ds@[k]@[s]),
                classes@.len() == i,
                forall|s: int|
                    0 <= s < i ==> is_majority(
                        votes_for(self.trees@, ds@, s),
                        #[trigger] classes@[s],
                    ),
            decreases n_samples - i,
        {
            let mut votes: Vec<isize> = Vec::new();
            let mut k: usize = 0;
            while k < predictions.len()
                invariant
                    i < n_samples,
                    k <= predictions@.len(),
                    predictions@.len() == self.trees@.len(),
                    forall|r: int|
                        0 <= r < predictions@.len() ==> (#[trigger] predictions@[r])@.len()
                            == n_samples,
                    forall|r: int, s: int|
                        0 <= r < predictions@.len() && 0 <= s < n_samples ==> #[trigger] predictions@[r]@[s]
                            == vote_of(&self.trees@[r], ds@[r]@[s]),
                    votes@.len() == k,
                    forall|r: int|
                        0 <= r < k ==> #[trigger] votes@[r] == vote_of(
                            &self.trees@[r],
                            ds@[r]@[i as int],
                        ),
                decreases predictions@.len() - k,
            {
                votes.push(predictions[k][i]);
                k += 1;
            }
            assert(votes@ =~= votes_for(self.trees@, ds@, i as int));
            classes.push(majority_label(&votes));
            i += 1;
        }
        classes
    }

    /// For every sample and every tree, the depth of the sample's leaf in
    /// the tree and the number of training samples in that leaf.
    pub fn depth_samples(&self, ds: &Vec<Vec<Sample>>, n_samples: usize) -> (profiles: Vec<
        Vec<(usize, usize)>,
    >)
        requires
            self.wf(),
            self.grown().len() > 0,
            per_tree(self.grown(), ds@, n_samples as nat),
        ensures
            profiles@.len() == n_samples,
            forall|i: int|
                0 <= i < n_samples ==> (#[trigger] profiles@[i])@.len() == self.grown().len(),
            forall|i: int, t: int|
                0 <= i < n_samples && 0 <= t < self.grown().len() ==> #[trigger] profiles@[i]@[t]
                    == profile_of(&self.grown()[t], ds@[t]@[i]),
    {
        let mut by_tree: Vec<Vec<(usize, usize)>> = Vec::new();
        let mut t: usize = 0;
        while t < self.trees.len()
            invariant
                t <= self.trees@.len(),
                self.wf(),
                per_tree(self.trees@, ds@, n_samples as nat),
                by_tree@.len() == t,
                forall|k: int| 0 <= k < t ==> (#[trigger] by_tree@[k])@.len() == n_samples,
                forall|k: int, i: int|
                    0 <= k < t && 0 <= i < n_samples ==> #[trigger] by_tree@[k]@[i] == profile_of(
                        &self.trees@[k],
                        ds@[k]@[i],
                    ),
            decreases self.trees@.len() - t,
        {
            let tree = &self.trees[t];
            let data = &ds[t];
            assert(ds@[t as int]@.len() == n_samples && fits(&self.trees@[t as int], ds@[t as int]@));
            let mut row: Vec<(usize, usize)> = Vec::new();
            let mut i: usize = 0;
            while i < n_samples
                invariant
                    i <= n_samples,
                    tree.wf(),
                    tree.fitted(),
                    data@.len() == n_samples,
                    fits(tree, data@),
                    row@.len() == i,
                    forall|s: int|
                        0 <= s < i ==> #[trigger] row@[s] == profile_of(tree, data@[s]),
                decreases n_samples - i,
            {
                let profile = tree.path_profile(&data[i]);
                row.push(profile);
                i += 1;
            }
            by_tree.push(row);
            t += 1;
        }
        let ghost rows = by_tree@;
        let profiles = transpose(by_tree);
        proof {
            assert forall|i: int, t: int|
                0 <= i < n_samples && 0 <= t < self.trees@.len() implies #[trigger] profiles@[i]@[t]
                == profile_of(&self.trees@[t], ds@[t]@[i]) by {
                assert(profiles@[i]@[t] == rows[t]@[i]);
            }
        }
        profiles
    }
}

/// The class that `tree` gives the sample.
pub open spec fn vote_of(tree: &CIsoTree, sample: Sample) -> isize {
    tree.arena()[leaf_of(tree, sample)].class_of()
}

/// The classes that the trees give sample `i`, tree by tree.
pub open spec fn votes_for(trees: Seq<CIsoTree>, ds: Seq<Vec<Sample>>, i: int) -> Seq<isize> {
    Seq::new(trees.len(), |t: int| vote_of(&trees[t], ds[t]@[i]))
}

/// The depth of the sample's leaf in `tree`, and the number of training
/// samples in that leaf.
pub open spec fn profile_of(tree: &CIsoTree, sample: Sample) -> (usize, usize) {
    (
        tree.arena()[leaf_of(tree, sample)].depth_of(),
        tree.arena()[leaf_of(tree, sample)].samples_of(),
    )
}

/// `matrix` holds the ancestor-depth shares of one tree for every pair of
/// the two data sets.
pub open spec fn zhu_of(tree: &CIsoTree, a: Seq<Sample>, b: Seq<Sample>, matrix: Vec<Vec<Ratio>>) -> bool {
    &&& matrix@.len() == a.len()
    &&& forall|i: int| 0 <= i < a.len() ==> (#[trigger] matrix@[i])@.len() == b.len()
    &&& forall|i: int, j: int|
        0 <= i < a.len() && 0 <= j < b.len() ==> #[trigger] matrix@[i]@[j] == zhu_ratio(
            tree.arena(),
            leaf_of(tree, a[i]),
            leaf_of(tree, b[j]),
        ) && matrix@[i]@[j].wf()
}

/// `matrix` holds the rule-agreement shares of one tree for every pair of
/// the two data sets.
pub open spec fn ratiorf_of(tree: &CIsoTree, a: Seq<Sample>, b: Seq<Sample>, matrix: Vec<Vec<Ratio>>) -> bool {
    &&& matrix@.len() == a.len()
    &&& forall|i: int| 0 <= i < a.len() ==> (#[trigger] matrix@[i])@.len() == b.len()
    &&& forall|i: int, j: int|
        0 <= i < a.len() && 0 <= j < b.len() ==> #[trigger] matrix@[i]@[j] == ratiorf_ratio(
            rules_from(tree.arena(), a[i].features@, 0),
            rules_from(tree.arena(), b[j].features@, 0),
            a[i].features@,
            b[j].features@,
        ) && matrix@[i]@[j].wf()
}

/// `tree` is the tree of `seedling` with the arena that `builder` has
/// finished: sound, grown, and with a root that holds as many samples as
/// the seedling has positions.
pub open spec fn grown_from(tree: CIsoTree, seedling: Seedling, builder: TreeBuilder) -> bool {
    &&& tree.wf()
    &&& tree.fitted()
    &&& tree.arena() == builder.arena()
    &&& tree.arena()[0].samples_of() == seedling.indices@.len()
    &&& tree.settings() == seedling.tree.settings()
    &&& tree.drawn_intervals() == seedling.tree.drawn_intervals()
    &&& tree.drawn_attributes() == seedling.tree.drawn_attributes()
}

/// What a fit leaves behind.
///
/// Without series it fails for want of input, and with series shorter than
/// the shortest sub-interval it fails for that; a failed fit changes
/// nothing. Otherwise it succeeds: the ensemble has no trees, its sample
/// size is that of the policy, and there is one start per tree.
pub open spec fn fit_outcome(
    before: Forest,
    after: Forest,
    n_population: usize,
    n_features: usize,
    policy: SamplingPolicy,
    seedlings: Result<Vec<Seedling>, FitError>,
) -> bool {
    &&& after.settings() == before.settings()
    &&& n_population == 0 ==> seedlings == Err::<Vec<Seedling>, FitError>(FitError::EmptyInput)
    &&& n_population > 0 && n_features < min_interval_len(n_features as nat) ==> seedlings == Err::<
        Vec<Seedling>,
        FitError,
    >(FitError::SeriesTooShort)
    &&& n_population > 0 && n_features >= min_interval_len(n_features as nat) ==> seedlings is Ok
    &&& seedlings is Err ==> after.grown() == before.grown() && after.sample_size()
        == before.sample_size()
    &&& seedlings matches Ok(plans) ==> {
        &&& after.wf()
        &&& after.grown().len() == 0
        &&& after.sample_size() == policy.max_samples
        &&& plans@.len() == before.settings().outlier_config.n_trees
        &&& forall|t: int|
            0 <= t < plans@.len() ==> starts_well(
                #[trigger] plans@[t],
                before.settings(),
                n_population,
                n_features,
                policy,
            )
    }
}

/// What holds of a tree's start: its positions follow the sampling policy
/// and name samples of the data, and its tree is sound, not grown yet, and
/// set up as the ensemble's settings say.
pub open spec fn starts_well(
    plan: Seedling,
    config: CIsoForestConfig,
    n_population: usize,
    n_features: usize,
    policy: SamplingPolicy,
) -> bool {
    &&& forall|k: int| 0 <= k < plan.indices@.len() ==> #[trigger] plan.indices@[k] < n_population
    &&& policy.with_replacement ==> plan.indices@.len() == policy.max_samples
    &&& !policy.with_replacement ==> plan.indices@.len() == (if policy.max_samples <= n_population {
        policy.max_samples
    } else {
        n_population
    }) && plan.indices@.no_duplicates()
    &&& plan.tree.wf()
    &&& !plan.tree.fitted()
    &&& plan.tree.settings().n_features == n_features
    &&& plan.tree.settings().min_samples_split == config.outlier_config.min_samples_split
    &&& plan.tree.settings().min_samples_leaf == config.outlier_config.min_samples_leaf
    &&& plan.tree.settings().n_attributes == config.n_attributes
    &&& config.n_intervals.interval_count(
        n_features as nat,
        plan.tree.settings().n_intervals as nat,
    )
    &&& match config.outlier_config.max_depth {
        Some(depth) => plan.tree.settings().max_depth == depth,
        None => is_default_depth(
            policy.max_samples as nat,
            plan.tree.settings().max_depth as nat,
        ),
    }
}

} // verus!

//! The sub-sampling ensemble: every tree grows from at most 256 samples,
//! drawn without replacement.

use crate::forest::forest::fit_outcome;
use crate::forest::forest::grown_from;
use crate::forest::forest::FitError;
use crate::forest::forest::Forest;
use crate::forest::forest::ForestConfig;
use crate::forest::forest::SamplingPolicy;
use crate::forest::forest::Seedling;
use crate::forest::forest::SUBSAMPLE_SIZE;
use crate::tree::builder::TreeBuilder;
use crate::tree::ciso_tree::CIsoTree;
use crate::utils::random::RandomGenerator;
use crate::utils::structures::IntervalType;
use vstd::prelude::*;

verus! {

/// Settings of an ensemble over series: how many sub-intervals and how many
/// descriptors every tree draws, and the settings of every ensemble.
#[derive(Clone, Copy)]
pub struct CIsoForestConfig {
    pub n_intervals: IntervalType,
    pub n_attributes: usize,
    pub outlier_config: ForestConfig,
}

/// An ensemble whose trees grow from sub-samples.
pub struct CIsoForest {
    forest: Forest,
}

impl CIsoForest {
    /// The trees and settings of the ensemble.
    pub closed spec fn inner(&self) -> Forest {
        self.forest
    }

    /// How the ensemble draws the samples of a tree out of `n_population`:
    /// 256 of them, or all if there are fewer, none twice.
    pub open spec fn policy(n_population: usize) -> SamplingPolicy {
        SamplingPolicy {
            max_samples: if n_population < SUBSAMPLE_SIZE {
                n_population
            } else {
                SUBSAMPLE_SIZE
            },
            with_replacement: false,
        }
    }

    /// An ensemble without trees.
    pub fn new(config: &CIsoForestConfig) -> (ensemble: Self)
        ensures
            ensemble.inner().wf(),
            ensemble.inner().grown().len() == 0,
            ensemble.inner().settings() == *config,
            ensemble.inner().sample_size() == 0,
    {
        CIsoForest { forest: Forest::new(config) }
    }

    /// The trees and settings of the ensemble.
    pub fn get_forest(&self) -> (forest: &Forest)
        ensures
            *forest == self.inner(),
    {
        &self.forest
    }

    /// The settings shared by every ensemble, and those of this one.
    pub fn get_forest_config(&self) -> (configs: (&ForestConfig, &CIsoForestConfig))
        ensures
            *configs.0 == self.inner().settings().outlier_config,
            *configs.1 == self.inner().settings(),
    {
        self.forest.get_forest_config()
    }

    /// The number of samples that every tree was grown from.
    pub fn get_max_samples(&self) -> (max_samples: usize)
        ensures
            max_samples == self.inner().sample_size(),
    {
        self.forest.get_max_samples()
    }

    /// The trees of the ensemble.
    pub fn get_trees(&self) -> (trees: &Vec<CIsoTree>)
        ensures
            trees@ == self.inner().grown(),
    {
        self.forest.get_trees()
    }

    /// Sets the number of samples that every tree is grown from.
    pub fn set_max_samples(&mut self, max_samples: usize)
        ensures
            final(self).inner().sample_size() == max_samples,
            final(self).inner().grown() == old(self).inner().grown(),
            final(self).inner().settings() == old(self).inner().settings(),
    {
        self.forest.set_max_samples(max_samples);
    }

    /// Replaces the trees of the ensemble.
    pub fn set_trees(&mut self, trees: Vec<CIsoTree>)
        requires
            crate::forest::forest::all_fitted(trees@),
        ensures
            final(self).inner().wf(),
            final(self).inner().grown() == trees@,
            final(self).inner().settings() == old(self).inner().settings(),
            final(self).inner().sample_size() == old(self).inner().sample_size(),
    {
        self.forest.set_trees(trees);
    }

    /// Gives the ensemble the trees that were grown from `seedlings`: tree
    /// `t` takes the arena that builder `t` has finished.
    pub fn install(&mut self, seedlings: Vec<Seedling>, builders: Vec<TreeBuilder>)
        requires
            seedlings@.len() == builders@.len(),
            forall|t: int|
                0 <= t < builders@.len() ==> (#[trigger] builders@[t]).wf() && builders@[t].finished()
                    && seedlings@[t].tree.wf() && builders@[t].data().len()
                    == seedlings@[t].indices@.len(),
        ensures
            final(self).inner().wf(),
            final(self).inner().grown().len() == seedlings@.len(),
            forall|t: int|
                0 <= t < seedlings@.len() ==> grown_from(
                    #[trigger] final(self).inner().grown()[t],
                    seedlings@[t],
                    builders@[t],
                ),
            final(self).inner().settings() == old(self).inner().settings(),
            final(self).inner().sample_size() == old(self).inner().sample_size(),
    {
        self.forest.install(seedlings, builders);
    }

    /// Prepares the trees for `n_population` series of `n_features` points:
    /// every tree starts from at most 256 positions, none twice.
    pub fn fit(&mut self, n_population: usize, n_features: usize, random_state: &mut RandomGenerator) -> (seedlings:
        Result<Vec<Seedling>, FitError>)
        ensures
            fit_outcome(
                old(self).inner(),
                final(self).inner(),
                n_population,
                n_features,
                Self::policy(n_population),
                seedlings,
            ),
    {
        let max_samples: usize = if n_population < SUBSAMPLE_SIZE {
            n_population
        } else {
            SUBSAMPLE_SIZE
        };
        self.forest.fit_(
            n_population,
            n_features,
            SamplingPolicy { max_samples, with_replacement: false },
            random_state,
        )
    }
}

} // verus!

use ciforest::forest::ciso_forest::CIsoForest;
use ciforest::forest::ciso_forest::CIsoForestConfig;
use ciforest::forest::distance::breiman_tree;
use ciforest::forest::distance::leaves_of;
use ciforest::forest::distance::ratiorf_tree;
use ciforest::forest::distance::rule_agreement;
use ciforest::forest::distance::zhu_tree;
use ciforest::forest::distance::Ratio;
use ciforest::forest::erci_forest::ERCIForest;
use ciforest::forest::forest::generate_indices;
use ciforest::forest::forest::tree_generators;
use ciforest::forest::forest::FitError;
use ciforest::forest::forest::Forest;
use ciforest::forest::forest::ForestConfig;
use ciforest::forest::forest::SamplingPolicy;
use ciforest::forest::forest::Seedling;
use ciforest::forest::forest::SUBSAMPLE_SIZE;
use ciforest::tree::builder::BuildAction;
use ciforest::tree::builder::TreeBuilder;
use ciforest::tree::ciso_tree::CIsoTree;
use ciforest::tree::transform::feature_keys;
use ciforest::tree::transform::FeatureCache;
use ciforest::tree::tree::StandardSplit;
use ciforest::utils::structures::IntervalType;
use ciforest::utils::structures::MaxFeatures;
use ciforest::utils::structures::Sample;
use rand::Rng;
use rand::RngCore;
use rand::SeedableRng;

type Generator = rand_chacha::ChaCha8Rng;

fn key_of(value: f64) -> i64 {
    let bits = (value + 0.0).to_bits() as i64;
    if bits < 0 {
        bits ^ i64::MAX
    } else {
        bits
    }
}

fn value_of(key: i64) -> f64 {
    let bits = if key < 0 { key ^ i64::MAX } else { key };
    f64::from_bits(bits as u64)
}

/// A stand-in for the catalogue of descriptors.
fn descriptor(slice: &[f64], which: usize) -> f64 {
    let n = slice.len() as f64;
    match which % 4 {
        0 => slice.iter().sum::<f64>() / n,
        1 => slice.iter().cloned().fold(f64::INFINITY, f64::min),
        2 => slice.iter().cloned().fold(f64::NEG_INFINITY, f64::max),
        _ => slice.last().unwrap() - slice.first().unwrap() + which as f64,
    }
}

struct Series {
    id: usize,
    target: isize,
    values: Vec<f64>,
}

fn series(n: usize, length: usize, seed: u64) -> Vec<Series> {
    let mut random_state = Generator::seed_from_u64(seed);
    (0..n)
        .map(|id| {
            let outlier = id % 10 == 0;
            let values = (0..length)
                .map(|_| random_state.gen_range(0.0..1.0) + if outlier { 8.0 } else { 0.0 })
                .collect();
            Series { id, target: outlier as isize, values }
        })
        .collect()
}

fn transform(tree: &CIsoTree, data: &[&Series], cache: &mut FeatureCache) -> Vec<Sample> {
    data.iter()
        .map(|one| {
            let keys = feature_keys(one.id, tree.get_intervals(), tree.get_attributes());
            let features = keys
                .into_iter()
                .map(|key| match cache.get(key) {
                    Some(value) => value,
                    None => {
                        let mut value = descriptor(&one.values[key.1..key.2], key.3);
                        if !value.is_finite() {
                            value = 0.0;
                        }
                        cache.offer(key, key_of(value));
                        key_of(value)
                    }
                })
                .collect();
            Sample { target: one.target, features }
        })
        .collect()
}

/// A threshold drawn uniformly between the values that two keys stand for,
/// strictly inside; none where the values are as good as equal.
fn draw_inside(low: i64, high: i64, random_state: &mut Generator) -> Option<i64> {
    let (least, greatest) = (value_of(low), value_of(high));
    if greatest - least <= f64::EPSILON || high - low < 2 {
        return None;
    }
    loop {
        let cut = key_of(random_state.gen_range(least..greatest));
        if low < cut && cut < high {
            return Some(cut);
        }
    }
}

/// Grows the tree of a seedling; the seedling is handed back with the
/// builder that has finished.
fn grow(seedling: Seedling, data: &[Series], cache: &mut FeatureCache) -> (Seedling, TreeBuilder) {
    let Seedling { indices, tree, mut random_state } = seedling;
    let chosen: Vec<&Series> = indices.iter().map(|i| &data[*i]).collect();
    let samples = transform(&tree, &chosen, cache);
    let mut builder = tree.start_fit(samples);
    loop {
        match builder.advance(&mut random_state) {
            BuildAction::Done => break,
            BuildAction::Draw { low, high, .. } => {
                builder.supply(draw_inside(low, high, &mut random_state));
            }
        }
    }
    (Seedling { indices, tree, random_state }, builder)
}

fn grow_all(
    seedlings: Vec<Seedling>,
    data: &[Series],
    cache: &mut FeatureCache,
) -> (Vec<Seedling>, Vec<TreeBuilder>) {
    seedlings.into_iter().map(|s| grow(s, data, cache)).unzip()
}

fn settings(n_trees: usize, max_depth: Option<usize>) -> CIsoForestConfig {
    CIsoForestConfig {
        n_intervals: IntervalType::LOG2,
        n_attributes: 3,
        outlier_config: ForestConfig {
            n_trees,
            max_depth,
            min_samples_split: 2,
            min_samples_leaf: 1,
            max_features: MaxFeatures::ALL,
            aggregation: None,
        },
    }
}

fn fitted(data: &[Series], n_trees: usize, seed: u64, cache: &mut FeatureCache) -> ERCIForest {
    let mut ensemble = ERCIForest::new(&settings(n_trees, None));
    let mut random_state = Generator::seed_from_u64(seed);
    let seedlings = ensemble.fit(data.len(), data[0].values.len(), &mut random_state).unwrap();
    let (seedlings, builders) = grow_all(seedlings, data, cache);
    ensemble.install(seedlings, builders);
    ensemble
}

fn per_tree(forest: &Forest, data: &[Series], cache: &mut FeatureCache) -> Vec<Vec<Sample>> {
    let all: Vec<&Series> = data.iter().collect();
    forest.get_trees().iter().map(|tree| transform(tree, &all, cache)).collect()
}

#[test]
fn positions_drawn_with_replacement_repeat() {
    let mut repeats = 0;
    for seed in 0..20u64 {
        let mut random_state = Generator::seed_from_u64(seed);
        let indices = generate_indices(60, 60, true, &mut random_state);
        assert_eq!(indices.len(), 60);
        assert!(indices.iter().all(|i| *i < 60));
        let distinct: std::collections::BTreeSet<usize> = indices.iter().copied().collect();
        if distinct.len() < indices.len() {
            repeats += 1;
        }
        assert!(distinct.len() > 10, "the draws must differ from each other");
    }
    assert_eq!(repeats, 20);
}

#[test]
fn positions_drawn_without_replacement_are_distinct() {
    let mut orders = std::collections::BTreeSet::new();
    for seed in 0..20u64 {
        let mut random_state = Generator::seed_from_u64(seed);
        let indices = generate_indices(40, 60, false, &mut random_state);
        assert_eq!(indices.len(), 40);
        assert!(indices.iter().all(|i| *i < 60));
        let distinct: std::collections::BTreeSet<usize> = indices.iter().copied().collect();
        assert_eq!(distinct.len(), 40);
        orders.insert(indices);
    }
    assert!(orders.len() > 15, "the shuffles must differ from each other");
}

#[test]
fn more_positions_than_samples_gives_them_all_once() {
    let mut random_state = Generator::seed_from_u64(3);
    let mut indices = generate_indices(100, 7, false, &mut random_state);
    assert_ne!(indices, (0..7).collect::<Vec<usize>>());
    indices.sort();
    assert_eq!(indices, (0..7).collect::<Vec<usize>>());
    assert!(generate_indices(0, 7, false, &mut random_state).is_empty());
    assert!(generate_indices(0, 0, true, &mut random_state).is_empty());
    assert!(generate_indices(5, 0, false, &mut random_state).is_empty());
}

#[test]
fn every_tree_gets_its_own_generator() {
    let mut random_state = Generator::seed_from_u64(8);
    let mut generators = tree_generators(5, &mut random_state);
    assert_eq!(generators.len(), 5);
    let firsts: std::collections::BTreeSet<u64> = generators.iter_mut().map(|g| g.next_u64()).collect();
    assert_eq!(firsts.len(), 5);
    // The same root gives the same generators.
    let mut again = tree_generators(5, &mut Generator::seed_from_u64(8));
    let mut expected = tree_generators(5, &mut Generator::seed_from_u64(8));
    for (a, b) in again.iter_mut().zip(expected.iter_mut()) {
        assert_eq!(a.next_u64(), b.next_u64());
    }
    assert!(tree_generators(0, &mut random_state).is_empty());
}

#[test]
fn fitting_nothing_fails() {
    let mut ensemble = ERCIForest::new(&settings(3, None));
    let mut random_state = Generator::seed_from_u64(1);
    assert!(matches!(ensemble.fit(0, 20, &mut random_state), Err(FitError::EmptyInput)));
    assert!(matches!(ensemble.fit(0, 1, &mut random_state), Err(FitError::EmptyInput)));
    let mut ensemble = CIsoForest::new(&settings(3, None));
    assert!(matches!(ensemble.fit(0, 20, &mut random_state), Err(FitError::EmptyInput)));
    assert_eq!(ensemble.get_trees().len(), 0);
    assert_eq!(ensemble.get_max_samples(), 0);
}

#[test]
fn fitting_short_series_fails() {
    let mut ensemble = ERCIForest::new(&settings(3, None));
    let mut random_state = Generator::seed_from_u64(1);
    assert!(matches!(ensemble.fit(10, 2, &mut random_state), Err(FitError::SeriesTooShort)));
    assert!(matches!(ensemble.fit(10, 0, &mut random_state), Err(FitError::SeriesTooShort)));
    assert!(ensemble.fit(10, 3, &mut random_state).is_ok());
}

#[test]
fn the_bootstrap_ensemble_draws_as_many_as_there_are() {
    let mut ensemble = ERCIForest::new(&settings(4, None));
    let mut random_state = Generator::seed_from_u64(1);
    let seedlings = ensemble.fit(300, 64, &mut random_state).unwrap();
    assert_eq!(ensemble.get_max_samples(), 300);
    assert_eq!(seedlings.len(), 4);
    let mut drawn = std::collections::BTreeSet::new();
    for seedling in &seedlings {
        assert_eq!(seedling.indices.len(), 300);
        assert!(seedling.indices.iter().all(|i| *i < 300));
        let distinct: std::collections::BTreeSet<usize> = seedling.indices.iter().copied().collect();
        assert!(distinct.len() < 300);
        // Nine halvings bring 300 samples down to one.
        assert_eq!(seedling.tree.get_max_depth(), 10);
        assert_eq!(seedling.tree.get_intervals().len(), 6);
        assert_eq!(seedling.tree.get_attributes().len(), 3);
        assert!(!seedling.tree.is_fitted());
        drawn.insert(seedling.indices.clone());
    }
    assert_eq!(drawn.len(), 4, "every tree draws its own positions");
}

#[test]
fn the_sub_sampling_ensemble_draws_at_most_256_distinct() {
    assert_eq!(SUBSAMPLE_SIZE, 256);
    let mut ensemble = CIsoForest::new(&settings(3, Some(5)));
    let mut random_state = Generator::seed_from_u64(1);
    let seedlings = ensemble.fit(300, 64, &mut random_state).unwrap();
    assert_eq!(ensemble.get_max_samples(), 256);
    for seedling in &seedlings {
        let distinct: std::collections::BTreeSet<usize> = seedling.indices.iter().copied().collect();
        assert_eq!(seedling.indices.len(), 256);
        assert_eq!(distinct.len(), 256);
        assert_eq!(seedling.tree.get_max_depth(), 5);
    }
    let seedlings = ensemble.fit(100, 64, &mut random_state).unwrap();
    assert_eq!(ensemble.get_max_samples(), 100);
    for seedling in &seedlings {
        let mut indices = seedling.indices.clone();
        indices.sort();
        assert_eq!(indices, (0..100).collect::<Vec<usize>>());
    }
}

#[test]
fn settings_are_handed_out() {
    let config = settings(9, Some(4));
    let mut ensemble = CIsoForest::new(&config);
    let (shared, own) = ensemble.get_forest_config();
    assert_eq!(shared.n_trees, 9);
    assert_eq!(shared.max_depth, Some(4));
    assert_eq!(own.n_attributes, 3);
    ensemble.set_max_samples(77);
    assert_eq!(ensemble.get_max_samples(), 77);
    assert_eq!(ensemble.get_forest().get_max_samples(), 77);
}

#[test]
fn fitting_twice_with_one_seed_gives_one_forest() {
    let data = series(40, 30, 5);
    let mut cache = FeatureCache::new(1 << 30);
    let first = fitted(&data, 6, 99, &mut cache);
    let second = fitted(&data, 6, 99, &mut FeatureCache::new(0));
    assert_eq!(first.get_trees().len(), 6);
    for (a, b) in first.get_trees().iter().zip(second.get_trees().iter()) {
        assert_eq!(a.get_intervals(), b.get_intervals());
        assert_eq!(a.get_attributes(), b.get_attributes());
        assert_eq!(a.node_count(), b.node_count());
        for at in 0..a.node_count() {
            let (x, y) = (a.get_node_at(at), b.get_node_at(at));
            assert_eq!(x.get_depth(), y.get_depth());
            assert_eq!(x.get_n_samples(), y.get_n_samples());
        }
    }
    let all: Vec<&Series> = data.iter().collect();
    for (a, b) in first.get_trees().iter().zip(second.get_trees().iter()) {
        let samples = transform(a, &all, &mut cache);
        for sample in &samples {
            assert_eq!(a.get_splits(sample), b.get_splits(sample));
            assert_eq!(a.predict_leaf(sample).get_id(), b.predict_leaf(sample).get_id());
        }
    }
    let other = fitted(&data, 6, 100, &mut cache);
    assert!(first
        .get_trees()
        .iter()
        .zip(other.get_trees().iter())
        .any(|(a, b)| a.get_intervals() != b.get_intervals() || a.node_count() != b.node_count()));
}

#[test]
fn transforming_twice_gives_the_same_features() {
    let data = series(12, 30, 5);
    let mut cache = FeatureCache::new(1 << 30);
    let ensemble = fitted(&data, 2, 3, &mut cache);
    let all: Vec<&Series> = data.iter().collect();
    let tree = &ensemble.get_trees()[0];
    let first = transform(tree, &all, &mut cache);
    let second = transform(tree, &all, &mut cache);
    let uncached = transform(tree, &all, &mut FeatureCache::new(0));
    for ((a, b), c) in first.iter().zip(second.iter()).zip(uncached.iter()) {
        assert_eq!(a.features, b.features);
        assert_eq!(a.features, c.features);
        assert_eq!(a.features.len(), tree.get_intervals().len() * tree.get_attributes().len());
    }
}

#[test]
fn co_occurrence_counts() {
    let data = series(25, 30, 11);
    let mut cache = FeatureCache::new(1 << 30);
    let ensemble = fitted(&data, 8, 21, &mut cache);
    let forest = ensemble.get_forest();
    let ds = per_tree(forest, &data, &mut cache);
    let alone = forest.pairwise_breiman(&ds, None, 25, 25);
    let with_itself = forest.pairwise_breiman(&ds, Some(&ds), 25, 25);
    assert_eq!(alone, with_itself);
    assert_eq!(alone.len(), 25);
    let mut apart = 0;
    for i in 0..25 {
        assert_eq!(alone[i].len(), 25);
        assert_eq!(alone[i][i], 0);
        for j in 0..25 {
            assert!(alone[i][j] <= 8);
            assert_eq!(alone[i][j], alone[j][i]);
            let expected = (0..8)
                .filter(|t| {
                    let tree = &forest.get_trees()[*t];
                    tree.predict_leaf(&ds[*t][i]).get_id() != tree.predict_leaf(&ds[*t][j]).get_id()
                })
                .count();
            assert_eq!(alone[i][j], expected);
            apart += alone[i][j];
        }
    }
    assert!(apart > 0);
    // An outlying series and an ordinary one part ways in every tree that
    // grew from both kinds.
    assert!(alone[0][1] >= alone[1][2]);
}

#[test]
fn co_occurrence_against_another_data_set() {
    let data = series(20, 30, 11);
    let probes = series(5, 30, 12);
    let mut cache = FeatureCache::new(1 << 30);
    let ensemble = fitted(&data, 4, 21, &mut cache);
    let forest = ensemble.get_forest();
    let ds_a = per_tree(forest, &data, &mut cache);
    let ds_b = per_tree(forest, &probes, &mut cache);
    let counts = forest.pairwise_breiman(&ds_a, Some(&ds_b), 20, 5);
    assert_eq!(counts.len(), 20);
    assert!(counts.iter().all(|row| row.len() == 5 && row.iter().all(|c| *c <= 4)));
    let marks = breiman_tree(&forest.get_trees()[0], &ds_a[0], Some(&ds_b[0]));
    let leaves_a = leaves_of(&forest.get_trees()[0], &ds_a[0]);
    let leaves_b = leaves_of(&forest.get_trees()[0], &ds_b[0]);
    for i in 0..20 {
        for j in 0..5 {
            assert_eq!(marks[i][j], leaves_a[i] != leaves_b[j]);
        }
    }
}

#[test]
fn an_ensemble_without_trees_counts_nothing() {
    let forest = Forest::new(&settings(0, None));
    let nothing: Vec<Vec<Sample>> = Vec::new();
    assert_eq!(forest.pairwise_breiman(&nothing, None, 2, 2), vec![vec![0, 0], vec![0, 0]]);
    assert_eq!(forest.predict_(&nothing, 3), vec![0, 0, 0]);
    assert!(forest.pairwise_zhu(&nothing, None, 2, 2).is_empty());
    assert!(forest.pairwise_ratiorf(&nothing, None, 2, 2).is_empty());
}

#[test]
fn ancestor_depth_shares() {
    let data = series(25, 30, 11);
    let mut cache = FeatureCache::new(1 << 30);
    let ensemble = fitted(&data, 5, 21, &mut cache);
    let forest = ensemble.get_forest();
    let ds = per_tree(forest, &data, &mut cache);
    let shares = forest.pairwise_zhu(&ds, None, 25, 25);
    assert_eq!(shares.len(), 5);
    for (t, matrix) in shares.iter().enumerate() {
        let tree = &forest.get_trees()[t];
        assert_eq!(matrix, &zhu_tree(tree, &ds[t], Some(&ds[t])));
        for i in 0..25 {
            let leaf_i = tree.predict_leaf(&ds[t][i]);
            let ancestors = tree.compute_ancestor(leaf_i.get_id());
            assert_eq!(matrix[i][i].num, matrix[i][i].den);
            for j in 0..25 {
                let share = matrix[i][j];
                assert!(share.num <= share.den && share.den >= 1);
                let leaf_j = tree.predict_leaf(&ds[t][j]);
                let deeper = leaf_i.get_depth().max(leaf_j.get_depth());
                if deeper > 0 {
                    assert_eq!(share.den, deeper);
                    assert_eq!(share.num, tree.get_node_at(ancestors[leaf_j.get_id()]).get_depth());
                }
                if leaf_i.get_id() != leaf_j.get_id() {
                    assert!(share.num < share.den);
                }
                assert_eq!(share, matrix[j][i]);
            }
        }
    }
}

#[test]
fn a_single_leaf_shares_everything() {
    let data = series(6, 30, 11);
    let mut cache = FeatureCache::new(1 << 30);
    let mut ensemble = ERCIForest::new(&settings(1, Some(0)));
    let mut random_state = Generator::seed_from_u64(4);
    let seedlings = ensemble.fit(6, 30, &mut random_state).unwrap();
    let (seedlings, builders) = grow_all(seedlings, &data, &mut cache);
    ensemble.install(seedlings, builders);
    assert_eq!(ensemble.get_trees()[0].node_count(), 1);
    let ds = per_tree(ensemble.get_forest(), &data, &mut cache);
    let shares = ensemble.get_forest().pairwise_zhu(&ds, None, 6, 6);
    assert!(shares[0].iter().all(|row| row.iter().all(|s| *s == Ratio { num: 1, den: 1 })));
    let shares = ensemble.get_forest().pairwise_ratiorf(&ds, None, 6, 6);
    assert!(shares[0].iter().all(|row| row.iter().all(|s| *s == Ratio { num: 1, den: 1 })));
}

#[test]
fn rule_agreement_of_two_ways() {
    let a = Sample { target: 0, features: vec![5, 50] };
    let b = Sample { target: 0, features: vec![7, 10] };
    let r1 = StandardSplit { feature: 0, threshold: 6 }; // a below, b not
    let r2 = StandardSplit { feature: 0, threshold: 9 }; // both below
    let r3 = StandardSplit { feature: 1, threshold: 5 }; // both at or above
    let r4 = StandardSplit { feature: 1, threshold: 20 }; // b below, a not
    assert_eq!(rule_agreement(&vec![r1, r2], &vec![r1, r3], &a, &b), Ratio { num: 2, den: 3 });
    assert_eq!(rule_agreement(&vec![r1, r4], &vec![r4, r1], &a, &b), Ratio { num: 0, den: 2 });
    assert_eq!(rule_agreement(&vec![r2, r2], &vec![r2], &a, &b), Ratio { num: 1, den: 1 });
    assert_eq!(rule_agreement(&vec![], &vec![], &a, &b), Ratio { num: 1, den: 1 });
    assert_eq!(rule_agreement(&vec![r1, r2, r3, r4], &vec![], &a, &b), Ratio { num: 2, den: 4 });
    assert_eq!(rule_agreement(&vec![r1, r2, r3, r4], &vec![], &a, &a), Ratio { num: 4, den: 4 });
}

#[test]
fn rule_agreement_shares() {
    let data = series(25, 30, 11);
    let mut cache = FeatureCache::new(1 << 30);
    let ensemble = fitted(&data, 5, 21, &mut cache);
    let forest = ensemble.get_forest();
    let ds = per_tree(forest, &data, &mut cache);
    let shares = forest.pairwise_ratiorf(&ds, None, 25, 25);
    assert_eq!(shares.len(), 5);
    let mut disagreed = 0;
    for (t, matrix) in shares.iter().enumerate() {
        let tree = &forest.get_trees()[t];
        assert_eq!(matrix, &ratiorf_tree(tree, &ds[t], None));
        for i in 0..25 {
            assert_eq!(matrix[i][i].num, matrix[i][i].den);
            for j in 0..25 {
                let share = matrix[i][j];
                assert!(share.num <= share.den && share.den >= 1);
                let mut union = tree.get_splits(&ds[t][i]);
                union.extend(tree.get_splits(&ds[t][j]));
                union.sort();
                union.dedup();
                if !union.is_empty() {
                    assert_eq!(share.den, union.len());
                    let agree =
                        union.iter().filter(|r| r.split(&ds[t][i]) == r.split(&ds[t][j])).count();
                    assert_eq!(share.num, agree);
                }
                if share.num < share.den {
                    disagreed += 1;
                }
            }
        }
    }
    assert!(disagreed > 0);
}

#[test]
fn leaf_profiles_by_sample_and_tree() {
    let data = series(30, 30, 11);
    let mut cache = FeatureCache::new(1 << 30);
    let ensemble = fitted(&data, 7, 21, &mut cache);
    let forest = ensemble.get_forest();
    let ds = per_tree(forest, &data, &mut cache);
    let profiles = forest.depth_samples(&ds, 30);
    assert_eq!(profiles.len(), 30);
    let mut outlier_depth = 0;
    let mut inlier_depth = 0;
    for i in 0..30 {
        assert_eq!(profiles[i].len(), 7);
        for t in 0..7 {
            let leaf = forest.get_trees()[t].predict_leaf(&ds[t][i]);
            assert_eq!(profiles[i][t], (leaf.get_depth(), leaf.get_n_samples()));
            if data[i].target == 1 {
                outlier_depth += leaf.get_depth();
            } else {
                inlier_depth += leaf.get_depth();
            }
        }
    }
    // Three outlying series against 27 ordinary ones: theirs are the short ways.
    assert!(outlier_depth * 27 < inlier_depth * 3);
}

#[test]
fn majority_vote_of_the_trees() {
    let data = series(30, 30, 11);
    let mut cache = FeatureCache::new(1 << 30);
    let ensemble = fitted(&data, 9, 21, &mut cache);
    let forest = ensemble.get_forest();
    let ds = per_tree(forest, &data, &mut cache);
    let classes = forest.predict_(&ds, 30);
    assert_eq!(classes.len(), 30);
    for i in 0..30 {
        let votes: Vec<isize> =
            (0..9).map(|t| forest.get_trees()[t].predict_leaf(&ds[t][i]).get_class()).collect();
        let count = |class: isize| votes.iter().filter(|v| **v == class).count();
        assert!(count(classes[i]) >= count(0) && count(classes[i]) >= count(1));
        assert!(count(classes[i]) > 0);
    }
    assert_eq!(classes[1], 0);
}

#[test]
fn sampling_policies() {
    let policy = SamplingPolicy { max_samples: 5, with_replacement: false };
    let mut forest = Forest::new(&settings(2, Some(3)));
    let mut random_state = Generator::seed_from_u64(1);
    let seedlings = forest.fit_(9, 12, policy, &mut random_state).unwrap();
    assert_eq!(forest.get_max_samples(), 5);
    assert_eq!(seedlings.len(), 2);
    assert!(seedlings.iter().all(|s| s.indices.len() == 5 && s.tree.get_intervals().len() == 3));
}

#[test]
fn a_fitted_bootstrap_ensemble_holds_its_trees() {
    let data = series(70, 30, 5);
    let ensemble = fitted(&data, 6, 99, &mut FeatureCache::new(1 << 30));
    assert_eq!(ensemble.get_max_samples(), 70);
    assert_eq!(ensemble.get_trees().len(), 6);
    for tree in ensemble.get_trees() {
        assert!(tree.is_fitted());
        assert_eq!(tree.get_root().get_n_samples(), 70);
        assert_eq!(tree.get_root().get_depth(), 0);
    }
}

#[test]
fn a_fitted_sub_sampling_ensemble_holds_its_trees() {
    let data = series(300, 30, 5);
    let mut cache = FeatureCache::new(1 << 30);
    let mut ensemble = CIsoForest::new(&settings(3, None));
    let mut random_state = Generator::seed_from_u64(17);
    let seedlings = ensemble.fit(data.len(), 30, &mut random_state).unwrap();
    let (seedlings, builders) = grow_all(seedlings, &data, &mut cache);
    ensemble.install(seedlings, builders);
    assert_eq!(ensemble.get_max_samples(), 256);
    assert_eq!(ensemble.get_trees().len(), 3);
    for tree in ensemble.get_trees() {
        assert_eq!(tree.get_root().get_n_samples(), 256);
    }
}

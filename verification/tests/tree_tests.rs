use ciforest::tree::ancestor::compute_ancestor;
use ciforest::tree::ancestor::compute_ancestor_rec;
use ciforest::tree::builder::BuildAction;
use ciforest::tree::builder::TreeBuilder;
use ciforest::tree::ciso_tree::default_depth;
use ciforest::tree::ciso_tree::least_interval;
use ciforest::tree::ciso_tree::CIsoTree;
use ciforest::tree::ciso_tree::CIsoTreeConfig;
use ciforest::tree::node::Node;
use ciforest::tree::tree::get_splits;
use ciforest::tree::tree::predict_leaf;
use ciforest::tree::tree::StandardSplit;
use ciforest::utils::structures::Sample;
use rand::SeedableRng;

fn sample(target: isize, features: &[i64]) -> Sample {
    Sample { target, features: features.to_vec() }
}

/// The tree over the keys 0, 10, 500, 510 that splits at the midpoints:
///
/// ```text
///            0: key < 255
///     1: key < 505     2: key < 5
///    3: 510  4: 500   5: 10  6: 0
/// ```
fn four_leaf_arena() -> Vec<Node<StandardSplit>> {
    let samples = vec![sample(0, &[0]), sample(0, &[10]), sample(1, &[500]), sample(1, &[510])];
    let mut random_state = rand_chacha::ChaCha8Rng::seed_from_u64(1);
    let mut builder = TreeBuilder::new(samples, usize::MAX, 2, 1);
    loop {
        match builder.advance(&mut random_state) {
            BuildAction::Done => break,
            BuildAction::Draw { low, high, .. } => builder.supply(Some(low + (high - low + 1) / 2)),
        }
    }
    builder.finish()
}

#[test]
fn a_rule_sends_lower_keys_to_branch_one() {
    let rule = StandardSplit { feature: 1, threshold: 10 };
    assert_eq!(rule.split(&sample(0, &[99, 9])), 1);
    assert_eq!(rule.split(&sample(0, &[0, 10])), 0);
    assert_eq!(rule.split(&sample(0, &[0, 11])), 0);
}

#[test]
fn samples_fall_into_their_leaves() {
    let nodes = four_leaf_arena();
    for (key, leaf) in [(510, 3), (505, 3), (500, 4), (255, 4), (254, 5), (5, 5), (4, 6), (-100, 6)] {
        assert_eq!(predict_leaf(&nodes, &sample(0, &[key])).get_id(), leaf, "key {}", key);
    }
}

#[test]
fn the_way_to_a_leaf_lists_its_rules() {
    let nodes = four_leaf_arena();
    assert_eq!(
        get_splits(&nodes, &sample(0, &[7])),
        vec![StandardSplit { feature: 0, threshold: 255 }, StandardSplit { feature: 0, threshold: 5 }]
    );
    assert_eq!(
        get_splits(&nodes, &sample(0, &[700])),
        vec![StandardSplit { feature: 0, threshold: 255 }, StandardSplit { feature: 0, threshold: 505 }]
    );
}

#[test]
fn a_single_leaf_has_no_rules() {
    let mut random_state = rand_chacha::ChaCha8Rng::seed_from_u64(1);
    let mut builder = TreeBuilder::new(vec![sample(4, &[1])], usize::MAX, 2, 1);
    assert_eq!(builder.advance(&mut random_state), BuildAction::Done);
    let nodes = builder.finish();
    assert_eq!(get_splits(&nodes, &sample(0, &[9])), Vec::<StandardSplit>::new());
    assert_eq!(predict_leaf(&nodes, &sample(0, &[9])).get_class(), 4);
}

#[test]
fn a_search_below_a_node_leaves_the_rest_alone() {
    let nodes = four_leaf_arena();
    // Leaf 5 is not below node 1: nothing is found and nothing changes.
    let mut ancestors = vec![9; 7];
    assert!(!compute_ancestor_rec(&nodes, 1, 5, None, &mut ancestors));
    assert_eq!(ancestors, vec![9; 7]);
    // Leaf 5 is below node 2: node 2 and what lies below it are settled.
    assert!(compute_ancestor_rec(&nodes, 2, 5, None, &mut ancestors));
    assert_eq!(ancestors, vec![9, 9, 2, 9, 9, 5, 2]);
    // With the root in hand, node 1 and what lies below it are given the root.
    assert!(!compute_ancestor_rec(&nodes, 1, 5, Some(0), &mut ancestors));
    assert_eq!(ancestors, vec![9, 0, 2, 0, 0, 5, 2]);
}

#[test]
fn lowest_common_ancestors_of_a_leaf() {
    let nodes = four_leaf_arena();
    assert_eq!(compute_ancestor(&nodes, 3), vec![0, 1, 0, 3, 1, 0, 0]);
    assert_eq!(compute_ancestor(&nodes, 4), vec![0, 1, 0, 1, 4, 0, 0]);
    assert_eq!(compute_ancestor(&nodes, 5), vec![0, 0, 2, 0, 0, 5, 2]);
    assert_eq!(compute_ancestor(&nodes, 6), vec![0, 0, 2, 0, 0, 2, 6]);
}

#[test]
fn node_getters() {
    let nodes = four_leaf_arena();
    assert_eq!(nodes[0].get_id(), 0);
    assert_eq!(nodes[0].get_depth(), 0);
    assert_eq!(nodes[0].get_n_samples(), 4);
    assert_eq!(nodes[4].get_class(), 1);
    assert_eq!(nodes[4].get_depth(), 2);
    assert_eq!(nodes[4].get_n_samples(), 1);
}

#[test]
fn least_interval_is_a_tenth_and_at_least_three() {
    assert_eq!(least_interval(0), 3);
    assert_eq!(least_interval(30), 3);
    assert_eq!(least_interval(31), 4);
    assert_eq!(least_interval(100), 10);
    assert_eq!(least_interval(101), 11);
}

#[test]
fn default_depth_is_one_more_than_the_halvings() {
    assert_eq!(default_depth(0), 2);
    assert_eq!(default_depth(1), 2);
    assert_eq!(default_depth(2), 2);
    assert_eq!(default_depth(3), 3);
    assert_eq!(default_depth(4), 3);
    assert_eq!(default_depth(5), 4);
    assert_eq!(default_depth(256), 9);
    assert_eq!(default_depth(257), 10);
}

fn config(n_features: usize, n_intervals: usize, n_attributes: usize) -> CIsoTreeConfig {
    CIsoTreeConfig {
        max_depth: 8,
        min_samples_split: 2,
        min_samples_leaf: 1,
        n_features,
        n_intervals,
        n_attributes,
    }
}

#[test]
fn a_new_tree_draws_its_intervals_and_descriptors() {
    let mut seen_starts = std::collections::BTreeSet::new();
    let mut seen_orders = std::collections::BTreeSet::new();
    for seed in 0..20u64 {
        let mut random_state = rand_chacha::ChaCha8Rng::seed_from_u64(seed);
        let tree = CIsoTree::new(config(50, 6, 8), &mut random_state);
        assert!(!tree.is_fitted());
        assert_eq!(tree.get_max_depth(), 8);
        assert_eq!(tree.get_min_samples_split(), 2);
        assert_eq!(tree.get_min_samples_leaf(), 1);
        assert_eq!(tree.get_intervals().len(), 6);
        for (start, end) in tree.get_intervals() {
            assert!(start + 5 <= *end && *end <= 50);
            seen_starts.insert(*start);
        }
        let attributes = tree.get_attributes();
        assert_eq!(attributes.len(), 8);
        let distinct: std::collections::BTreeSet<usize> = attributes.iter().copied().collect();
        assert_eq!(distinct.len(), 8);
        assert!(attributes.iter().all(|a| *a < 23));
        seen_orders.insert(attributes.clone());
    }
    assert!(seen_starts.len() > 5);
    assert!(seen_orders.len() > 5);
}

#[test]
fn a_tree_takes_no_more_descriptors_than_there_are() {
    let mut random_state = rand_chacha::ChaCha8Rng::seed_from_u64(9);
    let tree = CIsoTree::new(config(10, 2, 40), &mut random_state);
    let mut attributes = tree.get_attributes().clone();
    attributes.sort();
    assert_eq!(attributes, (0..23).collect::<Vec<usize>>());
}

#[test]
fn a_series_of_the_least_length_has_one_interval() {
    let mut random_state = rand_chacha::ChaCha8Rng::seed_from_u64(9);
    let tree = CIsoTree::new(config(3, 4, 1), &mut random_state);
    assert_eq!(tree.get_intervals(), &vec![(0, 3), (0, 3), (0, 3), (0, 3)]);
}

#[test]
fn a_fitted_tree_answers() {
    let mut random_state = rand_chacha::ChaCha8Rng::seed_from_u64(2);
    let mut tree = CIsoTree::new(config(10, 1, 1), &mut random_state);
    let samples = vec![sample(0, &[0]), sample(0, &[10]), sample(1, &[500]), sample(1, &[510])];
    let mut builder = tree.start_fit(samples);
    loop {
        match builder.advance(&mut random_state) {
            BuildAction::Done => break,
            BuildAction::Draw { low, high, .. } => builder.supply(Some(low + (high - low + 1) / 2)),
        }
    }
    tree.fit(builder);
    assert!(tree.is_fitted());
    assert_eq!(tree.node_count(), 7);
    assert_eq!(tree.get_width(), 1);
    assert_eq!(tree.get_root().get_n_samples(), 4);
    assert_eq!(tree.get_node_at(2).get_depth(), 1);
    assert_eq!(tree.predict_leaf(&sample(0, &[600])).get_id(), 3);
    assert_eq!(tree.path_profile(&sample(0, &[600])), (2, 1));
    assert_eq!(tree.predict(&vec![sample(0, &[600]), sample(0, &[-1]), sample(0, &[300])]), vec![1, 0, 1]);
    assert_eq!(tree.get_splits(&sample(0, &[3])).len(), 2);
    assert_eq!(tree.compute_ancestor(5), vec![0, 0, 2, 0, 0, 5, 2]);
}

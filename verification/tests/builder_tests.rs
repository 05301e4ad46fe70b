use ciforest::tree::builder::BuildAction;
use ciforest::tree::builder::TreeBuilder;
use ciforest::tree::node::Impurity;
use ciforest::tree::node::Node;
use ciforest::tree::tree::StandardSplit;
use ciforest::utils::structures::Sample;
use rand::Rng;
use rand::SeedableRng;

fn sample(target: isize, features: &[i64]) -> Sample {
    Sample { target, features: features.to_vec() }
}

/// An order-preserving key for a finite number.
fn key_of(value: f64) -> i64 {
    let bits = (value + 0.0).to_bits() as i64;
    if bits < 0 {
        bits ^ i64::MAX
    } else {
        bits
    }
}

fn value_of(key: i64) -> f64 {
    let bits = if key < 0 { key ^ i64::MAX } else { key };
    f64::from_bits(bits as u64)
}

/// Drives a builder to the end, answering every request with the key halfway
/// between the bounds.
fn build_with_midpoints(
    samples: Vec<Sample>,
    max_depth: usize,
    min_samples_split: usize,
    min_samples_leaf: usize,
    seed: u64,
) -> Vec<Node<StandardSplit>> {
    let mut random_state = rand_chacha::ChaCha8Rng::seed_from_u64(seed);
    let mut builder = TreeBuilder::new(samples, max_depth, min_samples_split, min_samples_leaf);
    loop {
        match builder.advance(&mut random_state) {
            BuildAction::Done => break,
            BuildAction::Draw { low, high, .. } => {
                assert!(low < high);
                assert!(builder.is_awaiting());
                let cut = low + (high - low) / 2;
                // Between neighbouring keys there is no threshold.
                builder.supply(if cut > low { Some(cut) } else { None });
                assert!(!builder.is_awaiting());
            }
        }
    }
    assert!(builder.is_finished());
    builder.finish()
}

/// A threshold drawn uniformly between the values that two keys stand for,
/// strictly inside; none where the values are as good as equal.
fn draw_inside(low: i64, high: i64, random_state: &mut rand_chacha::ChaCha8Rng) -> Option<i64> {
    let (least, greatest) = (value_of(low), value_of(high));
    if greatest - least <= f64::EPSILON || high - low < 2 {
        return None;
    }
    loop {
        let cut = key_of(random_state.gen_range(least..greatest));
        if low < cut && cut < high {
            return Some(cut);
        }
    }
}

/// Drives a builder to the end with thresholds drawn uniformly between the
/// values that the bounds stand for.
fn build_with_draws(
    samples: Vec<Sample>,
    max_depth: usize,
    min_samples_split: usize,
    min_samples_leaf: usize,
    seed: u64,
) -> Vec<Node<StandardSplit>> {
    let mut random_state = rand_chacha::ChaCha8Rng::seed_from_u64(seed);
    let mut builder = TreeBuilder::new(samples, max_depth, min_samples_split, min_samples_leaf);
    loop {
        match builder.advance(&mut random_state) {
            BuildAction::Done => break,
            BuildAction::Draw { low, high, .. } => {
                builder.supply(draw_inside(low, high, &mut random_state));
            }
        }
    }
    builder.finish()
}

fn leaf_total(nodes: &[Node<StandardSplit>]) -> usize {
    nodes
        .iter()
        .map(|node| match node {
            Node::External { n_samples, .. } => *n_samples,
            Node::Internal { .. } => 0,
        })
        .sum()
}

fn check_shape(nodes: &[Node<StandardSplit>], n_samples: usize, min_samples_leaf: usize) {
    assert!(!nodes.is_empty());
    assert_eq!(nodes[0].get_n_samples(), n_samples);
    assert_eq!(nodes[0].get_depth(), 0);
    assert_eq!(leaf_total(nodes), n_samples);
    let mut listed = vec![0usize; nodes.len()];
    for (at, node) in nodes.iter().enumerate() {
        assert_eq!(node.get_id(), at);
        if let Node::Internal { children, n_children, n_samples, depth, impurity, .. } = node {
            assert!(*n_samples >= 2);
            assert_eq!(*n_children, 2);
            assert_eq!(children.len(), *n_children);
            assert_eq!(*impurity, Impurity::Unknown);
            let mut held = 0;
            for child in children {
                assert!(*child > at && *child < nodes.len());
                assert_eq!(nodes[*child].get_depth(), depth + 1);
                assert!(nodes[*child].get_n_samples() >= min_samples_leaf);
                assert!(nodes[*child].get_n_samples() >= 1);
                held += nodes[*child].get_n_samples();
                listed[*child] += 1;
            }
            assert_eq!(held, *n_samples);
        }
    }
    assert_eq!(listed[0], 0);
    for count in &listed[1..] {
        assert_eq!(*count, 1);
    }
}

#[test]
fn two_clusters_split_at_the_root() {
    let samples = vec![sample(0, &[0]), sample(0, &[10]), sample(1, &[500]), sample(1, &[510])];
    let nodes = build_with_midpoints(samples, usize::MAX, 2, 1, 7);
    assert_eq!(nodes.len(), 7);
    match &nodes[0] {
        Node::Internal { id, split_params, children, n_children, depth, n_samples, .. } => {
            assert_eq!(*id, 0);
            assert_eq!(*split_params, StandardSplit { feature: 0, threshold: 255 });
            assert_eq!(children, &vec![1, 2]);
            assert_eq!(*n_children, 2);
            assert_eq!(*depth, 0);
            assert_eq!(*n_samples, 4);
        }
        Node::External { .. } => panic!("the root must be split"),
    }
    // Branch 0 holds the keys at or above the threshold.
    match &nodes[1] {
        Node::Internal { split_params, children, n_samples, depth, .. } => {
            assert_eq!(*split_params, StandardSplit { feature: 0, threshold: 505 });
            assert_eq!(children, &vec![3, 4]);
            assert_eq!(*n_samples, 2);
            assert_eq!(*depth, 1);
        }
        Node::External { .. } => panic!("the upper cluster must be split"),
    }
    match &nodes[2] {
        Node::Internal { split_params, children, .. } => {
            assert_eq!(*split_params, StandardSplit { feature: 0, threshold: 5 });
            assert_eq!(children, &vec![5, 6]);
        }
        Node::External { .. } => panic!("the lower cluster must be split"),
    }
    for (at, class) in [(3usize, 1isize), (4, 1), (5, 0), (6, 0)] {
        match &nodes[at] {
            Node::External { id, class: found, depth, n_samples } => {
                assert_eq!(*id, at);
                assert_eq!(*found, class);
                assert_eq!(*depth, 2);
                assert_eq!(*n_samples, 1);
            }
            Node::Internal { .. } => panic!("node {} must be a leaf", at),
        }
    }
    check_shape(&nodes, 4, 1);
}

#[test]
fn depth_limit_zero_gives_a_single_leaf() {
    let samples = vec![sample(3, &[0]), sample(3, &[10]), sample(1, &[500])];
    let nodes = build_with_midpoints(samples, 0, 2, 1, 1);
    assert_eq!(nodes.len(), 1);
    match &nodes[0] {
        Node::External { id, class, depth, n_samples } => {
            assert_eq!((*id, *class, *depth, *n_samples), (0, 3, 0, 3));
        }
        Node::Internal { .. } => panic!("a tree of depth 0 is a leaf"),
    }
}

#[test]
fn depth_limit_one_gives_a_root_and_two_leaves() {
    let samples = vec![sample(0, &[0]), sample(0, &[10]), sample(1, &[500]), sample(1, &[510])];
    let nodes = build_with_midpoints(samples, 1, 2, 1, 1);
    assert_eq!(nodes.len(), 3);
    assert!(matches!(nodes[0], Node::Internal { .. }));
    assert!(matches!(nodes[1], Node::External { depth: 1, n_samples: 2, class: 1, .. }));
    assert!(matches!(nodes[2], Node::External { depth: 1, n_samples: 2, class: 0, .. }));
}

#[test]
fn small_nodes_are_not_split() {
    let samples = vec![sample(0, &[0]), sample(0, &[10]), sample(1, &[500]), sample(1, &[510])];
    // Four samples are fewer than the five that a split asks for.
    let nodes = build_with_midpoints(samples, usize::MAX, 5, 1, 1);
    assert_eq!(nodes.len(), 1);
    let samples = vec![sample(0, &[0]), sample(0, &[10]), sample(1, &[500]), sample(1, &[510])];
    // Four samples are fewer than twice the three that a leaf asks for.
    let nodes = build_with_midpoints(samples, usize::MAX, 2, 3, 1);
    assert_eq!(nodes.len(), 1);
    let samples = vec![sample(0, &[0]), sample(0, &[10]), sample(1, &[500]), sample(1, &[510])];
    // Two leaves of two samples each are allowed, smaller ones are not.
    let nodes = build_with_midpoints(samples, usize::MAX, 2, 2, 1);
    assert_eq!(nodes.len(), 3);
    check_shape(&nodes, 4, 2);
}

#[test]
fn constant_features_give_a_leaf() {
    let samples = vec![sample(2, &[7, 7]), sample(2, &[7, 7]), sample(5, &[7, 7])];
    let mut random_state = rand_chacha::ChaCha8Rng::seed_from_u64(3);
    let mut builder = TreeBuilder::new(samples, usize::MAX, 2, 1);
    // No feature varies, so no threshold is ever asked for.
    assert_eq!(builder.advance(&mut random_state), BuildAction::Done);
    let nodes = builder.finish();
    assert_eq!(nodes.len(), 1);
    assert!(matches!(nodes[0], Node::External { class: 2, n_samples: 3, depth: 0, id: 0 }));
}

#[test]
fn a_declined_feature_is_dropped() {
    let samples = vec![sample(0, &[1, 5]), sample(1, &[2, 5]), sample(1, &[3, 5])];
    let mut random_state = rand_chacha::ChaCha8Rng::seed_from_u64(11);
    let mut builder = TreeBuilder::new(samples, usize::MAX, 2, 1);
    let action = builder.advance(&mut random_state);
    assert_eq!(action, BuildAction::Draw { feature: 0, low: 1, high: 3 });
    builder.supply(None);
    // Feature 0 is gone and feature 1 does not vary: the root is a leaf.
    assert_eq!(builder.advance(&mut random_state), BuildAction::Done);
    let nodes = builder.finish();
    assert_eq!(nodes.len(), 1);
    assert!(matches!(nodes[0], Node::External { class: 1, n_samples: 3, .. }));
}

#[test]
fn a_split_that_starves_a_side_is_rejected() {
    let samples = vec![sample(0, &[1]), sample(0, &[2]), sample(0, &[3]), sample(0, &[100])];
    let mut random_state = rand_chacha::ChaCha8Rng::seed_from_u64(5);
    let mut builder = TreeBuilder::new(samples, usize::MAX, 2, 2);
    assert_eq!(builder.advance(&mut random_state), BuildAction::Draw { feature: 0, low: 1, high: 100 });
    // Only one sample is at or above 50: the split is rejected.
    builder.supply(Some(50));
    assert_eq!(builder.advance(&mut random_state), BuildAction::Done);
    let nodes = builder.finish();
    assert_eq!(nodes.len(), 1);
    assert!(matches!(nodes[0], Node::External { n_samples: 4, .. }));
}

#[test]
fn neighbouring_keys_admit_no_threshold() {
    let samples = vec![sample(0, &[1]), sample(0, &[2])];
    let mut random_state = rand_chacha::ChaCha8Rng::seed_from_u64(5);
    let mut builder = TreeBuilder::new(samples, usize::MAX, 2, 1);
    assert_eq!(builder.advance(&mut random_state), BuildAction::Draw { feature: 0, low: 1, high: 2 });
    // No key lies strictly between 1 and 2.
    builder.supply(None);
    assert_eq!(builder.advance(&mut random_state), BuildAction::Done);
    assert_eq!(builder.finish().len(), 1);
}

#[test]
fn an_accepted_split_keeps_its_feature_for_the_children() {
    let samples = vec![sample(0, &[1]), sample(0, &[3]), sample(0, &[5]), sample(0, &[7])];
    let mut random_state = rand_chacha::ChaCha8Rng::seed_from_u64(5);
    let mut builder = TreeBuilder::new(samples, usize::MAX, 2, 1);
    assert_eq!(builder.advance(&mut random_state), BuildAction::Draw { feature: 0, low: 1, high: 7 });
    assert_eq!(builder.focus(), vec![1, 3, 5, 7]);
    builder.supply(Some(5));
    // The first child holds the keys 5 and 7, and is asked about next.
    assert_eq!(builder.advance(&mut random_state), BuildAction::Draw { feature: 0, low: 5, high: 7 });
    builder.supply(Some(6));
    assert_eq!(builder.advance(&mut random_state), BuildAction::Draw { feature: 0, low: 1, high: 3 });
    builder.supply(Some(2));
    assert_eq!(builder.advance(&mut random_state), BuildAction::Done);
    let nodes = builder.finish();
    assert_eq!(nodes.len(), 7);
    check_shape(&nodes, 4, 1);
}

#[test]
fn a_new_builder_has_the_root_open_and_the_samples_in_order() {
    let samples = vec![sample(0, &[1, 9]), sample(0, &[3, 9]), sample(0, &[5, 9])];
    let builder = TreeBuilder::new(samples, usize::MAX, 2, 1);
    assert_eq!(builder.get_order(), &vec![0, 1, 2]);
    assert!(!builder.is_awaiting());
    assert!(!builder.is_finished());
}

#[test]
fn children_counts_match_and_leaves_hold_every_sample() {
    for seed in 0..40u64 {
        let mut random_state = rand_chacha::ChaCha8Rng::seed_from_u64(1000 + seed);
        let n = 1 + (seed as usize % 37);
        let samples: Vec<Sample> = (0..n)
            .map(|i| {
                let features: Vec<i64> = (0..3).map(|_| random_state.gen_range(-20i64..20)).collect();
                sample((i % 3) as isize, &features)
            })
            .collect();
        let min_samples_leaf = 1 + (seed as usize % 3);
        let nodes = build_with_midpoints(samples, usize::MAX, 2, min_samples_leaf, seed);
        check_shape(&nodes, n, min_samples_leaf);
    }
}

#[test]
fn the_same_seed_gives_the_same_tree() {
    let make = || -> Vec<Sample> {
        (0..50)
            .map(|i| sample((i % 2) as isize, &[key_of((i * 37 % 11) as f64 * 0.5), key_of((i * 17 % 13) as f64)]))
            .collect()
    };
    let first = build_with_draws(make(), usize::MAX, 2, 1, 42);
    let second = build_with_draws(make(), usize::MAX, 2, 1, 42);
    assert_eq!(first.len(), second.len());
    for (a, b) in first.iter().zip(second.iter()) {
        match (a, b) {
            (
                Node::External { id, class, depth, n_samples },
                Node::External { id: id2, class: class2, depth: depth2, n_samples: n2 },
            ) => {
                assert_eq!((id, class, depth, n_samples), (id2, class2, depth2, n2));
            }
            (
                Node::Internal { id, split_params, children, depth, n_samples, .. },
                Node::Internal {
                    id: id2,
                    split_params: split2,
                    children: children2,
                    depth: depth2,
                    n_samples: n2,
                    ..
                },
            ) => {
                assert_eq!((id, split_params, children, depth, n_samples), (id2, split2, children2, depth2, n2));
            }
            _ => panic!("the two trees differ in shape"),
        }
    }
    let other = build_with_draws(make(), usize::MAX, 2, 1, 43);
    let same = other.len() == first.len()
        && other.iter().zip(first.iter()).all(|(a, b)| match (a, b) {
            (Node::Internal { split_params: s1, .. }, Node::Internal { split_params: s2, .. }) => s1 == s2,
            (Node::External { .. }, Node::External { .. }) => true,
            _ => false,
        });
    assert!(!same, "another seed should give another tree");
}

#[test]
fn outlying_pair_is_isolated_at_the_root_most_of_the_time() {
    let mut separated = 0;
    let mut outlier_depth = 0.0;
    let mut inlier_depth = 0.0;
    let runs = 300;
    for seed in 0..runs {
        let samples: Vec<Sample> =
            [0.0, 0.1, 5.0, 5.1].iter().map(|v| sample(0, &[key_of(*v)])).collect();
        let nodes = build_with_draws(samples, usize::MAX, 2, 1, seed);
        if let Node::Internal { split_params, .. } = &nodes[0] {
            let cut = value_of(split_params.threshold);
            if cut > 0.1 && cut <= 5.0 {
                separated += 1;
            }
        } else {
            panic!("the root must be split");
        }
        // Mean depth of the leaves of the far pair against that of the near pair.
        for (value, total) in [(5.0, &mut outlier_depth), (0.0, &mut inlier_depth)] {
            let probe = sample(0, &[key_of(value)]);
            let mut at = 0;
            while let Node::Internal { split_params, children, .. } = &nodes[at] {
                at = children[split_params.split(&probe)];
            }
            *total += nodes[at].get_depth() as f64;
        }
    }
    // The gap between the pairs takes 4.9 of the 5.1 that the keys span.
    assert!(separated * 10 >= runs * 9, "separated in {} of {} runs", separated, runs);
    assert!((outlier_depth - inlier_depth).abs() / (runs as f64) < 0.5);
}

#[test]
fn every_leaf_holds_the_samples_that_fall_into_it() {
    for seed in 0..30u64 {
        let mut random_state = rand_chacha::ChaCha8Rng::seed_from_u64(500 + seed);
        let n = 2 + (seed as usize % 40);
        let samples: Vec<Sample> = (0..n)
            .map(|i| {
                let features: Vec<i64> = (0..4).map(|_| random_state.gen_range(-9i64..9)).collect();
                sample((i % 4) as isize, &features)
            })
            .collect();
        let kept: Vec<Sample> = samples.iter().map(|s| sample(s.target, &s.features)).collect();
        let mut builder = TreeBuilder::new(samples, usize::MAX, 2, 1 + (seed as usize % 2));
        loop {
            match builder.advance(&mut random_state) {
                BuildAction::Done => break,
                BuildAction::Draw { low, high, .. } => {
                    let cut = if high - low >= 2 {
                        Some(random_state.gen_range(low + 1..high))
                    } else {
                        None
                    };
                    builder.supply(cut);
                }
            }
        }
        let order = builder.get_order().clone();
        let nodes = builder.finish();
        let mut sorted = order.clone();
        sorted.sort();
        assert_eq!(sorted, (0..n).collect::<Vec<usize>>());
        // The leaf of the sample at every position, position by position.
        let landed: Vec<usize> = order
            .iter()
            .map(|at| {
                let mut node = 0;
                while let Node::Internal { split_params, children, .. } = &nodes[node] {
                    node = children[split_params.split(&kept[*at])];
                }
                node
            })
            .collect();
        for (leaf, node) in nodes.iter().enumerate() {
            if let Node::External { class, n_samples, .. } = node {
                let positions: Vec<usize> = (0..n).filter(|k| landed[*k] == leaf).collect();
                assert_eq!(positions.len(), *n_samples);
                if let (Some(first), Some(last)) = (positions.first(), positions.last()) {
                    assert_eq!(last - first + 1, positions.len());
                    let count =
                        |label: isize| positions.iter().filter(|k| kept[order[**k]].target == label).count();
                    assert!((0..4).all(|label| count(label) <= count(*class)));
                    assert!(count(*class) > 0);
                } else {
                    assert_eq!(*class, 0);
                }
            }
        }
    }
}

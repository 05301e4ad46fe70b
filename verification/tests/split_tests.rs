use ciforest::tree::tree::StandardSplit;
use ciforest::utils::split::count_zero_targets;
use ciforest::utils::split::feature_bounds;
use ciforest::utils::split::identity_order;
use ciforest::utils::split::sort_by_target;
use ciforest::utils::split::split_samples;
use ciforest::utils::split::train_test_split;
use ciforest::utils::structures::Sample;
use rand::SeedableRng;

fn samples(keys: &[i64]) -> Vec<Sample> {
    keys.iter().map(|k| Sample { target: 0, features: vec![*k, -*k] }).collect()
}

#[test]
fn identity_order_counts_up() {
    assert_eq!(identity_order(4), vec![0, 1, 2, 3]);
    assert!(identity_order(0).is_empty());
}

#[test]
fn bounds_of_a_feature_over_a_range() {
    let data = samples(&[5, 9, -2, 7, 100]);
    let order = vec![4, 0, 1, 2, 3];
    assert_eq!(feature_bounds(&data, &order, 1, 5, 0), Some((-2, 9)));
    assert_eq!(feature_bounds(&data, &order, 1, 5, 1), Some((-9, 2)));
    assert_eq!(feature_bounds(&data, &order, 0, 5, 0), Some((-2, 100)));
    assert_eq!(feature_bounds(&data, &order, 2, 3, 0), Some((9, 9)));
    assert_eq!(feature_bounds(&data, &order, 3, 3, 0), None);
}

#[test]
fn partition_puts_branch_zero_first() {
    let data = samples(&[5, 9, -2, 7, 100, 6]);
    let mut order = vec![0, 1, 2, 3, 4, 5];
    let rule = StandardSplit { feature: 0, threshold: 7 };
    let mid = split_samples(&rule, &data, &mut order, 0, 6);
    // 9, 7 and 100 are at or above the threshold.
    assert_eq!(mid, 3);
    let mut first: Vec<usize> = order[..3].to_vec();
    let mut second: Vec<usize> = order[3..].to_vec();
    first.sort();
    second.sort();
    assert_eq!(first, vec![1, 3, 4]);
    assert_eq!(second, vec![0, 2, 5]);
}

#[test]
fn partition_leaves_the_rest_alone() {
    let data = samples(&[5, 9, -2, 7, 100, 6]);
    let mut order = vec![5, 4, 3, 2, 1, 0];
    let rule = StandardSplit { feature: 0, threshold: 8 };
    let mid = split_samples(&rule, &data, &mut order, 1, 4);
    // Of 100, 7 and -2 only 100 is at or above the threshold.
    assert_eq!(mid, 2);
    assert_eq!(order[0], 5);
    assert_eq!(order[1], 4);
    assert_eq!(&order[4..], &[1, 0]);
    let mut inner = order[2..4].to_vec();
    inner.sort();
    assert_eq!(inner, vec![2, 3]);
    assert_eq!(split_samples(&rule, &data, &mut order, 3, 3), 3);
}

#[test]
fn positions_sorted_by_target() {
    let targets = vec![1, 0, 2, 0, 1];
    assert_eq!(sort_by_target(&vec![4, 3, 2, 1, 0], &targets), vec![3, 1, 4, 0, 2]);
    assert_eq!(count_zero_targets(&vec![4, 3, 2, 1, 0], &targets), 2);
    assert_eq!(count_zero_targets(&vec![4, 2], &targets), 0);
}

#[test]
fn the_parts_of_a_split_hold_every_position_once() {
    let targets: Vec<isize> = (0..50).map(|i| (i % 5 == 0) as isize).collect();
    let mut seen = std::collections::BTreeSet::new();
    for seed in 0..30u64 {
        for stratify in [false, true] {
            let mut random_state = rand_chacha::ChaCha8Rng::seed_from_u64(seed);
            let (train, test) = train_test_split(&targets, 15, stratify, &mut random_state);
            assert_eq!(test.len(), 15);
            assert_eq!(train.len(), 35);
            let mut all: Vec<usize> = train.iter().chain(test.iter()).copied().collect();
            all.sort();
            assert_eq!(all, (0..50).collect::<Vec<usize>>());
            seen.insert(test);
        }
    }
    assert!(seen.len() > 30);
}

#[test]
fn the_test_part_has_the_size_asked_for() {
    let targets = vec![0, 1, 0, 1];
    let mut random_state = rand_chacha::ChaCha8Rng::seed_from_u64(1);
    let (train, test) = train_test_split(&targets, 1, false, &mut random_state);
    assert_eq!((train.len(), test.len()), (3, 1));
    let (train, test) = train_test_split(&targets, 3, true, &mut random_state);
    assert_eq!((train.len(), test.len()), (1, 3));
    let (train, test) = train_test_split(&vec![7, 7], 1, true, &mut random_state);
    assert_eq!((train.len(), test.len()), (1, 1));
}

#[test]
fn stratifying_moves_positions_between_the_parts() {
    let targets: Vec<isize> = (0..60).map(|i| (i % 3 == 0) as isize).collect();
    let mut moved = 0;
    for seed in 0..20u64 {
        let plain = train_test_split(&targets, 20, false, &mut rand_chacha::ChaCha8Rng::seed_from_u64(seed));
        let level = train_test_split(&targets, 20, true, &mut rand_chacha::ChaCha8Rng::seed_from_u64(seed));
        let set = |part: &Vec<usize>| part.iter().copied().collect::<std::collections::BTreeSet<usize>>();
        if set(&plain.1) != set(&level.1) {
            moved += 1;
        }
    }
    // The same shuffle splits the positions alike; the exchanges tell the two apart.
    assert!(moved > 0);
}

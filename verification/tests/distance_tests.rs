use ciforest::forest::distance::breiman_tree;
use ciforest::forest::distance::leaves_of;
use ciforest::forest::distance::ratiorf_tree;
use ciforest::forest::distance::zhu_tree;
use ciforest::forest::distance::Ratio;
use ciforest::tree::builder::BuildAction;
use ciforest::tree::ciso_tree::CIsoTree;
use ciforest::tree::ciso_tree::CIsoTreeConfig;
use ciforest::utils::structures::Sample;
use rand::SeedableRng;

fn sample(target: isize, features: &[i64]) -> Sample {
    Sample { target, features: features.to_vec() }
}

/// The tree over the keys 0, 10, 500, 510 that splits at the midpoints:
///
/// ```text
///            0: key < 255
///     1: key < 505     2: key < 5
///    3: 510  4: 500   5: 10  6: 0
/// ```
fn four_leaf_tree() -> CIsoTree {
    let mut random_state = rand_chacha::ChaCha8Rng::seed_from_u64(2);
    let config = CIsoTreeConfig {
        max_depth: 8,
        min_samples_split: 2,
        min_samples_leaf: 1,
        n_features: 10,
        n_intervals: 1,
        n_attributes: 1,
    };
    let mut tree = CIsoTree::new(config, &mut random_state);
    let samples = vec![sample(0, &[0]), sample(0, &[10]), sample(1, &[500]), sample(1, &[510])];
    let mut builder = tree.start_fit(samples);
    loop {
        match builder.advance(&mut random_state) {
            BuildAction::Done => break,
            BuildAction::Draw { low, high, .. } => builder.supply(Some(low + (high - low + 1) / 2)),
        }
    }
    tree.fit(builder);
    tree
}

fn probes() -> Vec<Sample> {
    vec![sample(0, &[600]), sample(0, &[300]), sample(0, &[3]), sample(0, &[507])]
}

#[test]
fn leaves_of_the_probes() {
    assert_eq!(leaves_of(&four_leaf_tree(), &probes()), vec![3, 4, 6, 3]);
    assert!(leaves_of(&four_leaf_tree(), &Vec::new()).is_empty());
}

#[test]
fn probes_in_different_leaves_are_apart() {
    let marks = breiman_tree(&four_leaf_tree(), &probes(), None);
    assert_eq!(
        marks,
        vec![
            vec![false, true, true, false],
            vec![true, false, true, true],
            vec![true, true, false, true],
            vec![false, true, true, false],
        ]
    );
    let others = vec![sample(0, &[9]), sample(0, &[1000])];
    let marks = breiman_tree(&four_leaf_tree(), &probes(), Some(&others));
    assert_eq!(
        marks,
        vec![vec![true, false], vec![true, true], vec![true, true], vec![true, false]]
    );
}

#[test]
fn shares_of_the_common_ancestor() {
    let shares = zhu_tree(&four_leaf_tree(), &probes(), None);
    let one = Ratio { num: 2, den: 2 };
    let half = Ratio { num: 1, den: 2 };
    let none = Ratio { num: 0, den: 2 };
    assert_eq!(
        shares,
        vec![
            vec![one, half, none, one],
            vec![half, one, none, half],
            vec![none, none, one, none],
            vec![one, half, none, one],
        ]
    );
}

#[test]
fn shares_of_the_rules_agreed_on() {
    let shares = ratiorf_tree(&four_leaf_tree(), &probes(), None);
    // 600 and 300 meet the same two rules and part at the second.
    assert_eq!(shares[0][1], Ratio { num: 1, den: 2 });
    // 600 and 3 meet three rules between them and part at each.
    assert_eq!(shares[0][2], Ratio { num: 0, den: 3 });
    // 300 and 3 part at the root; 300 is below 505 as 3 is, and not below 5.
    assert_eq!(shares[1][2], Ratio { num: 1, den: 3 });
    // 600 and 507 go the same way.
    assert_eq!(shares[0][3], Ratio { num: 2, den: 2 });
    for i in 0..4 {
        assert_eq!(shares[i][i], Ratio { num: 2, den: 2 });
        for j in 0..4 {
            assert_eq!(shares[i][j], shares[j][i]);
        }
    }
    let others = vec![sample(0, &[9])];
    let shares = ratiorf_tree(&four_leaf_tree(), &probes(), Some(&others));
    // 9 is below 255 and 505 and not below 5; 507 is below none of them.
    assert_eq!(shares[3], vec![Ratio { num: 1, den: 3 }]);
}

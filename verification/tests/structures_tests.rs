use ciforest::utils::structures::floor_ln;
use ciforest::utils::structures::floor_log;
use ciforest::utils::structures::floor_sqrt;
use ciforest::utils::structures::is_rectangular;
use ciforest::utils::structures::IntervalType;
use ciforest::utils::structures::MaxFeatures;
use ciforest::utils::structures::Sample;

#[test]
fn logarithms_are_rounded_down() {
    assert_eq!(floor_log(2, 1), 0);
    assert_eq!(floor_log(2, 2), 1);
    assert_eq!(floor_log(2, 7), 2);
    assert_eq!(floor_log(2, 8), 3);
    assert_eq!(floor_log(2, 1023), 9);
    assert_eq!(floor_log(2, 1024), 10);
    assert_eq!(floor_log(10, 9), 0);
    assert_eq!(floor_log(10, 10), 1);
    assert_eq!(floor_log(10, 999), 2);
    assert_eq!(floor_log(10, 1000), 3);
    assert_eq!(floor_log(2, usize::MAX), (usize::BITS - 1) as usize);
    assert_eq!(floor_log(2, 0), 0);
    assert_eq!(floor_log(10, 0), 0);
}

#[test]
fn natural_logarithms_are_rounded_down() {
    assert_eq!(floor_ln(0), 0);
    assert_eq!(floor_ln(1), 0);
    assert_eq!(floor_ln(2), 0);
    assert_eq!(floor_ln(3), 1);
    assert_eq!(floor_ln(7), 1);
    assert_eq!(floor_ln(8), 2);
    assert_eq!(floor_ln(20), 2);
    assert_eq!(floor_ln(21), 3);
    assert_eq!(floor_ln(22026), 9);
    assert_eq!(floor_ln(22027), 10);
    assert_eq!(floor_ln(1_000_000), 13);
}

#[test]
fn square_roots_are_rounded_down() {
    assert_eq!(floor_sqrt(0), 0);
    assert_eq!(floor_sqrt(1), 1);
    assert_eq!(floor_sqrt(3), 1);
    assert_eq!(floor_sqrt(4), 2);
    assert_eq!(floor_sqrt(17), 4);
    assert_eq!(floor_sqrt(99), 9);
    assert_eq!(floor_sqrt(100), 10);
    assert_eq!(floor_sqrt(u32::MAX as usize), 65535);
}

#[test]
fn interval_policies() {
    assert_eq!(IntervalType::N(7).get_interval(1000), 7);
    assert_eq!(IntervalType::N(7).get_interval(0), 7);
    assert_eq!(IntervalType::LOG2.get_interval(100), 6);
    assert_eq!(IntervalType::LOG10.get_interval(100), 2);
    assert_eq!(IntervalType::LN.get_interval(100), 4);
    assert_eq!(IntervalType::SQRT.get_interval(100), 10);
    assert_eq!(IntervalType::LOG2.get_interval(0), 0);
}

#[test]
fn feature_policies() {
    assert_eq!(MaxFeatures::ALL.get_features(33), 33);
    assert_eq!(MaxFeatures::LOG2.get_features(33), 5);
    assert_eq!(MaxFeatures::LOG10.get_features(33), 1);
    assert_eq!(MaxFeatures::LN.get_features(33), 3);
    assert_eq!(MaxFeatures::SQRT.get_features(33), 5);
    assert_eq!(MaxFeatures::SQRT.get_features(0), 0);
}

#[test]
fn rectangular_data_has_one_width() {
    let even = vec![
        Sample { target: 0, features: vec![1, 2] },
        Sample { target: 1, features: vec![3, 4] },
    ];
    assert!(is_rectangular(&even, 2));
    assert!(!is_rectangular(&even, 3));
    let ragged = vec![
        Sample { target: 0, features: vec![1, 2] },
        Sample { target: 1, features: vec![3] },
    ];
    assert!(!is_rectangular(&ragged, 2));
    assert!(is_rectangular(&Vec::new(), 5));
}

#[test]
fn a_cloned_sample_is_the_sample() {
    let sample = Sample { target: -3, features: vec![5, 6, 7] };
    let copy = sample.clone();
    assert_eq!(copy.target, -3);
    assert_eq!(copy.features, vec![5, 6, 7]);
}

use ciforest::utils::aggregation::AggregationFunction;
use ciforest::utils::aggregation::Combiner;
use ciforest::utils::aggregation::Quantile;

#[test]
fn a_new_combiner_multiplies_everything() {
    let combiner = Combiner::new();
    assert_eq!(combiner.aggregation, AggregationFunction::PROD);
    assert_eq!(combiner.quantile, None);
    assert_eq!(combiner.name(), "PROD");
}

#[test]
fn enumerate_lists_every_pair_in_order() {
    let all = Combiner::enumerate();
    assert_eq!(all.len(), 24);
    let reductions = [
        AggregationFunction::PROD,
        AggregationFunction::SUM,
        AggregationFunction::TRIMMEDSUM,
        AggregationFunction::MEDIAN,
        AggregationFunction::MIN,
        AggregationFunction::MAX,
    ];
    let quartiles = [Quantile::Q1, Quantile::Q2, Quantile::Q3, Quantile::Q4];
    for (a, reduction) in reductions.iter().enumerate() {
        for (q, quartile) in quartiles.iter().enumerate() {
            assert_eq!(all[4 * a + q], Combiner { aggregation: *reduction, quantile: Some(*quartile) });
        }
    }
    assert_eq!(all[0].name(), "Q1_PROD");
    assert_eq!(all[23].name(), "Q4_MAX");
    assert_eq!(all[9].name(), "Q2_TRIMMEDSUM");
}

#[test]
fn names_are_the_variants() {
    assert_eq!(Quantile::Q1.name(), "Q1");
    assert_eq!(Quantile::Q2.name(), "Q2");
    assert_eq!(Quantile::Q3.name(), "Q3");
    assert_eq!(Quantile::Q4.name(), "Q4");
    assert_eq!(AggregationFunction::PROD.name(), "PROD");
    assert_eq!(AggregationFunction::SUM.name(), "SUM");
    assert_eq!(AggregationFunction::TRIMMEDSUM.name(), "TRIMMEDSUM");
    assert_eq!(AggregationFunction::MEDIAN.name(), "MEDIAN");
    assert_eq!(AggregationFunction::MIN.name(), "MIN");
    assert_eq!(AggregationFunction::MAX.name(), "MAX");
    assert_eq!(Quantile::Q3.rank(), 3);
}

#[test]
fn product_and_sum_take_every_value_as_it_stands() {
    let values = vec![5, 1, 3];
    assert_eq!(AggregationFunction::PROD.operands(&values), vec![5, 1, 3]);
    assert_eq!(AggregationFunction::SUM.operands(&values), vec![5, 1, 3]);
    assert_eq!(AggregationFunction::SUM.operands(&vec![]), Vec::<i64>::new());
}

#[test]
fn trimmed_sum_drops_a_twentieth_at_each_end() {
    let values: Vec<i64> = (0..20).rev().collect();
    // A twentieth of 20 values is one value.
    assert_eq!(AggregationFunction::TRIMMEDSUM.operands(&values), (1..19).collect::<Vec<i64>>());
    // A twentieth of 9 values rounds to none.
    let few: Vec<i64> = vec![9, 8, 7, 6, 5, 4, 3, 2, 1];
    assert_eq!(AggregationFunction::TRIMMEDSUM.operands(&few), (1..10).collect::<Vec<i64>>());
    assert_eq!(AggregationFunction::TRIMMEDSUM.operands(&vec![]), Vec::<i64>::new());
}

#[test]
fn median_takes_the_middle() {
    assert_eq!(AggregationFunction::MEDIAN.operands(&vec![9, 1, 5]), vec![5]);
    assert_eq!(AggregationFunction::MEDIAN.operands(&vec![9, 1, 5, 3]), vec![3, 5]);
    assert_eq!(AggregationFunction::MEDIAN.operands(&vec![4]), vec![4]);
}

#[test]
fn least_and_greatest() {
    assert_eq!(AggregationFunction::MIN.operands(&vec![9, -1, 5]), vec![-1]);
    assert_eq!(AggregationFunction::MAX.operands(&vec![9, -1, 5]), vec![9]);
}

#[test]
fn a_combiner_keeps_what_lies_above_the_cut_of_its_quartile() {
    let values = vec![50, 10, 40, 20, 30, 80, 70, 60];
    let band = |quantile: Option<Quantile>| {
        Combiner { aggregation: AggregationFunction::SUM, quantile }.band(&values)
    };
    assert_eq!(band(Some(Quantile::Q1)), vec![30, 40, 50, 60, 70, 80]);
    assert_eq!(band(Some(Quantile::Q2)), vec![50, 60, 70, 80]);
    assert_eq!(band(Some(Quantile::Q3)), vec![70, 80]);
    assert_eq!(band(Some(Quantile::Q4)), vec![70, 80]);
}

#[test]
fn a_combiner_without_a_quartile_keeps_every_value() {
    let combiner = Combiner::new();
    assert_eq!(combiner.band(&vec![0, 0, 0, 4]), vec![0, 0, 0, 4]);
    assert_eq!(combiner.band(&vec![50, 10, 40]), vec![50, 10, 40]);
    assert_eq!(combiner.band(&vec![]), Vec::<i64>::new());
    assert!(combiner.has_cut(0));
}

#[test]
fn a_quartile_needs_a_cut_among_the_values() {
    let third = Combiner { aggregation: AggregationFunction::MIN, quantile: Some(Quantile::Q3) };
    assert!(!third.has_cut(0));
    // Three quarters of 1 and of 2 round to 1 and 2: no key has that rank.
    assert!(!third.has_cut(1));
    assert!(!third.has_cut(2));
    assert!(third.has_cut(3));
}

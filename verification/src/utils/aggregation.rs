//! Which path lengths enter an anomaly score.
//!
//! A combiner first keeps one quartile band of the values and then hands the
//! band, or a selection of it, to a reduction. The choice of values is made
//! here, on keys; the arithmetic of the reduction is the caller's.

use crate::utils::statistics::lemma_ranked;
use crate::utils::statistics::quartile_band;
use crate::utils::statistics::quartiles;
use crate::utils::statistics::ranked;
use crate::utils::statistics::round_share;
use crate::utils::statistics::rounded_share;
use crate::utils::statistics::sort_keys;
use vstd::prelude::*;
use vstd::string::StringExecFns;

verus! {

/// A quartile band.
#[derive(Clone, Copy, Debug, PartialEq, Eq, Structural)]
pub enum Quantile {
    Q1,
    Q2,
    Q3,
    Q4,
}

impl Quantile {
    /// The number of the quartile, 1 to 4.
    pub open spec fn number(self) -> int {
        match self {
            Quantile::Q1 => 1,
            Quantile::Q2 => 2,
            Quantile::Q3 => 3,
            Quantile::Q4 => 4,
        }
    }

    /// The number of the quartile, 1 to 4.
    pub fn rank(&self) -> (q: i32)
        ensures
            q == self.number(),
    {
        match self {
            Quantile::Q1 => 1,
            Quantile::Q2 => 2,
            Quantile::Q3 => 3,
            Quantile::Q4 => 4,
        }
    }

    /// The name as text.
    pub open spec fn label(self) -> Seq<char> {
        match self {
            Quantile::Q1 => "Q1"@,
            Quantile::Q2 => "Q2"@,
            Quantile::Q3 => "Q3"@,
            Quantile::Q4 => "Q4"@,
        }
    }

    /// The quartile's name as text.
    pub fn name(&self) -> (text: String)
        ensures
            text@ == self.label(),
    {
        match self {
            Quantile::Q1 => String::from_str("Q1"),
            Quantile::Q2 => String::from_str("Q2"),
            Quantile::Q3 => String::from_str("Q3"),
            Quantile::Q4 => String::from_str("Q4"),
        }
    }
}

/// How the values of a band are reduced to one score.
#[derive(Clone, Copy, Debug, PartialEq, Eq, Structural)]
pub enum AggregationFunction {
    PROD,
    SUM,
    TRIMMEDSUM,
    MEDIAN,
    MIN,
    MAX,
}

impl AggregationFunction {
    /// The name as text.
    pub open spec fn label(self) -> Seq<char> {
        match self {
            AggregationFunction::PROD => "PROD"@,
            AggregationFunction::SUM => "SUM"@,
            AggregationFunction::TRIMMEDSUM => "TRIMMEDSUM"@,
            AggregationFunction::MEDIAN => "MEDIAN"@,
            AggregationFunction::MIN => "MIN"@,
            AggregationFunction::MAX => "MAX"@,
        }
    }

    /// The reduction's name as text.
    pub fn name(&self) -> (text: String)
        ensures
            text@ == self.label(),
    {
        match self {
            AggregationFunction::PROD => String::from_str("PROD"),
            AggregationFunction::SUM => String::from_str("SUM"),
            AggregationFunction::TRIMMEDSUM => String::from_str("TRIMMEDSUM"),
            AggregationFunction::MEDIAN => String::from_str("MEDIAN"),
            AggregationFunction::MIN => String::from_str("MIN"),
            AggregationFunction::MAX => String::from_str("MAX"),
        }
    }

    /// The reduction needs at least one value.
    pub open spec fn needs_values(self) -> bool {
        self == AggregationFunction::MEDIAN || self == AggregationFunction::MIN || self
            == AggregationFunction::MAX
    }

    /// The values that enter the reduction: all of them for the product and
    /// the sum; for the trimmed sum the ranked values without the lowest
    /// and the highest twentieth; for the median the middle value, or the
    /// two middle values of an even number; the least; the greatest.
    pub open spec fn operands_of(self, values: Seq<i64>) -> Seq<i64> {
        let n = values.len();
        let sorted = ranked(values);
        match self {
            AggregationFunction::PROD => values,
            AggregationFunction::SUM => values,
            AggregationFunction::TRIMMEDSUM => sorted.subrange(
                rounded_share(n, 5) as int,
                n - rounded_share(n, 5),
            ),
            AggregationFunction::MEDIAN => if n % 2 == 0 {
                seq![sorted[n / 2 - 1], sorted[(n / 2) as int]]
            } else {
                seq![sorted[(n / 2) as int]]
            },
            AggregationFunction::MIN => seq![sorted[0]],
            AggregationFunction::MAX => seq![sorted[n - 1]],
        }
    }

    /// The values that enter the reduction, in the order in which they are
    /// reduced.
    pub fn operands(&self, values: &Vec<i64>) -> (chosen: Vec<i64>)
        requires
            self.needs_values() ==> values@.len() > 0,
        ensures
            chosen@ == self.operands_of(values@),
    {
        let n: usize = values.len();
        proof {
            lemma_ranked(values@);
        }
        match self {
            AggregationFunction::PROD => values.clone(),
            AggregationFunction::SUM => values.clone(),
            AggregationFunction::TRIMMEDSUM => {
                let sorted = sort_keys(values);
                let trim: usize = round_share(n, 5);
                let mut chosen: Vec<i64> = Vec::new();
                let mut i: usize = trim;
                while i < n - trim
                    invariant
                        trim <= i,
                        2 * trim <= n,
                        i <= n - trim,
                        n == sorted@.len(),
                        chosen@ == sorted@.subrange(trim as int, i as int),
                    decreases n - i,
                {
                    chosen.push(sorted[i]);
                    assert(sorted@.subrange(trim as int, i + 1) == sorted@.subrange(
                        trim as int,
                        i as int,
                    ).push(sorted@[i as int]));
                    i += 1;
                }
                chosen
            },
            AggregationFunction::MEDIAN => {
                let sorted = sort_keys(values);
                let mid: usize = n / 2;
                let mut chosen: Vec<i64> = Vec::new();
                if n % 2 == 0 {
                    chosen.push(sorted[mid - 1]);
                }
                chosen.push(sorted[mid]);
                chosen
            },
            AggregationFunction::MIN => {
                let sorted = sort_keys(values);
                let mut chosen: Vec<i64> = Vec::new();
                chosen.push(sorted[0]);
                chosen
            },
            AggregationFunction::MAX => {
                let sorted = sort_keys(values);
                let mut chosen: Vec<i64> = Vec::new();
                chosen.push(sorted[n - 1]);
                chosen
            },
        }
    }
}

/// A quartile band and a reduction.
#[derive(Clone, Copy, Debug, PartialEq, Eq, Structural)]
pub struct Combiner {
    pub aggregation: AggregationFunction,
    pub quantile: Option<Quantile>,
}

/// The reductions in their fixed order.
pub open spec fn aggregation_at(i: int) -> AggregationFunction {
    if i == 0 {
        AggregationFunction::PROD
    } else if i == 1 {
        AggregationFunction::SUM
    } else if i == 2 {
        AggregationFunction::TRIMMEDSUM
    } else if i == 3 {
        AggregationFunction::MEDIAN
    } else if i == 4 {
        AggregationFunction::MIN
    } else {
        AggregationFunction::MAX
    }
}

/// The quartiles in their order.
pub open spec fn quantile_at(i: int) -> Quantile {
    if i == 0 {
        Quantile::Q1
    } else if i == 1 {
        Quantile::Q2
    } else if i == 2 {
        Quantile::Q3
    } else {
        Quantile::Q4
    }
}

/// The reduction at place `i` of the fixed order.
fn aggregation_by(i: usize) -> (aggregation: AggregationFunction)
    ensures
        aggregation == aggregation_at(i as int),
{
    if i == 0 {
        AggregationFunction::PROD
    } else if i == 1 {
        AggregationFunction::SUM
    } else if i == 2 {
        AggregationFunction::TRIMMEDSUM
    } else if i == 3 {
        AggregationFunction::MEDIAN
    } else if i == 4 {
        AggregationFunction::MIN
    } else {
        AggregationFunction::MAX
    }
}

/// The quartile at place `i`.
fn quantile_by(i: usize) -> (quantile: Quantile)
    ensures
        quantile == quantile_at(i as int),
{
    if i == 0 {
        Quantile::Q1
    } else if i == 1 {
        Quantile::Q2
    } else if i == 2 {
        Quantile::Q3
    } else {
        Quantile::Q4
    }
}

impl Combiner {
    /// The product over all values, without a quartile.
    pub fn new() -> (combiner: Self)
        ensures
            combiner.aggregation == AggregationFunction::PROD,
            combiner.quantile is None,
    {
        Combiner { aggregation: AggregationFunction::PROD, quantile: None }
    }

    /// Every pair of a reduction and a quartile: the reductions in their
    /// order, and under each the four quartiles.
    pub fn enumerate() -> (all: Vec<Self>)
        ensures
            all@.len() == 24,
            forall|a: int, q: int|
                0 <= a < 6 && 0 <= q < 4 ==> #[trigger] all@[4 * a + q] == (Combiner {
                    aggregation: aggregation_at(a),
                    quantile: Some(quantile_at(q)),
                }),
    {
        let mut all: Vec<Combiner> = Vec::new();
        let mut a: usize = 0;
        while a < 6
            invariant
                a <= 6,
                all@.len() == 4 * a,
                forall|i: int, q: int|
                    0 <= i < a && 0 <= q < 4 ==> #[trigger] all@[4 * i + q] == (Combiner {
                        aggregation: aggregation_at(i),
                        quantile: Some(quantile_at(q)),
                    }),
            decreases 6 - a,
        {
            let mut q: usize = 0;
            while q < 4
                invariant
                    a < 6,
                    q <= 4,
                    all@.len() == 4 * a + q,
                    forall|i: int, j: int|
                        0 <= i < a && 0 <= j < 4 ==> #[trigger] all@[4 * i + j] == (Combiner {
                            aggregation: aggregation_at(i),
                            quantile: Some(quantile_at(j)),
                        }),
                    forall|j: int|
                        0 <= j < q ==> #[trigger] all@[4 * a + j] == (Combiner {
                            aggregation: aggregation_at(a as int),
                            quantile: Some(quantile_at(j)),
                        }),
                decreases 4 - q,
            {
                all.push(Combiner { aggregation: aggregation_by(a), quantile: Some(quantile_by(q)) });
                q += 1;
            }
            a += 1;
        }
        all
    }

    /// The values that the combiner keeps: without a quartile all of them,
    /// as they stand; with one, the band of that quartile, which is the
    /// quartile's cut and what lies above it in the ranked values.
    pub open spec fn kept_of(self, values: Seq<i64>) -> Seq<i64> {
        match self.quantile {
            Some(quantile) => ranked(values).subrange(
                quartile_band(values.len(), quantile.number()).0 as int,
                quartile_band(values.len(), quantile.number()).1 as int,
            ),
            None => values,
        }
    }

    /// The quartile, if there is one, has a cut among `values`.
    pub open spec fn can_keep(self, values: Seq<i64>) -> bool {
        match self.quantile {
            Some(quantile) => values.len() > 0 && quartile_band(
                values.len(),
                quantile.number(),
            ).0 < values.len(),
            None => true,
        }
    }

    /// The name as text.
    pub open spec fn label(self) -> Seq<char> {
        match self.quantile {
            Some(quantile) => quantile.label() + "_"@ + self.aggregation.label(),
            None => self.aggregation.label(),
        }
    }

    /// The combiner's name as text: the quartile, an underscore and the
    /// reduction, or the reduction alone.
    pub fn name(&self) -> (text: String)
        ensures
            text@ == self.label(),
    {
        let reduction = self.aggregation.name();
        match &self.quantile {
            Some(quantile) => {
                let text = quantile.name().concat("_").concat(reduction.as_str());
                text
            },
            None => reduction,
        }
    }

    /// The values that the combiner keeps. The quartile filter is
    /// optional: without a quartile every value is kept.
    pub fn band(&self, values: &Vec<i64>) -> (kept: Vec<i64>)
        requires
            self.can_keep(values@),
        ensures
            kept@ == self.kept_of(values@),
    {
        match &self.quantile {
            Some(quantile) => {
                let (_, kept) = quartiles(values, quantile.rank());
                kept
            },
            None => values.clone(),
        }
    }

    /// Whether the quartile, if there is one, has a cut among `n` values.
    pub fn has_cut(&self, n: usize) -> (yes: bool)
        ensures
            forall|values: Seq<i64>| values.len() == n ==> yes == #[trigger] self.can_keep(values),
    {
        match &self.quantile {
            Some(quantile) => {
                let percent: usize = if quantile.rank() == 1 {
                    25
                } else if quantile.rank() == 2 {
                    50
                } else {
                    75
                };
                n > 0 && round_share(n, percent) < n
            },
            None => true,
        }
    }
}

} // verus!

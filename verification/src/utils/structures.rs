//! Samples and the size policies of an ensemble.

use vstd::prelude::*;

verus! {

/// One observation: a class label and its feature keys.
///
/// Feature values are integer keys whose order is the order of the
/// measurements they stand for.
#[derive(Debug)]
pub struct Sample {
    pub target: isize,
    pub features: Vec<i64>,
}

impl Clone for Sample {
    /// A sample with the same label and the same feature keys.
    fn clone(&self) -> (copy: Self)
        ensures
            copy.target == self.target,
            copy.features@ == self.features@,
    {
        Sample { target: self.target, features: self.features.clone() }
    }
}

/// Every sample of `samples` carries exactly `width` feature keys.
pub open spec fn rectangular(samples: Seq<Sample>, width: nat) -> bool {
    forall|i: int| 0 <= i < samples.len() ==> (#[trigger] samples[i]).features@.len() == width
}

/// Decides whether every sample carries exactly `width` feature keys.
pub fn is_rectangular(samples: &Vec<Sample>, width: usize) -> (ok: bool)
    ensures
        ok == rectangular(samples@, width as nat),
{
    let mut i: usize = 0;
    while i < samples.len()
        invariant
            i <= samples.len(),
            forall|j: int| 0 <= j < i ==> (#[trigger] samples@[j]).features@.len() == width,
        decreases samples.len() - i,
    {
        if samples[i].features.len() != width {
            return false;
        }
        i += 1;
    }
    true
}

/// `base` raised to the power `k`.
pub open spec fn power(base: nat, k: nat) -> nat
    decreases k,
{
    if k == 0 {
        1
    } else {
        base * power(base, (k - 1) as nat)
    }
}

/// The smallest integer that is at least `e` raised to the power `k`, for
/// `k` up to 45; the last entry exceeds every 64-bit number.
pub open spec fn exp_ceiling(k: nat) -> nat {
    if k == 0 {
        1
    } else     if k == 1 {
        3
    } else     if k == 2 {
        8
    } else     if k == 3 {
        21
    } else     if k == 4 {
        55
    } else     if k == 5 {
        149
    } else     if k == 6 {
        404
    } else     if k == 7 {
        1097
    } else     if k == 8 {
        2981
    } else     if k == 9 {
        8104
    } else     if k == 10 {
        22027
    } else     if k == 11 {
        59875
    } else     if k == 12 {
        162755
    } else     if k == 13 {
        442414
    } else     if k == 14 {
        1202605
    } else     if k == 15 {
        3269018
    } else     if k == 16 {
        8886111
    } else     if k == 17 {
        24154953
    } else     if k == 18 {
        65659970
    } else     if k == 19 {
        178482301
    } else     if k == 20 {
        485165196
    } else     if k == 21 {
        1318815735
    } else     if k == 22 {
        3584912847
    } else     if k == 23 {
        9744803447
    } else     if k == 24 {
        26489122130
    } else     if k == 25 {
        72004899338
    } else     if k == 26 {
        195729609429
    } else     if k == 27 {
        532048240602
    } else     if k == 28 {
        1446257064292
    } else     if k == 29 {
        3931334297145
    } else     if k == 30 {
        10686474581525
    } else     if k == 31 {
        29048849665248
    } else     if k == 32 {
        78962960182681
    } else     if k == 33 {
        214643579785917
    } else     if k == 34 {
        583461742527455
    } else     if k == 35 {
        1586013452313431
    } else     if k == 36 {
        4311231547115196
    } else     if k == 37 {
        11719142372802612
    } else     if k == 38 {
        31855931757113757
    } else     if k == 39 {
        86593400423993747
    } else     if k == 40 {
        235385266837019986
    } else     if k == 41 {
        639843493530054950
    } else     if k == 42 {
        1739274941520501048
    } else     if k == 43 {
        4727839468229346562
    } else     if k == 44 {
        12851600114359308276
    } else {
        34934271057485095349
    }
}

/// `cut` is the integer logarithm of `n` to the base `base`: the largest
/// exponent whose power does not exceed `n`, and 0 for `n == 0`.
pub open spec fn is_floor_log(base: nat, n: nat, cut: nat) -> bool {
    if n == 0 {
        cut == 0
    } else {
        power(base, cut) <= n < power(base, cut + 1)
    }
}

/// `cut` is the integer natural logarithm of `n`: the largest exponent `k`
/// with `e^k <= n`, and 0 for `n == 0`.
pub open spec fn is_floor_ln(n: nat, cut: nat) -> bool {
    if n == 0 {
        cut == 0
    } else {
        cut <= 44 && exp_ceiling(cut) <= n < exp_ceiling(cut + 1)
    }
}

/// `root` is the integer square root of `n`.
pub open spec fn is_floor_sqrt(n: nat, root: nat) -> bool {
    root * root <= n < (root + 1) * (root + 1)
}

/// A power of a positive base is positive.
proof fn lemma_power_positive(base: nat, k: nat)
    requires
        base >= 1,
    ensures
        power(base, k) >= 1,
    decreases k,
{
    if k > 0 {
        lemma_power_positive(base, (k - 1) as nat);
        assert(base * power(base, (k - 1) as nat) >= 1) by (nonlinear_arith)
            requires
                base >= 1,
                power(base, (k - 1) as nat) >= 1,
        ;
    }
}

/// Integer logarithm of `n` to the base `base`.
pub fn floor_log(base: usize, n: usize) -> (cut: usize)
    requires
        base >= 2,
    ensures
        is_floor_log(base as nat, n as nat, cut as nat),
{
    let mut cut: usize = 0;
    let mut rest: usize = n;
    assert(power(base as nat, 0) == 1);
    while rest >= base
        invariant
            base >= 2,
            cut + rest <= n,
            n >= 1 ==> rest >= 1,
            power(base as nat, cut as nat) * rest <= n,
            n < power(base as nat, cut as nat) * (rest + 1),
        decreases rest,
    {
        let ghost scale = power(base as nat, cut as nat);
        let quotient: usize = rest / base;
        proof {
            lemma_power_positive(base as nat, cut as nat);
            assert(power(base as nat, (cut + 1) as nat) == base * scale);
            assert(base * quotient <= rest && rest < base * (quotient + 1) && quotient < rest)
                by (nonlinear_arith)
                requires
                    quotient == rest / base,
                    base >= 2,
                    rest >= base,
            ;
            assert((base * scale) * quotient <= n) by (nonlinear_arith)
                requires
                    base * quotient <= rest,
                    scale * rest <= n,
            ;
            assert(n < (base * scale) * (quotient + 1)) by (nonlinear_arith)
                requires
                    rest + 1 <= base * (quotient + 1),
                    n < scale * (rest + 1),
                    scale >= 1,
            ;
        }
        rest = quotient;
        cut += 1;
    }
    proof {
        let scale = power(base as nat, cut as nat);
        lemma_power_positive(base as nat, cut as nat);
        if n > 0 {
            assert(scale <= n) by (nonlinear_arith)
                requires
                    scale * rest <= n,
                    rest >= 1,
                    scale >= 1,
            ;
            assert(n < base * scale) by (nonlinear_arith)
                requires
                    n < scale * (rest + 1),
                    rest + 1 <= base,
                    scale >= 1,
            ;
            assert(power(base as nat, (cut + 1) as nat) == base * scale);
        } else {
            assert(cut == 0);
        }
    }
    cut
}

/// Integer square root of `n`.
pub fn floor_sqrt(n: usize) -> (root: usize)
    ensures
        is_floor_sqrt(n as nat, root as nat),
{
    let mut low: usize = 0;
    let mut high: usize = n;
    assert(n < (n + 1) * (n + 1)) by (nonlinear_arith);
    while low < high
        invariant
            low <= high <= n,
            low * low <= n,
            n < (high + 1) * (high + 1),
        decreases high - low,
    {
        let mid: usize = high - (high - low) / 2;
        let quotient: usize = n / mid;
        if mid <= quotient {
            assert(mid * mid <= n) by (nonlinear_arith)
                requires
                    mid <= quotient,
                    quotient == n / mid,
                    mid >= 1,
            ;
            low = mid;
        } else {
            assert(n < mid * mid) by (nonlinear_arith)
                requires
                    mid > quotient,
                    quotient == n / mid,
                    mid >= 1,
            ;
            high = mid - 1;
        }
    }
    low
}

/// The entry of `exp_ceiling` for `k`.
fn exp_ceiling_at(k: usize) -> (bound: u64)
    requires
        k <= 44,
    ensures
        bound == exp_ceiling(k as nat),
{
    if k == 0 {
        1
    } else     if k == 1 {
        3
    } else     if k == 2 {
        8
    } else     if k == 3 {
        21
    } else     if k == 4 {
        55
    } else     if k == 5 {
        149
    } else     if k == 6 {
        404
    } else     if k == 7 {
        1097
    } else     if k == 8 {
        2981
    } else     if k == 9 {
        8104
    } else     if k == 10 {
        22027
    } else     if k == 11 {
        59875
    } else     if k == 12 {
        162755
    } else     if k == 13 {
        442414
    } else     if k == 14 {
        1202605
    } else     if k == 15 {
        3269018
    } else     if k == 16 {
        8886111
    } else     if k == 17 {
        24154953
    } else     if k == 18 {
        65659970
    } else     if k == 19 {
        178482301
    } else     if k == 20 {
        485165196
    } else     if k == 21 {
        1318815735
    } else     if k == 22 {
        3584912847
    } else     if k == 23 {
        9744803447
    } else     if k == 24 {
        26489122130
    } else     if k == 25 {
        72004899338
    } else     if k == 26 {
        195729609429
    } else     if k == 27 {
        532048240602
    } else     if k == 28 {
        1446257064292
    } else     if k == 29 {
        3931334297145
    } else     if k == 30 {
        10686474581525
    } else     if k == 31 {
        29048849665248
    } else     if k == 32 {
        78962960182681
    } else     if k == 33 {
        214643579785917
    } else     if k == 34 {
        583461742527455
    } else     if k == 35 {
        1586013452313431
    } else     if k == 36 {
        4311231547115196
    } else     if k == 37 {
        11719142372802612
    } else     if k == 38 {
        31855931757113757
    } else     if k == 39 {
        86593400423993747
    } else     if k == 40 {
        235385266837019986
    } else     if k == 41 {
        639843493530054950
    } else     if k == 42 {
        1739274941520501048
    } else     if k == 43 {
        4727839468229346562
    } else {
        12851600114359308276
    }
}

/// Integer natural logarithm of `n`.
pub fn floor_ln(n: usize) -> (cut: usize)
    ensures
        is_floor_ln(n as nat, cut as nat),
{
    if n == 0 {
        return 0;
    }
    let mut cut: usize = 0;
    while cut < 44 && exp_ceiling_at(cut + 1) <= n as u64
        invariant
            cut <= 44,
            exp_ceiling(cut as nat) <= n,
        decreases 44 - cut,
    {
        cut += 1;
    }
    cut
}

/// How many random sub-intervals a tree draws over a series.
#[derive(Clone, Copy)]
pub enum IntervalType {
    N(usize),
    LOG2,
    LOG10,
    LN,
    SQRT,
}

impl IntervalType {
    /// The policy's count for a series of `n` points, as a relation.
    pub open spec fn interval_count(self, n: nat, count: nat) -> bool {
        match self {
            IntervalType::N(fixed) => count == fixed,
            IntervalType::LOG2 => is_floor_log(2, n, count),
            IntervalType::LOG10 => is_floor_log(10, n, count),
            IntervalType::LN => is_floor_ln(n, count),
            IntervalType::SQRT => is_floor_sqrt(n, count),
        }
    }

    /// Number of sub-intervals for a series of `n` points: the fixed count,
    /// or the integer part of the chosen function of `n`.
    pub fn get_interval(&self, n: usize) -> (count: usize)
        ensures
            self.interval_count(n as nat, count as nat),
    {
        match self {
            IntervalType::N(fixed) => *fixed,
            IntervalType::LOG2 => floor_log(2, n),
            IntervalType::LOG10 => floor_log(10, n),
            IntervalType::LN => floor_ln(n),
            IntervalType::SQRT => floor_sqrt(n),
        }
    }
}

/// How many features a node may consider when it looks for a split.
#[derive(Clone, Copy)]
pub enum MaxFeatures {
    LOG2,
    LOG10,
    LN,
    SQRT,
    ALL,
}

impl MaxFeatures {
    /// The policy's count for `n` features, as a relation.
    pub open spec fn feature_count(self, n: nat, count: nat) -> bool {
        match self {
            MaxFeatures::LOG2 => is_floor_log(2, n, count),
            MaxFeatures::LOG10 => is_floor_log(10, n, count),
            MaxFeatures::LN => is_floor_ln(n, count),
            MaxFeatures::SQRT => is_floor_sqrt(n, count),
            MaxFeatures::ALL => count == n,
        }
    }

    /// Number of features to consider out of `n`: all of them, or the
    /// integer part of the chosen function of `n`.
    pub fn get_features(&self, n: usize) -> (count: usize)
        ensures
            self.feature_count(n as nat, count as nat),
    {
        match self {
            MaxFeatures::LOG2 => floor_log(2, n),
            MaxFeatures::LOG10 => floor_log(10, n),
            MaxFeatures::LN => floor_ln(n),
            MaxFeatures::SQRT => floor_sqrt(n),
            MaxFeatures::ALL => n,
        }
    }
}

} // verus!

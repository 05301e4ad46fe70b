//! Partitioning a node's samples by a rule.
//!
//! A node's samples are a range of an index vector into the training data;
//! splitting a node reorders that range in place.

use crate::tree::tree::StandardSplit;
use crate::utils::random::lemma_shuffle_keeps_distinct;
use crate::utils::random::shuffle;
use crate::utils::random::RandomGenerator;
use crate::utils::structures::Sample;
use vstd::prelude::*;

verus! {

/// The key of feature `feature` of the sample that `order[at]` names.
pub open spec fn key_at(samples: Seq<Sample>, order: Seq<usize>, at: int, feature: int) -> i64 {
    samples[order[at] as int].features@[feature]
}

/// Every sample has a key for feature `feature`.
pub open spec fn covers(samples: Seq<Sample>, feature: nat) -> bool {
    forall|i: int| 0 <= i < samples.len() ==> feature < (#[trigger] samples[i]).features@.len()
}

/// Every entry of `order` names a sample.
pub open spec fn indexes(order: Seq<usize>, n: nat) -> bool {
    forall|k: int| 0 <= k < order.len() ==> #[trigger] order[k] < n
}

/// How many of the samples that `order[from..upto]` names take branch 0 of
/// `split`.
pub open spec fn stays(
    samples: Seq<Sample>,
    order: Seq<usize>,
    split: StandardSplit,
    from: int,
    upto: int,
) -> int
    decreases upto - from,
{
    if upto <= from {
        0
    } else {
        stays(samples, order, split, from, upto - 1) + if split.branch_of(
            samples[order[upto - 1] as int].features@,
        ) == 0 {
            1int
        } else {
            0int
        }
    }
}

/// Replacing one entry changes the count of branch 0 by what the old and
/// the new entry count.
proof fn lemma_stays_update(
    samples: Seq<Sample>,
    order: Seq<usize>,
    split: StandardSplit,
    from: int,
    upto: int,
    at: int,
    entry: usize,
)
    requires
        0 <= from <= upto <= order.len(),
        0 <= at < order.len(),
    ensures
        stays(samples, order.update(at, entry), split, from, upto) == stays(
            samples,
            order,
            split,
            from,
            upto,
        ) + if from <= at < upto {
            (if split.branch_of(samples[entry as int].features@) == 0 {
                1int
            } else {
                0int
            }) - (if split.branch_of(samples[order[at] as int].features@) == 0 {
                1int
            } else {
                0int
            })
        } else {
            0int
        },
    decreases upto - from,
{
    if from < upto {
        lemma_stays_update(samples, order, split, from, upto - 1, at, entry);
    }
}

/// In a partitioned range the samples of branch 0 are those before the
/// middle.
proof fn lemma_stays_partitioned(
    samples: Seq<Sample>,
    order: Seq<usize>,
    split: StandardSplit,
    from: int,
    mid: int,
    upto: int,
)
    requires
        0 <= from <= mid <= upto <= order.len(),
        forall|k: int|
            from <= k < mid ==> split.branch_of((#[trigger] samples[order[k] as int]).features@)
                == 0,
        forall|k: int|
            mid <= k < upto ==> split.branch_of((#[trigger] samples[order[k] as int]).features@)
                == 1,
    ensures
        stays(samples, order, split, from, upto) == mid - from,
    decreases upto - from,
{
    if from < upto {
        if mid < upto {
            lemma_stays_partitioned(samples, order, split, from, mid, upto - 1);
            assert(split.branch_of(samples[order[upto - 1] as int].features@) == 1);
        } else {
            lemma_stays_partitioned(samples, order, split, from, mid - 1, upto - 1);
            assert(split.branch_of(samples[order[upto - 1] as int].features@) == 0);
        }
    }
}

/// The indices `0..n` in order.
pub fn identity_order(n: usize) -> (order: Vec<usize>)
    ensures
        order@.len() == n,
        forall|k: int| 0 <= k < n ==> #[trigger] order@[k] == k,
{
    let mut order: Vec<usize> = Vec::new();
    let mut k: usize = 0;
    while k < n
        invariant
            k <= n,
            order@.len() == k,
            forall|j: int| 0 <= j < k ==> #[trigger] order@[j] == j,
        decreases n - k,
    {
        order.push(k);
        k += 1;
    }
    order
}

/// The least and the greatest key of one feature over the samples that
/// `order[start..end]` names; `None` for an empty range.
pub fn feature_bounds(
    samples: &Vec<Sample>,
    order: &Vec<usize>,
    start: usize,
    end: usize,
    feature: usize,
) -> (bounds: Option<(i64, i64)>)
    requires
        start <= end <= order@.len(),
        indexes(order@, samples@.len() as nat),
        covers(samples@, feature as nat),
    ensures
        bounds is None <==> start == end,
        bounds matches Some((low, high)) ==> {
            &&& forall|k: int|
                start <= k < end ==> low <= #[trigger] key_at(samples@, order@, k, feature as int)
                    <= high
            &&& exists|k: int|
                start <= k < end && #[trigger] key_at(samples@, order@, k, feature as int) == low
            &&& exists|k: int|
                start <= k < end && #[trigger] key_at(samples@, order@, k, feature as int) == high
        },
{
    if start == end {
        return None;
    }
    let first: i64 = samples[order[start]].features[feature];
    let mut low: i64 = first;
    let mut high: i64 = first;
    let ghost mut low_at: int = start as int;
    let ghost mut high_at: int = start as int;
    let mut k: usize = start + 1;
    while k < end
        invariant
            start < k <= end <= order@.len(),
            indexes(order@, samples@.len() as nat),
            covers(samples@, feature as nat),
            start <= low_at < k,
            start <= high_at < k,
            key_at(samples@, order@, low_at, feature as int) == low,
            key_at(samples@, order@, high_at, feature as int) == high,
            forall|j: int|
                start <= j < k ==> low <= #[trigger] key_at(samples@, order@, j, feature as int)
                    <= high,
        decreases end - k,
    {
        let key: i64 = samples[order[k]].features[feature];
        if key < low {
            low = key;
            proof {
                low_at = k as int;
            }
        }
        if key > high {
            high = key;
            proof {
                high_at = k as int;
            }
        }
        k += 1;
    }
    Some((low, high))
}

/// Reorders `order[start..end]` so that the samples that `split` sends to
/// branch 0 come first, and returns where the samples of branch 1 begin.
/// The range keeps its entries; nothing outside it moves.
pub fn split_samples(
    split: &StandardSplit,
    samples: &Vec<Sample>,
    order: &mut Vec<usize>,
    start: usize,
    end: usize,
) -> (mid: usize)
    requires
        start <= end <= old(order)@.len(),
        indexes(old(order)@, samples@.len() as nat),
        covers(samples@, split.feature as nat),
    ensures
        final(order)@.len() == old(order)@.len(),
        indexes(final(order)@, samples@.len() as nat),
        start <= mid <= end,
        forall|k: int|
            start <= k < mid ==> split.branch_of(
                (#[trigger] samples@[final(order)@[k] as int]).features@,
            ) == 0,
        forall|k: int|
            mid <= k < end ==> split.branch_of(
                (#[trigger] samples@[final(order)@[k] as int]).features@,
            ) == 1,
        forall|k: int|
            0 <= k < start || end <= k < old(order)@.len() ==> final(order)@[k] == old(order)@[k],
        mid - start == stays(samples@, old(order)@, *split, start as int, end as int),
        final(order)@.subrange(start as int, end as int).to_multiset() == old(order)@.subrange(
            start as int,
            end as int,
        ).to_multiset(),
{
    let mut low: usize = start;
    let mut high: usize = end;
    while low < high
        invariant
            start <= low <= high <= end <= order@.len(),
            order@.len() == old(order)@.len(),
            indexes(order@, samples@.len() as nat),
            covers(samples@, split.feature as nat),
            forall|k: int|
                start <= k < low ==> split.branch_of(
                    (#[trigger] samples@[order@[k] as int]).features@,
                ) == 0,
            forall|k: int|
                high <= k < end ==> split.branch_of(
                    (#[trigger] samples@[order@[k] as int]).features@,
                ) == 1,
            forall|k: int|
                0 <= k < start || end <= k < order@.len() ==> order@[k] == old(order)@[k],
            order@.subrange(start as int, end as int).to_multiset() == old(order)@.subrange(
                start as int,
                end as int,
            ).to_multiset(),
            stays(samples@, order@, *split, start as int, end as int) == stays(
                samples@,
                old(order)@,
                *split,
                start as int,
                end as int,
            ),
        decreases high - low,
    {
        let here: usize = order[low];
        if split.split(&samples[here]) == 0 {
            low += 1;
        } else {
            let there: usize = order[high - 1];
            let ghost before = order@;
            order.set(low, there);
            order.set(high - 1, here);
            proof {
                lemma_stays_update(
                    samples@,
                    before,
                    *split,
                    start as int,
                    end as int,
                    low as int,
                    there,
                );
                lemma_stays_update(
                    samples@,
                    before.update(low as int, there),
                    *split,
                    start as int,
                    end as int,
                    high - 1,
                    here,
                );
                let range = before.subrange(start as int, end as int);
                let a = low - start;
                let b = high - 1 - start;
                assert(order@.subrange(start as int, end as int) =~= range.update(a, there).update(
                    b,
                    here,
                ));
                broadcast use vstd::multiset::group_multiset_axioms;

                assert(range[a] == here);
                assert(range.update(a, there)[b] == there);
                assert(range.contains(here));
                range.to_multiset_ensures();
                vstd::seq_lib::to_multiset_update(range, a, there);
                vstd::seq_lib::to_multiset_update(range.update(a, there), b, here);
                assert(range.update(a, there).update(b, here).to_multiset()
                    =~= range.to_multiset());
            }
            high -= 1;
        }
    }
    proof {
        lemma_stays_partitioned(samples@, order@, *split, start as int, low as int, end as int);
    }
    low
}

/// `positions` stand in ascending order of the targets that they name.
pub open spec fn by_target(positions: Seq<usize>, targets: Seq<isize>) -> bool {
    forall|a: int, b: int|
        0 <= a < b < positions.len() ==> targets[#[trigger] positions[a] as int]
            <= targets[#[trigger] positions[b] as int]
}

/// The positions in ascending order of their targets; positions with equal
/// targets keep their order.
pub fn sort_by_target(positions: &Vec<usize>, targets: &Vec<isize>) -> (sorted: Vec<usize>)
    requires
        indexes(positions@, targets@.len() as nat),
    ensures
        sorted@.len() == positions@.len(),
        sorted@.to_multiset() == positions@.to_multiset(),
        indexes(sorted@, targets@.len() as nat),
        by_target(sorted@, targets@),
{
    let mut sorted: Vec<usize> = Vec::new();
    let mut i: usize = 0;
    assert(sorted@ == positions@.take(0));
    while i < positions.len()
        invariant
            i <= positions@.len(),
            sorted@.len() == i,
            indexes(positions@, targets@.len() as nat),
            indexes(sorted@, targets@.len() as nat),
            by_target(sorted@, targets@),
            sorted@.to_multiset() == positions@.take(i as int).to_multiset(),
        decreases positions@.len() - i,
    {
        let position: usize = positions[i];
        let target: isize = targets[position];
        let mut at: usize = sorted.len();
        while at > 0 && targets[sorted[at - 1]] > target
            invariant
                at <= sorted@.len(),
                indexes(sorted@, targets@.len() as nat),
                forall|k: int| at <= k < sorted@.len() ==> targets@[#[trigger] sorted@[k] as int] > target,
            decreases at,
        {
            at -= 1;
        }
        let ghost before = sorted@;
        sorted.insert(at, position);
        proof {
            vstd::seq_lib::to_multiset_insert(before, at as int, position);
            assert(positions@.take(i + 1) == positions@.take(i as int).push(position));
            positions@.take(i as int).to_multiset_ensures();
            assert forall|k: int| 0 <= k < sorted@.len() implies #[trigger] sorted@[k]
                < targets@.len() by {
                if k < at {
                    assert(sorted@[k] == before[k]);
                } else if k > at {
                    assert(sorted@[k] == before[k - 1]);
                }
            }
            assert forall|a: int, b: int| 0 <= a < b < sorted@.len() implies targets@[#[trigger] sorted@[a] as int]
                <= targets@[#[trigger] sorted@[b] as int] by {
                if a < at && b > at {
                    assert(sorted@[a] == before[a] && sorted@[b] == before[b - 1]);
                } else if a < at && b < at {
                    assert(sorted@[a] == before[a] && sorted@[b] == before[b]);
                } else if a > at {
                    assert(sorted@[a] == before[a - 1] && sorted@[b] == before[b - 1]);
                } else if b == at {
                    assert(sorted@[a] == before[a]);
                    if at > 0 {
                        assert(targets@[before[at - 1] as int] <= target);
                        if a < at - 1 {
                            assert(targets@[before[a] as int] <= targets@[before[at - 1] as int]);
                        }
                    }
                } else {
                    assert(sorted@[b] == before[b - 1]);
                    assert(targets@[before[b - 1] as int] > target);
                }
            }
        }
        i += 1;
    }
    assert(positions@.take(i as int) == positions@);
    sorted
}

/// How many of `positions` name a target of 0.
pub open spec fn zero_targets(positions: Seq<usize>, targets: Seq<isize>) -> nat
    decreases positions.len(),
{
    if positions.len() == 0 {
        0
    } else {
        zero_targets(positions.drop_last(), targets) + if targets[positions.last() as int] == 0 {
            1nat
        } else {
            0nat
        }
    }
}

/// No more positions name a target of 0 than there are positions.
pub proof fn lemma_zero_targets_bounded(positions: Seq<usize>, targets: Seq<isize>)
    ensures
        zero_targets(positions, targets) <= positions.len(),
    decreases positions.len(),
{
    if positions.len() > 0 {
        lemma_zero_targets_bounded(positions.drop_last(), targets);
    }
}

/// How many of `positions` name a target of 0.
pub fn count_zero_targets(positions: &Vec<usize>, targets: &Vec<isize>) -> (count: usize)
    requires
        indexes(positions@, targets@.len() as nat),
    ensures
        count == zero_targets(positions@, targets@),
        count <= positions@.len(),
{
    let mut count: usize = 0;
    let mut k: usize = 0;
    while k < positions.len()
        invariant
            k <= positions@.len(),
            count == zero_targets(positions@.take(k as int), targets@),
            count <= k,
            indexes(positions@, targets@.len() as nat),
        decreases positions@.len() - k,
    {
        assert(positions@.take(k + 1).drop_last() == positions@.take(k as int));
        if targets[positions[k]] == 0 {
            count += 1;
        }
        k += 1;
    }
    assert(positions@.take(k as int) == positions@);
    count
}

/// Exchanges entry `i` of `train` with entry `j` of `test`: each takes the
/// other's place, and nothing else moves. Together the two hold what they
/// held.
fn exchange(train: &mut Vec<usize>, test: &mut Vec<usize>, i: usize, j: usize)
    requires
        i < old(train)@.len(),
        j < old(test)@.len(),
    ensures
        final(train)@ == old(train)@.update(i as int, old(test)@[j as int]),
        final(test)@ == old(test)@.update(j as int, old(train)@[i as int]),
        final(train)@.len() == old(train)@.len(),
        final(test)@.len() == old(test)@.len(),
        (final(train)@ + final(test)@).to_multiset() == (old(train)@ + old(test)@).to_multiset(),
{
    let ghost whole = train@ + test@;
    let a: usize = train[i];
    let b: usize = test[j];
    train.set(i, b);
    test.set(j, a);
    proof {
        broadcast use vstd::multiset::group_multiset_axioms;

        let there = old(train)@.len() + j;
        assert(train@ + test@ =~= whole.update(i as int, b).update(there, a));
        assert(whole[i as int] == a);
        assert(whole.update(i as int, b)[there] == b);
        assert(whole.contains(a));
        whole.to_multiset_ensures();
        vstd::seq_lib::to_multiset_update(whole, i as int, b);
        vstd::seq_lib::to_multiset_update(whole.update(i as int, b), there, a);
        assert(whole.update(i as int, b).update(there, a).to_multiset() =~= whole.to_multiset());
    }
}

/// Whether the share `count_a` of `len_a` exceeds the share `count_b` of
/// `len_b`.
fn share_exceeds(count_a: usize, len_a: usize, count_b: usize, len_b: usize) -> (yes: bool)
    ensures
        yes == (count_a * len_b > count_b * len_a),
{
    assert(count_a * len_b <= usize::MAX * usize::MAX && count_b * len_a <= usize::MAX * usize::MAX)
        by (nonlinear_arith)
        requires
            count_a <= usize::MAX,
            len_b <= usize::MAX,
            count_b <= usize::MAX,
            len_a <= usize::MAX,
    ;
    (count_a as u128) * (len_b as u128) > (count_b as u128) * (len_a as u128)
}

/// The two parts after entry `i` of the first and entry `j` of the second
/// have changed places.
pub open spec fn exchanged(train: Seq<usize>, test: Seq<usize>, i: int, j: int) -> (
    Seq<usize>,
    Seq<usize>,
) {
    (train.update(i, test[j]), test.update(j, train[i]))
}

/// The first round of exchanges, from pair `idx` on. Pair `idx` is entry
/// `idx` of the training part and the entry as far from the end of the test
/// part. A pair is exchanged while pairs are left, a target 0 is counted in
/// the training part, and the share of targets 0 counted in the test part
/// does not exceed that of the training part; each exchange counts as one
/// target 0 that goes from the training part to the test part. The result
/// is the two parts and the two counts when the round ends.
pub open spec fn balanced_up(
    train: Seq<usize>,
    test: Seq<usize>,
    count_train: nat,
    count_test: nat,
    limit: nat,
    idx: nat,
) -> (Seq<usize>, Seq<usize>, nat, nat)
    decreases limit - idx,
{
    if idx < limit && idx < train.len() && count_train >= 1 && count_test < usize::MAX && !(
    count_test * train.len() > count_train * test.len()) {
        let (a, b) = exchanged(train, test, idx as int, test.len() - idx - 1);
        balanced_up(a, b, (count_train - 1) as nat, count_test + 1, limit, idx + 1)
    } else {
        (train, test, count_train, count_test)
    }
}

/// The second round of exchanges, from pair `idx` on. Pair `idx` is entry
/// `idx` of the test part and the entry as far from the end of the training
/// part. A pair is exchanged while pairs are left, a target 0 is counted in
/// the test part, and the share of targets 0 counted in the training part
/// does not exceed that of the test part; each exchange counts as one
/// target 0 that goes from the test part to the training part.
pub open spec fn balanced_down(
    train: Seq<usize>,
    test: Seq<usize>,
    count_train: nat,
    count_test: nat,
    limit: nat,
    idx: nat,
) -> (Seq<usize>, Seq<usize>, nat, nat)
    decreases limit - idx,
{
    if idx < limit && idx < train.len() && count_test >= 1 && count_train < usize::MAX && !(
    count_train * test.len() > count_test * train.len()) {
        let (a, b) = exchanged(train, test, train.len() - idx - 1, idx as int);
        balanced_down(a, b, count_train + 1, (count_test - 1) as nat, limit, idx + 1)
    } else {
        (train, test, count_train, count_test)
    }
}

/// What stratifying makes of two parts that are sorted by target: the
/// first round of exchanges, started with the targets 0 that each part
/// holds, and then the second round, started with the counts that the first
/// has left. In each round the first and the last entry of the test part
/// stay out.
pub open spec fn stratified(train: Seq<usize>, test: Seq<usize>, targets: Seq<isize>) -> (
    Seq<usize>,
    Seq<usize>,
) {
    let limit = (test.len() - 1) as nat;
    let up = balanced_up(
        train,
        test,
        zero_targets(train, targets),
        zero_targets(test, targets),
        limit,
        1,
    );
    let down = balanced_down(up.0, up.1, up.2, up.3, limit, 1);
    (down.0, down.1)
}

/// `train` and `test` are a split of the positions of `targets` before it
/// is stratified: `test` holds `wanted` of them, the two hold every position
/// once between them, and each is sorted by target.
pub open spec fn sorted_split(
    train: Seq<usize>,
    test: Seq<usize>,
    targets: Seq<isize>,
    wanted: nat,
) -> bool {
    &&& test.len() == wanted
    &&& train.len() + test.len() == targets.len()
    &&& (train + test).no_duplicates()
    &&& indexes(train + test, targets.len())
    &&& by_target(train, targets)
    &&& by_target(test, targets)
}

/// The parts hold what stratifying makes of some sorted split.
pub open spec fn is_stratified(
    train: Seq<usize>,
    test: Seq<usize>,
    targets: Seq<isize>,
    wanted: nat,
) -> bool {
    exists|from_train: Seq<usize>, from_test: Seq<usize>| #[trigger]
        sorted_split(from_train, from_test, targets, wanted) && train.to_multiset() == stratified(
            from_train,
            from_test,
            targets,
        ).0.to_multiset() && test.to_multiset() == stratified(
            from_train,
            from_test,
            targets,
        ).1.to_multiset()
}

/// Splits the positions `0..n` of the targets into a training part and a
/// test part of `wanted` positions. Neither part is empty.
///
/// The positions are shuffled; the first `wanted` form the test part and
/// the rest the training part. With `stratify` both parts are then sorted
/// by target and exchange entries as `stratified` says. At the end each part
/// is shuffled.
///
/// Whatever is drawn, the two parts have their sizes and hold every
/// position once between them, and with `stratify` they hold what
/// stratifying makes of a sorted split.
pub fn train_test_split(
    targets: &Vec<isize>,
    wanted: usize,
    stratify: bool,
    random_state: &mut RandomGenerator,
) -> (parts: (Vec<usize>, Vec<usize>))
    requires
        1 <= wanted <= targets@.len() - 1,
    ensures
        parts.1@.len() == wanted,
        parts.0@.len() + parts.1@.len() == targets@.len(),
        (parts.0@ + parts.1@).no_duplicates(),
        indexes(parts.0@ + parts.1@, targets@.len() as nat),
        stratify ==> is_stratified(parts.0@, parts.1@, targets@, wanted as nat),
{
    let n: usize = targets.len();
    let test_size: usize = wanted;
    let mut test = identity_order(n);
    let ghost all = test@;
    assert(all.no_duplicates());
    shuffle(&mut test, random_state);
    proof {
        lemma_shuffle_keeps_distinct(all, test@);
    }
    let ghost shuffled = test@;
    let mut train = test.split_off(test_size);
    proof {
        broadcast use vstd::multiset::group_multiset_axioms;

        assert(test@ + train@ == shuffled);
        vstd::seq_lib::lemma_multiset_commutative(train@, test@);
        vstd::seq_lib::lemma_multiset_commutative(test@, train@);
        assert((train@ + test@).to_multiset() =~= shuffled.to_multiset());
        lemma_parts_index(all, train@, test@);
    }
    let ghost mut from_train: Seq<usize> = train@;
    let ghost mut from_test: Seq<usize> = test@;
    if stratify {
        let ghost unsorted_train = train@;
        let ghost unsorted_test = test@;
        train = sort_by_target(&train, targets);
        test = sort_by_target(&test, targets);
        proof {
            lemma_parts_rearranged(unsorted_train, unsorted_test, train@, test@);
            lemma_positions(all, train@ + test@);
            from_train = train@;
            from_test = test@;
        }
        assert(test@.len() == test_size);
        let mut count_train: usize = count_zero_targets(&train, targets);
        let mut count_test: usize = count_zero_targets(&test, targets);
        let train_len: usize = train.len();
        let test_len: usize = test.len();
        let limit: usize = test_size - 1;
        let ghost begun = balanced_up(
            from_train,
            from_test,
            count_train as nat,
            count_test as nat,
            limit as nat,
            1,
        );
        let mut idx: usize = 1;
        while idx < limit && idx < train_len && count_train >= 1 && count_test < usize::MAX
            && !share_exceeds(count_test, test_len, count_train, train_len)
            invariant
                train@.len() == train_len,
                test@.len() == test_len,
                test_len == test_size,
                limit == test_size - 1,
                1 <= idx,
                (train@ + test@).to_multiset() == all.to_multiset(),
                balanced_up(
                    train@,
                    test@,
                    count_train as nat,
                    count_test as nat,
                    limit as nat,
                    idx as nat,
                ) == begun,
            decreases limit - idx,
        {
            exchange(&mut train, &mut test, idx, test_len - idx - 1);
            count_train -= 1;
            count_test += 1;
            idx += 1;
        }
        assert(begun == (train@, test@, count_train as nat, count_test as nat));
        let ghost settled = balanced_down(
            train@,
            test@,
            count_train as nat,
            count_test as nat,
            limit as nat,
            1,
        );
        let mut idx: usize = 1;
        while idx < limit && idx < train_len && count_test >= 1 && count_train < usize::MAX
            && !share_exceeds(count_train, train_len, count_test, test_len)
            invariant
                train@.len() == train_len,
                test@.len() == test_len,
                test_len == test_size,
                limit == test_size - 1,
                1 <= idx,
                (train@ + test@).to_multiset() == all.to_multiset(),
                balanced_down(
                    train@,
                    test@,
                    count_train as nat,
                    count_test as nat,
                    limit as nat,
                    idx as nat,
                ) == settled,
            decreases limit - idx,
        {
            exchange(&mut train, &mut test, train_len - idx - 1, idx);
            count_train += 1;
            count_test -= 1;
            idx += 1;
        }
        assert(settled == (train@, test@, count_train as nat, count_test as nat));
        assert(stratified(from_train, from_test, targets@) == (train@, test@));
    }
    let ghost settled_train = train@;
    let ghost settled_test = test@;
    shuffle(&mut train, random_state);
    shuffle(&mut test, random_state);
    proof {
        lemma_parts_rearranged(settled_train, settled_test, train@, test@);
        lemma_positions(all, train@ + test@);
        test@.to_multiset_ensures();
        settled_test.to_multiset_ensures();
        if stratify {
            assert(sorted_split(from_train, from_test, targets@, wanted as nat));
        }
    }
    (train, test)
}

/// Two parts that together hold the positions `0..n` hold positions only.
proof fn lemma_parts_index(all: Seq<usize>, train: Seq<usize>, test: Seq<usize>)
    requires
        forall|k: int| 0 <= k < all.len() ==> #[trigger] all[k] == k,
        (train + test).to_multiset() == all.to_multiset(),
    ensures
        indexes(train, all.len()),
        indexes(test, all.len()),
        train.len() + test.len() == all.len(),
{
    lemma_positions(all, train + test);
    assert forall|k: int| 0 <= k < train.len() implies #[trigger] train[k] < all.len() by {
        assert((train + test)[k] == train[k]);
    }
    assert forall|k: int| 0 <= k < test.len() implies #[trigger] test[k] < all.len() by {
        assert((train + test)[train.len() + k] == test[k]);
    }
}

/// Rearranging each of two parts leaves what they hold together.
proof fn lemma_parts_rearranged(
    train: Seq<usize>,
    test: Seq<usize>,
    new_train: Seq<usize>,
    new_test: Seq<usize>,
)
    requires
        new_train.to_multiset() == train.to_multiset(),
        new_test.to_multiset() == test.to_multiset(),
    ensures
        (new_train + new_test).to_multiset() == (train + test).to_multiset(),
{
    vstd::seq_lib::lemma_multiset_commutative(train, test);
    vstd::seq_lib::lemma_multiset_commutative(new_train, new_test);
}

/// A rearrangement of the positions `0..n` holds every position once and
/// nothing else.
proof fn lemma_positions(all: Seq<usize>, mixed: Seq<usize>)
    requires
        forall|k: int| 0 <= k < all.len() ==> #[trigger] all[k] == k,
        mixed.to_multiset() == all.to_multiset(),
    ensures
        mixed.no_duplicates(),
        mixed.len() == all.len(),
        indexes(mixed, all.len()),
{
    assert(all.no_duplicates());
    lemma_shuffle_keeps_distinct(all, mixed);
    assert forall|k: int| 0 <= k < mixed.len() implies #[trigger] mixed[k] < all.len() by {
        assert(mixed.contains(mixed[k]));
        let at = choose|at: int| 0 <= at < all.len() && all[at] == mixed[k];
        assert(all[at] == at);
    }
}

} // verus!

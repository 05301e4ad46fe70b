//! Pairwise dissimilarities read off fitted trees.
//!
//! Three measures are built on where two samples fall in a tree: whether
//! they share a leaf, how deep their lowest common ancestor lies, and on how
//! many of the rules on their ways they agree. Each is stated here for one
//! tree and one pair as a count or a ratio of counts; an ensemble's distance
//! is an average of those over its trees.

use crate::tree::ancestor::compute_ancestor;
use crate::tree::ancestor::lemma_lowest_common_depth;
use crate::tree::ancestor::lowest_common;
use crate::tree::ciso_tree::CIsoTree;
use crate::tree::node::Node;
use crate::tree::tree::arena_wf;
use crate::tree::tree::descend;
use crate::tree::tree::rules_from;
use crate::tree::tree::StandardSplit;
use crate::utils::structures::Sample;
use vstd::prelude::*;

verus! {

/// A ratio of two counts, between 0 and 1.
#[derive(Clone, Copy, Debug, PartialEq, Eq, Structural)]
pub struct Ratio {
    pub num: usize,
    pub den: usize,
}

impl Ratio {
    /// The ratio lies between 0 and 1.
    pub open spec fn wf(self) -> bool {
        self.num <= self.den && self.den >= 1
    }

    /// The ratio is 1.
    pub open spec fn is_one(self) -> bool {
        self.num == self.den && self.den >= 1
    }
}

/// Every sample of `data` has a key for every feature that `tree` reads.
pub open spec fn fits(tree: &CIsoTree, data: Seq<Sample>) -> bool {
    forall|i: int|
        0 <= i < data.len() ==> (#[trigger] data[i]).features@.len() >= tree.feature_count()
}

/// The leaf of `tree` that the sample falls into.
pub open spec fn leaf_of(tree: &CIsoTree, sample: Sample) -> int {
    descend(tree.arena(), sample.features@, 0)
}

/// For every sample of `data` the position of its leaf in `tree`.
pub fn leaves_of(tree: &CIsoTree, data: &Vec<Sample>) -> (leaves: Vec<usize>)
    requires
        tree.wf(),
        tree.fitted(),
        fits(tree, data@),
    ensures
        leaves@.len() == data@.len(),
        forall|i: int|
            0 <= i < data@.len() ==> #[trigger] leaves@[i] == leaf_of(tree, data@[i]) && leaves@[i]
                < tree.arena().len() && tree.arena()[leaves@[i] as int].is_leaf(),
{
    let mut leaves: Vec<usize> = Vec::new();
    let mut i: usize = 0;
    proof {
        tree.lemma_wf();
    }
    while i < data.len()
        invariant
            i <= data@.len(),
            tree.wf(),
            tree.fitted(),
            fits(tree, data@),
            arena_wf(tree.arena()),
            leaves@.len() == i,
            forall|k: int|
                0 <= k < i ==> #[trigger] leaves@[k] == leaf_of(tree, data@[k]) && leaves@[k]
                    < tree.arena().len() && tree.arena()[leaves@[k] as int].is_leaf(),
        decreases data@.len() - i,
    {
        let leaf = tree.predict_leaf(&data[i]);
        let id: usize = leaf.get_id();
        assert(id == descend(tree.arena(), data@[i as int].features@, 0));
        leaves.push(id);
        i += 1;
    }
    leaves
}

/// The two samples fall into different leaves of `tree`.
pub open spec fn apart(tree: &CIsoTree, a: Sample, b: Sample) -> bool {
    leaf_of(tree, a) != leaf_of(tree, b)
}

/// For one tree, whether sample `i` of `ds_a` and sample `j` of `ds_b` fall
/// into different leaves; without `ds_b`, `ds_a` is compared with itself.
pub fn breiman_tree(tree: &CIsoTree, ds_a: &Vec<Sample>, ds_b: Option<&Vec<Sample>>) -> (marks:
    Vec<Vec<bool>>)
    requires
        tree.wf(),
        tree.fitted(),
        fits(tree, ds_a@),
        ds_b matches Some(other) ==> fits(tree, other@),
    ensures
        marks@.len() == ds_a@.len(),
        forall|i: int|
            0 <= i < marks@.len() ==> (#[trigger] marks@[i])@.len() == second_of(ds_a, ds_b)@.len(),
        forall|i: int, j: int|
            0 <= i < ds_a@.len() && 0 <= j < second_of(ds_a, ds_b)@.len() ==> #[trigger] marks@[i]@[j]
                == apart(tree, ds_a@[i], second_of(ds_a, ds_b)@[j]),
{
    let leaves_a = leaves_of(tree, ds_a);
    let leaves_b = match ds_b {
        Some(other) => leaves_of(tree, other),
        None => leaves_a.clone(),
    };
    let ghost second = second_of(ds_a, ds_b)@;
    let mut marks: Vec<Vec<bool>> = Vec::new();
    let mut i: usize = 0;
    while i < leaves_a.len()
        invariant
            i <= leaves_a@.len(),
            leaves_a@.len() == ds_a@.len(),
            leaves_b@.len() == second.len(),
            forall|k: int| 0 <= k < ds_a@.len() ==> #[trigger] leaves_a@[k] == leaf_of(tree, ds_a@[k]),
            forall|k: int| 0 <= k < second.len() ==> #[trigger] leaves_b@[k] == leaf_of(tree, second[k]),
            marks@.len() == i,
            forall|r: int| 0 <= r < i ==> (#[trigger] marks@[r])@.len() == second.len(),
            forall|r: int, c: int|
                0 <= r < i && 0 <= c < second.len() ==> #[trigger] marks@[r]@[c] == apart(
                    tree,
                    ds_a@[r],
                    second[c],
                ),
        decreases leaves_a@.len() - i,
    {
        let mut row: Vec<bool> = Vec::new();
        let mut j: usize = 0;
        while j < leaves_b.len()
            invariant
                i < leaves_a@.len(),
                j <= leaves_b@.len(),
                leaves_a@.len() == ds_a@.len(),
                leaves_b@.len() == second.len(),
                leaves_a@[i as int] == leaf_of(tree, ds_a@[i as int]),
                forall|k: int|
                    0 <= k < second.len() ==> #[trigger] leaves_b@[k] == leaf_of(tree, second[k]),
                row@.len() == j,
                forall|c: int|
                    0 <= c < j ==> #[trigger] row@[c] == apart(tree, ds_a@[i as int], second[c]),
            decreases leaves_b@.len() - j,
        {
            row.push(leaves_a[i] != leaves_b[j]);
            j += 1;
        }
        marks.push(row);
        i += 1;
    }
    marks
}

/// The second data set of a comparison: the one given, or else the first.
pub open spec fn second_of<'a>(ds_a: &'a Vec<Sample>, ds_b: Option<&'a Vec<Sample>>) -> &'a Vec<
    Sample,
> {
    match ds_b {
        Some(other) => other,
        None => ds_a,
    }
}

/// A sample is never apart from itself.
pub proof fn lemma_breiman_self(tree: &CIsoTree, a: Sample)
    ensures
        !apart(tree, a, a),
{
}

/// Comparing a data set with nothing is comparing it with itself.
pub proof fn lemma_breiman_default(ds_a: &Vec<Sample>)
    ensures
        second_of(ds_a, None) == second_of(ds_a, Some(ds_a)),
{
}

/// The share of the deeper of two leaves' depths that their lowest common
/// ancestor reaches. Two leaves at depth 0 are one leaf, the root, and
/// their share is 1.
pub open spec fn zhu_ratio(nodes: Seq<Node<StandardSplit>>, leaf_a: int, leaf_b: int) -> Ratio {
    let shared = nodes[lowest_common(nodes, leaf_a, leaf_b)].depth_of();
    let depth_a = nodes[leaf_a].depth_of();
    let depth_b = nodes[leaf_b].depth_of();
    let deeper = if depth_a >= depth_b {
        depth_a
    } else {
        depth_b
    };
    if deeper == 0 {
        Ratio { num: 1, den: 1 }
    } else {
        Ratio { num: shared, den: deeper }
    }
}

/// The share lies between 0 and 1, and it is 1 for a leaf and itself.
pub proof fn lemma_zhu_ratio(nodes: Seq<Node<StandardSplit>>, leaf_a: int, leaf_b: int)
    requires
        arena_wf(nodes),
        0 <= leaf_a < nodes.len(),
        0 <= leaf_b < nodes.len(),
    ensures
        zhu_ratio(nodes, leaf_a, leaf_b).wf(),
        leaf_a == leaf_b ==> zhu_ratio(nodes, leaf_a, leaf_b).is_one(),
{
    lemma_lowest_common_depth(nodes, leaf_a, leaf_b);
}

/// For one tree and every pair of a sample of `ds_a` and a sample of
/// `ds_b`, the share of the deeper leaf's depth that the lowest common
/// ancestor of their leaves reaches; without `ds_b`, `ds_a` is compared
/// with itself.
pub fn zhu_tree(tree: &CIsoTree, ds_a: &Vec<Sample>, ds_b: Option<&Vec<Sample>>) -> (shares: Vec<
    Vec<Ratio>,
>)
    requires
        tree.wf(),
        tree.fitted(),
        fits(tree, ds_a@),
        ds_b matches Some(other) ==> fits(tree, other@),
    ensures
        shares@.len() == ds_a@.len(),
        forall|i: int|
            0 <= i < shares@.len() ==> (#[trigger] shares@[i])@.len() == second_of(ds_a, ds_b)@.len(),
        forall|i: int, j: int|
            0 <= i < ds_a@.len() && 0 <= j < second_of(ds_a, ds_b)@.len() ==> #[trigger] shares@[i]@[j]
                == zhu_ratio(
                tree.arena(),
                leaf_of(tree, ds_a@[i]),
                leaf_of(tree, second_of(ds_a, ds_b)@[j]),
            ) && shares@[i]@[j].wf(),
{
    let leaves_a = leaves_of(tree, ds_a);
    let leaves_b = match ds_b {
        Some(other) => leaves_of(tree, other),
        None => leaves_a.clone(),
    };
    let ghost second = second_of(ds_a, ds_b)@;
    let ghost nodes = tree.arena();
    proof {
        tree.lemma_wf();
    }
    let mut shares: Vec<Vec<Ratio>> = Vec::new();
    let mut i: usize = 0;
    while i < leaves_a.len()
        invariant
            i <= leaves_a@.len(),
            tree.wf(),
            tree.fitted(),
            nodes == tree.arena(),
            arena_wf(nodes),
            leaves_a@.len() == ds_a@.len(),
            leaves_b@.len() == second.len(),
            forall|k: int|
                0 <= k < ds_a@.len() ==> #[trigger] leaves_a@[k] == leaf_of(tree, ds_a@[k])
                    && leaves_a@[k] < nodes.len() && nodes[leaves_a@[k] as int].is_leaf(),
            forall|k: int|
                0 <= k < second.len() ==> #[trigger] leaves_b@[k] == leaf_of(tree, second[k])
                    && leaves_b@[k] < nodes.len(),
            shares@.len() == i,
            forall|r: int| 0 <= r < i ==> (#[trigger] shares@[r])@.len() == second.len(),
            forall|r: int, c: int|
                0 <= r < i && 0 <= c < second.len() ==> #[trigger] shares@[r]@[c] == zhu_ratio(
                    nodes,
                    leaf_of(tree, ds_a@[r]),
                    leaf_of(tree, second[c]),
                ) && shares@[r]@[c].wf(),
        decreases leaves_a@.len() - i,
    {
        let leaf_a: usize = leaves_a[i];
        let ancestors = tree.compute_ancestor(leaf_a);
        let depth_a: usize = tree.get_node_at(leaf_a).get_depth();
        let mut row: Vec<Ratio> = Vec::new();
        let mut j: usize = 0;
        while j < leaves_b.len()
            invariant
                i < leaves_a@.len(),
                j <= leaves_b@.len(),
                tree.wf(),
                tree.fitted(),
                nodes == tree.arena(),
                arena_wf(nodes),
                leaf_a < nodes.len(),
                leaf_a == leaf_of(tree, ds_a@[i as int]),
                depth_a == nodes[leaf_a as int].depth_of(),
                leaves_b@.len() == second.len(),
                ancestors@.len() == nodes.len(),
                forall|v: int|
                    0 <= v < nodes.len() ==> #[trigger] ancestors@[v] == lowest_common(
                        nodes,
                        leaf_a as int,
                        v,
                    ),
                forall|k: int|
                    0 <= k < second.len() ==> #[trigger] leaves_b@[k] == leaf_of(tree, second[k])
                        && leaves_b@[k] < nodes.len(),
                row@.len() == j,
                forall|c: int|
                    0 <= c < j ==> #[trigger] row@[c] == zhu_ratio(
                        nodes,
                        leaf_a as int,
                        leaf_of(tree, second[c]),
                    ) && row@[c].wf(),
            decreases leaves_b@.len() - j,
        {
            let leaf_b: usize = leaves_b[j];
            proof {
                lemma_lowest_common_depth(nodes, leaf_a as int, leaf_b as int);
                lemma_zhu_ratio(nodes, leaf_a as int, leaf_b as int);
            }
            let shared: usize = tree.get_node_at(ancestors[leaf_b]).get_depth();
            let depth_b: usize = tree.get_node_at(leaf_b).get_depth();
            let deeper: usize = if depth_a >= depth_b {
                depth_a
            } else {
                depth_b
            };
            let share = if deeper == 0 {
                Ratio { num: 1, den: 1 }
            } else {
                Ratio { num: shared, den: deeper }
            };
            row.push(share);
            j += 1;
        }
        shares.push(row);
        i += 1;
    }
    shares
}

/// The rule sends both feature vectors the same way.
pub open spec fn agrees(rule: StandardSplit, a: Seq<i64>, b: Seq<i64>) -> bool {
    rule.branch_of(a) == rule.branch_of(b)
}

/// How many of `rules` send both feature vectors the same way.
pub open spec fn agreeing(rules: Seq<StandardSplit>, a: Seq<i64>, b: Seq<i64>) -> nat
    decreases rules.len(),
{
    if rules.len() == 0 {
        0
    } else {
        agreeing(rules.drop_last(), a, b) + if agrees(rules.last(), a, b) {
            1nat
        } else {
            0nat
        }
    }
}

/// The share of the distinct rules on two ways on which two feature
/// vectors agree. Where there is no rule at all, the share is 1.
pub open spec fn ratiorf_ratio(
    rules_a: Seq<StandardSplit>,
    rules_b: Seq<StandardSplit>,
    a: Seq<i64>,
    b: Seq<i64>,
) -> Ratio {
    let union = (rules_a + rules_b).to_set();
    if union.len() == 0 {
        Ratio { num: 1, den: 1 }
    } else {
        Ratio {
            num: union.filter(|rule: StandardSplit| agrees(rule, a, b)).len() as usize,
            den: union.len() as usize,
        }
    }
}

/// The share of rules on which two feature vectors agree lies between 0
/// and 1.
pub proof fn lemma_ratiorf_ratio(
    rules_a: Seq<StandardSplit>,
    rules_b: Seq<StandardSplit>,
    a: Seq<i64>,
    b: Seq<i64>,
)
    requires
        rules_a.len() + rules_b.len() <= usize::MAX,
    ensures
        ratiorf_ratio(rules_a, rules_b, a, b).wf(),
{
    let both = rules_a + rules_b;
    let union = both.to_set();
    let kept = union.filter(|rule: StandardSplit| agrees(rule, a, b));
    vstd::seq_lib::seq_to_set_is_finite(both);
    both.lemma_cardinality_of_set();
    vstd::set_lib::lemma_len_subset(kept, union);
}

/// Of distinct rules, as many agree as the set of them that agree has
/// members.
proof fn lemma_agreeing_is_filter(rules: Seq<StandardSplit>, a: Seq<i64>, b: Seq<i64>)
    requires
        rules.no_duplicates(),
    ensures
        rules.to_set().finite(),
        rules.to_set().len() == rules.len(),
        rules.to_set().filter(|rule: StandardSplit| agrees(rule, a, b)).len() == agreeing(
            rules,
            a,
            b,
        ),
        agreeing(rules, a, b) <= rules.len(),
    decreases rules.len(),
{
    broadcast use vstd::set::group_set_axioms;

    let keep = |rule: StandardSplit| agrees(rule, a, b);
    vstd::seq_lib::seq_to_set_is_finite(rules);
    rules.unique_seq_to_set();
    if rules.len() == 0 {
        assert(rules.to_set() =~= Set::<StandardSplit>::empty());
        assert(rules.to_set().filter(keep) =~= Set::<StandardSplit>::empty());
    } else {
        let front = rules.drop_last();
        let last = rules.last();
        lemma_agreeing_is_filter(front, a, b);
        assert(!front.contains(last)) by {
            if front.contains(last) {
                let k = choose|k: int| 0 <= k < front.len() && front[k] == last;
                assert(rules[k] == rules[rules.len() - 1]);
            }
        }
        assert(rules.to_set() =~= front.to_set().insert(last)) by {
            assert forall|rule: StandardSplit| rules.to_set().contains(rule) <==> front.to_set().insert(
                last,
            ).contains(rule) by {
                if rules.contains(rule) {
                    let k = choose|k: int| 0 <= k < rules.len() && rules[k] == rule;
                    if k < front.len() {
                        assert(front[k] == rule);
                    }
                }
                if front.contains(rule) {
                    let k = choose|k: int| 0 <= k < front.len() && front[k] == rule;
                    assert(rules[k] == rule);
                }
                if rule == last {
                    assert(rules[rules.len() - 1] == rule);
                }
            }
        }
        if agrees(last, a, b) {
            assert(rules.to_set().filter(keep) =~= front.to_set().filter(keep).insert(last));
        } else {
            assert(rules.to_set().filter(keep) =~= front.to_set().filter(keep));
        }
    }
}

/// Whether `rules` holds `rule`.
fn holds_rule(rules: &Vec<StandardSplit>, rule: StandardSplit) -> (found: bool)
    ensures
        found == rules@.contains(rule),
{
    let mut k: usize = 0;
    while k < rules.len()
        invariant
            k <= rules@.len(),
            forall|i: int| 0 <= i < k ==> #[trigger] rules@[i] != rule,
        decreases rules@.len() - k,
    {
        if rules[k] == rule {
            return true;
        }
        k += 1;
    }
    false
}

/// Adds to `union` the rules of `more` that it does not hold yet.
fn gather(union: &mut Vec<StandardSplit>, more: &Vec<StandardSplit>)
    requires
        old(union)@.no_duplicates(),
    ensures
        final(union)@.no_duplicates(),
        final(union)@.to_set() == (old(union)@ + more@).to_set(),
{
    let ghost start = union@;
    let mut k: usize = 0;
    assert(start + more@.take(0) == start);
    while k < more.len()
        invariant
            k <= more@.len(),
            union@.no_duplicates(),
            union@.to_set() == (start + more@.take(k as int)).to_set(),
        decreases more@.len() - k,
    {
        let rule = more[k];
        let ghost before = union@;
        let known: bool = holds_rule(union, rule);
        if !known {
            union.push(rule);
        }
        proof {
            let seen = start + more@.take(k as int);
            let next = start + more@.take(k + 1);
            assert(next == seen.push(rule));
            assert forall|r: StandardSplit| union@.to_set().contains(r) <==> next.to_set().contains(
                r,
            ) by {
                assert(before.to_set().contains(r) <==> seen.to_set().contains(r));
                if union@.contains(r) {
                    let w = choose|w: int| 0 <= w < union@.len() && union@[w] == r;
                    if w < before.len() {
                        assert(before[w] == r);
                        assert(before.contains(r));
                        let v = choose|v: int| 0 <= v < seen.len() && seen[v] == r;
                        assert(next[v] == r);
                    } else {
                        assert(next[next.len() - 1] == r);
                    }
                }
                if next.contains(r) {
                    let v = choose|v: int| 0 <= v < next.len() && next[v] == r;
                    if v < seen.len() {
                        assert(seen[v] == r);
                        assert(seen.contains(r));
                        let w = choose|w: int| 0 <= w < before.len() && before[w] == r;
                        assert(union@[w] == r);
                    } else if known {
                        let w = choose|w: int| 0 <= w < before.len() && before[w] == r;
                        assert(union@[w] == r);
                    } else {
                        assert(union@[union@.len() - 1] == r);
                    }
                }
            }
            assert(union@.to_set() =~= next.to_set());
        }
        k += 1;
    }
    assert(more@.take(k as int) == more@);
}

/// The share of the distinct rules of two ways on which two samples agree.
pub fn rule_agreement(
    rules_a: &Vec<StandardSplit>,
    rules_b: &Vec<StandardSplit>,
    a: &Sample,
    b: &Sample,
) -> (share: Ratio)
    requires
        forall|k: int| 0 <= k < rules_a@.len() ==> (#[trigger] rules_a@[k]).feature < a.features@.len(),
        forall|k: int| 0 <= k < rules_a@.len() ==> (#[trigger] rules_a@[k]).feature < b.features@.len(),
        forall|k: int| 0 <= k < rules_b@.len() ==> (#[trigger] rules_b@[k]).feature < a.features@.len(),
        forall|k: int| 0 <= k < rules_b@.len() ==> (#[trigger] rules_b@[k]).feature < b.features@.len(),
    ensures
        share == ratiorf_ratio(rules_a@, rules_b@, a.features@, b.features@),
        share.wf(),
{
    let mut union: Vec<StandardSplit> = Vec::new();
    let ghost nothing = union@;
    gather(&mut union, rules_a);
    let ghost first = union@;
    gather(&mut union, rules_b);
    proof {
        assert(nothing + rules_a@ == rules_a@);
        assert forall|r: StandardSplit| union@.to_set().contains(r) <==> (rules_a@
            + rules_b@).to_set().contains(r) by {
            let both = rules_a@ + rules_b@;
            let mixed = first + rules_b@;
            assert(union@.to_set().contains(r) <==> mixed.to_set().contains(r));
            if mixed.contains(r) {
                let v = choose|v: int| 0 <= v < mixed.len() && mixed[v] == r;
                if v < first.len() {
                    assert(first[v] == r);
                    assert(first.to_set().contains(r));
                    assert(rules_a@.contains(r));
                    let w = choose|w: int| 0 <= w < rules_a@.len() && rules_a@[w] == r;
                    assert(both[w] == r);
                } else {
                    assert(rules_b@[v - first.len()] == r);
                    assert(both[rules_a@.len() + (v - first.len())] == r);
                }
            }
            if both.contains(r) {
                let v = choose|v: int| 0 <= v < both.len() && both[v] == r;
                if v < rules_a@.len() {
                    assert(rules_a@[v] == r);
                    assert(rules_a@.to_set().contains(r));
                    assert(first.contains(r));
                    let w = choose|w: int| 0 <= w < first.len() && first[w] == r;
                    assert(mixed[w] == r);
                } else {
                    assert(rules_b@[v - rules_a@.len()] == r);
                    assert(mixed[first.len() + (v - rules_a@.len())] == r);
                }
            }
        }
        assert(union@.to_set() =~= (rules_a@ + rules_b@).to_set());
        lemma_agreeing_is_filter(union@, a.features@, b.features@);
        assert forall|k: int| 0 <= k < union@.len() implies (#[trigger] union@[k]).feature
            < a.features@.len() && union@[k].feature < b.features@.len() by {
            assert(union@.to_set().contains(union@[k]));
            let both = rules_a@ + rules_b@;
            assert(both.contains(union@[k]));
            let v = choose|v: int| 0 <= v < both.len() && both[v] == union@[k];
            if v < rules_a@.len() {
                assert(rules_a@[v] == union@[k]);
            } else {
                assert(rules_b@[v - rules_a@.len()] == union@[k]);
            }
        }
    }
    if union.len() == 0 {
        return Ratio { num: 1, den: 1 };
    }
    let mut agree: usize = 0;
    let mut k: usize = 0;
    while k < union.len()
        invariant
            k <= union@.len(),
            agree == agreeing(union@.take(k as int), a.features@, b.features@),
            agree <= k,
            forall|i: int|
                0 <= i < union@.len() ==> (#[trigger] union@[i]).feature < a.features@.len()
                    && union@[i].feature < b.features@.len(),
        decreases union@.len() - k,
    {
        assert(union@.take(k + 1).drop_last() == union@.take(k as int));
        if union[k].split(a) == union[k].split(b) {
            agree += 1;
        }
        k += 1;
    }
    assert(union@.take(k as int) == union@);
    Ratio { num: agree, den: union.len() }
}

/// For one tree and every pair of a sample of `ds_a` and a sample of
/// `ds_b`, the share of the distinct rules on their two ways on which they
/// agree; without `ds_b`, `ds_a` is compared with itself.
pub fn ratiorf_tree(tree: &CIsoTree, ds_a: &Vec<Sample>, ds_b: Option<&Vec<Sample>>) -> (shares:
    Vec<Vec<Ratio>>)
    requires
        tree.wf(),
        tree.fitted(),
        fits(tree, ds_a@),
        ds_b matches Some(other) ==> fits(tree, other@),
    ensures
        shares@.len() == ds_a@.len(),
        forall|i: int|
            0 <= i < shares@.len() ==> (#[trigger] shares@[i])@.len() == second_of(ds_a, ds_b)@.len(),
        forall|i: int, j: int|
            0 <= i < ds_a@.len() && 0 <= j < second_of(ds_a, ds_b)@.len() ==> #[trigger] shares@[i]@[j]
                == ratiorf_ratio(
                rules_from(tree.arena(), ds_a@[i].features@, 0),
                rules_from(tree.arena(), second_of(ds_a, ds_b)@[j].features@, 0),
                ds_a@[i].features@,
                second_of(ds_a, ds_b)@[j].features@,
            ) && shares@[i]@[j].wf(),
{
    let second: &Vec<Sample> = match ds_b {
        Some(other) => other,
        None => ds_a,
    };
    let ghost nodes = tree.arena();
    let mut shares: Vec<Vec<Ratio>> = Vec::new();
    let mut i: usize = 0;
    while i < ds_a.len()
        invariant
            i <= ds_a@.len(),
            tree.wf(),
            tree.fitted(),
            nodes == tree.arena(),
            fits(tree, ds_a@),
            fits(tree, second@),
            second == second_of(ds_a, ds_b),
            shares@.len() == i,
            forall|r: int| 0 <= r < i ==> (#[trigger] shares@[r])@.len() == second@.len(),
            forall|r: int, c: int|
                0 <= r < i && 0 <= c < second@.len() ==> #[trigger] shares@[r]@[c] == ratiorf_ratio(
                    rules_from(nodes, ds_a@[r].features@, 0),
                    rules_from(nodes, second@[c].features@, 0),
                    ds_a@[r].features@,
                    second@[c].features@,
                ) && shares@[r]@[c].wf(),
        decreases ds_a@.len() - i,
    {
        let rules_a = tree.get_splits(&ds_a[i]);
        let mut row: Vec<Ratio> = Vec::new();
        let mut j: usize = 0;
        while j < second.len()
            invariant
                i < ds_a@.len(),
                j <= second@.len(),
                tree.wf(),
                tree.fitted(),
                nodes == tree.arena(),
                fits(tree, ds_a@),
                fits(tree, second@),
                rules_a@ == rules_from(nodes, ds_a@[i as int].features@, 0),
                row@.len() == j,
                forall|c: int|
                    0 <= c < j ==> #[trigger] row@[c] == ratiorf_ratio(
                        rules_a@,
                        rules_from(nodes, second@[c].features@, 0),
                        ds_a@[i as int].features@,
                        second@[c].features@,
                    ) && row@[c].wf(),
            decreases second@.len() - j,
        {
            let rules_b = tree.get_splits(&second[j]);
            proof {
                tree.lemma_rules_read(ds_a@[i as int].features@);
                tree.lemma_rules_read(second@[j as int].features@);
            }
            let share = rule_agreement(&rules_a, &rules_b, &ds_a[i], &second[j]);
            row.push(share);
            j += 1;
        }
        shares.push(row);
        i += 1;
    }
    shares
}

} // verus!

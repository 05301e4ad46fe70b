//! Counting and reshaping helpers.

use vstd::prelude::*;

verus! {

/// A table from class labels to counts, kept in a hashbrown `HashMap`.
#[verifier::external_body]
pub struct ClassCounts {
    table: hashbrown::HashMap<isize, usize>,
}

/// The entries of a count table.
pub uninterp spec fn counted(counts: ClassCounts) -> Map<isize, usize>;

/// `HashMap::new` of hashbrown: a table without entries.
#[verifier::external_body]
pub(crate) fn counts_new() -> (counts: ClassCounts)
    ensures
        (counted(counts) == Map::<isize, usize>::empty()),
{
    ClassCounts { table: hashbrown::HashMap::new() }
}

/// `HashMap::get` of hashbrown: the count stored under `class`, if there is
/// one.
#[verifier::external_body]
pub(crate) fn counts_get(counts: &ClassCounts, class: isize) -> (count: Option<usize>)
    ensures
        count == (if counted(*counts).dom().contains(class) {
            Some(counted(*counts)[class])
        } else {
            None
        }),
{
    counts.table.get(&class).copied()
}

/// `HashMap::insert` of hashbrown: afterwards `class` maps to `count`, and
/// every other entry is as before.
#[verifier::external_body]
pub(crate) fn counts_put(counts: &mut ClassCounts, class: isize, count: usize)
    ensures
        counted(*final(counts)) == counted(*old(counts)).insert(class, count),
{
    counts.table.insert(class, count);
}

/// `HashMap::iter` of hashbrown, collected: every entry of the table once,
/// in an order that is not specified.
#[verifier::external_body]
pub(crate) fn counts_entries(counts: &ClassCounts) -> (entries: Vec<(isize, usize)>)
    ensures
        forall|i: int|
            0 <= i < entries@.len() ==> counted(*counts).dom().contains((#[trigger] entries@[i]).0)
                && counted(*counts)[entries@[i].0] == entries@[i].1,
        forall|class: isize| #[trigger]
            counted(*counts).dom().contains(class) ==> exists|i: int|
                0 <= i < entries@.len() && (#[trigger] entries@[i]).0 == class,
        forall|i: int, j: int|
            0 <= i < j < entries@.len() ==> (#[trigger] entries@[i]).0 != (#[trigger] entries@[j]).0,
{
    counts.table.iter().map(|(class, count)| (*class, *count)).collect()
}

/// How often `label` occurs in `labels`.
pub open spec fn occurrences(labels: Seq<isize>, label: isize) -> nat
    decreases labels.len(),
{
    if labels.len() == 0 {
        0
    } else {
        occurrences(labels.drop_last(), label) + if labels.last() == label {
            1nat
        } else {
            0nat
        }
    }
}

/// A label occurs no more often than there are labels.
pub proof fn lemma_occurrences_bounded(labels: Seq<isize>, label: isize)
    ensures
        occurrences(labels, label) <= labels.len(),
    decreases labels.len(),
{
    if labels.len() > 0 {
        lemma_occurrences_bounded(labels.drop_last(), label);
    }
}

/// `winner` is a most frequent label of `labels`; of no labels, it is 0.
pub open spec fn is_majority(labels: Seq<isize>, winner: isize) -> bool {
    if labels.len() == 0 {
        winner == 0
    } else {
        &&& occurrences(labels, winner) > 0
        &&& forall|other: isize| occurrences(labels, other) <= occurrences(labels, winner)
    }
}

/// A most frequent label of `labels`, and 0 when there is none. Which one
/// wins a tie is left open.
pub fn majority_label(labels: &Vec<isize>) -> (winner: isize)
    ensures
        is_majority(labels@, winner),
{
    let mut counts = counts_new();
    let mut i: usize = 0;
    while i < labels.len()
        invariant
            i <= labels@.len(),
            forall|class: isize|
                counted(counts).dom().contains(class) <==> occurrences(labels@.take(i as int), class)
                    > 0,
            forall|class: isize|
                counted(counts).dom().contains(class) ==> counted(counts)[class] == occurrences(
                    labels@.take(i as int),
                    class,
                ),
        decreases labels@.len() - i,
    {
        let label: isize = labels[i];
        proof {
            assert(labels@.take(i + 1).drop_last() == labels@.take(i as int));
            lemma_occurrences_bounded(labels@.take(i as int), label);
        }
        let seen: usize = match counts_get(&counts, label) {
            Some(count) => count,
            None => 0,
        };
        counts_put(&mut counts, label, seen + 1);
        i += 1;
    }
    assert(labels@.take(i as int) == labels@);
    let entries = counts_entries(&counts);
    let mut max_count: usize = 0;
    let mut winner: isize = 0;
    let mut j: usize = 0;
    while j < entries.len()
        invariant
            j <= entries@.len(),
            forall|k: int| 0 <= k < j ==> (#[trigger] entries@[k]).1 <= max_count,
            (max_count == 0 && winner == 0) || (max_count > 0 && exists|k: int|
                0 <= k < j && #[trigger] entries@[k] == (winner, max_count)),
        decreases entries@.len() - j,
    {
        let (class, count) = entries[j];
        if count > max_count {
            max_count = count;
            winner = class;
        }
        j += 1;
    }
    proof {
        if labels@.len() > 0 {
            let last = labels@.last();
            assert(occurrences(labels@, last) > 0);
            assert(counted(counts).dom().contains(last));
            let at = choose|k: int| 0 <= k < entries@.len() && (#[trigger] entries@[k]).0 == last;
            assert(entries@[at].1 <= max_count);
            assert(max_count > 0);
            assert forall|other: isize| occurrences(labels@, other) <= occurrences(
                labels@,
                winner,
            ) by {
                if counted(counts).dom().contains(other) {
                    let k = choose|k: int|
                        0 <= k < entries@.len() && (#[trigger] entries@[k]).0 == other;
                    assert(entries@[k].1 <= max_count);
                }
            }
        }
    }
    winner
}

/// The order of keys.
pub open spec fn key_leq() -> spec_fn(i64, i64) -> bool {
    |a: i64, b: i64| a <= b
}

/// `keys` in ascending order.
pub open spec fn ranked(keys: Seq<i64>) -> Seq<i64> {
    keys.sort_by(key_leq())
}

/// Keys are totally ordered.
pub proof fn lemma_key_leq_total()
    ensures
        vstd::relations::total_ordering(key_leq()),
{
    let leq = key_leq();
    assert(vstd::relations::reflexive(leq));
    assert(vstd::relations::antisymmetric(leq));
    assert(vstd::relations::transitive(leq));
    assert(vstd::relations::strongly_connected(leq));
}

/// What `ranked` is: the one ascending sequence with the keys of `keys`.
pub proof fn lemma_ranked(keys: Seq<i64>)
    ensures
        ranked(keys).len() == keys.len(),
        ranked(keys).to_multiset() == keys.to_multiset(),
        forall|i: int, j: int|
            0 <= i <= j < keys.len() ==> #[trigger] ranked(keys)[i] <= #[trigger] ranked(keys)[j],
{
    lemma_key_leq_total();
    keys.lemma_sort_by_ensures(key_leq());
    keys.to_multiset_ensures();
    ranked(keys).to_multiset_ensures();
    assert forall|i: int, j: int| 0 <= i <= j < keys.len() implies #[trigger] ranked(keys)[i]
        <= #[trigger] ranked(keys)[j] by {
        if i < j {
            assert(key_leq()(ranked(keys)[i], ranked(keys)[j]));
        }
    }
}

/// The keys of `keys` in ascending order.
pub fn sort_keys(keys: &Vec<i64>) -> (sorted: Vec<i64>)
    ensures
        sorted@ == ranked(keys@),
{
    let mut sorted: Vec<i64> = Vec::new();
    let mut i: usize = 0;
    assert(sorted@ == keys@.take(0));
    while i < keys.len()
        invariant
            i <= keys@.len(),
            sorted@.len() == i,
            vstd::relations::sorted_by(sorted@, key_leq()),
            sorted@.to_multiset() == keys@.take(i as int).to_multiset(),
        decreases keys@.len() - i,
    {
        let key: i64 = keys[i];
        let mut at: usize = sorted.len();
        while at > 0 && sorted[at - 1] > key
            invariant
                at <= sorted@.len(),
                forall|k: int| at <= k < sorted@.len() ==> #[trigger] sorted@[k] > key,
            decreases at,
        {
            at -= 1;
        }
        let ghost before = sorted@;
        sorted.insert(at, key);
        proof {
            vstd::seq_lib::to_multiset_insert(before, at as int, key);
            assert(keys@.take(i + 1) == keys@.take(i as int).push(key));
            keys@.take(i as int).to_multiset_ensures();
            assert forall|a: int, b: int| 0 <= a < b < sorted@.len() implies #[trigger] key_leq()(
                sorted@[a],
                sorted@[b],
            ) by {
                if a < at && b > at {
                    assert(key_leq()(before[a], before[b - 1]));
                } else if a < at && b < at {
                    assert(key_leq()(before[a], before[b]));
                } else if a > at {
                    assert(key_leq()(before[a - 1], before[b - 1]));
                } else if b == at {
                    if at > 0 {
                        assert(before[at - 1] <= key);
                        if a < at - 1 {
                            assert(key_leq()(before[a], before[at - 1]));
                        }
                    }
                } else {
                    assert(before[b - 1] > key);
                }
            }
        }
        i += 1;
    }
    proof {
        assert(keys@.take(i as int) == keys@);
        lemma_key_leq_total();
        keys@.lemma_sort_by_ensures(key_leq());
        vstd::seq_lib::lemma_sorted_unique(sorted@, ranked(keys@), key_leq());
    }
    sorted
}

/// `order` lists the positions of `keys` by ascending key, positions with
/// equal keys in their own order.
pub open spec fn is_argsort(keys: Seq<i64>, order: Seq<usize>) -> bool {
    &&& order.len() == keys.len()
    &&& forall|k: int| 0 <= k < order.len() ==> #[trigger] order[k] < keys.len()
    &&& forall|a: int, b: int|
        0 <= a < b < order.len() ==> keys[#[trigger] order[a] as int] < keys[#[trigger] order[b] as int]
            || (keys[order[a] as int] == keys[order[b] as int] && order[a] < order[b])
}

/// The positions of `v` in ascending order of their keys; equal keys keep
/// the order of their positions.
pub fn argsort(v: &Vec<i64>) -> (idx: Vec<usize>)
    ensures
        is_argsort(v@, idx@),
{
    let mut idx: Vec<usize> = Vec::new();
    let mut i: usize = 0;
    while i < v.len()
        invariant
            i <= v@.len(),
            idx@.len() == i,
            forall|k: int| 0 <= k < idx@.len() ==> #[trigger] idx@[k] < i,
            forall|a: int, b: int|
                0 <= a < b < idx@.len() ==> v@[#[trigger] idx@[a] as int] < v@[#[trigger] idx@[b] as int]
                    || (v@[idx@[a] as int] == v@[idx@[b] as int] && idx@[a] < idx@[b]),
        decreases v@.len() - i,
    {
        let key: i64 = v[i];
        let mut at: usize = idx.len();
        while at > 0 && v[idx[at - 1]] > key
            invariant
                at <= idx@.len(),
                idx@.len() == i,
                i < v@.len(),
                forall|k: int| 0 <= k < idx@.len() ==> #[trigger] idx@[k] < i,
                forall|k: int| at <= k < idx@.len() ==> v@[#[trigger] idx@[k] as int] > key,
            decreases at,
        {
            at -= 1;
        }
        let ghost before = idx@;
        idx.insert(at, i);
        proof {
            assert forall|a: int, b: int| 0 <= a < b < idx@.len() implies v@[#[trigger] idx@[a] as int]
                < v@[#[trigger] idx@[b] as int] || (v@[idx@[a] as int] == v@[idx@[b] as int]
                && idx@[a] < idx@[b]) by {
                if a < at && b > at {
                    assert(before[a] == idx@[a] && before[b - 1] == idx@[b]);
                } else if a < at && b < at {
                    assert(before[a] == idx@[a] && before[b] == idx@[b]);
                } else if a > at {
                    assert(before[a - 1] == idx@[a] && before[b - 1] == idx@[b]);
                } else if b == at {
                    assert(before[a] == idx@[a]);
                    if at > 0 {
                        assert(v@[before[at - 1] as int] <= key);
                        if a < at - 1 {
                            assert(v@[before[a] as int] < v@[before[at - 1] as int] || (v@[before[a] as int]
                                == v@[before[at - 1] as int] && before[a] < before[at - 1]));
                        }
                    }
                } else {
                    assert(before[b - 1] == idx@[b]);
                    assert(v@[before[b - 1] as int] > key);
                }
            }
        }
        i += 1;
    }
    idx
}

/// `distinct` holds every key of `keys` once, in ascending order.
pub open spec fn is_unique_of(keys: Seq<i64>, distinct: Seq<i64>) -> bool {
    &&& forall|a: int, b: int|
        0 <= a < b < distinct.len() ==> #[trigger] distinct[a] < #[trigger] distinct[b]
    &&& forall|key: i64| distinct.contains(key) <==> keys.contains(key)
}

/// The distinct keys of `x` in ascending order.
pub fn unique(x: &Vec<i64>) -> (distinct: Vec<i64>)
    ensures
        is_unique_of(x@, distinct@),
{
    let sorted = sort_keys(x);
    proof {
        lemma_ranked(x@);
        x@.to_multiset_ensures();
        sorted@.to_multiset_ensures();
    }
    let mut distinct: Vec<i64> = Vec::new();
    let mut i: usize = 0;
    while i < sorted.len()
        invariant
            i <= sorted@.len(),
            forall|a: int, b: int| 0 <= a <= b < sorted@.len() ==> #[trigger] sorted@[a] <= #[trigger] sorted@[b],
            forall|a: int, b: int|
                0 <= a < b < distinct@.len() ==> #[trigger] distinct@[a] < #[trigger] distinct@[b],
            forall|a: int| 0 <= a < distinct@.len() ==> sorted@.take(i as int).contains(#[trigger] distinct@[a]),
            forall|k: int| 0 <= k < i ==> distinct@.contains(#[trigger] sorted@[k]),
            i > 0 ==> distinct@.len() > 0 && distinct@.last() == sorted@[i - 1],
        decreases sorted@.len() - i,
    {
        let key: i64 = sorted[i];
        let ghost before = distinct@;
        let fresh: bool = distinct.len() == 0 || distinct[distinct.len() - 1] != key;
        if fresh {
            distinct.push(key);
        }
        proof {
            assert(sorted@.take(i + 1)[i as int] == key);
            assert forall|a: int| 0 <= a < distinct@.len() implies sorted@.take(i + 1).contains(
                #[trigger] distinct@[a],
            ) by {
                if a < before.len() {
                    assert(sorted@.take(i as int).contains(before[a]));
                    let w = choose|w: int| 0 <= w < i && sorted@.take(i as int)[w] == before[a];
                    assert(sorted@.take(i + 1)[w] == before[a]);
                }
            }
            assert forall|k: int| 0 <= k < i + 1 implies distinct@.contains(#[trigger] sorted@[k]) by {
                if k < i {
                    assert(before.contains(sorted@[k]));
                    let w = choose|w: int| 0 <= w < before.len() && before[w] == sorted@[k];
                    assert(distinct@[w] == sorted@[k]);
                } else {
                    assert(distinct@[distinct@.len() - 1] == key);
                }
            }
            if fresh && before.len() > 0 {
                assert(sorted@[i - 1] <= sorted@[i as int]);
                assert forall|a: int, b: int| 0 <= a < b < distinct@.len() implies #[trigger] distinct@[a]
                    < #[trigger] distinct@[b] by {
                    if b == before.len() && a < before.len() - 1 {
                        assert(before[a] < before[before.len() - 1]);
                    }
                }
            }
        }
        i += 1;
    }
    proof {
        assert(sorted@.take(i as int) == sorted@);
        assert forall|key: i64| distinct@.contains(key) <==> x@.contains(key) by {
            if distinct@.contains(key) {
                let a = choose|a: int| 0 <= a < distinct@.len() && distinct@[a] == key;
                assert(sorted@.contains(distinct@[a]));
                assert(sorted@.to_multiset().count(key) > 0);
            }
            if x@.contains(key) {
                assert(x@.to_multiset().count(key) > 0);
                assert(sorted@.contains(key));
                let k = choose|k: int| 0 <= k < sorted@.len() && sorted@[k] == key;
                assert(distinct@.contains(sorted@[k]));
            }
        }
    }
    distinct
}

/// The items of a vector from the last to the first.
fn reversed<T>(items: Vec<T>) -> (back: Vec<T>)
    ensures
        back@.len() == items@.len(),
        forall|k: int| 0 <= k < items@.len() ==> #[trigger] back@[k] == items@[items@.len() - 1 - k],
{
    let ghost all = items@;
    let mut items = items;
    let mut back: Vec<T> = Vec::new();
    while items.len() > 0
        invariant
            items@.len() + back@.len() == all.len(),
            items@ == all.take(items@.len() as int),
            forall|k: int| 0 <= k < back@.len() ==> #[trigger] back@[k] == all[all.len() - 1 - k],
        decreases items@.len(),
    {
        match items.pop() {
            Some(item) => {
                back.push(item);
            },
            None => {},
        }
    }
    back
}

/// `turned` holds the columns of `rows` as its rows: as many as the first
/// row is long, each with one item of every row.
pub open spec fn is_transpose<T>(rows: Seq<Vec<T>>, turned: Seq<Vec<T>>) -> bool {
    &&& turned.len() == rows[0]@.len()
    &&& forall|j: int| 0 <= j < turned.len() ==> (#[trigger] turned[j])@.len() == rows.len()
    &&& forall|j: int, i: int|
        0 <= j < turned.len() && 0 <= i < rows.len() ==> (#[trigger] turned[j])@[i] == (
        #[trigger] rows[i])@[j]
}

/// Turns rows into columns. There is at least one row, and no row is
/// shorter than the first; what a row holds beyond the length of the first
/// is left out.
pub fn transpose<T>(v: Vec<Vec<T>>) -> (turned: Vec<Vec<T>>)
    requires
        v@.len() > 0,
        forall|i: int| 0 <= i < v@.len() ==> (#[trigger] v@[i])@.len() >= v@[0]@.len(),
    ensures
        is_transpose(v@, turned@),
{
    let n: usize = v.len();
    let width: usize = v[0].len();
    let ghost all = v@;
    let mut rows = v;
    let mut cols: Vec<Vec<T>> = Vec::new();
    let mut fill: usize = 0;
    while fill < width
        invariant
            fill <= width,
            cols@.len() == fill,
            forall|j: int| 0 <= j < fill ==> (#[trigger] cols@[j])@.len() == 0,
        decreases width - fill,
    {
        cols.push(Vec::new());
        fill += 1;
    }
    while rows.len() > 0
        invariant
            n == all.len(),
            width == all[0]@.len(),
            forall|i: int| 0 <= i < all.len() ==> (#[trigger] all[i])@.len() >= width,
            rows@.len() <= n,
            rows@ == all.take(rows@.len() as int),
            cols@.len() == width,
            forall|j: int| 0 <= j < width ==> (#[trigger] cols@[j])@.len() == n - rows@.len(),
            forall|j: int, k: int|
                0 <= j < width && 0 <= k < n - rows@.len() ==> #[trigger] cols@[j]@[k] == all[n - 1 - k]@[j],
        decreases rows@.len(),
    {
        let ghost done = n - rows@.len();
        let mut row: Vec<T> = match rows.pop() {
            Some(row) => row,
            None => Vec::new(),
        };
        let ghost r = rows@.len() as int;
        assert(row == all[r]);
        row.truncate(width);
        let mut j: usize = width;
        while j > 0
            invariant
                j <= width,
                n == all.len(),
                0 <= r < n,
                done == n - 1 - r,
                width == all[0]@.len(),
                all[r]@.len() >= width,
                row@ == all[r]@.take(j as int),
                cols@.len() == width,
                forall|c: int| 0 <= c < j ==> (#[trigger] cols@[c])@.len() == done,
                forall|c: int| j <= c < width ==> (#[trigger] cols@[c])@.len() == done + 1,
                forall|c: int, k: int|
                    0 <= c < width && 0 <= k < done ==> #[trigger] cols@[c]@[k] == all[n - 1 - k]@[c],
                forall|c: int| j <= c < width ==> (#[trigger] cols@[c])@[done] == all[r]@[c],
            decreases j,
        {
            j -= 1;
            let ghost before = cols@;
            match row.pop() {
                Some(item) => {
                    assert(item == all[r]@[j as int]);
                    cols[j].push(item);
                    proof {
                        assert forall|c: int, k: int| 0 <= c < width && 0 <= k < done implies
                            #[trigger] cols@[c]@[k] == all[n - 1 - k]@[c] by {
                            assert(before[c]@[k] == all[n - 1 - k]@[c]);
                        }
                        assert forall|c: int| j <= c < width implies (#[trigger] cols@[c])@[done]
                            == all[r]@[c] by {
                            if c > j {
                                assert(before[c]@[done] == all[r]@[c]);
                            }
                        }
                    }
                },
                None => {},
            }
        }
        proof {
            assert forall|c: int, k: int| 0 <= c < width && 0 <= k < n - rows@.len() implies
                #[trigger] cols@[c]@[k] == all[n - 1 - k]@[c] by {
                if k == done {
                    assert(n - 1 - k == r);
                }
            }
        }
    }
    let mut reversed_cols: Vec<Vec<T>> = Vec::new();
    let ghost built = cols@;
    while cols.len() > 0
        invariant
            n == all.len(),
            built.len() == width,
            cols@.len() + reversed_cols@.len() == width,
            cols@ == built.take(cols@.len() as int),
            forall|j: int| 0 <= j < width ==> (#[trigger] built[j])@.len() == n,
            forall|c: int|
                0 <= c < reversed_cols@.len() ==> (#[trigger] reversed_cols@[c])@.len() == n,
            forall|c: int, i: int|
                0 <= c < reversed_cols@.len() && 0 <= i < n ==> #[trigger] reversed_cols@[c]@[i]
                    == built[width - 1 - c]@[n - 1 - i],
        decreases cols@.len(),
    {
        match cols.pop() {
            Some(col) => {
                let ghost c0 = reversed_cols@.len() as int;
                let ghost before = reversed_cols@;
                assert(col == built[width - 1 - c0]);
                let turned = reversed(col);
                reversed_cols.push(turned);
                proof {
                    assert forall|c: int, i: int|
                        0 <= c < reversed_cols@.len() && 0 <= i < n implies
                        #[trigger] reversed_cols@[c]@[i] == built[width - 1 - c]@[n - 1 - i] by {
                        if c < c0 {
                            assert(before[c]@[i] == built[width - 1 - c]@[n - 1 - i]);
                        } else {
                            assert(turned@[i] == col@[col@.len() - 1 - i]);
                        }
                    }
                }
            },
            None => {},
        }
    }
    let turned = reversed(reversed_cols);
    proof {
        assert forall|j: int, i: int| 0 <= j < turned@.len() && 0 <= i < all.len() implies (
        #[trigger] turned@[j])@[i] == (#[trigger] all[i])@[j] by {
            assert(turned@[j] == reversed_cols@[width - 1 - j]);
            assert(reversed_cols@[width - 1 - j]@[i] == built[j]@[n - 1 - i]);
            assert(built[j]@[n - 1 - i] == all[n - 1 - (n - 1 - i)]@[j]);
        }
        assert forall|j: int| 0 <= j < turned@.len() implies (#[trigger] turned@[j])@.len()
            == all.len() by {
            assert(turned@[j] == reversed_cols@[width - 1 - j]);
        }
    }
    turned
}

/// A set of class labels, kept in a hashbrown `HashSet`.
#[verifier::external_body]
pub struct ClassSet {
    set: hashbrown::HashSet<isize>,
}

/// The labels of a label set.
pub uninterp spec fn members(classes: ClassSet) -> Set<isize>;

/// `HashSet::new` of hashbrown: a set without members.
#[verifier::external_body]
pub(crate) fn classes_new() -> (classes: ClassSet)
    ensures
        members(classes) == Set::<isize>::empty(),
{
    ClassSet { set: hashbrown::HashSet::new() }
}

/// `HashSet::insert` of hashbrown: afterwards `class` is a member, and the
/// other members are as before.
#[verifier::external_body]
pub(crate) fn classes_insert(classes: &mut ClassSet, class: isize)
    ensures
        members(*final(classes)) == members(*old(classes)).insert(class),
{
    classes.set.insert(class);
}

/// `HashSet::len` of hashbrown: the number of members.
#[verifier::external_body]
pub(crate) fn classes_len(classes: &ClassSet) -> (count: usize)
    ensures
        count == members(*classes).len(),
{
    classes.set.len()
}

/// The number of distinct labels in `arr`.
pub fn class_counts(arr: &Vec<isize>) -> (count: usize)
    ensures
        count == arr@.to_set().len(),
{
    let mut classes = classes_new();
    let mut i: usize = 0;
    assert(arr@.take(0).to_set() =~= Set::<isize>::empty());
    while i < arr.len()
        invariant
            i <= arr@.len(),
            members(classes) == arr@.take(i as int).to_set(),
        decreases arr@.len() - i,
    {
        classes_insert(&mut classes, arr[i]);
        proof {
            let before = arr@.take(i as int);
            let after = arr@.take(i + 1);
            assert(after == before.push(arr@[i as int]));
            assert forall|x: isize| after.to_set().contains(x) <==> before.to_set().insert(
                arr@[i as int],
            ).contains(x) by {
                if after.contains(x) {
                    let k = choose|k: int| 0 <= k < after.len() && after[k] == x;
                    if k < i {
                        assert(before[k] == x);
                    }
                }
                if before.contains(x) {
                    let k = choose|k: int| 0 <= k < before.len() && before[k] == x;
                    assert(after[k] == x);
                }
                if x == arr@[i as int] {
                    assert(after[i as int] == x);
                }
            }
            assert(after.to_set() =~= before.to_set().insert(arr@[i as int]));
        }
        i += 1;
    }
    assert(arr@.take(i as int) == arr@);
    classes_len(&classes)
}

/// `percent` hundredths of `n`, rounded to the nearest integer, halves
/// upwards.
pub open spec fn rounded_share(n: nat, percent: nat) -> nat {
    (2 * n * percent + 100) / 200
}

/// `percent` hundredths of `n`, rounded to the nearest integer.
pub fn round_share(n: usize, percent: usize) -> (share: usize)
    requires
        percent <= 100,
    ensures
        share == rounded_share(n as nat, percent as nat),
        share <= n,
{
    assert(2 * n * percent <= 200 * n && 2 * n * percent == (2 * n) * percent) by (nonlinear_arith)
        requires
            percent <= 100,
    ;
    let doubled: u128 = 2 * (n as u128);
    let wide: u128 = doubled * (percent as u128) + 100;
    let share: u128 = wide / 200;
    share as usize
}

/// The keys of `sorted` from rank `first` on.
fn from_rank(sorted: &Vec<i64>, first: usize) -> (kept: Vec<i64>)
    requires
        first <= sorted@.len(),
    ensures
        kept@ == sorted@.subrange(first as int, sorted@.len() as int),
{
    let mut kept: Vec<i64> = Vec::new();
    let mut i: usize = first;
    while i < sorted.len()
        invariant
            first <= i <= sorted@.len(),
            kept@ == sorted@.subrange(first as int, i as int),
        decreases sorted@.len() - i,
    {
        kept.push(sorted[i]);
        assert(sorted@.subrange(first as int, i + 1) == sorted@.subrange(
            first as int,
            i as int,
        ).push(sorted@[i as int]));
        i += 1;
    }
    kept
}

/// The cut that `percent` hundredths of the keys lie below, and the keys
/// above it in ascending order.
///
/// The cut is the key at rank `rounded_share(n, percent)` of the ranked
/// keys. The cut itself is kept with the keys above it, so what is kept
/// starts with the cut and is never empty. For 100 hundredths there is no
/// such rank: the cut is the last key as it stands, and nothing is kept.
pub fn quantile(v: &Vec<i64>, percent: usize) -> (cut: (i64, Vec<i64>))
    requires
        percent <= 100,
        v@.len() > 0,
        percent < 100 ==> rounded_share(v@.len(), percent as nat) < v@.len(),
    ensures
        percent == 100 ==> cut.0 == v@.last() && cut.1@.len() == 0,
        percent < 100 ==> cut.0 == ranked(v@)[rounded_share(v@.len(), percent as nat) as int]
            && cut.1@ == ranked(v@).subrange(
            rounded_share(v@.len(), percent as nat) as int,
            v@.len() as int,
        ),
{
    let n: usize = v.len();
    if percent == 100 {
        return (v[n - 1], Vec::new());
    }
    let k: usize = round_share(n, percent);
    let sorted = sort_keys(v);
    proof {
        lemma_ranked(v@);
    }
    let kept = from_rank(&sorted, k);
    (sorted[k], kept)
}

/// The hundredths of the cut of quartile `q`: a quarter, a half and three
/// quarters for the first three quartiles. The fourth quartile has the cut
/// of the third.
pub open spec fn quartile_percent(q: int) -> nat {
    if q == 1 {
        25
    } else if q == 2 {
        50
    } else {
        75
    }
}

/// The first rank of the band that quartile `q` keeps, and the rank after
/// its last.
///
/// The band is what lies above the quartile's cut in the ranked keys. The
/// cut itself belongs to the band: the band starts at the rank of the cut
/// and ends with the greatest key.
pub open spec fn quartile_band(n: nat, q: int) -> (nat, nat) {
    (rounded_share(n, quartile_percent(q)), n)
}

/// The quarter, the half and the three quarters of a number, rounded, stand
/// in this order and do not exceed it.
pub proof fn lemma_shares_ordered(n: nat)
    ensures
        rounded_share(n, 25) <= rounded_share(n, 50) <= rounded_share(n, 75) <= n,
{
}

/// The cut of quartile `q` of the keys, and the keys of its band in
/// ascending order: the cut and what lies above it.
pub fn quartiles(v: &Vec<i64>, q: i32) -> (cut: (i64, Vec<i64>))
    requires
        1 <= q <= 4,
        v@.len() > 0,
        quartile_band(v@.len(), q as int).0 < v@.len(),
    ensures
        cut.0 == ranked(v@)[quartile_band(v@.len(), q as int).0 as int],
        cut.1@ == ranked(v@).subrange(
            quartile_band(v@.len(), q as int).0 as int,
            quartile_band(v@.len(), q as int).1 as int,
        ),
        cut.1@.len() >= 1,
        cut.1@[0] == cut.0,
{
    let percent: usize = if q == 1 {
        25
    } else if q == 2 {
        50
    } else {
        75
    };
    proof {
        lemma_ranked(v@);
    }
    quantile(v, percent)
}

} // verus!

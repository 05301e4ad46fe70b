//! From a series to the features of a tree, with a cache of descriptors.
//!
//! A feature is the descriptor of one sub-interval of one series. What is
//! computed for a feature depends on nothing but its key: the series'
//! buffer, the sub-interval and the descriptor. A cache keeps the values by
//! key, and stops growing when its footprint reaches four fifths of the
//! memory that it was told of.

use vstd::prelude::*;

verus! {

/// What a cached value is stored under: the identity of the series'
/// buffer, the first point of the sub-interval, the point after its last,
/// and the descriptor.
pub type CacheKey = (usize, usize, usize, usize);

/// Bytes that one entry takes in the cache's table: five words of eight
/// bytes and one control byte.
pub const ENTRY_BYTES: usize = 41;

/// `DashMap` of dashmap, as a type whose inside is not looked into.
#[verifier::external_type_specification]
#[verifier::external_body]
#[verifier::reject_recursive_types(K)]
#[verifier::reject_recursive_types(V)]
#[verifier::reject_recursive_types(S)]
pub struct ExDashMap<K, V, S>(dashmap::DashMap<K, V, S>);

/// The entries of a table.
pub uninterp spec fn table_entries(table: dashmap::DashMap<(usize, usize, usize, usize), i64>) -> Map<
    (usize, usize, usize, usize),
    i64,
>;

/// `DashMap::new` of dashmap: a table without entries.
#[verifier::external_body]
fn table_new() -> (table: dashmap::DashMap<(usize, usize, usize, usize), i64>)
    ensures
        (table_entries(table) == Map::<(usize, usize, usize, usize), i64>::empty()),
{
    dashmap::DashMap::new()
}

/// `DashMap::get` of dashmap: the value stored under `key`, if there is
/// one.
#[verifier::external_body]
fn table_get(table: &dashmap::DashMap<(usize, usize, usize, usize), i64>, key: CacheKey) -> (value:
    Option<i64>)
    ensures
        value == (if table_entries(*table).dom().contains(key) {
            Some(table_entries(*table)[key])
        } else {
            None
        }),
{
    table.get(&key).map(|entry| *entry)
}

/// `DashMap::insert` of dashmap: afterwards `key` maps to `value`, and
/// every other entry is as before.
#[verifier::external_body]
fn table_insert(
    table: &mut dashmap::DashMap<(usize, usize, usize, usize), i64>,
    key: CacheKey,
    value: i64,
)
    ensures
        table_entries(*final(table)) == table_entries(*old(table)).insert(key, value),
{
    table.insert(key, value);
}

/// `DashMap::clear` of dashmap: afterwards the table has no entries.
#[verifier::external_body]
fn table_clear(table: &mut dashmap::DashMap<(usize, usize, usize, usize), i64>)
    ensures
        (table_entries(*final(table)) == Map::<(usize, usize, usize, usize), i64>::empty()),
{
    table.clear();
}

/// `DashMap::capacity` of dashmap: how many entries the table can hold
/// before it allocates again. The number depends on how the table grew, so
/// nothing is stated of it.
#[verifier::external_body]
fn table_capacity(table: &dashmap::DashMap<(usize, usize, usize, usize), i64>) -> (capacity: usize) {
    table.capacity()
}

/// A table that can hold `capacity` entries may take one more entry: twice
/// its footprint is under four fifths of `total_memory`.
pub open spec fn has_room(capacity: nat, total_memory: nat) -> bool {
    2 * capacity * ENTRY_BYTES < (total_memory * 4) / 5
}

/// Whether a table that can hold `capacity` entries may take one more
/// entry, on a machine with `total_memory` bytes.
pub fn may_grow(capacity: usize, total_memory: usize) -> (yes: bool)
    ensures
        yes == has_room(capacity as nat, total_memory as nat),
{
    let doubled: u128 = 2 * (capacity as u128);
    assert(2 * capacity * ENTRY_BYTES == (2 * capacity) * 41) by (nonlinear_arith);
    let footprint: u128 = doubled * 41;
    let allowance: u128 = ((total_memory as u128) * 4) / 5;
    footprint < allowance
}

/// A cache of descriptor values.
pub struct FeatureCache {
    table: dashmap::DashMap<(usize, usize, usize, usize), i64>,
    total_memory: usize,
}

impl FeatureCache {
    /// The values in the cache, by key.
    pub closed spec fn view(&self) -> Map<CacheKey, i64> {
        table_entries(self.table)
    }

    /// The memory that the cache was told of, in bytes.
    pub closed spec fn memory(&self) -> usize {
        self.total_memory
    }

    /// An empty cache for a machine with `total_memory` bytes.
    pub fn new(total_memory: usize) -> (cache: Self)
        ensures
            cache@ == Map::<CacheKey, i64>::empty(),
            cache.memory() == total_memory,
    {
        FeatureCache { table: table_new(), total_memory }
    }

    /// The value cached for `key`, if there is one.
    pub fn get(&self, key: CacheKey) -> (value: Option<i64>)
        ensures
            value == (if self@.dom().contains(key) {
                Some(self@[key])
            } else {
                None
            }),
    {
        table_get(&self.table, key)
    }

    /// Stores `value` under `key` if a table of `capacity` entries may
    /// grow, and says whether it did. A cache that may not grow keeps what
    /// it has.
    pub fn offer_at(&mut self, key: CacheKey, value: i64, capacity: usize) -> (stored: bool)
        ensures
            stored == has_room(capacity as nat, old(self).memory() as nat),
            final(self).memory() == old(self).memory(),
            final(self)@ == (if stored {
                old(self)@.insert(key, value)
            } else {
                old(self)@
            }),
    {
        if may_grow(capacity, self.total_memory) {
            table_insert(&mut self.table, key, value);
            true
        } else {
            false
        }
    }

    /// Stores `value` under `key` if the cache may still grow, and says
    /// whether it did. Either way no other entry changes.
    ///
    /// Whether the cache may grow is decided for the number of entries
    /// that its table can hold at the moment. That number is the table's
    /// own; the decision is the one that `has_room` gives for it.
    pub fn offer(&mut self, key: CacheKey, value: i64) -> (stored: bool)
        ensures
            exists|capacity: usize|
                stored == #[trigger] has_room(capacity as nat, old(self).memory() as nat),
            final(self).memory() == old(self).memory(),
            final(self)@ == (if stored {
                old(self)@.insert(key, value)
            } else {
                old(self)@
            }),
    {
        let capacity: usize = table_capacity(&self.table);
        self.offer_at(key, value, capacity)
    }

    /// Empties the cache.
    pub fn clear(&mut self)
        ensures
            final(self)@ == Map::<CacheKey, i64>::empty(),
            final(self).memory() == old(self).memory(),
    {
        table_clear(&mut self.table);
    }
}

/// A value that was stored is the value that is read, and reading again
/// gives it again; a value that was refused leaves every reading as it was.
pub proof fn lemma_offer_then_get(
    before: Map<CacheKey, i64>,
    after: Map<CacheKey, i64>,
    key: CacheKey,
    value: i64,
    stored: bool,
)
    requires
        after == (if stored {
            before.insert(key, value)
        } else {
            before
        }),
    ensures
        stored ==> after.dom().contains(key) && after[key] == value,
        !stored ==> after == before,
        forall|other: CacheKey|
            other != key && before.dom().contains(other) ==> after.dom().contains(other)
                && after[other] == before[other],
{
}

/// The keys of the features of one series, sub-interval by sub-interval and
/// within each descriptor by descriptor.
pub open spec fn plan_of(
    buffer: usize,
    intervals: Seq<(usize, usize)>,
    attributes: Seq<usize>,
) -> Seq<CacheKey> {
    Seq::new(
        intervals.len() * attributes.len(),
        |k: int|
            (
                buffer,
                intervals[k / attributes.len() as int].0,
                intervals[k / attributes.len() as int].1,
                attributes[k % attributes.len() as int],
            ),
    )
}

/// The keys of the features of the series in `buffer`: one for every pair
/// of a sub-interval and a descriptor.
pub fn feature_keys(buffer: usize, intervals: &Vec<(usize, usize)>, attributes: &Vec<usize>) -> (keys:
    Vec<CacheKey>)
    ensures
        keys@ == plan_of(buffer, intervals@, attributes@),
{
    let mut keys: Vec<CacheKey> = Vec::new();
    let ghost m = attributes@.len() as int;
    let mut i: usize = 0;
    while i < intervals.len()
        invariant
            i <= intervals@.len(),
            m == attributes@.len(),
            keys@.len() == i * m,
            forall|k: int|
                0 <= k < keys@.len() ==> #[trigger] keys@[k] == (
                    buffer,
                    intervals@[k / m].0,
                    intervals@[k / m].1,
                    attributes@[k % m],
                ),
        decreases intervals@.len() - i,
    {
        let (start, end) = intervals[i];
        let mut j: usize = 0;
        while j < attributes.len()
            invariant
                i < intervals@.len(),
                j <= attributes@.len(),
                m == attributes@.len(),
                (start, end) == intervals@[i as int],
                keys@.len() == i * m + j,
                forall|k: int|
                    0 <= k < keys@.len() ==> #[trigger] keys@[k] == (
                        buffer,
                        intervals@[k / m].0,
                        intervals@[k / m].1,
                        attributes@[k % m],
                    ),
            decreases attributes@.len() - j,
        {
            proof {
                let k = i * m + j;
                assert(k / m == i && k % m == j) by (nonlinear_arith)
                    requires
                        k == i * m + j,
                        0 <= j < m,
                        0 <= i,
                ;
            }
            keys.push((buffer, start, end, attributes[j]));
            assert(i * m + j + 1 == i * m + (j + 1));
            j += 1;
        }
        assert((i + 1) * m == i * m + m) by (nonlinear_arith);
        i += 1;
    }
    proof {
        assert(keys@.len() == intervals@.len() * attributes@.len());
        assert(keys@ =~= plan_of(buffer, intervals@, attributes@));
    }
    keys
}

} // verus!

//! Immutable maps from keys to values, looked up through a minimal perfect hash function.

use crate::cow::CowSlice;
use crate::iter::{MapEntries, MapKeys, MapValues};
use crate::kernel::{
    bucket, bucket_count, bucket_shift, fastrange, slot_count, is_table_len, lemma_bucket_count_table, lemma_fastrange_bound,
    lemma_log2_pow2, log2, pilot_slot, spec_index, DIRECT_MAX, MAX_LEN, SCAN_MAX,
};
use crate::key::{copy_key, hash_key, key_eq, key_hash, Key, KeyView};
use crate::construct::{
    construction_succeeds, lemma_construction_succeeds, construction_matches, drawn_seed, gather, generate, hashes_of, lemma_pigeonhole, ConstructError, MapState,
    SEED_BUDGET, identity,
};
use crate::key::SeededHash;
use crate::pilots::{permutation_of, pilot_tables};
use vstd::prelude::*;
use vstd::std_specs::cmp::PartialEqSpec;

verus! {

/// Whether no two entries have the same key.
pub open spec fn keys_distinct<V>(entries: Seq<(Key, V)>) -> bool {
    forall|i: int, j: int|
        #![trigger entries[i], entries[j]]
        0 <= i < entries.len() && 0 <= j < entries.len() && i != j ==> entries[i].0@ != entries[j].0@
}

/// Whether some entry has the key `k`.
pub open spec fn has_key<V>(entries: Seq<(Key, V)>, k: KeyView) -> bool {
    exists|i: int| 0 <= i < entries.len() && (#[trigger] entries[i]).0@ == k
}

/// The position of an entry with the key `k`, if there is one.
pub open spec fn position_of<V>(entries: Seq<(Key, V)>, k: KeyView) -> int {
    choose|i: int| 0 <= i < entries.len() && (#[trigger] entries[i]).0@ == k
}

/// The map that a list of entries with distinct keys describes.
pub open spec fn entries_map<V>(entries: Seq<(Key, V)>) -> Map<KeyView, V> {
    Map::new(|k: KeyView| has_key(entries, k), |k: KeyView| entries[position_of(entries, k)].1)
}

/// Whether the lookup tables have a shape that a map of `n` entries can use: no tables at all, or the
/// pilot and remap tables of the pilot strategy.
pub open spec fn tables_valid(n: nat, pilots: Seq<u16>, remap: Seq<u16>) -> bool {
    if pilots.len() == 0 {
        remap.len() == 0
    } else {
        pilot_tables(n, pilots, remap)
    }
}

/// Whether the tables send the hash of each entry's key under `seed` to the entry's own position.
pub open spec fn finds_entries<V>(seed: u64, entries: Seq<(Key, V)>, pilots: Seq<u16>, remap: Seq<u16>) -> bool {
    forall|p: int| 0 <= p < entries.len() ==>
        #[trigger] spec_index(key_hash(entries[p].0@, seed), entries.len(), pilots, remap) == p
}

/// Whether the parts make up a map: at most `MAX_LEN` entries with distinct keys and tables of a valid shape,
/// which, past `SCAN_MAX` entries, find every entry.
pub open spec fn parts_valid<V>(seed: u64, entries: Seq<(Key, V)>, pilots: Seq<u16>, remap: Seq<u16>) -> bool {
    &&& entries.len() <= MAX_LEN
    &&& keys_distinct(entries)
    &&& tables_valid(entries.len(), pilots, remap)
    &&& entries.len() > SCAN_MAX ==> finds_entries(seed, entries, pilots, remap)
}

/// The bucket shift value marking a map with no pilot table. Shifting by 64 is invalid, so this doesn't
/// collide with a real shift.
pub const NO_PILOTS: u32 = 64;

/// The bucket shift that a pilot table of the given length implies, or `NO_PILOTS` without one.
pub open spec fn spec_pilot_shift(len: nat) -> u32 {
    if len == 0 {
        NO_PILOTS
    } else {
        (64 - log2(len)) as u32
    }
}

/// Returns the bucket shift implied by a pilot table, or `NO_PILOTS` when there is no pilot table.
pub fn pilot_shift(pilots: &[u16]) -> (r: u32)
    requires
        pilots@.len() == 0 || exists|k: nat| is_table_len(pilots@.len(), k),
    ensures
        r == spec_pilot_shift(pilots@.len()),
{
    if pilots.len() == 0 {
        NO_PILOTS
    } else {
        let ghost k = choose|k: nat| is_table_len(pilots@.len(), k);
        proof {
            lemma_log2_pow2(k);
        }
        bucket_shift(pilots.len(), Ghost(k))
    }
}

/// Returns the entry index that the tables assign to a hash.
fn entry_index(h: u64, n: usize, shift: u32, pilots: &[u16], remap: &[u16]) -> (r: usize)
    requires
        SCAN_MAX < n <= MAX_LEN,
        tables_valid(n as nat, pilots@, remap@),
        shift == spec_pilot_shift(pilots@.len()),
    ensures
        r == spec_index(h, n as nat, pilots@, remap@),
        r < n,
{
    if pilots.len() == 0 {
        proof {
            lemma_fastrange_bound(h, n as nat);
        }
        fastrange(h, n)
    } else {
        let ghost k = lemma_bucket_count_table(n as nat);
        proof {
            lemma_log2_pow2(k);
            vstd::arithmetic::power2::lemma2_to64();
        }
        let b = bucket(h, shift);
        let slots = n + remap.len();
        let s = pilot_slot(h, pilots[b], slots);
        if s < n {
            s
        } else {
            remap[s - n] as usize
        }
    }
}

/// An immutable map from keys to values.
///
/// Construct one with [`FrozenMap::from_vec`].
pub struct FrozenMap<V: 'static> {
    seed: u64,
    /// `spec_pilot_shift` of the pilot table's length.
    shift: u32,
    entries: CowSlice<(Key, V)>,
    /// One pilot per bucket in the pilot strategy.
    pilots: CowSlice<u16>,
    /// Entry indices for the overflow slots in the pilot strategy.
    remap: CowSlice<u16>,
}

impl<V: 'static> FrozenMap<V> {
    /// The entries in their stored order.
    pub closed spec fn listing(self) -> Seq<(Key, V)> {
        self.entries@
    }

    /// The seed that keys are hashed with.
    pub closed spec fn hash_seed(self) -> u64 {
        self.seed
    }

    /// The pilot table: one pilot per bucket, or empty when the map uses no pilots.
    pub closed spec fn pilot_table(self) -> Seq<u16> {
        self.pilots@
    }

    /// The remap table for the overflow slots of the pilot strategy.
    pub closed spec fn remap_table(self) -> Seq<u16> {
        self.remap@
    }

    #[verifier::type_invariant]
    closed spec fn wf(self) -> bool {
        &&& parts_valid(self.seed, self.entries@, self.pilots@, self.remap@)
        &&& self.shift == spec_pilot_shift(self.pilots@.len())
    }
}

impl<V: 'static> View for FrozenMap<V> {
    type V = Map<KeyView, V>;

    open spec fn view(&self) -> Map<KeyView, V> {
        entries_map(self.listing())
    }
}

/// With distinct keys, the position of an entry's key is the entry's own position.
proof fn lemma_position_of<V>(entries: Seq<(Key, V)>, i: int)
    requires
        keys_distinct(entries),
        0 <= i < entries.len(),
    ensures
        has_key(entries, entries[i].0@),
        position_of(entries, entries[i].0@) == i,
        entries_map(entries).contains_key(entries[i].0@),
        entries_map(entries)[entries[i].0@] == entries[i].1,
{
    let k = entries[i].0@;
    assert(has_key(entries, k));
    let j = position_of(entries, k);
    assert(entries[j].0@ == k);
}

impl<V: 'static> FrozenMap<V> {
    /// Returns the key-value entry corresponding to the given key, if present.
    pub fn get_entry(&self, key: &Key) -> (r: Option<(&Key, &V)>)
        ensures
            match r {
                Some((k, v)) => self@.contains_key(key@) && k@ == key@ && *v == self@[key@],
                None => !self@.contains_key(key@),
            },
    {
        proof {
            use_type_invariant(self);
        }
        let entries = self.entries.as_slice();
        let n = entries.len();
        if n <= SCAN_MAX {
            // Linear scanning.
            let mut i: usize = 0;
            while i < n
                invariant
                    entries@ == self.listing(),
                    n == entries@.len(),
                    keys_distinct(entries@),
                    forall|j: int| 0 <= j < i ==> (#[trigger] entries@[j]).0@ != key@,
                decreases n - i,
            {
                if key_eq(&entries[i].0, key) {
                    proof {
                        lemma_position_of(entries@, i as int);
                    }
                    return Some((&entries[i].0, &entries[i].1));
                }
                i += 1;
            }
            return None;
        }
        let h = hash_key(key, self.seed);
        let index = entry_index(h, n, self.shift, self.pilots.as_slice(), self.remap.as_slice());
        let entry = &entries[index];
        if key_eq(&entry.0, key) {
            proof {
                lemma_position_of(entries@, index as int);
            }
            Some((&entry.0, &entry.1))
        } else {
            proof {
                if has_key(entries@, key@) {
                    let p = position_of(entries@, key@);
                    assert(spec_index(key_hash(entries@[p].0@, self.seed), n as nat, self.pilots@, self.remap@) == p);
                }
            }
            None
        }
    }

    /// Returns a reference to the value corresponding to the given key, if present.
    pub fn get(&self, key: &Key) -> (r: Option<&V>)
        ensures
            match r {
                Some(v) => self@.contains_key(key@) && *v == self@[key@],
                None => !self@.contains_key(key@),
            },
    {
        match self.get_entry(key) {
            Some((_, v)) => Some(v),
            None => None,
        }
    }

    /// Returns `true` if the map contains an entry for the given key.
    pub fn contains_key(&self, key: &Key) -> (r: bool)
        ensures
            r == self@.contains_key(key@),
    {
        self.get_entry(key).is_some()
    }
}

/// A list of entries with distinct keys describes a finite map with one key per entry.
pub proof fn lemma_entries_map_len<V>(entries: Seq<(Key, V)>)
    requires
        keys_distinct(entries),
    ensures
        entries_map(entries).dom().finite(),
        entries_map(entries).len() == entries.len(),
{
    let ks = Seq::new(entries.len(), |i: int| entries[i].0@);
    assert(ks.no_duplicates()) by {
        assert forall|i: int, j: int| 0 <= i < ks.len() && 0 <= j < ks.len() && i != j implies ks[i] != ks[j] by {
            assert(entries[i].0@ != entries[j].0@);
        }
    }
    ks.unique_seq_to_set();
    vstd::seq_lib::seq_to_set_is_finite(ks);
    assert(ks.to_set() =~= entries_map(entries).dom()) by {
        assert forall|k: KeyView| ks.to_set().contains(k) <==> has_key(entries, k) by {
            if has_key(entries, k) {
                let i = choose|i: int| 0 <= i < entries.len() && (#[trigger] entries[i]).0@ == k;
                assert(ks[i] == k);
            }
            if ks.contains(k) {
                let i = choose|i: int| 0 <= i < ks.len() && ks[i] == k;
                assert(entries[i].0@ == k);
            }
        }
    }
}

/// The entries in the order that a construction's indices give: position `p` holds entry `indices[p]`.
pub open spec fn gathered_entries<V>(entries: Seq<(Key, V)>, indices: Seq<u16>) -> Seq<(Key, V)> {
    Seq::new(indices.len(), |p: int| entries[indices[p] as int])
}

/// Rearranging a list of entries by a permutation describes the same map.
proof fn lemma_gathered<V>(orig: Seq<(Key, V)>, indices: Seq<u16>, fin: Seq<(Key, V)>)
    requires
        permutation_of(indices, orig.len()),
        fin == Seq::new(indices.len(), |i: int| orig[indices[i] as int]),
        keys_distinct(fin),
    ensures
        keys_distinct(orig),
        entries_map(fin) == entries_map(orig),
{
    let n = orig.len();
    let inv = lemma_pigeonhole(Seq::new(n, |p: int| indices[p] as int), n);
    assert forall|i: int, j: int| 0 <= i < n && 0 <= j < n && i != j implies #[trigger] orig[i].0@ != #[trigger] orig[j].0@ by {
        assert(fin[inv[i]] == orig[i]);
        assert(fin[inv[j]] == orig[j]);
    }
    assert forall|k: KeyView| has_key(fin, k) <==> has_key(orig, k) by {
        if has_key(fin, k) {
            let p = choose|p: int| 0 <= p < fin.len() && (#[trigger] fin[p]).0@ == k;
            assert(orig[indices[p] as int].0@ == k);
        }
        if has_key(orig, k) {
            let i = choose|i: int| 0 <= i < orig.len() && (#[trigger] orig[i]).0@ == k;
            assert(fin[inv[i]].0@ == k);
        }
    }
    assert forall|k: KeyView| has_key(fin, k) implies entries_map(fin)[k] == entries_map(orig)[k] by {
        let p = position_of(fin, k);
        lemma_position_of(fin, p);
        lemma_position_of(orig, indices[p] as int);
    }
    assert(entries_map(fin) =~= entries_map(orig));
}

/// The entries of a successful construction have distinct keys: the tables send equal keys to one position.
proof fn lemma_built_keys_distinct<V>(entries: Seq<(Key, V)>, st: MapState)
    requires
        construction_matches(entries, Ok(st)),
    ensures
        keys_distinct(entries),
{
    let n = entries.len();
    if n > SCAN_MAX {
        let hs = hashes_of(entries, st.seed);
        let ind = st.indices@;
        let inv = lemma_pigeonhole(Seq::new(n, |p: int| ind[p] as int), n);
        assert forall|i: int, j: int| 0 <= i < n && 0 <= j < n && i != j implies #[trigger] entries[i].0@ != #[trigger] entries[j].0@ by {
            let (pi, pj) = (inv[i], inv[j]);
            assert(ind[pi] == i && ind[pj] == j);
            assert(spec_index(hs[ind[pi] as int], n, st.pilots@, st.remap@) == pi);
            assert(spec_index(hs[ind[pj] as int], n, st.pilots@, st.remap@) == pj);
        }
    }
}

/// A successful construction over entries gives parts that make up a map of those entries, in the order of
/// its indices.
pub proof fn lemma_construction_parts_valid<V>(entries: Seq<(Key, V)>, st: MapState)
    requires
        construction_matches(entries, Ok(st)),
        entries.len() <= MAX_LEN,
    ensures
        parts_valid(st.seed, gathered_entries(entries, st.indices@), st.pilots@, st.remap@),
{
    let n = entries.len();
    let fin = gathered_entries(entries, st.indices@);
    let ind = st.indices@;
    lemma_built_keys_distinct(entries, st);
    if n <= SCAN_MAX {
        assert(ind == identity(n));
        assert(fin =~= entries);
    } else {
        assert(permutation_of(ind, n));
        assert forall|i: int, j: int| 0 <= i < n && 0 <= j < n && i != j implies #[trigger] fin[i].0@ != #[trigger] fin[j].0@ by {
            assert(ind[i] != ind[j]);
        }
        let hs = hashes_of(entries, st.seed);
        assert forall|p: int| 0 <= p < n implies #[trigger] spec_index(key_hash(fin[p].0@, st.seed), n, st.pilots@, st.remap@) == p by {
            assert(hs[ind[p] as int] == key_hash(fin[p].0@, st.seed));
        }
    }
}

/// Why a map could not be built from a list of entries.
#[derive(Clone, Copy, Debug, PartialEq, Eq)]
pub enum BuildError {
    /// There are more than `MAX_LEN` entries.
    TooManyEntries,
    /// Two entries have the same key.
    DuplicateKey,
    /// Two distinct keys hash identically under a seed of the search.
    Indistinguishable,
    /// No perfect hash function was found within the search's budget.
    Exhausted,
}

impl BuildError {
    /// The message with which building a map from entries that cannot make one stops.
    pub fn message(&self) -> (r: &'static str)
        ensures
            r@ == match *self {
                BuildError::TooManyEntries => "cannot have more than 65535 entries"@,
                BuildError::DuplicateKey => "duplicate key present"@,
                BuildError::Indistinguishable => "could not find a perfect hash function for the given keys; two distinct keys hash identically under every seed (is `Hash` consistent with `Eq`?)"@,
                BuildError::Exhausted => "could not find a perfect hash function for the given keys after 256 attempts"@,
            },
    {
        match self {
            BuildError::TooManyEntries => "cannot have more than 65535 entries",
            BuildError::DuplicateKey => "duplicate key present",
            BuildError::Indistinguishable => "could not find a perfect hash function for the given keys; two distinct keys hash identically under every seed (is `Hash` consistent with `Eq`?)",
            BuildError::Exhausted => "could not find a perfect hash function for the given keys after 256 attempts",
        }
    }
}

impl<V: 'static> FrozenMap<V> {
    /// Returns the number of entries in the map.
    pub fn len(&self) -> (r: usize)
        ensures
            r == self@.len(),
            r == self.listing().len(),
            self@.dom().finite(),
    {
        proof {
            use_type_invariant(self);
            lemma_entries_map_len(self.listing());
        }
        self.entries.len()
    }

    /// Returns `true` if the map contains no entries.
    pub fn is_empty(&self) -> (r: bool)
        ensures
            r == (self@.len() == 0),
            r == (self@ == Map::<KeyView, V>::empty()),
    {
        proof {
            use_type_invariant(self);
            lemma_entries_map_len(self.listing());
            if self.listing().len() > 0 {
                lemma_position_of(self.listing(), 0);
            } else {
                assert(self@ =~= Map::<KeyView, V>::empty());
            }
        }
        self.entries.len() == 0
    }

    /// Returns the value for a key that the map contains.
    pub fn index(&self, key: &Key) -> (r: &V)
        requires
            self@.contains_key(key@),
        ensures
            *r == self@[key@],
    {
        self.get(key).expect("no entry found for key")
    }

    /// Searches for a perfect hash function over the keys of the entries and, on success, arranges the
    /// entries in the order it gives.
    fn build(entries: Vec<(Key, V)>) -> (r: Result<Self, BuildError>)
        ensures
            match r {
                Ok(m) => {
                    &&& entries@.len() <= MAX_LEN
                    &&& keys_distinct(entries@)
                    &&& m@ == entries_map(entries@)
                    &&& m.listing().len() == entries@.len()
                    &&& entries@.len() <= SCAN_MAX ==> m.pilot_table().len() == 0 && m.hash_seed() == 0
                    &&& m.pilot_table().len() == 0 ==> m.remap_table().len() == 0 && entries@.len() <= DIRECT_MAX
                    &&& m.pilot_table().len() > 0 ==> pilot_tables(entries@.len(), m.pilot_table(), m.remap_table())
                },
                Err(BuildError::TooManyEntries) => entries@.len() > MAX_LEN,
                Err(BuildError::DuplicateKey) => entries@.len() <= MAX_LEN && !keys_distinct(entries@),
                Err(BuildError::Indistinguishable) => entries@.len() <= MAX_LEN && exists|i: int, j: int, seed: u64|
                    0 <= i < entries@.len() && 0 <= j < entries@.len() && i != j
                    && #[trigger] entries@[i].0@ != #[trigger] entries@[j].0@
                    && drawn_seed(seed, SEED_BUDGET as nat)
                    && #[trigger] key_hash(entries@[i].0@, seed) == key_hash(entries@[j].0@, seed),
                Err(BuildError::Exhausted) => SCAN_MAX < entries@.len() <= MAX_LEN,
            },
            entries@.len() > MAX_LEN ==> r matches Err(BuildError::TooManyEntries),
            entries@.len() <= SCAN_MAX ==> r is Ok,
            entries@.len() <= MAX_LEN ==> match r {
                Ok(m) => exists|st: MapState| construction_matches(entries@, Ok(st)) && #[trigger] st.seed == m.hash_seed()
                    && st.pilots@ == m.pilot_table() && st.remap@ == m.remap_table()
                    && m.listing() == gathered_entries(entries@, st.indices@),
                Err(BuildError::Exhausted) => construction_matches(entries@, Err(ConstructError::Exhausted)),
                Err(_) => exists|i: usize, j: usize| #[trigger] construction_matches(entries@, Err(ConstructError::Identical(i, j)))
                    && (r matches Err(BuildError::DuplicateKey) <==> entries@[i as int].0@ == entries@[j as int].0@),
            },
    {
        if entries.len() > MAX_LEN {
            return Err(BuildError::TooManyEntries);
        }
        let ghost orig = entries@;
        match generate(entries.as_slice()) {
            Ok(st) => {
                let seed = st.seed;
                proof {
                    if st.pilots@.len() > 0 {
                        let k = lemma_bucket_count_table(orig.len());
                        assert(is_table_len(st.pilots@.len(), k));
                    }
                }
                let shift = pilot_shift(st.pilots.as_slice());
                let gathered = gather(entries, st.indices.as_slice());
                proof {
                    let n = orig.len();
                    let fin = gathered@;
                    assert(fin == Seq::new(st.indices@.len(), |i: int| orig[st.indices@[i] as int]));
                    if n > SCAN_MAX {
                        assert forall|p: int| 0 <= p < n implies #[trigger] spec_index(key_hash(fin[p].0@, seed), n, st.pilots@, st.remap@) == p by {
                            assert(spec_index(hashes_of(orig, seed)[st.indices@[p] as int], n, st.pilots@, st.remap@) == p);
                        }
                        assert forall|i: int, j: int| 0 <= i < n && 0 <= j < n && i != j implies #[trigger] fin[i].0@ != #[trigger] fin[j].0@ by {
                            assert(spec_index(key_hash(fin[i].0@, seed), n, st.pilots@, st.remap@) == i);
                            assert(spec_index(key_hash(fin[j].0@, seed), n, st.pilots@, st.remap@) == j);
                        }
                    }
                    lemma_gathered(orig, st.indices@, fin);
                }
                let ghost st_view = st;
                let m = FrozenMap {
                    seed,
                    shift,
                    entries: CowSlice::Owned(gathered),
                    pilots: CowSlice::Owned(st.pilots),
                    remap: CowSlice::Owned(st.remap),
                };
                proof {
                    assert(st_view.seed == m.hash_seed());
                    assert(m.listing() == gathered_entries(orig, st_view.indices@));
                }
                Ok(m)
            },
            Err(ConstructError::Identical(i, j)) => {
                if key_eq(&entries[i].0, &entries[j].0) {
                    Err(BuildError::DuplicateKey)
                } else {
                    proof {
                        let seed = choose|seed: u64| drawn_seed(seed, SEED_BUDGET as nat)
                            && #[trigger] orig[i as int].seeded_hash(seed) == orig[j as int].seeded_hash(seed);
                        assert(key_hash(orig[i as int].0@, seed) == key_hash(orig[j as int].0@, seed));
                    }
                    Err(BuildError::Indistinguishable)
                }
            },
            Err(ConstructError::Exhausted) => Err(BuildError::Exhausted),
        }
    }

    /// Constructs a map from a vector of key-value entries, or says why it cannot: there are more than
    /// `MAX_LEN` entries, two entries share a key, or no perfect hash function is found for the keys. At
    /// most `SCAN_MAX` entries always succeed.
    pub fn try_from_vec(entries: Vec<(Key, V)>) -> (r: Result<Self, BuildError>)
        ensures
            match r {
                Ok(m) => {
                    &&& entries@.len() <= MAX_LEN
                    &&& keys_distinct(entries@)
                    &&& m@ == entries_map(entries@)
                    &&& m.listing().len() == entries@.len()
                    &&& entries@.len() <= SCAN_MAX ==> m.pilot_table().len() == 0 && m.hash_seed() == 0
                    &&& m.pilot_table().len() == 0 ==> m.remap_table().len() == 0 && entries@.len() <= DIRECT_MAX
                    &&& m.pilot_table().len() > 0 ==> pilot_tables(entries@.len(), m.pilot_table(), m.remap_table())
                },
                Err(BuildError::TooManyEntries) => entries@.len() > MAX_LEN,
                Err(BuildError::DuplicateKey) => entries@.len() <= MAX_LEN && !keys_distinct(entries@),
                Err(BuildError::Indistinguishable) => entries@.len() <= MAX_LEN && exists|i: int, j: int, seed: u64|
                    0 <= i < entries@.len() && 0 <= j < entries@.len() && i != j
                    && #[trigger] entries@[i].0@ != #[trigger] entries@[j].0@
                    && drawn_seed(seed, SEED_BUDGET as nat)
                    && #[trigger] key_hash(entries@[i].0@, seed) == key_hash(entries@[j].0@, seed),
                Err(BuildError::Exhausted) => SCAN_MAX < entries@.len() <= MAX_LEN,
            },
            entries@.len() > MAX_LEN ==> r matches Err(BuildError::TooManyEntries),
            entries@.len() <= SCAN_MAX ==> r is Ok,
            r is Ok <==> (entries@.len() <= MAX_LEN && keys_distinct(entries@) && construction_succeeds(entries@)),
            entries@.len() <= MAX_LEN ==> match r {
                Ok(m) => exists|st: MapState| construction_matches(entries@, Ok(st)) && #[trigger] st.seed == m.hash_seed()
                    && st.pilots@ == m.pilot_table() && st.remap@ == m.remap_table()
                    && m.listing() == gathered_entries(entries@, st.indices@),
                Err(BuildError::Exhausted) => construction_matches(entries@, Err(ConstructError::Exhausted)),
                Err(_) => exists|i: usize, j: usize| #[trigger] construction_matches(entries@, Err(ConstructError::Identical(i, j)))
                    && (r matches Err(BuildError::DuplicateKey) <==> entries@[i as int].0@ == entries@[j as int].0@),
            },
    {
        let ghost orig = entries@;
        let r = Self::build(entries);
        proof {
            let rv = r;
            match rv {
                Ok(m) => {
                    let st = choose|st: MapState| construction_matches(orig, Ok(st)) && #[trigger] st.seed == m.hash_seed()
                        && st.pilots@ == m.pilot_table() && st.remap@ == m.remap_table()
                        && m.listing() == gathered_entries(orig, st.indices@);
                    lemma_construction_succeeds(orig, Ok(st));
                },
                Err(BuildError::Exhausted) => {
                    lemma_construction_succeeds(orig, Err(ConstructError::Exhausted));
                },
                Err(BuildError::TooManyEntries) => {},
                Err(_) => {
                    let (i, j) = choose|i: usize, j: usize| #[trigger] construction_matches(orig, Err(ConstructError::Identical(i, j)))
                        && (r matches Err(BuildError::DuplicateKey) <==> orig[i as int].0@ == orig[j as int].0@);
                    lemma_construction_succeeds(orig, Err(ConstructError::Identical(i, j)));
                },
            }
        }
        r
    }

    /// Constructs a map from a vector of key-value entries: at most `MAX_LEN` entries with distinct keys,
    /// over which the search for a perfect hash function succeeds. `try_from_vec` tests for these.
    pub fn from_vec(entries: Vec<(Key, V)>) -> (m: Self)
        requires
            entries@.len() <= MAX_LEN,
            keys_distinct(entries@),
            construction_succeeds(entries@),
        ensures
            m@ == entries_map(entries@),
            m.listing().len() == entries@.len(),
            entries@.len() <= SCAN_MAX ==> m.pilot_table().len() == 0 && m.hash_seed() == 0,
            m.pilot_table().len() == 0 ==> m.remap_table().len() == 0 && entries@.len() <= DIRECT_MAX,
            m.pilot_table().len() > 0 ==> pilot_tables(entries@.len(), m.pilot_table(), m.remap_table()),
            exists|st: MapState| construction_matches(entries@, Ok(st)) && #[trigger] st.seed == m.hash_seed()
                && st.pilots@ == m.pilot_table() && st.remap@ == m.remap_table()
                && m.listing() == gathered_entries(entries@, st.indices@),
    {
        let ghost orig = entries@;
        let r = Self::build(entries);
        proof {
            match r {
                Ok(_) => {},
                Err(BuildError::Exhausted) => {
                    lemma_construction_succeeds(orig, Err(ConstructError::Exhausted));
                },
                Err(BuildError::TooManyEntries) => {},
                Err(_) => {
                    let (i, j) = choose|i: usize, j: usize| #[trigger] construction_matches(orig, Err(ConstructError::Identical(i, j)))
                        && (r matches Err(BuildError::DuplicateKey) <==> orig[i as int].0@ == orig[j as int].0@);
                    lemma_construction_succeeds(orig, Err(ConstructError::Identical(i, j)));
                },
            }
        }
        let message = match &r {
            Ok(_) => "",
            Err(e) => e.message(),
        };
        r.expect(message)
    }

}

/// Returns whether every remap value is a valid index into `n` entries.
pub fn remap_targets_valid(remap: &[u16], n: usize) -> (r: bool)
    ensures
        r == forall|o: int| 0 <= o < remap@.len() ==> (#[trigger] remap@[o]) < n,
{
    for o in 0..remap.len()
        invariant
            forall|q: int| 0 <= q < o ==> (#[trigger] remap@[q]) < n,
    {
        if remap[o] as usize >= n {
            return false;
        }
    }
    true
}

/// Returns whether the tables have a valid shape for a map of `n` entries.
fn tables_shape_valid(pilots: &[u16], remap: &[u16], n: usize) -> (r: bool)
    requires
        n <= MAX_LEN,
    ensures
        r == tables_valid(n as nat, pilots@, remap@),
{
    if pilots.len() == 0 {
        remap.len() == 0
    } else {
        pilots.len() == bucket_count(n) && remap.len() == slot_count(n) - n && remap_targets_valid(remap, n)
    }
}

impl<V: 'static> FrozenMap<V> {
    /// Reconstructs a map from the parts of an earlier construction, borrowed for the whole program.
    pub fn from_baked_parts(
        seed: u64,
        pilots: &'static [u16],
        remap: &'static [u16],
        entries: &'static [(Key, V)],
    ) -> (r: Self)
        requires
            parts_valid(seed, entries@, pilots@, remap@),
        ensures
            r.listing() == entries@,
            r@ == entries_map(entries@),
            r.hash_seed() == seed,
            r.pilot_table() == pilots@,
            r.remap_table() == remap@,
    {
        proof {
            if pilots@.len() > 0 {
                let k = lemma_bucket_count_table(entries@.len());
                assert(is_table_len(pilots@.len(), k));
            }
        }
        let shift = pilot_shift(pilots);
        FrozenMap {
            seed,
            shift,
            entries: CowSlice::Borrowed(entries),
            pilots: CowSlice::Borrowed(pilots),
            remap: CowSlice::Borrowed(remap),
        }
    }

    /// Reconstructs a map from parts borrowed for the whole program after checking that they make up a map:
    /// at most `MAX_LEN` entries, tables of a valid shape, and, past `SCAN_MAX` entries, tables that send
    /// each entry's key to the entry's position. Returns `None` when a check fails.
    pub fn from_baked_parts_checked(
        seed: u64,
        pilots: &'static [u16],
        remap: &'static [u16],
        entries: &'static [(Key, V)],
    ) -> (r: Option<Self>)
        ensures
            r is Some <==> parts_valid(seed, entries@, pilots@, remap@),
            r matches Some(m) ==> m.listing() == entries@ && m@ == entries_map(entries@) && m.hash_seed() == seed
                && m.pilot_table() == pilots@ && m.remap_table() == remap@,
    {
        let n = entries.len();
        if n > MAX_LEN {
            return None;
        }
        if !tables_shape_valid(pilots, remap, n) {
            return None;
        }
        if n > SCAN_MAX {
            proof {
                if pilots@.len() > 0 {
                    let k = lemma_bucket_count_table(n as nat);
                    assert(is_table_len(pilots@.len(), k));
                }
            }
            let shift = pilot_shift(pilots);
            for p in 0..n
                invariant
                    n == entries@.len(),
                    SCAN_MAX < n <= MAX_LEN,
                    tables_valid(n as nat, pilots@, remap@),
                    shift == spec_pilot_shift(pilots@.len()),
                    forall|q: int| 0 <= q < p ==> #[trigger] spec_index(key_hash(entries@[q].0@, seed), n as nat, pilots@, remap@) == q,
            {
                let h = hash_key(&entries[p].0, seed);
                if entry_index(h, n, shift, pilots, remap) != p {
                    return None;
                }
            }
            proof {
                assert forall|i: int, j: int| 0 <= i < n && 0 <= j < n && i != j implies #[trigger] entries@[i].0@ != #[trigger] entries@[j].0@ by {
                    assert(spec_index(key_hash(entries@[i].0@, seed), n as nat, pilots@, remap@) == i);
                    assert(spec_index(key_hash(entries@[j].0@, seed), n as nat, pilots@, remap@) == j);
                }
            }
        }
        Some(Self::from_baked_parts(seed, pilots, remap, entries))
    }
}

impl<V: 'static> Default for FrozenMap<V> {
    /// An empty map.
    fn default() -> (r: Self)
        ensures
            r@ == Map::<KeyView, V>::empty(),
    {
        let r = FrozenMap {
            seed: 0,
            shift: NO_PILOTS,
            entries: CowSlice::Owned(Vec::new()),
            pilots: CowSlice::Owned(Vec::new()),
            remap: CowSlice::Owned(Vec::new()),
        };
        proof {
            assert(r@ =~= Map::<KeyView, V>::empty());
        }
        r
    }
}

impl<V: 'static> FrozenMap<V> {
    /// The stored entries as a slice.
    pub(crate) fn entry_slice(&self) -> (r: &[(Key, V)])
        ensures
            r@ == self.listing(),
            keys_distinct(r@),
            r@.len() <= MAX_LEN,
    {
        proof {
            use_type_invariant(self);
        }
        self.entries.as_slice()
    }

    /// Returns an iterator over the key-value pairs of the map, in the stored order.
    pub fn entries(&self) -> (r: MapEntries<'_, V>)
        ensures
            r.remaining() == self.listing(),
            keys_distinct(self.listing()),
    {
        MapEntries::new(self.entry_slice())
    }

    /// Returns an iterator over the keys of the map, in the stored order.
    pub fn keys(&self) -> (r: MapKeys<'_, V>)
        ensures
            r.remaining() == self.listing(),
            keys_distinct(self.listing()),
    {
        MapKeys::new(self.entry_slice())
    }

    /// Returns an iterator over the values of the map, in the stored order.
    pub fn values(&self) -> (r: MapValues<'_, V>)
        ensures
            r.remaining() == self.listing(),
            keys_distinct(self.listing()),
    {
        MapValues::new(self.entry_slice())
    }
}

/// Values that maps compare: `value_eq` decides, as `value_eq_spec` says, whether two values are equal.
pub trait ValueEq: Sized {
    /// Whether two values are equal.
    spec fn value_eq_spec(&self, other: &Self) -> bool;

    /// Returns whether two values are equal.
    fn value_eq(&self, other: &Self) -> (r: bool)
        ensures
            r == self.value_eq_spec(other),
    ;
}

impl ValueEq for u8 {
    open spec fn value_eq_spec(&self, other: &Self) -> bool {
        *self == *other
    }

    fn value_eq(&self, other: &Self) -> (r: bool) {
        *self == *other
    }
}

impl ValueEq for u16 {
    open spec fn value_eq_spec(&self, other: &Self) -> bool {
        *self == *other
    }

    fn value_eq(&self, other: &Self) -> (r: bool) {
        *self == *other
    }
}

impl ValueEq for u32 {
    open spec fn value_eq_spec(&self, other: &Self) -> bool {
        *self == *other
    }

    fn value_eq(&self, other: &Self) -> (r: bool) {
        *self == *other
    }
}

impl ValueEq for u64 {
    open spec fn value_eq_spec(&self, other: &Self) -> bool {
        *self == *other
    }

    fn value_eq(&self, other: &Self) -> (r: bool) {
        *self == *other
    }
}

impl ValueEq for u128 {
    open spec fn value_eq_spec(&self, other: &Self) -> bool {
        *self == *other
    }

    fn value_eq(&self, other: &Self) -> (r: bool) {
        *self == *other
    }
}

impl ValueEq for usize {
    open spec fn value_eq_spec(&self, other: &Self) -> bool {
        *self == *other
    }

    fn value_eq(&self, other: &Self) -> (r: bool) {
        *self == *other
    }
}

impl ValueEq for i8 {
    open spec fn value_eq_spec(&self, other: &Self) -> bool {
        *self == *other
    }

    fn value_eq(&self, other: &Self) -> (r: bool) {
        *self == *other
    }
}

impl ValueEq for i16 {
    open spec fn value_eq_spec(&self, other: &Self) -> bool {
        *self == *other
    }

    fn value_eq(&self, other: &Self) -> (r: bool) {
        *self == *other
    }
}

impl ValueEq for i32 {
    open spec fn value_eq_spec(&self, other: &Self) -> bool {
        *self == *other
    }

    fn value_eq(&self, other: &Self) -> (r: bool) {
        *self == *other
    }
}

impl ValueEq for i64 {
    open spec fn value_eq_spec(&self, other: &Self) -> bool {
        *self == *other
    }

    fn value_eq(&self, other: &Self) -> (r: bool) {
        *self == *other
    }
}

impl ValueEq for i128 {
    open spec fn value_eq_spec(&self, other: &Self) -> bool {
        *self == *other
    }

    fn value_eq(&self, other: &Self) -> (r: bool) {
        *self == *other
    }
}

impl ValueEq for isize {
    open spec fn value_eq_spec(&self, other: &Self) -> bool {
        *self == *other
    }

    fn value_eq(&self, other: &Self) -> (r: bool) {
        *self == *other
    }
}

impl ValueEq for bool {
    open spec fn value_eq_spec(&self, other: &Self) -> bool {
        *self == *other
    }

    fn value_eq(&self, other: &Self) -> (r: bool) {
        *self == *other
    }
}

impl ValueEq for char {
    open spec fn value_eq_spec(&self, other: &Self) -> bool {
        *self == *other
    }

    fn value_eq(&self, other: &Self) -> (r: bool) {
        *self == *other
    }
}

impl ValueEq for () {
    open spec fn value_eq_spec(&self, other: &Self) -> bool {
        true
    }

    fn value_eq(&self, other: &Self) -> (r: bool) {
        true
    }
}

impl<'a> ValueEq for &'a str {
    open spec fn value_eq_spec(&self, other: &Self) -> bool {
        (**self)@ == (**other)@
    }

    fn value_eq(&self, other: &Self) -> (r: bool) {
        (*self).to_owned() == (*other).to_owned()
    }
}

impl ValueEq for String {
    open spec fn value_eq_spec(&self, other: &Self) -> bool {
        self@ == other@
    }

    fn value_eq(&self, other: &Self) -> (r: bool) {
        *self == *other
    }
}

impl<T: ValueEq> ValueEq for Vec<T> {
    open spec fn value_eq_spec(&self, other: &Self) -> bool {
        &&& self@.len() == other@.len()
        &&& forall|i: int| 0 <= i < self@.len() ==> #[trigger] self@[i].value_eq_spec(&other@[i])
    }

    fn value_eq(&self, other: &Self) -> (r: bool) {
        if self.len() != other.len() {
            return false;
        }
        for i in 0..self.len()
            invariant
                self@.len() == other@.len(),
                forall|j: int| 0 <= j < i ==> #[trigger] self@[j].value_eq_spec(&other@[j]),
        {
            if !self[i].value_eq(&other[i]) {
                return false;
            }
        }
        true
    }
}

/// Whether two maps have the same keys, with values equal under each key as `value_eq_spec` says.
pub open spec fn same_entries<V: ValueEq>(a: Map<KeyView, V>, b: Map<KeyView, V>) -> bool {
    &&& a.dom() == b.dom()
    &&& forall|k: KeyView| #[trigger] a.contains_key(k) ==> a[k].value_eq_spec(&b[k])
}

/// Whether `value_eq_spec` on `V` is equality of values.
pub open spec fn value_eq_is_equality<V: ValueEq>() -> bool {
    forall|a: V, b: V| #[trigger] a.value_eq_spec(&b) <==> a == b
}

/// Integers, `bool`, `char` and `()` compare equal exactly when they are equal.
pub proof fn lemma_value_eq_primitives()
    ensures
        value_eq_is_equality::<u8>(),
        value_eq_is_equality::<u16>(),
        value_eq_is_equality::<u32>(),
        value_eq_is_equality::<u64>(),
        value_eq_is_equality::<u128>(),
        value_eq_is_equality::<usize>(),
        value_eq_is_equality::<i8>(),
        value_eq_is_equality::<i16>(),
        value_eq_is_equality::<i32>(),
        value_eq_is_equality::<i64>(),
        value_eq_is_equality::<i128>(),
        value_eq_is_equality::<isize>(),
        value_eq_is_equality::<bool>(),
        value_eq_is_equality::<char>(),
        value_eq_is_equality::<()>(),
{
}

/// Strings, owned or borrowed, compare equal exactly when they hold the same characters.
pub proof fn lemma_value_eq_strings(a: &str, b: &str, c: String, d: String)
    ensures
        a.value_eq_spec(&b) <==> a@ == b@,
        c.value_eq_spec(&d) <==> c@ == d@,
{
}

/// Vectors of values that compare equal exactly when equal compare equal exactly when they hold the same
/// values at every position.
pub proof fn lemma_value_eq_vectors<T: ValueEq>(a: Vec<T>, b: Vec<T>)
    requires
        value_eq_is_equality::<T>(),
    ensures
        a.value_eq_spec(&b) <==> a@ == b@,
{
    if a.value_eq_spec(&b) {
        assert forall|i: int| 0 <= i < a@.len() implies a@[i] == b@[i] by {
            assert(a@[i].value_eq_spec(&b@[i]));
        }
        assert(a@ =~= b@);
    }
    if a@ == b@ {
        assert forall|i: int| 0 <= i < a@.len() implies #[trigger] a@[i].value_eq_spec(&b@[i]) by {
            assert(a@[i] == b@[i]);
        }
    }
}

/// Two maps with vector values have the same entries exactly when they have the same keys and, under each,
/// vectors with the same values at every position.
pub proof fn lemma_same_entries_vectors<T: ValueEq>(a: Map<KeyView, Vec<T>>, b: Map<KeyView, Vec<T>>)
    requires
        value_eq_is_equality::<T>(),
    ensures
        same_entries(a, b) <==> (a.dom() == b.dom() && forall|k: KeyView| #[trigger] a.contains_key(k) ==> a[k]@ == b[k]@),
{
    assert forall|k: KeyView| a.contains_key(k) implies (#[trigger] a[k].value_eq_spec(&b[k]) <==> a[k]@ == b[k]@) by {
        lemma_value_eq_vectors(a[k], b[k]);
    }
}

impl<V: 'static> FrozenMap<V> {
    /// Returns whether two maps have the same keys, with values that compare equal under each key.
    /// The order in which the maps were built does not matter.
    pub fn eq(&self, other: &Self) -> (r: bool)
        where
            V: ValueEq,
        ensures
            r == same_entries(self@, other@),
            value_eq_is_equality::<V>() ==> (r == (self@ == other@)),
    {
        let n = self.len();
        let m = other.len();
        if n != m {
            proof {
                if same_entries(self@, other@) {
                    assert(self@.dom() == other@.dom());
                }
            }
            return false;
        }
        let entries = self.entry_slice();
        for i in 0..n
            invariant
                entries@ == self.listing(),
                n == entries@.len(),
                n == self@.len(),
                n == other@.len(),
                self@.dom().finite(),
                other@.dom().finite(),
                keys_distinct(entries@),
                forall|j: int| 0 <= j < i ==> other@.contains_key((#[trigger] entries@[j]).0@)
                    && entries@[j].1.value_eq_spec(&other@[entries@[j].0@]),
        {
            proof {
                lemma_position_of(entries@, i as int);
            }
            match other.get(&entries[i].0) {
                Some(w) => {
                    if !entries[i].1.value_eq(w) {
                        proof {
                            lemma_lookup_after_build(entries@);
                            assert(self@[entries@[i as int].0@] == entries@[i as int].1);
                            assert(self@.contains_key(entries@[i as int].0@));
                        }
                        return false;
                    }
                },
                None => {
                    proof {
                        lemma_lookup_after_build(entries@);
                        assert(self@.contains_key(entries@[i as int].0@));
                    }
                    return false;
                },
            }
        }
        proof {
            assert forall|k: KeyView| self@.contains_key(k) implies other@.contains_key(k) && self@[k].value_eq_spec(&other@[k]) by {
                let p = position_of(entries@, k);
                lemma_position_of(entries@, p);
                assert(other@.contains_key(entries@[p].0@));
            }
            vstd::set_lib::lemma_subset_equality(self@.dom(), other@.dom());
            if value_eq_is_equality::<V>() {
                assert forall|k: KeyView| self@.contains_key(k) implies other@.contains_key(k) && other@[k] == self@[k] by {
                    assert(self@[k].value_eq_spec(&other@[k]));
                }
                assert(self@ =~= other@);
            }
        }
        true
    }
}

/// Lookup after construction: the map that a list of entries with distinct keys describes holds exactly
/// the keys of the entries, maps each entry's key to that entry's value, and has one key per entry.
pub proof fn lemma_lookup_after_build<V>(entries: Seq<(Key, V)>)
    requires
        keys_distinct(entries),
    ensures
        forall|i: int| 0 <= i < entries.len() ==> #[trigger] entries_map(entries).contains_key(entries[i].0@)
            && entries_map(entries)[entries[i].0@] == entries[i].1,
        forall|k: KeyView| entries_map(entries).contains_key(k) <==>
            exists|i: int| 0 <= i < entries.len() && (#[trigger] entries[i]).0@ == k,
        entries_map(entries).dom().finite(),
        entries_map(entries).len() == entries.len(),
{
    assert forall|i: int| 0 <= i < entries.len() implies #[trigger] entries_map(entries).contains_key(entries[i].0@)
        && entries_map(entries)[entries[i].0@] == entries[i].1 by {
        lemma_position_of(entries, i);
    }
    lemma_entries_map_len(entries);
}

/// Order independence: reordering a list of entries with distinct keys describes the same map, so maps
/// built from the same entries in any order are equal.
pub proof fn lemma_reorder_same_map<V>(entries: Seq<(Key, V)>, order: Seq<u16>, reordered: Seq<(Key, V)>)
    requires
        keys_distinct(entries),
        permutation_of(order, entries.len()),
        reordered == Seq::new(order.len(), |i: int| entries[order[i] as int]),
    ensures
        keys_distinct(reordered),
        entries_map(reordered) == entries_map(entries),
{
    assert forall|i: int, j: int| 0 <= i < reordered.len() && 0 <= j < reordered.len() && i != j
        implies #[trigger] reordered[i].0@ != #[trigger] reordered[j].0@ by {
        assert(order[i] != order[j]);
    }
    lemma_gathered(entries, order, reordered);
}

impl<V: 'static> FrozenMap<V> {
    /// Returns the seed that keys are hashed with.
    pub fn seed(&self) -> (r: u64)
        ensures
            r == self.hash_seed(),
    {
        self.seed
    }

    /// Returns the pilot table: one pilot per bucket, or empty when the map uses no pilots.
    pub fn pilots(&self) -> (r: &[u16])
        ensures
            r@ == self.pilot_table(),
    {
        self.pilots.as_slice()
    }

    /// Returns the remap table for the overflow slots of the pilot strategy.
    pub fn remap(&self) -> (r: &[u16])
        ensures
            r@ == self.remap_table(),
    {
        self.remap.as_slice()
    }

    /// Returns the entries as a slice, in the stored order. Together with the seed and the tables, they
    /// are parts from which `from_baked_parts` rebuilds the map.
    pub fn as_slice(&self) -> (r: &[(Key, V)])
        ensures
            r@ == self.listing(),
            parts_valid(self.hash_seed(), self.listing(), self.pilot_table(), self.remap_table()),
    {
        proof {
            use_type_invariant(self);
        }
        self.entry_slice()
    }
}

/// Copies a table of `u16` values.
fn copy_table(table: &CowSlice<u16>) -> (r: CowSlice<u16>)
    ensures
        r@ == table@,
{
    match table {
        CowSlice::Borrowed(b) => CowSlice::Borrowed(b),
        CowSlice::Owned(v) => {
            let mut out: Vec<u16> = Vec::new();
            for i in 0..v.len()
                invariant
                    out@ == v@.take(i as int),
            {
                out.push(v[i]);
                proof {
                    assert(out@ =~= v@.take(i + 1));
                }
            }
            proof {
                assert(out@ =~= v@);
            }
            CowSlice::Owned(out)
        },
    }
}

/// Copies the entries of a map: the keys exactly, the values by their `clone`.
fn clone_entries<V: Clone + 'static>(entries: &CowSlice<(Key, V)>) -> (r: CowSlice<(Key, V)>)
    ensures
        r@.len() == entries@.len(),
        forall|i: int| 0 <= i < entries@.len() ==> (#[trigger] r@[i]).0@ == entries@[i].0@ && cloned::<V>(entries@[i].1, r@[i].1),
{
    match entries {
        CowSlice::Borrowed(b) => {
            proof {
                assert forall|i: int| 0 <= i < b@.len() implies cloned::<V>(b@[i].1, b@[i].1) by {}
            }
            CowSlice::Borrowed(b)
        },
        CowSlice::Owned(v) => {
            let mut out: Vec<(Key, V)> = Vec::new();
            for i in 0..v.len()
                invariant
                    out@.len() == i,
                    forall|j: int| 0 <= j < i ==> (#[trigger] out@[j]).0@ == v@[j].0@ && cloned::<V>(v@[j].1, out@[j].1),
            {
                let k = copy_key(&v[i].0);
                let value = v[i].1.clone();
                out.push((k, value));
            }
            CowSlice::Owned(out)
        },
    }
}

impl<V: Clone + 'static> Clone for FrozenMap<V> {
    /// Copies the map: the same keys, seed and tables, with each value cloned.
    fn clone(&self) -> (r: Self)
        ensures
            r.hash_seed() == self.hash_seed(),
            r.pilot_table() == self.pilot_table(),
            r.remap_table() == self.remap_table(),
            r.listing().len() == self.listing().len(),
            forall|i: int| 0 <= i < self.listing().len() ==> (#[trigger] r.listing()[i]).0@ == self.listing()[i].0@
                && cloned::<V>(self.listing()[i].1, r.listing()[i].1),
            r@.dom() == self@.dom(),
    {
        proof {
            use_type_invariant(self);
        }
        let entries = clone_entries(&self.entries);
        let pilots = copy_table(&self.pilots);
        let remap = copy_table(&self.remap);
        let r = FrozenMap { seed: self.seed, shift: self.shift, entries, pilots, remap };
        proof {
            let (a, b) = (self.entries@, r.entries@);
            assert forall|i: int, j: int| 0 <= i < b.len() && 0 <= j < b.len() && i != j implies #[trigger] b[i].0@ != #[trigger] b[j].0@ by {
                assert(a[i].0@ != a[j].0@);
            }
            if b.len() > SCAN_MAX {
                assert forall|p: int| 0 <= p < b.len() implies #[trigger] spec_index(key_hash(b[p].0@, self.seed), b.len(), r.pilots@, r.remap@) == p by {
                    assert(spec_index(key_hash(a[p].0@, self.seed), a.len(), self.pilots@, self.remap@) == p);
                }
            }
            assert forall|k: KeyView| has_key(b, k) <==> has_key(a, k) by {
                if has_key(b, k) {
                    let i = choose|i: int| 0 <= i < b.len() && (#[trigger] b[i]).0@ == k;
                    assert(a[i].0@ == k);
                }
                if has_key(a, k) {
                    let i = choose|i: int| 0 <= i < a.len() && (#[trigger] a[i]).0@ == k;
                    assert(b[i].0@ == k);
                }
            }
            assert(r@.dom() =~= self@.dom());
        }
        r
    }
}

} // verus!

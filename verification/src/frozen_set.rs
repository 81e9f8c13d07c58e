//! Immutable sets of keys, looked up through a minimal perfect hash function.

use crate::construct::{
    construction_matches, construction_succeeds, drawn_seed, lemma_same_hashes, ConstructError, MapState, SEED_BUDGET,
};
use crate::frozen_map::{entries_map, gathered_entries, keys_distinct, lemma_lookup_after_build, BuildError, FrozenMap};
use crate::iter::SetEntries;
use crate::kernel::{MAX_LEN, SCAN_MAX};
use crate::key::{key_hash, Key, KeyView, SeededHash};
use vstd::prelude::*;

verus! {

/// Whether no two values are equal.
pub open spec fn values_distinct(values: Seq<Key>) -> bool {
    forall|i: int, j: int|
        #![trigger values[i], values[j]]
        0 <= i < values.len() && 0 <= j < values.len() && i != j ==> values[i]@ != values[j]@
}

/// The set that a list of values describes.
pub open spec fn values_set(values: Seq<Key>) -> Set<KeyView> {
    values.map_values(|k: Key| k@).to_set()
}

/// The entries of a set's underlying map: each value paired with `()`.
pub open spec fn unit_entries(values: Seq<Key>) -> Seq<(Key, ())> {
    values.map_values(|k: Key| (k, ()))
}

/// An immutable set of keys.
///
/// Construct one with [`FrozenSet::from_vec`].
pub struct FrozenSet {
    map: FrozenMap<()>,
}

impl View for FrozenSet {
    type V = Set<KeyView>;

    open spec fn view(&self) -> Set<KeyView> {
        self.inner()@.dom()
    }
}

impl FrozenSet {
    /// The underlying map from each value to `()`.
    pub closed spec fn inner(self) -> FrozenMap<()> {
        self.map
    }

    /// Reconstructs a set from the map from each of its values to `()`.
    pub fn from_baked_map(map: FrozenMap<()>) -> (r: Self)
        ensures
            r.inner() == map,
            r@ == map@.dom(),
    {
        FrozenSet { map }
    }

    /// Returns the underlying map from each value to `()`.
    pub fn as_map(&self) -> (r: &FrozenMap<()>)
        ensures
            *r == self.inner(),
    {
        &self.map
    }

    /// Returns the value in the set equal to the given value, if present.
    pub fn get(&self, value: &Key) -> (r: Option<&Key>)
        ensures
            match r {
                Some(k) => self@.contains(value@) && k@ == value@,
                None => !self@.contains(value@),
            },
    {
        match self.map.get_entry(value) {
            Some((k, _)) => Some(k),
            None => None,
        }
    }

    /// Returns `true` if the set contains the given value.
    pub fn contains(&self, value: &Key) -> (r: bool)
        ensures
            r == self@.contains(value@),
    {
        self.map.contains_key(value)
    }

    /// Returns the number of values in the set.
    pub fn len(&self) -> (r: usize)
        ensures
            r == self@.len(),
            self@.finite(),
    {
        self.map.len()
    }

    /// Returns `true` if the set contains no values.
    pub fn is_empty(&self) -> (r: bool)
        ensures
            r == (self@.len() == 0),
            r == (self@ == Set::<KeyView>::empty()),
    {
        let r = self.map.is_empty();
        proof {
            if r {
                assert(self@ =~= Set::<KeyView>::empty());
            }
        }
        r
    }

    /// Returns an iterator over the values of the set, in the stored order.
    pub fn entries(&self) -> (r: SetEntries<'_>)
        ensures
            r.remaining() == self.inner().listing().map_values(|e: (Key, ())| e.0),
    {
        SetEntries::new(self.map.entry_slice())
    }

    /// Constructs a set from a vector of values: at most `MAX_LEN` distinct values, over which the
    /// search for a perfect hash function succeeds. `try_from_vec` tests for these.
    pub fn from_vec(values: Vec<Key>) -> (s: Self)
        requires
            values@.len() <= MAX_LEN,
            values_distinct(values@),
            construction_succeeds(values@),
        ensures
            s@ == values_set(values@),
            exists|st: MapState| construction_matches(unit_entries(values@), Ok(st))
                && #[trigger] st.seed == s.inner().hash_seed() && st.pilots@ == s.inner().pilot_table()
                && st.remap@ == s.inner().remap_table()
                && s.inner().listing() == gathered_entries(unit_entries(values@), st.indices@),
    {
        let ghost vs = values@;
        let pairs = unit_pairs(values);
        proof {
            lemma_unit_entries(vs);
        }
        let map = FrozenMap::from_vec(pairs);
        FrozenSet { map }
    }

    /// Constructs a set from a vector of values, or says why it cannot: there are more than `MAX_LEN`
    /// values, two values are equal, or no perfect hash function is found for the values. At most
    /// `SCAN_MAX` values always succeed.
    pub fn try_from_vec(values: Vec<Key>) -> (r: Result<Self, BuildError>)
        ensures
            match r {
                Ok(s) => values@.len() <= MAX_LEN && values_distinct(values@) && s@ == values_set(values@),
                Err(BuildError::TooManyEntries) => values@.len() > MAX_LEN,
                Err(BuildError::DuplicateKey) => values@.len() <= MAX_LEN && !values_distinct(values@),
                Err(BuildError::Indistinguishable) => values@.len() <= MAX_LEN && exists|i: int, j: int, seed: u64|
                    0 <= i < values@.len() && 0 <= j < values@.len() && i != j
                    && #[trigger] values@[i]@ != #[trigger] values@[j]@
                    && drawn_seed(seed, SEED_BUDGET as nat)
                    && #[trigger] key_hash(values@[i]@, seed) == key_hash(values@[j]@, seed),
                Err(BuildError::Exhausted) => SCAN_MAX < values@.len() <= MAX_LEN,
            },
            values@.len() > MAX_LEN ==> r matches Err(BuildError::TooManyEntries),
            values@.len() <= SCAN_MAX ==> r is Ok,
            r is Ok <==> (values@.len() <= MAX_LEN && values_distinct(values@) && construction_succeeds(values@)),
            values@.len() <= MAX_LEN ==> match r {
                Ok(s) => exists|st: MapState| construction_matches(unit_entries(values@), Ok(st))
                    && #[trigger] st.seed == s.inner().hash_seed() && st.pilots@ == s.inner().pilot_table()
                    && st.remap@ == s.inner().remap_table()
                && s.inner().listing() == gathered_entries(unit_entries(values@), st.indices@),
                Err(BuildError::Exhausted) => construction_matches(unit_entries(values@), Err(ConstructError::Exhausted)),
                Err(_) => exists|i: usize, j: usize| #[trigger] construction_matches(unit_entries(values@), Err(ConstructError::Identical(i, j)))
                    && (r matches Err(BuildError::DuplicateKey) <==> values@[i as int]@ == values@[j as int]@),
            },
    {
        let ghost vs = values@;
        let pairs = unit_pairs(values);
        proof {
            lemma_unit_entries(vs);
        }
        match FrozenMap::try_from_vec(pairs) {
            Ok(map) => Ok(FrozenSet { map }),
            Err(e) => {
                proof {
                    let es = unit_entries(vs);
                    if e is Indistinguishable {
                        let (i, j, seed) = choose|i: int, j: int, seed: u64|
                            0 <= i < es.len() && 0 <= j < es.len() && i != j
                            && #[trigger] es[i].0@ != #[trigger] es[j].0@
                            && drawn_seed(seed, SEED_BUDGET as nat)
                            && #[trigger] key_hash(es[i].0@, seed) == key_hash(es[j].0@, seed);
                        assert(vs[i]@ != vs[j]@);
                        assert(key_hash(vs[i]@, seed) == key_hash(vs[j]@, seed));
                    }
                }
                Err(e)
            },
        }
    }
}

/// Pairs each value with `()`, keeping their order.
fn unit_pairs(values: Vec<Key>) -> (pairs: Vec<(Key, ())>)
    ensures
        pairs@ == unit_entries(values@),
{
    let ghost vs = values@;
    let n = values.len();
    let mut values = values;
    // Take the values out back to front, then pair them up front to back.
    let mut reversed: Vec<Key> = Vec::new();
    while values.len() > 0
        invariant
            values@.len() + reversed@.len() == n,
            vs.len() == n,
            values@ == vs.take(values@.len() as int),
            forall|j: int| 0 <= j < reversed@.len() ==> #[trigger] reversed@[j] == vs[n - 1 - j],
        decreases values@.len(),
    {
        let v = values.pop().unwrap();
        reversed.push(v);
        proof {
            assert(values@ =~= vs.take(values@.len() as int));
        }
    }
    let mut pairs: Vec<(Key, ())> = Vec::new();
    while reversed.len() > 0
        invariant
            reversed@.len() + pairs@.len() == n,
            vs.len() == n,
            forall|j: int| 0 <= j < reversed@.len() ==> #[trigger] reversed@[j] == vs[n - 1 - j],
            pairs@ == unit_entries(vs).take(pairs@.len() as int),
        decreases reversed@.len(),
    {
        let v = reversed.pop().unwrap();
        pairs.push((v, ()));
        proof {
            assert(pairs@ =~= unit_entries(vs).take(pairs@.len() as int));
        }
    }
    proof {
        assert(pairs@ =~= unit_entries(vs));
    }
    pairs
}

/// The unit entries of a list of values have distinct keys exactly when the values are distinct, hash as
/// the values do, and describe the map whose keys are the values.
proof fn lemma_unit_entries(vs: Seq<Key>)
    ensures
        keys_distinct(unit_entries(vs)) == values_distinct(vs),
        construction_succeeds(unit_entries(vs)) == construction_succeeds(vs),
        entries_map(unit_entries(vs)).dom() == values_set(vs),
{
    let es = unit_entries(vs);
    if keys_distinct(es) {
        assert forall|i: int, j: int| 0 <= i < vs.len() && 0 <= j < vs.len() && i != j implies #[trigger] vs[i]@ != #[trigger] vs[j]@ by {
            assert(es[i].0 == vs[i] && es[j].0 == vs[j]);
        }
    }
    if values_distinct(vs) {
        assert forall|i: int, j: int| 0 <= i < es.len() && 0 <= j < es.len() && i != j implies #[trigger] es[i].0@ != #[trigger] es[j].0@ by {
            assert(vs[i]@ != vs[j]@);
        }
    }
    assert forall|i: int, seed: u64| 0 <= i < vs.len() implies #[trigger] vs[i].seeded_hash(seed) == #[trigger] es[i].seeded_hash(seed) by {
        assert(es[i].0 == vs[i]);
    }
    lemma_same_hashes(vs, es);
    assert(entries_map(es).dom() =~= values_set(vs)) by {
        assert forall|k: KeyView| entries_map(es).dom().contains(k) <==> values_set(vs).contains(k) by {
            let ks = vs.map_values(|v: Key| v@);
            if entries_map(es).dom().contains(k) {
                let i = choose|i: int| 0 <= i < es.len() && (#[trigger] es[i]).0@ == k;
                assert(ks[i] == k);
            }
            if values_set(vs).contains(k) {
                let i = choose|i: int| 0 <= i < ks.len() && ks[i] == k;
                assert(es[i].0@ == k);
            }
        }
    }
}

impl Default for FrozenSet {
    /// An empty set.
    fn default() -> (r: Self)
        ensures
            r@ == Set::<KeyView>::empty(),
    {
        let map = FrozenMap::<()>::default();
        let r = FrozenSet { map };
        proof {
            assert(r@ =~= Set::<KeyView>::empty());
        }
        r
    }
}

impl FrozenSet {
    /// Returns whether two sets hold the same values. The order in which the sets were built does not
    /// matter.
    pub fn eq(&self, other: &Self) -> (r: bool)
        ensures
            r == (self@ == other@),
    {
        let n = self.map.len();
        let m = other.map.len();
        if n != m {
            return false;
        }
        let entries = self.map.entry_slice();
        for i in 0..n
            invariant
                entries@ == self.inner().listing(),
                n == entries@.len(),
                n == self@.len(),
                n == other@.len(),
                self@.finite(),
                other@.finite(),
                keys_distinct(entries@),
                forall|j: int| 0 <= j < i ==> other@.contains((#[trigger] entries@[j]).0@),
        {
            if !other.contains(&entries[i].0) {
                proof {
                    lemma_lookup_after_build(entries@);
                }
                return false;
            }
        }
        proof {
            assert forall|k: KeyView| self@.contains(k) implies other@.contains(k) by {
                let p = choose|p: int| 0 <= p < entries@.len() && (#[trigger] entries@[p]).0@ == k;
            }
            vstd::set_lib::lemma_subset_equality(self@, other@);
        }
        true
    }
}

/// Membership after construction: the set that a list of values describes holds exactly those values.
pub proof fn lemma_members_after_build(values: Seq<Key>)
    ensures
        forall|i: int| 0 <= i < values.len() ==> #[trigger] values_set(values).contains(values[i]@),
        forall|k: KeyView| values_set(values).contains(k) <==> exists|i: int| 0 <= i < values.len() && (#[trigger] values[i])@ == k,
{
    let ks = values.map_values(|v: Key| v@);
    assert forall|i: int| 0 <= i < values.len() implies #[trigger] values_set(values).contains(values[i]@) by {
        assert(ks[i] == values[i]@);
    }
    assert forall|k: KeyView| values_set(values).contains(k) <==> exists|i: int| 0 <= i < values.len() && (#[trigger] values[i])@ == k by {
        if values_set(values).contains(k) {
            let i = choose|i: int| 0 <= i < ks.len() && ks[i] == k;
            assert(values[i]@ == k);
        }
        if exists|i: int| 0 <= i < values.len() && (#[trigger] values[i])@ == k {
            let i = choose|i: int| 0 <= i < values.len() && (#[trigger] values[i])@ == k;
            assert(ks[i] == k);
        }
    }
}

impl Clone for FrozenSet {
    /// Copies the set.
    fn clone(&self) -> (r: Self)
        ensures
            r@ == self@,
    {
        FrozenSet { map: self.map.clone() }
    }
}

} // verus!

//! Map and set construction: searching for a minimal perfect hash function over a set of keys.

use crate::kernel::{
    fastrange, lemma_fastrange_bound, spec_fastrange, spec_index, DIRECT_MAX, MAX_LEN, SCAN_MAX,
};
use crate::key::{key_hash, Key, SeededHash};
use crate::pilot_search::{search_pilot, search_places_all, search_stuck_at, step_has_identical};
use crate::pilots::{
    bit_set, first_identical_at, lemma_bit_test, perfect, permutation_of, pilot_tables, remap_filler, remap_hole_order, try_pilots,
};
use rand_core::{Rng, SeedableRng};
use rand_xoshiro::Xoshiro256PlusPlus;
use vstd::prelude::*;

verus! {

/// The seed of the generator that every search draws its seeds from.
pub const FIXED_SEED: u64 = 310_514_310_514_310_514;

/// The number of seeds tried for the direct strategy before falling back to the pilot strategy.
pub const DIRECT_BUDGET: usize = 65536;

/// The number of seeds tried for the pilot strategy before giving up. Valid key sets should be hashed
/// perfectly within the first few seeds, so exhausting this budget probably means no perfect hash exists.
pub const SEED_BUDGET: usize = 256;

/// Why no perfect hash function was found.
#[derive(Clone, Copy, Debug, PartialEq, Eq)]
pub enum ConstructError {
    /// These two items hashed identically.
    Identical(usize, usize),
    /// No perfect hash function was found.
    Exhausted,
}

/// A perfect hash function construction result.
#[derive(Debug)]
pub struct MapState {
    /// The hash seed.
    pub seed: u64,
    /// One pilot per bucket. Empty for the scan and direct strategies.
    pub pilots: Vec<u16>,
    /// The overflow-slot remap table.
    pub remap: Vec<u16>,
    /// For each final position, the index of the caller's entry that belongs there. This is a permutation
    /// of `0..len`.
    pub indices: Vec<u16>,
}

#[verifier::external_type_specification]
#[verifier::external_body]
pub struct ExXoshiro256PlusPlus(Xoshiro256PlusPlus);

/// The output number `index` (counting from 0) of `rand_xoshiro::Xoshiro256PlusPlus` seeded by
/// `SeedableRng::seed_from_u64(seed)`.
pub uninterp spec fn xoshiro_output(seed: u64, index: nat) -> u64;

/// A deterministic stream of seeds: the outputs of a generator seeded with `origin`, of which `drawn`
/// have been taken so far.
struct SeedStream {
    rng: Xoshiro256PlusPlus,
    origin: Ghost<u64>,
    drawn: Ghost<nat>,
}

impl SeedStream {
    /// Seeds `rand_xoshiro::Xoshiro256PlusPlus` with `SeedableRng::seed_from_u64(seed)`. The contract
    /// claims only that no output has been drawn from the new stream yet.
    #[verifier::external_body]
    fn new(seed: u64) -> (s: Self)
        ensures
            s.origin@ == seed,
            s.drawn@ == 0,
    {
        SeedStream { rng: Xoshiro256PlusPlus::seed_from_u64(seed), origin: Ghost(seed), drawn: Ghost(0) }
    }

    /// Draws the next seed with `Rng::next_u64`. The contract claims that the generator is
    /// deterministic: the result is the next output of the generator seeded with `origin`.
    #[verifier::external_body]
    fn next(&mut self) -> (r: u64)
        ensures
            r == xoshiro_output(old(self).origin@, old(self).drawn@),
            final(self).origin@ == old(self).origin@,
            final(self).drawn@ == old(self).drawn@ + 1,
    {
        self.rng.next_u64()
    }
}

/// Whether `seed` is one of the first `budget` seeds of the search.
pub open spec fn drawn_seed(seed: u64, budget: nat) -> bool {
    exists|t: nat| t < budget && seed == #[trigger] xoshiro_output(FIXED_SEED, t)
}

/// The hashes of the items under `seed`.
pub open spec fn hashes_of<T: SeededHash>(items: Seq<T>, seed: u64) -> Seq<u64> {
    Seq::new(items.len(), |i: int| items[i].seeded_hash(seed))
}

/// Hashes every item under `seed`.
fn hash_all<T: SeededHash>(items: &[T], seed: u64) -> (r: Vec<u64>)
    ensures
        r@ == hashes_of(items@, seed),
{
    let mut r: Vec<u64> = Vec::new();
    for i in 0..items.len()
        invariant
            r@ == hashes_of(items@, seed).take(i as int),
    {
        let h = items[i].hash_seeded(seed);
        r.push(h);
        proof {
            assert(r@ =~= hashes_of(items@, seed).take(i + 1));
        }
    }
    proof {
        assert(r@ =~= hashes_of(items@, seed));
    }
    r
}

/// The identity order `0, 1, ..., n - 1`.
pub open spec fn identity(n: nat) -> Seq<u16> {
    Seq::new(n, |i: int| i as u16)
}

/// Whether `st` is a valid construction for items with the given hashes under `st.seed`: maps of at most
/// `SCAN_MAX` entries keep their order and need no tables; larger ones are perfect under their tables, which
/// are either empty (the direct strategy, for at most `DIRECT_MAX` entries) or pilot tables.
pub open spec fn valid_state(hashes: Seq<u64>, seed: u64, pilots: Seq<u16>, remap: Seq<u16>, indices: Seq<u16>) -> bool {
    let n = hashes.len();
    if n <= SCAN_MAX {
        seed == 0 && pilots.len() == 0 && remap.len() == 0 && indices == identity(n)
    } else {
        &&& pilots.len() == 0 ==> remap.len() == 0 && n <= DIRECT_MAX
        &&& pilots.len() > 0 ==> pilot_tables(n, pilots, remap)
        &&& perfect(hashes, pilots, remap, indices)
    }
}

/// If `n` values in `[0, n)` are distinct, every value in `[0, n)` is taken.
pub(crate) proof fn lemma_pigeonhole(f: Seq<int>, n: nat) -> (inv: Seq<int>)
    requires
        f.len() == n,
        forall|e: int| 0 <= e < n ==> 0 <= #[trigger] f[e] < n,
        forall|e1: int, e2: int| 0 <= e1 < n && 0 <= e2 < n && e1 != e2 ==> #[trigger] f[e1] != #[trigger] f[e2],
    ensures
        inv.len() == n,
        forall|p: int| 0 <= p < n ==> 0 <= #[trigger] inv[p] < n && f[inv[p]] == p,
{
    let dom = vstd::set_lib::set_int_range(0, n as int);
    let g = |e: int| f[e];
    let img = dom.map(g);
    vstd::set_lib::lemma_int_range(0, n as int);
    assert(vstd::relations::injective_on(g, dom));
    vstd::set_lib::lemma_map_size(dom, img, g);
    assert(img.subset_of(dom)) by {
        assert forall|p: int| img.contains(p) implies dom.contains(p) by {
            let e = choose|e: int| dom.contains(e) && g(e) == p;
        }
    }
    vstd::set_lib::lemma_subset_equality(img, dom);
    let inv = Seq::new(n, |p: int| choose|e: int| dom.contains(e) && g(e) == p);
    assert forall|p: int| 0 <= p < n implies 0 <= #[trigger] inv[p] < n && f[inv[p]] == p by {
        assert(dom.contains(p));
        assert(img.contains(p));
    }
    inv
}

proof fn lemma_bit_or(w: u64, b: u64, c: u64)
    requires
        b < 64,
        c < 64,
    ensures
        bit_set(w | (1u64 << b), c) == (b == c || bit_set(w, c)),
{
    assert((((w | (1u64 << b)) >> c) & 1u64 == 1u64) == (b == c || (w >> c) & 1u64 == 1u64)) by (bit_vector)
        requires b < 64, c < 64;
}

/// The slot that the direct strategy sends a hash to among `n` slots.
pub open spec fn direct_slot(h: u64, n: nat) -> int {
    spec_fastrange(h, n) as int
}

/// Whether the direct strategy sends the given hashes to distinct slots among `hashes.len()`.
pub open spec fn direct_injective(hashes: Seq<u64>) -> bool {
    forall|e1: int, e2: int| 0 <= e1 < hashes.len() && 0 <= e2 < hashes.len() && e1 != e2 ==>
        #[trigger] direct_slot(hashes[e1], hashes.len()) != #[trigger] direct_slot(hashes[e2], hashes.len())
}

/// Tries one seed for the direct strategy: succeeds exactly when the reduced hashes of the items are all
/// distinct, returning the item that lands in each slot.
fn try_direct<T: SeededHash>(items: &[T], n: usize, seed: u64) -> (r: Option<Vec<u16>>)
    requires
        items.len() == n,
        1 <= n <= DIRECT_MAX,
    ensures
        r is Some <==> direct_injective(hashes_of(items@, seed)),
        r matches Some(indices) ==> perfect(hashes_of(items@, seed), seq![], seq![], indices@),
{
    let ghost hs = hashes_of(items@, seed);
    let mut taken: u64 = 0;
    let mut slot_entries: Vec<u16> = vec![0u16; n];
    proof {
        assert forall|b: u64| b < 64 implies !bit_set(0u64, b) by {
            assert((0u64 >> b) & 1u64 == 0u64) by (bit_vector);
        }
    }
    for i in 0..n
        invariant
            items.len() == n,
            1 <= n <= DIRECT_MAX,
            hs == hashes_of(items@, seed),
            slot_entries.len() == n,
            forall|e: int| 0 <= e < i ==> 0 <= #[trigger] direct_slot(hs[e], n as nat) < n,
            forall|e: int| 0 <= e < i ==> bit_set(taken, #[trigger] direct_slot(hs[e], n as nat) as u64),
            forall|e: int| 0 <= e < i ==> slot_entries[#[trigger] direct_slot(hs[e], n as nat)] == e,
            forall|e1: int, e2: int| 0 <= e1 < i && 0 <= e2 < i && e1 != e2 ==>
                #[trigger] direct_slot(hs[e1], n as nat) != #[trigger] direct_slot(hs[e2], n as nat),
            forall|b: u64| b < 64 && #[trigger] bit_set(taken, b) ==> exists|e: int| 0 <= e < i && direct_slot(hs[e], n as nat) == b,
    {
        let h = items[i].hash_seeded(seed);
        let slot = fastrange(h, n);
        proof {
            lemma_fastrange_bound(h, n as nat);
            lemma_bit_test(taken, slot as u64);
        }
        let bit: u64 = 1u64 << (slot as u64);
        if taken & bit != 0 {
            proof {
                let e = choose|e: int| 0 <= e < i && direct_slot(hs[e], n as nat) == slot as u64;
                assert(hs.len() == n);
                assert(direct_slot(hs[e], hs.len()) == direct_slot(hs[i as int], hs.len()));
            }
            return None;
        }
        proof {
            assert forall|b: u64| b < 64 && #[trigger] bit_set(taken | bit, b) implies exists|e: int| 0 <= e < i + 1 && direct_slot(hs[e], n as nat) == b by {
                lemma_bit_or(taken, slot as u64, b);
                if b == slot as u64 {
                    assert(direct_slot(hs[i as int], n as nat) == b);
                }
            }
            assert forall|e: int| 0 <= e < i implies #[trigger] direct_slot(hs[e], n as nat) != slot by {
                assert(bit_set(taken, direct_slot(hs[e], n as nat) as u64));
            }
            assert forall|e: int| 0 <= e < i + 1 implies bit_set(taken | bit, #[trigger] direct_slot(hs[e], n as nat) as u64) by {
                lemma_bit_or(taken, slot as u64, direct_slot(hs[e], n as nat) as u64);
            }
        }
        taken = taken | bit;
        slot_entries.set(slot, i as u16);
    }
    proof {
        let f = Seq::new(n as nat, |e: int| direct_slot(hs[e], n as nat));
        assert forall|e1: int, e2: int| 0 <= e1 < n && 0 <= e2 < n && e1 != e2 implies #[trigger] f[e1] != #[trigger] f[e2] by {
            assert(direct_slot(hs[e1], n as nat) != direct_slot(hs[e2], n as nat));
        }
        let inv = lemma_pigeonhole(f, n as nat);
        let se = slot_entries@;
        assert forall|e1: int, e2: int| 0 <= e1 < hs.len() && 0 <= e2 < hs.len() && e1 != e2 implies
            #[trigger] direct_slot(hs[e1], hs.len()) != #[trigger] direct_slot(hs[e2], hs.len()) by {
            assert(direct_slot(hs[e1], n as nat) != direct_slot(hs[e2], n as nat));
        }
        assert forall|p: int| 0 <= p < n implies (#[trigger] se[p]) < n && direct_slot(hs[se[p] as int], n as nat) == p by {
            let e = inv[p];
            assert(slot_entries[direct_slot(hs[e], n as nat)] == e);
        }
        assert forall|p1: int, p2: int| 0 <= p1 < n && 0 <= p2 < n && p1 != p2 implies #[trigger] se[p1] != #[trigger] se[p2] by {
            assert(direct_slot(hs[se[p1] as int], n as nat) == p1);
            assert(direct_slot(hs[se[p2] as int], n as nat) == p2);
        }
        assert forall|p: int| 0 <= p < n implies #[trigger] spec_index(hs[se[p] as int], n as nat, seq![], seq![]) == p by {
            assert(direct_slot(hs[se[p] as int], n as nat) == p);
        }
    }
    Some(slot_entries)
}

/// Whether the direct strategy works under seed number `t` of the search.
pub open spec fn direct_works<T: SeededHash>(items: Seq<T>, t: nat) -> bool {
    direct_injective(hashes_of(items, xoshiro_output(FIXED_SEED, t)))
}

/// Direct strategy: searches for a single seed under which the reduced hashes are a bijection onto `[0, n)`.
/// Lookups then need only one hash and one multiply-shift. Returns the first seed of the search that works,
/// or `None` when none of the first `DIRECT_BUDGET` seeds does.
fn generate_direct<T: SeededHash>(items: &[T], n: usize) -> (r: Option<MapState>)
    requires
        items.len() == n,
        1 <= n <= DIRECT_MAX,
    ensures
        match r {
            Some(st) => {
                &&& st.pilots@.len() == 0
                &&& st.remap@.len() == 0
                &&& perfect(hashes_of(items@, st.seed), st.pilots@, st.remap@, st.indices@)
                &&& exists|t: nat| t < DIRECT_BUDGET && st.seed == xoshiro_output(FIXED_SEED, t)
                    && #[trigger] direct_works(items@, t) && forall|t2: nat| t2 < t ==> !#[trigger] direct_works(items@, t2)
            },
            None => forall|t: nat| t < DIRECT_BUDGET ==> !#[trigger] direct_works(items@, t),
        },
{
    let mut stream = SeedStream::new(FIXED_SEED);
    let mut attempt: usize = 0;
    while attempt < DIRECT_BUDGET
        invariant
            items.len() == n,
            1 <= n <= DIRECT_MAX,
            attempt <= DIRECT_BUDGET,
            stream.origin@ == FIXED_SEED,
            stream.drawn@ == attempt,
            forall|t: nat| t < attempt ==> !#[trigger] direct_works(items@, t),
        decreases DIRECT_BUDGET - attempt,
    {
        let ghost t = stream.drawn@;
        let seed = stream.next();
        if let Some(indices) = try_direct(items, n, seed) {
            let st = MapState { seed, pilots: Vec::new(), remap: Vec::new(), indices };
            proof {
                assert(st.pilots@ =~= seq![]);
                assert(st.remap@ =~= seq![]);
                assert(direct_works(items@, t));
            }
            return Some(st);
        }
        proof {
            assert(!direct_works(items@, t));
        }
        attempt += 1;
    }
    None
}

/// The hashes of the items under seed number `t` of the search.
pub open spec fn seed_hashes<T: SeededHash>(items: Seq<T>, t: nat) -> Seq<u64> {
    hashes_of(items, xoshiro_output(FIXED_SEED, t))
}

/// Whether the pilot search under seed number `t` gets stuck on a bucket whose hashes are all distinct,
/// so that the next seed is tried.
pub open spec fn pilot_seed_retried<T: SeededHash>(items: Seq<T>, t: nat) -> bool {
    exists|u: nat| search_stuck_at(seed_hashes(items, t), u) && !#[trigger] step_has_identical(seed_hashes(items, t), u)
}

/// Whether the pilot search under seed number `t` gets stuck on a bucket that holds two identical hashes.
pub open spec fn pilot_seed_identical<T: SeededHash>(items: Seq<T>, t: nat) -> bool {
    exists|u: nat| search_stuck_at(seed_hashes(items, t), u) && #[trigger] step_has_identical(seed_hashes(items, t), u)
}

/// Whether items `i` and `j` are the pair that the pilot search under seed number `t` reports: the first
/// pair of identical hashes of the bucket on which the search gets stuck.
pub open spec fn pilot_seed_reports<T: SeededHash>(items: Seq<T>, t: nat, i: int, j: int) -> bool {
    exists|u: nat| search_stuck_at(seed_hashes(items, t), u) && #[trigger] step_has_identical(seed_hashes(items, t), u)
        && first_identical_at(seed_hashes(items, t), u, i, j)
}

/// Pilot strategy: assigns keys to buckets, then searches each bucket for a pilot value that scrambles its
/// keys onto free slots. Tries the seeds of the search in turn until the search places every bucket, gets
/// stuck on a bucket with two identical hashes, or the budget runs out.
fn generate_pilots<T: SeededHash>(items: &[T], n: usize) -> (r: Result<MapState, ConstructError>)
    requires
        items.len() == n,
        1 <= n <= MAX_LEN,
    ensures
        match r {
            Ok(st) => pilot_tables(n as nat, st.pilots@, st.remap@)
                && perfect(hashes_of(items@, st.seed), st.pilots@, st.remap@, st.indices@)
                && drawn_seed(st.seed, SEED_BUDGET as nat)
                && exists|t: nat| t < SEED_BUDGET && st.seed == xoshiro_output(FIXED_SEED, t)
                    && #[trigger] search_places_all(seed_hashes(items@, t))
                    && (forall|t2: nat| t2 < t ==> #[trigger] pilot_seed_retried(items@, t2))
                    && (forall|b: int| 0 <= b < st.pilots@.len() ==> #[trigger] st.pilots@[b] == search_pilot(seed_hashes(items@, t), b))
                    && remap_filler(seed_hashes(items@, t), st.pilots@, st.remap@)
                    && remap_hole_order(seed_hashes(items@, t), st.pilots@, st.remap@),
            Err(ConstructError::Identical(i, j)) => i < j < n
                && (exists|seed: u64| drawn_seed(seed, SEED_BUDGET as nat)
                    && #[trigger] items@[i as int].seeded_hash(seed) == items@[j as int].seeded_hash(seed))
                && exists|t: nat| t < SEED_BUDGET
                    && (forall|t2: nat| t2 < t ==> #[trigger] pilot_seed_retried(items@, t2))
                    && #[trigger] pilot_seed_identical(items@, t) && pilot_seed_reports(items@, t, i as int, j as int),
            Err(ConstructError::Exhausted) => forall|t: nat| t < SEED_BUDGET ==> #[trigger] pilot_seed_retried(items@, t),
        },
{
    let mut stream = SeedStream::new(FIXED_SEED);
    let mut attempt: usize = 0;
    while attempt < SEED_BUDGET
        invariant
            items.len() == n,
            1 <= n <= MAX_LEN,
            attempt <= SEED_BUDGET,
            stream.origin@ == FIXED_SEED,
            stream.drawn@ == attempt,
            forall|t2: nat| t2 < attempt ==> #[trigger] pilot_seed_retried(items@, t2),
        decreases SEED_BUDGET - attempt,
    {
        let ghost t = stream.drawn@;
        let seed = stream.next();
        let hashes = hash_all(items, seed);
        proof {
            assert(seed == xoshiro_output(FIXED_SEED, t));
            assert(drawn_seed(seed, SEED_BUDGET as nat));
            assert(hashes@ == seed_hashes(items@, t));
        }
        match try_pilots(&hashes, n) {
            Ok((pilots, remap, indices)) => {
                return Ok(MapState { seed, pilots, remap, indices });
            },
            Err(ConstructError::Identical(i, j)) => {
                proof {
                    assert(items@[i as int].seeded_hash(seed) == items@[j as int].seeded_hash(seed));
                    assert(pilot_seed_identical(items@, t));
                    assert(pilot_seed_reports(items@, t, i as int, j as int));
                }
                return Err(ConstructError::Identical(i, j));
            },
            Err(ConstructError::Exhausted) => {
                proof {
                    assert(pilot_seed_retried(items@, t));
                }
            },
        }
        attempt += 1;
    }
    Err(ConstructError::Exhausted)
}

/// Whether the direct strategy applies to these items: more than `SCAN_MAX` and at most `DIRECT_MAX` of
/// them, and a seed among the first `DIRECT_BUDGET` of the search under which their reduced hashes are distinct.
pub open spec fn direct_found<T: SeededHash>(items: Seq<T>) -> bool {
    &&& SCAN_MAX < items.len() <= DIRECT_MAX
    &&& exists|t: nat| t < DIRECT_BUDGET && #[trigger] direct_works(items, t)
}

/// Whether `r` is what the construction over `items` gives: the scan state for at most `SCAN_MAX` items;
/// otherwise the direct strategy under the first seed that works for it, if any does, and else the pilot
/// search under the first seed whose search does not get stuck on a bucket of distinct hashes. The search
/// fails with two identical items when it gets stuck on a bucket with identical hashes, and is exhausted
/// when every seed of its budget got stuck on a bucket of distinct hashes.
pub open spec fn construction_matches<T: SeededHash>(items: Seq<T>, r: Result<MapState, ConstructError>) -> bool {
    let n = items.len();
    match r {
        Ok(st) => {
            &&& valid_state(hashes_of(items, st.seed), st.seed, st.pilots@, st.remap@, st.indices@)
            &&& n > SCAN_MAX ==> (st.pilots@.len() == 0 <==> direct_found(items))
            &&& n > SCAN_MAX && direct_found(items) ==> exists|t: nat|
                t < DIRECT_BUDGET && st.seed == xoshiro_output(FIXED_SEED, t) && #[trigger] direct_works(items, t)
                    && forall|t2: nat| t2 < t ==> !#[trigger] direct_works(items, t2)
            &&& n > SCAN_MAX && !direct_found(items) ==> exists|t: nat|
                t < SEED_BUDGET && st.seed == xoshiro_output(FIXED_SEED, t) && #[trigger] search_places_all(seed_hashes(items, t))
                    && (forall|t2: nat| t2 < t ==> #[trigger] pilot_seed_retried(items, t2))
                    && (forall|b: int| 0 <= b < st.pilots@.len() ==> #[trigger] st.pilots@[b] == search_pilot(seed_hashes(items, t), b))
                    && remap_filler(seed_hashes(items, t), st.pilots@, st.remap@)
                    && remap_hole_order(seed_hashes(items, t), st.pilots@, st.remap@)
        },
        Err(ConstructError::Identical(i, j)) => {
            &&& i < j < n
            &&& exists|seed: u64| drawn_seed(seed, SEED_BUDGET as nat)
                && #[trigger] items[i as int].seeded_hash(seed) == items[j as int].seeded_hash(seed)
            &&& n > SCAN_MAX && !direct_found(items)
            &&& exists|t: nat| t < SEED_BUDGET && (forall|t2: nat| t2 < t ==> #[trigger] pilot_seed_retried(items, t2))
                && #[trigger] pilot_seed_identical(items, t) && pilot_seed_reports(items, t, i as int, j as int)
        },
        Err(ConstructError::Exhausted) => {
            &&& n > SCAN_MAX && !direct_found(items)
            &&& forall|t: nat| t < SEED_BUDGET ==> #[trigger] pilot_seed_retried(items, t)
        },
    }
}

/// Builds a perfect hash function over `items`: maps of at most `SCAN_MAX` entries need none, maps of at
/// most `DIRECT_MAX` entries first try the direct strategy, and everything else uses pilots.
pub(crate) fn generate<T: SeededHash>(items: &[T]) -> (r: Result<MapState, ConstructError>)
    requires
        items.len() <= MAX_LEN,
    ensures
        construction_matches(items@, r),
        items.len() <= SCAN_MAX ==> r is Ok,
{
    let n = items.len();
    if n <= SCAN_MAX {
        let mut indices: Vec<u16> = Vec::new();
        if n == 1 {
            indices.push(0);
        }
        proof {
            assert(indices@ =~= identity(n as nat));
        }
        Ok(MapState { seed: 0, pilots: Vec::new(), remap: Vec::new(), indices })
    } else {
        if n <= DIRECT_MAX {
            if let Some(st) = generate_direct(items, n) {
                return Ok(st);
            }
        }
        let r = generate_pilots(items, n);
        proof {
            if n <= DIRECT_MAX {
                assert forall|t: nat| t < DIRECT_BUDGET implies !#[trigger] direct_works(items@, t) by {}
            }
            assert(!direct_found(items@));
        }
        r
    }
}

/// Constructs a perfect hash function over `keys`, returning the resulting [`MapState`] or why none was found.
///
/// On success, the state is valid for the keys' hashes under its seed: position `p` of the final order
/// holds the key `indices[p]`, and the tables send that key's hash to `p`. Which strategy and seed are
/// used, and when the search fails, is as `construction_matches` describes. At most `SCAN_MAX` keys
/// always succeed.
pub fn construct(keys: &[Key]) -> (r: Result<MapState, ConstructError>)
    requires
        keys.len() <= MAX_LEN,
    ensures
        construction_matches(keys@, r),
        r matches Err(ConstructError::Identical(i, j)) ==> i < j < keys.len() && exists|seed: u64| drawn_seed(seed, SEED_BUDGET as nat)
            && #[trigger] key_hash(keys@[i as int]@, seed) == key_hash(keys@[j as int]@, seed),
        keys.len() <= SCAN_MAX ==> r is Ok,
{
    let r = generate(keys);
    proof {
        if let Err(ConstructError::Identical(i, j)) = r {
            let seed = choose|seed: u64| drawn_seed(seed, SEED_BUDGET as nat)
                && #[trigger] keys@[i as int].seeded_hash(seed) == keys@[j as int].seeded_hash(seed);
            assert(key_hash(keys@[i as int]@, seed) == key_hash(keys@[j as int]@, seed));
        }
    }
    r
}

/// Returns a vector whose `i`-th element is `data[indices[i]]`, moving each element once.
pub fn gather<T>(data: Vec<T>, indices: &[u16]) -> (out: Vec<T>)
    requires
        permutation_of(indices@, data.len() as nat),
    ensures
        out@ == Seq::new(indices@.len(), |i: int| data@[indices@[i] as int]),
{
    let n = data.len();
    let ghost d = data@;
    let mut data = data;
    // `slots[j]` holds the element `n - 1 - j` until it is moved out.
    let mut slots: Vec<Option<T>> = Vec::new();
    while data.len() > 0
        invariant
            data@.len() + slots@.len() == n,
            d.len() == n,
            data@ == d.take(data@.len() as int),
            forall|j: int| 0 <= j < slots@.len() ==> #[trigger] slots@[j] == Some(d[n - 1 - j]),
        decreases data@.len(),
    {
        let x = data.pop().unwrap();
        slots.push(Some(x));
        proof {
            assert(data@ =~= d.take(data@.len() as int));
        }
    }
    let mut out: Vec<T> = Vec::new();
    for i in 0..n
        invariant
            d.len() == n,
            indices@.len() == n,
            permutation_of(indices@, n as nat),
            slots@.len() == n,
            out@.len() == i,
            forall|q: int| 0 <= q < i ==> #[trigger] out@[q] == d[indices@[q] as int],
            forall|q: int| i <= q < n ==> #[trigger] slots@[n - 1 - indices@[q]] == Some(d[indices@[q] as int]),
    {
        let from = indices[i] as usize;
        let mut taken: Option<T> = None;
        slots.set_and_swap(n - 1 - from, &mut taken);
        proof {
            assert(indices@[i as int] == from);
            assert forall|q: int| i + 1 <= q < n implies #[trigger] slots@[n - 1 - indices@[q]] == Some(d[indices@[q] as int]) by {
                assert(indices@[q] != indices@[i as int]);
            }
        }
        out.push(taken.unwrap());
    }
    proof {
        assert(out@ =~= Seq::new(indices@.len(), |i: int| d[indices@[i] as int]));
    }
    out
}

/// Whether `indices` lists each of `0..indices.len()` exactly once.
pub fn is_permutation(indices: &[u16]) -> (r: bool)
    ensures
        r == permutation_of(indices@, indices@.len()),
{
    let n = indices.len();
    let mut seen: Vec<bool> = vec![false; n];
    for p in 0..n
        invariant
            n == indices@.len(),
            seen@.len() == n,
            forall|q: int| 0 <= q < p ==> (#[trigger] indices@[q]) < n,
            forall|q1: int, q2: int| 0 <= q1 < p && 0 <= q2 < p && q1 != q2 ==> #[trigger] indices@[q1] != #[trigger] indices@[q2],
            forall|s: int| 0 <= s < n ==> #[trigger] seen@[s] == exists|q: int| 0 <= q < p && indices@[q] == s,
    {
        let i = indices[p] as usize;
        if i >= n {
            return false;
        }
        if seen[i] {
            proof {
                let q = choose|q: int| 0 <= q < p && indices@[q] == i;
                assert(indices@[q] == indices@[p as int]);
            }
            return false;
        }
        proof {
            assert forall|q: int| 0 <= q < p implies indices@[q] != i by {
                if indices@[q] == i {
                    assert(seen@[i as int]);
                }
            }
        }
        let ghost before = seen@;
        seen.set(i, true);
        proof {
            assert forall|s: int| 0 <= s < n implies #[trigger] seen@[s] == exists|q: int| 0 <= q < p + 1 && indices@[q] == s by {
                if s == i {
                    assert(indices@[p as int] == s);
                } else {
                    assert(seen@[s] == before[s]);
                    if exists|q: int| 0 <= q < p + 1 && indices@[q] == s {
                        let q = choose|q: int| 0 <= q < p + 1 && indices@[q] == s;
                        assert(q != p);
                    }
                }
            }
        }
    }
    true
}

/// A search that gets stuck gets stuck at one step only.
proof fn lemma_stuck_unique(hashes: Seq<u64>, u1: nat, u2: nat)
    requires
        search_stuck_at(hashes, u1),
        search_stuck_at(hashes, u2),
    ensures
        u1 == u2,
{
    let gh = crate::pilot_search::search_hashes(hashes);
    let starts = crate::pilot_search::search_starts(hashes);
    let slots = crate::kernel::spec_slot_count(hashes.len());
    if u1 < u2 {
        crate::pilot_search::lemma_greedy_stuck(gh, starts, slots, u1 + 1, u2);
    } else if u2 < u1 {
        crate::pilot_search::lemma_greedy_stuck(gh, starts, slots, u2 + 1, u1);
    }
}

/// A search that gets stuck does not place every bucket.
proof fn lemma_stuck_not_placed(hashes: Seq<u64>, u: nat)
    requires
        search_stuck_at(hashes, u),
    ensures
        !search_places_all(hashes),
{
    crate::pilot_search::lemma_greedy_stuck(
        crate::pilot_search::search_hashes(hashes),
        crate::pilot_search::search_starts(hashes),
        crate::kernel::spec_slot_count(hashes.len()),
        u + 1,
        crate::kernel::spec_bucket_count(hashes.len()),
    );
}

/// Under one seed, the pilot search either is retried or fails on identical hashes, not both.
proof fn lemma_retried_excludes<T: SeededHash>(items: Seq<T>, t: nat)
    requires
        pilot_seed_retried(items, t),
    ensures
        !pilot_seed_identical(items, t),
        !search_places_all(seed_hashes(items, t)),
{
    let h = seed_hashes(items, t);
    let u = choose|u: nat| search_stuck_at(h, u) && !#[trigger] step_has_identical(h, u);
    lemma_stuck_not_placed(h, u);
    if pilot_seed_identical(items, t) {
        let u2 = choose|u2: nat| search_stuck_at(h, u2) && #[trigger] step_has_identical(h, u2);
        lemma_stuck_unique(h, u, u2);
    }
}

/// Reproducibility: constructions over the same keys end the same way. They succeed together, with the
/// same seed and the same strategy, and they fail together, for the same reason.
pub proof fn lemma_construction_deterministic(
    keys: Seq<Key>,
    r1: Result<MapState, ConstructError>,
    r2: Result<MapState, ConstructError>,
)
    requires
        construction_matches(keys, r1),
        construction_matches(keys, r2),
    ensures
        r1 is Ok <==> r2 is Ok,
        r1 matches Err(ConstructError::Exhausted) <==> r2 matches Err(ConstructError::Exhausted),
        r1 matches Ok(s1) ==> r2 matches Ok(s2) && s1.seed == s2.seed && s1.pilots@ == s2.pilots@,
{
    let n = keys.len();
    if n <= SCAN_MAX {
        if let Ok(s1) = r1 {
            if let Ok(s2) = r2 {
                assert(s1.pilots@ =~= s2.pilots@);
            }
        }
        return;
    }
    if direct_found(keys) {
        if let Ok(s1) = r1 {
            if let Ok(s2) = r2 {
                let t1 = choose|t: nat| t < DIRECT_BUDGET && s1.seed == xoshiro_output(FIXED_SEED, t) && #[trigger] direct_works(keys, t)
                    && forall|t2: nat| t2 < t ==> !#[trigger] direct_works(keys, t2);
                let t2 = choose|t: nat| t < DIRECT_BUDGET && s2.seed == xoshiro_output(FIXED_SEED, t) && #[trigger] direct_works(keys, t)
                    && forall|t2: nat| t2 < t ==> !#[trigger] direct_works(keys, t2);
                if t1 < t2 {
                    assert(!direct_works(keys, t1));
                } else if t2 < t1 {
                    assert(!direct_works(keys, t2));
                }
                assert(s1.pilots@ =~= s2.pilots@);
            }
        }
        return;
    }
    // The pilot search: each outcome is decided by the first seed that is not retried.
    lemma_pilot_outcome(keys, r1, r2);
    lemma_pilot_outcome(keys, r2, r1);
}

/// With the pilot search, the first seed that is not retried decides how a construction ends.
proof fn lemma_pilot_outcome(keys: Seq<Key>, ra: Result<MapState, ConstructError>, rb: Result<MapState, ConstructError>)
    requires
        construction_matches(keys, ra),
        construction_matches(keys, rb),
        keys.len() > SCAN_MAX,
        !direct_found(keys),
    ensures
        (ra is Ok || (ra matches Err(ConstructError::Identical(_, _)))) ==> !(rb matches Err(ConstructError::Exhausted)),
        ra matches Ok(sa) ==> rb matches Ok(sb) && sa.seed == sb.seed && sa.pilots@ == sb.pilots@,
{
    if rb matches Err(ConstructError::Exhausted) {
        if let Ok(sa) = ra {
            let t = choose|t: nat| t < SEED_BUDGET && sa.seed == xoshiro_output(FIXED_SEED, t)
                && #[trigger] search_places_all(seed_hashes(keys, t))
                && forall|t2: nat| t2 < t ==> #[trigger] pilot_seed_retried(keys, t2);
            assert(pilot_seed_retried(keys, t));
            lemma_retried_excludes(keys, t);
        } else if let Err(ConstructError::Identical(_, _)) = ra {
            let t = choose|t: nat| t < SEED_BUDGET && (forall|t2: nat| t2 < t ==> #[trigger] pilot_seed_retried(keys, t2))
                && #[trigger] pilot_seed_identical(keys, t);
            assert(pilot_seed_retried(keys, t));
            lemma_retried_excludes(keys, t);
        }
    }
    if let Ok(sa) = ra {
        let ta = choose|t: nat| t < SEED_BUDGET && sa.seed == xoshiro_output(FIXED_SEED, t)
            && #[trigger] search_places_all(seed_hashes(keys, t))
            && forall|t2: nat| t2 < t ==> #[trigger] pilot_seed_retried(keys, t2);
        if let Ok(sb) = rb {
            let tb = choose|t: nat| t < SEED_BUDGET && sb.seed == xoshiro_output(FIXED_SEED, t)
                && #[trigger] search_places_all(seed_hashes(keys, t))
                && forall|t2: nat| t2 < t ==> #[trigger] pilot_seed_retried(keys, t2);
            if ta < tb {
                assert(pilot_seed_retried(keys, ta));
                lemma_retried_excludes(keys, ta);
            } else if tb < ta {
                assert(pilot_seed_retried(keys, tb));
                lemma_retried_excludes(keys, tb);
            } else {
                let ha = seed_hashes(keys, ta);
                assert forall|b: int| 0 <= b < sa.pilots@.len() implies sa.pilots@[b] == sb.pilots@[b] by {
                    assert(sa.pilots@[b] == search_pilot(ha, b));
                    assert(sb.pilots@[b] == search_pilot(ha, b));
                }
                assert(sa.pilots@ =~= sb.pilots@);
            }
        } else if let Err(ConstructError::Identical(_, _)) = rb {
            let tb = choose|t: nat| t < SEED_BUDGET && (forall|t2: nat| t2 < t ==> #[trigger] pilot_seed_retried(keys, t2))
                && #[trigger] pilot_seed_identical(keys, t);
            if ta < tb {
                assert(pilot_seed_retried(keys, ta));
                lemma_retried_excludes(keys, ta);
            } else if tb < ta {
                assert(pilot_seed_retried(keys, tb));
                lemma_retried_excludes(keys, tb);
            } else {
                let h = seed_hashes(keys, ta);
                let u = choose|u: nat| search_stuck_at(h, u) && #[trigger] step_has_identical(h, u);
                lemma_stuck_not_placed(h, u);
            }
        } else {
            assert(pilot_seed_retried(keys, ta));
            lemma_retried_excludes(keys, ta);
        }
    }
}
/// Whether the construction over `items` succeeds: there are at most `SCAN_MAX` items, the direct strategy
/// applies, or some seed of the pilot search places every bucket, every earlier seed having been retried.
pub open spec fn construction_succeeds<T: SeededHash>(items: Seq<T>) -> bool {
    ||| items.len() <= SCAN_MAX
    ||| direct_found(items)
    ||| exists|t: nat| t < SEED_BUDGET && #[trigger] search_places_all(seed_hashes(items, t))
        && forall|t2: nat| t2 < t ==> #[trigger] pilot_seed_retried(items, t2)
}

/// A construction succeeds exactly when its result is `Ok`.
pub proof fn lemma_construction_succeeds<T: SeededHash>(items: Seq<T>, r: Result<MapState, ConstructError>)
    requires
        construction_matches(items, r),
    ensures
        r is Ok <==> construction_succeeds(items),
{
    if r is Ok {
        return;
    }
    if construction_succeeds(items) && !(items.len() <= SCAN_MAX) && !direct_found(items) {
        let ta = choose|t: nat| t < SEED_BUDGET && #[trigger] search_places_all(seed_hashes(items, t))
            && forall|t2: nat| t2 < t ==> #[trigger] pilot_seed_retried(items, t2);
        if let Err(ConstructError::Identical(_, _)) = r {
            let tb = choose|t: nat| t < SEED_BUDGET && (forall|t2: nat| t2 < t ==> #[trigger] pilot_seed_retried(items, t2))
                && #[trigger] pilot_seed_identical(items, t);
            if ta < tb {
                assert(pilot_seed_retried(items, ta));
                lemma_retried_excludes(items, ta);
            } else if tb < ta {
                assert(pilot_seed_retried(items, tb));
                lemma_retried_excludes(items, tb);
            } else {
                let h = seed_hashes(items, ta);
                let u = choose|u: nat| search_stuck_at(h, u) && #[trigger] step_has_identical(h, u);
                lemma_stuck_not_placed(h, u);
            }
        } else {
            assert(pilot_seed_retried(items, ta));
            lemma_retried_excludes(items, ta);
        }
    }
}

/// Two lists of items with the same hashes under every seed construct alike.
pub proof fn lemma_same_hashes<T: SeededHash, U: SeededHash>(a: Seq<T>, b: Seq<U>)
    requires
        a.len() == b.len(),
        forall|i: int, seed: u64| 0 <= i < a.len() ==> #[trigger] a[i].seeded_hash(seed) == #[trigger] b[i].seeded_hash(seed),
    ensures
        construction_succeeds(a) == construction_succeeds(b),
        forall|t: nat| #[trigger] seed_hashes(a, t) == seed_hashes(b, t),
        forall|seed: u64| #[trigger] hashes_of(a, seed) == hashes_of(b, seed),
        forall|t: nat| #[trigger] direct_works(a, t) == direct_works(b, t),
        forall|t: nat| #[trigger] pilot_seed_retried(a, t) == pilot_seed_retried(b, t),
        direct_found(a) == direct_found(b),
{
    assert forall|seed: u64| #[trigger] hashes_of(a, seed) == hashes_of(b, seed) by {
        assert(hashes_of(a, seed) =~= hashes_of(b, seed));
    }
    assert forall|t: nat| #[trigger] seed_hashes(a, t) == seed_hashes(b, t) by {
        assert(hashes_of(a, xoshiro_output(FIXED_SEED, t)) == hashes_of(b, xoshiro_output(FIXED_SEED, t)));
    }
    assert forall|t: nat| #[trigger] direct_works(a, t) == direct_works(b, t) by {
        assert(seed_hashes(a, t) == seed_hashes(b, t));
    }
    assert forall|t: nat| #[trigger] pilot_seed_retried(a, t) == pilot_seed_retried(b, t) by {
        assert(seed_hashes(a, t) == seed_hashes(b, t));
    }
    if direct_found(a) {
        let t = choose|t: nat| t < DIRECT_BUDGET && #[trigger] direct_works(a, t);
        assert(direct_works(b, t));
    }
    if direct_found(b) {
        let t = choose|t: nat| t < DIRECT_BUDGET && #[trigger] direct_works(b, t);
        assert(direct_works(a, t));
    }
    if exists|t: nat| t < SEED_BUDGET && #[trigger] search_places_all(seed_hashes(a, t))
        && forall|t2: nat| t2 < t ==> #[trigger] pilot_seed_retried(a, t2) {
        let t = choose|t: nat| t < SEED_BUDGET && #[trigger] search_places_all(seed_hashes(a, t))
            && forall|t2: nat| t2 < t ==> #[trigger] pilot_seed_retried(a, t2);
        assert(search_places_all(seed_hashes(b, t)));
        assert forall|t2: nat| t2 < t implies #[trigger] pilot_seed_retried(b, t2) by {
            assert(pilot_seed_retried(a, t2));
        }
    }
    if exists|t: nat| t < SEED_BUDGET && #[trigger] search_places_all(seed_hashes(b, t))
        && forall|t2: nat| t2 < t ==> #[trigger] pilot_seed_retried(b, t2) {
        let t = choose|t: nat| t < SEED_BUDGET && #[trigger] search_places_all(seed_hashes(b, t))
            && forall|t2: nat| t2 < t ==> #[trigger] pilot_seed_retried(b, t2);
        assert(search_places_all(seed_hashes(a, t)));
        assert forall|t2: nat| t2 < t implies #[trigger] pilot_seed_retried(a, t2) by {
            assert(pilot_seed_retried(b, t2));
        }
    }
}

/// Items that hash alike under every seed get the same successful construction.
pub proof fn lemma_same_hashes_succeed<T: SeededHash, U: SeededHash>(a: Seq<T>, b: Seq<U>, st: MapState)
    requires
        a.len() == b.len(),
        forall|i: int, seed: u64| 0 <= i < a.len() ==> #[trigger] a[i].seeded_hash(seed) == #[trigger] b[i].seeded_hash(seed),
        construction_matches(a, Ok(st)),
    ensures
        construction_matches(b, Ok(st)),
{
    lemma_same_hashes(a, b);
    let n = a.len();
    assert(hashes_of(a, st.seed) == hashes_of(b, st.seed));
    if n > SCAN_MAX && direct_found(a) {
        let t = choose|t: nat| t < DIRECT_BUDGET && st.seed == xoshiro_output(FIXED_SEED, t) && #[trigger] direct_works(a, t)
            && forall|t2: nat| t2 < t ==> !#[trigger] direct_works(a, t2);
        assert(direct_works(b, t));
        assert forall|t2: nat| t2 < t implies !#[trigger] direct_works(b, t2) by {
            assert(!direct_works(a, t2));
        }
    }
    if n > SCAN_MAX && !direct_found(a) {
        let t = choose|t: nat| t < SEED_BUDGET && st.seed == xoshiro_output(FIXED_SEED, t) && #[trigger] search_places_all(seed_hashes(a, t))
            && (forall|t2: nat| t2 < t ==> #[trigger] pilot_seed_retried(a, t2))
            && (forall|b: int| 0 <= b < st.pilots@.len() ==> #[trigger] st.pilots@[b] == search_pilot(seed_hashes(a, t), b))
            && remap_filler(seed_hashes(a, t), st.pilots@, st.remap@)
            && remap_hole_order(seed_hashes(a, t), st.pilots@, st.remap@);
        assert(seed_hashes(a, t) == seed_hashes(b, t));
        assert forall|t2: nat| t2 < t implies #[trigger] pilot_seed_retried(b, t2) by {
            assert(pilot_seed_retried(a, t2));
        }
    }
}

} // verus!

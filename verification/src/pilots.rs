//! The pilot strategy: keys are grouped into buckets, and each bucket gets a pilot value that scatters
//! its keys onto free slots. Keys landing past the entry count are remapped into the free slots below it.

use crate::counting::{
    classes_below, count_eq, count_lt, lemma_count_bounds, lemma_count_lt_all, lemma_count_lt_mono,
    lemma_count_lt_step, lemma_count_lt_zero, lemma_rank_bounds, lemma_rank_injective,
    lemma_rank_surjective, rank, lemma_count_next, lemma_count_empty, lemma_rank_def, lemma_rank_order,
    lemma_rank_in_block,
};
use crate::construct::ConstructError;
use crate::kernel::{
    bucket_count, bucket_shift, is_table_len, lemma_log2_pow2, log2, slot_count, spec_bucket_count,
    spec_index, spec_slot_count,
};
use crate::pilot_search::{
    bucket_starts, greedy_taken, lemma_greedy_place, lemma_greedy_start, lemma_greedy_skip, lemma_greedy_stuck, lemma_greedy_stuck_step,
    lemma_grouped, lemma_layout_bucket, lemma_order_bucket_at, lemma_search_layout_state, lemma_search_stuck,
    bucket_at, search_classes, search_hashes, search_starts,
    search_layout, search_places_all, search_state, search_stuck_at, step_has_identical, greedy_pilot,
    lemma_layout_pilot, search_pilot,
};
use crate::kernel::{bucket, lemma_bucket_bound, lemma_fastrange_bound, pilot_slot, spec_bucket, spec_pilot_slot, MAX_LEN};
use vstd::arithmetic::power2::pow2;
use vstd::prelude::*;

verus! {

/// The class of each hash under bucket selection with `shift`: its bucket.
pub open spec fn bucket_classes(hashes: Seq<u64>, shift: u32) -> Seq<nat> {
    Seq::new(hashes.len(), |i: int| spec_bucket(hashes[i], shift))
}

/// Groups the keys by bucket into a CSR layout. Returns the starting offsets of each bucket, a packed
/// array of entry indices, and a packed array of hashes: `starts[b]..starts[b + 1]` is bucket `b`'s slice
/// of the packed arrays, which lists the entries of bucket `b` in increasing order.
pub fn bucket_keys(hashes: &Vec<u64>, num_buckets: usize, shift: u32) -> (r: (Vec<u16>, Vec<u16>, Vec<u64>))
    requires
        hashes.len() <= MAX_LEN,
        49 <= shift <= 63,
        num_buckets == pow2((64 - shift) as nat),
    ensures
        ({
            let (starts, entries, bucket_hashes) = r;
            let cls = bucket_classes(hashes@, shift);
            let n = hashes.len() as int;
            &&& starts.len() == num_buckets + 1
            &&& forall|b: int| 0 <= b <= num_buckets ==> #[trigger] starts[b] == count_lt(cls, b as nat, n)
            &&& entries.len() == n
            &&& bucket_hashes.len() == n
            &&& forall|p: int| 0 <= p < n ==> {
                &&& (#[trigger] entries[p]) < n
                &&& rank(cls, entries[p] as int) == p
                &&& bucket_hashes[p] == hashes[entries[p] as int]
            }
            &&& forall|i: int| 0 <= i < n ==> entries[#[trigger] rank(cls, i)] == i
        }),
{
    let n = hashes.len();
    let ghost cls = bucket_classes(hashes@, shift);
    proof {
        vstd::arithmetic::power2::lemma2_to64();
        if 64 - shift < 15 {
            vstd::arithmetic::power2::lemma_pow2_strictly_increases((64 - shift) as nat, 15);
        }
    }
    let mut starts: Vec<u16> = vec![0u16; num_buckets + 1];
    proof {
        assert forall|b: int| 0 <= b < num_buckets implies #[trigger] starts[b + 1] == count_eq(cls, b as nat, 0) by {
            lemma_count_empty(cls, b as nat);
        }
    }
    // Count the keys of each bucket into `starts[b + 1]`.
    for i in 0..n
        invariant
            n == hashes.len(),
            n <= MAX_LEN,
            cls == bucket_classes(hashes@, shift),
            49 <= shift <= 63,
            num_buckets == pow2((64 - shift) as nat),
            starts.len() == num_buckets + 1,
            starts[0] == 0,
            forall|b: int| 0 <= b < num_buckets ==> #[trigger] starts[b + 1] == count_eq(cls, b as nat, i as int),
    {
        let b = bucket(hashes[i], shift);
        proof {
            lemma_count_bounds(cls, b as nat, i as int, n as int);
            lemma_count_bounds(cls, b as nat, 0, i as int);
            lemma_count_empty(cls, b as nat);
            assert forall|c: int| 0 <= c < num_buckets implies #[trigger] count_eq(cls, c as nat, i + 1) == count_eq(cls, c as nat, i as int) + if c == b { 1nat } else { 0nat } by {
                lemma_count_next(cls, c as nat, i as int);
            }
        }
        let v = starts[b + 1] + 1;
        starts.set(b + 1, v);
    }
    proof {
        assert forall|i: int| 0 <= i < cls.len() implies #[trigger] cls[i] < num_buckets as nat by {
            lemma_bucket_bound(hashes[i], shift);
        }
        lemma_count_lt_zero(cls, n as int);
        assert forall|c: int| 0 < c <= num_buckets implies #[trigger] starts[c] == count_eq(cls, (c - 1) as nat, n as int) by {
            assert(starts[(c - 1) + 1] == count_eq(cls, (c - 1) as nat, n as int));
        }
    }
    // Turn the counts into starting offsets.
    for b in 0..num_buckets
        invariant
            n == hashes.len(),
            n <= MAX_LEN,
            cls == bucket_classes(hashes@, shift),
            classes_below(cls, num_buckets as nat),
            starts.len() == num_buckets + 1,
            forall|c: int| 0 <= c <= b ==> #[trigger] starts[c] == count_lt(cls, c as nat, n as int),
            forall|c: int| b < c <= num_buckets ==> #[trigger] starts[c] == count_eq(cls, (c - 1) as nat, n as int),
    {
        proof {
            lemma_count_lt_step(cls, b as nat, n as int);
            lemma_count_lt_mono(cls, (b + 1) as nat, num_buckets as nat, n as int);
            lemma_count_lt_all(cls, num_buckets as nat, n as int);
        }
        let v = starts[b + 1] + starts[b];
        starts.set(b + 1, v);
    }
    proof {
        lemma_count_lt_zero(cls, n as int);
    }
    let mut entries: Vec<u16> = vec![0u16; n];
    let mut bucket_hashes: Vec<u64> = vec![0u64; n];
    let mut cursor: Vec<u16> = starts.clone();
    assert(cursor@ =~= starts@);
    proof {
        assert forall|c: int| 0 <= c < num_buckets implies #[trigger] count_eq(cls, c as nat, 0) == 0 by {
            lemma_count_empty(cls, c as nat);
        }
    }
    // Scatter each key index into its bucket's slice.
    for i in 0..n
        invariant
            n == hashes.len(),
            n <= MAX_LEN,
            cls == bucket_classes(hashes@, shift),
            classes_below(cls, num_buckets as nat),
            49 <= shift <= 63,
            num_buckets == pow2((64 - shift) as nat),
            starts.len() == num_buckets + 1,
            forall|c: int| 0 <= c <= num_buckets ==> #[trigger] starts[c] == count_lt(cls, c as nat, n as int),
            cursor.len() == num_buckets + 1,
            forall|c: int| 0 <= c < num_buckets ==> #[trigger] cursor[c] == count_lt(cls, c as nat, n as int) + count_eq(cls, c as nat, i as int),
            entries.len() == n,
            bucket_hashes.len() == n,
            forall|j: int| 0 <= j < i ==> #[trigger] entries[rank(cls, j)] == j,
            forall|j: int| 0 <= j < i ==> #[trigger] bucket_hashes[rank(cls, j)] == hashes[j],
    {
        let b = bucket(hashes[i], shift);
        let pos = cursor[b] as usize;
        proof {
            assert(cls[i as int] == b);
            lemma_rank_def(cls, i as int);
            assert(pos == rank(cls, i as int));
            lemma_rank_bounds(cls, num_buckets as nat, i as int);
            lemma_count_lt_mono(cls, (b + 1) as nat, num_buckets as nat, n as int);
            lemma_count_lt_all(cls, num_buckets as nat, n as int);
            assert forall|c: int| 0 <= c < num_buckets implies #[trigger] count_eq(cls, c as nat, i + 1) == count_eq(cls, c as nat, i as int) + if c == b { 1nat } else { 0nat } by {
                lemma_count_next(cls, c as nat, i as int);
            }
        }
        let v = cursor[b] + 1;
        cursor.set(b, v);
        let ghost old_entries = entries@;
        let ghost old_hashes = bucket_hashes@;
        entries.set(pos, i as u16);
        bucket_hashes.set(pos, hashes[i]);
        proof {
            assert forall|j: int| 0 <= j < i + 1 implies #[trigger] entries[rank(cls, j)] == j by {
                lemma_rank_bounds(cls, num_buckets as nat, j);
                if j < i {
                    lemma_rank_injective(cls, j, i as int);
                    assert(old_entries[rank(cls, j)] == j);
                }
            }
            assert forall|j: int| 0 <= j < i + 1 implies #[trigger] bucket_hashes[rank(cls, j)] == hashes[j] by {
                lemma_rank_bounds(cls, num_buckets as nat, j);
                if j < i {
                    lemma_rank_injective(cls, j, i as int);
                    assert(old_hashes[rank(cls, j)] == hashes[j]);
                }
            }
        }
    }
    proof {
        assert forall|p: int| 0 <= p < n implies {
            &&& (#[trigger] entries[p]) < n
            &&& rank(cls, entries[p] as int) == p
            &&& bucket_hashes[p] == hashes[entries[p] as int]
        } by {
            let i = lemma_rank_surjective(cls, num_buckets as nat, p);
        }
    }
    (starts, entries, bucket_hashes)
}

/// The size of bucket `b` in a CSR offset table.
pub open spec fn bucket_size(starts: Seq<u16>, b: int) -> int {
    starts[b + 1] - starts[b]
}

/// Whether a CSR offset table is non-decreasing, so that every bucket has a size.
pub open spec fn offsets_sorted(starts: Seq<u16>) -> bool {
    forall|b: int| 0 <= b < starts.len() - 1 ==> #[trigger] starts[b] <= starts[b + 1]
}

/// Whether bucket `a` is ordered before bucket `b`: larger buckets first, then lower indices first.
pub open spec fn bucket_precedes(starts: Seq<u16>, a: int, b: int) -> bool {
    bucket_size(starts, a) > bucket_size(starts, b) || (bucket_size(starts, a) == bucket_size(starts, b) && a < b)
}

/// The classes under which a counting sort orders buckets by descending size: `max - size`.
pub open spec fn size_classes(starts: Seq<u16>, max: nat) -> Seq<nat> {
    Seq::new((starts.len() - 1) as nat, |b: int| (max - bucket_size(starts, b)) as nat)
}

/// Returns bucket indices ordered by descending size, with ties broken by ascending index.
pub fn order_buckets_by_size(starts: &Vec<u16>) -> (order: Vec<u16>)
    requires
        1 <= starts.len() <= 65536,
        offsets_sorted(starts@),
    ensures
        order.len() == starts.len() - 1,
        forall|p: int| 0 <= p < order.len() ==> (#[trigger] order[p]) < order.len(),
        forall|p: int, q: int| 0 <= p < q < order.len() ==> bucket_precedes(starts@, #[trigger] order[p] as int, #[trigger] order[q] as int),
        forall|b: u16| (b as int) < order.len() ==> #[trigger] order@.contains(b),
{
    let num_buckets: usize = starts.len() - 1;
    // Find the largest bucket size.
    let mut max: u16 = 0;
    for b in 0..num_buckets
        invariant
            num_buckets == starts.len() - 1,
            offsets_sorted(starts@),
            forall|c: int| 0 <= c < b ==> bucket_size(starts@, c) <= max,
    {
        let size = starts[b + 1] - starts[b];
        if size > max {
            max = size;
        }
    }
    let ghost cls = size_classes(starts@, max as nat);
    proof {
        assert forall|b: int| 0 <= b < cls.len() implies #[trigger] cls[b] < max + 1 by {}
    }
    // Count buckets per size.
    let mut offsets: Vec<u16> = vec![0u16; max as usize + 1];
    proof {
        assert forall|s: int| 0 <= s <= max implies #[trigger] offsets[s] == count_eq(cls, (max - s) as nat, 0) by {
            lemma_count_empty(cls, (max - s) as nat);
        }
    }
    for b in 0..num_buckets
        invariant
            num_buckets == starts.len() - 1,
            num_buckets <= 65535,
            offsets_sorted(starts@),
            cls == size_classes(starts@, max as nat),
            forall|c: int| 0 <= c < num_buckets ==> bucket_size(starts@, c) <= max,
            offsets.len() == max + 1,
            forall|s: int| 0 <= s <= max ==> #[trigger] offsets[s] == count_eq(cls, (max - s) as nat, b as int),
    {
        let size = starts[b + 1] - starts[b];
        proof {
            lemma_count_bounds(cls, (max - size) as nat, 0, b as int);
            lemma_count_empty(cls, (max - size) as nat);
            assert forall|s: int| 0 <= s <= max implies #[trigger] count_eq(cls, (max - s) as nat, b + 1) == count_eq(cls, (max - s) as nat, b as int) + if s == size { 1nat } else { 0nat } by {
                lemma_count_next(cls, (max - s) as nat, b as int);
            }
        }
        let v = offsets[size as usize] + 1;
        offsets.set(size as usize, v);
    }
    // Turn the counts into each size's starting output position, from the largest size down.
    let mut running: u16 = 0;
    proof {
        lemma_count_lt_zero(cls, num_buckets as int);
    }
    for k in 0..max as usize + 1
        invariant
            num_buckets == starts.len() - 1,
            num_buckets <= 65535,
            cls == size_classes(starts@, max as nat),
            classes_below(cls, max as nat + 1),
            offsets.len() == max + 1,
            running == count_lt(cls, k as nat, num_buckets as int),
            forall|s: int| max - k < s <= max ==> #[trigger] offsets[s] == count_lt(cls, (max - s) as nat, num_buckets as int),
            forall|s: int| 0 <= s <= max - k ==> #[trigger] offsets[s] == count_eq(cls, (max - s) as nat, num_buckets as int),
    {
        let s = max as usize - k;
        proof {
            lemma_count_lt_step(cls, k as nat, num_buckets as int);
            lemma_count_lt_mono(cls, (k + 1) as nat, max as nat + 1, num_buckets as int);
            lemma_count_lt_all(cls, max as nat + 1, num_buckets as int);
        }
        let count = offsets[s];
        offsets.set(s, running);
        running = running + count;
    }
    // Scatter buckets in ascending index order, so within one size they keep index order.
    let mut order: Vec<u16> = vec![0u16; num_buckets];
    proof {
        assert forall|s: int| 0 <= s <= max implies #[trigger] count_eq(cls, (max - s) as nat, 0) == 0 by {
            lemma_count_empty(cls, (max - s) as nat);
        }
    }
    for b in 0..num_buckets
        invariant
            num_buckets == starts.len() - 1,
            num_buckets <= 65535,
            cls == size_classes(starts@, max as nat),
            offsets_sorted(starts@),
            classes_below(cls, max as nat + 1),
            forall|c: int| 0 <= c < num_buckets ==> bucket_size(starts@, c) <= max,
            offsets.len() == max + 1,
            forall|s: int| 0 <= s <= max ==> #[trigger] offsets[s] == count_lt(cls, (max - s) as nat, num_buckets as int) + count_eq(cls, (max - s) as nat, b as int),
            order.len() == num_buckets,
            forall|c: int| 0 <= c < b ==> #[trigger] order[rank(cls, c)] == c,
    {
        let size = starts[b + 1] - starts[b];
        assert(size == bucket_size(starts@, b as int));
        let pos = offsets[size as usize] as usize;
        proof {
            assert(cls[b as int] == max - size);
            lemma_rank_def(cls, b as int);
            assert(pos == rank(cls, b as int));
            lemma_rank_bounds(cls, max as nat + 1, b as int);
            lemma_count_lt_mono(cls, (max - size + 1) as nat, max as nat + 1, num_buckets as int);
            lemma_count_lt_all(cls, max as nat + 1, num_buckets as int);
            assert forall|s: int| 0 <= s <= max implies #[trigger] count_eq(cls, (max - s) as nat, b + 1) == count_eq(cls, (max - s) as nat, b as int) + if s == size { 1nat } else { 0nat } by {
                lemma_count_next(cls, (max - s) as nat, b as int);
            }
        }
        let v = offsets[size as usize] + 1;
        offsets.set(size as usize, v);
        let ghost old_order = order@;
        order.set(pos, b as u16);
        proof {
            assert forall|c: int| 0 <= c < b + 1 implies #[trigger] order[rank(cls, c)] == c by {
                lemma_rank_bounds(cls, max as nat + 1, c);
                if c < b {
                    lemma_rank_injective(cls, c, b as int);
                    assert(old_order[rank(cls, c)] == c);
                }
            }
        }
    }
    proof {
        assert forall|p: int| 0 <= p < order.len() implies (#[trigger] order[p]) < order.len() && rank(cls, order[p] as int) == p by {
            let b = lemma_rank_surjective(cls, max as nat + 1, p);
        }
        assert forall|b: u16| (b as int) < order.len() implies #[trigger] order@.contains(b) by {
            lemma_rank_bounds(cls, max as nat + 1, b as int);
            assert(order[rank(cls, b as int)] == b);
        }
        assert forall|p: int, q: int| 0 <= p < q < order.len() implies bucket_precedes(starts@, #[trigger] order[p] as int, #[trigger] order[q] as int) by {
            let a = order[p] as int;
            let b = order[q] as int;
            if !bucket_precedes(starts@, a, b) {
                if a == b {
                } else {
                    lemma_rank_order(cls, b, a);
                }
            }
        }
    }
    order
}

/// Whether bit `b` of `w` is set.
pub open spec fn bit_set(w: u64, b: u64) -> bool {
    (w >> b) & 1u64 == 1u64
}

/// Tracks keys claiming slots. One bit is used per slot.
pub struct SlotBitmap {
    words: Vec<u64>,
    slots: usize,
}

impl View for SlotBitmap {
    type V = Seq<bool>;

    /// Which slots are claimed.
    closed spec fn view(&self) -> Seq<bool> {
        Seq::new(self.slots as nat, |s: int| bit_set(self.words[s / 64], (s % 64) as u64))
    }
}

proof fn lemma_bit_index(slot: usize)
    ensures
        slot >> 6usize == slot / 64,
        slot & 63usize == slot % 64,
{
    assert(slot >> 6usize == slot / 64) by (bit_vector);
    assert(slot & 63usize == slot % 64) by (bit_vector);
}

pub(crate) proof fn lemma_bit_test(w: u64, b: u64)
    requires
        b < 64,
    ensures
        (w & (1u64 << b) == 0) == !bit_set(w, b),
{
    assert((w & (1u64 << b) == 0) == !((w >> b) & 1u64 == 1u64)) by (bit_vector)
        requires b < 64;
}

proof fn lemma_bit_flip(w: u64, b: u64, c: u64)
    requires
        b < 64,
        c < 64,
    ensures
        bit_set(w ^ (1u64 << b), c) == if b == c { !bit_set(w, c) } else { bit_set(w, c) },
{
    assert(((w ^ (1u64 << b)) >> c) & 1u64 == 1u64 <==> (if b == c { !((w >> c) & 1u64 == 1u64) } else { (w >> c) & 1u64 == 1u64 })) by (bit_vector)
        requires b < 64, c < 64;
}

impl SlotBitmap {
    /// The number of slots.
    pub closed spec fn len(&self) -> nat {
        self.slots as nat
    }

    closed spec fn wf(&self) -> bool {
        self.words.len() * 64 >= self.slots
    }

    /// Whether the bitmap is internally consistent.
    pub closed spec fn inv(&self) -> bool {
        self.wf()
    }

    /// Creates a bitmap of `slots` free slots.
    pub fn new(slots: usize) -> (r: Self)
        requires
            slots <= 66191,
        ensures
            r.inv(),
            r@ == Seq::new(slots as nat, |s: int| false),
    {
        let words: Vec<u64> = vec![0u64; (slots + 63) / 64];
        let r = SlotBitmap { words, slots };
        proof {
            assert forall|s: int| 0 <= s < slots implies !#[trigger] r@[s] by {
                let w = r.words[s / 64];
                let b = (s % 64) as u64;
                assert(w == 0);
                assert((0u64 >> b) & 1u64 == 0u64) by (bit_vector);
            }
            assert(r@ =~= Seq::new(slots as nat, |s: int| false));
        }
        r
    }

    /// Returns whether `slot` is currently free.
    pub fn is_free(&self, slot: usize) -> (r: bool)
        requires
            self.inv(),
            slot < self@.len(),
        ensures
            r == !self@[slot as int],
    {
        proof {
            lemma_bit_index(slot);
            lemma_bit_test(self.words[(slot / 64) as int], (slot % 64) as u64);
        }
        self.words[slot >> 6] & (1u64 << ((slot & 63) as u64)) == 0
    }

    /// Claims `slot` if currently free, or releases `slot` if currently claimed.
    pub fn flip(&mut self, slot: usize)
        requires
            old(self).inv(),
            slot < old(self)@.len(),
        ensures
            final(self).inv(),
            final(self)@ == old(self)@.update(slot as int, !old(self)@[slot as int]),
    {
        proof {
            lemma_bit_index(slot);
        }
        let i = slot >> 6;
        let w = self.words[i] ^ (1u64 << ((slot & 63) as u64));
        self.words.set(i, w);
        proof {
            assert forall|s: int| 0 <= s < self.slots implies #[trigger] self@[s] == old(self)@.update(slot as int, !old(self)@[slot as int])[s] by {
                if s / 64 == slot / 64 {
                    lemma_bit_flip(old(self).words[s / 64], (slot % 64) as u64, (s % 64) as u64);
                }
            }
            assert(self@ =~= old(self)@.update(slot as int, !old(self)@[slot as int]));
        }
    }
}

/// The slot that pilot `p` sends hash `h` to, out of `slots` slots.
pub open spec fn pslot(h: u64, p: u16, slots: nat) -> int {
    spec_pilot_slot(h, p, slots) as int
}

/// The slots that pilot `p` sends the hashes `bh[lo..hi]` to.
#[verifier::opaque]
pub open spec fn claimed_slots(bh: Seq<u64>, p: u16, slots: nat, lo: int, hi: int) -> Set<int> {
    Set::new(|s: int| exists|q: int| lo <= q < hi && #[trigger] pslot(bh[q], p, slots) == s)
}

/// Whether pilot `p` sends the hashes `bh[lo..hi]` to distinct slots, none of them claimed in `base`.
pub open spec fn pilot_fits(base: Seq<bool>, bh: Seq<u64>, p: u16, slots: nat, lo: int, hi: int) -> bool {
    &&& forall|q: int| lo <= q < hi ==> !base[#[trigger] pslot(bh[q], p, slots)]
    &&& forall|q1: int, q2: int| lo <= q1 < q2 < hi ==> #[trigger] pslot(bh[q1], p, slots) != #[trigger] pslot(bh[q2], p, slots)
}

/// The claims of `base` together with the slots that pilot `p` sends `bh[lo..hi]` to.
#[verifier::opaque]
pub open spec fn with_claims(base: Seq<bool>, bh: Seq<u64>, p: u16, slots: nat, lo: int, hi: int) -> Seq<bool> {
    Seq::new(base.len(), |s: int| base[s] || claimed_slots(bh, p, slots, lo, hi).contains(s))
}

proof fn lemma_claimed_extend(bh: Seq<u64>, p: u16, slots: nat, lo: int, hi: int)
    requires
        lo <= hi,
    ensures
        claimed_slots(bh, p, slots, lo, hi + 1) == claimed_slots(bh, p, slots, lo, hi).insert(pslot(bh[hi], p, slots)),
{
    reveal(claimed_slots);
    let a = claimed_slots(bh, p, slots, lo, hi + 1);
    let b = claimed_slots(bh, p, slots, lo, hi).insert(pslot(bh[hi], p, slots));
    assert forall|s: int| a.contains(s) <==> b.contains(s) by {
        if a.contains(s) {
            let q = choose|q: int| lo <= q < hi + 1 && #[trigger] pslot(bh[q], p, slots) == s;
            if q < hi {
                assert(claimed_slots(bh, p, slots, lo, hi).contains(s));
            }
        }
        if b.contains(s) && s != pslot(bh[hi], p, slots) {
            let q = choose|q: int| lo <= q < hi && #[trigger] pslot(bh[q], p, slots) == s;
            assert(lo <= q < hi + 1);
        }
    }
    assert(a =~= b);
}

proof fn lemma_claimed_shrink(bh: Seq<u64>, p: u16, slots: nat, lo: int, hi: int)
    requires
        lo < hi,
        forall|q1: int, q2: int| lo <= q1 < q2 < hi ==> #[trigger] pslot(bh[q1], p, slots) != #[trigger] pslot(bh[q2], p, slots),
    ensures
        claimed_slots(bh, p, slots, lo + 1, hi) == claimed_slots(bh, p, slots, lo, hi).remove(pslot(bh[lo], p, slots)),
        claimed_slots(bh, p, slots, lo, hi).contains(pslot(bh[lo], p, slots)),
{
    reveal(claimed_slots);
    let a = claimed_slots(bh, p, slots, lo + 1, hi);
    let b = claimed_slots(bh, p, slots, lo, hi).remove(pslot(bh[lo], p, slots));
    assert forall|s: int| a.contains(s) <==> b.contains(s) by {
        if a.contains(s) {
            let q = choose|q: int| lo + 1 <= q < hi && #[trigger] pslot(bh[q], p, slots) == s;
            assert(pslot(bh[lo], p, slots) != pslot(bh[q], p, slots));
            assert(claimed_slots(bh, p, slots, lo, hi).contains(s));
        }
        if b.contains(s) {
            let q = choose|q: int| lo <= q < hi && #[trigger] pslot(bh[q], p, slots) == s;
            assert(q != lo);
            assert(lo + 1 <= q < hi);
        }
    }
    assert(a =~= b);
    assert(lo <= lo < hi && pslot(bh[lo], p, slots) == pslot(bh[lo], p, slots));
}

/// A pilot slot is one of the slots.
proof fn lemma_pslot_bound(h: u64, p: u16, slots: nat)
    requires
        slots > 0,
    ensures
        0 <= pslot(h, p, slots) < slots,
{
    let mixed = vstd::wrapping::u64_specs::wrapping_mul(
        h ^ vstd::wrapping::u64_specs::wrapping_mul(crate::kernel::PILOT_MUL, p as u64),
        crate::kernel::PILOT_MUL,
    );
    lemma_fastrange_bound(mixed, slots);
}

/// Releasing the slot of the first claimed hash.
proof fn lemma_claims_shrink(taken: Seq<bool>, base: Seq<bool>, bh: Seq<u64>, p: u16, slots: nat, q: int, c: int)
    requires
        0 <= q < c <= bh.len(),
        base.len() == slots,
        slots > 0,
        taken == with_claims(base, bh, p, slots, q, c),
        pilot_fits(base, bh, p, slots, q, c),
    ensures
        taken.len() == slots,
        0 <= pslot(bh[q], p, slots) < slots,
        taken[pslot(bh[q], p, slots)],
        taken.update(pslot(bh[q], p, slots), false) == with_claims(base, bh, p, slots, q + 1, c),
        pilot_fits(base, bh, p, slots, q + 1, c),
{
    reveal(with_claims);
    lemma_claimed_shrink(bh, p, slots, q, c);
    let s = pslot(bh[q], p, slots);
    lemma_pslot_bound(bh[q], p, slots);
    assert(!base[s]);
    assert(taken.update(s, false) =~= with_claims(base, bh, p, slots, q + 1, c));
}

/// No hashes claim no slots.
proof fn lemma_claims_empty(base: Seq<bool>, bh: Seq<u64>, p: u16, slots: nat, lo: int)
    ensures
        with_claims(base, bh, p, slots, lo, lo) == base,
        claimed_slots(bh, p, slots, lo, lo) == Set::<int>::empty(),
{
    reveal(claimed_slots);
    reveal(with_claims);
    assert(claimed_slots(bh, p, slots, lo, lo) =~= Set::empty());
    assert(with_claims(base, bh, p, slots, lo, lo) =~= base);
}

/// What the claims hold at a slot.
proof fn lemma_claims_at(base: Seq<bool>, bh: Seq<u64>, p: u16, slots: nat, lo: int, hi: int, s: int)
    requires
        0 <= s < base.len(),
    ensures
        with_claims(base, bh, p, slots, lo, hi).len() == base.len(),
        with_claims(base, bh, p, slots, lo, hi)[s] == (base[s] || claimed_slots(bh, p, slots, lo, hi).contains(s)),
        (exists|q: int| lo <= q < hi && #[trigger] pslot(bh[q], p, slots) == s) ==> claimed_slots(bh, p, slots, lo, hi).contains(s),
        claimed_slots(bh, p, slots, lo, hi).contains(s) ==> exists|q: int| lo <= q < hi && #[trigger] pslot(bh[q], p, slots) == s,
{
    reveal(claimed_slots);
    reveal(with_claims);
}

/// Claiming the slot of one more hash.
proof fn lemma_claims_grow(taken: Seq<bool>, base: Seq<bool>, bh: Seq<u64>, p: u16, slots: nat, lo: int, c: int)
    requires
        lo <= c < bh.len(),
        base.len() == slots,
        slots > 0,
        taken == with_claims(base, bh, p, slots, lo, c),
        !taken[pslot(bh[c], p, slots)],
        pilot_fits(base, bh, p, slots, lo, c),
    ensures
        taken.len() == slots,
        taken.update(pslot(bh[c], p, slots), true) == with_claims(base, bh, p, slots, lo, c + 1),
        pilot_fits(base, bh, p, slots, lo, c + 1),
{
    let s = pslot(bh[c], p, slots);
    lemma_pslot_bound(bh[c], p, slots);
    lemma_claims_at(base, bh, p, slots, lo, c, s);
    assert(!base[s]);
    assert forall|q: int| lo <= q < c implies #[trigger] pslot(bh[q], p, slots) != s by {
        let t = pslot(bh[q], p, slots);
        lemma_pslot_bound(bh[q], p, slots);
        lemma_claims_at(base, bh, p, slots, lo, c, t);
    }
    lemma_claimed_extend(bh, p, slots, lo, c);
    let next = with_claims(base, bh, p, slots, lo, c + 1);
    assert forall|t: int| 0 <= t < slots implies #[trigger] next[t] == taken.update(s, true)[t] by {
        lemma_claims_at(base, bh, p, slots, lo, c, t);
        lemma_claims_at(base, bh, p, slots, lo, c + 1, t);
    }
    lemma_claims_at(base, bh, p, slots, lo, c + 1, s);
    assert(next =~= taken.update(s, true));
}

/// Releases the slots that pilot `p` claimed for the hashes `bh[lo..c]`.
fn release_claims(taken: &mut SlotBitmap, bh: &Vec<u64>, lo: usize, c: usize, slots: usize, p: u16, Ghost(base): Ghost<Seq<bool>>)
    requires
        old(taken).inv(),
        base.len() == slots,
        0 < slots <= 66191,
        lo <= c <= bh.len(),
        old(taken)@ == with_claims(base, bh@, p, slots as nat, lo as int, c as int),
        pilot_fits(base, bh@, p, slots as nat, lo as int, c as int),
    ensures
        final(taken).inv(),
        final(taken)@ == base,
{
    let mut q = lo;
    while q < c
        invariant
            taken.inv(),
            base.len() == slots,
            0 < slots <= 66191,
            lo <= q <= c <= bh.len(),
            taken@ == with_claims(base, bh@, p, slots as nat, q as int, c as int),
            pilot_fits(base, bh@, p, slots as nat, q as int, c as int),
        decreases c - q,
    {
        let s = pilot_slot(bh[q], p, slots);
        proof {
            lemma_claims_shrink(taken@, base, bh@, p, slots as nat, q as int, c as int);
        }
        taken.flip(s);
        q = q + 1;
    }
    proof {
        lemma_claims_empty(base, bh@, p, slots as nat, c as int);
    }
}

/// A longer run of hashes cannot fit where a shorter one does not.
proof fn lemma_fits_prefix(base: Seq<bool>, bh: Seq<u64>, p: u16, slots: nat, lo: int, c: int, hi: int)
    requires
        lo <= c <= hi,
        !pilot_fits(base, bh, p, slots, lo, c),
    ensures
        !pilot_fits(base, bh, p, slots, lo, hi),
{
}

/// Claims, one by one, the slots that pilot `p` sends the hashes `bh[lo..hi]` to, stopping before the
/// first hash whose slot is already claimed. Returns the end of the claimed run.
fn claim_run(taken: &mut SlotBitmap, bh: &Vec<u64>, lo: usize, hi: usize, slots: usize, p: u16) -> (c: usize)
    requires
        old(taken).inv(),
        old(taken)@.len() == slots,
        0 < slots <= 66191,
        lo < hi <= bh.len(),
    ensures
        final(taken).inv(),
        lo <= c <= hi,
        final(taken)@ == with_claims(old(taken)@, bh@, p, slots as nat, lo as int, c as int),
        pilot_fits(old(taken)@, bh@, p, slots as nat, lo as int, c as int),
        c < hi ==> !pilot_fits(old(taken)@, bh@, p, slots as nat, lo as int, c + 1),
{
    let ghost base = taken@;
    let mut c = lo;
    proof {
        lemma_claims_empty(base, bh@, p, slots as nat, lo as int);
    }
    while c < hi
        invariant
            taken.inv(),
            base == old(taken)@,
            base.len() == slots,
            0 < slots <= 66191,
            lo <= c <= hi <= bh.len(),
            taken@ == with_claims(base, bh@, p, slots as nat, lo as int, c as int),
            pilot_fits(base, bh@, p, slots as nat, lo as int, c as int),
        decreases hi - c,
    {
        let s = pilot_slot(bh[c], p, slots);
        proof {
            lemma_claims_at(base, bh@, p, slots as nat, lo as int, c as int, s as int);
        }
        if !taken.is_free(s) {
            proof {
                if !base[s as int] {
                    let q = choose|q: int| lo <= q < c && #[trigger] pslot(bh@[q], p, slots as nat) == s;
                    assert(pslot(bh@[q], p, slots as nat) == pslot(bh@[c as int], p, slots as nat));
                } else {
                    assert(pslot(bh@[c as int], p, slots as nat) == s);
                }
            }
            return c;
        }
        proof {
            lemma_claims_grow(taken@, base, bh@, p, slots as nat, lo as int, c as int);
        }
        taken.flip(s);
        c = c + 1;
    }
    c
}

/// Tries pilot `p` on the hashes `bh[lo..hi]` of one bucket: claims their slots if they are distinct
/// and free, and otherwise leaves the bitmap as it was.
pub fn try_pilot(taken: &mut SlotBitmap, bh: &Vec<u64>, lo: usize, hi: usize, slots: usize, p: u16) -> (fits: bool)
    requires
        old(taken).inv(),
        old(taken)@.len() == slots,
        0 < slots <= 66191,
        lo < hi <= bh.len(),
    ensures
        final(taken).inv(),
        fits == pilot_fits(old(taken)@, bh@, p, slots as nat, lo as int, hi as int),
        fits ==> final(taken)@ == with_claims(old(taken)@, bh@, p, slots as nat, lo as int, hi as int),
        !fits ==> final(taken)@ == old(taken)@,
{
    let ghost base = taken@;
    let c = claim_run(taken, bh, lo, hi, slots, p);
    if c == hi {
        return true;
    }
    proof {
        lemma_fits_prefix(base, bh@, p, slots as nat, lo as int, c + 1, hi as int);
    }
    release_claims(taken, bh, lo, c, slots, p, Ghost(base));
    false
}

/// Searches for the smallest pilot that sends the hashes `bh[lo..hi]` of one bucket to distinct free
/// slots, and claims those slots.
pub fn try_bucket(taken: &mut SlotBitmap, bh: &Vec<u64>, lo: usize, hi: usize, slots: usize) -> (r: Option<u16>)
    requires
        old(taken).inv(),
        old(taken)@.len() == slots,
        0 < slots <= 66191,
        lo < hi <= bh.len(),
    ensures
        final(taken).inv(),
        final(taken)@.len() == slots,
        match r {
            Some(p) => {
                &&& pilot_fits(old(taken)@, bh@, p, slots as nat, lo as int, hi as int)
                &&& forall|p2: u16| p2 < p ==> !pilot_fits(old(taken)@, bh@, p2, slots as nat, lo as int, hi as int)
                &&& final(taken)@ == with_claims(old(taken)@, bh@, p, slots as nat, lo as int, hi as int)
            },
            None => {
                &&& forall|p2: u16| !pilot_fits(old(taken)@, bh@, p2, slots as nat, lo as int, hi as int)
                &&& final(taken)@ == old(taken)@
            },
        },
{
    let ghost base = taken@;
    let mut pilot: u32 = 0;
    while pilot < 65536
        invariant
            taken.inv(),
            taken@ == base,
            base == old(taken)@,
            base.len() == slots,
            0 < slots <= 66191,
            lo < hi <= bh.len(),
            pilot <= 65536,
            forall|p2: u16| p2 < pilot ==> !pilot_fits(base, bh@, p2, slots as nat, lo as int, hi as int),
        decreases 65536 - pilot,
    {
        let p = pilot as u16;
        if try_pilot(taken, bh, lo, hi, slots, p) {
            proof {
                lemma_claims_at(base, bh@, p, slots as nat, lo as int, hi as int, 0);
            }
            return Some(p);
        }
        pilot = pilot + 1;
    }
    None
}

/// Whether pilot `p` sends the hashes `bh[lo..hi]` to distinct slots.
#[verifier::opaque]
pub open spec fn slots_distinct(bh: Seq<u64>, p: u16, slots: nat, lo: int, hi: int) -> bool {
    forall|q1: int, q2: int| lo <= q1 < q2 < hi ==> #[trigger] pslot(bh[q1], p, slots) != #[trigger] pslot(bh[q2], p, slots)
}

/// What the slot table holds after recording the entries `be[lo..q]` at their slots.
pub open spec fn placed_run(se: Seq<u16>, old_se: Seq<u16>, be: Seq<u16>, bh: Seq<u64>, p: u16, slots: nat, lo: int, q: int) -> bool {
    &&& se.len() == slots
    &&& forall|r: int| lo <= r < q ==> se[#[trigger] pslot(bh[r], p, slots)] == be[r]
    &&& forall|t: int| 0 <= t < slots && !claimed_slots(bh, p, slots, lo, q).contains(t) ==> #[trigger] se[t] == old_se[t]
}

proof fn lemma_place_step(se: Seq<u16>, old_se: Seq<u16>, be: Seq<u16>, bh: Seq<u64>, p: u16, slots: nat, lo: int, q: int, hi: int)
    requires
        lo <= q < hi <= bh.len(),
        hi <= be.len(),
        slots > 0,
        slots_distinct(bh, p, slots, lo, hi),
        placed_run(se, old_se, be, bh, p, slots, lo, q),
    ensures
        placed_run(se.update(pslot(bh[q], p, slots), be[q]), old_se, be, bh, p, slots, lo, q + 1),
{
    let s = pslot(bh[q], p, slots);
    let next = se.update(s, be[q]);
    lemma_pslot_bound(bh[q], p, slots);
    lemma_claimed_extend(bh, p, slots, lo, q);
    assert forall|r: int| lo <= r < q + 1 implies next[#[trigger] pslot(bh[r], p, slots)] == be[r] by {
        lemma_pslot_bound(bh[r], p, slots);
        if r < q {
            reveal(slots_distinct);
            assert(pslot(bh[r], p, slots) != pslot(bh[q], p, slots));
        }
    }
    assert forall|t: int| 0 <= t < slots && !claimed_slots(bh, p, slots, lo, q + 1).contains(t) implies #[trigger] next[t] == old_se[t] by {
        assert(t != s);
        assert(!claimed_slots(bh, p, slots, lo, q).contains(t));
    }
}

/// Records, for each hash `bh[q]` of a bucket, its entry `be[q]` in the slot that pilot `p` sends it to.
fn place_bucket(slot_entries: &mut Vec<u16>, be: &Vec<u16>, bh: &Vec<u64>, lo: usize, hi: usize, p: u16, slots: usize)
    requires
        old(slot_entries).len() == slots,
        0 < slots <= 66191,
        lo <= hi <= bh.len(),
        hi <= be.len(),
        slots_distinct(bh@, p, slots as nat, lo as int, hi as int),
    ensures
        placed_run(final(slot_entries)@, old(slot_entries)@, be@, bh@, p, slots as nat, lo as int, hi as int),
{
    let ghost old_se = slot_entries@;
    let mut q = lo;
    proof {
        lemma_claims_empty(Seq::new(slots as nat, |s: int| false), bh@, p, slots as nat, lo as int);
    }
    while q < hi
        invariant
            0 < slots <= 66191,
            lo <= q <= hi <= bh.len(),
            hi <= be.len(),
            slots_distinct(bh@, p, slots as nat, lo as int, hi as int),
            placed_run(slot_entries@, old_se, be@, bh@, p, slots as nat, lo as int, q as int),
        decreases hi - q,
    {
        let s = pilot_slot(bh[q], p, slots);
        proof {
            lemma_place_step(slot_entries@, old_se, be@, bh@, p, slots as nat, lo as int, q as int, hi as int);
        }
        slot_entries.set(s, be[q]);
        q = q + 1;
    }
}

/// Whether positions `q1 < q2` of `bh[lo..hi]` hold identical hashes, and come first among such pairs: no
/// identical pair starts before `q1`, and none starting at `q1` ends before `q2`.
pub open spec fn first_identical_pair(bh: Seq<u64>, lo: int, hi: int, q1: int, q2: int) -> bool {
    &&& lo <= q1 < q2 < hi
    &&& bh[q1] == bh[q2]
    &&& forall|a: int, c: int| lo <= a < c < hi && #[trigger] bh[a] == #[trigger] bh[c] ==> q1 < a || (q1 == a && q2 <= c)
}

/// Looks for two hashes of one bucket that are identical, returning the entries of the first such pair.
fn find_identical(be: &Vec<u16>, bh: &Vec<u64>, lo: usize, hi: usize) -> (r: Option<(usize, usize)>)
    requires
        lo <= hi <= bh.len(),
        hi <= be.len(),
    ensures
        match r {
            Some((i, j)) => exists|q1: int, q2: int| first_identical_pair(bh@, lo as int, hi as int, q1, q2) && be[q1] == i && be[q2] == j,
            None => forall|q1: int, q2: int| lo <= q1 < q2 < hi ==> bh[q1] != bh[q2],
        },
{
    let mut a = lo;
    while a < hi
        invariant
            lo <= a <= hi <= bh.len(),
            hi <= be.len(),
            forall|q1: int, q2: int| lo <= q1 < a && q1 < q2 < hi ==> bh[q1] != bh[q2],
        decreases hi - a,
    {
        let mut c = a + 1;
        while c < hi
            invariant
                lo <= a < hi <= bh.len(),
                a < c <= hi,
                hi <= be.len(),
                forall|q1: int, q2: int| lo <= q1 < a && q1 < q2 < hi ==> bh[q1] != bh[q2],
                forall|q2: int| a < q2 < c ==> bh[a as int] != bh[q2],
            decreases hi - c,
        {
            if bh[a] == bh[c] {
                proof {
                    assert forall|x: int, y: int| lo <= x < y < hi && #[trigger] bh[x] == #[trigger] bh[y]
                        implies a < x || (a == x && c <= y) by {
                        if x < a {
                            assert(bh[x] != bh[y]);
                        } else if x == a && y < c {
                            assert(bh[a as int] != bh[y]);
                        }
                    }
                    assert(first_identical_pair(bh@, lo as int, hi as int, a as int, c as int));
                }
                return Some((be[a] as usize, be[c] as usize));
            }
            c = c + 1;
        }
        a = a + 1;
    }
    None
}

/// Marks a free slot in the slot-to-entry table.
pub const EMPTY: u16 = 65535;

/// The number of occupied slots in `se[a..b]`.
pub open spec fn count_occ(se: Seq<u16>, a: int, b: int) -> nat
    decreases b - a,
{
    if b <= a {
        0
    } else {
        count_occ(se, a, b - 1) + if se[b - 1] != EMPTY { 1nat } else { 0nat }
    }
}

proof fn lemma_count_occ_split(se: Seq<u16>, a: int, b: int, c: int)
    requires
        a <= b <= c,
    ensures
        count_occ(se, a, c) == count_occ(se, a, b) + count_occ(se, b, c),
    decreases c - b,
{
    if c > b {
        lemma_count_occ_split(se, a, b, c - 1);
    }
}

proof fn lemma_count_occ_bound(se: Seq<u16>, a: int, b: int)
    requires
        a <= b,
    ensures
        count_occ(se, a, b) <= b - a,
        count_occ(se, a, b) == b - a ==> forall|s: int| a <= s < b ==> #[trigger] se[s] != EMPTY,
    decreases b - a,
{
    if b > a {
        lemma_count_occ_bound(se, a, b - 1);
    }
}

/// The set of occupied slots among the first `m`.
pub open spec fn occ_set(se: Seq<u16>, m: int) -> Set<int> {
    Set::new(|s: int| 0 <= s < m && se[s] != EMPTY)
}

proof fn lemma_count_occ_set(se: Seq<u16>, m: int)
    requires
        0 <= m,
    ensures
        occ_set(se, m).finite(),
        occ_set(se, m).len() == count_occ(se, 0, m),
    decreases m,
{
    if m == 0 {
        assert(occ_set(se, m) =~= Set::empty());
    } else {
        lemma_count_occ_set(se, m - 1);
        if se[m - 1] != EMPTY {
            assert(occ_set(se, m) =~= occ_set(se, m - 1).insert(m - 1));
        } else {
            assert(occ_set(se, m) =~= occ_set(se, m - 1));
        }
    }
}

/// Skipping occupied slots leaves the number of holes unchanged.
proof fn lemma_count_occ_skip(se: Seq<u16>, f: int, h: int)
    requires
        0 <= f <= h,
        forall|s: int| f <= s < h ==> #[trigger] se[s] != EMPTY,
    ensures
        count_occ(se, 0, h) == count_occ(se, 0, f) + (h - f),
    decreases h - f,
{
    if h > f {
        lemma_count_occ_skip(se, f, h - 1);
    }
}

/// Finds the first free slot at or after `f`, given that some free slot remains below `n`.
fn next_hole(slot_entries: &Vec<u16>, f: usize, n: usize) -> (h: usize)
    requires
        f <= n <= slot_entries.len(),
        (f - count_occ(slot_entries@, 0, f as int)) < n - count_occ(slot_entries@, 0, n as int),
    ensures
        f <= h < n,
        slot_entries[h as int] == EMPTY,
        forall|s: int| f <= s < h ==> #[trigger] slot_entries[s] != EMPTY,
{
    let ghost se = slot_entries@;
    let mut h = f;
    while slot_entries[h] != EMPTY
        invariant
            se == slot_entries@,
            f <= h <= n <= slot_entries.len(),
            h < n,
            forall|s: int| f <= s < h ==> #[trigger] se[s] != EMPTY,
            (h - count_occ(se, 0, h as int)) < n - count_occ(se, 0, n as int),
        decreases n - h,
    {
        proof {
            lemma_count_occ_split(se, 0, h as int, h + 1);
            lemma_count_occ_split(se, 0, h + 1, n as int);
            lemma_count_occ_bound(se, h + 1, n as int);
        }
        h = h + 1;
    }
    h
}

/// Compacts the slot table: a slot below `n` is its own entry index, and each occupied overflow slot is
/// remapped to a free slot below `n`. Returns the remap table and the dense entry order.
pub fn compact(slot_entries: &Vec<u16>, n: usize) -> (r: (Vec<u16>, Vec<u16>))
    requires
        n <= slot_entries.len(),
        n <= MAX_LEN,
        forall|s: int| 0 <= s < slot_entries.len() && slot_entries[s] != EMPTY ==> #[trigger] slot_entries[s] < n,
        forall|s1: int, s2: int| 0 <= s1 < slot_entries.len() && 0 <= s2 < slot_entries.len() && s1 != s2 && slot_entries[s1] != EMPTY ==> #[trigger] slot_entries[s1] != #[trigger] slot_entries[s2],
        count_occ(slot_entries@, 0, slot_entries.len() as int) == n,
    ensures
        ({
            let (remap, indices) = r;
            &&& remap.len() == slot_entries.len() - n
            &&& n > 0 ==> forall|o: int| 0 <= o < remap.len() ==> (#[trigger] remap[o]) < n
            &&& indices.len() == n
            &&& forall|p: int| 0 <= p < n ==> (#[trigger] indices[p]) < n
            &&& forall|p1: int, p2: int| 0 <= p1 < n && 0 <= p2 < n && p1 != p2 ==> #[trigger] indices[p1] != #[trigger] indices[p2]
            &&& forall|s: int| 0 <= s < n && slot_entries[s] != EMPTY ==> #[trigger] indices[s] == slot_entries[s]
            &&& forall|o: int| 0 <= o < remap.len() && slot_entries[n + o] != EMPTY ==> indices[#[trigger] remap[o] as int] == slot_entries[n + o]
            &&& forall|o: int| 0 <= o < remap.len() && slot_entries[n + o] == EMPTY ==> #[trigger] remap[o] == 0
            &&& forall|o: int| 0 <= o < remap.len() && slot_entries[n + o] != EMPTY ==> {
                &&& slot_entries[#[trigger] remap[o] as int] == EMPTY
                &&& remap[o] - count_occ(slot_entries@, 0, remap[o] as int) == count_occ(slot_entries@, n as int, n + o)
            }
        }),
{
    let slots = slot_entries.len();
    let ghost se = slot_entries@;
    let overflow_slots: usize = slots - n;
    let mut remap: Vec<u16> = vec![0u16; overflow_slots];
    let mut indices: Vec<u16> = Vec::new();
    let mut i: usize = 0;
    while i < n
        invariant
            se == slot_entries@,
            n <= slots == slot_entries.len(),
            indices.len() == i,
            i <= n,
            forall|p: int| 0 <= p < i ==> #[trigger] indices[p] == se[p],
        decreases n - i,
    {
        indices.push(slot_entries[i]);
        i = i + 1;
    }
    proof {
        lemma_count_occ_split(se, 0, n as int, slots as int);
        lemma_count_occ_bound(se, 0, n as int);
    }
    // `src[h]` is the overflow slot whose entry fills the hole `h`.
    let ghost mut src: Seq<int> = Seq::new(n as nat, |h: int| h);
    let mut f: usize = 0;
    let mut o: usize = 0;
    while o < slots - n
        invariant
            se == slot_entries@,
            n <= slots == slot_entries.len(),
            n <= MAX_LEN,
            forall|s: int| 0 <= s < slots && se[s] != EMPTY ==> #[trigger] se[s] < n,
            count_occ(se, 0, slots as int) == n,
            count_occ(se, 0, n as int) + count_occ(se, n as int, slots as int) == n,
            0 <= o <= slots - n,
            f <= n,
            (f - count_occ(se, 0, f as int)) == count_occ(se, n as int, n + o),
            remap.len() == slots - n,
            indices.len() == n,
            src.len() == n,
            forall|h: int| 0 <= h < n ==> #[trigger] indices[h] == se[src[h]],
            forall|h: int| 0 <= h < n && se[h] != EMPTY ==> #[trigger] src[h] == h,
            forall|h: int| 0 <= h < f && se[h] == EMPTY ==> n <= #[trigger] src[h] < n + o && se[src[h]] != EMPTY,
            forall|h: int| f <= h < n && se[h] == EMPTY ==> #[trigger] src[h] == h,
            forall|q: int| 0 <= q < o && se[n + q] != EMPTY ==> (#[trigger] remap[q]) < f && se[remap[q] as int] == EMPTY && src[remap[q] as int] == n + q,
            n > 0 ==> forall|q: int| 0 <= q < o ==> (#[trigger] remap[q]) < n,
            forall|q: int| o <= q < remap.len() ==> (#[trigger] remap[q]) == 0,
            forall|q: int| 0 <= q < o && se[n + q] == EMPTY ==> (#[trigger] remap[q]) == 0,
            forall|q: int| 0 <= q < o && se[n + q] != EMPTY ==>
                (#[trigger] remap[q]) - count_occ(se, 0, remap[q] as int) == count_occ(se, n as int, n + q),
                        forall|h1: int, h2: int| 0 <= h1 < n && 0 <= h2 < n && h1 != h2 && se[h1] == EMPTY && se[h2] == EMPTY && h1 < f && h2 < f ==> #[trigger] src[h1] != #[trigger] src[h2],
        decreases slots - n - o,
    {
        let overflow = slot_entries[n + o];
        proof {
            lemma_count_occ_split(se, n as int, n + o, n + o + 1);
            lemma_count_occ_split(se, n as int, n + o + 1, slots as int);
        }
        if overflow != EMPTY {
            // A free slot below `n` remains: as many holes as occupied overflow slots.
            let hole = next_hole(slot_entries, f, n);
            proof {
                lemma_count_occ_skip(se, f as int, hole as int);
            }
            f = hole;
            proof {
                lemma_count_occ_split(se, 0, f as int, f + 1);
            }
            remap.set(o, f as u16);
            indices.set(f, overflow);
            proof {
                src = src.update(f as int, n + o);
            }
            f = f + 1;
        }
        o = o + 1;
    }
    proof {
        // Every hole below `n` was filled.
        lemma_count_occ_split(se, 0, f as int, n as int);
        lemma_count_occ_bound(se, f as int, n as int);
        lemma_count_occ_bound(se, 0, f as int);
    }
    (remap, indices)
}

/// Where the pilot strategy puts entry `e`: the slot its bucket's pilot sends its hash to.
pub open spec fn placement(e: int, hashes: Seq<u64>, cls: Seq<nat>, pilots: Seq<u16>, slots: nat) -> int {
    pslot(hashes[e], pilots[cls[e] as int], slots)
}

/// The slot that the pilot table sends the hash of entry `e` to, before any remapping.
pub open spec fn pilot_slot_of(hashes: Seq<u64>, pilots: Seq<u16>, e: int) -> int {
    let b = spec_bucket(hashes[e], (64 - log2(pilots.len())) as u32);
    spec_pilot_slot(hashes[e], pilots[b as int], spec_slot_count(hashes.len())) as int
}

/// Whether every overflow slot that no entry is sent to has the remap value 0.
pub open spec fn remap_filler(hashes: Seq<u64>, pilots: Seq<u16>, remap: Seq<u16>) -> bool {
    forall|o: int| 0 <= o < remap.len() && (forall|e: int| 0 <= e < hashes.len() ==> #[trigger] pilot_slot_of(hashes, pilots, e) != hashes.len() + o)
        ==> #[trigger] remap[o] == 0
}

/// An overflow slot that no entry is sent to holds no entry, so its remap value is the filler 0.
proof fn lemma_unused_overflow(
    taken: Seq<bool>, se: Seq<u16>, pilots: Seq<u16>, done: Seq<bool>, hashes: Seq<u64>, cls: Seq<nat>, slots: nat,
    remap: Seq<u16>, shift: u32, n: nat,
)
    requires
        n == hashes.len(),
        placement_inv(taken, se, pilots, done, hashes, cls, slots),
        cls == bucket_classes(hashes, shift),
        pilots.len() > 0,
        shift == 64 - log2(pilots.len()),
        slots == spec_slot_count(hashes.len()),
        remap.len() == slots - hashes.len(),
        forall|o: int| 0 <= o < remap.len() && se[hashes.len() + o] == EMPTY ==> #[trigger] remap[o] == 0,
    ensures
        remap_filler(hashes, pilots, remap),
{
    reveal(placement_inv);
    assert forall|o: int| 0 <= o < remap.len() && (forall|e: int| 0 <= e < n ==> #[trigger] pilot_slot_of(hashes, pilots, e) != n + o)
        implies #[trigger] remap[o] == 0 by {
        if se[n + o] != EMPTY {
            let e = se[n + o] as int;
            assert(placement(e, hashes, cls, pilots, slots) == n + o);
            assert(pilot_slot_of(hashes, pilots, e) == n + o);
        }
    }
}

/// Whether the pilot table sends some entry to slot `s`.
pub open spec fn slot_used(hashes: Seq<u64>, pilots: Seq<u16>, s: int) -> bool {
    exists|e: int| 0 <= e < hashes.len() && #[trigger] pilot_slot_of(hashes, pilots, e) == s
}

/// The slots under the pilot table, marked as in a slot-to-entry table: 0 where an entry is sent, and
/// `EMPTY` where none is.
pub open spec fn slot_marks(hashes: Seq<u64>, pilots: Seq<u16>) -> Seq<u16> {
    Seq::new(spec_slot_count(hashes.len()), |s: int| if slot_used(hashes, pilots, s) { 0u16 } else { EMPTY })
}

/// Whether each overflow slot that an entry is sent to is remapped to a free slot below `n`, in order: the
/// `k`-th such overflow slot to the `k`-th free slot.
pub open spec fn remap_hole_order(hashes: Seq<u64>, pilots: Seq<u16>, remap: Seq<u16>) -> bool {
    let marks = slot_marks(hashes, pilots);
    let n = hashes.len();
    forall|o: int| 0 <= o < remap.len() && marks[n + o] != EMPTY ==> {
        &&& marks[#[trigger] remap[o] as int] == EMPTY
        &&& remap[o] - count_occ(marks, 0, remap[o] as int) == count_occ(marks, n as int, n + o)
    }
}

/// Two slot tables occupied at the same slots count the same occupied slots.
proof fn lemma_count_occ_same(x: Seq<u16>, y: Seq<u16>, a: int, b: int)
    requires
        forall|s: int| a <= s < b ==> (#[trigger] x[s] != EMPTY) == (y[s] != EMPTY),
    ensures
        count_occ(x, a, b) == count_occ(y, a, b),
    decreases b - a,
{
    if b > a {
        lemma_count_occ_same(x, y, a, b - 1);
    }
}

/// Once every bucket is placed, the slot table is occupied exactly where the pilot table sends an entry, so
/// the remapping that `compact` gives follows the hole order.
proof fn lemma_hole_order(
    taken: Seq<bool>, se: Seq<u16>, pilots: Seq<u16>, done: Seq<bool>, hashes: Seq<u64>, cls: Seq<nat>, slots: nat,
    remap: Seq<u16>, shift: u32, n: nat,
)
    requires
        n == hashes.len(),
        n <= MAX_LEN,
        placement_inv(taken, se, pilots, done, hashes, cls, slots),
        forall|e: int| 0 <= e < n ==> #[trigger] done[cls[e] as int],
        cls == bucket_classes(hashes, shift),
        pilots.len() > 0,
        shift == 64 - log2(pilots.len()),
        slots == spec_slot_count(hashes.len()),
        n <= slots,
        remap.len() == slots - n,
        forall|o: int| 0 <= o < remap.len() && se[n + o] != EMPTY ==> {
            &&& se[#[trigger] remap[o] as int] == EMPTY
            &&& remap[o] - count_occ(se, 0, remap[o] as int) == count_occ(se, n as int, n + o)
        },
        forall|o: int| 0 <= o < remap.len() ==> (#[trigger] remap[o]) < n,
    ensures
        remap_hole_order(hashes, pilots, remap),
{
    reveal(placement_inv);
    let marks = slot_marks(hashes, pilots);
    assert forall|s: int| 0 <= s < slots implies (#[trigger] se[s] != EMPTY) == (marks[s] != EMPTY) by {
        if se[s] != EMPTY {
            let e = se[s] as int;
            assert(placement(e, hashes, cls, pilots, slots) == s);
            assert(pilot_slot_of(hashes, pilots, e) == s);
        }
        if slot_used(hashes, pilots, s) {
            let e = choose|e: int| 0 <= e < hashes.len() && #[trigger] pilot_slot_of(hashes, pilots, e) == s;
            assert(done[cls[e] as int]);
            assert(placement(e, hashes, cls, pilots, slots) == s);
            assert(se[s] == e);
        }
    }
    assert forall|o: int| 0 <= o < remap.len() && marks[n + o] != EMPTY implies {
        &&& marks[#[trigger] remap[o] as int] == EMPTY
        &&& remap[o] - count_occ(marks, 0, remap[o] as int) == count_occ(marks, n as int, n + o)
    } by {
        assert(se[n + o] != EMPTY);
        lemma_count_occ_same(se, marks, 0, remap[o] as int);
        lemma_count_occ_same(se, marks, n as int, n + o);
    }
}

/// The state of the pilot search once the buckets marked in `done` have pilots: the claimed slots are
/// exactly the recorded ones, and each entry of a finished bucket is recorded in its placement slot.
#[verifier::opaque]
pub open spec fn placement_inv(taken: Seq<bool>, se: Seq<u16>, pilots: Seq<u16>, done: Seq<bool>, hashes: Seq<u64>, cls: Seq<nat>, slots: nat) -> bool {
    &&& taken.len() == slots
    &&& se.len() == slots
    &&& forall|s: int| 0 <= s < slots ==> #[trigger] taken[s] == (se[s] != EMPTY)
    &&& forall|s: int| 0 <= s < slots && se[s] != EMPTY ==> {
        &&& (#[trigger] se[s]) < hashes.len()
        &&& done[cls[se[s] as int] as int]
        &&& placement(se[s] as int, hashes, cls, pilots, slots) == s
    }
    &&& forall|e: int| 0 <= e < hashes.len() && done[cls[e] as int] ==> se[#[trigger] placement(e, hashes, cls, pilots, slots)] == e
}

/// The packed slice `be[lo..hi]`, `bh[lo..hi]` lists exactly the entries of bucket `b` and their hashes.
pub open spec fn bucket_slice(be: Seq<u16>, bh: Seq<u64>, hashes: Seq<u64>, cls: Seq<nat>, b: nat, lo: int, hi: int) -> bool {
    &&& 0 <= lo <= hi <= be.len()
    &&& hi <= bh.len()
    &&& forall|q: int| lo <= q < hi ==> {
        &&& (#[trigger] be[q]) < hashes.len()
        &&& cls[be[q] as int] == b
        &&& bh[q] == hashes[be[q] as int]
    }
    &&& forall|e: int| 0 <= e < hashes.len() && cls[e] == b ==> lo <= #[trigger] rank(cls, e) < hi && be[rank(cls, e)] == e
}

/// Giving bucket `b` the pilot `p` and recording its entries keeps the search state consistent.
proof fn lemma_bucket_done(
    taken: Seq<bool>, se: Seq<u16>, pilots: Seq<u16>, done: Seq<bool>, hashes: Seq<u64>, cls: Seq<nat>, slots: nat,
    b: nat, p: u16, be: Seq<u16>, bh: Seq<u64>, lo: int, hi: int, taken2: Seq<bool>, se2: Seq<u16>,
)
    requires
        placement_inv(taken, se, pilots, done, hashes, cls, slots),
        slots > 0,
        hashes.len() <= MAX_LEN,
        cls.len() == hashes.len(),
        classes_below(cls, pilots.len() as nat),
        done.len() == pilots.len(),
        b < pilots.len(),
        !done[b as int],
        bucket_slice(be, bh, hashes, cls, b, lo, hi),
        pilot_fits(taken, bh, p, slots, lo, hi),
        taken2 == with_claims(taken, bh, p, slots, lo, hi),
        placed_run(se2, se, be, bh, p, slots, lo, hi),
    ensures
        placement_inv(taken2, se2, pilots.update(b as int, p), done.update(b as int, true), hashes, cls, slots),
{
    reveal(placement_inv);
    let pilots2 = pilots.update(b as int, p);
    let done2 = done.update(b as int, true);
    let n = hashes.len();
    lemma_claims_at(taken, bh, p, slots, lo, hi, 0);
    // Entries of other buckets keep their placement.
    assert forall|e: int| 0 <= e < n && cls[e] != b implies placement(e, hashes, cls, pilots2, slots) == #[trigger] placement(e, hashes, cls, pilots, slots) by {}
    // Entries of bucket `b` land where the claims went.
    assert forall|q: int| lo <= q < hi implies #[trigger] placement(be[q] as int, hashes, cls, pilots2, slots) == pslot(bh[q], p, slots) by {}
    assert forall|s: int| 0 <= s < slots implies #[trigger] taken2[s] == (se2[s] != EMPTY) by {
        lemma_claims_at(taken, bh, p, slots, lo, hi, s);
        if claimed_slots(bh, p, slots, lo, hi).contains(s) {
            let q = choose|q: int| lo <= q < hi && #[trigger] pslot(bh[q], p, slots) == s;
            assert(se2[pslot(bh[q], p, slots)] == be[q]);
        }
    }
    assert forall|s: int| 0 <= s < slots && se2[s] != EMPTY implies {
        &&& (#[trigger] se2[s]) < n
        &&& done2[cls[se2[s] as int] as int]
        &&& placement(se2[s] as int, hashes, cls, pilots2, slots) == s
    } by {
        lemma_claims_at(taken, bh, p, slots, lo, hi, s);
        if claimed_slots(bh, p, slots, lo, hi).contains(s) {
            let q = choose|q: int| lo <= q < hi && #[trigger] pslot(bh[q], p, slots) == s;
            assert(se2[pslot(bh[q], p, slots)] == be[q]);
            assert(placement(be[q] as int, hashes, cls, pilots2, slots) == pslot(bh[q], p, slots));
        } else {
            assert(se2[s] == se[s]);
            let e = se[s] as int;
            assert(done[cls[e] as int]);
            assert(placement(e, hashes, cls, pilots2, slots) == placement(e, hashes, cls, pilots, slots));
        }
    }
    assert forall|e: int| 0 <= e < n && done2[cls[e] as int] implies se2[#[trigger] placement(e, hashes, cls, pilots2, slots)] == e by {
        if cls[e] == b {
            let q = rank(cls, e);
            assert(be[q] == e);
            assert(placement(be[q] as int, hashes, cls, pilots2, slots) == pslot(bh[q], p, slots));
        } else {
            let s = placement(e, hashes, cls, pilots, slots);
            assert(placement(e, hashes, cls, pilots2, slots) == s);
            assert(se[s] == e);
            lemma_pslot_bound(hashes[e], pilots[cls[e] as int], slots);
            assert(taken[s]);
            lemma_claims_at(taken, bh, p, slots, lo, hi, s);
            if claimed_slots(bh, p, slots, lo, hi).contains(s) {
                let q = choose|q: int| lo <= q < hi && #[trigger] pslot(bh[q], p, slots) == s;
                assert(!taken[pslot(bh[q], p, slots)]);
            }
        }
    }
}

/// An empty bucket is finished as it is.
proof fn lemma_empty_bucket_done(
    taken: Seq<bool>, se: Seq<u16>, pilots: Seq<u16>, done: Seq<bool>, hashes: Seq<u64>, cls: Seq<nat>, slots: nat,
    b: nat, be: Seq<u16>, bh: Seq<u64>, lo: int,
)
    requires
        placement_inv(taken, se, pilots, done, hashes, cls, slots),
        cls.len() == hashes.len(),
        classes_below(cls, pilots.len() as nat),
        done.len() == pilots.len(),
        b < pilots.len(),
        bucket_slice(be, bh, hashes, cls, b, lo, lo),
    ensures
        placement_inv(taken, se, pilots, done.update(b as int, true), hashes, cls, slots),
{
    reveal(placement_inv);
    let done2 = done.update(b as int, true);
    assert forall|e: int| 0 <= e < hashes.len() && done2[cls[e] as int] implies se[#[trigger] placement(e, hashes, cls, pilots, slots)] == e by {
        if cls[e] == b {
            assert(0 <= e < hashes.len() && cls[e] == b);
            let r = rank(cls, e);
            assert(lo <= r < lo);
        } else {
            assert(done[cls[e] as int]);
        }
    }
}

/// Once every bucket is finished, the slot table holds each entry exactly once.
proof fn lemma_all_placed(taken: Seq<bool>, se: Seq<u16>, pilots: Seq<u16>, done: Seq<bool>, hashes: Seq<u64>, cls: Seq<nat>, slots: nat)
    requires
        placement_inv(taken, se, pilots, done, hashes, cls, slots),
        slots > 0,
        hashes.len() <= MAX_LEN,
        forall|e: int| 0 <= e < hashes.len() ==> #[trigger] done[cls[e] as int],
    ensures
        count_occ(se, 0, slots as int) == hashes.len(),
        forall|s: int| 0 <= s < se.len() && se[s] != EMPTY ==> #[trigger] se[s] < hashes.len(),
        se.len() == slots,
        forall|s1: int, s2: int| 0 <= s1 < se.len() && 0 <= s2 < se.len() && s1 != s2 && se[s1] != EMPTY ==> #[trigger] se[s1] != #[trigger] se[s2],
{
    reveal(placement_inv);
    let n = hashes.len() as int;
    let entries = vstd::set_lib::set_int_range(0, n);
    let f = |e: int| placement(e, hashes, cls, pilots, slots);
    vstd::set_lib::lemma_int_range(0, n);
    assert(vstd::relations::injective_on(f, entries)) by {
        assert forall|e1: int, e2: int| entries.contains(e1) && entries.contains(e2) && #[trigger] f(e1) == #[trigger] f(e2) implies e1 == e2 by {
            assert(done[cls[e1] as int]);
            assert(done[cls[e2] as int]);
            assert(se[placement(e1, hashes, cls, pilots, slots)] == e1);
            assert(se[placement(e2, hashes, cls, pilots, slots)] == e2);
        }
    }
    let occupied = occ_set(se, slots as int);
    assert(entries.map(f) =~= occupied) by {
        assert forall|s: int| #[trigger] occupied.contains(s) implies entries.map(f).contains(s) by {
            let e = se[s] as int;
            assert(entries.contains(e) && f(e) == s);
        }
        assert forall|s: int| #[trigger] entries.map(f).contains(s) implies occupied.contains(s) by {
            let e = choose|e: int| entries.contains(e) && f(e) == s;
            assert(done[cls[e] as int]);
            assert(se[placement(e, hashes, cls, pilots, slots)] == e);
            lemma_pslot_bound(hashes[e], pilots[cls[e] as int], slots);
        }
    }
    vstd::set_lib::lemma_map_size(entries, occupied, f);
    lemma_count_occ_set(se, slots as int);
}

/// Whether `indices` lists each of `0..n` exactly once.
pub open spec fn permutation_of(indices: Seq<u16>, n: nat) -> bool {
    &&& indices.len() == n
    &&& forall|p: int| 0 <= p < n ==> (#[trigger] indices[p]) < n
    &&& forall|p1: int, p2: int| 0 <= p1 < n && 0 <= p2 < n && p1 != p2 ==> #[trigger] indices[p1] != #[trigger] indices[p2]
}

/// Whether the tables send the hash of each entry to its final position: position `p` holds the entry
/// `indices[p]` of the caller's order, and `spec_index` maps that entry's hash to `p`.
pub open spec fn perfect(hashes: Seq<u64>, pilots: Seq<u16>, remap: Seq<u16>, indices: Seq<u16>) -> bool {
    let n = hashes.len();
    &&& permutation_of(indices, n)
    &&& forall|p: int| 0 <= p < n ==> #[trigger] spec_index(hashes[indices[p] as int], n, pilots, remap) == p
}

/// Whether the pilot and remap tables have the shape the pilot strategy gives a map of `n` entries.
pub open spec fn pilot_tables(n: nat, pilots: Seq<u16>, remap: Seq<u16>) -> bool {
    &&& pilots.len() == spec_bucket_count(n)
    &&& remap.len() == spec_slot_count(n) - n
    &&& forall|o: int| 0 <= o < remap.len() ==> (#[trigger] remap[o]) < n
}

/// With every entry in its placement slot and the overflow slots remapped, the tables are perfect.
proof fn lemma_perfect(
    se: Seq<u16>, pilots: Seq<u16>, remap: Seq<u16>, indices: Seq<u16>, done: Seq<bool>, hashes: Seq<u64>,
    cls: Seq<nat>, slots: nat, taken: Seq<bool>, shift: u32,
)
    requires
        placement_inv(taken, se, pilots, done, hashes, cls, slots),
        hashes.len() <= MAX_LEN,
        forall|e: int| 0 <= e < hashes.len() ==> #[trigger] done[cls[e] as int],
        slots == spec_slot_count(hashes.len()),
        cls == bucket_classes(hashes, shift),
        pilots.len() > 0,
        shift == 64 - log2(pilots.len()),
        remap.len() == slots - hashes.len(),
        permutation_of(indices, hashes.len()),
        forall|s: int| 0 <= s < hashes.len() && se[s] != EMPTY ==> #[trigger] indices[s] == se[s],
        forall|o: int| 0 <= o < remap.len() && se[hashes.len() + o] != EMPTY ==> indices[#[trigger] remap[o] as int] == se[hashes.len() + o],
        forall|o: int| 0 <= o < remap.len() ==> (#[trigger] remap[o]) < hashes.len(),
    ensures
        perfect(hashes, pilots, remap, indices),
{
    reveal(placement_inv);
    let n = hashes.len();
    assert forall|p: int| 0 <= p < n implies #[trigger] spec_index(hashes[indices[p] as int], n, pilots, remap) == p by {
        let e = indices[p] as int;
        let s = placement(e, hashes, cls, pilots, slots);
        assert(done[cls[e] as int]);
        assert(se[s] == e);
        lemma_pslot_bound(hashes[e], pilots[cls[e] as int], slots);
        if s < n {
            assert(indices[s] == e);
        } else {
            let o = s - n;
            assert(indices[remap[o] as int] == se[n + o]);
        }
    }
}

/// Whether entries `i` and `j` hold the first pair of identical hashes, in the bucket-grouped layout, of the
/// bucket that step `t` of the search over `hashes` takes.
pub open spec fn first_identical_at(hashes: Seq<u64>, t: nat, i: int, j: int) -> bool {
    let starts = search_starts(hashes);
    let cls = search_classes(hashes);
    let b = bucket_at(starts, t as int);
    &&& 0 <= i < hashes.len()
    &&& 0 <= j < hashes.len()
    &&& first_identical_pair(search_hashes(hashes), starts[b] as int, starts[b + 1] as int, rank(cls, i), rank(cls, j))
}

/// Searches for a pilot per bucket under a fixed set of hashes, taking the buckets by descending size and
/// giving each the smallest pilot that fits, as `pilot_search` describes. On success, returns the pilot
/// table, the remap table and the entries' placement order. When a bucket has no fitting pilot, reports two
/// identical hashes of that bucket if it has them, and otherwise that the search is exhausted.
pub fn try_pilots(hashes: &Vec<u64>, n: usize) -> (r: Result<(Vec<u16>, Vec<u16>, Vec<u16>), ConstructError>)
    requires
        hashes.len() == n,
        1 <= n <= MAX_LEN,
    ensures
        r is Ok <==> search_places_all(hashes@),
        match r {
            Ok((pilots, remap, indices)) => pilot_tables(n as nat, pilots@, remap@) && perfect(hashes@, pilots@, remap@, indices@)
                && (forall|b: int| 0 <= b < pilots@.len() ==> #[trigger] pilots@[b] == search_pilot(hashes@, b))
                && remap_filler(hashes@, pilots@, remap@) && remap_hole_order(hashes@, pilots@, remap@),
            Err(ConstructError::Identical(i, j)) => i < j < n && hashes[i as int] == hashes[j as int]
                && exists|t: nat| search_stuck_at(hashes@, t) && #[trigger] step_has_identical(hashes@, t)
                    && first_identical_at(hashes@, t, i as int, j as int),
            Err(ConstructError::Exhausted) => exists|t: nat| search_stuck_at(hashes@, t) && !#[trigger] step_has_identical(hashes@, t),
        },
{
    let slots = slot_count(n);
    let num_buckets = bucket_count(n);
    let ghost k = choose|k: nat| is_table_len(num_buckets as nat, k);
    let shift = bucket_shift(num_buckets, Ghost(k));
    let (starts, be, bh) = bucket_keys(hashes, num_buckets, shift);
    let ghost cls = bucket_classes(hashes@, shift);
    proof {
        assert forall|i: int| 0 <= i < cls.len() implies #[trigger] cls[i] < num_buckets as nat by {
            lemma_bucket_bound(hashes[i], shift);
        }
        assert forall|b: int| 0 <= b < starts.len() - 1 implies #[trigger] starts[b] <= starts[b + 1] by {
            lemma_count_lt_mono(cls, b as nat, (b + 1) as nat, n as int);
        }
        vstd::arithmetic::power2::lemma2_to64();
        if k < 15 {
            vstd::arithmetic::power2::lemma_pow2_strictly_increases(k, 15);
        }
    }
    // Process the largest buckets first while the table is mostly empty.
    let order = order_buckets_by_size(&starts);
    proof {
        lemma_order_bucket_at(starts@, order@);
        lemma_grouped(hashes@, cls, be@, bh@);
        lemma_log2_pow2(k);
        assert(starts@ =~= bucket_starts(cls, num_buckets as nat));
        assert(cls == search_classes(hashes@));
        reveal(search_layout);
        assert(search_layout(hashes@, bh@, starts@, order@));
    }
    let mut taken = SlotBitmap::new(slots);
    let mut slot_entries: Vec<u16> = vec![EMPTY; slots];
    let mut pilots: Vec<u16> = vec![0u16; num_buckets];
    let ghost mut done: Seq<bool> = Seq::new(num_buckets as nat, |b: int| false);
    proof {
        assert(taken@ =~= Seq::new(slots as nat, |s: int| false));
        assert forall|s: int| 0 <= s < slots implies #[trigger] taken@[s] == (slot_entries@[s] != EMPTY) by {}
        reveal(placement_inv);
        lemma_greedy_start(bh@, starts@, slots as nat);
    }
    for t in 0..num_buckets
        invariant
            n == hashes.len(),
            1 <= n <= MAX_LEN,
            slots == spec_slot_count(n as nat),
            n <= slots <= 66191,
            num_buckets == spec_bucket_count(n as nat),
            is_table_len(num_buckets as nat, k),
            shift == 64 - k,
            cls == bucket_classes(hashes@, shift),
            classes_below(cls, num_buckets as nat),
            starts.len() == num_buckets + 1,
            forall|b: int| 0 <= b <= num_buckets ==> #[trigger] starts[b] == count_lt(cls, b as nat, n as int),
            be.len() == n,
            bh.len() == n,
            forall|p: int| 0 <= p < n ==> {
                &&& (#[trigger] be[p]) < n
                &&& rank(cls, be[p] as int) == p
                &&& bh[p] == hashes[be[p] as int]
            },
            forall|i: int| 0 <= i < n ==> be[#[trigger] rank(cls, i)] == i,
            order.len() == num_buckets,
            forall|p: int| 0 <= p < order.len() ==> (#[trigger] order[p]) < order.len(),
            forall|p: int, q: int| 0 <= p < q < order.len() ==> bucket_precedes(starts@, #[trigger] order[p] as int, #[trigger] order[q] as int),
            taken.inv(),
            taken@.len() == slots,
            slot_entries.len() == slots,
            pilots.len() == num_buckets,
            done.len() == num_buckets,
            placement_inv(taken@, slot_entries@, pilots@, done, hashes@, cls, slots as nat),
            forall|q: int| 0 <= q < t ==> #[trigger] done[order[q] as int],
            forall|q: int| t <= q < num_buckets ==> !#[trigger] done[order[q] as int],
            search_layout(hashes@, bh@, starts@, order@),
            greedy_taken(bh@, starts@, slots as nat, t as nat) == Some(taken@),
            forall|q: int| 0 <= q < t ==> pilots@[#[trigger] order[q] as int] == greedy_pilot(bh@, starts@, slots as nat, q as nat),
            forall|q: int| t <= q < num_buckets ==> pilots@[#[trigger] order[q] as int] == 0,
    {
        let b = order[t] as usize;
        let lo = starts[b] as usize;
        let hi = starts[b + 1] as usize;
        proof {
            lemma_count_lt_mono(cls, b as nat, (b + 1) as nat, n as int);
            lemma_count_lt_mono(cls, (b + 1) as nat, num_buckets as nat, n as int);
            vstd::arithmetic::power2::lemma_pow2_pos(k);
            crate::counting::lemma_count_lt_all(cls, num_buckets as nat, n as int);
            assert(!done[b as int]);
            assert forall|q: int| lo <= q < hi implies {
                &&& (#[trigger] be[q]) < n
                &&& cls[be[q] as int] == b
                &&& bh[q] == hashes[be[q] as int]
            } by {
                lemma_rank_in_block(cls, num_buckets as nat, be[q] as int, b as nat);
            }
            assert forall|e: int| 0 <= e < n && cls[e] == b implies lo <= #[trigger] rank(cls, e) < hi && be[rank(cls, e)] == e by {
                lemma_rank_bounds(cls, num_buckets as nat, e);
            }
            assert(bucket_slice(be@, bh@, hashes@, cls, b as nat, lo as int, hi as int));
            lemma_layout_bucket(hashes@, bh@, starts@, order@, t as int);
        }
        if lo < hi {
            let ghost taken_before = taken@;
            let ghost se_before = slot_entries@;
            match try_bucket(&mut taken, &bh, lo, hi, slots) {
                Some(p) => {
                    proof {
                        reveal(slots_distinct);
                        lemma_greedy_place(bh@, starts@, slots as nat, t as nat, taken_before, lo as int, hi as int, p);
                    }
                    place_bucket(&mut slot_entries, &be, &bh, lo, hi, p, slots);
                    proof {
                        lemma_bucket_done(taken_before, se_before, pilots@, done, hashes@, cls, slots as nat,
                            b as nat, p, be@, bh@, lo as int, hi as int, taken@, slot_entries@);
                    }
                    let ghost pilots_before = pilots@;
                    pilots.set(b, p);
                    proof {
                        assert forall|q: int| 0 <= q < num_buckets && q != t implies #[trigger] order[q] != b by {
                            if q < t {
                                assert(bucket_precedes(starts@, order[q] as int, order[t as int] as int));
                            } else {
                                assert(bucket_precedes(starts@, order[t as int] as int, order[q] as int));
                            }
                        }
                        assert(greedy_pilot(bh@, starts@, slots as nat, t as nat) == p);
                        assert forall|q: int| 0 <= q < t + 1 implies pilots@[#[trigger] order[q] as int] == greedy_pilot(bh@, starts@, slots as nat, q as nat) by {
                            if q < t {
                                assert(order[q] != b);
                            }
                        }
                        assert forall|q: int| t + 1 <= q < num_buckets implies pilots@[#[trigger] order[q] as int] == 0 by {
                            assert(order[q] != b);
                        }
                    }
                },
                None => {
                    proof {
                        lemma_search_stuck(hashes@, bh@, starts@, order@, t as nat, taken_before, lo as int, hi as int);
                    }
                    return match find_identical(&be, &bh, lo, hi) {
                        Some((i, j)) => {
                            proof {
                                let (q1, q2) = choose|q1: int, q2: int| first_identical_pair(bh@, lo as int, hi as int, q1, q2) && be[q1] == i && be[q2] == j;
                                assert(rank(cls, be[q1] as int) == q1);
                                assert(rank(cls, be[q2] as int) == q2);
                                if be[q2] < be[q1] {
                                    lemma_rank_order(cls, be[q2] as int, be[q1] as int);
                                }
                                assert(be[q1] != be[q2]) by {
                                    if be[q1] == be[q2] {
                                        assert(rank(cls, be[q1] as int) == rank(cls, be[q2] as int));
                                    }
                                }
                                assert(step_has_identical(hashes@, t as nat));
                                reveal(search_layout);
                                assert(bh@ == search_hashes(hashes@));
                                assert(starts@ == search_starts(hashes@));
                                assert(bucket_at(starts@, t as int) == b);
                                lemma_log2_pow2(k);
                                assert(cls == search_classes(hashes@));
                                assert(first_identical_at(hashes@, t as nat, i as int, j as int));
                            }
                            Err(ConstructError::Identical(i, j))
                        },
                        None => {
                            proof {
                                assert(!step_has_identical(hashes@, t as nat));
                            }
                            Err(ConstructError::Exhausted)
                        },
                    };
                },
            }
        } else {
            proof {
                lemma_empty_bucket_done(taken@, slot_entries@, pilots@, done, hashes@, cls, slots as nat, b as nat, be@, bh@, lo as int);
                lemma_greedy_skip(bh@, starts@, slots as nat, t as nat, taken@, lo as int, hi as int);
                assert(greedy_pilot(bh@, starts@, slots as nat, t as nat) == 0);
            }
        }
        proof {
            done = done.update(b as int, true);
        }
    }
    proof {
        assert forall|e: int| 0 <= e < n implies #[trigger] done[cls[e] as int] by {
            let b = cls[e] as u16;
            assert(order@.contains(b));
            let q = choose|q: int| 0 <= q < order.len() && order@[q] == b;
            assert(done[order[q] as int]);
        }
    }
    proof {
        lemma_all_placed(taken@, slot_entries@, pilots@, done, hashes@, cls, slots as nat);
        lemma_search_layout_state(hashes@, bh@, starts@, order@);
        assert(search_state(hashes@, num_buckets as nat) is Some);
        assert forall|b: int| 0 <= b < pilots@.len() implies #[trigger] pilots@[b] == search_pilot(hashes@, b) by {
            assert(order@.contains(b as u16));
            let q = choose|q: int| 0 <= q < order.len() && order@[q] == b as u16;
            lemma_layout_pilot(hashes@, bh@, starts@, order@, q);
        }
    }
    let (remap, indices) = compact(&slot_entries, n);
    proof {
        lemma_log2_pow2(k);
        lemma_perfect(slot_entries@, pilots@, remap@, indices@, done, hashes@, cls, slots as nat, taken@, shift);
        lemma_unused_overflow(taken@, slot_entries@, pilots@, done, hashes@, cls, slots as nat, remap@, shift, n as nat);
        lemma_hole_order(taken@, slot_entries@, pilots@, done, hashes@, cls, slots as nat, remap@, shift, n as nat);
    }
    Ok((pilots, remap, indices))
}

} // verus!

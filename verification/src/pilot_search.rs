//! The pilot search as a mathematical process: the buckets are taken in order of descending size (ties by
//! ascending index), and each gets the smallest pilot that sends its keys to distinct free slots.

use crate::counting::{count_lt, lemma_rank_injective, rank};
use crate::kernel::{log2, spec_bucket_count, spec_slot_count};
use crate::pilots::{bucket_classes, bucket_precedes, pilot_fits, with_claims};
use vstd::prelude::*;

verus! {

/// The entry at position `p` of the bucket-grouped layout: the entry of rank `p`.
pub open spec fn unrank(cls: Seq<nat>, p: int) -> int {
    choose|e: int| 0 <= e < cls.len() && rank(cls, e) == p
}

/// The hashes grouped by bucket, each bucket's entries in increasing order.
pub open spec fn grouped_hashes(hashes: Seq<u64>, cls: Seq<nat>) -> Seq<u64> {
    Seq::new(hashes.len(), |p: int| hashes[unrank(cls, p)])
}

/// The starting offsets of the buckets `0..=num_buckets` in the grouped layout.
pub open spec fn bucket_starts(cls: Seq<nat>, num_buckets: nat) -> Seq<u16> {
    Seq::new(num_buckets + 1, |b: int| count_lt(cls, b as nat, cls.len() as int) as u16)
}

/// The buckets of `starts` that are processed before bucket `b`.
pub open spec fn buckets_before(starts: Seq<u16>, b: int) -> Set<int> {
    Set::new(|c: int| 0 <= c < starts.len() - 1 && bucket_precedes(starts, c, b))
}

/// The bucket processed at step `t`: the one with `t` buckets before it.
pub open spec fn bucket_at(starts: Seq<u16>, t: int) -> int {
    choose|b: int| 0 <= b < starts.len() - 1 && buckets_before(starts, b).len() == t
}

/// The smallest pilot that sends the hashes `gh[lo..hi]` to distinct slots that are free in `taken`.
pub open spec fn smallest_fit(taken: Seq<bool>, gh: Seq<u64>, slots: nat, lo: int, hi: int) -> u16 {
    choose|p: u16|
        pilot_fits(taken, gh, p, slots, lo, hi) && forall|p2: u16| p2 < p ==> !pilot_fits(taken, gh, p2, slots, lo, hi)
}

/// Whether some pilot sends the hashes `gh[lo..hi]` to distinct slots that are free in `taken`.
pub open spec fn some_pilot_fits(taken: Seq<bool>, gh: Seq<u64>, slots: nat, lo: int, hi: int) -> bool {
    exists|p: u16| #[trigger] pilot_fits(taken, gh, p, slots, lo, hi)
}

/// The slots taken after the first `t` steps of the search over the grouped hashes `gh` with bucket
/// offsets `starts`, or `None` if one of those steps found no fitting pilot for its bucket.
#[verifier::opaque]
pub open spec fn greedy_taken(gh: Seq<u64>, starts: Seq<u16>, slots: nat, t: nat) -> Option<Seq<bool>>
    decreases t,
{
    if t == 0 {
        Some(Seq::new(slots, |s: int| false))
    } else {
        match greedy_taken(gh, starts, slots, (t - 1) as nat) {
            None => None,
            Some(taken) => {
                let b = bucket_at(starts, t - 1);
                let lo = starts[b] as int;
                let hi = starts[b + 1] as int;
                if lo >= hi {
                    Some(taken)
                } else if some_pilot_fits(taken, gh, slots, lo, hi) {
                    Some(with_claims(taken, gh, smallest_fit(taken, gh, slots, lo, hi), slots, lo, hi))
                } else {
                    None
                }
            },
        }
    }
}

/// The pilot that step `t` of the search gives its bucket: 0 for an empty bucket, and otherwise the
/// smallest pilot that fits it.
pub open spec fn greedy_pilot(gh: Seq<u64>, starts: Seq<u16>, slots: nat, t: nat) -> u16 {
    let b = bucket_at(starts, t as int);
    let lo = starts[b] as int;
    let hi = starts[b + 1] as int;
    if lo >= hi {
        0
    } else {
        smallest_fit(greedy_taken(gh, starts, slots, t).unwrap(), gh, slots, lo, hi)
    }
}

/// The bucket of each hash in the search over `hashes`.
pub open spec fn search_classes(hashes: Seq<u64>) -> Seq<nat> {
    bucket_classes(hashes, (64 - log2(spec_bucket_count(hashes.len()))) as u32)
}

/// The bucket offsets of the search over `hashes`.
pub open spec fn search_starts(hashes: Seq<u64>) -> Seq<u16> {
    bucket_starts(search_classes(hashes), spec_bucket_count(hashes.len()))
}

/// The grouped hashes of the search over `hashes`.
pub open spec fn search_hashes(hashes: Seq<u64>) -> Seq<u64> {
    grouped_hashes(hashes, search_classes(hashes))
}

/// The slots taken after `t` steps of the search over `hashes`, or `None` if it got stuck before.
pub open spec fn search_state(hashes: Seq<u64>, t: nat) -> Option<Seq<bool>> {
    greedy_taken(search_hashes(hashes), search_starts(hashes), spec_slot_count(hashes.len()), t)
}

/// The step at which the search over `hashes` takes bucket `b`.
pub open spec fn search_step(hashes: Seq<u64>, b: int) -> nat {
    buckets_before(search_starts(hashes), b).len()
}

/// The pilot that the search over `hashes` gives bucket `b`.
pub open spec fn search_pilot(hashes: Seq<u64>, b: int) -> u16 {
    greedy_pilot(search_hashes(hashes), search_starts(hashes), spec_slot_count(hashes.len()), search_step(hashes, b))
}

/// Whether the search over `hashes` places every bucket.
pub open spec fn search_places_all(hashes: Seq<u64>) -> bool {
    search_state(hashes, spec_bucket_count(hashes.len())) is Some
}

/// Whether the search over `hashes` gets stuck at step `t`: the buckets before were placed, but no pilot
/// fits the bucket of step `t`.
pub open spec fn search_stuck_at(hashes: Seq<u64>, t: nat) -> bool {
    &&& t < spec_bucket_count(hashes.len())
    &&& search_state(hashes, t) is Some
    &&& search_state(hashes, t + 1) is None
}

/// Whether the bucket of step `t` in the search over `hashes` holds two identical hashes.
pub open spec fn step_has_identical(hashes: Seq<u64>, t: nat) -> bool {
    let starts = search_starts(hashes);
    let gh = search_hashes(hashes);
    let b = bucket_at(starts, t as int);
    exists|q1: int, q2: int| starts[b] <= q1 < q2 < starts[b + 1] && #[trigger] gh[q1] == #[trigger] gh[q2]
}

/// Once the search is stuck, it stays stuck.
pub proof fn lemma_greedy_stuck(gh: Seq<u64>, starts: Seq<u16>, slots: nat, t: nat, u: nat)
    requires
        t <= u,
        greedy_taken(gh, starts, slots, t) is None,
    ensures
        greedy_taken(gh, starts, slots, u) is None,
    decreases u - t,
{
    if t < u {
        lemma_greedy_stuck(gh, starts, slots, t, (u - 1) as nat);
        reveal(greedy_taken);
    }
}

/// Before any step, no slot is taken.
pub proof fn lemma_greedy_start(gh: Seq<u64>, starts: Seq<u16>, slots: nat)
    ensures
        greedy_taken(gh, starts, slots, 0) == Some(Seq::new(slots, |s: int| false)),
{
    reveal(greedy_taken);
}

/// An ordering of the buckets by descending size, ties by ascending index, takes the buckets in the order
/// that `bucket_at` describes.
pub proof fn lemma_order_bucket_at(starts: Seq<u16>, order: Seq<u16>)
    requires
        order.len() == starts.len() - 1,
        order.len() <= 65535,
        forall|p: int| 0 <= p < order.len() ==> (#[trigger] order[p]) < order.len(),
        forall|p: int, q: int| 0 <= p < q < order.len() ==>
            bucket_precedes(starts, #[trigger] order[p] as int, #[trigger] order[q] as int),
        forall|b: u16| (b as int) < order.len() ==> #[trigger] order.contains(b),
    ensures
        forall|t: int| 0 <= t < order.len() ==> #[trigger] bucket_at(starts, t) == order[t] as int,
        forall|t: int| 0 <= t < order.len() ==> buckets_before(starts, #[trigger] order[t] as int).len() == t,
{
    let nb = order.len();
    assert forall|p: int, q: int| 0 <= p < nb && 0 <= q < nb && p != q implies #[trigger] order[p] != #[trigger] order[q] by {
        if p < q {
            assert(bucket_precedes(starts, order[p] as int, order[q] as int));
        } else {
            assert(bucket_precedes(starts, order[q] as int, order[p] as int));
        }
    }
    assert forall|t: int| 0 <= t < nb implies buckets_before(starts, #[trigger] order[t] as int).len() == t by {
        let f = |p: int| order[p] as int;
        let dom = vstd::set_lib::set_int_range(0, t);
        vstd::set_lib::lemma_int_range(0, t);
        assert(vstd::relations::injective_on(f, dom));
        assert(dom.map(f) =~= buckets_before(starts, order[t] as int)) by {
            assert forall|c: int| buckets_before(starts, order[t] as int).contains(c) implies dom.map(f).contains(c) by {
                assert(order.contains(c as u16));
                let p = choose|p: int| 0 <= p < nb && order[p] == c as u16;
                if p > t {
                    assert(bucket_precedes(starts, order[t] as int, order[p] as int));
                }
                assert(dom.contains(p) && f(p) == c);
            }
        }
        vstd::set_lib::lemma_map_size(dom, buckets_before(starts, order[t] as int), f);
    }
    assert forall|t: int| 0 <= t < nb implies #[trigger] bucket_at(starts, t) == order[t] as int by {
        assert(buckets_before(starts, order[t] as int).len() == t);
        assert(0 <= order[t] as int && (order[t] as int) < starts.len() - 1);
        let b = bucket_at(starts, t);
        assert(0 <= b < nb);
        assert(order.contains(b as u16));
        let p = choose|p: int| 0 <= p < nb && order[p] == b as u16;
        assert(buckets_before(starts, order[p] as int).len() == p);
    }
}

/// The grouped layout of `bucket_keys` is the grouped hashes.
pub proof fn lemma_grouped(hashes: Seq<u64>, cls: Seq<nat>, be: Seq<u16>, bh: Seq<u64>)
    requires
        cls.len() == hashes.len(),
        be.len() == hashes.len(),
        bh.len() == hashes.len(),
        forall|p: int| 0 <= p < hashes.len() ==> {
            &&& (#[trigger] be[p]) < hashes.len()
            &&& rank(cls, be[p] as int) == p
            &&& bh[p] == hashes[be[p] as int]
        },
    ensures
        bh == grouped_hashes(hashes, cls),
{
    assert forall|p: int| 0 <= p < hashes.len() implies bh[p] == #[trigger] grouped_hashes(hashes, cls)[p] by {
        let e = unrank(cls, p);
        assert(rank(cls, be[p] as int) == p);
        if e != be[p] as int {
            lemma_rank_injective(cls, e, be[p] as int);
        }
    }
    assert(bh =~= grouped_hashes(hashes, cls));
}

/// A step whose bucket is empty leaves the taken slots as they are.
pub proof fn lemma_greedy_skip(gh: Seq<u64>, starts: Seq<u16>, slots: nat, t: nat, taken: Seq<bool>, lo: int, hi: int)
    requires
        greedy_taken(gh, starts, slots, t) == Some(taken),
        lo == starts[bucket_at(starts, t as int)],
        hi == starts[bucket_at(starts, t as int) + 1],
        lo >= hi,
    ensures
        greedy_taken(gh, starts, slots, t + 1) == Some(taken),
{
    reveal(greedy_taken);
}

/// A step whose bucket gets pilot `p`, the smallest that fits, claims the slots that `p` sends it to.
pub proof fn lemma_greedy_place(gh: Seq<u64>, starts: Seq<u16>, slots: nat, t: nat, taken: Seq<bool>, lo: int, hi: int, p: u16)
    requires
        greedy_taken(gh, starts, slots, t) == Some(taken),
        lo == starts[bucket_at(starts, t as int)],
        hi == starts[bucket_at(starts, t as int) + 1],
        lo < hi,
        pilot_fits(taken, gh, p, slots, lo, hi),
        forall|p2: u16| p2 < p ==> !#[trigger] pilot_fits(taken, gh, p2, slots, lo, hi),
    ensures
        greedy_taken(gh, starts, slots, t + 1) == Some(with_claims(taken, gh, p, slots, lo, hi)),
        smallest_fit(taken, gh, slots, lo, hi) == p,
{
    let m = smallest_fit(taken, gh, slots, lo, hi);
    assert(pilot_fits(taken, gh, m, slots, lo, hi) && forall|p2: u16| p2 < m ==> !pilot_fits(taken, gh, p2, slots, lo, hi));
    if m < p {
        assert(!pilot_fits(taken, gh, m, slots, lo, hi));
    }
    if p < m {
        assert(!pilot_fits(taken, gh, p, slots, lo, hi));
    }
    assert(m == p);
    assert(some_pilot_fits(taken, gh, slots, lo, hi));
    reveal(greedy_taken);
}

/// A step whose bucket has no fitting pilot gets the search stuck.
pub proof fn lemma_greedy_stuck_step(gh: Seq<u64>, starts: Seq<u16>, slots: nat, t: nat, taken: Seq<bool>, lo: int, hi: int)
    requires
        greedy_taken(gh, starts, slots, t) == Some(taken),
        lo == starts[bucket_at(starts, t as int)],
        hi == starts[bucket_at(starts, t as int) + 1],
        lo < hi,
        forall|p: u16| !#[trigger] pilot_fits(taken, gh, p, slots, lo, hi),
    ensures
        greedy_taken(gh, starts, slots, t + 1) is None,
{
    assert(!some_pilot_fits(taken, gh, slots, lo, hi));
    reveal(greedy_taken);
}
/// Whether `gh`, `starts` and `order` are the grouped hashes, bucket offsets and processing order of the
/// search over `hashes`.
#[verifier::opaque]
pub open spec fn search_layout(hashes: Seq<u64>, gh: Seq<u64>, starts: Seq<u16>, order: Seq<u16>) -> bool {
    &&& gh == search_hashes(hashes)
    &&& starts == search_starts(hashes)
    &&& forall|q: int| 0 <= q < order.len() ==> #[trigger] bucket_at(starts, q) == order[q] as int
    &&& forall|q: int| 0 <= q < order.len() ==> buckets_before(starts, #[trigger] order[q] as int).len() == q
}

/// Under its layout, the search takes the bucket `order[t]` at step `t`, its state is the greedy state over
/// the layout, and the bucket of step `t` holds identical hashes when its slice of `gh` does.
pub proof fn lemma_search_layout(hashes: Seq<u64>, gh: Seq<u64>, starts: Seq<u16>, order: Seq<u16>, t: int)
    requires
        search_layout(hashes, gh, starts, order),
        0 <= t < order.len(),
    ensures
        bucket_at(starts, t) == order[t] as int,
        forall|u: nat| #[trigger] search_state(hashes, u) == greedy_taken(gh, starts, spec_slot_count(hashes.len()), u),
        step_has_identical(hashes, t as nat) <==> exists|q1: int, q2: int|
            starts[order[t] as int] <= q1 < q2 < starts[order[t] + 1] && #[trigger] gh[q1] == #[trigger] gh[q2],
{
    reveal(search_layout);
}

/// Under its layout, the state of the search is the greedy state over the layout.
pub proof fn lemma_search_layout_state(hashes: Seq<u64>, gh: Seq<u64>, starts: Seq<u16>, order: Seq<u16>)
    requires
        search_layout(hashes, gh, starts, order),
    ensures
        forall|u: nat| #[trigger] search_state(hashes, u) == greedy_taken(gh, starts, spec_slot_count(hashes.len()), u),
{
    reveal(search_layout);
}

/// Under its layout, the search takes the bucket `order[t]` at step `t`.
pub proof fn lemma_layout_bucket(hashes: Seq<u64>, gh: Seq<u64>, starts: Seq<u16>, order: Seq<u16>, t: int)
    requires
        search_layout(hashes, gh, starts, order),
        0 <= t < order.len(),
    ensures
        bucket_at(starts, t) == order[t] as int,
{
    reveal(search_layout);
}

/// Under its layout, a step whose bucket has no fitting pilot is where the search gets stuck.
pub proof fn lemma_search_stuck(
    hashes: Seq<u64>, gh: Seq<u64>, starts: Seq<u16>, order: Seq<u16>, t: nat, taken: Seq<bool>, lo: int, hi: int,
)
    requires
        search_layout(hashes, gh, starts, order),
        t < order.len(),
        order.len() == spec_bucket_count(hashes.len()),
        greedy_taken(gh, starts, spec_slot_count(hashes.len()), t) == Some(taken),
        lo == starts[order[t as int] as int],
        hi == starts[order[t as int] + 1],
        lo < hi,
        forall|p: u16| !#[trigger] pilot_fits(taken, gh, p, spec_slot_count(hashes.len()), lo, hi),
    ensures
        search_stuck_at(hashes, t),
        !search_places_all(hashes),
        step_has_identical(hashes, t) <==> exists|q1: int, q2: int| lo <= q1 < q2 < hi && #[trigger] gh[q1] == #[trigger] gh[q2],
{
    let slots = spec_slot_count(hashes.len());
    let nb = spec_bucket_count(hashes.len());
    lemma_search_layout(hashes, gh, starts, order, t as int);
    lemma_greedy_stuck_step(gh, starts, slots, t, taken, lo, hi);
    lemma_greedy_stuck(gh, starts, slots, t + 1, nb);
    assert(search_state(hashes, t) == greedy_taken(gh, starts, slots, t));
    assert(search_state(hashes, t + 1) == greedy_taken(gh, starts, slots, t + 1));
    assert(search_state(hashes, nb) == greedy_taken(gh, starts, slots, nb));
}

/// Under its layout, the pilot that the search gives bucket `order[q]` is the one that step `q` gives.
pub proof fn lemma_layout_pilot(hashes: Seq<u64>, gh: Seq<u64>, starts: Seq<u16>, order: Seq<u16>, q: int)
    requires
        search_layout(hashes, gh, starts, order),
        0 <= q < order.len(),
    ensures
        search_pilot(hashes, order[q] as int) == greedy_pilot(gh, starts, spec_slot_count(hashes.len()), q as nat),
{
    reveal(search_layout);
}

} // verus!

//! Counting facts behind the stable counting sorts used during construction.
//!
//! Items `0..cls.len()` each belong to a class `cls[i]`. A stable counting sort places item `i` at
//! its rank: the number of items of a smaller class, plus the number of earlier items of its class.

use vstd::prelude::*;

verus! {

/// The number of items before `i` whose class is `c`.
pub closed spec fn count_eq(cls: Seq<nat>, c: nat, i: int) -> nat
    decreases i,
{
    if i <= 0 {
        0
    } else {
        count_eq(cls, c, i - 1) + if cls[i - 1] == c { 1nat } else { 0nat }
    }
}

/// The number of items before `i` whose class is below `c`.
pub closed spec fn count_lt(cls: Seq<nat>, c: nat, i: int) -> nat
    decreases i,
{
    if i <= 0 {
        0
    } else {
        count_lt(cls, c, i - 1) + if cls[i - 1] < c { 1nat } else { 0nat }
    }
}

/// Where a stable counting sort by class places item `i`.
pub closed spec fn rank(cls: Seq<nat>, i: int) -> int {
    (count_lt(cls, cls[i], cls.len() as int) + count_eq(cls, cls[i], i)) as int
}

/// Counting one more item.
pub proof fn lemma_count_next(cls: Seq<nat>, c: nat, i: int)
    requires
        0 <= i,
    ensures
        count_eq(cls, c, i + 1) == count_eq(cls, c, i) + if cls[i] == c { 1nat } else { 0nat },
        count_lt(cls, c, i + 1) == count_lt(cls, c, i) + if cls[i] < c { 1nat } else { 0nat },
{
}

/// Counting no items.
pub proof fn lemma_count_empty(cls: Seq<nat>, c: nat)
    ensures
        count_eq(cls, c, 0) == 0,
        count_lt(cls, c, 0) == 0,
{
}

/// The rank of an item: items of smaller classes, then earlier items of the same class.
pub proof fn lemma_rank_def(cls: Seq<nat>, i: int)
    ensures
        rank(cls, i) == count_lt(cls, cls[i], cls.len() as int) + count_eq(cls, cls[i], i),
{
}

/// Whether every class is below `m`.
pub open spec fn classes_below(cls: Seq<nat>, m: nat) -> bool {
    forall|i: int| 0 <= i < cls.len() ==> #[trigger] cls[i] < m
}

/// Counting items of classes below `c + 1` adds those of class `c`.
pub proof fn lemma_count_lt_step(cls: Seq<nat>, c: nat, i: int)
    ensures
        count_lt(cls, c + 1, i) == count_lt(cls, c, i) + count_eq(cls, c, i),
    decreases i,
{
    if i > 0 {
        lemma_count_lt_step(cls, c, i - 1);
    }
}

/// Counts never exceed the number of items considered, and grow with it.
pub proof fn lemma_count_bounds(cls: Seq<nat>, c: nat, i: int, j: int)
    requires
        0 <= i <= j,
    ensures
        count_eq(cls, c, i) <= count_eq(cls, c, j),
        count_lt(cls, c, i) <= count_lt(cls, c, j),
        count_eq(cls, c, j) - count_eq(cls, c, i) <= j - i,
        count_lt(cls, c, j) - count_lt(cls, c, i) <= j - i,
    decreases j - i,
{
    if i < j {
        lemma_count_bounds(cls, c, i, j - 1);
    }
}

/// `count_lt` grows with the class bound.
pub proof fn lemma_count_lt_mono(cls: Seq<nat>, c: nat, d: nat, i: int)
    requires
        c <= d,
    ensures
        count_lt(cls, c, i) <= count_lt(cls, d, i),
    decreases i,
{
    if i > 0 {
        lemma_count_lt_mono(cls, c, d, i - 1);
    }
}

/// When every class is below `m`, all items have a class below `m`.
pub proof fn lemma_count_lt_all(cls: Seq<nat>, m: nat, i: int)
    requires
        classes_below(cls, m),
        0 <= i <= cls.len(),
    ensures
        count_lt(cls, m, i) == i,
    decreases i,
{
    if i > 0 {
        lemma_count_lt_all(cls, m, i - 1);
    }
}

/// Nothing has a class below zero.
pub proof fn lemma_count_lt_zero(cls: Seq<nat>, i: int)
    ensures
        count_lt(cls, 0, i) == 0,
    decreases i,
{
    if i > 0 {
        lemma_count_lt_zero(cls, i - 1);
    }
}

/// Every value below the final count of a class is the count just before some item of that class.
pub proof fn lemma_count_eq_hit(cls: Seq<nat>, c: nat, i: int, k: nat) -> (j: int)
    requires
        k < count_eq(cls, c, i),
    ensures
        0 <= j < i,
        cls[j] == c,
        count_eq(cls, c, j) == k,
    decreases i,
{
    if count_eq(cls, c, i - 1) > k {
        lemma_count_eq_hit(cls, c, i - 1, k)
    } else {
        i - 1
    }
}

/// Items of one class are ranked in their order, and a smaller class ranks first.
pub proof fn lemma_rank_order(cls: Seq<nat>, i: int, j: int)
    requires
        0 <= i < cls.len(),
        0 <= j < cls.len(),
        cls[i] < cls[j] || (cls[i] == cls[j] && i < j),
    ensures
        rank(cls, i) < rank(cls, j),
{
    let n = cls.len() as int;
    if cls[i] < cls[j] {
        lemma_count_lt_step(cls, cls[i], n);
        lemma_count_lt_mono(cls, cls[i] + 1, cls[j], n);
        lemma_count_bounds(cls, cls[i], i, n);
        assert(count_eq(cls, cls[i], i) < count_eq(cls, cls[i], n)) by {
            lemma_count_bounds(cls, cls[i], i + 1, n);
        }
    } else {
        lemma_count_bounds(cls, cls[i], i + 1, j);
    }
}

/// Ranks are positions: each lies in `[0, len)`, distinct items have distinct ranks, and every
/// position is the rank of some item.
pub proof fn lemma_rank_bounds(cls: Seq<nat>, m: nat, i: int)
    requires
        classes_below(cls, m),
        0 <= i < cls.len(),
    ensures
        count_lt(cls, cls[i], cls.len() as int) <= rank(cls, i) < count_lt(cls, cls[i] + 1, cls.len() as int),
        0 <= rank(cls, i) < cls.len(),
{
    let n = cls.len() as int;
    lemma_count_lt_step(cls, cls[i], n);
    lemma_count_bounds(cls, cls[i], i + 1, n);
    lemma_count_lt_mono(cls, cls[i] + 1, m, n);
    lemma_count_lt_all(cls, m, n);
}

/// Distinct items have distinct ranks.
pub proof fn lemma_rank_injective(cls: Seq<nat>, i: int, j: int)
    requires
        0 <= i < cls.len(),
        0 <= j < cls.len(),
        i != j,
    ensures
        rank(cls, i) != rank(cls, j),
{
    if cls[i] < cls[j] || (cls[i] == cls[j] && i < j) {
        lemma_rank_order(cls, i, j);
    } else {
        lemma_rank_order(cls, j, i);
    }
}

/// The class whose block of positions holds `p`.
proof fn lemma_find_class(cls: Seq<nat>, m: nat, p: int, c: nat) -> (d: nat)
    requires
        classes_below(cls, m),
        c <= m,
        count_lt(cls, c, cls.len() as int) <= p < cls.len(),
    ensures
        c <= d < m,
        count_lt(cls, d, cls.len() as int) <= p < count_lt(cls, d + 1, cls.len() as int),
    decreases m - c,
{
    let n = cls.len() as int;
    lemma_count_lt_all(cls, m, n);
    if c == m {
        assert(false);
        c
    } else if p < count_lt(cls, c + 1, n) {
        c
    } else {
        lemma_find_class(cls, m, p, c + 1)
    }
}

/// Every position is the rank of some item.
pub proof fn lemma_rank_surjective(cls: Seq<nat>, m: nat, p: int) -> (i: int)
    requires
        classes_below(cls, m),
        0 <= p < cls.len(),
    ensures
        0 <= i < cls.len(),
        rank(cls, i) == p,
{
    let n = cls.len() as int;
    lemma_count_lt_zero(cls, n);
    let d = lemma_find_class(cls, m, p, 0);
    lemma_count_lt_step(cls, d, n);
    let k = (p - count_lt(cls, d, n)) as nat;
    lemma_count_eq_hit(cls, d, n, k)
}

/// A position inside the block of class `b` belongs to an item of class `b`.
pub proof fn lemma_rank_in_block(cls: Seq<nat>, m: nat, i: int, b: nat)
    requires
        classes_below(cls, m),
        0 <= i < cls.len(),
        count_lt(cls, b, cls.len() as int) <= rank(cls, i) < count_lt(cls, b + 1, cls.len() as int),
    ensures
        cls[i] == b,
{
    let n = cls.len() as int;
    lemma_rank_bounds(cls, m, i);
    if cls[i] < b {
        lemma_count_lt_mono(cls, cls[i] + 1, b, n);
    } else if cls[i] > b {
        lemma_count_lt_mono(cls, b + 1, cls[i], n);
    }
}

} // verus!

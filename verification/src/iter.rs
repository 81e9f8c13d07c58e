//! Iterators over the contents of a [`FrozenMap`](crate::FrozenMap) or [`FrozenSet`](crate::FrozenSet).
//! Each yields the stored entries in order, one per call of `next`.

use crate::key::Key;
use vstd::prelude::*;

verus! {

/// An iterator over the key-value pairs of a map.
pub struct MapEntries<'a, V: 'static> {
    entries: &'a [(Key, V)],
    pos: usize,
    end: usize,
}

/// An iterator over the keys of a map.
pub struct MapKeys<'a, V: 'static> {
    entries: &'a [(Key, V)],
    pos: usize,
    end: usize,
}

/// An iterator over the values of a map.
pub struct MapValues<'a, V: 'static> {
    entries: &'a [(Key, V)],
    pos: usize,
    end: usize,
}

/// An iterator over the values of a set.
pub struct SetEntries<'a> {
    entries: &'a [(Key, ())],
    pos: usize,
    end: usize,
}

impl<'a, V: 'static> MapEntries<'a, V> {
    #[verifier::type_invariant]
    closed spec fn wf(self) -> bool {
        self.pos <= self.end <= self.entries@.len()
    }

    /// The entries that are still to come.
    pub closed spec fn remaining(self) -> Seq<(Key, V)> {
        self.entries@.subrange(self.pos as int, self.end as int)
    }

    /// Starts an iterator over `entries`.
    pub(crate) fn new(entries: &'a [(Key, V)]) -> (r: Self)
        ensures
            r.remaining() == entries@,
    {
        let r = MapEntries { entries, pos: 0, end: entries.len() };
        proof {
            assert(r.remaining() =~= entries@);
        }
        r
    }

    /// Returns the next key-value pair, or `None` once all have been returned.
    pub fn next(&mut self) -> (r: Option<(&'a Key, &'a V)>)
        ensures
            match r {
                Some((k, v)) => old(self).remaining().len() > 0 && *k == old(self).remaining()[0].0
                    && *v == old(self).remaining()[0].1 && final(self).remaining() == old(self).remaining().drop_first(),
                None => old(self).remaining().len() == 0 && final(self).remaining() == old(self).remaining(),
            },
    {
        proof {
            use_type_invariant(&*self);
        }
        let entries: &'a [(Key, V)] = self.entries;
        if self.pos < self.end {
            let e = &entries[self.pos];
            self.pos = self.pos + 1;
            proof {
                assert(self.remaining() =~= old(self).remaining().drop_first());
            }
            Some((&e.0, &e.1))
        } else {
            None
        }
    }

    /// Returns the last key-value pair that is still to come, or `None` once all have been returned.
    pub fn next_back(&mut self) -> (r: Option<(&'a Key, &'a V)>)
        ensures
            match r {
                Some((k, v)) => old(self).remaining().len() > 0 && *k == old(self).remaining().last().0 && *v == old(self).remaining().last().1
                    && final(self).remaining() == old(self).remaining().drop_last(),
                None => old(self).remaining().len() == 0 && final(self).remaining() == old(self).remaining(),
            },
    {
        proof {
            use_type_invariant(&*self);
        }
        let entries = self.entries;
        if self.pos < self.end {
            self.end = self.end - 1;
            let e = &entries[self.end];
            proof {
                assert(self.remaining() =~= old(self).remaining().drop_last());
            }
            Some((&e.0, &e.1))
        } else {
            None
        }
    }

    /// Returns the number of pairs that are still to come.
    pub fn len(&self) -> (r: usize)
        ensures
            r == self.remaining().len(),
    {
        proof {
            use_type_invariant(self);
        }
        self.end - self.pos
    }

    /// Skips `n` pairs and returns the one after them; when no more than `n` remain, returns `None` and
    /// leaves none.
    pub fn nth(&mut self, n: usize) -> (r: Option<(&'a Key, &'a V)>)
        ensures
            n < old(self).remaining().len() ==> (r matches Some((k, v)) && *k == old(self).remaining()[n as int].0 && *v == old(self).remaining()[n as int].1
                && final(self).remaining() == old(self).remaining().subrange(n + 1, old(self).remaining().len() as int)),
            n >= old(self).remaining().len() ==> r is None && final(self).remaining().len() == 0,
    {
        proof {
            use_type_invariant(&*self);
        }
        let entries: &'a [(Key, V)] = self.entries;
        if n < self.end - self.pos {
            let i = self.pos + n;
            let e = &entries[i];
            self.pos = i + 1;
            proof {
                assert(self.remaining() =~= old(self).remaining().subrange(n + 1, old(self).remaining().len() as int));
            }
            Some((&e.0, &e.1))
        } else {
            self.pos = self.end;
            None
        }
    }

    /// Returns the last pair still to come, consuming the iterator.
    pub fn last(self) -> (r: Option<(&'a Key, &'a V)>)
        ensures
            self.remaining().len() > 0 ==> (r matches Some((k, v)) && *k == self.remaining().last().0 && *v == self.remaining().last().1),
            self.remaining().len() == 0 ==> r is None,
    {
        proof {
            use_type_invariant(&self);
        }
        let entries: &'a [(Key, V)] = self.entries;
        if self.pos < self.end {
            let e = &entries[self.end - 1];
            Some((&e.0, &e.1))
        } else {
            None
        }
    }

    /// Returns the number of pairs still to come, consuming the iterator.
    pub fn count(self) -> (r: usize)
        ensures
            r == self.remaining().len(),
    {
        proof {
            use_type_invariant(&self);
        }
        self.end - self.pos
    }
}

impl<'a, V: 'static> MapKeys<'a, V> {
    #[verifier::type_invariant]
    closed spec fn wf(self) -> bool {
        self.pos <= self.end <= self.entries@.len()
    }

    /// The entries whose keys are still to come.
    pub closed spec fn remaining(self) -> Seq<(Key, V)> {
        self.entries@.subrange(self.pos as int, self.end as int)
    }

    /// Starts an iterator over the keys of `entries`.
    pub(crate) fn new(entries: &'a [(Key, V)]) -> (r: Self)
        ensures
            r.remaining() == entries@,
    {
        let r = MapKeys { entries, pos: 0, end: entries.len() };
        proof {
            assert(r.remaining() =~= entries@);
        }
        r
    }

    /// Returns the next key, or `None` once all have been returned.
    pub fn next(&mut self) -> (r: Option<&'a Key>)
        ensures
            match r {
                Some(k) => old(self).remaining().len() > 0 && *k == old(self).remaining()[0].0
                    && final(self).remaining() == old(self).remaining().drop_first(),
                None => old(self).remaining().len() == 0 && final(self).remaining() == old(self).remaining(),
            },
    {
        proof {
            use_type_invariant(&*self);
        }
        let entries: &'a [(Key, V)] = self.entries;
        if self.pos < self.end {
            let e = &entries[self.pos];
            self.pos = self.pos + 1;
            proof {
                assert(self.remaining() =~= old(self).remaining().drop_first());
            }
            Some(&e.0)
        } else {
            None
        }
    }

    /// Returns the last key that is still to come, or `None` once all have been returned.
    pub fn next_back(&mut self) -> (r: Option<&'a Key>)
        ensures
            match r {
                Some(k) => old(self).remaining().len() > 0 && *k == old(self).remaining().last().0
                    && final(self).remaining() == old(self).remaining().drop_last(),
                None => old(self).remaining().len() == 0 && final(self).remaining() == old(self).remaining(),
            },
    {
        proof {
            use_type_invariant(&*self);
        }
        let entries = self.entries;
        if self.pos < self.end {
            self.end = self.end - 1;
            let e = &entries[self.end];
            proof {
                assert(self.remaining() =~= old(self).remaining().drop_last());
            }
            Some(&e.0)
        } else {
            None
        }
    }

    /// Returns the number of keys that are still to come.
    pub fn len(&self) -> (r: usize)
        ensures
            r == self.remaining().len(),
    {
        proof {
            use_type_invariant(self);
        }
        self.end - self.pos
    }

    /// Skips `n` keys and returns the one after them; when no more than `n` remain, returns `None` and
    /// leaves none.
    pub fn nth(&mut self, n: usize) -> (r: Option<&'a Key>)
        ensures
            n < old(self).remaining().len() ==> (r matches Some(k) && *k == old(self).remaining()[n as int].0
                && final(self).remaining() == old(self).remaining().subrange(n + 1, old(self).remaining().len() as int)),
            n >= old(self).remaining().len() ==> r is None && final(self).remaining().len() == 0,
    {
        proof {
            use_type_invariant(&*self);
        }
        let entries: &'a [(Key, V)] = self.entries;
        if n < self.end - self.pos {
            let i = self.pos + n;
            let e = &entries[i];
            self.pos = i + 1;
            proof {
                assert(self.remaining() =~= old(self).remaining().subrange(n + 1, old(self).remaining().len() as int));
            }
            Some(&e.0)
        } else {
            self.pos = self.end;
            None
        }
    }

    /// Returns the last key still to come, consuming the iterator.
    pub fn last(self) -> (r: Option<&'a Key>)
        ensures
            self.remaining().len() > 0 ==> (r matches Some(k) && *k == self.remaining().last().0),
            self.remaining().len() == 0 ==> r is None,
    {
        proof {
            use_type_invariant(&self);
        }
        let entries: &'a [(Key, V)] = self.entries;
        if self.pos < self.end {
            let e = &entries[self.end - 1];
            Some(&e.0)
        } else {
            None
        }
    }

    /// Returns the number of keys still to come, consuming the iterator.
    pub fn count(self) -> (r: usize)
        ensures
            r == self.remaining().len(),
    {
        proof {
            use_type_invariant(&self);
        }
        self.end - self.pos
    }
}

impl<'a, V: 'static> MapValues<'a, V> {
    #[verifier::type_invariant]
    closed spec fn wf(self) -> bool {
        self.pos <= self.end <= self.entries@.len()
    }

    /// The entries whose values are still to come.
    pub closed spec fn remaining(self) -> Seq<(Key, V)> {
        self.entries@.subrange(self.pos as int, self.end as int)
    }

    /// Starts an iterator over the values of `entries`.
    pub(crate) fn new(entries: &'a [(Key, V)]) -> (r: Self)
        ensures
            r.remaining() == entries@,
    {
        let r = MapValues { entries, pos: 0, end: entries.len() };
        proof {
            assert(r.remaining() =~= entries@);
        }
        r
    }

    /// Returns the next value, or `None` once all have been returned.
    pub fn next(&mut self) -> (r: Option<&'a V>)
        ensures
            match r {
                Some(v) => old(self).remaining().len() > 0 && *v == old(self).remaining()[0].1
                    && final(self).remaining() == old(self).remaining().drop_first(),
                None => old(self).remaining().len() == 0 && final(self).remaining() == old(self).remaining(),
            },
    {
        proof {
            use_type_invariant(&*self);
        }
        let entries: &'a [(Key, V)] = self.entries;
        if self.pos < self.end {
            let e = &entries[self.pos];
            self.pos = self.pos + 1;
            proof {
                assert(self.remaining() =~= old(self).remaining().drop_first());
            }
            Some(&e.1)
        } else {
            None
        }
    }

    /// Returns the last value that is still to come, or `None` once all have been returned.
    pub fn next_back(&mut self) -> (r: Option<&'a V>)
        ensures
            match r {
                Some(v) => old(self).remaining().len() > 0 && *v == old(self).remaining().last().1
                    && final(self).remaining() == old(self).remaining().drop_last(),
                None => old(self).remaining().len() == 0 && final(self).remaining() == old(self).remaining(),
            },
    {
        proof {
            use_type_invariant(&*self);
        }
        let entries = self.entries;
        if self.pos < self.end {
            self.end = self.end - 1;
            let e = &entries[self.end];
            proof {
                assert(self.remaining() =~= old(self).remaining().drop_last());
            }
            Some(&e.1)
        } else {
            None
        }
    }

    /// Returns the number of values that are still to come.
    pub fn len(&self) -> (r: usize)
        ensures
            r == self.remaining().len(),
    {
        proof {
            use_type_invariant(self);
        }
        self.end - self.pos
    }

    /// Skips `n` values and returns the one after them; when no more than `n` remain, returns `None` and
    /// leaves none.
    pub fn nth(&mut self, n: usize) -> (r: Option<&'a V>)
        ensures
            n < old(self).remaining().len() ==> (r matches Some(v) && *v == old(self).remaining()[n as int].1
                && final(self).remaining() == old(self).remaining().subrange(n + 1, old(self).remaining().len() as int)),
            n >= old(self).remaining().len() ==> r is None && final(self).remaining().len() == 0,
    {
        proof {
            use_type_invariant(&*self);
        }
        let entries: &'a [(Key, V)] = self.entries;
        if n < self.end - self.pos {
            let i = self.pos + n;
            let e = &entries[i];
            self.pos = i + 1;
            proof {
                assert(self.remaining() =~= old(self).remaining().subrange(n + 1, old(self).remaining().len() as int));
            }
            Some(&e.1)
        } else {
            self.pos = self.end;
            None
        }
    }

    /// Returns the last value still to come, consuming the iterator.
    pub fn last(self) -> (r: Option<&'a V>)
        ensures
            self.remaining().len() > 0 ==> (r matches Some(v) && *v == self.remaining().last().1),
            self.remaining().len() == 0 ==> r is None,
    {
        proof {
            use_type_invariant(&self);
        }
        let entries: &'a [(Key, V)] = self.entries;
        if self.pos < self.end {
            let e = &entries[self.end - 1];
            Some(&e.1)
        } else {
            None
        }
    }

    /// Returns the number of values still to come, consuming the iterator.
    pub fn count(self) -> (r: usize)
        ensures
            r == self.remaining().len(),
    {
        proof {
            use_type_invariant(&self);
        }
        self.end - self.pos
    }
}

impl<'a> SetEntries<'a> {
    #[verifier::type_invariant]
    closed spec fn wf(self) -> bool {
        self.pos <= self.end <= self.entries@.len()
    }

    /// The values that are still to come.
    pub closed spec fn remaining(self) -> Seq<Key> {
        self.entries@.subrange(self.pos as int, self.end as int).map_values(|e: (Key, ())| e.0)
    }

    /// Starts an iterator over the keys of `entries`.
    pub(crate) fn new(entries: &'a [(Key, ())]) -> (r: Self)
        ensures
            r.remaining() == entries@.map_values(|e: (Key, ())| e.0),
    {
        let r = SetEntries { entries, pos: 0, end: entries.len() };
        proof {
            assert(r.remaining() =~= entries@.map_values(|e: (Key, ())| e.0));
        }
        r
    }

    /// Returns the next value, or `None` once all have been returned.
    pub fn next(&mut self) -> (r: Option<&'a Key>)
        ensures
            match r {
                Some(k) => old(self).remaining().len() > 0 && *k == old(self).remaining()[0]
                    && final(self).remaining() == old(self).remaining().drop_first(),
                None => old(self).remaining().len() == 0 && final(self).remaining() == old(self).remaining(),
            },
    {
        proof {
            use_type_invariant(&*self);
        }
        let entries: &'a [(Key, ())] = self.entries;
        if self.pos < self.end {
            let e = &entries[self.pos];
            self.pos = self.pos + 1;
            proof {
                assert(self.remaining() =~= old(self).remaining().drop_first());
            }
            Some(&e.0)
        } else {
            None
        }
    }

    /// Returns the last value that is still to come, or `None` once all have been returned.
    pub fn next_back(&mut self) -> (r: Option<&'a Key>)
        ensures
            match r {
                Some(k) => old(self).remaining().len() > 0 && *k == old(self).remaining().last()
                    && final(self).remaining() == old(self).remaining().drop_last(),
                None => old(self).remaining().len() == 0 && final(self).remaining() == old(self).remaining(),
            },
    {
        proof {
            use_type_invariant(&*self);
        }
        let entries = self.entries;
        if self.pos < self.end {
            self.end = self.end - 1;
            let e = &entries[self.end];
            proof {
                assert(self.remaining() =~= old(self).remaining().drop_last());
            }
            Some(&e.0)
        } else {
            None
        }
    }

    /// Returns the number of values that are still to come.
    pub fn len(&self) -> (r: usize)
        ensures
            r == self.remaining().len(),
    {
        proof {
            use_type_invariant(self);
        }
        self.end - self.pos
    }

    /// Skips `n` values and returns the one after them; when no more than `n` remain, returns `None` and
    /// leaves none.
    pub fn nth(&mut self, n: usize) -> (r: Option<&'a Key>)
        ensures
            n < old(self).remaining().len() ==> (r matches Some(k) && *k == old(self).remaining()[n as int]
                && final(self).remaining() == old(self).remaining().subrange(n + 1, old(self).remaining().len() as int)),
            n >= old(self).remaining().len() ==> r is None && final(self).remaining().len() == 0,
    {
        proof {
            use_type_invariant(&*self);
        }
        let entries: &'a [(Key, ())] = self.entries;
        if n < self.end - self.pos {
            let i = self.pos + n;
            let e = &entries[i];
            self.pos = i + 1;
            proof {
                assert(self.remaining() =~= old(self).remaining().subrange(n + 1, old(self).remaining().len() as int));
            }
            Some(&e.0)
        } else {
            self.pos = self.end;
            None
        }
    }

    /// Returns the last value still to come, consuming the iterator.
    pub fn last(self) -> (r: Option<&'a Key>)
        ensures
            self.remaining().len() > 0 ==> (r matches Some(k) && *k == self.remaining().last()),
            self.remaining().len() == 0 ==> r is None,
    {
        proof {
            use_type_invariant(&self);
        }
        let entries: &'a [(Key, ())] = self.entries;
        if self.pos < self.end {
            let e = &entries[self.end - 1];
            Some(&e.0)
        } else {
            None
        }
    }

    /// Returns the number of values still to come, consuming the iterator.
    pub fn count(self) -> (r: usize)
        ensures
            r == self.remaining().len(),
    {
        proof {
            use_type_invariant(&self);
        }
        self.end - self.pos
    }
}

} // verus!

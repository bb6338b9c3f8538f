//! The in-memory buffer of mutations, in key order, and its iterator.

use vstd::prelude::*;
use std::collections::Bound;
use crate::disk::{approx_key_usage, approx_value_usage, key_usage, value_usage};
use crate::error::{Error, mk_err};
use crate::iter::{Direction, MutationIterator};
use crate::model::{sorted, find, has_key, rank, rank_from, precedes, lemma_rank, lemma_rank_unique,
    lemma_find_at, lower_index, upper_index, range_end, range_entries, lemma_bound_indices};
use crate::util::{Buf, Item, Mutation, MutationView, Interval, KeyOrder, key_order, lex_lt,
    lex_le, lemma_lex_trichotomy, lemma_lex_transitive, below_upper_bound, above_lower_bound,
    under_upper, over_lower, clone_bound, same_bound};

verus! {

/// The space that an entry is counted with.
pub open spec fn entry_usage(e: Item) -> usize {
    key_usage(e.0).wrapping_add(value_usage(e.1))
}

/// The space that a run of entries is counted with: the sum over its
/// entries, on machine words.
pub open spec fn usage_total(es: Seq<Item>) -> usize
    decreases es.len(),
{
    if es.len() == 0 {
        0
    } else {
        usage_total(es.drop_last()).wrapping_add(entry_usage(es.last()))
    }
}

proof fn lemma_usage_insert(es: Seq<Item>, i: int, e: Item)
    requires
        0 <= i <= es.len(),
    ensures
        usage_total(es.insert(i, e)) == usage_total(es).wrapping_add(entry_usage(e)),
    decreases es.len() - i,
{
    let ins = es.insert(i, e);
    if i == es.len() {
        assert(ins.drop_last() =~= es);
    } else {
        assert(ins.drop_last() =~= es.drop_last().insert(i, e));
        assert(ins.last() == es.last());
        lemma_usage_insert(es.drop_last(), i, e);
        lemma_wrapping_swap(
            usage_total(es.drop_last()),
            entry_usage(e),
            0,
            entry_usage(es.last()),
        );
    }
}

proof fn lemma_wrapping_swap(t: usize, e: usize, i: usize, l: usize)
    ensures
        t.wrapping_add(e).wrapping_sub(i).wrapping_add(l) == t.wrapping_add(l).wrapping_add(
            e,
        ).wrapping_sub(i),
        t.wrapping_add(i).wrapping_add(e).wrapping_sub(i) == t.wrapping_add(e),
        t.wrapping_add(e).wrapping_add(l) == t.wrapping_add(l).wrapping_add(e),
{
}

proof fn lemma_usage_update(es: Seq<Item>, i: int, e: Item)
    requires
        0 <= i < es.len(),
    ensures
        usage_total(es.update(i, e)) == usage_total(es).wrapping_add(entry_usage(e)).wrapping_sub(
            entry_usage(es[i]),
        ),
    decreases es.len() - i,
{
    let upd = es.update(i, e);
    let t = usage_total(es.drop_last());
    if i == es.len() - 1 {
        assert(upd.drop_last() =~= es.drop_last());
        assert(usage_total(upd) == t.wrapping_add(entry_usage(e)));
        assert(usage_total(es) == t.wrapping_add(entry_usage(es[i])));
        lemma_wrapping_swap(t, entry_usage(e), entry_usage(es[i]), 0);
    } else {
        assert(upd.drop_last() =~= es.drop_last().update(i, e));
        assert(upd.last() == es.last());
        lemma_usage_update(es.drop_last(), i, e);
        assert(es.drop_last()[i] == es[i]);
        assert(usage_total(upd) == t.wrapping_add(entry_usage(e)).wrapping_sub(
            entry_usage(es[i]),
        ).wrapping_add(entry_usage(es.last())));
        assert(usage_total(es) == t.wrapping_add(entry_usage(es.last())));
        lemma_wrapping_swap(t, entry_usage(e), entry_usage(es[i]), entry_usage(es.last()));
    }
}

/// `es` with `val` recorded against `key`: in place of what was recorded
/// against it, or as a new entry at the key's place in the order.
pub open spec fn upsert(es: Seq<Item>, key: Seq<u8>, val: MutationView) -> Seq<Item> {
    let i = rank(es, key, false);
    if i < es.len() && es[i].0 == key {
        es.update(i, (key, val))
    } else {
        es.insert(i, (key, val))
    }
}

/// Recording a mutation in a sorted run keeps it sorted; the key then has
/// the new mutation, and every other key what it had.
pub proof fn lemma_upsert(es: Seq<Item>, key: Seq<u8>, val: MutationView)
    requires
        sorted(es),
    ensures
        sorted(upsert(es, key, val)),
        find(upsert(es, key, val), key) == Some(val),
        forall|k: Seq<u8>| k != key ==> find(upsert(es, key, val), k) == find(es, k),
{
    let i = rank(es, key, false);
    let up = upsert(es, key, val);
    lemma_rank(es, key, false);
    assert forall|a: int, b: int| 0 <= a < b < up.len() implies lex_lt(
        #[trigger] up[a].0,
        #[trigger] up[b].0,
    ) by {
        if i < es.len() && es[i].0 == key {
            assert(up[a].0 == es[a].0);
            assert(up[b].0 == es[b].0);
        } else {
            if a < i && b == i {
                assert(precedes(es[a].0, key, false));
            } else if a == i {
                assert(up[b] == es[b - 1]);
                assert(!precedes(es[b - 1].0, key, false));
                lemma_lex_trichotomy(es[b - 1].0, key);
                if b - 1 > i {
                    assert(lex_lt(es[i].0, es[b - 1].0));
                }
            } else if a < i {
                assert(up[a] == es[a]);
                if b < i {
                    assert(up[b] == es[b]);
                } else {
                    assert(up[b] == es[b - 1]);
                }
            } else {
                assert(up[a] == es[a - 1]);
                assert(up[b] == es[b - 1]);
            }
        }
    }
    assert(up[i] == (key, val));
    lemma_find_at(up, i);
    assert forall|k: Seq<u8>| k != key implies find(up, k) == find(es, k) by {
        if has_key(es, k) {
            let j = choose|j: int| 0 <= j < es.len() && #[trigger] es[j].0 == k;
            lemma_find_at(es, j);
            let j2 = if i < es.len() && es[i].0 == key {
                j
            } else if j < i {
                j
            } else {
                j + 1
            };
            assert(up[j2] == es[j]);
            lemma_find_at(up, j2);
        } else {
            if has_key(up, k) {
                let j = choose|j: int| 0 <= j < up.len() && #[trigger] up[j].0 == k;
                let j2 = if i < es.len() && es[i].0 == key {
                    j
                } else if j < i {
                    j
                } else {
                    j - 1
                };
                assert(es[j2].0 == k);
            }
        }
    }
}

/// The mutations that were written since the last flush, one for each key
/// written, in key order, with an estimate of the space they will take in a
/// table file.
pub struct MemStore {
    pub entries: Vec<(Buf, Mutation)>,
    pub mem_usage: usize,
}

impl MemStore {
    /// The entries as mathematical values, in their order.
    pub open spec fn entries_view(&self) -> Seq<Item> {
        Seq::new(self.entries@.len(), |i: int| (self.entries@[i].0@, self.entries@[i].1@))
    }

    /// The keys ascend strictly, and `mem_usage` is the count of the entries.
    pub open spec fn inv(&self) -> bool {
        &&& sorted(self.entries_view())
        &&& self.mem_usage == usage_total(self.entries_view())
    }

    /// What is recorded against `key`.
    pub open spec fn lookup_spec(&self, key: Seq<u8>) -> Option<MutationView> {
        find(self.entries_view(), key)
    }

    /// An empty buffer.
    pub fn new() -> (r: MemStore)
        ensures
            r.inv(),
            r.entries_view() == Seq::<Item>::empty(),
            r.mem_usage == 0,
    {
        let r = MemStore { entries: Vec::new(), mem_usage: 0 };
        assert(r.entries_view() =~= Seq::<Item>::empty());
        r
    }

    /// The number of entries whose keys come before `key`, or, if
    /// `inclusive`, come before it or are it.
    pub fn rank_index(&self, key: &[u8], inclusive: bool) -> (r: usize)
        requires
            self.inv(),
        ensures
            r == rank(self.entries_view(), key@, inclusive),
            r <= self.entries@.len(),
    {
        let ghost es = self.entries_view();
        let mut lo: usize = 0;
        let mut hi: usize = self.entries.len();
        while lo < hi
            invariant
                es == self.entries_view(),
                sorted(es),
                0 <= lo <= hi <= es.len(),
                es.len() == self.entries@.len(),
                forall|j: int| 0 <= j < lo ==> precedes(#[trigger] es[j].0, key@, inclusive),
                forall|j: int| hi <= j < es.len() ==> !precedes(#[trigger] es[j].0, key@, inclusive),
            decreases hi - lo,
        {
            let mid: usize = lo + (hi - lo) / 2;
            let order = key_order(self.entries[mid].0.as_slice(), key);
            assert(es[mid as int].0 == self.entries@[mid as int].0@);
            let before: bool = match order {
                KeyOrder::Less => true,
                KeyOrder::Equal => inclusive,
                KeyOrder::Greater => false,
            };
            proof {
                lemma_lex_trichotomy(es[mid as int].0, key@);
                assert(before == precedes(es[mid as int].0, key@, inclusive));
            }
            if before {
                proof {
                    assert forall|j: int| 0 <= j < mid + 1 implies precedes(
                        #[trigger] es[j].0,
                        key@,
                        inclusive,
                    ) by {
                        if j < mid {
                            assert(lex_lt(es[j].0, es[mid as int].0));
                            if lex_lt(es[mid as int].0, key@) {
                                lemma_lex_transitive(es[j].0, es[mid as int].0, key@);
                            }
                        }
                    }
                }
                lo = mid + 1;
            } else {
                proof {
                    assert forall|j: int| mid <= j < es.len() implies !precedes(
                        #[trigger] es[j].0,
                        key@,
                        inclusive,
                    ) by {
                        if mid < j && precedes(es[j].0, key@, inclusive) {
                            assert(lex_lt(es[mid as int].0, es[j].0));
                            if lex_lt(es[j].0, key@) {
                                lemma_lex_transitive(es[mid as int].0, es[j].0, key@);
                            }
                        }
                    }
                }
                hi = mid;
            }
        }
        proof {
            lemma_rank_unique(es, key@, inclusive, lo as int, 0);
        }
        lo
    }

    /// Records `val` against `key`, in place of what was recorded against
    /// it, and counts the space anew.
    pub fn apply(&mut self, key: Buf, val: Mutation)
        requires
            old(self).inv(),
        ensures
            final(self).inv(),
            final(self).entries_view() == upsert(old(self).entries_view(), key@, val@),
            final(self).lookup_spec(key@) == Some(val@),
            forall|k: Seq<u8>| k != key@ ==> final(self).lookup_spec(k) == old(self).lookup_spec(k),
    {
        let ghost es = self.entries_view();
        let i: usize = self.rank_index(key.as_slice(), false);
        let k_usage: usize = approx_key_usage(key.as_slice());
        let new_usage: usize = k_usage.wrapping_add(approx_value_usage(&val));
        proof {
            lemma_upsert(es, key@, val@);
            lemma_rank(es, key@, false);
        }
        let mut found: bool = false;
        if i < self.entries.len() {
            found = match key_order(self.entries[i].0.as_slice(), key.as_slice()) {
                KeyOrder::Equal => true,
                _ => false,
            };
            assert(es[i as int].0 == self.entries@[i as int].0@);
        }
        if found {
            let old_usage: usize = k_usage.wrapping_add(approx_value_usage(&self.entries[i].1));
            proof {
                assert(es[i as int].1 == self.entries@[i as int].1@);
                lemma_usage_update(es, i as int, (key@, val@));
            }
            self.mem_usage = self.mem_usage.wrapping_add(new_usage).wrapping_sub(old_usage);
            self.entries[i] = (key, val);
            assert(self.entries_view() =~= upsert(es, key@, val@));
        } else {
            proof {
                lemma_usage_insert(es, i as int, (key@, val@));
            }
            self.mem_usage = self.mem_usage.wrapping_add(new_usage).wrapping_sub(0);
            self.entries.insert(i, (key, val));
            assert(self.entries_view() =~= upsert(es, key@, val@));
        }
    }

    /// What is recorded against `key`, if anything.
    pub fn lookup(&self, key: &[u8]) -> (r: Option<&Mutation>)
        requires
            self.inv(),
        ensures
            match r {
                Some(m) => self.lookup_spec(key@) == Some(m@),
                None => self.lookup_spec(key@) is None,
            },
    {
        let ghost es = self.entries_view();
        let i: usize = self.rank_index(key, false);
        proof {
            lemma_rank(es, key@, false);
        }
        if i < self.entries.len() {
            assert(es[i as int] == (self.entries@[i as int].0@, self.entries@[i as int].1@));
            match key_order(self.entries[i].0.as_slice(), key) {
                KeyOrder::Equal => {
                    proof {
                        lemma_find_at(es, i as int);
                    }
                    return Some(&self.entries[i].1);
                },
                _ => {},
            }
        }
        proof {
            if has_key(es, key@) {
                let j = choose|j: int| 0 <= j < es.len() && #[trigger] es[j].0 == key@;
                lemma_lex_trichotomy(key@, key@);
                if j < i {
                    assert(precedes(es[j].0, key@, false));
                } else if j > i {
                    assert(lex_lt(es[i as int].0, es[j].0));
                    assert(!precedes(es[i as int].0, key@, false));
                    lemma_lex_trichotomy(es[i as int].0, key@);
                }
            }
        }
        None
    }

    /// The index of the first entry over the lower bound.
    fn lower_rank(&self, lower: &Bound<Buf>) -> (r: usize)
        requires
            self.inv(),
        ensures
            r == lower_index(self.entries_view(), *lower),
            r <= self.entries@.len(),
    {
        match lower {
            Bound::Unbounded => 0,
            Bound::Included(s) => self.rank_index(s.as_slice(), false),
            Bound::Excluded(s) => self.rank_index(s.as_slice(), true),
        }
    }

    /// The index behind the last entry under the upper bound.
    fn upper_rank(&self, upper: &Bound<Buf>) -> (r: usize)
        requires
            self.inv(),
        ensures
            r == upper_index(self.entries_view(), *upper),
            r <= self.entries@.len(),
    {
        match upper {
            Bound::Unbounded => self.entries.len(),
            Bound::Included(s) => self.rank_index(s.as_slice(), true),
            Bound::Excluded(s) => self.rank_index(s.as_slice(), false),
        }
    }

    /// The smallest key inside `interval`, if any key lies inside it.
    pub fn first_in_range(&self, interval: &Interval<Buf>) -> (r: Option<&[u8]>)
        requires
            self.inv(),
        ensures
            match r {
                Some(k) => range_entries(self.entries_view(), *interval).len() > 0 && k@
                    == range_entries(self.entries_view(), *interval).first().0,
                None => range_entries(self.entries_view(), *interval).len() == 0,
            },
    {
        let lo: usize = self.lower_rank(&interval.lower);
        let hi: usize = self.upper_rank(&interval.upper);
        if lo < hi {
            Some(self.entries[lo].0.as_slice())
        } else {
            None
        }
    }

    /// The largest key inside `interval`, if any key lies inside it.
    pub fn last_in_range(&self, interval: &Interval<Buf>) -> (r: Option<&[u8]>)
        requires
            self.inv(),
        ensures
            match r {
                Some(k) => range_entries(self.entries_view(), *interval).len() > 0 && k@
                    == range_entries(self.entries_view(), *interval).last().0,
                None => range_entries(self.entries_view(), *interval).len() == 0,
            },
    {
        let lo: usize = self.lower_rank(&interval.lower);
        let hi: usize = self.upper_rank(&interval.upper);
        if lo < hi {
            Some(self.entries[hi - 1].0.as_slice())
        } else {
            None
        }
    }
}

/// In a sorted run, the rank of the key of entry `i` is `i`, and `i + 1` if
/// the key itself counts.
pub proof fn lemma_rank_of_member(es: Seq<Item>, i: int)
    requires
        sorted(es),
        0 <= i < es.len(),
    ensures
        rank(es, es[i].0, false) == i,
        rank(es, es[i].0, true) == i + 1,
{
    let k = es[i].0;
    lemma_lex_trichotomy(k, k);
    assert forall|j: int| 0 <= j < i implies precedes(#[trigger] es[j].0, k, false) by {
        assert(lex_lt(es[j].0, es[i].0));
    }
    lemma_rank_unique(es, k, false, i, 0);
    assert forall|j: int| 0 <= j < i + 1 implies precedes(#[trigger] es[j].0, k, true) by {
        if j < i {
            assert(lex_lt(es[j].0, es[i].0));
        }
    }
    if i + 1 < es.len() {
        assert(lex_lt(es[i].0, es[i + 1].0));
        lemma_lex_trichotomy(es[i + 1].0, k);
    }
    lemma_rank_unique(es, k, true, i + 1, 0);
}

/// A cursor over the entries of a `MemStore` inside an interval, in either
/// direction.
pub struct MemStoreIterator<'a> {
    memstore: &'a MemStore,
    current: Option<&'a [u8]>,
    bound: Bound<Buf>,
    direction: Direction,
}

impl<'a> MemStoreIterator<'a> {
    /// A cursor on the first entry of `ms` inside `interval`, seen in the
    /// given direction.
    pub fn make(ms: &'a MemStore, interval: &Interval<Buf>, direction: Direction) -> (r:
        MemStoreIterator<'a>)
        requires
            ms.inv(),
        ensures
            r.inv(),
            r.valid(),
            r.remaining() == (match direction {
                Direction::Forward => range_entries(ms.entries_view(), *interval),
                Direction::Backward => range_entries(ms.entries_view(), *interval).reverse(),
            }),
    {
        let ghost es = ms.entries_view();
        proof {
            lemma_bound_indices(es, *interval);
        }
        match direction {
            Direction::Forward => {
                let r = MemStoreIterator {
                    memstore: ms,
                    current: ms.first_in_range(interval),
                    bound: clone_bound(&interval.upper),
                    direction: direction,
                };
                proof {
                    let lo = lower_index(es, interval.lower);
                    if r.current is Some {
                        assert(range_entries(es, *interval)[0] == es[lo]);
                        lemma_rank_of_member(es, lo);
                        assert(upper_index(es, r.bound) == upper_index(es, interval.upper));
                        assert(r.remaining() =~= range_entries(es, *interval));
                    } else {
                        assert(r.remaining() =~= range_entries(es, *interval));
                    }
                }
                r
            },
            Direction::Backward => {
                let r = MemStoreIterator {
                    memstore: ms,
                    current: ms.last_in_range(interval),
                    bound: clone_bound(&interval.lower),
                    direction: direction,
                };
                proof {
                    let hi = range_end(es, *interval);
                    let range = range_entries(es, *interval);
                    if r.current is Some {
                        assert(range[range.len() - 1] == es[hi - 1]);
                        lemma_rank_of_member(es, hi - 1);
                        assert(lower_index(es, r.bound) == lower_index(es, interval.lower));
                        assert(r.remaining() =~= range.reverse());
                    } else {
                        assert(r.remaining() =~= range.reverse());
                    }
                }
                r
            },
        }
    }
}

impl<'a> MutationIterator for MemStoreIterator<'a> {
    closed spec fn valid(&self) -> bool {
        self.inv()
    }

    closed spec fn inv(&self) -> bool {
        &&& self.memstore.inv()
        &&& match self.current {
            None => true,
            Some(c) => has_key(self.memstore.entries_view(), c@) && (match self.direction {
                Direction::Forward => under_upper(c@, self.bound),
                Direction::Backward => over_lower(c@, self.bound),
            }),
        }
    }

    closed spec fn remaining(&self) -> Seq<Item> {
        let es = self.memstore.entries_view();
        match self.current {
            None => Seq::empty(),
            Some(c) => match self.direction {
                Direction::Forward => {
                    let lo = rank(es, c@, false);
                    let hi = upper_index(es, self.bound);
                    es.subrange(
                        lo,
                        if hi < lo {
                            lo
                        } else {
                            hi
                        },
                    )
                },
                Direction::Backward => {
                    let hi = rank(es, c@, true);
                    let lo = lower_index(es, self.bound);
                    es.subrange(
                        if hi < lo {
                            hi
                        } else {
                            lo
                        },
                        hi,
                    ).reverse()
                },
            },
        }
    }

    closed spec fn budget(&self) -> nat {
        let es = self.memstore.entries_view();
        match self.current {
            None => 0,
            Some(c) => match self.direction {
                Direction::Forward => (es.len() - rank(es, c@, false)) as nat,
                Direction::Backward => rank(es, c@, true) as nat,
            },
        }
    }

    fn current_key(&self) -> (r: Result<Option<&[u8]>, Error>) {
        proof {
            if self.current is Some {
                self.lemma_cursor();
            }
        }
        Ok(self.current)
    }

    fn current_value(&mut self) -> (r: Result<Mutation, Error>) {
        proof {
            if self.current is Some {
                self.lemma_cursor();
            }
        }
        if let Some(key) = self.current {
            return match self.memstore.lookup(key) {
                Some(m) => Ok(m.clone()),
                None => mk_err("invalid MemStoreIterator"),
            };
        }
        mk_err("current_value called on empty MemStoreIterator")
    }

    fn step(&mut self) -> (r: Result<(), Error>) {
        proof {
            if self.current is Some {
                self.lemma_cursor();
            }
        }
        let cur: &[u8] = match self.current {
            Some(c) => c,
            None => {
                return mk_err("step past end");
            },
        };
        let ghost es = self.memstore.entries_view();
        proof {
            lemma_bound_indices(es, Interval { lower: self.bound, upper: self.bound });
        }
        match self.direction {
            Direction::Forward => {
                let next: usize = self.memstore.rank_index(cur, true);
                let hi: usize = self.memstore.upper_rank(&self.bound);
                if next < hi {
                    self.current = Some(self.memstore.entries[next].0.as_slice());
                    proof {
                        lemma_rank_of_member(es, next as int);
                        lemma_find_at(es, next as int);
                        assert(under_upper(es[next as int].0, self.bound));
                        assert(self.remaining() =~= old(self).remaining().skip(1));
                    }
                } else {
                    self.current = None;
                    proof {
                        assert(self.remaining() =~= old(self).remaining().skip(1));
                    }
                }
                Ok(())
            },
            Direction::Backward => {
                let end: usize = self.memstore.rank_index(cur, false);
                let lo: usize = self.memstore.lower_rank(&self.bound);
                if lo < end {
                    self.current = Some(self.memstore.entries[end - 1].0.as_slice());
                    proof {
                        lemma_rank_of_member(es, end - 1);
                        lemma_find_at(es, end - 1);
                        assert(over_lower(es[end - 1].0, self.bound));
                        assert(self.remaining() =~= old(self).remaining().skip(1));
                    }
                } else {
                    self.current = None;
                    proof {
                        assert(self.remaining() =~= old(self).remaining().skip(1));
                    }
                }
                Ok(())
            },
        }
    }
}

impl<'a> MemStoreIterator<'a> {
    /// Where a valid cursor stands: on the entry of its key, which is the
    /// first of the entries that remain.
    proof fn lemma_cursor(&self)
        requires
            self.valid(),
            self.current is Some,
        ensures
            self.remaining().len() > 0,
            self.remaining()[0].0 == self.current->Some_0@,
            find(self.memstore.entries_view(), self.current->Some_0@) == Some(
                self.remaining()[0].1,
            ),
            ({
                let es = self.memstore.entries_view();
                let i = rank(es, self.current->Some_0@, false);
                &&& 0 <= i < es.len()
                &&& es[i].0 == self.current->Some_0@
                &&& rank(es, self.current->Some_0@, true) == i + 1
                &&& self.direction == Direction::Forward ==> i < upper_index(es, self.bound)
                &&& self.direction == Direction::Backward ==> lower_index(es, self.bound) <= i
            }),
    {
        let es = self.memstore.entries_view();
        let c = self.current->Some_0@;
        let j = choose|j: int| 0 <= j < es.len() && #[trigger] es[j].0 == c;
        lemma_rank_of_member(es, j);
        lemma_find_at(es, j);
        lemma_bound_indices(es, Interval { lower: self.bound, upper: self.bound });
        match self.direction {
            Direction::Forward => {
                assert(under_upper(es[j].0, self.bound));
                assert(self.remaining()[0] == es[j]);
            },
            Direction::Backward => {
                assert(over_lower(es[j].0, self.bound));
                assert(self.remaining()[0] == es[j]);
            },
        }
    }
}

} // verus!

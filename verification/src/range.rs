//! Scans: the runs of the buffers and of the levels, merged, and what a
//! scan yields from them.

use vstd::prelude::*;
use std::collections::Bound;
use crate::directory::Directory;
use crate::disk::{is_table, is_table_of, table_items, TableIterator};
use crate::error::{Error, mk_err};
use crate::iter::{Direction, MutationIterator, MergeIterator, ConcatIterator, BoxedIterator,
    IteratorSource, merged, runs_of, ahead, concat_all};
use crate::levels::{Tables, hit, level_hit, level_lookup, levels_disjoint, lemma_level_top,
    holder_from_top, lemma_holder_from_top, levels_prefix, lemma_levels_prefix};
use crate::memstore::MemStoreIterator;
use crate::merging::{ordered, all_ordered, first_in_runs, lemma_merged, lemma_first_in_runs};
use crate::model::{find, sorted, range_entries, lemma_find_at, lemma_range_same};
use crate::planner::{ranges_overlap, range_meets, levels_apart};
use crate::scanning::{scan_run, inside, follow, lemma_scan_run, lemma_first_push, lemma_concat,
    lemma_first_append};
use crate::store::{Store, lemma_keys_in_range, lemma_tables_of_same};
use crate::toc::{TocView, TableInfo, TableInfoView, LevelNumber, infos_view, same_tables};
use crate::util::{Buf, Item, Mutation, MutationView, TableId, Interval, in_interval, copy_bytes,
    key_le, lex_le, lex_lt, above_lower_bound, below_upper_bound, over_lower, under_upper,
    clone_interval, same_interval, lemma_lex_trichotomy, lemma_lex_le_transitive};

verus! {

/// A cursor over a table as an iterator of any kind.
fn box_table_iterator(it: TableIterator) -> (r: BoxedIterator<'static>)
    ensures
        r.0.inv() == it.inv(),
        r.0.valid() == it.valid(),
        r.0.remaining() == it.remaining(),
        r.0.budget() == it.budget(),
{
    BoxedIterator(Box::new(it))
}

/// A cursor over a buffer as an iterator of any kind.
fn box_memstore_iterator<'a>(it: MemStoreIterator<'a>) -> (r: BoxedIterator<'a>)
    ensures
        r.0.inv() == it.inv(),
        r.0.valid() == it.valid(),
        r.0.remaining() == it.remaining(),
        r.0.budget() == it.budget(),
{
    BoxedIterator(Box::new(it))
}

impl Store {
    /// Adds a cursor over table `table_id` to `iters`.
    pub(crate) fn add_table_iter_to_iters<'a>(
        &self,
        iters: &mut Vec<BoxedIterator<'a>>,
        table_id: TableId,
        interval: &Interval<Buf>,
        direction: Direction,
    ) -> (r: Result<(), Error>)
        requires
            self.toc.inv(),
            forall|i: int| 0 <= i < old(iters)@.len() ==> (#[trigger] old(iters)@[i]).0.inv(),
        ensures
            forall|i: int| 0 <= i < final(iters)@.len() ==> (#[trigger] final(iters)@[i]).0.inv(),
            r is Ok ==> final(iters)@.len() == old(iters)@.len() + 1,
            r is Ok ==> forall|i: int|
                0 <= i < old(iters)@.len() ==> final(iters)@[i] == old(iters)@[i],
            r is Err ==> final(iters)@ == old(iters)@,
            self.tables_sound() && self.toc@.tables.contains_key(table_id.0) ==> r is Ok
                && final(iters)@.last().0.valid() && final(iters)@.last().0.remaining() == scan_run(
                self.tables()[table_id.0].items,
                *interval,
                direction,
            ),
    {
        let ti: &TableInfo = match self.toc.info(table_id.0) {
            Some(t) => t,
            None => {
                return mk_err("invalid toc");
            },
        };
        proof {
            self.lemma_tables();
        }
        let iter = match TableIterator::make(&self.directory, ti, interval, direction) {
            Ok(it) => it,
            Err(e) => {
                return Err(e);
            },
        };
        let boxed = box_table_iterator(iter);
        iters.push(boxed);
        Ok(())
    }
}

/// Whether a scan in direction `d` meets the first key of table `a` no
/// later than that of table `b`.
pub open spec fn starts_no_later(a: TableInfoView, b: TableInfoView, d: Direction) -> bool {
    match d {
        Direction::Forward => lex_le(a.smallest_key, b.smallest_key),
        Direction::Backward => lex_le(b.smallest_key, a.smallest_key),
    }
}

/// The tables are in the order in which a scan in direction `d` meets
/// their first keys.
pub open spec fn in_scan_order(ts: Seq<TableInfoView>, d: Direction) -> bool {
    forall|i: int, j: int| 0 <= i < j < ts.len() ==> starts_no_later(ts[i], ts[j], d)
}

/// The tables in the order in which a scan in direction `d` meets their
/// first keys.
fn sort_tables(tables: Vec<TableInfo>, d: Direction) -> (r: Vec<TableInfo>)
    ensures
        in_scan_order(infos_view(r@), d),
        infos_view(r@).to_multiset() == infos_view(tables@).to_multiset(),
{
    let mut out: Vec<TableInfo> = Vec::new();
    let mut i: usize = 0;
    proof {
        assert(infos_view(out@) =~= infos_view(tables@).take(0));
    }
    while i < tables.len()
        invariant
            0 <= i <= tables@.len(),
            in_scan_order(infos_view(out@), d),
            infos_view(out@).to_multiset() == infos_view(tables@).take(i as int).to_multiset(),
        decreases tables@.len() - i,
    {
        let t: TableInfo = tables[i].clone();
        // The place of `t`: behind the tables that start no later.
        let mut p: usize = 0;
        while p < out.len() && Store::starts_before(&out[p], &t, d)
            invariant
                0 <= p <= out@.len(),
                forall|k: int| 0 <= k < p ==> starts_no_later(#[trigger] out@[k]@, t@, d),
            decreases out@.len() - p,
        {
            p += 1;
        }
        let ghost before = infos_view(out@);
        let ghost tv = t@;
        proof {
            if p < out@.len() {
                lemma_lex_trichotomy(out@[p as int]@.smallest_key, tv.smallest_key);
            }
        }
        out.insert(p, t);
        proof {
            let after = infos_view(out@);
            assert(after =~= before.insert(p as int, tv));
            vstd::seq_lib::to_multiset_insert(before, p as int, tv);
            vstd::seq_lib::to_multiset_build(infos_view(tables@).take(i as int), tv);
            assert(infos_view(tables@).take(i + 1) =~= infos_view(tables@).take(i as int).push(tv));
            assert forall|a: int, b: int| 0 <= a < b < after.len() implies starts_no_later(
                after[a],
                after[b],
                d,
            ) by {
                if b == p {
                    assert(after[a] == before[a]);
                } else if a == p {
                    assert(after[b] == before[b - 1]);
                    if b - 1 > p {
                        assert(starts_no_later(before[p as int], before[b - 1], d));
                    }
                    lemma_lex_trichotomy(before[p as int].smallest_key, tv.smallest_key);
                    if d == Direction::Forward {
                        lemma_lex_le_transitive(
                            tv.smallest_key,
                            before[p as int].smallest_key,
                            before[b - 1].smallest_key,
                        );
                    } else {
                        lemma_lex_le_transitive(
                            before[b - 1].smallest_key,
                            before[p as int].smallest_key,
                            tv.smallest_key,
                        );
                    }
                } else {
                    let a0 = if a < p {
                        a
                    } else {
                        a - 1
                    };
                    let b0 = if b < p {
                        b
                    } else {
                        b - 1
                    };
                    assert(after[a] == before[a0]);
                    assert(after[b] == before[b0]);
                }
            }
        }
        i += 1;
    }
    proof {
        assert(infos_view(tables@).take(tables@.len() as int) =~= infos_view(tables@));
    }
    out
}

/// The steps that cursors over the tables `tables[i..]` can take, and one
/// more for each table.
pub open spec fn steps_left(dir: Directory, tables: Seq<TableInfo>, i: int) -> nat
    decreases tables.len() - i,
{
    if i < 0 || i >= tables.len() {
        0
    } else {
        2 * dir@.tables[tables[i].id.0].len() + 1 + steps_left(dir, tables, i + 1)
    }
}

/// The entries of the tables `ids` inside an interval, table by table, each
/// in the order in which a scan in direction `d` meets them.
pub open spec fn runs_in(t: Tables, ids: Seq<u64>, interval: Interval<Buf>, d: Direction) -> Seq<
    Seq<Item>,
> {
    Seq::new(ids.len(), |k: int| scan_run(t[ids[k]].items, interval, d))
}

/// The numbers of the tables `listed`.
pub open spec fn numbers_of(listed: Seq<TableInfo>) -> Seq<u64> {
    Seq::new(listed.len(), |i: int| listed[i].id.0)
}

/// The tables `ids` are the tables of level 0, the newest first.
pub open spec fn newest_first(toc: TocView, ids: Seq<u64>) -> bool {
    &&& forall|a: int, b: int| 0 <= a < b < ids.len() ==> ids[a] > ids[b]
    &&& ids.to_set() == toc.level_ids(0)
}

/// The tables `ids` are the tables of level `level` that reach into the
/// interval, each once, in the order in which a scan in direction `d` meets
/// their first keys.
pub open spec fn chained(
    toc: TocView,
    level: u64,
    interval: Interval<Buf>,
    d: Direction,
    ids: Seq<u64>,
) -> bool {
    &&& ids.no_duplicates()
    &&& forall|id: u64|
        ids.contains(id) <==> #[trigger] toc.level_ids(level).contains(id) && range_meets(
            toc.tables[id],
            interval,
        )
    &&& forall|a: int, b: int|
        0 <= a < b < ids.len() ==> starts_no_later(
            toc.tables[#[trigger] ids[a]],
            toc.tables[#[trigger] ids[b]],
            d,
        )
}

/// The run that a cursor over a table yields inside an interval.
pub open spec fn table_run(dir: Directory, ti: TableInfo, interval: Interval<Buf>, d: Direction) -> Seq<
    Item,
> {
    let run = range_entries(table_items(dir@.tables[ti.id.0], ti@), interval);
    match d {
        Direction::Forward => run,
        Direction::Backward => run.reverse(),
    }
}

/// Hands out cursors over tables, one table after the other.
pub struct TableSource<'a> {
    dir: &'a Directory,
    tables: Vec<TableInfo>,
    index: usize,
    interval: Interval<Buf>,
    direction: Direction,
}

impl<'a> IteratorSource for TableSource<'a> {
    closed spec fn inv(&self) -> bool {
        self.index <= self.tables@.len()
    }

    closed spec fn valid(&self) -> bool {
        &&& self.index <= self.tables@.len()
        &&& forall|i: int|
            self.index <= i < self.tables@.len() ==> self.dir@.tables.contains_key(
                (#[trigger] self.tables@[i]).id.0,
            ) && is_table(self.dir@.tables[self.tables@[i].id.0], self.tables@[i]@)
    }

    closed spec fn pending(&self) -> Seq<Seq<Item>> {
        Seq::new(
            (self.tables@.len() - self.index) as nat,
            |k: int| table_run(*self.dir, self.tables@[self.index + k], self.interval, self.direction),
        )
    }

    closed spec fn left(&self) -> nat {
        steps_left(*self.dir, self.tables@, self.index as int)
    }

    fn next_iterator(&mut self) -> (r: Result<Option<BoxedIterator<'static>>, Error>) {
        if self.index == self.tables.len() {
            return Ok(None);
        }
        let at: usize = self.index;
        self.index += 1;
        let it = match TableIterator::make(self.dir, &self.tables[at], &self.interval, self.direction) {
            Ok(it) => it,
            Err(e) => {
                return Err(e);
            },
        };
        proof {
            if old(self).valid() {
                assert(old(self).tables@[at as int].id.0 == self.tables@[at as int].id.0);
                assert(self.pending() =~= old(self).pending().skip(1));
                assert(old(self).pending()[0] == table_run(
                    *self.dir,
                    self.tables@[at as int],
                    self.interval,
                    self.direction,
                ));
            }
        }
        Ok(Some(box_table_iterator(it)))
    }
}

/// A chain of cursors over tables as an iterator of any kind.
fn box_concat_iterator<'a>(it: ConcatIterator<TableSource<'a>>) -> (r: BoxedIterator<'a>)
    ensures
        r.0.inv() == it.inv(),
        r.0.valid() == it.valid(),
        r.0.remaining() == it.remaining(),
        r.0.budget() == it.budget(),
{
    BoxedIterator(Box::new(it))
}

/// A scan of a store: what `range` and `range_descending` give, and `next`
/// moves.
pub struct StoreIter<'a> {
    interval: Interval<Buf>,
    iters: MergeIterator<'a>,
    direction: Direction,
}

/// Whether a scan in direction `d` of `interval` goes on at `key`.
pub open spec fn scan_goes_on(key: Seq<u8>, interval: Interval<Buf>, d: Direction) -> bool {
    match d {
        Direction::Forward => under_upper(key, interval.upper),
        Direction::Backward => over_lower(key, interval.lower),
    }
}

/// What a scan yields next from the entries `rem` that its iterator has
/// left: the first entry that is no tombstone, unless an entry beyond the
/// interval comes before; and the entries that the iterator has left then.
pub open spec fn scan_next(rem: Seq<Item>, interval: Interval<Buf>, d: Direction) -> (
    Option<(Seq<u8>, Seq<u8>)>,
    Seq<Item>,
)
    decreases rem.len(),
{
    if rem.len() == 0 {
        (None, rem)
    } else if !scan_goes_on(rem[0].0, interval, d) {
        (None, rem)
    } else {
        match rem[0].1 {
            MutationView::Put(v) => (Some((rem[0].0, v)), rem.skip(1)),
            MutationView::Delete => scan_next(rem.skip(1), interval, d),
        }
    }
}

/// A scan that finds no entry with a value leaves the entries that stand
/// at or beyond the end of the interval; one that finds one, leaves fewer
/// entries than there were.
pub proof fn lemma_scan_next(rem: Seq<Item>, interval: Interval<Buf>, d: Direction)
    ensures
        scan_next(rem, interval, d).1.len() <= rem.len(),
        scan_next(rem, interval, d).0 is Some ==> scan_next(rem, interval, d).1.len() < rem.len(),
    decreases rem.len(),
{
    if rem.len() > 0 && scan_goes_on(rem[0].0, interval, d) {
        lemma_scan_next(rem.skip(1), interval, d);
    }
}

/// All that a scan yields from the entries `rem`, call of `next` by call:
/// the keys with their values.
pub open spec fn scan_all(rem: Seq<Item>, interval: Interval<Buf>, d: Direction) -> Seq<
    (Seq<u8>, Seq<u8>),
>
    decreases rem.len(),
{
    match scan_next(rem, interval, d).0 {
        None => Seq::empty(),
        Some(kv) => {
            proof {
                lemma_scan_next(rem, interval, d);
            }
            seq![kv] + scan_all(scan_next(rem, interval, d).1, interval, d)
        },
    }
}

/// What a scan yields from ordered entries that all lie inside the
/// interval: the entries with a value, in their order.
pub proof fn lemma_scan_all(rem: Seq<Item>, interval: Interval<Buf>, d: Direction)
    requires
        ordered(rem, d),
        forall|p: int| 0 <= p < rem.len() ==> in_interval((#[trigger] rem[p]).0, interval),
    ensures
        forall|i: int, j: int|
            0 <= i < j < scan_all(rem, interval, d).len() ==> ahead(
                (#[trigger] scan_all(rem, interval, d)[i]).0,
                (#[trigger] scan_all(rem, interval, d)[j]).0,
                d,
            ),
        forall|i: int|
            0 <= i < scan_all(rem, interval, d).len() ==> find(
                rem,
                (#[trigger] scan_all(rem, interval, d)[i]).0,
            ) == Some(MutationView::Put(scan_all(rem, interval, d)[i].1)),
        forall|p: int|
            0 <= p < rem.len() && (#[trigger] rem[p]).1 is Put ==> exists|i: int|
                0 <= i < scan_all(rem, interval, d).len() && #[trigger] scan_all(
                    rem,
                    interval,
                    d,
                )[i] == (rem[p].0, rem[p].1->Put_0),
    decreases rem.len(),
{
    let out = scan_all(rem, interval, d);
    if rem.len() > 0 {
        let rest = rem.skip(1);
        assert(in_interval(rem[0].0, interval));
        assert(scan_goes_on(rem[0].0, interval, d));
        crate::merging::lemma_skip_ordered(rem, d);
        assert forall|p: int| 0 <= p < rest.len() implies in_interval(
            (#[trigger] rest[p]).0,
            interval,
        ) by {
            assert(rest[p] == rem[p + 1]);
        }
        lemma_scan_all(rest, interval, d);
        let sub = scan_all(rest, interval, d);
        lemma_scan_next(rem, interval, d);
        match rem[0].1 {
            MutationView::Put(v) => {
                assert(out == seq![(rem[0].0, v)] + sub);
                crate::merging::lemma_find_in_ordered(rem, d, 0);
                assert forall|i: int, j: int| 0 <= i < j < out.len() implies ahead(
                    (#[trigger] out[i]).0,
                    (#[trigger] out[j]).0,
                    d,
                ) by {
                    assert(out[j] == sub[j - 1]);
                    if i == 0 {
                        assert(find(rest, sub[j - 1].0) is Some);
                        let q = choose|q: int|
                            0 <= q < rest.len() && #[trigger] rest[q].0 == sub[j - 1].0;
                        assert(rest[q] == rem[q + 1]);
                        assert(ahead(rem[0].0, rem[q + 1].0, d));
                    } else {
                        assert(out[i] == sub[i - 1]);
                    }
                }
                assert forall|i: int| 0 <= i < out.len() implies find(rem, (#[trigger] out[i]).0)
                    == Some(MutationView::Put(out[i].1)) by {
                    if i > 0 {
                        assert(out[i] == sub[i - 1]);
                        assert(find(rest, sub[i - 1].0) is Some);
                        crate::merging::lemma_ahead_trichotomy(rem[0].0, rem[0].0, d);
                        if sub[i - 1].0 == rem[0].0 {
                            assert(find(rest, rem[0].0) is None);
                        }
                    }
                }
                assert forall|p: int| 0 <= p < rem.len() && (#[trigger] rem[p]).1 is Put implies exists|
                    i: int,
                | 0 <= i < out.len() && #[trigger] out[i] == (rem[p].0, rem[p].1->Put_0) by {
                    if p == 0 {
                        assert(out[0] == (rem[0].0, v));
                    } else {
                        assert(rest[p - 1] == rem[p]);
                        let i = choose|i: int|
                            0 <= i < sub.len() && #[trigger] sub[i] == (
                                rest[p - 1].0,
                                rest[p - 1].1->Put_0,
                            );
                        assert(out[i + 1] == sub[i]);
                    }
                }
            },
            MutationView::Delete => {
                assert(scan_next(rem, interval, d) == scan_next(rest, interval, d));
                assert(out == sub);
                assert forall|i: int| 0 <= i < out.len() implies find(rem, (#[trigger] out[i]).0)
                    == Some(MutationView::Put(out[i].1)) by {
                    assert(find(rest, sub[i].0) is Some);
                    if sub[i].0 == rem[0].0 {
                        assert(find(rest, rem[0].0) is None);
                    }
                }
                assert forall|p: int| 0 <= p < rem.len() && (#[trigger] rem[p]).1 is Put implies exists|
                    i: int,
                | 0 <= i < out.len() && #[trigger] out[i] == (rem[p].0, rem[p].1->Put_0) by {
                    assert(p > 0);
                    assert(rest[p - 1] == rem[p]);
                    let i = choose|i: int|
                        0 <= i < sub.len() && #[trigger] sub[i] == (
                            rest[p - 1].0,
                            rest[p - 1].1->Put_0,
                        );
                    assert(out[i] == sub[i]);
                }
            },
        }
    }
}

impl<'a> StoreIter<'a> {
    /// What holds of every scan that `range_directed` made.
    pub closed spec fn inv(&self) -> bool {
        self.iters.inv()
    }

    /// Whether the data under the scan is intact.
    pub closed spec fn valid(&self) -> bool {
        self.iters.valid()
    }

    /// The entries that the iterator under the scan has left, tombstones
    /// among them.
    pub closed spec fn remaining(&self) -> Seq<Item> {
        self.iters.remaining()
    }

    /// The interval of the scan.
    pub closed spec fn interval(&self) -> Interval<Buf> {
        self.interval
    }

    /// The direction of the scan.
    pub closed spec fn direction(&self) -> Direction {
        self.direction
    }
}

impl Store {
    /// Whether a scan in direction `d` meets the first key of `a` no later
    /// than that of `b`.
    fn starts_before(a: &TableInfo, b: &TableInfo, d: Direction) -> (r: bool)
        ensures
            r == starts_no_later(a@, b@, d),
    {
        match d {
            Direction::Forward => key_le(a.smallest_key.as_slice(), b.smallest_key.as_slice()),
            Direction::Backward => key_le(b.smallest_key.as_slice(), a.smallest_key.as_slice()),
        }
    }

    /// The entries of the buffers inside an interval, buffer by buffer, each
    /// in the order in which a scan in direction `d` meets them.
    pub open spec fn mem_runs(&self, interval: Interval<Buf>, d: Direction) -> Seq<Seq<Item>> {
        Seq::new(
            self.memstores@.len(),
            |i: int| scan_run(self.memstores@[i].entries_view(), interval, d),
        )
    }

    /// What the first `n` buffers record against `key`: what the first of
    /// them that holds the key records.
    pub open spec fn mem_prefix(&self, key: Seq<u8>, n: int) -> Option<MutationView>
        decreases n,
    {
        if n <= 0 || n > self.memstores@.len() {
            None
        } else {
            match self.mem_prefix(key, n - 1) {
                Some(m) => Some(m),
                None => self.memstores@[n - 1].lookup_spec(key),
            }
        }
    }

    /// What the buffers record is what the first buffers record, and where
    /// they record nothing, what the buffers behind them record.
    pub proof fn lemma_mem_prefix(&self, key: Seq<u8>, n: int)
        requires
            0 <= n <= self.memstores@.len(),
        ensures
            self.mem_lookup_from(key, 0) == (match self.mem_prefix(key, n) {
                Some(m) => Some(m),
                None => self.mem_lookup_from(key, n),
            }),
        decreases n,
    {
        if n > 0 {
            self.lemma_mem_prefix(key, n - 1);
        }
    }

    /// Adds a cursor over each buffer to `iters`.
    fn add_memstores<'a>(
        &'a self,
        iters: &mut Vec<BoxedIterator<'a>>,
        interval: &Interval<Buf>,
        direction: Direction,
    )
        requires
            self.inv(),
            old(iters)@.len() == 0,
        ensures
            final(iters)@.len() == self.memstores@.len(),
            runs_of(final(iters)@) == self.mem_runs(*interval, direction),
            forall|i: int|
                0 <= i < final(iters)@.len() ==> (#[trigger] final(iters)@[i]).0.inv()
                    && final(iters)@[i].0.valid(),
    {
        let mut m: usize = 0;
        proof {
            assert(runs_of(iters@) =~= self.mem_runs(*interval, direction).take(0));
        }
        while m < self.memstores.len()
            invariant
                self.inv(),
                0 <= m <= self.memstores@.len(),
                iters@.len() == m,
                runs_of(iters@) == self.mem_runs(*interval, direction).take(m as int),
                forall|i: int|
                    0 <= i < iters@.len() ==> (#[trigger] iters@[i]).0.inv() && iters@[i].0.valid(),
            decreases self.memstores@.len() - m,
        {
            assert(self.memstores@[m as int].inv());
            let it = MemStoreIterator::make(&self.memstores[m], interval, direction);
            let boxed = box_memstore_iterator(it);
            let ghost before = iters@;
            let ghost run = boxed.0.remaining();
            iters.push(boxed);
            proof {
                let es = self.memstores@[m as int].entries_view();
                assert(run == scan_run(es, *interval, direction));
                assert(runs_of(iters@) =~= runs_of(before).push(run));
                assert(runs_of(iters@) =~= self.mem_runs(*interval, direction).take(m + 1));
                assert forall|i: int| 0 <= i < iters@.len() implies (#[trigger] iters@[i]).0.inv()
                    && iters@[i].0.valid() by {
                    if i < m {
                        assert(iters@[i] == before[i]);
                    }
                }
            }
            m += 1;
        }
        proof {
            assert(self.mem_runs(*interval, direction).take(self.memstores@.len() as int)
                =~= self.mem_runs(*interval, direction));
        }
    }

    /// Adds a cursor over each table of level 0 to `iters`, the newest
    /// table first. `ids` are the tables of level 0, ascending.
    fn add_level_zero<'a>(
        &self,
        iters: &mut Vec<BoxedIterator<'a>>,
        ids: &Vec<u64>,
        interval: &Interval<Buf>,
        direction: Direction,
    ) -> (r: Result<(), Error>)
        requires
            self.toc.inv(),
            forall|i: int| 0 <= i < old(iters)@.len() ==> (#[trigger] old(iters)@[i]).0.inv(),
            ids@.to_set() == self.toc@.level_ids(0),
            forall|a: int, b: int| 0 <= a < b < ids@.len() ==> ids@[a] < ids@[b],
        ensures
            forall|i: int| 0 <= i < final(iters)@.len() ==> (#[trigger] final(iters)@[i]).0.inv(),
            self.tables_sound() ==> r is Ok && final(iters)@.len() >= old(iters)@.len()
                && final(iters)@.take(old(iters)@.len() as int) == old(iters)@,
            self.tables_sound() ==> forall|i: int|
                old(iters)@.len() <= i < final(iters)@.len() ==> (
                #[trigger] final(iters)@[i]).0.valid(),
            self.tables_sound() ==> runs_of(final(iters)@.skip(old(iters)@.len() as int))
                == runs_in(self.tables(), ids@.reverse(), *interval, direction),
    {
        let ghost sound = self.tables_sound();
        let ghost t = self.tables();
        let ghost base = iters@.len() as int;
        let ghost olds = iters@;
        let mut j: usize = ids.len();
        proof {
            assert(iters@.take(base) =~= olds);
            assert(runs_of(iters@.skip(base)) =~= Seq::<Seq<Item>>::empty());
            assert(runs_in(t, ids@.reverse(), *interval, direction).take(0) =~= Seq::<
                Seq<Item>,
            >::empty());
        }
        while j > 0
            invariant
                self.toc.inv(),
                sound == self.tables_sound(),
                t == self.tables(),
                base == old(iters)@.len(),
                olds == old(iters)@,
                0 <= j <= ids@.len(),
                ids@.to_set() == self.toc@.level_ids(0),
                forall|i: int| 0 <= i < iters@.len() ==> (#[trigger] iters@[i]).0.inv(),
                sound ==> iters@.len() == base + (ids@.len() - j) && iters@.take(base) == olds,
                sound ==> forall|i: int|
                    base <= i < iters@.len() ==> (#[trigger] iters@[i]).0.valid(),
                sound ==> runs_of(iters@.skip(base)) == runs_in(
                    t,
                    ids@.reverse(),
                    *interval,
                    direction,
                ).take(ids@.len() - j),
            decreases j,
        {
            j -= 1;
            let ghost before = iters@;
            proof {
                assert(ids@.to_set().contains(ids@[j as int]));
                assert(self.toc@.level_ids(0).contains(ids@[j as int]));
            }
            match self.add_table_iter_to_iters(iters, TableId(ids[j]), interval, direction) {
                Ok(_) => {},
                Err(e) => {
                    return Err(e);
                },
            }
            proof {
                if sound {
                    let id = ids@[j as int];
                    let run = scan_run(t[id].items, *interval, direction);
                    assert(iters@.take(base) =~= before.take(base));
                    assert(runs_of(iters@.skip(base)) =~= runs_of(before.skip(base)).push(run)) by {
                        assert(iters@.skip(base) =~= before.skip(base).push(iters@.last()));
                    }
                    assert(runs_of(iters@.skip(base)) =~= runs_in(
                        t,
                        ids@.reverse(),
                        *interval,
                        direction,
                    ).take(ids@.len() - j)) by {
                        assert(ids@.reverse()[ids@.len() - 1 - j] == id);
                    }
                    assert forall|i: int| base <= i < iters@.len() implies (
                    #[trigger] iters@[i]).0.valid() by {
                        if i < before.len() {
                            assert(iters@[i] == before[i]);
                        }
                    }
                }
            }
        }
        proof {
            if sound {
                assert(runs_in(t, ids@.reverse(), *interval, direction).take(ids@.len() as int)
                    =~= runs_in(t, ids@.reverse(), *interval, direction));
            }
        }
        Ok(())
    }

    /// From level 1 on, the key ranges of the tables of a level do not
    /// overlap.
    pub open spec fn ranges_apart(&self) -> bool {
        levels_apart(self.toc@)
    }

    /// A chain of cursors over the tables of a level from 1 on that reach
    /// into the interval, in the order in which the scan meets them. `ids`
    /// are the tables of the level, ascending.
    fn level_chain<'a>(
        &'a self,
        level: LevelNumber,
        ids: &Vec<u64>,
        interval: &Interval<Buf>,
        direction: Direction,
    ) -> (r: Result<BoxedIterator<'a>, Error>)
        requires
            self.toc.inv(),
            level >= 1,
            ids@.to_set() == self.toc@.level_ids(level),
            forall|a: int, b: int| 0 <= a < b < ids@.len() ==> ids@[a] < ids@[b],
        ensures
            r matches Ok(b) ==> b.0.inv(),
            self.tables_sound() ==> r is Ok && r->Ok_0.0.valid(),
            self.tables_sound() ==> exists|pick: Seq<u64>| #[trigger]
                chained(self.toc@, level, *interval, direction, pick) && r->Ok_0.0.remaining()
                    == concat_all(runs_in(self.tables(), pick, *interval, direction)),
    {
        let ghost sound = self.tables_sound();
        let mut table_infos: Vec<TableInfo> = Vec::new();
        let ghost mut picked: Seq<u64> = Seq::empty();
        let mut j: usize = 0;
        while j < ids.len()
            invariant
                self.toc.inv(),
                0 <= j <= ids@.len(),
                ids@.to_set() == self.toc@.level_ids(level),
                forall|a: int, b: int| 0 <= a < b < ids@.len() ==> ids@[a] < ids@[b],
                picked.len() == table_infos@.len(),
                forall|q: int|
                    0 <= q < picked.len() ==> self.toc@.level_ids(level).contains(
                        #[trigger] picked[q],
                    ) && table_infos@[q]@ == self.toc@.tables[picked[q]] && range_meets(
                        table_infos@[q]@,
                        *interval,
                    ),
                forall|q: int|
                    0 <= q < picked.len() ==> exists|k: int|
                        0 <= k < j && ids@[k] == #[trigger] picked[q],
                forall|a: int, b: int| 0 <= a < b < picked.len() ==> picked[a] < picked[b],
                forall|k: int|
                    0 <= k < j && range_meets(self.toc@.tables[#[trigger] ids@[k]], *interval)
                        ==> picked.contains(ids@[k]),
            decreases ids@.len() - j,
        {
            let ghost before = picked;
            proof {
                assert(ids@.to_set().contains(ids@[j as int]));
                assert(self.toc@.level_ids(level).contains(ids@[j as int]));
            }
            match self.toc.info(ids[j]) {
                Some(table_info) => {
                    if Store::table_overlaps_interval(table_info, interval) {
                        let ghost infos_before = table_infos@;
                        table_infos.push(table_info.clone());
                        proof {
                            picked = before.push(ids@[j as int]);
                            assert forall|q: int| 0 <= q < picked.len() implies self.toc@.level_ids(
                                level,
                            ).contains(#[trigger] picked[q]) && table_infos@[q]@
                                == self.toc@.tables[picked[q]] && range_meets(
                                table_infos@[q]@,
                                *interval,
                            ) by {
                                if q < before.len() {
                                    assert(picked[q] == before[q]);
                                    assert(table_infos@[q] == infos_before[q]);
                                }
                            }
                            assert forall|a: int, b: int|
                                0 <= a < b < picked.len() implies picked[a] < picked[b] by {
                                if b == picked.len() - 1 {
                                    let k = choose|k: int| 0 <= k < j && ids@[k] == before[a];
                                    assert(ids@[k] < ids@[j as int]);
                                }
                            }
                            assert(picked[picked.len() - 1] == ids@[j as int]);
                        }
                    }
                },
                None => {
                    return mk_err("invalid toc");
                },
            }
            proof {
                assert forall|k: int|
                    0 <= k < j + 1 && range_meets(
                        self.toc@.tables[#[trigger] ids@[k]],
                        *interval,
                    ) implies picked.contains(ids@[k]) by {
                    if k < j {
                        assert(before.contains(ids@[k]));
                        let q = choose|q: int| 0 <= q < before.len() && before[q] == ids@[k];
                        assert(picked[q] == ids@[k]);
                    } else {
                        assert(picked[picked.len() - 1] == ids@[k]);
                    }
                }
                assert forall|q: int| 0 <= q < picked.len() implies exists|k: int|
                    0 <= k < j + 1 && ids@[k] == #[trigger] picked[q] by {
                    if q < before.len() {
                        let k = choose|k: int| 0 <= k < j && ids@[k] == before[q];
                        assert(0 <= k < j + 1 && ids@[k] == picked[q]);
                    } else {
                        assert(ids@[j as int] == picked[q]);
                    }
                }
            }
            j += 1;
        }
        let ghost chosen = infos_view(table_infos@);
        let sorted_infos: Vec<TableInfo> = sort_tables(table_infos, direction);
        let ghost listed = sorted_infos@;
        let own = clone_interval(interval);
        let source = TableSource {
            dir: &self.directory,
            tables: sorted_infos,
            index: 0,
            interval: own,
            direction: direction,
        };
        proof {
            if sound {
                self.lemma_chain(level, ids@, picked, chosen, listed, *interval, own, direction);
                assert(source.valid());
            }
        }
        let ghost pending = source.pending();
        proof {
            assert(pending =~= self.chain_runs(listed, own, direction));
        }
        let concat = match ConcatIterator::make(source) {
            Ok(c) => c,
            Err(e) => {
                return Err(e);
            },
        };
        Ok(box_concat_iterator(concat))
    }

    /// What the runs of the listed tables of a level are.
    pub open spec fn chain_runs(
        &self,
        listed: Seq<TableInfo>,
        interval: Interval<Buf>,
        d: Direction,
    ) -> Seq<Seq<Item>> {
        Seq::new(listed.len(), |k: int| table_run(self.directory, listed[k], interval, d))
    }

    /// The tables that a chain over a level lists are the tables of the
    /// level that reach into the interval, each once, in the order in which
    /// a scan meets their first keys; and the chain holds their runs.
    proof fn lemma_chain(
        &self,
        level: u64,
        ids: Seq<u64>,
        picked: Seq<u64>,
        chosen: Seq<TableInfoView>,
        listed: Seq<TableInfo>,
        interval: Interval<Buf>,
        own: Interval<Buf>,
        d: Direction,
    )
        requires
            self.toc.inv(),
            self.tables_sound(),
            level >= 1,
            same_interval(own, interval),
            ids.to_set() == self.toc@.level_ids(level),
            picked.len() == chosen.len(),
            forall|q: int|
                0 <= q < picked.len() ==> self.toc@.level_ids(level).contains(#[trigger] picked[q])
                    && chosen[q] == self.toc@.tables[picked[q]] && range_meets(
                    chosen[q],
                    interval,
                ),
            forall|a: int, b: int| 0 <= a < b < picked.len() ==> picked[a] < picked[b],
            forall|k: int|
                0 <= k < ids.len() && range_meets(self.toc@.tables[#[trigger] ids[k]], interval)
                    ==> picked.contains(ids[k]),
            in_scan_order(infos_view(listed), d),
            infos_view(listed).to_multiset() == chosen.to_multiset(),
        ensures
            forall|i: int|
                0 <= i < listed.len() ==> self.directory@.tables.contains_key(
                    (#[trigger] listed[i]).id.0,
                ) && is_table(self.directory@.tables[listed[i].id.0], listed[i]@),
            chained(self.toc@, level, interval, d, numbers_of(listed)),
            self.chain_runs(listed, own, d) == runs_in(
                self.tables(),
                numbers_of(listed),
                interval,
                d,
            ),
    {
        self.lemma_tables();
        let t = self.tables();
        let lv = infos_view(listed);
        let runs = self.chain_runs(listed, own, d);
        let nums = numbers_of(listed);
        // The listed tables are the chosen tables, each once.
        assert(chosen.no_duplicates()) by {
            assert forall|a: int, b: int| 0 <= a < chosen.len() && 0 <= b < chosen.len() && a
                != b implies chosen[a] != chosen[b] by {
                assert(self.toc.table_infos@.contains_key(picked[a]));
                assert(self.toc.table_infos@.contains_key(picked[b]));
                assert(chosen[a].id == picked[a]);
                assert(chosen[b].id == picked[b]);
                if a < b {
                    assert(picked[a] < picked[b]);
                } else {
                    assert(picked[b] < picked[a]);
                }
            }
        }
        chosen.lemma_multiset_has_no_duplicates();
        lv.lemma_multiset_has_no_duplicates_conv();
        assert forall|x: TableInfoView| lv.contains(x) == chosen.contains(x) by {
            vstd::seq_lib::to_multiset_contains(lv, x);
            vstd::seq_lib::to_multiset_contains(chosen, x);
        }
        assert forall|i: int| 0 <= i < listed.len() implies self.toc@.tables.contains_key(
            (#[trigger] listed[i]).id.0,
        ) && listed[i]@ == self.toc@.tables[listed[i].id.0] && self.toc@.tables[listed[i].id.0].level
            == level && range_meets(listed[i]@, interval) by {
            assert(lv[i] == listed[i]@);
            assert(lv.contains(lv[i]));
            assert(chosen.contains(lv[i]));
            let q = choose|q: int| 0 <= q < chosen.len() && chosen[q] == lv[i];
            assert(self.toc@.level_ids(level).contains(picked[q]));
            assert(self.toc.table_infos@.contains_key(picked[q]));
            assert(chosen[q].id == picked[q]);
        }
        assert forall|i: int| 0 <= i < listed.len() implies self.directory@.tables.contains_key(
            (#[trigger] listed[i]).id.0,
        ) && is_table(self.directory@.tables[listed[i].id.0], listed[i]@) by {
            assert(self.toc@.tables.contains_key(listed[i].id.0));
        }
        // The numbers of the listed tables.
        assert(nums.no_duplicates()) by {
            assert forall|i: int, j: int| 0 <= i < nums.len() && 0 <= j < nums.len() && i
                != j implies nums[i] != nums[j] by {
                if nums[i] == nums[j] {
                    assert(listed[i]@ == self.toc@.tables[listed[i].id.0]);
                    assert(listed[j]@ == self.toc@.tables[listed[j].id.0]);
                    assert(lv[i] == lv[j]);
                }
            }
        }
        assert forall|id: u64|
            nums.contains(id) <==> #[trigger] self.toc@.level_ids(level).contains(id) && range_meets(
                self.toc@.tables[id],
                interval,
            ) by {
            if nums.contains(id) {
                let i = choose|i: int| 0 <= i < nums.len() && nums[i] == id;
                assert(listed[i].id.0 == id);
                assert(listed[i]@ == self.toc@.tables[listed[i].id.0]);
            }
            if self.toc@.level_ids(level).contains(id) && range_meets(
                self.toc@.tables[id],
                interval,
            ) {
                assert(ids.to_set().contains(id));
                let k = choose|k: int| 0 <= k < ids.len() && ids[k] == id;
                assert(picked.contains(ids[k]));
                let q = choose|q: int| 0 <= q < picked.len() && picked[q] == id;
                assert(chosen.contains(chosen[q]));
                assert(lv.contains(chosen[q]));
                let i = choose|i: int| 0 <= i < lv.len() && lv[i] == chosen[q];
                assert(lv[i] == listed[i]@);
                assert(self.toc.table_infos@.contains_key(picked[q]));
                assert(listed[i].id.0 == id);
                assert(nums[i] == id);
            }
        }
        assert forall|a: int, b: int| 0 <= a < b < nums.len() implies starts_no_later(
            self.toc@.tables[#[trigger] nums[a]],
            self.toc@.tables[#[trigger] nums[b]],
            d,
        ) by {
            assert(listed[a]@ == self.toc@.tables[listed[a].id.0]);
            assert(listed[b]@ == self.toc@.tables[listed[b].id.0]);
            assert(starts_no_later(lv[a], lv[b], d));
        }
        assert(runs =~= runs_in(t, nums, interval, d)) by {
            assert forall|i: int| 0 <= i < runs.len() implies runs[i] == runs_in(
                t,
                nums,
                interval,
                d,
            )[i] by {
                let id = listed[i].id.0;
                assert(self.toc@.tables.contains_key(id));
                lemma_range_same(t[id].items, own, interval);
            }
        }
    }

    /// A table that holds a key inside an interval reaches into the
    /// interval.
    proof fn lemma_meets(ti: TableInfoView, key: Seq<u8>, interval: Interval<Buf>)
        requires
            lex_le(ti.smallest_key, key),
            lex_le(key, ti.biggest_key),
            in_interval(key, interval),
        ensures
            range_meets(ti, interval),
    {
        match interval.lower {
            Bound::Unbounded => {},
            Bound::Included(s) => {
                lemma_lex_le_transitive(s@, key, ti.biggest_key);
            },
            Bound::Excluded(s) => {
                lemma_lex_le_transitive(s@, key, ti.biggest_key);
            },
        }
        match interval.upper {
            Bound::Unbounded => {},
            Bound::Included(s) => {
                lemma_lex_le_transitive(ti.smallest_key, key, s@);
            },
            Bound::Excluded(s) => {
                lemma_lex_le_transitive(ti.smallest_key, key, s@);
            },
        }
    }

    /// What the buffers and the first `n` of the levels `levels` record
    /// against a key.
    pub open spec fn lookup_upto(&self, levels: Seq<u64>, n: int, key: Seq<u8>) -> Option<
        MutationView,
    > {
        match self.mem_lookup_from(key, 0) {
            Some(m) => Some(m),
            None => levels_prefix(self.tables(), levels, n, key),
        }
    }

    /// What a merge of the runs of a scan yields, where the runs record
    /// against a key what the buffers and the levels record.
    proof fn lemma_scan_total(
        &self,
        levels: Seq<u64>,
        runs: Seq<Seq<Item>>,
        d: Direction,
        interval: Interval<Buf>,
    )
        requires
            self.inv(),
            levels.to_set() == self.toc@.levels,
            forall|a: int, b: int| 0 <= a < b < levels.len() ==> levels[a] < levels[b],
            all_ordered(runs, d),
            forall|key: Seq<u8>|
                #[trigger] first_in_runs(runs, 0, key) == inside(
                    self.lookup_upto(levels, levels.len() as int, key),
                    key,
                    interval,
                ),
        ensures
            ordered(merged(runs, d), d),
            forall|key: Seq<u8>|
                #[trigger] find(merged(runs, d), key) == inside(self.lookup(key), key, interval),
    {
        let t = self.tables();
        lemma_merged(runs, d);
        self.lemma_tables();
        assert forall|id: u64| t.contains_key(id) implies levels.contains(#[trigger] t[id].level) by {
            assert(self.toc.table_infos@.contains_key(id));
            assert(self.toc.level_infos@.contains_key(self.toc.table_infos@[id].level));
            assert(self.toc@.levels.contains(t[id].level));
            assert(levels.to_set().contains(t[id].level));
        }
        assert forall|key: Seq<u8>|
            #[trigger] find(merged(runs, d), key) == inside(self.lookup(key), key, interval) by {
            lemma_levels_prefix(t, levels, levels.len() as int, key);
            assert(find(merged(runs, d), key) == first_in_runs(runs, 0, key));
            assert(first_in_runs(runs, 0, key) == inside(
                self.lookup_upto(levels, levels.len() as int, key),
                key,
                interval,
            ));
        }
    }

    /// The runs that a scan merges: those of the buffers, and then, level by
    /// level, those of the tables that `picks` names for the level. Each
    /// table of level 0 gives a run of its own; the runs of the tables of a
    /// level from 1 on are chained into one run.
    pub open spec fn scan_sources(
        &self,
        levels: Seq<u64>,
        picks: Seq<Seq<u64>>,
        interval: Interval<Buf>,
        d: Direction,
    ) -> Seq<Seq<Item>>
        decreases picks.len(),
    {
        if picks.len() == 0 {
            self.mem_runs(interval, d)
        } else {
            let before = self.scan_sources(levels, picks.drop_last(), interval, d);
            let runs = runs_in(self.tables(), picks.last(), interval, d);
            if levels[picks.len() - 1] == 0 {
                before + runs
            } else {
                before.push(concat_all(runs))
            }
        }
    }

    /// `picks` names for each of the first levels of `levels` the tables
    /// that a scan reads, in the order in which it reads them: of level 0
    /// all tables, the newest first; of a level from 1 on the tables that
    /// reach into the interval, in the order in which the scan meets their
    /// first keys.
    pub open spec fn scan_picks(
        &self,
        levels: Seq<u64>,
        picks: Seq<Seq<u64>>,
        interval: Interval<Buf>,
        d: Direction,
    ) -> bool {
        &&& levels.to_set() == self.toc@.levels
        &&& forall|a: int, b: int| 0 <= a < b < levels.len() ==> levels[a] < levels[b]
        &&& picks.len() <= levels.len()
        &&& forall|i: int|
            0 <= i < picks.len() ==> if levels[i] == 0 {
                newest_first(self.toc@, #[trigger] picks[i])
            } else {
                chained(self.toc@, levels[i], interval, d, picks[i])
            }
    }

    /// The entries `rem` are what a scan of `interval` in direction `d`
    /// holds: the merge of the runs of the buffers and of the levels.
    pub open spec fn scanned(&self, interval: Interval<Buf>, d: Direction, rem: Seq<Item>) -> bool {
        exists|levels: Seq<u64>, picks: Seq<Seq<u64>>| #[trigger]
            self.scan_picks(levels, picks, interval, d) && picks.len() == levels.len() && rem
                == merged(self.scan_sources(levels, picks, interval, d), d)
    }

    /// The runs of the first `n` buffers are ordered, and record against a
    /// key inside the interval what these buffers record.
    proof fn lemma_mem_runs(&self, interval: Interval<Buf>, d: Direction, n: int)
        requires
            self.inv(),
            0 <= n <= self.memstores@.len(),
        ensures
            all_ordered(self.mem_runs(interval, d).take(n), d),
            forall|key: Seq<u8>|
                #[trigger] first_in_runs(self.mem_runs(interval, d).take(n), 0, key) == inside(
                    self.mem_prefix(key, n),
                    key,
                    interval,
                ),
        decreases n,
    {
        let runs = self.mem_runs(interval, d).take(n);
        if n > 0 {
            self.lemma_mem_runs(interval, d, n - 1);
            let less = self.mem_runs(interval, d).take(n - 1);
            let es = self.memstores@[n - 1].entries_view();
            let run = scan_run(es, interval, d);
            assert(self.memstores@[n - 1].inv());
            lemma_scan_run(es, interval, d);
            assert(runs =~= less.push(run));
            assert forall|r: int| 0 <= r < runs.len() implies ordered(#[trigger] runs[r], d) by {
                if r < n - 1 {
                    assert(runs[r] == less[r]);
                }
            }
            assert forall|key: Seq<u8>|
                #[trigger] first_in_runs(runs, 0, key) == inside(
                    self.mem_prefix(key, n),
                    key,
                    interval,
                ) by {
                lemma_first_push(less, run, 0, key);
                assert(first_in_runs(less, 0, key) == inside(
                    self.mem_prefix(key, n - 1),
                    key,
                    interval,
                ));
            }
        }
    }

    /// The runs of the tables of level 0, the newest first, are ordered,
    /// and record against a key inside the interval what the level records.
    proof fn lemma_zero_runs(&self, pick: Seq<u64>, interval: Interval<Buf>, d: Direction, n: int)
        requires
            self.toc.inv(),
            self.tables_sound(),
            newest_first(self.toc@, pick),
            0 <= n <= pick.len(),
        ensures
            all_ordered(runs_in(self.tables(), pick, interval, d), d),
            forall|key: Seq<u8>|
                #[trigger] first_in_runs(
                    runs_in(self.tables(), pick, interval, d).take(n),
                    0,
                    key,
                ) == inside(holder_from_top(self.tables(), pick.reverse(), n, key), key, interval),
            n == pick.len() ==> forall|key: Seq<u8>|
                #[trigger] first_in_runs(runs_in(self.tables(), pick, interval, d), 0, key)
                    == inside(level_lookup(self.tables(), 0, key), key, interval),
        decreases n,
    {
        self.lemma_tables();
        let t = self.tables();
        let all = runs_in(t, pick, interval, d);
        let ids = pick.reverse();
        assert forall|i: int| 0 <= i < pick.len() implies t.contains_key(#[trigger] pick[i])
            && t[pick[i]].level == 0 && sorted(t[pick[i]].items) by {
            assert(pick.to_set().contains(pick[i]));
            assert(self.toc@.level_ids(0).contains(pick[i]));
            let id = pick[i];
            assert(is_table(self.directory@.tables[id], self.toc@.tables[id]));
            assert(is_table_of(
                self.directory@.tables[id],
                self.toc@.tables[id],
                table_items(self.directory@.tables[id], self.toc@.tables[id]),
            ));
        }
        assert forall|r: int| 0 <= r < all.len() implies ordered(#[trigger] all[r], d) by {
            lemma_scan_run(t[pick[r]].items, interval, d);
        }
        if n > 0 {
            self.lemma_zero_runs(pick, interval, d, n - 1);
            let less = all.take(n - 1);
            let run = all[n - 1];
            assert(all.take(n) =~= less.push(run));
            assert(ids[ids.len() - n] == pick[n - 1]);
            lemma_scan_run(t[pick[n - 1]].items, interval, d);
            assert forall|key: Seq<u8>|
                #[trigger] first_in_runs(all.take(n), 0, key) == inside(
                    holder_from_top(t, ids, n, key),
                    key,
                    interval,
                ) by {
                lemma_first_push(less, run, 0, key);
                assert(first_in_runs(less, 0, key) == inside(
                    holder_from_top(t, ids, n - 1, key),
                    key,
                    interval,
                ));
            }
        }
        if n == pick.len() {
            assert(all.take(n) =~= all);
            assert forall|a: int, b: int| 0 <= a < b < ids.len() implies ids[a] < ids[b] by {
                assert(ids[a] == pick[pick.len() - 1 - a]);
                assert(ids[b] == pick[pick.len() - 1 - b]);
            }
            assert forall|i: int| 0 <= i < ids.len() implies t.contains_key(#[trigger] ids[i])
                && t[ids[i]].level == 0 by {
                assert(ids[i] == pick[pick.len() - 1 - i]);
            }
            assert forall|id: u64| t.contains_key(id) && t[id].level == 0 implies ids.contains(
                id,
            ) by {
                assert(self.toc@.level_ids(0).contains(id));
                assert(pick.to_set().contains(id));
                let a = choose|a: int| 0 <= a < pick.len() && pick[a] == id;
                assert(ids[pick.len() - 1 - a] == id);
            }
            assert forall|key: Seq<u8>|
                #[trigger] first_in_runs(all, 0, key) == inside(
                    level_lookup(t, 0, key),
                    key,
                    interval,
                ) by {
                lemma_holder_from_top(t, 0, ids, n, key);
                assert(first_in_runs(all.take(n), 0, key) == inside(
                    holder_from_top(t, ids, n, key),
                    key,
                    interval,
                ));
            }
        }
    }

    /// Of two tables of a level from 1 on whose ranges do not overlap, every
    /// key of the one that a scan meets first is ahead of every key of the
    /// other.
    proof fn lemma_apart(&self, a: u64, b: u64, d: Direction, ka: Seq<u8>, kb: Seq<u8>)
        requires
            self.tables_sound(),
            self.ranges_apart(),
            self.toc@.tables.contains_key(a),
            self.toc@.tables.contains_key(b),
            a != b,
            self.toc@.tables[a].level == self.toc@.tables[b].level,
            self.toc@.tables[a].level >= 1,
            starts_no_later(self.toc@.tables[a], self.toc@.tables[b], d),
            find(self.tables()[a].items, ka) is Some,
            find(self.tables()[b].items, kb) is Some,
        ensures
            ahead(ka, kb, d),
    {
        self.lemma_tables();
        let ia = self.toc@.tables[a];
        let ib = self.toc@.tables[b];
        let ea = self.tables()[a].items;
        let eb = self.tables()[b].items;
        assert(is_table(self.directory@.tables[a], ia));
        assert(is_table(self.directory@.tables[b], ib));
        assert(is_table_of(self.directory@.tables[a], ia, ea));
        assert(is_table_of(self.directory@.tables[b], ib, eb));
        lemma_keys_in_range(ea, ka);
        lemma_keys_in_range(eb, kb);
        lemma_find_at(ea, 0);
        lemma_keys_in_range(ea, ea.first().0);
        lemma_find_at(eb, 0);
        lemma_keys_in_range(eb, eb.first().0);
        assert(!ranges_overlap(ia, ib));
        match d {
            Direction::Forward => {
                if lex_lt(ib.biggest_key, ia.smallest_key) {
                    lemma_lex_le_transitive(ia.smallest_key, ib.smallest_key, ib.biggest_key);
                    lemma_lex_le_transitive(ia.smallest_key, ib.biggest_key, ia.smallest_key);
                    lemma_lex_trichotomy(ia.smallest_key, ia.smallest_key);
                }
                lemma_lex_le_transitive(ka, ia.biggest_key, ib.smallest_key);
                lemma_lex_le_transitive(ka, ib.smallest_key, kb);
            },
            Direction::Backward => {
                if lex_lt(ia.biggest_key, ib.smallest_key) {
                    lemma_lex_le_transitive(ib.smallest_key, ia.smallest_key, ia.biggest_key);
                    lemma_lex_le_transitive(ib.smallest_key, ia.biggest_key, ib.smallest_key);
                    lemma_lex_trichotomy(ib.smallest_key, ib.smallest_key);
                }
                lemma_lex_le_transitive(kb, ib.biggest_key, ia.smallest_key);
                lemma_lex_le_transitive(kb, ia.smallest_key, ka);
            },
        }
    }

    /// Where the key ranges of the tables of a level from 1 on do not
    /// overlap, the chain of their runs is ordered, and records against a
    /// key inside the interval what the level records.
    proof fn lemma_chained(&self, level: u64, pick: Seq<u64>, interval: Interval<Buf>, d: Direction)
        requires
            self.toc.inv(),
            self.tables_sound(),
            levels_disjoint(self.tables()),
            self.ranges_apart(),
            level >= 1,
            chained(self.toc@, level, interval, d, pick),
        ensures
            ordered(concat_all(runs_in(self.tables(), pick, interval, d)), d),
            forall|key: Seq<u8>|
                #[trigger] find(concat_all(runs_in(self.tables(), pick, interval, d)), key)
                    == inside(level_lookup(self.tables(), level, key), key, interval),
    {
        self.lemma_tables();
        let t = self.tables();
        let runs = runs_in(t, pick, interval, d);
        assert forall|i: int| 0 <= i < pick.len() implies self.toc@.tables.contains_key(
            #[trigger] pick[i],
        ) && t[pick[i]].level == level && sorted(t[pick[i]].items) && range_meets(
            self.toc@.tables[pick[i]],
            interval,
        ) by {
            let id = pick[i];
            assert(pick.contains(id));
            assert(self.toc@.level_ids(level).contains(id));
            assert(is_table(self.directory@.tables[id], self.toc@.tables[id]));
            assert(is_table_of(
                self.directory@.tables[id],
                self.toc@.tables[id],
                table_items(self.directory@.tables[id], self.toc@.tables[id]),
            ));
        }
        assert(all_ordered(runs, d)) by {
            assert forall|i: int| 0 <= i < runs.len() implies ordered(#[trigger] runs[i], d) by {
                lemma_scan_run(t[pick[i]].items, interval, d);
            }
        }
        assert(follow(runs, d)) by {
            assert forall|i: int, j: int, p: int, q: int|
                0 <= i < j < runs.len() && 0 <= p < runs[i].len() && 0 <= q
                    < runs[j].len() implies ahead(
                (#[trigger] runs[i][p]).0,
                (#[trigger] runs[j][q]).0,
                d,
            ) by {
                let a = pick[i];
                let b = pick[j];
                lemma_scan_run(t[a].items, interval, d);
                lemma_scan_run(t[b].items, interval, d);
                crate::merging::lemma_find_in_ordered(runs[i], d, p);
                crate::merging::lemma_find_in_ordered(runs[j], d, q);
                assert(find(runs[i], runs[i][p].0) == inside(
                    find(t[a].items, runs[i][p].0),
                    runs[i][p].0,
                    interval,
                ));
                assert(find(runs[j], runs[j][q].0) == inside(
                    find(t[b].items, runs[j][q].0),
                    runs[j][q].0,
                    interval,
                ));
                self.lemma_apart(a, b, d, runs[i][p].0, runs[j][q].0);
            }
        }
        lemma_concat(runs, d);
        assert forall|key: Seq<u8>|
            #[trigger] find(concat_all(runs), key) == inside(
                level_lookup(t, level, key),
                key,
                interval,
            ) by {
            lemma_first_in_runs(runs, 0, key);
            let v = first_in_runs(runs, 0, key);
            if v is Some {
                let r = choose|r: int| 0 <= r < runs.len() && find(#[trigger] runs[r], key) == v;
                let id = pick[r];
                lemma_scan_run(t[id].items, interval, d);
                assert(find(runs[r], key) == inside(find(t[id].items, key), key, interval));
                assert(hit(t, level, id, key));
                assert forall|o: u64| hit(t, level, o, key) implies o <= id by {
                    assert(o == id);
                }
                lemma_level_top(t, level, id, key);
            } else {
                if in_interval(key, interval) && level_hit(t, level, key) {
                    let h = choose|h: u64| hit(t, level, h, key);
                    let items = t[h].items;
                    assert(self.toc@.tables.contains_key(h));
                    assert(is_table(self.directory@.tables[h], self.toc@.tables[h]));
                    assert(is_table_of(self.directory@.tables[h], self.toc@.tables[h], items));
                    lemma_keys_in_range(items, key);
                    Store::lemma_meets(self.toc@.tables[h], key, interval);
                    assert(self.toc@.level_ids(level).contains(h));
                    assert(pick.contains(h));
                    let i = choose|i: int| 0 <= i < pick.len() && pick[i] == h;
                    lemma_scan_run(items, interval, d);
                    assert(find(runs[i], key) is Some);
                }
            }
        }
    }

    /// Where the key ranges of the tables of each level from 1 on do not
    /// overlap, the runs that a scan merges are ordered, and record against
    /// a key inside the interval what the buffers and the levels that
    /// `picks` covers record.
    proof fn lemma_sources(
        &self,
        levels: Seq<u64>,
        picks: Seq<Seq<u64>>,
        interval: Interval<Buf>,
        d: Direction,
    )
        requires
            self.inv(),
            self.tables_sound(),
            levels_disjoint(self.tables()),
            self.ranges_apart(),
            self.scan_picks(levels, picks, interval, d),
        ensures
            all_ordered(self.scan_sources(levels, picks, interval, d), d),
            forall|key: Seq<u8>|
                #[trigger] first_in_runs(self.scan_sources(levels, picks, interval, d), 0, key)
                    == inside(self.lookup_upto(levels, picks.len() as int, key), key, interval),
        decreases picks.len(),
    {
        let t = self.tables();
        let runs = self.scan_sources(levels, picks, interval, d);
        let n = picks.len() as int;
        if n == 0 {
            let m = self.memstores@.len() as int;
            self.lemma_mem_runs(interval, d, m);
            assert(self.mem_runs(interval, d).take(m) =~= self.mem_runs(interval, d));
            assert forall|key: Seq<u8>|
                #[trigger] first_in_runs(runs, 0, key) == inside(
                    self.lookup_upto(levels, 0, key),
                    key,
                    interval,
                ) by {
                self.lemma_mem_prefix(key, m);
                assert(first_in_runs(self.mem_runs(interval, d).take(m), 0, key) == inside(
                    self.mem_prefix(key, m),
                    key,
                    interval,
                ));
            }
        } else {
            let less = picks.drop_last();
            let before = self.scan_sources(levels, less, interval, d);
            let pick = picks.last();
            let level = levels[n - 1];
            assert(self.scan_picks(levels, less, interval, d)) by {
                assert forall|i: int| 0 <= i < less.len() implies if levels[i] == 0 {
                    newest_first(self.toc@, #[trigger] less[i])
                } else {
                    chained(self.toc@, levels[i], interval, d, less[i])
                } by {
                    assert(less[i] == picks[i]);
                }
            }
            self.lemma_sources(levels, less, interval, d);
            let new_runs = runs_in(t, pick, interval, d);
            assert(picks[n - 1] == pick);
            if level == 0 {
                self.lemma_zero_runs(pick, interval, d, pick.len() as int);
                assert(runs == before + new_runs);
                assert forall|r: int| 0 <= r < runs.len() implies ordered(#[trigger] runs[r], d) by {
                    if r < before.len() {
                        assert(runs[r] == before[r]);
                    } else {
                        assert(runs[r] == new_runs[r - before.len()]);
                    }
                }
                assert forall|key: Seq<u8>|
                    #[trigger] first_in_runs(runs, 0, key) == inside(
                        self.lookup_upto(levels, n, key),
                        key,
                        interval,
                    ) by {
                    lemma_first_append(before, new_runs, 0, key);
                    assert(first_in_runs(before, 0, key) == inside(
                        self.lookup_upto(levels, n - 1, key),
                        key,
                        interval,
                    ));
                    assert(first_in_runs(new_runs, 0, key) == inside(
                        level_lookup(t, 0, key),
                        key,
                        interval,
                    ));
                }
            } else {
                self.lemma_chained(level, pick, interval, d);
                let run = concat_all(new_runs);
                assert(runs == before.push(run));
                assert forall|r: int| 0 <= r < runs.len() implies ordered(#[trigger] runs[r], d) by {
                    if r < before.len() {
                        assert(runs[r] == before[r]);
                    }
                }
                assert forall|key: Seq<u8>|
                    #[trigger] first_in_runs(runs, 0, key) == inside(
                        self.lookup_upto(levels, n, key),
                        key,
                        interval,
                    ) by {
                    lemma_first_push(before, run, 0, key);
                    assert(first_in_runs(before, 0, key) == inside(
                        self.lookup_upto(levels, n - 1, key),
                        key,
                        interval,
                    ));
                    assert(find(run, key) == inside(level_lookup(t, level, key), key, interval));
                }
            }
        }
    }

    /// Where the key ranges of the tables of each level from 1 on do not
    /// overlap, a scan holds the keys inside its interval against which the
    /// store records something, in the order of the scan, each once, with
    /// what the store records against it.
    pub proof fn lemma_scanned(&self, interval: Interval<Buf>, d: Direction, rem: Seq<Item>)
        requires
            self.inv(),
            self.tables_sound(),
            levels_disjoint(self.tables()),
            self.ranges_apart(),
            self.scanned(interval, d, rem),
        ensures
            ordered(rem, d),
            forall|key: Seq<u8>|
                #[trigger] find(rem, key) == inside(self.lookup(key), key, interval),
    {
        let (levels, picks) = choose|levels: Seq<u64>, picks: Seq<Seq<u64>>| #[trigger]
            self.scan_picks(levels, picks, interval, d) && picks.len() == levels.len() && rem
                == merged(self.scan_sources(levels, picks, interval, d), d);
        self.lemma_sources(levels, picks, interval, d);
        self.lemma_scan_total(levels, self.scan_sources(levels, picks, interval, d), d, interval);
    }

    /// A scan of the keys inside `interval` in direction `direction`: over
    /// each buffer, over each table of level 0 from the newest on, and over
    /// each further level as a chain of its tables that reach into the
    /// interval, all merged: `scanned` says so of every sound store. Where
    /// the key ranges of the tables of each level from 1 on do not overlap,
    /// the scan holds the keys inside the interval against which the store
    /// records something, in the order of the scan, each once, with what
    /// the store records against it.
    pub fn range_directed<'a>(&'a self, interval: &Interval<Buf>, direction: Direction) -> (r: Result<
        StoreIter<'a>,
        Error,
    >)
        requires
            self.inv(),
        ensures
            r matches Ok(it) ==> it.inv() && it.direction() == direction && same_interval(
                it.interval(),
                *interval,
            ),
            self.tables_sound() ==> r is Ok && r->Ok_0.valid(),
            self.tables_sound() ==> self.scanned(*interval, direction, r->Ok_0.remaining()),
            self.tables_sound() && levels_disjoint(self.tables()) && self.ranges_apart() ==> ordered(
                r->Ok_0.remaining(),
                direction,
            ) && forall|key: Seq<u8>|
                #[trigger] find(r->Ok_0.remaining(), key) == inside(
                    self.lookup(key),
                    key,
                    *interval,
                ),
    {
        let ghost s1 = self.tables_sound();
        let ghost mut picks: Seq<Seq<u64>> = Seq::empty();
        let ghost s2 = s1 && levels_disjoint(self.tables()) && self.ranges_apart();
        let ghost t = self.tables();
        let mut iters: Vec<BoxedIterator<'a>> = Vec::new();
        self.add_memstores(&mut iters, interval, direction);
        let levels: Vec<u64> = self.toc.levels();
        let mut li: usize = 0;
        while li < levels.len()
            invariant
                self.inv(),
                s1 == self.tables_sound(),
                s2 == (s1 && levels_disjoint(self.tables()) && self.ranges_apart()),
                t == self.tables(),
                0 <= li <= levels@.len(),
                levels@.to_set() == self.toc@.levels,
                forall|a: int, b: int| 0 <= a < b < levels@.len() ==> levels@[a] < levels@[b],
                forall|i: int| 0 <= i < iters@.len() ==> (#[trigger] iters@[i]).0.inv(),
                s1 ==> forall|i: int| 0 <= i < iters@.len() ==> (#[trigger] iters@[i]).0.valid(),
                picks.len() == li,
                s1 ==> self.scan_picks(levels@, picks, *interval, direction),
                s1 ==> runs_of(iters@) == self.scan_sources(levels@, picks, *interval, direction),
            decreases levels@.len() - li,
        {
            let level: u64 = levels[li];
            let table_ids: Vec<u64> = self.toc.tables_at(level);
            let ghost before = iters@;
            if level == 0 {
                // The tables overlap: the newest comes first.
                match self.add_level_zero(&mut iters, &table_ids, interval, direction) {
                    Ok(_) => {},
                    Err(e) => {
                        return Err(e);
                    },
                }
                proof {
                    if s1 {
                        let n = before.len() as int;
                        let old_picks = picks;
                        let pick = table_ids@.reverse();
                        picks = old_picks.push(pick);
                        assert(picks.drop_last() =~= old_picks);
                        assert(newest_first(self.toc@, pick)) by {
                            assert forall|x: u64|
                                pick.to_set().contains(x) == table_ids@.to_set().contains(x) by {
                                if pick.to_set().contains(x) {
                                    let a = choose|a: int| 0 <= a < pick.len() && pick[a] == x;
                                    assert(table_ids@[table_ids@.len() - 1 - a] == x);
                                }
                                if table_ids@.to_set().contains(x) {
                                    let a = choose|a: int|
                                        0 <= a < table_ids@.len() && table_ids@[a] == x;
                                    assert(pick[table_ids@.len() - 1 - a] == x);
                                }
                            }
                            assert(pick.to_set() =~= table_ids@.to_set());
                        }
                        assert(self.scan_picks(levels@, picks, *interval, direction)) by {
                            assert forall|i: int| 0 <= i < picks.len() implies if levels@[i] == 0 {
                                newest_first(self.toc@, #[trigger] picks[i])
                            } else {
                                chained(self.toc@, levels@[i], *interval, direction, picks[i])
                            } by {
                                if i < old_picks.len() {
                                    assert(picks[i] == old_picks[i]);
                                }
                            }
                        }
                        assert(iters@.take(n) == before);
                        assert(runs_of(iters@) =~= runs_of(before) + runs_of(iters@.skip(n))) by {
                            assert forall|i: int| 0 <= i < iters@.len() implies runs_of(
                                iters@,
                            )[i] == (runs_of(before) + runs_of(iters@.skip(n)))[i] by {
                                if i < n {
                                    assert(iters@[i] == iters@.take(n)[i]);
                                } else {
                                    assert(iters@.skip(n)[i - n] == iters@[i]);
                                }
                            }
                        }
                        assert(runs_of(iters@) == self.scan_sources(
                            levels@,
                            picks,
                            *interval,
                            direction,
                        ));
                        assert forall|i: int| 0 <= i < iters@.len() implies (
                        #[trigger] iters@[i]).0.valid() by {
                            if i < n {
                                assert(iters@[i] == iters@.take(n)[i]);
                            }
                        }
                    } else {
                        picks = picks.push(Seq::empty());
                    }
                }
            } else {
                let boxed = match self.level_chain(level, &table_ids, interval, direction) {
                    Ok(b) => b,
                    Err(e) => {
                        return Err(e);
                    },
                };
                let ghost run = boxed.0.remaining();
                iters.push(boxed);
                proof {
                    assert forall|i: int| 0 <= i < iters@.len() implies (#[trigger] iters@[i]).0.inv() by {
                        if i < before.len() {
                            assert(iters@[i] == before[i]);
                        }
                    }
                    if s1 {
                        let old_picks = picks;
                        let pick = choose|pick: Seq<u64>| #[trigger]
                            chained(self.toc@, level, *interval, direction, pick) && run
                                == concat_all(runs_in(self.tables(), pick, *interval, direction));
                        picks = old_picks.push(pick);
                        assert(picks.drop_last() =~= old_picks);
                        assert(self.scan_picks(levels@, picks, *interval, direction)) by {
                            assert forall|i: int| 0 <= i < picks.len() implies if levels@[i] == 0 {
                                newest_first(self.toc@, #[trigger] picks[i])
                            } else {
                                chained(self.toc@, levels@[i], *interval, direction, picks[i])
                            } by {
                                if i < old_picks.len() {
                                    assert(picks[i] == old_picks[i]);
                                }
                            }
                        }
                        assert(runs_of(iters@) =~= runs_of(before).push(run));
                        assert(runs_of(iters@) == self.scan_sources(
                            levels@,
                            picks,
                            *interval,
                            direction,
                        ));
                    } else {
                        picks = picks.push(Seq::empty());
                    }
                    if s1 {
                        assert forall|i: int| 0 <= i < iters@.len() implies (
                        #[trigger] iters@[i]).0.valid() by {
                            if i < before.len() {
                                assert(iters@[i] == before[i]);
                            }
                        }
                    }
                }
            }
            li += 1;
        }
        let ghost its = iters@;
        let merge = match MergeIterator::make(iters, direction) {
            Ok(m) => m,
            Err(e) => {
                return Err(e);
            },
        };
        let it = StoreIter { interval: clone_interval(interval), iters: merge, direction: direction };
        proof {
            if s1 {
                assert(self.scan_picks(levels@, picks, *interval, direction) && picks.len()
                    == levels@.len() && it.remaining() == merged(
                    self.scan_sources(levels@, picks, *interval, direction),
                    direction,
                ));
            }
            if s2 {
                self.lemma_scanned(*interval, direction, it.remaining());
            }
        }
        Ok(it)
    }

    /// A scan of the keys inside `interval`, ascending.
    pub fn range<'a>(&'a self, interval: &Interval<Buf>) -> (r: Result<StoreIter<'a>, Error>)
        requires
            self.inv(),
        ensures
            r matches Ok(it) ==> it.inv() && it.direction() == Direction::Forward
                && same_interval(it.interval(), *interval),
            self.tables_sound() ==> r is Ok && r->Ok_0.valid(),
            self.tables_sound() ==> self.scanned(
                *interval,
                Direction::Forward,
                r->Ok_0.remaining(),
            ),
            self.tables_sound() && levels_disjoint(self.tables()) && self.ranges_apart() ==> ordered(
                r->Ok_0.remaining(),
                Direction::Forward,
            ) && forall|key: Seq<u8>|
                #[trigger] find(r->Ok_0.remaining(), key) == inside(
                    self.lookup(key),
                    key,
                    *interval,
                ),
    {
        self.range_directed(interval, Direction::Forward)
    }

    /// A scan of the keys inside `interval`, descending.
    pub fn range_descending<'a>(&'a self, interval: &Interval<Buf>) -> (r: Result<
        StoreIter<'a>,
        Error,
    >)
        requires
            self.inv(),
        ensures
            r matches Ok(it) ==> it.inv() && it.direction() == Direction::Backward
                && same_interval(it.interval(), *interval),
            self.tables_sound() ==> r is Ok && r->Ok_0.valid(),
            self.tables_sound() ==> self.scanned(
                *interval,
                Direction::Backward,
                r->Ok_0.remaining(),
            ),
            self.tables_sound() && levels_disjoint(self.tables()) && self.ranges_apart() ==> ordered(
                r->Ok_0.remaining(),
                Direction::Backward,
            ) && forall|key: Seq<u8>|
                #[trigger] find(r->Ok_0.remaining(), key) == inside(
                    self.lookup(key),
                    key,
                    *interval,
                ),
    {
        self.range_directed(interval, Direction::Backward)
    }

    /// The next key of a scan with its value, or `None` when the scan is
    /// over: entries without a value are passed over, and the scan is over
    /// at the first key beyond its interval.
    pub fn next(&self, iter: &mut StoreIter) -> (r: Result<Option<(Buf, Buf)>, Error>)
        requires
            old(iter).inv(),
        ensures
            final(iter).inv(),
            final(iter).interval() == old(iter).interval(),
            final(iter).direction() == old(iter).direction(),
            old(iter).valid() ==> final(iter).valid() && r is Ok,
            old(iter).valid() ==> final(iter).remaining() == scan_next(
                old(iter).remaining(),
                old(iter).interval(),
                old(iter).direction(),
            ).1,
            old(iter).valid() ==> (match r->Ok_0 {
                Some(kv) => scan_next(
                    old(iter).remaining(),
                    old(iter).interval(),
                    old(iter).direction(),
                ).0 == Some((kv.0@, kv.1@)),
                None => scan_next(
                    old(iter).remaining(),
                    old(iter).interval(),
                    old(iter).direction(),
                ).0 is None,
            }),
    {
        let ghost sound = iter.valid();
        let ghost target = scan_next(iter.remaining(), iter.interval(), iter.direction());
        loop
            invariant
                iter.inv(),
                iter.interval == old(iter).interval,
                iter.direction == old(iter).direction,
                sound == old(iter).valid(),
                target == scan_next(
                    old(iter).remaining(),
                    old(iter).interval(),
                    old(iter).direction(),
                ),
                sound ==> iter.valid(),
                sound ==> target == scan_next(iter.remaining(), iter.interval, iter.direction),
            decreases iter.iters.budget(),
        {
            let keyvec: Vec<u8> = match iter.iters.current_key() {
                Ok(Some(key)) => {
                    let abandon: bool = match iter.direction {
                        Direction::Forward => !below_upper_bound(key, &iter.interval.upper),
                        Direction::Backward => !above_lower_bound(key, &iter.interval.lower),
                    };
                    if abandon {
                        return Ok(None);
                    }
                    copy_bytes(key)
                },
                Ok(None) => {
                    return Ok(None);
                },
                Err(e) => {
                    return Err(e);
                },
            };
            let mutation: Mutation = match iter.iters.current_value() {
                Ok(m) => m,
                Err(e) => {
                    return Err(e);
                },
            };
            match iter.iters.step() {
                Ok(_) => {},
                Err(e) => {
                    return Err(e);
                },
            }
            match mutation {
                Mutation::Put(value) => {
                    return Ok(Some((keyvec, value)));
                },
                Mutation::Delete => {},
            }
        }
    }
}

impl Store {
    /// Two stores with the same tables, the same files and as many buffers,
    /// all empty, merge the same runs in a scan.
    proof fn lemma_same_sources(
        s: Store,
        r: Store,
        levels: Seq<u64>,
        picks: Seq<Seq<u64>>,
        interval: Interval<Buf>,
        d: Direction,
    )
        requires
            r.directory@ == s.directory@,
            same_tables(r.toc@, s.toc@),
            r.memstores@.len() == s.memstores@.len(),
            forall|i: int|
                0 <= i < s.memstores@.len() ==> (#[trigger] s.memstores@[i]).entries_view().len()
                    == 0,
            forall|i: int|
                0 <= i < r.memstores@.len() ==> (#[trigger] r.memstores@[i]).entries_view().len()
                    == 0,
        ensures
            r.scan_sources(levels, picks, interval, d) == s.scan_sources(levels, picks, interval, d),
            r.scan_picks(levels, picks, interval, d) == s.scan_picks(levels, picks, interval, d),
        decreases picks.len(),
    {
        lemma_tables_of_same(r.toc@, s.toc@, s.directory@.tables);
        assert(r.tables() == s.tables());
        assert forall|level: u64| #[trigger] r.toc@.level_ids(level) == s.toc@.level_ids(level) by {
            assert(r.toc@.level_ids(level) =~= s.toc@.level_ids(level));
        }
        assert forall|i: int| 0 <= i < picks.len() implies (newest_first(
            r.toc@,
            #[trigger] picks[i],
        ) == newest_first(s.toc@, picks[i]) && chained(r.toc@, levels[i], interval, d, picks[i])
            == chained(s.toc@, levels[i], interval, d, picks[i])) by {
            assert(r.toc@.level_ids(0) == s.toc@.level_ids(0));
            assert(r.toc@.level_ids(levels[i]) == s.toc@.level_ids(levels[i]));
        }
        if picks.len() == 0 {
            assert(r.mem_runs(interval, d) =~= s.mem_runs(interval, d)) by {
                assert forall|i: int| 0 <= i < s.memstores@.len() implies r.mem_runs(
                    interval,
                    d,
                )[i] == s.mem_runs(interval, d)[i] by {
                    assert(r.memstores@[i].entries_view() =~= s.memstores@[i].entries_view());
                }
            }
        } else {
            Store::lemma_same_sources(s, r, levels, picks.drop_last(), interval, d);
        }
    }

    /// Durability of scans: a store that is opened over the directory of a
    /// store whose buffers are empty, as they are after a flush, holds in a
    /// scan what that store holds in the same scan.
    pub proof fn lemma_reopened_scan(
        s: Store,
        r: Store,
        interval: Interval<Buf>,
        d: Direction,
        rem: Seq<Item>,
    )
        requires
            r.directory@ == s.directory@,
            same_tables(r.toc@, s.toc@),
            r.memstores@.len() == s.memstores@.len(),
            forall|i: int|
                0 <= i < s.memstores@.len() ==> (#[trigger] s.memstores@[i]).entries_view().len()
                    == 0,
            forall|i: int|
                0 <= i < r.memstores@.len() ==> (#[trigger] r.memstores@[i]).entries_view().len()
                    == 0,
        ensures
            r.scanned(interval, d, rem) == s.scanned(interval, d, rem),
    {
        if r.scanned(interval, d, rem) {
            let (levels, picks) = choose|levels: Seq<u64>, picks: Seq<Seq<u64>>| #[trigger]
                r.scan_picks(levels, picks, interval, d) && picks.len() == levels.len() && rem
                    == merged(r.scan_sources(levels, picks, interval, d), d);
            Store::lemma_same_sources(s, r, levels, picks, interval, d);
            assert(s.scan_picks(levels, picks, interval, d));
        }
        if s.scanned(interval, d, rem) {
            let (levels, picks) = choose|levels: Seq<u64>, picks: Seq<Seq<u64>>| #[trigger]
                s.scan_picks(levels, picks, interval, d) && picks.len() == levels.len() && rem
                    == merged(s.scan_sources(levels, picks, interval, d), d);
            Store::lemma_same_sources(s, r, levels, picks, interval, d);
            assert(r.scan_picks(levels, picks, interval, d));
        }
    }

    /// Range ordering: in a sound store in which the key ranges of the
    /// tables of each level from 1 on do not overlap, what a scan yields are
    /// the keys inside its interval that have a value, each once, in the
    /// order of the scan, each with its value. `rem` is what the scan holds
    /// when it is made, and `scan_all` what `next` yields from it, call by
    /// call.
    pub proof fn lemma_range_yields(&self, rem: Seq<Item>, interval: Interval<Buf>, d: Direction)
        requires
            self.wf(),
            self.ranges_apart(),
            self.scanned(interval, d, rem),
        ensures
            forall|i: int, j: int|
                0 <= i < j < scan_all(rem, interval, d).len() ==> ahead(
                    (#[trigger] scan_all(rem, interval, d)[i]).0,
                    (#[trigger] scan_all(rem, interval, d)[j]).0,
                    d,
                ),
            forall|i: int|
                0 <= i < scan_all(rem, interval, d).len() ==> in_interval(
                    (#[trigger] scan_all(rem, interval, d)[i]).0,
                    interval,
                ) && self.value(scan_all(rem, interval, d)[i].0) == Some(
                    scan_all(rem, interval, d)[i].1,
                ),
            forall|key: Seq<u8>|
                in_interval(key, interval) && self.value(key) is Some ==> exists|i: int|
                    0 <= i < scan_all(rem, interval, d).len() && #[trigger] scan_all(
                        rem,
                        interval,
                        d,
                    )[i] == (key, self.value(key)->Some_0),
    {
        self.lemma_scanned(interval, d, rem);
        let out = scan_all(rem, interval, d);
        assert forall|p: int| 0 <= p < rem.len() implies in_interval(
            (#[trigger] rem[p]).0,
            interval,
        ) by {
            crate::merging::lemma_find_in_ordered(rem, d, p);
            assert(find(rem, rem[p].0) == inside(self.lookup(rem[p].0), rem[p].0, interval));
        }
        lemma_scan_all(rem, interval, d);
        assert forall|i: int| 0 <= i < out.len() implies in_interval(
            (#[trigger] out[i]).0,
            interval,
        ) && self.value(out[i].0) == Some(out[i].1) by {
            assert(find(rem, out[i].0) == inside(self.lookup(out[i].0), out[i].0, interval));
        }
        assert forall|key: Seq<u8>|
            in_interval(key, interval) && self.value(key) is Some implies exists|i: int|
            0 <= i < out.len() && #[trigger] out[i] == (key, self.value(key)->Some_0) by {
            assert(find(rem, key) == inside(self.lookup(key), key, interval));
            let p = choose|p: int| 0 <= p < rem.len() && #[trigger] rem[p].0 == key;
            crate::merging::lemma_find_in_ordered(rem, d, p);
            assert(rem[p].1 is Put);
        }
    }
}

} // verus!

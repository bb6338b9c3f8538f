//! What a scan of sorted runs yields: of each run the entries inside the
//! interval, and of runs that follow one another their entries one after
//! the other.

use vstd::prelude::*;
use crate::iter::{Direction, ahead, concat_all};
use crate::merging::{ordered, all_ordered, first_in_runs, lemma_find_in_ordered,
    lemma_ahead_trichotomy, lemma_ahead_transitive, lemma_sorted_is_ordered};
use crate::model::{find, has_key, sorted, range_entries, lemma_range_entries, lemma_find_at,
    lower_index, range_end, lemma_bound_indices};
use crate::util::{Item, MutationView, Buf, Interval, lex_lt, in_interval, over_lower, under_upper};

verus! {

/// The entries of the sorted run `items` inside an interval, in the order
/// in which a scan in direction `d` meets them.
pub open spec fn scan_run(items: Seq<Item>, interval: Interval<Buf>, d: Direction) -> Seq<Item> {
    match d {
        Direction::Forward => range_entries(items, interval),
        Direction::Backward => range_entries(items, interval).reverse(),
    }
}

/// What a run records against a key inside an interval, and nothing against
/// a key outside.
pub open spec fn inside(m: Option<MutationView>, key: Seq<u8>, interval: Interval<Buf>) -> Option<
    MutationView,
> {
    if in_interval(key, interval) {
        m
    } else {
        None
    }
}

/// A run and its reverse record the same against every key.
pub proof fn lemma_find_reverse(run: Seq<Item>, key: Seq<u8>)
    requires
        sorted(run),
    ensures
        find(run.reverse(), key) == find(run, key),
{
    let rev = run.reverse();
    lemma_sorted_is_ordered(run);
    if has_key(run, key) {
        let j = choose|j: int| 0 <= j < run.len() && #[trigger] run[j].0 == key;
        lemma_find_at(run, j);
        assert(rev[run.len() - 1 - j] == run[j]);
        lemma_find_in_ordered(rev, Direction::Backward, run.len() - 1 - j);
    } else if has_key(rev, key) {
        let j = choose|j: int| 0 <= j < rev.len() && #[trigger] rev[j].0 == key;
        assert(rev[j] == run[run.len() - 1 - j]);
        assert(run[run.len() - 1 - j].0 == key);
    }
}

/// The scan of a sorted run is ordered, and records against the keys inside
/// the interval what the run records, and nothing against the others.
pub proof fn lemma_scan_run(items: Seq<Item>, interval: Interval<Buf>, d: Direction)
    requires
        sorted(items),
    ensures
        ordered(scan_run(items, interval, d), d),
        forall|key: Seq<u8>|
            #[trigger] find(scan_run(items, interval, d), key) == inside(
                find(items, key),
                key,
                interval,
            ),
{
    let r = range_entries(items, interval);
    lemma_range_entries(items, interval);
    lemma_bound_indices(items, interval);
    lemma_sorted_is_ordered(r);
    let lo = lower_index(items, interval.lower);
    assert forall|key: Seq<u8>| find(r, key) == inside(find(items, key), key, interval) by {
        if has_key(r, key) {
            let i = choose|i: int| 0 <= i < r.len() && #[trigger] r[i].0 == key;
            lemma_find_at(r, i);
            assert(r[i] == items[lo + i]);
            lemma_find_at(items, lo + i);
            assert(over_lower(r[i].0, interval.lower));
        } else if in_interval(key, interval) && has_key(items, key) {
            let j = choose|j: int| 0 <= j < items.len() && #[trigger] items[j].0 == key;
            assert(over_lower(items[j].0, interval.lower));
            assert(lo <= j < range_end(items, interval));
            assert(r[j - lo] == items[j]);
            assert(r[j - lo].0 == key);
        }
    }
    assert forall|key: Seq<u8>|
        #[trigger] find(scan_run(items, interval, d), key) == inside(
            find(items, key),
            key,
            interval,
        ) by {
        assert(find(r, key) == inside(find(items, key), key, interval));
        if d == Direction::Backward {
            lemma_find_reverse(r, key);
        }
    }
}

/// What runs with one more run record against a key: what the runs record,
/// and where they record nothing, what the one more records.
pub proof fn lemma_first_push(runs: Seq<Seq<Item>>, run: Seq<Item>, i: int, key: Seq<u8>)
    requires
        0 <= i <= runs.len(),
    ensures
        first_in_runs(runs.push(run), i, key) == (match first_in_runs(runs, i, key) {
            Some(m) => Some(m),
            None => find(run, key),
        }),
    decreases runs.len() - i,
{
    let more = runs.push(run);
    if i < runs.len() {
        assert(more[i] == runs[i]);
        lemma_first_push(runs, run, i + 1, key);
    } else {
        assert(more[i] == run);
        assert(first_in_runs(more, i + 1, key) is None);
    }
}

/// What runs with more runs behind them record against a key: what the
/// runs record, and where they record nothing, what those behind record.
pub proof fn lemma_first_append(a: Seq<Seq<Item>>, b: Seq<Seq<Item>>, i: int, key: Seq<u8>)
    requires
        0 <= i <= a.len(),
    ensures
        first_in_runs(a + b, i, key) == (match first_in_runs(a, i, key) {
            Some(m) => Some(m),
            None => first_in_runs(b, 0, key),
        }),
    decreases a.len() - i,
{
    let all = a + b;
    if i < a.len() {
        assert(all[i] == a[i]);
        lemma_first_append(a, b, i + 1, key);
    } else {
        lemma_first_shift(a, b, 0, key);
    }
}

proof fn lemma_first_shift(a: Seq<Seq<Item>>, b: Seq<Seq<Item>>, j: int, key: Seq<u8>)
    requires
        0 <= j <= b.len(),
    ensures
        first_in_runs(a + b, a.len() + j, key) == first_in_runs(b, j, key),
    decreases b.len() - j,
{
    if j < b.len() {
        assert((a + b)[a.len() + j] == b[j]);
        lemma_first_shift(a, b, j + 1, key);
    }
}

/// Every key of an earlier run is ahead of every key of a later run.
pub open spec fn follow(runs: Seq<Seq<Item>>, d: Direction) -> bool {
    forall|i: int, j: int, p: int, q: int|
        0 <= i < j < runs.len() && 0 <= p < runs[i].len() && 0 <= q < runs[j].len() ==> ahead(
            (#[trigger] runs[i][p]).0,
            (#[trigger] runs[j][q]).0,
            d,
        )
}

/// The entry `e` stands in one of the runs.
pub open spec fn from_runs(runs: Seq<Seq<Item>>, e: Item) -> bool {
    exists|i: int, p: int| 0 <= i < runs.len() && 0 <= p < runs[i].len() && #[trigger] runs[i][p] == e
}

/// Where an entry of a chain of runs comes from.
pub proof fn lemma_concat_index(runs: Seq<Seq<Item>>, x: int) -> (r: (int, int))
    requires
        0 <= x < concat_all(runs).len(),
    ensures
        0 <= r.0 < runs.len(),
        0 <= r.1 < runs[r.0].len(),
        concat_all(runs)[x] == runs[r.0][r.1],
    decreases runs.len(),
{
    if x < runs[0].len() {
        (0, x)
    } else {
        let rest = runs.skip(1);
        let r = lemma_concat_index(rest, x - runs[0].len());
        assert(rest[r.0] == runs[r.0 + 1]);
        (r.0 + 1, r.1)
    }
}

/// Ordered runs that follow one another make an ordered chain, which
/// records against a key what the first of the runs that holds it records.
pub proof fn lemma_concat(runs: Seq<Seq<Item>>, d: Direction)
    requires
        all_ordered(runs, d),
        follow(runs, d),
    ensures
        ordered(concat_all(runs), d),
        forall|key: Seq<u8>| #[trigger] find(concat_all(runs), key) == first_in_runs(runs, 0, key),
        forall|x: int|
            0 <= x < concat_all(runs).len() ==> from_runs(runs, #[trigger] concat_all(runs)[x]),
    decreases runs.len(),
{
    let all = concat_all(runs);
    assert forall|x: int| 0 <= x < all.len() implies from_runs(runs, #[trigger] all[x]) by {
        let r = lemma_concat_index(runs, x);
        assert(runs[r.0][r.1] == all[x]);
    }
    if runs.len() == 0 {
        assert forall|key: Seq<u8>| #[trigger] find(all, key) == first_in_runs(runs, 0, key) by {}
    } else {
        let rest = runs.skip(1);
        let tail = concat_all(rest);
        assert(all_ordered(rest, d)) by {
            assert forall|r: int| 0 <= r < rest.len() implies ordered(#[trigger] rest[r], d) by {
                assert(rest[r] == runs[r + 1]);
            }
        }
        assert(follow(rest, d)) by {
            assert forall|i: int, j: int, p: int, q: int|
                0 <= i < j < rest.len() && 0 <= p < rest[i].len() && 0 <= q
                    < rest[j].len() implies ahead(
                (#[trigger] rest[i][p]).0,
                (#[trigger] rest[j][q]).0,
                d,
            ) by {
                assert(rest[i] == runs[i + 1]);
                assert(rest[j] == runs[j + 1]);
                assert(ahead(runs[i + 1][p].0, runs[j + 1][q].0, d));
            }
        }
        lemma_concat(rest, d);
        assert(all == runs[0] + tail);
        let head = runs[0];
        assert(ordered(head, d));
        // Every entry of the head is ahead of every entry of the tail.
        assert forall|p: int, y: int| 0 <= p < head.len() && 0 <= y < tail.len() implies ahead(
            (#[trigger] head[p]).0,
            (#[trigger] tail[y]).0,
            d,
        ) by {
            assert(from_runs(rest, tail[y]));
            let (i, q) = choose|i: int, q: int|
                0 <= i < rest.len() && 0 <= q < rest[i].len() && #[trigger] rest[i][q] == tail[y];
            assert(rest[i] == runs[i + 1]);
            assert(ahead(runs[0][p].0, runs[i + 1][q].0, d));
        }
        assert forall|a: int, b: int| 0 <= a < b < all.len() implies ahead(
            #[trigger] all[a].0,
            #[trigger] all[b].0,
            d,
        ) by {
            if b < head.len() {
                assert(all[a] == head[a] && all[b] == head[b]);
            } else if a >= head.len() {
                assert(all[a] == tail[a - head.len()]);
                assert(all[b] == tail[b - head.len()]);
            } else {
                assert(all[a] == head[a]);
                assert(all[b] == tail[b - head.len()]);
            }
        }
        assert forall|key: Seq<u8>| #[trigger] find(all, key) == first_in_runs(runs, 0, key) by {
            assert(find(tail, key) == first_in_runs(rest, 0, key));
            lemma_first_skip(runs, 1, key);
            if has_key(head, key) {
                let p = choose|p: int| 0 <= p < head.len() && #[trigger] head[p].0 == key;
                lemma_find_in_ordered(head, d, p);
                assert(all[p] == head[p]);
                lemma_find_in_ordered(all, d, p);
            } else {
                if has_key(tail, key) {
                    let y = choose|y: int| 0 <= y < tail.len() && #[trigger] tail[y].0 == key;
                    lemma_find_in_ordered(tail, d, y);
                    assert(all[head.len() + y] == tail[y]);
                    lemma_find_in_ordered(all, d, head.len() + y);
                } else if has_key(all, key) {
                    let x = choose|x: int| 0 <= x < all.len() && #[trigger] all[x].0 == key;
                    if x < head.len() {
                        assert(head[x].0 == key);
                    } else {
                        assert(tail[x - head.len()].0 == key);
                    }
                }
            }
        }
    }
}

/// What the runs from `i` on record is what the runs without the first
/// record from `i - 1` on.
pub proof fn lemma_first_skip(runs: Seq<Seq<Item>>, i: int, key: Seq<u8>)
    requires
        1 <= i,
        runs.len() >= 1,
    ensures
        first_in_runs(runs, i, key) == first_in_runs(runs.skip(1), i - 1, key),
    decreases runs.len() - i,
{
    if i < runs.len() {
        assert(runs.skip(1)[i - 1] == runs[i]);
        lemma_first_skip(runs, i + 1, key);
    }
}

} // verus!

//! The planner: which tables move down a level when a level holds too many.

use vstd::prelude::*;
use crate::error::{Error, mk_err};
use crate::iter::{Direction, merged, total_upto};
use crate::levels::{Tables, disk_lookup};
use crate::moves::source_runs;
use crate::model::{lemma_find_at, piece, cuts};
use crate::store::{Store, Disk, lemma_keys_in_range};
use crate::toc::{Toc, TocView, TableInfo, TableInfoView, LevelNumber, ids_view, gone};
use crate::util::{Buf, Item, TableId, Interval, key_lt, lex_lt, lex_le, above_lower_bound,
    below_upper_bound, over_lower, under_upper, lemma_lex_trichotomy, lemma_lex_le_transitive};

verus! {

/// Table `id` is the newest table of level 0: the one with the greatest
/// number.
pub open spec fn newest_of(toc: TocView, id: u64) -> bool {
    toc.level_ids(0).contains(id) && forall|o: u64| toc.level_ids(0).contains(o) ==> o <= id
}

/// The tables `ids` are the tables of level 0 but the newest, the newest of
/// them first.
pub open spec fn older_tables(toc: TocView, ids: Seq<u64>) -> bool {
    &&& forall|i: int, j: int| 0 <= i < j < ids.len() ==> ids[i] > ids[j]
    &&& forall|id: u64|
        ids.contains(id) <==> #[trigger] toc.level_ids(0).contains(id) && !newest_of(toc, id)
}

/// No level holds more tables than it may: level 0 at most four, and each
/// level from 1 on at most its capacity.
pub open spec fn quiet(toc: TocView) -> bool {
    &&& toc.level_ids(0).len() <= 4
    &&& forall|level: u64| level >= 1 ==> #[trigger] toc.level_ids(level).len() <= capacity(
        level as nat,
    )
}

/// The tables of the level after `level` whose key ranges the key range of
/// table `id` overlaps.
pub open spec fn overlapped(toc: TocView, level: u64, id: u64) -> Set<u64> {
    Set::new(
        |o: u64|
            toc.level_ids((level + 1) as u64).contains(o) && ranges_overlap(
                toc.tables[o],
                toc.tables[id],
            ),
    )
}

/// Table `id` is the table of level `level` that goes down when the level
/// is full: the one that overlaps the fewest tables of the next level, and
/// of several such the one with the least number.
pub open spec fn goes_down(toc: TocView, level: u64, id: u64) -> bool {
    &&& toc.level_ids(level).contains(id)
    &&& forall|o: u64| #[trigger]
        toc.level_ids(level).contains(o) ==> overlapped(toc, level, id).len() < overlapped(
            toc,
            level,
            o,
        ).len() || (overlapped(toc, level, id).len() == overlapped(toc, level, o).len() && id
            <= o)
}

/// Level `level` is the first level that is full: it lies between level 1
/// and the last level, it holds more tables than its capacity, and no level
/// between level 1 and it does.
pub open spec fn first_full(toc: TocView, level: u64) -> bool {
    &&& level >= 1
    &&& exists|m: u64| #[trigger] toc.levels.contains(m) && level < m
    &&& toc.level_ids(level).len() > capacity(level as nat)
    &&& forall|l: u64| 1 <= l < level ==> #[trigger] toc.level_ids(l).len() <= capacity(l as nat)
}

/// The tables of the level after `level` whose key ranges overlap that of
/// one of the tables `ids`.
pub open spec fn overlapped_by(toc: TocView, level: u64, ids: Seq<u64>) -> Set<u64> {
    Set::new(
        |o: u64|
            toc.level_ids((level + 1) as u64).contains(o) && exists|i: int|
                0 <= i < ids.len() && ranges_overlap(toc.tables[o], toc.tables[#[trigger] ids[i]]),
    )
}

/// No two of the tables `ids` have key ranges that overlap.
pub open spec fn apart(toc: TocView, ids: Seq<u64>) -> bool {
    forall|i: int, j: int|
        0 <= i < j < ids.len() ==> !ranges_overlap(
            toc.tables[#[trigger] ids[i]],
            toc.tables[#[trigger] ids[j]],
        )
}

/// The number of entries of the tables with a number below `n`.
pub open spec fn entries_below(t: Tables, n: nat) -> nat
    decreases n,
{
    if n == 0 {
        0
    } else {
        let id = (n - 1) as u64;
        entries_below(t, (n - 1) as nat) + (if t.contains_key(id) {
            t[id].items.len()
        } else {
            0
        })
    }
}

/// Without table `x`, the tables hold the entries of `x` less.
pub proof fn lemma_entries_without(t: Tables, x: u64, n: nat)
    requires
        n <= u64::MAX + 1,
    ensures
        entries_below(t.remove(x), n) + (if x < n && t.contains_key(x) {
            t[x].items.len()
        } else {
            0
        }) == entries_below(t, n),
    decreases n,
{
    if n > 0 {
        lemma_entries_without(t, x, (n - 1) as nat);
    }
}

/// The number of entries of the first `k` runs is the same for runs that
/// are the same up to there.
pub proof fn lemma_total_same(a: Seq<Seq<Item>>, b: Seq<Seq<Item>>, k: int)
    requires
        0 <= k <= a.len(),
        k <= b.len(),
        forall|i: int| 0 <= i < k ==> a[i].len() == b[i].len(),
    ensures
        total_upto(a, k) == total_upto(b, k),
    decreases k,
{
    if k > 0 {
        lemma_total_same(a, b, k - 1);
    }
}

/// Tables with different numbers below `n` hold together no more entries
/// than all the tables with a number below `n`.
pub proof fn lemma_entries_of(t: Tables, src: Seq<u64>, n: nat)
    requires
        n <= u64::MAX + 1,
        src.no_duplicates(),
        forall|i: int| 0 <= i < src.len() ==> t.contains_key(#[trigger] src[i]) && src[i] < n,
    ensures
        total_upto(source_runs(t, src), src.len() as int) <= entries_below(t, n),
    decreases src.len(),
{
    if src.len() > 0 {
        let last = src.last();
        let rest = src.drop_last();
        let less = t.remove(last);
        assert forall|i: int| 0 <= i < rest.len() implies less.contains_key(#[trigger] rest[i])
            && rest[i] < n by {
            assert(rest[i] == src[i]);
            assert(src[i] != src[src.len() - 1]);
        }
        assert(rest.no_duplicates()) by {
            assert forall|i: int, j: int| 0 <= i < rest.len() && 0 <= j < rest.len() && i
                != j implies rest[i] != rest[j] by {
                assert(rest[i] == src[i]);
                assert(rest[j] == src[j]);
            }
        }
        lemma_entries_of(less, rest, n);
        lemma_entries_without(t, last, n);
        let k = rest.len() as int;
        assert forall|i: int| 0 <= i < k implies source_runs(t, src)[i].len() == source_runs(
            less,
            rest,
        )[i].len() by {
            assert(rest[i] == src[i]);
            assert(src[i] != src[src.len() - 1]);
        }
        lemma_total_same(source_runs(t, src), source_runs(less, rest), k);
        assert(source_runs(t, src)[k] == t[last].items);
    }
}

/// Tables that agree below `n` in what they hold, hold as many entries
/// there.
pub proof fn lemma_entries_same(t: Tables, u: Tables, n: nat)
    requires
        n <= u64::MAX + 1,
        forall|id: u64|
            id < n ==> (#[trigger] t.contains_key(id) == u.contains_key(id)) && (t.contains_key(id)
                ==> t[id].items.len() == u[id].items.len()),
    ensures
        entries_below(t, n) == entries_below(u, n),
    decreases n,
{
    if n > 0 {
        lemma_entries_same(t, u, (n - 1) as nat);
        let id = (n - 1) as u64;
        assert(t.contains_key(id) == u.contains_key(id));
    }
}

/// Without the tables `src`, the tables hold the entries of `src` less.
pub proof fn lemma_entries_removed(t: Tables, src: Seq<u64>, n: nat)
    requires
        n <= u64::MAX + 1,
        src.no_duplicates(),
        forall|i: int| 0 <= i < src.len() ==> t.contains_key(#[trigger] src[i]) && src[i] < n,
    ensures
        entries_below(t.remove_keys(src.to_set()), n) + total_upto(
            source_runs(t, src),
            src.len() as int,
        ) == entries_below(t, n),
    decreases src.len(),
{
    if src.len() == 0 {
        assert(src.to_set() =~= Set::<u64>::empty());
        assert(t.remove_keys(src.to_set()) =~= t);
    } else {
        let last = src.last();
        let rest = src.drop_last();
        let k = rest.len() as int;
        assert forall|i: int| 0 <= i < rest.len() implies t.contains_key(#[trigger] rest[i])
            && rest[i] < n by {
            assert(rest[i] == src[i]);
        }
        assert(rest.no_duplicates()) by {
            assert forall|i: int, j: int| 0 <= i < rest.len() && 0 <= j < rest.len() && i
                != j implies rest[i] != rest[j] by {
                assert(rest[i] == src[i]);
                assert(rest[j] == src[j]);
            }
        }
        lemma_entries_removed(t, rest, n);
        let less = t.remove_keys(rest.to_set());
        assert(!rest.contains(last)) by {
            if rest.contains(last) {
                let i = choose|i: int| 0 <= i < rest.len() && rest[i] == last;
                assert(src[i] == src[src.len() - 1]);
            }
        }
        assert(less.contains_key(last) && less[last] == t[last]);
        assert(t.remove_keys(src.to_set()) =~= less.remove(last)) by {
            assert forall|id: u64| src.to_set().contains(id) == (rest.to_set().contains(id) || id
                == last) by {
                if src.to_set().contains(id) {
                    let i = choose|i: int| 0 <= i < src.len() && src[i] == id;
                    if i < k {
                        assert(rest[i] == id);
                    }
                }
                if rest.to_set().contains(id) {
                    let i = choose|i: int| 0 <= i < rest.len() && rest[i] == id;
                    assert(src[i] == id);
                }
                if id == last {
                    assert(src[src.len() - 1] == id);
                }
            }
        }
        lemma_entries_without(less, last, n);
        assert forall|i: int| 0 <= i < k implies source_runs(t, src)[i].len() == source_runs(
            t,
            rest,
        )[i].len() by {
            assert(rest[i] == src[i]);
        }
        lemma_total_same(source_runs(t, src), source_runs(t, rest), k);
        assert(source_runs(t, src)[k] == t[last].items);
    }
}

/// Places that ascend from 0 are no more than the place they end at.
pub proof fn lemma_cuts_count(bounds: Seq<int>, j: int)
    requires
        bounds.len() >= 1,
        bounds[0] == 0,
        forall|i: int| 0 <= i < bounds.len() - 1 ==> #[trigger] bounds[i] < bounds[i + 1],
        0 <= j < bounds.len(),
    ensures
        j <= bounds[j],
    decreases j,
{
    if j > 0 {
        lemma_cuts_count(bounds, j - 1);
        assert(bounds[j - 1] < bounds[j - 1 + 1]);
    }
}

/// The tables that hold the pieces of a run, with the numbers from `first`
/// on, hold the entries of the run.
pub proof fn lemma_entries_pieces(t: Tables, first: u64, m: Seq<Item>, bounds: Seq<int>, j: int)
    requires
        cuts(m, bounds),
        0 <= j <= bounds.len() - 1,
        first + bounds.len() - 1 <= u64::MAX,
        forall|id: u64|
            first <= id < first + bounds.len() - 1 ==> #[trigger] t.contains_key(id) && t[id].items
                == piece(m, bounds, id - first),
    ensures
        entries_below(t, (first + j) as nat) == entries_below(t, first as nat) + bounds[j],
    decreases j,
{
    if j > 0 {
        lemma_entries_pieces(t, first, m, bounds, j - 1);
        let id = (first + j - 1) as u64;
        assert(t.contains_key(id));
        crate::model::lemma_cuts_ascend(m, bounds, j - 1, j);
        assert(bounds[j - 1] < bounds[j - 1 + 1]);
        assert(piece(m, bounds, j - 1).len() == bounds[j] - bounds[j - 1]);
    }
}

/// The number of entries that the tables of a store hold.
pub open spec fn held(before: Disk) -> nat {
    entries_below(before.tables(), before.toc.next_table_id as nat)
}

/// From level 1 on, the key ranges of the tables of a level do not overlap.
pub open spec fn levels_apart(toc: TocView) -> bool {
    forall|a: u64, b: u64|
        #![trigger toc.tables[a], toc.tables[b]]
        toc.tables.contains_key(a) && toc.tables.contains_key(b) && a != b && toc.tables[a].level
            == toc.tables[b].level && toc.tables[a].level >= 1 ==> !ranges_overlap(
            toc.tables[a],
            toc.tables[b],
        )
}

/// No table of the level after `level` but the tables `src` reaches in
/// between the first and the last key of the tables `src`: it ends before
/// each of them starts, or starts after each of them ends.
pub open spec fn hull_clear(toc: TocView, level: u64, src: Seq<u64>) -> bool {
    forall|o: u64, x: int, y: int|
        #![trigger toc.tables[o], src[x], src[y]]
        toc.level_ids((level + 1) as u64).contains(o) && !src.contains(o) && 0 <= x < src.len()
            && 0 <= y < src.len() ==> lex_lt(
            toc.tables[o].biggest_key,
            toc.tables[src[x]].smallest_key,
        ) || lex_lt(toc.tables[src[y]].biggest_key, toc.tables[o].smallest_key)
}

/// What moving the tables `moved` of level `level` down does to the table
/// of contents: a table that it holds afterwards is a table that it held,
/// unchanged and not among the moved, or a table of the next level; and
/// the tables that it held, but those of the next level and the moved, it
/// holds unchanged.
pub open spec fn releveled(old: TocView, new: TocView, level: u64, moved: Set<u64>) -> bool {
    &&& forall|id: u64| #[trigger]
        new.tables.contains_key(id) ==> (old.tables.contains_key(id) && new.tables[id]
            == old.tables[id] && !moved.contains(id)) || new.tables[id].level == level + 1
    &&& forall|id: u64|
        #[trigger] old.tables.contains_key(id) && old.tables[id].level != level + 1
            && !moved.contains(id) ==> new.tables.contains_key(id) && new.tables[id]
            == old.tables[id]
}

/// A sequence of ascending numbers has as many members as its set.
pub proof fn lemma_ascending_len(ids: Seq<u64>)
    requires
        forall|a: int, b: int| 0 <= a < b < ids.len() ==> ids[a] < ids[b],
    ensures
        ids.no_duplicates(),
        ids.to_set().finite(),
        ids.to_set().len() == ids.len(),
{
    assert(ids.no_duplicates()) by {
        assert forall|i: int, j: int| 0 <= i < ids.len() && 0 <= j < ids.len() && i
            != j implies ids[i] != ids[j] by {
            if i < j {
                assert(ids[i] < ids[j]);
            } else {
                assert(ids[j] < ids[i]);
            }
        }
    }
    ids.unique_seq_to_set();
    vstd::seq_lib::seq_to_set_is_finite(ids);
}

/// Whether the key ranges of two tables have a key in common.
pub open spec fn ranges_overlap(x: TableInfoView, y: TableInfoView) -> bool {
    !(lex_lt(x.biggest_key, y.smallest_key) || lex_lt(y.biggest_key, x.smallest_key))
}

/// Whether the key range of a table reaches into an interval.
pub open spec fn range_meets(x: TableInfoView, y: Interval<Buf>) -> bool {
    over_lower(x.biggest_key, y.lower) && under_upper(x.smallest_key, y.upper)
}

/// Four times ten to the power `level - 1`: the number of tables that a
/// level from 1 on may hold before one of its tables is moved down.
pub open spec fn capacity(level: nat) -> nat
    decreases level,
{
    if level <= 1 {
        4
    } else {
        10 * capacity((level - 1) as nat)
    }
}

proof fn lemma_capacity_grows(a: nat, b: nat)
    requires
        a <= b,
    ensures
        4 <= capacity(a) <= capacity(b),
    decreases b,
{
    if b > 1 {
        if a < b {
            lemma_capacity_grows(a, (b - 1) as nat);
        } else {
            lemma_capacity_grows((b - 1) as nat, (b - 1) as nat);
        }
    }
}

/// The capacity of a level from 1 on, if a machine word holds it.
fn level_capacity(level: LevelNumber) -> (r: Option<usize>)
    requires
        level >= 1,
    ensures
        match r {
            Some(c) => c == capacity(level as nat),
            None => capacity(level as nat) > usize::MAX,
        },
{
    let mut c: usize = 4;
    let mut l: u64 = 1;
    while l < level
        invariant
            1 <= l <= level,
            c == capacity(l as nat),
        decreases level - l,
    {
        c = match c.checked_mul(10) {
            Some(x) => x,
            None => {
                proof {
                    lemma_capacity_grows((l + 1) as nat, level as nat);
                }
                return None;
            },
        };
        l += 1;
    }
    Some(c)
}

impl Store {
    pub(crate) fn table_overlaps_interval(x: &TableInfo, y: &Interval<Buf>) -> (r: bool)
        ensures
            r == range_meets(x@, *y),
    {
        !(!above_lower_bound(x.biggest_key.as_slice(), &y.lower) || !below_upper_bound(
            x.smallest_key.as_slice(),
            &y.upper,
        ))
    }

    fn tables_overlap(x: &TableInfo, y: &TableInfo) -> (r: bool)
        ensures
            r == ranges_overlap(x@, y@),
    {
        !(key_lt(x.biggest_key.as_slice(), y.smallest_key.as_slice()) || key_lt(
            y.biggest_key.as_slice(),
            x.smallest_key.as_slice(),
        ))
    }

    /// Whether two of the tables overlap.
    fn self_overlaps(xs: &Vec<TableInfo>) -> (r: bool)
        ensures
            r == exists|i: int, j: int|
                0 <= i < j < xs@.len() && ranges_overlap(#[trigger] xs@[i]@, #[trigger] xs@[j]@),
    {
        let mut i: usize = 0;
        while i < xs.len()
            invariant
                0 <= i <= xs@.len(),
                forall|a: int, b: int|
                    0 <= a < i && a < b < xs@.len() ==> !ranges_overlap(
                        #[trigger] xs@[a]@,
                        #[trigger] xs@[b]@,
                    ),
            decreases xs@.len() - i,
        {
            let mut j: usize = i + 1;
            while j < xs.len()
                invariant
                    0 <= i < j <= xs@.len(),
                    forall|b: int|
                        i < b < j ==> !ranges_overlap(xs@[i as int]@, #[trigger] xs@[b]@),
                decreases xs@.len() - j,
            {
                if Store::tables_overlap(&xs[i], &xs[j]) {
                    return true;
                }
                j += 1;
            }
            i += 1;
        }
        false
    }

    /// The table of level `level` that goes down when the level is full, if
    /// the level holds a table. `ids` are the tables of the level.
    fn pick_table(toc: &Toc, level: LevelNumber, ids: &Vec<u64>) -> (r: Option<u64>)
        requires
            toc.inv(),
            level < u64::MAX,
            ids@.to_set() == toc@.level_ids(level),
            forall|a: int, b: int| 0 <= a < b < ids@.len() ==> ids@[a] < ids@[b],
        ensures
            match r {
                Some(id) => goes_down(toc@, level, id),
                None => ids@.len() == 0,
            },
    {
        let mut fewest: usize = 0;
        let mut best: Option<u64> = None;
        let mut j: usize = 0;
        while j < ids.len()
            invariant
                toc.inv(),
                level < u64::MAX,
                0 <= j <= ids@.len(),
                ids@.to_set() == toc@.level_ids(level),
                forall|a: int, b: int| 0 <= a < b < ids@.len() ==> ids@[a] < ids@[b],
                best is None ==> j == 0,
                best matches Some(id) ==> (exists|k: int| 0 <= k < j && ids@[k] == id)
                    && toc@.level_ids(level).contains(id) && fewest == overlapped(
                    toc@,
                    level,
                    id,
                ).len() && forall|k: int|
                    0 <= k < j ==> fewest < overlapped(toc@, level, #[trigger] ids@[k]).len() || (
                    fewest == overlapped(toc@, level, ids@[k]).len() && id <= ids@[k]),
            decreases ids@.len() - j,
        {
            let id: u64 = ids[j];
            proof {
                assert(ids@.to_set().contains(ids@[j as int]));
            }
            match toc.info(id) {
                Some(info) => {
                    let mut infos: Vec<TableInfo> = Vec::new();
                    infos.push(info.clone());
                    let lower: Vec<TableId> = Store::get_overlapping_tables(toc, &infos, level + 1);
                    let overlap: usize = lower.len();
                    proof {
                        let found = ids_view(lower@);
                        lemma_ascending_len(found);
                        assert(found.to_set() =~= overlapped(toc@, level, id)) by {
                            assert forall|o: u64| found.to_set().contains(o) == overlapped(
                                toc@,
                                level,
                                id,
                            ).contains(o) by {
                                if found.to_set().contains(o) {
                                    let a = choose|a: int| 0 <= a < found.len() && found[a] == o;
                                    assert(lower@[a].0 == o);
                                    assert(Store::overlaps_any(toc@, lower@[a].0, infos@));
                                }
                                if overlapped(toc@, level, id).contains(o) {
                                    assert(ranges_overlap(toc@.tables[o], infos@[0]@));
                                    assert(Store::overlaps_any(toc@, o, infos@));
                                    let a = choose|a: int|
                                        0 <= a < lower@.len() && #[trigger] lower@[a].0 == o;
                                    assert(found[a] == o);
                                }
                            }
                        }
                    }
                    let better: bool = match best {
                        None => true,
                        Some(_) => overlap < fewest,
                    };
                    if better {
                        fewest = overlap;
                        best = Some(id);
                        proof {
                            assert(ids@[j as int] == id);
                            assert forall|k: int| 0 <= k < j + 1 implies fewest < overlapped(
                                toc@,
                                level,
                                #[trigger] ids@[k],
                            ).len() || (fewest == overlapped(toc@, level, ids@[k]).len() && id
                                <= ids@[k]) by {}
                        }
                    }
                },
                None => {
                    proof {
                        assert(toc@.level_ids(level).contains(id));
                    }
                },
            }
            j += 1;
        }
        proof {
            if let Some(id) = best {
                assert forall|o: u64| #[trigger]
                    toc@.level_ids(level).contains(o) implies overlapped(toc@, level, id).len()
                    < overlapped(toc@, level, o).len() || (overlapped(toc@, level, id).len()
                    == overlapped(toc@, level, o).len() && id <= o) by {
                    assert(ids@.to_set().contains(o));
                    let k = choose|k: int| 0 <= k < ids@.len() && ids@[k] == o;
                    assert(ids@[k] == o);
                }
            }
        }
        best
    }

    /// Whether table `id` of `toc` overlaps one of `tables`.
    pub open spec fn overlaps_any(toc: TocView, id: u64, tables: Seq<TableInfo>) -> bool {
        exists|k: int| 0 <= k < tables.len() && ranges_overlap(toc.tables[id], #[trigger] tables[k]@)
    }

    /// The tables of level `level` that overlap one of `tables`, ascending
    /// by their numbers.
    fn get_overlapping_tables(toc: &Toc, tables: &Vec<TableInfo>, level: LevelNumber) -> (r: Vec<
        TableId,
    >)
        requires
            toc.inv(),
        ensures
            forall|a: int, b: int| 0 <= a < b < r@.len() ==> r@[a].0 < r@[b].0,
            forall|a: int|
                0 <= a < r@.len() ==> toc@.level_ids(level).contains(#[trigger] r@[a].0)
                    && Store::overlaps_any(toc@, r@[a].0, tables@),
            forall|id: u64|
                toc@.level_ids(level).contains(id) && Store::overlaps_any(toc@, id, tables@)
                    ==> exists|a: int| 0 <= a < r@.len() && #[trigger] r@[a].0 == id,
    {
        let ids: Vec<u64> = toc.tables_at(level);
        let mut ret: Vec<TableId> = Vec::new();
        let mut i: usize = 0;
        while i < ids.len()
            invariant
                toc.inv(),
                0 <= i <= ids@.len(),
                ids@.to_set() == toc@.level_ids(level),
                forall|a: int, b: int| 0 <= a < b < ids@.len() ==> ids@[a] < ids@[b],
                forall|a: int, b: int| 0 <= a < b < ret@.len() ==> ret@[a].0 < ret@[b].0,
                forall|a: int|
                    0 <= a < ret@.len() ==> toc@.level_ids(level).contains(#[trigger] ret@[a].0)
                        && Store::overlaps_any(toc@, ret@[a].0, tables@) && exists|k: int|
                        0 <= k < i && ids@[k] == ret@[a].0,
                forall|k: int|
                    0 <= k < i && Store::overlaps_any(toc@, #[trigger] ids@[k], tables@)
                        ==> exists|a: int| 0 <= a < ret@.len() && #[trigger] ret@[a].0 == ids@[k],
            decreases ids@.len() - i,
        {
            let id: u64 = ids[i];
            proof {
                assert(ids@.to_set().contains(ids@[i as int]));
            }
            let mut overlaps: bool = false;
            match toc.info(id) {
                Some(ti) => {
                    let mut k: usize = 0;
                    while k < tables.len() && !overlaps
                        invariant
                            0 <= k <= tables@.len(),
                            ti@ == toc@.tables[id],
                            !overlaps ==> forall|q: int|
                                0 <= q < k ==> !ranges_overlap(ti@, #[trigger] tables@[q]@),
                            overlaps ==> Store::overlaps_any(toc@, id, tables@),
                        decreases tables@.len() - k + (if overlaps { 0int } else { 1int }),
                    {
                        if Store::tables_overlap(ti, &tables[k]) {
                            overlaps = true;
                        }
                        k += 1;
                    }
                },
                None => {},
            }
            let ghost before = ret@;
            if overlaps {
                ret.push(TableId(id));
                proof {
                    assert forall|a: int, b: int| 0 <= a < b < ret@.len() implies ret@[a].0
                        < ret@[b].0 by {
                        if b == ret@.len() - 1 {
                            let k = choose|k: int| 0 <= k < i && ids@[k] == before[a].0;
                            assert(ids@[k] < ids@[i as int]);
                        }
                    }
                }
            }
            proof {
                assert forall|k: int|
                    0 <= k < i + 1 && Store::overlaps_any(
                        toc@,
                        #[trigger] ids@[k],
                        tables@,
                    ) implies exists|a: int|
                    0 <= a < ret@.len() && #[trigger] ret@[a].0 == ids@[k] by {
                    if k < i {
                        let a = choose|a: int| 0 <= a < before.len()
                            && #[trigger] before[a].0 == ids@[k];
                        assert(ret@[a].0 == ids@[k]);
                    } else {
                        assert(ret@[ret@.len() - 1].0 == ids@[k]);
                    }
                }
            }
            i += 1;
        }
        proof {
            assert forall|id: u64|
                toc@.level_ids(level).contains(id) && Store::overlaps_any(
                    toc@,
                    id,
                    tables@,
                ) implies exists|a: int| 0 <= a < ret@.len() && #[trigger] ret@[a].0 == id by {
                assert(ids@.to_set().contains(id));
                let k = choose|k: int| 0 <= k < ids@.len() && ids@[k] == id;
                assert(Store::overlaps_any(toc@, ids@[k], tables@));
            }
        }
        ret
    }
}

impl Store {
    /// What the planner does at level `level`: where the level holds more
    /// tables than its capacity, the table that goes down is moved down;
    /// else nothing is changed.
    pub open spec fn level_step(before: Disk, after: Disk, level: u64) -> bool {
        if before.toc.level_ids(level).len() > capacity(level as nat) {
            exists|id: u64| #[trigger]
                goes_down(before.toc, level, id) && Store::moved(before, after, level, seq![id])
        } else {
            after == before
        }
    }

    /// The store `after` is the store `before` after the planner has gone
    /// through the levels from 1 up to, and without, `level`, one after the
    /// other.
    #[verifier::opaque]
    pub open spec fn passed(before: Disk, after: Disk, level: u64) -> bool
        decreases level,
    {
        if level <= 1 {
            after == before
        } else {
            exists|mid: Disk|
                #![trigger Store::level_step(mid, after, (level - 1) as u64)]
                Store::passed(before, mid, (level - 1) as u64) && Store::level_step(
                    mid,
                    after,
                    (level - 1) as u64,
                )
        }
    }

    /// Before level 2, the planner has changed nothing yet.
    proof fn lemma_passed_start(before: Disk, after: Disk, level: u64)
        requires
            level <= 1,
        ensures
            Store::passed(before, after, level) == (after == before),
    {
        reveal_with_fuel(Store::passed, 1);
    }

    /// The step at a level follows the steps at the levels before it.
    proof fn lemma_passed_step(before: Disk, mid: Disk, after: Disk, level: u64)
        requires
            1 <= level < u64::MAX,
            Store::passed(before, mid, level),
            Store::level_step(mid, after, level),
        ensures
            Store::passed(before, after, (level + 1) as u64),
    {
        reveal_with_fuel(Store::passed, 2);
        let next = (level + 1) as u64;
        assert(next > 1);
        assert((next - 1) as u64 == level);
        assert(Store::passed(before, mid, (next - 1) as u64) && Store::level_step(
            mid,
            after,
            (next - 1) as u64,
        ));
    }

    /// The table numbers that are left suffice for the step of the planner
    /// at level `level`: where the level holds more tables than its
    /// capacity, they suffice to move the table that goes down.
    pub open spec fn step_fits(before: Disk, level: u64) -> bool {
        before.toc.level_ids(level).len() > capacity(level as nat) ==> forall|id: u64| #[trigger]
            goes_down(before.toc, level, id) ==> Store::move_fits(before, level, seq![id])
    }

    /// The table numbers that are left suffice for the planner to go
    /// through the levels from 1 up to, and without, `top`: they suffice for
    /// the step at each of these levels, in the state in which the steps
    /// before it leave the store.
    pub open spec fn pass_fits(before: Disk, top: u64) -> bool {
        forall|level: u64, mid: Disk|
            1 <= level < top && #[trigger] Store::passed(before, mid, level) ==> Store::step_fits(
                mid,
                level,
            )
    }

    /// The table numbers that are left suffice for the planner: for the move
    /// of the tables of level 0 but the newest, where level 0 holds more
    /// than four; else for the steps at the levels from 1 up to, and
    /// without, the last.
    pub open spec fn rebalance_fits(before: Disk) -> bool {
        if before.toc.level_ids(0).len() > 4 {
            forall|ids: Seq<u64>| #[trigger]
                older_tables(before.toc, ids) ==> Store::move_fits(before, 0, ids)
        } else {
            forall|top: u64| #[trigger]
                before.toc.levels.contains(top) ==> Store::pass_fits(before, top)
        }
    }

    /// The planner keeps the key ranges of the tables of each level from 1
    /// on apart: its steps at the levels from 1 on always do; the move of
    /// the tables of level 0 does where `move_keeps` says so.
    pub open spec fn rebalance_keeps(before: Disk) -> bool {
        before.toc.level_ids(0).len() > 4 ==> forall|ids: Seq<u64>| #[trigger]
            older_tables(before.toc, ids) ==> Store::move_keeps(before, 0, ids)
    }

    /// How far the planner lets the table numbers and the levels grow, where
    /// no level of `before` is greater than `top`: it takes no more numbers
    /// than the tables hold entries, once for each level up to `top`; and
    /// it adds no level beyond `top + 1`.
    pub open spec fn grown(before: Disk, after: Disk, top: u64) -> bool {
        &&& before.toc.next_table_id <= after.toc.next_table_id <= before.toc.next_table_id + (top
            + 1) * held(before)
        &&& forall|l: u64| #[trigger] after.toc.levels.contains(l) ==> l <= top + 1
    }

    /// There is room for the planner: a table number for each entry that
    /// the tables hold, once for the move out of level 0 and once for each
    /// level up to the last. Then the table numbers suffice.
    pub open spec fn roomy(before: Disk) -> bool {
        forall|top: u64| #[trigger]
            before.toc.levels.contains(top) ==> before.toc.next_table_id + (top + 1) * held(before)
                <= u64::MAX
    }

    /// What the planner does to the store `before`. Where level 0 holds more
    /// than four tables, it moves all of them but the newest down, the
    /// newest of them first in precedence, and does nothing else. Else it
    /// goes through the levels from 1 up to, and without, the last.
    pub open spec fn rebalanced(before: Disk, after: Disk) -> bool {
        if before.toc.level_ids(0).len() > 4 {
            exists|ids: Seq<u64>| #[trigger]
                older_tables(before.toc, ids) && Store::moved(before, after, 0, ids)
        } else if before.toc.levels == Set::<u64>::empty() {
            after == before
        } else {
            exists|top: u64| #[trigger]
                before.toc.levels.contains(top) && (forall|m: u64| #[trigger]
                    before.toc.levels.contains(m) ==> m <= top) && Store::passed(
                    before,
                    after,
                    top,
                )
        }
    }

    /// Moves tables down where a level holds too many: where level 0 holds
    /// more than four, all its tables but the newest, and nothing else;
    /// else, from each level between 1 and the last that holds more than
    /// its capacity, the table that overlaps the fewest tables of the next
    /// level. `rebalanced` says what is moved and what is written. What the
    /// tables record against a key stays as it is. The planner fails only
    /// where the table numbers do not suffice: `rebalance_fits` says when
    /// they do, and they do wherever `roomy` holds; `grown` bounds what the
    /// planner takes. It keeps the key ranges of the tables of each level
    /// from 1 on apart where `rebalance_keeps` says so.
    pub fn rebalance(&mut self) -> (r: Result<(), Error>)
        requires
            old(self).inv_without_first(),
        ensures
            final(self).inv_without_first(),
            final(self).memstores == old(self).memstores,
            final(self).threshold == old(self).threshold,
            old(self).disk_wf() ==> final(self).disk_wf() && (forall|key: Seq<u8>|
                #[trigger] final(self).disk_lookup(key) == old(self).disk_lookup(key)) && (r is Err
                ==> final(self).toc@.next_table_id == u64::MAX),
            old(self).disk_wf() && r is Ok ==> (if old(self).toc@.level_ids(0).len() > 4 {
                forall|id: u64|
                    #[trigger] final(self).toc@.level_ids(0).contains(id) <==> newest_of(
                        old(self).toc@,
                        id,
                    )
            } else {
                final(self).toc@.level_ids(0) == old(self).toc@.level_ids(0)
            }),
            old(self).disk_wf() && r is Ok ==> Store::rebalanced(
                old(self).disk(),
                final(self).disk(),
            ),
            old(self).disk_wf() && r is Ok && old(self).toc@.level_ids(0).len() <= 4 ==> forall|
                level: u64,
            | #[trigger]
                first_full(old(self).toc@, level) ==> exists|id: u64|
                    goes_down(old(self).toc@, level, id) && final(self).toc@.level_ids(level)
                        == old(self).toc@.level_ids(level).remove(id),
            quiet(old(self).toc@) ==> r is Ok && final(self).toc == old(self).toc
                && final(self).directory == old(self).directory,
            old(self).disk_wf() && Store::rebalance_fits(old(self).disk()) ==> r is Ok,
            old(self).disk_wf() && Store::roomy(old(self).disk()) ==> r is Ok,
            old(self).disk_wf() && r is Ok ==> held(final(self).disk()) <= held(old(self).disk()),
            old(self).disk_wf() && r is Ok ==> forall|top: u64|
                (forall|l: u64| old(self).toc@.levels.contains(l) ==> l <= top)
                    ==> #[trigger] Store::grown(
                    old(self).disk(),
                    final(self).disk(),
                    top,
                ),
            old(self).disk_wf() && r is Ok && levels_apart(old(self).toc@) && Store::rebalance_keeps(
                old(self).disk(),
            ) ==> levels_apart(final(self).toc@),
    {
        let level_zero: Vec<u64> = self.toc.tables_at(0);
        proof {
            lemma_ascending_len(level_zero@);
        }
        if level_zero.len() > 4 {
            // All but the newest, which has the greatest number; the newest
            // of them first.
            let mut table_ids: Vec<TableId> = Vec::new();
            let mut k: usize = level_zero.len() - 1;
            while k > 0
                invariant
                    0 <= k < level_zero@.len(),
                    table_ids@.len() == level_zero@.len() - 1 - k,
                    forall|i: int|
                        0 <= i < table_ids@.len() ==> (#[trigger] table_ids@[i]).0
                            == level_zero@[level_zero@.len() - 2 - i],
                decreases k,
            {
                k -= 1;
                table_ids.push(TableId(level_zero[k]));
            }
            proof {
                let n = level_zero@.len() as int;
                let ids = ids_view(table_ids@);
                assert forall|i: int, j: int| 0 <= i < j < ids.len() implies ids[i] != ids[j] by {
                    assert(ids[i] == level_zero@[n - 2 - i]);
                    assert(ids[j] == level_zero@[n - 2 - j]);
                }
                assert forall|i: int| 0 <= i < table_ids@.len() implies self.toc@.tables.contains_key(
                    (#[trigger] table_ids@[i]).0,
                ) && self.toc@.tables[table_ids@[i].0].level == 0 by {
                    assert(level_zero@.to_set().contains(level_zero@[n - 2 - i]));
                    assert(self.toc@.level_ids(0).contains(table_ids@[i].0));
                }
                assert forall|id: u64, i: int|
                    #![trigger self.toc@.tables.contains_key(id), table_ids@[i]]
                    self.toc@.tables.contains_key(id) && self.toc@.tables[id].level == 0
                        && !ids.contains(id) && 0 <= i < table_ids@.len() implies id
                    > table_ids@[i].0 by {
                    assert(self.toc@.level_ids(0).contains(id));
                    assert(level_zero@.to_set().contains(id));
                    let q = choose|q: int| 0 <= q < n && level_zero@[q] == id;
                    if q < n - 1 {
                        assert(ids[n - 2 - q] == id);
                    }
                    assert(table_ids@[i].0 == level_zero@[n - 2 - i]);
                }
            }
            let ghost newest = level_zero@[level_zero@.len() - 1];
            let ghost moved = ids_view(table_ids@).to_set();
            let ghost going = ids_view(table_ids@);
            proof {
                let n = level_zero@.len() as int;
                assert(older_tables(old(self).toc@, going)) by {
                    assert forall|i: int, j: int| 0 <= i < j < going.len() implies going[i]
                        > going[j] by {
                        assert(going[i] == level_zero@[n - 2 - i]);
                        assert(going[j] == level_zero@[n - 2 - j]);
                    }
                    assert forall|id: u64|
                        going.contains(id) <==> #[trigger] old(self).toc@.level_ids(0).contains(
                            id,
                        ) && !newest_of(old(self).toc@, id) by {
                        if going.contains(id) {
                            let i = choose|i: int| 0 <= i < going.len() && going[i] == id;
                            assert(going[i] == level_zero@[n - 2 - i]);
                            assert(level_zero@.to_set().contains(level_zero@[n - 2 - i]));
                            assert(level_zero@[n - 2 - i] < level_zero@[n - 1]);
                            assert(level_zero@.to_set().contains(level_zero@[n - 1]));
                        }
                        if old(self).toc@.level_ids(0).contains(id) && !newest_of(
                            old(self).toc@,
                            id,
                        ) {
                            assert(level_zero@.to_set().contains(id));
                            let q = choose|q: int| 0 <= q < n && level_zero@[q] == id;
                            if q == n - 1 {
                                assert forall|o: u64|
                                    old(self).toc@.level_ids(0).contains(o) implies o
                                    <= id by {
                                    assert(level_zero@.to_set().contains(o));
                                    let w = choose|w: int| 0 <= w < n && level_zero@[w] == o;
                                    if w < n - 1 {
                                        assert(level_zero@[w] < level_zero@[n - 1]);
                                    }
                                }
                            } else {
                                assert(going[n - 2 - q] == id);
                            }
                        }
                    }
                }
            }
            proof {
                if self.disk_wf() && Store::roomy(self.disk()) {
                    let n = level_zero@.len() as int;
                    assert(level_zero@.to_set().contains(level_zero@[n - 1]));
                    assert(self.toc@.level_ids(0).contains(level_zero@[n - 1]));
                    assert(self.toc.table_infos@.contains_key(level_zero@[n - 1]));
                    assert(self.toc@.levels.contains(0));
                    let w = held(self.disk());
                    assert((0 + 1) * w == w) by (nonlinear_arith);
                }
            }
            let r = self.relevel(0, table_ids);
            proof {
                if old(self).disk_wf() && r is Ok {
                    let n = level_zero@.len() as int;
                    let w = held(old(self).disk());
                    assert forall|top: u64|
                        (forall|l: u64| old(self).toc@.levels.contains(l) ==> l <= top)
                        implies #[trigger] Store::grown(old(self).disk(), self.disk(), top) by {
                        assert(w <= (top + 1) * w) by (nonlinear_arith)
                            requires
                                0 <= top,
                                0 <= w,
                        ;
                    }
                    assert(Store::moved(old(self).disk(), self.disk(), 0, going));
                    assert(level_zero@.to_set().contains(level_zero@[n - 1]));
                    assert forall|o: u64| old(self).toc@.level_ids(0).contains(o) implies o
                        <= newest by {
                        assert(level_zero@.to_set().contains(o));
                        let q = choose|q: int| 0 <= q < n && level_zero@[q] == o;
                        if q < n - 1 {
                            assert(level_zero@[q] < level_zero@[n - 1]);
                        }
                    }
                    assert(!moved.contains(newest)) by {
                        if moved.contains(newest) {
                            let q = choose|q: int|
                                0 <= q < ids_view(table_ids@).len() && ids_view(table_ids@)[q]
                                    == newest;
                            assert(table_ids@[q].0 == level_zero@[n - 2 - q]);
                            assert(level_zero@[n - 2 - q] < level_zero@[n - 1]);
                        }
                    }
                    assert forall|id: u64| #[trigger]
                        self.toc@.level_ids(0).contains(id) <==> newest_of(old(self).toc@, id) by {
                        if self.toc@.level_ids(0).contains(id) {
                            assert(self.toc@.tables.contains_key(id));
                            assert(old(self).toc@.level_ids(0).contains(id));
                            assert(level_zero@.to_set().contains(id));
                            let q = choose|q: int| 0 <= q < n && level_zero@[q] == id;
                            if q < n - 1 {
                                assert(ids_view(table_ids@)[n - 2 - q] == id);
                                assert(moved.contains(id));
                            }
                        }
                        if newest_of(old(self).toc@, id) {
                            assert(id == newest);
                            assert(old(self).toc@.tables.contains_key(id));
                        }
                    }
                }
            }
            return r;
        }
        let levels: Vec<u64> = self.toc.levels();
        if levels.len() == 0 {
            proof {
                assert(self.toc@.levels =~= Set::<u64>::empty());
                let w = held(self.disk());
                assert forall|top: u64|
                    (forall|l: u64| self.toc@.levels.contains(l) ==> l <= top)
                    implies #[trigger] Store::grown(self.disk(), self.disk(), top) by {
                    assert(0 <= (top + 1) * w) by (nonlinear_arith)
                        requires
                            0 <= top,
                            0 <= w,
                    ;
                }
                assert forall|level: u64| !first_full(self.toc@, level) by {
                    if first_full(self.toc@, level) {
                        let m = choose|m: u64| #[trigger] self.toc@.levels.contains(m) && level < m;
                        assert(levels@.to_set().contains(m));
                    }
                }
            }
            return Ok(());
        }
        let max_level: u64 = levels[levels.len() - 1];
        proof {
            assert forall|m: u64| #[trigger] self.toc@.levels.contains(m) implies m <= max_level by {
                assert(levels@.to_set().contains(m));
                let q = choose|q: int| 0 <= q < levels@.len() && levels@[q] == m;
                if q < levels@.len() - 1 {
                    assert(levels@[q] < levels@[levels@.len() - 1]);
                }
            }
            assert(levels@.to_set().contains(levels@[levels@.len() - 1]));
        }
        let ghost sound = self.disk_wf();
        let ghost fits = Store::rebalance_fits(self.disk());
        let ghost spare = Store::roomy(self.disk());
        let ghost w0 = held(self.disk());
        proof {
            if spare {
                let more = (max_level + 1) as int;
                let here = (max_level + 1 - 1) as int;
                assert(here * w0 <= more * w0) by (nonlinear_arith)
                    requires
                        0 <= here <= more,
                        0 <= w0,
                ;
            }
        }
        let ghost first: Option<(u64, u64)> = None;
        let mut level: u64 = 1;
        proof {
            Store::lemma_passed_start(old(self).disk(), self.disk(), 1);
        }
        while level < max_level
            invariant
                1 <= level,
                level <= max_level || level == 1,
                sound ==> Store::passed(old(self).disk(), self.disk(), level),
                fits ==> Store::pass_fits(old(self).disk(), max_level),
                fits == Store::rebalance_fits(old(self).disk()),
                sound && levels_apart(old(self).toc@) ==> levels_apart(self.toc@),
                spare == Store::roomy(old(self).disk()),
                w0 == held(old(self).disk()),
                sound ==> held(self.disk()) <= w0,
                sound ==> old(self).toc@.next_table_id <= self.toc@.next_table_id <= old(self).toc@.next_table_id + (level - 1) * w0,
                sound ==> forall|l: u64| #[trigger] self.toc@.levels.contains(l) ==> l <= max_level,
                sound && spare ==> self.toc@.next_table_id + (max_level + 1 - level) * w0
                    <= u64::MAX,
                self.inv_without_first(),
                self.memstores == old(self).memstores,
                self.threshold == old(self).threshold,
                sound == old(self).disk_wf(),
                sound ==> self.disk_wf(),
                sound ==> forall|key: Seq<u8>|
                    #[trigger] self.disk_lookup(key) == old(self).disk_lookup(key),
                sound ==> self.toc@.level_ids(0) == old(self).toc@.level_ids(0),
                old(self).toc@.level_ids(0).len() <= 4,
                quiet(old(self).toc@) ==> self.toc == old(self).toc
                    && self.directory == old(self).directory,
                old(self).toc@.levels.contains(max_level),
                forall|m: u64| #[trigger] old(self).toc@.levels.contains(m) ==> m <= max_level,
                first is None ==> self.toc == old(self).toc && forall|l: u64|
                    1 <= l < level ==> #[trigger] old(self).toc@.level_ids(l).len() <= capacity(
                        l as nat,
                    ),
                first matches Some(f) ==> f.0 < level && first_full(old(self).toc@, f.0)
                    && goes_down(old(self).toc@, f.0, f.1),
                sound ==> (first matches Some(f)
                    ==> self.toc@.level_ids(f.0) == old(self).toc@.level_ids(f.0).remove(f.1)
                    && forall|l: u64|
                    l < f.0 ==> #[trigger] self.toc@.level_ids(l) == old(self).toc@.level_ids(l)),
            decreases max_level - level,
        {
            let table_ids: Vec<u64> = self.toc.tables_at(level);
            let room: Option<usize> = level_capacity(level);
            let over: bool = match room {
                Some(c) => table_ids.len() > c,
                None => false,
            };
            proof {
                lemma_ascending_len(table_ids@);
                assert(table_ids@.len() == table_ids.len());
                assert(over == (table_ids@.len() > capacity(level as nat))) by {
                    match room {
                        Some(c) => {
                            assert(c == capacity(level as nat));
                        },
                        None => {
                            assert(capacity(level as nat) > usize::MAX);
                        },
                    }
                }
                if quiet(old(self).toc@) {
                    assert(old(self).toc@.level_ids(level).len() <= capacity(level as nat));
                    assert(!over);
                }
            }
            let ghost here = *self;
            proof {
                assert(over == (here.toc@.level_ids(level).len() > capacity(level as nat)));
                if first is None && !over {
                    assert(self.toc@ == old(self).toc@);
                    assert(table_ids@.to_set().len() == table_ids@.len());
                    assert(table_ids@.to_set() == old(self).toc@.level_ids(level));
                    assert(old(self).toc@.level_ids(level).len() == table_ids@.len());
                    assert(table_ids@.len() <= capacity(level as nat));
                    assert(old(self).toc@.level_ids(level).len() <= capacity(level as nat));
                }
            }
            if over {
                // The table that overlaps the fewest tables of the next level
                // goes down; of several, the one with the least number.
                match Store::pick_table(&self.toc, level, &table_ids) {
                    Some(picked) => {
                        let mut one: Vec<TableId> = Vec::new();
                        one.push(TableId(picked));
                        let ghost before = *self;
                        proof {
                            assert(ids_view(one@) =~= seq![picked]);
                            assert(ids_view(one@).to_set() =~= set![picked]) by {
                                assert(seq![picked][0] == picked);
                                assert(seq![picked].contains(picked));
                            }
                        }
                        proof {
                            if sound && spare {
                                let f = (max_level + 1 - level) as int;
                                assert(w0 <= f * w0) by (nonlinear_arith)
                                    requires
                                        1 <= f,
                                        0 <= w0,
                                ;
                            }
                        }
                        match self.relevel(level, one) {
                            Ok(_) => {},
                            Err(e) => {
                                return Err(e);
                            },
                        }
                        proof {
                            if sound && spare {
                                let f = (max_level + 1 - level) as int;
                                assert(f * w0 == (f - 1) * w0 + w0) by (nonlinear_arith);
                            }
                        }
                        proof {
                            if sound {
                                assert(before.relevel_ready(level, one@));
                                assert(Store::moved(
                                    before.disk(),
                                    self.disk(),
                                    level,
                                    seq![picked],
                                ));
                                assert(releveled(before.toc@, self.toc@, level, set![picked]));
                                Store::lemma_levels_kept(before.toc@, self.toc@, level, picked);
                                assert(self.toc@.level_ids(0) == before.toc@.level_ids(0));
                            }
                            if first is None {
                                assert(before.toc@ == old(self).toc@);
                                first = Some((level, picked));
                            }
                        }
                    },
                    None => {},
                }
            }
            proof {
                if sound {
                    assert(Store::level_step(here.disk(), self.disk(), level));
                    Store::lemma_passed_step(old(self).disk(), here.disk(), self.disk(), level);
                }
                if sound && spare {
                    let f = (max_level + 1 - level) as int;
                    assert(f * w0 == (f - 1) * w0 + w0) by (nonlinear_arith);
                    assert(self.toc@.next_table_id <= here.toc@.next_table_id + w0);
                }
                if sound {
                    let g = (level - 1) as int;
                    assert((g + 1) * w0 == g * w0 + w0) by (nonlinear_arith);
                    assert(self.toc@.next_table_id <= here.toc@.next_table_id + w0);
                }
            }
            level += 1;
        }
        proof {
            if sound {
                assert forall|top: u64|
                    (forall|l: u64| old(self).toc@.levels.contains(l) ==> l <= top)
                    implies #[trigger] Store::grown(old(self).disk(), self.disk(), top) by {
                    assert(max_level <= top);
                    let g = (level - 1) as int;
                    assert(g * w0 <= (top + 1) * w0) by (nonlinear_arith)
                        requires
                            0 <= g <= top + 1,
                            0 <= w0,
                    ;
                }
                if max_level <= 1 {
                    Store::lemma_passed_start(old(self).disk(), self.disk(), 1);
                    Store::lemma_passed_start(old(self).disk(), self.disk(), max_level);
                }
                assert(Store::passed(old(self).disk(), self.disk(), max_level));
                assert(old(self).toc@.levels.contains(max_level));
                assert(Store::rebalanced(old(self).disk(), self.disk()));
                assert forall|l: u64| first_full(old(self).toc@, l) implies exists|id: u64|
                    goes_down(old(self).toc@, l, id)
                        && self.toc@.level_ids(l) == old(self).toc@.level_ids(l).remove(id) by {
                    let m = choose|m: u64| #[trigger] old(self).toc@.levels.contains(m) && l < m;
                    assert(l < max_level);
                    match first {
                        None => {
                            assert(old(self).toc@.level_ids(l).len() <= capacity(l as nat));
                        },
                        Some(f) => {
                            if l < f.0 {
                                assert(old(self).toc@.level_ids(l).len() <= capacity(l as nat));
                            } else if f.0 < l {
                                assert(old(self).toc@.level_ids(f.0).len() <= capacity(f.0 as nat));
                            }
                            assert(l == f.0);
                            assert(goes_down(old(self).toc@, l, f.1));
                        },
                    }
                }
            }
        }
        Ok(())
    }

    /// Moving a table of level `level` down leaves the levels before
    /// `level` as they are, and takes the table out of level `level`.
    proof fn lemma_levels_kept(before: TocView, after: TocView, level: u64, id: u64)
        requires
            level < u64::MAX,
            before.level_ids(level).contains(id),
            releveled(before, after, level, set![id]),
        ensures
            after.level_ids(level) == before.level_ids(level).remove(id),
            forall|l: u64| l < level ==> #[trigger] after.level_ids(l) == before.level_ids(l),
    {
        assert forall|l: u64| l < level implies #[trigger] after.level_ids(l) == before.level_ids(
            l,
        ) by {
            assert forall|x: u64| after.level_ids(l).contains(x) == before.level_ids(l).contains(
                x,
            ) by {
                if before.level_ids(l).contains(x) {
                    assert(before.tables.contains_key(x));
                    assert(x != id);
                }
                if after.level_ids(l).contains(x) {
                    assert(after.tables.contains_key(x));
                }
            }
            assert(after.level_ids(l) =~= before.level_ids(l));
        }
        assert forall|x: u64|
            after.level_ids(level).contains(x) == before.level_ids(level).remove(id).contains(
                x,
            ) by {
            if before.level_ids(level).contains(x) && x != id {
                assert(before.tables.contains_key(x));
            }
            if after.level_ids(level).contains(x) {
                assert(after.tables.contains_key(x));
            }
        }
        assert(after.level_ids(level) =~= before.level_ids(level).remove(id));
    }

    /// What must hold of tables that are moved down: there is one, each is
    /// named once and is a table of its level; and, at level 0, the newest is named first,
    /// and the tables that stay are newer than those that go.
    pub open spec fn relevel_ready(&self, level: u64, tables: Seq<TableId>) -> bool {
        &&& tables.len() > 0
        &&& ids_view(tables).no_duplicates()
        &&& forall|i: int|
            0 <= i < tables.len() ==> self.toc@.tables.contains_key((#[trigger] tables[i]).0)
                && self.toc@.tables[tables[i].0].level == level
        &&& level == 0 ==> forall|i: int, j: int|
            0 <= i < j < tables.len() ==> (#[trigger] tables[i]).0 > (#[trigger] tables[j]).0
        &&& level == 0 ==> forall|id: u64, i: int|
            #![trigger self.toc@.tables.contains_key(id), tables[i]]
            self.toc@.tables.contains_key(id) && self.toc@.tables[id].level == 0 && !ids_view(
                tables,
            ).contains(id) && 0 <= i < tables.len() ==> id > tables[i].0
    }

    /// What is recorded of the tables `tables`.
    fn collect_infos(&self, tables: &Vec<TableId>) -> (r: Result<Vec<TableInfo>, Error>)
        ensures
            match r {
                Ok(infos) => infos@.len() == tables@.len() && forall|i: int|
                    0 <= i < tables@.len() ==> self.toc@.tables.contains_key(
                        (#[trigger] tables@[i]).0,
                    ) && infos@[i]@ == self.toc@.tables[tables@[i].0],
                Err(_) => exists|i: int|
                    0 <= i < tables@.len() && !self.toc@.tables.contains_key(
                        (#[trigger] tables@[i]).0,
                    ),
            },
    {
        let mut table_infos: Vec<TableInfo> = Vec::new();
        let mut i: usize = 0;
        while i < tables.len()
            invariant
                0 <= i <= tables@.len(),
                table_infos@.len() == i,
                forall|k: int|
                    0 <= k < i ==> self.toc@.tables.contains_key((#[trigger] tables@[k]).0)
                        && table_infos@[k]@ == self.toc@.tables[tables@[k].0],
            decreases tables@.len() - i,
        {
            match self.toc.info(tables[i].0) {
                Some(t) => {
                    table_infos.push(t.clone());
                },
                None => {
                    return mk_err("invalid toc");
                },
            }
            i += 1;
        }
        Ok(table_infos)
    }
}

impl Store {
    /// What moving the tables `ids` of level `level` down does to the store
    /// `before`. Where they overlap neither one another nor a table of the
    /// next level, they are moved as they are. Else they are merged, in
    /// their order, with the tables of the next level that they overlap, in
    /// the order of their numbers.
    pub open spec fn moved(before: Disk, after: Disk, level: u64, ids: Seq<u64>) -> bool {
        let lower = overlapped_by(before.toc, level, ids);
        if lower == Set::<u64>::empty() && apart(before.toc, ids) {
            Store::shifted(before, after, level, ids)
        } else {
            exists|low: Seq<u64>, bounds: Seq<int>| #[trigger]
                Store::merged_into(before, after, level, ids + low, bounds) && low.to_set()
                    == lower && forall|a: int, b: int| 0 <= a < b < low.len() ==> low[a] < low[b]
        }
    }

    /// The table numbers that are left suffice to move the tables `ids` of
    /// level `level` down: the tables are moved as they are, which takes no
    /// number, or the numbers suffice for their merge with the tables of
    /// the next level that they overlap.
    pub open spec fn move_fits(before: Disk, level: u64, ids: Seq<u64>) -> bool {
        let lower = overlapped_by(before.toc, level, ids);
        (lower == Set::<u64>::empty() && apart(before.toc, ids)) || forall|low: Seq<u64>|
            #![trigger Store::merge_fits(before, ids + low)]
            low.to_set() == lower && (forall|a: int, b: int|
                0 <= a < b < low.len() ==> low[a] < low[b]) ==> Store::merge_fits(
                before,
                ids + low,
            )
    }

    /// The table numbers suffice to move tables of a level down where there
    /// is one for each entry that the tables of the store hold.
    pub proof fn lemma_move_fits(&self, level: u64, ids: Seq<u64>)
        requires
            self.disk_wf(),
            level < u64::MAX,
            ids.no_duplicates(),
            forall|i: int| 0 <= i < ids.len() ==> self.toc@.level_ids(level).contains(#[trigger] ids[i]),
            self.toc@.next_table_id + held(self.disk()) <= u64::MAX,
        ensures
            Store::move_fits(self.disk(), level, ids),
    {
        let before = self.disk();
        let t = self.tables();
        let lower = overlapped_by(before.toc, level, ids);
        self.lemma_tables();
        assert forall|low: Seq<u64>|
            #![trigger Store::merge_fits(before, ids + low)]
            low.to_set() == lower && (forall|a: int, b: int|
                0 <= a < b < low.len() ==> low[a] < low[b]) implies Store::merge_fits(
            before,
            ids + low,
        ) by {
            let src = ids + low;
            assert forall|i: int| 0 <= i < src.len() implies t.contains_key(#[trigger] src[i])
                && src[i] < before.toc.next_table_id && self.toc@.tables[src[i]].level == (if i
                < ids.len() {
                level
            } else {
                (level + 1) as u64
            }) by {
                if i < ids.len() {
                    assert(src[i] == ids[i]);
                    assert(self.toc@.level_ids(level).contains(ids[i]));
                } else {
                    assert(src[i] == low[i - ids.len()]);
                    assert(low.to_set().contains(low[i - ids.len()]));
                    assert(lower.contains(src[i]));
                }
                assert(self.toc.table_infos@.contains_key(src[i]));
            }
            assert(src.no_duplicates()) by {
                assert forall|i: int, j: int| 0 <= i < src.len() && 0 <= j < src.len() && i
                    != j implies src[i] != src[j] by {
                    let p = ids.len() as int;
                    if i < p && j < p {
                        assert(src[i] == ids[i] && src[j] == ids[j]);
                    } else if i >= p && j >= p {
                        assert(src[i] == low[i - p] && src[j] == low[j - p]);
                        if i < j {
                            assert(low[i - p] < low[j - p]);
                        } else {
                            assert(low[j - p] < low[i - p]);
                        }
                    } else {
                        assert(self.toc@.tables[src[i]].level != self.toc@.tables[src[j]].level);
                    }
                }
            }
            lemma_entries_of(t, src, before.toc.next_table_id as nat);
            crate::merging::lemma_merged_len(source_runs(t, src), Direction::Forward);
        }
    }

    /// Moving the tables `ids` of level `level` down keeps the key ranges of
    /// the tables of each level from 1 on apart: the tables are moved as
    /// they are; or one table of a level from 1 on is merged; or no table of
    /// the next level that is not merged reaches in between the first and
    /// the last key of the merged tables. The last is what a merge of
    /// several tables of level 0 needs.
    pub open spec fn move_keeps(before: Disk, level: u64, ids: Seq<u64>) -> bool {
        let lower = overlapped_by(before.toc, level, ids);
        ||| lower == Set::<u64>::empty() && apart(before.toc, ids)
        ||| level >= 1 && ids.len() == 1
        ||| forall|low: Seq<u64>|
            #![trigger hull_clear(before.toc, level, ids + low)]
            low.to_set() == lower && (forall|a: int, b: int|
                0 <= a < b < low.len() ==> low[a] < low[b]) ==> hull_clear(
                before.toc,
                level,
                ids + low,
            )
    }

    /// Where the key ranges of the tables of each level from 1 on are apart,
    /// no table of the next level reaches in between the first and the last
    /// key of one table and the tables of the next level that it overlaps.
    proof fn lemma_single_clear(&self, level: u64, id: u64, low: Seq<u64>)
        requires
            self.tables_sound(),
            1 <= level < u64::MAX,
            self.toc@.level_ids(level).contains(id),
            low.to_set() == overlapped_by(self.toc@, level, seq![id]),
            levels_apart(self.toc@),
        ensures
            hull_clear(self.toc@, level, seq![id] + low),
    {
        let toc = self.toc@;
        let src = seq![id] + low;
        let s = toc.tables[id];
        self.lemma_range_of(id);
        lemma_find_at(self.tables()[id].items, 0);
        lemma_keys_in_range(self.tables()[id].items, self.tables()[id].items.first().0);
        assert forall|o: u64, x: int, y: int|
            #![trigger toc.tables[o], src[x], src[y]]
            toc.level_ids((level + 1) as u64).contains(o) && !src.contains(o) && 0 <= x < src.len()
                && 0 <= y < src.len() implies lex_lt(
            toc.tables[o].biggest_key,
            toc.tables[src[x]].smallest_key,
        ) || lex_lt(toc.tables[src[y]].biggest_key, toc.tables[o].smallest_key) by {
            let t = toc.tables[o];
            let tx = toc.tables[src[x]];
            let ty = toc.tables[src[y]];
            self.lemma_range_of(o);
            lemma_find_at(self.tables()[o].items, 0);
            lemma_keys_in_range(self.tables()[o].items, self.tables()[o].items.first().0);
            assert(lex_le(t.smallest_key, t.biggest_key));
            assert(lex_le(s.smallest_key, s.biggest_key));
            // The table overlaps neither the one table nor a table that it overlaps.
            assert(!low.contains(o)) by {
                if low.contains(o) {
                    let k = choose|k: int| 0 <= k < low.len() && low[k] == o;
                    assert(src[k + 1] == o);
                }
            }
            assert(!ranges_overlap(t, s)) by {
                if ranges_overlap(t, s) {
                    assert(seq![id][0] == id);
                    assert(overlapped_by(toc, level, seq![id]).contains(o));
                    assert(low.to_set().contains(o));
                }
            }
            assert(src[0] == id);
            assert(!ranges_overlap(t, tx) && !lex_lt(tx.biggest_key, s.smallest_key)) by {
                lemma_lex_trichotomy(s.smallest_key, s.biggest_key);
                if x > 0 {
                    let z = src[x];
                    assert(z == low[x - 1]);
                    assert(low.to_set().contains(low[x - 1]));
                    assert(overlapped_by(toc, level, seq![id]).contains(z));
                    assert(src.contains(z));
                    assert(toc.level_ids((level + 1) as u64).contains(z));
                    let i = choose|i: int|
                        0 <= i < seq![id].len() && ranges_overlap(
                            toc.tables[z],
                            toc.tables[#[trigger] seq![id][i]],
                        );
                    assert(seq![id][i] == id);
                    assert(ranges_overlap(toc.tables[z], s));
                    assert(toc.tables.contains_key(o) && toc.tables.contains_key(z) && o != z);
                    assert(!ranges_overlap(toc.tables[o], toc.tables[z]));
                } else {
                    assert(tx == s);
                }
            }
            assert(!ranges_overlap(t, ty) && !lex_lt(s.biggest_key, ty.smallest_key)) by {
                lemma_lex_trichotomy(s.smallest_key, s.biggest_key);
                if y > 0 {
                    let z = src[y];
                    assert(z == low[y - 1]);
                    assert(low.to_set().contains(low[y - 1]));
                    assert(overlapped_by(toc, level, seq![id]).contains(z));
                    assert(src.contains(z));
                    assert(toc.level_ids((level + 1) as u64).contains(z));
                    let i = choose|i: int|
                        0 <= i < seq![id].len() && ranges_overlap(
                            toc.tables[z],
                            toc.tables[#[trigger] seq![id][i]],
                        );
                    assert(seq![id][i] == id);
                    assert(ranges_overlap(toc.tables[z], s));
                    assert(toc.tables.contains_key(o) && toc.tables.contains_key(z) && o != z);
                    assert(!ranges_overlap(toc.tables[o], toc.tables[z]));
                } else {
                    assert(ty == s);
                }
            }
            if !lex_lt(t.biggest_key, tx.smallest_key) && !lex_lt(
                ty.biggest_key,
                t.smallest_key,
            ) {
                // The table lies behind the one and before the other.
                assert(lex_lt(tx.biggest_key, t.smallest_key));
                assert(lex_lt(t.biggest_key, ty.smallest_key));
                lemma_lex_trichotomy(tx.biggest_key, s.smallest_key);
                lemma_lex_trichotomy(s.biggest_key, ty.smallest_key);
                if lex_lt(t.biggest_key, s.smallest_key) {
                    lemma_lex_le_transitive(tx.biggest_key, t.smallest_key, t.biggest_key);
                    lemma_lex_le_transitive(tx.biggest_key, t.biggest_key, s.smallest_key);
                    lemma_lex_le_transitive(tx.biggest_key, s.smallest_key, tx.biggest_key);
                    lemma_lex_trichotomy(tx.biggest_key, tx.biggest_key);
                } else {
                    assert(lex_lt(s.biggest_key, t.smallest_key));
                    lemma_lex_le_transitive(ty.smallest_key, s.biggest_key, t.smallest_key);
                    lemma_lex_le_transitive(ty.smallest_key, t.smallest_key, t.biggest_key);
                    lemma_lex_le_transitive(ty.smallest_key, t.biggest_key, ty.smallest_key);
                    lemma_lex_trichotomy(ty.smallest_key, ty.smallest_key);
                }
            }
        }
    }

    /// What the tables of the next level that overlap the tables `tables`
    /// are, and whether the tables overlap one another, in terms of what is
    /// recorded of the tables.
    proof fn lemma_overlapped_by(
        toc: TocView,
        level: u64,
        tables: Seq<TableId>,
        infos: Seq<TableInfo>,
        lower: Seq<TableId>,
    )
        requires
            infos.len() == tables.len(),
            forall|i: int| 0 <= i < tables.len() ==> (#[trigger] infos[i])@ == toc.tables[tables[i].0],
            Store::is_lower(toc, level, infos, lower),
        ensures
            ids_view(lower).to_set() == overlapped_by(toc, level, ids_view(tables)),
            lower.len() == 0 <==> overlapped_by(toc, level, ids_view(tables)) == Set::<u64>::empty(),
            apart(toc, ids_view(tables)) <==> forall|i: int, j: int|
                0 <= i < j < infos.len() ==> !ranges_overlap(#[trigger] infos[i]@, #[trigger] infos[j]@),
            forall|a: int, b: int|
                0 <= a < b < ids_view(lower).len() ==> ids_view(lower)[a] < ids_view(lower)[b],
            ids_view(tables + lower) == ids_view(tables) + ids_view(lower),
    {
        let ids = ids_view(tables);
        let low = ids_view(lower);
        let set = overlapped_by(toc, level, ids);
        assert forall|o: u64| Store::overlaps_any(toc, o, infos) <==> exists|i: int|
            0 <= i < ids.len() && ranges_overlap(toc.tables[o], toc.tables[#[trigger] ids[i]]) by {
            if Store::overlaps_any(toc, o, infos) {
                let k = choose|k: int|
                    0 <= k < infos.len() && ranges_overlap(toc.tables[o], #[trigger] infos[k]@);
                assert(infos[k]@ == toc.tables[tables[k].0]);
                assert(ids[k] == tables[k].0);
            }
            if exists|i: int|
                0 <= i < ids.len() && ranges_overlap(toc.tables[o], toc.tables[#[trigger] ids[i]]) {
                let i = choose|i: int|
                    0 <= i < ids.len() && ranges_overlap(
                        toc.tables[o],
                        toc.tables[#[trigger] ids[i]],
                    );
                assert(infos[i]@ == toc.tables[tables[i].0]);
            }
        }
        assert forall|o: u64| low.to_set().contains(o) <==> set.contains(o) by {
            if low.to_set().contains(o) {
                let a = choose|a: int| 0 <= a < low.len() && low[a] == o;
                assert(lower[a].0 == o);
            }
            if set.contains(o) {
                assert(Store::overlaps_any(toc, o, infos));
                let a = choose|a: int| 0 <= a < lower.len() && #[trigger] lower[a].0 == o;
                assert(low[a] == o);
            }
        }
        assert(low.to_set() =~= set);
        if lower.len() > 0 {
            assert(low[0] == lower[0].0);
            assert(low.to_set().contains(low[0]));
        } else {
            assert(set =~= Set::<u64>::empty());
        }
        if apart(toc, ids) {
            assert forall|i: int, j: int| 0 <= i < j < infos.len() implies !ranges_overlap(
                #[trigger] infos[i]@,
                #[trigger] infos[j]@,
            ) by {
                assert(infos[i]@ == toc.tables[ids[i]]);
                assert(infos[j]@ == toc.tables[ids[j]]);
            }
        }
        if forall|i: int, j: int|
            0 <= i < j < infos.len() ==> !ranges_overlap(
                #[trigger] infos[i]@,
                #[trigger] infos[j]@,
            ) {
            assert forall|i: int, j: int| 0 <= i < j < ids.len() implies !ranges_overlap(
                toc.tables[#[trigger] ids[i]],
                toc.tables[#[trigger] ids[j]],
            ) by {
                assert(infos[i]@ == toc.tables[tables[i].0]);
                assert(infos[j]@ == toc.tables[tables[j].0]);
            }
        }
        assert(ids_view(tables + lower) =~= ids + low);
    }

    /// Moves the tables `tables` of level `level` down by one level.
    /// `tables` is in order of precedence: where two of them hold a key,
    /// the one that comes first supersedes the other. Where they overlap
    /// neither one another nor a table of the next level, they are moved as
    /// they are; else they are merged with the tables of the next level
    /// that they overlap, into new tables. The move fails only where the
    /// table numbers do not suffice for the merge.
    fn relevel(&mut self, level: LevelNumber, tables: Vec<TableId>) -> (r: Result<(), Error>)
        requires
            old(self).inv_without_first(),
            level < u64::MAX,
        ensures
            final(self).inv_without_first(),
            final(self).memstores == old(self).memstores,
            final(self).threshold == old(self).threshold,
            old(self).disk_wf() && old(self).relevel_ready(level, tables@)
                ==> final(self).disk_wf() && (forall|key: Seq<u8>|
                #[trigger] final(self).disk_lookup(key) == old(self).disk_lookup(key)) && (r is Err
                ==> final(self).toc@.next_table_id == u64::MAX) && (r is Ok ==> releveled(
                old(self).toc@,
                final(self).toc@,
                level,
                ids_view(tables@).to_set(),
            )),
            old(self).disk_wf() && old(self).relevel_ready(level, tables@) && r is Ok
                ==> Store::moved(old(self).disk(), final(self).disk(), level, ids_view(tables@)),
            old(self).disk_wf() && old(self).relevel_ready(level, tables@) && Store::move_fits(
                old(self).disk(),
                level,
                ids_view(tables@),
            ) ==> r is Ok,
            old(self).disk_wf() && old(self).relevel_ready(level, tables@) && r is Ok
                && levels_apart(old(self).toc@) && Store::move_keeps(
                old(self).disk(),
                level,
                ids_view(tables@),
            ) ==> levels_apart(final(self).toc@),
            old(self).disk_wf() && old(self).relevel_ready(level, tables@)
                && old(self).toc@.next_table_id + held(old(self).disk()) <= u64::MAX ==> r is Ok,
            old(self).disk_wf() && old(self).relevel_ready(level, tables@) && r is Ok ==> held(
                final(self).disk(),
            ) <= held(old(self).disk())
                && final(self).toc@.next_table_id <= old(self).toc@.next_table_id + held(old(self).disk())
                && final(self).toc@.next_table_id
                >= old(self).toc@.next_table_id
                    && final(self).toc@.levels == old(self).toc@.levels.insert((level + 1) as u64),
    {
        let ghost s0 = *self;
        let ghost sound = self.disk_wf() && self.relevel_ready(level, tables@);
        proof {
            if sound && self.toc@.next_table_id + held(self.disk()) <= u64::MAX {
                assert forall|i: int| 0 <= i < ids_view(tables@).len() implies self.toc@.level_ids(
                    level,
                ).contains(#[trigger] ids_view(tables@)[i]) by {
                    assert(self.toc@.tables.contains_key(tables@[i].0));
                }
                self.lemma_move_fits(level, ids_view(tables@));
            }
        }
        let ghost given = tables@;
        let table_infos: Vec<TableInfo> = match self.collect_infos(&tables) {
            Ok(t) => t,
            Err(e) => {
                return Err(e);
            },
        };
        let lower_overlapping_ids: Vec<TableId> = Store::get_overlapping_tables(
            &self.toc,
            &table_infos,
            level + 1,
        );
        if lower_overlapping_ids.len() == 0 && !Store::self_overlaps(&table_infos) {
            proof {
                assert forall|id: u64|
                    self.toc@.tables.contains_key(id) && self.toc@.tables[id].level == level
                        + 1 implies !#[trigger] Store::overlaps_any(
                    self.toc@,
                    id,
                    table_infos@,
                ) by {
                    if Store::overlaps_any(self.toc@, id, table_infos@) {
                        assert(self.toc@.level_ids((level + 1) as u64).contains(id));
                    }
                }
            }
            proof {
                Store::lemma_overlapped_by(
                    self.toc@,
                    level,
                    given,
                    table_infos@,
                    lower_overlapping_ids@,
                );
            }
            self.move_down(level, tables, table_infos)
        } else {
            let ghost lower = lower_overlapping_ids@;
            proof {
                Store::lemma_overlapped_by(self.toc@, level, given, table_infos@, lower);
                if sound && Store::move_fits(s0.disk(), level, ids_view(given)) {
                    assert(Store::merge_fits(s0.disk(), ids_view(given) + ids_view(lower)));
                    assert(Store::merge_fits(s0.disk(), ids_view(given + lower)));
                }
                if sound && levels_apart(s0.toc@) && Store::move_keeps(
                    s0.disk(),
                    level,
                    ids_view(given),
                ) {
                    if level >= 1 && given.len() == 1 {
                        assert(ids_view(given) =~= seq![given[0].0]);
                        assert(s0.toc@.level_ids(level).contains(given[0].0));
                        s0.lemma_single_clear(level, given[0].0, ids_view(lower));
                    }
                    assert(hull_clear(s0.toc@, level, ids_view(given) + ids_view(lower)));
                    assert(hull_clear(s0.toc@, level, ids_view(given + lower)));
                }
            }
            let r = self.merge_down(level, tables, lower_overlapping_ids, Ghost(table_infos@));
            proof {
                if sound && r is Ok {
                    let bounds = choose|bounds: Seq<int>|
                        Store::merged_into(
                            s0.disk(),
                            self.disk(),
                            level,
                            ids_view(given + lower),
                            bounds,
                        );
                    assert(Store::merged_into(
                        s0.disk(),
                        self.disk(),
                        level,
                        ids_view(given) + ids_view(lower),
                        bounds,
                    ));
                }
            }
            r
        }
    }
}

} // verus!

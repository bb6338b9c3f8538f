//! Moving tables down a level: as they are, where they overlap nothing, or
//! merged with the tables of the next level that they overlap.

use vstd::prelude::*;
use std::collections::Bound;
use crate::disk::{is_table, is_table_of, table_items, table_image, TableBuilder,
    lemma_table_unique, lowerbound_size};
use crate::error::{Error, mk_err};
use crate::iter::{Direction, MutationIterator, MergeIterator, BoxedIterator, merged, runs_of,
    total_upto};
use crate::levels::{Tables, TableData, disk_lookup, key_disjoint, moved_down, may_move_down,
    lemma_move_down, lemma_move_down_disjoint, merged_down, may_merge_down, new_holds,
    first_holder, lemma_merge_down, lemma_merge_down_disjoint};
use crate::merging::{ordered, all_ordered, first_in_runs, lemma_merged, lemma_sorted_is_ordered};
use crate::model::{find, sorted, lemma_find_at, lemma_range_all, piece, cuts, cuts_upto,
    lemma_pieces};
use crate::planner::{ranges_overlap, releveled, levels_apart, hull_clear, held, entries_below,
    lemma_entries_removed, lemma_entries_same, lemma_entries_pieces, lemma_cuts_count};
use crate::store::{Store, Disk, lemma_keys_in_range};
use crate::toc::{TocView, TableInfo, TableInfoView, Entry, EntryView, LevelNumber, append_toc,
    infos_view, ids_view, log_records, lemma_log_records_later, lemma_add_all, lemma_remove_all,
    lemma_gone_all, gone, entry_record};
use crate::util::{Buf, Item, Mutation, TableId, Interval, copy_bytes, lex_lt,
    lemma_lex_trichotomy, lemma_lex_le_transitive};

verus! {

/// The entries of the tables `src`, table by table.
pub open spec fn source_runs(t: Tables, src: Seq<u64>) -> Seq<Seq<Item>> {
    Seq::new(src.len(), |i: int| t[src[i]].items)
}

impl Store {
    /// The change that moves the tables `ids` of level `level` down as they
    /// are: they leave, and enter again one level down.
    pub open spec fn shift_of(toc: TocView, level: u64, ids: Seq<u64>) -> EntryView {
        EntryView {
            removals: ids,
            additions: Seq::new(
                ids.len(),
                |i: int| TableInfoView { level: (level + 1) as u64, ..toc.tables[ids[i]] },
            ),
        }
    }

    /// What moving the tables `ids` of level `level` down as they are does
    /// to the store `before`: the change is applied to the table of
    /// contents and its record stands at the end of the log, so that the
    /// tables stand one level down; and nothing else is changed.
    pub open spec fn shifted(before: Disk, after: Disk, level: u64, ids: Seq<u64>) -> bool {
        let change = Store::shift_of(before.toc, level, ids);
        &&& after.threshold == before.threshold
        &&& before.toc.after(change) == Some(after.toc)
        &&& after.toc.next_table_id == before.toc.next_table_id
        &&& after.toc.levels == before.toc.levels.insert((level + 1) as u64)
        &&& after.directory.tables == before.directory.tables
        &&& after.directory.toc == before.directory.toc + entry_record(change)
        &&& after.tables() == moved_down(before.tables(), ids.to_set(), level)
    }

    /// Tables that are moved as they are hold the entries that they held,
    /// and take no table number.
    pub proof fn lemma_held_shifted(before: Disk, after: Disk, level: u64, ids: Seq<u64>)
        requires
            Store::shifted(before, after, level, ids),
        ensures
            held(after) == held(before),
            after.toc.next_table_id == before.toc.next_table_id,
    {
        lemma_entries_same(after.tables(), before.tables(), before.toc.next_table_id as nat);
    }

    /// Moves tables down as they are: they leave the table of contents
    /// and enter it again one level down.
    pub(crate) fn move_down(&mut self, level: LevelNumber, tables: Vec<TableId>, table_infos: Vec<TableInfo>) -> (r:
        Result<(), Error>)
        requires
            old(self).inv_without_first(),
            level < u64::MAX,
            table_infos@.len() == tables@.len(),
            forall|i: int|
                0 <= i < tables@.len() ==> old(self).toc@.tables.contains_key(
                    (#[trigger] tables@[i]).0,
                ) && table_infos@[i]@ == old(self).toc@.tables[tables@[i].0],
        ensures
            final(self).inv_without_first(),
            final(self).memstores == old(self).memstores,
            final(self).threshold == old(self).threshold,
            old(self).disk_wf() && old(self).relevel_ready(level, tables@) && Store::may_shift(
                old(self).toc@,
                level,
                table_infos@,
            ) ==> r is Ok && final(self).disk_wf() && releveled(
                old(self).toc@,
                final(self).toc@,
                level,
                ids_view(tables@).to_set(),
            ) && Store::shifted(old(self).disk(), final(self).disk(), level, ids_view(tables@))
                && forall|key: Seq<u8>|
                #[trigger] final(self).disk_lookup(key) == old(self).disk_lookup(key),
            old(self).disk_wf() && old(self).relevel_ready(level, tables@) && Store::may_shift(
                old(self).toc@,
                level,
                table_infos@,
            ) && levels_apart(old(self).toc@) ==> levels_apart(final(self).toc@),
            old(self).disk_wf() && old(self).relevel_ready(level, tables@) && Store::may_shift(
                old(self).toc@,
                level,
                table_infos@,
            ) ==> held(final(self).disk()) == held(old(self).disk())
                && final(self).toc@.next_table_id == old(self).toc@.next_table_id,
    {
        let ghost s0 = *self;
        let mut additions: Vec<TableInfo> = Vec::new();
        let mut k: usize = 0;
        while k < table_infos.len()
            invariant
                0 <= k <= table_infos@.len(),
                level < u64::MAX,
                additions@.len() == k,
                forall|i: int|
                    0 <= i < k ==> (#[trigger] additions@[i])@ == (TableInfoView {
                        level: (level + 1) as u64,
                        ..table_infos@[i]@
                    }),
            decreases table_infos@.len() - k,
        {
            let x: &TableInfo = &table_infos[k];
            additions.push(
                TableInfo {
                    id: x.id,
                    level: level + 1,
                    keys_offset: x.keys_offset,
                    file_size: x.file_size,
                    smallest_key: copy_bytes(x.smallest_key.as_slice()),
                    biggest_key: copy_bytes(x.biggest_key.as_slice()),
                },
            );
            k += 1;
        }
        let ghost tables_seq = tables@;
        let entry = Entry { removals: tables, additions: additions };
        let ghost ev = entry@;
        proof {
            assert(ev.removals =~= ids_view(tables_seq));
            assert(Store::is_shift(s0.toc@, level, tables_seq, table_infos@, ev));
            if s0.disk_wf() && s0.relevel_ready(level, tables_seq) {
                Store::lemma_shift_applies(s0, level, tables_seq, table_infos@, ev);
            }
        }
        match append_toc(&mut self.toc, &mut self.directory, entry) {
            Ok(_) => {
                proof {
                    if s0.disk_wf() && s0.relevel_ready(level, tables_seq) && Store::may_shift(
                        s0.toc@,
                        level,
                        table_infos@,
                    ) {
                        Store::lemma_shift(s0, *self, level, tables_seq, table_infos@, ev);
                        Store::lemma_held_shifted(
                            s0.disk(),
                            self.disk(),
                            level,
                            ids_view(tables_seq),
                        );
                        if levels_apart(s0.toc@) {
                            Store::lemma_shift_apart(
                                s0,
                                *self,
                                level,
                                tables_seq,
                                table_infos@,
                                ev,
                            );
                        }
                    }
                }
                Ok(())
            },
            Err(e) => Err(e),
        }
    }

    /// The tables `infos` overlap neither one another nor a table of the
    /// level below `level`.
    pub open spec fn may_shift(toc: TocView, level: u64, infos: Seq<TableInfo>) -> bool {
        &&& forall|i: int, j: int|
            0 <= i < j < infos.len() ==> !ranges_overlap(#[trigger] infos[i]@, #[trigger] infos[j]@)
        &&& forall|id: u64|
            toc.tables.contains_key(id) && toc.tables[id].level == level + 1
                ==> !#[trigger] Store::overlaps_any(toc, id, infos)
    }

    /// The change that moves tables down as they are.
    pub open spec fn is_shift(
        toc: TocView,
        level: u64,
        tables: Seq<TableId>,
        infos: Seq<TableInfo>,
        ev: EntryView,
    ) -> bool {
        &&& infos.len() == tables.len()
        &&& ev.removals == ids_view(tables)
        &&& ev.additions.len() == tables.len()
        &&& forall|i: int|
            0 <= i < tables.len() ==> toc.tables.contains_key((#[trigger] tables[i]).0)
                && infos[i]@ == toc.tables[tables[i].0] && ev.additions[i] == (TableInfoView {
                level: (level + 1) as u64,
                ..infos[i]@
            })
    }

    /// The change that moves tables down as they are can be applied.
    proof fn lemma_shift_applies(
        s0: Store,
        level: u64,
        tables: Seq<TableId>,
        infos: Seq<TableInfo>,
        ev: EntryView,
    )
        requires
            level < u64::MAX,
            s0.toc.inv(),
            s0.relevel_ready(level, tables),
            Store::is_shift(s0.toc@, level, tables, infos, ev),
        ensures
            s0.toc@.after(ev) is Some,
            s0.toc@.after(ev)->Some_0.next_table_id == s0.toc@.next_table_id,
            forall|id: u64|
                #[trigger] s0.toc@.after(ev)->Some_0.tables.contains_key(id)
                    == s0.toc@.tables.contains_key(id),
            forall|id: u64|
                s0.toc@.tables.contains_key(id) ==> #[trigger] s0.toc@.after(ev)->Some_0.tables[id]
                    == (if ids_view(tables).contains(id) {
                    TableInfoView { level: (level + 1) as u64, ..s0.toc@.tables[id] }
                } else {
                    s0.toc@.tables[id]
                }),
            s0.toc@.after(ev)->Some_0.levels == s0.toc@.levels.insert((level + 1) as u64),
    {
        let t0 = s0.toc@;
        assert forall|j: int| 0 <= j < ev.removals.len() implies t0.tables.contains_key(
            #[trigger] ev.removals[j],
        ) by {
            assert(ev.removals[j] == tables[j].0);
        }
        lemma_remove_all(t0, ev.removals, 0);
        let t1 = t0.remove_from(ev.removals, 0)->Some_0;
        assert forall|j: int| 0 <= j < ev.additions.len() implies !t1.tables.contains_key(
            (#[trigger] ev.additions[j]).id,
        ) && ev.additions[j].id < u64::MAX by {
            assert(ev.additions[j].id == tables[j].0);
            assert(ev.removals[j] == tables[j].0);
            assert(s0.toc.table_infos@.contains_key(tables[j].0));
        }
        assert forall|j: int, k: int| 0 <= j < k < ev.additions.len() implies ev.additions[j].id
            != ev.additions[k].id by {
            assert(ev.additions[j].id == ids_view(tables)[j]);
            assert(ev.additions[k].id == ids_view(tables)[k]);
        }
        lemma_add_all(t1, ev.additions, 0);
        let t2 = t1.add_from(ev.additions, 0)->Some_0;
        assert forall|j: int| 0 <= j < ev.additions.len() implies (#[trigger] ev.additions[j]).id
            < t1.next_table_id by {
            assert(ev.additions[j].id == tables[j].0);
            assert(s0.toc.table_infos@.contains_key(tables[j].0));
        }
        assert(t2.levels =~= t0.levels.insert((level + 1) as u64)) by {
            assert(s0.toc@.tables.contains_key(tables[0].0));
            assert(ev.additions[0].level == level + 1);
            assert forall|j: int| 0 <= j < ev.additions.len() implies (
            #[trigger] ev.additions[j]).level == level + 1 by {
                assert(s0.toc@.tables.contains_key(tables[j].0));
            }
            assert forall|l: u64| t2.levels.contains(l) == t0.levels.insert(
                (level + 1) as u64,
            ).contains(l) by {
                if l == level + 1 {
                    assert(0 <= 0 < ev.additions.len() && ev.additions[0].level == l);
                }
            }
        }
        assert forall|id: u64| #[trigger]
            t2.tables.contains_key(id) == t0.tables.contains_key(id) by {
            if t0.tables.contains_key(id) && !t1.tables.contains_key(id) {
                let j = choose|j: int| 0 <= j < ev.removals.len() && ev.removals[j] == id;
                assert(ev.additions[j].id == tables[j].0);
            }
            if t2.tables.contains_key(id) && !t1.tables.contains_key(id) {
                let j = choose|j: int| 0 <= j < ev.additions.len() && ev.additions[j].id == id;
                assert(ev.additions[j].id == tables[j].0);
            }
        }
        assert forall|id: u64| t0.tables.contains_key(id) implies #[trigger] t2.tables[id] == (
        if ids_view(tables).contains(id) {
            TableInfoView { level: (level + 1) as u64, ..t0.tables[id] }
        } else {
            t0.tables[id]
        }) by {
            if ids_view(tables).contains(id) {
                let j = choose|j: int| 0 <= j < tables.len() && ids_view(tables)[j] == id;
                assert(ev.additions[j].id == tables[j].0);
                assert(t2.tables[ev.additions[j].id] == ev.additions[j]);
            } else {
                assert(t1.tables.contains_key(id)) by {
                    if exists|j: int| 0 <= j < ev.removals.len() && ev.removals[j] == id {
                        let j = choose|j: int| 0 <= j < ev.removals.len() && ev.removals[j] == id;
                        assert(ids_view(tables)[j] == id);
                    }
                }
            }
        }
    }

    /// Tables whose key ranges do not overlap hold no key in common.
    pub proof fn lemma_ranges_disjoint(
        fa: Seq<u8>,
        ia: TableInfoView,
        fb: Seq<u8>,
        ib: TableInfoView,
    )
        requires
            is_table(fa, ia),
            is_table(fb, ib),
            !ranges_overlap(ia, ib),
        ensures
            key_disjoint(table_items(fa, ia), table_items(fb, ib)),
            key_disjoint(table_items(fb, ib), table_items(fa, ia)),
    {
        let a = table_items(fa, ia);
        let b = table_items(fb, ib);
        assert(is_table_of(fa, ia, a));
        assert(is_table_of(fb, ib, b));
        assert forall|key: Seq<u8>| !(find(a, key) is Some && find(b, key) is Some) by {
            if find(a, key) is Some && find(b, key) is Some {
                lemma_keys_in_range(a, key);
                lemma_keys_in_range(b, key);
                if lex_lt(ia.biggest_key, ib.smallest_key) {
                    lemma_lex_le_transitive(key, ia.biggest_key, ib.smallest_key);
                    lemma_lex_le_transitive(key, ib.smallest_key, key);
                    lemma_lex_trichotomy(key, key);
                } else {
                    lemma_lex_le_transitive(key, ib.biggest_key, ia.smallest_key);
                    lemma_lex_le_transitive(key, ia.smallest_key, key);
                    lemma_lex_trichotomy(key, key);
                }
            }
        }
    }

    /// Moving tables down as they are keeps the key ranges of the tables of
    /// each level from 1 on apart.
    proof fn lemma_shift_apart(
        s0: Store,
        s1: Store,
        level: u64,
        tables: Seq<TableId>,
        infos: Seq<TableInfo>,
        ev: EntryView,
    )
        requires
            level < u64::MAX,
            s0.toc.inv(),
            s0.relevel_ready(level, tables),
            Store::is_shift(s0.toc@, level, tables, infos, ev),
            Store::may_shift(s0.toc@, level, infos),
            s0.toc@.after(ev) is Some,
            s1.toc@ == s0.toc@.after(ev)->Some_0,
            levels_apart(s0.toc@),
        ensures
            levels_apart(s1.toc@),
    {
        Store::lemma_shift_applies(s0, level, tables, infos, ev);
        let t0 = s0.toc@.tables;
        let t1 = s1.toc@.tables;
        let ids = ids_view(tables);
        assert forall|a: u64, b: u64|
            #![trigger t1[a], t1[b]]
            t1.contains_key(a) && t1.contains_key(b) && a != b && t1[a].level == t1[b].level
                && t1[a].level >= 1 implies !ranges_overlap(t1[a], t1[b]) by {
            assert(t0.contains_key(a));
            assert(t0.contains_key(b));
            if ids.contains(a) && ids.contains(b) {
                let i = choose|i: int| 0 <= i < ids.len() && ids[i] == a;
                let j = choose|j: int| 0 <= j < ids.len() && ids[j] == b;
                assert(infos[i]@ == t0[tables[i].0]);
                assert(infos[j]@ == t0[tables[j].0]);
                if i < j {
                    assert(!ranges_overlap(infos[i]@, infos[j]@));
                } else {
                    assert(!ranges_overlap(infos[j]@, infos[i]@));
                }
            } else if ids.contains(a) {
                let i = choose|i: int| 0 <= i < ids.len() && ids[i] == a;
                assert(infos[i]@ == t0[tables[i].0]);
                assert(!Store::overlaps_any(s0.toc@, b, infos));
                assert(!ranges_overlap(t0[b], infos[i]@));
            } else if ids.contains(b) {
                let j = choose|j: int| 0 <= j < ids.len() && ids[j] == b;
                assert(infos[j]@ == t0[tables[j].0]);
                assert(!Store::overlaps_any(s0.toc@, a, infos));
                assert(!ranges_overlap(t0[a], infos[j]@));
            } else {
                assert(!ranges_overlap(t0[a], t0[b]));
            }
        }
    }

    /// Moving tables down as they are keeps the tables and the log sound,
    /// and changes nothing of what the tables record against a key.
    proof fn lemma_shift(
        s0: Store,
        s1: Store,
        level: u64,
        tables: Seq<TableId>,
        infos: Seq<TableInfo>,
        ev: EntryView,
    )
        requires
            level < u64::MAX,
            s0.disk_wf(),
            s0.relevel_ready(level, tables),
            Store::is_shift(s0.toc@, level, tables, infos, ev),
            Store::may_shift(s0.toc@, level, infos),
            s0.toc@.after(ev) is Some,
            s1.toc.inv(),
            s1.toc@ == s0.toc@.after(ev)->Some_0,
            s1.directory@.tables == s0.directory@.tables,
            s1.directory@.toc == s0.directory@.toc + entry_record(ev),
            s1.threshold == s0.threshold,
            log_records(s1.directory@.toc, s1.toc@),
        ensures
            s1.disk_wf(),
            forall|key: Seq<u8>| #[trigger] s1.disk_lookup(key) == s0.disk_lookup(key),
            releveled(s0.toc@, s1.toc@, level, ids_view(tables).to_set()),
            Store::shifted(s0.disk(), s1.disk(), level, ids_view(tables)),
    {
        s0.lemma_tables();
        s1.lemma_tables();
        Store::lemma_shift_applies(s0, level, tables, infos, ev);
        assert(ev == Store::shift_of(s0.toc@, level, ids_view(tables))) by {
            let change = Store::shift_of(s0.toc@, level, ids_view(tables));
            assert(ev.removals =~= change.removals);
            assert forall|i: int| 0 <= i < ev.additions.len() implies ev.additions[i]
                == change.additions[i] by {
                assert(s0.toc@.tables.contains_key(tables[i].0));
                assert(ids_view(tables)[i] == tables[i].0);
            }
            assert(ev.additions =~= change.additions);
        }
        assert(releveled(s0.toc@, s1.toc@, level, ids_view(tables).to_set())) by {
            assert forall|id: u64| #[trigger] s1.toc@.tables.contains_key(id) implies (
            s0.toc@.tables.contains_key(id) && s1.toc@.tables[id] == s0.toc@.tables[id]
                && !ids_view(tables).to_set().contains(id)) || s1.toc@.tables[id].level == level
                + 1 by {
                assert(s0.toc@.tables.contains_key(id));
            }
        }
        let ids = ids_view(tables);
        let set = ids.to_set();
        let t0 = s0.tables();
        // The entries of a table do not depend on its level.
        assert forall|id: u64| s0.toc@.tables.contains_key(id) implies is_table(
            s1.directory@.tables[id],
            #[trigger] s1.toc@.tables[id],
        ) && table_items(s1.directory@.tables[id], s1.toc@.tables[id]) == table_items(
            s0.directory@.tables[id],
            s0.toc@.tables[id],
        ) by {
            let file = s0.directory@.tables[id];
            let es = table_items(file, s0.toc@.tables[id]);
            assert(is_table(file, s0.toc@.tables[id]));
            assert(is_table_of(file, s0.toc@.tables[id], es));
            assert(is_table_of(file, s1.toc@.tables[id], es));
            lemma_table_unique(file, s1.toc@.tables[id], es);
        }
        assert(s1.tables() =~= moved_down(t0, set, level));
        assert(s1.tables_sound());
        assert(may_move_down(t0, set, level)) by {
            assert forall|a: u64, b: u64| set.contains(a) && set.contains(b)
                && a != b implies key_disjoint(
                #[trigger] t0[a].items,
                #[trigger] t0[b].items,
            ) by {
                let i = choose|i: int| 0 <= i < ids.len() && ids[i] == a;
                let j = choose|j: int| 0 <= j < ids.len() && ids[j] == b;
                assert(tables[i].0 == a && tables[j].0 == b);
                assert(s0.toc@.tables.contains_key(a));
                assert(s0.toc@.tables.contains_key(b));
                if i < j {
                    assert(!ranges_overlap(infos[i]@, infos[j]@));
                } else {
                    assert(!ranges_overlap(infos[j]@, infos[i]@));
                }
                Store::lemma_ranges_disjoint(
                    s0.directory@.tables[a],
                    s0.toc@.tables[a],
                    s0.directory@.tables[b],
                    s0.toc@.tables[b],
                );
            }
            assert forall|a: u64, o: u64|
                set.contains(a) && t0.contains_key(o) && t0[o].level == level + 1 implies key_disjoint(
                #[trigger] t0[a].items,
                #[trigger] t0[o].items,
            ) by {
                let i = choose|i: int| 0 <= i < ids.len() && ids[i] == a;
                assert(tables[i].0 == a);
                assert(s0.toc@.tables.contains_key(a));
                assert(!Store::overlaps_any(s0.toc@, o, infos));
                assert(!ranges_overlap(s0.toc@.tables[o], infos[i]@));
                Store::lemma_ranges_disjoint(
                    s0.directory@.tables[o],
                    s0.toc@.tables[o],
                    s0.directory@.tables[a],
                    s0.toc@.tables[a],
                );
            }
            assert forall|id: u64| set.contains(id) implies t0.contains_key(id) && t0[id].level
                == level by {
                let i = choose|i: int| 0 <= i < ids.len() && ids[i] == id;
                assert(tables[i].0 == id);
            }
            if level == 0 {
                assert forall|a: u64, o: u64|
                    #![trigger set.contains(a), t0.contains_key(o)]
                    set.contains(a) && t0.contains_key(o) && t0[o].level == 0 && !set.contains(
                        o,
                    ) implies a < o by {
                    let i = choose|i: int| 0 <= i < ids.len() && ids[i] == a;
                    assert(tables[i].0 == a);
                    assert(s0.toc@.tables.contains_key(o));
                    assert(!ids.contains(o));
                }
            }
        }
        lemma_move_down_disjoint(t0, set, level);
        assert forall|key: Seq<u8>| #[trigger] s1.disk_lookup(key) == s0.disk_lookup(key) by {
            lemma_move_down(t0, set, level, key);
        }
    }

    /// One iterator over the whole of the tables `ids`: where several hold
    /// a key, the one that comes first in `ids` supersedes the others.
    fn open_tables(&self, ids: &Vec<TableId>) -> (r: Result<MergeIterator<'static>, Error>)
        requires
            self.toc.inv(),
        ensures
            r matches Ok(m) ==> m.inv(),
            self.tables_sound() && (forall|i: int|
                0 <= i < ids@.len() ==> self.toc@.tables.contains_key((#[trigger] ids@[i]).0))
                ==> r is Ok && r->Ok_0.valid() && r->Ok_0.remaining() == merged(
                source_runs(self.tables(), ids_view(ids@)),
                Direction::Forward,
            ),
    {
        let whole = Interval { lower: Bound::Unbounded, upper: Bound::Unbounded };
        let mut iters: Vec<BoxedIterator<'static>> = Vec::new();
        let ghost sound = self.tables_sound() && (forall|i: int|
            0 <= i < ids@.len() ==> self.toc@.tables.contains_key((#[trigger] ids@[i]).0));
        let mut c: usize = 0;
        while c < ids.len()
            invariant
                0 <= c <= ids@.len(),
                self.toc.inv(),
                whole.lower is Unbounded,
                whole.upper is Unbounded,
                sound == (self.tables_sound() && (forall|i: int|
                    0 <= i < ids@.len() ==> self.toc@.tables.contains_key(
                        (#[trigger] ids@[i]).0,
                    ))),
                forall|i: int| 0 <= i < iters@.len() ==> (#[trigger] iters@[i]).0.inv(),
                sound ==> iters@.len() == c,
                sound ==> forall|i: int|
                    0 <= i < c ==> (#[trigger] iters@[i]).0.valid() && iters@[i].0.remaining()
                        == self.tables()[ids@[i].0].items,
            decreases ids@.len() - c,
        {
            let ghost before = iters@;
            match self.add_table_iter_to_iters(&mut iters, ids[c], &whole, Direction::Forward) {
                Ok(_) => {},
                Err(e) => {
                    proof {
                        if sound {
                            assert(self.toc@.tables.contains_key(ids@[c as int].0));
                        }
                    }
                    return Err(e);
                },
            }
            proof {
                if sound {
                    assert(self.toc@.tables.contains_key(ids@[c as int].0));
                    lemma_range_all(self.tables()[ids@[c as int].0].items, whole);
                    assert forall|i: int| 0 <= i < c + 1 implies (#[trigger] iters@[i]).0.valid()
                        && iters@[i].0.remaining() == self.tables()[ids@[i].0].items by {
                        if i < c {
                            assert(iters@[i] == before[i]);
                        }
                    }
                }
            }
            c += 1;
        }
        let ghost its = iters@;
        match MergeIterator::make(iters, Direction::Forward) {
            Ok(m) => {
                proof {
                    if sound {
                        assert(runs_of(its) =~= source_runs(self.tables(), ids_view(ids@)));
                    }
                }
                Ok(m)
            },
            Err(e) => {
                proof {
                    if sound {
                        assert forall|i: int| 0 <= i < its.len() implies (#[trigger] its[i]).0.valid() by {}
                    }
                }
                Err(e)
            },
        }
    }

    /// The state `s1` is the state `s0` after the entries `m`, as far as
    /// `c`, were written as new tables `additions` of the level below
    /// `level`, cut at the places `bounds`: the tables have the next numbers
    /// and their files are in the directory; the table of contents does not
    /// hold them yet.
    pub open spec fn written(
        s0: Store,
        s1: Store,
        level: u64,
        m: Seq<Item>,
        c: int,
        bounds: Seq<int>,
        additions: Seq<TableInfo>,
    ) -> bool {
        &&& cuts_upto(bounds, c)
        &&& c <= m.len()
        &&& additions.len() == bounds.len() - 1
        &&& s1.toc@.tables == s0.toc@.tables
        &&& s1.toc@.levels == s0.toc@.levels
        &&& s1.toc@.next_table_id == s0.toc@.next_table_id + additions.len()
        &&& s1.directory@.toc == s0.directory@.toc
        &&& forall|id: u64|
            id < s0.toc@.next_table_id ==> #[trigger] s1.directory@.tables.contains_key(id)
                == s0.directory@.tables.contains_key(id)
        &&& forall|id: u64|
            id < s0.toc@.next_table_id && s0.directory@.tables.contains_key(id)
                ==> #[trigger] s1.directory@.tables[id] == s0.directory@.tables[id]
        &&& forall|j: int|
            0 <= j < additions.len() ==> {
                &&& (#[trigger] additions[j])@.id == s0.toc@.next_table_id + j
                &&& additions[j]@.level == level + 1
                &&& s1.directory@.tables.contains_key(additions[j]@.id)
                &&& is_table_of(
                    s1.directory@.tables[additions[j]@.id],
                    additions[j]@,
                    piece(m, bounds, j),
                )
            }
    }

    /// The places `bounds` cut `m` into tables by the threshold: each table
    /// starts where the one before it ends, and is closed as soon as it has
    /// grown over the threshold, or at the end of `m`.
    #[verifier::opaque]
    pub open spec fn cut_by(m: Seq<Item>, bounds: Seq<int>, threshold: usize) -> bool {
        forall|j: int|
            0 <= j < bounds.len() - 1 ==> Store::filled(
                m.skip(#[trigger] bounds[j]),
                bounds[j + 1] - bounds[j],
                threshold,
            )
    }

    /// Before the first table, nothing is cut.
    proof fn lemma_cut_start(m: Seq<Item>, threshold: usize)
        ensures
            Store::cut_by(m, seq![0int], threshold),
    {
        reveal(Store::cut_by);
    }

    /// A table that is filled from the last place on adds a place.
    proof fn lemma_cut_push(m: Seq<Item>, bounds: Seq<int>, c: int, threshold: usize)
        requires
            bounds.len() >= 1,
            Store::cut_by(m, bounds, threshold),
            Store::filled(m.skip(bounds.last()), c - bounds.last(), threshold),
        ensures
            Store::cut_by(m, bounds.push(c), threshold),
    {
        reveal(Store::cut_by);
        let more = bounds.push(c);
        assert forall|j: int| 0 <= j < more.len() - 1 implies Store::filled(
            m.skip(#[trigger] more[j]),
            more[j + 1] - more[j],
            threshold,
        ) by {
            if j < bounds.len() - 1 {
                assert(more[j] == bounds[j]);
                assert(more[j + 1] == bounds[j + 1]);
            }
        }
    }

    /// The first `n` entries of `m` fill a table: the table is closed as soon
    /// as it has grown over the threshold, or at the end of `m`.
    #[verifier::opaque]
    pub open spec fn filled(m: Seq<Item>, n: int, threshold: usize) -> bool {
        &&& 0 <= n <= m.len()
        &&& forall|k: int| 1 <= k < n ==> lowerbound_size(#[trigger] m.take(k)) <= threshold
        &&& n < m.len() ==> lowerbound_size(m.take(n)) > threshold
    }

    /// Fills a builder with what `iter` yields, until the table has grown
    /// over the threshold or `iter` is at its end.
    fn fill_table(iter: &mut MergeIterator<'static>, threshold: usize) -> (r: Result<
        TableBuilder,
        Error,
    >)
        requires
            old(iter).inv(),
        ensures
            final(iter).inv(),
            final(iter).budget() <= old(iter).budget(),
            r matches Ok(b) ==> b.inv() && (b@.len() > 0 ==> final(iter).budget() < old(iter).budget()),
            old(iter).valid() ==> final(iter).valid() && r is Ok
                && r->Ok_0@.len() <= old(iter).remaining().len()
                && r->Ok_0@ == old(iter).remaining().take(r->Ok_0@.len() as int)
                && final(iter).remaining() == old(iter).remaining().skip(r->Ok_0@.len() as int)
                && (r->Ok_0@.len() == 0 ==> old(iter).remaining().len() == 0),
            old(iter).valid() ==> Store::filled(
                old(iter).remaining(),
                r->Ok_0@.len() as int,
                threshold,
            ),
    {
        let ghost m = iter.remaining();
        let ghost sound = iter.valid();
        let mut builder = TableBuilder::new();
        proof {
            reveal(Store::filled);
            assert(m.take(0) =~= Seq::<Item>::empty());
            assert(m.skip(0) =~= m);
        }
        loop
            invariant_except_break
                sound ==> forall|k: int|
                    1 <= k <= builder@.len() ==> lowerbound_size(#[trigger] m.take(k)) <= threshold,
            invariant
                iter.inv(),
                builder.inv(),
                iter.budget() <= old(iter).budget(),
                builder@.len() > 0 ==> iter.budget() < old(iter).budget(),
                sound == old(iter).valid(),
                m == old(iter).remaining(),
                sound ==> iter.valid() && builder@.len() <= m.len() && iter.remaining() == m.skip(
                    builder@.len() as int,
                ) && builder@ == m.take(builder@.len() as int),
            ensures
                sound ==> (builder@.len() == 0 ==> m.len() == 0),
                sound ==> Store::filled(m, builder@.len() as int, threshold),
            decreases iter.budget(),
        {
            proof {
                reveal(Store::filled);
            }
            let ghost c = builder@.len() as int;
            let key: Buf = match iter.current_key() {
                Ok(Some(k)) => copy_bytes(k),
                Ok(None) => {
                    proof {
                        if sound {
                            assert(m.skip(c).len() == 0);
                        }
                    }
                    break ;
                },
                Err(e) => {
                    return Err(e);
                },
            };
            let mutation: Mutation = match iter.current_value() {
                Ok(m) => m,
                Err(e) => {
                    return Err(e);
                },
            };
            builder.add_mutation(key.as_slice(), &mutation);
            match iter.step() {
                Ok(_) => {},
                Err(e) => {
                    return Err(e);
                },
            }
            proof {
                if sound {
                    assert(m.skip(c)[0] == m[c]);
                    assert(m.take(c).push(m[c]) =~= m.take(c + 1));
                    assert(m.skip(c).skip(1) =~= m.skip(c + 1));
                }
            }
            if builder.lowerbound_file_size() > threshold {
                break ;
            }
        }
        Ok(builder)
    }

    /// Writes what `iter` yields as tables of the level below `level`: a
    /// table is closed when it has grown over the threshold. Gives what is
    /// to be recorded of the tables.
    fn write_tables(&mut self, iter: MergeIterator<'static>, level: LevelNumber) -> (r: Result<
        (Vec<TableInfo>, Ghost<Seq<int>>),
        Error,
    >)
        requires
            old(self).inv_without_first(),
            iter.inv(),
            level < u64::MAX,
        ensures
            final(self).inv_without_first(),
            final(self).memstores == old(self).memstores,
            final(self).threshold == old(self).threshold,
            final(self).toc@.tables == old(self).toc@.tables,
            final(self).toc@.levels == old(self).toc@.levels,
            final(self).toc@.next_table_id >= old(self).toc@.next_table_id,
            final(self).directory@.toc == old(self).directory@.toc,
            forall|id: u64|
                id < old(self).toc@.next_table_id
                    ==> #[trigger] final(self).directory@.tables.contains_key(id)
                    == old(self).directory@.tables.contains_key(id),
            forall|id: u64|
                id < old(self).toc@.next_table_id && old(self).directory@.tables.contains_key(id)
                    ==> #[trigger] final(self).directory@.tables[id] == old(self).directory@.tables[id],
            iter.valid() && sorted(iter.remaining()) ==> (match r {
                Ok(w) => Store::written(
                    *old(self),
                    *final(self),
                    level,
                    iter.remaining(),
                    iter.remaining().len() as int,
                    w.1@,
                    w.0@,
                ),
                Err(_) => final(self).toc@.next_table_id == u64::MAX,
            }),
            iter.valid() && sorted(iter.remaining()) && r is Ok ==> Store::cut_by(
                iter.remaining(),
                r->Ok_0.1@,
                old(self).threshold,
            ),
            iter.valid() && sorted(iter.remaining()) && old(self).toc@.next_table_id
                + iter.remaining().len() <= u64::MAX ==> r is Ok,
    {
        let mut it = iter;
        let ghost s0 = *self;
        let ghost m = it.remaining();
        let ghost sound = it.valid() && sorted(m);
        let ghost mut c: int = 0;
        let ghost mut bounds: Seq<int> = seq![0int];
        let mut additions: Vec<TableInfo> = Vec::new();
        proof {
            assert(m.skip(0) =~= m);
            Store::lemma_cut_start(m, s0.threshold);
        }
        loop
            invariant_except_break
                sound ==> Store::written(s0, *self, level, m, c, bounds, additions@),
            invariant
                it.inv(),
                s0 == *old(self),
                m == iter.remaining(),
                sound == (iter.valid() && sorted(m)),
                self.inv_without_first(),
                self.memstores == s0.memstores,
                self.threshold == s0.threshold,
                level < u64::MAX,
                self.toc@.tables == s0.toc@.tables,
                self.toc@.levels == s0.toc@.levels,
                self.toc@.next_table_id >= s0.toc@.next_table_id,
                self.directory@.toc == s0.directory@.toc,
                forall|id: u64|
                    id < s0.toc@.next_table_id ==> #[trigger] self.directory@.tables.contains_key(
                        id,
                    ) == s0.directory@.tables.contains_key(id),
                forall|id: u64|
                    id < s0.toc@.next_table_id && s0.directory@.tables.contains_key(id)
                        ==> #[trigger] self.directory@.tables[id] == s0.directory@.tables[id],
                sound ==> sorted(m) && it.valid() && 0 <= c <= m.len() && it.remaining()
                    == m.skip(c),
                sound ==> Store::cut_by(m, bounds, s0.threshold),
                sound ==> additions@.len() <= c && self.toc@.next_table_id == s0.toc@.next_table_id
                    + additions@.len(),
            ensures
                sound ==> Store::written(s0, *self, level, m, m.len() as int, bounds, additions@),
            decreases it.budget(),
        {
            let ghost start = c;
            let mut builder = match Store::fill_table(&mut it, self.threshold) {
                Ok(b) => b,
                Err(e) => {
                    return Err(e);
                },
            };
            proof {
                if sound {
                    c = start + builder@.len();
                    assert(m.skip(start).skip(builder@.len() as int) =~= m.skip(c));
                    assert(m.skip(start).take(builder@.len() as int) =~= m.subrange(start, c));
                }
            }
            if builder.is_empty() {
                proof {
                    if sound {
                        assert(m.skip(start).len() == 0);
                    }
                }
                break ;
            }
            // The builder holds entries: they become a table.
            if self.toc.next_table_id == u64::MAX {
                return mk_err("table numbers exhausted");
            }
            let table_id = TableId(self.toc.next_table_id);
            self.toc.next_table_id += 1;
            let mut file: Vec<u8> = Vec::new();
            let (keys_offset, file_size, smallest, biggest) = builder.finish(&mut file);
            let ghost before = *self;
            let ghost image = file@;
            self.directory.create_table(table_id, file);
            let ti = TableInfo {
                id: table_id,
                level: level + 1,
                keys_offset: keys_offset,
                file_size: file_size,
                smallest_key: smallest,
                biggest_key: biggest,
            };
            let ghost tiv = ti@;
            let ghost old_additions = additions@;
            let ghost old_bounds = bounds;
            additions.push(ti);
            proof {
                if sound {
                    let chunk = m.subrange(start, c);
                    assert(image =~= table_image(chunk));
                    assert(sorted(chunk)) by {
                        assert forall|a: int, b: int| 0 <= a < b < chunk.len() implies lex_lt(
                            #[trigger] chunk[a].0,
                            #[trigger] chunk[b].0,
                        ) by {
                            assert(chunk[a] == m[start + a]);
                            assert(chunk[b] == m[start + b]);
                        }
                    }
                    assert(is_table_of(image, tiv, chunk));
                    bounds = old_bounds.push(c);
                    assert forall|j: int| 0 <= j < additions@.len() implies {
                        &&& (#[trigger] additions@[j])@.id == s0.toc@.next_table_id + j
                        &&& additions@[j]@.level == level + 1
                        &&& self.directory@.tables.contains_key(additions@[j]@.id)
                        &&& is_table_of(
                            self.directory@.tables[additions@[j]@.id],
                            additions@[j]@,
                            piece(m, bounds, j),
                        )
                    } by {
                        if j < old_additions.len() {
                            assert(additions@[j] == old_additions[j]);
                            assert(piece(m, bounds, j) == piece(m, old_bounds, j));
                            assert(old_additions[j]@.id != table_id.0);
                        } else {
                            assert(piece(m, bounds, j) == chunk);
                        }
                    }
                    assert(cuts_upto(bounds, c)) by {
                        assert forall|j: int| 0 <= j < bounds.len() - 1 implies #[trigger] bounds[j]
                            < bounds[j + 1] by {
                            if j < old_bounds.len() - 1 {
                                assert(old_bounds[j] < old_bounds[j + 1]);
                            }
                        }
                    }
                    Store::lemma_cut_push(m, old_bounds, c, s0.threshold);
                }
            }
        }
        Ok((additions, Ghost(bounds)))
    }

    /// The new tables of a merge as a mathematical value: table `j` has the
    /// number `first + j`, the level `level`, and piece `j` of `m`.
    pub open spec fn new_tables(first: u64, level: u64, m: Seq<Item>, bounds: Seq<int>) -> Tables {
        Map::new(
            |id: u64| first <= id < first + bounds.len() - 1,
            |id: u64| TableData { level: level, items: piece(m, bounds, id - first) },
        )
    }

    /// What the tables `src[i..]` record against a key is what their runs
    /// record against it.
    proof fn lemma_first_holder_runs(t: Tables, src: Seq<u64>, i: int, key: Seq<u8>)
        requires
            0 <= i <= src.len(),
        ensures
            first_holder(t, src, i, key) == first_in_runs(source_runs(t, src), i, key),
        decreases src.len() - i,
    {
        if i < src.len() {
            Store::lemma_first_holder_runs(t, src, i + 1, key);
        }
    }

    /// The new tables of a merge hold a key exactly when one of the merged
    /// tables holds it, with what the first of them that holds it records.
    proof fn lemma_new_holds(
        t: Tables,
        src: Seq<u64>,
        first: u64,
        level: u64,
        m: Seq<Item>,
        bounds: Seq<int>,
        key: Seq<u8>,
    )
        requires
            all_ordered(source_runs(t, src), Direction::Forward),
            m == merged(source_runs(t, src), Direction::Forward),
            cuts(m, bounds),
            first + bounds.len() - 1 <= u64::MAX,
        ensures
            new_holds(t, src, Store::new_tables(first, level, m, bounds), key),
    {
        let n = Store::new_tables(first, level, m, bounds);
        lemma_merged(source_runs(t, src), Direction::Forward);
        lemma_sorted_is_ordered(m);
        Store::lemma_first_holder_runs(t, src, 0, key);
        lemma_pieces(m, bounds, key);
        assert(find(m, key) == first_holder(t, src, 0, key));
        match first_holder(t, src, 0, key) {
            None => {
                assert forall|id: u64| n.contains_key(id) implies find(
                    #[trigger] n[id].items,
                    key,
                ) is None by {
                    assert(n[id].items == piece(m, bounds, id - first));
                }
            },
            Some(v) => {
                let j = choose|j: int|
                    0 <= j < bounds.len() - 1 && find(#[trigger] piece(m, bounds, j), key) == find(
                        m,
                        key,
                    ) && forall|o: int|
                        0 <= o < bounds.len() - 1 && find(#[trigger] piece(m, bounds, o), key)
                            is Some ==> o == j;
                let id = (first + j) as u64;
                assert(n.contains_key(id));
                assert(n[id].items == piece(m, bounds, j));
                assert forall|o: u64|
                    n.contains_key(o) && find(#[trigger] n[o].items, key) is Some implies o
                    == id by {
                    assert(n[o].items == piece(m, bounds, o - first));
                }
            },
        }
    }

    /// The runs of sound tables are sorted.
    proof fn lemma_sources_sorted(&self, src: Seq<u64>)
        requires
            self.tables_sound(),
            forall|i: int| 0 <= i < src.len() ==> self.toc@.tables.contains_key(#[trigger] src[i]),
        ensures
            all_ordered(source_runs(self.tables(), src), Direction::Forward),
    {
        self.lemma_tables();
        let runs = source_runs(self.tables(), src);
        assert forall|r: int| 0 <= r < runs.len() implies ordered(
            #[trigger] runs[r],
            Direction::Forward,
        ) by {
            let id = src[r];
            assert(self.toc@.tables.contains_key(id));
            let file = self.directory@.tables[id];
            assert(is_table(file, self.toc@.tables[id]));
            assert(is_table_of(file, self.toc@.tables[id], table_items(file, self.toc@.tables[id])));
            lemma_sorted_is_ordered(runs[r]);
        }
    }

    /// The tables `lower` are the tables of the level below `level` that
    /// overlap one of the tables `infos`, ascending by their numbers.
    pub open spec fn is_lower(
        toc: TocView,
        level: u64,
        infos: Seq<TableInfo>,
        lower: Seq<TableId>,
    ) -> bool {
        &&& forall|a: int, b: int| 0 <= a < b < lower.len() ==> lower[a].0 < lower[b].0
        &&& forall|a: int|
            0 <= a < lower.len() ==> toc.level_ids((level + 1) as u64).contains(
                (#[trigger] lower[a]).0,
            ) && Store::overlaps_any(toc, lower[a].0, infos)
        &&& forall|id: u64|
            toc.level_ids((level + 1) as u64).contains(id) && Store::overlaps_any(toc, id, infos)
                ==> exists|a: int| 0 <= a < lower.len() && #[trigger] lower[a].0 == id
    }

    /// Where the table of contents holds the same tables and the files of
    /// the tables are the same, the tables are the same.
    proof fn lemma_same_disk(s0: Store, s1: Store)
        requires
            s0.disk_wf(),
            s1.toc.inv(),
            s1.toc@.tables == s0.toc@.tables,
            s1.toc@.levels == s0.toc@.levels,
            s1.toc@.next_table_id >= s0.toc@.next_table_id,
            s1.directory@.toc == s0.directory@.toc,
            forall|id: u64|
                id < s0.toc@.next_table_id ==> #[trigger] s1.directory@.tables.contains_key(id)
                    == s0.directory@.tables.contains_key(id),
            forall|id: u64|
                id < s0.toc@.next_table_id && s0.directory@.tables.contains_key(id)
                    ==> #[trigger] s1.directory@.tables[id] == s0.directory@.tables[id],
        ensures
            s1.disk_wf(),
            s1.tables() == s0.tables(),
            forall|key: Seq<u8>| #[trigger] s1.disk_lookup(key) == s0.disk_lookup(key),
    {
        s0.lemma_tables();
        s1.lemma_tables();
        assert forall|id: u64| s0.toc@.tables.contains_key(id) implies id
            < s0.toc@.next_table_id by {
            assert(s0.toc.table_infos@.contains_key(id));
        }
        assert(s1.tables() =~= s0.tables());
        lemma_log_records_later(s0.directory@.toc, s0.toc@, s1.toc@);
    }

    /// The change that replaces merged tables by new tables can be applied.
    proof fn lemma_merge_applies(t: TocView, src: Seq<u64>, first: u64, ev: EntryView)
        requires
            src.no_duplicates(),
            forall|i: int| 0 <= i < src.len() ==> t.tables.contains_key(#[trigger] src[i]),
            forall|id: u64| t.tables.contains_key(id) ==> id < first,
            ev.removals == src,
            first + ev.additions.len() <= t.next_table_id,
            forall|j: int| 0 <= j < ev.additions.len() ==> (#[trigger] ev.additions[j]).id == first + j,
        ensures
            t.after(ev) is Some,
            t.after(ev)->Some_0.next_table_id == t.next_table_id,
            forall|id: u64|
                #[trigger] t.after(ev)->Some_0.tables.contains_key(id) <==> ((
                t.tables.contains_key(id) && !src.contains(id)) || first <= id < first
                    + ev.additions.len()),
            forall|id: u64|
                t.tables.contains_key(id) && !src.contains(id) ==> #[trigger] t.after(
                    ev,
                )->Some_0.tables[id] == t.tables[id],
            forall|j: int|
                0 <= j < ev.additions.len() ==> t.after(ev)->Some_0.tables[(
                #[trigger] ev.additions[j]).id] == ev.additions[j],
            ev.additions.len() > 0 && (forall|j: int|
                0 <= j < ev.additions.len() ==> (#[trigger] ev.additions[j]).level
                    == ev.additions[0].level) ==> t.after(ev)->Some_0.levels == t.levels.insert(
                ev.additions[0].level,
            ),
    {
        lemma_remove_all(t, ev.removals, 0);
        let t1 = t.remove_from(ev.removals, 0)->Some_0;
        assert forall|j: int| 0 <= j < ev.additions.len() implies !t1.tables.contains_key(
            (#[trigger] ev.additions[j]).id,
        ) && ev.additions[j].id < u64::MAX by {
            if t1.tables.contains_key(ev.additions[j].id) {
                assert(t.tables.contains_key(ev.additions[j].id));
            }
        }
        lemma_add_all(t1, ev.additions, 0);
        let t2 = t1.add_from(ev.additions, 0)->Some_0;
        if ev.additions.len() > 0 && (forall|j: int|
            0 <= j < ev.additions.len() ==> (#[trigger] ev.additions[j]).level
                == ev.additions[0].level) {
            assert forall|l: u64| t2.levels.contains(l) == t.levels.insert(
                ev.additions[0].level,
            ).contains(l) by {
                if l == ev.additions[0].level {
                    assert(0 <= 0 < ev.additions.len() && ev.additions[0].level == l);
                }
            }
            assert(t2.levels =~= t.levels.insert(ev.additions[0].level));
        }
        assert forall|id: u64| #[trigger]
            t2.tables.contains_key(id) <==> ((t.tables.contains_key(id) && !src.contains(id))
                || first <= id < first + ev.additions.len()) by {
            if t2.tables.contains_key(id) {
                if t1.tables.contains_key(id) {
                    if src.contains(id) {
                        let i = choose|i: int| 0 <= i < src.len() && src[i] == id;
                        assert(0 <= i < ev.removals.len() && ev.removals[i] == id);
                    }
                } else {
                    let j = choose|j: int| 0 <= j < ev.additions.len() && ev.additions[j].id == id;
                    assert(ev.additions[j].id == first + j);
                }
            } else {
                if first <= id < first + ev.additions.len() {
                    let j = id - first;
                    assert(ev.additions[j].id == id);
                }
                if t.tables.contains_key(id) && !src.contains(id) {
                    assert(t1.tables.contains_key(id)) by {
                        if exists|j: int| 0 <= j < ev.removals.len() && ev.removals[j] == id {
                            let j = choose|j: int|
                                0 <= j < ev.removals.len() && ev.removals[j] == id;
                            assert(src[j] == id);
                        }
                    }
                }
            }
        }
        assert forall|id: u64| t.tables.contains_key(id)
            && !src.contains(id) implies #[trigger] t2.tables[id]
            == t.tables[id] by {
            assert(t1.tables.contains_key(id)) by {
                if exists|j: int| 0 <= j < ev.removals.len() && ev.removals[j] == id {
                    let j = choose|j: int| 0 <= j < ev.removals.len() && ev.removals[j] == id;
                    assert(src[j] == id);
                }
            }
        }
    }

    /// Replacing merged tables by the tables that hold the pieces of their
    /// merge keeps the tables and the log sound, and changes nothing of what
    /// the tables record against a key.
    proof fn lemma_merge(
        s0: Store,
        s3: Store,
        level: u64,
        tables: Seq<TableId>,
        lower: Seq<TableId>,
        infos: Seq<TableInfo>,
        additions: Seq<TableInfo>,
        bounds: Seq<int>,
        m: Seq<Item>,
    )
        requires
            level < u64::MAX,
            s0.disk_wf(),
            s0.relevel_ready(level, tables),
            infos.len() == tables.len(),
            forall|i: int| 0 <= i < tables.len()
                ==> (#[trigger] infos[i])@ == s0.toc@.tables[tables[i].0],
            Store::is_lower(s0.toc@, level, infos, lower),
            m == merged(source_runs(s0.tables(), ids_view(tables + lower)), Direction::Forward),
            cuts(m, bounds),
            additions.len() == bounds.len() - 1,
            s0.toc@.next_table_id + additions.len() <= u64::MAX,
            forall|j: int|
                0 <= j < additions.len() ==> {
                    &&& (#[trigger] additions[j])@.id == s0.toc@.next_table_id + j
                    &&& additions[j]@.level == level + 1
                    &&& s3.directory@.tables.contains_key(additions[j]@.id)
                    &&& is_table_of(
                        s3.directory@.tables[additions[j]@.id],
                        additions[j]@,
                        piece(m, bounds, j),
                    )
                    &&& s3.toc@.tables[additions[j]@.id] == additions[j]@
                },
            forall|id: u64|
                #[trigger] s3.toc@.tables.contains_key(id) <==> ((s0.toc@.tables.contains_key(id)
                    && !ids_view(tables + lower).contains(id)) || s0.toc@.next_table_id <= id
                    < s0.toc@.next_table_id + additions.len()),
            forall|id: u64|
                s0.toc@.tables.contains_key(id) && !ids_view(tables + lower).contains(id) ==> {
                    &&& #[trigger] s3.toc@.tables[id] == s0.toc@.tables[id]
                    &&& s3.directory@.tables.contains_key(id)
                    &&& s3.directory@.tables[id] == s0.directory@.tables[id]
                },
            s3.toc.inv(),
            log_records(s3.directory@.toc, s3.toc@),
        ensures
            s3.disk_wf(),
            forall|key: Seq<u8>| #[trigger] s3.disk_lookup(key) == s0.disk_lookup(key),
            s3.tables() == merged_down(
                s0.tables(),
                ids_view(tables + lower),
                Store::new_tables(s0.toc@.next_table_id, (level + 1) as u64, m, bounds),
            ),
    {
        s0.lemma_tables();
        s3.lemma_tables();
        let t0 = s0.tables();
        let src = ids_view(tables + lower);
        let p = tables.len() as int;
        let first = s0.toc@.next_table_id;
        let down = (level + 1) as u64;
        let n = Store::new_tables(first, down, m, bounds);
        assert forall|id: u64| s0.toc@.tables.contains_key(id) implies id < first by {
            assert(s0.toc.table_infos@.contains_key(id));
        }
        // What the merged tables are.
        assert forall|i: int| 0 <= i < src.len() implies t0.contains_key(#[trigger] src[i])
            && t0[src[i]].level == (if i < p {
            level
        } else {
            down
        }) by {
            if i < p {
                assert(src[i] == tables[i].0);
            } else {
                assert(src[i] == lower[i - p].0);
                assert(s0.toc@.level_ids(down).contains(lower[i - p].0));
            }
        }
        assert(src.no_duplicates()) by {
            assert forall|i: int, j: int| 0 <= i < j < src.len() implies src[i] != src[j] by {
                if j < p {
                    assert(ids_view(tables)[i] == src[i]);
                    assert(ids_view(tables)[j] == src[j]);
                } else if i >= p {
                    assert(src[i] == lower[i - p].0);
                    assert(src[j] == lower[j - p].0);
                } else {
                    assert(t0[src[i]].level == level);
                    assert(t0[src[j]].level == down);
                }
            }
        }
        // The tables after the merge.
        assert forall|j: int| 0 <= j < additions.len() implies table_items(
            s3.directory@.tables[(first + j) as u64],
            s3.toc@.tables[(first + j) as u64],
        ) == piece(m, bounds, j) && is_table(
            s3.directory@.tables[(first + j) as u64],
            #[trigger] s3.toc@.tables[(first + j) as u64],
        ) by {
            assert(additions[j]@.id == first + j);
            lemma_table_unique(
                s3.directory@.tables[additions[j]@.id],
                additions[j]@,
                piece(m, bounds, j),
            );
        }
        assert(s3.tables() =~= merged_down(t0, src, n)) by {
            assert forall|id: u64| #[trigger]
                s3.tables().contains_key(id) <==> merged_down(t0, src, n).contains_key(id) by {
                if t0.contains_key(id) && !src.contains(id) {
                    assert(t0.remove_keys(src.to_set()).contains_key(id));
                }
            }
            assert forall|id: u64| s3.tables().contains_key(id) implies #[trigger] s3.tables()[id]
                == merged_down(t0, src, n)[id] by {
                if first <= id < first + additions.len() {
                    let j = id - first;
                    assert(additions[j]@.id == id);
                    assert(n.contains_key(id));
                    assert(s3.toc@.tables[id] == additions[j]@);
                    lemma_table_unique(
                        s3.directory@.tables[additions[j]@.id],
                        additions[j]@,
                        piece(m, bounds, j),
                    );
                    assert(n[id].items == piece(m, bounds, j));
                } else {
                    assert(!n.contains_key(id));
                    assert(s0.toc@.tables.contains_key(id) && !src.contains(id));
                    assert(t0.remove_keys(src.to_set()).contains_key(id));
                    assert(s3.toc@.tables[id] == s0.toc@.tables[id]);
                    assert(s3.directory@.tables[id] == s0.directory@.tables[id]);
                }
            }
        }
        assert(s3.tables_sound()) by {
            assert forall|id: u64| #[trigger]
                s3.toc@.tables.contains_key(id) implies s3.directory@.tables.contains_key(id)
                && is_table(s3.directory@.tables[id], s3.toc@.tables[id]) by {
                if first <= id < first + additions.len() {
                    let j = id - first;
                    assert(additions[j]@.id == id);
                    assert(s3.toc@.tables[id] == additions[j]@);
                    lemma_table_unique(
                        s3.directory@.tables[additions[j]@.id],
                        additions[j]@,
                        piece(m, bounds, j),
                    );
                } else {
                    assert(s0.toc@.tables.contains_key(id) && !src.contains(id));
                    assert(s3.toc@.tables[id] == s0.toc@.tables[id]);
                    assert(s3.directory@.tables[id] == s0.directory@.tables[id]);
                    assert(is_table(s0.directory@.tables[id], s0.toc@.tables[id]));
                }
            }
        }
        s0.lemma_sources_sorted(src);
        assert(may_merge_down(t0, level, p, src, n)) by {
            assert forall|o: u64, i: int|
                #![trigger t0.contains_key(o), src[i]]
                t0.contains_key(o) && t0[o].level == level + 1 && !src.contains(o) && 0 <= i
                    < p implies key_disjoint(t0[o].items, t0[src[i]].items) by {
                assert(src[i] == tables[i].0);
                if Store::overlaps_any(s0.toc@, o, infos) {
                    assert(s0.toc@.level_ids(down).contains(o));
                    let a = choose|a: int| 0 <= a < lower.len() && #[trigger] lower[a].0 == o;
                    assert(src[p + a] == o);
                }
                assert(!ranges_overlap(s0.toc@.tables[o], infos[i]@));
                Store::lemma_ranges_disjoint(
                    s0.directory@.tables[o],
                    s0.toc@.tables[o],
                    s0.directory@.tables[src[i]],
                    s0.toc@.tables[src[i]],
                );
            }
            if level == 0 {
                assert forall|i: int, j: int| 0 <= i < j < p implies src[i] > src[j] by {
                    assert(src[i] == tables[i].0);
                    assert(src[j] == tables[j].0);
                }
                assert forall|o: u64, i: int|
                    #![trigger t0.contains_key(o), src[i]]
                    t0.contains_key(o) && t0[o].level == 0 && !src.contains(o) && 0 <= i
                        < p implies o > src[i] by {
                    assert(src[i] == tables[i].0);
                    assert(!ids_view(tables).contains(o)) by {
                        if ids_view(tables).contains(o) {
                            let k = choose|k: int|
                                0 <= k < ids_view(tables).len() && ids_view(tables)[k] == o;
                            assert(src[k] == o);
                        }
                    }
                }
            }
            assert forall|key: Seq<u8>| #[trigger] new_holds(t0, src, n, key) by {
                Store::lemma_new_holds(t0, src, first, down, m, bounds, key);
            }
        }
        lemma_merge_down_disjoint(t0, level, p, src, n);
        assert forall|key: Seq<u8>| #[trigger] s3.disk_lookup(key) == s0.disk_lookup(key) by {
            lemma_merge_down(t0, level, p, src, n, key);
        }
    }

    /// What holds after a merge: the state `s1` after the new tables were
    /// written, and the state `s3` after the change was applied and the
    /// files of the merged tables were removed.
    proof fn lemma_after_merge(
        s0: Store,
        s1: Store,
        s3: Store,
        level: u64,
        tables: Seq<TableId>,
        lower: Seq<TableId>,
        infos: Seq<TableInfo>,
        additions: Seq<TableInfo>,
        bounds: Seq<int>,
        m: Seq<Item>,
        ev: EntryView,
    )
        requires
            level < u64::MAX,
            s0.disk_wf(),
            s0.relevel_ready(level, tables),
            infos.len() == tables.len(),
            forall|i: int| 0 <= i < tables.len()
                ==> (#[trigger] infos[i])@ == s0.toc@.tables[tables[i].0],
            Store::is_lower(s0.toc@, level, infos, lower),
            m == merged(source_runs(s0.tables(), ids_view(tables + lower)), Direction::Forward),
            Store::written(s0, s1, level, m, m.len() as int, bounds, additions),
            ev.removals == ids_view(tables + lower),
            ev.additions == infos_view(additions),
            s1.toc@.after(ev) is Some,
            s3.toc@ == s1.toc@.after(ev)->Some_0,
            s3.toc.inv(),
            s3.directory@.tables == s1.directory@.tables.remove_keys(
                ids_view(tables + lower).to_set(),
            ),
            log_records(s3.directory@.toc, s3.toc@),
        ensures
            s3.disk_wf(),
            forall|key: Seq<u8>| #[trigger] s3.disk_lookup(key) == s0.disk_lookup(key),
            releveled(s0.toc@, s3.toc@, level, ids_view(tables).to_set()),
            s3.tables() == merged_down(
                s0.tables(),
                ids_view(tables + lower),
                Store::new_tables(s0.toc@.next_table_id, (level + 1) as u64, m, bounds),
            ),
            s3.toc@.next_table_id == s0.toc@.next_table_id + bounds.len() - 1,
            cuts(m, bounds),
    {
        let src = ids_view(tables + lower);
        let first = s0.toc@.next_table_id;
        let p = tables.len() as int;
        assert forall|id: u64| s0.toc@.tables.contains_key(id) implies id < first by {
            assert(s0.toc.table_infos@.contains_key(id));
        }
        assert forall|i: int| 0 <= i < src.len() implies s1.toc@.tables.contains_key(
            #[trigger] src[i],
        ) by {
            if i < p {
                assert(src[i] == tables[i].0);
            } else {
                assert(src[i] == lower[i - p].0);
                assert(s0.toc@.level_ids((level + 1) as u64).contains(lower[i - p].0));
            }
        }
        assert(src.no_duplicates()) by {
            assert forall|i: int, j: int| 0 <= i < j < src.len() implies src[i] != src[j] by {
                if j < p {
                    assert(ids_view(tables)[i] == src[i]);
                    assert(ids_view(tables)[j] == src[j]);
                } else if i >= p {
                    assert(src[i] == lower[i - p].0);
                    assert(src[j] == lower[j - p].0);
                } else {
                    assert(src[i] == tables[i].0);
                    assert(src[j] == lower[j - p].0);
                    assert(s0.toc@.level_ids((level + 1) as u64).contains(lower[j - p].0));
                }
            }
        }
        assert forall|j: int| 0 <= j < ev.additions.len() implies (#[trigger] ev.additions[j]).id
            == first + j by {
            assert(ev.additions[j] == additions[j]@);
        }
        Store::lemma_merge_applies(s1.toc@, src, first, ev);
        assert forall|j: int| 0 <= j < additions.len() implies {
            &&& (#[trigger] additions[j])@.id == s0.toc@.next_table_id + j
            &&& additions[j]@.level == level + 1
            &&& s3.directory@.tables.contains_key(additions[j]@.id)
            &&& is_table_of(
                s3.directory@.tables[additions[j]@.id],
                additions[j]@,
                piece(m, bounds, j),
            )
            &&& s3.toc@.tables[additions[j]@.id] == additions[j]@
        } by {
            let id = additions[j]@.id;
            assert(!src.contains(id)) by {
                if src.contains(id) {
                    let i = choose|i: int| 0 <= i < src.len() && src[i] == id;
                    assert(s1.toc@.tables.contains_key(src[i]));
                }
            }
            assert(ev.additions[j] == additions[j]@);
            assert(s3.toc@.tables[ev.additions[j].id] == ev.additions[j]);
        }
        assert forall|id: u64|
            s0.toc@.tables.contains_key(id) && !src.contains(id) implies {
            &&& #[trigger] s3.toc@.tables[id] == s0.toc@.tables[id]
            &&& s3.directory@.tables.contains_key(id)
            &&& s3.directory@.tables[id] == s0.directory@.tables[id]
        } by {
            assert(s0.directory@.tables.contains_key(id));
            assert(s1.directory@.tables.contains_key(id));
            assert(s1.directory@.tables[id] == s0.directory@.tables[id]);
        }
        Store::lemma_merge(s0, s3, level, tables, lower, infos, additions, bounds, m);
        assert(releveled(s0.toc@, s3.toc@, level, ids_view(tables).to_set())) by {
            let moved = ids_view(tables).to_set();
            assert forall|id: u64| #[trigger] s3.toc@.tables.contains_key(id) implies (
            s0.toc@.tables.contains_key(id) && s3.toc@.tables[id] == s0.toc@.tables[id]
                && !moved.contains(id)) || s3.toc@.tables[id].level == level + 1 by {
                if s0.toc@.tables.contains_key(id) && !src.contains(id) {
                    if moved.contains(id) {
                        let i = choose|i: int|
                            0 <= i < ids_view(tables).len() && ids_view(tables)[i] == id;
                        assert(src[i] == id);
                    }
                } else {
                    let j = id - first;
                    assert(additions[j]@.id == id);
                }
            }
            assert forall|id: u64|
                #[trigger] s0.toc@.tables.contains_key(id) && s0.toc@.tables[id].level != level
                    + 1 && !moved.contains(id) implies s3.toc@.tables.contains_key(id)
                && s3.toc@.tables[id] == s0.toc@.tables[id] by {
                if src.contains(id) {
                    let i = choose|i: int| 0 <= i < src.len() && src[i] == id;
                    if i < p {
                        assert(ids_view(tables)[i] == id);
                    } else {
                        assert(src[i] == lower[i - p].0);
                        assert(s0.toc@.level_ids((level + 1) as u64).contains(lower[i - p].0));
                    }
                }
            }
        }
    }

    /// The change that puts `n` new tables, with the numbers from `first`
    /// on, in the place of the tables `src`. `toc` is the table of contents
    /// that holds the new tables.
    pub open spec fn merge_of(toc: TocView, first: u64, src: Seq<u64>, n: int) -> EntryView {
        EntryView {
            removals: src,
            additions: Seq::new(n as nat, |j: int| toc.tables[(first + j) as u64]),
        }
    }

    /// What merging the tables `src` into tables of the level after `level`
    /// does to the store `before`: the merged tables are gone, and in their
    /// place stand new tables with the next numbers, which hold the merge
    /// of the runs of `src`, cut at the places `bounds` by the threshold.
    /// The change is applied to the table of contents, and its record
    /// stands at the end of the log.
    pub open spec fn merged_into(
        before: Disk,
        after: Disk,
        level: u64,
        src: Seq<u64>,
        bounds: Seq<int>,
    ) -> bool {
        let m = merged(source_runs(before.tables(), src), Direction::Forward);
        let first = before.toc.next_table_id;
        let change = Store::merge_of(after.toc, first, src, bounds.len() - 1);
        &&& cuts(m, bounds)
        &&& Store::cut_by(m, bounds, before.threshold)
        &&& after.threshold == before.threshold
        &&& after.toc.next_table_id == first + bounds.len() - 1
        &&& after.toc.levels == before.toc.levels.insert((level + 1) as u64)
        &&& (TocView { next_table_id: after.toc.next_table_id, ..before.toc }).after(change)
            == Some(after.toc)
        &&& after.directory.toc == before.directory.toc + entry_record(change)
        &&& forall|id: u64|
            id < first ==> (#[trigger] after.directory.tables.contains_key(id)
                <==> before.directory.tables.contains_key(id) && !src.contains(id))
        &&& forall|id: u64|
            first <= id < first + bounds.len() - 1 ==> #[trigger] after.directory.tables.contains_key(
                id,
            ) && after.directory.tables[id] == table_image(piece(m, bounds, id - first))
        &&& after.tables() == merged_down(
            before.tables(),
            src,
            Store::new_tables(before.toc.next_table_id, (level + 1) as u64, m, bounds),
        )
    }

    /// The table numbers that are left suffice for a merge of the tables
    /// `src`: there is one for each entry of the merge. A merge needs no
    /// more, since each table that it writes holds an entry.
    pub open spec fn merge_fits(before: Disk, src: Seq<u64>) -> bool {
        before.toc.next_table_id + merged(
            source_runs(before.tables(), src),
            Direction::Forward,
        ).len() <= u64::MAX
    }

    /// The table numbers suffice for a merge where there is one for each
    /// entry of the merged tables.
    pub proof fn lemma_merge_fits(before: Disk, src: Seq<u64>)
        requires
            before.toc.next_table_id + total_upto(
                source_runs(before.tables(), src),
                src.len() as int,
            ) <= u64::MAX,
        ensures
            Store::merge_fits(before, src),
    {
        crate::merging::lemma_merged_len(source_runs(before.tables(), src), Direction::Forward);
    }

    /// Merges the tables `tables` of level `level` with the tables `lower`
    /// of the next level into new tables of the next level. The merge fails
    /// only where the table numbers do not suffice.
    pub(crate) fn merge_down(
        &mut self,
        level: LevelNumber,
        tables: Vec<TableId>,
        lower: Vec<TableId>,
        Ghost(infos): Ghost<Seq<TableInfo>>,
    ) -> (r: Result<(), Error>)
        requires
            old(self).inv_without_first(),
            level < u64::MAX,
        ensures
            final(self).inv_without_first(),
            final(self).memstores == old(self).memstores,
            final(self).threshold == old(self).threshold,
            old(self).merge_ready(level, tables@, lower@, infos) ==> final(self).disk_wf()
                && (forall|key: Seq<u8>|
                #[trigger] final(self).disk_lookup(key) == old(self).disk_lookup(key)) && (r is Err
                ==> final(self).toc@.next_table_id == u64::MAX) && (r is Ok ==> releveled(
                old(self).toc@,
                final(self).toc@,
                level,
                ids_view(tables@).to_set(),
            )),
            old(self).merge_ready(level, tables@, lower@, infos) && r is Ok ==> exists|
                bounds: Seq<int>,
            |
                Store::merged_into(
                    old(self).disk(),
                    final(self).disk(),
                    level,
                    ids_view(tables@ + lower@),
                    bounds,
                ),
            old(self).merge_ready(level, tables@, lower@, infos) && Store::merge_fits(
                old(self).disk(),
                ids_view(tables@ + lower@),
            ) ==> r is Ok,
            old(self).merge_ready(level, tables@, lower@, infos) && r is Ok && levels_apart(
                old(self).toc@,
            ) && hull_clear(old(self).toc@, level, ids_view(tables@ + lower@)) ==> levels_apart(
                final(self).toc@,
            ),
            old(self).merge_ready(level, tables@, lower@, infos) && r is Ok ==> held(
                final(self).disk(),
            ) <= held(old(self).disk())
                && final(self).toc@.next_table_id <= old(self).toc@.next_table_id + held(old(self).disk()),
    {
        let ghost s0 = *self;
        let ghost sound = s0.merge_ready(level, tables@, lower@, infos);
        let ghost src = ids_view(tables@ + lower@);
        // The tables of the upper level in their order of precedence, then
        // those of the lower level, which do not overlap one another.
        let mut removals: Vec<TableId> = Vec::new();
        let mut a: usize = 0;
        while a < tables.len()
            invariant
                0 <= a <= tables@.len(),
                removals@ == tables@.take(a as int),
            decreases tables@.len() - a,
        {
            removals.push(tables[a]);
            proof {
                assert(tables@.take(a as int).push(tables@[a as int]) =~= tables@.take(a + 1));
            }
            a += 1;
        }
        proof {
            assert(tables@.take(tables@.len() as int) =~= tables@);
        }
        let mut b: usize = 0;
        while b < lower.len()
            invariant
                0 <= b <= lower@.len(),
                removals@ == tables@ + lower@.take(b as int),
            decreases lower@.len() - b,
        {
            removals.push(lower[b]);
            proof {
                assert((tables@ + lower@.take(b as int)).push(lower@[b as int]) =~= tables@
                    + lower@.take(b + 1));
            }
            b += 1;
        }
        proof {
            assert(lower@.take(lower@.len() as int) =~= lower@);
            if sound {
                s0.lemma_merge_sources(level, tables@, lower@, infos);
            }
        }
        let iter = match self.open_tables(&removals) {
            Ok(m) => m,
            Err(e) => {
                return Err(e);
            },
        };
        let ghost m = iter.remaining();
        let written = match self.write_tables(iter, level) {
            Ok(w) => w,
            Err(e) => {
                proof {
                    if sound {
                        Store::lemma_same_disk(s0, *self);
                    }
                }
                return Err(e);
            },
        };
        let additions: Vec<TableInfo> = written.0;
        let ghost bounds = written.1@;
        let ghost s1 = *self;
        let ghost adds = additions@;
        let entry = Entry { additions: additions, removals: removals };
        let ghost ev = entry@;
        proof {
            assert(ev.removals =~= src);
            assert(ev.additions =~= infos_view(adds));
            if sound {
                Store::lemma_same_disk(s0, s1);
                s0.lemma_merge_change(s1, level, tables@, lower@, infos, adds, bounds, m, ev);
            }
        }
        let to_delete: Vec<TableId> = match append_toc(&mut self.toc, &mut self.directory, entry) {
            Ok(v) => v,
            Err(e) => {
                return Err(e);
            },
        };
        let ghost s2 = *self;
        proof {
            if sound {
                lemma_gone_all(s2.toc@, src, src.len() as int);
                assert(src.take(src.len() as int) =~= src);
                assert(ids_view(to_delete@) == src);
                assert(src.take(0).to_set() =~= Set::<u64>::empty());
                assert(s2.directory@.tables.remove_keys(Set::<u64>::empty())
                    =~= s2.directory@.tables);
            }
        }
        let mut d: usize = 0;
        while d < to_delete.len()
            invariant
                0 <= d <= to_delete@.len(),
                self.inv_without_first(),
                self.memstores == old(self).memstores,
                self.threshold == old(self).threshold,
                self.toc == s2.toc,
                self.directory@.toc == s2.directory@.toc,
                s0 == *old(self),
                sound == s0.merge_ready(level, tables@, lower@, infos),
                sound ==> ids_view(to_delete@) == src && src.no_duplicates() && forall|i: int|
                    0 <= i < src.len() ==> s2.directory@.tables.contains_key(#[trigger] src[i]),
                sound ==> self.directory@.tables == s2.directory@.tables.remove_keys(
                    src.take(d as int).to_set(),
                ),
            decreases to_delete@.len() - d,
        {
            proof {
                if sound {
                    assert(ids_view(to_delete@)[d as int] == to_delete@[d as int].0);
                    assert(s2.directory@.tables.contains_key(src[d as int]));
                    assert(!src.take(d as int).to_set().contains(src[d as int])) by {
                        if src.take(d as int).to_set().contains(src[d as int]) {
                            let k = choose|k: int|
                                0 <= k < src.take(d as int).len() && src.take(d as int)[k]
                                    == src[d as int];
                            assert(src[k] == src[d as int]);
                        }
                    }
                }
            }
            proof {
                if sound {
                    assert(self.directory@.tables.contains_key(to_delete@[d as int].0));
                }
            }
            if !self.directory.remove_table(to_delete[d]) {
                return mk_err("no such table file");
            }
            proof {
                if sound {
                    let more = src.take(d + 1);
                    let less = src.take(d as int);
                    assert(more =~= less.push(src[d as int]));
                    assert forall|x: u64| #[trigger]
                        more.to_set().contains(x) <==> less.to_set().insert(
                            src[d as int],
                        ).contains(x) by {
                        if more.to_set().contains(x) {
                            let k = choose|k: int| 0 <= k < more.len() && more[k] == x;
                            if k < d {
                                assert(less[k] == x);
                            }
                        }
                        if less.to_set().contains(x) {
                            let k = choose|k: int| 0 <= k < less.len() && less[k] == x;
                            assert(more[k] == x);
                        }
                        if x == src[d as int] {
                            assert(more[d as int] == x);
                        }
                    }
                    assert(more.to_set() =~= less.to_set().insert(src[d as int]));
                    assert(self.directory@.tables =~= s2.directory@.tables.remove_keys(
                        src.take(d + 1).to_set(),
                    ));
                }
            }
            d += 1;
        }
        proof {
            if sound {
                assert(src.take(src.len() as int) =~= src);
                Store::lemma_after_merge(
                    s0,
                    s1,
                    *self,
                    level,
                    tables@,
                    lower@,
                    infos,
                    adds,
                    bounds,
                    m,
                    ev,
                );
                Store::lemma_merged_into(
                    s0,
                    s1,
                    *self,
                    level,
                    tables@,
                    lower@,
                    infos,
                    adds,
                    bounds,
                    m,
                    ev,
                );
                assert forall|i: int| 0 <= i < src.len() implies s0.toc@.tables.contains_key(
                    #[trigger] src[i],
                ) by {
                    s0.lemma_merge_sources(level, tables@, lower@, infos);
                    assert(src[i] == (tables@ + lower@)[i].0);
                }
                s0.lemma_merge_change(s1, level, tables@, lower@, infos, adds, bounds, m, ev);
                Store::lemma_held_merged(s0, *self, level, src, bounds);
                if levels_apart(s0.toc@) && hull_clear(s0.toc@, level, src) {
                    s0.lemma_merge_sources(level, tables@, lower@, infos);
                    assert forall|i: int| 0 <= i < src.len() implies s0.toc@.tables.contains_key(
                        #[trigger] src[i],
                    ) by {
                        assert(src[i] == (tables@ + lower@)[i].0);
                    }
                    Store::lemma_merge_apart(s0, *self, level, src, bounds);
                }
            }
        }
        Ok(())
    }

    /// What must hold of a merge: the tables and the log are sound, the
    /// tables of the upper level are ready to be moved, and the tables of
    /// the lower level are those that overlap them.
    pub open spec fn merge_ready(
        &self,
        level: u64,
        tables: Seq<TableId>,
        lower: Seq<TableId>,
        infos: Seq<TableInfo>,
    ) -> bool {
        &&& self.disk_wf()
        &&& self.relevel_ready(level, tables)
        &&& infos.len() == tables.len()
        &&& forall|i: int| 0 <= i < tables.len()
            ==> (#[trigger] infos[i])@ == self.toc@.tables[tables[i].0]
        &&& Store::is_lower(self.toc@, level, infos, lower)
    }

    /// The tables of a merge are live tables with sorted runs.
    proof fn lemma_merge_sources(
        &self,
        level: u64,
        tables: Seq<TableId>,
        lower: Seq<TableId>,
        infos: Seq<TableInfo>,
    )
        requires
            level < u64::MAX,
            self.merge_ready(level, tables, lower, infos),
        ensures
            forall|i: int|
                0 <= i < (tables + lower).len() ==> self.toc@.tables.contains_key(
                    (#[trigger] (tables + lower)[i]).0,
                ),
            all_ordered(
                source_runs(self.tables(), ids_view(tables + lower)),
                Direction::Forward,
            ),
            sorted(
                merged(source_runs(self.tables(), ids_view(tables + lower)), Direction::Forward),
            ),
    {
        let src = ids_view(tables + lower);
        let p = tables.len() as int;
        assert forall|i: int| 0 <= i < (tables + lower).len() implies self.toc@.tables.contains_key(
            (#[trigger] (tables + lower)[i]).0,
        ) by {
            if i < p {
                assert((tables + lower)[i] == tables[i]);
            } else {
                assert((tables + lower)[i] == lower[i - p]);
                assert(self.toc@.level_ids((level + 1) as u64).contains(lower[i - p].0));
            }
        }
        assert forall|i: int| 0 <= i < src.len() implies self.toc@.tables.contains_key(
            #[trigger] src[i],
        ) by {
            assert(src[i] == (tables + lower)[i].0);
        }
        self.lemma_sources_sorted(src);
        lemma_merged(source_runs(self.tables(), src), Direction::Forward);
        lemma_sorted_is_ordered(merged(source_runs(self.tables(), src), Direction::Forward));
    }

    /// What a merge leaves, in one statement.
    proof fn lemma_merged_into(
        s0: Store,
        s1: Store,
        s3: Store,
        level: u64,
        tables: Seq<TableId>,
        lower: Seq<TableId>,
        infos: Seq<TableInfo>,
        additions: Seq<TableInfo>,
        bounds: Seq<int>,
        m: Seq<Item>,
        ev: EntryView,
    )
        requires
            level < u64::MAX,
            s0.merge_ready(level, tables, lower, infos),
            m == merged(source_runs(s0.tables(), ids_view(tables + lower)), Direction::Forward),
            Store::written(s0, s1, level, m, m.len() as int, bounds, additions),
            Store::cut_by(m, bounds, s0.threshold),
            ev.removals == ids_view(tables + lower),
            ev.additions == infos_view(additions),
            s1.toc@.after(ev) is Some,
            s3.toc@ == s1.toc@.after(ev)->Some_0,
            s3.directory@.tables == s1.directory@.tables.remove_keys(
                ids_view(tables + lower).to_set(),
            ),
            s3.directory@.toc == s1.directory@.toc + entry_record(ev),
            s3.threshold == s0.threshold,
            s3.tables() == merged_down(
                s0.tables(),
                ids_view(tables + lower),
                Store::new_tables(s0.toc@.next_table_id, (level + 1) as u64, m, bounds),
            ),
            s3.toc@.next_table_id == s0.toc@.next_table_id + bounds.len() - 1,
        ensures
            Store::merged_into(s0.disk(), s3.disk(), level, ids_view(tables + lower), bounds),
    {
        let src = ids_view(tables + lower);
        let first = s0.toc@.next_table_id;
        s0.lemma_merge_holds(level, tables, lower, infos);
        s0.lemma_merge_change(s1, level, tables, lower, infos, additions, bounds, m, ev);
        assert(bounds.len() >= 2);
        assert forall|id: u64| s0.toc@.tables.contains_key(id) implies id < first by {
            assert(s0.toc.table_infos@.contains_key(id));
        }
        assert forall|i: int| 0 <= i < src.len() implies s1.toc@.tables.contains_key(
            #[trigger] src[i],
        ) by {
            assert(src[i] == (tables + lower)[i].0);
            s0.lemma_merge_sources(level, tables, lower, infos);
            assert(s0.toc@.tables.contains_key((tables + lower)[i].0));
        }
        assert forall|j: int| 0 <= j < ev.additions.len() implies (#[trigger] ev.additions[j]).id
            == first + j && ev.additions[j].level == level + 1 by {
            assert(ev.additions[j] == additions[j]@);
        }
        Store::lemma_merge_applies(s1.toc@, src, first, ev);
        assert(s3.toc@.levels == s0.toc@.levels.insert((level + 1) as u64));
        assert forall|id: u64| id < first implies (#[trigger] s3.directory@.tables.contains_key(id)
            <==> s0.directory@.tables.contains_key(id) && !src.contains(id)) by {
            assert(s1.directory@.tables.contains_key(id) == s0.directory@.tables.contains_key(id));
        }
        let n = bounds.len() - 1;
        let change = Store::merge_of(s3.toc@, first, src, n);
        assert(ev == change) by {
            assert forall|j: int| 0 <= j < n implies ev.additions[j] == change.additions[j] by {
                assert(s3.toc@.tables[ev.additions[j].id] == ev.additions[j]);
            }
            assert(ev.additions =~= change.additions);
        }
        assert(s1.toc@ == (TocView { next_table_id: s3.toc@.next_table_id, ..s0.toc@ }));
        assert forall|id: u64| first <= id < first + n implies #[trigger] s3.directory@.tables.contains_key(
            id,
        ) && s3.directory@.tables[id] == table_image(piece(m, bounds, id - first)) by {
            let j = id - first;
            assert(additions[j]@.id == first + j);
            assert(!src.contains(id)) by {
                if src.contains(id) {
                    let i = choose|i: int| 0 <= i < src.len() && src[i] == id;
                    assert(s1.toc@.tables.contains_key(src[i]));
                }
            }
            assert(is_table_of(s1.directory@.tables[id], additions[j]@, piece(m, bounds, j)));
        }
    }

    /// A merge leaves the tables with no more entries than they held, and
    /// takes no more table numbers than the tables held entries.
    proof fn lemma_held_merged(s0: Store, s3: Store, level: u64, src: Seq<u64>, bounds: Seq<int>)
        requires
            level < u64::MAX,
            s0.toc.inv(),
            src.no_duplicates(),
            forall|i: int| 0 <= i < src.len() ==> s0.toc@.tables.contains_key(#[trigger] src[i]),
            Store::merged_into(s0.disk(), s3.disk(), level, src, bounds),
        ensures
            held(s3.disk()) <= held(s0.disk()),
            s3.toc@.next_table_id <= s0.toc@.next_table_id + held(s0.disk()),
    {
        let t0 = s0.tables();
        let t3 = s3.tables();
        let runs = source_runs(t0, src);
        let m = merged(runs, Direction::Forward);
        let first = s0.toc@.next_table_id;
        let k = bounds.len() - 1;
        let n = Store::new_tables(first, (level + 1) as u64, m, bounds);
        let less = t0.remove_keys(src.to_set());
        s0.lemma_tables();
        assert forall|i: int| 0 <= i < src.len() implies t0.contains_key(#[trigger] src[i])
            && src[i] < first by {
            assert(s0.toc.table_infos@.contains_key(src[i]));
        }
        assert forall|id: u64| t0.contains_key(id) implies id < first by {
            assert(s0.toc.table_infos@.contains_key(id));
        }
        lemma_entries_removed(t0, src, first as nat);
        assert(t3 == less.union_prefer_right(n));
        lemma_entries_same(t3, less, first as nat);
        lemma_entries_pieces(t3, first, m, bounds, k);
        crate::merging::lemma_merged_len(runs, Direction::Forward);
        lemma_cuts_count(bounds, k);
        assert(bounds[k] == m.len());
    }

    /// What is recorded of a table of a sound store fits its entries: the
    /// first and the last key are those of the entries.
    pub proof fn lemma_range_of(&self, id: u64)
        requires
            self.tables_sound(),
            self.toc@.tables.contains_key(id),
        ensures
            self.tables().contains_key(id),
            self.tables()[id].level == self.toc@.tables[id].level,
            self.tables()[id].items.len() > 0,
            sorted(self.tables()[id].items),
            self.toc@.tables[id].smallest_key == self.tables()[id].items.first().0,
            self.toc@.tables[id].biggest_key == self.tables()[id].items.last().0,
    {
        self.lemma_tables();
        let file = self.directory@.tables[id];
        let ti = self.toc@.tables[id];
        assert(is_table(file, ti));
        assert(is_table_of(file, ti, table_items(file, ti)));
    }

    /// A merge keeps the key ranges of the tables of each level from 1 on
    /// apart, where no table of the next level that is not merged reaches
    /// in between the first and the last key of the merged tables.
    proof fn lemma_merge_apart(s0: Store, s3: Store, level: u64, src: Seq<u64>, bounds: Seq<int>)
        requires
            level < u64::MAX,
            s0.disk_wf(),
            s3.disk_wf(),
            forall|i: int| 0 <= i < src.len() ==> s0.toc@.tables.contains_key(#[trigger] src[i]),
            all_ordered(source_runs(s0.tables(), src), Direction::Forward),
            Store::merged_into(s0.disk(), s3.disk(), level, src, bounds),
            levels_apart(s0.toc@),
            hull_clear(s0.toc@, level, src),
        ensures
            levels_apart(s3.toc@),
    {
        let t0 = s0.tables();
        let t3 = s3.tables();
        let runs = source_runs(t0, src);
        let m = merged(runs, Direction::Forward);
        let first = s0.toc@.next_table_id;
        let down = (level + 1) as u64;
        let n = Store::new_tables(first, down, m, bounds);
        s0.lemma_tables();
        s3.lemma_tables();
        lemma_merged(runs, Direction::Forward);
        lemma_sorted_is_ordered(m);
        assert forall|id: u64| s0.toc@.tables.contains_key(id) implies id < first by {
            assert(s0.toc.table_infos@.contains_key(id));
        }
        assert forall|a: u64, b: u64|
            #![trigger s3.toc@.tables[a], s3.toc@.tables[b]]
            s3.toc@.tables.contains_key(a) && s3.toc@.tables.contains_key(b) && a != b
                && s3.toc@.tables[a].level == s3.toc@.tables[b].level && s3.toc@.tables[a].level
                >= 1 implies !ranges_overlap(s3.toc@.tables[a], s3.toc@.tables[b]) by {
            s3.lemma_range_of(a);
            s3.lemma_range_of(b);
            assert(t3.contains_key(a) && t3.contains_key(b));
            if n.contains_key(a) && n.contains_key(b) {
                let j = a - first;
                let k = b - first;
                assert(t3[a].items == piece(m, bounds, j));
                assert(t3[b].items == piece(m, bounds, k));
                if j < k {
                    Store::lemma_pieces_follow(m, bounds, j, k);
                } else {
                    Store::lemma_pieces_follow(m, bounds, k, j);
                }
            } else if n.contains_key(a) {
                Store::lemma_piece_clear(s0, s3, level, src, bounds, a, b);
            } else if n.contains_key(b) {
                Store::lemma_piece_clear(s0, s3, level, src, bounds, b, a);
            } else {
                assert(t0.remove_keys(src.to_set()).contains_key(a));
                assert(t0.remove_keys(src.to_set()).contains_key(b));
                assert(t3[a] == t0[a]);
                assert(t3[b] == t0[b]);
                s0.lemma_range_of(a);
                s0.lemma_range_of(b);
                assert(!ranges_overlap(s0.toc@.tables[a], s0.toc@.tables[b]));
            }
        }
    }

    /// Of two pieces of a sorted run, the earlier ends before the later
    /// starts.
    proof fn lemma_pieces_follow(m: Seq<Item>, bounds: Seq<int>, j: int, k: int)
        requires
            sorted(m),
            cuts(m, bounds),
            0 <= j < k < bounds.len() - 1,
        ensures
            piece(m, bounds, j).len() > 0,
            piece(m, bounds, k).len() > 0,
            lex_lt(piece(m, bounds, j).last().0, piece(m, bounds, k).first().0),
    {
        crate::model::lemma_cuts_monotone(m, bounds, j, k);
        crate::model::lemma_cuts_ascend(m, bounds, j, j + 1);
        crate::model::lemma_cuts_ascend(m, bounds, k, k + 1);
        assert(bounds[j] < bounds[j + 1]);
        assert(bounds[k] < bounds[k + 1]);
        let x = bounds[j + 1] - 1;
        let y = bounds[k];
        assert(piece(m, bounds, j).last() == m[x]);
        assert(piece(m, bounds, k).first() == m[y]);
        assert(lex_lt(m[x].0, m[y].0));
    }

    /// A new table of a merge does not overlap a table of its level that
    /// was not merged, where that table does not reach in between the first
    /// and the last key of the merged tables.
    proof fn lemma_piece_clear(
        s0: Store,
        s3: Store,
        level: u64,
        src: Seq<u64>,
        bounds: Seq<int>,
        a: u64,
        b: u64,
    )
        requires
            level < u64::MAX,
            s0.disk_wf(),
            s3.disk_wf(),
            forall|i: int| 0 <= i < src.len() ==> s0.toc@.tables.contains_key(#[trigger] src[i]),
            all_ordered(source_runs(s0.tables(), src), Direction::Forward),
            Store::merged_into(s0.disk(), s3.disk(), level, src, bounds),
            hull_clear(s0.toc@, level, src),
            s3.toc@.tables.contains_key(a),
            s3.toc@.tables.contains_key(b),
            s3.toc@.tables[a].level == s3.toc@.tables[b].level,
            Store::new_tables(
                s0.toc@.next_table_id,
                (level + 1) as u64,
                merged(source_runs(s0.tables(), src), Direction::Forward),
                bounds,
            ).contains_key(a),
            !Store::new_tables(
                s0.toc@.next_table_id,
                (level + 1) as u64,
                merged(source_runs(s0.tables(), src), Direction::Forward),
                bounds,
            ).contains_key(b),
        ensures
            !ranges_overlap(s3.toc@.tables[a], s3.toc@.tables[b]),
    {
        let t0 = s0.tables();
        let t3 = s3.tables();
        let runs = source_runs(t0, src);
        let m = merged(runs, Direction::Forward);
        let first = s0.toc@.next_table_id;
        s0.lemma_tables();
        s3.lemma_tables();
        s3.lemma_range_of(a);
        s3.lemma_range_of(b);
        lemma_merged(runs, Direction::Forward);
        lemma_sorted_is_ordered(m);
        let j = a - first;
        let pc = piece(m, bounds, j);
        assert(t3[a].items == pc);
        assert(t0.remove_keys(src.to_set()).contains_key(b));
        assert(t3[b] == t0[b]);
        assert(!src.contains(b));
        s0.lemma_range_of(b);
        assert(s0.toc@.level_ids((level + 1) as u64).contains(b));
        crate::model::lemma_cuts_ascend(m, bounds, j, j + 1);
        assert(bounds[j] < bounds[j + 1]);
        let lo = bounds[j];
        let hi = bounds[j + 1] - 1;
        assert(pc.first() == m[lo]);
        assert(pc.last() == m[hi]);
        let (r1, p1) = choose|r: int, p: int|
            0 <= r < runs.len() && 0 <= p < runs[r].len() && #[trigger] runs[r][p] == #[trigger] m[lo];
        let (r2, p2) = choose|r: int, p: int|
            0 <= r < runs.len() && 0 <= p < runs[r].len() && #[trigger] runs[r][p] == #[trigger] m[hi];
        s0.lemma_range_of(src[r1]);
        s0.lemma_range_of(src[r2]);
        assert(runs[r1] == t0[src[r1]].items);
        assert(runs[r2] == t0[src[r2]].items);
        lemma_keys_in_range(runs[r1], m[lo].0);
        lemma_keys_in_range(runs[r2], m[hi].0);
        let tb = s0.toc@.tables[b];
        let x = s0.toc@.tables[src[r1]];
        let y = s0.toc@.tables[src[r2]];
        assert(lex_lt(tb.biggest_key, x.smallest_key) || lex_lt(y.biggest_key, tb.smallest_key));
        if lex_lt(tb.biggest_key, x.smallest_key) {
            lemma_lex_le_transitive(tb.biggest_key, x.smallest_key, m[lo].0);
        } else {
            lemma_lex_le_transitive(m[hi].0, y.biggest_key, tb.smallest_key);
        }
    }

    /// A merge of tables holds an entry.
    proof fn lemma_merge_holds(
        &self,
        level: u64,
        tables: Seq<TableId>,
        lower: Seq<TableId>,
        infos: Seq<TableInfo>,
    )
        requires
            level < u64::MAX,
            self.merge_ready(level, tables, lower, infos),
        ensures
            merged(source_runs(self.tables(), ids_view(tables + lower)), Direction::Forward).len()
                > 0,
    {
        let src = ids_view(tables + lower);
        let runs = source_runs(self.tables(), src);
        self.lemma_merge_sources(level, tables, lower, infos);
        self.lemma_tables();
        let id = src[0];
        assert(id == tables[0].0);
        assert(self.toc@.tables.contains_key(id));
        let file = self.directory@.tables[id];
        assert(is_table(file, self.toc@.tables[id]));
        let items = table_items(file, self.toc@.tables[id]);
        assert(is_table_of(file, self.toc@.tables[id], items));
        assert(runs[0] == items);
        lemma_find_at(items, 0);
        let key = items[0].0;
        assert(first_in_runs(runs, 0, key) is Some);
        lemma_merged(runs, Direction::Forward);
        assert(find(merged(runs, Direction::Forward), key) is Some);
    }

    /// The change of a merge can be applied after the new tables were
    /// written.
    proof fn lemma_merge_change(
        &self,
        s1: Store,
        level: u64,
        tables: Seq<TableId>,
        lower: Seq<TableId>,
        infos: Seq<TableInfo>,
        additions: Seq<TableInfo>,
        bounds: Seq<int>,
        m: Seq<Item>,
        ev: EntryView,
    )
        requires
            level < u64::MAX,
            self.merge_ready(level, tables, lower, infos),
            Store::written(*self, s1, level, m, m.len() as int, bounds, additions),
            ev.removals == ids_view(tables + lower),
            ev.additions == infos_view(additions),
        ensures
            s1.toc@.after(ev) is Some,
            ids_view(tables + lower).no_duplicates(),
            forall|i: int|
                0 <= i < ids_view(tables + lower).len() ==> !s1.toc@.after(
                    ev,
                )->Some_0.tables.contains_key(#[trigger] ids_view(tables + lower)[i]),
            forall|i: int|
                0 <= i < ids_view(tables + lower).len() ==> s1.directory@.tables.contains_key(
                    #[trigger] ids_view(tables + lower)[i],
                ),
    {
        let src = ids_view(tables + lower);
        let first = self.toc@.next_table_id;
        let p = tables.len() as int;
        self.lemma_merge_sources(level, tables, lower, infos);
        assert forall|id: u64| self.toc@.tables.contains_key(id) implies id < first by {
            assert(self.toc.table_infos@.contains_key(id));
        }
        assert forall|i: int| 0 <= i < src.len() implies s1.toc@.tables.contains_key(
            #[trigger] src[i],
        ) by {
            assert(src[i] == (tables + lower)[i].0);
        }
        assert(src.no_duplicates()) by {
            assert forall|i: int, j: int| 0 <= i < j < src.len() implies src[i] != src[j] by {
                if j < p {
                    assert(ids_view(tables)[i] == src[i]);
                    assert(ids_view(tables)[j] == src[j]);
                } else if i >= p {
                    assert(src[i] == lower[i - p].0);
                    assert(src[j] == lower[j - p].0);
                } else {
                    assert(src[i] == tables[i].0);
                    assert(src[j] == lower[j - p].0);
                    assert(self.toc@.level_ids((level + 1) as u64).contains(lower[j - p].0));
                }
            }
        }
        assert forall|j: int| 0 <= j < ev.additions.len() implies (#[trigger] ev.additions[j]).id
            == first + j by {
            assert(ev.additions[j] == additions[j]@);
        }
        Store::lemma_merge_applies(s1.toc@, src, first, ev);
        assert forall|i: int| 0 <= i < src.len() implies !s1.toc@.after(
            ev,
        )->Some_0.tables.contains_key(#[trigger] src[i]) by {
            assert(src.contains(src[i]));
            assert(src[i] < first);
        }
        assert forall|i: int| 0 <= i < src.len() implies s1.directory@.tables.contains_key(
            #[trigger] src[i],
        ) by {
            assert(self.toc@.tables.contains_key(src[i]));
            assert(self.directory@.tables.contains_key(src[i]));
        }
    }
}

} // verus!

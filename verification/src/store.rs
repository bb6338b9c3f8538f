//! The store: the in-memory buffer in front of the tables, the table of
//! contents, and the operations that read and write them.

use vstd::prelude::*;
use crate::directory::{Directory, DirectoryView};
use crate::disk::{lookup_table, flush_to_disk, is_table, is_table_of, table_items, table_image,
    found_as, lemma_table_unique};
use crate::error::{Error, mk_err};
use crate::levels::{Tables, TableData, hit, level_hit, level_lookup, disk_lookup,
    levels_disjoint, lemma_level_top, lemma_first_level, lemma_no_level, lemma_add_top,
    lemma_add_top_disjoint};
use crate::memstore::{MemStore, usage_total, upsert};
use crate::model::{find, has_key, sorted};
use crate::planner::{quiet, capacity, levels_apart, held, lemma_entries_same};
use crate::toc::{Toc, TocView, TableInfo, TableInfoView, Entry, EntryView, LevelNumber, read_toc,
    append_toc, replay, empty_toc, files_match, log_records, same_tables,
    lemma_log_records_later, lemma_log_records_replay, lemma_log_records_empty, lemma_add_all,
    lemma_log_records_at, entry_record};
use crate::util::{Buf, Item, Mutation, MutationView, TableId, copy_bytes, key_le, lex_le, lex_lt};

verus! {


/// A key-value store: a buffer of the latest mutations in memory, in front
/// of the tables of its directory.
pub struct Store {
    /// Never empty. New mutations go to the first.
    pub memstores: Vec<MemStore>,
    /// The space that the first buffer may take before it is flushed.
    pub threshold: usize,
    pub directory: Directory,
    pub toc: Toc,
}

/// The tables that a table of contents lists, with the entries of their
/// files.
#[verifier::opaque]
pub open spec fn tables_of(toc: TocView, files: Map<u64, Seq<u8>>) -> Tables {
    Map::new(
        |id: u64| toc.tables.contains_key(id),
        |id: u64|
            TableData {
                level: toc.tables[id].level,
                items: table_items(files[id], toc.tables[id]),
            },
    )
}

/// What a store keeps outside its buffers, as a mathematical value: the
/// table of contents, the directory, and the threshold by which tables are
/// cut.
pub struct Disk {
    pub toc: TocView,
    pub directory: DirectoryView,
    pub threshold: usize,
}

impl Disk {
    /// The tables as a mathematical value: each live table with its level
    /// and with the entries of its file.
    pub open spec fn tables(self) -> Tables {
        tables_of(self.toc, self.directory.tables)
    }
}

/// The directory `d` is the directory of a sound store with the tables of
/// `toc`: its log holds the records of the changes that lead to them, each
/// of them has a sound file, and from level 1 on no key stands in two tables
/// of a level.
pub open spec fn sound_directory(d: DirectoryView, toc: TocView) -> bool {
    &&& log_records(d.toc, toc)
    &&& forall|id: u64| #[trigger]
        toc.tables.contains_key(id) ==> d.tables.contains_key(id) && is_table(
            d.tables[id],
            toc.tables[id],
        )
    &&& levels_disjoint(tables_of(toc, d.tables))
}

/// Tables of contents that hold the same tables list the same tables.
pub proof fn lemma_tables_of_same(a: TocView, b: TocView, files: Map<u64, Seq<u8>>)
    requires
        same_tables(a, b),
    ensures
        tables_of(a, files) == tables_of(b, files),
{
    reveal(tables_of);
    assert(tables_of(a, files) =~= tables_of(b, files));
}

/// What a table records against a key: the value, or nothing for a
/// tombstone.
pub open spec fn value_of(m: Option<MutationView>) -> Option<Seq<u8>> {
    match m {
        Some(MutationView::Put(v)) => Some(v),
        _ => None,
    }
}

impl Store {
    /// There is a buffer, the buffers are in order, and the table of
    /// contents is consistent.
    pub open spec fn inv(&self) -> bool {
        &&& self.memstores@.len() >= 1
        &&& forall|i: int| 0 <= i < self.memstores@.len() ==> (#[trigger] self.memstores@[i]).inv()
        &&& self.toc.inv()
    }

    /// What the buffers from buffer `i` on record against `key`: what the
    /// first of them that holds the key records.
    pub open spec fn mem_lookup_from(&self, key: Seq<u8>, i: int) -> Option<MutationView>
        decreases self.memstores@.len() - i,
    {
        if i < 0 || i >= self.memstores@.len() {
            None
        } else {
            match self.memstores@[i].lookup_spec(key) {
                Some(m) => Some(m),
                None => self.mem_lookup_from(key, i + 1),
            }
        }
    }

    /// The tables of the store as a mathematical value: each live table
    /// with its level and with the entries of its file.
    pub open spec fn tables(&self) -> Tables {
        tables_of(self.toc@, self.directory@.tables)
    }

    /// What the store keeps outside its buffers.
    pub open spec fn disk(&self) -> Disk {
        Disk { toc: self.toc@, directory: self.directory@, threshold: self.threshold }
    }

    /// What the tables of the store are.
    pub proof fn lemma_tables(&self)
        ensures
            forall|id: u64| #[trigger]
                self.tables().contains_key(id) == self.toc@.tables.contains_key(id),
            forall|id: u64|
                self.toc@.tables.contains_key(id) ==> #[trigger] self.tables()[id] == (TableData {
                    level: self.toc@.tables[id].level,
                    items: table_items(self.directory@.tables[id], self.toc@.tables[id]),
                }),
    {
        reveal(tables_of);
    }

    /// What the file of table `id` records against `key`.
    pub open spec fn table_lookup(&self, id: u64, key: Seq<u8>) -> Option<MutationView> {
        find(self.tables()[id].items, key)
    }

    /// What the tables record against `key`: what the least level that holds
    /// the key records.
    pub open spec fn disk_lookup(&self, key: Seq<u8>) -> Option<MutationView> {
        disk_lookup(self.tables(), key)
    }

    /// What the store records against `key`: what the buffers record, and
    /// where they record nothing, what the tables record.
    pub open spec fn lookup(&self, key: Seq<u8>) -> Option<MutationView> {
        match self.mem_lookup_from(key, 0) {
            Some(m) => Some(m),
            None => self.disk_lookup(key),
        }
    }

    /// The value of `key` in the store, if it has one.
    pub open spec fn value(&self, key: Seq<u8>) -> Option<Seq<u8>> {
        value_of(self.lookup(key))
    }

    /// Every live table has its file in the directory, and the file is a
    /// sound table as the table of contents describes it.
    pub open spec fn tables_sound(&self) -> bool {
        forall|id: u64| #[trigger]
            self.toc@.tables.contains_key(id) ==> self.directory@.tables.contains_key(id)
                && is_table(self.directory@.tables[id], self.toc@.tables[id])
    }

    /// Only the first buffer holds entries.
    pub open spec fn older_buffers_empty(&self) -> bool {
        forall|i: int|
            1 <= i < self.memstores@.len() ==> (#[trigger] self.memstores@[i]).entries_view().len()
                == 0
    }

    /// The tables and the log are sound: the table of contents is
    /// consistent, every live table has a sound file, from level 1 on no key
    /// stands in two tables of a level, and the log holds the records of the
    /// changes that led to the table of contents.
    pub open spec fn disk_wf(&self) -> bool {
        &&& self.toc.inv()
        &&& self.tables_sound()
        &&& levels_disjoint(self.tables())
        &&& log_records(self.directory@.toc, self.toc@)
    }

    /// The store is sound: its buffers are in order, only the first holds
    /// entries, and its tables and its log are sound.
    pub open spec fn wf(&self) -> bool {
        &&& self.inv()
        &&& self.disk_wf()
        &&& self.older_buffers_empty()
    }

    /// What the tables are after a table entered whose file holds `items`.
    pub proof fn lemma_tables_insert(
        s0: Store,
        s1: Store,
        id: u64,
        ti: TableInfoView,
        file: Seq<u8>,
        items: Seq<Item>,
    )
        requires
            !s0.toc@.tables.contains_key(id),
            s1.toc@.tables == s0.toc@.tables.insert(id, ti),
            s1.directory@.tables == s0.directory@.tables.insert(id, file),
            is_table_of(file, ti, items),
        ensures
            s1.tables() == s0.tables().insert(id, TableData { level: ti.level, items: items }),
            s0.tables_sound() ==> s1.tables_sound(),
    {
        s0.lemma_tables();
        s1.lemma_tables();
        lemma_table_unique(file, ti, items);
        assert(s1.tables() =~= s0.tables().insert(id, TableData { level: ti.level, items: items }));
    }

    /// A directory for a new store: an empty log, and no table files.
    pub fn create() -> (r: Directory)
        ensures
            r@.toc == Seq::<u8>::empty(),
            r@.tables == Map::<u64, Seq<u8>>::empty(),
            sound_directory(r@, empty_toc()),
    {
        let r = Directory::new();
        proof {
            lemma_log_records_empty();
            reveal(tables_of);
            assert(levels_disjoint(tables_of(empty_toc(), r@.tables))) by {
                assert forall|level: u64, a: u64, b: u64, key: Seq<u8>|
                    level >= 1 && #[trigger] hit(
                        tables_of(empty_toc(), r@.tables),
                        level,
                        a,
                        key,
                    ) && #[trigger] hit(
                        tables_of(empty_toc(), r@.tables),
                        level,
                        b,
                        key,
                    ) implies a == b by {}
            }
        }
        r
    }

    /// A store over `directory`, with the table of contents that `toc` is.
    pub fn make(threshold: usize, directory: Directory, toc: Toc) -> (r: Store)
        requires
            toc.inv(),
        ensures
            r.inv(),
            r.threshold == threshold,
            r.directory == directory,
            r.toc == toc,
            r.memstores@.len() == 2,
            forall|i: int| 0 <= i < 2 ==> (#[trigger] r.memstores@[i]).entries_view().len() == 0,
    {
        Store::make_existing(threshold, directory, toc, MemStore::new())
    }

    fn make_existing(threshold: usize, directory: Directory, toc: Toc, ms: MemStore) -> (r: Store)
        requires
            toc.inv(),
            ms.inv(),
        ensures
            r.inv(),
            r.threshold == threshold,
            r.directory == directory,
            r.toc == toc,
            r.memstores@.len() == 2,
            r.memstores@[0].entries_view().len() == 0,
            r.memstores@[1] == ms,
    {
        let mut memstores: Vec<MemStore> = Vec::new();
        memstores.push(MemStore::new());
        memstores.push(ms);
        Store { memstores: memstores, threshold: threshold, directory: directory, toc: toc }
    }

    /// Opens the store of `directory`: reads the log into the table of
    /// contents, as `read_toc` does, and starts with empty buffers.
    pub fn open(directory: Directory, threshold: usize) -> (r: Result<Store, Error>)
        ensures
            ({
                let log = directory@.toc;
                let rp = replay(log, 0, empty_toc());
                match r {
                    Ok(s) => {
                        &&& s.inv()
                        &&& s.threshold == threshold
                        &&& !rp.invalid
                        &&& s.toc@ == rp.toc
                        &&& s.directory@.tables == directory@.tables
                        &&& s.directory@.toc == log.take(rp.end)
                        &&& rp.end == log.len() ==> files_match(rp.toc, directory@.tables)
                        &&& s.memstores@.len() == 2
                        &&& forall|i: int|
                            0 <= i < 2 ==> (#[trigger] s.memstores@[i]).entries_view().len() == 0
                    },
                    Err(_) => rp.invalid || (rp.end == log.len() && !files_match(
                        rp.toc,
                        directory@.tables,
                    )),
                }
            }),
            forall|t: TocView| #[trigger]
                sound_directory(directory@, t) ==> r is Ok && r->Ok_0.wf()
                    && r->Ok_0.directory@ == directory@ && same_tables(r->Ok_0.toc@, t),
            forall|t: TocView| #[trigger]
                sound_directory(directory@, t) ==> levels_apart(r->Ok_0.toc@) == levels_apart(t),
    {
        let ghost d0 = directory@;
        let mut directory = directory;
        proof {
            assert forall|t: TocView| #[trigger] sound_directory(d0, t) implies !replay(
                d0.toc,
                0,
                empty_toc(),
            ).invalid && replay(d0.toc, 0, empty_toc()).end == d0.toc.len() && same_tables(
                replay(d0.toc, 0, empty_toc()).toc,
                t,
            ) && files_match(replay(d0.toc, 0, empty_toc()).toc, d0.tables) by {
                lemma_log_records_replay(d0.toc, t);
                let rp = replay(d0.toc, 0, empty_toc());
                assert forall|id: u64| #[trigger] rp.toc.tables.contains_key(id) implies d0.tables.contains_key(
                    id,
                ) && d0.tables[id].len() == rp.toc.tables[id].file_size by {
                    assert(t.tables.contains_key(id));
                    assert(is_table(d0.tables[id], t.tables[id]));
                    assert(is_table_of(
                        d0.tables[id],
                        t.tables[id],
                        table_items(d0.tables[id], t.tables[id]),
                    ));
                }
            }
        }
        let toc = match read_toc(&mut directory) {
            Ok(t) => t,
            Err(e) => {
                return Err(e);
            },
        };
        let s = Store::make(threshold, directory, toc);
        proof {
            assert forall|t: TocView| #[trigger] sound_directory(d0, t) implies s.wf()
                && s.directory@ == d0 && same_tables(s.toc@, t) by {
                assert(d0.toc.take(d0.toc.len() as int) =~= d0.toc);
                assert(s.directory@.toc == d0.toc);
                assert(s.directory@ == d0);
                lemma_log_records_at(d0.toc, t);
                lemma_tables_of_same(s.toc@, t, d0.tables);
            }
        }
        Ok(s)
    }

    /// Durability: a store that is opened over the directory of a sound
    /// store whose buffers are empty, as they are after a flush, records
    /// against every key what that store records.
    pub proof fn lemma_reopened(s: Store, r: Store)
        requires
            s.wf(),
            forall|i: int|
                0 <= i < s.memstores@.len() ==> (#[trigger] s.memstores@[i]).entries_view().len()
                    == 0,
            forall|i: int|
                0 <= i < r.memstores@.len() ==> (#[trigger] r.memstores@[i]).entries_view().len()
                    == 0,
            r.directory@ == s.directory@,
            same_tables(r.toc@, s.toc@),
        ensures
            forall|key: Seq<u8>| #[trigger] r.lookup(key) == s.lookup(key),
            forall|key: Seq<u8>| #[trigger] r.value(key) == s.value(key),
    {
        lemma_tables_of_same(r.toc@, s.toc@, s.directory@.tables);
        assert forall|key: Seq<u8>| #[trigger] r.lookup(key) == s.lookup(key) by {
            r.lemma_empty_buffers(key, 0);
            s.lemma_empty_buffers(key, 0);
        }
    }
}

/// A key that a sorted run holds lies between its first and its last key.
pub proof fn lemma_keys_in_range(es: Seq<Item>, key: Seq<u8>)
    requires
        sorted(es),
        has_key(es, key),
    ensures
        lex_le(es.first().0, key),
        lex_le(key, es.last().0),
{
    let j = choose|j: int| 0 <= j < es.len() && #[trigger] es[j].0 == key;
    if 0 < j {
        assert(lex_lt(es[0].0, es[j].0));
    }
    if j < es.len() - 1 {
        assert(lex_lt(es[j].0, es[es.len() - 1].0));
    }
}

impl Store {
    /// What the buffers record against `key`.
    fn mem_find(&self, key: &[u8]) -> (r: Option<Mutation>)
        requires
            self.inv(),
        ensures
            found_as(r, self.mem_lookup_from(key@, 0)),
    {
        let mut i: usize = 0;
        while i < self.memstores.len()
            invariant
                self.inv(),
                0 <= i <= self.memstores@.len(),
                self.mem_lookup_from(key@, 0) == self.mem_lookup_from(key@, i as int),
            decreases self.memstores@.len() - i,
        {
            assert(self.memstores@[i as int].inv());
            match self.memstores[i].lookup(key) {
                Some(m) => {
                    return Some(m.clone());
                },
                None => {},
            }
            i += 1;
        }
        None
    }

    /// What table `id` records against `key`. The file of the table is
    /// read only where the key lies between the first and the last key of
    /// the table.
    fn table_find(&self, id: u64, key: &[u8]) -> (r: Result<Option<Mutation>, Error>)
        requires
            self.inv(),
            self.toc@.tables.contains_key(id),
        ensures
            self.tables_sound() ==> r is Ok && found_as(r->Ok_0, self.table_lookup(id, key@)),
    {
        let ti: &TableInfo = match self.toc.info(id) {
            Some(t) => t,
            None => {
                return mk_err("invalid toc");
            },
        };
        proof {
            self.lemma_tables();
            if self.tables_sound() {
                let file = self.directory@.tables[id];
                let es = table_items(file, ti@);
                assert(is_table(file, ti@));
                assert(is_table_of(file, ti@, es));
                if has_key(es, key@) {
                    lemma_keys_in_range(es, key@);
                }
            }
        }
        if key_le(ti.smallest_key.as_slice(), key) && key_le(key, ti.biggest_key.as_slice()) {
            lookup_table(&self.directory, ti, key)
        } else {
            Ok(None)
        }
    }

    /// What the tables of level `level` record against `key`: the tables
    /// are asked from the greatest number down.
    fn level_find(&self, level: LevelNumber, key: &[u8]) -> (r: Result<Option<Mutation>, Error>)
        requires
            self.inv(),
        ensures
            self.tables_sound() ==> r is Ok
                && found_as(r->Ok_0, level_lookup(self.tables(), level, key@)),
            self.tables_sound() ==> (r->Ok_0 is Some <==> level_hit(self.tables(), level, key@)),
    {
        let ids: Vec<u64> = self.toc.tables_at(level);
        let ghost sound = self.tables_sound();
        let mut j: usize = ids.len();
        while j > 0
            invariant
                self.inv(),
                sound == self.tables_sound(),
                0 <= j <= ids@.len(),
                ids@.to_set() == self.toc@.level_ids(level),
                forall|a: int, b: int| 0 <= a < b < ids@.len() ==> ids@[a] < ids@[b],
                sound ==> forall|k: int|
                    j <= k < ids@.len() ==> self.table_lookup(#[trigger] ids@[k], key@) is None,
            decreases j,
        {
            j -= 1;
            let id: u64 = ids[j];
            proof {
                self.lemma_tables();
                assert(ids@.to_set().contains(ids@[j as int]));
                assert(self.toc@.level_ids(level).contains(id));
            }
            let opt_mut = match self.table_find(id, key) {
                Ok(m) => m,
                Err(e) => {
                    return Err(e);
                },
            };
            if let Some(m) = opt_mut {
                proof {
                    if sound {
                        assert forall|o: u64| hit(self.tables(), level, o, key@) implies o <= id by {
                            assert(self.toc@.level_ids(level).contains(o));
                            assert(ids@.to_set().contains(o));
                            let k = choose|k: int| 0 <= k < ids@.len() && ids@[k] == o;
                            if k > j {
                                assert(self.table_lookup(ids@[k], key@) is None);
                            }
                        }
                        assert(hit(self.tables(), level, id, key@));
                        lemma_level_top(self.tables(), level, id, key@);
                    }
                }
                return Ok(Some(m));
            }
        }
        proof {
            self.lemma_tables();
            if sound {
                if level_hit(self.tables(), level, key@) {
                    let o = choose|o: u64| hit(self.tables(), level, o, key@);
                    assert(hit(self.tables(), level, o, key@));
                    assert(self.toc@.level_ids(level).contains(o));
                    assert(ids@.to_set().contains(o));
                    let k = choose|k: int| 0 <= k < ids@.len() && ids@[k] == o;
                    assert(self.table_lookup(ids@[k], key@) is None);
                }
            }
        }
        Ok(None)
    }

    /// What the tables record against `key`: the levels are asked from the
    /// least on.
    fn disk_find(&self, key: &[u8]) -> (r: Result<Option<Mutation>, Error>)
        requires
            self.inv(),
        ensures
            self.tables_sound() ==> r is Ok && found_as(r->Ok_0, self.disk_lookup(key@)),
    {
        let levels: Vec<u64> = self.toc.levels();
        let ghost sound = self.tables_sound();
        let ghost t = self.tables();
        let mut li: usize = 0;
        while li < levels.len()
            invariant
                self.inv(),
                sound == self.tables_sound(),
                t == self.tables(),
                0 <= li <= levels@.len(),
                levels@.to_set() == self.toc@.levels,
                forall|a: int, b: int| 0 <= a < b < levels@.len() ==> levels@[a] < levels@[b],
                sound ==> forall|k: int| 0 <= k < li ==> !level_hit(t, #[trigger] levels@[k], key@),
            decreases levels@.len() - li,
        {
            let level: u64 = levels[li];
            match self.level_find(level, key) {
                Ok(Some(m)) => {
                    proof {
                        if sound {
                            self.lemma_least_level(levels@, li as int, key@);
                            lemma_first_level(t, level, key@);
                        }
                    }
                    return Ok(Some(m));
                },
                Ok(None) => {},
                Err(e) => {
                    return Err(e);
                },
            }
            li += 1;
        }
        proof {
            if sound {
                self.lemma_no_level_listed(levels@, key@);
                lemma_no_level(t, key@);
            }
        }
        Ok(None)
    }

    /// Where the levels are listed in ascending order and none before the
    /// level at `li` holds a key, no lesser level holds the key.
    proof fn lemma_least_level(&self, levels: Seq<u64>, li: int, key: Seq<u8>)
        requires
            self.inv(),
            0 <= li < levels.len(),
            levels.to_set() == self.toc@.levels,
            forall|a: int, b: int| 0 <= a < b < levels.len() ==> levels[a] < levels[b],
            forall|k: int| 0 <= k < li ==> !level_hit(self.tables(), #[trigger] levels[k], key),
        ensures
            forall|o: u64| level_hit(self.tables(), o, key) ==> levels[li] <= o,
    {
        assert forall|o: u64| level_hit(self.tables(), o, key) implies levels[li] <= o by {
            self.lemma_hit_level_listed(o, key);
            assert(levels.to_set().contains(o));
            let k = choose|k: int| 0 <= k < levels.len() && levels[k] == o;
            if k < li {
                assert(!level_hit(self.tables(), levels[k], key));
            }
        }
    }

    /// Where no listed level holds a key, no level holds it.
    proof fn lemma_no_level_listed(&self, levels: Seq<u64>, key: Seq<u8>)
        requires
            self.inv(),
            levels.to_set() == self.toc@.levels,
            forall|k: int|
                0 <= k < levels.len() ==> !level_hit(self.tables(), #[trigger] levels[k], key),
        ensures
            forall|o: u64| !level_hit(self.tables(), o, key),
    {
        assert forall|o: u64| !level_hit(self.tables(), o, key) by {
            if level_hit(self.tables(), o, key) {
                self.lemma_hit_level_listed(o, key);
                assert(levels.to_set().contains(o));
                let k = choose|k: int| 0 <= k < levels.len() && levels[k] == o;
                assert(!level_hit(self.tables(), levels[k], key));
            }
        }
    }

    /// A level that holds a key is a level of the table of contents.
    proof fn lemma_hit_level_listed(&self, level: u64, key: Seq<u8>)
        requires
            self.inv(),
            level_hit(self.tables(), level, key),
        ensures
            self.toc@.levels.contains(level),
    {
        reveal(tables_of);
        let id = choose|id: u64| hit(self.tables(), level, id, key);
        assert(hit(self.tables(), level, id, key));
        assert(self.toc.table_infos@.contains_key(id));
        assert(self.toc.level_infos@.contains_key(self.toc.table_infos@[id].level));
    }

    /// What the store records against `key`.
    fn find_mutation(&self, key: &[u8]) -> (r: Result<Option<Mutation>, Error>)
        requires
            self.inv(),
        ensures
            self.tables_sound() ==> r is Ok && found_as(r->Ok_0, self.lookup(key@)),
    {
        match self.mem_find(key) {
            Some(m) => Ok(Some(m)),
            None => self.disk_find(key),
        }
    }

    /// Whether `key` has a value.
    pub fn exists_key(&self, key: &[u8]) -> (r: Result<bool, Error>)
        requires
            self.inv(),
        ensures
            self.tables_sound() ==> r == Ok::<bool, Error>(self.value(key@) is Some),
    {
        match self.find_mutation(key) {
            Ok(Some(Mutation::Put(_))) => Ok(true),
            Ok(_) => Ok(false),
            Err(e) => Err(e),
        }
    }

    /// The value of `key`, if it has one.
    pub fn get(&self, key: &[u8]) -> (r: Result<Option<Buf>, Error>)
        requires
            self.inv(),
        ensures
            self.tables_sound() ==> r is Ok && (match r->Ok_0 {
                Some(v) => self.value(key@) == Some(v@),
                None => self.value(key@) is None,
            }),
    {
        match self.find_mutation(key) {
            Ok(Some(Mutation::Put(x))) => Ok(Some(x)),
            Ok(_) => Ok(None),
            Err(e) => Err(e),
        }
    }
}

impl Store {
    /// Where the table of contents and the directory are the same, the
    /// tables are the same.
    pub proof fn lemma_disk_of(s0: Store, s1: Store)
        requires
            s1.toc == s0.toc,
            s1.directory == s0.directory,
        ensures
            s1.tables() == s0.tables(),
            s1.tables_sound() == s0.tables_sound(),
            s1.disk_wf() == s0.disk_wf(),
    {
        reveal(tables_of);
        assert(s1.tables() =~= s0.tables());
    }

    /// Where the buffers from `i` on hold no entry, they record nothing
    /// against a key.
    pub proof fn lemma_empty_buffers(&self, key: Seq<u8>, i: int)
        requires
            0 <= i,
            forall|j: int|
                i <= j < self.memstores@.len() ==> (#[trigger] self.memstores@[j]).entries_view().len()
                    == 0,
        ensures
            self.mem_lookup_from(key, i) is None,
        decreases self.memstores@.len() - i,
    {
        if i < self.memstores@.len() {
            assert(self.memstores@[i].entries_view().len() == 0);
            self.lemma_empty_buffers(key, i + 1);
        }
    }

    /// What the store records against a key after `m` was recorded against
    /// `key` in the first buffer.
    proof fn lemma_applied(s0: Store, s1: Store, key: Seq<u8>, m: MutationView)
        requires
            s0.inv(),
            s1.memstores@.len() == s0.memstores@.len(),
            s1.memstores@[0].lookup_spec(key) == Some(m),
            forall|k: Seq<u8>|
                k != key ==> s1.memstores@[0].lookup_spec(k) == s0.memstores@[0].lookup_spec(k),
            forall|i: int| 1 <= i < s0.memstores@.len() ==> s1.memstores@[i] == s0.memstores@[i],
            s1.toc == s0.toc,
            s1.directory == s0.directory,
        ensures
            s1.lookup(key) == Some(m),
            forall|k: Seq<u8>| k != key ==> #[trigger] s1.lookup(k) == s0.lookup(k),
            s1.disk_wf() == s0.disk_wf(),
            s1.older_buffers_empty() == s0.older_buffers_empty(),
    {
        Store::lemma_disk_of(s0, s1);
        assert forall|k: Seq<u8>| k != key implies #[trigger] s1.lookup(k) == s0.lookup(k) by {
            Store::lemma_same_older(s0, s1, k, 1);
        }
        if s0.older_buffers_empty() {
            assert forall|i: int| 1 <= i < s1.memstores@.len() implies (
            #[trigger] s1.memstores@[i]).entries_view().len() == 0 by {
                assert(s1.memstores@[i] == s0.memstores@[i]);
            }
        }
        if s1.older_buffers_empty() {
            assert forall|i: int| 1 <= i < s0.memstores@.len() implies (
            #[trigger] s0.memstores@[i]).entries_view().len() == 0 by {
                assert(s1.memstores@[i] == s0.memstores@[i]);
            }
        }
    }

    /// Where the buffers from `i` on are the same, they record the same.
    proof fn lemma_same_older(s0: Store, s1: Store, key: Seq<u8>, i: int)
        requires
            0 <= i,
            s1.memstores@.len() == s0.memstores@.len(),
            forall|j: int| i <= j < s0.memstores@.len() ==> s1.memstores@[j] == s0.memstores@[j],
        ensures
            s1.mem_lookup_from(key, i) == s0.mem_lookup_from(key, i),
        decreases s0.memstores@.len() - i,
    {
        if i < s0.memstores@.len() {
            assert(s1.memstores@[i] == s0.memstores@[i]);
            Store::lemma_same_older(s0, s1, key, i + 1);
        }
    }

    /// Records `val` against `key`, and flushes the buffer if it has reached
    /// the threshold: `recorded` says what becomes of the buffer and of the
    /// tables. The write succeeds where the table numbers suffice, as
    /// `write_fits` says, and so wherever `write_room` holds; `write_grown`
    /// bounds what it takes. It keeps the key ranges of the levels apart
    /// where `write_keeps` says so.
    pub fn put(&mut self, key: &[u8], val: &[u8]) -> (r: Result<(), Error>)
        requires
            old(self).inv(),
        ensures
            final(self).inv(),
            final(self).threshold == old(self).threshold,
            old(self).wf() ==> final(self).wf(),
            old(self).wf() && r is Ok ==> forall|k: Seq<u8>|
                #[trigger] final(self).lookup(k) == (if k == key@ {
                    Some(MutationView::Put(val@))
                } else {
                    old(self).lookup(k)
                }),
            old(self).wf() && r is Err ==> final(self).toc@.next_table_id == u64::MAX,
            usage_total(
                upsert(old(self).memstores@[0].entries_view(), key@, MutationView::Put(val@)),
            ) < old(self).threshold ==> r is Ok && Store::buffered(
                *old(self),
                *final(self),
                key@,
                MutationView::Put(val@),
            ),
            old(self).wf() && r is Ok ==> Store::recorded(
                *old(self),
                *final(self),
                key@,
                MutationView::Put(val@),
            ),
            old(self).wf() && old(self).write_fits(key@, MutationView::Put(val@)) ==> r is Ok,
            old(self).wf() && r is Ok && levels_apart(old(self).toc@) && old(self).write_keeps(
                key@,
                MutationView::Put(val@),
            ) ==> levels_apart(final(self).toc@),
            old(self).wf() && old(self).write_room(key@, MutationView::Put(val@)) ==> r is Ok,
            old(self).wf() && r is Ok ==> forall|top: u64|
                (forall|l: u64| old(self).toc@.levels.contains(l) ==> l <= top)
                    ==> #[trigger] Store::write_grown(
                    *old(self),
                    *final(self),
                    key@,
                    MutationView::Put(val@),
                    top,
                ),
    {
        self.record(key, Mutation::Put(copy_bytes(val)))
    }

    /// Records `m` against `key` in the first buffer, and flushes the
    /// buffer if it is full.
    fn record(&mut self, key: &[u8], m: Mutation) -> (r: Result<(), Error>)
        requires
            old(self).inv(),
        ensures
            final(self).inv(),
            final(self).threshold == old(self).threshold,
            old(self).wf() ==> final(self).wf(),
            old(self).wf() && r is Ok ==> forall|k: Seq<u8>|
                #[trigger] final(self).lookup(k) == (if k == key@ {
                    Some(m@)
                } else {
                    old(self).lookup(k)
                }),
            old(self).wf() && r is Err ==> final(self).toc@.next_table_id == u64::MAX,
            usage_total(upsert(old(self).memstores@[0].entries_view(), key@, m@)) < old(self).threshold
                ==> r is Ok && Store::buffered(*old(self), *final(self), key@, m@),
            old(self).wf() && r is Ok ==> Store::recorded(*old(self), *final(self), key@, m@),
            old(self).wf() && old(self).write_fits(key@, m@) ==> r is Ok,
            old(self).wf() && r is Ok && levels_apart(old(self).toc@) && old(self).write_keeps(
                key@,
                m@,
            ) ==> levels_apart(final(self).toc@),
            old(self).wf() && old(self).write_room(key@, m@) ==> r is Ok,
            old(self).wf() && r is Ok ==> forall|top: u64|
                (forall|l: u64| old(self).toc@.levels.contains(l) ==> l <= top)
                    ==> #[trigger] Store::write_grown(*old(self), *final(self), key@, m@, top),
    {
        let ghost s0 = *self;
        let ghost mv = m@;
        assert(self.memstores@[0].inv());
        self.memstores[0].apply(copy_bytes(key), m);
        let ghost s1 = *self;
        proof {
            assert forall|i: int| 0 <= i < self.memstores@.len() implies (
            #[trigger] self.memstores@[i]).inv() by {
                if i != 0 {
                    assert(self.memstores@[i] == old(self).memstores@[i]);
                }
            }
            Store::lemma_applied(s0, s1, key@, mv);
        }
        self.consider_split()
    }

    /// Records `val` against `key` if the key has no value. Says whether it
    /// did. Where it does, it succeeds as `put` does.
    pub fn insert(&mut self, key: &[u8], val: &[u8]) -> (r: Result<bool, Error>)
        requires
            old(self).inv(),
        ensures
            final(self).inv(),
            final(self).threshold == old(self).threshold,
            old(self).wf() ==> final(self).wf(),
            old(self).wf() && r is Ok ==> r->Ok_0 == (old(self).value(key@) is None),
            old(self).wf() && r is Ok ==> forall|k: Seq<u8>|
                #[trigger] final(self).value(k) == (if k == key@ && r->Ok_0 {
                    Some(val@)
                } else {
                    old(self).value(k)
                }),
            old(self).wf() && r is Err ==> final(self).toc@.next_table_id == u64::MAX,
            old(self).wf() && old(self).value(key@) is Some ==> r is Ok && *final(self) == *old(self),
            old(self).wf() && usage_total(
                upsert(old(self).memstores@[0].entries_view(), key@, MutationView::Put(val@)),
            ) < old(self).threshold ==> r is Ok && (r->Ok_0 ==> Store::buffered(
                *old(self),
                *final(self),
                key@,
                MutationView::Put(val@),
            )),
            old(self).wf() && r is Ok && r->Ok_0 ==> Store::recorded(
                *old(self),
                *final(self),
                key@,
                MutationView::Put(val@),
            ),
            old(self).wf() && old(self).write_fits(key@, MutationView::Put(val@)) ==> r is Ok,
            old(self).wf() && r is Ok && levels_apart(old(self).toc@) && old(self).write_keeps(
                key@,
                MutationView::Put(val@),
            ) ==> levels_apart(final(self).toc@),
            old(self).wf() && old(self).write_room(key@, MutationView::Put(val@)) ==> r is Ok,
            old(self).wf() && r is Ok && r->Ok_0 ==> forall|top: u64|
                (forall|l: u64| old(self).toc@.levels.contains(l) ==> l <= top)
                    ==> #[trigger] Store::write_grown(
                    *old(self),
                    *final(self),
                    key@,
                    MutationView::Put(val@),
                    top,
                ),
    {
        let there: bool = match self.exists_key(key) {
            Ok(b) => b,
            Err(e) => {
                return Err(e);
            },
        };
        if !there {
            match self.put(key, val) {
                Ok(_) => {},
                Err(e) => {
                    return Err(e);
                },
            }
            return Ok(true);
        }
        Ok(false)
    }

    /// Records `val` against `key` if the key has a value. Says whether it
    /// did. Where it does, it succeeds as `put` does.
    pub fn replace(&mut self, key: &[u8], val: &[u8]) -> (r: Result<bool, Error>)
        requires
            old(self).inv(),
        ensures
            final(self).inv(),
            final(self).threshold == old(self).threshold,
            old(self).wf() ==> final(self).wf(),
            old(self).wf() && r is Ok ==> r->Ok_0 == (old(self).value(key@) is Some),
            old(self).wf() && r is Ok ==> forall|k: Seq<u8>|
                #[trigger] final(self).value(k) == (if k == key@ && r->Ok_0 {
                    Some(val@)
                } else {
                    old(self).value(k)
                }),
            old(self).wf() && r is Err ==> final(self).toc@.next_table_id == u64::MAX,
            old(self).wf() && old(self).value(key@) is None ==> r is Ok && *final(self) == *old(self),
            old(self).wf() && usage_total(
                upsert(old(self).memstores@[0].entries_view(), key@, MutationView::Put(val@)),
            ) < old(self).threshold ==> r is Ok && (r->Ok_0 ==> Store::buffered(
                *old(self),
                *final(self),
                key@,
                MutationView::Put(val@),
            )),
            old(self).wf() && r is Ok && r->Ok_0 ==> Store::recorded(
                *old(self),
                *final(self),
                key@,
                MutationView::Put(val@),
            ),
            old(self).wf() && old(self).write_fits(key@, MutationView::Put(val@)) ==> r is Ok,
            old(self).wf() && r is Ok && levels_apart(old(self).toc@) && old(self).write_keeps(
                key@,
                MutationView::Put(val@),
            ) ==> levels_apart(final(self).toc@),
            old(self).wf() && old(self).write_room(key@, MutationView::Put(val@)) ==> r is Ok,
            old(self).wf() && r is Ok && r->Ok_0 ==> forall|top: u64|
                (forall|l: u64| old(self).toc@.levels.contains(l) ==> l <= top)
                    ==> #[trigger] Store::write_grown(
                    *old(self),
                    *final(self),
                    key@,
                    MutationView::Put(val@),
                    top,
                ),
    {
        let there: bool = match self.exists_key(key) {
            Ok(b) => b,
            Err(e) => {
                return Err(e);
            },
        };
        if there {
            match self.put(key, val) {
                Ok(_) => {},
                Err(e) => {
                    return Err(e);
                },
            }
            return Ok(true);
        }
        Ok(false)
    }

    /// Takes the value of `key` away, if the key has one. Says whether it
    /// had. Where it had, the tombstone is recorded as `put` records a
    /// value.
    pub fn remove(&mut self, key: &[u8]) -> (r: Result<bool, Error>)
        requires
            old(self).inv(),
        ensures
            final(self).inv(),
            final(self).threshold == old(self).threshold,
            old(self).wf() ==> final(self).wf(),
            old(self).wf() && r is Ok ==> r->Ok_0 == (old(self).value(key@) is Some),
            old(self).wf() && r is Ok ==> forall|k: Seq<u8>|
                #[trigger] final(self).value(k) == (if k == key@ {
                    None
                } else {
                    old(self).value(k)
                }),
            old(self).wf() && r is Err ==> final(self).toc@.next_table_id == u64::MAX,
            old(self).wf() && old(self).value(key@) is None ==> r is Ok && *final(self) == *old(self),
            old(self).wf() && usage_total(
                upsert(old(self).memstores@[0].entries_view(), key@, MutationView::Delete),
            ) < old(self).threshold ==> r is Ok && (r->Ok_0 ==> Store::buffered(
                *old(self),
                *final(self),
                key@,
                MutationView::Delete,
            )),
            old(self).wf() && r is Ok && r->Ok_0 ==> Store::recorded(
                *old(self),
                *final(self),
                key@,
                MutationView::Delete,
            ),
            old(self).wf() && old(self).write_fits(key@, MutationView::Delete) ==> r is Ok,
            old(self).wf() && r is Ok && levels_apart(old(self).toc@) && old(self).write_keeps(
                key@,
                MutationView::Delete,
            ) ==> levels_apart(final(self).toc@),
            old(self).wf() && old(self).write_room(key@, MutationView::Delete) ==> r is Ok,
            old(self).wf() && r is Ok && r->Ok_0 ==> forall|top: u64|
                (forall|l: u64| old(self).toc@.levels.contains(l) ==> l <= top)
                    ==> #[trigger] Store::write_grown(
                    *old(self),
                    *final(self),
                    key@,
                    MutationView::Delete,
                    top,
                ),
    {
        let there: bool = match self.exists_key(key) {
            Ok(b) => b,
            Err(e) => {
                return Err(e);
            },
        };
        if there {
            match self.record(key, Mutation::Delete) {
                Ok(_) => {},
                Err(e) => {
                    return Err(e);
                },
            }
            return Ok(true);
        }
        Ok(false)
    }

    /// Flushes the first buffer if it has reached the threshold.
    fn consider_split(&mut self) -> (r: Result<(), Error>)
        requires
            old(self).inv(),
        ensures
            final(self).inv(),
            final(self).threshold == old(self).threshold,
            old(self).wf() ==> final(self).wf(),
            old(self).wf() && r is Ok ==> forall|k: Seq<u8>|
                #[trigger] final(self).lookup(k) == old(self).lookup(k),
            old(self).wf() && r is Err ==> final(self).toc@.next_table_id == u64::MAX,
            old(self).memstores@[0].mem_usage < old(self).threshold ==> r is Ok && *final(self)
                == *old(self),
            old(self).wf() && r is Ok && old(self).memstores@[0].mem_usage >= old(self).threshold
                ==> Store::flush_done(
                old(self).disk(),
                final(self).disk(),
                old(self).memstores@[0].entries_view(),
            ) && final(self).memstores@.len() == old(self).memstores@.len() && forall|i: int|
                0 <= i < final(self).memstores@.len() ==> (
                #[trigger] final(self).memstores@[i]).entries_view().len() == 0,
            old(self).wf() && Store::flush_fits(
                old(self).disk(),
                old(self).memstores@[0].entries_view(),
            ) ==> r is Ok,
            old(self).wf() && r is Ok && levels_apart(old(self).toc@)
                && (old(self).memstores@[0].mem_usage < old(self).threshold || Store::flush_keeps(
                old(self).disk(),
                old(self).memstores@[0].entries_view(),
            )) ==> levels_apart(final(self).toc@),
            old(self).wf() && Store::flush_room(
                old(self).disk(),
                old(self).memstores@[0].entries_view(),
            ) ==> r is Ok,
            old(self).wf() && r is Ok && old(self).memstores@[0].mem_usage >= old(self).threshold
                ==> forall|top: u64|
                (forall|l: u64| old(self).toc@.levels.contains(l) ==> l <= top)
                    ==> #[trigger] Store::flush_grown(
                    old(self).disk(),
                    final(self).disk(),
                    old(self).memstores@[0].entries_view(),
                    top,
                ),
    {
        if self.memstores[0].mem_usage >= self.threshold {
            return self.flush();
        }
        Ok(())
    }

    /// Writes the first buffer as a table of level 0, records the table in
    /// the table of contents, lets the planner move tables down, and starts
    /// a new first buffer: `flush_done` says what is written and moved. What
    /// the store records against a key stays as it is. An empty buffer
    /// leaves no table and takes no number. The flush succeeds where the
    /// table numbers suffice, as `flush_fits` says, and so wherever
    /// `flush_room` holds; it fails only where they are used up, and
    /// `flush_grown` bounds what it takes. It keeps the key ranges of the
    /// levels apart where `flush_keeps` says so.
    pub fn flush(&mut self) -> (r: Result<(), Error>)
        requires
            old(self).inv(),
        ensures
            final(self).inv(),
            final(self).threshold == old(self).threshold,
            final(self).memstores@.len() == old(self).memstores@.len(),
            old(self).wf() ==> final(self).wf(),
            old(self).wf() && r is Ok ==> forall|k: Seq<u8>|
                #[trigger] final(self).lookup(k) == old(self).lookup(k),
            old(self).wf() && r is Ok ==> forall|i: int|
                0 <= i < final(self).memstores@.len() ==> (
                #[trigger] final(self).memstores@[i]).entries_view().len() == 0,
            old(self).wf() && r is Ok ==> Store::flush_done(
                old(self).disk(),
                final(self).disk(),
                old(self).memstores@[0].entries_view(),
            ),
            old(self).wf() && r is Err ==> final(self).toc@.next_table_id == u64::MAX,
            old(self).memstores@[0].entries_view().len() > 0 && old(self).toc@.next_table_id
                == u64::MAX ==> r is Err,
            old(self).memstores@[0].entries_view().len() == 0 && quiet(old(self).toc@) ==> r is Ok
                && final(self).toc == old(self).toc && final(self).directory == old(self).directory,
            old(self).memstores@[0].entries_view().len() > 0 && old(self).toc@.next_table_id
                < u64::MAX && quiet(old(self).toc@) && old(self).toc@.level_ids(0).len() < 4 ==> r is Ok
                && Store::flushed(
                old(self).disk(),
                final(self).disk(),
                old(self).memstores@[0].entries_view(),
            ),
            old(self).wf() && Store::flush_fits(
                old(self).disk(),
                old(self).memstores@[0].entries_view(),
            ) ==> r is Ok,
            old(self).wf() && r is Ok && levels_apart(old(self).toc@) && Store::flush_keeps(
                old(self).disk(),
                old(self).memstores@[0].entries_view(),
            ) ==> levels_apart(final(self).toc@),
            old(self).wf() && Store::flush_room(
                old(self).disk(),
                old(self).memstores@[0].entries_view(),
            ) ==> r is Ok,
            old(self).wf() && r is Ok ==> forall|top: u64|
                (forall|l: u64| old(self).toc@.levels.contains(l) ==> l <= top)
                    ==> #[trigger] Store::flush_grown(
                    old(self).disk(),
                    final(self).disk(),
                    old(self).memstores@[0].entries_view(),
                    top,
                ),
    {
        let ghost s0 = *self;
        let ms: MemStore = self.memstores.remove(0);
        proof {
            assert(old(self).memstores@[0].inv());
            assert forall|i: int| 0 <= i < self.memstores@.len() implies (
            #[trigger] self.memstores@[i]).inv() by {
                assert(self.memstores@[i] == old(self).memstores@[i + 1]);
            }
        }
        let ghost s1 = *self;
        proof {
            Store::lemma_disk_of(s0, s1);
        }
        let r = self.flush_and_rebalance(&ms);
        let ghost s2 = *self;
        let ghost mid = self.memstores@;
        self.memstores.insert(0, MemStore::new());
        proof {
            assert forall|i: int| 0 <= i < self.memstores@.len() implies (
            #[trigger] self.memstores@[i]).inv() by {
                if i > 0 {
                    assert(self.memstores@[i] == mid[i - 1]);
                }
            }
            Store::lemma_disk_of(s2, *self);
            if s0.wf() {
                assert forall|i: int| 0 <= i < self.memstores@.len() implies (
                #[trigger] self.memstores@[i]).entries_view().len() == 0 by {
                    if i > 0 {
                        assert(self.memstores@[i] == mid[i - 1]);
                        assert(mid[i - 1] == s0.memstores@[i]);
                    }
                }
                if r is Ok {
                    assert(s1.disk() == s0.disk());
                    assert(self.disk() == s2.disk());
                    assert forall|k: Seq<u8>| #[trigger] self.lookup(k) == s0.lookup(k) by {
                        self.lemma_empty_buffers(k, 0);
                        s0.lemma_empty_buffers(k, 1);
                        assert(self.disk_lookup(k) == s2.disk_lookup(k));
                        assert(s1.disk_lookup(k) == s0.disk_lookup(k));
                    }
                }
            }
        }
        r
    }

    /// What recording `m` against `key` in the first buffer does to the
    /// store `before`, where the buffer is not flushed: the first buffer
    /// records `m` against the key, and nothing else is changed.
    pub open spec fn buffered(before: Store, after: Store, key: Seq<u8>, m: MutationView) -> bool {
        &&& after.toc == before.toc
        &&& after.directory == before.directory
        &&& after.memstores@.len() == before.memstores@.len()
        &&& after.memstores@[0].entries_view() == upsert(
            before.memstores@[0].entries_view(),
            key,
            m,
        )
        &&& forall|i: int|
            1 <= i < before.memstores@.len() ==> after.memstores@[i] == before.memstores@[i]
    }

    /// What writing a buffer with the entries `es` as a table does to the
    /// store `before`: the table has the number that was next and stands at
    /// level 0, its file holds the entries, and nothing else is changed.
    pub open spec fn flushed(before: Disk, after: Disk, es: Seq<Item>) -> bool {
        let id = before.toc.next_table_id;
        let ti = after.toc.tables[id];
        &&& id < u64::MAX
        &&& after.threshold == before.threshold
        &&& after.toc.next_table_id == id + 1
        &&& after.toc.levels == before.toc.levels.insert(0)
        &&& !before.toc.tables.contains_key(id)
        &&& after.toc.tables == before.toc.tables.insert(id, ti)
        &&& ti.id == id
        &&& ti.level == 0
        &&& after.directory.tables == before.directory.tables.insert(id, table_image(es))
        &&& after.directory.toc == before.directory.toc + entry_record(
            EntryView { removals: Seq::empty(), additions: seq![ti] },
        )
        &&& is_table_of(table_image(es), ti, es)
    }

    /// What a flush of a buffer with the entries `es` does to what the store
    /// keeps on disk: the buffer is written as a table, unless it is empty,
    /// and then the planner moves tables down.
    pub open spec fn flush_done(before: Disk, after: Disk, es: Seq<Item>) -> bool {
        exists|mid: Disk|
            #![trigger Store::rebalanced(mid, after)]
            (if es.len() == 0 {
                mid == before
            } else {
                Store::flushed(before, mid, es)
            }) && Store::rebalanced(mid, after)
    }

    /// The table numbers that are left suffice for a flush of a buffer with
    /// the entries `es`: there is one for the table of the buffer, unless
    /// the buffer is empty, and then they suffice for the planner.
    pub open spec fn flush_fits(before: Disk, es: Seq<Item>) -> bool {
        &&& es.len() > 0 ==> before.toc.next_table_id < u64::MAX
        &&& forall|mid: Disk|
            #![trigger Store::rebalance_fits(mid)]
            (if es.len() == 0 {
                mid == before
            } else {
                Store::flushed(before, mid, es)
            }) ==> Store::rebalance_fits(mid)
    }

    /// A flush of a buffer with the entries `es` keeps the key ranges of the
    /// tables of each level from 1 on apart: the planner does, in the state
    /// in which the table of the buffer leaves the store.
    pub open spec fn flush_keeps(before: Disk, es: Seq<Item>) -> bool {
        forall|mid: Disk|
            #![trigger Store::rebalance_keeps(mid)]
            (if es.len() == 0 {
                mid == before
            } else {
                Store::flushed(before, mid, es)
            }) ==> Store::rebalance_keeps(mid)
    }

    /// Recording `m` against `key` keeps the key ranges of the tables of
    /// each level from 1 on apart: the buffer stays under the threshold, or
    /// its flush keeps them apart.
    pub open spec fn write_keeps(&self, key: Seq<u8>, m: MutationView) -> bool {
        let es = upsert(self.memstores@[0].entries_view(), key, m);
        usage_total(es) < self.threshold || Store::flush_keeps(self.disk(), es)
    }

    /// How far a flush of a buffer with the entries `es` lets the entries of
    /// the tables, the table numbers and the levels grow, where no level of
    /// `before` is greater than `top`.
    pub open spec fn flush_grown(before: Disk, after: Disk, es: Seq<Item>, top: u64) -> bool {
        &&& held(after) <= held(before) + es.len()
        &&& before.toc.next_table_id <= after.toc.next_table_id <= before.toc.next_table_id + 1
            + (top + 1) * (held(before) + es.len())
        &&& forall|l: u64| #[trigger] after.toc.levels.contains(l) ==> l <= top + 1
    }

    /// How far recording `m` against `key` lets the store `before` grow,
    /// where no level of it is greater than `top`: not at all while the
    /// buffer stays under the threshold; else as the flush of the buffer
    /// lets it grow.
    pub open spec fn write_grown(
        before: Store,
        after: Store,
        key: Seq<u8>,
        m: MutationView,
        top: u64,
    ) -> bool {
        let es = upsert(before.memstores@[0].entries_view(), key, m);
        if usage_total(es) < before.threshold {
            after.disk() == before.disk()
        } else {
            Store::flush_grown(before.disk(), after.disk(), es, top)
        }
    }

    /// There is room for a flush of a buffer with the entries `es`: a table
    /// number for the table of the buffer, and then room for the planner,
    /// as `roomy` says, with the entries of the buffer among those that the
    /// tables hold. Then the table numbers suffice.
    pub open spec fn flush_room(before: Disk, es: Seq<Item>) -> bool {
        forall|top: u64| #[trigger]
            before.toc.levels.insert(0).contains(top) ==> before.toc.next_table_id + 1 + (top + 1)
                * (held(before) + es.len()) <= u64::MAX
    }

    /// There is room to record `m` against `key`: the buffer stays under the
    /// threshold, or there is room for its flush.
    pub open spec fn write_room(&self, key: Seq<u8>, m: MutationView) -> bool {
        let es = upsert(self.memstores@[0].entries_view(), key, m);
        usage_total(es) < self.threshold || Store::flush_room(self.disk(), es)
    }

    /// Once a buffer is written, the tables hold its entries more.
    proof fn lemma_held_after(before: Store, after: Store, es: Seq<Item>)
        requires
            before.toc.inv(),
            if es.len() == 0 {
                after.disk() == before.disk()
            } else {
                Store::flushed(before.disk(), after.disk(), es)
            },
        ensures
            held(after.disk()) == held(before.disk()) + es.len(),
    {
        let first = before.toc@.next_table_id;
        if es.len() > 0 {
            let ti = after.toc@.tables[first];
            Store::lemma_tables_insert(before, after, first, ti, table_image(es), es);
            before.lemma_tables();
            lemma_entries_same(after.tables(), before.tables(), first as nat);
            assert(after.tables().contains_key(first));
        }
    }

    /// Where there is room for a flush, there is room for the planner once
    /// the buffer is written.
    proof fn lemma_flush_room(before: Store, after: Store, es: Seq<Item>)
        requires
            before.toc.inv(),
            Store::flush_room(before.disk(), es),
            if es.len() == 0 {
                after.disk() == before.disk()
            } else {
                Store::flushed(before.disk(), after.disk(), es)
            },
        ensures
            Store::roomy(after.disk()),
            held(after.disk()) == held(before.disk()) + es.len(),
    {
        let first = before.toc@.next_table_id;
        let w = held(before.disk());
        if es.len() > 0 {
            let ti = after.toc@.tables[first];
            Store::lemma_tables_insert(before, after, first, ti, table_image(es), es);
            before.lemma_tables();
            lemma_entries_same(after.tables(), before.tables(), first as nat);
            assert(after.tables().contains_key(first));
        }
        let w1 = held(after.disk());
        assert(w1 == w + es.len());
        assert forall|top: u64| #[trigger] after.toc@.levels.contains(top) implies after.toc@.next_table_id
            + (top + 1) * w1 <= u64::MAX by {
            assert(before.toc@.levels.insert(0).contains(top));
        }
    }

    /// The table numbers that are left suffice to record `m` against `key`:
    /// the buffer stays under the threshold, so that none is taken, or they
    /// suffice for the flush of the buffer.
    pub open spec fn write_fits(&self, key: Seq<u8>, m: MutationView) -> bool {
        let es = upsert(self.memstores@[0].entries_view(), key, m);
        usage_total(es) < self.threshold || Store::flush_fits(self.disk(), es)
    }

    /// What recording `m` against `key` does to the store `before`: the
    /// first buffer records `m` against the key; and where the buffer has
    /// then reached the threshold, it is flushed, and every buffer is empty.
    pub open spec fn recorded(before: Store, after: Store, key: Seq<u8>, m: MutationView) -> bool {
        let es = upsert(before.memstores@[0].entries_view(), key, m);
        if usage_total(es) < before.threshold {
            Store::buffered(before, after, key, m)
        } else {
            &&& Store::flush_done(before.disk(), after.disk(), es)
            &&& after.memstores@.len() == before.memstores@.len()
            &&& forall|i: int|
                0 <= i < after.memstores@.len() ==> (#[trigger] after.memstores@[i]).entries_view().len()
                    == 0
        }
    }

    /// A table that enters level 0 while it holds fewer than four tables
    /// leaves no level with more tables than it may hold.
    proof fn lemma_quiet_after_flush(before: Store, after: Store, es: Seq<Item>)
        requires
            before.toc.inv(),
            Store::flushed(before.disk(), after.disk(), es),
            quiet(before.toc@),
            before.toc@.level_ids(0).len() < 4,
        ensures
            quiet(after.toc@),
    {
        let id = before.toc@.next_table_id;
        assert(before.toc@.tables.dom() =~= before.toc.table_infos@.dom());
        vstd::set_lib::lemma_len_subset(before.toc@.level_ids(0), before.toc@.tables.dom());
        assert(after.toc@.level_ids(0) =~= before.toc@.level_ids(0).insert(id));
        assert forall|level: u64| level >= 1 implies #[trigger] after.toc@.level_ids(level).len()
            <= capacity(level as nat) by {
            assert(after.toc@.level_ids(level) =~= before.toc@.level_ids(level));
        }
    }

    /// What holds of a store while its first buffer is taken out.
    pub open spec fn inv_without_first(&self) -> bool {
        &&& forall|i: int| 0 <= i < self.memstores@.len() ==> (#[trigger] self.memstores@[i]).inv()
        &&& self.toc.inv()
    }

    fn flush_and_rebalance(&mut self, ms: &MemStore) -> (r: Result<(), Error>)
        requires
            old(self).inv_without_first(),
            ms.inv(),
        ensures
            final(self).inv_without_first(),
            final(self).memstores == old(self).memstores,
            final(self).threshold == old(self).threshold,
            old(self).disk_wf() ==> final(self).disk_wf(),
            old(self).disk_wf() && r is Ok ==> forall|key: Seq<u8>|
                #[trigger] final(self).disk_lookup(key) == (match ms.lookup_spec(key) {
                    Some(m) => Some(m),
                    None => old(self).disk_lookup(key),
                }),
            old(self).disk_wf() && r is Err ==> final(self).toc@.next_table_id == u64::MAX,
            old(self).disk_wf() && r is Ok ==> Store::flush_done(
                old(self).disk(),
                final(self).disk(),
                ms.entries_view(),
            ),
            ms.entries_view().len() > 0 && old(self).toc@.next_table_id == u64::MAX ==> r is Err,
            ms.entries_view().len() == 0 && quiet(old(self).toc@) ==> r is Ok && final(self).toc
                == old(self).toc && final(self).directory == old(self).directory,
            ms.entries_view().len() > 0 && old(self).toc@.next_table_id < u64::MAX && quiet(
                old(self).toc@,
            ) && old(self).toc@.level_ids(0).len() < 4 ==> r is Ok && Store::flushed(
                old(self).disk(),
                final(self).disk(),
                ms.entries_view(),
            ),
            old(self).disk_wf() && Store::flush_fits(old(self).disk(), ms.entries_view())
                ==> r is Ok,
            old(self).disk_wf() && r is Ok && levels_apart(old(self).toc@) && Store::flush_keeps(
                old(self).disk(),
                ms.entries_view(),
            ) ==> levels_apart(final(self).toc@),
            old(self).disk_wf() && Store::flush_room(old(self).disk(), ms.entries_view())
                ==> r is Ok,
            old(self).disk_wf() && r is Ok ==> forall|top: u64|
                (forall|l: u64| old(self).toc@.levels.contains(l) ==> l <= top)
                    ==> #[trigger] Store::flush_grown(
                    old(self).disk(),
                    final(self).disk(),
                    ms.entries_view(),
                    top,
                ),
    {
        proof {
            if Store::flush_room(self.disk(), ms.entries_view()) {
                // There is a table number for the table of the buffer.
                assert(self.toc@.levels.insert(0).contains(0));
                let w = held(self.disk()) + ms.entries_view().len();
                assert((0 + 1) * w >= 0) by (nonlinear_arith)
                    requires
                        w >= 0,
                ;
                assert(self.toc@.next_table_id < u64::MAX);
            }
        }
        match self.flush_and_record(0, ms) {
            Ok(_) => {},
            Err(e) => {
                return Err(e);
            },
        }
        let ghost s1 = *self;
        proof {
            if old(self).disk_wf() {
                if ms.entries_view().len() == 0 {
                    assert(s1.disk() == old(self).disk());
                }
                Store::lemma_held_after(*old(self), s1, ms.entries_view());
                if Store::flush_room(old(self).disk(), ms.entries_view()) {
                    Store::lemma_flush_room(*old(self), s1, ms.entries_view());
                }
            }
        }
        proof {
            if ms.entries_view().len() > 0 && quiet(old(self).toc@) && old(self).toc@.level_ids(
                0,
            ).len() < 4 {
                Store::lemma_quiet_after_flush(*old(self), s1, ms.entries_view());
            }
        }
        let r = self.rebalance();
        proof {
            if old(self).disk_wf() && r is Ok {
                let w = held(old(self).disk()) + ms.entries_view().len();
                assert forall|top: u64|
                    (forall|l: u64| old(self).toc@.levels.contains(l) ==> l <= top)
                    implies #[trigger] Store::flush_grown(
                    old(self).disk(),
                    self.disk(),
                    ms.entries_view(),
                    top,
                ) by {
                    assert forall|l: u64| s1.toc@.levels.contains(l) implies l <= top by {
                        if ms.entries_view().len() > 0 {
                            assert(old(self).toc@.levels.insert(0).contains(l));
                        }
                    }
                    assert(Store::grown(s1.disk(), self.disk(), top));
                    assert(held(s1.disk()) == w);
                }
                assert(Store::rebalanced(s1.disk(), self.disk()));
                if ms.entries_view().len() == 0 {
                    assert(s1.disk() == old(self).disk());
                }
                assert forall|key: Seq<u8>|
                    #[trigger] self.disk_lookup(key) == (match ms.lookup_spec(key) {
                        Some(m) => Some(m),
                        None => old(self).disk_lookup(key),
                    }) by {
                    assert(self.disk_lookup(key) == s1.disk_lookup(key));
                }
            }
        }
        r
    }

    /// Writes `ms` as a table of level 0 and records the table in the table
    /// of contents. An empty buffer leaves no table.
    fn flush_and_record(&mut self, level: LevelNumber, ms: &MemStore) -> (r: Result<(), Error>)
        requires
            old(self).inv_without_first(),
            ms.inv(),
            level == 0,
        ensures
            final(self).inv_without_first(),
            final(self).memstores == old(self).memstores,
            final(self).threshold == old(self).threshold,
            old(self).disk_wf() ==> final(self).disk_wf(),
            old(self).disk_wf() && r is Ok ==> forall|key: Seq<u8>|
                #[trigger] final(self).disk_lookup(key) == (match ms.lookup_spec(key) {
                    Some(m) => Some(m),
                    None => old(self).disk_lookup(key),
                }),
            old(self).disk_wf() && r is Err ==> final(self).toc@.next_table_id == u64::MAX,
            r is Ok <==> ms.entries_view().len() == 0 || old(self).toc@.next_table_id < u64::MAX,
            ms.entries_view().len() == 0 ==> final(self).toc == old(self).toc
                && final(self).directory == old(self).directory,
            r is Ok && ms.entries_view().len() > 0 ==> Store::flushed(
                old(self).disk(),
                final(self).disk(),
                ms.entries_view(),
            ),
            levels_apart(old(self).toc@) ==> levels_apart(final(self).toc@),
    {
        let ghost s0 = *self;
        let ghost es = ms.entries_view();
        if ms.entries.len() == 0 {
            proof {
                assert forall|key: Seq<u8>| ms.lookup_spec(key) is None by {}
            }
            return Ok(());
        }
        if self.toc.next_table_id == u64::MAX {
            return mk_err("table numbers exhausted");
        }
        let table_id = TableId(self.toc.next_table_id);
        self.toc.next_table_id += 1;
        let ghost s1 = *self;
        let (keys_offset, file_size, smallest, biggest) = flush_to_disk(
            &mut self.directory,
            table_id,
            ms,
        );
        let ti = TableInfo {
            id: table_id,
            level: level,
            keys_offset: keys_offset,
            file_size: file_size,
            smallest_key: smallest,
            biggest_key: biggest,
        };
        let ghost tiv = ti@;
        let mut additions: Vec<TableInfo> = Vec::new();
        additions.push(ti);
        let entry = Entry { additions: additions, removals: Vec::new() };
        let ghost ev = entry@;
        proof {
            assert(ev.removals =~= Seq::<u64>::empty());
            assert(ev.additions =~= seq![tiv]);
            assert(s1.toc@.tables == s0.toc@.tables);
            assert(!s0.toc@.tables.contains_key(table_id.0)) by {
                if s0.toc@.tables.contains_key(table_id.0) {
                    assert(s0.toc.table_infos@.contains_key(table_id.0));
                }
            }
            lemma_add_all(s1.toc@, ev.additions, 0);
            assert(s1.toc@.after(ev) == s1.toc@.add_from(ev.additions, 0));
            if s0.disk_wf() {
                lemma_log_records_later(s0.directory@.toc, s0.toc@, s1.toc@);
            }
        }
        match append_toc(&mut self.toc, &mut self.directory, entry) {
            Ok(_) => {
                proof {
                    let file = table_image(es);
                    assert(self.toc@.tables =~= s0.toc@.tables.insert(table_id.0, tiv));
                    assert(self.toc@.levels =~= s0.toc@.levels.insert(0)) by {
                        assert(ev.additions[0].level == 0);
                        assert forall|l: u64|
                            self.toc@.levels.contains(l) == s0.toc@.levels.insert(0).contains(
                                l,
                            ) by {
                            if l == 0 {
                                assert(0 <= 0 < ev.additions.len() && ev.additions[0].level == l);
                            }
                        }
                    }
                    assert(ev.additions[0].id < s1.toc@.next_table_id);
                    assert(self.toc@.next_table_id == s1.toc@.next_table_id);
                    assert(self.toc@.tables[table_id.0] == tiv);
                    assert(is_table_of(file, tiv, es));
                    if s0.disk_wf() {
                        Store::lemma_tables_insert(s0, *self, table_id.0, tiv, file, es);
                        s0.lemma_tables();
                        lemma_add_top_disjoint(s0.tables(), table_id.0, es);
                        assert forall|key: Seq<u8>|
                            #[trigger] self.disk_lookup(key) == (match ms.lookup_spec(key) {
                                Some(m) => Some(m),
                                None => s0.disk_lookup(key),
                            }) by {
                            assert forall|id: u64| s0.tables().contains_key(id) implies id
                                < table_id.0 by {
                                assert(s0.toc.table_infos@.contains_key(id));
                            }
                            lemma_add_top(s0.tables(), table_id.0, es, key);
                        }
                    }
                }
                Ok(())
            },
            Err(e) => Err(e),
        }
    }

}

impl Store {
    /// Put-then-get: a value that was put is the value of its key for as
    /// long as the store records against the key what it recorded then,
    /// which flushes and the moving of tables leave as it is.
    pub proof fn lemma_put_then_get(
        before: Store,
        after_put: Store,
        later: Store,
        key: Seq<u8>,
        val: Seq<u8>,
    )
        requires
            forall|k: Seq<u8>|
                #[trigger] after_put.lookup(k) == (if k == key {
                    Some(MutationView::Put(val))
                } else {
                    before.lookup(k)
                }),
            forall|k: Seq<u8>| #[trigger] later.lookup(k) == after_put.lookup(k),
        ensures
            later.value(key) == Some(val),
            forall|k: Seq<u8>| k != key ==> #[trigger] later.value(k) == before.value(k),
    {
        assert(later.lookup(key) == after_put.lookup(key));
        assert forall|k: Seq<u8>| k != key implies #[trigger] later.value(k) == before.value(k) by {
            assert(later.lookup(k) == after_put.lookup(k));
        }
    }

    /// Tombstones mask older values: a key whose value was taken away has
    /// no value for as long as the store records against the key what it
    /// recorded then, in whatever tables the older values of the key stand.
    pub proof fn lemma_remove_then_get(after_remove: Store, later: Store, key: Seq<u8>)
        requires
            after_remove.lookup(key) == Some(MutationView::Delete),
            forall|k: Seq<u8>| #[trigger] later.lookup(k) == after_remove.lookup(k),
        ensures
            later.value(key) is None,
    {
        assert(later.lookup(key) == after_remove.lookup(key));
    }
}

} // verus!

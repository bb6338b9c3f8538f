//! The table of contents: which tables are live, at which level, and the
//! number that the next table gets. It is kept as a log of checksummed
//! records, each of which removes tables and adds tables.

use vstd::prelude::*;
use vstd::std_specs::iter::IteratorSpec;
use vstd::std_specs::cmp::OrdSpec;
use std::collections::BTreeMap;
use std::collections::BTreeSet;
use fnv::FnvHashMap;
use crate::encoding::{encode_uvarint, decode_uvarint, encode_str, decode_str, encode_u64,
    decode_u64, encode_u32, decode_u32, try_into_size, uvarint_bytes, uvarint_value, uvarint_end,
    str_bytes, str_at, str_end, fixed_u64_at, fixed_u32_at, lemma_uvarint_roundtrip,
    lemma_str_roundtrip, lemma_scan_uvarint_bounds, lemma_uvarint_in_place, lemma_str_in_place};
use crate::directory::Directory;
use crate::error::{Error, mk_err};
use crate::util::{Buf, TableId, copy_bytes};

verus! {

/// The number of a level. Tables of level 0 may overlap in their keys.
pub type LevelNumber = u64;

/// What the table of contents records of a table.
#[derive(Debug)]
pub struct TableInfo {
    pub id: TableId,
    pub level: LevelNumber,
    /// Where the keys area starts in the table file.
    pub keys_offset: u64,
    pub file_size: u64,
    /// The first and the last key of the table.
    pub smallest_key: Buf,
    pub biggest_key: Buf,
}

/// What is recorded of a table, as a mathematical value.
pub struct TableInfoView {
    pub id: u64,
    pub level: u64,
    pub keys_offset: u64,
    pub file_size: u64,
    pub smallest_key: Seq<u8>,
    pub biggest_key: Seq<u8>,
}

impl View for TableInfo {
    type V = TableInfoView;

    open spec fn view(&self) -> TableInfoView {
        TableInfoView {
            id: self.id.0,
            level: self.level,
            keys_offset: self.keys_offset,
            file_size: self.file_size,
            smallest_key: self.smallest_key@,
            biggest_key: self.biggest_key@,
        }
    }
}

impl Clone for TableInfo {
    fn clone(&self) -> (r: TableInfo)
        ensures
            r@ == self@,
    {
        TableInfo {
            id: self.id,
            level: self.level,
            keys_offset: self.keys_offset,
            file_size: self.file_size,
            smallest_key: copy_bytes(self.smallest_key.as_slice()),
            biggest_key: copy_bytes(self.biggest_key.as_slice()),
        }
    }
}

/// A change of the table of contents: tables that leave it, then tables that
/// enter it.
#[derive(Debug)]
pub struct Entry {
    pub removals: Vec<TableId>,
    pub additions: Vec<TableInfo>,
}

/// A change of the table of contents, as a mathematical value.
pub struct EntryView {
    pub removals: Seq<u64>,
    pub additions: Seq<TableInfoView>,
}

impl View for Entry {
    type V = EntryView;

    open spec fn view(&self) -> EntryView {
        EntryView {
            removals: Seq::new(self.removals@.len(), |i: int| self.removals@[i].0),
            additions: Seq::new(self.additions@.len(), |i: int| self.additions@[i]@),
        }
    }
}

/// `fnv::FnvHasher`, the hasher of the map of the live tables: nothing
/// inside it is seen.
#[verifier::external_type_specification]
#[verifier::external_body]
pub struct ExFnvHasher(fnv::FnvHasher);

/// `core::hash::BuildHasherDefault`, which makes that hasher: nothing inside
/// it is seen.
#[verifier::external_type_specification]
#[verifier::external_body]
#[verifier::reject_recursive_types(H)]
pub struct ExBuildHasherDefault<H>(core::hash::BuildHasherDefault<H>);

/// `FnvHashMap::default`: a map without entries.
#[verifier::external_body]
fn table_map_new() -> (r: FnvHashMap<u64, TableInfo>)
    ensures
        (r@ == Map::<u64, TableInfo>::empty()),
{
    FnvHashMap::default()
}

/// `HashMap::get` on an `FnvHashMap`: the value stored under `id`, if one is.
#[verifier::external_body]
fn table_map_get<'a>(m: &'a FnvHashMap<u64, TableInfo>, id: u64) -> (r: Option<&'a TableInfo>)
    ensures
        r == (if m@.contains_key(id) {
            Some(&m@[id])
        } else {
            None
        }),
{
    m.get(&id)
}

/// `HashMap::insert` on an `FnvHashMap`: stores `info` under `id`, and gives
/// back what was stored under it before.
#[verifier::external_body]
fn table_map_insert(m: &mut FnvHashMap<u64, TableInfo>, id: u64, info: TableInfo) -> (r: Option<
    TableInfo,
>)
    ensures
        final(m)@ == old(m)@.insert(id, info),
        r == (if old(m)@.contains_key(id) {
            Some(old(m)@[id])
        } else {
            None
        }),
{
    m.insert(id, info)
}

/// `HashMap::remove` on an `FnvHashMap`: takes out what is stored under
/// `id`, and gives it back.
#[verifier::external_body]
fn table_map_remove(m: &mut FnvHashMap<u64, TableInfo>, id: u64) -> (r: Option<TableInfo>)
    ensures
        final(m)@ == old(m)@.remove(id),
        r == (if old(m)@.contains_key(id) {
            Some(old(m)@[id])
        } else {
            None
        }),
{
    m.remove(&id)
}

/// The table of contents in memory.
pub struct Toc {
    pub table_infos: FnvHashMap<u64, TableInfo>,
    pub level_infos: BTreeMap<LevelNumber, BTreeSet<u64>>,
    pub next_table_id: u64,
}

/// The table of contents as a mathematical value: the live tables by their
/// numbers, the levels that have ever held a table, and the number that the
/// next table gets.
pub struct TocView {
    pub tables: Map<u64, TableInfoView>,
    pub levels: Set<u64>,
    pub next_table_id: u64,
}

impl TocView {
    /// The numbers of the tables at `level`.
    pub open spec fn level_ids(self, level: u64) -> Set<u64> {
        Set::new(|id: u64| self.tables.contains_key(id) && self.tables[id].level == level)
    }

    /// This table of contents without table `id`.
    pub open spec fn without(self, id: u64) -> TocView {
        TocView { tables: self.tables.remove(id), ..self }
    }

    /// This table of contents with the table `t`.
    pub open spec fn with(self, t: TableInfoView) -> TocView {
        TocView {
            tables: self.tables.insert(t.id, t),
            levels: self.levels.insert(t.level),
            next_table_id: if self.next_table_id > t.id {
                self.next_table_id
            } else {
                (t.id + 1) as u64
            },
        }
    }

    /// Whether the table `t` can enter: its number is free, and is not the
    /// largest number there is.
    pub open spec fn admits(self, t: TableInfoView) -> bool {
        !self.tables.contains_key(t.id) && t.id < u64::MAX
    }

    /// This table of contents after the tables `ids[i..]` have left, if
    /// each of them is there when its turn comes.
    pub open spec fn remove_from(self, ids: Seq<u64>, i: int) -> Option<TocView>
        decreases ids.len() - i,
    {
        if i < 0 || i >= ids.len() {
            Some(self)
        } else if self.tables.contains_key(ids[i]) {
            self.without(ids[i]).remove_from(ids, i + 1)
        } else {
            None
        }
    }

    /// This table of contents after the tables `ts[i..]` have entered, if
    /// each of them can enter when its turn comes.
    pub open spec fn add_from(self, ts: Seq<TableInfoView>, i: int) -> Option<TocView>
        decreases ts.len() - i,
    {
        if i < 0 || i >= ts.len() {
            Some(self)
        } else if self.admits(ts[i]) {
            self.with(ts[i]).add_from(ts, i + 1)
        } else {
            None
        }
    }

    /// This table of contents after the tables `ids[i..]` have left, as far
    /// as they are there: up to the first that is not.
    pub open spec fn remove_while(self, ids: Seq<u64>, i: int) -> TocView
        decreases ids.len() - i,
    {
        if i < 0 || i >= ids.len() {
            self
        } else if self.tables.contains_key(ids[i]) {
            self.without(ids[i]).remove_while(ids, i + 1)
        } else {
            self
        }
    }

    /// This table of contents after the tables `ts[i..]` have entered, as
    /// far as they can: up to the first that cannot.
    pub open spec fn add_while(self, ts: Seq<TableInfoView>, i: int) -> TocView
        decreases ts.len() - i,
    {
        if i < 0 || i >= ts.len() {
            self
        } else if self.admits(ts[i]) {
            self.with(ts[i]).add_while(ts, i + 1)
        } else {
            self
        }
    }

    /// This table of contents after as much of the change `e` as can be
    /// applied: its removals in their order, then its additions in theirs,
    /// up to the first table that is not there to leave, or cannot enter.
    pub open spec fn as_far_as(self, e: EntryView) -> TocView {
        match self.remove_from(e.removals, 0) {
            Some(t) => t.add_while(e.additions, 0),
            None => self.remove_while(e.removals, 0),
        }
    }

    /// This table of contents after the change `e`: its removals in their
    /// order, then its additions in theirs. `None` if a table that is to
    /// leave is not there, or a table that is to enter cannot.
    pub open spec fn after(self, e: EntryView) -> Option<TocView> {
        match self.remove_from(e.removals, 0) {
            Some(t) => t.add_from(e.additions, 0),
            None => None,
        }
    }
}

impl Toc {
    /// A table of contents without tables.
    pub fn new() -> (r: Toc)
        ensures
            r.inv(),
            r@.tables == Map::<u64, TableInfoView>::empty(),
            r@.levels == Set::<u64>::empty(),
            r@.next_table_id == 0,
    {
        let r = Toc { table_infos: table_map_new(), level_infos: BTreeMap::new(), next_table_id: 0 };
        assert(r@.tables =~= Map::<u64, TableInfoView>::empty());
        assert(r@.levels =~= Set::<u64>::empty());
        r
    }

    /// The live tables are finitely many, each stands under its own number
    /// and in the set of its level, the sets of the levels hold live tables
    /// only, and every number is below the next number.
    pub open spec fn inv(&self) -> bool {
        &&& self.table_infos@.dom().finite()
        &&& forall|id: u64| #[trigger]
            self.table_infos@.contains_key(id) ==> {
                &&& self.table_infos@[id].id.0 == id
                &&& id < self.next_table_id
                &&& self.level_infos@.contains_key(self.table_infos@[id].level)
                &&& self.level_infos@[self.table_infos@[id].level]@.contains(id)
            }
        &&& forall|level: u64, id: u64|
            self.level_infos@.contains_key(level) && #[trigger] self.level_infos@[level]@.contains(
                id,
            ) ==> self.table_infos@.contains_key(id) && self.table_infos@[id].level == level
    }
}

impl View for Toc {
    type V = TocView;

    open spec fn view(&self) -> TocView {
        TocView {
            tables: self.table_infos@.map_values(|t: TableInfo| t@),
            levels: self.level_infos@.dom(),
            next_table_id: self.next_table_id,
        }
    }
}

impl Toc {
    /// What is recorded of table `id`, if it is live.
    pub fn info(&self, id: u64) -> (r: Option<&TableInfo>)
        ensures
            match r {
                Some(t) => self@.tables.contains_key(id) && self@.tables[id] == t@
                    && self.table_infos@.contains_key(id) && self.table_infos@[id] == *t,
                None => !self@.tables.contains_key(id),
            },
    {
        table_map_get(&self.table_infos, id)
    }

    /// The levels that have ever held a table, ascending.
    pub fn levels(&self) -> (r: Vec<LevelNumber>)
        ensures
            r@.to_set() == self@.levels,
            forall|i: int, j: int| 0 <= i < j < r@.len() ==> r@[i] < r@[j],
    {
        let mut out: Vec<u64> = Vec::new();
        for x in it: self.level_infos.keys()
            invariant
                out@.len() == it.index(),
                forall|i: int| 0 <= i < out@.len() ==> out@[i] == *it.seq()[i],
        {
            out.push(*x);
        }
        proof {
            broadcast use vstd::laws_cmp::group_laws_cmp;
            broadcast use vstd::laws_eq::group_laws_eq;

            reveal(vstd::laws_eq::obeys_eq_spec_properties);
            reveal(vstd::laws_cmp::obeys_partial_cmp_spec_properties);
            reveal(vstd::laws_cmp::obeys_cmp_partial_ord);
            reveal(vstd::laws_cmp::obeys_cmp_ord);
            assert(vstd::laws_eq::obeys_eq::<&u64>());
            assert(vstd::laws_cmp::obeys_cmp::<&u64>());
            let rem = self.level_infos.keys().remaining();
            assert(out@ =~= rem.unref());
            assert(vstd::std_specs::btree::increasing_seq(rem));
            vstd::std_specs::btree::axiom_increasing_seq_meaning::<&u64>(rem);
            assert forall|i: int, j: int| 0 <= i < j < out@.len() implies out@[i] < out@[j] by {
                assert(OrdSpec::cmp_spec(&rem[i], &rem[j]) is Less);
            }
        }
        out
    }

    /// The numbers of the tables at `level`, ascending.
    pub fn tables_at(&self, level: LevelNumber) -> (r: Vec<u64>)
        requires
            self.inv(),
        ensures
            r@.to_set() == self@.level_ids(level),
            forall|i: int, j: int| 0 <= i < j < r@.len() ==> r@[i] < r@[j],
    {
        let mut out: Vec<u64> = Vec::new();
        match self.level_infos.get(&level) {
            None => {
                proof {
                    assert(out@.to_set() =~= self@.level_ids(level));
                }
                out
            },
            Some(ids) => {
                for x in it: ids.iter()
                    invariant
                        out@.len() == it.index(),
                        forall|i: int| 0 <= i < out@.len() ==> out@[i] == *it.seq()[i],
                {
                    out.push(*x);
                }
                proof {
                    broadcast use vstd::laws_cmp::group_laws_cmp;
                    broadcast use vstd::laws_eq::group_laws_eq;

                    reveal(vstd::laws_eq::obeys_eq_spec_properties);
                    reveal(vstd::laws_cmp::obeys_partial_cmp_spec_properties);
                    reveal(vstd::laws_cmp::obeys_cmp_partial_ord);
                    reveal(vstd::laws_cmp::obeys_cmp_ord);
                    assert(vstd::laws_eq::obeys_eq::<&u64>());
                    assert(vstd::laws_cmp::obeys_cmp::<&u64>());
                    let rem = ids.iter().remaining();
                    assert(out@ =~= rem.unref());
                    assert(vstd::std_specs::btree::increasing_seq(rem));
                    vstd::std_specs::btree::axiom_increasing_seq_meaning::<&u64>(rem);
                    assert forall|i: int, j: int| 0 <= i < j < out@.len() implies out@[i]
                        < out@[j] by {
                        assert(OrdSpec::cmp_spec(&rem[i], &rem[j]) is Less);
                    }
                    assert(out@.to_set() =~= self@.level_ids(level));
                }
                out
            },
        }
    }
}

/// Takes table `table_id` out of the table of contents, if it is there.
/// Says whether it was.
pub fn remove_table(toc: &mut Toc, table_id: u64) -> (ok: bool)
    requires
        old(toc).inv(),
    ensures
        final(toc).inv(),
        ok == old(toc)@.tables.contains_key(table_id),
        ok ==> final(toc)@ == old(toc)@.without(table_id),
        !ok ==> final(toc)@ == old(toc)@,
{
    let ti: TableInfo = match table_map_remove(&mut toc.table_infos, table_id) {
        Some(t) => t,
        None => {
            assert(toc.table_infos@ =~= old(toc).table_infos@);
            assert(toc@.tables =~= old(toc)@.tables);
            return false;
        },
    };
    let level: u64 = ti.level;
    match toc.level_infos.remove(&level) {
        Some(set) => {
            let mut set = set;
            set.remove(&table_id);
            toc.level_infos.insert(level, set);
        },
        None => {},
    }
    proof {
        assert(toc@.tables =~= old(toc)@.tables.remove(table_id));
        assert(toc@.levels =~= old(toc)@.levels);
    }
    true
}

/// Puts the table `table_info` into the table of contents, if its number
/// is free and is not the largest there is. Says whether it did.
pub fn add_table(toc: &mut Toc, table_info: TableInfo) -> (ok: bool)
    requires
        old(toc).inv(),
    ensures
        final(toc).inv(),
        ok == old(toc)@.admits(table_info@),
        ok ==> final(toc)@ == old(toc)@.with(table_info@),
        !ok ==> final(toc)@ == old(toc)@,
{
    let table_id: u64 = table_info.id.0;
    let level: u64 = table_info.level;
    if table_id == u64::MAX {
        return false;
    }
    if table_map_get(&toc.table_infos, table_id).is_some() {
        return false;
    }
    table_map_insert(&mut toc.table_infos, table_id, table_info);
    let mut set: BTreeSet<u64> = match toc.level_infos.remove(&level) {
        Some(s) => s,
        None => BTreeSet::new(),
    };
    set.insert(table_id);
    toc.level_infos.insert(level, set);
    if toc.next_table_id <= table_id {
        toc.next_table_id = table_id + 1;
    }
    proof {
        assert(toc@.tables =~= old(toc)@.tables.insert(table_id, table_info@));
        assert(toc@.levels =~= old(toc)@.levels.insert(level));
    }
    true
}

/// Applies a change to the table of contents: the removals first, then
/// the additions. Stops at the first table that is not there to leave, or
/// cannot enter, and says whether the whole change was applied.
pub fn process_entry(toc: &mut Toc, entry: Entry) -> (ok: bool)
    requires
        old(toc).inv(),
    ensures
        final(toc).inv(),
        ok == old(toc)@.after(entry@) is Some,
        ok ==> final(toc)@ == old(toc)@.after(entry@)->Some_0,
        final(toc)@ == old(toc)@.as_far_as(entry@),
{
    let ghost ev = entry@;
    let mut i: usize = 0;
    while i < entry.removals.len()
        invariant
            toc.inv(),
            ev == entry@,
            0 <= i <= entry.removals@.len(),
            old(toc)@.remove_from(ev.removals, 0) == toc@.remove_from(ev.removals, i as int),
            old(toc)@.remove_while(ev.removals, 0) == toc@.remove_while(ev.removals, i as int),
        decreases entry.removals@.len() - i,
    {
        let id: u64 = entry.removals[i].0;
        assert(ev.removals[i as int] == id);
        if !remove_table(toc, id) {
            return false;
        }
        i += 1;
    }
    let ghost mid = toc@;
    let mut j: usize = 0;
    while j < entry.additions.len()
        invariant
            toc.inv(),
            ev == entry@,
            0 <= j <= entry.additions@.len(),
            old(toc)@.remove_from(ev.removals, 0) == Some(mid),
            mid.add_from(ev.additions, 0) == toc@.add_from(ev.additions, j as int),
            mid.add_while(ev.additions, 0) == toc@.add_while(ev.additions, j as int),
        decreases entry.additions@.len() - j,
    {
        let info: TableInfo = entry.additions[j].clone();
        assert(ev.additions[j as int] == info@);
        if !add_table(toc, info) {
            return false;
        }
        j += 1;
    }
    true
}

/// The bytes of what is recorded of a table: its number, level, keys offset
/// and file size as varints, then its two keys, each behind its length.
#[verifier::opaque]
pub open spec fn table_info_bytes(t: TableInfoView) -> Seq<u8> {
    uvarint_bytes(t.id as nat) + uvarint_bytes(t.level as nat) + uvarint_bytes(
        t.keys_offset as nat,
    ) + uvarint_bytes(t.file_size as nat) + str_bytes(t.smallest_key) + str_bytes(t.biggest_key)
}

/// Reads what is recorded of a table at `pos` in `s`. Gives the table, if a
/// whole one is there, and the position at which reading stops.
#[verifier::opaque]
pub open spec fn table_info_scan(s: Seq<u8>, pos: int) -> (Option<TableInfoView>, int) {
    let at1 = uvarint_end(s, pos);
    let at2 = uvarint_end(s, at1);
    let at3 = uvarint_end(s, at2);
    let at4 = uvarint_end(s, at3);
    let at5 = str_end(s, at4);
    let at6 = str_end(s, at5);
    if uvarint_value(s, pos) is None {
        (None, at1)
    } else if uvarint_value(s, at1) is None {
        (None, at2)
    } else if uvarint_value(s, at2) is None {
        (None, at3)
    } else if uvarint_value(s, at3) is None {
        (None, at4)
    } else if str_at(s, at4) is None {
        (None, at5)
    } else if str_at(s, at5) is None {
        (None, at6)
    } else {
        (
            Some(
                TableInfoView {
                    id: uvarint_value(s, pos)->Some_0,
                    level: uvarint_value(s, at1)->Some_0,
                    keys_offset: uvarint_value(s, at2)->Some_0,
                    file_size: uvarint_value(s, at3)->Some_0,
                    smallest_key: str_at(s, at4)->Some_0,
                    biggest_key: str_at(s, at5)->Some_0,
                },
            ),
            at6,
        )
    }
}

/// Appends the bytes of what is recorded of a table.
pub fn encode_table_info(v: &mut Vec<u8>, ti: &TableInfo)
    ensures
        final(v)@ == old(v)@ + table_info_bytes(ti@),
{
    proof {
        reveal(table_info_bytes);
    }
    encode_uvarint(v, ti.id.0);
    encode_uvarint(v, ti.level);
    encode_uvarint(v, ti.keys_offset);
    encode_uvarint(v, ti.file_size);
    encode_str(v, ti.smallest_key.as_slice());
    encode_str(v, ti.biggest_key.as_slice());
    assert(v@ =~= old(v)@ + table_info_bytes(ti@));
}

/// Decodes what is recorded of a table at `*pos`, and moves `*pos` to where
/// decoding stopped. Fails when one of the six parts does not decode.
pub fn decode_table_info(buf: &[u8], pos: &mut usize) -> (r: Option<TableInfo>)
    ensures
        match r {
            Some(t) => table_info_scan(buf@, *old(pos) as int).0 == Some(t@),
            None => table_info_scan(buf@, *old(pos) as int).0 is None,
        },
        *final(pos) as int == table_info_scan(buf@, *old(pos) as int).1,
{
    proof {
        reveal(table_info_scan);
    }
    let id: u64 = match decode_uvarint(buf, pos) {
        Some(x) => x,
        None => {
            return None;
        },
    };
    let level: u64 = match decode_uvarint(buf, pos) {
        Some(x) => x,
        None => {
            return None;
        },
    };
    let keys_offset: u64 = match decode_uvarint(buf, pos) {
        Some(x) => x,
        None => {
            return None;
        },
    };
    let file_size: u64 = match decode_uvarint(buf, pos) {
        Some(x) => x,
        None => {
            return None;
        },
    };
    let smallest_key: Buf = match decode_str(buf, pos) {
        Some(x) => x,
        None => {
            return None;
        },
    };
    let biggest_key: Buf = match decode_str(buf, pos) {
        Some(x) => x,
        None => {
            return None;
        },
    };
    Some(
        TableInfo {
            id: TableId(id),
            level: level,
            keys_offset: keys_offset,
            file_size: file_size,
            smallest_key: smallest_key,
            biggest_key: biggest_key,
        },
    )
}

/// The result of the Castagnoli CRC-32 of the `crc` crate on `bytes`.
pub uninterp spec fn crc32c(bytes: Seq<u8>) -> u32;

/// `crc::crc32::checksum_castagnoli`: the checksum of `bytes`, which depends
/// on the bytes alone.
#[verifier::external_body]
fn checksum_castagnoli(bytes: &[u8]) -> (r: u32)
    ensures
        r == crc32c(bytes@),
{
    crc::crc32::checksum_castagnoli(bytes)
}

/// The varints of the first `i` numbers of `ids`, one after the other.
pub open spec fn ids_bytes(ids: Seq<u64>, i: int) -> Seq<u8>
    decreases i,
{
    if i <= 0 {
        Seq::empty()
    } else {
        ids_bytes(ids, i - 1) + uvarint_bytes(ids[i - 1] as nat)
    }
}

/// The bytes of the first `i` tables of `ts`, one after the other.
pub open spec fn infos_bytes(ts: Seq<TableInfoView>, i: int) -> Seq<u8>
    decreases i,
{
    if i <= 0 {
        Seq::empty()
    } else {
        infos_bytes(ts, i - 1) + table_info_bytes(ts[i - 1])
    }
}

/// The payload of the record of a change: the number of removals and the
/// removals, then the number of additions and the additions.
pub open spec fn entry_payload(e: EntryView) -> Seq<u8> {
    uvarint_bytes(e.removals.len()) + ids_bytes(e.removals, e.removals.len() as int)
        + uvarint_bytes(e.additions.len()) + infos_bytes(e.additions, e.additions.len() as int)
}

/// A payload behind its length and its checksum.
pub open spec fn frame(payload: Seq<u8>) -> Seq<u8> {
    vstd::bytes::spec_u64_to_le_bytes(payload.len() as u64) + vstd::bytes::spec_u32_to_le_bytes(
        crc32c(payload),
    ) + payload
}

/// The record of a change in the log.
pub open spec fn entry_record(e: EntryView) -> Seq<u8> {
    frame(entry_payload(e))
}

/// The record of a change in the log.
pub fn encode_entry(ent: &Entry) -> (r: Vec<u8>)
    ensures
        r@ == entry_record(ent@),
        entry_fits(ent@),
{
    let mut v: Vec<u8> = Vec::new();
    let ghost ev = ent@;
    encode_uvarint(&mut v, ent.removals.len() as u64);
    let ghost head = v@;
    let mut i: usize = 0;
    while i < ent.removals.len()
        invariant
            ev == ent@,
            0 <= i <= ent.removals@.len(),
            v@ == head + ids_bytes(ev.removals, i as int),
        decreases ent.removals@.len() - i,
    {
        encode_uvarint(&mut v, ent.removals[i].0);
        assert(ev.removals[i as int] == ent.removals@[i as int].0);
        assert(v@ =~= head + ids_bytes(ev.removals, i + 1));
        i += 1;
    }
    encode_uvarint(&mut v, ent.additions.len() as u64);
    let ghost head2 = v@;
    let mut j: usize = 0;
    while j < ent.additions.len()
        invariant
            ev == ent@,
            0 <= j <= ent.additions@.len(),
            v@ == head2 + infos_bytes(ev.additions, j as int),
        decreases ent.additions@.len() - j,
    {
        encode_table_info(&mut v, &ent.additions[j]);
        assert(ev.additions[j as int] == ent.additions@[j as int]@);
        assert(v@ =~= head2 + infos_bytes(ev.additions, j + 1));
        j += 1;
    }
    assert(v@ =~= entry_payload(ev));
    let length: usize = v.len();
    proof {
        assert forall|i: int| 0 <= i < ev.additions.len() implies (
        #[trigger] ev.additions[i]).smallest_key.len() <= u64::MAX && ev.additions[i].biggest_key.len()
            <= u64::MAX by {
            assert(ev.additions[i] == ent.additions@[i]@);
            assert(ent.additions@[i].smallest_key.len() == ent.additions@[i].smallest_key@.len());
            assert(ent.additions@[i].biggest_key.len() == ent.additions@[i].biggest_key@.len());
        }
    }
    let checksum: u32 = checksum_castagnoli(v.as_slice());
    let mut ret: Vec<u8> = Vec::new();
    encode_u64(&mut ret, length as u64);
    encode_u32(&mut ret, checksum);
    ret.append(&mut v);
    assert(ret@ =~= entry_record(ev));
    ret
}

/// Reads `count` table numbers from `pos` in `s`. Gives them, if so many are
/// there, and the position behind them.
pub open spec fn ids_at(s: Seq<u8>, pos: int, count: nat) -> Option<(Seq<u64>, int)>
    decreases count,
{
    if count == 0 {
        Some((Seq::empty(), pos))
    } else {
        match uvarint_value(s, pos) {
            None => None,
            Some(id) => match ids_at(s, uvarint_end(s, pos), (count - 1) as nat) {
                None => None,
                Some(rest) => Some((seq![id] + rest.0, rest.1)),
            },
        }
    }
}

/// Reads `count` tables from `pos` in `s`. Gives them, if so many are there,
/// and the position behind them.
pub open spec fn infos_at(s: Seq<u8>, pos: int, count: nat) -> Option<(Seq<TableInfoView>, int)>
    decreases count,
{
    if count == 0 {
        Some((Seq::empty(), pos))
    } else {
        match table_info_scan(s, pos).0 {
            None => None,
            Some(t) => match infos_at(s, table_info_scan(s, pos).1, (count - 1) as nat) {
                None => None,
                Some(rest) => Some((seq![t] + rest.0, rest.1)),
            },
        }
    }
}

/// Reads the payload of a change from `front` in `s`. Gives the change, if
/// a whole one is there, and the position behind it.
pub open spec fn payload_at(s: Seq<u8>, front: int) -> Option<(EntryView, int)> {
    match uvarint_value(s, front) {
        None => None,
        Some(n) => match ids_at(s, uvarint_end(s, front), n as nat) {
            None => None,
            Some(ids) => match uvarint_value(s, ids.1) {
                None => None,
                Some(m) => match infos_at(s, uvarint_end(s, ids.1), m as nat) {
                    None => None,
                    Some(infos) => Some(
                        (EntryView { removals: ids.0, additions: infos.0 }, infos.1),
                    ),
                },
            },
        }
    }
}

/// Reads the record of a change at `pos` in `s`: the length of the payload,
/// its checksum, and the payload, which must have that length and that
/// checksum. Gives the change, if a whole and sound record is there, and the
/// position behind it.
pub open spec fn entry_at(s: Seq<u8>, pos: int) -> Option<(EntryView, int)> {
    match (fixed_u64_at(s, pos), fixed_u32_at(s, pos + 8)) {
        (Some(length), Some(checksum)) => {
            let front = pos + 12;
            if length > s.len() - front {
                None
            } else if checksum != crc32c(s.subrange(front, front + length)) {
                None
            } else {
                match payload_at(s, front) {
                    Some(p) => if p.1 - front == length {
                        Some(p)
                    } else {
                        None
                    },
                    None => None,
                }
            }
        },
        _ => None,
    }
}

/// Decodes the record of a change at `*pos` and moves `*pos` behind it.
/// Fails, leaving `*pos` alone, when no whole record is there, when the
/// checksum is not that of the payload, or when the payload does not decode
/// to a change of exactly its length.
pub fn decode_entry(buf: &[u8], pos: &mut usize) -> (r: Option<Entry>)
    ensures
        match r {
            Some(e) => entry_at(buf@, *old(pos) as int) == Some((e@, *final(pos) as int)),
            None => entry_at(buf@, *old(pos) as int) is None && *final(pos) == *old(pos),
        },
{
    let start: usize = *pos;
    let r = decode_entry_at(buf, pos);
    if r.is_none() {
        *pos = start;
    }
    r
}

/// The numbers of tables as mathematical values.
pub open spec fn ids_view(ids: Seq<TableId>) -> Seq<u64> {
    Seq::new(ids.len(), |k: int| ids[k].0)
}

/// What is recorded of tables, as mathematical values.
pub open spec fn infos_view(infos: Seq<TableInfo>) -> Seq<TableInfoView> {
    Seq::new(infos.len(), |k: int| infos[k]@)
}

/// Decodes `count` table numbers at `*pos` and moves `*pos` behind them.
fn decode_ids(buf: &[u8], pos: &mut usize, count: u64) -> (r: Option<Vec<TableId>>)
    ensures
        match r {
            Some(ids) => ids_at(buf@, *old(pos) as int, count as nat) == Some(
                (ids_view(ids@), *final(pos) as int),
            ),
            None => ids_at(buf@, *old(pos) as int, count as nat) is None,
        },
{
    let ghost s = buf@;
    let ghost start: int = *pos as int;
    let mut removals: Vec<TableId> = Vec::new();
    let mut i: u64 = 0;
    proof {
        assert(ids_view(removals@) =~= Seq::<u64>::empty());
        match ids_at(s, start, count as nat) {
            Some(rest) => {
                assert(Seq::<u64>::empty() + rest.0 =~= rest.0);
            },
            None => {},
        }
    }
    while i < count
        invariant
            s == buf@,
            start == *old(pos),
            0 <= i <= count,
            removals@.len() == i,
            ids_at(s, start, count as nat) == (match ids_at(s, *pos as int, (count - i) as nat) {
                Some(rest) => Some((ids_view(removals@) + rest.0, rest.1)),
                None => None,
            }),
        decreases count - i,
    {
        let ghost before = ids_view(removals@);
        let ghost at0 = *pos as int;
        let table: u64 = match decode_uvarint(buf, pos) {
            Some(x) => x,
            None => {
                return None;
            },
        };
        removals.push(TableId(table));
        i += 1;
        proof {
            let after = ids_view(removals@);
            assert(after =~= before.push(table));
            match ids_at(s, *pos as int, (count - i) as nat) {
                Some(rest) => {
                    assert(before + (seq![table] + rest.0) =~= after + rest.0);
                },
                None => {},
            }
        }
    }
    proof {
        assert(ids_view(removals@) + Seq::<u64>::empty() =~= ids_view(removals@));
    }
    Some(removals)
}

/// Decodes `count` tables at `*pos` and moves `*pos` behind them.
fn decode_infos(buf: &[u8], pos: &mut usize, count: u64) -> (r: Option<Vec<TableInfo>>)
    ensures
        match r {
            Some(infos) => infos_at(buf@, *old(pos) as int, count as nat) == Some(
                (infos_view(infos@), *final(pos) as int),
            ),
            None => infos_at(buf@, *old(pos) as int, count as nat) is None,
        },
{
    let ghost s = buf@;
    let ghost start: int = *pos as int;
    let mut additions: Vec<TableInfo> = Vec::new();
    let mut j: u64 = 0;
    proof {
        assert(infos_view(additions@) =~= Seq::<TableInfoView>::empty());
        match infos_at(s, start, count as nat) {
            Some(rest) => {
                assert(Seq::<TableInfoView>::empty() + rest.0 =~= rest.0);
            },
            None => {},
        }
    }
    while j < count
        invariant
            s == buf@,
            start == *old(pos),
            0 <= j <= count,
            additions@.len() == j,
            infos_at(s, start, count as nat) == (match infos_at(
                s,
                *pos as int,
                (count - j) as nat,
            ) {
                Some(rest) => Some((infos_view(additions@) + rest.0, rest.1)),
                None => None,
            }),
        decreases count - j,
    {
        let ghost before = infos_view(additions@);
        let info: TableInfo = match decode_table_info(buf, pos) {
            Some(x) => x,
            None => {
                return None;
            },
        };
        let ghost iv = info@;
        additions.push(info);
        j += 1;
        proof {
            let after = infos_view(additions@);
            assert(after =~= before.push(iv));
            match infos_at(s, *pos as int, (count - j) as nat) {
                Some(rest) => {
                    assert(before + (seq![iv] + rest.0) =~= after + rest.0);
                },
                None => {},
            }
        }
    }
    proof {
        assert(infos_view(additions@) + Seq::<TableInfoView>::empty() =~= infos_view(additions@));
    }
    Some(additions)
}

/// Decodes the payload of a change at `*pos` and moves `*pos` behind it.
fn decode_payload(buf: &[u8], pos: &mut usize) -> (r: Option<Entry>)
    ensures
        match r {
            Some(e) => payload_at(buf@, *old(pos) as int) == Some((e@, *final(pos) as int)),
            None => payload_at(buf@, *old(pos) as int) is None,
        },
{
    let num_removals: u64 = match decode_uvarint(buf, pos) {
        Some(x) => x,
        None => {
            return None;
        },
    };
    let removals: Vec<TableId> = match decode_ids(buf, pos, num_removals) {
        Some(x) => x,
        None => {
            return None;
        },
    };
    let num_additions: u64 = match decode_uvarint(buf, pos) {
        Some(x) => x,
        None => {
            return None;
        },
    };
    let additions: Vec<TableInfo> = match decode_infos(buf, pos, num_additions) {
        Some(x) => x,
        None => {
            return None;
        },
    };
    let e = Entry { removals: removals, additions: additions };
    proof {
        assert(e@.removals =~= ids_view(e.removals@));
        assert(e@.additions =~= infos_view(e.additions@));
    }
    Some(e)
}

fn decode_entry_at(buf: &[u8], pos: &mut usize) -> (r: Option<Entry>)
    ensures
        match r {
            Some(e) => entry_at(buf@, *old(pos) as int) == Some((e@, *final(pos) as int)),
            None => entry_at(buf@, *old(pos) as int) is None,
        },
{
    let length64: u64 = match decode_u64(buf, pos) {
        Some(x) => x,
        None => {
            return None;
        },
    };
    let checksum: u32 = match decode_u32(buf, pos) {
        Some(x) => x,
        None => {
            return None;
        },
    };
    let length: usize = match try_into_size(length64) {
        Some(x) => x,
        None => {
            assert(buf@.len() == buf.len());
            return None;
        },
    };
    let front: usize = *pos;
    if length > buf.len() - front {
        return None;
    }
    let entry_slice: &[u8] = vstd::slice::slice_subrange(buf, front, front + length);
    let computed_checksum: u32 = checksum_castagnoli(entry_slice);
    if checksum != computed_checksum {
        return None;
    }
    let e: Entry = match decode_payload(buf, pos) {
        Some(x) => x,
        None => {
            return None;
        },
    };
    if *pos < front || *pos - front != length {
        return None;
    }
    Some(e)
}

/// What reading a log gives: the table of contents after the records that
/// were applied, the position behind the last of them, and whether reading
/// stopped at a sound record that could not be applied.
pub struct Replay {
    pub toc: TocView,
    pub end: int,
    pub invalid: bool,
}

/// Reads the records of `log` from `pos` on and applies them to `toc`, up to
/// the end of the log or to the first position at which no sound record
/// stands or at which a sound record cannot be applied.
pub open spec fn replay(log: Seq<u8>, pos: int, toc: TocView) -> Replay
    decreases log.len() - pos,
{
    if pos >= log.len() {
        Replay { toc: toc, end: pos, invalid: false }
    } else {
        match entry_at(log, pos) {
            None => Replay { toc: toc, end: pos, invalid: false },
            Some(p) => if p.1 <= pos {
                Replay { toc: toc, end: pos, invalid: false }
            } else {
                match toc.after(p.0) {
                    None => Replay { toc: toc, end: pos, invalid: true },
                    Some(t) => replay(log, p.1, t),
                }
            },
        }
    }
}

/// The table of contents without tables.
pub open spec fn empty_toc() -> TocView {
    TocView { tables: Map::empty(), levels: Set::empty(), next_table_id: 0 }
}

/// Every table of `toc` has a file in `files`, of the length that `toc`
/// records.
pub open spec fn files_match(toc: TocView, files: Map<u64, Seq<u8>>) -> bool {
    forall|id: u64| #[trigger]
        toc.tables.contains_key(id) ==> files.contains_key(id) && files[id].len()
            == toc.tables[id].file_size
}

/// A record moves forward by its twelve bytes of length and checksum at
/// least.
pub proof fn lemma_entry_at_advances(s: Seq<u8>, pos: int)
    requires
        0 <= pos,
    ensures
        entry_at(s, pos) matches Some(p) ==> pos + 12 <= p.1 <= s.len(),
{
}

/// Whether every table of the table of contents has a file in the directory,
/// of the length that is recorded of it.
pub fn validate_toc(toc: &Toc, dir: &Directory) -> (r: bool)
    requires
        toc.inv(),
    ensures
        r == files_match(toc@, dir@.tables),
{
    let levels: Vec<u64> = toc.levels();
    let mut li: usize = 0;
    while li < levels.len()
        invariant
            toc.inv(),
            0 <= li <= levels@.len(),
            levels@.to_set() == toc@.levels,
            forall|id: u64| #[trigger]
                toc@.tables.contains_key(id) && (exists|k: int|
                    0 <= k < li && levels@[k] == toc@.tables[id].level) ==> dir@.tables.contains_key(
                    id,
                ) && dir@.tables[id].len() == toc@.tables[id].file_size,
        decreases levels@.len() - li,
    {
        let level: u64 = levels[li];
        let ids: Vec<u64> = toc.tables_at(level);
        let mut j: usize = 0;
        while j < ids.len()
            invariant
                toc.inv(),
                0 <= j <= ids@.len(),
                ids@.to_set() == toc@.level_ids(level),
                forall|k: int|
                    0 <= k < j ==> dir@.tables.contains_key(#[trigger] ids@[k])
                        && dir@.tables[ids@[k]].len() == toc@.tables[ids@[k]].file_size,
            decreases ids@.len() - j,
        {
            let id: u64 = ids[j];
            proof {
                assert(ids@.to_set().contains(ids@[j as int]));
                assert(toc@.level_ids(level).contains(id));
            }
            match toc.info(id) {
                Some(t) => {
                    let ok: bool = match dir.table_size(TableId(id)) {
                        Some(n) => n == t.file_size,
                        None => false,
                    };
                    if !ok {
                        return false;
                    }
                },
                None => {},
            }
            j += 1;
        }
        proof {
            assert forall|id: u64| #[trigger]
                toc@.tables.contains_key(id) && (exists|k: int|
                    0 <= k < li + 1
                        && levels@[k] == toc@.tables[id].level) implies dir@.tables.contains_key(
                id,
            ) && dir@.tables[id].len() == toc@.tables[id].file_size by {
                if toc@.tables[id].level == level {
                    assert(toc@.level_ids(level).contains(id));
                    assert(ids@.to_set().contains(id));
                    let k = choose|k: int| 0 <= k < ids@.len() && ids@[k] == id;
                    assert(dir@.tables.contains_key(ids@[k]));
                } else {
                    let k = choose|k: int| 0 <= k < li + 1 && levels@[k] == toc@.tables[id].level;
                    assert(k < li);
                }
            }
        }
        li += 1;
    }
    proof {
        assert forall|id: u64| #[trigger] toc@.tables.contains_key(id) implies dir@.tables.contains_key(
            id,
        ) && dir@.tables[id].len() == toc@.tables[id].file_size by {
            let level = toc@.tables[id].level;
            assert(toc.table_infos@.contains_key(id));
            assert(toc.level_infos@.contains_key(toc.table_infos@[id].level));
            assert(toc@.levels.contains(level));
            assert(levels@.to_set().contains(level));
            let k = choose|k: int| 0 <= k < levels@.len() && levels@[k] == level;
            assert(0 <= k < li && levels@[k] == toc@.tables[id].level);
        }
    }
    true
}

/// An empty log: the table of contents of a new store.
pub fn create_toc(dir: &mut Directory)
    ensures
        final(dir)@.toc == Seq::<u8>::empty(),
        final(dir)@.tables == old(dir)@.tables,
{
    dir.truncate_toc(0);
    assert(dir@.toc =~= Seq::<u8>::empty());
}

/// Reads the log of the directory into a table of contents. Reading stops
/// at the first position at which no sound record stands: the log is cut
/// there, and what was read is the table of contents. A log that was read
/// to its end must agree with the table files of the directory. A sound
/// record that cannot be applied is an error.
pub fn read_toc(dir: &mut Directory) -> (r: Result<Toc, Error>)
    ensures
        final(dir)@.tables == old(dir)@.tables,
        ({
            let log = old(dir)@.toc;
            let rp = replay(log, 0, empty_toc());
            match r {
                Ok(toc) => {
                    &&& toc.inv()
                    &&& !rp.invalid
                    &&& toc@ == rp.toc
                    &&& 0 <= rp.end <= log.len()
                    &&& final(dir)@.toc == log.take(rp.end)
                    &&& rp.end == log.len() ==> files_match(rp.toc, old(dir)@.tables)
                },
                Err(_) => {
                    &&& final(dir)@.toc == log
                    &&& rp.invalid || (rp.end == log.len() && !files_match(
                        rp.toc,
                        old(dir)@.tables,
                    ))
                },
            }
        }),
{
    let mut toc = Toc::new();
    let mut pos: usize = 0;
    let ghost log = dir@.toc;
    proof {
        assert(toc@ == empty_toc()) by {
            assert(toc@.tables =~= empty_toc().tables);
        }
    }
    while pos < dir.toc.len()
        invariant
            dir@ == old(dir)@,
            log == dir@.toc,
            toc.inv(),
            0 <= pos <= log.len(),
            replay(log, 0, empty_toc()) == replay(log, pos as int, toc@),
        decreases log.len() - pos,
    {
        let savepos: usize = pos;
        proof {
            lemma_entry_at_advances(log, pos as int);
        }
        match decode_entry(dir.toc.as_slice(), &mut pos) {
            Some(entry) => {
                if !process_entry(&mut toc, entry) {
                    return mk_err("invalid toc");
                }
            },
            None => {
                dir.truncate_toc(savepos);
                return Ok(toc);
            },
        }
    }
    if !validate_toc(&toc, dir) {
        return mk_err("invalid toc");
    }
    proof {
        assert(log.take(log.len() as int) =~= log);
    }
    Ok(toc)
}

/// The numbers among the first `i` of `ids` of tables that `toc` does not
/// hold, in their order.
pub open spec fn gone_upto(toc: TocView, ids: Seq<u64>, i: int) -> Seq<u64>
    decreases i,
{
    if i <= 0 {
        Seq::empty()
    } else if toc.tables.contains_key(ids[i - 1]) {
        gone_upto(toc, ids, i - 1)
    } else {
        gone_upto(toc, ids, i - 1).push(ids[i - 1])
    }
}

/// The numbers among `ids` of tables that `toc` does not hold.
pub open spec fn gone(toc: TocView, ids: Seq<u64>) -> Seq<u64> {
    gone_upto(toc, ids, ids.len() as int)
}

/// Applies a change to the table of contents and appends its record to the
/// log. Gives the tables that the change removed and did not add again:
/// their files are no longer needed. A change that cannot be applied is an
/// error: nothing is appended then, and the table of contents is left as it
/// was when the change stopped.
pub fn append_toc(toc: &mut Toc, dir: &mut Directory, entry: Entry) -> (r: Result<
    Vec<TableId>,
    Error,
>)
    requires
        old(toc).inv(),
    ensures
        final(toc).inv(),
        final(dir)@.tables == old(dir)@.tables,
        match r {
            Ok(v) => {
                &&& old(toc)@.after(entry@) is Some
                &&& final(toc)@ == old(toc)@.after(entry@)->Some_0
                &&& final(dir)@.toc == old(dir)@.toc + entry_record(entry@)
                &&& ids_view(v@) == gone(final(toc)@, entry@.removals)
                &&& log_records(old(dir)@.toc, old(toc)@) ==> log_records(
                    final(dir)@.toc,
                    final(toc)@,
                )
            },
            Err(_) => old(toc)@.after(entry@) is None && final(dir)@.toc == old(dir)@.toc,
        },
        final(toc)@ == old(toc)@.as_far_as(entry@),
{
    let data: Vec<u8> = encode_entry(&entry);
    let mut removed: Vec<TableId> = Vec::new();
    let mut i: usize = 0;
    while i < entry.removals.len()
        invariant
            0 <= i <= entry.removals@.len(),
            removed@.len() == i,
            forall|k: int| 0 <= k < i ==> removed@[k] == entry.removals@[k],
        decreases entry.removals@.len() - i,
    {
        removed.push(entry.removals[i]);
        i += 1;
    }
    let ghost ev = entry@;
    if !process_entry(toc, entry) {
        return mk_err("change does not apply to the table of contents");
    }
    dir.append_toc(data.as_slice());
    proof {
        if log_records(old(dir)@.toc, old(toc)@) {
            lemma_log_records_append(old(dir)@.toc, old(toc)@, ev);
        }
    }
    let mut unreferenced: Vec<TableId> = Vec::new();
    let mut j: usize = 0;
    while j < removed.len()
        invariant
            0 <= j <= removed@.len(),
            removed@.len() == ev.removals.len(),
            forall|k: int| 0 <= k < removed@.len() ==> removed@[k].0 == ev.removals[k],
            ids_view(unreferenced@) == gone_upto(toc@, ev.removals, j as int),
            log_records(old(dir)@.toc, old(toc)@) ==> log_records(dir@.toc, toc@),
        decreases removed@.len() - j,
    {
        let id: TableId = removed[j];
        let ghost before = ids_view(unreferenced@);
        if toc.info(id.0).is_none() {
            unreferenced.push(id);
            proof {
                assert(ids_view(unreferenced@) =~= before.push(id.0));
            }
        } else {
            proof {
                assert(ids_view(unreferenced@) =~= before);
            }
        }
        j += 1;
    }
    Ok(unreferenced)
}

/// Reading what is recorded of a table where it was written gives it back,
/// and stops behind it.
pub proof fn lemma_table_info_roundtrip(t: TableInfoView, before: Seq<u8>, after: Seq<u8>)
    requires
        t.smallest_key.len() <= u64::MAX,
        t.biggest_key.len() <= u64::MAX,
    ensures
        table_info_scan(before + table_info_bytes(t) + after, before.len() as int) == (
            Some(t),
            (before.len() + table_info_bytes(t).len()) as int,
        ),
{
    reveal(table_info_bytes);
    reveal(table_info_scan);
    let a = uvarint_bytes(t.id as nat);
    let b = uvarint_bytes(t.level as nat);
    let c = uvarint_bytes(t.keys_offset as nat);
    let d = uvarint_bytes(t.file_size as nat);
    let e = str_bytes(t.smallest_key);
    let f = str_bytes(t.biggest_key);
    let s = before + table_info_bytes(t) + after;
    let at0 = before.len() as int;
    let at1 = at0 + a.len();
    let at2 = at1 + b.len();
    let at3 = at2 + c.len();
    let at4 = at3 + d.len();
    let at5 = at4 + e.len();
    let at6 = at5 + f.len();
    assert(s.subrange(at0, at1) =~= a);
    lemma_uvarint_in_place(s, at0, t.id);
    assert(s.subrange(at1, at2) =~= b);
    lemma_uvarint_in_place(s, at1, t.level);
    assert(s.subrange(at2, at3) =~= c);
    lemma_uvarint_in_place(s, at2, t.keys_offset);
    assert(s.subrange(at3, at4) =~= d);
    lemma_uvarint_in_place(s, at3, t.file_size);
    assert(s.subrange(at4, at5) =~= e);
    lemma_str_in_place(s, at4, t.smallest_key);
    assert(s.subrange(at5, at6) =~= f);
    lemma_str_in_place(s, at5, t.biggest_key);
}

/// The bytes of the first numbers are the first bytes of the bytes of more
/// numbers.
pub proof fn lemma_ids_bytes_prefix(ids: Seq<u64>, i: int, j: int)
    requires
        0 <= i <= j,
    ensures
        ids_bytes(ids, i).len() <= ids_bytes(ids, j).len(),
        ids_bytes(ids, j).subrange(0, ids_bytes(ids, i).len() as int) == ids_bytes(ids, i),
    decreases j - i,
{
    if i < j {
        lemma_ids_bytes_prefix(ids, i, j - 1);
        assert(ids_bytes(ids, j).subrange(0, ids_bytes(ids, i).len() as int) =~= ids_bytes(
            ids,
            j - 1,
        ).subrange(0, ids_bytes(ids, i).len() as int));
    } else {
        assert(ids_bytes(ids, j).subrange(0, ids_bytes(ids, i).len() as int) =~= ids_bytes(
            ids,
            i,
        ));
    }
}

/// Reading numbers where they were written gives them back, and stops
/// behind them.
pub proof fn lemma_ids_roundtrip(ids: Seq<u64>, i: int, before: Seq<u8>, after: Seq<u8>)
    requires
        0 <= i <= ids.len(),
    ensures
        ids_at(
            before + ids_bytes(ids, ids.len() as int) + after,
            (before.len() + ids_bytes(ids, i).len()) as int,
            (ids.len() - i) as nat,
        ) == Some(
            (ids.skip(i), (before.len() + ids_bytes(ids, ids.len() as int).len()) as int),
        ),
    decreases ids.len() - i,
{
    let n = ids.len() as int;
    let all = ids_bytes(ids, n);
    let s = before + all + after;
    if i < n {
        lemma_ids_bytes_prefix(ids, i, n);
        lemma_ids_bytes_prefix(ids, i + 1, n);
        lemma_ids_roundtrip(ids, i + 1, before, after);
        let p = ids_bytes(ids, i);
        let u = uvarint_bytes(ids[i] as nat);
        let rest = all.skip((p.len() + u.len()) as int);
        assert(all =~= p + u + rest) by {
            assert(all.subrange(0, (p.len() + u.len()) as int) == ids_bytes(ids, i + 1));
            assert(ids_bytes(ids, i + 1) == p + u);
        }
        lemma_uvarint_roundtrip(ids[i], before + p, rest + after);
        assert(before + p + u + (rest + after) =~= s);
        assert(seq![ids[i]] + ids.skip(i + 1) =~= ids.skip(i));
    } else {
        assert(ids.skip(i) =~= Seq::<u64>::empty());
    }
}

/// The bytes of the first tables are the first bytes of the bytes of more
/// tables.
pub proof fn lemma_infos_bytes_prefix(ts: Seq<TableInfoView>, i: int, j: int)
    requires
        0 <= i <= j,
    ensures
        infos_bytes(ts, i).len() <= infos_bytes(ts, j).len(),
        infos_bytes(ts, j).subrange(0, infos_bytes(ts, i).len() as int) == infos_bytes(ts, i),
    decreases j - i,
{
    if i < j {
        lemma_infos_bytes_prefix(ts, i, j - 1);
        assert(infos_bytes(ts, j).subrange(0, infos_bytes(ts, i).len() as int) =~= infos_bytes(
            ts,
            j - 1,
        ).subrange(0, infos_bytes(ts, i).len() as int));
    } else {
        assert(infos_bytes(ts, j).subrange(0, infos_bytes(ts, i).len() as int) =~= infos_bytes(
            ts,
            i,
        ));
    }
}

/// The keys of the tables are short enough to be written.
pub open spec fn keys_fit(ts: Seq<TableInfoView>) -> bool {
    forall|i: int|
        0 <= i < ts.len() ==> (#[trigger] ts[i]).smallest_key.len() <= u64::MAX
            && ts[i].biggest_key.len() <= u64::MAX
}

/// Where the bytes of `s` from `pos` on start with what is recorded of the
/// table `t`, reading at `pos` gives `t` and stops behind those bytes.
pub proof fn lemma_table_info_in_place(s: Seq<u8>, pos: int, t: TableInfoView)
    requires
        0 <= pos,
        t.smallest_key.len() <= u64::MAX,
        t.biggest_key.len() <= u64::MAX,
        pos + table_info_bytes(t).len() <= s.len(),
        s.subrange(pos, pos + table_info_bytes(t).len()) == table_info_bytes(t),
    ensures
        table_info_scan(s, pos) == (Some(t), pos + table_info_bytes(t).len()),
{
    let end = pos + table_info_bytes(t).len();
    lemma_table_info_roundtrip(t, s.subrange(0, pos), s.subrange(end, s.len() as int));
    assert(s.subrange(0, pos) + table_info_bytes(t) + s.subrange(end, s.len() as int) =~= s);
}

/// Reading tables where they were written gives them back, and stops behind
/// them.
pub proof fn lemma_infos_roundtrip(ts: Seq<TableInfoView>, i: int, before: Seq<u8>, after: Seq<u8>)
    requires
        0 <= i <= ts.len(),
        keys_fit(ts),
    ensures
        infos_at(
            before + infos_bytes(ts, ts.len() as int) + after,
            (before.len() + infos_bytes(ts, i).len()) as int,
            (ts.len() - i) as nat,
        ) == Some((ts.skip(i), (before.len() + infos_bytes(ts, ts.len() as int).len()) as int)),
    decreases ts.len() - i,
{
    let n = ts.len() as int;
    let all = infos_bytes(ts, n);
    let s = before + all + after;
    if i < n {
        lemma_infos_bytes_prefix(ts, i, n);
        lemma_infos_bytes_prefix(ts, i + 1, n);
        lemma_infos_roundtrip(ts, i + 1, before, after);
        let p = infos_bytes(ts, i);
        let u = table_info_bytes(ts[i]);
        let pos = (before.len() + p.len()) as int;
        assert(infos_bytes(ts, i + 1) == p + u);
        let pu = all.subrange(0, (p.len() + u.len()) as int);
        assert(pu == p + u);
        assert(pu.subrange(p.len() as int, (p.len() + u.len()) as int) =~= u);
        assert(s.subrange(pos, pos + u.len()) =~= pu.subrange(
            p.len() as int,
            (p.len() + u.len()) as int,
        ));
        assert(ts[i].smallest_key.len() <= u64::MAX);
        lemma_table_info_in_place(s, pos, ts[i]);
        assert(seq![ts[i]] + ts.skip(i + 1) =~= ts.skip(i));
    } else {
        assert(ts.skip(i) =~= Seq::<TableInfoView>::empty());
    }
}

/// A change is small enough to be written: its counts and the lengths of its
/// keys and of its payload are numbers of 64 bits.
pub open spec fn entry_fits(e: EntryView) -> bool {
    &&& e.removals.len() <= u64::MAX
    &&& e.additions.len() <= u64::MAX
    &&& keys_fit(e.additions)
    &&& entry_payload(e).len() <= u64::MAX
}

/// Reading the payload of a change where it was written gives the change
/// back, and stops behind the payload.
pub proof fn lemma_payload_roundtrip(e: EntryView, before: Seq<u8>, after: Seq<u8>)
    requires
        entry_fits(e),
    ensures
        payload_at(before + entry_payload(e) + after, before.len() as int) == Some(
            (e, (before.len() + entry_payload(e).len()) as int),
        ),
{
    let a = uvarint_bytes(e.removals.len());
    let b = ids_bytes(e.removals, e.removals.len() as int);
    let c = uvarint_bytes(e.additions.len());
    let d = infos_bytes(e.additions, e.additions.len() as int);
    let s = before + entry_payload(e) + after;
    lemma_uvarint_roundtrip(e.removals.len() as u64, before, b + c + d + after);
    assert(before + a + (b + c + d + after) =~= s);
    lemma_ids_roundtrip(e.removals, 0, before + a, c + d + after);
    assert(before + a + b + (c + d + after) =~= s);
    assert(e.removals.skip(0) =~= e.removals);
    lemma_uvarint_roundtrip(e.additions.len() as u64, before + a + b, d + after);
    assert(before + a + b + c + (d + after) =~= s);
    lemma_infos_roundtrip(e.additions, 0, before + a + b + c, after);
    assert(before + a + b + c + d + after =~= s);
    assert(e.additions.skip(0) =~= e.additions);
    let at1 = uvarint_end(s, before.len() as int);
    assert(at1 == (before + a).len());
    let got_ids = ids_at(s, at1, e.removals.len());
    assert(got_ids == Some((e.removals, (before + a + b).len() as int)));
    let at2 = (before + a + b).len() as int;
    assert(uvarint_value(s, at2) == Some(e.additions.len() as u64));
    assert(uvarint_end(s, at2) == (before + a + b + c).len());
}

/// Round trip for the log: reading the record of a change where it was
/// written gives the change back, and stops behind the record.
pub proof fn lemma_entry_roundtrip(e: EntryView, before: Seq<u8>, after: Seq<u8>)
    requires
        entry_fits(e),
    ensures
        entry_at(before + entry_record(e) + after, before.len() as int) == Some(
            (e, (before.len() + entry_record(e).len()) as int),
        ),
        entry_record(e).len() == 12 + entry_payload(e).len(),
{
    vstd::bytes::lemma_auto_spec_u64_to_from_le_bytes();
    vstd::bytes::lemma_auto_spec_u32_to_from_le_bytes();
    let payload = entry_payload(e);
    let l = vstd::bytes::spec_u64_to_le_bytes(payload.len() as u64);
    let c = vstd::bytes::spec_u32_to_le_bytes(crc32c(payload));
    let s = before + entry_record(e) + after;
    let pos = before.len() as int;
    assert(s.subrange(pos, pos + 8) =~= l);
    assert(s.subrange(pos + 8, pos + 12) =~= c);
    assert(s.subrange(pos + 12, pos + 12 + payload.len()) =~= payload);
    lemma_payload_roundtrip(e, before + l + c, after);
    assert(before + l + c + payload + after =~= s);
}

/// The records of the first `i` changes, one after the other.
pub open spec fn log_upto(es: Seq<EntryView>, i: int) -> Seq<u8>
    decreases i,
{
    if i <= 0 {
        Seq::empty()
    } else {
        log_upto(es, i - 1) + entry_record(es[i - 1])
    }
}

/// The log that holds the records of the changes `es`.
pub open spec fn log_of(es: Seq<EntryView>) -> Seq<u8> {
    log_upto(es, es.len() as int)
}

/// The table of contents `toc` after the first `i` changes, if each of them
/// can be applied when its turn comes.
pub open spec fn apply_upto(toc: TocView, es: Seq<EntryView>, i: int) -> Option<TocView>
    decreases i,
{
    if i <= 0 {
        Some(toc)
    } else {
        match apply_upto(toc, es, i - 1) {
            Some(t) => t.after(es[i - 1]),
            None => None,
        }
    }
}

/// Each of the changes is small enough to be written.
pub open spec fn all_fit(es: Seq<EntryView>) -> bool {
    forall|i: int| 0 <= i < es.len() ==> entry_fits(#[trigger] es[i])
}

/// The records of the first changes are the first bytes of the log.
pub proof fn lemma_log_prefix(es: Seq<EntryView>, i: int, j: int)
    requires
        0 <= i <= j,
    ensures
        log_upto(es, i).len() <= log_upto(es, j).len(),
        log_upto(es, j).subrange(0, log_upto(es, i).len() as int) == log_upto(es, i),
    decreases j - i,
{
    if i < j {
        lemma_log_prefix(es, i, j - 1);
        assert(log_upto(es, j).subrange(0, log_upto(es, i).len() as int) =~= log_upto(
            es,
            j - 1,
        ).subrange(0, log_upto(es, i).len() as int));
    } else {
        assert(log_upto(es, j).subrange(0, log_upto(es, i).len() as int) =~= log_upto(es, i));
    }
}

/// Where the bytes of `s` from `pos` on start with the record of the change
/// `e`, reading at `pos` gives `e` and stops behind the record.
pub proof fn lemma_entry_in_place(s: Seq<u8>, pos: int, e: EntryView)
    requires
        0 <= pos,
        entry_fits(e),
        pos + entry_record(e).len() <= s.len(),
        s.subrange(pos, pos + entry_record(e).len()) == entry_record(e),
    ensures
        entry_at(s, pos) == Some((e, pos + entry_record(e).len())),
        entry_record(e).len() >= 12,
{
    let end = pos + entry_record(e).len();
    lemma_entry_roundtrip(e, s.subrange(0, pos), s.subrange(end, s.len() as int));
    assert(s.subrange(0, pos) + entry_record(e) + s.subrange(end, s.len() as int) =~= s);
}

/// Reading a log of records that can be applied one after the other, with
/// whatever stands behind them, comes to the end of the records with the
/// table of contents that the changes give, and goes on from there.
pub proof fn lemma_replay_records(toc: TocView, es: Seq<EntryView>, i: int, tail: Seq<u8>)
    requires
        0 <= i <= es.len(),
        all_fit(es),
        apply_upto(toc, es, es.len() as int) is Some,
    ensures
        apply_upto(toc, es, i) is Some,
        replay(log_of(es) + tail, log_upto(es, i).len() as int, apply_upto(toc, es, i)->Some_0)
            == replay(
            log_of(es) + tail,
            log_of(es).len() as int,
            apply_upto(toc, es, es.len() as int)->Some_0,
        ),
    decreases es.len() - i,
{
    let n = es.len() as int;
    lemma_apply_prefix(toc, es, i, n);
    if i < n {
        lemma_replay_records(toc, es, i + 1, tail);
        lemma_log_prefix(es, i, n);
        lemma_log_prefix(es, i + 1, n);
        let s = log_of(es) + tail;
        let pos = log_upto(es, i).len() as int;
        let r = entry_record(es[i]);
        let pr = log_upto(es, n).subrange(0, (pos + r.len()) as int);
        assert(pr == log_upto(es, i) + r);
        assert(pr.subrange(pos, pos + r.len()) =~= r);
        assert(s.subrange(pos, pos + r.len()) =~= pr.subrange(pos, pos + r.len()));
        lemma_entry_in_place(s, pos, es[i]);
    }
}

/// Changes that can all be applied can be applied as far as any of them.
pub proof fn lemma_apply_prefix(toc: TocView, es: Seq<EntryView>, i: int, j: int)
    requires
        0 <= i <= j,
        apply_upto(toc, es, j) is Some,
    ensures
        apply_upto(toc, es, i) is Some,
    decreases j - i,
{
    if i < j {
        lemma_apply_prefix(toc, es, i, j - 1);
    }
}

/// The state after the changes `es`, one after the other, that a log of
/// exactly their records gives when it is read.
pub proof fn lemma_replay_log(toc: TocView, es: Seq<EntryView>)
    requires
        all_fit(es),
        apply_upto(toc, es, es.len() as int) is Some,
    ensures
        replay(log_of(es), 0, toc) == (Replay {
            toc: apply_upto(toc, es, es.len() as int)->Some_0,
            end: log_of(es).len() as int,
            invalid: false,
        }),
{
    lemma_replay_records(toc, es, 0, Seq::empty());
    assert(log_of(es) + Seq::<u8>::empty() =~= log_of(es));
}

/// Tail recovery: where a log ends in the first bytes of a record, but not
/// in all of them, reading the log gives what the records before give, and
/// stops where the torn record starts.
pub proof fn lemma_torn_tail(toc: TocView, es: Seq<EntryView>, torn: EntryView, cut: int)
    requires
        all_fit(es),
        apply_upto(toc, es, es.len() as int) is Some,
        entry_fits(torn),
        0 <= cut < entry_record(torn).len(),
    ensures
        replay(log_of(es) + entry_record(torn).take(cut), 0, toc) == (Replay {
            toc: apply_upto(toc, es, es.len() as int)->Some_0,
            end: log_of(es).len() as int,
            invalid: false,
        }),
{
    let part = entry_record(torn).take(cut);
    let s = log_of(es) + part;
    let pos = log_of(es).len() as int;
    lemma_replay_records(toc, es, 0, part);
    vstd::bytes::lemma_auto_spec_u64_to_from_le_bytes();
    vstd::bytes::lemma_auto_spec_u32_to_from_le_bytes();
    lemma_entry_roundtrip(torn, Seq::empty(), Seq::empty());
    if cut >= 12 {
        let l = vstd::bytes::spec_u64_to_le_bytes(entry_payload(torn).len() as u64);
        assert(s.subrange(pos, pos + 8) =~= l);
        assert(entry_at(s, pos) is None);
    } else {
        assert(entry_at(s, pos) is None);
    }
}

/// Checksum rejection: where behind sound records stands a record whose
/// stored checksum is not the checksum of its payload, reading the log gives
/// what the records before give, and stops where that record starts: the
/// record and all that follows it are left out.
pub proof fn lemma_checksum_mismatch(
    toc: TocView,
    es: Seq<EntryView>,
    payload: Seq<u8>,
    stored: u32,
    rest: Seq<u8>,
)
    requires
        all_fit(es),
        apply_upto(toc, es, es.len() as int) is Some,
        payload.len() <= u64::MAX,
        stored != crc32c(payload),
    ensures
        replay(
            log_of(es) + (vstd::bytes::spec_u64_to_le_bytes(payload.len() as u64)
                + vstd::bytes::spec_u32_to_le_bytes(stored) + payload) + rest,
            0,
            toc,
        ) == (Replay {
            toc: apply_upto(toc, es, es.len() as int)->Some_0,
            end: log_of(es).len() as int,
            invalid: false,
        }),
{
    let l = vstd::bytes::spec_u64_to_le_bytes(payload.len() as u64);
    let c = vstd::bytes::spec_u32_to_le_bytes(stored);
    let bad = l + c + payload;
    let tail = bad + rest;
    let s = log_of(es) + tail;
    let pos = log_of(es).len() as int;
    lemma_replay_records(toc, es, 0, tail);
    assert(log_of(es) + bad + rest =~= s);
    vstd::bytes::lemma_auto_spec_u64_to_from_le_bytes();
    vstd::bytes::lemma_auto_spec_u32_to_from_le_bytes();
    assert(s.subrange(pos, pos + 8) =~= l);
    assert(s.subrange(pos + 8, pos + 12) =~= c);
    assert(s.subrange(pos + 12, pos + 12 + payload.len()) =~= payload);
}

/// Two tables of contents hold the same tables at the same levels, and the
/// first gives no later numbers than the second.
pub open spec fn same_tables(a: TocView, b: TocView) -> bool {
    &&& a.tables == b.tables
    &&& a.levels == b.levels
    &&& a.next_table_id <= b.next_table_id
}

/// The log holds the records of changes that lead from the empty table of
/// contents to the tables of `toc`, and nothing else.
pub open spec fn log_records(log: Seq<u8>, toc: TocView) -> bool {
    exists|es: Seq<EntryView>|
        all_fit(es) && #[trigger] log_of(es) == log && apply_upto(
            empty_toc(),
            es,
            es.len() as int,
        ) is Some && same_tables(apply_upto(empty_toc(), es, es.len() as int)->Some_0, toc)
}

/// A log of records is read to its end, and gives the tables to which its
/// changes lead.
pub proof fn lemma_log_records_replay(log: Seq<u8>, toc: TocView)
    requires
        log_records(log, toc),
    ensures
        !replay(log, 0, empty_toc()).invalid,
        replay(log, 0, empty_toc()).end == log.len(),
        same_tables(replay(log, 0, empty_toc()).toc, toc),
{
    let es = choose|es: Seq<EntryView>|
        all_fit(es) && #[trigger] log_of(es) == log && apply_upto(
            empty_toc(),
            es,
            es.len() as int,
        ) is Some && same_tables(apply_upto(empty_toc(), es, es.len() as int)->Some_0, toc);
    lemma_replay_log(empty_toc(), es);
}

proof fn lemma_remove_from_same(a: TocView, b: TocView, ids: Seq<u64>, i: int)
    requires
        same_tables(a, b),
        0 <= i <= ids.len(),
        b.remove_from(ids, i) is Some,
    ensures
        a.remove_from(ids, i) is Some,
        same_tables(a.remove_from(ids, i)->Some_0, b.remove_from(ids, i)->Some_0),
    decreases ids.len() - i,
{
    if i < ids.len() {
        lemma_remove_from_same(a.without(ids[i]), b.without(ids[i]), ids, i + 1);
    }
}

proof fn lemma_add_from_same(a: TocView, b: TocView, ts: Seq<TableInfoView>, i: int)
    requires
        same_tables(a, b),
        0 <= i <= ts.len(),
        b.add_from(ts, i) is Some,
    ensures
        a.add_from(ts, i) is Some,
        same_tables(a.add_from(ts, i)->Some_0, b.add_from(ts, i)->Some_0),
    decreases ts.len() - i,
{
    if i < ts.len() {
        lemma_add_from_same(a.with(ts[i]), b.with(ts[i]), ts, i + 1);
    }
}

/// A log of records with the record of one more change that can be applied
/// is a log of records.
pub proof fn lemma_log_records_append(log: Seq<u8>, toc: TocView, e: EntryView)
    requires
        log_records(log, toc),
        entry_fits(e),
        toc.after(e) is Some,
    ensures
        log_records(log + entry_record(e), toc.after(e)->Some_0),
{
    let es = choose|es: Seq<EntryView>|
        all_fit(es) && #[trigger] log_of(es) == log && apply_upto(
            empty_toc(),
            es,
            es.len() as int,
        ) is Some && same_tables(apply_upto(empty_toc(), es, es.len() as int)->Some_0, toc);
    let t = apply_upto(empty_toc(), es, es.len() as int)->Some_0;
    let es2 = es.push(e);
    lemma_log_push(es, e, es.len() as int);
    lemma_apply_push(empty_toc(), es, e, es.len() as int);
    lemma_remove_from_same(t, toc, e.removals, 0);
    lemma_add_from_same(
        t.remove_from(e.removals, 0)->Some_0,
        toc.remove_from(e.removals, 0)->Some_0,
        e.additions,
        0,
    );
    assert(log_of(es2) == log + entry_record(e));
    assert(apply_upto(empty_toc(), es2, es2.len() as int) == t.after(e));
}

/// A log of records is a log of records of the tables that reading it
/// gives.
pub proof fn lemma_log_records_at(log: Seq<u8>, toc: TocView)
    requires
        log_records(log, toc),
    ensures
        log_records(log, replay(log, 0, empty_toc()).toc),
{
    let es = choose|es: Seq<EntryView>|
        all_fit(es) && #[trigger] log_of(es) == log && apply_upto(
            empty_toc(),
            es,
            es.len() as int,
        ) is Some && same_tables(apply_upto(empty_toc(), es, es.len() as int)->Some_0, toc);
    lemma_replay_log(empty_toc(), es);
    assert(log_of(es) == log);
}

/// A log of records stays one where the next number goes up.
pub proof fn lemma_log_records_later(log: Seq<u8>, a: TocView, b: TocView)
    requires
        log_records(log, a),
        same_tables(a, b),
    ensures
        log_records(log, b),
{
    let es = choose|es: Seq<EntryView>|
        all_fit(es) && #[trigger] log_of(es) == log && apply_upto(
            empty_toc(),
            es,
            es.len() as int,
        ) is Some && same_tables(apply_upto(empty_toc(), es, es.len() as int)->Some_0, a);
    assert(log_of(es) == log);
}

/// The empty log is the log of the empty table of contents.
pub proof fn lemma_log_records_empty()
    ensures
        log_records(Seq::empty(), empty_toc()),
{
    let es = Seq::<EntryView>::empty();
    assert(log_of(es) == Seq::<u8>::empty());
}

proof fn lemma_log_push(es: Seq<EntryView>, e: EntryView, i: int)
    requires
        0 <= i <= es.len(),
    ensures
        log_upto(es.push(e), i) == log_upto(es, i),
    decreases i,
{
    if i > 0 {
        lemma_log_push(es, e, i - 1);
    }
}

proof fn lemma_apply_push(toc: TocView, es: Seq<EntryView>, e: EntryView, i: int)
    requires
        0 <= i <= es.len(),
    ensures
        apply_upto(toc, es.push(e), i) == apply_upto(toc, es, i),
    decreases i,
{
    if i > 0 {
        lemma_apply_push(toc, es, e, i - 1);
    }
}

/// What taking tables out gives, where the tables are there and each is
/// taken out once: the other tables, at the same levels.
pub proof fn lemma_remove_all(t: TocView, ids: Seq<u64>, i: int)
    requires
        0 <= i <= ids.len(),
        ids.no_duplicates(),
        forall|j: int| i <= j < ids.len() ==> t.tables.contains_key(#[trigger] ids[j]),
    ensures
        t.remove_from(ids, i) is Some,
        t.remove_from(ids, i)->Some_0.levels == t.levels,
        t.remove_from(ids, i)->Some_0.next_table_id == t.next_table_id,
        forall|id: u64|
            #[trigger] t.remove_from(ids, i)->Some_0.tables.contains_key(id) <==> (
            t.tables.contains_key(id) && !(exists|j: int| i <= j < ids.len() && ids[j] == id)),
        forall|id: u64|
            t.remove_from(ids, i)->Some_0.tables.contains_key(id) ==> #[trigger] t.remove_from(
                ids,
                i,
            )->Some_0.tables[id] == t.tables[id],
    decreases ids.len() - i,
{
    if i < ids.len() {
        let t1 = t.without(ids[i]);
        assert forall|j: int| i + 1 <= j < ids.len() implies t1.tables.contains_key(
            #[trigger] ids[j],
        ) by {
            assert(ids[j] != ids[i]);
        }
        lemma_remove_all(t1, ids, i + 1);
        let r = t.remove_from(ids, i)->Some_0;
        assert forall|id: u64| #[trigger]
            r.tables.contains_key(id) <==> (t.tables.contains_key(id) && !(exists|j: int|
                i <= j < ids.len() && ids[j] == id)) by {
            if r.tables.contains_key(id) {
                assert(t1.tables.contains_key(id));
                if exists|j: int| i <= j < ids.len() && ids[j] == id {
                    let j = choose|j: int| i <= j < ids.len() && ids[j] == id;
                    assert(j != i);
                    assert(i + 1 <= j < ids.len() && ids[j] == id);
                }
            } else if t.tables.contains_key(id) && !(exists|j: int|
                i <= j < ids.len() && ids[j] == id) {
                assert(id != ids[i]);
                assert(t1.tables.contains_key(id));
            }
        }
    }
}

/// What putting tables in gives, where their numbers are free, differ from
/// one another, and are not the largest there is: the tables that were
/// there, and those.
pub proof fn lemma_add_all(t: TocView, ts: Seq<TableInfoView>, i: int)
    requires
        0 <= i <= ts.len(),
        forall|j: int|
            i <= j < ts.len() ==> !t.tables.contains_key((#[trigger] ts[j]).id) && ts[j].id
                < u64::MAX,
        forall|j: int, k: int| i <= j < k < ts.len() ==> ts[j].id != ts[k].id,
    ensures
        t.add_from(ts, i) is Some,
        t.add_from(ts, i)->Some_0.next_table_id >= t.next_table_id,
        (forall|j: int| i <= j < ts.len() ==> (#[trigger] ts[j]).id < t.next_table_id)
            ==> t.add_from(ts, i)->Some_0.next_table_id == t.next_table_id,
        forall|l: u64|
            #[trigger] t.add_from(ts, i)->Some_0.levels.contains(l) <==> (t.levels.contains(l)
                || exists|j: int| i <= j < ts.len() && ts[j].level == l),
        forall|id: u64|
            #[trigger] t.add_from(ts, i)->Some_0.tables.contains_key(id) <==> (
            t.tables.contains_key(id) || exists|j: int| i <= j < ts.len() && ts[j].id == id),
        forall|id: u64|
            t.tables.contains_key(id) ==> #[trigger] t.add_from(ts, i)->Some_0.tables[id]
                == t.tables[id],
        forall|j: int|
            i <= j < ts.len() ==> t.add_from(ts, i)->Some_0.tables[(#[trigger] ts[j]).id] == ts[j],
    decreases ts.len() - i,
{
    if i < ts.len() {
        let t1 = t.with(ts[i]);
        assert forall|j: int| i + 1 <= j < ts.len() implies !t1.tables.contains_key(
            (#[trigger] ts[j]).id,
        ) && ts[j].id < u64::MAX by {
            assert(ts[i].id != ts[j].id);
        }
        lemma_add_all(t1, ts, i + 1);
        let r = t.add_from(ts, i)->Some_0;
        assert forall|l: u64| #[trigger]
            r.levels.contains(l) <==> (t.levels.contains(l) || exists|j: int|
                i <= j < ts.len() && ts[j].level == l) by {
            if r.levels.contains(l) {
                if !t1.levels.contains(l) {
                    let j = choose|j: int| i + 1 <= j < ts.len() && ts[j].level == l;
                    assert(i <= j < ts.len() && ts[j].level == l);
                } else if !t.levels.contains(l) {
                    assert(ts[i].level == l);
                }
            } else {
                if exists|j: int| i <= j < ts.len() && ts[j].level == l {
                    let j = choose|j: int| i <= j < ts.len() && ts[j].level == l;
                    if j == i {
                        assert(t1.levels.contains(l));
                    } else {
                        assert(i + 1 <= j < ts.len() && ts[j].level == l);
                    }
                }
                if t.levels.contains(l) {
                    assert(t1.levels.contains(l));
                }
            }
        }
        assert forall|id: u64| #[trigger]
            r.tables.contains_key(id) <==> (t.tables.contains_key(id) || exists|j: int|
                i <= j < ts.len() && ts[j].id == id) by {
            if r.tables.contains_key(id) {
                if !t1.tables.contains_key(id) {
                    let j = choose|j: int| i + 1 <= j < ts.len() && ts[j].id == id;
                    assert(i <= j < ts.len() && ts[j].id == id);
                } else if !t.tables.contains_key(id) {
                    assert(ts[i].id == id);
                }
            } else {
                if exists|j: int| i <= j < ts.len() && ts[j].id == id {
                    let j = choose|j: int| i <= j < ts.len() && ts[j].id == id;
                    if j == i {
                        assert(t1.tables.contains_key(id));
                    } else {
                        assert(i + 1 <= j < ts.len() && ts[j].id == id);
                    }
                }
                if t.tables.contains_key(id) {
                    assert(t1.tables.contains_key(id));
                }
            }
        }
        assert forall|id: u64| t.tables.contains_key(id) implies #[trigger] r.tables[id]
            == t.tables[id] by {
            assert(t1.tables.contains_key(id));
            assert(id != ts[i].id);
        }
        assert forall|j: int| i <= j < ts.len() implies r.tables[(#[trigger] ts[j]).id]
            == ts[j] by {
            if j == i {
                assert(t1.tables.contains_key(ts[i].id));
                assert(r.tables[ts[i].id] == t1.tables[ts[i].id]);
            }
        }
    }
}

/// Of tables of which the table of contents holds none, all are gone.
pub proof fn lemma_gone_all(toc: TocView, ids: Seq<u64>, i: int)
    requires
        0 <= i <= ids.len(),
        forall|j: int| 0 <= j < ids.len() ==> !toc.tables.contains_key(#[trigger] ids[j]),
    ensures
        gone_upto(toc, ids, i) == ids.take(i),
    decreases i,
{
    if i > 0 {
        lemma_gone_all(toc, ids, i - 1);
        assert(!toc.tables.contains_key(ids[i - 1]));
        assert(ids.take(i - 1).push(ids[i - 1]) =~= ids.take(i));
    } else {
        assert(ids.take(0) =~= Seq::<u64>::empty());
    }
}

} // verus!

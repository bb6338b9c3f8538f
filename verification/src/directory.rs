//! The files of a store as values: the log of the table of contents, and
//! the table files by their numbers. The store reads and writes these; the
//! program around it carries them to and from a file system.

use vstd::prelude::*;
use std::collections::HashMap;
use crate::error::{Error, mk_err};
use crate::util::{TableId, copy_bytes};

verus! {

/// The files of a store.
pub struct Directory {
    /// The bytes of the log of the table of contents.
    pub toc: Vec<u8>,
    /// The bytes of the table files, by the numbers of the tables.
    pub tables: HashMap<u64, Vec<u8>>,
}

/// The files of a store, as a mathematical value.
pub struct DirectoryView {
    pub toc: Seq<u8>,
    pub tables: Map<u64, Seq<u8>>,
}

impl View for Directory {
    type V = DirectoryView;

    open spec fn view(&self) -> DirectoryView {
        DirectoryView { toc: self.toc@, tables: self.tables@.map_values(|b: Vec<u8>| b@) }
    }
}

impl Directory {
    /// A directory with an empty log and without table files.
    pub fn new() -> (r: Directory)
        ensures
            r@.toc == Seq::<u8>::empty(),
            r@.tables == Map::<u64, Seq<u8>>::empty(),
    {
        let r = Directory { toc: Vec::new(), tables: HashMap::new() };
        assert(r@.tables =~= Map::<u64, Seq<u8>>::empty());
        r
    }

    /// The bytes of the file of table `id`, if there is one.
    pub fn table(&self, id: TableId) -> (r: Option<&[u8]>)
        ensures
            match r {
                Some(b) => self@.tables.contains_key(id.0) && self@.tables[id.0] == b@
                    && b@.len() <= usize::MAX,
                None => !self@.tables.contains_key(id.0),
            },
    {
        match self.tables.get(&id.0) {
            Some(b) => {
                let n: usize = b.len();
                Some(b.as_slice())
            },
            None => None,
        }
    }

    /// The length of the file of table `id`, if there is one.
    pub fn table_size(&self, id: TableId) -> (r: Option<u64>)
        ensures
            match r {
                Some(n) => self@.tables.contains_key(id.0) && self@.tables[id.0].len() == n,
                None => !self@.tables.contains_key(id.0),
            },
    {
        match self.tables.get(&id.0) {
            Some(b) => Some(b.len() as u64),
            None => None,
        }
    }

    /// Writes the file of table `id`, in place of one that was there.
    pub fn create_table(&mut self, id: TableId, bytes: Vec<u8>)
        ensures
            final(self)@.toc == old(self)@.toc,
            final(self)@.tables == old(self)@.tables.insert(id.0, bytes@),
    {
        self.tables.insert(id.0, bytes);
        assert(self@.tables =~= old(self)@.tables.insert(id.0, bytes@));
    }

    /// Removes the file of table `id`. Says whether there was one.
    pub fn remove_table(&mut self, id: TableId) -> (r: bool)
        ensures
            r == old(self)@.tables.contains_key(id.0),
            final(self)@.toc == old(self)@.toc,
            final(self)@.tables == old(self)@.tables.remove(id.0),
    {
        let r = self.tables.remove(&id.0).is_some();
        assert(self@.tables =~= old(self)@.tables.remove(id.0));
        r
    }

    /// Appends `data` to the log.
    pub fn append_toc(&mut self, data: &[u8])
        ensures
            final(self)@.toc == old(self)@.toc + data@,
            final(self)@.tables == old(self)@.tables,
    {
        self.toc.extend_from_slice(data);
    }

    /// Cuts the log to its first `len` bytes. A log that has no more is left
    /// as it is.
    pub fn truncate_toc(&mut self, len: usize)
        ensures
            final(self)@.toc == (if len <= old(self)@.toc.len() {
                old(self)@.toc.take(len as int)
            } else {
                old(self)@.toc
            }),
            final(self)@.tables == old(self)@.tables,
    {
        self.toc.truncate(len);
        assert(self@.toc =~= (if len <= old(self)@.toc.len() {
            old(self)@.toc.take(len as int)
        } else {
            old(self)@.toc
        }));
    }
}

/// The `length` bytes of `file` from `offset` on, if the file has them.
pub open spec fn file_range(file: Seq<u8>, offset: u64, length: usize) -> Option<Seq<u8>> {
    if offset + length <= file.len() {
        Some(file.subrange(offset as int, offset + length))
    } else {
        None
    }
}

/// Reads exactly `length` bytes of `file` from `offset` on. Fails when the
/// file ends before.
pub fn read_exact(file: &[u8], offset: u64, length: usize) -> (r: Result<Vec<u8>, Error>)
    ensures
        match r {
            Ok(b) => file_range(file@, offset, length) == Some(b@),
            Err(e) => file_range(file@, offset, length) is None,
        },
{
    if offset > file.len() as u64 || length > file.len() - offset as usize {
        return mk_err("failed to fill whole buffer");
    }
    let from: usize = offset as usize;
    Ok(copy_bytes(vstd::slice::slice_subrange(file, from, from + length)))
}

} // verus!

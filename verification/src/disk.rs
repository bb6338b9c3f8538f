//! The table file: an immutable sorted run of keys with their mutations.
//!
//! A table file holds the encoded mutations, then the key entries, then the
//! offset of the key entries as a fixed 64-bit integer. A key entry gives the
//! length of the entry before it, where the key's mutation starts and how long
//! it is, and the key. Behind the last key entry stand the length of that
//! entry and, in one byte, how many bytes that length took, so that the
//! entries can be walked from the back.

use vstd::prelude::*;
use std::rc::Rc;
use owning_ref::RcRef;
use crate::directory::{Directory, DirectoryView, read_exact, file_range};
use crate::error::{Error, mk_err};
use std::collections::Bound;
use crate::iter::{Direction, MutationIterator};
use crate::model::{sorted, find, has_key, lemma_find_at, lower_index, upper_index, range_end,
    range_entries, lemma_bound_indices};
use crate::util::{Interval, under_upper, over_lower, above_lower_bound, below_upper_bound};
use crate::memstore::MemStore;
use crate::toc::{TableInfo, TableInfoView};
use crate::util::TableId;
use crate::util::{KeyOrder, key_order, lex_lt, lemma_lex_trichotomy, lemma_lex_transitive};
use crate::encoding::{encode_str, decode_str, encode_uvarint, decode_uvarint, encode_u64,
    str_bytes, str_at, str_end, uvarint_bytes, uvarint_value, uvarint_end, lemma_str_roundtrip,
    lemma_uvarint_roundtrip, try_into_size, observe_str, scan_uvarint, pow128,
    lemma_pow128_values};
use crate::util::{Mutation, MutationView, Item, Buf, copy_bytes};
use crate::encoding::lemma_scan_uvarint_bounds;

verus! {

/// The number of bytes behind the key entries of a table file.
pub const TAB_BACK_PADDING: usize = 8;

/// The bytes of a mutation: a tag, and for a value its length-prefixed bytes.
pub open spec fn mutation_bytes(m: MutationView) -> Seq<u8> {
    match m {
        MutationView::Put(v) => seq![0u8] + str_bytes(v),
        MutationView::Delete => seq![1u8],
    }
}

/// The mutation that starts at `pos` in `s`, if a whole one is there.
pub open spec fn mutation_at(s: Seq<u8>, pos: int) -> Option<MutationView> {
    if 0 <= pos < s.len() {
        if s[pos] == 0 {
            match str_at(s, pos + 1) {
                Some(v) => Some(MutationView::Put(v)),
                None => None,
            }
        } else if s[pos] == 1 {
            Some(MutationView::Delete)
        } else {
            None
        }
    } else {
        None
    }
}

/// The position at which decoding a mutation from `pos` in `s` stops.
pub open spec fn mutation_end(s: Seq<u8>, pos: int) -> int {
    if 0 <= pos < s.len() {
        if s[pos] == 0 {
            str_end(s, pos + 1)
        } else {
            pos + 1
        }
    } else {
        pos
    }
}

/// Appends the bytes of `m` to `v`.
pub fn encode_mutation(v: &mut Vec<u8>, m: &Mutation)
    ensures
        final(v)@ == old(v)@ + mutation_bytes(m@),
{
    match m {
        Mutation::Put(s) => {
            v.push(0);
            encode_str(v, s.as_slice());
            assert(v@ =~= old(v)@ + mutation_bytes(m@));
        },
        Mutation::Delete => {
            v.push(1);
            assert(v@ =~= old(v)@ + mutation_bytes(m@));
        },
    }
}

/// Decodes the mutation at `*pos` and moves `*pos` behind it. Fails at the
/// end of the buffer, on a tag other than 0 and 1, and on a value that does
/// not decode.
pub fn decode_mutation(v: &[u8], pos: &mut usize) -> (r: Option<Mutation>)
    ensures
        match r {
            Some(m) => mutation_at(v@, *old(pos) as int) == Some(m@),
            None => mutation_at(v@, *old(pos) as int) is None,
        },
        *final(pos) as int == mutation_end(v@, *old(pos) as int),
{
    if *pos >= v.len() {
        return None;
    }
    let b: u8 = v[*pos];
    *pos += 1;
    if b == 0 {
        match decode_str(v, pos) {
            Some(s) => Some(Mutation::Put(s)),
            None => None,
        }
    } else if b == 1 {
        Some(Mutation::Delete)
    } else {
        None
    }
}

/// Round trip: the bytes of a mutation decode to the mutation, and decoding
/// stops behind them.
pub proof fn lemma_mutation_roundtrip(m: MutationView, before: Seq<u8>, after: Seq<u8>)
    requires
        m matches MutationView::Put(v) ==> v.len() <= u64::MAX,
    ensures
        mutation_at(before + mutation_bytes(m) + after, before.len() as int) == Some(m),
        mutation_end(before + mutation_bytes(m) + after, before.len() as int) == before.len()
            + mutation_bytes(m).len(),
{
    let s = before + mutation_bytes(m) + after;
    match m {
        MutationView::Put(v) => {
            lemma_str_roundtrip(v, before.push(0u8), after);
            assert(before.push(0u8) + str_bytes(v) + after =~= s);
        },
        MutationView::Delete => {
            assert(s[before.len() as int] == 1u8);
        },
    }
}

/// The share of a key in the space that an entry takes, in a table file or
/// in memory: its bytes and six more, on machine words.
pub open spec fn key_usage(key: Seq<u8>) -> usize {
    6usize.wrapping_add(key.len() as usize)
}

/// The share of a mutation in the space that an entry takes: one byte for a
/// tombstone, its bytes and two more for a value, on machine words.
pub open spec fn value_usage(m: MutationView) -> usize {
    match m {
        MutationView::Put(v) => 2usize.wrapping_add(v.len() as usize),
        MutationView::Delete => 1,
    }
}

/// An estimate of the bytes that a key takes in a table file.
pub fn approx_key_usage(key: &[u8]) -> (r: usize)
    ensures
        r == key_usage(key@),
{
    6usize.wrapping_add(key.len())
}

fn set_value_usage(val: &[u8]) -> (r: usize)
    ensures
        r == 2usize.wrapping_add(val@.len() as usize),
{
    2usize.wrapping_add(val.len())
}

/// An estimate of the bytes that a mutation takes in a table file.
pub fn approx_value_usage(val: &Mutation) -> (r: usize)
    ensures
        r == value_usage(val@),
{
    match val {
        Mutation::Put(x) => set_value_usage(x.as_slice()),
        Mutation::Delete => 1,
    }
}

/// The values area of a table that holds `es`, as far as its first `i`
/// mutations: their bytes one after the other.
pub open spec fn values_area(es: Seq<Item>, i: int) -> Seq<u8>
    decreases i,
{
    if i <= 0 {
        Seq::empty()
    } else {
        values_area(es, i - 1) + mutation_bytes(es[i - 1].1)
    }
}

/// The bytes of a key entry.
pub open spec fn key_entry_bytes(prev_len: nat, value_offset: nat, value_len: nat, key: Seq<u8>) -> Seq<
    u8,
> {
    uvarint_bytes(prev_len) + uvarint_bytes(value_offset) + uvarint_bytes(value_len) + str_bytes(
        key,
    )
}

/// The key entry of entry `i` in a table that holds `es`.
pub open spec fn key_entry(es: Seq<Item>, i: int) -> Seq<u8>
    decreases i,
{
    key_entry_bytes(
        if i <= 0 {
            0
        } else {
            key_entry(es, i - 1).len()
        },
        values_area(es, i).len(),
        mutation_bytes(es[i].1).len(),
        es[i].0,
    )
}

/// The length of the key entry before entry `i`: 0 before the first.
pub open spec fn prev_len(es: Seq<Item>, i: int) -> nat {
    if i <= 0 {
        0
    } else {
        key_entry(es, i - 1).len()
    }
}

/// The first `i` key entries of a table that holds `es`.
pub open spec fn keys_prefix(es: Seq<Item>, i: int) -> Seq<u8>
    decreases i,
{
    if i <= 0 {
        Seq::empty()
    } else {
        keys_prefix(es, i - 1) + key_entry(es, i - 1)
    }
}

/// What stands behind the last key entry: its length, and the number of
/// bytes of that length.
pub open spec fn keys_tail(es: Seq<Item>) -> Seq<u8> {
    let l = uvarint_bytes(prev_len(es, es.len() as int));
    l.push(l.len() as u8)
}

/// The keys area of a table that holds `es`.
#[verifier::opaque]
pub open spec fn keys_block(es: Seq<Item>) -> Seq<u8> {
    keys_prefix(es, es.len() as int) + keys_tail(es)
}

/// The table file that holds `es`.
pub open spec fn table_image(es: Seq<Item>) -> Seq<u8> {
    values_area(es, es.len() as int) + keys_block(es) + vstd::bytes::spec_u64_to_le_bytes(
        values_area(es, es.len() as int).len() as u64,
    )
}

/// The table file that holds `es` has a length that a 64-bit integer holds.
#[verifier::opaque]
pub open spec fn fits(es: Seq<Item>) -> bool {
    values_area(es, es.len() as int).len() + keys_block(es).len() + 8 <= u64::MAX
}

/// Where key entry `i` starts in the keys area.
pub open spec fn key_offset(es: Seq<Item>, i: int) -> int {
    keys_prefix(es, i).len() as int
}

/// Where the mutation of entry `i` starts in the values area.
pub open spec fn value_offset(es: Seq<Item>, i: int) -> int {
    values_area(es, i).len() as int
}

/// What a key entry says, and where it ends.
pub struct KeyEntryView {
    pub key: Seq<u8>,
    pub value_offset: u64,
    pub value_length: u64,
    pub end: int,
}

/// The key entry that starts at `pos` in the keys area `kb`, if a whole one
/// is there.
#[verifier::opaque]
pub open spec fn key_entry_at(kb: Seq<u8>, pos: int) -> Option<KeyEntryView> {
    let at1 = uvarint_end(kb, pos);
    let at2 = uvarint_end(kb, at1);
    let at3 = uvarint_end(kb, at2);
    if uvarint_value(kb, pos) is Some && uvarint_value(kb, at1) is Some && uvarint_value(kb, at2)
        is Some && str_at(kb, at3) is Some {
        Some(
            KeyEntryView {
                key: str_at(kb, at3)->Some_0,
                value_offset: uvarint_value(kb, at1)->Some_0,
                value_length: uvarint_value(kb, at2)->Some_0,
                end: str_end(kb, at3),
            },
        )
    } else {
        None
    }
}

/// The parts of a table grow with the number of entries.
pub proof fn lemma_areas_monotonic(es: Seq<Item>, i: int, j: int)
    requires
        0 <= i <= j,
    ensures
        value_offset(es, i) <= value_offset(es, j),
        key_offset(es, i) <= key_offset(es, j),
        values_area(es, j).subrange(0, value_offset(es, i)) == values_area(es, i),
        keys_prefix(es, j).subrange(0, key_offset(es, i)) == keys_prefix(es, i),
    decreases j - i,
{
    if i < j {
        lemma_areas_monotonic(es, i, j - 1);
        assert(values_area(es, j).subrange(0, value_offset(es, i)) =~= values_area(
            es,
            j - 1,
        ).subrange(0, value_offset(es, i)));
        assert(keys_prefix(es, j).subrange(0, key_offset(es, i)) =~= keys_prefix(
            es,
            j - 1,
        ).subrange(0, key_offset(es, i)));
    } else {
        assert(values_area(es, j).subrange(0, value_offset(es, i)) =~= values_area(es, i));
        assert(keys_prefix(es, j).subrange(0, key_offset(es, i)) =~= keys_prefix(es, i));
    }
}

/// How the parts of a table that fits are bounded, and where entry `i` lies
/// in them.
pub proof fn lemma_table_layout(es: Seq<Item>, i: int)
    requires
        fits(es),
        0 <= i < es.len(),
    ensures
        value_offset(es, i + 1) == value_offset(es, i) + mutation_bytes(es[i].1).len(),
        value_offset(es, i + 1) <= value_offset(es, es.len() as int) <= u64::MAX,
        key_offset(es, i + 1) == key_offset(es, i) + key_entry(es, i).len(),
        key_offset(es, i + 1) <= key_offset(es, es.len() as int) < keys_block(es).len()
            <= u64::MAX,
        prev_len(es, i + 1) == key_entry(es, i).len(),
        prev_len(es, i) <= key_offset(es, i),
        key_entry(es, i).len() >= 4,
        es[i].0.len() <= key_entry(es, i).len(),
        es[i].1 matches MutationView::Put(v) ==> v.len() <= mutation_bytes(es[i].1).len(),
        values_area(es, es.len() as int).subrange(value_offset(es, i), value_offset(es, i + 1))
            == mutation_bytes(es[i].1),
        keys_block(es).subrange(key_offset(es, i), key_offset(es, i + 1)) == key_entry(es, i),
        keys_block(es).subrange(0, key_offset(es, i)) == keys_prefix(es, i),
{
    reveal(fits);
    reveal(keys_block);
    let n = es.len() as int;
    lemma_areas_monotonic(es, i + 1, n);
    lemma_areas_monotonic(es, i, i + 1);
    lemma_areas_monotonic(es, i, n);
    if i > 0 {
        lemma_areas_monotonic(es, i - 1, i);
        lemma_areas_monotonic(es, 0, i - 1);
    }
    let v = values_area(es, n);
    assert(v.subrange(value_offset(es, i), value_offset(es, i + 1)) =~= values_area(
        es,
        i + 1,
    ).subrange(value_offset(es, i), value_offset(es, i + 1))) by {
        assert(v.subrange(0, value_offset(es, i + 1)) == values_area(es, i + 1));
    }
    assert(values_area(es, i + 1).subrange(value_offset(es, i), value_offset(es, i + 1))
        =~= mutation_bytes(es[i].1));
    let kb = keys_block(es);
    let kp = keys_prefix(es, n);
    assert(kb.subrange(0, kp.len() as int) =~= kp);
    assert(kb.subrange(key_offset(es, i), key_offset(es, i + 1)) =~= kp.subrange(
        key_offset(es, i),
        key_offset(es, i + 1),
    ));
    assert(kp.subrange(key_offset(es, i), key_offset(es, i + 1)) =~= keys_prefix(
        es,
        i + 1,
    ).subrange(key_offset(es, i), key_offset(es, i + 1))) by {
        assert(kp.subrange(0, key_offset(es, i + 1)) == keys_prefix(es, i + 1));
    }
    assert(keys_prefix(es, i + 1).subrange(key_offset(es, i), key_offset(es, i + 1))
        =~= key_entry(es, i));
    assert(kb.subrange(0, key_offset(es, i)) =~= kp.subrange(0, key_offset(es, i)));
}

/// Reading a key entry where one was written gives back what was written,
/// and stops behind it.
pub proof fn lemma_key_entry_decode(
    prev: u64,
    offset: u64,
    length: u64,
    key: Seq<u8>,
    before: Seq<u8>,
    after: Seq<u8>,
)
    requires
        key.len() <= u64::MAX,
    ensures
        key_entry_at(
            before + key_entry_bytes(prev as nat, offset as nat, length as nat, key) + after,
            before.len() as int,
        ) == Some(
            KeyEntryView {
                key: key,
                value_offset: offset,
                value_length: length,
                end: (before.len() + key_entry_bytes(
                    prev as nat,
                    offset as nat,
                    length as nat,
                    key,
                ).len()) as int,
            },
        ),
        uvarint_value(
            before + key_entry_bytes(prev as nat, offset as nat, length as nat, key) + after,
            before.len() as int,
        ) == Some(prev),
{
    reveal(key_entry_at);
    let a = uvarint_bytes(prev as nat);
    let b = uvarint_bytes(offset as nat);
    let c = uvarint_bytes(length as nat);
    let d = str_bytes(key);
    let kb = before + key_entry_bytes(prev as nat, offset as nat, length as nat, key) + after;
    let s1 = b + c + d + after;
    lemma_uvarint_roundtrip(prev, before, s1);
    assert(before + a + s1 =~= kb);
    let b2 = before + a;
    let s2 = c + d + after;
    lemma_uvarint_roundtrip(offset, b2, s2);
    assert(b2 + b + s2 =~= kb);
    let b3 = b2 + b;
    let s3 = d + after;
    lemma_uvarint_roundtrip(length, b3, s3);
    assert(b3 + c + s3 =~= kb);
    let b4 = b3 + c;
    lemma_str_roundtrip(key, b4, after);
    assert(b4 + d + after =~= kb);
    assert(uvarint_end(kb, before.len() as int) == b2.len());
    assert(uvarint_end(kb, b2.len() as int) == b3.len());
    assert(uvarint_end(kb, b3.len() as int) == b4.len());
}

/// Reading the keys area of a table at the place of entry `i` gives the key
/// entry that was written for it, and the length of the entry before it.
pub proof fn lemma_key_entry_at(es: Seq<Item>, i: int)
    requires
        fits(es),
        0 <= i < es.len(),
    ensures
        key_entry_at(keys_block(es), key_offset(es, i)) == Some(
            KeyEntryView {
                key: es[i].0,
                value_offset: value_offset(es, i) as u64,
                value_length: mutation_bytes(es[i].1).len() as u64,
                end: key_offset(es, i + 1),
            },
        ),
        uvarint_value(keys_block(es), key_offset(es, i)) == Some(prev_len(es, i) as u64),
{
    reveal(keys_block);
    lemma_table_layout(es, i);
    let kb = keys_block(es);
    let p = keys_prefix(es, i);
    let rest = kb.skip(key_offset(es, i + 1));
    assert(kb =~= p + key_entry(es, i) + rest) by {
        assert(kb.subrange(0, key_offset(es, i)) == p);
        assert(kb.subrange(key_offset(es, i), key_offset(es, i + 1)) == key_entry(es, i));
    }
    lemma_key_entry_decode(
        prev_len(es, i) as u64,
        value_offset(es, i) as u64,
        mutation_bytes(es[i].1).len() as u64,
        es[i].0,
        p,
        rest,
    );
}

/// Behind the last key entry of a table stands the length of that entry;
/// the last byte of the keys area says how many bytes the length takes; and
/// no key entry can be read there.
pub proof fn lemma_keys_tail(es: Seq<Item>)
    requires
        fits(es),
        es.len() > 0,
    ensures
        uvarint_value(keys_block(es), key_offset(es, es.len() as int)) == Some(
            prev_len(es, es.len() as int) as u64,
        ),
        keys_block(es).len() == key_offset(es, es.len() as int) + keys_block(es).last() + 1,
        1 <= keys_block(es).last() <= 10,
        key_entry_at(keys_block(es), key_offset(es, es.len() as int)) is None,
{
    reveal(fits);
    reveal(keys_block);
    reveal(key_entry_at);
    let n = es.len() as int;
    lemma_table_layout(es, n - 1);
    let kb = keys_block(es);
    let p = keys_prefix(es, n);
    let l = uvarint_bytes(prev_len(es, n));
    let last = seq![l.len() as u8];
    lemma_uvarint_roundtrip(prev_len(es, n) as u64, p, last);
    assert(p + l + last =~= kb);
    let end = key_offset(es, n) + l.len();
    assert(kb[end] == l.len() as u8);
    lemma_pow128_values();
    assert(scan_uvarint(kb, end, 0) == (Some((l.len() as u8) as nat), end + 1)) by {
        assert(((l.len() as u8) % 128) as nat * pow128(0) == (l.len() as u8) as nat);
    }
    assert(scan_uvarint(kb, end + 1, 0).0 is None);
}

/// The first `i` entries alone decide the first `i` parts of a table.
pub proof fn lemma_prefix_agree(a: Seq<Item>, b: Seq<Item>, i: int)
    requires
        0 <= i <= a.len(),
        i <= b.len(),
        forall|j: int| 0 <= j < i ==> a[j] == b[j],
    ensures
        values_area(a, i) == values_area(b, i),
        keys_prefix(a, i) == keys_prefix(b, i),
        prev_len(a, i) == prev_len(b, i),
        forall|j: int| 0 <= j < i ==> key_entry(a, j) == key_entry(b, j),
    decreases i,
{
    if i > 0 {
        lemma_prefix_agree(a, b, i - 1);
        assert(key_entry(a, i - 1) == key_entry(b, i - 1));
    }
}

/// Collects the entries of a table in ascending key order and lays out the
/// table file.
pub struct TableBuilder {
    values_buf: Vec<u8>,
    keys_buf: Vec<u8>,
    first_key: Option<Buf>,
    last_key: Option<Buf>,
    last_entry_len: u64,
    added: Ghost<Seq<Item>>,
}

impl View for TableBuilder {
    type V = Seq<Item>;

    /// The entries added so far, in the order in which they were added.
    closed spec fn view(&self) -> Seq<Item> {
        self.added@
    }
}

impl TableBuilder {
    /// The buffers hold the two areas of the table of the entries added so
    /// far.
    pub closed spec fn inv(&self) -> bool {
        let n = self.added@.len() as int;
        &&& self.values_buf@ == values_area(self.added@, n)
        &&& self.keys_buf@ == keys_prefix(self.added@, n)
        &&& self.last_entry_len == prev_len(self.added@, n)
        &&& match self.first_key {
            None => n == 0,
            Some(k) => n > 0 && k@ == self.added@[0].0,
        }
        &&& match self.last_key {
            None => n == 0,
            Some(k) => n > 0 && k@ == self.added@[n - 1].0,
        }
    }

    /// A builder without entries.
    pub fn new() -> (r: TableBuilder)
        ensures
            r.inv(),
            r@ == Seq::<Item>::empty(),
    {
        TableBuilder {
            values_buf: Vec::new(),
            keys_buf: Vec::new(),
            first_key: None,
            last_key: None,
            last_entry_len: 0,
            added: Ghost(Seq::empty()),
        }
    }

    /// Whether no entry was added yet.
    pub fn is_empty(&self) -> (r: bool)
        requires
            self.inv(),
        ensures
            r == (self@.len() == 0),
    {
        self.first_key.is_none()
    }

    /// The bytes of the two areas so far, with the eight bytes that end a
    /// table file: no file of these entries is shorter. Where that is more
    /// than a machine word holds, the largest machine word.
    pub fn lowerbound_file_size(&self) -> (r: usize)
        requires
            self.inv(),
        ensures
            r == lowerbound_size(self@),
    {
        self.values_buf.len().saturating_add(self.keys_buf.len()).saturating_add(TAB_BACK_PADDING)
    }

    /// Adds an entry. The caller adds the entries in ascending key order.
    pub fn add_mutation(&mut self, key: &[u8], value: &Mutation)
        requires
            old(self).inv(),
        ensures
            final(self).inv(),
            final(self)@ == old(self)@.push((key@, value@)),
    {
        let ghost es = self.added@;
        let ghost n = es.len() as int;
        let ghost es2 = es.push((key@, value@));
        proof {
            lemma_prefix_agree(es, es2, n);
        }
        self.last_key = Some(copy_bytes(key));
        if self.first_key.is_none() {
            self.first_key = Some(copy_bytes(key));
        }
        let value_offset: u64 = self.values_buf.len() as u64;
        encode_mutation(&mut self.values_buf, value);
        let value_length: u64 = self.values_buf.len() as u64 - value_offset;
        let pre_pos: usize = self.keys_buf.len();
        encode_uvarint(&mut self.keys_buf, self.last_entry_len);
        encode_uvarint(&mut self.keys_buf, value_offset);
        encode_uvarint(&mut self.keys_buf, value_length);
        encode_str(&mut self.keys_buf, key);
        self.last_entry_len = (self.keys_buf.len() - pre_pos) as u64;
        self.added = Ghost(es2);
        proof {
            assert(self.values_buf@ == values_area(es2, n + 1));
            assert(self.keys_buf@ =~= keys_prefix(es2, n) + key_entry(es2, n));
        }
    }

    /// Appends the table file of the entries to `writer`. Gives the offset
    /// of the keys area in the file, the length of the file, and the first
    /// and the last key. The builder must hold an entry.
    pub fn finish(&mut self, writer: &mut Vec<u8>) -> (r: (u64, u64, Buf, Buf))
        requires
            old(self).inv(),
            old(self)@.len() > 0,
        ensures
            final(self).inv(),
            final(self)@ == old(self)@,
            final(writer)@ == old(writer)@ + table_image(old(self)@),
            fits(old(self)@),
            r.0 == value_offset(old(self)@, old(self)@.len() as int),
            r.1 == table_image(old(self)@).len(),
            r.2@ == old(self)@.first().0,
            r.3@ == old(self)@.last().0,
    {
        proof {
            reveal(fits);
            reveal(keys_block);
        }
        let ghost es = self.added@;
        let keys_offset: u64 = self.values_buf.len() as u64;
        let mut tail: Vec<u8> = Vec::new();
        encode_uvarint(&mut tail, self.last_entry_len);
        proof {
            lemma_uvarint_roundtrip(self.last_entry_len, Seq::empty(), Seq::empty());
            assert(tail@ =~= uvarint_bytes(self.last_entry_len as nat));
        }
        let step_back: u8 = tail.len() as u8;
        tail.push(step_back);
        assert(tail@ == keys_tail(es));
        encode_u64(&mut tail, keys_offset);
        let start: usize = writer.len();
        writer.extend_from_slice(self.values_buf.as_slice());
        writer.extend_from_slice(self.keys_buf.as_slice());
        writer.extend_from_slice(tail.as_slice());
        let file_size: u64 = (writer.len() - start) as u64;
        proof {
            vstd::bytes::lemma_auto_spec_u64_to_from_le_bytes();
            assert(writer@ =~= old(writer)@ + table_image(es));
        }
        let smallest: Buf = match &self.first_key {
            Some(k) => copy_bytes(k.as_slice()),
            None => Vec::new(),
        };
        let biggest: Buf = match &self.last_key {
            Some(k) => copy_bytes(k.as_slice()),
            None => Vec::new(),
        };
        (keys_offset, file_size, smallest, biggest)
    }
}

/// The least length of a table file of `es`, cut to a machine word.
pub open spec fn lowerbound_size(es: Seq<Item>) -> usize {
    let sum = value_offset(es, es.len() as int) + key_offset(es, es.len() as int) + 8;
    if sum > usize::MAX {
        usize::MAX
    } else {
        sum as usize
    }
}

/// Writes the entries of `m` as the file of table `table_id`. Gives the
/// offset of the keys area in the file, the length of the file, and the
/// first and the last key. `m` must hold an entry.
pub fn flush_to_disk(dir: &mut Directory, table_id: TableId, m: &MemStore) -> (r: (
    u64,
    u64,
    Buf,
    Buf,
))
    requires
        m.inv(),
        m.entries@.len() > 0,
    ensures
        final(dir)@.toc == old(dir)@.toc,
        final(dir)@.tables == old(dir)@.tables.insert(table_id.0, table_image(m.entries_view())),
        fits(m.entries_view()),
        r.0 == value_offset(m.entries_view(), m.entries_view().len() as int),
        r.1 == table_image(m.entries_view()).len(),
        r.2@ == m.entries_view().first().0,
        r.3@ == m.entries_view().last().0,
{
    let ghost es = m.entries_view();
    let mut builder = TableBuilder::new();
    let mut i: usize = 0;
    while i < m.entries.len()
        invariant
            0 <= i <= m.entries@.len(),
            es == m.entries_view(),
            builder.inv(),
            builder@ == es.take(i as int),
        decreases m.entries@.len() - i,
    {
        builder.add_mutation(m.entries[i].0.as_slice(), &m.entries[i].1);
        assert(es.take(i + 1) =~= es.take(i as int).push(es[i as int]));
        i += 1;
    }
    assert(es.take(es.len() as int) =~= es);
    let mut file: Vec<u8> = Vec::new();
    let r = builder.finish(&mut file);
    assert(file@ =~= table_image(es));
    dir.create_table(table_id, file);
    r
}

/// The file `file` is the table that holds the entries `es`, in key order,
/// and `ti` describes it.
pub open spec fn is_table_of(file: Seq<u8>, ti: TableInfoView, es: Seq<Item>) -> bool {
    &&& es.len() > 0
    &&& sorted(es)
    &&& fits(es)
    &&& file == table_image(es)
    &&& ti.keys_offset == value_offset(es, es.len() as int)
    &&& ti.file_size == file.len()
    &&& ti.smallest_key == es.first().0
    &&& ti.biggest_key == es.last().0
}

/// The file `file` is a sound table, and `ti` describes it.
pub open spec fn is_table(file: Seq<u8>, ti: TableInfoView) -> bool {
    exists|es: Seq<Item>| is_table_of(file, ti, es)
}

/// The entries of a sound table file.
pub open spec fn table_items(file: Seq<u8>, ti: TableInfoView) -> Seq<Item> {
    choose|es: Seq<Item>| is_table_of(file, ti, es)
}

/// The keys area of a table file of which the keys offset and the length
/// are known.
pub open spec fn keys_area(file: Seq<u8>, ti: TableInfoView) -> Seq<u8> {
    file.subrange(ti.keys_offset as int, ti.file_size - 8)
}

/// The parts of the file of a table: its values area, its keys area, and
/// the keys offset behind them.
pub proof fn lemma_table_parts(file: Seq<u8>, ti: TableInfoView, es: Seq<Item>)
    requires
        is_table_of(file, ti, es),
    ensures
        ti.keys_offset + 8 <= ti.file_size,
        ti.file_size == file.len(),
        keys_area(file, ti) == keys_block(es),
        file.subrange(0, ti.keys_offset as int) == values_area(es, es.len() as int),
        laid_out(file, ti, es),
{
    reveal(keys_block);
    reveal(fits);
    vstd::bytes::lemma_auto_spec_u64_to_from_le_bytes();
    assert(keys_area(file, ti) =~= keys_block(es));
    assert(file.subrange(0, ti.keys_offset as int) =~= values_area(es, es.len() as int));
}

/// `owning_ref::OwningRef`: a handle that owns a buffer and refers into it.
/// Nothing inside it is seen; `shared_bytes` names the bytes it refers to.
#[verifier::external_type_specification]
#[verifier::external_body]
#[verifier::reject_recursive_types(O)]
#[verifier::reject_recursive_types(T)]
pub struct ExOwningRef<O, T: ?Sized>(owning_ref::OwningRef<O, T>);

/// The bytes that a shared buffer holds.
pub uninterp spec fn shared_bytes(keys: RcRef<Vec<u8>>) -> Seq<u8>;

/// `OwningRef::new`: a handle that owns `buf` and refers to what it holds.
#[verifier::external_body]
fn share_buffer(buf: Rc<Vec<u8>>) -> (r: RcRef<Vec<u8>>)
    ensures
        shared_bytes(r) == buf@,
{
    RcRef::new(buf)
}

/// `Deref::deref` of `OwningRef`: the buffer that the handle refers to.
#[verifier::external_body]
fn shared_buffer<'a>(keys: &'a RcRef<Vec<u8>>) -> (r: &'a Vec<u8>)
    ensures
        r@ == shared_bytes(*keys),
{
    &**keys
}

/// A key entry can only be read inside the buffer, and reading it moves
/// forward.
pub proof fn lemma_key_entry_bounds(kb: Seq<u8>, pos: int)
    requires
        0 <= pos,
    ensures
        key_entry_at(kb, pos) matches Some(e) ==> pos + 4 <= e.end <= kb.len(),
{
    reveal(key_entry_at);
    let at1 = uvarint_end(kb, pos);
    let at2 = uvarint_end(kb, at1);
    let at3 = uvarint_end(kb, at2);
    lemma_scan_uvarint_bounds(kb, pos, 0);
    lemma_scan_uvarint_bounds(kb, at1, 0);
    lemma_scan_uvarint_bounds(kb, at2, 0);
    lemma_scan_uvarint_bounds(kb, at3, 0);
}

/// The key entry at `pos` in `kb` holds `key` and says that the key's
/// mutation starts at `offset` and has `length` bytes.
pub open spec fn reads_as(kb: Seq<u8>, pos: int, key: Seq<u8>, offset: u64, length: u64) -> bool {
    match key_entry_at(kb, pos) {
        Some(e) => e.key == key && e.value_offset == offset && e.value_length == length,
        None => false,
    }
}

/// A cursor over the key entries of a table, from a front position to a
/// back position in the keys area.
struct TableKeysIterator {
    keys: RcRef<Vec<u8>>,
    keys_pos: usize,
    // Behind the last key entry, before its length and the count of bytes of
    // that length.
    keys_end_pos: usize,
}

struct TableKeysInterval {
    keys_pos: usize,
    keys_end_pos: usize,
}

/// Where the key entry starts that ends at `end_pos` in the keys area `kb`,
/// as the length that stands at `end_pos` says, if it says so soundly.
#[verifier::opaque]
pub open spec fn back_start(kb: Seq<u8>, end_pos: int) -> Option<int> {
    match uvarint_value(kb, end_pos) {
        Some(l) => if 0 < l <= end_pos {
            Some(end_pos - l)
        } else {
            None
        },
        None => None,
    }
}

impl TableKeysIterator {
    spec fn bytes(&self) -> Seq<u8> {
        shared_bytes(self.keys)
    }

    fn whole_table(keys: RcRef<Vec<u8>>) -> (r: Result<TableKeysIterator, Error>)
        ensures
            match r {
                Ok(it) => {
                    let kb = shared_bytes(keys);
                    &&& kb.len() >= 1 + kb.last()
                    &&& it.keys == keys
                    &&& it.keys_pos == 0
                    &&& it.keys_end_pos == kb.len() - 1 - kb.last()
                },
                Err(_) => shared_bytes(keys).len() == 0 || shared_bytes(keys).len() < 1
                    + shared_bytes(keys).last(),
            },
    {
        let buf: &Vec<u8> = shared_buffer(&keys);
        if buf.len() == 0 {
            return mk_err("table keys buffer too small");
        }
        let step_back: usize = buf[buf.len() - 1] as usize;
        if buf.len() < 1 + step_back {
            return mk_err("table keys step_back too small");
        }
        let keys_end_pos: usize = buf.len() - 1 - step_back;
        Ok(TableKeysIterator { keys: keys, keys_pos: 0, keys_end_pos: keys_end_pos })
    }

    fn save_pos(&self) -> (r: TableKeysInterval)
        ensures
            r.keys_pos == self.keys_pos,
            r.keys_end_pos == self.keys_end_pos,
    {
        TableKeysInterval { keys_pos: self.keys_pos, keys_end_pos: self.keys_end_pos }
    }

    fn decode_key<'a>(keys: &'a [u8], pos: &mut usize) -> (r: Result<(&'a [u8], u64, u64), Error>)
        ensures
            match r {
                Ok(t) => key_entry_at(keys@, *old(pos) as int) == Some(
                    KeyEntryView {
                        key: t.0@,
                        value_offset: t.1,
                        value_length: t.2,
                        end: *final(pos) as int,
                    },
                ),
                Err(_) => key_entry_at(keys@, *old(pos) as int) is None,
            },
    {
        proof {
            reveal(key_entry_at);
        }
        let _prev_entry_length: u64 = match decode_uvarint(keys, pos) {
            Some(x) => x,
            None => {
                return mk_err("could not decode prev entry length");
            },
        };
        let value_offset: u64 = match decode_uvarint(keys, pos) {
            Some(x) => x,
            None => {
                return mk_err("could not decode value_offset");
            },
        };
        let value_length: u64 = match decode_uvarint(keys, pos) {
            Some(x) => x,
            None => {
                return mk_err("could not decode value_length");
            },
        };
        let key: &[u8] = match observe_str(keys, pos) {
            Some(x) => x,
            None => {
                return mk_err("cannot decode key");
            },
        };
        Ok((key, value_offset, value_length))
    }

    /// The key entry between `keys_pos` and `keys_end_pos` that starts at
    /// `keys_pos`; none when the two positions are the same.
    fn help_current_key<'a>(keys: &'a [u8], keys_pos: usize, keys_end_pos: usize) -> (r: Result<
        Option<(&'a [u8], u64, u64)>,
        Error,
    >)
        ensures
            match r {
                Ok(None) => keys_pos == keys_end_pos,
                Ok(Some(t)) => keys_pos != keys_end_pos && reads_as(
                    keys@,
                    keys_pos as int,
                    t.0@,
                    t.1,
                    t.2,
                ),
                Err(_) => keys_pos != keys_end_pos && key_entry_at(keys@, keys_pos as int)
                    is None,
            },
    {
        if keys_pos == keys_end_pos {
            return Ok(None);
        }
        let mut pos: usize = keys_pos;
        match TableKeysIterator::decode_key(keys, &mut pos) {
            Ok(tup) => Ok(Some(tup)),
            Err(e) => Err(e),
        }
    }

    fn current_key(&self) -> (r: Result<Option<(&[u8], u64, u64)>, Error>)
        ensures
            match r {
                Ok(None) => self.keys_pos == self.keys_end_pos,
                Ok(Some(t)) => self.keys_pos != self.keys_end_pos && reads_as(
                    self.bytes(),
                    self.keys_pos as int,
                    t.0@,
                    t.1,
                    t.2,
                ),
                Err(_) => self.keys_pos != self.keys_end_pos && key_entry_at(
                    self.bytes(),
                    self.keys_pos as int,
                ) is None,
            },
    {
        TableKeysIterator::help_current_key(
            shared_buffer(&self.keys).as_slice(),
            self.keys_pos,
            self.keys_end_pos,
        )
    }

    /// Moves the front position behind the key entry that starts at it.
    fn step_key(&mut self) -> (r: Result<(), Error>)
        requires
            old(self).wf(),
        ensures
            final(self).wf(),
            final(self).keys_pos >= old(self).keys_pos,
            r is Ok ==> final(self).keys_pos > old(self).keys_pos,
            final(self).keys == old(self).keys,
            final(self).keys_end_pos == old(self).keys_end_pos,
            match r {
                Ok(_) => key_entry_at(old(self).bytes(), old(self).keys_pos as int) matches Some(
                    e,
                ) && final(self).keys_pos == e.end,
                Err(_) => key_entry_at(old(self).bytes(), old(self).keys_pos as int) is None
                    && final(self).keys_pos == old(self).keys_pos,
            },
    {
        proof {
            lemma_key_entry_bounds(self.bytes(), self.keys_pos as int);
        }
        let mut pos: usize = self.keys_pos;
        match TableKeysIterator::decode_key(shared_buffer(&self.keys).as_slice(), &mut pos) {
            Ok(_) => {
                self.keys_pos = pos;
                Ok(())
            },
            Err(e) => Err(e),
        }
    }

    /// The key entry at the front position, and the front position moved
    /// behind it; none at the back position.
    fn next_key(&mut self) -> (r: Result<Option<(Vec<u8>, u64, u64)>, Error>)
        ensures
            final(self).keys == old(self).keys,
            final(self).keys_end_pos == old(self).keys_end_pos,
            match r {
                Ok(None) => old(self).keys_pos == old(self).keys_end_pos && final(self).keys_pos
                    == old(self).keys_pos,
                Ok(Some(t)) => old(self).keys_pos != old(self).keys_end_pos && key_entry_at(
                    old(self).bytes(),
                    old(self).keys_pos as int,
                ) == Some(
                    KeyEntryView {
                        key: t.0@,
                        value_offset: t.1,
                        value_length: t.2,
                        end: final(self).keys_pos as int,
                    },
                ),
                Err(_) => old(self).keys_pos != old(self).keys_end_pos && key_entry_at(
                    old(self).bytes(),
                    old(self).keys_pos as int,
                ) is None && final(self).keys_pos == old(self).keys_pos,
            },
    {
        if self.keys_pos == self.keys_end_pos {
            return Ok(None);
        }
        let mut pos: usize = self.keys_pos;
        match TableKeysIterator::decode_key(shared_buffer(&self.keys).as_slice(), &mut pos) {
            Ok(t) => {
                let ret = (copy_bytes(t.0), t.1, t.2);
                self.keys_pos = pos;
                Ok(Some(ret))
            },
            Err(e) => Err(e),
        }
    }

    /// The key entry that ends at the back position; none when the front
    /// position is the back position.
    fn current_back_key(&self) -> (r: Result<Option<(&[u8], u64, u64)>, Error>)
        ensures
            match r {
                Ok(None) => self.keys_pos == self.keys_end_pos,
                Ok(Some(t)) => self.keys_pos != self.keys_end_pos && back_start(
                    self.bytes(),
                    self.keys_end_pos as int,
                ) is Some && reads_as(
                    self.bytes(),
                    back_start(self.bytes(), self.keys_end_pos as int)->Some_0,
                    t.0@,
                    t.1,
                    t.2,
                ),
                Err(_) => self.keys_pos != self.keys_end_pos && (back_start(
                    self.bytes(),
                    self.keys_end_pos as int,
                ) matches Some(p) ==> key_entry_at(self.bytes(), p) is None),
            },
    {
        proof {
            reveal(back_start);
        }
        if self.keys_pos == self.keys_end_pos {
            return Ok(None);
        }
        let buf: &[u8] = shared_buffer(&self.keys).as_slice();
        let mut pos: usize = self.keys_end_pos;
        let entry_length: u64 = match decode_uvarint(buf, &mut pos) {
            Some(x) => x,
            None => {
                return mk_err("cannot decode prev length");
            },
        };
        if entry_length == 0 || entry_length > self.keys_end_pos as u64 {
            return mk_err("bad prev length");
        }
        let start: usize = self.keys_end_pos - entry_length as usize;
        let mut at: usize = start;
        match TableKeysIterator::decode_key(buf, &mut at) {
            Ok(tup) => Ok(Some(tup)),
            Err(e) => Err(e),
        }
    }

    /// Moves the back position before the key entry that ends at it. Says
    /// whether there was one between the two positions.
    fn step_back_key(&mut self) -> (r: Result<bool, Error>)
        ensures
            final(self).keys == old(self).keys,
            final(self).keys_pos == old(self).keys_pos,
            final(self).keys_end_pos <= old(self).keys_end_pos,
            r == Ok::<bool, Error>(true) ==> final(self).keys_end_pos < old(self).keys_end_pos,
            match r {
                Ok(false) => old(self).keys_pos == old(self).keys_end_pos
                    && final(self).keys_end_pos == old(self).keys_end_pos,
                Ok(true) => old(self).keys_pos != old(self).keys_end_pos && back_start(
                    old(self).bytes(),
                    old(self).keys_end_pos as int,
                ) == Some(final(self).keys_end_pos as int)
                    && final(self).keys_pos <= final(self).keys_end_pos,
                Err(_) => old(self).keys_pos != old(self).keys_end_pos
                    && final(self).keys_end_pos == old(self).keys_end_pos && (back_start(
                    old(self).bytes(),
                    old(self).keys_end_pos as int,
                ) matches Some(p) ==> p < old(self).keys_pos),
            },
    {
        proof {
            reveal(back_start);
        }
        if self.keys_pos == self.keys_end_pos {
            return Ok(false);
        }
        let buf: &[u8] = shared_buffer(&self.keys).as_slice();
        let mut pos: usize = self.keys_end_pos;
        let entry_length: u64 = match decode_uvarint(buf, &mut pos) {
            Some(x) => x,
            None => {
                return mk_err("cannot decode prev length");
            },
        };
        if entry_length == 0 || entry_length > self.keys_end_pos as u64 {
            return mk_err("bad prev length");
        }
        let start: usize = self.keys_end_pos - entry_length as usize;
        if start < self.keys_pos {
            return mk_err("prev length reaches before the first key");
        }
        self.keys_end_pos = start;
        Ok(true)
    }
}

/// Whether the keys area of the table that `ti` describes can be loaded
/// from `dir`: the table has a file, and the keys area that `ti` describes
/// lies in it, before the eight bytes that end a table file.
pub open spec fn loads(dir: DirectoryView, ti: TableInfoView) -> bool {
    &&& dir.tables.contains_key(ti.id)
    &&& ti.keys_offset + 8 <= ti.file_size <= dir.tables[ti.id].len() + 8
    &&& ti.file_size <= usize::MAX
}

/// Loads the keys area of the table that `ti` describes. Gives the bytes of
/// the table file and a copy of the keys area. Fails when the directory has
/// no file of the table, or the file cannot hold the keys area that `ti`
/// describes.
pub fn load_table_keys_buf<'a>(dir: &'a Directory, ti: &TableInfo) -> (r: Result<
    (&'a [u8], Vec<u8>),
    Error,
>)
    ensures
        match r {
            Ok(t) => {
                &&& dir@.tables.contains_key(ti.id.0)
                &&& t.0@ == dir@.tables[ti.id.0]
                &&& ti.keys_offset + 8 <= ti.file_size <= t.0@.len() + 8
                &&& t.1@ == keys_area(t.0@, ti@)
            },
            Err(_) => !dir@.tables.contains_key(ti.id.0) || ti.file_size < ti.keys_offset + 8
                || ti.file_size > dir@.tables[ti.id.0].len() + 8 || ti.file_size > usize::MAX,
        },
        r is Ok <==> loads(dir@, ti@),
        dir@.tables.contains_key(ti.id.0) ==> dir@.tables[ti.id.0].len() <= usize::MAX,
{
    let f: &[u8] = match dir.table(ti.id) {
        Some(f) => f,
        None => {
            return mk_err("no such table file");
        },
    };
    let keys_offset: usize = match try_into_size(ti.keys_offset) {
        Some(x) => x,
        None => {
            assert(f@.len() == f.len());
            return mk_err("lookup_table keys_offset");
        },
    };
    let file_size: usize = match try_into_size(ti.file_size) {
        Some(x) => x,
        None => {
            assert(f@.len() == f.len());
            return mk_err("lookup_table file_size");
        },
    };
    if file_size < TAB_BACK_PADDING || file_size - TAB_BACK_PADDING < keys_offset {
        return mk_err("table file too small for its keys offset");
    }
    match read_exact(f, ti.keys_offset, file_size - TAB_BACK_PADDING - keys_offset) {
        Ok(keys_buf) => Ok((f, keys_buf)),
        Err(e) => Err(e),
    }
}

/// The bytes that the values area of a table holds for entry `i` decode to
/// the mutation of that entry, and to nothing shorter.
pub proof fn lemma_value_decodes(es: Seq<Item>, i: int)
    requires
        fits(es),
        0 <= i < es.len(),
    ensures
        mutation_at(mutation_bytes(es[i].1), 0) == Some(es[i].1),
        mutation_end(mutation_bytes(es[i].1), 0) == mutation_bytes(es[i].1).len(),
        values_area(es, es.len() as int).subrange(
            value_offset(es, i),
            value_offset(es, i) + mutation_bytes(es[i].1).len(),
        ) == mutation_bytes(es[i].1),
        value_offset(es, i) + mutation_bytes(es[i].1).len() <= value_offset(es, es.len() as int),
{
    lemma_table_layout(es, i);
    lemma_mutation_roundtrip(es[i].1, Seq::empty(), Seq::empty());
    assert(Seq::<u8>::empty() + mutation_bytes(es[i].1) + Seq::<u8>::empty() =~= mutation_bytes(
        es[i].1,
    ));
}

proof fn lemma_step_agree(a: Seq<Item>, b: Seq<Item>, k: int)
    requires
        fits(a),
        fits(b),
        0 <= k < a.len(),
        k < b.len(),
        keys_block(a) == keys_block(b),
        values_area(a, a.len() as int) == values_area(b, b.len() as int),
        forall|j: int| 0 <= j < k ==> a[j] == b[j],
    ensures
        a[k] == b[k],
{
    lemma_prefix_agree(a, b, k);
    lemma_table_layout(a, k);
    lemma_table_layout(b, k);
    lemma_key_entry_at(a, k);
    lemma_key_entry_at(b, k);
    assert(a[k].0 == b[k].0);
    assert(mutation_bytes(a[k].1).len() as u64 == mutation_bytes(b[k].1).len() as u64);
    lemma_value_decodes(a, k);
    lemma_value_decodes(b, k);
    assert(mutation_bytes(a[k].1).len() == mutation_bytes(b[k].1).len());
    assert(mutation_bytes(a[k].1) == mutation_bytes(b[k].1));
    assert(a[k].1 == b[k].1);
}

proof fn lemma_tables_agree(a: Seq<Item>, b: Seq<Item>, i: int)
    requires
        fits(a),
        fits(b),
        keys_block(a) == keys_block(b),
        values_area(a, a.len() as int) == values_area(b, b.len() as int),
        0 <= i <= a.len(),
        i <= b.len(),
    ensures
        forall|j: int| 0 <= j < i ==> a[j] == b[j],
    decreases i,
{
    if i > 0 {
        lemma_tables_agree(a, b, i - 1);
        lemma_step_agree(a, b, i - 1);
    }
}

/// A table file holds one run of entries only.
pub proof fn lemma_table_unique(file: Seq<u8>, ti: TableInfoView, es: Seq<Item>)
    requires
        is_table_of(file, ti, es),
    ensures
        is_table(file, ti),
        table_items(file, ti) == es,
{
    let b = table_items(file, ti);
    let n = if es.len() <= b.len() {
        es.len() as int
    } else {
        b.len() as int
    };
    lemma_table_parts(file, ti, es);
    lemma_table_parts(file, ti, b);
    lemma_tables_agree(es, b, n);
    lemma_prefix_agree(es, b, n);
    if es.len() < b.len() {
        lemma_keys_tail(es);
        lemma_key_entry_at(b, n);
    } else if b.len() < es.len() {
        lemma_keys_tail(b);
        lemma_key_entry_at(es, n);
    }
    assert(es =~= b);
}

/// Table round trip: the file that a builder lays out for entries in
/// ascending key order is a sound table, and its entries are those
/// entries. So a cursor over it yields them in their order, or in the
/// reverse of it, and a lookup finds what they record against a key.
pub proof fn lemma_table_round_trip(es: Seq<Item>, ti: TableInfoView)
    requires
        es.len() > 0,
        sorted(es),
        fits(es),
        ti.keys_offset == value_offset(es, es.len() as int),
        ti.file_size == table_image(es).len(),
        ti.smallest_key == es.first().0,
        ti.biggest_key == es.last().0,
    ensures
        is_table(table_image(es), ti),
        table_items(table_image(es), ti) == es,
        range_entries(
            table_items(table_image(es), ti),
            Interval { lower: Bound::Unbounded, upper: Bound::Unbounded },
        ) == es,
{
    lemma_table_unique(table_image(es), ti, es);
    crate::model::lemma_range_all(es, Interval { lower: Bound::Unbounded, upper: Bound::Unbounded });
}

/// What stands in the keys area of a table at the place of entry `i`: that
/// entry, or, behind the last entry, the end.
pub proof fn lemma_cursor_at(es: Seq<Item>, i: int)
    requires
        fits(es),
        es.len() > 0,
        0 <= i <= es.len(),
    ensures
        0 <= key_offset(es, i) <= key_offset(es, es.len() as int) < keys_block(es).len(),
        key_offset(es, i) == key_offset(es, es.len() as int) <==> i == es.len(),
        i < es.len() ==> key_entry_at(keys_block(es), key_offset(es, i)) == Some(
            KeyEntryView {
                key: es[i].0,
                value_offset: value_offset(es, i) as u64,
                value_length: mutation_bytes(es[i].1).len() as u64,
                end: key_offset(es, i + 1),
            },
        ),
        i < es.len() ==> key_offset(es, i) < key_offset(es, i + 1),
        i > 0 ==> back_start(keys_block(es), key_offset(es, i)) == Some(key_offset(es, i - 1)),
        i == 0 ==> !(back_start(keys_block(es), key_offset(es, i)) matches Some(p) && p >= 0),
{
    reveal(back_start);
    let n = es.len() as int;
    lemma_areas_monotonic(es, i, n);
    lemma_table_layout(es, n - 1);
    if i < n {
        lemma_table_layout(es, i);
        lemma_key_entry_at(es, i);
        lemma_areas_monotonic(es, i + 1, n);
        if i > 0 {
            lemma_table_layout(es, i - 1);
        }
    } else {
        lemma_keys_tail(es);
    }
}

/// The file `file` is laid out as the table of `es`, whatever the order of
/// the keys of `es`.
pub open spec fn laid_out(file: Seq<u8>, ti: TableInfoView, es: Seq<Item>) -> bool {
    &&& es.len() > 0
    &&& fits(es)
    &&& ti.keys_offset == value_offset(es, es.len() as int)
    &&& ti.keys_offset + 8 <= ti.file_size == file.len()
    &&& keys_area(file, ti) == keys_block(es)
    &&& file.subrange(0, ti.keys_offset as int) == values_area(es, es.len() as int)
}

/// Reading the bytes that the key entry of entry `i` points to gives the
/// bytes of the mutation of that entry, which decode to it.
pub proof fn lemma_value_read(file: Seq<u8>, ti: TableInfoView, es: Seq<Item>, i: int)
    requires
        laid_out(file, ti, es),
        0 <= i < es.len(),
    ensures
        read_value_spec(
            file,
            value_offset(es, i) as u64,
            mutation_bytes(es[i].1).len() as u64,
        ) == Some(es[i].1),
        value_offset(es, i) + mutation_bytes(es[i].1).len() <= ti.keys_offset <= u64::MAX,
{
    reveal(read_value_spec);
    lemma_value_decodes(es, i);
    lemma_table_layout(es, i);
    let v = values_area(es, es.len() as int);
    let a = value_offset(es, i);
    let b = a + mutation_bytes(es[i].1).len();
    assert(file.subrange(a, b) =~= v.subrange(a, b));
}

/// The mutation that the `length` bytes of `file` from `offset` on hold, if
/// they are there and hold exactly one.
#[verifier::opaque]
pub open spec fn read_value_spec(file: Seq<u8>, offset: u64, length: u64) -> Option<MutationView> {
    if offset + length <= file.len() {
        let bytes = file.subrange(offset as int, offset + length);
        if mutation_end(bytes, 0) == length {
            mutation_at(bytes, 0)
        } else {
            None
        }
    } else {
        None
    }
}

/// Reads the mutation that the `length` bytes of `file` from `offset` on
/// hold. Fails when the file ends before, or when the bytes are not exactly
/// one mutation.
pub fn read_value(file: &[u8], offset: u64, length: u64) -> (r: Result<Mutation, Error>)
    ensures
        match r {
            Ok(m) => read_value_spec(file@, offset, length) == Some(m@),
            Err(_) => read_value_spec(file@, offset, length) is None,
        },
{
    proof {
        reveal(read_value_spec);
    }
    let value_length: usize = match try_into_size(length) {
        Some(x) => x,
        None => {
            assert(file@.len() == file.len());
            return mk_err("value length too big");
        },
    };
    let value_buf: Vec<u8> = match read_exact(file, offset, value_length) {
        Ok(x) => x,
        Err(e) => {
            return Err(e);
        },
    };
    let mut pos: usize = 0;
    let value: Mutation = match decode_mutation(value_buf.as_slice(), &mut pos) {
        Some(x) => x,
        None => {
            return mk_err("cannot decode mutation");
        },
    };
    if pos != value_buf.len() {
        return mk_err("mutation decoded too small");
    }
    Ok(value)
}

/// What walking the key entries of the keys area `kb` from `pos` up to
/// `end` finds against `key`. At a key entry with the key, it is the
/// mutation that the entry points to in `file`; at a key entry with a later
/// key, and at `end`, it is nothing. The outer `None` stands for a failure:
/// no whole key entry is at hand, or the entry with the key does not point
/// to a mutation.
#[verifier::opaque]
pub open spec fn walk(file: Seq<u8>, kb: Seq<u8>, pos: int, end: int, key: Seq<u8>) -> Option<
    Option<MutationView>,
>
    decreases kb.len() - pos,
    via walk_decreases
{
    if pos == end {
        Some(None)
    } else if pos < 0 {
        None
    } else {
        match key_entry_at(kb, pos) {
            None => None,
            Some(e) => if lex_lt(key, e.key) {
                Some(None)
            } else if e.key == key {
                match read_value_spec(file, e.value_offset, e.value_length) {
                    Some(m) => Some(Some(m)),
                    None => None,
                }
            } else {
                walk(file, kb, e.end, end, key)
            },
        }
    }
}

#[via_fn]
proof fn walk_decreases(file: Seq<u8>, kb: Seq<u8>, pos: int, end: int, key: Seq<u8>) {
    if pos != end && pos >= 0 {
        lemma_key_entry_bounds(kb, pos);
    }
}

/// What looking `key` up in the table that `ti` describes gives: what
/// walking the key entries of its keys area finds, from the first to the
/// tail of the area. The outer `None` stands for a failure.
pub open spec fn table_walk(dir: DirectoryView, ti: TableInfoView, key: Seq<u8>) -> Option<
    Option<MutationView>,
> {
    let file = dir.tables[ti.id];
    let kb = keys_area(file, ti);
    if loads(dir, ti) && kb.len() >= 1 && kb.len() >= 1 + kb.last() {
        walk(file, kb, 0, kb.len() - 1 - kb.last(), key)
    } else {
        None
    }
}

/// What a lookup gives, as a mathematical value.
pub open spec fn looked_up(r: Result<Option<Mutation>, Error>) -> Option<Option<MutationView>> {
    match r {
        Ok(Some(m)) => Some(Some(m@)),
        Ok(None) => Some(None),
        Err(_) => None,
    }
}

/// The first `i` keys of `es` come before `key`.
pub open spec fn keys_before(es: Seq<Item>, i: int, key: Seq<u8>) -> bool {
    forall|j: int| 0 <= j < i ==> lex_lt(#[trigger] es[j].0, key)
}

/// Looks `key` up in the table that `ti` describes, by walking the key
/// entries from the first on. Of a sound table it gives what the table
/// records against the key.
pub fn lookup_table(dir: &Directory, ti: &TableInfo, key: &[u8]) -> (r: Result<
    Option<Mutation>,
    Error,
>)
    ensures
        looked_up(r) == table_walk(dir@, ti@, key@),
        !dir@.tables.contains_key(ti.id.0) ==> r is Err,
        dir@.tables.contains_key(ti.id.0) && is_table(dir@.tables[ti.id.0], ti@) ==> r is Ok
            && found_as(r->Ok_0, find(table_items(dir@.tables[ti.id.0], ti@), key@)),
{
    let (file, keys_buf) = match load_table_keys_buf(dir, ti) {
        Ok(t) => t,
        Err(e) => {
            proof {
                if dir@.tables.contains_key(ti.id.0) && is_table(dir@.tables[ti.id.0], ti@) {
                    lemma_table_parts(
                        dir@.tables[ti.id.0],
                        ti@,
                        table_items(dir@.tables[ti.id.0], ti@),
                    );
                }
            }
            return Err(e);
        },
    };
    let ghost sound = is_table(file@, ti@);
    let ghost es = table_items(file@, ti@);
    let ghost n = es.len() as int;
    let ghost kb = keys_buf@;
    proof {
        if sound {
            lemma_table_parts(file@, ti@, es);
            lemma_keys_tail(es);
            lemma_cursor_at(es, 0);
        }
    }
    let mut iter = match TableKeysIterator::whole_table(share_buffer(Rc::new(keys_buf))) {
        Ok(it) => it,
        Err(e) => {
            return Err(e);
        },
    };
    let ghost mut i: int = 0;
    let mut found: Option<Mutation> = None;
    let ghost end = iter.keys_end_pos as int;
    let ghost goal = walk(file@, kb, 0, end, key@);
    assert(goal == table_walk(dir@, ti@, key@));
    loop
        invariant_except_break
            sound ==> iter.keys_pos == key_offset(es, i),
            found is None,
            goal == walk(file@, kb, iter.keys_pos as int, end, key@),
        invariant
            end == iter.keys_end_pos,
            goal == table_walk(dir@, ti@, key@),
            n == es.len(),
            dir@.tables.contains_key(ti.id.0),
            file@ == dir@.tables[ti.id.0],
            sound == is_table(file@, ti@),
            iter.bytes() == kb,
            iter.keys_pos <= kb.len(),
            sound ==> laid_out(file@, ti@, es) && kb == keys_block(es),
            sound ==> 0 <= i <= n && iter.keys_end_pos == key_offset(es, n),
            sound ==> keys_before(es, i, key@),
        ensures
            sound ==> (match found {
                Some(m) => i < n && es[i].0 == key@ && es[i].1 == m@,
                None => i < n ==> lex_lt(key@, es[i].0),
            }),
            goal == looked_up(Ok(found)),
        decreases kb.len() - iter.keys_pos,
    {
        proof {
            reveal(walk);
            lemma_lex_trichotomy(key@, key@);
            lemma_key_entry_bounds(kb, iter.keys_pos as int);
            if sound {
                lemma_cursor_at(es, i);
                if i < n {
                    lemma_value_read(file@, ti@, es, i);
                }
            }
        }
        let next = match iter.next_key() {
            Ok(x) => x,
            Err(e) => {
                return Err(e);
            },
        };
        match next {
            None => {
                break ;
            },
            Some((iter_key, value_offset, value_length)) => {
                match key_order(key, iter_key.as_slice()) {
                    KeyOrder::Less => {
                        break ;
                    },
                    KeyOrder::Equal => {
                        match read_value(file, value_offset, value_length) {
                            Ok(m) => {
                                found = Some(m);
                            },
                            Err(e) => {
                                return Err(e);
                            },
                        }
                        break ;
                    },
                    KeyOrder::Greater => {
                        proof {
                            i = i + 1;
                        }
                    },
                }
            },
        }
    }
    proof {
        if sound {
            if found is Some {
                lemma_find_at(es, i);
            } else {
                lemma_absent(es, key@, i);
            }
        }
    }
    Ok(found)
}

/// Whether a looked-up mutation is what the model says is recorded.
pub open spec fn found_as(m: Option<Mutation>, v: Option<MutationView>) -> bool {
    match m {
        Some(x) => v == Some(x@),
        None => v is None,
    }
}

/// In a sorted run whose first `i` keys come before `key` and whose key
/// `i`, if there is one, comes after it, `key` does not stand.
pub proof fn lemma_absent(es: Seq<Item>, key: Seq<u8>, i: int)
    requires
        sorted(es),
        0 <= i <= es.len(),
        forall|j: int| 0 <= j < i ==> lex_lt(#[trigger] es[j].0, key),
        i < es.len() ==> lex_lt(key, es[i].0),
    ensures
        !has_key(es, key),
        find(es, key) is None,
{
    if has_key(es, key) {
        let j = choose|j: int| 0 <= j < es.len() && #[trigger] es[j].0 == key;
        lemma_lex_trichotomy(key, key);
        if j < i {
            assert(lex_lt(es[j].0, key));
        } else if j > i {
            assert(lex_lt(es[i].0, es[j].0));
            lemma_lex_trichotomy(es[i].0, key);
        }
    }
}

impl TableKeysIterator {
    /// Both positions lie inside the keys area.
    spec fn wf(&self) -> bool {
        self.keys_pos <= self.bytes().len() && self.keys_end_pos <= self.bytes().len()
    }

    /// The keys area is that of the table of `es`, the front position is
    /// at entry `lo`, and the back position behind entry `hi - 1`.
    spec fn at_entries(&self, es: Seq<Item>, lo: int, hi: int) -> bool {
        &&& es.len() > 0
        &&& fits(es)
        &&& self.bytes() == keys_block(es)
        &&& 0 <= lo <= hi <= es.len()
        &&& self.keys_pos == key_offset(es, lo)
        &&& self.keys_end_pos == key_offset(es, hi)
    }
}

/// The key offsets of a table ascend with the entries.
proof fn lemma_offsets_ascend(es: Seq<Item>, i: int, j: int)
    requires
        fits(es),
        0 <= i <= j <= es.len(),
    ensures
        key_offset(es, i) <= key_offset(es, j),
        i < j ==> key_offset(es, i) < key_offset(es, j),
        key_offset(es, j) < keys_block(es).len(),
{
    reveal(keys_block);
    lemma_areas_monotonic(es, i, j);
    lemma_areas_monotonic(es, j, es.len() as int);
    if i < j {
        lemma_table_layout(es, i);
        lemma_areas_monotonic(es, i + 1, j);
    }
    if j < es.len() {
        lemma_table_layout(es, j);
    } else if j > 0 {
        lemma_table_layout(es, j - 1);
    }
}

/// Moves the front position to the first key over the lower bound.
fn advance_past_lower_bound(
    iter: &mut TableKeysIterator,
    lower: &Bound<Buf>,
    Ghost(es): Ghost<Seq<Item>>,
) -> (r: Result<(), Error>)
    requires
        old(iter).wf(),
    ensures
        final(iter).wf(),
        final(iter).keys == old(iter).keys,
        final(iter).keys_end_pos == old(iter).keys_end_pos,
        sorted(es) && old(iter).at_entries(es, 0, es.len() as int) ==> r is Ok
            && final(iter).at_entries(es, lower_index(es, *lower), es.len() as int),
{
    let ghost sound = sorted(es) && iter.at_entries(es, 0, es.len() as int);
    let ghost n = es.len() as int;
    let ghost kb = iter.bytes();
    let ghost mut i: int = 0;
    let ghost whole = Interval { lower: *lower, upper: *lower };
    proof {
        if sound {
            lemma_bound_indices(es, whole);
        }
    }
    loop
        invariant_except_break
            sound ==> iter.at_entries(es, i, n),
            sound ==> i <= lower_index(es, *lower),
        invariant
            iter.wf(),
            iter.bytes() == kb,
            iter.keys == old(iter).keys,
            iter.keys_end_pos == old(iter).keys_end_pos,
            n == es.len(),
            sound == (sorted(es) && old(iter).at_entries(es, 0, es.len() as int)),
            sound ==> sorted(es),
            sound ==> 0 <= lower_index(es, *lower) <= n,
            sound ==> forall|j: int|
                0 <= j < n ==> (over_lower(#[trigger] es[j].0, *lower) <==> lower_index(es, *lower)
                    <= j),
        ensures
            sound ==> iter.at_entries(es, lower_index(es, *lower), n),
        decreases kb.len() - iter.keys_pos,
    {
        proof {
            lemma_key_entry_bounds(kb, iter.keys_pos as int);
            if sound {
                lemma_cursor_at(es, i);
            }
        }
        let is_over: bool = match iter.current_key() {
            Ok(Some((key, _, _))) => above_lower_bound(key, lower),
            Ok(None) => {
                break ;
            },
            Err(e) => {
                return Err(e);
            },
        };
        if is_over {
            break ;
        }
        match iter.step_key() {
            Ok(_) => {},
            Err(e) => {
                return Err(e);
            },
        }
        proof {
            i = i + 1;
        }
    }
    Ok(())
}

/// Moves the back position behind the last key under the upper bound, but
/// not before the front position.
fn advance_before_upper_bound(
    iter: &mut TableKeysIterator,
    upper: &Bound<Buf>,
    Ghost(es): Ghost<Seq<Item>>,
    Ghost(lo): Ghost<int>,
) -> (r: Result<(), Error>)
    requires
        old(iter).wf(),
    ensures
        final(iter).wf(),
        final(iter).keys == old(iter).keys,
        final(iter).keys_pos == old(iter).keys_pos,
        sorted(es) && old(iter).at_entries(es, lo, es.len() as int) ==> r is Ok
            && final(iter).at_entries(
            es,
            lo,
            if upper_index(es, *upper) < lo {
                lo
            } else {
                upper_index(es, *upper)
            },
        ),
{
    let ghost sound = sorted(es) && iter.at_entries(es, lo, es.len() as int);
    let ghost n = es.len() as int;
    let ghost kb = iter.bytes();
    let ghost mut h: int = n;
    let ghost whole = Interval { lower: *upper, upper: *upper };
    proof {
        if sound {
            lemma_bound_indices(es, whole);
        }
    }
    loop
        invariant_except_break
            sound ==> iter.at_entries(es, lo, h),
            sound ==> upper_index(es, *upper) <= h,
        invariant
            iter.wf(),
            iter.bytes() == kb,
            iter.keys == old(iter).keys,
            iter.keys_pos == old(iter).keys_pos,
            n == es.len(),
            sound == (sorted(es) && old(iter).at_entries(es, lo, es.len() as int)),
            sound ==> sorted(es) && fits(es) && n > 0 && kb == keys_block(es) && 0 <= lo <= n,
            sound ==> 0 <= upper_index(es, *upper) <= n,
            sound ==> forall|j: int|
                0 <= j < n ==> (under_upper(#[trigger] es[j].0, *upper) <==> j < upper_index(
                    es,
                    *upper,
                )),
        ensures
            sound ==> iter.at_entries(
                es,
                lo,
                if upper_index(es, *upper) < lo {
                    lo
                } else {
                    upper_index(es, *upper)
                },
            ),
        decreases iter.keys_end_pos,
    {
        let pos = iter.save_pos();
        proof {
            if sound {
                lemma_cursor_at(es, h);
                lemma_offsets_ascend(es, lo, h);
                if h > 0 {
                    lemma_cursor_at(es, h - 1);
                    lemma_offsets_ascend(es, h - 1, h);
                    if lo < h {
                        lemma_offsets_ascend(es, lo, h - 1);
                    }
                }
            }
        }
        match iter.step_back_key() {
            Ok(true) => {},
            Ok(false) => {
                break ;
            },
            Err(e) => {
                return Err(e);
            },
        }
        let is_under: bool = match TableKeysIterator::help_current_key(
            shared_buffer(&iter.keys).as_slice(),
            iter.keys_end_pos,
            pos.keys_end_pos,
        ) {
            Ok(Some((key, _, _))) => below_upper_bound(key, upper),
            Ok(None) => {
                return mk_err("current_key after step_back_key");
            },
            Err(e) => {
                return Err(e);
            },
        };
        if is_under {
            iter.keys_pos = pos.keys_pos;
            iter.keys_end_pos = pos.keys_end_pos;
            break ;
        }
        proof {
            h = h - 1;
        }
    }
    Ok(())
}

/// Reading, in the rest of the values area from `offset` on, the bytes that
/// the key entry of entry `k` points to gives the mutation of that entry.
pub proof fn lemma_value_in_rest(es: Seq<Item>, k: int, offset: int)
    requires
        fits(es),
        0 <= k < es.len(),
        0 <= offset <= value_offset(es, k),
    ensures
        read_value_spec(
            values_area(es, es.len() as int).skip(offset),
            (value_offset(es, k) - offset) as u64,
            mutation_bytes(es[k].1).len() as u64,
        ) == Some(es[k].1),
{
    reveal(read_value_spec);
    lemma_value_decodes(es, k);
    lemma_table_layout(es, k);
    let v = values_area(es, es.len() as int);
    let a = value_offset(es, k);
    let b = a + mutation_bytes(es[k].1).len();
    assert(v.skip(offset).subrange(a - offset, b - offset) =~= v.subrange(a, b));
}

/// A cursor over the entries of a table inside an interval, in either
/// direction. It holds the keys area of the table, and the part of the
/// values area from the first entry inside the interval on.
pub struct TableIterator {
    keys_iter: TableKeysIterator,
    // The values area from `offset_of_values_buf` on: offsets into it are
    // offsets into the table file less `offset_of_values_buf`.
    values_buf: Vec<u8>,
    offset_of_values_buf: u64,
    direction: Direction,
    items: Ghost<Seq<Item>>,
    lo: Ghost<int>,
    hi: Ghost<int>,
}

impl TableIterator {
    /// A cursor on the first entry inside `interval`, seen in the given
    /// direction, of the table that `ti` describes. Of a sound table it
    /// yields the entries inside the interval. It fails where the keys area
    /// cannot be loaded, or has no tail.
    pub fn make(dir: &Directory, ti: &TableInfo, interval: &Interval<Buf>, direction: Direction) -> (r:
        Result<TableIterator, Error>)
        ensures
            r matches Ok(it) ==> it.inv() && it.budget() <= 2 * dir@.tables[ti.id.0].len(),
            !dir@.tables.contains_key(ti.id.0) ==> r is Err,
            !loads(dir@, ti@) ==> r is Err,
            ({
                let kb = keys_area(dir@.tables[ti.id.0], ti@);
                loads(dir@, ti@) && (kb.len() == 0 || kb.len() < 1 + kb.last()) ==> r is Err
            }),
            dir@.tables.contains_key(ti.id.0) && is_table(dir@.tables[ti.id.0], ti@) ==> r is Ok
                && r->Ok_0.valid() && r->Ok_0.remaining() == (match direction {
                Direction::Forward => range_entries(
                    table_items(dir@.tables[ti.id.0], ti@),
                    *interval,
                ),
                Direction::Backward => range_entries(
                    table_items(dir@.tables[ti.id.0], ti@),
                    *interval,
                ).reverse(),
            }),
    {
        let (f, keys_buf) = match load_table_keys_buf(dir, ti) {
            Ok(t) => t,
            Err(e) => {
                proof {
                    if dir@.tables.contains_key(ti.id.0) && is_table(dir@.tables[ti.id.0], ti@) {
                        lemma_table_parts(
                            dir@.tables[ti.id.0],
                            ti@,
                            table_items(dir@.tables[ti.id.0], ti@),
                        );
                    }
                }
                return Err(e);
            },
        };
        let ghost sound = is_table(f@, ti@);
        let ghost es = table_items(f@, ti@);
        let ghost n = es.len() as int;
        proof {
            if sound {
                lemma_table_parts(f@, ti@, es);
                lemma_keys_tail(es);
                lemma_cursor_at(es, 0);
                lemma_bound_indices(es, *interval);
            }
        }
        let mut keys_iter = match TableKeysIterator::whole_table(share_buffer(Rc::new(keys_buf))) {
            Ok(it) => it,
            Err(e) => {
                return Err(e);
            },
        };
        match advance_past_lower_bound(&mut keys_iter, &interval.lower, Ghost(es)) {
            Ok(_) => {},
            Err(e) => {
                return Err(e);
            },
        }
        let ghost lo = lower_index(es, interval.lower);
        match advance_before_upper_bound(&mut keys_iter, &interval.upper, Ghost(es), Ghost(lo)) {
            Ok(_) => {},
            Err(e) => {
                return Err(e);
            },
        }
        let ghost hi = range_end(es, *interval);
        proof {
            if sound {
                lemma_cursor_at(es, lo);
                lemma_offsets_ascend(es, lo, hi);
                if lo < n {
                    lemma_value_read(f@, ti@, es, lo);
                }
            }
        }
        let first: Option<u64> = match keys_iter.current_key() {
            Ok(Some((_, value_offset, _))) => Some(value_offset),
            Ok(None) => None,
            Err(e) => {
                return Err(e);
            },
        };
        match first {
            Some(value_offset) => {
                if ti.keys_offset < value_offset {
                    return mk_err("bad value_offset");
                }
                let length: usize = match try_into_size(ti.keys_offset - value_offset) {
                    Some(x) => x,
                    None => {
                        return mk_err("bad value_offset");
                    },
                };
                let values_buf: Vec<u8> = match read_exact(f, value_offset, length) {
                    Ok(x) => x,
                    Err(e) => {
                        return Err(e);
                    },
                };
                let it = TableIterator {
                    keys_iter: keys_iter,
                    values_buf: values_buf,
                    offset_of_values_buf: value_offset,
                    direction: direction,
                    items: Ghost(es),
                    lo: Ghost(lo),
                    hi: Ghost(hi),
                };
                proof {
                    if sound {
                        assert(it.values_buf@ =~= values_area(es, n).skip(value_offset as int));
                        assert(it.remaining() == (match direction {
                            Direction::Forward => range_entries(es, *interval),
                            Direction::Backward => range_entries(es, *interval).reverse(),
                        }));
                    }
                }
                Ok(it)
            },
            None => {
                let it = TableIterator {
                    keys_iter: keys_iter,
                    // No entry is inside the interval, so these are never used.
                    values_buf: Vec::new(),
                    offset_of_values_buf: 0,
                    direction: direction,
                    items: Ghost(es),
                    lo: Ghost(lo),
                    hi: Ghost(hi),
                };
                proof {
                    if sound {
                        assert(it.remaining() == (match direction {
                            Direction::Forward => range_entries(es, *interval),
                            Direction::Backward => range_entries(es, *interval).reverse(),
                        }));
                    }
                }
                Ok(it)
            },
        }
    }

    /// Where a valid cursor that goes forward stands.
    proof fn lemma_front(&self)
        requires
            self.valid(),
            self.direction == Direction::Forward,
        ensures
            (self.keys_iter.keys_pos == self.keys_iter.keys_end_pos) == (self.remaining().len()
                == 0),
            self.remaining().len() > 0 ==> {
                let e = self.remaining()[0];
                &&& key_entry_at(self.keys_iter.bytes(), self.keys_iter.keys_pos as int)
                    matches Some(v)
                &&& v.key == e.0
                &&& self.offset_of_values_buf <= v.value_offset
                &&& read_value_spec(
                    self.values_buf@,
                    (v.value_offset - self.offset_of_values_buf) as u64,
                    v.value_length,
                ) == Some(e.1)
            },
    {
        let es = self.items@;
        lemma_offsets_ascend(es, self.lo@, self.hi@);
        if self.lo@ < self.hi@ {
            lemma_cursor_at(es, self.lo@);
            lemma_table_layout(es, self.lo@);
            lemma_value_in_rest(es, self.lo@, self.offset_of_values_buf as int);
            assert(es.subrange(self.lo@, self.hi@)[0] == es[self.lo@]);
        }
    }

    /// Where a valid cursor that goes backward stands.
    proof fn lemma_back(&self)
        requires
            self.valid(),
            self.direction == Direction::Backward,
        ensures
            (self.keys_iter.keys_pos == self.keys_iter.keys_end_pos) == (self.remaining().len()
                == 0),
            self.remaining().len() > 0 ==> {
                let e = self.remaining()[0];
                &&& back_start(self.keys_iter.bytes(), self.keys_iter.keys_end_pos as int)
                    matches Some(p)
                &&& p >= self.keys_iter.keys_pos
                &&& key_entry_at(self.keys_iter.bytes(), p) matches Some(v)
                &&& v.key == e.0
                &&& self.offset_of_values_buf <= v.value_offset
                &&& read_value_spec(
                    self.values_buf@,
                    (v.value_offset - self.offset_of_values_buf) as u64,
                    v.value_length,
                ) == Some(e.1)
            },
    {
        let es = self.items@;
        lemma_offsets_ascend(es, self.lo@, self.hi@);
        if self.lo@ < self.hi@ {
            lemma_cursor_at(es, self.hi@);
            lemma_cursor_at(es, self.hi@ - 1);
            lemma_offsets_ascend(es, self.lo@, self.hi@ - 1);
            lemma_areas_monotonic(es, self.lo@, self.hi@ - 1);
            lemma_table_layout(es, self.hi@ - 1);
            lemma_value_in_rest(es, self.hi@ - 1, self.offset_of_values_buf as int);
            assert(es.subrange(self.lo@, self.hi@).reverse()[0] == es[self.hi@ - 1]);
        }
    }

    /// The key entry under the cursor: the first between the two positions
    /// when going forward, the last when going backward.
    fn current_entry(&self) -> (r: Result<Option<(&[u8], u64, u64)>, Error>)
        requires
            self.inv(),
        ensures
            self.valid() ==> r is Ok,
            self.valid() ==> (match r->Ok_0 {
                Some(t) => self.remaining().len() > 0 && t.0@ == self.remaining()[0].0
                    && self.offset_of_values_buf <= t.1 && read_value_spec(
                    self.values_buf@,
                    (t.1 - self.offset_of_values_buf) as u64,
                    t.2,
                ) == Some(self.remaining()[0].1),
                None => self.remaining().len() == 0,
            }),
    {
        match self.direction {
            Direction::Forward => {
                proof {
                    if self.valid() {
                        self.lemma_front();
                    }
                }
                self.keys_iter.current_key()
            },
            Direction::Backward => {
                proof {
                    if self.valid() {
                        self.lemma_back();
                    }
                }
                self.keys_iter.current_back_key()
            },
        }
    }
}

impl MutationIterator for TableIterator {
    closed spec fn inv(&self) -> bool {
        self.keys_iter.wf()
    }

    closed spec fn valid(&self) -> bool {
        let es = self.items@;
        &&& self.keys_iter.wf()
        &&& self.keys_iter.at_entries(es, self.lo@, self.hi@)
        &&& self.lo@ < self.hi@ ==> self.offset_of_values_buf <= value_offset(es, self.lo@)
            && self.values_buf@ == values_area(es, es.len() as int).skip(
            self.offset_of_values_buf as int,
        )
    }

    closed spec fn remaining(&self) -> Seq<Item> {
        match self.direction {
            Direction::Forward => self.items@.subrange(self.lo@, self.hi@),
            Direction::Backward => self.items@.subrange(self.lo@, self.hi@).reverse(),
        }
    }

    closed spec fn budget(&self) -> nat {
        (self.keys_iter.bytes().len() - self.keys_iter.keys_pos + self.keys_iter.keys_end_pos) as nat
    }

    fn current_key(&self) -> (r: Result<Option<&[u8]>, Error>) {
        match self.current_entry() {
            Ok(Some((k, _, _))) => Ok(Some(k)),
            Ok(None) => Ok(None),
            Err(e) => Err(e),
        }
    }

    fn current_value(&mut self) -> (r: Result<Mutation, Error>) {
        match self.current_entry() {
            Ok(Some((_, value_offset, value_length))) => {
                if value_offset < self.offset_of_values_buf {
                    return mk_err("bad value offset/length");
                }
                let value_rel_offset: u64 = value_offset - self.offset_of_values_buf;
                read_value(self.values_buf.as_slice(), value_rel_offset, value_length)
            },
            Ok(None) => mk_err("current_value called on empty TableIterator"),
            Err(e) => Err(e),
        }
    }

    fn step(&mut self) -> (r: Result<(), Error>) {
        match self.direction {
            Direction::Forward => {
                proof {
                    if self.valid() {
                        self.lemma_front();
                        lemma_cursor_at(self.items@, self.lo@);
                    }
                }
                if self.keys_iter.keys_pos == self.keys_iter.keys_end_pos {
                    return mk_err("cannot step forward in TableIterator");
                }
                match self.keys_iter.step_key() {
                    Ok(_) => {
                        proof {
                            if old(self).valid() {
                                let es = self.items@;
                                lemma_areas_monotonic(es, self.lo@, self.lo@ + 1);
                                self.lo@ = self.lo@ + 1;
                                assert(self.remaining() =~= old(self).remaining().skip(1));
                            }
                        }
                        Ok(())
                    },
                    Err(e) => Err(e),
                }
            },
            Direction::Backward => {
                proof {
                    if self.valid() {
                        self.lemma_back();
                        lemma_cursor_at(self.items@, self.hi@);
                    }
                }
                match self.keys_iter.step_back_key() {
                    Ok(true) => {
                        proof {
                            if old(self).valid() {
                                self.hi@ = self.hi@ - 1;
                                assert(self.remaining() =~= old(self).remaining().skip(1));
                            }
                        }
                        Ok(())
                    },
                    Ok(false) => mk_err("cannot step backward in TableIterator"),
                    Err(e) => Err(e),
                }
            },
        }
    }
}

} // verus!

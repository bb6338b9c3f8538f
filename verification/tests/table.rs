use lsm_kv::directory::Directory;
use lsm_kv::disk::{lookup_table, TableBuilder, TableIterator};
use lsm_kv::iter::{Direction, MutationIterator};
use lsm_kv::toc::TableInfo;
use lsm_kv::util::{Interval, Mutation, TableId};
use std::collections::Bound;

fn sample_table() -> (Directory, TableInfo) {
    let mut b = TableBuilder::new();
    assert!(b.is_empty());
    b.add_mutation(b"a", &Mutation::Put(b"alpha".to_vec()));
    b.add_mutation(b"b", &Mutation::Delete);
    b.add_mutation(b"c", &Mutation::Put(b"charlie".to_vec()));
    assert!(!b.is_empty());
    let mut file: Vec<u8> = Vec::new();
    let (keys_offset, file_size, smallest, biggest) = b.finish(&mut file);
    assert_eq!(file.len() as u64, file_size);
    assert_eq!(b"a".to_vec(), smallest);
    assert_eq!(b"c".to_vec(), biggest);
    let mut dir = Directory::new();
    dir.create_table(TableId(7), file);
    let ti = TableInfo {
        id: TableId(7),
        level: 0,
        keys_offset: keys_offset,
        file_size: file_size,
        smallest_key: smallest,
        biggest_key: biggest,
    };
    (dir, ti)
}

fn is_put(m: &Option<Mutation>, v: &[u8]) -> bool {
    match m {
        Some(Mutation::Put(x)) => x.as_slice() == v,
        _ => false,
    }
}

#[test]
fn table_lookup_finds_every_key() {
    let (dir, ti) = sample_table();
    assert!(is_put(&lookup_table(&dir, &ti, b"a").unwrap(), b"alpha"));
    assert!(matches!(lookup_table(&dir, &ti, b"b").unwrap(), Some(Mutation::Delete)));
    assert!(is_put(&lookup_table(&dir, &ti, b"c").unwrap(), b"charlie"));
    assert!(lookup_table(&dir, &ti, b"").unwrap().is_none());
    assert!(lookup_table(&dir, &ti, b"ab").unwrap().is_none());
    assert!(lookup_table(&dir, &ti, b"d").unwrap().is_none());
}

fn drain(it: &mut TableIterator) -> Vec<(Vec<u8>, bool)> {
    let mut out = Vec::new();
    loop {
        let key = match it.current_key().unwrap() {
            Some(k) => k.to_vec(),
            None => break,
        };
        let is_put = matches!(it.current_value().unwrap(), Mutation::Put(_));
        out.push((key, is_put));
        it.step().unwrap();
    }
    out
}

#[test]
fn table_iterates_forward_and_backward() {
    let (dir, ti) = sample_table();
    let all = Interval { lower: Bound::Unbounded, upper: Bound::Unbounded };
    let mut f = TableIterator::make(&dir, &ti, &all, Direction::Forward).unwrap();
    assert_eq!(
        vec![(b"a".to_vec(), true), (b"b".to_vec(), false), (b"c".to_vec(), true)],
        drain(&mut f)
    );
    assert!(f.step().is_err());
    assert!(f.current_value().is_err());
    let mut b = TableIterator::make(&dir, &ti, &all, Direction::Backward).unwrap();
    assert_eq!(
        vec![(b"c".to_vec(), true), (b"b".to_vec(), false), (b"a".to_vec(), true)],
        drain(&mut b)
    );
    assert!(b.step().is_err());
}

#[test]
fn table_iterator_respects_bounds() {
    let (dir, ti) = sample_table();
    let iv = Interval { lower: Bound::Excluded(b"a".to_vec()), upper: Bound::Included(b"c".to_vec()) };
    let mut f = TableIterator::make(&dir, &ti, &iv, Direction::Forward).unwrap();
    assert_eq!(vec![(b"b".to_vec(), false), (b"c".to_vec(), true)], drain(&mut f));
    let iv2 = Interval { lower: Bound::Included(b"a".to_vec()), upper: Bound::Excluded(b"c".to_vec()) };
    let mut g = TableIterator::make(&dir, &ti, &iv2, Direction::Backward).unwrap();
    assert_eq!(vec![(b"b".to_vec(), false), (b"a".to_vec(), true)], drain(&mut g));
    let none = Interval { lower: Bound::Excluded(b"c".to_vec()), upper: Bound::Unbounded };
    let mut h = TableIterator::make(&dir, &ti, &none, Direction::Forward).unwrap();
    assert!(drain(&mut h).is_empty());
    // A forward cursor at an upper bound inside the table does not run on.
    let low = Interval { lower: Bound::Unbounded, upper: Bound::Included(b"a".to_vec()) };
    let mut k = TableIterator::make(&dir, &ti, &low, Direction::Forward).unwrap();
    assert_eq!(vec![(b"a".to_vec(), true)], drain(&mut k));
    assert!(k.step().is_err());
}

#[test]
fn table_file_exact_bytes() {
    let mut b = TableBuilder::new();
    b.add_mutation(b"k", &Mutation::Put(b"v".to_vec()));
    assert_eq!(3 + 5 + 8, b.lowerbound_file_size());
    let mut file: Vec<u8> = Vec::new();
    let (keys_offset, file_size, _, _) = b.finish(&mut file);
    assert_eq!(3, keys_offset);
    assert_eq!(
        vec![
            0u8, 1, b'v', // the mutation
            0, 0, 3, 1, b'k', // the key entry
            5, 1, // the length of the last key entry, and the bytes of that length
            3, 0, 0, 0, 0, 0, 0, 0, // the keys offset
        ],
        file
    );
    assert_eq!(18, file_size);
}

#[test]
fn missing_table_file_is_an_error() {
    let (_, ti) = sample_table();
    let dir = Directory::new();
    assert!(lookup_table(&dir, &ti, b"a").is_err());
    let all = Interval { lower: Bound::Unbounded, upper: Bound::Unbounded };
    assert!(TableIterator::make(&dir, &ti, &all, Direction::Forward).is_err());
}

#[test]
fn corrupt_table_file_does_not_panic() {
    let (mut dir, ti) = sample_table();
    let mut file = dir.table(TableId(7)).unwrap().to_vec();
    for i in 0..file.len() {
        let saved = file[i];
        file[i] = saved ^ 0xff;
        dir.create_table(TableId(7), file.clone());
        let _ = lookup_table(&dir, &ti, b"b");
        let all = Interval { lower: Bound::Unbounded, upper: Bound::Unbounded };
        if let Ok(mut it) = TableIterator::make(&dir, &ti, &all, Direction::Backward) {
            for _ in 0..10 {
                let _ = it.current_key();
                let _ = it.current_value();
                if it.step().is_err() {
                    break;
                }
            }
        }
        file[i] = saved;
    }
}

#[test]
fn a_table_whose_keys_area_cannot_be_loaded_is_an_error() {
    let all = Interval { lower: Bound::Unbounded, upper: Bound::Unbounded };
    // The file is shorter than what is recorded of the table.
    let (dir, ti) = sample_table();
    let longer = TableInfo { file_size: ti.file_size + 9, ..ti.clone() };
    assert!(lookup_table(&dir, &longer, b"a").is_err());
    assert!(TableIterator::make(&dir, &longer, &all, Direction::Forward).is_err());
    // The keys area would start behind the end of the file.
    let behind = TableInfo { keys_offset: ti.file_size, ..ti.clone() };
    assert!(lookup_table(&dir, &behind, b"a").is_err());
    assert!(TableIterator::make(&dir, &behind, &all, Direction::Backward).is_err());
    // The keys area is empty, so that it has no tail.
    let empty = TableInfo { keys_offset: ti.file_size - 8, ..ti.clone() };
    assert!(lookup_table(&dir, &empty, b"a").is_err());
    assert!(TableIterator::make(&dir, &empty, &all, Direction::Forward).is_err());
}

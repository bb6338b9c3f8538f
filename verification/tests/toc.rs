use lsm_kv::directory::Directory;
use lsm_kv::toc::{
    add_table, append_toc, create_toc, decode_entry, decode_table_info, encode_entry,
    encode_table_info, process_entry, read_toc, remove_table, validate_toc, Entry, TableInfo, Toc,
};
use lsm_kv::util::TableId;

fn info(id: u64, level: u64, size: u64) -> TableInfo {
    TableInfo {
        id: TableId(id),
        level: level,
        keys_offset: 3,
        file_size: size,
        smallest_key: b"a".to_vec(),
        biggest_key: b"c".to_vec(),
    }
}

fn same(a: &TableInfo, b: &TableInfo) -> bool {
    a.id == b.id
        && a.level == b.level
        && a.keys_offset == b.keys_offset
        && a.file_size == b.file_size
        && a.smallest_key == b.smallest_key
        && a.biggest_key == b.biggest_key
}

#[test]
fn table_info_exact_bytes_and_round_trip() {
    let mut v: Vec<u8> = Vec::new();
    encode_table_info(&mut v, &info(9, 0, 18));
    assert_eq!(vec![9u8, 0, 3, 18, 1, b'a', 1, b'c'], v);
    let mut pos: usize = 0;
    let t = decode_table_info(&v, &mut pos).unwrap();
    assert_eq!(v.len(), pos);
    assert!(same(&t, &info(9, 0, 18)));
    let mut short: usize = 0;
    assert!(decode_table_info(&v[..7], &mut short).is_none());
}

#[test]
fn entry_record_exact_bytes() {
    let empty = Entry { removals: vec![], additions: vec![] };
    assert_eq!(vec![2u8, 0, 0, 0, 0, 0, 0, 0, 210, 119, 97, 241, 0, 0], encode_entry(&empty));
    let e = Entry { removals: vec![TableId(7)], additions: vec![info(9, 0, 18)] };
    assert_eq!(
        vec![11u8, 0, 0, 0, 0, 0, 0, 0, 174, 175, 79, 77, 1, 7, 1, 9, 0, 3, 18, 1, b'a', 1, b'c'],
        encode_entry(&e)
    );
}

#[test]
fn entry_round_trip() {
    let e = Entry {
        removals: vec![TableId(1), TableId(300)],
        additions: vec![info(301, 1, 40), info(302, 1, 50)],
    };
    let mut buf: Vec<u8> = vec![0xee];
    buf.extend(encode_entry(&e));
    buf.push(0xdd);
    let mut pos: usize = 1;
    let d = decode_entry(&buf, &mut pos).unwrap();
    assert_eq!(buf.len() - 1, pos);
    assert_eq!(vec![TableId(1), TableId(300)], d.removals);
    assert_eq!(2, d.additions.len());
    assert!(same(&d.additions[0], &info(301, 1, 40)));
    assert!(same(&d.additions[1], &info(302, 1, 50)));
}

#[test]
fn entry_with_flipped_byte_is_rejected() {
    let e = Entry { removals: vec![TableId(7)], additions: vec![info(9, 0, 18)] };
    let good = encode_entry(&e);
    for i in 0..good.len() {
        let mut bad = good.clone();
        bad[i] ^= 0x01;
        let mut pos: usize = 0;
        assert!(decode_entry(&bad, &mut pos).is_none());
        assert_eq!(0, pos);
    }
}

#[test]
fn torn_entry_is_rejected() {
    let e = Entry { removals: vec![], additions: vec![info(9, 0, 18)] };
    let good = encode_entry(&e);
    for cut in 0..good.len() {
        let mut pos: usize = 0;
        assert!(decode_entry(&good[..cut], &mut pos).is_none());
        assert_eq!(0, pos);
    }
}

#[test]
fn toc_adds_and_removes_tables() {
    let mut toc = Toc::new();
    assert_eq!(0, toc.next_table_id);
    assert!(add_table(&mut toc, info(5, 0, 18)));
    assert_eq!(6, toc.next_table_id);
    assert!(!add_table(&mut toc, info(5, 1, 18)));
    assert!(!add_table(&mut toc, info(u64::MAX, 0, 18)));
    assert!(add_table(&mut toc, info(2, 1, 18)));
    assert_eq!(6, toc.next_table_id);
    assert_eq!(vec![0u64, 1], toc.levels());
    assert_eq!(vec![5u64], toc.tables_at(0));
    assert_eq!(vec![2u64], toc.tables_at(1));
    assert!(toc.tables_at(2).is_empty());
    assert!(toc.info(5).is_some());
    assert!(toc.info(6).is_none());
    assert!(remove_table(&mut toc, 5));
    assert!(!remove_table(&mut toc, 5));
    assert!(toc.tables_at(0).is_empty());
    // A level stays known when its last table has left.
    assert_eq!(vec![0u64, 1], toc.levels());
}

#[test]
fn process_entry_removes_then_adds() {
    let mut toc = Toc::new();
    assert!(add_table(&mut toc, info(1, 0, 18)));
    // The same number leaves level 0 and enters level 1.
    let moved = Entry { removals: vec![TableId(1)], additions: vec![info(1, 1, 18)] };
    assert!(process_entry(&mut toc, moved));
    assert_eq!(1, toc.info(1).unwrap().level);
    let absent = Entry { removals: vec![TableId(4)], additions: vec![] };
    assert!(!process_entry(&mut toc, absent));
    let twice = Entry { removals: vec![], additions: vec![info(8, 0, 18), info(8, 0, 18)] };
    assert!(!process_entry(&mut toc, twice));
}

fn dir_with(tables: &[(u64, usize)]) -> Directory {
    let mut dir = Directory::new();
    for (id, len) in tables {
        dir.create_table(TableId(*id), vec![0u8; *len]);
    }
    dir
}

#[test]
fn append_then_read_gives_the_same_toc() {
    let mut dir = dir_with(&[(0, 18), (1, 20), (2, 30)]);
    create_toc(&mut dir);
    let mut toc = Toc::new();
    let gone = append_toc(
        &mut toc,
        &mut dir,
        Entry { removals: vec![], additions: vec![info(0, 0, 18), info(1, 0, 20)] },
    )
    .unwrap();
    assert!(gone.is_empty());
    let gone = append_toc(
        &mut toc,
        &mut dir,
        Entry { removals: vec![TableId(0)], additions: vec![info(2, 1, 30)] },
    )
    .unwrap();
    assert_eq!(vec![TableId(0)], gone);
    let gone = append_toc(
        &mut toc,
        &mut dir,
        Entry { removals: vec![TableId(1)], additions: vec![info(1, 1, 20)] },
    )
    .unwrap();
    assert!(gone.is_empty());
    assert!(dir.remove_table(TableId(0)));
    assert!(validate_toc(&toc, &dir));
    let log_len = dir.toc.len();
    let read = read_toc(&mut dir).unwrap();
    assert_eq!(log_len, dir.toc.len());
    assert_eq!(3, read.next_table_id);
    assert!(read.tables_at(0).is_empty());
    assert_eq!(vec![1u64, 2], read.tables_at(1));
    assert!(same(read.info(2).unwrap(), &info(2, 1, 30)));
}

#[test]
fn append_of_a_change_that_does_not_apply_is_an_error() {
    let mut dir = Directory::new();
    let mut toc = Toc::new();
    let r = append_toc(&mut toc, &mut dir, Entry { removals: vec![TableId(3)], additions: vec![] });
    assert!(r.is_err());
    assert!(dir.toc.is_empty());
}

#[test]
fn read_toc_cuts_a_torn_tail() {
    let mut dir = dir_with(&[(0, 18)]);
    let mut toc = Toc::new();
    append_toc(&mut toc, &mut dir, Entry { removals: vec![], additions: vec![info(0, 0, 18)] })
        .unwrap();
    let whole = dir.toc.len();
    let next = encode_entry(&Entry { removals: vec![], additions: vec![info(1, 0, 18)] });
    dir.append_toc(&next[..next.len() - 1]);
    let read = read_toc(&mut dir).unwrap();
    assert_eq!(whole, dir.toc.len());
    assert_eq!(vec![0u64], read.tables_at(0));
    assert_eq!(1, read.next_table_id);
}

#[test]
fn read_toc_leaves_out_a_record_with_a_wrong_checksum_and_all_behind_it() {
    let mut dir = dir_with(&[(0, 18), (1, 18), (2, 18)]);
    let mut toc = Toc::new();
    append_toc(&mut toc, &mut dir, Entry { removals: vec![], additions: vec![info(0, 0, 18)] })
        .unwrap();
    let first = dir.toc.len();
    append_toc(&mut toc, &mut dir, Entry { removals: vec![], additions: vec![info(1, 0, 18)] })
        .unwrap();
    append_toc(&mut toc, &mut dir, Entry { removals: vec![], additions: vec![info(2, 0, 18)] })
        .unwrap();
    // A byte of the payload of the second record.
    dir.toc[first + 13] ^= 0x40;
    let read = read_toc(&mut dir).unwrap();
    assert_eq!(first, dir.toc.len());
    assert_eq!(vec![0u64], read.tables_at(0));
}

#[test]
fn read_toc_checks_the_table_files() {
    let mut dir = dir_with(&[(0, 17)]);
    let mut toc = Toc::new();
    append_toc(&mut toc, &mut dir, Entry { removals: vec![], additions: vec![info(0, 0, 18)] })
        .unwrap();
    assert!(!validate_toc(&toc, &dir));
    let e = read_toc(&mut dir).err().unwrap();
    assert_eq!("invalid toc", e.msg());
    let mut none = Directory::new();
    none.append_toc(&dir.toc);
    assert!(read_toc(&mut none).is_err());
}

#[test]
fn read_toc_refuses_a_sound_record_that_cannot_be_applied() {
    let mut dir = Directory::new();
    dir.append_toc(&encode_entry(&Entry { removals: vec![TableId(5)], additions: vec![] }));
    let before = dir.toc.clone();
    assert!(read_toc(&mut dir).is_err());
    assert_eq!(before, dir.toc);
}

#[test]
fn empty_log_is_an_empty_toc() {
    let mut dir = Directory::new();
    create_toc(&mut dir);
    let toc = read_toc(&mut dir).unwrap();
    assert!(toc.levels().is_empty());
    assert_eq!(0, toc.next_table_id);
}

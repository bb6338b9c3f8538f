use lsm_kv::directory::Directory;
use lsm_kv::disk::TableBuilder;
use lsm_kv::store::Store;
use lsm_kv::toc::{append_toc, Entry, TableInfo, Toc};
use lsm_kv::util::{Interval, Mutation, TableId};
use std::collections::Bound;

fn fresh(threshold: usize) -> Store {
    Store::open(Store::create(), threshold).unwrap()
}

fn put_all(kv: &mut Store, keys: &[&str]) {
    for k in keys {
        kv.put(k.as_bytes(), k.as_bytes()).unwrap();
    }
}

fn ranges(kv: &Store, level: u64) -> Vec<(u64, String, String)> {
    kv.toc
        .tables_at(level)
        .iter()
        .map(|id| {
            let t = kv.toc.info(*id).unwrap();
            (
                *id,
                String::from_utf8(t.smallest_key.clone()).unwrap(),
                String::from_utf8(t.biggest_key.clone()).unwrap(),
            )
        })
        .collect()
}

fn scan(kv: &Store, interval: &Interval<Vec<u8>>, descending: bool) -> Vec<(String, String)> {
    let mut it = if descending {
        kv.range_descending(interval).unwrap()
    } else {
        kv.range(interval).unwrap()
    };
    let mut out = Vec::new();
    while let Some((k, v)) = kv.next(&mut it).unwrap() {
        out.push((String::from_utf8(k).unwrap(), String::from_utf8(v).unwrap()));
    }
    out
}

fn all() -> Interval<Vec<u8>> {
    Interval { lower: Bound::Unbounded, upper: Bound::Unbounded }
}

#[test]
fn flush_of_an_empty_store_leaves_no_table() {
    let mut kv = fresh(100);
    kv.flush().unwrap();
    assert!(kv.toc.levels().is_empty());
    assert_eq!(0, kv.toc.next_table_id);
    assert!(kv.directory.toc.is_empty());
    assert!(kv.directory.tables.is_empty());
    assert_eq!(2, kv.memstores.len());
}

#[test]
fn put_flushes_when_usage_reaches_the_threshold() {
    let mut kv = fresh(20);
    kv.put(b"a", b"b").unwrap();
    assert_eq!(10, kv.memstores[0].mem_usage);
    assert!(kv.directory.tables.is_empty());
    kv.put(b"c", b"d").unwrap();
    assert_eq!(0, kv.memstores[0].mem_usage);
    assert!(kv.memstores[0].entries.is_empty());
    assert_eq!(vec![0u64], kv.toc.tables_at(0));
    assert_eq!(1, kv.directory.tables.len());
    assert_eq!(Some(b"b".to_vec()), kv.get(b"a").unwrap());
    assert_eq!(Some(b"d".to_vec()), kv.get(b"c").unwrap());
}

#[test]
fn remove_and_insert_and_replace_say_what_they_did() {
    let mut kv = fresh(1000);
    assert!(!kv.remove(b"k").unwrap());
    assert!(!kv.replace(b"k", b"v0").unwrap());
    assert_eq!(None, kv.get(b"k").unwrap());
    assert!(kv.insert(b"k", b"v1").unwrap());
    assert!(!kv.insert(b"k", b"v2").unwrap());
    assert_eq!(Some(b"v1".to_vec()), kv.get(b"k").unwrap());
    assert!(kv.replace(b"k", b"v3").unwrap());
    assert_eq!(Some(b"v3".to_vec()), kv.get(b"k").unwrap());
    assert!(kv.remove(b"k").unwrap());
    assert_eq!(None, kv.get(b"k").unwrap());
    assert!(!kv.exists_key(b"k").unwrap());
    assert!(!kv.remove(b"k").unwrap());
    // A key that was taken away can be inserted again.
    assert!(kv.insert(b"k", b"v4").unwrap());
    assert_eq!(Some(b"v4".to_vec()), kv.get(b"k").unwrap());
}

#[test]
fn tombstone_masks_older_values_through_flushes_and_merges() {
    let mut kv = fresh(1000);
    kv.put(b"k", b"v").unwrap();
    kv.flush().unwrap();
    assert!(kv.remove(b"k").unwrap());
    kv.flush().unwrap();
    assert_eq!(None, kv.get(b"k").unwrap());
    // More tables over the same keys, until the tables of level 0 are merged.
    for i in 0..6 {
        kv.put(b"j", format!("{}", i).as_bytes()).unwrap();
        kv.flush().unwrap();
        assert_eq!(None, kv.get(b"k").unwrap());
        assert!(!kv.exists_key(b"k").unwrap());
    }
    assert!(!kv.toc.tables_at(1).is_empty());
    assert_eq!(Some(b"5".to_vec()), kv.get(b"j").unwrap());
    assert_eq!(vec![("j".to_string(), "5".to_string())], scan(&kv, &all(), false));
    assert_eq!(vec![("j".to_string(), "5".to_string())], scan(&kv, &all(), true));
}

#[test]
fn reopening_after_a_flush_gives_the_same_state() {
    let mut kv = fresh(1_000_000);
    for i in 0..40 {
        kv.put(format!("key{:02}", i).as_bytes(), format!("v{}", i).as_bytes()).unwrap();
        if i % 16 == 15 {
            kv.flush().unwrap();
        }
    }
    for i in (0..40).step_by(3) {
        assert!(kv.remove(format!("key{:02}", i).as_bytes()).unwrap());
    }
    kv.flush().unwrap();
    assert_eq!(3, kv.toc.tables_at(0).len());
    let before = scan(&kv, &all(), false);
    assert_eq!(26, before.len());
    let mut again = Store::open(kv.directory, 60).unwrap();
    assert_eq!(before, scan(&again, &all(), false));
    for i in 0..40 {
        let key = format!("key{:02}", i);
        let expected = if i % 3 == 0 { None } else { Some(format!("v{}", i).into_bytes()) };
        assert_eq!(expected, again.get(key.as_bytes()).unwrap());
    }
    // What was not flushed is lost.
    again.put(b"late", b"x").unwrap();
    let reopened = Store::open(again.directory, 1000).unwrap();
    assert_eq!(None, reopened.get(b"late").unwrap());
}

#[test]
fn values_survive_flushes_merges_and_reopening() {
    let mut kv = fresh(60);
    for i in 0..40 {
        kv.put(format!("key{:02}", i).as_bytes(), format!("v{}", i).as_bytes()).unwrap();
    }
    for i in (0..40).step_by(3) {
        assert!(kv.remove(format!("key{:02}", i).as_bytes()).unwrap());
    }
    kv.flush().unwrap();
    assert!(kv.toc.tables_at(1).len() > 1);
    let check = |kv: &Store| {
        for i in 0..40 {
            let key = format!("key{:02}", i);
            let expected = if i % 3 == 0 { None } else { Some(format!("v{}", i).into_bytes()) };
            assert_eq!(expected, kv.get(key.as_bytes()).unwrap());
            assert_eq!(i % 3 != 0, kv.exists_key(key.as_bytes()).unwrap());
        }
    };
    check(&kv);
    let again = Store::open(kv.directory, 60).unwrap();
    check(&again);
}

#[test]
fn tables_that_do_not_overlap_move_down_as_they_are() {
    let mut kv = fresh(1_000_000);
    for g in [["a", "b"], ["c", "d"], ["e", "f"], ["g", "h"]] {
        put_all(&mut kv, &g);
        kv.flush().unwrap();
    }
    assert_eq!(vec![0u64, 1, 2, 3], kv.toc.tables_at(0));
    assert!(kv.toc.tables_at(1).is_empty());
    put_all(&mut kv, &["i", "j"]);
    kv.flush().unwrap();
    // All but the newest went down, with their numbers and their files.
    assert_eq!(vec![4u64], kv.toc.tables_at(0));
    assert_eq!(
        vec![
            (0, "a".to_string(), "b".to_string()),
            (1, "c".to_string(), "d".to_string()),
            (2, "e".to_string(), "f".to_string()),
            (3, "g".to_string(), "h".to_string()),
        ],
        ranges(&kv, 1)
    );
    assert_eq!(5, kv.toc.next_table_id);
    assert_eq!(5, kv.directory.tables.len());
    let keys: Vec<String> = scan(&kv, &all(), false).into_iter().map(|p| p.0).collect();
    assert_eq!(vec!["a", "b", "c", "d", "e", "f", "g", "h", "i", "j"], keys);
    let back: Vec<String> = scan(&kv, &all(), true).into_iter().map(|p| p.0).collect();
    assert_eq!(vec!["j", "i", "h", "g", "f", "e", "d", "c", "b", "a"], back);
}

#[test]
fn tables_that_overlap_are_merged_into_new_tables() {
    let mut kv = fresh(1_000_000);
    for (i, g) in [["a", "c"], ["b", "d"], ["c", "e"], ["d", "f"], ["x", "y"]].iter().enumerate() {
        for k in g {
            kv.put(k.as_bytes(), format!("{}{}", k, i).as_bytes()).unwrap();
        }
        kv.flush().unwrap();
    }
    assert_eq!(vec![4u64], kv.toc.tables_at(0));
    assert_eq!(vec![(5, "a".to_string(), "f".to_string())], ranges(&kv, 1));
    assert_eq!(6, kv.toc.next_table_id);
    // The files of the merged tables are gone.
    let mut files: Vec<u64> = kv.directory.tables.keys().cloned().collect();
    files.sort();
    assert_eq!(vec![4u64, 5], files);
    // Of a key in several tables the newest value stays.
    let expected: Vec<(String, String)> = [
        ("a", "a0"), ("b", "b1"), ("c", "c2"), ("d", "d3"), ("e", "e2"), ("f", "f3"), ("x", "x4"),
        ("y", "y4"),
    ]
    .iter()
    .map(|(k, v)| (k.to_string(), v.to_string()))
    .collect();
    assert_eq!(expected, scan(&kv, &all(), false));
}

#[test]
fn a_merge_is_cut_into_tables_by_the_threshold() {
    let mut kv = fresh(40);
    for i in 0..5 {
        // Two entries of 13 bytes in the buffer, 2 * (5 + 8) = 26 bytes and more in a table.
        kv.put(format!("k{}", i).as_bytes(), b"0123").unwrap();
        kv.put(format!("k{}", i + 1).as_bytes(), b"0123").unwrap();
        kv.flush().unwrap();
    }
    let level_one = ranges(&kv, 1);
    assert!(level_one.len() > 1);
    // The new tables follow one another without a key in common.
    for w in level_one.windows(2) {
        assert!(w[0].2 < w[1].1);
    }
    let keys: Vec<String> = scan(&kv, &all(), false).into_iter().map(|p| p.0).collect();
    assert_eq!(vec!["k0", "k1", "k2", "k3", "k4", "k5"], keys);
}

#[test]
fn a_merge_across_a_gap_keeps_every_value() {
    let mut kv = fresh(1_000_000);
    let groups: Vec<Vec<&str>> = vec![
        vec!["m", "n"], vec!["o", "p"], vec!["q", "r"], vec!["s", "t"], vec!["u", "v"],
        vec!["a", "c"], vec!["x", "z"], vec!["b", "c"], vec!["w"],
    ];
    for g in &groups {
        put_all(&mut kv, g);
        kv.flush().unwrap();
    }
    // The new table of level 1 reaches over tables that were not merged.
    assert!(ranges(&kv, 1).contains(&(9, "a".to_string(), "z".to_string())));
    assert!(ranges(&kv, 1).contains(&(0, "m".to_string(), "n".to_string())));
    for g in &groups {
        for k in g {
            assert_eq!(Some(k.as_bytes().to_vec()), kv.get(k.as_bytes()).unwrap());
        }
    }
    assert_eq!(None, kv.get(b"d").unwrap());
    let mut keys: Vec<String> = scan(&kv, &all(), false).into_iter().map(|p| p.0).collect();
    keys.sort();
    let mut expected: Vec<String> =
        groups.iter().flatten().map(|k| k.to_string()).collect::<Vec<_>>();
    expected.sort();
    expected.dedup();
    assert_eq!(expected, keys);
}

fn table(dir: &mut Directory, id: u64, level: u64, keys: &[&str]) -> TableInfo {
    let mut b = TableBuilder::new();
    for k in keys {
        b.add_mutation(k.as_bytes(), &Mutation::Put(format!("{}@{}", k, id).into_bytes()));
    }
    let mut file = Vec::new();
    let (keys_offset, file_size, smallest, biggest) = b.finish(&mut file);
    dir.create_table(TableId(id), file);
    TableInfo {
        id: TableId(id),
        level: level,
        keys_offset: keys_offset,
        file_size: file_size,
        smallest_key: smallest,
        biggest_key: biggest,
    }
}

#[test]
fn a_full_level_gives_the_table_that_overlaps_the_fewest_to_the_next() {
    let mut dir = Store::create();
    let mut toc = Toc::new();
    let upper = vec![
        table(&mut dir, 0, 1, &["a", "c"]),
        table(&mut dir, 1, 1, &["d", "f"]),
        table(&mut dir, 2, 1, &["g", "i"]),
        table(&mut dir, 3, 1, &["j", "l"]),
        table(&mut dir, 4, 1, &["m", "o"]),
    ];
    let lower = vec![
        table(&mut dir, 5, 2, &["a", "b"]),
        table(&mut dir, 6, 2, &["c", "d"]),
        table(&mut dir, 7, 2, &["h"]),
        table(&mut dir, 8, 2, &["n"]),
        table(&mut dir, 9, 3, &["z"]),
    ];
    let mut additions = upper;
    additions.extend(lower);
    append_toc(&mut toc, &mut dir, Entry { removals: vec![], additions: additions }).unwrap();
    let mut kv = Store::make(1_000_000, dir, toc);
    kv.flush().unwrap();
    // Table 0 overlaps two tables of level 2, table 1 one, tables 2 and 4 one each, table 3
    // none: table 3 goes down, as it is.
    assert_eq!(vec![0u64, 1, 2, 4], kv.toc.tables_at(1));
    assert_eq!(vec![3u64, 5, 6, 7, 8], kv.toc.tables_at(2));
    assert_eq!(vec![9u64], kv.toc.tables_at(3));
    assert_eq!(Some(b"j@3".to_vec()), kv.get(b"j").unwrap());
    // No level holds more than it may now: another round moves nothing.
    let log = kv.directory.toc.len();
    kv.flush().unwrap();
    assert_eq!(log, kv.directory.toc.len());
    assert_eq!(vec![0u64, 1, 2, 4], kv.toc.tables_at(1));
    assert_eq!(vec![3u64, 5, 6, 7, 8], kv.toc.tables_at(2));
    for k in ["a", "c", "d", "h", "j", "l", "n", "o", "z"] {
        assert!(kv.get(k.as_bytes()).unwrap().is_some());
    }
    assert_eq!(Some(b"a@0".to_vec()), kv.get(b"a").unwrap());
    assert_eq!(Some(b"b@5".to_vec()), kv.get(b"b").unwrap());
    assert_eq!(Some(b"c@0".to_vec()), kv.get(b"c").unwrap());
}

#[test]
fn the_deepest_level_is_never_emptied() {
    let mut dir = Store::create();
    let mut toc = Toc::new();
    let mut additions = Vec::new();
    for i in 0..6u64 {
        let k = format!("k{}", i);
        additions.push(table(&mut dir, i, 1, &[k.as_str()]));
    }
    append_toc(&mut toc, &mut dir, Entry { removals: vec![], additions: additions }).unwrap();
    let mut kv = Store::make(1_000_000, dir, toc);
    kv.flush().unwrap();
    assert_eq!(6, kv.toc.tables_at(1).len());
    assert!(kv.toc.tables_at(2).is_empty());
}

#[test]
fn scans_pass_over_tombstones_and_stop_at_their_bounds() {
    let mut kv = fresh(30);
    for k in ["a", "b", "c", "d", "e", "f", "g"] {
        kv.put(k.as_bytes(), k.to_uppercase().as_bytes()).unwrap();
    }
    kv.remove(b"c").unwrap();
    kv.remove(b"f").unwrap();
    let pairs = |keys: &[&str]| -> Vec<(String, String)> {
        keys.iter().map(|k| (k.to_string(), k.to_uppercase())).collect()
    };
    let iv = Interval { lower: Bound::Included(b"b".to_vec()), upper: Bound::Excluded(b"g".to_vec()) };
    assert_eq!(pairs(&["b", "d", "e"]), scan(&kv, &iv, false));
    assert_eq!(pairs(&["e", "d", "b"]), scan(&kv, &iv, true));
    let one = Interval { lower: Bound::Included(b"d".to_vec()), upper: Bound::Included(b"d".to_vec()) };
    assert_eq!(pairs(&["d"]), scan(&kv, &one, false));
    assert_eq!(pairs(&["d"]), scan(&kv, &one, true));
    let none = Interval { lower: Bound::Excluded(b"d".to_vec()), upper: Bound::Excluded(b"d".to_vec()) };
    assert!(scan(&kv, &none, false).is_empty());
    let inverted = Interval { lower: Bound::Included(b"e".to_vec()), upper: Bound::Included(b"b".to_vec()) };
    assert!(scan(&kv, &inverted, false).is_empty());
    assert!(scan(&kv, &inverted, true).is_empty());
    assert_eq!(pairs(&["a", "b", "d", "e", "g"]), scan(&kv, &all(), false));
    // A scan that is over stays over.
    let mut it = kv.range(&one).unwrap();
    assert!(kv.next(&mut it).unwrap().is_some());
    assert!(kv.next(&mut it).unwrap().is_none());
    assert!(kv.next(&mut it).unwrap().is_none());
}

#[test]
fn open_refuses_a_directory_that_lacks_a_table_file() {
    let mut kv = fresh(1000);
    kv.put(b"a", b"b").unwrap();
    kv.flush().unwrap();
    let mut dir = kv.directory;
    assert!(dir.remove_table(TableId(0)));
    let e = Store::open(dir, 1000).err().unwrap();
    assert_eq!("invalid toc", e.msg());
}

#[test]
fn empty_keys_and_values_are_kept() {
    let mut kv = fresh(1000);
    kv.put(b"", b"").unwrap();
    kv.put(b"k", b"").unwrap();
    assert_eq!(Some(vec![]), kv.get(b"").unwrap());
    kv.flush().unwrap();
    assert_eq!(Some(vec![]), kv.get(b"").unwrap());
    assert_eq!(Some(vec![]), kv.get(b"k").unwrap());
    assert!(kv.exists_key(b"").unwrap());
    assert_eq!(
        vec![("".to_string(), "".to_string()), ("k".to_string(), "".to_string())],
        scan(&kv, &all(), false)
    );
}

#[test]
fn ascending_writes_keep_the_ranges_of_a_level_apart() {
    let mut kv = fresh(60);
    for i in 0..300 {
        kv.put(format!("key{:04}", i).as_bytes(), format!("v{}", i).as_bytes()).unwrap();
    }
    kv.flush().unwrap();
    let levels = kv.toc.levels();
    assert!(levels.len() >= 2);
    for level in levels {
        if level == 0 {
            continue;
        }
        let mut rs: Vec<(String, String)> =
            ranges(&kv, level).into_iter().map(|r| (r.1, r.2)).collect();
        rs.sort();
        for w in rs.windows(2) {
            assert!(w[0].1 < w[1].0, "level {}: {:?} reaches into {:?}", level, w[0], w[1]);
        }
    }
    let keys: Vec<String> = scan(&kv, &all(), false).into_iter().map(|p| p.0).collect();
    let expected: Vec<String> = (0..300).map(|i| format!("key{:04}", i)).collect();
    assert_eq!(expected, keys);
}

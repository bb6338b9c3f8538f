use lsm_kv::directory::Directory;
use lsm_kv::range::StoreIter;
use lsm_kv::store::Store;
use lsm_kv::util::{Buf, Interval};
use std::collections::Bound;

struct TestStore {
    store: Option<Store>,
    directory: Option<Directory>,
}

impl TestStore {
    fn create(threshold: usize) -> TestStore {
        let dir: Directory = Store::create();
        let mut ts = TestStore { store: None, directory: Some(dir) };
        ts.open(threshold);
        return ts;
    }
    fn open(&mut self, threshold: usize) {
        assert!(self.store.is_none());
        let store: Store = Store::open(self.directory.take().unwrap(), threshold).unwrap();
        self.store = Some(store);
    }
    fn close(&mut self) -> Option<()> {
        return self.store.take().map(|s| {
            self.directory = Some(s.directory);
        });
    }
    fn kv(&mut self) -> &mut Store {
        return self.store.as_mut().unwrap();
    }
}

fn b(s: &str) -> &[u8] {
    return s.as_bytes();
}

#[test]
fn putget() {
    let mut ts = TestStore::create(100);
    let kv = ts.kv();
    kv.put(b("foo"), b("Hey")).unwrap();
    let x: Option<Buf> = kv.get(b("foo")).unwrap();
    assert_eq!(Some(b("Hey").to_vec()), x);
    assert!(kv.exists_key(b("foo")).unwrap());
    assert_eq!(None, kv.get(b("bar")).unwrap());
    assert!(!kv.exists_key(b("bar")).unwrap());
}

#[test]
fn range() {
    let mut ts = TestStore::create(100);
    let kv = ts.kv();
    kv.put(b("a"), b("alpha")).unwrap();
    kv.put(b("b"), b("beta")).unwrap();
    kv.put(b("c"), b("charlie")).unwrap();
    kv.put(b("d"), b("delta")).unwrap();
    let interval = Interval::<Buf> { lower: Bound::Unbounded, upper: Bound::Excluded(b("d").to_vec()) };
    {
        let mut it: StoreIter = kv.range(&interval).expect("range");
        assert_eq!(Some((b("a").to_vec(), b("alpha").to_vec())), kv.next(&mut it).unwrap());
        assert_eq!(Some((b("b").to_vec(), b("beta").to_vec())), kv.next(&mut it).unwrap());
        assert_eq!(Some((b("c").to_vec(), b("charlie").to_vec())), kv.next(&mut it).unwrap());
        assert_eq!(None, kv.next(&mut it).unwrap());
    }
    {
        let mut it: StoreIter = kv.range_descending(&interval).expect("range");
        assert_eq!(Some((b("c").to_vec(), b("charlie").to_vec())), kv.next(&mut it).unwrap());
        assert_eq!(Some((b("b").to_vec(), b("beta").to_vec())), kv.next(&mut it).unwrap());
        assert_eq!(Some((b("a").to_vec(), b("alpha").to_vec())), kv.next(&mut it).unwrap());
        assert_eq!(None, kv.next(&mut it).unwrap());
    }
}

#[test]
fn overwrite() {
    let mut ts = TestStore::create(100);
    let kv = ts.kv();

    kv.put(b("a"), b("alpha")).unwrap();
    kv.put(b("a"), b("alpha-2")).unwrap();
    assert_eq!(Some(b("alpha-2").to_vec()), kv.get(b("a")).unwrap());
    let inserted: bool = kv.insert(b("a"), b("alpha-3")).unwrap();
    assert!(!inserted);
    let overwrote: bool = kv.replace(b("a"), b("alpha-4")).unwrap();
    assert!(overwrote);
    assert_eq!(Some(b("alpha-4").to_vec()), kv.get(b("a")).unwrap());
}

fn write_basic_kv(ts: &mut TestStore) {
    let kv = ts.kv();
    for i in (0..102).rev() {
        kv.put(b(&i.to_string()), b(&format!("value-{}", i.to_string()))).unwrap();
    }
    // Remove one, so that we test that a tombstone overrides an older value.
    let removed: bool = kv.remove(b("11")).unwrap();
    assert!(removed);
    assert!(1 < kv.memstores.len());
}

fn verify_basic_kv(ts: &mut TestStore) {
    let kv = ts.kv();
    {
        let interval = Interval::<Buf> { lower: Bound::Excluded(b("1").to_vec()), upper: Bound::Unbounded };
        let mut it: StoreIter = kv.range(&interval).expect("range");
        assert_eq!(Some((b("10").to_vec(), b("value-10").to_vec())), kv.next(&mut it).unwrap());
        assert_eq!(Some((b("100").to_vec(), b("value-100").to_vec())), kv.next(&mut it).unwrap());
        assert_eq!(Some((b("101").to_vec(), b("value-101").to_vec())), kv.next(&mut it).unwrap());
        assert_eq!(Some((b("12").to_vec(), b("value-12").to_vec())), kv.next(&mut it).unwrap());
        assert_eq!(Some((b("13").to_vec(), b("value-13").to_vec())), kv.next(&mut it).unwrap());
    }
    {
        let interval = Interval::<Buf> { lower: Bound::Unbounded, upper: Bound::Excluded(b("99").to_vec()) };
        let mut it: StoreIter = kv.range_descending(&interval).expect("range descending");
        assert_eq!(Some((b("98").to_vec(), b("value-98").to_vec())), kv.next(&mut it).unwrap());
        assert_eq!(Some((b("97").to_vec(), b("value-97").to_vec())), kv.next(&mut it).unwrap());
    }
}

#[test]
fn many() {
    let mut ts = TestStore::create(100);
    write_basic_kv(&mut ts);
    verify_basic_kv(&mut ts);
}

#[test]
fn disk() {
    let mut ts = TestStore::create(100);
    write_basic_kv(&mut ts);
    ts.kv().flush().unwrap();
    // Remove (and drop) existing store.
    assert!(ts.close().is_some());
    ts.open(100);
    verify_basic_kv(&mut ts);
}

#[test]
fn disk_missing_key() {
    let mut ts = TestStore::create(100);
    write_basic_kv(&mut ts);
    ts.kv().flush().unwrap();
    // Remove (and drop) existing store.
    assert!(ts.close().is_some());
    ts.open(100);
    // This actually hits the disk, because the key has no reference in the memstores.
    assert_eq!(None, ts.kv().get(b("bogus")).unwrap());
}

fn big_key(num: u64) -> Buf {
    format!("{:08}", num).as_bytes().to_vec()
}
fn big_value(num: u64) -> Buf {
    format!("value-{}", num).as_bytes().to_vec()
}

fn write_big_kv(ts: &mut TestStore, n: u64) {
    let kv = ts.kv();
    for i in 0..n {
        kv.put(&big_key(i), &big_value(i)).unwrap();
    }
    for j in 0..n / 2 {
        let i = j * 2 + 1;
        let removed: bool = kv.remove(&big_key(i)).unwrap();
        assert!(removed);
    }
}

fn verify_big_kv_range(kv: &mut Store, low: u64, high: u64) {
    let interval = Interval::<Buf> {
        lower: Bound::Included(big_key(low)),
        upper: Bound::Included(big_key(high)),
    };
    {
        let mut i = low;
        if i % 2 == 1 {
            i += 1;
        }
        let mut it: StoreIter = kv.range(&interval).expect("range");
        while let Some((k, v)) = kv.next(&mut it).expect("next") {
            assert_eq!(&big_key(i), &k);
            assert_eq!(&big_value(i), &v);
            i += 2;
        }
        if high % 2 == 0 {
            assert_eq!(high + 2, i);
        } else {
            assert_eq!(high + 1, i);
        }
    }
    {
        let mut i = high;
        if i % 2 == 1 {
            i -= 1;
        }
        let mut it: StoreIter = kv.range_descending(&interval).expect("range_descending");
        while let Some((k, v)) = kv.next(&mut it).expect("next desc") {
            assert_eq!(&big_key(i), &k);
            assert_eq!(&big_value(i), &v);
            i -= 2;
        }
        if low % 2 == 0 {
            assert_eq!(low - 2, i);
        } else {
            assert_eq!(low - 1, i);
        }
    }
}

fn verify_big_kv(ts: &mut TestStore) {
    let kv = ts.kv();
    verify_big_kv_range(kv, 145, 346);
}

#[test]
fn big_many() {
    let mut ts = TestStore::create(100);
    write_big_kv(&mut ts, 1000);
    verify_big_kv(&mut ts);
}

#[test]
fn big_many_disk() {
    let mut ts = TestStore::create(100);
    write_big_kv(&mut ts, 1000);
    ts.kv().flush().unwrap();
    // Remove (and drop) existing store.
    assert!(ts.close().is_some());
    ts.open(100);
    verify_big_kv(&mut ts);
}

#[test]
fn big_many_threshold() {
    let mut ts = TestStore::create(2000000);
    write_big_kv(&mut ts, 1000);
    ts.kv().flush().unwrap();
    // Remove (and drop) existing store.
    assert!(ts.close().is_some());
    ts.open(100);
    verify_big_kv(&mut ts);
}

use lsm_kv::iter::{BoxedIterator, Direction, MergeIterator, MutationIterator};
use lsm_kv::memstore::{MemStore, MemStoreIterator};
use lsm_kv::util::{Interval, Mutation};
use std::collections::Bound;

fn store(entries: &[(&str, Option<&str>)]) -> MemStore {
    let mut ms = MemStore::new();
    for (k, v) in entries {
        let m = match v {
            Some(v) => Mutation::Put(v.as_bytes().to_vec()),
            None => Mutation::Delete,
        };
        ms.apply(k.as_bytes().to_vec(), m);
    }
    ms
}

fn all() -> Interval<Vec<u8>> {
    Interval { lower: Bound::Unbounded, upper: Bound::Unbounded }
}

fn merge<'a>(stores: &'a [MemStore], d: Direction, interval: &Interval<Vec<u8>>) -> MergeIterator<'a> {
    let mut iters: Vec<BoxedIterator<'a>> = Vec::new();
    for s in stores {
        iters.push(BoxedIterator(Box::new(MemStoreIterator::make(s, interval, d))));
    }
    MergeIterator::make(iters, d).unwrap()
}

fn drain(it: &mut MergeIterator) -> Vec<(String, Option<String>)> {
    let mut out = Vec::new();
    while let Some(k) = it.current_key().unwrap() {
        let k = String::from_utf8(k.to_vec()).unwrap();
        let v = match it.current_value().unwrap() {
            Mutation::Put(v) => Some(String::from_utf8(v).unwrap()),
            Mutation::Delete => None,
        };
        out.push((k, v));
        it.step().unwrap();
    }
    out
}

fn kv(k: &str, v: Option<&str>) -> (String, Option<String>) {
    (k.to_string(), v.map(|s| s.to_string()))
}

#[test]
fn merge_takes_the_first_of_equal_keys_forward() {
    let stores = vec![
        store(&[("b", None), ("d", Some("new-d"))]),
        store(&[("a", Some("a1")), ("b", Some("old-b")), ("d", Some("old-d"))]),
        store(&[("c", Some("c2")), ("d", Some("oldest-d"))]),
    ];
    let i = all();
    let mut m = merge(&stores, Direction::Forward, &i);
    assert_eq!(
        vec![kv("a", Some("a1")), kv("b", None), kv("c", Some("c2")), kv("d", Some("new-d"))],
        drain(&mut m)
    );
    assert_eq!("step MergeIterator too far", m.step().err().unwrap().msg());
    assert!(m.current_value().is_err());
}

#[test]
fn merge_takes_the_first_of_equal_keys_backward() {
    let stores = vec![
        store(&[("b", None), ("d", Some("new-d"))]),
        store(&[("a", Some("a1")), ("b", Some("old-b")), ("d", Some("old-d"))]),
        store(&[("c", Some("c2")), ("d", Some("oldest-d"))]),
    ];
    let i = all();
    let mut m = merge(&stores, Direction::Backward, &i);
    assert_eq!(
        vec![kv("d", Some("new-d")), kv("c", Some("c2")), kv("b", None), kv("a", Some("a1"))],
        drain(&mut m)
    );
    assert!(m.step().is_err());
}

#[test]
fn merge_of_nothing_is_empty() {
    let stores: Vec<MemStore> = vec![];
    let i = all();
    let mut m = merge(&stores, Direction::Forward, &i);
    assert!(m.current_key().unwrap().is_none());
    assert!(m.step().is_err());
    let empties = vec![MemStore::new(), MemStore::new()];
    let mut e = merge(&empties, Direction::Backward, &i);
    assert!(drain(&mut e).is_empty());
}

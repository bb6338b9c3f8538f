use lsm_kv::disk::{approx_key_usage, approx_value_usage, decode_mutation, encode_mutation};
use lsm_kv::iter::{Direction, MutationIterator};
use lsm_kv::memstore::{MemStore, MemStoreIterator};
use lsm_kv::util::{Interval, Mutation};
use std::collections::Bound;

fn put(ms: &mut MemStore, k: &str, v: &str) {
    ms.apply(k.as_bytes().to_vec(), Mutation::Put(v.as_bytes().to_vec()));
}

fn keys(ms: &MemStore) -> Vec<Vec<u8>> {
    ms.entries.iter().map(|e| e.0.clone()).collect()
}

#[test]
fn usage_formulas() {
    assert_eq!(6, approx_key_usage(b""));
    assert_eq!(9, approx_key_usage(b"abc"));
    assert_eq!(1, approx_value_usage(&Mutation::Delete));
    assert_eq!(2, approx_value_usage(&Mutation::Put(vec![])));
    assert_eq!(7, approx_value_usage(&Mutation::Put(b"hello".to_vec())));
}

#[test]
fn mutation_exact_bytes_and_round_trip() {
    let mut v: Vec<u8> = Vec::new();
    encode_mutation(&mut v, &Mutation::Put(b"hi".to_vec()));
    assert_eq!(vec![0u8, 2, b'h', b'i'], v);
    encode_mutation(&mut v, &Mutation::Delete);
    assert_eq!(vec![0u8, 2, b'h', b'i', 1], v);
    let mut pos: usize = 0;
    assert!(matches!(decode_mutation(&v, &mut pos), Some(Mutation::Put(x)) if x == b"hi"));
    assert_eq!(4, pos);
    assert!(matches!(decode_mutation(&v, &mut pos), Some(Mutation::Delete)));
    assert_eq!(5, pos);
    assert!(decode_mutation(&v, &mut pos).is_none());
    assert_eq!(5, pos);
}

#[test]
fn mutation_with_a_wrong_tag_is_rejected() {
    let v: Vec<u8> = vec![2, 0];
    let mut pos: usize = 0;
    assert!(decode_mutation(&v, &mut pos).is_none());
    assert_eq!(1, pos);
}

#[test]
fn apply_keeps_keys_in_order_and_counts_usage() {
    let mut ms = MemStore::new();
    assert_eq!(0, ms.mem_usage);
    put(&mut ms, "b", "beta");
    assert_eq!(7 + 6, ms.mem_usage);
    put(&mut ms, "a", "alpha");
    put(&mut ms, "c", "");
    assert_eq!((7 + 6) + (7 + 7) + (7 + 2), ms.mem_usage);
    assert_eq!(vec![b"a".to_vec(), b"b".to_vec(), b"c".to_vec()], keys(&ms));
    // An overwrite takes the old count away.
    put(&mut ms, "b", "x");
    assert_eq!((7 + 3) + (7 + 7) + (7 + 2), ms.mem_usage);
    ms.apply(b"a".to_vec(), Mutation::Delete);
    assert_eq!((7 + 3) + (7 + 1) + (7 + 2), ms.mem_usage);
    assert_eq!(3, ms.entries.len());
    assert!(matches!(ms.lookup(b"a"), Some(Mutation::Delete)));
    assert!(matches!(ms.lookup(b"b"), Some(Mutation::Put(x)) if x == b"x"));
    assert!(ms.lookup(b"bb").is_none());
    assert!(ms.lookup(b"").is_none());
}

fn sample() -> MemStore {
    let mut ms = MemStore::new();
    for k in ["d", "b", "a", "c", "e"] {
        put(&mut ms, k, k);
    }
    ms
}

fn iv(lower: Bound<&str>, upper: Bound<&str>) -> Interval<Vec<u8>> {
    let conv = |b: Bound<&str>| match b {
        Bound::Included(s) => Bound::Included(s.as_bytes().to_vec()),
        Bound::Excluded(s) => Bound::Excluded(s.as_bytes().to_vec()),
        Bound::Unbounded => Bound::Unbounded,
    };
    Interval { lower: conv(lower), upper: conv(upper) }
}

#[test]
fn first_and_last_in_range() {
    let ms = sample();
    let i = iv(Bound::Excluded("a"), Bound::Included("d"));
    assert_eq!(Some(&b"b"[..]), ms.first_in_range(&i));
    assert_eq!(Some(&b"d"[..]), ms.last_in_range(&i));
    let all = iv(Bound::Unbounded, Bound::Unbounded);
    assert_eq!(Some(&b"a"[..]), ms.first_in_range(&all));
    assert_eq!(Some(&b"e"[..]), ms.last_in_range(&all));
    let gap = iv(Bound::Excluded("b"), Bound::Excluded("c"));
    assert_eq!(None, ms.first_in_range(&gap));
    assert_eq!(None, ms.last_in_range(&gap));
    // An interval whose ends are the wrong way round holds no key.
    let inverted = iv(Bound::Included("d"), Bound::Included("b"));
    assert_eq!(None, ms.first_in_range(&inverted));
    assert_eq!(None, ms.last_in_range(&inverted));
    let empty = MemStore::new();
    assert_eq!(None, empty.first_in_range(&all));
}

fn drain(it: &mut MemStoreIterator) -> Vec<Vec<u8>> {
    let mut out = Vec::new();
    while let Some(k) = it.current_key().unwrap() {
        let k = k.to_vec();
        assert!(matches!(it.current_value().unwrap(), Mutation::Put(v) if v == k));
        out.push(k);
        it.step().unwrap();
    }
    out
}

#[test]
fn memstore_iterator_both_directions() {
    let ms = sample();
    let i = iv(Bound::Included("b"), Bound::Excluded("e"));
    let mut f = MemStoreIterator::make(&ms, &i, Direction::Forward);
    assert_eq!(vec![b"b".to_vec(), b"c".to_vec(), b"d".to_vec()], drain(&mut f));
    let e = f.step().err().unwrap();
    assert_eq!("step past end", e.msg());
    assert!(f.current_value().is_err());
    let mut b = MemStoreIterator::make(&ms, &i, Direction::Backward);
    assert_eq!(vec![b"d".to_vec(), b"c".to_vec(), b"b".to_vec()], drain(&mut b));
    assert!(b.step().is_err());
}

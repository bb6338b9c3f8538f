use lsm_kv::error::{mk_err, Error, OptionExt};
use lsm_kv::util::{
    above_lower_bound, below_upper_bound, key_le, key_lt, key_order, parse_tablefile_name,
    ref_bound, table_filename, table_filepath, toc_filename, KeyOrder, TableId,
};
use std::collections::Bound;

#[test]
fn keys_compare_as_unsigned_bytes() {
    assert_eq!(KeyOrder::Less, key_order(b"", b"a"));
    assert_eq!(KeyOrder::Equal, key_order(b"", b""));
    assert_eq!(KeyOrder::Less, key_order(b"a", b"ab"));
    assert_eq!(KeyOrder::Greater, key_order(b"b", b"ab"));
    assert_eq!(KeyOrder::Less, key_order(&[0x7f], &[0x80]));
    assert_eq!(KeyOrder::Greater, key_order(&[0xff], &[0x00, 0xff]));
    assert_eq!(KeyOrder::Equal, key_order(b"same", b"same"));
    assert!(key_lt(b"1", b"10"));
    assert!(!key_lt(b"10", b"10"));
    assert!(key_le(b"10", b"10"));
    assert!(!key_le(b"11", b"10"));
}

#[test]
fn bounds() {
    let k = b"m".to_vec();
    assert!(below_upper_bound(b"l", &Bound::Excluded(k.clone())));
    assert!(!below_upper_bound(b"m", &Bound::Excluded(k.clone())));
    assert!(below_upper_bound(b"m", &Bound::Included(k.clone())));
    assert!(!below_upper_bound(b"n", &Bound::Included(k.clone())));
    assert!(below_upper_bound(b"zzz", &Bound::Unbounded));
    assert!(above_lower_bound(b"n", &Bound::Excluded(k.clone())));
    assert!(!above_lower_bound(b"m", &Bound::Excluded(k.clone())));
    assert!(above_lower_bound(b"m", &Bound::Included(k.clone())));
    assert!(!above_lower_bound(b"l", &Bound::Included(k.clone())));
    assert!(above_lower_bound(b"", &Bound::Unbounded));
    assert_eq!(Bound::Included(&b"m"[..]), ref_bound(&Bound::Included(k.clone())));
    assert_eq!(Bound::Excluded(&b"m"[..]), ref_bound(&Bound::Excluded(k)));
    assert_eq!(Bound::Unbounded, ref_bound(&Bound::Unbounded));
}

#[test]
fn table_file_names() {
    assert_eq!("0.tab", table_filename(TableId(0)));
    assert_eq!("17.tab", table_filename(TableId(17)));
    assert_eq!("18446744073709551615.tab", table_filename(TableId(u64::MAX)));
    assert_eq!("some/dir/17.tab", table_filepath("some/dir", TableId(17)));
    assert_eq!("some/dir/toc", toc_filename("some/dir"));
}

#[test]
fn table_file_names_are_recognised() {
    assert_eq!(Some(TableId(1)), parse_tablefile_name("1.tab"));
    assert_eq!(Some(TableId(0)), parse_tablefile_name("0.tab"));
    assert_eq!(Some(TableId(u64::MAX)), parse_tablefile_name("18446744073709551615.tab"));
    assert_eq!(None, parse_tablefile_name("01.tab"));
    assert_eq!(None, parse_tablefile_name("+1.tab"));
    assert_eq!(None, parse_tablefile_name("18446744073709551616.tab"));
    assert_eq!(None, parse_tablefile_name(".tab"));
    assert_eq!(None, parse_tablefile_name("1.tab "));
    assert_eq!(None, parse_tablefile_name("1.tabs"));
    assert_eq!(None, parse_tablefile_name("toc"));
    assert_eq!(None, parse_tablefile_name("x.tab"));
}

#[test]
fn errors_carry_their_message() {
    let e = Error::new("step past end");
    assert_eq!("step past end", e.msg());
    let r: Result<u8, Error> = mk_err("bad");
    assert_eq!("bad", r.err().unwrap().msg());
    assert_eq!(7u8, Some(7u8).or_err("none").unwrap());
    let n: Option<u8> = None;
    assert_eq!("none", n.or_err("none").err().unwrap().msg());
    let io = std::io::Error::new(std::io::ErrorKind::Other, "disk on fire");
    let from: Error = Error::from(io);
    assert!(matches!(from, Error::IoError(_)));
}

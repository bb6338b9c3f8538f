use lsm_kv::encoding::{
    decode_str, decode_u32, decode_u64, decode_uvarint, encode_str, encode_u32, encode_u64,
    encode_uvarint, observe_str, try_into_size,
};

#[test]
fn str() {
    let mut v = Vec::<u8>::new();
    let text: &[u8] = "this is a test".as_bytes();
    encode_str(&mut v, text);
    let mut pos: usize = 0;
    assert_eq!(Some(text.to_vec()), decode_str(&v, &mut pos));
    assert_eq!(v.len(), pos);
}

fn help_test_enc64(num: u64) {
    let mut v = Vec::<u8>::new();
    encode_uvarint(&mut v, num);
    let mut pos: usize = 0;
    assert_eq!(Some(num), decode_uvarint(&v, &mut pos));
    assert_eq!(v.len(), pos);

    v.clear();
    encode_u64(&mut v, num);
    pos = 0;
    assert_eq!(Some(num), decode_u64(&v, &mut pos));
    assert_eq!(v.len(), pos);
    assert_eq!(8, v.len());

    if num <= u32::max_value() as u64 {
        let num = num as u32;
        v.clear();
        encode_u32(&mut v, num);
        pos = 0;
        assert_eq!(Some(num), decode_u32(&v, &mut pos));
        assert_eq!(v.len(), pos);
        assert_eq!(4, v.len());
    }
}

#[test]
fn uint() {
    help_test_enc64(0);
    help_test_enc64(37);
    help_test_enc64(127);
    help_test_enc64(128);
    help_test_enc64(137);
    help_test_enc64(12345678);
    // Doesn't hit overflow-checking case
    help_test_enc64(((1u64) << 62) | 12345678);
    // Does hit overflow-checking case
    help_test_enc64(((1u64) << 63) | 12345678);
}

#[test]
fn uvarint_exact_bytes() {
    let mut v = Vec::<u8>::new();
    encode_uvarint(&mut v, 0);
    assert_eq!(vec![0u8], v);
    v.clear();
    encode_uvarint(&mut v, 127);
    assert_eq!(vec![127u8], v);
    v.clear();
    encode_uvarint(&mut v, 128);
    assert_eq!(vec![0x80u8, 0x01], v);
    v.clear();
    encode_uvarint(&mut v, 300);
    assert_eq!(vec![0xacu8, 0x02], v);
    v.clear();
    encode_uvarint(&mut v, u64::MAX);
    assert_eq!(vec![0xffu8, 0xff, 0xff, 0xff, 0xff, 0xff, 0xff, 0xff, 0xff, 0x01], v);
}

#[test]
fn uvarint_rejects_large_tenth_byte() {
    let v: Vec<u8> = vec![0xff, 0xff, 0xff, 0xff, 0xff, 0xff, 0xff, 0xff, 0xff, 0x02];
    let mut pos: usize = 0;
    assert_eq!(None, decode_uvarint(&v, &mut pos));
    assert_eq!(10, pos);
}

#[test]
fn uvarint_rejects_truncated() {
    let v: Vec<u8> = vec![0x80, 0x80];
    let mut pos: usize = 0;
    assert_eq!(None, decode_uvarint(&v, &mut pos));
    assert_eq!(2, pos);
    let empty: Vec<u8> = Vec::new();
    pos = 0;
    assert_eq!(None, decode_uvarint(&empty, &mut pos));
    assert_eq!(0, pos);
}

#[test]
fn uvarint_accepts_padded_zero() {
    let v: Vec<u8> = vec![0x80, 0x00, 0x07];
    let mut pos: usize = 0;
    assert_eq!(Some(0), decode_uvarint(&v, &mut pos));
    assert_eq!(2, pos);
}

#[test]
fn fixed_width_exact_bytes() {
    let mut v = Vec::<u8>::new();
    encode_u64(&mut v, 0x0102030405060708);
    assert_eq!(vec![8u8, 7, 6, 5, 4, 3, 2, 1], v);
    v.clear();
    encode_u32(&mut v, 0x01020304);
    assert_eq!(vec![4u8, 3, 2, 1], v);
}

#[test]
fn fixed_width_too_short() {
    let v: Vec<u8> = vec![1, 2, 3, 4, 5, 6, 7];
    let mut pos: usize = 0;
    assert_eq!(None, decode_u64(&v, &mut pos));
    assert_eq!(0, pos);
    pos = 4;
    assert_eq!(None, decode_u32(&v, &mut pos));
    assert_eq!(4, pos);
    pos = 3;
    assert_eq!(Some(0x07060504), decode_u32(&v, &mut pos));
    assert_eq!(7, pos);
}

#[test]
fn str_exact_bytes_and_observe() {
    let mut v: Vec<u8> = vec![9];
    encode_str(&mut v, b"abc");
    assert_eq!(vec![9u8, 3, b'a', b'b', b'c'], v);
    let mut pos: usize = 1;
    assert_eq!(Some(&b"abc"[..]), observe_str(&v, &mut pos));
    assert_eq!(5, pos);
}

#[test]
fn str_too_short() {
    let v: Vec<u8> = vec![5, b'a', b'b'];
    let mut pos: usize = 0;
    assert_eq!(None, observe_str(&v, &mut pos));
    assert_eq!(1, pos);
    pos = 0;
    assert_eq!(None, decode_str(&v, &mut pos));
}

#[test]
fn empty_str_round_trip() {
    let mut v = Vec::<u8>::new();
    encode_str(&mut v, b"");
    assert_eq!(vec![0u8], v);
    let mut pos: usize = 0;
    assert_eq!(Some(Vec::<u8>::new()), decode_str(&v, &mut pos));
    assert_eq!(1, pos);
}

#[test]
fn size_conversion() {
    assert_eq!(Some(17usize), try_into_size(17));
    assert_eq!(Some(0usize), try_into_size(0));
}

//! Byte codecs: base-128 varints, fixed-width little-endian integers and
//! length-prefixed byte strings.

use vstd::prelude::*;
use vstd::bytes::*;
use vstd::slice::*;

verus! {

/// `128` raised to the power `k`.
pub open spec fn pow128(k: nat) -> nat
    decreases k,
{
    if k == 0 {
        1
    } else {
        128 * pow128((k - 1) as nat)
    }
}

/// The varint encoding of `n`: groups of seven bits, least significant first,
/// every byte but the last with its high bit set.
pub open spec fn uvarint_bytes(n: nat) -> Seq<u8>
    decreases n,
{
    if n < 128 {
        seq![n as u8]
    } else {
        seq![(128 + n % 128) as u8] + uvarint_bytes(n / 128)
    }
}

/// Reads varint groups of `s` from `pos` on, `k` groups having been read
/// already. Gives the value of the groups read here, scaled by their place,
/// and the position at which reading stops. The tenth byte may only be 0 or 1.
pub open spec fn scan_uvarint(s: Seq<u8>, pos: int, k: nat) -> (Option<nat>, int)
    decreases 10 - k,
{
    if pos < 0 || pos >= s.len() {
        (None, pos)
    } else if k >= 9 {
        if s[pos] > 1 {
            (None, pos + 1)
        } else {
            (Some(s[pos] as nat * pow128(9)), pos + 1)
        }
    } else {
        let low = (s[pos] % 128) as nat * pow128(k);
        if s[pos] < 128 {
            (Some(low), pos + 1)
        } else {
            let rest = scan_uvarint(s, pos + 1, k + 1);
            (
                match rest.0 {
                    Some(r) => Some(low + r),
                    None => None,
                },
                rest.1,
            )
        }
    }
}

/// The value of the varint that starts at `pos` in `s`, if one is there.
pub open spec fn uvarint_value(s: Seq<u8>, pos: int) -> Option<u64> {
    match scan_uvarint(s, pos, 0).0 {
        Some(n) => Some(n as u64),
        None => None,
    }
}

/// The position at which decoding a varint from `pos` in `s` stops: behind
/// its last byte when there is one, and behind the last byte looked at, if any,
/// when there is none.
pub open spec fn uvarint_end(s: Seq<u8>, pos: int) -> int {
    scan_uvarint(s, pos, 0).1
}

pub proof fn lemma_pow128_values()
    ensures
        pow128(0) == 1,
        pow128(1) == 0x80,
        pow128(2) == 0x4000,
        pow128(3) == 0x20_0000,
        pow128(4) == 0x1000_0000,
        pow128(5) == 0x8_0000_0000,
        pow128(6) == 0x400_0000_0000,
        pow128(7) == 0x2_0000_0000_0000,
        pow128(8) == 0x100_0000_0000_0000,
        pow128(9) == 0x8000_0000_0000_0000,
        pow128(10) == 0x40_0000_0000_0000_0000,
{
    reveal_with_fuel(pow128, 11);
}

pub proof fn lemma_pow128_monotonic(j: nat, k: nat)
    requires
        j <= k,
    ensures
        pow128(j) <= pow128(k),
        pow128(j) >= 1,
    decreases k,
{
    if j < k {
        lemma_pow128_monotonic(j, (k - 1) as nat);
    } else if k > 0 {
        lemma_pow128_monotonic((j - 1) as nat, (k - 1) as nat);
    }
}

/// A varint never decodes to more than 64 bits, and decoding moves forward by
/// at most ten bytes and never past the end of the buffer.
pub proof fn lemma_scan_uvarint_bounds(s: Seq<u8>, pos: int, k: nat)
    requires
        k <= 9,
    ensures
        scan_uvarint(s, pos, k).0 matches Some(n) ==> n + pow128(k) <= pow128(9) * 2,
        0 <= pos <= s.len() ==> pos <= scan_uvarint(s, pos, k).1 <= s.len(),
        scan_uvarint(s, pos, k).1 <= pos + 10 - k,
        scan_uvarint(s, pos, k).0 is Some ==> pos < scan_uvarint(s, pos, k).1,
        !(0 <= pos < s.len()) ==> scan_uvarint(s, pos, k) == (None::<nat>, pos),
    decreases 10 - k,
{
    lemma_pow128_values();
    lemma_pow128_monotonic(k, 9);
    if pos < 0 || pos >= s.len() {
    } else if k >= 9 {
    } else {
        let low = (s[pos] % 128) as nat * pow128(k);
        assert(low <= 127 * pow128(k)) by (nonlinear_arith)
            requires
                low == (s[pos] % 128) as nat * pow128(k),
                (s[pos] % 128) as nat <= 127,
        ;
        assert(pow128(k + 1) == 128 * pow128(k));
        lemma_pow128_monotonic(k + 1, 9);
        if s[pos] >= 128 {
            lemma_scan_uvarint_bounds(s, pos + 1, k + 1);
        }
    }
}

/// Appends the varint encoding of `n` to `v`.
pub fn encode_uvarint(v: &mut Vec<u8>, n: u64)
    ensures
        final(v)@ == old(v)@ + uvarint_bytes(n as nat),
{
    let mut n: u64 = n;
    let ghost n0: nat = n as nat;
    while n >= 128
        invariant
            old(v)@ + uvarint_bytes(n0) == v@ + uvarint_bytes(n as nat),
        decreases n,
    {
        let b: u8 = (128 + n % 128) as u8;
        proof {
            assert(v@.push(b) + uvarint_bytes((n / 128) as nat) =~= v@ + uvarint_bytes(n as nat));
        }
        v.push(b);
        n = n / 128;
    }
    proof {
        assert(v@.push(n as u8) =~= v@ + uvarint_bytes(n as nat));
    }
    v.push(n as u8);
}

/// Decodes the varint at `*pos` and moves `*pos` behind it. Fails when the
/// buffer ends inside the varint, or when the tenth byte is more than 1.
pub fn decode_uvarint(v: &[u8], pos: &mut usize) -> (r: Option<u64>)
    ensures
        r == uvarint_value(v@, *old(pos) as int),
        *final(pos) as int == uvarint_end(v@, *old(pos) as int),
{
    let ghost start: int = *pos as int;
    let mut n: u64 = 0;
    let mut mult: u64 = 1;
    let mut k: u32 = 0;
    proof {
        lemma_pow128_values();
    }
    while k < 9
        invariant
            start == *old(pos) as int,
            k <= 9,
            mult as nat == pow128(k as nat),
            (n as nat) < pow128(k as nat),
            k > 0 ==> *pos as int <= v@.len(),
            scan_uvarint(v@, start, 0).1 == scan_uvarint(v@, *pos as int, k as nat).1,
            scan_uvarint(v@, start, 0).0 == match scan_uvarint(v@, *pos as int, k as nat).0 {
                Some(r) => Some(n as nat + r),
                None => None,
            },
        decreases 9 - k,
    {
        if *pos >= v.len() {
            return None;
        }
        let b: u8 = v[*pos];
        *pos += 1;
        proof {
            lemma_pow128_values();
            lemma_pow128_monotonic(k as nat + 1, 9);
            assert(pow128(k as nat + 1) == 128 * pow128(k as nat));
            assert((b % 128) as nat * pow128(k as nat) <= 127 * pow128(k as nat)) by (nonlinear_arith)
                requires
                    (b % 128) as nat <= 127,
            ;
        }
        n = n + (b % 128) as u64 * mult;
        if b < 128 {
            return Some(n);
        }
        mult = mult * 128;
        k += 1;
    }
    if *pos >= v.len() {
        return None;
    }
    let b: u8 = v[*pos];
    *pos += 1;
    if b > 1 {
        return None;
    }
    proof {
        lemma_pow128_values();
        assert(b as nat * pow128(9) <= pow128(9)) by (nonlinear_arith)
            requires
                b as nat <= 1,
        ;
    }
    n = n + (b as u64) * mult;
    Some(n)
}

/// Converts a 64-bit length to a `usize`, if it fits.
pub fn try_into_size(x: u64) -> (r: Option<usize>)
    ensures
        r == (if x <= usize::MAX { Some(x as usize) } else { None }),
{
    if x > (usize::MAX as u64) {
        return None;
    }
    Some(x as usize)
}

/// Appends the eight bytes of `n`, least significant first.
pub fn encode_u64(v: &mut Vec<u8>, n: u64)
    ensures
        final(v)@ == old(v)@ + spec_u64_to_le_bytes(n),
{
    let mut bytes: Vec<u8> = u64_to_le_bytes(n);
    v.append(&mut bytes);
}

/// Reads eight bytes at `*pos`, least significant first, and moves `*pos`
/// behind them. Fails, leaving `*pos` alone, when fewer than eight are left.
pub fn decode_u64(v: &[u8], pos: &mut usize) -> (r: Option<u64>)
    ensures
        r == fixed_u64_at(v@, *old(pos) as int),
        *final(pos) as int == (if r is Some { *old(pos) + 8 } else { *old(pos) as int }),
{
    if v.len() < 8 || *pos > v.len() - 8 {
        return None;
    }
    let n: u64 = u64_from_le_bytes(slice_subrange(v, *pos, *pos + 8));
    *pos += 8;
    Some(n)
}

/// Appends the four bytes of `n`, least significant first.
pub fn encode_u32(v: &mut Vec<u8>, n: u32)
    ensures
        final(v)@ == old(v)@ + spec_u32_to_le_bytes(n),
{
    let mut bytes: Vec<u8> = u32_to_le_bytes(n);
    v.append(&mut bytes);
}

/// Reads four bytes at `*pos`, least significant first, and moves `*pos`
/// behind them. Fails, leaving `*pos` alone, when fewer than four are left.
pub fn decode_u32(v: &[u8], pos: &mut usize) -> (r: Option<u32>)
    ensures
        r == fixed_u32_at(v@, *old(pos) as int),
        *final(pos) as int == (if r is Some { *old(pos) + 4 } else { *old(pos) as int }),
{
    if v.len() < 4 || *pos > v.len() - 4 {
        return None;
    }
    let n: u32 = u32_from_le_bytes(slice_subrange(v, *pos, *pos + 4));
    *pos += 4;
    Some(n)
}

/// The 64-bit little-endian integer at `pos` in `s`, if eight bytes are there.
pub open spec fn fixed_u64_at(s: Seq<u8>, pos: int) -> Option<u64> {
    if 0 <= pos && pos + 8 <= s.len() {
        Some(spec_u64_from_le_bytes(s.subrange(pos, pos + 8)))
    } else {
        None
    }
}

/// The 32-bit little-endian integer at `pos` in `s`, if four bytes are there.
pub open spec fn fixed_u32_at(s: Seq<u8>, pos: int) -> Option<u32> {
    if 0 <= pos && pos + 4 <= s.len() {
        Some(spec_u32_from_le_bytes(s.subrange(pos, pos + 4)))
    } else {
        None
    }
}

/// A byte string behind its length as a varint.
pub open spec fn str_bytes(b: Seq<u8>) -> Seq<u8> {
    uvarint_bytes(b.len()) + b
}

/// The length-prefixed byte string that starts at `pos` in `s`, if a whole one
/// is there.
pub open spec fn str_at(s: Seq<u8>, pos: int) -> Option<Seq<u8>> {
    match uvarint_value(s, pos) {
        Some(n) => {
            let from = uvarint_end(s, pos);
            if n <= s.len() - from {
                Some(s.subrange(from, from + n))
            } else {
                None
            }
        },
        None => None,
    }
}

/// The position at which decoding a byte string from `pos` in `s` stops:
/// behind the string when a whole one is there, else where decoding its
/// length stopped.
pub open spec fn str_end(s: Seq<u8>, pos: int) -> int {
    match str_at(s, pos) {
        Some(b) => uvarint_end(s, pos) + b.len(),
        None => uvarint_end(s, pos),
    }
}

/// Appends `b` behind its length as a varint.
pub fn encode_str(v: &mut Vec<u8>, b: &[u8])
    ensures
        final(v)@ == old(v)@ + str_bytes(b@),
{
    encode_uvarint(v, b.len() as u64);
    let ghost mid = v@;
    v.extend_from_slice(b);
    proof {
        assert(v@ =~= old(v)@ + str_bytes(b@));
    }
}

/// Borrows the length-prefixed byte string at `*pos` and moves `*pos` behind
/// it. Fails when the length does not decode or reaches past the buffer.
pub fn observe_str<'a>(v: &'a [u8], pos: &mut usize) -> (r: Option<&'a [u8]>)
    ensures
        match r {
            Some(b) => str_at(v@, *old(pos) as int) == Some(b@),
            None => str_at(v@, *old(pos) as int) is None,
        },
        *final(pos) as int == str_end(v@, *old(pos) as int),
{
    proof {
        lemma_scan_uvarint_bounds(v@, *pos as int, 0);
    }
    let n: u64 = match decode_uvarint(v, pos) {
        Some(n) => n,
        None => {
            return None;
        },
    };
    assert(*old(pos) < v@.len() && *pos <= v@.len());
    let length: usize = match try_into_size(n) {
        Some(l) => l,
        None => {
            assert(v@.len() == v.len());
            return None;
        },
    };
    if v.len() - *pos < length {
        return None;
    }
    let end_pos: usize = *pos + length;
    let slice: &[u8] = slice_subrange(v, *pos, end_pos);
    *pos = end_pos;
    Some(slice)
}

/// Copies out the length-prefixed byte string at `*pos` and moves `*pos`
/// behind it. Fails as `observe_str` does.
pub fn decode_str(v: &[u8], pos: &mut usize) -> (r: Option<Vec<u8>>)
    ensures
        match r {
            Some(b) => str_at(v@, *old(pos) as int) == Some(b@),
            None => str_at(v@, *old(pos) as int) is None,
        },
        *final(pos) as int == str_end(v@, *old(pos) as int),
{
    match observe_str(v, pos) {
        Some(s) => Some(slice_to_vec(s)),
        None => None,
    }
}

/// The varint of a 64-bit number has between one and ten bytes.
pub proof fn lemma_uvarint_bytes_len(n: nat, k: nat)
    requires
        k <= 9,
        n * pow128(k) < 2 * pow128(9),
    ensures
        1 <= uvarint_bytes(n).len() <= 10 - k,
    decreases n,
{
    lemma_pow128_values();
    if n >= 128 {
        lemma_pow128_monotonic(k, 9);
        assert(k < 9) by {
            if k == 9 {
                assert(n * pow128(9) >= 128 * pow128(9)) by (nonlinear_arith)
                    requires
                        n >= 128,
                ;
            }
        }
        assert(pow128(k + 1) == 128 * pow128(k));
        assert((n / 128) * pow128(k + 1) <= n * pow128(k)) by (nonlinear_arith)
            requires
                pow128(k + 1) == 128 * pow128(k),
        ;
        lemma_uvarint_bytes_len(n / 128, k + 1);
    }
}

/// Decoding what `encode_uvarint` wrote, at whatever place in a buffer and in
/// whatever group position, gives the number back and stops behind its bytes.
pub proof fn lemma_scan_uvarint_of_bytes(n: nat, k: nat, before: Seq<u8>, after: Seq<u8>)
    requires
        k <= 9,
        n * pow128(k) < 2 * pow128(9),
    ensures
        scan_uvarint(before + uvarint_bytes(n) + after, before.len() as int, k) == (
            Some(n * pow128(k)),
            (before.len() + uvarint_bytes(n).len()) as int,
        ),
    decreases n,
{
    lemma_pow128_values();
    lemma_pow128_monotonic(k, 9);
    let s = before + uvarint_bytes(n) + after;
    let pos = before.len() as int;
    if n < 128 {
        assert(s[pos] == n as u8);
        if k >= 9 {
            assert(n <= 1) by (nonlinear_arith)
                requires
                    n * pow128(9) < 2 * pow128(9),
                    pow128(9) > 0,
            ;
        }
    } else {
        assert(k < 9) by {
            if k == 9 {
                assert(n * pow128(9) >= 128 * pow128(9)) by (nonlinear_arith)
                    requires
                        n >= 128,
                ;
            }
        }
        let b = (128 + n % 128) as u8;
        assert(s[pos] == b);
        assert(b % 128 == n % 128);
        assert(pow128(k + 1) == 128 * pow128(k));
        assert((n / 128) * pow128(k + 1) <= n * pow128(k)) by (nonlinear_arith)
            requires
                pow128(k + 1) == 128 * pow128(k),
        ;
        lemma_scan_uvarint_of_bytes(n / 128, k + 1, before.push(b), after);
        assert(before.push(b) + uvarint_bytes(n / 128) + after =~= s);
        assert((n % 128) * pow128(k) + (n / 128) * pow128(k + 1) == n * pow128(k))
            by (nonlinear_arith)
            requires
                pow128(k + 1) == 128 * pow128(k),
        ;
    }
}

/// Round trip: a varint written by `encode_uvarint` decodes to the number that
/// was written, and decoding consumes exactly the bytes that encode it.
pub proof fn lemma_uvarint_roundtrip(n: u64, before: Seq<u8>, after: Seq<u8>)
    ensures
        uvarint_value(before + uvarint_bytes(n as nat) + after, before.len() as int) == Some(n),
        uvarint_end(before + uvarint_bytes(n as nat) + after, before.len() as int) == before.len()
            + uvarint_bytes(n as nat).len(),
        1 <= uvarint_bytes(n as nat).len() <= 10,
{
    lemma_pow128_values();
    lemma_scan_uvarint_of_bytes(n as nat, 0, before, after);
    lemma_uvarint_bytes_len(n as nat, 0);
}

/// Round trip for byte strings: what `encode_str` wrote decodes to the same
/// bytes, and decoding stops behind them.
pub proof fn lemma_str_roundtrip(b: Seq<u8>, before: Seq<u8>, after: Seq<u8>)
    requires
        b.len() <= u64::MAX,
    ensures
        str_at(before + str_bytes(b) + after, before.len() as int) == Some(b),
        str_end(before + str_bytes(b) + after, before.len() as int) == before.len() + str_bytes(
            b,
        ).len(),
{
    let s = before + str_bytes(b) + after;
    lemma_uvarint_roundtrip(b.len() as u64, before, b + after);
    assert(before + uvarint_bytes(b.len()) + (b + after) =~= s);
    let from: int = (before.len() + uvarint_bytes(b.len()).len()) as int;
    assert(s.subrange(from, from + b.len()) =~= b);
}

/// Where the bytes of `s` from `pos` on start with the varint of `n`,
/// decoding at `pos` gives `n` and stops behind those bytes.
pub proof fn lemma_uvarint_in_place(s: Seq<u8>, pos: int, n: u64)
    requires
        0 <= pos,
        pos + uvarint_bytes(n as nat).len() <= s.len(),
        s.subrange(pos, pos + uvarint_bytes(n as nat).len()) == uvarint_bytes(n as nat),
    ensures
        uvarint_value(s, pos) == Some(n),
        uvarint_end(s, pos) == pos + uvarint_bytes(n as nat).len(),
{
    let end = pos + uvarint_bytes(n as nat).len();
    lemma_uvarint_roundtrip(n, s.subrange(0, pos), s.subrange(end, s.len() as int));
    assert(s.subrange(0, pos) + uvarint_bytes(n as nat) + s.subrange(end, s.len() as int) =~= s);
}

/// Where the bytes of `s` from `pos` on start with the bytes of the string
/// `b`, decoding at `pos` gives `b` and stops behind those bytes.
pub proof fn lemma_str_in_place(s: Seq<u8>, pos: int, b: Seq<u8>)
    requires
        0 <= pos,
        b.len() <= u64::MAX,
        pos + str_bytes(b).len() <= s.len(),
        s.subrange(pos, pos + str_bytes(b).len()) == str_bytes(b),
    ensures
        str_at(s, pos) == Some(b),
        str_end(s, pos) == pos + str_bytes(b).len(),
{
    let end = pos + str_bytes(b).len();
    lemma_str_roundtrip(b, s.subrange(0, pos), s.subrange(end, s.len() as int));
    assert(s.subrange(0, pos) + str_bytes(b) + s.subrange(end, s.len() as int) =~= s);
}

} // verus!

//! Little-endian integer codecs used by the wire protocol and the
//! persisted file format.
//!
//! Keys travel with a fixed 2-byte length, scan counts with a fixed
//! 4-byte count. Value lengths use a minimal variable-length form: the
//! low byte first, with every trailing zero byte stripped, so that `0`
//! encodes as no bytes at all. The reader pads with zeros back to the
//! full width, which makes the pair of codecs lossless.

use vstd::prelude::*;
use vstd::utf8::valid_utf8;

verus! {

/// Relies on std::str::from_utf8: it returns `Ok` exactly when the
/// bytes are valid UTF-8, and the string slice it returns views those
/// same bytes.
#[verifier::external_body]
pub fn utf8_to_string(v: &[u8]) -> (r: Option<String>)
    ensures
        r is Some <==> valid_utf8(v@),
        r matches Some(s) ==> vstd::utf8::encode_utf8(s@) == v@,
{
    match std::str::from_utf8(v) {
        Ok(s) => Some(s.to_owned()),
        Err(_) => None,
    }
}

/// The string a valid UTF-8 byte sequence decodes to is the one whose
/// encoding those bytes are.
pub proof fn lemma_utf8_bytes_decode(s: Seq<char>, v: Seq<u8>)
    requires
        vstd::utf8::encode_utf8(s) == v,
    ensures
        vstd::utf8::decode_utf8(v) == s,
{
    vstd::utf8::encode_utf8_decode_utf8(s);
}

/// The unsigned integer denoted by a little-endian byte sequence:
/// the first byte is the least significant.
pub open spec fn le_value(s: Seq<u8>) -> nat
    decreases s.len(),
{
    if s.len() == 0 {
        0
    } else {
        s[0] as nat + 256 * le_value(s.drop_first())
    }
}

/// The minimal little-endian encoding of `n`: low byte first and no
/// trailing zero bytes, so `0` encodes as the empty sequence.
pub open spec fn min_le_bytes(n: nat) -> Seq<u8>
    decreases n,
{
    if n == 0 {
        seq![]
    } else {
        seq![(n % 256) as u8] + min_le_bytes(n / 256)
    }
}

/// The fixed-width little-endian encoding of `n` in exactly `w` bytes
/// (the value is taken modulo `256^w`).
pub open spec fn le_bytes(n: nat, w: nat) -> Seq<u8>
    decreases w,
{
    if w == 0 {
        seq![]
    } else {
        seq![(n % 256) as u8] + le_bytes(n / 256, (w - 1) as nat)
    }
}

/// `256^w`, the number of values a `w`-byte field can hold.
pub open spec fn pow256(w: nat) -> nat
    decreases w,
{
    if w == 0 {
        1
    } else {
        256 * pow256((w - 1) as nat)
    }
}

/// A little-endian byte sequence denotes a value below `256^len`.
pub proof fn lemma_le_value_bound(s: Seq<u8>)
    ensures
        le_value(s) < pow256(s.len()),
    decreases s.len(),
{
    if s.len() == 0 {
    } else {
        lemma_le_value_bound(s.drop_first());
    }
}

/// Decoding the minimal encoding of `n` gives back `n`.
pub proof fn lemma_min_le_bytes_value(n: nat)
    ensures
        le_value(min_le_bytes(n)) == n,
    decreases n,
{
    if n == 0 {
    } else {
        lemma_min_le_bytes_value(n / 256);
        let s = seq![(n % 256) as u8] + min_le_bytes(n / 256);
        assert(s.drop_first() =~= min_le_bytes(n / 256));
        assert(n % 256 + 256 * (n / 256) == n) by {
            vstd::arithmetic::div_mod::lemma_fundamental_div_mod(n as int, 256);
        }
    }
}

/// A value below `256^w` has a minimal encoding of at most `w` bytes.
pub proof fn lemma_min_le_bytes_len(n: nat, w: nat)
    requires
        n < pow256(w),
    ensures
        min_le_bytes(n).len() <= w,
    decreases w,
{
    if n == 0 {
    } else {
        assert(w > 0);
        assert(n / 256 < pow256((w - 1) as nat)) by {
            vstd::arithmetic::div_mod::lemma_multiply_divide_lt(
                n as int,
                256,
                pow256((w - 1) as nat) as int,
            );
        }
        lemma_min_le_bytes_len(n / 256, (w - 1) as nat);
    }
}

/// No encoding of a value is shorter than the minimal one: every byte
/// sequence denoting `le_value(s)` has at least `min_le_bytes`'s length.
pub proof fn lemma_min_le_bytes_minimal(s: Seq<u8>)
    ensures
        min_le_bytes(le_value(s)).len() <= s.len(),
    decreases s.len(),
{
    if s.len() == 0 {
    } else {
        let n = le_value(s);
        if n == 0 {
        } else {
            let rest = s.drop_first();
            assert(n == s[0] + 256 * le_value(rest));
            assert(n / 256 == le_value(rest)) by {
                vstd::arithmetic::div_mod::lemma_div_multiples_vanish_fancy(
                    le_value(rest) as int,
                    s[0] as int,
                    256,
                );
            }
            lemma_min_le_bytes_minimal(rest);
        }
    }
}

/// The variable-length codec is lossless: decoding the minimal
/// encoding of any `u64` yields that number again, and the byte count
/// is the least width that can represent it.
pub proof fn lemma_u64_codec_round_trip(n: u64)
    ensures
        le_value(min_le_bytes(n as nat)) == n,
        forall|s: Seq<u8>| le_value(s) == n ==> min_le_bytes(n as nat).len() <= s.len(),
{
    lemma_min_le_bytes_value(n as nat);
    assert forall|s: Seq<u8>| le_value(s) == n implies min_le_bytes(n as nat).len()
        <= s.len() by {
        lemma_min_le_bytes_minimal(s);
    }
}

/// `2^64 == 256^8`: every `u64` fits in eight little-endian bytes.
pub proof fn lemma_pow256_8()
    ensures
        pow256(8) == 0x1_0000_0000_0000_0000,
        pow256(7) == 0x1_0000_0000_0000_00,
        pow256(4) == 0x1_0000_0000,
        pow256(3) == 0x100_0000,
        pow256(2) == 0x1_0000,
        pow256(1) == 0x100,
{
    assert(pow256(0) == 1);
    assert(pow256(1) == 0x100);
    assert(pow256(2) == 0x1_0000);
    assert(pow256(3) == 0x100_0000);
    assert(pow256(4) == 0x1_0000_0000);
    assert(pow256(5) == 0x100_0000_0000);
    assert(pow256(6) == 0x1_0000_0000_0000);
    assert(pow256(7) == 0x1_0000_0000_0000_00);
    assert(pow256(8) == 0x1_0000_0000_0000_0000);
}

/// Append a byte slice to a buffer.
pub(crate) fn push_all(dst: &mut Vec<u8>, src: &[u8])
    ensures
        final(dst)@ == old(dst)@ + src@,
{
    let mut i: usize = 0;
    while i < src.len()
        invariant
            i <= src@.len(),
            dst@ == old(dst)@ + src@.take(i as int),
        decreases src@.len() - i,
    {
        proof {
            assert((old(dst)@ + src@.take(i as int)).push(src@[i as int]) =~= old(dst)@
                + src@.take(i + 1));
        }
        dst.push(src[i]);
        i = i + 1;
    }
    proof {
        assert(src@.take(src@.len() as int) =~= src@);
    }
}

/// Convert a `u64` to its minimal little-endian bytes, little end
/// first, trailing zero bytes stripped, together with their count.
pub fn u64_to_bytes(n: u64) -> (r: (u8, Vec<u8>))
    ensures
        r.1@ == min_le_bytes(n as nat),
        r.0 as nat == min_le_bytes(n as nat).len(),
        r.0 <= 8,
{
    proof {
        lemma_pow256_8();
        lemma_min_le_bytes_len(n as nat, 8);
    }
    let mut buffer: Vec<u8> = Vec::new();
    let mut cur: u64 = n;
    while cur > 0
        invariant
            min_le_bytes(n as nat) == buffer@ + min_le_bytes(cur as nat),
            min_le_bytes(n as nat).len() <= 8,
        decreases cur,
    {
        proof {
            assert(min_le_bytes(cur as nat) == seq![(cur as nat % 256) as u8] + min_le_bytes(
                cur as nat / 256,
            ));
            assert(buffer@ + min_le_bytes(cur as nat) =~= buffer@.push((cur % 256) as u8)
                + min_le_bytes((cur / 256) as nat));
        }
        buffer.push((cur % 256) as u8);
        cur = cur / 256;
    }
    proof {
        assert(buffer@ + min_le_bytes(0) =~= buffer@);
    }
    let count = buffer.len() as u8;
    (count, buffer)
}

/// Read a `u64` from up to eight little-endian bytes; missing high
/// bytes count as zero. More than eight bytes cannot be taken, since
/// the value could then exceed a `u64`.
pub fn bytes_to_u64(bytes: &[u8]) -> (r: u64)
    requires
        bytes@.len() <= 8,
    ensures
        r as nat == le_value(bytes@),
{
    proof {
        lemma_pow256_8();
    }
    let mut res: u64 = 0;
    let mut i: usize = bytes.len();
    while i > 0
        invariant
            i <= bytes@.len() <= 8,
            res as nat == le_value(bytes@.skip(i as int)),
        decreases i,
    {
        proof {
            lemma_pow256_8();
            lemma_le_value_bound(bytes@.skip(i as int));
            assert(pow256((bytes@.len() - i) as nat) <= pow256(7)) by {
                lemma_pow256_nondecreasing((bytes@.len() - i) as nat, 7);
            }
            assert(bytes@.skip(i as int - 1).drop_first() =~= bytes@.skip(i as int));
            assert(bytes@.skip(i as int - 1)[0] == bytes@[i as int - 1]);
        }
        i = i - 1;
        res = res * 256 + bytes[i] as u64;
    }
    proof {
        assert(bytes@.skip(0) =~= bytes@);
    }
    res
}

/// `256^w` is positive for every width.
proof fn lemma_pow256_pos(w: nat)
    ensures
        pow256(w) >= 1,
    decreases w,
{
    if w > 0 {
        lemma_pow256_pos((w - 1) as nat);
    }
}

/// `256^a <= 256^b` whenever `a <= b`.
proof fn lemma_pow256_nondecreasing(a: nat, b: nat)
    requires
        a <= b,
    ensures
        pow256(a) <= pow256(b),
    decreases b,
{
    if a < b {
        lemma_pow256_nondecreasing(a, (b - 1) as nat);
        assert(pow256(b) == 256 * pow256((b - 1) as nat));
    }
}

/// Convert a `u16` to its two little-endian bytes.
pub fn u16_to_bytes(n: u16) -> (r: [u8; 2])
    ensures
        r@ == le_bytes(n as nat, 2),
        le_value(r@) == n,
{
    let r = [(n % 256) as u8, (n / 256) as u8];
    proof {
        let s = le_bytes(n as nat, 2);
        assert(s =~= seq![(n as nat % 256) as u8, (n as nat / 256 % 256) as u8]) by {
            assert(s.drop_first() =~= le_bytes(n as nat / 256, 1));
            assert(le_bytes(n as nat / 256, 1).drop_first() =~= le_bytes(n as nat / 256 / 256, 0));
        }
        assert(n as nat / 256 % 256 == n as nat / 256) by {
            assert(n as nat / 256 < 256);
            vstd::arithmetic::div_mod::lemma_small_mod(n as nat / 256, 256);
        }
        assert(r@ =~= s);
        lemma_le_bytes_value(n as nat, 2);
        lemma_pow256_8();
        vstd::arithmetic::div_mod::lemma_small_mod(n as nat, pow256(2));
    }
    r
}

/// Decoding the fixed-width encoding gives the value modulo `256^w`.
proof fn lemma_le_bytes_value(n: nat, w: nat)
    ensures
        le_value(le_bytes(n, w)) == n % pow256(w),
    decreases w,
{
    if w == 0 {
        assert(n % 1 == 0) by (nonlinear_arith);
    } else {
        lemma_le_bytes_value(n / 256, (w - 1) as nat);
        let s = seq![(n % 256) as u8] + le_bytes(n / 256, (w - 1) as nat);
        assert(s.drop_first() =~= le_bytes(n / 256, (w - 1) as nat));
        assert(n % 256 + 256 * (n / 256 % pow256((w - 1) as nat)) == n % (256 * pow256(
            (w - 1) as nat,
        ))) by {
            lemma_pow256_pos((w - 1) as nat);
            vstd::arithmetic::div_mod::lemma_mod_breakdown(n as int, 256, pow256((w - 1) as nat) as int);
        }
    }
}

/// Read a `u16` from up to two little-endian bytes; missing high
/// bytes count as zero.
pub fn bytes_to_u16(bytes: &[u8]) -> (r: u16)
    requires
        bytes@.len() <= 2,
    ensures
        r as nat == le_value(bytes@),
{
    proof {
        lemma_pow256_8();
    }
    let mut res: u16 = 0;
    let mut i: usize = bytes.len();
    while i > 0
        invariant
            i <= bytes@.len() <= 2,
            res as nat == le_value(bytes@.skip(i as int)),
        decreases i,
    {
        proof {
            lemma_pow256_8();
            lemma_le_value_bound(bytes@.skip(i as int));
            assert(pow256((bytes@.len() - i) as nat) <= pow256(1)) by {
                lemma_pow256_nondecreasing((bytes@.len() - i) as nat, 1);
            }
            assert(bytes@.skip(i as int - 1).drop_first() =~= bytes@.skip(i as int));
            assert(bytes@.skip(i as int - 1)[0] == bytes@[i as int - 1]);
        }
        i = i - 1;
        res = res * 256 + bytes[i] as u16;
    }
    proof {
        assert(bytes@.skip(0) =~= bytes@);
    }
    res
}

/// Read a `u32` from up to four little-endian bytes; missing high
/// bytes count as zero.
pub fn bytes_to_u32(bytes: &[u8]) -> (r: u32)
    requires
        bytes@.len() <= 4,
    ensures
        r as nat == le_value(bytes@),
{
    proof {
        lemma_pow256_8();
    }
    let mut res: u32 = 0;
    let mut i: usize = bytes.len();
    while i > 0
        invariant
            i <= bytes@.len() <= 4,
            res as nat == le_value(bytes@.skip(i as int)),
        decreases i,
    {
        proof {
            lemma_pow256_8();
            lemma_le_value_bound(bytes@.skip(i as int));
            assert(pow256((bytes@.len() - i) as nat) <= pow256(3)) by {
                lemma_pow256_nondecreasing((bytes@.len() - i) as nat, 3);
            }
            assert(bytes@.skip(i as int - 1).drop_first() =~= bytes@.skip(i as int));
            assert(bytes@.skip(i as int - 1)[0] == bytes@[i as int - 1]);
        }
        i = i - 1;
        res = res * 256 + bytes[i] as u32;
    }
    proof {
        assert(bytes@.skip(0) =~= bytes@);
    }
    res
}

/// Convert a `u32` to its four little-endian bytes.
pub fn u32_to_bytes(n: u32) -> (r: [u8; 4])
    ensures
        r@ == le_bytes(n as nat, 4),
        le_value(r@) == n,
{
    let b0 = (n % 256) as u8;
    let n1 = n / 256;
    let b1 = (n1 % 256) as u8;
    let n2 = n1 / 256;
    let b2 = (n2 % 256) as u8;
    let n3 = n2 / 256;
    let b3 = (n3 % 256) as u8;
    let r = [b0, b1, b2, b3];
    proof {
        let m = n as nat;
        let s = le_bytes(m, 4);
        assert(s =~= seq![(m % 256) as u8] + le_bytes(m / 256, 3));
        assert(le_bytes(m / 256, 3) =~= seq![(m / 256 % 256) as u8] + le_bytes(m / 256 / 256, 2));
        assert(le_bytes(m / 256 / 256, 2) =~= seq![(m / 256 / 256 % 256) as u8] + le_bytes(
            m / 256 / 256 / 256,
            1,
        ));
        assert(le_bytes(m / 256 / 256 / 256, 1) =~= seq![(m / 256 / 256 / 256 % 256) as u8]
            + le_bytes(m / 256 / 256 / 256 / 256, 0));
        assert(le_bytes(m / 256 / 256 / 256 / 256, 0) =~= Seq::<u8>::empty());
        assert(r@ =~= s);
        lemma_le_bytes_value(m, 4);
        lemma_pow256_8();
        vstd::arithmetic::div_mod::lemma_small_mod(m, pow256(4));
    }
    r
}

/// Append the fixed file name of the persisted snapshot to the given
/// working directory; with no directory, there is no file to use.
pub fn get_db_file(current_dir: Option<&str>) -> (r: Option<String>)
    ensures
        match current_dir {
            Some(dir) => r matches Some(p) && p@ == dir@ + "/h2okv.data"@,
            None => r is None,
        },
{
    match current_dir {
        Some(dir) => {
            let mut path = dir.to_owned();
            path.append("/h2okv.data");
            Some(path)
        },
        None => None,
    }
}

} // verus!

//! LEB128-style unsigned varints, used for delta-encoded posting lists.

use vstd::prelude::*;

verus! {

/// The encoding of `v`: seven bits per byte, least significant group first,
/// the high bit set on every byte but the last.
pub open spec fn encode(v: nat) -> Seq<u8>
    decreases v,
{
    if v < 128 {
        seq![v as u8]
    } else {
        seq![(v % 128 + 128) as u8] + encode(v / 128)
    }
}

/// How many bytes at the start of `s` have the high bit set.
pub open spec fn continued(s: Seq<u8>) -> nat
    decreases s.len(),
{
    if s.len() == 0 || s[0] < 128 {
        0
    } else {
        1 + continued(s.skip(1))
    }
}

/// The number whose base-128 digits, least significant first, are the low
/// seven bits of the bytes of `s`.
pub open spec fn base128(s: Seq<u8>) -> nat
    decreases s.len(),
{
    if s.len() == 0 {
        0
    } else {
        (s[0] % 128) as nat + 128 * base128(s.skip(1))
    }
}

/// What reading one varint from the start of `s` yields, and how many bytes
/// it consumes. A varint has at most five bytes; bits beyond the thirty-second
/// are dropped.
pub open spec fn decode(s: Seq<u8>) -> (Option<u32>, nat) {
    let n = continued(s);
    if n >= 5 {
        (None, 5)
    } else if n == s.len() {
        (None, n)
    } else {
        (Some((base128(s.take(n as int + 1)) % 0x1_0000_0000) as u32), n + 1)
    }
}

/// What reading one varint at `pos` yields, and the position after it. Past
/// the end nothing is read.
pub open spec fn decode_at(buf: Seq<u8>, pos: nat) -> (Option<u32>, nat) {
    if pos > buf.len() {
        (None, pos)
    } else {
        let (v, n) = decode(buf.skip(pos as int));
        (v, pos + n)
    }
}

/// The powers of 128.
pub open spec fn pow128(k: nat) -> nat
    decreases k,
{
    if k == 0 {
        1
    } else {
        128 * pow128((k - 1) as nat)
    }
}

proof fn lemma_base128_push(s: Seq<u8>, b: u8)
    ensures
        base128(s.push(b)) == base128(s) + (b % 128) * pow128(s.len()),
    decreases s.len(),
{
    if s.len() == 0 {
        assert(s.push(b).skip(1) =~= Seq::<u8>::empty());
        reveal_with_fuel(base128, 2);
        let d = (b % 128) as int;
        assert(d * 1 == d) by (nonlinear_arith);
    } else {
        lemma_base128_push(s.skip(1), b);
        assert(s.push(b).skip(1) =~= s.skip(1).push(b));
        let p = pow128((s.len() - 1) as nat) as int;
        let d = (b % 128) as int;
        assert(128 * (d * p) == d * (128 * p)) by (nonlinear_arith);
    }
}

proof fn lemma_base128_bound(s: Seq<u8>)
    ensures
        base128(s) < pow128(s.len()),
    decreases s.len(),
{
    if s.len() > 0 {
        lemma_base128_bound(s.skip(1));
    }
}

proof fn lemma_pow128_small()
    ensures
        pow128(0) == 1,
        pow128(1) == 0x80,
        pow128(2) == 0x4000,
        pow128(3) == 0x20_0000,
        pow128(4) == 0x1000_0000,
{
    reveal_with_fuel(pow128, 5);
}

proof fn lemma_base128_push_small(s: Seq<u8>, b: u8)
    requires
        s.len() <= 4,
    ensures
        s.len() == 0 ==> base128(s.push(b)) == base128(s) + (b % 128),
        s.len() == 1 ==> base128(s.push(b)) == base128(s) + (b % 128) * 0x80,
        s.len() == 2 ==> base128(s.push(b)) == base128(s) + (b % 128) * 0x4000,
        s.len() == 3 ==> base128(s.push(b)) == base128(s) + (b % 128) * 0x20_0000,
        s.len() == 4 ==> base128(s.push(b)) == base128(s) + (b % 128) * 0x1000_0000,
{
    lemma_base128_push(s, b);
    lemma_pow128_small();
    let d = (b % 128) as int;
    let p = pow128(s.len()) as int;
    assert(p == 1 ==> d * p == d) by (nonlinear_arith);
    assert(p == 0x80 ==> d * p == d * 0x80) by (nonlinear_arith);
    assert(p == 0x4000 ==> d * p == d * 0x4000) by (nonlinear_arith);
    assert(p == 0x20_0000 ==> d * p == d * 0x20_0000) by (nonlinear_arith);
    assert(p == 0x1000_0000 ==> d * p == d * 0x1000_0000) by (nonlinear_arith);
}

proof fn lemma_continued_prefix(s: Seq<u8>, k: nat)
    requires
        k <= s.len(),
        forall|i: int| 0 <= i < k ==> s[i] >= 128,
    ensures
        continued(s) == k + continued(s.skip(k as int)),
    decreases k,
{
    if k == 0 {
        assert(s.skip(0) =~= s);
    } else {
        assert forall|i: int| 0 <= i < k - 1 implies s.skip(1)[i] >= 128 by {
            assert(s.skip(1)[i] == s[i + 1]);
        }
        lemma_continued_prefix(s.skip(1), (k - 1) as nat);
        assert(s.skip(1).skip(k - 1) =~= s.skip(k as int));
    }
}

proof fn lemma_or_is_sum(r: u32, x: u32, k: u32)
    by (bit_vector)
    requires
        x < 0x80,
    ensures
        k == 0 && r == 0 ==> (r | (x << k)) == r + x,
        k == 7 && r < 0x80 ==> (r | (x << k)) == r + x * 0x80,
        k == 14 && r < 0x4000 ==> (r | (x << k)) == r + x * 0x4000,
        k == 21 && r < 0x20_0000 ==> (r | (x << k)) == r + x * 0x20_0000,
        k == 28 && r < 0x1000_0000 ==> (r | (x << k)) == (r + x * 0x1000_0000) % 0x1_0000_0000,
{
}

proof fn lemma_low_bits(b: u8)
    by (bit_vector)
    ensures
        b & 0x7f == b % 128,
        b & 0x7f < 0x80,
        (b & 0x80 == 0) <==> b < 128,
{
}

proof fn lemma_group(v: u32)
    by (bit_vector)
    ensures
        v >> 7 == v / 128,
        ((v & 0xff) as u8) | 0x80 == (v % 128 + 128) as u8,
{
}

/// Append the encoding of `v` to `buf`.
pub fn put(buf: &mut Vec<u8>, v: u32)
    ensures
        final(buf)@ == old(buf)@ + encode(v as nat),
{
    let mut v: u32 = v;
    let ghost whole = v as nat;
    while v >= 0x80
        invariant
            buf@ + encode(v as nat) =~= old(buf)@ + encode(whole),
        decreases v,
    {
        proof {
            lemma_group(v);
        }
        buf.push(((v & 0xff) as u8) | 0x80);
        v = v >> 7;
    }
    buf.push(v as u8);
}

/// Decode one varint at `*pos`, advancing `*pos`. Returns `None` on truncation.
pub fn get(buf: &[u8], pos: &mut usize) -> (r: Option<u32>)
    ensures
        (r, *final(pos) as nat) == decode_at(buf@, *old(pos) as nat),
{
    if *pos > buf.len() {
        return None;
    }
    let mut result: u32 = 0;
    let mut shift: u32 = 0;
    let start: usize = *pos;
    let ghost s = buf@.skip(start as int);
    let ghost mut k: nat = 0;
    proof {
        lemma_pow128_small();
        assert(s.take(0) =~= Seq::<u8>::empty());
    }
    loop
        invariant
            s == buf@.skip(start as int),
            start <= buf@.len(),
            *pos == start + k,
            k <= 4,
            k <= s.len(),
            shift == 7 * k,
            forall|i: int| 0 <= i < k ==> s[i] >= 128,
            result == base128(s.take(k as int)),
            start == *old(pos),
        decreases 5 - k,
    {
        proof {
            lemma_continued_prefix(s, k);
        }
        if *pos >= buf.len() {
            return None;
        }
        let b: u8 = buf[*pos];
        *pos = *pos + 1;
        let low: u32 = (b & 0x7f) as u32;
        proof {
            lemma_pow128_small();
            lemma_low_bits(b);
            lemma_base128_bound(s.take(k as int));
            lemma_or_is_sum(result, low, shift);
            lemma_base128_push_small(s.take(k as int), b);
            assert(s.take(k as int).push(b) =~= s.take(k as int + 1));
            assert(s.skip(k as int)[0] == b);
        }
        result = result | (low << shift);
        if b & 0x80 == 0 {
            return Some(result);
        }
        proof {
            assert forall|i: int| 0 <= i < k + 1 implies s[i] >= 128 by {}
            lemma_continued_prefix(s, k + 1);
            k = k + 1;
        }
        shift = shift + 7;
        if shift > 28 {
            return None;
        }
    }
}

/// Decoding gives back what was encoded, whatever follows it: the value, and
/// the position just after it.
pub proof fn law_roundtrip(before: Seq<u8>, v: u32, after: Seq<u8>)
    ensures
        decode_at(before + encode(v as nat) + after, before.len()) == (
            Some(v),
            before.len() + encode(v as nat).len(),
        ),
{
    let s = encode(v as nat) + after;
    assert((before + encode(v as nat) + after).skip(before.len() as int) =~= s);
    lemma_encode(v as nat, after);
    lemma_encode_len(v as nat);
}

proof fn lemma_encode(v: nat, after: Seq<u8>)
    ensures
        encode(v).len() >= 1,
        continued(encode(v) + after) == encode(v).len() - 1,
        base128((encode(v) + after).take(encode(v).len() as int)) == v,
    decreases v,
{
    let s = encode(v) + after;
    assert(s.take(encode(v).len() as int) =~= encode(v));
    if v < 128 {
        reveal_with_fuel(base128, 2);
        assert(encode(v).skip(1) =~= Seq::<u8>::empty());
    } else {
        lemma_encode(v / 128, after);
        assert(s.skip(1) =~= encode(v / 128) + after);
        assert(encode(v).skip(1) =~= encode(v / 128));
        assert((encode(v / 128) + after).take(encode(v / 128).len() as int) =~= encode(v / 128));
    }
}

proof fn lemma_encode_len(v: nat)
    ensures
        v <= u32::MAX ==> encode(v).len() <= 5,
{
    reveal_with_fuel(encode, 5);
}

/// The bytes of a number are its base-128 digits, least significant first: all
/// but the last have the high bit set, and a number below 128 takes one byte.
pub proof fn law_encoded_digits(v: nat)
    ensures
        encode(v).len() >= 1,
        encode(v).last() < 128,
        forall|i: int| 0 <= i < encode(v).len() - 1 ==> encode(v)[i] >= 128,
        base128(encode(v)) == v,
        v < 128 <==> encode(v).len() == 1,
        encode(v).len() > 1 ==> encode(v).last() > 0,
    decreases v,
{
    let none: Seq<u8> = seq![];
    lemma_encode(v, none);
    assert(encode(v) + none =~= encode(v));
    assert(encode(v).take(encode(v).len() as int) =~= encode(v));
    if v >= 128 {
        law_encoded_digits(v / 128);
        let rest = encode(v / 128);
        assert forall|i: int| 0 <= i < encode(v).len() - 1 implies encode(v)[i] >= 128 by {
            if i > 0 {
                assert(encode(v)[i] == rest[i - 1]);
            }
        }
        assert(encode(v).last() == rest.last());
        if v / 128 < 128 {
            assert(rest =~= seq![(v / 128) as u8]);
        }
    }
}

/// A number that is cut short is not read.
pub proof fn law_truncated(v: nat, k: int)
    requires
        0 <= k < encode(v).len() <= 5,
    ensures
        decode(encode(v).take(k)).0 is None,
{
    let s = encode(v).take(k);
    law_encoded_digits(v);
    assert forall|i: int| 0 <= i < k implies s[i] >= 128 by {
        assert(s[i] == encode(v)[i]);
    }
    lemma_all_continued(s);
}

proof fn lemma_all_continued(s: Seq<u8>)
    requires
        forall|i: int| 0 <= i < s.len() ==> s[i] >= 128,
    ensures
        continued(s) == s.len(),
    decreases s.len(),
{
    if s.len() > 0 {
        let rest = s.skip(1);
        assert forall|i: int| 0 <= i < rest.len() implies rest[i] >= 128 by {
            assert(rest[i] == s[i + 1]);
        }
        lemma_all_continued(rest);
    }
}

/// Five bytes that all have the high bit set are no number.
pub proof fn law_overlong(s: Seq<u8>)
    requires
        s.len() >= 5,
        forall|i: int| 0 <= i < 5 ==> s[i] >= 128,
    ensures
        decode(s).0 is None,
{
    lemma_continued_prefix(s, 5);
}

/// Up to four bytes with the high bit set and one without are a number, that of
/// their base-128 digits but for bits beyond the thirty-second, and nothing
/// after them is read.
pub proof fn law_decoded(s: Seq<u8>, n: nat)
    requires
        n < 5,
        n < s.len(),
        forall|i: int| 0 <= i < n ==> s[i] >= 128,
        s[n as int] < 128,
    ensures
        decode(s) == (
            Some((base128(s.take(n as int + 1)) % 0x1_0000_0000) as u32),
            (n + 1) as nat,
        ),
{
    lemma_continued_prefix(s, n);
    assert(s.skip(n as int)[0] == s[n as int]);
}

} // verus!

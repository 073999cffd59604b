//! Variable-length quantities: numbers written seven bits to a byte, where
//! the top bit of a byte says that another byte follows.
//!
//! The decoder gives the first byte of a quantity the lowest weight: the
//! k-th byte read contributes its low seven bits shifted left by `7 * k`. The
//! sum is kept in 32 bits; what lies beyond them is dropped, so a quantity of
//! any length decodes without failure.
//!
//! The standard encoding writes the highest base-128 digit first. Decoding it
//! therefore consumes exactly its bytes, and yields the value with its
//! digits in the opposite order: [`lemma_decode_of_encoding`]. The value
//! itself comes back where the digits read the same in both directions,
//! which every value below 128 does: [`lemma_vlq_round_trip`].

use vstd::arithmetic::div_mod::lemma_add_mod_noop;
use vstd::arithmetic::div_mod::lemma_add_mod_noop_right;
use vstd::arithmetic::div_mod::lemma_mul_mod_noop_left;
use vstd::arithmetic::div_mod::lemma_mul_mod_noop_right;
use vstd::prelude::*;

use crate::cursor::ByteCursor;
use crate::error::MidiError;

verus! {

/// `128` to the power `k`.
pub open spec fn pow128(k: nat) -> nat
    decreases k,
{
    if k == 0 {
        1
    } else {
        128 * pow128((k - 1) as nat)
    }
}

/// The count of bytes that the quantity at the front of `s` takes: up to and
/// including the first byte whose top bit is clear. `None` when `s` ends
/// before such a byte.
pub open spec fn vlq_len(s: Seq<u8>) -> Option<nat>
    decreases s.len(),
{
    if s.len() == 0 {
        None
    } else if s[0] < 0x80 {
        Some(1)
    } else {
        match vlq_len(s.drop_first()) {
            Some(n) => Some(n + 1),
            None => None,
        }
    }
}

/// The sum of the low seven bits of each byte of `s`, the byte at index `k`
/// weighted by `128` to the power `k`.
pub open spec fn vlq_value(s: Seq<u8>) -> nat
    decreases s.len(),
{
    if s.len() == 0 {
        0
    } else {
        (s[0] % 128) as nat + 128 * vlq_value(s.drop_first())
    }
}

/// The quantity at the front of `s`: its value, reduced to 32 bits, and the
/// count of bytes it takes. `None` when `s` ends inside the quantity.
pub open spec fn decode_vlq(s: Seq<u8>) -> Option<(u32, nat)> {
    match vlq_len(s) {
        Some(n) => Some(((vlq_value(s.take(n as int)) % 0x1_0000_0000) as u32, n)),
        None => None,
    }
}

/// Appending a byte adds its low seven bits at the next weight.
pub proof fn lemma_vlq_value_push(s: Seq<u8>, b: u8)
    ensures
        vlq_value(s.push(b)) == vlq_value(s) + (b % 128) * pow128(s.len()),
    decreases s.len(),
{
    let g = (b % 128) as nat;
    let longer = s.push(b);
    if s.len() == 0 {
        assert(vlq_value(longer) == g + 128 * vlq_value(longer.drop_first()));
        assert(g * pow128(0) == g) by (nonlinear_arith)
            requires
                pow128(0) == 1,
        ;
    } else {
        let tail = s.drop_first();
        assert(longer.drop_first() =~= tail.push(b));
        lemma_vlq_value_push(tail, b);
        let p = pow128(tail.len());
        assert(128 * (g * p) == g * (128 * p)) by (nonlinear_arith);
    }
}

/// Bytes with the top bit set at the front of `s` lengthen the quantity by
/// their count and decide nothing else about it.
pub proof fn lemma_vlq_len_skip(s: Seq<u8>, k: nat)
    requires
        k <= s.len(),
        forall|j: int| 0 <= j < k ==> s[j] >= 0x80,
    ensures
        vlq_len(s) == match vlq_len(s.skip(k as int)) {
            Some(n) => Some(n + k),
            None => None,
        },
    decreases k,
{
    if k == 0 {
        assert(s.skip(0) =~= s);
    } else {
        let tail = s.drop_first();
        assert(tail.skip(k - 1) =~= s.skip(k as int));
        assert forall|j: int| 0 <= j < k - 1 implies tail[j] >= 0x80 by {
            assert(tail[j] == s[j + 1]);
        }
        lemma_vlq_len_skip(tail, (k - 1) as nat);
    }
}

/// A quantity takes at least one byte and no more than there are.
pub proof fn lemma_vlq_len_bounds(s: Seq<u8>)
    ensures
        vlq_len(s) matches Some(n) ==> 1 <= n <= s.len(),
    decreases s.len(),
{
    if s.len() != 0 && s[0] >= 0x80 {
        lemma_vlq_len_bounds(s.drop_first());
    }
}

/// The count of base-128 digits of `v`; zero has none.
pub open spec fn digit_count(v: nat) -> nat
    decreases v,
{
    if v == 0 {
        0
    } else {
        1 + digit_count(v / 128)
    }
}

/// The number whose base-128 digits are those of `v` read in the opposite
/// direction: the lowest digit of `v` becomes the highest.
pub open spec fn digits_reversed(v: nat) -> nat
    decreases v,
{
    if v == 0 {
        0
    } else {
        digits_reversed(v / 128) + (v % 128) * pow128(digit_count(v / 128))
    }
}

/// One byte for each base-128 digit of `v`, the highest digit first, each
/// with the top bit set.
pub open spec fn continuation_bytes(v: nat) -> Seq<u8>
    decreases v,
{
    if v == 0 {
        Seq::empty()
    } else {
        continuation_bytes(v / 128).push((128 + v % 128) as u8)
    }
}

/// The standard encoding of `v` as a variable-length quantity: its base-128
/// digits, the highest first, with the top bit set on every byte but the
/// last.
pub open spec fn vlq_encode(v: nat) -> Seq<u8> {
    continuation_bytes(v / 128).push((v % 128) as u8)
}

/// The continuation bytes of `v` are as many as `v` has digits, all have the
/// top bit set, and their value is `v` with its digits reversed, which has
/// no more digits than `v`.
proof fn lemma_continuation_bytes(v: nat)
    ensures
        continuation_bytes(v).len() == digit_count(v),
        forall|j: int| 0 <= j < continuation_bytes(v).len() ==> continuation_bytes(v)[j] >= 0x80,
        vlq_value(continuation_bytes(v)) == digits_reversed(v),
        digits_reversed(v) < pow128(digit_count(v)),
    decreases v,
{
    if v != 0 {
        let upper = continuation_bytes(v / 128);
        let b = (128 + v % 128) as u8;
        lemma_continuation_bytes(v / 128);
        lemma_vlq_value_push(upper, b);
        let d = v % 128;
        let w = pow128(digit_count(v / 128));
        assert(digits_reversed(v / 128) + d * w < 128 * w) by (nonlinear_arith)
            requires
                digits_reversed(v / 128) < w,
                d <= 127,
        ;
    }
}

/// What decoding makes of a standard encoding, for every value of up to 28
/// bits and whatever bytes follow the encoding.
///
/// The decoder consumes exactly the bytes of the encoding, one to four of
/// them, and yields the value whose base-128 digits are those of `v` in the
/// opposite order, because it gives the first byte the lowest weight where
/// the encoding puts the highest digit first.
pub proof fn lemma_decode_of_encoding(v: nat, rest: Seq<u8>)
    requires
        v <= 0x0FFF_FFFF,
    ensures
        vlq_encode(v).len() == if v < 0x80 {
            1nat
        } else if v < 0x4000 {
            2nat
        } else if v < 0x20_0000 {
            3nat
        } else {
            4nat
        },
        digits_reversed(v) <= 0x0FFF_FFFF,
        decode_vlq(vlq_encode(v) + rest) == Some(
            (digits_reversed(v) as u32, vlq_encode(v).len()),
        ),
{
    let upper = continuation_bytes(v / 128);
    let last = (v % 128) as u8;
    let encoded = vlq_encode(v);
    let s = encoded + rest;
    let k = upper.len();
    lemma_continuation_bytes(v / 128);
    lemma_continuation_bytes(v);
    assert(k <= 3 && (k == 0 <==> v < 0x80) && (k <= 1 <==> v < 0x4000) && (k <= 2 <==> v
        < 0x20_0000)) by {
        reveal_with_fuel(digit_count, 5);
    }
    assert(pow128(k + 1) <= 0x1000_0000) by {
        reveal_with_fuel(pow128, 5);
    }
    assert forall|j: int| 0 <= j < k implies s[j] >= 0x80 by {
        assert(s[j] == upper[j]);
    }
    assert(s.skip(k as int)[0] == last);
    lemma_vlq_len_skip(s, k);
    assert(s.take((k + 1) as int) =~= encoded);
    lemma_vlq_value_push(upper, last);
    if v == 0 {
        assert((v % 128) * pow128(k) == 0) by (nonlinear_arith)
            requires
                v % 128 == 0,
        ;
    }
    assert(vlq_value(encoded) == digits_reversed(v));
}

/// Encoding a value and decoding the result gives the value back, with
/// exactly the bytes of the encoding consumed, for every value of up to 28
/// bits whose base-128 digits read the same in both directions; every value
/// below 128 is one of them.
pub proof fn lemma_vlq_round_trip(v: nat, rest: Seq<u8>)
    requires
        v <= 0x0FFF_FFFF,
        digits_reversed(v) == v,
    ensures
        1 <= vlq_encode(v).len() <= 4,
        decode_vlq(vlq_encode(v) + rest) == Some((v as u32, vlq_encode(v).len())),
{
    lemma_decode_of_encoding(v, rest);
}

/// A value below 128 is a single digit, which reads the same in both
/// directions.
pub proof fn lemma_single_digit_reversed(v: nat)
    requires
        v < 128,
    ensures
        digits_reversed(v) == v,
{
    if v != 0 {
        assert(digits_reversed(0) == 0);
        assert(v * pow128(0) == v) by (nonlinear_arith)
            requires
                pow128(0) == 1,
        ;
    }
}

/// One step of the decoder in 32 bits: the sum and the weight can be kept
/// reduced, and the reduced sum is still that of the whole value.
proof fn lemma_accumulate(value: nat, weight: nat, group: nat)
    ensures
        (value + group * weight) % 0x1_0000_0000 == ((value % 0x1_0000_0000) + group * (weight
            % 0x1_0000_0000)) % 0x1_0000_0000,
        (128 * weight) % 0x1_0000_0000 == ((weight % 0x1_0000_0000) * 128) % 0x1_0000_0000,
{
    let m = 0x1_0000_0000int;
    let v = value as int;
    let w = weight as int;
    let g = group as int;
    lemma_add_mod_noop(v, g * w, m);
    lemma_mul_mod_noop_right(g, w, m);
    lemma_add_mod_noop_right(v % m, g * (w % m), m);
    lemma_mul_mod_noop_left(w, 128, m);
}

/// Decodes the quantity at the cursor.
///
/// On success the cursor stands behind the quantity's last byte. When the
/// source ends inside the quantity the cursor is left where it was.
pub fn read_vlq(cursor: &mut ByteCursor) -> (r: Result<u32, MidiError>)
    ensures
        final(cursor).bytes() == old(cursor).bytes(),
        match r {
            Ok(v) => {
                &&& decode_vlq(old(cursor).unread()) matches Some((value, n))
                &&& v == value
                &&& final(cursor).position() == old(cursor).position() + n
            },
            Err(e) => {
                &&& e == MidiError::TruncatedInput
                &&& decode_vlq(old(cursor).unread()) is None
                &&& final(cursor).position() == old(cursor).position()
            },
        },
{
    let start: usize = cursor.position();
    let ghost bytes = cursor.bytes();
    let ghost unread = cursor.unread();
    let mut acc: u32 = 0;
    // the weight of the next byte, reduced to 32 bits: zero from the sixth
    // byte on
    let mut scale: u32 = 1;
    let mut count: usize = 0;
    loop
        invariant
            bytes == old(cursor).bytes(),
            start == old(cursor).position(),
            unread == old(cursor).unread(),
            cursor.bytes() == bytes,
            unread == bytes.subrange(start as int, bytes.len() as int),
            start + count <= bytes.len(),
            cursor.position() == start + count,
            forall|j: int| 0 <= j < count ==> unread[j] >= 0x80,
            acc == vlq_value(unread.take(count as int)) % 0x1_0000_0000,
            scale == pow128(count as nat) % 0x1_0000_0000,
        decreases bytes.len() - cursor.position(),
    {
        match cursor.read_u8() {
            Err(_) => {
                proof {
                    assert(unread.skip(count as int).len() == 0);
                    lemma_vlq_len_skip(unread, count as nat);
                }
                cursor.seek_back(count);
                return Err(MidiError::TruncatedInput);
            },
            Ok(b) => {
                let group: u8 = b & 0x7f;
                proof {
                    assert(b & 0x7f == b % 128) by (bit_vector);
                    assert(b & 0x80 == 0 <==> b < 0x80) by (bit_vector);
                    assert(unread.take(count + 1) =~= unread.take(count as int).push(b));
                    lemma_vlq_value_push(unread.take(count as int), b);
                    lemma_accumulate(
                        vlq_value(unread.take(count as int)),
                        pow128(count as nat),
                        group as nat,
                    );
                    assert(group * scale <= 127 * 0xffff_ffff) by (nonlinear_arith)
                        requires
                            group <= 127,
                            scale <= 0xffff_ffff,
                    ;
                }
                acc = ((acc as u64 + group as u64 * scale as u64) % 0x1_0000_0000) as u32;
                scale = ((scale as u64 * 128) % 0x1_0000_0000) as u32;
                count = count + 1;
                if b & 0x80 == 0 {
                    proof {
                        assert(unread.skip(count - 1)[0] == b);
                        lemma_vlq_len_skip(unread, (count - 1) as nat);
                    }
                    return Ok(acc);
                }
            },
        }
    }
}

} // verus!

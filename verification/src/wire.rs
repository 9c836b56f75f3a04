//! The mathematical model of the LEB128 wire format.
//!
//! An encoded value is a run of bytes whose continuation bit (bit 7) is
//! set, closed by one byte whose continuation bit is clear.  The seven low
//! bits of each byte carry the payload, least significant group first.

use vstd::prelude::*;
use vstd::arithmetic::power2::pow2;
use vstd::arithmetic::power2::lemma_pow2_adds;
use vstd::arithmetic::power2::lemma_pow2_strictly_increases;
use vstd::arithmetic::power2::lemma2_to64;
use vstd::arithmetic::power2::lemma2_to64_rest;
use vstd::arithmetic::div_mod::lemma_div_denominator;

verus! {

/// Whether an encoded byte has its continuation bit set, so that more
/// bytes of the same value follow it.
pub open spec fn has_continuation(byte: u8) -> bool {
    byte >= 128
}

/// The index of the first byte of `s` whose continuation bit is clear:
/// the byte that ends the first encoded value, if there is one.
pub open spec fn terminator_index(s: Seq<u8>) -> Option<int>
    decreases s.len(),
{
    if s.len() == 0 {
        None
    } else if !has_continuation(s[0]) {
        Some(0int)
    } else {
        match terminator_index(s.skip(1)) {
            Some(i) => Some(i + 1),
            None => None,
        }
    }
}

/// The unsigned value carried by the 7-bit payloads of the first `n`
/// bytes of `s`, least significant group first.
pub open spec fn unsigned_value(s: Seq<u8>, n: int) -> int
    decreases n,
{
    if n <= 0 {
        0
    } else {
        (s[0] % 128) + 128 * unsigned_value(s.skip(1), n - 1)
    }
}

/// The signed value carried by the 7-bit payloads of the first `n` bytes
/// of `s`: the payload of the final group is a two's complement quantity
/// of seven bits, whose bit 6 is the sign.
pub open spec fn signed_value(s: Seq<u8>, n: int) -> int
    decreases n,
{
    if n <= 1 {
        if s[0] % 128 >= 64 {
            (s[0] % 128) - 128
        } else {
            (s[0] % 128) as int
        }
    } else {
        (s[0] % 128) + 128 * signed_value(s.skip(1), n - 1)
    }
}

/// The minimal LEB128 encoding of an unsigned 64-bit value: low seven
/// bits first, the continuation bit set on every byte but the last.
pub open spec fn unsigned_bytes(v: u64) -> Seq<u8>
    decreases v,
{
    if v < 128 {
        seq![v as u8]
    } else {
        seq![(128 + v % 128) as u8] + unsigned_bytes((v / 128) as u64)
    }
}

/// The measure that shrinks as `signed_bytes` peels seven bits at a time
/// off a two's complement value.
pub open spec fn signed_measure(v: i64) -> int {
    if v < 0 {
        -1 - v
    } else {
        v as int
    }
}

/// The minimal LEB128 encoding of a signed 64-bit value: low seven bits
/// first, stopping with the first group whose bit 6 already agrees with
/// the sign of the remaining bits.
pub open spec fn signed_bytes(v: i64) -> Seq<u8>
    decreases signed_measure(v),
{
    if -64 <= v && v < 64 {
        seq![(v % 128) as u8]
    } else {
        seq![(128 + v % 128) as u8] + signed_bytes((v / 128) as i64)
    }
}

/// The number of significant bits of `v`: zero for zero, otherwise the
/// index of the highest set bit plus one.
pub open spec fn bit_length(v: u64) -> nat
    decreases v,
{
    if v == 0 {
        0
    } else {
        1 + bit_length((v / 2) as u64)
    }
}

/// A terminator at `k`, behind continuation bytes alone, is the first.
pub proof fn lemma_terminator_index_at(s: Seq<u8>, k: int)
    requires
        0 <= k < s.len(),
        !has_continuation(s[k]),
        forall|j: int| 0 <= j < k ==> has_continuation(s[j]),
    ensures
        terminator_index(s) == Some(k),
    decreases k,
{
    if k > 0 {
        assert(has_continuation(s[0]));
        assert(s.skip(1)[k - 1] == s[k]);
        assert forall|j: int| 0 <= j < k - 1 implies has_continuation(s.skip(1)[j]) by {
            assert(s.skip(1)[j] == s[j + 1]);
        }
        lemma_terminator_index_at(s.skip(1), k - 1);
    }
}

/// A sequence of continuation bytes alone has no terminator.
pub proof fn lemma_no_terminator(s: Seq<u8>)
    requires
        forall|j: int| 0 <= j < s.len() ==> has_continuation(s[j]),
    ensures
        terminator_index(s) is None,
    decreases s.len(),
{
    if s.len() > 0 {
        assert forall|j: int| 0 <= j < s.skip(1).len() implies has_continuation(s.skip(1)[j]) by {
            assert(s.skip(1)[j] == s[j + 1]);
        }
        lemma_no_terminator(s.skip(1));
    }
}

/// What the terminator index says of the bytes before and at it.
pub proof fn lemma_terminator_index_props(s: Seq<u8>)
    ensures
        match terminator_index(s) {
            Some(k) => 0 <= k < s.len() && !has_continuation(s[k]) && forall|j: int|
                0 <= j < k ==> has_continuation(s[j]),
            None => forall|j: int| 0 <= j < s.len() ==> has_continuation(s[j]),
        },
    decreases s.len(),
{
    if s.len() == 0 {
    } else if !has_continuation(s[0]) {
    } else {
        lemma_terminator_index_props(s.skip(1));
        match terminator_index(s.skip(1)) {
            Some(i) => {
                assert forall|j: int| 0 <= j < i + 1 implies has_continuation(s[j]) by {
                    if j > 0 {
                        assert(s.skip(1)[j - 1] == s[j]);
                    }
                }
                assert(s.skip(1)[i] == s[i + 1]);
            },
            None => {
                assert forall|j: int| 0 <= j < s.len() implies has_continuation(s[j]) by {
                    if j > 0 {
                        assert(s.skip(1)[j - 1] == s[j]);
                    }
                }
            },
        }
    }
}

/// Reading one more group adds its payload at the next power of 128.
pub proof fn lemma_unsigned_value_step(s: Seq<u8>, n: int)
    requires
        0 <= n < s.len(),
    ensures
        unsigned_value(s, n + 1) == unsigned_value(s, n) + (s[n] % 128) * pow2((7 * n) as nat),
    decreases n,
{
    lemma2_to64();
    if n == 0 {
        assert(unsigned_value(s.skip(1), 0) == 0);
        assert(unsigned_value(s, 1) == unsigned_value(s, 0) + (s[0] % 128) * pow2(0));
    } else {
        lemma_unsigned_value_step(s.skip(1), n - 1);
        assert(s.skip(1)[n - 1] == s[n]);
        lemma_pow2_adds(7, (7 * (n - 1)) as nat);
        let p = pow2((7 * (n - 1)) as nat);
        assert(128 * (unsigned_value(s.skip(1), n - 1) + (s[n] % 128) * p) == 128
            * unsigned_value(s.skip(1), n - 1) + (s[n] % 128) * (128 * p)) by (nonlinear_arith);
        assert(unsigned_value(s, n + 1) == (s[0] % 128) + 128 * unsigned_value(s.skip(1), n));
        assert(unsigned_value(s, n) == (s[0] % 128) + 128 * unsigned_value(s.skip(1), n - 1));
    }
}

/// The value of `n` groups fits in `7 * n` bits.
pub proof fn lemma_unsigned_value_bound(s: Seq<u8>, n: int)
    requires
        0 <= n,
    ensures
        0 <= unsigned_value(s, n) < pow2((7 * n) as nat),
    decreases n,
{
    lemma2_to64();
    if n > 0 {
        lemma_unsigned_value_bound(s.skip(1), n - 1);
        lemma_pow2_adds(7, (7 * (n - 1)) as nat);
    }
}

/// The signed reading of `n` groups is their unsigned reading, less one
/// power of two when bit 6 of the final group is set.
pub proof fn lemma_signed_value_rel(s: Seq<u8>, n: int)
    requires
        1 <= n <= s.len(),
    ensures
        signed_value(s, n) == unsigned_value(s, n) - if s[n - 1] % 128 >= 64 {
            pow2((7 * n) as nat) as int
        } else {
            0
        },
    decreases n,
{
    lemma2_to64();
    if n == 1 {
        assert(unsigned_value(s.skip(1), 0) == 0);
    } else {
        lemma_signed_value_rel(s.skip(1), n - 1);
        assert(s.skip(1)[n - 2] == s[n - 1]);
        lemma_pow2_adds(7, (7 * (n - 1)) as nat);
        let p = pow2((7 * (n - 1)) as nat);
        if s[n - 1] % 128 >= 64 {
            assert(128 * (unsigned_value(s.skip(1), n - 1) - p) == 128 * unsigned_value(
                s.skip(1),
                n - 1,
            ) - 128 * p) by (nonlinear_arith);
        }
    }
}

/// The shape of a minimal unsigned encoding, and the value it carries,
/// whatever follows it.
pub proof fn lemma_unsigned_bytes_facts(v: u64, tail: Seq<u8>)
    ensures
        ({
            let e = unsigned_bytes(v);
            &&& e.len() >= 1
            &&& forall|i: int| 0 <= i < e.len() - 1 ==> has_continuation(e[i])
            &&& !has_continuation(e[e.len() - 1])
            &&& (e.len() >= 2 ==> e[e.len() - 1] >= 1)
            &&& unsigned_value(e + tail, e.len() as int) == v
        }),
    decreases v,
{
    let e = unsigned_bytes(v);
    if v < 128 {
        assert((e + tail)[0] == v as u8);
        assert(unsigned_value((e + tail).skip(1), 0) == 0);
        assert(unsigned_value(e + tail, 1) == v);
    } else {
        let w = (v / 128) as u64;
        let e2 = unsigned_bytes(w);
        lemma_unsigned_bytes_facts(w, tail);
        assert((e + tail)[0] == e[0]);
        assert((e + tail).skip(1) =~= e2 + tail);
        assert forall|i: int| 1 <= i < e.len() - 1 implies has_continuation(e[i]) by {
            assert(e[i] == e2[i - 1]);
        }
        assert(e[e.len() - 1] == e2[e2.len() - 1]);
        assert(e[0] as int % 128 == v as int % 128);
        assert(unsigned_value(e + tail, e.len() as int) == (v % 128) + 128 * (w as int));
    }
}

/// A value below `2^(7n)` needs at most `n` groups.
pub proof fn lemma_unsigned_bytes_len(v: u64, n: int)
    requires
        1 <= n,
        v < pow2((7 * n) as nat),
    ensures
        unsigned_bytes(v).len() <= n,
    decreases n,
{
    lemma2_to64();
    if v >= 128 {
        lemma_pow2_adds(7, (7 * (n - 1)) as nat);
        let p = pow2((7 * (n - 1)) as nat) as int;
        assert(n >= 2);
        assert(v as int / 128 < p) by (nonlinear_arith)
            requires
                v < 128 * p,
                0 < p,
        ;
        lemma_unsigned_bytes_len((v / 128) as u64, n - 1);
    }
}

/// No unsigned 64-bit value needs more than ten groups.
pub proof fn lemma_unsigned_bytes_max_len(v: u64)
    ensures
        1 <= unsigned_bytes(v).len() <= 10,
    decreases v,
{
    lemma2_to64_rest();
    lemma_pow2_strictly_increases(64, 70);
    lemma_unsigned_bytes_len(v, 10);
}

/// The shape of a minimal signed encoding, and the value it carries,
/// whatever follows it.
pub proof fn lemma_signed_bytes_facts(v: i64, tail: Seq<u8>)
    ensures
        ({
            let e = signed_bytes(v);
            &&& e.len() >= 1
            &&& forall|i: int| 0 <= i < e.len() - 1 ==> has_continuation(e[i])
            &&& !has_continuation(e[e.len() - 1])
            &&& signed_value(e + tail, e.len() as int) == v
        }),
    decreases signed_measure(v),
{
    let e = signed_bytes(v);
    vstd::arithmetic::div_mod::lemma_fundamental_div_mod(v as int, 128);
    if -64 <= v && v < 64 {
        assert((e + tail)[0] == e[0]);
        assert(signed_value(e + tail, 1) == v);
    } else {
        let w = (v / 128) as i64;
        let e2 = signed_bytes(w);
        lemma_signed_bytes_facts(w, tail);
        assert((e + tail)[0] == e[0]);
        assert((e + tail).skip(1) =~= e2 + tail);
        assert forall|i: int| 1 <= i < e.len() - 1 implies has_continuation(e[i]) by {
            assert(e[i] == e2[i - 1]);
        }
        assert(e[e.len() - 1] == e2[e2.len() - 1]);
        assert(e[0] as int % 128 == v as int % 128);
        assert(signed_value(e + tail, e.len() as int) == (v % 128) + 128 * (w as int));
    }
}

/// A value within `±2^(7n - 1)` needs at most `n` groups.
pub proof fn lemma_signed_bytes_len(v: i64, n: int)
    requires
        1 <= n,
        -(pow2((7 * n - 1) as nat) as int) <= v < pow2((7 * n - 1) as nat),
    ensures
        signed_bytes(v).len() <= n,
    decreases n,
{
    lemma2_to64();
    if !(-64 <= v && v < 64) {
        lemma_pow2_adds(7, (7 * (n - 1) - 1) as nat);
        let p = pow2((7 * (n - 1) - 1) as nat) as int;
        assert(n >= 2);
        vstd::arithmetic::div_mod::lemma_fundamental_div_mod(v as int, 128);
        assert(-p <= v as int / 128 < p) by (nonlinear_arith)
            requires
                -(128 * p) <= v < 128 * p,
                0 < p,
                v as int == 128 * (v as int / 128) + (v as int % 128),
                0 <= v as int % 128 < 128,
        ;
        lemma_signed_bytes_len((v / 128) as i64, n - 1);
    }
}

/// A value below `2^k` has at most `k` significant bits.
pub proof fn lemma_bit_length_le(v: u64, k: nat)
    requires
        v < pow2(k),
    ensures
        bit_length(v) <= k,
    decreases v,
{
    lemma2_to64();
    if v > 0 {
        assert(k >= 1);
        lemma_pow2_adds(1, (k - 1) as nat);
        lemma_bit_length_le((v / 2) as u64, (k - 1) as nat);
    }
}

/// Dividing by 128 takes seven bits off the significant length.
pub proof fn lemma_bit_length_div128(v: u64)
    requires
        v >= 128,
    ensures
        bit_length(v) == 7 + bit_length((v / 128) as u64),
{
    lemma_div_denominator(v as int, 2, 2);
    lemma_div_denominator(v as int, 4, 2);
    lemma_div_denominator(v as int, 8, 2);
    lemma_div_denominator(v as int, 16, 2);
    lemma_div_denominator(v as int, 32, 2);
    lemma_div_denominator(v as int, 64, 2);
    assert(bit_length(v) == 1 + bit_length((v / 2) as u64));
    assert(bit_length((v / 2) as u64) == 1 + bit_length((v / 4) as u64));
    assert(bit_length((v / 4) as u64) == 1 + bit_length((v / 8) as u64));
    assert(bit_length((v / 8) as u64) == 1 + bit_length((v / 16) as u64));
    assert(bit_length((v / 16) as u64) == 1 + bit_length((v / 32) as u64));
    assert(bit_length((v / 32) as u64) == 1 + bit_length((v / 64) as u64));
    assert(bit_length((v / 64) as u64) == 1 + bit_length((v / 128) as u64));
}

/// No signed 64-bit value needs more than ten groups.
pub proof fn lemma_signed_bytes_max_len(v: i64)
    ensures
        1 <= signed_bytes(v).len() <= 10,
    decreases signed_measure(v),
{
    lemma2_to64_rest();
    lemma_pow2_strictly_increases(63, 69);
    assert(-(pow2(69) as int) <= v < pow2(69));
    lemma_signed_bytes_len(v, 10);
}

} // verus!

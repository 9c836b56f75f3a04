//! The laws the codec obeys: every minimal encoding reads back as the
//! value it was written from, with nothing of the input beyond it
//! touched, and the minimal encoding spends one byte per seven
//! significant bits.

use vstd::prelude::*;
use vstd::arithmetic::power2::pow2;
use vstd::arithmetic::power2::lemma_pow2_adds;
use vstd::arithmetic::power2::lemma2_to64;
use vstd::arithmetic::power2::lemma2_to64_rest;
use crate::read::Error;
use crate::read::spec_read_signed;
use crate::read::spec_read_unsigned;
use crate::wire::bit_length;
use crate::wire::has_continuation;
use crate::wire::lemma_bit_length_div128;
use crate::wire::lemma_bit_length_le;
use crate::wire::lemma_signed_bytes_facts;
use crate::wire::lemma_signed_bytes_max_len;
use crate::wire::lemma_signed_value_rel;
use crate::wire::lemma_terminator_index_at;
use crate::wire::lemma_unsigned_bytes_facts;
use crate::wire::lemma_unsigned_bytes_max_len;
use crate::wire::lemma_unsigned_value_bound;
use crate::wire::lemma_unsigned_value_step;
use crate::wire::signed_bytes;
use crate::wire::unsigned_bytes;
use crate::wire::unsigned_value;

verus! {

/// Round trip: the minimal unsigned encoding of any `u64`, put in front
/// of any other bytes, reads back as that value with exactly those other
/// bytes left over.
pub proof fn unsigned_round_trip(v: u64, tail: Seq<u8>)
    ensures
        spec_read_unsigned(unsigned_bytes(v) + tail) == Ok::<(u64, Seq<u8>), Error>((v, tail)),
{
    let e = unsigned_bytes(v);
    let s = e + tail;
    let n = e.len() as int;
    lemma_unsigned_bytes_facts(v, tail);
    lemma_unsigned_bytes_max_len(v);
    assert forall|j: int| 0 <= j < n - 1 implies has_continuation(s[j]) by {
        assert(s[j] == e[j]);
    }
    assert(s[n - 1] == e[n - 1]);
    lemma_terminator_index_at(s, n - 1);
    if n == 10 {
        lemma_unsigned_value_step(s, 9);
        lemma_unsigned_value_bound(s, 9);
        lemma2_to64_rest();
        assert(s[9] % 128 < 2) by (nonlinear_arith)
            requires
                (s[9] % 128) * pow2(63) < 0x10000000000000000,
                pow2(63) == 0x8000000000000000,
        ;
        assert(s[9] == e[9] && e[9] < 128 && e[9] >= 1);
        assert(s[9] == 1);
    }
    assert(s.skip(n) =~= tail);
}

/// Round trip: the minimal signed encoding of any `i64`, put in front of
/// any other bytes, reads back as that value with exactly those other
/// bytes left over.
pub proof fn signed_round_trip(v: i64, tail: Seq<u8>)
    ensures
        spec_read_signed(signed_bytes(v) + tail) == Ok::<(i64, Seq<u8>), Error>((v, tail)),
{
    let e = signed_bytes(v);
    let s = e + tail;
    let n = e.len() as int;
    lemma_signed_bytes_facts(v, tail);
    lemma_signed_bytes_max_len(v);
    assert forall|j: int| 0 <= j < n - 1 implies has_continuation(s[j]) by {
        assert(s[j] == e[j]);
    }
    assert(s[n - 1] == e[n - 1]);
    lemma_terminator_index_at(s, n - 1);
    if n == 10 {
        lemma_signed_value_rel(s, 10);
        lemma_unsigned_value_step(s, 9);
        lemma_unsigned_value_bound(s, 9);
        lemma2_to64();
        lemma2_to64_rest();
        lemma_pow2_adds(7, 63);
        let m = s[9] % 128;
        assert(s[9] == e[9] && e[9] < 128);
        if m >= 64 {
            assert(v == unsigned_value(s, 9) + m * pow2(63) - 128 * pow2(63));
            assert(m == 127) by (nonlinear_arith)
                requires
                    64 <= m < 128,
                    0 <= unsigned_value(s, 9) < pow2(63),
                    pow2(63) == 0x8000000000000000,
                    unsigned_value(s, 9) + m * pow2(63) - 128 * pow2(63)
                        >= -0x8000000000000000,
            ;
        } else {
            assert(v == unsigned_value(s, 9) + m * pow2(63));
            assert(m == 0) by (nonlinear_arith)
                requires
                    0 <= m < 64,
                    0 <= unsigned_value(s, 9),
                    pow2(63) == 0x8000000000000000,
                    unsigned_value(s, 9) + m * pow2(63) < 0x8000000000000000,
            ;
        }
        assert(s[9] == 0 || s[9] == 127);
    }
    assert(s.skip(n) =~= tail);
}

/// Minimality: the unsigned encoding of `v` spends exactly one byte per
/// seven significant bits of `v`, and at least one byte.
pub proof fn unsigned_minimal_length(v: u64)
    ensures
        unsigned_bytes(v).len() == if v == 0 {
            1int
        } else {
            (bit_length(v) + 6) as int / 7
        },
    decreases v,
{
    lemma2_to64();
    if v == 0 {
    } else if v < 128 {
        lemma_bit_length_le(v, 7);
        assert(bit_length(v) >= 1);
    } else {
        lemma_bit_length_div128(v);
        unsigned_minimal_length((v / 128) as u64);
        assert((v / 128) as u64 >= 1);
        assert(bit_length((v / 128) as u64) >= 1);
    }
}

/// Concatenation: two unsigned values encoded back to back read back in
/// order, the second from exactly the bytes the first left over, with
/// nothing left after the second.
pub proof fn unsigned_concatenation(a: u64, b: u64)
    ensures
        spec_read_unsigned(unsigned_bytes(a) + unsigned_bytes(b)) == Ok::<(u64, Seq<u8>), Error>(
            (a, unsigned_bytes(b)),
        ),
        spec_read_unsigned(unsigned_bytes(b)) == Ok::<(u64, Seq<u8>), Error>(
            (b, Seq::<u8>::empty()),
        ),
{
    unsigned_round_trip(a, unsigned_bytes(b));
    unsigned_round_trip(b, Seq::<u8>::empty());
    assert(unsigned_bytes(b) + Seq::<u8>::empty() =~= unsigned_bytes(b));
}

/// Concatenation: two signed values encoded back to back read back in
/// order, the second from exactly the bytes the first left over, with
/// nothing left after the second.
pub proof fn signed_concatenation(a: i64, b: i64)
    ensures
        spec_read_signed(signed_bytes(a) + signed_bytes(b)) == Ok::<(i64, Seq<u8>), Error>(
            (a, signed_bytes(b)),
        ),
        spec_read_signed(signed_bytes(b)) == Ok::<(i64, Seq<u8>), Error>(
            (b, Seq::<u8>::empty()),
        ),
{
    signed_round_trip(a, signed_bytes(b));
    signed_round_trip(b, Seq::<u8>::empty());
    assert(signed_bytes(b) + Seq::<u8>::empty() =~= signed_bytes(b));
}

} // verus!

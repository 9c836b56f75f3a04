//! Reading signed and unsigned integers that have been LEB128 encoded.

use vstd::prelude::*;
use vstd::arithmetic::power2::pow2;
use vstd::arithmetic::power2::lemma_pow2_adds;
use vstd::arithmetic::power2::lemma_pow2_strictly_increases;
use vstd::arithmetic::power2::lemma2_to64;
use vstd::arithmetic::power2::lemma2_to64_rest;
use vstd::bits::lemma_u64_pow2_no_overflow;
use vstd::bits::lemma_u64_shl_is_mul;
use vstd::slice::slice_subrange;
use crate::CONTINUATION_BIT;
use crate::SIGN_BIT;
use crate::low_bits_of_byte;
use crate::wire::has_continuation;
use crate::wire::lemma_no_terminator;
use crate::wire::lemma_terminator_index_at;
use crate::wire::lemma_terminator_index_props;
use crate::wire::lemma_signed_value_rel;
use crate::wire::lemma_unsigned_value_bound;
use crate::wire::lemma_unsigned_value_step;
use crate::wire::signed_value;
use crate::wire::terminator_index;
use crate::wire::unsigned_value;

verus! {

/// The possible errors when reading or writing a number encoded with
/// LEB128.
#[derive(Debug, Clone, Copy, PartialEq, Eq, Structural)]
pub enum Error {
    /// The underlying byte sink or source reported a failure, e.g. it ran
    /// out of space.
    IoError,
    /// The number being read is larger than can be represented.
    Overflow,
    /// Not enough input data.
    NotEnoughData,
}

/// What reading one unsigned LEB128 value from the front of `s` yields:
/// the value of the groups up to the first terminating byte, with the
/// bytes after it, or the error the input runs into first.
pub open spec fn spec_read_unsigned(s: Seq<u8>) -> Result<(u64, Seq<u8>), Error> {
    match terminator_index(s) {
        Some(k) => if k <= 8 || (k == 9 && (s[9] == 0 || s[9] == 1)) {
            Ok((unsigned_value(s, k + 1) as u64, s.skip(k + 1)))
        } else {
            Err(Error::Overflow)
        },
        None => if s.len() <= 9 {
            Err(Error::NotEnoughData)
        } else {
            Err(Error::Overflow)
        },
    }
}

/// What reading one signed LEB128 value from the front of `s` yields.
pub open spec fn spec_read_signed(s: Seq<u8>) -> Result<(i64, Seq<u8>), Error> {
    match terminator_index(s) {
        Some(k) => if k <= 8 || (k == 9 && (s[9] == 0 || s[9] == 127)) {
            Ok((signed_value(s, k + 1) as i64, s.skip(k + 1)))
        } else {
            Err(Error::Overflow)
        },
        None => if s.len() <= 9 {
            Err(Error::NotEnoughData)
        } else {
            Err(Error::Overflow)
        },
    }
}

/// Read an unsigned LEB128 number from the front of the given slice and
/// return it together with the unconsumed rest of the slice, or an error
/// if the input ends early or carries a value over 64 bits.
pub fn unsigned(input: &[u8]) -> (r: Result<(u64, &[u8]), Error>)
    ensures
        match r {
            Ok((v, rest)) => spec_read_unsigned(input@) == Ok::<(u64, Seq<u8>), Error>(
                (v, rest@),
            ),
            Err(e) => spec_read_unsigned(input@) == Err::<(u64, Seq<u8>), Error>(e),
        },
{
    let ghost s = input@;
    let mut result: u64 = 0;
    let mut shift: u64 = 0;
    let mut i: usize = 0;
    loop
        invariant
            input@ == s,
            i <= 9,
            i <= s.len(),
            shift == 7 * i,
            forall|j: int| 0 <= j < i ==> has_continuation(s[j]),
            result == unsigned_value(s, i as int),
        decreases s.len() - i,
    {
        if i >= input.len() {
            proof {
                lemma_no_terminator(s);
            }
            return Err(Error::NotEnoughData);
        }
        let byte = input[i];
        if shift == 63 && byte != 0x00 && byte != 0x01 {
            proof {
                lemma_terminator_index_props(s);
                if byte < 128 {
                    lemma_terminator_index_at(s, i as int);
                }
            }
            return Err(Error::Overflow);
        }
        let low_bits = low_bits_of_byte(byte) as u64;
        proof {
            lemma_unsigned_value_step(s, i as int);
            lemma_unsigned_value_bound(s, i as int);
            lemma2_to64();
            lemma2_to64_rest();
            if shift < 63 {
                lemma_pow2_adds(7, shift as nat);
                assert(low_bits * pow2(shift as nat) < 128 * pow2(shift as nat)) by (nonlinear_arith)
                    requires
                        low_bits < 128,
                        pow2(shift as nat) > 0,
                ;
            }
            lemma_u64_shl_is_mul(low_bits, shift);
            lemma_u64_shl_is_mul(1u64, shift);
            assert(result | (low_bits << shift) == result + (low_bits << shift)) by (bit_vector)
                requires
                    result < (1u64 << shift),
                    shift < 64u64,
            ;
        }
        result = result | (low_bits << shift);
        if byte & CONTINUATION_BIT == 0 {
            proof {
                assert((byte & 128) == 0 ==> byte < 128) by (bit_vector);
                lemma_terminator_index_at(s, i as int);
                assert(s.subrange(i + 1, s.len() as int) =~= s.skip(i + 1));
            }
            let rest = slice_subrange(input, i + 1, input.len());
            return Ok((result, rest));
        }
        proof {
            assert((byte & 128) != 0 ==> byte >= 128) by (bit_vector);
            assert(byte >= 128 ==> !(byte == 0 || byte == 1)) by (bit_vector);
        }
        i = i + 1;
        shift = shift + 7;
    }
}

/// Read a signed LEB128 number from the front of the given slice, sign
/// extending it from bit 6 of its final byte, and return it together with
/// the unconsumed rest of the slice, or an error if the input ends early
/// or carries a value over 64 bits.
pub fn signed(input: &[u8]) -> (r: Result<(i64, &[u8]), Error>)
    ensures
        match r {
            Ok((v, rest)) => spec_read_signed(input@) == Ok::<(i64, Seq<u8>), Error>((v, rest@)),
            Err(e) => spec_read_signed(input@) == Err::<(i64, Seq<u8>), Error>(e),
        },
{
    let ghost s = input@;
    let mut result: u64 = 0;
    let mut shift: u64 = 0;
    let mut i: usize = 0;
    loop
        invariant
            input@ == s,
            i <= 9,
            i <= s.len(),
            shift == 7 * i,
            forall|j: int| 0 <= j < i ==> has_continuation(s[j]),
            result == unsigned_value(s, i as int),
        decreases s.len() - i,
    {
        if i >= input.len() {
            proof {
                lemma_no_terminator(s);
            }
            return Err(Error::NotEnoughData);
        }
        let byte = input[i];
        if shift == 63 && byte != 0x00 && byte != 0x7f {
            proof {
                lemma_terminator_index_props(s);
                if byte < 128 {
                    lemma_terminator_index_at(s, i as int);
                }
            }
            return Err(Error::Overflow);
        }
        let low_bits = low_bits_of_byte(byte) as u64;
        proof {
            lemma_unsigned_value_step(s, i as int);
            lemma_unsigned_value_bound(s, i as int);
            lemma2_to64();
            lemma2_to64_rest();
            if shift < 63 {
                lemma_pow2_adds(7, shift as nat);
                assert(low_bits * pow2(shift as nat) < 128 * pow2(shift as nat)) by (nonlinear_arith)
                    requires
                        low_bits < 128,
                        pow2(shift as nat) > 0,
                ;
                lemma_u64_shl_is_mul(low_bits, shift);
            } else {
                assert((127u64 << 63u64) == 0x8000000000000000u64) by (bit_vector);
                assert((0u64 << 63u64) == 0u64) by (bit_vector);
            }
            lemma_u64_shl_is_mul(1u64, shift);
            assert(result | (low_bits << shift) == result + (low_bits << shift)) by (bit_vector)
                requires
                    result < (1u64 << shift),
                    shift < 64u64,
            ;
        }
        result = result | (low_bits << shift);
        i = i + 1;
        shift = shift + 7;
        if byte & CONTINUATION_BIT == 0 {
            proof {
                assert((byte & 128) == 0 ==> byte < 128) by (bit_vector);
                lemma_terminator_index_at(s, i - 1);
                lemma_signed_value_rel(s, i as int);
                lemma_unsigned_value_step(s, i - 1);
                lemma_unsigned_value_bound(s, i as int);
                lemma_unsigned_value_bound(s, i - 1);
                lemma_pow2_adds(7, 63);
                assert(s.subrange(i as int, s.len() as int) =~= s.skip(i as int));
            }
            if shift < 64 && byte & SIGN_BIT != 0 {
                proof {
                    assert((byte & 64) != 0 && byte < 128 ==> byte % 128 >= 64) by (bit_vector);
                    lemma_u64_pow2_no_overflow(shift as nat);
                    lemma_u64_shl_is_mul(1u64, shift);
                    assert(((!0u64) << shift) == 0x10000000000000000 - (1u64 << shift))
                        by (bit_vector)
                        requires
                            shift < 64u64,
                    ;
                    assert(result | ((!0u64) << shift) == result + ((!0u64) << shift))
                        by (bit_vector)
                        requires
                            result < (1u64 << shift),
                            shift < 64u64,
                    ;
                }
                result = result | ((!0u64) << shift);
            } else {
                proof {
                    if shift < 64 {
                        assert((byte & 64) == 0 ==> byte % 128 < 64) by (bit_vector);
                    } else {
                        assert(byte == 0 || byte == 127);
                    }
                }
            }
            proof {
                assert(result >= 0x8000000000000000u64 ==> result as i64 == result
                    - 0x10000000000000000) by (bit_vector);
                assert(result < 0x8000000000000000u64 ==> result as i64 == result) by (bit_vector);
                let n = i as int;
                if shift < 64 {
                    if shift < 63 {
                        lemma_pow2_strictly_increases(shift as nat, 63);
                    }
                    assert(pow2(shift as nat) <= 0x8000000000000000);
                    if byte & 64 != 0 {
                        assert(result == unsigned_value(s, n) + 0x10000000000000000 - pow2(
                            shift as nat,
                        ));
                        assert(result as i64 == signed_value(s, n));
                    } else {
                        assert(result == unsigned_value(s, n));
                        assert(result as i64 == signed_value(s, n));
                    }
                } else {
                    assert(n == 10 && (byte == 0 || byte == 127));
                    if byte == 127 {
                        assert(unsigned_value(s, 10) == unsigned_value(s, 9) + 127 * pow2(63));
                        assert(result == unsigned_value(s, 9) + pow2(63));
                        assert(signed_value(s, 10) == unsigned_value(s, 10) - pow2(70));
                        assert(pow2(70) == 128 * pow2(63));
                        assert(result as i64 == signed_value(s, n));
                    } else {
                        assert(s[9] == byte);
                        assert((s[9] % 128) * pow2(63) == 0) by (nonlinear_arith)
                            requires
                                s[9] % 128 == 0,
                        ;
                        assert(result as i64 == signed_value(s, n));
                    }
                }
            }
            let value = #[verifier::truncate] (result as i64);
            let rest = slice_subrange(input, i, input.len());
            return Ok((value, rest));
        }
        proof {
            assert((byte & 128) != 0 ==> byte >= 128) by (bit_vector);
            assert(byte >= 128 ==> !(byte == 0 || byte == 127)) by (bit_vector);
        }
    }
}

} // verus!

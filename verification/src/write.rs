//! Writing integers encoded as LEB128 to a bounded byte sink.

use vstd::prelude::*;
use crate::CONTINUATION_BIT;
use crate::low_bits_of_u64;
use crate::read::Error;
use crate::wire::lemma_signed_bytes_max_len;
use crate::wire::lemma_unsigned_bytes_max_len;
use crate::wire::signed_bytes;
use crate::wire::unsigned_bytes;

verus! {

/// A byte sink of fixed capacity.  It accepts bytes one at a time until
/// it is full, and rejects every write after that, the way a writer over
/// a fixed buffer runs out of space.
pub struct Sink {
    data: Vec<u8>,
    cap: usize,
}

impl Sink {
    /// The bytes written so far, in order.
    pub closed spec fn bytes(self) -> Seq<u8> {
        self.data@
    }

    /// How many bytes the sink accepts in all.
    pub closed spec fn capacity(self) -> int {
        self.cap as int
    }

    /// A sink is well formed when it holds no more bytes than its
    /// capacity.  Every constructor establishes this and every method
    /// keeps it.
    pub open spec fn wf(self) -> bool {
        self.bytes().len() <= self.capacity()
    }

    /// An empty sink that will accept `capacity` bytes.
    pub fn new(capacity: usize) -> (s: Sink)
        ensures
            s.bytes() == Seq::<u8>::empty(),
            s.capacity() == capacity,
            s.wf(),
    {
        Sink { data: Vec::new(), cap: capacity }
    }

    /// Append one byte.  The write succeeds exactly when the sink is not
    /// yet full; a rejected write leaves the sink unchanged.
    pub fn write_byte(&mut self, byte: u8) -> (r: Result<(), Error>)
        requires
            old(self).wf(),
        ensures
            final(self).wf(),
            final(self).capacity() == old(self).capacity(),
            r is Ok <==> old(self).bytes().len() < old(self).capacity(),
            r is Ok ==> final(self).bytes() == old(self).bytes().push(byte),
            r is Err ==> final(self).bytes() == old(self).bytes() && r == Err::<(), Error>(
                Error::IoError,
            ),
    {
        if self.data.len() < self.cap {
            self.data.push(byte);
            Ok(())
        } else {
            Err(Error::IoError)
        }
    }

    /// How many bytes have been written so far.
    pub fn len(&self) -> (n: usize)
        ensures
            n == self.bytes().len(),
    {
        self.data.len()
    }

    /// The bytes written so far.
    pub fn data(&self) -> (bytes: &Vec<u8>)
        ensures
            bytes@ == self.bytes(),
    {
        &self.data
    }
}

/// Write `val` to `w` as an unsigned LEB128 number and return how many
/// bytes that took.  The write succeeds exactly when the minimal encoding
/// of `val` fits in the space the sink has left; when the sink fills up
/// early, the bytes already written stay in place and the rest of the
/// encoding is dropped.
pub fn unsigned(w: &mut Sink, val: u64) -> (r: Result<usize, Error>)
    requires
        old(w).wf(),
    ensures
        final(w).wf(),
        final(w).capacity() == old(w).capacity(),
        r is Ok <==> old(w).bytes().len() + unsigned_bytes(val).len() <= old(w).capacity(),
        r is Ok ==> final(w).bytes() == old(w).bytes() + unsigned_bytes(val) && r == Ok::<
            usize,
            Error,
        >(unsigned_bytes(val).len() as usize),
        r is Err ==> final(w).bytes() == old(w).bytes() + unsigned_bytes(val).take(
            old(w).capacity() - old(w).bytes().len(),
        ) && r == Err::<usize, Error>(Error::IoError),
{
    proof {
        lemma_unsigned_bytes_max_len(val);
    }
    let ghost b0 = w.bytes();
    let ghost enc = unsigned_bytes(val);
    let mut value = val;
    let mut bytes_written: usize = 0;
    loop
        invariant
            w.capacity() == old(w).capacity(),
            b0 == old(w).bytes(),
            enc == unsigned_bytes(val),
            w.wf(),
            b0.len() <= w.capacity(),
            bytes_written + unsigned_bytes(value).len() == enc.len(),
            enc.len() <= 10,
            enc.skip(bytes_written as int) == unsigned_bytes(value),
            w.bytes() == b0 + enc.take(bytes_written as int),
        decreases value,
    {
        let ghost v0 = value;
        let mut byte = low_bits_of_u64(value);
        value = value >> 7;
        proof {
            assert(v0 >> 7u64 == v0 / 128) by (bit_vector);
            assert(byte < 128);
            if value != 0 {
                assert((byte | 128) == byte + 128) by (bit_vector)
                    requires
                        byte < 128,
                ;
            }
            assert(unsigned_bytes(v0)[0] == if v0 < 128 {
                v0 as u8
            } else {
                (128 + v0 % 128) as u8
            });
            lemma_unsigned_bytes_max_len(value);
            assert(enc.skip(bytes_written as int).skip(1) =~= enc.skip(bytes_written + 1));
            assert((b0 + enc.take(bytes_written as int)).push(
                enc[bytes_written as int],
            ) =~= b0 + enc.take(bytes_written + 1));
        }
        if value != 0 {
            byte = byte | CONTINUATION_BIT;
        }
        match w.write_byte(byte) {
            Ok(()) => {},
            Err(e) => {
                proof {
                    assert(enc.take(bytes_written as int) =~= enc.take(
                        old(w).capacity() - old(w).bytes().len(),
                    ));
                }
                return Err(e);
            },
        }
        bytes_written = bytes_written + 1;
        if value == 0 {
            proof {
                assert(enc.take(bytes_written as int) =~= enc);
            }
            return Ok(bytes_written);
        }
    }
}

/// Write `val` to `w` as a signed LEB128 number and return how many bytes
/// that took.  The write succeeds exactly when the minimal encoding of
/// `val` fits in the space the sink has left; when the sink fills up
/// early, the bytes already written stay in place and the rest of the
/// encoding is dropped.
pub fn signed(w: &mut Sink, val: i64) -> (r: Result<usize, Error>)
    requires
        old(w).wf(),
    ensures
        final(w).wf(),
        final(w).capacity() == old(w).capacity(),
        r is Ok <==> old(w).bytes().len() + signed_bytes(val).len() <= old(w).capacity(),
        r is Ok ==> final(w).bytes() == old(w).bytes() + signed_bytes(val) && r == Ok::<
            usize,
            Error,
        >(signed_bytes(val).len() as usize),
        r is Err ==> final(w).bytes() == old(w).bytes() + signed_bytes(val).take(
            old(w).capacity() - old(w).bytes().len(),
        ) && r == Err::<usize, Error>(Error::IoError),
{
    proof {
        lemma_signed_bytes_max_len(val);
    }
    let ghost b0 = w.bytes();
    let ghost enc = signed_bytes(val);
    let mut value = val;
    let mut bytes_written: usize = 0;
    loop
        invariant
            w.capacity() == old(w).capacity(),
            b0 == old(w).bytes(),
            enc == signed_bytes(val),
            w.wf(),
            b0.len() <= w.capacity(),
            bytes_written + signed_bytes(value).len() == enc.len(),
            enc.len() <= 10,
            enc.skip(bytes_written as int) == signed_bytes(value),
            w.bytes() == b0 + enc.take(bytes_written as int),
        decreases (if value < 0 {
            -1 - value
        } else {
            value as int
        }),
    {
        let ghost v0 = value;
        let mut byte = #[verifier::truncate] (value as u8);
        // Keep the sign bit of the remaining value for the termination test.
        value = value >> 6;
        let done = value == 0 || value == -1;
        proof {
            assert((v0 >> 6u32 == 0 || v0 >> 6u32 == -1) <==> (-64 <= v0 && v0 < 64))
                by (bit_vector);
            if done {
                assert(((v0 as u8) & !128u8) == (v0 % 128) as u8) by (bit_vector);
            } else {
                assert(((v0 as u8) | 128u8) == ((v0 % 128) + 128) as u8 && ((v0 as u8) | 128u8)
                    >= 128) by (bit_vector)
                    requires
                        !(-64 <= v0 && v0 < 64),
                ;
                assert((v0 >> 6u32) >> 1u32 == v0 / 128) by (bit_vector);
            }
            lemma_signed_bytes_max_len((v0 / 128) as i64);
            assert(signed_bytes(v0)[0] == if -64 <= v0 && v0 < 64 {
                (v0 % 128) as u8
            } else {
                (128 + v0 % 128) as u8
            });
            assert(enc.skip(bytes_written as int).skip(1) =~= enc.skip(bytes_written + 1));
            assert((b0 + enc.take(bytes_written as int)).push(
                enc[bytes_written as int],
            ) =~= b0 + enc.take(bytes_written + 1));
        }
        if done {
            byte = byte & !CONTINUATION_BIT;
        } else {
            // Remove the sign bit; more bytes follow.
            value = value >> 1;
            byte = byte | CONTINUATION_BIT;
        }
        match w.write_byte(byte) {
            Ok(()) => {},
            Err(e) => {
                proof {
                    assert(enc.take(bytes_written as int) =~= enc.take(
                        old(w).capacity() - old(w).bytes().len(),
                    ));
                }
                return Err(e);
            },
        }
        bytes_written = bytes_written + 1;
        if done {
            proof {
                assert(enc.take(bytes_written as int) =~= enc);
            }
            return Ok(bytes_written);
        }
    }
}

} // verus!

//! The bit-granular reader.

use vstd::prelude::*;

verus! {

use vstd::arithmetic::power2::pow2;
use vstd::arithmetic::power2::lemma2_to64_rest;
use vstd::arithmetic::power2::lemma_pow2_pos;
use vstd::arithmetic::power2::lemma_pow2_strictly_increases;
use vstd::arithmetic::div_mod::lemma_fundamental_div_mod_converse;
use vstd::bits::lemma_u64_shl_is_mul;
use vstd::bits::lemma_u64_shr_is_div;
use vstd::bits::lemma_u64_low_bits_mask_is_mod;
use vstd::bits::low_bits_mask;
use vstd::arithmetic::mul::lemma_mul_is_commutative;
use crate::bitmath::window;
use crate::bitmath::val_of;
use crate::bitmath::bytes_for;
use crate::bitmath::lemma_val_of_bound;
use crate::bitmath::lemma_val_of_concat;
use crate::bitmath::lemma_window_split;
use crate::bitmath::lemma_byte_window;
use crate::bitmath::lemma_bytes_for_exact;
use crate::bitmath::lemma_bytes_for_le;
use crate::bitstream::FromBits;
use crate::error::Error;

/// Pulls individual bits or bit ranges, up to 56 bits per call, out of an
/// in-memory byte source.
///
/// Bits are served least-significant-bit first, both within a byte and
/// within the buffered window: bit 0 of the first byte is the first bit
/// returned by a one-bit read.  The reader owns the byte source for the
/// duration of one decode session; [`BitReader::into_inner`] releases the
/// unread remainder, aligned to the last byte actually pulled.
pub struct BitReader {
    source: Vec<u8>,
    pos: usize,
    bits: u64,
    num_bits: u32,
    bits_read: u64,
}

impl BitReader {
    /// The byte source this reader was built over.
    pub closed spec fn source(&self) -> Seq<u8> {
        self.source@
    }

    /// The number of bits consumed so far.
    pub closed spec fn consumed(&self) -> nat {
        self.bits_read as nat
    }

    /// The number of bytes pulled from the source so far, whether their
    /// bits were consumed or only buffered.
    pub closed spec fn pulled(&self) -> nat {
        self.pos as nat
    }

    /// The total number of bits the source holds.
    pub open spec fn total_bits(&self) -> nat {
        8 * self.source().len()
    }

    /// The reader's internal invariant: every pulled bit is either consumed
    /// or buffered, the buffer holds at most 63 valid bits, and the buffer
    /// holds exactly the stream bits that follow the consumed ones.
    pub closed spec fn wf(&self) -> bool {
        &&& self.pos <= self.source@.len()
        &&& 8 * self.source@.len() <= u64::MAX
        &&& self.num_bits <= 63
        &&& self.bits_read + self.num_bits == 8 * self.pos
        &&& self.bits as nat == val_of(
            window(self.source@, self.bits_read as int, self.num_bits as nat),
        )
    }

    /// No bit has been pulled beyond the byte the cursor rests in: the
    /// pulled-byte count is the least that covers the consumed bits.
    pub open spec fn aligned(&self) -> bool {
        self.pulled() == bytes_for(self.consumed())
    }

    /// Wraps a byte source for one decode session.
    pub fn new(source: Vec<u8>) -> (r: BitReader)
        requires
            8 * source@.len() <= u64::MAX,
        ensures
            r.wf(),
            r.aligned(),
            r.source() == source@,
            r.consumed() == 0,
            r.pulled() == 0,
    {
        let r = BitReader { source, pos: 0, bits: 0, num_bits: 0, bits_read: 0 };
        proof {
            assert(window(r.source@, 0, 0) =~= Seq::<bool>::empty());
        }
        r
    }

    /// Returns the next `bits` bits as an integer without advancing the
    /// read position, refilling the buffer from the source one byte at a
    /// time as needed.  Fails with the end-of-stream condition if and only
    /// if the source cannot supply `bits` more bits.
    pub fn peek_bits(&mut self, bits: u32) -> (r: Result<u64, Error>)
        requires
            old(self).wf(),
            bits <= 56,
        ensures
            final(self).wf(),
            final(self).source() == old(self).source(),
            final(self).consumed() == old(self).consumed(),
            final(self).pulled() >= old(self).pulled(),
            match r {
                Ok(v) => {
                    &&& old(self).consumed() + bits <= old(self).total_bits()
                    &&& v as nat == val_of(
                        window(old(self).source(), old(self).consumed() as int, bits as nat),
                    )
                    &&& (v as nat) < pow2(bits as nat)
                    &&& final(self).pulled() == (if old(self).pulled() >= bytes_for(
                        old(self).consumed() + bits as nat,
                    ) {
                        old(self).pulled()
                    } else {
                        bytes_for(old(self).consumed() + bits as nat)
                    })
                },
                Err(e) => {
                    &&& e == Error::UnexpectedEof
                    &&& old(self).consumed() + bits > old(self).total_bits()
                    &&& final(self).pulled() == old(self).source().len()
                },
            },
    {
        let ghost s = self.source@;
        let ghost c = self.bits_read as nat;
        let mut needed: u32 = if bits > self.num_bits {
            bits - self.num_bits
        } else {
            0
        };
        while needed > 0
            invariant
                self.wf(),
                bits <= 56,
                s == old(self).source@,
                self.source@ == s,
                self.bits_read == old(self).bits_read,
                c == self.bits_read as nat,
                self.pos >= old(self).pos,
                needed == (if bits > self.num_bits {
                    bits - self.num_bits
                } else {
                    0
                }),
                self.pos > old(self).pos ==> 8 * self.pos <= c + bits + 7,
            decreases needed,
        {
            if self.pos >= self.source.len() {
                proof {
                    assert(c + bits > c + self.num_bits);
                }
                return Err(Error::UnexpectedEof);
            }
            let byte = self.source[self.pos];
            let ghost nb = self.num_bits as nat;
            let ghost nbu: u64 = self.num_bits as u64;
            let ghost acc = self.bits;
            proof {
                lemma_window_split(s, c as int, nb, 8);
                lemma_val_of_concat(window(s, c as int, nb), window(s, c as int + nb, 8));
                assert(c + nb == 8 * self.pos);
                lemma_byte_window(s, self.pos as int);
                lemma_val_of_bound(window(s, c as int, nb));
                // the buffered value occupies the low `nb` bits, so the new
                // byte lands above them without overlap
                assert(pow2(nb) >= 1 && pow2(55) == 0x80000000000000) by {
                    lemma_pow2_pos(nb);
                    lemma2_to64_rest();
                }
                if nb < 55 {
                    lemma_pow2_strictly_increases(nb, 55);
                }
                lemma_u64_shl_is_mul(1u64, self.num_bits as u64);
                assert((byte as int) * pow2(nb) <= 255 * pow2(55)) by (nonlinear_arith)
                    requires
                        byte <= 255,
                        0 < pow2(nb) <= pow2(55),
                ;
                lemma_u64_shl_is_mul(byte as u64, self.num_bits as u64);
                assert(acc | ((byte as u64) << nbu) == acc + ((byte as u64) << nbu))
                    by (bit_vector)
                    requires
                        acc < (1u64 << nbu),
                        nbu < 56,
                        (byte as u64) << nbu == (byte as u64) * (1u64 << nbu),
                ;
            }
            self.bits = self.bits | ((byte as u64) << (self.num_bits as u64));
            self.pos = self.pos + 1;
            self.num_bits = self.num_bits + 8;
            needed = if needed > 8 {
                needed - 8
            } else {
                0
            };
            proof {
                assert(self.bits as nat == acc as nat + (byte as nat) * pow2(nb));
                lemma_mul_is_commutative(byte as int, pow2(nb) as int);
                assert(val_of(window(s, c as int, (nb + 8) as nat)) == acc as nat + pow2(nb) * (
                byte as nat));
                assert(self.num_bits as nat == nb + 8);
                assert(self.bits as nat == val_of(window(s, c as int, self.num_bits as nat)));
            }
        }
        proof {
            // enough bits are buffered; justify the final pulled-byte count
            assert(self.num_bits >= bits);
            if self.pos == old(self).pos {
                lemma_bytes_for_le(c + bits as nat, self.pos as nat);
            } else {
                lemma_bytes_for_exact(c + bits as nat, self.pos as nat);
            }
            // the requested bits are the low bits of the buffer
            let lo = window(s, c as int, bits as nat);
            let hi = window(s, c as int + bits, (self.num_bits - bits) as nat);
            lemma_window_split(s, c as int, bits as nat, (self.num_bits - bits) as nat);
            lemma_val_of_concat(lo, hi);
            lemma_val_of_bound(lo);
            assert(pow2(bits as nat) <= pow2(56)) by {
                if bits < 56 {
                    lemma_pow2_strictly_increases(bits as nat, 56);
                }
            }
            assert(pow2(56) == 0x100000000000000) by {
                lemma2_to64_rest();
            }
            lemma_pow2_pos(bits as nat);
            lemma_u64_shl_is_mul(1u64, bits as u64);
            lemma_u64_low_bits_mask_is_mod(self.bits, bits as nat);
            assert((1u64 << (bits as u64)) - 1 == low_bits_mask(bits as nat) as u64);
            assert(self.bits as nat == val_of(lo) + pow2(bits as nat) * val_of(hi));
            lemma_fundamental_div_mod_converse(
                self.bits as int,
                pow2(bits as nat) as int,
                val_of(hi) as int,
                val_of(lo) as int,
            );
        }
        let res = self.bits & ((1u64 << (bits as u64)) - 1);
        Ok(res)
    }

    /// Same as [`BitReader::peek_bits`], but also removes the returned bits
    /// from the buffer and adds `bits` to the cumulative bits-read counter.
    pub fn read_bits(&mut self, bits: u32) -> (r: Result<u64, Error>)
        requires
            old(self).wf(),
            bits <= 56,
        ensures
            final(self).wf(),
            final(self).source() == old(self).source(),
            match r {
                Ok(v) => {
                    &&& old(self).consumed() + bits <= old(self).total_bits()
                    &&& v as nat == val_of(
                        window(old(self).source(), old(self).consumed() as int, bits as nat),
                    )
                    &&& (v as nat) < pow2(bits as nat)
                    &&& final(self).consumed() == old(self).consumed() + bits
                    &&& final(self).pulled() == (if old(self).pulled() >= bytes_for(
                        final(self).consumed(),
                    ) {
                        old(self).pulled()
                    } else {
                        bytes_for(final(self).consumed())
                    })
                    &&& old(self).aligned() ==> final(self).aligned()
                },
                Err(e) => {
                    &&& e == Error::UnexpectedEof
                    &&& old(self).consumed() + bits > old(self).total_bits()
                    &&& final(self).consumed() == old(self).consumed()
                    &&& final(self).pulled() == old(self).source().len()
                },
            },
    {
        let res = match self.peek_bits(bits) {
            Ok(v) => v,
            Err(e) => {
                return Err(e);
            },
        };
        let ghost s = self.source@;
        let ghost c = self.bits_read as nat;
        let ghost nb = self.num_bits as nat;
        proof {
            // removing the low `bits` bits leaves the bits that follow them
            let lo = window(s, c as int, bits as nat);
            let hi = window(s, c as int + bits, (nb - bits) as nat);
            lemma_window_split(s, c as int, bits as nat, (nb - bits) as nat);
            lemma_val_of_concat(lo, hi);
            lemma_val_of_bound(lo);
            lemma_pow2_pos(bits as nat);
            lemma_u64_shr_is_div(self.bits, bits as u64);
            lemma_fundamental_div_mod_converse(
                self.bits as int,
                pow2(bits as nat) as int,
                val_of(hi) as int,
                val_of(lo) as int,
            );
            if old(self).aligned() {
                lemma_bytes_for_le(c + bits as nat, bytes_for(c + bits as nat));
            }
        }
        self.num_bits = self.num_bits - bits;
        self.bits = self.bits >> (bits as u64);
        self.bits_read = self.bits_read + bits as u64;
        Ok(res)
    }

    /// A well-formed reader has consumed at most the bits its source
    /// holds, and pulled at most all its bytes.
    pub proof fn lemma_consumed_le_total(&self)
        requires
            self.wf(),
        ensures
            self.consumed() <= self.total_bits(),
            self.pulled() <= self.source().len(),
    {
    }

    /// Decodes one value of the codec `codec` from the current position,
    /// by delegating to that codec's decode routine.
    pub fn read<T: FromBits>(&mut self, codec: &T) -> (r: Result<u32, Error>)
        requires
            codec.wf(),
            old(self).wf(),
        ensures
            final(self).wf(),
            final(self).source() == old(self).source(),
            match r {
                Ok(v) => {
                    &&& old(self).consumed() + codec.needed(old(self).source(), old(self).consumed())
                        <= old(self).total_bits()
                    &&& v == codec.value_at(old(self).source(), old(self).consumed())
                    &&& final(self).consumed() == old(self).consumed() + codec.needed(
                        old(self).source(),
                        old(self).consumed(),
                    )
                    &&& old(self).aligned() ==> final(self).aligned()
                },
                Err(e) => {
                    &&& e == Error::UnexpectedEof
                    &&& old(self).consumed() + codec.needed(old(self).source(), old(self).consumed())
                        > old(self).total_bits()
                    &&& final(self).consumed() >= old(self).consumed()
                },
            },
    {
        codec.from_bits(self)
    }

    /// The cumulative count of bits consumed so far; a diagnostic query,
    /// not part of the decode control flow.
    pub fn bits_read(&self) -> (r: u64)
        ensures
            r as nat == self.consumed(),
    {
        self.bits_read
    }

    /// Releases the byte source, ending the session.  Bits buffered but
    /// never consumed are discarded: the returned remainder starts at the
    /// byte after the last byte actually pulled, so it is always
    /// byte-aligned, not aligned to the logical bit cursor.
    pub fn into_inner(self) -> (r: Vec<u8>)
        requires
            self.wf(),
        ensures
            r@ == self.source().subrange(self.pulled() as int, self.source().len() as int),
    {
        let mut rest: Vec<u8> = Vec::new();
        let mut i = self.pos;
        while i < self.source.len()
            invariant
                self.pos <= i <= self.source.len(),
                rest@ == self.source@.subrange(self.pos as int, i as int),
            decreases self.source.len() - i,
        {
            rest.push(self.source[i]);
            i = i + 1;
        }
        proof {
            assert(rest@ =~= self.source@.subrange(
                self.pos as int,
                self.source@.len() as int,
            ));
        }
        rest
    }
}

} // verus!

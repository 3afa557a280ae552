//! The bit-granular writer: the encode-direction counterpart of the
//! reader.

use vstd::prelude::*;

verus! {

use vstd::arithmetic::power2::pow2;
use vstd::arithmetic::power2::lemma2_to64;
use vstd::arithmetic::power2::lemma2_to64_rest;
use vstd::arithmetic::power2::lemma_pow2_pos;
use vstd::arithmetic::power2::lemma_pow2_adds;
use vstd::arithmetic::power2::lemma_pow2_strictly_increases;
use vstd::arithmetic::div_mod::lemma_fundamental_div_mod;
use vstd::arithmetic::div_mod::lemma_multiply_divide_lt;
use vstd::arithmetic::div_mod::lemma_mod_division_less_than_divisor;
use vstd::bits::lemma_u64_shl_is_mul;
use vstd::bits::lemma_u64_shr_is_div;
use vstd::bits::lemma_u64_low_bits_mask_is_mod;
use vstd::bits::low_bits_mask;
use crate::bitmath::window;
use crate::bitmath::bit_seq;
use crate::bitmath::bytes_for;
use crate::bitmath::lemma_bit_seq_concat;
use crate::bitmath::lemma_append_byte;
use crate::bitmath::lemma_bytes_for_exact;
use crate::bitstream::ToBits;
use crate::error::Error;

/// Accumulates bits least-significant-bit first and emits them to an
/// in-memory byte sink, one whole byte at a time.
///
/// The writer mirrors [`super::BitReader`]: the first bit written becomes
/// bit 0 of the first output byte.  [`BitWriter::finish`] pads the last
/// partial byte with zero bits and releases the sink.
pub struct BitWriter {
    sink: Vec<u8>,
    bits: u64,
    num_bits: u32,
}

impl BitWriter {
    /// All bits written so far, in order.
    pub closed spec fn written(&self) -> Seq<bool> {
        window(self.sink@, 0, (8 * self.sink@.len()) as nat) + bit_seq(
            self.bits as nat,
            self.num_bits as nat,
        )
    }

    /// The writer's internal invariant: at most seven bits wait for a
    /// whole byte, and no stale high bits sit above them.
    pub closed spec fn wf(&self) -> bool {
        &&& self.num_bits <= 7
        &&& (self.bits as nat) < pow2(self.num_bits as nat)
    }

    /// Opens an empty byte sink for one encode session.
    pub fn new() -> (r: BitWriter)
        ensures
            r.wf(),
            r.written() == Seq::<bool>::empty(),
    {
        let r = BitWriter { sink: Vec::new(), bits: 0, num_bits: 0 };
        proof {
            lemma2_to64();
            assert(r.written() =~= Seq::<bool>::empty());
        }
        r
    }

    /// Appends the low `bits` bits of `value` to the stream, least
    /// significant first, flushing whole bytes to the sink as they fill.
    pub fn write_bits(&mut self, value: u64, bits: u32)
        requires
            old(self).wf(),
            bits <= 56,
            (value as nat) < pow2(bits as nat),
        ensures
            final(self).wf(),
            final(self).written() == old(self).written() + bit_seq(value as nat, bits as nat),
    {
        let ghost target = old(self).written() + bit_seq(value as nat, bits as nat);
        let ghost nb = self.num_bits as nat;
        let ghost nbu: u64 = self.num_bits as u64;
        let ghost acc = self.bits;
        proof {
            assert(pow2(nb) >= 1 && pow2(7) == 0x80 && pow2(56) == 0x100000000000000
                && pow2(63) == 0x8000000000000000) by {
                lemma_pow2_pos(nb);
                lemma2_to64();
                lemma2_to64_rest();
            }
            if nb < 7 {
                lemma_pow2_strictly_increases(nb, 7);
            }
            if (bits as nat) < 56 {
                lemma_pow2_strictly_increases(bits as nat, 56);
            }
            assert((value as int) * pow2(nb) < pow2(56) * pow2(7)) by (nonlinear_arith)
                requires
                    (value as nat) < pow2(56),
                    0 < pow2(nb) <= pow2(7),
            ;
            lemma_pow2_adds(56, 7);
            lemma_u64_shl_is_mul(1u64, self.num_bits as u64);
            lemma_u64_shl_is_mul(value, self.num_bits as u64);
            assert(acc | (value << nbu) == acc + (value << nbu)) by (bit_vector)
                requires
                    acc < (1u64 << nbu),
                    nbu < 8,
                    (value << nbu) == value * (1u64 << nbu),
            ;
            // the combined accumulator holds the pending bits followed by
            // the new ones
            lemma_bit_seq_concat(acc as nat, nb, value as nat, bits as nat);
            assert((acc as nat) + (value as nat) * pow2(nb) == (acc as nat) + pow2(nb) * (
            value as nat) < pow2(nb) * pow2(bits as nat)) by (nonlinear_arith)
                requires
                    (acc as nat) < pow2(nb),
                    (value as nat) < pow2(bits as nat),
            ;
            lemma_pow2_adds(nb, bits as nat);
        }
        self.bits = self.bits | (value << (self.num_bits as u64));
        self.num_bits = self.num_bits + bits;
        proof {
            assert(self.written() =~= target);
        }
        while self.num_bits >= 8
            invariant
                self.num_bits <= 63,
                (self.bits as nat) < pow2(self.num_bits as nat),
                self.written() == target,
            decreases self.num_bits,
        {
            let ghost v = self.bits as nat;
            let ghost n = self.num_bits as nat;
            let ghost sk = self.sink@;
            proof {
                assert(pow2(8) == 256) by {
                    lemma2_to64();
                }
                lemma_pow2_pos(8);
                lemma_u64_low_bits_mask_is_mod(self.bits, 8);
                assert(low_bits_mask(8) == 0xff) by {
                    lemma2_to64();
                }
                lemma_u64_shr_is_div(self.bits, 8);
                lemma_pow2_adds(8, (n - 8) as nat);
                lemma_multiply_divide_lt(v as int, 256, pow2((n - 8) as nat) as int);
                lemma_mod_division_less_than_divisor(v as int, 256);
                lemma_fundamental_div_mod(v as int, 256);
                // flushing one byte moves the low eight pending bits into
                // the sink unchanged
                lemma_bit_seq_concat((v % 256) as nat, 8, (v / 256) as nat, (n - 8) as nat);
                lemma_append_byte(sk, (v % 256) as u8);
            }
            let byte: u8 = (self.bits & 0xff) as u8;
            self.sink.push(byte);
            self.bits = self.bits >> 8u64;
            self.num_bits = self.num_bits - 8;
            proof {
                assert(window(self.sink@, 0, (8 * self.sink@.len()) as nat) =~= window(
                    sk,
                    0,
                    (8 * sk.len()) as nat,
                ) + bit_seq((v % 256) as nat, 8));
                assert(self.written() =~= (window(sk, 0, (8 * sk.len()) as nat) + (bit_seq(
                    (v % 256) as nat,
                    8,
                ) + bit_seq((v / 256) as nat, (n - 8) as nat))));
                assert(self.written() =~= target);
            }
        }
    }

    /// Encodes one value with the codec `codec`, by delegating to that
    /// codec's encode routine.
    pub fn write<T: ToBits>(&mut self, codec: &T, value: u32) -> (r: Result<(), Error>)
        requires
            codec.wf(),
            codec.can_encode(value),
            old(self).wf(),
        ensures
            final(self).wf(),
            r is Ok,
            final(self).written() == old(self).written() + codec.enc(value),
    {
        codec.to_bits(value, self)
    }

    /// Pads the last partial byte with zero bits, if any bits are pending,
    /// and releases the byte sink.
    pub fn finish(self) -> (r: Vec<u8>)
        requires
            self.wf(),
        ensures
            r@.len() == bytes_for(self.written().len()),
            window(r@, 0, self.written().len()) == self.written(),
            forall|i: int|
                self.written().len() <= i < 8 * r@.len() ==> !crate::bitmath::bit_at(r@, i),
    {
        let BitWriter { mut sink, bits, num_bits } = self;
        let ghost wr = self.written();
        let ghost sk = sink@;
        if num_bits == 0 {
            proof {
                assert(wr =~= window(sk, 0, (8 * sk.len()) as nat));
                lemma_bytes_for_exact((8 * sk.len()) as nat, sk.len());
                assert(window(sk, 0, wr.len()) =~= wr);
            }
            sink
        } else {
            proof {
                assert(pow2(7) == 0x80 && pow2(8) == 256) by {
                    lemma2_to64();
                }
                if (num_bits as nat) < 7 {
                    lemma_pow2_strictly_increases(num_bits as nat, 7);
                }
                lemma_append_byte(sk, bits as u8);
            }
            let byte: u8 = bits as u8;
            sink.push(byte);
            proof {
                let t = sk.push(bits as u8);
                lemma_bytes_for_exact(wr.len(), sk.len() + 1);
                assert forall|j: int| 0 <= j < 8 implies bit_seq(bits as nat, 8)[j] == (if j
                    < num_bits {
                    bit_seq(bits as nat, num_bits as nat)[j]
                } else {
                    false
                }) by {
                    if j >= num_bits {
                        if j > num_bits {
                            lemma_pow2_strictly_increases(num_bits as nat, j as nat);
                        }
                        vstd::arithmetic::div_mod::lemma_basic_div(
                            bits as int,
                            pow2(j as nat) as int,
                        );
                    }
                }
                assert(window(t, 0, wr.len()) =~= wr);
                assert forall|i: int| wr.len() <= i < 8 * t.len() implies !crate::bitmath::bit_at(
                    t,
                    i,
                ) by {
                    assert(crate::bitmath::bit_at(t, i) == (window(t, 0, (8 * t.len()) as nat))[i]);
                    assert((window(sk, 0, (8 * sk.len()) as nat) + bit_seq(bits as nat, 8))[i]
                        == bit_seq(bits as nat, 8)[i - 8 * sk.len()]);
                }
            }
            sink
        }
    }
}

} // verus!

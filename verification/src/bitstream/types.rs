//! The closed set of primitive bit-codecs.
//!
//! Each codec is a descriptor value: it carries its bit width (and, where
//! applicable, its additive bias) as plain runtime data, and decodes or
//! encodes a non-negative integer below `2^32` through the reader and
//! writer.  A codec never validates what it reads; it fails only by
//! propagating the reader's end-of-stream condition.

use vstd::prelude::*;

verus! {

use vstd::arithmetic::power2::pow2;
use vstd::arithmetic::power2::lemma2_to64;
use vstd::arithmetic::power2::lemma_pow2_strictly_increases;
use vstd::bits::lemma_u32_shl_is_mul;
use crate::bitmath::window;
use crate::bitmath::val_of;
use crate::bitmath::bit_seq;
use crate::bitmath::lemma_val_of_bit_seq_small;
use crate::bitstream::bitreader::BitReader;
use crate::bitstream::bitwriter::BitWriter;
use crate::bitstream::FromBits;
use crate::bitstream::ToBits;
use crate::error::Error;

/// A constant known ahead of time: takes zero bits in the bitstream and
/// decodes to its fixed value.  Mostly useful as a placeholder arm in
/// [`PrefixU32`], so all arms share one decode signature.
#[derive(Clone, Copy, Debug, PartialEq, Eq, Structural)]
pub struct Const {
    /// The value this codec decodes to without reading anything.
    pub value: u32,
}

/// An `width`-bit direct-coded number, at most 32 bits, read least
/// significant bit first.
#[derive(Clone, Copy, Debug, PartialEq, Eq, Structural)]
pub struct Bits {
    /// How many bits of the stream make up the value.
    pub width: u32,
}

/// An `width`-bit number with a constant additive bias: the raw `width`
/// bits are decoded directly and `offset` is added, so the codec covers
/// the range `[offset, offset + 2^width - 1]`.
#[derive(Clone, Copy, Debug, PartialEq, Eq, Structural)]
pub struct BitsOffset {
    /// How many bits of the stream make up the raw value.
    pub width: u32,
    /// The constant added to the raw value.
    pub offset: u32,
}

/// A variable-width integer: a 2-bit selector read first picks one of
/// four sub-codecs, and only that arm's bits follow.  Typically the first
/// arm is the narrowest (cheapest for common small values) and the last
/// covers the full range.
///
/// The encode direction picks the lowest-indexed arm whose range contains
/// the value; that choice is deterministic, which makes the round-trip
/// law hold.
#[derive(Clone, Copy, Debug, PartialEq, Eq, Structural)]
pub struct PrefixU32<D0, D1, D2, D3> {
    /// The arm selected by selector value 0.
    pub d0: D0,
    /// The arm selected by selector value 1.
    pub d1: D1,
    /// The arm selected by selector value 2.
    pub d2: D2,
    /// The arm selected by selector value 3.
    pub d3: D3,
}

impl FromBits for Const {
    open spec fn wf(&self) -> bool {
        true
    }

    open spec fn needed(&self, s: Seq<u8>, start: nat) -> nat {
        0
    }

    open spec fn value_at(&self, s: Seq<u8>, start: nat) -> u32 {
        self.value
    }

    fn from_bits(&self, reader: &mut BitReader) -> (r: Result<u32, Error>) {
        proof {
            reader.lemma_consumed_le_total();
        }
        Ok(self.value)
    }
}

impl ToBits for Const {
    open spec fn can_encode(&self, v: u32) -> bool {
        v == self.value
    }

    open spec fn enc(&self, v: u32) -> Seq<bool> {
        Seq::empty()
    }

    fn fits(&self, v: u32) -> (b: bool) {
        v == self.value
    }

    fn to_bits(&self, v: u32, writer: &mut BitWriter) -> (r: Result<(), Error>) {
        proof {
            assert(old(writer).written() + self.enc(v) =~= old(writer).written());
        }
        Ok(())
    }

    proof fn lemma_enc_dec(&self, v: u32, s: Seq<u8>, start: nat) {
    }
}

impl FromBits for Bits {
    open spec fn wf(&self) -> bool {
        self.width <= 32
    }

    open spec fn needed(&self, s: Seq<u8>, start: nat) -> nat {
        self.width as nat
    }

    open spec fn value_at(&self, s: Seq<u8>, start: nat) -> u32 {
        val_of(window(s, start as int, self.width as nat)) as u32
    }

    fn from_bits(&self, reader: &mut BitReader) -> (r: Result<u32, Error>) {
        let x = match reader.read_bits(self.width) {
            Ok(v) => v,
            Err(e) => {
                return Err(e);
            },
        };
        proof {
            lemma_pow2_le_u32_max(self.width as nat);
        }
        Ok(x as u32)
    }
}

impl ToBits for Bits {
    open spec fn can_encode(&self, v: u32) -> bool {
        (v as nat) < pow2(self.width as nat)
    }

    open spec fn enc(&self, v: u32) -> Seq<bool> {
        bit_seq(v as nat, self.width as nat)
    }

    fn fits(&self, v: u32) -> (b: bool) {
        if self.width == 32 {
            proof {
                lemma_pow2_le_u32_max(32);
            }
            true
        } else {
            proof {
                lemma_pow2_le_u32_max(self.width as nat);
                lemma_u32_shl_is_mul(1u32, self.width);
            }
            v < (1u32 << self.width)
        }
    }

    fn to_bits(&self, v: u32, writer: &mut BitWriter) -> (r: Result<(), Error>) {
        writer.write_bits(v as u64, self.width);
        Ok(())
    }

    proof fn lemma_enc_dec(&self, v: u32, s: Seq<u8>, start: nat) {
        lemma_val_of_bit_seq_small(v as nat, self.width as nat);
    }
}

impl FromBits for BitsOffset {
    open spec fn wf(&self) -> bool {
        self.width <= 32 && self.offset + pow2(self.width as nat) <= 0x100000000
    }

    open spec fn needed(&self, s: Seq<u8>, start: nat) -> nat {
        self.width as nat
    }

    open spec fn value_at(&self, s: Seq<u8>, start: nat) -> u32 {
        (val_of(window(s, start as int, self.width as nat)) + self.offset) as u32
    }

    fn from_bits(&self, reader: &mut BitReader) -> (r: Result<u32, Error>) {
        let x = match reader.read_bits(self.width) {
            Ok(v) => v,
            Err(e) => {
                return Err(e);
            },
        };
        Ok(x as u32 + self.offset)
    }
}

impl ToBits for BitsOffset {
    open spec fn can_encode(&self, v: u32) -> bool {
        self.offset <= v && (v - self.offset) < pow2(self.width as nat)
    }

    open spec fn enc(&self, v: u32) -> Seq<bool> {
        bit_seq((v - self.offset) as nat, self.width as nat)
    }

    fn fits(&self, v: u32) -> (b: bool) {
        if v < self.offset {
            false
        } else if self.width == 32 {
            proof {
                lemma_pow2_le_u32_max(32);
            }
            true
        } else {
            proof {
                lemma_pow2_le_u32_max(self.width as nat);
                lemma_u32_shl_is_mul(1u32, self.width);
            }
            v - self.offset < (1u32 << self.width)
        }
    }

    fn to_bits(&self, v: u32, writer: &mut BitWriter) -> (r: Result<(), Error>) {
        writer.write_bits((v - self.offset) as u64, self.width);
        Ok(())
    }

    proof fn lemma_enc_dec(&self, v: u32, s: Seq<u8>, start: nat) {
        lemma_val_of_bit_seq_small((v - self.offset) as nat, self.width as nat);
    }
}

/// `pow2` of a width up to 32 fits alongside a `u32`.
proof fn lemma_pow2_le_u32_max(n: nat)
    requires
        n <= 32,
    ensures
        pow2(32) == 0x100000000,
        pow2(n) <= 0x100000000,
        n < 32 ==> pow2(n) < 0x100000000,
{
    lemma2_to64();
    if n < 32 {
        lemma_pow2_strictly_increases(n, 32);
    }
}

impl<D0: FromBits, D1: FromBits, D2: FromBits, D3: FromBits> PrefixU32<D0, D1, D2, D3> {
    /// The selector value the stream carries at `start`.
    pub open spec fn sel_at(s: Seq<u8>, start: nat) -> nat {
        val_of(window(s, start as int, 2))
    }

    /// What the arm picked by selector `sel` needs, starting after the
    /// selector.
    pub open spec fn arm_needed(&self, sel: nat, s: Seq<u8>, start: nat) -> nat {
        if sel == 0 {
            self.d0.needed(s, start)
        } else if sel == 1 {
            self.d1.needed(s, start)
        } else if sel == 2 {
            self.d2.needed(s, start)
        } else {
            self.d3.needed(s, start)
        }
    }

    /// The value of the arm picked by selector `sel`, starting after the
    /// selector.
    pub open spec fn arm_value_at(&self, sel: nat, s: Seq<u8>, start: nat) -> u32 {
        if sel == 0 {
            self.d0.value_at(s, start)
        } else if sel == 1 {
            self.d1.value_at(s, start)
        } else if sel == 2 {
            self.d2.value_at(s, start)
        } else {
            self.d3.value_at(s, start)
        }
    }
}

impl<D0: FromBits, D1: FromBits, D2: FromBits, D3: FromBits> FromBits for PrefixU32<
    D0,
    D1,
    D2,
    D3,
> {
    open spec fn wf(&self) -> bool {
        self.d0.wf() && self.d1.wf() && self.d2.wf() && self.d3.wf()
    }

    open spec fn needed(&self, s: Seq<u8>, start: nat) -> nat {
        2 + self.arm_needed(Self::sel_at(s, start), s, (start + 2) as nat)
    }

    open spec fn value_at(&self, s: Seq<u8>, start: nat) -> u32 {
        self.arm_value_at(Self::sel_at(s, start), s, (start + 2) as nat)
    }

    fn from_bits(&self, reader: &mut BitReader) -> (r: Result<u32, Error>) {
        let selector = match reader.read_bits(2) {
            Ok(v) => v,
            Err(e) => {
                return Err(e);
            },
        };
        proof {
            assert(pow2(2) == 4) by {
                lemma2_to64();
            }
        }
        if selector == 0 {
            self.d0.from_bits(reader)
        } else if selector == 1 {
            self.d1.from_bits(reader)
        } else if selector == 2 {
            self.d2.from_bits(reader)
        } else {
            self.d3.from_bits(reader)
        }
    }
}

impl<D0: ToBits, D1: ToBits, D2: ToBits, D3: ToBits> PrefixU32<D0, D1, D2, D3> {
    /// The lowest-indexed arm whose range contains `v`: the arm the
    /// encode direction picks, so that round trips are stable.
    pub open spec fn sel_of(&self, v: u32) -> nat {
        if self.d0.can_encode(v) {
            0
        } else if self.d1.can_encode(v) {
            1
        } else if self.d2.can_encode(v) {
            2
        } else {
            3
        }
    }

    /// The encoding the arm picked by selector `sel` gives `v`.
    pub open spec fn arm_enc(&self, sel: nat, v: u32) -> Seq<bool> {
        if sel == 0 {
            self.d0.enc(v)
        } else if sel == 1 {
            self.d1.enc(v)
        } else if sel == 2 {
            self.d2.enc(v)
        } else {
            self.d3.enc(v)
        }
    }
}

impl<D0: ToBits, D1: ToBits, D2: ToBits, D3: ToBits> ToBits for PrefixU32<D0, D1, D2, D3> {
    open spec fn can_encode(&self, v: u32) -> bool {
        ||| self.d0.can_encode(v)
        ||| self.d1.can_encode(v)
        ||| self.d2.can_encode(v)
        ||| self.d3.can_encode(v)
    }

    open spec fn enc(&self, v: u32) -> Seq<bool> {
        bit_seq(self.sel_of(v), 2) + self.arm_enc(self.sel_of(v), v)
    }

    fn fits(&self, v: u32) -> (b: bool) {
        self.d0.fits(v) || self.d1.fits(v) || self.d2.fits(v) || self.d3.fits(v)
    }

    fn to_bits(&self, v: u32, writer: &mut BitWriter) -> (r: Result<(), Error>) {
        proof {
            assert(pow2(2) == 4) by {
                lemma2_to64();
            }
        }
        let selector: u64 = if self.d0.fits(v) {
            0
        } else if self.d1.fits(v) {
            1
        } else if self.d2.fits(v) {
            2
        } else {
            3
        };
        writer.write_bits(selector, 2);
        let ghost mid = writer.written();
        let arm_result = if selector == 0 {
            self.d0.to_bits(v, writer)
        } else if selector == 1 {
            self.d1.to_bits(v, writer)
        } else if selector == 2 {
            self.d2.to_bits(v, writer)
        } else {
            self.d3.to_bits(v, writer)
        };
        proof {
            assert(writer.written() =~= old(writer).written() + self.enc(v));
        }
        arm_result
    }

    proof fn lemma_enc_dec(&self, v: u32, s: Seq<u8>, start: nat) {
        let sel = self.sel_of(v);
        let arm = self.arm_enc(sel, v);
        let e = self.enc(v);
        assert(pow2(2) == 4) by {
            lemma2_to64();
        }
        assert(e.len() == 2 + arm.len());
        assert forall|j: int| 0 <= j < 2 implies #[trigger] window(s, start as int, 2)[j]
            == bit_seq(sel, 2)[j] by {
            assert(window(s, start as int, e.len())[j] == e[j]);
        }
        assert(window(s, start as int, 2) =~= bit_seq(sel, 2));
        lemma_val_of_bit_seq_small(sel, 2);
        assert(Self::sel_at(s, start) == sel);
        assert forall|j: int| 0 <= j < arm.len() implies #[trigger] window(
            s,
            (start + 2) as int,
            arm.len(),
        )[j] == arm[j] by {
            assert(window(s, start as int, e.len())[2 + j] == e[2 + j]);
        }
        assert(window(s, (start + 2) as int, arm.len()) =~= arm);
        if sel == 0 {
            self.d0.lemma_enc_dec(v, s, (start + 2) as nat);
        } else if sel == 1 {
            self.d1.lemma_enc_dec(v, s, (start + 2) as nat);
        } else if sel == 2 {
            self.d2.lemma_enc_dec(v, s, (start + 2) as nat);
        } else {
            self.d3.lemma_enc_dec(v, s, (start + 2) as nat);
        }
    }
}

} // verus!

//! The bitstream engine: bit-granular reading and writing over in-memory
//! byte sources, and the decode/encode capability traits the primitive
//! codecs implement.

pub mod bitreader;
pub mod bitwriter;
pub mod types;

pub use bitreader::BitReader;
pub use bitwriter::BitWriter;
pub use types::Bits;
pub use types::BitsOffset;
pub use types::Const;
pub use types::PrefixU32;

use vstd::prelude::*;

verus! {

use crate::bitmath::window;
use crate::error::Error;

/// The capability of decoding one value from the bitstream.
///
/// A `FromBits` value is a codec descriptor: it knows how many bits it
/// needs — possibly depending on bits already in the stream, as with the
/// prefix-selected codec — and what value those bits denote.  The spec
/// functions pin the exec decode down exactly: [`FromBits::from_bits`]
/// returns [`FromBits::value_at`] and consumes [`FromBits::needed`] bits,
/// and fails with end-of-stream exactly when the source holds too few
/// bits.  Implementations for the primitive codecs are in [`types`].
pub trait FromBits: Sized {
    /// The descriptor itself is well formed.
    spec fn wf(&self) -> bool;

    /// How many bits a decode starting at bit `start` of `s` consumes.
    spec fn needed(&self, s: Seq<u8>, start: nat) -> nat;

    /// The value a decode starting at bit `start` of `s` yields.
    spec fn value_at(&self, s: Seq<u8>, start: nat) -> u32;

    /// Decodes one value from the reader's current position.
    fn from_bits(&self, reader: &mut BitReader) -> (r: Result<u32, Error>)
        requires
            self.wf(),
            old(reader).wf(),
        ensures
            final(reader).wf(),
            final(reader).source() == old(reader).source(),
            match r {
                Ok(v) => {
                    &&& old(reader).consumed() + self.needed(
                        old(reader).source(),
                        old(reader).consumed(),
                    ) <= old(reader).total_bits()
                    &&& v == self.value_at(old(reader).source(), old(reader).consumed())
                    &&& final(reader).consumed() == old(reader).consumed() + self.needed(
                        old(reader).source(),
                        old(reader).consumed(),
                    )
                    &&& old(reader).aligned() ==> final(reader).aligned()
                },
                Err(e) => {
                    &&& e == Error::UnexpectedEof
                    &&& old(reader).consumed() + self.needed(
                        old(reader).source(),
                        old(reader).consumed(),
                    ) > old(reader).total_bits()
                    &&& final(reader).consumed() >= old(reader).consumed()
                },
            },
    ;
}

/// The capability of encoding one value to the bitstream: the symmetric
/// obligation to [`FromBits`].
///
/// Encoding must agree with decoding: the trait carries the round-trip
/// law [`ToBits::lemma_enc_dec`] as a proof obligation, so every codec
/// that can encode proves that a stream carrying its encoding of `v`
/// decodes back to `v` exactly.
pub trait ToBits: FromBits {
    /// Which values this codec can represent.
    spec fn can_encode(&self, v: u32) -> bool;

    /// The exact bits emitted for `v`.
    spec fn enc(&self, v: u32) -> Seq<bool>;

    /// Decides [`ToBits::can_encode`] executably.
    fn fits(&self, v: u32) -> (b: bool)
        requires
            self.wf(),
        ensures
            b == self.can_encode(v),
    ;

    /// Encodes `v` to the writer.
    fn to_bits(&self, v: u32, writer: &mut BitWriter) -> (r: Result<(), Error>)
        requires
            self.wf(),
            self.can_encode(v),
            old(writer).wf(),
        ensures
            final(writer).wf(),
            r is Ok,
            final(writer).written() == old(writer).written() + self.enc(v),
    ;

    /// The round-trip law: a stream whose bits at `start` are this codec's
    /// encoding of `v` decodes back to `v`, consuming exactly those bits.
    proof fn lemma_enc_dec(&self, v: u32, s: Seq<u8>, start: nat)
        requires
            self.wf(),
            self.can_encode(v),
            window(s, start as int, self.enc(v).len()) == self.enc(v),
        ensures
            self.needed(s, start) == self.enc(v).len(),
            self.value_at(s, start) == v,
    ;
}

} // verus!

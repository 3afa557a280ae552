//! The top-level decoder: container magic check and the image-dimension
//! header, the concrete schema instance that exercises the bitstream
//! engine.
//!
//! Only the decode direction of the header is implemented; writing a
//! header back out is deliberately unsupported.  The primitive codecs do
//! encode, and their round-trip laws are proved where they live.

use vstd::prelude::*;

verus! {

use vstd::arithmetic::power2::lemma2_to64;
use vstd::arithmetic::div_mod::lemma_div_is_ordered;
use vstd::arithmetic::div_mod::lemma_div_multiples_vanish;
use crate::bitmath::val_of;
use crate::bitmath::window;
use crate::bitmath::bytes_for;
use crate::bitstream::bitreader::BitReader;
use crate::bitstream::types::Bits;
use crate::bitstream::types::BitsOffset;
use crate::bitstream::types::PrefixU32;
use crate::bitstream::FromBits;
use crate::error::Error;
use crate::schema::decode_fields;
use crate::schema::fields_wf;
use crate::schema::sch;
use crate::schema::sch_ok;
use crate::schema::lemma_sch_len;
use crate::schema::lemma_sch_vals_bound;
use crate::schema::Cond;
use crate::schema::FieldCodec;
use crate::schema::FieldDef;
use crate::utils::Rational;

/// The fixed two-byte magic signature that opens a container.
pub const MAGIC_SINGLE: u64 = 0x0aff;

/// The decoded image dimensions.  Populated atomically, only by a full
/// successful header decode; never partially valid.
#[derive(Clone, Copy, Debug, PartialEq, Eq, Structural)]
pub struct SizeHeader {
    /// The image width in pixels.
    pub width: u32,
    /// The image height in pixels.
    pub height: u32,
}

/// The 4-arm prefix-selected codec both large-regime dimension fields
/// use: arm widths 9, 13, 18 and 30 bits, each with a bias of one.
pub open spec fn large_codec() -> PrefixU32<BitsOffset, BitsOffset, BitsOffset, BitsOffset> {
    PrefixU32 {
        d0: BitsOffset { width: 9, offset: 1 },
        d1: BitsOffset { width: 13, offset: 1 },
        d2: BitsOffset { width: 18, offset: 1 },
        d3: BitsOffset { width: 30, offset: 1 },
    }
}

/// The dimension-header schema: the `small` flag, the two mutually
/// exclusive height fields, the ratio selector, and the two conditional
/// width fields, in bit-stream order.
pub open spec fn size_schema() -> Seq<FieldDef> {
    seq![
        FieldDef { cond: Cond::Always, codec: FieldCodec::Fixed(Bits { width: 1 }), default: 0 },
        FieldDef { cond: Cond::Eq(0, 1), codec: FieldCodec::Fixed(Bits { width: 5 }), default: 0 },
        FieldDef { cond: Cond::Eq(0, 0), codec: FieldCodec::Prefix(large_codec()), default: 0 },
        FieldDef { cond: Cond::Always, codec: FieldCodec::Fixed(Bits { width: 3 }), default: 0 },
        FieldDef {
            cond: Cond::AndEq(3, 0, 0, 1),
            codec: FieldCodec::Fixed(Bits { width: 5 }),
            default: 0,
        },
        FieldDef {
            cond: Cond::AndEq(3, 0, 0, 0),
            codec: FieldCodec::Prefix(large_codec()),
            default: 0,
        },
    ]
}

/// The aspect-ratio table, indexed by ratio selector minus one.
pub open spec fn ratio_spec(i: int) -> Rational {
    if i == 0 {
        Rational(1, 1)
    } else if i == 1 {
        Rational(12, 10)
    } else if i == 2 {
        Rational(4, 3)
    } else if i == 3 {
        Rational(3, 2)
    } else if i == 4 {
        Rational(16, 9)
    } else if i == 5 {
        Rational(5, 4)
    } else {
        Rational(2, 1)
    }
}

/// The first sixteen stream bits carry the magic signature.
pub open spec fn magic_ok(s: Seq<u8>) -> bool {
    val_of(window(s, 0, 16)) == MAGIC_SINGLE
}

/// The values the header schema binds, decoding after the signature.
pub open spec fn header_vals(s: Seq<u8>) -> Seq<u32> {
    sch(size_schema(), s, 16).0
}

/// The bit position reached after the whole header.
pub open spec fn header_end(s: Seq<u8>) -> nat {
    sch(size_schema(), s, 16).1
}

/// The stream holds the signature and every present header field.
pub open spec fn header_ok(s: Seq<u8>) -> bool {
    16 <= 8 * s.len() && sch_ok(size_schema(), s, 16)
}

/// The dimensions the header denotes: the small regime maps a raw value
/// `v` to `8 * (v + 1)`, the large regime carries its bias in the codec;
/// a non-zero ratio selector derives the width from the height through
/// the ratio table, and a zero selector reads the width explicitly.
pub open spec fn header_spec(s: Seq<u8>) -> SizeHeader {
    let vals = header_vals(s);
    let small = vals[0] == 1;
    let height: u32 = if small {
        (8 * (vals[1] + 1)) as u32
    } else {
        vals[2]
    };
    let ratio = vals[3];
    let width: u32 = if ratio > 0 {
        ratio_spec(ratio - 1).mul_spec(height) as u32
    } else if small {
        (8 * (vals[4] + 1)) as u32
    } else {
        vals[5]
    };
    SizeHeader { width, height }
}

/// The header schema is well formed and six fields long.
pub proof fn lemma_size_schema_wf()
    ensures
        fields_wf(size_schema()),
        size_schema().len() == 6,
{
    lemma2_to64();
    assert forall|i: int| 0 <= i < size_schema().len() implies (#[trigger] size_schema()[i]).codec.wf()
        && size_schema()[i].cond.wf(i as nat) by {
        lemma2_to64();
    }
}

/// Builds the dimension-header schema value.
pub fn size_fields() -> (r: Vec<FieldDef>)
    ensures
        r@ == size_schema(),
{
    let large = PrefixU32 {
        d0: BitsOffset { width: 9, offset: 1 },
        d1: BitsOffset { width: 13, offset: 1 },
        d2: BitsOffset { width: 18, offset: 1 },
        d3: BitsOffset { width: 30, offset: 1 },
    };
    let r = vec![
        FieldDef { cond: Cond::Always, codec: FieldCodec::Fixed(Bits { width: 1 }), default: 0 },
        FieldDef { cond: Cond::Eq(0, 1), codec: FieldCodec::Fixed(Bits { width: 5 }), default: 0 },
        FieldDef { cond: Cond::Eq(0, 0), codec: FieldCodec::Prefix(large), default: 0 },
        FieldDef { cond: Cond::Always, codec: FieldCodec::Fixed(Bits { width: 3 }), default: 0 },
        FieldDef {
            cond: Cond::AndEq(3, 0, 0, 1),
            codec: FieldCodec::Fixed(Bits { width: 5 }),
            default: 0,
        },
        FieldDef {
            cond: Cond::AndEq(3, 0, 0, 0),
            codec: FieldCodec::Prefix(large),
            default: 0,
        },
    ];
    proof {
        assert(r@ =~= size_schema());
    }
    r
}

/// Looks up the aspect ratio for table index `i`.  Every entry's
/// numerator is at most twice its denominator, which bounds a derived
/// width by twice the height.
pub fn ratio_table(i: usize) -> (r: Rational)
    requires
        i < 7,
    ensures
        r == ratio_spec(i as int),
        r.wf(),
        r.0 <= 2 * r.1,
{
    if i == 0 {
        Rational(1, 1)
    } else if i == 1 {
        Rational(12, 10)
    } else if i == 2 {
        Rational(4, 3)
    } else if i == 3 {
        Rational(3, 2)
    } else if i == 4 {
        Rational(16, 9)
    } else if i == 5 {
        Rational(5, 4)
    } else {
        Rational(2, 1)
    }
}

/// The top-level decoder: owns a byte source for one decode session and
/// reads the container magic and the dimension header from it.
pub struct Decoder {
    reader: BitReader,
}

impl Decoder {
    /// The byte source this decoder was built over.
    pub closed spec fn source(&self) -> Seq<u8> {
        self.reader.source()
    }

    /// A fresh decoder: its reader is well formed and nothing has been
    /// consumed.
    pub closed spec fn wf(&self) -> bool {
        &&& self.reader.wf()
        &&& self.reader.consumed() == 0
        &&& self.reader.pulled() == 0
    }

    /// Wraps a byte source for one decode session.
    pub fn new(source: Vec<u8>) -> (r: Decoder)
        requires
            8 * source@.len() <= u64::MAX,
        ensures
            r.wf(),
            r.source() == source@,
    {
        Decoder { reader: BitReader::new(source) }
    }

    /// Reads the two-byte magic signature and, on a match, the dimension
    /// header, returning the decoded record together with the remaining
    /// byte source.  A signature mismatch fails fast with
    /// [`Error::BadSignature`]; a stream too short for the signature or
    /// for any present header field fails with
    /// [`Error::UnexpectedEof`].  This is a one-shot operation: the
    /// decoder is consumed.
    pub fn read_header(self) -> (r: Result<(SizeHeader, Vec<u8>), Error>)
        requires
            self.wf(),
        ensures
            match r {
                Ok(p) => {
                    &&& magic_ok(self.source())
                    &&& header_ok(self.source())
                    &&& p.0 == header_spec(self.source())
                    &&& p.1@ == self.source().subrange(
                        bytes_for(header_end(self.source())) as int,
                        self.source().len() as int,
                    )
                },
                Err(e) => {
                    &&& (e == Error::BadSignature <==> (16 <= 8 * self.source().len()
                        && !magic_ok(self.source())))
                    &&& (e == Error::UnexpectedEof <==> (8 * self.source().len() < 16 || (magic_ok(
                        self.source(),
                    ) && !header_ok(self.source()))))
                },
            },
    {
        let Decoder { mut reader } = self;
        let ghost s = reader.source();
        proof {
            vstd::arithmetic::div_mod::lemma_basic_div(7, 8);
        }
        let signature = match reader.read_bits(16) {
            Ok(v) => v,
            Err(e) => {
                return Err(e);
            },
        };
        if signature != MAGIC_SINGLE {
            return Err(Error::BadSignature);
        }
        let fields = size_fields();
        proof {
            lemma_size_schema_wf();
        }
        let vals = match decode_fields(&fields, &mut reader) {
            Ok(v) => v,
            Err(e) => {
                return Err(e);
            },
        };
        proof {
            lemma_sch_len(size_schema(), s, 16);
            lemma_sch_vals_bound(size_schema(), s, 16);
            lemma2_to64();
            assert(vals@[1] <= 31 && vals@[2] <= 0x40000000 && vals@[3] <= 7 && vals@[4] <= 31
                && vals@[5] <= 0x40000000);
        }
        let small = vals[0] == 1;
        let height: u32 = if small {
            8 * (vals[1] + 1)
        } else {
            vals[2]
        };
        let ratio = vals[3];
        let width: u32 = if ratio > 0 {
            let rat = ratio_table((ratio - 1) as usize);
            proof {
                lemma_ratio_mul_bounded(rat, height);
            }
            rat.mul(height)
        } else if small {
            8 * (vals[4] + 1)
        } else {
            vals[5]
        };
        let header = SizeHeader { width, height };
        let rest = reader.into_inner();
        Ok((header, rest))
    }
}

/// A table ratio applied to a bounded height stays within 32 bits.
proof fn lemma_ratio_mul_bounded(rat: Rational, height: u32)
    requires
        rat.wf(),
        rat.0 <= 2 * rat.1,
        height <= 0x40000000,
    ensures
        0 <= rat.mul_spec(height) <= u32::MAX,
{
    assert((height as int) * (rat.0 as int) <= (rat.1 as int) * (2 * (height as int)))
        by (nonlinear_arith)
        requires
            rat.0 <= 2 * rat.1,
            0 <= height,
    ;
    lemma_div_is_ordered(
        (height as int) * (rat.0 as int),
        (rat.1 as int) * (2 * (height as int)),
        rat.1 as int,
    );
    lemma_div_multiples_vanish(2 * (height as int), rat.1 as int);
    lemma_div_is_ordered(0, (height as int) * (rat.0 as int), rat.1 as int);
    vstd::arithmetic::div_mod::lemma_basic_div(0, rat.1 as int);
}

} // verus!

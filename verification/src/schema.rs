//! The field-schema engine.
//!
//! A record is declared as an ordered list of field descriptors, each with
//! a codec, a default value and a presence condition over the fields
//! already bound.  Decoding walks the list in order: a field whose
//! condition holds is read from the stream with its codec; one whose
//! condition fails takes its default without touching the stream.
//! Declaration order is both the bit-stream order and the dependency
//! order: a condition may only look at earlier fields.
//!
//! Only the decode direction of a record is provided.  The primitive
//! codecs encode individually (see [`crate::bitstream::ToBits`]), but
//! re-deriving a whole record's fields from its assembled value is left
//! unimplemented, as the dimension header needs only decoding.

use vstd::prelude::*;

verus! {

use vstd::arithmetic::power2::pow2;
use crate::bitmath::lemma_val_of_bound;
use crate::bitstream::bitreader::BitReader;
use crate::bitstream::types::Bits;
use crate::bitstream::types::BitsOffset;
use crate::bitstream::types::Const;
use crate::bitstream::types::PrefixU32;
use crate::bitstream::FromBits;
use crate::error::Error;

/// The codec of one schema field: one of the primitive bit-codecs, with
/// the prefix-selected codec's four arms fixed to offset codecs as the
/// dimension header uses them.
#[derive(Clone, Copy, Debug, PartialEq, Eq, Structural)]
pub enum FieldCodec {
    /// A direct fixed-width field.
    Fixed(Bits),
    /// A fixed-width field with an additive bias.
    Offset(BitsOffset),
    /// A zero-bit constant field.
    Constant(Const),
    /// A 4-arm prefix-selected variable-width field.
    Prefix(PrefixU32<BitsOffset, BitsOffset, BitsOffset, BitsOffset>),
}

impl FromBits for FieldCodec {
    open spec fn wf(&self) -> bool {
        match self {
            FieldCodec::Fixed(c) => c.wf(),
            FieldCodec::Offset(c) => c.wf(),
            FieldCodec::Constant(c) => c.wf(),
            FieldCodec::Prefix(c) => c.wf(),
        }
    }

    open spec fn needed(&self, s: Seq<u8>, start: nat) -> nat {
        match self {
            FieldCodec::Fixed(c) => c.needed(s, start),
            FieldCodec::Offset(c) => c.needed(s, start),
            FieldCodec::Constant(c) => c.needed(s, start),
            FieldCodec::Prefix(c) => c.needed(s, start),
        }
    }

    open spec fn value_at(&self, s: Seq<u8>, start: nat) -> u32 {
        match self {
            FieldCodec::Fixed(c) => c.value_at(s, start),
            FieldCodec::Offset(c) => c.value_at(s, start),
            FieldCodec::Constant(c) => c.value_at(s, start),
            FieldCodec::Prefix(c) => c.value_at(s, start),
        }
    }

    fn from_bits(&self, reader: &mut BitReader) -> (r: Result<u32, Error>) {
        match self {
            FieldCodec::Fixed(c) => c.from_bits(reader),
            FieldCodec::Offset(c) => c.from_bits(reader),
            FieldCodec::Constant(c) => c.from_bits(reader),
            FieldCodec::Prefix(c) => c.from_bits(reader),
        }
    }
}

/// A presence condition over the fields already bound, referenced by
/// their position in the record.
#[derive(Clone, Copy, Debug, PartialEq, Eq, Structural)]
pub enum Cond {
    /// The field is always present.
    Always,
    /// Present when the field at the given position has the given value.
    Eq(usize, u32),
    /// Present when both positions hold the given values.
    AndEq(usize, u32, usize, u32),
}

impl Cond {
    /// The condition only references fields before position `n`.
    pub open spec fn wf(&self, n: nat) -> bool {
        match self {
            Cond::Always => true,
            Cond::Eq(i, _) => (i as nat) < n,
            Cond::AndEq(i, _, j, _) => (i as nat) < n && (j as nat) < n,
        }
    }

    /// Whether the condition holds of the bound values `vals`.
    pub open spec fn holds_on(&self, vals: Seq<u32>) -> bool {
        match self {
            Cond::Always => true,
            Cond::Eq(i, x) => vals[i as int] == x,
            Cond::AndEq(i, x, j, y) => vals[i as int] == x && vals[j as int] == y,
        }
    }

    /// Evaluates the condition against the values bound so far.
    pub fn eval(&self, vals: &Vec<u32>) -> (b: bool)
        requires
            self.wf(vals@.len()),
        ensures
            b == self.holds_on(vals@),
    {
        match self {
            Cond::Always => true,
            Cond::Eq(i, x) => vals[*i] == *x,
            Cond::AndEq(i, x, j, y) => vals[*i] == *x && vals[*j] == *y,
        }
    }
}

/// One field of a record: its codec, the default bound when the field is
/// skipped, and the condition under which it is read at all.
#[derive(Clone, Copy, Debug, PartialEq, Eq, Structural)]
pub struct FieldDef {
    /// When the field is present in the stream.
    pub cond: Cond,
    /// How the field's bits are decoded when present.
    pub codec: FieldCodec,
    /// The value bound when the field is absent.
    pub default: u32,
}

/// Every codec is well formed and every condition references only
/// earlier fields.
pub open spec fn fields_wf(fs: Seq<FieldDef>) -> bool {
    forall|i: int|
        0 <= i < fs.len() ==> (#[trigger] fs[i]).codec.wf() && fs[i].cond.wf(i as nat)
}

/// The record decode, as a function of the stream: the values bound to
/// the fields of `fs`, and the bit position reached, when decoding starts
/// at bit `start` of `s`.  Meaningful where [`sch_ok`] holds; absent
/// data reads as zero-padding otherwise.
pub open spec fn sch(fs: Seq<FieldDef>, s: Seq<u8>, start: nat) -> (Seq<u32>, nat)
    decreases fs.len(),
{
    if fs.len() == 0 {
        (Seq::empty(), start)
    } else {
        let prev = sch(fs.drop_last(), s, start);
        let f = fs.last();
        if f.cond.holds_on(prev.0) {
            (prev.0.push(f.codec.value_at(s, prev.1)), (prev.1 + f.codec.needed(s, prev.1)) as nat)
        } else {
            (prev.0.push(f.default), prev.1)
        }
    }
}

/// Whether the stream holds enough bits for every field of `fs` that is
/// present.
pub open spec fn sch_ok(fs: Seq<FieldDef>, s: Seq<u8>, start: nat) -> bool
    decreases fs.len(),
{
    if fs.len() == 0 {
        true
    } else {
        let prev = sch(fs.drop_last(), s, start);
        sch_ok(fs.drop_last(), s, start) && (fs.last().cond.holds_on(prev.0) ==> prev.1
            + fs.last().codec.needed(s, prev.1) <= 8 * s.len())
    }
}

/// A record binds exactly one value per field.
pub proof fn lemma_sch_len(fs: Seq<FieldDef>, s: Seq<u8>, start: nat)
    ensures
        sch(fs, s, start).0.len() == fs.len(),
        sch(fs, s, start).1 >= start,
    decreases fs.len(),
{
    if fs.len() > 0 {
        lemma_sch_len(fs.drop_last(), s, start);
    }
}

/// A record that decodes within the stream does so for every prefix of
/// its fields.
pub proof fn lemma_sch_ok_prefix(fs: Seq<FieldDef>, s: Seq<u8>, start: nat, k: int)
    requires
        0 <= k <= fs.len(),
        sch_ok(fs, s, start),
    ensures
        sch_ok(fs.subrange(0, k), s, start),
    decreases fs.len(),
{
    if k == fs.len() {
        assert(fs.subrange(0, k) =~= fs);
    } else {
        assert(fs.subrange(0, fs.len() - 1) =~= fs.drop_last());
        lemma_sch_ok_prefix(fs.drop_last(), s, start, k);
        assert(fs.drop_last().subrange(0, k) =~= fs.subrange(0, k));
    }
}

/// The largest value a codec can bind, over every stream.
pub open spec fn codec_bound(c: FieldCodec) -> int {
    match c {
        FieldCodec::Fixed(b) => pow2(b.width as nat) - 1,
        FieldCodec::Offset(o) => o.offset + pow2(o.width as nat) - 1,
        FieldCodec::Constant(k) => k.value as int,
        FieldCodec::Prefix(p) => arm_bound_max(p),
    }
}

/// The largest value any arm of a prefix-selected codec can bind.
pub open spec fn arm_bound_max(
    p: PrefixU32<BitsOffset, BitsOffset, BitsOffset, BitsOffset>,
) -> int {
    let b0 = p.d0.offset + pow2(p.d0.width as nat) - 1;
    let b1 = p.d1.offset + pow2(p.d1.width as nat) - 1;
    let b2 = p.d2.offset + pow2(p.d2.width as nat) - 1;
    let b3 = p.d3.offset + pow2(p.d3.width as nat) - 1;
    let m01 = if b0 >= b1 {
        b0
    } else {
        b1
    };
    let m23 = if b2 >= b3 {
        b2
    } else {
        b3
    };
    if m01 >= m23 {
        m01
    } else {
        m23
    }
}

/// No stream makes a codec bind a value above its bound.
pub proof fn lemma_codec_value_bound(c: FieldCodec, s: Seq<u8>, start: nat)
    requires
        c.wf(),
    ensures
        c.value_at(s, start) <= codec_bound(c),
{
    match c {
        FieldCodec::Fixed(b) => {
            lemma_val_of_bound(crate::bitmath::window(s, start as int, b.width as nat));
        },
        FieldCodec::Offset(o) => {
            lemma_val_of_bound(crate::bitmath::window(s, start as int, o.width as nat));
        },
        FieldCodec::Constant(_) => {
        },
        FieldCodec::Prefix(p) => {
            lemma_val_of_bound(crate::bitmath::window(s, (start + 2) as int, p.d0.width as nat));
            lemma_val_of_bound(crate::bitmath::window(s, (start + 2) as int, p.d1.width as nat));
            lemma_val_of_bound(crate::bitmath::window(s, (start + 2) as int, p.d2.width as nat));
            lemma_val_of_bound(crate::bitmath::window(s, (start + 2) as int, p.d3.width as nat));
        },
    }
}

/// Every bound value is either below its codec's bound or the field's
/// default.
pub proof fn lemma_sch_vals_bound(fs: Seq<FieldDef>, s: Seq<u8>, start: nat)
    requires
        fields_wf(fs),
    ensures
        forall|i: int|
            0 <= i < fs.len() ==> (#[trigger] sch(fs, s, start).0[i]) <= codec_bound(fs[i].codec)
                || sch(fs, s, start).0[i] == fs[i].default,
    decreases fs.len(),
{
    if fs.len() > 0 {
        assert forall|i: int| 0 <= i < fs.drop_last().len() implies (#[trigger] fs.drop_last()[i]).codec.wf()
            && fs.drop_last()[i].cond.wf(i as nat) by {
            assert(fs.drop_last()[i] == fs[i]);
        }
        lemma_sch_vals_bound(fs.drop_last(), s, start);
        lemma_sch_len(fs.drop_last(), s, start);
        let prev = sch(fs.drop_last(), s, start);
        lemma_codec_value_bound(fs.last().codec, s, prev.1);
        assert forall|i: int| 0 <= i < fs.len() implies (#[trigger] sch(fs, s, start).0[i])
            <= codec_bound(fs[i].codec) || sch(fs, s, start).0[i] == fs[i].default by {
            if i < fs.len() - 1 {
                assert(fs.drop_last()[i] == fs[i]);
                assert(sch(fs, s, start).0[i] == prev.0[i]);
                assert(prev.0[i] <= codec_bound(fs.drop_last()[i].codec) || prev.0[i]
                    == fs.drop_last()[i].default);
            }
        }
    }
}

/// Decodes one record: for each field in order, evaluates its condition
/// against the values bound so far, reads the field with its codec when
/// the condition holds, and binds the declared default otherwise.  The
/// first failed read aborts the whole record.
pub fn decode_fields(fields: &Vec<FieldDef>, reader: &mut BitReader) -> (r: Result<
    Vec<u32>,
    Error,
>)
    requires
        fields_wf(fields@),
        old(reader).wf(),
    ensures
        final(reader).wf(),
        final(reader).source() == old(reader).source(),
        match r {
            Ok(vals) => {
                &&& sch_ok(fields@, old(reader).source(), old(reader).consumed())
                &&& vals@ == sch(fields@, old(reader).source(), old(reader).consumed()).0
                &&& final(reader).consumed() == sch(
                    fields@,
                    old(reader).source(),
                    old(reader).consumed(),
                ).1
                &&& old(reader).aligned() ==> final(reader).aligned()
            },
            Err(e) => {
                &&& e == Error::UnexpectedEof
                &&& !sch_ok(fields@, old(reader).source(), old(reader).consumed())
            },
        },
{
    let ghost s = old(reader).source();
    let ghost c0 = old(reader).consumed();
    let mut vals: Vec<u32> = Vec::new();
    let mut i: usize = 0;
    while i < fields.len()
        invariant
            fields_wf(fields@),
            reader.wf(),
            s == old(reader).source(),
            c0 == old(reader).consumed(),
            reader.source() == s,
            i <= fields@.len(),
            vals@ == sch(fields@.subrange(0, i as int), s, c0).0,
            vals@.len() == i,
            reader.consumed() == sch(fields@.subrange(0, i as int), s, c0).1,
            sch_ok(fields@.subrange(0, i as int), s, c0),
            old(reader).aligned() ==> reader.aligned(),
        decreases fields@.len() - i,
    {
        let ghost pre = fields@.subrange(0, i as int);
        let ghost post = fields@.subrange(0, i as int + 1);
        proof {
            assert(post.drop_last() =~= pre);
            assert(post.last() == fields@[i as int]);
        }
        let f = &fields[i];
        let present = f.cond.eval(&vals);
        if present {
            let v = match f.codec.from_bits(reader) {
                Ok(v) => v,
                Err(e) => {
                    proof {
                        if sch_ok(fields@, s, c0) {
                            lemma_sch_ok_prefix(fields@, s, c0, i as int + 1);
                        }
                    }
                    return Err(e);
                },
            };
            vals.push(v);
        } else {
            vals.push(f.default);
        }
        i = i + 1;
    }
    proof {
        assert(fields@.subrange(0, fields@.len() as int) =~= fields@);
    }
    Ok(vals)
}

} // verus!

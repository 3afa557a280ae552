use jxlrate::bitstream::types::Bits;
use jxlrate::bitstream::BitReader;
use jxlrate::error::Error;
use jxlrate::schema::decode_fields;
use jxlrate::schema::Cond;
use jxlrate::schema::FieldCodec;
use jxlrate::schema::FieldDef;
use jxlrate::utils::Rational;

#[test]
fn it_works() {
    assert_eq!(2 + 2, 4);
}

fn flag_then_byte(default: u32) -> Vec<FieldDef> {
    vec![
        FieldDef { cond: Cond::Always, codec: FieldCodec::Fixed(Bits { width: 1 }), default: 0 },
        FieldDef { cond: Cond::Eq(0, 1), codec: FieldCodec::Fixed(Bits { width: 8 }), default },
    ]
}

#[test]
fn schema_reads_present_field() {
    // flag bit 1, then eight bits holding 1
    let mut reader = BitReader::new(vec![0x03, 0x00]);
    let vals = decode_fields(&flag_then_byte(7), &mut reader).unwrap();
    assert_eq!(vals, vec![1, 1]);
    assert_eq!(reader.bits_read(), 9);
}

#[test]
fn schema_binds_default_when_absent() {
    // flag bit 0: the conditional field is not read and takes its default
    let mut reader = BitReader::new(vec![0x02, 0x00]);
    let vals = decode_fields(&flag_then_byte(7), &mut reader).unwrap();
    assert_eq!(vals, vec![0, 7]);
    assert_eq!(reader.bits_read(), 1);
}

#[test]
fn schema_absent_field_needs_no_data() {
    // with the flag clear, one byte is enough even though the conditional
    // field would not fit
    let mut reader = BitReader::new(vec![0x00]);
    let vals = decode_fields(&flag_then_byte(9), &mut reader).unwrap();
    assert_eq!(vals, vec![0, 9]);
}

#[test]
fn schema_present_field_past_end_is_eof() {
    let mut reader = BitReader::new(vec![0x01]);
    assert_eq!(
        decode_fields(&flag_then_byte(9), &mut reader),
        Err(Error::UnexpectedEof)
    );
}

#[test]
fn schema_condition_on_two_fields() {
    let fields = vec![
        FieldDef { cond: Cond::Always, codec: FieldCodec::Fixed(Bits { width: 1 }), default: 0 },
        FieldDef { cond: Cond::Always, codec: FieldCodec::Fixed(Bits { width: 3 }), default: 0 },
        FieldDef {
            cond: Cond::AndEq(0, 1, 1, 0),
            codec: FieldCodec::Fixed(Bits { width: 4 }),
            default: 15,
        },
    ];
    // flag 1, three-bit field 0, four-bit field 9
    let mut reader = BitReader::new(vec![0b1001_0001]);
    let vals = decode_fields(&fields, &mut reader).unwrap();
    assert_eq!(vals, vec![1, 0, 9]);
    // flag 1, three-bit field 2: the third field is skipped
    let mut reader = BitReader::new(vec![0b0000_0101]);
    let vals = decode_fields(&fields, &mut reader).unwrap();
    assert_eq!(vals, vec![1, 2, 15]);
}

#[test]
fn rational_multiplies_and_floors() {
    assert_eq!(Rational(5, 4).mul(300), 375);
    assert_eq!(Rational(3, 2).mul(301), 451);
    assert_eq!(Rational(12, 10).mul(300), 360);
    assert_eq!(Rational(16, 9).mul(300), 533);
    assert_eq!(Rational(2, 1).mul(0x4000_0000), 0x8000_0000);
    assert_eq!(Rational(1, 1).mul(88), 88);
}

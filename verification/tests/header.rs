use jxlrate::decoder::Decoder;
use jxlrate::error::Error;

// A large-regime fixture: signature 0x0aff, small = 0, height through the
// 9-bit arm (raw 299, so 300), ratio selector 0, width through the 9-bit
// arm (raw 418, so 419).
fn large_fixture() -> Vec<u8> {
    vec![0xff, 0x0a, 0x58, 0x09, 0x44, 0x03]
}

#[test]
fn read_header_large() {
    let decoder = Decoder::new(large_fixture());
    let header = decoder.read_header().unwrap().0;
    assert_eq!(header.width, 419);
    assert_eq!(header.height, 300);
}

#[test]
fn read_header_ratio() {
    // signature, large regime, height 300, ratio selector 6: the 5:4
    // table entry, so width 375
    let data = vec![0xff, 0x0a, 0x58, 0x69];
    let decoder = Decoder::new(data);
    let header = decoder.read_header().unwrap().0;
    assert_eq!(header.width, 375);
    assert_eq!(header.height, 300);
}

#[test]
fn read_header_bad_signature() {
    let data = vec![0x00, 0x0a, 0x58, 0x69];
    let decoder = Decoder::new(data);
    assert_eq!(decoder.read_header().unwrap_err(), Error::BadSignature);
}

#[test]
fn read_header_truncated_is_eof() {
    // the stream ends after the signature, the small flag and the height
    // selector, before the 9-bit height field is complete
    let data = vec![0xff, 0x0a, 0x58];
    let decoder = Decoder::new(data);
    assert_eq!(decoder.read_header().unwrap_err(), Error::UnexpectedEof);
}

#[test]
fn read_header_empty_is_eof() {
    let decoder = Decoder::new(Vec::new());
    assert_eq!(decoder.read_header().unwrap_err(), Error::UnexpectedEof);
}

#[test]
fn read_header_small_regime() {
    // small = 1, five-bit height field 10: actual height 8 * (10 + 1),
    // ratio selector 1 (1:1), so the width equals the height
    let data = vec![0xff, 0x0a, 0x55, 0x00];
    let decoder = Decoder::new(data);
    let header = decoder.read_header().unwrap().0;
    assert_eq!(header.height, 88);
    assert_eq!(header.width, 88);
}

#[test]
fn read_header_small_explicit_width() {
    // small = 1, height field 10, ratio selector 0, five-bit width field
    // 12: actual width 8 * (12 + 1)
    let data = vec![0xff, 0x0a, 0x15, 0x18];
    let decoder = Decoder::new(data);
    let header = decoder.read_header().unwrap().0;
    assert_eq!(header.height, 88);
    assert_eq!(header.width, 104);
}

#[test]
fn read_header_max_dimensions() {
    // the widest arm carries the largest height, and the 2:1 ratio doubles
    // it into the largest width
    let mut writer = jxlrate::bitstream::BitWriter::new();
    writer.write_bits(0x0aff, 16);
    writer.write_bits(0, 1); // large regime
    writer.write_bits(3, 2); // 30-bit arm
    writer.write_bits(0x3fff_ffff, 30);
    writer.write_bits(7, 3); // ratio 2:1
    let decoder = Decoder::new(writer.finish());
    let header = decoder.read_header().unwrap().0;
    assert_eq!(header.height, 0x4000_0000);
    assert_eq!(header.width, 0x8000_0000);
}

#[test]
fn read_header_returns_remaining_source() {
    // the header of the large fixture spans 42 bits: six bytes are
    // pulled, and trailing bytes come back untouched
    let mut data = large_fixture();
    data.push(0xde);
    data.push(0xad);
    let decoder = Decoder::new(data);
    let (header, rest) = decoder.read_header().unwrap();
    assert_eq!(header.width, 419);
    assert_eq!(rest, vec![0xde, 0xad]);
}

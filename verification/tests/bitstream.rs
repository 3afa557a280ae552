use jxlrate::bitstream::ToBits;
use jxlrate::bitstream::types::Bits;
use jxlrate::bitstream::types::BitsOffset;
use jxlrate::bitstream::types::Const;
use jxlrate::bitstream::types::PrefixU32;
use jxlrate::bitstream::BitReader;
use jxlrate::bitstream::BitWriter;
use jxlrate::error::Error;

#[test]
fn bit_reader() {
    let data = b"Hello, World!";

    let mut reader = BitReader::new(data.to_vec());
    assert_eq!(reader.peek_bits(3).unwrap(), 0);
    assert_eq!(reader.read_bits(4).unwrap(), 8);
    assert_eq!(reader.peek_bits(16).unwrap(), 0b1100_0110_0101_0100);
    assert_eq!(reader.read_bits(7).unwrap(), 0b101_0100);
    assert_eq!(reader.read_bits(9).unwrap(), 0b1100_0110_0);
}

#[test]
fn peek_then_read_agree() {
    // a peek followed by a read of the same count yields the same value,
    // and only the read advances the cumulative bit counter
    let data = vec![0x37, 0xc8, 0x15, 0x9e, 0x42, 0x77, 0x01];
    for n in 1..=56u32 {
        let mut reader = BitReader::new(data.clone());
        let peeked = reader.peek_bits(n).unwrap();
        assert_eq!(reader.bits_read(), 0);
        let read = reader.read_bits(n).unwrap();
        assert_eq!(peeked, read);
        assert_eq!(reader.bits_read(), n as u64);
    }
}

#[test]
fn read_advances_by_exact_count() {
    let data = vec![0xab, 0xcd, 0xef, 0x12];
    let mut reader = BitReader::new(data);
    reader.read_bits(3).unwrap();
    assert_eq!(reader.bits_read(), 3);
    reader.read_bits(11).unwrap();
    assert_eq!(reader.bits_read(), 14);
    reader.read_bits(1).unwrap();
    assert_eq!(reader.bits_read(), 15);
}

#[test]
fn read_past_end_is_eof() {
    // reading past end-of-stream fails with the end-of-stream condition,
    // never with a silently zero-padded value
    let mut empty = BitReader::new(Vec::new());
    assert_eq!(empty.read_bits(1), Err(Error::UnexpectedEof));

    let mut one_byte = BitReader::new(vec![0xff]);
    assert_eq!(one_byte.read_bits(9), Err(Error::UnexpectedEof));
    // the eight bits that do exist are still served afterwards
    assert_eq!(one_byte.read_bits(8).unwrap(), 0xff);
    assert_eq!(one_byte.read_bits(1), Err(Error::UnexpectedEof));
}

#[test]
fn peek_past_end_is_eof() {
    let mut reader = BitReader::new(vec![0x5a, 0x5a]);
    assert_eq!(reader.peek_bits(17), Err(Error::UnexpectedEof));
    assert_eq!(reader.peek_bits(16).unwrap(), 0x5a5a);
}

#[test]
fn into_inner_is_byte_aligned() {
    // releasing the source discards buffered-but-unread bits: the
    // remainder starts after the last byte actually pulled
    let reader = BitReader::new(vec![0xaa, 0xbb, 0xcc]);
    assert_eq!(reader.into_inner(), vec![0xaa, 0xbb, 0xcc]);

    let mut reader = BitReader::new(vec![0xaa, 0xbb, 0xcc]);
    reader.read_bits(4).unwrap();
    assert_eq!(reader.into_inner(), vec![0xbb, 0xcc]);

    let mut reader = BitReader::new(vec![0xaa, 0xbb, 0xcc]);
    reader.read_bits(9).unwrap();
    assert_eq!(reader.into_inner(), vec![0xcc]);
}

#[test]
fn writer_emits_bytes_lsb_first() {
    let mut writer = BitWriter::new();
    writer.write_bits(0x0aff, 16);
    assert_eq!(writer.finish(), vec![0xff, 0x0a]);

    let mut writer = BitWriter::new();
    writer.write_bits(0b1000, 4);
    writer.write_bits(0b101, 3);
    writer.write_bits(0b1, 1);
    assert_eq!(writer.finish(), vec![0b1101_1000]);
}

#[test]
fn writer_pads_partial_byte_with_zeros() {
    let mut writer = BitWriter::new();
    writer.write_bits(0xb, 4);
    assert_eq!(writer.finish(), vec![0x0b]);

    let writer = BitWriter::new();
    assert_eq!(writer.finish(), Vec::<u8>::new());
}

#[test]
fn fixed_width_round_trip() {
    // encode then decode recovers every value of a few widths exactly
    for width in [1u32, 5, 9, 13, 32] {
        let codec = Bits { width };
        for value in [0u32, 1, 17, 300, 0xffff_ffff] {
            if width < 32 && value >= 1u32.checked_shl(width).unwrap_or(u32::MAX) {
                continue;
            }
            let mut writer = BitWriter::new();
            writer.write(&codec, value).unwrap();
            let mut reader = BitReader::new(writer.finish());
            assert_eq!(reader.read(&codec).unwrap(), value);
        }
    }
}

#[test]
fn offset_round_trip() {
    let codec = BitsOffset { width: 9, offset: 1 };
    for value in [1u32, 2, 300, 512] {
        let mut writer = BitWriter::new();
        writer.write(&codec, value).unwrap();
        let mut reader = BitReader::new(writer.finish());
        assert_eq!(reader.read(&codec).unwrap(), value);
    }
    assert!(!codec.fits(0));
    assert!(!codec.fits(513));
}

#[test]
fn const_codec_takes_no_bits() {
    let codec = Const { value: 99 };
    let mut reader = BitReader::new(vec![0xff]);
    assert_eq!(reader.read(&codec).unwrap(), 99);
    assert_eq!(reader.bits_read(), 0);
}

fn large_codec() -> PrefixU32<BitsOffset, BitsOffset, BitsOffset, BitsOffset> {
    PrefixU32 {
        d0: BitsOffset { width: 9, offset: 1 },
        d1: BitsOffset { width: 13, offset: 1 },
        d2: BitsOffset { width: 18, offset: 1 },
        d3: BitsOffset { width: 30, offset: 1 },
    }
}

#[test]
fn prefix_round_trip() {
    // every representable value comes back exactly
    let codec = large_codec();
    for value in [1u32, 2, 300, 512, 513, 8192, 0x40000, 0x4000_0000] {
        let mut writer = BitWriter::new();
        writer.write(&codec, value).unwrap();
        let mut reader = BitReader::new(writer.finish());
        assert_eq!(reader.read(&codec).unwrap(), value);
    }
    assert!(!codec.fits(0));
    assert!(codec.fits(0x4000_0000));
    assert!(!codec.fits(0x4000_0001));
}

#[test]
fn prefix_encode_picks_lowest_arm() {
    // 300 fits the 9-bit arm, so the encoding is 2 selector bits plus 9
    // value bits: eleven bits, two bytes once padded
    let codec = large_codec();
    let mut writer = BitWriter::new();
    writer.write(&codec, 300).unwrap();
    let bytes = writer.finish();
    assert_eq!(bytes.len(), 2);
    // selector 0, then 299 least-significant-bit first
    assert_eq!(bytes, vec![0b1010_1100, 0b0000_0100]);
}

#[test]
fn prefix_decode_follows_stream_selector() {
    // the same value arrives through a wider arm when the stream says so:
    // selector 1 (13-bit arm), raw 299
    let mut writer = BitWriter::new();
    writer.write_bits(1, 2);
    writer.write_bits(299, 13);
    let mut reader = BitReader::new(writer.finish());
    assert_eq!(reader.read(&large_codec()).unwrap(), 300);
}

#[test]
fn prefix_eof_mid_value() {
    // the selector is readable but the selected arm is not
    let mut reader = BitReader::new(vec![0x00]);
    assert_eq!(reader.read(&large_codec()), Err(Error::UnexpectedEof));
}

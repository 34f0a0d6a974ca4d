use softrx::bitstream_decoder::{BitOrder, BitStreamDecoder};

#[test]
fn test_bytestream_decode() {
    let decoder_le = BitStreamDecoder { bit_order: BitOrder::LittleEndian };
    let decoder_be = BitStreamDecoder { bit_order: BitOrder::BigEndian };

    let input = &[false, false, false, false, true, true, true, true];
    assert_eq!(decoder_le.decode(input)[0], 0xF0u8);
    assert_eq!(decoder_be.decode(input)[0], 0x0Fu8);
}

#[test]
fn decode_empty_stream_yields_no_bytes() {
    let decoder = BitStreamDecoder { bit_order: BitOrder::BigEndian };
    let input: &[bool] = &[];
    assert_eq!(decoder.decode(input).len(), 0);
}

#[test]
fn decode_two_bytes_big_endian() {
    let decoder = BitStreamDecoder { bit_order: BitOrder::BigEndian };
    // 0b1010_0011 then 0b0000_0001
    let input = &[
        true, false, true, false, false, false, true, true, false, false, false, false, false,
        false, false, true,
    ];
    let bytes = decoder.decode(input);
    assert_eq!(bytes, vec![0xA3u8, 0x01u8]);
}

#[test]
fn decode_two_bytes_little_endian() {
    let decoder = BitStreamDecoder { bit_order: BitOrder::LittleEndian };
    let input = &[
        true, false, true, false, false, false, true, true, false, false, false, false, false,
        false, false, true,
    ];
    let bytes = decoder.decode(input);
    assert_eq!(bytes, vec![0xC5u8, 0x80u8]);
}

use clob::codec::{crc32, Reader, Writer};
use clob::journal::{decode_command, decode_tif, encode_command, encode_header, stp_code, tif_code};
use clob::wal::frame_block;
use clob::{
    read_commands, CancelOrder, CodecError, Command, JournalError, ModifyOrder, NewOrder, Side,
    StpMode, TimeInForce,
};

#[test]
fn varint_encodings_are_little_endian_base128() {
    let mut w = Writer::new();
    w.varint(0);
    w.varint(127);
    w.varint(128);
    w.varint(300);
    assert_eq!(w.as_slice(), &[0x00, 0x7f, 0x80, 0x01, 0xac, 0x02]);
    assert_eq!(w.len(), 6);
}

#[test]
fn varints_read_back_what_was_written() {
    let values = [0u64, 1, 127, 128, 16_383, 16_384, 1 << 35, u64::MAX - 1, u64::MAX];
    let mut w = Writer::new();
    for v in values {
        w.varint(v);
    }
    w.varint128(u128::MAX);
    w.varint128(12345);
    let bytes = w.into_inner();
    let mut r = Reader::new(&bytes);
    for v in values {
        assert_eq!(r.varint(), Ok(v));
    }
    assert_eq!(r.varint128(), Ok(u128::MAX));
    assert_eq!(r.varint128(), Ok(12345));
    assert_eq!(r.remaining(), 0);
    assert_eq!(r.varint(), Err(CodecError::UnexpectedEof));
}

#[test]
fn u64_varint_is_ten_bytes_at_most() {
    let mut w = Writer::new();
    w.varint(u64::MAX);
    assert_eq!(w.len(), 10);
}

#[test]
fn overlong_varint_overflows() {
    let bytes = [0xffu8; 11];
    let mut r = Reader::new(&bytes);
    assert_eq!(r.varint(), Err(CodecError::Overflow));
}

#[test]
fn truncated_varint_is_eof() {
    let bytes = [0x80u8, 0x80];
    let mut r = Reader::new(&bytes);
    assert_eq!(r.varint(), Err(CodecError::UnexpectedEof));
}

#[test]
fn fixed_width_integers_are_little_endian() {
    let mut w = Writer::with_capacity(16);
    w.u8(7);
    w.u32(0x0102_0304);
    w.u64(0x0a0b_0c0d_0e0f_1011);
    assert_eq!(
        w.as_slice(),
        &[7, 4, 3, 2, 1, 0x11, 0x10, 0x0f, 0x0e, 0x0d, 0x0c, 0x0b, 0x0a]
    );
    let bytes = w.into_inner();
    let mut r = Reader::new(&bytes);
    assert_eq!(r.u8(), Ok(7));
    assert_eq!(r.u32(), Ok(0x0102_0304));
    assert_eq!(r.u64(), Ok(0x0a0b_0c0d_0e0f_1011));
    assert_eq!(r.u8(), Err(CodecError::UnexpectedEof));
}

#[test]
fn reader_bytes_takes_a_slice() {
    let data = [1u8, 2, 3, 4, 5];
    let mut r = Reader::new(&data);
    assert_eq!(r.bytes(2), Ok(&data[0..2]));
    assert_eq!(r.remaining(), 3);
    assert_eq!(r.bytes(4), Err(CodecError::UnexpectedEof));
    assert_eq!(r.bytes(3), Ok(&data[2..5]));
}

#[test]
fn writer_clear_empties_it() {
    let mut w = Writer::new();
    w.bytes(&[1, 2, 3]);
    assert!(!w.is_empty());
    w.clear();
    assert!(w.is_empty());
}

#[test]
fn crc32_matches_the_ieee_check_value() {
    assert_eq!(crc32(b"123456789"), 0xCBF4_3926);
    assert_eq!(crc32(b""), 0);
}

#[test]
fn frame_is_length_body_checksum() {
    let framed = frame_block(2, &[9, 9]);
    let body = [2u8, 9, 9];
    let mut expect = vec![7u8, 0, 0, 0];
    expect.extend_from_slice(&body);
    expect.extend_from_slice(&crc32(&body).to_le_bytes());
    assert_eq!(framed, expect);
}

#[test]
fn command_records_round_trip() {
    let commands = [
        Command::New(NewOrder::limit(Side::Sell, u64::MAX, 1).with_owner(5)),
        Command::New(NewOrder::stop_limit(Side::Buy, 10, 11, 12).with_stp(StpMode::CancelTaker)),
        Command::Cancel(CancelOrder { order_id: u64::MAX }),
        Command::Modify(ModifyOrder::new(1, 2, 3)),
    ];
    let mut w = Writer::new();
    for c in &commands {
        encode_command(&mut w, c);
    }
    let bytes = w.into_inner();
    let mut r = Reader::new(&bytes);
    for c in &commands {
        assert_eq!(decode_command(&mut r).unwrap(), *c);
    }
    assert_eq!(r.remaining(), 0);
}

#[test]
fn limit_record_layout() {
    let mut w = Writer::new();
    encode_command(&mut w, &Command::New(NewOrder::limit(Side::Sell, 300, 2)));
    assert_eq!(w.as_slice(), &[1, 1, 0xac, 0x02, 2, 0]);
}

#[test]
fn unknown_record_tag_is_rejected() {
    let mut bytes = encode_header(0);
    bytes.extend_from_slice(&frame_block(1, &[9]));
    assert!(matches!(read_commands(&bytes), Err(JournalError::UnknownCommand(9))));
}

#[test]
fn unknown_order_type_is_rejected() {
    let mut bytes = encode_header(0);
    bytes.extend_from_slice(&frame_block(1, &[1, 5 << 1, 1, 1, 1]));
    assert!(matches!(read_commands(&bytes), Err(JournalError::UnknownOrderType(5))));
}

#[test]
fn short_record_is_a_codec_error() {
    let mut bytes = encode_header(0);
    bytes.extend_from_slice(&frame_block(1, &[1, 0, 5]));
    assert!(matches!(
        read_commands(&bytes),
        Err(JournalError::Codec(CodecError::UnexpectedEof))
    ));
}

#[test]
fn tif_and_stp_codes() {
    for (tif, code) in [
        (TimeInForce::Gtc, 0u8),
        (TimeInForce::Ioc, 1),
        (TimeInForce::Fok, 2),
        (TimeInForce::PostOnly, 3),
    ] {
        assert_eq!(tif_code(tif), code);
        assert_eq!(decode_tif(code).unwrap(), tif);
    }
    assert!(matches!(decode_tif(4), Err(JournalError::UnknownTif(4))));
    assert_eq!(stp_code(StpMode::Off), 0);
    assert_eq!(stp_code(StpMode::CancelBoth), 3);
}

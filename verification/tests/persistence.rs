use clob::codec::Writer;
use clob::journal::{encode_command, encode_header};
use clob::wal::{frame_block, parse_segment};
use clob::{
    read_commands, CancelOrder, Command, JournalError, ModifyOrder, NewOrder, Side, TimeInForce,
};

/// A journal segment: the header for `base`, then one framed block per slice.
fn segment(base: u64, blocks: &[&[Command]]) -> Vec<u8> {
    let mut bytes = encode_header(base);
    for block in blocks {
        let mut w = Writer::new();
        for command in block.iter() {
            encode_command(&mut w, command);
        }
        bytes.extend_from_slice(&frame_block(block.len() as u64, w.as_slice()));
    }
    bytes
}

fn all_shapes() -> Vec<Command> {
    vec![
        Command::New(NewOrder::limit(Side::Buy, 101, 5)),
        Command::New(NewOrder::limit(Side::Sell, 202, 7).with_tif(TimeInForce::PostOnly)),
        Command::New(NewOrder::limit(Side::Buy, 99, 3).with_tif(TimeInForce::Fok)),
        Command::New(NewOrder::market(Side::Buy, 8)),
        Command::New(NewOrder::market(Side::Sell, 9)),
        Command::New(NewOrder::stop(Side::Buy, 300, 4)),
        Command::New(NewOrder::stop(Side::Sell, 50, 6)),
        Command::New(NewOrder::stop_limit(Side::Buy, 300, 305, 4)),
        Command::New(NewOrder::stop_limit(Side::Sell, 50, 45, 6)),
        Command::New(NewOrder::iceberg(Side::Buy, 100, 1000, 10)),
        Command::New(NewOrder::iceberg(Side::Sell, 200, 2000, 20)),
        Command::Cancel(CancelOrder { order_id: 7 }),
        Command::Modify(ModifyOrder::new(42, 123, 456)),
    ]
}

#[test]
fn command_round_trip_covers_all_shapes() {
    let commands = all_shapes();
    let bytes = segment(0, &[&commands]);
    assert_eq!(read_commands(&bytes).unwrap(), commands);
}

#[test]
fn owner_and_stp_survive_the_journal() {
    let commands = vec![
        Command::New(
            NewOrder::limit(Side::Buy, 100, 3)
                .with_owner(77)
                .with_stp(clob::StpMode::CancelBoth),
        ),
        Command::New(NewOrder::market(Side::Sell, 2).with_owner(u64::MAX)),
        Command::New(
            NewOrder::iceberg(Side::Sell, 105, 50, 5)
                .with_tif(TimeInForce::Ioc)
                .with_stp(clob::StpMode::CancelMaker),
        ),
    ];
    let bytes = segment(0, &[&commands]);
    assert_eq!(read_commands(&bytes).unwrap(), commands);
}

#[test]
fn blocks_concatenate_in_order() {
    let commands = all_shapes();
    let (a, b) = commands.split_at(4);
    let bytes = segment(9, &[a, &[], b]);
    let (base, read) = parse_segment(&bytes).unwrap();
    assert_eq!(base, 9);
    assert_eq!(read, commands);
}

#[test]
fn torn_tail_block_is_dropped() {
    let first = vec![
        Command::New(NewOrder::limit(Side::Sell, 100, 5)),
        Command::New(NewOrder::limit(Side::Buy, 99, 4)),
    ];
    let second = vec![Command::New(NewOrder::limit(Side::Buy, 98, 3))];
    let mut bytes = segment(0, &[&first, &second]);
    bytes.pop();
    assert_eq!(read_commands(&bytes).unwrap(), first);
}

#[test]
fn corrupt_tail_block_is_dropped() {
    let first = vec![Command::New(NewOrder::limit(Side::Sell, 100, 5))];
    let second = vec![Command::Cancel(CancelOrder { order_id: 1 })];
    let mut bytes = segment(0, &[&first, &second]);
    let last = bytes.len() - 1;
    bytes[last] ^= 0xFF;
    assert_eq!(read_commands(&bytes).unwrap(), first);
}

#[test]
fn empty_segment_reads_no_commands() {
    let bytes = segment(5, &[]);
    assert_eq!(parse_segment(&bytes).unwrap(), (5, vec![]));
}

#[test]
fn bad_magic_is_rejected() {
    let bytes = b"XXXX\x01\x00\x00\x00\x00\x00\x00\x00\x00\x00";
    assert!(matches!(read_commands(bytes), Err(JournalError::BadMagic)));
}

#[test]
fn unsupported_version_is_rejected() {
    let mut bytes = Vec::new();
    bytes.extend_from_slice(b"CLBW");
    bytes.extend_from_slice(&99u16.to_le_bytes());
    bytes.extend_from_slice(&0u64.to_le_bytes());
    assert!(matches!(
        read_commands(&bytes),
        Err(JournalError::UnsupportedVersion(99))
    ));
}

#[test]
fn short_header_is_a_codec_error() {
    assert!(matches!(
        read_commands(b"CLB"),
        Err(JournalError::Codec(clob::CodecError::UnexpectedEof))
    ));
}

#[test]
fn header_layout_is_magic_version_base() {
    let header = encode_header(0x0102);
    assert_eq!(
        header,
        vec![b'C', b'L', b'B', b'W', 2, 0, 0x02, 0x01, 0, 0, 0, 0, 0, 0]
    );
}

use vstd::prelude::*;

use crate::codec::{
    le64, lemma_varint_roundtrip, read_varint, short_err, varint_bytes, CodecError, Reader, Writer,
};
use crate::order::{CancelOrder, Command, ModifyOrder, NewOrder};
use crate::types::{OrderType, Side, StpMode, TimeInForce};

verus! {

/// Declares `std::io::Error` so that `JournalError` can carry the error a file operation
/// gave; nothing inside it is seen or claimed.
#[verifier::external_type_specification]
#[verifier::external_body]
pub struct ExIoError(std::io::Error);

/// Why a journal or a snapshot could not be read or written.
#[derive(Debug)]
pub enum JournalError {
    Io(std::io::Error),
    Codec(CodecError),
    BadMagic,
    UnsupportedVersion(u16),
    UnknownCommand(u8),
    UnknownOrderType(u8),
    UnknownTif(u8),
    CorruptSnapshot,
}

impl From<std::io::Error> for JournalError {
    fn from(err: std::io::Error) -> (r: Self) {
        JournalError::Io(err)
    }
}

impl vstd::std_specs::convert::FromSpecImpl<std::io::Error> for JournalError {
    open spec fn obeys_from_spec() -> bool {
        true
    }

    open spec fn from_spec(err: std::io::Error) -> Self {
        JournalError::Io(err)
    }
}

impl From<CodecError> for JournalError {
    fn from(err: CodecError) -> (r: Self) {
        JournalError::Codec(err)
    }
}

impl vstd::std_specs::convert::FromSpecImpl<CodecError> for JournalError {
    open spec fn obeys_from_spec() -> bool {
        true
    }

    open spec fn from_spec(err: CodecError) -> Self {
        JournalError::Codec(err)
    }
}

/// The format version of journal segments.
pub const FORMAT_VERSION: u16 = 2;

/// The length of a segment header.
pub const HEADER_LEN: usize = 14;

pub const TAG_NEW: u8 = 1;

pub const TAG_CANCEL: u8 = 2;

pub const TAG_MODIFY: u8 = 3;

/// "CLBW", the first bytes of a journal segment.
pub open spec fn journal_magic() -> Seq<u8> {
    seq![67u8, 76u8, 66u8, 87u8]
}

/// The segment header: magic, version and the sequence number the segment starts after.
pub open spec fn header_bytes(base_seq: u64) -> Seq<u8> {
    journal_magic() + seq![2u8, 0u8] + le64(base_seq)
}

pub open spec fn tif_code_spec(tif: TimeInForce) -> u8 {
    match tif {
        TimeInForce::Gtc => 0,
        TimeInForce::Ioc => 1,
        TimeInForce::Fok => 2,
        TimeInForce::PostOnly => 3,
    }
}

pub open spec fn decode_tif_spec(code: u8) -> Result<TimeInForce, JournalError> {
    if code == 0 {
        Ok(TimeInForce::Gtc)
    } else if code == 1 {
        Ok(TimeInForce::Ioc)
    } else if code == 2 {
        Ok(TimeInForce::Fok)
    } else if code == 3 {
        Ok(TimeInForce::PostOnly)
    } else {
        Err(JournalError::UnknownTif(code))
    }
}

pub open spec fn stp_code_spec(stp: StpMode) -> u8 {
    match stp {
        StpMode::Off => 0,
        StpMode::CancelTaker => 1,
        StpMode::CancelMaker => 2,
        StpMode::CancelBoth => 3,
    }
}

/// An unknown self-trade prevention code reads as `Off`.
pub open spec fn decode_stp_spec(code: u8) -> StpMode {
    if code == 1 {
        StpMode::CancelTaker
    } else if code == 2 {
        StpMode::CancelMaker
    } else if code == 3 {
        StpMode::CancelBoth
    } else {
        StpMode::Off
    }
}

pub open spec fn type_code_spec(t: OrderType) -> u8 {
    match t {
        OrderType::Limit => 0,
        OrderType::Market => 1,
        OrderType::Stop { .. } => 2,
        OrderType::StopLimit { .. } => 3,
        OrderType::Iceberg { .. } => 4,
    }
}

pub open spec fn side_bit(side: Side) -> u8 {
    match side {
        Side::Buy => 0,
        Side::Sell => 1,
    }
}

/// The flags byte of a new order: side in bit 0, order type in bits 1-3, time-in-force in
/// bits 4-5, self-trade prevention in bits 6-7.
pub open spec fn flags_of(o: NewOrder) -> u8 {
    (side_bit(o.side) | (type_code_spec(o.order_type) << 1u8) | (tif_code_spec(o.tif) << 4u8) | (stp_code_spec(o.stp)
        << 6u8)) as u8
}

/// The varint fields of a new order, by type, then its owner.
pub open spec fn fields_of(o: NewOrder) -> Seq<u64> {
    match o.order_type {
        OrderType::Limit => seq![o.price, o.qty, o.owner],
        OrderType::Market => seq![o.qty, o.owner],
        OrderType::Stop { trigger } => seq![trigger, o.qty, o.owner],
        OrderType::StopLimit { trigger } => seq![trigger, o.price, o.qty, o.owner],
        OrderType::Iceberg { display } => seq![o.price, display, o.qty, o.owner],
    }
}

/// Varints one after the other.
pub open spec fn varints(vs: Seq<u64>) -> Seq<u8>
    decreases vs.len(),
{
    if vs.len() == 0 {
        Seq::empty()
    } else {
        varints(vs.drop_last()) + varint_bytes(vs.last())
    }
}

/// The record of a command.
pub open spec fn command_bytes(c: Command) -> Seq<u8> {
    match c {
        Command::New(o) => seq![TAG_NEW, flags_of(o)] + varints(fields_of(o)),
        Command::Cancel(x) => seq![TAG_CANCEL] + varint_bytes(x.order_id),
        Command::Modify(m) => seq![TAG_MODIFY] + varints(seq![m.order_id, m.price, m.qty]),
    }
}

/// Reading `n` varints from `pos`: their values and the position after them, or the first
/// error and where it stopped.
pub open spec fn read_fields(data: Seq<u8>, pos: int, n: nat) -> (Result<Seq<u64>, CodecError>, int)
    decreases n,
{
    if n == 0 {
        (Ok(Seq::empty()), pos)
    } else {
        let (prev, p) = read_fields(data, pos, (n - 1) as nat);
        match prev {
            Err(e) => (Err(e), p),
            Ok(vs) => {
                let (r, p2) = read_varint(data, p, 0, 0);
                match r {
                    Err(e) => (Err(e), p2),
                    Ok(v) => (Ok(vs.push(v)), p2),
                }
            },
        }
    }
}

/// How many varints follow the flags of a new order of type code `tc`.
pub open spec fn field_count(tc: u8) -> nat {
    if tc == 1 {
        2
    } else if tc == 0 || tc == 2 {
        3
    } else {
        4
    }
}

/// The new order that flags fields `f` spell.
pub open spec fn order_from(flags: u8, tif: TimeInForce, f: Seq<u64>) -> NewOrder {
    let side = if flags & 1 == 1 {
        Side::Sell
    } else {
        Side::Buy
    };
    let tc = (flags >> 1u8) & 0x7;
    let stp = decode_stp_spec((flags >> 6u8) & 0x3);
    if tc == 0 {
        NewOrder { side, order_type: OrderType::Limit, price: f[0], qty: f[1], tif, owner: f[2], stp }
    } else if tc == 1 {
        NewOrder { side, order_type: OrderType::Market, price: 0, qty: f[0], tif, owner: f[1], stp }
    } else if tc == 2 {
        NewOrder { side, order_type: OrderType::Stop { trigger: f[0] }, price: 0, qty: f[1], tif, owner: f[2], stp }
    } else if tc == 3 {
        NewOrder { side, order_type: OrderType::StopLimit { trigger: f[0] }, price: f[1], qty: f[2], tif, owner: f[3], stp }
    } else {
        NewOrder { side, order_type: OrderType::Iceberg { display: f[1] }, price: f[0], qty: f[2], tif, owner: f[3], stp }
    }
}

/// Reading one record at `pos`: the command and the position after it, or the error.
pub open spec fn read_command(data: Seq<u8>, pos: int) -> (Result<Command, JournalError>, int) {
    if pos < 0 || pos >= data.len() {
        (Err(JournalError::Codec(CodecError::UnexpectedEof)), pos)
    } else {
        let tag = data[pos];
        let p = pos + 1;
        if tag == TAG_NEW {
            if p >= data.len() {
                (Err(JournalError::Codec(CodecError::UnexpectedEof)), p)
            } else {
                let flags = data[p];
                match decode_tif_spec((flags >> 4u8) & 0x3) {
                    Err(e) => (Err(e), p + 1),
                    Ok(tif) => {
                        let tc = (flags >> 1u8) & 0x7;
                        if tc > 4 {
                            (Err(JournalError::UnknownOrderType(tc)), p + 1)
                        } else {
                            let (f, p2) = read_fields(data, p + 1, field_count(tc));
                            match f {
                                Err(e) => (Err(JournalError::Codec(e)), p2),
                                Ok(vs) => (Ok(Command::New(order_from(flags, tif, vs))), p2),
                            }
                        }
                    },
                }
            }
        } else if tag == TAG_CANCEL {
            let (f, p2) = read_fields(data, p, 1);
            match f {
                Err(e) => (Err(JournalError::Codec(e)), p2),
                Ok(vs) => (Ok(Command::Cancel(CancelOrder { order_id: vs[0] })), p2),
            }
        } else if tag == TAG_MODIFY {
            let (f, p2) = read_fields(data, p, 3);
            match f {
                Err(e) => (Err(JournalError::Codec(e)), p2),
                Ok(vs) => (Ok(Command::Modify(ModifyOrder { order_id: vs[0], price: vs[1], qty: vs[2] })), p2),
            }
        } else {
            (Err(JournalError::UnknownCommand(tag)), p)
        }
    }
}

/// Reading a segment header at `pos`: the base sequence number, or why the segment is refused.
pub open spec fn read_header(data: Seq<u8>, pos: int) -> (Result<u64, JournalError>, int) {
    if pos + 4 > data.len() {
        (Err(JournalError::Codec(short_err(pos, 4))), pos)
    } else if data.subrange(pos, pos + 4) != journal_magic() {
        (Err(JournalError::BadMagic), pos + 4)
    } else if pos + 6 > data.len() {
        (Err(JournalError::Codec(short_err(pos + 4, 2))), pos + 4)
    } else {
        let version = (data[pos + 4] as u16) | ((data[pos + 5] as u16) << 8u16);
        if version != FORMAT_VERSION {
            (Err(JournalError::UnsupportedVersion(version)), pos + 6)
        } else if pos + 14 > data.len() {
            (Err(JournalError::Codec(short_err(pos + 6, 8))), pos + 6)
        } else {
            (Ok(crate::codec::from_le64(data.subrange(pos + 6, pos + 14))), pos + 14)
        }
    }
}

pub fn tif_code(tif: TimeInForce) -> (r: u8)
    ensures
        r == tif_code_spec(tif),
{
    match tif {
        TimeInForce::Gtc => 0,
        TimeInForce::Ioc => 1,
        TimeInForce::Fok => 2,
        TimeInForce::PostOnly => 3,
    }
}

pub fn decode_tif(code: u8) -> (r: Result<TimeInForce, JournalError>)
    ensures
        r == decode_tif_spec(code),
{
    match code {
        0 => Ok(TimeInForce::Gtc),
        1 => Ok(TimeInForce::Ioc),
        2 => Ok(TimeInForce::Fok),
        3 => Ok(TimeInForce::PostOnly),
        other => Err(JournalError::UnknownTif(other)),
    }
}

pub fn stp_code(stp: StpMode) -> (r: u8)
    ensures
        r == stp_code_spec(stp),
{
    match stp {
        StpMode::Off => 0,
        StpMode::CancelTaker => 1,
        StpMode::CancelMaker => 2,
        StpMode::CancelBoth => 3,
    }
}

pub fn decode_stp(code: u8) -> (r: StpMode)
    ensures
        r == decode_stp_spec(code),
{
    match code {
        1 => StpMode::CancelTaker,
        2 => StpMode::CancelMaker,
        3 => StpMode::CancelBoth,
        _ => StpMode::Off,
    }
}

fn type_code(order_type: OrderType) -> (r: u8)
    ensures
        r == type_code_spec(order_type),
{
    match order_type {
        OrderType::Limit => 0,
        OrderType::Market => 1,
        OrderType::Stop { .. } => 2,
        OrderType::StopLimit { .. } => 3,
        OrderType::Iceberg { .. } => 4,
    }
}

/// The header of a journal segment whose commands follow `base_seq`.
pub fn encode_header(base_seq: u64) -> (r: Vec<u8>)
    ensures
        r@ == header_bytes(base_seq),
{
    let mut w = Writer::with_capacity(HEADER_LEN);
    w.u8(67);
    w.u8(76);
    w.u8(66);
    w.u8(87);
    w.u8(2);
    w.u8(0);
    w.u64(base_seq);
    proof {
        assert(w.bytes_of() =~= header_bytes(base_seq));
    }
    w.into_inner()
}

/// Reads a segment header: the base sequence number, or why the segment is refused.
pub fn decode_header(r: &mut Reader) -> (res: Result<u64, JournalError>)
    requires
        old(r).wf(),
    ensures
        final(r).wf(),
        final(r).data() == old(r).data(),
        (res, (final(r).pos() as int)) == read_header(old(r).data(), (old(r).pos() as int)),
{
    let m = match r.bytes(4) {
        Ok(m) => m,
        Err(e) => {
            return Err(JournalError::Codec(e));
        },
    };
    proof {
        assert((old(r).pos() as int) + 4 <= old(r).data().len());
        assert(m@.len() == 4);
    }
    if !(m[0] == 67 && m[1] == 76 && m[2] == 66 && m[3] == 87) {
        proof {
            assert(m@ != journal_magic()) by {
                if m@ == journal_magic() {
                    assert(m@[0] == 67 && m@[1] == 76 && m@[2] == 66 && m@[3] == 87);
                }
            }
        }
        return Err(JournalError::BadMagic);
    }
    proof {
        assert(m@ =~= journal_magic());
    }
    let v = match r.bytes(2) {
        Ok(v) => v,
        Err(e) => {
            return Err(JournalError::Codec(e));
        },
    };
    proof {
        assert((old(r).pos() as int) + 6 <= old(r).data().len());
        assert(v@.len() == 2);
    }
    let version = (v[0] as u16) | ((v[1] as u16) << 8);
    if version != FORMAT_VERSION {
        return Err(JournalError::UnsupportedVersion(version));
    }
    match r.u64() {
        Ok(base) => Ok(base),
        Err(e) => Err(JournalError::Codec(e)),
    }
}

proof fn lemma_varints_push(vs: Seq<u64>, v: u64)
    ensures
        varints(vs.push(v)) == varints(vs) + varint_bytes(v),
{
    assert(vs.push(v).drop_last() =~= vs);
}

fn encode_fields(w: &mut Writer, f: &Vec<u64>)
    ensures
        final(w).bytes_of() == old(w).bytes_of() + varints(f@),
{
    let mut i: usize = 0;
    proof {
        assert(f@.take(0) =~= Seq::<u64>::empty());
        assert(old(w).bytes_of() + varints(Seq::<u64>::empty()) =~= old(w).bytes_of());
    }
    while i < f.len()
        invariant
            i <= f@.len(),
            w.bytes_of() == old(w).bytes_of() + varints(f@.take(i as int)),
        decreases f@.len() - i,
    {
        let ghost before = w.bytes_of();
        w.varint(f[i]);
        proof {
            assert(f@.take(i + 1) =~= f@.take(i as int).push(f@[i as int]));
            lemma_varints_push(f@.take(i as int), f@[i as int]);
            assert(w.bytes_of() =~= old(w).bytes_of() + varints(f@.take(i + 1)));
        }
        i = i + 1;
    }
    proof {
        assert(f@.take(i as int) =~= f@);
    }
}

/// Appends the record of `command`.
pub fn encode_command(w: &mut Writer, command: &Command)
    ensures
        final(w).bytes_of() == old(w).bytes_of() + command_bytes(*command),
{
    match command {
        Command::New(order) => {
            w.u8(TAG_NEW);
            let side_bit: u8 = match order.side {
                Side::Sell => 1,
                Side::Buy => 0,
            };
            let tc = type_code(order.order_type);
            let tif = tif_code(order.tif);
            let stp = stp_code(order.stp);
            w.u8(side_bit | (tc << 1) | (tif << 4) | (stp << 6));
            let f: Vec<u64> = match order.order_type {
                OrderType::Limit => vec![order.price, order.qty, order.owner],
                OrderType::Market => vec![order.qty, order.owner],
                OrderType::Stop { trigger } => vec![trigger, order.qty, order.owner],
                OrderType::StopLimit { trigger } => vec![trigger, order.price, order.qty, order.owner],
                OrderType::Iceberg { display } => vec![order.price, display, order.qty, order.owner],
            };
            proof {
                assert(f@ =~= fields_of(*order));
            }
            encode_fields(w, &f);
            proof {
                assert(w.bytes_of() =~= old(w).bytes_of() + command_bytes(*command));
            }
        },
        Command::Cancel(cancel) => {
            w.u8(TAG_CANCEL);
            w.varint(cancel.order_id);
            proof {
                assert(w.bytes_of() =~= old(w).bytes_of() + command_bytes(*command));
            }
        },
        Command::Modify(modify) => {
            w.u8(TAG_MODIFY);
            let f: Vec<u64> = vec![modify.order_id, modify.price, modify.qty];
            encode_fields(w, &f);
            proof {
                assert(f@ =~= seq![modify.order_id, modify.price, modify.qty]);
                assert(w.bytes_of() =~= old(w).bytes_of() + command_bytes(*command));
            }
        },
    }
}

/// Reads `n` varints.
fn read_varints(r: &mut Reader, n: usize) -> (res: Result<Vec<u64>, CodecError>)
    requires
        old(r).wf(),
    ensures
        final(r).wf(),
        final(r).data() == old(r).data(),
        (match res {
            Ok(v) => Ok::<Seq<u64>, CodecError>(v@),
            Err(e) => Err::<Seq<u64>, CodecError>(e),
        }, (final(r).pos() as int)) == read_fields(old(r).data(), (old(r).pos() as int), n as nat),
{
    let mut out: Vec<u64> = Vec::new();
    let mut i: usize = 0;
    while i < n
        invariant
            r.wf(),
            r.data() == old(r).data(),
            i <= n,
            read_fields(old(r).data(), (old(r).pos() as int), i as nat) == (Ok::<Seq<u64>, CodecError>(out@), (r.pos() as int)),
        decreases n - i,
    {
        let v = match r.varint() {
            Ok(v) => v,
            Err(e) => {
                proof {
                    lemma_read_fields_err(old(r).data(), (old(r).pos() as int), (i + 1) as nat, n as nat);
                }
                return Err(e);
            },
        };
        out.push(v);
        i = i + 1;
    }
    Ok(out)
}

/// Reads one record.
pub fn decode_command(r: &mut Reader) -> (res: Result<Command, JournalError>)
    requires
        old(r).wf(),
    ensures
        final(r).wf(),
        final(r).data() == old(r).data(),
        (res, (final(r).pos() as int)) == read_command(old(r).data(), (old(r).pos() as int)),
{
    let tag = match r.u8() {
        Ok(t) => t,
        Err(e) => {
            return Err(JournalError::Codec(e));
        },
    };
    if tag == TAG_NEW {
        let flags = match r.u8() {
            Ok(f) => f,
            Err(e) => {
                proof {
                    assert((old(r).pos() as int) + 1 >= old(r).data().len());
                    assert(e == CodecError::UnexpectedEof);
                    assert(r.pos() == (old(r).pos() as int) + 1);
                }
                return Err(JournalError::Codec(e));
            },
        };
        let tif = match decode_tif((flags >> 4) & 0x3) {
            Ok(t) => t,
            Err(e) => {
                return Err(e);
            },
        };
        let tc = (flags >> 1) & 0x7;
        if tc > 4 {
            return Err(JournalError::UnknownOrderType(tc));
        }
        let n: usize = if tc == 1 {
            2
        } else if tc == 0 || tc == 2 {
            3
        } else {
            4
        };
        let f = match read_varints(r, n) {
            Ok(f) => f,
            Err(e) => {
                return Err(JournalError::Codec(e));
            },
        };
        proof {
            assert(f@.len() == field_count(tc)) by {
                lemma_read_fields_len(old(r).data(), (old(r).pos() as int) + 2, n as nat);
            }
        }
        let side = if flags & 1 == 1 {
            Side::Sell
        } else {
            Side::Buy
        };
        let stp = decode_stp((flags >> 6) & 0x3);
        let order = if tc == 0 {
            NewOrder { side, order_type: OrderType::Limit, price: f[0], qty: f[1], tif, owner: f[2], stp }
        } else if tc == 1 {
            NewOrder { side, order_type: OrderType::Market, price: 0, qty: f[0], tif, owner: f[1], stp }
        } else if tc == 2 {
            NewOrder { side, order_type: OrderType::Stop { trigger: f[0] }, price: 0, qty: f[1], tif, owner: f[2], stp }
        } else if tc == 3 {
            NewOrder {
                side,
                order_type: OrderType::StopLimit { trigger: f[0] },
                price: f[1],
                qty: f[2],
                tif,
                owner: f[3],
                stp,
            }
        } else {
            NewOrder {
                side,
                order_type: OrderType::Iceberg { display: f[1] },
                price: f[0],
                qty: f[2],
                tif,
                owner: f[3],
                stp,
            }
        };
        Ok(Command::New(order))
    } else if tag == TAG_CANCEL {
        let f = match read_varints(r, 1) {
            Ok(f) => f,
            Err(e) => {
                return Err(JournalError::Codec(e));
            },
        };
        proof {
            lemma_read_fields_len(old(r).data(), (old(r).pos() as int) + 1, 1);
        }
        Ok(Command::Cancel(CancelOrder { order_id: f[0] }))
    } else if tag == TAG_MODIFY {
        let f = match read_varints(r, 3) {
            Ok(f) => f,
            Err(e) => {
                return Err(JournalError::Codec(e));
            },
        };
        proof {
            lemma_read_fields_len(old(r).data(), (old(r).pos() as int) + 1, 3);
        }
        Ok(Command::Modify(ModifyOrder { order_id: f[0], price: f[1], qty: f[2] }))
    } else {
        Err(JournalError::UnknownCommand(tag))
    }
}

/// Once reading varints failed, reading more fails the same way at the same place.
pub proof fn lemma_read_fields_err(data: Seq<u8>, pos: int, j: nat, k: nat)
    requires
        j <= k,
        read_fields(data, pos, j).0 is Err,
    ensures
        read_fields(data, pos, k) == read_fields(data, pos, j),
    decreases k - j,
{
    if j < k {
        lemma_read_fields_err(data, pos, j, (k - 1) as nat);
    }
}

/// A successful read of `n` varints gives `n` values.
pub proof fn lemma_read_fields_len(data: Seq<u8>, pos: int, n: nat)
    ensures
        read_fields(data, pos, n).0 matches Ok(vs) ==> vs.len() == n,
    decreases n,
{
    if n > 0 {
        lemma_read_fields_len(data, pos, (n - 1) as nat);
    }
}

/// Varints read back give the values written.
pub proof fn lemma_read_fields_roundtrip(vs: Seq<u64>, buf: Seq<u8>, rest: Seq<u8>)
    ensures
        read_fields(buf + varints(vs) + rest, buf.len() as int, vs.len()) == (
            Ok::<Seq<u64>, CodecError>(vs),
            (buf.len() + varints(vs).len()) as int,
        ),
    decreases vs.len(),
{
    if vs.len() > 0 {
        let init = vs.drop_last();
        let v = vs.last();
        let tail = varint_bytes(v) + rest;
        assert(buf + varints(vs) + rest =~= buf + varints(init) + tail);
        lemma_read_fields_roundtrip(init, buf, tail);
        let pre = buf + varints(init);
        assert(buf + varints(vs) + rest =~= pre + varint_bytes(v) + rest);
        lemma_varint_roundtrip(v, pre, rest);
        assert(init.push(v) =~= vs);
    } else {
        assert(vs =~= Seq::<u64>::empty());
    }
}

/// A command whose record keeps all its fields: market and stop orders carry no price.
pub open spec fn journal_canonical(c: Command) -> bool {
    match c {
        Command::New(o) => match o.order_type {
            OrderType::Market | OrderType::Stop { .. } => o.price == 0,
            _ => true,
        },
        _ => true,
    }
}

/// A record read back gives the command written, and stops right after it.
pub proof fn lemma_command_roundtrip(c: Command, buf: Seq<u8>, rest: Seq<u8>)
    requires
        journal_canonical(c),
    ensures
        read_command(buf + command_bytes(c) + rest, buf.len() as int) == (
            Ok::<Command, JournalError>(c),
            (buf.len() + command_bytes(c).len()) as int,
        ),
{
    let data = buf + command_bytes(c) + rest;
    let n = buf.len() as int;
    match c {
        Command::New(o) => {
            let flags = flags_of(o);
            let sb = side_bit(o.side);
            let tc = type_code_spec(o.order_type);
            let tf = tif_code_spec(o.tif);
            let sp = stp_code_spec(o.stp);
            assert(data[n] == TAG_NEW && data[n + 1] == flags);
            assert(flags & 1 == sb && (flags >> 1u8) & 0x7 == tc && (flags >> 4u8) & 0x3 == tf && (flags >> 6u8) & 0x3
                == sp) by (bit_vector)
                requires
                    flags == (sb | (tc << 1u8) | (tf << 4u8) | (sp << 6u8)) as u8,
                    sb <= 1,
                    tc <= 4,
                    tf <= 3,
                    sp <= 3,
            ;
            let pre = buf + seq![TAG_NEW, flags];
            assert(data =~= pre + varints(fields_of(o)) + rest);
            lemma_read_fields_roundtrip(fields_of(o), pre, rest);
            let f = fields_of(o);
            assert(order_from(flags, o.tif, f) == o);
        },
        Command::Cancel(x) => {
            let pre = buf + seq![TAG_CANCEL];
            assert(varints(seq![x.order_id]) =~= varint_bytes(x.order_id)) by {
                reveal_with_fuel(varints, 2);
                assert(seq![x.order_id].drop_last() =~= Seq::<u64>::empty());
            }
            assert(data =~= pre + varints(seq![x.order_id]) + rest);
            assert(data[n] == TAG_CANCEL);
            lemma_read_fields_roundtrip(seq![x.order_id], pre, rest);
        },
        Command::Modify(m) => {
            let pre = buf + seq![TAG_MODIFY];
            assert(data =~= pre + varints(seq![m.order_id, m.price, m.qty]) + rest);
            assert(data[n] == TAG_MODIFY);
            lemma_read_fields_roundtrip(seq![m.order_id, m.price, m.qty], pre, rest);
        },
    }
}

} // verus!

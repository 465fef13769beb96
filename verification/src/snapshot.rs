use vstd::prelude::*;

use crate::book::model::RestingOrder;
use vstd::seq_lib::lemma_concat_associative;
use crate::codec::{
    crc32, crc32_spec, from_le32, le32, read_varint, read_varint128, varint128_bytes, varint_bytes,
    CodecError, Reader, Writer,
};
use crate::journal::{
    decode_stp, decode_stp_spec, decode_tif, decode_tif_spec, read_fields, side_bit, stp_code,
    stp_code_spec, tif_code, tif_code_spec, varints, JournalError,
};
use crate::stops::PendingStop;
use crate::types::{AccountId, OrderId, OrderType, Price, Qty, SeqNum, Side};

verus! {

/// The format version of snapshots.
pub const SNAP_VERSION: u16 = 3;

/// The shortest snapshot: magic, version and checksum.
pub const MIN_LEN: usize = 10;

/// A resting order with its side and iceberg reserve.
pub type RestingEntry = (Side, RestingOrder, Option<(Qty, Qty)>);

/// Everything that decides how a venue goes on: the counters, the last trade price, the
/// resting orders in priority order with their reserves, the dormant stops and the net
/// positions.
#[derive(Debug)]
pub struct SnapshotState {
    pub seq: SeqNum,
    pub next_order_id: OrderId,
    pub last_trade_price: Option<Price>,
    pub orders: Vec<RestingEntry>,
    pub stops: Vec<PendingStop>,
    pub account_net: Vec<(AccountId, i128)>,
}

/// The contents of a snapshot as values.
pub struct SnapshotModel {
    pub seq: SeqNum,
    pub next_order_id: OrderId,
    pub last_trade_price: Option<Price>,
    pub orders: Seq<RestingEntry>,
    pub stops: Seq<PendingStop>,
    pub account_net: Seq<(AccountId, i128)>,
}

impl SnapshotState {
    pub open spec fn model(&self) -> SnapshotModel {
        SnapshotModel {
            seq: self.seq,
            next_order_id: self.next_order_id,
            last_trade_price: self.last_trade_price,
            orders: self.orders@,
            stops: self.stops@,
            account_net: self.account_net@,
        }
    }
}

/// "CLBS", the first bytes of a snapshot.
pub open spec fn snap_magic() -> Seq<u8> {
    seq![67u8, 76u8, 66u8, 83u8]
}

/// Zigzag: small magnitudes of either sign become small unsigned numbers.
pub open spec fn zigzag_spec(n: i128) -> u128 {
    ((n as u128) << 1u128) ^ ((n >> 127i128) as u128)
}

pub open spec fn unzigzag_spec(z: u128) -> i128 {
    ((z >> 1u128) as i128) ^ (-((z & 1) as i128)) as i128
}

pub fn zigzag(n: i128) -> (r: u128)
    ensures
        r == zigzag_spec(n),
{
    ((n as u128) << 1) ^ ((n >> 127) as u128)
}

pub fn unzigzag(z: u128) -> (r: i128)
    ensures
        r == unzigzag_spec(z),
{
    proof {
        assert((z >> 1u128) <= i128::MAX && (z & 1) <= 1) by (bit_vector);
    }
    ((z >> 1) as i128) ^ (-((z & 1) as i128))
}

/// Zigzag decoding undoes zigzag encoding.
pub proof fn lemma_zigzag_roundtrip(n: i128)
    ensures
        unzigzag_spec(zigzag_spec(n)) == n,
{
    assert(((((((n as u128) << 1u128) ^ ((n >> 127i128) as u128)) >> 1u128) as i128) ^ (-(((((n as u128) << 1u128) ^ ((
        n >> 127i128) as u128)) & 1) as i128)) as i128) == n) by (bit_vector);
}

pub open spec fn side_of_code(code: u8) -> Side {
    if code == 1 {
        Side::Sell
    } else {
        Side::Buy
    }
}

/// The record of a resting order.
pub open spec fn order_bytes(e: RestingEntry) -> Seq<u8> {
    let o = e.1;
    seq![side_bit(e.0)] + varints(seq![o.id, o.seq, o.price, o.qty, o.timestamp, o.owner]) + match e.2 {
        Some((d, h)) => seq![1u8] + varints(seq![d, h]),
        None => seq![0u8],
    }
}

pub open spec fn activates_code(t: OrderType) -> u8 {
    if t == OrderType::Limit {
        1
    } else {
        0
    }
}

/// The record of a dormant stop.
pub open spec fn stop_bytes(s: PendingStop) -> Seq<u8> {
    varint_bytes(s.id) + seq![side_bit(s.side)] + varint_bytes(s.trigger) + seq![activates_code(s.activates_to)]
        + varints(seq![s.limit_price, s.qty]) + seq![tif_code_spec(s.tif)] + varint_bytes(s.owner) + seq![
        stp_code_spec(s.stp),
    ]
}

/// The record of a net position.
pub open spec fn net_bytes(a: (AccountId, i128)) -> Seq<u8> {
    varint_bytes(a.0) + varint128_bytes(zigzag_spec(a.1))
}

pub open spec fn orders_bytes(s: Seq<RestingEntry>) -> Seq<u8>
    decreases s.len(),
{
    if s.len() == 0 {
        Seq::empty()
    } else {
        orders_bytes(s.drop_last()) + order_bytes(s.last())
    }
}

pub open spec fn stops_bytes(s: Seq<PendingStop>) -> Seq<u8>
    decreases s.len(),
{
    if s.len() == 0 {
        Seq::empty()
    } else {
        stops_bytes(s.drop_last()) + stop_bytes(s.last())
    }
}

pub open spec fn nets_bytes(s: Seq<(AccountId, i128)>) -> Seq<u8>
    decreases s.len(),
{
    if s.len() == 0 {
        Seq::empty()
    } else {
        nets_bytes(s.drop_last()) + net_bytes(s.last())
    }
}

/// Everything but the checksum.
pub open spec fn body_bytes(m: SnapshotModel) -> Seq<u8> {
    snap_magic() + seq![3u8, 0u8] + varint_bytes(m.seq) + varint_bytes(m.next_order_id) + match m.last_trade_price {
        Some(p) => seq![1u8] + varint_bytes(p),
        None => seq![0u8],
    } + varint_bytes(m.orders.len() as u64) + orders_bytes(m.orders) + varint_bytes(m.stops.len() as u64)
        + stops_bytes(m.stops) + varint_bytes(m.account_net.len() as u64) + nets_bytes(m.account_net)
}

/// The snapshot file: the body, then the CRC-32 of the body.
pub open spec fn snapshot_bytes(m: SnapshotModel) -> Seq<u8> {
    body_bytes(m) + le32(crc32_spec(body_bytes(m)))
}

pub open spec fn read_u8_spec(data: Seq<u8>, pos: int) -> (Result<u8, CodecError>, int) {
    if 0 <= pos < data.len() {
        (Ok(data[pos]), pos + 1)
    } else {
        (Err(CodecError::UnexpectedEof), pos)
    }
}

/// Reading a resting order record at `pos`.
pub open spec fn read_order_spec(data: Seq<u8>, pos: int) -> (Result<RestingEntry, CodecError>, int) {
    let (s, p1) = read_u8_spec(data, pos);
    match s {
        Err(e) => (Err(e), p1),
        Ok(side_code) => {
            let (f, p2) = read_fields(data, p1, 6);
            match f {
                Err(e) => (Err(e), p2),
                Ok(v) => {
                    let order = RestingOrder { id: v[0], seq: v[1], price: v[2], qty: v[3], timestamp: v[4], owner: v[5] };
                    let (flag, p3) = read_u8_spec(data, p2);
                    match flag {
                        Err(e) => (Err(e), p3),
                        Ok(fl) => if fl == 1 {
                            let (g, p4) = read_fields(data, p3, 2);
                            match g {
                                Err(e) => (Err(e), p4),
                                Ok(w) => (Ok((side_of_code(side_code), order, Some((w[0], w[1])))), p4),
                            }
                        } else {
                            (Ok((side_of_code(side_code), order, None)), p3)
                        },
                    }
                },
            }
        },
    }
}

/// Reading a stop record at `pos`.
pub open spec fn read_stop_spec(data: Seq<u8>, pos: int) -> (Result<PendingStop, JournalError>, int) {
    let (a, p1) = read_fields(data, pos, 1);
    match a {
        Err(e) => (Err(JournalError::Codec(e)), p1),
        Ok(id) => {
            let (s, p2) = read_u8_spec(data, p1);
            match s {
                Err(e) => (Err(JournalError::Codec(e)), p2),
                Ok(side_code) => {
                    let (b, p3) = read_fields(data, p2, 1);
                    match b {
                        Err(e) => (Err(JournalError::Codec(e)), p3),
                        Ok(trigger) => {
                            let (k, p4) = read_u8_spec(data, p3);
                            match k {
                                Err(e) => (Err(JournalError::Codec(e)), p4),
                                Ok(kind) => {
                                    let (c, p5) = read_fields(data, p4, 2);
                                    match c {
                                        Err(e) => (Err(JournalError::Codec(e)), p5),
                                        Ok(lq) => {
                                            let (t, p6) = read_u8_spec(data, p5);
                                            match t {
                                                Err(e) => (Err(JournalError::Codec(e)), p6),
                                                Ok(tc) => match decode_tif_spec(tc) {
                                                    Err(e) => (Err(e), p6),
                                                    Ok(tif) => {
                                                        let (d, p7) = read_fields(data, p6, 1);
                                                        match d {
                                                            Err(e) => (Err(JournalError::Codec(e)), p7),
                                                            Ok(owner) => {
                                                                let (x, p8) = read_u8_spec(data, p7);
                                                                match x {
                                                                    Err(e) => (Err(JournalError::Codec(e)), p8),
                                                                    Ok(sc) => (
                                                                        Ok(
                                                                            PendingStop {
                                                                                id: id[0],
                                                                                side: side_of_code(side_code),
                                                                                trigger: trigger[0],
                                                                                activates_to: if kind == 1 {
                                                                                    OrderType::Limit
                                                                                } else {
                                                                                    OrderType::Market
                                                                                },
                                                                                limit_price: lq[0],
                                                                                qty: lq[1],
                                                                                tif,
                                                                                owner: owner[0],
                                                                                stp: decode_stp_spec(sc),
                                                                            },
                                                                        ),
                                                                        p8,
                                                                    ),
                                                                }
                                                            },
                                                        }
                                                    },
                                                },
                                            }
                                        },
                                    }
                                },
                            }
                        },
                    }
                },
            }
        },
    }
}

/// Reading a net position record at `pos`.
pub open spec fn read_net_spec(data: Seq<u8>, pos: int) -> (Result<(AccountId, i128), CodecError>, int) {
    let (a, p1) = read_varint(data, pos, 0, 0);
    match a {
        Err(e) => (Err(e), p1),
        Ok(owner) => {
            let (z, p2) = read_varint128(data, p1, 0, 0);
            match z {
                Err(e) => (Err(e), p2),
                Ok(zz) => (Ok((owner, unzigzag_spec(zz))), p2),
            }
        },
    }
}

pub open spec fn read_orders_spec(data: Seq<u8>, pos: int, n: nat) -> (Result<Seq<RestingEntry>, CodecError>, int)
    decreases n,
{
    if n == 0 {
        (Ok(Seq::empty()), pos)
    } else {
        let (prev, p) = read_orders_spec(data, pos, (n - 1) as nat);
        match prev {
            Err(e) => (Err(e), p),
            Ok(vs) => {
                let (r, p2) = read_order_spec(data, p);
                match r {
                    Err(e) => (Err(e), p2),
                    Ok(v) => (Ok(vs.push(v)), p2),
                }
            },
        }
    }
}

pub open spec fn read_stops_spec(data: Seq<u8>, pos: int, n: nat) -> (Result<Seq<PendingStop>, JournalError>, int)
    decreases n,
{
    if n == 0 {
        (Ok(Seq::empty()), pos)
    } else {
        let (prev, p) = read_stops_spec(data, pos, (n - 1) as nat);
        match prev {
            Err(e) => (Err(e), p),
            Ok(vs) => {
                let (r, p2) = read_stop_spec(data, p);
                match r {
                    Err(e) => (Err(e), p2),
                    Ok(v) => (Ok(vs.push(v)), p2),
                }
            },
        }
    }
}

pub open spec fn read_nets_spec(data: Seq<u8>, pos: int, n: nat) -> (Result<Seq<(AccountId, i128)>, CodecError>, int)
    decreases n,
{
    if n == 0 {
        (Ok(Seq::empty()), pos)
    } else {
        let (prev, p) = read_nets_spec(data, pos, (n - 1) as nat);
        match prev {
            Err(e) => (Err(e), p),
            Ok(vs) => {
                let (r, p2) = read_net_spec(data, p);
                match r {
                    Err(e) => (Err(e), p2),
                    Ok(v) => (Ok(vs.push(v)), p2),
                }
            },
        }
    }
}

/// The sections after the header of a snapshot body, read from `pos`.
pub open spec fn read_sections(body: Seq<u8>, pos: int) -> Result<SnapshotModel, JournalError> {
    let (a, p1) = read_varint(body, pos, 0, 0);
    match a {
        Err(e) => Err(JournalError::Codec(e)),
        Ok(seq) => {
            let (b, p2) = read_varint(body, p1, 0, 0);
            match b {
                Err(e) => Err(JournalError::Codec(e)),
                Ok(next_order_id) => {
                    let (fl, p3) = read_u8_spec(body, p2);
                    match fl {
                        Err(e) => Err(JournalError::Codec(e)),
                        Ok(flag) => {
                            let (lp, p4) = if flag == 1 {
                                let (c, q) = read_varint(body, p3, 0, 0);
                                match c {
                                    Err(e) => (Err(e), q),
                                    Ok(v) => (Ok(Some(v)), q),
                                }
                            } else {
                                (Ok(None), p3)
                            };
                            match lp {
                                Err(e) => Err(JournalError::Codec(e)),
                                Ok(last_trade_price) => read_lists(body, p4, seq, next_order_id, last_trade_price),
                            }
                        },
                    }
                },
            }
        },
    }
}

/// The order, stop and net position lists of a snapshot body, read from `pos`.
pub open spec fn read_lists(
    body: Seq<u8>,
    pos: int,
    seq: SeqNum,
    next_order_id: OrderId,
    last_trade_price: Option<Price>,
) -> Result<SnapshotModel, JournalError> {
    let (oc, p1) = read_varint(body, pos, 0, 0);
    match oc {
        Err(e) => Err(JournalError::Codec(e)),
        Ok(order_count) => {
            let (os, p2) = read_orders_spec(body, p1, order_count as nat);
            match os {
                Err(e) => Err(JournalError::Codec(e)),
                Ok(orders) => {
                    let (sc, p3) = read_varint(body, p2, 0, 0);
                    match sc {
                        Err(e) => Err(JournalError::Codec(e)),
                        Ok(stop_count) => {
                            let (ss, p4) = read_stops_spec(body, p3, stop_count as nat);
                            match ss {
                                Err(e) => Err(e),
                                Ok(stops) => {
                                    let (ac, p5) = read_varint(body, p4, 0, 0);
                                    match ac {
                                        Err(e) => Err(JournalError::Codec(e)),
                                        Ok(account_count) => {
                                            let (ns, p6) = read_nets_spec(body, p5, account_count as nat);
                                            match ns {
                                                Err(e) => Err(JournalError::Codec(e)),
                                                Ok(account_net) => Ok(
                                                    SnapshotModel { seq, next_order_id, last_trade_price, orders, stops, account_net },
                                                ),
                                            }
                                        },
                                    }
                                },
                            }
                        },
                    }
                },
            }
        },
    }
}

/// Reading a snapshot: a short file or a checksum mismatch is corrupt; then the magic and
/// the version are checked and the sections read.
pub open spec fn read_snapshot(data: Seq<u8>) -> Result<SnapshotModel, JournalError> {
    if data.len() < MIN_LEN {
        Err(JournalError::CorruptSnapshot)
    } else {
        let body = data.subrange(0, data.len() - 4);
        let crc = from_le32(data.subrange(data.len() - 4, data.len() as int));
        if crc32_spec(body) != crc {
            Err(JournalError::CorruptSnapshot)
        } else if body.subrange(0, 4) != snap_magic() {
            Err(JournalError::BadMagic)
        } else {
            let version = (body[4] as u16) | ((body[5] as u16) << 8u16);
            if version != SNAP_VERSION {
                Err(JournalError::UnsupportedVersion(version))
            } else {
                read_sections(body, 6)
            }
        }
    }
}

fn side_code(side: Side) -> (r: u8)
    ensures
        r == side_bit(side),
{
    match side {
        Side::Sell => 1,
        Side::Buy => 0,
    }
}

fn decode_side(code: u8) -> (r: Side)
    ensures
        r == side_of_code(code),
{
    if code == 1 {
        Side::Sell
    } else {
        Side::Buy
    }
}

fn write_varints(w: &mut Writer, f: &Vec<u64>)
    ensures
        final(w).bytes_of() == old(w).bytes_of() + varints(f@),
{
    let mut i: usize = 0;
    proof {
        assert(f@.take(0) =~= Seq::<u64>::empty());
        assert(old(w).bytes_of() + varints(Seq::<u64>::empty()) =~= old(w).bytes_of());
    }
    while i < f.len()
        invariant
            i <= f@.len(),
            w.bytes_of() == old(w).bytes_of() + varints(f@.take(i as int)),
        decreases f@.len() - i,
    {
        w.varint(f[i]);
        proof {
            assert(f@.take(i + 1) =~= f@.take(i as int).push(f@[i as int]));
            assert(f@.take(i + 1).drop_last() =~= f@.take(i as int));
            assert(w.bytes_of() =~= old(w).bytes_of() + varints(f@.take(i + 1)));
        }
        i = i + 1;
    }
    proof {
        assert(f@.take(i as int) =~= f@);
    }
}

fn write_order(w: &mut Writer, e: &RestingEntry)
    ensures
        final(w).bytes_of() == old(w).bytes_of() + order_bytes(*e),
{
    let (side, order, reserve) = *e;
    w.u8(side_code(side));
    let f: Vec<u64> = vec![order.id, order.seq, order.price, order.qty, order.timestamp, order.owner];
    write_varints(w, &f);
    let ghost mid = w.bytes_of();
    match reserve {
        Some((display, hidden)) => {
            w.u8(1);
            let g: Vec<u64> = vec![display, hidden];
            write_varints(w, &g);
            proof {
                assert(g@ =~= seq![display, hidden]);
            }
        },
        None => w.u8(0),
    }
    proof {
        assert(f@ =~= seq![order.id, order.seq, order.price, order.qty, order.timestamp, order.owner]);
        assert(w.bytes_of() =~= old(w).bytes_of() + order_bytes(*e));
    }
}

fn write_stop(w: &mut Writer, s: &PendingStop)
    ensures
        final(w).bytes_of() == old(w).bytes_of() + stop_bytes(*s),
{
    let ghost o = w.bytes_of();
    let ghost p1 = varint_bytes(s.id);
    let ghost p2 = seq![side_bit(s.side)];
    let ghost p3 = varint_bytes(s.trigger);
    let ghost p4 = seq![activates_code(s.activates_to)];
    let ghost p5 = varints(seq![s.limit_price, s.qty]);
    let ghost p6 = seq![tif_code_spec(s.tif)];
    let ghost p7 = varint_bytes(s.owner);
    let ghost p8 = seq![stp_code_spec(s.stp)];
    w.varint(s.id);
    w.u8(side_code(s.side));
    proof {
        assert(w.bytes_of() =~= (o + p1) + p2);
        lemma_concat_associative(o, p1, p2);
    }
    w.varint(s.trigger);
    proof {
        lemma_concat_associative(o, p1 + p2, p3);
    }
    let kind: u8 = match s.activates_to {
        OrderType::Limit => 1,
        _ => 0,
    };
    w.u8(kind);
    proof {
        assert(w.bytes_of() =~= (o + (p1 + p2 + p3)) + p4);
        lemma_concat_associative(o, p1 + p2 + p3, p4);
    }
    let f: Vec<u64> = vec![s.limit_price, s.qty];
    write_varints(w, &f);
    proof {
        assert(f@ =~= seq![s.limit_price, s.qty]);
        lemma_concat_associative(o, p1 + p2 + p3 + p4, p5);
    }
    w.u8(tif_code(s.tif));
    proof {
        assert(w.bytes_of() =~= (o + (p1 + p2 + p3 + p4 + p5)) + p6);
        lemma_concat_associative(o, p1 + p2 + p3 + p4 + p5, p6);
    }
    w.varint(s.owner);
    proof {
        lemma_concat_associative(o, p1 + p2 + p3 + p4 + p5 + p6, p7);
    }
    w.u8(stp_code(s.stp));
    proof {
        assert(w.bytes_of() =~= (o + (p1 + p2 + p3 + p4 + p5 + p6 + p7)) + p8);
        lemma_concat_associative(o, p1 + p2 + p3 + p4 + p5 + p6 + p7, p8);
    }
}

/// Encodes a snapshot.
pub fn encode(state: &SnapshotState) -> (r: Vec<u8>)
    ensures
        r@ == snapshot_bytes(state.model()),
{
    let mut w = Writer::new();
    w.u8(67);
    w.u8(76);
    w.u8(66);
    w.u8(83);
    w.u8(3);
    w.u8(0);
    w.varint(state.seq);
    w.varint(state.next_order_id);
    match state.last_trade_price {
        Some(price) => {
            w.u8(1);
            w.varint(price);
        },
        None => w.u8(0),
    }
    let ghost head = w.bytes_of();
    proof {
        let lp = match state.last_trade_price {
            Some(p) => seq![1u8] + varint_bytes(p),
            None => seq![0u8],
        };
        assert(head =~= snap_magic() + seq![3u8, 0u8] + varint_bytes(state.seq) + varint_bytes(state.next_order_id) + lp);
    }
    w.varint(state.orders.len() as u64);
    let ghost h1 = w.bytes_of();
    let mut i: usize = 0;
    while i < state.orders.len()
        invariant
            i <= state.orders@.len(),
            w.bytes_of() == h1 + orders_bytes(state.orders@.take(i as int)),
        decreases state.orders@.len() - i,
    {
        proof {
            assert(state.orders@.take(i + 1).drop_last() =~= state.orders@.take(i as int));
        }
        write_order(&mut w, &state.orders[i]);
        proof {
            assert(w.bytes_of() =~= h1 + orders_bytes(state.orders@.take(i + 1)));
        }
        i = i + 1;
    }
    proof {
        assert(state.orders@.take(i as int) =~= state.orders@);
    }
    w.varint(state.stops.len() as u64);
    let ghost h2 = w.bytes_of();
    let mut j: usize = 0;
    while j < state.stops.len()
        invariant
            j <= state.stops@.len(),
            w.bytes_of() == h2 + stops_bytes(state.stops@.take(j as int)),
        decreases state.stops@.len() - j,
    {
        proof {
            assert(state.stops@.take(j + 1).drop_last() =~= state.stops@.take(j as int));
        }
        write_stop(&mut w, &state.stops[j]);
        proof {
            assert(w.bytes_of() =~= h2 + stops_bytes(state.stops@.take(j + 1)));
        }
        j = j + 1;
    }
    proof {
        assert(state.stops@.take(j as int) =~= state.stops@);
    }
    w.varint(state.account_net.len() as u64);
    let ghost h3 = w.bytes_of();
    let mut k: usize = 0;
    while k < state.account_net.len()
        invariant
            k <= state.account_net@.len(),
            w.bytes_of() == h3 + nets_bytes(state.account_net@.take(k as int)),
        decreases state.account_net@.len() - k,
    {
        proof {
            assert(state.account_net@.take(k + 1).drop_last() =~= state.account_net@.take(k as int));
        }
        let (owner, net) = state.account_net[k];
        w.varint(owner);
        w.varint128(zigzag(net));
        proof {
            assert(w.bytes_of() =~= h3 + nets_bytes(state.account_net@.take(k + 1)));
        }
        k = k + 1;
    }
    proof {
        assert(state.account_net@.take(k as int) =~= state.account_net@);
        let m = state.model();
        let c1 = varint_bytes(m.orders.len() as u64);
        let c2 = orders_bytes(m.orders);
        let c3 = varint_bytes(m.stops.len() as u64);
        let c4 = stops_bytes(m.stops);
        let c5 = varint_bytes(m.account_net.len() as u64);
        let c6 = nets_bytes(m.account_net);
        assert(w.bytes_of() == head + c1 + c2 + c3 + c4 + c5 + c6);
        assert(body_bytes(m) == head + c1 + c2 + c3 + c4 + c5 + c6);
    }
    let crc = crc32(w.as_slice());
    w.u32(crc);
    w.into_inner()
}


proof fn lemma_orders_err(data: Seq<u8>, pos: int, j: nat, k: nat)
    requires
        j <= k,
        read_orders_spec(data, pos, j).0 is Err,
    ensures
        read_orders_spec(data, pos, k) == read_orders_spec(data, pos, j),
    decreases k - j,
{
    if j < k {
        lemma_orders_err(data, pos, j, (k - 1) as nat);
    }
}

proof fn lemma_stops_err(data: Seq<u8>, pos: int, j: nat, k: nat)
    requires
        j <= k,
        read_stops_spec(data, pos, j).0 is Err,
    ensures
        read_stops_spec(data, pos, k) == read_stops_spec(data, pos, j),
    decreases k - j,
{
    if j < k {
        lemma_stops_err(data, pos, j, (k - 1) as nat);
    }
}

proof fn lemma_nets_err(data: Seq<u8>, pos: int, j: nat, k: nat)
    requires
        j <= k,
        read_nets_spec(data, pos, j).0 is Err,
    ensures
        read_nets_spec(data, pos, k) == read_nets_spec(data, pos, j),
    decreases k - j,
{
    if j < k {
        lemma_nets_err(data, pos, j, (k - 1) as nat);
    }
}

fn read_varints(r: &mut Reader, n: usize) -> (res: Result<Vec<u64>, CodecError>)
    requires
        old(r).wf(),
    ensures
        final(r).wf(),
        final(r).data() == old(r).data(),
        (match res {
            Ok(v) => Ok::<Seq<u64>, CodecError>(v@),
            Err(e) => Err::<Seq<u64>, CodecError>(e),
        }, final(r).pos() as int) == read_fields(old(r).data(), old(r).pos() as int, n as nat),
        res matches Ok(v) ==> v@.len() == n,
{
    let mut out: Vec<u64> = Vec::new();
    let mut i: usize = 0;
    while i < n
        invariant
            r.wf(),
            r.data() == old(r).data(),
            i <= n,
            out@.len() == i,
            read_fields(old(r).data(), old(r).pos() as int, i as nat) == (Ok::<Seq<u64>, CodecError>(out@), r.pos() as int),
        decreases n - i,
    {
        let v = match r.varint() {
            Ok(v) => v,
            Err(e) => {
                proof {
                    crate::journal::lemma_read_fields_err(old(r).data(), old(r).pos() as int, (i + 1) as nat, n as nat);
                }
                return Err(e);
            },
        };
        out.push(v);
        i = i + 1;
    }
    Ok(out)
}

fn read_order(r: &mut Reader) -> (res: Result<RestingEntry, CodecError>)
    requires
        old(r).wf(),
    ensures
        final(r).wf(),
        final(r).data() == old(r).data(),
        (res, final(r).pos() as int) == read_order_spec(old(r).data(), old(r).pos() as int),
{
    let code = r.u8()?;
    let f = read_varints(r, 6)?;
    let order = RestingOrder { id: f[0], seq: f[1], price: f[2], qty: f[3], timestamp: f[4], owner: f[5] };
    let flag = r.u8()?;
    if flag == 1 {
        let g = read_varints(r, 2)?;
        Ok((decode_side(code), order, Some((g[0], g[1]))))
    } else {
        Ok((decode_side(code), order, None))
    }
}

fn codec_err(e: CodecError) -> (r: JournalError)
    ensures
        r == JournalError::Codec(e),
{
    JournalError::Codec(e)
}

fn read_stop(r: &mut Reader) -> (res: Result<PendingStop, JournalError>)
    requires
        old(r).wf(),
    ensures
        final(r).wf(),
        final(r).data() == old(r).data(),
        (res, final(r).pos() as int) == read_stop_spec(old(r).data(), old(r).pos() as int),
{
    let id = match read_varints(r, 1) {
        Ok(v) => v,
        Err(e) => {
            return Err(codec_err(e));
        },
    };
    let side = match r.u8() {
        Ok(v) => v,
        Err(e) => {
            return Err(codec_err(e));
        },
    };
    let trigger = match read_varints(r, 1) {
        Ok(v) => v,
        Err(e) => {
            return Err(codec_err(e));
        },
    };
    let kind = match r.u8() {
        Ok(v) => v,
        Err(e) => {
            return Err(codec_err(e));
        },
    };
    let lq = match read_varints(r, 2) {
        Ok(v) => v,
        Err(e) => {
            return Err(codec_err(e));
        },
    };
    let tc = match r.u8() {
        Ok(v) => v,
        Err(e) => {
            return Err(codec_err(e));
        },
    };
    let tif = match decode_tif(tc) {
        Ok(t) => t,
        Err(e) => {
            return Err(e);
        },
    };
    let owner = match read_varints(r, 1) {
        Ok(v) => v,
        Err(e) => {
            return Err(codec_err(e));
        },
    };
    let sc = match r.u8() {
        Ok(v) => v,
        Err(e) => {
            return Err(codec_err(e));
        },
    };
    Ok(
        PendingStop {
            id: id[0],
            side: decode_side(side),
            trigger: trigger[0],
            activates_to: if kind == 1 {
                OrderType::Limit
            } else {
                OrderType::Market
            },
            limit_price: lq[0],
            qty: lq[1],
            tif,
            owner: owner[0],
            stp: decode_stp(sc),
        },
    )
}

fn read_net(r: &mut Reader) -> (res: Result<(AccountId, i128), CodecError>)
    requires
        old(r).wf(),
    ensures
        final(r).wf(),
        final(r).data() == old(r).data(),
        (res, final(r).pos() as int) == read_net_spec(old(r).data(), old(r).pos() as int),
{
    let owner = r.varint()?;
    let z = r.varint128()?;
    Ok((owner, unzigzag(z)))
}

fn read_lists_exec(r: &mut Reader, seq: SeqNum, next_order_id: OrderId, last_trade_price: Option<Price>) -> (res: Result<
    SnapshotState,
    JournalError,
>)
    requires
        old(r).wf(),
    ensures
        match res {
            Ok(st) => read_lists(old(r).data(), old(r).pos() as int, seq, next_order_id, last_trade_price) == Ok::<
                SnapshotModel,
                JournalError,
            >(st.model()),
            Err(e) => read_lists(old(r).data(), old(r).pos() as int, seq, next_order_id, last_trade_price) == Err::<
                SnapshotModel,
                JournalError,
            >(e),
        },
{
    let ghost data = old(r).data();
    let ghost p0 = old(r).pos() as int;
    let order_count = match r.varint() {
        Ok(v) => v,
        Err(e) => {
            return Err(codec_err(e));
        },
    };
    let ghost p1 = r.pos() as int;
    let mut orders: Vec<RestingEntry> = Vec::new();
    let mut i: u64 = 0;
    while i < order_count
        invariant
            r.wf(),
            r.data() == data,
            i <= order_count,
            data == old(r).data(),
            p0 == old(r).pos() as int,
            read_varint(data, p0, 0, 0) == (Ok::<u64, CodecError>(order_count), p1),
            read_orders_spec(data, p1, i as nat) == (Ok::<Seq<RestingEntry>, CodecError>(orders@), r.pos() as int),
        decreases order_count - i,
    {
        let e = match read_order(r) {
            Ok(e) => e,
            Err(e) => {
                proof {
                    lemma_orders_err(data, p1, (i + 1) as nat, order_count as nat);
                }
                return Err(codec_err(e));
            },
        };
        orders.push(e);
        i = i + 1;
    }
    let ghost p2 = r.pos() as int;
    let stop_count = match r.varint() {
        Ok(v) => v,
        Err(e) => {
            return Err(codec_err(e));
        },
    };
    let ghost p3 = r.pos() as int;
    let mut stops: Vec<PendingStop> = Vec::new();
    let mut j: u64 = 0;
    while j < stop_count
        invariant
            r.wf(),
            r.data() == data,
            j <= stop_count,
            data == old(r).data(),
            p0 == old(r).pos() as int,
            read_varint(data, p0, 0, 0) == (Ok::<u64, CodecError>(order_count), p1),
            read_orders_spec(data, p1, order_count as nat) == (Ok::<Seq<RestingEntry>, CodecError>(orders@), p2),
            read_varint(data, p2, 0, 0) == (Ok::<u64, CodecError>(stop_count), p3),
            read_stops_spec(data, p3, j as nat) == (Ok::<Seq<PendingStop>, JournalError>(stops@), r.pos() as int),
        decreases stop_count - j,
    {
        let st = match read_stop(r) {
            Ok(st) => st,
            Err(e) => {
                proof {
                    lemma_stops_err(data, p3, (j + 1) as nat, stop_count as nat);
                }
                return Err(e);
            },
        };
        stops.push(st);
        j = j + 1;
    }
    let ghost p4 = r.pos() as int;
    let account_count = match r.varint() {
        Ok(v) => v,
        Err(e) => {
            return Err(codec_err(e));
        },
    };
    let ghost p5 = r.pos() as int;
    let mut account_net: Vec<(AccountId, i128)> = Vec::new();
    let mut k: u64 = 0;
    while k < account_count
        invariant
            r.wf(),
            r.data() == data,
            k <= account_count,
            data == old(r).data(),
            p0 == old(r).pos() as int,
            read_varint(data, p0, 0, 0) == (Ok::<u64, CodecError>(order_count), p1),
            read_orders_spec(data, p1, order_count as nat) == (Ok::<Seq<RestingEntry>, CodecError>(orders@), p2),
            read_varint(data, p2, 0, 0) == (Ok::<u64, CodecError>(stop_count), p3),
            read_stops_spec(data, p3, stop_count as nat) == (Ok::<Seq<PendingStop>, JournalError>(stops@), p4),
            read_varint(data, p4, 0, 0) == (Ok::<u64, CodecError>(account_count), p5),
            read_nets_spec(data, p5, k as nat) == (Ok::<Seq<(AccountId, i128)>, CodecError>(account_net@), r.pos() as int),
        decreases account_count - k,
    {
        let a = match read_net(r) {
            Ok(a) => a,
            Err(e) => {
                proof {
                    lemma_nets_err(data, p5, (k + 1) as nat, account_count as nat);
                }
                return Err(codec_err(e));
            },
        };
        account_net.push(a);
        k = k + 1;
    }
    Ok(SnapshotState { seq, next_order_id, last_trade_price, orders, stops, account_net })
}

fn read_sections_exec(r: &mut Reader) -> (res: Result<SnapshotState, JournalError>)
    requires
        old(r).wf(),
    ensures
        match res {
            Ok(st) => read_sections(old(r).data(), old(r).pos() as int) == Ok::<SnapshotModel, JournalError>(st.model()),
            Err(e) => read_sections(old(r).data(), old(r).pos() as int) == Err::<SnapshotModel, JournalError>(e),
        },
{
    let seq = match r.varint() {
        Ok(v) => v,
        Err(e) => {
            return Err(codec_err(e));
        },
    };
    let next_order_id = match r.varint() {
        Ok(v) => v,
        Err(e) => {
            return Err(codec_err(e));
        },
    };
    let flag = match r.u8() {
        Ok(v) => v,
        Err(e) => {
            return Err(codec_err(e));
        },
    };
    let last_trade_price = if flag == 1 {
        match r.varint() {
            Ok(v) => Some(v),
            Err(e) => {
                return Err(codec_err(e));
            },
        }
    } else {
        None
    };
    read_lists_exec(r, seq, next_order_id, last_trade_price)
}

/// Decodes a snapshot.
pub fn decode(data: &[u8]) -> (res: Result<SnapshotState, JournalError>)
    ensures
        match res {
            Ok(st) => read_snapshot(data@) == Ok::<SnapshotModel, JournalError>(st.model()),
            Err(e) => read_snapshot(data@) == Err::<SnapshotModel, JournalError>(e),
        },
{
    let n = data.len();
    if n < MIN_LEN {
        return Err(JournalError::CorruptSnapshot);
    }
    let body = &data[0..n - 4];
    let cb = &data[n - 4..n];
    let crc = (cb[0] as u32) | ((cb[1] as u32) << 8) | ((cb[2] as u32) << 16) | ((cb[3] as u32) << 24);
    if crc32(body) != crc {
        return Err(JournalError::CorruptSnapshot);
    }
    let mut r = Reader::new(body);
    let m = match r.bytes(4) {
        Ok(m) => m,
        Err(e) => {
            return Err(codec_err(e));
        },
    };
    if !(m[0] == 67 && m[1] == 76 && m[2] == 66 && m[3] == 83) {
        proof {
            assert(m@ != snap_magic()) by {
                if m@ == snap_magic() {
                    assert(m@[0] == 67 && m@[1] == 76 && m@[2] == 66 && m@[3] == 83);
                }
            }
        }
        return Err(JournalError::BadMagic);
    }
    proof {
        assert(m@ =~= snap_magic());
    }
    let v = match r.bytes(2) {
        Ok(v) => v,
        Err(e) => {
            return Err(codec_err(e));
        },
    };
    let version = (v[0] as u16) | ((v[1] as u16) << 8);
    if version != SNAP_VERSION {
        return Err(JournalError::UnsupportedVersion(version));
    }
    read_sections_exec(&mut r)
}

proof fn lemma_one_varint(x: u64)
    ensures
        varints(seq![x]) == varint_bytes(x),
{
    reveal_with_fuel(varints, 2);
    assert(seq![x].drop_last() =~= Seq::<u64>::empty());
    assert(varints(seq![x]) =~= varint_bytes(x));
}

proof fn lemma_order_roundtrip(e: RestingEntry, buf: Seq<u8>, rest: Seq<u8>)
    ensures
        read_order_spec(buf + order_bytes(e) + rest, buf.len() as int) == (
            Ok::<RestingEntry, CodecError>(e),
            (buf.len() + order_bytes(e).len()) as int,
        ),
{
    let o = e.1;
    let data = buf + order_bytes(e) + rest;
    let f = seq![o.id, o.seq, o.price, o.qty, o.timestamp, o.owner];
    let b1 = buf + seq![side_bit(e.0)];
    let tail = match e.2 {
        Some((d, h)) => seq![1u8] + varints(seq![d, h]),
        None => seq![0u8],
    };
    assert(data[buf.len() as int] == side_bit(e.0));
    assert(data =~= b1 + varints(f) + (tail + rest));
    crate::journal::lemma_read_fields_roundtrip(f, b1, tail + rest);
    let b2 = b1 + varints(f);
    match e.2 {
        Some((d, h)) => {
            assert(data[b2.len() as int] == 1u8);
            let b3 = b2.push(1u8);
            assert(data =~= b3 + varints(seq![d, h]) + rest);
            crate::journal::lemma_read_fields_roundtrip(seq![d, h], b3, rest);
        },
        None => {
            assert(data[b2.len() as int] == 0u8);
        },
    }
    assert(side_of_code(side_bit(e.0)) == e.0);
    assert(RestingOrder { id: f[0], seq: f[1], price: f[2], qty: f[3], timestamp: f[4], owner: f[5] } == o);
}

proof fn lemma_orders_roundtrip(s: Seq<RestingEntry>, buf: Seq<u8>, rest: Seq<u8>)
    ensures
        read_orders_spec(buf + orders_bytes(s) + rest, buf.len() as int, s.len()) == (
            Ok::<Seq<RestingEntry>, CodecError>(s),
            (buf.len() + orders_bytes(s).len()) as int,
        ),
    decreases s.len(),
{
    if s.len() == 0 {
        assert(s =~= Seq::<RestingEntry>::empty());
    } else {
        let init = s.drop_last();
        let tail = order_bytes(s.last()) + rest;
        assert(buf + orders_bytes(s) + rest =~= buf + orders_bytes(init) + tail);
        lemma_orders_roundtrip(init, buf, tail);
        let pre = buf + orders_bytes(init);
        assert(buf + orders_bytes(s) + rest =~= pre + order_bytes(s.last()) + rest);
        lemma_order_roundtrip(s.last(), pre, rest);
        assert(init.push(s.last()) =~= s);
    }
}

/// A stop kept by the engine activates as a market or a limit order.
pub open spec fn stop_storable(st: PendingStop) -> bool {
    st.activates_to == OrderType::Limit || st.activates_to == OrderType::Market
}

#[verifier::rlimit(100)]
proof fn lemma_stop_roundtrip(st: PendingStop, buf: Seq<u8>, rest: Seq<u8>)
    requires
        stop_storable(st),
    ensures
        read_stop_spec(buf + stop_bytes(st) + rest, buf.len() as int) == (
            Ok::<PendingStop, JournalError>(st),
            (buf.len() + stop_bytes(st).len()) as int,
        ),
{
    let data = buf + stop_bytes(st) + rest;
    let p1 = varint_bytes(st.id);
    let p2 = seq![side_bit(st.side)];
    let p3 = varint_bytes(st.trigger);
    let p4 = seq![activates_code(st.activates_to)];
    let p5 = varints(seq![st.limit_price, st.qty]);
    let p6 = seq![tif_code_spec(st.tif)];
    let p7 = varint_bytes(st.owner);
    let p8 = seq![stp_code_spec(st.stp)];
    lemma_one_varint(st.id);
    lemma_one_varint(st.trigger);
    lemma_one_varint(st.owner);
    assert(data =~= buf + varints(seq![st.id]) + (p2 + p3 + p4 + p5 + p6 + p7 + p8 + rest));
    crate::journal::lemma_read_fields_roundtrip(seq![st.id], buf, p2 + p3 + p4 + p5 + p6 + p7 + p8 + rest);
    let q1 = buf + p1;
    assert(data[q1.len() as int] == side_bit(st.side));
    let q2 = q1 + p2;
    assert(data =~= q2 + varints(seq![st.trigger]) + (p4 + p5 + p6 + p7 + p8 + rest));
    crate::journal::lemma_read_fields_roundtrip(seq![st.trigger], q2, p4 + p5 + p6 + p7 + p8 + rest);
    let q3 = q2 + p3;
    assert(data[q3.len() as int] == activates_code(st.activates_to));
    let q4 = q3 + p4;
    assert(data =~= q4 + varints(seq![st.limit_price, st.qty]) + (p6 + p7 + p8 + rest));
    crate::journal::lemma_read_fields_roundtrip(seq![st.limit_price, st.qty], q4, p6 + p7 + p8 + rest);
    let q5 = q4 + p5;
    assert(data[q5.len() as int] == tif_code_spec(st.tif));
    let q6 = q5 + p6;
    assert(data =~= q6 + varints(seq![st.owner]) + (p8 + rest));
    crate::journal::lemma_read_fields_roundtrip(seq![st.owner], q6, p8 + rest);
    let q7 = q6 + p7;
    assert(data[q7.len() as int] == stp_code_spec(st.stp));
    assert(side_of_code(side_bit(st.side)) == st.side);
    assert(decode_tif_spec(tif_code_spec(st.tif)) == Ok::<crate::types::TimeInForce, JournalError>(st.tif));
    assert(decode_stp_spec(stp_code_spec(st.stp)) == st.stp);
    assert(stop_bytes(st) =~= p1 + p2 + p3 + p4 + p5 + p6 + p7 + p8);
}

proof fn lemma_stops_roundtrip(s: Seq<PendingStop>, buf: Seq<u8>, rest: Seq<u8>)
    requires
        forall|i: int| 0 <= i < s.len() ==> stop_storable(#[trigger] s[i]),
    ensures
        read_stops_spec(buf + stops_bytes(s) + rest, buf.len() as int, s.len()) == (
            Ok::<Seq<PendingStop>, JournalError>(s),
            (buf.len() + stops_bytes(s).len()) as int,
        ),
    decreases s.len(),
{
    if s.len() == 0 {
        assert(s =~= Seq::<PendingStop>::empty());
    } else {
        let init = s.drop_last();
        let tail = stop_bytes(s.last()) + rest;
        assert(buf + stops_bytes(s) + rest =~= buf + stops_bytes(init) + tail);
        assert forall|i: int| 0 <= i < init.len() implies stop_storable(#[trigger] init[i]) by {
            assert(init[i] == s[i]);
        }
        lemma_stops_roundtrip(init, buf, tail);
        let pre = buf + stops_bytes(init);
        assert(buf + stops_bytes(s) + rest =~= pre + stop_bytes(s.last()) + rest);
        assert(stop_storable(s[s.len() - 1]));
        lemma_stop_roundtrip(s.last(), pre, rest);
        assert(init.push(s.last()) =~= s);
    }
}

proof fn lemma_nets_roundtrip(s: Seq<(AccountId, i128)>, buf: Seq<u8>, rest: Seq<u8>)
    ensures
        read_nets_spec(buf + nets_bytes(s) + rest, buf.len() as int, s.len()) == (
            Ok::<Seq<(AccountId, i128)>, CodecError>(s),
            (buf.len() + nets_bytes(s).len()) as int,
        ),
    decreases s.len(),
{
    if s.len() == 0 {
        assert(s =~= Seq::<(AccountId, i128)>::empty());
    } else {
        let init = s.drop_last();
        let a = s.last();
        let tail = net_bytes(a) + rest;
        assert(buf + nets_bytes(s) + rest =~= buf + nets_bytes(init) + tail);
        lemma_nets_roundtrip(init, buf, tail);
        let pre = buf + nets_bytes(init);
        assert(buf + nets_bytes(s) + rest =~= pre + varint_bytes(a.0) + (varint128_bytes(zigzag_spec(a.1)) + rest));
        crate::codec::lemma_varint_roundtrip(a.0, pre, varint128_bytes(zigzag_spec(a.1)) + rest);
        let pre2 = pre + varint_bytes(a.0);
        assert(buf + nets_bytes(s) + rest =~= pre2 + varint128_bytes(zigzag_spec(a.1)) + rest);
        crate::codec::lemma_varint128_roundtrip(zigzag_spec(a.1), pre2, rest);
        lemma_zigzag_roundtrip(a.1);
        assert(init.push(a) =~= s);
    }
}

/// The lists of a snapshot after its counters.
pub open spec fn lists_bytes(m: SnapshotModel) -> Seq<u8> {
    varint_bytes(m.orders.len() as u64) + orders_bytes(m.orders) + varint_bytes(m.stops.len() as u64)
        + stops_bytes(m.stops) + varint_bytes(m.account_net.len() as u64) + nets_bytes(m.account_net)
}

/// The counters and the last trade price.
pub open spec fn counters_bytes(m: SnapshotModel) -> Seq<u8> {
    varint_bytes(m.seq) + varint_bytes(m.next_order_id) + match m.last_trade_price {
        Some(p) => seq![1u8] + varint_bytes(p),
        None => seq![0u8],
    }
}

#[verifier::rlimit(60)]
proof fn lemma_lists_roundtrip(m: SnapshotModel, h3: Seq<u8>)
    requires
        m.orders.len() <= u64::MAX,
        m.stops.len() <= u64::MAX,
        m.account_net.len() <= u64::MAX,
        forall|i: int| 0 <= i < m.stops.len() ==> stop_storable(#[trigger] m.stops[i]),
    ensures
        read_lists(h3 + lists_bytes(m), h3.len() as int, m.seq, m.next_order_id, m.last_trade_price) == Ok::<
            SnapshotModel,
            JournalError,
        >(m),
{
    let body = h3 + lists_bytes(m);
    let c1 = varint_bytes(m.orders.len() as u64);
    let c2 = orders_bytes(m.orders);
    let c3 = varint_bytes(m.stops.len() as u64);
    let c4 = stops_bytes(m.stops);
    let c5 = varint_bytes(m.account_net.len() as u64);
    let c6 = nets_bytes(m.account_net);
    assert(body =~= h3 + c1 + (c2 + c3 + c4 + c5 + c6));
    crate::codec::lemma_varint_roundtrip(m.orders.len() as u64, h3, c2 + c3 + c4 + c5 + c6);
    let h4 = h3 + c1;
    assert(body =~= h4 + c2 + (c3 + c4 + c5 + c6));
    lemma_orders_roundtrip(m.orders, h4, c3 + c4 + c5 + c6);
    let h5 = h4 + c2;
    assert(body =~= h5 + c3 + (c4 + c5 + c6));
    crate::codec::lemma_varint_roundtrip(m.stops.len() as u64, h5, c4 + c5 + c6);
    let h6 = h5 + c3;
    assert(body =~= h6 + c4 + (c5 + c6));
    lemma_stops_roundtrip(m.stops, h6, c5 + c6);
    let h7 = h6 + c4;
    assert(body =~= h7 + c5 + c6);
    crate::codec::lemma_varint_roundtrip(m.account_net.len() as u64, h7, c6);
    let h8 = h7 + c5;
    assert(body =~= h8 + c6 + Seq::<u8>::empty());
    lemma_nets_roundtrip(m.account_net, h8, Seq::empty());
}

#[verifier::rlimit(60)]
proof fn lemma_sections_roundtrip(m: SnapshotModel, h0: Seq<u8>)
    requires
        m.orders.len() <= u64::MAX,
        m.stops.len() <= u64::MAX,
        m.account_net.len() <= u64::MAX,
        forall|i: int| 0 <= i < m.stops.len() ==> stop_storable(#[trigger] m.stops[i]),
    ensures
        read_sections(h0 + counters_bytes(m) + lists_bytes(m), h0.len() as int) == Ok::<SnapshotModel, JournalError>(m),
{
    let body = h0 + counters_bytes(m) + lists_bytes(m);
    let lp = match m.last_trade_price {
        Some(p) => seq![1u8] + varint_bytes(p),
        None => seq![0u8],
    };
    let t3 = lists_bytes(m);
    let t1 = varint_bytes(m.next_order_id) + lp + t3;
    assert(body =~= h0 + varint_bytes(m.seq) + t1);
    crate::codec::lemma_varint_roundtrip(m.seq, h0, t1);
    let h1 = h0 + varint_bytes(m.seq);
    let t2 = lp + t3;
    assert(body =~= h1 + varint_bytes(m.next_order_id) + t2);
    crate::codec::lemma_varint_roundtrip(m.next_order_id, h1, t2);
    let h2 = h1 + varint_bytes(m.next_order_id);
    match m.last_trade_price {
        Some(p) => {
            assert(body[h2.len() as int] == 1u8);
            assert(body =~= h2.push(1u8) + varint_bytes(p) + t3);
            crate::codec::lemma_varint_roundtrip(p, h2.push(1u8), t3);
        },
        None => {
            assert(body[h2.len() as int] == 0u8);
        },
    }
    let h3 = h2 + lp;
    assert(body =~= h3 + t3);
    lemma_lists_roundtrip(m, h3);
}

/// A snapshot read back gives the state written, for every state whose stops activate as
/// market or limit orders.
#[verifier::rlimit(100)]
pub proof fn lemma_snapshot_roundtrip(m: SnapshotModel)
    requires
        m.orders.len() <= u64::MAX,
        m.stops.len() <= u64::MAX,
        m.account_net.len() <= u64::MAX,
        forall|i: int| 0 <= i < m.stops.len() ==> stop_storable(#[trigger] m.stops[i]),
    ensures
        read_snapshot(snapshot_bytes(m)) == Ok::<SnapshotModel, JournalError>(m),
{
    let body = body_bytes(m);
    let data = snapshot_bytes(m);
    let crc = crc32_spec(body);
    crate::codec::lemma_le_roundtrip(crc, 0);
    let h0 = snap_magic() + seq![3u8, 0u8];
    assert(body =~= h0 + counters_bytes(m) + lists_bytes(m));
    assert(data.subrange(0, data.len() - 4) =~= body);
    assert(data.subrange(data.len() - 4, data.len() as int) =~= le32(crc));
    assert(from_le32(data.subrange(data.len() - 4, data.len() as int)) == crc);
    assert(data.len() >= MIN_LEN);
    assert(body.subrange(0, 4) =~= snap_magic());
    assert(body[4] == 3u8 && body[5] == 0u8);
    assert((3u8 as u16) | ((0u8 as u16) << 8u16) == 3u16) by (bit_vector);
    lemma_sections_roundtrip(m, h0);
}

} // verus!

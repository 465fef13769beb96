use vstd::prelude::*;

use crate::codec::{
    crc32, crc32_spec, from_le32, le32, read_varint, varint_bytes, CodecError, Reader, Writer,
};
use crate::codec::{le64, lemma_le_roundtrip, lemma_varint_roundtrip};
use crate::journal::{
    command_bytes, decode_command, decode_header, header_bytes, journal_canonical,
    lemma_command_roundtrip, read_command, read_header, JournalError,
};
use crate::order::Command;

verus! {

/// The body of a block: the record count, then the records.
pub open spec fn block_body(count: u64, records: Seq<u8>) -> Seq<u8> {
    varint_bytes(count) + records
}

/// A block as written in one go: its length (body and checksum), the body, the CRC-32 of
/// the body.
pub open spec fn frame_bytes(count: u64, records: Seq<u8>) -> Seq<u8> {
    let body = block_body(count, records);
    le32((body.len() + 4) as u32) + body + le32(crc32_spec(body))
}

/// Frames `count` records as one block.
pub fn frame_block(count: u64, records: &[u8]) -> (r: Vec<u8>)
    requires
        records@.len() + 20 <= usize::MAX,
    ensures
        r@ == frame_bytes(count, records@),
{
    let mut body = Writer::new();
    body.varint(count);
    body.bytes(records);
    proof {
        assert(varint_bytes(count).len() <= 10) by {
            crate::codec::lemma_varint_len(count);
        }
    }
    let crc = crc32(body.as_slice());
    let block_len = (body.len() + 4) as u32;
    let mut frame = Writer::new();
    frame.u32(block_len);
    frame.bytes(body.as_slice());
    frame.u32(crc);
    frame.into_inner()
}

/// Reading `n` records from `pos`.
pub open spec fn read_commands_n(data: Seq<u8>, pos: int, n: nat) -> (Result<Seq<Command>, JournalError>, int)
    decreases n,
{
    if n == 0 {
        (Ok(Seq::empty()), pos)
    } else {
        let (prev, p) = read_commands_n(data, pos, (n - 1) as nat);
        match prev {
            Err(e) => (Err(e), p),
            Ok(cs) => {
                let (r, p2) = read_command(data, p);
                match r {
                    Err(e) => (Err(e), p2),
                    Ok(c) => (Ok(cs.push(c)), p2),
                }
            },
        }
    }
}

/// Reading the blocks from `pos` on, after `acc`: a short, truncated or corrupt block ends
/// the journal (a torn tail); a whole block whose records do not decode is an error.
pub open spec fn parse_blocks(data: Seq<u8>, pos: int, acc: Seq<Command>) -> Result<Seq<Command>, JournalError>
    decreases data.len() - pos,
{
    if pos < 0 || data.len() - pos < 4 {
        Ok(acc)
    } else {
        let block_len = from_le32(data.subrange(pos, pos + 4)) as int;
        let p = pos + 4;
        if p + block_len > data.len() || block_len < 4 {
            Ok(acc)
        } else {
            let block = data.subrange(p, p + block_len);
            let body = block.subrange(0, block_len - 4);
            let crc = from_le32(block.subrange(block_len - 4, block_len));
            if crc32_spec(body) != crc {
                Ok(acc)
            } else {
                let (cnt, q) = read_varint(body, 0, 0, 0);
                match cnt {
                    Err(e) => Err(JournalError::Codec(e)),
                    Ok(count) => {
                        let (cs, _) = read_commands_n(body, q, count as nat);
                        match cs {
                            Err(e) => Err(e),
                            Ok(cmds) => parse_blocks(data, p + block_len, acc + cmds),
                        }
                    },
                }
            }
        }
    }
}

/// Reading a journal segment: an empty one is empty; otherwise its header, then its blocks.
pub open spec fn parse_segment_spec(data: Seq<u8>) -> Result<(u64, Seq<Command>), JournalError> {
    if data.len() == 0 {
        Ok((0, Seq::empty()))
    } else {
        let (h, p) = read_header(data, 0);
        match h {
            Err(e) => Err(e),
            Ok(base) => match parse_blocks(data, p, Seq::empty()) {
                Err(e) => Err(e),
                Ok(cmds) => Ok((base, cmds)),
            },
        }
    }
}

proof fn lemma_commands_err(data: Seq<u8>, pos: int, j: nat, k: nat)
    requires
        j <= k,
        read_commands_n(data, pos, j).0 is Err,
    ensures
        read_commands_n(data, pos, k) == read_commands_n(data, pos, j),
    decreases k - j,
{
    if j < k {
        lemma_commands_err(data, pos, j, (k - 1) as nat);
    }
}

/// Decodes the records of one block body.
fn decode_block(body: &[u8], out: &mut Vec<Command>) -> (res: Result<(), JournalError>)
    ensures
        ({
            let (cnt, q) = read_varint(body@, 0, 0, 0);
            match cnt {
                Err(e) => res == Err::<(), JournalError>(JournalError::Codec(e)),
                Ok(count) => {
                    let (cs, _) = read_commands_n(body@, q, count as nat);
                    match cs {
                        Err(e) => res == Err::<(), JournalError>(e),
                        Ok(cmds) => res is Ok && final(out)@ == old(out)@ + cmds,
                    }
                },
            }
        }),
{
    let mut r = Reader::new(body);
    let count = match r.varint() {
        Ok(c) => c,
        Err(e) => {
            return Err(JournalError::Codec(e));
        },
    };
    let ghost q = r.pos() as int;
    let ghost out0 = out@;
    let mut i: u64 = 0;
    while i < count
        invariant
            r.wf(),
            r.data() == body@,
            i <= count,
            read_varint(body@, 0, 0, 0) == (Ok::<u64, CodecError>(count), q),
            ({
                let (cs, p) = read_commands_n(body@, q, i as nat);
                cs matches Ok(c) && out@ == out0 + c && p == r.pos() as int
            }),
        decreases count - i,
    {
        let ghost prev = read_commands_n(body@, q, i as nat).0->Ok_0;
        let c = match decode_command(&mut r) {
            Ok(c) => c,
            Err(e) => {
                proof {
                    lemma_commands_err(body@, q, (i + 1) as nat, count as nat);
                }
                return Err(e);
            },
        };
        out.push(c);
        proof {
            assert(out@ =~= out0 + prev.push(c));
        }
        i = i + 1;
    }
    Ok(())
}

/// Reads a journal segment: its base sequence number and the commands of its whole blocks.
pub fn parse_segment(data: &[u8]) -> (res: Result<(u64, Vec<Command>), JournalError>)
    ensures
        match res {
            Ok((base, cmds)) => parse_segment_spec(data@) == Ok::<(u64, Seq<Command>), JournalError>((base, cmds@)),
            Err(e) => parse_segment_spec(data@) == Err::<(u64, Seq<Command>), JournalError>(e),
        },
{
    let mut commands: Vec<Command> = Vec::new();
    if data.len() == 0 {
        proof {
            assert(commands@ =~= Seq::<Command>::empty());
        }
        return Ok((0, commands));
    }
    let mut reader = Reader::new(data);
    let base = match decode_header(&mut reader) {
        Ok(b) => b,
        Err(e) => {
            return Err(e);
        },
    };
    let ghost p0 = reader.pos() as int;
    proof {
        assert(commands@ =~= Seq::<Command>::empty());
    }
    while reader.remaining() >= 4
        invariant
            reader.wf(),
            reader.data() == data@,
            read_header(data@, 0) == (Ok::<u64, JournalError>(base), p0),
            parse_blocks(data@, p0, Seq::empty()) == parse_blocks(data@, reader.pos() as int, commands@),
        decreases data@.len() - reader.pos(),
    {
        let ghost pos = reader.pos() as int;
        let block_len = match reader.u32() {
            Ok(n) => n as usize,
            Err(_) => {
                return Ok((base, commands));
            },
        };
        let block = match reader.bytes(block_len) {
            Ok(b) => b,
            Err(_) => {
                return Ok((base, commands));
            },
        };
        if block.len() < 4 {
            return Ok((base, commands));
        }
        let n = block.len();
        let body = &block[0..n - 4];
        let cb = &block[n - 4..n];
        let crc = (cb[0] as u32) | ((cb[1] as u32) << 8) | ((cb[2] as u32) << 16) | ((cb[3] as u32) << 24);
        if crc32(body) != crc {
            return Ok((base, commands));
        }
        let ghost acc = commands@;
        match decode_block(body, &mut commands) {
            Ok(()) => {},
            Err(e) => {
                return Err(e);
            },
        }
        proof {
            assert(data@.subrange(pos + 4, pos + 4 + n) =~= block@);
        }
    }
    Ok((base, commands))
}


/// The records of commands, one after the other.
pub open spec fn records_of(cs: Seq<Command>) -> Seq<u8>
    decreases cs.len(),
{
    if cs.len() == 0 {
        Seq::empty()
    } else {
        records_of(cs.drop_last()) + command_bytes(cs.last())
    }
}

/// Blocks of commands framed one after the other.
pub open spec fn frames_of(blocks: Seq<Seq<Command>>) -> Seq<u8>
    decreases blocks.len(),
{
    if blocks.len() == 0 {
        Seq::empty()
    } else {
        frames_of(blocks.drop_last()) + frame_bytes(blocks.last().len() as u64, records_of(blocks.last()))
    }
}

/// The commands of blocks, block after block.
pub open spec fn flatten_blocks(blocks: Seq<Seq<Command>>) -> Seq<Command>
    decreases blocks.len(),
{
    if blocks.len() == 0 {
        Seq::empty()
    } else {
        flatten_blocks(blocks.drop_last()) + blocks.last()
    }
}

/// A block the journal reads back as written: its commands have their canonical form and
/// its framed length fits the 32-bit length field.
pub open spec fn block_ok(cs: Seq<Command>) -> bool {
    &&& forall|i: int| 0 <= i < cs.len() ==> journal_canonical(#[trigger] cs[i])
    &&& cs.len() <= u64::MAX
    &&& block_body(cs.len() as u64, records_of(cs)).len() + 4 <= u32::MAX
}

/// Records read back give the commands written, and stop right after them.
pub proof fn lemma_records_roundtrip(cs: Seq<Command>, buf: Seq<u8>, rest: Seq<u8>)
    requires
        forall|i: int| 0 <= i < cs.len() ==> journal_canonical(#[trigger] cs[i]),
    ensures
        read_commands_n(buf + records_of(cs) + rest, buf.len() as int, cs.len()) == (
            Ok::<Seq<Command>, JournalError>(cs),
            (buf.len() + records_of(cs).len()) as int,
        ),
    decreases cs.len(),
{
    if cs.len() == 0 {
        assert(cs =~= Seq::<Command>::empty());
    } else {
        let init = cs.drop_last();
        let c = cs.last();
        let tail = command_bytes(c) + rest;
        assert(buf + records_of(cs) + rest =~= buf + records_of(init) + tail);
        assert forall|i: int| 0 <= i < init.len() implies journal_canonical(#[trigger] init[i]) by {
            assert(init[i] == cs[i]);
        }
        lemma_records_roundtrip(init, buf, tail);
        assert(journal_canonical(cs[cs.len() - 1]));
        assert(buf + records_of(cs) + rest =~= (buf + records_of(init)) + command_bytes(c) + rest);
        lemma_command_roundtrip(c, buf + records_of(init), rest);
        assert(init.push(c) =~= cs);
    }
}

/// One whole block read at its start: its commands are added and reading goes on after it.
proof fn lemma_frame_step(pre: Seq<u8>, cs: Seq<Command>, rest: Seq<u8>, acc: Seq<Command>)
    requires
        block_ok(cs),
    ensures
        parse_blocks(pre + frame_bytes(cs.len() as u64, records_of(cs)) + rest, pre.len() as int, acc)
            == parse_blocks(
            pre + frame_bytes(cs.len() as u64, records_of(cs)) + rest,
            (pre.len() + frame_bytes(cs.len() as u64, records_of(cs)).len()) as int,
            acc + cs,
        ),
{
    let n = cs.len() as u64;
    let recs = records_of(cs);
    let body = block_body(n, recs);
    let len32 = (body.len() + 4) as u32;
    let crc = crc32_spec(body);
    let frame = frame_bytes(n, recs);
    let data = pre + frame + rest;
    let pos = pre.len() as int;
    lemma_le_roundtrip(len32, 0);
    lemma_le_roundtrip(crc, 0);
    assert(frame == le32(len32) + body + le32(crc));
    assert(data.subrange(pos, pos + 4) =~= le32(len32));
    let block_len = len32 as int;
    assert(block_len == body.len() + 4);
    let p = pos + 4;
    let block = data.subrange(p, p + block_len);
    assert(block =~= body + le32(crc));
    assert(block.subrange(0, block_len - 4) =~= body);
    assert(block.subrange(block_len - 4, block_len) =~= le32(crc));
    assert(Seq::<u8>::empty() + varint_bytes(n) + recs =~= body);
    lemma_varint_roundtrip(n, Seq::<u8>::empty(), recs);
    assert forall|i: int| 0 <= i < cs.len() implies journal_canonical(#[trigger] cs[i]) by {}
    assert(varint_bytes(n) + recs + Seq::<u8>::empty() =~= body);
    lemma_records_roundtrip(cs, varint_bytes(n), Seq::<u8>::empty());
    assert(n as nat == cs.len());
    assert(p + block_len == pos + frame.len());
}

/// Whole blocks read one after the other give their commands in order.
proof fn lemma_frames_step(pre: Seq<u8>, blocks: Seq<Seq<Command>>, rest: Seq<u8>, acc: Seq<Command>)
    requires
        forall|k: int| 0 <= k < blocks.len() ==> block_ok(#[trigger] blocks[k]),
    ensures
        parse_blocks(pre + frames_of(blocks) + rest, pre.len() as int, acc) == parse_blocks(
            pre + frames_of(blocks) + rest,
            (pre.len() + frames_of(blocks).len()) as int,
            acc + flatten_blocks(blocks),
        ),
    decreases blocks.len(),
{
    if blocks.len() == 0 {
        assert(acc + flatten_blocks(blocks) =~= acc);
    } else {
        let init = blocks.drop_last();
        let last = blocks.last();
        let f = frame_bytes(last.len() as u64, records_of(last));
        let data = pre + frames_of(blocks) + rest;
        assert(data =~= pre + frames_of(init) + (f + rest));
        assert forall|k: int| 0 <= k < init.len() implies block_ok(#[trigger] init[k]) by {
            assert(init[k] == blocks[k]);
        }
        lemma_frames_step(pre, init, f + rest, acc);
        assert(block_ok(blocks[blocks.len() - 1]));
        assert(data =~= (pre + frames_of(init)) + f + rest);
        lemma_frame_step(pre + frames_of(init), last, rest, acc + flatten_blocks(init));
        assert(acc + flatten_blocks(init) + last =~= acc + flatten_blocks(blocks));
    }
}

/// A segment header read back gives its base sequence number.
proof fn lemma_header_roundtrip(base: u64, rest: Seq<u8>)
    ensures
        read_header(header_bytes(base) + rest, 0) == (Ok::<u64, JournalError>(base), 14int),
{
    let data = header_bytes(base) + rest;
    assert(data.subrange(0, 4) =~= crate::journal::journal_magic());
    assert(data[4] == 2u8 && data[5] == 0u8);
    assert(((2u8 as u16) | ((0u8 as u16) << 8u16)) == 2u16) by (bit_vector);
    assert(data.subrange(6, 14) =~= le64(base));
    lemma_le_roundtrip(0, base);
}

/// Journal law: a segment written as a header and whole blocks reads back as its base
/// sequence number and every command of its blocks, in the order they were written.
pub proof fn lemma_journal_roundtrip(base: u64, blocks: Seq<Seq<Command>>)
    requires
        forall|k: int| 0 <= k < blocks.len() ==> block_ok(#[trigger] blocks[k]),
    ensures
        parse_segment_spec(header_bytes(base) + frames_of(blocks)) == Ok::<(u64, Seq<Command>), JournalError>(
            (base, flatten_blocks(blocks)),
        ),
{
    let data = header_bytes(base) + frames_of(blocks);
    lemma_header_roundtrip(base, frames_of(blocks));
    assert(data =~= header_bytes(base) + frames_of(blocks) + Seq::<u8>::empty());
    lemma_frames_step(header_bytes(base), blocks, Seq::<u8>::empty(), Seq::empty());
    assert(Seq::<Command>::empty() + flatten_blocks(blocks) =~= flatten_blocks(blocks));
}

/// Bytes left over that are shorter than the frame they begin: reading stops there.
proof fn lemma_short_frame_ends(data: Seq<u8>, pos: int, acc: Seq<Command>, f: Seq<u8>)
    requires
        0 <= pos <= data.len(),
        data.len() - pos < f.len(),
        data.subrange(pos, data.len() as int) == f.take(data.len() - pos),
        f.len() >= 4,
        from_le32(f.subrange(0, 4)) as int == f.len() - 4,
    ensures
        parse_blocks(data, pos, acc) == Ok::<Seq<Command>, JournalError>(acc),
{
    if data.len() - pos >= 4 {
        assert(data.subrange(pos, pos + 4) =~= f.subrange(0, 4)) by {
            assert forall|i: int| 0 <= i < 4 implies data.subrange(pos, pos + 4)[i] == f.subrange(0, 4)[i] by {
                assert(data.subrange(pos, data.len() as int)[i] == f.take(data.len() - pos)[i]);
            }
        }
    }
}

/// Journal law: a block cut short by a crash, after whole blocks, is ignored when the
/// segment is read back.
#[verifier::rlimit(40)]
pub proof fn lemma_torn_tail_ignored(base: u64, blocks: Seq<Seq<Command>>, torn: Seq<Command>, cut: int)
    requires
        forall|k: int| 0 <= k < blocks.len() ==> block_ok(#[trigger] blocks[k]),
        block_ok(torn),
        0 <= cut < frame_bytes(torn.len() as u64, records_of(torn)).len(),
    ensures
        parse_segment_spec(
            header_bytes(base) + frames_of(blocks) + frame_bytes(torn.len() as u64, records_of(torn)).take(cut),
        ) == Ok::<(u64, Seq<Command>), JournalError>((base, flatten_blocks(blocks))),
{
    let f = frame_bytes(torn.len() as u64, records_of(torn));
    let t = f.take(cut);
    let data = header_bytes(base) + frames_of(blocks) + t;
    lemma_header_roundtrip(base, frames_of(blocks) + t);
    assert(data =~= header_bytes(base) + (frames_of(blocks) + t));
    lemma_frames_step(header_bytes(base), blocks, t, Seq::empty());
    let pos = (header_bytes(base).len() + frames_of(blocks).len()) as int;
    let body = block_body(torn.len() as u64, records_of(torn));
    let len32 = (body.len() + 4) as u32;
    lemma_le_roundtrip(len32, 0);
    assert(f.subrange(0, 4) =~= le32(len32));
    assert(data.subrange(pos, data.len() as int) =~= t);
    lemma_short_frame_ends(data, pos, Seq::<Command>::empty() + flatten_blocks(blocks), f);
    assert(Seq::<Command>::empty() + flatten_blocks(blocks) =~= flatten_blocks(blocks));
    assert(parse_blocks(data, 14, Seq::empty()) == Ok::<Seq<Command>, JournalError>(flatten_blocks(blocks)));
}

/// The commands of a journal segment's whole blocks.
pub fn read_commands(data: &[u8]) -> (res: Result<Vec<Command>, JournalError>)
    ensures
        match res {
            Ok(cmds) => parse_segment_spec(data@) matches Ok((_, c)) && c == cmds@,
            Err(e) => parse_segment_spec(data@) == Err::<(u64, Seq<Command>), JournalError>(e),
        },
{
    match parse_segment(data) {
        Ok((_, cmds)) => Ok(cmds),
        Err(e) => Err(e),
    }
}
} // verus!

use vstd::prelude::*;

verus! {

/// Why bytes could not be read.
#[derive(Clone, Copy, Debug, PartialEq, Eq, Structural)]
pub enum CodecError {
    UnexpectedEof,
    Overflow,
}

/// The error of reading `n` bytes at `pos` past the end: an overflow when the end position
/// does not fit in a `usize`.
pub open spec fn short_err(pos: int, n: int) -> CodecError {
    if pos + n > usize::MAX {
        CodecError::Overflow
    } else {
        CodecError::UnexpectedEof
    }
}

/// The little-endian bytes of a `u32`.
pub open spec fn le32(v: u32) -> Seq<u8> {
    seq![(v & 0xff) as u8, ((v >> 8) & 0xff) as u8, ((v >> 16) & 0xff) as u8, ((v >> 24) & 0xff) as u8]
}

/// The little-endian bytes of a `u64`.
pub open spec fn le64(v: u64) -> Seq<u8> {
    seq![
        (v & 0xff) as u8,
        ((v >> 8) & 0xff) as u8,
        ((v >> 16) & 0xff) as u8,
        ((v >> 24) & 0xff) as u8,
        ((v >> 32) & 0xff) as u8,
        ((v >> 40) & 0xff) as u8,
        ((v >> 48) & 0xff) as u8,
        ((v >> 56) & 0xff) as u8,
    ]
}

/// The `u32` whose little-endian bytes are `b[0..4]`.
pub open spec fn from_le32(b: Seq<u8>) -> u32 {
    (b[0] as u32) | ((b[1] as u32) << 8) | ((b[2] as u32) << 16) | ((b[3] as u32) << 24)
}

/// The `u64` whose little-endian bytes are `b[0..8]`.
pub open spec fn from_le64(b: Seq<u8>) -> u64 {
    (b[0] as u64) | ((b[1] as u64) << 8) | ((b[2] as u64) << 16) | ((b[3] as u64) << 24) | ((b[4] as u64) << 32)
        | ((b[5] as u64) << 40) | ((b[6] as u64) << 48) | ((b[7] as u64) << 56)
}

/// LEB128: seven bits at a time, least significant first, the high bit marking that more
/// bytes follow.
pub open spec fn varint_bytes(v: u64) -> Seq<u8>
    decreases v,
{
    if v >> 7u64 == 0 {
        seq![(v & 0x7f) as u8]
    } else {
        proof {
            assert(v >> 7u64 < v) by (bit_vector)
                requires
                    v >> 7u64 != 0,
            ;
        }
        seq![((v & 0x7f) | 0x80) as u8] + varint_bytes(v >> 7u64)
    }
}

/// LEB128 of a `u128`.
pub open spec fn varint128_bytes(v: u128) -> Seq<u8>
    decreases v,
{
    if v >> 7u128 == 0 {
        seq![(v & 0x7f) as u8]
    } else {
        proof {
            assert(v >> 7u128 < v) by (bit_vector)
                requires
                    v >> 7u128 != 0,
            ;
        }
        seq![((v & 0x7f) | 0x80) as u8] + varint128_bytes(v >> 7u128)
    }
}

/// Reading a varint at `pos` with `acc` gathered so far at bit `shift`: the value and the
/// position after it, or the error. A byte past the end is an unexpected end; a tenth
/// continuation byte is an overflow.
pub open spec fn read_varint(buf: Seq<u8>, pos: int, acc: u64, shift: u32) -> (Result<u64, CodecError>, int)
    decreases buf.len() - pos,
{
    if pos < 0 || pos >= buf.len() {
        (Err(CodecError::UnexpectedEof), pos)
    } else if shift >= 64 {
        (Err(CodecError::Overflow), pos + 1)
    } else {
        let byte = buf[pos];
        let acc2 = acc | (((byte & 0x7f) as u64) << (shift as u64));
        if byte & 0x80 == 0 {
            (Ok(acc2), pos + 1)
        } else {
            read_varint(buf, pos + 1, acc2, (shift + 7) as u32)
        }
    }
}

/// Reading a `u128` varint, as `read_varint` with a limit of 128 bits.
pub open spec fn read_varint128(buf: Seq<u8>, pos: int, acc: u128, shift: u32) -> (Result<u128, CodecError>, int)
    decreases buf.len() - pos,
{
    if pos < 0 || pos >= buf.len() {
        (Err(CodecError::UnexpectedEof), pos)
    } else if shift >= 128 {
        (Err(CodecError::Overflow), pos + 1)
    } else {
        let byte = buf[pos];
        let acc2 = acc | (((byte & 0x7f) as u128) << (shift as u128));
        if byte & 0x80 == 0 {
            (Ok(acc2), pos + 1)
        } else {
            read_varint128(buf, pos + 1, acc2, (shift + 7) as u32)
        }
    }
}

/// The standard CRC-32 (reflected, polynomial 0xEDB88320) register after one byte.
pub open spec fn crc_byte(crc: u32, byte: u8) -> u32 {
    crc_bits((crc ^ (byte as u32)) as u32, 8)
}

pub open spec fn crc_bits(crc: u32, n: nat) -> u32
    decreases n,
{
    if n == 0 {
        crc
    } else {
        let mask: u32 = if crc & 1 == 1 {
            0xFFFF_FFFFu32
        } else {
            0u32
        };
        crc_bits(((crc >> 1u32) ^ (0xEDB8_8320u32 & mask)) as u32, (n - 1) as nat)
    }
}

/// The CRC register after the bytes of `data`.
pub open spec fn crc_run(data: Seq<u8>) -> u32
    decreases data.len(),
{
    if data.len() == 0 {
        0xFFFF_FFFFu32
    } else {
        crc_byte(crc_run(data.drop_last()), data.last())
    }
}

/// The CRC-32 checksum of `data`.
pub open spec fn crc32_spec(data: Seq<u8>) -> u32 {
    !crc_run(data)
}

/// A growing buffer of encoded bytes.
#[derive(Debug)]
pub struct Writer {
    buf: Vec<u8>,
}

impl Writer {
    /// The bytes written so far.
    pub closed spec fn bytes_of(&self) -> Seq<u8> {
        self.buf@
    }

    pub fn new() -> (r: Self)
        ensures
            r.bytes_of() == Seq::<u8>::empty(),
    {
        Writer { buf: Vec::new() }
    }

    pub fn with_capacity(cap: usize) -> (r: Self)
        ensures
            r.bytes_of() == Seq::<u8>::empty(),
    {
        Writer { buf: Vec::with_capacity(cap) }
    }

    pub fn u8(&mut self, v: u8)
        ensures
            final(self).bytes_of() == old(self).bytes_of().push(v),
    {
        self.buf.push(v);
    }

    pub fn u32(&mut self, v: u32)
        ensures
            final(self).bytes_of() == old(self).bytes_of() + le32(v),
    {
        self.buf.push((v & 0xff) as u8);
        self.buf.push(((v >> 8) & 0xff) as u8);
        self.buf.push(((v >> 16) & 0xff) as u8);
        self.buf.push(((v >> 24) & 0xff) as u8);
        proof {
            assert(self.buf@ =~= old(self).buf@ + le32(v));
        }
    }

    pub fn u64(&mut self, v: u64)
        ensures
            final(self).bytes_of() == old(self).bytes_of() + le64(v),
    {
        self.buf.push((v & 0xff) as u8);
        self.buf.push(((v >> 8) & 0xff) as u8);
        self.buf.push(((v >> 16) & 0xff) as u8);
        self.buf.push(((v >> 24) & 0xff) as u8);
        self.buf.push(((v >> 32) & 0xff) as u8);
        self.buf.push(((v >> 40) & 0xff) as u8);
        self.buf.push(((v >> 48) & 0xff) as u8);
        self.buf.push(((v >> 56) & 0xff) as u8);
        proof {
            assert(self.buf@ =~= old(self).buf@ + le64(v));
        }
    }

    pub fn varint(&mut self, v: u64)
        ensures
            final(self).bytes_of() == old(self).bytes_of() + varint_bytes(v),
    {
        let mut rest = v;
        loop
            invariant
                self.buf@ + varint_bytes(rest) == old(self).buf@ + varint_bytes(v),
            decreases rest,
        {
            let byte = (rest & 0x7f) as u8;
            let next = rest >> 7;
            if next == 0 {
                self.buf.push(byte);
                proof {
                    assert(self.buf@ =~= old(self).buf@ + varint_bytes(v));
                }
                return;
            }
            proof {
                assert(next < rest) by (bit_vector)
                    requires
                        next == rest >> 7u64,
                        next != 0,
                ;
                assert((byte | 0x80) as u8 == ((rest & 0x7f) | 0x80) as u8) by (bit_vector)
                    requires
                        byte == (rest & 0x7f) as u8,
                ;
            }
            let ghost b0 = self.buf@;
            self.buf.push(byte | 0x80);
            proof {
                assert(b0 + varint_bytes(rest) =~= self.buf@ + varint_bytes(next));
            }
            rest = next;
        }
    }

    pub fn varint128(&mut self, v: u128)
        ensures
            final(self).bytes_of() == old(self).bytes_of() + varint128_bytes(v),
    {
        let mut rest = v;
        loop
            invariant
                self.buf@ + varint128_bytes(rest) == old(self).buf@ + varint128_bytes(v),
            decreases rest,
        {
            let byte = (rest & 0x7f) as u8;
            let next = rest >> 7;
            if next == 0 {
                self.buf.push(byte);
                proof {
                    assert(self.buf@ =~= old(self).buf@ + varint128_bytes(v));
                }
                return;
            }
            proof {
                assert(next < rest) by (bit_vector)
                    requires
                        next == rest >> 7u128,
                        next != 0,
                ;
                assert((byte | 0x80) as u8 == ((rest & 0x7f) | 0x80) as u8) by (bit_vector)
                    requires
                        byte == (rest & 0x7f) as u8,
                ;
            }
            let ghost b0 = self.buf@;
            self.buf.push(byte | 0x80);
            proof {
                assert(b0 + varint128_bytes(rest) =~= self.buf@ + varint128_bytes(next));
            }
            rest = next;
        }
    }

    pub fn bytes(&mut self, b: &[u8])
        ensures
            final(self).bytes_of() == old(self).bytes_of() + b@,
    {
        let mut i: usize = 0;
        while i < b.len()
            invariant
                i <= b@.len(),
                self.buf@ == old(self).buf@ + b@.take(i as int),
            decreases b@.len() - i,
        {
            self.buf.push(b[i]);
            proof {
                assert(b@.take(i + 1) =~= b@.take(i as int).push(b@[i as int]));
            }
            i = i + 1;
        }
        proof {
            assert(b@.take(i as int) =~= b@);
        }
    }

    pub fn len(&self) -> (r: usize)
        ensures
            r == self.bytes_of().len(),
    {
        self.buf.len()
    }

    pub fn is_empty(&self) -> (r: bool)
        ensures
            r == (self.bytes_of().len() == 0),
    {
        self.buf.len() == 0
    }

    pub fn as_slice(&self) -> (r: &[u8])
        ensures
            r@ == self.bytes_of(),
    {
        self.buf.as_slice()
    }

    pub fn clear(&mut self)
        ensures
            final(self).bytes_of() == Seq::<u8>::empty(),
    {
        self.buf.clear();
    }

    pub fn into_inner(self) -> (r: Vec<u8>)
        ensures
            r@ == self.bytes_of(),
    {
        self.buf
    }
}

impl Default for Writer {
    fn default() -> (r: Self)
        ensures
            r.bytes_of() == Seq::<u8>::empty(),
    {
        Writer::new()
    }
}

/// A cursor over encoded bytes.
#[derive(Clone, Copy, Debug)]
pub struct Reader<'a> {
    buf: &'a [u8],
    pos: usize,
}

impl<'a> Reader<'a> {
    /// The bytes read from.
    pub closed spec fn data(&self) -> Seq<u8> {
        self.buf@
    }

    /// How many bytes have been read.
    pub closed spec fn pos(&self) -> nat {
        self.pos as nat
    }

    pub closed spec fn wf(&self) -> bool {
        self.pos <= self.buf@.len()
    }

    pub fn new(buf: &'a [u8]) -> (r: Self)
        ensures
            r.wf(),
            r.data() == buf@,
            (r.pos() as int) == 0,
    {
        Reader { buf, pos: 0 }
    }

    pub fn u8(&mut self) -> (r: Result<u8, CodecError>)
        requires
            old(self).wf(),
        ensures
            final(self).wf(),
            final(self).data() == old(self).data(),
            (old(self).pos() as int) < old(self).data().len() ==> r == Ok::<u8, CodecError>(old(self).data()[(old(self).pos() as int)])
                && (final(self).pos() as int) == (old(self).pos() as int) + 1,
            (old(self).pos() as int) >= old(self).data().len() ==> r == Err::<u8, CodecError>(CodecError::UnexpectedEof)
                && (final(self).pos() as int) == (old(self).pos() as int),
    {
        if self.pos < self.buf.len() {
            let byte = self.buf[self.pos];
            self.pos = self.pos + 1;
            Ok(byte)
        } else {
            Err(CodecError::UnexpectedEof)
        }
    }

    pub fn u32(&mut self) -> (r: Result<u32, CodecError>)
        requires
            old(self).wf(),
        ensures
            final(self).wf(),
            final(self).data() == old(self).data(),
            (old(self).pos() as int) + 4 <= old(self).data().len() ==> r == Ok::<u32, CodecError>(
                from_le32(old(self).data().subrange((old(self).pos() as int), (old(self).pos() as int) + 4)),
            ) && (final(self).pos() as int) == (old(self).pos() as int) + 4,
            (old(self).pos() as int) + 4 > old(self).data().len() ==> r == Err::<u32, CodecError>(short_err((old(self).pos() as int), 4))
                && (final(self).pos() as int) == (old(self).pos() as int),
    {
        let b = match self.bytes(4) {
            Ok(b) => b,
            Err(e) => {
                return Err(e);
            },
        };
        Ok((b[0] as u32) | ((b[1] as u32) << 8) | ((b[2] as u32) << 16) | ((b[3] as u32) << 24))
    }

    pub fn u64(&mut self) -> (r: Result<u64, CodecError>)
        requires
            old(self).wf(),
        ensures
            final(self).wf(),
            final(self).data() == old(self).data(),
            (old(self).pos() as int) + 8 <= old(self).data().len() ==> r == Ok::<u64, CodecError>(
                from_le64(old(self).data().subrange((old(self).pos() as int), (old(self).pos() as int) + 8)),
            ) && (final(self).pos() as int) == (old(self).pos() as int) + 8,
            (old(self).pos() as int) + 8 > old(self).data().len() ==> r == Err::<u64, CodecError>(short_err((old(self).pos() as int), 8))
                && (final(self).pos() as int) == (old(self).pos() as int),
    {
        let b = match self.bytes(8) {
            Ok(b) => b,
            Err(e) => {
                return Err(e);
            },
        };
        Ok((b[0] as u64) | ((b[1] as u64) << 8) | ((b[2] as u64) << 16) | ((b[3] as u64) << 24) | ((b[4] as u64) << 32)
            | ((b[5] as u64) << 40) | ((b[6] as u64) << 48) | ((b[7] as u64) << 56))
    }

    pub fn varint(&mut self) -> (r: Result<u64, CodecError>)
        requires
            old(self).wf(),
        ensures
            final(self).wf(),
            final(self).data() == old(self).data(),
            (r, (final(self).pos() as int)) == read_varint(old(self).data(), (old(self).pos() as int), 0, 0),
    {
        let mut result: u64 = 0;
        let mut shift: u32 = 0;
        loop
            invariant
                self.wf(),
                self.buf@ == old(self).buf@,
                shift <= 70,
                read_varint(self.buf@, self.pos as int, result, shift) == read_varint(
                    old(self).buf@,
                    old(self).pos as int,
                    0,
                    0,
                ),
            decreases self.buf@.len() - self.pos,
        {
            let byte = self.u8()?;
            if shift >= 64 {
                return Err(CodecError::Overflow);
            }
            result = result | (((byte & 0x7f) as u64) << shift);
            if byte & 0x80 == 0 {
                return Ok(result);
            }
            shift = shift + 7;
        }
    }

    pub fn varint128(&mut self) -> (r: Result<u128, CodecError>)
        requires
            old(self).wf(),
        ensures
            final(self).wf(),
            final(self).data() == old(self).data(),
            (r, (final(self).pos() as int)) == read_varint128(old(self).data(), (old(self).pos() as int), 0, 0),
    {
        let mut result: u128 = 0;
        let mut shift: u32 = 0;
        loop
            invariant
                self.wf(),
                self.buf@ == old(self).buf@,
                shift <= 134,
                read_varint128(self.buf@, self.pos as int, result, shift) == read_varint128(
                    old(self).buf@,
                    old(self).pos as int,
                    0,
                    0,
                ),
            decreases self.buf@.len() - self.pos,
        {
            let byte = self.u8()?;
            if shift >= 128 {
                return Err(CodecError::Overflow);
            }
            result = result | (((byte & 0x7f) as u128) << shift);
            if byte & 0x80 == 0 {
                return Ok(result);
            }
            shift = shift + 7;
        }
    }

    /// The next `n` bytes.
    pub fn bytes(&mut self, n: usize) -> (r: Result<&'a [u8], CodecError>)
        requires
            old(self).wf(),
        ensures
            final(self).wf(),
            final(self).data() == old(self).data(),
            r is Ok <==> (old(self).pos() as int) + n <= old(self).data().len(),
            r is Ok ==> r->Ok_0@ == old(self).data().subrange((old(self).pos() as int), (old(self).pos() as int) + n)
                && (final(self).pos() as int) == (old(self).pos() as int) + n,
            r is Err ==> (final(self).pos() as int) == (old(self).pos() as int) && r->Err_0 == short_err((old(self).pos() as int), n as int),
    {
        let len = self.buf.len();
        let end = match self.pos.checked_add(n) {
            Some(e) => e,
            None => {
                return Err(CodecError::Overflow);
            },
        };
        if end > len {
            return Err(CodecError::UnexpectedEof);
        }
        let slice = &self.buf[self.pos..end];
        self.pos = end;
        Ok(slice)
    }

    pub fn remaining(&self) -> (r: usize)
        requires
            self.wf(),
        ensures
            r == self.data().len() - self.pos(),
    {
        self.buf.len() - self.pos
    }
}

/// The CRC-32 checksum of `data`.
pub fn crc32(data: &[u8]) -> (r: u32)
    ensures
        r == crc32_spec(data@),
{
    let mut crc: u32 = 0xFFFF_FFFF;
    let mut i: usize = 0;
    while i < data.len()
        invariant
            i <= data@.len(),
            crc == crc_run(data@.take(i as int)),
        decreases data@.len() - i,
    {
        proof {
            assert(data@.take(i + 1).drop_last() =~= data@.take(i as int));
        }
        let mut c: u32 = crc ^ (data[i] as u32);
        let mut k: u32 = 0;
        while k < 8
            invariant
                k <= 8,
                crc_bits(c, (8 - k) as nat) == crc_byte(crc_run(data@.take(i as int)), data@[i as int]),
            decreases 8 - k,
        {
            let mask: u32 = if c & 1 == 1 {
                0xFFFF_FFFF
            } else {
                0
            };
            c = (c >> 1) ^ (0xEDB8_8320 & mask);
            k = k + 1;
        }
        crc = c;
        i = i + 1;
    }
    proof {
        assert(data@.take(i as int) =~= data@);
    }
    !crc
}

/// A varint read back gives the value written, and stops right after it.
pub proof fn lemma_varint_roundtrip(v: u64, buf: Seq<u8>, rest: Seq<u8>)
    ensures
        read_varint(buf + varint_bytes(v) + rest, buf.len() as int, 0, 0) == (
            Ok::<u64, CodecError>(v),
            (buf.len() + varint_bytes(v).len()) as int,
        ),
{
    assert(0u64 >> 0u64 == 0) by (bit_vector);
    lemma_varint_read_from(v, buf, rest, 0, 0);
    assert(0u64 | (v << 0u64) == v) by (bit_vector);
}

/// Reading the varint of `v` placed after `buf`, having gathered `acc` below bit `shift`.
proof fn lemma_varint_read_from(v: u64, buf: Seq<u8>, rest: Seq<u8>, acc: u64, shift: u32)
    requires
        shift <= 63,
        shift % 7 == 0,
        acc >> (shift as u64) == 0,
        shift == 0 || v >> ((64 - shift) as u64) == 0,
    ensures
        read_varint(buf + varint_bytes(v) + rest, buf.len() as int, acc, shift) == (
            Ok::<u64, CodecError>(acc | (v << (shift as u64))),
            (buf.len() + varint_bytes(v).len()) as int,
        ),
    decreases v,
{
    let data = buf + varint_bytes(v) + rest;
    let lo = (v & 0x7f) as u8;
    let s = shift as u64;
    if v >> 7u64 == 0 {
        assert(data[buf.len() as int] == lo);
        assert(lo & 0x80 == 0 && ((lo & 0x7f) as u64) == v) by (bit_vector)
            requires
                lo == (v & 0x7f) as u8,
                v >> 7u64 == 0,
        ;
    } else {
        let b = ((v & 0x7f) | 0x80) as u8;
        assert(data[buf.len() as int] == b);
        let next = v >> 7u64;
        let acc2 = acc | (((b & 0x7f) as u64) << s);
        assert(b & 0x80 != 0 && (b & 0x7f) as u64 == v & 0x7f) by (bit_vector)
            requires
                b == ((v & 0x7f) | 0x80) as u8,
        ;
        assert(shift + 7 <= 63) by {
            if shift > 56 {
                assert(shift == 63);
                assert(((64 - shift) as u64) == 1u64);
                assert(v >> 1u64 == 0);
                assert(v >> 7u64 == 0) by (bit_vector)
                    requires
                        v >> 1u64 == 0,
                ;
            }
        }
        let s2 = (shift + 7) as u32;
        let t: u64 = s2 as u64;
        let k: u64 = (64 - shift) as u64;
        let k2: u64 = (64 - s2) as u64;
        assert(s == 0 || v >> k == 0);
        assert(acc2 >> t == 0 && next >> k2 == 0 && acc2 | (next << t) == acc | (v << s)) by (bit_vector)
            requires
                acc >> s == 0,
                s <= 56,
                t == s + 7,
                k == 64 - s,
                k2 == 64 - t,
                s == 0 || v >> k == 0,
                acc2 == acc | ((v & 0x7f) << s),
                next == v >> 7u64,
        ;
        let buf2 = buf.push(b);
        assert(buf2 + varint_bytes(next) + rest =~= data);
        assert(next < v) by (bit_vector)
            requires
                next == v >> 7u64,
                next != 0,
        ;
        lemma_varint_read_from(next, buf2, rest, acc2, s2);
    }
}


/// A `u128` varint read back gives the value written, and stops right after it.
pub proof fn lemma_varint128_roundtrip(v: u128, buf: Seq<u8>, rest: Seq<u8>)
    ensures
        read_varint128(buf + varint128_bytes(v) + rest, buf.len() as int, 0, 0) == (
            Ok::<u128, CodecError>(v),
            (buf.len() + varint128_bytes(v).len()) as int,
        ),
{
    assert(0u128 >> 0u128 == 0) by (bit_vector);
    lemma_varint128_read_from(v, buf, rest, 0, 0);
    assert(0u128 | (v << 0u128) == v) by (bit_vector);
}

proof fn lemma_varint128_read_from(v: u128, buf: Seq<u8>, rest: Seq<u8>, acc: u128, shift: u32)
    requires
        shift <= 127,
        shift % 7 == 0,
        acc >> (shift as u128) == 0,
        shift == 0 || v >> ((128 - shift) as u128) == 0,
    ensures
        read_varint128(buf + varint128_bytes(v) + rest, buf.len() as int, acc, shift) == (
            Ok::<u128, CodecError>(acc | (v << (shift as u128))),
            (buf.len() + varint128_bytes(v).len()) as int,
        ),
    decreases v,
{
    let data = buf + varint128_bytes(v) + rest;
    let lo = (v & 0x7f) as u8;
    let s = shift as u128;
    if v >> 7u128 == 0 {
        assert(data[buf.len() as int] == lo);
        assert(lo & 0x80 == 0 && ((lo & 0x7f) as u128) == v) by (bit_vector)
            requires
                lo == (v & 0x7f) as u8,
                v >> 7u128 == 0,
        ;
    } else {
        let b = ((v & 0x7f) | 0x80) as u8;
        assert(data[buf.len() as int] == b);
        let next = v >> 7u128;
        let acc2 = acc | (((b & 0x7f) as u128) << s);
        assert(b & 0x80 != 0 && (b & 0x7f) as u128 == v & 0x7f) by (bit_vector)
            requires
                b == ((v & 0x7f) | 0x80) as u8,
        ;
        assert(shift + 7 <= 127) by {
            if shift > 120 {
                assert(shift == 126);
                assert(((128 - shift) as u128) == 2u128);
                assert(v >> 2u128 == 0);
                assert(v >> 7u128 == 0) by (bit_vector)
                    requires
                        v >> 2u128 == 0,
                ;
            }
        }
        let s2 = (shift + 7) as u32;
        let t: u128 = s2 as u128;
        let k: u128 = (128 - shift) as u128;
        let k2: u128 = (128 - s2) as u128;
        assert(s == 0 || v >> k == 0);
        assert(acc2 >> t == 0 && next >> k2 == 0 && acc2 | (next << t) == acc | (v << s)) by (bit_vector)
            requires
                acc >> s == 0,
                s <= 120,
                t == s + 7,
                k == 128 - s,
                k2 == 128 - t,
                s == 0 || v >> k == 0,
                acc2 == acc | ((v & 0x7f) << s),
                next == v >> 7u128,
        ;
        let buf2 = buf.push(b);
        assert(buf2 + varint128_bytes(next) + rest =~= data);
        assert(next < v) by (bit_vector)
            requires
                next == v >> 7u128,
                next != 0,
        ;
        lemma_varint128_read_from(next, buf2, rest, acc2, s2);
    }
}

/// Little-endian bytes read back give the value written.
pub proof fn lemma_le_roundtrip(a: u32, b: u64)
    ensures
        from_le32(le32(a)) == a,
        from_le64(le64(b)) == b,
{
    let x = le32(a);
    assert(x[0] == (a & 0xff) as u8 && x[1] == ((a >> 8) & 0xff) as u8 && x[2] == ((a >> 16) & 0xff) as u8 && x[3]
        == ((a >> 24) & 0xff) as u8);
    assert((((a & 0xff) as u8) as u32) | ((((a >> 8) & 0xff) as u8 as u32) << 8) | ((((a >> 16) & 0xff) as u8 as u32)
        << 16) | ((((a >> 24) & 0xff) as u8 as u32) << 24) == a) by (bit_vector);
    let y = le64(b);
    assert(y[0] == (b & 0xff) as u8 && y[1] == ((b >> 8) & 0xff) as u8 && y[2] == ((b >> 16) & 0xff) as u8 && y[3]
        == ((b >> 24) & 0xff) as u8 && y[4] == ((b >> 32) & 0xff) as u8 && y[5] == ((b >> 40) & 0xff) as u8 && y[6]
        == ((b >> 48) & 0xff) as u8 && y[7] == ((b >> 56) & 0xff) as u8);
    assert((((b & 0xff) as u8) as u64) | ((((b >> 8) & 0xff) as u8 as u64) << 8) | ((((b >> 16) & 0xff) as u8 as u64)
        << 16) | ((((b >> 24) & 0xff) as u8 as u64) << 24) | ((((b >> 32) & 0xff) as u8 as u64) << 32) | ((((b >> 40)
        & 0xff) as u8 as u64) << 40) | ((((b >> 48) & 0xff) as u8 as u64) << 48) | ((((b >> 56) & 0xff) as u8 as u64)
        << 56) == b) by (bit_vector);
}

/// A `u64` varint takes at most ten bytes.
pub proof fn lemma_varint_len(v: u64)
    ensures
        varint_bytes(v).len() <= 10,
{
    lemma_varint_len_k(v, 10);
}

proof fn lemma_varint_len_k(v: u64, k: u64)
    requires
        1 <= k <= 10,
        k == 10 || v >> ((7 * k) as u64) == 0,
    ensures
        varint_bytes(v).len() <= k,
    decreases k,
{
    if v >> 7u64 != 0 {
        let w = v >> 7u64;
        if k == 1 {
            assert(false);
        }
        let j: u64 = (k - 1) as u64;
        if k == 10 {
            assert(w >> 63u64 == 0) by (bit_vector)
                requires
                    w == v >> 7u64,
            ;
            assert(7 * j == 63);
        } else {
            let s: u64 = (7 * k) as u64;
            let t: u64 = (s - 7) as u64;
            assert(w >> t == 0) by (bit_vector)
                requires
                    w == v >> 7u64,
                    v >> s == 0,
                    7 <= s <= 63,
                    t == s - 7,
            ;
            assert(7 * j == t);
        }
        lemma_varint_len_k(w, j);
    }
}
} // verus!

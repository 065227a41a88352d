//! Little-endian integers, and the byte stream they are read from.

use vstd::prelude::*;
use crate::error::Error;

verus! {

/// The two bytes of `v`, low byte first.
pub open spec fn le_u16(v: u16) -> Seq<u8> {
    seq![(v % 256) as u8, (v / 256) as u8]
}

/// The number whose two bytes, low byte first, start `b`.
pub open spec fn u16_of_le(b: Seq<u8>) -> u16
    recommends
        b.len() >= 2,
{
    (b[0] + 256 * b[1]) as u16
}

/// The four bytes of `v`, low byte first.
pub open spec fn le_u32(v: u32) -> Seq<u8> {
    seq![
        (v % 256) as u8,
        ((v / 256) % 256) as u8,
        ((v / 65536) % 256) as u8,
        (v / 16777216) as u8,
    ]
}

/// The number whose four bytes, low byte first, start `b`.
pub open spec fn u32_of_le(b: Seq<u8>) -> u32
    recommends
        b.len() >= 4,
{
    (b[0] + 256 * b[1] + 65536 * b[2] + 16777216 * b[3]) as u32
}

/// The two's complement bit pattern of `v`, read as an unsigned number.
pub open spec fn bits_of_i32(v: i32) -> u32 {
    if v < 0 {
        (v + 0x1_0000_0000) as u32
    } else {
        v as u32
    }
}

/// The signed number whose two's complement bit pattern is `v`.
pub open spec fn i32_of_bits(v: u32) -> i32 {
    if v > i32::MAX {
        (v - 0x1_0000_0000) as i32
    } else {
        v as i32
    }
}

/// The four bytes of `v` in two's complement, low byte first.
pub open spec fn le_i32(v: i32) -> Seq<u8> {
    le_u32(bits_of_i32(v))
}

/// The signed number whose four bytes, low byte first, start `b`.
pub open spec fn i32_of_le(b: Seq<u8>) -> i32
    recommends
        b.len() >= 4,
{
    i32_of_bits(u32_of_le(b))
}

/// A 16-bit number reads back from its two bytes, whatever follows them.
pub proof fn lemma_u16_round_trip(v: u16, rest: Seq<u8>)
    ensures
        u16_of_le(le_u16(v) + rest) == v,
        (le_u16(v) + rest).skip(2) == rest,
        (le_u16(v) + rest).len() == 2 + rest.len(),
{
    let b = le_u16(v) + rest;
    assert(b[0] == le_u16(v)[0] && b[1] == le_u16(v)[1]);
    assert(b.skip(2) =~= rest);
}

/// A 32-bit number reads back from its four bytes, whatever follows them.
pub proof fn lemma_u32_round_trip(v: u32, rest: Seq<u8>)
    ensures
        u32_of_le(le_u32(v) + rest) == v,
        (le_u32(v) + rest).skip(4) == rest,
        (le_u32(v) + rest).len() == 4 + rest.len(),
{
    let b = le_u32(v) + rest;
    assert(b[0] == le_u32(v)[0] && b[1] == le_u32(v)[1] && b[2] == le_u32(v)[2] && b[3] == le_u32(
        v,
    )[3]);
    assert(b.skip(4) =~= rest);
}

/// A signed 32-bit number reads back from its four bytes, whatever follows
/// them.
pub proof fn lemma_i32_round_trip(v: i32, rest: Seq<u8>)
    ensures
        i32_of_le(le_i32(v) + rest) == v,
        (le_i32(v) + rest).skip(4) == rest,
        (le_i32(v) + rest).len() == 4 + rest.len(),
{
    lemma_u32_round_trip(bits_of_i32(v), rest);
}

/// Appends the two bytes of `v`, low byte first.
pub fn put_u16(out: &mut Vec<u8>, v: u16)
    ensures
        final(out)@ == old(out)@ + le_u16(v),
{
    out.push((v % 256) as u8);
    out.push((v / 256) as u8);
    assert(out@ =~= old(out)@ + le_u16(v));
}

/// Appends the four bytes of `v`, low byte first.
pub fn put_u32(out: &mut Vec<u8>, v: u32)
    ensures
        final(out)@ == old(out)@ + le_u32(v),
{
    out.push((v % 256) as u8);
    out.push(((v / 256) % 256) as u8);
    out.push(((v / 65536) % 256) as u8);
    out.push((v / 16777216) as u8);
    assert(out@ =~= old(out)@ + le_u32(v));
}

/// Appends the four bytes of `v` in two's complement, low byte first.
pub fn put_i32(out: &mut Vec<u8>, v: i32)
    ensures
        final(out)@ == old(out)@ + le_i32(v),
{
    let bits: u32 = if v < 0 {
        (v as i64 + 0x1_0000_0000) as u32
    } else {
        v as u32
    };
    put_u32(out, bits);
}

/// The unsigned 32-bit number whose four bytes start `bytes`.
pub fn u32_from_le(bytes: &[u8]) -> (v: u32)
    requires
        bytes@.len() >= 4,
    ensures
        v == u32_of_le(bytes@),
{
    let b0: u32 = bytes[0] as u32;
    let b1: u32 = bytes[1] as u32;
    let b2: u32 = bytes[2] as u32;
    let b3: u32 = bytes[3] as u32;
    b0 + 256 * b1 + 65536 * b2 + 16777216 * b3
}

/// A stream of bytes that is read once, front to back. Its view is what has
/// not been read yet.
#[derive(Debug)]
pub struct Input {
    data: Vec<u8>,
    pos: usize,
}

impl View for Input {
    type V = Seq<u8>;

    closed spec fn view(&self) -> Seq<u8> {
        self.data@.subrange(self.pos as int, self.data@.len() as int)
    }
}

impl Input {
    #[verifier::type_invariant]
    spec fn inv(self) -> bool {
        self.pos <= self.data@.len()
    }

    /// A stream that will hand out `data` from its first byte on.
    pub fn new(data: Vec<u8>) -> (file: Input)
        ensures
            file@ == data@,
    {
        let file = Input { data, pos: 0 };
        assert(file@ =~= data@);
        file
    }

    /// How many bytes are still to be read.
    pub fn available(&self) -> (n: usize)
        ensures
            n == self@.len(),
        no_unwind
    {
        proof {
            use_type_invariant(self);
        }
        self.data.len() - self.pos
    }

    /// Takes `n` bytes off the front of the stream.
    fn advance(&mut self, n: usize)
        requires
            n <= old(self)@.len(),
        ensures
            final(self)@ == old(self)@.skip(n as int),
        no_unwind
    {
        proof {
            use_type_invariant(&*self);
            assert(self@.len() == self.data@.len() - self.pos);
        }
        let total: usize = self.data.len();
        assert(self.pos + n <= total);
        self.pos = self.pos + n;
        assert(self@ =~= old(self)@.skip(n as int));
    }

    /// Drops whatever is left of the stream.
    fn drain(&mut self)
        ensures
            final(self)@ == Seq::<u8>::empty(),
        no_unwind
    {
        proof {
            use_type_invariant(&*self);
        }
        self.pos = self.data.len();
        assert(self@ =~= Seq::<u8>::empty());
    }

    /// The byte `i` places ahead of the front of the stream.
    fn peek(&self, i: usize) -> (b: u8)
        requires
            i < self@.len(),
        ensures
            b == self@[i as int],
        no_unwind
    {
        proof {
            use_type_invariant(self);
            assert(self@.len() == self.data@.len() - self.pos);
        }
        let total: usize = self.data.len();
        assert(self.pos + i < total);
        self.data[self.pos + i]
    }
}

/// Reads an unsigned 16-bit number. Where fewer than two bytes are left the
/// stream is used up and the read fails.
pub fn read_u16(file: &mut Input) -> (r: Result<u16, Error>)
    ensures
        old(file)@.len() >= 2 ==> r == Ok::<u16, Error>(u16_of_le(old(file)@)) && final(file)@ == old(
            file,
        )@.skip(2),
        old(file)@.len() < 2 ==> r == Err::<u16, Error>(Error::Io) && final(file)@ == Seq::<
            u8,
        >::empty(),
{
    if file.available() < 2 {
        file.drain();
        return Err(Error::Io);
    }
    let b0: u16 = file.peek(0) as u16;
    let b1: u16 = file.peek(1) as u16;
    file.advance(2);
    Ok(b0 + 256 * b1)
}

/// Reads an unsigned 32-bit number. Where fewer than four bytes are left the
/// stream is used up and the read fails.
pub fn read_u32(file: &mut Input) -> (r: Result<u32, Error>)
    ensures
        old(file)@.len() >= 4 ==> r == Ok::<u32, Error>(u32_of_le(old(file)@)) && final(file)@ == old(
            file,
        )@.skip(4),
        old(file)@.len() < 4 ==> r == Err::<u32, Error>(Error::Io) && final(file)@ == Seq::<
            u8,
        >::empty(),
    no_unwind
{
    if file.available() < 4 {
        file.drain();
        return Err(Error::Io);
    }
    let b0: u32 = file.peek(0) as u32;
    let b1: u32 = file.peek(1) as u32;
    let b2: u32 = file.peek(2) as u32;
    let b3: u32 = file.peek(3) as u32;
    file.advance(4);
    Ok(b0 + 256 * b1 + 65536 * b2 + 16777216 * b3)
}

/// Reads a signed 32-bit number in two's complement. Where fewer than four
/// bytes are left the stream is used up and the read fails.
pub fn read_i32(file: &mut Input) -> (r: Result<i32, Error>)
    ensures
        old(file)@.len() >= 4 ==> r == Ok::<i32, Error>(i32_of_le(old(file)@)) && final(file)@ == old(
            file,
        )@.skip(4),
        old(file)@.len() < 4 ==> r == Err::<i32, Error>(Error::Io) && final(file)@ == Seq::<
            u8,
        >::empty(),
{
    match read_u32(file) {
        Ok(bits) => {
            if bits > 0x7fff_ffff {
                Ok((bits as i64 - 0x1_0000_0000) as i32)
            } else {
                Ok(bits as i32)
            }
        },
        Err(e) => Err(e),
    }
}

/// Reads an unsigned 32-bit number where a stream may also end. At the end
/// of the stream there is nothing to read, and that is no failure. One to
/// three bytes are a record cut short: they are used up and the read fails.
pub fn try_read_u32(file: &mut Input) -> (r: Result<Option<u32>, Error>)
    ensures
        old(file)@.len() == 0 ==> r == Ok::<Option<u32>, Error>(None) && final(file)@ == old(file)@,
        0 < old(file)@.len() < 4 ==> r == Err::<Option<u32>, Error>(Error::TruncatedRecord)
            && final(file)@ == Seq::<u8>::empty(),
        old(file)@.len() >= 4 ==> r == Ok::<Option<u32>, Error>(Some(u32_of_le(old(file)@)))
            && final(file)@ == old(file)@.skip(4),
    no_unwind
{
    let left: usize = file.available();
    if left == 0 {
        return Ok(None);
    }
    if left < 4 {
        file.drain();
        return Err(Error::TruncatedRecord);
    }
    match read_u32(file) {
        Ok(v) => Ok(Some(v)),
        Err(e) => Err(e),
    }
}

} // verus!

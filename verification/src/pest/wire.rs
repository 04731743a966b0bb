//! The byte layout of pest-control messages: a type byte, a big-endian
//! `u32` length of the whole message, the fields, and a checksum byte that
//! makes all the bytes sum to zero modulo 256. Strings are a `u32` length
//! and UTF-8 bytes; arrays are a `u32` count and their elements.
use vstd::prelude::*;
use vstd::utf8::{encode_utf8, valid_utf8};

use crate::buf::{buf_byte, buf_len, bytes_mut_contents};
use crate::endian::{be32, lemma_be32_roundtrip, read_be32};

verus! {

#[derive(Debug, PartialEq, Eq, Clone, Copy, Structural)]
pub enum CodecError {
    UnknownPacket(u8),
    InvalidPacket,
    InvalidChecksum,
}

/// The sum of the bytes, modulo 256.
pub open spec fn byte_sum(b: Seq<u8>) -> u8
    decreases b.len(),
{
    if b.len() == 0 {
        0
    } else {
        ((byte_sum(b.drop_last()) + b.last()) % 256) as u8
    }
}

/// The checksum byte that makes `b` sum to zero.
pub open spec fn checksum_for(b: Seq<u8>) -> u8 {
    ((256 - byte_sum(b) as int) % 256) as u8
}

/// A complete message: type, length, fields and checksum.
pub open spec fn framed(t: u8, body: Seq<u8>) -> Seq<u8> {
    let pre = seq![t] + be32((body.len() + 6) as u32) + body;
    pre.push(checksum_for(pre))
}

/// A string field.
pub open spec fn str_field(s: Seq<char>) -> Seq<u8> {
    be32(encode_utf8(s).len() as u32) + encode_utf8(s)
}

/// Every message sums to zero modulo 256.
pub proof fn lemma_framed_sum(t: u8, body: Seq<u8>)
    ensures
        byte_sum(framed(t, body)) == 0,
{
    let pre = seq![t] + be32((body.len() + 6) as u32) + body;
    let b = framed(t, body);
    assert(b.drop_last() =~= pre);
}

/// A `u32` field can be told from what follows it.
pub proof fn lemma_be32_prefix(a: u32, b: u32, x: Seq<u8>, y: Seq<u8>)
    requires
        be32(a) + x == be32(b) + y,
    ensures
        a == b,
        x == y,
{
    let s = be32(a) + x;
    assert(s =~= Seq::<u8>::empty() + be32(a) + x);
    assert(be32(b) + y =~= Seq::<u8>::empty() + be32(b) + y);
    lemma_be32_roundtrip(a, x, Seq::<u8>::empty());
    lemma_be32_roundtrip(b, y, Seq::<u8>::empty());
    assert(x =~= s.skip(4));
    assert(y =~= (be32(b) + y).skip(4));
}

/// A string field can be told from what follows it, and gives back its
/// text.
pub proof fn lemma_str_field_prefix(s1: Seq<char>, s2: Seq<char>, x: Seq<u8>, y: Seq<u8>)
    requires
        str_field(s1) + x == str_field(s2) + y,
        encode_utf8(s1).len() <= u32::MAX,
        encode_utf8(s2).len() <= u32::MAX,
    ensures
        s1 == s2,
        x == y,
{
    let e1 = encode_utf8(s1);
    let e2 = encode_utf8(s2);
    assert(str_field(s1) + x =~= be32(e1.len() as u32) + (e1 + x));
    assert(str_field(s2) + y =~= be32(e2.len() as u32) + (e2 + y));
    lemma_be32_prefix(e1.len() as u32, e2.len() as u32, e1 + x, e2 + y);
    assert(e1 =~= (e1 + x).take(e1.len() as int));
    assert(e2 =~= (e2 + y).take(e2.len() as int));
    assert(x =~= (e1 + x).skip(e1.len() as int));
    assert(y =~= (e2 + y).skip(e2.len() as int));
    vstd::utf8::encode_utf8_decode_utf8(s1);
    vstd::utf8::encode_utf8_decode_utf8(s2);
}

/// A complete message gives back its type and its fields.
pub proof fn lemma_framed_prefix(t1: u8, b1: Seq<u8>, t2: u8, b2: Seq<u8>)
    requires
        framed(t1, b1) == framed(t2, b2),
    ensures
        t1 == t2,
        b1 == b2,
{
    let f = framed(t1, b1);
    assert(f[0] == t1);
    assert(framed(t2, b2)[0] == t2);
    assert(f.len() == b1.len() + 6);
    assert(framed(t2, b2).len() == b2.len() + 6);
    assert(b1 =~= f.subrange(5, b1.len() + 5 as int));
    assert(b2 =~= framed(t2, b2).subrange(5, b2.len() + 5 as int));
}

/// Builds a message field by field.
pub struct Writer {
    t: u8,
    fields: Vec<u8>,
}

impl Writer {
    /// The message's type byte.
    pub closed spec fn kind(&self) -> u8 {
        self.t
    }

    /// The fields written so far.
    pub closed spec fn body(&self) -> Seq<u8> {
        self.fields@
    }

    /// A message of type `t`.
    pub fn new(t: u8) -> (r: Writer)
        ensures
            r.kind() == t,
            r.body() == Seq::<u8>::empty(),
    {
        Writer { t, fields: Vec::new() }
    }

    pub fn write_u8(&mut self, value: u8)
        ensures
            final(self).kind() == old(self).kind(),
            final(self).body() == old(self).body().push(value),
    {
        self.fields.push(value);
    }

    pub fn write_u32(&mut self, value: u32)
        ensures
            final(self).kind() == old(self).kind(),
            final(self).body() == old(self).body() + be32(value),
    {
        let ghost before = self.fields@;
        self.fields.push((value / 0x1000000) as u8);
        self.fields.push(((value / 0x10000) % 256) as u8);
        self.fields.push(((value / 0x100) % 256) as u8);
        self.fields.push((value % 256) as u8);
        assert(self.fields@ =~= before + be32(value));
    }

    /// A string: its length in bytes, then its UTF-8 bytes.
    pub fn write_str(&mut self, value: &str)
        requires
            encode_utf8(value@).len() <= u32::MAX,
        ensures
            final(self).kind() == old(self).kind(),
            final(self).body() == old(self).body() + str_field(value@),
    {
        let bytes = value.as_bytes();
        self.write_u32(bytes.len() as u32);
        let mut i: usize = 0;
        let ghost mid = self.body();
        while i < bytes.len()
            invariant
                i <= bytes@.len(),
                bytes@ == encode_utf8(value@),
                self.kind() == old(self).kind(),
                self.body() == mid + bytes@.take(i as int),
            decreases bytes@.len() - i,
        {
            self.write_u8(bytes[i]);
            assert(bytes@.take(i + 1) =~= bytes@.take(i as int).push(bytes@[i as int]));
            i += 1;
        }
        assert(bytes@.take(bytes@.len() as int) =~= bytes@);
    }

    /// The message: type, length, fields and checksum.
    pub fn finalize(self) -> (r: Vec<u8>)
        requires
            self.body().len() + 6 <= u32::MAX,
        ensures
            r@ == framed(self.kind(), self.body()),
    {
        let ghost body = self.fields@;
        let len = (self.fields.len() + 6) as u32;
        let mut bytes: Vec<u8> = Vec::new();
        bytes.push(self.t);
        bytes.push((len / 0x1000000) as u8);
        bytes.push(((len / 0x10000) % 256) as u8);
        bytes.push(((len / 0x100) % 256) as u8);
        bytes.push((len % 256) as u8);
        let mut k: usize = 0;
        let ghost head = bytes@;
        while k < self.fields.len()
            invariant
                k <= body.len(),
                body == self.fields@,
                bytes@ == head + body.take(k as int),
            decreases body.len() - k,
        {
            bytes.push(self.fields[k]);
            assert(body.take(k + 1) =~= body.take(k as int).push(body[k as int]));
            k += 1;
        }
        assert(body.take(body.len() as int) =~= body);
        let ghost pre = seq![self.t] + be32(len) + body;
        assert(bytes@ =~= pre);
        let mut sum: u8 = 0;
        let mut i: usize = 0;
        while i < bytes.len()
            invariant
                i <= bytes@.len(),
                bytes@ == pre,
                sum == byte_sum(pre.take(i as int)),
            decreases bytes@.len() - i,
        {
            assert(pre.take(i + 1).drop_last() =~= pre.take(i as int));
            sum = sum.wrapping_add(bytes[i]);
            i += 1;
        }
        assert(pre.take(pre.len() as int) =~= pre);
        let check = 0u8.wrapping_sub(sum);
        bytes.push(check);
        bytes
    }
}

/// Reads the fields of a validated message.
pub struct Parser {
    data: Vec<u8>,
    pos: usize,
}

impl Parser {
    pub closed spec fn bytes(&self) -> Seq<u8> {
        self.data@
    }

    pub closed spec fn position(&self) -> int {
        self.pos as int
    }

    pub fn new(data: &[u8]) -> (r: Parser)
        ensures
            r.bytes() == data@,
            r.position() == 0,
    {
        Parser { data: vstd::slice::slice_to_vec(data), pos: 0 }
    }

    pub fn read_u8(&mut self) -> (r: u8)
        requires
            old(self).position() + 1 <= old(self).bytes().len(),
        ensures
            r == old(self).bytes()[old(self).position()],
            final(self).bytes() == old(self).bytes(),
            final(self).position() == old(self).position() + 1,
    {
        let _n = self.data.len();
        let r = self.data[self.pos];
        self.pos = self.pos + 1;
        r
    }

    pub fn read_u32(&mut self) -> (r: u32)
        requires
            old(self).position() + 4 <= old(self).bytes().len(),
        ensures
            r == read_be32(old(self).bytes(), old(self).position()),
            final(self).bytes() == old(self).bytes(),
            final(self).position() == old(self).position() + 4,
    {
        let _n = self.data.len();
        let p = self.pos;
        let r = (self.data[p] as u32) * 0x1000000 + (self.data[p + 1] as u32) * 0x10000
            + (self.data[p + 2] as u32) * 0x100 + (self.data[p + 3] as u32);
        self.pos = p + 4;
        r
    }

    /// A string field, whose bytes are valid UTF-8.
    pub fn read_str(&mut self) -> (r: String)
        requires
            old(self).position() + 4 <= old(self).bytes().len(),
            old(self).position() + 4 + read_be32(old(self).bytes(), old(self).position())
                <= old(self).bytes().len(),
            valid_utf8(
                old(self).bytes().subrange(
                    old(self).position() + 4,
                    old(self).position() + 4 + read_be32(old(self).bytes(), old(self).position()),
                ),
            ),
        ensures
            encode_utf8(r@) == old(self).bytes().subrange(
                old(self).position() + 4,
                old(self).position() + 4 + read_be32(old(self).bytes(), old(self).position()),
            ),
            final(self).bytes() == old(self).bytes(),
            final(self).position() == old(self).position() + 4 + read_be32(
                old(self).bytes(),
                old(self).position(),
            ),
    {
        let _n = self.data.len();
        let len = self.read_u32() as usize;
        let start = self.pos;
        let piece = vstd::slice::slice_subrange(self.data.as_slice(), start, start + len);
        let s = crate::text::lossy_string(piece);
        proof {
            vstd::utf8::decode_utf8_encode_utf8(piece@);
        }
        self.pos = start + len;
        s
    }
}

} // verus!

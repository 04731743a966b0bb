//! `Hello` (0x50): the protocol's name and version, sent first by each side.
use vstd::prelude::*;
use vstd::utf8::encode_utf8;

use crate::endian::be32;
use crate::pest::frame::{close_frame, frame_outcome, lemma_frame, open_frame, step_str, step_u32, walk_fields, Field, Shape, Walk};
use crate::pest::wire::{framed, str_field, CodecError, Writer};
use crate::pest::packets::RawPacketDecoder;
use crate::pest::wire::{lemma_be32_prefix, lemma_str_field_prefix};
use crate::pest::frame::{lemma_close_written, lemma_walk_written_str, lemma_walk_written_u32, lemma_written_outcome, walk_body};

verus! {

pub const PESTCONTROL_PROTOCOL: &'static str = "pestcontrol";

pub const PESTCONTROL_VERSION: u32 = 1;

/// The type byte of a `Hello`.
pub const KIND: u8 = 0x50;

#[derive(Debug, PartialEq, Eq, Clone)]
pub struct Packet {
    pub protocol: String,
    pub version: u32,
}

/// The fields of a `Hello`.
pub open spec fn body(p: &Packet) -> Seq<u8> {
    str_field(p.protocol@) + be32(p.version)
}

pub open spec fn shape() -> Shape {
    Shape { head: seq![Field::Str, Field::U32], each: None }
}

impl Default for Packet {
    /// The `Hello` that this side sends, as `new` makes it.
    fn default() -> (r: Packet)
        ensures
            r.protocol@ == PESTCONTROL_PROTOCOL@,
            r.version == PESTCONTROL_VERSION,
    {
        Packet::new()
    }
}

impl Packet {
    /// The `Hello` that this side sends: protocol `pestcontrol`, version 1.
    pub fn new() -> (r: Packet)
        ensures
            r.protocol@ == PESTCONTROL_PROTOCOL@,
            r.version == PESTCONTROL_VERSION,
    {
        Packet { protocol: String::from_str(PESTCONTROL_PROTOCOL), version: PESTCONTROL_VERSION }
    }

    /// The message's bytes.
    pub fn write_packet(&self) -> (r: Vec<u8>)
        requires
            body(self).len() + 6 <= u32::MAX,
        ensures
            r@ == framed(KIND, body(self)),
    {
        let mut w = Writer::new(KIND);
        w.write_str(self.protocol.as_str());
        w.write_u32(self.version);
        assert(w.body() =~= body(self));
        w.finalize()
    }
}

/// The fields of a message, written in a buffer of its length or longer,
/// check up to its checksum byte.
proof fn lemma_body_walk(p: &Packet, b: Seq<u8>, len: int)
    requires
        body(p).len() + 6 == len,
        len <= b.len(),
        len <= u32::MAX,
        b.subrange(5, len - 1) == body(p),
    ensures
        walk_body(b, shape(), len) == Walk::At(len - 1),
{
    reveal_with_fuel(walk_fields, 3);
    assert(shape().head.drop_first() =~= seq![Field::U32]);
    assert(seq![Field::U32].drop_first() =~= Seq::<Field>::empty());
    let n = str_field(p.protocol@).len() as int;
    assert(b.subrange(5, 5 + n) =~= b.subrange(5, len - 1).subrange(0, n));
    assert(body(p).subrange(0, n) =~= str_field(p.protocol@));
    lemma_walk_written_str(b, 5, len, p.protocol@);
    assert(b.subrange(5 + n, 9 + n) =~= b.subrange(5, len - 1).subrange(n, n + 4));
    assert(body(p).subrange(n, n + 4) =~= be32(p.version));
    lemma_walk_written_u32(b, 5 + n, len, p.version);
}

/// The bytes written for a message, followed by anything, are read back as
/// one complete message of their length.
pub proof fn lemma_written_read(p: &Packet, rest: Seq<u8>)
    requires
        body(p).len() + 6 <= u32::MAX,
    ensures
        frame_outcome(framed(KIND, body(p)) + rest, shape()) == Walk::At(body(p).len() + 6 as int),
{
    let b = framed(KIND, body(p)) + rest;
    let len = body(p).len() + 6 as int;
    lemma_close_written(KIND, body(p), rest);
    lemma_body_walk(p, b, len);
    lemma_written_outcome(KIND, body(p), rest, shape());
}

/// Messages with the same fields' bytes are the same message.
pub proof fn lemma_body_injective(p: &Packet, q: &Packet)
    requires
        body(p) == body(q),
        body(p).len() <= u32::MAX,
    ensures
        p.protocol@ == q.protocol@,
        p.version == q.version,
{
    lemma_str_field_prefix(p.protocol@, q.protocol@, be32(p.version), be32(q.version));
    assert(be32(p.version) + Seq::<u8>::empty() =~= be32(q.version) + Seq::<u8>::empty());
    lemma_be32_prefix(p.version, q.version, Seq::<u8>::empty(), Seq::<u8>::empty());
}

pub struct PacketDecoder;

impl RawPacketDecoder for PacketDecoder {
    type Decoded = Packet;

    open spec fn kind() -> u8 {
        KIND
    }

    open spec fn shape() -> Shape {
        shape()
    }

    open spec fn body(d: &Packet) -> Seq<u8> {
        body(d)
    }

    fn decode(b: &[u8]) -> (r: Result<Option<(Packet, usize)>, CodecError>) {
        let len = match open_frame(b) {
            Some(len) => len,
            None => return Ok(None),
        };
        proof {
            reveal_with_fuel(walk_fields, 3);
        }
        assert(shape().head.drop_first() =~= seq![Field::U32]);
        assert(seq![Field::U32].drop_first() =~= Seq::<Field>::empty());
        let (c1, protocol) = match step_str(b, 5, len) {
            Ok(Some(x)) => x,
            Ok(None) => return Ok(None),
            Err(e) => return Err(e),
        };
        let (c2, version) = match step_u32(b, c1, len) {
            Ok(Some(x)) => x,
            Ok(None) => return Ok(None),
            Err(e) => return Err(e),
        };
        let n = match close_frame(b, c2, len) {
            Ok(Some(n)) => n,
            Ok(None) => return Ok(None),
            Err(e) => return Err(e),
        };
        let p = Packet { protocol, version };
        proof {
            assert(b@.subrange(5, c2 as int) =~= b@.subrange(5, c1 as int) + b@.subrange(c1 as int, c2 as int));
            lemma_frame(b@, body(&p), n as int);
        }
        Ok(Some((p, n as usize)))
    }
}

} // verus!

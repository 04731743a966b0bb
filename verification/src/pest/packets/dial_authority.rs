//! `DialAuthority` (0x53): asks the authority server for a site.
use vstd::prelude::*;
use vstd::utf8::encode_utf8;

use crate::endian::be32;
use crate::pest::frame::{
    close_frame, frame_outcome, lemma_frame, open_frame, step_action, step_str, step_u32, walk_fields, Field,
    Shape, Walk,
};
use crate::pest::wire::{framed, str_field, CodecError, Writer};
use crate::pest::packets::RawPacketDecoder;
use crate::pest::wire::lemma_be32_prefix;
use crate::pest::frame::{lemma_close_written, lemma_walk_written_str, lemma_walk_written_u32, lemma_written_outcome, walk_body};

verus! {

/// The type byte of this message.
pub const KIND: u8 = 0x53;

#[derive(Debug, PartialEq, Eq, Clone, Copy)]
pub struct Packet {
    pub site: u32,
}

/// The fields of the message: the site.
pub open spec fn body(p: &Packet) -> Seq<u8> {
    be32(p.site)
}

pub open spec fn shape() -> Shape {
    Shape { head: seq![Field::U32], each: None }
}

impl Packet {
    /// The message's bytes.
    pub fn write_packet(&self) -> (r: Vec<u8>)
        ensures
            r@ == framed(KIND, body(self)),
    {
        let mut w = Writer::new(KIND);
        w.write_u32(self.site);
        assert(w.body() =~= body(self));
        w.finalize()
    }
}

/// The fields of a message, written in a buffer of its length or longer,
/// check up to its checksum byte.
proof fn lemma_body_walk(p: &Packet, b: Seq<u8>, len: int)
    requires
        body(p).len() + 6 == len,
        len <= b.len(),
        len <= u32::MAX,
        b.subrange(5, len - 1) == body(p),
    ensures
        walk_body(b, shape(), len) == Walk::At(len - 1),
{
    reveal_with_fuel(walk_fields, 2);
    assert(shape().head.drop_first() =~= Seq::<Field>::empty());
    assert(b.subrange(5, 9) =~= body(p));
    lemma_walk_written_u32(b, 5, len, p.site);
}

/// The bytes written for a message, followed by anything, are read back as
/// one complete message of their length.
pub proof fn lemma_written_read(p: &Packet, rest: Seq<u8>)
    requires
        body(p).len() + 6 <= u32::MAX,
    ensures
        frame_outcome(framed(KIND, body(p)) + rest, shape()) == Walk::At(body(p).len() + 6 as int),
{
    let b = framed(KIND, body(p)) + rest;
    let len = body(p).len() + 6 as int;
    lemma_close_written(KIND, body(p), rest);
    lemma_body_walk(p, b, len);
    lemma_written_outcome(KIND, body(p), rest, shape());
}

/// Messages with the same fields' bytes are the same message.
pub proof fn lemma_body_injective(p: &Packet, q: &Packet)
    requires
        body(p) == body(q),
    ensures
        p.site == q.site,
{
    assert(be32(p.site) + Seq::<u8>::empty() =~= be32(q.site) + Seq::<u8>::empty());
    lemma_be32_prefix(p.site, q.site, Seq::<u8>::empty(), Seq::<u8>::empty());
}

pub struct PacketDecoder;

impl RawPacketDecoder for PacketDecoder {
    type Decoded = Packet;

    open spec fn kind() -> u8 {
        KIND
    }

    open spec fn shape() -> Shape {
        shape()
    }

    open spec fn body(d: &Packet) -> Seq<u8> {
        body(d)
    }

    fn decode(b: &[u8]) -> (r: Result<Option<(Packet, usize)>, CodecError>) {
        let len = match open_frame(b) {
            Some(len) => len,
            None => return Ok(None),
        };
        proof {
            reveal_with_fuel(walk_fields, 2);
        }
        assert(shape().head.drop_first() =~= Seq::<Field>::empty());
        let (c1, site) = match step_u32(b, 5, len) {
            Ok(Some(x)) => x,
            Ok(None) => return Ok(None),
            Err(e) => return Err(e),
        };
        let n = match close_frame(b, c1, len) {
            Ok(Some(n)) => n,
            Ok(None) => return Ok(None),
            Err(e) => return Err(e),
        };
        let p = Packet { site };
        proof {
            lemma_frame(b@, body(&p), n as int);
        }
        Ok(Some((p, n as usize)))
    }
}

} // verus!

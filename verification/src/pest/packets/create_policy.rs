//! `CreatePolicy` (0x55): asks the authority to cull or conserve a
//! species.
use vstd::prelude::*;
use vstd::utf8::encode_utf8;

use crate::endian::be32;
use crate::pest::frame::{
    close_frame, frame_outcome, lemma_frame, open_frame, step_action, step_str, step_u32, walk_fields, Field,
    Shape, Walk,
};
use crate::pest::wire::{framed, str_field, CodecError, Writer};
use crate::pest::packets::RawPacketDecoder;
use crate::pest::wire::lemma_str_field_prefix;
use crate::pest::frame::{lemma_close_written, lemma_walk_written_str, lemma_walk_written_u32, lemma_written_outcome, walk_body};

verus! {

/// The type byte of this message.
pub const KIND: u8 = 0x55;

#[derive(Debug, PartialEq, Eq, Clone, Copy, Structural)]
pub enum PolicyAction {
    Conserve,
    Cull,
}

/// The byte that stands for an action.
pub open spec fn action_byte(a: PolicyAction) -> u8 {
    match a {
        PolicyAction::Conserve => 0xa0,
        PolicyAction::Cull => 0x90,
    }
}

impl From<PolicyAction> for u8 {
    fn from(action: PolicyAction) -> (r: u8) {
        match action {
            PolicyAction::Conserve => 0xa0,
            PolicyAction::Cull => 0x90,
        }
    }
}

impl vstd::std_specs::convert::FromSpecImpl<PolicyAction> for u8 {
    open spec fn obeys_from_spec() -> bool {
        true
    }

    open spec fn from_spec(v: PolicyAction) -> u8 {
        action_byte(v)
    }
}

#[derive(Debug, PartialEq, Eq, Clone)]
pub struct Packet {
    pub species: String,
    pub action: PolicyAction,
}

/// The fields of the message: the species and the action's byte.
pub open spec fn body(p: &Packet) -> Seq<u8> {
    str_field(p.species@).push(action_byte(p.action))
}

pub open spec fn shape() -> Shape {
    Shape { head: seq![Field::Str, Field::Action], each: None }
}

impl Packet {
    /// The message's bytes.
    pub fn write_packet(&self) -> (r: Vec<u8>)
        requires
            body(self).len() + 6 <= u32::MAX,
        ensures
            r@ == framed(KIND, body(self)),
    {
        let mut w = Writer::new(KIND);
        w.write_str(self.species.as_str());
        w.write_u8(u8::from(self.action));
        assert(w.body() =~= body(self));
        w.finalize()
    }
}

/// The fields of a message, written in a buffer of its length or longer,
/// check up to its checksum byte.
proof fn lemma_body_walk(p: &Packet, b: Seq<u8>, len: int)
    requires
        body(p).len() + 6 == len,
        len <= b.len(),
        len <= u32::MAX,
        b.subrange(5, len - 1) == body(p),
    ensures
        walk_body(b, shape(), len) == Walk::At(len - 1),
{
    reveal_with_fuel(walk_fields, 3);
    assert(shape().head.drop_first() =~= seq![Field::Action]);
    assert(seq![Field::Action].drop_first() =~= Seq::<Field>::empty());
    let n = str_field(p.species@).len() as int;
    assert(b.subrange(5, 5 + n) =~= b.subrange(5, len - 1).subrange(0, n));
    assert(body(p).subrange(0, n) =~= str_field(p.species@));
    lemma_walk_written_str(b, 5, len, p.species@);
    assert(b[5 + n] == b.subrange(5, len - 1)[n]);
}

/// The bytes written for a message, followed by anything, are read back as
/// one complete message of their length.
pub proof fn lemma_written_read(p: &Packet, rest: Seq<u8>)
    requires
        body(p).len() + 6 <= u32::MAX,
    ensures
        frame_outcome(framed(KIND, body(p)) + rest, shape()) == Walk::At(body(p).len() + 6 as int),
{
    let b = framed(KIND, body(p)) + rest;
    let len = body(p).len() + 6 as int;
    lemma_close_written(KIND, body(p), rest);
    lemma_body_walk(p, b, len);
    lemma_written_outcome(KIND, body(p), rest, shape());
}

/// Messages with the same fields' bytes are the same message.
pub proof fn lemma_body_injective(p: &Packet, q: &Packet)
    requires
        body(p) == body(q),
        body(p).len() <= u32::MAX,
    ensures
        p.species@ == q.species@,
        p.action == q.action,
{
    assert(body(p) =~= str_field(p.species@) + seq![action_byte(p.action)]);
    assert(body(q) =~= str_field(q.species@) + seq![action_byte(q.action)]);
    lemma_str_field_prefix(p.species@, q.species@, seq![action_byte(p.action)], seq![action_byte(q.action)]);
    assert(seq![action_byte(p.action)][0] == seq![action_byte(q.action)][0]);
}

pub struct PacketDecoder;

impl RawPacketDecoder for PacketDecoder {
    type Decoded = Packet;

    open spec fn kind() -> u8 {
        KIND
    }

    open spec fn shape() -> Shape {
        shape()
    }

    open spec fn body(d: &Packet) -> Seq<u8> {
        body(d)
    }

    fn decode(b: &[u8]) -> (r: Result<Option<(Packet, usize)>, CodecError>) {
        let len = match open_frame(b) {
            Some(len) => len,
            None => return Ok(None),
        };
        proof {
            reveal_with_fuel(walk_fields, 3);
        }
        assert(shape().head.drop_first() =~= seq![Field::Action]);
        assert(seq![Field::Action].drop_first() =~= Seq::<Field>::empty());
        let (c1, species) = match step_str(b, 5, len) {
            Ok(Some(x)) => x,
            Ok(None) => return Ok(None),
            Err(e) => return Err(e),
        };
        let (c2, v) = match step_action(b, c1, len) {
            Ok(Some(x)) => x,
            Ok(None) => return Ok(None),
            Err(e) => return Err(e),
        };
        let n = match close_frame(b, c2, len) {
            Ok(Some(n)) => n,
            Ok(None) => return Ok(None),
            Err(e) => return Err(e),
        };
        let action = if v == 0x90 {
            PolicyAction::Cull
        } else {
            PolicyAction::Conserve
        };
        let p = Packet { species, action };
        proof {
            assert(b@.subrange(5, c2 as int) =~= b@.subrange(5, c1 as int).push(b@[c1 as int]));
            lemma_frame(b@, body(&p), n as int);
        }
        Ok(Some((p, n as usize)))
    }
}

} // verus!

//! The messages of the protocol, each recognised at the front of the
//! received bytes and written back as bytes.
use vstd::prelude::*;

use crate::buf::{buf_advance, buf_byte, buf_len, bytes_mut_contents};
use crate::pest::frame::{frame_outcome, Shape, Walk};
use crate::pest::wire::{framed, CodecError};

pub mod create_policy;
pub mod delete_policy;
pub mod dial_authority;
pub mod error;
pub mod hello;
pub mod ok;
pub mod policy_result;
pub mod site_visit;
pub mod target_populations;

verus! {

/// Recognises one kind of message at the front of the received bytes and
/// reads its fields.
pub trait RawPacketDecoder {
    type Decoded;

    /// The type byte of this kind of message.
    spec fn kind() -> u8;

    /// Its fields.
    spec fn shape() -> Shape;

    /// The bytes of a message's fields.
    spec fn body(d: &Self::Decoded) -> Seq<u8>;

    /// The message at the front of `b`, which starts with this kind's type
    /// byte, with its length: `Ok(None)` while bytes are missing, an error
    /// when the message is refused. The message read is the one whose bytes
    /// those are.
    fn decode(b: &[u8]) -> (r: Result<Option<(Self::Decoded, usize)>, CodecError>)
        requires
            b@.len() > 0,
            b@[0] == Self::kind(),
        ensures
            match r {
                Ok(Some((p, n))) => frame_outcome(b@, Self::shape()) == Walk::At(n as int) && framed(
                    Self::kind(),
                    Self::body(&p),
                ) == b@.take(n as int),
                Ok(None) => frame_outcome(b@, Self::shape()) == Walk::More,
                Err(e) => frame_outcome(b@, Self::shape()) == Walk::Fail(e),
            },
    ;
}

/// A message of any kind.
#[derive(Debug, PartialEq, Eq, Clone)]
pub enum Packet {
    Hello(hello::Packet),
    Error(error::Packet),
    Okay(ok::Packet),
    DialAuthority(dial_authority::Packet),
    TargetPopulations(target_populations::Packet),
    CreatePolicy(create_policy::Packet),
    DeletePolicy(delete_policy::Packet),
    PolicyResult(policy_result::Packet),
    SiteVisit(site_visit::Packet),
}

/// The type byte of a message.
pub open spec fn kind_of(p: &Packet) -> u8 {
    match p {
        Packet::Hello(_) => hello::KIND,
        Packet::Error(_) => error::KIND,
        Packet::Okay(_) => ok::KIND,
        Packet::DialAuthority(_) => dial_authority::KIND,
        Packet::TargetPopulations(_) => target_populations::KIND,
        Packet::CreatePolicy(_) => create_policy::KIND,
        Packet::DeletePolicy(_) => delete_policy::KIND,
        Packet::PolicyResult(_) => policy_result::KIND,
        Packet::SiteVisit(_) => site_visit::KIND,
    }
}

/// The bytes of a message's fields.
pub open spec fn body_of(p: &Packet) -> Seq<u8> {
    match p {
        Packet::Hello(q) => hello::body(q),
        Packet::Error(q) => error::body(q),
        Packet::Okay(q) => ok::body(q),
        Packet::DialAuthority(q) => dial_authority::body(q),
        Packet::TargetPopulations(q) => target_populations::body(q),
        Packet::CreatePolicy(q) => create_policy::body(q),
        Packet::DeletePolicy(q) => delete_policy::body(q),
        Packet::PolicyResult(q) => policy_result::body(q),
        Packet::SiteVisit(q) => site_visit::body(q),
    }
}

/// The bytes of a message.
pub open spec fn frame_of(p: &Packet) -> Seq<u8> {
    framed(kind_of(p), body_of(p))
}

/// The fields of the messages of type `t`, if `t` is a known type.
pub open spec fn shape_of(t: u8) -> Option<Shape> {
    if t == hello::KIND {
        Some(hello::shape())
    } else if t == error::KIND {
        Some(error::shape())
    } else if t == ok::KIND {
        Some(ok::shape())
    } else if t == dial_authority::KIND {
        Some(dial_authority::shape())
    } else if t == target_populations::KIND {
        Some(target_populations::shape())
    } else if t == create_policy::KIND {
        Some(create_policy::shape())
    } else if t == delete_policy::KIND {
        Some(delete_policy::shape())
    } else if t == policy_result::KIND {
        Some(policy_result::shape())
    } else if t == site_visit::KIND {
        Some(site_visit::shape())
    } else {
        None
    }
}

/// What the front of the received bytes holds: nothing yet, a message of an
/// unknown type, or the check of a message of a known type.
#[verifier::opaque]
pub open spec fn decode_outcome(b: Seq<u8>) -> Walk {
    if b.len() == 0 {
        Walk::More
    } else {
        match shape_of(b[0]) {
            None => Walk::Fail(CodecError::UnknownPacket(b[0])),
            Some(s) => frame_outcome(b, s),
        }
    }
}

/// What a read gives back of a write: the bytes written for any message,
/// followed by anything, are recognised as one complete message of exactly
/// those bytes (so `PacketDecoder::decode` returns a message written as the
/// same bytes, and consumes just them).
pub proof fn lemma_write_then_read(p: &Packet, rest: Seq<u8>)
    requires
        body_of(p).len() + 6 <= u32::MAX,
    ensures
        decode_outcome(frame_of(p) + rest) == Walk::At(frame_of(p).len() as int),
{
    match p {
        Packet::Hello(q) => lemma_read_hello(q, rest),
        Packet::Error(q) => lemma_read_error(q, rest),
        Packet::Okay(q) => lemma_read_ok(q, rest),
        Packet::DialAuthority(q) => lemma_read_dial_authority(q, rest),
        Packet::TargetPopulations(q) => lemma_read_target_populations(q, rest),
        Packet::CreatePolicy(q) => lemma_read_create_policy(q, rest),
        Packet::DeletePolicy(q) => lemma_read_delete_policy(q, rest),
        Packet::PolicyResult(q) => lemma_read_policy_result(q, rest),
        Packet::SiteVisit(q) => lemma_read_site_visit(q, rest),
    }
}

proof fn lemma_read_hello(q: &hello::Packet, rest: Seq<u8>)
    requires
        hello::body(q).len() + 6 <= u32::MAX,
    ensures
        decode_outcome(framed(hello::KIND, hello::body(q)) + rest) == Walk::At(hello::body(q).len() + 6 as int),
        framed(hello::KIND, hello::body(q)).len() == hello::body(q).len() + 6,
{
    crate::pest::frame::lemma_close_written(hello::KIND, hello::body(q), rest);
    lemma_kind_read(framed(hello::KIND, hello::body(q)) + rest, hello::KIND, hello::shape());
    hello::lemma_written_read(q, rest);
}

proof fn lemma_read_error(q: &error::Packet, rest: Seq<u8>)
    requires
        error::body(q).len() + 6 <= u32::MAX,
    ensures
        decode_outcome(framed(error::KIND, error::body(q)) + rest) == Walk::At(error::body(q).len() + 6 as int),
        framed(error::KIND, error::body(q)).len() == error::body(q).len() + 6,
{
    crate::pest::frame::lemma_close_written(error::KIND, error::body(q), rest);
    lemma_kind_read(framed(error::KIND, error::body(q)) + rest, error::KIND, error::shape());
    error::lemma_written_read(q, rest);
}

proof fn lemma_read_ok(q: &ok::Packet, rest: Seq<u8>)
    requires
        ok::body(q).len() + 6 <= u32::MAX,
    ensures
        decode_outcome(framed(ok::KIND, ok::body(q)) + rest) == Walk::At(ok::body(q).len() + 6 as int),
        framed(ok::KIND, ok::body(q)).len() == ok::body(q).len() + 6,
{
    crate::pest::frame::lemma_close_written(ok::KIND, ok::body(q), rest);
    lemma_kind_read(framed(ok::KIND, ok::body(q)) + rest, ok::KIND, ok::shape());
    ok::lemma_written_read(q, rest);
}

proof fn lemma_read_dial_authority(q: &dial_authority::Packet, rest: Seq<u8>)
    requires
        dial_authority::body(q).len() + 6 <= u32::MAX,
    ensures
        decode_outcome(framed(dial_authority::KIND, dial_authority::body(q)) + rest) == Walk::At(dial_authority::body(q).len() + 6 as int),
        framed(dial_authority::KIND, dial_authority::body(q)).len() == dial_authority::body(q).len() + 6,
{
    crate::pest::frame::lemma_close_written(dial_authority::KIND, dial_authority::body(q), rest);
    lemma_kind_read(framed(dial_authority::KIND, dial_authority::body(q)) + rest, dial_authority::KIND, dial_authority::shape());
    dial_authority::lemma_written_read(q, rest);
}

proof fn lemma_read_target_populations(q: &target_populations::Packet, rest: Seq<u8>)
    requires
        target_populations::body(q).len() + 6 <= u32::MAX,
    ensures
        decode_outcome(framed(target_populations::KIND, target_populations::body(q)) + rest) == Walk::At(target_populations::body(q).len() + 6 as int),
        framed(target_populations::KIND, target_populations::body(q)).len() == target_populations::body(q).len() + 6,
{
    crate::pest::frame::lemma_close_written(target_populations::KIND, target_populations::body(q), rest);
    lemma_kind_read(framed(target_populations::KIND, target_populations::body(q)) + rest, target_populations::KIND, target_populations::shape());
    target_populations::lemma_written_read(q, rest);
}

proof fn lemma_read_create_policy(q: &create_policy::Packet, rest: Seq<u8>)
    requires
        create_policy::body(q).len() + 6 <= u32::MAX,
    ensures
        decode_outcome(framed(create_policy::KIND, create_policy::body(q)) + rest) == Walk::At(create_policy::body(q).len() + 6 as int),
        framed(create_policy::KIND, create_policy::body(q)).len() == create_policy::body(q).len() + 6,
{
    crate::pest::frame::lemma_close_written(create_policy::KIND, create_policy::body(q), rest);
    lemma_kind_read(framed(create_policy::KIND, create_policy::body(q)) + rest, create_policy::KIND, create_policy::shape());
    create_policy::lemma_written_read(q, rest);
}

proof fn lemma_read_delete_policy(q: &delete_policy::Packet, rest: Seq<u8>)
    requires
        delete_policy::body(q).len() + 6 <= u32::MAX,
    ensures
        decode_outcome(framed(delete_policy::KIND, delete_policy::body(q)) + rest) == Walk::At(delete_policy::body(q).len() + 6 as int),
        framed(delete_policy::KIND, delete_policy::body(q)).len() == delete_policy::body(q).len() + 6,
{
    crate::pest::frame::lemma_close_written(delete_policy::KIND, delete_policy::body(q), rest);
    lemma_kind_read(framed(delete_policy::KIND, delete_policy::body(q)) + rest, delete_policy::KIND, delete_policy::shape());
    delete_policy::lemma_written_read(q, rest);
}

proof fn lemma_read_policy_result(q: &policy_result::Packet, rest: Seq<u8>)
    requires
        policy_result::body(q).len() + 6 <= u32::MAX,
    ensures
        decode_outcome(framed(policy_result::KIND, policy_result::body(q)) + rest) == Walk::At(policy_result::body(q).len() + 6 as int),
        framed(policy_result::KIND, policy_result::body(q)).len() == policy_result::body(q).len() + 6,
{
    crate::pest::frame::lemma_close_written(policy_result::KIND, policy_result::body(q), rest);
    lemma_kind_read(framed(policy_result::KIND, policy_result::body(q)) + rest, policy_result::KIND, policy_result::shape());
    policy_result::lemma_written_read(q, rest);
}

proof fn lemma_read_site_visit(q: &site_visit::Packet, rest: Seq<u8>)
    requires
        site_visit::body(q).len() + 6 <= u32::MAX,
    ensures
        decode_outcome(framed(site_visit::KIND, site_visit::body(q)) + rest) == Walk::At(site_visit::body(q).len() + 6 as int),
        framed(site_visit::KIND, site_visit::body(q)).len() == site_visit::body(q).len() + 6,
{
    crate::pest::frame::lemma_close_written(site_visit::KIND, site_visit::body(q), rest);
    lemma_kind_read(framed(site_visit::KIND, site_visit::body(q)) + rest, site_visit::KIND, site_visit::shape());
    site_visit::lemma_written_read(q, rest);
}

/// Two messages of the same kind whose fields hold the same values,
/// strings compared by their text.
pub open spec fn same_packet(p: &Packet, q: &Packet) -> bool {
    match (p, q) {
        (Packet::Hello(a), Packet::Hello(b)) => a.protocol@ == b.protocol@ && a.version == b.version,
        (Packet::Error(a), Packet::Error(b)) => a.message@ == b.message@,
        (Packet::Okay(_), Packet::Okay(_)) => true,
        (Packet::DialAuthority(a), Packet::DialAuthority(b)) => a.site == b.site,
        (Packet::TargetPopulations(a), Packet::TargetPopulations(b)) => a.site == b.site
            && target_populations::same_populations(a.populations@, b.populations@),
        (Packet::CreatePolicy(a), Packet::CreatePolicy(b)) => a.species@ == b.species@ && a.action
            == b.action,
        (Packet::DeletePolicy(a), Packet::DeletePolicy(b)) => a.policy == b.policy,
        (Packet::PolicyResult(a), Packet::PolicyResult(b)) => a.policy == b.policy,
        (Packet::SiteVisit(a), Packet::SiteVisit(b)) => a.site == b.site
            && site_visit::same_populations(a.populations@, b.populations@),
        _ => false,
    }
}

/// The bytes of a message determine it: two messages written as the same
/// bytes are the same message.
pub proof fn lemma_bytes_determine_packet(p: &Packet, q: &Packet)
    requires
        frame_of(p) == frame_of(q),
        body_of(p).len() + 6 <= u32::MAX,
    ensures
        same_packet(p, q),
{
    crate::pest::wire::lemma_framed_prefix(kind_of(p), body_of(p), kind_of(q), body_of(q));
    match (p, q) {
        (Packet::Hello(a), Packet::Hello(b)) => hello::lemma_body_injective(a, b),
        (Packet::Error(a), Packet::Error(b)) => error::lemma_body_injective(a, b),
        (Packet::Okay(a), Packet::Okay(b)) => ok::lemma_body_injective(a, b),
        (Packet::DialAuthority(a), Packet::DialAuthority(b)) => dial_authority::lemma_body_injective(a, b),
        (Packet::TargetPopulations(a), Packet::TargetPopulations(b)) => target_populations::lemma_body_injective(a, b),
        (Packet::CreatePolicy(a), Packet::CreatePolicy(b)) => create_policy::lemma_body_injective(a, b),
        (Packet::DeletePolicy(a), Packet::DeletePolicy(b)) => delete_policy::lemma_body_injective(a, b),
        (Packet::PolicyResult(a), Packet::PolicyResult(b)) => policy_result::lemma_body_injective(a, b),
        (Packet::SiteVisit(a), Packet::SiteVisit(b)) => site_visit::lemma_body_injective(a, b),
        _ => {},
    }
}

/// What a read gives back of a write: when the bytes written for `p`,
/// followed by anything, are read, the message recognised (`q`, with the
/// bytes that `PacketDecoder::decode` promises of it) is `p`, and exactly
/// its bytes are consumed.
pub proof fn lemma_read_back(p: &Packet, q: &Packet, rest: Seq<u8>)
    requires
        body_of(p).len() + 6 <= u32::MAX,
        decode_outcome(frame_of(p) + rest) == Walk::At(frame_of(q).len() as int),
        (frame_of(p) + rest).take(frame_of(q).len() as int) == frame_of(q),
    ensures
        same_packet(p, q),
        frame_of(q).len() == frame_of(p).len(),
{
    lemma_write_then_read(p, rest);
    assert((frame_of(p) + rest).take(frame_of(p).len() as int) =~= frame_of(p));
    lemma_bytes_determine_packet(p, q);
}

/// Bytes that start with the type byte of a known kind are checked against
/// that kind's fields.
proof fn lemma_kind_read(b: Seq<u8>, t: u8, s: Shape)
    requires
        b.len() > 0,
        b[0] == t,
        shape_of(t) == Some(s),
    ensures
        decode_outcome(b) == frame_outcome(b, s),
{
    reveal(decode_outcome);
}

impl Packet {
    /// The message's bytes.
    pub fn write_packet(&self) -> (r: Vec<u8>)
        requires
            body_of(self).len() + 6 <= u32::MAX,
        ensures
            r@ == frame_of(self),
    {
        match self {
            Packet::Hello(q) => q.write_packet(),
            Packet::Error(q) => q.write_packet(),
            Packet::Okay(q) => q.write_packet(),
            Packet::DialAuthority(q) => q.write_packet(),
            Packet::TargetPopulations(q) => q.write_packet(),
            Packet::CreatePolicy(q) => q.write_packet(),
            Packet::DeletePolicy(q) => q.write_packet(),
            Packet::PolicyResult(q) => q.write_packet(),
            Packet::SiteVisit(q) => q.write_packet(),
        }
    }
}

/// Reads messages of every kind from the received bytes.
pub struct PacketDecoder;

/// The bytes of a buffer, copied.
fn buffer_bytes(src: &bytes::BytesMut) -> (r: Vec<u8>)
    ensures
        r@ == bytes_mut_contents(*src),
{
    let n = buf_len(src);
    let mut r: Vec<u8> = Vec::new();
    let mut i: usize = 0;
    while i < n
        invariant
            n == bytes_mut_contents(*src).len(),
            i <= n,
            r@ == bytes_mut_contents(*src).take(i as int),
        decreases n - i,
    {
        r.push(buf_byte(src, i));
        assert(bytes_mut_contents(*src).take(i + 1) =~= bytes_mut_contents(*src).take(i as int).push(
            bytes_mut_contents(*src)[i as int],
        ));
        i += 1;
    }
    assert(bytes_mut_contents(*src).take(n as int) =~= bytes_mut_contents(*src));
    r
}

/// Consumes a recognised message from the front of the buffer.
fn take_front(src: &mut bytes::BytesMut, n: usize, p: Packet) -> (r: Result<Option<Packet>, CodecError>)
    requires
        n <= bytes_mut_contents(*old(src)).len(),
    ensures
        bytes_mut_contents(*final(src)) == bytes_mut_contents(*old(src)).skip(n as int),
        r == Ok::<Option<Packet>, CodecError>(Some(p)),
{
    buf_advance(src, n);
    Ok(Some(p))
}

impl Default for PacketDecoder {
    /// The decoder, as `new` makes it.
    fn default() -> (r: PacketDecoder)
        ensures
            r == PacketDecoder,
    {
        PacketDecoder::new()
    }
}

impl PacketDecoder {
    pub fn new() -> (r: PacketDecoder)
        ensures
            r == PacketDecoder,
    {
        PacketDecoder
    }

    /// The message at the front of `src`, which it consumes: `Ok(None)`
    /// while bytes are missing, an error for a message refused or of an
    /// unknown type. Nothing is consumed unless a message is returned.
    pub fn decode(&mut self, src: &mut bytes::BytesMut) -> (r: Result<Option<Packet>, CodecError>)
        ensures
            match r {
                Ok(Some(p)) => decode_outcome(bytes_mut_contents(*old(src))) == Walk::At(frame_of(&p).len() as int)
                    && bytes_mut_contents(*old(src)).take(frame_of(&p).len() as int) == frame_of(&p)
                    && bytes_mut_contents(*final(src)) == bytes_mut_contents(*old(src)).skip(frame_of(&p).len() as int),
                Ok(None) => decode_outcome(bytes_mut_contents(*old(src))) == Walk::More
                    && bytes_mut_contents(*final(src)) == bytes_mut_contents(*old(src)),
                Err(e) => decode_outcome(bytes_mut_contents(*old(src))) == Walk::Fail(e)
                    && bytes_mut_contents(*final(src)) == bytes_mut_contents(*old(src)),
            },
    {
        reveal(decode_outcome);
        let b = buffer_bytes(src);
        if b.len() == 0 {
            return Ok(None);
        }
        let t = b[0];
        if t == hello::KIND {
            match hello::PacketDecoder::decode(b.as_slice()) {
                Ok(Some((p, n))) => take_front(src, n, Packet::Hello(p)),
                Ok(None) => Ok(None),
                Err(e) => Err(e),
            }
        } else if t == error::KIND {
            match error::PacketDecoder::decode(b.as_slice()) {
                Ok(Some((p, n))) => take_front(src, n, Packet::Error(p)),
                Ok(None) => Ok(None),
                Err(e) => Err(e),
            }
        } else if t == ok::KIND {
            match ok::PacketDecoder::decode(b.as_slice()) {
                Ok(Some((p, n))) => take_front(src, n, Packet::Okay(p)),
                Ok(None) => Ok(None),
                Err(e) => Err(e),
            }
        } else if t == dial_authority::KIND {
            match dial_authority::PacketDecoder::decode(b.as_slice()) {
                Ok(Some((p, n))) => take_front(src, n, Packet::DialAuthority(p)),
                Ok(None) => Ok(None),
                Err(e) => Err(e),
            }
        } else if t == target_populations::KIND {
            match target_populations::PacketDecoder::decode(b.as_slice()) {
                Ok(Some((p, n))) => take_front(src, n, Packet::TargetPopulations(p)),
                Ok(None) => Ok(None),
                Err(e) => Err(e),
            }
        } else if t == create_policy::KIND {
            match create_policy::PacketDecoder::decode(b.as_slice()) {
                Ok(Some((p, n))) => take_front(src, n, Packet::CreatePolicy(p)),
                Ok(None) => Ok(None),
                Err(e) => Err(e),
            }
        } else if t == delete_policy::KIND {
            match delete_policy::PacketDecoder::decode(b.as_slice()) {
                Ok(Some((p, n))) => take_front(src, n, Packet::DeletePolicy(p)),
                Ok(None) => Ok(None),
                Err(e) => Err(e),
            }
        } else if t == policy_result::KIND {
            match policy_result::PacketDecoder::decode(b.as_slice()) {
                Ok(Some((p, n))) => take_front(src, n, Packet::PolicyResult(p)),
                Ok(None) => Ok(None),
                Err(e) => Err(e),
            }
        } else if t == site_visit::KIND {
            match site_visit::PacketDecoder::decode(b.as_slice()) {
                Ok(Some((p, n))) => take_front(src, n, Packet::SiteVisit(p)),
                Ok(None) => Ok(None),
                Err(e) => Err(e),
            }
        } else {
            Err(CodecError::UnknownPacket(t))
        }
    }
}

} // verus!

//! Recognising one message at the front of the received bytes. The fields
//! are checked in order against the declared length: a field that would
//! end past it makes the message invalid, a field not yet received asks
//! for more bytes. A message is complete when its checksum byte ends
//! exactly at the declared length and all its bytes sum to zero.
use vstd::prelude::*;
use vstd::utf8::{encode_utf8, valid_utf8};

use crate::endian::{be32, get_be32, lemma_be32_bytes, lemma_be32_roundtrip, read_be32};
use crate::pest::wire::{byte_sum, checksum_for, framed, lemma_framed_sum, str_field, CodecError};
use crate::text::utf8_text;

verus! {

/// The kind of one field.
pub ghost enum Field {
    U8,
    U32,
    Str,
    /// A policy action: one byte, `0x90` or `0xa0`.
    Action,
}

/// Where the check of a message stands.
pub ghost enum Walk {
    /// Checked up to this position.
    At(int),
    /// More bytes are needed.
    More,
    /// The message is refused.
    Fail(CodecError),
}

/// Checks one field at `cur`, in a message declared `len` bytes long.
/// A number needs one byte more than its own to have been received, as a
/// string does past its bytes.
pub open spec fn walk_field(b: Seq<u8>, f: Field, cur: int, len: int) -> Walk {
    match f {
        Field::U8 => if cur + 1 > len {
            Walk::Fail(CodecError::InvalidPacket)
        } else if b.len() > cur {
            Walk::At(cur + 1)
        } else {
            Walk::More
        },
        Field::Action => if cur + 1 > len {
            Walk::Fail(CodecError::InvalidPacket)
        } else if b.len() > cur {
            if b[cur] == 0x90 || b[cur] == 0xa0 {
                Walk::At(cur + 1)
            } else {
                Walk::Fail(CodecError::InvalidPacket)
            }
        } else {
            Walk::More
        },
        Field::U32 => if cur + 4 > len {
            Walk::Fail(CodecError::InvalidPacket)
        } else if b.len() > cur + 4 {
            Walk::At(cur + 4)
        } else {
            Walk::More
        },
        Field::Str => if cur + 4 > len {
            Walk::Fail(CodecError::InvalidPacket)
        } else if b.len() <= cur + 4 {
            Walk::More
        } else {
            let n = read_be32(b, cur) as int;
            if cur + 4 + n > len {
                Walk::Fail(CodecError::InvalidPacket)
            } else if b.len() <= cur + 4 + n {
                Walk::More
            } else if !valid_utf8(b.subrange(cur + 4, cur + 4 + n)) {
                Walk::Fail(CodecError::InvalidPacket)
            } else {
                Walk::At(cur + 4 + n)
            }
        },
    }
}

/// Checks the fields `fs` one after the other.
pub open spec fn walk_fields(b: Seq<u8>, fs: Seq<Field>, cur: int, len: int) -> Walk
    decreases fs.len(),
{
    if fs.len() == 0 {
        Walk::At(cur)
    } else {
        match walk_field(b, fs[0], cur, len) {
            Walk::At(c) => walk_fields(b, fs.drop_first(), c, len),
            w => w,
        }
    }
}

/// Checks `n` elements, each made of the fields `fs`.
pub open spec fn walk_repeat(b: Seq<u8>, fs: Seq<Field>, n: nat, cur: int, len: int) -> Walk
    decreases n,
{
    if n == 0 {
        Walk::At(cur)
    } else {
        match walk_fields(b, fs, cur, len) {
            Walk::At(c) => walk_repeat(b, fs, (n - 1) as nat, c, len),
            w => w,
        }
    }
}

/// The fields of a message: some fields, then possibly an array, given as
/// a `u32` count and that many elements.
pub ghost struct Shape {
    pub head: Seq<Field>,
    pub each: Option<Seq<Field>>,
}

/// Checks the fields of a message, from position 5.
pub open spec fn walk_body(b: Seq<u8>, s: Shape, len: int) -> Walk {
    match walk_fields(b, s.head, 5, len) {
        Walk::At(c) => match s.each {
            None => Walk::At(c),
            Some(e) => match walk_field(b, Field::U32, c, len) {
                Walk::At(c2) => walk_repeat(b, e, read_be32(b, c) as nat, c2, len),
                w => w,
            },
        },
        w => w,
    }
}

/// The first `n` bytes, or all of them when there are fewer.
pub open spec fn prefix(b: Seq<u8>, n: int) -> Seq<u8> {
    if n <= b.len() {
        b.take(n)
    } else {
        b
    }
}

/// Checks the checksum byte at `c`: the bytes must sum to zero, and the
/// byte must end the message.
pub open spec fn walk_close(b: Seq<u8>, c: int, len: int) -> Walk {
    match walk_field(b, Field::U8, c, len) {
        Walk::At(c2) => if byte_sum(prefix(b, len)) != 0 {
            Walk::Fail(CodecError::InvalidChecksum)
        } else if len != c2 {
            Walk::Fail(CodecError::InvalidPacket)
        } else {
            Walk::At(len)
        },
        w => w,
    }
}

/// Checks the message of shape `s` at the front of `b`: `At(n)` when its
/// `n` bytes are complete and valid.
pub open spec fn frame_outcome(b: Seq<u8>, s: Shape) -> Walk {
    if b.len() <= 5 {
        Walk::More
    } else {
        let len = read_be32(b, 1) as int;
        match walk_body(b, s, len) {
            Walk::At(c) => walk_close(b, c, len),
            w => w,
        }
    }
}

/// What a check that reads a value of type `T` found, as a `Walk`.
pub open spec fn as_walk<T>(r: Result<Option<(u64, T)>, CodecError>) -> Walk {
    match r {
        Ok(Some((c, _))) => Walk::At(c as int),
        Ok(None) => Walk::More,
        Err(e) => Walk::Fail(e),
    }
}

/// Reads a byte.
pub fn step_u8(b: &[u8], cur: u64, len: u64) -> (r: Result<Option<(u64, u8)>, CodecError>)
    requires
        len <= u32::MAX,
        cur <= len + 5,
    ensures
        as_walk(r) == walk_field(b@, Field::U8, cur as int, len as int),
        r matches Ok(Some((c, v))) ==> c == cur + 1 && v == b@[cur as int] && c <= len,
{
    if cur + 1 > len {
        return Err(CodecError::InvalidPacket);
    }
    if (b.len() as u64) > cur {
        Ok(Some((cur + 1, b[cur as usize])))
    } else {
        Ok(None)
    }
}

/// Reads a policy action byte.
pub fn step_action(b: &[u8], cur: u64, len: u64) -> (r: Result<Option<(u64, u8)>, CodecError>)
    requires
        len <= u32::MAX,
        cur <= len + 5,
    ensures
        as_walk(r) == walk_field(b@, Field::Action, cur as int, len as int),
        r matches Ok(Some((c, v))) ==> c == cur + 1 && v == b@[cur as int] && c <= len,
{
    match step_u8(b, cur, len) {
        Ok(Some((c, v))) => {
            if v == 0x90 || v == 0xa0 {
                Ok(Some((c, v)))
            } else {
                Err(CodecError::InvalidPacket)
            }
        },
        other => other,
    }
}

/// Reads a big-endian `u32`.
pub fn step_u32(b: &[u8], cur: u64, len: u64) -> (r: Result<Option<(u64, u32)>, CodecError>)
    requires
        len <= u32::MAX,
        cur <= len + 5,
    ensures
        as_walk(r) == walk_field(b@, Field::U32, cur as int, len as int),
        r matches Ok(Some((c, v))) ==> c == cur + 4 && c <= len && v == read_be32(b@, cur as int)
            && b@.subrange(cur as int, c as int) == be32(v),
{
    if cur + 4 > len {
        return Err(CodecError::InvalidPacket);
    }
    if (b.len() as u64) > cur + 4 {
        let v = get_be32(b, cur as usize);
        proof {
            lemma_be32_bytes(b@, cur as int);
        }
        Ok(Some((cur + 4, v)))
    } else {
        Ok(None)
    }
}

/// Reads a string: its `u32` length and its UTF-8 bytes.
pub fn step_str(b: &[u8], cur: u64, len: u64) -> (r: Result<Option<(u64, String)>, CodecError>)
    requires
        len <= u32::MAX,
        cur <= len + 5,
    ensures
        as_walk(r) == walk_field(b@, Field::Str, cur as int, len as int),
        r matches Ok(Some((c, s))) ==> c <= len && cur < c && b@.subrange(cur as int, c as int)
            == str_field(s@),
{
    if cur + 4 > len {
        return Err(CodecError::InvalidPacket);
    }
    if (b.len() as u64) <= cur + 4 {
        return Ok(None);
    }
    let n = get_be32(b, cur as usize) as u64;
    let start = cur + 4;
    if start + n > len {
        return Err(CodecError::InvalidPacket);
    }
    if (b.len() as u64) <= start + n {
        return Ok(None);
    }
    let piece = vstd::slice::slice_subrange(b, start as usize, (start + n) as usize);
    match utf8_text(piece) {
        Some(s) => {
            proof {
                lemma_be32_bytes(b@, cur as int);
                assert(encode_utf8(s@).len() == n);
                assert(b@.subrange(cur as int, (start + n) as int) =~= b@.subrange(
                    cur as int,
                    cur + 4,
                ) + b@.subrange(start as int, (start + n) as int));
            }
            Ok(Some((start + n, s)))
        },
        None => Err(CodecError::InvalidPacket),
    }
}

/// The position just after a message's length field, and the length it
/// declares; `None` when those bytes have not all been received.
pub fn open_frame(b: &[u8]) -> (r: Option<u64>)
    ensures
        match r {
            Some(len) => b@.len() > 5 && len == read_be32(b@, 1) && len <= u32::MAX,
            None => b@.len() <= 5,
        },
{
    if b.len() <= 5 {
        None
    } else {
        Some(get_be32(b, 1) as u64)
    }
}

/// The sum of the first `n` bytes, or of all when there are fewer.
fn prefix_sum(b: &[u8], n: u64) -> (r: u8)
    ensures
        r == byte_sum(prefix(b@, n as int)),
{
    let m: usize = if n <= b.len() as u64 {
        n as usize
    } else {
        b.len()
    };
    let ghost p = prefix(b@, n as int);
    assert(p =~= b@.take(m as int));
    let mut sum: u8 = 0;
    let mut i: usize = 0;
    while i < m
        invariant
            m <= b@.len(),
            p == b@.take(m as int),
            i <= m,
            sum == byte_sum(p.take(i as int)),
        decreases m - i,
    {
        assert(p.take(i + 1).drop_last() =~= p.take(i as int));
        sum = sum.wrapping_add(b[i]);
        i += 1;
    }
    assert(p.take(m as int) =~= p);
    sum
}

/// Checks the checksum byte at `c` and the end of the message; gives the
/// message's length.
pub fn close_frame(b: &[u8], c: u64, len: u64) -> (r: Result<Option<u64>, CodecError>)
    requires
        len <= u32::MAX,
        c <= len + 5,
    ensures
        match r {
            Ok(Some(n)) => walk_close(b@, c as int, len as int) == Walk::At(n as int) && n == len
                && n <= b@.len(),
            Ok(None) => walk_close(b@, c as int, len as int) == Walk::More,
            Err(e) => walk_close(b@, c as int, len as int) == Walk::Fail(e),
        },
{
    match step_u8(b, c, len) {
        Ok(Some((c2, _))) => {
            if prefix_sum(b, len) != 0 {
                Err(CodecError::InvalidChecksum)
            } else if len != c2 {
                Err(CodecError::InvalidPacket)
            } else {
                Ok(Some(len))
            }
        },
        Ok(None) => Ok(None),
        Err(e) => Err(e),
    }
}

/// A complete message is its type, its length, its fields and the byte that
/// makes it sum to zero.
pub proof fn lemma_frame(b: Seq<u8>, body: Seq<u8>, len: int)
    requires
        6 <= len <= b.len(),
        len == read_be32(b, 1),
        b.subrange(5, len - 1) == body,
        len == body.len() + 6,
        byte_sum(b.take(len)) == 0,
    ensures
        framed(b[0], body) == b.take(len),
{
    let pre = seq![b[0]] + be32((body.len() + 6) as u32) + body;
    lemma_be32_bytes(b, 1);
    assert(b.take(len - 1) =~= pre);
    assert(b.take(len).drop_last() =~= b.take(len - 1));
    assert(b.take(len) =~= pre.push(b[len - 1]));
}

/// A `u32` written at `cur`, followed by more of the message, is read back.
pub proof fn lemma_walk_written_u32(b: Seq<u8>, cur: int, len: int, v: u32)
    requires
        0 <= cur,
        cur + 4 < len <= b.len(),
        b.subrange(cur, cur + 4) == be32(v),
    ensures
        walk_field(b, Field::U32, cur, len) == Walk::At(cur + 4),
        read_be32(b, cur) == v,
{
    assert(b =~= b.take(cur) + be32(v) + b.skip(cur + 4));
    lemma_be32_roundtrip(v, b.skip(cur + 4), b.take(cur));
}

/// A string written at `cur`, followed by more of the message, is read back.
pub proof fn lemma_walk_written_str(b: Seq<u8>, cur: int, len: int, s: Seq<char>)
    requires
        0 <= cur,
        encode_utf8(s).len() <= u32::MAX,
        cur + str_field(s).len() < len <= b.len(),
        b.subrange(cur, cur + str_field(s).len()) == str_field(s),
    ensures
        walk_field(b, Field::Str, cur, len) == Walk::At(cur + str_field(s).len()),
{
    let n = encode_utf8(s).len() as int;
    assert(b.subrange(cur, cur + 4) =~= str_field(s).take(4));
    assert(str_field(s).take(4) =~= be32(n as u32));
    lemma_walk_written_u32(b, cur, len, n as u32);
    assert(str_field(s).subrange(4, 4 + n) =~= encode_utf8(s));
    assert(b.subrange(cur + 4, cur + 4 + n) =~= b.subrange(cur, cur + 4 + n).subrange(4, 4 + n));
    assert(b.subrange(cur + 4, cur + 4 + n) =~= encode_utf8(s));
    vstd::utf8::encode_utf8_valid_utf8(s);
}

/// The bytes of a message, followed by anything, are one complete message
/// once its fields have been checked up to its checksum byte.
pub proof fn lemma_close_written(t: u8, body: Seq<u8>, rest: Seq<u8>)
    requires
        body.len() + 6 <= u32::MAX,
    ensures
        walk_close(framed(t, body) + rest, body.len() + 5 as int, body.len() + 6 as int) == Walk::At(body.len() + 6 as int),
        read_be32(framed(t, body) + rest, 1) == body.len() + 6,
        (framed(t, body) + rest).len() > 5,
        framed(t, body).len() == body.len() + 6,
        (framed(t, body) + rest).subrange(5, body.len() + 5 as int) == body,
        (framed(t, body) + rest)[0] == t,
{
    let f = framed(t, body);
    let b = f + rest;
    let len = body.len() + 6 as int;
    let pre = seq![t] + be32(len as u32) + body;
    assert(f.len() == len);
    assert(b =~= seq![t] + be32(len as u32) + (body.push(checksum_for(pre)) + rest));
    lemma_be32_roundtrip(len as u32, body.push(checksum_for(pre)) + rest, seq![t]);
    lemma_framed_sum(t, body);
    assert(prefix(b, len) =~= f);
    assert(b.subrange(5, body.len() + 5 as int) =~= body);
}

/// The bytes written for a message, followed by anything, are one complete
/// message when its fields check up to its checksum byte.
pub proof fn lemma_written_outcome(t: u8, body: Seq<u8>, rest: Seq<u8>, s: Shape)
    requires
        body.len() + 6 <= u32::MAX,
        walk_body(framed(t, body) + rest, s, body.len() + 6 as int) == Walk::At(body.len() + 5 as int),
    ensures
        frame_outcome(framed(t, body) + rest, s) == Walk::At(body.len() + 6 as int),
{
    lemma_close_written(t, body, rest);
}

} // verus!

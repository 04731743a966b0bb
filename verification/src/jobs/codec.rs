//! Framing of the job centre's protocol: one JSON document per line, lines
//! bounded in length, and the requests and responses read from the fields
//! of those documents.
use vstd::prelude::*;

use crate::buf::{buf_advance, buf_byte, buf_extend, buf_len, buf_put_u8, bytes_mut_contents};

verus! {

/// The first '\n' of `b` at or after `i` and before `to`.
pub open spec fn find_newline(b: Seq<u8>, i: int, to: int) -> Option<int>
    decreases to - i,
{
    if i >= to || i >= b.len() || i < 0 {
        None
    } else if b[i] == 10 {
        Some(i)
    } else {
        find_newline(b, i + 1, to)
    }
}

/// The bytes of a buffer that a line search reads: one more than the
/// longest line, or all of them.
pub open spec fn read_limit(max_length: usize, len: int) -> int {
    let limit = if max_length == usize::MAX {
        usize::MAX as int
    } else {
        max_length + 1
    };
    if limit < len {
        limit
    } else {
        len
    }
}

/// What one read of lines does: the line found, if any, or the overflow of
/// the length limit, with the state and the buffer after.
pub ghost struct FrameOutcome {
    pub result: Result<Option<Seq<u8>>, ()>,
    pub next_index: int,
    pub discarding: bool,
    pub rest: Seq<u8>,
}

/// Reading a line: past the remainder of an overlong line first, then up
/// to the next '\n' within the limit.
pub open spec fn frame(max_length: usize, next_index: int, discarding: bool, b: Seq<u8>) -> FrameOutcome
    decreases b.len(),
{
    let to = read_limit(max_length, b.len() as int);
    match find_newline(b, next_index, to) {
        Some(p) => if !discarding {
            FrameOutcome {
                result: Ok(Some(b.take(p))),
                next_index: 0,
                discarding: false,
                rest: b.skip(p + 1),
            }
        } else if 0 <= p < b.len() {
            frame(max_length, 0, false, b.skip(p + 1))
        } else {
            FrameOutcome { result: Ok(None), next_index: 0, discarding: false, rest: b }
        },
        None => if discarding {
            if 0 < to <= b.len() && b.len() - to > 0 {
                frame(max_length, 0, true, b.skip(to))
            } else {
                FrameOutcome { result: Ok(None), next_index: 0, discarding: true, rest: b.skip(to) }
            }
        } else if b.len() > max_length {
            FrameOutcome { result: Err(()), next_index, discarding: true, rest: b }
        } else {
            FrameOutcome { result: Ok(None), next_index: to, discarding: false, rest: b }
        },
    }
}

proof fn lemma_find_newline(b: Seq<u8>, i: int, to: int)
    requires
        0 <= i,
    ensures
        match find_newline(b, i, to) {
            Some(p) => i <= p < to && p < b.len() && b[p] == 10 && forall|k: int|
                i <= k < p ==> b[k] != 10,
            None => forall|k: int| i <= k < to && 0 <= k < b.len() ==> b[k] != 10,
        },
    decreases to - i,
{
    if !(i >= to || i >= b.len() || i < 0) && b[i] != 10 {
        lemma_find_newline(b, i + 1, to);
    }
}

#[derive(Debug, PartialEq, Eq, Clone, Copy, Structural)]
pub enum FrameError {
    /// A line longer than the limit.
    MaxLineLengthExceeded,
}

/// Where the first '\n' between `from` and `to` stands.
fn find_line_end(src: &bytes::BytesMut, from: usize, to: usize) -> (r: Option<usize>)
    requires
        from <= to <= bytes_mut_contents(*src).len(),
    ensures
        r == (match find_newline(bytes_mut_contents(*src), from as int, to as int) {
            Some(p) => Some(p as usize),
            None => None::<usize>,
        }),
        r matches Some(p) ==> from <= p < to,
{
    let ghost b = bytes_mut_contents(*src);
    let mut i = from;
    while i < to
        invariant
            from <= i <= to,
            to <= b.len(),
            b == bytes_mut_contents(*src),
            find_newline(b, from as int, to as int) == find_newline(b, i as int, to as int),
        decreases to - i,
    {
        if buf_byte(src, i) == 10 {
            return Some(i);
        }
        i += 1;
    }
    None
}

/// Takes the first `n` bytes of `src`, and the '\n' after them.
fn take_front(src: &mut bytes::BytesMut, n: usize) -> (r: Vec<u8>)
    requires
        n < bytes_mut_contents(*old(src)).len(),
    ensures
        r@ == bytes_mut_contents(*old(src)).take(n as int),
        bytes_mut_contents(*final(src)) == bytes_mut_contents(*old(src)).skip(n + 1),
{
    let ghost b = bytes_mut_contents(*src);
    let total = buf_len(src);
    let mut line: Vec<u8> = Vec::new();
    let mut k: usize = 0;
    while k < n
        invariant
            k <= n,
            n < b.len(),
            b == bytes_mut_contents(*src),
            line@ == b.take(k as int),
        decreases n - k,
    {
        line.push(buf_byte(src, k));
        assert(b.take(k + 1) =~= b.take(k as int).push(b[k as int]));
        k += 1;
    }
    buf_advance(src, n + 1);
    line
}

/// The line framing of requests.
pub struct RequestCodec {
    /// The longest line accepted.
    max_length: usize,
    /// Where the search for '\n' resumes.
    next_index: usize,
    /// The remainder of an overlong line is being dropped.
    is_discarding: bool,
}

impl Default for RequestCodec {
    /// A codec with no line limit, as `new` makes it.
    fn default() -> (r: RequestCodec)
        ensures
            r.max() == usize::MAX,
            r.next() == 0,
            !r.discarding(),
    {
        RequestCodec::new()
    }
}

impl RequestCodec {
    pub closed spec fn max(&self) -> usize {
        self.max_length
    }

    pub closed spec fn next(&self) -> int {
        self.next_index as int
    }

    pub closed spec fn discarding(&self) -> bool {
        self.is_discarding
    }

    /// A codec without a length limit.
    pub fn new() -> (r: RequestCodec)
        ensures
            r.max() == usize::MAX,
            r.next() == 0,
            !r.discarding(),
    {
        RequestCodec { max_length: usize::MAX, next_index: 0, is_discarding: false }
    }

    /// A codec that refuses lines longer than `max_length`.
    pub fn new_with_max_length(max_length: usize) -> (r: RequestCodec)
        ensures
            r.max() == max_length,
            r.next() == 0,
            !r.discarding(),
    {
        RequestCodec { max_length, next_index: 0, is_discarding: false }
    }

    pub fn max_length(&self) -> (r: usize)
        ensures
            r == self.max(),
    {
        self.max_length
    }

    /// Takes the next complete line out of `src`, without its '\n'; none
    /// while the line is incomplete. A line longer than the limit is an
    /// error, and the rest of it is dropped as it comes.
    pub fn next_line(&mut self, src: &mut bytes::BytesMut) -> (r: Result<Option<Vec<u8>>, FrameError>)
        requires
            old(self).next() <= read_limit(old(self).max(), bytes_mut_contents(*old(src)).len() as int),
        ensures
            ({
                let o = frame(
                    old(self).max(),
                    old(self).next(),
                    old(self).discarding(),
                    bytes_mut_contents(*old(src)),
                );
                &&& match o.result {
                    Ok(Some(line)) => r matches Ok(Some(v)) && v@ == line,
                    Ok(None) => r matches Ok(None),
                    Err(_) => r == Err::<Option<Vec<u8>>, FrameError>(
                        FrameError::MaxLineLengthExceeded,
                    ),
                }
                &&& final(self).next() == o.next_index
                &&& final(self).discarding() == o.discarding
                &&& bytes_mut_contents(*final(src)) == o.rest
                &&& final(self).max() == old(self).max()
            }),
    {
        let ghost target = frame(
            old(self).max(),
            old(self).next(),
            old(self).discarding(),
            bytes_mut_contents(*old(src)),
        );
        loop
            invariant
                target == frame(
                    old(self).max(),
                    old(self).next(),
                    old(self).discarding(),
                    bytes_mut_contents(*old(src)),
                ),
                self.max_length == old(self).max_length,
                self.next_index <= read_limit(self.max_length, bytes_mut_contents(*src).len() as int),
                frame(
                    self.max_length,
                    self.next_index as int,
                    self.is_discarding,
                    bytes_mut_contents(*src),
                ) == target,
            decreases bytes_mut_contents(*src).len(),
        {
            let ghost b = bytes_mut_contents(*src);
            let len = buf_len(src);
            let limit = if self.max_length == usize::MAX {
                usize::MAX
            } else {
                self.max_length + 1
            };
            let read_to = if limit < len {
                limit
            } else {
                len
            };
            assert(read_to == read_limit(self.max_length, b.len() as int));
            let found = find_line_end(src, self.next_index, read_to);
            proof {
                lemma_find_newline(b, self.next_index as int, read_to as int);
            }
            match found {
                Some(p) => {
                    if self.is_discarding {
                        buf_advance(src, p + 1);
                        self.is_discarding = false;
                        self.next_index = 0;
                    } else {
                        proof {
                            lemma_find_newline(b, self.next_index as int, read_to as int);
                        }
                        let ghost ni = self.next_index as int;
                        assert(find_newline(b, ni, read_to as int) == Some(p as int));
                        assert(frame(self.max_length, ni, false, b).result == Ok::<Option<Seq<u8>>, ()>(Some(b.take(p as int))));
                        let line = take_front(src, p);
                        self.next_index = 0;
                        return Ok(Some(line));
                    }
                },
                None => {
                    if self.is_discarding {
                        buf_advance(src, read_to);
                        self.next_index = 0;
                        if buf_len(src) == 0 {
                            return Ok(None);
                        }
                    } else if len > self.max_length {
                        self.is_discarding = true;
                        return Err(FrameError::MaxLineLengthExceeded);
                    } else {
                        self.next_index = read_to;
                        return Ok(None);
                    }
                },
            }
        }
    }

    /// Frames an encoded request: its bytes and a '\n', unless they are
    /// longer than the limit.
    pub fn frame_encoded(&self, data: &[u8], dst: &mut bytes::BytesMut) -> (r: Result<(), FrameError>)
        requires
            bytes_mut_contents(*old(dst)).len() + data@.len() + 1 <= isize::MAX,
        ensures
            data@.len() > self.max() ==> r is Err && bytes_mut_contents(*final(dst))
                == bytes_mut_contents(*old(dst)),
            data@.len() <= self.max() ==> r is Ok && bytes_mut_contents(*final(dst))
                == bytes_mut_contents(*old(dst)) + data@ + seq![10u8],
    {
        if data.len() > self.max_length {
            return Err(FrameError::MaxLineLengthExceeded);
        }
        buf_extend(dst, data);
        buf_put_u8(dst, 10);
        Ok(())
    }
}

/// The line framing of responses, without a length limit.
pub struct ResponseCodec {
    next_index: usize,
}

impl Default for ResponseCodec {
    /// A codec at the start of its input, as `new` makes it.
    fn default() -> (r: ResponseCodec)
        ensures
            r.next() == 0,
    {
        ResponseCodec::new()
    }
}

impl ResponseCodec {
    pub closed spec fn next(&self) -> int {
        self.next_index as int
    }

    pub fn new() -> (r: ResponseCodec)
        ensures
            r.next() == 0,
    {
        ResponseCodec { next_index: 0 }
    }

    /// Takes the next complete line out of `src`, without its '\n'.
    pub fn next_line(&mut self, src: &mut bytes::BytesMut) -> (r: Option<Vec<u8>>)
        requires
            old(self).next() <= bytes_mut_contents(*old(src)).len(),
        ensures
            ({
                let b = bytes_mut_contents(*old(src));
                match find_newline(b, old(self).next(), b.len() as int) {
                    Some(p) => r matches Some(v) && v@ == b.take(p) && bytes_mut_contents(*final(src))
                        == b.skip(p + 1) && final(self).next() == 0,
                    None => r is None && bytes_mut_contents(*final(src)) == b && final(self).next()
                        == b.len(),
                }
            }),
    {
        let len = buf_len(src);
        proof {
            lemma_find_newline(bytes_mut_contents(*src), self.next_index as int, len as int);
        }
        match find_line_end(src, self.next_index, len) {
            Some(p) => {
                let line = take_front(src, p);
                self.next_index = 0;
                Some(line)
            },
            None => {
                self.next_index = len;
                None
            },
        }
    }

    /// Frames an encoded response: its bytes and a '\n'.
    pub fn frame_encoded(&self, data: &[u8], dst: &mut bytes::BytesMut)
        requires
            bytes_mut_contents(*old(dst)).len() + data@.len() + 1 <= isize::MAX,
        ensures
            bytes_mut_contents(*final(dst)) == bytes_mut_contents(*old(dst)) + data@ + seq![10u8],
    {
        buf_extend(dst, data);
        buf_put_u8(dst, 10);
    }
}

proof fn lemma_find_newline_at(b: Seq<u8>, i: int, p: int, to: int)
    requires
        0 <= i <= p < to,
        p < b.len(),
        b[p] == 10,
        forall|k: int| i <= k < p ==> b[k] != 10,
    ensures
        find_newline(b, i, to) == Some(p),
    decreases p - i,
{
    if i < p {
        lemma_find_newline_at(b, i + 1, p, to);
    }
}

/// A framed line reads back: a line within the limit and without '\n',
/// followed by '\n', is the next line read, and what follows it stays.
pub proof fn lemma_frame_roundtrip(max_length: usize, line: Seq<u8>, rest: Seq<u8>)
    requires
        line.len() <= max_length,
        line.len() + 1 + rest.len() <= usize::MAX,
        forall|k: int| 0 <= k < line.len() ==> line[k] != 10,
    ensures
        frame(max_length, 0, false, line + seq![10u8] + rest) == (FrameOutcome {
            result: Ok(Some(line)),
            next_index: 0,
            discarding: false,
            rest,
        }),
{
    let b = line + seq![10u8] + rest;
    let to = read_limit(max_length, b.len() as int);
    assert(b[line.len() as int] == 10);
    assert forall|k: int| 0 <= k < line.len() implies b[k] != 10 by {
        assert(b[k] == line[k]);
    }
    lemma_find_newline_at(b, 0, line.len() as int, to);
    assert(b.take(line.len() as int) =~= line);
    assert(b.skip(line.len() + 1int) =~= rest);
}

} // verus!

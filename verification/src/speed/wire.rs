//! The messages between cameras, dispatchers and the speed-limit server: a
//! tag byte, then big-endian fields; strings are a length byte and bytes.
use vstd::prelude::*;
use vstd::utf8::encode_utf8;

use crate::endian::{
    be16, be32, get_be16, get_be32, push_be16, push_be32, read_be16, read_be32,
};
use crate::text::{lossy_string, string_bytes, utf8_lossy};

verus! {

/// A message kind, known by its tag byte.
pub trait TaggedMessage {
    /// The tag byte.
    fn tag() -> u8;
}

/// A length byte and the string's bytes; the length is taken modulo 256.
pub open spec fn str8(s: Seq<char>) -> Seq<u8> {
    seq![(encode_utf8(s).len() % 256) as u8] + encode_utf8(s)
}

/// Appends a string field.
fn push_str8(out: &mut Vec<u8>, s: &String)
    ensures
        final(out)@ == old(out)@ + str8(s@),
{
    let bytes = string_bytes(s);
    let n = bytes.len();
    out.push((n % 256) as u8);
    let mut i: usize = 0;
    let ghost start = out@;
    while i < n
        invariant
            i <= n,
            n == bytes@.len(),
            out@ == start + bytes@.take(i as int),
        decreases n - i,
    {
        out.push(bytes[i]);
        assert(bytes@.take(i + 1) =~= bytes@.take(i as int).push(bytes@[i as int]));
        i += 1;
    }
    assert(bytes@.take(n as int) =~= bytes@);
    assert(out@ =~= old(out)@ + str8(s@));
}

/// Reads a string field at `i`: the text and the index after it; none
/// when the bytes stop short.
fn get_str8(b: &[u8], i: usize) -> (r: Option<(String, usize)>)
    requires
        i <= b@.len(),
    ensures
        match r {
            Some((s, j)) => i + 1 <= b@.len() && j == i + 1 + b@[i as int] && j <= b@.len() && s@
                == utf8_lossy(b@.subrange(i + 1, j as int)),
            None => i + 1 > b@.len() || i + 1 + b@[i as int] > b@.len(),
        },
{
    if i >= b.len() {
        return None;
    }
    let n = b[i] as usize;
    if n > b.len() - i - 1 {
        return None;
    }
    let piece = vstd::slice::slice_subrange(b, i + 1, i + 1 + n);
    Some((lossy_string(piece), i + 1 + n))
}

/// What reading a message from the front of a byte string gives: the
/// message and the bytes it took, none while it is incomplete, or the tag
/// that names another kind of message.
pub type ReadResult<T> = Result<Option<(T, usize)>, u8>;

#[derive(Debug, PartialEq)]
pub struct Error {
    pub msg: String,
}

impl TaggedMessage for Error {
    fn tag() -> (r: u8)
        ensures
            r == 0x10,
    {
        0x10
    }
}

impl Error {
    /// The message's bytes.
    pub fn write_to(&self) -> (r: Vec<u8>)
        ensures
            r@ == seq![0x10u8] + str8(self.msg@),
    {
        let mut out: Vec<u8> = Vec::new();
        out.push(0x10);
        push_str8(&mut out, &self.msg);
        out
    }

    /// Reads a message from the front of `b`.
    pub fn read_from(b: &[u8]) -> (r: ReadResult<Error>)
        ensures
            b@.len() == 0 ==> r == Ok::<Option<(Error, usize)>, u8>(None),
            b@.len() > 0 && b@[0] != 0x10 ==> r == Err::<Option<(Error, usize)>, u8>(b@[0]),
            b@.len() > 0 && b@[0] == 0x10 ==> match r {
                Ok(Some((m, j))) => b@.len() >= 2 && j == 2 + b@[1] && j <= b@.len() && m.msg@
                    == utf8_lossy(b@.subrange(2, j as int)),
                Ok(None) => b@.len() < 2 || 2 + b@[1] > b@.len(),
                Err(_) => false,
            },
    {
        if b.len() == 0 {
            return Ok(None);
        }
        if b[0] != 0x10 {
            return Err(b[0]);
        }
        match get_str8(b, 1) {
            None => Ok(None),
            Some((msg, j)) => Ok(Some((Error { msg }, j))),
        }
    }
}

#[derive(Debug, PartialEq)]
pub struct Plate {
    pub plate: String,
    pub timestamp: u32,
}

impl TaggedMessage for Plate {
    fn tag() -> (r: u8)
        ensures
            r == 0x20,
    {
        0x20
    }
}

impl Plate {
    pub fn write_to(&self) -> (r: Vec<u8>)
        ensures
            r@ == seq![0x20u8] + str8(self.plate@) + be32(self.timestamp),
    {
        let mut out: Vec<u8> = Vec::new();
        out.push(0x20);
        push_str8(&mut out, &self.plate);
        push_be32(&mut out, self.timestamp);
        out
    }

    pub fn read_from(b: &[u8]) -> (r: ReadResult<Plate>)
        ensures
            b@.len() == 0 ==> r == Ok::<Option<(Plate, usize)>, u8>(None),
            b@.len() > 0 && b@[0] != 0x20 ==> r == Err::<Option<(Plate, usize)>, u8>(b@[0]),
            b@.len() > 0 && b@[0] == 0x20 ==> match r {
                Ok(Some((m, j))) => b@.len() >= 2 && j == 2 + b@[1] + 4 && j <= b@.len() && m.plate@
                    == utf8_lossy(b@.subrange(2, 2 + b@[1])) && m.timestamp == read_be32(
                    b@,
                    2 + b@[1],
                ),
                Ok(None) => b@.len() < 2 || 2 + b@[1] + 4 > b@.len(),
                Err(_) => false,
            },
    {
        if b.len() == 0 {
            return Ok(None);
        }
        if b[0] != 0x20 {
            return Err(b[0]);
        }
        match get_str8(b, 1) {
            None => Ok(None),
            Some((plate, j)) => {
                if b.len() - j < 4 {
                    return Ok(None);
                }
                let timestamp = get_be32(b, j);
                Ok(Some((Plate { plate, timestamp }, j + 4)))
            },
        }
    }
}

#[derive(Debug, PartialEq)]
pub struct Ticket {
    pub plate: String,
    pub road: u16,
    pub mile1: u16,
    pub timestamp1: u32,
    pub mile2: u16,
    pub timestamp2: u32,
    pub speed: u16,
}

impl TaggedMessage for Ticket {
    fn tag() -> (r: u8)
        ensures
            r == 0x21,
    {
        0x21
    }
}

pub ghost struct TicketView {
    pub plate: Seq<char>,
    pub road: u16,
    pub mile1: u16,
    pub timestamp1: u32,
    pub mile2: u16,
    pub timestamp2: u32,
    pub speed: u16,
}

impl View for Ticket {
    type V = TicketView;

    open spec fn view(&self) -> TicketView {
        TicketView {
            plate: self.plate@,
            road: self.road,
            mile1: self.mile1,
            timestamp1: self.timestamp1,
            mile2: self.mile2,
            timestamp2: self.timestamp2,
            speed: self.speed,
        }
    }
}

/// The fields of a ticket after its plate.
pub open spec fn ticket_tail(t: Ticket) -> Seq<u8> {
    be16(t.road) + be16(t.mile1) + be32(t.timestamp1) + be16(t.mile2) + be32(t.timestamp2) + be16(
        t.speed,
    )
}

impl Ticket {
    pub fn write_to(&self) -> (r: Vec<u8>)
        ensures
            r@ == seq![0x21u8] + str8(self.plate@) + ticket_tail(*self),
    {
        let mut out: Vec<u8> = Vec::new();
        out.push(0x21);
        push_str8(&mut out, &self.plate);
        let ghost head = out@;
        push_be16(&mut out, self.road);
        push_be16(&mut out, self.mile1);
        push_be32(&mut out, self.timestamp1);
        push_be16(&mut out, self.mile2);
        push_be32(&mut out, self.timestamp2);
        push_be16(&mut out, self.speed);
        assert(out@ =~= head + ticket_tail(*self));
        out
    }

    pub fn read_from(b: &[u8]) -> (r: ReadResult<Ticket>)
        ensures
            b@.len() == 0 ==> r == Ok::<Option<(Ticket, usize)>, u8>(None),
            b@.len() > 0 && b@[0] != 0x21 ==> r == Err::<Option<(Ticket, usize)>, u8>(b@[0]),
            b@.len() > 0 && b@[0] == 0x21 ==> match r {
                Ok(Some((m, j))) => {
                    let k = 2 + b@[1];
                    &&& b@.len() >= 2
                    &&& j == k + 16
                    &&& j <= b@.len()
                    &&& m.plate@ == utf8_lossy(b@.subrange(2, k))
                    &&& m.road == read_be16(b@, k)
                    &&& m.mile1 == read_be16(b@, k + 2)
                    &&& m.timestamp1 == read_be32(b@, k + 4)
                    &&& m.mile2 == read_be16(b@, k + 8)
                    &&& m.timestamp2 == read_be32(b@, k + 10)
                    &&& m.speed == read_be16(b@, k + 14)
                },
                Ok(None) => b@.len() < 2 || 2 + b@[1] + 16 > b@.len(),
                Err(_) => false,
            },
    {
        if b.len() == 0 {
            return Ok(None);
        }
        if b[0] != 0x21 {
            return Err(b[0]);
        }
        match get_str8(b, 1) {
            None => Ok(None),
            Some((plate, j)) => {
                if b.len() - j < 16 {
                    return Ok(None);
                }
                let road = get_be16(b, j);
                let mile1 = get_be16(b, j + 2);
                let timestamp1 = get_be32(b, j + 4);
                let mile2 = get_be16(b, j + 8);
                let timestamp2 = get_be32(b, j + 10);
                let speed = get_be16(b, j + 14);
                Ok(
                    Some(
                        (
                            Ticket { plate, road, mile1, timestamp1, mile2, timestamp2, speed },
                            j + 16,
                        ),
                    ),
                )
            },
        }
    }
}

#[derive(Debug, PartialEq, Eq, Clone, Copy, Structural)]
pub struct WantHeartbeat {
    pub interval: u32,
}

impl TaggedMessage for WantHeartbeat {
    fn tag() -> (r: u8)
        ensures
            r == 0x40,
    {
        0x40
    }
}

impl WantHeartbeat {
    pub fn write_to(&self) -> (r: Vec<u8>)
        ensures
            r@ == seq![0x40u8] + be32(self.interval),
    {
        let mut out: Vec<u8> = Vec::new();
        out.push(0x40);
        push_be32(&mut out, self.interval);
        out
    }

    pub fn read_from(b: &[u8]) -> (r: ReadResult<WantHeartbeat>)
        ensures
            b@.len() == 0 ==> r == Ok::<Option<(WantHeartbeat, usize)>, u8>(None),
            b@.len() > 0 && b@[0] != 0x40 ==> r == Err::<Option<(WantHeartbeat, usize)>, u8>(b@[0]),
            b@.len() > 0 && b@[0] == 0x40 && b@.len() < 5 ==> r == Ok::<
                Option<(WantHeartbeat, usize)>,
                u8,
            >(None),
            b@.len() >= 5 && b@[0] == 0x40 ==> r == Ok::<Option<(WantHeartbeat, usize)>, u8>(
                Some((WantHeartbeat { interval: read_be32(b@, 1) }, 5)),
            ),
    {
        if b.len() == 0 {
            return Ok(None);
        }
        if b[0] != 0x40 {
            return Err(b[0]);
        }
        if b.len() < 5 {
            return Ok(None);
        }
        Ok(Some((WantHeartbeat { interval: get_be32(b, 1) }, 5)))
    }
}

#[derive(Debug, PartialEq, Eq, Clone, Copy, Structural)]
pub struct Heartbeat;

impl TaggedMessage for Heartbeat {
    fn tag() -> (r: u8)
        ensures
            r == 0x41,
    {
        0x41
    }
}

impl Heartbeat {
    pub fn write_to(&self) -> (r: Vec<u8>)
        ensures
            r@ == seq![0x41u8],
    {
        let mut out: Vec<u8> = Vec::new();
        out.push(0x41);
        assert(out@ =~= seq![0x41u8]);
        out
    }

    pub fn read_from(b: &[u8]) -> (r: ReadResult<Heartbeat>)
        ensures
            b@.len() == 0 ==> r == Ok::<Option<(Heartbeat, usize)>, u8>(None),
            b@.len() > 0 && b@[0] != 0x41 ==> r == Err::<Option<(Heartbeat, usize)>, u8>(b@[0]),
            b@.len() > 0 && b@[0] == 0x41 ==> r == Ok::<Option<(Heartbeat, usize)>, u8>(
                Some((Heartbeat, 1)),
            ),
    {
        if b.len() == 0 {
            return Ok(None);
        }
        if b[0] != 0x41 {
            return Err(b[0]);
        }
        Ok(Some((Heartbeat, 1)))
    }
}

#[derive(Debug, PartialEq, Eq, Clone, Copy, Structural)]
pub struct IAmCamera {
    pub road: u16,
    pub mile: u16,
    pub limit: u16,
}

impl TaggedMessage for IAmCamera {
    fn tag() -> (r: u8)
        ensures
            r == 0x80,
    {
        0x80
    }
}

impl IAmCamera {
    pub fn write_to(&self) -> (r: Vec<u8>)
        ensures
            r@ == seq![0x80u8] + be16(self.road) + be16(self.mile) + be16(self.limit),
    {
        let mut out: Vec<u8> = Vec::new();
        out.push(0x80);
        push_be16(&mut out, self.road);
        push_be16(&mut out, self.mile);
        push_be16(&mut out, self.limit);
        out
    }

    pub fn read_from(b: &[u8]) -> (r: ReadResult<IAmCamera>)
        ensures
            b@.len() == 0 ==> r == Ok::<Option<(IAmCamera, usize)>, u8>(None),
            b@.len() > 0 && b@[0] != 0x80 ==> r == Err::<Option<(IAmCamera, usize)>, u8>(b@[0]),
            b@.len() > 0 && b@[0] == 0x80 && b@.len() < 7 ==> r == Ok::<
                Option<(IAmCamera, usize)>,
                u8,
            >(None),
            b@.len() >= 7 && b@[0] == 0x80 ==> r == Ok::<Option<(IAmCamera, usize)>, u8>(
                Some(
                    (
                        IAmCamera {
                            road: read_be16(b@, 1),
                            mile: read_be16(b@, 3),
                            limit: read_be16(b@, 5),
                        },
                        7,
                    ),
                ),
            ),
    {
        if b.len() == 0 {
            return Ok(None);
        }
        if b[0] != 0x80 {
            return Err(b[0]);
        }
        if b.len() < 7 {
            return Ok(None);
        }
        Ok(
            Some(
                (IAmCamera { road: get_be16(b, 1), mile: get_be16(b, 3), limit: get_be16(b, 5) }, 7),
            ),
        )
    }
}

#[derive(Debug, PartialEq)]
pub struct IAmDispatcher {
    pub roads: Vec<u16>,
}

impl TaggedMessage for IAmDispatcher {
    fn tag() -> (r: u8)
        ensures
            r == 0x81,
    {
        0x81
    }
}

/// The roads of a dispatcher, each as two bytes.
pub open spec fn roads_bytes(roads: Seq<u16>) -> Seq<u8>
    decreases roads.len(),
{
    if roads.len() == 0 {
        Seq::empty()
    } else {
        roads_bytes(roads.drop_last()) + be16(roads.last())
    }
}

impl IAmDispatcher {
    /// The message's bytes; the count is taken modulo 256.
    pub fn write_to(&self) -> (r: Vec<u8>)
        ensures
            r@ == seq![0x81u8, (self.roads@.len() % 256) as u8] + roads_bytes(self.roads@),
    {
        let mut out: Vec<u8> = Vec::new();
        out.push(0x81);
        out.push((self.roads.len() % 256) as u8);
        let ghost head = out@;
        let mut i: usize = 0;
        while i < self.roads.len()
            invariant
                i <= self.roads@.len(),
                out@ == head + roads_bytes(self.roads@.take(i as int)),
            decreases self.roads@.len() - i,
        {
            assert(self.roads@.take(i + 1).drop_last() =~= self.roads@.take(i as int));
            push_be16(&mut out, self.roads[i]);
            assert(out@ =~= head + roads_bytes(self.roads@.take(i + 1)));
            i += 1;
        }
        assert(self.roads@.take(self.roads@.len() as int) =~= self.roads@);
        out
    }

    pub fn read_from(b: &[u8]) -> (r: ReadResult<IAmDispatcher>)
        ensures
            b@.len() == 0 ==> r == Ok::<Option<(IAmDispatcher, usize)>, u8>(None),
            b@.len() > 0 && b@[0] != 0x81 ==> r == Err::<Option<(IAmDispatcher, usize)>, u8>(b@[0]),
            b@.len() > 0 && b@[0] == 0x81 ==> match r {
                Ok(Some((m, j))) => b@.len() >= 2 && j == 2 + 2 * b@[1] && j <= b@.len()
                    && m.roads@.len() == b@[1] && forall|k: int|
                    0 <= k < b@[1] ==> #[trigger] m.roads@[k] == read_be16(b@, 2 + 2 * k),
                Ok(None) => b@.len() < 2 || 2 + 2 * b@[1] > b@.len(),
                Err(_) => false,
            },
    {
        if b.len() == 0 {
            return Ok(None);
        }
        if b[0] != 0x81 {
            return Err(b[0]);
        }
        if b.len() < 2 {
            return Ok(None);
        }
        let n = b[1] as usize;
        if b.len() - 2 < 2 * n {
            return Ok(None);
        }
        let mut roads: Vec<u16> = Vec::new();
        let mut k: usize = 0;
        while k < n
            invariant
                k <= n,
                n == b@[1],
                2 + 2 * n <= b@.len(),
                roads@.len() == k,
                forall|t: int| 0 <= t < k ==> #[trigger] roads@[t] == read_be16(b@, 2 + 2 * t),
            decreases n - k,
        {
            roads.push(get_be16(b, 2 + 2 * k));
            k += 1;
        }
        Ok(Some((IAmDispatcher { roads }, 2 + 2 * n)))
    }
}

} // verus!

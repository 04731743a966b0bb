//! LRCP packets and their text form, such as `/data/1234567/0/hello/`.
use vstd::prelude::*;
use vstd::utf8::{encode_utf8, is_ascii_chars, is_ascii_chars_encode_utf8};

use crate::text::{ascii_chars, decimal, decimal_bytes, lemma_decimal_ascii, push_char, string_bytes};

verus! {

/// Bytes left for a payload once the rest of a data packet is written.
pub const BUFFER_SIZE: usize = 921;

/// A non-negative number of the protocol (below 2^31 when parsed).
#[derive(Debug, PartialEq, Eq, Clone, Copy, Hash, Structural)]
pub struct Numeric(pub u32);

pub type Session = Numeric;

pub type Position = Numeric;

pub type Length = Numeric;

/// The data of a data packet; each character stands for one byte.
#[derive(Debug, PartialEq, Clone)]
pub struct Payload(pub String);

#[derive(Debug, PartialEq, Eq, Clone, Copy, Structural)]
pub enum PacketError {
    InvalidPacket,
    UnknownPacket,
    NumericOverflow,
    Overflow,
}

#[derive(Debug, PartialEq, Clone)]
pub enum Packet {
    Connect { session: Session },
    Data { session: Session, pos: Position, data: Payload },
    Ack { session: Session, length: Length },
    Close { session: Session },
}

/// A packet as the protocol sees it.
pub ghost enum PacketView {
    Connect { session: u32 },
    Data { session: u32, pos: u32, data: Seq<char> },
    Ack { session: u32, length: u32 },
    Close { session: u32 },
}

impl View for Packet {
    type V = PacketView;

    open spec fn view(&self) -> PacketView {
        match self {
            Packet::Connect { session } => PacketView::Connect { session: session.0 },
            Packet::Data { session, pos, data } => PacketView::Data {
                session: session.0,
                pos: pos.0,
                data: data.0@,
            },
            Packet::Ack { session, length } => PacketView::Ack { session: session.0, length: length.0 },
            Packet::Close { session } => PacketView::Close { session: session.0 },
        }
    }
}

pub open spec fn is_digit(c: u8) -> bool {
    48 <= c <= 57
}

/// Reads decimal digits up to a '/': the number and the count of digits.
/// Numbers must stay below 2^31.
pub open spec fn numeric_parse(b: Seq<u8>, acc: nat) -> Result<(nat, int), PacketError>
    decreases b.len(),
{
    if b.len() == 0 {
        Err(PacketError::InvalidPacket)
    } else if is_digit(b[0]) {
        let v = acc * 10 + (b[0] - 48) as nat;
        if v >= 2147483648 {
            Err(PacketError::NumericOverflow)
        } else {
            match numeric_parse(b.drop_first(), v) {
                Ok((n, k)) => Ok((n, k + 1)),
                Err(e) => Err(e),
            }
        }
    } else if b[0] == 47 {
        Ok((acc, 0))
    } else {
        Err(PacketError::InvalidPacket)
    }
}

/// Reads escaped payload bytes up to an unescaped '/': the characters and the
/// count of bytes read. `skip` is set right after a backslash.
pub open spec fn payload_parse(b: Seq<u8>, skip: bool) -> Result<(Seq<char>, int), PacketError>
    decreases b.len(),
{
    if b.len() == 0 {
        Err(PacketError::InvalidPacket)
    } else if b[0] == 92 && !skip {
        match payload_parse(b.drop_first(), true) {
            Ok((s, k)) => Ok((s, k + 1)),
            Err(e) => Err(e),
        }
    } else if b[0] == 47 && !skip {
        Ok((Seq::empty(), 0))
    } else if skip && !(b[0] == 92 || b[0] == 47) {
        Err(PacketError::InvalidPacket)
    } else {
        match payload_parse(b.drop_first(), false) {
            Ok((s, k)) => Ok((seq![b[0] as char] + s, k + 1)),
            Err(e) => Err(e),
        }
    }
}

pub open spec fn connect_prefix() -> Seq<u8> {
    seq![47u8, 99, 111, 110, 110, 101, 99, 116, 47]
}

pub open spec fn data_prefix() -> Seq<u8> {
    seq![47u8, 100, 97, 116, 97, 47]
}

pub open spec fn ack_prefix() -> Seq<u8> {
    seq![47u8, 97, 99, 107, 47]
}

pub open spec fn close_prefix() -> Seq<u8> {
    seq![47u8, 99, 108, 111, 115, 101, 47]
}

pub open spec fn starts_with(b: Seq<u8>, p: Seq<u8>) -> bool {
    p.len() <= b.len() && b.take(p.len() as int) == p
}

/// A packet whose only field is a session number, after its prefix.
pub open spec fn session_only(b: Seq<u8>, start: int) -> Result<u32, PacketError> {
    match numeric_parse(b.skip(start), 0) {
        Err(e) => Err(e),
        Ok((s, k)) => if start + k == b.len() - 1 {
            Ok(s as u32)
        } else {
            Err(PacketError::InvalidPacket)
        },
    }
}

/// What a datagram holds, if it is a packet.
pub open spec fn decode_packet(b: Seq<u8>) -> Result<PacketView, PacketError> {
    if !(b.len() > 0 && b.last() == 47 && b.len() < 1000) {
        Err(PacketError::UnknownPacket)
    } else if starts_with(b, connect_prefix()) {
        match session_only(b, 9) {
            Ok(s) => Ok(PacketView::Connect { session: s }),
            Err(e) => Err(e),
        }
    } else if starts_with(b, data_prefix()) {
        match numeric_parse(b.skip(6), 0) {
            Err(e) => Err(e),
            Ok((s, k1)) => {
                let i = 6 + k1 + 1;
                match numeric_parse(b.skip(i), 0) {
                    Err(e) => Err(e),
                    Ok((p, k2)) => {
                        let j = i + k2 + 1;
                        match payload_parse(b.skip(j), false) {
                            Err(e) => Err(e),
                            Ok((d, k3)) => if j + k3 == b.len() - 1 {
                                Ok(PacketView::Data { session: s as u32, pos: p as u32, data: d })
                            } else {
                                Err(PacketError::InvalidPacket)
                            },
                        }
                    },
                }
            },
        }
    } else if starts_with(b, ack_prefix()) {
        match numeric_parse(b.skip(5), 0) {
            Err(e) => Err(e),
            Ok((s, k1)) => match session_only(b, 5 + k1 + 1) {
                Ok(l) => Ok(PacketView::Ack { session: s as u32, length: l }),
                Err(e) => Err(e),
            },
        }
    } else if starts_with(b, close_prefix()) {
        match session_only(b, 7) {
            Ok(s) => Ok(PacketView::Close { session: s }),
            Err(e) => Err(e),
        }
    } else {
        Err(PacketError::UnknownPacket)
    }
}

/// Escapes '/' and '\' with a backslash.
pub open spec fn escape(b: Seq<u8>) -> Seq<u8>
    decreases b.len(),
{
    if b.len() == 0 {
        Seq::empty()
    } else {
        let head = if b[0] == 47 || b[0] == 92 {
            seq![92u8, b[0]]
        } else {
            seq![b[0]]
        };
        head + escape(b.drop_first())
    }
}

/// The session of a packet.
pub open spec fn packet_session(p: PacketView) -> u32 {
    match p {
        PacketView::Connect { session } => session,
        PacketView::Data { session, .. } => session,
        PacketView::Ack { session, .. } => session,
        PacketView::Close { session } => session,
    }
}

/// The bytes of a packet.
pub open spec fn packet_bytes(p: PacketView) -> Seq<u8> {
    match p {
        PacketView::Connect { session } => connect_prefix() + decimal(session as nat) + seq![47u8],
        PacketView::Close { session } => close_prefix() + decimal(session as nat) + seq![47u8],
        PacketView::Ack { session, length } => ack_prefix() + decimal(session as nat) + seq![47u8]
            + decimal(length as nat) + seq![47u8],
        PacketView::Data { session, pos, data } => data_prefix() + decimal(session as nat) + seq![
            47u8,
        ] + decimal(pos as nat) + seq![47u8] + escape(encode_utf8(data)) + seq![47u8],
    }
}

/// The number of bytes that escaping `b` produces.
pub open spec fn escaped_len(b: Seq<u8>) -> int
    decreases b.len(),
{
    if b.len() == 0 {
        0
    } else {
        escaped_len(b.drop_last()) + if b.last() == 47 || b.last() == 92 {
            2int
        } else {
            1int
        }
    }
}

/// How many bytes of `b` a payload carries: the longest prefix whose escaped
/// length stays below `BUFFER_SIZE`.
pub open spec fn payload_fit(b: Seq<u8>) -> int
    decreases b.len(),
{
    if b.len() == 0 || escaped_len(b) < BUFFER_SIZE {
        b.len() as int
    } else {
        payload_fit(b.drop_last())
    }
}

proof fn lemma_escaped_len_step(b: Seq<u8>, i: int)
    requires
        0 <= i < b.len(),
    ensures
        escaped_len(b.take(i + 1)) == escaped_len(b.take(i)) + if b[i] == 47 || b[i] == 92 {
            2int
        } else {
            1int
        },
{
    assert(b.take(i + 1).drop_last() =~= b.take(i));
}

/// Escaped lengths grow with the prefix.
proof fn lemma_escaped_len_monotone(b: Seq<u8>, i: int, j: int)
    requires
        0 <= i <= j <= b.len(),
    ensures
        escaped_len(b.take(i)) <= escaped_len(b.take(j)),
    decreases j - i,
{
    if i < j {
        lemma_escaped_len_monotone(b, i, j - 1);
        lemma_escaped_len_step(b, j - 1);
    }
}

/// The prefix length that `Payload::new` stops at is `payload_fit`.
proof fn lemma_payload_fit(b: Seq<u8>, k: int)
    requires
        0 <= k <= b.len(),
        escaped_len(b.take(k)) < BUFFER_SIZE,
        k == b.len() || escaped_len(b.take(k + 1)) >= BUFFER_SIZE,
    ensures
        payload_fit(b) == k,
    decreases b.len(),
{
    if b.len() == 0 {
    } else if escaped_len(b) < BUFFER_SIZE {
        if k < b.len() {
            lemma_escaped_len_monotone(b, k + 1, b.len() as int);
            assert(b.take(b.len() as int) =~= b);
        }
    } else {
        if k == b.len() {
            assert(b.take(k) =~= b);
        }
        let c = b.drop_last();
        assert(c.take(k) =~= b.take(k));
        if k < c.len() {
            assert(c.take(k + 1) =~= b.take(k + 1));
        }
        lemma_payload_fit(c, k);
    }
}

/// The characters that bytes stand for, one for one (Latin-1).
pub open spec fn byte_chars(b: Seq<u8>) -> Seq<char> {
    b.map_values(|x: u8| x as char)
}

/// `numeric_parse` continued from an accumulated value, with the count of
/// digits already read added in.
pub open spec fn numeric_parse_from(b: Seq<u8>, acc: nat, done: int) -> Result<(nat, int), PacketError> {
    match numeric_parse(b, acc) {
        Ok((n, k)) => Ok((n, k + done)),
        Err(e) => Err(e),
    }
}

pub open spec fn payload_parse_from(b: Seq<u8>, skip: bool, got: Seq<char>, done: int) -> Result<
    (Seq<char>, int),
    PacketError,
> {
    match payload_parse(b, skip) {
        Ok((s, k)) => Ok((got + s, k + done)),
        Err(e) => Err(e),
    }
}

impl Numeric {
    /// Reads the number that starts at `start` and ends before a '/'; gives
    /// the number and the index of the '/'.
    pub fn parse(buffer: &[u8], start: usize) -> (r: Result<(Numeric, usize), PacketError>)
        requires
            start <= buffer@.len(),
        ensures
            match numeric_parse(buffer@.skip(start as int), 0) {
                Ok((n, k)) => r matches Ok((m, j)) && m.0 == n && j == start + k,
                Err(e) => r == Err::<(Numeric, usize), PacketError>(e),
            },
            r matches Ok((_, j)) ==> j < buffer@.len() && buffer@[j as int] == 47,
    {
        let ghost b = buffer@;
        let mut acc: u64 = 0;
        let mut i = start;
        assert(b.skip(start as int).skip(0) =~= b.skip(start as int));
        while i < buffer.len()
            invariant
                start <= i <= b.len(),
                b == buffer@,
                acc < 2147483648,
                numeric_parse(b.skip(start as int), 0) == numeric_parse_from(
                    b.skip(i as int),
                    acc as nat,
                    i - start,
                ),
            decreases b.len() - i,
        {
            let c = buffer[i];
            assert(b.skip(i as int)[0] == c);
            assert(b.skip(i as int).drop_first() =~= b.skip(i + 1));
            if 48 <= c && c <= 57 {
                acc = acc * 10 + (c - 48) as u64;
                if acc >= 2147483648 {
                    return Err(PacketError::NumericOverflow);
                }
                i += 1;
            } else if c == 47 {
                return Ok((Numeric(acc as u32), i));
            } else {
                return Err(PacketError::InvalidPacket);
            }
        }
        Err(PacketError::InvalidPacket)
    }
}

impl Payload {
    /// The payload that carries the longest prefix of `buffer` whose escaped
    /// form stays below `BUFFER_SIZE` bytes; none for an empty buffer.
    pub fn new(buffer: &[u8]) -> (r: Option<Payload>)
        ensures
            buffer@.len() == 0 <==> r is None,
            r matches Some(p) ==> {
                let k = p.0@.len() as int;
                &&& k <= buffer@.len()
                &&& p.0@ == byte_chars(buffer@.take(k))
                &&& escaped_len(buffer@.take(k)) < BUFFER_SIZE
                &&& (k == buffer@.len() || escaped_len(buffer@.take(k + 1)) >= BUFFER_SIZE)
                &&& k == payload_fit(buffer@)
            },
    {
        if buffer.len() == 0 {
            return None;
        }
        let ghost b = buffer@;
        let mut len: usize = 0;
        let mut payload = String::new();
        let mut i: usize = 0;
        assert(b.take(0) =~= Seq::<u8>::empty());
        assert(payload@ =~= byte_chars(b.take(0)));
        while i < buffer.len()
            invariant_except_break
                i <= b.len(),
                b == buffer@,
                len == escaped_len(b.take(i as int)),
                len < BUFFER_SIZE,
                payload@ == byte_chars(b.take(i as int)),
            ensures
                i <= b.len(),
                payload@ == byte_chars(b.take(i as int)),
                payload@.len() == i,
                escaped_len(b.take(i as int)) < BUFFER_SIZE,
                i == b.len() || escaped_len(b.take(i + 1)) >= BUFFER_SIZE,
            decreases b.len() - i,
        {
            let c = buffer[i];
            assert(b.take(i + 1).drop_last() =~= b.take(i as int));
            assert(b.take(i + 1).last() == c);
            if c == 92 || c == 47 {
                len += 2;
            } else {
                len += 1;
            }
            if len >= BUFFER_SIZE {
                break;
            }
            push_char(&mut payload, c as char);
            assert(payload@ =~= byte_chars(b.take(i + 1)));
            i += 1;
        }
        assert(i == b.len() ==> b.take(i as int) =~= b);
        proof {
            lemma_payload_fit(b, i as int);
        }
        Some(Payload(payload))
    }

    /// Reads escaped payload bytes from `start` up to an unescaped '/'; gives
    /// the payload and the index of the '/'.
    pub fn parse(buffer: &[u8], start: usize) -> (r: Result<(Payload, usize), PacketError>)
        requires
            start <= buffer@.len(),
        ensures
            match payload_parse(buffer@.skip(start as int), false) {
                Ok((d, k)) => r matches Ok((p, j)) && p.0@ == d && j == start + k,
                Err(e) => r == Err::<(Payload, usize), PacketError>(e),
            },
            r matches Ok((_, j)) ==> j < buffer@.len() && buffer@[j as int] == 47,
    {
        let ghost b = buffer@;
        let mut result = String::new();
        let mut skip = false;
        let mut i = start;
        assert(b.skip(start as int).skip(0) =~= b.skip(start as int));
        assert(result@ + Seq::<char>::empty() =~= result@);
        while i < buffer.len()
            invariant
                start <= i <= b.len(),
                b == buffer@,
                payload_parse(b.skip(start as int), false) == payload_parse_from(
                    b.skip(i as int),
                    skip,
                    result@,
                    i - start,
                ),
            decreases b.len() - i,
        {
            let c = buffer[i];
            assert(b.skip(i as int)[0] == c);
            assert(b.skip(i as int).drop_first() =~= b.skip(i + 1));
            if c == 92 && !skip {
                skip = true;
                i += 1;
            } else if c == 47 && !skip {
                assert(result@ + Seq::<char>::empty() =~= result@);
                return Ok((Payload(result), i));
            } else if skip && !(c == 92 || c == 47) {
                return Err(PacketError::InvalidPacket);
            } else {
                let ghost before = result@;
                push_char(&mut result, c as char);
                proof {
                    assert forall|t: Seq<char>| #![auto] before + (seq![c as char] + t) =~= result@ + t by {}
                }
                skip = false;
                i += 1;
            }
        }
        Err(PacketError::InvalidPacket)
    }

    /// Appends the payload's bytes from byte `skip` on; gives how many.
    pub fn write(&self, buffer: &mut Vec<u8>, skip: u32) -> (r: u32)
        requires
            skip <= encode_utf8(self.0@).len() <= u32::MAX,
        ensures
            final(buffer)@ == old(buffer)@ + encode_utf8(self.0@).skip(skip as int),
            r == encode_utf8(self.0@).len() - skip,
    {
        let bytes = string_bytes(&self.0);
        let mut i = skip as usize;
        assert(encode_utf8(self.0@).skip(skip as int).take(0) =~= Seq::<u8>::empty());
        while i < bytes.len()
            invariant
                skip <= i <= bytes@.len(),
                bytes@ == encode_utf8(self.0@),
                buffer@ == old(buffer)@ + bytes@.skip(skip as int).take(i - skip),
            decreases bytes@.len() - i,
        {
            buffer.push(bytes[i]);
            assert(bytes@.skip(skip as int).take(i + 1 - skip) =~= bytes@.skip(skip as int).take(
                i - skip,
            ).push(bytes@[i as int]));
            i += 1;
        }
        assert(bytes@.skip(skip as int).take(bytes@.len() - skip) =~= bytes@.skip(skip as int));
        (bytes.len() as u32) - skip
    }
}

/// Whether `b` begins with the bytes of `p`.
fn has_prefix(b: &[u8], p: &[u8]) -> (r: bool)
    ensures
        r == starts_with(b@, p@),
{
    if p.len() > b.len() {
        return false;
    }
    let mut i: usize = 0;
    while i < p.len()
        invariant
            i <= p@.len() <= b@.len(),
            forall|j: int| 0 <= j < i ==> b@[j] == p@[j],
        decreases p@.len() - i,
    {
        if b[i] != p[i] {
            assert(b@.take(p@.len() as int)[i as int] != p@[i as int]);
            return false;
        }
        i += 1;
    }
    assert(b@.take(p@.len() as int) =~= p@);
    true
}

impl Packet {
    /// The session that the packet belongs to.
    pub fn session(&self) -> (r: Numeric)
        ensures
            r.0 == packet_session(self@),
    {
        match self {
            Packet::Connect { session } => *session,
            Packet::Close { session } => *session,
            Packet::Data { session, .. } => *session,
            Packet::Ack { session, .. } => *session,
        }
    }

    /// Reads a packet from a datagram.
    pub fn decode(buffer: &[u8]) -> (r: Result<Packet, PacketError>)
        ensures
            match decode_packet(buffer@) {
                Ok(v) => r matches Ok(p) && p@ == v,
                Err(e) => r == Err::<Packet, PacketError>(e),
            },
    {
        let ghost b = buffer@;
        let n = buffer.len();
        if !(n > 0 && buffer[n - 1] == 47 && n < 1000) {
            return Err(PacketError::UnknownPacket);
        }
        assert(b.last() == buffer[n - 1]);
        let connect: [u8; 9] = [47, 99, 111, 110, 110, 101, 99, 116, 47];
        let data: [u8; 6] = [47, 100, 97, 116, 97, 47];
        let ack: [u8; 5] = [47, 97, 99, 107, 47];
        let close: [u8; 7] = [47, 99, 108, 111, 115, 101, 47];
        assert(connect@ =~= connect_prefix());
        assert(data@ =~= data_prefix());
        assert(ack@ =~= ack_prefix());
        assert(close@ =~= close_prefix());
        if has_prefix(buffer, &connect) {
            match Numeric::parse(buffer, 9) {
                Err(e) => Err(e),
                Ok((session, j)) => if j == n - 1 {
                    Ok(Packet::Connect { session })
                } else {
                    Err(PacketError::InvalidPacket)
                },
            }
        } else if has_prefix(buffer, &data) {
            match Numeric::parse(buffer, 6) {
                Err(e) => Err(e),
                Ok((session, j1)) => match Numeric::parse(buffer, j1 + 1) {
                    Err(e) => Err(e),
                    Ok((pos, j2)) => match Payload::parse(buffer, j2 + 1) {
                        Err(e) => Err(e),
                        Ok((data, j3)) => if j3 == n - 1 {
                            Ok(Packet::Data { session, pos, data })
                        } else {
                            Err(PacketError::InvalidPacket)
                        },
                    },
                },
            }
        } else if has_prefix(buffer, &ack) {
            match Numeric::parse(buffer, 5) {
                Err(e) => Err(e),
                Ok((session, j1)) => match Numeric::parse(buffer, j1 + 1) {
                    Err(e) => Err(e),
                    Ok((length, j2)) => if j2 == n - 1 {
                        Ok(Packet::Ack { session, length })
                    } else {
                        Err(PacketError::InvalidPacket)
                    },
                },
            }
        } else if has_prefix(buffer, &close) {
            match Numeric::parse(buffer, 7) {
                Err(e) => Err(e),
                Ok((session, j)) => if j == n - 1 {
                    Ok(Packet::Close { session })
                } else {
                    Err(PacketError::InvalidPacket)
                },
            }
        } else {
            Err(PacketError::UnknownPacket)
        }
    }
}

/// Reading a packet through `TryFrom` is `Packet::decode`; `try_from` states
/// the same result, and the generic conversion specification is not used.
impl<'a> vstd::std_specs::convert::TryFromSpecImpl<&'a [u8]> for Packet {
    open spec fn obeys_try_from_spec() -> bool {
        false
    }

    open spec fn try_from_spec(v: &'a [u8]) -> Result<Packet, PacketError> {
        arbitrary()
    }
}

impl<'a> TryFrom<&'a [u8]> for Packet {
    type Error = PacketError;

    fn try_from(buffer: &'a [u8]) -> (r: Result<Packet, PacketError>)
        ensures
            match decode_packet(buffer@) {
                Ok(v) => r matches Ok(p) && p@ == v,
                Err(e) => r == Err::<Packet, PacketError>(e),
            },
    {
        Packet::decode(buffer)
    }
}

/// Escaping distributes over concatenation.
pub proof fn lemma_escape_concat(a: Seq<u8>, b: Seq<u8>)
    ensures
        escape(a + b) == escape(a) + escape(b),
    decreases a.len(),
{
    if a.len() == 0 {
        assert(a + b =~= b);
        assert(escape(a) + escape(b) =~= escape(b));
    } else {
        assert((a + b).drop_first() =~= a.drop_first() + b);
        lemma_escape_concat(a.drop_first(), b);
        let head = if a[0] == 47 || a[0] == 92 {
            seq![92u8, a[0]]
        } else {
            seq![a[0]]
        };
        assert(escape(a + b) == head + escape(a.drop_first() + b));
        assert(head + (escape(a.drop_first()) + escape(b)) =~= (head + escape(a.drop_first()))
            + escape(b));
    }
}

/// Writing a value in its text form at the end of a byte sink.
pub trait SyncWrite<T> {
    /// Appends the text of `value`; gives the number of bytes written.
    fn write_value(&mut self, value: &T) -> usize;
}

fn append_bytes(out: &mut Vec<u8>, b: &[u8])
    ensures
        final(out)@ == old(out)@ + b@,
{
    let mut i: usize = 0;
    while i < b.len()
        invariant
            i <= b@.len(),
            out@ == old(out)@ + b@.take(i as int),
        decreases b@.len() - i,
    {
        out.push(b[i]);
        assert(b@.take(i + 1) =~= b@.take(i as int).push(b@[i as int]));
        i += 1;
    }
    assert(b@.take(b@.len() as int) =~= b@);
}

impl SyncWrite<Numeric> for Vec<u8> {
    /// Appends the decimal digits of the number.
    fn write_value(&mut self, value: &Numeric) -> (r: usize)
        ensures
            final(self)@ == old(self)@ + decimal(value.0 as nat),
            r == decimal(value.0 as nat).len(),
    {
        let digits = decimal_bytes(value.0 as u64);
        append_bytes(self, digits.as_slice());
        digits.len()
    }
}

impl SyncWrite<Payload> for Vec<u8> {
    /// Appends the payload's bytes with '/' and '\\' escaped.
    fn write_value(&mut self, value: &Payload) -> (r: usize)
        ensures
            final(self)@ == old(self)@ + escape(encode_utf8(value.0@)),
            r == escape(encode_utf8(value.0@)).len(),
    {
        let bytes = string_bytes(&value.0);
        let ghost start = self@;
        let before = self.len();
        let mut i: usize = 0;
        assert(escape(bytes@.take(0)) =~= Seq::<u8>::empty());
        assert(start + Seq::<u8>::empty() =~= start);
        while i < bytes.len()
            invariant
                i <= bytes@.len(),
                self@ == start + escape(bytes@.take(i as int)),
            decreases bytes@.len() - i,
        {
            let c = bytes[i];
            proof {
                assert(bytes@.take(i + 1) =~= bytes@.take(i as int) + seq![c]);
                lemma_escape_concat(bytes@.take(i as int), seq![c]);
                assert(seq![c].drop_first() =~= Seq::<u8>::empty());
                assert(escape(Seq::<u8>::empty()) =~= Seq::<u8>::empty());
            }
            if c == 47 || c == 92 {
                self.push(92);
                self.push(c);
                assert(escape(seq![c]) =~= seq![92u8, c]);
            } else {
                self.push(c);
                assert(escape(seq![c]) =~= seq![c]);
            }
            assert(self@ =~= start + escape(bytes@.take(i + 1)));
            i += 1;
        }
        assert(bytes@.take(bytes@.len() as int) =~= bytes@);
        self.len() - before
    }
}

impl SyncWrite<Packet> for Vec<u8> {
    /// Appends the text of the packet.
    fn write_value(&mut self, value: &Packet) -> (r: usize)
        ensures
            final(self)@ == old(self)@ + packet_bytes(value@),
            r == packet_bytes(value@).len(),
    {
        let ghost start = self@;
        let before = self.len();
        match value {
            Packet::Connect { session } => {
                append_bytes(self, &[47u8, 99, 111, 110, 110, 101, 99, 116, 47]);
                self.write_value(session);
                self.push(47);
            },
            Packet::Close { session } => {
                append_bytes(self, &[47u8, 99, 108, 111, 115, 101, 47]);
                self.write_value(session);
                self.push(47);
            },
            Packet::Ack { session, length } => {
                append_bytes(self, &[47u8, 97, 99, 107, 47]);
                self.write_value(session);
                self.push(47);
                self.write_value(length);
                self.push(47);
            },
            Packet::Data { session, pos, data } => {
                append_bytes(self, &[47u8, 100, 97, 116, 97, 47]);
                self.write_value(session);
                self.push(47);
                self.write_value(pos);
                self.push(47);
                self.write_value(data);
                self.push(47);
            },
        }
        assert(self@ =~= start + packet_bytes(value@));
        self.len() - before
    }
}

/// The number that decimal digits stand for, read from the front onto `acc`.
pub open spec fn digits_value(acc: nat, ds: Seq<u8>) -> nat
    decreases ds.len(),
{
    if ds.len() == 0 {
        acc
    } else {
        digits_value(acc * 10 + (ds[0] - 48) as nat, ds.drop_first())
    }
}

pub open spec fn all_digits(ds: Seq<u8>) -> bool {
    forall|i: int| 0 <= i < ds.len() ==> is_digit(#[trigger] ds[i])
}

proof fn lemma_digits_value_grows(acc: nat, ds: Seq<u8>)
    requires
        all_digits(ds),
    ensures
        digits_value(acc, ds) >= acc,
    decreases ds.len(),
{
    if ds.len() > 0 {
        assert(is_digit(ds[0]));
        assert(all_digits(ds.drop_first())) by {
            assert forall|i: int| 0 <= i < ds.drop_first().len() implies is_digit(
                #[trigger] ds.drop_first()[i],
            ) by {
                assert(is_digit(ds[i + 1]));
            }
        }
        lemma_digits_value_grows(acc * 10 + (ds[0] - 48) as nat, ds.drop_first());
    }
}

proof fn lemma_digits_value_concat(acc: nat, a: Seq<u8>, b: Seq<u8>)
    ensures
        digits_value(acc, a + b) == digits_value(digits_value(acc, a), b),
    decreases a.len(),
{
    if a.len() == 0 {
        assert(a + b =~= b);
    } else {
        assert((a + b).drop_first() =~= a.drop_first() + b);
        assert((a + b)[0] == a[0]);
        lemma_digits_value_concat(acc * 10 + (a[0] - 48) as nat, a.drop_first(), b);
    }
}

proof fn lemma_decimal_value(n: nat)
    ensures
        digits_value(0, decimal(n)) == n,
        all_digits(decimal(n)),
    decreases n,
{
    lemma_decimal_ascii(n);
    if n < 10 {
        let d = decimal(n);
        assert(d.drop_first() =~= Seq::<u8>::empty());
        assert(((48 + n) as u8) == 48 + n);
        assert(digits_value(n, d.drop_first()) == n);
    } else {
        lemma_decimal_value(n / 10);
        let last = seq![(48 + n % 10) as u8];
        lemma_digits_value_concat(0, decimal(n / 10), last);
        assert(last.drop_first() =~= Seq::<u8>::empty());
        assert(((48 + n % 10) as u8) == 48 + n % 10);
        vstd::arithmetic::div_mod::lemma_fundamental_div_mod(n as int, 10);
        assert(digits_value(n, last.drop_first()) == n);
    }
}

/// Digits below the limit, then a '/', read back as their number.
proof fn lemma_numeric_parse_digits(ds: Seq<u8>, rest: Seq<u8>, acc: nat)
    requires
        all_digits(ds),
        digits_value(acc, ds) < 2147483648,
    ensures
        numeric_parse(ds + seq![47u8] + rest, acc) == Ok::<(nat, int), PacketError>(
            (digits_value(acc, ds), ds.len() as int),
        ),
    decreases ds.len(),
{
    let b = ds + seq![47u8] + rest;
    if ds.len() == 0 {
        assert(b[0] == 47);
    } else {
        assert(b[0] == ds[0]);
        assert(is_digit(ds[0]));
        let v = acc * 10 + (ds[0] - 48) as nat;
        assert(all_digits(ds.drop_first())) by {
            assert forall|i: int| 0 <= i < ds.drop_first().len() implies is_digit(
                #[trigger] ds.drop_first()[i],
            ) by {
                assert(is_digit(ds[i + 1]));
            }
        }
        lemma_digits_value_grows(v, ds.drop_first());
        assert(b.drop_first() =~= ds.drop_first() + seq![47u8] + rest);
        lemma_numeric_parse_digits(ds.drop_first(), rest, v);
    }
}

/// The decimal numeral of a number below 2^31, then a '/', reads back as the number.
proof fn lemma_numeric_roundtrip(n: nat, rest: Seq<u8>)
    requires
        n < 2147483648,
    ensures
        numeric_parse(decimal(n) + seq![47u8] + rest, 0) == Ok::<(nat, int), PacketError>(
            (n, decimal(n).len() as int),
        ),
{
    lemma_decimal_value(n);
    lemma_numeric_parse_digits(decimal(n), rest, 0);
}

/// Escaped bytes, then a '/', read back as the characters of the bytes.
proof fn lemma_payload_roundtrip(bs: Seq<u8>, rest: Seq<u8>)
    ensures
        payload_parse(escape(bs) + seq![47u8] + rest, false) == Ok::<(Seq<char>, int), PacketError>(
            (byte_chars(bs), escape(bs).len() as int),
        ),
    decreases bs.len(),
{
    let b = escape(bs) + seq![47u8] + rest;
    if bs.len() == 0 {
        assert(escape(bs) =~= Seq::<u8>::empty());
        assert(b[0] == 47);
        assert(byte_chars(bs) =~= Seq::<char>::empty());
    } else {
        let c = bs[0];
        let tail = escape(bs.drop_first()) + seq![47u8] + rest;
        lemma_payload_roundtrip(bs.drop_first(), rest);
        assert(byte_chars(bs) =~= seq![c as char] + byte_chars(bs.drop_first()));
        let (s, k) = (byte_chars(bs.drop_first()), escape(bs.drop_first()).len() as int);
        if c == 47 || c == 92 {
            assert(b =~= seq![92u8, c] + tail);
            assert(b.drop_first() =~= seq![c] + tail);
            assert(b.drop_first().drop_first() =~= tail);
            assert(payload_parse(b.drop_first(), true) == Ok::<(Seq<char>, int), PacketError>(
                (seq![c as char] + s, k + 1),
            ));
        } else {
            assert(b =~= seq![c] + tail);
            assert(b.drop_first() =~= tail);
        }
    }
}

proof fn lemma_data_roundtrip(session: u32, pos: u32, data: Seq<char>)
    requires
        session < 2147483648,
        pos < 2147483648,
        is_ascii_chars(data),
        packet_bytes(PacketView::Data { session, pos, data }).len() < 1000,
    ensures
        decode_packet(packet_bytes(PacketView::Data { session, pos, data })) == Ok::<
            PacketView,
            PacketError,
        >(PacketView::Data { session, pos, data }),
{
    let b = packet_bytes(PacketView::Data { session, pos, data });
    let d1 = decimal(session as nat);
    let d2 = decimal(pos as nat);
    let e = escape(encode_utf8(data));
    let i: int = 6 + d1.len() + 1int;
    let j: int = i + d2.len() + 1int;
    assert(b =~= data_prefix() + (d1 + seq![47u8] + (d2 + seq![47u8] + e + seq![47u8])));
    assert(!starts_with(b, connect_prefix())) by {
        assert(b.len() >= 9 ==> b.take(9)[1] != connect_prefix()[1]);
    }
    assert(starts_with(b, data_prefix())) by {
        assert(b.take(6) =~= data_prefix());
    }
    assert(numeric_parse(b.skip(6), 0) == Ok::<(nat, int), PacketError>(
        (session as nat, d1.len() as int),
    )) by {
        assert(b.skip(6) =~= d1 + seq![47u8] + (d2 + seq![47u8] + e + seq![47u8]));
        lemma_numeric_roundtrip(session as nat, d2 + seq![47u8] + e + seq![47u8]);
    }
    assert(numeric_parse(b.skip(i), 0) == Ok::<(nat, int), PacketError>(
        (pos as nat, d2.len() as int),
    )) by {
        assert(b.skip(i) =~= d2 + seq![47u8] + (e + seq![47u8]));
        lemma_numeric_roundtrip(pos as nat, e + seq![47u8]);
    }
    assert(payload_parse(b.skip(j), false) == Ok::<(Seq<char>, int), PacketError>(
        (data, e.len() as int),
    )) by {
        assert(b.skip(j) =~= e + seq![47u8] + Seq::<u8>::empty());
        lemma_payload_roundtrip(encode_utf8(data), Seq::<u8>::empty());
        is_ascii_chars_encode_utf8(data);
        assert(byte_chars(encode_utf8(data)) =~= data);
    }
    assert(j + e.len() == b.len() - 1);
    assert(b.last() == 47);
}

proof fn lemma_ack_roundtrip(session: u32, length: u32)
    requires
        session < 2147483648,
        length < 2147483648,
        packet_bytes(PacketView::Ack { session, length }).len() < 1000,
    ensures
        decode_packet(packet_bytes(PacketView::Ack { session, length })) == Ok::<
            PacketView,
            PacketError,
        >(PacketView::Ack { session, length }),
{
    let b = packet_bytes(PacketView::Ack { session, length });
    let d1 = decimal(session as nat);
    let d2 = decimal(length as nat);
    lemma_decimal_ascii(session as nat);
    lemma_decimal_ascii(length as nat);
    assert(b[1] == 97);
    assert(b.take(5) =~= ack_prefix());
    assert(b.skip(5) =~= d1 + seq![47u8] + (d2 + seq![47u8]));
    lemma_numeric_roundtrip(session as nat, d2 + seq![47u8]);
    assert(b.skip(5 + d1.len() + 1int) =~= d2 + seq![47u8] + Seq::<u8>::empty());
    lemma_numeric_roundtrip(length as nat, Seq::<u8>::empty());
}

proof fn lemma_session_roundtrip(p: PacketView, prefix: Seq<u8>, session: u32)
    requires
        session < 2147483648,
        packet_bytes(p) == prefix + decimal(session as nat) + seq![47u8],
    ensures
        session_only(packet_bytes(p), prefix.len() as int) == Ok::<u32, PacketError>(session),
{
    let b = packet_bytes(p);
    assert(b.skip(prefix.len() as int) =~= decimal(session as nat) + seq![47u8]
        + Seq::<u8>::empty());
    lemma_numeric_roundtrip(session as nat, Seq::<u8>::empty());
}

/// A packet within the protocol's limits reads back from its bytes: every
/// number below 2^31, data made of ASCII characters, and fewer than 1000
/// bytes in all.
pub proof fn lemma_packet_roundtrip(p: PacketView)
    requires
        match p {
            PacketView::Connect { session } => session < 2147483648,
            PacketView::Close { session } => session < 2147483648,
            PacketView::Ack { session, length } => session < 2147483648 && length < 2147483648,
            PacketView::Data { session, pos, data } => session < 2147483648 && pos < 2147483648
                && is_ascii_chars(data),
        },
        packet_bytes(p).len() < 1000,
    ensures
        decode_packet(packet_bytes(p)) == Ok::<PacketView, PacketError>(p),
{
    let b = packet_bytes(p);
    match p {
        PacketView::Connect { session } => {
            assert(b.take(9) =~= connect_prefix());
            lemma_session_roundtrip(p, connect_prefix(), session);
        },
        PacketView::Close { session } => {
            assert(b[1] == 99 && b[2] == 108);
            assert(b.take(7) =~= close_prefix());
            lemma_session_roundtrip(p, close_prefix(), session);
        },
        PacketView::Ack { session, length } => {
            lemma_ack_roundtrip(session, length);
        },
        PacketView::Data { session, pos, data } => {
            lemma_data_roundtrip(session, pos, data);
        },
    }
}

} // verus!

//! The decisions of one LRCP session: what a received packet, a timeout or a
//! request from the local stream does to the session, and what the session
//! sends and wakes in answer. The caller owns the sockets, the timers and the
//! shared buffers; it hands each event in and carries out the reaction.
use vstd::prelude::*;
use vstd::utf8::encode_utf8;

use crate::lrcp::packets::{
    byte_chars, escaped_len, packet_session, payload_fit, Numeric, Packet, PacketView, Payload,
    BUFFER_SIZE,
};

verus! {

/// Which timer the session waits on for the next packet.
#[derive(Debug, PartialEq, Eq, Clone, Copy, Structural)]
pub enum Wait {
    /// Data or a connect request is unacknowledged: resend on expiry.
    Retransmission,
    /// Nothing is outstanding: the peer is checked for silence.
    SessionExpire,
}

/// What happened since the last step.
pub enum Event {
    /// The local stream was dropped.
    Exit,
    /// The local stream has written bytes and wants them sent.
    Wakeup,
    /// The local stream asked to shut down.
    Shutdown,
    /// The pending packet went out.
    Sent,
    /// A packet of this session arrived.
    Received(Packet),
    /// The packet source ended.
    ReceiveEmpty,
    /// The packet source failed.
    ReceiveFailed,
    /// No packet came within the current wait; `expired` tells whether the
    /// peer has been silent for longer than the session expiry.
    TimedOut { expired: bool },
}

pub ghost enum EventView {
    Exit,
    Wakeup,
    Shutdown,
    Sent,
    Received(PacketView),
    ReceiveEmpty,
    ReceiveFailed,
    TimedOut { expired: bool },
}

impl View for Event {
    type V = EventView;

    open spec fn view(&self) -> EventView {
        match self {
            Event::Exit => EventView::Exit,
            Event::Wakeup => EventView::Wakeup,
            Event::Shutdown => EventView::Shutdown,
            Event::Sent => EventView::Sent,
            Event::Received(p) => EventView::Received(p@),
            Event::ReceiveEmpty => EventView::ReceiveEmpty,
            Event::ReceiveFailed => EventView::ReceiveFailed,
            Event::TimedOut { expired } => EventView::TimedOut { expired: *expired },
        }
    }
}

/// What the caller does after a step, in this order: send `reply` at once,
/// wake the reader of the local stream, mark the local stream's sending side
/// closed and wake its writer and its shutdown, wake its writer, and end the
/// session.
pub struct Reaction {
    pub reply: Option<Packet>,
    pub wake_reader: bool,
    pub shut_upstream: bool,
    pub wake_writer: bool,
    pub stop: bool,
}

pub ghost struct ReactionView {
    pub reply: Option<PacketView>,
    pub wake_reader: bool,
    pub shut_upstream: bool,
    pub wake_writer: bool,
    pub stop: bool,
}

impl View for Reaction {
    type V = ReactionView;

    open spec fn view(&self) -> ReactionView {
        ReactionView {
            reply: match self.reply {
                Some(p) => Some(p@),
                None => None,
            },
            wake_reader: self.wake_reader,
            shut_upstream: self.shut_upstream,
            wake_writer: self.wake_writer,
            stop: self.stop,
        }
    }
}

/// The state of one session.
pub struct SessionState {
    /// This side opened the session.
    pub start_connection: bool,
    pub session: Numeric,
    /// The local stream asked to shut down.
    pub closing: bool,
    /// The closing packet went out.
    pub closed: bool,
    /// Bytes received in order so far.
    pub receiver_position: u32,
    /// The packet waiting to be sent.
    pub send_packet: Option<Packet>,
    /// The packet last sent, kept for retransmission.
    pub last_packet_sent: Option<Packet>,
    /// Bytes of the local stream acknowledged by the peer.
    pub sender_offset: u32,
    /// Bytes of the local stream sent so far.
    pub sender_length: u32,
    /// A sent packet awaits its acknowledgement.
    pub need_ack: bool,
    pub wait: Wait,
}

pub ghost struct SessionView {
    pub start_connection: bool,
    pub session: u32,
    pub closing: bool,
    pub closed: bool,
    pub receiver_position: u32,
    pub send_packet: Option<PacketView>,
    pub last_packet_sent: Option<PacketView>,
    pub sender_offset: u32,
    pub sender_length: u32,
    pub need_ack: bool,
    pub wait: Wait,
}

pub open spec fn packet_option_view(p: Option<Packet>) -> Option<PacketView> {
    match p {
        Some(p) => Some(p@),
        None => None,
    }
}

impl View for SessionState {
    type V = SessionView;

    open spec fn view(&self) -> SessionView {
        SessionView {
            start_connection: self.start_connection,
            session: self.session.0,
            closing: self.closing,
            closed: self.closed,
            receiver_position: self.receiver_position,
            send_packet: packet_option_view(self.send_packet),
            last_packet_sent: packet_option_view(self.last_packet_sent),
            sender_offset: self.sender_offset,
            sender_length: self.sender_length,
            need_ack: self.need_ack,
            wait: self.wait,
        }
    }
}

impl SessionView {
    /// What every step keeps: acknowledged bytes never pass sent bytes, the
    /// retransmission timer runs exactly while an acknowledgement is awaited,
    /// and a session is closed only after it began closing.
    pub open spec fn inv(self) -> bool {
        &&& self.sender_offset <= self.sender_length
        &&& (self.need_ack <==> self.wait == Wait::Retransmission)
        &&& (self.closed ==> self.closing)
    }
}

/// A step's result, before the caller sees it: the next state, the two
/// buffers, and the reaction.
pub ghost struct Outcome {
    pub state: SessionView,
    pub upstream: Seq<u8>,
    pub downstream: Seq<u8>,
    pub reaction: ReactionView,
}

pub open spec fn quiet() -> ReactionView {
    ReactionView {
        reply: None,
        wake_reader: false,
        shut_upstream: false,
        wake_writer: false,
        stop: false,
    }
}

pub open spec fn reply(p: PacketView) -> ReactionView {
    ReactionView { reply: Some(p), ..quiet() }
}

/// A received data packet.
pub open spec fn on_data(
    s: SessionView,
    pos: u32,
    data: Seq<char>,
    up: Seq<u8>,
    down: Seq<u8>,
) -> Outcome {
    let same = Outcome { state: s, upstream: up, downstream: down, reaction: quiet() };
    let bytes = encode_utf8(data);
    let rp = s.receiver_position;
    if s.closed || s.closing {
        Outcome { reaction: reply(PacketView::Close { session: s.session }), ..same }
    } else if pos == rp {
        let next = (rp + bytes.len()) as u32;
        Outcome {
            state: SessionView { receiver_position: next, ..s },
            downstream: down + bytes,
            reaction: ReactionView {
                wake_reader: bytes.len() > 0,
                ..reply(PacketView::Ack { session: s.session, length: next })
            },
            ..same
        }
    } else if pos < rp {
        if pos + bytes.len() > rp {
            let next = (pos + bytes.len()) as u32;
            Outcome {
                state: SessionView { receiver_position: next, ..s },
                downstream: down + bytes.skip(rp - pos),
                reaction: ReactionView {
                    wake_reader: true,
                    ..reply(PacketView::Ack { session: s.session, length: next })
                },
                ..same
            }
        } else {
            Outcome { reaction: reply(PacketView::Ack { session: s.session, length: rp }), ..same }
        }
    } else {
        same
    }
}

/// Drops the first `n` bytes of the buffer if it holds that many.
pub open spec fn release(up: Seq<u8>, n: int) -> Seq<u8> {
    if n > up.len() {
        up
    } else {
        up.skip(n)
    }
}

/// A received acknowledgement.
pub open spec fn on_ack(s: SessionView, length: u32, up: Seq<u8>, down: Seq<u8>) -> Outcome {
    let same = Outcome { state: s, upstream: up, downstream: down, reaction: quiet() };
    let acked = SessionView {
        sender_offset: length,
        sender_length: length,
        need_ack: false,
        wait: Wait::SessionExpire,
        ..s
    };
    if s.closed || s.closing {
        Outcome { reaction: reply(PacketView::Close { session: s.session }), ..same }
    } else if length == s.sender_length {
        Outcome {
            state: acked,
            upstream: if s.sender_length > s.sender_offset {
                release(up, s.sender_length - s.sender_offset)
            } else {
                up
            },
            ..same
        }
    } else if length < s.sender_length {
        if length > s.sender_offset {
            Outcome { state: acked, upstream: release(up, length - s.sender_offset), ..same }
        } else {
            same
        }
    } else {
        Outcome { state: SessionView { closing: true, ..s }, ..same }
    }
}

/// Closes the local stream's sending side and ends the session, after
/// telling the peer.
pub open spec fn finish(s: SessionView, up: Seq<u8>, down: Seq<u8>) -> Outcome {
    Outcome {
        state: s,
        upstream: up,
        downstream: down,
        reaction: ReactionView {
            shut_upstream: true,
            stop: true,
            ..reply(PacketView::Close { session: s.session })
        },
    }
}

/// What an event does, before the session looks for something to send.
pub open spec fn on_event(s: SessionView, e: EventView, up: Seq<u8>, down: Seq<u8>) -> Outcome {
    let same = Outcome { state: s, upstream: up, downstream: down, reaction: quiet() };
    match e {
        EventView::Exit => Outcome { reaction: ReactionView { stop: true, ..quiet() }, ..same },
        EventView::Wakeup => same,
        EventView::Shutdown => Outcome { state: SessionView { closing: true, ..s }, ..same },
        EventView::Sent => Outcome {
            state: SessionView {
                last_packet_sent: s.send_packet,
                send_packet: None,
                closed: s.closed || s.closing,
                ..s
            },
            ..same
        },
        EventView::Received(p) => match p {
            PacketView::Data { pos, data, .. } => on_data(s, pos, data, up, down),
            PacketView::Ack { length, .. } => on_ack(s, length, up, down),
            PacketView::Close { .. } => if s.closing {
                if s.closed {
                    same
                } else {
                    Outcome {
                        state: SessionView { closed: true, ..s },
                        reaction: reply(PacketView::Close { session: s.session }),
                        ..same
                    }
                }
            } else {
                finish(s, up, down)
            },
            PacketView::Connect { .. } => if s.start_connection {
                same
            } else {
                Outcome {
                    reaction: reply(PacketView::Ack { session: s.session, length: 0 }),
                    ..same
                }
            },
        },
        EventView::ReceiveEmpty => same,
        EventView::ReceiveFailed => same,
        EventView::TimedOut { expired } => if expired {
            finish(s, up, down)
        } else if s.need_ack {
            Outcome {
                state: SessionView {
                    send_packet: if s.last_packet_sent is Some {
                        s.last_packet_sent
                    } else {
                        s.send_packet
                    },
                    last_packet_sent: None,
                    ..s
                },
                ..same
            }
        } else {
            same
        },
    }
}

/// After an event: with nothing unacknowledged and nothing pending, the
/// session sends its close when closing, or the next payload of the local
/// stream's bytes.
pub open spec fn settle(o: Outcome) -> Outcome {
    let s = o.state;
    if s.need_ack || s.send_packet is Some {
        o
    } else if s.closing {
        if s.closed {
            Outcome { reaction: ReactionView { shut_upstream: true, ..o.reaction }, ..o }
        } else {
            Outcome {
                state: SessionView {
                    send_packet: Some(PacketView::Close { session: s.session }),
                    ..s
                },
                ..o
            }
        }
    } else if o.upstream.len() == 0 {
        Outcome { reaction: ReactionView { wake_writer: true, ..o.reaction }, ..o }
    } else {
        let data = byte_chars(o.upstream.take(payload_fit(o.upstream)));
        Outcome {
            state: SessionView {
                sender_length: (s.sender_length + encode_utf8(data).len()) as u32,
                send_packet: Some(
                    PacketView::Data { session: s.session, pos: s.sender_offset, data },
                ),
                need_ack: true,
                wait: Wait::Retransmission,
                ..s
            },
            ..o
        }
    }
}

/// A full step: the event, then, unless the session ended, the search for
/// something to send.
pub open spec fn step_outcome(s: SessionView, e: EventView, up: Seq<u8>, down: Seq<u8>) -> Outcome {
    let o = on_event(s, e, up, down);
    if o.reaction.stop {
        o
    } else {
        settle(o)
    }
}

/// What a step may be given: a packet of this session, and data that ends
/// within the 32-bit stream positions.
pub open spec fn event_fits(s: SessionView, e: EventView) -> bool {
    match e {
        EventView::Received(p) => packet_session(p) == s.session && match p {
            PacketView::Data { pos, data, .. } => pos + encode_utf8(data).len() <= u32::MAX,
            _ => true,
        },
        _ => true,
    }
}

/// Removes the first `n` bytes of `v` and returns them.
pub fn drain_front(v: &mut Vec<u8>, n: usize) -> (r: Vec<u8>)
    requires
        n <= old(v)@.len(),
    ensures
        r@ == old(v)@.take(n as int),
        final(v)@ == old(v)@.skip(n as int),
{
    let mut rest = v.split_off(n);
    std::mem::swap(v, &mut rest);
    assert(rest@ =~= old(v)@.take(n as int));
    rest
}

/// A payload carries a prefix of the buffer.
proof fn lemma_payload_fit_bounds(b: Seq<u8>)
    ensures
        0 <= payload_fit(b) <= b.len(),
    decreases b.len(),
{
    if b.len() > 0 && !(escaped_len(b) < BUFFER_SIZE) {
        lemma_payload_fit_bounds(b.drop_last());
    }
}

impl SessionState {
    /// A session that opens the connection sends its connect request first
    /// and waits for the acknowledgement; one that accepts it waits for the
    /// peer.
    pub fn new(start_connection: bool, session: Numeric) -> (r: SessionState)
        ensures
            r@.start_connection == start_connection,
            r@.session == session.0,
            !r@.closing && !r@.closed,
            r@.receiver_position == 0,
            r@.sender_offset == 0 && r@.sender_length == 0,
            start_connection ==> {
                &&& r@.send_packet == Some(PacketView::Connect { session: session.0 })
                &&& r@.last_packet_sent == Some(PacketView::Connect { session: session.0 })
                &&& r@.need_ack
                &&& r@.wait == Wait::Retransmission
            },
            !start_connection ==> {
                &&& r@.send_packet is None
                &&& r@.last_packet_sent is None
                &&& !r@.need_ack
                &&& r@.wait == Wait::SessionExpire
            },
            r@.inv(),
    {
        if start_connection {
            SessionState {
                start_connection,
                session,
                closing: false,
                closed: false,
                receiver_position: 0,
                send_packet: Some(Packet::Connect { session }),
                last_packet_sent: Some(Packet::Connect { session }),
                sender_offset: 0,
                sender_length: 0,
                need_ack: true,
                wait: Wait::Retransmission,
            }
        } else {
            SessionState {
                start_connection,
                session,
                closing: false,
                closed: false,
                receiver_position: 0,
                send_packet: None,
                last_packet_sent: None,
                sender_offset: 0,
                sender_length: 0,
                need_ack: false,
                wait: Wait::SessionExpire,
            }
        }
    }
}

/// Escaping never shortens.
proof fn lemma_escaped_len_at_least(b: Seq<u8>)
    ensures
        escaped_len(b) >= b.len(),
    decreases b.len(),
{
    if b.len() > 0 {
        lemma_escaped_len_at_least(b.drop_last());
    }
}

/// A character takes at most four bytes of UTF-8.
proof fn lemma_utf8_len_bound(chars: Seq<char>)
    ensures
        encode_utf8(chars).len() <= 4 * chars.len(),
    decreases chars.len(),
{
    if chars.len() > 0 {
        lemma_utf8_len_bound(chars.drop_first());
    }
}

impl SessionState {
    /// A received data packet of this session.
    fn on_data(&mut self, pos: Numeric, data: Payload, downstream: &mut Vec<u8>) -> (r: Reaction)
        requires
            pos.0 + encode_utf8(data.0@).len() <= u32::MAX,
        ensures
            ({
                let o = on_data(old(self)@, pos.0, data.0@, Seq::empty(), old(downstream)@);
                &&& final(self)@ == o.state
                &&& final(downstream)@ == o.downstream
                &&& r@ == o.reaction
            }),
    {
        let session = self.session;
        if self.closed || self.closing {
            return Reaction {
                reply: Some(Packet::Close { session }),
                wake_reader: false,
                shut_upstream: false,
                wake_writer: false,
                stop: false,
            };
        }
        let rp = self.receiver_position;
        let total = data.0.as_str().len();
        if pos.0 == rp {
            let len = data.write(downstream, 0);
            assert(encode_utf8(data.0@).skip(0) =~= encode_utf8(data.0@));
            self.receiver_position = rp + len;
            Reaction {
                reply: Some(Packet::Ack { session, length: Numeric(self.receiver_position) }),
                wake_reader: len > 0,
                shut_upstream: false,
                wake_writer: false,
                stop: false,
            }
        } else if pos.0 < rp {
            if pos.0 + (total as u32) > rp {
                let len = data.write(downstream, rp - pos.0);
                self.receiver_position = rp + len;
                Reaction {
                    reply: Some(Packet::Ack { session, length: Numeric(self.receiver_position) }),
                    wake_reader: len > 0,
                    shut_upstream: false,
                    wake_writer: false,
                    stop: false,
                }
            } else {
                Reaction {
                    reply: Some(Packet::Ack { session, length: Numeric(rp) }),
                    wake_reader: false,
                    shut_upstream: false,
                    wake_writer: false,
                    stop: false,
                }
            }
        } else {
            Reaction {
                reply: None,
                wake_reader: false,
                shut_upstream: false,
                wake_writer: false,
                stop: false,
            }
        }
    }

    /// Drops `n` acknowledged bytes from the front of the outgoing buffer,
    /// unless it holds fewer.
    fn release_front(upstream: &mut Vec<u8>, n: u32)
        ensures
            final(upstream)@ == release(old(upstream)@, n as int),
    {
        if (n as usize) <= upstream.len() {
            drain_front(upstream, n as usize);
        }
    }

    /// A received acknowledgement of this session.
    fn on_ack(&mut self, length: Numeric, upstream: &mut Vec<u8>) -> (r: Reaction)
        ensures
            ({
                let o = on_ack(old(self)@, length.0, old(upstream)@, Seq::empty());
                &&& final(self)@ == o.state
                &&& final(upstream)@ == o.upstream
                &&& r@ == o.reaction
            }),
    {
        let mut r = Reaction {
            reply: None,
            wake_reader: false,
            shut_upstream: false,
            wake_writer: false,
            stop: false,
        };
        if self.closed || self.closing {
            r.reply = Some(Packet::Close { session: self.session });
            return r;
        }
        let length = length.0;
        if length == self.sender_length {
            if self.sender_length > self.sender_offset {
                Self::release_front(upstream, self.sender_length - self.sender_offset);
            }
            self.sender_offset = length;
            self.need_ack = false;
            self.wait = Wait::SessionExpire;
        } else if length < self.sender_length {
            if length > self.sender_offset {
                Self::release_front(upstream, length - self.sender_offset);
                self.sender_length = length;
                self.sender_offset = length;
                self.need_ack = false;
                self.wait = Wait::SessionExpire;
            }
        } else {
            self.closing = true;
        }
        r
    }

    /// With nothing unacknowledged and nothing pending: the close when
    /// closing, or the next payload of the outgoing bytes.
    fn settle(&mut self, upstream: &Vec<u8>, r: &mut Reaction)
        requires
            old(self)@.sender_length + 4 * BUFFER_SIZE <= u32::MAX,
        ensures
            ({
                let o = settle(
                    Outcome {
                        state: old(self)@,
                        upstream: upstream@,
                        downstream: Seq::empty(),
                        reaction: old(r)@,
                    },
                );
                &&& final(self)@ == o.state
                &&& final(r)@ == o.reaction
            }),
    {
        if self.need_ack || self.send_packet.is_some() {
            return;
        }
        if self.closing {
            if self.closed {
                r.shut_upstream = true;
            } else {
                self.send_packet = Some(Packet::Close { session: self.session });
            }
            return;
        }
        match Payload::new(upstream.as_slice()) {
            Some(data) => {
                proof {
                    let k = payload_fit(upstream@);
                    lemma_escaped_len_at_least(upstream@.take(k));
                    lemma_utf8_len_bound(data.0@);
                }
                let added = data.0.as_str().len() as u32;
                self.sender_length = self.sender_length + added;
                self.send_packet = Some(
                    Packet::Data { session: self.session, pos: Numeric(self.sender_offset), data },
                );
                self.need_ack = true;
                self.wait = Wait::Retransmission;
            },
            None => {
                r.wake_writer = true;
            },
        }
    }

    /// The event alone, before anything new is sent.
    fn handle(&mut self, event: Event, upstream: &mut Vec<u8>, downstream: &mut Vec<u8>) -> (r:
        Reaction)
        requires
            event_fits(old(self)@, event@),
        ensures
            ({
                let o = on_event(old(self)@, event@, old(upstream)@, old(downstream)@);
                &&& final(self)@ == o.state
                &&& final(upstream)@ == o.upstream
                &&& final(downstream)@ == o.downstream
                &&& r@ == o.reaction
            }),
    {
        let mut r = Reaction {
            reply: None,
            wake_reader: false,
            shut_upstream: false,
            wake_writer: false,
            stop: false,
        };
        match event {
            Event::Exit => {
                r.stop = true;
            },
            Event::Wakeup => {},
            Event::Shutdown => {
                self.closing = true;
            },
            Event::Sent => {
                self.last_packet_sent = self.send_packet.take();
                if self.closing {
                    self.closed = true;
                }
            },
            Event::Received(packet) => match packet {
                Packet::Data { pos, data, .. } => {
                    r = self.on_data(pos, data, downstream);
                },
                Packet::Ack { length, .. } => {
                    r = self.on_ack(length, upstream);
                },
                Packet::Close { .. } => {
                    if self.closing {
                        if !self.closed {
                            r.reply = Some(Packet::Close { session: self.session });
                            self.closed = true;
                        }
                    } else {
                        r.reply = Some(Packet::Close { session: self.session });
                        r.shut_upstream = true;
                        r.stop = true;
                    }
                },
                Packet::Connect { .. } => {
                    if !self.start_connection {
                        r.reply = Some(Packet::Ack { session: self.session, length: Numeric(0) });
                    }
                },
            },
            Event::ReceiveEmpty => {},
            Event::ReceiveFailed => {},
            Event::TimedOut { expired } => {
                if expired {
                    r.reply = Some(Packet::Close { session: self.session });
                    r.shut_upstream = true;
                    r.stop = true;
                } else if self.need_ack {
                    if let Some(packet) = self.last_packet_sent.take() {
                        self.send_packet = Some(packet);
                    }
                }
            },
        }
        r
    }

    /// One event of the session: what it changes, and what the caller must
    /// send, wake and close.
    pub fn step(&mut self, event: Event, upstream: &mut Vec<u8>, downstream: &mut Vec<u8>) -> (r:
        Reaction)
        requires
            event_fits(old(self)@, event@),
            old(self)@.sender_length + 4 * BUFFER_SIZE <= u32::MAX,
        ensures
            ({
                let o = step_outcome(old(self)@, event@, old(upstream)@, old(downstream)@);
                &&& final(self)@ == o.state
                &&& final(upstream)@ == o.upstream
                &&& final(downstream)@ == o.downstream
                &&& r@ == o.reaction
            }),
    {
        let mut r = self.handle(event, upstream, downstream);
        if r.stop {
            return r;
        }
        self.settle(upstream, &mut r);
        r
    }
}

/// Every step keeps the session's invariant.
pub proof fn lemma_step_keeps_inv(s: SessionView, e: EventView, up: Seq<u8>, down: Seq<u8>)
    requires
        s.inv(),
        s.sender_length + 4 * BUFFER_SIZE <= u32::MAX,
    ensures
        step_outcome(s, e, up, down).state.inv(),
{
    let o = on_event(s, e, up, down);
    let k = payload_fit(o.upstream);
    lemma_payload_fit_bounds(o.upstream);
    lemma_payload_fit_fits(o.upstream);
    lemma_escaped_len_at_least(o.upstream.take(k));
    lemma_utf8_len_bound(byte_chars(o.upstream.take(k)));
}

/// The prefix that a payload carries escapes to fewer than `BUFFER_SIZE`
/// bytes.
proof fn lemma_payload_fit_fits(b: Seq<u8>)
    ensures
        escaped_len(b.take(payload_fit(b))) < BUFFER_SIZE,
    decreases b.len(),
{
    if b.len() == 0 {
        assert(b.take(0) =~= Seq::<u8>::empty());
    } else if escaped_len(b) < BUFFER_SIZE {
        assert(b.take(b.len() as int) =~= b);
    } else {
        let c = b.drop_last();
        lemma_payload_fit_fits(c);
        lemma_payload_fit_bounds(c);
        assert(c.take(payload_fit(c)) =~= b.take(payload_fit(c)));
    }
}

/// The position of the received stream moves by exactly the bytes handed to
/// the local reader.
pub proof fn lemma_step_delivers(s: SessionView, e: EventView, up: Seq<u8>, down: Seq<u8>)
    requires
        event_fits(s, e),
    ensures
        ({
            let o = step_outcome(s, e, up, down);
            o.state.receiver_position - s.receiver_position == o.downstream.len() - down.len()
        }),
{
}

/// Data that arrives at the receiver position is delivered and
/// acknowledged in full: its bytes are appended downstream, the receiver
/// position moves past them, and the reply acknowledges exactly the new
/// position. Whenever a data packet moves the received stream forward, the
/// reply is an acknowledgement of the new position, so the peer learns of
/// every byte taken.
pub proof fn lemma_data_acknowledged(s: SessionView, pos: u32, data: Seq<char>, up: Seq<u8>, down: Seq<u8>)
    requires
        s.inv(),
        !s.closing,
        pos + encode_utf8(data).len() <= u32::MAX,
    ensures
        ({
            let e = EventView::Received(PacketView::Data { session: s.session, pos, data });
            let o = step_outcome(s, e, up, down);
            &&& pos == s.receiver_position ==> {
                &&& o.downstream == down + encode_utf8(data)
                &&& o.state.receiver_position == s.receiver_position + encode_utf8(data).len()
                &&& o.reaction.reply == Some(
                    PacketView::Ack { session: s.session, length: (pos + encode_utf8(data).len()) as u32 },
                )
            }
            &&& o.state.receiver_position > s.receiver_position ==> o.reaction.reply == Some(
                PacketView::Ack { session: s.session, length: o.state.receiver_position },
            )
            &&& pos <= s.receiver_position ==> o.reaction.reply == Some(
                PacketView::Ack { session: s.session, length: o.state.receiver_position },
            )
            &&& pos < s.receiver_position && pos + encode_utf8(data).len() <= s.receiver_position ==> {
                &&& o.downstream == down
                &&& o.state.receiver_position == s.receiver_position
            }
            &&& pos > s.receiver_position ==> {
                &&& o.downstream == down
                &&& o.state.receiver_position == s.receiver_position
                &&& o.reaction.reply is None
            }
        }),
{
}

/// A closing session answers every data packet with a close and takes none
/// of its bytes.
pub proof fn lemma_closing_refuses_data(s: SessionView, pos: u32, data: Seq<char>, up: Seq<u8>, down: Seq<u8>)
    requires
        s.closing,
    ensures
        ({
            let e = EventView::Received(PacketView::Data { session: s.session, pos, data });
            let o = step_outcome(s, e, up, down);
            &&& o.downstream == down
            &&& o.state.receiver_position == s.receiver_position
            &&& o.reaction.reply == Some(PacketView::Close { session: s.session })
        }),
{
}

/// An acknowledgement of everything sent releases the acknowledged bytes of
/// the local stream, and nothing is awaited any more until more is sent.
pub proof fn lemma_full_ack_releases(s: SessionView, up: Seq<u8>, down: Seq<u8>)
    requires
        s.inv(),
        !s.closing,
        s.sender_length - s.sender_offset <= up.len(),
    ensures
        ({
            let e = EventView::Received(PacketView::Ack { session: s.session, length: s.sender_length });
            let o = on_event(s, e, up, down);
            &&& o.upstream == up.skip(s.sender_length - s.sender_offset)
            &&& o.state.sender_offset == s.sender_length
            &&& !o.state.need_ack
            &&& o.reaction.reply is None
        }),
{
    assert(up.skip(0) =~= up);
}

} // verus!

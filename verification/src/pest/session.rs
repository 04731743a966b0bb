//! The conversations of pest control: a site's visitor, which greets the
//! site and passes its visits on; the dialling of a site's authority, which
//! greets it and asks for the site's targets; the pauses between attempts
//! to reach an authority; and the text of the errors sent back.
use vstd::prelude::*;

use crate::pest::packets::{hello, site_visit, target_populations, Packet};
use crate::pest::packets::dial_authority;
use crate::pest::wire::CodecError;
use crate::text::{hex_byte, push_hex_byte};

verus! {

/// The greeting this side expects: protocol `pestcontrol`, version 1.
pub open spec fn is_expected_hello(p: &hello::Packet) -> bool {
    p.protocol@ == hello::PESTCONTROL_PROTOCOL@ && p.version == hello::PESTCONTROL_VERSION
}

/// Whether a greeting is the expected one.
pub fn expected_hello(p: &hello::Packet) -> (r: bool)
    ensures
        r == is_expected_hello(p),
{
    crate::text::str_equal(p.protocol.as_str(), hello::PESTCONTROL_PROTOCOL) && p.version
        == hello::PESTCONTROL_VERSION
}

/// The text of a decoding error.
pub open spec fn codec_error_text(e: CodecError) -> Seq<char> {
    match e {
        CodecError::UnknownPacket(t) => "unknown packet: 0x"@ + hex_byte(t),
        CodecError::InvalidPacket => "invalid packet"@,
        CodecError::InvalidChecksum => "invalid checksum"@,
    }
}

/// The text of a decoding error.
pub fn error_text(e: CodecError) -> (r: String)
    ensures
        r@ == codec_error_text(e),
{
    match e {
        CodecError::UnknownPacket(t) => {
            let mut s = String::from_str("unknown packet: 0x");
            push_hex_byte(&mut s, t);
            s
        },
        CodecError::InvalidPacket => String::from_str("invalid packet"),
        CodecError::InvalidChecksum => String::from_str("invalid checksum"),
    }
}

/// What the stream of a site's messages gave.
#[derive(Debug, PartialEq, Eq, Clone)]
pub enum Incoming {
    Received(Packet),
    Failed(CodecError),
    Ended,
}

/// Where a visitor's conversation stands.
#[derive(Debug, PartialEq, Eq, Clone, Copy, Structural)]
pub enum VisitorStage {
    AwaitingHello,
    Visiting,
    Closed,
}

/// What a visitor does next.
#[derive(Debug, PartialEq, Eq, Clone)]
pub enum VisitorAction {
    /// Greet the site.
    SendHello,
    /// Pass a visit on.
    Forward(site_visit::Packet),
    /// Send the site an `Error` with this text and stop.
    SendError(String),
    /// Stop.
    Finish,
}

pub open spec fn receiving_text(e: CodecError) -> Seq<char> {
    "packet receiving error: "@ + codec_error_text(e)
}

pub open spec fn waiting_hello_text() -> Seq<char> {
    "invalid packet: waiting hello msg"@
}

pub open spec fn unexpected_text() -> Seq<char> {
    "invalid packet: got invalid packet"@
}

/// The text an action sends, if it sends one.
pub open spec fn error_sent(a: VisitorAction) -> Option<Seq<char>> {
    match a {
        VisitorAction::SendError(s) => Some(s@),
        _ => None,
    }
}

/// One site's conversation: a greeting, then visits.
pub struct Visitor {
    pub stage: VisitorStage,
}

impl Visitor {
    pub fn new() -> (r: Visitor)
        ensures
            r.stage == VisitorStage::AwaitingHello,
    {
        Visitor { stage: VisitorStage::AwaitingHello }
    }

    fn refuse(&mut self, text: String) -> (r: VisitorAction)
        ensures
            final(self).stage == VisitorStage::Closed,
            r == VisitorAction::SendError(text),
    {
        self.stage = VisitorStage::Closed;
        VisitorAction::SendError(text)
    }

    /// The next step on what the site's stream gave. The first message must
    /// be the expected greeting, which is returned; after it, visits are
    /// passed on until the stream ends. Any other message, or a decoding
    /// error, is answered with an `Error` and ends the conversation.
    pub fn on_incoming(&mut self, input: Incoming) -> (r: VisitorAction)
        ensures
            match old(self).stage {
                VisitorStage::AwaitingHello => match input {
                    Incoming::Received(Packet::Hello(h)) if is_expected_hello(&h) => r
                        == VisitorAction::SendHello && final(self).stage == VisitorStage::Visiting,
                    Incoming::Failed(e) => error_sent(r) == Some(receiving_text(e)) && final(self).stage
                        == VisitorStage::Closed,
                    _ => error_sent(r) == Some(waiting_hello_text()) && final(self).stage
                        == VisitorStage::Closed,
                },
                VisitorStage::Visiting => match input {
                    Incoming::Received(Packet::SiteVisit(v)) => r == VisitorAction::Forward(v)
                        && final(self).stage == VisitorStage::Visiting,
                    Incoming::Received(_) => error_sent(r) == Some(unexpected_text())
                        && final(self).stage == VisitorStage::Closed,
                    Incoming::Failed(e) => error_sent(r) == Some(receiving_text(e)) && final(self).stage
                        == VisitorStage::Closed,
                    Incoming::Ended => r == VisitorAction::Finish && final(self).stage
                        == VisitorStage::Closed,
                },
                VisitorStage::Closed => r == VisitorAction::Finish && final(self).stage
                    == VisitorStage::Closed,
            },
    {
        match self.stage {
            VisitorStage::AwaitingHello => match input {
                Incoming::Received(Packet::Hello(h)) => {
                    if expected_hello(&h) {
                        self.stage = VisitorStage::Visiting;
                        VisitorAction::SendHello
                    } else {
                        self.refuse(String::from_str("invalid packet: waiting hello msg"))
                    }
                },
                Incoming::Failed(e) => {
                    let mut s = String::from_str("packet receiving error: ");
                    s.append(error_text(e).as_str());
                    self.refuse(s)
                },
                _ => self.refuse(String::from_str("invalid packet: waiting hello msg")),
            },
            VisitorStage::Visiting => match input {
                Incoming::Received(Packet::SiteVisit(v)) => VisitorAction::Forward(v),
                Incoming::Received(_) => self.refuse(String::from_str("invalid packet: got invalid packet")),
                Incoming::Failed(e) => {
                    let mut s = String::from_str("packet receiving error: ");
                    s.append(error_text(e).as_str());
                    self.refuse(s)
                },
                Incoming::Ended => {
                    self.stage = VisitorStage::Closed;
                    VisitorAction::Finish
                },
            },
            VisitorStage::Closed => VisitorAction::Finish,
        }
    }
}

/// Where the dialling of an authority stands.
#[derive(Debug, PartialEq, Eq, Clone, Copy, Structural)]
pub enum DialStage {
    /// Greeted it; waits for its greeting.
    AwaitingHello,
    /// Asked for the site; waits for its targets.
    AwaitingTargets,
    Connected,
    Failed,
}

/// What the dialling does next.
#[derive(Debug, PartialEq, Eq, Clone)]
pub enum DialAction {
    Send(Packet),
    /// The authority gave the site's targets.
    Connected(Vec<target_populations::Population>),
    /// The attempt failed.
    Fail,
}

/// The dialling of the authority for one site.
pub struct Dialer {
    pub site: u32,
    pub stage: DialStage,
}

impl Dialer {
    /// Starts dialling: the first message is this side's greeting.
    pub fn start(site: u32) -> (r: (Dialer, Packet))
        ensures
            r.0.site == site,
            r.0.stage == DialStage::AwaitingHello,
            r.1 matches Packet::Hello(h) && h.protocol@ == hello::PESTCONTROL_PROTOCOL@ && h.version
                == hello::PESTCONTROL_VERSION,
    {
        (Dialer { site, stage: DialStage::AwaitingHello }, Packet::Hello(hello::Packet::new()))
    }

    /// The next step on the authority's answer (`None`: none came, or it
    /// could not be read). Its greeting must be the expected one, and the
    /// targets must be for this site.
    pub fn on_reply(&mut self, reply: Option<Packet>) -> (r: DialAction)
        ensures
            final(self).site == old(self).site,
            match old(self).stage {
                DialStage::AwaitingHello => match reply {
                    Some(Packet::Hello(h)) if is_expected_hello(&h) => r == DialAction::Send(
                        Packet::DialAuthority(dial_authority::Packet { site: old(self).site }),
                    ) && final(self).stage == DialStage::AwaitingTargets,
                    _ => r == DialAction::Fail && final(self).stage == DialStage::Failed,
                },
                DialStage::AwaitingTargets => match reply {
                    Some(Packet::TargetPopulations(t)) if t.site == old(self).site => r
                        == DialAction::Connected(t.populations) && final(self).stage
                        == DialStage::Connected,
                    _ => r == DialAction::Fail && final(self).stage == DialStage::Failed,
                },
                _ => r == DialAction::Fail && final(self).stage == old(self).stage,
            },
    {
        match self.stage {
            DialStage::AwaitingHello => match reply {
                Some(Packet::Hello(h)) => {
                    if expected_hello(&h) {
                        self.stage = DialStage::AwaitingTargets;
                        DialAction::Send(Packet::DialAuthority(dial_authority::Packet { site: self.site }))
                    } else {
                        self.stage = DialStage::Failed;
                        DialAction::Fail
                    }
                },
                _ => {
                    self.stage = DialStage::Failed;
                    DialAction::Fail
                },
            },
            DialStage::AwaitingTargets => match reply {
                Some(Packet::TargetPopulations(t)) => {
                    if t.site == self.site {
                        self.stage = DialStage::Connected;
                        DialAction::Connected(t.populations)
                    } else {
                        self.stage = DialStage::Failed;
                        DialAction::Fail
                    }
                },
                _ => {
                    self.stage = DialStage::Failed;
                    DialAction::Fail
                },
            },
            _ => DialAction::Fail,
        }
    }
}

/// How many times an authority is dialled again after a first failure.
pub const MAX_RETRY: usize = 5;

/// The pause before the first new attempt, in milliseconds.
pub const INITIAL_BACKOFF_MS: u64 = 100;

/// The pauses between attempts to reach an authority: each twice the one
/// before, and no more than `MAX_RETRY` of them.
pub struct Backoff {
    retry: usize,
    delay_ms: u64,
}

/// The pause before the new attempt `k` (from 1), in milliseconds.
pub open spec fn pause(k: nat) -> nat
    decreases k,
{
    if k <= 1 {
        INITIAL_BACKOFF_MS as nat
    } else {
        2 * pause((k - 1) as nat)
    }
}

impl Backoff {
    /// The failures so far.
    pub closed spec fn failures(&self) -> nat {
        self.retry as nat
    }

    closed spec fn wf(&self) -> bool {
        self.retry <= MAX_RETRY + 1 && (self.retry <= MAX_RETRY ==> self.delay_ms == pause(
            (self.retry + 1) as nat,
        ))
    }

    pub fn new() -> (r: Backoff)
        ensures
            r.failures() == 0,
            r.inv(),
    {
        Backoff { retry: 0, delay_ms: INITIAL_BACKOFF_MS }
    }

    /// The backoff is consistent.
    pub closed spec fn inv(&self) -> bool {
        self.wf()
    }

    /// An attempt failed: the pause before the next, or `None` when no
    /// attempt is left.
    pub fn failed(&mut self) -> (r: Option<u64>)
        requires
            old(self).inv(),
            old(self).failures() <= MAX_RETRY,
        ensures
            final(self).inv(),
            final(self).failures() == old(self).failures() + 1,
            old(self).failures() + 1 <= MAX_RETRY ==> r == Some(pause(old(self).failures() + 1) as u64),
            old(self).failures() + 1 > MAX_RETRY ==> r is None,
    {
        self.retry = self.retry + 1;
        if self.retry > MAX_RETRY {
            return None;
        }
        let d = self.delay_ms;
        assert(pause(2) == 200 && pause(3) == 400 && pause(4) == 800 && pause(5) == 1600 && pause(6) == 3200) by {
            reveal_with_fuel(pause, 7);
        }
        self.delay_ms = d * 2;
        Some(d)
    }
}

} // verus!

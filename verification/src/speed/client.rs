//! A connected client of the speed-limit service: what it may send given
//! what it has said it is, and the heartbeat it asked for.
use vstd::prelude::*;

use crate::text::{hex_byte, push_hex_byte};

verus! {

/// The heartbeat a client asked for, as a period in milliseconds.
pub struct Heartbeat {
    period_ms: Option<u64>,
}

impl Heartbeat {
    /// The period asked for, if any.
    pub closed spec fn period(&self) -> Option<u64> {
        self.period_ms
    }

    /// A heartbeat with the given period, or none yet.
    pub fn new(period_ms: Option<u64>) -> (r: Heartbeat)
        ensures
            r.period() == period_ms,
    {
        let mut r = Heartbeat { period_ms: None };
        match period_ms {
            Some(p) => r.set_period(p),
            None => {},
        }
        r
    }

    /// The client asked for a heartbeat every `period_ms` milliseconds; zero
    /// asks for none.
    pub fn set_period(&mut self, period_ms: u64)
        ensures
            final(self).period() == Some(period_ms),
    {
        self.period_ms = Some(period_ms);
    }

    /// Whether heartbeats are to be sent: a non-zero period was asked for.
    pub fn is_valid(&self) -> (r: bool)
        ensures
            r == (self.period() matches Some(p) && p != 0),
    {
        match self.period_ms {
            Some(p) => p != 0,
            None => false,
        }
    }

    /// Whether the client has asked for a heartbeat; it may ask once.
    pub fn is_setted(&self) -> (r: bool)
        ensures
            r == self.period() is Some,
    {
        self.period_ms.is_some()
    }
}

/// What a client has said it is.
#[derive(Debug, PartialEq, Eq, Clone, Copy, Structural)]
pub enum Role {
    Unidentified,
    Camera,
    Dispatcher,
}

/// What the server does with a message's tag byte.
#[derive(Debug, PartialEq, Eq, Clone)]
pub enum TagAction {
    /// Read an `IAmCamera` and serve the client as a camera.
    IAmCamera,
    /// Read an `IAmDispatcher` and serve the client as a dispatcher.
    IAmDispatcher,
    /// Read a `WantHeartbeat`.
    WantHeartbeat,
    /// Read a `Plate`.
    Plate,
    /// Send an `Error` with this text and close.
    Refuse(String),
}

/// The text of the error for an unexpected tag: a client that has not said
/// what it is hears of an invalid message, others of an invalid msg.
pub open spec fn refusal(role: Role, tag: u8) -> Seq<char> {
    match role {
        Role::Unidentified => "invalid message: 0x"@ + hex_byte(tag),
        _ => "invalid msg: 0x"@ + hex_byte(tag),
    }
}

/// The messages a client may send: a client not yet identified may say it
/// is a camera (0x80) or a dispatcher (0x81); a camera may report plates
/// (0x20); any client may ask once for a heartbeat (0x40). Anything else is
/// refused.
pub open spec fn accepts(role: Role, heartbeat_set: bool, tag: u8) -> Option<TagAction> {
    if tag == 0x40 && !heartbeat_set {
        Some(TagAction::WantHeartbeat)
    } else {
        match role {
            Role::Unidentified => if tag == 0x80 {
                Some(TagAction::IAmCamera)
            } else if tag == 0x81 {
                Some(TagAction::IAmDispatcher)
            } else {
                None
            },
            Role::Camera => if tag == 0x20 {
                Some(TagAction::Plate)
            } else {
                None
            },
            Role::Dispatcher => None,
        }
    }
}

/// What to do with a message tagged `tag` from a client in `role`.
pub fn on_tag(role: Role, heartbeat: &Heartbeat, tag: u8) -> (r: TagAction)
    ensures
        match accepts(role, heartbeat.period() is Some, tag) {
            Some(a) => r == a,
            None => r matches TagAction::Refuse(s) && s@ == refusal(role, tag),
        },
{
    if tag == 0x40 && !heartbeat.is_setted() {
        return TagAction::WantHeartbeat;
    }
    match role {
        Role::Unidentified => {
            if tag == 0x80 {
                return TagAction::IAmCamera;
            } else if tag == 0x81 {
                return TagAction::IAmDispatcher;
            }
            let mut s = String::from_str("invalid message: 0x");
            push_hex_byte(&mut s, tag);
            TagAction::Refuse(s)
        },
        Role::Camera => {
            if tag == 0x20 {
                return TagAction::Plate;
            }
            let mut s = String::from_str("invalid msg: 0x");
            push_hex_byte(&mut s, tag);
            TagAction::Refuse(s)
        },
        Role::Dispatcher => {
            let mut s = String::from_str("invalid msg: 0x");
            push_hex_byte(&mut s, tag);
            TagAction::Refuse(s)
        },
    }
}

/// The heartbeat period asked for by `interval`, in tenths of a second.
/// Before a client says what it is, the product is formed in 32 bits.
pub fn period_ms(role: Role, interval: u32) -> (r: u64)
    requires
        role == Role::Unidentified ==> interval * 100 <= u32::MAX,
    ensures
        r == interval * 100,
{
    match role {
        Role::Unidentified => (interval * 100) as u64,
        _ => (interval as u64) * 100,
    }
}

} // verus!

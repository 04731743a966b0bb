//! One client's side of the chat: the lines it is sent, and the steps of
//! its session from the welcome to the end.
use vstd::prelude::*;
use crate::chat::room::{ServerMessage, Notice, strings};
use crate::text::{lossy_string, utf8_lossy};

verus! {

/// What a client's connection tells the room.
#[derive(Debug, Clone)]
pub enum ClientMessage {
    SetUsername(usize, String),
    Joined(usize),
    Message(usize, String),
    Disconnect(usize),
}

pub ghost enum Request {
    SetUsername(usize, Seq<char>),
    Joined(usize),
    Message(usize, Seq<char>),
    Disconnect(usize),
}

impl View for ClientMessage {
    type V = Request;

    open spec fn view(&self) -> Request {
        match self {
            ClientMessage::SetUsername(id, n) => Request::SetUsername(*id, n@),
            ClientMessage::Joined(id) => Request::Joined(*id),
            ClientMessage::Message(id, m) => Request::Message(*id, m@),
            ClientMessage::Disconnect(id) => Request::Disconnect(*id),
        }
    }
}

pub open spec fn welcome_text() -> Seq<char> {
    "Welcome to budgetchat! What shall I call you?\n"@
}

pub open spec fn invalid_text() -> Seq<char> {
    "Invalid username\n"@
}

/// The names, separated by a comma and a space.
pub open spec fn listing(ns: Seq<Seq<char>>) -> Seq<char>
    decreases ns.len(),
{
    if ns.len() == 0 {
        Seq::empty()
    } else if ns.len() == 1 {
        ns[0]
    } else {
        listing(ns.drop_last()) + ", "@ + ns.last()
    }
}

/// The line that tells a newcomer who is present.
pub open spec fn room_text(ns: Seq<Seq<char>>) -> Seq<char> {
    "* The room contains:"@ + (if ns.len() == 0 {
        Seq::empty()
    } else {
        " "@ + listing(ns)
    }) + "\n"@
}

pub open spec fn entered_text(u: Seq<char>) -> Seq<char> {
    "* "@ + u + " has entered the room\n"@
}

pub open spec fn left_text(u: Seq<char>) -> Seq<char> {
    "* "@ + u + " has left the room\n"@
}

pub open spec fn chat_text(u: Seq<char>, m: Seq<char>) -> Seq<char> {
    "["@ + u + "] "@ + m + "\n"@
}

/// The line a client is sent for a notice; the acceptance of its name has
/// none.
pub open spec fn notice_text(n: Notice) -> Option<Seq<char>> {
    match n {
        Notice::Welcome => Some(welcome_text()),
        Notice::UsernameAccepted => None,
        Notice::UsernameInvalid => Some(invalid_text()),
        Notice::AnnounceUser(u) => Some(entered_text(u)),
        Notice::Users(us) => Some(room_text(us)),
        Notice::Message(u, m) => Some(chat_text(u, m)),
        Notice::Disconnected(u) => Some(left_text(u)),
    }
}

/// The text of a listing of present users.
fn room_line(us: &Vec<String>) -> (r: String)
    ensures
        r@ == room_text(strings(us@)),
{
    let ghost ns = strings(us@);
    let mut s = String::from_str("* The room contains:");
    if us.len() > 0 {
        s.append(" ");
        s.append(us[0].as_str());
        assert(ns.take(1).len() == 1);
        assert(listing(ns.take(1)) == ns[0]);
        let mut i: usize = 1;
        while i < us.len()
            invariant
                ns == strings(us@),
                1 <= i <= us@.len(),
                s@ == "* The room contains:"@ + " "@ + listing(ns.take(i as int)),
            decreases us@.len() - i,
        {
            s.append(", ");
            s.append(us[i].as_str());
            assert(ns.take(i + 1).drop_last() =~= ns.take(i as int));
            assert(ns.take(i + 1).last() == us@[i as int]@);
            i += 1;
        }
        assert(ns.take(us@.len() as int) =~= ns);
    }
    s.append("\n");
    s
}

/// The line a client is sent for `msg`, if any.
pub fn notice_line(msg: &ServerMessage) -> (r: Option<String>)
    ensures
        match r {
            Some(s) => notice_text(msg@) == Some(s@),
            None => notice_text(msg@) is None,
        },
{
    match msg {
        ServerMessage::Welcome => Some(String::from_str("Welcome to budgetchat! What shall I call you?\n")),
        ServerMessage::UsernameAccepted => None,
        ServerMessage::UsernameInvalid => Some(String::from_str("Invalid username\n")),
        ServerMessage::AnnounceUser(u) => {
            let mut s = String::from_str("* ");
            s.append(u.as_str());
            s.append(" has entered the room\n");
            Some(s)
        },
        ServerMessage::Users(us) => Some(room_line(us)),
        ServerMessage::Message(u, m) => {
            let mut s = String::from_str("[");
            s.append(u.as_str());
            s.append("] ");
            s.append(m.as_str());
            s.append("\n");
            Some(s)
        },
        ServerMessage::Disconnected(u) => {
            let mut s = String::from_str("* ");
            s.append(u.as_str());
            s.append(" has left the room\n");
            Some(s)
        },
    }
}

/// Where a client's session stands.
#[derive(Debug, PartialEq, Eq, Clone, Copy, Structural)]
pub enum Stage {
    /// Waits for the room's welcome.
    AwaitingWelcome,
    /// Waits for the client's first line, its name.
    AwaitingName,
    /// Waits for the room to accept or refuse the name.
    AwaitingVerdict,
    /// Waits for the list of present users.
    AwaitingUsers,
    /// Relays lines both ways.
    Chatting,
    /// The session is over.
    Done,
}

/// What the session does next: write a line to the client, or tell the
/// room.
#[derive(Debug, Clone)]
pub enum Effect {
    Write(String),
    Send(ClientMessage),
}

pub ghost enum EffectView {
    Write(Seq<char>),
    Send(Request),
}

impl View for Effect {
    type V = EffectView;

    open spec fn view(&self) -> EffectView {
        match self {
            Effect::Write(s) => EffectView::Write(s@),
            Effect::Send(m) => EffectView::Send(m@),
        }
    }
}

pub open spec fn effects(es: Seq<Effect>) -> Seq<EffectView> {
    es.map_values(|e: Effect| e@)
}

/// The next stage and effects when the room sends `msg` (`None`: the room
/// is gone). A message that the stage does not expect ends the session.
pub open spec fn room_step(stage: Stage, id: usize, msg: Option<Notice>) -> (Stage, Seq<EffectView>) {
    let bye = seq![EffectView::Send(Request::Disconnect(id))];
    match stage {
        Stage::AwaitingWelcome => match msg {
            Some(Notice::Welcome) => (Stage::AwaitingName, seq![EffectView::Write(welcome_text())]),
            _ => (Stage::Done, bye),
        },
        Stage::AwaitingVerdict => match msg {
            Some(Notice::UsernameAccepted) => (Stage::AwaitingUsers, seq![EffectView::Send(Request::Joined(id))]),
            Some(Notice::UsernameInvalid) => (
                Stage::Done,
                seq![EffectView::Write(invalid_text()), EffectView::Send(Request::Disconnect(id))],
            ),
            _ => (Stage::Done, bye),
        },
        Stage::AwaitingUsers => match msg {
            Some(Notice::Users(us)) => (Stage::Chatting, seq![EffectView::Write(room_text(us))]),
            _ => (Stage::Done, bye),
        },
        Stage::Chatting => match msg {
            Some(Notice::AnnounceUser(u)) => (Stage::Chatting, seq![EffectView::Write(entered_text(u))]),
            Some(Notice::Message(u, m)) => (Stage::Chatting, seq![EffectView::Write(chat_text(u, m))]),
            Some(Notice::Disconnected(u)) => (Stage::Chatting, seq![EffectView::Write(left_text(u))]),
            _ => (Stage::Done, bye),
        },
        Stage::AwaitingName => (Stage::Done, bye),
        Stage::Done => (Stage::Done, Seq::empty()),
    }
}

/// While chatting, what the room relays about others (one arriving, one
/// leaving, a message) is written to the client as its line, and the
/// session goes on: someone else leaving never ends it.
pub proof fn lemma_chatting_relays(id: usize, u: Seq<char>, m: Seq<char>)
    ensures
        room_step(Stage::Chatting, id, Some(Notice::Disconnected(u))) == (
            Stage::Chatting,
            seq![EffectView::Write("* "@ + u + " has left the room\n"@)],
        ),
        room_step(Stage::Chatting, id, Some(Notice::AnnounceUser(u))) == (
            Stage::Chatting,
            seq![EffectView::Write("* "@ + u + " has entered the room\n"@)],
        ),
        room_step(Stage::Chatting, id, Some(Notice::Message(u, m))) == (
            Stage::Chatting,
            seq![EffectView::Write("["@ + u + "] "@ + m + "\n"@)],
        ),
        forall|n: Notice|
            #![trigger room_step(Stage::Chatting, id, Some(n))]
            (n is Disconnected || n is AnnounceUser || n is Message) ==> room_step(
                Stage::Chatting,
                id,
                Some(n),
            ) == (Stage::Chatting, seq![EffectView::Write(notice_text(n)->0)]),
{
}

/// The next stage and effects when the client sends a line, given as the
/// text its bytes decode to (`None`: the client closed or failed).
pub open spec fn line_step(stage: Stage, id: usize, line: Option<Seq<char>>) -> (Stage, Seq<EffectView>) {
    let bye = seq![EffectView::Send(Request::Disconnect(id))];
    match stage {
        Stage::AwaitingName => match line {
            Some(t) => (Stage::AwaitingVerdict, seq![EffectView::Send(Request::SetUsername(id, t))]),
            None => (Stage::Done, bye),
        },
        Stage::Chatting => match line {
            Some(t) => (Stage::Chatting, seq![EffectView::Send(Request::Message(id, t))]),
            None => (Stage::Done, bye),
        },
        Stage::Done => (Stage::Done, Seq::empty()),
        _ => (Stage::Done, bye),
    }
}

/// A session's course: the welcome is written and a name awaited; the
/// client's first line is asked for as its name; a refused name is told and
/// the session ends; an accepted one is announced as joined; the list of
/// present users is written and chatting starts; while chatting, every line
/// of the client goes to the room as its message, and its leaving ends the
/// session with a disconnect.
pub proof fn lemma_session_course(id: usize, t: Seq<char>, us: Seq<Seq<char>>)
    ensures
        room_step(Stage::AwaitingWelcome, id, Some(Notice::Welcome)) == (
            Stage::AwaitingName,
            seq![EffectView::Write("Welcome to budgetchat! What shall I call you?\n"@)],
        ),
        line_step(Stage::AwaitingName, id, Some(t)) == (
            Stage::AwaitingVerdict,
            seq![EffectView::Send(Request::SetUsername(id, t))],
        ),
        room_step(Stage::AwaitingVerdict, id, Some(Notice::UsernameInvalid)) == (
            Stage::Done,
            seq![EffectView::Write("Invalid username\n"@), EffectView::Send(Request::Disconnect(id))],
        ),
        room_step(Stage::AwaitingVerdict, id, Some(Notice::UsernameAccepted)) == (
            Stage::AwaitingUsers,
            seq![EffectView::Send(Request::Joined(id))],
        ),
        room_step(Stage::AwaitingUsers, id, Some(Notice::Users(us))).0 == Stage::Chatting,
        line_step(Stage::Chatting, id, Some(t)) == (
            Stage::Chatting,
            seq![EffectView::Send(Request::Message(id, t))],
        ),
        line_step(Stage::Chatting, id, None) == (Stage::Done, seq![EffectView::Send(Request::Disconnect(id))]),
{
}

pub open spec fn notice_of(m: Option<ServerMessage>) -> Option<Notice> {
    match m {
        Some(x) => Some(x@),
        None => None,
    }
}

pub open spec fn line_of(l: Option<Vec<u8>>) -> Option<Seq<char>> {
    match l {
        Some(b) => Some(utf8_lossy(b@)),
        None => None,
    }
}

/// The session of the client with id `id`.
pub struct Session {
    pub id: usize,
    pub stage: Stage,
}

impl Session {
    /// A session that waits for the room's welcome.
    pub fn new(id: usize) -> (r: Session)
        ensures
            r.id == id,
            r.stage == Stage::AwaitingWelcome,
    {
        Session { id, stage: Stage::AwaitingWelcome }
    }

    /// Whether the session waits for the client rather than the room.
    pub fn reads_client(&self) -> (r: bool)
        ensures
            r == (self.stage == Stage::AwaitingName || self.stage == Stage::Chatting),
    {
        match self.stage {
            Stage::AwaitingName | Stage::Chatting => true,
            _ => false,
        }
    }

    /// Whether the session is over.
    pub fn is_done(&self) -> (r: bool)
        ensures
            r == (self.stage == Stage::Done),
    {
        match self.stage {
            Stage::Done => true,
            _ => false,
        }
    }

    fn bye(&mut self) -> (r: Vec<Effect>)
        ensures
            final(self).id == old(self).id,
            final(self).stage == Stage::Done,
            effects(r@) == seq![EffectView::Send(Request::Disconnect(old(self).id))],
    {
        self.stage = Stage::Done;
        let mut r: Vec<Effect> = Vec::new();
        r.push(Effect::Send(ClientMessage::Disconnect(self.id)));
        assert(effects(r@) =~= seq![EffectView::Send(Request::Disconnect(self.id))]);
        r
    }

    fn one(&mut self, stage: Stage, e: Effect) -> (r: Vec<Effect>)
        ensures
            final(self).id == old(self).id,
            final(self).stage == stage,
            effects(r@) == seq![e@],
    {
        self.stage = stage;
        let mut r: Vec<Effect> = Vec::new();
        r.push(e);
        assert(effects(r@) =~= seq![e@]);
        r
    }

    /// The room sent `msg`, or is gone (`None`).
    pub fn on_room(&mut self, msg: Option<ServerMessage>) -> (r: Vec<Effect>)
        ensures
            final(self).id == old(self).id,
            (final(self).stage, effects(r@)) == room_step(old(self).stage, old(self).id, notice_of(msg)),
    {
        match self.stage {
            Stage::AwaitingWelcome => match msg {
                Some(ServerMessage::Welcome) => {
                    let t = String::from_str("Welcome to budgetchat! What shall I call you?\n");
                    self.one(Stage::AwaitingName, Effect::Write(t))
                },
                _ => self.bye(),
            },
            Stage::AwaitingVerdict => match msg {
                Some(ServerMessage::UsernameAccepted) => {
                    let id = self.id;
                    self.one(Stage::AwaitingUsers, Effect::Send(ClientMessage::Joined(id)))
                },
                Some(ServerMessage::UsernameInvalid) => {
                    self.stage = Stage::Done;
                    let mut r: Vec<Effect> = Vec::new();
                    r.push(Effect::Write(String::from_str("Invalid username\n")));
                    r.push(Effect::Send(ClientMessage::Disconnect(self.id)));
                    assert(effects(r@) =~= seq![
                        EffectView::Write(invalid_text()),
                        EffectView::Send(Request::Disconnect(self.id)),
                    ]);
                    r
                },
                _ => self.bye(),
            },
            Stage::AwaitingUsers => match msg {
                Some(ServerMessage::Users(us)) => {
                    let t = room_line(&us);
                    self.one(Stage::Chatting, Effect::Write(t))
                },
                _ => self.bye(),
            },
            Stage::Chatting => match msg {
                Some(m) => {
                    match m {
                        ServerMessage::AnnounceUser(_) | ServerMessage::Message(_, _)
                        | ServerMessage::Disconnected(_) => {
                            let t = notice_line(&m);
                            match t {
                                Some(t) => self.one(Stage::Chatting, Effect::Write(t)),
                                None => self.bye(),
                            }
                        },
                        _ => self.bye(),
                    }
                },
                None => self.bye(),
            },
            Stage::AwaitingName => self.bye(),
            Stage::Done => Vec::new(),
        }
    }

    /// The client sent a line (its bytes, without the newline), or closed
    /// or failed (`None`).
    pub fn on_line(&mut self, line: Option<Vec<u8>>) -> (r: Vec<Effect>)
        ensures
            final(self).id == old(self).id,
            (final(self).stage, effects(r@)) == line_step(old(self).stage, old(self).id, line_of(line)),
    {
        match self.stage {
            Stage::AwaitingName => match line {
                Some(b) => {
                    let t = lossy_string(b.as_slice());
                    let id = self.id;
                    self.one(Stage::AwaitingVerdict, Effect::Send(ClientMessage::SetUsername(id, t)))
                },
                None => self.bye(),
            },
            Stage::Chatting => match line {
                Some(b) => {
                    let t = lossy_string(b.as_slice());
                    let id = self.id;
                    self.one(Stage::Chatting, Effect::Send(ClientMessage::Message(id, t)))
                },
                None => self.bye(),
            },
            Stage::Done => Vec::new(),
            _ => self.bye(),
        }
    }
}

} // verus!

//! The room's state: who is connected, who has joined under which name,
//! and who hears what when a client acts.
use vstd::prelude::*;

verus! {

/// What the room tells one client.
#[derive(Debug, Clone)]
pub enum ServerMessage {
    Welcome,
    UsernameAccepted,
    UsernameInvalid,
    AnnounceUser(String),
    Users(Vec<String>),
    Message(String, String),
    Disconnected(String),
}

pub ghost enum Notice {
    Welcome,
    UsernameAccepted,
    UsernameInvalid,
    AnnounceUser(Seq<char>),
    Users(Seq<Seq<char>>),
    Message(Seq<char>, Seq<char>),
    Disconnected(Seq<char>),
}

pub open spec fn strings(v: Seq<String>) -> Seq<Seq<char>> {
    v.map_values(|s: String| s@)
}

impl View for ServerMessage {
    type V = Notice;

    open spec fn view(&self) -> Notice {
        match self {
            ServerMessage::Welcome => Notice::Welcome,
            ServerMessage::UsernameAccepted => Notice::UsernameAccepted,
            ServerMessage::UsernameInvalid => Notice::UsernameInvalid,
            ServerMessage::AnnounceUser(u) => Notice::AnnounceUser(u@),
            ServerMessage::Users(us) => Notice::Users(strings(us@)),
            ServerMessage::Message(u, m) => Notice::Message(u@, m@),
            ServerMessage::Disconnected(u) => Notice::Disconnected(u@),
        }
    }
}

/// The messages to send, each with the id of its recipient, as values.
pub open spec fn notices(ds: Seq<(usize, ServerMessage)>) -> Seq<(usize, Notice)> {
    ds.map_values(|d: (usize, ServerMessage)| (d.0, d.1@))
}

struct Member {
    id: usize,
    username: Option<String>,
}

pub ghost struct MemberView {
    pub id: usize,
    pub name: Option<Seq<char>>,
}

impl Member {
    spec fn view(&self) -> MemberView {
        MemberView {
            id: self.id,
            name: match self.username {
                Some(u) => Some(u@),
                None => None,
            },
        }
    }
}

pub ghost struct RoomView {
    /// The id given to the last client that connected.
    pub last_id: usize,
    /// The connected clients, in the order they came.
    pub members: Seq<MemberView>,
}

/// The clients connected to a chat room.
pub struct Room {
    last_id: usize,
    members: Vec<Member>,
}

impl View for Room {
    type V = RoomView;

    closed spec fn view(&self) -> RoomView {
        RoomView { last_id: self.last_id, members: self.members@.map_values(|m: Member| m.view()) }
    }
}

/// The client `id` is connected.
pub open spec fn present(ms: Seq<MemberView>, id: usize) -> bool {
    exists|k: int| 0 <= k < ms.len() && #[trigger] ms[k].id == id
}

/// Where the client `id` stands.
pub open spec fn position(ms: Seq<MemberView>, id: usize) -> int {
    choose|k: int| 0 <= k < ms.len() && #[trigger] ms[k].id == id
}

/// The client `id` has joined: it has a name.
pub open spec fn joined(ms: Seq<MemberView>, id: usize) -> bool {
    present(ms, id) && ms[position(ms, id)].name is Some
}

/// The name of the client `id`.
pub open spec fn name_of(ms: Seq<MemberView>, id: usize) -> Seq<char> {
    ms[position(ms, id)].name->0
}

/// The joined clients other than `id`, with their names, in the order they
/// came.
pub open spec fn others(ms: Seq<MemberView>, id: usize) -> Seq<(usize, Seq<char>)>
    decreases ms.len(),
{
    if ms.len() == 0 {
        Seq::empty()
    } else {
        let rest = others(ms.drop_last(), id);
        let m = ms.last();
        if m.id != id && m.name is Some {
            rest.push((m.id, m.name->0))
        } else {
            rest
        }
    }
}

/// An ASCII letter or digit.
pub open spec fn is_ascii_alnum(c: char) -> bool {
    ('a' <= c && c <= 'z') || ('A' <= c && c <= 'Z') || ('0' <= c && c <= '9')
}

/// A name that the room accepts: not empty, ASCII letters and digits only,
/// and not held by a connected client.
pub open spec fn acceptable(ms: Seq<MemberView>, name: Seq<char>) -> bool {
    &&& name.len() > 0
    &&& forall|i: int| 0 <= i < name.len() ==> is_ascii_alnum(#[trigger] name[i])
    &&& forall|k: int| 0 <= k < ms.len() ==> #[trigger] ms[k].name != Some(name)
}

/// To each of `os`, the same notice.
pub open spec fn to_each(os: Seq<(usize, Seq<char>)>, n: Notice) -> Seq<(usize, Notice)> {
    os.map_values(|o: (usize, Seq<char>)| (o.0, n))
}

/// The names of `os`.
pub open spec fn names(os: Seq<(usize, Seq<char>)>) -> Seq<Seq<char>> {
    os.map_values(|o: (usize, Seq<char>)| o.1)
}

impl RoomView {
    /// Ids are distinct and none is above the last one given; no two joined
    /// clients share a name.
    pub open spec fn wf(self) -> bool {
        &&& forall|i: int, j: int|
            0 <= i < j < self.members.len() ==> #[trigger] self.members[i].id != #[trigger] self.members[j].id
        &&& forall|i: int| 0 <= i < self.members.len() ==> #[trigger] self.members[i].id <= self.last_id
        &&& forall|i: int, j: int|
            0 <= i < j < self.members.len() && self.members[i].name is Some
                ==> #[trigger] self.members[i].name != #[trigger] self.members[j].name
    }
}

/// The room after the client `id` takes the name `name`.
pub open spec fn named(r: RoomView, id: usize, name: Seq<char>) -> RoomView {
    RoomView {
        members: r.members.update(position(r.members, id), MemberView { id, name: Some(name) }),
        ..r
    }
}

/// The room after the client `id` leaves.
pub open spec fn without(r: RoomView, id: usize) -> RoomView {
    RoomView { members: r.members.remove(position(r.members, id)), ..r }
}

proof fn lemma_position(ms: Seq<MemberView>, id: usize, k: int)
    requires
        0 <= k < ms.len(),
        ms[k].id == id,
        forall|i: int, j: int| 0 <= i < j < ms.len() ==> #[trigger] ms[i].id != #[trigger] ms[j].id,
    ensures
        present(ms, id),
        position(ms, id) == k,
{
    let p = position(ms, id);
    assert(ms[p].id == id);
    if p < k {
        assert(ms[p].id != ms[k].id);
    } else if k < p {
        assert(ms[k].id != ms[p].id);
    }
}

proof fn lemma_others_take(ms: Seq<MemberView>, id: usize, i: int)
    requires
        0 <= i < ms.len(),
    ensures
        others(ms.take(i + 1), id) == (if ms[i].id != id && ms[i].name is Some {
            others(ms.take(i), id).push((ms[i].id, ms[i].name->0))
        } else {
            others(ms.take(i), id)
        }),
{
    assert(ms.take(i + 1).drop_last() =~= ms.take(i));
}

/// Everyone in `others(ms, id)` has joined, is not `id`, and holds the name
/// given beside it.
proof fn lemma_others_members(ms: Seq<MemberView>, id: usize)
    ensures
        forall|j: int|
            0 <= j < others(ms, id).len() ==> exists|k: int|
                0 <= k < ms.len() && #[trigger] ms[k].id == (#[trigger] others(ms, id)[j]).0 && ms[k].name
                    == Some(others(ms, id)[j].1) && ms[k].id != id,
    decreases ms.len(),
{
    if ms.len() > 0 {
        let d = ms.drop_last();
        lemma_others_members(d, id);
        assert forall|j: int| 0 <= j < others(ms, id).len() implies exists|k: int|
            0 <= k < ms.len() && #[trigger] ms[k].id == (#[trigger] others(ms, id)[j]).0 && ms[k].name
                == Some(others(ms, id)[j].1) && ms[k].id != id by {
            if j < others(d, id).len() {
                assert(others(ms, id)[j] == others(d, id)[j]);
                let k = choose|k: int|
                    0 <= k < d.len() && #[trigger] d[k].id == (#[trigger] others(d, id)[j]).0 && d[k].name
                        == Some(others(d, id)[j].1) && d[k].id != id;
                assert(ms[k] == d[k]);
            } else {
                let k = ms.len() - 1;
                assert(ms[k].id == others(ms, id)[j].0);
            }
        }
    }
}

/// Every joined client other than `id` is among `others(ms, id)`.
proof fn lemma_others_complete(ms: Seq<MemberView>, id: usize)
    ensures
        forall|k: int|
            0 <= k < ms.len() && #[trigger] ms[k].id != id && ms[k].name is Some ==> exists|j: int|
                0 <= j < others(ms, id).len() && #[trigger] others(ms, id)[j].0 == ms[k].id,
    decreases ms.len(),
{
    if ms.len() > 0 {
        let d = ms.drop_last();
        lemma_others_complete(d, id);
        assert forall|k: int| 0 <= k < ms.len() && #[trigger] ms[k].id != id && ms[k].name is Some implies exists|j: int|
            0 <= j < others(ms, id).len() && #[trigger] others(ms, id)[j].0 == ms[k].id by {
            if k < d.len() {
                assert(d[k] == ms[k]);
                let j = choose|j: int| 0 <= j < others(d, id).len() && #[trigger] others(d, id)[j].0 == d[k].id;
                assert(others(ms, id)[j] == others(d, id)[j]);
            } else {
                let j = others(ms, id).len() - 1;
                assert(others(ms, id)[j].0 == ms[k].id);
            }
        }
    }
}

/// Who hears of what a client does (its arrival, its messages, its
/// departure): exactly the joined clients other than it, each listed once
/// under its own name. A message never goes back to its sender, nor to a
/// client that has not joined.
pub proof fn lemma_recipients(r: RoomView, id: usize)
    requires
        r.wf(),
    ensures
        forall|j: int|
            0 <= j < others(r.members, id).len() ==> (#[trigger] others(r.members, id)[j]).0 != id
                && joined(r.members, others(r.members, id)[j].0) && name_of(
                r.members,
                others(r.members, id)[j].0,
            ) == others(r.members, id)[j].1,
        forall|k: int|
            0 <= k < r.members.len() && #[trigger] r.members[k].id != id && r.members[k].name is Some
                ==> exists|j: int|
                0 <= j < others(r.members, id).len() && #[trigger] others(r.members, id)[j].0
                    == r.members[k].id,
        forall|i: int, j: int|
            0 <= i < j < others(r.members, id).len() ==> #[trigger] others(r.members, id)[i].0
                != #[trigger] others(r.members, id)[j].0,
{
    let ms = r.members;
    let os = others(ms, id);
    lemma_others_members(ms, id);
    lemma_others_complete(ms, id);
    lemma_others_ordered(ms, id);
    assert forall|j: int| 0 <= j < os.len() implies (#[trigger] os[j]).0 != id && joined(ms, os[j].0)
        && name_of(ms, os[j].0) == os[j].1 by {
        let k = choose|k: int|
            0 <= k < ms.len() && #[trigger] ms[k].id == (#[trigger] others(ms, id)[j]).0 && ms[k].name
                == Some(others(ms, id)[j].1) && ms[k].id != id;
        lemma_position(ms, os[j].0, k);
    }
}

/// The clients in `others(ms, id)` come in the order of `ms`: each is
/// found at a strictly later place than the one before it.
proof fn lemma_others_ordered(ms: Seq<MemberView>, id: usize)
    requires
        forall|i: int, j: int| 0 <= i < j < ms.len() ==> #[trigger] ms[i].id != #[trigger] ms[j].id,
    ensures
        forall|i: int, j: int|
            0 <= i < j < others(ms, id).len() ==> #[trigger] others(ms, id)[i].0
                != #[trigger] others(ms, id)[j].0,
        forall|j: int|
            0 <= j < others(ms, id).len() ==> exists|k: int|
                0 <= k < ms.len() && #[trigger] ms[k].id == (#[trigger] others(ms, id)[j]).0,
    decreases ms.len(),
{
    if ms.len() > 0 {
        let d = ms.drop_last();
        lemma_others_ordered(d, id);
        let os = others(ms, id);
        let od = others(d, id);
        assert forall|j: int| 0 <= j < os.len() implies exists|k: int|
            0 <= k < ms.len() && #[trigger] ms[k].id == (#[trigger] os[j]).0 by {
            if j < od.len() {
                assert(os[j] == od[j]);
                let k = choose|k: int| 0 <= k < d.len() && #[trigger] d[k].id == (#[trigger] od[j]).0;
                assert(ms[k] == d[k]);
            } else {
                assert(ms[ms.len() - 1].id == os[j].0);
            }
        }
        assert forall|i: int, j: int| 0 <= i < j < os.len() implies #[trigger] os[i].0 != #[trigger] os[j].0 by {
            if j < od.len() {
                assert(os[i] == od[i]);
                assert(os[j] == od[j]);
            } else {
                assert(os[i] == od[i]);
                let k = choose|k: int| 0 <= k < d.len() && #[trigger] d[k].id == (#[trigger] od[i]).0;
                assert(ms[k] == d[k]);
                assert(os[j].0 == ms[ms.len() - 1].id);
            }
        }
    }
}

impl Room {
    /// An empty room; the first client gets id 1.
    pub fn new() -> (r: Room)
        ensures
            r@.last_id == 0,
            r@.members.len() == 0,
            r@.wf(),
    {
        Room { last_id: 0, members: Vec::new() }
    }

    /// Where the client `id` stands, if connected.
    fn find(&self, id: usize) -> (r: Option<usize>)
        requires
            self@.wf(),
        ensures
            match r {
                Some(k) => k < self@.members.len() && self@.members[k as int].id == id && present(
                    self@.members,
                    id,
                ) && position(self@.members, id) == k,
                None => !present(self@.members, id),
            },
    {
        let ghost ms = self@.members;
        let mut i: usize = 0;
        while i < self.members.len()
            invariant
                ms == self@.members,
                i <= ms.len(),
                ms.len() == self.members@.len(),
                self@.wf(),
                forall|k: int| 0 <= k < i ==> #[trigger] ms[k].id != id,
            decreases ms.len() - i,
        {
            assert(ms[i as int] == self.members@[i as int].view());
            if self.members[i].id == id {
                proof {
                    lemma_position(ms, id, i as int);
                }
                return Some(i);
            }
            i += 1;
        }
        None
    }

    /// Whether the client `id` is connected.
    pub fn is_connected(&self, id: usize) -> (r: bool)
        requires
            self@.wf(),
        ensures
            r == present(self@.members, id),
    {
        self.find(id).is_some()
    }

    /// Whether the client `id` has joined.
    pub fn has_joined(&self, id: usize) -> (r: bool)
        requires
            self@.wf(),
        ensures
            r == joined(self@.members, id),
    {
        match self.find(id) {
            Some(k) => {
                assert(self@.members[k as int] == self.members@[k as int].view());
                self.members[k].username.is_some()
            },
            None => false,
        }
    }

    /// A new client connects: it gets the next id and is welcomed.
    pub fn connect(&mut self) -> (r: Vec<(usize, ServerMessage)>)
        requires
            old(self)@.wf(),
            old(self)@.last_id < usize::MAX,
        ensures
            final(self)@.wf(),
            final(self)@.last_id == old(self)@.last_id + 1,
            final(self)@.members == old(self)@.members.push(
                MemberView { id: final(self)@.last_id, name: None },
            ),
            notices(r@) == seq![(final(self)@.last_id, Notice::Welcome)],
    {
        let id = self.last_id + 1;
        self.last_id = id;
        self.members.push(Member { id, username: None });
        let mut r: Vec<(usize, ServerMessage)> = Vec::new();
        r.push((id, ServerMessage::Welcome));
        assert(self@.members =~= old(self)@.members.push(MemberView { id, name: None }));
        assert(notices(r@) =~= seq![(id, Notice::Welcome)]);
        r
    }

    /// Whether the room would accept `name`.
    fn acceptable_name(&self, name: &String) -> (r: bool)
        requires
            self@.wf(),
        ensures
            r == acceptable(self@.members, name@),
    {
        let cs = crate::text::chars_of(name.as_str());
        if cs.len() == 0 {
            return false;
        }
        let mut i: usize = 0;
        while i < cs.len()
            invariant
                cs@ == name@,
                i <= cs@.len(),
                forall|j: int| 0 <= j < i ==> is_ascii_alnum(#[trigger] name@[j]),
            decreases cs@.len() - i,
        {
            let c = cs[i];
            if !(('a' <= c && c <= 'z') || ('A' <= c && c <= 'Z') || ('0' <= c && c <= '9')) {
                return false;
            }
            i += 1;
        }
        let ghost ms = self@.members;
        let mut k: usize = 0;
        while k < self.members.len()
            invariant
                ms == self@.members,
                ms.len() == self.members@.len(),
                k <= ms.len(),
                forall|j: int| 0 <= j < k ==> #[trigger] ms[j].name != Some(name@),
            decreases ms.len() - k,
        {
            assert(ms[k as int] == self.members@[k as int].view());
            match &self.members[k].username {
                Some(u) => {
                    if *u == *name {
                        assert(ms[k as int].name == Some(name@));
                        return false;
                    }
                },
                None => {},
            }
            k += 1;
        }
        true
    }

    /// The client `id` asks for the name `name`: it is told whether the room
    /// took it, and nobody else hears anything.
    pub fn set_username(&mut self, id: usize, name: String) -> (r: Vec<(usize, ServerMessage)>)
        requires
            old(self)@.wf(),
            present(old(self)@.members, id),
            !joined(old(self)@.members, id),
        ensures
            final(self)@.wf(),
            acceptable(old(self)@.members, name@) ==> final(self)@ == named(old(self)@, id, name@)
                && notices(r@) == seq![(id, Notice::UsernameAccepted)],
            !acceptable(old(self)@.members, name@) ==> final(self)@ == old(self)@ && notices(r@)
                == seq![(id, Notice::UsernameInvalid)],
    {
        let mut r: Vec<(usize, ServerMessage)> = Vec::new();
        if self.acceptable_name(&name) {
            let k = self.find(id).unwrap();
            let ghost name_v = name@;
            let ghost before = self@;
            self.members.set(k, Member { id, username: Some(name) });
            assert(self@.members =~= before.members.update(k as int, MemberView { id, name: Some(name_v) }));
            assert forall|i: int, j: int|
                0 <= i < j < self@.members.len() && self@.members[i].name is Some
                    implies #[trigger] self@.members[i].name != #[trigger] self@.members[j].name by {
                if i == k {
                    assert(before.members[j].name != Some(name_v));
                } else if j == k {
                    assert(before.members[i].name != Some(name_v));
                }
            }
            r.push((id, ServerMessage::UsernameAccepted));
            assert(notices(r@) =~= seq![(id, Notice::UsernameAccepted)]);
        } else {
            r.push((id, ServerMessage::UsernameInvalid));
            assert(notices(r@) =~= seq![(id, Notice::UsernameInvalid)]);
        }
        r
    }

    /// The joined clients other than `id`, each with `make` of its name
    /// addressed to it, and their names.
    fn to_others(&self, id: usize, notice: &ServerMessage) -> (r: (Vec<(usize, ServerMessage)>, Vec<String>))
        requires
            self@.wf(),
        ensures
            notices(r.0@) == to_each(others(self@.members, id), notice@),
            strings(r.1@) == names(others(self@.members, id)),
    {
        let ghost ms = self@.members;
        let mut ds: Vec<(usize, ServerMessage)> = Vec::new();
        let mut ns: Vec<String> = Vec::new();
        let mut i: usize = 0;
        while i < self.members.len()
            invariant
                ms == self@.members,
                ms.len() == self.members@.len(),
                i <= ms.len(),
                ds@.len() == others(ms.take(i as int), id).len(),
                ns@.len() == others(ms.take(i as int), id).len(),
                notices(ds@) == to_each(others(ms.take(i as int), id), notice@),
                strings(ns@) == names(others(ms.take(i as int), id)),
            decreases ms.len() - i,
        {
            proof {
                lemma_others_take(ms, id, i as int);
            }
            assert(ms[i as int] == self.members@[i as int].view());
            let m = &self.members[i];
            if m.id != id {
                match &m.username {
                    Some(u) => {
                        let ghost os = others(ms.take(i as int), id);
                        let ghost ds0 = ds@;
                        let ghost ns0 = ns@;
                        let c = notice.clone_message();
                        let un = u.clone();
                        ds.push((m.id, c));
                        ns.push(un);
                        assert forall|j: int| 0 <= j < ds@.len() implies notices(ds@)[j] == to_each(
                            os.push((m.id, u@)),
                            notice@,
                        )[j] by {
                            if j < ds0.len() {
                                assert(notices(ds0)[j] == to_each(os, notice@)[j]);
                            }
                        }
                        assert(notices(ds@) =~= to_each(os.push((m.id, u@)), notice@));
                        assert forall|j: int| 0 <= j < ns@.len() implies strings(ns@)[j] == names(
                            os.push((m.id, u@)),
                        )[j] by {
                            if j < ns0.len() {
                                assert(strings(ns0)[j] == names(os)[j]);
                            }
                        }
                        assert(strings(ns@) =~= names(os.push((m.id, u@))));
                    },
                    None => {},
                }
            }
            i += 1;
        }
        assert(ms.take(ms.len() as int) =~= ms);
        (ds, ns)
    }

    /// The client `id` has been told its name was taken: everyone else who
    /// joined hears of it, and it is told who they are.
    pub fn joined(&self, id: usize) -> (r: Vec<(usize, ServerMessage)>)
        requires
            self@.wf(),
            present(self@.members, id),
        ensures
            joined(self@.members, id) ==> notices(r@) == to_each(
                others(self@.members, id),
                Notice::AnnounceUser(name_of(self@.members, id)),
            ).push((id, Notice::Users(names(others(self@.members, id))))),
            !joined(self@.members, id) ==> r@.len() == 0,
    {
        let k = self.find(id).unwrap();
        assert(self@.members[k as int] == self.members@[k as int].view());
        match &self.members[k].username {
            Some(user) => {
                let (mut ds, ns) = self.to_others(id, &ServerMessage::AnnounceUser(user.clone()));
                let ghost before = ds@;
                ds.push((id, ServerMessage::Users(ns)));
                assert(notices(ds@) =~= notices(before).push((id, Notice::Users(strings(ns@)))));
                ds
            },
            None => Vec::new(),
        }
    }

    /// The client `id` says `text`: every other joined client hears it
    /// under the sender's name; the sender does not.
    pub fn message(&self, id: usize, text: String) -> (r: Vec<(usize, ServerMessage)>)
        requires
            self@.wf(),
            present(self@.members, id),
        ensures
            joined(self@.members, id) ==> notices(r@) == to_each(
                others(self@.members, id),
                Notice::Message(name_of(self@.members, id), text@),
            ),
            !joined(self@.members, id) ==> r@.len() == 0,
    {
        let k = self.find(id).unwrap();
        assert(self@.members[k as int] == self.members@[k as int].view());
        match &self.members[k].username {
            Some(user) => {
                let (ds, _) = self.to_others(id, &ServerMessage::Message(user.clone(), text));
                ds
            },
            None => Vec::new(),
        }
    }

    /// The client `id` is gone: if it had joined, every other joined client
    /// hears that it left; it is no longer in the room.
    pub fn disconnect(&mut self, id: usize) -> (r: Vec<(usize, ServerMessage)>)
        requires
            old(self)@.wf(),
        ensures
            final(self)@.wf(),
            present(old(self)@.members, id) ==> final(self)@ == without(old(self)@, id),
            !present(old(self)@.members, id) ==> final(self)@ == old(self)@,
            joined(old(self)@.members, id) ==> notices(r@) == to_each(
                others(old(self)@.members, id),
                Notice::Disconnected(name_of(old(self)@.members, id)),
            ),
            !joined(old(self)@.members, id) ==> r@.len() == 0,
    {
        match self.find(id) {
            Some(k) => {
                assert(self@.members[k as int] == self.members@[k as int].view());
                let r = match &self.members[k].username {
                    Some(user) => {
                        let (ds, _) = self.to_others(id, &ServerMessage::Disconnected(user.clone()));
                        ds
                    },
                    None => Vec::new(),
                };
                let ghost before = self@;
                self.members.remove(k);
                assert(self@.members =~= before.members.remove(k as int));
                assert forall|i: int, j: int|
                    0 <= i < j < self@.members.len() implies #[trigger] self@.members[i].id
                        != #[trigger] self@.members[j].id by {
                    let i2 = if i < k { i } else { i + 1 };
                    let j2 = if j < k { j } else { j + 1 };
                    assert(self@.members[i] == before.members[i2]);
                    assert(self@.members[j] == before.members[j2]);
                }
                assert forall|i: int, j: int|
                    0 <= i < j < self@.members.len() && self@.members[i].name is Some
                        implies #[trigger] self@.members[i].name != #[trigger] self@.members[j].name by {
                    let i2 = if i < k { i } else { i + 1 };
                    let j2 = if j < k { j } else { j + 1 };
                    assert(self@.members[i] == before.members[i2]);
                    assert(self@.members[j] == before.members[j2]);
                }
                assert forall|i: int| 0 <= i < self@.members.len() implies #[trigger] self@.members[i].id
                    <= self@.last_id by {
                    let i2 = if i < k { i } else { i + 1 };
                    assert(self@.members[i] == before.members[i2]);
                }
                r
            },
            None => Vec::new(),
        }
    }
}

impl ServerMessage {
    /// A copy of this message.
    pub fn clone_message(&self) -> (r: ServerMessage)
        ensures
            r@ == self@,
    {
        match self {
            ServerMessage::Welcome => ServerMessage::Welcome,
            ServerMessage::UsernameAccepted => ServerMessage::UsernameAccepted,
            ServerMessage::UsernameInvalid => ServerMessage::UsernameInvalid,
            ServerMessage::AnnounceUser(u) => ServerMessage::AnnounceUser(u.clone()),
            ServerMessage::Users(us) => {
                let mut v: Vec<String> = Vec::new();
                let mut i: usize = 0;
                while i < us.len()
                    invariant
                        i <= us@.len(),
                        v@.len() == i,
                        strings(v@) == strings(us@).take(i as int),
                    decreases us@.len() - i,
                {
                    let ghost v0 = v@;
                    let c = us[i].clone();
                    v.push(c);
                    assert forall|j: int| 0 <= j <= i implies strings(v@)[j] == strings(us@).take(
                        i + 1,
                    )[j] by {
                        if j < i {
                            assert(strings(v0)[j] == strings(us@).take(i as int)[j]);
                        }
                    }
                    assert(strings(v@) =~= strings(us@).take(i + 1));
                    i += 1;
                }
                assert(strings(us@).take(us@.len() as int) =~= strings(us@));
                ServerMessage::Users(v)
            },
            ServerMessage::Message(u, m) => ServerMessage::Message(u.clone(), m.clone()),
            ServerMessage::Disconnected(u) => ServerMessage::Disconnected(u.clone()),
        }
    }
}

} // verus!

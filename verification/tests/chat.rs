use protohackers::chat::client::{notice_line, ClientMessage, Effect, Session, Stage};
use protohackers::chat::room::{Room, ServerMessage};

fn texts(ds: &[(usize, ServerMessage)]) -> Vec<(usize, Option<String>)> {
    ds.iter().map(|(id, m)| (*id, notice_line(m))).collect()
}

fn join(room: &mut Room, name: &str) -> usize {
    let welcome = room.connect();
    let id = welcome[0].0;
    let r = room.set_username(id, name.to_string());
    assert!(matches!(r[0].1, ServerMessage::UsernameAccepted));
    room.joined(id);
    id
}

#[test]
fn a_session_in_the_room() {
    let mut room = Room::new();
    let bob = join(&mut room, "bob");
    let charlie = join(&mut room, "charlie");
    let dave = join(&mut room, "dave");

    let welcome = room.connect();
    let alice = welcome[0].0;
    assert_eq!(
        notice_line(&welcome[0].1).unwrap(),
        "Welcome to budgetchat! What shall I call you?\n"
    );
    room.set_username(alice, "alice".to_string());
    let joined = room.joined(alice);
    assert_eq!(
        texts(&joined),
        vec![
            (bob, Some("* alice has entered the room\n".to_string())),
            (charlie, Some("* alice has entered the room\n".to_string())),
            (dave, Some("* alice has entered the room\n".to_string())),
            (
                alice,
                Some("* The room contains: bob, charlie, dave\n".to_string())
            ),
        ]
    );

    let said = room.message(bob, "hi alice".to_string());
    assert!(said.iter().all(|(id, _)| *id != bob));
    assert!(texts(&said).contains(&(alice, Some("[bob] hi alice\n".to_string()))));

    let left = room.disconnect(dave);
    assert!(texts(&left).contains(&(alice, Some("* dave has left the room\n".to_string()))));
    assert!(!room.is_connected(dave));
}

#[test]
fn empty_room_listing() {
    let mut room = Room::new();
    let welcome = room.connect();
    let id = welcome[0].0;
    room.set_username(id, "solo".to_string());
    let joined = room.joined(id);
    assert_eq!(texts(&joined), vec![(id, Some("* The room contains:\n".to_string()))]);
}

#[test]
fn invalid_and_taken_names() {
    let mut room = Room::new();
    join(&mut room, "bob");
    let id = room.connect()[0].0;
    for name in ["", "bo b", "bob", "x!", "José", "٣"] {
        let r = room.set_username(id, name.to_string());
        assert_eq!(r.len(), 1);
        assert_eq!(r[0].0, id);
        assert!(matches!(r[0].1, ServerMessage::UsernameInvalid));
    }
    assert!(!room.has_joined(id));
    assert!(room.disconnect(id).is_empty());
}

#[test]
fn unjoined_clients_hear_nothing() {
    let mut room = Room::new();
    let bob = join(&mut room, "bob");
    let lurker = room.connect()[0].0;
    let alice = join(&mut room, "alice");
    let said = room.message(bob, "hello".to_string());
    assert_eq!(said.len(), 1);
    assert_eq!(said[0].0, alice);
    assert!(room.message(lurker, "psst".to_string()).is_empty());
}

#[test]
fn client_session_steps() {
    let mut s = Session::new(3);
    let e = s.on_room(Some(ServerMessage::Welcome));
    assert!(matches!(&e[..], [Effect::Write(t)] if t == "Welcome to budgetchat! What shall I call you?\n"));
    assert!(s.reads_client());
    let e = s.on_line(Some(b"alice".to_vec()));
    assert!(matches!(&e[..], [Effect::Send(ClientMessage::SetUsername(3, n))] if n == "alice"));
    let e = s.on_room(Some(ServerMessage::UsernameAccepted));
    assert!(matches!(&e[..], [Effect::Send(ClientMessage::Joined(3))]));
    let e = s.on_room(Some(ServerMessage::Users(vec!["bob".to_string()])));
    assert!(matches!(&e[..], [Effect::Write(t)] if t == "* The room contains: bob\n"));
    assert_eq!(s.stage, Stage::Chatting);
    let e = s.on_line(Some(b"hi".to_vec()));
    assert!(matches!(&e[..], [Effect::Send(ClientMessage::Message(3, m))] if m == "hi"));
    let e = s.on_line(None);
    assert!(matches!(&e[..], [Effect::Send(ClientMessage::Disconnect(3))]));
    assert!(s.is_done());
}

#[test]
fn refused_name_ends_the_session() {
    let mut s = Session::new(1);
    s.on_room(Some(ServerMessage::Welcome));
    s.on_line(Some(b"??".to_vec()));
    let e = s.on_room(Some(ServerMessage::UsernameInvalid));
    assert!(matches!(&e[..], [Effect::Write(t), Effect::Send(ClientMessage::Disconnect(1))] if t == "Invalid username\n"));
    assert!(s.is_done());
}

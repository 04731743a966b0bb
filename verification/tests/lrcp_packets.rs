use protohackers::lrcp::reversal::reverse_lines;
use protohackers::lrcp::packets::{Numeric, Packet, PacketError, Payload, SyncWrite};

#[test]
fn test_read_connect() {
    let buffer = b"/connect/1234567/".as_slice();

    assert_eq!(
        Packet::Connect {
            session: Numeric(1234567)
        },
        Packet::try_from(buffer).unwrap()
    );
}

#[test]
fn test_write_connect() {
    let mut buffer: Vec<u8> = vec![];

    let len = buffer.write_value(&Packet::Connect {
        session: Numeric(1234567),
    });

    assert_eq!(b"/connect/1234567/".as_slice(), &buffer[0..len]);
}

#[test]
fn test_read_ack() {
    let buffer = b"/ack/1234567/1024/".as_slice();

    assert_eq!(
        Packet::Ack {
            session: Numeric(1234567),
            length: Numeric(1024)
        },
        Packet::try_from(buffer).unwrap()
    );
}

#[test]
fn test_write_ack() {
    let mut buffer: Vec<u8> = vec![];

    let len = buffer.write_value(&Packet::Ack {
        session: Numeric(1234567),
        length: Numeric(1024),
    });

    assert_eq!(b"/ack/1234567/1024/".as_slice(), &buffer[0..len]);
}

#[test]
fn test_read_data() {
    let buffer = b"/data/1234567/0/hello/".as_slice();
    assert_eq!(
        Packet::Data {
            session: Numeric(1234567),
            pos: Numeric(0),
            data: Payload("hello".to_string())
        },
        Packet::try_from(buffer).unwrap()
    );

    let buffer = br"/data/1234568/0/\//".as_slice();
    assert_eq!(
        Packet::Data {
            session: Numeric(1234568),
            pos: Numeric(0),
            data: Payload(r"/".to_string())
        },
        Packet::try_from(buffer).unwrap()
    );
}

#[test]
fn test_write_data() {
    let mut buffer: Vec<u8> = vec![];

    let len = buffer.write_value(&Packet::Data {
        session: Numeric(1234567),
        pos: Numeric(0),
        data: Payload("hello".to_string()),
    });
    assert_eq!(b"/data/1234567/0/hello/".as_slice(), &buffer[0..len]);

    buffer.clear();
    let len = buffer.write_value(&Packet::Data {
        session: Numeric(1234568),
        pos: Numeric(0),
        data: Payload("/".to_string()),
    });
    assert_eq!(br"/data/1234568/0/\//".as_slice(), &buffer[0..len]);
}

#[test]
fn test_read_close() {
    let buffer = b"/close/1234567/".as_slice();

    assert_eq!(
        Packet::Close {
            session: Numeric(1234567)
        },
        Packet::try_from(buffer).unwrap()
    );
}

#[test]
fn test_write_close() {
    let mut buffer: Vec<u8> = vec![];

    let len = buffer.write_value(&Packet::Close {
        session: Numeric(1234567),
    });

    assert_eq!(b"/close/1234567/".as_slice(), &buffer[0..len]);
}

#[test]
fn test_read_invalid_connect() {
    let buffer = b"/connect/".as_slice();

    assert_eq!(Packet::try_from(buffer), Err(PacketError::InvalidPacket));
}

#[test]
fn packet_written_then_read_is_the_same() {
    let p = Packet::Data {
        session: Numeric(42),
        pos: Numeric(7),
        data: Payload("a/b\\c\n".to_string()),
    };
    let mut buffer: Vec<u8> = vec![];
    buffer.write_value(&p);
    assert_eq!(buffer, br"/data/42/7/a\/b\\c".iter().copied().chain(b"\n/".iter().copied()).collect::<Vec<u8>>());
    assert_eq!(Packet::try_from(buffer.as_slice()), Ok(p));
}

#[test]
fn unknown_packet_kind_is_refused() {
    assert_eq!(
        Packet::try_from(b"/hello/1/".as_slice()),
        Err(PacketError::UnknownPacket)
    );
}

#[test]
fn packet_without_final_slash_is_unknown() {
    assert_eq!(
        Packet::try_from(b"/close/1".as_slice()),
        Err(PacketError::UnknownPacket)
    );
    assert_eq!(
        Packet::try_from(b"/close/1/2/".as_slice()),
        Err(PacketError::InvalidPacket)
    );
}

#[test]
fn session_of_each_packet() {
    let p = Packet::Ack {
        session: Numeric(9),
        length: Numeric(3),
    };
    assert_eq!(p.session(), Numeric(9));
}

#[test]
fn lines_come_back_reversed() {
    let mut received = b"hello\nHello, world!\npart".to_vec();
    let mut to_send = vec![];
    assert!(reverse_lines(&mut received, &mut to_send));
    assert_eq!(to_send, b"olleh\n!dlrow ,olleH\n".to_vec());
    assert_eq!(received, b"part".to_vec());
    assert!(!reverse_lines(&mut received, &mut to_send));
    let mut received = b"foo/bar/baz\nfoo\\bar\\baz\n".to_vec();
    let mut to_send = vec![];
    reverse_lines(&mut received, &mut to_send);
    assert_eq!(to_send, b"zab/rab/oof\nzab\\rab\\oof\n".to_vec());
}

use bytes::BytesMut;
use protohackers::pest::packets::create_policy::PolicyAction;
use protohackers::pest::packets::{
    create_policy, dial_authority, error, hello, ok, site_visit, target_populations, Packet,
    PacketDecoder,
};
use protohackers::pest::policy::{check_reply, plan, Adjustment, Policies, PolicyOp};
use protohackers::pest::session::{
    error_text, Backoff, DialAction, Dialer, Incoming, Visitor, VisitorAction,
};
use protohackers::pest::wire::CodecError;

fn read_one(data: &[u8]) -> Result<Option<Packet>, CodecError> {
    let mut buf = BytesMut::from(data);
    PacketDecoder::new().decode(&mut buf)
}

#[test]
fn create_policy_test_read() {
    let data = [
        0x55, 0x00, 0x00, 0x00, 0x0e, 0x00, 0x00, 0x00, 0x03, 0x64, 0x6f, 0x67, 0xa0, 0xc0,
    ];
    let Packet::CreatePolicy(p) = read_one(&data).unwrap().unwrap() else {
        panic!("invalid packet");
    };
    assert_eq!(
        create_policy::Packet {
            species: "dog".to_string(),
            action: PolicyAction::Conserve
        },
        p
    );
}

#[test]
fn create_policy_test_write() {
    let buffer = Packet::CreatePolicy(create_policy::Packet {
        species: "dog".to_string(),
        action: PolicyAction::Conserve,
    })
    .write_packet();
    let data = [
        0x55, 0x00, 0x00, 0x00, 0x0e, 0x00, 0x00, 0x00, 0x03, 0x64, 0x6f, 0x67, 0xa0, 0xc0,
    ];
    assert_eq!(data.as_slice(), buffer.as_slice());
}

#[test]
fn dial_authority_test_packet() {
    let data = [0x53, 0x00, 0x00, 0x00, 0x0a, 0x00, 0x00, 0x30, 0x39, 0x3a];
    let Packet::DialAuthority(p) = read_one(&data).unwrap().unwrap() else {
        panic!("invalid packet");
    };
    assert_eq!(dial_authority::Packet { site: 12345 }, p);
}

#[test]
fn error_test_read() {
    let data = [
        0x51, 0x00, 0x00, 0x00, 0x0d, 0x00, 0x00, 0x00, 0x03, 0x62, 0x61, 0x64, 0x78,
    ];
    let Packet::Error(p) = read_one(&data).unwrap().unwrap() else {
        panic!("invalid packet");
    };
    assert_eq!(
        error::Packet {
            message: "bad".to_string()
        },
        p
    );
}

#[test]
fn error_test_write() {
    let buffer = Packet::Error(error::Packet {
        message: "bad".to_string(),
    })
    .write_packet();
    let data = [
        0x51, 0x00, 0x00, 0x00, 0x0d, 0x00, 0x00, 0x00, 0x03, 0x62, 0x61, 0x64, 0x78,
    ];
    assert_eq!(data.as_slice(), buffer.as_slice());
}

const HELLO: [u8; 25] = [
    0x50, 0x00, 0x00, 0x00, 0x19, 0x00, 0x00, 0x00, 0x0b, 0x70, 0x65, 0x73, 0x74, 0x63, 0x6f,
    0x6e, 0x74, 0x72, 0x6f, 0x6c, 0x00, 0x00, 0x00, 0x01, 0xce,
];

#[test]
fn hello_test_read() {
    let Packet::Hello(p) = read_one(&HELLO).unwrap().unwrap() else {
        panic!("invalid packet");
    };
    assert_eq!(hello::Packet::new(), p);
}

#[test]
fn hello_test_write() {
    let buffer = Packet::Hello(hello::Packet::new()).write_packet();
    assert_eq!(HELLO.as_slice(), buffer.as_slice());
}

#[test]
fn ok_test_packet() {
    let data = [0x52, 0x00, 0x00, 0x00, 0x06, 0xa8];
    let Packet::Okay(p) = read_one(&data).unwrap().unwrap() else {
        panic!("invalid packet");
    };
    assert_eq!(ok::Packet, p);
}

const SITE_VISIT: [u8; 36] = [
    0x58, 0x00, 0x00, 0x00, 0x24, 0x00, 0x00, 0x30, 0x39, 0x00, 0x00, 0x00, 0x02, 0x00, 0x00,
    0x00, 0x03, 0x64, 0x6f, 0x67, 0x00, 0x00, 0x00, 0x01, 0x00, 0x00, 0x00, 0x03, 0x72, 0x61,
    0x74, 0x00, 0x00, 0x00, 0x05, 0x8c,
];

fn visit() -> site_visit::Packet {
    site_visit::Packet {
        site: 12345,
        populations: vec![
            site_visit::Population {
                species: "dog".to_string(),
                count: 1,
            },
            site_visit::Population {
                species: "rat".to_string(),
                count: 5,
            },
        ],
    }
}

#[test]
fn site_visit_test_read() {
    let Packet::SiteVisit(p) = read_one(&SITE_VISIT).unwrap().unwrap() else {
        panic!("invalid packet");
    };
    assert_eq!(visit(), p);
}

#[test]
fn site_visit_test_write() {
    let buffer = Packet::SiteVisit(visit()).write_packet();
    assert_eq!(SITE_VISIT.as_slice(), buffer.as_slice());
}

const TARGETS: [u8; 44] = [
    0x54, 0x00, 0x00, 0x00, 0x2c, 0x00, 0x00, 0x30, 0x39, 0x00, 0x00, 0x00, 0x02, 0x00, 0x00,
    0x00, 0x03, 0x64, 0x6f, 0x67, 0x00, 0x00, 0x00, 0x01, 0x00, 0x00, 0x00, 0x03, 0x00, 0x00,
    0x00, 0x03, 0x72, 0x61, 0x74, 0x00, 0x00, 0x00, 0x00, 0x00, 0x00, 0x00, 0x0a, 0x80,
];

fn targets() -> target_populations::Packet {
    target_populations::Packet {
        site: 12345,
        populations: vec![
            target_populations::Population {
                species: "dog".to_string(),
                min: 1,
                max: 3,
            },
            target_populations::Population {
                species: "rat".to_string(),
                min: 0,
                max: 10,
            },
        ],
    }
}

#[test]
fn target_populations_test_read() {
    let Packet::TargetPopulations(p) = read_one(&TARGETS).unwrap().unwrap() else {
        panic!("invalid packet");
    };
    assert_eq!(targets(), p);
}

#[test]
fn target_populations_test_write() {
    let buffer = Packet::TargetPopulations(targets()).write_packet();
    assert_eq!(TARGETS.as_slice(), buffer.as_slice());
}

#[test]
fn decoding_consumes_one_message_at_a_time() {
    let mut buf = BytesMut::new();
    buf.extend_from_slice(&HELLO);
    buf.extend_from_slice(&[0x52, 0x00, 0x00, 0x00, 0x06, 0xa8]);
    let mut decoder = PacketDecoder::new();
    assert!(matches!(decoder.decode(&mut buf), Ok(Some(Packet::Hello(_)))));
    assert_eq!(buf.len(), 6);
    assert!(matches!(decoder.decode(&mut buf), Ok(Some(Packet::Okay(_)))));
    assert_eq!(buf.len(), 0);
    assert!(matches!(decoder.decode(&mut buf), Ok(None)));
}

#[test]
fn incomplete_message_waits() {
    assert!(matches!(read_one(&HELLO[..10]), Ok(None)));
    assert!(matches!(read_one(&[]), Ok(None)));
}

#[test]
fn decoding_errors() {
    assert_eq!(read_one(&[0x99, 0, 0]).unwrap_err(), CodecError::UnknownPacket(0x99));
    let mut bad = HELLO;
    bad[24] = 0xcf;
    assert_eq!(read_one(&bad).unwrap_err(), CodecError::InvalidChecksum);
    assert_eq!(
        read_one(&[0x52, 0x00, 0x00, 0x00, 0x07, 0xa7, 0x00]).unwrap_err(),
        CodecError::InvalidPacket
    );
    let bad_action = [
        0x55, 0x00, 0x00, 0x00, 0x0e, 0x00, 0x00, 0x00, 0x03, 0x64, 0x6f, 0x67, 0xa1, 0xbf,
    ];
    assert_eq!(read_one(&bad_action).unwrap_err(), CodecError::InvalidPacket);
}

#[test]
fn written_messages_read_back() {
    let packets = vec![
        Packet::Hello(hello::Packet::new()),
        Packet::SiteVisit(visit()),
        Packet::TargetPopulations(targets()),
        Packet::CreatePolicy(create_policy::Packet {
            species: "long-tailed rat".to_string(),
            action: PolicyAction::Cull,
        }),
    ];
    for p in packets {
        let bytes = p.write_packet();
        assert_eq!(read_one(&bytes).unwrap().unwrap(), p);
    }
}

#[test]
fn action_bytes() {
    assert_eq!(u8::from(PolicyAction::Cull), 0x90);
    assert_eq!(u8::from(PolicyAction::Conserve), 0xa0);
}

fn visit_pop(species: &str, count: u32) -> site_visit::Population {
    site_visit::Population {
        species: species.to_string(),
        count,
    }
}

fn target_pop(species: &str, min: u32, max: u32) -> target_populations::Population {
    target_populations::Population::new(species.to_string(), min, max)
}

#[test]
fn policies_follow_the_counts() {
    let ts = vec![
        target_pop("dog", 1, 3),
        target_pop("rat", 0, 10),
        target_pop("cat", 2, 4),
        target_pop("fox", 0, 1),
    ];
    let vs = vec![visit_pop("dog", 5), visit_pop("rat", 3), visit_pop("eel", 9)];
    assert_eq!(
        plan(&ts, &vs),
        vec![
            Adjustment::Ensure("dog".to_string(), PolicyAction::Cull),
            Adjustment::Remove("rat".to_string()),
            Adjustment::Ensure("cat".to_string(), PolicyAction::Conserve),
            Adjustment::Remove("fox".to_string()),
        ]
    );
}

#[test]
fn policies_are_replaced_only_when_they_change() {
    let mut policies = Policies::new();
    let cull = Adjustment::Ensure("dog".to_string(), PolicyAction::Cull);
    let ops = policies.ops_for(&cull);
    assert_eq!(ops, vec![PolicyOp::Create("dog".to_string(), PolicyAction::Cull)]);
    policies.record("dog".to_string(), 7, PolicyAction::Cull);
    assert_eq!(policies.policy("dog"), Some((7, PolicyAction::Cull)));
    assert!(policies.ops_for(&cull).is_empty());
    let conserve = Adjustment::Ensure("dog".to_string(), PolicyAction::Conserve);
    assert_eq!(
        policies.ops_for(&conserve),
        vec![
            PolicyOp::Delete(7),
            PolicyOp::Create("dog".to_string(), PolicyAction::Conserve)
        ]
    );
    assert_eq!(policies.policy("dog"), None);
    policies.record("dog".to_string(), 8, PolicyAction::Conserve);
    assert_eq!(
        policies.ops_for(&Adjustment::Remove("dog".to_string())),
        vec![PolicyOp::Delete(8)]
    );
    assert!(policies.ops_for(&Adjustment::Remove("dog".to_string())).is_empty());
}

#[test]
fn replies_are_checked() {
    assert_eq!(check_reply(&PolicyOp::Delete(1), Some(Packet::Okay(ok::Packet))), Ok(None));
    assert_eq!(
        check_reply(
            &PolicyOp::Create("dog".to_string(), PolicyAction::Cull),
            Some(Packet::PolicyResult(protohackers::pest::packets::policy_result::Packet { policy: 4 }))
        ),
        Ok(Some(4))
    );
    assert_eq!(
        check_reply(&PolicyOp::Delete(1), None),
        Err(CodecError::InvalidPacket)
    );
}

#[test]
fn visitor_greets_then_forwards() {
    let mut v = Visitor::new();
    assert_eq!(
        v.on_incoming(Incoming::Received(Packet::Hello(hello::Packet::new()))),
        VisitorAction::SendHello
    );
    assert_eq!(
        v.on_incoming(Incoming::Received(Packet::SiteVisit(visit()))),
        VisitorAction::Forward(visit())
    );
    assert_eq!(
        v.on_incoming(Incoming::Received(Packet::Okay(ok::Packet))),
        VisitorAction::SendError("invalid packet: got invalid packet".to_string())
    );
}

#[test]
fn visitor_refuses_a_bad_greeting() {
    let mut v = Visitor::new();
    let bad = hello::Packet {
        protocol: "pest".to_string(),
        version: 1,
    };
    assert_eq!(
        v.on_incoming(Incoming::Received(Packet::Hello(bad))),
        VisitorAction::SendError("invalid packet: waiting hello msg".to_string())
    );
    let mut v = Visitor::new();
    assert_eq!(
        v.on_incoming(Incoming::Failed(CodecError::UnknownPacket(0x0a))),
        VisitorAction::SendError("packet receiving error: unknown packet: 0x0a".to_string())
    );
}

#[test]
fn error_texts() {
    assert_eq!(error_text(CodecError::UnknownPacket(0xab)), "unknown packet: 0xab");
    assert_eq!(error_text(CodecError::InvalidChecksum), "invalid checksum");
    assert_eq!(error_text(CodecError::InvalidPacket), "invalid packet");
}

#[test]
fn dialling_an_authority() {
    let (mut d, first) = Dialer::start(12345);
    assert_eq!(first, Packet::Hello(hello::Packet::new()));
    assert_eq!(
        d.on_reply(Some(Packet::Hello(hello::Packet::new()))),
        DialAction::Send(Packet::DialAuthority(dial_authority::Packet { site: 12345 }))
    );
    assert_eq!(
        d.on_reply(Some(Packet::TargetPopulations(targets()))),
        DialAction::Connected(targets().populations)
    );
    let (mut d, _) = Dialer::start(1);
    d.on_reply(Some(Packet::Hello(hello::Packet::new())));
    assert_eq!(d.on_reply(Some(Packet::TargetPopulations(targets()))), DialAction::Fail);
}

#[test]
fn backoff_doubles_and_gives_up() {
    let mut b = Backoff::new();
    assert_eq!(b.failed(), Some(100));
    assert_eq!(b.failed(), Some(200));
    assert_eq!(b.failed(), Some(400));
    assert_eq!(b.failed(), Some(800));
    assert_eq!(b.failed(), Some(1600));
    assert_eq!(b.failed(), None);
}

#[test]
fn defaults_are_new() {
    assert_eq!(hello::Packet::default(), hello::Packet::new());
    let mut decoder = PacketDecoder::default();
    let mut buf = BytesMut::new();
    assert!(matches!(decoder.decode(&mut buf), Ok(None)));
}

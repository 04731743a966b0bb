#![allow(non_snake_case)]
use protohackers::speed::client::{on_tag, period_ms, Heartbeat as Beat, Role, TagAction};
use protohackers::speed::registry::{Cameras, Dispatchers};
use protohackers::speed::wire::{
    Error, Heartbeat, IAmCamera, IAmDispatcher, Plate, Ticket, WantHeartbeat,
};

#[test]
fn test_read_Plate() {
    let buffer = [0x20, 0x04, 0x55, 0x4e, 0x31, 0x58, 0x00, 0x00, 0x03, 0xe8];

    assert_eq!(
        Plate {
            plate: "UN1X".to_string(),
            timestamp: 1000
        },
        Plate::read_from(&buffer[..]).unwrap().unwrap().0
    );
}

#[test]
fn test_write_Plate() {
    let buffer = Plate {
        plate: "UN1X".to_string(),
        timestamp: 1000,
    }
    .write_to();

    assert_eq!(
        &buffer,
        &[0x20, 0x04, 0x55, 0x4e, 0x31, 0x58, 0x00, 0x00, 0x03, 0xe8]
    );
}

#[test]
fn test_read_IAmCamera() {
    let buffer = [0x80, 0x00, 0x42, 0x00, 0x64, 0x00, 0x3c];

    assert_eq!(
        IAmCamera {
            road: 66,
            mile: 100,
            limit: 60
        },
        IAmCamera::read_from(&buffer[..]).unwrap().unwrap().0
    );
}

#[test]
fn test_write_IAmCamera() {
    let buffer = IAmCamera {
        road: 66,
        mile: 100,
        limit: 60,
    }
    .write_to();

    assert_eq!(&buffer, &[0x80, 0x00, 0x42, 0x00, 0x64, 0x00, 0x3c]);
}

#[test]
fn test_read_IAmDispatcher() {
    let buffer = [0x81, 0x01, 0x00, 0x42];

    assert_eq!(
        IAmDispatcher { roads: vec![66] },
        IAmDispatcher::read_from(&buffer[..]).unwrap().unwrap().0
    );
}

#[test]
fn test_write_IAmDispatcher() {
    let buffer = IAmDispatcher { roads: vec![66] }.write_to();

    assert_eq!(&buffer, &[0x81, 0x01, 0x00, 0x42]);
}

#[test]
fn test_read_WantHeartbeat() {
    let buffer = [0x40, 0x00, 0x00, 0x00, 0x0a];

    assert_eq!(
        WantHeartbeat { interval: 10 },
        WantHeartbeat::read_from(&buffer[..]).unwrap().unwrap().0
    );
}

#[test]
fn test_write_WantHeartbeat() {
    let buffer = WantHeartbeat { interval: 10 }.write_to();

    assert_eq!(&buffer, &[0x40, 0x00, 0x00, 0x00, 0x0a]);
}

#[test]
fn test_write_Error() {
    let buffer = Error {
        msg: "bad".to_string(),
    }
    .write_to();

    assert_eq!(buffer, vec![0x10, 0x03, 0x62, 0x61, 0x64]);
}

#[test]
fn test_read_Error() {
    let buffer = [0x10, 0x03, 0x62, 0x61, 0x64];

    assert_eq!(
        Error {
            msg: "bad".to_string(),
        },
        Error::read_from(&buffer[..]).unwrap().unwrap().0
    );
}

#[test]
fn test_write_Ticket() {
    let buffer = Ticket {
        plate: "UN1X".to_string(),
        road: 66,
        mile1: 100,
        timestamp1: 123456,
        mile2: 110,
        timestamp2: 123816,
        speed: 10000,
    }
    .write_to();

    assert_eq!(
        buffer,
        vec![
            0x21, 0x04, 0x55, 0x4e, 0x31, 0x58, 0x00, 0x42, 0x00, 0x64, 0x00, 0x01, 0xe2, 0x40,
            0x00, 0x6e, 0x00, 0x01, 0xe3, 0xa8, 0x27, 0x10
        ]
    );
}

#[test]
fn test_read_Ticket() {
    let buffer = [
        0x21, 0x04, 0x55, 0x4e, 0x31, 0x58, 0x00, 0x42, 0x00, 0x64, 0x00, 0x01, 0xe2, 0x40, 0x00,
        0x6e, 0x00, 0x01, 0xe3, 0xa8, 0x27, 0x10,
    ];

    assert_eq!(
        Ticket {
            plate: "UN1X".to_string(),
            road: 66,
            mile1: 100,
            timestamp1: 123456,
            mile2: 110,
            timestamp2: 123816,
            speed: 10000,
        },
        Ticket::read_from(&buffer[..]).unwrap().unwrap().0
    );
}

#[test]
fn test_write_Heartbeat() {
    assert_eq!(Heartbeat.write_to(), vec![0x41]);
}

#[test]
fn test_read_Heartbeat() {
    let buffer = [0x41];

    assert_eq!(Heartbeat, Heartbeat::read_from(&buffer[..]).unwrap().unwrap().0);
}

#[test]
fn incomplete_and_foreign_messages() {
    assert_eq!(Plate::read_from(&[0x20, 0x04, 0x55][..]), Ok(None));
    assert_eq!(Plate::read_from(&[0x21][..]), Err(0x21));
}

#[test]
fn camera_limits_must_agree() {
    let mut cameras = Cameras::new();
    assert_eq!(cameras.add_camera(1, 60), Ok(()));
    assert_eq!(cameras.add_camera(1, 60), Ok(()));
    assert_eq!(cameras.add_camera(1, 50), Err("limit conflict"));
    assert_eq!(cameras.camera_count(1), 2);
    assert_eq!(cameras.camera_count(2), 0);
    cameras.remove_camera(1);
    assert_eq!(cameras.camera_count(1), 1);
    cameras.remove_camera(1);
    assert_eq!(cameras.camera_count(1), 0);
    assert_eq!(cameras.add_camera(1, 50), Ok(()));
}

#[test]
fn tickets_wait_for_a_dispatcher() {
    let ticket = Ticket {
        plate: "UN1X".to_string(),
        road: 66,
        mile1: 100,
        timestamp1: 123456,
        mile2: 110,
        timestamp2: 123816,
        speed: 10000,
    };
    let mut dispatchers = Dispatchers::new();
    assert!(dispatchers.send_tickets(vec![ticket]).is_empty());
    let sent = dispatchers.add_dispatcher(7, vec![66]);
    assert_eq!(sent.len(), 1);
    assert_eq!(sent[0].0, 7);
    assert_eq!(sent[0].1.plate, "UN1X");
}

#[test]
fn tags_accepted_by_role() {
    let beat = Beat::new(None);
    assert_eq!(on_tag(Role::Unidentified, &beat, 0x80), TagAction::IAmCamera);
    assert_eq!(on_tag(Role::Unidentified, &beat, 0x81), TagAction::IAmDispatcher);
    assert_eq!(on_tag(Role::Camera, &beat, 0x20), TagAction::Plate);
    assert_eq!(on_tag(Role::Camera, &beat, 0x40), TagAction::WantHeartbeat);
    assert_eq!(
        on_tag(Role::Unidentified, &beat, 0x20),
        TagAction::Refuse("invalid message: 0x20".to_string())
    );
    assert_eq!(
        on_tag(Role::Dispatcher, &beat, 0x80),
        TagAction::Refuse("invalid msg: 0x80".to_string())
    );
}

#[test]
fn heartbeat_is_asked_once() {
    let mut beat = Beat::new(None);
    assert!(!beat.is_setted());
    assert!(!beat.is_valid());
    beat.set_period(period_ms(Role::Camera, 25));
    assert!(beat.is_setted());
    assert!(beat.is_valid());
    assert_eq!(
        on_tag(Role::Camera, &beat, 0x40),
        TagAction::Refuse("invalid msg: 0x40".to_string())
    );
    let zero = Beat::new(Some(0));
    assert!(zero.is_setted());
    assert!(!zero.is_valid());
    assert_eq!(period_ms(Role::Unidentified, 10), 1000);
}

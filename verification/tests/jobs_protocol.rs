use bytes::BytesMut;
use protohackers::jobs::codec::{FrameError, RequestCodec, ResponseCodec};
use protohackers::jobs::json::{read_request, read_response};
use protohackers::jobs::message::{Field, Request, RequestError, RequestFields, Response};

fn fields(request: &str) -> RequestFields {
    RequestFields {
        request: Field::Present(request.to_string()),
        queue: Field::Missing,
        job: None,
        pri: Field::Missing,
        queues: Field::Missing,
        wait: Field::Missing,
        id: Field::Missing,
    }
}

#[test]
fn read_request_put_from_fields() {
    let mut f = fields("put");
    f.queue = Field::Present("queue1".to_string());
    f.job = Some(r#"{"name":"job1"}"#.to_string());
    f.pri = Field::Present(123);
    match Request::from_fields(f) {
        Ok(Request::Put { queue, job, priority }) => {
            assert_eq!(queue, "queue1");
            assert_eq!(job, r#"{"name":"job1"}"#);
            assert_eq!(priority, 123);
        }
        _ => panic!("expected a put"),
    }
}

#[test]
fn read_request_get_from_fields() {
    let mut f = fields("get");
    f.queues = Field::Present(vec!["queue1".to_string(), "queue2".to_string()]);
    f.wait = Field::Present(true);
    match Request::from_fields(f) {
        Ok(Request::Get { queues, wait }) => {
            assert_eq!(queues, vec!["queue1".to_string(), "queue2".to_string()]);
            assert!(wait);
        }
        _ => panic!("expected a get"),
    }
}

#[test]
fn read_request_delete_and_abort_from_fields() {
    let mut f = fields("delete");
    f.id = Field::Present(123);
    assert!(matches!(Request::from_fields(f), Ok(Request::Delete { id: 123 })));
    let mut f = fields("abort");
    f.id = Field::Present(123);
    assert!(matches!(Request::from_fields(f), Ok(Request::Abort { id: 123 })));
}

#[test]
fn request_errors() {
    let f = fields("put");
    assert!(matches!(Request::from_fields(f), Err(RequestError::FieldNotFound("queue"))));
    match Request::from_fields(fields("frobnicate")) {
        Err(RequestError::InvalidRequest(k)) => assert_eq!(k, "frobnicate"),
        _ => panic!("expected an invalid request"),
    }
    let mut f = fields("get");
    f.request = Field::Missing;
    assert!(matches!(Request::from_fields(f), Err(RequestError::FieldNotFound("request"))));
}

#[test]
fn lines_are_framed() {
    let mut codec = RequestCodec::new();
    let mut buf = BytesMut::from(&b"abc\ndef"[..]);
    assert_eq!(codec.next_line(&mut buf), Ok(Some(b"abc".to_vec())));
    assert_eq!(codec.next_line(&mut buf), Ok(None));
    buf.extend_from_slice(b"\n");
    assert_eq!(codec.next_line(&mut buf), Ok(Some(b"def".to_vec())));
}

#[test]
fn overlong_line_is_refused() {
    let mut codec = RequestCodec::new_with_max_length(3);
    assert_eq!(codec.max_length(), 3);
    let mut buf = BytesMut::from(&b"abcdef"[..]);
    assert_eq!(codec.next_line(&mut buf), Err(FrameError::MaxLineLengthExceeded));
}

fn first_request(text: &[u8]) -> Result<Request, RequestError> {
    let mut codec = RequestCodec::new();
    let mut buf = BytesMut::from(text);
    let line = codec.next_line(&mut buf).unwrap().unwrap();
    read_request(&line)
}

#[test]
fn test_read_request_put() {
    match first_request(b"{\"request\":\"put\",\"queue\":\"queue1\",\"job\":{\"name\":\"job1\"},\"pri\":123}\n") {
        Ok(Request::Put { queue, job, priority }) => {
            assert_eq!(queue, "queue1");
            assert_eq!(job, r#"{"name":"job1"}"#);
            assert_eq!(priority, 123);
        }
        _ => panic!("expected a put"),
    }
}

#[test]
fn test_read_request_get() {
    match first_request(b"{\"request\":\"get\",\"queues\":[\"queue1\",\"queue2\"],\"wait\":true}\n") {
        Ok(Request::Get { queues, wait }) => {
            assert_eq!(queues, vec!["queue1".to_string(), "queue2".to_string()]);
            assert!(wait);
        }
        _ => panic!("expected a get"),
    }
}

#[test]
fn test_read_request_delete() {
    assert!(matches!(
        first_request(b"{\"request\":\"delete\",\"id\":123}\n"),
        Ok(Request::Delete { id: 123 })
    ));
}

#[test]
fn test_read_request_abort() {
    assert!(matches!(
        first_request(b"{\"request\":\"abort\",\"id\":123}\n"),
        Ok(Request::Abort { id: 123 })
    ));
}

#[test]
fn malformed_request_lines() {
    match read_request(b"not json") {
        Err(e @ RequestError::Serde(_)) => assert!(e.text().starts_with("serde error: ")),
        _ => panic!("expected a serde error"),
    }
    match read_request(br#"{"request":"put","queue":1,"job":2,"pri":3}"#) {
        Err(RequestError::Serde(m)) => assert!(m.contains("expected a string")),
        _ => panic!("expected a serde error"),
    }
    assert!(matches!(read_request(br#"{"queue":"q"}"#), Err(RequestError::FieldNotFound("request"))));
    match read_request(br#"{"request":7}"#) {
        Err(e) => assert_eq!(e.text(), "invalid request: invalid field type"),
        _ => panic!("expected an invalid request"),
    }
    assert_eq!(RequestError::FieldNotFound("id").text(), "field not found: id");
    assert_eq!(RequestError::MaxLineLengthExceeded.text(), "max line length exceeded");
    match read_request(br#"{"request":"get","queues":["a"]}"#) {
        Ok(Request::Get { wait, .. }) => assert!(!wait),
        _ => panic!("expected a get"),
    }
}

#[test]
fn response_lines() {
    assert!(matches!(read_response(br#"{"status":"ok"}"#), Ok(Response::Okay)));
    assert!(matches!(read_response(br#"{"status":"ok","id":12}"#), Ok(Response::Id(12))));
    match read_response(br#"{"status":"ok","id":12,"job":{"a":1},"pri":3,"queue":"q"}"#) {
        Ok(Response::JobRef(12, job, 3, queue)) => {
            assert_eq!(job, r#"{"a":1}"#);
            assert_eq!(queue, "q");
        }
        _ => panic!("expected a job"),
    }
    match read_response(br#"{"status":"error","error":"prova"}"#) {
        Ok(Response::Error(m)) => assert_eq!(m, r#""prova""#),
        _ => panic!("expected an error"),
    }
    match read_response(br#"{"status":"error"}"#) {
        Ok(Response::Error(m)) => assert_eq!(m, "<EMPTY ERROR MESSAGE>"),
        _ => panic!("expected an error"),
    }
    assert!(matches!(read_response(br#"{"status":"no-job"}"#), Ok(Response::NoJob)));
    assert_eq!(read_response(br#"{"id":1}"#).err(), Some("no status field".to_string()));
    assert_eq!(
        read_response(br#"{"status":"ok","id":-1}"#).err(),
        Some("invalid field id".to_string())
    );
    assert!(read_response(b"{").is_err());
}

#[test]
fn default_codecs_are_new() {
    assert_eq!(RequestCodec::default().max_length(), usize::MAX);
    let mut codec = ResponseCodec::default();
    let mut buf = BytesMut::from(&b"{\"status\":\"ok\"}\n"[..]);
    assert_eq!(codec.next_line(&mut buf), Some(b"{\"status\":\"ok\"}".to_vec()));
}

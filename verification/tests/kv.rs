use protohackers::kv::{parse_request, Database, Request};

#[test]
fn requests_split_at_the_first_equals() {
    assert_eq!(parse_request(b"foo=bar"), Request::Insert(b"foo".to_vec(), b"bar".to_vec()));
    assert_eq!(parse_request(b"foo=bar=baz"), Request::Insert(b"foo".to_vec(), b"bar=baz".to_vec()));
    assert_eq!(parse_request(b"foo="), Request::Insert(b"foo".to_vec(), b"".to_vec()));
    assert_eq!(parse_request(b"foo==="), Request::Insert(b"foo".to_vec(), b"==".to_vec()));
    assert_eq!(parse_request(b"=foo"), Request::Insert(b"".to_vec(), b"foo".to_vec()));
    assert_eq!(parse_request(b"message"), Request::Retrieve(b"message".to_vec()));
}

#[test]
fn a_session_with_the_store() {
    let mut db = Database::new();
    assert_eq!(db.respond(b"foo=bar"), None);
    assert_eq!(db.respond(b"foo"), Some(b"foo=bar".to_vec()));
    db.respond(b"foo=bar=baz");
    assert_eq!(db.respond(b"foo"), Some(b"foo=bar=baz".to_vec()));
    db.respond(b"foo=");
    assert_eq!(db.respond(b"foo"), Some(b"foo=".to_vec()));
    db.respond(b"=foo");
    assert_eq!(db.respond(b""), Some(b"=foo".to_vec()));
    db.respond(b"version=ignored");
    assert_eq!(
        db.respond(b"version"),
        Some(b"version=unusual-database-program 1.0.0".to_vec())
    );
    assert_eq!(db.respond(b"missing"), None);
}

#[test]
fn value_only_session() {
    let mut db = Database::new();

    db.respond_value(b"foo=bar");
    assert_eq!(db.respond_value(b"foo"), Some(b"bar".to_vec()));

    db.respond_value(b"foo=bar=baz");
    assert_eq!(db.respond_value(b"foo"), Some(b"bar=baz".to_vec()));

    db.respond_value(b"foo=");
    assert_eq!(db.respond_value(b"foo"), Some(b"".to_vec()));

    db.respond_value(b"foo===");
    assert_eq!(db.respond_value(b"foo"), Some(b"==".to_vec()));

    db.respond_value(b"=foo");
    assert_eq!(db.respond_value(b""), Some(b"foo".to_vec()));

    db.respond_value(b"version=ignored");
    assert_eq!(
        db.respond_value(b"version"),
        Some(b"unusual-database-program 1.0.0".to_vec())
    );
}

#[test]
fn the_latest_insert_wins() {
    let mut db = Database::new();
    db.insert(b"k".to_vec(), b"1".to_vec());
    db.insert(b"k".to_vec(), b"2".to_vec());
    db.insert(b"j".to_vec(), b"3".to_vec());
    assert_eq!(db.get(b"k"), Some(b"2".to_vec()));
    assert_eq!(db.get(b"j"), Some(b"3".to_vec()));
    assert_eq!(db.get(b"x"), None);
}

use protohackers::means::{decode, Message, Prices, Reply};

fn msg(kind: u8, a: i32, b: i32) -> Vec<u8> {
    let mut v = vec![kind];
    v.extend_from_slice(&a.to_be_bytes());
    v.extend_from_slice(&b.to_be_bytes());
    v
}

#[test]
fn prices_session() {
    let mut prices = Prices::new();
    assert_eq!(prices.handle(decode(&msg(b'I', 12345, 101))), Reply::Nothing);
    assert_eq!(prices.handle(decode(&msg(b'Q', 12345, 16000))), Reply::Mean(101));
}

#[test]
fn messages_are_decoded() {
    assert_eq!(
        decode(&msg(b'I', -5, 7)),
        Message::Insert {
            timestamp: -5,
            price: 7
        }
    );
    assert_eq!(
        decode(&msg(b'Q', 1, 2)),
        Message::Query {
            mintime: 1,
            maxtime: 2
        }
    );
    assert_eq!(decode(&msg(b'X', 1, 2)), Message::Unknown);
}

#[test]
fn means_round_toward_zero() {
    let mut prices = Prices::new();
    prices.insert(1, 100);
    prices.insert(2, 101);
    prices.insert(3, -7);
    prices.insert(4, -8);
    assert_eq!(prices.query(1, 2), 100);
    assert_eq!(prices.query(3, 4), -7);
    assert_eq!(prices.query(5, 9), 0);
    assert_eq!(prices.query(2, 1), 0);
}

#[test]
fn a_later_price_replaces_an_earlier_one() {
    let mut prices = Prices::new();
    prices.insert(10, 5);
    prices.insert(10, 9);
    assert_eq!(prices.query(10, 10), 9);
}

#[test]
fn extreme_prices_fit() {
    let mut prices = Prices::new();
    prices.insert(1, i32::MAX);
    prices.insert(2, i32::MAX);
    prices.insert(3, i32::MIN);
    prices.insert(4, i32::MIN);
    assert_eq!(prices.query(1, 2), i32::MAX);
    assert_eq!(prices.query(3, 4), i32::MIN);
    assert_eq!(prices.handle(Message::Unknown), Reply::Stop);
}

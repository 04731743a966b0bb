use protohackers::prime::{check, Query};

fn query(method: &str, number: Option<u64>) -> Option<Query> {
    Some(Query {
        method: method.to_string(),
        number,
    })
}

#[test]
fn primes_are_found() {
    assert_eq!(check(query("isPrime", Some(3))), Ok(true));
    assert_eq!(check(query("isPrime", Some(10))), Ok(false));
    assert_eq!(check(query("isPrime", Some(2))), Ok(true));
    assert_eq!(check(query("isPrime", Some(1))), Ok(false));
    assert_eq!(check(query("isPrime", Some(0))), Ok(false));
    assert_eq!(check(query("isPrime", Some(7919))), Ok(true));
    assert_eq!(check(query("isPrime", Some(4294967311))), Ok(true));
}

#[test]
fn large_composite_numbers_are_not_prime() {
    assert_eq!(check(query("isPrime", Some(u64::MAX))), Ok(false));
    assert_eq!(check(query("isPrime", Some(18446744065119617025))), Ok(false));
}

#[test]
fn numbers_that_are_not_integers_are_not_prime() {
    assert_eq!(check(query("isPrime", None)), Ok(false));
}

#[test]
fn other_requests_are_malformed() {
    assert_eq!(check(query("bho", Some(3))), Err("MALFORMED"));
    assert_eq!(check(None), Err("MALFORMED"));
}

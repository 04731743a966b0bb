//! Answers to primality requests: a request names the method `isPrime`
//! and a number; anything else is malformed.
use vstd::prelude::*;

verus! {

/// Past this bound an odd number may drive the trial division of
/// `primes::is_prime` beyond the square roots that fit in 64 bits.
pub const TRIAL_LIMIT: u64 = 18446744065119617025;

/// `n` is prime: above 1, and no number from 2 to `n - 1` divides it.
pub open spec fn prime(n: nat) -> bool {
    n >= 2 && forall|d: nat| 2 <= d < n ==> #[trigger] (n % d) != 0
}

/// `n` lies where the trial division of `primes::is_prime` stays within 64
/// bits whatever `n`'s factors: at most 1, even, or below `TRIAL_LIMIT`.
pub open spec fn below_trial_limit(n: u64) -> bool {
    n <= 1 || n % 2 == 0 || n < TRIAL_LIMIT
}

/// `primes::is_prime` can decide `n`: past `TRIAL_LIMIT` an odd composite
/// number still meets a factor whose square fits in 64 bits, and only an
/// odd prime there drives the trial division out of range.
pub open spec fn decidable(n: u64) -> bool {
    below_trial_limit(n) || !prime(n as nat)
}

/// Whether `n` lies below the trial limit, where `primes::is_prime` can
/// decide it whatever it is.
pub fn below_limit(n: u64) -> (r: bool)
    ensures
        r == below_trial_limit(n),
{
    n <= 1 || n % 2 == 0 || n < TRIAL_LIMIT
}

/// `primes::is_prime`: `false` below 2, else whether the first factor found
/// by trial division (2, then odd numbers whose squares do not exceed `n`)
/// is `n` itself, that is whether `n` is prime. For an odd prime past
/// `TRIAL_LIMIT` the square of the next odd candidate leaves 64 bits, an
/// overflow; `decidable` leaves those numbers out.
#[verifier::external_body]
fn is_prime(n: u64) -> (r: bool)
    requires
        decidable(n),
    ensures
        r == prime(n as nat),
{
    primes::is_prime(n)
}

/// A request as read: its method, and its number when that is an integer
/// that fits in 64 unsigned bits.
#[derive(Debug, Clone)]
pub struct Query {
    pub method: String,
    pub number: Option<u64>,
}

/// What the service answers when a request is malformed.
pub open spec fn malformed() -> Seq<char> {
    "MALFORMED"@
}

/// The answer to a request (`None`: it was not a request at all): for
/// `isPrime`, whether the number is prime, and `false` for a number that is
/// not a 64-bit unsigned integer; for any other method, or no request,
/// `MALFORMED`.
pub fn check(q: Option<Query>) -> (r: Result<bool, &'static str>)
    requires
        (q is Some && q.unwrap().number is Some) ==> decidable(q.unwrap().number.unwrap()),
    ensures
        match q {
            Some(q) if q.method@ == "isPrime"@ => match q.number {
                Some(n) => r == Ok::<bool, &'static str>(prime(n as nat)),
                None => r == Ok::<bool, &'static str>(false),
            },
            _ => r matches Err(e) && e@ == malformed(),
        },
{
    match q {
        Some(q) => {
            let method = q.method.as_str();
            if crate::text::str_equal(method, "isPrime") {
                match q.number {
                    Some(n) => Ok(is_prime(n)),
                    None => Ok(false),
                }
            } else {
                Err("MALFORMED")
            }
        },
        None => Err("MALFORMED"),
    }
}

} // verus!

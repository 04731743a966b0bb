//! Prices by timestamp, and the mean price over a span of time. Each
//! message is nine bytes: a kind, then two big-endian signed 32-bit numbers.
use vstd::prelude::*;
use crate::endian::{get_be32, read_be32};

verus! {

/// A client's message.
#[derive(Debug, PartialEq, Eq, Clone, Copy, Structural)]
pub enum Message {
    /// `I`: the price at a timestamp.
    Insert { timestamp: i32, price: i32 },
    /// `Q`: the mean price from `mintime` to `maxtime`, both included.
    Query { mintime: i32, maxtime: i32 },
    /// Any other kind: the session ends.
    Unknown,
}

/// The signed number that four big-endian bytes at `i` stand for.
pub open spec fn read_i32(b: Seq<u8>, i: int) -> i32 {
    read_be32(b, i) as i32
}

/// The message that nine bytes stand for.
pub open spec fn message_of(b: Seq<u8>) -> Message {
    if b[0] == 73 {
        Message::Insert { timestamp: read_i32(b, 1), price: read_i32(b, 5) }
    } else if b[0] == 81 {
        Message::Query { mintime: read_i32(b, 1), maxtime: read_i32(b, 5) }
    } else {
        Message::Unknown
    }
}

fn get_i32(b: &[u8], i: usize) -> (r: i32)
    requires
        i + 4 <= b@.len(),
    ensures
        r == read_i32(b@, i as int),
{
    let u = get_be32(b, i);
    u as i32
}

/// Reads a message.
pub fn decode(b: &[u8]) -> (r: Message)
    requires
        b@.len() == 9,
    ensures
        r == message_of(b@),
{
    if b[0] == 73 {
        Message::Insert { timestamp: get_i32(b, 1), price: get_i32(b, 5) }
    } else if b[0] == 81 {
        Message::Query { mintime: get_i32(b, 1), maxtime: get_i32(b, 5) }
    } else {
        Message::Unknown
    }
}

/// The sum of the prices in `es` with timestamps from `lo` to `hi`.
pub open spec fn total(es: Seq<(i32, i32)>, lo: i32, hi: i32) -> int
    decreases es.len(),
{
    if es.len() == 0 {
        0
    } else {
        let e = es.last();
        total(es.drop_last(), lo, hi) + if lo <= e.0 <= hi {
            e.1 as int
        } else {
            0
        }
    }
}

/// How many prices in `es` have timestamps from `lo` to `hi`.
pub open spec fn count(es: Seq<(i32, i32)>, lo: i32, hi: i32) -> nat
    decreases es.len(),
{
    if es.len() == 0 {
        0
    } else {
        let e = es.last();
        count(es.drop_last(), lo, hi) + if lo <= e.0 <= hi {
            1nat
        } else {
            0nat
        }
    }
}

/// Division rounded toward zero, as Rust's integers divide.
pub open spec fn div_toward_zero(a: int, n: int) -> int {
    if a >= 0 {
        a / n
    } else {
        -((-a) / n)
    }
}

/// The mean price from `lo` to `hi`, rounded toward zero; 0 when the span
/// is empty or holds no price.
pub open spec fn mean(es: Seq<(i32, i32)>, lo: i32, hi: i32) -> int {
    if hi < lo || count(es, lo, hi) == 0 {
        0
    } else {
        div_toward_zero(total(es, lo, hi), count(es, lo, hi) as int)
    }
}

/// What a session answers to one message.
#[derive(Debug, PartialEq, Eq, Clone, Copy, Structural)]
pub enum Reply {
    /// No answer.
    Nothing,
    /// The mean, sent as four big-endian bytes.
    Mean(i32),
    /// The message is not understood: the session ends.
    Stop,
}

/// One session's prices, by timestamp.
pub struct Prices {
    entries: Vec<(i32, i32)>,
}

impl View for Prices {
    type V = Seq<(i32, i32)>;

    /// The timestamps with their prices, in the order they were first given.
    closed spec fn view(&self) -> Seq<(i32, i32)> {
        self.entries@
    }
}

/// No timestamp appears twice.
pub open spec fn distinct_times(es: Seq<(i32, i32)>) -> bool {
    forall|i: int, j: int| 0 <= i < j < es.len() ==> #[trigger] es[i].0 != #[trigger] es[j].0
}

/// The prices after the price at `t` becomes `p`: it replaces the price
/// already given for `t`, or is added after all others.
pub open spec fn with_price(es: Seq<(i32, i32)>, t: i32, p: i32) -> Seq<(i32, i32)> {
    if exists|i: int| 0 <= i < es.len() && #[trigger] es[i].0 == t {
        es.update(choose|i: int| 0 <= i < es.len() && #[trigger] es[i].0 == t, (t, p))
    } else {
        es.push((t, p))
    }
}

proof fn lemma_mean_bounds(s: int, n: int)
    requires
        n > 0,
        -2147483648 * n <= s <= 2147483647 * n,
    ensures
        -2147483648 <= div_toward_zero(s, n) <= 2147483647,
{
    if s >= 0 {
        assert(s / n <= 2147483647) by (nonlinear_arith)
            requires
                n > 0,
                0 <= s <= 2147483647 * n,
        ;
        assert(s / n >= 0) by (nonlinear_arith)
            requires
                n > 0,
                0 <= s,
        ;
    } else {
        assert((-s) / n <= 2147483648) by (nonlinear_arith)
            requires
                n > 0,
                0 <= -s <= 2147483648 * n,
        ;
        assert((-s) / n >= 0) by (nonlinear_arith)
            requires
                n > 0,
                0 <= -s,
        ;
    }
}

/// Over the span of a single timestamp, the count and the sum are those of
/// the one price given for it, if any.
proof fn lemma_single_time(es: Seq<(i32, i32)>, t: i32)
    requires
        distinct_times(es),
    ensures
        forall|k: int| 0 <= k < es.len() && #[trigger] es[k].0 == t ==> count(es, t, t) == 1 && total(es, t, t) == es[k].1,
        (forall|k: int| 0 <= k < es.len() ==> #[trigger] es[k].0 != t) ==> count(es, t, t) == 0 && total(es, t, t) == 0,
    decreases es.len(),
{
    if es.len() > 0 {
        let d = es.drop_last();
        assert(distinct_times(d)) by {
            assert forall|a: int, b: int| 0 <= a < b < d.len() implies #[trigger] d[a].0 != #[trigger] d[b].0 by {
                assert(es[a].0 != es[b].0);
            }
        }
        lemma_single_time(d, t);
        let n = es.len() - 1;
        assert forall|k: int| 0 <= k < es.len() && #[trigger] es[k].0 == t implies count(es, t, t) == 1 && total(es, t, t) == es[k].1 by {
            if k < n {
                assert(d[k] == es[k]);
                assert(es[k].0 != es[n].0);
            } else {
                assert forall|j: int| 0 <= j < d.len() implies #[trigger] d[j].0 != t by {
                    assert(es[j].0 != es[n].0);
                }
            }
        }
        if forall|k: int| 0 <= k < es.len() ==> #[trigger] es[k].0 != t {
            assert forall|j: int| 0 <= j < d.len() implies #[trigger] d[j].0 != t by {
                assert(es[j].0 != t);
            }
            assert(es[n].0 != t);
        }
    }
}

/// What a query gives back of an insert: after the price at `t` becomes
/// `p`, the mean over the span from `t` to `t` is `p`.
pub proof fn lemma_insert_then_query(es: Seq<(i32, i32)>, t: i32, p: i32)
    requires
        distinct_times(es),
    ensures
        mean(with_price(es, t, p), t, t) == p,
{
    let ns = with_price(es, t, p);
    let k = if exists|i: int| 0 <= i < es.len() && #[trigger] es[i].0 == t {
        choose|i: int| 0 <= i < es.len() && #[trigger] es[i].0 == t
    } else {
        es.len() as int
    };
    assert(ns[k] == (t, p));
    assert(distinct_times(ns)) by {
        assert forall|a: int, b: int| 0 <= a < b < ns.len() implies #[trigger] ns[a].0 != #[trigger] ns[b].0 by {
            if b == k {
                if a < es.len() {
                    assert(es[a].0 != t || a == k);
                }
            } else if a == k {
                assert(es[b].0 != es[k].0);
            } else {
                assert(es[a].0 != es[b].0);
            }
        }
    }
    lemma_single_time(ns, t);
    assert(ns[k].0 == t);
    assert(count(ns, t, t) == 1 && total(ns, t, t) == p);
}

impl Prices {
    /// No prices.
    pub fn new() -> (r: Prices)
        ensures
            r@ == Seq::<(i32, i32)>::empty(),
    {
        Prices { entries: Vec::new() }
    }

    /// The price at `t` is `p`, replacing any price given before for `t`.
    pub fn insert(&mut self, t: i32, p: i32)
        requires
            distinct_times(old(self)@),
        ensures
            distinct_times(final(self)@),
            final(self)@ == with_price(old(self)@, t, p),
    {
        let ghost es = self@;
        let mut i: usize = 0;
        while i < self.entries.len()
            invariant
                es == self@,
                es == old(self)@,
                i <= es.len(),
                distinct_times(es),
                forall|j: int| 0 <= j < i ==> #[trigger] es[j].0 != t,
            decreases es.len() - i,
        {
            if self.entries[i].0 == t {
                proof {
                    assert(es[i as int].0 == t);
                    let c = choose|c: int| 0 <= c < es.len() && #[trigger] es[c].0 == t;
                    if c < i {
                        assert(es[c].0 != t);
                    } else if c > i {
                        assert(es[i as int].0 != es[c].0);
                    }
                    assert(c == i);
                }
                self.entries.set(i, (t, p));
                assert forall|a: int, b: int| 0 <= a < b < self@.len() implies #[trigger] self@[a].0
                    != #[trigger] self@[b].0 by {
                    assert(es[a].0 != es[b].0);
                }
                return;
            }
            i += 1;
        }
        self.entries.push((t, p));
        assert forall|a: int, b: int| 0 <= a < b < self@.len() implies #[trigger] self@[a].0
            != #[trigger] self@[b].0 by {
            if b < es.len() {
                assert(es[a].0 != es[b].0);
            } else {
                assert(es[a].0 != t);
            }
        }
    }

    /// The mean price from `mintime` to `maxtime`, rounded toward zero; 0
    /// when the span is empty or holds no price.
    pub fn query(&self, mintime: i32, maxtime: i32) -> (r: i32)
        ensures
            r == mean(self@, mintime, maxtime),
    {
        if maxtime < mintime {
            return 0;
        }
        let ghost es = self@;
        let mut n: u64 = 0;
        let mut sum: i128 = 0;
        let mut i: usize = 0;
        while i < self.entries.len()
            invariant
                es == self@,
                i <= es.len(),
                n == count(es.take(i as int), mintime, maxtime),
                sum == total(es.take(i as int), mintime, maxtime),
                n <= i,
                -2147483648 * n <= sum <= 2147483647 * n,
            decreases es.len() - i,
        {
            let (t, p) = self.entries[i];
            assert(es.take(i + 1).drop_last() =~= es.take(i as int));
            if mintime <= t && t <= maxtime {
                n = n + 1;
                sum = sum + p as i128;
            }
            i += 1;
        }
        assert(es.take(es.len() as int) =~= es);
        if n == 0 {
            return 0;
        }
        proof {
            lemma_mean_bounds(sum as int, n as int);
        }
        if sum >= 0 {
            let q = (sum as u128) / (n as u128);
            q as i32
        } else {
            let q = ((0 - sum) as u128) / (n as u128);
            (0 - (q as i128)) as i32
        }
    }

    /// Handles one message: an insert stores its price, a query is
    /// answered with the mean, and any other message ends the session.
    pub fn handle(&mut self, m: Message) -> (r: Reply)
        requires
            distinct_times(old(self)@),
        ensures
            distinct_times(final(self)@),
            match m {
                Message::Insert { timestamp, price } => final(self)@ == with_price(
                    old(self)@,
                    timestamp,
                    price,
                ) && r == Reply::Nothing,
                Message::Query { mintime, maxtime } => final(self)@ == old(self)@ && r == Reply::Mean(
                    mean(old(self)@, mintime, maxtime) as i32,
                ),
                Message::Unknown => final(self)@ == old(self)@ && r == Reply::Stop,
            },
    {
        match m {
            Message::Insert { timestamp, price } => {
                self.insert(timestamp, price);
                Reply::Nothing
            },
            Message::Query { mintime, maxtime } => Reply::Mean(self.query(mintime, maxtime)),
            Message::Unknown => Reply::Stop,
        }
    }
}

} // verus!

//! The application carried over LRCP: each line received is sent back with
//! its characters in reverse order.
use vstd::prelude::*;

use crate::lrcp::session::drain_front;

verus! {

/// The first newline of `b` stands at `i`.
pub open spec fn newline_at(b: Seq<u8>, i: int) -> bool {
    0 <= i < b.len() && b[i] == 10 && forall|j: int| 0 <= j < i ==> b[j] != 10
}

/// The answer to the complete lines of `b`: each reversed, with its newline.
pub open spec fn answered(b: Seq<u8>) -> Seq<u8>
    decreases b.len(),
{
    if exists|i: int| newline_at(b, i) {
        let i = choose|i: int| newline_at(b, i);
        b.take(i).reverse().push(10) + answered(b.skip(i + 1))
    } else {
        Seq::empty()
    }
}

/// What follows the last complete line of `b`.
pub open spec fn unanswered(b: Seq<u8>) -> Seq<u8>
    decreases b.len(),
{
    if exists|i: int| newline_at(b, i) {
        let i = choose|i: int| newline_at(b, i);
        unanswered(b.skip(i + 1))
    } else {
        b
    }
}

proof fn lemma_newline_unique(b: Seq<u8>, i: int)
    requires
        newline_at(b, i),
    ensures
        (choose|k: int| newline_at(b, k)) == i,
{
    let k = choose|k: int| newline_at(b, k);
    if k < i {
        assert(b[k] != 10);
    } else if i < k {
        assert(b[i] != 10);
    }
}

/// Takes the first complete line out of `received`: its bytes without the
/// newline; none while no newline has come.
pub fn take_line(received: &mut Vec<u8>) -> (r: Option<Vec<u8>>)
    ensures
        match r {
            Some(line) => {
                &&& newline_at(old(received)@, line@.len() as int)
                &&& line@ == old(received)@.take(line@.len() as int)
                &&& final(received)@ == old(received)@.skip(line@.len() + 1 as int)
            },
            None => {
                &&& !(exists|i: int| newline_at(old(received)@, i))
                &&& final(received)@ == old(received)@
            },
        },
{
    let mut i: usize = 0;
    while i < received.len()
        invariant
            i <= received@.len(),
            received@ == old(received)@,
            forall|j: int| 0 <= j < i ==> received@[j] != 10,
        decreases received@.len() - i,
    {
        if received[i] == 10 {
            let mut line = drain_front(received, i + 1);
            line.pop();
            assert(line@ =~= old(received)@.take(i as int));
            return Some(line);
        }
        i += 1;
    }
    None
}

/// The bytes of a line in reverse order.
pub fn reversed(line: &[u8]) -> (r: Vec<u8>)
    ensures
        r@ == line@.reverse(),
{
    let mut r: Vec<u8> = Vec::new();
    let mut i: usize = line.len();
    while i > 0
        invariant
            i <= line@.len(),
            r@ == line@.subrange(i as int, line@.len() as int).reverse(),
        decreases i,
    {
        i -= 1;
        r.push(line[i]);
        assert(line@.subrange(i as int, line@.len() as int).reverse() =~= line@.subrange(
            i + 1,
            line@.len() as int,
        ).reverse().push(line@[i as int]));
    }
    assert(line@.subrange(0, line@.len() as int) =~= line@);
    r
}

/// Answers every complete line in `received`: each is appended to
/// `to_send` reversed, with its newline, and what follows the last one stays.
/// Gives whether any line was answered.
pub fn reverse_lines(received: &mut Vec<u8>, to_send: &mut Vec<u8>) -> (r: bool)
    ensures
        final(to_send)@ == old(to_send)@ + answered(old(received)@),
        final(received)@ == unanswered(old(received)@),
        r == (exists|i: int| newline_at(old(received)@, i)),
    decreases old(received)@.len(),
{
    let ghost before = received@;
    match take_line(received) {
        Some(line) => {
            proof {
                lemma_newline_unique(before, line@.len() as int);
            }
            let back = reversed(line.as_slice());
            let ghost start = to_send@;
            let mut k: usize = 0;
            while k < back.len()
                invariant
                    k <= back@.len(),
                    to_send@ == start + back@.take(k as int),
                decreases back@.len() - k,
            {
                to_send.push(back[k]);
                assert(back@.take(k + 1) =~= back@.take(k as int).push(back@[k as int]));
                k += 1;
            }
            assert(back@.take(back@.len() as int) =~= back@);
            to_send.push(10);
            let ghost mid = to_send@;
            reverse_lines(received, to_send);
            assert(to_send@ =~= old(to_send)@ + answered(before));
            true
        },
        None => {
            assert(answered(before) =~= Seq::<u8>::empty());
            assert(old(to_send)@ + Seq::<u8>::empty() =~= old(to_send)@);
            false
        },
    }
}

} // verus!

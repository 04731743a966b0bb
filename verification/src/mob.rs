//! A proxy for the chat that rewrites every Boguscoin address in the lines
//! it relays, in both directions, to one address of its own.
use vstd::prelude::*;
use vstd::utf8::{decode_utf8, valid_utf8};
use crate::text::{
    chars_of, is_alphanumeric, lossy_string, push_char, string_of, unicode_alphanumeric,
    utf8_lossy,
};

verus! {

/// The address that the proxy puts in place of every other.
pub const BOGUSCOIN: &'static str = "7YWHMfk9JZe0LM0g1ZauHuiSxhI";

/// The pieces of `cs` between single spaces, empty pieces included; `cur`
/// is the piece read so far.
pub open spec fn pieces_from(cs: Seq<char>, cur: Seq<char>) -> Seq<Seq<char>>
    decreases cs.len(),
{
    if cs.len() == 0 {
        seq![cur]
    } else if cs[0] == ' ' {
        seq![cur] + pieces_from(cs.drop_first(), Seq::empty())
    } else {
        pieces_from(cs.drop_first(), cur.push(cs[0]))
    }
}

/// The pieces of a message between its spaces: one more than it has spaces.
pub open spec fn pieces(text: Seq<char>) -> Seq<Seq<char>> {
    pieces_from(text, Seq::empty())
}

/// A Boguscoin address: it starts with `7` and consists of 26 to 35
/// alphanumeric characters.
pub open spec fn is_address(w: Seq<char>) -> bool {
    &&& w.len() > 0
    &&& w[0] == '7'
    &&& 26 <= w.len() <= 35
    &&& forall|i: int| 0 <= i < w.len() ==> unicode_alphanumeric(#[trigger] w[i])
}

/// A piece as relayed: an address becomes `coin`.
pub open spec fn relayed(w: Seq<char>, coin: Seq<char>) -> Seq<char> {
    if is_address(w) {
        coin
    } else {
        w
    }
}

/// The pieces put back together, one space between each two.
pub open spec fn spaced(ws: Seq<Seq<char>>) -> Seq<char>
    decreases ws.len(),
{
    if ws.len() == 0 {
        Seq::empty()
    } else if ws.len() == 1 {
        ws[0]
    } else {
        spaced(ws.drop_last()) + seq![' '] + ws.last()
    }
}

/// A chat message as relayed: every piece between spaces that is an
/// address becomes `coin`; the rest, spaces included, stays as it was.
pub open spec fn rewrite_text(text: Seq<char>, coin: Seq<char>) -> Seq<char> {
    spaced(pieces(text).map_values(|w: Seq<char>| relayed(w, coin)))
}

/// The message of a received line: its bytes without the final newline.
pub open spec fn message(line: Seq<u8>) -> Seq<u8> {
    if line.len() > 0 && line.last() == 10u8 {
        line.drop_last()
    } else {
        line
    }
}

/// A received line (its bytes, newline included) as relayed: its message,
/// decoded, with every address replaced by `coin`.
pub open spec fn rewrite(line: Seq<u8>, coin: Seq<char>) -> Seq<char> {
    rewrite_text(utf8_lossy(message(line)), coin)
}

/// Pieces read from a message always number at least one.
proof fn lemma_pieces_nonempty(cs: Seq<char>, cur: Seq<char>)
    ensures
        pieces_from(cs, cur).len() >= 1,
    decreases cs.len(),
{
    if cs.len() > 0 {
        if cs[0] == ' ' {
            lemma_pieces_nonempty(cs.drop_first(), Seq::empty());
        } else {
            lemma_pieces_nonempty(cs.drop_first(), cur.push(cs[0]));
        }
    }
}

/// Putting a piece in front adds it and one space.
proof fn lemma_spaced_front(a: Seq<char>, ps: Seq<Seq<char>>)
    requires
        ps.len() >= 1,
    ensures
        spaced(seq![a] + ps) == a + seq![' '] + spaced(ps),
    decreases ps.len(),
{
    let all = seq![a] + ps;
    assert(all.drop_last() =~= seq![a] + ps.drop_last());
    if ps.len() == 1 {
        assert(seq![a].len() == 1);
        assert(spaced(seq![a]) == a);
        assert(all.last() == ps[0]);
    } else {
        lemma_spaced_front(a, ps.drop_last());
        assert(all.last() == ps.last());
        assert(a + seq![' '] + spaced(ps.drop_last()) + seq![' '] + ps.last() =~= a + seq![' ']
            + (spaced(ps.drop_last()) + seq![' '] + ps.last()));
    }
}

/// Pieces read after `cur` and put back together give `cur` and the rest.
proof fn lemma_spaced_pieces(cs: Seq<char>, cur: Seq<char>)
    ensures
        spaced(pieces_from(cs, cur)) == cur + cs,
    decreases cs.len(),
{
    if cs.len() == 0 {
        assert(cur + cs =~= cur);
    } else if cs[0] == ' ' {
        let rest = pieces_from(cs.drop_first(), Seq::empty());
        lemma_pieces_nonempty(cs.drop_first(), Seq::empty());
        lemma_spaced_pieces(cs.drop_first(), Seq::empty());
        lemma_spaced_front(cur, rest);
        assert(Seq::<char>::empty() + cs.drop_first() =~= cs.drop_first());
        assert(cur + seq![' '] + cs.drop_first() =~= cur + cs);
    } else {
        lemma_spaced_pieces(cs.drop_first(), cur.push(cs[0]));
        assert(cur.push(cs[0]) + cs.drop_first() =~= cur + cs);
    }
}

/// A message with no address in it is relayed as it is, every character
/// and every space in place.
pub proof fn lemma_kept_without_addresses(text: Seq<char>, coin: Seq<char>)
    requires
        forall|i: int| 0 <= i < pieces(text).len() ==> !is_address(#[trigger] pieces(text)[i]),
    ensures
        rewrite_text(text, coin) == text,
{
    let ps = pieces(text);
    assert(ps.map_values(|w: Seq<char>| relayed(w, coin)) =~= ps);
    lemma_spaced_pieces(text, Seq::empty());
    assert(Seq::<char>::empty() + text =~= text);
}

/// Replacing every piece by itself gives the message back: apart from the
/// addresses, what is relayed is what was received.
pub proof fn lemma_pieces_spaced(text: Seq<char>)
    ensures
        spaced(pieces(text)) == text,
{
    lemma_spaced_pieces(text, Seq::empty());
    assert(Seq::<char>::empty() + text =~= text);
}

/// The pieces of a message between its spaces.
fn split_pieces(text: &str) -> (r: Vec<Vec<char>>)
    ensures
        r.deep_view() == pieces(text@),
{
    let cs = chars_of(text);
    let ghost b = cs@;
    let mut r: Vec<Vec<char>> = Vec::new();
    let mut cur: Vec<char> = Vec::new();
    let mut i: usize = 0;
    assert(b.skip(0) =~= b);
    assert(r.deep_view() + pieces_from(b.skip(0), cur@) =~= pieces(b));
    while i < cs.len()
        invariant
            b == cs@,
            b == text@,
            i <= b.len(),
            r.deep_view() + pieces_from(b.skip(i as int), cur@) == pieces(b),
        decreases b.len() - i,
    {
        let c = cs[i];
        assert(b.skip(i as int).drop_first() =~= b.skip(i + 1));
        assert(b.skip(i as int)[0] == c);
        if c == ' ' {
            let ghost before = r.deep_view();
            let ghost piece = cur@;
            assert(cur.deep_view() =~= piece);
            r.push(cur);
            assert(r.deep_view() =~= before + seq![piece]);
            assert(before + seq![piece] + pieces_from(b.skip(i + 1), Seq::empty()) =~= before + (
            seq![piece] + pieces_from(b.skip(i + 1), Seq::empty())));
            cur = Vec::new();
            assert(cur@ =~= Seq::<char>::empty());
        } else {
            cur.push(c);
        }
        i += 1;
    }
    assert(b.skip(i as int) =~= Seq::<char>::empty());
    let ghost before = r.deep_view();
    let ghost piece = cur@;
    assert(cur.deep_view() =~= piece);
    r.push(cur);
    assert(r.deep_view() =~= before + seq![piece]);
    r
}

/// Whether `w` is a Boguscoin address.
pub fn is_boguscoin(w: &[char]) -> (r: bool)
    ensures
        r == is_address(w@),
{
    if w.len() == 0 || w[0] != '7' {
        return false;
    }
    if w.len() < 26 || w.len() > 35 {
        return false;
    }
    let mut i: usize = 0;
    while i < w.len()
        invariant
            i <= w@.len(),
            forall|j: int| 0 <= j < i ==> unicode_alphanumeric(#[trigger] w@[j]),
        decreases w@.len() - i,
    {
        if !is_alphanumeric(w[i]) {
            return false;
        }
        i += 1;
    }
    true
}

/// Relays a received line (its bytes, newline included): its message with
/// every Boguscoin address in it replaced by `coin`, every other character
/// and every space kept, and no newline.
pub fn rewrite_line(line: &[u8], coin: &str) -> (r: String)
    ensures
        r@ == rewrite(line@, coin@),
        valid_utf8(message(line@)) ==> r@ == rewrite_text(decode_utf8(message(line@)), coin@),
{
    let n = line.len();
    let msg: &[u8] = if n > 0 && line[n - 1] == 10 {
        vstd::slice::slice_subrange(line, 0, n - 1)
    } else {
        line
    };
    assert(msg@ == message(line@)) by {
        if n > 0 && line@[n - 1] == 10 {
            assert(line@.last() == line@[n - 1]);
            assert(msg@ =~= line@.drop_last());
        }
    }
    let text = lossy_string(msg);
    let ws = split_pieces(text.as_str());
    let ghost rs = ws.deep_view().map_values(|w: Seq<char>| relayed(w, coin@));
    let mut out = String::new();
    let mut i: usize = 0;
    while i < ws.len()
        invariant
            rs == ws.deep_view().map_values(|w: Seq<char>| relayed(w, coin@)),
            rs.len() == ws@.len(),
            i <= ws@.len(),
            out@ == spaced(rs.take(i as int)),
        decreases ws@.len() - i,
    {
        assert(ws.deep_view()[i as int] == ws@[i as int]@);
        let piece = if is_boguscoin(ws[i].as_slice()) {
            String::from_str(coin)
        } else {
            string_of(ws[i].as_slice())
        };
        assert(rs.take(i + 1).drop_last() =~= rs.take(i as int));
        if i == 0 {
            assert(rs.take(1).len() == 1);
            out = piece;
        } else {
            push_char(&mut out, ' ');
            out.append(piece.as_str());
        }
        i += 1;
    }
    assert(rs.take(ws@.len() as int) =~= rs);
    out
}

} // verus!

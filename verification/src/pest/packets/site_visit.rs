//! `SiteVisit` (0x58): the populations counted at a site.
use vstd::prelude::*;
use vstd::utf8::encode_utf8;

use crate::endian::{be32, read_be32};
use crate::pest::frame::{
    close_frame, frame_outcome, lemma_frame, open_frame, step_str, step_u32, walk_body, walk_field, walk_fields,
    walk_repeat, Field, Shape, Walk,
};
use crate::pest::wire::{framed, str_field, CodecError, Writer};
use crate::pest::packets::RawPacketDecoder;
use crate::pest::wire::{lemma_be32_prefix, lemma_str_field_prefix};
use crate::pest::frame::{lemma_close_written, lemma_walk_written_str, lemma_walk_written_u32, lemma_written_outcome};

verus! {

/// The type byte of this message.
pub const KIND: u8 = 0x58;

/// The count of a species at a site.
#[derive(Debug, PartialEq, Eq, Clone)]
pub struct Population {
    pub species: String,
    pub count: u32,
}

#[derive(Debug, PartialEq, Eq, Clone)]
pub struct Packet {
    pub site: u32,
    pub populations: Vec<Population>,
}

pub open spec fn population_bytes(p: Population) -> Seq<u8> {
    str_field(p.species@) + be32(p.count)
}

pub open spec fn populations_bytes(ps: Seq<Population>) -> Seq<u8>
    decreases ps.len(),
{
    if ps.len() == 0 {
        Seq::empty()
    } else {
        populations_bytes(ps.drop_last()) + population_bytes(ps.last())
    }
}

/// The fields of the message: the site, the number of populations, and
/// each population.
pub open spec fn body(p: &Packet) -> Seq<u8> {
    be32(p.site) + be32(p.populations@.len() as u32) + populations_bytes(p.populations@)
}

pub open spec fn each() -> Seq<Field> {
    seq![Field::Str, Field::U32]
}

pub open spec fn shape() -> Shape {
    Shape { head: seq![Field::U32], each: Some(each()) }
}

impl Packet {
    /// The message's bytes.
    pub fn write_packet(&self) -> (r: Vec<u8>)
        requires
            body(self).len() + 6 <= u32::MAX,
        ensures
            r@ == framed(KIND, body(self)),
    {
        let ghost ps = self.populations@;
        let mut w = Writer::new(KIND);
        w.write_u32(self.site);
        let n = self.populations.len();
        proof {
            lemma_populations_len(ps);
        }
        w.write_u32(n as u32);
        let mut i: usize = 0;
        while i < n
            invariant
                ps == self.populations@,
                n == ps.len(),
                i <= n,
                body(self).len() + 6 <= u32::MAX,
                w.kind() == KIND,
                w.body() == be32(self.site) + be32(n as u32) + populations_bytes(ps.take(i as int)),
            decreases n - i,
        {
            assert(ps.take(i + 1).drop_last() =~= ps.take(i as int));
            proof {
                lemma_populations_prefix(ps, i as int + 1);
            }
            w.write_str(self.populations[i].species.as_str());
            w.write_u32(self.populations[i].count);
            i += 1;
            assert(w.body() =~= be32(self.site) + be32(n as u32) + populations_bytes(ps.take(i as int)));
        }
        assert(ps.take(n as int) =~= ps);
        w.finalize()
    }
}

proof fn lemma_populations_len(ps: Seq<Population>)
    ensures
        populations_bytes(ps).len() >= 4 * ps.len(),
    decreases ps.len(),
{
    if ps.len() > 0 {
        lemma_populations_len(ps.drop_last());
    }
}

/// The bytes of the first `k` populations are no more than those of all.
proof fn lemma_populations_prefix(ps: Seq<Population>, k: int)
    requires
        0 <= k <= ps.len(),
    ensures
        populations_bytes(ps.take(k)).len() <= populations_bytes(ps).len(),
    decreases ps.len(),
{
    if k < ps.len() {
        assert(ps.drop_last().take(k) =~= ps.take(k));
        lemma_populations_prefix(ps.drop_last(), k);
    } else {
        assert(ps.take(k) =~= ps);
    }
}

/// Checking one population is checking its species, then its count.
proof fn lemma_walk_each(b: Seq<u8>, c: int, len: int)
    ensures
        walk_fields(b, each(), c, len) == match walk_field(b, Field::Str, c, len) {
            Walk::At(c3) => walk_field(b, Field::U32, c3, len),
            w => w,
        },
{
    reveal_with_fuel(walk_fields, 3);
    assert(each().drop_first() =~= seq![Field::U32]);
    assert(seq![Field::U32].drop_first() =~= Seq::<Field>::empty());
}

proof fn lemma_populations_front(ps: Seq<Population>)
    requires
        ps.len() > 0,
    ensures
        populations_bytes(ps) == population_bytes(ps[0]) + populations_bytes(ps.drop_first()),
    decreases ps.len(),
{
    if ps.len() == 1 {
        assert(ps.drop_first() =~= Seq::<Population>::empty());
        assert(ps.drop_last() =~= Seq::<Population>::empty());
        assert(populations_bytes(ps.drop_last()) == Seq::<u8>::empty());
        assert(populations_bytes(ps.drop_first()) == Seq::<u8>::empty());
        assert(Seq::<u8>::empty() + population_bytes(ps.last()) =~= population_bytes(ps.last()));
        assert(population_bytes(ps[0]) + Seq::<u8>::empty() =~= population_bytes(ps[0]));
    } else {
        lemma_populations_front(ps.drop_last());
        assert(ps.drop_last().drop_first() =~= ps.drop_first().drop_last());
        assert(ps.drop_first().last() == ps.last());
        assert(ps.drop_last()[0] == ps[0]);
        let a = population_bytes(ps[0]);
        let m = populations_bytes(ps.drop_first().drop_last());
        let l = population_bytes(ps.last());
        assert(populations_bytes(ps) == populations_bytes(ps.drop_last()) + l);
        assert(populations_bytes(ps.drop_last()) == a + m);
        assert(populations_bytes(ps.drop_first()) == m + l);
        assert((a + m) + l =~= a + (m + l));
    }
}

/// One population written at `c` is checked up to its end.
proof fn lemma_walk_population(q: Population, b: Seq<u8>, c: int, len: int)
    requires
        0 <= c,
        c + population_bytes(q).len() < len <= b.len(),
        len <= u32::MAX,
        b.subrange(c, c + population_bytes(q).len()) == population_bytes(q),
    ensures
        walk_fields(b, each(), c, len) == Walk::At(c + population_bytes(q).len()),
{
    let m = population_bytes(q).len() as int;
    lemma_walk_each(b, c, len);
    let k = str_field(q.species@).len() as int;
    assert(b.subrange(c, c + k) =~= b.subrange(c, c + m).subrange(0, k));
    assert(population_bytes(q).subrange(0, k) =~= str_field(q.species@));
    lemma_walk_written_str(b, c, len, q.species@);
    assert(b.subrange(c + k, c + k + 4) =~= b.subrange(c, c + m).subrange(k, k + 4));
    assert(population_bytes(q).subrange(k, k + 4) =~= be32(q.count));
    lemma_walk_written_u32(b, c + k, len, q.count);
}

/// Populations written one after the other from `c` are all checked.
proof fn lemma_walk_populations(ps: Seq<Population>, b: Seq<u8>, c: int, len: int)
    requires
        0 <= c,
        c + populations_bytes(ps).len() < len <= b.len(),
        len <= u32::MAX,
        b.subrange(c, c + populations_bytes(ps).len()) == populations_bytes(ps),
    ensures
        walk_repeat(b, each(), ps.len(), c, len) == Walk::At(c + populations_bytes(ps).len()),
    decreases ps.len(),
{
    if ps.len() > 0 {
        let first = population_bytes(ps[0]);
        let rest = populations_bytes(ps.drop_first());
        let all = populations_bytes(ps);
        lemma_populations_front(ps);
        assert(all == first + rest);
        let m = first.len() as int;
        assert(all.subrange(0, m) =~= first);
        assert(all.subrange(m, all.len() as int) =~= rest);
        assert(b.subrange(c, c + m) =~= b.subrange(c, c + all.len()).subrange(0, m));
        lemma_walk_population(ps[0], b, c, len);
        assert(b.subrange(c + m, c + m + rest.len()) =~= b.subrange(c, c + all.len()).subrange(m, all.len() as int));
        lemma_walk_populations(ps.drop_first(), b, c + m, len);
        assert(ps.drop_first().len() == (ps.len() - 1) as nat);
    }
}

/// The fields of a message, written in a buffer of its length or longer,
/// check up to its checksum byte.
proof fn lemma_body_walk(p: &Packet, b: Seq<u8>, len: int)
    requires
        body(p).len() + 6 == len,
        len <= b.len(),
        len <= u32::MAX,
        b.subrange(5, len - 1) == body(p),
    ensures
        walk_body(b, shape(), len) == Walk::At(len - 1),
{
    reveal_with_fuel(walk_fields, 2);
    assert(shape().head.drop_first() =~= Seq::<Field>::empty());
    let ps = p.populations@;
    lemma_populations_len(ps);
    assert(b.subrange(5, 9) =~= b.subrange(5, len - 1).subrange(0, 4));
    assert(body(p).subrange(0, 4) =~= be32(p.site));
    lemma_walk_written_u32(b, 5, len, p.site);
    assert(b.subrange(9, 13) =~= b.subrange(5, len - 1).subrange(4, 8));
    assert(body(p).subrange(4, 8) =~= be32(ps.len() as u32));
    lemma_walk_written_u32(b, 9, len, ps.len() as u32);
    assert(b.subrange(13, len - 1) =~= b.subrange(5, len - 1).subrange(8, len - 6));
    assert(body(p).subrange(8, len - 6) =~= populations_bytes(ps));
    lemma_walk_populations(ps, b, 13, len);
}

/// The bytes written for a message, followed by anything, are read back as
/// one complete message of their length.
pub proof fn lemma_written_read(p: &Packet, rest: Seq<u8>)
    requires
        body(p).len() + 6 <= u32::MAX,
    ensures
        frame_outcome(framed(KIND, body(p)) + rest, shape()) == Walk::At(body(p).len() + 6 as int),
{
    let b = framed(KIND, body(p)) + rest;
    let len = body(p).len() + 6 as int;
    lemma_close_written(KIND, body(p), rest);
    lemma_body_walk(p, b, len);
    lemma_written_outcome(KIND, body(p), rest, shape());
}

/// The populations hold the same species with the same numbers.
pub open spec fn same_populations(a: Seq<Population>, b: Seq<Population>) -> bool {
    a.len() == b.len() && forall|i: int| 0 <= i < a.len() ==> a[i].species@ == b[i].species@ && a[i].count == b[i].count
}

proof fn lemma_population_prefix(q1: Population, q2: Population, r1: Seq<u8>, r2: Seq<u8>)
    requires
        population_bytes(q1) + r1 == population_bytes(q2) + r2,
        population_bytes(q1).len() <= u32::MAX,
        population_bytes(q2).len() <= u32::MAX,
    ensures
        q1.species@ == q2.species@ && q1.count == q2.count,
        r1 == r2,
{
    let x1 = be32(q1.count) + r1;
    let x2 = be32(q2.count) + r2;
    assert(population_bytes(q1) + r1 =~= str_field(q1.species@) + x1);
    assert(population_bytes(q2) + r2 =~= str_field(q2.species@) + x2);
    lemma_str_field_prefix(q1.species@, q2.species@, x1, x2);
    assert(be32(q1.count) + r1 =~= be32(q1.count) + (r1));
    assert(be32(q2.count) + r2 =~= be32(q2.count) + (r2));
    lemma_be32_prefix(q1.count, q2.count, r1, r2);
}

proof fn lemma_populations_injective(a: Seq<Population>, b: Seq<Population>)
    requires
        a.len() == b.len(),
        populations_bytes(a) == populations_bytes(b),
        populations_bytes(a).len() <= u32::MAX,
    ensures
        same_populations(a, b),
    decreases a.len(),
{
    if a.len() > 0 {
        lemma_populations_front(a);
        lemma_populations_front(b);
        lemma_population_prefix(a[0], b[0], populations_bytes(a.drop_first()), populations_bytes(b.drop_first()));
        lemma_populations_injective(a.drop_first(), b.drop_first());
        assert forall|i: int| 0 <= i < a.len() implies a[i].species@ == b[i].species@ && a[i].count == b[i].count by {
            if i > 0 {
                assert(a[i] == a.drop_first()[i - 1]);
                assert(b[i] == b.drop_first()[i - 1]);
            }
        }
    }
}

/// Messages with the same fields' bytes are the same message.
pub proof fn lemma_body_injective(p: &Packet, q: &Packet)
    requires
        body(p) == body(q),
        body(p).len() <= u32::MAX,
    ensures
        p.site == q.site,
        same_populations(p.populations@, q.populations@),
{
    let ps = p.populations@;
    let qs = q.populations@;
    lemma_populations_len(ps);
    lemma_populations_len(qs);
    let rp = be32(ps.len() as u32) + populations_bytes(ps);
    let rq = be32(qs.len() as u32) + populations_bytes(qs);
    assert(body(p) =~= be32(p.site) + rp);
    assert(body(q) =~= be32(q.site) + rq);
    lemma_be32_prefix(p.site, q.site, rp, rq);
    lemma_be32_prefix(ps.len() as u32, qs.len() as u32, populations_bytes(ps), populations_bytes(qs));
    lemma_populations_injective(ps, qs);
}

pub struct PacketDecoder;

impl RawPacketDecoder for PacketDecoder {
    type Decoded = Packet;

    open spec fn kind() -> u8 {
        KIND
    }

    open spec fn shape() -> Shape {
        shape()
    }

    open spec fn body(d: &Packet) -> Seq<u8> {
        body(d)
    }

    fn decode(b: &[u8]) -> (r: Result<Option<(Packet, usize)>, CodecError>) {
        let len = match open_frame(b) {
            Some(len) => len,
            None => return Ok(None),
        };
        proof {
            reveal_with_fuel(walk_fields, 2);
        }
        assert(shape().head.drop_first() =~= Seq::<Field>::empty());
        let (c1, site) = match step_u32(b, 5, len) {
            Ok(Some(x)) => x,
            Ok(None) => return Ok(None),
            Err(e) => return Err(e),
        };
        let (c2, count) = match step_u32(b, c1, len) {
            Ok(Some(x)) => x,
            Ok(None) => return Ok(None),
            Err(e) => return Err(e),
        };
        let mut populations: Vec<Population> = Vec::new();
        let mut c = c2;
        let mut i: u32 = 0;
        assert(b@.subrange(c2 as int, c2 as int) =~= populations_bytes(populations@));
        while i < count
            invariant
                b@.len() > 5,
                len == read_be32(b@, 1),
                len <= u32::MAX,
                c2 <= c <= len,
                i <= count,
                populations@.len() == i,
                walk_body(b@, shape(), len as int) == walk_repeat(b@, each(), (count - i) as nat, c as int, len as int),
                b@.subrange(c2 as int, c as int) == populations_bytes(populations@),
            decreases count - i,
        {
            proof {
                reveal_with_fuel(walk_fields, 3);
            }
        assert(seq![Field::Str, Field::U32].drop_first() =~= seq![Field::U32]);
        assert(seq![Field::U32].drop_first() =~= Seq::<Field>::empty());
            let (c3, species) = match step_str(b, c, len) {
                Ok(Some(x)) => x,
                Ok(None) => return Ok(None),
                Err(e) => return Err(e),
            };
            let (c4, count) = match step_u32(b, c3, len) {
                Ok(Some(x)) => x,
                Ok(None) => return Ok(None),
                Err(e) => return Err(e),
            };
            let ghost before = populations@;
            populations.push(Population { species, count });
            proof {
                assert(populations@.drop_last() =~= before);
                assert(b@.subrange(c2 as int, c4 as int) =~= b@.subrange(c2 as int, c as int) + b@.subrange(c as int, c4 as int));
                assert(b@.subrange(c as int, c4 as int) =~= population_bytes(populations@.last()));
            }
            c = c4;
            i += 1;
        }
        let n = match close_frame(b, c, len) {
            Ok(Some(n)) => n,
            Ok(None) => return Ok(None),
            Err(e) => return Err(e),
        };
        let p = Packet { site, populations };
        proof {
            assert(b@.subrange(5, c as int) =~= b@.subrange(5, c1 as int) + b@.subrange(c1 as int, c2 as int) + b@.subrange(c2 as int, c as int));
            lemma_frame(b@, body(&p), n as int);
        }
        Ok(Some((p, n as usize)))
    }
}

} // verus!

//! The reversible byte cipher negotiated at the start of a session.
use vstd::prelude::*;

use crate::buf::{buf_advance, buf_byte, buf_get_u8, buf_len, buf_put_u8, bytes_mut_contents};
use crate::text::{ascii_chars, ascii_string, decimal, decimal_bytes, lemma_decimal_ascii};

verus! {

/// One step of a cipher specification.
#[derive(Debug, PartialEq, Eq, Clone, Copy, Structural)]
pub enum Operation {
    Reversebits,
    Xor(u8),
    Xorpos,
    Add(u8),
    Addpos,
}

/// The byte whose bit `i` is bit `7 - i` of `v`.
pub open spec fn reversed_bits(v: u8) -> u8 {
    (((v & 0x01u8) << 7u8) | ((v & 0x02u8) << 5u8) | ((v & 0x04u8) << 3u8) | ((v & 0x08u8) << 1u8)
        | ((v & 0x10u8) >> 1u8) | ((v & 0x20u8) >> 3u8) | ((v & 0x40u8) >> 5u8) | ((v
        & 0x80u8) >> 7u8)) as u8
}

/// What `op` makes of the byte `v` found at stream position `pos`.
pub open spec fn op_encode(op: Operation, pos: int, v: u8) -> u8 {
    match op {
        Operation::Reversebits => reversed_bits(v),
        Operation::Xor(n) => v ^ n,
        Operation::Xorpos => v ^ ((pos % 256) as u8),
        Operation::Add(n) => ((v + n) % 256) as u8,
        Operation::Addpos => ((v + pos) % 256) as u8,
    }
}

/// The inverse of `op_encode` at the same position.
pub open spec fn op_decode(op: Operation, pos: int, v: u8) -> u8 {
    match op {
        Operation::Reversebits => reversed_bits(v),
        Operation::Xor(n) => v ^ n,
        Operation::Xorpos => v ^ ((pos % 256) as u8),
        Operation::Add(n) => ((v - n) % 256) as u8,
        Operation::Addpos => ((v - pos) % 256) as u8,
    }
}

/// Reverses the order of the bits of a byte.
pub fn reverse_bits(v: u8) -> (r: u8)
    ensures
        r == reversed_bits(v),
{
    ((v & 0x01) << 7) | ((v & 0x02) << 5) | ((v & 0x04) << 3) | ((v & 0x08) << 1) | ((v & 0x10)
        >> 1) | ((v & 0x20) >> 3) | ((v & 0x40) >> 5) | ((v & 0x80) >> 7)
}

impl Operation {
    pub fn encode(&self, position: usize, value: u8) -> (r: u8)
        ensures
            r == op_encode(*self, position as int, value),
    {
        match self {
            Operation::Reversebits => reverse_bits(value),
            Operation::Xor(n) => value ^ *n,
            Operation::Xorpos => value ^ ((position % 256) as u8),
            Operation::Add(n) => value.wrapping_add(*n),
            Operation::Addpos => value.wrapping_add((position % 256) as u8),
        }
    }

    pub fn decode(&self, position: usize, value: u8) -> (r: u8)
        ensures
            r == op_decode(*self, position as int, value),
    {
        match self {
            Operation::Reversebits => reverse_bits(value),
            Operation::Xor(n) => value ^ *n,
            Operation::Xorpos => value ^ ((position % 256) as u8),
            Operation::Add(n) => value.wrapping_sub(*n),
            Operation::Addpos => value.wrapping_sub((position % 256) as u8),
        }
    }
}


/// Decoding a byte at a position undoes encoding it there.
pub proof fn lemma_op_decode_encode(op: Operation, pos: int, v: u8)
    requires
        0 <= pos,
    ensures
        op_decode(op, pos, op_encode(op, pos, v)) == v,
{
    match op {
        Operation::Reversebits => {
            assert(reversed_bits(reversed_bits(v)) == v) by (bit_vector);
        },
        Operation::Xor(n) => {
            assert((v ^ n) ^ n == v) by (bit_vector);
        },
        Operation::Xorpos => {
            let k = (pos % 256) as u8;
            assert((v ^ k) ^ k == v) by (bit_vector);
        },
        Operation::Add(n) => {
            let e = ((v + n) % 256) as u8;
            assert(((e - n) % 256) as u8 == v);
        },
        Operation::Addpos => {
            let q = (v + pos) / 256;
            let e = ((v + pos) % 256) as u8;
            vstd::arithmetic::div_mod::lemma_fundamental_div_mod(v + pos, 256);
            assert(e - pos == v - 256 * q);
            assert((v - 256 * q) % 256 == v) by (nonlinear_arith)
                requires
                    0 <= v < 256,
            ;
        },
    }
}

/// What each operation does to a byte when encoding, and its undoing when
/// decoding: `Add(n)` adds `n` and `Addpos` adds the position, both modulo
/// 256, and decoding takes them away again; `Xor(n)` and `Xorpos` flip the
/// bits of `n` and of the position's low byte; `Reversebits` puts bit `i` in
/// place of bit `7 - i`.
pub proof fn lemma_op_meaning(pos: int, v: u8, n: u8, i: u8)
    requires
        0 <= pos,
        i < 8,
    ensures
        (op_encode(Operation::Add(n), pos, v) - v - n) % 256 == 0,
        (op_decode(Operation::Add(n), pos, v) - v + n) % 256 == 0,
        (op_encode(Operation::Addpos, pos, v) - v - pos) % 256 == 0,
        (op_decode(Operation::Addpos, pos, v) - v + pos) % 256 == 0,
        op_encode(Operation::Xor(n), pos, v) ^ v == n,
        op_decode(Operation::Xor(n), pos, v) ^ v == n,
        (op_encode(Operation::Xorpos, pos, v) ^ v) as int == pos % 256,
        (op_decode(Operation::Xorpos, pos, v) ^ v) as int == pos % 256,
        (op_encode(Operation::Reversebits, pos, v) >> i) & 1u8 == (v >> (7 - i) as u8) & 1u8,
        op_decode(Operation::Reversebits, pos, v) == op_encode(Operation::Reversebits, pos, v),
{
    let x = v ^ n;
    assert(x ^ v == n) by (bit_vector)
        requires
            x == v ^ n,
    ;
    let k = (pos % 256) as u8;
    let y = v ^ k;
    assert(y ^ v == k) by (bit_vector)
        requires
            y == v ^ k,
    ;
    let r = reversed_bits(v);
    assert((r >> i) & 1u8 == (v >> (7 - i) as u8) & 1u8) by (bit_vector)
        requires
            r == reversed_bits(v),
            i < 8,
    ;
    let a = (v + n) % 256;
    assert((a - v - n) % 256 == 0) by (nonlinear_arith)
        requires
            a == (v + n) % 256,
    ;
    let b = (v - n) % 256;
    assert((b - v + n) % 256 == 0) by (nonlinear_arith)
        requires
            b == (v - n) % 256,
    ;
    let c = (v + pos) % 256;
    assert((c - v - pos) % 256 == 0) by (nonlinear_arith)
        requires
            c == (v + pos) % 256,
    ;
    let d = (v - pos) % 256;
    assert((d - v + pos) % 256 == 0) by (nonlinear_arith)
        requires
            d == (v - pos) % 256,
    ;
}

/// A cipher: its operations, applied in order when encoding.
#[derive(Debug, PartialEq)]
pub struct Spec(pub Vec<Operation>);

/// Encoding `v` at `pos` with the operations `ops`, first to last.
pub open spec fn spec_encode(ops: Seq<Operation>, pos: int, v: u8) -> u8
    decreases ops.len(),
{
    if ops.len() == 0 {
        v
    } else {
        op_encode(ops.last(), pos, spec_encode(ops.drop_last(), pos, v))
    }
}

/// Decoding `v` at `pos` with the operations `ops`, last to first.
pub open spec fn spec_decode(ops: Seq<Operation>, pos: int, v: u8) -> u8
    decreases ops.len(),
{
    if ops.len() == 0 {
        v
    } else {
        spec_decode(ops.drop_last(), pos, op_decode(ops.last(), pos, v))
    }
}

/// Law: a cipher's decoding undoes its encoding, at every position.
pub proof fn lemma_decode_encode(ops: Seq<Operation>, pos: int, v: u8)
    requires
        0 <= pos,
    ensures
        spec_decode(ops, pos, spec_encode(ops, pos, v)) == v,
    decreases ops.len(),
{
    if ops.len() > 0 {
        lemma_op_decode_encode(ops.last(), pos, spec_encode(ops.drop_last(), pos, v));
        lemma_decode_encode(ops.drop_last(), pos, v);
    }
}

/// The bytes of "hello", which a usable cipher must change.
pub open spec fn check_phrase() -> Seq<u8> {
    seq![104u8, 101u8, 108u8, 108u8, 111u8]
}

/// A cipher is usable unless it leaves "hello" (at positions 0 to 4) unchanged.
pub open spec fn spec_is_valid(ops: Seq<Operation>) -> bool {
    exists|i: int| 0 <= i < 5 && #[trigger] spec_encode(ops, i, check_phrase()[i]) != check_phrase()[i]
}

impl Spec {
    pub fn encode(&self, position: usize, value: u8) -> (r: u8)
        ensures
            r == spec_encode(self.0@, position as int, value),
    {
        let mut v = value;
        let mut i: usize = 0;
        while i < self.0.len()
            invariant
                i <= self.0@.len(),
                v == spec_encode(self.0@.take(i as int), position as int, value),
            decreases self.0@.len() - i,
        {
            assert(self.0@.take(i + 1).drop_last() =~= self.0@.take(i as int));
            v = self.0[i].encode(position, v);
            i += 1;
        }
        assert(self.0@.take(i as int) =~= self.0@);
        v
    }

    pub fn decode(&self, position: usize, value: u8) -> (r: u8)
        ensures
            r == spec_decode(self.0@, position as int, value),
    {
        let mut v = value;
        let mut i: usize = self.0.len();
        assert(self.0@.take(i as int) =~= self.0@);
        while i > 0
            invariant
                i <= self.0@.len(),
                spec_decode(self.0@.take(i as int), position as int, v) == spec_decode(
                    self.0@,
                    position as int,
                    value,
                ),
            decreases i,
        {
            assert(self.0@.take(i as int).drop_last() =~= self.0@.take(i - 1));
            v = self.0[i - 1].decode(position, v);
            i -= 1;
        }
        v
    }

    pub fn is_valid(&self) -> (r: bool)
        ensures
            r == spec_is_valid(self.0@),
    {
        let phrase: [u8; 5] = [104, 101, 108, 108, 111];
        assert(phrase@ =~= check_phrase());
        let mut i: usize = 0;
        while i < 5
            invariant
                i <= 5,
                phrase@ == check_phrase(),
                forall|j: int| 0 <= j < i ==> spec_encode(self.0@, j, #[trigger] check_phrase()[j]) == check_phrase()[j],
            decreases 5 - i,
        {
            if self.encode(i, phrase[i]) != phrase[i] {
                return true;
            }
            i += 1;
        }
        assert forall|j: int| 0 <= j < 5 implies spec_encode(self.0@, j, #[trigger] check_phrase()[j]) == check_phrase()[j] by {}
        false
    }
}

/// Errors of the cipher codec.
#[derive(Debug, PartialEq)]
pub enum SpecError {
    EOS,
    InvalidOpcode(u8),
    Invalid(Vec<Operation>),
    Previous(String),
}

/// The text of an operation as `{:?}` shows it.
pub open spec fn op_text(op: Operation) -> Seq<char> {
    match op {
        Operation::Reversebits => "Reversebits"@,
        Operation::Xor(n) => "Xor("@ + ascii_chars(decimal(n as nat)) + ")"@,
        Operation::Xorpos => "Xorpos"@,
        Operation::Add(n) => "Add("@ + ascii_chars(decimal(n as nat)) + ")"@,
        Operation::Addpos => "Addpos"@,
    }
}

/// The operations separated by ", ".
pub open spec fn ops_text(ops: Seq<Operation>) -> Seq<char>
    decreases ops.len(),
{
    if ops.len() == 0 {
        Seq::empty()
    } else if ops.len() == 1 {
        op_text(ops[0])
    } else {
        ops_text(ops.drop_last()) + ", "@ + op_text(ops.last())
    }
}

/// The text of an error.
pub open spec fn error_text(e: SpecError) -> Seq<char> {
    match e {
        SpecError::EOS => "End of Stream"@,
        SpecError::InvalidOpcode(c) => "Invalid opcode "@ + ascii_chars(decimal(c as nat)),
        SpecError::Invalid(ops) => "Invalid spec ["@ + ops_text(ops@) + "]"@,
        SpecError::Previous(s) => "previous error: "@ + s@,
    }
}

fn number_text(n: u8) -> (r: String)
    ensures
        r@ == ascii_chars(decimal(n as nat)),
{
    proof {
        lemma_decimal_ascii(n as nat);
    }
    let d = decimal_bytes(n as u64);
    ascii_string(d.as_slice())
}

impl Operation {
    /// The operation's text, as `{:?}` shows it.
    pub fn text(&self) -> (r: String)
        ensures
            r@ == op_text(*self),
    {
        match self {
            Operation::Reversebits => String::from_str("Reversebits"),
            Operation::Xor(n) => {
                let mut s = String::from_str("Xor(");
                let d = number_text(*n);
                s.append(d.as_str());
                s.append(")");
                s
            },
            Operation::Xorpos => String::from_str("Xorpos"),
            Operation::Add(n) => {
                let mut s = String::from_str("Add(");
                let d = number_text(*n);
                s.append(d.as_str());
                s.append(")");
                s
            },
            Operation::Addpos => String::from_str("Addpos"),
        }
    }
}

impl SpecError {
    /// The error's message.
    pub fn message(&self) -> (r: String)
        ensures
            r@ == error_text(*self),
    {
        match self {
            SpecError::EOS => String::from_str("End of Stream"),
            SpecError::InvalidOpcode(c) => {
                let mut s = String::from_str("Invalid opcode ");
                let d = number_text(*c);
                s.append(d.as_str());
                s
            },
            SpecError::Invalid(ops) => {
                let mut s = String::from_str("Invalid spec [");
                let mut i: usize = 0;
                while i < ops.len()
                    invariant
                        i <= ops@.len(),
                        s@ == "Invalid spec ["@ + ops_text(ops@.take(i as int)),
                    decreases ops@.len() - i,
                {
                    let t = ops[i].text();
                    proof {
                        assert(ops@.take(i + 1).drop_last() =~= ops@.take(i as int));
                        assert(ops@.take(i + 1).last() == ops@[i as int]);
                    }
                    if i > 0 {
                        s.append(", ");
                    }
                    s.append(t.as_str());
                    proof {
                        if i == 0 {
                            assert(ops@.take(1) =~= seq![ops@[0]]);
                        }
                        assert(s@ =~= "Invalid spec ["@ + ops_text(ops@.take(i + 1)));
                    }
                    i += 1;
                }
                assert(ops@.take(i as int) =~= ops@);
                s.append("]");
                s
            },
            SpecError::Previous(m) => {
                let mut s = String::from_str("previous error: ");
                s.append(m.as_str());
                s
            },
        }
    }
}


/// How a scan of cipher-specification bytes stops.
#[derive(Debug, PartialEq, Eq, Clone, Copy, Structural)]
pub enum ScanEnd {
    /// The bytes ran out between operations.
    Exhausted,
    /// A 0x00 byte ended the specification.
    Terminator,
    /// The bytes ran out right after an opcode that takes an operand.
    Partial,
    /// An unknown opcode.
    BadOpcode(u8),
}

/// Scans specification bytes from the front: the operations read, how the
/// scan stopped, and how many bytes it consumed.
pub open spec fn scan_ops(b: Seq<u8>) -> (Seq<Operation>, ScanEnd, int)
    decreases b.len(),
{
    if b.len() == 0 {
        (Seq::empty(), ScanEnd::Exhausted, 0)
    } else if b[0] == 0 {
        (Seq::empty(), ScanEnd::Terminator, 1)
    } else if b[0] == 1 || b[0] == 3 || b[0] == 5 {
        let op = if b[0] == 1 {
            Operation::Reversebits
        } else if b[0] == 3 {
            Operation::Xorpos
        } else {
            Operation::Addpos
        };
        let r = scan_ops(b.drop_first());
        (seq![op] + r.0, r.1, r.2 + 1)
    } else if b[0] == 2 || b[0] == 4 {
        if b.len() == 1 {
            (Seq::empty(), ScanEnd::Partial, 1)
        } else {
            let op = if b[0] == 2 {
                Operation::Xor(b[1])
            } else {
                Operation::Add(b[1])
            };
            let r = scan_ops(b.skip(2));
            (seq![op] + r.0, r.1, r.2 + 2)
        }
    } else {
        (Seq::empty(), ScanEnd::BadOpcode(b[0]), 1)
    }
}

/// The state of a cipher session: reading the specification, applying it
/// (with the positions reached upstream and downstream), or failed.
#[derive(Debug, PartialEq)]
pub enum Codec {
    Incomplete(Vec<Operation>),
    Complete(Spec, usize, usize),
    SpecError(SpecError),
}

pub open spec fn is_incomplete_with(c: Codec, ops: Seq<Operation>) -> bool {
    c matches Codec::Incomplete(v) && v@ == ops
}

pub open spec fn is_complete_with(c: Codec, ops: Seq<Operation>, up: int, down: int) -> bool {
    c matches Codec::Complete(s, u, d) && s.0@ == ops && u == up && d == down
}

/// Decoding with an established cipher: the next byte, if there is one.
pub open spec fn complete_post(
    ops: Seq<Operation>,
    up: int,
    down: int,
    ob: Seq<u8>,
    c: Codec,
    b: Seq<u8>,
    r: Result<Option<u8>, SpecError>,
) -> bool {
    if ob.len() > 0 {
        &&& r == Ok::<Option<u8>, SpecError>(Some(spec_decode(ops, up, ob[0])))
        &&& b == ob.drop_first()
        &&& is_complete_with(c, ops, up + 1, down)
    } else {
        &&& r == Ok::<Option<u8>, SpecError>(None)
        &&& b == ob
        &&& is_complete_with(c, ops, up, down)
    }
}

/// What `Codec::decode` may assume: the specification bytes held end
/// somewhere, and the upstream position can still grow.
pub open spec fn decode_requires(c: Codec, b: Seq<u8>) -> bool {
    match c {
        Codec::Incomplete(_) => b.len() > 0 ==> scan_ops(b).1 != ScanEnd::Exhausted,
        Codec::Complete(_, up, _) => up < usize::MAX,
        Codec::SpecError(_) => true,
    }
}

/// One call of `Codec::decode`: state and buffer before (`oc`, `ob`) and
/// after (`c`, `b`), and the result.
pub open spec fn decode_post(
    oc: Codec,
    ob: Seq<u8>,
    c: Codec,
    b: Seq<u8>,
    r: Result<Option<u8>, SpecError>,
) -> bool {
    match oc {
        Codec::SpecError(e) => c == oc && b == ob && (r matches Err(SpecError::Previous(m)) && m@
            == error_text(e)),
        Codec::Complete(spec, up, down) => complete_post(spec.0@, up as int, down as int, ob, c, b, r),
        Codec::Incomplete(ops) => if ob.len() == 0 {
            &&& is_incomplete_with(c, ops@)
            &&& b == ob
            &&& r == Ok::<Option<u8>, SpecError>(None)
        } else {
            let sc = scan_ops(ob);
            let all = ops@ + sc.0;
            let rest = ob.skip(sc.2);
            match sc.1 {
                ScanEnd::Terminator => if spec_is_valid(all) {
                    complete_post(all, 0, 0, rest, c, b, r)
                } else {
                    &&& b == rest
                    &&& c matches Codec::SpecError(SpecError::Invalid(v)) && v@ == all
                    &&& r matches Err(SpecError::Invalid(v)) && v@ == all
                },
                ScanEnd::Partial => {
                    &&& b == rest
                    &&& is_incomplete_with(c, all)
                    &&& r == Ok::<Option<u8>, SpecError>(None)
                },
                ScanEnd::BadOpcode(x) => {
                    &&& b == rest
                    &&& c == Codec::SpecError(SpecError::InvalidOpcode(x))
                    &&& r == Err::<Option<u8>, SpecError>(SpecError::InvalidOpcode(x))
                },
                ScanEnd::Exhausted => false,
            }
        },
    }
}

/// One call of `Codec::encode`.
pub open spec fn encode_post(
    oc: Codec,
    ob: Seq<u8>,
    c: Codec,
    b: Seq<u8>,
    value: u8,
    r: Result<(), SpecError>,
) -> bool {
    match oc {
        Codec::SpecError(e) => c == oc && b == ob && (r matches Err(SpecError::Previous(m)) && m@
            == error_text(e)),
        Codec::Incomplete(_) => c == oc && b == ob && (r matches Err(SpecError::Previous(m)) && m@
            == "incomplete"@),
        Codec::Complete(spec, up, down) => {
            &&& is_complete_with(c, spec.0@, up as int, down + 1)
            &&& b == ob.push(spec_encode(spec.0@, down as int, value))
            &&& r is Ok
        },
    }
}

impl Default for Codec {
    /// A codec still reading the cipher specification, as `new` makes it.
    fn default() -> (r: Codec)
        ensures
            is_incomplete_with(r, Seq::empty()),
    {
        Codec::new()
    }
}

impl Codec {
    pub fn new() -> (r: Codec)
        ensures
            is_incomplete_with(r, Seq::empty()),
    {
        Codec::Incomplete(Vec::new())
    }

    /// Decodes the next byte with an established cipher.
    fn decode_complete(spec: Spec, up: usize, down: usize, src: &mut bytes::BytesMut) -> (res: (
        Codec,
        Result<Option<u8>, SpecError>,
    ))
        requires
            up < usize::MAX,
        ensures
            complete_post(
                spec.0@,
                up as int,
                down as int,
                bytes_mut_contents(*old(src)),
                res.0,
                bytes_mut_contents(*final(src)),
                res.1,
            ),
    {
        if buf_len(src) > 0 {
            let v = buf_get_u8(src);
            let d = spec.decode(up, v);
            (Codec::Complete(spec, up + 1, down), Ok(Some(d)))
        } else {
            (Codec::Complete(spec, up, down), Ok(None))
        }
    }

    /// Reads cipher-specification bytes into `ops`.
    fn decode_incomplete(ops_in: Vec<Operation>, src: &mut bytes::BytesMut) -> (res: (
        Codec,
        Result<Option<u8>, SpecError>,
    ))
        requires
            decode_requires(Codec::Incomplete(ops_in), bytes_mut_contents(*old(src))),
        ensures
            decode_post(
                Codec::Incomplete(ops_in),
                bytes_mut_contents(*old(src)),
                res.0,
                bytes_mut_contents(*final(src)),
                res.1,
            ),
    {
        let ghost b = bytes_mut_contents(*src);
        let ghost ops0 = ops_in@;
        let len = buf_len(src);
        if len == 0 {
            return (Codec::Incomplete(ops_in), Ok(None));
        }
        let mut ops = ops_in;
        let mut i: usize = 0;
        proof {
            assert(b.skip(0) =~= b);
        }
        while i < len
            invariant
                len == b.len(),
                b == bytes_mut_contents(*src),
                i <= len,
                ops0 + scan_ops(b).0 == ops@ + scan_ops(b.skip(i as int)).0,
                scan_ops(b).1 == scan_ops(b.skip(i as int)).1,
                scan_ops(b).2 == i + scan_ops(b.skip(i as int)).2,
                scan_ops(b).1 != ScanEnd::Exhausted,
                ops_in@ == ops0,
                b == bytes_mut_contents(*old(src)),
            decreases len - i,
        {
            let c = buf_byte(src, i);
            let ghost rest = b.skip(i as int);
            assert(rest[0] == c);
            if c == 0 {
                proof {
                    assert(scan_ops(rest).1 == ScanEnd::Terminator);
                    assert(scan_ops(rest).0 =~= Seq::<Operation>::empty());
                    assert(scan_ops(b).2 == i + 1);
                    assert(ops0 + scan_ops(b).0 =~= ops@);
                }
                buf_advance(src, i + 1);
                let spec = Spec(ops);
                assert(spec.0@ == ops0 + scan_ops(b).0);
                assert(b.skip(scan_ops(b).2) == bytes_mut_contents(*src));
                if spec.is_valid() {
                    return Self::decode_complete(spec, 0, 0, src);
                }
                let Spec(ops) = spec;
                let ops2 = ops.clone();
                assert(ops2@ == ops@);
                return (Codec::SpecError(SpecError::Invalid(ops)), Err(SpecError::Invalid(ops2)));
            } else if c == 1 || c == 3 || c == 5 {
                let op = if c == 1 {
                    Operation::Reversebits
                } else if c == 3 {
                    Operation::Xorpos
                } else {
                    Operation::Addpos
                };
                let ghost pre = ops@;
                ops.push(op);
                assert(rest.drop_first() =~= b.skip(i + 1));
                assert(ops@ =~= pre + seq![op]);
                i += 1;
            } else if c == 2 || c == 4 {
                if i + 1 == len {
                    proof {
                        assert(rest.len() == 1);
                        assert(scan_ops(rest).1 == ScanEnd::Partial);
                        assert(scan_ops(rest).0 =~= Seq::<Operation>::empty());
                        assert(scan_ops(b).2 == i + 1);
                        assert(ops0 + scan_ops(b).0 =~= ops@);
                    }
                    buf_advance(src, i + 1);
                    return (Codec::Incomplete(ops), Ok(None));
                }
                let n = buf_byte(src, i + 1);
                let op = if c == 2 {
                    Operation::Xor(n)
                } else {
                    Operation::Add(n)
                };
                let ghost pre = ops@;
                ops.push(op);
                assert(rest.skip(2) =~= b.skip(i + 2));
                assert(ops@ =~= pre + seq![op]);
                i += 2;
            } else {
                proof {
                    assert(scan_ops(rest).1 == ScanEnd::BadOpcode(c));
                    assert(scan_ops(b).2 == i + 1);
                }
                buf_advance(src, i + 1);
                return (Codec::SpecError(SpecError::InvalidOpcode(c)), Err(SpecError::InvalidOpcode(c)));
            }
        }
        proof {
            assert(b.skip(i as int).len() == 0);
        }
        (Codec::Incomplete(ops), Ok(None))
    }

    /// Decodes one byte of the stream, reading the cipher specification first.
    pub fn decode(&mut self, src: &mut bytes::BytesMut) -> (r: Result<Option<u8>, SpecError>)
        requires
            decode_requires(*old(self), bytes_mut_contents(*old(src))),
        ensures
            decode_post(
                *old(self),
                bytes_mut_contents(*old(src)),
                *final(self),
                bytes_mut_contents(*final(src)),
                r,
            ),
    {
        let mut state = Codec::Incomplete(Vec::new());
        std::mem::swap(&mut state, self);
        match state {
            Codec::SpecError(e) => {
                let m = e.message();
                *self = Codec::SpecError(e);
                Err(SpecError::Previous(m))
            },
            Codec::Incomplete(ops) => {
                let (c, r) = Self::decode_incomplete(ops, src);
                *self = c;
                r
            },
            Codec::Complete(spec, up, down) => {
                let (c, r) = Self::decode_complete(spec, up, down, src);
                *self = c;
                r
            },
        }
    }

    /// Encodes one byte of the stream onto `dst`.
    pub fn encode(&mut self, value: u8, dst: &mut bytes::BytesMut) -> (r: Result<(), SpecError>)
        requires
            *old(self) matches Codec::Complete(_, _, down) ==> down < usize::MAX,
            bytes_mut_contents(*old(dst)).len() < isize::MAX,
        ensures
            encode_post(
                *old(self),
                bytes_mut_contents(*old(dst)),
                *final(self),
                bytes_mut_contents(*final(dst)),
                value,
                r,
            ),
    {
        let mut state = Codec::Incomplete(Vec::new());
        std::mem::swap(&mut state, self);
        match state {
            Codec::SpecError(e) => {
                let m = e.message();
                *self = Codec::SpecError(e);
                Err(SpecError::Previous(m))
            },
            Codec::Incomplete(ops) => {
                *self = Codec::Incomplete(ops);
                Err(SpecError::Previous(String::from_str("incomplete")))
            },
            Codec::Complete(spec, up, down) => {
                let e = spec.encode(down, value);
                buf_put_u8(dst, e);
                *self = Codec::Complete(spec, up, down + 1);
                Ok(())
            },
        }
    }
}

} // verus!

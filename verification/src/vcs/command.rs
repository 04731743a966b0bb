//! The text commands of the store: `HELP`, `LIST dir`, `PUT file length`
//! and `GET file [revision]`, one per line, and the lines sent back.
use vstd::prelude::*;
use vstd::string::StringExecFns;
use vstd::utf8::encode_utf8;

use crate::text::{ascii_chars, ascii_string, chars_of, decimal, decimal_bytes, lemma_decimal_ascii, string_of};
use crate::vcs::path::{components, valid_path, Path, VcsError};
use crate::vcs::store::{
    entry_name, is_listing, missing_along, EntryView, List, ListEntry, NodeView, Vcs,
};

verus! {

/// `char::is_whitespace`: the characters with Unicode's White_Space property.
pub open spec fn is_whitespace(c: char) -> bool {
    let u = c as u32;
    (9 <= u <= 13) || u == 32 || u == 0x85 || u == 0xa0 || u == 0x1680 || (0x2000 <= u <= 0x200a)
        || u == 0x2028 || u == 0x2029 || u == 0x202f || u == 0x205f || u == 0x3000
}

fn is_whitespace_exec(c: char) -> (r: bool)
    ensures
        r == is_whitespace(c),
{
    let u = c as u32;
    (9 <= u && u <= 13) || u == 32 || u == 0x85 || u == 0xa0 || u == 0x1680 || (0x2000 <= u && u
        <= 0x200a) || u == 0x2028 || u == 0x2029 || u == 0x202f || u == 0x205f || u == 0x3000
}

/// The words of `cs` between white space; `cur` is the word read so far.
pub open spec fn words_from(cs: Seq<char>, cur: Seq<char>) -> Seq<Seq<char>>
    decreases cs.len(),
{
    let done = if cur.len() == 0 {
        Seq::<Seq<char>>::empty()
    } else {
        seq![cur]
    };
    if cs.len() == 0 {
        done
    } else if is_whitespace(cs[0]) {
        done + words_from(cs.drop_first(), Seq::empty())
    } else {
        words_from(cs.drop_first(), cur.push(cs[0]))
    }
}

/// The words of a line.
pub open spec fn words(line: Seq<char>) -> Seq<Seq<char>> {
    words_from(line, Seq::empty())
}

/// The words of a line.
fn split_words(line: &str) -> (r: Vec<Vec<char>>)
    ensures
        r.deep_view() == words(line@),
{
    let cs = chars_of(line);
    let ghost b = cs@;
    let mut r: Vec<Vec<char>> = Vec::new();
    let mut cur: Vec<char> = Vec::new();
    let mut i: usize = 0;
    assert(b.skip(0) =~= b);
    while i < cs.len()
        invariant
            b == cs@,
            b == line@,
            i <= b.len(),
            r.deep_view() + words_from(b.skip(i as int), cur@) == words(b),
        decreases b.len() - i,
    {
        let c = cs[i];
        assert(b.skip(i as int).drop_first() =~= b.skip(i + 1));
        assert(b.skip(i as int)[0] == c);
        if is_whitespace_exec(c) {
            if cur.len() > 0 {
                let ghost before = r.deep_view();
                let ghost piece = cur@;
                assert(cur.deep_view() =~= piece);
                r.push(cur);
                assert(r.deep_view() =~= before + seq![piece]);
                assert(before + seq![piece] + words_from(b.skip(i + 1), Seq::empty()) =~= before + (
                seq![piece] + words_from(b.skip(i + 1), Seq::empty())));
            } else {
                assert(Seq::<Seq<char>>::empty() + words_from(b.skip(i + 1), Seq::empty())
                    =~= words_from(b.skip(i + 1), Seq::empty()));
            }
            cur = Vec::new();
        } else {
            cur.push(c);
        }
        i += 1;
    }
    assert(b.skip(i as int) =~= Seq::<char>::empty());
    if cur.len() > 0 {
        let ghost before = r.deep_view();
        let ghost piece = cur@;
        assert(cur.deep_view() =~= piece);
        r.push(cur);
        assert(r.deep_view() =~= before + seq![piece]);
    } else {
        assert(r.deep_view() + Seq::<Seq<char>>::empty() =~= r.deep_view());
    }
    r
}

/// ASCII letters taken without case.
pub open spec fn fold_case(c: char) -> char {
    if 'A' <= c <= 'Z' {
        ((c as u32) + 32) as char
    } else {
        c
    }
}

/// `str::eq_ignore_ascii_case`.
pub open spec fn eq_ignore_case(a: Seq<char>, b: Seq<char>) -> bool {
    a.len() == b.len() && forall|i: int| 0 <= i < a.len() ==> fold_case(#[trigger] a[i]) == fold_case(
        b[i],
    )
}

fn eq_ignore_case_exec(a: &[char], b: &str) -> (r: bool)
    ensures
        r == eq_ignore_case(a@, b@),
{
    let bs = chars_of(b);
    if a.len() != bs.len() {
        return false;
    }
    let mut i: usize = 0;
    while i < a.len()
        invariant
            a@.len() == bs@.len(),
            bs@ == b@,
            i <= a@.len(),
            forall|j: int| 0 <= j < i ==> fold_case(#[trigger] a@[j]) == fold_case(bs@[j]),
        decreases a@.len() - i,
    {
        let x = a[i];
        let y = bs[i];
        let fx = if 'A' <= x && x <= 'Z' {
            ((x as u32) + 32) as u8 as char
        } else {
            x
        };
        let fy = if 'A' <= y && y <= 'Z' {
            ((y as u32) + 32) as u8 as char
        } else {
            y
        };
        assert(fx == fold_case(x));
        assert(fy == fold_case(y));
        if fx != fy {
            return false;
        }
        i += 1;
    }
    true
}

pub open spec fn is_digit_char(c: char) -> bool {
    '0' <= c <= '9'
}

/// The number that decimal digits stand for.
pub open spec fn digits_number(s: Seq<char>) -> nat
    decreases s.len(),
{
    if s.len() == 0 {
        0
    } else {
        digits_number(s.drop_last()) * 10 + ((s.last() as u32) - 48) as nat
    }
}

pub open spec fn all_digit_chars(s: Seq<char>) -> bool {
    forall|i: int| 0 <= i < s.len() ==> is_digit_char(#[trigger] s[i])
}

/// `str::parse::<usize>`: an optional '+', then at least one digit, for a
/// number that fits.
pub open spec fn parse_usize(s: Seq<char>) -> Option<usize> {
    let ds = if s.len() > 0 && s[0] == '+' {
        s.drop_first()
    } else {
        s
    };
    if ds.len() > 0 && all_digit_chars(ds) && digits_number(ds) <= usize::MAX {
        Some(digits_number(ds) as usize)
    } else {
        None
    }
}

proof fn lemma_digits_number_grows(s: Seq<char>, i: int)
    requires
        0 <= i <= s.len(),
        forall|j: int| 0 <= j < s.len() ==> is_digit_char(#[trigger] s[j]),
    ensures
        digits_number(s.take(i)) <= digits_number(s),
    decreases s.len() - i,
{
    if i < s.len() {
        lemma_digits_number_grows(s, i + 1);
        assert(s.take(i + 1).drop_last() =~= s.take(i));
        assert(is_digit_char(s[i]));
    } else {
        assert(s.take(i) =~= s);
    }
}

fn parse_usize_exec(s: &[char]) -> (r: Option<usize>)
    ensures
        r == parse_usize(s@),
{
    let start: usize = if s.len() > 0 && s[0] == '+' {
        1
    } else {
        0
    };
    let ghost ds = s@.skip(start as int);
    assert(ds =~= (if s@.len() > 0 && s@[0] == '+' {
        s@.drop_first()
    } else {
        s@
    }));
    if s.len() == start {
        return None;
    }
    let mut acc: usize = 0;
    let mut i: usize = start;
    assert(ds.take(0) =~= Seq::<char>::empty());
    while i < s.len()
        invariant
            start <= i <= s@.len(),
            ds == s@.skip(start as int),
            ds == (if s@.len() > 0 && s@[0] == '+' {
                s@.drop_first()
            } else {
                s@
            }),
            acc == digits_number(ds.take(i - start)),
            forall|j: int| 0 <= j < i - start ==> is_digit_char(#[trigger] ds[j]),
        decreases s@.len() - i,
    {
        let c = s[i];
        assert(ds[i - start] == c);
        if !('0' <= c && c <= '9') {
            assert(!is_digit_char(ds[i - start]));
            assert(0 <= i - start < ds.len());
            assert(!all_digit_chars(ds));
            return None;
        }
        assert(ds.take(i + 1 - start).drop_last() =~= ds.take(i - start));
        assert(ds.take(i + 1 - start).last() == c);
        let d = (c as u32 - 48) as u128;
        let next: u128 = (acc as u128) * 10 + d;
        if next > usize::MAX as u128 {
            proof {
                assert(digits_number(ds.take(i + 1 - start)) == next);
                assert forall|j: int| 0 <= j < i + 1 - start implies is_digit_char(
                    #[trigger] ds.take(i + 1 - start)[j],
                ) by {}
                if all_digit_chars(ds) {
                    lemma_digits_number_grows(ds, i + 1 - start);
                }
            }
            return None;
        }
        acc = next as usize;
        i += 1;
    }
    assert(ds.take(i - start) =~= ds);
    Some(acc)
}

/// A command, as the session handles it.
pub enum Command {
    /// Answer with this line.
    Reply(String),
    /// List a directory.
    List { dir: String },
    /// Store the next `size` bytes as the file's new contents.
    Put { path: String, size: usize },
    /// Send a release of a file: the one numbered `revision` counting from
    /// zero, or the last one.
    Get { path: String, revision: Option<usize> },
}

pub ghost enum CommandView {
    Reply(Seq<char>),
    List(Seq<char>),
    Put(Seq<char>, usize),
    Get(Seq<char>, Option<usize>),
}

impl View for Command {
    type V = CommandView;

    open spec fn view(&self) -> CommandView {
        match self {
            Command::Reply(s) => CommandView::Reply(s@),
            Command::List { dir } => CommandView::List(dir@),
            Command::Put { path, size } => CommandView::Put(path@, *size),
            Command::Get { path, revision } => CommandView::Get(path@, *revision),
        }
    }
}

/// What a revision word such as `r3` asks for: release 2, counting from zero.
pub open spec fn revision_spec(w: Seq<char>) -> Option<usize> {
    if w.len() > 0 && w[0] == 'r' {
        match parse_usize(w.drop_first()) {
            Some(v) => if v > 0 {
                Some((v - 1) as usize)
            } else {
                None
            },
            None => None,
        }
    } else {
        None
    }
}

/// The command that a line asks for; none for a line without words.
pub open spec fn command_of(line: Seq<char>) -> Option<CommandView> {
    let ws = words(line);
    if ws.len() == 0 {
        None
    } else {
        let c = ws[0];
        let args = ws.drop_first();
        Some(
            if eq_ignore_case(c, "HELP"@) {
                CommandView::Reply("OK usage: HELP|GET|PUT|LIST"@)
            } else if eq_ignore_case(c, "LIST"@) {
                if args.len() == 1 {
                    CommandView::List(args[0])
                } else {
                    CommandView::Reply("ERR usage: LIST dir"@)
                }
            } else if eq_ignore_case(c, "PUT"@) {
                if args.len() == 2 {
                    match parse_usize(args[1]) {
                        Some(n) => CommandView::Put(args[0], n),
                        None => CommandView::Reply("ERR invalid size"@),
                    }
                } else if args.len() == 1 && valid_path(encode_utf8(args[0])) {
                    CommandView::Reply("ERR usage: PUT file length newline data"@)
                } else if args.len() == 1 {
                    CommandView::Reply("ERR illegal file name"@)
                } else {
                    CommandView::Reply("ERR usage: PUT file length newline data"@)
                }
            } else if eq_ignore_case(c, "GET"@) {
                if args.len() == 2 {
                    match revision_spec(args[1]) {
                        Some(r) => CommandView::Get(args[0], Some(r)),
                        None => CommandView::Reply("ERR invalid revision spec"@),
                    }
                } else if args.len() == 1 {
                    CommandView::Get(args[0], None)
                } else {
                    CommandView::Reply("ERR usage: GET file [revision]"@)
                }
            } else {
                CommandView::Reply("ERR illegal method: "@ + c)
            },
        )
    }
}

/// `GET file rN`, with N a decimal number from 1 up, asks for the file's
/// release N - 1, counting from zero: the revision asked for is carried
/// into the command, never dropped.
pub proof fn lemma_get_revision(line: Seq<char>, g: Seq<char>, p: Seq<char>, d: Seq<char>)
    requires
        words(line) == seq![g, p, seq!['r'] + d],
        eq_ignore_case(g, "GET"@),
        d.len() > 0,
        all_digit_chars(d),
        1 <= digits_number(d) <= usize::MAX,
    ensures
        command_of(line) == Some(CommandView::Get(p, Some((digits_number(d) - 1) as usize))),
{
    reveal_strlit("GET");
    reveal_strlit("PUT");
    reveal_strlit("HELP");
    reveal_strlit("LIST");
    assert(fold_case(g[0]) == fold_case('G'));
    assert(!eq_ignore_case(g, "HELP"@));
    assert(!eq_ignore_case(g, "LIST"@));
    assert(fold_case(g[0]) != fold_case("PUT"@[0]));
    assert(!eq_ignore_case(g, "PUT"@));
    let ws = words(line);
    let args = ws.drop_first();
    assert(args =~= seq![p, seq!['r'] + d]);
    let w = seq!['r'] + d;
    assert(w.drop_first() =~= d);
    assert(is_digit_char(d[0]));
    assert(revision_spec(w) == Some((digits_number(d) - 1) as usize));
}

/// `GET file` asks for the file's last release, and `PUT file N`, with N a
/// decimal number, for storing the next N bytes as the file's contents.
pub proof fn lemma_get_last_and_put(line: Seq<char>, c: Seq<char>, p: Seq<char>, d: Seq<char>)
    ensures
        words(line) == seq![c, p] && eq_ignore_case(c, "GET"@) ==> command_of(line) == Some(
            CommandView::Get(p, None),
        ),
        words(line) == seq![c, p, d] && eq_ignore_case(c, "PUT"@) && d.len() > 0 && all_digit_chars(d)
            && digits_number(d) <= usize::MAX ==> command_of(line) == Some(
            CommandView::Put(p, digits_number(d) as usize),
        ),
{
    reveal_strlit("GET");
    reveal_strlit("PUT");
    reveal_strlit("HELP");
    reveal_strlit("LIST");
    if c.len() == 3 {
        assert(fold_case(c[0]) == fold_case(c[0]));
        if eq_ignore_case(c, "GET"@) {
            assert(fold_case(c[0]) == fold_case('G'));
            assert(!eq_ignore_case(c, "HELP"@));
            assert(!eq_ignore_case(c, "LIST"@));
            assert(fold_case(c[0]) != fold_case("PUT"@[0]));
            assert(!eq_ignore_case(c, "PUT"@));
        }
        if eq_ignore_case(c, "PUT"@) {
            assert(fold_case(c[0]) == fold_case('P'));
            assert(!eq_ignore_case(c, "HELP"@));
            assert(!eq_ignore_case(c, "LIST"@));
        }
    }
    if words(line) == seq![c, p] {
        assert(words(line).drop_first() =~= seq![p]);
    }
    if words(line) == seq![c, p, d] && d.len() > 0 && all_digit_chars(d) {
        assert(words(line).drop_first() =~= seq![p, d]);
        assert(is_digit_char(d[0]));
    }
}

fn reply(text: &str) -> (r: Command)
    ensures
        r@ == CommandView::Reply(text@),
{
    Command::Reply(text.to_owned())
}

/// Reads the command of a line.
pub fn parse_command(line: &str) -> (r: Option<Command>)
    ensures
        match command_of(line@) {
            None => r is None,
            Some(c) => r matches Some(rc) && rc@ == c,
        },
{
    let ws = split_words(line);
    if ws.len() == 0 {
        return None;
    }
    let ghost wv = ws.deep_view();
    let n = ws.len();
    assert(wv[0] == ws[0]@);
    let c = ws[0].as_slice();
    proof {
        if n > 1 {
            assert(wv.drop_first()[0] == ws[1]@);
        }
        if n > 2 {
            assert(wv.drop_first()[1] == ws[2]@);
        }
    }
    let cmd = if eq_ignore_case_exec(c, "HELP") {
        reply("OK usage: HELP|GET|PUT|LIST")
    } else if eq_ignore_case_exec(c, "LIST") {
        if n == 2 {
            Command::List { dir: string_of(ws[1].as_slice()) }
        } else {
            reply("ERR usage: LIST dir")
        }
    } else if eq_ignore_case_exec(c, "PUT") {
        if n == 3 {
            match parse_usize_exec(ws[2].as_slice()) {
                Some(size) => Command::Put { path: string_of(ws[1].as_slice()), size },
                None => reply("ERR invalid size"),
            }
        } else if n == 2 {
            let path = string_of(ws[1].as_slice());
            if Path::new(path.as_str().as_bytes()).is_ok() {
                reply("ERR usage: PUT file length newline data")
            } else {
                reply("ERR illegal file name")
            }
        } else {
            reply("ERR usage: PUT file length newline data")
        }
    } else if eq_ignore_case_exec(c, "GET") {
        if n == 3 {
            let w = ws[2].as_slice();
            let rev = if w.len() > 0 && w[0] == 'r' {
                let rest = vstd::slice::slice_subrange(w, 1, w.len());
                assert(rest@ =~= w@.drop_first());
                match parse_usize_exec(rest) {
                    Some(v) => if v > 0 {
                        Some(v - 1)
                    } else {
                        None
                    },
                    None => None,
                }
            } else {
                None
            };
            match rev {
                Some(r) => Command::Get { path: string_of(ws[1].as_slice()), revision: Some(r) },
                None => reply("ERR invalid revision spec"),
            }
        } else if n == 2 {
            Command::Get { path: string_of(ws[1].as_slice()), revision: None }
        } else {
            reply("ERR usage: GET file [revision]")
        }
    } else {
        let mut text = "ERR illegal method: ".to_owned();
        let word = string_of(c);
        text.append(word.as_str());
        Command::Reply(text)
    };
    Some(cmd)
}

/// The decimal text of `n`.
pub fn number_text(n: usize) -> (r: String)
    ensures
        r@ == ascii_chars(decimal(n as nat)),
{
    let digits = decimal_bytes(n as u64);
    proof {
        lemma_decimal_ascii(n as nat);
    }
    ascii_string(digits.as_slice())
}

/// `OK n`: the answer that announces `n` entries or bytes.
pub fn count_line(n: usize) -> (r: String)
    ensures
        r@ == "OK "@ + ascii_chars(decimal(n as nat)),
{
    let mut line = "OK ".to_owned();
    let digits = number_text(n);
    line.append(digits.as_str());
    line
}

/// How an entry shows in a listing: `name/ DIR` or `name rN`.
pub open spec fn entry_line(e: EntryView) -> Seq<char> {
    match e {
        EntryView::Dir(name, _) => name + "/ DIR"@,
        EntryView::File(name, n) => name + " r"@ + ascii_chars(decimal(n as nat)),
    }
}

/// The answer to `LIST dir`: the count, then one line per entry in order of
/// their names; `ERR no such file` for an invalid or missing directory.
pub fn list_reply(vcs: &Vcs, dir: &str) -> (r: Vec<String>)
    requires
        vcs.wf(),
    ensures
        !valid_path(encode_utf8(dir@)) || missing_along(vcs@, components(encode_utf8(dir@))) ==> (
        r@.len() == 1 && r@[0]@ == "ERR no such file"@),
        valid_path(encode_utf8(dir@)) && !missing_along(vcs@, components(encode_utf8(dir@)))
            ==> exists|es: Seq<EntryView>|
            {
                &&& is_listing(vcs@, components(encode_utf8(dir@)), es)
                &&& r@.len() == es.len() + 1
                &&& r@[0]@ == "OK "@ + ascii_chars(decimal(es.len()))
                &&& forall|i: int| 0 <= i < es.len() ==> (#[trigger] r@[i + 1])@ == entry_line(es[i])
            },
{
    let mut lines: Vec<String> = Vec::new();
    match vcs.list(dir) {
        Err(_) => {
            lines.push("ERR no such file".to_owned());
            lines
        },
        Ok(list) => {
            let ghost es = list.remaining();
            let mut list = list;
            let total = list.len();
            lines.push(count_line(total));
            let mut k: usize = 0;
            while !list.is_empty() && k < total
                invariant
                    total == es.len(),
                    k <= es.len(),
                    list.size() == total,
                    list.remaining() == es.skip(k as int),
                    lines@.len() == k + 1,
                    lines@[0]@ == "OK "@ + ascii_chars(decimal(es.len())),
                    forall|i: int| 0 <= i < k ==> (#[trigger] lines@[i + 1])@ == entry_line(es[i]),
                decreases es.len() - k,
            {
                assert(list.remaining().len() > 0);
                let next = list.next();
                match next {
                    Some(ListEntry::Dir(name, count)) => {
                        let mut line = name;
                        line.append("/ DIR");
                        lines.push(line);
                    },
                    Some(ListEntry::File(name, count)) => {
                        let mut line = name;
                        line.append(" r");
                        let digits = number_text(count);
                        line.append(digits.as_str());
                        lines.push(line);
                    },
                    None => {},
                }
                assert(es.skip(k as int).drop_first() =~= es.skip(k + 1));
                k += 1;
            }
            assert(k == es.len());
            lines
        },
    }
}

/// The answer to a commit: `OK rN` with the release's number counted from
/// one, or `ERR invalid file`.
pub fn put_reply(result: Result<usize, VcsError>) -> (r: String)
    requires
        result matches Ok(n) ==> n < usize::MAX,
    ensures
        match result {
            Ok(n) => r@ == "OK r"@ + ascii_chars(decimal(n as nat + 1)),
            Err(_) => r@ == "ERR invalid file"@,
        },
{
    match result {
        Ok(n) => {
            let mut line = "OK r".to_owned();
            let digits = number_text(n + 1);
            line.append(digits.as_str());
            line
        },
        Err(_) => "ERR invalid file".to_owned(),
    }
}

} // verus!

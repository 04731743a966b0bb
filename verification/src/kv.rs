//! A key-value store reached by datagrams: `key=value` inserts, a bare
//! `key` retrieves. The key `version` is fixed and names the server.
use vstd::prelude::*;
use vstd::utf8::encode_utf8;
use crate::text::{bytes_equal, string_bytes};

verus! {

/// `=`, which separates a key from its value.
pub const EQUALS: u8 = 61;

/// The key `version`.
pub open spec fn version_key() -> Seq<u8> {
    encode_utf8("version"@)
}

/// What the store answers for `version`.
pub open spec fn version_value() -> Seq<u8> {
    encode_utf8("unusual-database-program 1.0.0"@)
}

fn version_key_bytes() -> (r: Vec<u8>)
    ensures
        r@ == version_key(),
{
    string_bytes(&String::from_str("version"))
}

fn version_value_bytes() -> (r: Vec<u8>)
    ensures
        r@ == version_value(),
{
    string_bytes(&String::from_str("unusual-database-program 1.0.0"))
}

/// A request, as the datagram says it.
#[derive(Debug, PartialEq, Eq, Clone)]
pub enum Request {
    /// Store `value` under `key`.
    Insert(Vec<u8>, Vec<u8>),
    /// Answer with what is stored under the key.
    Retrieve(Vec<u8>),
}

pub ghost enum RequestView {
    Insert(Seq<u8>, Seq<u8>),
    Retrieve(Seq<u8>),
}

impl View for Request {
    type V = RequestView;

    open spec fn view(&self) -> RequestView {
        match self {
            Request::Insert(k, v) => RequestView::Insert(k@, v@),
            Request::Retrieve(k) => RequestView::Retrieve(k@),
        }
    }
}

/// The first `=` of `p` stands at `i`.
pub open spec fn first_equals_at(p: Seq<u8>, i: int) -> bool {
    &&& 0 <= i < p.len()
    &&& p[i] == EQUALS
    &&& forall|j: int| 0 <= j < i ==> p[j] != EQUALS
}

/// A datagram with an `=` inserts: the key is what precedes the first `=`,
/// the value all that follows it. Any other retrieves the whole datagram.
pub open spec fn request_of(p: Seq<u8>) -> RequestView {
    if exists|i: int| first_equals_at(p, i) {
        let i = choose|i: int| first_equals_at(p, i);
        RequestView::Insert(p.take(i), p.skip(i + 1))
    } else {
        RequestView::Retrieve(p)
    }
}

/// Splits a datagram into its request.
pub fn parse_request(p: &[u8]) -> (r: Request)
    ensures
        r@ == request_of(p@),
{
    let mut i: usize = 0;
    while i < p.len()
        invariant
            i <= p@.len(),
            forall|j: int| 0 <= j < i ==> p@[j] != EQUALS,
        decreases p@.len() - i,
    {
        if p[i] == EQUALS {
            assert(first_equals_at(p@, i as int));
            proof {
                let c = choose|c: int| first_equals_at(p@, c);
                if c < i {
                    assert(p@[c] != EQUALS);
                } else if c > i {
                    assert(p@[i as int] != EQUALS);
                }
            }
            let key = vstd::slice::slice_subrange(p, 0, i);
            let value = vstd::slice::slice_subrange(p, i + 1, p.len());
            let key = vstd::slice::slice_to_vec(key);
            let value = vstd::slice::slice_to_vec(value);
            assert(key@ =~= p@.take(i as int));
            assert(value@ =~= p@.skip(i + 1));
            return Request::Insert(key, value);
        }
        i += 1;
    }
    Request::Retrieve(vstd::slice::slice_to_vec(p))
}

/// The store.
pub struct Database {
    entries: Vec<(Vec<u8>, Vec<u8>)>,
}

pub open spec fn keys_distinct(es: Seq<(Seq<u8>, Seq<u8>)>) -> bool {
    forall|i: int, j: int| 0 <= i < j < es.len() ==> #[trigger] es[i].0 != #[trigger] es[j].0
}

/// The value stored under `k` in `es`, if any.
pub open spec fn lookup(es: Seq<(Seq<u8>, Seq<u8>)>, k: Seq<u8>) -> Option<Seq<u8>> {
    if exists|i: int| 0 <= i < es.len() && #[trigger] es[i].0 == k {
        Some(es[choose|i: int| 0 <= i < es.len() && #[trigger] es[i].0 == k].1)
    } else {
        None
    }
}

proof fn lemma_lookup_at(es: Seq<(Seq<u8>, Seq<u8>)>, i: int)
    requires
        keys_distinct(es),
        0 <= i < es.len(),
    ensures
        lookup(es, es[i].0) == Some(es[i].1),
{
    let k = es[i].0;
    let c = choose|c: int| 0 <= c < es.len() && #[trigger] es[c].0 == k;
    if c < i {
        assert(es[c].0 != es[i].0);
    } else if i < c {
        assert(es[i].0 != es[c].0);
    }
}

impl Database {
    spec fn entries_view(&self) -> Seq<(Seq<u8>, Seq<u8>)> {
        self.entries@.map_values(|e: (Vec<u8>, Vec<u8>)| (e.0@, e.1@))
    }

    /// The store is well formed: no key is stored twice, and nothing is
    /// stored under `version`.
    pub closed spec fn wf(&self) -> bool {
        &&& keys_distinct(self.entries_view())
        &&& lookup(self.entries_view(), version_key()) is None
    }

    /// What is stored under `k`, the key `version` aside.
    pub closed spec fn stored(&self, k: Seq<u8>) -> Option<Seq<u8>> {
        lookup(self.entries_view(), k)
    }

    /// What a retrieve of `k` answers: the server's name for `version`,
    /// else what is stored, if anything.
    pub open spec fn answer(&self, k: Seq<u8>) -> Option<Seq<u8>> {
        if k == version_key() {
            Some(version_value())
        } else {
            self.stored(k)
        }
    }

    /// An empty store.
    pub fn new() -> (r: Database)
        ensures
            r.wf(),
            forall|k: Seq<u8>| r.stored(k) is None,
    {
        let r = Database { entries: Vec::new() };
        assert(r.entries_view().len() == 0);
        r
    }

    /// Where `key` is stored, if anywhere.
    fn find(&self, key: &[u8]) -> (r: Option<usize>)
        requires
            self.wf(),
        ensures
            match r {
                Some(i) => i < self.entries_view().len() && self.entries_view()[i as int].0 == key@,
                None => lookup(self.entries_view(), key@) is None,
            },
    {
        let ghost es = self.entries_view();
        let mut i: usize = 0;
        while i < self.entries.len()
            invariant
                es == self.entries_view(),
                es.len() == self.entries@.len(),
                i <= es.len(),
                forall|j: int| 0 <= j < i ==> #[trigger] es[j].0 != key@,
            decreases es.len() - i,
        {
            assert(es[i as int] == (self.entries@[i as int].0@, self.entries@[i as int].1@));
            if bytes_equal(self.entries[i].0.as_slice(), key) {
                return Some(i);
            }
            i += 1;
        }
        None
    }

    /// Stores `value` under `key`, replacing what was there; an insert for
    /// `version` is ignored.
    pub fn insert(&mut self, key: Vec<u8>, value: Vec<u8>)
        requires
            old(self).wf(),
        ensures
            final(self).wf(),
            key@ == version_key() ==> forall|k: Seq<u8>| #[trigger] final(self).stored(k) == old(self).stored(k),
            key@ != version_key() ==> final(self).stored(key@) == Some(value@),
            forall|k: Seq<u8>| k != key@ ==> #[trigger] final(self).stored(k) == old(self).stored(k),
    {
        let vk = version_key_bytes();
        if bytes_equal(key.as_slice(), vk.as_slice()) {
            return;
        }
        let ghost es = self.entries_view();
        let ghost kv = key@;
        let ghost vv = value@;
        let ghost mut at: int = 0;
        match self.find(key.as_slice()) {
            Some(i) => {
                self.entries.set(i, (key, value));
                assert(self.entries_view() =~= es.update(i as int, (kv, vv)));
                proof {
                    at = i as int;
                }
            },
            None => {
                self.entries.push((key, value));
                assert(self.entries_view() =~= es.push((kv, vv)));
                proof {
                    at = es.len() as int;
                }
            },
        }
        let ghost ns = self.entries_view();
        assert(keys_distinct(ns)) by {
            assert forall|a: int, b: int| 0 <= a < b < ns.len() implies #[trigger] ns[a].0 != #[trigger] ns[b].0 by {
                if ns.len() == es.len() {
                    if a != b && ns[a].0 == kv {
                        assert(es[a].0 == kv || es[b].0 == kv);
                    }
                } else {
                    if b == es.len() {
                        assert(es[a].0 != kv);
                    }
                }
            }
        }
        proof {
            assert forall|k: Seq<u8>| k != kv implies #[trigger] lookup(ns, k) == lookup(es, k) by {
                if exists|i: int| 0 <= i < es.len() && #[trigger] es[i].0 == k {
                    let i = choose|i: int| 0 <= i < es.len() && #[trigger] es[i].0 == k;
                    lemma_lookup_at(es, i);
                    assert(ns[i] == es[i]);
                    lemma_lookup_at(ns, i);
                } else {
                    if exists|i: int| 0 <= i < ns.len() && #[trigger] ns[i].0 == k {
                        let i = choose|i: int| 0 <= i < ns.len() && #[trigger] ns[i].0 == k;
                        if i < es.len() {
                            assert(es[i].0 == k);
                        }
                    }
                }
            }
            assert(ns[at] == (kv, vv));
            lemma_lookup_at(ns, at);
            assert(lookup(ns, version_key()) == lookup(es, version_key()));
        }
    }

    /// What a retrieve of `key` answers: the server's name for `version`,
    /// else what is stored, if anything.
    pub fn get(&self, key: &[u8]) -> (r: Option<Vec<u8>>)
        requires
            self.wf(),
        ensures
            match r {
                Some(v) => self.answer(key@) == Some(v@),
                None => self.answer(key@) is None,
            },
    {
        let vk = version_key_bytes();
        if bytes_equal(key, vk.as_slice()) {
            return Some(version_value_bytes());
        }
        match self.find(key) {
            Some(i) => {
                proof {
                    lemma_lookup_at(self.entries_view(), i as int);
                }
                Some(self.entries[i].1.clone())
            },
            None => None,
        }
    }
}

/// The store `new` is `old` after an insert of `value` under `key`: the
/// value replaces what was there, nothing else changes, and an insert for
/// `version` changes nothing.
pub open spec fn inserted(old: &Database, new: &Database, key: Seq<u8>, value: Seq<u8>) -> bool {
    &&& key == version_key() ==> forall|k: Seq<u8>| #[trigger] new.stored(k) == old.stored(k)
    &&& key != version_key() ==> new.stored(key) == Some(value)
    &&& forall|k: Seq<u8>| k != key ==> #[trigger] new.stored(k) == old.stored(k)
}

/// `key`, `=`, and `value`.
pub open spec fn pair(key: Seq<u8>, value: Seq<u8>) -> Seq<u8> {
    key + seq![EQUALS] + value
}

fn join_pair(key: &[u8], value: &[u8]) -> (r: Vec<u8>)
    ensures
        r@ == pair(key@, value@),
{
    let mut r = vstd::slice::slice_to_vec(key);
    r.push(EQUALS);
    let mut i: usize = 0;
    while i < value.len()
        invariant
            i <= value@.len(),
            r@ == key@ + seq![EQUALS] + value@.take(i as int),
        decreases value@.len() - i,
    {
        r.push(value[i]);
        assert(value@.take(i + 1) =~= value@.take(i as int).push(value@[i as int]));
        i += 1;
    }
    assert(value@.take(value@.len() as int) =~= value@);
    r
}

impl Database {
    /// Handles one datagram. An insert updates the store and is not
    /// answered; a retrieve is answered with `key=value`, or not at all
    /// when nothing is stored under the key.
    pub fn respond(&mut self, p: &[u8]) -> (r: Option<Vec<u8>>)
        requires
            old(self).wf(),
        ensures
            final(self).wf(),
            match request_of(p@) {
                RequestView::Insert(k, v) => inserted(old(self), final(self), k, v) && r is None,
                RequestView::Retrieve(k) => *final(self) == *old(self) && match old(self).answer(k) {
                    Some(v) => r is Some && r->0@ == pair(k, v),
                    None => r is None,
                },
            },
    {
        match parse_request(p) {
            Request::Insert(k, v) => {
                self.insert(k, v);
                None
            },
            Request::Retrieve(k) => match self.get(k.as_slice()) {
                Some(v) => Some(join_pair(k.as_slice(), v.as_slice())),
                None => None,
            },
        }
    }

    /// Handles one datagram as `respond` does, but answers a retrieve with
    /// the value alone.
    pub fn respond_value(&mut self, p: &[u8]) -> (r: Option<Vec<u8>>)
        requires
            old(self).wf(),
        ensures
            final(self).wf(),
            match request_of(p@) {
                RequestView::Insert(k, v) => inserted(old(self), final(self), k, v) && r is None,
                RequestView::Retrieve(k) => *final(self) == *old(self) && match old(self).answer(k) {
                    Some(v) => r is Some && r->0@ == v,
                    None => r is None,
                },
            },
    {
        match parse_request(p) {
            Request::Insert(k, v) => {
                self.insert(k, v);
                None
            },
            Request::Retrieve(k) => self.get(k.as_slice()),
        }
    }
}

/// What a retrieve answers after an insert: the value just stored, for any
/// key but `version`, whose answer never changes.
pub proof fn lemma_insert_then_answer(old: &Database, new: &Database, key: Seq<u8>, value: Seq<u8>)
    requires
        inserted(old, new, key, value),
    ensures
        key != version_key() ==> new.answer(key) == Some(value),
        new.answer(version_key()) == Some(version_value()),
        forall|k: Seq<u8>| k != key ==> #[trigger] new.answer(k) == old.answer(k),
{
}

} // verus!

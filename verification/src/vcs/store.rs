//! The store itself. Every directory and file is a node named by the list of
//! names along its path; a file is a node with at least one release, a
//! directory one without.
use vstd::prelude::*;

use vstd::utf8::encode_utf8;

use crate::text::{ascii_string, bytes_equal, is_ascii_bytes};
use crate::vcs::path::{components, is_path_byte, names_dir, split_from, valid_path, Path, VcsError};

verus! {

pub ghost struct NodeView {
    pub path: Seq<Seq<u8>>,
    pub releases: Seq<Seq<u8>>,
}

struct Node {
    path: Vec<Vec<u8>>,
    releases: Vec<Vec<u8>>,
}

impl Node {
    spec fn view(&self) -> NodeView {
        NodeView { path: self.path.deep_view(), releases: self.releases.deep_view() }
    }
}

/// The node named `p`, if there is one.
pub open spec fn has_node(ns: Seq<NodeView>, p: Seq<Seq<u8>>) -> bool {
    exists|i: int| 0 <= i < ns.len() && ns[i].path == p
}

/// Where the node named `p` stands.
pub open spec fn node_at(ns: Seq<NodeView>, p: Seq<Seq<u8>>) -> int {
    choose|i: int| 0 <= i < ns.len() && ns[i].path == p
}

/// The releases of the node named `p`.
pub open spec fn releases_of(ns: Seq<NodeView>, p: Seq<Seq<u8>>) -> Seq<Seq<u8>> {
    ns[node_at(ns, p)].releases
}

/// No two nodes share a path.
pub open spec fn unique_paths(ns: Seq<NodeView>) -> bool {
    forall|i: int, j: int|
        0 <= i < ns.len() && 0 <= j < ns.len() && i != j ==> #[trigger] ns[i].path != #[trigger] ns[j].path
}

/// Every name along every node's path is ASCII.
pub open spec fn ascii_names(ns: Seq<NodeView>) -> bool {
    forall|i: int, j: int|
        0 <= i < ns.len() && 0 <= j < ns[i].path.len() ==> is_ascii_bytes(#[trigger] ns[i].path[j])
}

/// The pieces of ASCII bytes are ASCII.
proof fn lemma_split_ascii(b: Seq<u8>, cur: Seq<u8>)
    requires
        is_ascii_bytes(b),
        is_ascii_bytes(cur),
    ensures
        forall|j: int|
            0 <= j < split_from(b, cur).len() ==> is_ascii_bytes(#[trigger] split_from(b, cur)[j]),
    decreases b.len(),
{
    if b.len() > 0 {
        assert(is_ascii_bytes(b.drop_first())) by {
            assert forall|i: int| 0 <= i < b.drop_first().len() implies #[trigger] b.drop_first()[i]
                < 128 by {
                assert(b[i + 1] < 128);
            }
        }
        if b[0] == 47 {
            lemma_split_ascii(b.drop_first(), Seq::empty());
            let done = if cur.len() == 0 {
                Seq::<Seq<u8>>::empty()
            } else {
                seq![cur]
            };
            let rest = split_from(b.drop_first(), Seq::empty());
            assert(split_from(b, cur) == done + rest);
            assert forall|j: int| 0 <= j < (done + rest).len() implies is_ascii_bytes(
                #[trigger] (done + rest)[j],
            ) by {
                if j < done.len() {
                    assert((done + rest)[j] == cur);
                } else {
                    assert((done + rest)[j] == rest[j - done.len()]);
                }
            }
        } else {
            assert(is_ascii_bytes(cur.push(b[0]))) by {
                assert(b[0] < 128);
                assert forall|i: int| 0 <= i < cur.push(b[0]).len() implies #[trigger] cur.push(
                    b[0],
                )[i] < 128 by {
                    if i < cur.len() {
                        assert(cur[i] < 128);
                    }
                }
            }
            lemma_split_ascii(b.drop_first(), cur.push(b[0]));
            assert(split_from(b, cur) == split_from(b.drop_first(), cur.push(b[0])));
        }
    } else {
        assert forall|j: int| 0 <= j < split_from(b, cur).len() implies is_ascii_bytes(
            #[trigger] split_from(b, cur)[j],
        ) by {
            assert(split_from(b, cur)[j] == cur);
        }
    }
}

/// The names along a valid path are ASCII.
pub proof fn lemma_components_ascii(p: Seq<u8>)
    requires
        valid_path(p),
    ensures
        forall|j: int| 0 <= j < components(p).len() ==> is_ascii_bytes(#[trigger] components(p)[j]),
{
    assert forall|i: int| 0 <= i < p.len() implies #[trigger] p[i] < 128 by {
        assert(is_path_byte(p[i]));
    }
    lemma_split_ascii(p, Seq::empty());
}

/// Some directory on the way to `cs` is missing.
pub open spec fn missing_dir(ns: Seq<NodeView>, cs: Seq<Seq<u8>>) -> bool {
    exists|i: int| 1 <= i < cs.len() && !has_node(ns, #[trigger] cs.take(i))
}

/// What reading release `rev` (the last one when none) of the file at
/// `path` gives.
pub open spec fn get_result(ns: Seq<NodeView>, path: Seq<u8>, rev: Option<int>) -> Result<
    Seq<u8>,
    VcsError,
> {
    let cs = components(path);
    if !valid_path(path) {
        Err(VcsError::InvalidPath)
    } else if missing_dir(ns, cs) {
        Err(VcsError::DirNotFound)
    } else if cs.len() == 0 || !has_node(ns, cs) {
        Err(VcsError::FileNotFound)
    } else {
        let rs = releases_of(ns, cs);
        match rev {
            None => if rs.len() == 0 {
                Err(VcsError::ReleaseNotFound)
            } else {
                Ok(rs.last())
            },
            Some(r) => if 0 <= r < rs.len() {
                Ok(rs[r])
            } else {
                Err(VcsError::ReleaseNotFound)
            },
        }
    }
}

/// A release being read.
#[derive(Debug)]
pub struct ReadRevision {
    data: Vec<u8>,
    index: usize,
}

impl ReadRevision {
    #[verifier::type_invariant]
    spec fn inv(self) -> bool {
        self.index <= self.data@.len()
    }

    /// The release's bytes.
    pub closed spec fn data(&self) -> Seq<u8> {
        self.data@
    }

    /// The bytes not read yet.
    pub closed spec fn remaining(&self) -> Seq<u8> {
        self.data@.skip(self.index as int)
    }

    /// The size of the release.
    pub fn len(&self) -> (r: usize)
        ensures
            r == self.data().len(),
    {
        self.data.len()
    }

    pub fn is_empty(&self) -> (r: bool)
        ensures
            r == (self.data().len() == 0),
    {
        self.data.len() == 0
    }

    /// Reads up to `max` of the bytes not read yet.
    pub fn read(&mut self, max: usize) -> (r: Vec<u8>)
        ensures
            final(self).data() == old(self).data(),
            r@ == old(self).remaining().take(
                if max < old(self).remaining().len() {
                    max as int
                } else {
                    old(self).remaining().len() as int
                },
            ),
            final(self).remaining() == old(self).remaining().skip(r@.len() as int),
    {
        proof {
            use_type_invariant(&*self);
        }
        let start = self.index;
        let left = self.data.len() - start;
        let n = if max < left {
            max
        } else {
            left
        };
        let mut r: Vec<u8> = Vec::new();
        let mut i: usize = 0;
        let ghost d = self.data@;
        let end = start + n;
        while i < n
            invariant
                end == start + n,
                d == self.data@,
                i <= n,
                start + n <= d.len(),
                r@ == d.skip(start as int).take(i as int),
            decreases n - i,
        {
            r.push(self.data[start + i]);
            assert(d.skip(start as int).take(i + 1) =~= d.skip(start as int).take(i as int).push(
                d[start + i],
            ));
            i += 1;
        }
        self.index = start + n;
        assert(d.skip(start as int).skip(n as int) =~= d.skip(self.index as int));
        r
    }
}

/// The store.
pub struct Vcs {
    nodes: Vec<Node>,
}

impl View for Vcs {
    type V = Seq<NodeView>;

    closed spec fn view(&self) -> Seq<NodeView> {
        Seq::new(self.nodes@.len(), |i: int| self.nodes@[i].view())
    }
}

/// Whether the node path `a` is the first `n` names of `cs`.
fn path_is_prefix(a: &Vec<Vec<u8>>, cs: &Vec<Vec<u8>>, n: usize) -> (r: bool)
    requires
        n <= cs.deep_view().len(),
    ensures
        r == (a.deep_view() == cs.deep_view().take(n as int)),
{
    if a.len() != n {
        assert(a.deep_view().len() == a@.len());
        return false;
    }
    let mut i: usize = 0;
    while i < n
        invariant
            a.deep_view().len() == n,
            n <= cs.deep_view().len(),
            i <= n,
            forall|j: int| 0 <= j < i ==> a.deep_view()[j] == cs.deep_view()[j],
        decreases n - i,
    {
        assert(a.deep_view()[i as int] == a[i as int]@);
        assert(cs.deep_view()[i as int] == cs[i as int]@);
        if !bytes_equal(a[i].as_slice(), cs[i].as_slice()) {
            assert(a.deep_view()[i as int] != cs.deep_view().take(n as int)[i as int]);
            return false;
        }
        i += 1;
    }
    assert(a.deep_view() =~= cs.deep_view().take(n as int));
    true
}

impl Default for Vcs {
    /// An empty store, as `new` makes it.
    fn default() -> (r: Vcs)
        ensures
            r@ == Seq::<NodeView>::empty(),
            r.wf(),
    {
        Vcs::new()
    }
}

impl Vcs {
    /// No two nodes share a path.
    pub closed spec fn wf(&self) -> bool {
        unique_paths(self@) && ascii_names(self@)
    }

    /// An empty store.
    pub fn new() -> (r: Vcs)
        ensures
            r@ == Seq::<NodeView>::empty(),
            r.wf(),
    {
        let r = Vcs { nodes: Vec::new() };
        assert(r@ =~= Seq::<NodeView>::empty());
        r
    }

    /// Where the node named by the first `n` names of `cs` stands.
    fn find(&self, cs: &Vec<Vec<u8>>, n: usize) -> (r: Option<usize>)
        requires
            n <= cs.deep_view().len(),
            self.wf(),
        ensures
            match r {
                Some(i) => i < self@.len() && self@[i as int].path == cs.deep_view().take(n as int)
                    && node_at(self@, cs.deep_view().take(n as int)) == i,
                None => !has_node(self@, cs.deep_view().take(n as int)),
            },
    {
        let ghost p = cs.deep_view().take(n as int);
        let mut i: usize = 0;
        while i < self.nodes.len()
            invariant
                i <= self@.len(),
                self@.len() == self.nodes@.len(),
                n <= cs.deep_view().len(),
                p == cs.deep_view().take(n as int),
                self.wf(),
                forall|j: int| 0 <= j < i ==> self@[j].path != p,
            decreases self.nodes@.len() - i,
        {
            assert(self@[i as int].path == self.nodes@[i as int].path.deep_view());
            if path_is_prefix(&self.nodes[i].path, cs, n) {
                proof {
                    let k = node_at(self@, p);
                    assert(0 <= k < self@.len() && self@[k].path == p);
                    if k != i {
                        assert(self@[k].path != self@[i as int].path);
                    }
                }
                return Some(i);
            }
            i += 1;
        }
        None
    }
}

/// A byte that a stored file may hold: printable ASCII or ASCII white space.
pub open spec fn is_text_byte(b: u8) -> bool {
    (33 <= b <= 126) || b == 32 || b == 9 || b == 10 || b == 12 || b == 13
}

pub open spec fn is_text(d: Seq<u8>) -> bool {
    forall|i: int| 0 <= i < d.len() ==> is_text_byte(#[trigger] d[i])
}

/// The store with a directory node added for each of the first `k`, ...,
/// `cs.len() - 1` names of `cs` that has none.
pub open spec fn add_dirs(ns: Seq<NodeView>, cs: Seq<Seq<u8>>, k: int) -> Seq<NodeView>
    decreases cs.len() - k,
{
    if k < 1 || k >= cs.len() {
        ns
    } else {
        let next = if has_node(ns, cs.take(k)) {
            ns
        } else {
            ns.push(NodeView { path: cs.take(k), releases: Seq::empty() })
        };
        add_dirs(next, cs, k + 1)
    }
}

/// What committing `data` to the file at `path` answers, and the store after.
pub open spec fn commit_result(ns: Seq<NodeView>, path: Seq<u8>, data: Seq<u8>) -> (
    Result<int, VcsError>,
    Seq<NodeView>,
) {
    let cs = components(path);
    if !is_text(data) {
        (Err(VcsError::InvalidData), ns)
    } else if !valid_path(path) || names_dir(path) {
        (Err(VcsError::InvalidPath), ns)
    } else if cs.len() == 0 {
        (Err(VcsError::FileNotFound), ns)
    } else {
        let ds = add_dirs(ns, cs, 1);
        if has_node(ds, cs) {
            let i = node_at(ds, cs);
            let rs = ds[i].releases;
            if rs.len() > 0 && rs.last() == data {
                (Ok(rs.len() - 1), ds)
            } else {
                (Ok(rs.len() as int), ds.update(i, NodeView { releases: rs.push(data), ..ds[i] }))
            }
        } else {
            (Ok(0), ds.push(NodeView { path: cs, releases: seq![data] }))
        }
    }
}

/// With unique paths, the node named `p` is the one found there.
pub proof fn lemma_node_at(ns: Seq<NodeView>, p: Seq<Seq<u8>>, i: int)
    requires
        unique_paths(ns),
        0 <= i < ns.len(),
        ns[i].path == p,
    ensures
        has_node(ns, p),
        node_at(ns, p) == i,
{
    let k = node_at(ns, p);
    if k != i {
        assert(ns[k].path != ns[i].path);
    }
}

/// Adding directories keeps the nodes there and their paths unique, and
/// leaves no directory missing from `k` on.
proof fn lemma_add_dirs(ns: Seq<NodeView>, cs: Seq<Seq<u8>>, k: int)
    requires
        unique_paths(ns),
        1 <= k,
    ensures
        unique_paths(add_dirs(ns, cs, k)),
        add_dirs(ns, cs, k).len() >= ns.len(),
        forall|i: int| 0 <= i < ns.len() ==> #[trigger] add_dirs(ns, cs, k)[i] == ns[i],
        forall|i: int| k <= i < cs.len() ==> has_node(add_dirs(ns, cs, k), #[trigger] cs.take(i)),
        forall|i: int|
            ns.len() <= i < add_dirs(ns, cs, k).len() ==> (#[trigger] add_dirs(ns, cs, k)[i]).path.len()
                < cs.len(),
    decreases cs.len() - k,
{
    if k < cs.len() {
        let next = if has_node(ns, cs.take(k)) {
            ns
        } else {
            ns.push(NodeView { path: cs.take(k), releases: Seq::empty() })
        };
        if !has_node(ns, cs.take(k)) {
            assert forall|i: int, j: int|
                0 <= i < next.len() && 0 <= j < next.len() && i != j implies #[trigger] next[i].path
                != #[trigger] next[j].path by {
                if i < ns.len() && j < ns.len() {
                    assert(ns[i].path != ns[j].path);
                }
            }
            assert(next[ns.len() as int].path == cs.take(k));
        }
        assert(has_node(next, cs.take(k)));
        lemma_add_dirs(next, cs, k + 1);
        let r = add_dirs(next, cs, k + 1);
        assert(r == add_dirs(ns, cs, k));
        assert(r[node_at(next, cs.take(k))] == next[node_at(next, cs.take(k))]);
        assert forall|i: int| k <= i < cs.len() implies has_node(r, #[trigger] cs.take(i)) by {
            if i == k {
                let w = node_at(next, cs.take(k));
                assert(r[w].path == cs.take(k));
            }
        }
        assert forall|i: int| ns.len() <= i < r.len() implies (#[trigger] r[i]).path.len()
            < cs.len() by {
            if i < next.len() {
                assert(r[i] == next[i]);
            }
        }
    }
}

/// A copy of the first `n` names of `cs`.
fn prefix_path(cs: &Vec<Vec<u8>>, n: usize) -> (r: Vec<Vec<u8>>)
    requires
        n <= cs.deep_view().len(),
    ensures
        r.deep_view() == cs.deep_view().take(n as int),
{
    let mut r: Vec<Vec<u8>> = Vec::new();
    let mut i: usize = 0;
    while i < n
        invariant
            i <= n,
            n <= cs.deep_view().len(),
            r.deep_view() == cs.deep_view().take(i as int),
        decreases n - i,
    {
        let piece = vstd::slice::slice_to_vec(cs[i].as_slice());
        let ghost before = r.deep_view();
        assert(piece.deep_view() =~= cs.deep_view()[i as int]);
        r.push(piece);
        assert(r.deep_view() =~= before.push(cs.deep_view()[i as int]));
        assert(r.deep_view() =~= cs.deep_view().take(i + 1));
        i += 1;
    }
    r
}

/// A file being written: the bytes given so far, for the path given.
pub struct WriteRevision {
    path: Vec<u8>,
    data: Vec<u8>,
}

impl WriteRevision {
    pub closed spec fn path(&self) -> Seq<u8> {
        self.path@
    }

    pub closed spec fn data(&self) -> Seq<u8> {
        self.data@
    }

    /// Appends bytes to the file's new contents.
    pub fn write(&mut self, bytes: &[u8])
        ensures
            final(self).path() == old(self).path(),
            final(self).data() == old(self).data() + bytes@,
    {
        let mut i: usize = 0;
        let ghost start = self.data@;
        while i < bytes.len()
            invariant
                i <= bytes@.len(),
                self.path@ == old(self).path@,
                self.data@ == start + bytes@.take(i as int),
            decreases bytes@.len() - i,
        {
            self.data.push(bytes[i]);
            assert(bytes@.take(i + 1) =~= bytes@.take(i as int).push(bytes@[i as int]));
            i += 1;
        }
        assert(bytes@.take(bytes@.len() as int) =~= bytes@);
    }

    /// Stores the new contents as the file's next release, unless they
    /// equal its last one; gives the release's number, counted from zero.
    pub fn commit(self, vcs: &mut Vcs) -> (r: Result<usize, VcsError>)
        requires
            old(vcs).wf(),
        ensures
            final(vcs).wf(),
            ({
                let (res, after) = commit_result(old(vcs)@, self.path(), self.data());
                &&& final(vcs)@ == after
                &&& match res {
                    Ok(n) => r == Ok::<usize, VcsError>(n as usize),
                    Err(e) => r == Err::<usize, VcsError>(e),
                }
            }),
    {
        let mut i: usize = 0;
        while i < self.data.len()
            invariant
                i <= self.data@.len(),
                vcs@ == old(vcs)@,
                vcs.wf(),
                forall|j: int| 0 <= j < i ==> is_text_byte(#[trigger] self.data@[j]),
            decreases self.data@.len() - i,
        {
            let b = self.data[i];
            if !((33 <= b && b <= 126) || b == 32 || b == 9 || b == 10 || b == 12 || b == 13) {
                return Err(VcsError::InvalidData);
            }
            i += 1;
        }
        let path = match Path::new(self.path.as_slice()) {
            Ok(p) => p,
            Err(e) => {
                return Err(e);
            },
        };
        if path.is_dir() {
            return Err(VcsError::InvalidPath);
        }
        let cs = path.components();
        let ghost csv = cs.deep_view();
        proof {
            lemma_components_ascii(self.path@);
        }
        let n = cs.len();
        if n == 0 {
            return Err(VcsError::FileNotFound);
        }
        let ghost ns0 = vcs@;
        let mut k: usize = 1;
        while k < n
            invariant
                1 <= k <= n,
                n == csv.len(),
                csv == cs.deep_view(),
                forall|j: int| 0 <= j < csv.len() ==> is_ascii_bytes(#[trigger] csv[j]),
                vcs.wf(),
                add_dirs(ns0, csv, 1) == add_dirs(vcs@, csv, k as int),
            decreases n - k,
        {
            if vcs.find(&cs, k).is_none() {
                let p = prefix_path(&cs, k);
                let ghost before = vcs@;
                let empty: Vec<Vec<u8>> = Vec::new();
                assert(empty.deep_view() =~= Seq::<Seq<u8>>::empty());
                vcs.nodes.push(Node { path: p, releases: empty });
                proof {
                    let pushed = NodeView { path: csv.take(k as int), releases: Seq::empty() };
                    assert(vcs@ =~= before.push(pushed));
                    assert forall|i: int, j: int|
                        0 <= i < vcs@.len() && 0 <= j < vcs@[i].path.len() implies is_ascii_bytes(
                        #[trigger] vcs@[i].path[j],
                    ) by {
                        if i < before.len() {
                            assert(vcs@[i] == before[i]);
                        } else {
                            assert(vcs@[i].path[j] == csv[j]);
                        }
                    }
                    assert forall|i: int, j: int|
                        0 <= i < vcs@.len() && 0 <= j < vcs@.len() && i != j implies #[trigger] vcs@[i].path
                        != #[trigger] vcs@[j].path by {
                        if i < before.len() && j < before.len() {
                            assert(before[i].path != before[j].path);
                        } else if i < before.len() {
                            assert(before[i].path != csv.take(k as int));
                        } else if j < before.len() {
                            assert(before[j].path != csv.take(k as int));
                        }
                    }
                }
            }
            k += 1;
        }
        let ghost ds = vcs@;
        assert(ds == add_dirs(ns0, csv, 1));
        match vcs.find(&cs, n) {
            Some(i) => {
                assert(csv.take(n as int) =~= csv);
                let count = vcs.nodes[i].releases.len();
                let same = count > 0 && bytes_equal(
                    vcs.nodes[i].releases[count - 1].as_slice(),
                    self.data.as_slice(),
                );
                proof {
                    if count > 0 {
                        assert(ds[i as int].releases.last() == vcs.nodes@[i as int].releases@[count
                            - 1]@);
                    }
                }
                if same {
                    Ok(count - 1)
                } else {
                    let mut node = vcs.nodes.remove(i);
                    let ghost rs = node.releases.deep_view();
                    let ghost dv = self.data@;
                    assert(self.data.deep_view() =~= dv);
                    node.releases.push(self.data);
                    assert(node.releases.deep_view() =~= rs.push(self.data()));
                    vcs.nodes.insert(i, node);
                    proof {
                        assert(vcs@ =~= ds.update(
                            i as int,
                            NodeView { releases: rs.push(self.data()), ..ds[i as int] },
                        ));
                        assert forall|a: int, b: int|
                            0 <= a < vcs@.len() && 0 <= b < vcs@.len() && a != b implies #[trigger] vcs@[a].path
                            != #[trigger] vcs@[b].path by {
                            assert(ds[a].path != ds[b].path);
                        }
                        assert forall|a: int, j: int|
                            0 <= a < vcs@.len() && 0 <= j < vcs@[a].path.len() implies is_ascii_bytes(
                            #[trigger] vcs@[a].path[j],
                        ) by {
                            assert(vcs@[a].path == ds[a].path);
                        }
                    }
                    Ok(count)
                }
            },
            None => {
                assert(csv.take(n as int) =~= csv);
                let ghost before = vcs@;
                let mut releases: Vec<Vec<u8>> = Vec::new();
                let ghost dv = self.data@;
                assert(self.data.deep_view() =~= dv);
                releases.push(self.data);
                let node = Node { path: cs, releases };
                assert(node.view().releases =~= seq![self.data()]);
                vcs.nodes.push(node);
                proof {
                    assert(vcs@ =~= before.push(NodeView { path: csv, releases: seq![self.data()] }));
                    assert forall|a: int, j: int|
                        0 <= a < vcs@.len() && 0 <= j < vcs@[a].path.len() implies is_ascii_bytes(
                        #[trigger] vcs@[a].path[j],
                    ) by {
                        if a < before.len() {
                            assert(vcs@[a] == before[a]);
                        } else {
                            assert(vcs@[a].path[j] == csv[j]);
                        }
                    }
                    assert forall|a: int, b: int|
                        0 <= a < vcs@.len() && 0 <= b < vcs@.len() && a != b implies #[trigger] vcs@[a].path
                        != #[trigger] vcs@[b].path by {
                        if a < before.len() && b < before.len() {
                            assert(before[a].path != before[b].path);
                        } else if a < before.len() {
                            assert(before[a].path != csv);
                        } else if b < before.len() {
                            assert(before[b].path != csv);
                        }
                    }
                }
                Ok(0)
            },
        }
    }
}

impl Vcs {
    /// Reads a release of the file at `path`: release `rev`, or the last one.
    fn get(&self, path: &str, rev: Option<usize>) -> (r: Result<ReadRevision, VcsError>)
        requires
            self.wf(),
        ensures
            match get_result(self@, encode_utf8(path@), rev_index(rev)) {
                Ok(d) => r matches Ok(rr) && rr.data() == d && rr.remaining() == d,
                Err(e) => r matches Err(e2) && e2 == e,
            },
    {
        let p = match Path::new(path.as_bytes()) {
            Ok(p) => p,
            Err(e) => {
                return Err(e);
            },
        };
        let cs = p.components();
        let ghost csv = cs.deep_view();
        let n = cs.len();
        let mut k: usize = 1;
        while k < n
            invariant
                n == csv.len(),
                csv == cs.deep_view(),
                csv == components(encode_utf8(path@)),
                valid_path(encode_utf8(path@)),
                self.wf(),
                1 <= k,
                forall|i: int| 1 <= i < k && i < n ==> has_node(self@, #[trigger] csv.take(i)),
            decreases n - k,
        {
            if self.find(&cs, k).is_none() {
                assert(!has_node(self@, csv.take(k as int)));
                return Err(VcsError::DirNotFound);
            }
            k += 1;
        }
        if n == 0 {
            return Err(VcsError::FileNotFound);
        }
        assert(csv.take(n as int) =~= csv);
        match self.find(&cs, n) {
            None => Err(VcsError::FileNotFound),
            Some(i) => {
                let releases = &self.nodes[i].releases;
                let count = releases.len();
                let idx = match rev {
                    None => if count == 0 {
                        return Err(VcsError::ReleaseNotFound);
                    } else {
                        count - 1
                    },
                    Some(r) => if r < count {
                        r
                    } else {
                        return Err(VcsError::ReleaseNotFound);
                    },
                };
                let data = vstd::slice::slice_to_vec(releases[idx].as_slice());
                let rr = ReadRevision { data, index: 0 };
                assert(rr.data@.skip(0) =~= rr.data@);
                assert(self@[i as int].releases[idx as int] == releases@[idx as int]@);
                Ok(rr)
            },
        }
    }

    /// Reads the last release of the file at `path`.
    pub fn get_current_revision(&self, path: &str) -> (r: Result<ReadRevision, VcsError>)
        requires
            self.wf(),
        ensures
            match get_result(self@, encode_utf8(path@), None) {
                Ok(d) => r matches Ok(rr) && rr.data() == d && rr.remaining() == d,
                Err(e) => r matches Err(e2) && e2 == e,
            },
    {
        self.get(path, None)
    }

    /// Reads release `revision`, counted from zero, of the file at `path`.
    pub fn get_revision(&self, path: &str, revision: usize) -> (r: Result<ReadRevision, VcsError>)
        requires
            self.wf(),
        ensures
            match get_result(self@, encode_utf8(path@), Some(revision as int)) {
                Ok(d) => r matches Ok(rr) && rr.data() == d && rr.remaining() == d,
                Err(e) => r matches Err(e2) && e2 == e,
            },
    {
        self.get(path, Some(revision))
    }

    /// Starts writing the file at `path`; the path is checked when the
    /// contents are committed.
    pub fn put(&self, path: &str) -> (r: Result<WriteRevision, VcsError>)
        ensures
            r matches Ok(w) && w.path() == encode_utf8(path@) && w.data().len() == 0,
    {
        Ok(WriteRevision { path: vstd::slice::slice_to_vec(path.as_bytes()), data: Vec::new() })
    }
}

pub open spec fn rev_index(rev: Option<usize>) -> Option<int> {
    match rev {
        Some(r) => Some(r as int),
        None => None,
    }
}

/// Byte strings in dictionary order: a proper prefix comes first, and
/// otherwise the first differing byte decides.
pub open spec fn bytes_lt(a: Seq<u8>, b: Seq<u8>) -> bool
    decreases a.len(),
{
    if a.len() == 0 {
        b.len() > 0
    } else if b.len() == 0 {
        false
    } else if a[0] != b[0] {
        a[0] < b[0]
    } else {
        bytes_lt(a.drop_first(), b.drop_first())
    }
}

/// Names in dictionary order of their character codes.
pub open spec fn chars_lt(a: Seq<char>, b: Seq<char>) -> bool
    decreases a.len(),
{
    if a.len() == 0 {
        b.len() > 0
    } else if b.len() == 0 {
        false
    } else if a[0] != b[0] {
        (a[0] as u32) < (b[0] as u32)
    } else {
        chars_lt(a.drop_first(), b.drop_first())
    }
}

proof fn lemma_bytes_lt_transitive(a: Seq<u8>, b: Seq<u8>, c: Seq<u8>)
    requires
        bytes_lt(a, b),
        bytes_lt(b, c),
    ensures
        bytes_lt(a, c),
    decreases a.len(),
{
    if a.len() > 0 && b.len() > 0 && c.len() > 0 && a[0] == b[0] && b[0] == c[0] {
        lemma_bytes_lt_transitive(a.drop_first(), b.drop_first(), c.drop_first());
    }
}

proof fn lemma_bytes_lt_total(a: Seq<u8>, b: Seq<u8>)
    requires
        a != b,
    ensures
        bytes_lt(a, b) || bytes_lt(b, a),
    decreases a.len(),
{
    if a.len() == 0 {
        assert(b.len() > 0) by {
            if b.len() == 0 {
                assert(a =~= b);
            }
        }
    } else if b.len() > 0 && a[0] == b[0] {
        if a.drop_first() == b.drop_first() {
            assert(a =~= seq![a[0]] + a.drop_first());
            assert(b =~= seq![b[0]] + b.drop_first());
        }
        lemma_bytes_lt_total(a.drop_first(), b.drop_first());
    }
}

/// The order of byte names carries over to their characters.
proof fn lemma_bytes_lt_chars(a: Seq<u8>, b: Seq<u8>)
    requires
        bytes_lt(a, b),
    ensures
        chars_lt(byte_names(a), byte_names(b)),
    decreases a.len(),
{
    if a.len() > 0 && b.len() > 0 {
        assert(byte_names(a).drop_first() =~= byte_names(a.drop_first()));
        assert(byte_names(b).drop_first() =~= byte_names(b.drop_first()));
        let (x, y) = (a[0], b[0]);
        assert((x as char) as u32 == x as u32);
        assert((y as char) as u32 == y as u32);
        if x == y {
            lemma_bytes_lt_chars(a.drop_first(), b.drop_first());
        }
    }
}

/// The characters of a name stored as bytes.
pub open spec fn byte_names(b: Seq<u8>) -> Seq<char> {
    b.map_values(|x: u8| x as char)
}

/// Whether `a` comes before `b`.
fn bytes_less(a: &[u8], b: &[u8]) -> (r: bool)
    ensures
        r == bytes_lt(a@, b@),
{
    let mut i: usize = 0;
    assert(a@.skip(0) =~= a@ && b@.skip(0) =~= b@);
    while i < a.len() && i < b.len()
        invariant
            i <= a@.len(),
            i <= b@.len(),
            bytes_lt(a@, b@) == bytes_lt(a@.skip(i as int), b@.skip(i as int)),
        decreases a@.len() - i,
    {
        assert(a@.skip(i as int).drop_first() =~= a@.skip(i + 1));
        assert(b@.skip(i as int).drop_first() =~= b@.skip(i + 1));
        if a[i] != b[i] {
            return a[i] < b[i];
        }
        i += 1;
    }
    i == a.len() && i < b.len()
}

/// Whether the name `a` comes before the name `b`.
pub fn chars_less(a: &str, b: &str) -> (r: bool)
    ensures
        r == chars_lt(a@, b@),
{
    let x = crate::text::chars_of(a);
    let y = crate::text::chars_of(b);
    let mut i: usize = 0;
    assert(x@.skip(0) =~= x@ && y@.skip(0) =~= y@);
    while i < x.len() && i < y.len()
        invariant
            x@ == a@,
            y@ == b@,
            i <= x@.len(),
            i <= y@.len(),
            chars_lt(a@, b@) == chars_lt(x@.skip(i as int), y@.skip(i as int)),
        decreases x@.len() - i,
    {
        assert(x@.skip(i as int).drop_first() =~= x@.skip(i + 1));
        assert(y@.skip(i as int).drop_first() =~= y@.skip(i + 1));
        if x[i] != y[i] {
            return (x[i] as u32) < (y[i] as u32);
        }
        i += 1;
    }
    i == x.len() && i < y.len()
}

/// A node named directly below `p`.
pub open spec fn is_child(p: Seq<Seq<u8>>, q: Seq<Seq<u8>>) -> bool {
    q.len() == p.len() + 1 && q.take(p.len() as int) == p
}

/// How many nodes are named directly below `p`.
pub open spec fn count_children(ns: Seq<NodeView>, p: Seq<Seq<u8>>) -> nat
    decreases ns.len(),
{
    if ns.len() == 0 {
        0
    } else {
        count_children(ns.drop_last(), p) + if is_child(p, ns.last().path) {
            1nat
        } else {
            0nat
        }
    }
}

/// An entry of a directory listing.
#[derive(Debug, PartialEq, Eq)]
pub enum ListEntry {
    Dir(String, usize),
    File(String, usize),
}

pub ghost enum EntryView {
    Dir(Seq<char>, usize),
    File(Seq<char>, usize),
}

impl View for ListEntry {
    type V = EntryView;

    open spec fn view(&self) -> EntryView {
        match self {
            ListEntry::Dir(n, c) => EntryView::Dir(n@, *c),
            ListEntry::File(n, c) => EntryView::File(n@, *c),
        }
    }
}

pub open spec fn entry_name(e: EntryView) -> Seq<char> {
    match e {
        EntryView::Dir(n, _) => n,
        EntryView::File(n, _) => n,
    }
}

impl ListEntry {
    /// The entry's name.
    pub fn name(&self) -> (r: &String)
        ensures
            r@ == entry_name(self@),
    {
        match self {
            ListEntry::Dir(name, ..) => name,
            ListEntry::File(name, ..) => name,
        }
    }
}

/// How the node `n` shows in a listing of its directory: a file with its
/// number of releases, or a directory with its number of entries.
#[verifier::opaque]
pub open spec fn entry_of(ns: Seq<NodeView>, n: NodeView) -> EntryView {
    let name = byte_names(n.path.last());
    if n.releases.len() == 0 {
        EntryView::Dir(name, count_children(ns, n.path) as usize)
    } else {
        EntryView::File(name, n.releases.len() as usize)
    }
}

/// The listing `es` of directory `p`: one entry for each node directly
/// below `p`, and nothing else, in order of their names.
pub open spec fn is_listing(ns: Seq<NodeView>, p: Seq<Seq<u8>>, es: Seq<EntryView>) -> bool {
    &&& forall|i: int|
        0 <= i < es.len() ==> exists|j: int|
            0 <= j < ns.len() && is_child(p, ns[j].path) && #[trigger] es[i] == entry_of(ns, ns[j])
    &&& forall|j: int|
        0 <= j < ns.len() && is_child(p, #[trigger] ns[j].path) ==> exists|i: int|
            0 <= i < es.len() && es[i] == entry_of(ns, ns[j])
    &&& forall|i: int, k: int|
        0 <= i < k < es.len() ==> chars_lt(entry_name(#[trigger] es[i]), entry_name(#[trigger] es[k]))
}

/// Some directory along `cs`, itself included, is missing.
pub open spec fn missing_along(ns: Seq<NodeView>, cs: Seq<Seq<u8>>) -> bool {
    exists|i: int| 1 <= i <= cs.len() && !has_node(ns, #[trigger] cs.take(i))
}

/// A directory listing, read entry by entry.
pub struct List {
    len: usize,
    entries: Vec<ListEntry>,
}

impl List {
    /// The entries not read yet.
    pub closed spec fn remaining(&self) -> Seq<EntryView> {
        self.entries@.map_values(|e: ListEntry| e@)
    }

    /// The number of entries that the listing had.
    pub closed spec fn size(&self) -> nat {
        self.len as nat
    }

    pub fn len(&self) -> (r: usize)
        ensures
            r == self.size(),
    {
        self.len
    }

    pub fn is_empty(&self) -> (r: bool)
        ensures
            r == (self.size() == 0),
    {
        self.len == 0
    }

    /// The next entry, if any is left.
    pub fn next(&mut self) -> (r: Option<ListEntry>)
        ensures
            final(self).size() == old(self).size(),
            old(self).remaining().len() == 0 ==> r is None && final(self).remaining() == old(self).remaining(),
            old(self).remaining().len() > 0 ==> (r matches Some(e) && e@ == old(self).remaining()[0]
                && final(self).remaining() == old(self).remaining().drop_first()),
    {
        if self.entries.len() == 0 {
            None
        } else {
            let e = self.entries.remove(0);
            assert(self.remaining() =~= old(self).remaining().drop_first());
            Some(e)
        }
    }
}

/// An entry waiting for its place in a listing, with its name's bytes.
struct Keyed {
    key: Vec<u8>,
    entry: ListEntry,
}

impl Vcs {
    /// How many nodes are named directly below the node at index `k`.
    fn count_children_of(&self, k: usize) -> (r: usize)
        requires
            k < self@.len(),
        ensures
            r == count_children(self@, self@[k as int].path),
    {
        let ghost ns = self@;
        let ghost p = ns[k as int].path;
        let mut c: usize = 0;
        let mut j: usize = 0;
        let plen = self.nodes[k].path.len();
        while j < self.nodes.len()
            invariant
                ns == self@,
                k < ns.len(),
                p == ns[k as int].path,
                plen == p.len(),
                j <= ns.len(),
                c == count_children(ns.take(j as int), p),
                c <= j,
            decreases ns.len() - j,
        {
            assert(ns.take(j + 1).drop_last() =~= ns.take(j as int));
            let q = &self.nodes[j].path;
            assert(ns[j as int].path == q.deep_view());
            assert(self.nodes@[k as int].path.deep_view() == p);
            if q.len() > plen && q.len() - 1 == plen && path_is_prefix(&self.nodes[k].path, q, plen) {
                c += 1;
            }
            j += 1;
        }
        assert(ns.take(ns.len() as int) =~= ns);
        c
    }
}

impl Keyed {
    spec fn key_view(&self) -> Seq<u8> {
        self.key@
    }
}

/// Two nodes directly below the same directory have different names.
proof fn lemma_children_names(ns: Seq<NodeView>, p: Seq<Seq<u8>>, a: int, b: int)
    requires
        unique_paths(ns),
        0 <= a < ns.len(),
        0 <= b < ns.len(),
        a != b,
        is_child(p, ns[a].path),
        is_child(p, ns[b].path),
    ensures
        ns[a].path.last() != ns[b].path.last(),
{
    assert(ns[a].path != ns[b].path);
    if ns[a].path.last() == ns[b].path.last() {
        assert(ns[a].path =~= ns[a].path.take(p.len() as int).push(ns[a].path.last()));
        assert(ns[b].path =~= ns[b].path.take(p.len() as int).push(ns[b].path.last()));
    }
}

/// Keys in increasing order.
spec fn keys_sorted(out: Seq<Keyed>) -> bool {
    forall|a: int, b: int|
        0 <= a < b < out.len() ==> bytes_lt(
            (#[trigger] out[a]).key_view(),
            (#[trigger] out[b]).key_view(),
        )
}

/// Puts `item` where its key belongs among keys in increasing order.
fn insert_sorted(out: &mut Vec<Keyed>, item: Keyed) -> (pos: usize)
    requires
        keys_sorted(old(out)@),
        forall|i: int| 0 <= i < old(out)@.len() ==> (#[trigger] old(out)@[i]).key_view() != item.key_view(),
    ensures
        pos <= old(out)@.len(),
        final(out)@ == old(out)@.insert(pos as int, item),
        keys_sorted(final(out)@),
{
    let mut pos: usize = 0;
    while pos < out.len() && bytes_less(out[pos].key.as_slice(), item.key.as_slice())
        invariant
            pos <= out@.len(),
            forall|i: int| 0 <= i < pos ==> bytes_lt(#[trigger] out@[i].key_view(), item.key_view()),
        decreases out@.len() - pos,
    {
        pos += 1;
    }
    proof {
        if pos < out@.len() {
            lemma_bytes_lt_total(out@[pos as int].key_view(), item.key_view());
            assert forall|i: int| pos <= i < out@.len() implies bytes_lt(
                item.key_view(),
                #[trigger] out@[i].key_view(),
            ) by {
                if i > pos {
                    assert(bytes_lt(out@[pos as int].key_view(), out@[i].key_view()));
                    lemma_bytes_lt_transitive(
                        item.key_view(),
                        out@[pos as int].key_view(),
                        out@[i].key_view(),
                    );
                }
            }
        }
    }
    let ghost before = out@;
    out.insert(pos, item);
    proof {
        assert forall|a: int, b: int| 0 <= a < b < out@.len() implies bytes_lt(
            (#[trigger] out@[a]).key_view(),
            (#[trigger] out@[b]).key_view(),
        ) by {
            if a < pos && b == pos {
            } else if a == pos {
                assert(out@[b] == before[b - 1]);
            } else if b < pos {
                assert(bytes_lt(before[a].key_view(), before[b].key_view()));
            } else if a < pos {
                assert(out@[b] == before[b - 1]);
            } else {
                assert(out@[a] == before[a - 1]);
                assert(out@[b] == before[b - 1]);
                assert(bytes_lt(before[a - 1].key_view(), before[b - 1].key_view()));
            }
        }
    }
    pos
}

/// The entries of `out`, keys dropped.
fn into_entries(out: Vec<Keyed>) -> (r: Vec<ListEntry>)
    ensures
        r@.len() == out@.len(),
        forall|x: int| 0 <= x < out@.len() ==> (#[trigger] r@[x])@ == out@[x].entry@,
{
    let ghost all = out@;
    let total = out.len();
    let mut out = out;
    let mut entries: Vec<ListEntry> = Vec::new();
    let mut i: usize = 0;
    while out.len() > 0
        invariant
            total == all.len(),
            i + out@.len() == all.len(),
            entries@.len() == i,
            out@ == all.skip(i as int),
            forall|x: int| 0 <= x < i ==> (#[trigger] entries@[x])@ == all[x].entry@,
        decreases out@.len(),
    {
        let kd = out.remove(0);
        assert(kd == all[i as int]);
        entries.push(kd.entry);
        assert(out@ =~= all.skip(i + 1));
        i += 1;
    }
    entries
}

/// The name that an entry made from key `k` shows.
proof fn lemma_entry_name(ns: Seq<NodeView>, p: Seq<Seq<u8>>, item: Keyed)
    requires
        exists|t: int|
            0 <= t < ns.len() && is_child(p, ns[t].path) && item.entry@ == entry_of(ns, ns[t])
                && item.key_view() == ns[t].path.last(),
    ensures
        entry_name(item.entry@) == byte_names(item.key_view()),
{
    let t = choose|t: int|
        0 <= t < ns.len() && is_child(p, ns[t].path) && item.entry@ == entry_of(ns, ns[t])
            && item.key_view() == ns[t].path.last();
    reveal(entry_of);
}

spec fn from_children(ns: Seq<NodeView>, p: Seq<Seq<u8>>, all: Seq<Keyed>) -> bool {
    forall|i: int|
        0 <= i < all.len() ==> exists|t: int|
            0 <= t < ns.len() && is_child(p, ns[t].path) && (#[trigger] all[i]).entry@ == entry_of(
                ns,
                ns[t],
            ) && all[i].key_view() == ns[t].path.last()
}

spec fn covers_children(ns: Seq<NodeView>, p: Seq<Seq<u8>>, all: Seq<Keyed>) -> bool {
    forall|t: int|
        0 <= t < ns.len() && is_child(p, #[trigger] ns[t].path) ==> exists|i: int|
            0 <= i < all.len() && all[i].entry@ == entry_of(ns, ns[t])
}

spec fn same_entries(all: Seq<Keyed>, es: Seq<EntryView>) -> bool {
    es.len() == all.len() && forall|x: int| 0 <= x < es.len() ==> es[x] == (#[trigger] all[x]).entry@
}

proof fn lemma_listing_sorted(ns: Seq<NodeView>, p: Seq<Seq<u8>>, all: Seq<Keyed>, es: Seq<EntryView>)
    requires
        keys_sorted(all),
        from_children(ns, p, all),
        same_entries(all, es),
    ensures
        forall|a: int, b: int|
            0 <= a < b < es.len() ==> chars_lt(entry_name(#[trigger] es[a]), entry_name(#[trigger] es[b])),
{
    assert forall|a: int, b: int| 0 <= a < b < es.len() implies chars_lt(
        entry_name(#[trigger] es[a]),
        entry_name(#[trigger] es[b]),
    ) by {
        assert(bytes_lt(all[a].key_view(), all[b].key_view()));
        lemma_bytes_lt_chars(all[a].key_view(), all[b].key_view());
        assert(es[a] == all[a].entry@);
        assert(es[b] == all[b].entry@);
        lemma_entry_name(ns, p, all[a]);
        lemma_entry_name(ns, p, all[b]);
    }
}

/// Entries made from the sorted children of `p` are its listing.
proof fn lemma_listing(ns: Seq<NodeView>, p: Seq<Seq<u8>>, all: Seq<Keyed>, es: Seq<EntryView>)
    requires
        keys_sorted(all),
        from_children(ns, p, all),
        covers_children(ns, p, all),
        same_entries(all, es),
    ensures
        is_listing(ns, p, es),
{
    assert forall|x: int| 0 <= x < es.len() implies exists|t: int|
        0 <= t < ns.len() && is_child(p, ns[t].path) && #[trigger] es[x] == entry_of(ns, ns[t]) by {
        assert(es[x] == all[x].entry@);
    }
    assert forall|t: int|
        0 <= t < ns.len() && is_child(p, #[trigger] ns[t].path) implies exists|x: int|
        0 <= x < es.len() && es[x] == entry_of(ns, ns[t]) by {
        let x = choose|x: int| 0 <= x < all.len() && all[x].entry@ == entry_of(ns, ns[t]);
        assert(es[x] == all[x].entry@);
    }
    lemma_listing_sorted(ns, p, all, es);
}

impl Vcs {
    /// Whether some directory along the first `n` names of `cs` is missing.
    fn has_missing(&self, cs: &Vec<Vec<u8>>, n: usize) -> (r: bool)
        requires
            self.wf(),
            n == cs.deep_view().len(),
        ensures
            r == missing_along(self@, cs.deep_view()),
    {
        let ghost csv = cs.deep_view();
        let mut k: usize = 0;
        while k < n
            invariant
                n == csv.len(),
                csv == cs.deep_view(),
                self.wf(),
                k <= n,
                forall|i: int| 1 <= i <= k ==> has_node(self@, #[trigger] csv.take(i)),
            decreases n - k,
        {
            if self.find(cs, k + 1).is_none() {
                assert(!has_node(self@, csv.take(k + 1)));
                return true;
            }
            k += 1;
        }
        false
    }

    /// The entries of the nodes directly below `cs`, in order of their names.
    fn children(&self, cs: &Vec<Vec<u8>>) -> (r: Vec<Keyed>)
        requires
            self.wf(),
        ensures
            keys_sorted(r@),
            from_children(self@, cs.deep_view(), r@),
            covers_children(self@, cs.deep_view(), r@),
    {
        let ghost ns = self@;
        let ghost csv = cs.deep_view();
        let n = cs.len();
        let mut out: Vec<Keyed> = Vec::new();
        let ghost mut src: Seq<int> = Seq::empty();
        let ghost mut place: Seq<int> = Seq::empty();
        let mut j: usize = 0;
        while j < self.nodes.len()
            invariant
                ns == self@,
                self.wf(),
                n == csv.len(),
                csv == cs.deep_view(),
                j <= ns.len(),
                src.len() == out@.len(),
                place.len() == j,
                forall|i: int|
                    0 <= i < out@.len() ==> {
                        let s = #[trigger] src[i];
                        &&& 0 <= s < j
                        &&& is_child(csv, ns[s].path)
                        &&& out@[i].entry@ == entry_of(ns, ns[s])
                        &&& out@[i].key_view() == ns[s].path.last()
                    },
                forall|t: int|
                    0 <= t < j && is_child(csv, #[trigger] ns[t].path) ==> 0 <= place[t] < out@.len()
                        && src[place[t]] == t,
                keys_sorted(out@),
            decreases ns.len() - j,
        {
            let q = &self.nodes[j].path;
            assert(ns[j as int].path == q.deep_view());
            if q.len() > n && q.len() - 1 == n && path_is_prefix(cs, q, n) {
                let key = vstd::slice::slice_to_vec(q[n].as_slice());
                assert(key@ == ns[j as int].path.last());
                proof {
                    assert(is_ascii_bytes(ns[j as int].path[n as int]));
                }
                let name = ascii_string(key.as_slice());
                let count = self.nodes[j].releases.len();
                assert(count == ns[j as int].releases.len());
                let entry = if count == 0 {
                    ListEntry::Dir(name, self.count_children_of(j))
                } else {
                    ListEntry::File(name, count)
                };
                assert(entry@ == entry_of(ns, ns[j as int])) by {
                    reveal(entry_of);
                }
                let item = Keyed { key, entry };
                proof {
                    assert forall|i: int| 0 <= i < out@.len() implies (
                    #[trigger] out@[i]).key_view() != item.key_view() by {
                        lemma_children_names(ns, csv, src[i], j as int);
                    }
                }
                let ghost before = out@;
                let pos = insert_sorted(&mut out, item);
                proof {
                    let old_src = src;
                    let old_place = place;
                    src = old_src.insert(pos as int, j as int);
                    place = Seq::new(
                        (j + 1) as nat,
                        |t: int|
                            if t == j {
                                pos as int
                            } else if old_place[t] >= pos {
                                old_place[t] + 1
                            } else {
                                old_place[t]
                            },
                    );
                    assert forall|i: int| 0 <= i < out@.len() implies {
                        let s = #[trigger] src[i];
                        &&& 0 <= s < j + 1
                        &&& is_child(csv, ns[s].path)
                        &&& out@[i].entry@ == entry_of(ns, ns[s])
                        &&& out@[i].key_view() == ns[s].path.last()
                    } by {
                        if i < pos {
                            assert(src[i] == old_src[i]);
                            assert(out@[i] == before[i]);
                        } else if i > pos {
                            assert(src[i] == old_src[i - 1]);
                            assert(out@[i] == before[i - 1]);
                        }
                    }
                    assert forall|t: int|
                        0 <= t < j + 1 && is_child(csv, #[trigger] ns[t].path) implies 0 <= place[t]
                        < out@.len() && src[place[t]] == t by {
                        if t < j {
                            assert(0 <= old_place[t] < before.len() && old_src[old_place[t]] == t);
                        }
                    }
                }
            } else {
                proof {
                    place = place.push(-1);
                }
            }
            j += 1;
        }
        proof {
            assert forall|i: int| 0 <= i < out@.len() implies exists|t: int|
                0 <= t < ns.len() && is_child(csv, ns[t].path) && (#[trigger] out@[i]).entry@
                    == entry_of(ns, ns[t]) && out@[i].key_view() == ns[t].path.last() by {
                let t = src[i];
            }
            assert(from_children(ns, csv, out@));
            assert forall|t: int|
                0 <= t < ns.len() && is_child(csv, #[trigger] ns[t].path) implies exists|i: int|
                0 <= i < out@.len() && out@[i].entry@ == entry_of(ns, ns[t]) by {
                let i = place[t];
            }
            assert(covers_children(ns, csv, out@));
        }
        out
    }

    /// The entries of the directory at `path`, in order of their names.
    pub fn list(&self, path: &str) -> (r: Result<List, VcsError>)
        requires
            self.wf(),
        ensures
            !valid_path(encode_utf8(path@)) ==> (r matches Err(e) && e == VcsError::InvalidPath),
            valid_path(encode_utf8(path@)) && missing_along(self@, components(encode_utf8(path@)))
                ==> (r matches Err(e) && e == VcsError::DirNotFound),
            valid_path(encode_utf8(path@)) && !missing_along(self@, components(encode_utf8(path@)))
                ==> (r matches Ok(l) && l.size() == l.remaining().len() && is_listing(
                self@,
                components(encode_utf8(path@)),
                l.remaining(),
            )),
    {
        let p = match Path::new(path.as_bytes()) {
            Ok(p) => p,
            Err(e) => {
                return Err(e);
            },
        };
        let cs = p.components();
        let ghost csv = cs.deep_view();
        let ghost ns = self@;
        if self.has_missing(&cs, cs.len()) {
            return Err(VcsError::DirNotFound);
        }
        let out = self.children(&cs);
        let ghost all = out@;
        let len = out.len();
        let entries = into_entries(out);
        let list = List { len, entries };
        proof {
            let es = list.remaining();
            assert forall|x: int| 0 <= x < es.len() implies es[x] == (#[trigger] all[x]).entry@ by {
                assert(es[x] == entries@[x]@);
            }
            assert(same_entries(all, es));
            lemma_listing(ns, csv, all, es);
        }
        Ok(list)
    }
}

/// Committed contents read back: after a commit that gives release `r`,
/// reading release `r` of the file, or its last release, gives the contents.
pub proof fn lemma_commit_then_get(ns: Seq<NodeView>, path: Seq<u8>, data: Seq<u8>)
    requires
        unique_paths(ns),
        commit_result(ns, path, data).0 is Ok,
    ensures
        ({
            let (res, after) = commit_result(ns, path, data);
            &&& unique_paths(after)
            &&& get_result(after, path, Some(res->Ok_0)) == Ok::<Seq<u8>, VcsError>(data)
            &&& get_result(after, path, None) == Ok::<Seq<u8>, VcsError>(data)
        }),
{
    let cs = components(path);
    let ds = add_dirs(ns, cs, 1);
    lemma_add_dirs(ns, cs, 1);
    let (res, after) = commit_result(ns, path, data);
    assert forall|i: int| 1 <= i < cs.len() implies has_node(after, #[trigger] cs.take(i)) by {
        assert(has_node(ds, cs.take(i)));
        let w = node_at(ds, cs.take(i));
        assert(after[w].path == ds[w].path);
    }
    if has_node(ds, cs) {
        let i = node_at(ds, cs);
        let rs = ds[i].releases;
        if !(rs.len() > 0 && rs.last() == data) {
            assert forall|a: int, b: int|
                0 <= a < after.len() && 0 <= b < after.len() && a != b implies #[trigger] after[a].path
                != #[trigger] after[b].path by {
                assert(ds[a].path != ds[b].path);
            }
        }
        lemma_node_at(after, cs, i);
    } else {
        assert forall|a: int, b: int|
            0 <= a < after.len() && 0 <= b < after.len() && a != b implies #[trigger] after[a].path
            != #[trigger] after[b].path by {
            if a < ds.len() && b < ds.len() {
                assert(ds[a].path != ds[b].path);
            } else if a < ds.len() {
                assert(ds[a].path != cs);
            } else if b < ds.len() {
                assert(ds[b].path != cs);
            }
        }
        lemma_node_at(after, cs, ds.len() as int);
    }
}

/// A commit keeps every node there was, under its path, with its earlier
/// releases in place.
proof fn lemma_commit_keeps_nodes(ns: Seq<NodeView>, path: Seq<u8>, data: Seq<u8>)
    requires
        unique_paths(ns),
    ensures
        ({
            let after = commit_result(ns, path, data).1;
            &&& unique_paths(after)
            &&& after.len() >= ns.len()
            &&& forall|w: int| 0 <= w < ns.len() ==> (#[trigger] after[w]).path == ns[w].path
            &&& forall|w: int, x: int|
                0 <= w < ns.len() && 0 <= x < ns[w].releases.len() ==> #[trigger] after[w].releases[x]
                    == ns[w].releases[x] && x < after[w].releases.len()
        }),
{
    let cs = components(path);
    if commit_result(ns, path, data).0 is Ok {
        lemma_commit_then_get(ns, path, data);
        lemma_add_dirs(ns, cs, 1);
        let ds = add_dirs(ns, cs, 1);
        let after = commit_result(ns, path, data).1;
        if has_node(ds, cs) {
            let i = node_at(ds, cs);
            let rs = ds[i].releases;
            if !(rs.len() > 0 && rs.last() == data) {
                assert forall|w: int, x: int|
                    0 <= w < ns.len() && 0 <= x < ns[w].releases.len() implies #[trigger] after[w].releases[x]
                    == ns[w].releases[x] && x < after[w].releases.len() by {
                    assert(ds[w] == ns[w]);
                    if w == i {
                        assert(after[w].releases == rs.push(data));
                    }
                }
                assert forall|w: int| 0 <= w < ns.len() implies (#[trigger] after[w]).path == ns[w].path by {
                    assert(ds[w] == ns[w]);
                }
            } else {
                assert forall|w: int| 0 <= w < ns.len() implies (#[trigger] after[w]).path == ns[w].path by {
                    assert(ds[w] == ns[w]);
                }
                assert forall|w: int, x: int|
                    0 <= w < ns.len() && 0 <= x < ns[w].releases.len() implies #[trigger] after[w].releases[x]
                    == ns[w].releases[x] && x < after[w].releases.len() by {
                    assert(ds[w] == ns[w]);
                }
            }
        } else {
            assert forall|w: int| 0 <= w < ns.len() implies (#[trigger] after[w]).path == ns[w].path by {
                assert(ds[w] == ns[w]);
                assert(after[w] == ds[w]);
            }
            assert forall|w: int, x: int|
                0 <= w < ns.len() && 0 <= x < ns[w].releases.len() implies #[trigger] after[w].releases[x]
                == ns[w].releases[x] && x < after[w].releases.len() by {
                assert(ds[w] == ns[w]);
                assert(after[w] == ds[w]);
            }
        }
    }
}

/// A commit keeps every release that could be read before as it was, of
/// the file committed to and of every other file: only a new release may
/// be added.
pub proof fn lemma_commit_keeps_earlier(ns: Seq<NodeView>, path: Seq<u8>, data: Seq<u8>, q: Seq<u8>, r: int)
    requires
        unique_paths(ns),
        get_result(ns, q, Some(r)) is Ok,
    ensures
        get_result(commit_result(ns, path, data).1, q, Some(r)) == get_result(ns, q, Some(r)),
{
    let after = commit_result(ns, path, data).1;
    let cq = components(q);
    lemma_commit_keeps_nodes(ns, path, data);
    let j = node_at(ns, cq);
    assert(after[j].path == cq);
    lemma_node_at(after, cq, j);
    assert forall|t: int| 1 <= t < cq.len() implies has_node(after, #[trigger] cq.take(t)) by {
        assert(has_node(ns, cq.take(t)));
        let w = node_at(ns, cq.take(t));
        assert(after[w].path == ns[w].path);
    }
    assert(!missing_dir(after, cq));
    assert(after[j].releases[r] == ns[j].releases[r]);
}

/// Committing the same contents twice gives the same release and leaves the
/// store as it was.
pub proof fn lemma_commit_twice(ns: Seq<NodeView>, path: Seq<u8>, data: Seq<u8>)
    requires
        unique_paths(ns),
        commit_result(ns, path, data).0 is Ok,
    ensures
        ({
            let (res, after) = commit_result(ns, path, data);
            commit_result(after, path, data) == (res, after)
        }),
{
    let cs = components(path);
    let ds = add_dirs(ns, cs, 1);
    lemma_add_dirs(ns, cs, 1);
    lemma_commit_then_get(ns, path, data);
    let (res, after) = commit_result(ns, path, data);
    assert forall|i: int| 1 <= i < cs.len() implies has_node(after, #[trigger] cs.take(i)) by {
        assert(has_node(ds, cs.take(i)));
        let w = node_at(ds, cs.take(i));
        assert(after[w].path == ds[w].path);
    }
    lemma_add_dirs_present(after, cs, 1);
    if has_node(ds, cs) {
        let i = node_at(ds, cs);
        lemma_node_at(after, cs, i);
    } else {
        lemma_node_at(after, cs, ds.len() as int);
    }
}

/// With every directory along `cs` present, adding directories changes
/// nothing.
proof fn lemma_add_dirs_present(ns: Seq<NodeView>, cs: Seq<Seq<u8>>, k: int)
    requires
        1 <= k,
        forall|i: int| 1 <= i < cs.len() ==> has_node(ns, #[trigger] cs.take(i)),
    ensures
        add_dirs(ns, cs, k) == ns,
    decreases cs.len() - k,
{
    if k < cs.len() {
        assert(has_node(ns, cs.take(k)));
        lemma_add_dirs_present(ns, cs, k + 1);
    }
}

/// A release number, counted from zero.
#[derive(Debug, PartialEq, Eq, Clone, Copy, Structural)]
pub struct Revision(pub usize);

impl From<usize> for Revision {
    fn from(value: usize) -> (r: Revision) {
        Revision(value)
    }
}

impl vstd::std_specs::convert::FromSpecImpl<usize> for Revision {
    open spec fn obeys_from_spec() -> bool {
        true
    }

    open spec fn from_spec(v: usize) -> Revision {
        Revision(v)
    }
}

} // verus!

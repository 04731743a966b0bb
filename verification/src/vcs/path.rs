//! Paths of the code store: `/dir/file`, made of letters, digits and `._-`,
//! with no empty component inside.
use vstd::prelude::*;

verus! {

#[derive(Debug, PartialEq, Eq, Clone, Copy, Structural)]
pub enum VcsError {
    FileNotFound,
    DirNotFound,
    ReleaseNotFound,
    InvalidPath,
    InvalidData,
}

impl VcsError {
    /// The error's text.
    pub fn message(&self) -> (r: &'static str)
        ensures
            r@ == vcs_error_text(*self),
    {
        match self {
            VcsError::FileNotFound => "file not found",
            VcsError::DirNotFound => "dir not found",
            VcsError::ReleaseNotFound => "release not found",
            VcsError::InvalidPath => "invalid path",
            VcsError::InvalidData => "invalid data",
        }
    }
}

pub open spec fn vcs_error_text(e: VcsError) -> Seq<char> {
    match e {
        VcsError::FileNotFound => "file not found"@,
        VcsError::DirNotFound => "dir not found"@,
        VcsError::ReleaseNotFound => "release not found"@,
        VcsError::InvalidPath => "invalid path"@,
        VcsError::InvalidData => "invalid data"@,
    }
}

/// A byte allowed in a path.
pub open spec fn is_path_byte(c: u8) -> bool {
    (48 <= c <= 57) || (65 <= c <= 90) || (97 <= c <= 122) || c == 46 || c == 95 || c == 45
        || c == 47
}

/// A path: it starts with '/', never holds two '/' in a row, and has only
/// letters, digits and `._-/`.
pub open spec fn valid_path(p: Seq<u8>) -> bool {
    &&& p.len() > 0
    &&& p[0] == 47
    &&& forall|i: int| 0 <= i < p.len() - 1 ==> !(p[i] == 47 && #[trigger] p[i + 1] == 47)
    &&& forall|i: int| 0 <= i < p.len() ==> is_path_byte(#[trigger] p[i])
}

/// The pieces of `b` between '/' bytes, empty pieces left out; `cur` is the
/// piece read so far.
pub open spec fn split_from(b: Seq<u8>, cur: Seq<u8>) -> Seq<Seq<u8>>
    decreases b.len(),
{
    let done = if cur.len() == 0 {
        Seq::<Seq<u8>>::empty()
    } else {
        seq![cur]
    };
    if b.len() == 0 {
        done
    } else if b[0] == 47 {
        done + split_from(b.drop_first(), Seq::empty())
    } else {
        split_from(b.drop_first(), cur.push(b[0]))
    }
}

/// The names along a path.
pub open spec fn components(p: Seq<u8>) -> Seq<Seq<u8>> {
    split_from(p, Seq::empty())
}

/// A path that names a directory ends with '/'.
pub open spec fn names_dir(p: Seq<u8>) -> bool {
    p.len() > 0 && p.last() == 47
}

/// A valid path of the store.
#[derive(Debug)]
pub struct Path(Vec<u8>);

impl Path {
    /// Every path that exists is valid.
    #[verifier::type_invariant]
    spec fn well_formed(self) -> bool {
        valid_path(self.0@)
    }

    /// The bytes of the path.
    pub fn as_bytes(&self) -> (r: &[u8])
        ensures
            r@ == self@,
            valid_path(self@),
    {
        proof {
            use_type_invariant(self);
        }
        self.0.as_slice()
    }
}

impl View for Path {
    type V = Seq<u8>;

    closed spec fn view(&self) -> Seq<u8> {
        self.0@
    }
}

fn is_path_byte_exec(c: u8) -> (r: bool)
    ensures
        r == is_path_byte(c),
{
    (48 <= c && c <= 57) || (65 <= c && c <= 90) || (97 <= c && c <= 122) || c == 46 || c == 95
        || c == 45 || c == 47
}

impl Path {
    /// Whether `path` is a valid path.
    pub fn is_valid(path: &[u8]) -> (r: bool)
        ensures
            r == valid_path(path@),
    {
        if path.len() == 0 || path[0] != 47 {
            return false;
        }
        let mut i: usize = 0;
        while i < path.len()
            invariant
                0 < path@.len(),
                path@[0] == 47,
                i <= path@.len(),
                forall|j: int| 0 <= j < i && j < path@.len() - 1 ==> !(path@[j] == 47 && #[trigger] path@[j
                    + 1] == 47),
                forall|j: int| 0 <= j < i ==> is_path_byte(#[trigger] path@[j]),
            decreases path@.len() - i,
        {
            let c = path[i];
            if !is_path_byte_exec(c) {
                return false;
            }
            if i + 1 < path.len() && c == 47 && path[i + 1] == 47 {
                return false;
            }
            i += 1;
        }
        true
    }

    /// The path, if `path` is valid.
    pub fn new(path: &[u8]) -> (r: Result<Path, VcsError>)
        ensures
            valid_path(path@) ==> (r matches Ok(p) && p@ == path@),
            !valid_path(path@) ==> r == Err::<Path, VcsError>(VcsError::InvalidPath),
    {
        if Self::is_valid(path) {
            Ok(Path(vstd::slice::slice_to_vec(path)))
        } else {
            Err(VcsError::InvalidPath)
        }
    }

    /// Whether the path names a directory.
    pub fn is_dir(&self) -> (r: bool)
        ensures
            r == names_dir(self@),
    {
        self.0.len() > 0 && self.0[self.0.len() - 1] == 47
    }

    /// The names along the path.
    pub fn components(&self) -> (r: Vec<Vec<u8>>)
        ensures
            r.deep_view() == components(self@),
    {
        let ghost b = self@;
        let mut r: Vec<Vec<u8>> = Vec::new();
        let mut cur: Vec<u8> = Vec::new();
        let mut i: usize = 0;
        assert(b.skip(0) =~= b);
        while i < self.0.len()
            invariant
                b == self@,
                i <= b.len(),
                r.deep_view() + split_from(b.skip(i as int), cur@) == components(b),
            decreases b.len() - i,
        {
            let c = self.0[i];
            assert(b.skip(i as int).drop_first() =~= b.skip(i + 1));
            assert(b.skip(i as int)[0] == c);
            if c == 47 {
                if cur.len() > 0 {
                    let ghost before = r.deep_view();
                    let ghost piece = cur@;
                    assert(cur.deep_view() =~= piece);
                    r.push(cur);
                    assert(r.deep_view() =~= before + seq![piece]);
                    assert(before + seq![piece] + split_from(b.skip(i + 1), Seq::empty())
                        =~= before + (seq![piece] + split_from(b.skip(i + 1), Seq::empty())));
                } else {
                    assert(Seq::<Seq<u8>>::empty() + split_from(b.skip(i + 1), Seq::empty())
                        =~= split_from(b.skip(i + 1), Seq::empty()));
                }
                cur = Vec::new();
            } else {
                cur.push(c);
            }
            i += 1;
        }
        assert(b.skip(i as int) =~= Seq::<u8>::empty());
        if cur.len() > 0 {
            let ghost before = r.deep_view();
            let ghost piece = cur@;
            assert(cur.deep_view() =~= piece);
            r.push(cur);
            assert(r.deep_view() =~= before + seq![piece]);
        } else {
            assert(r.deep_view() + Seq::<Seq<u8>>::empty() =~= r.deep_view());
        }
        r
    }
}

} // verus!

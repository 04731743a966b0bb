use protohackers::vcs::path::{Path, VcsError};
use protohackers::vcs::store::{ListEntry, Vcs};

fn put(vcs: &mut Vcs, path: &str, data: &[u8]) -> Result<usize, VcsError> {
    let mut write = vcs.put(path).unwrap();
    write.write(data);
    write.commit(vcs)
}

fn read_all(vcs: &Vcs, path: &str, revision: Option<usize>) -> Result<Vec<u8>, VcsError> {
    let mut read = match revision {
        Some(r) => vcs.get_revision(path, r)?,
        None => vcs.get_current_revision(path)?,
    };
    let n = read.len();
    Ok(read.read(n))
}

#[test]
fn test_simple_list() {
    let vcs = Vcs::new();

    assert_eq!(vcs.list("/").unwrap().len(), 0);
}

#[test]
fn test_is_valid() {
    Path::new("/e4oq1-HLbqZW77rFpqerxYCBm7oPI-mkWXXYLC5C6-KRPp7lwXb_f_YUyVH-t4w53oKLzUhKTmqcfdHV_zX8ESbJv9tghYEnoew_lXGVEirTq3t.m_NyUMbW-pq9zXYpRwuDoK7pTtP47mhD-vlbnVLkspE5/cDoC.yg/-wagwgLrifbiR9vkdcD5y5-XZ1e6T/eRXRuLhcRecptRO6sx.GCoBw9KgRXWEKfgvWKeEODullCe".as_bytes()).unwrap();
}

#[test]
fn test_simple_put() {
    let mut vcs = Vcs::new();

    let mut write = vcs.put("/test").unwrap();

    assert_eq!(vcs.list("/").unwrap().len(), 0);

    write.write(b"Hello World!");

    assert_eq!(vcs.list("/").unwrap().len(), 0);

    write.commit(&mut vcs).unwrap();

    assert_eq!(vcs.list("/").unwrap().len(), 1);
    assert_eq!(
        vcs.list("/").unwrap().next().unwrap(),
        ListEntry::File("test".to_string(), 1)
    );
}

#[test]
fn test_same_put() {
    let mut vcs = Vcs::new();

    let r = put(&mut vcs, "/test", b"Hello World!").unwrap();
    assert_eq!(put(&mut vcs, "/test", b"Hello World!").unwrap(), r);

    assert_eq!(vcs.list("/").unwrap().len(), 1);
    assert_eq!(
        vcs.list("/").unwrap().next().unwrap(),
        ListEntry::File("test".to_string(), 1)
    );
}

#[test]
fn test_simple_get_current_revision() {
    let mut vcs = Vcs::new();

    put(&mut vcs, "/test", b"Hello World!").unwrap();

    assert_eq!(
        b"Hello World!".as_slice(),
        read_all(&vcs, "/test", None).unwrap().as_slice()
    );
}

#[test]
fn test_simple_get_current_revision_2() {
    let mut vcs = Vcs::new();

    put(&mut vcs, "/test", b"Hello World! 1").unwrap();
    put(&mut vcs, "/test", b"Hello World! 2").unwrap();

    assert_eq!(
        b"Hello World! 2".as_slice(),
        read_all(&vcs, "/test", None).unwrap().as_slice()
    );
}

#[test]
fn test_simple_get_current_revision_1() {
    let mut vcs = Vcs::new();

    put(&mut vcs, "/test", b"Hello World! 1").unwrap();
    put(&mut vcs, "/test", b"Hello World! 2").unwrap();

    assert_eq!(
        b"Hello World! 1".as_slice(),
        read_all(&vcs, "/test", Some(0)).unwrap().as_slice()
    );

    let mut list = vcs.list("/").unwrap();
    let mut entries = vec![];
    while let Some(e) = list.next() {
        entries.push(e);
    }
    assert_eq!(entries, vec![ListEntry::File("test".to_string(), 2)]);
}

#[test]
fn test_simple_get_current_revision_invalid() {
    let mut vcs = Vcs::new();

    put(&mut vcs, "/test", b"Hello World! 1").unwrap();
    put(&mut vcs, "/test", b"Hello World! 2").unwrap();

    assert_eq!(
        VcsError::ReleaseNotFound,
        read_all(&vcs, "/test", Some(3)).unwrap_err()
    );
}

#[test]
fn test_nexted_put() {
    let mut vcs = Vcs::new();

    let mut write = vcs.put("/dir/test").unwrap();

    assert_eq!(vcs.list("/").unwrap().len(), 0);

    write.write(b"Hello World!");

    assert_eq!(vcs.list("/").unwrap().len(), 0);

    write.commit(&mut vcs).unwrap();

    assert_eq!(vcs.list("/").unwrap().len(), 1);
    assert_eq!(
        vcs.list("/").unwrap().next().unwrap(),
        ListEntry::Dir("dir".to_string(), 1)
    );

    assert_eq!(vcs.list("/dir").unwrap().len(), 1);
    assert_eq!(
        vcs.list("/dir").unwrap().next().unwrap(),
        ListEntry::File("test".to_string(), 1)
    );
}

#[test]
fn test_nexted_put_valid() {
    let mut vcs = Vcs::new();

    put(&mut vcs, "/dir/test", b"Hello World!").unwrap();

    assert_eq!(Ok(0), put(&mut vcs, "/dir", b"Hello World!"));
}

#[test]
fn invalid_paths_are_refused() {
    assert_eq!(Path::new(b"test").unwrap_err(), VcsError::InvalidPath);
    assert_eq!(Path::new(b"//test").unwrap_err(), VcsError::InvalidPath);
    assert!(!Path::is_valid(b"/a b"));
    assert!(Path::is_valid(b"/a/b.c-d_e"));
    assert!(Path::new(b"/dir/").unwrap().is_dir());
    assert!(!Path::new(b"/dir/file").unwrap().is_dir());
}

#[test]
fn missing_file_is_not_found() {
    let vcs = Vcs::new();
    assert_eq!(read_all(&vcs, "/nothing", None).unwrap_err(), VcsError::FileNotFound);
}

#[test]
fn error_messages() {
    assert_eq!(VcsError::FileNotFound.message(), "file not found");
    assert_eq!(VcsError::ReleaseNotFound.message(), "release not found");
}

#[test]
fn entries_are_ordered_by_name_alone() {
    let a_file = ListEntry::File("a".to_string(), 9);
    let b_dir = ListEntry::Dir("b".to_string(), 0);
    assert!(a_file < b_dir);
    assert!(b_dir > a_file);
    assert_eq!(ListEntry::Dir("dir".to_string(), 1).name(), "dir");
    assert_eq!(ListEntry::File("test".to_string(), 2).name(), "test");
    assert_eq!(
        ListEntry::File("x".to_string(), 1).partial_cmp(&ListEntry::Dir("x".to_string(), 3)),
        Some(std::cmp::Ordering::Equal)
    );
    assert!(ListEntry::File("ab".to_string(), 1) < ListEntry::File("b".to_string(), 1));
    assert!(ListEntry::File("a".to_string(), 1) < ListEntry::File("ab".to_string(), 1));
}

#[test]
fn a_commit_keeps_earlier_releases() {
    let mut vcs = Vcs::default();
    assert_eq!(put(&mut vcs, "/d/f", b"one"), Ok(0));
    assert_eq!(put(&mut vcs, "/g", b"other"), Ok(0));
    assert_eq!(put(&mut vcs, "/d/f", b"two"), Ok(1));
    assert_eq!(put(&mut vcs, "/d/f", b"two"), Ok(1));
    assert_eq!(read_all(&vcs, "/d/f", Some(0)), Ok(b"one".to_vec()));
    assert_eq!(read_all(&vcs, "/d/f", Some(1)), Ok(b"two".to_vec()));
    assert_eq!(read_all(&vcs, "/g", Some(0)), Ok(b"other".to_vec()));
}

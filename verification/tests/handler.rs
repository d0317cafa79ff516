//! Dispatcher behaviour on the reference two-entry filesystem.

use hellofs::table::StaticFs;
use hellofs::types::{FileKind, FsError, Operation, Reply};

fn hello_fs() -> StaticFs {
    StaticFs::hello(1000, 1000)
}

fn decode(buf: &[u8]) -> Vec<(u64, u64, u32, Vec<u8>)> {
    let mut out = Vec::new();
    let mut p = 0usize;
    while p < buf.len() {
        assert!(buf.len() - p >= 24, "truncated entry header");
        let ino = u64::from_le_bytes(buf[p..p + 8].try_into().unwrap());
        let off = u64::from_le_bytes(buf[p + 8..p + 16].try_into().unwrap());
        let namelen = u32::from_le_bytes(buf[p + 16..p + 20].try_into().unwrap()) as usize;
        let typ = u32::from_le_bytes(buf[p + 20..p + 24].try_into().unwrap());
        let total = (24 + namelen + 7) / 8 * 8;
        assert!(buf.len() - p >= total, "truncated entry record");
        let name = buf[p + 24..p + 24 + namelen].to_vec();
        out.push((ino, off, typ, name));
        p += total;
    }
    out
}

#[test]
fn lookup_hello_returns_file_attribute() {
    let fs = hello_fs();
    let r = fs.call(Operation::Lookup { parent: 1, name: b"hello.txt".to_vec() });
    match r {
        Ok(Reply::Entry(a)) => {
            assert_eq!(a.ino, 2);
            assert_eq!(a.kind, FileKind::RegularFile);
            assert_eq!(a.size, 14);
            assert_eq!(a.mode, 0o100444);
            assert_eq!(a.nlink, 1);
            assert_eq!(a.uid, 1000);
            assert_eq!(a.gid, 1000);
        }
        other => panic!("expected an entry reply, got {:?}", other.is_ok()),
    }
}

#[test]
fn lookup_missing_name_is_not_found() {
    let fs = hello_fs();
    let r = fs.call(Operation::Lookup { parent: 1, name: b"missing.txt".to_vec() });
    assert!(matches!(r, Err(FsError::NotFound)));
}

#[test]
fn lookup_under_file_is_not_a_directory() {
    let fs = hello_fs();
    let r = fs.call(Operation::Lookup { parent: 2, name: b"x".to_vec() });
    assert!(matches!(r, Err(FsError::NotADirectory)));
}

#[test]
fn lookup_under_unknown_parent_is_not_found() {
    let fs = hello_fs();
    let r = fs.call(Operation::Lookup { parent: 9, name: b"hello.txt".to_vec() });
    assert!(matches!(r, Err(FsError::NotFound)));
}

#[test]
fn lookup_dot_and_dotdot_name_the_root() {
    let fs = hello_fs();
    for name in [b".".to_vec(), b"..".to_vec()] {
        match fs.call(Operation::Lookup { parent: 1, name }) {
            Ok(Reply::Entry(a)) => {
                assert_eq!(a.ino, 1);
                assert_eq!(a.kind, FileKind::Directory);
            }
            _ => panic!("expected the root's attribute"),
        }
    }
}

#[test]
fn getattr_root_directory() {
    let fs = hello_fs();
    match fs.call(Operation::GetAttr { ino: 1 }) {
        Ok(Reply::Attr(a)) => {
            assert_eq!(a.ino, 1);
            assert_eq!(a.kind, FileKind::Directory);
            assert_eq!(a.mode, 0o040555);
            assert_eq!(a.nlink, 2);
            assert_eq!(a.size, 0);
        }
        _ => panic!("expected an attribute reply"),
    }
}

#[test]
fn getattr_unknown_inodes_not_found() {
    let fs = hello_fs();
    for ino in [0u64, 3, 17, u64::MAX] {
        let r = fs.call(Operation::GetAttr { ino });
        assert!(matches!(r, Err(FsError::NotFound)), "inode {}", ino);
    }
}

#[test]
fn getattr_is_stable_across_calls() {
    let fs = hello_fs();
    for ino in [1u64, 2] {
        let a = fs.attributes_for(ino).unwrap();
        let b = fs.attributes_for(ino).unwrap();
        assert_eq!(a, b);
        let c = fs.attributes_for(ino).unwrap();
        assert_eq!(a, c);
    }
}

#[test]
fn readdir_lists_three_entries() {
    let fs = hello_fs();
    match fs.call(Operation::ReadDir { ino: 1, offset: 0, max_size: 4096 }) {
        Ok(Reply::Dir(buf)) => {
            let got = decode(&buf);
            assert_eq!(got.len(), 3);
            assert_eq!(got[0], (1, 1, 4, b".".to_vec()));
            assert_eq!(got[1], (1, 2, 4, b"..".to_vec()));
            assert_eq!(got[2], (2, 3, 8, b"hello.txt".to_vec()));
        }
        _ => panic!("expected a listing reply"),
    }
}

#[test]
fn readdir_on_file_is_not_a_directory() {
    let fs = hello_fs();
    let r = fs.call(Operation::ReadDir { ino: 2, offset: 0, max_size: 4096 });
    assert!(matches!(r, Err(FsError::NotADirectory)));
}

#[test]
fn readdir_on_unknown_inode_is_not_found() {
    let fs = hello_fs();
    let r = fs.call(Operation::ReadDir { ino: 5, offset: 0, max_size: 4096 });
    assert!(matches!(r, Err(FsError::NotFound)));
}

#[test]
fn read_middle_of_file() {
    let fs = hello_fs();
    match fs.call(Operation::Read { ino: 2, offset: 7, max_len: 100 }) {
        Ok(Reply::Data(d)) => assert_eq!(d, b"world!\n".to_vec()),
        _ => panic!("expected data"),
    }
}

#[test]
fn read_clamps_to_max_len() {
    let fs = hello_fs();
    match fs.call(Operation::Read { ino: 2, offset: 0, max_len: 5 }) {
        Ok(Reply::Data(d)) => assert_eq!(d, b"Hello".to_vec()),
        _ => panic!("expected data"),
    }
}

#[test]
fn read_at_end_is_empty() {
    let fs = hello_fs();
    match fs.call(Operation::Read { ino: 2, offset: 14, max_len: 10 }) {
        Ok(Reply::Data(d)) => assert!(d.is_empty()),
        _ => panic!("expected empty data, not an error"),
    }
}

#[test]
fn read_past_end_is_empty() {
    let fs = hello_fs();
    match fs.call(Operation::Read { ino: 2, offset: 1000, max_len: 10 }) {
        Ok(Reply::Data(d)) => assert!(d.is_empty()),
        _ => panic!("expected empty data, not an error"),
    }
}

#[test]
fn read_root_is_a_directory() {
    let fs = hello_fs();
    let r = fs.call(Operation::Read { ino: 1, offset: 0, max_len: 10 });
    assert!(matches!(r, Err(FsError::IsADirectory)));
}

#[test]
fn read_unknown_inode_is_not_found() {
    let fs = hello_fs();
    let r = fs.call(Operation::Read { ino: 7, offset: 0, max_len: 10 });
    assert!(matches!(r, Err(FsError::NotFound)));
}

#[test]
fn unsupported_operation_degrades_gracefully() {
    let fs = hello_fs();
    let r = fs.call(Operation::Other);
    assert!(matches!(r, Err(FsError::Unsupported)));
    let again = fs.call(Operation::GetAttr { ino: 1 });
    assert!(again.is_ok(), "an unsupported operation must not poison the table");
}

#[test]
fn lookup_matches_every_listed_name() {
    let fs = hello_fs();
    let buf = match fs.call(Operation::ReadDir { ino: 1, offset: 0, max_size: 4096 }) {
        Ok(Reply::Dir(buf)) => buf,
        _ => panic!("expected a listing reply"),
    };
    for (ino, _off, typ, name) in decode(&buf) {
        match fs.call(Operation::Lookup { parent: 1, name: name.clone() }) {
            Ok(Reply::Entry(a)) => {
                assert_eq!(a.ino, ino, "name {:?}", name);
                let code = match a.kind {
                    FileKind::Directory => 4,
                    FileKind::RegularFile => 8,
                };
                assert_eq!(code, typ, "name {:?}", name);
            }
            _ => panic!("listed name {:?} must resolve", name),
        }
    }
}

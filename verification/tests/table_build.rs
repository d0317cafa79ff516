//! Construction-time validation of the static table.

use hellofs::table::{FileNode, StaticFs};
use hellofs::types::{FileKind, Operation, Reply};

fn node(ino: u64, name: &[u8]) -> FileNode {
    FileNode { ino, name: name.to_vec(), content: b"x".to_vec() }
}

#[test]
fn build_accepts_a_valid_set() {
    let fs = StaticFs::new(10, 20, vec![node(2, b"a.txt"), node(3, b"b.txt")]).unwrap();
    match fs.call(Operation::GetAttr { ino: 3 }) {
        Ok(Reply::Attr(a)) => {
            assert_eq!(a.ino, 3);
            assert_eq!(a.kind, FileKind::RegularFile);
            assert_eq!(a.size, 1);
            assert_eq!(a.uid, 10);
            assert_eq!(a.gid, 20);
        }
        _ => panic!("expected an attribute reply"),
    }
}

#[test]
fn build_accepts_an_empty_set() {
    let fs = StaticFs::new(0, 0, vec![]).unwrap();
    assert!(fs.call(Operation::GetAttr { ino: 1 }).is_ok());
    assert!(fs.call(Operation::GetAttr { ino: 2 }).is_err());
}

#[test]
fn build_rejects_reserved_inodes() {
    assert!(StaticFs::new(0, 0, vec![node(1, b"a")]).is_none());
    assert!(StaticFs::new(0, 0, vec![node(0, b"a")]).is_none());
}

#[test]
fn build_rejects_duplicate_inode() {
    assert!(StaticFs::new(0, 0, vec![node(2, b"a"), node(2, b"b")]).is_none());
}

#[test]
fn build_rejects_duplicate_name() {
    assert!(StaticFs::new(0, 0, vec![node(2, b"a"), node(3, b"a")]).is_none());
}

#[test]
fn build_rejects_bad_names() {
    assert!(StaticFs::new(0, 0, vec![node(2, b"")]).is_none());
    assert!(StaticFs::new(0, 0, vec![node(2, b"a\0b")]).is_none());
    assert!(StaticFs::new(0, 0, vec![node(2, b".")]).is_none());
    assert!(StaticFs::new(0, 0, vec![node(2, b"..")]).is_none());
}

#[test]
fn listing_keeps_construction_order() {
    let fs = StaticFs::new(0, 0, vec![node(5, b"zz"), node(2, b"aa"), node(9, b"mm")]).unwrap();
    let entries = fs.list(1).unwrap();
    let names: Vec<&[u8]> = entries.iter().map(|e| e.name.as_slice()).collect();
    assert_eq!(names, vec![b".".as_slice(), b"..", b"zz", b"aa", b"mm"]);
    let offs: Vec<u64> = entries.iter().map(|e| e.off).collect();
    assert_eq!(offs, vec![1, 2, 3, 4, 5]);
    assert_eq!(entries[2].ino, 5);
    assert_eq!(entries[3].ino, 2);
    assert_eq!(entries[4].ino, 9);
}

#[test]
fn resolve_works_on_a_larger_table() {
    let fs = StaticFs::new(0, 0, vec![node(5, b"zz"), node(2, b"aa"), node(9, b"mm")]).unwrap();
    assert_eq!(fs.resolve(1, b"aa"), Ok(2));
    assert_eq!(fs.resolve(1, b"mm"), Ok(9));
    assert_eq!(fs.resolve(1, b"."), Ok(1));
    assert!(fs.resolve(1, b"qq").is_err());
    assert!(fs.resolve(5, b"aa").is_err());
}

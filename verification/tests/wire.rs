//! The directory-entry wire format and the resumable bounded encoder.

use hellofs::dirent::{ent_size, push_entry};
use hellofs::encode::encode_entries;
use hellofs::table::StaticFs;
use hellofs::types::{DirEntry, FileKind, Operation, Reply};

fn decode(buf: &[u8]) -> Vec<(u64, u64, u32, Vec<u8>)> {
    let mut out = Vec::new();
    let mut p = 0usize;
    while p < buf.len() {
        assert!(buf.len() - p >= 24, "truncated entry header");
        let ino = u64::from_le_bytes(buf[p..p + 8].try_into().unwrap());
        let off = u64::from_le_bytes(buf[p + 8..p + 16].try_into().unwrap());
        let namelen = u32::from_le_bytes(buf[p + 16..p + 20].try_into().unwrap()) as usize;
        let typ = u32::from_le_bytes(buf[p + 20..p + 24].try_into().unwrap());
        let total = (24 + namelen + 7) / 8 * 8;
        assert!(buf.len() - p >= total, "truncated entry record");
        let name = buf[p + 24..p + 24 + namelen].to_vec();
        out.push((ino, off, typ, name));
        p += total;
    }
    out
}

fn root_listing(fs: &StaticFs) -> Vec<DirEntry> {
    fs.list(1).unwrap()
}

#[test]
fn single_entry_exact_bytes() {
    let mut buf: Vec<u8> = Vec::new();
    let e = DirEntry { name: b"hello".to_vec(), ino: 1, kind: FileKind::RegularFile, off: 42 };
    push_entry(&mut buf, &e);
    assert_eq!(buf.len(), 32);
    assert_eq!(
        buf,
        vec![
            0x01, 0x00, 0x00, 0x00, 0x00, 0x00, 0x00, 0x00, // ino
            0x2a, 0x00, 0x00, 0x00, 0x00, 0x00, 0x00, 0x00, // off
            0x05, 0x00, 0x00, 0x00, // name length
            0x08, 0x00, 0x00, 0x00, // type code
            0x68, 0x65, 0x6c, 0x6c, 0x6f, // name
            0x00, 0x00, 0x00, // padding
        ]
    );
}

#[test]
fn entry_padded_to_alignment_unit() {
    let mut buf: Vec<u8> = Vec::new();
    let e = DirEntry { name: b"hello.txt".to_vec(), ino: 2, kind: FileKind::RegularFile, off: 3 };
    push_entry(&mut buf, &e);
    assert_eq!(buf.len(), 40);
    assert_eq!(&buf[24..33], b"hello.txt");
    assert_eq!(&buf[33..40], &[0u8; 7]);
}

#[test]
fn ent_size_rounds_up() {
    assert_eq!(ent_size(1), 32);
    assert_eq!(ent_size(5), 32);
    assert_eq!(ent_size(8), 32);
    assert_eq!(ent_size(9), 40);
    assert_eq!(ent_size(16), 40);
    assert_eq!(ent_size(17), 48);
}

#[test]
fn encoder_emits_whole_listing_with_large_budget() {
    let fs = StaticFs::hello(0, 0);
    let entries = root_listing(&fs);
    let buf = encode_entries(&entries, 0, usize::MAX);
    let got = decode(&buf);
    assert_eq!(got.len(), 3);
    assert_eq!(got[0].3, b".".to_vec());
    assert_eq!(got[1].3, b"..".to_vec());
    assert_eq!(got[2].3, b"hello.txt".to_vec());
}

#[test]
fn encoder_resumes_without_loss_or_repetition() {
    let fs = StaticFs::hello(0, 0);
    let entries = root_listing(&fs);
    let full = decode(&encode_entries(&entries, 0, usize::MAX));

    // The smallest budget that fits any single record of this listing.
    let per_call = entries.iter().map(|e| ent_size(e.name.len())).max().unwrap();
    let mut chained = Vec::new();
    let mut cursor = 0u64;
    loop {
        let buf = encode_entries(&entries, cursor, per_call);
        let part = decode(&buf);
        if part.is_empty() {
            break;
        }
        cursor = part.last().unwrap().1;
        chained.extend(part);
    }
    assert_eq!(chained, full);
}

#[test]
fn encoder_never_emits_partial_entries() {
    let fs = StaticFs::hello(0, 0);
    let entries = root_listing(&fs);
    let full = decode(&encode_entries(&entries, 0, usize::MAX));
    for max in 0..=200usize {
        for start in 0..=4u64 {
            let buf = encode_entries(&entries, start, max);
            // `decode` panics on any truncated record.
            let got = decode(&buf);
            assert!(buf.len() <= max);
            // What comes back is a contiguous run of the listing past the cursor.
            let expect: Vec<_> = full.iter().filter(|e| e.1 > start).cloned().collect();
            assert!(got.len() <= expect.len());
            assert_eq!(got[..], expect[..got.len()]);
        }
    }
}

#[test]
fn encoder_with_tiny_budget_is_empty_not_an_error() {
    let fs = StaticFs::hello(0, 0);
    let entries = root_listing(&fs);
    for max in 0..32usize {
        assert!(encode_entries(&entries, 0, max).is_empty());
    }
}

#[test]
fn encoder_past_end_is_empty() {
    let fs = StaticFs::hello(0, 0);
    let entries = root_listing(&fs);
    assert!(encode_entries(&entries, 3, 4096).is_empty());
    assert!(encode_entries(&entries, 1000, 4096).is_empty());
}

#[test]
fn readdir_resumes_through_the_dispatcher() {
    let fs = StaticFs::hello(0, 0);
    let one_call = match fs.call(Operation::ReadDir { ino: 1, offset: 0, max_size: 4096 }) {
        Ok(Reply::Dir(buf)) => decode(&buf),
        _ => panic!("expected a listing reply"),
    };
    let mut chained = Vec::new();
    let mut cursor = 0u64;
    loop {
        let buf = match fs.call(Operation::ReadDir { ino: 1, offset: cursor, max_size: 40 }) {
            Ok(Reply::Dir(buf)) => buf,
            _ => panic!("expected a listing reply"),
        };
        let part = decode(&buf);
        if part.is_empty() {
            break;
        }
        cursor = part.last().unwrap().1;
        chained.extend(part);
    }
    assert_eq!(chained, one_call);
}

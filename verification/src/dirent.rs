//! The directory-entry wire format.
//!
//! One entry is encoded as a fixed 24-byte header (inode, resumption offset,
//! name length, type code, all little-endian) followed by the name bytes,
//! zero-padded so that the total is a multiple of the 8-byte alignment unit.
//! A listing buffer is the concatenation of such records.  The format is
//! specified by `encode_ent` / `encode_list`, and `decode_list` recovers the
//! entries; the round-trip lemma at the bottom shows that a buffer built from
//! whole entries decodes to exactly those entries.

use vstd::prelude::*;

use crate::types::{DirEntry, EntV, FileKind};

verus! {

/// Byte length of the fixed per-entry header.
pub const ENT_HEADER_LEN: usize = 24;

/// Alignment unit of an encoded entry.
pub const ENT_ALIGN: usize = 8;

/// Type code carried by an encoded directory entry.
pub const ENT_CODE_DIRECTORY: u32 = 4;

/// Type code carried by an encoded regular-file entry.
pub const ENT_CODE_REGULAR: u32 = 8;

/// An entry can be encoded: its name length (plus header and maximal
/// padding) fits the header's 32-bit name-length field.
pub open spec fn ent_wf(e: EntV) -> bool {
    e.name.len() + 31 <= u32::MAX
}

/// Zero bytes appended after the name so the record length is a multiple of
/// the alignment unit.
pub open spec fn pad_len(m: int) -> int {
    if m % 8 == 0 {
        0
    } else {
        8 - m % 8
    }
}

/// Total encoded length of an entry whose name has `name_len` bytes.
pub open spec fn ent_size_spec(name_len: int) -> int {
    24 + name_len + pad_len(24 + name_len)
}

/// The type code of a file kind.
pub open spec fn kind_code(k: FileKind) -> u32 {
    match k {
        FileKind::Directory => ENT_CODE_DIRECTORY,
        FileKind::RegularFile => ENT_CODE_REGULAR,
    }
}

/// The file kind denoted by a type code, if any.
pub open spec fn kind_of_code(c: u32) -> Option<FileKind> {
    if c == ENT_CODE_DIRECTORY {
        Some(FileKind::Directory)
    } else if c == ENT_CODE_REGULAR {
        Some(FileKind::RegularFile)
    } else {
        None
    }
}

/// The eight bytes of `x`, least significant first.
pub open spec fn le_bytes64(x: u64) -> Seq<u8> {
    seq![
        (x & 0xff) as u8,
        ((x >> 8) & 0xff) as u8,
        ((x >> 16) & 0xff) as u8,
        ((x >> 24) & 0xff) as u8,
        ((x >> 32) & 0xff) as u8,
        ((x >> 40) & 0xff) as u8,
        ((x >> 48) & 0xff) as u8,
        ((x >> 56) & 0xff) as u8,
    ]
}

/// The four bytes of `x`, least significant first.
pub open spec fn le_bytes32(x: u32) -> Seq<u8> {
    seq![
        (x & 0xff) as u8,
        ((x >> 8) & 0xff) as u8,
        ((x >> 16) & 0xff) as u8,
        ((x >> 24) & 0xff) as u8,
    ]
}

/// The 64-bit value stored little-endian at `pos`.
pub open spec fn u64_at(b: Seq<u8>, pos: int) -> u64 {
    (b[pos] as u64) | ((b[pos + 1] as u64) << 8) | ((b[pos + 2] as u64) << 16) | ((b[pos + 3]
        as u64) << 24) | ((b[pos + 4] as u64) << 32) | ((b[pos + 5] as u64) << 40) | ((b[pos + 6]
        as u64) << 48) | ((b[pos + 7] as u64) << 56)
}

/// The 32-bit value stored little-endian at `pos`.
pub open spec fn u32_at(b: Seq<u8>, pos: int) -> u32 {
    (b[pos] as u32) | ((b[pos + 1] as u32) << 8) | ((b[pos + 2] as u32) << 16) | ((b[pos + 3]
        as u32) << 24)
}

/// `n` zero bytes.
pub open spec fn zero_bytes(n: int) -> Seq<u8> {
    Seq::new(n as nat, |i: int| 0u8)
}

/// The encoding of one directory entry.
pub open spec fn encode_ent(e: EntV) -> Seq<u8> {
    le_bytes64(e.ino) + le_bytes64(e.off) + le_bytes32(e.name.len() as u32) + le_bytes32(
        kind_code(e.kind),
    ) + e.name + zero_bytes(pad_len(24 + e.name.len() as int))
}

/// The encoding of a sequence of entries: their records, concatenated.
pub open spec fn encode_list(es: Seq<EntV>) -> Seq<u8>
    decreases es.len(),
{
    if es.len() == 0 {
        Seq::empty()
    } else {
        encode_ent(es.first()) + encode_list(es.drop_first())
    }
}

/// Decodes a buffer into directory entries.  `None` means the buffer is not
/// a whole number of well-formed records.
pub open spec fn decode_list(b: Seq<u8>) -> Option<Seq<EntV>>
    decreases b.len(),
{
    if b.len() == 0 {
        Some(Seq::empty())
    } else if b.len() < 24 {
        None
    } else {
        let name_len = u32_at(b, 16) as int;
        let total = ent_size_spec(name_len);
        if b.len() < total {
            None
        } else {
            match kind_of_code(u32_at(b, 20)) {
                None => None,
                Some(kind) => {
                    let e = EntV {
                        name: b.subrange(24, 24 + name_len),
                        ino: u64_at(b, 0),
                        kind: kind,
                        off: u64_at(b, 8),
                    };
                    match decode_list(b.skip(total)) {
                        None => None,
                        Some(rest) => Some(seq![e] + rest),
                    }
                },
            }
        }
    }
}

/// The encoding of one entry has exactly its stated size.
pub proof fn lemma_encode_ent_len(e: EntV)
    ensures
        encode_ent(e).len() == ent_size_spec(e.name.len() as int),
{
}

/// Recombining the little-endian bytes of a 64-bit value gives it back.
pub proof fn lemma_le64_round(x: u64)
    ensures
        u64_at(le_bytes64(x), 0) == x,
{
    let b = le_bytes64(x);
    assert(((x & 0xff) as u8 as u64) | ((((x >> 8) & 0xff) as u8 as u64) << 8) | ((((x >> 16)
        & 0xff) as u8 as u64) << 16) | ((((x >> 24) & 0xff) as u8 as u64) << 24) | ((((x >> 32)
        & 0xff) as u8 as u64) << 32) | ((((x >> 40) & 0xff) as u8 as u64) << 40) | ((((x >> 48)
        & 0xff) as u8 as u64) << 48) | ((((x >> 56) & 0xff) as u8 as u64) << 56) == x)
        by (bit_vector);
}

/// Recombining the little-endian bytes of a 32-bit value gives it back.
pub proof fn lemma_le32_round(x: u32)
    ensures
        u32_at(le_bytes32(x), 0) == x,
{
    let b = le_bytes32(x);
    assert(((x & 0xff) as u8 as u32) | ((((x >> 8) & 0xff) as u8 as u32) << 8) | ((((x >> 16)
        & 0xff) as u8 as u32) << 16) | ((((x >> 24) & 0xff) as u8 as u32) << 24) == x)
        by (bit_vector);
}

/// Reading a 64-bit field at the front of a concatenation sees the prefix.
pub proof fn lemma_u64_at_prefix(x: u64, tail: Seq<u8>)
    ensures
        u64_at(le_bytes64(x) + tail, 0) == x,
{
    lemma_le64_round(x);
    let a = le_bytes64(x);
    let b = a + tail;
    assert(b[0] == a[0] && b[1] == a[1] && b[2] == a[2] && b[3] == a[3] && b[4] == a[4] && b[5]
        == a[5] && b[6] == a[6] && b[7] == a[7]);
}

/// Reading a 32-bit field at the front of a concatenation sees the prefix.
pub proof fn lemma_u32_at_prefix(x: u32, tail: Seq<u8>)
    ensures
        u32_at(le_bytes32(x) + tail, 0) == x,
{
    lemma_le32_round(x);
    let a = le_bytes32(x);
    let b = a + tail;
    assert(b[0] == a[0] && b[1] == a[1] && b[2] == a[2] && b[3] == a[3]);
}

/// Reading a field deeper in a buffer is reading it at the front of the
/// corresponding suffix.
pub proof fn lemma_u64_at_shift(b: Seq<u8>, pos: int)
    requires
        0 <= pos,
        pos + 8 <= b.len(),
    ensures
        u64_at(b, pos) == u64_at(b.skip(pos), 0),
{
    let s = b.skip(pos);
    assert(s[0] == b[pos] && s[1] == b[pos + 1] && s[2] == b[pos + 2] && s[3] == b[pos + 3] && s[4]
        == b[pos + 4] && s[5] == b[pos + 5] && s[6] == b[pos + 6] && s[7] == b[pos + 7]);
}

/// Reading a field deeper in a buffer is reading it at the front of the
/// corresponding suffix.
pub proof fn lemma_u32_at_shift(b: Seq<u8>, pos: int)
    requires
        0 <= pos,
        pos + 4 <= b.len(),
    ensures
        u32_at(b, pos) == u32_at(b.skip(pos), 0),
{
    let s = b.skip(pos);
    assert(s[0] == b[pos] && s[1] == b[pos + 1] && s[2] == b[pos + 2] && s[3] == b[pos + 3]);
}

/// Decoding a buffer that starts with one whole encoded entry yields that
/// entry followed by whatever the remainder decodes to.
pub proof fn lemma_decode_prepend(e: EntV, rest: Seq<u8>)
    requires
        ent_wf(e),
    ensures
        decode_list(encode_ent(e) + rest) == match decode_list(rest) {
            Some(r) => Some(seq![e] + r),
            None => None::<Seq<EntV>>,
        },
{
    let nl = e.name.len() as int;
    let nlu = e.name.len() as u32;
    let code = kind_code(e.kind);
    let pad = pad_len(24 + nl);
    let enc = encode_ent(e);
    let b = enc + rest;
    lemma_encode_ent_len(e);

    assert(b.skip(8) =~= le_bytes64(e.off) + (le_bytes32(nlu) + (le_bytes32(code) + (e.name
        + (zero_bytes(pad) + rest)))));
    assert(b.skip(16) =~= le_bytes32(nlu) + (le_bytes32(code) + (e.name + (zero_bytes(pad)
        + rest))));
    assert(b.skip(20) =~= le_bytes32(code) + (e.name + (zero_bytes(pad) + rest)));
    assert(b =~= le_bytes64(e.ino) + (le_bytes64(e.off) + (le_bytes32(nlu) + (le_bytes32(code) + (
    e.name + (zero_bytes(pad) + rest))))));

    lemma_u64_at_prefix(e.ino, le_bytes64(e.off) + (le_bytes32(nlu) + (le_bytes32(code) + (e.name
        + (zero_bytes(pad) + rest)))));
    lemma_u64_at_shift(b, 8);
    lemma_u64_at_prefix(e.off, le_bytes32(nlu) + (le_bytes32(code) + (e.name + (zero_bytes(pad)
        + rest))));
    lemma_u32_at_shift(b, 16);
    lemma_u32_at_prefix(nlu, le_bytes32(code) + (e.name + (zero_bytes(pad) + rest)));
    lemma_u32_at_shift(b, 20);
    lemma_u32_at_prefix(code, e.name + (zero_bytes(pad) + rest));

    assert(u64_at(b, 0) == e.ino);
    assert(u64_at(b, 8) == e.off);
    assert(u32_at(b, 16) == nlu);
    assert(u32_at(b, 20) == code);
    assert(nlu as int == nl);
    assert(kind_of_code(code) == Some(e.kind));

    let total = ent_size_spec(nl);
    assert(b.len() >= total);
    assert(b.subrange(24, 24 + nl) =~= e.name);
    assert(b.skip(total) =~= rest);

    if decode_list(rest) is Some {
        let d = decode_list(b);
        assert(d == Some(seq![
            EntV { name: b.subrange(24, 24 + nl), ino: u64_at(b, 0), kind: e.kind, off: u64_at(
                b,
                8,
            ) },
        ] + decode_list(rest).unwrap()));
        assert(EntV { name: b.subrange(24, 24 + nl), ino: u64_at(b, 0), kind: e.kind, off: u64_at(
            b,
            8,
        ) } == e);
    }
}

/// Round trip: the concatenated encodings of well-formed entries decode to
/// exactly those entries — a buffer built this way holds only whole entries.
#[verifier::rlimit(50)]
pub proof fn lemma_decode_encode_list(es: Seq<EntV>)
    requires
        forall|i: int| 0 <= i < es.len() ==> ent_wf(#[trigger] es[i]),
    ensures
        decode_list(encode_list(es)) == Some(es),
    decreases es.len(),
{
    if es.len() == 0 {
        assert(encode_list(es) == Seq::<u8>::empty());
        assert(Seq::<EntV>::empty() =~= es);
    } else {
        let rest = es.drop_first();
        assert(forall|i: int| 0 <= i < rest.len() ==> ent_wf(#[trigger] rest[i]));
        lemma_decode_encode_list(rest);
        lemma_decode_prepend(es.first(), encode_list(rest));
        assert(decode_list(encode_ent(es.first()) + encode_list(rest)) == Some(
            seq![es.first()] + rest,
        ));
        assert(encode_list(es) == encode_ent(es.first()) + encode_list(rest));
        assert(seq![es.first()] + rest =~= es);
    }
}

/// Exec mirror of `ent_size_spec`.
pub fn ent_size(name_len: usize) -> (r: usize)
    requires
        name_len + 31 <= u32::MAX,
    ensures
        r == ent_size_spec(name_len as int),
{
    let m: usize = ENT_HEADER_LEN + name_len;
    let rem: usize = m % ENT_ALIGN;
    if rem == 0 {
        m
    } else {
        m + (ENT_ALIGN - rem)
    }
}

/// Exec mirror of `kind_code`.
pub fn kind_code_of(k: FileKind) -> (c: u32)
    ensures
        c == kind_code(k),
{
    match k {
        FileKind::Directory => ENT_CODE_DIRECTORY,
        FileKind::RegularFile => ENT_CODE_REGULAR,
    }
}

/// Appends the eight little-endian bytes of `x`.
fn push_le64(buf: &mut Vec<u8>, x: u64)
    ensures
        final(buf)@ == old(buf)@ + le_bytes64(x),
{
    proof {
        assert(forall|y: u64| (y & 0xff) < 256) by (bit_vector);
    }
    buf.push((x & 0xff) as u8);
    buf.push(((x >> 8) & 0xff) as u8);
    buf.push(((x >> 16) & 0xff) as u8);
    buf.push(((x >> 24) & 0xff) as u8);
    buf.push(((x >> 32) & 0xff) as u8);
    buf.push(((x >> 40) & 0xff) as u8);
    buf.push(((x >> 48) & 0xff) as u8);
    buf.push(((x >> 56) & 0xff) as u8);
    proof {
        assert(buf@ =~= old(buf)@ + le_bytes64(x));
    }
}

/// Appends the four little-endian bytes of `x`.
fn push_le32(buf: &mut Vec<u8>, x: u32)
    ensures
        final(buf)@ == old(buf)@ + le_bytes32(x),
{
    proof {
        assert(forall|y: u32| (y & 0xff) < 256) by (bit_vector);
    }
    buf.push((x & 0xff) as u8);
    buf.push(((x >> 8) & 0xff) as u8);
    buf.push(((x >> 16) & 0xff) as u8);
    buf.push(((x >> 24) & 0xff) as u8);
    proof {
        assert(buf@ =~= old(buf)@ + le_bytes32(x));
    }
}

/// Appends the complete encoding of one entry: header, name, padding.
pub fn push_entry(buf: &mut Vec<u8>, e: &DirEntry)
    requires
        ent_wf(e@),
    ensures
        final(buf)@ == old(buf)@ + encode_ent(e@),
{
    push_le64(buf, e.ino);
    push_le64(buf, e.off);
    push_le32(buf, e.name.len() as u32);
    push_le32(buf, kind_code_of(e.kind));
    let ghost header = old(buf)@ + le_bytes64(e@.ino) + le_bytes64(e@.off) + le_bytes32(
        e@.name.len() as u32,
    ) + le_bytes32(kind_code(e@.kind));
    let mut j: usize = 0;
    while j < e.name.len()
        invariant
            0 <= j <= e.name.len(),
            buf@ == header + e@.name.take(j as int),
        decreases e.name.len() - j,
    {
        buf.push(e.name[j]);
        proof {
            assert(buf@ =~= header + e@.name.take(j as int + 1));
        }
        j = j + 1;
    }
    assert(buf@ == header + e@.name.take(e@.name.len() as int));
    assert(e@.name.take(e@.name.len() as int) =~= e@.name);
    let pad = ent_size(e.name.len()) - (24 + e.name.len());
    let mut p: usize = 0;
    while p < pad
        invariant
            0 <= p <= pad,
            pad == pad_len(24 + e@.name.len() as int),
            buf@ == header + e@.name + zero_bytes(p as int),
        decreases pad - p,
    {
        buf.push(0u8);
        proof {
            assert(buf@ =~= header + e@.name + zero_bytes(p as int + 1));
        }
        p = p + 1;
    }
    proof {
        assert(buf@ =~= old(buf)@ + encode_ent(e@));
    }
}

} // verus!

//! The request dispatcher: a stateless router from one decoded operation to
//! exactly one reply or error class, consulting the directory table and the
//! attribute builder.  It holds no state between calls, so independent
//! requests can be served concurrently.

use vstd::prelude::*;

use crate::dirent::{decode_list, encode_list};
use crate::encode::{
    chain, encode_entries, fits_each, lemma_encoded_buffer_decodes, lemma_readdir_resumable, sel,
    total_size,
};
use crate::table::{
    StaticFs, attr_of, getattr_result, has_ino, lemma_listing_positioned, lemma_listing_wf,
    listing, lookup_result, name_idx, read_result, readdir_result, resolve_result,
};
use crate::types::{FsError, Operation, Reply, ent_views};

verus! {

impl StaticFs {
    /// Serves one operation.  Lookup, getattr, readdir and read consult the
    /// static table; every other operation kind degrades to `Unsupported`.
    /// Exactly one reply or one error comes back for every operation.
    pub fn call(&self, op: Operation) -> (r: Result<Reply, FsError>)
        requires
            self.wf(),
        ensures
            match op {
                Operation::Lookup { parent, name } => match lookup_result(self@, parent, name@) {
                    Ok(a) => r matches Ok(Reply::Entry(got)) && got == a,
                    Err(e) => r matches Err(got) && got == e,
                },
                Operation::GetAttr { ino } => match getattr_result(self@, ino) {
                    Ok(a) => r matches Ok(Reply::Attr(got)) && got == a,
                    Err(e) => r matches Err(got) && got == e,
                },
                Operation::ReadDir { ino, offset, max_size } => match readdir_result(self@, ino) {
                    Ok(es) => r matches Ok(Reply::Dir(buf)) && buf@ == encode_list(
                        sel(es, offset, max_size as int),
                    ),
                    Err(e) => r matches Err(got) && got == e,
                },
                Operation::Read { ino, offset, max_len } => match read_result(
                    self@,
                    ino,
                    offset,
                    max_len,
                ) {
                    Ok(s) => r matches Ok(Reply::Data(d)) && d@ == s,
                    Err(e) => r matches Err(got) && got == e,
                },
                Operation::Other => r matches Err(got) && got == FsError::Unsupported,
            },
    {
        match op {
            Operation::Lookup { parent, name } => {
                match self.resolve(parent, name.as_slice()) {
                    Ok(ino) => {
                        proof {
                            if resolve_result(self@, parent, name@) == Ok::<u64, FsError>(ino)
                                && ino != crate::types::ROOT_INO {
                                let w = name_idx(self@, name@);
                                assert(0 <= w < self@.files.len() && self@.files[w].name
                                    == name@);
                                assert(self@.files[w].ino == ino);
                                assert(has_ino(self@, ino));
                            }
                        }
                        match self.attributes_for(ino) {
                            Ok(a) => Ok(Reply::Entry(a)),
                            Err(e) => Err(e),
                        }
                    },
                    Err(e) => Err(e),
                }
            },
            Operation::GetAttr { ino } => {
                match self.attributes_for(ino) {
                    Ok(a) => Ok(Reply::Attr(a)),
                    Err(e) => Err(e),
                }
            },
            Operation::ReadDir { ino, offset, max_size } => {
                match self.list(ino) {
                    Ok(v) => {
                        proof {
                            lemma_listing_wf(self@);
                            assert forall|i: int|
                                0 <= i < v@.len() implies crate::dirent::ent_wf(
                                #[trigger] v@[i]@,
                            ) by {
                                assert(v@[i]@ == ent_views(v@)[i]);
                                assert(ent_views(v@)[i] == listing(self@)[i]);
                            }
                        }
                        let buf = encode_entries(&v, offset, max_size as usize);
                        Ok(Reply::Dir(buf))
                    },
                    Err(e) => Err(e),
                }
            },
            Operation::Read { ino, offset, max_len } => {
                match self.read(ino, offset, max_len) {
                    Ok(d) => Ok(Reply::Data(d)),
                    Err(e) => Err(e),
                }
            },
            Operation::Other => Err(FsError::Unsupported),
        }
    }
}

/// Lookup under the root agrees with the root listing: a name that appears
/// in the listing resolves to that entry's inode and returns the attribute
/// of that inode, whose inode and kind match the entry; a name that appears
/// nowhere in the listing is `NotFound`.
pub proof fn lemma_lookup_matches_listing(fs: crate::table::FsV, name: Seq<u8>)
    requires
        crate::table::table_wf(fs),
    ensures
        forall|i: int|
            0 <= i < listing(fs).len() && (#[trigger] listing(fs)[i]).name == name ==> {
                &&& lookup_result(fs, crate::types::ROOT_INO, name) == Ok::<crate::types::FileAttr, FsError>(
                    attr_of(fs, listing(fs)[i].ino),
                )
                &&& attr_of(fs, listing(fs)[i].ino).ino == listing(fs)[i].ino
                &&& attr_of(fs, listing(fs)[i].ino).kind == listing(fs)[i].kind
            },
        (forall|i: int| 0 <= i < listing(fs).len() ==> (#[trigger] listing(fs)[i]).name != name)
            ==> lookup_result(fs, crate::types::ROOT_INO, name) == Err::<crate::types::FileAttr, FsError>(
            FsError::NotFound,
        ),
{
    let es = listing(fs);
    assert forall|i: int| 0 <= i < es.len() && (#[trigger] es[i]).name == name implies {
        &&& lookup_result(fs, crate::types::ROOT_INO, name) == Ok::<crate::types::FileAttr, FsError>(
            attr_of(fs, es[i].ino),
        )
        &&& attr_of(fs, es[i].ino).ino == es[i].ino
        &&& attr_of(fs, es[i].ino).kind == es[i].kind
    } by {
        if i == 0 {
            assert(es[0].name == seq![crate::table::DOT]);
            assert(es[0].ino == 1);
        } else if i == 1 {
            assert(es[1].name == seq![crate::table::DOT, crate::table::DOT]);
            assert(es[1].ino == 1);
        } else {
            let j = i - 2;
            assert(es[i].name == fs.files[j].name);
            assert(es[i].ino == fs.files[j].ino);
            assert(crate::table::file_wf(fs.files[j]));
            crate::table::lemma_name_idx_unique(fs, name, j);
            crate::table::lemma_ino_idx_unique(fs, fs.files[j].ino, j);
            assert(resolve_result(fs, crate::types::ROOT_INO, name) == Ok::<u64, FsError>(fs.files[j].ino));
        }
    }
    if forall|i: int| 0 <= i < es.len() ==> (#[trigger] es[i]).name != name {
        assert(es[0].name == seq![crate::table::DOT]);
        assert(es[1].name == seq![crate::table::DOT, crate::table::DOT]);
        if crate::table::has_name(fs, name) {
            let w = name_idx(fs, name);
            assert(0 <= w < fs.files.len() && fs.files[w].name == name);
            assert(es[w + 2].name == fs.files[w].name);
        }
    }
}

/// Readdir laws for a table's root listing.  One pass whose byte budget
/// covers the whole listing returns every entry; chained passes under any
/// per-call budget that fits each single record return the same entries in
/// the same order; and the buffer of any pass decodes into whole entries
/// only — exactly the entries selected, never a truncated record.
pub proof fn lemma_fs_readdir_laws(
    fs: crate::table::FsV,
    big: int,
    b: int,
    fuel: nat,
    start: u64,
    budget: int,
)
    requires
        crate::table::table_wf(fs),
        fits_each(listing(fs), b),
        total_size(listing(fs)) <= big,
        fuel >= listing(fs).len(),
    ensures
        sel(listing(fs), 0, big) == listing(fs),
        chain(listing(fs), 0, b, fuel) == listing(fs),
        decode_list(encode_list(sel(listing(fs), start, budget))) == Some(
            sel(listing(fs), start, budget),
        ),
{
    lemma_listing_positioned(fs);
    lemma_listing_wf(fs);
    lemma_readdir_resumable(listing(fs), big, b, fuel);
    lemma_encoded_buffer_decodes(listing(fs), start, budget);
}

} // verus!

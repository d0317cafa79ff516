//! Size-bounded, resumable encoding of directory listings.
//!
//! `sel` is the selection rule of one listing call: skip every entry at or
//! before the resumption cursor, then take entries in order while their
//! encoded records fit the byte budget, stopping entirely at the first entry
//! that would not fit (a record is never split).  `encode_entries` produces
//! the corresponding buffer.  The lemmas at the bottom state the two
//! listing-level laws: a chained sequence of bounded calls returns the same
//! entries, in the same order, as one call with a budget that covers the
//! whole listing; and every returned buffer decodes into whole entries only.

use vstd::prelude::*;

use crate::dirent::{
    decode_list, encode_ent, encode_list, ent_size, ent_size_spec, ent_wf, lemma_decode_encode_list,
    lemma_encode_ent_len, push_entry,
};
use crate::types::{DirEntry, EntV, ent_views};

verus! {

/// The entries one listing call returns: entries at positions at or before
/// `start` are skipped; the rest are taken in order while their encoded
/// sizes fit within `budget`; the first entry that would overflow the budget
/// ends the selection.
pub open spec fn sel(es: Seq<EntV>, start: u64, budget: int) -> Seq<EntV>
    decreases es.len(),
{
    if es.len() == 0 {
        Seq::empty()
    } else if es.first().off <= start {
        sel(es.drop_first(), start, budget)
    } else if ent_size_spec(es.first().name.len() as int) <= budget {
        seq![es.first()] + sel(
            es.drop_first(),
            start,
            budget - ent_size_spec(es.first().name.len() as int),
        )
    } else {
        Seq::empty()
    }
}

/// Entry `i` carries sequence position `i + 1`: the shape of every listing
/// the directory table produces.
pub open spec fn positioned_from(es: Seq<EntV>, k: int) -> bool {
    forall|i: int| 0 <= i < es.len() ==> (#[trigger] es[i]).off as int == k + i + 1
}

/// Positions of a whole listing start at 1.
pub open spec fn positioned(es: Seq<EntV>) -> bool {
    positioned_from(es, 0)
}

/// Every single entry's record fits within `budget`.
pub open spec fn fits_each(es: Seq<EntV>, budget: int) -> bool {
    forall|i: int|
        0 <= i < es.len() ==> ent_size_spec((#[trigger] es[i]).name.len() as int) <= budget
}

/// The total encoded size of a listing.
pub open spec fn total_size(es: Seq<EntV>) -> int
    decreases es.len(),
{
    if es.len() == 0 {
        0
    } else {
        ent_size_spec(es.first().name.len() as int) + total_size(es.drop_first())
    }
}

/// The entries gathered by calling the encoder repeatedly: each call uses
/// byte budget `budget`, and the next call resumes at the sequence position
/// of the last entry the previous call returned, until a call returns
/// nothing.  `fuel` bounds the number of calls.
pub open spec fn chain(es: Seq<EntV>, start: u64, budget: int, fuel: nat) -> Seq<EntV>
    decreases fuel,
{
    if fuel == 0 {
        Seq::empty()
    } else {
        let got = sel(es, start, budget);
        if got.len() == 0 {
            Seq::empty()
        } else {
            got + chain(es, got.last().off, budget, (fuel - 1) as nat)
        }
    }
}

/// Encoded sizes are nonnegative, so a listing's total size is too.
proof fn lemma_total_size_nonneg(es: Seq<EntV>)
    ensures
        total_size(es) >= 0,
    decreases es.len(),
{
    if es.len() > 0 {
        lemma_total_size_nonneg(es.drop_first());
    }
}

/// On a suffix whose positions all lie beyond the cursor, the selection is a
/// prefix; it is nonempty when the first record fits, and complete when the
/// whole listing fits.
proof fn lemma_sel_visible(es: Seq<EntV>, k: int, start: u64, b: int) -> (m: int)
    requires
        positioned_from(es, k),
        start as int <= k,
    ensures
        0 <= m <= es.len(),
        sel(es, start, b) == es.take(m),
        es.len() > 0 && ent_size_spec(es.first().name.len() as int) <= b ==> m >= 1,
        total_size(es) <= b ==> m == es.len(),
    decreases es.len(),
{
    if es.len() == 0 {
        assert(sel(es, start, b) =~= es.take(0));
        0
    } else {
        let e = es.first();
        assert(e.off as int == k + 1);
        let sz = ent_size_spec(e.name.len() as int);
        let rest = es.drop_first();
        assert forall|i: int| 0 <= i < rest.len() implies (#[trigger] rest[i]).off as int == (k + 1)
            + i + 1 by {
            assert(rest[i] == es[i + 1]);
        }
        if sz <= b {
            let m1 = lemma_sel_visible(rest, k + 1, start, b - sz);
            assert(seq![e] + rest.take(m1) =~= es.take(m1 + 1));
            lemma_total_size_nonneg(rest);
            m1 + 1
        } else {
            assert(sel(es, start, b) =~= es.take(0));
            lemma_total_size_nonneg(rest);
            0
        }
    }
}

/// Skipping the entries at or before the cursor changes nothing about the
/// selection; what remains is a suffix whose positions lie beyond it.
proof fn lemma_sel_skip(es: Seq<EntV>, k: int, start: u64, b: int) -> (d: int)
    requires
        positioned_from(es, k),
        0 <= k,
    ensures
        0 <= d <= es.len(),
        sel(es, start, b) == sel(es.skip(d), start, b),
        positioned_from(es.skip(d), k + d),
        start as int <= k + d || d == es.len(),
        start as int >= k ==> (k + d == start as int || (d == es.len() && k + es.len() as int
            <= start as int)),
    decreases es.len(),
{
    if es.len() == 0 {
        assert(es.skip(0) =~= es);
        0
    } else if start as int <= k {
        assert(es.skip(0) =~= es);
        0
    } else {
        assert(es.first().off as int == k + 1);
        let rest = es.drop_first();
        assert forall|i: int| 0 <= i < rest.len() implies (#[trigger] rest[i]).off as int == (k + 1)
            + i + 1 by {
            assert(rest[i] == es[i + 1]);
        }
        assert(sel(es, start, b) == sel(rest, start, b));
        let d1 = lemma_sel_skip(rest, k + 1, start, b);
        assert(es.skip(d1 + 1) =~= rest.skip(d1));
        d1 + 1
    }
}

/// Chained calls starting at `start` return exactly the remainder of the
/// listing, in order, whenever each single record fits the per-call budget.
proof fn lemma_chain_covers(es: Seq<EntV>, start: u64, b: int, fuel: nat)
    requires
        positioned(es),
        fits_each(es, b),
        start as int <= es.len(),
        fuel >= es.len() - start as int,
    ensures
        chain(es, start, b, fuel) == es.skip(start as int),
    decreases fuel,
{
    let d = lemma_sel_skip(es, 0, start, b);
    assert(d == start as int);
    let tail = es.skip(start as int);
    if tail.len() == 0 {
        let m = lemma_sel_visible(tail, start as int, start, b);
        assert(sel(es, start, b) =~= Seq::<EntV>::empty());
        assert(chain(es, start, b, fuel) =~= tail);
    } else {
        let m = lemma_sel_visible(tail, start as int, start, b);
        assert(tail.first() == es[start as int]);
        assert(m >= 1);
        let got = sel(es, start, b);
        assert(got == tail.take(m));
        assert(got.last() == tail[m - 1]);
        assert(tail[m - 1] == es[start as int + m - 1]);
        assert(got.last().off as int == start as int + m);
        assert(fuel > 0);
        lemma_chain_covers(es, got.last().off, b, (fuel - 1) as nat);
        assert(tail.skip(m) =~= es.skip(start as int + m));
        assert(tail.take(m) + tail.skip(m) =~= tail);
    }
}

/// Appending an entry to a listing appends its record to the encoding.
proof fn lemma_encode_list_push(es: Seq<EntV>, e: EntV)
    ensures
        encode_list(es.push(e)) == encode_list(es) + encode_ent(e),
    decreases es.len(),
{
    if es.len() == 0 {
        assert(es.push(e).first() == e);
        assert(es.push(e).drop_first() =~= Seq::<EntV>::empty());
        assert(encode_list(es.push(e)) == encode_ent(e) + encode_list(Seq::<EntV>::empty()));
        assert(encode_ent(e) + Seq::<u8>::empty() =~= encode_ent(e));
        assert(encode_list(es) == Seq::<u8>::empty());
        assert(Seq::<u8>::empty() + encode_ent(e) =~= encode_ent(e));
    } else {
        lemma_encode_list_push(es.drop_first(), e);
        assert(es.push(e).first() == es.first());
        assert(es.push(e).drop_first() =~= es.drop_first().push(e));
        assert(encode_list(es.push(e)) == encode_ent(es.first()) + encode_list(
            es.drop_first().push(e),
        ));
        assert(encode_list(es.drop_first().push(e)) == encode_list(es.drop_first()) + encode_ent(
            e,
        ));
        assert(encode_ent(es.first()) + (encode_list(es.drop_first()) + encode_ent(e)) =~= (
        encode_ent(es.first()) + encode_list(es.drop_first())) + encode_ent(e));
        assert(encode_list(es) == encode_ent(es.first()) + encode_list(es.drop_first()));
    }
}

/// Every entry the selection keeps comes from the listing, so it stays
/// well formed.
proof fn lemma_sel_wf(es: Seq<EntV>, start: u64, b: int)
    requires
        forall|i: int| 0 <= i < es.len() ==> ent_wf(#[trigger] es[i]),
    ensures
        forall|j: int| 0 <= j < sel(es, start, b).len() ==> ent_wf(#[trigger] sel(es, start, b)[j]),
    decreases es.len(),
{
    if es.len() == 0 {
        assert(sel(es, start, b).len() == 0);
    } else {
        let rest = es.drop_first();
        assert(forall|i: int| 0 <= i < rest.len() ==> ent_wf(#[trigger] rest[i]));
        if es.first().off <= start {
            lemma_sel_wf(rest, start, b);
            assert(sel(es, start, b) == sel(rest, start, b));
        } else if ent_size_spec(es.first().name.len() as int) <= b {
            let b2 = b - ent_size_spec(es.first().name.len() as int);
            lemma_sel_wf(rest, start, b2);
            let s = sel(es, start, b);
            let r = sel(rest, start, b2);
            assert(s == seq![es.first()] + r);
            assert(ent_wf(es[0]));
            assert forall|j: int| 0 <= j < s.len() implies ent_wf(#[trigger] s[j]) by {
                if j == 0 {
                    assert(s[j] == es.first());
                } else {
                    assert(s[j] == r[j - 1]);
                }
            }
        } else {
            assert(sel(es, start, b).len() == 0);
        }
    }
}

/// Serializes a listing into one reply buffer: entries past the cursor, in
/// order, as many whole records as the byte budget holds.  An empty buffer
/// means the cursor is at or past the end, or not even one record fits.
pub fn encode_entries(entries: &Vec<DirEntry>, start: u64, max_bytes: usize) -> (buf: Vec<u8>)
    requires
        forall|i: int| 0 <= i < entries@.len() ==> ent_wf(#[trigger] entries@[i]@),
    ensures
        buf@ == encode_list(sel(ent_views(entries@), start, max_bytes as int)),
        buf@.len() <= max_bytes,
{
    let ghost es = ent_views(entries@);
    let mut buf: Vec<u8> = Vec::new();
    let ghost mut done: Seq<EntV> = Seq::empty();
    let mut i: usize = 0;
    let mut stopped: bool = false;
    proof {
        assert(es.skip(0) =~= es);
        assert(done + sel(es, start, max_bytes as int) =~= sel(es, start, max_bytes as int));
    }
    while i < entries.len() && !stopped
        invariant
            i <= entries@.len(),
            es == ent_views(entries@),
            forall|k: int| 0 <= k < entries@.len() ==> ent_wf(#[trigger] entries@[k]@),
            buf@ == encode_list(done),
            buf@.len() <= max_bytes,
            sel(es, start, max_bytes as int) == done + sel(
                es.skip(i as int),
                start,
                max_bytes - buf@.len(),
            ),
            stopped ==> sel(es.skip(i as int), start, max_bytes - buf@.len())
                == Seq::<EntV>::empty(),
        decreases entries@.len() - i + (if stopped { 0int } else { 1int }),
    {
        let e = &entries[i];
        proof {
            assert(es.skip(i as int).first() == es[i as int]);
            assert(es[i as int] == entries@[i as int]@);
            assert(es.skip(i as int).drop_first() =~= es.skip(i as int + 1));
        }
        if e.off > start {
            let sz = ent_size(e.name.len());
            let room = max_bytes - buf.len();
            if sz <= room {
                let ghost done_before = done;
                let ghost room_now = max_bytes - buf@.len();
                push_entry(&mut buf, e);
                proof {
                    lemma_encode_ent_len(e@);
                    lemma_encode_list_push(done_before, e@);
                    done = done_before.push(e@);
                    let rest_sel = sel(es.skip(i as int + 1), start, room_now - sz);
                    assert(sel(es.skip(i as int), start, room_now) == seq![e@] + rest_sel);
                    assert(done_before + (seq![e@] + rest_sel) =~= done + rest_sel);
                }
                i = i + 1;
            } else {
                stopped = true;
            }
        } else {
            i = i + 1;
        }
    }
    proof {
        if !stopped {
            assert(es.skip(i as int).len() == 0);
        }
        assert(sel(es.skip(i as int), start, max_bytes - buf@.len()) == Seq::<EntV>::empty());
        assert(done + Seq::<EntV>::empty() =~= done);
    }
    buf
}

/// Resumable listing: one call whose budget covers the whole listing
/// returns every entry, and chained calls under any per-call budget that
/// fits each single record return the same entries in the same order.
pub proof fn lemma_readdir_resumable(es: Seq<EntV>, big: int, b: int, fuel: nat)
    requires
        positioned(es),
        fits_each(es, b),
        total_size(es) <= big,
        fuel >= es.len(),
    ensures
        sel(es, 0, big) == es,
        chain(es, 0, b, fuel) == es,
        chain(es, 0, b, fuel) == sel(es, 0, big),
{
    let m = lemma_sel_visible(es, 0, 0, big);
    assert(es.take(es.len() as int) =~= es);
    lemma_chain_covers(es, 0, b, fuel);
    assert(es.skip(0) =~= es);
}

/// No partial records: the buffer encoding any selection decodes to exactly
/// the selected entries.
pub proof fn lemma_encoded_buffer_decodes(es: Seq<EntV>, start: u64, budget: int)
    requires
        forall|i: int| 0 <= i < es.len() ==> ent_wf(#[trigger] es[i]),
    ensures
        decode_list(encode_list(sel(es, start, budget))) == Some(sel(es, start, budget)),
{
    lemma_sel_wf(es, start, budget);
    lemma_decode_encode_list(sel(es, start, budget));
}

} // verus!

//! The laws the segment layer obeys, stated over the same spec functions the
//! public contracts use, and proved once and for all.

use vstd::prelude::*;

use crate::fragments::{
    entries_size,
    file_bytes,
    frag_size,
    frags_in_bounds,
    frags_wf,
    lemma_file_bytes_len,
    selected_spec,
    FileEntry,
    Fragment,
};
use crate::metadata::find_loc;
use crate::paths::{lemma_lex_lt_asymmetric, lex_lt};
use crate::codec::spec_u64_from_be_bytes;
use crate::reader::published_parse;
use crate::writer::{
    locs_sorted,
    published_ok,
    read_result,
    write_effect,
};

verus! {

/// A read of a sub-range equals the same slice of a full read: for any
/// content and any `0 <= lo <= hi <= len`, what `read_range` returns for
/// `[lo, hi)` is exactly bytes `[lo, hi)` of what it returns for the whole
/// file.
pub proof fn lemma_partial_read_is_slice_of_full(content: Seq<u8>, lo: int, hi: int)
    requires
        0 <= lo <= hi <= content.len(),
    ensures
        read_result(content, lo, hi) == read_result(content, 0, content.len() as int).subrange(
            lo,
            hi,
        ),
{
    assert(read_result(content, 0, content.len() as int) =~= content);
    assert(read_result(content, lo, hi) =~= content.subrange(lo, hi));
}

/// A full read returns the file's content whole: the concatenation, in write
/// order, of every fragment that survives for the path.
pub proof fn lemma_full_read_returns_content(content: Seq<u8>)
    ensures
        read_result(content, 0, content.len() as int) == content,
{
    assert(read_result(content, 0, content.len() as int) =~= content);
}

/// Reading past a file's end truncates and never errs: any range at or past
/// the end yields the bytes that exist, and an empty range of them when
/// `lo >= len`.
pub proof fn lemma_read_past_end(content: Seq<u8>, lo: int, hi: int)
    requires
        0 <= lo <= hi,
    ensures
        hi >= content.len() ==> read_result(content, lo, hi) == read_result(
            content,
            lo,
            content.len() as int,
        ),
        lo >= content.len() ==> read_result(content, lo, hi) == Seq::<u8>::empty(),
{
    if lo >= content.len() {
        assert(read_result(content, lo, hi) =~= Seq::<u8>::empty());
    }
}

/// Deleting is idempotent: removing a path leaves a state in which removing
/// it again changes nothing, and the path does not exist.
pub proof fn lemma_delete_idempotent(files: Map<Seq<u8>, Seq<u8>>, p: Seq<u8>)
    ensures
        files.remove(p).remove(p) == files.remove(p),
        !files.remove(p).dom().contains(p),
{
    assert(files.remove(p).remove(p) =~= files.remove(p));
}

/// Overwrite semantics: after `write(p, a, overwrite)` an ordinary write of
/// `b` appends, leaving `a ++ b`; a following overwrite by `c` leaves `c`
/// alone — or removes the path when `c` is empty, since empty writes create
/// no fragments.
pub proof fn lemma_overwrite_semantics(
    files: Map<Seq<u8>, Seq<u8>>,
    p: Seq<u8>,
    a: Seq<u8>,
    b: Seq<u8>,
    c: Seq<u8>,
)
    requires
        a.len() > 0,
    ensures
        ({
            let m1 = write_effect(files, p, a, true);
            let m2 = write_effect(m1, p, b, false);
            let m3 = write_effect(m2, p, c, true);
            &&& m1.dom().contains(p) && m1[p] == a
            &&& m2.dom().contains(p) && m2[p] == a + b
            &&& c.len() > 0 ==> m3.dom().contains(p) && m3[p] == c
            &&& c.len() == 0 ==> !m3.dom().contains(p)
        }),
{
    let m1 = write_effect(files, p, a, true);
    let m2 = write_effect(m1, p, b, false);
    if b.len() == 0 {
        assert(m2[p] =~= a + b);
    }
}

/// Ordinary writes append in write order: two writes of a path leave its
/// content equal to what was there before followed by both buffers, first
/// write first.
pub proof fn lemma_writes_append_in_order(
    files: Map<Seq<u8>, Seq<u8>>,
    p: Seq<u8>,
    a: Seq<u8>,
    b: Seq<u8>,
)
    requires
        a.len() > 0,
        b.len() > 0,
    ensures
        ({
            let m2 = write_effect(write_effect(files, p, a, false), p, b, false);
            &&& m2.dom().contains(p)
            &&& m2[p] == if files.dom().contains(p) {
                files[p] + a + b
            } else {
                a + b
            }
        }),
{
}

/// A fragment wholly below the requested offset is skipped entirely: it
/// contributes no read request, and the offset moves down by its size.
pub proof fn lemma_small_fragment_skipped(fs: Seq<Fragment>, skip: int, rem: int)
    requires
        fs.len() > 0,
        frag_size(fs[0]) <= skip,
        rem > 0,
    ensures
        selected_spec(fs, skip, rem) == selected_spec(fs.skip(1), skip - frag_size(fs[0]), rem),
{
}

/// The index's total size is the sum of the logical files' lengths: what
/// `total_size` returns equals adding up `file_len` over every present path,
/// entry by entry.
pub proof fn lemma_total_size_is_sum_of_file_lens(seg: Seq<u8>, es: Seq<FileEntry>)
    requires
        forall|i: int| 0 <= i < es.len() ==> frags_wf((#[trigger] es[i]).fragments@),
        forall|i: int|
            0 <= i < es.len() ==> frags_in_bounds(
                (#[trigger] es[i]).fragments@,
                seg.len() as int,
            ),
    ensures
        entries_size(es) == file_lens_sum(seg, es),
    decreases es.len(),
{
    if es.len() > 0 {
        lemma_file_bytes_len(seg, es[0].fragments@);
        lemma_total_size_is_sum_of_file_lens(seg, es.skip(1));
    }
}

/// The lengths of the logical files an entry sequence holds, added up.
pub open spec fn file_lens_sum(seg: Seq<u8>, es: Seq<FileEntry>) -> int
    decreases es.len(),
{
    if es.len() == 0 {
        0int
    } else {
        file_bytes(seg, es[0].fragments@).len() + file_lens_sum(seg, es.skip(1))
    }
}

/// The export round trip: in a well-formed published segment, every logical
/// file present at export time is found again by footer, metadata and slice,
/// and yields exactly the bytes a full read returned before the export; the
/// hot cache comes back verbatim.
pub proof fn lemma_export_round_trip(
    out: Seq<u8>,
    files: Map<Seq<u8>, Seq<u8>>,
    hot: Seq<u8>,
    p: Seq<u8>,
)
    requires
        published_ok(out, files, hot),
        files.dom().contains(p),
    ensures
        match published_parse(out) {
            Some(r) => {
                &&& r.1 == hot
                &&& match find_loc(r.0, p) {
                    Some(loc) => loc.0 <= loc.1 <= out.len() && out.subrange(
                        loc.0 as int,
                        loc.1 as int,
                    ) == files[p],
                    None => false,
                }
            },
            None => false,
        },
{
    let locs_hot = published_parse(out);
    let r = locs_hot.unwrap();
    let locs = r.0;
    let k = choose|k: int| 0 <= k < locs.len() && (#[trigger] locs[k]).0 == p;
    assert(0 <= k < locs.len() && locs[k].0 == p);
    lemma_find_first_of_distinct(locs, k);
}

/// The sizes of the recorded regions, added up.
pub open spec fn locs_sizes_sum(locs: Seq<(Seq<u8>, u64, u64)>) -> int
    decreases locs.len(),
{
    if locs.len() == 0 {
        0int
    } else {
        (locs[0].2 - locs[0].1) + locs_sizes_sum(locs.skip(1))
    }
}

/// Consecutive regions telescope: their sizes add up to the span from the
/// first region's start to the last region's end.
pub proof fn lemma_consecutive_sum(locs: Seq<(Seq<u8>, u64, u64)>)
    requires
        locs.len() > 0,
        forall|k: int| 0 <= k < locs.len() - 1 ==> (#[trigger] locs[k]).2 == locs[k + 1].1,
    ensures
        locs_sizes_sum(locs) == locs.last().2 - locs[0].1,
    decreases locs.len(),
{
    if locs.len() == 1 {
        assert(locs.skip(1) =~= Seq::<(Seq<u8>, u64, u64)>::empty());
        assert(locs_sizes_sum(Seq::<(Seq<u8>, u64, u64)>::empty()) == 0);
        assert(locs.last() == locs[0]);
    } else {
        assert forall|k: int| 0 <= k < locs.skip(1).len() - 1 implies (#[trigger] locs.skip(
            1,
        )[k]).2 == locs.skip(1)[k + 1].1 by {
            assert(locs.skip(1)[k] == locs[k + 1]);
            assert(locs.skip(1)[k + 1] == locs[k + 2]);
        }
        lemma_consecutive_sum(locs.skip(1));
        assert(locs.skip(1)[0] == locs[1]);
        assert(locs.skip(1).last() == locs.last());
    }
}

/// In a well-formed published segment, the footer's `metadata_start` equals
/// the total size of the logical content: the regions pack the file from
/// offset zero, and their sizes — one per present path, each exactly its
/// file's length — add up to it.
pub proof fn lemma_metadata_start_is_content_size(
    out: Seq<u8>,
    files: Map<Seq<u8>, Seq<u8>>,
    hot: Seq<u8>,
)
    requires
        published_ok(out, files, hot),
    ensures
        match published_parse(out) {
            Some(r) => locs_sizes_sum(r.0) == spec_u64_from_be_bytes(
                out.subrange(out.len() - 16, out.len() - 8),
            ) as int,
            None => false,
        },
{
    let locs = published_parse(out).unwrap().0;
    if locs.len() > 0 {
        lemma_consecutive_sum(locs);
    }
}

/// In a list of locations with pairwise ascending paths, the first match for
/// the path of entry `k` is entry `k` itself.
pub proof fn lemma_find_first_of_distinct(locs: Seq<(Seq<u8>, u64, u64)>, k: int)
    requires
        locs_sorted(locs),
        0 <= k < locs.len(),
    ensures
        find_loc(locs, locs[k].0) == Some((locs[k].1, locs[k].2)),
    decreases k,
{
    if k == 0 {
    } else {
        assert(lex_lt(locs[0].0, locs[k].0));
        lemma_lex_lt_asymmetric(locs[0].0, locs[k].0);
        assert(locs[0].0 != locs[k].0);
        assert(locs.skip(1)[k - 1] == locs[k]);
        assert forall|a: int, b: int| 0 <= a < b < locs.skip(1).len() implies lex_lt(
            (#[trigger] locs.skip(1)[a]).0,
            (#[trigger] locs.skip(1)[b]).0,
        ) by {
            assert(locs.skip(1)[a] == locs[a + 1]);
            assert(locs.skip(1)[b] == locs[b + 1]);
        }
        lemma_find_first_of_distinct(locs.skip(1), k - 1);
    }
}

} // verus!

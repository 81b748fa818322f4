//! The segment writer: the single owner of the fragment index and the
//! active segment.
//!
//! In the running system one writer serves all producers from one thread, so
//! its state never needs a lock; the unverified shell around the library
//! keeps the segment bytes on disk and forwards each request here. This type
//! carries the authoritative in-memory state: the appended bytes, the write
//! cursor, the flushed position, and the index.
//!
//! Its abstraction is a map from logical paths to logical file contents: a
//! file's content is the concatenation of its fragments' bytes, in write
//! order.

use vstd::map::*;
use vstd::math::min;
use vstd::prelude::*;

use crate::codec::{lemma_u64_to_from_be_bytes, spec_u64_from_be_bytes, spec_u64_to_be_bytes};
use crate::errors::SegmentError;
use crate::metadata::{
    meta_decoding,
    meta_encoding,
    lemma_meta_round_trip,
    write_metadata_offsets,
    SegmentMetadata,
};
use crate::paths::lex_lt;
use crate::fragments::{
    chunk_bytes,
    lemma_map_index,
    lemma_sorted_distinct,
    FileEntry,
    chunks_bytes,
    chunks_view,
    entries_size,
    file_bytes,
    frag_bytes,
    frags_in_bounds,
    frags_max_end,
    frags_size,
    frags_wf,
    lemma_file_bytes_len,
    lemma_frags_size_nonneg,
    lemma_selected_spec_bounds,
    lemma_selected_spec_correct,
    sorted_entries,
    entries_map,
    DiskFragments,
    Fragment,
};

verus! {

/// The contents every logical path holds, given the segment bytes and the
/// fragment lists.
pub open spec fn content_map(seg: Seq<u8>, frags: Map<Seq<u8>, Seq<Fragment>>) -> Map<
    Seq<u8>,
    Seq<u8>,
> {
    Map::new(|p: Seq<u8>| frags.dom().contains(p), |p: Seq<u8>| file_bytes(seg, frags[p]))
}

/// What one write does to the logical files: an overwrite replaces the file,
/// an ordinary write appends to it, and zero bytes never create a fragment —
/// so an overwrite by nothing deletes the file, and an ordinary write of
/// nothing leaves everything as it was.
pub open spec fn write_effect(
    files: Map<Seq<u8>, Seq<u8>>,
    path: Seq<u8>,
    data: Seq<u8>,
    overwrite: bool,
) -> Map<Seq<u8>, Seq<u8>> {
    if data.len() == 0 {
        if overwrite {
            files.remove(path)
        } else {
            files
        }
    } else {
        if !overwrite && files.dom().contains(path) {
            files.insert(path, files[path] + data)
        } else {
            files.insert(path, data)
        }
    }
}

/// What one write does to the fragment index, given the fragment the append
/// occupies: an empty fragment is never recorded, an overwrite replaces the
/// list, an ordinary write appends to it.
pub open spec fn frags_effect(
    frags: Map<Seq<u8>, Seq<Fragment>>,
    path: Seq<u8>,
    f: Fragment,
    overwrite: bool,
) -> Map<Seq<u8>, Seq<Fragment>> {
    if f.start == f.end {
        if overwrite {
            frags.remove(path)
        } else {
            frags
        }
    } else if overwrite || !frags.dom().contains(path) {
        frags.insert(path, seq![f])
    } else {
        frags.insert(path, frags[path].push(f))
    }
}

/// Extending the segment does not change any file already recorded in it.
pub proof fn lemma_file_bytes_extend(seg: Seq<u8>, seg2: Seq<u8>, fs: Seq<Fragment>)
    requires
        seg.len() <= seg2.len(),
        forall|k: int| 0 <= k < seg.len() ==> seg[k] == seg2[k],
        frags_in_bounds(fs, seg.len() as int),
        forall|i: int| 0 <= i < fs.len() ==> (#[trigger] fs[i]).start <= fs[i].end,
    ensures
        file_bytes(seg2, fs) == file_bytes(seg, fs),
    decreases fs.len(),
{
    if fs.len() > 0 {
        assert(frag_bytes(seg2, fs[0]) =~= frag_bytes(seg, fs[0]));
        lemma_file_bytes_extend(seg, seg2, fs.skip(1));
        assert(file_bytes(seg2, fs) =~= file_bytes(seg, fs));
    }
}

/// A file grows at its end by the bytes of an appended fragment.
pub proof fn lemma_file_bytes_push(seg: Seq<u8>, fs: Seq<Fragment>, f: Fragment)
    ensures
        file_bytes(seg, fs.push(f)) == file_bytes(seg, fs) + frag_bytes(seg, f),
    decreases fs.len(),
{
    if fs.len() == 0 {
        assert(fs.push(f)[0] == f);
        assert(fs.push(f).skip(1) =~= Seq::<Fragment>::empty());
        assert(file_bytes(seg, Seq::<Fragment>::empty()) == Seq::<u8>::empty());
        assert(file_bytes(seg, fs.push(f)) =~= file_bytes(seg, fs) + frag_bytes(seg, f));
    } else {
        assert(fs.push(f)[0] == fs[0]);
        assert(fs.push(f).skip(1) =~= fs.skip(1).push(f));
        lemma_file_bytes_push(seg, fs.skip(1), f);
        assert(file_bytes(seg, fs.push(f)) =~= file_bytes(seg, fs) + frag_bytes(seg, f));
    }
}

/// A list within bounds never reaches past them.
pub proof fn lemma_frags_max_end_bound(fs: Seq<Fragment>, bound: int)
    requires
        frags_in_bounds(fs, bound),
        bound >= 0,
    ensures
        frags_max_end(fs) <= bound,
    decreases fs.len(),
{
    if fs.len() > 0 {
        lemma_frags_max_end_bound(fs.skip(1), bound);
    }
}

/// Gathering one more request appends its bytes.
pub proof fn lemma_chunks_bytes_push(seg: Seq<u8>, cs: Seq<(int, int)>, c: (int, int))
    ensures
        chunks_bytes(seg, cs.push(c)) == chunks_bytes(seg, cs) + chunk_bytes(seg, c),
    decreases cs.len(),
{
    if cs.len() == 0 {
        assert(cs.push(c)[0] == c);
        assert(cs.push(c).skip(1) =~= Seq::<(int, int)>::empty());
        assert(chunks_bytes(seg, Seq::<(int, int)>::empty()) == Seq::<u8>::empty());
        assert(chunks_bytes(seg, cs.push(c)) =~= chunks_bytes(seg, cs) + chunk_bytes(seg, c));
    } else {
        assert(cs.push(c)[0] == cs[0]);
        assert(cs.push(c).skip(1) =~= cs.skip(1).push(c));
        lemma_chunks_bytes_push(seg, cs.skip(1), c);
        assert(chunks_bytes(seg, cs.push(c)) =~= chunks_bytes(seg, cs) + chunk_bytes(seg, c));
    }
}

/// The stream writer of one active segment.
///
/// `segment` models the bytes appended to the physical file so far;
/// `current_pos` is the write cursor and `flushed_pos` the durability
/// barrier: bytes below it are readable without flushing first.
pub struct DirectoryStreamWriter {
    pub segment: Vec<u8>,
    pub current_pos: usize,
    pub flushed_pos: usize,
    pub fragments: DiskFragments,
    pub finalised: bool,
}

impl DirectoryStreamWriter {
    /// The writer's state is internally consistent: the cursor tracks the
    /// segment's length, every fragment lies inside the written bytes, and
    /// the live fragments never cover more than was written.
    pub open spec fn wf(&self) -> bool {
        &&& self.fragments.wf()
        &&& self.current_pos == self.segment@.len()
        &&& self.flushed_pos <= self.current_pos
        &&& forall|p: Seq<u8>|
            self.fragments@.dom().contains(p) ==> frags_in_bounds(
                #[trigger] self.fragments@[p],
                self.current_pos as int,
            )
        &&& entries_size(self.fragments.entries@) <= self.current_pos
    }

    /// The logical files this writer holds: each present path maps to the
    /// concatenation of its fragments' bytes, in write order.
    pub open spec fn files(&self) -> Map<Seq<u8>, Seq<u8>> {
        content_map(self.segment@, self.fragments@)
    }

    /// A fresh writer with an empty segment.
    pub fn new() -> (r: DirectoryStreamWriter)
        ensures
            r.wf(),
            r.files() == Map::<Seq<u8>, Seq<u8>>::empty(),
            r.current_pos == 0,
            r.flushed_pos == 0,
            !r.finalised,
    {
        let r = DirectoryStreamWriter {
            segment: Vec::new(),
            current_pos: 0,
            flushed_pos: 0,
            fragments: DiskFragments::new(),
            finalised: false,
        };
        proof {
            assert(r.files() =~= Map::<Seq<u8>, Seq<u8>>::empty());
        }
        r
    }

    /// The segment's write cursor: how many bytes were ever appended.
    pub fn get_segment_size(&self) -> (r: u64)
        requires
            self.wf(),
        ensures
            r == self.current_pos,
    {
        self.current_pos as u64
    }

    /// Whether a logical file exists.
    pub fn file_exists(&self, path: &[u8]) -> (r: bool)
        requires
            self.wf(),
        ensures
            r == self.files().dom().contains(path@),
    {
        self.fragments.file_exists(path)
    }

    /// A logical file's length, or nothing if it does not exist.
    pub fn file_len(&self, path: &[u8]) -> (r: Option<usize>)
        requires
            self.wf(),
        ensures
            match r {
                Some(n) => self.files().dom().contains(path@) && n == self.files()[path@].len(),
                None => !self.files().dom().contains(path@),
            },
    {
        proof {
            if self.fragments@.dom().contains(path@) {
                lemma_frags_size_nonneg(self.fragments@[path@]);
                lemma_entries_size_of_contained(self.fragments, path@);
                lemma_file_bytes_len(self.segment@, self.fragments@[path@]);
            }
        }
        self.fragments.file_size(path)
    }

    /// Marks the writer closed; later writes, flushing reads and exports
    /// fail with `Finalised`.
    pub fn close(&mut self)
        requires
            old(self).wf(),
        ensures
            final(self).wf(),
            final(self).finalised,
            final(self).files() == old(self).files(),
            final(self).fragments@ == old(self).fragments@,
            final(self).segment@ == old(self).segment@,
            final(self).current_pos == old(self).current_pos,
            final(self).flushed_pos == old(self).flushed_pos,
    {
        self.finalised = true;
    }

    /// Removes a logical file. Physical bytes remain in the segment but
    /// become unreachable; deleting an absent file is not an error.
    pub fn delete_file(&mut self, path: &[u8]) -> (r: Result<(), SegmentError>)
        requires
            old(self).wf(),
        ensures
            r is Ok,
            final(self).wf(),
            final(self).files() == old(self).files().remove(path@),
            final(self).fragments@ == old(self).fragments@.remove(path@),
            final(self).segment@ == old(self).segment@,
            final(self).current_pos == old(self).current_pos,
            final(self).flushed_pos == old(self).flushed_pos,
            final(self).finalised == old(self).finalised,
    {
        self.fragments.clear_fragments(path);
        proof {
            assert_maps_equal!(self.files(), old(self).files().remove(path@), q => {});
        }
        Ok(())
    }

    /// Appends one write as a new fragment of the given logical file.
    ///
    /// An overwrite first drops the file's earlier fragments; an empty
    /// buffer never creates a fragment, so overwriting with nothing removes
    /// the file and appending nothing changes nothing.
    #[verifier::rlimit(100)]
    #[verifier::spinoff_prover]
    pub fn write_fragment(&mut self, path: Vec<u8>, buffer: &[u8], overwrite: bool) -> (r: Result<
        (),
        SegmentError,
    >)
        requires
            old(self).wf(),
        ensures
            match r {
                Ok(()) => {
                    &&& !old(self).finalised
                    &&& final(self).files() == write_effect(
                        old(self).files(),
                        path@,
                        buffer@,
                        overwrite,
                    )
                    &&& final(self).fragments@ == frags_effect(
                        old(self).fragments@,
                        path@,
                        Fragment {
                            start: old(self).current_pos as u64,
                            end: final(self).current_pos as u64,
                        },
                        overwrite,
                    )
                    &&& final(self).segment@ == old(self).segment@ + buffer@
                    &&& final(self).current_pos == old(self).current_pos + buffer@.len()
                    &&& final(self).flushed_pos == old(self).flushed_pos
                    &&& final(self).finalised == old(self).finalised
                },
                Err(e) => {
                    &&& e is Finalised
                    &&& old(self).finalised
                    &&& final(self).files() == old(self).files()
                    &&& final(self).fragments@ == old(self).fragments@
                    &&& final(self).segment@ == old(self).segment@
                    &&& final(self).current_pos == old(self).current_pos
                    &&& final(self).flushed_pos == old(self).flushed_pos
                    &&& final(self).finalised == old(self).finalised
                },
            },
            final(self).wf(),
    {
        if self.finalised {
            return Err(SegmentError::Finalised);
        }
        let ghost seg0 = self.segment@;
        let ghost fr0 = self.fragments@;
        let ghost pos0 = self.current_pos;
        let start = self.current_pos as u64;
        self.segment.extend_from_slice(buffer);
        self.current_pos = self.segment.len();
        let ghost seg1 = self.segment@;
        proof {
            assert(seg1 =~= seg0 + buffer@);
            assert forall|p: Seq<u8>| fr0.dom().contains(p) implies file_bytes(
                seg1,
                #[trigger] fr0[p],
            ) == file_bytes(seg0, fr0[p]) by {
                lemma_file_bytes_extend(seg0, seg1, fr0[p]);
            }
        }
        if buffer.len() == 0 {
            proof {
                assert(seg1 =~= seg0);
            }
            if overwrite {
                self.fragments.clear_fragments(path.as_slice());
                proof {
                    assert_maps_equal!(self.files(),
                        write_effect(old(self).files(), path@, buffer@, overwrite), q => {});
                }
            } else {
                proof {
                    assert_maps_equal!(self.files(),
                        write_effect(old(self).files(), path@, buffer@, overwrite), q => {});
                }
            }
            return Ok(());
        }
        let end = self.current_pos as u64;
        let location = Fragment { start, end };
        proof {
            if !overwrite && fr0.dom().contains(path@) {
                assert(frags_in_bounds(fr0[path@], pos0 as int));
                assert(fr0[path@].last().end <= location.start);
            }
        }
        let ghost path_view = path@;
        self.fragments.mark_fragment_location(path, location, overwrite);
        proof {
            let fr1 = self.fragments@;
            assert(frag_bytes(seg1, location) =~= buffer@);
            assert(file_bytes(seg1, seq![location]) == buffer@) by {
                assert(seq![location][0] == location);
                assert(seq![location].skip(1) =~= Seq::<Fragment>::empty());
                assert(file_bytes(seg1, Seq::<Fragment>::empty()) == Seq::<u8>::empty());
                assert(file_bytes(seg1, seq![location]) =~= buffer@);
            }
            if !(overwrite || !fr0.dom().contains(path_view)) {
                lemma_file_bytes_push(seg1, fr0[path_view], location);
            }
            assert_maps_equal!(self.files(),
                write_effect(old(self).files(), path_view, buffer@, overwrite), q => {});
            assert forall|p: Seq<u8>| fr1.dom().contains(p) implies frags_in_bounds(
                #[trigger] fr1[p],
                self.current_pos as int,
            ) by {
                if p != path_view {
                    assert(fr1[p] == fr0[p]);
                }
            }
        }
        Ok(())
    }
}

/// What a read of `[lo, hi)` of a file returns: that slice of its content,
/// truncated at the file's end. Reading past the end never errs; it returns
/// the bytes that exist.
pub open spec fn read_result(content: Seq<u8>, lo: int, hi: int) -> Seq<u8> {
    content.subrange(min(lo, content.len() as int), min(hi, content.len() as int))
}

impl DirectoryStreamWriter {
    /// Reads a byte range of a logical file, as if it were a file of its own.
    ///
    /// Resolving may address bytes past the flushed position; the writer then
    /// flushes first, and a closed writer fails instead. Bytes below the
    /// flushed position are served without flushing.
    #[verifier::rlimit(100)]
    #[verifier::spinoff_prover]
    pub fn read_range(&mut self, path: &[u8], lo: usize, hi: usize) -> (r: Result<
        Vec<u8>,
        SegmentError,
    >)
        requires
            old(self).wf(),
            lo <= hi,
        ensures
            final(self).wf(),
            final(self).files() == old(self).files(),
            final(self).fragments@ == old(self).fragments@,
            final(self).segment@ == old(self).segment@,
            final(self).current_pos == old(self).current_pos,
            final(self).finalised == old(self).finalised,
            r is Ok <==> old(self).files().dom().contains(path@) && !(old(self).finalised
                && frags_max_end(old(self).fragments@[path@]) > old(self).flushed_pos),
            match r {
                Ok(bytes) => {
                    &&& old(self).files().dom().contains(path@)
                    &&& bytes@ == read_result(old(self).files()[path@], lo as int, hi as int)
                    &&& final(self).flushed_pos == if frags_max_end(old(self).fragments@[path@])
                        > old(self).flushed_pos {
                        old(self).current_pos
                    } else {
                        old(self).flushed_pos
                    }
                },
                Err(e) => {
                    &&& final(self).flushed_pos == old(self).flushed_pos
                    &&& (e is NotFound <==> !old(self).files().dom().contains(path@))
                    &&& (e is Finalised <==> old(self).files().dom().contains(path@) && old(
                        self,
                    ).finalised && frags_max_end(old(self).fragments@[path@]) > old(
                        self,
                    ).flushed_pos)
                },
            },
    {
        let sel = match self.fragments.get_selected_fragments(path, lo, hi) {
            Err(e) => {
                return Err(e);
            },
            Ok(sel) => sel,
        };
        let ghost fs = self.fragments@[path@];
        let ghost seg = self.segment@;
        proof {
            lemma_view_list_wf(self.fragments, path@);
            lemma_frags_max_end_bound(fs, self.current_pos as int);
        }
        if sel.minimum_flushed_pos > self.flushed_pos as u64 {
            if self.finalised {
                return Err(SegmentError::Finalised);
            }
            self.flushed_pos = self.current_pos;
        }
        proof {
            lemma_selected_spec_bounds(fs, lo as int, hi - lo);
            lemma_selected_spec_correct(seg, fs, lo as int, hi - lo);
            lemma_file_bytes_len(seg, fs);
        }
        let ghost cv = chunks_view(sel.fragments@);
        let mut buffer: Vec<u8> = Vec::new();
        let n = sel.fragments.len();
        let mut k: usize = 0;
        proof {
            assert(cv.take(0) =~= Seq::<(int, int)>::empty());
            assert(buffer@ =~= chunks_bytes(seg, cv.take(0)));
        }
        while k < n
            invariant
                seg == self.segment@,
                self.current_pos == self.segment@.len(),
                cv == chunks_view(sel.fragments@),
                n == sel.fragments@.len(),
                0 <= k <= n,
                forall|j: int|
                    0 <= j < cv.len() ==> {
                        let c = #[trigger] cv[j];
                        0 <= c.0 && 0 < c.1 && c.0 + c.1 <= seg.len()
                    },
                buffer@ == chunks_bytes(seg, cv.take(k as int)),
            decreases n - k,
        {
            let c = *vstd::slice::slice_index_get(sel.fragments.as_slice(), k);
            proof {
                assert(cv[k as int] == (c.0 as int, c.1 as int));
            }
            let off = c.0 as usize;
            let part = vstd::slice::slice_subrange(self.segment.as_slice(), off, off + c.1);
            buffer.extend_from_slice(part);
            proof {
                assert(cv.take(k as int + 1) =~= cv.take(k as int).push(cv[k as int]));
                lemma_chunks_bytes_push(seg, cv.take(k as int), cv[k as int]);
                assert(part@ =~= chunk_bytes(seg, cv[k as int]));
                assert(buffer@ =~= chunks_bytes(seg, cv.take(k as int + 1)));
            }
            k = k + 1;
        }
        proof {
            assert(cv.take(n as int) =~= cv);
            assert(buffer@ == chunks_bytes(seg, cv));
        }
        Ok(buffer)
    }
}

/// Each recorded location's byte range holds exactly that file's content.
pub open spec fn locs_exact(
    out: Seq<u8>,
    locs: Seq<(Seq<u8>, u64, u64)>,
    files: Map<Seq<u8>, Seq<u8>>,
    mstart: int,
) -> bool {
    forall|k: int|
        0 <= k < locs.len() ==> {
            let loc = #[trigger] locs[k];
            &&& files.dom().contains(loc.0)
            &&& loc.1 <= loc.2 <= mstart
            &&& out.subrange(loc.1 as int, loc.2 as int) == files[loc.0]
        }
}

/// Every present logical file has a location.
pub open spec fn locs_complete(locs: Seq<(Seq<u8>, u64, u64)>, files: Map<Seq<u8>, Seq<u8>>) -> bool {
    forall|p: Seq<u8>|
        files.dom().contains(p) ==> exists|k: int| 0 <= k < locs.len() && (#[trigger] locs[k]).0 == p
}

/// Locations are recorded in strictly ascending path order.
pub open spec fn locs_sorted(locs: Seq<(Seq<u8>, u64, u64)>) -> bool {
    forall|k: int, l: int|
        0 <= k < l < locs.len() ==> lex_lt((#[trigger] locs[k]).0, (#[trigger] locs[l]).0)
}

/// The content regions pack the file from offset zero without gaps: the
/// first begins at zero, each next begins where the previous ended, and the
/// metadata begins where the last ended — so `metadata_start` equals the
/// total size of the logical content.
pub open spec fn locs_contiguous(locs: Seq<(Seq<u8>, u64, u64)>, mstart: int) -> bool {
    &&& locs.len() > 0 ==> locs[0].1 == 0
    &&& forall|k: int| 0 <= k < locs.len() - 1 ==> (#[trigger] locs[k]).2 == locs[k + 1].1
    &&& mstart == if locs.len() == 0 {
        0int
    } else {
        locs.last().2 as int
    }
}

/// A well-formed published segment, as a reader will see it: the last
/// sixteen bytes locate the metadata blob, the blob decodes to the hot cache
/// and one location per logical file in ascending path order, and each
/// location's byte range holds exactly that file's content.
pub open spec fn published_ok(out: Seq<u8>, files: Map<Seq<u8>, Seq<u8>>, hot: Seq<u8>) -> bool {
    &&& out.len() >= 16
    &&& {
        let mstart = spec_u64_from_be_bytes(
            out.subrange(out.len() - 16, out.len() - 8),
        ) as int;
        let mlen = spec_u64_from_be_bytes(out.subrange(out.len() - 8, out.len() as int)) as int;
        &&& mstart + mlen + 16 == out.len()
        &&& match meta_decoding(out.subrange(mstart, mstart + mlen)) {
            Some(r) => {
                &&& r.1 == hot
                &&& locs_exact(out, r.0, files, mstart)
                &&& locs_complete(r.0, files)
                &&& locs_sorted(r.0)
                &&& locs_contiguous(r.0, mstart)
            },
            None => false,
        }
    }
}

/// Appending an entry adds its list's size to the total.
proof fn lemma_entries_size_push(es: Seq<FileEntry>, e: FileEntry)
    ensures
        entries_size(es.push(e)) == entries_size(es) + frags_size(e.fragments@),
    decreases es.len(),
{
    if es.len() == 0 {
        assert(es.push(e)[0] == e);
        assert(es.push(e).skip(1) =~= Seq::<FileEntry>::empty());
        assert(entries_size(Seq::<FileEntry>::empty()) == 0);
    } else {
        assert(es.push(e)[0] == es[0]);
        assert(es.push(e).skip(1) =~= es.skip(1).push(e));
        lemma_entries_size_push(es.skip(1), e);
    }
}

/// The block size the disk-backed shells copy file contents with.
pub const BLOCK_SIZE: usize = 512 << 10;

/// A zeroed block buffer for a shell that copies file contents block by
/// block.
pub fn make_buffer() -> (r: Vec<u8>)
    ensures
        r@.len() == BLOCK_SIZE,
        forall|i: int| 0 <= i < r@.len() ==> r@[i] == 0u8,
{
    let r = vec![0u8; BLOCK_SIZE];
    r
}

/// Copies a byte vector.
pub fn clone_bytes(v: &Vec<u8>) -> (r: Vec<u8>)
    ensures
        r@ == v@,
{
    let mut r: Vec<u8> = Vec::new();
    r.extend_from_slice(v.as_slice());
    proof {
        assert(r@ =~= v@);
    }
    r
}

impl DirectoryStreamWriter {
    /// Exports all data written so far as a published segment: every live
    /// logical file copied contiguously in ascending path order, then the
    /// metadata blob, then the footer. The unverified shell writes the
    /// returned bytes to the output file and makes them durable.
    #[verifier::rlimit(100)]
    #[verifier::spinoff_prover]
    pub fn export_segment(&mut self, hot_cache: Vec<u8>) -> (r: Result<Vec<u8>, SegmentError>)
        requires
            old(self).wf(),
        ensures
            final(self).wf(),
            final(self).files() == old(self).files(),
            final(self).fragments@ == old(self).fragments@,
            final(self).segment@ == old(self).segment@,
            final(self).current_pos == old(self).current_pos,
            final(self).finalised == old(self).finalised,
            match r {
                Ok(out) => {
                    &&& !old(self).finalised
                    &&& final(self).flushed_pos == old(self).current_pos
                    &&& published_ok(out@, old(self).files(), hot_cache@)
                },
                Err(e) => {
                    &&& e is Finalised
                    &&& old(self).finalised
                    &&& final(self).flushed_pos == old(self).flushed_pos
                },
            },
    {
        if self.finalised {
            return Err(SegmentError::Finalised);
        }
        let ghost hot = hot_cache@;
        self.flushed_pos = self.current_pos;
        let ghost seg = self.segment@;
        let mut out: Vec<u8> = Vec::new();
        let mut metadata = SegmentMetadata::default();
        metadata.with_hot_cache(hot_cache);
        let n = self.fragments.inner().len();
        let ghost es = self.fragments.entries@;
        let mut i: usize = 0;
        proof {
            assert(es.take(0) =~= Seq::<FileEntry>::empty());
            assert(entries_size(Seq::<FileEntry>::empty()) == 0);
        }
        while i < n
            invariant
                self.wf(),
                seg == self.segment@,
                es == self.fragments.entries@,
                n == es.len(),
                0 <= i <= n,
                metadata@.1 == hot,
                metadata@.0.len() == i,
                out@.len() == entries_size(es.take(i as int)),
                i > 0 ==> metadata@.0[i - 1].2 == out@.len(),
                metadata@.0.len() > 0 ==> metadata@.0[0].1 == 0,
                forall|k: int|
                    0 <= k < i - 1 ==> (#[trigger] metadata@.0[k]).2 == metadata@.0[k + 1].1,
                forall|k: int|
                    0 <= k < i ==> {
                        let loc = #[trigger] metadata@.0[k];
                        &&& loc.0 == es[k].path@
                        &&& loc.1 <= loc.2
                        &&& loc.2 <= out@.len()
                        &&& out@.subrange(loc.1 as int, loc.2 as int) == file_bytes(
                            seg,
                            es[k].fragments@,
                        )
                    },
            decreases n - i,
        {
            let ghost fsq = es[i as int].fragments@;
            proof {
                lemma_map_index(es, i as int);
                assert(self.fragments@.dom().contains(es[i as int].path@));
                assert(self.fragments@[es[i as int].path@] == fsq);
                assert(frags_in_bounds(fsq, seg.len() as int));
                assert(frags_wf(fsq));
                lemma_frags_size_nonneg(fsq);
                lemma_file_bytes_len(seg, fsq);
            }
            let ghost pre_out = out@;
            let entry_path = clone_bytes(&self.fragments.inner()[i].path);
            let fstart = out.len() as u64;
            let m = self.fragments.inner()[i].fragments.len();
            let mut j: usize = 0;
            proof {
                assert(fsq.take(0) =~= Seq::<Fragment>::empty());
                assert(file_bytes(seg, Seq::<Fragment>::empty()) == Seq::<u8>::empty());
                assert(out@ =~= pre_out + file_bytes(seg, fsq.take(0)));
            }
            while j < m
                invariant
                    self.wf(),
                    seg == self.segment@,
                    es == self.fragments.entries@,
                    0 <= i < es.len(),
                    fsq == es[i as int].fragments@,
                    m == fsq.len(),
                    0 <= j <= m,
                    frags_in_bounds(fsq, seg.len() as int),
                    frags_wf(fsq),
                    out@ == pre_out + file_bytes(seg, fsq.take(j as int)),
                decreases m - j,
            {
                let f = *vstd::slice::slice_index_get(
                    self.fragments.inner()[i].fragments.as_slice(),
                    j,
                );
                proof {
                    assert(fsq[j as int] == f);
                }
                let part = vstd::slice::slice_subrange(
                    self.segment.as_slice(),
                    f.start as usize,
                    f.end as usize,
                );
                out.extend_from_slice(part);
                proof {
                    assert(fsq.take(j as int + 1) =~= fsq.take(j as int).push(fsq[j as int]));
                    lemma_file_bytes_push(seg, fsq.take(j as int), fsq[j as int]);
                    assert(part@ =~= frag_bytes(seg, fsq[j as int]));
                    assert(out@ =~= pre_out + file_bytes(seg, fsq.take(j as int + 1)));
                }
                j = j + 1;
            }
            proof {
                assert(fsq.take(m as int) =~= fsq);
            }
            let fend = out.len() as u64;
            let ghost meta0 = metadata@.0;
            proof {
                lemma_sorted_distinct(es);
                assert forall|k: int| 0 <= k < meta0.len() implies (#[trigger] meta0[k]).0 != es[
                    i as int
                ].path@ by {
                    assert(meta0[k].0 == es[k].path@);
                }
                crate::metadata::lemma_find_loc_index_none(meta0, es[i as int].path@);
            }
            metadata.add_file(entry_path, fstart, fend);
            proof {
                assert(metadata@.0 == meta0.push((es[i as int].path@, fstart, fend)));
                assert(es.take(i as int + 1) =~= es.take(i as int).push(es[i as int]));
                lemma_entries_size_push(es.take(i as int), es[i as int]);
                assert(out@.subrange(fstart as int, fend as int) =~= file_bytes(seg, fsq));
                assert forall|k: int| 0 <= k < i implies {
                    let loc = #[trigger] metadata@.0[k];
                    &&& loc.0 == es[k].path@
                    &&& loc.1 <= loc.2
                    &&& loc.2 <= out@.len()
                    &&& out@.subrange(loc.1 as int, loc.2 as int) == file_bytes(
                        seg,
                        es[k].fragments@,
                    )
                } by {
                    let loc = metadata@.0[k];
                    assert(loc == meta0[k]);
                    assert(out@.subrange(loc.1 as int, loc.2 as int) =~= pre_out.subrange(
                        loc.1 as int,
                        loc.2 as int,
                    ));
                }
            }
            i = i + 1;
        }
        proof {
            assert(es.take(n as int) =~= es);
        }
        let mstart = out.len() as u64;
        let mbytes = metadata.to_bytes();
        let mlen = mbytes.len() as u64;
        let ghost content_out = out@;
        let ghost locs = metadata@.0;
        out.extend_from_slice(mbytes.as_slice());
        write_metadata_offsets(&mut out, mstart, mlen);
        proof {
            assert(out@ =~= content_out + mbytes@ + spec_u64_to_be_bytes(mstart)
                + spec_u64_to_be_bytes(mlen));
            assert forall|k: int| 0 <= k < locs.len() implies (#[trigger] locs[k]).0.len()
                < 0x1_0000_0000_0000_0000 by {
                assert(locs[k].0 == es[k].path@);
                assert(es[k].path@.len() == es[k].path.len());
            }
            assert(hot.len() < 0x1_0000_0000_0000_0000);
            lemma_export_published(
                out@,
                content_out,
                mbytes@,
                mstart,
                mlen,
                locs,
                hot,
                seg,
                es,
                old(self).files(),
            );
        }
        Ok(out)
    }
}

/// Assembles the export postcondition from the loop's facts: the copied
/// content region, the encoded metadata, and the footer together form a
/// well-formed published segment.
#[verifier::rlimit(100)]
#[verifier::spinoff_prover]
proof fn lemma_export_published(
    out: Seq<u8>,
    content_out: Seq<u8>,
    mbytes: Seq<u8>,
    mstart: u64,
    mlen: u64,
    locs: Seq<(Seq<u8>, u64, u64)>,
    hot: Seq<u8>,
    seg: Seq<u8>,
    es: Seq<FileEntry>,
    files: Map<Seq<u8>, Seq<u8>>,
)
    requires
        out == content_out + mbytes + spec_u64_to_be_bytes(mstart) + spec_u64_to_be_bytes(mlen),
        content_out.len() == mstart as int,
        mbytes == meta_encoding(locs, hot),
        mlen as int == mbytes.len(),
        locs.len() == es.len(),
        locs.len() < 0x1_0000_0000_0000_0000,
        hot.len() < 0x1_0000_0000_0000_0000,
        forall|k: int|
            0 <= k < locs.len() ==> (#[trigger] locs[k]).0.len() < 0x1_0000_0000_0000_0000,
        forall|k: int|
            0 <= k < locs.len() ==> {
                let loc = #[trigger] locs[k];
                &&& loc.0 == es[k].path@
                &&& loc.1 <= loc.2
                &&& loc.2 as int <= content_out.len()
                &&& content_out.subrange(loc.1 as int, loc.2 as int) == file_bytes(
                    seg,
                    es[k].fragments@,
                )
            },
        locs.len() > 0 ==> locs[0].1 == 0,
        forall|k: int| 0 <= k < locs.len() - 1 ==> (#[trigger] locs[k]).2 == locs[k + 1].1,
        mstart as int == if locs.len() == 0 {
            0int
        } else {
            locs.last().2 as int
        },
        sorted_entries(es),
        files == content_map(seg, entries_map(es)),
    ensures
        published_ok(out, files, hot),
{
    lemma_u64_to_from_be_bytes(mstart);
    lemma_u64_to_from_be_bytes(mlen);
    assert(out.len() == mstart + mlen + 16);
    assert(out.subrange(out.len() - 16, out.len() - 8) =~= spec_u64_to_be_bytes(mstart));
    assert(out.subrange(out.len() - 8, out.len() as int) =~= spec_u64_to_be_bytes(mlen));
    assert(out.subrange(mstart as int, mstart + mlen) =~= mbytes);
    lemma_meta_round_trip(locs, hot);
    assert(meta_decoding(out.subrange(mstart as int, mstart + mlen)) == Some((locs, hot)));
    lemma_locs_against_entries(out, content_out, locs, seg, es, files, mstart);
    assert(locs_contiguous(locs, mstart as int));
    let r = (locs, hot);
    assert(r.0 == locs && r.1 == hot);
}

/// The locations built from sorted index entries describe the copied content
/// region exactly, completely, and in ascending path order.
#[verifier::rlimit(100)]
#[verifier::spinoff_prover]
proof fn lemma_locs_against_entries(
    out: Seq<u8>,
    content_out: Seq<u8>,
    locs: Seq<(Seq<u8>, u64, u64)>,
    seg: Seq<u8>,
    es: Seq<FileEntry>,
    files: Map<Seq<u8>, Seq<u8>>,
    mstart: u64,
)
    requires
        out.len() >= content_out.len(),
        forall|k: int| 0 <= k < content_out.len() ==> content_out[k] == out[k],
        content_out.len() == mstart as int,
        locs.len() == es.len(),
        forall|k: int|
            0 <= k < locs.len() ==> {
                let loc = #[trigger] locs[k];
                &&& loc.0 == es[k].path@
                &&& loc.1 <= loc.2
                &&& loc.2 as int <= content_out.len()
                &&& content_out.subrange(loc.1 as int, loc.2 as int) == file_bytes(
                    seg,
                    es[k].fragments@,
                )
            },
        sorted_entries(es),
        files == content_map(seg, entries_map(es)),
    ensures
        locs_exact(out, locs, files, mstart as int),
        locs_complete(locs, files),
        locs_sorted(locs),
{
    assert forall|k: int| 0 <= k < locs.len() implies {
        let loc = #[trigger] locs[k];
        &&& files.dom().contains(loc.0)
        &&& loc.1 <= loc.2 <= mstart as int
        &&& out.subrange(loc.1 as int, loc.2 as int) == files[loc.0]
    } by {
        let loc = locs[k];
        lemma_map_index(es, k);
        assert(out.subrange(loc.1 as int, loc.2 as int) =~= content_out.subrange(
            loc.1 as int,
            loc.2 as int,
        ));
        assert(files[loc.0] == file_bytes(seg, entries_map(es)[es[k].path@]));
    }
    assert forall|p: Seq<u8>| files.dom().contains(p) implies exists|k: int|
        0 <= k < locs.len() && (#[trigger] locs[k]).0 == p by {
        let w = choose|w: int| 0 <= w < es.len() && es[w].path@ == p;
        assert(0 <= w < locs.len() && locs[w].0 == p);
    }
    assert forall|k: int, l: int| 0 <= k < l < locs.len() implies lex_lt(
        (#[trigger] locs[k]).0,
        (#[trigger] locs[l]).0,
    ) by {
        assert(locs[k].0 == es[k].path@);
        assert(locs[l].0 == es[l].path@);
    }
    assert(locs_exact(out, locs, files, mstart as int));
    assert(locs_complete(locs, files));
    assert(locs_sorted(locs));
}

impl DirectoryStreamWriter {
    /// Appends one owned write as a new fragment of the given logical file.
    pub fn write_fragment_owned(&mut self, path: Vec<u8>, buffer: Vec<u8>, overwrite: bool) -> (r:
        Result<(), SegmentError>)
        requires
            old(self).wf(),
        ensures
            match r {
                Ok(()) => {
                    &&& !old(self).finalised
                    &&& final(self).files() == write_effect(
                        old(self).files(),
                        path@,
                        buffer@,
                        overwrite,
                    )
                    &&& final(self).fragments@ == frags_effect(
                        old(self).fragments@,
                        path@,
                        Fragment {
                            start: old(self).current_pos as u64,
                            end: final(self).current_pos as u64,
                        },
                        overwrite,
                    )
                    &&& final(self).segment@ == old(self).segment@ + buffer@
                    &&& final(self).current_pos == old(self).current_pos + buffer@.len()
                    &&& final(self).flushed_pos == old(self).flushed_pos
                    &&& final(self).finalised == old(self).finalised
                },
                Err(e) => {
                    &&& e is Finalised
                    &&& old(self).finalised
                    &&& final(self).files() == old(self).files()
                    &&& final(self).fragments@ == old(self).fragments@
                    &&& final(self).segment@ == old(self).segment@
                    &&& final(self).current_pos == old(self).current_pos
                    &&& final(self).flushed_pos == old(self).flushed_pos
                    &&& final(self).finalised == old(self).finalised
                },
            },
            final(self).wf(),
    {
        self.write_fragment(path, buffer.as_slice(), overwrite)
    }
}

/// A path present in a well-formed index maps to a well-formed, non-empty
/// fragment list.
pub proof fn lemma_view_list_wf(frags: DiskFragments, p: Seq<u8>)
    requires
        frags.wf(),
        frags@.dom().contains(p),
    ensures
        frags_wf(frags@[p]),
        frags@[p].len() > 0,
{
    let es = frags.entries@;
    let w = choose|w: int| 0 <= w < es.len() && es[w].path@ == p;
    lemma_map_index(es, w);
}

/// A file present in a well-formed index is no larger than all files together.
pub proof fn lemma_entries_size_of_contained(frags: DiskFragments, p: Seq<u8>)
    requires
        frags.wf(),
        frags@.dom().contains(p),
    ensures
        frags_size(frags@[p]) <= entries_size(frags.entries@),
{
    let es = frags.entries@;
    let w = choose|w: int| 0 <= w < es.len() && es[w].path@ == p;
    lemma_map_index(es, w);
    lemma_contained_size(es, w);
}

/// One entry's list covers no more than all entries together.
pub proof fn lemma_contained_size(es: Seq<FileEntry>, w: int)
    requires
        0 <= w < es.len(),
        forall|i: int| 0 <= i < es.len() ==> frags_wf((#[trigger] es[i]).fragments@),
    ensures
        frags_size(es[w].fragments@) <= entries_size(es),
    decreases es.len(),
{
    lemma_entries_size_nonneg(es.skip(1));
    if w == 0 {
    } else {
        lemma_contained_size(es.skip(1), w - 1);
        lemma_frags_size_nonneg(es[0].fragments@);
    }
}

/// All files of a well-formed index together cover a non-negative total.
pub proof fn lemma_entries_size_nonneg(es: Seq<FileEntry>)
    requires
        forall|i: int| 0 <= i < es.len() ==> frags_wf((#[trigger] es[i]).fragments@),
    ensures
        entries_size(es) >= 0,
    decreases es.len(),
{
    if es.len() > 0 {
        lemma_frags_size_nonneg(es[0].fragments@);
        lemma_entries_size_nonneg(es.skip(1));
    }
}

} // verus!

//! The published segment's metadata blob and fixed-width footer.
//!
//! The metadata maps each logical path to the contiguous byte range holding
//! its content in the published file, and carries a caller-supplied hot-cache
//! blob verbatim. It is encoded in a self-delimiting binary form — every
//! integer as eight big-endian bytes, every byte string length-prefixed —
//! and decoding validates untrusted bytes, accepting exactly the encodings.
//!
//! The footer is the last sixteen bytes of a published segment:
//! `metadata_start` and `metadata_length`, both unsigned big-endian.

use vstd::prelude::*;

use crate::codec::{
    lemma_u64_to_from_be_bytes,
    spec_u64_from_be_bytes,
    spec_u64_to_be_bytes,
    u64_read_be_bytes,
    u64_write_be_bytes,
};
use crate::errors::SegmentError;
use crate::paths::{path_cmp, PathOrd};

verus! {

/// The byte width of the footer: two big-endian 64-bit integers.
pub const METADATA_HEADER_SIZE: usize = 16;

/// Where one logical file lies in the published segment.
pub struct FileLocation {
    pub path: Vec<u8>,
    pub start: u64,
    pub end: u64,
}

impl View for FileLocation {
    type V = (Seq<u8>, u64, u64);

    open spec fn view(&self) -> (Seq<u8>, u64, u64) {
        (self.path@, self.start, self.end)
    }
}

/// The mathematical shadow of a location list.
pub open spec fn files_view(fs: Seq<FileLocation>) -> Seq<(Seq<u8>, u64, u64)> {
    fs.map_values(|f: FileLocation| f@)
}

/// The location recorded for a path, if any. `add_file` keeps at most one
/// record per path, so the first match is the path's current record.
pub open spec fn find_loc(fs: Seq<(Seq<u8>, u64, u64)>, p: Seq<u8>) -> Option<(u64, u64)>
    decreases fs.len(),
{
    if fs.len() == 0 {
        None
    } else if fs[0].0 == p {
        Some((fs[0].1, fs[0].2))
    } else {
        find_loc(fs.skip(1), p)
    }
}

/// The position of the first record for a path; the list's length for none.
pub open spec fn find_loc_index(fs: Seq<(Seq<u8>, u64, u64)>, p: Seq<u8>) -> int
    decreases fs.len(),
{
    if fs.len() == 0 {
        0int
    } else if fs[0].0 == p {
        0int
    } else {
        1 + find_loc_index(fs.skip(1), p)
    }
}

/// What recording a location does: the most recent record for a path wins,
/// replacing an earlier one in place; a fresh path is appended.
pub open spec fn add_file_effect(
    fs: Seq<(Seq<u8>, u64, u64)>,
    f: (Seq<u8>, u64, u64),
) -> Seq<(Seq<u8>, u64, u64)> {
    let i = find_loc_index(fs, f.0);
    if i < fs.len() {
        fs.update(i, f)
    } else {
        fs.push(f)
    }
}

/// The first record's position points at a record for the path, below which
/// none exists; a position past the end means no record at all.
pub proof fn lemma_find_loc_index(fs: Seq<(Seq<u8>, u64, u64)>, p: Seq<u8>)
    ensures
        0 <= find_loc_index(fs, p) <= fs.len(),
        find_loc_index(fs, p) < fs.len() ==> fs[find_loc_index(fs, p)].0 == p,
        forall|k: int| 0 <= k < find_loc_index(fs, p) ==> (#[trigger] fs[k]).0 != p,
        find_loc_index(fs, p) == fs.len() ==> find_loc(fs, p) is None,
        find_loc_index(fs, p) < fs.len() ==> find_loc(fs, p) == Some(
            (fs[find_loc_index(fs, p)].1, fs[find_loc_index(fs, p)].2),
        ),
    decreases fs.len(),
{
    if fs.len() > 0 && fs[0].0 != p {
        lemma_find_loc_index(fs.skip(1), p);
        assert forall|k: int| 0 <= k < find_loc_index(fs, p) implies (#[trigger] fs[k]).0 != p by {
            if k >= 1 {
                assert(fs[k] == fs.skip(1)[k - 1]);
            }
        }
    }
}

/// After recording a location, looking its path up finds it, and every other
/// path's record is untouched.
pub proof fn lemma_add_file_effect(fs: Seq<(Seq<u8>, u64, u64)>, f: (Seq<u8>, u64, u64))
    ensures
        find_loc(add_file_effect(fs, f), f.0) == Some((f.1, f.2)),
        forall|q: Seq<u8>| q != f.0 ==> find_loc(add_file_effect(fs, f), q) == find_loc(fs, q),
    decreases fs.len(),
{
    let fs2 = add_file_effect(fs, f);
    lemma_find_loc_index(fs, f.0);
    if fs.len() == 0 {
        assert(fs2 == fs.push(f));
        assert(fs2[0] == f);
        assert(fs2.skip(1) =~= Seq::<(Seq<u8>, u64, u64)>::empty());
        assert forall|q: Seq<u8>| q != f.0 implies find_loc(fs2, q) == find_loc(fs, q) by {
            assert(find_loc(fs2, q) == find_loc(fs2.skip(1), q));
            assert(find_loc(fs2.skip(1), q) is None);
            assert(find_loc(fs, q) is None);
        }
    } else if fs[0].0 == f.0 {
        assert(fs2 == fs.update(0, f));
        assert(fs2[0] == f);
        assert(fs2.skip(1) =~= fs.skip(1));
        assert forall|q: Seq<u8>| q != f.0 implies find_loc(fs2, q) == find_loc(fs, q) by {
            assert(find_loc(fs2, q) == find_loc(fs2.skip(1), q));
            assert(find_loc(fs, q) == find_loc(fs.skip(1), q));
        }
    } else {
        assert(fs2[0] == fs[0]);
        assert(fs2.skip(1) =~= add_file_effect(fs.skip(1), f)) by {
            if find_loc_index(fs, f.0) < fs.len() {
                assert(fs2 == fs.update(find_loc_index(fs, f.0), f));
                assert(fs2.skip(1) =~= fs.skip(1).update(find_loc_index(fs.skip(1), f.0), f));
            } else {
                assert(fs2 == fs.push(f));
                assert(fs2.skip(1) =~= fs.skip(1).push(f));
            }
        }
        lemma_add_file_effect(fs.skip(1), f);
        assert(find_loc(fs2, f.0) == find_loc(fs2.skip(1), f.0));
        assert(find_loc(fs2.skip(1), f.0) == Some((f.1, f.2)));
        assert forall|q: Seq<u8>| q != f.0 implies find_loc(fs2, q) == find_loc(fs, q) by {
            assert(fs2.skip(1) == add_file_effect(fs.skip(1), f));
            if fs2[0].0 != q {
                assert(find_loc(fs2, q) == find_loc(fs2.skip(1), q));
                assert(find_loc(fs, q) == find_loc(fs.skip(1), q));
            }
        }
    }
}

/// The first record for a path sits exactly where a scan first meets it.
pub proof fn lemma_find_loc_index_at(fs: Seq<(Seq<u8>, u64, u64)>, p: Seq<u8>, k: int)
    requires
        0 <= k < fs.len(),
        fs[k].0 == p,
        forall|j: int| 0 <= j < k ==> (#[trigger] fs[j]).0 != p,
    ensures
        find_loc_index(fs, p) == k,
    decreases k,
{
    if k > 0 {
        lemma_find_loc_index_at(fs.skip(1), p, k - 1);
    }
}

/// A path nobody recorded has no first record.
pub proof fn lemma_find_loc_index_none(fs: Seq<(Seq<u8>, u64, u64)>, p: Seq<u8>)
    requires
        forall|k: int| 0 <= k < fs.len() ==> (#[trigger] fs[k]).0 != p,
    ensures
        find_loc_index(fs, p) == fs.len(),
    decreases fs.len(),
{
    if fs.len() > 0 {
        lemma_find_loc_index_none(fs.skip(1), p);
    }
}

/// The encoding of one location: length-prefixed path, then both offsets.
pub open spec fn enc_file(f: (Seq<u8>, u64, u64)) -> Seq<u8> {
    spec_u64_to_be_bytes(f.0.len() as u64) + f.0 + spec_u64_to_be_bytes(f.1)
        + spec_u64_to_be_bytes(f.2)
}

/// The encoding of a location list, in list order.
pub open spec fn enc_files(fs: Seq<(Seq<u8>, u64, u64)>) -> Seq<u8>
    decreases fs.len(),
{
    if fs.len() == 0 {
        Seq::empty()
    } else {
        enc_file(fs[0]) + enc_files(fs.skip(1))
    }
}

/// The encoding of whole metadata: counted locations, then the hot cache.
pub open spec fn meta_encoding(files: Seq<(Seq<u8>, u64, u64)>, hot: Seq<u8>) -> Seq<u8> {
    spec_u64_to_be_bytes(files.len() as u64) + enc_files(files) + spec_u64_to_be_bytes(
        hot.len() as u64,
    ) + hot
}

/// Decodes `n` locations off the front of `b`; what follows them is handed
/// back. Ill-formed bytes decode to nothing.
pub open spec fn dec_files(b: Seq<u8>, n: nat) -> Option<(Seq<(Seq<u8>, u64, u64)>, Seq<u8>)>
    decreases n,
{
    if n == 0 {
        Some((Seq::empty(), b))
    } else if b.len() < 8 {
        None
    } else {
        let plen = spec_u64_from_be_bytes(b.subrange(0, 8)) as int;
        if b.len() < 24 + plen {
            None
        } else {
            let path = b.subrange(8, 8 + plen);
            let start = spec_u64_from_be_bytes(b.subrange(8 + plen, 16 + plen));
            let end = spec_u64_from_be_bytes(b.subrange(16 + plen, 24 + plen));
            match dec_files(b.skip(24 + plen), (n - 1) as nat) {
                None => None,
                Some(r) => Some((seq![(path, start, end)] + r.0, r.1)),
            }
        }
    }
}

/// Decodes a whole metadata blob. The hot cache must consume exactly the
/// remainder, so every byte of the blob is accounted for.
pub open spec fn meta_decoding(b: Seq<u8>) -> Option<(Seq<(Seq<u8>, u64, u64)>, Seq<u8>)> {
    if b.len() < 8 {
        None
    } else {
        let n = spec_u64_from_be_bytes(b.subrange(0, 8));
        match dec_files(b.skip(8), n as nat) {
            None => None,
            Some(r) => {
                let tail = r.1;
                if tail.len() < 8 {
                    None
                } else {
                    let hlen = spec_u64_from_be_bytes(tail.subrange(0, 8)) as int;
                    if tail.len() != 8 + hlen {
                        None
                    } else {
                        Some((r.0, tail.skip(8)))
                    }
                }
            },
        }
    }
}

/// Appending a location extends the encoding at its end.
pub proof fn lemma_enc_files_push(fs: Seq<(Seq<u8>, u64, u64)>, f: (Seq<u8>, u64, u64))
    ensures
        enc_files(fs.push(f)) == enc_files(fs) + enc_file(f),
    decreases fs.len(),
{
    if fs.len() == 0 {
        assert(fs.push(f)[0] == f);
        assert(fs.push(f).skip(1) =~= Seq::<(Seq<u8>, u64, u64)>::empty());
        assert(enc_files(Seq::<(Seq<u8>, u64, u64)>::empty()) == Seq::<u8>::empty());
        assert(enc_files(fs.push(f)) =~= enc_files(fs) + enc_file(f));
    } else {
        assert(fs.push(f)[0] == fs[0]);
        assert(fs.push(f).skip(1) =~= fs.skip(1).push(f));
        lemma_enc_files_push(fs.skip(1), f);
        assert(enc_files(fs.push(f)) =~= enc_files(fs) + enc_file(f));
    }
}

/// Decoding undoes encoding for any location list and any remainder.
pub proof fn lemma_dec_enc_files(fs: Seq<(Seq<u8>, u64, u64)>, tail: Seq<u8>)
    requires
        forall|i: int| 0 <= i < fs.len() ==> (#[trigger] fs[i]).0.len() < 0x1_0000_0000_0000_0000,
    ensures
        dec_files(enc_files(fs) + tail, fs.len() as nat) == Some((fs, tail)),
    decreases fs.len(),
{
    if fs.len() == 0 {
        assert(enc_files(fs) + tail =~= tail);
    } else {
        let f = fs[0];
        let b = enc_files(fs) + tail;
        let plen = f.0.len() as int;
        lemma_u64_to_from_be_bytes(f.0.len() as u64);
        lemma_u64_to_from_be_bytes(f.1);
        lemma_u64_to_from_be_bytes(f.2);
        assert(b.subrange(0, 8) =~= spec_u64_to_be_bytes(f.0.len() as u64));
        assert(b.len() >= 24 + plen);
        assert(spec_u64_from_be_bytes(b.subrange(0, 8)) as int == plen);
        assert(b.subrange(8, 8 + plen) =~= f.0);
        assert(b.subrange(8 + plen, 16 + plen) =~= spec_u64_to_be_bytes(f.1));
        assert(b.subrange(16 + plen, 24 + plen) =~= spec_u64_to_be_bytes(f.2));
        assert(b.skip(24 + plen) =~= enc_files(fs.skip(1)) + tail);
        lemma_dec_enc_files(fs.skip(1), tail);
        assert(seq![(f.0, f.1, f.2)] + fs.skip(1) =~= fs);
    }
}

/// A metadata blob decodes back to exactly what was encoded.
pub proof fn lemma_meta_round_trip(files: Seq<(Seq<u8>, u64, u64)>, hot: Seq<u8>)
    requires
        files.len() < 0x1_0000_0000_0000_0000,
        hot.len() < 0x1_0000_0000_0000_0000,
        forall|i: int|
            0 <= i < files.len() ==> (#[trigger] files[i]).0.len() < 0x1_0000_0000_0000_0000,
    ensures
        meta_decoding(meta_encoding(files, hot)) == Some((files, hot)),
{
    let b = meta_encoding(files, hot);
    let tail = spec_u64_to_be_bytes(hot.len() as u64) + hot;
    lemma_u64_to_from_be_bytes(files.len() as u64);
    lemma_u64_to_from_be_bytes(hot.len() as u64);
    assert(b.subrange(0, 8) =~= spec_u64_to_be_bytes(files.len() as u64));
    assert(b.skip(8) =~= enc_files(files) + tail);
    lemma_dec_enc_files(files, tail);
    assert(tail.subrange(0, 8) =~= spec_u64_to_be_bytes(hot.len() as u64));
    assert(tail.skip(8) =~= hot);
}

/// The metadata of one published segment: where each logical file lies, and
/// an opaque warm-start payload.
pub struct SegmentMetadata {
    pub files: Vec<FileLocation>,
    pub hot_cache: Vec<u8>,
}

impl View for SegmentMetadata {
    type V = (Seq<(Seq<u8>, u64, u64)>, Seq<u8>);

    open spec fn view(&self) -> (Seq<(Seq<u8>, u64, u64)>, Seq<u8>) {
        (files_view(self.files@), self.hot_cache@)
    }
}

impl Default for SegmentMetadata {
    /// Empty metadata: no files, no hot cache.
    fn default() -> (r: SegmentMetadata)
        ensures
            r@.0 == Seq::<(Seq<u8>, u64, u64)>::empty(),
            r@.1 == Seq::<u8>::empty(),
    {
        let r = SegmentMetadata { files: Vec::new(), hot_cache: Vec::new() };
        proof {
            assert(r@.0 =~= Seq::<(Seq<u8>, u64, u64)>::empty());
        }
        r
    }
}

impl SegmentMetadata {
    /// Replaces the hot-cache blob.
    pub fn with_hot_cache(&mut self, buf: Vec<u8>)
        ensures
            final(self)@.0 == old(self)@.0,
            final(self)@.1 == buf@,
    {
        self.hot_cache = buf;
    }

    /// Records where a logical file lies in the published segment. The most
    /// recent insertion wins: a path recorded before has its record replaced
    /// in place, a fresh path is appended.
    pub fn add_file(&mut self, file: Vec<u8>, start: u64, end: u64)
        ensures
            final(self)@.0 == add_file_effect(old(self)@.0, (file@, start, end)),
            final(self)@.1 == old(self)@.1,
            find_loc(final(self)@.0, file@) == Some((start, end)),
            forall|q: Seq<u8>|
                q != file@ ==> find_loc(final(self)@.0, q) == find_loc(old(self)@.0, q),
    {
        let ghost before = self.files@;
        let ghost fv = files_view(self.files@);
        let ghost f = (file@, start, end);
        proof {
            lemma_find_loc_index(fv, file@);
            lemma_add_file_effect(fv, f);
        }
        let n = self.files.len();
        let mut k: usize = 0;
        while k < n
            invariant
                before == self.files@,
                self.files@ == old(self).files@,
                self.hot_cache@ == old(self).hot_cache@,
                fv == files_view(self.files@),
                f == (file@, start, end),
                n == self.files@.len(),
                0 <= k <= n,
                forall|j: int| 0 <= j < k ==> (#[trigger] fv[j]).0 != file@,
            decreases n - k,
        {
            match path_cmp(self.files[k].path.as_slice(), file.as_slice()) {
                PathOrd::Equal => {
                    proof {
                        lemma_find_loc_index_at(fv, file@, k as int);
                        lemma_find_loc_index(fv, file@);
                        lemma_add_file_effect(fv, f);
                    }
                    self.files.set(k, FileLocation { path: file, start, end });
                    proof {
                        assert forall|j: int| 0 <= j < files_view(self.files@).len() implies
                            files_view(self.files@)[j] == fv.update(k as int, f)[j] by {
                            if j != k as int {
                                assert(self.files@[j] == before[j]);
                            }
                        }
                        assert(files_view(self.files@) =~= fv.update(k as int, f));
                    }
                    return ;
                },
                _ => {},
            }
            k = k + 1;
        }
        proof {
            lemma_find_loc_index_none(fv, file@);
        }
        self.files.push(FileLocation { path: file, start, end });
        proof {
            assert(files_view(self.files@) =~= fv.push(f));
        }
    }

    /// Looks a logical file's range up; the path's current record, since the
    /// most recent insertion replaced any earlier one.
    pub fn get_location(&self, file: &[u8]) -> (r: Option<(u64, u64)>)
        ensures
            r == find_loc(self@.0, file@),
    {
        let ghost fv = files_view(self.files@);
        let n = self.files.len();
        let mut k: usize = 0;
        proof {
            assert(fv.skip(0) =~= fv);
        }
        while k < n
            invariant
                fv == files_view(self.files@),
                n == self.files@.len(),
                0 <= k <= n,
                find_loc(fv.skip(k as int), file@) == find_loc(fv, file@),
            decreases n - k,
        {
            proof {
                assert(fv.skip(k as int)[0] == fv[k as int]);
                assert(fv.skip(k as int).skip(1) =~= fv.skip(k as int + 1));
            }
            let entry = &self.files[k];
            match path_cmp(entry.path.as_slice(), file) {
                PathOrd::Equal => {
                    return Some((entry.start, entry.end));
                },
                _ => {},
            }
            k = k + 1;
        }
        proof {
            assert(fv.skip(n as int) =~= Seq::<(Seq<u8>, u64, u64)>::empty());
        }
        None
    }

    /// The recorded locations, in recording order.
    pub fn files(&self) -> (r: &Vec<FileLocation>)
        ensures
            r@ == self.files@,
            files_view(r@) == self@.0,
    {
        &self.files
    }

    /// Encodes the metadata into its on-disk form.
    pub fn to_bytes(&self) -> (r: Vec<u8>)
        ensures
            r@ == meta_encoding(self@.0, self@.1),
    {
        let ghost fv = files_view(self.files@);
        let mut out: Vec<u8> = Vec::new();
        u64_write_be_bytes(&mut out, self.files.len() as u64);
        let n = self.files.len();
        let mut k: usize = 0;
        proof {
            assert(fv.take(0) =~= Seq::<(Seq<u8>, u64, u64)>::empty());
            assert(out@ =~= spec_u64_to_be_bytes(fv.len() as u64) + enc_files(fv.take(0)));
        }
        while k < n
            invariant
                fv == files_view(self.files@),
                n == self.files@.len(),
                0 <= k <= n,
                out@ == spec_u64_to_be_bytes(fv.len() as u64) + enc_files(fv.take(k as int)),
            decreases n - k,
        {
            let entry = &self.files[k];
            u64_write_be_bytes(&mut out, entry.path.len() as u64);
            out.extend_from_slice(entry.path.as_slice());
            u64_write_be_bytes(&mut out, entry.start);
            u64_write_be_bytes(&mut out, entry.end);
            proof {
                assert(fv.take(k as int + 1) =~= fv.take(k as int).push(fv[k as int]));
                lemma_enc_files_push(fv.take(k as int), fv[k as int]);
                assert(out@ =~= spec_u64_to_be_bytes(fv.len() as u64) + enc_files(
                    fv.take(k as int + 1),
                ));
            }
            k = k + 1;
        }
        u64_write_be_bytes(&mut out, self.hot_cache.len() as u64);
        out.extend_from_slice(self.hot_cache.as_slice());
        proof {
            assert(fv.take(n as int) =~= fv);
            assert(out@ =~= meta_encoding(self@.0, self@.1));
        }
        out
    }

    /// Decodes metadata from untrusted bytes, accepting exactly the bytes
    /// that some metadata encodes to.
    pub fn from_buffer(buf: &[u8]) -> (r: Result<SegmentMetadata, SegmentError>)
        ensures
            match r {
                Ok(m) => meta_decoding(buf@) == Some(m@),
                Err(e) => e is Serialization && meta_decoding(buf@) is None,
            },
    {
        let buf_len: usize = buf.len();
        if buf_len < 8 {
            return Err(SegmentError::Serialization);
        }
        let n = u64_read_be_bytes(buf, 0);
        let ghost whole = buf@.skip(8);
        let mut files: Vec<FileLocation> = Vec::new();
        let mut cursor: usize = 8;
        let mut i: u64 = 0;
        proof {
            assert(buf@.subrange(0, 8) =~= buf@.subrange(0int, 0int + 8));
            assert(files_view(files@) =~= Seq::<(Seq<u8>, u64, u64)>::empty());
            assert(dec_prepend(files_view(files@), dec_files(buf@.skip(8), n as nat))
                == dec_files(whole, n as nat)) by {
                match dec_files(buf@.skip(8), n as nat) {
                    None => {},
                    Some(r) => {
                        assert(files_view(files@) + r.0 =~= r.0);
                    },
                }
            }
        }
        while i < n
            invariant
                buf_len == buf@.len(),
                buf@.len() >= 8,
                whole == buf@.skip(8),
                n == spec_u64_from_be_bytes(buf@.subrange(0, 8)),
                8 <= cursor <= buf@.len(),
                0 <= i <= n,
                dec_prepend(files_view(files@), dec_files(buf@.skip(cursor as int), (n - i) as nat))
                    == dec_files(whole, n as nat),
            decreases n - i,
        {
            let ghost acc = files_view(files@);
            let ghost b = buf@.skip(cursor as int);
            let ghost step = (n - i) as nat;
            let rem: usize = buf_len - cursor;
            if rem < 8 {
                proof {
                    assert(b.len() < 8);
                    assert(dec_files(b, step) is None);
                }
                return Err(SegmentError::Serialization);
            }
            let plen64 = u64_read_be_bytes(buf, cursor);
            proof {
                assert(b.subrange(0, 8) =~= buf@.subrange(cursor as int, cursor as int + 8));
            }
            if plen64 > (rem - 8) as u64 {
                proof {
                    assert(b.len() < 24 + spec_u64_from_be_bytes(b.subrange(0, 8)));
                    assert(dec_files(b, step) is None);
                }
                return Err(SegmentError::Serialization);
            }
            let plen = plen64 as usize;
            if rem - 8 - plen < 16 {
                proof {
                    assert(b.len() < 24 + spec_u64_from_be_bytes(b.subrange(0, 8)));
                    assert(dec_files(b, step) is None);
                }
                return Err(SegmentError::Serialization);
            }
            let path_slice = vstd::slice::slice_subrange(buf, cursor + 8, cursor + 8 + plen);
            let path = vstd::slice::slice_to_vec(path_slice);
            let start = u64_read_be_bytes(buf, cursor + 8 + plen);
            let end = u64_read_be_bytes(buf, cursor + 16 + plen);
            files.push(FileLocation { path, start, end });
            proof {
                let plen_i = plen as int;
                let c = cursor as int;
                assert(b.subrange(8, 8 + plen_i) =~= buf@.subrange(c + 8, c + 8 + plen_i));
                assert(b.subrange(8 + plen_i, 16 + plen_i) =~= buf@.subrange(
                    c + 8 + plen_i,
                    c + 8 + plen_i + 8,
                ));
                assert(b.subrange(16 + plen_i, 24 + plen_i) =~= buf@.subrange(
                    c + 16 + plen_i,
                    c + 16 + plen_i + 8,
                ));
                assert(b.skip(24 + plen_i) =~= buf@.skip(c + 24 + plen_i));
                let f = (path@, start, end);
                assert(dec_files(b, step) == match dec_files(buf@.skip(c + 24 + plen_i), (step
                    - 1) as nat) {
                    None => None::<(Seq<(Seq<u8>, u64, u64)>, Seq<u8>)>,
                    Some(r) => Some((seq![f] + r.0, r.1)),
                });
                assert(files_view(files@) =~= acc.push(f));
                match dec_files(buf@.skip(c + 24 + plen_i), (step - 1) as nat) {
                    None => {},
                    Some(r) => {
                        assert(acc + (seq![f] + r.0) =~= acc.push(f) + r.0);
                    },
                }
            }
            cursor = cursor + 24 + plen;
            i = i + 1;
        }
        let ghost tail = buf@.skip(cursor as int);
        proof {
            assert(dec_files(buf@.skip(cursor as int), 0nat) == Some(
                (Seq::<(Seq<u8>, u64, u64)>::empty(), tail),
            ));
            assert(files_view(files@) + Seq::<(Seq<u8>, u64, u64)>::empty() =~= files_view(
                files@,
            ));
            assert(dec_files(whole, n as nat) == Some((files_view(files@), tail)));
        }
        let rem: usize = buf_len - cursor;
        if rem < 8 {
            return Err(SegmentError::Serialization);
        }
        let hlen = u64_read_be_bytes(buf, cursor);
        proof {
            assert(tail.subrange(0, 8) =~= buf@.subrange(cursor as int, cursor as int + 8));
        }
        if hlen != (rem - 8) as u64 {
            return Err(SegmentError::Serialization);
        }
        let hot_slice = vstd::slice::slice_subrange(buf, cursor + 8, buf_len);
        let hot_cache = vstd::slice::slice_to_vec(hot_slice);
        proof {
            assert(tail.skip(8) =~= buf@.subrange(cursor as int + 8, buf@.len() as int));
        }
        Ok(SegmentMetadata { files, hot_cache })
    }
}

/// Prepends already-decoded locations to a decoder outcome.
pub open spec fn dec_prepend(
    acc: Seq<(Seq<u8>, u64, u64)>,
    o: Option<(Seq<(Seq<u8>, u64, u64)>, Seq<u8>)>,
) -> Option<(Seq<(Seq<u8>, u64, u64)>, Seq<u8>)> {
    match o {
        None => None,
        Some(r) => Some((acc + r.0, r.1)),
    }
}

/// Writes the footer: both offsets as eight big-endian bytes each.
pub fn write_metadata_offsets(out: &mut Vec<u8>, start: u64, len: u64)
    ensures
        final(out)@ == old(out)@ + spec_u64_to_be_bytes(start) + spec_u64_to_be_bytes(len),
{
    u64_write_be_bytes(out, start);
    u64_write_be_bytes(out, len);
}

/// Reads the footer fields off the front of a slice; fewer than sixteen
/// bytes are an error.
pub fn get_metadata_offsets(offset_slice: &[u8]) -> (r: Result<(u64, u64), SegmentError>)
    ensures
        match r {
            Ok(pair) => offset_slice@.len() >= 16 && pair.0 == spec_u64_from_be_bytes(
                offset_slice@.subrange(0, 8),
            ) && pair.1 == spec_u64_from_be_bytes(offset_slice@.subrange(8, 16)),
            Err(e) => e is Serialization && offset_slice@.len() < 16,
        },
{
    if offset_slice.len() < 16 {
        return Err(SegmentError::Serialization);
    }
    let start = u64_read_be_bytes(offset_slice, 0);
    let len = u64_read_be_bytes(offset_slice, 8);
    proof {
        assert(offset_slice@.subrange(0int, 0int + 8) =~= offset_slice@.subrange(0, 8));
        assert(offset_slice@.subrange(8int, 8int + 8) =~= offset_slice@.subrange(8, 16));
    }
    Ok((start, len))
}

} // verus!

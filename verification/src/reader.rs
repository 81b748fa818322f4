//! An immutable reader of one published segment.
//!
//! A published segment is self-describing: the last sixteen bytes locate the
//! metadata blob, the blob names every logical file's contiguous byte range,
//! and a file is served by slicing that range.

use vstd::prelude::*;

use crate::codec::spec_u64_from_be_bytes;
use crate::errors::SegmentError;
use crate::metadata::{find_loc, meta_decoding, SegmentMetadata, METADATA_HEADER_SIZE};

verus! {

/// What a published byte buffer describes: its file locations and its hot
/// cache. A buffer too short for a footer, a footer whose fields do not add
/// up to the buffer's size, or an undecodable blob describe nothing.
pub open spec fn published_parse(b: Seq<u8>) -> Option<(Seq<(Seq<u8>, u64, u64)>, Seq<u8>)> {
    if b.len() < 16 {
        None
    } else {
        let mstart = spec_u64_from_be_bytes(b.subrange(b.len() - 16, b.len() - 8)) as int;
        let mlen = spec_u64_from_be_bytes(b.subrange(b.len() - 8, b.len() as int)) as int;
        if mstart + mlen + 16 == b.len() {
            meta_decoding(b.subrange(mstart, mstart + mlen))
        } else {
            None
        }
    }
}

/// An immutable segment reader over the bytes of one published segment.
pub struct DirectoryReader {
    pub bytes: Vec<u8>,
    pub metadata: SegmentMetadata,
}

impl DirectoryReader {
    /// The held metadata is exactly what the held bytes describe.
    pub open spec fn wf(&self) -> bool {
        published_parse(self.bytes@) == Some(self.metadata@)
    }

    /// Opens a published segment: reads the footer, checks that it accounts
    /// for every byte, and decodes the metadata blob.
    pub fn open(bytes: Vec<u8>) -> (r: Result<DirectoryReader, SegmentError>)
        ensures
            match r {
                Ok(rd) => {
                    &&& rd.wf()
                    &&& rd.bytes@ == bytes@
                    &&& published_parse(bytes@) == Some(rd.metadata@)
                },
                Err(e) => e is Serialization && published_parse(bytes@) is None,
            },
    {
        let n: usize = bytes.len();
        if n < METADATA_HEADER_SIZE {
            return Err(SegmentError::Serialization);
        }
        let mstart = crate::codec::u64_read_be_bytes(bytes.as_slice(), n - 16);
        let mlen = crate::codec::u64_read_be_bytes(bytes.as_slice(), n - 8);
        proof {
            assert(bytes@.subrange(n - 16, n - 16 + 8) =~= bytes@.subrange(n - 16, n - 8));
            assert(bytes@.subrange(n - 8, n - 8 + 8) =~= bytes@.subrange(n - 8, n as int));
        }
        let rest: u64 = n as u64 - 16;
        if mstart > rest || mlen != rest - mstart {
            return Err(SegmentError::Serialization);
        }
        let region = vstd::slice::slice_subrange(
            bytes.as_slice(),
            mstart as usize,
            (mstart + mlen) as usize,
        );
        let metadata = match SegmentMetadata::from_buffer(region) {
            Ok(m) => m,
            Err(e) => {
                return Err(e);
            },
        };
        Ok(DirectoryReader { bytes, metadata })
    }

    /// Serves one logical file from the published bytes: the range its first
    /// metadata record names, or nothing for an unknown path or a record
    /// whose range does not fit the file.
    pub fn atomic_read(&self, path: &[u8]) -> (r: Option<Vec<u8>>)
        ensures
            match find_loc(self.metadata@.0, path@) {
                Some(loc) => {
                    if loc.0 <= loc.1 <= self.bytes@.len() {
                        r matches Some(bytes) && bytes@ == self.bytes@.subrange(
                            loc.0 as int,
                            loc.1 as int,
                        )
                    } else {
                        r is None
                    }
                },
                None => r is None,
            },
    {
        let (start, end) = match self.metadata.get_location(path) {
            None => {
                return None;
            },
            Some(loc) => loc,
        };
        if !(start <= end) || end > self.bytes.len() as u64 {
            return None;
        }
        let part = vstd::slice::slice_subrange(
            self.bytes.as_slice(),
            start as usize,
            end as usize,
        );
        Some(vstd::slice::slice_to_vec(part))
    }

    /// The decoded hot-cache blob carried by this segment.
    pub fn hot_cache(&self) -> (r: &Vec<u8>)
        ensures
            r@ == self.metadata@.1,
    {
        &self.metadata.hot_cache
    }
}

} // verus!

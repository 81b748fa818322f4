//! The directory facade the indexer writes through.
//!
//! It presents a file-system-shaped surface over one segment writer: every
//! path gets the facade's prefix prepended, so several facades can share one
//! writer without collisions, and a small side-table serves the files the
//! indexer writes atomically — those live in memory, are read back from
//! memory alone, and are also forwarded to the writer so the export packs
//! them into the published segment.

use vstd::prelude::*;

use crate::errors::SegmentError;
use crate::fragments::frags_max_end;
use crate::writer::{write_effect, DirectoryStreamWriter};

verus! {

/// One atomically-written file held in memory.
pub struct AtomicFile {
    pub path: Vec<u8>,
    pub data: Vec<u8>,
}

impl View for AtomicFile {
    type V = (Seq<u8>, Seq<u8>);

    open spec fn view(&self) -> (Seq<u8>, Seq<u8>) {
        (self.path@, self.data@)
    }
}

/// The data the side-table holds for a path: the newest entry wins.
pub open spec fn table_find(es: Seq<(Seq<u8>, Seq<u8>)>, p: Seq<u8>) -> Option<Seq<u8>>
    decreases es.len(),
{
    if es.len() == 0 {
        None
    } else if es[0].0 == p {
        Some(es[0].1)
    } else {
        table_find(es.skip(1), p)
    }
}

/// The mathematical shadow of the side-table.
pub open spec fn table_view(es: Seq<AtomicFile>) -> Seq<(Seq<u8>, Seq<u8>)> {
    es.map_values(|e: AtomicFile| e@)
}

/// A thread-safe handle in the running system; here, the owner of the
/// writer, the path prefix, and the atomic side-table.
pub struct LinearSegmentWriter {
    pub prefix: Vec<u8>,
    pub writer: DirectoryStreamWriter,
    pub atomic_files: Vec<AtomicFile>,
}

impl LinearSegmentWriter {
    /// The facade is consistent exactly when its writer is.
    pub open spec fn wf(&self) -> bool {
        self.writer.wf()
    }

    /// A facade over a fresh writer.
    pub fn new(prefix: Vec<u8>) -> (r: LinearSegmentWriter)
        ensures
            r.wf(),
            r.prefix@ == prefix@,
            r.writer.files() == Map::<Seq<u8>, Seq<u8>>::empty(),
            table_view(r.atomic_files@) == Seq::<(Seq<u8>, Seq<u8>)>::empty(),
    {
        let r = LinearSegmentWriter {
            prefix,
            writer: DirectoryStreamWriter::new(),
            atomic_files: Vec::new(),
        };
        proof {
            assert(table_view(r.atomic_files@) =~= Seq::<(Seq<u8>, Seq<u8>)>::empty());
        }
        r
    }

    /// The given path with this facade's prefix prepended.
    pub fn with_prefix(&self, path: &[u8]) -> (r: Vec<u8>)
        ensures
            r@ == self.prefix@ + path@,
    {
        let mut r: Vec<u8> = Vec::new();
        r.extend_from_slice(self.prefix.as_slice());
        r.extend_from_slice(path);
        proof {
            assert(r@ =~= self.prefix@ + path@);
        }
        r
    }

    /// Whether the prefixed path exists in the writer.
    pub fn file_exists(&self, path: &[u8]) -> (r: bool)
        requires
            self.wf(),
        ensures
            r == self.writer.files().dom().contains(self.prefix@ + path@),
    {
        let full = self.with_prefix(path);
        self.writer.file_exists(full.as_slice())
    }

    /// The prefixed path's logical length, from the writer.
    pub fn file_len(&self, path: &[u8]) -> (r: Option<usize>)
        requires
            self.wf(),
        ensures
            match r {
                Some(n) => self.writer.files().dom().contains(self.prefix@ + path@) && n
                    == self.writer.files()[self.prefix@ + path@].len(),
                None => !self.writer.files().dom().contains(self.prefix@ + path@),
            },
    {
        let full = self.with_prefix(path);
        self.writer.file_len(full.as_slice())
    }

    /// Removes the prefixed path from the writer.
    pub fn delete(&mut self, path: &[u8]) -> (r: Result<(), SegmentError>)
        requires
            old(self).wf(),
        ensures
            r is Ok,
            final(self).wf(),
            final(self).prefix@ == old(self).prefix@,
            final(self).atomic_files@ == old(self).atomic_files@,
            final(self).writer.finalised == old(self).writer.finalised,
            final(self).writer.files() == old(self).writer.files().remove(
                old(self).prefix@ + path@,
            ),
    {
        let full = self.with_prefix(path);
        self.writer.delete_file(full.as_slice())
    }

    /// One buffered write of an open stream: appends a fragment of the
    /// prefixed path.
    pub fn write(&mut self, path: &[u8], buf: &[u8]) -> (r: Result<(), SegmentError>)
        requires
            old(self).wf(),
        ensures
            final(self).wf(),
            final(self).prefix@ == old(self).prefix@,
            final(self).atomic_files@ == old(self).atomic_files@,
            final(self).writer.finalised == old(self).writer.finalised,
            match r {
                Ok(()) => final(self).writer.files() == write_effect(
                    old(self).writer.files(),
                    old(self).prefix@ + path@,
                    buf@,
                    false,
                ),
                Err(e) => e is Finalised && old(self).writer.finalised
                    && final(self).writer.files() == old(self).writer.files(),
            },
    {
        let full = self.with_prefix(path);
        self.writer.write_fragment(full, buf, false)
    }

    /// Reads a byte range of the prefixed path through the writer.
    pub fn read_bytes(&mut self, path: &[u8], lo: usize, hi: usize) -> (r: Result<
        Vec<u8>,
        SegmentError,
    >)
        requires
            old(self).wf(),
            lo <= hi,
        ensures
            final(self).wf(),
            final(self).prefix@ == old(self).prefix@,
            final(self).atomic_files@ == old(self).atomic_files@,
            final(self).writer.files() == old(self).writer.files(),
            final(self).writer.finalised == old(self).writer.finalised,
            r is Ok <==> old(self).writer.files().dom().contains(old(self).prefix@ + path@) && !(
            old(self).writer.finalised && frags_max_end(
                old(self).writer.fragments@[old(self).prefix@ + path@],
            ) > old(self).writer.flushed_pos),
            match r {
                Ok(bytes) => {
                    &&& old(self).writer.files().dom().contains(old(self).prefix@ + path@)
                    &&& bytes@ == crate::writer::read_result(
                        old(self).writer.files()[old(self).prefix@ + path@],
                        lo as int,
                        hi as int,
                    )
                },
                Err(e) => {
                    &&& (e is NotFound <==> !old(self).writer.files().dom().contains(
                        old(self).prefix@ + path@,
                    ))
                    &&& e is NotFound || e is Finalised
                },
            },
    {
        let full = self.with_prefix(path);
        self.writer.read_range(full.as_slice(), lo, hi)
    }

    /// Writes a whole file atomically: the bytes land in the side-table,
    /// where reads will find them, and are forwarded to the writer as an
    /// overwrite so the export packs them too.
    pub fn atomic_write(&mut self, path: &[u8], data: &[u8]) -> (r: Result<(), SegmentError>)
        requires
            old(self).wf(),
        ensures
            final(self).wf(),
            final(self).prefix@ == old(self).prefix@,
            final(self).writer.finalised == old(self).writer.finalised,
            table_view(final(self).atomic_files@) == seq![
                (old(self).prefix@ + path@, data@),
            ] + table_view(old(self).atomic_files@),
            match r {
                Ok(()) => final(self).writer.files() == write_effect(
                    old(self).writer.files(),
                    old(self).prefix@ + path@,
                    data@,
                    true,
                ),
                Err(e) => e is Finalised && old(self).writer.finalised
                    && final(self).writer.files() == old(self).writer.files(),
            },
    {
        let full = self.with_prefix(path);
        let entry_path = crate::writer::clone_bytes(&full);
        let entry_data = vstd::slice::slice_to_vec(data);
        let ghost t0 = table_view(self.atomic_files@);
        self.atomic_files.insert(0, AtomicFile { path: entry_path, data: entry_data });
        proof {
            assert(table_view(self.atomic_files@) =~= seq![(self.prefix@ + path@, data@)] + t0);
        }
        self.writer.write_fragment(full, data, true)
    }

    /// Reads a whole file the indexer wrote atomically, from memory alone;
    /// a path never written that way does not exist here, whatever the
    /// writer holds for it.
    pub fn atomic_read(&self, path: &[u8]) -> (r: Option<Vec<u8>>)
        ensures
            match table_find(table_view(self.atomic_files@), self.prefix@ + path@) {
                Some(data) => r matches Some(bytes) && bytes@ == data,
                None => r is None,
            },
    {
        let full = self.with_prefix(path);
        let ghost tv = table_view(self.atomic_files@);
        let n = self.atomic_files.len();
        let mut k: usize = 0;
        proof {
            assert(tv.skip(0) =~= tv);
        }
        while k < n
            invariant
                tv == table_view(self.atomic_files@),
                n == self.atomic_files@.len(),
                full@ == self.prefix@ + path@,
                0 <= k <= n,
                table_find(tv.skip(k as int), full@) == table_find(tv, full@),
            decreases n - k,
        {
            proof {
                assert(tv.skip(k as int)[0] == tv[k as int]);
                assert(tv.skip(k as int).skip(1) =~= tv.skip(k as int + 1));
            }
            let entry = &self.atomic_files[k];
            match crate::paths::path_cmp(entry.path.as_slice(), full.as_slice()) {
                crate::paths::PathOrd::Equal => {
                    return Some(crate::writer::clone_bytes(&entry.data));
                },
                _ => {},
            }
            k = k + 1;
        }
        proof {
            assert(tv.skip(n as int) =~= Seq::<(Seq<u8>, Seq<u8>)>::empty());
        }
        None
    }

    /// Creates a new file handle for a given path: the prefixed path
    /// together with the file's current length, cached in the handle. An
    /// absent path has no handle.
    pub fn get_file_handle(&self, path: &[u8]) -> (r: Option<FileReader>)
        requires
            self.wf(),
        ensures
            match r {
                Some(h) => {
                    &&& self.writer.files().dom().contains(self.prefix@ + path@)
                    &&& h.path@ == self.prefix@ + path@
                    &&& h.file_size == self.writer.files()[self.prefix@ + path@].len()
                },
                None => !self.writer.files().dom().contains(self.prefix@ + path@),
            },
    {
        let full = self.with_prefix(path);
        match self.writer.file_len(full.as_slice()) {
            None => None,
            Some(n) => Some(FileReader { path: full, file_size: n }),
        }
    }

    /// Opens a write stream for one logical path.
    pub fn open_write(&self, path: &[u8]) -> (r: MessageWriter)
        ensures
            r.path@ == self.prefix@ + path@,
            r.deferred is None,
    {
        MessageWriter { path: self.with_prefix(path), deferred: None }
    }

    /// Exports the writer's state as a published segment.
    pub fn export_segment(&mut self, hot_cache: Vec<u8>) -> (r: Result<Vec<u8>, SegmentError>)
        requires
            old(self).wf(),
        ensures
            final(self).wf(),
            final(self).prefix@ == old(self).prefix@,
            final(self).atomic_files@ == old(self).atomic_files@,
            final(self).writer.files() == old(self).writer.files(),
            final(self).writer.finalised == old(self).writer.finalised,
            match r {
                Ok(out) => crate::writer::published_ok(
                    out@,
                    old(self).writer.files(),
                    hot_cache@,
                ),
                Err(e) => e is Finalised && old(self).writer.finalised,
            },
    {
        self.writer.export_segment(hot_cache)
    }
}


/// A handle to one logical file: the prefixed path and the file's length as
/// it was when the handle was opened. `len` serves that cached length; reads
/// go to the writer and see its current state.
pub struct FileReader {
    pub path: Vec<u8>,
    pub file_size: usize,
}

impl FileReader {
    /// The file's length, as captured when the handle was opened.
    pub fn len(&self) -> (r: usize)
        ensures
            r == self.file_size,
    {
        self.file_size
    }

    /// Reads a byte range of the handle's file through the writer, as if the
    /// file were a file of its own.
    pub fn read_bytes(&self, writer: &mut DirectoryStreamWriter, lo: usize, hi: usize) -> (r:
        Result<Vec<u8>, SegmentError>)
        requires
            old(writer).wf(),
            lo <= hi,
        ensures
            final(writer).wf(),
            final(writer).files() == old(writer).files(),
            final(writer).fragments@ == old(writer).fragments@,
            final(writer).segment@ == old(writer).segment@,
            final(writer).current_pos == old(writer).current_pos,
            final(writer).finalised == old(writer).finalised,
            r is Ok <==> old(writer).files().dom().contains(self.path@) && !(old(
                writer,
            ).finalised && frags_max_end(old(writer).fragments@[self.path@]) > old(
                writer,
            ).flushed_pos),
            match r {
                Ok(bytes) => {
                    &&& old(writer).files().dom().contains(self.path@)
                    &&& bytes@ == crate::writer::read_result(
                        old(writer).files()[self.path@],
                        lo as int,
                        hi as int,
                    )
                },
                Err(e) => {
                    &&& (e is NotFound <==> !old(writer).files().dom().contains(self.path@))
                    &&& e is NotFound || e is Finalised
                },
            },
    {
        writer.read_range(self.path.as_slice(), lo, hi)
    }
}

/// An open write stream of one logical path.
///
/// Each buffered write becomes one append of the stream's path; its outcome
/// is checked at the next write, not at the one that caused it, so a stream
/// keeps its pipeline full and reports a failure one operation late. A
/// failed stream keeps failing; a caller recovers by opening a new stream.
pub struct MessageWriter {
    pub path: Vec<u8>,
    pub deferred: Option<SegmentError>,
}

impl MessageWriter {
    /// One buffered write. A failure deferred by the previous write is
    /// surfaced now and nothing is written; otherwise the buffer is appended
    /// and this write's own failure, if any, is deferred to the next call.
    pub fn write(&mut self, dir: &mut LinearSegmentWriter, buf: &[u8]) -> (r: Result<
        usize,
        SegmentError,
    >)
        requires
            old(dir).wf(),
        ensures
            final(dir).wf(),
            final(self).path@ == old(self).path@,
            final(dir).prefix@ == old(dir).prefix@,
            final(dir).atomic_files@ == old(dir).atomic_files@,
            final(dir).writer.finalised == old(dir).writer.finalised,
            match old(self).deferred {
                Some(e) => {
                    &&& r == Err::<usize, SegmentError>(e)
                    &&& final(dir).writer.files() == old(dir).writer.files()
                    &&& final(self).deferred == old(self).deferred
                },
                None => {
                    &&& r == Ok::<usize, SegmentError>(buf@.len() as usize)
                    &&& if old(dir).writer.finalised {
                        final(self).deferred == Some(SegmentError::Finalised)
                            && final(dir).writer.files() == old(dir).writer.files()
                    } else {
                        final(self).deferred is None && final(dir).writer.files()
                            == crate::writer::write_effect(
                            old(dir).writer.files(),
                            old(self).path@,
                            buf@,
                            false,
                        )
                    }
                },
            },
    {
        match self.deferred {
            Some(e) => {
                return Err(e);
            },
            None => {},
        }
        let n = buf.len();
        let path = crate::writer::clone_bytes(&self.path);
        match dir.writer.write_fragment(path, buf, false) {
            Ok(()) => {},
            Err(e) => {
                self.deferred = Some(e);
            },
        }
        Ok(n)
    }
}

} // verus!

//! The fragment index: an in-memory mapping from logical paths to the
//! physical byte ranges of the active segment file that hold their contents.
//!
//! A logical file's content is the concatenation of its fragments' bytes in
//! write order. The index keeps its entries in strict ascending path order,
//! and the fragments of one file in ascending physical order, which the
//! append-only write protocol guarantees.

use vstd::map::*;
use vstd::math::{max, min};
use vstd::pervasive::VecAdditionalExecFns;
use vstd::prelude::*;

use crate::errors::SegmentError;
use crate::paths::{lemma_lex_lt_asymmetric, lemma_lex_lt_trans, lex_lt, path_cmp, PathOrd};

verus! {

/// One physical half-open byte range `[start, end)` of the active segment.
#[derive(Clone, Copy, PartialEq, Eq, Structural, Debug)]
pub struct Fragment {
    pub start: u64,
    pub end: u64,
}

/// The number of bytes a fragment covers.
pub open spec fn frag_size(f: Fragment) -> int {
    f.end - f.start
}

/// The bytes of the segment that a fragment addresses.
pub open spec fn frag_bytes(seg: Seq<u8>, f: Fragment) -> Seq<u8> {
    seg.subrange(f.start as int, f.end as int)
}

/// The logical content of a file: its fragments' bytes, in write order.
pub open spec fn file_bytes(seg: Seq<u8>, fs: Seq<Fragment>) -> Seq<u8>
    decreases fs.len(),
{
    if fs.len() == 0 {
        Seq::empty()
    } else {
        frag_bytes(seg, fs[0]) + file_bytes(seg, fs.skip(1))
    }
}

/// The logical length of a file: the sum of its fragments' sizes.
pub open spec fn frags_size(fs: Seq<Fragment>) -> int
    decreases fs.len(),
{
    if fs.len() == 0 {
        0int
    } else {
        frag_size(fs[0]) + frags_size(fs.skip(1))
    }
}

/// A well-formed fragment list: every fragment is non-empty, and the list is
/// ascending and disjoint in physical space, as the append-only write
/// protocol produces it.
pub open spec fn frags_wf(fs: Seq<Fragment>) -> bool {
    &&& forall|i: int| 0 <= i < fs.len() ==> (#[trigger] fs[i]).start < fs[i].end
    &&& forall|i: int| 0 <= i < fs.len() - 1 ==> (#[trigger] fs[i]).end <= fs[i + 1].start
}

/// The highest physical offset a fragment list touches; zero for none.
pub open spec fn frags_max_end(fs: Seq<Fragment>) -> int
    decreases fs.len(),
{
    if fs.len() == 0 {
        0int
    } else {
        let rest = frags_max_end(fs.skip(1));
        if fs[0].end >= rest {
            fs[0].end as int
        } else {
            rest
        }
    }
}

/// The index entry of one logical file.
pub struct FileEntry {
    pub path: Vec<u8>,
    pub fragments: Vec<Fragment>,
}

/// Whether some entry of the sequence carries the given path.
pub open spec fn has_path(es: Seq<FileEntry>, p: Seq<u8>) -> bool {
    exists|i: int| 0 <= i < es.len() && es[i].path@ == p
}

/// The position of the entry carrying the given path.
pub open spec fn index_of_path(es: Seq<FileEntry>, p: Seq<u8>) -> int {
    choose|i: int| 0 <= i < es.len() && es[i].path@ == p
}

/// The map an entry sequence denotes: path to fragment list.
pub open spec fn entries_map(es: Seq<FileEntry>) -> Map<Seq<u8>, Seq<Fragment>> {
    Map::new(|p: Seq<u8>| has_path(es, p), |p: Seq<u8>| es[index_of_path(es, p)].fragments@)
}

/// The total number of bytes covered by all entries' fragments.
pub open spec fn entries_size(es: Seq<FileEntry>) -> int
    decreases es.len(),
{
    if es.len() == 0 {
        0int
    } else {
        frags_size(es[0].fragments@) + entries_size(es.skip(1))
    }
}

/// A mapping of logical files to their physical locations.
///
/// A fragment is part of a virtual file located within the segment itself;
/// virtual files need not be contiguous.
pub struct DiskFragments {
    pub entries: Vec<FileEntry>,
}

impl View for DiskFragments {
    type V = Map<Seq<u8>, Seq<Fragment>>;

    open spec fn view(&self) -> Map<Seq<u8>, Seq<Fragment>> {
        entries_map(self.entries@)
    }
}

/// Entries carry strictly ascending paths.
pub open spec fn sorted_entries(es: Seq<FileEntry>) -> bool {
    forall|i: int, j: int|
        0 <= i < j < es.len() ==> lex_lt((#[trigger] es[i]).path@, (#[trigger] es[j]).path@)
}

/// Sorted entries carry pairwise distinct paths.
pub proof fn lemma_sorted_distinct(es: Seq<FileEntry>)
    requires
        sorted_entries(es),
    ensures
        forall|i: int, j: int|
            0 <= i < es.len() && 0 <= j < es.len() && i != j ==> (#[trigger] es[i]).path@ != (
            #[trigger] es[j]).path@,
{
    assert forall|i: int, j: int|
        0 <= i < es.len() && 0 <= j < es.len() && i != j implies (#[trigger] es[i]).path@ != (
    #[trigger] es[j]).path@ by {
        if i < j {
            lemma_lex_lt_asymmetric(es[i].path@, es[j].path@);
        } else {
            lemma_lex_lt_asymmetric(es[j].path@, es[i].path@);
        }
    }
}

/// In a sorted sequence, looking an entry's path up finds that entry.
pub proof fn lemma_map_index(es: Seq<FileEntry>, i: int)
    requires
        sorted_entries(es),
        0 <= i < es.len(),
    ensures
        has_path(es, es[i].path@),
        index_of_path(es, es[i].path@) == i,
        entries_map(es).dom().contains(es[i].path@),
        entries_map(es)[es[i].path@] == es[i].fragments@,
{
    lemma_sorted_distinct(es);
    assert(0 <= i < es.len() && es[i].path@ == es[i].path@);
    let j = index_of_path(es, es[i].path@);
    assert(0 <= j < es.len() && es[j].path@ == es[i].path@);
}

/// Appending a fragment adds its size to the list's total.
pub proof fn lemma_frags_size_push(fs: Seq<Fragment>, f: Fragment)
    ensures
        frags_size(fs.push(f)) == frags_size(fs) + frag_size(f),
    decreases fs.len(),
{
    if fs.len() == 0 {
        assert(fs.push(f)[0] == f);
        assert(fs.push(f).skip(1) =~= Seq::<Fragment>::empty());
        assert(frags_size(Seq::<Fragment>::empty()) == 0);
        assert(frags_size(fs) == 0);
    } else {
        assert(fs.push(f)[0] == fs[0]);
        assert(fs.push(f).skip(1) =~= fs.skip(1).push(f));
        lemma_frags_size_push(fs.skip(1), f);
    }
}

/// Replacing one entry changes the total by the difference of the lists.
proof fn lemma_entries_size_update(es: Seq<FileEntry>, i: int, e: FileEntry)
    requires
        0 <= i < es.len(),
    ensures
        entries_size(es.update(i, e)) == entries_size(es) - frags_size(es[i].fragments@)
            + frags_size(e.fragments@),
    decreases es.len(),
{
    if i == 0 {
        assert(es.update(0, e).skip(1) =~= es.skip(1));
    } else {
        assert(es.update(i, e).skip(1) =~= es.skip(1).update(i - 1, e));
        lemma_entries_size_update(es.skip(1), i - 1, e);
    }
}

/// Inserting an entry adds its list's size to the total.
proof fn lemma_entries_size_insert(es: Seq<FileEntry>, i: int, e: FileEntry)
    requires
        0 <= i <= es.len(),
    ensures
        entries_size(es.insert(i, e)) == entries_size(es) + frags_size(e.fragments@),
    decreases es.len(),
{
    if i == 0 {
        assert(es.insert(0, e)[0] == e);
        assert(es.insert(0, e).skip(1) =~= es);
    } else {
        assert(es.insert(i, e)[0] == es[0]);
        assert(es.insert(i, e).skip(1) =~= es.skip(1).insert(i - 1, e));
        lemma_entries_size_insert(es.skip(1), i - 1, e);
    }
}

/// Removing an entry subtracts its list's size from the total.
proof fn lemma_entries_size_remove(es: Seq<FileEntry>, i: int)
    requires
        0 <= i < es.len(),
    ensures
        entries_size(es.remove(i)) == entries_size(es) - frags_size(es[i].fragments@),
    decreases es.len(),
{
    if i == 0 {
        assert(es.remove(0) =~= es.skip(1));
    } else {
        assert(es.remove(i)[0] == es[0]);
        assert(es.remove(i).skip(1) =~= es.skip(1).remove(i - 1));
        lemma_entries_size_remove(es.skip(1), i - 1);
    }
}

/// A list of non-empty fragments has a non-negative total size.
pub proof fn lemma_frags_size_nonneg(fs: Seq<Fragment>)
    requires
        forall|i: int| 0 <= i < fs.len() ==> (#[trigger] fs[i]).start <= fs[i].end,
    ensures
        frags_size(fs) >= 0,
    decreases fs.len(),
{
    if fs.len() > 0 {
        lemma_frags_size_nonneg(fs.skip(1));
    }
}

/// Replacing an entry by one with the same path updates the map at that path.
proof fn lemma_map_update(es: Seq<FileEntry>, i: int, e: FileEntry)
    requires
        sorted_entries(es),
        0 <= i < es.len(),
        e.path@ == es[i].path@,
    ensures
        sorted_entries(es.update(i, e)),
        entries_map(es.update(i, e)) =~= entries_map(es).insert(e.path@, e.fragments@),
{
    let es2 = es.update(i, e);
    assert forall|a: int, b: int| 0 <= a < b < es2.len() implies lex_lt(
        (#[trigger] es2[a]).path@,
        (#[trigger] es2[b]).path@,
    ) by {
        assert(es2[a].path@ == es[a].path@);
        assert(es2[b].path@ == es[b].path@);
    }
    lemma_sorted_distinct(es);
    lemma_sorted_distinct(es2);
    assert_maps_equal!(entries_map(es2), entries_map(es).insert(e.path@, e.fragments@), q => {
        if has_path(es2, q) {
            let w = choose|w: int| 0 <= w < es2.len() && es2[w].path@ == q;
            assert(0 <= w < es.len() && es[w].path@ == q);
            lemma_map_index(es2, w);
            if q == e.path@ {
                assert(es2[i].path@ == q);
                assert(w == i);
            } else {
                assert(w != i);
                assert(es2[w] == es[w]);
                lemma_map_index(es, w);
            }
        }
        if has_path(es, q) {
            let w = choose|w: int| 0 <= w < es.len() && es[w].path@ == q;
            assert(0 <= w < es2.len() && es2[w].path@ == q);
            assert(has_path(es2, q));
        }
        if q == e.path@ {
            assert(0 <= i < es.len() && es[i].path@ == q);
            assert(has_path(es, q));
        }
    });
}

/// Inserting an entry between its neighbours inserts its path into the map.
proof fn lemma_map_insert(es: Seq<FileEntry>, i: int, e: FileEntry)
    requires
        sorted_entries(es),
        0 <= i <= es.len(),
        forall|k: int| 0 <= k < i ==> lex_lt((#[trigger] es[k]).path@, e.path@),
        i < es.len() ==> lex_lt(e.path@, es[i].path@),
    ensures
        sorted_entries(es.insert(i, e)),
        entries_map(es.insert(i, e)) =~= entries_map(es).insert(e.path@, e.fragments@),
{
    let es2 = es.insert(i, e);
    assert forall|a: int, b: int| 0 <= a < b < es2.len() implies lex_lt(
        (#[trigger] es2[a]).path@,
        (#[trigger] es2[b]).path@,
    ) by {
        if a < i && b < i {
            assert(es2[a] == es[a] && es2[b] == es[b]);
        } else if a < i && b == i {
            assert(es2[a] == es[a]);
        } else if a < i && b > i {
            assert(es2[a] == es[a] && es2[b] == es[b - 1]);
        } else if a == i && b > i {
            assert(es2[b] == es[b - 1]);
            if b - 1 > i {
                lemma_lex_lt_trans(e.path@, es[i].path@, es[b - 1].path@);
            }
        } else {
            assert(es2[a] == es[a - 1] && es2[b] == es[b - 1]);
        }
    }
    lemma_sorted_distinct(es);
    lemma_sorted_distinct(es2);
    assert(es2[i] == e);
    lemma_map_index(es2, i);
    assert_maps_equal!(entries_map(es2), entries_map(es).insert(e.path@, e.fragments@), q => {
        if has_path(es2, q) && q != e.path@ {
            let w = choose|w: int| 0 <= w < es2.len() && es2[w].path@ == q;
            lemma_map_index(es2, w);
            if w < i {
                assert(es2[w] == es[w]);
                assert(0 <= w < es.len() && es[w].path@ == q);
                assert(has_path(es, q));
                lemma_map_index(es, w);
            } else {
                assert(w != i);
                assert(es2[w] == es[w - 1]);
                assert(0 <= w - 1 < es.len() && es[w - 1].path@ == q);
                assert(has_path(es, q));
                lemma_map_index(es, w - 1);
            }
        }
        if has_path(es, q) {
            let w = choose|w: int| 0 <= w < es.len() && es[w].path@ == q;
            if w < i {
                assert(0 <= w < es2.len() && es2[w].path@ == q);
            } else {
                assert(0 <= w + 1 < es2.len() && es2[w + 1].path@ == q);
            }
            assert(has_path(es2, q));
        }
    });
}

/// Removing an entry removes its path from the map.
proof fn lemma_map_remove(es: Seq<FileEntry>, i: int)
    requires
        sorted_entries(es),
        0 <= i < es.len(),
    ensures
        sorted_entries(es.remove(i)),
        entries_map(es.remove(i)) =~= entries_map(es).remove(es[i].path@),
{
    let es2 = es.remove(i);
    let p = es[i].path@;
    assert forall|a: int, b: int| 0 <= a < b < es2.len() implies lex_lt(
        (#[trigger] es2[a]).path@,
        (#[trigger] es2[b]).path@,
    ) by {
        assert(es2[a] == if a < i {
            es[a]
        } else {
            es[a + 1]
        });
        assert(es2[b] == if b < i {
            es[b]
        } else {
            es[b + 1]
        });
    }
    lemma_sorted_distinct(es);
    assert_maps_equal!(entries_map(es2), entries_map(es).remove(p), q => {
        if has_path(es2, q) {
            let w = choose|w: int| 0 <= w < es2.len() && es2[w].path@ == q;
            lemma_map_index(es2, w);
            if w < i {
                assert(es2[w] == es[w]);
                assert(0 <= w < es.len() && es[w].path@ == q);
                assert(has_path(es, q));
                assert(q != p);
                lemma_map_index(es, w);
            } else {
                assert(es2[w] == es[w + 1]);
                assert(0 <= w + 1 < es.len() && es[w + 1].path@ == q);
                assert(has_path(es, q));
                assert(q != p);
                lemma_map_index(es, w + 1);
            }
        }
        if has_path(es, q) && q != p {
            let w = choose|w: int| 0 <= w < es.len() && es[w].path@ == q;
            assert(w != i);
            if w < i {
                assert(0 <= w < es2.len() && es2[w].path@ == q);
            } else {
                assert(0 <= w - 1 < es2.len() && es2[w - 1].path@ == q);
            }
            assert(has_path(es2, q));
        }
    });
}

impl DiskFragments {
    /// Entries hold strictly ascending paths and well-formed fragment lists.
    pub open spec fn wf(&self) -> bool {
        &&& sorted_entries(self.entries@)
        &&& forall|i: int|
            0 <= i < self.entries@.len() ==> frags_wf((#[trigger] self.entries@[i]).fragments@)
        &&& forall|i: int|
            0 <= i < self.entries@.len() ==> (#[trigger] self.entries@[i]).fragments@.len() > 0
    }

    /// An empty index.
    pub fn new() -> (r: DiskFragments)
        ensures
            r.wf(),
            r@ == Map::<Seq<u8>, Seq<Fragment>>::empty(),
            r.entries@.len() == 0,
    {
        let r = DiskFragments { entries: Vec::new() };
        proof {
            assert(r@ =~= Map::<Seq<u8>, Seq<Fragment>>::empty());
        }
        r
    }

    /// Finds the position of `path`, or the position where it would sit.
    fn find(&self, path: &[u8]) -> (r: (usize, bool))
        requires
            self.wf(),
        ensures
            r.0 <= self.entries@.len(),
            r.1 ==> r.0 < self.entries@.len() && self.entries@[r.0 as int].path@ == path@,
            !r.1 ==> !has_path(self.entries@, path@),
            forall|k: int| 0 <= k < r.0 ==> lex_lt((#[trigger] self.entries@[k]).path@, path@),
            !r.1 && r.0 < self.entries@.len() ==> lex_lt(path@, self.entries@[r.0 as int].path@),
    {
        let mut i: usize = 0;
        let n: usize = self.entries.len();
        while i < n
            invariant
                self.wf(),
                0 <= i <= n,
                n == self.entries@.len(),
                forall|k: int| 0 <= k < i ==> lex_lt((#[trigger] self.entries@[k]).path@, path@),
            decreases n - i,
        {
            match path_cmp(self.entries[i].path.as_slice(), path) {
                PathOrd::Less => {
                    i = i + 1;
                },
                PathOrd::Equal => {
                    return (i, true);
                },
                PathOrd::Greater => {
                    proof {
                        assert forall|k: int|
                            0 <= k < self.entries@.len() implies self.entries@[k].path@
                            != path@ by {
                            if k < i {
                                lemma_lex_lt_asymmetric(self.entries@[k].path@, path@);
                            } else if k > i {
                                lemma_lex_lt_trans(
                                    path@,
                                    self.entries@[i as int].path@,
                                    self.entries@[k].path@,
                                );
                                lemma_lex_lt_asymmetric(path@, self.entries@[k].path@);
                            } else {
                                lemma_lex_lt_asymmetric(path@, self.entries@[i as int].path@);
                            }
                        }
                    }
                    return (i, false);
                },
            }
        }
        proof {
            assert forall|k: int| 0 <= k < self.entries@.len() implies self.entries@[k].path@
                != path@ by {
                lemma_lex_lt_asymmetric(self.entries@[k].path@, path@);
            }
        }
        (i, false)
    }

    /// Adds a fragment for a given file.
    ///
    /// If `overwrite` is true, all other fragments are removed. A fragment of
    /// an existing file must lie at or past the file's previous fragments, as
    /// appends to the growing segment always do.
    #[verifier::rlimit(100)]
    #[verifier::spinoff_prover]
    pub fn mark_fragment_location(&mut self, path: Vec<u8>, location: Fragment, overwrite: bool)
        requires
            old(self).wf(),
            location.start < location.end,
            !overwrite && old(self)@.dom().contains(path@) ==> old(self)@[path@].last().end
                <= location.start,
        ensures
            final(self).wf(),
            final(self)@ == old(self)@.insert(
                path@,
                if overwrite || !old(self)@.dom().contains(path@) {
                    seq![location]
                } else {
                    old(self)@[path@].push(location)
                },
            ),
            entries_size(final(self).entries@) <= entries_size(old(self).entries@) + frag_size(
                location,
            ),
    {
        let ghost es = self.entries@;
        let (i, found) = self.find(path.as_slice());
        proof {
            assert(frags_size(seq![location]) == frag_size(location)) by {
                assert(seq![location].skip(1) =~= Seq::<Fragment>::empty());
                assert(frags_size(Seq::<Fragment>::empty()) == 0);
                assert(seq![location][0] == location);
            }
        }
        if found {
            proof {
                lemma_map_index(es, i as int);
            }
            if overwrite {
                let mut fs: Vec<Fragment> = Vec::new();
                fs.push(location);
                let e = FileEntry { path, fragments: fs };
                proof {
                    lemma_map_update(es, i as int, e);
                    lemma_entries_size_update(es, i as int, e);
                    lemma_frags_size_nonneg(es[i as int].fragments@);
                }
                self.entries.set(i, e);
            } else {
                let ghost old_fs = es[i as int].fragments@;
                let entry = &mut self.entries[i];
                entry.fragments.push(location);
                proof {
                    let e2 = self.entries@[i as int];
                    assert(e2.path@ == es[i as int].path@);
                    assert(e2.fragments@ =~= old_fs.push(location));
                    assert(frags_wf(e2.fragments@)) by {
                        assert(forall|k: int|
                            0 <= k < old_fs.len() ==> e2.fragments@[k] == old_fs[k]);
                        assert(e2.fragments@[old_fs.len() as int] == location);
                        assert(old_fs.len() > 0 ==> old_fs.last().end <= location.start);
                    }
                    lemma_map_update(es, i as int, e2);
                    lemma_entries_size_update(es, i as int, e2);
                    lemma_frags_size_push(old_fs, location);
                }
            }
        } else {
            let mut fs: Vec<Fragment> = Vec::new();
            fs.push(location);
            let e = FileEntry { path, fragments: fs };
            proof {
                lemma_map_insert(es, i as int, e);
                lemma_entries_size_insert(es, i as int, e);
            }
            self.entries.insert(i, e);
        }
    }

    /// Removes all fragments of a given file.
    #[verifier::rlimit(100)]
    #[verifier::spinoff_prover]
    pub fn clear_fragments(&mut self, path: &[u8])
        requires
            old(self).wf(),
        ensures
            final(self).wf(),
            final(self)@ == old(self)@.remove(path@),
            entries_size(final(self).entries@) <= entries_size(old(self).entries@),
    {
        let ghost es = self.entries@;
        let (i, found) = self.find(path);
        if found {
            proof {
                lemma_map_index(es, i as int);
                lemma_map_remove(es, i as int);
                lemma_entries_size_remove(es, i as int);
                lemma_frags_size_nonneg(es[i as int].fragments@);
            }
            let _ = self.entries.remove(i);
        } else {
            proof {
                assert(self@ =~= old(self)@.remove(path@));
            }
        }
    }

    /// Checks if any fragments exist for the given file.
    pub fn file_exists(&self, path: &[u8]) -> (r: bool)
        requires
            self.wf(),
        ensures
            r == self@.dom().contains(path@),
    {
        let (_, found) = self.find(path);
        found
    }
}

/// Every fragment of the list lies within the first `len` segment bytes.
pub open spec fn frags_in_bounds(fs: Seq<Fragment>, len: int) -> bool {
    forall|i: int| 0 <= i < fs.len() ==> (#[trigger] fs[i]).end <= len
}

/// A file is as long as its fragments' sizes say.
pub proof fn lemma_file_bytes_len(seg: Seq<u8>, fs: Seq<Fragment>)
    requires
        forall|i: int| 0 <= i < fs.len() ==> (#[trigger] fs[i]).start <= fs[i].end,
        frags_in_bounds(fs, seg.len() as int),
    ensures
        file_bytes(seg, fs).len() == frags_size(fs),
    decreases fs.len(),
{
    if fs.len() > 0 {
        lemma_file_bytes_len(seg, fs.skip(1));
    }
}

/// The highest offset a list touches is never negative.
pub proof fn lemma_frags_max_end_nonneg(fs: Seq<Fragment>)
    ensures
        frags_max_end(fs) >= 0,
    decreases fs.len(),
{
    if fs.len() > 0 {
        lemma_frags_max_end_nonneg(fs.skip(1));
    }
}

/// One physical read request: an offset into the segment and a length.
pub open spec fn chunk_bytes(seg: Seq<u8>, c: (int, int)) -> Seq<u8> {
    seg.subrange(c.0, c.0 + c.1)
}

/// The bytes a list of read requests gathers, in list order.
pub open spec fn chunks_bytes(seg: Seq<u8>, cs: Seq<(int, int)>) -> Seq<u8>
    decreases cs.len(),
{
    if cs.len() == 0 {
        Seq::empty()
    } else {
        chunk_bytes(seg, cs[0]) + chunks_bytes(seg, cs.skip(1))
    }
}

/// The mathematical shadow of an executable request list.
pub open spec fn chunks_view(cs: Seq<(u64, usize)>) -> Seq<(int, int)> {
    cs.map_values(|c: (u64, usize)| (c.0 as int, c.1 as int))
}

/// The read requests that serve bytes `[skip, skip + rem)` of the logical
/// file held by `fs`: whole fragments below `skip` are passed over, and each
/// following fragment contributes what is still wanted of it.
pub open spec fn selected_spec(fs: Seq<Fragment>, skip: int, rem: int) -> Seq<(int, int)>
    decreases fs.len(),
{
    if fs.len() == 0 || rem <= 0 {
        Seq::empty()
    } else {
        let flen = frag_size(fs[0]);
        if flen <= skip {
            selected_spec(fs.skip(1), skip - flen, rem)
        } else {
            let emit = min(flen - skip, rem);
            seq![(fs[0].start + skip, emit)] + selected_spec(fs.skip(1), 0, rem - emit)
        }
    }
}

/// The selected requests gather exactly the wanted slice of the file.
pub proof fn lemma_selected_spec_correct(seg: Seq<u8>, fs: Seq<Fragment>, skip: int, rem: int)
    requires
        frags_wf(fs),
        frags_in_bounds(fs, seg.len() as int),
        0 <= skip,
        0 <= rem,
    ensures
        chunks_bytes(seg, selected_spec(fs, skip, rem)) == file_bytes(seg, fs).subrange(
            min(skip, frags_size(fs)),
            min(skip + rem, frags_size(fs)),
        ),
    decreases fs.len(),
{
    lemma_frags_size_nonneg(fs);
    lemma_file_bytes_len(seg, fs);
    let whole = file_bytes(seg, fs);
    let total = frags_size(fs);
    if fs.len() == 0 || rem == 0 {
        assert(chunks_bytes(seg, selected_spec(fs, skip, rem)) =~= whole.subrange(
            min(skip, total),
            min(skip + rem, total),
        ));
    } else {
        let f0 = fs[0];
        let flen = frag_size(f0);
        let rest = fs.skip(1);
        let a = frag_bytes(seg, f0);
        let b = file_bytes(seg, rest);
        lemma_frags_size_nonneg(rest);
        lemma_file_bytes_len(seg, rest);
        if flen <= skip {
            lemma_selected_spec_correct(seg, rest, skip - flen, rem);
            assert(whole.subrange(min(skip, total), min(skip + rem, total)) =~= b.subrange(
                min(skip - flen, frags_size(rest)),
                min(skip - flen + rem, frags_size(rest)),
            ));
        } else {
            let emit = min(flen - skip, rem);
            lemma_selected_spec_correct(seg, rest, 0, rem - emit);
            let sel = selected_spec(fs, skip, rem);
            let sel_rest = selected_spec(rest, 0, rem - emit);
            assert(sel[0] == (f0.start + skip, emit));
            assert(sel.skip(1) =~= sel_rest);
            assert(chunks_bytes(seg, sel) == chunk_bytes(seg, (f0.start + skip, emit))
                + chunks_bytes(seg, sel_rest));
            assert(chunks_bytes(seg, sel_rest) == b.subrange(0, min(rem - emit, frags_size(rest))));
            assert(chunks_bytes(seg, sel) =~= whole.subrange(
                min(skip, total),
                min(skip + rem, total),
            ));
        }
    }
}

/// Every selected request is non-empty and lies below the list's highest
/// offset, above its lowest.
pub proof fn lemma_selected_spec_bounds(fs: Seq<Fragment>, skip: int, rem: int)
    requires
        frags_wf(fs),
        0 <= skip,
        0 <= rem,
    ensures
        forall|k: int|
            0 <= k < selected_spec(fs, skip, rem).len() ==> {
                let c = #[trigger] selected_spec(fs, skip, rem)[k];
                0 <= c.0 && 0 < c.1 && c.0 + c.1 <= frags_max_end(fs)
            },
    decreases fs.len(),
{
    if fs.len() == 0 || rem <= 0 {
    } else {
        let flen = frag_size(fs[0]);
        let rest = fs.skip(1);
        assert(frags_max_end(fs) >= fs[0].end);
        assert(frags_max_end(rest) <= frags_max_end(fs));
        if flen <= skip {
            lemma_selected_spec_bounds(rest, skip - flen, rem);
            assert forall|k: int| 0 <= k < selected_spec(fs, skip, rem).len() implies {
                let c = #[trigger] selected_spec(fs, skip, rem)[k];
                0 <= c.0 && 0 < c.1 && c.0 + c.1 <= frags_max_end(fs)
            } by {
                assert(selected_spec(fs, skip, rem)[k] == selected_spec(rest, skip - flen, rem)[k]);
            }
        } else {
            let emit = min(flen - skip, rem);
            lemma_selected_spec_bounds(rest, 0, rem - emit);
            let sel = selected_spec(fs, skip, rem);
            assert forall|k: int| 0 <= k < sel.len() implies {
                let c = #[trigger] sel[k];
                0 <= c.0 && 0 < c.1 && c.0 + c.1 <= frags_max_end(fs)
            } by {
                if k == 0 {
                    assert(sel[0] == (fs[0].start + skip, emit));
                } else {
                    assert(sel[k] == selected_spec(rest, 0, rem - emit)[k - 1]);
                }
            }
        }
    }
}

/// The physical read requests resolving one logical range, and the offset up
/// to which the segment must be flushed before they are issued.
pub struct SelectedFragments {
    pub fragments: Vec<(u64, usize)>,
    pub minimum_flushed_pos: u64,
}

impl DiskFragments {
    /// Calculates the given file's total storage on disk.
    pub fn file_size(&self, path: &[u8]) -> (r: Option<usize>)
        requires
            self.wf(),
            self@.dom().contains(path@) ==> frags_size(self@[path@]) <= usize::MAX,
        ensures
            match r {
                Some(n) => self@.dom().contains(path@) && n == frags_size(self@[path@]),
                None => !self@.dom().contains(path@),
            },
    {
        let (idx, found) = self.find(path);
        if !found {
            return None;
        }
        proof {
            lemma_map_index(self.entries@, idx as int);
        }
        Some(sum_fragment_sizes(&self.entries[idx].fragments))
    }

    /// The total space taken up by valid fragments.
    pub fn total_size(&self) -> (r: usize)
        requires
            self.wf(),
            entries_size(self.entries@) <= usize::MAX,
        ensures
            r == entries_size(self.entries@),
    {
        let ghost es = self.entries@;
        let mut total: usize = 0;
        let n = self.entries.len();
        let mut k: usize = 0;
        proof {
            assert(es.skip(0) =~= es);
        }
        while k < n
            invariant
                self.wf(),
                es == self.entries@,
                entries_size(es) <= usize::MAX,
                n == es.len(),
                0 <= k <= n,
                total == entries_size(es) - entries_size(es.skip(k as int)),
            decreases n - k,
        {
            proof {
                assert(es.skip(k as int)[0] == es[k as int]);
                assert(es.skip(k as int).skip(1) =~= es.skip(k as int + 1));
                lemma_entries_size_nonneg_from(es, k as int + 1);
                lemma_frags_size_nonneg(es[k as int].fragments@);
            }
            let part = sum_fragment_sizes(&self.entries[k].fragments);
            total = total + part;
            k = k + 1;
        }
        proof {
            assert(es.skip(n as int) =~= Seq::<FileEntry>::empty());
        }
        total
    }

    /// The entries of the index, in ascending path order.
    pub fn inner(&self) -> (r: &Vec<FileEntry>)
        ensures
            r@ == self.entries@,
    {
        &self.entries
    }

    /// Calculates what fragments of file data are required in order to read
    /// a given range of data as if it was a normal file on disk.
    #[verifier::rlimit(100)]
    #[verifier::spinoff_prover]
    pub fn get_selected_fragments(&self, path: &[u8], lo: usize, hi: usize) -> (r: Result<
        SelectedFragments,
        SegmentError,
    >)
        requires
            self.wf(),
            lo <= hi,
        ensures
            match r {
                Ok(sel) => {
                    &&& self@.dom().contains(path@)
                    &&& chunks_view(sel.fragments@) == selected_spec(
                        self@[path@],
                        lo as int,
                        hi - lo,
                    )
                    &&& sel.minimum_flushed_pos == frags_max_end(self@[path@])
                },
                Err(e) => e is NotFound && !self@.dom().contains(path@),
            },
    {
        let (idx, found) = self.find(path);
        if !found {
            return Err(SegmentError::NotFound);
        }
        proof {
            lemma_map_index(self.entries@, idx as int);
        }
        let frags = &self.entries[idx].fragments;
        let ghost fseq = frags@;
        let n = frags.len();
        let mut max_end: u64 = 0;
        let mut to_skip: usize = lo;
        let mut remaining: usize = hi - lo;
        let mut selected: Vec<(u64, usize)> = Vec::new();
        let mut k: usize = 0;
        proof {
            assert(fseq.skip(0) =~= fseq);
            assert(chunks_view(selected@) =~= Seq::<(int, int)>::empty());
            lemma_frags_max_end_nonneg(fseq);
            assert(chunks_view(selected@) + selected_spec(fseq, lo as int, hi - lo)
                =~= selected_spec(fseq, lo as int, hi - lo));
        }
        while k < n
            invariant
                frags_wf(fseq),
                fseq == frags@,
                n == fseq.len(),
                0 <= k <= n,
                to_skip <= lo,
                remaining <= hi - lo,
                max_end as int <= frags_max_end(fseq),
                max(max_end as int, frags_max_end(fseq.skip(k as int))) == frags_max_end(fseq),
                chunks_view(selected@) + selected_spec(fseq.skip(k as int), to_skip as int, remaining as int)
                    =~= selected_spec(fseq, lo as int, hi - lo),
            decreases n - k,
        {
            let ghost pre = selected@;
            let ghost pre_skip = to_skip as int;
            let ghost pre_rem = remaining as int;
            proof {
                assert(fseq.skip(k as int)[0] == fseq[k as int]);
                assert(fseq.skip(k as int).skip(1) =~= fseq.skip(k as int + 1));
            }
            let f = *vstd::slice::slice_index_get(frags.as_slice(), k);
            if max_end < f.end {
                max_end = f.end;
            }
            let flen: u64 = f.end - f.start;
            if remaining > 0 {
                if flen <= to_skip as u64 {
                    to_skip = to_skip - flen as usize;
                } else {
                    let offset: u64 = f.start + to_skip as u64;
                    let avail: u64 = f.end - offset;
                    let emit: u64 = if avail <= remaining as u64 {
                        avail
                    } else {
                        remaining as u64
                    };
                    selected.push((offset, emit as usize));
                    remaining = remaining - emit as usize;
                    to_skip = 0;
                    proof {
                        assert(chunks_view(selected@) =~= chunks_view(pre) + seq![
                            (offset as int, emit as int),
                        ]);
                        assert(selected_spec(fseq.skip(k as int), pre_skip, pre_rem) =~= seq![
                            (offset as int, emit as int),
                        ] + selected_spec(fseq.skip(k as int + 1), 0, pre_rem - emit));
                        assert(chunks_view(selected@) + selected_spec(
                            fseq.skip(k as int + 1),
                            to_skip as int,
                            remaining as int,
                        ) =~= (chunks_view(pre) + seq![(offset as int, emit as int)])
                            + selected_spec(fseq.skip(k as int + 1), 0, pre_rem - emit));
                    }
                }
            }
            k = k + 1;
        }
        proof {
            assert(fseq.skip(n as int) =~= Seq::<Fragment>::empty());
            assert(chunks_view(selected@) + selected_spec(
                fseq.skip(n as int),
                to_skip as int,
                remaining as int,
            ) =~= chunks_view(selected@));
        }
        Ok(SelectedFragments { fragments: selected, minimum_flushed_pos: max_end })
    }
}

/// Sums the sizes of a list of fragments.
fn sum_fragment_sizes(frags: &Vec<Fragment>) -> (r: usize)
    requires
        forall|i: int| 0 <= i < frags@.len() ==> (#[trigger] frags@[i]).start <= frags@[i].end,
        frags_size(frags@) <= usize::MAX,
    ensures
        r == frags_size(frags@),
{
    let ghost fs = frags@;
    let mut total: usize = 0;
    let n = frags.len();
    let mut k: usize = 0;
    proof {
        assert(fs.skip(0) =~= fs);
    }
    while k < n
        invariant
            forall|i: int| 0 <= i < fs.len() ==> (#[trigger] fs[i]).start <= fs[i].end,
            fs == frags@,
            frags_size(fs) <= usize::MAX,
            n == fs.len(),
            0 <= k <= n,
            total == frags_size(fs) - frags_size(fs.skip(k as int)),
        decreases n - k,
    {
        proof {
            assert(fs.skip(k as int)[0] == fs[k as int]);
            assert(fs.skip(k as int).skip(1) =~= fs.skip(k as int + 1));
            lemma_frags_size_nonneg(fs.skip(k as int + 1));
        }
        let f = *vstd::slice::slice_index_get(frags.as_slice(), k);
        total = total + (f.end - f.start) as usize;
        k = k + 1;
    }
    proof {
        assert(fs.skip(n as int) =~= Seq::<Fragment>::empty());
    }
    total
}

/// The suffix of a well-formed entry sequence covers a non-negative total.
proof fn lemma_entries_size_nonneg_from(es: Seq<FileEntry>, k: int)
    requires
        0 <= k <= es.len(),
        forall|i: int| 0 <= i < es.len() ==> frags_wf((#[trigger] es[i]).fragments@),
    ensures
        entries_size(es.skip(k)) >= 0,
    decreases es.len() - k,
{
    if k < es.len() {
        assert(es.skip(k)[0] == es[k]);
        assert(es.skip(k).skip(1) =~= es.skip(k + 1));
        lemma_entries_size_nonneg_from(es, k + 1);
        lemma_frags_size_nonneg(es[k].fragments@);
    }
}

} // verus!

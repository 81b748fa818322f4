//! Logical paths and their ordering.
//!
//! A logical path is an opaque byte sequence. The fragment index and the
//! published-segment metadata keep their entries in strict ascending path
//! order, so the ordering and its properties live here.

use vstd::prelude::*;

verus! {

/// Strict lexicographic order on byte sequences: `a` comes before `b`.
pub open spec fn lex_lt(a: Seq<u8>, b: Seq<u8>) -> bool
    decreases a.len(),
{
    if b.len() == 0 {
        false
    } else if a.len() == 0 {
        true
    } else if a[0] < b[0] {
        true
    } else if a[0] > b[0] {
        false
    } else {
        lex_lt(a.skip(1), b.skip(1))
    }
}

/// Result of comparing two paths.
pub enum PathOrd {
    Less,
    Equal,
    Greater,
}

/// Two distinct sequences never order both ways.
pub proof fn lemma_lex_lt_asymmetric(a: Seq<u8>, b: Seq<u8>)
    requires
        lex_lt(a, b),
    ensures
        !lex_lt(b, a),
        a != b,
    decreases a.len(),
{
    if a.len() != 0 && b.len() != 0 && a[0] == b[0] {
        lemma_lex_lt_asymmetric(a.skip(1), b.skip(1));
        assert(a != b) by {
            assert(a.skip(1) != b.skip(1));
        }
    }
}

/// Any two sequences are ordered one way or the other, or are equal.
pub proof fn lemma_lex_lt_total(a: Seq<u8>, b: Seq<u8>)
    ensures
        a == b || lex_lt(a, b) || lex_lt(b, a),
    decreases a.len(),
{
    if a.len() != 0 && b.len() != 0 && a[0] == b[0] {
        lemma_lex_lt_total(a.skip(1), b.skip(1));
        if a.skip(1) == b.skip(1) {
            assert forall|i: int| 0 <= i < a.len() implies a[i] == b[i] by {
                if i >= 1 {
                    assert(a[i] == a.skip(1)[i - 1]);
                    assert(b[i] == b.skip(1)[i - 1]);
                }
            }
            assert(a =~= b);
        }
    }
}

/// The order is transitive.
pub proof fn lemma_lex_lt_trans(a: Seq<u8>, b: Seq<u8>, c: Seq<u8>)
    requires
        lex_lt(a, b),
        lex_lt(b, c),
    ensures
        lex_lt(a, c),
    decreases a.len(),
{
    if a.len() != 0 && b.len() != 0 && c.len() != 0 {
        if a[0] == b[0] && b[0] == c[0] {
            lemma_lex_lt_trans(a.skip(1), b.skip(1), c.skip(1));
        }
    }
}

/// Sequences that agree up to `i` and differ at `i` are ordered by byte `i`.
proof fn lemma_lex_lt_from_diff(a: Seq<u8>, b: Seq<u8>, i: int)
    requires
        0 <= i < a.len(),
        i < b.len(),
        forall|k: int| 0 <= k < i ==> a[k] == b[k],
        a[i] < b[i],
    ensures
        lex_lt(a, b),
    decreases i,
{
    if i > 0 {
        lemma_lex_lt_from_diff(a.skip(1), b.skip(1), i - 1);
    }
}

/// A strict prefix comes before the longer sequence.
proof fn lemma_lex_lt_from_prefix(a: Seq<u8>, b: Seq<u8>)
    requires
        a.len() < b.len(),
        forall|k: int| 0 <= k < a.len() ==> a[k] == b[k],
    ensures
        lex_lt(a, b),
    decreases a.len(),
{
    if a.len() > 0 {
        lemma_lex_lt_from_prefix(a.skip(1), b.skip(1));
    }
}

/// Compares two paths byte by byte.
pub fn path_cmp(a: &[u8], b: &[u8]) -> (r: PathOrd)
    ensures
        r is Less <==> lex_lt(a@, b@),
        r is Equal <==> a@ == b@,
        r is Greater <==> lex_lt(b@, a@),
{
    let a_len: usize = a.len();
    let b_len: usize = b.len();
    let common: usize = if a_len < b_len {
        a_len
    } else {
        b_len
    };
    let mut i: usize = 0;
    while i < common
        invariant
            0 <= i <= common,
            common == if a@.len() < b@.len() {
                a@.len() as int
            } else {
                b@.len() as int
            },
            forall|k: int| 0 <= k < i ==> a@[k] == b@[k],
        decreases common - i,
    {
        let x = a[i];
        let y = b[i];
        if x < y {
            proof {
                lemma_lex_lt_from_diff(a@, b@, i as int);
                lemma_lex_lt_asymmetric(a@, b@);
            }
            return PathOrd::Less;
        }
        if y < x {
            proof {
                lemma_lex_lt_from_diff(b@, a@, i as int);
                lemma_lex_lt_asymmetric(b@, a@);
            }
            return PathOrd::Greater;
        }
        i = i + 1;
    }
    if a_len < b_len {
        proof {
            lemma_lex_lt_from_prefix(a@, b@);
            lemma_lex_lt_asymmetric(a@, b@);
        }
        PathOrd::Less
    } else if b_len < a_len {
        proof {
            lemma_lex_lt_from_prefix(b@, a@);
            lemma_lex_lt_asymmetric(b@, a@);
        }
        PathOrd::Greater
    } else {
        proof {
            assert(a@ =~= b@);
            lemma_lex_lt_total(a@, b@);
            if lex_lt(a@, b@) {
                lemma_lex_lt_asymmetric(a@, b@);
            }
        }
        PathOrd::Equal
    }
}

} // verus!

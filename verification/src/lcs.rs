//! The length of a longest common subsequence, and what follows from its
//! definition.

use vstd::prelude::*;

verus! {

/// Length of a longest common subsequence of the first `i` tokens of `a`
/// and the first `j` tokens of `b`, by the classical recurrence. Positions
/// past the end of a sequence match nothing.
pub open spec fn lcs_len(a: Seq<Seq<u8>>, b: Seq<Seq<u8>>, i: int, j: int) -> int
    decreases i + j,
{
    if i <= 0 || j <= 0 {
        0
    } else if i <= a.len() && j <= b.len() && a[i - 1] == b[j - 1] {
        1 + lcs_len(a, b, i - 1, j - 1)
    } else if lcs_len(a, b, i - 1, j) >= lcs_len(a, b, i, j - 1) {
        lcs_len(a, b, i - 1, j)
    } else {
        lcs_len(a, b, i, j - 1)
    }
}

/// Number of insertions and deletions that turn the first `i` tokens of
/// `a` into the first `j` tokens of `b`.
pub open spec fn edit_distance(a: Seq<Seq<u8>>, b: Seq<Seq<u8>>, i: int, j: int) -> int {
    i + j - 2 * lcs_len(a, b, i, j)
}

/// One step back in either sequence loses at most one common token, and
/// one step back in both loses at most one.
pub proof fn lemma_lcs_step(a: Seq<Seq<u8>>, b: Seq<Seq<u8>>, i: int, j: int)
    requires
        0 <= i,
        0 <= j,
    ensures
        0 <= lcs_len(a, b, i, j),
        lcs_len(a, b, i, j) <= i,
        lcs_len(a, b, i, j) <= j,
        i > 0 ==> lcs_len(a, b, i - 1, j) <= lcs_len(a, b, i, j),
        j > 0 ==> lcs_len(a, b, i, j - 1) <= lcs_len(a, b, i, j),
        i > 0 && j > 0 ==> lcs_len(a, b, i, j) <= lcs_len(a, b, i - 1, j - 1) + 1,
    decreases i + j,
{
    if i > 0 && j > 0 {
        lemma_lcs_step(a, b, i - 1, j - 1);
        lemma_lcs_step(a, b, i - 1, j);
        lemma_lcs_step(a, b, i, j - 1);
    }
}

/// Longer prefixes have no shorter common subsequence.
pub proof fn lemma_lcs_monotone(a: Seq<Seq<u8>>, b: Seq<Seq<u8>>, i: int, j: int, i2: int, j2: int)
    requires
        0 <= i <= i2,
        0 <= j <= j2,
    ensures
        lcs_len(a, b, i, j) <= lcs_len(a, b, i2, j2),
    decreases (i2 - i) + (j2 - j),
{
    if i < i2 {
        lemma_lcs_monotone(a, b, i, j, i2 - 1, j2);
        lemma_lcs_step(a, b, i2, j2);
    } else if j < j2 {
        lemma_lcs_monotone(a, b, i, j, i2, j2 - 1);
        lemma_lcs_step(a, b, i2, j2);
    }
}

/// A run of `len` matching pairs from `(x, y)` on adds `len` to the length.
pub proof fn lemma_lcs_run(a: Seq<Seq<u8>>, b: Seq<Seq<u8>>, x: int, y: int, len: int)
    requires
        0 <= x,
        0 <= y,
        0 <= len,
        x + len <= a.len(),
        y + len <= b.len(),
        forall|p: int| x <= p < x + len ==> #[trigger] a[p] == b[p - x + y],
    ensures
        lcs_len(a, b, x + len, y + len) == lcs_len(a, b, x, y) + len,
    decreases len,
{
    if len > 0 {
        lemma_lcs_run(a, b, x, y, len - 1);
        assert(a[x + len - 1] == b[(x + len - 1) - x + y]);
    }
}

} // verus!

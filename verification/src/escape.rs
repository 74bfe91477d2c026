//! Recognition of SGR escape sequences, `ESC [ body m`, at the start of a
//! byte string.

use vstd::prelude::*;
use vstd::slice::slice_subrange;

verus! {

/// The escape byte that opens a sequence.
pub const ESC: u8 = 0x1b;

/// The `[` that follows the escape byte.
pub const BRACKET: u8 = 0x5b;

/// The `m` that closes a sequence.
pub const FINAL_M: u8 = 0x6d;

/// Number of bytes of `s` that stand before the first `target`; `s.len()`
/// where `s` holds none.
pub open spec fn first_index(s: Seq<u8>, target: u8) -> int
    decreases s.len(),
{
    if s.len() == 0 || s[0] == target {
        0
    } else {
        1 + first_index(s.drop_first(), target)
    }
}

/// `ESC [` stands at position `i` of `s`.
pub open spec fn opens_escape(s: Seq<u8>, i: int) -> bool {
    0 <= i && i + 1 < s.len() && s[i] == ESC && s[i + 1] == BRACKET
}

/// Length of the one complete sequence that `s` starts with, 0 where it
/// starts with none. A sequence that lacks its closing `m` is none.
pub open spec fn escape_len(s: Seq<u8>) -> int {
    if opens_escape(s, 0) && first_index(s.subrange(2, s.len() as int), FINAL_M) < s.len() - 2 {
        first_index(s.subrange(2, s.len() as int), FINAL_M) + 3
    } else {
        0
    }
}

/// Total length of the longest run of complete sequences that `s` starts
/// with.
pub open spec fn escapes_len(s: Seq<u8>) -> int
    decreases s.len(),
{
    let n = escape_len(s);
    if 0 < n <= s.len() {
        n + escapes_len(s.subrange(n, s.len() as int))
    } else {
        0
    }
}

/// The first byte of `s` behind its leading escape sequences, if there is
/// one.
pub open spec fn first_byte(s: Seq<u8>) -> Option<u8> {
    if escapes_len(s) < s.len() {
        Some(s[escapes_len(s)])
    } else {
        None
    }
}

/// Number of bytes of `s` before the next `ESC [`; `s.len()` where there is
/// none.
pub open spec fn plain_len(s: Seq<u8>) -> int
    decreases s.len(),
{
    if s.len() == 0 || opens_escape(s, 0) {
        0
    } else {
        1 + plain_len(s.drop_first())
    }
}

/// `first_index` is the least position of `target`, or the length.
pub proof fn lemma_first_index(s: Seq<u8>, target: u8)
    ensures
        0 <= first_index(s, target) <= s.len(),
        first_index(s, target) < s.len() ==> s[first_index(s, target)] == target,
        forall|j: int| 0 <= j < first_index(s, target) ==> s[j] != target,
    decreases s.len(),
{
    if s.len() == 0 || s[0] == target {
    } else {
        let t = s.drop_first();
        lemma_first_index(t, target);
        assert forall|j: int| 0 <= j < first_index(s, target) implies s[j] != target by {
            if j > 0 {
                assert(s[j] == t[j - 1]);
            }
        }
    }
}

/// `plain_len` is the least position where `ESC [` stands, or the length.
pub proof fn lemma_plain_len(s: Seq<u8>)
    ensures
        0 <= plain_len(s) <= s.len(),
        plain_len(s) < s.len() ==> opens_escape(s, plain_len(s)),
        forall|j: int| 0 <= j < plain_len(s) ==> !opens_escape(s, j),
    decreases s.len(),
{
    if s.len() == 0 || opens_escape(s, 0) {
    } else {
        let t = s.drop_first();
        lemma_plain_len(t);
        if plain_len(t) < t.len() {
            assert(opens_escape(t, plain_len(t)));
            assert(t[plain_len(t)] == s[plain_len(t) + 1]);
            assert(t[plain_len(t) + 1] == s[plain_len(t) + 2]);
        }
        assert forall|j: int| 0 <= j < plain_len(s) implies !opens_escape(s, j) by {
            if j > 0 && j + 1 < s.len() {
                assert(s[j] == t[j - 1]);
                assert(s[j + 1] == t[j]);
                assert(!opens_escape(t, j - 1));
            }
        }
    }
}

/// Whatever position meets the description of `first_index` is it.
pub proof fn lemma_first_index_is(s: Seq<u8>, target: u8, i: int)
    requires
        0 <= i <= s.len(),
        i < s.len() ==> s[i] == target,
        forall|j: int| 0 <= j < i ==> s[j] != target,
    ensures
        first_index(s, target) == i,
{
    lemma_first_index(s, target);
    let f = first_index(s, target);
    if f < i {
        assert(s[f] == target);
    } else if i < f {
        assert(s[i] == target);
    }
}

/// Whatever position meets the description of `plain_len` is it.
pub proof fn lemma_plain_len_is(s: Seq<u8>, i: int)
    requires
        0 <= i <= s.len(),
        i < s.len() ==> opens_escape(s, i),
        forall|j: int| 0 <= j < i ==> !opens_escape(s, j),
    ensures
        plain_len(s) == i,
{
    lemma_plain_len(s);
    let f = plain_len(s);
    if f < i {
        assert(opens_escape(s, f));
    } else if i < f {
        assert(opens_escape(s, i));
    }
}

/// A complete sequence, where there is one, lies within the bytes.
pub proof fn lemma_escape_len_bounds(s: Seq<u8>)
    ensures
        escape_len(s) == 0 || 3 <= escape_len(s) <= s.len(),
{
    if s.len() >= 2 {
        lemma_first_index(s.subrange(2, s.len() as int), FINAL_M);
    }
}

/// The run of sequences lies within the bytes, and no complete sequence
/// starts where it ends.
pub proof fn lemma_escapes_len(s: Seq<u8>)
    ensures
        0 <= escapes_len(s) <= s.len(),
        escape_len(s.subrange(escapes_len(s), s.len() as int)) == 0,
    decreases s.len(),
{
    lemma_escape_len_bounds(s);
    let n = escape_len(s);
    if 0 < n <= s.len() {
        let rest = s.subrange(n, s.len() as int);
        lemma_escapes_len(rest);
        assert(rest.subrange(escapes_len(rest), rest.len() as int) =~= s.subrange(
            escapes_len(s),
            s.len() as int,
        ));
    } else {
        assert(s.subrange(0, s.len() as int) =~= s);
    }
}

/// Skipping is idempotent: what is left after the run of sequences starts
/// with no further sequence, so skipping again consumes nothing.
pub proof fn lemma_skip_twice(s: Seq<u8>)
    ensures
        0 <= escapes_len(s) <= s.len(),
        escapes_len(s.subrange(escapes_len(s), s.len() as int)) == 0,
{
    lemma_escapes_len(s);
}

/// Scans `buf` for `target` and returns the index of its first occurrence.
pub fn index_of(buf: &[u8], target: u8) -> (found: Option<usize>)
    ensures
        match found {
            Some(i) => i < buf@.len() && buf@[i as int] == target && forall|j: int|
                0 <= j < i ==> buf@[j] != target,
            None => forall|j: int| 0 <= j < buf@.len() ==> buf@[j] != target,
        },
        first_index(buf@, target) == match found {
            Some(i) => i as int,
            None => buf@.len() as int,
        },
{
    let mut i: usize = 0;
    while i < buf.len()
        invariant
            i <= buf@.len(),
            forall|j: int| 0 <= j < i ==> buf@[j] != target,
        decreases buf@.len() - i,
    {
        if buf[i] == target {
            proof {
                lemma_first_index_is(buf@, target, i as int);
            }
            return Some(i);
        }
        i += 1;
    }
    proof {
        lemma_first_index_is(buf@, target, buf@.len() as int);
    }
    None
}

/// Length of the complete sequence that `buf` starts with, if it starts
/// with one.
pub fn skip_escape_code(buf: &[u8]) -> (skipped: Option<usize>)
    ensures
        match skipped {
            Some(n) => n == escape_len(buf@) && 3 <= n <= buf@.len(),
            None => escape_len(buf@) == 0,
        },
{
    proof {
        lemma_escape_len_bounds(buf@);
    }
    if 2 <= buf.len() && buf[0] == ESC && buf[1] == BRACKET {
        let body = slice_subrange(buf, 2, buf.len());
        match index_of(body, FINAL_M) {
            Some(i) => {
                Some(i + 3)
            },
            None => None,
        }
    } else {
        None
    }
}

/// Returns the number of bytes of escape sequences that start the slice.
pub fn skip_all_escape_code(buf: &[u8]) -> (sum: usize)
    ensures
        sum == escapes_len(buf@),
        sum <= buf@.len(),
{
    let mut rest: &[u8] = buf;
    let mut sum: usize = 0;
    let total = buf.len();
    proof {
        assert(buf@.subrange(0, buf@.len() as int) =~= buf@);
        lemma_escapes_len(buf@);
    }
    loop
        invariant
            total == buf@.len(),
            sum <= total,
            rest@ == buf@.subrange(sum as int, buf@.len() as int),
            sum + escapes_len(rest@) == escapes_len(buf@),
        ensures
            sum == escapes_len(buf@),
            sum <= buf@.len(),
        decreases rest@.len(),
    {
        match skip_escape_code(rest) {
            Some(nbytes) => {
                proof {
                    lemma_escapes_len(rest@);
                    assert(rest@.subrange(nbytes as int, rest@.len() as int) =~= buf@.subrange(
                        sum + nbytes,
                        buf@.len() as int,
                    ));
                }
                rest = slice_subrange(rest, nbytes, rest.len());
                sum += nbytes;
            },
            None => {
                break ;
            },
        }
    }
    sum
}

/// Returns the first byte of the slice that follows its leading escape
/// sequences, if any byte does.
pub fn first_after_escape(buf: &[u8]) -> (first: Option<u8>)
    ensures
        first == first_byte(buf@),
{
    let nbytes = skip_all_escape_code(buf);
    if nbytes < buf.len() {
        Some(buf[nbytes])
    } else {
        None
    }
}

/// Computes the number of bytes until either the next `ESC [` or the end of
/// the slice.
pub fn skip_token(buf: &[u8]) -> (n: usize)
    ensures
        n == plain_len(buf@),
        n <= buf@.len(),
        n < buf@.len() ==> opens_escape(buf@, n as int),
        forall|j: int| 0 <= j < n ==> !opens_escape(buf@, j),
{
    let len = buf.len();
    if len == 0 {
        return 0;
    }
    let mut i: usize = 0;
    while i < len - 1
        invariant
            len == buf@.len(),
            len > 0,
            i <= len - 1,
            forall|j: int| 0 <= j < i ==> !opens_escape(buf@, j),
        decreases len - i,
    {
        if buf[i] == ESC && buf[i + 1] == BRACKET {
            proof {
                lemma_plain_len_is(buf@, i as int);
            }
            return i;
        }
        i += 1;
    }
    proof {
        lemma_plain_len_is(buf@, len as int);
    }
    len
}

} // verus!

//! Snakes: runs of matching token pairs, and what makes a list of them an
//! alignment of two token sequences.

use vstd::prelude::*;
use crate::lcs::{lcs_len, lemma_lcs_monotone, lemma_lcs_run, lemma_lcs_step};

verus! {

/// For every `i` below `length`, token `x0 + i` of the removed side equals
/// token `y0 + i` of the added side.
#[derive(Clone, Copy, Debug, PartialEq, Eq)]
pub struct Snake {
    pub x0: usize,
    pub y0: usize,
    pub length: usize,
}

/// The snake is not empty, lies within both sequences, and every pair of it
/// matches.
pub open spec fn snake_matches(a: Seq<Seq<u8>>, b: Seq<Seq<u8>>, s: Snake) -> bool {
    &&& 0 < s.length
    &&& s.x0 + s.length <= a.len()
    &&& s.y0 + s.length <= b.len()
    &&& forall|p: int| s.x0 <= p < s.x0 + s.length ==> #[trigger] a[p] == b[p - s.x0 + s.y0]
}

/// Every snake matches, and each begins, on both sides, where the one
/// before it has ended, or later.
pub open spec fn is_alignment(a: Seq<Seq<u8>>, b: Seq<Seq<u8>>, snakes: Seq<Snake>) -> bool {
    &&& forall|k: int| 0 <= k < snakes.len() ==> snake_matches(a, b, #[trigger] snakes[k])
    &&& forall|k: int, l: int|
        0 <= k < l < snakes.len() ==> (#[trigger] snakes[k]).x0 + snakes[k].length <= (
        #[trigger] snakes[l]).x0 && snakes[k].y0 + snakes[k].length <= snakes[l].y0
}

/// Number of matching pairs in all snakes together.
pub open spec fn total_length(snakes: Seq<Snake>) -> int
    decreases snakes.len(),
{
    if snakes.len() == 0 {
        0
    } else {
        total_length(snakes.drop_last()) + snakes.last().length
    }
}

/// No snake of the list reaches beyond `(x, y)`.
pub open spec fn ends_by(snakes: Seq<Snake>, x: int, y: int) -> bool {
    forall|k: int|
        0 <= k < snakes.len() ==> (#[trigger] snakes[k]).x0 + snakes[k].length <= x
            && snakes[k].y0 + snakes[k].length <= y
}

/// An alignment is a common subsequence, so it holds no more pairs than a
/// longest one.
pub proof fn lemma_alignment_bound(
    a: Seq<Seq<u8>>,
    b: Seq<Seq<u8>>,
    snakes: Seq<Snake>,
    x: int,
    y: int,
)
    requires
        is_alignment(a, b, snakes),
        ends_by(snakes, x, y),
        0 <= x,
        0 <= y,
    ensures
        0 <= total_length(snakes) <= lcs_len(a, b, x, y),
    decreases snakes.len(),
{
    if snakes.len() == 0 {
        lemma_lcs_step(a, b, x, y);
    } else {
        let last = snakes.last();
        let front = snakes.drop_last();
        assert(snake_matches(a, b, snakes[snakes.len() - 1]));
        assert forall|k: int| 0 <= k < front.len() implies (#[trigger] front[k]).x0
            + front[k].length <= last.x0 && front[k].y0 + front[k].length <= last.y0 by {
            assert(front[k] == snakes[k]);
        }
        assert(is_alignment(a, b, front)) by {
            assert forall|k: int| 0 <= k < front.len() implies snake_matches(
                a,
                b,
                #[trigger] front[k],
            ) by {
                assert(front[k] == snakes[k]);
            }
            assert forall|k: int, l: int| 0 <= k < l < front.len() implies (#[trigger] front[k]).x0
                + front[k].length <= (#[trigger] front[l]).x0 && front[k].y0 + front[k].length
                <= front[l].y0 by {
                assert(front[k] == snakes[k] && front[l] == snakes[l]);
            }
        }
        lemma_alignment_bound(a, b, front, last.x0 as int, last.y0 as int);
        lemma_lcs_run(a, b, last.x0 as int, last.y0 as int, last.length as int);
        lemma_lcs_monotone(a, b, last.x0 + last.length, last.y0 + last.length, x, y);
    }
}

/// Appending a snake that matches and begins where the others have ended
/// keeps an alignment, and adds its length.
pub proof fn lemma_alignment_push(
    a: Seq<Seq<u8>>,
    b: Seq<Seq<u8>>,
    snakes: Seq<Snake>,
    s: Snake,
)
    requires
        is_alignment(a, b, snakes),
        snake_matches(a, b, s),
        ends_by(snakes, s.x0 as int, s.y0 as int),
    ensures
        is_alignment(a, b, snakes.push(s)),
        ends_by(snakes.push(s), s.x0 + s.length, s.y0 + s.length),
        total_length(snakes.push(s)) == total_length(snakes) + s.length,
{
    let next = snakes.push(s);
    assert(next.drop_last() =~= snakes);
    assert forall|k: int| 0 <= k < next.len() implies snake_matches(a, b, #[trigger] next[k]) by {
        if k < snakes.len() {
            assert(next[k] == snakes[k]);
        }
    }
    assert forall|k: int, l: int| 0 <= k < l < next.len() implies (#[trigger] next[k]).x0
        + next[k].length <= (#[trigger] next[l]).x0 && next[k].y0 + next[k].length
        <= next[l].y0 by {
        assert(next[k] == snakes[k]);
        if l < snakes.len() {
            assert(next[l] == snakes[l]);
        }
    }
    assert forall|k: int| 0 <= k < next.len() implies (#[trigger] next[k]).x0 + next[k].length
        <= s.x0 + s.length && next[k].y0 + next[k].length <= s.y0 + s.length by {
        if k < snakes.len() {
            assert(next[k] == snakes[k]);
        }
    }
}

/// In an alignment both `x0` and `y0` grow strictly from snake to snake.
pub proof fn lemma_alignment_strict(a: Seq<Seq<u8>>, b: Seq<Seq<u8>>, snakes: Seq<Snake>)
    requires
        is_alignment(a, b, snakes),
    ensures
        forall|k: int, l: int|
            0 <= k < l < snakes.len() ==> (#[trigger] snakes[k]).x0 < (#[trigger] snakes[l]).x0
                && snakes[k].y0 < snakes[l].y0,
        forall|k: int|
            0 <= k < snakes.len() ==> (#[trigger] snakes[k]).x0 + snakes[k].length <= a.len()
                && snakes[k].y0 + snakes[k].length <= b.len(),
{
    assert forall|k: int, l: int| 0 <= k < l < snakes.len() implies (#[trigger] snakes[k]).x0 < (
    #[trigger] snakes[l]).x0 && snakes[k].y0 < snakes[l].y0 by {
        assert(snake_matches(a, b, snakes[k]));
    }
    assert forall|k: int| 0 <= k < snakes.len() implies (#[trigger] snakes[k]).x0
        + snakes[k].length <= a.len() && snakes[k].y0 + snakes[k].length <= b.len() by {
        assert(snake_matches(a, b, snakes[k]));
    }
}

/// The product of two integers as its sign and its size.
fn signed_product(p: i128, q: i128) -> (r: (i8, u128))
    requires
        -0x1_0000_0000_0000_0000 < p < 0x1_0000_0000_0000_0000,
        -0x1_0000_0000_0000_0000 < q < 0x1_0000_0000_0000_0000,
    ensures
        p * q == (if r.0 > 0 {
            r.1 as int
        } else if r.0 < 0 {
            -(r.1 as int)
        } else {
            0
        }),
        r.0 == 0 <==> r.1 == 0,
        -1 <= r.0 <= 1,
{
    let size_p: u128 = if p < 0 {
        (-p) as u128
    } else {
        p as u128
    };
    let size_q: u128 = if q < 0 {
        (-q) as u128
    } else {
        q as u128
    };
    assert(size_p * size_q <= u128::MAX) by (nonlinear_arith)
        requires
            size_p < 0x1_0000_0000_0000_0000,
            size_q < 0x1_0000_0000_0000_0000,
    ;
    let size = size_p * size_q;
    assert(size == 0 <==> (p == 0 || q == 0)) by (nonlinear_arith)
        requires
            size == size_p * size_q,
            size_p == 0 <==> p == 0,
            size_q == 0 <==> q == 0,
    ;
    if p == 0 || q == 0 {
        assert(p * q == 0) by (nonlinear_arith)
            requires
                p == 0 || q == 0,
        ;
        (0, size)
    } else if (p < 0) == (q < 0) {
        assert(p * q == size_p * size_q) by (nonlinear_arith)
            requires
                (size_p == p && size_q == q) || (size_p == -p && size_q == -q),
        ;
        (1, size)
    } else {
        assert(p * q == -(size_p * size_q)) by (nonlinear_arith)
            requires
                (size_p == p && size_q == -q) || (size_p == -p && size_q == q),
        ;
        (-1, size)
    }
}

/// The three points lie on one line: the vectors from the first to the
/// second and from the first to the third have a cross product of zero.
pub open spec fn collinear(z0: (int, int), z1: (int, int), z2: (int, int)) -> bool {
    (z1.0 - z0.0) * (z2.1 - z0.1) == (z1.1 - z0.1) * (z2.0 - z0.0)
}

/// Whether the three points lie on one line.
pub fn aligned(z0: &(isize, isize), z1: &(isize, isize), z2: &(isize, isize)) -> (yes: bool)
    ensures
        yes == collinear(
            (z0.0 as int, z0.1 as int),
            (z1.0 as int, z1.1 as int),
            (z2.0 as int, z2.1 as int),
        ),
{
    let a = z1.0 as i128 - z0.0 as i128;
    let b = z1.1 as i128 - z0.1 as i128;
    let c = z2.0 as i128 - z0.0 as i128;
    let d = z2.1 as i128 - z0.1 as i128;
    let left = signed_product(a, d);
    let right = signed_product(b, c);
    assert(a * d == (z1.0 - z0.0) * (z2.1 - z0.1)) by (nonlinear_arith)
        requires
            a == z1.0 - z0.0,
            d == z2.1 - z0.1,
    ;
    assert(b * c == (z1.1 - z0.1) * (z2.0 - z0.0)) by (nonlinear_arith)
        requires
            b == z1.1 - z0.1,
            c == z2.0 - z0.0,
    ;
    left.0 == right.0 && left.1 == right.1
}

} // verus!
